//! What holds of every game: what the opening deal and a round do card by
//! card, that rounds use up the deck and so come to an end, and that no card
//! is created or lost.

use crate::card::Card;
use crate::deck::full_deck;
use crate::game::{askers_before, cards_held, fresh_game, GameView};
use crate::player::{PlayerState, PlayerView};
use vstd::multiset::Multiset;
use vstd::prelude::*;

verus! {

/// The count of players that can ask grows with the number of players
/// counted, and never exceeds it.
pub proof fn lemma_askers_grow(players: Seq<PlayerView>, i: int, j: int)
    requires
        0 <= i <= j,
    ensures
        0 <= askers_before(players, i) <= askers_before(players, j) <= j,
    decreases j,
{
    if i < j {
        lemma_askers_grow(players, i, j - 1);
    } else if j > 0 {
        lemma_askers_grow(players, i - 1, j - 1);
    }
}

/// Taking a card keeps a game well formed.
pub proof fn lemma_draw_wf(g: GameView, i: int)
    requires
        g.wf(),
        0 <= i < g.players.len(),
        g.deck.len() > 0,
    ensures
        g.draw(i).wf(),
        g.draw(i).players.len() == g.players.len(),
        g.draw(i).deck.len() == g.deck.len() - 1,
{
    let h = g.draw(i);
    let c = g.deck.last();
    assert(g.players[i].hand.push(c).drop_last() =~= g.players[i].hand);
    assert forall|j: int| 0 <= j < h.players.len() implies {
        let p = #[trigger] h.players[j];
        &&& p.wf()
        &&& p.is_dealer == (j == 0)
        &&& p.id == j - 1
        &&& 0 <= p.score <= 10 * (52 - h.deck.len())
    } by {
        let q = g.players[j];
        assert(q.wf());
    }
    assert(g.players[0].wf());
}

/// The opening deal from player `i` on, card by card. It succeeds exactly
/// when the deck holds two cards for each of the players from `i` on. Then
/// the players before `i` are as they were, and player `j` holds two cards
/// more: those that lay `2 * (j - i)` and `2 * (j - i) + 1` below the top.
/// The cards dealt have left the deck and the rest lies as before. When the
/// deal fails, the deck is empty.
pub proof fn lemma_opening_from(g: GameView, i: int)
    requires
        0 <= i <= g.players.len(),
    ensures
        g.opening_from(i).0.players.len() == g.players.len(),
        g.opening_from(i).0.ended == g.ended,
        g.opening_from(i).1 == (2 * (g.players.len() - i) <= g.deck.len()),
        !g.opening_from(i).1 ==> g.opening_from(i).0.deck.len() == 0,
        g.opening_from(i).1 ==> g.opening_from(i).0.deck == g.deck.take(
            g.deck.len() - 2 * (g.players.len() - i),
        ),
        g.opening_from(i).1 ==> forall|j: int|
            0 <= j < i ==> #[trigger] g.opening_from(i).0.players[j] == g.players[j],
        g.opening_from(i).1 ==> forall|j: int|
            i <= j < g.players.len() ==> #[trigger] g.opening_from(i).0.players[j]
                == g.players[j].dealt(g.deck[g.deck.len() - 1 - 2 * (j - i)]).dealt(
                g.deck[g.deck.len() - 2 - 2 * (j - i)],
            ),
    decreases g.players.len() - i,
{
    let n = g.players.len() as int;
    let len = g.deck.len() as int;
    if i >= n {
        assert(g.deck.take(len) =~= g.deck);
    } else if len == 0 {
    } else if len == 1 {
    } else {
        let g2 = g.draw(i).draw(i);
        lemma_opening_from(g2, i + 1);
        let r = g2.opening_from(i + 1);
        assert(g2.deck =~= g.deck.take(len - 2));
        if r.1 {
            assert(g2.deck.take(g2.deck.len() - 2 * (n - (i + 1))) =~= g.deck.take(
                len - 2 * (n - i),
            ));
            assert forall|j: int| 0 <= j < i implies #[trigger] r.0.players[j] == g.players[j] by {
                assert(r.0.players[j] == g2.players[j]);
            }
            assert forall|j: int| i <= j < n implies #[trigger] r.0.players[j]
                == g.players[j].dealt(g.deck[len - 1 - 2 * (j - i)]).dealt(
                g.deck[len - 2 - 2 * (j - i)],
            ) by {
                if j == i {
                    assert(r.0.players[j] == g2.players[j]);
                } else {
                    assert(g2.players[j] == g.players[j]);
                    assert(g2.deck[g2.deck.len() - 1 - 2 * (j - (i + 1))] == g.deck[len - 1 - 2 * (
                    j - i)]);
                    assert(g2.deck[g2.deck.len() - 2 - 2 * (j - (i + 1))] == g.deck[len - 2 - 2 * (
                    j - i)]);
                }
            }
        }
    }
}

/// The opening deal, card by card. It succeeds exactly when the deck holds
/// two cards for every player. Then player `j`, the dealer being player 0,
/// holds two cards more: those that lay `2 * j` and `2 * j + 1` below the
/// top. These cards have left the deck and the rest lies as before.
pub proof fn lemma_opening(g: GameView)
    ensures
        g.opening().1 == (2 * g.players.len() <= g.deck.len()),
        g.opening().0.players.len() == g.players.len(),
        g.opening().0.ended == g.ended,
        !g.opening().1 ==> g.opening().0.deck.len() == 0,
        g.opening().1 ==> g.opening().0.deck == g.deck.take(g.deck.len() - 2 * g.players.len()),
        g.opening().1 ==> forall|j: int|
            0 <= j < g.players.len() ==> #[trigger] g.opening().0.players[j]
                == g.players[j].dealt(g.deck[g.deck.len() - 1 - 2 * j]).dealt(
                g.deck[g.deck.len() - 2 - 2 * j],
            ),
{
    lemma_opening_from(g, 0);
}

/// The rest of a round, from player `i` on, in a game `g` that began the
/// round as `g0` and in which the players before `i` have had their turn.
/// The round succeeds exactly when the deck of `g0` holds a card for every
/// player of `g0` that can ask; it then leaves every player as `after_round`
/// says and the deck without the cards drawn.
pub proof fn lemma_round_from_cards(g0: GameView, g: GameView, i: int, turned: bool)
    requires
        0 <= i <= g0.players.len(),
        g.players.len() == g0.players.len(),
        g.ended == g0.ended,
        askers_before(g0.players, i) <= g0.deck.len(),
        g.deck == g0.deck.take(g0.deck.len() - askers_before(g0.players, i)),
        turned == (askers_before(g0.players, i) > 0),
        forall|j: int| 0 <= j < i ==> #[trigger] g.players[j] == g0.after_round(j),
        forall|j: int| i <= j < g0.players.len() ==> #[trigger] g.players[j] == g0.players[j],
    ensures
        g.round_from(i, turned).1 == (askers_before(g0.players, g0.players.len() as int)
            <= g0.deck.len()),
        !g.round_from(i, turned).1 ==> g.round_from(i, turned).0.deck.len() == 0,
        g.round_from(i, turned).1 ==> g.round_from(i, turned).0 == (GameView {
            deck: g0.deck.take(
                g0.deck.len() - askers_before(g0.players, g0.players.len() as int),
            ),
            players: Seq::new(g0.players.len(), |j: int| g0.after_round(j)),
            ended: g0.ended || askers_before(g0.players, g0.players.len() as int) == 0,
        }),
    decreases g0.players.len() - i,
{
    let n = g0.players.len() as int;
    let k = askers_before(g0.players, i);
    lemma_askers_grow(g0.players, 0, i);
    if i >= n {
        assert(g.players =~= Seq::new(g0.players.len(), |j: int| g0.after_round(j)));
    } else if g.players[i].state != PlayerState::CanAsk {
        assert(askers_before(g0.players, i + 1) == k);
        assert forall|j: int| 0 <= j < i + 1 implies #[trigger] g.players[j] == g0.after_round(
            j,
        ) by {}
        lemma_round_from_cards(g0, g, i + 1, turned);
    } else if g.deck.len() == 0 {
        assert(askers_before(g0.players, i + 1) == k + 1);
        lemma_askers_grow(g0.players, i + 1, n);
    } else {
        let h = g.draw(i);
        assert(askers_before(g0.players, i + 1) == k + 1);
        assert(h.deck =~= g0.deck.take(g0.deck.len() - (k + 1)));
        assert(g.deck.last() == g0.deck[g0.deck.len() - 1 - k]);
        assert forall|j: int| 0 <= j < i + 1 implies #[trigger] h.players[j] == g0.after_round(
            j,
        ) by {
            if j < i {
                assert(g.players[j] == g0.after_round(j));
            }
        }
        assert forall|j: int| i + 1 <= j < n implies #[trigger] h.players[j] == g0.players[j] by {
            assert(g.players[j] == g0.players[j]);
        }
        lemma_round_from_cards(g0, h, i + 1, true);
    }
}

/// A round, card by card. With a dealer that has 21 or is busted the rounds
/// are over and nothing else changes. Otherwise the round succeeds exactly
/// when the deck holds a card for every player that can ask. Each of them
/// then holds one card more, the first of them the top card, the next the
/// card below it, and so on; these cards have left the deck, and the rounds
/// are over if nobody could ask.
pub proof fn lemma_round_cards(g: GameView)
    requires
        g.players.len() >= 1,
    ensures
        g.dealer_done() ==> g.round() == (
            GameView { deck: g.deck, players: g.players, ended: true },
            true,
        ),
        !g.dealer_done() ==> g.round().1 == (askers_before(g.players, g.players.len() as int)
            <= g.deck.len()),
        !g.dealer_done() && g.round().1 ==> g.round().0 == (GameView {
            deck: g.deck.take(g.deck.len() - askers_before(g.players, g.players.len() as int)),
            players: Seq::new(g.players.len(), |j: int| g.after_round(j)),
            ended: g.ended || askers_before(g.players, g.players.len() as int) == 0,
        }),
        !g.round().1 ==> g.round().0.deck.len() == 0,
{
    if !g.dealer_done() {
        assert(g.deck.take(g.deck.len() as int) =~= g.deck);
        lemma_round_from_cards(g, g, 0, false);
    }
}

/// A card handed to one player is one card more among those held.
pub proof fn lemma_held_after_deal(players: Seq<PlayerView>, i: int, c: Card)
    requires
        0 <= i < players.len(),
    ensures
        cards_held(players.update(i, players[i].dealt(c))) == cards_held(players).insert(c),
    decreases players.len(),
{
    let after = players.update(i, players[i].dealt(c));
    vstd::seq_lib::to_multiset_build(players[i].hand, c);
    if i == players.len() - 1 {
        assert(after.drop_last() =~= players.drop_last());
    } else {
        lemma_held_after_deal(players.drop_last(), i, c);
        assert(after.drop_last() =~= players.drop_last().update(
            i,
            players.drop_last()[i].dealt(c),
        ));
    }
    assert(cards_held(after) =~= cards_held(players).insert(c));
}

/// Nobody holds a card before the first deal.
pub proof fn lemma_fresh_game_cards(n: int, deck: Seq<Card>)
    requires
        0 <= n,
    ensures
        fresh_game(n, deck).cards() == deck.to_multiset(),
{
    lemma_nothing_held(fresh_game(n, deck).players);
    assert(deck.to_multiset().add(Multiset::empty()) =~= deck.to_multiset());
}

/// Players with empty hands hold no cards.
pub proof fn lemma_nothing_held(players: Seq<PlayerView>)
    requires
        forall|j: int| 0 <= j < players.len() ==> (#[trigger] players[j]).hand.len() == 0,
    ensures
        cards_held(players) == Multiset::<Card>::empty(),
    decreases players.len(),
{
    if players.len() > 0 {
        lemma_nothing_held(players.drop_last());
        let hand = players.last().hand;
        assert forall|c: Card| hand.to_multiset().count(c) == 0 by {
            vstd::seq_lib::to_multiset_contains(hand, c);
        }
        assert(hand.to_multiset() =~= Multiset::<Card>::empty());
        assert(cards_held(players) =~= Multiset::<Card>::empty());
    }
}

/// Taking a card moves it from the deck to a hand: the cards of the game
/// stay the same.
pub proof fn lemma_draw_keeps_cards(g: GameView, i: int)
    requires
        0 <= i < g.players.len(),
        g.deck.len() > 0,
    ensures
        g.draw(i).cards() == g.cards(),
{
    let c = g.deck.last();
    lemma_held_after_deal(g.players, i, c);
    assert(g.deck.drop_last() =~= g.deck.remove(g.deck.len() - 1));
    vstd::seq_lib::to_multiset_remove(g.deck, g.deck.len() - 1);
    assert(g.deck.contains(c));
    vstd::seq_lib::to_multiset_contains(g.deck, c);
    assert(g.draw(i).cards() =~= g.cards());
}

/// The opening deal from player `i` on creates and loses no card.
pub proof fn lemma_opening_from_keeps_cards(g: GameView, i: int)
    requires
        0 <= i <= g.players.len(),
    ensures
        g.opening_from(i).0.cards() == g.cards(),
    decreases g.players.len() - i,
{
    if i < g.players.len() && g.deck.len() > 0 {
        lemma_draw_keeps_cards(g, i);
        if g.deck.len() > 1 {
            lemma_draw_keeps_cards(g.draw(i), i);
            lemma_opening_from_keeps_cards(g.draw(i).draw(i), i + 1);
        }
    }
}

/// The rest of a round from player `i` on creates and loses no card.
pub proof fn lemma_round_from_keeps_cards(g: GameView, i: int, turned: bool)
    requires
        0 <= i <= g.players.len(),
    ensures
        g.round_from(i, turned).0.cards() == g.cards(),
        g.round_from(i, turned).0.players.len() == g.players.len(),
    decreases g.players.len() - i,
{
    if i < g.players.len() {
        if g.players[i].state != PlayerState::CanAsk {
            lemma_round_from_keeps_cards(g, i + 1, turned);
        } else if g.deck.len() > 0 {
            lemma_draw_keeps_cards(g, i);
            lemma_round_from_keeps_cards(g.draw(i), i + 1, true);
        }
    }
}

/// The rounds create and lose no card.
pub proof fn lemma_play_keeps_cards(g: GameView)
    requires
        g.players.len() >= 1,
    ensures
        g.play().0.cards() == g.cards(),
        g.play().0.players.len() == g.players.len(),
    decreases g.deck.len(),
{
    if !g.ended {
        let r = g.round();
        if !g.dealer_done() {
            lemma_round_from_keeps_cards(g, 0, false);
        }
        if r.1 && !r.0.ended && r.0.deck.len() < g.deck.len() {
            lemma_play_keeps_cards(r.0);
        }
    }
}

/// No card is created or lost in a game: whether it ends or runs out of
/// cards, the deck and the hands together hold what they held before.
pub proof fn lemma_run_keeps_cards(g: GameView)
    requires
        g.players.len() >= 1,
    ensures
        g.run().0.cards() == g.cards(),
{
    lemma_opening_from_keeps_cards(g, 0);
    lemma_opening(g);
    if g.opening().1 {
        lemma_play_keeps_cards(g.opening().0);
    }
}

/// A game that began with empty hands and a full deck holds every card
/// once, in the deck or in a hand, however far it was played.
pub proof fn lemma_new_game_holds_full_deck(n: int, deck: Seq<Card>)
    requires
        0 <= n,
        deck.to_multiset() == full_deck().to_multiset(),
    ensures
        fresh_game(n, deck).cards() == full_deck().to_multiset(),
        fresh_game(n, deck).opening().0.cards() == full_deck().to_multiset(),
        fresh_game(n, deck).run().0.cards() == full_deck().to_multiset(),
{
    lemma_fresh_game_cards(n, deck);
    lemma_opening_from_keeps_cards(fresh_game(n, deck), 0);
    lemma_run_keeps_cards(fresh_game(n, deck));
}

/// What the rest of a round, from player `i` on, leaves of a well-formed
/// game: a well-formed game with the same players and no more cards in the
/// deck than before. If nobody had taken a card before `i`, and the rest of
/// the round succeeds without ending the game, then a card has left the deck.
pub proof fn lemma_round_from(g: GameView, i: int, turned: bool)
    requires
        g.wf(),
        0 <= i <= g.players.len(),
        !turned ==> forall|j: int|
            0 <= j < i ==> (#[trigger] g.players[j]).state != PlayerState::CanAsk,
    ensures
        g.round_from(i, turned).0.wf(),
        g.round_from(i, turned).0.players.len() == g.players.len(),
        g.round_from(i, turned).0.deck.len() <= g.deck.len(),
        g.round_from(i, turned).1 && !g.round_from(i, turned).0.ended && !turned ==> g.round_from(
            i,
            turned,
        ).0.deck.len() < g.deck.len(),
    decreases g.players.len() - i,
{
    if i >= g.players.len() {
        if !turned {
            assert(g.players[0].state != PlayerState::CanAsk);
        }
    } else if g.players[i].state != PlayerState::CanAsk {
        lemma_round_from(g, i + 1, turned);
    } else if g.deck.len() == 0 {
    } else {
        lemma_draw_wf(g, i);
        lemma_round_from(g.draw(i), i + 1, true);
    }
}

/// A round keeps a game well formed and never adds a card to the deck. A
/// round that succeeds and does not end the game takes at least one card off
/// the deck, so there are never more rounds than the deck has cards.
pub proof fn lemma_round_progress(g: GameView)
    requires
        g.wf(),
    ensures
        g.round().0.wf(),
        g.round().0.players.len() == g.players.len(),
        g.round().0.deck.len() <= g.deck.len(),
        g.round().1 && !g.round().0.ended ==> g.round().0.deck.len() < g.deck.len(),
{
    if !g.dealer_done() {
        lemma_round_from(g, 0, false);
    }
}

/// Playing round after round comes to an end for every well-formed game,
/// whatever the number of players: either the deck ran out, or the rounds are
/// over and the dealer has no turn left.
pub proof fn lemma_play_ends(g: GameView)
    requires
        g.wf(),
    ensures
        g.play().0.wf(),
        g.play().0.players.len() == g.players.len(),
        g.play().0.deck.len() <= g.deck.len(),
        g.play().1 ==> g.play().0.ended && g.play().0.players[0].state != PlayerState::CanAsk,
    decreases g.deck.len(),
{
    if !g.ended {
        lemma_round_progress(g);
        let r = g.round();
        if r.1 && !r.0.ended {
            lemma_play_ends(r.0);
        }
    }
}

} // verus!
