//! Why one full deck is enough for a table of up to twelve seated players:
//! the cards of a deck are worth 340 points together, and no player ever
//! scores more than 26.

use crate::card::{face_value, Card};
use crate::deck::{canonical_card, full_deck};
use crate::game::{fresh_game, GameView};
use crate::laws::lemma_opening;
use crate::player::{hand_total, state_of, PlayerState, PlayerView};
use vstd::prelude::*;

verus! {

/// What the first `f` faces of a suit are worth together.
pub open spec fn faces_total(f: int) -> int
    decreases f,
{
    if f <= 0 {
        0
    } else {
        faces_total(f - 1) + face_value(f - 1)
    }
}

/// The sum of the scores of the players.
pub open spec fn scores_total(players: Seq<PlayerView>) -> int
    decreases players.len(),
{
    if players.len() == 0 {
        0
    } else {
        scores_total(players.drop_last()) + players.last().score
    }
}

/// The points of a game: what the cards in the deck are worth, and what the
/// players have scored.
pub open spec fn points(g: GameView) -> int {
    hand_total(g.deck) + scores_total(g.players)
}

/// Every player's state fits the score, and no score is above 26.
pub open spec fn modest(g: GameView) -> bool {
    forall|j: int|
        0 <= j < g.players.len() ==> {
            let p = #[trigger] g.players[j];
            p.state == state_of(p.score) && 0 <= p.score <= 26
        }
}

/// The thirteen faces of a suit are worth 85 points.
pub proof fn lemma_suit_total()
    ensures
        faces_total(13) == 85,
{
    reveal_with_fuel(faces_total, 14);
}

/// The first `k` cards of the unshuffled deck are worth 85 points for each
/// whole suit among them, and the faces of the suit begun.
pub proof fn lemma_full_deck_prefix(k: int)
    requires
        0 <= k <= 52,
    ensures
        hand_total(full_deck().take(k)) == 85 * (k / 13) + faces_total(k % 13),
    decreases k,
{
    let s = full_deck().take(k);
    if k == 0 {
        assert(s.len() == 0);
    } else {
        lemma_full_deck_prefix(k - 1);
        assert(s.drop_last() =~= full_deck().take(k - 1));
        assert(s.last() == canonical_card(k - 1));
        let f = (k - 1) % 13;
        if f == 12 {
            lemma_suit_total();
            assert(faces_total(13) == faces_total(12) + face_value(12));
            assert(k % 13 == 0);
            assert(k / 13 == (k - 1) / 13 + 1);
        } else {
            assert(k % 13 == f + 1);
            assert(k / 13 == (k - 1) / 13);
            assert(faces_total(f + 1) == faces_total(f) + face_value(f));
        }
    }
}

/// The cards of a full deck are worth 340 points.
pub proof fn lemma_full_deck_total()
    ensures
        hand_total(full_deck()) == 340,
{
    lemma_full_deck_prefix(52);
    assert(full_deck().take(52) =~= full_deck());
    assert(faces_total(0) == 0);
}

/// A hand is worth what it is worth without one of its cards, and that card.
pub proof fn lemma_total_without(s: Seq<Card>, k: int)
    requires
        0 <= k < s.len(),
    ensures
        hand_total(s) == hand_total(s.remove(k)) + face_value(s[k].face as int),
    decreases s.len(),
{
    if k == s.len() - 1 {
        assert(s.remove(k) =~= s.drop_last());
    } else {
        lemma_total_without(s.drop_last(), k);
        assert(s.remove(k).drop_last() =~= s.drop_last().remove(k));
        assert(s.remove(k).last() == s.last());
    }
}

/// The order of the cards does not change what they are worth.
pub proof fn lemma_total_of_permutation(a: Seq<Card>, b: Seq<Card>)
    requires
        a.to_multiset() == b.to_multiset(),
    ensures
        hand_total(a) == hand_total(b),
    decreases a.len(),
{
    vstd::seq_lib::to_multiset_len(a);
    vstd::seq_lib::to_multiset_len(b);
    if a.len() > 0 {
        let x = a.last();
        assert(a.contains(x));
        vstd::seq_lib::to_multiset_contains(a, x);
        vstd::seq_lib::to_multiset_contains(b, x);
        let k = choose|k: int| 0 <= k < b.len() && b[k] == x;
        assert(a.drop_last() =~= a.remove(a.len() - 1));
        vstd::seq_lib::to_multiset_remove(a, a.len() - 1);
        vstd::seq_lib::to_multiset_remove(b, k);
        lemma_total_of_permutation(a.drop_last(), b.remove(k));
        lemma_total_without(b, k);
    }
}

/// Scores between `low` and `high` add up to a sum between `low` and `high`
/// for each player.
pub proof fn lemma_scores_between(players: Seq<PlayerView>, low: int, high: int)
    requires
        forall|j: int| 0 <= j < players.len() ==> low <= (#[trigger] players[j]).score <= high,
    ensures
        low * players.len() <= scores_total(players) <= high * players.len(),
    decreases players.len(),
{
    if players.len() > 0 {
        lemma_scores_between(players.drop_last(), low, high);
        assert(low * players.len() == low * (players.len() - 1) + low) by (nonlinear_arith);
        assert(high * players.len() == high * (players.len() - 1) + high) by (nonlinear_arith);
    }
}

/// When one player changes, the sum of the scores changes by as much as
/// that player's score.
pub proof fn lemma_scores_after(players: Seq<PlayerView>, i: int, q: PlayerView)
    requires
        0 <= i < players.len(),
    ensures
        scores_total(players.update(i, q)) == scores_total(players) - players[i].score + q.score,
    decreases players.len(),
{
    let after = players.update(i, q);
    if i == players.len() - 1 {
        assert(after.drop_last() =~= players.drop_last());
    } else {
        lemma_scores_after(players.drop_last(), i, q);
        assert(after.drop_last() =~= players.drop_last().update(i, q));
    }
}

/// A card that is drawn adds to a score what it was worth in the deck.
pub proof fn lemma_draw_keeps_points(g: GameView, i: int)
    requires
        0 <= i < g.players.len(),
        g.deck.len() > 0,
    ensures
        points(g.draw(i)) == points(g),
{
    lemma_scores_after(g.players, i, g.players[i].dealt(g.deck.last()));
}

/// The opening deal from player `i` on keeps the points of the game.
pub proof fn lemma_opening_keeps_points(g: GameView, i: int)
    requires
        0 <= i <= g.players.len(),
    ensures
        points(g.opening_from(i).0) == points(g),
    decreases g.players.len() - i,
{
    if i < g.players.len() && g.deck.len() > 0 {
        lemma_draw_keeps_points(g, i);
        if g.deck.len() > 1 {
            lemma_draw_keeps_points(g.draw(i), i);
            lemma_opening_keeps_points(g.draw(i).draw(i), i + 1);
        }
    }
}

/// While at most thirteen players with scores of at most 26 share the 340
/// points of a deck, the deck is not empty.
pub proof fn lemma_cards_left(g: GameView)
    requires
        g.players.len() <= 13,
        points(g) == 340,
        modest(g),
    ensures
        g.deck.len() > 0,
{
    lemma_scores_between(g.players, 0, 26);
    if g.deck.len() == 0 {
        assert(hand_total(g.deck) == 0);
    }
}

/// The rest of a round from player `i` on, at a table of at most thirteen
/// that shares the points of a full deck, finds a card for everyone who asks.
pub proof fn lemma_round_from_served(g: GameView, i: int, turned: bool)
    requires
        0 <= i <= g.players.len() <= 13,
        points(g) == 340,
        modest(g),
    ensures
        g.round_from(i, turned).1,
        g.round_from(i, turned).0.players.len() == g.players.len(),
        points(g.round_from(i, turned).0) == 340,
        modest(g.round_from(i, turned).0),
        g.round_from(i, turned).0.deck.len() <= g.deck.len(),
        !turned && !g.round_from(i, turned).0.ended ==> g.round_from(i, turned).0.deck.len()
            < g.deck.len(),
    decreases g.players.len() - i,
{
    if i < g.players.len() {
        if g.players[i].state != PlayerState::CanAsk {
            lemma_round_from_served(g, i + 1, turned);
        } else {
            lemma_cards_left(g);
            lemma_draw_keeps_points(g, i);
            let h = g.draw(i);
            assert(g.players[i].score <= 16);
            assert forall|j: int| 0 <= j < h.players.len() implies {
                let p = #[trigger] h.players[j];
                p.state == state_of(p.score) && 0 <= p.score <= 26
            } by {
                if j != i {
                    assert(h.players[j] == g.players[j]);
                }
            }
            lemma_round_from_served(h, i + 1, true);
        }
    }
}

/// The rounds, at a table of at most thirteen that shares the points of a
/// full deck, never run out of cards and come to an end.
pub proof fn lemma_play_served(g: GameView)
    requires
        1 <= g.players.len() <= 13,
        points(g) == 340,
        modest(g),
    ensures
        g.play().1,
        g.play().0.ended,
    decreases g.deck.len(),
{
    if !g.ended {
        let r = g.round();
        if !g.dealer_done() {
            lemma_round_from_served(g, 0, false);
        }
        if r.1 && !r.0.ended && r.0.deck.len() < g.deck.len() {
            lemma_play_served(r.0);
        }
    }
}

/// A game of up to twelve seated players and the dealer, begun with empty
/// hands and a full deck in any order, is played to its end: the deck never
/// runs out.
pub proof fn lemma_full_deck_suffices(n: int, deck: Seq<Card>)
    requires
        0 <= n <= 12,
        deck.to_multiset() == full_deck().to_multiset(),
    ensures
        fresh_game(n, deck).run().1,
        fresh_game(n, deck).run().0.ended,
{
    let g = fresh_game(n, deck);
    vstd::seq_lib::to_multiset_len(deck);
    vstd::seq_lib::to_multiset_len(full_deck());
    lemma_total_of_permutation(deck, full_deck());
    lemma_full_deck_total();
    lemma_scores_between(g.players, 0, 0);
    lemma_opening(g);
    lemma_opening_keeps_points(g, 0);
    let o = g.opening().0;
    assert forall|j: int| 0 <= j < o.players.len() implies {
        let p = #[trigger] o.players[j];
        p.state == state_of(p.score) && 0 <= p.score <= 26
    } by {
        assert(g.players[j].score == 0);
    }
    lemma_play_served(o);
}

} // verus!
