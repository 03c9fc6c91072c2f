//! The game: one deck, the dealer and the seated players, the rounds in which
//! cards are drawn, and the winners once the rounds are over.

use crate::card::Card;
use crate::deck::{distinct_cards, full_deck, Deck};
use crate::error::GameError;
use crate::player::{fresh_player, views, Player, PlayerState, PlayerView};
use crate::laws::{lemma_draw_wf, lemma_opening, lemma_round_progress};
use crate::supply::lemma_full_deck_suffices;
use vstd::multiset::Multiset;
use vstd::prelude::*;

verus! {

/// A game as contracts see it: the deck with its top card last, the players
/// with the dealer first, and whether the rounds are over.
pub struct GameView {
    pub deck: Seq<Card>,
    pub players: Seq<PlayerView>,
    pub ended: bool,
}

/// Whether `p` wins against `dealer`. A player that is busted or could still
/// take a card never wins. Against a busted dealer every other player wins;
/// against a dealer with 21 those who also have 21; against a dealer that
/// stays those with a strictly higher score.
pub open spec fn beats(dealer: PlayerView, p: PlayerView) -> bool {
    &&& p.state == PlayerState::Stay || p.state == PlayerState::BlackJack
    &&& match dealer.state {
        PlayerState::Busted => true,
        PlayerState::BlackJack => p.state == PlayerState::BlackJack,
        PlayerState::Stay => p.score > dealer.score,
        PlayerState::CanAsk => false,
    }
}

/// Those of `others` that win against `dealer`, in their order.
pub open spec fn winners_of(dealer: PlayerView, others: Seq<PlayerView>) -> Seq<PlayerView> {
    others.filter(|p: PlayerView| beats(dealer, p))
}

/// The game of `n` seated players before any card is dealt: the dealer, with
/// the id -1, sits first, then the players 0 to `n - 1`.
pub open spec fn fresh_game(n: int, deck: Seq<Card>) -> GameView {
    GameView {
        deck,
        players: Seq::new((n + 1) as nat, |i: int| fresh_player((i - 1) as i32, i == 0)),
        ended: false,
    }
}

/// How many of the first `i` players can ask for a card.
pub open spec fn askers_before(players: Seq<PlayerView>, i: int) -> int
    decreases i,
{
    if i <= 0 {
        0
    } else {
        askers_before(players, i - 1) + if players[i - 1].state == PlayerState::CanAsk {
            1int
        } else {
            0int
        }
    }
}

/// The cards that the players hold, each as often as it is held.
pub open spec fn cards_held(players: Seq<PlayerView>) -> Multiset<Card>
    decreases players.len(),
{
    if players.len() == 0 {
        Multiset::empty()
    } else {
        cards_held(players.drop_last()).add(players.last().hand.to_multiset())
    }
}

impl GameView {
    /// The cards of the game: those in the deck and those that the players
    /// hold.
    pub open spec fn cards(self) -> Multiset<Card> {
        self.deck.to_multiset().add(cards_held(self.players))
    }

    /// What holds of a game at any time. The deck holds distinct cards. The
    /// dealer sits first and is the only dealer; the seated players are
    /// numbered from 0 in their order. Every player's score and state fit
    /// the hand, and no score exceeds ten for each card that has left the
    /// deck. Once the rounds are over the dealer can no longer ask for a card.
    pub open spec fn wf(self) -> bool {
        &&& distinct_cards(self.deck)
        &&& 1 <= self.players.len() <= i32::MAX + 1
        &&& forall|i: int|
            0 <= i < self.players.len() ==> {
                let p = #[trigger] self.players[i];
                &&& p.wf()
                &&& p.is_dealer == (i == 0)
                &&& p.id == i - 1
                &&& 0 <= p.score <= 10 * (52 - self.deck.len())
            }
        &&& self.ended ==> self.players[0].state != PlayerState::CanAsk
    }

    /// A new game of at most `most` seated players over a full deck in any
    /// order: nobody holds a card yet.
    pub open spec fn newly_seated(self, most: int) -> bool {
        &&& 1 <= self.players.len() <= most + 1
        &&& self == fresh_game(self.players.len() - 1, self.deck)
        &&& self.deck.to_multiset() == full_deck().to_multiset()
    }

    /// The game after player `i` has taken the top card of the deck.
    pub open spec fn draw(self, i: int) -> GameView {
        GameView {
            deck: self.deck.drop_last(),
            players: self.players.update(i, self.players[i].dealt(self.deck.last())),
            ended: self.ended,
        }
    }

    /// The opening deal from player `i` on: each player in turn takes two
    /// cards. The flag is false if the deck ran out; the game is then as it
    /// was when the missing card was asked for.
    pub open spec fn opening_from(self, i: int) -> (GameView, bool)
        decreases self.players.len() - i,
    {
        if i < 0 || i >= self.players.len() {
            (self, true)
        } else if self.deck.len() == 0 {
            (self, false)
        } else if self.deck.len() == 1 {
            (self.draw(i), false)
        } else {
            self.draw(i).draw(i).opening_from(i + 1)
        }
    }

    /// The opening deal: two cards to every player, the dealer first.
    pub open spec fn opening(self) -> (GameView, bool) {
        self.opening_from(0)
    }

    /// The dealer has 21 or is busted.
    pub open spec fn dealer_done(self) -> bool {
        self.players[0].state == PlayerState::BlackJack || self.players[0].state
            == PlayerState::Busted
    }

    /// The rest of a round from player `i` on: each player that can ask takes
    /// one card. `turned` says whether a player before `i` took one. When
    /// nobody took a card in the whole round, the rounds are over. The flag is
    /// false if the deck ran out; the game is then as it was when the missing
    /// card was asked for.
    pub open spec fn round_from(self, i: int, turned: bool) -> (GameView, bool)
        decreases self.players.len() - i,
    {
        if i < 0 || i >= self.players.len() {
            (GameView { deck: self.deck, players: self.players, ended: self.ended || !turned }, true)
        } else if self.players[i].state != PlayerState::CanAsk {
            self.round_from(i + 1, turned)
        } else if self.deck.len() == 0 {
            (self, false)
        } else {
            self.draw(i).round_from(i + 1, true)
        }
    }

    /// Player `j` after a round in which cards are drawn: a player that
    /// could ask holds one card more, the one that lay as deep below the top
    /// as there are players before `j` that could ask. The others are as
    /// they were.
    pub open spec fn after_round(self, j: int) -> PlayerView {
        if self.players[j].state == PlayerState::CanAsk {
            self.players[j].dealt(
                self.deck[self.deck.len() - 1 - askers_before(self.players, j)],
            )
        } else {
            self.players[j]
        }
    }

    /// One round. If the dealer has 21 or is busted, the rounds are over at
    /// once and nobody takes a card. Otherwise every player that can ask
    /// takes one card, in the order of the list.
    pub open spec fn round(self) -> (GameView, bool) {
        if self.dealer_done() {
            (GameView { deck: self.deck, players: self.players, ended: true }, true)
        } else {
            self.round_from(0, false)
        }
    }

    /// Round after round until the rounds are over or the deck runs out. A
    /// round that does not end the game takes at least one card off the deck.
    pub open spec fn play(self) -> (GameView, bool)
        decreases self.deck.len(),
    {
        if self.ended {
            (self, true)
        } else {
            let r = self.round();
            if r.1 && !r.0.ended && r.0.deck.len() < self.deck.len() {
                r.0.play()
            } else {
                r
            }
        }
    }

    /// The whole game: the opening deal, then the rounds.
    pub open spec fn run(self) -> (GameView, bool) {
        let o = self.opening();
        if o.1 {
            o.0.play()
        } else {
            o
        }
    }

    /// The dealer and the winners among the seated players.
    pub open spec fn outcome(self) -> OutcomeView {
        OutcomeView {
            dealer: self.players[0],
            winners: winners_of(self.players[0], self.players.skip(1)),
        }
    }
}

/// The result of a game as contracts see it.
pub struct OutcomeView {
    pub dealer: PlayerView,
    pub winners: Seq<PlayerView>,
}

/// The result of a game: the dealer as the game left it, and the seated
/// players that won, in the order in which they sat.
#[derive(Debug)]
pub struct Outcome {
    pub dealer: Player,
    pub winners: Vec<Player>,
}

impl View for Outcome {
    type V = OutcomeView;

    open spec fn view(&self) -> OutcomeView {
        OutcomeView { dealer: self.dealer@, winners: views(self.winners@) }
    }
}

/// A game: the deck, the players with the dealer first, and whether the
/// rounds are over.
#[derive(Debug)]
pub struct Game {
    d: Deck,
    ps: Vec<Player>,
    end_game: bool,
}

impl View for Game {
    type V = GameView;

    closed spec fn view(&self) -> GameView {
        GameView { deck: self.d@, players: views(self.ps@), ended: self.end_game }
    }
}

impl Game {
    /// The game is well formed.
    pub open spec fn wf(&self) -> bool {
        self@.wf()
    }

    /// A game of `num_players` seated players and the dealer over the given
    /// deck. Nobody holds a card yet.
    pub fn with_deck(num_players: i32, deck: Deck) -> (g: Game)
        requires
            num_players >= 0,
            deck.wf(),
        ensures
            g@ == fresh_game(num_players as int, deck@),
            g.wf(),
    {
        let mut players: Vec<Player> = Vec::new();
        players.push(Player::new(-1, true));
        let mut i: i32 = 0;
        while i < num_players
            invariant
                0 <= i <= num_players,
                players@.len() == i + 1,
                forall|j: int|
                    0 <= j < players@.len() ==> (#[trigger] players@[j])@ == fresh_player(
                        (j - 1) as i32,
                        j == 0,
                    ),
            decreases num_players - i,
        {
            players.push(Player::new(i, false));
            i += 1;
        }
        let g = Game { d: deck, ps: players, end_game: false };
        proof {
            assert(g@.players =~= fresh_game(num_players as int, deck@).players);
        }
        g
    }

    /// A game of `num_players` seated players and the dealer over a full deck
    /// that was shuffled. Nobody holds a card yet.
    pub fn new(num_players: i32) -> (g: Game)
        requires
            num_players >= 0,
        ensures
            g@ == fresh_game(num_players as int, g@.deck),
            g@.deck.len() == 52,
            g@.deck.to_multiset() == full_deck().to_multiset(),
            g.wf(),
    {
        Game::with_deck(num_players, Deck::new())
    }

    /// Player `i` takes the top card of the deck. With an empty deck nothing
    /// changes and `EmptyDeck` comes back.
    pub fn deal_to(&mut self, i: usize) -> (r: Result<(), GameError>)
        requires
            old(self).wf(),
            i < old(self)@.players.len(),
        ensures
            final(self).wf(),
            old(self)@.deck.len() == 0 ==> r == Err::<(), GameError>(GameError::EmptyDeck)
                && final(self)@ == old(self)@,
            old(self)@.deck.len() > 0 ==> r == Ok::<(), GameError>(()) && final(self)@ == old(
                self
            )@.draw(i as int),
    {
        let ghost g0 = self@;
        match self.d.pop_card() {
            Err(e) => Err(e),
            Ok(c) => {
                proof {
                    assert(g0.players[i as int].wf());
                }
                self.ps[i].deal_card(c);
                proof {
                    assert(self@.players =~= g0.draw(i as int).players);
                    lemma_draw_wf(g0, i as int);
                }
                Ok(())
            },
        }
    }

    /// The opening deal: every player, the dealer first, takes two cards.
    /// When the deck runs out, `EmptyDeck` comes back and the game stays as
    /// it was when the missing card was asked for. The deal succeeds exactly
    /// when the deck holds two cards for every player.
    pub fn deal_opening(&mut self) -> (r: Result<(), GameError>)
        requires
            old(self).wf(),
        ensures
            final(self).wf(),
            final(self)@ == old(self)@.opening().0,
            old(self)@.opening().1 ==> r == Ok::<(), GameError>(()),
            !old(self)@.opening().1 ==> r == Err::<(), GameError>(GameError::EmptyDeck),
            r is Ok <==> 2 * old(self)@.players.len() <= old(self)@.deck.len(),
    {
        let ghost g0 = self@;
        proof {
            lemma_opening(g0);
        }
        let n: usize = self.ps.len();
        let mut i: usize = 0;
        while i < n
            invariant
                self.wf(),
                n == self@.players.len(),
                i <= n,
                g0 == old(self)@,
                g0.opening().1 == (2 * g0.players.len() <= g0.deck.len()),
                self@.opening_from(i as int) == g0.opening_from(0),
            decreases n - i,
        {
            let ghost g1 = self@;
            match self.deal_to(i) {
                Err(e) => {
                    proof {
                        assert(g1.opening_from(i as int) == (g1, false));
                    }
                    return Err(e);
                },
                Ok(()) => {},
            }
            proof {
                lemma_draw_wf(g1, i as int);
            }
            match self.deal_to(i) {
                Err(e) => {
                    proof {
                        assert(g1.opening_from(i as int) == (g1.draw(i as int), false));
                    }
                    return Err(e);
                },
                Ok(()) => {},
            }
            proof {
                lemma_draw_wf(g1.draw(i as int), i as int);
                assert(g1.opening_from(i as int) == g1.draw(i as int).draw(i as int).opening_from(
                    i + 1,
                ));
            }
            i += 1;
        }
        proof {
            assert(self@.opening_from(i as int) == (self@, true));
        }
        Ok(())
    }

    /// One round. If the dealer has 21 or is busted, the rounds are over at
    /// once and nobody takes a card. Otherwise every player that can ask
    /// takes one card, in the order of the list, and the rounds are over if
    /// nobody could. When the deck runs out, `EmptyDeck` comes back and the
    /// game stays as it was when the missing card was asked for.
    pub fn play_round(&mut self) -> (r: Result<(), GameError>)
        requires
            old(self).wf(),
        ensures
            final(self).wf(),
            final(self)@ == old(self)@.round().0,
            old(self)@.round().1 ==> r == Ok::<(), GameError>(()),
            !old(self)@.round().1 ==> r == Err::<(), GameError>(GameError::EmptyDeck),
    {
        let ghost g0 = self@;
        let dealer_state: PlayerState = self.ps[0].state();
        if dealer_state == PlayerState::BlackJack || dealer_state == PlayerState::Busted {
            self.end_game = true;
            return Ok(());
        }
        let n: usize = self.ps.len();
        let mut has_turn: bool = false;
        let mut i: usize = 0;
        while i < n
            invariant
                self.wf(),
                n == self@.players.len(),
                i <= n,
                g0 == old(self)@,
                !g0.dealer_done(),
                self@.round_from(i as int, has_turn) == g0.round_from(0, false),
                !has_turn ==> forall|j: int|
                    0 <= j < i ==> (#[trigger] self@.players[j]).state != PlayerState::CanAsk,
            decreases n - i,
        {
            let ghost g1 = self@;
            let ghost turned = has_turn;
            if self.ps[i].state() == PlayerState::CanAsk {
                match self.deal_to(i) {
                    Err(e) => {
                        proof {
                            assert(g1.round_from(i as int, turned) == (g1, false));
                        }
                        return Err(e);
                    },
                    Ok(()) => {
                        has_turn = true;
                    },
                }
                proof {
                    lemma_draw_wf(g1, i as int);
                    assert(g1.round_from(i as int, turned) == g1.draw(i as int).round_from(
                        i + 1,
                        true,
                    ));
                }
            } else {
                proof {
                    assert(g1.round_from(i as int, turned) == g1.round_from(i + 1, turned));
                }
            }
            i += 1;
        }
        let ghost g2 = self@;
        proof {
            assert(g2.round_from(i as int, has_turn) == (
                GameView { deck: g2.deck, players: g2.players, ended: g2.ended || !has_turn },
                true,
            ));
        }
        if !has_turn {
            proof {
                assert(self@.players[0].state != PlayerState::CanAsk);
            }
            self.end_game = true;
        }
        Ok(())
    }

    /// The dealer and the winners, as the game stands. While the dealer can
    /// still ask for a card there is no result, and `InconsistentState` comes
    /// back.
    pub fn resolve(&self) -> (r: Result<Outcome, GameError>)
        requires
            self.wf(),
        ensures
            self@.players[0].state == PlayerState::CanAsk ==> (r matches Err(e) && e
                == GameError::InconsistentState),
            self@.players[0].state != PlayerState::CanAsk ==> (r matches Ok(o) && o@
                == self@.outcome()),
    {
        if self.ps[0].state() == PlayerState::CanAsk {
            return Err(GameError::InconsistentState);
        }
        let dealer: Player = self.ps[0].duplicate();
        let winners: Vec<Player> = winners_against(&dealer, &self.ps, 1);
        Ok(Outcome { dealer, winners })
    }

    /// Plays the game to its end: the opening deal, then round after round
    /// until the rounds are over, then the dealer and the winners. When the
    /// deck runs out, `EmptyDeck` comes back and the game stays as it was
    /// when the missing card was asked for. That does not happen to a new
    /// game of up to twelve seated players over a full deck.
    pub fn start_game(&mut self) -> (r: Result<Outcome, GameError>)
        requires
            old(self).wf(),
        ensures
            final(self).wf(),
            final(self)@ == old(self)@.run().0,
            old(self)@.run().1 ==> final(self)@.ended && (r matches Ok(o) && o@ == final(
                self
            )@.outcome()),
            !old(self)@.run().1 ==> (r matches Err(e) && e == GameError::EmptyDeck),
            old(self)@.newly_seated(12) ==> r is Ok,
    {
        proof {
            if self@.newly_seated(12) {
                lemma_full_deck_suffices(self@.players.len() - 1, self@.deck);
            }
        }
        match self.deal_opening() {
            Err(e) => {
                return Err(e);
            },
            Ok(()) => {},
        }
        let ghost g1 = self@;
        while !self.end_game
            invariant
                self.wf(),
                old(self)@.opening() == (g1, true),
                self@.play() == g1.play(),
                old(self)@.newly_seated(12) ==> old(self)@.run().1,
            decreases self@.deck.len() + (if self@.ended { 0int } else { 1int }),
        {
            let ghost g2 = self@;
            proof {
                lemma_round_progress(g2);
            }
            match self.play_round() {
                Err(e) => {
                    proof {
                        assert(g2.play() == g2.round());
                    }
                    return Err(e);
                },
                Ok(()) => {},
            }
            proof {
                if self@.ended {
                    assert(g2.play() == g2.round());
                    assert(self@.play() == (self@, true));
                } else {
                    assert(g2.play() == g2.round().0.play());
                }
            }
        }
        proof {
            assert(self@.play() == (self@, true));
        }
        self.resolve()
    }

    /// Whether the rounds are over.
    pub fn is_over(&self) -> (r: bool)
        ensures
            r == self@.ended,
    {
        self.end_game
    }

    /// The deck.
    pub fn deck(&self) -> (r: &Deck)
        ensures
            r@ == self@.deck,
    {
        &self.d
    }

    /// The players, the dealer first.
    pub fn players(&self) -> (r: &Vec<Player>)
        ensures
            views(r@) == self@.players,
    {
        &self.ps
    }
}

/// Those of `players[from..]` that win against `dealer`, in their order, each
/// as a copy.
pub fn winners_against(dealer: &Player, players: &Vec<Player>, from: usize) -> (w: Vec<Player>)
    requires
        from <= players@.len(),
    ensures
        views(w@) == winners_of(dealer@, views(players@).skip(from as int)),
{
    let ghost all = views(players@);
    let ghost pred = |p: PlayerView| beats(dealer@, p);
    let mut w: Vec<Player> = Vec::new();
    let mut i: usize = from;
    proof {
        reveal(Seq::filter);
        assert(views(w@) =~= all.subrange(from as int, i as int).filter(pred));
    }
    while i < players.len()
        invariant
            from <= i <= players@.len(),
            all == views(players@),
            pred == (|p: PlayerView| beats(dealer@, p)),
            views(w@) == all.subrange(from as int, i as int).filter(pred),
        decreases players@.len() - i,
    {
        let p: &Player = &players[i];
        let ghost before = all.subrange(from as int, i as int);
        proof {
            before.lemma_filter_push(all[i as int], pred);
            assert(before.push(all[i as int]) =~= all.subrange(from as int, i + 1));
        }
        if player_beats(dealer, p) {
            let ghost w0 = views(w@);
            w.push(p.duplicate());
            proof {
                assert(views(w@) =~= w0.push(p@));
            }
        }
        i += 1;
    }
    proof {
        assert(all.subrange(from as int, i as int) =~= all.skip(from as int));
    }
    w
}

/// Whether `p` wins against `dealer`.
pub fn player_beats(dealer: &Player, p: &Player) -> (b: bool)
    ensures
        b == beats(dealer@, p@),
{
    let contending: bool = p.state() == PlayerState::Stay || p.state() == PlayerState::BlackJack;
    contending && match dealer.state() {
        PlayerState::Busted => true,
        PlayerState::BlackJack => p.state() == PlayerState::BlackJack,
        PlayerState::Stay => p.score() > dealer.score(),
        PlayerState::CanAsk => false,
    }
}

} // verus!
