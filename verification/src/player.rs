//! Players, their hands, and the state that a score puts them in.

use crate::card::{face_value, Card};
use vstd::prelude::*;

verus! {

/// What a player may still do, decided by the score alone.
#[derive(Clone, Copy, Debug, PartialEq, Eq, Structural)]
pub enum PlayerState {
    /// Score of 16 or less: the player takes another card.
    CanAsk,
    /// Score of 17 to 20: the player takes no more cards.
    Stay,
    /// Score of exactly 21.
    BlackJack,
    /// Score above 21: the player cannot win.
    Busted,
}

/// The state that belongs to a score.
pub open spec fn state_of(score: int) -> PlayerState {
    if 0 <= score <= 16 {
        PlayerState::CanAsk
    } else if 17 <= score <= 20 {
        PlayerState::Stay
    } else if score == 21 {
        PlayerState::BlackJack
    } else {
        PlayerState::Busted
    }
}

/// The sum of the values of the cards of a hand.
pub open spec fn hand_total(hand: Seq<Card>) -> int
    decreases hand.len(),
{
    if hand.len() == 0 {
        0
    } else {
        hand_total(hand.drop_last()) + face_value(hand.last().face as int)
    }
}

/// The state that belongs to a score.
pub fn state_for(score: i32) -> (s: PlayerState)
    ensures
        s == state_of(score as int),
{
    if 0 <= score && score <= 16 {
        PlayerState::CanAsk
    } else if 17 <= score && score <= 20 {
        PlayerState::Stay
    } else if score == 21 {
        PlayerState::BlackJack
    } else {
        PlayerState::Busted
    }
}

/// A player as contracts see it.
pub struct PlayerView {
    pub id: i32,
    pub is_dealer: bool,
    pub hand: Seq<Card>,
    pub score: int,
    pub state: PlayerState,
}

impl PlayerView {
    /// The score is the total of the hand and the state is the one that
    /// belongs to the score.
    pub open spec fn wf(self) -> bool {
        &&& self.score == hand_total(self.hand)
        &&& self.state == state_of(self.score)
    }

    /// The player after receiving `c`.
    pub open spec fn dealt(self, c: Card) -> PlayerView {
        PlayerView {
            id: self.id,
            is_dealer: self.is_dealer,
            hand: self.hand.push(c),
            score: self.score + face_value(c.face as int),
            state: state_of(self.score + face_value(c.face as int)),
        }
    }
}

/// The player with no cards yet.
pub open spec fn fresh_player(id: i32, is_dealer: bool) -> PlayerView {
    PlayerView { id, is_dealer, hand: Seq::empty(), score: 0, state: PlayerState::CanAsk }
}

/// A player: the cards received, in the order of receipt, their score, and
/// the state that the score puts the player in.
#[derive(Debug)]
pub struct Player {
    id: i32,
    hand: Vec<Card>,
    is_dealer: bool,
    score: i32,
    state: PlayerState,
}

impl View for Player {
    type V = PlayerView;

    closed spec fn view(&self) -> PlayerView {
        PlayerView {
            id: self.id,
            is_dealer: self.is_dealer,
            hand: self.hand@,
            score: self.score as int,
            state: self.state,
        }
    }
}

impl Player {
    /// A player without cards: score 0, state `CanAsk`.
    pub fn new(id: i32, is_dealer: bool) -> (p: Player)
        ensures
            p@ == fresh_player(id, is_dealer),
            p@.wf(),
    {
        Player { id, hand: Vec::new(), is_dealer, score: 0, state: PlayerState::CanAsk }
    }

    /// Hands the card `c` to the player: it joins the hand as its last card,
    /// its value is added to the score, and the state follows the new score.
    pub fn deal_card(&mut self, c: Card)
        requires
            old(self)@.score + face_value(c.face as int) <= i32::MAX,
        ensures
            final(self)@ == old(self)@.dealt(c),
            final(self)@.score >= old(self)@.score,
            old(self)@.wf() ==> final(self)@.wf(),
    {
        proof {
            assert(self.hand@.push(c).drop_last() =~= self.hand@);
        }
        self.score = self.score + c.value();
        self.hand.push(c);
        self.state = state_for(self.score);
    }

    pub fn id(&self) -> (r: i32)
        ensures
            r == self@.id,
    {
        self.id
    }

    pub fn is_dealer(&self) -> (r: bool)
        ensures
            r == self@.is_dealer,
    {
        self.is_dealer
    }

    pub fn score(&self) -> (r: i32)
        ensures
            r == self@.score,
    {
        self.score
    }

    pub fn state(&self) -> (r: PlayerState)
        ensures
            r == self@.state,
    {
        self.state
    }

    pub fn hand(&self) -> (r: &Vec<Card>)
        ensures
            r@ == self@.hand,
    {
        &self.hand
    }

    /// A copy of the player, card for card.
    pub fn duplicate(&self) -> (p: Player)
        ensures
            p@ == self@,
    {
        let mut hand: Vec<Card> = Vec::new();
        let mut i: usize = 0;
        while i < self.hand.len()
            invariant
                i <= self.hand@.len(),
                hand@ == self.hand@.take(i as int),
            decreases self.hand@.len() - i,
        {
            hand.push(self.hand[i]);
            assert(self.hand@.take(i as int).push(self.hand@[i as int]) =~= self.hand@.take(
                i + 1,
            ));
            i += 1;
        }
        assert(self.hand@.take(i as int) =~= self.hand@);
        Player { id: self.id, hand, is_dealer: self.is_dealer, score: self.score, state: self.state }
    }
}

/// The players of a list as contracts see them, in the same order.
pub open spec fn views(ps: Seq<Player>) -> Seq<PlayerView> {
    ps.map_values(|p: Player| p@)
}

/// Two players with the same score are in the same state, whatever cards
/// they hold and in whatever order they received them.
pub proof fn lemma_state_follows_score(a: PlayerView, b: PlayerView)
    requires
        a.wf(),
        b.wf(),
        a.score == b.score,
    ensures
        a.state == b.state,
{
}

/// A card never lowers a score: a king, queen or jack adds exactly 10, an ace
/// adds 1, and each of the faces 2 to 9 adds its number.
pub proof fn lemma_deal_adds_value(p: PlayerView, c: Card)
    ensures
        p.dealt(c).score >= p.score,
        10 <= c.face <= 12 ==> p.dealt(c).score == p.score + 10,
        c.face == 0 ==> p.dealt(c).score == p.score + 1,
        1 <= c.face <= 8 ==> p.dealt(c).score == p.score + c.face + 1,
        p.dealt(c).state == state_of(p.dealt(c).score),
{
}

} // verus!
