use blackjack::card::Card;
use blackjack::player::{state_for, Player, PlayerState};

fn card(suit: i32, face: i32) -> Card {
    Card { suit, face }
}

#[test]
fn face_values() {
    assert_eq!(card(0, 0).value(), 1);
    for face in 1..9 {
        assert_eq!(card(1, face).value(), face + 1);
    }
    assert_eq!(card(2, 9).value(), 10);
    assert_eq!(card(2, 10).value(), 10);
    assert_eq!(card(2, 11).value(), 10);
    assert_eq!(card(2, 12).value(), 10);
}

#[test]
fn what_is_no_face_counts_nothing() {
    assert_eq!(card(0, 13).value(), 0);
    assert_eq!(card(0, -1).value(), 0);
}

#[test]
fn state_thresholds() {
    assert_eq!(state_for(0), PlayerState::CanAsk);
    assert_eq!(state_for(16), PlayerState::CanAsk);
    assert_eq!(state_for(17), PlayerState::Stay);
    assert_eq!(state_for(20), PlayerState::Stay);
    assert_eq!(state_for(21), PlayerState::BlackJack);
    assert_eq!(state_for(22), PlayerState::Busted);
    assert_eq!(state_for(520), PlayerState::Busted);
}

#[test]
fn new_player_is_empty() {
    let p = Player::new(3, false);
    assert_eq!(p.id(), 3);
    assert!(!p.is_dealer());
    assert_eq!(p.score(), 0);
    assert_eq!(p.state(), PlayerState::CanAsk);
    assert!(p.hand().is_empty());
    let d = Player::new(-1, true);
    assert_eq!(d.id(), -1);
    assert!(d.is_dealer());
}

#[test]
fn deal_card_adds_the_value_and_keeps_the_order() {
    let mut p = Player::new(0, false);
    p.deal_card(card(0, 12));
    assert_eq!(p.score(), 10);
    assert_eq!(p.state(), PlayerState::CanAsk);
    p.deal_card(card(1, 6));
    assert_eq!(p.score(), 17);
    assert_eq!(p.state(), PlayerState::Stay);
    p.deal_card(card(2, 3));
    assert_eq!(p.score(), 21);
    assert_eq!(p.state(), PlayerState::BlackJack);
    p.deal_card(card(3, 0));
    assert_eq!(p.score(), 22);
    assert_eq!(p.state(), PlayerState::Busted);
    assert_eq!(p.hand(), &vec![card(0, 12), card(1, 6), card(2, 3), card(3, 0)]);
}

#[test]
fn score_never_goes_down() {
    let mut p = Player::new(0, false);
    let mut last = 0;
    for face in 0..13 {
        p.deal_card(card(0, face));
        assert!(p.score() >= last);
        last = p.score();
    }
    assert_eq!(last, 1 + 2 + 3 + 4 + 5 + 6 + 7 + 8 + 9 + 10 + 10 + 10 + 10);
}

#[test]
fn king_queen_and_jack_add_ten() {
    for face in 10..13 {
        let mut p = Player::new(0, false);
        p.deal_card(card(0, 4));
        p.deal_card(card(1, face));
        assert_eq!(p.score(), 15);
    }
}

#[test]
fn ace_and_a_ten_make_eleven() {
    let mut p = Player::new(-1, true);
    p.deal_card(card(0, 0));
    p.deal_card(card(0, 10));
    assert_eq!(p.score(), 11);
    assert_eq!(p.state(), PlayerState::CanAsk);
}

#[test]
fn same_score_same_state() {
    let mut a = Player::new(0, false);
    a.deal_card(card(0, 9));
    a.deal_card(card(0, 8));
    let mut b = Player::new(1, false);
    b.deal_card(card(1, 5));
    b.deal_card(card(1, 6));
    b.deal_card(card(1, 3));
    b.deal_card(card(1, 1));
    let mut c = Player::new(2, false);
    c.deal_card(card(2, 1));
    c.deal_card(card(2, 3));
    c.deal_card(card(2, 6));
    c.deal_card(card(2, 5));
    assert_eq!(a.score(), 19);
    assert_eq!(b.score(), 19);
    assert_eq!(c.score(), 19);
    assert_eq!(a.state(), PlayerState::Stay);
    assert_eq!(b.state(), a.state());
    assert_eq!(c.state(), a.state());
    assert_eq!(state_for(a.score()), a.state());
}

#[test]
fn duplicate_copies_everything() {
    let mut a = Player::new(7, false);
    a.deal_card(card(3, 9));
    a.deal_card(card(3, 0));
    let b = a.duplicate();
    assert_eq!(b.id(), 7);
    assert!(!b.is_dealer());
    assert_eq!(b.score(), 11);
    assert_eq!(b.state(), PlayerState::CanAsk);
    assert_eq!(b.hand(), a.hand());
}
