use blackjack::card::Card;
use blackjack::deck::Deck;
use blackjack::error::GameError;
use blackjack::game::{player_beats, winners_against, Game};
use blackjack::player::{Player, PlayerState};

const ACE: i32 = 0;
const TWO: i32 = 1;
const THREE: i32 = 2;
const FIVE: i32 = 4;
const SIX: i32 = 5;
const NINE: i32 = 8;
const TEN: i32 = 9;
const KING: i32 = 10;
const QUEEN: i32 = 11;
const JACK: i32 = 12;

fn card(suit: i32, face: i32) -> Card {
    Card { suit, face }
}

/// The deck from which the given cards come off in the given order.
fn deck_dealing(order: Vec<Card>) -> Deck {
    let mut cards = order;
    cards.reverse();
    Deck::from_cards(cards).expect("distinct cards")
}

fn player_with(id: i32, is_dealer: bool, cards: Vec<Card>) -> Player {
    let mut p = Player::new(id, is_dealer);
    for c in cards {
        p.deal_card(c);
    }
    p
}

fn ids(ps: &Vec<Player>) -> Vec<i32> {
    ps.iter().map(|p| p.id()).collect()
}

#[test]
fn new_game_seats_the_dealer_first() {
    let g = Game::new(3);
    assert_eq!(ids(g.players()), vec![-1, 0, 1, 2]);
    assert!(g.players()[0].is_dealer());
    for p in g.players().iter().skip(1) {
        assert!(!p.is_dealer());
    }
    for p in g.players().iter() {
        assert_eq!(p.score(), 0);
        assert_eq!(p.state(), PlayerState::CanAsk);
        assert!(p.hand().is_empty());
    }
    assert_eq!(g.deck().len(), 52);
    assert!(!g.is_over());
}

#[test]
fn game_without_seated_players() {
    let mut g = Game::with_deck(0, Deck::ordered());
    assert_eq!(ids(g.players()), vec![-1]);
    let o = g.start_game().expect("enough cards");
    assert!(g.is_over());
    assert_eq!(o.dealer.score(), 20);
    assert_eq!(o.dealer.state(), PlayerState::Stay);
    assert!(o.winners.is_empty());
    assert_eq!(g.deck().len(), 50);
}

#[test]
fn opening_gives_two_cards_each_in_order() {
    let mut g = Game::with_deck(2, Deck::ordered());
    assert_eq!(g.deal_opening(), Ok(()));
    assert_eq!(g.players()[0].hand(), &vec![card(3, JACK), card(3, QUEEN)]);
    assert_eq!(g.players()[1].hand(), &vec![card(3, KING), card(3, TEN)]);
    assert_eq!(g.players()[2].hand(), &vec![card(3, NINE), card(3, 7)]);
    assert_eq!(g.players()[2].score(), 17);
    assert_eq!(g.deck().len(), 46);
    assert!(!g.is_over());
}

#[test]
fn opening_runs_out_of_cards() {
    let deck = deck_dealing(vec![card(0, TWO), card(0, THREE), card(0, FIVE)]);
    let mut g = Game::with_deck(1, deck);
    assert_eq!(g.deal_opening(), Err(GameError::EmptyDeck));
    assert_eq!(g.players()[0].score(), 5);
    assert_eq!(g.players()[1].score(), 5);
    assert_eq!(g.players()[1].hand().len(), 1);
    assert_eq!(g.deck().len(), 0);
}

#[test]
fn dealer_with_twenty_one_ends_the_game_at_once() {
    // dealer 5 + 6, then a king: 21. Player 0 has an ace and a ten, then a
    // queen: 21. Player 1 has 2 + 3, then a 9: 14, and could ask again.
    let deck = deck_dealing(vec![
        card(0, FIVE),
        card(0, SIX),
        card(1, ACE),
        card(1, TEN),
        card(2, TWO),
        card(2, THREE),
        card(0, KING),
        card(1, QUEEN),
        card(2, NINE),
        card(3, ACE),
        card(3, TWO),
    ]);
    let mut g = Game::with_deck(2, deck);
    assert_eq!(g.deal_opening(), Ok(()));
    assert_eq!(g.players()[1].score(), 11);
    assert_eq!(g.play_round(), Ok(()));
    assert!(!g.is_over());
    assert_eq!(g.players()[0].state(), PlayerState::BlackJack);
    assert_eq!(g.players()[2].state(), PlayerState::CanAsk);
    assert_eq!(g.deck().len(), 2);
    assert_eq!(g.play_round(), Ok(()));
    assert!(g.is_over());
    assert_eq!(g.deck().len(), 2);
    assert_eq!(g.players()[2].hand().len(), 3);
    let o = g.resolve().expect("the dealer is done");
    assert_eq!(o.dealer.score(), 21);
    assert_eq!(ids(&o.winners), vec![0]);
    assert_eq!(o.winners[0].state(), PlayerState::BlackJack);
}

#[test]
fn start_game_with_a_dealer_reaching_twenty_one() {
    let deck = deck_dealing(vec![
        card(0, FIVE),
        card(0, SIX),
        card(1, ACE),
        card(1, TEN),
        card(2, TWO),
        card(2, THREE),
        card(0, KING),
        card(1, QUEEN),
        card(2, NINE),
        card(3, ACE),
        card(3, TWO),
    ]);
    let mut g = Game::with_deck(2, deck);
    let o = g.start_game().expect("enough cards");
    assert!(g.is_over());
    assert_eq!(o.dealer.state(), PlayerState::BlackJack);
    assert_eq!(o.dealer.hand(), &vec![card(0, FIVE), card(0, SIX), card(0, KING)]);
    assert_eq!(ids(&o.winners), vec![0]);
    assert_eq!(g.deck().len(), 2);
    assert_eq!(g.players()[2].score(), 14);
}

#[test]
fn staying_dealer_loses_to_a_higher_score_only() {
    // dealer 10 + 9 = 19; player 0 has 20, player 1 has 19, player 2 has 18.
    let deck = deck_dealing(vec![
        card(0, TEN),
        card(0, NINE),
        card(1, TEN),
        card(1, KING),
        card(2, NINE),
        card(2, QUEEN),
        card(3, 7),
        card(3, JACK),
        card(3, ACE),
    ]);
    let mut g = Game::with_deck(3, deck);
    let o = g.start_game().expect("enough cards");
    assert_eq!(o.dealer.score(), 19);
    assert_eq!(o.dealer.state(), PlayerState::Stay);
    assert_eq!(o.dealer.hand().len(), 2);
    assert_eq!(ids(&o.winners), vec![0]);
    assert_eq!(o.winners[0].score(), 20);
    assert_eq!(g.players()[2].score(), 19);
    assert_eq!(g.players()[2].state(), PlayerState::Stay);
    assert_eq!(g.deck().len(), 1);
    assert!(g.is_over());
}

#[test]
fn busted_dealer_loses_to_all_who_are_not_busted() {
    // dealer 10 + 5, then a king: 25. Player 0 stays at 20. Player 1 has
    // 10 + 6 and takes a 9: busted. Player 2 has 5 + 6 and takes a jack: 21.
    let deck = deck_dealing(vec![
        card(0, TEN),
        card(0, FIVE),
        card(1, KING),
        card(1, QUEEN),
        card(2, TEN),
        card(2, SIX),
        card(3, FIVE),
        card(3, SIX),
        card(0, KING),
        card(2, NINE),
        card(3, JACK),
        card(0, ACE),
    ]);
    let mut g = Game::with_deck(3, deck);
    let o = g.start_game().expect("enough cards");
    assert_eq!(o.dealer.score(), 25);
    assert_eq!(o.dealer.state(), PlayerState::Busted);
    assert_eq!(ids(&o.winners), vec![0, 2]);
    assert_eq!(o.winners[0].state(), PlayerState::Stay);
    assert_eq!(o.winners[1].state(), PlayerState::BlackJack);
    assert_eq!(g.players()[2].state(), PlayerState::Busted);
    assert_eq!(g.players()[2].score(), 25);
    assert_eq!(g.deck().len(), 1);
}

#[test]
fn last_two_cards_go_to_two_players_and_the_third_draw_fails() {
    let deck = deck_dealing(vec![card(0, TWO), card(1, THREE)]);
    let mut g = Game::with_deck(1, deck);
    assert_eq!(g.players()[0].state(), PlayerState::CanAsk);
    assert_eq!(g.players()[1].state(), PlayerState::CanAsk);
    assert_eq!(g.play_round(), Ok(()));
    assert_eq!(g.players()[0].hand(), &vec![card(0, TWO)]);
    assert_eq!(g.players()[1].hand(), &vec![card(1, THREE)]);
    assert_eq!(g.deck().len(), 0);
    assert!(!g.is_over());
    assert_eq!(g.play_round(), Err(GameError::EmptyDeck));
    assert_eq!(g.players()[0].hand().len(), 1);
    assert_eq!(g.deal_to(1), Err(GameError::EmptyDeck));
}

#[test]
fn deal_to_gives_the_top_card() {
    let mut g = Game::with_deck(2, Deck::ordered());
    assert_eq!(g.deal_to(2), Ok(()));
    assert_eq!(g.players()[2].hand(), &vec![card(3, JACK)]);
    assert_eq!(g.players()[2].score(), 10);
    assert_eq!(g.players()[0].score(), 0);
    assert_eq!(g.deck().len(), 51);
}

#[test]
fn round_without_a_turn_ends_the_game() {
    // everybody stays after the opening
    let mut g = Game::with_deck(1, Deck::ordered());
    assert_eq!(g.deal_opening(), Ok(()));
    assert_eq!(g.players()[0].state(), PlayerState::Stay);
    assert_eq!(g.players()[1].state(), PlayerState::Stay);
    assert_eq!(g.play_round(), Ok(()));
    assert!(g.is_over());
    assert_eq!(g.deck().len(), 48);
    let o = g.resolve().expect("the dealer stays");
    assert!(o.winners.is_empty());
}

#[test]
fn too_many_players_empty_the_deck() {
    let mut g = Game::new(30);
    match g.start_game() {
        Err(e) => assert_eq!(e, GameError::EmptyDeck),
        Ok(_) => panic!("sixty-two cards were dealt from fifty-two"),
    }
    assert_eq!(g.deck().len(), 0);
}

#[test]
fn resolve_before_the_dealer_is_done() {
    let g = Game::new(2);
    match g.resolve() {
        Err(e) => assert_eq!(e, GameError::InconsistentState),
        Ok(_) => panic!("the dealer can still ask"),
    }
}

#[test]
fn games_of_one_to_ten_players_end() {
    for n in 1..11 {
        for _ in 0..20 {
            let mut g = Game::new(n);
            let o = g.start_game().expect("enough cards for ten players");
            assert!(g.is_over());
            assert_ne!(o.dealer.state(), PlayerState::CanAsk);
            let held: usize = g.players().iter().map(|p| p.hand().len()).sum();
            assert_eq!(held + g.deck().len(), 52);
            for p in g.players().iter() {
                assert!(p.hand().len() >= 2);
                assert!(p.hand().len() <= 12);
            }
            for w in o.winners.iter() {
                assert!(w.state() == PlayerState::Stay || w.state() == PlayerState::BlackJack);
                assert!(player_beats(&o.dealer, w));
            }
        }
    }
}

#[test]
fn who_beats_whom() {
    let stay19 = player_with(-1, true, vec![card(0, TEN), card(0, NINE)]);
    let bj = player_with(-1, true, vec![card(0, TEN), card(0, FIVE), card(0, SIX)]);
    let bust = player_with(-1, true, vec![card(0, TEN), card(0, FIVE), card(0, KING)]);
    let ask = player_with(-1, true, vec![card(0, TEN)]);

    let p16 = player_with(0, false, vec![card(1, TEN), card(1, SIX)]);
    let p19 = player_with(1, false, vec![card(1, KING), card(1, NINE)]);
    let p20 = player_with(2, false, vec![card(2, KING), card(2, TEN)]);
    let p21 = player_with(3, false, vec![card(3, KING), card(3, TEN), card(3, ACE)]);
    let p22 = player_with(4, false, vec![card(3, QUEEN), card(3, JACK), card(3, TWO)]);

    let all = vec![p16, p19, p20, p21, p22];
    assert_eq!(ids(&winners_against(&stay19, &all, 0)), vec![2, 3]);
    assert_eq!(ids(&winners_against(&bj, &all, 0)), vec![3]);
    assert_eq!(ids(&winners_against(&bust, &all, 0)), vec![1, 2, 3]);
    assert_eq!(ids(&winners_against(&ask, &all, 0)), Vec::<i32>::new());
    assert_eq!(ids(&winners_against(&bust, &all, 2)), vec![2, 3]);
    assert_eq!(ids(&winners_against(&bust, &all, 5)), Vec::<i32>::new());
    assert!(player_beats(&stay19, &all[2]));
    assert!(!player_beats(&stay19, &all[1]));
    assert!(!player_beats(&bust, &all[4]));
    assert!(!player_beats(&bust, &all[0]));
}

#[test]
fn a_full_deck_serves_twelve_players() {
    for _ in 0..200 {
        let mut g = Game::new(12);
        let o = g.start_game().expect("a full deck serves twelve players");
        assert!(g.is_over());
        assert!(g.deck().len() > 0);
        let mut points = 0;
        for p in g.players().iter() {
            assert!(p.score() <= 26);
            points += p.score();
        }
        for c in g.deck().cards().iter() {
            points += c.value();
        }
        assert_eq!(points, 340);
        assert!(o.winners.len() <= 12);
    }
}

#[test]
fn unshuffled_deck_is_worth_340() {
    let d = Deck::ordered();
    let total: i32 = d.cards().iter().map(|c| c.value()).sum();
    assert_eq!(total, 340);
}
