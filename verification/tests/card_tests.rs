use hearts_core::card::{all_cards, cards_from_str, ranks_for_suit, Card, Deck, Rank, Suit};
use hearts_core::sampler::{
    possible_card_distribution, CardDistributionPlayerConstraint, CardDistributionRequest,
    _possible_card_distribution,
};
use rand::rngs::StdRng;
use rand::SeedableRng;

fn c(s: &str) -> Card {
    Card::from(s).unwrap()
}

fn cv(s: &str) -> Vec<Card> {
    cards_from_str(s).unwrap()
}

#[test]
fn test_parse() {
    assert_eq!(
        Card::from("6H").unwrap(),
        Card::new(Rank::num(6), Suit::Hearts)
    );
    assert_eq!(
        Card::from("tc").unwrap(),
        Card::new(Rank::num(10), Suit::Clubs)
    );
    assert_eq!(
        Card::from("Q♠").unwrap(),
        Card::new(Rank::num(12), Suit::Spades)
    );
}

#[test]
fn test_parse_multiple() {
    let actual = cards_from_str(" 2C TD  AS\tQ♥\n ").unwrap();
    let expected = vec![
        Card::new(Rank::num(2), Suit::Clubs),
        Card::new(Rank::num(10), Suit::Diamonds),
        Card::new(Rank::num(14), Suit::Spades),
        Card::new(Rank::num(12), Suit::Hearts),
    ];
    assert_eq!(actual, expected);
}

#[test]
fn test_bad_parse() {
    let bad = vec!["J", "1H", "ZH", "S5", "AA", "DD"];
    for &bs in bad.iter() {
        match Card::from(bs) {
            Ok(_c) => assert!(false),
            Err(_e) => {}
        }
    }
}

#[test]
fn test_card() {
    let c1 = Card::new(Rank::num(3), Suit::Clubs);
    let c2 = Card::new(Rank::num(3), Suit::Clubs);
    let c3 = Card::new(Rank::num(3), Suit::Hearts);
    let c4 = Card::new(Rank::num(12), Suit::Clubs);
    assert_eq!(c1, c2);
    assert_ne!(c1, c3);
    assert_ne!(c1, c4);
    assert_eq!(c1.rank.rank_char(), "3");
    assert_eq!(c1.ascii_string(), "3C");
    assert_eq!(c1.symbol_string(), "3♣");
    assert_eq!(c4.ascii_string(), "QC");
    assert_eq!(c4.symbol_string(), "Q♣");
}

#[test]
fn test_hand_suits() {
    let c1 = Card::new(Rank::num(7), Suit::Hearts);
    let c2 = Card::new(Rank::num(14), Suit::Hearts);
    let c3 = Card::new(Rank::num(13), Suit::Spades);
    let c4 = Card::new(Rank::num(2), Suit::Hearts);
    let c5 = Card::new(Rank::num(10), Suit::Hearts);
    let hand = vec![c1, c2, c3, c4, c5];
    assert_eq!(ranks_for_suit(&hand, Suit::Diamonds).len(), 0);
    assert_eq!(ranks_for_suit(&hand, Suit::Spades), [Rank::num(13)]);
    assert_eq!(
        ranks_for_suit(&hand, Suit::Hearts),
        [Rank::num(14), Rank::num(10), Rank::num(7), Rank::num(2)]
    );
}

// Every card comes back unchanged from either of its textual forms.
#[test]
fn test_round_trip_all_cards() {
    for card in all_cards().iter() {
        assert_eq!(Card::from(&card.ascii_string()).unwrap(), *card);
        assert_eq!(Card::from(&card.symbol_string()).unwrap(), *card);
    }
}

// Shuffling keeps exactly the 52 distinct cards.
#[test]
fn test_shuffle_keeps_cards() {
    let mut rng: StdRng = SeedableRng::seed_from_u64(7);
    let mut deck = Deck::new();
    deck.shuffle(&mut rng);
    assert_eq!(deck.cards.len(), 52);
    for card in all_cards().iter() {
        assert!(deck.cards.contains(card));
    }
}

fn make_constraints(n: usize, num_cards: usize) -> Vec<CardDistributionPlayerConstraint> {
    let mut c: Vec<CardDistributionPlayerConstraint> = Vec::new();
    for _i in 0..n {
        c.push(CardDistributionPlayerConstraint {
            num_cards,
            voided_suits: Vec::new(),
            fixed_cards: Vec::new(),
        });
    }
    c
}

#[test]
fn test_card_distribution_no_constraints() {
    let mut rng: StdRng = SeedableRng::seed_from_u64(42);
    let deck = Deck::new();
    let req = CardDistributionRequest {
        cards: deck.cards.clone(),
        constraints: make_constraints(4, 13),
    };
    let dist = possible_card_distribution(&req, &mut rng).unwrap();
    assert_eq!(dist.len(), 4);
    for cards in dist.iter() {
        assert_eq!(cards.len(), 13);
    }
}

#[test]
fn test_card_distribution_void_suits() {
    let mut rng: StdRng = SeedableRng::seed_from_u64(42);
    let cards = cv("2C 2D 2H 2S 3C 3D 3H 3S 4C 4D 4H 4S");
    let mut constraints = make_constraints(4, 3);
    constraints[0].voided_suits.push(Suit::Spades);
    constraints[2].voided_suits.push(Suit::Spades);
    constraints[2].voided_suits.push(Suit::Hearts);
    constraints[2].voided_suits.push(Suit::Diamonds);
    let req = CardDistributionRequest {
        cards,
        constraints,
    };
    let dist = _possible_card_distribution(&req, &mut rng).unwrap();
    assert_eq!(dist.len(), 4);
    for cards in dist.iter() {
        assert_eq!(cards.len(), 3);
    }
    assert_eq!(ranks_for_suit(&dist[0], Suit::Spades), []);
    assert_eq!(
        ranks_for_suit(&dist[2], Suit::Clubs),
        [Rank::num(4), Rank::num(3), Rank::num(2)]
    );
}

#[test]
fn test_card_distribution_fixed_cards() {
    let mut rng: StdRng = SeedableRng::seed_from_u64(42);
    let cards = cv("2C 2D 2H 2S 3C 3D 3H 3S 4C 4D 4H 4S");
    let mut constraints = make_constraints(4, 3);
    constraints[1].fixed_cards.push(c("2H"));
    constraints[3].fixed_cards.push(c("3D"));
    constraints[3].fixed_cards.push(c("4D"));
    constraints[3].fixed_cards.push(c("AD"));
    let req = CardDistributionRequest {
        cards,
        constraints,
    };
    let dist = possible_card_distribution(&req, &mut rng).unwrap();
    assert_eq!(dist.len(), 4);
    for cards in dist.iter() {
        assert_eq!(cards.len(), 3);
    }
    assert!(dist[1].contains(&c("2H")));
    assert!(dist[3].contains(&c("3D")));
    assert!(dist[3].contains(&c("4D")));
    assert!(!dist[3].contains(&c("AD")));
}

// A request that wants more cards than exist cannot be satisfied.
#[test]
fn test_card_distribution_unsatisfiable() {
    let mut rng: StdRng = SeedableRng::seed_from_u64(42);
    let cards = cv("2C 3C");
    let req = CardDistributionRequest {
        cards,
        constraints: make_constraints(4, 3),
    };
    assert!(possible_card_distribution(&req, &mut rng).is_err());
}

// With nothing owed, sampling always succeeds, handing out no cards.
#[test]
fn test_card_distribution_nothing_owed() {
    let mut rng: StdRng = SeedableRng::seed_from_u64(42);
    let req = CardDistributionRequest {
        cards: cv("2C 3C 4C"),
        constraints: make_constraints(4, 0),
    };
    let dist = possible_card_distribution(&req, &mut rng).unwrap();
    assert_eq!(dist.len(), 4);
    for cards in dist.iter() {
        assert!(cards.is_empty());
    }
}

// A player owed a card while void in every suit can never be served.
#[test]
fn test_card_distribution_empty_pool() {
    let mut rng: StdRng = SeedableRng::seed_from_u64(42);
    let mut constraints = make_constraints(2, 1);
    constraints[0].voided_suits.push(Suit::Clubs);
    constraints[0].voided_suits.push(Suit::Diamonds);
    constraints[0].voided_suits.push(Suit::Hearts);
    constraints[0].voided_suits.push(Suit::Spades);
    let req = CardDistributionRequest {
        cards: cv("2C 3C"),
        constraints,
    };
    assert!(possible_card_distribution(&req, &mut rng).is_err());
}
