use hearts_core::card::{cards_from_str, Card, Deck, Suit};
use hearts_core::hearts::{
    legal_plays, points_for_tricks, trick_winner_index, Round, RoundStatus, RuleSet, Trick,
    TrickHistory, TrickInProgress,
};

fn c(s: &str) -> Vec<Card> {
    cards_from_str(s).unwrap()
}

fn make_trick(leader: usize, cards: &str, winner: usize) -> Trick {
    Trick {
        leader,
        cards: c(cards),
        winner,
    }
}

#[test]
fn test_possible_leads() {
    let rules = RuleSet::default();
    let hand = c("AS QH 4C");
    let cur_trick = TrickInProgress::new(0);

    let prev_tricks_no_hearts = vec![make_trick(0, "8S 7S 6S 5S", 0)];
    assert_eq!(
        legal_plays(&hand, &cur_trick, &prev_tricks_no_hearts, &rules),
        c("AS 4C")
    );

    let prev_tricks_hearts = vec![make_trick(0, "8S 7S KH 5S", 0)];
    assert_eq!(
        legal_plays(&hand, &cur_trick, &prev_tricks_hearts, &rules),
        c("AS QH 4C")
    );
}

#[test]
fn test_possible_follows() {
    let rules = RuleSet::default();
    let hand = c("AS 2S QH 4C");
    // a previous trick keeps the first-trick point rule out of play
    let prev_tricks = vec![Trick {
        leader: 0,
        cards: c("2C JC QC KC"),
        winner: 3,
    }];

    let spade_lead = TrickInProgress {
        leader: 0,
        cards: c("3S KH"),
    };
    assert_eq!(
        legal_plays(&hand, &spade_lead, &prev_tricks, &rules),
        c("AS 2S")
    );

    let diamond_lead = TrickInProgress {
        leader: 0,
        cards: c("3D KH"),
    };
    assert_eq!(
        legal_plays(&hand, &diamond_lead, &prev_tricks, &rules),
        c("AS 2S QH 4C")
    );
}

#[test]
fn test_first_trick_2c_lead() {
    let rules = RuleSet::default();
    let hand = c("AS 2S QH 3C 2C");
    let cur_trick = TrickInProgress::new(0);

    assert_eq!(legal_plays(&hand, &cur_trick, &vec![], &rules), c("2C"));
}

#[test]
fn test_first_trick_follow() {
    let rules = RuleSet::default();
    let hand = c("AS 2S AC QH 3C");
    let cur_trick = TrickInProgress {
        leader: 0,
        cards: c("2C JC"),
    };

    assert_eq!(legal_plays(&hand, &cur_trick, &vec![], &rules), c("AC 3C"));
}

#[test]
fn test_first_trick_no_points() {
    let mut rules = RuleSet::default();
    let hand = c("AS QS 7S 7H 7D");
    let cur_trick = TrickInProgress {
        leader: 0,
        cards: c("2C JC"),
    };

    assert_eq!(
        legal_plays(&hand, &cur_trick, &vec![], &rules),
        c("AS 7S 7D")
    );

    rules.points_on_first_trick = true;
    assert_eq!(
        legal_plays(&hand, &cur_trick, &vec![], &rules),
        c("AS QS 7S 7H 7D")
    );
}

#[test]
fn test_first_trick_only_points() {
    let rules = RuleSet::default();
    let hand = c("AH TH QS 7H");
    let cur_trick = TrickInProgress {
        leader: 0,
        cards: c("2C JC"),
    };

    assert_eq!(
        legal_plays(&hand, &cur_trick, &vec![], &rules),
        c("AH TH QS 7H")
    );
}

#[test]
fn test_trick_winner() {
    assert_eq!(trick_winner_index(&c("9D 8D 7D 6D")), 0);
    assert_eq!(trick_winner_index(&c("9D TD JD QD")), 3);
    assert_eq!(trick_winner_index(&c("9D TD JD QS")), 2);
    assert_eq!(trick_winner_index(&c("9D TD JC QS")), 1);
    assert_eq!(trick_winner_index(&c("9D TH JC QS")), 0);
}

#[test]
fn test_trick_points() {
    let mut rules = RuleSet::default();
    let tricks = vec![
        make_trick(0, "2C AC KC QC", 1),
        make_trick(1, "3D 6D QS 5D", 2),
        make_trick(2, "4D JD AH KD", 1),
    ];
    assert_eq!(points_for_tricks(&tricks, &rules), vec![0, 1, 13, 0]);

    rules.jd_minus_10 = true;
    assert_eq!(points_for_tricks(&tricks, &rules), vec![0, -9, 13, 0]);
}

#[test]
fn test_shooting_points() {
    let mut rules = RuleSet::default();
    let tricks = vec![
        make_trick(0, "2C AC KC QC", 1),
        make_trick(1, "AD QS JD JH", 1),
        make_trick(1, "AH 2H 3H 4H", 1),
        make_trick(1, "KH 5H 6H 7H", 1),
        make_trick(1, "QH 8H 9H TH", 1),
    ];
    assert_eq!(points_for_tricks(&tricks, &rules), vec![26, 0, 26, 26]);

    rules.jd_minus_10 = true;
    assert_eq!(points_for_tricks(&tricks, &rules), vec![26, -10, 26, 26]);
}

#[test]
fn test_trick_history_points() {
    let history = TrickHistory {
        rules: RuleSet::default(),
        tricks: vec![
            make_trick(2, "2C AC QC KC", 3),
            make_trick(3, "2S 5S AS QS", 1),
            make_trick(1, "2D 9H KD AH", 3),
        ],
    };
    assert_eq!(history.points_taken(), vec![0, 13, 0, 2]);
}

#[test]
fn test_deal_and_play() {
    let deck = Deck::new();
    let rules = RuleSet::default();
    let scores = vec![0, 0, 0, 0];
    let mut round = Round::deal(&deck, &rules, &scores, 0);
    assert_eq!(round.status, RoundStatus::Playing);
    for p in round.players.iter() {
        assert_eq!(p.hand.len(), 13);
    }
    // the leader holds the two of clubs and must open with it
    let tc = Card::from("2C").unwrap();
    let leader = round.current_trick.leader;
    assert!(round.players[leader].hand.contains(&tc));
    assert_eq!(round.legal_plays(), vec![tc]);
    assert!(round.play_card(&tc).is_ok());
    assert_eq!(round.current_trick.cards, vec![tc]);
    // a card nobody is holding is refused
    let bogus = Card::from("2C").unwrap();
    assert!(round.play_card(&bogus).is_err());
    assert!(!round.is_over());
}

// A full round with no moon shoot spreads exactly 26 points; a shoot
// turns them into 26 for each opponent.
#[test]
fn test_full_round_total_points() {
    let mut rng: rand::rngs::StdRng = <rand::rngs::StdRng as rand::SeedableRng>::seed_from_u64(99);
    let mut deck = Deck::new();
    deck.shuffle(&mut rng);
    let rules = RuleSet::default();
    let scores = vec![0, 0, 0, 0];
    let mut round = Round::deal(&deck, &rules, &scores, 0);
    while !round.is_over() {
        let card = hearts_core::hearts_ai::choose_card(
            &round,
            &hearts_core::hearts_ai::CardToPlayStrategy::AvoidPoints,
            &mut rng,
        );
        assert!(round.legal_plays().contains(&card));
        assert!(round.play_card(&card).is_ok());
    }
    assert_eq!(round.prev_tricks.len(), 13);
    let points = round.points_taken();
    let total: i32 = points.iter().sum();
    // 26 without a shoot; 26 to each of three opponents after one
    assert!(total == 26 || total == 78);
}

#[test]
fn test_pass_preserves_hand_sizes() {
    let deck = Deck::new();
    let rules = RuleSet::default();
    let scores = vec![0, 0, 0, 0];
    let mut round = Round::deal(&deck, &rules, &scores, 1);
    assert_eq!(round.status, RoundStatus::Passing);
    assert!(!round.ready_to_pass_cards());
    for p in 0..4 {
        let selection: Vec<Card> = round.players[p].hand[0..3].to_vec();
        assert!(round.can_pass_cards(p, &selection));
        round.set_passed_cards_for_player(p, &selection);
    }
    assert!(round.ready_to_pass_cards());
    let sizes_before: Vec<usize> = round.players.iter().map(|p| p.hand.len()).collect();
    round.pass_cards();
    assert_eq!(round.status, RoundStatus::Playing);
    for p in 0..4 {
        assert_eq!(round.players[p].hand.len(), sizes_before[p]);
        assert_eq!(round.players[p].received_cards.len(), 3);
        // each player received exactly what their neighbor passed
        let src = (p + 3) % 4;
        assert_eq!(round.players[p].received_cards, round.players[src].passed_cards);
    }
    let tc = Card::from("2C").unwrap();
    let leader = round.current_trick.leader;
    assert!(round.players[leader].hand.contains(&tc));
}
