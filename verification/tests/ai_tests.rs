use hearts_core::card::{cards_from_str, Card};
use hearts_core::hearts::{RuleSet, Trick, TrickInProgress};
use hearts_core::hearts_ai::{
    choose_card, choose_card_avoid_points, choose_card_random, choose_cards_to_pass,
    choose_cards_to_pass_random, match_equity_for_scores, CardToPlayDirectRequest,
    CardToPlayStrategy, CardsToPassRequest, Equity, MonteCarloParams,
};
use rand::rngs::StdRng;
use rand::SeedableRng;

fn c(s: &str) -> Vec<Card> {
    cards_from_str(s).unwrap()
}

fn is_one(e: &Equity) -> bool {
    e.num == e.den
}

fn is_zero(e: &Equity) -> bool {
    e.num == 0
}

// e1 > e2 as fractions, compared by cross products.
fn gt(e1: &Equity, e2: &Equity) -> bool {
    e1.num * e2.den > e2.num * e1.den
}

#[test]
fn test_match_equity() {
    assert!(is_one(&match_equity_for_scores(&vec![50, 60, 100, 60], 100, 0)));
    assert!(is_zero(&match_equity_for_scores(&vec![50, 60, 100, 60], 100, 1)));
    assert!(is_one(&match_equity_for_scores(
        &vec![104, 103, 102, 101],
        100,
        3
    )));
    assert!(is_zero(&match_equity_for_scores(
        &vec![104, 103, 102, 101],
        100,
        2
    )));

    // half shares in a two-way tie, quarter shares in a four-way one
    let half = match_equity_for_scores(&vec![50, 60, 100, 50], 100, 3);
    assert_eq!(2 * half.num, half.den);
    let quarter = match_equity_for_scores(&vec![0, 0, 0, 0], 100, 3);
    assert_eq!(4 * quarter.num, quarter.den);
    let quarter_done = match_equity_for_scores(&vec![100, 100, 100, 100], 100, 3);
    assert_eq!(4 * quarter_done.num, quarter_done.den);

    let e1 = match_equity_for_scores(&vec![50, 60, 70, 80], 100, 0);
    let e2 = match_equity_for_scores(&vec![51, 59, 70, 80], 100, 0);
    // e2 > 1/4
    assert!(4 * e2.num > e2.den);
    assert!(gt(&e1, &e2));

    let e3 = match_equity_for_scores(&vec![50, 60, 70, 80], 100, 2);
    let e4 = match_equity_for_scores(&vec![50, 60, 70, 80], 100, 3);
    // e3 < 1/4
    assert!(4 * e3.num < e3.den);
    assert!(gt(&e3, &e4));
}

#[test]
fn test_pass_high_cards() {
    let rules = RuleSet::default();
    let req = CardsToPassRequest {
        rules: rules.clone(),
        scores_before_round: vec![0, 0, 0, 0],
        hand: c("JS 5S 4S 3S 8H 5H 3H AD KD TD 7C 6C 4C"),
        direction: 1,
        num_cards: 3,
    };
    assert_eq!(choose_cards_to_pass(&req), c("AD KD TD"));
}

#[test]
fn test_pass_bad_spades() {
    let rules = RuleSet::default();
    let req = CardsToPassRequest {
        rules: rules.clone(),
        scores_before_round: vec![0, 0, 0, 0],
        hand: c("AS QS JS AH 8H 2H 6D 5D 4D 3D 6C 5C 4C"),
        direction: 1,
        num_cards: 3,
    };
    assert_eq!(choose_cards_to_pass(&req), c("AS QS AH"));
}

#[test]
fn test_keep_spades_above_queen_passing_right() {
    let rules = RuleSet::default();
    let req = CardsToPassRequest {
        rules: rules.clone(),
        scores_before_round: vec![0, 0, 0, 0],
        hand: c("AS QS JS AH 8H 2H 6D 5D 4D 3D 6C 5C 4C"),
        direction: 3,
        num_cards: 3,
    };
    assert_eq!(choose_cards_to_pass(&req), c("QS AH 8H"));
}

#[test]
fn pass_high_spades_right_without_queen() {
    let rules = RuleSet::default();
    let req = CardsToPassRequest {
        rules: rules.clone(),
        scores_before_round: vec![0, 0, 0, 0],
        hand: c("AS KS JS AH 8H 2H 6D 5D 4D 3D 6C 5C 4C"),
        direction: 3,
        num_cards: 3,
    };
    assert_eq!(choose_cards_to_pass(&req), c("AS KS AH"));
}

#[test]
fn test_pass_random_takes_front() {
    let req = CardsToPassRequest {
        rules: RuleSet::default(),
        scores_before_round: vec![0, 0, 0, 0],
        hand: c("AS KS JS AH 8H"),
        direction: 1,
        num_cards: 3,
    };
    assert_eq!(choose_cards_to_pass_random(&req), c("AS KS JS"));
}

fn mid_round_request() -> CardToPlayDirectRequest {
    // the second trick, a club led, with the deciding player to follow
    CardToPlayDirectRequest {
        rules: RuleSet::default(),
        scores_before_round: vec![10, 20, 30, 40],
        hand: c("KS 9S 2S KH 3H 2H 9D 8D 7D 9C 8C 3C"),
        prev_tricks: vec![Trick {
            leader: 0,
            cards: c("2C AC KC QC"),
            winner: 1,
        }],
        current_trick: TrickInProgress {
            leader: 1,
            cards: c("4C 8S"),
        },
        pass_direction: 0,
        passed_cards: Vec::new(),
        received_cards: Vec::new(),
    }
}

#[test]
fn test_avoid_points_dumps_queen_when_discarding() {
    let mut rng: StdRng = SeedableRng::seed_from_u64(21);
    // cannot follow the diamond lead: the queen of spades goes
    let req = CardToPlayDirectRequest {
        rules: RuleSet::default(),
        scores_before_round: vec![0, 0, 0, 0],
        hand: c("QS 9S KH 3H 9C 8C"),
        prev_tricks: vec![Trick {
            leader: 0,
            cards: c("2C AC KC QC"),
            winner: 1,
        }],
        current_trick: TrickInProgress {
            leader: 1,
            cards: c("4D 8D"),
        },
        pass_direction: 0,
        passed_cards: Vec::new(),
        received_cards: Vec::new(),
    };
    assert_eq!(choose_card_avoid_points(&req, &mut rng), c("QS")[0]);
}

#[test]
fn test_avoid_points_ducks_under_winner() {
    let mut rng: StdRng = SeedableRng::seed_from_u64(22);
    // following a spade lead with the king out: play just under it
    let req = CardToPlayDirectRequest {
        rules: RuleSet::default(),
        scores_before_round: vec![0, 0, 0, 0],
        hand: c("AS 9S 2S KH 3H 9C"),
        prev_tricks: vec![Trick {
            leader: 0,
            cards: c("2C AC KC QC"),
            winner: 1,
        }],
        current_trick: TrickInProgress {
            leader: 1,
            cards: c("KS 4H"),
        },
        pass_direction: 0,
        passed_cards: Vec::new(),
        received_cards: Vec::new(),
    };
    assert_eq!(choose_card_avoid_points(&req, &mut rng), c("9S")[0]);
}

#[test]
fn test_avoid_points_takes_clean_trick_high() {
    let mut rng: StdRng = SeedableRng::seed_from_u64(23);
    // last to play on a pointless trick: win it as high as possible
    let req = CardToPlayDirectRequest {
        rules: RuleSet::default(),
        scores_before_round: vec![0, 0, 0, 0],
        hand: c("AD 9D 2D KH 9C"),
        prev_tricks: vec![Trick {
            leader: 0,
            cards: c("2C AC KC QC"),
            winner: 1,
        }],
        current_trick: TrickInProgress {
            leader: 1,
            cards: c("4D 8D TD"),
        },
        pass_direction: 0,
        passed_cards: Vec::new(),
        received_cards: Vec::new(),
    };
    assert_eq!(choose_card_avoid_points(&req, &mut rng), c("AD")[0]);
}

#[test]
fn test_choose_card_random_is_legal() {
    let mut rng: StdRng = SeedableRng::seed_from_u64(11);
    let req = mid_round_request();
    let legal = req.legal_plays();
    for _ in 0..20 {
        let chosen = choose_card_random(&req, &mut rng);
        assert!(legal.contains(&chosen));
    }
}

#[test]
fn test_choose_card_avoid_points_is_legal() {
    let mut rng: StdRng = SeedableRng::seed_from_u64(12);
    let req = mid_round_request();
    let legal = req.legal_plays();
    let chosen = choose_card_avoid_points(&req, &mut rng);
    assert!(legal.contains(&chosen));
}

#[test]
fn test_monte_carlo_result_is_legal() {
    let mut rng: StdRng = SeedableRng::seed_from_u64(13);
    let req = mid_round_request();
    let legal = req.legal_plays();
    assert!(legal.len() > 1);
    let strategy = CardToPlayStrategy::MonteCarloRandom(MonteCarloParams {
        num_hands: 4,
        rollouts_per_hand: 2,
    });
    let chosen = choose_card(&req, &strategy, &mut rng);
    assert!(legal.contains(&chosen));
}

#[test]
fn test_monte_carlo_avoid_points_is_legal() {
    let mut rng: StdRng = SeedableRng::seed_from_u64(14);
    let req = mid_round_request();
    let legal = req.legal_plays();
    let strategy = CardToPlayStrategy::MonteCarloAvoidPoints(MonteCarloParams {
        num_hands: 3,
        rollouts_per_hand: 2,
    });
    let chosen = choose_card(&req, &strategy, &mut rng);
    assert!(legal.contains(&chosen));
}

#[test]
fn test_mixed_strategy_is_legal() {
    let mut rng: StdRng = SeedableRng::seed_from_u64(15);
    let req = mid_round_request();
    let legal = req.legal_plays();
    let strategy = CardToPlayStrategy::MixedRandomAvoidPoints(hearts_core::hearts_ai::Chance {
        num: 1,
        den: 10,
    });
    for _ in 0..10 {
        let chosen = choose_card(&req, &strategy, &mut rng);
        assert!(legal.contains(&chosen));
    }
}
