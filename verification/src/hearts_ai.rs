//! The decision engines: match equity, the passing heuristic, the fast
//! play policies, and the Monte Carlo search over hidden hands.

use vstd::prelude::*;
use crate::card::{Card, Suit, all_cards, ranks_for_suit};
use crate::hearts::{
    clone_cards, contains_card, legal_plays, points_for_cards, spec_hands_total,
    spec_jack_of_diamonds, spec_legal_plays, spec_points_for_cards, spec_queen_of_spades,
    spec_trick_winner_index, spec_two_of_clubs, two_of_clubs, jack_of_diamonds,
    queen_of_spades, Player, Round, RoundStatus, RuleSet, Trick, TrickInProgress,
};
use crate::sampler::{CardDistributionPlayerConstraint, CardDistributionRequest};

verus! {

/// How hard the Monte Carlo search works: how many hypothetical deals
/// to draw, and how many rollouts to run per deal and candidate play.
#[derive(Debug, Copy, Clone)]
pub struct MonteCarloParams {
    pub num_hands: i32,
    pub rollouts_per_hand: i32,
}

/// A probability expressed as a fraction of two integers.
#[derive(Debug, Copy, Clone)]
pub struct Chance {
    pub num: u32,
    pub den: u32,
}

/// How to choose a card: uniformly at random, by the point-avoiding
/// heuristic, a mix of the two, or a Monte Carlo search whose rollouts
/// are driven by one of those three.
pub enum CardToPlayStrategy {
    Random,
    AvoidPoints,
    MixedRandomAvoidPoints(Chance),
    MonteCarloRandom(MonteCarloParams),
    MonteCarloAvoidPoints(MonteCarloParams),
    MonteCarloMixedRandomAvoidPoints(Chance, MonteCarloParams),
}

/// An estimated probability of winning the match, as an exact fraction.
#[derive(Debug, Copy, Clone)]
pub struct Equity {
    pub num: u128,
    pub den: u128,
}

pub open spec fn spec_game_over(scores: Seq<i32>, limit: int) -> bool {
    exists|k: int| 0 <= k < scores.len() && #[trigger] scores[k] >= limit
}

pub open spec fn spec_min_score(scores: Seq<i32>) -> int
    decreases scores.len(),
{
    if scores.len() == 0 {
        i32::MAX as int
    } else {
        let m = spec_min_score(scores.drop_last());
        if scores.last() < m { scores.last() as int } else { m }
    }
}

pub open spec fn spec_count_min(scores: Seq<i32>, m: int) -> int
    decreases scores.len(),
{
    if scores.len() == 0 {
        0
    } else {
        spec_count_min(scores.drop_last(), m) + if scores.last() == m { 1int } else { 0int }
    }
}

/// Sum over the players of their distance to the point limit.
pub open spec fn spec_dist_sum(scores: Seq<i32>, limit: int) -> int
    decreases scores.len(),
{
    if scores.len() == 0 {
        0
    } else {
        spec_dist_sum(scores.drop_last(), limit) + (limit - scores.last())
    }
}

/// The match equity of one player as a fraction: with the match over,
/// a full share of a win split among the players tied at the lowest
/// score, and nothing otherwise; mid-match, the player's distance to
/// the limit as a share of everybody's.
pub open spec fn spec_match_equity(scores: Seq<i32>, limit: int, pi: int) -> (int, int) {
    if spec_game_over(scores, limit) {
        if scores[pi] > spec_min_score(scores) {
            (0, 1)
        } else {
            (1, spec_count_min(scores, spec_min_score(scores)))
        }
    } else {
        (limit - scores[pi], spec_dist_sum(scores, limit))
    }
}

proof fn lemma_min_score_props(scores: Seq<i32>)
    requires
        scores.len() > 0,
    ensures
        forall|k: int| 0 <= k < scores.len() ==> spec_min_score(scores) <= #[trigger] scores[k],
        exists|k: int| 0 <= k < scores.len() && spec_min_score(scores) == #[trigger] scores[k],
        spec_count_min(scores, spec_min_score(scores)) >= 1,
        i32::MIN <= spec_min_score(scores) <= i32::MAX,
    decreases scores.len(),
{
    if scores.len() == 1 {
        assert(scores[0] == scores.last());
        assert(spec_min_score(scores.drop_last()) == i32::MAX as int);
        assert(spec_min_score(scores) == scores[0]);
        lemma_count_min_attained(scores, spec_min_score(scores));
    } else {
        lemma_min_score_props(scores.drop_last());
        assert forall|k: int| 0 <= k < scores.len()
            implies spec_min_score(scores) <= #[trigger] scores[k] by {
            if k < scores.len() - 1 {
                assert(scores.drop_last()[k] == scores[k]);
            }
        }
        let m = spec_min_score(scores.drop_last());
        if scores.last() < m {
            assert(spec_min_score(scores) == scores[scores.len() - 1]);
        } else {
            let k = choose|k: int| 0 <= k < scores.drop_last().len()
                && spec_min_score(scores.drop_last()) == #[trigger] scores.drop_last()[k];
            assert(spec_min_score(scores) == scores[k]);
        }
        lemma_count_min_attained(scores, spec_min_score(scores));
    }
}

proof fn lemma_count_min_attained(scores: Seq<i32>, m: int)
    requires
        exists|k: int| 0 <= k < scores.len() && m == #[trigger] scores[k],
    ensures
        spec_count_min(scores, m) >= 1,
        spec_count_min(scores, m) <= scores.len(),
    decreases scores.len(),
{
    lemma_count_min_bounds(scores, m);
    lemma_count_min_bounds(scores.drop_last(), m);
    let k = choose|k: int| 0 <= k < scores.len() && m == #[trigger] scores[k];
    if k == scores.len() - 1 {
        assert(scores.last() == scores[k]);
    } else {
        assert(scores.drop_last()[k] == scores[k]);
        lemma_count_min_attained(scores.drop_last(), m);
    }
}

proof fn lemma_count_min_bounds(scores: Seq<i32>, m: int)
    ensures
        0 <= spec_count_min(scores, m) <= scores.len(),
    decreases scores.len(),
{
    if scores.len() > 0 {
        lemma_count_min_bounds(scores.drop_last(), m);
    }
}

proof fn lemma_dist_sum_bounds(scores: Seq<i32>, limit: int)
    requires
        0 <= limit <= u32::MAX,
    ensures
        spec_dist_sum(scores, limit) <= scores.len() * 0x1_8000_0000,
    decreases scores.len(),
{
    if scores.len() > 0 {
        lemma_dist_sum_bounds(scores.drop_last(), limit);
        assert(scores.last() == scores[scores.len() - 1]);
    }
}

proof fn lemma_dist_sum_min_len(scores: Seq<i32>, limit: int)
    requires
        forall|k: int| 0 <= k < scores.len() ==> #[trigger] scores[k] < limit,
    ensures
        spec_dist_sum(scores, limit) >= scores.len(),
    decreases scores.len(),
{
    if scores.len() > 0 {
        assert(forall|k: int| 0 <= k < scores.len() - 1
            ==> #[trigger] scores.drop_last()[k] == scores[k]);
        lemma_dist_sum_min_len(scores.drop_last(), limit);
        assert(scores.last() == scores[scores.len() - 1]);
    }
}

/// Mid-match, everybody else's distance keeps one player's share
/// strictly short of the whole.
proof fn lemma_dist_sum_lower(scores: Seq<i32>, limit: int, pi: int)
    requires
        0 <= pi < scores.len(),
        forall|k: int| 0 <= k < scores.len() ==> #[trigger] scores[k] < limit,
    ensures
        spec_dist_sum(scores, limit) >= (limit - scores[pi]) + (scores.len() - 1),
    decreases scores.len(),
{
    let rest = scores.drop_last();
    assert(spec_dist_sum(scores, limit) == spec_dist_sum(rest, limit) + (limit - scores.last()));
    assert(scores.last() == scores[scores.len() - 1]);
    if scores.len() == 1 {
        assert(spec_dist_sum(rest, limit) == 0);
        assert(pi == 0);
    } else {
        assert(forall|k: int| 0 <= k < scores.len() - 1
            ==> #[trigger] rest[k] == scores[k]);
        if pi == scores.len() - 1 {
            lemma_dist_sum_min_len(rest, limit);
            assert(spec_dist_sum(rest, limit) >= scores.len() - 1);
        } else {
            lemma_dist_sum_lower(rest, limit, pi);
            assert(spec_dist_sum(rest, limit) >= (limit - scores[pi]) + (scores.len() - 2));
            assert(limit - scores.last() >= 1);
        }
    }
}

/// The estimated probability that the player eventually wins the match.
pub fn match_equity_for_scores(scores: &Vec<i32>, max_score: u32, player_index: usize) -> (r: Equity)
    requires
        2 <= scores@.len(),
        player_index < scores@.len(),
    ensures
        r.den > 0,
        r.num <= r.den,
        r.num as int == spec_match_equity(scores@, max_score as int, player_index as int).0,
        r.den as int == spec_match_equity(scores@, max_score as int, player_index as int).1,
        r.num <= 0x1_8000_0000,
        !spec_game_over(scores@, max_score as int) ==> 0 < r.num < r.den,
{
    let n = scores.len();
    let limit = max_score as i64;
    // scan for a finished match and the lowest score
    let mut game_over = (scores[0] as i64) >= limit;
    let mut min_score: i32 = scores[0];
    proof {
        let t = scores@.take(1);
        assert(t.len() == 1);
        assert(t.drop_last() =~= Seq::<i32>::empty());
        assert(spec_min_score(t.drop_last()) == i32::MAX as int);
        assert(t.last() == scores@[0]);
        assert(spec_min_score(t) == scores@[0]);
    }
    let mut i: usize = 1;
    while i < n
        invariant
            n == scores@.len(),
            limit == max_score as i64,
            1 <= i <= n,
            min_score as int == spec_min_score(scores@.take(i as int)),
            game_over == exists|k: int| 0 <= k < i && #[trigger] scores@[k] >= max_score,
        decreases n - i,
    {
        proof {
            assert(scores@.take(i + 1).drop_last() =~= scores@.take(i as int));
            assert(scores@.take(i + 1).last() == scores@[i as int]);
        }
        if (scores[i] as i64) >= limit {
            game_over = true;
        }
        if scores[i] < min_score {
            min_score = scores[i];
        }
        i = i + 1;
    }
    proof {
        assert(scores@.take(n as int) =~= scores@);
    }
    if game_over {
        if scores[player_index] > min_score {
            return Equity { num: 0, den: 1 };
        }
        // an n-way tie for first is worth a 1/n share
        let mut num_winners: u128 = 0;
        proof {
            assert(scores@.take(0) =~= Seq::<i32>::empty());
        }
        let mut i: usize = 0;
        while i < n
            invariant
                n == scores@.len(),
                i <= n,
                num_winners as int == spec_count_min(scores@.take(i as int), min_score as int),
                num_winners <= i,
            decreases n - i,
        {
            proof {
                assert(scores@.take(i + 1).drop_last() =~= scores@.take(i as int));
                assert(scores@.take(i + 1).last() == scores@[i as int]);
            }
            if scores[i] == min_score {
                num_winners = num_winners + 1;
            }
            i = i + 1;
        }
        proof {
            assert(scores@.take(n as int) =~= scores@);
            lemma_min_score_props(scores@);
        }
        return Equity { num: 1, den: num_winners };
    }
    // mid-match: this player's distance to the limit over everybody's
    let mut total_dist: u128 = 0;
    proof {
        assert(scores@.take(0) =~= Seq::<i32>::empty());
        lemma_min_score_props(scores@);
    }
    let mut i: usize = 0;
    while i < n
        invariant
            n == scores@.len(),
            limit == max_score as i64,
            i <= n,
            forall|k: int| 0 <= k < n ==> #[trigger] scores@[k] < max_score,
            total_dist as int == spec_dist_sum(scores@.take(i as int), max_score as int),
            total_dist <= i * 0x1_8000_0000,
        decreases n - i,
    {
        proof {
            assert(scores@.take(i + 1).drop_last() =~= scores@.take(i as int));
            assert(scores@.take(i + 1).last() == scores@[i as int]);
        }
        let dist = (limit - (scores[i] as i64)) as u128;
        total_dist = total_dist + dist;
        i = i + 1;
    }
    proof {
        assert(scores@.take(n as int) =~= scores@);
        lemma_dist_sum_lower(scores@, max_score as int, player_index as int);
        lemma_dist_sum_bounds(scores@, max_score as int);
    }
    let num = (limit - (scores[player_index] as i64)) as u128;
    Equity { num, den: total_dist }
}

/// At a completed match the win goes whole to a unique lowest score and
/// in equal shares to players tied for it.
pub proof fn lemma_match_equity_completed(scores: Seq<i32>, limit: int, pi: int)
    requires
        0 <= pi < scores.len(),
        spec_game_over(scores, limit),
    ensures
        scores[pi] == spec_min_score(scores) && spec_count_min(scores, spec_min_score(scores)) == 1
            ==> spec_match_equity(scores, limit, pi) == (1int, 1int),
        scores[pi] == spec_min_score(scores)
            ==> spec_match_equity(scores, limit, pi)
                == (1int, spec_count_min(scores, spec_min_score(scores))),
        scores[pi] > spec_min_score(scores)
            ==> spec_match_equity(scores, limit, pi) == (0int, 1int),
{
    lemma_min_score_props(scores);
}

/// Mid-match, lowering only this player's score raises their equity:
/// the fractions compare as cross products.
pub proof fn lemma_equity_monotone(scores: Seq<i32>, lowered: Seq<i32>, limit: int, pi: int)
    requires
        2 <= scores.len(),
        0 <= pi < scores.len(),
        !spec_game_over(scores, limit),
        lowered == scores.update(pi, lowered[pi]),
        lowered[pi] < scores[pi],
    ensures
        !spec_game_over(lowered, limit),
        spec_match_equity(lowered, limit, pi).0 * spec_match_equity(scores, limit, pi).1
            > spec_match_equity(scores, limit, pi).0 * spec_match_equity(lowered, limit, pi).1,
{
    assert forall|k: int| 0 <= k < lowered.len() implies #[trigger] lowered[k] < limit by {
        assert(scores[k] < limit) by {
            if scores[k] >= limit {
                assert(spec_game_over(scores, limit));
            }
        }
    }
    assert forall|k: int| 0 <= k < scores.len() implies #[trigger] scores[k] < limit by {
        if scores[k] >= limit {
            assert(spec_game_over(scores, limit));
        }
    }
    if spec_game_over(lowered, limit) {
        let k = choose|k: int| 0 <= k < lowered.len() && #[trigger] lowered[k] >= limit;
        assert(false);
    }
    let d = scores[pi] - lowered[pi];
    lemma_dist_sum_update(scores, limit, pi, lowered[pi] as i32);
    assert(lowered =~= scores.update(pi, lowered[pi]));
    let n1 = limit - scores[pi];
    let s1 = spec_dist_sum(scores, limit);
    let n2 = limit - lowered[pi];
    let s2 = spec_dist_sum(lowered, limit);
    assert(n2 == n1 + d);
    assert(s2 == s1 + d);
    lemma_dist_sum_lower(scores, limit, pi);
    assert(s1 > n1);
    assert(d > 0);
    assert((n1 + d) * s1 > n1 * (s1 + d)) by (nonlinear_arith)
        requires
            s1 > n1,
            d > 0,
    ;
}

proof fn lemma_dist_sum_update(scores: Seq<i32>, limit: int, pi: int, v: i32)
    requires
        0 <= pi < scores.len(),
    ensures
        spec_dist_sum(scores.update(pi, v), limit)
            == spec_dist_sum(scores, limit) + (scores[pi] - v),
    decreases scores.len(),
{
    let upd = scores.update(pi, v);
    if pi == scores.len() - 1 {
        assert(upd.drop_last() =~= scores.drop_last());
        assert(upd.last() == v);
    } else {
        assert(upd.drop_last() =~= scores.drop_last().update(pi, v));
        assert(upd.last() == scores.last());
        lemma_dist_sum_update(scores.drop_last(), limit, pi, v);
    }
}

/// The context of a pass decision.
pub struct CardsToPassRequest {
    pub rules: RuleSet,
    pub scores_before_round: Vec<i32>,
    pub hand: Vec<Card>,
    pub direction: u32,
    pub num_cards: u32,
}

/// The trivial passing policy: the first cards of the hand.
pub fn choose_cards_to_pass_random(req: &CardsToPassRequest) -> (r: Vec<Card>)
    requires
        req.num_cards <= req.hand@.len(),
    ensures
        r@ == req.hand@.take(req.num_cards as int),
{
    let n = req.num_cards as usize;
    let mut out: Vec<Card> = Vec::new();
    proof {
        assert(out@ =~= req.hand@.take(0));
    }
    let mut i: usize = 0;
    while i < n
        invariant
            n <= req.hand@.len(),
            i <= n,
            out@ == req.hand@.take(i as int),
        decreases n - i,
    {
        proof {
            assert(req.hand@.take(i + 1) =~= req.hand@.take(i as int).push(req.hand@[i as int]));
        }
        out.push(req.hand[i]);
        i = i + 1;
    }
    out
}

/// How many cards of the suit the hand holds.
pub open spec fn spec_suit_count(hand: Seq<Card>, s: Suit) -> int
    decreases hand.len(),
{
    if hand.len() == 0 {
        0
    } else {
        spec_suit_count(hand.drop_last(), s) + if hand.last().suit == s { 1int } else { 0int }
    }
}

/// The lowest rank of the suit in the hand; one hundred if there is
/// none, which no real rank reaches.
pub open spec fn spec_min_rank_in_suit(hand: Seq<Card>, s: Suit) -> int
    decreases hand.len(),
{
    if hand.len() == 0 {
        100
    } else {
        let m = spec_min_rank_in_suit(hand.drop_last(), s);
        if hand.last().suit == s && (hand.last().rank.value as int) < m {
            hand.last().rank.value as int
        } else {
            m
        }
    }
}

/// The lowest rank of the suit in the hand above a floor; one hundred
/// if there is none.
pub open spec fn spec_min_rank_above(hand: Seq<Card>, s: Suit, floor: int) -> int
    decreases hand.len(),
{
    if hand.len() == 0 {
        100
    } else {
        let m = spec_min_rank_above(hand.drop_last(), s, floor);
        if hand.last().suit == s && (hand.last().rank.value as int) > floor
            && (hand.last().rank.value as int) < m {
            hand.last().rank.value as int
        } else {
            m
        }
    }
}

/// How eagerly the heuristic passes a card away. High spades are
/// dangerous unless protected or passed to the right with the queen;
/// red cards score by their own and the suit's lowest rank; clubs treat
/// the two as highest, since it wins the opening trick.
pub open spec fn spec_danger(c: Card, hand: Seq<Card>, dir: int, n: int) -> int {
    let v = c.rank.value as int;
    let low = spec_min_rank_in_suit(hand, c.suit);
    match c.suit {
        Suit::Spades => {
            if v < 12 {
                0
            } else if spec_suit_count(hand, Suit::Spades) >= 4 {
                0
            } else if v == 12 {
                100
            } else if dir == n - 1 && hand.contains(spec_queen_of_spades()) && low < 12 {
                v - 5
            } else {
                100
            }
        },
        Suit::Hearts => v + low,
        Suit::Diamonds => v + low,
        Suit::Clubs => {
            let adj = if v == 2 { 14int } else { v - 1 };
            if low == 2 {
                if spec_suit_count(hand, Suit::Clubs) == 1 {
                    50
                } else {
                    adj + spec_min_rank_above(hand, Suit::Clubs, 2)
                }
            } else {
                adj + low - 1
            }
        },
    }
}

fn suit_count(hand: &Vec<Card>, s: Suit) -> (r: usize)
    ensures
        r as int == spec_suit_count(hand@, s),
{
    let n = hand.len();
    let mut count: usize = 0;
    proof {
        assert(hand@.take(0) =~= Seq::<Card>::empty());
    }
    let mut i: usize = 0;
    while i < n
        invariant
            n == hand@.len(),
            i <= n,
            count <= i,
            count as int == spec_suit_count(hand@.take(i as int), s),
        decreases n - i,
    {
        proof {
            assert(hand@.take(i + 1).drop_last() =~= hand@.take(i as int));
            assert(hand@.take(i + 1).last() == hand@[i as int]);
        }
        if hand[i].suit == s {
            count = count + 1;
        }
        i = i + 1;
    }
    proof {
        assert(hand@.take(n as int) =~= hand@);
    }
    count
}

fn min_rank_in_suit(hand: &Vec<Card>, s: Suit) -> (r: u32)
    ensures
        r as int == spec_min_rank_in_suit(hand@, s),
        r <= 100,
{
    let n = hand.len();
    let mut m: u32 = 100;
    proof {
        assert(hand@.take(0) =~= Seq::<Card>::empty());
    }
    let mut i: usize = 0;
    while i < n
        invariant
            n == hand@.len(),
            i <= n,
            m <= 100,
            m as int == spec_min_rank_in_suit(hand@.take(i as int), s),
        decreases n - i,
    {
        proof {
            assert(hand@.take(i + 1).drop_last() =~= hand@.take(i as int));
            assert(hand@.take(i + 1).last() == hand@[i as int]);
        }
        if hand[i].suit == s && hand[i].rank.value < m {
            m = hand[i].rank.value;
        }
        i = i + 1;
    }
    proof {
        assert(hand@.take(n as int) =~= hand@);
    }
    m
}

fn min_rank_above(hand: &Vec<Card>, s: Suit, floor: u32) -> (r: u32)
    ensures
        r as int == spec_min_rank_above(hand@, s, floor as int),
        r <= 100,
{
    let n = hand.len();
    let mut m: u32 = 100;
    proof {
        assert(hand@.take(0) =~= Seq::<Card>::empty());
    }
    let mut i: usize = 0;
    while i < n
        invariant
            n == hand@.len(),
            i <= n,
            m <= 100,
            m as int == spec_min_rank_above(hand@.take(i as int), s, floor as int),
        decreases n - i,
    {
        proof {
            assert(hand@.take(i + 1).drop_last() =~= hand@.take(i as int));
            assert(hand@.take(i + 1).last() == hand@[i as int]);
        }
        if hand[i].suit == s && hand[i].rank.value > floor && hand[i].rank.value < m {
            m = hand[i].rank.value;
        }
        i = i + 1;
    }
    proof {
        assert(hand@.take(n as int) =~= hand@);
    }
    m
}

/// The danger score of one card of the hand.
fn danger_for_card(card: &Card, req: &CardsToPassRequest) -> (r: i32)
    requires
        crate::card::card_valid(*card),
        req.rules.num_players >= 1,
    ensures
        r as int == spec_danger(*card, req.hand@, req.direction as int, req.rules.num_players as int),
{
    let hand = &req.hand;
    let cval = card.rank.value as i32;
    let low = min_rank_in_suit(hand, card.suit) as i32;
    match card.suit {
        Suit::Spades => {
            if card.rank.value < 12 {
                return 0;
            }
            if suit_count(hand, Suit::Spades) >= 4 {
                return 0;
            }
            if card.rank.value == 12 {
                return 100;
            }
            let qs = queen_of_spades();
            let passing_right = (req.direction as usize) == req.rules.num_players - 1;
            if passing_right && contains_card(hand, &qs) && low < 12 {
                cval - 5
            } else {
                100
            }
        },
        Suit::Hearts => cval + low,
        Suit::Diamonds => cval + low,
        Suit::Clubs => {
            let adj = if card.rank.value == 2 { 14 } else { cval - 1 };
            if low == 2 {
                if suit_count(hand, Suit::Clubs) == 1 {
                    50
                } else {
                    adj + (min_rank_above(hand, Suit::Clubs, 2) as i32)
                }
            } else {
                adj + low - 1
            }
        },
    }
}

/// Whether card `a` goes out ahead of card `b`: it is more dangerous,
/// or equally dangerous and earlier in the hand (the ordering is
/// stable).
pub open spec fn spec_pass_before(a: Card, b: Card, hand: Seq<Card>, dir: int, n: int) -> bool {
    spec_danger(a, hand, dir, n) > spec_danger(b, hand, dir, n)
        || (spec_danger(a, hand, dir, n) == spec_danger(b, hand, dir, n)
            && hand.index_of(a) < hand.index_of(b))
}

/// In a duplicate-free hand, a card's index is the position it sits at.
proof fn lemma_index_of_unique(hand: Seq<Card>, l: int)
    requires
        hand.no_duplicates(),
        0 <= l < hand.len(),
    ensures
        hand.index_of(hand[l]) == l,
{
    assert(hand.contains(hand[l]));
    let j = hand.index_of(hand[l]);
    if j != l {
        assert(hand[j] == hand[l]);
        assert(false);
    }
}

/// Picks the cards to pass: the whole hand is ordered by falling danger
/// — stably, so cards of equal danger keep their hand order — and the
/// front of that order goes out. Every passed card is at least as
/// dangerous as every kept one.
pub fn choose_cards_to_pass(req: &CardsToPassRequest) -> (r: Vec<Card>)
    requires
        req.num_cards <= req.hand@.len(),
        req.hand@.no_duplicates(),
        req.rules.num_players >= 1,
        forall|i: int| 0 <= i < req.hand@.len() ==> crate::card::card_valid(#[trigger] req.hand@[i]),
    ensures
        r@.len() == req.num_cards,
        r@.no_duplicates(),
        forall|i: int| 0 <= i < r@.len() ==> req.hand@.contains(#[trigger] r@[i]),
        forall|i: int, j: int| 0 <= i <= j < r@.len()
            ==> spec_danger(#[trigger] r@[i], req.hand@, req.direction as int, req.rules.num_players as int)
                >= spec_danger(#[trigger] r@[j], req.hand@, req.direction as int, req.rules.num_players as int),
        forall|c: Card, d: Card| r@.contains(c) && req.hand@.contains(d) && !r@.contains(d)
            ==> spec_danger(c, req.hand@, req.direction as int, req.rules.num_players as int)
                >= spec_danger(d, req.hand@, req.direction as int, req.rules.num_players as int),
        // the stable order: within the selection, and across the cut,
        // higher danger goes first and ties keep the hand order
        forall|i: int, j: int| 0 <= i < j < r@.len()
            ==> spec_pass_before(#[trigger] r@[i], #[trigger] r@[j],
                req.hand@, req.direction as int, req.rules.num_players as int),
        forall|c: Card, d: Card| r@.contains(c) && req.hand@.contains(d) && !r@.contains(d)
            ==> spec_pass_before(c, d, req.hand@, req.direction as int, req.rules.num_players as int),
{
    broadcast use vstd::seq_lib::group_to_multiset_ensures;

    let ghost dir = req.direction as int;
    let ghost np = req.rules.num_players as int;
    let n = req.hand.len();
    // order the whole hand by falling danger, stably
    let mut sorted: Vec<Card> = Vec::new();
    proof {
        assert(req.hand@.take(0) =~= Seq::<Card>::empty());
        assert(sorted@.to_multiset() =~= req.hand@.take(0).to_multiset());
    }
    let mut i: usize = 0;
    while i < n
        invariant
            n == req.hand@.len(),
            i <= n,
            dir == req.direction as int,
            np == req.rules.num_players as int,
            req.rules.num_players >= 1,
            forall|k: int| 0 <= k < req.hand@.len()
                ==> crate::card::card_valid(#[trigger] req.hand@[k]),
            req.hand@.no_duplicates(),
            sorted@.to_multiset() == req.hand@.take(i as int).to_multiset(),
            sorted@.len() == i,
            forall|a: int, b: int| 0 <= a <= b < sorted@.len()
                ==> spec_danger(#[trigger] sorted@[a], req.hand@, dir, np)
                    >= spec_danger(#[trigger] sorted@[b], req.hand@, dir, np),
            forall|a: int, b: int| 0 <= a < b < sorted@.len()
                ==> spec_pass_before(#[trigger] sorted@[a], #[trigger] sorted@[b], req.hand@, dir, np),
        decreases n - i,
    {
        let c = req.hand[i];
        let d = danger_for_card(&c, req);
        proof {
            assert(crate::card::card_valid(c));
        }
        let mut pos: usize = 0;
        while pos < sorted.len()
            invariant
                dir == req.direction as int,
                np == req.rules.num_players as int,
                req.rules.num_players >= 1,
                n == req.hand@.len(),
                i < n,
                forall|k: int| 0 <= k < req.hand@.len()
                    ==> crate::card::card_valid(#[trigger] req.hand@[k]),
                d as int == spec_danger(c, req.hand@, dir, np),
                pos <= sorted@.len(),
                sorted@.to_multiset() == req.hand@.take(i as int).to_multiset(),
                forall|k: int| 0 <= k < pos
                    ==> spec_danger(#[trigger] sorted@[k], req.hand@, dir, np) >= d as int,
            ensures
                pos <= sorted@.len(),
                forall|k: int| 0 <= k < pos
                    ==> spec_danger(#[trigger] sorted@[k], req.hand@, dir, np) >= d as int,
                pos == sorted@.len()
                    || spec_danger(sorted@[pos as int], req.hand@, dir, np) < d as int,
            decreases sorted@.len() - pos,
        {
            let ghost sc = sorted@[pos as int];
            proof {
                broadcast use vstd::seq_lib::group_to_multiset_ensures;
                assert(sorted@.to_multiset().contains(sc)) by {
                    assert(sorted@.contains(sc));
                }
                assert(req.hand@.take(i as int).to_multiset().contains(sc));
                assert(req.hand@.take(i as int).contains(sc));
                let l = choose|l: int| 0 <= l < i && req.hand@.take(i as int)[l] == sc;
                assert(req.hand@[l] == sc);
                assert(crate::card::card_valid(sc));
            }
            let existing = sorted[pos];
            let ed = danger_for_card(&existing, req);
            if ed < d {
                break;
            }
            pos = pos + 1;
        }
        let ghost old_sorted = sorted@;
        let ghost oldpos = pos as int;
        sorted.insert(pos, c);
        proof {
            broadcast use vstd::seq_lib::group_to_multiset_ensures;
            let pieces = old_sorted.take(oldpos) + seq![c] + old_sorted.skip(oldpos);
            assert(sorted@ =~= pieces);
            vstd::seq_lib::lemma_multiset_commutative(old_sorted.take(oldpos) + seq![c], old_sorted.skip(oldpos));
            vstd::seq_lib::lemma_multiset_commutative(old_sorted.take(oldpos), seq![c]);
            vstd::seq_lib::lemma_multiset_commutative(old_sorted.take(oldpos), old_sorted.skip(oldpos));
            assert(old_sorted.take(oldpos) + old_sorted.skip(oldpos) =~= old_sorted);
            assert(seq![c] =~= Seq::<Card>::empty().push(c));
            assert(seq![c].to_multiset() =~= vstd::multiset::Multiset::<Card>::empty().insert(c));
            assert(sorted@.to_multiset() =~= old_sorted.to_multiset().insert(c));
            assert(req.hand@.take(i + 1).drop_last() =~= req.hand@.take(i as int));
            assert(req.hand@.take(i + 1) =~= req.hand@.take(i as int).push(req.hand@[i as int]));
            assert(forall|k: int| 0 <= k < oldpos ==> sorted@[k] == old_sorted[k]);
            assert(forall|k: int| oldpos < k < sorted@.len() ==> sorted@[k] == old_sorted[k - 1]);
            assert(sorted@[oldpos] == c);
            assert forall|k: int| oldpos <= k < old_sorted.len()
                implies spec_danger(old_sorted[k], req.hand@, dir, np) < d as int by {
                assert(spec_danger(old_sorted[oldpos], req.hand@, dir, np) < d as int);
            }
            assert(forall|a: int, b: int| 0 <= a <= b < sorted@.len()
                ==> spec_danger(#[trigger] sorted@[a], req.hand@, dir, np)
                    >= spec_danger(#[trigger] sorted@[b], req.hand@, dir, np));
            // stability: everything already placed came from earlier in
            // the hand than the card being inserted
            lemma_index_of_unique(req.hand@, i as int);
            assert(req.hand@.index_of(c) == i);
            assert forall|k: int| 0 <= k < old_sorted.len()
                implies req.hand@.index_of(#[trigger] old_sorted[k]) < i as int by {
                assert(old_sorted.contains(old_sorted[k]));
                assert(old_sorted.to_multiset().contains(old_sorted[k]));
                assert(req.hand@.take(i as int).to_multiset().contains(old_sorted[k]));
                assert(req.hand@.take(i as int).contains(old_sorted[k]));
                let l = choose|l: int| 0 <= l < i && req.hand@.take(i as int)[l] == old_sorted[k];
                assert(req.hand@[l] == old_sorted[k]);
                lemma_index_of_unique(req.hand@, l);
            }
            assert forall|a: int, b: int| 0 <= a < b < sorted@.len()
                implies spec_pass_before(#[trigger] sorted@[a], #[trigger] sorted@[b], req.hand@, dir, np) by {
                if b == oldpos {
                    // an earlier card with danger at least as high
                    assert(sorted@[a] == old_sorted[a]);
                    assert(spec_danger(old_sorted[a], req.hand@, dir, np) >= d as int);
                } else if a == oldpos {
                    // everything displaced is strictly less dangerous
                    assert(sorted@[b] == old_sorted[b - 1]);
                    assert(spec_danger(old_sorted[b - 1], req.hand@, dir, np) < d as int);
                } else {
                    let a0 = if a < oldpos { a } else { a - 1 };
                    let b0 = if b < oldpos { b } else { b - 1 };
                    assert(sorted@[a] == old_sorted[a0]);
                    assert(sorted@[b] == old_sorted[b0]);
                }
            }
        }
        i = i + 1;
    }
    proof {
        broadcast use vstd::seq_lib::group_to_multiset_ensures;
        assert(req.hand@.take(n as int) =~= req.hand@);
        // the reordered hand holds exactly the hand's cards, once each
        sorted@.to_multiset_ensures();
        req.hand@.to_multiset_ensures();
        req.hand@.lemma_multiset_has_no_duplicates();
        sorted@.lemma_multiset_has_no_duplicates_conv();
        assert(sorted@.no_duplicates());
        assert forall|k: int| 0 <= k < sorted@.len()
            implies req.hand@.contains(#[trigger] sorted@[k]) by {
            assert(sorted@.contains(sorted@[k]));
            assert(sorted@.to_multiset().contains(sorted@[k]));
        }
        assert forall|c: Card| req.hand@.contains(c) implies sorted@.contains(c) by {
            assert(req.hand@.to_multiset().contains(c));
            assert(sorted@.to_multiset().contains(c));
        }
    }
    // pass the front of the ordering
    let nc = req.num_cards as usize;
    let mut out: Vec<Card> = Vec::new();
    proof {
        assert(out@ =~= sorted@.take(0));
    }
    let mut i: usize = 0;
    while i < nc
        invariant
            nc <= sorted@.len(),
            i <= nc,
            out@ == sorted@.take(i as int),
        decreases nc - i,
    {
        proof {
            assert(sorted@.take(i + 1) =~= sorted@.take(i as int).push(sorted@[i as int]));
        }
        out.push(sorted[i]);
        i = i + 1;
    }
    proof {
        let ghost taken = sorted@.take(nc as int);
        assert(out@ == taken);
        assert forall|a: int, b: int| 0 <= a < b < taken.len() implies taken[a] != taken[b] by {
            assert(sorted@[a] != sorted@[b]);
        }
        assert forall|k: int| 0 <= k < taken.len()
            implies req.hand@.contains(#[trigger] taken[k]) by {
            assert(taken[k] == sorted@[k]);
        }
        // everything kept ranks at or below everything passed
        assert forall|c: Card, d: Card|
            taken.contains(c) && req.hand@.contains(d) && !taken.contains(d)
            implies spec_danger(c, req.hand@, dir, np) >= spec_danger(d, req.hand@, dir, np) by {
            let a = choose|a: int| 0 <= a < taken.len() && taken[a] == c;
            assert(sorted@[a] == c);
            assert(sorted@.contains(d));
            let b = choose|b: int| 0 <= b < sorted@.len() && sorted@[b] == d;
            assert(b >= nc) by {
                if b < nc {
                    assert(taken[b] == d);
                    assert(taken.contains(d));
                }
            }
            assert(spec_pass_before(sorted@[a], sorted@[b], req.hand@, dir, np));
        }
        // ties across the cut keep the hand order
        assert forall|c: Card, d: Card|
            taken.contains(c) && req.hand@.contains(d) && !taken.contains(d)
            implies spec_pass_before(c, d, req.hand@, dir, np) by {
            let a = choose|a: int| 0 <= a < taken.len() && taken[a] == c;
            assert(sorted@[a] == c);
            assert(sorted@.contains(d));
            let b = choose|b: int| 0 <= b < sorted@.len() && sorted@[b] == d;
            assert(b >= nc) by {
                if b < nc {
                    assert(taken[b] == d);
                    assert(taken.contains(d));
                }
            }
            assert(spec_pass_before(sorted@[a], sorted@[b], req.hand@, dir, np));
        }
        assert forall|i: int, j: int| 0 <= i < j < taken.len()
            implies spec_pass_before(#[trigger] taken[i], #[trigger] taken[j], req.hand@, dir, np) by {
            assert(taken[i] == sorted@[i] && taken[j] == sorted@[j]);
        }
    }
    out
}

/// The inputs a play decision is made from. A plain request carries
/// them directly; a live round exposes its own state the same way, so
/// the deciders can read either without a copy.
pub trait ChooseCardToPlayRequest {
    spec fn spec_rules(&self) -> RuleSet;

    spec fn spec_scores(&self) -> Seq<i32>;

    spec fn spec_hand(&self) -> Seq<Card>;

    spec fn spec_prev_tricks(&self) -> Seq<Trick>;

    spec fn spec_trick_leader(&self) -> int;

    spec fn spec_trick_cards(&self) -> Seq<Card>;

    spec fn spec_pass_direction(&self) -> u32;

    spec fn spec_passed_cards(&self) -> Seq<Card>;

    spec fn spec_received_cards(&self) -> Seq<Card>;

    /// Structural soundness of the request, the responsibility of
    /// whoever built it.
    spec fn spec_wf(&self) -> bool;

    /// Every sound request meets the shared conditions the deciders
    /// lean on.
    proof fn wf_ok(&self)
        requires
            self.spec_wf(),
        ensures
            self.spec_hand().no_duplicates(),
            2 <= self.spec_rules().num_players <= 52,
            self.spec_scores().len() == self.spec_rules().num_players,
            0 <= self.spec_trick_leader() < self.spec_rules().num_players,
            self.spec_trick_cards().len() < self.spec_rules().num_players,
            self.spec_prev_tricks().len() <= 13,
            (self.spec_pass_direction() as int) < self.spec_rules().num_players,
            forall|k: int| 0 <= k < self.spec_prev_tricks().len()
                ==> (#[trigger] self.spec_prev_tricks()[k]).cards@.len() <= 52,
    ;

    fn rules(&self) -> (r: &RuleSet)
        requires
            self.spec_wf(),
        ensures
            *r == self.spec_rules(),
    ;

    fn scores_before_round(&self) -> (r: &Vec<i32>)
        requires
            self.spec_wf(),
        ensures
            r@ == self.spec_scores(),
    ;

    fn hand(&self) -> (r: &Vec<Card>)
        requires
            self.spec_wf(),
        ensures
            r@ == self.spec_hand(),
    ;

    fn prev_tricks(&self) -> (r: &Vec<Trick>)
        requires
            self.spec_wf(),
        ensures
            r@ == self.spec_prev_tricks(),
    ;

    fn current_trick(&self) -> (r: &TrickInProgress)
        requires
            self.spec_wf(),
        ensures
            r.leader as int == self.spec_trick_leader(),
            r.cards@ == self.spec_trick_cards(),
    ;

    fn pass_direction(&self) -> (r: u32)
        requires
            self.spec_wf(),
        ensures
            r == self.spec_pass_direction(),
    ;

    fn passed_cards(&self) -> (r: &Vec<Card>)
        requires
            self.spec_wf(),
        ensures
            r@ == self.spec_passed_cards(),
    ;

    fn received_cards(&self) -> (r: &Vec<Card>)
        requires
            self.spec_wf(),
        ensures
            r@ == self.spec_received_cards(),
    ;

    fn current_player_index(&self) -> (r: usize)
        requires
            self.spec_wf(),
        ensures
            r as int == (self.spec_trick_leader() + self.spec_trick_cards().len())
                % (self.spec_rules().num_players as int),
    ;

    fn legal_plays(&self) -> (r: Vec<Card>)
        requires
            self.spec_wf(),
        ensures
            r@ == spec_legal_plays(self.spec_hand(), self.spec_trick_cards(),
                self.spec_prev_tricks(), self.spec_rules()),
    ;
}

/// What a sound request guarantees about its pieces.
pub open spec fn req_conditions<R: ChooseCardToPlayRequest + ?Sized>(r: &R) -> bool {
    &&& r.spec_hand().no_duplicates()
    &&& 2 <= r.spec_rules().num_players <= 52
    &&& r.spec_scores().len() == r.spec_rules().num_players
    &&& 0 <= r.spec_trick_leader() < r.spec_rules().num_players
    &&& r.spec_trick_cards().len() < r.spec_rules().num_players
    &&& r.spec_prev_tricks().len() <= 13
    &&& (r.spec_pass_direction() as int) < r.spec_rules().num_players
    &&& forall|k: int| 0 <= k < r.spec_prev_tricks().len()
        ==> (#[trigger] r.spec_prev_tricks()[k]).cards@.len() <= 52
}

/// What the Monte Carlo engine moreover needs of a request: a four-way
/// game whose hand sizes and trick records agree with how far the play
/// has come.
pub open spec fn req_mc_ok<R: ChooseCardToPlayRequest + ?Sized>(r: &R) -> bool {
    &&& r.spec_rules().num_players == 4
    &&& r.spec_hand().len() == 13 - r.spec_prev_tricks().len()
    &&& (r.spec_trick_cards().len() > 0 ==> r.spec_prev_tricks().len() < 13)
    &&& forall|k: int| 0 <= k < r.spec_prev_tricks().len()
        ==> (#[trigger] r.spec_prev_tricks()[k]).cards@.len() == 4
            && r.spec_prev_tricks()[k].winner < 4
}

/// The legal plays of a request.
pub open spec fn req_legal<R: ChooseCardToPlayRequest + ?Sized>(r: &R) -> Seq<Card> {
    spec_legal_plays(r.spec_hand(), r.spec_trick_cards(), r.spec_prev_tricks(), r.spec_rules())
}

/// The player about to play.
pub open spec fn req_current_player<R: ChooseCardToPlayRequest + ?Sized>(r: &R) -> int {
    (r.spec_trick_leader() + r.spec_trick_cards().len()) % (r.spec_rules().num_players as int)
}

/// A play decision's inputs held as plain values.
pub struct CardToPlayDirectRequest {
    pub rules: RuleSet,
    pub scores_before_round: Vec<i32>,
    pub hand: Vec<Card>,
    pub prev_tricks: Vec<Trick>,
    pub current_trick: TrickInProgress,
    pub pass_direction: u32,
    pub passed_cards: Vec<Card>,
    pub received_cards: Vec<Card>,
}

impl CardToPlayDirectRequest {
    /// Structural soundness of the plain request.
    pub open spec fn direct_wf(&self) -> bool {
        &&& self.hand@.no_duplicates()
        &&& 2 <= self.rules.num_players <= 52
        &&& self.scores_before_round@.len() == self.rules.num_players
        &&& 0 <= (self.current_trick.leader as int) < self.rules.num_players
        &&& self.current_trick.cards@.len() < self.rules.num_players
        &&& self.prev_tricks@.len() <= 13
        &&& (self.pass_direction as int) < self.rules.num_players
        &&& forall|k: int| 0 <= k < self.prev_tricks@.len()
            ==> (#[trigger] self.prev_tricks@[k]).cards@.len() <= 52
    }

    pub fn legal_plays(&self) -> (r: Vec<Card>)
        ensures
            r@ == spec_legal_plays(self.hand@, self.current_trick.cards@, self.prev_tricks@, self.rules),
    {
        legal_plays(&self.hand, &self.current_trick, &self.prev_tricks, &self.rules)
    }

    pub fn current_player_index(&self) -> (r: usize)
        requires
            self.direct_wf(),
        ensures
            r as int == (self.current_trick.leader + self.current_trick.cards@.len())
                % (self.rules.num_players as int),
    {
        (self.current_trick.leader + self.current_trick.cards.len()) % self.rules.num_players
    }
}

impl ChooseCardToPlayRequest for CardToPlayDirectRequest {
    open spec fn spec_rules(&self) -> RuleSet {
        self.rules
    }

    open spec fn spec_scores(&self) -> Seq<i32> {
        self.scores_before_round@
    }

    open spec fn spec_hand(&self) -> Seq<Card> {
        self.hand@
    }

    open spec fn spec_prev_tricks(&self) -> Seq<Trick> {
        self.prev_tricks@
    }

    open spec fn spec_trick_leader(&self) -> int {
        self.current_trick.leader as int
    }

    open spec fn spec_trick_cards(&self) -> Seq<Card> {
        self.current_trick.cards@
    }

    open spec fn spec_pass_direction(&self) -> u32 {
        self.pass_direction
    }

    open spec fn spec_passed_cards(&self) -> Seq<Card> {
        self.passed_cards@
    }

    open spec fn spec_received_cards(&self) -> Seq<Card> {
        self.received_cards@
    }

    open spec fn spec_wf(&self) -> bool {
        self.direct_wf()
    }

    proof fn wf_ok(&self) {
    }

    fn rules(&self) -> (r: &RuleSet) {
        &self.rules
    }

    fn scores_before_round(&self) -> (r: &Vec<i32>) {
        &self.scores_before_round
    }

    fn hand(&self) -> (r: &Vec<Card>) {
        &self.hand
    }

    fn prev_tricks(&self) -> (r: &Vec<Trick>) {
        &self.prev_tricks
    }

    fn current_trick(&self) -> (r: &TrickInProgress) {
        &self.current_trick
    }

    fn pass_direction(&self) -> (r: u32) {
        self.pass_direction
    }

    fn passed_cards(&self) -> (r: &Vec<Card>) {
        &self.passed_cards
    }

    fn received_cards(&self) -> (r: &Vec<Card>) {
        &self.received_cards
    }

    fn current_player_index(&self) -> (r: usize) {
        self.current_player_index()
    }

    fn legal_plays(&self) -> (r: Vec<Card>) {
        self.legal_plays()
    }
}

impl ChooseCardToPlayRequest for Round {
    open spec fn spec_rules(&self) -> RuleSet {
        self.rules
    }

    open spec fn spec_scores(&self) -> Seq<i32> {
        self.initial_scores@
    }

    open spec fn spec_hand(&self) -> Seq<Card> {
        self.players@[self.spec_current_player_index()].hand@
    }

    open spec fn spec_prev_tricks(&self) -> Seq<Trick> {
        self.prev_tricks@
    }

    open spec fn spec_trick_leader(&self) -> int {
        self.current_trick.leader as int
    }

    open spec fn spec_trick_cards(&self) -> Seq<Card> {
        self.current_trick.cards@
    }

    open spec fn spec_pass_direction(&self) -> u32 {
        self.pass_direction
    }

    open spec fn spec_passed_cards(&self) -> Seq<Card> {
        self.players@[self.spec_current_player_index()].passed_cards@
    }

    open spec fn spec_received_cards(&self) -> Seq<Card> {
        self.players@[self.spec_current_player_index()].received_cards@
    }

    open spec fn spec_wf(&self) -> bool {
        self.wf() && self.prev_tricks@.len() <= 13
    }

    proof fn wf_ok(&self) {
        crate::hearts::lemma_seat_roundtrip(
            self.current_trick.leader as int,
            self.current_trick.cards@.len() as int,
            self.spec_n(),
        );
    }

    fn rules(&self) -> (r: &RuleSet) {
        &self.rules
    }

    fn scores_before_round(&self) -> (r: &Vec<i32>) {
        &self.initial_scores
    }

    fn hand(&self) -> (r: &Vec<Card>) {
        &self.players[self.current_player_index()].hand
    }

    fn prev_tricks(&self) -> (r: &Vec<Trick>) {
        &self.prev_tricks
    }

    fn current_trick(&self) -> (r: &TrickInProgress) {
        &self.current_trick
    }

    fn pass_direction(&self) -> (r: u32) {
        self.pass_direction
    }

    fn passed_cards(&self) -> (r: &Vec<Card>) {
        &self.players[self.current_player_index()].passed_cards
    }

    fn received_cards(&self) -> (r: &Vec<Card>) {
        &self.players[self.current_player_index()].received_cards
    }

    fn current_player_index(&self) -> (r: usize) {
        self.current_player_index()
    }

    fn legal_plays(&self) -> (r: Vec<Card>) {
        self.legal_plays()
    }
}

/// Plays a uniformly random legal card.
pub fn choose_card_random<R: ChooseCardToPlayRequest>(req: &R, rng: &mut rand::rngs::StdRng) -> (r: Card)
    requires
        req.spec_wf(),
        req_legal(req).len() > 0,
    ensures
        req_legal(req).contains(r),
{
    let legal = req.legal_plays();
    let c = *crate::randsrc::random_from_set(&legal, rng);
    proof {
        let i = choose|i: int| 0 <= i < legal@.len() && legal@[i] == c;
        assert(req_legal(req).contains(c));
    }
    c
}

/// The name of a pass direction at a four-player table.
pub fn pass_direction_string(dir: u32) -> (r: String)
    requires
        1 <= dir <= 3,
    ensures
        dir == 1 ==> r@ == "left"@,
        dir == 2 ==> r@ == "across"@,
        dir == 3 ==> r@ == "right"@,
{
    let s = if dir == 1 {
        "left"
    } else if dir == 2 {
        "across"
    } else {
        "right"
    };
    s.to_owned()
}

/// Victory points for a finished match: twelve split evenly among the
/// players tied for the lowest score, nothing for the rest.
pub fn get_victory_points(scores: &Vec<i32>) -> (r: Vec<u64>)
    requires
        1 <= scores@.len(),
    ensures
        r@.len() == scores@.len(),
        forall|p: int| 0 <= p < scores@.len() ==> #[trigger] r@[p] as int
            == if scores@[p] == spec_min_score(scores@) {
                12int / spec_count_min(scores@, spec_min_score(scores@))
            } else {
                0int
            },
{
    proof {
        lemma_min_score_props(scores@);
    }
    let n = scores.len();
    let mut best: i32 = scores[0];
    proof {
        let t = scores@.take(1);
        assert(t.len() == 1);
        assert(t.drop_last() =~= Seq::<i32>::empty());
        assert(spec_min_score(t.drop_last()) == i32::MAX as int);
        assert(t.last() == scores@[0]);
        assert(spec_min_score(t) == scores@[0]);
    }
    let mut i: usize = 1;
    while i < n
        invariant
            n == scores@.len(),
            1 <= i <= n,
            best as int == spec_min_score(scores@.take(i as int)),
        decreases n - i,
    {
        proof {
            assert(scores@.take(i + 1).drop_last() =~= scores@.take(i as int));
            assert(scores@.take(i + 1).last() == scores@[i as int]);
        }
        if scores[i] < best {
            best = scores[i];
        }
        i = i + 1;
    }
    proof {
        assert(scores@.take(n as int) =~= scores@);
    }
    let mut num_winners: u64 = 0;
    proof {
        assert(scores@.take(0) =~= Seq::<i32>::empty());
    }
    let mut i: usize = 0;
    while i < n
        invariant
            n == scores@.len(),
            i <= n,
            best as int == spec_min_score(scores@),
            num_winners as int == spec_count_min(scores@.take(i as int), best as int),
            num_winners <= i,
        decreases n - i,
    {
        proof {
            assert(scores@.take(i + 1).drop_last() =~= scores@.take(i as int));
            assert(scores@.take(i + 1).last() == scores@[i as int]);
        }
        if scores[i] == best {
            num_winners = num_winners + 1;
        }
        i = i + 1;
    }
    proof {
        assert(scores@.take(n as int) =~= scores@);
        lemma_min_score_props(scores@);
    }
    let share = 12u64 / num_winners;
    let mut vp: Vec<u64> = Vec::new();
    let mut i: usize = 0;
    while i < n
        invariant
            n == scores@.len(),
            i <= n,
            vp@.len() == i,
            best as int == spec_min_score(scores@),
            share as int == 12int / spec_count_min(scores@, spec_min_score(scores@)),
            forall|p: int| 0 <= p < i ==> #[trigger] vp@[p] as int
                == if scores@[p] == spec_min_score(scores@) { share as int } else { 0int },
        decreases n - i,
    {
        if scores[i] == best {
            vp.push(share);
        } else {
            vp.push(0);
        }
        i = i + 1;
    }
    vp
}

/// The first position of a largest value.
pub fn max_index(vals: &Vec<u64>) -> (r: usize)
    requires
        vals@.len() >= 1,
    ensures
        r < vals@.len(),
        forall|j: int| 0 <= j < vals@.len() ==> vals@[j] <= vals@[r as int],
        forall|j: int| 0 <= j < r ==> vals@[j] < vals@[r as int],
{
    let mut best: usize = 0;
    let n = vals.len();
    let mut i: usize = 1;
    while i < n
        invariant
            n == vals@.len(),
            1 <= i <= n,
            best < i,
            forall|j: int| 0 <= j < i ==> vals@[j] <= vals@[best as int],
            forall|j: int| 0 <= j < best ==> vals@[j] < vals@[best as int],
        decreases n - i,
    {
        if vals[i] > vals[best] {
            best = i;
        }
        i = i + 1;
    }
    best
}

/// The strategies that drive a rollout directly, without recursing
/// into a search.
pub open spec fn spec_nonrecursive(s: CardToPlayStrategy) -> bool {
    match s {
        CardToPlayStrategy::Random => true,
        CardToPlayStrategy::AvoidPoints => true,
        CardToPlayStrategy::MixedRandomAvoidPoints(_) => true,
        _ => false,
    }
}

/// Every probability a strategy carries is a fraction with a positive
/// denominator.
pub open spec fn spec_strategy_valid(s: CardToPlayStrategy) -> bool {
    match s {
        CardToPlayStrategy::MixedRandomAvoidPoints(ch) => ch.den > 0,
        CardToPlayStrategy::MonteCarloMixedRandomAvoidPoints(ch, _) => ch.den > 0,
        _ => true,
    }
}

fn is_nonrecursive(strategy: &CardToPlayStrategy) -> (r: bool)
    ensures
        r == spec_nonrecursive(*strategy),
{
    match strategy {
        CardToPlayStrategy::Random => true,
        CardToPlayStrategy::AvoidPoints => true,
        CardToPlayStrategy::MixedRandomAvoidPoints(_) => true,
        _ => false,
    }
}

/// The highest play other than the excluded card, later cards winning
/// ties, if any other exists.
pub open spec fn spec_highest_excluding(plays: Seq<Card>, excl: Card) -> Option<Card>
    decreases plays.len(),
{
    if plays.len() == 0 {
        None
    } else {
        let prev = spec_highest_excluding(plays.drop_last(), excl);
        let c = plays.last();
        if c != excl && (prev is None || c.rank.value >= prev->Some_0.rank.value) {
            Some(c)
        } else {
            prev
        }
    }
}

/// The lowest play other than the excluded card, earlier cards winning
/// ties, if any other exists.
pub open spec fn spec_lowest_excluding(plays: Seq<Card>, excl: Card) -> Option<Card>
    decreases plays.len(),
{
    if plays.len() == 0 {
        None
    } else {
        let prev = spec_lowest_excluding(plays.drop_last(), excl);
        let c = plays.last();
        if c != excl && (prev is None || c.rank.value < prev->Some_0.rank.value) {
            Some(c)
        } else {
            prev
        }
    }
}

/// The highest play strictly below a rank, skipping the jack of
/// diamonds when asked to keep it back; later cards win ties.
pub open spec fn spec_highest_below(plays: Seq<Card>, limit: u32, skip_jd: bool) -> Option<Card>
    decreases plays.len(),
{
    if plays.len() == 0 {
        None
    } else {
        let prev = spec_highest_below(plays.drop_last(), limit, skip_jd);
        let c = plays.last();
        if c.rank.value < limit && !(skip_jd && c == spec_jack_of_diamonds())
            && (prev is None || c.rank.value >= prev->Some_0.rank.value) {
            Some(c)
        } else {
            prev
        }
    }
}

/// The highest play of the given suit, later cards winning ties, if any.
pub open spec fn spec_highest_of_suit(plays: Seq<Card>, s: Suit) -> Option<Card>
    decreases plays.len(),
{
    if plays.len() == 0 {
        None
    } else {
        let prev = spec_highest_of_suit(plays.drop_last(), s);
        let c = plays.last();
        if c.suit == s && (prev is None || c.rank.value >= prev->Some_0.rank.value) {
            Some(c)
        } else {
            prev
        }
    }
}

/// The highest play other than the excluded card, if any other exists.
fn highest_excluding(plays: &Vec<Card>, excl: &Card) -> (r: Option<Card>)
    ensures
        r == spec_highest_excluding(plays@, *excl),
        match r {
            Some(c) => plays@.contains(c) && c != *excl
                && forall|k: int| 0 <= k < plays@.len() && #[trigger] plays@[k] != *excl
                    ==> plays@[k].rank.value <= c.rank.value,
            None => forall|k: int| 0 <= k < plays@.len() ==> #[trigger] plays@[k] == *excl,
        },
{
    let n = plays.len();
    let mut best: Option<Card> = None;
    proof {
        assert(plays@.take(0) =~= Seq::<Card>::empty());
    }
    let mut i: usize = 0;
    while i < n
        invariant
            n == plays@.len(),
            i <= n,
            best == spec_highest_excluding(plays@.take(i as int), *excl),
            match best {
                Some(c) => plays@.contains(c) && c != *excl
                    && forall|k: int| 0 <= k < i && #[trigger] plays@[k] != *excl
                        ==> plays@[k].rank.value <= c.rank.value,
                None => forall|k: int| 0 <= k < i ==> #[trigger] plays@[k] == *excl,
            },
        decreases n - i,
    {
        proof {
            assert(plays@.take(i + 1).drop_last() =~= plays@.take(i as int));
            assert(plays@.take(i + 1).last() == plays@[i as int]);
        }
        let c = plays[i];
        if !(c.rank.value == excl.rank.value && c.suit == excl.suit) {
            match best {
                Some(b) => {
                    if c.rank.value >= b.rank.value {
                        best = Some(c);
                    }
                },
                None => {
                    best = Some(c);
                },
            }
        } else {
            proof {
                assert(plays@[i as int] == *excl);
            }
        }
        i = i + 1;
    }
    proof {
        assert(plays@.take(n as int) =~= plays@);
    }
    best
}

/// The lowest play other than the excluded card, if any other exists.
fn lowest_excluding(plays: &Vec<Card>, excl: &Card) -> (r: Option<Card>)
    ensures
        r == spec_lowest_excluding(plays@, *excl),
        match r {
            Some(c) => plays@.contains(c) && c != *excl
                && forall|k: int| 0 <= k < plays@.len() && #[trigger] plays@[k] != *excl
                    ==> plays@[k].rank.value >= c.rank.value,
            None => forall|k: int| 0 <= k < plays@.len() ==> #[trigger] plays@[k] == *excl,
        },
{
    let n = plays.len();
    let mut best: Option<Card> = None;
    proof {
        assert(plays@.take(0) =~= Seq::<Card>::empty());
    }
    let mut i: usize = 0;
    while i < n
        invariant
            n == plays@.len(),
            i <= n,
            best == spec_lowest_excluding(plays@.take(i as int), *excl),
            match best {
                Some(c) => plays@.contains(c) && c != *excl
                    && forall|k: int| 0 <= k < i && #[trigger] plays@[k] != *excl
                        ==> plays@[k].rank.value >= c.rank.value,
                None => forall|k: int| 0 <= k < i ==> #[trigger] plays@[k] == *excl,
            },
        decreases n - i,
    {
        proof {
            assert(plays@.take(i + 1).drop_last() =~= plays@.take(i as int));
            assert(plays@.take(i + 1).last() == plays@[i as int]);
        }
        let c = plays[i];
        if !(c.rank.value == excl.rank.value && c.suit == excl.suit) {
            match best {
                Some(b) => {
                    if c.rank.value < b.rank.value {
                        best = Some(c);
                    }
                },
                None => {
                    best = Some(c);
                },
            }
        } else {
            proof {
                assert(plays@[i as int] == *excl);
            }
        }
        i = i + 1;
    }
    proof {
        assert(plays@.take(n as int) =~= plays@);
    }
    best
}

/// The highest play strictly below a rank, skipping the jack of
/// diamonds when asked to keep it back.
fn highest_below(plays: &Vec<Card>, limit: u32, skip_jd: bool) -> (r: Option<Card>)
    ensures
        r == spec_highest_below(plays@, limit, skip_jd),
        match r {
            Some(c) => plays@.contains(c) && c.rank.value < limit
                && !(skip_jd && c == spec_jack_of_diamonds()),
            None => true,
        },
{
    let n = plays.len();
    let mut best: Option<Card> = None;
    proof {
        assert(plays@.take(0) =~= Seq::<Card>::empty());
    }
    let mut i: usize = 0;
    while i < n
        invariant
            n == plays@.len(),
            i <= n,
            best == spec_highest_below(plays@.take(i as int), limit, skip_jd),
            match best {
                Some(c) => plays@.contains(c) && c.rank.value < limit
                    && !(skip_jd && c == spec_jack_of_diamonds()),
                None => true,
            },
        decreases n - i,
    {
        proof {
            assert(plays@.take(i + 1).drop_last() =~= plays@.take(i as int));
            assert(plays@.take(i + 1).last() == plays@[i as int]);
        }
        let c = plays[i];
        let is_jd = c.rank.value == 11 && c.suit == Suit::Diamonds;
        if c.rank.value < limit && !(skip_jd && is_jd) {
            proof {
                assert(plays@.contains(plays@[i as int]));
            }
            match best {
                Some(b) => {
                    if c.rank.value >= b.rank.value {
                        best = Some(c);
                    }
                },
                None => {
                    best = Some(c);
                },
            }
        }
        i = i + 1;
    }
    proof {
        assert(plays@.take(n as int) =~= plays@);
    }
    best
}

/// The highest play of the given suit, if any.
fn highest_of_suit(plays: &Vec<Card>, s: Suit) -> (r: Option<Card>)
    ensures
        r == spec_highest_of_suit(plays@, s),
        match r {
            Some(c) => plays@.contains(c) && c.suit == s,
            None => true,
        },
{
    let n = plays.len();
    let mut best: Option<Card> = None;
    proof {
        assert(plays@.take(0) =~= Seq::<Card>::empty());
    }
    let mut i: usize = 0;
    while i < n
        invariant
            n == plays@.len(),
            i <= n,
            best == spec_highest_of_suit(plays@.take(i as int), s),
            match best {
                Some(c) => plays@.contains(c) && c.suit == s,
                None => true,
            },
        decreases n - i,
    {
        proof {
            assert(plays@.take(i + 1).drop_last() =~= plays@.take(i as int));
            assert(plays@.take(i + 1).last() == plays@[i as int]);
        }
        let c = plays[i];
        if c.suit == s {
            proof {
                assert(plays@.contains(plays@[i as int]));
            }
            match best {
                Some(b) => {
                    if c.rank.value >= b.rank.value {
                        best = Some(c);
                    }
                },
                None => {
                    best = Some(c);
                },
            }
        }
        i = i + 1;
    }
    proof {
        assert(plays@.take(n as int) =~= plays@);
    }
    best
}

/// Whether `suits` lists exactly the suits that occur among the plays.
pub open spec fn suits_cover(suits: Seq<Suit>, plays: Seq<Card>) -> bool {
    &&& forall|k: int| 0 <= k < suits.len()
        ==> exists|l: int| 0 <= l < plays.len() && (#[trigger] plays[l]).suit == #[trigger] suits[k]
    &&& forall|l: int| 0 <= l < plays.len() ==> suits.contains((#[trigger] plays[l]).suit)
}

/// The distinct suits among the plays.
fn collect_suits(plays: &Vec<Card>) -> (r: Vec<Suit>)
    ensures
        suits_cover(r@, plays@),
        plays@.len() > 0 ==> r@.len() > 0,
{
    let n = plays.len();
    let mut suits: Vec<Suit> = Vec::new();
    let mut i: usize = 0;
    while i < n
        invariant
            n == plays@.len(),
            i <= n,
            forall|k: int| 0 <= k < suits@.len()
                ==> exists|l: int| 0 <= l < plays@.len() && (#[trigger] plays@[l]).suit == #[trigger] suits@[k],
            forall|l: int| 0 <= l < i ==> suits@.contains((#[trigger] plays@[l]).suit),
            i > 0 ==> suits@.len() > 0,
        ensures
            i == n,
            suits_cover(suits@, plays@),
            n > 0 ==> suits@.len() > 0,
        decreases n - i,
    {
        let s = plays[i].suit;
        let mut found = false;
        let m = suits.len();
        let mut j: usize = 0;
        while j < m
            invariant_except_break
                !found,
            invariant
                m == suits@.len(),
                j <= m,
                s == plays@[i as int].suit,
                found ==> suits@.contains(s),
                !found ==> forall|k: int| 0 <= k < j ==> suits@[k] != s,
            ensures
                found <==> suits@.contains(s),
            decreases m - j,
        {
            if suits[j] == s {
                proof {
                    assert(suits@[j as int] == s);
                }
                found = true;
                break;
            }
            j = j + 1;
        }
        if !found {
            let ghost old_suits = suits@;
            suits.push(s);
            proof {
                assert(suits@[old_suits.len() as int] == s);
                assert(suits@.contains(s));
                assert forall|k: int| 0 <= k < suits@.len()
                    implies exists|l: int| 0 <= l < plays@.len()
                        && (#[trigger] plays@[l]).suit == #[trigger] suits@[k] by {
                    if k < old_suits.len() {
                        assert(old_suits[k] == suits@[k]);
                        let l = choose|l: int| 0 <= l < plays@.len()
                            && (#[trigger] plays@[l]).suit == old_suits[k];
                        assert(plays@[l].suit == suits@[k]);
                    } else {
                        assert(plays@[i as int].suit == suits@[k]);
                    }
                }
                assert forall|l: int| 0 <= l < i + 1
                    implies suits@.contains((#[trigger] plays@[l]).suit) by {
                    if l < i {
                        let k = choose|k: int| 0 <= k < old_suits.len()
                            && old_suits[k] == plays@[l].suit;
                        assert(suits@[k] == plays@[l].suit);
                    }
                }
            }
        }
        i = i + 1;
    }
    suits
}

/// Whether any play is of the given suit.
fn any_of_suit(plays: &Vec<Card>, s: Suit) -> (r: bool)
    ensures
        r == exists|k: int| 0 <= k < plays@.len() && (#[trigger] plays@[k]).suit == s,
{
    let n = plays.len();
    let mut i: usize = 0;
    while i < n
        invariant
            n == plays@.len(),
            i <= n,
            forall|k: int| 0 <= k < i ==> (#[trigger] plays@[k]).suit != s,
        decreases n - i,
    {
        if plays[i].suit == s {
            proof {
                assert(plays@[i as int].suit == s);
            }
            return true;
        }
        i = i + 1;
    }
    false
}

/// A selection, or the first legal play where none qualified.
pub open spec fn spec_or_first(sel: Option<Card>, legal: Seq<Card>) -> Option<Card> {
    match sel {
        Some(c) => Some(c),
        None => Some(legal[0]),
    }
}

/// The play the point-avoiding policy is bound to make. Every stage is
/// deterministic except the lead of a fresh trick with a choice of
/// plays, whose suit is drawn at random: there the policy is only bound
/// to the legal plays, and this function says so with `None`.
pub open spec fn spec_avoid_points_choice(hand: Seq<Card>, trick_cards: Seq<Card>, prev: Seq<Trick>, rules: RuleSet) -> Option<Card> {
    let legal = spec_legal_plays(hand, trick_cards, prev, rules);
    let qs = spec_queen_of_spades();
    let jd = spec_jack_of_diamonds();
    if legal.len() == 1 {
        Some(legal[0])
    } else if trick_cards.len() == 0 {
        None
    } else {
        let trick_suit = trick_cards[0].suit;
        let is_following = exists|k: int| 0 <= k < legal.len()
            && (#[trigger] legal[k]).suit == trick_suit;
        let has_qs = legal.contains(qs);
        let has_jd = rules.jd_minus_10 && legal.contains(jd);
        if is_following {
            if prev.len() == 0 && !rules.points_on_first_trick {
                // play high on the first trick while points cannot drop
                spec_or_first(spec_highest_excluding(legal, qs), legal)
            } else {
                let high = trick_cards[spec_trick_winner_index(trick_cards)];
                if has_qs && high.rank.value > 12 {
                    // dump the queen under a higher card
                    Some(qs)
                } else if trick_cards.len() == rules.num_players - 1 {
                    let trick_points = spec_points_for_cards(trick_cards, rules.jd_minus_10);
                    if has_jd && trick_points < 10 && high.rank.value < 11 {
                        // win a cheap trick with the jack of diamonds
                        Some(jd)
                    } else if trick_points <= 0 {
                        // win a clean trick as high as possible
                        spec_or_first(spec_highest_excluding(legal, qs), legal)
                    } else {
                        // duck if possible, else give up the trick high
                        match spec_highest_below(legal, high.rank.value, has_jd) {
                            Some(c) => Some(c),
                            None => spec_or_first(spec_highest_excluding(legal, qs), legal),
                        }
                    }
                } else {
                    // play just under the winner if possible, else lowest
                    match spec_highest_below(legal, high.rank.value, has_jd) {
                        Some(c) => Some(c),
                        None => spec_or_first(spec_lowest_excluding(legal, qs), legal),
                    }
                }
            }
        } else {
            // discarding: the queen first, then a high heart, then the
            // highest card that is not a kept jack of diamonds
            if has_qs {
                Some(qs)
            } else {
                match spec_highest_of_suit(legal, Suit::Hearts) {
                    Some(c) => Some(c),
                    None => spec_or_first(spec_highest_below(legal, 15, has_jd), legal),
                }
            }
        }
    }
}

/// The staged point-avoiding policy: lead low in a random suit, follow
/// just under the current winner, dump the queen of spades or a high
/// heart when discarding, and take clean tricks high. Wherever the
/// stage is deterministic, the choice is pinned exactly.
pub fn choose_card_avoid_points<R: ChooseCardToPlayRequest>(req: &R, rng: &mut rand::rngs::StdRng) -> (r: Card)
    requires
        req.spec_wf(),
        req_legal(req).len() > 0,
    ensures
        req_legal(req).contains(r),
        spec_avoid_points_choice(req.spec_hand(), req.spec_trick_cards(),
            req.spec_prev_tricks(), req.spec_rules()) matches Some(c) ==> r == c,
{
    proof {
        req.wf_ok();
        crate::hearts::lemma_legal_plays_no_dup(
            req.spec_hand(), req.spec_trick_cards(), req.spec_prev_tricks(), req.spec_rules());
    }
    let legal_plays = req.legal_plays();
    if legal_plays.len() == 1 {
        proof {
            assert(req_legal(req).contains(req_legal(req)[0]));
        }
        return legal_plays[0];
    }
    let trick = req.current_trick();
    if trick.cards.len() == 0 {
        // leading: the lowest card of a random legal suit
        let legal_suits = collect_suits(&legal_plays);
        let suit = *crate::randsrc::random_from_set(&legal_suits, rng);
        proof {
            broadcast use vstd::seq_lib::group_to_multiset_ensures;
            let k = choose|k: int| 0 <= k < legal_suits@.len() && legal_suits@[k] == suit;
            let l = choose|l: int| 0 <= l < legal_plays@.len()
                && (#[trigger] legal_plays@[l]).suit == suit;
            let pred = |c: Card| c.suit == suit;
            legal_plays@.lemma_filter_contains(pred, l);
            vstd::seq_lib::lemma_multiset_commutative(legal_plays@.filter(pred), legal_plays@.filter(pred));
            assert(crate::hearts::spec_filter_suit(legal_plays@, suit).len() > 0) by {
                assert(legal_plays@.filter(pred).contains(legal_plays@[l]));
            }
            assert(crate::card::spec_suit_ranks(legal_plays@, suit).len() > 0);
        }
        let ranks = ranks_for_suit(&legal_plays, suit);
        proof {
            broadcast use vstd::seq_lib::group_to_multiset_ensures;
            assert(ranks@.to_multiset().len() == crate::card::spec_suit_ranks(legal_plays@, suit).to_multiset().len());
            assert(ranks@.len() > 0);
        }
        let lowest_rank = ranks[ranks.len() - 1];
        let c = Card { rank: lowest_rank, suit };
        proof {
            broadcast use vstd::seq_lib::group_to_multiset_ensures;
            let pred = |x: Card| x.suit == suit;
            assert(ranks@.contains(lowest_rank));
            assert(ranks@.to_multiset().contains(lowest_rank));
            let vals = crate::card::spec_suit_ranks(legal_plays@, suit);
            assert(vals.to_multiset().contains(lowest_rank));
            assert(vals.contains(lowest_rank));
            let j = choose|j: int| 0 <= j < vals.len() && vals[j] == lowest_rank;
            let filtered = legal_plays@.filter(pred);
            assert(filtered[j].rank == lowest_rank);
            legal_plays@.lemma_filter_pred(pred, j);
            assert(filtered[j].suit == suit);
            assert(filtered[j] == c);
            assert(filtered.contains(c));
            legal_plays@.lemma_filter_contains_rev(pred, c);
            assert(req_legal(req).contains(c));
        }
        return c;
    }
    let trick_suit = trick.cards[0].suit;
    let is_following = any_of_suit(&legal_plays, trick_suit);
    let qs = queen_of_spades();
    let jd_card = jack_of_diamonds();
    let has_qs = contains_card(&legal_plays, &qs);
    let has_jd = req.rules().jd_minus_10 && contains_card(&legal_plays, &jd_card);
    proof {
        // two distinct legal plays cannot both be one particular card
        assert(legal_plays@[0] != legal_plays@[1]);
    }
    if is_following {
        // play high on the first trick while points cannot drop
        if req.prev_tricks().len() == 0 && !req.rules().points_on_first_trick {
            match highest_excluding(&legal_plays, &qs) {
                Some(c) => {
                    return c;
                },
                None => {
                    // two distinct legal plays cannot both be the queen
                    proof {
                        assert(false);
                    }
                    return legal_plays[0];
                },
            }
        }
        let high_card = *crate::hearts::highest_in_trick(&trick.cards);
        // dump the queen under a higher card
        if has_qs && high_card.rank.value > 12 {
            return qs;
        }
        let is_last_play = trick.cards.len() == req.rules().num_players - 1;
        if is_last_play {
            let trick_points = points_for_cards(&trick.cards, req.rules());
            // win a cheap trick with the jack of diamonds
            if has_jd && trick_points < 10 && high_card.rank.value < 11 {
                return jd_card;
            }
            // win a clean trick as high as possible
            if trick_points <= 0 {
                match highest_excluding(&legal_plays, &qs) {
                    Some(c) => {
                        return c;
                    },
                    None => {
                        // two distinct legal plays cannot both be the queen
                        proof {
                            assert(false);
                        }
                        return legal_plays[0];
                    },
                }
            }
            // otherwise duck if possible, else give up the trick high
            match highest_below(&legal_plays, high_card.rank.value, has_jd) {
                Some(c) => c,
                None => match highest_excluding(&legal_plays, &qs) {
                    Some(c) => c,
                    None => {
                        // two distinct legal plays cannot both be the queen
                        proof {
                            assert(false);
                        }
                        legal_plays[0]
                    },
                },
            }
        } else {
            // play just under the winner if possible, else lowest
            match highest_below(&legal_plays, high_card.rank.value, has_jd) {
                Some(c) => c,
                None => match lowest_excluding(&legal_plays, &qs) {
                    Some(c) => c,
                    None => {
                        // two distinct legal plays cannot both be the queen
                        proof {
                            assert(false);
                        }
                        legal_plays[0]
                    },
                },
            }
        }
    } else {
        // discarding: the queen first, then a high heart, then the
        // highest card that is not a kept jack of diamonds
        if has_qs {
            return qs;
        }
        match highest_of_suit(&legal_plays, Suit::Hearts) {
            Some(c) => {
                return c;
            },
            None => {},
        }
        match highest_below(&legal_plays, 15, has_jd) {
            Some(c) => c,
            None => {
                proof {
                    assert(req_legal(req).contains(req_legal(req)[0]));
                }
                legal_plays[0]
            },
        }
    }
}

/// An exact duplicate of a score vector.
fn clone_scores(v: &Vec<i32>) -> (r: Vec<i32>)
    ensures
        r@ == v@,
{
    let r = v.clone();
    proof {
        assert forall|i: int| 0 <= i < v@.len() implies r@[i] == v@[i] by {
            assert(cloned::<i32>(v@[i], r@[i]));
        }
        assert(r@ =~= v@);
    }
    r
}

/// A duplicate of a trick record, field for field.
fn clone_tricks(ts: &Vec<Trick>) -> (r: Vec<Trick>)
    ensures
        r@.len() == ts@.len(),
        forall|k: int| 0 <= k < ts@.len() ==> (#[trigger] r@[k]).leader == ts@[k].leader
            && r@[k].winner == ts@[k].winner
            && r@[k].cards@ == ts@[k].cards@,
{
    let n = ts.len();
    let mut out: Vec<Trick> = Vec::new();
    let mut i: usize = 0;
    while i < n
        invariant
            n == ts@.len(),
            i <= n,
            out@.len() == i,
            forall|k: int| 0 <= k < i ==> (#[trigger] out@[k]).leader == ts@[k].leader
                && out@[k].winner == ts@[k].winner
                && out@[k].cards@ == ts@[k].cards@,
        decreases n - i,
    {
        let t = Trick {
            leader: ts[i].leader,
            cards: clone_cards(&ts[i].cards),
            winner: ts[i].winner,
        };
        out.push(t);
        i = i + 1;
    }
    out
}

/// A duplicate of the seats, field for field.
fn clone_players(ps: &Vec<Player>) -> (r: Vec<Player>)
    ensures
        r@.len() == ps@.len(),
        forall|p: int| 0 <= p < ps@.len() ==> (#[trigger] r@[p]).hand@ == ps@[p].hand@
            && r@[p].passed_cards@ == ps@[p].passed_cards@
            && r@[p].received_cards@ == ps@[p].received_cards@,
{
    let n = ps.len();
    let mut out: Vec<Player> = Vec::new();
    let mut i: usize = 0;
    while i < n
        invariant
            n == ps@.len(),
            i <= n,
            out@.len() == i,
            forall|p: int| 0 <= p < i ==> (#[trigger] out@[p]).hand@ == ps@[p].hand@
                && out@[p].passed_cards@ == ps@[p].passed_cards@
                && out@[p].received_cards@ == ps@[p].received_cards@,
        decreases n - i,
    {
        let p = Player {
            hand: clone_cards(&ps[i].hand),
            passed_cards: clone_cards(&ps[i].passed_cards),
            received_cards: clone_cards(&ps[i].received_cards),
        };
        out.push(p);
        i = i + 1;
    }
    out
}

/// A deep copy of a round, on which hypothetical play can proceed
/// without touching the original.
fn clone_round(r: &Round) -> (c: Round)
    ensures
        crate::hearts::spec_rules_eq(c.rules, r.rules),
        c.players@.len() == r.players@.len(),
        forall|p: int| 0 <= p < r.players@.len() ==> (#[trigger] c.players@[p]).hand@ == r.players@[p].hand@
            && c.players@[p].passed_cards@ == r.players@[p].passed_cards@
            && c.players@[p].received_cards@ == r.players@[p].received_cards@,
        c.initial_scores@ == r.initial_scores@,
        c.pass_direction == r.pass_direction,
        c.num_passed_cards == r.num_passed_cards,
        c.status == r.status,
        c.current_trick.leader == r.current_trick.leader,
        c.current_trick.cards@ == r.current_trick.cards@,
        c.prev_tricks@.len() == r.prev_tricks@.len(),
        forall|k: int| 0 <= k < r.prev_tricks@.len() ==> (#[trigger] c.prev_tricks@[k]).leader == r.prev_tricks@[k].leader
            && c.prev_tricks@[k].winner == r.prev_tricks@[k].winner
            && c.prev_tricks@[k].cards@ == r.prev_tricks@[k].cards@,
        r.wf() ==> c.wf(),
        r.wf() && r.balanced() ==> c.balanced(),
        r.wf() && r.opening_ok() ==> c.opening_ok(),
        spec_hands_total(c.players@) == spec_hands_total(r.players@),
{
    let c = Round {
        rules: r.rules.clone(),
        players: clone_players(&r.players),
        initial_scores: clone_scores(&r.initial_scores),
        pass_direction: r.pass_direction,
        num_passed_cards: r.num_passed_cards,
        status: r.status,
        current_trick: TrickInProgress {
            leader: r.current_trick.leader,
            cards: clone_cards(&r.current_trick.cards),
        },
        prev_tricks: clone_tricks(&r.prev_tricks),
    };
    proof {
        lemma_hands_total_pointwise(c.players@, r.players@);
        if r.wf() {
            assert(c.wf());
        }
        if r.wf() && r.balanced() {
            assert(c.spec_current_player_index() == r.spec_current_player_index());
            assert forall|p: int| 0 <= p < 4 implies (#[trigger] c.players@[p]).hand@.len()
                == 13 - c.prev_tricks@.len()
                    - (if c.spec_played_in_current(p) { 1int } else { 0int }) by {
                assert(c.spec_played_in_current(p) == r.spec_played_in_current(p));
                assert(c.players@[p].hand@ == r.players@[p].hand@);
                assert(r.players@[p].hand@.len()
                    == 13 - r.prev_tricks@.len()
                        - (if r.spec_played_in_current(p) { 1int } else { 0int }));
            }
        }
        if r.wf() && r.opening_ok() {
            assert(c.spec_current_player_index() == r.spec_current_player_index());
            vstd::arithmetic::div_mod::lemma_mod_bound(
                r.current_trick.leader + r.current_trick.cards@.len(), r.spec_n());
        }
    }
    c
}

/// Seats with the same hand sizes hold the same number of cards.
proof fn lemma_hands_total_pointwise(a: Seq<Player>, b: Seq<Player>)
    requires
        a.len() == b.len(),
        forall|p: int| 0 <= p < b.len() ==> (#[trigger] a[p]).hand@.len() == b[p].hand@.len(),
    ensures
        spec_hands_total(a) == spec_hands_total(b),
    decreases a.len(),
{
    if a.len() > 0 {
        assert(a.last() == a[a.len() - 1]);
        assert(b.last() == b[b.len() - 1]);
        lemma_hands_total_pointwise(a.drop_last(), b.drop_last());
    }
}

/// Chooses by one of the direct policies.
fn choose_card_nonrecursive<R: ChooseCardToPlayRequest>(
    req: &R,
    strategy: &CardToPlayStrategy,
    rng: &mut rand::rngs::StdRng,
) -> (r: Card)
    requires
        req.spec_wf(),
        req_legal(req).len() > 0,
        spec_nonrecursive(*strategy),
        spec_strategy_valid(*strategy),
    ensures
        req_legal(req).contains(r),
{
    match strategy {
        CardToPlayStrategy::Random => choose_card_random(req, rng),
        CardToPlayStrategy::AvoidPoints => choose_card_avoid_points(req, rng),
        CardToPlayStrategy::MixedRandomAvoidPoints(chance) => {
            let coin = crate::randsrc::rng_below(rng, chance.den as u64);
            if coin < chance.num as u64 {
                choose_card_random(req, rng)
            } else {
                choose_card_avoid_points(req, rng)
            }
        },
        _ => {
            // ruled out by the caller: only direct policies reach here
            proof {
                assert(false);
            }
            choose_card_random(req, rng)
        },
    }
}

/// The rollout driver's own chooser, on a live round.
fn get_card_to_play(round: &Round, strategy: &CardToPlayStrategy, rng: &mut rand::rngs::StdRng) -> (r: Card)
    requires
        round.spec_wf(),
        req_legal(round).len() > 0,
        spec_nonrecursive(*strategy),
        spec_strategy_valid(*strategy),
    ensures
        req_legal(round).contains(r),
{
    choose_card_nonrecursive(round, strategy, rng)
}

/// Plays the round out to its end, every turn decided by the given
/// direct policy.
pub fn do_rollout(round: &mut Round, strategy: &CardToPlayStrategy, rng: &mut rand::rngs::StdRng)
    requires
        old(round).wf(),
        old(round).balanced(),
        old(round).opening_ok(),
        spec_nonrecursive(*strategy),
        spec_strategy_valid(*strategy),
    ensures
        final(round).spec_is_over(),
        final(round).wf(),
        final(round).balanced(),
{
    loop
        invariant
            round.wf(),
            round.balanced(),
            round.opening_ok(),
            spec_nonrecursive(*strategy),
            spec_strategy_valid(*strategy),
        ensures
            round.spec_is_over(),
            round.wf(),
            round.balanced(),
        decreases spec_hands_total(round.players@),
    {
        proof {
            crate::hearts::lemma_hands_total_lower(round.players@, 0);
        }
        if round.is_over() {
            break;
        }
        proof {
            // somebody still holds cards, so the player to move does too
            let p = choose|p: int| 0 <= p < round.players@.len()
                && (#[trigger] round.players@[p]).hand@.len() != 0;
            let cpi = round.spec_current_player_index();
            crate::hearts::lemma_seat_roundtrip(
                round.current_trick.leader as int,
                round.current_trick.cards@.len() as int,
                round.spec_n(),
            );
            assert(!round.spec_played_in_current(cpi));
            assert(round.players@[cpi].hand@.len() >= round.players@[p].hand@.len());
            crate::hearts::lemma_legal_plays_nonempty(
                round.spec_hand(), round.spec_trick_cards(), round.spec_prev_tricks(), round.spec_rules());
        }
        let card_to_play = get_card_to_play(round, strategy, rng);
        proof {
            crate::hearts::lemma_legal_plays_subset(
                round.spec_hand(), round.spec_trick_cards(), round.spec_prev_tricks(), round.spec_rules());
        }
        let res = round.play_card(&card_to_play);
        proof {
            assert(res is Ok);
            crate::hearts::lemma_hands_total_lower(round.players@, 0);
        }
    }
}

/// One step of saturating accumulation.
fn saturating_add_u64(a: u64, b: u64) -> (r: u64)
    ensures
        r as int <= a + b,
{
    if a <= u64::MAX - b {
        a + b
    } else {
        u64::MAX
    }
}

/// A sum of scores that stays in range by clamping at the ends.
fn add_clamped(a: i32, b: i32) -> i32 {
    let s = (a as i64) + (b as i64);
    if s > (i32::MAX as i64) {
        i32::MAX
    } else if s < (i32::MIN as i64) {
        i32::MIN
    } else {
        s as i32
    }
}

/// An equity as a whole number of millionths.
fn equity_scaled(e: Equity) -> (r: u64)
    requires
        e.den > 0,
        e.num <= 0x1_8000_0000,
{
    let q = (e.num * 1000000) / e.den;
    proof {
        vstd::arithmetic::div_mod::lemma_fundamental_div_mod((e.num * 1000000) as int, e.den as int);
        vstd::arithmetic::div_mod::lemma_mod_bound((e.num * 1000000) as int, e.den as int);
        assert(e.den as int * (q as int) <= (e.num * 1000000) as int);
        assert(q as int <= (e.num * 1000000) as int) by (nonlinear_arith)
            requires
                e.den >= 1,
                e.den as int * (q as int) <= (e.num * 1000000) as int,
                q >= 0,
        ;
    }
    q as u64
}

/// Chooses the legal play with the best expected match equity over
/// sampled hypothetical deals, each candidate tried through full
/// rollouts of the round. Whatever the samples say, the chosen card is
/// one of the legal plays.
pub fn choose_card_monte_carlo<R: ChooseCardToPlayRequest>(
    req: &R,
    mc_params: MonteCarloParams,
    rollout_strategy: &CardToPlayStrategy,
    rng: &mut rand::rngs::StdRng,
) -> (r: Card)
    requires
        req.spec_wf(),
        req_mc_ok(req),
        req_legal(req).len() > 0,
        spec_nonrecursive(*rollout_strategy),
        spec_strategy_valid(*rollout_strategy),
    ensures
        req_legal(req).contains(r),
{
    proof {
        req.wf_ok();
        crate::hearts::lemma_legal_plays_subset(
            req.spec_hand(), req.spec_trick_cards(), req.spec_prev_tricks(), req.spec_rules());
    }
    let legal_plays = req.legal_plays();
    if legal_plays.len() == 1 {
        proof {
            assert(req_legal(req).contains(req_legal(req)[0]));
        }
        return legal_plays[0];
    }
    let pnum = req.current_player_index();
    proof {
        vstd::arithmetic::div_mod::lemma_mod_bound(
            req.spec_trick_leader() + req.spec_trick_cards().len(),
            req.spec_rules().num_players as int,
        );
    }
    let nplays = legal_plays.len();
    let mut equity_per_play: Vec<u64> = Vec::new();
    let mut i: usize = 0;
    while i < nplays
        invariant
            i <= nplays,
            equity_per_play@.len() == i,
        decreases nplays - i,
    {
        equity_per_play.push(0);
        i = i + 1;
    }
    let dist_req = make_card_distribution_req(req);
    let mut s: i32 = 0;
    while s < mc_params.num_hands
        invariant
            req.spec_wf(),
            req_mc_ok(req),
            req_legal(req).len() > 1,
            spec_nonrecursive(*rollout_strategy),
            spec_strategy_valid(*rollout_strategy),
            legal_plays@ == req_legal(req),
            nplays == legal_plays@.len(),
            equity_per_play@.len() == nplays,
            pnum as int == req_current_player(req),
            0 <= pnum < 4,
            dist_req.cards@.no_duplicates(),
            dist_req.constraints@.len() == 4,
            forall|c: Card| dist_req.cards@.contains(c) ==> !req.spec_hand().contains(c),
            forall|k: int| 0 <= k < 4 ==> (#[trigger] dist_req.constraints@[k]).num_cards as int
                == (if k == req_current_player(req) { 0int } else {
                    13 - req.spec_prev_tricks().len()
                        - (if crate::hearts::spec_seat_pos(k, req.spec_trick_leader(), 4)
                            < req.spec_trick_cards().len() { 1int } else { 0int })
                }),
        decreases mc_params.num_hands - s,
    {
        proof {
            req.wf_ok();
        }
        let maybe_hypo_round = possible_round(req, &dist_req, rng);
        match maybe_hypo_round {
            None => {
                // sampling failed: fall back to the fast heuristic
                return choose_card_avoid_points(req, rng);
            },
            Some(hypo_round) => {
                let mut ci: usize = 0;
                while ci < nplays
                    invariant
                        req.spec_wf(),
                        req_mc_ok(req),
                        req_legal(req).len() > 1,
                        spec_nonrecursive(*rollout_strategy),
                        spec_strategy_valid(*rollout_strategy),
                        legal_plays@ == req_legal(req),
                        nplays == legal_plays@.len(),
                        equity_per_play@.len() == nplays,
                        ci <= nplays,
                        0 <= pnum < 4,
                        hypo_round.wf(),
                        hypo_round.balanced(),
                        hypo_round.opening_ok(),
                        hypo_round.rules.num_players == 4,
                        hypo_round.status == RoundStatus::Playing,
                        hypo_round.players@[hypo_round.spec_current_player_index()].hand@
                            == req.spec_hand(),
                        crate::hearts::spec_rules_eq(hypo_round.rules, req.spec_rules()),
                    decreases nplays - ci,
                {
                    proof {
                        req.wf_ok();
                        crate::hearts::lemma_legal_plays_subset(
                            req.spec_hand(), req.spec_trick_cards(), req.spec_prev_tricks(), req.spec_rules());
                        assert(req_legal(req).contains(legal_plays@[ci as int]));
                        assert(req.spec_hand().contains(legal_plays@[ci as int]));
                    }
                    let mut hypo_copy = clone_round(&hypo_round);
                    let res = hypo_copy.play_card(&legal_plays[ci]);
                    proof {
                        assert(res is Ok);
                    }
                    let mut rcount: i32 = 0;
                    while rcount < mc_params.rollouts_per_hand
                        invariant
                            req.spec_wf(),
                            req_mc_ok(req),
                            spec_nonrecursive(*rollout_strategy),
                            spec_strategy_valid(*rollout_strategy),
                            equity_per_play@.len() == nplays,
                            ci < nplays,
                            0 <= pnum < 4,
                            hypo_copy.wf(),
                            hypo_copy.balanced(),
                            hypo_copy.opening_ok(),
                            hypo_copy.rules.num_players == 4,
                        decreases mc_params.rollouts_per_hand - rcount,
                    {
                        proof {
                            req.wf_ok();
                        }
                        let mut rh = clone_round(&hypo_copy);
                        do_rollout(&mut rh, rollout_strategy, rng);
                        let round_points = rh.points_taken();
                        let scores_before = req.scores_before_round();
                        let mut scores_after: Vec<i32> = Vec::new();
                        let mut p: usize = 0;
                        while p < 4
                            invariant
                                p <= 4,
                                scores_after@.len() == p,
                                scores_before@.len() == 4,
                                round_points@.len() == 4,
                            decreases 4 - p,
                        {
                            scores_after.push(add_clamped(scores_before[p], round_points[p]));
                            p = p + 1;
                        }
                        let eq = match_equity_for_scores(&scores_after, req.rules().point_limit, pnum);
                        let scaled = equity_scaled(eq);
                        let cur = equity_per_play[ci];
                        equity_per_play.set(ci, saturating_add_u64(cur, scaled));
                        rcount = rcount + 1;
                    }
                    ci = ci + 1;
                }
            },
        }
        s = s + 1;
    }
    let best = max_index(&equity_per_play);
    proof {
        assert(req_legal(req).contains(req_legal(req)[best as int]));
    }
    legal_plays[best]
}

/// Chooses a card by the requested strategy. Whichever strategy runs,
/// the choice is one of the legal plays.
pub fn choose_card<R: ChooseCardToPlayRequest>(
    req: &R,
    strategy: &CardToPlayStrategy,
    rng: &mut rand::rngs::StdRng,
) -> (r: Card)
    requires
        req.spec_wf(),
        req_legal(req).len() > 0,
        spec_strategy_valid(*strategy),
        !spec_nonrecursive(*strategy) ==> req_mc_ok(req),
    ensures
        req_legal(req).contains(r),
{
    if is_nonrecursive(strategy) {
        return choose_card_nonrecursive(req, strategy, rng);
    }
    match strategy {
        CardToPlayStrategy::MonteCarloRandom(mc_params) => {
            choose_card_monte_carlo(req, *mc_params, &CardToPlayStrategy::Random, rng)
        },
        CardToPlayStrategy::MonteCarloAvoidPoints(mc_params) => {
            choose_card_monte_carlo(req, *mc_params, &CardToPlayStrategy::AvoidPoints, rng)
        },
        CardToPlayStrategy::MonteCarloMixedRandomAvoidPoints(p_rand, mc_params) => {
            choose_card_monte_carlo(
                req,
                *mc_params,
                &CardToPlayStrategy::MixedRandomAvoidPoints(*p_rand),
                rng,
            )
        },
        _ => {
            // ruled out above: the direct policies were already dispatched
            proof {
                assert(false);
            }
            choose_card_random(req, rng)
        },
    }
}

/// Whether a follower among the first `upto` cards of a trick shows
/// player `pl` void in suit `s`: they sat at that seat and played off
/// the led suit.
pub open spec fn spec_follower_marks(tcards: Seq<Card>, leader: int, n: int, upto: int, pl: int, s: Suit) -> bool {
    exists|p: int| 1 <= p < upto && (leader + p) % n == pl
        && (#[trigger] tcards[p]).suit != tcards[0].suit && s == tcards[0].suit
}

/// The voids one trick reveals, given whether hearts were already
/// broken when it was led: a follower off the led suit is void in it,
/// and a lead of hearts before they were broken shows the leader void
/// in every other suit.
pub open spec fn spec_trick_marks_void(tcards: Seq<Card>, leader: int, n: int, broken: bool, pl: int, s: Suit) -> bool {
    ||| spec_follower_marks(tcards, leader, n, tcards.len() as int, pl, s)
    ||| (!broken && tcards.len() > 0 && tcards[0].suit == Suit::Hearts
        && pl == leader && s != Suit::Hearts)
}

/// Whether a follower among the first `upto` cards breaks hearts.
pub open spec fn spec_follower_breaks(tcards: Seq<Card>, qb: bool, upto: int) -> bool {
    exists|p: int| 1 <= p < upto
        && ((#[trigger] tcards[p]).suit == Suit::Hearts
            || (qb && tcards[p] == spec_queen_of_spades()))
}

/// Whether walking one trick leaves hearts broken, as the hidden-hand
/// inference tracks it.
pub open spec fn spec_trick_breaks_hearts(tcards: Seq<Card>, qb: bool) -> bool {
    (tcards.len() > 0 && tcards[0].suit == Suit::Hearts)
        || spec_follower_breaks(tcards, qb, tcards.len() as int)
}

/// Whether hearts count as broken after walking the completed tricks.
pub open spec fn spec_broken_through(tricks: Seq<Trick>, qb: bool) -> bool
    decreases tricks.len(),
{
    if tricks.len() == 0 {
        false
    } else {
        spec_broken_through(tricks.drop_last(), qb)
            || spec_trick_breaks_hearts(tricks.last().cards@, qb)
    }
}

/// Whether walking the completed tricks marks player `pl` void in `s`.
pub open spec fn spec_voids_through(tricks: Seq<Trick>, n: int, qb: bool, pl: int, s: Suit) -> bool
    decreases tricks.len(),
{
    if tricks.len() == 0 {
        false
    } else {
        spec_voids_through(tricks.drop_last(), n, qb, pl, s)
            || spec_trick_marks_void(
                tricks.last().cards@,
                (tricks.last().leader as int) % n,
                n,
                spec_broken_through(tricks.drop_last(), qb),
                pl,
                s,
            )
    }
}

/// The whole void inference of a decision context: the completed tricks
/// in order, then the trick in progress.
pub open spec fn spec_inferred_void(prev: Seq<Trick>, cur_cards: Seq<Card>, cur_leader: int, n: int, qb: bool, pl: int, s: Suit) -> bool {
    spec_voids_through(prev, n, qb, pl, s)
        || (cur_cards.len() > 0 && spec_trick_marks_void(
            cur_cards, cur_leader % n, n, spec_broken_through(prev, qb), pl, s))
}

/// Membership in a concatenation splits over its parts.
proof fn lemma_add_contains(a: Seq<Card>, b: Seq<Card>)
    ensures
        forall|c: Card| #[trigger] (a + b).contains(c) <==> a.contains(c) || b.contains(c),
{
    assert forall|c: Card| #[trigger] (a + b).contains(c)
        implies a.contains(c) || b.contains(c) by {
        let l = choose|l: int| 0 <= l < (a + b).len() && (a + b)[l] == c;
        if l < a.len() {
            assert(a[l] == c);
        } else {
            assert(b[l - a.len()] == c);
        }
    }
    assert forall|c: Card| a.contains(c) || b.contains(c)
        implies #[trigger] (a + b).contains(c) by {
        if a.contains(c) {
            let l = choose|l: int| 0 <= l < a.len() && a[l] == c;
            assert((a + b)[l] == c);
        } else {
            let l = choose|l: int| 0 <= l < b.len() && b[l] == c;
            assert((a + b)[a.len() + l] == c);
        }
    }
}

/// Marks a suit as voided for a player, once.
fn add_void(voided: &mut Vec<Vec<Suit>>, player: usize, s: Suit)
    requires
        player < old(voided)@.len(),
    ensures
        final(voided)@.len() == old(voided)@.len(),
        forall|p: int| 0 <= p < old(voided)@.len() && p != player
            ==> #[trigger] final(voided)@[p] == old(voided)@[p],
        forall|x: Suit| #[trigger] final(voided)@[player as int]@.contains(x)
            <==> (old(voided)@[player as int]@.contains(x) || x == s),
{
    let mut v = clone_suits(&voided[player]);
    let ghost orig = v@;
    let mut present = false;
    let m = v.len();
    let mut j: usize = 0;
    while j < m
        invariant
            m == v@.len(),
            v@ == orig,
            j <= m,
            present == exists|k: int| 0 <= k < j && #[trigger] orig[k] == s,
        decreases m - j,
    {
        if v[j] == s {
            proof {
                assert(orig[j as int] == s);
            }
            present = true;
        }
        j = j + 1;
    }
    if !present {
        v.push(s);
    }
    proof {
        if present {
            let k = choose|k: int| 0 <= k < m && #[trigger] orig[k] == s;
            assert(orig.contains(s));
            assert(v@ == orig);
        } else {
            assert(v@ == orig.push(s));
            assert(!orig.contains(s)) by {
                if orig.contains(s) {
                    let k = choose|k: int| 0 <= k < orig.len() && orig[k] == s;
                    assert(orig[k] == s);
                }
            }
        }
        assert forall|x: Suit| #[trigger] v@.contains(x)
            implies (orig.contains(x) || x == s) by {
            let k = choose|k: int| 0 <= k < v@.len() && v@[k] == x;
            if k < orig.len() {
                assert(orig[k] == x);
            }
        }
        assert forall|x: Suit| orig.contains(x) || x == s
            implies #[trigger] v@.contains(x) by {
            if orig.contains(x) {
                let k = choose|k: int| 0 <= k < orig.len() && orig[k] == x;
                assert(v@[k] == x);
            } else if !present {
                assert(v@[orig.len() as int] == s);
            }
        }
    }
    voided.set(player, v);
}

fn clone_suits(v: &Vec<Suit>) -> (r: Vec<Suit>)
    ensures
        r@ == v@,
{
    let r = v.clone();
    proof {
        assert forall|i: int| 0 <= i < v@.len() implies r@[i] == v@[i] by {
            assert(cloned::<Suit>(v@[i], r@[i]));
        }
        assert(r@ =~= v@);
    }
    r
}

/// Builds the hidden-hand sampling request from the public history:
/// the unseen cards (the deck less removals and everything seen), each
/// opponent's remaining hand size, the suits the play so far shows them
/// void in, and the cards this player passed pinned to their recipient.
pub fn make_card_distribution_req<R: ChooseCardToPlayRequest>(req: &R) -> (r: CardDistributionRequest)
    requires
        req.spec_wf(),
        req_mc_ok(req),
    ensures
        r.cards@.no_duplicates(),
        r.constraints@.len() == 4,
        forall|i: int| 0 <= i < 4 ==> (#[trigger] r.constraints@[i]).num_cards as int
            == (if i == req_current_player(req) { 0int } else {
                13 - req.spec_prev_tricks().len()
                    - (if crate::hearts::spec_seat_pos(i, req.spec_trick_leader(), 4)
                        < req.spec_trick_cards().len() { 1int } else { 0int })
            }),
        forall|c: Card| r.cards@.contains(c) ==> !req.spec_hand().contains(c),
        // the unseen cards are exactly the deck, less the removals and
        // less everything the deciding player has seen played or held
        forall|c: Card| #[trigger] r.cards@.contains(c) <==>
            (crate::card::card_valid(c)
                && !req.spec_rules().removed_cards@.contains(c)
                && !req.spec_hand().contains(c)
                && !crate::hearts::spec_all_trick_cards(req.spec_prev_tricks()).contains(c)
                && !req.spec_trick_cards().contains(c)),
        // the voids are exactly what the walk of the tricks reveals
        forall|pl: int, s: Suit| 0 <= pl < 4
            ==> (#[trigger] r.constraints@[pl].voided_suits@.contains(s)
                <==> spec_inferred_void(req.spec_prev_tricks(), req.spec_trick_cards(),
                    req.spec_trick_leader(), 4, req.spec_rules().queen_breaks_hearts, pl, s)),
        // the cards this player passed are pinned to their recipient
        forall|pl: int| 0 <= pl < 4 ==> (#[trigger] r.constraints@[pl]).fixed_cards@
            == (if req.spec_passed_cards().len() > 0
                    && pl == (req_current_player(req) + req.spec_pass_direction()) % 4
                { req.spec_passed_cards() } else { Seq::<Card>::empty() }),
{
    proof {
        req.wf_ok();
    }
    let ghost qb = req.spec_rules().queen_breaks_hearts;
    let num_players = req.rules().num_players;
    let mut seen_cards: Vec<Card> = clone_cards(req.hand());
    let mut voided_suits: Vec<Vec<Suit>> = Vec::new();
    let mut i: usize = 0;
    while i < num_players
        invariant
            i <= num_players,
            voided_suits@.len() == i,
            forall|p: int| 0 <= p < i ==> (#[trigger] voided_suits@[p])@.len() == 0,
        decreases num_players - i,
    {
        voided_suits.push(Vec::new());
        i = i + 1;
    }
    let mut hearts_broken = false;
    // walk the completed tricks, then the one in progress: collect the
    // played cards and note who failed to follow suit
    let prev = req.prev_tricks();
    let pm = prev.len();
    proof {
        assert(prev@.take(0) =~= Seq::<Trick>::empty());
        assert(crate::hearts::spec_all_trick_cards(prev@.take(0)) =~= Seq::<Card>::empty());
        assert(seen_cards@ =~= req.spec_hand()
            + crate::hearts::spec_all_trick_cards(prev@.take(0)));
    }
    let mut k: usize = 0;
    while k < pm
        invariant
            req.spec_wf(),
            req_mc_ok(req),
            qb == req.spec_rules().queen_breaks_hearts,
            prev@ == req.spec_prev_tricks(),
            pm == prev@.len(),
            k <= pm,
            num_players == 4,
            voided_suits@.len() == num_players,
            seen_cards@ == req.spec_hand()
                + crate::hearts::spec_all_trick_cards(prev@.take(k as int)),
            hearts_broken == spec_broken_through(prev@.take(k as int), qb),
            forall|pl: int, s: Suit| 0 <= pl < 4
                ==> (#[trigger] voided_suits@[pl]@.contains(s)
                    <==> spec_voids_through(prev@.take(k as int), 4, qb, pl, s)),
        decreases pm - k,
    {
        proof {
            assert(req.spec_prev_tricks()[k as int].cards@.len() == 4);
        }
        let tcards = clone_cards(&prev[k].cards);
        let tleader = prev[k].leader % num_players;
        let ghost hb0 = hearts_broken;
        let ghost voids0 = voided_suits@;
        let broke = process_trick(&tcards, tleader, num_players, &mut seen_cards, &mut voided_suits,
            hearts_broken, req.rules().queen_breaks_hearts);
        hearts_broken = broke;
        proof {
            assert(prev@.take(k + 1).drop_last() =~= prev@.take(k as int));
            assert(prev@.take(k + 1).last() == prev@[k as int]);
            assert(tcards@ == prev@[k as int].cards@);
            assert(crate::hearts::spec_all_trick_cards(prev@.take(k + 1))
                == crate::hearts::spec_all_trick_cards(prev@.take(k as int))
                    + prev@[k as int].cards@);
            assert(seen_cards@ =~= req.spec_hand()
                + crate::hearts::spec_all_trick_cards(prev@.take(k + 1)));
            assert(hearts_broken == spec_broken_through(prev@.take(k + 1), qb));
            assert forall|pl: int, s: Suit| 0 <= pl < 4 implies
                (#[trigger] voided_suits@[pl]@.contains(s)
                    <==> spec_voids_through(prev@.take(k + 1), 4, qb, pl, s)) by {
                assert(voided_suits@[pl]@.contains(s)
                    <==> (voids0[pl]@.contains(s)
                        || spec_trick_marks_void(tcards@, tleader as int, 4, hb0, pl, s)));
            }
        }
        k = k + 1;
    }
    proof {
        assert(prev@.take(pm as int) =~= prev@);
    }
    let trick = req.current_trick();
    let ghost cur_cards = req.spec_trick_cards();
    let ghost cur_leader = req.spec_trick_leader();
    if trick.cards.len() > 0 {
        let tcards = clone_cards(&trick.cards);
        let tleader = trick.leader % num_players;
        let ghost hb0 = hearts_broken;
        let ghost voids0 = voided_suits@;
        let broke = process_trick(&tcards, tleader, num_players, &mut seen_cards, &mut voided_suits,
            hearts_broken, req.rules().queen_breaks_hearts);
        hearts_broken = broke;
        proof {
            assert(tcards@ == cur_cards);
            assert(tleader as int == cur_leader % 4);
            assert forall|pl: int, s: Suit| 0 <= pl < 4 implies
                (#[trigger] voided_suits@[pl]@.contains(s)
                    <==> spec_inferred_void(prev@, cur_cards, cur_leader, 4, qb, pl, s)) by {
                assert(voided_suits@[pl]@.contains(s)
                    <==> (voids0[pl]@.contains(s)
                        || spec_trick_marks_void(cur_cards, cur_leader % 4, 4, hb0, pl, s)));
            }
            assert(seen_cards@ =~= (req.spec_hand()
                + crate::hearts::spec_all_trick_cards(prev@)) + cur_cards);
        }
    } else {
        proof {
            assert(cur_cards =~= Seq::<Card>::empty());
            assert(seen_cards@ =~= (req.spec_hand()
                + crate::hearts::spec_all_trick_cards(prev@)) + cur_cards);
        }
    }
    proof {
        lemma_add_contains(req.spec_hand() + crate::hearts::spec_all_trick_cards(prev@), cur_cards);
        lemma_add_contains(req.spec_hand(), crate::hearts::spec_all_trick_cards(prev@));
    }
    // the unseen cards: the deck, less removals, less everything seen
    let deck = all_cards();
    let ghost seenv = seen_cards@;
    let ghost pred = |c: Card| !req.spec_rules().removed_cards@.contains(c) && !seenv.contains(c);
    let mut cards_to_assign: Vec<Card> = Vec::new();
    let dn = deck.len();
    proof {
        reveal(Seq::filter);
        assert(deck@.take(0) =~= Seq::<Card>::empty());
        assert(cards_to_assign@ =~= deck@.take(0).filter(pred));
    }
    let mut j: usize = 0;
    while j < dn
        invariant
            req.spec_wf(),
            dn == deck@.len(),
            j <= dn,
            seenv == seen_cards@,
            pred == (|c: Card| !req.spec_rules().removed_cards@.contains(c) && !seenv.contains(c)),
            cards_to_assign@ == deck@.take(j as int).filter(pred),
        decreases dn - j,
    {
        proof {
            reveal(Seq::filter);
            assert(deck@.take(j + 1).drop_last() =~= deck@.take(j as int));
            assert(deck@.take(j + 1).last() == deck@[j as int]);
        }
        let c = deck[j];
        if !contains_card(&req.rules().removed_cards, &c) && !contains_card(&seen_cards, &c) {
            cards_to_assign.push(c);
        }
        j = j + 1;
    }
    proof {
        assert(deck@.take(dn as int) =~= deck@);
        crate::card::lemma_full_deck(spec_two_of_clubs());
        crate::hearts::lemma_filter_no_dup(deck@, pred);
        assert forall|c: Card| #[trigger] cards_to_assign@.contains(c) <==>
            (crate::card::card_valid(c)
                && !req.spec_rules().removed_cards@.contains(c)
                && !req.spec_hand().contains(c)
                && !crate::hearts::spec_all_trick_cards(req.spec_prev_tricks()).contains(c)
                && !req.spec_trick_cards().contains(c)) by {
            crate::card::lemma_full_deck(c);
            if cards_to_assign@.contains(c) {
                let l = choose|l: int| 0 <= l < cards_to_assign@.len() && cards_to_assign@[l] == c;
                deck@.lemma_filter_pred(pred, l);
                assert(deck@.filter(pred).contains(c));
                deck@.lemma_filter_contains_rev(pred, c);
                assert(deck@.contains(c));
                assert(!seenv.contains(c));
            }
            if crate::card::card_valid(c)
                && !req.spec_rules().removed_cards@.contains(c)
                && !req.spec_hand().contains(c)
                && !crate::hearts::spec_all_trick_cards(req.spec_prev_tricks()).contains(c)
                && !req.spec_trick_cards().contains(c) {
                assert(!seenv.contains(c));
                assert(deck@.contains(c));
                let l = choose|l: int| 0 <= l < deck@.len() && deck@[l] == c;
                deck@.lemma_filter_contains(pred, l);
            }
        }
    }
    // how many cards each opponent still holds
    let base_count: usize = 13 - prev.len();
    let mut counts: Vec<usize> = Vec::new();
    let mut i: usize = 0;
    while i < num_players
        invariant
            i <= num_players,
            counts@.len() == i,
            base_count == 13 - req.spec_prev_tricks().len(),
            forall|p: int| 0 <= p < i ==> #[trigger] counts@[p] == base_count,
        decreases num_players - i,
    {
        counts.push(base_count);
        i = i + 1;
    }
    let tlen = trick.cards.len();
    let tleader = trick.leader;
    let ghost n4 = num_players as int;
    let mut i: usize = 0;
    while i < tlen
        invariant
            req.spec_wf(),
            num_players == 4,
            n4 == 4,
            tlen == req.spec_trick_cards().len(),
            tlen < 4,
            tleader as int == req.spec_trick_leader(),
            0 <= tleader < 4,
            base_count == 13 - req.spec_prev_tricks().len(),
            tlen > 0 ==> 1 <= base_count,
            base_count <= 13,
            i <= tlen,
            counts@.len() == 4,
            forall|p: int| 0 <= p < 4 ==> #[trigger] counts@[p] as int
                == base_count - (if crate::hearts::spec_seat_pos(p, tleader as int, 4) < i { 1int } else { 0int }),
        decreases tlen - i,
    {
        let pi = (tleader + i) % num_players;
        proof {
            crate::hearts::lemma_seat_roundtrip(tleader as int, i as int, 4);
            assert(crate::hearts::spec_seat_pos(pi as int, tleader as int, 4) == i as int);
            assert(counts@[pi as int] == base_count);
        }
        let cur = counts[pi];
        counts.set(pi, cur - 1);
        proof {
            assert forall|p: int| 0 <= p < 4 implies #[trigger] counts@[p] as int
                == base_count - (if crate::hearts::spec_seat_pos(p, tleader as int, 4) < i + 1 { 1int } else { 0int }) by {
                crate::hearts::lemma_seat_pos_inverse(p, tleader as int, 4);
                if p != pi as int {
                    assert(crate::hearts::spec_seat_pos(p, tleader as int, 4) != i as int) by {
                        if crate::hearts::spec_seat_pos(p, tleader as int, 4) == i as int {
                            crate::hearts::lemma_seat_roundtrip(tleader as int, i as int, 4);
                        }
                    }
                }
            }
        }
        i = i + 1;
    }
    let cpi = req.current_player_index();
    proof {
        vstd::arithmetic::div_mod::lemma_mod_bound(
            req.spec_trick_leader() + req.spec_trick_cards().len(), 4);
    }
    counts.set(cpi, 0);
    // assemble the constraints; the player we passed to is pinned to
    // hold those cards
    let passed = req.passed_cards();
    let has_pass = passed.len() > 0;
    let passed_to = (cpi + (req.pass_direction() as usize)) % num_players;
    proof {
        assert(passed_to as int == (req_current_player(req) + req.spec_pass_direction()) % 4);
    }
    let mut constraints: Vec<CardDistributionPlayerConstraint> = Vec::new();
    let mut i: usize = 0;
    while i < num_players
        invariant
            req.spec_wf(),
            num_players == 4,
            i <= num_players,
            constraints@.len() == i,
            counts@.len() == 4,
            voided_suits@.len() == 4,
            passed_to < 4,
            passed@ == req.spec_passed_cards(),
            has_pass == (req.spec_passed_cards().len() > 0),
            passed_to as int == (req_current_player(req) + req.spec_pass_direction()) % 4,
            forall|p: int| 0 <= p < i ==> (#[trigger] constraints@[p]).num_cards == counts@[p],
            forall|p: int| 0 <= p < i ==> (#[trigger] constraints@[p]).voided_suits@
                == voided_suits@[p]@,
            forall|p: int| 0 <= p < i ==> (#[trigger] constraints@[p]).fixed_cards@
                == (if has_pass && p == passed_to { req.spec_passed_cards() }
                    else { Seq::<Card>::empty() }),
        decreases num_players - i,
    {
        let fixed = if has_pass && i == passed_to {
            clone_cards(passed)
        } else {
            Vec::new()
        };
        constraints.push(CardDistributionPlayerConstraint {
            num_cards: counts[i],
            voided_suits: clone_suits(&voided_suits[i]),
            fixed_cards: fixed,
        });
        i = i + 1;
    }
    proof {
        crate::hearts::lemma_seat_roundtrip(
            req.spec_trick_leader(), req.spec_trick_cards().len() as int, 4);
        assert forall|p: int| 0 <= p < 4 implies (#[trigger] constraints@[p]).num_cards as int
            == (if p == req_current_player(req) { 0int } else {
                13 - req.spec_prev_tricks().len()
                    - (if crate::hearts::spec_seat_pos(p, req.spec_trick_leader(), 4)
                        < req.spec_trick_cards().len() { 1int } else { 0int })
            }) by {
            if p == req_current_player(req) {
            } else {
                assert(crate::hearts::spec_seat_pos(p, req.spec_trick_leader(), 4)
                    != req.spec_trick_cards().len()) by {
                    if crate::hearts::spec_seat_pos(p, req.spec_trick_leader(), 4)
                        == req.spec_trick_cards().len() {
                        crate::hearts::lemma_seat_pos_inverse(p, req.spec_trick_leader(), 4);
                    }
                }
            }
        }
    }
    CardDistributionRequest { cards: cards_to_assign, constraints }
}

/// Collects a trick's cards as seen and marks the voids it reveals:
/// a follower off suit is void in the led suit, and a lead of hearts
/// before they were broken shows the leader void everywhere else.
fn process_trick(
    tcards: &Vec<Card>,
    tleader: usize,
    num_players: usize,
    seen_cards: &mut Vec<Card>,
    voided_suits: &mut Vec<Vec<Suit>>,
    hearts_broken: bool,
    queen_breaks: bool,
) -> (broke: bool)
    requires
        1 <= tcards@.len() <= 52,
        tleader < num_players,
        2 <= num_players <= 52,
        old(voided_suits)@.len() == num_players,
    ensures
        final(voided_suits)@.len() == num_players,
        final(seen_cards)@ == old(seen_cards)@ + tcards@,
        forall|c: Card| old(seen_cards)@.contains(c) ==> final(seen_cards)@.contains(c),
        broke == (hearts_broken || spec_trick_breaks_hearts(tcards@, queen_breaks)),
        forall|pl: int, s: Suit| 0 <= pl < num_players
            ==> (#[trigger] final(voided_suits)@[pl]@.contains(s)
                <==> (old(voided_suits)@[pl]@.contains(s)
                    || spec_trick_marks_void(tcards@, tleader as int, num_players as int,
                        hearts_broken, pl, s))),
{
    let ghost np = num_players as int;
    let ghost orig_voids = old(voided_suits)@;
    let trick_suit = tcards[0].suit;
    let mut broke = hearts_broken;
    if !hearts_broken && trick_suit == Suit::Hearts {
        // hearts led before they were broken: the leader had nothing else
        broke = true;
        add_void(voided_suits, tleader, Suit::Spades);
        add_void(voided_suits, tleader, Suit::Diamonds);
        add_void(voided_suits, tleader, Suit::Clubs);
    }
    proof {
        // the optional lead marks settle exactly the leader's other suits
        assert forall|pl: int, s: Suit| 0 <= pl < np implies
            (#[trigger] voided_suits@[pl]@.contains(s)
                <==> (orig_voids[pl]@.contains(s)
                    || (!hearts_broken && trick_suit == Suit::Hearts
                        && pl == tleader as int && s != Suit::Hearts))) by {
            if !hearts_broken && trick_suit == Suit::Hearts {
                if pl == tleader as int {
                    assert(voided_suits@[pl]@.contains(s)
                        <==> (orig_voids[pl]@.contains(s)
                            || s == Suit::Spades || s == Suit::Diamonds || s == Suit::Clubs));
                    assert((s == Suit::Spades || s == Suit::Diamonds || s == Suit::Clubs)
                        <==> s != Suit::Hearts);
                }
            }
        }
    }
    let ghost lead_voids = voided_suits@;
    let ghost pre_seen = seen_cards@;
    seen_cards.push(tcards[0]);
    proof {
        assert(seen_cards@ =~= pre_seen + tcards@.take(1));
    }
    let m = tcards.len();
    let mut i: usize = 1;
    while i < m
        invariant
            m == tcards@.len() <= 52,
            1 <= i <= m,
            tleader < num_players,
            np == num_players as int,
            2 <= num_players <= 52,
            trick_suit == tcards@[0].suit,
            voided_suits@.len() == num_players,
            seen_cards@ == pre_seen + tcards@.take(i as int),
            broke == (hearts_broken || trick_suit == Suit::Hearts
                || spec_follower_breaks(tcards@, queen_breaks, i as int)),
            forall|pl: int, s: Suit| 0 <= pl < np
                ==> (#[trigger] voided_suits@[pl]@.contains(s)
                    <==> (lead_voids[pl]@.contains(s)
                        || spec_follower_marks(tcards@, tleader as int, np, i as int, pl, s))),
        decreases m - i,
    {
        let ghost before = seen_cards@;
        let c = tcards[i];
        seen_cards.push(c);
        proof {
            assert(tcards@.take(i + 1) =~= tcards@.take(i as int).push(tcards@[i as int]));
            assert(seen_cards@ =~= pre_seen + tcards@.take(i + 1));
        }
        let ghost pre_voids = voided_suits@;
        if c.suit != trick_suit {
            let follower = (tleader + i) % num_players;
            proof {
                vstd::arithmetic::div_mod::lemma_mod_bound(tleader as int + i as int, np);
            }
            add_void(voided_suits, follower, trick_suit);
            proof {
                assert forall|pl: int, s: Suit| 0 <= pl < np implies
                    (#[trigger] voided_suits@[pl]@.contains(s)
                        <==> (lead_voids[pl]@.contains(s)
                            || spec_follower_marks(tcards@, tleader as int, np, i + 1, pl, s))) by {
                    if voided_suits@[pl]@.contains(s) {
                        if !(pre_voids[pl]@.contains(s)) {
                            // the new mark: player `follower`, the led suit
                            assert(pl == follower as int && s == trick_suit);
                            assert((tleader as int + i as int) % np == pl);
                            assert(spec_follower_marks(tcards@, tleader as int, np, i + 1, pl, s));
                        }
                    }
                    if spec_follower_marks(tcards@, tleader as int, np, i + 1, pl, s)
                        && !spec_follower_marks(tcards@, tleader as int, np, i as int, pl, s) {
                        let p = choose|p: int| 1 <= p < i + 1 && (tleader as int + p) % np == pl
                            && (#[trigger] tcards@[p]).suit != tcards@[0].suit && s == tcards@[0].suit;
                        assert(p == i as int);
                        assert(pl == follower as int && s == trick_suit);
                        assert(voided_suits@[pl]@.contains(s));
                    }
                }
            }
        } else {
            proof {
                // a follower on suit marks nothing
                assert forall|pl: int, s: Suit| 0 <= pl < np implies
                    (spec_follower_marks(tcards@, tleader as int, np, i + 1, pl, s)
                        <==> spec_follower_marks(tcards@, tleader as int, np, i as int, pl, s)) by {
                    if spec_follower_marks(tcards@, tleader as int, np, i + 1, pl, s) {
                        let p = choose|p: int| 1 <= p < i + 1 && (tleader as int + p) % np == pl
                            && (#[trigger] tcards@[p]).suit != tcards@[0].suit && s == tcards@[0].suit;
                        assert(p < i as int);
                    }
                }
            }
        }
        let is_breaker = c.suit == Suit::Hearts
            || (queen_breaks && c.rank.value == 12 && c.suit == Suit::Spades);
        if is_breaker {
            broke = true;
        }
        proof {
            if is_breaker {
                assert(tcards@[i as int].suit == Suit::Hearts
                    || (queen_breaks && tcards@[i as int] == spec_queen_of_spades()));
                assert(spec_follower_breaks(tcards@, queen_breaks, i + 1));
            } else {
                assert(spec_follower_breaks(tcards@, queen_breaks, i + 1)
                    <==> spec_follower_breaks(tcards@, queen_breaks, i as int)) by {
                    if spec_follower_breaks(tcards@, queen_breaks, i + 1) {
                        let p = choose|p: int| 1 <= p < i + 1
                            && ((#[trigger] tcards@[p]).suit == Suit::Hearts
                                || (queen_breaks && tcards@[p] == spec_queen_of_spades()));
                        assert(p < i as int);
                    }
                }
            }
        }
        i = i + 1;
    }
    proof {
        assert(tcards@.take(m as int) =~= tcards@);
        assert(seen_cards@ == pre_seen + tcards@);
        assert forall|c: Card| pre_seen.contains(c) implies seen_cards@.contains(c) by {
            let l = choose|l: int| 0 <= l < pre_seen.len() && pre_seen[l] == c;
            assert(seen_cards@[l] == c);
        }
        // fold the lead marks and the follower marks into the trick's marks
        assert forall|pl: int, s: Suit| 0 <= pl < np implies
            (#[trigger] voided_suits@[pl]@.contains(s)
                <==> (orig_voids[pl]@.contains(s)
                    || spec_trick_marks_void(tcards@, tleader as int, np, hearts_broken, pl, s))) by {
        }
        assert(broke == (hearts_broken || spec_trick_breaks_hearts(tcards@, queen_breaks)));
    }
    broke
}

/// Builds a hypothetical round consistent with everything the deciding
/// player can see: their own hand at their seat and a sampled deal of
/// the unseen cards at the others.
pub fn possible_round<R: ChooseCardToPlayRequest>(
    cc_req: &R,
    dist_req: &CardDistributionRequest,
    rng: &mut rand::rngs::StdRng,
) -> (r: Option<Round>)
    requires
        cc_req.spec_wf(),
        req_mc_ok(cc_req),
        req_legal(cc_req).len() > 0,
        dist_req.cards@.no_duplicates(),
        dist_req.constraints@.len() == 4,
        forall|c: Card| dist_req.cards@.contains(c) ==> !cc_req.spec_hand().contains(c),
        forall|i: int| 0 <= i < 4 ==> (#[trigger] dist_req.constraints@[i]).num_cards as int
            == (if i == req_current_player(cc_req) { 0int } else {
                13 - cc_req.spec_prev_tricks().len()
                    - (if crate::hearts::spec_seat_pos(i, cc_req.spec_trick_leader(), 4)
                        < cc_req.spec_trick_cards().len() { 1int } else { 0int })
            }),
    ensures
        match r {
            Some(round) => round.wf() && round.balanced() && round.opening_ok()
                && round.rules.num_players == 4
                && round.status == RoundStatus::Playing
                && round.spec_current_player_index() == req_current_player(cc_req)
                && round.players@[round.spec_current_player_index()].hand@ == cc_req.spec_hand()
                && crate::hearts::spec_rules_eq(round.rules, cc_req.spec_rules()),
            None => true,
        },
{
    proof {
        cc_req.wf_ok();
    }
    let maybe_dist = crate::sampler::possible_card_distribution(dist_req, rng);
    let dist = match maybe_dist {
        Ok(d) => d,
        Err(_) => {
            return None;
        },
    };
    let cur_player = cc_req.current_player_index();
    proof {
        vstd::arithmetic::div_mod::lemma_mod_bound(
            cc_req.spec_trick_leader() + cc_req.spec_trick_cards().len(), 4);
    }
    let mut result_players: Vec<Player> = Vec::new();
    let mut i: usize = 0;
    while i < 4
        invariant
            cc_req.spec_wf(),
            crate::sampler::spec_distribution_ok(*dist_req, dist@),
            dist_req.constraints@.len() == 4,
            cur_player < 4,
            i <= 4,
            result_players@.len() == i,
            forall|p: int| 0 <= p < i && p != cur_player
                ==> (#[trigger] result_players@[p]).hand@ == dist@[p]@,
            forall|p: int| 0 <= p < i && p == cur_player
                ==> (#[trigger] result_players@[p]).hand@ == cc_req.spec_hand(),
        decreases 4 - i,
    {
        if i == cur_player {
            result_players.push(Player::new(cc_req.hand()));
        } else {
            result_players.push(Player::new(&dist[i]));
        }
        i = i + 1;
    }
    let trick = cc_req.current_trick();
    let round = Round {
        rules: cc_req.rules().clone(),
        players: result_players,
        initial_scores: clone_scores(cc_req.scores_before_round()),
        current_trick: TrickInProgress {
            leader: trick.leader,
            cards: clone_cards(&trick.cards),
        },
        prev_tricks: clone_tricks(cc_req.prev_tricks()),
        status: RoundStatus::Playing,
        pass_direction: 0,
        num_passed_cards: 0,
    };
    proof {
        cc_req.wf_ok();
        assert(round.rules.num_players == 4);
        assert(round.wf());
        // the round is balanced: every seat holds as many cards as the
        // history says it should
        crate::hearts::lemma_seat_roundtrip(
            cc_req.spec_trick_leader(), cc_req.spec_trick_cards().len() as int, 4);
        assert(round.spec_current_player_index() == req_current_player(cc_req));
        assert forall|p: int| 0 <= p < 4 implies (#[trigger] round.players@[p]).hand@.len()
            == 13 - round.prev_tricks@.len()
                - (if round.spec_played_in_current(p) { 1int } else { 0int }) by {
            crate::hearts::lemma_seat_pos_inverse(p, cc_req.spec_trick_leader(), 4);
            if p == cur_player as int {
                assert(!round.spec_played_in_current(p)) by {
                    if crate::hearts::spec_seat_pos(p, cc_req.spec_trick_leader(), 4)
                        < cc_req.spec_trick_cards().len() {
                        crate::hearts::lemma_seat_roundtrip(
                            cc_req.spec_trick_leader(),
                            crate::hearts::spec_seat_pos(p, cc_req.spec_trick_leader(), 4), 4);
                    }
                }
            } else {
                assert(round.players@[p].hand@.len() == dist_req.constraints@[p].num_cards);
            }
        }
        assert(round.balanced());
        // at the opening play the deciding player holds the two of clubs,
        // else they would have no legal play
        if round.prev_tricks@.len() == 0 && round.current_trick.cards@.len() == 0 {
            assert(req_legal(cc_req).len() > 0);
            assert(cc_req.spec_hand().contains(crate::hearts::spec_two_of_clubs()));
        }
        assert(round.opening_ok());
    }
    Some(round)
}

} // verus!
