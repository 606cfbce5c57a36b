//! The Hearts rules engine: point values, trick resolution, legality of
//! plays, moon-shooting, and the per-round state machine.

use vstd::prelude::*;
use crate::card::{Card, Deck, Rank, Suit, spec_deck_to, spec_full_deck, spec_rank_cards};

verus! {

pub open spec fn spec_queen_of_spades() -> Card {
    Card { rank: Rank { value: 12 }, suit: Suit::Spades }
}

pub open spec fn spec_two_of_clubs() -> Card {
    Card { rank: Rank { value: 2 }, suit: Suit::Clubs }
}

pub open spec fn spec_jack_of_diamonds() -> Card {
    Card { rank: Rank { value: 11 }, suit: Suit::Diamonds }
}

pub fn queen_of_spades() -> (c: Card)
    ensures
        c == spec_queen_of_spades(),
{
    Card { rank: Rank { value: 12 }, suit: Suit::Spades }
}

pub fn two_of_clubs() -> (c: Card)
    ensures
        c == spec_two_of_clubs(),
{
    Card { rank: Rank { value: 2 }, suit: Suit::Clubs }
}

pub fn jack_of_diamonds() -> (c: Card)
    ensures
        c == spec_jack_of_diamonds(),
{
    Card { rank: Rank { value: 11 }, suit: Suit::Diamonds }
}

/// How the capture of all point cards by one player is settled.
#[derive(Debug, Clone, PartialEq, Eq, Structural)]
pub enum MoonShooting {
    Disabled,
    OpponentsPlus26,
}

/// The immutable rules of one round.
#[derive(Debug, PartialEq, Eq)]
pub struct RuleSet {
    pub num_players: usize,
    pub removed_cards: Vec<Card>,
    pub point_limit: u32,
    pub points_on_first_trick: bool,
    pub queen_breaks_hearts: bool,
    pub jd_minus_10: bool,
    pub moon_shooting: MoonShooting,
}

/// Rule sets that agree on every setting.
pub open spec fn spec_rules_eq(a: RuleSet, b: RuleSet) -> bool {
    &&& a.num_players == b.num_players
    &&& a.removed_cards@ == b.removed_cards@
    &&& a.point_limit == b.point_limit
    &&& a.points_on_first_trick == b.points_on_first_trick
    &&& a.queen_breaks_hearts == b.queen_breaks_hearts
    &&& a.jd_minus_10 == b.jd_minus_10
    &&& a.moon_shooting == b.moon_shooting
}

/// An exact duplicate of a card vector.
pub fn clone_cards(v: &Vec<Card>) -> (r: Vec<Card>)
    ensures
        r@ == v@,
{
    let r = v.clone();
    proof {
        assert forall|i: int| 0 <= i < v@.len() implies r@[i] == v@[i] by {
            assert(cloned::<Card>(v@[i], r@[i]));
        }
        assert(r@ =~= v@);
    }
    r
}

impl Clone for RuleSet {
    /// A duplicate that agrees on every setting.
    fn clone(&self) -> (r: RuleSet)
        ensures
            spec_rules_eq(r, *self),
    {
        RuleSet {
            num_players: self.num_players,
            removed_cards: clone_cards(&self.removed_cards),
            point_limit: self.point_limit,
            points_on_first_trick: self.points_on_first_trick,
            queen_breaks_hearts: self.queen_breaks_hearts,
            jd_minus_10: self.jd_minus_10,
            moon_shooting: if matches!(self.moon_shooting, MoonShooting::Disabled) {
                MoonShooting::Disabled
            } else {
                MoonShooting::OpponentsPlus26
            },
        }
    }
}

impl RuleSet {
    pub fn default_num_players() -> (n: usize)
        ensures
            n == 4,
    {
        4
    }

    pub fn default_point_limit() -> (n: u32)
        ensures
            n == 100,
    {
        100
    }
}

impl Default for RuleSet {
    fn default() -> (r: RuleSet)
        ensures
            r.num_players == 4,
            r.removed_cards@ == Seq::<Card>::empty(),
            r.point_limit == 100,
            !r.points_on_first_trick,
            !r.queen_breaks_hearts,
            !r.jd_minus_10,
            r.moon_shooting == MoonShooting::OpponentsPlus26,
    {
        RuleSet {
            num_players: 4,
            removed_cards: Vec::new(),
            point_limit: 100,
            points_on_first_trick: false,
            queen_breaks_hearts: false,
            jd_minus_10: false,
            moon_shooting: MoonShooting::OpponentsPlus26,
        }
    }
}

/// Point value of one card: 1 per heart, 13 for the queen of spades,
/// -10 for the jack of diamonds under that variant, else 0.
pub open spec fn spec_points_for_card(c: Card, jd_minus_10: bool) -> int {
    if c.suit == Suit::Hearts {
        1
    } else if c == spec_queen_of_spades() {
        13
    } else if jd_minus_10 && c == spec_jack_of_diamonds() {
        -10
    } else {
        0
    }
}

/// Sum of the point values of a sequence of cards.
pub open spec fn spec_points_for_cards(s: Seq<Card>, jd_minus_10: bool) -> int
    decreases s.len(),
{
    if s.len() == 0 {
        0
    } else {
        spec_points_for_cards(s.drop_last(), jd_minus_10) + spec_points_for_card(s.last(), jd_minus_10)
    }
}

pub proof fn lemma_points_bound(s: Seq<Card>, jd: bool)
    ensures
        -10 * s.len() <= spec_points_for_cards(s, jd) <= 13 * s.len(),
    decreases s.len(),
{
    if s.len() > 0 {
        lemma_points_bound(s.drop_last(), jd);
    }
}

pub fn points_for_card(c: &Card, rules: &RuleSet) -> (r: i32)
    ensures
        r == spec_points_for_card(*c, rules.jd_minus_10),
{
    if c.suit == Suit::Hearts {
        1
    } else if c.rank.value == 12 && c.suit == Suit::Spades {
        13
    } else if rules.jd_minus_10 && c.rank.value == 11 && c.suit == Suit::Diamonds {
        -10
    } else {
        0
    }
}

pub fn points_for_cards(cards: &Vec<Card>, rules: &RuleSet) -> (r: i32)
    requires
        cards@.len() <= 52,
    ensures
        r == spec_points_for_cards(cards@, rules.jd_minus_10),
{
    let mut points: i32 = 0;
    let n = cards.len();
    proof {
        assert(cards@.take(0) =~= Seq::<Card>::empty());
    }
    let mut i: usize = 0;
    while i < n
        invariant
            n == cards@.len() <= 52,
            i <= n,
            points == spec_points_for_cards(cards@.take(i as int), rules.jd_minus_10),
        decreases n - i,
    {
        proof {
            lemma_points_bound(cards@.take(i as int), rules.jd_minus_10);
            assert(cards@.take(i + 1).drop_last() =~= cards@.take(i as int));
            assert(cards@.take(i + 1).last() == cards@[i as int]);
        }
        points = points + points_for_card(&cards[i], rules);
        i = i + 1;
    }
    proof {
        assert(cards@.take(n as int) =~= cards@);
    }
    points
}

/// A completed trick: who led, the cards in play order, who won.
#[derive(Debug, Clone)]
pub struct Trick {
    pub leader: usize,
    pub cards: Vec<Card>,
    pub winner: usize,
}

/// A trick still being played: who led and the cards so far.
#[derive(Debug, Clone)]
pub struct TrickInProgress {
    pub leader: usize,
    pub cards: Vec<Card>,
}

impl TrickInProgress {
    pub fn new(leader: usize) -> (t: TrickInProgress)
        ensures
            t.leader == leader,
            t.cards@ == Seq::<Card>::empty(),
    {
        TrickInProgress { leader, cards: Vec::new() }
    }
}

/// Per-player points before any moon-shooting settlement: each trick's
/// points go to its winner.
pub open spec fn spec_base_points(tricks: Seq<Trick>, n: nat, jd: bool) -> Seq<int>
    decreases tricks.len(),
{
    if tricks.len() == 0 {
        Seq::new(n, |i: int| 0)
    } else {
        let prev = spec_base_points(tricks.drop_last(), n, jd);
        let t = tricks.last();
        prev.update(t.winner as int, prev[t.winner as int] + spec_points_for_cards(t.cards@, jd))
    }
}

/// The winner of the first trick that holds the jack of diamonds.
pub open spec fn spec_first_jd_winner(tricks: Seq<Trick>) -> Option<usize>
    decreases tricks.len(),
{
    if tricks.len() == 0 {
        None
    } else if tricks[0].cards@.contains(spec_jack_of_diamonds()) {
        Some(tricks[0].winner)
    } else {
        spec_first_jd_winner(tricks.drop_first())
    }
}

/// Per-player points with the jack-of-diamonds adjustment undone, which
/// is the total against which a moon shoot is recognized.
pub open spec fn spec_unadjusted_points(tricks: Seq<Trick>, n: nat, rules: RuleSet) -> Seq<int> {
    let base = spec_base_points(tricks, n, rules.jd_minus_10);
    if rules.jd_minus_10 {
        match spec_first_jd_winner(tricks) {
            Some(w) => if w < n { base.update(w as int, base[w as int] + 10) } else { base },
            None => base,
        }
    } else {
        base
    }
}

/// The first player whose unadjusted total is all 26 points, if any.
pub open spec fn spec_find_26(pts: Seq<int>) -> Option<int>
    decreases pts.len(),
{
    if pts.len() == 0 {
        None
    } else if pts[0] == 26 {
        Some(0int)
    } else {
        match spec_find_26(pts.drop_first()) {
            Some(p) => Some(p + 1),
            None => None,
        }
    }
}

/// The player who shot the moon in these tricks, if any.
pub open spec fn spec_moon_shooter(tricks: Seq<Trick>, n: nat, rules: RuleSet) -> Option<int> {
    spec_find_26(spec_unadjusted_points(tricks, n, rules))
}

/// Final per-player points of a set of tricks: base points, settled by
/// +26 to every opponent and -26 to the shooter when somebody shot the
/// moon and the variant is enabled.
pub open spec fn spec_round_points(tricks: Seq<Trick>, rules: RuleSet) -> Seq<int> {
    let n = rules.num_players as nat;
    let base = spec_base_points(tricks, n, rules.jd_minus_10);
    if rules.moon_shooting != MoonShooting::Disabled {
        match spec_moon_shooter(tricks, n, rules) {
            Some(sh) => Seq::new(n, |i: int| base[i] + if i == sh { -26int } else { 26int }),
            None => base,
        }
    } else {
        base
    }
}

/// Where the first 26-point total stands, stated without the recursion.
pub proof fn lemma_find_26_char(s: Seq<int>)
    ensures
        match spec_find_26(s) {
            Some(p) => 0 <= p < s.len() && s[p] == 26
                && forall|k: int| 0 <= k < p ==> #[trigger] s[k] != 26,
            None => forall|k: int| 0 <= k < s.len() ==> #[trigger] s[k] != 26,
        },
    decreases s.len(),
{
    if s.len() > 0 && s[0] != 26 {
        lemma_find_26_char(s.drop_first());
        assert(forall|k: int| 0 <= k < s.drop_first().len() ==> #[trigger] s.drop_first()[k] == s[k + 1]);
        match spec_find_26(s.drop_first()) {
            Some(p) => {
                assert(s[p + 1] == s.drop_first()[p]);
                assert forall|k: int| 0 <= k < p + 1 implies #[trigger] s[k] != 26 by {
                    if k > 0 {
                        assert(s.drop_first()[k - 1] != 26);
                    }
                }
            },
            None => {
                assert forall|k: int| 0 <= k < s.len() implies #[trigger] s[k] != 26 by {
                    if k > 0 {
                        assert(s.drop_first()[k - 1] != 26);
                    }
                }
            },
        }
    }
}

/// The winner among the first `n` cards of a trick: the first card of
/// the led suit whose rank no later card of that suit exceeds.
pub open spec fn spec_twi_upto(cards: Seq<Card>, n: int) -> int
    decreases n,
{
    if n <= 1 {
        0
    } else {
        let prev = spec_twi_upto(cards, n - 1);
        if cards[n - 1].suit == cards[0].suit && cards[n - 1].rank.value > cards[prev].rank.value {
            n - 1
        } else {
            prev
        }
    }
}

pub open spec fn spec_trick_winner_index(cards: Seq<Card>) -> int {
    spec_twi_upto(cards, cards.len() as int)
}

/// The winner's index within a non-empty trick: the first card of the
/// led suit whose rank no later card of that suit exceeds.
pub fn trick_winner_index(cards: &Vec<Card>) -> (r: usize)
    requires
        cards@.len() >= 1,
    ensures
        r == spec_trick_winner_index(cards@),
        r < cards@.len(),
        cards@[r as int].suit == cards@[0].suit,
        forall|j: int| 0 <= j < cards@.len() && (#[trigger] cards@[j]).suit == cards@[0].suit
            ==> cards@[j].rank.value <= cards@[r as int].rank.value,
        forall|j: int| 0 <= j < r && (#[trigger] cards@[j]).suit == cards@[0].suit
            ==> cards@[j].rank.value < cards@[r as int].rank.value,
{
    let mut best_index: usize = 0;
    let mut best_rank: u32 = cards[0].rank.value;
    let n = cards.len();
    let mut i: usize = 1;
    while i < n
        invariant
            n == cards@.len(),
            1 <= i <= n,
            best_index < i,
            best_index == spec_twi_upto(cards@, i as int),
            cards@[best_index as int].suit == cards@[0].suit,
            best_rank == cards@[best_index as int].rank.value,
            forall|j: int| 0 <= j < i && (#[trigger] cards@[j]).suit == cards@[0].suit
                ==> cards@[j].rank.value <= best_rank,
            forall|j: int| 0 <= j < best_index && (#[trigger] cards@[j]).suit == cards@[0].suit
                ==> cards@[j].rank.value < best_rank,
        decreases n - i,
    {
        if cards[i].suit == cards[0].suit && cards[i].rank.value > best_rank {
            best_index = i;
            best_rank = cards[i].rank.value;
        }
        i = i + 1;
    }
    best_index
}

/// In a trick of distinct cards the winner is unique: every other card
/// of the led suit has strictly lower rank.
pub proof fn lemma_trick_winner_unique(cards: Seq<Card>, r: int)
    requires
        cards.len() >= 1,
        cards.no_duplicates(),
        0 <= r < cards.len(),
        cards[r].suit == cards[0].suit,
        forall|j: int| 0 <= j < cards.len() && (#[trigger] cards[j]).suit == cards[0].suit
            ==> cards[j].rank.value <= cards[r].rank.value,
    ensures
        forall|j: int| 0 <= j < cards.len() && j != r && (#[trigger] cards[j]).suit == cards[0].suit
            ==> cards[j].rank.value < cards[r].rank.value,
{
    assert forall|j: int| 0 <= j < cards.len() && j != r && (#[trigger] cards[j]).suit == cards[0].suit
        implies cards[j].rank.value < cards[r].rank.value by {
        if cards[j].rank.value == cards[r].rank.value {
            assert(cards[j] == cards[r]);
        }
    }
}

/// Whether a vector holds a card.
pub fn contains_card(cards: &Vec<Card>, c: &Card) -> (r: bool)
    ensures
        r == cards@.contains(*c),
{
    let n = cards.len();
    let mut i: usize = 0;
    while i < n
        invariant
            n == cards@.len(),
            i <= n,
            forall|k: int| 0 <= k < i ==> cards@[k] != *c,
        decreases n - i,
    {
        if cards[i].rank.value == c.rank.value && cards[i].suit == c.suit {
            proof {
                assert(cards@[i as int] == *c);
            }
            return true;
        }
        i = i + 1;
    }
    false
}

pub proof fn lemma_base_points_bound(tricks: Seq<Trick>, n: nat, jd: bool)
    requires
        forall|k: int| 0 <= k < tricks.len() ==> (#[trigger] tricks[k]).cards@.len() <= 52,
        forall|k: int| 0 <= k < tricks.len() ==> (#[trigger] tricks[k]).winner < n,
    ensures
        spec_base_points(tricks, n, jd).len() == n,
        forall|p: int| 0 <= p < n ==>
            -676 * tricks.len() <= #[trigger] spec_base_points(tricks, n, jd)[p] <= 676 * tricks.len(),
    decreases tricks.len(),
{
    if tricks.len() > 0 {
        lemma_base_points_bound(tricks.drop_last(), n, jd);
        lemma_points_bound(tricks.last().cards@, jd);
        let prev = spec_base_points(tricks.drop_last(), n, jd);
        let t = tricks.last();
        let w = t.winner as int;
        let cur = spec_base_points(tricks, n, jd);
        assert(cur == prev.update(w, prev[w] + spec_points_for_cards(t.cards@, jd)));
        assert(prev.len() == n);
        assert(cur.len() == prev.len());
        assert(tricks.drop_last().len() == tricks.len() - 1);
        assert(-676 <= spec_points_for_cards(t.cards@, jd) <= 676);
        assert forall|p: int| 0 <= p < n implies
            -676 * tricks.len() <= #[trigger] cur[p] <= 676 * tricks.len() by {
            assert(-676 * (tricks.len() - 1) <= prev[p] <= 676 * (tricks.len() - 1));
            if p == w {
                assert(cur[p] == prev[p] + spec_points_for_cards(t.cards@, jd));
            } else {
                assert(cur[p] == prev[p]);
            }
        }
    }
}

/// Position of the moon shooter among these tricks, if any: the player
/// whose captured point cards total all 26, judged before the
/// jack-of-diamonds adjustment.
fn moon_shooter(tricks: &Vec<Trick>, points: &Vec<i32>, rules: &RuleSet) -> (r: Option<usize>)
    requires
        points@.len() == rules.num_players,
        forall|p: int| 0 <= p < points@.len() ==>
            #[trigger] points@[p] as int == spec_base_points(tricks@, rules.num_players as nat, rules.jd_minus_10)[p],
        forall|p: int| 0 <= p < points@.len() ==> -40000 <= #[trigger] points@[p] <= 40000,
        forall|k: int| 0 <= k < tricks@.len() ==> (#[trigger] tricks@[k]).winner < rules.num_players,
        forall|k: int| 0 <= k < tricks@.len() ==> (#[trigger] tricks@[k]).cards@.len() <= 52,
    ensures
        match r {
            Some(p) => spec_moon_shooter(tricks@, rules.num_players as nat, *rules) == Some(p as int),
            None => spec_moon_shooter(tricks@, rules.num_players as nat, *rules) is None,
        },
{
    let n = rules.num_players;
    proof {
        lemma_base_points_bound(tricks@, n as nat, rules.jd_minus_10);
    }
    let ghost base = spec_base_points(tricks@, n as nat, rules.jd_minus_10);
    let mut unadjusted: Vec<i32> = Vec::new();
    let mut i: usize = 0;
    while i < n
        invariant
            n == rules.num_players,
            i <= n,
            unadjusted@.len() == i,
            points@.len() == n,
            forall|p: int| 0 <= p < i ==> unadjusted@[p] == points@[p],
        decreases n - i,
    {
        unadjusted.push(points[i]);
        i = i + 1;
    }
    if rules.jd_minus_10 {
        // undo the -10 for the jack of diamonds: the shoot is judged on
        // the hearts and the queen alone
        let jd = jack_of_diamonds();
        let m = tricks.len();
        let mut k: usize = 0;
        let ghost pre = unadjusted@;
        proof {
            assert(tricks@.skip(0) =~= tricks@);
        }
        while k < m
            invariant
                m == tricks@.len(),
                k <= m,
                unadjusted@ == pre,
                spec_first_jd_winner(tricks@) == spec_first_jd_winner(tricks@.skip(k as int)),
                forall|p: int| 0 <= p < m ==> (#[trigger] tricks@[p]).winner < rules.num_players,
                jd == spec_jack_of_diamonds(),
            ensures
                m == tricks@.len(),
                unadjusted@ == pre,
                match spec_first_jd_winner(tricks@) {
                    Some(w) => k < m && tricks@[k as int].winner == w
                        && tricks@[k as int].cards@.contains(spec_jack_of_diamonds()),
                    None => k == m,
                },
            decreases m - k,
        {
            if contains_card(&tricks[k].cards, &jd) {
                proof {
                    assert(tricks@.skip(k as int)[0] == tricks@[k as int]);
                }
                break;
            }
            proof {
                assert(tricks@.skip(k as int)[0] == tricks@[k as int]);
                assert(tricks@.skip(k as int).drop_first() =~= tricks@.skip(k + 1));
            }
            k = k + 1;
        }
        proof {
            if k == m {
                assert(tricks@.skip(m as int) =~= Seq::<Trick>::empty());
            }
        }
        if k < m {
            let w = tricks[k].winner;
            let cur = unadjusted[w];
            unadjusted.set(w, cur + 10);
        }
    }
    let ghost su = spec_unadjusted_points(tricks@, n as nat, *rules);
    proof {
        assert(su.len() == n);
        assert(forall|p: int| 0 <= p < n ==> #[trigger] unadjusted@[p] as int == su[p]);
        lemma_find_26_char(su);
    }
    // find the first player whose unadjusted total is 26
    let mut p: usize = 0;
    while p < n
        invariant
            n == rules.num_players,
            p <= n,
            su == spec_unadjusted_points(tricks@, n as nat, *rules),
            su.len() == n,
            unadjusted@.len() == n,
            forall|q: int| 0 <= q < n ==> #[trigger] unadjusted@[q] as int == su[q],
            forall|q: int| 0 <= q < p ==> #[trigger] su[q] != 26,
        decreases n - p,
    {
        if unadjusted[p] == 26 {
            proof {
                lemma_find_26_char(su);
                match spec_find_26(su) {
                    Some(w) => {
                        if w < p { assert(su[w] != 26); }
                        if w > p { assert(su[p as int] != 26); }
                        assert(w == p as int);
                    },
                    None => {
                        assert(su[p as int] != 26);
                        assert(false);
                    },
                }
            }
            return Some(p);
        }
        p = p + 1;
    }
    proof {
        lemma_find_26_char(su);
        match spec_find_26(su) {
            Some(w) => {
                assert(su[w] == 26);
                assert(false);
            },
            None => {},
        }
    }
    None
}

/// Per-player points of a set of completed tricks, with moon shooting
/// settled per the rules.
pub fn points_for_tricks(tricks: &Vec<Trick>, rules: &RuleSet) -> (r: Vec<i32>)
    requires
        tricks@.len() <= 52,
        forall|k: int| 0 <= k < tricks@.len() ==> (#[trigger] tricks@[k]).winner < rules.num_players,
        forall|k: int| 0 <= k < tricks@.len() ==> (#[trigger] tricks@[k]).cards@.len() <= 52,
    ensures
        r@.len() == rules.num_players,
        forall|p: int| 0 <= p < r@.len() ==>
            #[trigger] r@[p] as int == spec_round_points(tricks@, *rules)[p],
{
    let n = rules.num_players;
    let ghost nn = n as nat;
    let jd = rules.jd_minus_10;
    let mut points: Vec<i32> = Vec::new();
    let mut i: usize = 0;
    while i < n
        invariant
            i <= n,
            points@.len() == i,
            forall|p: int| 0 <= p < i ==> #[trigger] points@[p] == 0,
        decreases n - i,
    {
        points.push(0);
        i = i + 1;
    }
    proof {
        assert(tricks@.take(0) =~= Seq::<Trick>::empty());
        assert(forall|p: int| 0 <= p < n ==>
            #[trigger] points@[p] as int == spec_base_points(tricks@.take(0), nn, jd)[p]);
    }
    let m = tricks.len();
    let mut k: usize = 0;
    while k < m
        invariant
            n == rules.num_players,
            nn == n as nat,
            jd == rules.jd_minus_10,
            m == tricks@.len() <= 52,
            k <= m,
            points@.len() == n,
            forall|q: int| 0 <= q < m ==> (#[trigger] tricks@[q]).winner < n,
            forall|q: int| 0 <= q < m ==> (#[trigger] tricks@[q]).cards@.len() <= 52,
            forall|p: int| 0 <= p < n ==>
                #[trigger] points@[p] as int == spec_base_points(tricks@.take(k as int), nn, jd)[p],
        decreases m - k,
    {
        proof {
            assert forall|q: int| 0 <= q < k implies (#[trigger] tricks@.take(k as int)[q]).cards@.len() <= 52
                && (tricks@.take(k as int)[q]).winner < nn by {
                assert(tricks@.take(k as int)[q] == tricks@[q]);
                assert(tricks@[q].winner < n);
                assert(tricks@[q].cards@.len() <= 52);
            }
            lemma_base_points_bound(tricks@.take(k as int), nn, jd);
            lemma_points_bound(tricks@[k as int].cards@, jd);
            assert(tricks@.take(k + 1).drop_last() =~= tricks@.take(k as int));
            assert(tricks@.take(k + 1).last() == tricks@[k as int]);
        }
        let w = tricks[k].winner;
        let tp = points_for_cards(&tricks[k].cards, rules);
        let cur = points[w];
        proof {
            assert(cur as int == spec_base_points(tricks@.take(k as int), nn, jd)[w as int]);
            assert(-676 * 52 <= cur as int <= 676 * 52);
            assert(-676 <= tp as int <= 676);
        }
        points.set(w, cur + tp);
        k = k + 1;
    }
    proof {
        assert(tricks@.take(m as int) =~= tricks@);
        lemma_base_points_bound(tricks@, nn, jd);
    }
    let ghost spec_base = spec_base_points(tricks@, nn, jd);
    if !matches!(rules.moon_shooting, MoonShooting::Disabled) {
        let shooter = moon_shooter(tricks, &points, rules);
        if let Some(sh) = shooter {
            proof {
                lemma_find_26_char(spec_unadjusted_points(tricks@, nn, *rules));
                assert(spec_unadjusted_points(tricks@, nn, *rules).len() == n);
                assert(sh < n);
            }
            let mut p: usize = 0;
            let ghost base = points@;
            while p < n
                invariant
                    n == rules.num_players,
                    p <= n,
                    sh < n,
                    points@.len() == n,
                    base.len() == n,
                    forall|q: int| 0 <= q < n ==> -40000 <= #[trigger] base[q] <= 40000,
                    forall|q: int| p <= q < n ==> #[trigger] points@[q] == base[q],
                    forall|q: int| 0 <= q < p ==>
                        #[trigger] points@[q] == base[q] + (if q == sh { -26 } else { 26 }),
                decreases n - p,
            {
                let cur = points[p];
                if p == sh {
                    points.set(p, cur - 26);
                } else {
                    points.set(p, cur + 26);
                }
                p = p + 1;
            }
            proof {
                let rp = spec_round_points(tricks@, *rules);
                assert(forall|q: int| 0 <= q < n ==> #[trigger] rp[q] == spec_base[q] + (if q == sh { -26int } else { 26int }));
                assert(forall|q: int| 0 <= q < n ==> #[trigger] base[q] as int == spec_base[q]);
            }
            return points;
        }
        proof {
            assert(spec_round_points(tricks@, *rules) == spec_base);
        }
    }
    points
}

/// When the variant is on and a shoot happened, the settlement adds 26
/// to every opponent and takes 26 from the shooter.
pub proof fn lemma_moon_settlement(tricks: Seq<Trick>, rules: RuleSet, sh: int)
    requires
        rules.moon_shooting != MoonShooting::Disabled,
        spec_moon_shooter(tricks, rules.num_players as nat, rules) == Some(sh),
    ensures
        forall|p: int| 0 <= p < rules.num_players ==>
            #[trigger] spec_round_points(tricks, rules)[p]
                == spec_base_points(tricks, rules.num_players as nat, rules.jd_minus_10)[p]
                    + (if p == sh { -26int } else { 26int }),
{
}

/// Whether one card breaks hearts: a heart, or the queen of spades
/// under the `queen_breaks_hearts` variant.
pub open spec fn spec_card_breaks(c: Card, qb: bool) -> bool {
    c.suit == Suit::Hearts || (qb && c == spec_queen_of_spades())
}

pub open spec fn spec_seq_breaks(cards: Seq<Card>, qb: bool) -> bool {
    exists|i: int| 0 <= i < cards.len() && spec_card_breaks(#[trigger] cards[i], qb)
}

/// Hearts are broken once any played card, in a completed trick or the
/// one in progress, breaks them.
pub open spec fn spec_hearts_broken(trick_cards: Seq<Card>, prev: Seq<Trick>, qb: bool) -> bool {
    (exists|k: int| 0 <= k < prev.len() && spec_seq_breaks((#[trigger] prev[k]).cards@, qb))
        || spec_seq_breaks(trick_cards, qb)
}

fn seq_breaks(cards: &Vec<Card>, qb: bool) -> (r: bool)
    ensures
        r == spec_seq_breaks(cards@, qb),
{
    let n = cards.len();
    let mut i: usize = 0;
    while i < n
        invariant
            n == cards@.len(),
            i <= n,
            forall|k: int| 0 <= k < i ==> !spec_card_breaks(#[trigger] cards@[k], qb),
        decreases n - i,
    {
        let c = cards[i];
        if c.suit == Suit::Hearts || (qb && c.rank.value == 12 && c.suit == Suit::Spades) {
            proof {
                assert(spec_card_breaks(cards@[i as int], qb));
            }
            return true;
        }
        i = i + 1;
    }
    false
}

/// Whether a heart (or the queen, under the variant) has been played.
pub fn are_hearts_broken(current_trick: &TrickInProgress, prev_tricks: &Vec<Trick>, rules: &RuleSet) -> (r: bool)
    ensures
        r == spec_hearts_broken(current_trick.cards@, prev_tricks@, rules.queen_breaks_hearts),
{
    let qb = rules.queen_breaks_hearts;
    let n = prev_tricks.len();
    let mut k: usize = 0;
    while k < n
        invariant
            n == prev_tricks@.len(),
            k <= n,
            qb == rules.queen_breaks_hearts,
            forall|q: int| 0 <= q < k ==> !spec_seq_breaks((#[trigger] prev_tricks@[q]).cards@, qb),
        decreases n - k,
    {
        if seq_breaks(&prev_tricks[k].cards, qb) {
            proof {
                assert(spec_seq_breaks((prev_tricks@[k as int]).cards@, qb));
            }
            return true;
        }
        k = k + 1;
    }
    seq_breaks(&current_trick.cards, qb)
}

pub open spec fn spec_filter_suit(hand: Seq<Card>, s: Suit) -> Seq<Card> {
    hand.filter(|c: Card| c.suit == s)
}

pub open spec fn spec_non_points(hand: Seq<Card>, jd: bool) -> Seq<Card> {
    hand.filter(|c: Card| spec_points_for_card(c, jd) <= 0)
}

pub open spec fn spec_non_hearts(hand: Seq<Card>) -> Seq<Card> {
    hand.filter(|c: Card| c.suit != Suit::Hearts)
}

fn filter_suit(hand: &Vec<Card>, s: Suit) -> (r: Vec<Card>)
    ensures
        r@ == spec_filter_suit(hand@, s),
{
    let n = hand.len();
    let mut out: Vec<Card> = Vec::new();
    proof {
        reveal(Seq::filter);
        assert(hand@.take(0) =~= Seq::<Card>::empty());
        assert(out@ =~= spec_filter_suit(hand@.take(0), s));
    }
    let mut i: usize = 0;
    while i < n
        invariant
            n == hand@.len(),
            i <= n,
            out@ == spec_filter_suit(hand@.take(i as int), s),
        decreases n - i,
    {
        proof {
            reveal(Seq::filter);
            assert(hand@.take(i + 1).drop_last() =~= hand@.take(i as int));
            assert(hand@.take(i + 1).last() == hand@[i as int]);
        }
        if hand[i].suit == s {
            out.push(hand[i]);
        }
        i = i + 1;
    }
    proof {
        assert(hand@.take(n as int) =~= hand@);
    }
    out
}

fn filter_non_points(hand: &Vec<Card>, rules: &RuleSet) -> (r: Vec<Card>)
    ensures
        r@ == spec_non_points(hand@, rules.jd_minus_10),
{
    let n = hand.len();
    let mut out: Vec<Card> = Vec::new();
    proof {
        reveal(Seq::filter);
        assert(hand@.take(0) =~= Seq::<Card>::empty());
        assert(out@ =~= spec_non_points(hand@.take(0), rules.jd_minus_10));
    }
    let mut i: usize = 0;
    while i < n
        invariant
            n == hand@.len(),
            i <= n,
            out@ == spec_non_points(hand@.take(i as int), rules.jd_minus_10),
        decreases n - i,
    {
        proof {
            reveal(Seq::filter);
            assert(hand@.take(i + 1).drop_last() =~= hand@.take(i as int));
            assert(hand@.take(i + 1).last() == hand@[i as int]);
        }
        if points_for_card(&hand[i], rules) <= 0 {
            out.push(hand[i]);
        }
        i = i + 1;
    }
    proof {
        assert(hand@.take(n as int) =~= hand@);
    }
    out
}

fn filter_non_hearts(hand: &Vec<Card>) -> (r: Vec<Card>)
    ensures
        r@ == spec_non_hearts(hand@),
{
    let n = hand.len();
    let mut out: Vec<Card> = Vec::new();
    proof {
        reveal(Seq::filter);
        assert(hand@.take(0) =~= Seq::<Card>::empty());
        assert(out@ =~= spec_non_hearts(hand@.take(0)));
    }
    let mut i: usize = 0;
    while i < n
        invariant
            n == hand@.len(),
            i <= n,
            out@ == spec_non_hearts(hand@.take(i as int)),
        decreases n - i,
    {
        proof {
            reveal(Seq::filter);
            assert(hand@.take(i + 1).drop_last() =~= hand@.take(i as int));
            assert(hand@.take(i + 1).last() == hand@[i as int]);
        }
        if hand[i].suit != Suit::Hearts {
            out.push(hand[i]);
        }
        i = i + 1;
    }
    proof {
        assert(hand@.take(n as int) =~= hand@);
    }
    out
}

/// The exact set of cards the player to move may play, as a subsequence
/// of the hand (except the opening, which is the two of clubs alone).
pub open spec fn spec_legal_plays(hand: Seq<Card>, trick_cards: Seq<Card>, prev: Seq<Trick>, rules: RuleSet) -> Seq<Card> {
    if prev.len() == 0 {
        if trick_cards.len() == 0 {
            // the opening play of the round must be the two of clubs
            if hand.contains(spec_two_of_clubs()) { seq![spec_two_of_clubs()] } else { Seq::empty() }
        } else {
            // first trick: follow suit; else no point cards unless allowed or forced
            let sm = spec_filter_suit(hand, trick_cards[0].suit);
            if sm.len() > 0 {
                sm
            } else if !rules.points_on_first_trick && spec_non_points(hand, rules.jd_minus_10).len() > 0 {
                spec_non_points(hand, rules.jd_minus_10)
            } else {
                hand
            }
        }
    } else if trick_cards.len() == 0 {
        // leading: no hearts until broken, unless the hand is all hearts
        if !spec_hearts_broken(trick_cards, prev, rules.queen_breaks_hearts) && spec_non_hearts(hand).len() > 0 {
            spec_non_hearts(hand)
        } else {
            hand
        }
    } else {
        // following: follow suit if possible, else anything
        let sm = spec_filter_suit(hand, trick_cards[0].suit);
        if sm.len() > 0 { sm } else { hand }
    }
}

/// The cards legal to play from `hand` given the trick in progress and
/// the completed tricks of the round.
pub fn legal_plays(hand: &Vec<Card>, current_trick: &TrickInProgress, prev_tricks: &Vec<Trick>, rules: &RuleSet) -> (r: Vec<Card>)
    ensures
        r@ == spec_legal_plays(hand@, current_trick.cards@, prev_tricks@, *rules),
{
    if prev_tricks.len() == 0 {
        if current_trick.cards.len() == 0 {
            let tc = two_of_clubs();
            if contains_card(hand, &tc) {
                let mut out: Vec<Card> = Vec::new();
                out.push(tc);
                proof {
                    assert(out@ =~= seq![spec_two_of_clubs()]);
                }
                out
            } else {
                let out: Vec<Card> = Vec::new();
                proof {
                    assert(out@ =~= Seq::<Card>::empty());
                }
                out
            }
        } else {
            let lead = current_trick.cards[0].suit;
            let suit_matches = filter_suit(hand, lead);
            if suit_matches.len() > 0 {
                suit_matches
            } else if !rules.points_on_first_trick {
                let non_points = filter_non_points(hand, rules);
                if non_points.len() > 0 {
                    non_points
                } else {
                    hand.clone()
                }
            } else {
                hand.clone()
            }
        }
    } else if current_trick.cards.len() == 0 {
        if !are_hearts_broken(current_trick, prev_tricks, rules) {
            let non_hearts = filter_non_hearts(hand);
            if non_hearts.len() > 0 {
                return non_hearts;
            }
            return hand.clone();
        }
        hand.clone()
    } else {
        let lead = current_trick.cards[0].suit;
        let suit_matches = filter_suit(hand, lead);
        if suit_matches.len() > 0 {
            suit_matches
        } else {
            hand.clone()
        }
    }
}

/// Every legal play comes out of the hand.
pub proof fn lemma_legal_plays_subset(hand: Seq<Card>, trick_cards: Seq<Card>, prev: Seq<Trick>, rules: RuleSet)
    ensures
        forall|c: Card| spec_legal_plays(hand, trick_cards, prev, rules).contains(c)
            ==> #[trigger] hand.contains(c),
{
    broadcast use vstd::seq_lib::group_seq_lib_default;
    let legal = spec_legal_plays(hand, trick_cards, prev, rules);
    assert forall|c: Card| legal.contains(c) implies hand.contains(c) by {
        if prev.len() == 0 && trick_cards.len() == 0 {
            assert(hand.contains(spec_two_of_clubs()));
            assert(c == spec_two_of_clubs());
        } else {
            if legal != hand {
                let i = choose|i: int| 0 <= i < legal.len() && legal[i] == c;
                if legal == spec_filter_suit(hand, trick_cards[0].suit) {
                    hand.lemma_filter_contains_rev(|x: Card| x.suit == trick_cards[0].suit, c);
                } else if legal == spec_non_points(hand, rules.jd_minus_10) {
                    hand.lemma_filter_contains_rev(|x: Card| spec_points_for_card(x, rules.jd_minus_10) <= 0, c);
                } else if legal == spec_non_hearts(hand) {
                    hand.lemma_filter_contains_rev(|x: Card| x.suit != Suit::Hearts, c);
                }
            }
        }
    }
}

/// A hand without duplicates never offers the same play twice.
pub proof fn lemma_legal_plays_no_dup(hand: Seq<Card>, trick_cards: Seq<Card>, prev: Seq<Trick>, rules: RuleSet)
    requires
        hand.no_duplicates(),
    ensures
        spec_legal_plays(hand, trick_cards, prev, rules).no_duplicates(),
{
    let legal = spec_legal_plays(hand, trick_cards, prev, rules);
    if prev.len() == 0 && trick_cards.len() == 0 {
        assert(legal.no_duplicates());
    } else if legal != hand {
        if legal == spec_filter_suit(hand, trick_cards[0].suit) {
            lemma_filter_no_dup(hand, |c: Card| c.suit == trick_cards[0].suit);
        }
        if legal == spec_non_points(hand, rules.jd_minus_10) {
            lemma_filter_no_dup(hand, |c: Card| spec_points_for_card(c, rules.jd_minus_10) <= 0);
        }
        if legal == spec_non_hearts(hand) {
            lemma_filter_no_dup(hand, |c: Card| c.suit != Suit::Hearts);
        }
    }
}

/// Somebody with cards always has a legal play, provided that at the
/// opening of the round the player to move holds the two of clubs.
pub proof fn lemma_legal_plays_nonempty(hand: Seq<Card>, trick_cards: Seq<Card>, prev: Seq<Trick>, rules: RuleSet)
    requires
        hand.len() > 0,
        prev.len() == 0 && trick_cards.len() == 0 ==> hand.contains(spec_two_of_clubs()),
    ensures
        spec_legal_plays(hand, trick_cards, prev, rules).len() > 0,
{
}

/// The highest card of the led suit in a non-empty trick.
pub fn highest_in_trick(cards: &Vec<Card>) -> (r: &Card)
    requires
        cards@.len() >= 1,
    ensures
        *r == cards@[spec_trick_winner_index(cards@)],
        cards@.contains(*r),
        r.suit == cards@[0].suit,
        forall|j: int| 0 <= j < cards@.len() && (#[trigger] cards@[j]).suit == cards@[0].suit
            ==> cards@[j].rank.value <= r.rank.value,
{
    let i = trick_winner_index(cards);
    &cards[i]
}

/// One seat at the table: the current hand and the cards chosen to pass
/// out and received in.
#[derive(Debug, Clone)]
pub struct Player {
    pub hand: Vec<Card>,
    pub passed_cards: Vec<Card>,
    pub received_cards: Vec<Card>,
}

impl Player {
    pub fn new(hand: &Vec<Card>) -> (p: Player)
        ensures
            p.hand@ == hand@,
            p.passed_cards@ == Seq::<Card>::empty(),
            p.received_cards@ == Seq::<Card>::empty(),
    {
        Player { hand: hand.clone(), passed_cards: Vec::new(), received_cards: Vec::new() }
    }
}

#[derive(Clone, Copy, Debug, Eq, PartialEq, Structural)]
pub enum RoundStatus {
    Passing,
    Playing,
}

/// The seat offset of player `p` relative to the trick leader.
pub open spec fn spec_seat_pos(p: int, leader: int, n: int) -> int {
    (p - leader + n) % n
}

/// One round of play, from the deal through the pass to the last trick.
#[derive(Debug, Clone)]
pub struct Round {
    pub rules: RuleSet,
    pub players: Vec<Player>,
    pub initial_scores: Vec<i32>,
    pub pass_direction: u32,
    pub num_passed_cards: u32,
    pub status: RoundStatus,
    pub current_trick: TrickInProgress,
    pub prev_tricks: Vec<Trick>,
}

impl Round {
    pub open spec fn spec_n(self) -> int {
        self.rules.num_players as int
    }

    /// Structural soundness of a round, kept by every transition.
    pub open spec fn wf(self) -> bool {
        &&& 2 <= self.rules.num_players <= 52
        &&& self.players@.len() == self.rules.num_players
        &&& self.initial_scores@.len() == self.rules.num_players
        &&& (self.pass_direction as int) < self.spec_n()
        &&& (self.current_trick.leader as int) < self.spec_n()
        &&& self.current_trick.cards@.len() < self.spec_n()
        &&& forall|p: int| 0 <= p < self.players@.len()
            ==> (#[trigger] self.players@[p]).hand@.no_duplicates()
        &&& forall|k: int| 0 <= k < self.prev_tricks@.len()
            ==> ((#[trigger] self.prev_tricks@[k]).winner as int) < self.spec_n()
                && self.prev_tricks@[k].cards@.len() == self.rules.num_players
        &&& (self.status == RoundStatus::Passing ==> {
            &&& self.current_trick.cards@.len() == 0
            &&& self.prev_tricks@.len() == 0
            &&& self.pass_direction >= 1
            &&& forall|p: int| 0 <= p < self.players@.len() ==> {
                &&& (#[trigger] self.players@[p]).passed_cards@.no_duplicates()
                &&& forall|i: int| 0 <= i < self.players@[p].passed_cards@.len()
                    ==> self.players@[p].hand@.contains(#[trigger] self.players@[p].passed_cards@[i])
            }
        })
    }

    /// No card sits in two hands at once.
    pub open spec fn hands_disjoint(self) -> bool {
        forall|p: int, q: int, c: Card|
            0 <= p < self.players@.len() && 0 <= q < self.players@.len() && p != q
                && #[trigger] self.players@[p].hand@.contains(c)
                ==> !(#[trigger] self.players@[q].hand@.contains(c))
    }

    pub open spec fn spec_current_player_index(self) -> int {
        (self.current_trick.leader + self.current_trick.cards@.len()) % self.spec_n()
    }

    /// Whether player `p` has already contributed to the trick in progress.
    pub open spec fn spec_played_in_current(self, p: int) -> bool {
        spec_seat_pos(p, self.current_trick.leader as int, self.spec_n())
            < self.current_trick.cards@.len()
    }

    /// Hand sizes agree with how far the play has come: four players and
    /// thirteen tricks, each hand down one card per completed trick and
    /// one more once its owner has played to the open trick.
    pub open spec fn balanced(self) -> bool {
        &&& self.status == RoundStatus::Playing
        &&& self.rules.num_players == 4
        &&& self.prev_tricks@.len() <= 13
        &&& forall|p: int| 0 <= p < 4 ==> (#[trigger] self.players@[p]).hand@.len()
            == 13 - self.prev_tricks@.len() - (if self.spec_played_in_current(p) { 1int } else { 0int })
    }

    /// At the opening play of a round, the player to move holds the two
    /// of clubs.
    pub open spec fn opening_ok(self) -> bool {
        self.prev_tricks@.len() == 0 && self.current_trick.cards@.len() == 0
            ==> self.players@[self.spec_current_player_index()].hand@.contains(spec_two_of_clubs())
    }

    pub open spec fn spec_is_over(self) -> bool {
        forall|p: int| 0 <= p < self.players@.len()
            ==> (#[trigger] self.players@[p]).hand@.len() == 0
    }

    pub fn is_over(&self) -> (r: bool)
        ensures
            r == self.spec_is_over(),
    {
        let n = self.players.len();
        let mut i: usize = 0;
        while i < n
            invariant
                n == self.players@.len(),
                i <= n,
                forall|p: int| 0 <= p < i ==> (#[trigger] self.players@[p]).hand@.len() == 0,
            decreases n - i,
        {
            if self.players[i].hand.len() > 0 {
                return false;
            }
            i = i + 1;
        }
        true
    }

    pub fn current_player_index(&self) -> (r: usize)
        requires
            self.wf(),
        ensures
            r == self.spec_current_player_index(),
            r < self.rules.num_players,
    {
        let ct = &self.current_trick;
        (ct.leader + ct.cards.len()) % self.rules.num_players
    }

    pub fn current_player(&self) -> (r: &Player)
        requires
            self.wf(),
        ensures
            *r == self.players@[self.spec_current_player_index()],
    {
        let i = self.current_player_index();
        &self.players[i]
    }

    pub fn legal_plays(&self) -> (r: Vec<Card>)
        requires
            self.wf(),
        ensures
            r@ == spec_legal_plays(
                self.players@[self.spec_current_player_index()].hand@,
                self.current_trick.cards@,
                self.prev_tricks@,
                self.rules,
            ),
    {
        let p = self.current_player();
        legal_plays(&p.hand, &self.current_trick, &self.prev_tricks, &self.rules)
    }

    pub fn are_hearts_broken(&self) -> (r: bool)
        ensures
            r == spec_hearts_broken(self.current_trick.cards@, self.prev_tricks@, self.rules.queen_breaks_hearts),
    {
        are_hearts_broken(&self.current_trick, &self.prev_tricks, &self.rules)
    }

    pub fn points_taken(&self) -> (r: Vec<i32>)
        requires
            self.wf(),
            self.prev_tricks@.len() <= 52,
        ensures
            r@.len() == self.rules.num_players,
            forall|p: int| 0 <= p < r@.len() ==>
                #[trigger] r@[p] as int == spec_round_points(self.prev_tricks@, self.rules)[p],
    {
        points_for_tricks(&self.prev_tricks, &self.rules)
    }
}

/// The seat offset of the player who sits `len` seats past the leader
/// is `len` itself.
pub proof fn lemma_seat_roundtrip(leader: int, len: int, n: int)
    requires
        0 <= leader < n,
        0 <= len < n,
    ensures
        0 <= (leader + len) % n < n,
        spec_seat_pos((leader + len) % n, leader, n) == len,
    decreases n,
{
    let s = leader + len;
    vstd::arithmetic::div_mod::lemma_mod_bound(s, n);
    if s < n {
        vstd::arithmetic::div_mod::lemma_small_mod(s as nat, n as nat);
        assert((len + n) % n == len % n) by {
            vstd::arithmetic::div_mod::lemma_mod_add_multiples_vanish(len, n);
        }
        vstd::arithmetic::div_mod::lemma_small_mod(len as nat, n as nat);
    } else {
        assert((s - n) % n == s % n) by {
            vstd::arithmetic::div_mod::lemma_mod_sub_multiples_vanish(s, n);
        }
        vstd::arithmetic::div_mod::lemma_small_mod((s - n) as nat, n as nat);
        assert(s % n == s - n);
        vstd::arithmetic::div_mod::lemma_small_mod(len as nat, n as nat);
    }
}

/// Total number of cards still held across all hands.
pub open spec fn spec_hands_total(players: Seq<Player>) -> int
    decreases players.len(),
{
    if players.len() == 0 {
        0
    } else {
        spec_hands_total(players.drop_last()) + players.last().hand@.len()
    }
}

proof fn lemma_hands_total_update(players: Seq<Player>, i: int, p: Player)
    requires
        0 <= i < players.len(),
    ensures
        spec_hands_total(players.update(i, p))
            == spec_hands_total(players) - players[i].hand@.len() + p.hand@.len(),
    decreases players.len(),
{
    let upd = players.update(i, p);
    if i == players.len() - 1 {
        assert(upd.drop_last() =~= players.drop_last());
        assert(upd.last() == p);
    } else {
        assert(upd.drop_last() =~= players.drop_last().update(i, p));
        assert(upd.last() == players.last());
        lemma_hands_total_update(players.drop_last(), i, p);
    }
}

pub proof fn lemma_hands_total_lower(players: Seq<Player>, i: int)
    requires
        0 <= i < players.len(),
    ensures
        spec_hands_total(players) >= players[i].hand@.len(),
        spec_hands_total(players) >= 0,
    decreases players.len(),
{
    assert(spec_hands_total(players)
        == spec_hands_total(players.drop_last()) + players.last().hand@.len());
    if i == players.len() - 1 {
        if players.len() > 1 {
            lemma_hands_total_lower(players.drop_last(), 0);
        }
    } else {
        lemma_hands_total_lower(players.drop_last(), i);
        assert(players.drop_last()[i] == players[i]);
    }
}

/// What remains after a removal was already there.
proof fn lemma_remove_subset(s: Seq<Card>, i: int)
    requires
        0 <= i < s.len(),
    ensures
        forall|x: Card| #[trigger] s.remove(i).contains(x) ==> s.contains(x),
{
    let r = s.remove(i);
    assert forall|x: Card| r.contains(x) implies s.contains(x) by {
        let j = choose|j: int| 0 <= j < r.len() && r[j] == x;
        let j0 = if j < i { j } else { j + 1 };
        assert(s[j0] == x);
    }
}

/// Removing an element keeps a sequence duplicate-free.
proof fn lemma_remove_no_dup(s: Seq<Card>, i: int)
    requires
        s.no_duplicates(),
        0 <= i < s.len(),
    ensures
        s.remove(i).no_duplicates(),
{
    let r = s.remove(i);
    assert forall|a: int, b: int| 0 <= a < b < r.len() implies r[a] != r[b] by {
        let a0 = if a < i { a } else { a + 1 };
        let b0 = if b < i { b } else { b + 1 };
        assert(r[a] == s[a0]);
        assert(r[b] == s[b0]);
    }
}

impl Round {
    /// The exact relation between a round and its successor after a
    /// legal call of `play_card`.
    pub open spec fn spec_play_result(pre: Round, post: Round, c: Card) -> bool {
        let n = pre.spec_n();
        let cpi = pre.spec_current_player_index();
        let oldhand = pre.players@[cpi].hand@;
        let completed = pre.current_trick.cards@.len() + 1 == n;
        let done = pre.current_trick.cards@.push(c);
        let w = (pre.current_trick.leader + spec_trick_winner_index(done)) % n;
        &&& post.rules == pre.rules
        &&& post.initial_scores == pre.initial_scores
        &&& post.pass_direction == pre.pass_direction
        &&& post.num_passed_cards == pre.num_passed_cards
        &&& post.status == pre.status
        &&& post.players@.len() == pre.players@.len()
        &&& forall|p: int| 0 <= p < pre.players@.len() && p != cpi
            ==> #[trigger] post.players@[p] == pre.players@[p]
        &&& post.players@[cpi].hand@ == oldhand.remove(oldhand.index_of(c))
        &&& post.players@[cpi].passed_cards == pre.players@[cpi].passed_cards
        &&& post.players@[cpi].received_cards == pre.players@[cpi].received_cards
        &&& if completed {
            &&& post.prev_tricks@.drop_last() == pre.prev_tricks@
            &&& post.prev_tricks@.len() == pre.prev_tricks@.len() + 1
            &&& post.prev_tricks@.last().leader == pre.current_trick.leader
            &&& post.prev_tricks@.last().cards@ == done
            &&& post.prev_tricks@.last().winner as int == w
            &&& post.current_trick.leader as int == w
            &&& post.current_trick.cards@.len() == 0
        } else {
            &&& post.prev_tricks@ == pre.prev_tricks@
            &&& post.current_trick.leader == pre.current_trick.leader
            &&& post.current_trick.cards@ == done
        }
    }

    /// Plays a card for the player to move: the card leaves their hand
    /// and joins the trick, and a full trick is resolved to its winner,
    /// who leads the next one. Fails, changing nothing, when the player
    /// does not hold the card.
    pub fn play_card(&mut self, card: &Card) -> (r: Result<(), ()>)
        requires
            old(self).wf(),
            old(self).status == RoundStatus::Playing,
        ensures
            final(self).wf(),
            r is Ok <==> old(self).players@[old(self).spec_current_player_index()].hand@.contains(*card),
            r is Err ==> *final(self) == *old(self),
            r is Ok ==> Round::spec_play_result(*old(self), *final(self), *card),
            r is Ok ==> spec_hands_total(final(self).players@) == spec_hands_total(old(self).players@) - 1,
            old(self).hands_disjoint() ==> final(self).hands_disjoint(),
            r is Ok && old(self).balanced() ==> final(self).balanced(),
            r is Ok ==> final(self).opening_ok(),
    {
        let ghost pre = *self;
        let n = self.players.len();
        let cpi = self.current_player_index();
        // locate the card in the hand of the player to move
        let hand_len = self.players[cpi].hand.len();
        let mut idx: usize = 0;
        let mut found = false;
        while idx < hand_len
            invariant
                cpi < self.players@.len(),
                hand_len == self.players@[cpi as int].hand@.len(),
                idx <= hand_len,
                found ==> idx < hand_len && self.players@[cpi as int].hand@[idx as int] == *card,
                !found ==> forall|k: int| 0 <= k < idx ==> self.players@[cpi as int].hand@[k] != *card,
            ensures
                cpi < self.players@.len(),
                hand_len == self.players@[cpi as int].hand@.len(),
                idx <= hand_len,
                found ==> idx < hand_len && self.players@[cpi as int].hand@[idx as int] == *card,
                !found ==> !self.players@[cpi as int].hand@.contains(*card),
            decreases hand_len - idx,
        {
            let c = self.players[cpi].hand[idx];
            if c.rank.value == card.rank.value && c.suit == card.suit {
                proof {
                    assert(self.players@[cpi as int].hand@[idx as int] == *card);
                }
                found = true;
                break;
            }
            idx = idx + 1;
        }
        if !found {
            return Err(());
        }
        let ghost oldhand = self.players@[cpi as int].hand@;
        proof {
            assert(oldhand.contains(*card));
            // the found index is the unique index of the card
            let j = oldhand.index_of(*card);
            assert(oldhand[j] == *card);
            assert(j == idx as int);
        }
        // remove the card from the hand and put it on the trick
        let mut pl = self.players.remove(cpi);
        pl.hand.remove(idx);
        self.players.insert(cpi, pl);
        proof {
            assert(self.players@ =~= pre.players@.update(cpi as int, self.players@[cpi as int]));
            lemma_hands_total_update(pre.players@, cpi as int, self.players@[cpi as int]);
            lemma_remove_no_dup(oldhand, idx as int);
        }
        self.current_trick.cards.push(*card);
        if self.current_trick.cards.len() == n {
            let wi = trick_winner_index(&self.current_trick.cards);
            let w = (self.current_trick.leader + wi) % n;
            let t = Trick {
                leader: self.current_trick.leader,
                cards: self.current_trick.cards.clone(),
                winner: w,
            };
            self.prev_tricks.push(t);
            self.current_trick = TrickInProgress::new(w);
            proof {
                assert(self.prev_tricks@.drop_last() =~= pre.prev_tricks@);
                lemma_play_balanced_completed(pre, *self, *card);
            }
        } else {
            proof {
                lemma_play_balanced_open(pre, *self, *card);
            }
        }
        proof {
            if pre.hands_disjoint() {
                lemma_remove_subset(oldhand, oldhand.index_of(*card));
                assert forall|p: int, q: int, cc: Card|
                    0 <= p < self.players@.len() && 0 <= q < self.players@.len() && p != q
                        && #[trigger] self.players@[p].hand@.contains(cc)
                    implies !(#[trigger] self.players@[q].hand@.contains(cc)) by {
                    assert(pre.players@[p].hand@.contains(cc));
                    if pre.players@[q].hand@.contains(cc) && q != cpi as int {
                        assert(false);
                    }
                }
            }
        }
        Ok(())
    }
}

/// Balance bookkeeping for a play that fills the trick: every hand is
/// now one card short per completed trick.
proof fn lemma_play_balanced_completed(pre: Round, post: Round, c: Card)
    requires
        pre.wf(),
        Round::spec_play_result(pre, post, c),
        pre.players@[pre.spec_current_player_index()].hand@.contains(c),
        pre.current_trick.cards@.len() + 1 == pre.spec_n(),
    ensures
        pre.balanced() ==> post.balanced(),
{
    if pre.balanced() {
        let n = pre.spec_n();
        let leader = pre.current_trick.leader as int;
        let len = pre.current_trick.cards@.len() as int;
        let cpi = pre.spec_current_player_index();
        lemma_seat_roundtrip(leader, len, n);
        assert(spec_seat_pos(cpi, leader, n) == len);
        assert(!pre.spec_played_in_current(cpi));
        assert(post.prev_tricks@.len() == pre.prev_tricks@.len() + 1);
        assert forall|p: int| 0 <= p < 4 implies (#[trigger] post.players@[p]).hand@.len()
            == 13 - post.prev_tricks@.len()
                - (if post.spec_played_in_current(p) { 1int } else { 0int }) by {
            assert(!post.spec_played_in_current(p)) by {
                vstd::arithmetic::div_mod::lemma_mod_bound(p - (post.current_trick.leader as int) + n, n);
            }
            if p == cpi {
                assert(post.players@[p].hand@.len() == pre.players@[p].hand@.len() - 1);
            } else {
                lemma_seat_pos_inverse(p, leader, n);
                let pos = spec_seat_pos(p, leader, n);
                // everyone else had already played to this trick
                assert(pos != len) by {
                    if pos == len {
                        lemma_seat_roundtrip(leader, len, n);
                        assert((leader + pos) % n == p);
                        assert((leader + len) % n == cpi);
                    }
                }
                assert(pre.spec_played_in_current(p));
                assert(post.players@[p].hand@.len() == pre.players@[p].hand@.len());
            }
        }
    }
}

/// Balance bookkeeping for a play that leaves the trick open: only the
/// player to move loses a card, and they now count as having played.
proof fn lemma_play_balanced_open(pre: Round, post: Round, c: Card)
    requires
        pre.wf(),
        Round::spec_play_result(pre, post, c),
        pre.players@[pre.spec_current_player_index()].hand@.contains(c),
        pre.current_trick.cards@.len() + 1 < pre.spec_n(),
    ensures
        pre.balanced() ==> post.balanced(),
{
    if pre.balanced() {
        let n = pre.spec_n();
        let leader = pre.current_trick.leader as int;
        let len = pre.current_trick.cards@.len() as int;
        let cpi = pre.spec_current_player_index();
        lemma_seat_roundtrip(leader, len, n);
        assert(spec_seat_pos(cpi, leader, n) == len);
        assert forall|p: int| 0 <= p < 4 implies (#[trigger] post.players@[p]).hand@.len()
            == 13 - post.prev_tricks@.len()
                - (if post.spec_played_in_current(p) { 1int } else { 0int }) by {
            lemma_seat_pos_inverse(p, leader, n);
            let pos = spec_seat_pos(p, leader, n);
            if p == cpi {
                assert(pos == len);
                assert(post.spec_played_in_current(p));
                assert(post.players@[p].hand@.len() == pre.players@[p].hand@.len() - 1);
            } else {
                assert(pos != len) by {
                    if pos == len {
                        assert((leader + pos) % n == p);
                        assert((leader + len) % n == cpi);
                    }
                }
                assert(post.spec_played_in_current(p) == pre.spec_played_in_current(p));
                assert(post.players@[p].hand@.len() == pre.players@[p].hand@.len());
            }
        }
    }
}

/// The player currently holding a card.
fn find_card(players: &Vec<Player>, target: &Card) -> (r: usize)
    requires
        exists|p: int| 0 <= p < players@.len() && (#[trigger] players@[p]).hand@.contains(*target),
    ensures
        r < players@.len(),
        players@[r as int].hand@.contains(*target),
{
    let n = players.len();
    let mut i: usize = 0;
    while i < n
        invariant
            n == players@.len(),
            i <= n,
            exists|p: int| 0 <= p < players@.len() && (#[trigger] players@[p]).hand@.contains(*target),
            forall|p: int| 0 <= p < i ==> !(#[trigger] players@[p]).hand@.contains(*target),
        decreases n - i,
    {
        if contains_card(&players[i].hand, target) {
            return i;
        }
        i = i + 1;
    }
    proof {
        assert(false);
    }
    0
}

impl Round {
    /// Deals the deck out: four hands of thirteen in deck order, the
    /// holder of the two of clubs to lead, and the round passing first
    /// unless the pass direction is zero.
    pub fn deal(deck: &Deck, rules: &RuleSet, scores: &Vec<i32>, pass_direction: u32) -> (r: Round)
        requires
            deck.cards@.len() == 52,
            deck.cards@.no_duplicates(),
            deck.cards@.contains(spec_two_of_clubs()),
            rules.num_players == 4,
            scores@.len() == 4,
            pass_direction >= 1 ==> pass_direction < 4,
        ensures
            r.wf(),
            r.hands_disjoint(),
            spec_rules_eq(r.rules, *rules),
            r.initial_scores@ == scores@,
            r.pass_direction == pass_direction,
            r.num_passed_cards == 3,
            r.status == (if pass_direction == 0 { RoundStatus::Playing } else { RoundStatus::Passing }),
            r.prev_tricks@.len() == 0,
            r.current_trick.cards@.len() == 0,
            forall|i: int| 0 <= i < 4 ==> (#[trigger] r.players@[i]).hand@
                == deck.cards@.subrange(13 * i, 13 * (i + 1)),
            forall|i: int| 0 <= i < 4 ==> (#[trigger] r.players@[i]).passed_cards@ == Seq::<Card>::empty(),
            forall|i: int| 0 <= i < 4 ==> (#[trigger] r.players@[i]).received_cards@ == Seq::<Card>::empty(),
            r.players@[r.current_trick.leader as int].hand@.contains(spec_two_of_clubs()),
            r.opening_ok(),
            pass_direction == 0 ==> r.balanced(),
    {
        let mut players: Vec<Player> = Vec::new();
        let mut i: usize = 0;
        while i < 4
            invariant
                deck.cards@.len() == 52,
                i <= 4,
                players@.len() == i,
                forall|p: int| 0 <= p < i ==> (#[trigger] players@[p]).hand@
                    == deck.cards@.subrange(13 * p, 13 * (p + 1)),
                forall|p: int| 0 <= p < i ==> (#[trigger] players@[p]).passed_cards@ == Seq::<Card>::empty(),
                forall|p: int| 0 <= p < i ==> (#[trigger] players@[p]).received_cards@ == Seq::<Card>::empty(),
            decreases 4 - i,
        {
            let mut hand: Vec<Card> = Vec::new();
            let start = 13 * i;
            let mut j: usize = start;
            while j < start + 13
                invariant
                    deck.cards@.len() == 52,
                    i <= 3,
                    start == 13 * i,
                    start <= j <= start + 13,
                    hand@ == deck.cards@.subrange(start as int, j as int),
                decreases start + 13 - j,
            {
                proof {
                    assert(deck.cards@.subrange(start as int, j + 1)
                        =~= deck.cards@.subrange(start as int, j as int).push(deck.cards@[j as int]));
                }
                hand.push(deck.cards[j]);
                j = j + 1;
            }
            players.push(Player { hand, passed_cards: Vec::new(), received_cards: Vec::new() });
            i = i + 1;
        }
        proof {
            // each hand is free of duplicates, and no card is in two hands
            assert forall|p: int| 0 <= p < 4 implies (#[trigger] players@[p]).hand@.no_duplicates() by {
                let h = players@[p].hand@;
                assert forall|a: int, b: int| 0 <= a < b < h.len() implies h[a] != h[b] by {
                    assert(h[a] == deck.cards@[13 * p + a]);
                    assert(h[b] == deck.cards@[13 * p + b]);
                }
            }
            assert forall|p: int, q: int, c: Card|
                0 <= p < 4 && 0 <= q < 4 && p != q && #[trigger] players@[p].hand@.contains(c)
                implies !(#[trigger] players@[q].hand@.contains(c)) by {
                let a = choose|a: int| 0 <= a < players@[p].hand@.len() && players@[p].hand@[a] == c;
                if players@[q].hand@.contains(c) {
                    let b = choose|b: int| 0 <= b < players@[q].hand@.len() && players@[q].hand@[b] == c;
                    assert(deck.cards@[13 * p + a] == c);
                    assert(deck.cards@[13 * q + b] == c);
                    assert(13 * p + a != 13 * q + b);
                }
            }
            // the two of clubs sits in the hand of the player at its deck position
            let k = choose|k: int| 0 <= k < 52 && deck.cards@[k] == spec_two_of_clubs();
            let p = k / 13;
            vstd::arithmetic::div_mod::lemma_fundamental_div_mod(k, 13);
            vstd::arithmetic::div_mod::lemma_mod_bound(k, 13);
            assert(0 <= p < 4) by {
                vstd::arithmetic::div_mod::lemma_div_pos_is_pos(k, 13);
            }
            assert(players@[p].hand@[k - 13 * p] == spec_two_of_clubs());
            assert(players@[p].hand@.contains(spec_two_of_clubs()));
        }
        let tc = two_of_clubs();
        let current_player_index = find_card(&players, &tc);
        let status = if pass_direction == 0 { RoundStatus::Playing } else { RoundStatus::Passing };
        let r = Round {
            rules: rules.clone(),
            players,
            initial_scores: scores.clone(),
            num_passed_cards: 3,
            pass_direction,
            status,
            current_trick: TrickInProgress::new(current_player_index),
            prev_tricks: Vec::new(),
        };
        proof {
            assert(r.spec_current_player_index() == r.current_trick.leader as int) by {
                vstd::arithmetic::div_mod::lemma_small_mod(r.current_trick.leader as nat, 4);
            }
            if pass_direction == 0 {
                assert forall|p: int| 0 <= p < 4 implies (#[trigger] r.players@[p]).hand@.len()
                    == 13 - r.prev_tricks@.len()
                        - (if r.spec_played_in_current(p) { 1int } else { 0int }) by {
                    vstd::arithmetic::div_mod::lemma_mod_bound(p - (r.current_trick.leader as int) + 4, 4);
                }
            }
        }
        r
    }

    /// Whether the given cards are an acceptable pass selection for the
    /// player: exactly the required number, every one in their hand.
    pub fn can_pass_cards(&self, player_index: usize, cards: &Vec<Card>) -> (r: bool)
        requires
            player_index < self.players@.len(),
        ensures
            r == (cards@.len() == self.num_passed_cards
                && forall|i: int| 0 <= i < cards@.len()
                    ==> self.players@[player_index as int].hand@.contains(#[trigger] cards@[i])),
    {
        if cards.len() != (self.num_passed_cards as usize) {
            return false;
        }
        let m = cards.len();
        let mut i: usize = 0;
        while i < m
            invariant
                player_index < self.players@.len(),
                m == cards@.len(),
                i <= m,
                forall|k: int| 0 <= k < i
                    ==> self.players@[player_index as int].hand@.contains(#[trigger] cards@[k]),
            decreases m - i,
        {
            if !contains_card(&self.players[player_index].hand, &cards[i]) {
                return false;
            }
            i = i + 1;
        }
        true
    }

    /// Records the player's pass selection, replacing any earlier one.
    pub fn set_passed_cards_for_player(&mut self, player_index: usize, cards: &Vec<Card>)
        requires
            old(self).wf(),
            old(self).status == RoundStatus::Passing,
            player_index < old(self).players@.len(),
            cards@.len() == old(self).num_passed_cards,
            cards@.no_duplicates(),
            forall|i: int| 0 <= i < cards@.len()
                ==> old(self).players@[player_index as int].hand@.contains(#[trigger] cards@[i]),
        ensures
            final(self).wf(),
            old(self).hands_disjoint() ==> final(self).hands_disjoint(),
            final(self).players@[player_index as int].passed_cards@ == cards@,
            final(self).players@.len() == old(self).players@.len(),
            forall|p: int| 0 <= p < old(self).players@.len() && p != player_index
                ==> #[trigger] final(self).players@[p] == old(self).players@[p],
            final(self).players@[player_index as int].hand == old(self).players@[player_index as int].hand,
            final(self).players@[player_index as int].received_cards
                == old(self).players@[player_index as int].received_cards,
            final(self).rules == old(self).rules,
            final(self).status == old(self).status,
            final(self).num_passed_cards == old(self).num_passed_cards,
            final(self).pass_direction == old(self).pass_direction,
            final(self).initial_scores == old(self).initial_scores,
            final(self).current_trick == old(self).current_trick,
            final(self).prev_tricks == old(self).prev_tricks,
    {
        let ghost pre = *self;
        let mut pl = self.players.remove(player_index);
        pl.passed_cards = cards.clone();
        self.players.insert(player_index, pl);
        proof {
            assert(self.players@ =~= pre.players@.update(player_index as int, self.players@[player_index as int]));
        }
    }

    /// Whether every player has selected the required number of cards.
    pub fn ready_to_pass_cards(&self) -> (r: bool)
        ensures
            r == (self.status == RoundStatus::Passing
                && forall|p: int| 0 <= p < self.players@.len()
                    ==> (#[trigger] self.players@[p]).passed_cards@.len() == self.num_passed_cards),
    {
        if !matches!(self.status, RoundStatus::Passing) {
            return false;
        }
        let n = self.players.len();
        let mut i: usize = 0;
        while i < n
            invariant
                n == self.players@.len(),
                i <= n,
                forall|p: int| 0 <= p < i
                    ==> (#[trigger] self.players@[p]).passed_cards@.len() == self.num_passed_cards,
            decreases n - i,
        {
            if self.players[i].passed_cards.len() != (self.num_passed_cards as usize) {
                return false;
            }
            i = i + 1;
        }
        true
    }
}

/// A filter of a duplicate-free sequence is duplicate-free.
pub proof fn lemma_filter_no_dup(h: Seq<Card>, pred: spec_fn(Card) -> bool)
    requires
        h.no_duplicates(),
    ensures
        h.filter(pred).no_duplicates(),
    decreases h.len(),
{
    reveal(Seq::filter);
    if h.len() > 0 {
        let rest = h.drop_last();
        lemma_filter_no_dup(rest, pred);
        if pred(h.last()) {
            assert(!rest.filter(pred).contains(h.last())) by {
                if rest.filter(pred).contains(h.last()) {
                    rest.lemma_filter_contains_rev(pred, h.last());
                    assert(rest.contains(h.last()));
                    let j = choose|j: int| 0 <= j < rest.len() && rest[j] == h.last();
                    assert(h[j] == h[h.len() - 1]);
                }
            }
            assert(h.filter(pred) == rest.filter(pred).push(h.last()));
        }
    }
}

/// Filtering a selection out of a duplicate-free sequence shortens it
/// by exactly the size of the selection.
pub proof fn lemma_filter_out_len(h: Seq<Card>, p: Seq<Card>)
    requires
        h.no_duplicates(),
        p.no_duplicates(),
        forall|i: int| 0 <= i < p.len() ==> h.contains(#[trigger] p[i]),
    ensures
        h.filter(|c: Card| !p.contains(c)).len() == h.len() - p.len(),
{
    broadcast use vstd::seq_lib::group_seq_properties;

    let pred = |c: Card| !p.contains(c);
    let kept = h.filter(pred);
    lemma_filter_no_dup(h, pred);
    kept.unique_seq_to_set();
    h.unique_seq_to_set();
    p.unique_seq_to_set();
    assert(kept.to_set() =~= h.to_set().difference(p.to_set())) by {
        assert forall|c: Card| kept.to_set().contains(c)
            implies h.to_set().contains(c) && !p.to_set().contains(c) by {
            h.lemma_filter_contains_rev(pred, c);
            let j = choose|j: int| 0 <= j < kept.len() && kept[j] == c;
            h.lemma_filter_pred(pred, j);
        }
        assert forall|c: Card| h.to_set().contains(c) && !p.to_set().contains(c)
            implies kept.to_set().contains(c) by {
            let j = choose|j: int| 0 <= j < h.len() && h[j] == c;
            h.lemma_filter_contains(pred, j);
        }
    }
    assert(p.to_set() =~= h.to_set().intersect(p.to_set())) by {
        assert forall|c: Card| p.to_set().contains(c) implies h.to_set().contains(c) by {
            let j = choose|j: int| 0 <= j < p.len() && p[j] == c;
            assert(h.contains(p[j]));
        }
    }
    vstd::set_lib::lemma_set_difference_len(h.to_set(), p.to_set());
}

/// Concatenating duplicate-free sequences with no common element gives
/// a duplicate-free sequence.
pub proof fn lemma_add_no_dup(a: Seq<Card>, b: Seq<Card>)
    requires
        a.no_duplicates(),
        b.no_duplicates(),
        forall|c: Card| #[trigger] a.contains(c) ==> !b.contains(c),
    ensures
        (a + b).no_duplicates(),
{
    let s = a + b;
    assert forall|i: int, j: int| 0 <= i < j < s.len() implies s[i] != s[j] by {
        if i < a.len() && j >= a.len() {
            assert(s[i] == a[i]);
            assert(s[j] == b[j - a.len()]);
            if s[i] == s[j] {
                assert(a.contains(s[i]));
                assert(b.contains(s[i]));
            }
        }
    }
}

/// The seats a pass travels: who receives from `q`, and who `p`
/// receives from, are inverse maps.
proof fn lemma_pass_inverse(q: int, dir: int, n: int)
    requires
        0 <= q < n,
        0 <= dir < n,
    ensures
        0 <= (q + dir) % n < n,
        ((q + dir) % n + n - dir) % n == q,
{
    vstd::arithmetic::div_mod::lemma_mod_bound(q + dir, n);
    let d = (q + dir) % n;
    if q + dir < n {
        vstd::arithmetic::div_mod::lemma_small_mod((q + dir) as nat, n as nat);
        assert(d == q + dir);
        assert((d + n - dir) % n == (q + n) % n);
        assert((q + n) % n == q % n) by {
            vstd::arithmetic::div_mod::lemma_mod_add_multiples_vanish(q, n);
        }
        vstd::arithmetic::div_mod::lemma_small_mod(q as nat, n as nat);
    } else {
        assert((q + dir - n) % n == (q + dir) % n) by {
            vstd::arithmetic::div_mod::lemma_mod_sub_multiples_vanish(q + dir, n);
        }
        vstd::arithmetic::div_mod::lemma_small_mod((q + dir - n) as nat, n as nat);
        assert(d == q + dir - n);
        vstd::arithmetic::div_mod::lemma_small_mod(q as nat, n as nat);
    }
}

impl Round {
    /// Who player `p` receives their cards from under this round's pass
    /// direction.
    pub open spec fn spec_pass_source(self, p: int) -> int {
        (p + self.spec_n() - self.pass_direction) % self.spec_n()
    }

    /// Swaps the selected cards around the table: every player keeps
    /// what they did not pass and gains what was passed to them, the
    /// hand sizes unchanged; play then starts at the holder of the two
    /// of clubs.
    pub fn pass_cards(&mut self)
        requires
            old(self).wf(),
            old(self).hands_disjoint(),
            old(self).status == RoundStatus::Passing,
            forall|p: int| 0 <= p < old(self).players@.len()
                ==> (#[trigger] old(self).players@[p]).passed_cards@.len() == old(self).num_passed_cards,
            exists|p: int| 0 <= p < old(self).players@.len()
                && (#[trigger] old(self).players@[p]).hand@.contains(spec_two_of_clubs()),
        ensures
            final(self).wf(),
            final(self).hands_disjoint(),
            final(self).status == RoundStatus::Playing,
            final(self).rules == old(self).rules,
            final(self).initial_scores == old(self).initial_scores,
            final(self).pass_direction == old(self).pass_direction,
            final(self).num_passed_cards == old(self).num_passed_cards,
            final(self).prev_tricks@ == old(self).prev_tricks@,
            final(self).current_trick.cards@.len() == 0,
            final(self).players@.len() == old(self).players@.len(),
            // hand sizes are preserved by the swap
            forall|p: int| 0 <= p < old(self).players@.len()
                ==> (#[trigger] final(self).players@[p]).hand@.len()
                    == old(self).players@[p].hand@.len(),
            forall|p: int| 0 <= p < old(self).players@.len()
                ==> (#[trigger] final(self).players@[p]).passed_cards@
                    == old(self).players@[p].passed_cards@,
            forall|p: int| 0 <= p < old(self).players@.len()
                ==> (#[trigger] final(self).players@[p]).received_cards@
                    == old(self).players@[old(self).spec_pass_source(p)].passed_cards@,
            // each new hand is exactly what was received plus what was kept
            forall|p: int| 0 <= p < old(self).players@.len()
                ==> (#[trigger] final(self).players@[p]).hand@
                    == old(self).players@[old(self).spec_pass_source(p)].passed_cards@
                        + old(self).players@[p].hand@.filter(
                            |c: Card| !old(self).players@[p].passed_cards@.contains(c)),
            final(self).players@[final(self).current_trick.leader as int].hand@.contains(spec_two_of_clubs()),
            final(self).opening_ok(),
    {
        let ghost pre = *self;
        let n = self.rules.num_players;
        let dir = self.pass_direction as usize;
        let mut new_players: Vec<Player> = Vec::new();
        let mut p: usize = 0;
        while p < n
            invariant
                pre.wf(),
                pre.hands_disjoint(),
                pre.status == RoundStatus::Passing,
                forall|q: int| 0 <= q < pre.players@.len()
                    ==> (#[trigger] pre.players@[q]).passed_cards@.len() == pre.num_passed_cards,
                *self == pre,
                n == pre.rules.num_players,
                dir == pre.pass_direction,
                p <= n,
                new_players@.len() == p,
                forall|q: int| 0 <= q < p ==> (#[trigger] new_players@[q]).passed_cards@
                    == pre.players@[q].passed_cards@,
                forall|q: int| 0 <= q < p ==> (#[trigger] new_players@[q]).received_cards@
                    == pre.players@[pre.spec_pass_source(q)].passed_cards@,
                forall|q: int| 0 <= q < p ==> (#[trigger] new_players@[q]).hand@
                    == pre.players@[pre.spec_pass_source(q)].passed_cards@
                        + pre.players@[q].hand@.filter(
                            |c: Card| !pre.players@[q].passed_cards@.contains(c)),
            decreases n - p,
        {
            proof {
                vstd::arithmetic::div_mod::lemma_mod_bound(p + n - dir, n as int);
            }
            let src = (p + n - dir) % n;
            let received = clone_cards(&self.players[src].passed_cards);
            let passed = clone_cards(&self.players[p].passed_cards);
            let ghost passed_seq = pre.players@[p as int].passed_cards@;
            let mut hand = clone_cards(&received);
            let hl = self.players[p].hand.len();
            proof {
                reveal(Seq::filter);
                assert(pre.players@[p as int].hand@.take(0) =~= Seq::<Card>::empty());
                assert(hand@ =~= received@
                    + pre.players@[p as int].hand@.take(0).filter(|c: Card| !passed_seq.contains(c)));
            }
            let mut j: usize = 0;
            while j < hl
                invariant
                    *self == pre,
                    p < pre.players@.len(),
                    passed_seq == pre.players@[p as int].passed_cards@,
                    passed@ == passed_seq,
                    hl == pre.players@[p as int].hand@.len(),
                    j <= hl,
                    hand@ == received@
                        + pre.players@[p as int].hand@.take(j as int).filter(
                            |c: Card| !passed_seq.contains(c)),
                decreases hl - j,
            {
                proof {
                    reveal(Seq::filter);
                    let h = pre.players@[p as int].hand@;
                    assert(h.take(j + 1).drop_last() =~= h.take(j as int));
                    assert(h.take(j + 1).last() == h[j as int]);
                }
                let c = self.players[p].hand[j];
                if !contains_card(&passed, &c) {
                    hand.push(c);
                }
                j = j + 1;
            }
            proof {
                assert(pre.players@[p as int].hand@.take(hl as int) =~= pre.players@[p as int].hand@);
            }
            new_players.push(Player { hand, passed_cards: passed, received_cards: received });
            p = p + 1;
        }
        self.players = new_players;
        proof {
            lemma_pass_rebuild(pre, self.players@);
        }
        let tc = two_of_clubs();
        let leader = find_card(&self.players, &tc);
        self.current_trick = TrickInProgress::new(leader);
        self.status = RoundStatus::Playing;
        proof {
            vstd::arithmetic::div_mod::lemma_small_mod(leader as nat, n as nat);
        }
    }
}

/// What the rebuilt seats satisfy after a pass: sizes kept, hands
/// duplicate-free and pairwise disjoint, and the two of clubs still at
/// the table.
proof fn lemma_pass_rebuild(pre: Round, post_players: Seq<Player>)
    requires
        pre.wf(),
        pre.hands_disjoint(),
        pre.status == RoundStatus::Passing,
        forall|q: int| 0 <= q < pre.players@.len()
            ==> (#[trigger] pre.players@[q]).passed_cards@.len() == pre.num_passed_cards,
        exists|p: int| 0 <= p < pre.players@.len()
            && (#[trigger] pre.players@[p]).hand@.contains(spec_two_of_clubs()),
        post_players.len() == pre.players@.len(),
        forall|q: int| 0 <= q < post_players.len() ==> (#[trigger] post_players[q]).hand@
            == pre.players@[pre.spec_pass_source(q)].passed_cards@
                + pre.players@[q].hand@.filter(
                    |c: Card| !pre.players@[q].passed_cards@.contains(c)),
    ensures
        forall|q: int| 0 <= q < post_players.len()
            ==> (#[trigger] post_players[q]).hand@.len() == pre.players@[q].hand@.len(),
        forall|q: int| 0 <= q < post_players.len()
            ==> (#[trigger] post_players[q]).hand@.no_duplicates(),
        forall|p: int, q: int, c: Card|
            0 <= p < post_players.len() && 0 <= q < post_players.len() && p != q
                && #[trigger] post_players[p].hand@.contains(c)
                ==> !(#[trigger] post_players[q].hand@.contains(c)),
        exists|p: int| 0 <= p < post_players.len()
            && (#[trigger] post_players[p]).hand@.contains(spec_two_of_clubs()),
{
    let n = pre.spec_n();
    let dir = pre.pass_direction as int;
    // sources are in range, and the source map undoes the destination map
    assert forall|q: int| 0 <= q < n implies 0 <= #[trigger] pre.spec_pass_source(q) < n by {
        vstd::arithmetic::div_mod::lemma_mod_bound(q + n - dir, n);
    }
    // membership of a rebuilt hand, in terms of the old hands
    assert forall|q: int, c: Card| 0 <= q < n implies
        (#[trigger] post_players[q].hand@.contains(c)
            <==> (pre.players@[pre.spec_pass_source(q)].passed_cards@.contains(c)
                || (pre.players@[q].hand@.contains(c)
                    && !pre.players@[q].passed_cards@.contains(c)))) by {
        let src = pre.spec_pass_source(q);
        let rec = pre.players@[src].passed_cards@;
        let kept = pre.players@[q].hand@.filter(|c: Card| !pre.players@[q].passed_cards@.contains(c));
        assert(post_players[q].hand@ == rec + kept);
        if post_players[q].hand@.contains(c) {
            let i = choose|i: int| 0 <= i < (rec + kept).len() && (rec + kept)[i] == c;
            if i < rec.len() {
                assert(rec[i] == c);
            } else {
                assert(kept[i - rec.len()] == c);
                pre.players@[q].hand@.lemma_filter_contains_rev(
                    |c: Card| !pre.players@[q].passed_cards@.contains(c), c);
                pre.players@[q].hand@.lemma_filter_pred(
                    |c: Card| !pre.players@[q].passed_cards@.contains(c), i - rec.len());
            }
        }
        if rec.contains(c) {
            let i = choose|i: int| 0 <= i < rec.len() && rec[i] == c;
            assert((rec + kept)[i] == c);
        }
        if pre.players@[q].hand@.contains(c) && !pre.players@[q].passed_cards@.contains(c) {
            let i = choose|i: int| 0 <= i < pre.players@[q].hand@.len() && pre.players@[q].hand@[i] == c;
            pre.players@[q].hand@.lemma_filter_contains(
                |c: Card| !pre.players@[q].passed_cards@.contains(c), i);
            let j = choose|j: int| 0 <= j < kept.len() && kept[j] == c;
            assert((rec + kept)[rec.len() + j] == c);
        }
    }
    // sizes: what was passed out equals in number what was received
    assert forall|q: int| 0 <= q < n implies
        (#[trigger] post_players[q].hand@.len()) == pre.players@[q].hand@.len() by {
        let src = pre.spec_pass_source(q);
        lemma_filter_out_len(pre.players@[q].hand@, pre.players@[q].passed_cards@);
        assert(pre.players@[src].passed_cards@.len() == pre.num_passed_cards);
        assert(pre.players@[q].passed_cards@.len() == pre.num_passed_cards);
    }
    // each hand is duplicate-free: the received cards come from another
    // hand, disjoint from this player's kept cards
    assert forall|q: int| 0 <= q < n implies
        (#[trigger] post_players[q].hand@).no_duplicates() by {
        let src = pre.spec_pass_source(q);
        let rec = pre.players@[src].passed_cards@;
        let kept = pre.players@[q].hand@.filter(|c: Card| !pre.players@[q].passed_cards@.contains(c));
        lemma_filter_no_dup(pre.players@[q].hand@, |c: Card| !pre.players@[q].passed_cards@.contains(c));
        assert(src != q) by {
            if src == q {
                lemma_pass_inverse(q, dir, n);
                // passing to oneself would mean a zero direction
                assert((q + n - dir) % n == q);
                if q + n - dir < n {
                    vstd::arithmetic::div_mod::lemma_small_mod((q + n - dir) as nat, n as nat);
                } else {
                    assert((q + n - dir - n) % n == (q + n - dir) % n) by {
                        vstd::arithmetic::div_mod::lemma_mod_sub_multiples_vanish(q + n - dir, n);
                    }
                    vstd::arithmetic::div_mod::lemma_small_mod((q - dir) as nat, n as nat);
                }
            }
        }
        assert forall|c: Card| rec.contains(c) implies !kept.contains(c) by {
            assert(pre.players@[src].hand@.contains(c));
            if kept.contains(c) {
                pre.players@[q].hand@.lemma_filter_contains_rev(
                    |c: Card| !pre.players@[q].passed_cards@.contains(c), c);
                assert(pre.players@[q].hand@.contains(c));
            }
        }
        lemma_add_no_dup(rec, kept);
    }
    // hands remain pairwise disjoint
    assert forall|p: int, q: int, c: Card|
        0 <= p < n && 0 <= q < n && p != q && #[trigger] post_players[p].hand@.contains(c)
        implies !(#[trigger] post_players[q].hand@.contains(c)) by {
        let sp = pre.spec_pass_source(p);
        let sq = pre.spec_pass_source(q);
        assert(sp != sq) by {
            if sp == sq {
                lemma_pass_inverse(p, dir, n);
                lemma_pass_inverse(q, dir, n);
                // the source map undoes the destination map, so it is injective
                assert((sp + dir) % n == p) by { lemma_pass_source_inverse(p, dir, n); }
                assert((sq + dir) % n == q) by { lemma_pass_source_inverse(q, dir, n); }
            }
        }
        if post_players[q].hand@.contains(c) {
            // c would sit in two old hands at once
            if pre.players@[sp].passed_cards@.contains(c) {
                assert(pre.players@[sp].hand@.contains(c));
            }
            if pre.players@[sq].passed_cards@.contains(c) {
                assert(pre.players@[sq].hand@.contains(c));
            }
            assert(false);
        }
    }
    // the two of clubs went from some hand to some hand
    let p0 = choose|p: int| 0 <= p < n && (#[trigger] pre.players@[p]).hand@.contains(spec_two_of_clubs());
    if pre.players@[p0].passed_cards@.contains(spec_two_of_clubs()) {
        let dst = (p0 + dir) % n;
        lemma_pass_inverse(p0, dir, n);
        assert(pre.spec_pass_source(dst) == p0);
        assert(post_players[dst].hand@.contains(spec_two_of_clubs()));
    } else {
        assert(post_players[p0].hand@.contains(spec_two_of_clubs()));
    }
}

/// Applying the pass direction to a player's source seat gives the
/// player back.
proof fn lemma_pass_source_inverse(p: int, dir: int, n: int)
    requires
        0 <= p < n,
        0 <= dir < n,
    ensures
        0 <= (p + n - dir) % n < n,
        ((p + n - dir) % n + dir) % n == p,
{
    vstd::arithmetic::div_mod::lemma_mod_bound(p + n - dir, n);
    let s = p + n - dir;
    if s < n {
        vstd::arithmetic::div_mod::lemma_small_mod(s as nat, n as nat);
        assert((s + dir) % n == (p + n) % n);
        assert((p + n) % n == p % n) by {
            vstd::arithmetic::div_mod::lemma_mod_add_multiples_vanish(p, n);
        }
        vstd::arithmetic::div_mod::lemma_small_mod(p as nat, n as nat);
    } else {
        assert((s - n) % n == s % n) by {
            vstd::arithmetic::div_mod::lemma_mod_sub_multiples_vanish(s, n);
        }
        vstd::arithmetic::div_mod::lemma_small_mod((s - n) as nat, n as nat);
        assert(s % n == s - n);
        assert(((s - n) + dir) % n == p % n);
        vstd::arithmetic::div_mod::lemma_small_mod(p as nat, n as nat);
    }
}

/// Sum of a sequence of integers.
pub open spec fn spec_sum(s: Seq<int>) -> int
    decreases s.len(),
{
    if s.len() == 0 {
        0
    } else {
        spec_sum(s.drop_last()) + s.last()
    }
}

/// All cards of a set of tricks, in play order.
pub open spec fn spec_all_trick_cards(tricks: Seq<Trick>) -> Seq<Card>
    decreases tricks.len(),
{
    if tricks.len() == 0 {
        Seq::empty()
    } else {
        spec_all_trick_cards(tricks.drop_last()) + tricks.last().cards@
    }
}

proof fn lemma_sum_update(s: Seq<int>, i: int, v: int)
    requires
        0 <= i < s.len(),
    ensures
        spec_sum(s.update(i, v)) == spec_sum(s) - s[i] + v,
    decreases s.len(),
{
    let upd = s.update(i, v);
    if i == s.len() - 1 {
        assert(upd.drop_last() =~= s.drop_last());
    } else {
        assert(upd.drop_last() =~= s.drop_last().update(i, v));
        lemma_sum_update(s.drop_last(), i, v);
    }
}

proof fn lemma_sum_zeros(n: nat)
    ensures
        spec_sum(Seq::new(n, |i: int| 0)) == 0,
    decreases n,
{
    if n > 0 {
        assert(Seq::new(n, |i: int| 0int).drop_last() =~= Seq::new((n - 1) as nat, |i: int| 0int));
        lemma_sum_zeros((n - 1) as nat);
    }
}

/// Points split over cards of two sequences add up.
proof fn lemma_points_add(a: Seq<Card>, b: Seq<Card>, jd: bool)
    ensures
        spec_points_for_cards(a + b, jd) == spec_points_for_cards(a, jd) + spec_points_for_cards(b, jd),
    decreases b.len(),
{
    if b.len() == 0 {
        assert(a + b =~= a);
    } else {
        assert((a + b).drop_last() =~= a + b.drop_last());
        assert((a + b).last() == b.last());
        lemma_points_add(a, b.drop_last(), jd);
    }
}

/// The per-player base points of a set of tricks total exactly the
/// points of all the cards played in them.
pub proof fn lemma_base_points_sum(tricks: Seq<Trick>, n: nat, jd: bool)
    requires
        forall|k: int| 0 <= k < tricks.len() ==> ((#[trigger] tricks[k]).winner as int) < n,
    ensures
        spec_sum(spec_base_points(tricks, n, jd))
            == spec_points_for_cards(spec_all_trick_cards(tricks), jd),
    decreases tricks.len(),
{
    if tricks.len() == 0 {
        lemma_sum_zeros(n);
        assert(spec_points_for_cards(Seq::empty(), jd) == 0);
    } else {
        lemma_base_points_sum(tricks.drop_last(), n, jd);
        lemma_base_points_len(tricks.drop_last(), n, jd);
        let prev = spec_base_points(tricks.drop_last(), n, jd);
        let t = tricks.last();
        let w = t.winner as int;
        assert(t == tricks[tricks.len() - 1]);
        lemma_sum_update(prev, w, prev[w] + spec_points_for_cards(t.cards@, jd));
        lemma_points_add(spec_all_trick_cards(tricks.drop_last()), t.cards@, jd);
    }
}

/// The base points vector has one entry per player.
proof fn lemma_base_points_len(tricks: Seq<Trick>, n: nat, jd: bool)
    requires
        forall|k: int| 0 <= k < tricks.len() ==> ((#[trigger] tricks[k]).winner as int) < n,
    ensures
        spec_base_points(tricks, n, jd).len() == n,
    decreases tricks.len(),
{
    if tricks.len() > 0 {
        lemma_base_points_len(tricks.drop_last(), n, jd);
        assert(tricks.last() == tricks[tricks.len() - 1]);
    }
}

/// The points of a sequence of cards, restated as a right fold.
proof fn lemma_points_as_fold(s: Seq<Card>, jd: bool, b: int)
    ensures
        s.fold_right(|c: Card, acc: int| acc + spec_points_for_card(c, jd), b)
            == b + spec_points_for_cards(s, jd),
    decreases s.len(),
{
    if s.len() > 0 {
        lemma_points_as_fold(s.drop_last(), jd, b + spec_points_for_card(s.last(), jd));
    }
}

/// The points of a sequence of cards depend only on which cards it
/// holds, not on their order.
pub proof fn lemma_points_permutation(s1: Seq<Card>, s2: Seq<Card>, jd: bool)
    requires
        s1.to_multiset() == s2.to_multiset(),
    ensures
        spec_points_for_cards(s1, jd) == spec_points_for_cards(s2, jd),
{
    let f = |c: Card, acc: int| acc + spec_points_for_card(c, jd);
    assert(vstd::seq_lib::commutative_foldr(f));
    vstd::seq_lib::lemma_fold_right_permutation(s1, s2, f, 0);
    lemma_points_as_fold(s1, jd, 0);
    lemma_points_as_fold(s2, jd, 0);
}

/// The whole deck carries 26 points: thirteen hearts and the queen of
/// spades; the jack-of-diamonds variant takes ten of them back.
pub proof fn lemma_full_deck_points(jd: bool)
    ensures
        spec_points_for_cards(spec_full_deck(), jd) == if jd { 16int } else { 26int },
{
    lemma_deck_points_to(15, jd);
}

proof fn lemma_deck_points_to(v: int, jd: bool)
    requires
        2 <= v <= 15,
    ensures
        spec_points_for_cards(spec_deck_to(v), jd)
            == (v - 2) + (if v > 12 { 13int } else { 0int }) + (if jd && v > 11 { -10int } else { 0int }),
    decreases v,
{
    if v == 2 {
        assert(spec_points_for_cards(spec_deck_to(2), jd) == 0);
    } else {
        lemma_deck_points_to(v - 1, jd);
        let u = (v - 1) as u32;
        let rc = spec_rank_cards(u);
        lemma_points_add(spec_deck_to(v - 1), rc, jd);
        // the four cards of one rank: one heart, the queen of spades at
        // twelve, the jack of diamonds at eleven
        let s3 = rc.drop_last();
        let s2 = s3.drop_last();
        let s1 = s2.drop_last();
        let s0 = s1.drop_last();
        assert(s0 =~= Seq::<Card>::empty());
        assert(rc.last() == Card { rank: Rank { value: u }, suit: Suit::Spades });
        assert(s3.last() == Card { rank: Rank { value: u }, suit: Suit::Hearts });
        assert(s2.last() == Card { rank: Rank { value: u }, suit: Suit::Diamonds });
        assert(s1.last() == Card { rank: Rank { value: u }, suit: Suit::Clubs });
        assert(spec_points_for_cards(s0, jd) == 0);
        assert(spec_points_for_cards(s1, jd) == 0);
        assert(spec_points_for_cards(s2, jd)
            == (if jd && u == 11 { -10int } else { 0int }));
        assert(spec_points_for_cards(s3, jd)
            == 1 + (if jd && u == 11 { -10int } else { 0int }));
        assert(spec_points_for_cards(rc, jd)
            == 1 + (if u == 12 { 13int } else { 0int }) + (if jd && u == 11 { -10int } else { 0int }));
    }
}

/// In a completed round under rules where nobody shot the moon and the
/// jack of diamonds counts nothing, the players' points total 26.
pub proof fn lemma_completed_round_point_total(tricks: Seq<Trick>, rules: RuleSet)
    requires
        !rules.jd_minus_10,
        forall|k: int| 0 <= k < tricks.len() ==> ((#[trigger] tricks[k]).winner as int) < rules.num_players,
        spec_all_trick_cards(tricks).to_multiset() == spec_full_deck().to_multiset(),
        rules.moon_shooting == MoonShooting::Disabled
            || spec_moon_shooter(tricks, rules.num_players as nat, rules) is None,
    ensures
        spec_sum(spec_round_points(tricks, rules)) == 26,
{
    let n = rules.num_players as nat;
    lemma_base_points_sum(tricks, n, false);
    lemma_points_permutation(spec_all_trick_cards(tricks), spec_full_deck(), false);
    lemma_full_deck_points(false);
    assert(spec_round_points(tricks, rules) == spec_base_points(tricks, n, false));
}

/// Error for malformed textual requests handed in by adapters.
#[derive(Debug)]
pub struct ParseError {
    pub msg: String,
}

impl ParseError {
    pub fn new(s: &str) -> (e: ParseError) {
        ParseError { msg: s.to_owned() }
    }
}

/// A replayed set of completed tricks under some rules, as adapters
/// hand it in to score a finished round.
pub struct TrickHistory {
    pub rules: RuleSet,
    pub tricks: Vec<Trick>,
}

impl TrickHistory {
    pub fn points_taken(&self) -> (r: Vec<i32>)
        requires
            self.tricks@.len() <= 52,
            forall|k: int| 0 <= k < self.tricks@.len()
                ==> (#[trigger] self.tricks@[k]).winner < self.rules.num_players,
            forall|k: int| 0 <= k < self.tricks@.len()
                ==> (#[trigger] self.tricks@[k]).cards@.len() <= 52,
        ensures
            r@.len() == self.rules.num_players,
            forall|p: int| 0 <= p < r@.len() ==>
                #[trigger] r@[p] as int == spec_round_points(self.tricks@, self.rules)[p],
    {
        points_for_tricks(&self.tricks, &self.rules)
    }
}

/// Each seat offset below `n` belongs to exactly one player.
pub proof fn lemma_seat_pos_inverse(p: int, leader: int, n: int)
    requires
        0 <= leader < n,
        0 <= p < n,
    ensures
        0 <= spec_seat_pos(p, leader, n) < n,
        (leader + spec_seat_pos(p, leader, n)) % n == p,
{
    let d = p - leader + n;
    vstd::arithmetic::div_mod::lemma_mod_bound(d, n);
    if d < n {
        vstd::arithmetic::div_mod::lemma_small_mod(d as nat, n as nat);
        assert(spec_seat_pos(p, leader, n) == d);
        assert((leader + d) % n == (p + n) % n);
        assert((p + n) % n == p % n) by {
            vstd::arithmetic::div_mod::lemma_mod_add_multiples_vanish(p, n);
        }
        vstd::arithmetic::div_mod::lemma_small_mod(p as nat, n as nat);
    } else {
        assert((d - n) % n == d % n) by {
            vstd::arithmetic::div_mod::lemma_mod_sub_multiples_vanish(d, n);
        }
        vstd::arithmetic::div_mod::lemma_small_mod((d - n) as nat, n as nat);
        assert(spec_seat_pos(p, leader, n) == d - n);
        assert((leader + (d - n)) % n == p % n);
        vstd::arithmetic::div_mod::lemma_small_mod(p as nat, n as nat);
    }
}

} // verus!
