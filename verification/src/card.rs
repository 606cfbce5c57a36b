//! Card primitives: suits, ranks, cards, the 52-card deck, and the
//! two-character textual codecs (ASCII letters and unicode suit glyphs).

use vstd::prelude::*;
use vstd::string::*;
use vstd::multiset::Multiset;

verus! {

/// Error for textual parse failures at the card level.
#[derive(Debug)]
pub struct CardError {
    pub msg: String,
}

impl CardError {
    pub fn new(s: &str) -> (e: CardError) {
        CardError { msg: s.to_owned() }
    }
}

#[derive(Debug, PartialEq, Eq, Hash, Copy, Clone, Structural)]
pub enum Suit {
    Clubs,
    Diamonds,
    Hearts,
    Spades,
}

/// Rank of a card: 2 through 14, where 11 = J, 12 = Q, 13 = K, 14 = A.
#[derive(Debug, PartialEq, Eq, Hash, Copy, Clone, Structural)]
pub struct Rank {
    pub value: u32,
}

#[derive(Debug, PartialEq, Eq, Hash, Copy, Clone, Structural)]
pub struct Card {
    pub rank: Rank,
    pub suit: Suit,
}

/// A rank is meaningful only for the values 2 through 14.
pub open spec fn rank_valid(v: u32) -> bool {
    2 <= v <= 14
}

pub open spec fn card_valid(c: Card) -> bool {
    rank_valid(c.rank.value)
}

/// The single ASCII letter of a suit.
pub open spec fn suit_letter_char(s: Suit) -> char {
    match s {
        Suit::Clubs => 'C',
        Suit::Diamonds => 'D',
        Suit::Hearts => 'H',
        Suit::Spades => 'S',
    }
}

/// The unicode glyph of a suit.
pub open spec fn suit_symbol_char(s: Suit) -> char {
    match s {
        Suit::Clubs => '♣',
        Suit::Diamonds => '♦',
        Suit::Hearts => '♥',
        Suit::Spades => '♠',
    }
}

/// The character of a rank value (2-9, T, J, Q, K, A).
pub open spec fn rank_char_of(v: u32) -> char {
    if v == 2 { '2' }
    else if v == 3 { '3' }
    else if v == 4 { '4' }
    else if v == 5 { '5' }
    else if v == 6 { '6' }
    else if v == 7 { '7' }
    else if v == 8 { '8' }
    else if v == 9 { '9' }
    else if v == 10 { 'T' }
    else if v == 11 { 'J' }
    else if v == 12 { 'Q' }
    else if v == 13 { 'K' }
    else { 'A' }
}

/// Which suit a single character denotes; letters are case-insensitive
/// and the unicode glyphs are accepted as well.
pub open spec fn spec_suit_of_char(c: char) -> Option<Suit> {
    if c == 'C' || c == 'c' || c == '♣' { Some(Suit::Clubs) }
    else if c == 'D' || c == 'd' || c == '♦' { Some(Suit::Diamonds) }
    else if c == 'H' || c == 'h' || c == '♥' { Some(Suit::Hearts) }
    else if c == 'S' || c == 's' || c == '♠' { Some(Suit::Spades) }
    else { None }
}

/// Which rank value a single character denotes (case-insensitive).
pub open spec fn spec_rank_of_char(c: char) -> Option<u32> {
    if c == '2' { Some(2u32) }
    else if c == '3' { Some(3u32) }
    else if c == '4' { Some(4u32) }
    else if c == '5' { Some(5u32) }
    else if c == '6' { Some(6u32) }
    else if c == '7' { Some(7u32) }
    else if c == '8' { Some(8u32) }
    else if c == '9' { Some(9u32) }
    else if c == 'T' || c == 't' { Some(10u32) }
    else if c == 'J' || c == 'j' { Some(11u32) }
    else if c == 'Q' || c == 'q' { Some(12u32) }
    else if c == 'K' || c == 'k' { Some(13u32) }
    else if c == 'A' || c == 'a' { Some(14u32) }
    else { None }
}

/// What a two-character token denotes: a rank character followed by a
/// suit character. Anything else is not a card.
pub open spec fn spec_parse_card(s: Seq<char>) -> Option<Card> {
    if s.len() == 2 {
        match (spec_rank_of_char(s[0]), spec_suit_of_char(s[1])) {
            (Some(v), Some(su)) => Some(Card { rank: Rank { value: v }, suit: su }),
            _ => None,
        }
    } else {
        None
    }
}

/// The ASCII form of a card: its rank character then its suit letter.
pub open spec fn spec_ascii_chars(c: Card) -> Seq<char> {
    seq![rank_char_of(c.rank.value), suit_letter_char(c.suit)]
}

/// The glyph form of a card: its rank character then its suit glyph.
pub open spec fn spec_symbol_chars(c: Card) -> Seq<char> {
    seq![rank_char_of(c.rank.value), suit_symbol_char(c.suit)]
}

impl Suit {
    /// Parses a one-character suit string (letter in either case, or glyph).
    pub fn from(s: &str) -> (r: Result<Suit, CardError>)
        ensures
            match r {
                Ok(su) => s@.len() == 1 && spec_suit_of_char(s@[0]) == Some(su),
                Err(_) => !(s@.len() == 1 && spec_suit_of_char(s@[0]) is Some),
            },
    {
        if s.unicode_len() == 1 {
            let c = s.get_char(0);
            match c {
                'C' | 'c' | '♣' => Ok(Suit::Clubs),
                'D' | 'd' | '♦' => Ok(Suit::Diamonds),
                'H' | 'h' | '♥' => Ok(Suit::Hearts),
                'S' | 's' | '♠' => Ok(Suit::Spades),
                _ => Err(CardError::new("Bad char")),
            }
        } else {
            Err(CardError::new("Bad char"))
        }
    }

    /// The ASCII letter of this suit.
    pub fn letter(&self) -> (r: &str)
        ensures
            r@ =~= seq![suit_letter_char(*self)],
    {
        proof {
            reveal_strlit("C");
            reveal_strlit("D");
            reveal_strlit("H");
            reveal_strlit("S");
        }
        match self {
            Suit::Clubs => "C",
            Suit::Diamonds => "D",
            Suit::Hearts => "H",
            Suit::Spades => "S",
        }
    }

    /// The unicode glyph of this suit.
    pub fn symbol(&self) -> (r: &str)
        ensures
            r@ =~= seq![suit_symbol_char(*self)],
    {
        proof {
            reveal_strlit("♣");
            reveal_strlit("♦");
            reveal_strlit("♥");
            reveal_strlit("♠");
        }
        match self {
            Suit::Clubs => "♣",
            Suit::Diamonds => "♦",
            Suit::Hearts => "♥",
            Suit::Spades => "♠",
        }
    }
}

impl Rank {
    /// Builds a rank from its numeric value.
    pub fn num(r: u32) -> (rank: Rank)
        requires
            rank_valid(r),
        ensures
            rank.value == r,
    {
        Rank { value: r }
    }

    /// Parses a one-character rank string (case-insensitive).
    pub fn from(s: &str) -> (r: Result<Rank, CardError>)
        ensures
            match r {
                Ok(rk) => s@.len() == 1 && spec_rank_of_char(s@[0]) == Some(rk.value),
                Err(_) => !(s@.len() == 1 && spec_rank_of_char(s@[0]) is Some),
            },
    {
        if s.unicode_len() == 1 {
            let c = s.get_char(0);
            match c {
                '2' => Ok(Rank { value: 2 }),
                '3' => Ok(Rank { value: 3 }),
                '4' => Ok(Rank { value: 4 }),
                '5' => Ok(Rank { value: 5 }),
                '6' => Ok(Rank { value: 6 }),
                '7' => Ok(Rank { value: 7 }),
                '8' => Ok(Rank { value: 8 }),
                '9' => Ok(Rank { value: 9 }),
                'T' | 't' => Ok(Rank { value: 10 }),
                'J' | 'j' => Ok(Rank { value: 11 }),
                'Q' | 'q' => Ok(Rank { value: 12 }),
                'K' | 'k' => Ok(Rank { value: 13 }),
                'A' | 'a' => Ok(Rank { value: 14 }),
                _ => Err(CardError::new("Bad char")),
            }
        } else {
            Err(CardError::new("Bad char"))
        }
    }

    /// The display character of this rank.
    pub fn rank_char(&self) -> (r: &str)
        requires
            rank_valid(self.value),
        ensures
            r@ =~= seq![rank_char_of(self.value)],
    {
        proof {
            reveal_strlit("2");
            reveal_strlit("3");
            reveal_strlit("4");
            reveal_strlit("5");
            reveal_strlit("6");
            reveal_strlit("7");
            reveal_strlit("8");
            reveal_strlit("9");
            reveal_strlit("T");
            reveal_strlit("J");
            reveal_strlit("Q");
            reveal_strlit("K");
            reveal_strlit("A");
        }
        if self.value == 2 { "2" }
        else if self.value == 3 { "3" }
        else if self.value == 4 { "4" }
        else if self.value == 5 { "5" }
        else if self.value == 6 { "6" }
        else if self.value == 7 { "7" }
        else if self.value == 8 { "8" }
        else if self.value == 9 { "9" }
        else if self.value == 10 { "T" }
        else if self.value == 11 { "J" }
        else if self.value == 12 { "Q" }
        else if self.value == 13 { "K" }
        else { "A" }
    }
}

impl Card {
    pub fn new(r: Rank, s: Suit) -> (c: Card)
        ensures
            c == (Card { rank: r, suit: s }),
    {
        Card { rank: r, suit: s }
    }

    /// Parses a two-character card token: rank character then suit character.
    pub fn from(s: &str) -> (r: Result<Card, CardError>)
        ensures
            match r {
                Ok(c) => spec_parse_card(s@) == Some(c),
                Err(_) => spec_parse_card(s@) is None,
            },
    {
        if s.unicode_len() == 2 {
            let rc = s.get_char(0);
            let sc = s.get_char(1);
            let rank = match rc {
                '2' => Rank { value: 2 },
                '3' => Rank { value: 3 },
                '4' => Rank { value: 4 },
                '5' => Rank { value: 5 },
                '6' => Rank { value: 6 },
                '7' => Rank { value: 7 },
                '8' => Rank { value: 8 },
                '9' => Rank { value: 9 },
                'T' | 't' => Rank { value: 10 },
                'J' | 'j' => Rank { value: 11 },
                'Q' | 'q' => Rank { value: 12 },
                'K' | 'k' => Rank { value: 13 },
                'A' | 'a' => Rank { value: 14 },
                _ => { return Err(CardError::new("Bad string")); },
            };
            let suit = match sc {
                'C' | 'c' | '♣' => Suit::Clubs,
                'D' | 'd' | '♦' => Suit::Diamonds,
                'H' | 'h' | '♥' => Suit::Hearts,
                'S' | 's' | '♠' => Suit::Spades,
                _ => { return Err(CardError::new("Bad string")); },
            };
            Ok(Card { rank, suit })
        } else {
            Err(CardError::new("Bad string"))
        }
    }

    /// The two-character ASCII form of this card.
    pub fn ascii_string(&self) -> (r: String)
        requires
            card_valid(*self),
        ensures
            r@ =~= spec_ascii_chars(*self),
    {
        let mut s = String::from_str(self.rank.rank_char());
        s.append(self.suit.letter());
        s
    }

    /// The two-character glyph form of this card.
    pub fn symbol_string(&self) -> (r: String)
        requires
            card_valid(*self),
        ensures
            r@ =~= spec_symbol_chars(*self),
    {
        let mut s = String::from_str(self.rank.rank_char());
        s.append(self.suit.symbol());
        s
    }
}

/// Parsing undoes ASCII formatting: any valid card comes back from its
/// two-letter form unchanged.
pub proof fn lemma_ascii_round_trip(c: Card)
    requires
        card_valid(c),
    ensures
        spec_parse_card(spec_ascii_chars(c)) == Some(c),
{
}

/// Parsing undoes glyph formatting: any valid card comes back from its
/// rank-and-glyph form unchanged.
pub proof fn lemma_symbol_round_trip(c: Card)
    requires
        card_valid(c),
    ensures
        spec_parse_card(spec_symbol_chars(c)) == Some(c),
{
}

/// The separators recognized between card tokens.
pub open spec fn spec_is_ws(c: char) -> bool {
    c == ' ' || c == '\t' || c == '\n' || c == '\r'
}

/// Length of the leading run of non-separator characters.
pub open spec fn token_len(s: Seq<char>) -> nat
    decreases s.len(),
{
    if s.len() == 0 || spec_is_ws(s[0]) {
        0
    } else {
        1 + token_len(s.drop_first())
    }
}

pub proof fn lemma_token_len_le(s: Seq<char>)
    ensures
        token_len(s) <= s.len(),
    decreases s.len(),
{
    if s.len() > 0 && !spec_is_ws(s[0]) {
        lemma_token_len_le(s.drop_first());
    }
}

/// What a whitespace-separated sequence of card tokens denotes: the
/// cards in order, or nothing if any token is not a card.
pub open spec fn spec_parse_cards(s: Seq<char>) -> Option<Seq<Card>>
    decreases s.len(),
{
    if s.len() == 0 {
        Some(Seq::empty())
    } else if spec_is_ws(s[0]) {
        spec_parse_cards(s.drop_first())
    } else {
        let k = token_len(s) as int;
        if token_len(s) <= s.len() {
            match spec_parse_card(s.take(k)) {
                Some(c) => match spec_parse_cards(s.skip(k)) {
                    Some(rest) => Some(seq![c] + rest),
                    None => None,
                },
                None => None,
            }
        } else {
            // never reached: a token is part of the string
            None
        }
    }
}

/// How a partial parse composes with the parse of the rest of the string.
pub open spec fn parse_glues(whole: Option<Seq<Card>>, acc: Seq<Card>, rest: Option<Seq<Card>>) -> bool {
    match rest {
        Some(r) => whole == Some(acc + r),
        None => whole is None,
    }
}

/// Parses a whitespace-separated list of card tokens.
pub fn cards_from_str(s: &str) -> (r: Result<Vec<Card>, CardError>)
    ensures
        match r {
            Ok(cards) => spec_parse_cards(s@) == Some(cards@),
            Err(_) => spec_parse_cards(s@) is None,
        },
{
    let n = s.unicode_len();
    let mut cards: Vec<Card> = Vec::new();
    let mut i: usize = 0;
    proof {
        assert(s@.skip(0) =~= s@);
        assert(cards@ + spec_parse_cards(s@)->Some_0 =~= spec_parse_cards(s@)->Some_0);
    }
    while i < n
        invariant
            n == s@.len(),
            i <= n,
            parse_glues(spec_parse_cards(s@), cards@, spec_parse_cards(s@.skip(i as int))),
        decreases n - i,
    {
        let c0 = s.get_char(i);
        if c0 == ' ' || c0 == '\t' || c0 == '\n' || c0 == '\r' {
            proof {
                assert(s@.skip(i as int).drop_first() =~= s@.skip(i + 1));
            }
            i = i + 1;
        } else {
            // scan to the end of the token
            let mut j: usize = i;
            proof {
                lemma_token_len_le(s@.skip(i as int));
            }
            while j < n
                invariant
                    n == s@.len(),
                    i <= j <= n,
                    token_len(s@.skip(i as int)) == (j - i) + token_len(s@.skip(j as int)),
                ensures
                    j == n || spec_is_ws(s@[j as int]),
                decreases n - j,
            {
                let cj = s.get_char(j);
                if cj == ' ' || cj == '\t' || cj == '\n' || cj == '\r' {
                    break;
                }
                proof {
                    assert(s@.skip(j as int).drop_first() =~= s@.skip(j + 1));
                    lemma_token_len_le(s@.skip(j + 1));
                }
                j = j + 1;
            }
            proof {
                assert(token_len(s@.skip(j as int)) == 0);
                assert(token_len(s@.skip(i as int)) == j - i);
            }
            let token = s.substring_char(i, j);
            let ghost suffix = s@.skip(i as int);
            proof {
                lemma_token_len_le(suffix);
                assert(token@ =~= suffix.take(token_len(suffix) as int));
                assert(suffix.skip(token_len(suffix) as int) =~= s@.skip(j as int));
            }
            match Card::from(token) {
                Ok(c) => {
                    proof {
                        let k = token_len(suffix) as int;
                        assert(spec_parse_cards(suffix) == match spec_parse_cards(s@.skip(j as int)) {
                            Some(rest) => Some(seq![c] + rest),
                            None => None::<Seq<Card>>,
                        });
                        if spec_parse_cards(s@.skip(j as int)) is Some {
                            let rest = spec_parse_cards(s@.skip(j as int))->Some_0;
                            assert(cards@ + (seq![c] + rest) =~= cards@.push(c) + rest);
                        }
                    }
                    cards.push(c);
                    i = j;
                },
                Err(e) => {
                    proof {
                        assert(spec_parse_cards(suffix) is None);
                    }
                    return Err(e);
                },
            }
        }
    }
    proof {
        assert(s@.skip(n as int) =~= Seq::<char>::empty());
        assert(spec_parse_cards(s@.skip(n as int)) == Some(Seq::<Card>::empty()));
        assert(cards@ + Seq::<Card>::empty() =~= cards@);
    }
    Ok(cards)
}

/// The glyph forms of the cards, joined by single spaces.
pub open spec fn spec_symbol_str(cards: Seq<Card>) -> Seq<char>
    decreases cards.len(),
{
    if cards.len() == 0 {
        Seq::empty()
    } else if cards.len() == 1 {
        spec_symbol_chars(cards[0])
    } else {
        spec_symbol_str(cards.drop_last()) + seq![' '] + spec_symbol_chars(cards.last())
    }
}

pub fn symbol_str_from_cards(cards: &Vec<Card>) -> (r: String)
    requires
        forall|i: int| 0 <= i < cards@.len() ==> card_valid(#[trigger] cards@[i]),
    ensures
        r@ == spec_symbol_str(cards@),
{
    let mut s = String::new();
    let n = cards.len();
    proof {
        reveal_strlit(" ");
        assert(cards@.take(0) =~= Seq::<Card>::empty());
        assert(s@ =~= spec_symbol_str(cards@.take(0)));
    }
    let mut i: usize = 0;
    while i < n
        invariant
            n == cards@.len(),
            i <= n,
            forall|k: int| 0 <= k < cards@.len() ==> card_valid(#[trigger] cards@[k]),
            s@ == spec_symbol_str(cards@.take(i as int)),
        decreases n - i,
    {
        proof {
            reveal_strlit(" ");
        }
        if i > 0 {
            s.append(" ");
        }
        let cs = cards[i].symbol_string();
        s.append(cs.as_str());
        proof {
            assert(cards@.take(i + 1).drop_last() =~= cards@.take(i as int));
            assert(cards@.take(i + 1).last() == cards@[i as int]);
            if i == 0 {
                assert(s@ =~= spec_symbol_str(cards@.take(i + 1)));
            } else {
                assert(" "@ =~= seq![' ']);
                assert(s@ =~= spec_symbol_str(cards@.take(i + 1)));
            }
        }
        i = i + 1;
    }
    proof {
        assert(cards@.take(n as int) =~= cards@);
    }
    s
}

/// The ranks of the cards of the given suit, in hand order.
pub open spec fn spec_suit_ranks(cards: Seq<Card>, suit: Suit) -> Seq<Rank> {
    cards.filter(|c: Card| c.suit == suit).map_values(|c: Card| c.rank)
}

/// Weakly descending by rank value.
pub open spec fn ranks_sorted_desc(s: Seq<Rank>) -> bool {
    forall|i: int, j: int| 0 <= i <= j < s.len() ==> s[i].value >= s[j].value
}

/// Returns the ranks of cards in the given suit, sorted descending.
pub fn ranks_for_suit(cards: &Vec<Card>, suit: Suit) -> (r: Vec<Rank>)
    ensures
        r@.to_multiset() == spec_suit_ranks(cards@, suit).to_multiset(),
        ranks_sorted_desc(r@),
{
    broadcast use vstd::seq_lib::group_seq_lib_default, vstd::seq::group_seq_axioms;

    let n = cards.len();
    let mut collected: Vec<Rank> = Vec::new();
    proof {
        reveal(Seq::filter);
        assert(cards@.take(0) =~= Seq::<Card>::empty());
        assert(collected@ =~= spec_suit_ranks(cards@.take(0), suit));
    }
    let mut i: usize = 0;
    while i < n
        invariant
            n == cards@.len(),
            i <= n,
            collected@ == spec_suit_ranks(cards@.take(i as int), suit),
        decreases n - i,
    {
        proof {
            reveal(Seq::filter);
            let pred = |c: Card| c.suit == suit;
            let t1 = cards@.take(i + 1);
            assert(t1.drop_last() =~= cards@.take(i as int));
            assert(t1.last() == cards@[i as int]);
            if pred(cards@[i as int]) {
                assert(t1.filter(pred) =~= cards@.take(i as int).filter(pred).push(cards@[i as int]));
                assert(t1.filter(pred).map_values(|c: Card| c.rank)
                    =~= spec_suit_ranks(cards@.take(i as int), suit).push(cards@[i as int].rank));
            } else {
                assert(t1.filter(pred) =~= cards@.take(i as int).filter(pred));
            }
        }
        if cards[i].suit == suit {
            collected.push(cards[i].rank);
        }
        i = i + 1;
    }
    proof {
        assert(cards@.take(n as int) =~= cards@);
    }
    // insertion sort, descending by rank value
    let m = collected.len();
    let mut sorted: Vec<Rank> = Vec::new();
    proof {
        broadcast use vstd::seq_lib::group_to_multiset_ensures;
        assert(collected@.take(0) =~= Seq::<Rank>::empty());
        assert(sorted@.to_multiset() =~= collected@.take(0).to_multiset());
    }
    let mut i: usize = 0;
    while i < m
        invariant
            m == collected@.len(),
            i <= m,
            sorted@.to_multiset() == collected@.take(i as int).to_multiset(),
            ranks_sorted_desc(sorted@),
        decreases m - i,
    {
        let x = collected[i];
        // find the first position whose value is strictly below x
        let mut pos: usize = 0;
        while pos < sorted.len()
            invariant
                pos <= sorted@.len(),
                forall|k: int| 0 <= k < pos ==> (#[trigger] sorted@[k]).value >= x.value,
            ensures
                pos <= sorted@.len(),
                forall|k: int| 0 <= k < pos ==> (#[trigger] sorted@[k]).value >= x.value,
                pos == sorted@.len() || sorted@[pos as int].value < x.value,
            decreases sorted@.len() - pos,
        {
            if sorted[pos].value < x.value {
                break;
            }
            pos = pos + 1;
        }
        let ghost old_sorted = sorted@;
        let ghost oldpos = pos as int;
        proof {
            // everything at or after the stop is strictly below x
            assert forall|k: int| oldpos <= k < old_sorted.len() implies (#[trigger] old_sorted[k]).value < x.value by {
                assert(old_sorted[oldpos].value < x.value);
            }
        }
        sorted.insert(pos, x);
        proof {
            // multiset: inserting is pushing, up to permutation
            let pieces = old_sorted.take(oldpos) + seq![x] + old_sorted.skip(oldpos);
            assert(sorted@ =~= pieces);
            vstd::seq_lib::lemma_multiset_commutative(old_sorted.take(oldpos) + seq![x], old_sorted.skip(oldpos));
            vstd::seq_lib::lemma_multiset_commutative(old_sorted.take(oldpos), seq![x]);
            vstd::seq_lib::lemma_multiset_commutative(old_sorted.take(oldpos), old_sorted.skip(oldpos));
            assert(old_sorted.take(oldpos) + old_sorted.skip(oldpos) =~= old_sorted);
            broadcast use vstd::seq_lib::group_to_multiset_ensures;
            assert(seq![x] =~= Seq::<Rank>::empty().push(x));
            assert(seq![x].to_multiset() =~= Multiset::<Rank>::empty().insert(x));
            assert(sorted@.to_multiset() =~= old_sorted.to_multiset().insert(x));
            assert(collected@.take(i + 1).drop_last() =~= collected@.take(i as int));
            assert(collected@.take(i + 1) =~= collected@.take(i as int).push(collected@[i as int]));
            // and the new sequence remains sorted descending
            assert(forall|k: int| 0 <= k < oldpos ==> sorted@[k] == old_sorted[k]);
            assert(forall|k: int| oldpos < k < sorted@.len() ==> sorted@[k] == old_sorted[k - 1]);
            assert(sorted@[oldpos] == x);
            assert(ranks_sorted_desc(sorted@));
        }
        i = i + 1;
    }
    proof {
        assert(collected@.take(m as int) =~= collected@);
    }
    sorted
}

/// The glyph of a suit followed by the characters of its ranks in the
/// hand, highest first.
pub fn suit_group(cards: &Vec<Card>, suit: Suit) -> (r: String)
    requires
        forall|i: int| 0 <= i < cards@.len() ==> card_valid(#[trigger] cards@[i]),
    ensures
        r@.len() == 1 + spec_suit_ranks(cards@, suit).len(),
        r@[0] == suit_symbol_char(suit),
{
    let mut s = String::from_str(suit.symbol());
    let ranks = ranks_for_suit(cards, suit);
    proof {
        broadcast use vstd::seq_lib::group_to_multiset_ensures;
        let vals = spec_suit_ranks(cards@, suit);
        assert(ranks@.to_multiset().len() == vals.to_multiset().len());
        assert(ranks@.len() == vals.len());
        assert forall|k: int| 0 <= k < ranks@.len() implies rank_valid(#[trigger] ranks@[k].value) by {
            assert(ranks@.contains(ranks@[k]));
            assert(ranks@.to_multiset().contains(ranks@[k]));
            assert(vals.to_multiset().contains(ranks@[k]));
            assert(vals.contains(ranks@[k]));
            let j = choose|j: int| 0 <= j < vals.len() && vals[j] == ranks@[k];
            let filtered = cards@.filter(|c: Card| c.suit == suit);
            assert(filtered[j].rank == ranks@[k]);
            assert(filtered.contains(filtered[j]));
            cards@.lemma_filter_contains_rev(|c: Card| c.suit == suit, filtered[j]);
            assert(cards@.contains(filtered[j]));
            let l = choose|l: int| 0 <= l < cards@.len() && cards@[l] == filtered[j];
            assert(card_valid(cards@[l]));
        }
    }
    let n = ranks.len();
    let mut i: usize = 0;
    while i < n
        invariant
            n == ranks@.len(),
            i <= n,
            forall|k: int| 0 <= k < ranks@.len() ==> rank_valid(#[trigger] ranks@[k].value),
            s@.len() == 1 + i,
            s@[0] == suit_symbol_char(suit),
        decreases n - i,
    {
        s.append(ranks[i].rank_char());
        i = i + 1;
    }
    s
}

/// All four suit groups of a hand, spades first, separated by spaces.
pub fn all_suit_groups(cards: &Vec<Card>) -> (r: String)
    requires
        forall|i: int| 0 <= i < cards@.len() ==> card_valid(#[trigger] cards@[i]),
    ensures
        // one glyph per suit, a space between groups, a character per rank
        r@.len() == 7 + spec_suit_ranks(cards@, Suit::Spades).len()
            + spec_suit_ranks(cards@, Suit::Hearts).len()
            + spec_suit_ranks(cards@, Suit::Diamonds).len()
            + spec_suit_ranks(cards@, Suit::Clubs).len(),
        r@[0] == suit_symbol_char(Suit::Spades),
{
    proof {
        reveal_strlit(" ");
    }
    let mut s = suit_group(cards, Suit::Spades);
    s.append(" ");
    let g2 = suit_group(cards, Suit::Hearts);
    s.append(g2.as_str());
    s.append(" ");
    let g3 = suit_group(cards, Suit::Diamonds);
    s.append(g3.as_str());
    s.append(" ");
    let g4 = suit_group(cards, Suit::Clubs);
    s.append(g4.as_str());
    s
}

/// The four cards of one rank, in canonical suit order.
pub open spec fn spec_rank_cards(v: u32) -> Seq<Card> {
    seq![
        Card { rank: Rank { value: v }, suit: Suit::Clubs },
        Card { rank: Rank { value: v }, suit: Suit::Diamonds },
        Card { rank: Rank { value: v }, suit: Suit::Hearts },
        Card { rank: Rank { value: v }, suit: Suit::Spades },
    ]
}

/// The cards of all ranks below `v`, rank-major, suit-minor.
pub open spec fn spec_deck_to(v: int) -> Seq<Card>
    decreases v,
{
    if v <= 2 {
        Seq::empty()
    } else {
        spec_deck_to(v - 1) + spec_rank_cards((v - 1) as u32)
    }
}

/// The 52 distinct cards in canonical order.
pub open spec fn spec_full_deck() -> Seq<Card> {
    spec_deck_to(15)
}

pub proof fn lemma_deck_to_len(v: int)
    requires
        2 <= v <= 15,
    ensures
        spec_deck_to(v).len() == 4 * (v - 2),
    decreases v,
{
    if v > 2 {
        lemma_deck_to_len(v - 1);
    }
}

pub proof fn lemma_deck_to_contains(v: int, c: Card)
    requires
        2 <= v <= 15,
    ensures
        spec_deck_to(v).contains(c) <==> 2 <= c.rank.value < v,
    decreases v,
{
    if v > 2 {
        lemma_deck_to_contains(v - 1, c);
        if 2 <= c.rank.value < v {
            if c.rank.value == v - 1 {
                let tail = spec_rank_cards((v - 1) as u32);
                assert(tail.contains(c)) by {
                    if c.suit == Suit::Clubs { assert(tail[0] == c); }
                    else if c.suit == Suit::Diamonds { assert(tail[1] == c); }
                    else if c.suit == Suit::Hearts { assert(tail[2] == c); }
                    else { assert(tail[3] == c); }
                }
                let i = choose|i: int| 0 <= i < tail.len() && tail[i] == c;
                assert(spec_deck_to(v)[spec_deck_to(v - 1).len() + i] == c);
            } else {
                let prefix = spec_deck_to(v - 1);
                let i = choose|i: int| 0 <= i < prefix.len() && #[trigger] prefix[i] == c;
                assert(spec_deck_to(v)[i] == c);
            }
        }
        if spec_deck_to(v).contains(c) {
            let i = choose|i: int| 0 <= i < spec_deck_to(v).len() && spec_deck_to(v)[i] == c;
            if i < spec_deck_to(v - 1).len() {
                assert(spec_deck_to(v - 1).contains(c));
            }
        }
    }
}

pub proof fn lemma_deck_to_no_dup(v: int)
    requires
        2 <= v <= 15,
    ensures
        spec_deck_to(v).no_duplicates(),
        forall|i: int| 0 <= i < spec_deck_to(v).len() ==> 2 <= #[trigger] spec_deck_to(v)[i].rank.value < v,
    decreases v,
{
    if v > 2 {
        lemma_deck_to_no_dup(v - 1);
        let s = spec_deck_to(v);
        let prefix = spec_deck_to(v - 1);
        let tail = spec_rank_cards((v - 1) as u32);
        assert forall|i: int, j: int| 0 <= i < j < s.len() implies s[i] != s[j] by {
            if j < prefix.len() {
            } else if i >= prefix.len() {
                assert(tail[i - prefix.len()] != tail[j - prefix.len()]);
            } else {
                assert(s[i].rank.value < v - 1);
                assert(s[j].rank.value == v - 1);
            }
        }
    }
}

/// The full deck holds exactly the valid cards, once each.
pub proof fn lemma_full_deck(c: Card)
    ensures
        spec_full_deck().len() == 52,
        spec_full_deck().no_duplicates(),
        spec_full_deck().contains(c) <==> card_valid(c),
{
    lemma_deck_to_len(15);
    lemma_deck_to_no_dup(15);
    lemma_deck_to_contains(15, c);
}

/// All 52 cards in canonical (rank-major, suit-minor) order.
pub fn all_cards() -> (r: Vec<Card>)
    ensures
        r@ == spec_full_deck(),
{
    let mut cards: Vec<Card> = Vec::new();
    proof {
        assert(cards@ =~= spec_deck_to(2));
    }
    let mut v: u32 = 2;
    while v <= 14
        invariant
            2 <= v <= 15,
            cards@ == spec_deck_to(v as int),
        decreases 15 - v,
    {
        cards.push(Card { rank: Rank { value: v }, suit: Suit::Clubs });
        cards.push(Card { rank: Rank { value: v }, suit: Suit::Diamonds });
        cards.push(Card { rank: Rank { value: v }, suit: Suit::Hearts });
        cards.push(Card { rank: Rank { value: v }, suit: Suit::Spades });
        proof {
            assert(cards@ =~= spec_deck_to(v as int) + spec_rank_cards(v));
            assert(cards@ =~= spec_deck_to(v + 1));
        }
        v = v + 1;
    }
    cards
}

/// An ordered deck of cards; freshly built it holds the canonical 52.
pub struct Deck {
    pub cards: Vec<Card>,
}

impl Deck {
    pub fn new() -> (d: Deck)
        ensures
            d.cards@ == spec_full_deck(),
    {
        Deck { cards: all_cards() }
    }

    /// Shuffles the deck in place with the injected random source.
    pub fn shuffle(&mut self, rng: &mut rand::rngs::StdRng)
        ensures
            final(self).cards@.to_multiset() == old(self).cards@.to_multiset(),
    {
        crate::randsrc::shuffle_cards(&mut self.cards, rng);
    }
}

} // verus!
