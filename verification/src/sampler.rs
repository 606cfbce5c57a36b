//! The constrained hidden-hand sampler: given the unseen cards and a
//! per-player constraint (how many cards, which suits they are void in,
//! which cards are pinned to them), produce a random assignment of the
//! cards to the players that honors every constraint.

use vstd::prelude::*;
use crate::card::{Card, CardError, Suit};
use crate::hearts::{clone_cards, contains_card};

verus! {

/// What is known about one player's hidden hand.
#[derive(Debug)]
pub struct CardDistributionPlayerConstraint {
    pub num_cards: usize,
    pub voided_suits: Vec<Suit>,
    pub fixed_cards: Vec<Card>,
}

/// The unseen cards together with every player's constraint. A fixed
/// card that is not among `cards` is simply not handed out.
pub struct CardDistributionRequest {
    pub cards: Vec<Card>,
    pub constraints: Vec<CardDistributionPlayerConstraint>,
}

/// Whether a card may be given to player `i`: it is one of the unseen
/// cards, not of a suit the player is void in, and not pinned to
/// somebody else.
pub open spec fn spec_legal_for(req: CardDistributionRequest, i: int, c: Card) -> bool {
    &&& req.cards@.contains(c)
    &&& !req.constraints@[i].voided_suits@.contains(c.suit)
    &&& forall|j: int| 0 <= j < req.constraints@.len() && j != i
        ==> !(#[trigger] req.constraints@[j]).fixed_cards@.contains(c)
}

/// The cards that may be dealt to player `i` before anything is drawn.
pub open spec fn spec_initial_pool(req: CardDistributionRequest, i: int) -> Seq<Card> {
    req.cards@.filter(|c: Card| spec_legal_for(req, i, c))
}

/// What every successful assignment satisfies: the right number of
/// cards per player, each legal for its player, no duplicates, and no
/// card handed to two players.
pub open spec fn spec_distribution_ok(req: CardDistributionRequest, dist: Seq<Vec<Card>>) -> bool {
    &&& dist.len() == req.constraints@.len()
    &&& forall|i: int| 0 <= i < dist.len()
        ==> (#[trigger] dist[i])@.len() == req.constraints@[i].num_cards
    &&& forall|i: int, k: int| 0 <= i < dist.len() && 0 <= k < dist[i]@.len()
        ==> spec_legal_for(req, i, #[trigger] dist[i]@[k])
    &&& forall|i: int| 0 <= i < dist.len() ==> (#[trigger] dist[i])@.no_duplicates()
    &&& forall|i: int, j: int, c: Card|
        0 <= i < dist.len() && 0 <= j < dist.len() && i != j && #[trigger] dist[i]@.contains(c)
        ==> !(#[trigger] dist[j]@.contains(c))
}

/// The number of cards the players are owed in total.
pub open spec fn spec_cards_needed(cs: Seq<CardDistributionPlayerConstraint>) -> int
    decreases cs.len(),
{
    if cs.len() == 0 {
        0
    } else {
        spec_cards_needed(cs.drop_last()) + cs.last().num_cards
    }
}

/// When the players are owed exactly the unseen cards, every unseen
/// card ends up with somebody; in particular a fixed card that is among
/// the unseen cards goes to the player it is pinned to.
pub open spec fn spec_distribution_covers(req: CardDistributionRequest, dist: Seq<Vec<Card>>) -> bool {
    spec_cards_needed(req.constraints@) == req.cards@.len()
        ==> forall|c: Card| req.cards@.contains(c)
            ==> exists|i: int| 0 <= i < dist.len() && (#[trigger] dist[i])@.contains(c)
}

/// Dealing never recovers ground: what a player holds plus what is
/// still dealable to them never exceeds their initial pool.
pub open spec fn spec_pools_bounded(req: CardDistributionRequest, result: Seq<Vec<Card>>, legal: Seq<Vec<Card>>) -> bool {
    forall|k: int| 0 <= k < req.constraints@.len()
        ==> (#[trigger] result[k])@.len() + (#[trigger] legal[k])@.len()
            <= spec_initial_pool(req, k).len()
}

/// How many cards the players are still owed.
pub open spec fn spec_need_sum(cs: Seq<CardDistributionPlayerConstraint>, rs: Seq<Vec<Card>>) -> int
    decreases cs.len(),
{
    if cs.len() == 0 {
        0
    } else {
        spec_need_sum(cs.drop_last(), rs.drop_last()) + (cs.last().num_cards - rs.last()@.len())
    }
}

proof fn lemma_need_sum_update(cs: Seq<CardDistributionPlayerConstraint>, rs: Seq<Vec<Card>>, i: int, v: Vec<Card>)
    requires
        cs.len() == rs.len(),
        0 <= i < rs.len(),
    ensures
        spec_need_sum(cs, rs.update(i, v)) == spec_need_sum(cs, rs) + rs[i]@.len() - v@.len(),
    decreases cs.len(),
{
    let upd = rs.update(i, v);
    if i == rs.len() - 1 {
        assert(upd.drop_last() =~= rs.drop_last());
        assert(upd.last() == v);
    } else {
        assert(upd.drop_last() =~= rs.drop_last().update(i, v));
        assert(upd.last() == rs.last());
        lemma_need_sum_update(cs.drop_last(), rs.drop_last(), i, v);
    }
}

proof fn lemma_need_sum_nonneg(cs: Seq<CardDistributionPlayerConstraint>, rs: Seq<Vec<Card>>)
    requires
        cs.len() == rs.len(),
        forall|k: int| 0 <= k < rs.len() ==> (#[trigger] rs[k])@.len() <= cs[k].num_cards,
    ensures
        spec_need_sum(cs, rs) >= 0,
    decreases cs.len(),
{
    if cs.len() > 0 {
        lemma_need_sum_nonneg(cs.drop_last(), rs.drop_last());
        assert(rs.last() == rs[rs.len() - 1]);
    }
}

/// Rebuilds each pool without the taken cards.
fn remove_cards_from_pools(legal: &mut Vec<Vec<Card>>, taken: &Vec<Card>)
    ensures
        final(legal)@.len() == old(legal)@.len(),
        forall|i: int| 0 <= i < old(legal)@.len()
            ==> (#[trigger] final(legal)@[i])@
                == old(legal)@[i]@.filter(|x: Card| !taken@.contains(x)),
{
    let n = legal.len();
    let mut i: usize = 0;
    while i < n
        invariant
            n == legal@.len(),
            n == old(legal)@.len(),
            i <= n,
            forall|k: int| i <= k < n ==> #[trigger] legal@[k] == old(legal)@[k],
            forall|k: int| 0 <= k < i
                ==> (#[trigger] legal@[k])@ == old(legal)@[k]@.filter(|x: Card| !taken@.contains(x)),
        decreases n - i,
    {
        let ghost pool = legal@[i as int]@;
        let m = legal[i].len();
        let mut kept: Vec<Card> = Vec::new();
        proof {
            reveal(Seq::filter);
            assert(pool.take(0) =~= Seq::<Card>::empty());
            assert(kept@ =~= pool.take(0).filter(|x: Card| !taken@.contains(x)));
        }
        let mut j: usize = 0;
        while j < m
            invariant
                i < legal@.len(),
                pool == legal@[i as int]@,
                m == pool.len(),
                j <= m,
                kept@ == pool.take(j as int).filter(|x: Card| !taken@.contains(x)),
            decreases m - j,
        {
            proof {
                reveal(Seq::filter);
                assert(pool.take(j + 1).drop_last() =~= pool.take(j as int));
                assert(pool.take(j + 1).last() == pool[j as int]);
            }
            let c = legal[i][j];
            if !contains_card(taken, &c) {
                kept.push(c);
            }
            j = j + 1;
        }
        proof {
            assert(pool.take(m as int) =~= pool);
        }
        legal.set(i, kept);
        i = i + 1;
    }
}

/// One attempt at an assignment: pools of still-assignable cards per
/// player shrink as cards are dealt out, a player whose remaining need
/// equals their pool takes it whole, and otherwise the first player
/// still owed cards draws one at random from their pool.
pub fn _possible_card_distribution(
    req: &CardDistributionRequest,
    rng: &mut rand::rngs::StdRng,
) -> (r: Result<Vec<Vec<Card>>, CardError>)
    requires
        req.cards@.no_duplicates(),
    ensures
        match r {
            Ok(dist) => spec_distribution_ok(*req, dist@) && spec_distribution_covers(*req, dist@),
            Err(_) => true,
        },
        // with nothing owed there is nothing to draw: the attempt succeeds
        (forall|i: int| 0 <= i < req.constraints@.len()
            ==> (#[trigger] req.constraints@[i]).num_cards == 0) ==> r is Ok,
        // a player owed more cards than could ever be dealt to them dooms
        // the attempt before any draw
        (exists|i: int| 0 <= i < req.constraints@.len()
            && (#[trigger] req.constraints@[i]).num_cards > spec_initial_pool(*req, i).len())
            ==> r is Err,
{
    broadcast use vstd::seq_lib::group_seq_lib_default;

    let num_players = req.constraints.len();
    let ghost n = num_players as int;
    let mut result: Vec<Vec<Card>> = Vec::new();
    let mut legal_cards: Vec<Vec<Card>> = Vec::new();
    // build each player's pool of assignable cards
    let mut i: usize = 0;
    while i < num_players
        invariant
            num_players == req.constraints@.len(),
            req.cards@.no_duplicates(),
            i <= num_players,
            result@.len() == i,
            legal_cards@.len() == i,
            forall|k: int| 0 <= k < i ==> (#[trigger] result@[k])@.len() == 0,
            forall|k: int, m: int| 0 <= k < i && 0 <= m < legal_cards@[k]@.len()
                ==> spec_legal_for(*req, k, #[trigger] legal_cards@[k]@[m]),
            forall|k: int| 0 <= k < i ==> (#[trigger] legal_cards@[k])@.no_duplicates(),
            forall|k: int| 0 <= k < i ==> (#[trigger] legal_cards@[k])@ == spec_initial_pool(*req, k),
        decreases num_players - i,
    {
        let m = req.cards.len();
        let mut pool: Vec<Card> = Vec::new();
        proof {
            reveal(Seq::filter);
            assert(req.cards@.take(0) =~= Seq::<Card>::empty());
            assert(pool@ =~= req.cards@.take(0).filter(|c: Card| spec_legal_for(*req, i as int, c)));
        }
        let mut j: usize = 0;
        while j < m
            invariant
                num_players == req.constraints@.len(),
                i < num_players,
                req.cards@.no_duplicates(),
                m == req.cards@.len(),
                j <= m,
                forall|k: int| 0 <= k < pool@.len()
                    ==> spec_legal_for(*req, i as int, #[trigger] pool@[k]),
                pool@.no_duplicates(),
                forall|k: int| 0 <= k < pool@.len()
                    ==> exists|l: int| 0 <= l < j && req.cards@[l] == #[trigger] pool@[k],
                pool@ == req.cards@.take(j as int).filter(|c: Card| spec_legal_for(*req, i as int, c)),
            decreases m - j,
        {
            proof {
                reveal(Seq::filter);
                assert(req.cards@.take(j + 1).drop_last() =~= req.cards@.take(j as int));
                assert(req.cards@.take(j + 1).last() == req.cards@[j as int]);
            }
            let c = req.cards[j];
            // the card must not be of a voided suit nor fixed to another player
            let mut ok = !contains_suit(&req.constraints[i].voided_suits, c.suit);
            if ok {
                let mut q: usize = 0;
                while q < num_players
                    invariant
                        num_players == req.constraints@.len(),
                        i < num_players,
                        q <= num_players,
                        c == req.cards@[j as int],
                        ok ==> !req.constraints@[i as int].voided_suits@.contains(c.suit),
                        ok ==> forall|t: int| 0 <= t < q && t != i
                            ==> !(#[trigger] req.constraints@[t]).fixed_cards@.contains(c),
                        !ok ==> exists|t: int| 0 <= t < num_players && t != i
                            && (#[trigger] req.constraints@[t]).fixed_cards@.contains(c),
                    ensures
                        ok ==> !req.constraints@[i as int].voided_suits@.contains(c.suit),
                        ok ==> forall|t: int| 0 <= t < num_players && t != i
                            ==> !(#[trigger] req.constraints@[t]).fixed_cards@.contains(c),
                        !ok ==> exists|t: int| 0 <= t < num_players && t != i
                            && (#[trigger] req.constraints@[t]).fixed_cards@.contains(c),
                    decreases num_players - q,
                {
                    if q != i {
                        if contains_card(&req.constraints[q].fixed_cards, &c) {
                            proof {
                                assert(req.constraints@[q as int].fixed_cards@.contains(c));
                            }
                            ok = false;
                            break;
                        }
                    }
                    q = q + 1;
                }
            }
            if ok {
                proof {
                    assert(req.cards@.contains(c));
                    assert(spec_legal_for(*req, i as int, c));
                    assert forall|k: int| 0 <= k < pool@.len() implies pool@[k] != c by {
                        let l = choose|l: int| 0 <= l < j && req.cards@[l] == pool@[k];
                        assert(req.cards@[l] != req.cards@[j as int]);
                    }
                }
                pool.push(c);
            } else {
                proof {
                    assert(!spec_legal_for(*req, i as int, c));
                }
            }
            j = j + 1;
        }
        proof {
            assert(req.cards@.take(m as int) =~= req.cards@);
            assert(pool@ == spec_initial_pool(*req, i as int));
        }
        legal_cards.push(pool);
        result.push(Vec::new());
        i = i + 1;
    }
    // hand the cards out
    loop
        invariant
            n == num_players as int,
            num_players == req.constraints@.len(),
            req.cards@.no_duplicates(),
            result@.len() == num_players,
            legal_cards@.len() == num_players,
            forall|k: int| 0 <= k < n
                ==> (#[trigger] result@[k])@.len() <= req.constraints@[k].num_cards,
            forall|k: int, m: int| 0 <= k < n && 0 <= m < legal_cards@[k]@.len()
                ==> spec_legal_for(*req, k, #[trigger] legal_cards@[k]@[m]),
            forall|k: int| 0 <= k < n ==> (#[trigger] legal_cards@[k])@.no_duplicates(),
            forall|k: int, m: int| 0 <= k < n && 0 <= m < result@[k]@.len()
                ==> spec_legal_for(*req, k, #[trigger] result@[k]@[m]),
            forall|k: int| 0 <= k < n ==> (#[trigger] result@[k])@.no_duplicates(),
            forall|k: int, l: int, c: Card|
                0 <= k < n && 0 <= l < n && k != l && #[trigger] result@[k]@.contains(c)
                ==> !(#[trigger] result@[l]@.contains(c)),
            forall|k: int, l: int, c: Card|
                0 <= k < n && 0 <= l < n && #[trigger] legal_cards@[k]@.contains(c)
                ==> !(#[trigger] result@[l]@.contains(c)),
            spec_pools_bounded(*req, result@, legal_cards@),
        ensures
            n == num_players as int,
            num_players == req.constraints@.len(),
            result@.len() == num_players,
            spec_pools_bounded(*req, result@, legal_cards@),
            forall|k: int| 0 <= k < n
                ==> (#[trigger] result@[k])@.len() == req.constraints@[k].num_cards,
            forall|k: int, m: int| 0 <= k < n && 0 <= m < result@[k]@.len()
                ==> spec_legal_for(*req, k, #[trigger] result@[k]@[m]),
            forall|k: int| 0 <= k < n ==> (#[trigger] result@[k])@.no_duplicates(),
            forall|k: int, l: int, c: Card|
                0 <= k < n && 0 <= l < n && k != l && #[trigger] result@[k]@.contains(c)
                ==> !(#[trigger] result@[l]@.contains(c)),
        decreases spec_need_sum(req.constraints@, result@),
    {
        proof {
            lemma_need_sum_nonneg(req.constraints@, result@);
        }
        let ghost iter_result = result@;
        // a player whose remaining need matches their pool takes it whole
        let mut took_all = false;
        let mut i: usize = 0;
        while i < num_players
            invariant_except_break
                !took_all,
            invariant
                n == num_players as int,
                num_players == req.constraints@.len(),
                req.cards@.no_duplicates(),
                result@.len() == num_players,
                legal_cards@.len() == num_players,
                i <= num_players,
                !took_all ==> result@ == iter_result,
                took_all ==> spec_need_sum(req.constraints@, result@)
                    < spec_need_sum(req.constraints@, iter_result),
                forall|k: int| 0 <= k < n
                    ==> (#[trigger] result@[k])@.len() <= req.constraints@[k].num_cards,
                forall|k: int, m: int| 0 <= k < n && 0 <= m < legal_cards@[k]@.len()
                    ==> spec_legal_for(*req, k, #[trigger] legal_cards@[k]@[m]),
                forall|k: int| 0 <= k < n ==> (#[trigger] legal_cards@[k])@.no_duplicates(),
                forall|k: int, m: int| 0 <= k < n && 0 <= m < result@[k]@.len()
                    ==> spec_legal_for(*req, k, #[trigger] result@[k]@[m]),
                forall|k: int| 0 <= k < n ==> (#[trigger] result@[k])@.no_duplicates(),
                forall|k: int, l: int, c: Card|
                    0 <= k < n && 0 <= l < n && k != l && #[trigger] result@[k]@.contains(c)
                    ==> !(#[trigger] result@[l]@.contains(c)),
                forall|k: int, l: int, c: Card|
                    0 <= k < n && 0 <= l < n && #[trigger] legal_cards@[k]@.contains(c)
                    ==> !(#[trigger] result@[l]@.contains(c)),
                spec_pools_bounded(*req, result@, legal_cards@),
                !took_all ==> forall|k: int| 0 <= k < i
                    ==> (#[trigger] result@[k])@.len() == req.constraints@[k].num_cards
                        || result@[k]@.len() + legal_cards@[k]@.len() > req.constraints@[k].num_cards,
            ensures
                n == num_players as int,
                num_players == req.constraints@.len(),
                result@.len() == num_players,
                legal_cards@.len() == num_players,
                !took_all ==> result@ == iter_result,
                took_all ==> spec_need_sum(req.constraints@, result@)
                    < spec_need_sum(req.constraints@, iter_result),
                forall|k: int| 0 <= k < n
                    ==> (#[trigger] result@[k])@.len() <= req.constraints@[k].num_cards,
                forall|k: int, m: int| 0 <= k < n && 0 <= m < legal_cards@[k]@.len()
                    ==> spec_legal_for(*req, k, #[trigger] legal_cards@[k]@[m]),
                forall|k: int| 0 <= k < n ==> (#[trigger] legal_cards@[k])@.no_duplicates(),
                forall|k: int, m: int| 0 <= k < n && 0 <= m < result@[k]@.len()
                    ==> spec_legal_for(*req, k, #[trigger] result@[k]@[m]),
                forall|k: int| 0 <= k < n ==> (#[trigger] result@[k])@.no_duplicates(),
                forall|k: int, l: int, c: Card|
                    0 <= k < n && 0 <= l < n && k != l && #[trigger] result@[k]@.contains(c)
                    ==> !(#[trigger] result@[l]@.contains(c)),
                forall|k: int, l: int, c: Card|
                    0 <= k < n && 0 <= l < n && #[trigger] legal_cards@[k]@.contains(c)
                    ==> !(#[trigger] result@[l]@.contains(c)),
                spec_pools_bounded(*req, result@, legal_cards@),
                !took_all ==> forall|k: int| 0 <= k < n
                    ==> (#[trigger] result@[k])@.len() == req.constraints@[k].num_cards
                        || result@[k]@.len() + legal_cards@[k]@.len() > req.constraints@[k].num_cards,
            decreases num_players - i,
        {
            let have = result[i].len();
            let want = req.constraints[i].num_cards;
            if have < want {
                let need = want - have;
                let num_legal = legal_cards[i].len();
                if need > num_legal {
                    proof {
                        // somebody was owed something, so the all-zero case
                        // cannot end here
                        assert(req.constraints@[i as int].num_cards > 0);
                    }
                    return Err(CardError::new("Cannot satisfy constraints"));
                }
                if need == num_legal {
                    // the pool is forced: give it to this player entirely
                    let ghost old_legal = legal_cards@;
                    let ghost old_result = result@;
                    let taken = clone_cards(&legal_cards[i]);
                    let ghost old_res = result@[i as int]@;
                    let mut mine = clone_cards(&result[i]);
                    let mut t: usize = 0;
                    let tl = taken.len();
                    while t < tl
                        invariant
                            tl == taken@.len(),
                            t <= tl,
                            mine@ == old_res + taken@.take(t as int),
                        decreases tl - t,
                    {
                        proof {
                            assert(taken@.take(t + 1) =~= taken@.take(t as int).push(taken@[t as int]));
                            assert(old_res + taken@.take(t + 1)
                                =~= (old_res + taken@.take(t as int)).push(taken@[t as int]));
                        }
                        mine.push(taken[t]);
                        t = t + 1;
                    }
                    proof {
                        assert(taken@.take(tl as int) =~= taken@);
                    }
                    proof {
                        lemma_need_sum_update(req.constraints@, result@, i as int, mine);
                    }
                    result.set(i, mine);
                    remove_cards_from_pools(&mut legal_cards, &taken);
                    proof {
                        assert(forall|m: int| 0 <= m < taken@.len()
                            ==> old_legal[i as int]@.contains(#[trigger] taken@[m]));
                        lemma_after_assign(*req, old_legal, legal_cards@, old_result, result@, taken@, i as int);
                        // the whole pool moved into the hand, so holdings
                        // plus pool are unchanged; other pools only shrank
                        assert forall|k: int| 0 <= k < n implies
                            (#[trigger] result@[k])@.len() + (#[trigger] legal_cards@[k])@.len()
                                <= spec_initial_pool(*req, k).len() by {
                            assert(old_result[k]@.len() + old_legal[k]@.len()
                                <= spec_initial_pool(*req, k).len());
                            if k == i as int {
                                crate::hearts::lemma_filter_out_len(old_legal[k]@, taken@);
                                assert(legal_cards@[k]@.len() == 0);
                                assert(result@[k]@.len() == old_result[k]@.len() + taken@.len());
                            } else {
                                old_legal[k]@.lemma_filter_len(|x: Card| !taken@.contains(x));
                                assert(result@[k] == old_result[k]);
                            }
                        }
                    }
                    took_all = true;
                    break;
                }
            }
            i = i + 1;
        }
        if took_all {
            proof {
                lemma_need_sum_nonneg(req.constraints@, result@);
            }
            continue;
        }
        // otherwise the first player still owed cards draws one at random
        let mut chose_card = false;
        let mut i: usize = 0;
        while i < num_players
            invariant_except_break
                !chose_card,
            invariant
                n == num_players as int,
                num_players == req.constraints@.len(),
                req.cards@.no_duplicates(),
                result@.len() == num_players,
                legal_cards@.len() == num_players,
                i <= num_players,
                !chose_card ==> result@ == iter_result,
                chose_card ==> spec_need_sum(req.constraints@, result@)
                    < spec_need_sum(req.constraints@, iter_result),
                forall|k: int| 0 <= k < n
                    ==> (#[trigger] result@[k])@.len() <= req.constraints@[k].num_cards,
                forall|k: int, m: int| 0 <= k < n && 0 <= m < legal_cards@[k]@.len()
                    ==> spec_legal_for(*req, k, #[trigger] legal_cards@[k]@[m]),
                forall|k: int| 0 <= k < n ==> (#[trigger] legal_cards@[k])@.no_duplicates(),
                forall|k: int, m: int| 0 <= k < n && 0 <= m < result@[k]@.len()
                    ==> spec_legal_for(*req, k, #[trigger] result@[k]@[m]),
                forall|k: int| 0 <= k < n ==> (#[trigger] result@[k])@.no_duplicates(),
                forall|k: int, l: int, c: Card|
                    0 <= k < n && 0 <= l < n && k != l && #[trigger] result@[k]@.contains(c)
                    ==> !(#[trigger] result@[l]@.contains(c)),
                forall|k: int, l: int, c: Card|
                    0 <= k < n && 0 <= l < n && #[trigger] legal_cards@[k]@.contains(c)
                    ==> !(#[trigger] result@[l]@.contains(c)),
                spec_pools_bounded(*req, result@, legal_cards@),
                !chose_card ==> forall|k: int| 0 <= k < n
                    ==> (#[trigger] result@[k])@.len() == req.constraints@[k].num_cards
                        || result@[k]@.len() + legal_cards@[k]@.len() > req.constraints@[k].num_cards,
                forall|k: int| 0 <= k < i
                    ==> (#[trigger] result@[k])@.len() == req.constraints@[k].num_cards,
            ensures
                n == num_players as int,
                num_players == req.constraints@.len(),
                result@.len() == num_players,
                legal_cards@.len() == num_players,
                chose_card ==> spec_need_sum(req.constraints@, result@)
                    < spec_need_sum(req.constraints@, iter_result),
                forall|k: int| 0 <= k < n
                    ==> (#[trigger] result@[k])@.len() <= req.constraints@[k].num_cards,
                forall|k: int, m: int| 0 <= k < n && 0 <= m < legal_cards@[k]@.len()
                    ==> spec_legal_for(*req, k, #[trigger] legal_cards@[k]@[m]),
                forall|k: int| 0 <= k < n ==> (#[trigger] legal_cards@[k])@.no_duplicates(),
                forall|k: int, m: int| 0 <= k < n && 0 <= m < result@[k]@.len()
                    ==> spec_legal_for(*req, k, #[trigger] result@[k]@[m]),
                forall|k: int| 0 <= k < n ==> (#[trigger] result@[k])@.no_duplicates(),
                forall|k: int, l: int, c: Card|
                    0 <= k < n && 0 <= l < n && k != l && #[trigger] result@[k]@.contains(c)
                    ==> !(#[trigger] result@[l]@.contains(c)),
                forall|k: int, l: int, c: Card|
                    0 <= k < n && 0 <= l < n && #[trigger] legal_cards@[k]@.contains(c)
                    ==> !(#[trigger] result@[l]@.contains(c)),
                spec_pools_bounded(*req, result@, legal_cards@),
                !chose_card ==> forall|k: int| 0 <= k < n
                    ==> (#[trigger] result@[k])@.len() == req.constraints@[k].num_cards,
            decreases num_players - i,
        {
            let have = result[i].len();
            let want = req.constraints[i].num_cards;
            if have < want {
                // the forced-fill scan found no exact match, so the pool
                // is strictly larger than the need
                proof {
                    assert(result@[i as int]@.len() + legal_cards@[i as int]@.len()
                        > req.constraints@[i as int].num_cards);
                }
                let ghost old_legal = legal_cards@;
                let ghost old_result = result@;
                let c = *crate::randsrc::random_from_set(&legal_cards[i], rng);
                let ghost old_res = result@[i as int]@;
                let mut mine = clone_cards(&result[i]);
                proof {
                    assert(legal_cards@[i as int]@.contains(c));
                }
                mine.push(c);
                proof {
                    lemma_need_sum_update(req.constraints@, result@, i as int, mine);
                }
                result.set(i, mine);
                let mut single: Vec<Card> = Vec::new();
                single.push(c);
                remove_cards_from_pools(&mut legal_cards, &single);
                proof {
                    assert(single@ =~= seq![c]);
                    assert(single@.no_duplicates());
                    assert(result@[i as int]@ =~= old_res + single@);
                    assert(forall|m: int| 0 <= m < single@.len()
                        ==> old_legal[i as int]@.contains(#[trigger] single@[m]));
                    lemma_after_assign(*req, old_legal, legal_cards@, old_result, result@, single@, i as int);
                    // one card moved from the pool into the hand; other
                    // pools only shrank
                    assert forall|k: int| 0 <= k < n implies
                        (#[trigger] result@[k])@.len() + (#[trigger] legal_cards@[k])@.len()
                            <= spec_initial_pool(*req, k).len() by {
                        assert(old_result[k]@.len() + old_legal[k]@.len()
                            <= spec_initial_pool(*req, k).len());
                        if k == i as int {
                            crate::hearts::lemma_filter_out_len(old_legal[k]@, single@);
                            assert(legal_cards@[k]@.len() == old_legal[k]@.len() - 1);
                            assert(result@[k]@.len() == old_result[k]@.len() + 1);
                        } else {
                            old_legal[k]@.lemma_filter_len(|x: Card| !single@.contains(x));
                            assert(result@[k] == old_result[k]);
                        }
                    }
                }
                chose_card = true;
                break;
            }
            i = i + 1;
        }
        if !chose_card {
            // everybody has their full hand
            break;
        }
        proof {
            lemma_need_sum_nonneg(req.constraints@, result@);
        }
    }
    proof {
        lemma_distribution_covers(*req, result@);
        // everybody was served out of their own pool, so nobody was owed
        // more than their pool ever held
        assert forall|i0: int| 0 <= i0 < req.constraints@.len() implies
            !((#[trigger] req.constraints@[i0]).num_cards > spec_initial_pool(*req, i0).len()) by {
            assert(result@[i0]@.len() == req.constraints@[i0].num_cards);
            assert(result@[i0]@.len() + legal_cards@[i0]@.len() <= spec_initial_pool(*req, i0).len());
        }
    }
    Ok(result)
}

fn contains_suit(suits: &Vec<Suit>, s: Suit) -> (r: bool)
    ensures
        r == suits@.contains(s),
{
    let n = suits.len();
    let mut i: usize = 0;
    while i < n
        invariant
            n == suits@.len(),
            i <= n,
            forall|k: int| 0 <= k < i ==> suits@[k] != s,
        decreases n - i,
    {
        if suits[i] == s {
            return true;
        }
        i = i + 1;
    }
    false
}

/// After giving player `i` the cards `taken` out of their pool and
/// striking those cards from every pool, all bookkeeping still holds:
/// pool and hand entries stay legal and duplicate-free, hands stay
/// pairwise disjoint, and no pool holds an assigned card.
proof fn lemma_after_assign(
    req: CardDistributionRequest,
    old_legal: Seq<Vec<Card>>,
    new_legal: Seq<Vec<Card>>,
    old_result: Seq<Vec<Card>>,
    new_result: Seq<Vec<Card>>,
    taken: Seq<Card>,
    i: int,
)
    requires
        old_legal.len() == req.constraints@.len(),
        new_legal.len() == req.constraints@.len(),
        old_result.len() == req.constraints@.len(),
        new_result.len() == req.constraints@.len(),
        0 <= i < req.constraints@.len(),
        forall|k: int, m: int| 0 <= k < old_legal.len() && 0 <= m < old_legal[k]@.len()
            ==> spec_legal_for(req, k, #[trigger] old_legal[k]@[m]),
        forall|k: int| 0 <= k < old_legal.len() ==> (#[trigger] old_legal[k])@.no_duplicates(),
        forall|k: int, m: int| 0 <= k < old_result.len() && 0 <= m < old_result[k]@.len()
            ==> spec_legal_for(req, k, #[trigger] old_result[k]@[m]),
        forall|k: int| 0 <= k < old_result.len() ==> (#[trigger] old_result[k])@.no_duplicates(),
        forall|k: int, l: int, c: Card|
            0 <= k < old_result.len() && 0 <= l < old_result.len() && k != l
                && #[trigger] old_result[k]@.contains(c)
            ==> !(#[trigger] old_result[l]@.contains(c)),
        forall|k: int, l: int, c: Card|
            0 <= k < old_legal.len() && 0 <= l < old_result.len()
                && #[trigger] old_legal[k]@.contains(c)
            ==> !(#[trigger] old_result[l]@.contains(c)),
        taken.no_duplicates(),
        forall|m: int| 0 <= m < taken.len() ==> old_legal[i]@.contains(#[trigger] taken[m]),
        forall|k: int| 0 <= k < new_legal.len() ==> (#[trigger] new_legal[k])@
            == old_legal[k]@.filter(|x: Card| !taken.contains(x)),
        new_result[i]@ == old_result[i]@ + taken,
        forall|k: int| 0 <= k < new_result.len() && k != i
            ==> #[trigger] new_result[k] == old_result[k],
    ensures
        forall|k: int, m: int| 0 <= k < new_legal.len() && 0 <= m < new_legal[k]@.len()
            ==> spec_legal_for(req, k, #[trigger] new_legal[k]@[m]),
        forall|k: int| 0 <= k < new_legal.len() ==> (#[trigger] new_legal[k])@.no_duplicates(),
        forall|k: int, m: int| 0 <= k < new_result.len() && 0 <= m < new_result[k]@.len()
            ==> spec_legal_for(req, k, #[trigger] new_result[k]@[m]),
        forall|k: int| 0 <= k < new_result.len() ==> (#[trigger] new_result[k])@.no_duplicates(),
        forall|k: int, l: int, c: Card|
            0 <= k < new_result.len() && 0 <= l < new_result.len() && k != l
                && #[trigger] new_result[k]@.contains(c)
            ==> !(#[trigger] new_result[l]@.contains(c)),
        forall|k: int, l: int, c: Card|
            0 <= k < new_legal.len() && 0 <= l < new_result.len()
                && #[trigger] new_legal[k]@.contains(c)
            ==> !(#[trigger] new_result[l]@.contains(c)),
{
    let n = req.constraints@.len() as int;
    let pred = |x: Card| !taken.contains(x);
    // the shrunk pools are made of old pool members
    assert forall|k: int, c: Card| 0 <= k < n && #[trigger] new_legal[k]@.contains(c)
        implies old_legal[k]@.contains(c) && !taken.contains(c) by {
        old_legal[k]@.lemma_filter_contains_rev(pred, c);
        let m = choose|m: int| 0 <= m < new_legal[k]@.len() && new_legal[k]@[m] == c;
        old_legal[k]@.lemma_filter_pred(pred, m);
    }
    assert forall|k: int, m: int| 0 <= k < n && 0 <= m < new_legal[k]@.len()
        implies spec_legal_for(req, k, #[trigger] new_legal[k]@[m]) by {
        assert(new_legal[k]@.contains(new_legal[k]@[m]));
        assert(old_legal[k]@.contains(new_legal[k]@[m]));
        let m2 = choose|m2: int| 0 <= m2 < old_legal[k]@.len() && old_legal[k]@[m2] == new_legal[k]@[m];
        assert(spec_legal_for(req, k, old_legal[k]@[m2]));
    }
    assert forall|k: int| 0 <= k < n implies (#[trigger] new_legal[k])@.no_duplicates() by {
        crate::hearts::lemma_filter_no_dup(old_legal[k]@, pred);
    }
    // the new hand of player `i` is legal, duplicate-free, and disjoint
    // from the others
    assert forall|m: int| 0 <= m < new_result[i]@.len()
        implies spec_legal_for(req, i, #[trigger] new_result[i]@[m]) by {
        if m < old_result[i]@.len() {
            assert(new_result[i]@[m] == old_result[i]@[m]);
        } else {
            assert(new_result[i]@[m] == taken[m - old_result[i]@.len()]);
            let c = taken[m - old_result[i]@.len()];
            assert(old_legal[i]@.contains(c));
            let m2 = choose|m2: int| 0 <= m2 < old_legal[i]@.len() && old_legal[i]@[m2] == c;
            assert(spec_legal_for(req, i, old_legal[i]@[m2]));
        }
    }
    assert forall|k: int, m: int| 0 <= k < n && 0 <= m < new_result[k]@.len()
        implies spec_legal_for(req, k, #[trigger] new_result[k]@[m]) by {
        if k != i {
            assert(new_result[k] == old_result[k]);
        }
    }
    assert((#[trigger] new_result[i])@.no_duplicates()) by {
        assert forall|c: Card| #[trigger] old_result[i]@.contains(c) implies !taken.contains(c) by {
            if taken.contains(c) {
                let m = choose|m: int| 0 <= m < taken.len() && taken[m] == c;
                assert(old_legal[i]@.contains(c));
            }
        }
        crate::hearts::lemma_add_no_dup(old_result[i]@, taken);
    }
    // membership in the new hand of player `i`
    assert forall|c: Card| #[trigger] new_result[i]@.contains(c)
        implies old_result[i]@.contains(c) || taken.contains(c) by {
        let m = choose|m: int| 0 <= m < new_result[i]@.len() && new_result[i]@[m] == c;
        if m < old_result[i]@.len() {
            assert(old_result[i]@[m] == c);
        } else {
            assert(taken[m - old_result[i]@.len()] == c);
        }
    }
    assert forall|k: int, l: int, c: Card|
        0 <= k < n && 0 <= l < n && k != l && #[trigger] new_result[k]@.contains(c)
        implies !(#[trigger] new_result[l]@.contains(c)) by {
        if new_result[l]@.contains(c) {
            if k == i {
                assert(old_result[l]@.contains(c));
                if old_result[i]@.contains(c) {
                    assert(false);
                } else {
                    assert(taken.contains(c));
                    let m = choose|m: int| 0 <= m < taken.len() && taken[m] == c;
                    assert(old_legal[i]@.contains(c));
                    assert(false);
                }
            } else if l == i {
                assert(old_result[k]@.contains(c));
                if old_result[i]@.contains(c) {
                    assert(false);
                } else {
                    assert(taken.contains(c));
                    let m = choose|m: int| 0 <= m < taken.len() && taken[m] == c;
                    assert(old_legal[i]@.contains(c));
                    assert(false);
                }
            } else {
                assert(old_result[k]@.contains(c));
                assert(old_result[l]@.contains(c));
                assert(false);
            }
        }
    }
    // no pool still holds an assigned card
    assert forall|k: int, l: int, c: Card|
        0 <= k < n && 0 <= l < n && #[trigger] new_legal[k]@.contains(c)
        implies !(#[trigger] new_result[l]@.contains(c)) by {
        assert(old_legal[k]@.contains(c) && !taken.contains(c));
        if new_result[l]@.contains(c) {
            if l == i {
                assert(old_result[i]@.contains(c) || taken.contains(c));
                assert(false);
            } else {
                assert(old_result[l]@.contains(c));
                assert(false);
            }
        }
    }
}

/// With as many cards owed as there are cards, the disjoint
/// duplicate-free hands drawn from them cover them all.
proof fn lemma_distribution_covers(req: CardDistributionRequest, dist: Seq<Vec<Card>>)
    requires
        req.cards@.no_duplicates(),
        dist.len() == req.constraints@.len(),
        forall|i: int| 0 <= i < dist.len()
            ==> (#[trigger] dist[i])@.len() == req.constraints@[i].num_cards,
        forall|i: int, k: int| 0 <= i < dist.len() && 0 <= k < dist[i]@.len()
            ==> spec_legal_for(req, i, #[trigger] dist[i]@[k]),
        forall|i: int| 0 <= i < dist.len() ==> (#[trigger] dist[i])@.no_duplicates(),
        forall|i: int, j: int, c: Card|
            0 <= i < dist.len() && 0 <= j < dist.len() && i != j && #[trigger] dist[i]@.contains(c)
            ==> !(#[trigger] dist[j]@.contains(c)),
    ensures
        spec_distribution_covers(req, dist),
{
    if spec_cards_needed(req.constraints@) == req.cards@.len() {
        let u = spec_union_up_to(dist, dist.len() as int);
        lemma_union_properties(req, dist, dist.len() as int);
        req.cards@.unique_seq_to_set();
        assert(req.constraints@.take(dist.len() as int) =~= req.constraints@);
        assert(u.len() == req.cards@.to_set().len());
        vstd::set_lib::lemma_subset_equality(u, req.cards@.to_set());
        assert forall|c: Card| req.cards@.contains(c)
            implies exists|i: int| 0 <= i < dist.len() && (#[trigger] dist[i])@.contains(c) by {
            assert(req.cards@.to_set().contains(c));
            assert(u.contains(c));
        }
    }
}

/// The union of the first `k` hands, as a set.
pub open spec fn spec_union_up_to(dist: Seq<Vec<Card>>, k: int) -> Set<Card>
    decreases k,
{
    if k <= 0 {
        Set::empty()
    } else {
        spec_union_up_to(dist, k - 1).union(dist[k - 1]@.to_set())
    }
}

/// The union of disjoint duplicate-free hands is as large as their
/// lengths total, every member coming from some hand.
proof fn lemma_union_properties(req: CardDistributionRequest, dist: Seq<Vec<Card>>, k: int)
    requires
        req.cards@.no_duplicates(),
        0 <= k <= dist.len(),
        dist.len() == req.constraints@.len(),
        forall|i: int| 0 <= i < dist.len()
            ==> (#[trigger] dist[i])@.len() == req.constraints@[i].num_cards,
        forall|i: int, m: int| 0 <= i < dist.len() && 0 <= m < dist[i]@.len()
            ==> spec_legal_for(req, i, #[trigger] dist[i]@[m]),
        forall|i: int| 0 <= i < dist.len() ==> (#[trigger] dist[i])@.no_duplicates(),
        forall|i: int, j: int, c: Card|
            0 <= i < dist.len() && 0 <= j < dist.len() && i != j && #[trigger] dist[i]@.contains(c)
            ==> !(#[trigger] dist[j]@.contains(c)),
    ensures
        spec_union_up_to(dist, k).finite(),
        spec_union_up_to(dist, k).len() == spec_cards_needed(req.constraints@.take(k)),
        forall|c: Card| #[trigger] spec_union_up_to(dist, k).contains(c)
            ==> req.cards@.contains(c) && exists|i: int| 0 <= i < k && (#[trigger] dist[i])@.contains(c),
        spec_union_up_to(dist, k).subset_of(req.cards@.to_set()),
    decreases k,
{
    broadcast use vstd::set_lib::group_set_lib_default, vstd::set::group_set_axioms;

    req.cards@.unique_seq_to_set();
    if k == 0 {
        assert(req.constraints@.take(0) =~= Seq::<CardDistributionPlayerConstraint>::empty());
    } else {
        lemma_union_properties(req, dist, k - 1);
        let prev = spec_union_up_to(dist, k - 1);
        let hand = dist[k - 1]@;
        hand.unique_seq_to_set();
        assert(req.constraints@.take(k).drop_last() =~= req.constraints@.take(k - 1));
        assert(req.constraints@.take(k).last() == req.constraints@[k - 1]);
        // the new hand is disjoint from everything collected before it
        assert(prev.intersect(hand.to_set()) =~= Set::<Card>::empty()) by {
            assert forall|c: Card| !(prev.contains(c) && hand.to_set().contains(c)) by {
                if prev.contains(c) && hand.to_set().contains(c) {
                    let i = choose|i: int| 0 <= i < k - 1 && (#[trigger] dist[i])@.contains(c);
                    assert(dist[k - 1]@.contains(c));
                    assert(false);
                }
            }
        }
        vstd::set_lib::lemma_set_difference_len(prev, hand.to_set());
        assert(prev.union(hand.to_set()).len() == prev.len() + hand.to_set().len()) by {
            assert(prev.difference(hand.to_set()) =~= prev);
            assert(hand.to_set().difference(prev) =~= hand.to_set());
            assert(prev.union(hand.to_set()) =~= prev + hand.to_set());
        }
        assert forall|c: Card| #[trigger] spec_union_up_to(dist, k).contains(c)
            implies req.cards@.contains(c)
                && exists|i: int| 0 <= i < k && (#[trigger] dist[i])@.contains(c) by {
            if prev.contains(c) {
                let i = choose|i: int| 0 <= i < k - 1 && (#[trigger] dist[i])@.contains(c);
                assert(dist[i]@.contains(c));
            } else {
                assert(hand.contains(c));
                let m = choose|m: int| 0 <= m < hand.len() && hand[m] == c;
                assert(spec_legal_for(req, k - 1, c));
                assert(dist[k - 1]@.contains(c));
            }
        }
    }
}

/// When the players are owed exactly the unseen cards, a fixed card
/// among them reaches the player it is pinned to: everybody else's pool
/// excluded it, and every unseen card is handed to somebody.
pub proof fn lemma_fixed_cards_delivered(
    req: CardDistributionRequest,
    dist: Seq<Vec<Card>>,
    i: int,
    c: Card,
)
    requires
        spec_distribution_ok(req, dist),
        spec_distribution_covers(req, dist),
        spec_cards_needed(req.constraints@) == req.cards@.len(),
        0 <= i < req.constraints@.len(),
        req.constraints@[i].fixed_cards@.contains(c),
        req.cards@.contains(c),
    ensures
        dist[i]@.contains(c),
{
    let j = choose|j: int| 0 <= j < dist.len() && (#[trigger] dist[j])@.contains(c);
    if j != i {
        let m = choose|m: int| 0 <= m < dist[j]@.len() && dist[j]@[m] == c;
        assert(spec_legal_for(req, j, dist[j]@[m]));
        assert(!req.constraints@[i].fixed_cards@.contains(c));
    }
}

/// Tries the single-attempt assignment up to ten thousand times with
/// fresh randomness, returning the first success.
pub fn possible_card_distribution(
    req: &CardDistributionRequest,
    rng: &mut rand::rngs::StdRng,
) -> (r: Result<Vec<Vec<Card>>, CardError>)
    requires
        req.cards@.no_duplicates(),
    ensures
        match r {
            Ok(dist) => spec_distribution_ok(*req, dist@) && spec_distribution_covers(*req, dist@),
            Err(_) => true,
        },
        // with nothing owed there is nothing to draw: sampling succeeds
        (forall|i: int| 0 <= i < req.constraints@.len()
            ==> (#[trigger] req.constraints@[i]).num_cards == 0) ==> r is Ok,
        // a player owed more cards than could ever be dealt to them makes
        // the request unsatisfiable, whatever the draws
        (exists|i: int| 0 <= i < req.constraints@.len()
            && (#[trigger] req.constraints@[i]).num_cards > spec_initial_pool(*req, i).len())
            ==> r is Err,
{
    let mut attempts: usize = 0;
    while attempts < 10000
        invariant
            req.cards@.no_duplicates(),
            attempts > 0 ==> !(forall|i: int| 0 <= i < req.constraints@.len()
                ==> (#[trigger] req.constraints@[i]).num_cards == 0),
        decreases 10000 - attempts,
    {
        let result = _possible_card_distribution(req, rng);
        if result.is_ok() {
            return result;
        }
        attempts = attempts + 1;
    }
    Err(CardError::new("Cannot satisfy constraints after 10000 attempts"))
}

} // verus!
