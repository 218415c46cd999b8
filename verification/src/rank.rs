//! The user-facing recommendation pipeline: drop candidates the user has
//! already seen, blend similarity with static popularity, backfill from
//! the most popular unseen catalog items when too few candidates survive,
//! and order the result deterministically.

use vstd::prelude::*;
use crate::filter::{SeenFilter, contains_spec};
use crate::model::{Item, FIX_ONE};

verus! {

/// Fewest recommendations the pipeline tries to return before giving up.
pub const MIN_RECOMMENDATIONS: usize = 5;

/// Largest similarity magnitude the pipeline accepts, keeping the score
/// blend inside `i64`.
pub const SIM_INPUT_LIMIT: i64 = 0x8000_0000;

/// One recommendation: the blended score is exactly
/// `7 * similarity + 3 * popularity`, ten times the weighted average
/// `0.7 * similarity + 0.3 * popularity`; backfilled entries carry
/// similarity zero.
#[derive(Clone, Copy, PartialEq, Eq, Structural, Debug)]
pub struct Recommendation {
    pub item_id: u64,
    pub sim_score: i64,
    pub popularity: i64,
    pub final_score: i64,
}

/// A valid output entry: an unseen catalog item with its own popularity
/// and the exact blended score.
pub open spec fn rec_entry_ok(items: Seq<Item>, bits: Seq<u8>, e: Recommendation) -> bool {
    &&& exists|i: int|
        0 <= i < items.len() && (#[trigger] items[i]).id == e.item_id && e.popularity
            == items[i].popularity
    &&& !contains_spec(bits, e.item_id)
    &&& e.final_score == 7 * e.sim_score + 3 * e.popularity
}

/// Strict output order: greater blended score first, equal scores by
/// ascending item id.
pub open spec fn rank_precedes(x: Recommendation, y: Recommendation) -> bool {
    ||| x.final_score > y.final_score
    ||| (x.final_score == y.final_score && x.item_id < y.item_id)
}

/// Some entry of `s` carries this item id.
pub open spec fn has_rec(s: Seq<Recommendation>, id: u64) -> bool {
    exists|t: int| 0 <= t < s.len() && (#[trigger] s[t]).item_id == id
}

/// Some catalog item carries this id.
pub open spec fn in_catalog(items: Seq<Item>, id: u64) -> bool {
    exists|i: int| 0 <= i < items.len() && (#[trigger] items[i]).id == id
}

/// Some candidate carries this id.
pub open spec fn has_cand(cands: Seq<(u64, i64)>, id: u64) -> bool {
    exists|j: int| 0 <= j < cands.len() && (#[trigger] cands[j]).0 == id
}

/// The similarity the candidate list assigns to an id: the candidate's
/// own similarity when the id is a candidate, zero otherwise — so a
/// backfilled entry carries similarity zero.
#[verifier::opaque]
pub open spec fn cand_sim(cands: Seq<(u64, i64)>, id: u64) -> int {
    if has_cand(cands, id) {
        cands[choose|j: int| 0 <= j < cands.len() && (#[trigger] cands[j]).0 == id].1 as int
    } else {
        0
    }
}

/// On a duplicate-free candidate list, `cand_sim` at a candidate's id is
/// that candidate's similarity.
pub proof fn lemma_cand_sim_at(cands: Seq<(u64, i64)>, j: int)
    requires
        0 <= j < cands.len(),
        forall|a: int, b: int|
            0 <= a < b < cands.len() ==> (#[trigger] cands[a]).0 != (#[trigger] cands[b]).0,
    ensures
        cand_sim(cands, cands[j].0) == cands[j].1,
{
    reveal(cand_sim);
    let id = cands[j].0;
    assert(has_cand(cands, id)) by {
        assert(cands[j].0 == id);
    }
    let w = choose|w: int| 0 <= w < cands.len() && (#[trigger] cands[w]).0 == id;
    if w < j {
        assert(cands[w].0 != cands[j].0);
    } else if w > j {
        assert(cands[j].0 != cands[w].0);
    }
}

/// An id that is not a candidate gets similarity zero.
pub proof fn lemma_cand_sim_zero(cands: Seq<(u64, i64)>, id: u64)
    requires
        !has_cand(cands, id),
    ensures
        cand_sim(cands, id) == 0,
{
    reveal(cand_sim);
}

/// How many of the candidates the filter reports as seen.
pub open spec fn count_seen(cands: Seq<(u64, i64)>, bits: Seq<u8>) -> int
    decreases cands.len(),
{
    if cands.len() == 0 {
        0
    } else {
        count_seen(cands.drop_last(), bits) + if contains_spec(bits, cands.last().0) {
            1int
        } else {
            0int
        }
    }
}

/// The ids of catalog items the filter does not report as seen.
pub open spec fn unseen_ids(items: Seq<Item>, bits: Seq<u8>) -> Set<u64> {
    Set::new(
        |id: u64|
            (exists|i: int| 0 <= i < items.len() && (#[trigger] items[i]).id == id)
                && !contains_spec(bits, id),
    )
}

/// A sorted run stays sorted when one element is inserted behind
/// everything it follows and ahead of everything it precedes.
proof fn lemma_rank_sorted_insert(pre: Seq<Recommendation>, x: Recommendation, p: int)
    requires
        0 <= p <= pre.len(),
        forall|a: int, b: int|
            0 <= a < b < pre.len() ==> rank_precedes(#[trigger] pre[a], #[trigger] pre[b]),
        forall|u: int| 0 <= u < p ==> rank_precedes(#[trigger] pre[u], x),
        p < pre.len() ==> rank_precedes(x, pre[p as int]),
    ensures
        forall|a: int, b: int|
            0 <= a < b < pre.insert(p, x).len() ==> rank_precedes(
                #[trigger] pre.insert(p, x)[a],
                #[trigger] pre.insert(p, x)[b],
            ),
{
    let s = pre.insert(p, x);
    assert forall|a: int, b: int| 0 <= a < b < s.len() implies rank_precedes(
        #[trigger] s[a],
        #[trigger] s[b],
    ) by {
        if a < p && b == p {
            assert(s[a] == pre[a] && s[b] == x);
        } else if a == p && b > p {
            assert(s[a] == x && s[b] == pre[b - 1]);
            if b - 1 > p {
                assert(rank_precedes(pre[p], pre[b - 1]));
            }
        } else if a < p && b > p {
            assert(s[a] == pre[a] && s[b] == pre[b - 1]);
            if b - 1 == a {
                assert(rank_precedes(pre[a], x));
                assert(rank_precedes(x, pre[p]));
                assert(false);
            }
        } else if a > p && b > p {
            assert(s[a] == pre[a - 1] && s[b] == pre[b - 1]);
        } else {
            assert(s[a] == pre[a] && s[b] == pre[b]);
        }
    }
}

/// When every unseen catalog item appears in a duplicate-free result,
/// the result is at least as long as the unseen catalog.
proof fn lemma_unseen_fit(items: Seq<Item>, bits: Seq<u8>, out: Seq<Recommendation>)
    requires
        forall|i: int|
            0 <= i < items.len() && !contains_spec(bits, (#[trigger] items[i]).id) ==> has_rec(
                out,
                items[i].id,
            ),
        forall|a: int, b: int|
            0 <= a < b < out.len() ==> (#[trigger] out[a]).item_id != (#[trigger] out[b]).item_id,
    ensures
        unseen_ids(items, bits).len() <= out.len(),
{
    broadcast use vstd::seq_lib::seq_to_set_is_finite;

    let idseq = Seq::new(out.len(), |u: int| out[u].item_id);
    assert(idseq.no_duplicates());
    idseq.unique_seq_to_set();
    assert(unseen_ids(items, bits).subset_of(idseq.to_set())) by {
        assert forall|id: u64| unseen_ids(items, bits).contains(id) implies idseq.to_set()
            .contains(id) by {
            let i = choose|i: int| 0 <= i < items.len() && (#[trigger] items[i]).id == id;
            assert(has_rec(out, id));
            let t = choose|t: int| 0 <= t < out.len() && (#[trigger] out[t]).item_id == id;
            assert(idseq[t] == id);
            assert(idseq.contains(id));
        }
    }
    vstd::set_lib::lemma_len_subset(unseen_ids(items, bits), idseq.to_set());
}

/// Index of the item carrying `id`, if any.
fn find_item(items: &Vec<Item>, id: u64) -> (r: Option<usize>)
    ensures
        match r {
            Some(idx) => idx < items@.len() && items@[idx as int].id == id,
            None => forall|i: int| 0 <= i < items@.len() ==> (#[trigger] items@[i]).id != id,
        },
{
    let mut i: usize = 0;
    while i < items.len()
        invariant
            i <= items@.len(),
            forall|j: int| 0 <= j < i ==> (#[trigger] items@[j]).id != id,
        decreases items@.len() - i,
    {
        if items[i].id == id {
            return Some(i);
        }
        i = i + 1;
    }
    None
}

/// Whether some recommendation already carries this id.
fn contains_rec(recs: &Vec<Recommendation>, id: u64) -> (r: bool)
    ensures
        r == has_rec(recs@, id),
{
    let mut i: usize = 0;
    while i < recs.len()
        invariant
            i <= recs@.len(),
            forall|j: int| 0 <= j < i ==> (#[trigger] recs@[j]).item_id != id,
        decreases recs@.len() - i,
    {
        if recs[i].item_id == id {
            return true;
        }
        i = i + 1;
    }
    false
}

/// Order recommendations: descending blended score, ascending id on ties.
/// Keeps every id that was present.
fn sort_recs(recs: Vec<Recommendation>) -> (out: Vec<Recommendation>)
    requires
        forall|a: int, b: int|
            0 <= a < b < recs@.len() ==> (#[trigger] recs@[a]).item_id != (
            #[trigger] recs@[b]).item_id,
    ensures
        out@.len() == recs@.len(),
        forall|u: int| 0 <= u < out@.len() ==> recs@.contains(#[trigger] out@[u]),
        forall|t: int| 0 <= t < recs@.len() ==> has_rec(out@, (#[trigger] recs@[t]).item_id),
        forall|a: int, b: int|
            0 <= a < b < out@.len() ==> rank_precedes(#[trigger] out@[a], #[trigger] out@[b]),
        forall|a: int, b: int|
            0 <= a < b < out@.len() ==> (#[trigger] out@[a]).item_id != (
            #[trigger] out@[b]).item_id,
{
    let mut out: Vec<Recommendation> = Vec::new();
    let mut i: usize = 0;
    while i < recs.len()
        invariant
            forall|a: int, b: int|
                0 <= a < b < recs@.len() ==> (#[trigger] recs@[a]).item_id != (
                #[trigger] recs@[b]).item_id,
            i <= recs@.len(),
            out@.len() == i,
            forall|u: int| 0 <= u < out@.len() ==> recs@.take(i as int).contains(
                #[trigger] out@[u],
            ),
            forall|t: int| 0 <= t < i ==> has_rec(out@, (#[trigger] recs@[t]).item_id),
            forall|a: int, b: int|
                0 <= a < b < out@.len() ==> rank_precedes(#[trigger] out@[a], #[trigger] out@[b]),
        decreases recs@.len() - i,
    {
        let x = recs[i];
        let ghost pre = out@;
        let mut p: usize = 0;
        while p < out.len() && rank_precedes_exec(&out[p], &x)
            invariant
                p <= out@.len(),
                out@ == pre,
                forall|u: int| 0 <= u < p ==> rank_precedes(#[trigger] out@[u], x),
            decreases out@.len() - p,
        {
            p = p + 1;
        }
        proof {
            assert forall|u: int| 0 <= u < pre.len() implies (#[trigger] pre[u]).item_id
                != x.item_id by {
                assert(recs@.take(i as int).contains(pre[u]));
                let t = choose|t: int|
                    0 <= t < recs@.take(i as int).len() && recs@.take(i as int)[t] == pre[u];
                assert(recs@[t] == pre[u]);
                assert(recs@[t].item_id != recs@[i as int].item_id);
            }
            if p < out@.len() {
                assert(!rank_precedes(out@[p as int], x));
                assert(rank_precedes(x, out@[p as int]));
            }
            lemma_rank_sorted_insert(pre, x, p as int);
        }
        out.insert(p, x);
        proof {
            assert(out@ == pre.insert(p as int, x));
            assert forall|u: int|
                0 <= u < out@.len() implies recs@.take(i as int + 1).contains(
                #[trigger] out@[u],
            ) by {
                let pi = p as int;
                if u == pi {
                    assert(recs@.take(i as int + 1)[i as int] == x);
                } else {
                    let w = if u < pi {
                        u
                    } else {
                        u - 1
                    };
                    assert(recs@.take(i as int).contains(pre[w]));
                    let t = choose|t: int|
                        0 <= t < recs@.take(i as int).len() && recs@.take(i as int)[t] == pre[w];
                    assert(recs@.take(i as int + 1)[t] == pre[w]);
                }
            }
            assert forall|t: int| 0 <= t < i + 1 implies has_rec(
                out@,
                (#[trigger] recs@[t]).item_id,
            ) by {
                let pi = p as int;
                if t == i as int {
                    assert(out@[pi].item_id == recs@[t].item_id);
                } else {
                    assert(has_rec(pre, recs@[t].item_id));
                    let u = choose|u: int|
                        0 <= u < pre.len() && (#[trigger] pre[u]).item_id == recs@[t].item_id;
                    if u < pi {
                        assert(out@[u].item_id == recs@[t].item_id);
                    } else {
                        assert(out@[u + 1].item_id == recs@[t].item_id);
                    }
                }
            }
        }
        i = i + 1;
    }
    proof {
        assert(recs@.take(recs@.len() as int) =~= recs@);
        assert forall|u: int| 0 <= u < out@.len() implies recs@.contains(#[trigger] out@[u]) by {
            assert(recs@.take(recs@.len() as int).contains(out@[u]));
        }
        assert forall|a: int, b: int|
            0 <= a < b < out@.len() implies (#[trigger] out@[a]).item_id != (
        #[trigger] out@[b]).item_id by {
            assert(rank_precedes(out@[a], out@[b]));
            if out@[a].item_id == out@[b].item_id {
                let ta = choose|t: int| 0 <= t < recs@.len() && recs@[t] == out@[a];
                let tb = choose|t: int| 0 <= t < recs@.len() && recs@[t] == out@[b];
                if ta < tb {
                    assert(recs@[ta].item_id != recs@[tb].item_id);
                } else if tb < ta {
                    assert(recs@[tb].item_id != recs@[ta].item_id);
                } else {
                    assert(out@[a] == out@[b]);
                    assert(!rank_precedes(out@[a], out@[b]));
                }
            }
        }
    }
    out
}

/// Whether `x` must come no later than `y` in the final ordering.
fn rank_precedes_exec(x: &Recommendation, y: &Recommendation) -> (r: bool)
    ensures
        r == rank_precedes(*x, *y),
{
    x.final_score > y.final_score || (x.final_score == y.final_score && x.item_id < y.item_id)
}

/// The recommendation pipeline after recall: drop candidates the user
/// has seen (counting them), attach popularity, blend the scores, pull
/// the most popular unseen catalog items in while fewer than
/// `MIN_RECOMMENDATIONS` survive, order deterministically and truncate
/// to `limit`. Always returns `min(limit, MIN_RECOMMENDATIONS, number
/// of unseen catalog items)` entries or more, every one an unseen
/// catalog item with its exact blended score.
pub fn recommend_rank(
    candidates: &Vec<(u64, i64)>,
    items: &Vec<Item>,
    seen: &SeenFilter,
    limit: usize,
) -> (r: (Vec<Recommendation>, usize))
    requires
        seen.wf(),
        forall|a: int, b: int|
            0 <= a < b < candidates@.len() ==> (#[trigger] candidates@[a]).0 != (
            #[trigger] candidates@[b]).0,
        forall|t: int|
            0 <= t < candidates@.len() ==> -SIM_INPUT_LIMIT <= (#[trigger] candidates@[t]).1
                <= SIM_INPUT_LIMIT,
        forall|a: int, b: int|
            0 <= a < b < items@.len() ==> (#[trigger] items@[a]).id != (#[trigger] items@[b]).id,
        forall|i: int| 0 <= i < items@.len() ==> 0 <= (#[trigger] items@[i]).popularity
            <= FIX_ONE,
    ensures
        forall|t: int| 0 <= t < r.0@.len() ==> rec_entry_ok(items@, seen@, #[trigger] r.0@[t]),
        forall|t: int| 0 <= t < r.0@.len() ==> (#[trigger] r.0@[t]).sim_score == cand_sim(
            candidates@,
            r.0@[t].item_id,
        ),
        r.0@.len() < limit ==> forall|j: int|
            0 <= j < candidates@.len() && !contains_spec(seen@, (#[trigger] candidates@[j]).0)
                && in_catalog(items@, candidates@[j].0) ==> has_rec(r.0@, candidates@[j].0),
        forall|a: int, b: int|
            0 <= a < b < r.0@.len() ==> rank_precedes(#[trigger] r.0@[a], #[trigger] r.0@[b]),
        forall|a: int, b: int|
            0 <= a < b < r.0@.len() ==> (#[trigger] r.0@[a]).item_id != (
            #[trigger] r.0@[b]).item_id,
        r.0@.len() <= limit,
        r.1 == count_seen(candidates@, seen@),
        ({
            let unseen = unseen_ids(items@, seen@).len() as int;
            let floor1 = if MIN_RECOMMENDATIONS as int <= unseen {
                MIN_RECOMMENDATIONS as int
            } else {
                unseen
            };
            let floor2 = if limit as int <= floor1 {
                limit as int
            } else {
                floor1
            };
            r.0@.len() >= floor2
        }),
{
    let mut picked: Vec<Recommendation> = Vec::new();
    let mut filtered: usize = 0;
    let mut i: usize = 0;
    while i < candidates.len()
        invariant
            seen.wf(),
            forall|a: int, b: int|
                0 <= a < b < candidates@.len() ==> (#[trigger] candidates@[a]).0 != (
                #[trigger] candidates@[b]).0,
            forall|t: int|
                0 <= t < candidates@.len() ==> -SIM_INPUT_LIMIT <= (#[trigger] candidates@[t]).1
                    <= SIM_INPUT_LIMIT,
            forall|i2: int| 0 <= i2 < items@.len() ==> 0 <= (#[trigger] items@[i2]).popularity
                <= FIX_ONE,
            i <= candidates@.len(),
            filtered <= i,
            filtered == count_seen(candidates@.take(i as int), seen@),
            forall|t: int| 0 <= t < picked@.len() ==> rec_entry_ok(
                items@,
                seen@,
                #[trigger] picked@[t],
            ),
            forall|t: int| 0 <= t < picked@.len() ==> (#[trigger] picked@[t]).sim_score
                == cand_sim(candidates@, picked@[t].item_id),
            forall|j: int|
                0 <= j < i && !contains_spec(seen@, (#[trigger] candidates@[j]).0) && in_catalog(
                    items@,
                    candidates@[j].0,
                ) ==> has_rec(picked@, candidates@[j].0),
            forall|a: int, b: int|
                0 <= a < b < picked@.len() ==> (#[trigger] picked@[a]).item_id != (
                #[trigger] picked@[b]).item_id,
        decreases candidates@.len() - i,
    {
        let ghost pre_picked = picked@;
        let (cid, sim) = candidates[i];
        let is_seen = seen.might_contain(cid);
        if is_seen {
            filtered = filtered + 1;
        } else {
            match find_item(items, cid) {
                Some(idx) => {
                    if !contains_rec(&picked, cid) {
                        let pop = items[idx].popularity;
                        let fs = 7 * sim + 3 * pop;
                        picked.push(
                            Recommendation {
                                item_id: cid,
                                sim_score: sim,
                                popularity: pop,
                                final_score: fs,
                            },
                        );
                        proof {
                            // the new entry carries this candidate's similarity
                            lemma_cand_sim_at(candidates@, i as int);
                            assert(has_rec(picked@, cid)) by {
                                assert(picked@[picked@.len() - 1].item_id == cid);
                            }
                        }
                    }
                },
                None => {},
            }
        }
        proof {
            assert(candidates@.take(i as int + 1).drop_last() =~= candidates@.take(i as int));
            assert(candidates@.take(i as int + 1).last() == candidates@[i as int]);
            assert forall|j: int|
                0 <= j < i + 1 && !contains_spec(seen@, (#[trigger] candidates@[j]).0)
                    && in_catalog(items@, candidates@[j].0) implies has_rec(
                picked@,
                candidates@[j].0,
            ) by {
                if j == i as int {
                    assert(!is_seen);
                    let w = choose|w: int|
                        0 <= w < items@.len() && (#[trigger] items@[w]).id == cid;
                    assert(has_rec(picked@, cid));
                } else {
                    assert(has_rec(pre_picked, candidates@[j].0));
                    let t = choose|t: int|
                        0 <= t < pre_picked.len() && (#[trigger] pre_picked[t]).item_id
                            == candidates@[j].0;
                    assert(picked@[t].item_id == candidates@[j].0);
                }
            }
        }
        i = i + 1;
    }
    proof {
        assert(candidates@.take(candidates@.len() as int) =~= candidates@);
    }
    // backfill: most popular unseen catalog items, while under the floor
    let mut done = false;
    while !done && picked.len() < MIN_RECOMMENDATIONS
        invariant
            seen.wf(),
            forall|i2: int| 0 <= i2 < items@.len() ==> 0 <= (#[trigger] items@[i2]).popularity
                <= FIX_ONE,
            forall|t: int| 0 <= t < picked@.len() ==> rec_entry_ok(
                items@,
                seen@,
                #[trigger] picked@[t],
            ),
            forall|t: int| 0 <= t < picked@.len() ==> (#[trigger] picked@[t]).sim_score
                == cand_sim(candidates@, picked@[t].item_id),
            forall|j: int|
                0 <= j < candidates@.len() && !contains_spec(
                    seen@,
                    (#[trigger] candidates@[j]).0,
                ) && in_catalog(items@, candidates@[j].0) ==> has_rec(
                    picked@,
                    candidates@[j].0,
                ),
            forall|a: int, b: int|
                0 <= a < b < picked@.len() ==> (#[trigger] picked@[a]).item_id != (
                #[trigger] picked@[b]).item_id,
            done ==> forall|t: int|
                0 <= t < items@.len() && !contains_spec(seen@, (#[trigger] items@[t]).id)
                    ==> has_rec(picked@, items@[t].id),
        decreases (if done { 0int } else { 1int }), MIN_RECOMMENDATIONS - picked@.len(),
    {
        let mut found = false;
        let mut best_j: usize = 0;
        let mut best_pop: i64 = 0;
        let mut j: usize = 0;
        while j < items.len()
            invariant
                seen.wf(),
                j <= items@.len(),
                found ==> best_j < items@.len() && !contains_spec(
                    seen@,
                    items@[best_j as int].id,
                ) && !has_rec(picked@, items@[best_j as int].id) && best_pop
                    == items@[best_j as int].popularity,
                !found ==> forall|t: int|
                    0 <= t < j ==> contains_spec(seen@, (#[trigger] items@[t]).id) || has_rec(
                        picked@,
                        items@[t].id,
                    ),
            decreases items@.len() - j,
        {
            let it_id = items[j].id;
            if !seen.might_contain(it_id) && !contains_rec(&picked, it_id) {
                if !found || items[j].popularity > best_pop {
                    found = true;
                    best_j = j;
                    best_pop = items[j].popularity;
                }
            }
            j = j + 1;
        }
        if found {
            let bid = items[best_j].id;
            let fs = 3 * best_pop;
            let ghost prepicked = picked@;
            picked.push(
                Recommendation { item_id: bid, sim_score: 0, popularity: best_pop, final_score: fs },
            );
            proof {
                assert(items@[best_j as int].id == bid);
                // a backfilled id is never a candidate: an unseen
                // in-catalog candidate would already be present
                assert(!has_cand(candidates@, bid)) by {
                    if has_cand(candidates@, bid) {
                        let j = choose|j: int|
                            0 <= j < candidates@.len() && (#[trigger] candidates@[j]).0 == bid;
                        assert(in_catalog(items@, bid)) by {
                            assert(items@[best_j as int].id == bid);
                        }
                        assert(has_rec(prepicked, bid));
                    }
                }
                lemma_cand_sim_zero(candidates@, bid);
                assert forall|j: int|
                    0 <= j < candidates@.len() && !contains_spec(
                        seen@,
                        (#[trigger] candidates@[j]).0,
                    ) && in_catalog(items@, candidates@[j].0) implies has_rec(
                    picked@,
                    candidates@[j].0,
                ) by {
                    let w = choose|w: int|
                        0 <= w < prepicked.len() && (#[trigger] prepicked[w]).item_id
                            == candidates@[j].0;
                    assert(picked@[w].item_id == candidates@[j].0);
                }
            }
        } else {
            done = true;
        }
    }
    let ghost covered = picked@;
    let sorted = sort_recs(picked);
    let prelen = sorted.len();
    proof {
        if prelen < MIN_RECOMMENDATIONS {
            // the backfill ran out: every unseen catalog item is present
            assert forall|t: int|
                0 <= t < items@.len() && !contains_spec(
                    seen@,
                    (#[trigger] items@[t]).id,
                ) implies has_rec(sorted@, items@[t].id) by {
                assert(has_rec(covered, items@[t].id));
                let u = choose|u: int|
                    0 <= u < covered.len() && (#[trigger] covered[u]).item_id == items@[t].id;
                assert(has_rec(sorted@, covered[u].item_id));
            }
            lemma_unseen_fit(items@, seen@, sorted@);
        }
    }
    let ghost presort = sorted@;
    let mut sorted = sorted;
    sorted.truncate(limit);
    proof {
        assert forall|t: int| 0 <= t < sorted@.len() implies rec_entry_ok(
            items@,
            seen@,
            #[trigger] sorted@[t],
        ) && (#[trigger] sorted@[t]).sim_score == cand_sim(candidates@, sorted@[t].item_id) by {
            let u = choose|u: int| 0 <= u < covered.len() && covered[u] == sorted@[t];
        }
        if sorted@.len() < limit {
            // nothing was cut off, so every surviving candidate is present
            assert(sorted@ == presort);
            assert forall|j: int|
                0 <= j < candidates@.len() && !contains_spec(
                    seen@,
                    (#[trigger] candidates@[j]).0,
                ) && in_catalog(items@, candidates@[j].0) implies has_rec(
                sorted@,
                candidates@[j].0,
            ) by {
                assert(has_rec(covered, candidates@[j].0));
                let u = choose|u: int|
                    0 <= u < covered.len() && (#[trigger] covered[u]).item_id == candidates@[j].0;
                assert(has_rec(presort, covered[u].item_id));
            }
        }
    }
    (sorted, filtered)
}

} // verus!
