//! Reciprocal Rank Fusion: merge a similarity-ranked candidate list and a
//! keyword-ranked candidate list into one deterministic ranking.
//!
//! Every id at 0-based rank `r` of a list contributes `1 / (K + r + 1)`
//! with `K = 60`; an id on both lists sums both contributions. Scores are
//! kept as exact rationals (numerator and denominator), so the ordering —
//! descending score, ties broken by ascending id — is reproducible
//! bit for bit.

use vstd::prelude::*;
use vstd::arithmetic::mul::lemma_mul_strictly_positive;

verus! {

/// The fusion smoothing constant `K`; rank `r` contributes `1 / (K + r + 1)`.
pub const RRF_K: u64 = 60;

/// Longest candidate list fusion accepts, keeping the exact rational
/// arithmetic inside `u64`.
pub const RANK_LIMIT: usize = 0x8000_0000;

/// One fused candidate: its id and its exact RRF score `num / den`.
#[derive(Clone, Copy, PartialEq, Eq, Structural, Debug)]
pub struct SearchResult {
    pub id: u32,
    pub score_num: u64,
    pub score_den: u64,
}

/// Rank of `id` in a duplicate-free list that contains it.
pub open spec fn rank_of(s: Seq<u32>, id: u32) -> int {
    choose|r: int| 0 <= r < s.len() && s[r] == id
}

/// The reciprocal-rank denominator for a rank: `K + rank + 1`.
pub open spec fn rrf_den(rank: int) -> int {
    RRF_K + rank + 1
}

/// The exact fused score of `id`, as a rational `(numerator, denominator)`.
pub open spec fn rrf_score(vids: Seq<u32>, kids: Seq<u32>, id: u32) -> (int, int) {
    if vids.contains(id) && kids.contains(id) {
        let dv = rrf_den(rank_of(vids, id));
        let dk = rrf_den(rank_of(kids, id));
        (dv + dk, dv * dk)
    } else if vids.contains(id) {
        (1, rrf_den(rank_of(vids, id)))
    } else if kids.contains(id) {
        (1, rrf_den(rank_of(kids, id)))
    } else {
        (0, 1)
    }
}

/// Strict output order: greater score first, equal scores by ascending id.
pub open spec fn precedes(x: SearchResult, y: SearchResult) -> bool {
    ||| x.score_num * y.score_den > y.score_num * x.score_den
    ||| (x.score_num * y.score_den == y.score_num * x.score_den && x.id < y.id)
}

/// Some entry of `s` carries this id.
pub open spec fn has_entry(s: Seq<SearchResult>, id: u32) -> bool {
    exists|t: int| 0 <= t < s.len() && (#[trigger] s[t]).id == id
}

/// Two results with distinct ids are ordered one way or the other.
proof fn lemma_precedes_total(x: SearchResult, y: SearchResult)
    requires
        x.id != y.id,
    ensures
        precedes(x, y) || precedes(y, x),
{
}

/// The order is transitive (for positive denominators).
proof fn lemma_precedes_trans(x: SearchResult, y: SearchResult, z: SearchResult)
    requires
        precedes(x, y),
        precedes(y, z),
        x.score_den > 0,
        y.score_den > 0,
        z.score_den > 0,
    ensures
        precedes(x, z),
{
    let xn = x.score_num as int;
    let xd = x.score_den as int;
    let yn = y.score_num as int;
    let yd = y.score_den as int;
    let zn = z.score_num as int;
    let zd = z.score_den as int;
    if xn * yd > yn * xd {
        if yn * zd > zn * yd {
            assert(xn * zd > zn * xd) by (nonlinear_arith)
                requires
                    xn * yd > yn * xd,
                    yn * zd > zn * yd,
                    xd > 0,
                    yd > 0,
                    zd > 0,
            {}
        } else {
            assert(yn * zd == zn * yd);
            assert(xn * zd > zn * xd) by (nonlinear_arith)
                requires
                    xn * yd > yn * xd,
                    yn * zd == zn * yd,
                    xd > 0,
                    yd > 0,
                    zd > 0,
            {}
        }
    } else {
        assert(xn * yd == yn * xd && x.id < y.id);
        if yn * zd > zn * yd {
            assert(xn * zd > zn * xd) by (nonlinear_arith)
                requires
                    xn * yd == yn * xd,
                    yn * zd > zn * yd,
                    xd > 0,
                    yd > 0,
                    zd > 0,
            {}
        } else {
            assert(yn * zd == zn * yd);
            assert(xn * zd == zn * xd) by (nonlinear_arith)
                requires
                    xn * yd == yn * xd,
                    yn * zd == zn * yd,
                    xd > 0,
                    yd > 0,
                    zd > 0,
            {}
            assert(x.id < z.id);
        }
    }
}

/// A sorted run stays sorted when one element is inserted behind
/// everything it follows and ahead of everything it precedes.
proof fn lemma_sorted_insert(pre: Seq<SearchResult>, x: SearchResult, p: int)
    requires
        0 <= p <= pre.len(),
        forall|a: int, b: int|
            0 <= a < b < pre.len() ==> precedes(#[trigger] pre[a], #[trigger] pre[b]),
        forall|u: int| 0 <= u < p ==> precedes(#[trigger] pre[u], x),
        p < pre.len() ==> precedes(x, pre[p as int]),
        forall|u: int| 0 <= u < pre.len() ==> (#[trigger] pre[u]).score_den > 0,
        x.score_den > 0,
    ensures
        forall|a: int, b: int|
            0 <= a < b < pre.insert(p, x).len() ==> precedes(
                #[trigger] pre.insert(p, x)[a],
                #[trigger] pre.insert(p, x)[b],
            ),
{
    let s = pre.insert(p, x);
    assert forall|a: int, b: int| 0 <= a < b < s.len() implies precedes(
        #[trigger] s[a],
        #[trigger] s[b],
    ) by {
        if a < p && b == p {
            assert(s[a] == pre[a] && s[b] == x);
        } else if a == p && b > p {
            assert(s[a] == x && s[b] == pre[b - 1]);
            assert(precedes(x, pre[p]));
            if b - 1 > p {
                assert(precedes(pre[p], pre[b - 1]));
                lemma_precedes_trans(x, pre[p], pre[b - 1]);
            }
        } else if a < p && b > p {
            assert(s[a] == pre[a] && s[b] == pre[b - 1]);
            if b - 1 == a {
                assert(precedes(pre[a], x));
                assert(precedes(x, pre[p]));
                assert(false);
            }
        } else if a > p && b > p {
            assert(s[a] == pre[a - 1] && s[b] == pre[b - 1]);
        } else {
            assert(a < p && b < p);
            assert(s[a] == pre[a] && s[b] == pre[b]);
        }
    }
}

/// Whether `x` must come no later than `y` (equal only for the same id).
fn precedes_exec(x: &SearchResult, y: &SearchResult) -> (r: bool)
    ensures
        r == precedes(*x, *y),
{
    proof {
        assert((x.score_num as int) * (y.score_den as int)
            < 0x1_0000_0000_0000_0000_0000_0000_0000_0000 && (y.score_num as int) * (x.score_den
            as int) < 0x1_0000_0000_0000_0000_0000_0000_0000_0000) by (nonlinear_arith)
            requires
                0 <= x.score_num as int <= 0xffff_ffff_ffff_ffff,
                0 <= y.score_num as int <= 0xffff_ffff_ffff_ffff,
                0 <= x.score_den as int <= 0xffff_ffff_ffff_ffff,
                0 <= y.score_den as int <= 0xffff_ffff_ffff_ffff,
        {}
    }
    let xc = (x.score_num as u128) * (y.score_den as u128);
    let yc = (y.score_num as u128) * (x.score_den as u128);
    xc > yc || (xc == yc && x.id < y.id)
}

/// Position of `id` in the accumulated results, if present.
fn find_result(acc: &Vec<SearchResult>, id: u32) -> (r: Option<usize>)
    ensures
        match r {
            Some(t) => t < acc@.len() && acc@[t as int].id == id,
            None => forall|t: int| 0 <= t < acc@.len() ==> (#[trigger] acc@[t]).id != id,
        },
{
    let mut i: usize = 0;
    while i < acc.len()
        invariant
            i <= acc@.len(),
            forall|t: int| 0 <= t < i ==> (#[trigger] acc@[t]).id != id,
        decreases acc@.len() - i,
    {
        if acc[i].id == id {
            return Some(i);
        }
        i = i + 1;
    }
    None
}

/// A result entry carries the exact fused score of its id.
pub open spec fn entry_scored(vids: Seq<u32>, kids: Seq<u32>, e: SearchResult) -> bool {
    &&& e.score_num == rrf_score(vids, kids, e.id).0
    &&& e.score_den == rrf_score(vids, kids, e.id).1
    &&& e.score_den > 0
}

/// Order fused results: descending score, ties broken by ascending id.
fn sort_results(acc: Vec<SearchResult>, Ghost(vids): Ghost<Seq<u32>>, Ghost(kids): Ghost<
    Seq<u32>,
>) -> (out: Vec<SearchResult>)
    requires
        forall|t: int| 0 <= t < acc@.len() ==> entry_scored(vids, kids, #[trigger] acc@[t]),
        forall|a: int, b: int|
            0 <= a < b < acc@.len() ==> (#[trigger] acc@[a]).id != (#[trigger] acc@[b]).id,
        forall|t: int|
            0 <= t < acc@.len() ==> vids.contains((#[trigger] acc@[t]).id) || kids.contains(
                acc@[t].id,
            ),
        forall|id: u32| vids.contains(id) || kids.contains(id) ==> #[trigger] has_entry(acc@, id),
    ensures
        forall|t: int| 0 <= t < out@.len() ==> entry_scored(vids, kids, #[trigger] out@[t]),
        forall|t: int|
            0 <= t < out@.len() ==> vids.contains((#[trigger] out@[t]).id) || kids.contains(
                out@[t].id,
            ),
        forall|id: u32| vids.contains(id) || kids.contains(id) ==> #[trigger] has_entry(out@, id),
        forall|a: int, b: int|
            0 <= a < b < out@.len() ==> precedes(#[trigger] out@[a], #[trigger] out@[b]),
        forall|a: int, b: int|
            0 <= a < b < out@.len() ==> (#[trigger] out@[a]).id != (#[trigger] out@[b]).id,
{
    let mut out: Vec<SearchResult> = Vec::new();
    let mut i: usize = 0;
    while i < acc.len()
        invariant
            forall|t: int| 0 <= t < acc@.len() ==> entry_scored(vids, kids, #[trigger] acc@[t]),
            forall|a: int, b: int|
                0 <= a < b < acc@.len() ==> (#[trigger] acc@[a]).id != (#[trigger] acc@[b]).id,
            forall|t: int|
                0 <= t < acc@.len() ==> vids.contains((#[trigger] acc@[t]).id) || kids.contains(
                    acc@[t].id,
                ),
            i <= acc@.len(),
            out@.len() == i,
            forall|u: int| 0 <= u < out@.len() ==> acc@.take(i as int).contains(#[trigger] out@[u]),
            forall|t: int| 0 <= t < i ==> has_entry(out@, (#[trigger] acc@[t]).id),
            forall|a: int, b: int|
                0 <= a < b < out@.len() ==> precedes(#[trigger] out@[a], #[trigger] out@[b]),
        decreases acc@.len() - i,
    {
        let x = acc[i];
        let ghost pre = out@;
        let mut p: usize = 0;
        while p < out.len() && precedes_exec(&out[p], &x)
            invariant
                p <= out@.len(),
                out@ == pre,
                forall|u: int| 0 <= u < p ==> precedes(#[trigger] out@[u], x),
            decreases out@.len() - p,
        {
            p = p + 1;
        }
        proof {
            // everything already placed comes from an earlier accumulator
            // slot, so its id differs from x's
            assert forall|u: int| 0 <= u < pre.len() implies (#[trigger] pre[u]).id != x.id
                && pre[u].score_den > 0 by {
                assert(acc@.take(i as int).contains(pre[u]));
                let t = choose|t: int|
                    0 <= t < acc@.take(i as int).len() && acc@.take(i as int)[t] == pre[u];
                assert(acc@[t] == pre[u]);
                assert(acc@[t].id != acc@[i as int].id);
                assert(entry_scored(vids, kids, acc@[t]));
            }
            if p < out@.len() {
                assert(!precedes(out@[p as int], x));
                lemma_precedes_total(x, out@[p as int]);
            }
            lemma_sorted_insert(pre, x, p as int);
        }
        out.insert(p, x);
        proof {
            assert(out@ == pre.insert(p as int, x));
            assert forall|u: int|
                0 <= u < out@.len() implies acc@.take(i as int + 1).contains(
                #[trigger] out@[u],
            ) by {
                let pi = p as int;
                if u == pi {
                    assert(acc@.take(i as int + 1)[i as int] == x);
                } else {
                    let w = if u < pi {
                        u
                    } else {
                        u - 1
                    };
                    assert(acc@.take(i as int).contains(pre[w]));
                    let t = choose|t: int|
                        0 <= t < acc@.take(i as int).len() && acc@.take(i as int)[t] == pre[w];
                    assert(acc@.take(i as int + 1)[t] == pre[w]);
                }
            }
            assert forall|t: int| 0 <= t < i + 1 implies has_entry(
                out@,
                (#[trigger] acc@[t]).id,
            ) by {
                let pi = p as int;
                if t == i as int {
                    assert(out@[pi].id == acc@[t].id);
                } else {
                    assert(has_entry(pre, acc@[t].id));
                    let u = choose|u: int| 0 <= u < pre.len() && (#[trigger] pre[u]).id
                        == acc@[t].id;
                    if u < pi {
                        assert(out@[u].id == acc@[t].id);
                    } else {
                        assert(out@[u + 1].id == acc@[t].id);
                    }
                }
            }
        }
        i = i + 1;
    }
    proof {
        assert(acc@.take(acc@.len() as int) =~= acc@);
        assert forall|t: int| 0 <= t < out@.len() implies entry_scored(
            vids,
            kids,
            #[trigger] out@[t],
        ) && (vids.contains(out@[t].id) || kids.contains(out@[t].id)) by {
            assert(acc@.take(acc@.len() as int).contains(out@[t]));
            let u = choose|u: int| 0 <= u < acc@.len() && acc@[u] == out@[t];
        }
        assert forall|id: u32|
            vids.contains(id) || kids.contains(id) implies #[trigger] has_entry(out@, id) by {
            assert(has_entry(acc@, id));
            let t = choose|t: int| 0 <= t < acc@.len() && (#[trigger] acc@[t]).id == id;
            assert(has_entry(out@, acc@[t].id));
        }
        assert forall|a: int, b: int|
            0 <= a < b < out@.len() implies (#[trigger] out@[a]).id != (#[trigger] out@[b]).id by {
            assert(precedes(out@[a], out@[b]));
            if out@[a].id == out@[b].id {
                assert(acc@.take(acc@.len() as int).contains(out@[a]));
                assert(acc@.take(acc@.len() as int).contains(out@[b]));
                let ta = choose|t: int| 0 <= t < acc@.len() && acc@[t] == out@[a];
                let tb = choose|t: int| 0 <= t < acc@.len() && acc@[t] == out@[b];
                if ta < tb {
                    assert(acc@[ta].id != acc@[tb].id);
                } else if tb < ta {
                    assert(acc@[tb].id != acc@[ta].id);
                } else {
                    assert(out@[a] == out@[b]);
                    assert(!precedes(out@[a], out@[b]));
                }
            }
        }
    }
    out
}

/// Merge a similarity-ranked list (ids with their similarities; only the
/// order matters here) and a keyword-ranked list of ids. The output holds
/// exactly the ids that appear in at least one input list, each with its
/// exact fused score, ordered by descending score with ties broken by
/// ascending id.
pub fn rrf_merge(vector_results: Vec<(u32, i64)>, keyword_results: Vec<u32>) -> (out: Vec<
    SearchResult,
>)
    requires
        vector_results@.len() <= RANK_LIMIT,
        keyword_results@.len() <= RANK_LIMIT,
        forall|a: int, b: int|
            0 <= a < b < vector_results@.len() ==> (#[trigger] vector_results@[a]).0 != (
            #[trigger] vector_results@[b]).0,
        forall|a: int, b: int|
            0 <= a < b < keyword_results@.len() ==> (#[trigger] keyword_results@[a]) != (
            #[trigger] keyword_results@[b]),
    ensures
        ({
            let vids = vector_results@.map_values(|p: (u32, i64)| p.0);
            let kids = keyword_results@;
            &&& forall|t: int| 0 <= t < out@.len() ==> entry_scored(vids, kids, #[trigger] out@[t])
            &&& forall|t: int|
                0 <= t < out@.len() ==> vids.contains((#[trigger] out@[t]).id) || kids.contains(
                    out@[t].id,
                )
            &&& forall|id: u32|
                vids.contains(id) || kids.contains(id) ==> #[trigger] has_entry(out@, id)
            &&& forall|a: int, b: int|
                0 <= a < b < out@.len() ==> precedes(#[trigger] out@[a], #[trigger] out@[b])
            &&& forall|a: int, b: int|
                0 <= a < b < out@.len() ==> (#[trigger] out@[a]).id != (#[trigger] out@[b]).id
        }),
{
    let ghost vids = vector_results@.map_values(|p: (u32, i64)| p.0);
    let ghost kids = keyword_results@;
    let mut acc: Vec<SearchResult> = Vec::new();
    // contributions of the similarity-ranked list
    let mut r: usize = 0;
    while r < vector_results.len()
        invariant
            vector_results@.len() <= RANK_LIMIT,
            vids == vector_results@.map_values(|p: (u32, i64)| p.0),
            forall|a: int, b: int|
                0 <= a < b < vector_results@.len() ==> (#[trigger] vector_results@[a]).0 != (
                #[trigger] vector_results@[b]).0,
            r <= vector_results@.len(),
            acc@.len() == r,
            forall|t: int| 0 <= t < r ==> (#[trigger] acc@[t]).id == vids[t],
            forall|t: int| 0 <= t < r ==> (#[trigger] acc@[t]).score_num == 1,
            forall|t: int| 0 <= t < r ==> (#[trigger] acc@[t]).score_den == RRF_K + t + 1,
        decreases vector_results@.len() - r,
    {
        let id = vector_results[r].0;
        let den = RRF_K + (r as u64) + 1;
        acc.push(SearchResult { id, score_num: 1, score_den: den });
        r = r + 1;
    }
    proof {
        assert forall|t: int| 0 <= t < acc@.len() implies entry_scored(
            vids,
            kids.take(0),
            #[trigger] acc@[t],
        ) by {
            let id = acc@[t].id;
            assert(vids[t] == id);
            assert(vids.contains(id));
            let rk = rank_of(vids, id);
            assert(vids[rk] == id);
            if rk != t {
                if rk < t {
                    assert(vector_results@[rk].0 != vector_results@[t].0);
                } else {
                    assert(vector_results@[t].0 != vector_results@[rk].0);
                }
                assert(false);
            }
            assert(!kids.take(0).contains(id));
        }
        assert forall|a: int, b: int|
            0 <= a < b < acc@.len() implies (#[trigger] acc@[a]).id != (#[trigger] acc@[b]).id by {
            assert(vector_results@[a].0 != vector_results@[b].0);
        }
        assert forall|id: u32|
            vids.contains(id) || kids.take(0).contains(id) implies #[trigger] has_entry(
            acc@,
            id,
        ) by {
            assert(vids.contains(id));
            let r0 = choose|r0: int| 0 <= r0 < vids.len() && vids[r0] == id;
            assert(acc@[r0].id == id);
        }
    }
    // contributions of the keyword-ranked list
    let mut k: usize = 0;
    while k < keyword_results.len()
        invariant
            keyword_results@.len() <= RANK_LIMIT,
            vids.len() <= RANK_LIMIT,
            kids == keyword_results@,
            forall|a: int, b: int|
                0 <= a < b < keyword_results@.len() ==> (#[trigger] keyword_results@[a]) != (
                #[trigger] keyword_results@[b]),
            k <= keyword_results@.len(),
            forall|t: int|
                0 <= t < acc@.len() ==> entry_scored(vids, kids.take(k as int), #[trigger] acc@[t]),
            forall|a: int, b: int|
                0 <= a < b < acc@.len() ==> (#[trigger] acc@[a]).id != (#[trigger] acc@[b]).id,
            forall|t: int|
                0 <= t < acc@.len() ==> vids.contains((#[trigger] acc@[t]).id) || kids.take(
                    k as int,
                ).contains(acc@[t].id),
            forall|id: u32|
                vids.contains(id) || kids.take(k as int).contains(id) ==> #[trigger] has_entry(
                    acc@,
                    id,
                ),
        decreases keyword_results@.len() - k,
    {
        let id = keyword_results[k];
        let den = RRF_K + (k as u64) + 1;
        let ghost pre = acc@;
        proof {
            // this id is new to the processed keyword prefix
            assert(!kids.take(k as int).contains(id)) by {
                if kids.take(k as int).contains(id) {
                    let t = choose|t: int| 0 <= t < k && kids.take(k as int)[t] == id;
                    assert(keyword_results@[t] != keyword_results@[k as int]);
                }
            }
            assert(kids.take(k as int + 1).contains(id)) by {
                assert(kids.take(k as int + 1)[k as int] == id);
            }
            assert(rank_of(kids, id) == k as int) by {
                assert(kids[k as int] == id);
                let rk = rank_of(kids, id);
                assert(kids[rk] == id);
                if rk < k as int {
                    assert(keyword_results@[rk] != keyword_results@[k as int]);
                } else if rk > k as int {
                    assert(keyword_results@[k as int] != keyword_results@[rk]);
                }
            }
        }
        let ghost mut wpos: int = 0;
        match find_result(&acc, id) {
            Some(t) => {
                let e = acc[t];
                proof {
                    // the existing entry is the vector-list contribution
                    assert(vids.contains(id));
                    assert(e.score_num == 1);
                    let rv = rank_of(vids, id);
                    assert(0 <= rv < vids.len());
                    assert(e.score_den == RRF_K + rv + 1);
                    assert(e.score_den <= 0x8000_003c && den <= 0x8000_003c);
                    assert((e.score_den as int) * (den as int) <= 0x8000_003c * 0x8000_003c)
                        by (nonlinear_arith)
                        requires
                            0 <= e.score_den as int <= 0x8000_003c,
                            0 <= den as int <= 0x8000_003c,
                    {}
                }
                let num2 = e.score_num * den + e.score_den;
                let den2 = e.score_den * den;
                acc.set(t, SearchResult { id, score_num: num2, score_den: den2 });
                proof {
                    lemma_mul_strictly_positive(e.score_den as int, den as int);
                    wpos = t as int;
                    assert(acc@[wpos].id == id);
                    let kp = kids.take(k as int + 1);
                    assert(rank_of(kp, id) == k as int) by {
                        let rk = rank_of(kp, id);
                        assert(kp[k as int] == id);
                        assert(kp[rk] == id);
                        if rk < k as int {
                            assert(keyword_results@[rk] != keyword_results@[k as int]);
                        }
                    }
                    assert(kp.contains(id)) by {
                        assert(kp[k as int] == id);
                    }
                    assert(entry_scored(vids, kp, acc@[wpos])) by {
                        let dv = rrf_den(rank_of(vids, id));
                        let dk = rrf_den(rank_of(kp, id));
                        assert(e.score_den == dv);
                        assert(den == dk);
                        assert(num2 == dv + dk);
                        assert(den2 == dv * dk);
                        lemma_mul_strictly_positive(dv, dk);
                    }
                    assert(forall|t2: int|
                        0 <= t2 < acc@.len() && t2 != wpos ==> #[trigger] acc@[t2] == pre[t2]);
                    assert forall|t2: int|
                        0 <= t2 < acc@.len() && (#[trigger] acc@[t2]).id == id implies t2
                        == wpos by {
                        if t2 != wpos {
                            assert(pre[t2].id == id);
                            assert(pre[wpos].id == id);
                            if t2 < wpos {
                                assert(pre[t2].id != pre[wpos].id);
                            } else {
                                assert(pre[wpos].id != pre[t2].id);
                            }
                        }
                    }
                }
            },
            None => {
                acc.push(SearchResult { id, score_num: 1, score_den: den });
                proof {
                    wpos = acc@.len() - 1;
                    assert(acc@[wpos].id == id);
                    let kp = kids.take(k as int + 1);
                    assert(rank_of(kp, id) == k as int) by {
                        let rk = rank_of(kp, id);
                        assert(kp[k as int] == id);
                        assert(kp[rk] == id);
                        if rk < k as int {
                            assert(keyword_results@[rk] != keyword_results@[k as int]);
                        }
                    }
                    assert(kp.contains(id)) by {
                        assert(kp[k as int] == id);
                    }
                    assert(!vids.contains(id)) by {
                        if vids.contains(id) {
                            assert(has_entry(pre, id));
                            let t0 = choose|t0: int|
                                0 <= t0 < pre.len() && (#[trigger] pre[t0]).id == id;
                        }
                    }
                    assert(entry_scored(vids, kp, acc@[wpos]));
                    assert(forall|t2: int|
                        0 <= t2 < acc@.len() && t2 != wpos ==> #[trigger] acc@[t2] == pre[t2]);
                    assert forall|t2: int|
                        0 <= t2 < acc@.len() && (#[trigger] acc@[t2]).id == id implies t2
                        == wpos by {
                        if t2 != wpos {
                            assert(pre[t2].id == id);
                        }
                    }
                }
            },
        }
        proof {
            let kp = kids.take(k as int + 1);
            assert(kids.take(k as int) =~= kp.take(k as int));
            assert forall|t: int| 0 <= t < acc@.len() implies entry_scored(
                vids,
                kp,
                #[trigger] acc@[t],
            ) by {
                let eid = acc@[t].id;
                if eid == id {
                    assert(t == wpos);
                    assert(entry_scored(vids, kp, acc@[wpos]));
                } else {
                    assert(t != wpos);
                    assert(acc@[t] == pre[t]);
                    assert(entry_scored(vids, kids.take(k as int), pre[t]));
                    // membership in the longer prefix is unchanged for eid
                    assert(kids.take(k as int).contains(eid) <==> kp.contains(eid)) by {
                        if kp.contains(eid) {
                            let u = choose|u: int| 0 <= u < kp.len() && kp[u] == eid;
                            if u == k as int {
                                assert(eid == id);
                            } else {
                                assert(kids.take(k as int)[u] == eid);
                            }
                        }
                    }
                    if kp.contains(eid) {
                        assert(rank_of(kids.take(k as int), eid) == rank_of(kp, eid)) by {
                            let r1 = rank_of(kids.take(k as int), eid);
                            assert(kids.take(k as int)[r1] == eid);
                            assert(kp[r1] == eid);
                        }
                    }
                    assert(rrf_score(vids, kids.take(k as int), eid) == rrf_score(vids, kp, eid))
                        by {
                        if vids.contains(eid) || kids.take(k as int).contains(eid) {
                        }
                    }
                }
            }
            assert forall|t: int|
                0 <= t < acc@.len() implies vids.contains((#[trigger] acc@[t]).id) || kp.contains(
                acc@[t].id,
            ) by {
                if t == wpos {
                    assert(kp.contains(id)) by {
                        assert(kp[k as int] == id);
                    }
                } else {
                    assert(acc@[t] == pre[t]);
                    if kids.take(k as int).contains(acc@[t].id) {
                        let u = choose|u: int|
                            0 <= u < kids.take(k as int).len() && kids.take(k as int)[u]
                                == acc@[t].id;
                        assert(kp[u] == acc@[t].id);
                    }
                }
            }
            assert forall|id2: u32|
                vids.contains(id2) || kp.contains(id2) implies #[trigger] has_entry(
                acc@,
                id2,
            ) by {
                if id2 == id {
                    // witnessed by the entry just written
                } else {
                    if kp.contains(id2) {
                        let u = choose|u: int| 0 <= u < kp.len() && kp[u] == id2;
                        if u < k as int {
                            assert(kids.take(k as int)[u] == id2);
                            assert(kids.take(k as int).contains(id2));
                        } else {
                            assert(kp[u] == id);
                        }
                    }
                    assert(vids.contains(id2) || kids.take(k as int).contains(id2));
                    assert(has_entry(pre, id2));
                    let t0 = choose|t: int| 0 <= t < pre.len() && (#[trigger] pre[t]).id == id2;
                    assert(acc@[t0].id == id2);
                }
            }
        }
        k = k + 1;
    }
    proof {
        assert(kids.take(keyword_results@.len() as int) =~= kids);
        assert forall|id: u32|
            vids.contains(id) || kids.contains(id) implies #[trigger] has_entry(acc@, id) by {
            assert(vids.contains(id) || kids.take(keyword_results@.len() as int).contains(id));
        }
    }
    let out = sort_results(acc, Ghost(vids), Ghost(kids));
    out
}

} // verus!
