//! Exhaustive-recall service: score every catalog item against a user
//! embedding and return the best, in order. The index in `hnsw` answers
//! the same question approximately; this scan is the exact baseline.

use vstd::prelude::*;
use crate::math::{dot, coords_bounded, compute_dot_product, DIM_LIMIT};
use crate::model::{Item, User};

verus! {

/// The returned pair names a catalog item and carries its exact
/// similarity to the query.
pub open spec fn recall_entry_ok(items: Seq<Item>, q: Seq<i64>, p: (u64, i128)) -> bool {
    exists|i: int|
        0 <= i < items.len() && (#[trigger] items[i]).id == p.0 && p.1 == dot(
            items[i].embedding@,
            q,
        )
}

/// Some pair of `s` carries this item index.
pub open spec fn has_index(s: Seq<(usize, i128)>, i: int) -> bool {
    exists|j: int| 0 <= j < s.len() && (#[trigger] s[j]).0 == i
}

/// Exhaustive top-`k` scan: every item is scored; each one is either
/// returned or beaten by everything returned.
fn top_k_indices(items: &Vec<Item>, q: &Vec<i64>, k: usize) -> (r: Vec<(usize, i128)>)
    requires
        q@.len() <= DIM_LIMIT,
        coords_bounded(q@),
        forall|i: int| 0 <= i < items@.len() ==> (#[trigger] items@[i]).wf(),
        forall|i: int| 0 <= i < items@.len() ==> (#[trigger] items@[i]).embedding@.len()
            == q@.len(),
    ensures
        r@.len() == if k <= items@.len() {
            k as int
        } else {
            items@.len() as int
        },
        forall|t: int| 0 <= t < r@.len() ==> (#[trigger] r@[t]).0 < items@.len(),
        forall|t: int| 0 <= t < r@.len() ==> (#[trigger] r@[t]).1 == dot(
            items@[r@[t].0 as int].embedding@,
            q@,
        ),
        forall|a: int, b: int| 0 <= a < b < r@.len() ==> (#[trigger] r@[a]).1 >= (
            #[trigger] r@[b]).1,
        forall|a: int, b: int|
            0 <= a < b < r@.len() ==> (#[trigger] r@[a]).0 != (#[trigger] r@[b]).0,
        forall|i: int|
            0 <= i < items@.len() ==> has_index(r@, i) || (forall|t: int|
                0 <= t < r@.len() ==> dot(items@[i].embedding@, q@) <= (#[trigger] r@[t]).1),
{
    let mut pool: Vec<(usize, i128)> = Vec::new();
    let mut i: usize = 0;
    while i < items.len()
        invariant
            q@.len() <= DIM_LIMIT,
            coords_bounded(q@),
            forall|t: int| 0 <= t < items@.len() ==> (#[trigger] items@[t]).wf(),
            forall|t: int| 0 <= t < items@.len() ==> (#[trigger] items@[t]).embedding@.len()
                == q@.len(),
            i <= items@.len(),
            pool@.len() == i,
            forall|t: int| 0 <= t < i ==> (#[trigger] pool@[t]).0 == t,
            forall|t: int| 0 <= t < i ==> (#[trigger] pool@[t]).1 == dot(
                items@[t].embedding@,
                q@,
            ),
        decreases items@.len() - i,
    {
        proof {
            assert(items@[i as int].wf());
        }
        let s = match compute_dot_product(&items[i].embedding, q) {
            Some(s) => s,
            None => {
                // unreachable: the lengths agree
                proof {
                    assert(false);
                }
                0
            },
        };
        pool.push((i, s));
        i = i + 1;
    }
    let ghost total = pool@.len() as int;
    proof {
        assert forall|i2: int| 0 <= i2 < items@.len() implies has_index(pool@, i2) by {
            assert(pool@[i2].0 == i2);
        }
    }
    let mut out: Vec<(usize, i128)> = Vec::new();
    while out.len() < k && pool.len() > 0
        invariant
            out@.len() <= k,
            pool@.len() + out@.len() == total,
            total == items@.len(),
            forall|t: int| 0 <= t < pool@.len() ==> (#[trigger] pool@[t]).0 < items@.len(),
            forall|t: int| 0 <= t < pool@.len() ==> (#[trigger] pool@[t]).1 == dot(
                items@[pool@[t].0 as int].embedding@,
                q@,
            ),
            forall|t: int| 0 <= t < out@.len() ==> (#[trigger] out@[t]).0 < items@.len(),
            forall|t: int| 0 <= t < out@.len() ==> (#[trigger] out@[t]).1 == dot(
                items@[out@[t].0 as int].embedding@,
                q@,
            ),
            forall|a: int, b: int|
                0 <= a < b < pool@.len() ==> (#[trigger] pool@[a]).0 != (#[trigger] pool@[b]).0,
            forall|a: int, b: int|
                0 <= a < b < out@.len() ==> (#[trigger] out@[a]).0 != (#[trigger] out@[b]).0,
            forall|j: int, c: int|
                0 <= j < pool@.len() && 0 <= c < out@.len() ==> (#[trigger] pool@[j]).0 != (
                #[trigger] out@[c]).0,
            forall|j: int, c: int|
                0 <= j < pool@.len() && 0 <= c < out@.len() ==> (#[trigger] pool@[j]).1 <= (
                #[trigger] out@[c]).1,
            forall|a: int, b: int| 0 <= a < b < out@.len() ==> (#[trigger] out@[a]).1 >= (
                #[trigger] out@[b]).1,
            forall|i2: int| 0 <= i2 < items@.len() ==> has_index(out@, i2) || has_index(
                pool@,
                i2,
            ),
        decreases pool@.len(),
    {
        let mut p: usize = 0;
        let mut j: usize = 1;
        while j < pool.len()
            invariant
                0 < j <= pool@.len(),
                p < j,
                forall|t: int| 0 <= t < j ==> (#[trigger] pool@[t]).1 <= pool@[p as int].1,
            decreases pool@.len() - j,
        {
            if pool[j].1 > pool[p].1 {
                p = j;
            }
            j = j + 1;
        }
        let (pi, ps) = pool[p];
        let ghost prepool = pool@;
        let ghost preout = out@;
        pool.swap_remove(p);
        out.push((pi, ps));
        proof {
            assert forall|i2: int|
                0 <= i2 < items@.len() implies has_index(out@, i2) || has_index(pool@, i2) by {
                if i2 == pi as int {
                    assert(out@[out@.len() - 1].0 == pi);
                } else if has_index(prepool, i2) {
                    let w = choose|w: int| 0 <= w < prepool.len() && (#[trigger] prepool[w]).0
                        == i2;
                    if w == p as int {
                        assert(prepool[w].0 == pi);
                    } else if w == prepool.len() - 1 {
                        assert(pool@[p as int].0 == i2);
                    } else {
                        assert(pool@[w].0 == i2);
                    }
                } else {
                    assert(has_index(preout, i2));
                    let w = choose|w: int| 0 <= w < preout.len() && (#[trigger] preout[w]).0
                        == i2;
                    assert(out@[w].0 == i2);
                }
            }
        }
    }
    out
}

/// Exhaustive recall: the `k` catalog items most similar to the user
/// embedding, as `(item id, similarity)` pairs in descending order of
/// similarity; every item left out scores no better than anything
/// returned.
pub fn recommend_recall(user_embedding: &Vec<i64>, items: &Vec<Item>, k: usize) -> (r: Vec<
    (u64, i128),
>)
    requires
        user_embedding@.len() <= DIM_LIMIT,
        coords_bounded(user_embedding@),
        forall|i: int| 0 <= i < items@.len() ==> (#[trigger] items@[i]).wf(),
        forall|i: int| 0 <= i < items@.len() ==> (#[trigger] items@[i]).embedding@.len()
            == user_embedding@.len(),
    ensures
        r@.len() == if k <= items@.len() {
            k as int
        } else {
            items@.len() as int
        },
        forall|t: int|
            0 <= t < r@.len() ==> recall_entry_ok(items@, user_embedding@, #[trigger] r@[t]),
        forall|a: int, b: int| 0 <= a < b < r@.len() ==> (#[trigger] r@[a]).1 >= (
            #[trigger] r@[b]).1,
        forall|i: int|
            0 <= i < items@.len() ==> (exists|t: int|
                0 <= t < r@.len() && (#[trigger] r@[t]).0 == (#[trigger] items@[i]).id) || (
            forall|t: int|
                0 <= t < r@.len() ==> dot(items@[i].embedding@, user_embedding@) <= (
                #[trigger] r@[t]).1),
{
    let picks = top_k_indices(items, user_embedding, k);
    let mut r: Vec<(u64, i128)> = Vec::new();
    let mut t: usize = 0;
    while t < picks.len()
        invariant
            forall|c: int| 0 <= c < picks@.len() ==> (#[trigger] picks@[c]).0 < items@.len(),
            t <= picks@.len(),
            r@.len() == t,
            forall|c: int| 0 <= c < t ==> (#[trigger] r@[c]).0 == items@[picks@[c].0 as int].id,
            forall|c: int| 0 <= c < t ==> (#[trigger] r@[c]).1 == picks@[c].1,
        decreases picks@.len() - t,
    {
        let (idx, s) = picks[t];
        r.push((items[idx].id, s));
        t = t + 1;
    }
    proof {
        assert forall|t2: int|
            0 <= t2 < r@.len() implies recall_entry_ok(
            items@,
            user_embedding@,
            #[trigger] r@[t2],
        ) by {
            let i = picks@[t2].0 as int;
            assert(items@[i].id == r@[t2].0 && r@[t2].1 == dot(
                items@[i].embedding@,
                user_embedding@,
            ));
        }
        assert forall|i: int|
            0 <= i < items@.len() implies (exists|t2: int|
                0 <= t2 < r@.len() && (#[trigger] r@[t2]).0 == (#[trigger] items@[i]).id) || (
            forall|t2: int|
                0 <= t2 < r@.len() ==> dot(items@[i].embedding@, user_embedding@) <= (
            #[trigger] r@[t2]).1) by {
            if has_index(picks@, i) {
                let j = choose|j: int| 0 <= j < picks@.len() && (#[trigger] picks@[j]).0 == i;
                assert(r@[j].0 == items@[i].id);
            } else {
                assert forall|t2: int|
                    0 <= t2 < r@.len() implies dot(items@[i].embedding@, user_embedding@) <= (
                #[trigger] r@[t2]).1 by {
                    assert(picks@[t2].1 == r@[t2].1);
                }
            }
        }
    }
    r
}

/// Recommendation service over a fixed catalog.
pub struct RecommendationService {
    pub items: Vec<Item>,
}

impl RecommendationService {
    /// A service owning its catalog.
    pub fn new(items: Vec<Item>) -> (r: RecommendationService)
        ensures
            r.items@ == items@,
    {
        RecommendationService { items }
    }

    /// The `top_k` catalog items most similar to the user, as
    /// `(catalog index, similarity)` pairs in descending order of
    /// similarity; every index left out scores no better than anything
    /// returned.
    pub fn recommend(&self, user: &User, top_k: usize) -> (r: Vec<(usize, i128)>)
        requires
            user.embedding@.len() <= DIM_LIMIT,
            coords_bounded(user.embedding@),
            forall|i: int| 0 <= i < self.items@.len() ==> (#[trigger] self.items@[i]).wf(),
            forall|i: int|
                0 <= i < self.items@.len() ==> (#[trigger] self.items@[i]).embedding@.len()
                    == user.embedding@.len(),
        ensures
            r@.len() == if top_k <= self.items@.len() {
                top_k as int
            } else {
                self.items@.len() as int
            },
            forall|t: int| 0 <= t < r@.len() ==> (#[trigger] r@[t]).0 < self.items@.len(),
            forall|t: int| 0 <= t < r@.len() ==> (#[trigger] r@[t]).1 == dot(
                self.items@[r@[t].0 as int].embedding@,
                user.embedding@,
            ),
            forall|a: int, b: int| 0 <= a < b < r@.len() ==> (#[trigger] r@[a]).1 >= (
                #[trigger] r@[b]).1,
            forall|a: int, b: int|
                0 <= a < b < r@.len() ==> (#[trigger] r@[a]).0 != (#[trigger] r@[b]).0,
            forall|i: int|
                0 <= i < self.items@.len() ==> has_index(r@, i) || (forall|t: int|
                    0 <= t < r@.len() ==> dot(self.items@[i].embedding@, user.embedding@) <= (
                    #[trigger] r@[t]).1),
    {
        top_k_indices(&self.items, &user.embedding, top_k)
    }
}

} // verus!
