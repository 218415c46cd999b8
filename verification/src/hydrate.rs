//! Startup reconciliation between a (possibly) persisted index and the
//! authoritative item store: keep a loaded graph only when its node count
//! agrees with the store, otherwise rebuild it from the store's items.

use vstd::prelude::*;
use crate::hnsw::{Graph, HnswConfig, IndexError, spec_config_ok};
use crate::math::coords_bounded;

verus! {

/// What hydration did: whether the graph was rebuilt, and how many store
/// items were inserted successfully during a rebuild (equal to the store
/// size when nothing was rebuilt).
#[derive(Clone, Copy, PartialEq, Eq, Structural, Debug)]
pub struct HydrationReport {
    pub rebuilt: bool,
    pub success_count: usize,
}

/// The store's items are individually insertable: distinct ids, the
/// configured dimension, and room for all of them.
pub open spec fn rebuild_clean(items: Seq<(u64, Vec<i64>)>, config: HnswConfig) -> bool {
    &&& forall|a: int, b: int|
        0 <= a < b < items.len() ==> (#[trigger] items[a]).0 != (#[trigger] items[b]).0
    &&& forall|i: int| 0 <= i < items.len() ==> (#[trigger] items[i]).1@.len() == config.dim
    &&& items.len() <= config.max_elements
}

/// Whether some already-inserted pair carries this id.
pub open spec fn rebuilt_has_id(prev: Seq<(u64, Seq<i64>)>, id: u64) -> bool {
    exists|t: int| 0 <= t < prev.len() && (#[trigger] prev[t]).0 == id
}

/// The `(id, vector)` pairs a rebuild inserts, in store order: an item
/// goes in exactly when its vector has the configured dimension, its id
/// was not inserted before it, and there is still room — an individual
/// rejection skips that item and nothing else.
pub open spec fn rebuilt_nodes(items: Seq<(u64, Vec<i64>)>, config: HnswConfig) -> Seq<
    (u64, Seq<i64>),
>
    decreases items.len(),
{
    if items.len() == 0 {
        Seq::empty()
    } else {
        let prev = rebuilt_nodes(items.drop_last(), config);
        let item = items.last();
        if item.1@.len() == config.dim && !rebuilt_has_id(prev, item.0) && prev.len()
            < config.max_elements {
            prev.push((item.0, item.1@))
        } else {
            prev
        }
    }
}

/// Build a fresh graph and insert every store item in order; the result
/// holds exactly the `rebuilt_nodes` of the store. An individual
/// rejection (say, a duplicate id in a corrupt store) is counted out but
/// does not abort the rebuild.
fn rebuild(items: &Vec<(u64, Vec<i64>)>, config: &HnswConfig) -> (r: Result<
    (Graph, HydrationReport),
    IndexError,
>)
    requires
        forall|i: int| 0 <= i < items@.len() ==> coords_bounded((#[trigger] items@[i]).1@),
    ensures
        r is Ok <==> spec_config_ok(*config),
        match r {
            Ok(p) => {
                &&& p.0.wf()
                &&& p.1.rebuilt
                &&& p.0.node_count() == p.1.success_count
                &&& p.1.success_count == rebuilt_nodes(items@, *config).len()
                &&& p.1.success_count <= items@.len()
                &&& forall|t: int|
                    0 <= t < p.0.node_count() ==> (#[trigger] p.0.nodes@[t]).id == rebuilt_nodes(
                        items@,
                        *config,
                    )[t].0 && p.0.nodes@[t].vector@ == rebuilt_nodes(items@, *config)[t].1
                &&& p.0.dim == config.dim
                &&& p.0.max_elements == config.max_elements
                &&& (rebuild_clean(items@, *config) ==> p.1.success_count == items@.len())
            },
            Err(e) => e == IndexError::InvalidConfig,
        },
{
    let mut g = match Graph::init(config) {
        Ok(g) => g,
        Err(e) => {
            return Err(e);
        },
    };
    let mut success: usize = 0;
    let mut i: usize = 0;
    proof {
        assert(items@.take(0) =~= Seq::<(u64, Vec<i64>)>::empty());
    }
    while i < items.len()
        invariant
            forall|j: int| 0 <= j < items@.len() ==> coords_bounded((#[trigger] items@[j]).1@),
            i <= items@.len(),
            g.wf(),
            g.dim == config.dim,
            g.max_elements == config.max_elements,
            success == g.node_count(),
            success <= i,
            success == rebuilt_nodes(items@.take(i as int), *config).len(),
            forall|t: int|
                0 <= t < g.node_count() ==> (#[trigger] g.nodes@[t]).id == rebuilt_nodes(
                    items@.take(i as int),
                    *config,
                )[t].0 && g.nodes@[t].vector@ == rebuilt_nodes(items@.take(i as int), *config)[t].1,
            forall|id: u64|
                g.has_id(id) ==> exists|j: int| 0 <= j < i && (#[trigger] items@[j]).0 == id,
            rebuild_clean(items@, *config) ==> success == i,
        decreases items@.len() - i,
    {
        let ghost pre = g;
        let ghost rn = rebuilt_nodes(items@.take(i as int), *config);
        let (id, vector) = (items[i].0, items[i].1.clone());
        proof {
            assert(vector@ =~= items@[i as int].1@);
            // the graph's ids are exactly the inserted pairs' ids
            assert forall|id2: u64| g.has_id(id2) implies rebuilt_has_id(rn, id2) by {
                let w = choose|w: int|
                    0 <= w < g.nodes@.len() && (#[trigger] g.nodes@[w]).id == id2;
                assert(rn[w].0 == id2);
            }
            assert forall|id2: u64| rebuilt_has_id(rn, id2) implies g.has_id(id2) by {
                let w = choose|w: int| 0 <= w < rn.len() && (#[trigger] rn[w]).0 == id2;
                assert(g.nodes@[w].id == id2);
            }
        }
        let outcome = g.insert(id, vector);
        proof {
            let rn2 = rebuilt_nodes(items@.take(i as int + 1), *config);
            assert(items@.take(i as int + 1).drop_last() =~= items@.take(i as int));
            assert(items@.take(i as int + 1).last() == items@[i as int]);
            if outcome is Ok {
                // the spec inserts this item too
                assert(pre.insert_check(id, items@[i as int].1@.len() as int) is None);
                assert(!rebuilt_has_id(rn, id));
                assert(rn2 == rn.push((id, items@[i as int].1@)));
                assert forall|t: int|
                    0 <= t < g.node_count() implies (#[trigger] g.nodes@[t]).id == rn2[t].0
                        && g.nodes@[t].vector@ == rn2[t].1 by {
                    if t < pre.node_count() {
                        assert(g.nodes@[t].id == pre.nodes@[t].id && g.nodes@[t].vector@
                            == pre.nodes@[t].vector@);
                    }
                }
                assert forall|id2: u64| g.has_id(id2) implies exists|j: int|
                    0 <= j < i + 1 && (#[trigger] items@[j]).0 == id2 by {
                    let w = choose|w: int|
                        0 <= w < g.nodes@.len() && (#[trigger] g.nodes@[w]).id == id2;
                    if w < pre.nodes@.len() {
                        assert(pre.nodes@[w].id == id2);
                        assert(pre.has_id(id2));
                        let j = choose|j: int| 0 <= j < i && (#[trigger] items@[j]).0 == id2;
                        assert(items@[j].0 == id2);
                    } else {
                        assert(items@[i as int].0 == id2);
                    }
                }
            } else {
                // the spec skips this item for the same reason
                assert(g == pre);
                let e = outcome->Err_0;
                assert(pre.insert_check(id, items@[i as int].1@.len() as int) == Some(e));
                assert(!(items@[i as int].1@.len() == config.dim && !rebuilt_has_id(rn, id)
                    && rn.len() < config.max_elements));
                assert(rn2 == rn);
            }
            if rebuild_clean(items@, *config) {
                // a clean store never has an insertion rejected
                if outcome is Err {
                    let e = outcome->Err_0;
                    assert(pre.insert_check(id, items@[i as int].1@.len() as int) == Some(e));
                    if pre.has_id(id) {
                        let j = choose|j: int| 0 <= j < i && (#[trigger] items@[j]).0 == id;
                        assert(items@[j].0 != items@[i as int].0);
                    }
                    assert(false);
                }
            }
        }
        if outcome.is_ok() {
            success = success + 1;
        }
        i = i + 1;
    }
    proof {
        assert(items@.take(items@.len() as int) =~= items@);
    }
    Ok((g, HydrationReport { rebuilt: true, success_count: success }))
}

/// The hydration protocol: a freshly created index (nothing persisted)
/// is rebuilt from the store; a loaded index is kept exactly when its
/// node count equals the store's count, and rebuilt otherwise. A rebuild
/// fails exactly when the configuration is out of range.
pub fn load_or_rebuild(
    loaded: Option<Graph>,
    items: &Vec<(u64, Vec<i64>)>,
    config: &HnswConfig,
) -> (r: Result<(Graph, HydrationReport), IndexError>)
    requires
        loaded matches Some(g0) ==> g0.wf(),
        forall|i: int| 0 <= i < items@.len() ==> coords_bounded((#[trigger] items@[i]).1@),
    ensures
        loaded matches Some(g0) ==> (g0.node_count() == items@.len() ==> (r matches Ok(p) && p.0
            == g0 && !p.1.rebuilt && p.1.success_count == items@.len())),
        !(loaded matches Some(g0) && g0.node_count() == items@.len()) ==> {
            &&& (r is Ok <==> spec_config_ok(*config))
            &&& match r {
                Ok(p) => {
                    &&& p.0.wf()
                    &&& p.1.rebuilt
                    &&& p.0.node_count() == p.1.success_count
                    &&& p.1.success_count == rebuilt_nodes(items@, *config).len()
                    &&& p.1.success_count <= items@.len()
                    &&& forall|t: int|
                        0 <= t < p.0.node_count() ==> (#[trigger] p.0.nodes@[t]).id
                            == rebuilt_nodes(items@, *config)[t].0 && p.0.nodes@[t].vector@
                            == rebuilt_nodes(items@, *config)[t].1
                    &&& p.0.dim == config.dim
                    &&& p.0.max_elements == config.max_elements
                    &&& (rebuild_clean(items@, *config) ==> p.1.success_count == items@.len())
                },
                Err(e) => e == IndexError::InvalidConfig,
            }
        },
        r matches Ok(p) ==> p.0.wf(),
{
    match loaded {
        Some(g) => {
            let n = g.count();
            if n == items.len() {
                Ok((g, HydrationReport { rebuilt: false, success_count: n }))
            } else {
                rebuild(items, config)
            }
        },
        None => rebuild(items, config),
    }
}

} // verus!
