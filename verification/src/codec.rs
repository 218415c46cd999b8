//! Binary persistence of the proximity graph: dimension, node count,
//! entry point and maximum layer, then each node's id, fixed-point
//! components and per-layer neighbor lists, all as little-endian 64-bit
//! words. The format is private to this crate; decoding checks every
//! structural and semantic constraint, so a decoded graph is well formed
//! and an encoded graph decodes to itself.

use vstd::prelude::*;
use vstd::bytes::{
    spec_u64_to_le_bytes, spec_u64_from_le_bytes, lemma_auto_spec_u64_to_from_le_bytes,
    u64_to_le_bytes, u64_from_le_bytes,
};
use crate::hnsw::{Graph, Node, HnswConfig, MAX_LEVEL, M_LIMIT, spec_config_ok};
use crate::math::{COORD_LIMIT, DIM_LIMIT};

verus! {

/// Ghost image of one persisted node.
pub struct NodeV {
    pub id: u64,
    pub vector: Seq<i64>,
    pub layers: Seq<Seq<u64>>,
}

/// Ghost image of a persisted graph.
pub struct GraphV {
    pub dim: u64,
    pub entry: u64,
    pub max_layer: u64,
    pub nodes: Seq<NodeV>,
}

/// The persisted image of a graph value.
pub open spec fn graph_view(g: Graph) -> GraphV {
    GraphV {
        dim: g.dim as u64,
        entry: g.entry as u64,
        max_layer: g.max_layer as u64,
        nodes: Seq::new(
            g.nodes@.len(),
            |i: int|
                NodeV {
                    id: g.nodes@[i].id,
                    vector: g.nodes@[i].vector@,
                    layers: Seq::new(
                        g.nodes@[i].layers@.len(),
                        |l: int|
                            Seq::new(
                                g.nodes@[i].layers@[l]@.len(),
                                |e: int| g.nodes@[i].layers@[l]@[e] as u64,
                            ),
                    ),
                },
        ),
    }
}

/// A component in `[-COORD_LIMIT, COORD_LIMIT]` as a non-negative word.
pub open spec fn word_of_coord(c: i64) -> u64 {
    (c + COORD_LIMIT) as u64
}

/// Inverse of `word_of_coord` on words up to `2 * COORD_LIMIT`.
pub open spec fn coord_of_word(w: u64) -> i64 {
    (w - COORD_LIMIT as u64) as i64
}

/// One neighbor list: its length, then its entries.
pub open spec fn enc_list(l: Seq<u64>) -> Seq<u64> {
    seq![l.len() as u64] + l
}

/// All neighbor lists of one node, in layer order.
pub open spec fn enc_lists(ls: Seq<Seq<u64>>) -> Seq<u64>
    decreases ls.len(),
{
    if ls.len() == 0 {
        Seq::empty()
    } else {
        enc_list(ls.first()) + enc_lists(ls.drop_first())
    }
}

/// The components of one vector, in order.
pub open spec fn enc_coords(v: Seq<i64>) -> Seq<u64>
    decreases v.len(),
{
    if v.len() == 0 {
        Seq::empty()
    } else {
        seq![word_of_coord(v.first())] + enc_coords(v.drop_first())
    }
}

/// One node: id, components, layer count, then its lists.
pub open spec fn enc_node(n: NodeV) -> Seq<u64> {
    seq![n.id] + enc_coords(n.vector) + seq![n.layers.len() as u64] + enc_lists(n.layers)
}

/// All nodes, in table order.
pub open spec fn enc_nodes(ns: Seq<NodeV>) -> Seq<u64>
    decreases ns.len(),
{
    if ns.len() == 0 {
        Seq::empty()
    } else {
        enc_node(ns.first()) + enc_nodes(ns.drop_first())
    }
}

/// The whole graph as words: a four-word header, then the nodes.
pub open spec fn enc_words(v: GraphV) -> Seq<u64> {
    seq![v.dim, v.nodes.len() as u64, v.entry, v.max_layer] + enc_nodes(v.nodes)
}

/// Words as little-endian bytes.
pub open spec fn bytes_of_words(ws: Seq<u64>) -> Seq<u8>
    decreases ws.len(),
{
    if ws.len() == 0 {
        Seq::empty()
    } else {
        spec_u64_to_le_bytes(ws.first()) + bytes_of_words(ws.drop_first())
    }
}

/// The full persisted blob of a graph image.
pub open spec fn spec_encode(v: GraphV) -> Seq<u8> {
    bytes_of_words(enc_words(v))
}

// ---------------------------------------------------------------- parsing

/// Parse one length-prefixed neighbor list; yields the list and the rest.
pub open spec fn parse_list(s: Seq<u64>) -> Option<(Seq<u64>, Seq<u64>)> {
    if s.len() < 1 {
        None
    } else {
        let n = s[0] as int;
        if s.len() < 1 + n {
            None
        } else {
            Some((s.subrange(1, 1 + n), s.skip(1 + n)))
        }
    }
}

/// Parse `n` neighbor lists.
pub open spec fn parse_lists(s: Seq<u64>, n: nat) -> Option<(Seq<Seq<u64>>, Seq<u64>)>
    decreases n,
{
    if n == 0 {
        Some((Seq::empty(), s))
    } else {
        match parse_list(s) {
            None => None,
            Some((l, r)) => match parse_lists(r, (n - 1) as nat) {
                None => None,
                Some((ls, r2)) => Some((seq![l] + ls, r2)),
            },
        }
    }
}

/// Parse `n` fixed-point components; each word must be in coder range.
pub open spec fn parse_coords(s: Seq<u64>, n: nat) -> Option<(Seq<i64>, Seq<u64>)>
    decreases n,
{
    if n == 0 {
        Some((Seq::empty(), s))
    } else if s.len() < 1 {
        None
    } else if s[0] > 2 * COORD_LIMIT as u64 {
        None
    } else {
        match parse_coords(s.drop_first(), (n - 1) as nat) {
            None => None,
            Some((v, r)) => Some((seq![coord_of_word(s[0])] + v, r)),
        }
    }
}

/// Parse one node for a given dimension.
pub open spec fn parse_node(s: Seq<u64>, dim: nat) -> Option<(NodeV, Seq<u64>)> {
    if s.len() < 1 {
        None
    } else {
        let id = s[0];
        match parse_coords(s.drop_first(), dim) {
            None => None,
            Some((v, r)) => {
                if r.len() < 1 {
                    None
                } else {
                    let nl = r[0] as nat;
                    match parse_lists(r.drop_first(), nl) {
                        None => None,
                        Some((ls, r2)) => Some((NodeV { id, vector: v, layers: ls }, r2)),
                    }
                }
            },
        }
    }
}

/// Parse `n` nodes.
pub open spec fn parse_nodes(s: Seq<u64>, n: nat, dim: nat) -> Option<(Seq<NodeV>, Seq<u64>)>
    decreases n,
{
    if n == 0 {
        Some((Seq::empty(), s))
    } else {
        match parse_node(s, dim) {
            None => None,
            Some((nd, r)) => match parse_nodes(r, (n - 1) as nat, dim) {
                None => None,
                Some((ns, r2)) => Some((seq![nd] + ns, r2)),
            },
        }
    }
}

/// Parse a whole graph image; the words must be consumed exactly.
pub open spec fn parse_graph(s: Seq<u64>) -> Option<GraphV> {
    if s.len() < 4 {
        None
    } else {
        let dim = s[0];
        let count = s[1] as nat;
        let entry = s[2];
        let max_layer = s[3];
        match parse_nodes(s.skip(4), count, dim as nat) {
            None => None,
            Some((ns, rest)) => {
                if rest.len() != 0 {
                    None
                } else {
                    Some(GraphV { dim, entry, max_layer, nodes: ns })
                }
            },
        }
    }
}

/// Bytes as words; fails unless the length is a multiple of eight.
pub open spec fn words_of_bytes(bs: Seq<u8>) -> Option<Seq<u64>>
    decreases bs.len(),
{
    if bs.len() == 0 {
        Some(Seq::empty())
    } else if bs.len() < 8 {
        None
    } else {
        match words_of_bytes(bs.skip(8)) {
            None => None,
            Some(ws) => Some(seq![spec_u64_from_le_bytes(bs.subrange(0, 8))] + ws),
        }
    }
}

/// The full decoder at the level of byte sequences: reject an unusable
/// configuration, parse, then accept only an image that satisfies every
/// invariant of a graph built for `config`.
pub open spec fn spec_decode(bs: Seq<u8>, config: HnswConfig) -> Option<GraphV> {
    if !spec_config_ok(config) {
        None
    } else {
        match words_of_bytes(bs) {
            None => None,
            Some(ws) => match parse_graph(ws) {
                None => None,
                Some(v) => if view_ok(v, config) {
                    Some(v)
                } else {
                    None
                },
            },
        }
    }
}

/// The semantic checks a decoded image must pass: exactly the graph
/// invariant, stated over the image.
pub open spec fn view_ok(v: GraphV, config: HnswConfig) -> bool {
    &&& v.dim == config.dim as u64
    &&& v.nodes.len() <= config.max_elements
    &&& v.max_layer <= MAX_LEVEL as u64
    &&& (v.nodes.len() > 0 ==> v.entry < v.nodes.len() && v.nodes[v.entry as int].layers.len()
        == v.max_layer + 1)
    &&& (v.nodes.len() == 0 ==> v.entry == 0 && v.max_layer == 0)
    &&& forall|i: int, j: int|
        0 <= i < j < v.nodes.len() ==> (#[trigger] v.nodes[i]).id != (#[trigger] v.nodes[j]).id
    &&& forall|i: int| 0 <= i < v.nodes.len() ==> node_view_ok(v, config, i)
}

/// The per-node checks of `view_ok`.
pub open spec fn node_view_ok(v: GraphV, config: HnswConfig, i: int) -> bool {
    let n = v.nodes[i];
    &&& n.vector.len() == config.dim
    &&& forall|c: int| 0 <= c < n.vector.len() ==> -COORD_LIMIT <= #[trigger] n.vector[c]
        <= COORD_LIMIT
    &&& 1 <= n.layers.len() <= v.max_layer + 1
    &&& forall|l: int| 0 <= l < n.layers.len() ==> list_view_ok(v, config, i, l)
}

/// The per-list checks of `view_ok`.
pub open spec fn list_view_ok(v: GraphV, config: HnswConfig, i: int, l: int) -> bool {
    let lst = v.nodes[i].layers[l];
    &&& lst.len() <= (if l == 0 {
        2 * config.m as int
    } else {
        config.m as int
    })
    &&& forall|e: int| 0 <= e < lst.len() ==> {
        let nb = #[trigger] lst[e] as int;
        &&& nb < v.nodes.len()
        &&& nb != i
        &&& l < v.nodes[nb].layers.len()
    }
}

/// One parsed node before index narrowing: neighbor entries still raw
/// words.
struct RawNode {
    id: u64,
    vector: Vec<i64>,
    layers: Vec<Vec<u64>>,
}

/// The image of a raw node.
spec fn raw_view(n: RawNode) -> NodeV {
    NodeV { id: n.id, vector: n.vector@, layers: lists_view(n.layers@) }
}

/// The image of a sequence of lists.
spec fn lists_view(ls: Seq<Vec<u64>>) -> Seq<Seq<u64>> {
    Seq::new(ls.len(), |l: int| ls[l]@)
}

/// The image of a vector of raw nodes.
spec fn nodes_view(ns: Seq<RawNode>) -> Seq<NodeV> {
    Seq::new(ns.len(), |i: int| raw_view(ns[i]))
}

/// A byte count that is not a multiple of eight never chunks into words.
proof fn lemma_words_of_bytes_none(bs: Seq<u8>)
    requires
        bs.len() % 8 != 0,
    ensures
        words_of_bytes(bs) is None,
    decreases bs.len(),
{
    if bs.len() >= 8 {
        assert(bs.skip(8).len() == bs.len() - 8);
        assert((bs.len() - 8) % 8 != 0) by {
            assert(bs.len() % 8 == (bs.len() - 8) % 8) by (nonlinear_arith)
                requires
                    bs.len() >= 8,
            {}
        }
        lemma_words_of_bytes_none(bs.skip(8));
    }
}

/// Chunking eight bytes at a time is exactly `words_of_bytes`.
proof fn lemma_words_of_bytes_chunks(bs: Seq<u8>, ws: Seq<u64>)
    requires
        bs.len() == 8 * ws.len(),
        forall|j: int|
            0 <= j < ws.len() ==> #[trigger] ws[j] == spec_u64_from_le_bytes(
                bs.subrange(8 * j, 8 * j + 8),
            ),
    ensures
        words_of_bytes(bs) == Some(ws),
    decreases ws.len(),
{
    if ws.len() == 0 {
        assert(bs.len() == 0);
        assert(Seq::<u64>::empty() =~= ws);
    } else {
        assert(bs.len() >= 8);
        let rest = bs.skip(8);
        assert(rest.len() == 8 * ws.drop_first().len());
        assert forall|j: int|
            0 <= j < ws.drop_first().len() implies #[trigger] ws.drop_first()[j]
            == spec_u64_from_le_bytes(rest.subrange(8 * j, 8 * j + 8)) by {
            assert(ws.drop_first()[j] == ws[j + 1]);
            assert(rest.subrange(8 * j, 8 * j + 8) =~= bs.subrange(8 * (j + 1), 8 * (j + 1) + 8));
        }
        lemma_words_of_bytes_chunks(rest, ws.drop_first());
        assert(ws[0] == spec_u64_from_le_bytes(bs.subrange(0, 8)));
        assert(seq![ws[0]] + ws.drop_first() =~= ws);
    }
}

/// Parsing `n` nodes yields exactly `n` of them.
proof fn lemma_parse_nodes_len(s: Seq<u64>, n: nat, dim: nat)
    requires
        parse_nodes(s, n, dim) is Some,
    ensures
        parse_nodes(s, n, dim)->Some_0.0.len() == n,
    decreases n,
{
    if n > 0 {
        let (nd, r) = parse_node(s, dim)->Some_0;
        lemma_parse_nodes_len(r, (n - 1) as nat, dim);
    }
}

/// More lists than words cannot parse: each list takes at least one word.
proof fn lemma_parse_lists_exhaust(s: Seq<u64>, n: nat)
    requires
        n > s.len(),
    ensures
        parse_lists(s, n) is None,
    decreases n,
{
    match parse_list(s) {
        None => {},
        Some((l, r)) => {
            assert(r.len() < s.len());
            lemma_parse_lists_exhaust(r, (n - 1) as nat);
        },
    }
}

// ------------------------------------------------- parse/print agreement

/// Snoc form of `enc_coords`.
proof fn lemma_enc_coords_snoc(v: Seq<i64>, x: i64)
    ensures
        enc_coords(v.push(x)) == enc_coords(v) + seq![word_of_coord(x)],
    decreases v.len(),
{
    let s = v.push(x);
    assert(s.len() != 0);
    assert(enc_coords(s) == seq![word_of_coord(s.first())] + enc_coords(s.drop_first()));
    if v.len() == 0 {
        assert(s.first() == x);
        assert(s.drop_first() =~= Seq::<i64>::empty());
        assert(enc_coords(s.drop_first()) == Seq::<u64>::empty());
        assert(enc_coords(s) =~= enc_coords(v) + seq![word_of_coord(x)]);
    } else {
        assert(s.first() == v.first());
        assert(s.drop_first() =~= v.drop_first().push(x));
        lemma_enc_coords_snoc(v.drop_first(), x);
        assert(enc_coords(v) == seq![word_of_coord(v.first())] + enc_coords(v.drop_first()));
        assert(enc_coords(s) =~= enc_coords(v) + seq![word_of_coord(x)]);
    }
}

/// Snoc form of `enc_lists`.
proof fn lemma_enc_lists_snoc(ls: Seq<Seq<u64>>, x: Seq<u64>)
    ensures
        enc_lists(ls.push(x)) == enc_lists(ls) + enc_list(x),
    decreases ls.len(),
{
    let s = ls.push(x);
    assert(s.len() != 0);
    assert(enc_lists(s) == enc_list(s.first()) + enc_lists(s.drop_first()));
    if ls.len() == 0 {
        assert(s.first() == x);
        assert(s.drop_first() =~= Seq::<Seq<u64>>::empty());
        assert(enc_lists(s.drop_first()) == Seq::<u64>::empty());
        assert(enc_lists(s) =~= enc_lists(ls) + enc_list(x));
    } else {
        assert(s.first() == ls.first());
        assert(s.drop_first() =~= ls.drop_first().push(x));
        lemma_enc_lists_snoc(ls.drop_first(), x);
        assert(enc_lists(ls) == enc_list(ls.first()) + enc_lists(ls.drop_first()));
        assert(enc_lists(s) =~= enc_lists(ls) + enc_list(x));
    }
}

/// Snoc form of `enc_nodes`.
proof fn lemma_enc_nodes_snoc(ns: Seq<NodeV>, x: NodeV)
    ensures
        enc_nodes(ns.push(x)) == enc_nodes(ns) + enc_node(x),
    decreases ns.len(),
{
    let s = ns.push(x);
    assert(s.len() != 0);
    assert(enc_nodes(s) == enc_node(s.first()) + enc_nodes(s.drop_first()));
    if ns.len() == 0 {
        assert(s.first() == x);
        assert(s.drop_first() =~= Seq::<NodeV>::empty());
        assert(enc_nodes(s.drop_first()) == Seq::<u64>::empty());
        assert(enc_nodes(s) =~= enc_nodes(ns) + enc_node(x));
    } else {
        assert(s.first() == ns.first());
        assert(s.drop_first() =~= ns.drop_first().push(x));
        lemma_enc_nodes_snoc(ns.drop_first(), x);
        assert(enc_nodes(ns) == enc_node(ns.first()) + enc_nodes(ns.drop_first()));
        assert(enc_nodes(s) =~= enc_nodes(ns) + enc_node(x));
    }
}

/// Snoc form of `bytes_of_words`.
proof fn lemma_bytes_of_words_snoc(ws: Seq<u64>, x: u64)
    ensures
        bytes_of_words(ws.push(x)) == bytes_of_words(ws) + spec_u64_to_le_bytes(x),
    decreases ws.len(),
{
    let s = ws.push(x);
    assert(s.len() != 0);
    assert(bytes_of_words(s) == spec_u64_to_le_bytes(s.first()) + bytes_of_words(s.drop_first()));
    if ws.len() == 0 {
        assert(s.first() == x);
        assert(s.drop_first() =~= Seq::<u64>::empty());
        assert(bytes_of_words(s.drop_first()) == Seq::<u8>::empty());
        assert(bytes_of_words(s) =~= bytes_of_words(ws) + spec_u64_to_le_bytes(x));
    } else {
        assert(s.first() == ws.first());
        assert(s.drop_first() =~= ws.drop_first().push(x));
        lemma_bytes_of_words_snoc(ws.drop_first(), x);
        assert(bytes_of_words(ws) == spec_u64_to_le_bytes(ws.first()) + bytes_of_words(
            ws.drop_first(),
        ));
        assert(bytes_of_words(s) =~= bytes_of_words(ws) + spec_u64_to_le_bytes(x));
    }
}

/// A printed list parses back to itself, leaving the rest untouched.
proof fn lemma_parse_list_enc(l: Seq<u64>, t: Seq<u64>)
    requires
        l.len() <= 0xffff_ffff_ffff_ffff,
    ensures
        parse_list(enc_list(l) + t) == Some((l, t)),
{
    let s = enc_list(l) + t;
    assert(s[0] == l.len() as u64);
    assert(s.len() == 1 + l.len() + t.len());
    assert(s.subrange(1, 1 + l.len() as int) =~= l);
    assert(s.skip(1 + l.len() as int) =~= t);
}

/// Printed lists parse back to themselves.
proof fn lemma_parse_lists_enc(ls: Seq<Seq<u64>>, t: Seq<u64>)
    requires
        forall|i: int| 0 <= i < ls.len() ==> (#[trigger] ls[i]).len() <= 0xffff_ffff_ffff_ffff,
    ensures
        parse_lists(enc_lists(ls) + t, ls.len()) == Some((ls, t)),
    decreases ls.len(),
{
    if ls.len() == 0 {
        assert(enc_lists(ls) + t =~= t);
        assert(seq![] + ls =~= ls);
        assert(parse_lists(t, 0) == Some((Seq::<Seq<u64>>::empty(), t)));
        assert(Seq::<Seq<u64>>::empty() =~= ls);
    } else {
        let rest = enc_lists(ls.drop_first()) + t;
        assert(enc_lists(ls) + t =~= enc_list(ls.first()) + rest);
        assert(ls.first().len() <= 0xffff_ffff_ffff_ffff) by {
            assert(ls[0].len() <= 0xffff_ffff_ffff_ffff);
        }
        lemma_parse_list_enc(ls.first(), rest);
        lemma_parse_lists_enc(ls.drop_first(), t);
        assert(seq![ls.first()] + ls.drop_first() =~= ls);
    }
}

/// Printed components parse back to themselves.
proof fn lemma_parse_coords_enc(v: Seq<i64>, t: Seq<u64>)
    requires
        forall|c: int| 0 <= c < v.len() ==> -COORD_LIMIT <= #[trigger] v[c] <= COORD_LIMIT,
    ensures
        parse_coords(enc_coords(v) + t, v.len()) == Some((v, t)),
    decreases v.len(),
{
    if v.len() == 0 {
        assert(enc_coords(v) + t =~= t);
        assert(parse_coords(t, 0) == Some((Seq::<i64>::empty(), t)));
        assert(Seq::<i64>::empty() =~= v);
    } else {
        let s = enc_coords(v) + t;
        assert(v[0] == v.first());
        assert(-COORD_LIMIT <= v.first() <= COORD_LIMIT);
        assert(s.len() >= 1 && s[0] == word_of_coord(v.first())) by {
            assert(enc_coords(v) =~= seq![word_of_coord(v.first())] + enc_coords(v.drop_first()));
        }
        assert(s[0] <= 2 * COORD_LIMIT as u64);
        assert(coord_of_word(s[0]) == v.first());
        assert(s.drop_first() =~= enc_coords(v.drop_first()) + t);
        lemma_parse_coords_enc(v.drop_first(), t);
        assert(seq![v.first()] + v.drop_first() =~= v);
    }
}

/// A printed node parses back to itself.
proof fn lemma_parse_node_enc(n: NodeV, t: Seq<u64>, dim: nat)
    requires
        n.vector.len() == dim,
        forall|c: int| 0 <= c < n.vector.len() ==> -COORD_LIMIT <= #[trigger] n.vector[c]
            <= COORD_LIMIT,
        n.layers.len() <= 0xffff_ffff_ffff_ffff,
        forall|l: int| 0 <= l < n.layers.len() ==> (#[trigger] n.layers[l]).len()
            <= 0xffff_ffff_ffff_ffff,
    ensures
        parse_node(enc_node(n) + t, dim) == Some((n, t)),
{
    let s = enc_node(n) + t;
    let after_id = enc_coords(n.vector) + (seq![n.layers.len() as u64] + enc_lists(n.layers) + t);
    assert(s.len() >= 1 && s[0] == n.id) by {
        assert(s =~= seq![n.id] + after_id);
    }
    assert(s.drop_first() =~= after_id);
    lemma_parse_coords_enc(n.vector, seq![n.layers.len() as u64] + enc_lists(n.layers) + t);
    let r = seq![n.layers.len() as u64] + enc_lists(n.layers) + t;
    assert(r.len() >= 1 && r[0] == n.layers.len() as u64);
    assert(r.drop_first() =~= enc_lists(n.layers) + t);
    lemma_parse_lists_enc(n.layers, t);
    assert(NodeV { id: n.id, vector: n.vector, layers: n.layers } == n);
}

/// Printed nodes parse back to themselves.
proof fn lemma_parse_nodes_enc(ns: Seq<NodeV>, t: Seq<u64>, dim: nat)
    requires
        forall|i: int| 0 <= i < ns.len() ==> (#[trigger] ns[i]).vector.len() == dim,
        forall|i: int, c: int|
            0 <= i < ns.len() && 0 <= c < ns[i].vector.len() ==> -COORD_LIMIT <= (
            #[trigger] ns[i].vector[c]) <= COORD_LIMIT,
        forall|i: int| 0 <= i < ns.len() ==> (#[trigger] ns[i]).layers.len()
            <= 0xffff_ffff_ffff_ffff,
        forall|i: int, l: int|
            0 <= i < ns.len() && 0 <= l < ns[i].layers.len() ==> (
            #[trigger] ns[i].layers[l]).len() <= 0xffff_ffff_ffff_ffff,
    ensures
        parse_nodes(enc_nodes(ns) + t, ns.len(), dim) == Some((ns, t)),
    decreases ns.len(),
{
    if ns.len() == 0 {
        assert(enc_nodes(ns) + t =~= t);
        assert(parse_nodes(t, 0, dim) == Some((Seq::<NodeV>::empty(), t)));
        assert(Seq::<NodeV>::empty() =~= ns);
    } else {
        let rest = enc_nodes(ns.drop_first()) + t;
        assert(enc_nodes(ns) + t =~= enc_node(ns.first()) + rest);
        assert(ns[0] == ns.first());
        lemma_parse_node_enc(ns.first(), rest, dim);
        assert forall|i: int| 0 <= i < ns.drop_first().len() implies (#[trigger] ns.drop_first()[i]).vector.len()
            == dim && ns.drop_first()[i].layers.len() <= 0xffff_ffff_ffff_ffff by {
            assert(ns.drop_first()[i] == ns[i + 1]);
        }
        assert forall|i: int, c: int|
            0 <= i < ns.drop_first().len() && 0 <= c < ns.drop_first()[i].vector.len() implies
            -COORD_LIMIT <= (#[trigger] ns.drop_first()[i].vector[c]) <= COORD_LIMIT by {
            assert(ns.drop_first()[i] == ns[i + 1]);
        }
        assert forall|i: int, l: int|
            0 <= i < ns.drop_first().len() && 0 <= l < ns.drop_first()[i].layers.len() implies (
        #[trigger] ns.drop_first()[i].layers[l]).len() <= 0xffff_ffff_ffff_ffff by {
            assert(ns.drop_first()[i] == ns[i + 1]);
        }
        lemma_parse_nodes_enc(ns.drop_first(), t, dim);
        assert(seq![ns.first()] + ns.drop_first() =~= ns);
    }
}

/// Printed words parse back from their bytes.
proof fn lemma_words_of_bytes_enc(ws: Seq<u64>)
    ensures
        words_of_bytes(bytes_of_words(ws)) == Some(ws),
    decreases ws.len(),
{
    lemma_auto_spec_u64_to_from_le_bytes();
    if ws.len() == 0 {
    } else {
        let bs = bytes_of_words(ws);
        assert(bs =~= spec_u64_to_le_bytes(ws.first()) + bytes_of_words(ws.drop_first()));
        assert(spec_u64_to_le_bytes(ws.first()).len() == 8);
        assert(bs.len() >= 8);
        assert(bs.skip(8) =~= bytes_of_words(ws.drop_first()));
        lemma_words_of_bytes_enc(ws.drop_first());
        assert(bs.subrange(0, 8) =~= spec_u64_to_le_bytes(ws.first()));
        assert(spec_u64_from_le_bytes(bs.subrange(0, 8)) == ws.first());
        assert(seq![ws.first()] + ws.drop_first() =~= ws);
    }
}

/// The save/load round trip: the persisted bytes of a well-formed graph
/// decode, under a matching configuration, to exactly the graph's image.
pub proof fn lemma_save_load_round_trip(g: Graph, config: HnswConfig)
    requires
        g.wf(),
        config.dim == g.dim,
        config.max_elements == g.max_elements,
        config.m == g.m,
    ensures
        spec_decode(spec_encode(graph_view(g)), config) == Some(graph_view(g)),
{
    let v = graph_view(g);
    let ws = enc_words(v);
    lemma_words_of_bytes_enc(ws);
    // the node encodings parse back
    assert forall|i: int| 0 <= i < v.nodes.len() implies (#[trigger] v.nodes[i]).vector.len()
        == g.dim && v.nodes[i].layers.len() <= 0xffff_ffff_ffff_ffff by {
        assert(g.node_wf(i));
    }
    assert forall|i: int, c: int|
        0 <= i < v.nodes.len() && 0 <= c < v.nodes[i].vector.len() implies -COORD_LIMIT <= (
    #[trigger] v.nodes[i].vector[c]) <= COORD_LIMIT by {
        assert(g.node_wf(i));
        assert(g.nodes@[i].vector@[c] == v.nodes[i].vector[c]);
    }
    assert forall|i: int, l: int|
        0 <= i < v.nodes.len() && 0 <= l < v.nodes[i].layers.len() implies (
    #[trigger] v.nodes[i].layers[l]).len() <= 0xffff_ffff_ffff_ffff by {
        assert(g.node_wf(i));
        assert(g.list_wf(i, l));
    }
    lemma_parse_nodes_enc(v.nodes, Seq::empty(), g.dim as nat);
    assert(ws.skip(4) =~= enc_nodes(v.nodes) + Seq::<u64>::empty());
    assert(ws[0] == v.dim && ws[1] == v.nodes.len() as u64 && ws[2] == v.entry && ws[3]
        == v.max_layer);
    assert(parse_graph(ws) == Some(v)) by {
        assert(parse_nodes(ws.skip(4), v.nodes.len(), g.dim as nat) == Some((
            v.nodes,
            Seq::<u64>::empty(),
        )));
        assert(GraphV { dim: v.dim, entry: v.entry, max_layer: v.max_layer, nodes: v.nodes }
            == v);
    }
    // a well-formed graph passes the semantic checks
    assert(view_ok(v, config)) by {
        if v.nodes.len() > 0 {
            assert(v.nodes[v.entry as int].layers.len() == v.max_layer + 1);
        }
        assert forall|i: int, j: int|
            0 <= i < j < v.nodes.len() implies (#[trigger] v.nodes[i]).id != (
        #[trigger] v.nodes[j]).id by {
            assert(g.nodes@[i].id != g.nodes@[j].id);
        }
        assert forall|i: int| 0 <= i < v.nodes.len() implies node_view_ok(v, config, i) by {
            assert(g.node_wf(i));
            assert forall|l: int| 0 <= l < v.nodes[i].layers.len() implies list_view_ok(
                v,
                config,
                i,
                l,
            ) by {
                assert(g.list_wf(i, l));
                assert forall|e: int| 0 <= e < v.nodes[i].layers[l].len() implies {
                    let nb = #[trigger] v.nodes[i].layers[l][e] as int;
                    &&& nb < v.nodes.len()
                    &&& nb != i
                    &&& l < v.nodes[nb].layers.len()
                } by {
                    assert(v.nodes[i].layers[l][e] == g.nodes@[i].layers@[l]@[e] as u64);
                }
            }
        }
    }
}

// ------------------------------------------------------ executable parsing

/// Parse `n` components at `start`, mirroring `parse_coords` exactly.
fn parse_coords_at(words: &Vec<u64>, start: usize, n: usize) -> (r: Option<(Vec<i64>, usize)>)
    requires
        start <= words@.len(),
    ensures
        match r {
            Some(p) => start <= p.1 <= words@.len() && parse_coords(
                words@.skip(start as int),
                n as nat,
            ) == Some((p.0@, words@.skip(p.1 as int))),
            None => parse_coords(words@.skip(start as int), n as nat) is None,
        },
{
    let mut got: Vec<i64> = Vec::new();
    let mut cur = start;
    let mut c: usize = 0;
    while c < n
        invariant
            start <= cur <= words@.len(),
            c <= n,
            got@.len() == c,
            ({
                let whole = parse_coords(words@.skip(start as int), n as nat);
                let tail = parse_coords(words@.skip(cur as int), (n - c) as nat);
                match tail {
                    None => whole is None,
                    Some(p) => whole == Some((got@ + p.0, p.1)),
                }
            }),
        decreases n - c,
    {
        let ghost s = words@.skip(cur as int);
        let ghost tail0 = parse_coords(s, (n - c) as nat);
        if cur >= words.len() {
            proof {
                assert(s.len() == 0);
                assert(tail0 is None);
            }
            return None;
        }
        let word = words[cur];
        proof {
            assert(s[0] == word);
        }
        if word > 2 * (COORD_LIMIT as u64) {
            proof {
                assert(tail0 is None);
            }
            return None;
        }
        let coord = (word as i64) - COORD_LIMIT;
        proof {
            assert(coord == coord_of_word(word));
            assert(s.drop_first() =~= words@.skip(cur as int + 1));
            let tail1 = parse_coords(words@.skip(cur as int + 1), (n - c - 1) as nat);
            if tail1 is Some {
                let p = tail1->Some_0;
                assert(tail0 == Some((seq![coord_of_word(word)] + p.0, p.1)));
                assert(got@.push(coord) + p.0 =~= got@ + (seq![coord_of_word(word)] + p.0));
            } else {
                assert(tail0 is None);
            }
        }
        got.push(coord);
        cur = cur + 1;
        c = c + 1;
    }
    proof {
        assert(parse_coords(words@.skip(cur as int), 0) == Some(
            (Seq::<i64>::empty(), words@.skip(cur as int)),
        ));
        assert(got@ + Seq::<i64>::empty() =~= got@);
    }
    Some((got, cur))
}

/// Parse one length-prefixed list at `start`, mirroring `parse_list`.
fn parse_list_at(words: &Vec<u64>, start: usize) -> (r: Option<(Vec<u64>, usize)>)
    requires
        start <= words@.len(),
    ensures
        match r {
            Some(p) => start <= p.1 <= words@.len() && parse_list(words@.skip(start as int))
                == Some((p.0@, words@.skip(p.1 as int))),
            None => parse_list(words@.skip(start as int)) is None,
        },
{
    let ghost s = words@.skip(start as int);
    if start >= words.len() {
        proof {
            assert(s.len() == 0);
        }
        return None;
    }
    let n_word = words[start];
    proof {
        assert(s[0] == n_word);
    }
    if n_word > (words.len() - start - 1) as u64 {
        proof {
            assert(s.len() < 1 + n_word as int);
        }
        return None;
    }
    let deg = n_word as usize;
    let mut l: Vec<u64> = Vec::new();
    let mut e: usize = 0;
    while e < deg
        invariant
            start + 1 + deg <= words@.len(),
            words@.len() <= usize::MAX,
            e <= deg,
            l@ == words@.subrange(start as int + 1, start as int + 1 + e as int),
        decreases deg - e,
    {
        l.push(words[start + 1 + e]);
        proof {
            assert(l@ =~= words@.subrange(start as int + 1, start as int + 1 + e as int + 1));
        }
        e = e + 1;
    }
    proof {
        assert(s.len() >= 1 + deg as int);
        assert(l@ =~= s.subrange(1, 1 + deg as int));
        assert(words@.skip(start as int + 1 + deg as int) =~= s.skip(1 + deg as int));
    }
    Some((l, start + 1 + deg))
}

/// Parse `n` lists at `start`, mirroring `parse_lists`.
fn parse_lists_at(words: &Vec<u64>, start: usize, n: usize) -> (r: Option<(Vec<Vec<u64>>, usize)>)
    requires
        start <= words@.len(),
    ensures
        match r {
            Some(p) => start <= p.1 <= words@.len() && parse_lists(
                words@.skip(start as int),
                n as nat,
            ) == Some((lists_view(p.0@), words@.skip(p.1 as int))),
            None => parse_lists(words@.skip(start as int), n as nat) is None,
        },
{
    let mut got: Vec<Vec<u64>> = Vec::new();
    let mut cur = start;
    let mut c: usize = 0;
    proof {
        assert(lists_view(got@) =~= Seq::<Seq<u64>>::empty());
    }
    while c < n
        invariant
            start <= cur <= words@.len(),
            c <= n,
            ({
                let whole = parse_lists(words@.skip(start as int), n as nat);
                let tail = parse_lists(words@.skip(cur as int), (n - c) as nat);
                match tail {
                    None => whole is None,
                    Some(p) => whole == Some((lists_view(got@) + p.0, p.1)),
                }
            }),
        decreases n - c,
    {
        let ghost tail0 = parse_lists(words@.skip(cur as int), (n - c) as nat);
        let step = parse_list_at(words, cur);
        match step {
            None => {
                proof {
                    assert(tail0 is None);
                }
                return None;
            },
            Some((l, nc)) => {
                proof {
                    let tail1 = parse_lists(words@.skip(nc as int), (n - c - 1) as nat);
                    if tail1 is Some {
                        let p = tail1->Some_0;
                        assert(tail0 == Some((seq![l@] + p.0, p.1)));
                        assert(lists_view(got@.push(l)) =~= lists_view(got@).push(l@));
                        assert(lists_view(got@).push(l@) + p.0 =~= lists_view(got@) + (seq![l@]
                            + p.0));
                    } else {
                        assert(tail0 is None);
                    }
                }
                got.push(l);
                cur = nc;
            },
        }
        c = c + 1;
    }
    proof {
        assert(parse_lists(words@.skip(cur as int), 0) == Some(
            (Seq::<Seq<u64>>::empty(), words@.skip(cur as int)),
        ));
        assert(lists_view(got@) + Seq::<Seq<u64>>::empty() =~= lists_view(got@));
    }
    Some((got, cur))
}

/// Parse one node at `start`, mirroring `parse_node`.
fn parse_node_at(words: &Vec<u64>, start: usize, dim: usize) -> (r: Option<(RawNode, usize)>)
    requires
        start <= words@.len(),
    ensures
        match r {
            Some(p) => start <= p.1 <= words@.len() && parse_node(
                words@.skip(start as int),
                dim as nat,
            ) == Some((raw_view(p.0), words@.skip(p.1 as int))),
            None => parse_node(words@.skip(start as int), dim as nat) is None,
        },
{
    let ghost s = words@.skip(start as int);
    if start >= words.len() {
        proof {
            assert(s.len() == 0);
        }
        return None;
    }
    let id = words[start];
    proof {
        assert(s[0] == id);
        assert(s.drop_first() =~= words@.skip(start as int + 1));
    }
    let (vector, cur) = match parse_coords_at(words, start + 1, dim) {
        None => {
            return None;
        },
        Some(p) => p,
    };
    let ghost mid = words@.skip(cur as int);
    if cur >= words.len() {
        proof {
            assert(mid.len() == 0);
        }
        return None;
    }
    let nl_word = words[cur];
    proof {
        assert(mid[0] == nl_word);
        assert(mid.drop_first() =~= words@.skip(cur as int + 1));
    }
    if nl_word > (words.len() - cur - 1) as u64 {
        // more layer lists than words remain: parsing must run dry
        proof {
            lemma_parse_lists_exhaust(words@.skip(cur as int + 1), nl_word as nat);
        }
        return None;
    }
    let nl = nl_word as usize;
    let (layers, end) = match parse_lists_at(words, cur + 1, nl) {
        None => {
            return None;
        },
        Some(p) => p,
    };
    let node = RawNode { id, vector, layers };
    proof {
        assert(raw_view(node) == NodeV { id, vector: node.vector@, layers: lists_view(node.layers@) });
    }
    Some((node, end))
}

/// Parse `count` nodes at `start`, mirroring `parse_nodes`.
fn parse_nodes_at(words: &Vec<u64>, start: usize, count: usize, dim: usize) -> (r: Option<
    (Vec<RawNode>, usize),
>)
    requires
        start <= words@.len(),
    ensures
        match r {
            Some(p) => start <= p.1 <= words@.len() && parse_nodes(
                words@.skip(start as int),
                count as nat,
                dim as nat,
            ) == Some((nodes_view(p.0@), words@.skip(p.1 as int))),
            None => parse_nodes(words@.skip(start as int), count as nat, dim as nat) is None,
        },
{
    let mut got: Vec<RawNode> = Vec::new();
    let mut cur = start;
    let mut c: usize = 0;
    proof {
        assert(nodes_view(got@) =~= Seq::<NodeV>::empty());
    }
    while c < count
        invariant
            start <= cur <= words@.len(),
            c <= count,
            ({
                let whole = parse_nodes(words@.skip(start as int), count as nat, dim as nat);
                let tail = parse_nodes(words@.skip(cur as int), (count - c) as nat, dim as nat);
                match tail {
                    None => whole is None,
                    Some(p) => whole == Some((nodes_view(got@) + p.0, p.1)),
                }
            }),
        decreases count - c,
    {
        let ghost tail0 = parse_nodes(words@.skip(cur as int), (count - c) as nat, dim as nat);
        let step = parse_node_at(words, cur, dim);
        match step {
            None => {
                proof {
                    assert(tail0 is None);
                }
                return None;
            },
            Some((node, nc)) => {
                proof {
                    let tail1 = parse_nodes(
                        words@.skip(nc as int),
                        (count - c - 1) as nat,
                        dim as nat,
                    );
                    if tail1 is Some {
                        let p = tail1->Some_0;
                        assert(tail0 == Some((seq![raw_view(node)] + p.0, p.1)));
                        assert(nodes_view(got@.push(node)) =~= nodes_view(got@).push(
                            raw_view(node),
                        ));
                        assert(nodes_view(got@).push(raw_view(node)) + p.0 =~= nodes_view(got@)
                            + (seq![raw_view(node)] + p.0));
                    } else {
                        assert(tail0 is None);
                    }
                }
                got.push(node);
                cur = nc;
            },
        }
        c = c + 1;
    }
    proof {
        assert(parse_nodes(words@.skip(cur as int), 0, dim as nat) == Some(
            (Seq::<NodeV>::empty(), words@.skip(cur as int)),
        ));
        assert(nodes_view(got@) + Seq::<NodeV>::empty() =~= nodes_view(got@));
    }
    Some((got, cur))
}

// ------------------------------------------------------------- executable

impl Graph {
    /// Serialize the graph to its persisted blob.
    pub fn save(&self) -> (r: Vec<u8>)
        requires
            self.wf(),
        ensures
            r@ == spec_encode(graph_view(*self)),
    {
        let ghost v = graph_view(*self);
        let mut words: Vec<u64> = Vec::new();
        words.push(self.dim as u64);
        words.push(self.nodes.len() as u64);
        words.push(self.entry as u64);
        words.push(self.max_layer as u64);
        proof {
            assert(words@ =~= seq![v.dim, v.nodes.len() as u64, v.entry, v.max_layer]);
            assert(v.nodes.take(0) =~= Seq::<NodeV>::empty());
            assert(words@ + enc_nodes(v.nodes.take(0)) =~= words@);
        }
        let ghost hdr = words@;
        let mut i: usize = 0;
        while i < self.nodes.len()
            invariant
                self.wf(),
                v == graph_view(*self),
                hdr == seq![v.dim, v.nodes.len() as u64, v.entry, v.max_layer],
                i <= self.nodes@.len(),
                words@ == hdr + enc_nodes(v.nodes.take(i as int)),
            decreases self.nodes@.len() - i,
        {
            let ghost nv = v.nodes[i as int];
            let ghost base0 = words@;
            proof {
                assert(self.node_wf(i as int));
            }
            words.push(self.nodes[i].id);
            // components
            let dim = self.nodes[i].vector.len();
            let mut c: usize = 0;
            proof {
                assert(nv.vector.take(0) =~= Seq::<i64>::empty());
                assert(words@ =~= base0 + seq![nv.id] + enc_coords(nv.vector.take(0)));
            }
            while c < dim
                invariant
                    self.wf(),
                    v == graph_view(*self),
                    i < self.nodes@.len(),
                    nv == v.nodes[i as int],
                    dim == self.nodes@[i as int].vector@.len(),
                    c <= dim,
                    words@ == base0 + seq![nv.id] + enc_coords(nv.vector.take(c as int)),
                decreases dim - c,
            {
                proof {
                    assert(self.node_wf(i as int));
                    assert(-COORD_LIMIT <= self.nodes@[i as int].vector@[c as int]
                        <= COORD_LIMIT);
                }
                let comp = self.nodes[i].vector[c];
                words.push((comp + COORD_LIMIT) as u64);
                proof {
                    assert(nv.vector[c as int] == comp);
                    lemma_enc_coords_snoc(nv.vector.take(c as int), comp);
                    assert(nv.vector.take(c as int + 1) =~= nv.vector.take(c as int).push(comp));
                    assert(words@ =~= base0 + seq![nv.id] + enc_coords(
                        nv.vector.take(c as int + 1),
                    ));
                }
                c = c + 1;
            }
            proof {
                assert(nv.vector.take(dim as int) =~= nv.vector);
            }
            let depth = self.nodes[i].layers.len();
            words.push(depth as u64);
            let ghost base1 = base0 + seq![nv.id] + enc_coords(nv.vector) + seq![
                nv.layers.len() as u64,
            ];
            proof {
                assert(nv.layers.len() == depth);
                assert(nv.layers.take(0) =~= Seq::<Seq<u64>>::empty());
                assert(words@ =~= base1 + enc_lists(nv.layers.take(0)));
            }
            // neighbor lists
            let mut l: usize = 0;
            while l < depth
                invariant
                    self.wf(),
                    v == graph_view(*self),
                    i < self.nodes@.len(),
                    nv == v.nodes[i as int],
                    depth == self.nodes@[i as int].layers@.len(),
                    l <= depth,
                    words@ == base1 + enc_lists(nv.layers.take(l as int)),
                decreases depth - l,
            {
                let ghost lv = nv.layers[l as int];
                let deg = self.nodes[i].layers[l].len();
                words.push(deg as u64);
                let ghost base2 = base1 + enc_lists(nv.layers.take(l as int)) + seq![
                    lv.len() as u64,
                ];
                proof {
                    assert(lv.len() == deg);
                    assert(lv.take(0) =~= Seq::<u64>::empty());
                    assert(words@ =~= base2 + lv.take(0));
                }
                let mut e: usize = 0;
                while e < deg
                    invariant
                        self.wf(),
                        v == graph_view(*self),
                        i < self.nodes@.len(),
                        nv == v.nodes[i as int],
                        l < self.nodes@[i as int].layers@.len(),
                        lv == nv.layers[l as int],
                        deg == self.nodes@[i as int].layers@[l as int]@.len(),
                        e <= deg,
                        words@ == base2 + lv.take(e as int),
                    decreases deg - e,
                {
                    let nb = self.nodes[i].layers[l][e];
                    words.push(nb as u64);
                    proof {
                        assert(lv[e as int] == nb as u64);
                        assert(lv.take(e as int + 1) =~= lv.take(e as int).push(nb as u64));
                        assert(words@ =~= base2 + lv.take(e as int + 1));
                    }
                    e = e + 1;
                }
                proof {
                    assert(lv.take(deg as int) =~= lv);
                    lemma_enc_lists_snoc(nv.layers.take(l as int), lv);
                    assert(nv.layers.take(l as int + 1) =~= nv.layers.take(l as int).push(lv));
                    assert(enc_list(lv) =~= seq![lv.len() as u64] + lv);
                    assert(words@ =~= base1 + enc_lists(nv.layers.take(l as int + 1)));
                }
                l = l + 1;
            }
            proof {
                assert(nv.layers.take(depth as int) =~= nv.layers);
                assert(words@ =~= base0 + enc_node(nv));
                lemma_enc_nodes_snoc(v.nodes.take(i as int), nv);
                assert(v.nodes.take(i as int + 1) =~= v.nodes.take(i as int).push(nv));
                assert(words@ =~= hdr + enc_nodes(v.nodes.take(i as int + 1)));
            }
            i = i + 1;
        }
        proof {
            assert(v.nodes.take(self.nodes@.len() as int) =~= v.nodes);
            assert(words@ == enc_words(v));
        }
        // words to little-endian bytes
        let mut bytes: Vec<u8> = Vec::new();
        let mut w: usize = 0;
        proof {
            assert(words@.take(0) =~= Seq::<u64>::empty());
        }
        while w < words.len()
            invariant
                w <= words@.len(),
                bytes@ == bytes_of_words(words@.take(w as int)),
            decreases words@.len() - w,
        {
            let mut chunk = u64_to_le_bytes(words[w]);
            let ghost word = words@[w as int];
            bytes.append(&mut chunk);
            proof {
                lemma_bytes_of_words_snoc(words@.take(w as int), word);
                assert(words@.take(w as int + 1) =~= words@.take(w as int).push(word));
            }
            w = w + 1;
        }
        proof {
            assert(words@.take(words@.len() as int) =~= words@);
        }
        bytes
    }

    /// Whether the parsed image passes every semantic check of `view_ok`
    /// for this configuration.
    fn check_view(raws: &Vec<RawNode>, dimw: u64, entryw: u64, mlw: u64, config: &HnswConfig)
        -> (r: bool)
        ensures
            r == view_ok(
                GraphV { dim: dimw, entry: entryw, max_layer: mlw, nodes: nodes_view(raws@) },
                *config,
            ),
    {
        let ghost v = GraphV { dim: dimw, entry: entryw, max_layer: mlw, nodes: nodes_view(raws@) };
        let n = raws.len();
        if dimw != config.dim as u64 || n > config.max_elements || mlw > MAX_LEVEL as u64 {
            return false;
        }
        if n == 0 {
            if entryw != 0 || mlw != 0 {
                return false;
            }
        } else {
            if entryw >= n as u64 {
                return false;
            }
            let entry = entryw as usize;
            if raws[entry].layers.len() as u64 != mlw + 1 {
                proof {
                    assert(v.nodes[entryw as int].layers.len() == raws@[entry as int].layers@.len());
                }
                return false;
            }
            proof {
                assert(v.nodes[entryw as int].layers.len() == raws@[entry as int].layers@.len());
            }
        }
        let mut i: usize = 0;
        while i < n
            invariant
                n == raws@.len(),
                v == (GraphV { dim: dimw, entry: entryw, max_layer: mlw, nodes: nodes_view(raws@) }),
                v.dim == config.dim as u64,
                v.nodes.len() <= config.max_elements,
                v.max_layer <= MAX_LEVEL as u64,
                v.nodes.len() > 0 ==> v.entry < v.nodes.len() && v.nodes[v.entry as int].layers.len()
                    == v.max_layer + 1,
                v.nodes.len() == 0 ==> v.entry == 0 && v.max_layer == 0,
                i <= n,
                forall|a: int, b: int|
                    0 <= a < b < i ==> (#[trigger] v.nodes[a]).id != (#[trigger] v.nodes[b]).id,
                forall|a: int| 0 <= a < i ==> node_view_ok(v, *config, a),
            decreases n - i,
        {
            let mut j: usize = 0;
            while j < i
                invariant
                    n == raws@.len(),
                    v == (GraphV { dim: dimw, entry: entryw, max_layer: mlw, nodes: nodes_view(raws@) }),
                    j <= i < n,
                    forall|a: int| 0 <= a < j ==> (#[trigger] v.nodes[a]).id != v.nodes[i as int].id,
                decreases i - j,
            {
                if raws[j].id == raws[i].id {
                    proof {
                        assert(v.nodes[j as int].id == v.nodes[i as int].id);
                    }
                    return false;
                }
                j = j + 1;
            }
            if raws[i].vector.len() != config.dim {
                proof {
                    assert(v.nodes[i as int].vector.len() == raws@[i as int].vector@.len());
                    assert(!node_view_ok(v, *config, i as int));
                }
                return false;
            }
            let dim = raws[i].vector.len();
            let mut c: usize = 0;
            while c < dim
                invariant
                    n == raws@.len(),
                    v == (GraphV { dim: dimw, entry: entryw, max_layer: mlw, nodes: nodes_view(raws@) }),
                    i < n,
                    dim == raws@[i as int].vector@.len(),
                    c <= dim,
                    forall|t: int|
                        0 <= t < c ==> -COORD_LIMIT <= (#[trigger] v.nodes[i as int].vector[t])
                            <= COORD_LIMIT,
                decreases dim - c,
            {
                let comp = raws[i].vector[c];
                if comp < -COORD_LIMIT || comp > COORD_LIMIT {
                    proof {
                        assert(v.nodes[i as int].vector[c as int] == comp);
                        assert(!node_view_ok(v, *config, i as int));
                    }
                    return false;
                }
                c = c + 1;
            }
            let depth = raws[i].layers.len();
            proof {
                assert(v.nodes[i as int].layers.len() == depth);
            }
            if depth < 1 || depth as u64 > mlw + 1 {
                proof {
                    assert(!node_view_ok(v, *config, i as int));
                }
                return false;
            }
            let mut l: usize = 0;
            while l < depth
                invariant
                    n == raws@.len(),
                    v == (GraphV { dim: dimw, entry: entryw, max_layer: mlw, nodes: nodes_view(raws@) }),
                    i < n,
                    depth == raws@[i as int].layers@.len(),
                    l <= depth,
                    forall|t: int| 0 <= t < l ==> list_view_ok(v, *config, i as int, t),
                decreases depth - l,
            {
                let deg = raws[i].layers[l].len();
                proof {
                    assert(v.nodes[i as int].layers[l as int].len() == deg);
                }
                let cap_ok = if l == 0 {
                    (deg as u128) <= 2 * (config.m as u128)
                } else {
                    (deg as u128) <= config.m as u128
                };
                if !cap_ok {
                    proof {
                        assert(!list_view_ok(v, *config, i as int, l as int));
                        assert(!node_view_ok(v, *config, i as int));
                    }
                    return false;
                }
                let mut e: usize = 0;
                while e < deg
                    invariant
                        n == raws@.len(),
                    v == (GraphV { dim: dimw, entry: entryw, max_layer: mlw, nodes: nodes_view(raws@) }),
                        i < n,
                        l < raws@[i as int].layers@.len(),
                        deg == raws@[i as int].layers@[l as int]@.len(),
                        e <= deg,
                        forall|t: int|
                            0 <= t < e ==> {
                                let nb = (#[trigger] v.nodes[i as int].layers[l as int][t]) as int;
                                &&& nb < v.nodes.len()
                                &&& nb != i as int
                                &&& (l as int) < v.nodes[nb].layers.len()
                            },
                    decreases deg - e,
                {
                    let nb = raws[i].layers[l][e];
                    proof {
                        assert(v.nodes[i as int].layers[l as int][e as int] == nb);
                    }
                    if nb >= n as u64 || nb == i as u64 {
                        proof {
                            assert(!list_view_ok(v, *config, i as int, l as int));
                            assert(!node_view_ok(v, *config, i as int));
                        }
                        return false;
                    }
                    let nbu = nb as usize;
                    if l >= raws[nbu].layers.len() {
                        proof {
                            assert(v.nodes[nb as int].layers.len() == raws@[nbu as int].layers@.len());
                            assert(!list_view_ok(v, *config, i as int, l as int));
                            assert(!node_view_ok(v, *config, i as int));
                        }
                        return false;
                    }
                    proof {
                        assert(v.nodes[nb as int].layers.len() == raws@[nbu as int].layers@.len());
                    }
                    e = e + 1;
                }
                proof {
                    assert(list_view_ok(v, *config, i as int, l as int));
                }
                l = l + 1;
            }
            proof {
                assert(node_view_ok(v, *config, i as int));
            }
            i = i + 1;
        }
        true
    }

    /// A graph built for `config` whose image passes `view_ok` satisfies
    /// the whole graph invariant.
    proof fn lemma_view_ok_wf(g: Graph, config: HnswConfig)
        requires
            spec_config_ok(config),
            g.dim == config.dim,
            g.max_elements == config.max_elements,
            g.m == config.m,
            g.ef_construction >= 1,
            g.ef_search >= 1,
            view_ok(graph_view(g), config),
        ensures
            g.wf(),
    {
        let v = graph_view(g);
        assert(v.nodes.len() == g.nodes@.len());
        assert forall|a: int, b: int|
            0 <= a < b < g.nodes@.len() implies (#[trigger] g.nodes@[a]).id != (
        #[trigger] g.nodes@[b]).id by {
            assert(v.nodes[a].id != v.nodes[b].id);
        }
        assert forall|i: int| 0 <= i < g.nodes@.len() implies g.node_wf(i) by {
            assert(node_view_ok(v, config, i));
            assert(v.nodes[i].vector == g.nodes@[i].vector@);
            assert(v.nodes[i].layers.len() == g.nodes@[i].layers@.len());
            assert forall|l: int| 0 <= l < g.nodes@[i].layers@.len() implies g.list_wf(i, l) by {
                assert(list_view_ok(v, config, i, l));
                assert(v.nodes[i].layers[l].len() == g.nodes@[i].layers@[l]@.len());
                assert forall|e: int|
                    0 <= e < g.nodes@[i].layers@[l]@.len() implies {
                        let nb = #[trigger] g.nodes@[i].layers@[l]@[e] as int;
                        &&& nb < g.nodes@.len()
                        &&& nb != i
                        &&& l < g.nodes@[nb].layers@.len()
                    } by {
                    let nbw = v.nodes[i].layers[l][e];
                    assert(nbw == g.nodes@[i].layers@[l]@[e] as u64);
                    assert((nbw as int) < v.nodes.len() && nbw as int != i && l < v.nodes[nbw as int].layers.len());
                    assert(v.nodes[nbw as int].layers.len() == g.nodes@[nbw as int].layers@.len());
                }
            }
        }
        if g.nodes@.len() > 0 {
            assert(v.entry < v.nodes.len());
            assert(v.nodes[v.entry as int].layers.len() == v.max_layer + 1);
            assert(v.nodes[g.entry as int].layers.len() == g.nodes@[g.entry as int].layers@.len());
        }
    }

    /// Narrow parsed nodes to graph nodes, the raw neighbor words to
    /// table indices.
    fn narrow_nodes(raws: &Vec<RawNode>) -> (r: Vec<Node>)
        requires
            forall|i: int, l: int, e: int|
                0 <= i < raws@.len() && 0 <= l < raws@[i].layers@.len() && 0 <= e
                    < raws@[i].layers@[l]@.len() ==> (#[trigger] raws@[i].layers@[l]@[e])
                    <= usize::MAX as u64,
        ensures
            r@.len() == raws@.len(),
            forall|i: int|
                0 <= i < r@.len() ==> (#[trigger] r@[i]).id == raws@[i].id && r@[i].vector@
                    == raws@[i].vector@ && r@[i].layers@.len() == raws@[i].layers@.len(),
            forall|i: int, l: int|
                0 <= i < r@.len() && 0 <= l < r@[i].layers@.len() ==> (
                #[trigger] r@[i].layers@[l])@.len() == raws@[i].layers@[l]@.len(),
            forall|i: int, l: int, e: int|
                0 <= i < r@.len() && 0 <= l < r@[i].layers@.len() && 0 <= e
                    < r@[i].layers@[l]@.len() ==> (#[trigger] r@[i].layers@[l]@[e]) as u64
                    == raws@[i].layers@[l]@[e],
    {
        let mut out: Vec<Node> = Vec::new();
        let mut i: usize = 0;
        while i < raws.len()
            invariant
                forall|i2: int, l: int, e: int|
                    0 <= i2 < raws@.len() && 0 <= l < raws@[i2].layers@.len() && 0 <= e
                        < raws@[i2].layers@[l]@.len() ==> (#[trigger] raws@[i2].layers@[l]@[e])
                        <= usize::MAX as u64,
                i <= raws@.len(),
                out@.len() == i,
                forall|i2: int|
                    0 <= i2 < i ==> (#[trigger] out@[i2]).id == raws@[i2].id && out@[i2].vector@
                        == raws@[i2].vector@ && out@[i2].layers@.len() == raws@[i2].layers@.len(),
                forall|i2: int, l: int|
                    0 <= i2 < i && 0 <= l < out@[i2].layers@.len() ==> (
                    #[trigger] out@[i2].layers@[l])@.len() == raws@[i2].layers@[l]@.len(),
                forall|i2: int, l: int, e: int|
                    0 <= i2 < i && 0 <= l < out@[i2].layers@.len() && 0 <= e
                        < out@[i2].layers@[l]@.len() ==> (#[trigger] out@[i2].layers@[l]@[e])
                        as u64 == raws@[i2].layers@[l]@[e],
            decreases raws@.len() - i,
        {
            let vector = raws[i].vector.clone();
            proof {
                assert(vector@ =~= raws@[i as int].vector@);
            }
            let depth = raws[i].layers.len();
            let mut layers: Vec<Vec<usize>> = Vec::new();
            let mut l: usize = 0;
            while l < depth
                invariant
                    forall|i2: int, l2: int, e: int|
                        0 <= i2 < raws@.len() && 0 <= l2 < raws@[i2].layers@.len() && 0 <= e
                            < raws@[i2].layers@[l2]@.len() ==> (
                        #[trigger] raws@[i2].layers@[l2]@[e]) <= usize::MAX as u64,
                    i < raws@.len(),
                    depth == raws@[i as int].layers@.len(),
                    l <= depth,
                    layers@.len() == l,
                    forall|l2: int| 0 <= l2 < l ==> (#[trigger] layers@[l2])@.len()
                        == raws@[i as int].layers@[l2]@.len(),
                    forall|l2: int, e: int|
                        0 <= l2 < l && 0 <= e < layers@[l2]@.len() ==> (
                        #[trigger] layers@[l2]@[e]) as u64 == raws@[i as int].layers@[l2]@[e],
                decreases depth - l,
            {
                let deg = raws[i].layers[l].len();
                let mut list: Vec<usize> = Vec::new();
                let mut e: usize = 0;
                while e < deg
                    invariant
                        forall|i2: int, l2: int, e2: int|
                            0 <= i2 < raws@.len() && 0 <= l2 < raws@[i2].layers@.len() && 0 <= e2
                                < raws@[i2].layers@[l2]@.len() ==> (
                            #[trigger] raws@[i2].layers@[l2]@[e2]) <= usize::MAX as u64,
                        i < raws@.len(),
                        l < raws@[i as int].layers@.len(),
                        deg == raws@[i as int].layers@[l as int]@.len(),
                        e <= deg,
                        list@.len() == e,
                        forall|e2: int| 0 <= e2 < e ==> (#[trigger] list@[e2]) as u64
                            == raws@[i as int].layers@[l as int]@[e2],
                    decreases deg - e,
                {
                    let word = raws[i].layers[l][e];
                    list.push(word as usize);
                    e = e + 1;
                }
                layers.push(list);
                l = l + 1;
            }
            out.push(Node { id: raws[i].id, vector, layers });
            i = i + 1;
        }
        out
    }

    /// Deserialize a persisted blob for the given configuration: the
    /// result is `Some` exactly when the blob decodes under `spec_decode`,
    /// and the loaded graph is well formed and is exactly the decoded
    /// image — so loading what `save` produced gives the saved graph back.
    pub fn load(bytes: &Vec<u8>, config: &HnswConfig) -> (r: Option<Graph>)
        ensures
            match r {
                Some(h) => {
                    &&& h.wf()
                    &&& spec_decode(bytes@, *config) == Some(graph_view(h))
                    &&& h.dim == config.dim
                    &&& h.max_elements == config.max_elements
                    &&& h.m == config.m
                },
                None => spec_decode(bytes@, *config) is None,
            },
    {
        // the configuration gate mirrors `Graph::init`
        if config.dim < 1 || config.dim > DIM_LIMIT || config.max_elements < 1 || config.m < 1
            || config.m > M_LIMIT {
            return None;
        }
        if bytes.len() % 8 != 0 {
            proof {
                lemma_words_of_bytes_none(bytes@);
            }
            return None;
        }
        let nwords = bytes.len() / 8;
        proof {
            vstd::arithmetic::div_mod::lemma_fundamental_div_mod(bytes@.len() as int, 8);
        }
        let mut words: Vec<u64> = Vec::new();
        let mut w: usize = 0;
        while w < nwords
            invariant
                nwords == bytes@.len() / 8,
                8 * nwords == bytes@.len(),
                bytes@.len() <= usize::MAX,
                w <= nwords,
                words@.len() == w,
                forall|j: int| 0 <= j < w ==> #[trigger] words@[j] == spec_u64_from_le_bytes(
                    bytes@.subrange(8 * j, 8 * j + 8),
                ),
            decreases nwords - w,
        {
            let mut chunk: Vec<u8> = Vec::new();
            let mut b: usize = 0;
            while b < 8
                invariant
                    w < nwords,
                    nwords == bytes@.len() / 8,
                    8 * nwords == bytes@.len(),
                    bytes@.len() <= usize::MAX,
                    b <= 8,
                    chunk@.len() == b,
                    chunk@ == bytes@.subrange(8 * w as int, 8 * w as int + b as int),
                decreases 8 - b,
            {
                proof {
                    assert(8 * w + b < 8 * nwords) by (nonlinear_arith)
                        requires
                            w < nwords,
                            0 <= b < 8,
                            0 <= w,
                    {}
                }
                chunk.push(bytes[8 * w + b]);
                proof {
                    assert(chunk@ =~= bytes@.subrange(8 * w as int, 8 * w as int + b as int + 1));
                }
                b = b + 1;
            }
            words.push(u64_from_le_bytes(chunk.as_slice()));
            w = w + 1;
        }
        proof {
            lemma_words_of_bytes_chunks(bytes@, words@);
        }
        // the header
        if words.len() < 4 {
            return None;
        }
        let dimw = words[0];
        let countw = words[1];
        let entryw = words[2];
        let mlw = words[3];
        if dimw != config.dim as u64 {
            proof {
                if parse_graph(words@) is Some {
                    assert(parse_graph(words@)->Some_0.dim == words@[0]);
                }
            }
            return None;
        }
        if countw > config.max_elements as u64 {
            proof {
                if parse_graph(words@) is Some {
                    let v0 = parse_graph(words@)->Some_0;
                    lemma_parse_nodes_len(words@.skip(4), words@[1] as nat, words@[0] as nat);
                    assert(v0.nodes.len() == words@[1] as nat);
                    assert(!view_ok(v0, *config));
                }
            }
            return None;
        }
        let count = countw as usize;
        let parsed = parse_nodes_at(&words, 4, count, config.dim);
        proof {
            assert(count as nat == words@[1] as nat);
            assert(config.dim as nat == words@[0] as nat);
        }
        match parsed {
            None => {
                proof {
                    assert(parse_graph(words@) is None);
                }
                None
            },
            Some((raws, nc)) => {
                if nc != words.len() {
                    proof {
                        assert(words@.skip(nc as int).len() != 0);
                        assert(parse_graph(words@) is None);
                    }
                    return None;
                }
                let ghost v = GraphV {
                    dim: dimw,
                    entry: entryw,
                    max_layer: mlw,
                    nodes: nodes_view(raws@),
                };
                proof {
                    assert(words@.skip(nc as int).len() == 0);
                    assert(parse_graph(words@) == Some(v));
                }
                if !Self::check_view(&raws, dimw, entryw, mlw, config) {
                    return None;
                }
                // the image is well formed for this configuration
                proof {
                    if v.nodes.len() > 0 {
                        assert(v.entry < v.nodes.len());
                    }
                }
                let entry = entryw as usize;
                let max_layer = mlw as usize;
                proof {
                    assert forall|i: int, l: int, e: int|
                        0 <= i < raws@.len() && 0 <= l < raws@[i].layers@.len() && 0 <= e
                            < raws@[i].layers@[l]@.len() implies (
                    #[trigger] raws@[i].layers@[l]@[e]) <= usize::MAX as u64 by {
                        assert(node_view_ok(v, *config, i));
                        assert(list_view_ok(v, *config, i, l));
                        assert(v.nodes[i].layers[l][e] == raws@[i].layers@[l]@[e]);
                        assert((raws@[i].layers@[l]@[e] as int) < v.nodes.len());
                    }
                }
                let nodes = Self::narrow_nodes(&raws);
                let ef_construction = if config.ef_construction < 1 {
                    1
                } else {
                    config.ef_construction
                };
                let ef_search = if config.ef_search < 1 {
                    1
                } else {
                    config.ef_search
                };
                let candidate = Graph {
                    nodes,
                    entry,
                    max_layer,
                    dim: config.dim,
                    max_elements: config.max_elements,
                    m: config.m,
                    ef_construction,
                    ef_search,
                    rng: 0x5851_f42d_4c95_7f2d,
                };
                proof {
                    assert(graph_view(candidate) == v) by {
                        let gv = graph_view(candidate);
                        assert forall|i: int| 0 <= i < gv.nodes.len() implies gv.nodes[i]
                            == v.nodes[i] by {
                            assert(candidate.nodes@[i].id == raws@[i].id);
                            assert(gv.nodes[i].vector == v.nodes[i].vector);
                            assert forall|l: int|
                                0 <= l < gv.nodes[i].layers.len() implies gv.nodes[i].layers[l]
                                == v.nodes[i].layers[l] by {
                                assert(gv.nodes[i].layers[l] =~= v.nodes[i].layers[l]);
                            }
                            assert(gv.nodes[i].layers =~= v.nodes[i].layers);
                        }
                        assert(gv.nodes =~= v.nodes);
                    }
                    Self::lemma_view_ok_wf(candidate, *config);
                }
                Some(candidate)
            },
        }
    }
}

} // verus!
