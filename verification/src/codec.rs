use crate::error::VBError;
use crate::hnsw::Neighbor;
use crate::hnsw::Node;
use crate::hnsw::HNSW;
use crate::metric::coord_ok;
use crate::metric::coords_ok;
use crate::metric::dist2;
use crate::metric::distance;
use crate::metric::MAX_DIMS;
use crate::metric::COORD_BOUND;
use vstd::bytes::lemma_auto_spec_u64_to_from_le_bytes;
use vstd::bytes::spec_u64_from_le_bytes;
use vstd::bytes::spec_u64_to_le_bytes;
use vstd::bytes::u64_from_le_bytes;
use vstd::bytes::u64_to_le_bytes;
use vstd::prelude::*;
use vstd::slice::slice_subrange;

verus! {

/// Ghost image of one graph node: its layer, its per-layer neighbor lists,
/// and its vector.
pub ghost struct NodeView {
    pub level: nat,
    pub layers: Seq<Seq<Neighbor>>,
    pub p: Seq<i64>,
}

/// Ghost image of a whole index: what the serialized form captures and what
/// a lossless round trip preserves.
pub ghost struct IndexView {
    pub m: nat,
    pub ef_construction: nat,
    pub ef_search: nat,
    pub max_level: nat,
    pub dims: nat,
    pub enter_point: nat,
    pub max_layer: nat,
    pub nodes: Seq<NodeView>,
}

impl HNSW {
    /// The ghost image of this index.
    pub open spec fn iview(self) -> IndexView {
        IndexView {
            m: self.m as nat,
            ef_construction: self.ef_construction as nat,
            ef_search: self.ef_search as nat,
            max_level: self.max_level as nat,
            dims: self.dims as nat,
            enter_point: self.enter_point as nat,
            max_layer: self.max_layer as nat,
            nodes: Seq::new(
                self.nodes@.len(),
                |i: int|
                    NodeView {
                        level: self.nodes@[i].level as nat,
                        layers: Seq::new(
                            self.nodes@[i].neighbors@.len(),
                            |l: int| self.nodes@[i].neighbors@[l]@,
                        ),
                        p: self.nodes@[i].p@,
                    },
            ),
        }
    }
}

pub open spec fn edge_ok_view(v: IndexView, i: int, l: int, e: Neighbor) -> bool {
    &&& 0 <= (e.id as int) < v.nodes.len()
    &&& v.nodes[e.id as int].level >= l
    &&& e.id as int != i
    &&& e.d == dist2(v.nodes[i].p, v.nodes[e.id as int].p)
}

pub open spec fn node_ok_view(v: IndexView, i: int) -> bool {
    let nd = v.nodes[i];
    &&& nd.layers.len() == nd.level + 1
    &&& nd.level <= v.max_layer
    &&& nd.level <= v.max_level
    &&& nd.p.len() == v.dims
    &&& coords_ok(nd.p)
    &&& forall|l: int|
        0 <= l <= nd.level ==> #[trigger] nd.layers[l].len() <= (if l == 0 {
            2 * v.m
        } else {
            v.m
        })
    &&& forall|l: int, j: int|
        0 <= l <= nd.level && 0 <= j < nd.layers[l].len() ==> edge_ok_view(
            v,
            i,
            l,
            #[trigger] nd.layers[l][j],
        )
}

/// Well-formedness of a ghost image, matching `HNSW::wf`.
pub open spec fn wf_view(v: IndexView) -> bool {
    &&& 1 <= v.m <= 0x10000
    &&& 1 <= v.ef_construction <= 0x10000
    &&& 1 <= v.ef_search <= 0x10000
    &&& v.max_level <= 64
    &&& 1 <= v.dims <= 65536
    &&& v.nodes.len() <= 0xffffffff
    &&& forall|i: int| 0 <= i < v.nodes.len() ==> #[trigger] node_ok_view(v, i)
    &&& v.nodes.len() > 0 ==> v.enter_point < v.nodes.len() && v.nodes[v.enter_point as int].level
        == v.max_layer
    &&& v.nodes.len() == 0 ==> v.max_layer == 0 && v.enter_point == 0
}

/// Concatenation of one fixed block per element.
pub open spec fn blocks<T>(s: Seq<T>, f: spec_fn(T) -> Seq<u64>) -> Seq<u64>
    decreases s.len(),
{
    if s.len() == 0 {
        Seq::empty()
    } else {
        f(s[0]) + blocks(s.drop_first(), f)
    }
}

pub proof fn lemma_blocks_take_snoc<T>(s: Seq<T>, f: spec_fn(T) -> Seq<u64>, j: int)
    requires
        0 <= j < s.len(),
    ensures
        blocks(s.take(j + 1), f) == blocks(s.take(j), f) + f(s[j]),
    decreases j,
{
    if j == 0 {
        assert(s.take(1) =~= seq![s[0]]);
        assert(s.take(1).drop_first() =~= Seq::<T>::empty());
        assert(s.take(0) =~= Seq::<T>::empty());
        assert(blocks(Seq::<T>::empty(), f) =~= Seq::<u64>::empty());
        assert(s.take(1)[0] == s[0]);
        assert(blocks(s.take(1), f) =~= f(s[0]));
        assert(blocks(s.take(0), f) + f(s[0]) =~= f(s[0]));
    } else {
        lemma_blocks_take_snoc(s.drop_first(), f, j - 1);
        assert(s.take(j + 1).drop_first() =~= s.drop_first().take(j));
        assert(s.take(j).drop_first() =~= s.drop_first().take(j - 1));
        assert(s.take(j + 1)[0] == s[0]);
        assert(s.take(j)[0] == s[0]);
        assert(s.drop_first()[j - 1] == s[j]);
        assert(blocks(s.take(j + 1), f) == f(s[0]) + blocks(s.drop_first().take(j), f));
        assert(blocks(s.take(j), f) == f(s[0]) + blocks(s.drop_first().take(j - 1), f));
        assert(blocks(s.take(j + 1), f) =~= blocks(s.take(j), f) + f(s[j]));
    }
}

/// One word per neighbor field: id then distance.
pub open spec fn ser_entries(l: Seq<Neighbor>) -> Seq<u64> {
    blocks(l, |e: Neighbor| seq![e.id, e.d])
}

/// One word per component, shifted by `COORD_BOUND` to be non-negative.
pub open spec fn ser_coords(p: Seq<i64>) -> Seq<u64> {
    blocks(p, |x: i64| seq![(x + COORD_BOUND) as u64])
}

/// A neighbor list: its length, then its entries.
pub open spec fn ser_list(l: Seq<Neighbor>) -> Seq<u64> {
    seq![l.len() as u64] + ser_entries(l)
}

/// A vector: its length, then its components.
pub open spec fn ser_vec(p: Seq<i64>) -> Seq<u64> {
    seq![p.len() as u64] + ser_coords(p)
}

pub open spec fn ser_layers(ls: Seq<Seq<Neighbor>>) -> Seq<u64> {
    blocks(ls, |l: Seq<Neighbor>| ser_list(l))
}

/// A node: its layer, its `level + 1` neighbor lists, then its vector.
pub open spec fn ser_node(nd: NodeView) -> Seq<u64> {
    seq![nd.level as u64] + ser_layers(nd.layers) + ser_vec(nd.p)
}

pub open spec fn ser_nodes(ns: Seq<NodeView>) -> Seq<u64> {
    blocks(ns, |nd: NodeView| ser_node(nd))
}

/// The whole index as words: an eight-word header (parameters, entry point,
/// top layer, node count), then the nodes.
pub open spec fn ser_index(v: IndexView) -> Seq<u64> {
    seq![
        v.m as u64,
        v.ef_construction as u64,
        v.ef_search as u64,
        v.max_level as u64,
        v.dims as u64,
        v.enter_point as u64,
        v.max_layer as u64,
        v.nodes.len() as u64,
    ] + ser_nodes(v.nodes)
}

/// Words laid out as bytes, little-endian.
pub open spec fn bytes_of_words(ws: Seq<u64>) -> Seq<u8>
    decreases ws.len(),
{
    if ws.len() == 0 {
        Seq::empty()
    } else {
        bytes_of_words(ws.drop_last()) + spec_u64_to_le_bytes(ws.last())
    }
}

/// The serialized form of an index image.
pub open spec fn encoded(v: IndexView) -> Seq<u8> {
    bytes_of_words(ser_index(v))
}

/// Whether `s` lies at `pos` in `ws`.
pub open spec fn words_at(ws: Seq<u64>, pos: int, s: Seq<u64>) -> bool {
    &&& 0 <= pos
    &&& pos + s.len() <= ws.len()
    &&& ws.subrange(pos, pos + s.len()) == s
}

proof fn lemma_words_at_split(ws: Seq<u64>, pos: int, a: Seq<u64>, b: Seq<u64>)
    requires
        words_at(ws, pos, a + b),
    ensures
        words_at(ws, pos, a),
        words_at(ws, pos + a.len(), b),
{
    let al = a.len() as int;
    let bl = b.len() as int;
    assert forall|k: int| 0 <= k < al implies ws.subrange(pos, pos + al)[k] == a[k] by {
        assert(ws.subrange(pos, pos + al + bl)[k] == (a + b)[k]);
    }
    assert(ws.subrange(pos, pos + al) =~= a);
    assert forall|k: int| 0 <= k < bl implies ws.subrange(pos + al, pos + al + bl)[k] == b[k] by {
        assert(ws.subrange(pos, pos + al + bl)[al + k] == (a + b)[al + k]);
    }
    assert(ws.subrange(pos + al, pos + al + bl) =~= b);
}

pub open spec fn parse_entries(ws: Seq<u64>, pos: int, cnt: nat) -> Option<(Seq<Neighbor>, int)>
    decreases cnt,
{
    if cnt == 0 {
        Some((Seq::empty(), pos))
    } else if 0 <= pos && pos + 2 <= ws.len() {
        match parse_entries(ws, pos + 2, (cnt - 1) as nat) {
            Some(r) => Some((seq![Neighbor { id: ws[pos], d: ws[pos + 1] }] + r.0, r.1)),
            None => None,
        }
    } else {
        None
    }
}

pub open spec fn parse_coords(ws: Seq<u64>, pos: int, cnt: nat) -> Option<(Seq<i64>, int)>
    decreases cnt,
{
    if cnt == 0 {
        Some((Seq::empty(), pos))
    } else if 0 <= pos && pos + 1 <= ws.len() && ws[pos] <= 2 * COORD_BOUND {
        match parse_coords(ws, pos + 1, (cnt - 1) as nat) {
            Some(r) => Some((seq![(ws[pos] - COORD_BOUND) as i64] + r.0, r.1)),
            None => None,
        }
    } else {
        None
    }
}

pub open spec fn parse_list(ws: Seq<u64>, pos: int) -> Option<(Seq<Neighbor>, int)> {
    if 0 <= pos && pos + 1 <= ws.len() && ws[pos] <= 0x20000 {
        parse_entries(ws, pos + 1, ws[pos] as nat)
    } else {
        None
    }
}

pub open spec fn parse_layers(ws: Seq<u64>, pos: int, cnt: nat) -> Option<(Seq<Seq<Neighbor>>, int)>
    decreases cnt,
{
    if cnt == 0 {
        Some((Seq::empty(), pos))
    } else {
        match parse_list(ws, pos) {
            Some(r) => match parse_layers(ws, r.1, (cnt - 1) as nat) {
                Some(r2) => Some((seq![r.0] + r2.0, r2.1)),
                None => None,
            },
            None => None,
        }
    }
}

pub open spec fn parse_vec(ws: Seq<u64>, pos: int) -> Option<(Seq<i64>, int)> {
    if 0 <= pos && pos + 1 <= ws.len() && ws[pos] <= 65536 {
        parse_coords(ws, pos + 1, ws[pos] as nat)
    } else {
        None
    }
}

pub open spec fn parse_node(ws: Seq<u64>, pos: int) -> Option<(NodeView, int)> {
    if 0 <= pos && pos + 1 <= ws.len() && ws[pos] <= 64 {
        match parse_layers(ws, pos + 1, (ws[pos] + 1) as nat) {
            Some(r) => match parse_vec(ws, r.1) {
                Some(r2) => Some(
                    (NodeView { level: ws[pos] as nat, layers: r.0, p: r2.0 }, r2.1),
                ),
                None => None,
            },
            None => None,
        }
    } else {
        None
    }
}

pub open spec fn parse_nodes(ws: Seq<u64>, pos: int, cnt: nat) -> Option<(Seq<NodeView>, int)>
    decreases cnt,
{
    if cnt == 0 {
        Some((Seq::empty(), pos))
    } else {
        match parse_node(ws, pos) {
            Some(r) => match parse_nodes(ws, r.1, (cnt - 1) as nat) {
                Some(r2) => Some((seq![r.0] + r2.0, r2.1)),
                None => None,
            },
            None => None,
        }
    }
}

pub open spec fn parse_index(ws: Seq<u64>) -> Option<IndexView> {
    if ws.len() >= 8 && 1 <= ws[0] <= 0x10000 && 1 <= ws[1] <= 0x10000 && 1 <= ws[2] <= 0x10000
        && ws[3] <= 64 && 1 <= ws[4] <= 65536 && ws[5] <= 0xffffffff && ws[6] <= 64 && ws[7]
        <= 0xffffffff {
        match parse_nodes(ws, 8, ws[7] as nat) {
            Some(r) => if r.1 == ws.len() {
                Some(
                    IndexView {
                        m: ws[0] as nat,
                        ef_construction: ws[1] as nat,
                        ef_search: ws[2] as nat,
                        max_level: ws[3] as nat,
                        dims: ws[4] as nat,
                        enter_point: ws[5] as nat,
                        max_layer: ws[6] as nat,
                        nodes: r.0,
                    },
                )
            } else {
                None
            },
            None => None,
        }
    } else {
        None
    }
}

/// Little-endian words read back from bytes.
pub open spec fn words_of(b: Seq<u8>) -> Seq<u64> {
    Seq::new((b.len() / 8) as nat, |i: int| spec_u64_from_le_bytes(b.subrange(8 * i, 8 * i + 8)))
}

/// The image a byte string decodes to, where it is the serialized form of a
/// well-formed index; `None` otherwise.
pub open spec fn decoded(b: Seq<u8>) -> Option<IndexView> {
    if b.len() % 8 == 0 {
        match parse_index(words_of(b)) {
            Some(v) => if wf_view(v) {
                Some(v)
            } else {
                None
            },
            None => None,
        }
    } else {
        None
    }
}

proof fn lemma_rt_entries(ws: Seq<u64>, pos: int, l: Seq<Neighbor>)
    requires
        words_at(ws, pos, ser_entries(l)),
    ensures
        parse_entries(ws, pos, l.len()) == Some((l, pos + ser_entries(l).len())),
    decreases l.len(),
{
    if l.len() == 0 {
        assert(l =~= Seq::<Neighbor>::empty());
        assert(ser_entries(l) =~= Seq::<u64>::empty());
    } else {
        let head = seq![l[0].id, l[0].d];
        let rest = ser_entries(l.drop_first());
        assert(ser_entries(l) == head + rest);
        lemma_words_at_split(ws, pos, head, rest);
        assert(ws[pos] == l[0].id) by {
            assert(ws.subrange(pos, pos + 2)[0] == head[0]);
        }
        assert(ws[pos + 1] == l[0].d) by {
            assert(ws.subrange(pos, pos + 2)[1] == head[1]);
        }
        lemma_rt_entries(ws, pos + 2, l.drop_first());
        assert(seq![Neighbor { id: ws[pos], d: ws[pos + 1] }] + l.drop_first() =~= l);
    }
}

proof fn lemma_rt_coords(ws: Seq<u64>, pos: int, p: Seq<i64>)
    requires
        words_at(ws, pos, ser_coords(p)),
        coords_ok(p),
    ensures
        parse_coords(ws, pos, p.len()) == Some((p, pos + ser_coords(p).len())),
    decreases p.len(),
{
    if p.len() == 0 {
        assert(p =~= Seq::<i64>::empty());
        assert(ser_coords(p) =~= Seq::<u64>::empty());
    } else {
        assert(coord_ok(p[0]));
        let head = seq![(p[0] + COORD_BOUND) as u64];
        let rest = ser_coords(p.drop_first());
        assert(ser_coords(p) == head + rest);
        lemma_words_at_split(ws, pos, head, rest);
        assert(ws[pos] == (p[0] + COORD_BOUND) as u64) by {
            assert(ws.subrange(pos, pos + 1)[0] == head[0]);
        }
        assert(ws[pos] <= 2 * COORD_BOUND);
        assert((ws[pos] - COORD_BOUND) as i64 == p[0]);
        assert(coords_ok(p.drop_first())) by {
            assert forall|k: int| 0 <= k < p.drop_first().len() implies coord_ok(
                #[trigger] p.drop_first()[k],
            ) by {
                assert(p.drop_first()[k] == p[k + 1]);
            }
        }
        lemma_rt_coords(ws, pos + 1, p.drop_first());
        assert(seq![(ws[pos] - COORD_BOUND) as i64] + p.drop_first() =~= p);
    }
}

proof fn lemma_rt_list(ws: Seq<u64>, pos: int, l: Seq<Neighbor>)
    requires
        words_at(ws, pos, ser_list(l)),
        l.len() <= 0x20000,
    ensures
        parse_list(ws, pos) == Some((l, pos + ser_list(l).len())),
{
    let head = seq![l.len() as u64];
    let rest = ser_entries(l);
    assert(ser_list(l) == head + rest);
    lemma_words_at_split(ws, pos, head, rest);
    assert(ws[pos] == l.len() as u64) by {
        assert(ws.subrange(pos, pos + 1)[0] == head[0]);
    }
    lemma_rt_entries(ws, pos + 1, l);
}

proof fn lemma_rt_layers(ws: Seq<u64>, pos: int, ls: Seq<Seq<Neighbor>>)
    requires
        words_at(ws, pos, ser_layers(ls)),
        forall|i: int| 0 <= i < ls.len() ==> (#[trigger] ls[i]).len() <= 0x20000,
    ensures
        parse_layers(ws, pos, ls.len()) == Some((ls, pos + ser_layers(ls).len())),
    decreases ls.len(),
{
    if ls.len() == 0 {
        assert(ls =~= Seq::<Seq<Neighbor>>::empty());
        assert(ser_layers(ls) =~= Seq::<u64>::empty());
    } else {
        let head = ser_list(ls[0]);
        let rest = ser_layers(ls.drop_first());
        assert(ser_layers(ls) == head + rest);
        lemma_words_at_split(ws, pos, head, rest);
        lemma_rt_list(ws, pos, ls[0]);
        assert forall|i: int| 0 <= i < ls.drop_first().len() implies (#[trigger] ls.drop_first()[i]).len()
            <= 0x20000 by {
            assert(ls.drop_first()[i] == ls[i + 1]);
        }
        lemma_rt_layers(ws, pos + head.len(), ls.drop_first());
        assert(seq![ls[0]] + ls.drop_first() =~= ls);
    }
}

proof fn lemma_rt_vec(ws: Seq<u64>, pos: int, p: Seq<i64>)
    requires
        words_at(ws, pos, ser_vec(p)),
        coords_ok(p),
        p.len() <= 65536,
    ensures
        parse_vec(ws, pos) == Some((p, pos + ser_vec(p).len())),
{
    let head = seq![p.len() as u64];
    let rest = ser_coords(p);
    assert(ser_vec(p) == head + rest);
    lemma_words_at_split(ws, pos, head, rest);
    assert(ws[pos] == p.len() as u64) by {
        assert(ws.subrange(pos, pos + 1)[0] == head[0]);
    }
    lemma_rt_coords(ws, pos + 1, p);
}

/// Constraints a well-formed image puts on one node, as the parser needs
/// them.
pub open spec fn node_view_bounded(nd: NodeView) -> bool {
    &&& nd.level <= 64
    &&& nd.layers.len() == nd.level + 1
    &&& forall|i: int| 0 <= i < nd.layers.len() ==> (#[trigger] nd.layers[i]).len() <= 0x20000
    &&& coords_ok(nd.p)
    &&& nd.p.len() <= 65536
}

proof fn lemma_rt_node(ws: Seq<u64>, pos: int, nd: NodeView)
    requires
        words_at(ws, pos, ser_node(nd)),
        node_view_bounded(nd),
    ensures
        parse_node(ws, pos) == Some((nd, pos + ser_node(nd).len())),
{
    let head = seq![nd.level as u64];
    let mid = ser_layers(nd.layers);
    let tail = ser_vec(nd.p);
    assert(ser_node(nd) == (head + mid) + tail);
    lemma_words_at_split(ws, pos, head + mid, tail);
    lemma_words_at_split(ws, pos, head, mid);
    assert(ws[pos] == nd.level as u64) by {
        assert(ws.subrange(pos, pos + 1)[0] == head[0]);
    }
    lemma_rt_layers(ws, pos + 1, nd.layers);
    lemma_rt_vec(ws, pos + 1 + mid.len(), nd.p);
}

proof fn lemma_rt_nodes(ws: Seq<u64>, pos: int, ns: Seq<NodeView>)
    requires
        words_at(ws, pos, ser_nodes(ns)),
        forall|i: int| 0 <= i < ns.len() ==> node_view_bounded(#[trigger] ns[i]),
    ensures
        parse_nodes(ws, pos, ns.len()) == Some((ns, pos + ser_nodes(ns).len())),
    decreases ns.len(),
{
    if ns.len() == 0 {
        assert(ns =~= Seq::<NodeView>::empty());
        assert(ser_nodes(ns) =~= Seq::<u64>::empty());
    } else {
        let head = ser_node(ns[0]);
        let rest = ser_nodes(ns.drop_first());
        assert(ser_nodes(ns) == head + rest);
        lemma_words_at_split(ws, pos, head, rest);
        lemma_rt_node(ws, pos, ns[0]);
        assert forall|i: int| 0 <= i < ns.drop_first().len() implies node_view_bounded(
            #[trigger] ns.drop_first()[i],
        ) by {
            assert(ns.drop_first()[i] == ns[i + 1]);
        }
        lemma_rt_nodes(ws, pos + head.len(), ns.drop_first());
        assert(seq![ns[0]] + ns.drop_first() =~= ns);
    }
}

proof fn lemma_rt_index(v: IndexView)
    requires
        wf_view(v),
    ensures
        parse_index(ser_index(v)) == Some(v),
{
    let ws = ser_index(v);
    let hdr = seq![
        v.m as u64,
        v.ef_construction as u64,
        v.ef_search as u64,
        v.max_level as u64,
        v.dims as u64,
        v.enter_point as u64,
        v.max_layer as u64,
        v.nodes.len() as u64,
    ];
    assert(ws == hdr + ser_nodes(v.nodes));
    assert(ws.subrange(0, ws.len() as int) =~= ws);
    lemma_words_at_split(ws, 0, hdr, ser_nodes(v.nodes));
    assert forall|k: int| 0 <= k < 8 implies ws[k] == hdr[k] by {
        assert(ws.subrange(0, 8)[k] == hdr[k]);
    }
    assert(v.max_layer <= 64) by {
        if v.nodes.len() > 0 {
            assert(node_ok_view(v, v.enter_point as int));
        }
    }
    assert forall|i: int| 0 <= i < v.nodes.len() implies node_view_bounded(#[trigger] v.nodes[i]) by {
        assert(node_ok_view(v, i));
        let nd = v.nodes[i];
        assert forall|l: int| 0 <= l < nd.layers.len() implies (#[trigger] nd.layers[l]).len()
            <= 0x20000 by {
            assert(nd.layers[l].len() <= (if l == 0 {
                2 * v.m
            } else {
                v.m
            }));
        }
    }
    lemma_rt_nodes(ws, 8, v.nodes);
}

/// Words survive the byte layout.
proof fn lemma_words_of_bytes(ws: Seq<u64>)
    ensures
        bytes_of_words(ws).len() == 8 * ws.len(),
        words_of(bytes_of_words(ws)) == ws,
    decreases ws.len(),
{
    lemma_auto_spec_u64_to_from_le_bytes();
    if ws.len() == 0 {
        assert(words_of(bytes_of_words(ws)) =~= ws);
    } else {
        lemma_words_of_bytes(ws.drop_last());
        let pre = bytes_of_words(ws.drop_last());
        let b = bytes_of_words(ws);
        assert(b == pre + spec_u64_to_le_bytes(ws.last()));
        assert forall|i: int| 0 <= i < ws.len() implies words_of(b)[i] == ws[i] by {
            if i < ws.len() - 1 {
                assert(b.subrange(8 * i, 8 * i + 8) =~= pre.subrange(8 * i, 8 * i + 8));
                assert(words_of(pre)[i] == ws.drop_last()[i]);
            } else {
                assert(b.subrange(8 * i, 8 * i + 8) =~= spec_u64_to_le_bytes(ws.last()));
            }
        }
        assert(words_of(b) =~= ws);
    }
}

pub proof fn lemma_coords_blocks(p: Seq<i64>)
    ensures
        ser_coords(p).len() == p.len(),
        forall|i: int| 0 <= i < p.len() ==> ser_coords(p)[i] == (p[i] + COORD_BOUND) as u64,
    decreases p.len(),
{
    if p.len() > 0 {
        lemma_coords_blocks(p.drop_first());
        assert(ser_coords(p) == seq![(p[0] + COORD_BOUND) as u64] + ser_coords(p.drop_first()));
        assert forall|i: int| 0 <= i < p.len() implies ser_coords(p)[i] == (p[i]
            + COORD_BOUND) as u64 by {
            if i > 0 {
                assert(ser_coords(p.drop_first())[i - 1] == (p.drop_first()[i - 1]
                    + COORD_BOUND) as u64);
            }
        }
    }
}

pub proof fn lemma_words_of_bytes_len(ws: Seq<u64>)
    ensures
        bytes_of_words(ws).len() == 8 * ws.len(),
{
    lemma_words_of_bytes(ws);
}

/// The byte layout is injective: bytes pin their words.
pub proof fn lemma_words_of_bytes_inverse(ws: Seq<u64>, b: Seq<u8>)
    requires
        bytes_of_words(ws) == b,
    ensures
        words_of(b) == ws,
        b.len() == 8 * ws.len(),
{
    lemma_words_of_bytes(ws);
}

/// Whole-word byte strings survive the round trip the other way too.
pub proof fn lemma_bytes_of_words_of(b: Seq<u8>, ws: Seq<u64>)
    requires
        ws == words_of(b),
        b.len() == 8 * ws.len(),
    ensures
        bytes_of_words(ws) == b,
    decreases ws.len(),
{
    lemma_auto_spec_u64_to_from_le_bytes();
    if ws.len() == 0 {
        assert(bytes_of_words(ws) =~= b);
    } else {
        let pre = b.subrange(0, b.len() - 8);
        let lastb = b.subrange(b.len() - 8, b.len() as int);
        assert(words_of(pre) =~= ws.drop_last()) by {
            assert forall|i: int| 0 <= i < ws.len() - 1 implies words_of(pre)[i]
                == ws.drop_last()[i] by {
                assert(pre.subrange(8 * i, 8 * i + 8) =~= b.subrange(8 * i, 8 * i + 8));
                assert(ws[i] == words_of(b)[i]);
            }
        }
        lemma_bytes_of_words_of(pre, ws.drop_last());
        assert(ws.last() == words_of(b)[ws.len() - 1]);
        assert(b.subrange(8 * (ws.len() - 1), 8 * (ws.len() - 1) + 8) =~= lastb);
        assert(spec_u64_to_le_bytes(ws.last()) == lastb);
        assert(bytes_of_words(ws) =~= pre + lastb);
        assert(pre + lastb =~= b);
    }
}

impl HNSW {
    /// Serializes the index: parameters, entry point, node count, and for
    /// each node its layer, per-layer neighbor lists and raw vector words,
    /// all as little-endian 64-bit words.
    #[verifier::loop_isolation(false)]
    pub fn serialize(&self) -> (out: Vec<u8>)
        requires
            self.wf(),
        ensures
            out@ == encoded(self.iview()),
    {
        let ghost v = self.iview();
        let mut ws: Vec<u64> = Vec::new();
        ws.push(self.m as u64);
        ws.push(self.ef_construction as u64);
        ws.push(self.ef_search as u64);
        ws.push(self.max_level as u64);
        ws.push(self.dims as u64);
        ws.push(self.enter_point as u64);
        ws.push(self.max_layer as u64);
        ws.push(self.nodes.len() as u64);
        let ghost hdr = ws@;
        proof {
            assert(hdr =~= ser_index(v).take(8));
            assert(v.nodes.take(0) =~= Seq::<NodeView>::empty());
        }
        let n = self.nodes.len();
        let mut i: usize = 0;
        while i < n
            invariant
                i <= n,
                ws@ == hdr + ser_nodes(v.nodes.take(i as int)),
            decreases n - i,
        {
            proof {
                assert(self.node_ok(i as int));
            }
            let node = &self.nodes[i];
            let ghost nd = v.nodes[i as int];
            let ghost pre_node = ws@;
            ws.push(node.level as u64);
            proof {
                assert(nd.layers.take(0) =~= Seq::<Seq<Neighbor>>::empty());
                assert(ws@ =~= pre_node + seq![nd.level as u64] + ser_layers(nd.layers.take(0)));
            }
            let nl = node.neighbors.len();
            let mut l: usize = 0;
            while l < nl
                invariant
                    l <= nl,
                    ws@ == pre_node + seq![nd.level as u64] + ser_layers(nd.layers.take(l as int)),
                decreases nl - l,
            {
                let lst = &node.neighbors[l];
                let ghost lv = nd.layers[l as int];
                let ghost pre_list = ws@;
                ws.push(lst.len() as u64);
                proof {
                    assert(lv.take(0) =~= Seq::<Neighbor>::empty());
                    assert(ws@ =~= pre_list + seq![lv.len() as u64] + ser_entries(lv.take(0)));
                }
                let le = lst.len();
                let mut j: usize = 0;
                while j < le
                    invariant
                        j <= le,
                        ws@ == pre_list + seq![lv.len() as u64] + ser_entries(lv.take(j as int)),
                    decreases le - j,
                {
                    let e = lst[j];
                    ws.push(e.id);
                    ws.push(e.d);
                    proof {
                        lemma_blocks_take_snoc(lv, |x: Neighbor| seq![x.id, x.d], j as int);
                        assert(ws@ =~= pre_list + seq![lv.len() as u64] + ser_entries(
                            lv.take(j + 1),
                        ));
                    }
                    j += 1;
                }
                proof {
                    assert(lv.take(le as int) =~= lv);
                    lemma_blocks_take_snoc(nd.layers, |x: Seq<Neighbor>| ser_list(x), l as int);
                    assert(ws@ =~= pre_node + seq![nd.level as u64] + ser_layers(
                        nd.layers.take(l + 1),
                    ));
                }
                l += 1;
            }
            let ghost pre_vec = ws@;
            ws.push(node.p.len() as u64);
            proof {
                assert(nd.p.take(0) =~= Seq::<i64>::empty());
                assert(ws@ =~= pre_vec + seq![nd.p.len() as u64] + ser_coords(nd.p.take(0)));
            }
            let pc = node.p.len();
            let mut c: usize = 0;
            while c < pc
                invariant
                    c <= pc,
                    ws@ == pre_vec + seq![nd.p.len() as u64] + ser_coords(nd.p.take(c as int)),
                decreases pc - c,
            {
                proof {
                    assert(coord_ok(node.p@[c as int]));
                }
                let w: u64 = (node.p[c] + COORD_BOUND) as u64;
                ws.push(w);
                proof {
                    lemma_blocks_take_snoc(nd.p, |x: i64| seq![(x + COORD_BOUND) as u64], c as int);
                    assert(ws@ =~= pre_vec + seq![nd.p.len() as u64] + ser_coords(nd.p.take(c + 1)));
                }
                c += 1;
            }
            proof {
                assert(nd.layers.take(nl as int) =~= nd.layers);
                assert(nd.p.take(pc as int) =~= nd.p);
                assert(ws@ =~= pre_node + ser_node(nd));
                lemma_blocks_take_snoc(v.nodes, |x: NodeView| ser_node(x), i as int);
                assert(ws@ =~= hdr + ser_nodes(v.nodes.take(i + 1)));
            }
            i += 1;
        }
        proof {
            assert(v.nodes.take(n as int) =~= v.nodes);
            assert(ws@ =~= ser_index(v));
        }
        let mut out: Vec<u8> = Vec::new();
        let wn = ws.len();
        let mut t: usize = 0;
        while t < wn
            invariant
                t <= wn,
                out@ == bytes_of_words(ws@.take(t as int)),
            decreases wn - t,
        {
            let mut b = u64_to_le_bytes(ws[t]);
            out.append(&mut b);
            proof {
                assert(ws@.take(t + 1).drop_last() =~= ws@.take(t as int));
                assert(ws@.take(t + 1).last() == ws@[t as int]);
            }
            t += 1;
        }
        proof {
            assert(ws@.take(wn as int) =~= ws@);
        }
        out
    }
}

/// Ghost image of one exec node.
pub open spec fn nview(nd: Node) -> NodeView {
    NodeView {
        level: nd.level as nat,
        layers: Seq::new(nd.neighbors@.len(), |l: int| nd.neighbors@[l]@),
        p: nd.p@,
    }
}

pub open spec fn nviews(s: Seq<Node>) -> Seq<NodeView> {
    Seq::new(s.len(), |i: int| nview(s[i]))
}

pub open spec fn lviews(s: Seq<Vec<Neighbor>>) -> Seq<Seq<Neighbor>> {
    Seq::new(s.len(), |i: int| s[i]@)
}

fn parse_entries_x(ws: &Vec<u64>, pos: usize, cnt: usize) -> (r: Option<(Vec<Neighbor>, usize)>)
    requires
        pos <= ws@.len(),
    ensures
        match r {
            Some(p) => parse_entries(ws@, pos as int, cnt as nat) == Some((p.0@, p.1 as int))
                && p.1 <= ws@.len(),
            None => parse_entries(ws@, pos as int, cnt as nat) is None,
        },
    decreases cnt,
{
    if cnt == 0 {
        let v: Vec<Neighbor> = Vec::new();
        proof {
            assert(v@ =~= Seq::<Neighbor>::empty());
        }
        return Some((v, pos));
    }
    if ws.len() - pos < 2 {
        return None;
    }
    let e = Neighbor { id: ws[pos], d: ws[pos + 1] };
    match parse_entries_x(ws, pos + 2, cnt - 1) {
        Some((mut v, p)) => {
            let ghost prev = v@;
            v.insert(0, e);
            proof {
                assert(v@ =~= seq![e] + prev);
            }
            Some((v, p))
        },
        None => None,
    }
}

fn parse_coords_x(ws: &Vec<u64>, pos: usize, cnt: usize) -> (r: Option<(Vec<i64>, usize)>)
    requires
        pos <= ws@.len(),
    ensures
        match r {
            Some(p) => parse_coords(ws@, pos as int, cnt as nat) == Some((p.0@, p.1 as int))
                && p.1 <= ws@.len(),
            None => parse_coords(ws@, pos as int, cnt as nat) is None,
        },
    decreases cnt,
{
    if cnt == 0 {
        let v: Vec<i64> = Vec::new();
        proof {
            assert(v@ =~= Seq::<i64>::empty());
        }
        return Some((v, pos));
    }
    if ws.len() - pos < 1 {
        return None;
    }
    let w = ws[pos];
    if w > (2 * COORD_BOUND) as u64 {
        return None;
    }
    let x: i64 = (w as i64) - COORD_BOUND;
    match parse_coords_x(ws, pos + 1, cnt - 1) {
        Some((mut v, p)) => {
            let ghost prev = v@;
            v.insert(0, x);
            proof {
                assert(v@ =~= seq![x] + prev);
            }
            Some((v, p))
        },
        None => None,
    }
}

fn parse_list_x(ws: &Vec<u64>, pos: usize) -> (r: Option<(Vec<Neighbor>, usize)>)
    requires
        pos <= ws@.len(),
    ensures
        match r {
            Some(p) => parse_list(ws@, pos as int) == Some((p.0@, p.1 as int)) && p.1 <= ws@.len(),
            None => parse_list(ws@, pos as int) is None,
        },
{
    if ws.len() - pos < 1 {
        return None;
    }
    let cnt = ws[pos];
    if cnt > 0x20000 {
        return None;
    }
    parse_entries_x(ws, pos + 1, cnt as usize)
}

fn parse_layers_x(ws: &Vec<u64>, pos: usize, cnt: usize) -> (r: Option<(Vec<Vec<Neighbor>>, usize)>)
    requires
        pos <= ws@.len(),
    ensures
        match r {
            Some(p) => parse_layers(ws@, pos as int, cnt as nat) == Some(
                (lviews(p.0@), p.1 as int),
            ) && p.1 <= ws@.len(),
            None => parse_layers(ws@, pos as int, cnt as nat) is None,
        },
    decreases cnt,
{
    if cnt == 0 {
        let v: Vec<Vec<Neighbor>> = Vec::new();
        proof {
            assert(lviews(v@) =~= Seq::<Seq<Neighbor>>::empty());
        }
        return Some((v, pos));
    }
    match parse_list_x(ws, pos) {
        Some((l, p1)) => match parse_layers_x(ws, p1, cnt - 1) {
            Some((mut v, p2)) => {
                let ghost prev = v@;
                v.insert(0, l);
                proof {
                    assert(lviews(v@) =~= seq![v@[0]@] + lviews(prev));
                }
                Some((v, p2))
            },
            None => None,
        },
        None => None,
    }
}

fn parse_vec_x(ws: &Vec<u64>, pos: usize) -> (r: Option<(Vec<i64>, usize)>)
    requires
        pos <= ws@.len(),
    ensures
        match r {
            Some(p) => parse_vec(ws@, pos as int) == Some((p.0@, p.1 as int)) && p.1 <= ws@.len(),
            None => parse_vec(ws@, pos as int) is None,
        },
{
    if ws.len() - pos < 1 {
        return None;
    }
    let cnt = ws[pos];
    if cnt > 65536 {
        return None;
    }
    parse_coords_x(ws, pos + 1, cnt as usize)
}

fn parse_node_x(ws: &Vec<u64>, pos: usize) -> (r: Option<(Node, usize)>)
    requires
        pos <= ws@.len(),
    ensures
        match r {
            Some(p) => parse_node(ws@, pos as int) == Some((nview(p.0), p.1 as int)) && p.1
                <= ws@.len(),
            None => parse_node(ws@, pos as int) is None,
        },
{
    if ws.len() - pos < 1 {
        return None;
    }
    let lv = ws[pos];
    if lv > 64 {
        return None;
    }
    match parse_layers_x(ws, pos + 1, (lv as usize) + 1) {
        Some((layers, p1)) => match parse_vec_x(ws, p1) {
            Some((p, p2)) => {
                let node = Node { level: lv as usize, neighbors: layers, p };
                proof {
                    assert(nview(node).layers =~~= lviews(node.neighbors@));
                }
                Some((node, p2))
            },
            None => None,
        },
        None => None,
    }
}

fn parse_nodes_x(ws: &Vec<u64>, pos: usize, cnt: usize) -> (r: Option<(Vec<Node>, usize)>)
    requires
        pos <= ws@.len(),
    ensures
        match r {
            Some(p) => parse_nodes(ws@, pos as int, cnt as nat) == Some(
                (nviews(p.0@), p.1 as int),
            ) && p.1 <= ws@.len(),
            None => parse_nodes(ws@, pos as int, cnt as nat) is None,
        },
    decreases cnt,
{
    if cnt == 0 {
        let v: Vec<Node> = Vec::new();
        proof {
            assert(nviews(v@) =~= Seq::<NodeView>::empty());
        }
        return Some((v, pos));
    }
    match parse_node_x(ws, pos) {
        Some((nd, p1)) => match parse_nodes_x(ws, p1, cnt - 1) {
            Some((mut v, p2)) => {
                let ghost prev = v@;
                v.insert(0, nd);
                proof {
                    assert(nviews(v@) =~~= seq![nview(v@[0])] + nviews(prev));
                }
                Some((v, p2))
            },
            None => None,
        },
        None => None,
    }
}

/// The non-edge conditions of `HNSW::node_ok`.
pub open spec fn node_basic_ok(h: HNSW, i: int) -> bool {
    let node = h.nodes@[i];
    &&& node.neighbors@.len() == node.level + 1
    &&& h.node_level(i) <= h.max_layer
    &&& node.level <= h.max_level
    &&& node.p@.len() == h.dims
    &&& coords_ok(node.p@)
    &&& forall|l: int| 0 <= l <= node.level ==> #[trigger] h.nbrs(i, l).len() <= h.cap(l)
}

/// The edge conditions of `HNSW::node_ok`.
pub open spec fn node_edges_ok(h: HNSW, i: int) -> bool {
    let node = h.nodes@[i];
    forall|l: int, j: int|
        0 <= l <= node.level && 0 <= j < h.nbrs(i, l).len() ==> h.edge_ok(
            i,
            l,
            #[trigger] h.nbrs(i, l)[j],
        )
}

/// Checks well-formedness of an index, exactly.
#[verifier::loop_isolation(false)]
pub fn check_wf(h: &HNSW) -> (b: bool)
    ensures
        b == h.wf(),
{
    if h.m < 1 || h.m > 0x10000 || h.ef_construction < 1 || h.ef_construction > 0x10000
        || h.ef_search < 1 || h.ef_search > 0x10000 || h.max_level > 64 || h.dims < 1 || h.dims
        > MAX_DIMS {
        return false;
    }
    let n = h.nodes.len();
    if n > 0xffffffff {
        return false;
    }
    if n > 0 {
        if h.enter_point >= n {
            return false;
        }
        if h.nodes[h.enter_point].level != h.max_layer {
            return false;
        }
    } else {
        if h.max_layer != 0 || h.enter_point != 0 {
            return false;
        }
    }
    let mut i: usize = 0;
    while i < n
        invariant
            i <= n,
            forall|t: int| 0 <= t < i ==> node_basic_ok(*h, t),
        decreases n - i,
    {
        let node = &h.nodes[i];
        if node.level > h.max_layer || node.level > h.max_level {
            proof {
                assert(!node_basic_ok(*h, i as int));
                assert(!h.node_ok(i as int));
            }
            return false;
        }
        if node.neighbors.len() != node.level + 1 {
            proof {
                assert(!h.node_ok(i as int));
            }
            return false;
        }
        if node.p.len() != h.dims {
            proof {
                assert(!h.node_ok(i as int));
            }
            return false;
        }
        let pc = node.p.len();
        let mut c: usize = 0;
        while c < pc
            invariant
                c <= pc,
                forall|t: int| 0 <= t < c ==> coord_ok(#[trigger] node.p@[t]),
            decreases pc - c,
        {
            let x = node.p[c];
            if x < -COORD_BOUND || x > COORD_BOUND {
                proof {
                    assert(!coord_ok(node.p@[c as int]));
                    assert(!h.node_ok(i as int));
                }
                return false;
            }
            c += 1;
        }
        let nl = node.neighbors.len();
        let mut l: usize = 0;
        while l < nl
            invariant
                l <= nl,
                forall|t: int| 0 <= t < l ==> #[trigger] h.nbrs(i as int, t).len() <= h.cap(t),
            decreases nl - l,
        {
            let cap: usize = if l == 0 {
                2 * h.m
            } else {
                h.m
            };
            if node.neighbors[l].len() > cap {
                proof {
                    assert(l as int <= h.nodes@[i as int].level);
                    assert(h.nbrs(i as int, l as int).len() > h.cap(l as int));
                    assert(!h.node_ok(i as int));
                }
                return false;
            }
            l += 1;
        }
        proof {
            assert(coords_ok(node.p@));
            assert(node_basic_ok(*h, i as int));
        }
        i += 1;
    }
    let mut i2: usize = 0;
    while i2 < n
        invariant
            i2 <= n,
            forall|t: int| 0 <= t < n ==> node_basic_ok(*h, t),
            forall|t: int| 0 <= t < i2 ==> node_edges_ok(*h, t),
        decreases n - i2,
    {
        let node = &h.nodes[i2];
        let nl = node.neighbors.len();
        let mut l: usize = 0;
        while l < nl
            invariant
                l <= nl,
                forall|t: int, j: int|
                    0 <= t < l && 0 <= j < h.nbrs(i2 as int, t).len() ==> h.edge_ok(
                        i2 as int,
                        t,
                        #[trigger] h.nbrs(i2 as int, t)[j],
                    ),
            decreases nl - l,
        {
            let lst = &node.neighbors[l];
            let le = lst.len();
            let mut j: usize = 0;
            while j < le
                invariant
                    j <= le,
                    forall|t: int|
                        0 <= t < j ==> h.edge_ok(i2 as int, l as int, #[trigger] h.nbrs(
                            i2 as int,
                            l as int,
                        )[t]),
                decreases le - j,
            {
                let e = lst[j];
                proof {
                    assert(h.nbrs(i2 as int, l as int)[j as int] == e);
                }
                if e.id >= n as u64 || e.id == i2 as u64 {
                    proof {
                        assert(node_basic_ok(*h, i2 as int));
                        assert(l as int <= h.nodes@[i2 as int].level);
                        assert(!h.edge_ok(i2 as int, l as int, e));
                        assert(!node_edges_ok(*h, i2 as int));
                        assert(!h.node_ok(i2 as int));
                    }
                    return false;
                }
                let t = e.id as usize;
                if h.nodes[t].level < l {
                    proof {
                        assert(node_basic_ok(*h, i2 as int));
                        assert(l as int <= h.nodes@[i2 as int].level);
                        assert(!h.edge_ok(i2 as int, l as int, e));
                        assert(!node_edges_ok(*h, i2 as int));
                        assert(!h.node_ok(i2 as int));
                    }
                    return false;
                }
                proof {
                    assert(node_basic_ok(*h, i2 as int));
                    assert(node_basic_ok(*h, t as int));
                }
                let dd = distance(&node.p, &h.nodes[t].p);
                if dd != e.d {
                    proof {
                        assert(l as int <= h.nodes@[i2 as int].level);
                        assert(!h.edge_ok(i2 as int, l as int, e));
                        assert(!node_edges_ok(*h, i2 as int));
                        assert(!h.node_ok(i2 as int));
                    }
                    return false;
                }
                j += 1;
            }
            l += 1;
        }
        proof {
            assert(node_basic_ok(*h, i2 as int));
            assert forall|l2: int, j2: int|
                0 <= l2 <= h.nodes@[i2 as int].level && 0 <= j2 < h.nbrs(i2 as int, l2).len()
                implies h.edge_ok(i2 as int, l2, #[trigger] h.nbrs(i2 as int, l2)[j2]) by {
                assert(l2 < nl);
            }
            assert(node_edges_ok(*h, i2 as int));
        }
        i2 += 1;
    }
    proof {
        assert forall|t: int| 0 <= t < h.n() implies h.node_ok(t) by {
            assert(node_basic_ok(*h, t));
            assert(node_edges_ok(*h, t));
        }
    }
    true
}

impl HNSW {
    /// A deep copy of the index, with the identical ghost image.
    #[verifier::loop_isolation(false)]
    pub fn copy_index(&self) -> (r: HNSW)
        ensures
            r.iview() == self.iview(),
            r.m == self.m,
            r.ef_construction == self.ef_construction,
            r.ef_search == self.ef_search,
            r.max_level == self.max_level,
            r.dims == self.dims,
            r.enter_point == self.enter_point,
            r.max_layer == self.max_layer,
            r.nodes@.len() == self.nodes@.len(),
            forall|i: int|
                0 <= i < self.nodes@.len() ==> #[trigger] r.node_vec(i) == self.node_vec(i)
                    && r.node_level(i) == self.node_level(i),
            self.wf() ==> r.wf(),
    {
        let mut nodes: Vec<Node> = Vec::new();
        let n = self.nodes.len();
        let mut i: usize = 0;
        while i < n
            invariant
                nodes@.len() == i <= n,
                forall|t: int| 0 <= t < i ==> nview(#[trigger] nodes@[t]) == nview(self.nodes@[t]),
            decreases n - i,
        {
            let src = &self.nodes[i];
            let mut p: Vec<i64> = Vec::new();
            let mut c: usize = 0;
            while c < src.p.len()
                invariant
                    c <= src.p@.len(),
                    p@ == src.p@.subrange(0, c as int),
                decreases src.p@.len() - c,
            {
                p.push(src.p[c]);
                c += 1;
            }
            let mut neighbors: Vec<Vec<Neighbor>> = Vec::new();
            let mut l: usize = 0;
            while l < src.neighbors.len()
                invariant
                    neighbors@.len() == l <= src.neighbors@.len(),
                    forall|t: int| 0 <= t < l ==> #[trigger] neighbors@[t]@ == src.neighbors@[t]@,
                decreases src.neighbors@.len() - l,
            {
                let lst = &src.neighbors[l];
                let mut copy: Vec<Neighbor> = Vec::new();
                let mut j: usize = 0;
                while j < lst.len()
                    invariant
                        j <= lst@.len(),
                        copy@ == lst@.subrange(0, j as int),
                    decreases lst@.len() - j,
                {
                    copy.push(lst[j]);
                    j += 1;
                }
                proof {
                    assert(copy@ =~= lst@);
                }
                neighbors.push(copy);
                l += 1;
            }
            proof {
                assert(p@ =~= src.p@);
            }
            let node = Node { level: src.level, neighbors, p };
            proof {
                assert(nview(node).layers =~~= nview(self.nodes@[i as int]).layers);
                assert(nview(node) == nview(self.nodes@[i as int]));
            }
            nodes.push(node);
            i += 1;
        }
        let r = HNSW {
            nodes,
            enter_point: self.enter_point,
            max_layer: self.max_layer,
            m: self.m,
            ef_construction: self.ef_construction,
            ef_search: self.ef_search,
            max_level: self.max_level,
            dims: self.dims,
        };
        proof {
            assert(r.iview().nodes =~~= self.iview().nodes);
            assert(r.iview() == self.iview());
            assert forall|t: int| 0 <= t < self.nodes@.len() implies #[trigger] r.node_vec(t)
                == self.node_vec(t) && r.node_level(t) == self.node_level(t) by {
                assert(nview(r.nodes@[t]) == nview(self.nodes@[t]));
            }
            if self.wf() {
                lemma_wf_iview(*self);
                lemma_wf_iview(r);
            }
        }
        r
    }
}

/// The exec and ghost well-formedness conditions agree.
pub proof fn lemma_wf_iview(h: HNSW)
    ensures
        h.wf() <==> wf_view(h.iview()),
{
    let v = h.iview();
    assert forall|i: int| 0 <= i < h.n() implies (h.node_ok(i) <==> node_ok_view(v, i)) by {
        let nd = v.nodes[i];
        assert(nd.p == h.node_vec(i));
        assert(nd.level == h.node_level(i));
        assert(nd.layers.len() == h.nodes@[i].neighbors@.len());
        assert forall|l: int| 0 <= l < nd.layers.len() implies #[trigger] nd.layers[l] == h.nbrs(
            i,
            l,
        ) by {}
        if h.node_ok(i) {
            assert forall|l: int, j: int|
                0 <= l <= nd.level && 0 <= j < nd.layers[l].len() implies edge_ok_view(
                v,
                i,
                l,
                #[trigger] nd.layers[l][j],
            ) by {
                assert(h.edge_ok(i, l, h.nbrs(i, l)[j]));
                let e = nd.layers[l][j];
                assert(v.nodes[e.id as int].p == h.node_vec(e.id as int));
                assert(v.nodes[e.id as int].level == h.node_level(e.id as int));
            }
            assert forall|l: int| 0 <= l <= nd.level implies #[trigger] nd.layers[l].len() <= (
            if l == 0 {
                2 * v.m
            } else {
                v.m
            }) by {
                assert(h.nbrs(i, l).len() <= h.cap(l));
                assert(nd.layers[l] == h.nbrs(i, l));
            }
            assert(node_ok_view(v, i));
        }
        if node_ok_view(v, i) {
            assert forall|l: int, j: int|
                0 <= l <= h.nodes@[i].level && 0 <= j < h.nbrs(i, l).len() implies h.edge_ok(
                i,
                l,
                #[trigger] h.nbrs(i, l)[j],
            ) by {
                assert(edge_ok_view(v, i, l, nd.layers[l][j]));
                let e = h.nbrs(i, l)[j];
                assert(v.nodes[e.id as int].p == h.node_vec(e.id as int));
                assert(v.nodes[e.id as int].level == h.node_level(e.id as int));
            }
            assert forall|l: int| 0 <= l <= h.nodes@[i].level implies #[trigger] h.nbrs(
                i,
                l,
            ).len() <= h.cap(l) by {
                assert(nd.layers[l] == h.nbrs(i, l));
                assert(nd.layers[l].len() <= (if l == 0 {
                    2 * v.m
                } else {
                    v.m
                }));
            }
            assert(h.node_ok(i));
        }
    }
    if h.n() > 0 && h.enter_point < h.n() {
        assert(v.nodes[v.enter_point as int].level == h.node_level(h.enter_point as int));
    }
}

impl HNSW {
    /// Deserializes an index image. Succeeds exactly on the byte strings that
    /// `serialize` produces from well-formed indexes; anything else is
    /// reported as `CorruptIndex` and never silently repaired.
    #[verifier::loop_isolation(false)]
    pub fn deserialize(bytes: &Vec<u8>) -> (r: Result<HNSW, VBError>)
        ensures
            match r {
                Ok(h) => h.wf() && decoded(bytes@) == Some(h.iview()),
                Err(e) => decoded(bytes@) is None && e == VBError::CorruptIndex,
            },
    {
        if bytes.len() % 8 != 0 {
            return Err(VBError::CorruptIndex);
        }
        let wn = bytes.len() / 8;
        proof {
            assert(bytes@.len() == 8 * wn) by (nonlinear_arith)
                requires
                    wn == bytes@.len() / 8,
                    bytes@.len() % 8 == 0,
            ;
        }
        let mut ws: Vec<u64> = Vec::new();
        let mut i: usize = 0;
        while i < wn
            invariant
                ws@.len() == i <= wn,
                forall|k: int| 0 <= k < i ==> ws@[k] == words_of(bytes@)[k],
            decreases wn - i,
        {
            let s = slice_subrange(bytes.as_slice(), 8 * i, 8 * i + 8);
            ws.push(u64_from_le_bytes(s));
            i += 1;
        }
        proof {
            assert(ws@ =~= words_of(bytes@));
        }
        if ws.len() < 8 {
            return Err(VBError::CorruptIndex);
        }
        if ws[0] < 1 || ws[0] > 0x10000 || ws[1] < 1 || ws[1] > 0x10000 || ws[2] < 1 || ws[2]
            > 0x10000 || ws[3] > 64 || ws[4] < 1 || ws[4] > 65536 || ws[5] > 0xffffffff || ws[6]
            > 64 || ws[7] > 0xffffffff {
            return Err(VBError::CorruptIndex);
        }
        match parse_nodes_x(&ws, 8, ws[7] as usize) {
            None => Err(VBError::CorruptIndex),
            Some((nodes, endpos)) => {
                if endpos != ws.len() {
                    return Err(VBError::CorruptIndex);
                }
                let h = HNSW {
                    nodes,
                    enter_point: ws[5] as usize,
                    max_layer: ws[6] as usize,
                    m: ws[0] as usize,
                    ef_construction: ws[1] as usize,
                    ef_search: ws[2] as usize,
                    max_level: ws[3] as usize,
                    dims: ws[4] as usize,
                };
                proof {
                    assert(h.iview().nodes =~~= nviews(h.nodes@));
                    assert(parse_index(ws@) == Some(h.iview()));
                    lemma_wf_iview(h);
                }
                if check_wf(&h) {
                    Ok(h)
                } else {
                    Err(VBError::CorruptIndex)
                }
            },
        }
    }
}

/// Lossless round trip: deserializing a well-formed index's serialized form
/// recovers the identical image — same parameters, node count, per-node
/// level, per-layer neighbor lists, and vectors.
pub proof fn lemma_serialize_round_trip(h: HNSW)
    requires
        h.wf(),
    ensures
        decoded(encoded(h.iview())) == Some(h.iview()),
{
    lemma_wf_iview(h);
    lemma_words_of_bytes(ser_index(h.iview()));
    lemma_rt_index(h.iview());
    assert(encoded(h.iview()).len() % 8 == 0) by (nonlinear_arith)
        requires
            encoded(h.iview()).len() == 8 * ser_index(h.iview()).len(),
    ;
}

} // verus!
