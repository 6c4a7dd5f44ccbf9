//! The grouped layer graph: one group per conceptual layer (and one for the
//! nodes left unassigned), holding the ONNX nodes assigned to it, and the
//! edges between layers along which tensors flow.

use vstd::prelude::*;
use crate::assoc::StrMap;
use crate::assignment::{AssignmentView, NodeAssignment};
use crate::config::{LayerDef, LayerView, layers_view, strs};
use crate::onnx::{NodeView, OnnxNode, nodes_view};
use crate::text::{
    chars_of, compare_chars, seq_lt, str_eq, Cmp, lemma_seq_lt_asymmetric, lemma_seq_lt_irreflexive,
    lemma_seq_lt_total, lemma_seq_lt_transitive,
};

verus! {

// ─── Types ──────────────────────────────────────────────────────────────────

/// A group of the grouped graph: a conceptual layer and the nodes in it.
pub struct GroupNodeInfo {
    pub id: String,
    pub label: String,
    pub description: String,
    /// The ids of the member nodes, in node order.
    pub members: Vec<String>,
    pub member_count: u32,
    /// How many members have each op type.
    pub op_type_histogram: StrMap<u32>,
}

pub struct GroupView {
    pub id: Seq<char>,
    pub label: Seq<char>,
    pub description: Seq<char>,
    pub members: Seq<Seq<char>>,
    pub member_count: nat,
    pub op_type_histogram: Map<Seq<char>, nat>,
}

/// The counts of a histogram as natural numbers.
pub open spec fn counts_view(m: Map<Seq<char>, u32>) -> Map<Seq<char>, nat> {
    m.map_values(|v: u32| v as nat)
}

impl View for GroupNodeInfo {
    type V = GroupView;

    open spec fn view(&self) -> GroupView {
        GroupView {
            id: self.id@,
            label: self.label@,
            description: self.description@,
            members: strs(self.members@),
            member_count: self.member_count as nat,
            op_type_histogram: counts_view(self.op_type_histogram@),
        }
    }
}

/// An edge between two groups.
pub struct Edge {
    pub source: String,
    pub target: String,
}

impl View for Edge {
    type V = (Seq<char>, Seq<char>);

    open spec fn view(&self) -> (Seq<char>, Seq<char>) {
        (self.source@, self.target@)
    }
}

/// The grouped graph: its groups ordered by id, its edges ordered by
/// `(source, target)`.
pub struct GroupedGraph {
    pub group_nodes: Vec<GroupNodeInfo>,
    pub group_edges: Vec<Edge>,
}

/// The view of each group.
pub open spec fn groups_view(gs: Seq<GroupNodeInfo>) -> Seq<GroupView> {
    gs.map_values(|g: GroupNodeInfo| g@)
}

/// The view of each edge.
pub open spec fn edges_view(es: Seq<Edge>) -> Seq<(Seq<char>, Seq<char>)> {
    es.map_values(|e: Edge| e@)
}

// ─── The groups ─────────────────────────────────────────────────────────────

/// A layer's label: its description, or its id when the description is
/// empty.
pub open spec fn spec_layer_label(d: LayerView) -> Seq<char> {
    if d.description.len() == 0 {
        d.id
    } else {
        d.description
    }
}

/// A group without members.
pub open spec fn spec_empty_group(id: Seq<char>, label: Seq<char>, description: Seq<char>) -> GroupView {
    GroupView {
        id,
        label,
        description,
        members: Seq::empty(),
        member_count: 0,
        op_type_histogram: Map::empty(),
    }
}

/// One empty group per layer id; a later layer with the same id replaces an
/// earlier one.
pub open spec fn spec_layer_groups(defs: Seq<LayerView>) -> Map<Seq<char>, GroupView>
    decreases defs.len(),
{
    if defs.len() == 0 {
        Map::empty()
    } else {
        let d = defs.last();
        spec_layer_groups(defs.drop_last()).insert(
            d.id,
            spec_empty_group(d.id, spec_layer_label(d), spec_layer_label(d)),
        )
    }
}

/// Whether some node is assigned to `unassigned`.
pub open spec fn spec_has_unassigned(a: Map<Seq<char>, AssignmentView>) -> bool {
    exists|k: Seq<char>| a.contains_key(k) && (#[trigger] a[k]).layer_id == "unassigned"@
}

/// The group of the unassigned nodes.
pub open spec fn spec_unassigned_group() -> GroupView {
    spec_empty_group(
        "unassigned"@,
        "Unassigned Nodes"@,
        "Nodes that could not be mapped to a conceptual layer"@,
    )
}

/// The groups before any node is added: the layers' groups, and the
/// `unassigned` group when some node is assigned to it.
pub open spec fn spec_initial_groups(defs: Seq<LayerView>, a: Map<Seq<char>, AssignmentView>) -> Map<
    Seq<char>,
    GroupView,
> {
    if spec_has_unassigned(a) {
        spec_layer_groups(defs).insert("unassigned"@, spec_unassigned_group())
    } else {
        spec_layer_groups(defs)
    }
}

/// `g` with `node` added as its last member.
pub open spec fn spec_add_member(g: GroupView, node: NodeView) -> GroupView {
    let h = g.op_type_histogram;
    GroupView {
        id: g.id,
        label: g.label,
        description: g.description,
        members: g.members.push(node.id),
        member_count: g.member_count + 1,
        op_type_histogram: h.insert(
            node.op_type,
            if h.contains_key(node.op_type) {
                h[node.op_type] + 1
            } else {
                1
            },
        ),
    }
}

/// The groups after each node, in order, is added to the group of its
/// layer; a node without an assignment, or whose layer has no group, is
/// left out.
pub open spec fn spec_fill(
    nodes: Seq<NodeView>,
    a: Map<Seq<char>, AssignmentView>,
    groups: Map<Seq<char>, GroupView>,
) -> Map<Seq<char>, GroupView>
    decreases nodes.len(),
{
    if nodes.len() == 0 {
        groups
    } else {
        let prev = spec_fill(nodes.drop_last(), a, groups);
        let n = nodes.last();
        if a.contains_key(n.id) && prev.contains_key(a[n.id].layer_id) {
            prev.insert(a[n.id].layer_id, spec_add_member(prev[a[n.id].layer_id], n))
        } else {
            prev
        }
    }
}

/// The groups of the grouped graph, by id.
pub open spec fn spec_groups(
    nodes: Seq<NodeView>,
    a: Map<Seq<char>, AssignmentView>,
    defs: Seq<LayerView>,
) -> Map<Seq<char>, GroupView> {
    spec_fill(nodes, a, spec_initial_groups(defs, a))
}

/// `s` lists the groups of `m` by strictly increasing id.
pub open spec fn lists_groups(s: Seq<GroupView>, m: Map<Seq<char>, GroupView>) -> bool {
    &&& forall|i: int, j: int| 0 <= i < j < s.len() ==> seq_lt(#[trigger] s[i].id, #[trigger] s[j].id)
    &&& forall|i: int| 0 <= i < s.len() ==> m.contains_key(#[trigger] s[i].id) && m[s[i].id] == s[i]
    &&& forall|k: Seq<char>| #[trigger] m.contains_key(k) ==> exists|i: int| 0 <= i < s.len() && s[i].id == k
}

// ─── The edges ──────────────────────────────────────────────────────────────

/// The node producing each tensor: the last node that lists it among its
/// outputs.
pub open spec fn spec_producers(nodes: Seq<NodeView>) -> Map<Seq<char>, Seq<char>>
    decreases nodes.len(),
{
    if nodes.len() == 0 {
        Map::empty()
    } else {
        spec_producers(nodes.drop_last()).union_prefer_right(
            spec_outputs_of(nodes.last().outputs, nodes.last().id),
        )
    }
}

/// Each of `outputs` produced by `id`.
pub open spec fn spec_outputs_of(outputs: Seq<Seq<char>>, id: Seq<char>) -> Map<Seq<char>, Seq<char>> {
    Map::new(|t: Seq<char>| outputs.contains(t), |t: Seq<char>| id)
}

/// The layer edges into `dst` along `inputs`: for each input whose producer
/// is assigned to another layer, the edge from that layer.
pub open spec fn spec_input_edges(
    inputs: Seq<Seq<char>>,
    dst: Seq<char>,
    a: Map<Seq<char>, AssignmentView>,
    producers: Map<Seq<char>, Seq<char>>,
) -> Set<(Seq<char>, Seq<char>)>
    decreases inputs.len(),
{
    if inputs.len() == 0 {
        Set::empty()
    } else {
        let rest = spec_input_edges(inputs.drop_last(), dst, a, producers);
        let t = inputs.last();
        if producers.contains_key(t) && a.contains_key(producers[t]) && a[producers[t]].layer_id
            != dst {
            rest.insert((a[producers[t]].layer_id, dst))
        } else {
            rest
        }
    }
}

/// The layer edges into an assigned node.
pub open spec fn spec_node_edges(
    n: NodeView,
    a: Map<Seq<char>, AssignmentView>,
    producers: Map<Seq<char>, Seq<char>>,
) -> Set<(Seq<char>, Seq<char>)> {
    if a.contains_key(n.id) {
        spec_input_edges(n.inputs, a[n.id].layer_id, a, producers)
    } else {
        Set::empty()
    }
}

/// The layer edges into the nodes.
pub open spec fn spec_edge_set(
    nodes: Seq<NodeView>,
    a: Map<Seq<char>, AssignmentView>,
    producers: Map<Seq<char>, Seq<char>>,
) -> Set<(Seq<char>, Seq<char>)>
    decreases nodes.len(),
{
    if nodes.len() == 0 {
        Set::empty()
    } else {
        spec_edge_set(nodes.drop_last(), a, producers).union(
            spec_node_edges(nodes.last(), a, producers),
        )
    }
}

/// The edges of the grouped graph.
pub open spec fn spec_edges(nodes: Seq<NodeView>, a: Map<Seq<char>, AssignmentView>) -> Set<
    (Seq<char>, Seq<char>),
> {
    spec_edge_set(nodes, a, spec_producers(nodes))
}

/// The order of `(source, target)` pairs: by source, then by target.
pub open spec fn pair_lt(x: (Seq<char>, Seq<char>), y: (Seq<char>, Seq<char>)) -> bool {
    seq_lt(x.0, y.0) || (x.0 == y.0 && seq_lt(x.1, y.1))
}

/// `s` lists the pairs of `set` in strictly increasing order.
pub open spec fn lists_edges(s: Seq<(Seq<char>, Seq<char>)>, set: Set<(Seq<char>, Seq<char>)>) -> bool {
    &&& forall|i: int, j: int| 0 <= i < j < s.len() ==> pair_lt(#[trigger] s[i], #[trigger] s[j])
    &&& forall|i: int| 0 <= i < s.len() ==> set.contains(#[trigger] s[i])
    &&& forall|e: (Seq<char>, Seq<char>)| #[trigger] set.contains(e) ==> exists|i: int| 0 <= i < s.len() && s[i] == e
}

proof fn lemma_pair_lt_total(x: (Seq<char>, Seq<char>), y: (Seq<char>, Seq<char>))
    ensures
        x != y ==> pair_lt(x, y) || pair_lt(y, x),
{
    lemma_seq_lt_total(x.0, y.0);
    lemma_seq_lt_total(x.1, y.1);
}

proof fn lemma_pair_lt_transitive(x: (Seq<char>, Seq<char>), y: (Seq<char>, Seq<char>), z: (Seq<char>, Seq<char>))
    requires
        pair_lt(x, y),
        pair_lt(y, z),
    ensures
        pair_lt(x, z),
{
    if seq_lt(x.0, y.0) && seq_lt(y.0, z.0) {
        lemma_seq_lt_transitive(x.0, y.0, z.0);
    } else if seq_lt(x.1, y.1) && seq_lt(y.1, z.1) && x.0 == y.0 && y.0 == z.0 {
        lemma_seq_lt_transitive(x.1, y.1, z.1);
    }
}

// ─── Sorted insertion ───────────────────────────────────────────────────────

/// The index of the first group whose id is not below `id`.
fn group_slot(groups: &Vec<GroupNodeInfo>, id: &Vec<char>) -> (p: usize)
    ensures
        p <= groups@.len(),
        forall|i: int| 0 <= i < p ==> seq_lt(#[trigger] groups@[i].id@, id@),
        p < groups@.len() ==> !seq_lt(groups@[p as int].id@, id@),
{
    let mut i: usize = 0;
    while i < groups.len()
        invariant
            i <= groups@.len(),
            forall|k: int| 0 <= k < i ==> seq_lt(#[trigger] groups@[k].id@, id@),
        decreases groups@.len() - i,
    {
        let c = chars_of(groups[i].id.as_str());
        match compare_chars(c.as_slice(), id.as_slice()) {
            Cmp::Less => {
                i += 1;
            },
            _ => {
                return i;
            },
        }
    }
    i
}

/// In a list sorted by id, every id from the slot of `key` on is above
/// `key`, unless it is `key` itself at the slot.
proof fn lemma_above_slot(s: Seq<GroupView>, p: int, key: Seq<char>)
    requires
        forall|i: int, j: int| 0 <= i < j < s.len() ==> seq_lt(#[trigger] s[i].id, #[trigger] s[j].id),
        0 <= p <= s.len(),
        p < s.len() ==> !seq_lt(s[p].id, key),
    ensures
        forall|i: int| p < i < s.len() ==> seq_lt(key, #[trigger] s[i].id),
        p < s.len() && s[p].id != key ==> seq_lt(key, s[p].id),
{
    if p < s.len() {
        lemma_seq_lt_total(s[p].id, key);
        assert forall|i: int| p < i < s.len() implies seq_lt(key, #[trigger] s[i].id) by {
            assert(seq_lt(s[p].id, s[i].id));
            if s[p].id != key {
                lemma_seq_lt_transitive(key, s[p].id, s[i].id);
            }
        }
    }
}

/// Stores `g` among the sorted groups, replacing the group with its id.
fn put_group(groups: &mut Vec<GroupNodeInfo>, g: GroupNodeInfo, Ghost(m): Ghost<Map<Seq<char>, GroupView>>)
    requires
        lists_groups(groups_view(old(groups)@), m),
    ensures
        lists_groups(groups_view(final(groups)@), m.insert(g@.id, g@)),
{
    let ghost s = groups_view(groups@);
    let ghost x = g@;
    let ghost m2 = m.insert(x.id, x);
    let idc = chars_of(g.id.as_str());
    let p = group_slot(groups, &idc);
    proof {
        lemma_above_slot(s, p as int, x.id);
        assert forall|i: int| 0 <= i < p implies seq_lt(#[trigger] s[i].id, x.id) by {
            assert(s[i].id == groups@[i].id@);
        }
    }
    if p < groups.len() && groups[p].id == g.id {
        let _ = groups.remove(p);
        groups.insert(p, g);
        let ghost t = groups_view(groups@);
        proof {
            assert(t =~= s.update(p as int, x));
            lemma_seq_lt_irreflexive(x.id);
            assert forall|i: int, j: int| 0 <= i < j < t.len() implies seq_lt(#[trigger] t[i].id, #[trigger] t[j].id) by {
                assert(seq_lt(s[i].id, s[j].id));
            }
            assert forall|i: int| 0 <= i < t.len() implies m2.contains_key(#[trigger] t[i].id) && m2[t[i].id] == t[i] by {
                if i != p {
                    assert(t[i] == s[i]);
                }
            }
            assert forall|k: Seq<char>| #[trigger] m2.contains_key(k) implies exists|i: int| 0 <= i < t.len() && t[i].id == k by {
                if k == x.id {
                    assert(t[p as int].id == k);
                } else {
                    let i = choose|i: int| 0 <= i < s.len() && s[i].id == k;
                    assert(t[i].id == k);
                }
            }
        }
    } else {
        groups.insert(p, g);
        let ghost t = groups_view(groups@);
        proof {
            assert(t =~= s.insert(p as int, x));
            assert forall|i: int, j: int| 0 <= i < j < t.len() implies seq_lt(#[trigger] t[i].id, #[trigger] t[j].id) by {
                if j < p {
                    assert(seq_lt(s[i].id, s[j].id));
                } else if j == p {
                    assert(t[i] == s[i]);
                } else if i == p {
                    assert(t[j] == s[j - 1]);
                } else if i < p {
                    assert(seq_lt(s[i].id, s[j - 1].id));
                } else {
                    assert(seq_lt(s[i - 1].id, s[j - 1].id));
                }
            }
            assert forall|i: int| 0 <= i < t.len() implies m2.contains_key(#[trigger] t[i].id) && m2[t[i].id] == t[i] by {
                if i < p {
                    assert(t[i] == s[i]);
                    lemma_seq_lt_irreflexive(x.id);
                } else if i > p {
                    assert(t[i] == s[i - 1]);
                    lemma_seq_lt_irreflexive(x.id);
                }
            }
            assert forall|k: Seq<char>| #[trigger] m2.contains_key(k) implies exists|i: int| 0 <= i < t.len() && t[i].id == k by {
                if k == x.id {
                    assert(t[p as int].id == k);
                } else {
                    let i = choose|i: int| 0 <= i < s.len() && s[i].id == k;
                    if i < p {
                        assert(t[i].id == k);
                    } else {
                        assert(t[i + 1].id == k);
                    }
                }
            }
        }
    }
}

/// The index of the first edge that is not below `(source, target)`.
fn edge_slot(edges: &Vec<Edge>, source: &Vec<char>, target: &Vec<char>) -> (p: usize)
    ensures
        p <= edges@.len(),
        forall|i: int| 0 <= i < p ==> pair_lt(#[trigger] edges@[i]@, (source@, target@)),
        p < edges@.len() ==> !pair_lt(edges@[p as int]@, (source@, target@)),
{
    let mut i: usize = 0;
    while i < edges.len()
        invariant
            i <= edges@.len(),
            forall|k: int| 0 <= k < i ==> pair_lt(#[trigger] edges@[k]@, (source@, target@)),
        decreases edges@.len() - i,
    {
        let s = chars_of(edges[i].source.as_str());
        let below = match compare_chars(s.as_slice(), source.as_slice()) {
            Cmp::Less => true,
            Cmp::Greater => false,
            Cmp::Equal => {
                let t = chars_of(edges[i].target.as_str());
                match compare_chars(t.as_slice(), target.as_slice()) {
                    Cmp::Less => true,
                    _ => false,
                }
            },
        };
        if !below {
            proof {
                lemma_seq_lt_asymmetric(s@, source@);
            }
            return i;
        }
        i += 1;
    }
    i
}

/// In a strictly increasing list, every pair from the slot of `key` on is
/// above `key`, unless it is `key` itself at the slot.
proof fn lemma_above_edge_slot(s: Seq<(Seq<char>, Seq<char>)>, p: int, key: (Seq<char>, Seq<char>))
    requires
        forall|i: int, j: int| 0 <= i < j < s.len() ==> pair_lt(#[trigger] s[i], #[trigger] s[j]),
        0 <= p <= s.len(),
        p < s.len() ==> !pair_lt(s[p], key),
    ensures
        forall|i: int| p < i < s.len() ==> pair_lt(key, #[trigger] s[i]),
        p < s.len() && s[p] != key ==> pair_lt(key, s[p]),
{
    if p < s.len() {
        lemma_pair_lt_total(s[p], key);
        assert forall|i: int| p < i < s.len() implies pair_lt(key, #[trigger] s[i]) by {
            assert(pair_lt(s[p], s[i]));
            if s[p] != key {
                lemma_pair_lt_transitive(key, s[p], s[i]);
            }
        }
    }
}

/// Adds `e` to the strictly increasing edges, unless it is there already.
fn put_edge(edges: &mut Vec<Edge>, e: Edge, Ghost(set): Ghost<Set<(Seq<char>, Seq<char>)>>)
    requires
        lists_edges(edges_view(old(edges)@), set),
    ensures
        lists_edges(edges_view(final(edges)@), set.insert(e@)),
{
    let ghost s = edges_view(edges@);
    let ghost x = e@;
    let ghost set2 = set.insert(x);
    let sc = chars_of(e.source.as_str());
    let tc = chars_of(e.target.as_str());
    let p = edge_slot(edges, &sc, &tc);
    proof {
        lemma_above_edge_slot(s, p as int, x);
        assert forall|i: int| 0 <= i < p implies pair_lt(#[trigger] s[i], x) by {
            assert(s[i] == edges@[i]@);
        }
    }
    if p < edges.len() && edges[p].source == e.source && edges[p].target == e.target {
        proof {
            assert(s[p as int] == x);
            assert forall|f: (Seq<char>, Seq<char>)| #[trigger] set2.contains(f) implies exists|i: int| 0 <= i < s.len() && s[i] == f by {
                if f == x {
                    assert(s[p as int] == f);
                }
            }
        }
    } else {
        edges.insert(p, e);
        let ghost t = edges_view(edges@);
        proof {
            assert(t =~= s.insert(p as int, x));
            assert(p < s.len() ==> s[p as int] != x);
            assert forall|i: int, j: int| 0 <= i < j < t.len() implies pair_lt(#[trigger] t[i], #[trigger] t[j]) by {
                if j < p {
                    assert(pair_lt(s[i], s[j]));
                } else if j == p {
                    assert(t[i] == s[i]);
                } else if i == p {
                    assert(t[j] == s[j - 1]);
                } else if i < p {
                    assert(pair_lt(s[i], s[j - 1]));
                } else {
                    assert(pair_lt(s[i - 1], s[j - 1]));
                }
            }
            assert forall|i: int| 0 <= i < t.len() implies set2.contains(#[trigger] t[i]) by {
                if i < p {
                    assert(t[i] == s[i]);
                } else if i > p {
                    assert(t[i] == s[i - 1]);
                }
            }
            assert forall|f: (Seq<char>, Seq<char>)| #[trigger] set2.contains(f) implies exists|i: int| 0 <= i < t.len() && t[i] == f by {
                if f == x {
                    assert(t[p as int] == f);
                } else {
                    let i = choose|i: int| 0 <= i < s.len() && s[i] == f;
                    if i < p {
                        assert(t[i] == f);
                    } else {
                        assert(t[i + 1] == f);
                    }
                }
            }
        }
    }
}

// ─── Building the graph ─────────────────────────────────────────────────────

/// The producer of each tensor.
fn producer_map(onnx_nodes: &[OnnxNode]) -> (r: StrMap<String>)
    ensures
        r@ == spec_producers(nodes_view(onnx_nodes@)),
{
    let ghost nv = nodes_view(onnx_nodes@);
    let mut producers: StrMap<String> = StrMap::new();
    let mut i: usize = 0;
    assert(nv.take(0) =~= Seq::<NodeView>::empty());
    while i < onnx_nodes.len()
        invariant
            i <= onnx_nodes@.len(),
            nv == nodes_view(onnx_nodes@),
            producers@ == spec_producers(nv.take(i as int)),
        decreases onnx_nodes@.len() - i,
    {
        let node = &onnx_nodes[i];
        let ghost base = spec_producers(nv.take(i as int));
        let ghost ov = strs(node.outputs@);
        let ghost id = node.id@;
        let mut j: usize = 0;
        assert(base.union_prefer_right(spec_outputs_of(ov.take(0), id)) =~= base);
        while j < node.outputs.len()
            invariant
                j <= node.outputs@.len(),
                ov == strs(node.outputs@),
                id == node.id@,
                producers@ == base.union_prefer_right(spec_outputs_of(ov.take(j as int), id)),
            decreases node.outputs@.len() - j,
        {
            let ghost o = ov[j as int];
            let ghost before = producers@;
            producers.insert(node.outputs[j].clone(), node.id.clone());
            proof {
                assert(o == node.outputs@[j as int]@);
                assert forall|t: Seq<char>| ov.take(j + 1).contains(t) <==> (ov.take(j as int).contains(t) || t == o) by {
                    if ov.take(j + 1).contains(t) {
                        let k = choose|k: int| 0 <= k < j + 1 && #[trigger] ov.take(j + 1)[k] == t;
                        if k < j {
                            assert(ov.take(j as int)[k] == t);
                        }
                    }
                    if ov.take(j as int).contains(t) {
                        let k = choose|k: int| 0 <= k < j && #[trigger] ov.take(j as int)[k] == t;
                        assert(ov.take(j + 1)[k] == t);
                    }
                    if t == o {
                        assert(ov.take(j + 1)[j as int] == t);
                    }
                }
                let after = base.union_prefer_right(spec_outputs_of(ov.take(j + 1), id));
                assert forall|t: Seq<char>| #[trigger] producers@.contains_key(t) <==> after.contains_key(t) by {
                    assert(spec_outputs_of(ov.take(j + 1), id).contains_key(t) == ov.take(j + 1).contains(t));
                    assert(spec_outputs_of(ov.take(j as int), id).contains_key(t) == ov.take(j as int).contains(t));
                }
                assert forall|t: Seq<char>| #[trigger] producers@.contains_key(t) implies producers@[t] == after[t] by {
                    assert(spec_outputs_of(ov.take(j + 1), id).contains_key(t) == ov.take(j + 1).contains(t));
                    assert(spec_outputs_of(ov.take(j as int), id).contains_key(t) == ov.take(j as int).contains(t));
                }
                assert(producers@ =~= after);
            }
            j += 1;
        }
        proof {
            assert(ov.take(node.outputs@.len() as int) =~= ov);
            assert(nv.take(i + 1).drop_last() =~= nv.take(i as int));
            assert(nv[i as int] == node@);
        }
        i += 1;
    }
    assert(nv.take(onnx_nodes@.len() as int) =~= nv);
    producers
}

/// Every group is still without members.
pub open spec fn all_empty(m: Map<Seq<char>, GroupView>) -> bool {
    forall|k: Seq<char>| #[trigger] m.contains_key(k) ==> m[k].members.len() == 0 && m[k].member_count == 0
        && m[k].op_type_histogram == Map::<Seq<char>, nat>::empty() && m[k].id == k
}

proof fn lemma_layer_groups_empty(defs: Seq<LayerView>)
    ensures
        all_empty(spec_layer_groups(defs)),
    decreases defs.len(),
{
    if defs.len() > 0 {
        lemma_layer_groups_empty(defs.drop_last());
    }
}

/// A new group without members.
fn empty_group(id: String, label: String, description: String) -> (g: GroupNodeInfo)
    ensures
        g@ == spec_empty_group(id@, label@, description@),
{
    let g = GroupNodeInfo {
        id,
        label,
        description,
        members: Vec::new(),
        member_count: 0,
        op_type_histogram: StrMap::new(),
    };
    assert(g@.members =~= Seq::<Seq<char>>::empty());
    assert(g@.op_type_histogram =~= Map::<Seq<char>, nat>::empty());
    g
}

/// The groups before any node is added.
fn initial_groups(layer_defs: &[LayerDef], assignments: &StrMap<NodeAssignment>) -> (r: Vec<GroupNodeInfo>)
    ensures
        lists_groups(groups_view(r@), spec_initial_groups(layers_view(layer_defs@), assignments@)),
{
    let ghost lv = layers_view(layer_defs@);
    let mut groups: Vec<GroupNodeInfo> = Vec::new();
    let mut i: usize = 0;
    assert(lv.take(0) =~= Seq::<LayerView>::empty());
    while i < layer_defs.len()
        invariant
            i <= layer_defs@.len(),
            lv == layers_view(layer_defs@),
            lists_groups(groups_view(groups@), spec_layer_groups(lv.take(i as int))),
        decreases layer_defs@.len() - i,
    {
        let d = &layer_defs[i];
        let label = if d.description.as_str().is_empty() {
            d.id.clone()
        } else {
            d.description.clone()
        };
        let g = empty_group(d.id.clone(), label.clone(), label);
        proof {
            assert(lv.take(i + 1).drop_last() =~= lv.take(i as int));
            assert(lv[i as int] == d@);
        }
        put_group(&mut groups, g, Ghost(spec_layer_groups(lv.take(i as int))));
        i += 1;
    }
    assert(lv.take(layer_defs@.len() as int) =~= lv);
    let entries = assignments.entries();
    let mut found = false;
    let mut k: usize = 0;
    while k < entries.len()
        invariant
            k <= entries@.len(),
            found ==> spec_has_unassigned(assignments@),
            forall|q: int| 0 <= q < entries@.len() ==> #[trigger] assignments@.contains_key(entries@[q].0@)
                && assignments@[entries@[q].0@] == entries@[q].1@,
            forall|key: Seq<char>| assignments@.contains_key(key) ==> exists|q: int| 0 <= q < entries@.len() && #[trigger] entries@[q].0@ == key,
            !found ==> forall|q: int| 0 <= q < k ==> (#[trigger] entries@[q]).1.layer_id@ != "unassigned"@,
        decreases entries@.len() - k,
    {
        if str_eq(entries[k].1.layer_id.as_str(), "unassigned") {
            proof {
                let key = entries@[k as int].0@;
                assert(assignments@.contains_key(key));
                assert(assignments@[key].layer_id == "unassigned"@);
            }
            found = true;
        }
        k += 1;
    }
    if found {
        let g = empty_group(
            String::from_str("unassigned"),
            String::from_str("Unassigned Nodes"),
            String::from_str("Nodes that could not be mapped to a conceptual layer"),
        );
        put_group(&mut groups, g, Ghost(spec_layer_groups(lv)));
    } else {
        proof {
            if spec_has_unassigned(assignments@) {
                let key = choose|key: Seq<char>| assignments@.contains_key(key) && (#[trigger] assignments@[key]).layer_id == "unassigned"@;
                let q = choose|q: int| 0 <= q < entries@.len() && #[trigger] entries@[q].0@ == key;
                assert(entries@[q].1.layer_id@ != "unassigned"@);
            }
        }
    }
    groups
}

/// Every group's member count is its number of members, and no op type is
/// counted more often than there are members.
pub open spec fn counts_consistent(m: Map<Seq<char>, GroupView>) -> bool {
    forall|k: Seq<char>| #[trigger] m.contains_key(k) ==> {
        &&& m[k].member_count == m[k].members.len()
        &&& forall|op: Seq<char>| #[trigger] m[k].op_type_histogram.contains_key(op)
            ==> m[k].op_type_histogram[op] <= m[k].member_count
    }
}

/// Adding nodes to groups adds no group, keeps each group's id, label and
/// description, keeps the counts consistent, and adds at most one member
/// per node.
proof fn lemma_fill_counts(nodes: Seq<NodeView>, a: Map<Seq<char>, AssignmentView>, groups: Map<Seq<char>, GroupView>)
    requires
        counts_consistent(groups),
    ensures
        spec_fill(nodes, a, groups).dom() == groups.dom(),
        counts_consistent(spec_fill(nodes, a, groups)),
        forall|k: Seq<char>| #[trigger] groups.contains_key(k) ==> {
            let g = spec_fill(nodes, a, groups)[k];
            &&& g.members.len() <= groups[k].members.len() + nodes.len()
            &&& g.id == groups[k].id
            &&& g.label == groups[k].label
            &&& g.description == groups[k].description
        },
    decreases nodes.len(),
{
    if nodes.len() > 0 {
        lemma_fill_counts(nodes.drop_last(), a, groups);
        let prev = spec_fill(nodes.drop_last(), a, groups);
        let n = nodes.last();
        if a.contains_key(n.id) && prev.contains_key(a[n.id].layer_id) {
            let lid = a[n.id].layer_id;
            let g = spec_add_member(prev[lid], n);
            assert(spec_fill(nodes, a, groups) == prev.insert(lid, g));
            assert(spec_fill(nodes, a, groups).dom() =~= groups.dom());
            assert forall|op: Seq<char>| #[trigger] g.op_type_histogram.contains_key(op)
                implies g.op_type_histogram[op] <= g.member_count by {
                if op != n.op_type {
                    assert(prev[lid].op_type_histogram.contains_key(op));
                }
            }
        }
    }
}

/// In the grouped graph every group's member count is its number of
/// members, no op type is counted more often than there are members, no
/// group has more members than there are nodes, and the groups are exactly
/// the layers' groups and, when some node is unassigned, the `unassigned`
/// group.
pub proof fn lemma_group_counts(nodes: Seq<NodeView>, a: Map<Seq<char>, AssignmentView>, defs: Seq<LayerView>)
    ensures
        counts_consistent(spec_groups(nodes, a, defs)),
        spec_groups(nodes, a, defs).dom() == spec_initial_groups(defs, a).dom(),
        forall|k: Seq<char>| #[trigger] spec_groups(nodes, a, defs).contains_key(k)
            ==> spec_groups(nodes, a, defs)[k].members.len() <= nodes.len()
                && spec_groups(nodes, a, defs)[k].id == k,
{
    lemma_initial_empty(defs, a);
    lemma_fill_counts(nodes, a, spec_initial_groups(defs, a));
}

proof fn lemma_initial_empty(defs: Seq<LayerView>, a: Map<Seq<char>, AssignmentView>)
    ensures
        all_empty(spec_initial_groups(defs, a)),
        counts_consistent(spec_initial_groups(defs, a)),
{
    lemma_layer_groups_empty(defs);
}

/// The ids of the nodes assigned to layer `k`, in node order.
pub open spec fn spec_assigned_ids(nodes: Seq<NodeView>, a: Map<Seq<char>, AssignmentView>, k: Seq<char>) -> Seq<
    Seq<char>,
>
    decreases nodes.len(),
{
    if nodes.len() == 0 {
        Seq::empty()
    } else {
        let rest = spec_assigned_ids(nodes.drop_last(), a, k);
        let n = nodes.last();
        if a.contains_key(n.id) && a[n.id].layer_id == k {
            rest.push(n.id)
        } else {
            rest
        }
    }
}

/// How many nodes assigned to layer `k` have op type `op`.
pub open spec fn spec_op_count(
    nodes: Seq<NodeView>,
    a: Map<Seq<char>, AssignmentView>,
    k: Seq<char>,
    op: Seq<char>,
) -> nat
    decreases nodes.len(),
{
    if nodes.len() == 0 {
        0
    } else {
        let rest = spec_op_count(nodes.drop_last(), a, k, op);
        let n = nodes.last();
        if a.contains_key(n.id) && a[n.id].layer_id == k && n.op_type == op {
            rest + 1
        } else {
            rest
        }
    }
}

proof fn lemma_fill_members(nodes: Seq<NodeView>, a: Map<Seq<char>, AssignmentView>, groups: Map<Seq<char>, GroupView>)
    requires
        all_empty(groups),
    ensures
        forall|k: Seq<char>| #[trigger] groups.contains_key(k) ==> {
            let g = spec_fill(nodes, a, groups)[k];
            &&& g.members == spec_assigned_ids(nodes, a, k)
            &&& forall|op: Seq<char>| #[trigger] g.op_type_histogram.contains_key(op)
                <==> spec_op_count(nodes, a, k, op) > 0
            &&& forall|op: Seq<char>| #[trigger] g.op_type_histogram.contains_key(op)
                ==> g.op_type_histogram[op] == spec_op_count(nodes, a, k, op)
        },
    decreases nodes.len(),
{
    if nodes.len() > 0 {
        let rest = nodes.drop_last();
        lemma_fill_members(rest, a, groups);
        lemma_fill_counts(rest, a, groups);
        let prev = spec_fill(rest, a, groups);
        let n = nodes.last();
        assert forall|k: Seq<char>| #[trigger] groups.contains_key(k) implies {
            let g = spec_fill(nodes, a, groups)[k];
            &&& g.members == spec_assigned_ids(nodes, a, k)
            &&& forall|op: Seq<char>| #[trigger] g.op_type_histogram.contains_key(op)
                <==> spec_op_count(nodes, a, k, op) > 0
            &&& forall|op: Seq<char>| #[trigger] g.op_type_histogram.contains_key(op)
                ==> g.op_type_histogram[op] == spec_op_count(nodes, a, k, op)
        } by {
            assert(prev.contains_key(k));
            let g0 = prev[k];
            if a.contains_key(n.id) && a[n.id].layer_id == k {
                let g = spec_add_member(g0, n);
                assert(spec_fill(nodes, a, groups)[k] == g);
                assert forall|op: Seq<char>| #[trigger] g.op_type_histogram.contains_key(op)
                    <==> spec_op_count(nodes, a, k, op) > 0 by {
                    if op != n.op_type {
                        assert(g.op_type_histogram.contains_key(op) == g0.op_type_histogram.contains_key(op));
                    }
                }
                assert forall|op: Seq<char>| #[trigger] g.op_type_histogram.contains_key(op)
                    implies g.op_type_histogram[op] == spec_op_count(nodes, a, k, op) by {
                    if op != n.op_type {
                        assert(g0.op_type_histogram.contains_key(op));
                    }
                }
            } else {
                if a.contains_key(n.id) && prev.contains_key(a[n.id].layer_id) {
                    assert(spec_fill(nodes, a, groups)[k] == g0);
                }
                assert forall|op: Seq<char>| #[trigger] g0.op_type_histogram.contains_key(op)
                    <==> spec_op_count(nodes, a, k, op) > 0 by {
                    assert(spec_op_count(nodes, a, k, op) == spec_op_count(rest, a, k, op));
                }
                assert forall|op: Seq<char>| #[trigger] g0.op_type_histogram.contains_key(op)
                    implies g0.op_type_histogram[op] == spec_op_count(nodes, a, k, op) by {
                    assert(spec_op_count(nodes, a, k, op) == spec_op_count(rest, a, k, op));
                }
            }
        }
    }
}

/// Each group of the grouped graph holds exactly the nodes assigned to its
/// layer, in node order, and counts for each op type exactly those of them
/// with that op type (an op type none of them has is absent).
pub proof fn lemma_group_members(nodes: Seq<NodeView>, a: Map<Seq<char>, AssignmentView>, defs: Seq<LayerView>)
    ensures
        forall|k: Seq<char>| #[trigger] spec_groups(nodes, a, defs).contains_key(k) ==> {
            let g = spec_groups(nodes, a, defs)[k];
            &&& g.members == spec_assigned_ids(nodes, a, k)
            &&& g.member_count == g.members.len()
            &&& forall|op: Seq<char>| #[trigger] g.op_type_histogram.contains_key(op)
                <==> spec_op_count(nodes, a, k, op) > 0
            &&& forall|op: Seq<char>| #[trigger] g.op_type_histogram.contains_key(op)
                ==> g.op_type_histogram[op] == spec_op_count(nodes, a, k, op)
        },
{
    let init = spec_initial_groups(defs, a);
    lemma_initial_empty(defs, a);
    lemma_fill_counts(nodes, a, init);
    lemma_fill_members(nodes, a, init);
}

/// Takes out the group at `p`.
fn take_group(groups: &mut Vec<GroupNodeInfo>, p: usize, Ghost(m): Ghost<Map<Seq<char>, GroupView>>) -> (g: GroupNodeInfo)
    requires
        lists_groups(groups_view(old(groups)@), m),
        p < old(groups)@.len(),
    ensures
        g@ == groups_view(old(groups)@)[p as int],
        m.contains_key(g@.id),
        m[g@.id] == g@,
        lists_groups(groups_view(final(groups)@), m.remove(g@.id)),
{
    let ghost s = groups_view(groups@);
    let g = groups.remove(p);
    proof {
        let t = groups_view(groups@);
        let x = s[p as int];
        let m2 = m.remove(x.id);
        assert(t =~= s.remove(p as int));
        assert forall|i: int, j: int| 0 <= i < j < t.len() implies seq_lt(#[trigger] t[i].id, #[trigger] t[j].id) by {
            if j < p {
                assert(seq_lt(s[i].id, s[j].id));
            } else if i < p {
                assert(seq_lt(s[i].id, s[j + 1].id));
            } else {
                assert(seq_lt(s[i + 1].id, s[j + 1].id));
            }
        }
        assert forall|i: int| 0 <= i < t.len() implies m2.contains_key(#[trigger] t[i].id) && m2[t[i].id] == t[i] by {
            lemma_seq_lt_irreflexive(x.id);
            if i < p {
                assert(t[i] == s[i]);
                assert(seq_lt(s[i].id, s[p as int].id));
            } else {
                assert(t[i] == s[i + 1]);
                assert(seq_lt(s[p as int].id, s[i + 1].id));
            }
        }
        assert forall|k: Seq<char>| #[trigger] m2.contains_key(k) implies exists|i: int| 0 <= i < t.len() && t[i].id == k by {
            let i = choose|i: int| 0 <= i < s.len() && s[i].id == k;
            if i < p {
                assert(t[i].id == k);
            } else {
                assert(t[i - 1].id == k);
            }
        }
    }
    g
}

/// Adds each node, in order, to the group of its layer.
fn add_members(
    groups: &mut Vec<GroupNodeInfo>,
    onnx_nodes: &[OnnxNode],
    assignments: &StrMap<NodeAssignment>,
    Ghost(init): Ghost<Map<Seq<char>, GroupView>>,
)
    requires
        lists_groups(groups_view(old(groups)@), init),
        counts_consistent(init),
        forall|k: Seq<char>| #[trigger] init.contains_key(k) ==> init[k].members.len() == 0,
        onnx_nodes@.len() <= u32::MAX,
    ensures
        lists_groups(groups_view(final(groups)@), spec_fill(nodes_view(onnx_nodes@), assignments@, init)),
{
    let ghost nv = nodes_view(onnx_nodes@);
    let ghost a = assignments@;
    let mut i: usize = 0;
    assert(nv.take(0) =~= Seq::<NodeView>::empty());
    while i < onnx_nodes.len()
        invariant
            i <= onnx_nodes@.len(),
            onnx_nodes@.len() <= u32::MAX,
            nv == nodes_view(onnx_nodes@),
            a == assignments@,
            counts_consistent(init),
            forall|k: Seq<char>| #[trigger] init.contains_key(k) ==> init[k].members.len() == 0,
            lists_groups(groups_view(groups@), spec_fill(nv.take(i as int), a, init)),
        decreases onnx_nodes@.len() - i,
    {
        let node = &onnx_nodes[i];
        let ghost m = spec_fill(nv.take(i as int), a, init);
        proof {
            lemma_fill_counts(nv.take(i as int), a, init);
            assert(nv.take(i + 1).drop_last() =~= nv.take(i as int));
            assert(nv[i as int] == node@);
        }
        match assignments.get(node.id.as_str()) {
            Some(asg) => {
                let lid = chars_of(asg.layer_id.as_str());
                let p = group_slot(groups, &lid);
                if p < groups.len() && groups[p].id == asg.layer_id {
                    let mut g = take_group(groups, p, Ghost(m));
                    let ghost g0 = g@;
                    proof {
                        assert(g0 == m[asg.layer_id@]);
                        assert(m.contains_key(g0.id));
                    }
                    g.members.push(node.id.clone());
                    g.member_count = g.member_count + 1;
                    let c: u32 = match g.op_type_histogram.get(node.op_type.as_str()) {
                        Some(v) => {
                            proof {
                                assert(g0.op_type_histogram.contains_key(node.op_type@));
                            }
                            *v + 1
                        },
                        None => 1,
                    };
                    g.op_type_histogram.insert(node.op_type.clone(), c);
                    proof {
                        assert(g@.members =~= g0.members.push(node.id@));
                        assert(g@.op_type_histogram =~= spec_add_member(g0, node@).op_type_histogram);
                        assert(g@ == spec_add_member(g0, node@));
                    }
                    put_group(groups, g, Ghost(m.remove(g0.id)));
                    proof {
                        assert(m.remove(g0.id).insert(g0.id, spec_add_member(g0, node@)) =~= m.insert(
                            g0.id,
                            spec_add_member(g0, node@),
                        ));
                    }
                } else {
                    proof {
                        let s = groups_view(groups@);
                        lemma_above_slot(s, p as int, lid@);
                        if m.contains_key(lid@) {
                            let q = choose|q: int| 0 <= q < s.len() && s[q].id == lid@;
                            lemma_seq_lt_irreflexive(lid@);
                            if q < p {
                                assert(seq_lt(groups@[q].id@, lid@));
                            }
                        }
                    }
                }
            },
            None => {},
        }
        i += 1;
    }
    assert(nv.take(onnx_nodes@.len() as int) =~= nv);
}

/// The layer edges into the nodes, strictly increasing.
fn layer_edges(onnx_nodes: &[OnnxNode], assignments: &StrMap<NodeAssignment>, producers: &StrMap<String>) -> (r: Vec<Edge>)
    ensures
        lists_edges(edges_view(r@), spec_edge_set(nodes_view(onnx_nodes@), assignments@, producers@)),
{
    let ghost nv = nodes_view(onnx_nodes@);
    let ghost a = assignments@;
    let ghost pm = producers@;
    let mut edges: Vec<Edge> = Vec::new();
    let mut i: usize = 0;
    assert(nv.take(0) =~= Seq::<NodeView>::empty());
    assert(edges_view(edges@) =~= Seq::<(Seq<char>, Seq<char>)>::empty());
    while i < onnx_nodes.len()
        invariant
            i <= onnx_nodes@.len(),
            nv == nodes_view(onnx_nodes@),
            a == assignments@,
            pm == producers@,
            lists_edges(edges_view(edges@), spec_edge_set(nv.take(i as int), a, pm)),
        decreases onnx_nodes@.len() - i,
    {
        let node = &onnx_nodes[i];
        let ghost base = spec_edge_set(nv.take(i as int), a, pm);
        proof {
            assert(nv.take(i + 1).drop_last() =~= nv.take(i as int));
            assert(nv[i as int] == node@);
        }
        match assignments.get(node.id.as_str()) {
            Some(dst_asg) => {
                let ghost dst = dst_asg.layer_id@;
                let ghost iv = strs(node.inputs@);
                let mut j: usize = 0;
                assert(base.union(spec_input_edges(iv.take(0), dst, a, pm)) =~= base);
                while j < node.inputs.len()
                    invariant
                        j <= node.inputs@.len(),
                        iv == strs(node.inputs@),
                        dst == dst_asg.layer_id@,
                        a == assignments@,
                        pm == producers@,
                        lists_edges(edges_view(edges@), base.union(spec_input_edges(iv.take(j as int), dst, a, pm))),
                    decreases node.inputs@.len() - j,
                {
                    let ghost cur = base.union(spec_input_edges(iv.take(j as int), dst, a, pm));
                    proof {
                        assert(iv.take(j + 1).drop_last() =~= iv.take(j as int));
                        assert(iv[j as int] == node.inputs@[j as int]@);
                    }
                    match producers.get(node.inputs[j].as_str()) {
                        Some(src_id) => match assignments.get(src_id.as_str()) {
                            Some(src_asg) => {
                                if !(src_asg.layer_id == dst_asg.layer_id) {
                                    let e = Edge { source: src_asg.layer_id.clone(), target: dst_asg.layer_id.clone() };
                                    let ghost x = e@;
                                    put_edge(&mut edges, e, Ghost(cur));
                                    proof {
                                        assert(base.union(spec_input_edges(iv.take(j as int), dst, a, pm).insert(x)) =~= cur.insert(x));
                                    }
                                }
                            },
                            None => {},
                        },
                        None => {},
                    }
                    j += 1;
                }
                proof {
                    assert(iv.take(node.inputs@.len() as int) =~= iv);
                }
            },
            None => {
                proof {
                    assert(base.union(Set::empty()) =~= base);
                }
            },
        }
        i += 1;
    }
    assert(nv.take(onnx_nodes@.len() as int) =~= nv);
    edges
}

/// Groups the ONNX nodes by the conceptual layer they are assigned to, and
/// collects the edges between layers.
///
/// There is one group per layer id (labelled by the layer's description,
/// or its id when that is empty) and, when some node is assigned to
/// `unassigned`, one `unassigned` group; each node with an assignment joins
/// the group of its layer, in node order.  There is an edge from layer `s`
/// to a different layer `t` when a node assigned to `t` reads a tensor
/// whose producer (the last node listing it as an output) is assigned to
/// `s`.  Groups come ordered by id and edges by `(source, target)`, each
/// once.
pub fn build_grouped_graph(
    onnx_nodes: &[OnnxNode],
    assignments: &StrMap<NodeAssignment>,
    layer_defs: &[LayerDef],
) -> (r: GroupedGraph)
    requires
        onnx_nodes@.len() <= u32::MAX,
    ensures
        lists_groups(
            groups_view(r.group_nodes@),
            spec_groups(nodes_view(onnx_nodes@), assignments@, layers_view(layer_defs@)),
        ),
        lists_edges(edges_view(r.group_edges@), spec_edges(nodes_view(onnx_nodes@), assignments@)),
{
    let producers = producer_map(onnx_nodes);
    let mut groups = initial_groups(layer_defs, assignments);
    let ghost init = spec_initial_groups(layers_view(layer_defs@), assignments@);
    proof {
        lemma_initial_empty(layers_view(layer_defs@), assignments@);
    }
    add_members(&mut groups, onnx_nodes, assignments, Ghost(init));
    let edges = layer_edges(onnx_nodes, assignments, &producers);
    GroupedGraph { group_nodes: groups, group_edges: edges }
}

// ─── Laws ───────────────────────────────────────────────────────────────────

/// Tensor `t`'s producer is assigned to layer `src`.
pub open spec fn spec_feeds(
    src: Seq<char>,
    t: Seq<char>,
    a: Map<Seq<char>, AssignmentView>,
    producers: Map<Seq<char>, Seq<char>>,
) -> bool {
    producers.contains_key(t) && a.contains_key(producers[t]) && a[producers[t]].layer_id == src
}

proof fn lemma_input_edges_iff(
    inputs: Seq<Seq<char>>,
    dst: Seq<char>,
    a: Map<Seq<char>, AssignmentView>,
    producers: Map<Seq<char>, Seq<char>>,
    e: (Seq<char>, Seq<char>),
)
    ensures
        spec_input_edges(inputs, dst, a, producers).contains(e) <==> e.1 == dst && e.0 != dst
            && exists|k: int| 0 <= k < inputs.len() && spec_feeds(e.0, #[trigger] inputs[k], a, producers),
    decreases inputs.len(),
{
    if inputs.len() > 0 {
        let rest = inputs.drop_last();
        lemma_input_edges_iff(rest, dst, a, producers, e);
        if exists|k: int| 0 <= k < rest.len() && spec_feeds(e.0, #[trigger] rest[k], a, producers) {
            let k = choose|k: int| 0 <= k < rest.len() && spec_feeds(e.0, #[trigger] rest[k], a, producers);
            assert(inputs[k] == rest[k]);
        }
        if exists|k: int| 0 <= k < inputs.len() && spec_feeds(e.0, #[trigger] inputs[k], a, producers) {
            let k = choose|k: int| 0 <= k < inputs.len() && spec_feeds(e.0, #[trigger] inputs[k], a, producers);
            if k < rest.len() {
                assert(rest[k] == inputs[k]);
            }
        }
    }
}

proof fn lemma_edge_set_iff(
    nodes: Seq<NodeView>,
    a: Map<Seq<char>, AssignmentView>,
    producers: Map<Seq<char>, Seq<char>>,
    src: Seq<char>,
    dst: Seq<char>,
)
    ensures
        spec_edge_set(nodes, a, producers).contains((src, dst)) <==> src != dst && exists|i: int, k: int|
            0 <= i < nodes.len() && 0 <= k < nodes[i].inputs.len() && a.contains_key(nodes[i].id)
                && a[nodes[i].id].layer_id == dst && spec_feeds(src, #[trigger] nodes[i].inputs[k], a, producers),
    decreases nodes.len(),
{
    if nodes.len() > 0 {
        let rest = nodes.drop_last();
        let n = nodes.last();
        lemma_edge_set_iff(rest, a, producers, src, dst);
        if a.contains_key(n.id) {
            lemma_input_edges_iff(n.inputs, a[n.id].layer_id, a, producers, (src, dst));
        }
        if exists|i: int, k: int|
            0 <= i < rest.len() && 0 <= k < rest[i].inputs.len() && a.contains_key(rest[i].id)
                && a[rest[i].id].layer_id == dst && spec_feeds(src, #[trigger] rest[i].inputs[k], a, producers) {
            let (i, k) = choose|i: int, k: int|
                0 <= i < rest.len() && 0 <= k < rest[i].inputs.len() && a.contains_key(rest[i].id)
                    && a[rest[i].id].layer_id == dst && spec_feeds(src, #[trigger] rest[i].inputs[k], a, producers);
            assert(nodes[i] == rest[i]);
            assert(spec_feeds(src, nodes[i].inputs[k], a, producers));
        }
        if a.contains_key(n.id) && a[n.id].layer_id == dst && exists|k: int|
            0 <= k < n.inputs.len() && spec_feeds(src, #[trigger] n.inputs[k], a, producers) {
            let k = choose|k: int| 0 <= k < n.inputs.len() && spec_feeds(src, #[trigger] n.inputs[k], a, producers);
            assert(nodes[nodes.len() - 1] == n);
            assert(spec_feeds(src, nodes[nodes.len() - 1].inputs[k], a, producers));
        }
        if exists|i: int, k: int|
            0 <= i < nodes.len() && 0 <= k < nodes[i].inputs.len() && a.contains_key(nodes[i].id)
                && a[nodes[i].id].layer_id == dst && spec_feeds(src, #[trigger] nodes[i].inputs[k], a, producers) {
            let (i, k) = choose|i: int, k: int|
                0 <= i < nodes.len() && 0 <= k < nodes[i].inputs.len() && a.contains_key(nodes[i].id)
                    && a[nodes[i].id].layer_id == dst && spec_feeds(src, #[trigger] nodes[i].inputs[k], a, producers);
            if i < rest.len() {
                assert(rest[i] == nodes[i]);
                assert(spec_feeds(src, rest[i].inputs[k], a, producers));
            } else {
                assert(nodes[i] == n);
                assert(spec_feeds(src, n.inputs[k], a, producers));
            }
        }
    }
}

/// The grouped graph has an edge from `src` to `dst` exactly when the two
/// layers differ and some node assigned to `dst` reads a tensor whose
/// producer is assigned to `src`.
pub proof fn lemma_edge_iff(nodes: Seq<NodeView>, a: Map<Seq<char>, AssignmentView>, src: Seq<char>, dst: Seq<char>)
    ensures
        spec_edges(nodes, a).contains((src, dst)) <==> src != dst && exists|i: int, k: int|
            0 <= i < nodes.len() && 0 <= k < nodes[i].inputs.len() && a.contains_key(nodes[i].id)
                && a[nodes[i].id].layer_id == dst && spec_feeds(src, #[trigger] nodes[i].inputs[k], a, spec_producers(nodes)),
{
    lemma_edge_set_iff(nodes, a, spec_producers(nodes), src, dst);
}

/// A tensor has a producer exactly when some node lists it as an output,
/// and the producer is the last such node.
pub proof fn lemma_producer_is_last(nodes: Seq<NodeView>, t: Seq<char>)
    ensures
        spec_producers(nodes).contains_key(t) <==> exists|i: int| 0 <= i < nodes.len() && (#[trigger] nodes[i]).outputs.contains(t),
        spec_producers(nodes).contains_key(t) ==> exists|i: int| 0 <= i < nodes.len() && (#[trigger] nodes[i]).outputs.contains(t)
            && spec_producers(nodes)[t] == nodes[i].id
            && forall|j: int| i < j < nodes.len() ==> !(#[trigger] nodes[j]).outputs.contains(t),
    decreases nodes.len(),
{
    if nodes.len() > 0 {
        let rest = nodes.drop_last();
        let n = nodes.last();
        lemma_producer_is_last(rest, t);
        let last = nodes.len() - 1;
        assert(nodes[last] == n);
        if n.outputs.contains(t) {
            assert(spec_outputs_of(n.outputs, n.id).contains_key(t));
        } else {
            assert(!spec_outputs_of(n.outputs, n.id).contains_key(t));
            if spec_producers(rest).contains_key(t) {
                let i = choose|i: int| 0 <= i < rest.len() && (#[trigger] rest[i]).outputs.contains(t)
                    && spec_producers(rest)[t] == rest[i].id
                    && forall|j: int| i < j < rest.len() ==> !(#[trigger] rest[j]).outputs.contains(t);
                assert(nodes[i] == rest[i]);
                assert forall|j: int| i < j < nodes.len() implies !(#[trigger] nodes[j]).outputs.contains(t) by {
                    if j < last {
                        assert(nodes[j] == rest[j]);
                    }
                }
            }
            if exists|i: int| 0 <= i < nodes.len() && (#[trigger] nodes[i]).outputs.contains(t) {
                let i = choose|i: int| 0 <= i < nodes.len() && (#[trigger] nodes[i]).outputs.contains(t);
                assert(rest[i] == nodes[i]);
            }
        }
        if exists|i: int| 0 <= i < rest.len() && (#[trigger] rest[i]).outputs.contains(t) {
            let i = choose|i: int| 0 <= i < rest.len() && (#[trigger] rest[i]).outputs.contains(t);
            assert(nodes[i] == rest[i]);
        }
    }
}

/// The id of the group the last layer with `defs[i]`'s id describes: no
/// later layer has the same id.
pub open spec fn last_with_id(defs: Seq<LayerView>, i: int) -> bool {
    0 <= i < defs.len() && forall|j: int| i < j < defs.len() ==> (#[trigger] defs[j]).id != defs[i].id
}

proof fn lemma_layer_groups_labels(defs: Seq<LayerView>)
    ensures
        forall|i: int| #[trigger] last_with_id(defs, i) ==> {
            let g = spec_layer_groups(defs)[defs[i].id];
            &&& spec_layer_groups(defs).contains_key(defs[i].id)
            &&& g.label == g.description
            &&& g.description == (if defs[i].description.len() == 0 {
                defs[i].id
            } else {
                defs[i].description
            })
        },
    decreases defs.len(),
{
    if defs.len() > 0 {
        let r = defs.drop_last();
        lemma_layer_groups_labels(r);
        assert forall|i: int| #[trigger] last_with_id(defs, i) implies {
            let g = spec_layer_groups(defs)[defs[i].id];
            &&& spec_layer_groups(defs).contains_key(defs[i].id)
            &&& g.label == g.description
            &&& g.description == (if defs[i].description.len() == 0 {
                defs[i].id
            } else {
                defs[i].description
            })
        } by {
            if i < defs.len() - 1 {
                assert(r[i] == defs[i]);
                assert(defs[defs.len() - 1].id != defs[i].id);
                assert forall|j: int| i < j < r.len() implies (#[trigger] r[j]).id != r[i].id by {
                    assert(r[j] == defs[j]);
                }
                assert(last_with_id(r, i));
            }
        }
    }
}

/// Every layer's group (for the last layer with a given id, unless the
/// `unassigned` group takes that id) is labelled and described by the
/// layer's description, or by the layer's id when the description is
/// empty; the `unassigned` group, when some node is unassigned, has its
/// fixed label and description.
pub proof fn lemma_layer_group_labels(nodes: Seq<NodeView>, a: Map<Seq<char>, AssignmentView>, defs: Seq<LayerView>)
    ensures
        forall|i: int| #[trigger] last_with_id(defs, i) && (defs[i].id != "unassigned"@ || !spec_has_unassigned(a)) ==> {
            let g = spec_groups(nodes, a, defs)[defs[i].id];
            &&& spec_groups(nodes, a, defs).contains_key(defs[i].id)
            &&& g.id == defs[i].id
            &&& g.label == g.description
            &&& g.description == (if defs[i].description.len() == 0 {
                defs[i].id
            } else {
                defs[i].description
            })
        },
        spec_has_unassigned(a) ==> {
            let g = spec_groups(nodes, a, defs)["unassigned"@];
            &&& spec_groups(nodes, a, defs).contains_key("unassigned"@)
            &&& g.label == "Unassigned Nodes"@
            &&& g.description == "Nodes that could not be mapped to a conceptual layer"@
        },
{
    let init = spec_initial_groups(defs, a);
    lemma_initial_empty(defs, a);
    lemma_layer_groups_labels(defs);
    lemma_fill_counts(nodes, a, init);
    assert forall|i: int| #[trigger] last_with_id(defs, i) && (defs[i].id != "unassigned"@ || !spec_has_unassigned(a)) implies {
        let g = spec_groups(nodes, a, defs)[defs[i].id];
        &&& spec_groups(nodes, a, defs).contains_key(defs[i].id)
        &&& g.id == defs[i].id
        &&& g.label == g.description
        &&& g.description == (if defs[i].description.len() == 0 {
            defs[i].id
        } else {
            defs[i].description
        })
    } by {
        let k = defs[i].id;
        assert(init.contains_key(k));
        assert(init[k] == spec_layer_groups(defs)[k]);
    }
    if spec_has_unassigned(a) {
        assert(init.contains_key("unassigned"@));
    }
}

} // verus!
