//! The graph engine: nodes with property bags, labeled edges, and the
//! reverse-edge index that mirrors the forward adjacency.
//!
//! All three indices are sorted association vectors (see [`crate::assoc`]).
//! `Graph::wf` is the well-formedness invariant every operation preserves:
//! edge endpoints are live nodes, label sets are non-empty and free of
//! duplicates, the forward and reverse indices are exact mirrors of each
//! other, and every allocated id stays at or below the allocation counter,
//! so fresh ids never collide with old ones.

use vstd::prelude::*;

use crate::assoc::{afind, aget, ahas, aidx, ainsert, akeys, atake, lemma_aidx, sorted_keys,
    sset_contains, sset_insert, sset_remove};
use crate::errors::GraphError;

verus! {

/// A node: its id and its property bag, a string-to-string mapping kept
/// as pairs in insertion order with pairwise distinct keys.
#[derive(Debug)]
pub struct Node {
    pub id: usize,
    pub props: Vec<(String, String)>,
}

/// The relationship between one ordered pair of nodes: a non-empty set of
/// labels, kept in insertion order without duplicates.
#[derive(Debug)]
pub struct Edge {
    pub labels: Vec<String>,
}

/// A directed, labeled multigraph: at most one [`Edge`] per ordered pair
/// of node ids, with the labels on that edge standing for the individual
/// relationships.
#[derive(Debug)]
pub struct Graph {
    /// The live nodes, sorted by strictly ascending id.
    pub nodes: Vec<Node>,
    /// Forward adjacency: origin id to destination id to edge, both
    /// levels sorted by strictly ascending id, no empty inner level.
    pub edges: Vec<(usize, Vec<(usize, Edge)>)>,
    /// Reverse adjacency: destination id to the sorted, non-empty set of
    /// origin ids that point at it; an exact mirror of `edges`.
    pub reverse_edges: Vec<(usize, Vec<usize>)>,
    /// The largest id ever allocated; ids are handed out as
    /// `max_node_id + 1` and never reused within a session.
    pub max_node_id: usize,
}

/// A property bag after one key is set: the pair is replaced in place
/// when the key is present, appended otherwise.
pub open spec fn spec_set_prop(
    ps: Seq<(Seq<char>, Seq<char>)>,
    key: Seq<char>,
    value: Seq<char>,
) -> Seq<(Seq<char>, Seq<char>)> {
    if exists|i: int| 0 <= i < ps.len() && (#[trigger] ps[i]).0 == key {
        ps.update(choose|i: int| 0 <= i < ps.len() && (#[trigger] ps[i]).0 == key, (key, value))
    } else {
        ps.push((key, value))
    }
}

impl Node {
    /// The property bag as a sequence of key/value character sequences.
    pub open spec fn props_model(self) -> Seq<(Seq<char>, Seq<char>)> {
        self.props@.map_values(|p: (String, String)| (p.0@, p.1@))
    }

    /// Property keys are pairwise distinct.
    pub open spec fn wf(self) -> bool {
        forall|i: int, j: int|
            0 <= i < j < self.props@.len() ==> (#[trigger] self.props@[i]).0@ != (
            #[trigger] self.props@[j]).0@
    }

    /// Whether the bag holds exactly the pair `(key, value)`.
    pub open spec fn spec_has_prop(self, key: Seq<char>, value: Seq<char>) -> bool {
        exists|i: int|
            0 <= i < self.props@.len() && (#[trigger] self.props@[i]).0@ == key
                && self.props@[i].1@ == value
    }

    /// Whether the bag holds `key` under any value.
    pub open spec fn spec_has_key(self, key: Seq<char>) -> bool {
        exists|i: int| 0 <= i < self.props@.len() && (#[trigger] self.props@[i]).0@ == key
    }

    /// Membership test for an exact key/value pair.
    #[verifier::loop_isolation(false)]
    pub fn has_prop(&self, key: &String, value: &String) -> (r: bool)
        ensures
            r == self.spec_has_prop(key@, value@),
    {
        let mut i: usize = 0;
        while i < self.props.len()
            invariant
                i <= self.props@.len(),
                forall|j: int|
                    0 <= j < i ==> !((#[trigger] self.props@[j]).0@ == key@ && self.props@[j].1@
                        == value@),
            decreases self.props@.len() - i,
        {
            if self.props[i].0.eq(key) && self.props[i].1.eq(value) {
                return true;
            }
            i += 1;
        }
        false
    }

    /// Property bags are equal as mappings: same key/value pairs,
    /// whatever the storage order.
    pub open spec fn same_props(self, other: Node) -> bool {
        forall|k: Seq<char>, v: Seq<char>|
            #[trigger] self.spec_has_prop(k, v) <==> other.spec_has_prop(k, v)
    }

    /// Order-independent equality of two property bags.
    #[verifier::loop_isolation(false)]
    pub fn props_match(&self, other: &Node) -> (r: bool)
        ensures
            r == self.same_props(*other),
    {
        let mut i: usize = 0;
        while i < self.props.len()
            invariant
                i <= self.props@.len(),
                forall|j: int| 0 <= j < i ==> other.spec_has_prop(
                    (#[trigger] self.props@[j]).0@,
                    self.props@[j].1@,
                ),
            decreases self.props@.len() - i,
        {
            if !other.has_prop(&self.props[i].0, &self.props[i].1) {
                proof {
                    assert(self.spec_has_prop(
                        self.props@[i as int].0@,
                        self.props@[i as int].1@,
                    ));
                }
                return false;
            }
            i += 1;
        }
        let mut i: usize = 0;
        while i < other.props.len()
            invariant
                i <= other.props@.len(),
                forall|j: int| 0 <= j < self.props@.len() ==> other.spec_has_prop(
                    (#[trigger] self.props@[j]).0@,
                    self.props@[j].1@,
                ),
                forall|j: int| 0 <= j < i ==> self.spec_has_prop(
                    (#[trigger] other.props@[j]).0@,
                    other.props@[j].1@,
                ),
            decreases other.props@.len() - i,
        {
            if !self.has_prop(&other.props[i].0, &other.props[i].1) {
                proof {
                    assert(other.spec_has_prop(
                        other.props@[i as int].0@,
                        other.props@[i as int].1@,
                    ));
                }
                return false;
            }
            i += 1;
        }
        proof {
            assert forall|k: Seq<char>, v: Seq<char>| #[trigger] self.spec_has_prop(k, v) implies
                other.spec_has_prop(k, v) by {
                let w = choose|w: int|
                    0 <= w < self.props@.len() && (#[trigger] self.props@[w]).0@ == k
                        && self.props@[w].1@ == v;
            }
            assert forall|k: Seq<char>, v: Seq<char>| other.spec_has_prop(k, v) implies
                #[trigger] self.spec_has_prop(k, v) by {
                let w = choose|w: int|
                    0 <= w < other.props@.len() && (#[trigger] other.props@[w]).0@ == k
                        && other.props@[w].1@ == v;
            }
        }
        true
    }
}

impl Edge {
    /// The labels as a sequence of character sequences.
    pub open spec fn labels_model(self) -> Seq<Seq<char>> {
        self.labels@.map_values(|l: String| l@)
    }

    /// At least one label, and no label twice.
    pub open spec fn wf(self) -> bool {
        &&& self.labels@.len() > 0
        &&& forall|i: int, j: int|
            0 <= i < j < self.labels@.len() ==> (#[trigger] self.labels@[i])@ != (
            #[trigger] self.labels@[j])@
    }

    /// Whether `label` is one of the edge's labels.
    pub open spec fn spec_has_label(self, label: Seq<char>) -> bool {
        self.labels_model().contains(label)
    }

    /// Membership test for a label.
    #[verifier::loop_isolation(false)]
    pub fn has_label(&self, label: &str) -> (r: bool)
        ensures
            r == self.spec_has_label(label@),
    {
        let needle = label.to_owned();
        let mut i: usize = 0;
        while i < self.labels.len()
            invariant
                i <= self.labels@.len(),
                forall|j: int| 0 <= j < i ==> (#[trigger] self.labels@[j])@ != label@,
            decreases self.labels@.len() - i,
        {
            if self.labels[i].eq(&needle) {
                proof {
                    assert(self.labels_model()[i as int] == label@);
                }
                return true;
            }
            i += 1;
        }
        proof {
            assert forall|j: int| 0 <= j < self.labels_model().len() implies #[trigger] self
                .labels_model()[j] != label@ by {
                assert(self.labels_model()[j] == self.labels@[j]@);
            }
        }
        false
    }

    /// The label set after adding `label`: unchanged when already present,
    /// else the label appended.
    pub open spec fn spec_add_label(ls: Seq<Seq<char>>, label: Seq<char>) -> Seq<Seq<char>> {
        if ls.contains(label) {
            ls
        } else {
            ls.push(label)
        }
    }

    /// Adds `label` unless it is already there; adding twice is a no-op,
    /// never an error.
    pub fn add_label(&mut self, label: &str)
        requires
            old(self).wf(),
        ensures
            final(self).wf(),
            final(self).labels_model() == Edge::spec_add_label(old(self).labels_model(), label@),
    {
        if !self.has_label(label) {
            let ghost ls0 = self.labels_model();
            self.labels.push(label.to_owned());
            proof {
                assert(self.labels_model() =~= ls0.push(label@));
                assert forall|i: int, j: int| 0 <= i < j < self.labels@.len() implies (
                #[trigger] self.labels@[i])@ != (#[trigger] self.labels@[j])@ by {
                    if j == self.labels@.len() - 1 {
                        assert(ls0[i] == self.labels@[i]@);
                        assert(!ls0.contains(label@));
                    }
                }
            }
        }
    }

    /// Label sets are equal as sets: order of insertion never matters.
    pub open spec fn same_labels(self, other: Edge) -> bool {
        forall|l: Seq<char>| #[trigger] self.spec_has_label(l) <==> other.spec_has_label(l)
    }

    /// Order-independent equality of two label sets.
    #[verifier::loop_isolation(false)]
    pub fn labels_match(&self, other: &Edge) -> (r: bool)
        ensures
            r == self.same_labels(*other),
    {
        let mut i: usize = 0;
        while i < self.labels.len()
            invariant
                i <= self.labels@.len(),
                forall|j: int| 0 <= j < i ==> other.spec_has_label((#[trigger] self.labels@[j])@),
            decreases self.labels@.len() - i,
        {
            if !other.has_label(self.labels[i].as_str()) {
                proof {
                    assert(self.labels_model()[i as int] == self.labels@[i as int]@);
                    assert(self.spec_has_label(self.labels@[i as int]@));
                }
                return false;
            }
            i += 1;
        }
        let mut i: usize = 0;
        while i < other.labels.len()
            invariant
                i <= other.labels@.len(),
                forall|j: int| 0 <= j < self.labels@.len() ==> other.spec_has_label(
                    (#[trigger] self.labels@[j])@,
                ),
                forall|j: int| 0 <= j < i ==> self.spec_has_label((#[trigger] other.labels@[j])@),
            decreases other.labels@.len() - i,
        {
            if !self.has_label(other.labels[i].as_str()) {
                proof {
                    assert(other.labels_model()[i as int] == other.labels@[i as int]@);
                    assert(other.spec_has_label(other.labels@[i as int]@));
                }
                return false;
            }
            i += 1;
        }
        proof {
            assert forall|l: Seq<char>| #[trigger] self.spec_has_label(l) implies other
                .spec_has_label(l) by {
                let w = choose|w: int| 0 <= w < self.labels_model().len()
                    && self.labels_model()[w] == l;
                assert(self.labels@[w]@ == l);
            }
            assert forall|l: Seq<char>| other.spec_has_label(l) implies #[trigger] self
                .spec_has_label(l) by {
                let w = choose|w: int| 0 <= w < other.labels_model().len()
                    && other.labels_model()[w] == l;
                assert(other.labels@[w]@ == l);
            }
        }
        true
    }

    /// A deep copy carrying the same labels.
    #[verifier::loop_isolation(false)]
    pub fn duplicate(&self) -> (r: Edge)
        ensures
            r.labels@ == self.labels@,
    {
        let mut labels: Vec<String> = Vec::new();
        let mut i: usize = 0;
        while i < self.labels.len()
            invariant
                i <= self.labels@.len(),
                labels@ =~= self.labels@.take(i as int),
            decreases self.labels@.len() - i,
        {
            labels.push(self.labels[i].clone());
            i += 1;
        }
        proof {
            assert(labels@ =~= self.labels@);
        }
        Edge { labels }
    }
}

impl Graph {
    /// The ids of the live nodes, in storage (ascending) order.
    pub open spec fn node_ids(self) -> Seq<usize> {
        self.nodes@.map_values(|n: Node| n.id)
    }

    /// Whether `id` is a live node.
    pub open spec fn spec_has_node(self, id: usize) -> bool {
        self.node_ids().contains(id)
    }

    /// The position of the node with id `id`.
    pub open spec fn node_idx(self, id: usize) -> int {
        choose|i: int| 0 <= i < self.nodes@.len() && (#[trigger] self.nodes@[i]).id == id
    }

    /// The node stored under `id`.
    pub open spec fn spec_node(self, id: usize) -> Node {
        self.nodes@[self.node_idx(id)]
    }

    /// Whether an edge exists for the ordered pair `(o, d)`.
    pub open spec fn spec_has_edge(self, o: usize, d: usize) -> bool {
        ahas(self.edges@, o) && ahas(aget(self.edges@, o)@, d)
    }

    /// The edge stored for `(o, d)`.
    pub open spec fn spec_edge(self, o: usize, d: usize) -> Edge {
        aget(aget(self.edges@, o)@, d)
    }

    /// The labels on the edge for `(o, d)`.
    pub open spec fn spec_edge_labels(self, o: usize, d: usize) -> Seq<Seq<char>> {
        self.spec_edge(o, d).labels_model()
    }

    /// The labels on `(o, d)`, or the empty sequence when no edge exists.
    pub open spec fn spec_labels_or_empty(self, o: usize, d: usize) -> Seq<Seq<char>> {
        if self.spec_has_edge(o, d) {
            self.spec_edge_labels(o, d)
        } else {
            Seq::empty()
        }
    }

    /// Whether the reverse index records `o` among the origins of `d`.
    pub open spec fn spec_rev_has(self, d: usize, o: usize) -> bool {
        ahas(self.reverse_edges@, d) && aget(self.reverse_edges@, d)@.contains(o)
    }

    /// Node ids are strictly ascending, property keys are distinct, and
    /// no id exceeds the allocation counter, so fresh ids never collide.
    pub open spec fn nodes_wf(self) -> bool {
        &&& sorted_keys(self.node_ids())
        &&& forall|i: int|
            0 <= i < self.nodes@.len() ==> (#[trigger] self.nodes@[i]).wf() && self.nodes@[i].id
                <= self.max_node_id
    }

    /// One forward adjacency row: sorted, non-empty, all destinations
    /// live, all edges well-formed.
    pub open spec fn edge_row_wf(self, row: Vec<(usize, Edge)>) -> bool {
        &&& row@.len() > 0
        &&& sorted_keys(akeys(row@))
        &&& forall|d: usize|
            #[trigger] ahas(row@, d) ==> self.spec_has_node(d) && aget(row@, d).wf()
    }

    /// The forward adjacency is sorted and every origin is a live node
    /// with a well-formed row.
    pub open spec fn edges_wf(self) -> bool {
        &&& sorted_keys(akeys(self.edges@))
        &&& forall|o: usize|
            #[trigger] ahas(self.edges@, o) ==> self.spec_has_node(o) && self.edge_row_wf(
                aget(self.edges@, o),
            )
    }

    /// The reverse adjacency is sorted with non-empty, sorted origin sets.
    pub open spec fn reverse_wf(self) -> bool {
        &&& sorted_keys(akeys(self.reverse_edges@))
        &&& forall|d: usize|
            #[trigger] ahas(self.reverse_edges@, d) ==> aget(self.reverse_edges@, d)@.len() > 0
                && sorted_keys(aget(self.reverse_edges@, d)@)
    }

    /// The mirror invariant: the forward index records `(o, d)` exactly
    /// when the reverse index records `o` among the origins of `d`.
    pub open spec fn mirror_wf(self) -> bool {
        forall|o: usize, d: usize|
            #![trigger self.spec_has_edge(o, d)]
            #![trigger self.spec_rev_has(d, o)]
            self.spec_has_edge(o, d) <==> self.spec_rev_has(d, o)
    }

    /// The graph invariant, preserved by every operation.
    pub open spec fn wf(self) -> bool {
        &&& self.nodes_wf()
        &&& self.edges_wf()
        &&& self.reverse_wf()
        &&& self.mirror_wf()
    }

    /// With sorted ids, a node's position is the one `node_idx` names.
    pub proof fn lemma_node_at(self, id: usize, i: int)
        requires
            sorted_keys(self.node_ids()),
            0 <= i < self.nodes@.len(),
            self.nodes@[i].id == id,
        ensures
            self.spec_has_node(id),
            self.node_idx(id) == i,
            self.spec_node(id) == self.nodes@[i],
    {
        assert(self.node_ids()[i] == id);
        let j = self.node_idx(id);
        assert(0 <= j < self.nodes@.len() && self.nodes@[j].id == id);
        if i != j {
            assert(self.node_ids()[j] == id);
            if i < j {
                assert(self.node_ids()[i] < self.node_ids()[j]);
            } else {
                assert(self.node_ids()[j] < self.node_ids()[i]);
            }
            assert(false);
        }
    }

    /// Everything but `nodes_wf` survives a change that keeps the edge
    /// indices and loses no live node.
    pub proof fn lemma_wf_more_nodes(g1: Graph, g2: Graph)
        requires
            g1.edges_wf(),
            g1.reverse_wf(),
            g1.mirror_wf(),
            g2.edges == g1.edges,
            g2.reverse_edges == g1.reverse_edges,
            forall|id: usize| #[trigger] g1.spec_has_node(id) ==> g2.spec_has_node(id),
        ensures
            g2.edges_wf(),
            g2.reverse_wf(),
            g2.mirror_wf(),
    {
        assert forall|o: usize| #[trigger] ahas(g2.edges@, o) implies g2.spec_has_node(o)
            && g2.edge_row_wf(aget(g2.edges@, o)) by {
            assert(ahas(g1.edges@, o));
            let row = aget(g1.edges@, o);
            assert(g1.edge_row_wf(row));
            assert forall|d: usize| #[trigger] ahas(row@, d) implies g2.spec_has_node(d) && aget(
                row@,
                d,
            ).wf() by {
                assert(g1.spec_has_node(d));
            }
        }
        assert forall|o: usize, d: usize| #[trigger] g2.spec_has_edge(o, d) implies g2.spec_rev_has(
            d,
            o,
        ) by {
            assert(g1.spec_has_edge(o, d));
        }
        assert forall|o: usize, d: usize| #[trigger] g2.spec_rev_has(d, o) implies g2.spec_has_edge(
            o,
            d,
        ) by {
            assert(g1.spec_rev_has(d, o));
        }
    }

    /// Creates a new graph with no nodes or edges.
    pub fn new() -> (g: Graph)
        ensures
            g.wf(),
            g.nodes@.len() == 0,
            g.edges@.len() == 0,
            g.reverse_edges@.len() == 0,
            g.max_node_id == 0,
    {
        Graph { nodes: Vec::new(), edges: Vec::new(), reverse_edges: Vec::new(), max_node_id: 0 }
    }

    /// The position of the node with id `node_id`, if it is live.
    #[verifier::loop_isolation(false)]
    fn find_node(&self, node_id: usize) -> (r: Option<usize>)
        requires
            self.wf(),
        ensures
            match r {
                Some(i) => i < self.nodes@.len() && self.nodes@[i as int].id == node_id
                    && self.spec_has_node(node_id) && self.node_idx(node_id) == i,
                None => !self.spec_has_node(node_id),
            },
    {
        let mut i: usize = 0;
        while i < self.nodes.len()
            invariant
                i <= self.nodes@.len(),
                forall|j: int| 0 <= j < i ==> (#[trigger] self.nodes@[j]).id != node_id,
            decreases self.nodes@.len() - i,
        {
            if self.nodes[i].id == node_id {
                proof {
                    self.lemma_node_at(node_id, i as int);
                }
                return Some(i);
            }
            i += 1;
        }
        proof {
            assert forall|j: int| 0 <= j < self.node_ids().len() implies #[trigger] self.node_ids()[j]
                != node_id by {
                assert(self.node_ids()[j] == self.nodes@[j].id);
            }
        }
        None
    }

    /// Reserves the next node id; ids grow monotonically and are never
    /// reused within a session.
    fn get_node_next_id(&mut self) -> (id: usize)
        requires
            old(self).max_node_id < usize::MAX,
        ensures
            id == old(self).max_node_id + 1,
            final(self).max_node_id == id,
            final(self).nodes == old(self).nodes,
            final(self).edges == old(self).edges,
            final(self).reverse_edges == old(self).reverse_edges,
    {
        self.max_node_id = self.max_node_id + 1;
        self.max_node_id
    }

    /// Adds a node with an empty property bag and returns its fresh id.
    pub fn add_node(&mut self) -> (id: usize)
        requires
            old(self).wf(),
            old(self).max_node_id < usize::MAX,
        ensures
            final(self).wf(),
            id == old(self).max_node_id + 1,
            final(self).max_node_id == id,
            !old(self).spec_has_node(id),
            final(self).nodes@ == old(self).nodes@.push(final(self).spec_node(id)),
            final(self).spec_node(id).id == id,
            final(self).spec_node(id).props@.len() == 0,
            forall|id2: usize| #[trigger] final(self).spec_has_node(id2) <==> old(self).spec_has_node(
                id2,
            ) || id2 == id,
            forall|id2: usize| id2 != id && #[trigger] old(self).spec_has_node(id2) ==> final(self)
                .spec_node(id2) == old(self).spec_node(id2),
            final(self).edges == old(self).edges,
            final(self).reverse_edges == old(self).reverse_edges,
    {
        let ghost g0 = *self;
        let id = self.get_node_next_id();
        let node = Node { id, props: Vec::new() };
        self.nodes.push(node);
        proof {
            let n = self.nodes@.len() - 1;
            assert(self.node_ids() =~= g0.node_ids().push(id));
            assert forall|a: int, b: int| 0 <= a < b < self.node_ids().len() implies self.node_ids()[a]
                < self.node_ids()[b] by {
                if b == n {
                    assert(self.node_ids()[a] == g0.node_ids()[a]);
                    assert(g0.nodes@[a].id <= g0.max_node_id);
                }
            }
            assert(!g0.spec_has_node(id)) by {
                if g0.spec_has_node(id) {
                    let j = choose|j: int|
                        0 <= j < g0.node_ids().len() && g0.node_ids()[j] == id;
                    assert(g0.nodes@[j].id <= g0.max_node_id);
                }
            }
            self.lemma_node_at(id, n);
            assert forall|id2: usize| id2 != id && #[trigger] g0.spec_has_node(id2) implies self
                .spec_node(id2) == g0.spec_node(id2) by {
                let j = g0.node_idx(id2);
                assert(0 <= j < g0.nodes@.len() && g0.nodes@[j].id == id2) by {
                    let w = choose|w: int|
                        0 <= w < g0.node_ids().len() && g0.node_ids()[w] == id2;
                    g0.lemma_node_at(id2, w);
                }
                g0.lemma_node_at(id2, j);
                self.lemma_node_at(id2, j);
            }
            assert forall|id2: usize| #[trigger] self.spec_has_node(id2) implies g0.spec_has_node(
                id2,
            ) || id2 == id by {
                let j = choose|j: int|
                    0 <= j < self.node_ids().len() && self.node_ids()[j] == id2;
                if j < n {
                    assert(g0.node_ids()[j] == id2);
                }
            }
            assert forall|id2: usize| g0.spec_has_node(id2) implies #[trigger] self.spec_has_node(
                id2,
            ) by {
                let j = choose|j: int|
                    0 <= j < g0.node_ids().len() && g0.node_ids()[j] == id2;
                assert(self.node_ids()[j] == id2);
            }
            Graph::lemma_wf_more_nodes(g0, *self);
        }
        id
    }

    /// Adds a node carrying the given property bag and returns its id.
    pub fn add_node_with_props(&mut self, props: Vec<(String, String)>) -> (id: usize)
        requires
            old(self).wf(),
            old(self).max_node_id < usize::MAX,
            forall|i: int, j: int|
                0 <= i < j < props@.len() ==> (#[trigger] props@[i]).0@ != (#[trigger] props@[j]).0@,
        ensures
            final(self).wf(),
            id == old(self).max_node_id + 1,
            final(self).max_node_id == id,
            final(self).spec_node(id).id == id,
            final(self).spec_node(id).props == props,
            forall|id2: usize| #[trigger] final(self).spec_has_node(id2) <==> old(self).spec_has_node(
                id2,
            ) || id2 == id,
            forall|id2: usize| id2 != id && #[trigger] old(self).spec_has_node(id2) ==> final(self)
                .spec_node(id2) == old(self).spec_node(id2),
            final(self).edges == old(self).edges,
            final(self).reverse_edges == old(self).reverse_edges,
    {
        let ghost g0 = *self;
        let id = self.get_node_next_id();
        let node = Node { id, props };
        self.nodes.push(node);
        proof {
            let n = self.nodes@.len() - 1;
            assert(self.node_ids() =~= g0.node_ids().push(id));
            assert forall|a: int, b: int| 0 <= a < b < self.node_ids().len() implies self.node_ids()[a]
                < self.node_ids()[b] by {
                if b == n {
                    assert(self.node_ids()[a] == g0.node_ids()[a]);
                    assert(g0.nodes@[a].id <= g0.max_node_id);
                }
            }
            self.lemma_node_at(id, n);
            assert forall|id2: usize| id2 != id && #[trigger] g0.spec_has_node(id2) implies self
                .spec_node(id2) == g0.spec_node(id2) by {
                let w = choose|w: int| 0 <= w < g0.node_ids().len() && g0.node_ids()[w] == id2;
                g0.lemma_node_at(id2, w);
                self.lemma_node_at(id2, w);
            }
            assert forall|id2: usize| #[trigger] self.spec_has_node(id2) implies g0.spec_has_node(
                id2,
            ) || id2 == id by {
                let j = choose|j: int|
                    0 <= j < self.node_ids().len() && self.node_ids()[j] == id2;
                if j < n {
                    assert(g0.node_ids()[j] == id2);
                }
            }
            assert forall|id2: usize| g0.spec_has_node(id2) implies #[trigger] self.spec_has_node(
                id2,
            ) by {
                let j = choose|j: int|
                    0 <= j < g0.node_ids().len() && g0.node_ids()[j] == id2;
                assert(self.node_ids()[j] == id2);
            }
            Graph::lemma_wf_more_nodes(g0, *self);
        }
        id
    }

    /// Connects `origin` to `destination` under `label`.
    ///
    /// Both ids must be live nodes; otherwise the missing id is named in
    /// an `UnknownNode` error and the graph is left exactly as it was.
    /// On success the edge for the pair exists afterwards and carries
    /// `label`; adding a label that is already there is a no-op, so the
    /// call is idempotent. The reverse index is kept an exact mirror
    /// (part of `wf`), with `origin` recorded once under `destination`
    /// however many labels the pair carries. Self-loops are permitted and
    /// stand for free-standing attributes on a node.
    #[verifier::rlimit(60)]
    pub fn connect_nodes(&mut self, origin: usize, destination: usize, label: &str) -> (r: Result<
        (),
        GraphError,
    >)
        requires
            old(self).wf(),
        ensures
            final(self).wf(),
            !old(self).spec_has_node(origin) ==> r == Err::<(), GraphError>(
                GraphError::UnknownNode(origin),
            ) && *final(self) == *old(self),
            old(self).spec_has_node(origin) && !old(self).spec_has_node(destination) ==> r
                == Err::<(), GraphError>(GraphError::UnknownNode(destination)) && *final(self)
                == *old(self),
            old(self).spec_has_node(origin) && old(self).spec_has_node(destination) ==> ({
                &&& r == Ok::<(), GraphError>(())
                &&& final(self).nodes == old(self).nodes
                &&& final(self).max_node_id == old(self).max_node_id
                &&& forall|o: usize, d: usize|
                    #[trigger] final(self).spec_has_edge(o, d) <==> old(self).spec_has_edge(o, d)
                        || (o == origin && d == destination)
                &&& final(self).spec_edge_labels(origin, destination) == Edge::spec_add_label(
                    old(self).spec_labels_or_empty(origin, destination),
                    label@,
                )
                &&& forall|o: usize, d: usize|
                    !(o == origin && d == destination) && #[trigger] old(self).spec_has_edge(o, d)
                        ==> final(self).spec_edge(o, d) == old(self).spec_edge(o, d)
            }),
    {
        if self.find_node(origin).is_none() {
            return Err(GraphError::UnknownNode(origin));
        }
        if self.find_node(destination).is_none() {
            return Err(GraphError::UnknownNode(destination));
        }
        let ghost g0 = *self;
        // forward index: make the row for `origin` hold `label` on the
        // edge to `destination`
        match afind(&self.edges, origin) {
            None => {
                let mut labels: Vec<String> = Vec::new();
                labels.push(label.to_owned());
                let edge = Edge { labels };
                proof {
                    assert(edge.labels_model() =~= Seq::empty().push(label@));
                    assert(edge.wf());
                }
                let mut row: Vec<(usize, Edge)> = Vec::new();
                ainsert(&mut row, destination, edge);
                proof {
                    assert forall|d2: usize| #[trigger] ahas(row@, d2) <==> (g0.spec_has_edge(
                        origin,
                        d2,
                    ) || d2 == destination) by {}
                }
                ainsert(&mut self.edges, origin, row);
            },
            Some(i) => {
                proof {
                    assert(g0.edges@[i as int].0 == origin);
                    lemma_aidx(g0.edges@, origin, i as int);
                }
                let mut row = atake(&mut self.edges, origin);
                let ghost row0 = row;
                proof {
                    assert(g0.edge_row_wf(row0));
                }
                match afind(&row, destination) {
                    None => {
                        let mut labels: Vec<String> = Vec::new();
                        labels.push(label.to_owned());
                        let edge = Edge { labels };
                        proof {
                            assert(edge.labels_model() =~= Seq::empty().push(label@));
                            assert(edge.wf());
                        }
                        ainsert(&mut row, destination, edge);
                    },
                    Some(j) => {
                        proof {
                            assert(row0@[j as int].0 == destination);
                            lemma_aidx(row0@, destination, j as int);
                            assert(aget(row0@, destination).wf());
                        }
                        let mut edge = atake(&mut row, destination);
                        let ghost rowmid = row@;
                        edge.add_label(label);
                        ainsert(&mut row, destination, edge);
                        proof {
                            assert forall|d2: usize| #[trigger] ahas(row@, d2) <==> (ahas(
                                row0@,
                                d2,
                            ) || d2 == destination) by {
                                assert(ahas(rowmid, d2) <==> ahas(row0@, d2) && d2
                                    != destination);
                            }
                            assert forall|d2: usize|
                                d2 != destination && #[trigger] ahas(row0@, d2) implies aget(
                                row@,
                                d2,
                            ) == aget(row0@, d2) by {
                                assert(ahas(rowmid, d2));
                            }
                        }
                    },
                }
                proof {
                    assert(ahas(row@, destination));
                    assert(aget(row@, destination).wf());
                    assert(aget(row@, destination).labels_model() == Edge::spec_add_label(
                        g0.spec_labels_or_empty(origin, destination),
                        label@,
                    ));
                    assert forall|d2: usize| #[trigger] ahas(row@, d2) <==> (g0.spec_has_edge(
                        origin,
                        d2,
                    ) || d2 == destination) by {}
                    assert forall|d2: usize|
                        d2 != destination && #[trigger] g0.spec_has_edge(origin, d2) implies aget(
                        row@,
                        d2,
                    ) == aget(aget(g0.edges@, origin)@, d2) by {}
                }
                let ghost emid = self.edges@;
                ainsert(&mut self.edges, origin, row);
                proof {
                    assert forall|o2: usize| #[trigger] ahas(self.edges@, o2) <==> (ahas(
                        g0.edges@,
                        o2,
                    ) || o2 == origin) by {
                        assert(ahas(emid, o2) <==> ahas(g0.edges@, o2) && o2 != origin);
                    }
                    assert forall|o2: usize|
                        o2 != origin && #[trigger] ahas(g0.edges@, o2) implies aget(self.edges@, o2)
                            == aget(g0.edges@, o2) by {
                        assert(ahas(emid, o2));
                    }
                }
            },
        }
        let ghost g1 = *self;
        proof {
            assert(g1.nodes == g0.nodes);
            assert(g1.reverse_edges == g0.reverse_edges);
            assert(ahas(g1.edges@, origin));
            assert(sorted_keys(akeys(g1.edges@)));
            let rownew = aget(g1.edges@, origin);
            assert(ahas(rownew@, destination));
            assert(sorted_keys(akeys(rownew@)));
            assert(aget(rownew@, destination).wf());
            assert(aget(rownew@, destination).labels_model() == Edge::spec_add_label(
                g0.spec_labels_or_empty(origin, destination),
                label@,
            ));
            assert forall|o2: usize| #[trigger] ahas(g1.edges@, o2) <==> (ahas(g0.edges@, o2)
                || o2 == origin) by {}
            assert forall|d2: usize| #[trigger] ahas(rownew@, d2) <==> (g0.spec_has_edge(
                origin,
                d2,
            ) || d2 == destination) by {}
        }
        // reverse index: record `origin` among the origins of
        // `destination`, exactly once
        match afind(&self.reverse_edges, destination) {
            None => {
                let mut set: Vec<usize> = Vec::new();
                set.push(origin);
                proof {
                    assert(set@ =~= Seq::empty().push(origin));
                    assert forall|o2: usize| #[trigger] set@.contains(o2) <==> (g1.spec_rev_has(
                        destination,
                        o2,
                    ) || o2 == origin) by {
                        if set@.contains(o2) {
                            assert(set@[choose|w: int| 0 <= w < set@.len() && set@[w] == o2]
                                == o2);
                        }
                        if o2 == origin {
                            assert(set@[0] == o2);
                        }
                    }
                }
                ainsert(&mut self.reverse_edges, destination, set);
            },
            Some(i) => {
                proof {
                    assert(g1.reverse_edges@[i as int].0 == destination);
                    lemma_aidx(g1.reverse_edges@, destination, i as int);
                }
                let mut set = atake(&mut self.reverse_edges, destination);
                let ghost rmid = self.reverse_edges@;
                if !sset_contains(&set, origin) {
                    sset_insert(&mut set, origin);
                }
                proof {
                    assert(set@.contains(origin));
                    assert(set@.len() > 0) by {
                        assert(set@[choose|w: int| 0 <= w < set@.len() && set@[w] == origin]
                            == origin);
                    }
                    assert forall|o2: usize| #[trigger] set@.contains(o2) <==> (g1.spec_rev_has(
                        destination,
                        o2,
                    ) || o2 == origin) by {}
                }
                ainsert(&mut self.reverse_edges, destination, set);
                proof {
                    assert forall|d2: usize| #[trigger] ahas(self.reverse_edges@, d2) <==> (ahas(
                        g1.reverse_edges@,
                        d2,
                    ) || d2 == destination) by {
                        assert(ahas(rmid, d2) <==> ahas(g1.reverse_edges@, d2) && d2
                            != destination);
                    }
                    assert forall|d2: usize|
                        d2 != destination && #[trigger] ahas(g1.reverse_edges@, d2) implies aget(
                        self.reverse_edges@,
                        d2,
                    ) == aget(g1.reverse_edges@, d2) by {
                        assert(ahas(rmid, d2));
                    }
                }
            },
        }
        proof {
            let g2 = *self;
            assert(g2.edges == g1.edges);
            assert(g2.nodes == g0.nodes);
            assert(ahas(g2.reverse_edges@, destination));
            let setnew = aget(g2.reverse_edges@, destination);
            assert forall|o2: usize| #[trigger] setnew@.contains(o2) <==> (g1.spec_rev_has(
                destination,
                o2,
            ) || o2 == origin) by {}
            assert forall|d2: usize| #[trigger] ahas(g2.reverse_edges@, d2) <==> (ahas(
                g1.reverse_edges@,
                d2,
            ) || d2 == destination) by {}
            // the node set is untouched
            assert forall|id: usize| #[trigger] g2.spec_has_node(id) <==> g0.spec_has_node(
                id,
            ) by {}
            // forward characterization
            assert forall|o: usize, d: usize| #[trigger] g2.spec_has_edge(o, d) <==> (
            g0.spec_has_edge(o, d) || (o == origin && d == destination)) by {
                if o == origin {
                    assert(aget(g2.edges@, origin) == aget(g1.edges@, origin));
                } else {
                    if ahas(g2.edges@, o) {
                        assert(aget(g2.edges@, o) == aget(g0.edges@, o));
                    }
                }
            }
            // reverse characterization
            assert forall|o: usize, d: usize| #[trigger] g2.spec_rev_has(d, o) <==> (
            g0.spec_rev_has(d, o) || (o == origin && d == destination)) by {
                if d == destination {
                    assert(aget(g2.reverse_edges@, destination) == setnew);
                } else {
                    if ahas(g2.reverse_edges@, d) {
                        assert(aget(g2.reverse_edges@, d) == aget(g1.reverse_edges@, d));
                    }
                }
            }
            // mirror invariant
            assert forall|o: usize, d: usize| #[trigger] g2.spec_has_edge(o, d) <==> g2.spec_rev_has(
                d,
                o,
            ) by {
                assert(g0.spec_has_edge(o, d) <==> g0.spec_rev_has(d, o));
            }
            // edges_wf
            assert forall|o: usize| #[trigger] ahas(g2.edges@, o) implies g2.spec_has_node(o)
                && g2.edge_row_wf(aget(g2.edges@, o)) by {
                if o == origin {
                    let rownew = aget(g2.edges@, origin);
                    assert forall|d: usize| #[trigger] ahas(rownew@, d) implies g2.spec_has_node(d)
                        && aget(rownew@, d).wf() by {
                        if d != destination {
                            assert(g0.spec_has_edge(origin, d));
                            assert(g0.edge_row_wf(aget(g0.edges@, origin)));
                            assert(aget(rownew@, d) == aget(aget(g0.edges@, origin)@, d));
                        }
                    }
                } else {
                    assert(ahas(g0.edges@, o));
                    assert(g0.edge_row_wf(aget(g0.edges@, o)));
                    assert(aget(g2.edges@, o) == aget(g0.edges@, o));
                    let row = aget(g2.edges@, o);
                    assert forall|d: usize| #[trigger] ahas(row@, d) implies g2.spec_has_node(d)
                        && aget(row@, d).wf() by {
                        assert(g0.spec_has_node(d));
                    }
                }
            }
            // reverse_wf
            assert forall|d: usize| #[trigger] ahas(g2.reverse_edges@, d) implies aget(
                g2.reverse_edges@,
                d,
            )@.len() > 0 && sorted_keys(aget(g2.reverse_edges@, d)@) by {
                if d != destination {
                    assert(ahas(g0.reverse_edges@, d));
                    assert(aget(g2.reverse_edges@, d) == aget(g0.reverse_edges@, d));
                }
            }
            // untouched pairs keep their edge values
            assert forall|o: usize, d: usize|
                !(o == origin && d == destination) && #[trigger] g0.spec_has_edge(o, d) implies g2
                .spec_edge(o, d) == g0.spec_edge(o, d) by {
                if o == origin {
                    assert(aget(g2.edges@, origin) == aget(g1.edges@, origin));
                } else {
                    assert(aget(g2.edges@, o) == aget(g0.edges@, o));
                }
            }
        }
        Ok(())
    }

    /// Whether an edge exists from `origin` to `destination`; asking
    /// about a dead node is an error naming it, not a `false`.
    pub fn are_connected(&self, origin: usize, destination: usize) -> (r: Result<
        bool,
        GraphError,
    >)
        requires
            self.wf(),
        ensures
            match r {
                Ok(b) => self.spec_has_node(origin) && self.spec_has_node(destination) && b
                    == self.spec_has_edge(origin, destination),
                Err(e) => (e == GraphError::UnknownNode(origin) && !self.spec_has_node(origin)) || (
                e == GraphError::UnknownNode(destination) && self.spec_has_node(origin)
                    && !self.spec_has_node(destination)),
            },
    {
        if self.find_node(origin).is_none() {
            return Err(GraphError::UnknownNode(origin));
        }
        if self.find_node(destination).is_none() {
            return Err(GraphError::UnknownNode(destination));
        }
        match afind(&self.edges, origin) {
            None => Ok(false),
            Some(i) => {
                proof {
                    assert(self.edges@[i as int].0 == origin);
                    lemma_aidx(self.edges@, origin, i as int);
                }
                let row = &self.edges[i].1;
                match afind(row, destination) {
                    None => Ok(false),
                    Some(j) => {
                        proof {
                            assert(row@[j as int].0 == destination);
                        }
                        Ok(true)
                    },
                }
            },
        }
    }

    /// Removes a node, cascading: every edge where it is origin or
    /// destination disappears, and the reverse index forgets it entirely,
    /// so no index is ever left pointing at a dead node. Fails with
    /// `NotFound`, leaving the graph unchanged, when the id is not live.
    /// The allocation counter is untouched: the removed id is never
    /// handed out again within this session.
    #[verifier::rlimit(100)]
    #[verifier::loop_isolation(false)]
    pub fn remove_node(&mut self, node_id: usize) -> (r: Result<(), GraphError>)
        requires
            old(self).wf(),
        ensures
            final(self).wf(),
            !old(self).spec_has_node(node_id) ==> r == Err::<(), GraphError>(GraphError::NotFound)
                && *final(self) == *old(self),
            old(self).spec_has_node(node_id) ==> ({
                &&& r == Ok::<(), GraphError>(())
                &&& final(self).max_node_id == old(self).max_node_id
                &&& !final(self).spec_has_node(node_id)
                &&& forall|id2: usize|
                    #[trigger] final(self).spec_has_node(id2) <==> old(self).spec_has_node(id2)
                        && id2 != node_id
                &&& forall|id2: usize|
                    id2 != node_id && #[trigger] old(self).spec_has_node(id2) ==> final(self)
                        .spec_node(id2) == old(self).spec_node(id2)
                &&& forall|o: usize, d: usize|
                    #[trigger] final(self).spec_has_edge(o, d) <==> old(self).spec_has_edge(o, d)
                        && o != node_id && d != node_id
                &&& forall|o: usize, d: usize|
                    o != node_id && d != node_id && #[trigger] old(self).spec_has_edge(o, d)
                        ==> final(self).spec_edge(o, d) == old(self).spec_edge(o, d)
            }),
    {
        let idx = match self.find_node(node_id) {
            None => {
                return Err(GraphError::NotFound);
            },
            Some(i) => i,
        };
        let ghost g0 = *self;
        // step one: drop the reverse entry of the node and learn which
        // origins point at it
        let in_origins: Vec<usize> = match afind(&self.reverse_edges, node_id) {
            None => Vec::new(),
            Some(i) => {
                proof {
                    assert(g0.reverse_edges@[i as int].0 == node_id);
                    lemma_aidx(g0.reverse_edges@, node_id, i as int);
                }
                atake(&mut self.reverse_edges, node_id)
            },
        };
        let ghost rev_a = self.reverse_edges@;
        proof {
            assert forall|o: usize| #[trigger] in_origins@.contains(o) <==> g0.spec_rev_has(
                node_id,
                o,
            ) by {}
            assert(sorted_keys(in_origins@));
            assert forall|d2: usize| #[trigger] ahas(rev_a, d2) <==> ahas(g0.reverse_edges@, d2)
                && d2 != node_id by {}
            assert forall|d2: usize| d2 != node_id && #[trigger] ahas(g0.reverse_edges@, d2)
                implies aget(rev_a, d2) == aget(g0.reverse_edges@, d2) by {}
        }
        // step two: prune the node out of the forward rows of those
        // origins, dropping rows that become empty
        let mut i: usize = 0;
        while i < in_origins.len()
            invariant
                i <= in_origins@.len(),
                self.nodes == g0.nodes,
                self.max_node_id == g0.max_node_id,
                self.reverse_edges@ == rev_a,
                sorted_keys(akeys(self.edges@)),
                forall|o: usize, d: usize|
                    #[trigger] self.spec_has_edge(o, d) <==> g0.spec_has_edge(o, d) && !(d
                        == node_id && o != node_id && in_origins@.take(i as int).contains(o)),
                forall|o: usize, d: usize|
                    #[trigger] self.spec_has_edge(o, d) ==> self.spec_edge(o, d) == g0.spec_edge(
                        o,
                        d,
                    ),
                forall|o: usize|
                    #[trigger] ahas(self.edges@, o) ==> ahas(g0.edges@, o) && sorted_keys(
                        akeys(aget(self.edges@, o)@),
                    ) && aget(self.edges@, o)@.len() > 0,
            decreases in_origins@.len() - i,
        {
            let ghost gi = *self;
            let n = in_origins[i];
            proof {
                assert(in_origins@.contains(n));
                assert forall|w: int| 0 <= w < i implies in_origins@.take(i as int)[w] != n by {
                    assert(in_origins@[w] < in_origins@[i as int]);
                }
                assert(!in_origins@.take(i as int).contains(n));
                assert(in_origins@.take(i as int + 1) =~= in_origins@.take(i as int).push(n));
                assert forall|o: usize| #[trigger] in_origins@.take(i as int + 1).contains(o)
                    <==> (in_origins@.take(i as int).contains(o) || o == n) by {
                    let t1 = in_origins@.take(i as int + 1);
                    let t0 = in_origins@.take(i as int);
                    if t1.contains(o) {
                        let w = choose|w: int| 0 <= w < t1.len() && t1[w] == o;
                        if w < i {
                            assert(t0[w] == o);
                        } else {
                            assert(t1[i as int] == n);
                        }
                    }
                    if t0.contains(o) {
                        let w = choose|w: int| 0 <= w < t0.len() && t0[w] == o;
                        assert(t1[w] == o);
                    }
                    if o == n {
                        assert(t1[i as int] == o);
                    }
                }
            }
            if n != node_id {
                proof {
                    assert(g0.spec_has_edge(n, node_id));
                    assert(gi.spec_has_edge(n, node_id));
                }
                let mut rowx = atake(&mut self.edges, n);
                let ghost emid = self.edges@;
                let ghost row_in = rowx@;
                let _gone = atake(&mut rowx, node_id);
                if rowx.len() > 0 {
                    ainsert(&mut self.edges, n, rowx);
                    proof {
                        assert forall|o: usize| #[trigger] ahas(self.edges@, o) <==> ahas(
                            gi.edges@,
                            o,
                        ) by {
                            assert(ahas(emid, o) <==> ahas(gi.edges@, o) && o != n);
                        }
                        assert forall|o: usize|
                            o != n && #[trigger] ahas(gi.edges@, o) implies aget(self.edges@, o)
                                == aget(gi.edges@, o) by {
                            assert(ahas(emid, o));
                        }
                        assert forall|o: usize, d: usize| #[trigger] self.spec_has_edge(o, d)
                            <==> gi.spec_has_edge(o, d) && !(o == n && d == node_id) by {
                            if o == n {
                                assert(aget(gi.edges@, n)@ == row_in);
                            }
                        }
                        assert forall|o: usize, d: usize|
                            #[trigger] self.spec_has_edge(o, d) implies self.spec_edge(o, d)
                                == gi.spec_edge(o, d) by {
                            if o == n {
                                assert(aget(gi.edges@, n)@ == row_in);
                            }
                        }
                    }
                } else {
                    proof {
                        assert forall|o: usize| #[trigger] ahas(self.edges@, o) <==> ahas(
                            gi.edges@,
                            o,
                        ) && o != n by {}
                        assert forall|o: usize|
                            o != n && #[trigger] ahas(gi.edges@, o) implies aget(self.edges@, o)
                                == aget(gi.edges@, o) by {}
                        assert forall|o: usize, d: usize| #[trigger] self.spec_has_edge(o, d)
                            <==> gi.spec_has_edge(o, d) && !(o == n && d == node_id) by {
                            if o == n {
                                assert(aget(gi.edges@, n)@ == row_in);
                                assert(!ahas(self.edges@, n));
                                if d != node_id && gi.spec_has_edge(n, d) {
                                    assert(ahas(rowx@, d));
                                }
                            }
                        }
                        assert forall|o: usize, d: usize|
                            #[trigger] self.spec_has_edge(o, d) implies self.spec_edge(o, d)
                                == gi.spec_edge(o, d) by {}
                    }
                }
            }
            i += 1;
        }
        let ghost gb = *self;
        proof {
            assert(in_origins@.take(in_origins@.len() as int) =~= in_origins@);
            assert forall|o: usize, d: usize| #[trigger] gb.spec_has_edge(o, d) <==> (
            g0.spec_has_edge(o, d) && (d != node_id || o == node_id)) by {
                if g0.spec_has_edge(o, d) && d == node_id && o != node_id {
                    assert(g0.spec_rev_has(node_id, o));
                    assert(in_origins@.contains(o));
                }
            }
        }
        // step three: drop the node's own forward row and learn its
        // destinations
        let out_row: Vec<(usize, Edge)> = match afind(&self.edges, node_id) {
            None => Vec::new(),
            Some(i2) => {
                proof {
                    assert(gb.edges@[i2 as int].0 == node_id);
                    lemma_aidx(gb.edges@, node_id, i2 as int);
                }
                atake(&mut self.edges, node_id)
            },
        };
        let ghost edges_c = self.edges@;
        let ghost gc = *self;
        proof {
            assert forall|m: usize| #[trigger] ahas(out_row@, m) <==> g0.spec_has_edge(
                node_id,
                m,
            ) by {
                if ahas(out_row@, m) {
                    assert(gb.spec_has_edge(node_id, m));
                }
                if g0.spec_has_edge(node_id, m) {
                    assert(gb.spec_has_edge(node_id, m));
                }
            }
            assert(sorted_keys(akeys(out_row@)));
            assert forall|o: usize, d: usize| #[trigger] gc.spec_has_edge(o, d) <==> (
            g0.spec_has_edge(o, d) && d != node_id && o != node_id) by {
                if o != node_id {
                    if ahas(edges_c, o) {
                        assert(aget(edges_c, o) == aget(gb.edges@, o));
                    }
                    if gb.spec_has_edge(o, d) {
                        assert(ahas(gb.edges@, o));
                    }
                }
            }
            assert forall|o: usize, d: usize|
                #[trigger] gc.spec_has_edge(o, d) implies gc.spec_edge(o, d) == g0.spec_edge(
                    o,
                    d,
                ) by {
                assert(aget(edges_c, o) == aget(gb.edges@, o));
                assert(gb.spec_has_edge(o, d));
            }
            assert forall|o: usize|
                #[trigger] ahas(edges_c, o) implies sorted_keys(akeys(aget(edges_c, o)@))
                    && aget(edges_c, o)@.len() > 0 by {
                assert(ahas(gb.edges@, o));
                assert(aget(edges_c, o) == aget(gb.edges@, o));
            }
        }
        // step four: prune the node out of the reverse sets of its
        // destinations, dropping sets that become empty
        let ghost okeys = akeys(out_row@);
        let mut i: usize = 0;
        while i < out_row.len()
            invariant
                i <= out_row@.len(),
                self.nodes == g0.nodes,
                self.max_node_id == g0.max_node_id,
                self.edges@ == edges_c,
                sorted_keys(akeys(self.reverse_edges@)),
                forall|d: usize, o: usize|
                    #[trigger] self.spec_rev_has(d, o) <==> g0.spec_rev_has(d, o) && d != node_id
                        && !(o == node_id && okeys.take(i as int).contains(d)),
                forall|d: usize|
                    #[trigger] ahas(self.reverse_edges@, d) ==> sorted_keys(
                        aget(self.reverse_edges@, d)@,
                    ) && aget(self.reverse_edges@, d)@.len() > 0,
            decreases out_row@.len() - i,
        {
            let ghost gi = *self;
            let m = out_row[i].0;
            proof {
                assert(out_row@[i as int].0 == m);
                assert(okeys[i as int] == m);
                assert(okeys.contains(m));
                assert(ahas(out_row@, m));
                assert forall|w: int| 0 <= w < i implies okeys.take(i as int)[w] != m by {
                    assert(okeys[w] < okeys[i as int]);
                }
                assert(!okeys.take(i as int).contains(m));
                assert(okeys.take(i as int + 1) =~= okeys.take(i as int).push(m));
                assert forall|d: usize| #[trigger] okeys.take(i as int + 1).contains(d) <==> (
                okeys.take(i as int).contains(d) || d == m) by {
                    let t1 = okeys.take(i as int + 1);
                    let t0 = okeys.take(i as int);
                    if t1.contains(d) {
                        let w = choose|w: int| 0 <= w < t1.len() && t1[w] == d;
                        if w < i {
                            assert(t0[w] == d);
                        } else {
                            assert(t1[i as int] == m);
                        }
                    }
                    if t0.contains(d) {
                        let w = choose|w: int| 0 <= w < t0.len() && t0[w] == d;
                        assert(t1[w] == d);
                    }
                    if d == m {
                        assert(t1[i as int] == d);
                    }
                }
            }
            if m != node_id {
                proof {
                    assert(g0.spec_has_edge(node_id, m));
                    assert(g0.spec_rev_has(m, node_id));
                    assert(gi.spec_rev_has(m, node_id));
                }
                let mut setx = atake(&mut self.reverse_edges, m);
                let ghost rmid = self.reverse_edges@;
                let ghost set_in = setx@;
                sset_remove(&mut setx, node_id);
                if setx.len() > 0 {
                    ainsert(&mut self.reverse_edges, m, setx);
                    proof {
                        assert forall|d: usize| #[trigger] ahas(self.reverse_edges@, d) <==> ahas(
                            gi.reverse_edges@,
                            d,
                        ) by {
                            assert(ahas(rmid, d) <==> ahas(gi.reverse_edges@, d) && d != m);
                        }
                        assert forall|d: usize|
                            d != m && #[trigger] ahas(gi.reverse_edges@, d) implies aget(
                            self.reverse_edges@,
                            d,
                        ) == aget(gi.reverse_edges@, d) by {
                            assert(ahas(rmid, d));
                        }
                        assert forall|d: usize, o: usize| #[trigger] self.spec_rev_has(d, o)
                            <==> gi.spec_rev_has(d, o) && !(d == m && o == node_id) by {
                            if d == m {
                                assert(aget(gi.reverse_edges@, m)@ == set_in);
                            }
                        }
                    }
                } else {
                    proof {
                        assert forall|d: usize, o: usize| #[trigger] self.spec_rev_has(d, o)
                            <==> gi.spec_rev_has(d, o) && !(d == m && o == node_id) by {
                            if d == m {
                                assert(aget(gi.reverse_edges@, m)@ == set_in);
                                assert(!ahas(self.reverse_edges@, m));
                                if o != node_id && gi.spec_rev_has(m, o) {
                                    assert(setx@.contains(o));
                                }
                            }
                        }
                    }
                }
            }
            i += 1;
        }
        let ghost gd = *self;
        proof {
            assert(okeys.take(okeys.len() as int) =~= okeys);
            assert forall|d: usize, o: usize| #[trigger] gd.spec_rev_has(d, o) <==> (
            g0.spec_rev_has(d, o) && d != node_id && o != node_id) by {
                if g0.spec_rev_has(d, o) && d != node_id && o == node_id {
                    assert(g0.spec_has_edge(node_id, d));
                    assert(ahas(out_row@, d));
                    assert(okeys.contains(d)) by {
                        let w = aidx(out_row@, d);
                        lemma_aidx(out_row@, d, w);
                        assert(okeys[w] == d);
                    }
                }
            }
        }
        // step five: drop the node itself
        let removed_node = self.nodes.remove(idx);
        proof {
            let nodes0 = g0.nodes@;
            let nodes1 = self.nodes@;
            assert(nodes1 == nodes0.remove(idx as int));
            assert forall|j: int| 0 <= j < nodes1.len() implies nodes1[j] == (if j < idx {
                nodes0[j]
            } else {
                nodes0[j + 1]
            }) by {
                crate::assoc::lemma_remove_index(nodes0, idx as int, j);
            }
            assert forall|a: int, b: int| 0 <= a < b < self.node_ids().len() implies self
                .node_ids()[a] < self.node_ids()[b] by {
                let pa: int = if a < idx { a } else { a + 1 };
                let pb: int = if b < idx { b } else { b + 1 };
                assert(g0.node_ids()[pa] < g0.node_ids()[pb]);
            }
            g0.lemma_node_at(node_id, idx as int);
            assert forall|id2: usize| #[trigger] self.spec_has_node(id2) implies g0.spec_has_node(
                id2,
            ) && id2 != node_id by {
                let w = choose|w: int|
                    0 <= w < self.node_ids().len() && self.node_ids()[w] == id2;
                assert(nodes1[w].id == id2);
                let pw: int = if w < idx { w } else { w + 1 };
                assert(nodes0[pw].id == id2);
                g0.lemma_node_at(id2, pw);
            }
            assert forall|id2: usize| g0.spec_has_node(id2) && id2 != node_id implies
                #[trigger] self.spec_has_node(id2) by {
                let w = choose|w: int| 0 <= w < g0.node_ids().len() && g0.node_ids()[w] == id2;
                assert(nodes0[w].id == id2);
                g0.lemma_node_at(id2, w);
                if w < idx {
                    assert(nodes1[w].id == id2);
                    assert(self.node_ids()[w] == id2);
                } else {
                    assert(nodes1[w - 1].id == id2);
                    assert(self.node_ids()[w - 1] == id2);
                }
            }
            assert forall|id2: usize| id2 != node_id && #[trigger] g0.spec_has_node(id2) implies
                self.spec_node(id2) == g0.spec_node(id2) by {
                let w = choose|w: int| 0 <= w < g0.node_ids().len() && g0.node_ids()[w] == id2;
                assert(nodes0[w].id == id2);
                g0.lemma_node_at(id2, w);
                if w < idx {
                    assert(nodes1[w].id == id2);
                    self.lemma_node_at(id2, w);
                } else {
                    assert(nodes1[w - 1].id == id2);
                    self.lemma_node_at(id2, w - 1);
                }
            }
            assert forall|j: int| 0 <= j < nodes1.len() implies (#[trigger] nodes1[j]).wf()
                && nodes1[j].id <= self.max_node_id by {
                let pj: int = if j < idx { j } else { j + 1 };
                assert(g0.nodes@[pj].wf() && g0.nodes@[pj].id <= g0.max_node_id);
            }
            // the untouched indices carry over to the final value
            assert forall|o: usize, d: usize| #[trigger] self.spec_has_edge(o, d)
                <==> gc.spec_has_edge(o, d) by {}
            assert forall|o: usize, d: usize| #[trigger] gc.spec_has_edge(o, d) implies self
                .spec_edge(o, d) == gc.spec_edge(o, d) by {}
            assert forall|d: usize, o: usize| #[trigger] self.spec_rev_has(d, o)
                <==> gd.spec_rev_has(d, o) by {}
            // characterizations of the final state against the starting graph
            assert forall|o: usize, d: usize| #[trigger] self.spec_has_edge(o, d) <==> (
            g0.spec_has_edge(o, d) && o != node_id && d != node_id) by {
                assert(gc.spec_has_edge(o, d) <==> (g0.spec_has_edge(o, d) && d != node_id && o
                    != node_id));
            }
            assert forall|o: usize, d: usize|
                o != node_id && d != node_id && #[trigger] g0.spec_has_edge(o, d) implies self
                .spec_edge(o, d) == g0.spec_edge(o, d) by {
                assert(gc.spec_has_edge(o, d));
                assert(gc.spec_edge(o, d) == g0.spec_edge(o, d));
            }
            assert forall|d: usize, o: usize| #[trigger] self.spec_rev_has(d, o) <==> (
            g0.spec_rev_has(d, o) && d != node_id && o != node_id) by {}
            // well-formedness of the final state
            assert forall|d: usize| #[trigger] ahas(self.reverse_edges@, d) implies sorted_keys(
                aget(self.reverse_edges@, d)@,
            ) && aget(self.reverse_edges@, d)@.len() > 0 by {
                assert(ahas(gd.reverse_edges@, d));
            }
            assert forall|o: usize| #[trigger] ahas(self.edges@, o) implies self.spec_has_node(o)
                && self.edge_row_wf(aget(self.edges@, o)) by {
                assert(ahas(edges_c, o));
                let row = aget(self.edges@, o);
                assert(row == aget(edges_c, o));
                assert(row@.len() > 0);
                assert(sorted_keys(akeys(row@)));
                let d0 = row@[0].0;
                lemma_aidx(row@, d0, 0);
                assert(self.spec_has_edge(o, d0));
                assert(g0.spec_has_edge(o, d0) && o != node_id && d0 != node_id);
                assert(g0.spec_has_node(o));
                assert forall|d: usize| #[trigger] ahas(row@, d) implies self.spec_has_node(d)
                    && aget(row@, d).wf() by {
                    assert(self.spec_has_edge(o, d));
                    assert(g0.spec_has_edge(o, d) && d != node_id);
                    assert(g0.spec_has_node(d));
                    assert(self.spec_edge(o, d) == g0.spec_edge(o, d));
                    assert(g0.edge_row_wf(aget(g0.edges@, o)));
                    assert(aget(aget(g0.edges@, o)@, d).wf());
                }
            }
            assert forall|o: usize, d: usize| #[trigger] self.spec_has_edge(o, d)
                <==> self.spec_rev_has(d, o) by {
                assert(g0.spec_has_edge(o, d) <==> g0.spec_rev_has(d, o));
            }
        }
        Ok(())
    }

    /// Sets one property on a live node, replacing the value when the
    /// key is already present and appending the pair otherwise. Fails
    /// with `NotFound`, leaving the graph unchanged, when the id is not
    /// live.
    #[verifier::rlimit(60)]
    #[verifier::loop_isolation(false)]
    pub fn set_prop(&mut self, node_id: usize, key: String, value: String) -> (r: Result<
        (),
        GraphError,
    >)
        requires
            old(self).wf(),
        ensures
            final(self).wf(),
            !old(self).spec_has_node(node_id) ==> r == Err::<(), GraphError>(GraphError::NotFound)
                && *final(self) == *old(self),
            old(self).spec_has_node(node_id) ==> ({
                &&& r == Ok::<(), GraphError>(())
                &&& final(self).edges == old(self).edges
                &&& final(self).reverse_edges == old(self).reverse_edges
                &&& final(self).max_node_id == old(self).max_node_id
                &&& forall|id2: usize|
                    #[trigger] final(self).spec_has_node(id2) <==> old(self).spec_has_node(id2)
                &&& forall|id2: usize|
                    id2 != node_id && #[trigger] old(self).spec_has_node(id2) ==> final(self)
                        .spec_node(id2) == old(self).spec_node(id2)
                &&& final(self).spec_node(node_id).id == node_id
                &&& final(self).spec_node(node_id).props_model() == spec_set_prop(
                    old(self).spec_node(node_id).props_model(),
                    key@,
                    value@,
                )
            }),
    {
        let i = match self.find_node(node_id) {
            None => {
                return Err(GraphError::NotFound);
            },
            Some(i) => i,
        };
        let ghost g0 = *self;
        let mut node = self.nodes.remove(i);
        let ghost node0 = node;
        let ghost ps0 = node.props@;
        let mut j: usize = 0;
        while j < node.props.len() && !node.props[j].0.eq(&key)
            invariant
                j <= node.props@.len(),
                node == node0,
                forall|w: int| 0 <= w < j ==> (#[trigger] node.props@[w]).0@ != key@,
            decreases node.props@.len() - j,
        {
            j += 1;
        }
        if j < node.props.len() {
            node.props.remove(j);
            node.props.insert(j, (key, value));
            proof {
                assert(node.props@ =~= ps0.update(j as int, node.props@[j as int])) by {
                    assert forall|w: int| 0 <= w < node.props@.len() implies node.props@[w] == (
                    if w == j {
                        node.props@[j as int]
                    } else {
                        ps0[w]
                    }) by {
                        if w != j {
                            crate::assoc::lemma_remove_index(ps0, j as int, if w < j {
                                w
                            } else {
                                w - 1
                            });
                        }
                        ps0.remove(j as int).insert_ensures(j as int, node.props@[j as int]);
                        crate::assoc::lemma_insert_index(
                            ps0.remove(j as int),
                            j as int,
                            node.props@[j as int],
                            w,
                        );
                    }
                }
                assert(node.props_model() =~= spec_set_prop(node0.props_model(), key@, value@))
                    by {
                    assert(node0.props_model()[j as int].0 == key@);
                    let jj = choose|w: int|
                        0 <= w < node0.props_model().len() && (#[trigger] node0.props_model()[w]).0
                            == key@;
                    if jj != j {
                        assert(node0.props@[jj].0@ == key@);
                        assert(node0.props@[j as int].0@ == key@);
                        assert(false);
                    }
                }
                assert forall|a: int, b: int| 0 <= a < b < node.props@.len() implies (
                #[trigger] node.props@[a]).0@ != (#[trigger] node.props@[b]).0@ by {
                    assert(ps0[a].0@ != ps0[b].0@);
                    if a == j {
                        assert(node.props@[a].0@ == ps0[a].0@);
                    }
                    if b == j {
                        assert(node.props@[b].0@ == ps0[b].0@);
                    }
                }
            }
        } else {
            node.props.push((key, value));
            proof {
                assert(node.props_model() =~= spec_set_prop(node0.props_model(), key@, value@))
                    by {
                    if exists|w: int|
                        0 <= w < node0.props_model().len() && (#[trigger] node0.props_model()[w]).0
                            == key@ {
                        let w = choose|w: int|
                            0 <= w < node0.props_model().len() && (
                            #[trigger] node0.props_model()[w]).0 == key@;
                        assert(node0.props@[w].0@ == key@);
                        assert(false);
                    }
                }
                assert forall|a: int, b: int| 0 <= a < b < node.props@.len() implies (
                #[trigger] node.props@[a]).0@ != (#[trigger] node.props@[b]).0@ by {
                    if b == node.props@.len() - 1 {
                        assert(node.props@[a] == ps0[a]);
                    } else {
                        assert(ps0[a].0@ != ps0[b].0@);
                    }
                }
            }
        }
        self.nodes.insert(i, node);
        proof {
            let nodes0 = g0.nodes@;
            let nodes1 = self.nodes@;
            assert(nodes1 =~= nodes0.update(i as int, node)) by {
                assert forall|w: int| 0 <= w < nodes1.len() implies nodes1[w] == (if w == i {
                    node
                } else {
                    nodes0[w]
                }) by {
                    if w != i {
                        crate::assoc::lemma_remove_index(nodes0, i as int, if w < i {
                            w
                        } else {
                            w - 1
                        });
                    }
                    nodes0.remove(i as int).insert_ensures(i as int, node);
                    crate::assoc::lemma_insert_index(nodes0.remove(i as int), i as int, node, w);
                }
            }
            assert(self.node_ids() =~= g0.node_ids());
            g0.lemma_node_at(node_id, i as int);
            self.lemma_node_at(node_id, i as int);
            assert forall|id2: usize| #[trigger] self.spec_has_node(id2) <==> g0.spec_has_node(
                id2,
            ) by {}
            assert forall|id2: usize| id2 != node_id && #[trigger] g0.spec_has_node(id2) implies
                self.spec_node(id2) == g0.spec_node(id2) by {
                let w = choose|w: int| 0 <= w < g0.node_ids().len() && g0.node_ids()[w] == id2;
                assert(g0.nodes@[w].id == id2);
                g0.lemma_node_at(id2, w);
                assert(w != i);
                assert(self.nodes@[w].id == id2);
                self.lemma_node_at(id2, w);
            }
            Graph::lemma_wf_more_nodes(g0, *self);
        }
        Ok(())
    }

    /// The edge stored for an ordered pair, if any.
    pub fn get_edge(&self, origin: usize, destination: usize) -> (r: Option<&Edge>)
        requires
            self.wf(),
        ensures
            match r {
                Some(e) => self.spec_has_edge(origin, destination) && *e == self.spec_edge(
                    origin,
                    destination,
                ),
                None => !self.spec_has_edge(origin, destination),
            },
    {
        match afind(&self.edges, origin) {
            None => None,
            Some(i) => {
                proof {
                    assert(self.edges@[i as int].0 == origin);
                    lemma_aidx(self.edges@, origin, i as int);
                }
                let row = &self.edges[i].1;
                match afind(row, destination) {
                    None => None,
                    Some(j) => {
                        proof {
                            assert(row@[j as int].0 == destination);
                            lemma_aidx(row@, destination, j as int);
                        }
                        Some(&row[j].1)
                    },
                }
            },
        }
    }

    /// Whether the ordered pair has an edge whose labels include `label`.
    pub open spec fn spec_pair_labeled(self, o: usize, d: usize, label: Seq<char>) -> bool {
        self.spec_has_edge(o, d) && self.spec_edge(o, d).spec_has_label(label)
    }

    /// The nodes carrying the attribute `attr`: those with a self-loop
    /// edge whose labels include it. Free-standing attributes are stored
    /// as labels on an edge from the node to itself.
    #[verifier::loop_isolation(false)]
    pub fn nodes_with_attr<'a>(&'a self, attr: &String) -> (r: Vec<&'a Node>)
        requires
            self.wf(),
        ensures
            forall|w: int|
                0 <= w < r@.len() ==> {
                    let n = *(#[trigger] r@[w]);
                    &&& self.spec_has_node(n.id)
                    &&& n == self.spec_node(n.id)
                    &&& self.spec_pair_labeled(n.id, n.id, attr@)
                },
            forall|j: int|
                0 <= j < self.nodes@.len() && self.spec_pair_labeled(
                    (#[trigger] self.nodes@[j]).id,
                    self.nodes@[j].id,
                    attr@,
                ) ==> exists|w: int| 0 <= w < r@.len() && *(#[trigger] r@[w]) == self.nodes@[j],
            forall|w1: int, w2: int| 0 <= w1 < w2 < r@.len() ==> (#[trigger] r@[w1]).id < (
            #[trigger] r@[w2]).id,
    {
        let mut r: Vec<&Node> = Vec::new();
        let mut i: usize = 0;
        while i < self.nodes.len()
            invariant
                i <= self.nodes@.len(),
                forall|w: int|
                    0 <= w < r@.len() ==> {
                        let n = *(#[trigger] r@[w]);
                        &&& self.spec_has_node(n.id)
                        &&& n == self.spec_node(n.id)
                        &&& self.spec_pair_labeled(n.id, n.id, attr@)
                    },
                forall|j: int|
                    0 <= j < i && self.spec_pair_labeled(
                        (#[trigger] self.nodes@[j]).id,
                        self.nodes@[j].id,
                        attr@,
                    ) ==> exists|w: int| 0 <= w < r@.len() && *(#[trigger] r@[w])
                        == self.nodes@[j],
                forall|w: int|
                    0 <= w < r@.len() ==> exists|j: int|
                        0 <= j < i && *(#[trigger] r@[w]) == self.nodes@[j],
                forall|w1: int, w2: int| 0 <= w1 < w2 < r@.len() ==> (#[trigger] r@[w1]).id < (
                #[trigger] r@[w2]).id,
            decreases self.nodes@.len() - i,
        {
            let id = self.nodes[i].id;
            proof {
                self.lemma_node_at(id, i as int);
            }
            let mut hit = false;
            match self.get_edge(id, id) {
                Some(e) => {
                    if e.has_label(attr.as_str()) {
                        hit = true;
                    }
                },
                None => {},
            }
            let ghost r0 = r@;
            if hit {
                r.push(&self.nodes[i]);
            }
            proof {
                assert(hit == self.spec_pair_labeled(id, id, attr@));
                assert forall|w: int| 0 <= w < r@.len() implies exists|j: int|
                    0 <= j < i + 1 && *(#[trigger] r@[w]) == self.nodes@[j] by {
                    if w < r0.len() {
                        let j = choose|j: int| 0 <= j < i && *(#[trigger] r0[w]) == self.nodes@[j];
                        assert(*r@[w] == self.nodes@[j]);
                    } else {
                        assert(*r@[w] == self.nodes@[i as int]);
                    }
                }
                assert forall|w1: int, w2: int| 0 <= w1 < w2 < r@.len() implies (
                #[trigger] r@[w1]).id < (#[trigger] r@[w2]).id by {
                    if w2 == r@.len() - 1 && r@.len() > r0.len() {
                        let j = choose|j: int|
                            0 <= j < i && *(#[trigger] r0[w1]) == self.nodes@[j];
                        assert(self.node_ids()[j] < self.node_ids()[i as int]);
                        assert(r@[w1].id == self.nodes@[j].id);
                        assert(r@[w2].id == self.nodes@[i as int].id);
                    } else {
                        assert(r0[w1].id < r0[w2].id);
                    }
                }
                assert forall|j: int|
                    0 <= j < i + 1 && self.spec_pair_labeled(
                        (#[trigger] self.nodes@[j]).id,
                        self.nodes@[j].id,
                        attr@,
                    ) implies exists|w: int| 0 <= w < r@.len() && *(#[trigger] r@[w])
                    == self.nodes@[j] by {
                    if j < i {
                        let w = choose|w: int|
                            0 <= w < r0.len() && *(#[trigger] r0[w]) == self.nodes@[j];
                        assert(*r@[w] == self.nodes@[j]);
                    } else {
                        assert(self.nodes@[j].id == id);
                        assert(*r@[r@.len() - 1] == self.nodes@[j]);
                    }
                }
            }
            i += 1;
        }
        r
    }

    /// The ids of the nodes whose property bag holds exactly
    /// `(key, value)`; an empty result is a normal answer, not an error.
    #[verifier::loop_isolation(false)]
    pub fn nodes_with_prop(&self, key: &String, value: &String) -> (r: Vec<usize>)
        requires
            self.wf(),
        ensures
            forall|id: usize|
                #[trigger] r@.contains(id) <==> self.spec_has_node(id) && self.spec_node(
                    id,
                ).spec_has_prop(key@, value@),
            sorted_keys(r@),
    {
        let mut r: Vec<usize> = Vec::new();
        let mut i: usize = 0;
        while i < self.nodes.len()
            invariant
                i <= self.nodes@.len(),
                forall|id: usize|
                    #[trigger] r@.contains(id) <==> exists|j: int|
                        0 <= j < i && (#[trigger] self.nodes@[j]).id == id
                            && self.nodes@[j].spec_has_prop(key@, value@),
                sorted_keys(r@),
                forall|w: int|
                    0 <= w < r@.len() ==> exists|j: int|
                        0 <= j < i && (#[trigger] self.nodes@[j]).id == #[trigger] r@[w],
            decreases self.nodes@.len() - i,
        {
            let ghost r0 = r@;
            if self.nodes[i].has_prop(key, value) {
                r.push(self.nodes[i].id);
                proof {
                    let id = self.nodes@[i as int].id;
                    assert forall|a: int, b: int| 0 <= a < b < r@.len() implies r@[a] < r@[
                    b] by {
                        if b == r@.len() - 1 {
                            let j = choose|j: int|
                                0 <= j < i && (#[trigger] self.nodes@[j]).id == r0[a];
                            assert(self.node_ids()[j] < self.node_ids()[i as int]);
                        }
                    }
                    assert forall|id2: usize| #[trigger] r@.contains(id2) implies exists|j: int|
                        0 <= j < i + 1 && (#[trigger] self.nodes@[j]).id == id2
                            && self.nodes@[j].spec_has_prop(key@, value@) by {
                        let w = choose|w: int| 0 <= w < r@.len() && r@[w] == id2;
                        if w < r@.len() - 1 {
                            assert(r0.contains(id2));
                        } else {
                            assert(self.nodes@[i as int].id == id2);
                        }
                    }
                    assert forall|id2: usize|
                        (exists|j: int|
                            0 <= j < i + 1 && (#[trigger] self.nodes@[j]).id == id2
                                && self.nodes@[j].spec_has_prop(key@, value@)) implies
                        #[trigger] r@.contains(id2) by {
                        let j = choose|j: int|
                            0 <= j < i + 1 && (#[trigger] self.nodes@[j]).id == id2
                                && self.nodes@[j].spec_has_prop(key@, value@);
                        if j < i {
                            assert(r0.contains(id2));
                            let w = choose|w: int| 0 <= w < r0.len() && r0[w] == id2;
                            assert(r@[w] == id2);
                        } else {
                            assert(r@[r@.len() - 1] == id2);
                        }
                    }
                }
            } else {
                proof {
                    assert forall|id2: usize| #[trigger] r@.contains(id2) <==> exists|j: int|
                        0 <= j < i + 1 && (#[trigger] self.nodes@[j]).id == id2
                            && self.nodes@[j].spec_has_prop(key@, value@) by {
                        if exists|j: int|
                            0 <= j < i + 1 && (#[trigger] self.nodes@[j]).id == id2
                                && self.nodes@[j].spec_has_prop(key@, value@) {
                            let j = choose|j: int|
                                0 <= j < i + 1 && (#[trigger] self.nodes@[j]).id == id2
                                    && self.nodes@[j].spec_has_prop(key@, value@);
                            assert(j < i);
                        }
                    }
                }
            }
            i += 1;
        }
        proof {
            assert forall|id: usize| #[trigger] r@.contains(id) <==> self.spec_has_node(id)
                && self.spec_node(id).spec_has_prop(key@, value@) by {
                if r@.contains(id) {
                    let j = choose|j: int|
                        0 <= j < self.nodes@.len() && (#[trigger] self.nodes@[j]).id == id
                            && self.nodes@[j].spec_has_prop(key@, value@);
                    self.lemma_node_at(id, j);
                }
                if self.spec_has_node(id) && self.spec_node(id).spec_has_prop(key@, value@) {
                    let w = choose|w: int|
                        0 <= w < self.node_ids().len() && self.node_ids()[w] == id;
                    assert(self.nodes@[w].id == id);
                    self.lemma_node_at(id, w);
                    assert(self.nodes@[w].spec_has_prop(key@, value@));
                }
            }
        }
        r
    }

    /// The destinations reachable from `source` whose edge carries
    /// `label`, in ascending order; empty when `source` has no outgoing
    /// edges at all.
    #[verifier::loop_isolation(false)]
    pub fn edges_with_label_from(&self, source: usize, label: &str) -> (r: Vec<usize>)
        requires
            self.wf(),
        ensures
            forall|d: usize| #[trigger] r@.contains(d) <==> self.spec_pair_labeled(
                source,
                d,
                label@,
            ),
            sorted_keys(r@),
    {
        let mut r: Vec<usize> = Vec::new();
        let row = match afind(&self.edges, source) {
            None => {
                proof {
                    assert forall|d: usize| #[trigger] r@.contains(d) <==> self.spec_pair_labeled(
                        source,
                        d,
                        label@,
                    ) by {}
                }
                return r;
            },
            Some(i) => {
                proof {
                    assert(self.edges@[i as int].0 == source);
                    lemma_aidx(self.edges@, source, i as int);
                }
                &self.edges[i].1
            },
        };
        let mut j: usize = 0;
        while j < row.len()
            invariant
                j <= row@.len(),
                row == aget(self.edges@, source),
                forall|d: usize|
                    #[trigger] r@.contains(d) <==> exists|w: int|
                        0 <= w < j && (#[trigger] row@[w]).0 == d && row@[w].1.spec_has_label(
                            label@,
                        ),
                forall|w: int|
                    0 <= w < r@.len() ==> exists|v: int|
                        0 <= v < j && (#[trigger] row@[v]).0 == #[trigger] r@[w],
                sorted_keys(r@),
            decreases row@.len() - j,
        {
            let ghost r0 = r@;
            if row[j].1.has_label(label) {
                r.push(row[j].0);
                proof {
                    let d = row@[j as int].0;
                    assert forall|a: int, b: int| 0 <= a < b < r@.len() implies r@[a] < r@[
                    b] by {
                        if b == r@.len() - 1 {
                            let v = choose|v: int|
                                0 <= v < j && (#[trigger] row@[v]).0 == r0[a];
                            assert(akeys(row@)[v] < akeys(row@)[j as int]);
                        }
                    }
                    assert forall|d2: usize| #[trigger] r@.contains(d2) implies exists|w: int|
                        0 <= w < j + 1 && (#[trigger] row@[w]).0 == d2 && row@[w].1.spec_has_label(
                            label@,
                        ) by {
                        let w = choose|w: int| 0 <= w < r@.len() && r@[w] == d2;
                        if w < r@.len() - 1 {
                            assert(r0.contains(d2));
                        } else {
                            assert(row@[j as int].0 == d2);
                        }
                    }
                    assert forall|d2: usize|
                        (exists|w: int|
                            0 <= w < j + 1 && (#[trigger] row@[w]).0 == d2
                                && row@[w].1.spec_has_label(label@)) implies #[trigger] r@.contains(
                        d2) by {
                        let w = choose|w: int|
                            0 <= w < j + 1 && (#[trigger] row@[w]).0 == d2
                                && row@[w].1.spec_has_label(label@);
                        if w < j {
                            assert(r0.contains(d2));
                            let v = choose|v: int| 0 <= v < r0.len() && r0[v] == d2;
                            assert(r@[v] == d2);
                        } else {
                            assert(r@[r@.len() - 1] == d2);
                        }
                    }
                }
            } else {
                proof {
                    assert forall|d2: usize| #[trigger] r@.contains(d2) <==> exists|w: int|
                        0 <= w < j + 1 && (#[trigger] row@[w]).0 == d2 && row@[w].1.spec_has_label(
                            label@,
                        ) by {
                        if exists|w: int|
                            0 <= w < j + 1 && (#[trigger] row@[w]).0 == d2
                                && row@[w].1.spec_has_label(label@) {
                            let w = choose|w: int|
                                0 <= w < j + 1 && (#[trigger] row@[w]).0 == d2
                                    && row@[w].1.spec_has_label(label@);
                            assert(w < j);
                        }
                    }
                }
            }
            j += 1;
        }
        proof {
            assert forall|d: usize| #[trigger] r@.contains(d) <==> self.spec_pair_labeled(
                source,
                d,
                label@,
            ) by {
                if r@.contains(d) {
                    let w = choose|w: int|
                        0 <= w < row@.len() && (#[trigger] row@[w]).0 == d
                            && row@[w].1.spec_has_label(label@);
                    lemma_aidx(row@, d, w);
                }
                if self.spec_pair_labeled(source, d, label@) {
                    let w = aidx(row@, d);
                    lemma_aidx(row@, d, w);
                }
            }
        }
        r
    }

    /// The part of one adjacency row whose edges carry `label`.
    #[verifier::loop_isolation(false)]
    fn filter_row(row: &Vec<(usize, Edge)>, label: &String) -> (r: Vec<(usize, Edge)>)
        requires
            sorted_keys(akeys(row@)),
        ensures
            sorted_keys(akeys(r@)),
            forall|d: usize| #[trigger] ahas(r@, d) <==> ahas(row@, d) && aget(
                row@,
                d,
            ).spec_has_label(label@),
            forall|d: usize| #[trigger] ahas(r@, d) ==> aget(r@, d).labels@ == aget(
                row@,
                d,
            ).labels@,
    {
        let mut r: Vec<(usize, Edge)> = Vec::new();
        let mut j: usize = 0;
        while j < row.len()
            invariant
                j <= row@.len(),
                sorted_keys(akeys(r@)),
                forall|w: int|
                    0 <= w < r@.len() ==> exists|v: int|
                        0 <= v < j && (#[trigger] row@[v]).0 == (#[trigger] r@[w]).0,
                forall|d: usize|
                    #[trigger] ahas(r@, d) <==> exists|v: int|
                        0 <= v < j && (#[trigger] row@[v]).0 == d && row@[v].1.spec_has_label(
                            label@,
                        ),
                forall|d: usize| #[trigger] ahas(r@, d) ==> aget(r@, d).labels@ == aget(
                    row@,
                    d,
                ).labels@,
            decreases row@.len() - j,
        {
            let ghost r0 = r@;
            if row[j].1.has_label(label.as_str()) {
                let d = row[j].0;
                r.push((d, row[j].1.duplicate()));
                proof {
                    lemma_aidx(row@, d, j as int);
                    assert(r@[r0.len() as int].0 == d);
                    assert forall|a: int, b: int| 0 <= a < b < akeys(r@).len() implies akeys(
                        r@,
                    )[a] < akeys(r@)[b] by {
                        assert(akeys(r@)[a] == r@[a].0);
                        assert(akeys(r@)[b] == r@[b].0);
                        if b == r@.len() - 1 {
                            let v = choose|v: int|
                                0 <= v < j && (#[trigger] row@[v]).0 == (#[trigger] r0[a]).0;
                            assert(akeys(row@)[v] < akeys(row@)[j as int]);
                        } else {
                            assert(akeys(r0)[a] < akeys(r0)[b]);
                        }
                    }
                    assert forall|d2: usize| #[trigger] ahas(r@, d2) <==> exists|v: int|
                        0 <= v < j + 1 && (#[trigger] row@[v]).0 == d2 && row@[v].1.spec_has_label(
                            label@,
                        ) by {
                        if ahas(r@, d2) {
                            let w = choose|w: int|
                                0 <= w < r@.len() && (#[trigger] r@[w]).0 == d2;
                            if w < r@.len() - 1 {
                                assert(r0[w].0 == d2);
                                assert(ahas(r0, d2));
                            } else {
                                assert(row@[j as int].0 == d2);
                            }
                        }
                        if exists|v: int|
                            0 <= v < j + 1 && (#[trigger] row@[v]).0 == d2
                                && row@[v].1.spec_has_label(label@) {
                            let v = choose|v: int|
                                0 <= v < j + 1 && (#[trigger] row@[v]).0 == d2
                                    && row@[v].1.spec_has_label(label@);
                            if v < j {
                                assert(ahas(r0, d2));
                                let w = choose|w: int|
                                    0 <= w < r0.len() && (#[trigger] r0[w]).0 == d2;
                                assert(r@[w].0 == d2);
                            } else {
                                assert(r@[r@.len() - 1].0 == d2);
                            }
                        }
                    }
                    assert forall|d2: usize| #[trigger] ahas(r@, d2) implies aget(r@, d2).labels@
                        == aget(row@, d2).labels@ by {
                        let w = choose|w: int| 0 <= w < r@.len() && (#[trigger] r@[w]).0 == d2;
                        lemma_aidx(r@, d2, w);
                        if w < r@.len() - 1 {
                            assert(r0[w].0 == d2);
                            lemma_aidx(r0, d2, w);
                            assert(ahas(r0, d2));
                        } else {
                            assert(d2 == d);
                        }
                    }
                }
            } else {
                proof {
                    assert forall|d2: usize| #[trigger] ahas(r@, d2) <==> exists|v: int|
                        0 <= v < j + 1 && (#[trigger] row@[v]).0 == d2 && row@[v].1.spec_has_label(
                            label@,
                        ) by {
                        if exists|v: int|
                            0 <= v < j + 1 && (#[trigger] row@[v]).0 == d2
                                && row@[v].1.spec_has_label(label@) {
                            let v = choose|v: int|
                                0 <= v < j + 1 && (#[trigger] row@[v]).0 == d2
                                    && row@[v].1.spec_has_label(label@);
                            assert(v < j);
                        }
                    }
                }
            }
            j += 1;
        }
        proof {
            assert forall|d: usize| #[trigger] ahas(r@, d) <==> ahas(row@, d) && aget(
                row@,
                d,
            ).spec_has_label(label@) by {
                if ahas(r@, d) {
                    let v = choose|v: int|
                        0 <= v < row@.len() && (#[trigger] row@[v]).0 == d
                            && row@[v].1.spec_has_label(label@);
                    lemma_aidx(row@, d, v);
                }
                if ahas(row@, d) && aget(row@, d).spec_has_label(label@) {
                    let v = aidx(row@, d);
                    lemma_aidx(row@, d, v);
                }
            }
        }
        r
    }

    /// The pairs whose edge carries `label`, as a forward adjacency
    /// restricted to those pairs; origins with no matching destination
    /// are absent entirely, never present with an empty row.
    #[verifier::loop_isolation(false)]
    pub fn edges_with_label(&self, label: &String) -> (r: Vec<(usize, Vec<(usize, Edge)>)>)
        requires
            self.wf(),
        ensures
            sorted_keys(akeys(r@)),
            forall|o: usize| #[trigger] ahas(r@, o) <==> exists|d: usize|
                #[trigger] self.spec_pair_labeled(o, d, label@),
            forall|o: usize|
                #[trigger] ahas(r@, o) ==> {
                    let row = aget(r@, o);
                    &&& row@.len() > 0
                    &&& sorted_keys(akeys(row@))
                    &&& forall|d: usize| #[trigger] ahas(row@, d) <==> self.spec_pair_labeled(
                        o,
                        d,
                        label@,
                    )
                    &&& forall|d: usize| #[trigger] ahas(row@, d) ==> aget(row@, d).labels@
                        == self.spec_edge(o, d).labels@
                },
    {
        let mut r: Vec<(usize, Vec<(usize, Edge)>)> = Vec::new();
        let mut i: usize = 0;
        while i < self.edges.len()
            invariant
                i <= self.edges@.len(),
                sorted_keys(akeys(r@)),
                forall|w: int|
                    0 <= w < r@.len() ==> exists|v: int|
                        0 <= v < i && (#[trigger] self.edges@[v]).0 == (#[trigger] r@[w]).0,
                forall|o: usize|
                    #[trigger] ahas(r@, o) <==> exists|v: int|
                        0 <= v < i && (#[trigger] self.edges@[v]).0 == o && exists|d: usize|
                            #[trigger] self.spec_pair_labeled(o, d, label@),
                forall|o: usize|
                    #[trigger] ahas(r@, o) ==> {
                        let row = aget(r@, o);
                        &&& row@.len() > 0
                        &&& sorted_keys(akeys(row@))
                        &&& forall|d: usize| #[trigger] ahas(row@, d) <==> self.spec_pair_labeled(
                            o,
                            d,
                            label@,
                        )
                        &&& forall|d: usize| #[trigger] ahas(row@, d) ==> aget(row@, d).labels@
                            == self.spec_edge(o, d).labels@
                    },
            decreases self.edges@.len() - i,
        {
            let o = self.edges[i].0;
            proof {
                assert(self.edges@[i as int].0 == o);
                lemma_aidx(self.edges@, o, i as int);
            }
            let filtered = Graph::filter_row(&self.edges[i].1, label);
            let ghost r0 = r@;
            if filtered.len() > 0 {
                r.push((o, filtered));
            }
            proof {
                let row_o = aget(self.edges@, o)@;
                if r@.len() > r0.len() {
                    assert(r@[r0.len() as int].0 == o);
                    assert forall|a: int, b: int| 0 <= a < b < akeys(r@).len() implies akeys(
                        r@,
                    )[a] < akeys(r@)[b] by {
                        assert(akeys(r@)[a] == r@[a].0);
                        assert(akeys(r@)[b] == r@[b].0);
                        if b == r@.len() - 1 {
                            let v = choose|v: int|
                                0 <= v < i && (#[trigger] self.edges@[v]).0 == (
                                #[trigger] r0[a]).0;
                            assert(akeys(self.edges@)[v] < akeys(self.edges@)[i as int]);
                        } else {
                            assert(akeys(r0)[a] < akeys(r0)[b]);
                        }
                    }
                    lemma_aidx(r@, o, r0.len() as int);
                    assert(exists|d: usize| #[trigger] self.spec_pair_labeled(o, d, label@)) by {
                        let fv = aget(r@, o)@;
                        assert(fv.len() > 0);
                        let d0 = fv[0].0;
                        lemma_aidx(fv, d0, 0);
                        assert(ahas(fv, d0));
                        assert(self.spec_pair_labeled(o, d0, label@));
                    }
                } else {
                    assert forall|d: usize| !#[trigger] self.spec_pair_labeled(o, d, label@) by {
                        if self.spec_pair_labeled(o, d, label@) {
                            assert(ahas(filtered@, d));
                        }
                    }
                }
                assert forall|o2: usize| #[trigger] ahas(r@, o2) <==> exists|v: int|
                    0 <= v < i + 1 && (#[trigger] self.edges@[v]).0 == o2 && exists|d: usize|
                        #[trigger] self.spec_pair_labeled(o2, d, label@) by {
                    if ahas(r@, o2) {
                        let w = choose|w: int| 0 <= w < r@.len() && (#[trigger] r@[w]).0 == o2;
                        if w < r0.len() {
                            assert(r0[w].0 == o2);
                            assert(ahas(r0, o2));
                        } else {
                            assert(o2 == o);
                            assert(self.edges@[i as int].0 == o2);
                        }
                    }
                    if exists|v: int|
                        0 <= v < i + 1 && (#[trigger] self.edges@[v]).0 == o2 && exists|d: usize|
                            #[trigger] self.spec_pair_labeled(o2, d, label@) {
                        let v = choose|v: int|
                            0 <= v < i + 1 && (#[trigger] self.edges@[v]).0 == o2 && exists|
                                d: usize,
                            | #[trigger] self.spec_pair_labeled(o2, d, label@);
                        if v < i {
                            assert(ahas(r0, o2));
                            let w = choose|w: int|
                                0 <= w < r0.len() && (#[trigger] r0[w]).0 == o2;
                            assert(r@[w].0 == o2);
                        } else {
                            assert(o2 == o);
                            let d = choose|d: usize|
                                #[trigger] self.spec_pair_labeled(o2, d, label@);
                            lemma_aidx(self.edges@, o, i as int);
                            assert(ahas(filtered@, d));
                            assert(r@.len() > r0.len());
                            assert(r@[r0.len() as int].0 == o2);
                        }
                    }
                }
                assert forall|o2: usize| #[trigger] ahas(r@, o2) implies {
                    let row = aget(r@, o2);
                    &&& row@.len() > 0
                    &&& sorted_keys(akeys(row@))
                    &&& forall|d: usize| #[trigger] ahas(row@, d) <==> self.spec_pair_labeled(
                        o2,
                        d,
                        label@,
                    )
                    &&& forall|d: usize| #[trigger] ahas(row@, d) ==> aget(row@, d).labels@
                        == self.spec_edge(o2, d).labels@
                } by {
                    let w = choose|w: int| 0 <= w < r@.len() && (#[trigger] r@[w]).0 == o2;
                    lemma_aidx(r@, o2, w);
                    if w < r0.len() {
                        assert(r0[w].0 == o2);
                        lemma_aidx(r0, o2, w);
                        assert(ahas(r0, o2));
                    } else {
                        assert(o2 == o);
                        assert(aget(r@, o2) == filtered);
                        assert(ahas(filtered@, filtered@[0].0)) by {
                            lemma_aidx(filtered@, filtered@[0].0, 0);
                        }
                    }
                }
            }
            i += 1;
        }
        proof {
            assert forall|o: usize| #[trigger] ahas(r@, o) <==> exists|d: usize|
                #[trigger] self.spec_pair_labeled(o, d, label@) by {
                if ahas(r@, o) {
                }
                if exists|d: usize| #[trigger] self.spec_pair_labeled(o, d, label@) {
                    let d = choose|d: usize| #[trigger] self.spec_pair_labeled(o, d, label@);
                    let v = aidx(self.edges@, o);
                    lemma_aidx(self.edges@, o, v);
                }
            }
        }
        r
    }

    /// Inserts a node under a given id, replacing any node already
    /// stored there; the loading path uses this to rebuild a graph from
    /// decoded data. The allocation counter is raised to cover the id,
    /// so ids handed out later never collide with loaded ones.
    #[verifier::rlimit(60)]
    #[verifier::loop_isolation(false)]
    pub fn put_node(&mut self, id: usize, props: Vec<(String, String)>)
        requires
            old(self).wf(),
            forall|i: int, j: int|
                0 <= i < j < props@.len() ==> (#[trigger] props@[i]).0@ != (#[trigger] props@[j]).0@,
        ensures
            final(self).wf(),
            forall|id2: usize|
                #[trigger] final(self).spec_has_node(id2) <==> old(self).spec_has_node(id2) || id2
                    == id,
            final(self).spec_node(id).id == id,
            final(self).spec_node(id).props == props,
            forall|id2: usize|
                id2 != id && #[trigger] old(self).spec_has_node(id2) ==> final(self).spec_node(id2)
                    == old(self).spec_node(id2),
            final(self).edges == old(self).edges,
            final(self).reverse_edges == old(self).reverse_edges,
            final(self).max_node_id == if id > old(self).max_node_id {
                id
            } else {
                old(self).max_node_id
            },
    {
        if id > self.max_node_id {
            self.max_node_id = id;
        }
        let ghost g0 = *old(self);
        let node = Node { id, props };
        let mut i: usize = 0;
        while i < self.nodes.len() && self.nodes[i].id < id
            invariant
                i <= self.nodes@.len(),
                self.nodes == g0.nodes,
                forall|j: int| 0 <= j < i ==> (#[trigger] self.nodes@[j]).id < id,
            decreases self.nodes@.len() - i,
        {
            i += 1;
        }
        if i < self.nodes.len() && self.nodes[i].id == id {
            self.nodes.remove(i);
            self.nodes.insert(i, node);
            proof {
                let nodes0 = g0.nodes@;
                let nodes1 = self.nodes@;
                assert(nodes1 =~= nodes0.update(i as int, node)) by {
                    assert forall|w: int| 0 <= w < nodes1.len() implies nodes1[w] == (if w == i {
                        node
                    } else {
                        nodes0[w]
                    }) by {
                        if w != i {
                            crate::assoc::lemma_remove_index(nodes0, i as int, if w < i {
                                w
                            } else {
                                w - 1
                            });
                        }
                        nodes0.remove(i as int).insert_ensures(i as int, node);
                        crate::assoc::lemma_insert_index(
                            nodes0.remove(i as int),
                            i as int,
                            node,
                            w,
                        );
                    }
                }
                assert(self.node_ids() =~= g0.node_ids());
                g0.lemma_node_at(id, i as int);
                self.lemma_node_at(id, i as int);
                assert forall|id2: usize| id2 != id && #[trigger] g0.spec_has_node(id2) implies
                    self.spec_node(id2) == g0.spec_node(id2) by {
                    let w = choose|w: int|
                        0 <= w < g0.node_ids().len() && g0.node_ids()[w] == id2;
                    assert(g0.nodes@[w].id == id2);
                    g0.lemma_node_at(id2, w);
                    assert(w != i);
                    assert(self.nodes@[w].id == id2);
                    self.lemma_node_at(id2, w);
                }
                assert forall|j: int| 0 <= j < nodes1.len() implies (#[trigger] nodes1[j]).wf()
                    && nodes1[j].id <= self.max_node_id by {
                    if j != i {
                        assert(nodes0[j].wf() && nodes0[j].id <= g0.max_node_id);
                    }
                }
            }
        } else {
            proof {
                assert forall|j: int| i <= j < self.nodes@.len() implies (
                #[trigger] self.nodes@[j]).id > id by {
                    if j > i {
                        assert(g0.node_ids()[i as int] < g0.node_ids()[j]);
                    }
                }
                assert(!g0.spec_has_node(id)) by {
                    if g0.spec_has_node(id) {
                        let w = choose|w: int|
                            0 <= w < g0.node_ids().len() && g0.node_ids()[w] == id;
                        assert(g0.nodes@[w].id == id);
                    }
                }
            }
            self.nodes.insert(i, node);
            proof {
                let nodes0 = g0.nodes@;
                let nodes1 = self.nodes@;
                assert(nodes1 == nodes0.insert(i as int, node));
                assert forall|w: int| 0 <= w < nodes1.len() implies nodes1[w] == (if w < i {
                    nodes0[w]
                } else if w == i {
                    node
                } else {
                    nodes0[w - 1]
                }) by {
                    crate::assoc::lemma_insert_index(nodes0, i as int, node, w);
                }
                assert forall|a: int, b: int| 0 <= a < b < self.node_ids().len() implies self
                    .node_ids()[a] < self.node_ids()[b] by {
                    assert(self.node_ids()[a] == nodes1[a].id);
                    assert(self.node_ids()[b] == nodes1[b].id);
                    if a < i && b < i {
                        assert(g0.node_ids()[a] < g0.node_ids()[b]);
                    } else if a > i && b > i {
                        assert(g0.node_ids()[a - 1] < g0.node_ids()[b - 1]);
                    } else if a < i && b > i {
                        assert(nodes0[a].id < id);
                        assert(nodes0[b - 1].id > id);
                    }
                }
                self.lemma_node_at(id, i as int);
                assert forall|id2: usize| #[trigger] self.spec_has_node(id2) implies
                    g0.spec_has_node(id2) || id2 == id by {
                    let w = choose|w: int|
                        0 <= w < self.node_ids().len() && self.node_ids()[w] == id2;
                    assert(nodes1[w].id == id2);
                    if w < i {
                        assert(g0.node_ids()[w] == id2);
                    } else if w > i {
                        assert(g0.node_ids()[w - 1] == id2);
                    }
                }
                assert forall|id2: usize| g0.spec_has_node(id2) implies #[trigger] self
                    .spec_has_node(id2) by {
                    let w = choose|w: int|
                        0 <= w < g0.node_ids().len() && g0.node_ids()[w] == id2;
                    if w < i {
                        assert(self.node_ids()[w] == id2);
                    } else {
                        assert(self.node_ids()[w + 1] == id2);
                    }
                }
                assert forall|id2: usize| id2 != id && #[trigger] g0.spec_has_node(id2) implies
                    self.spec_node(id2) == g0.spec_node(id2) by {
                    let w = choose|w: int|
                        0 <= w < g0.node_ids().len() && g0.node_ids()[w] == id2;
                    assert(g0.nodes@[w].id == id2);
                    g0.lemma_node_at(id2, w);
                    if w < i {
                        assert(nodes1[w].id == id2);
                        self.lemma_node_at(id2, w);
                    } else {
                        assert(nodes1[w + 1].id == id2);
                        self.lemma_node_at(id2, w + 1);
                    }
                }
                assert forall|j: int| 0 <= j < nodes1.len() implies (#[trigger] nodes1[j]).wf()
                    && nodes1[j].id <= self.max_node_id by {
                    if j < i {
                        assert(nodes0[j].wf() && nodes0[j].id <= g0.max_node_id);
                    } else if j > i {
                        assert(nodes0[j - 1].wf() && nodes0[j - 1].id <= g0.max_node_id);
                    }
                }
            }
        }
        proof {
            Graph::lemma_wf_more_nodes(g0, *self);
        }
    }

    /// Mutable lookup: hands the caller the stored node itself.
    /// Whatever the caller leaves in the node is what the graph then
    /// holds at that position; the indices, the other nodes and the
    /// counter are untouched. A caller that changes the id or breaks
    /// the property-key discipline leaves the graph outside `wf`, just
    /// as direct writes through the public fields would.
    pub fn get_node_mut(&mut self, node_id: usize) -> (r: Option<&mut Node>)
        requires
            old(self).wf(),
        ensures
            match r {
                Some(n) => old(self).spec_has_node(node_id) && *n == old(self).spec_node(node_id)
                    && final(self).nodes@ == old(self).nodes@.update(
                    old(self).node_idx(node_id),
                    *final(n),
                ) && final(self).edges == old(self).edges && final(self).reverse_edges == old(
                    self,
                ).reverse_edges && final(self).max_node_id == old(self).max_node_id,
                None => !old(self).spec_has_node(node_id) && *final(self) == *old(self),
            },
    {
        match self.find_node(node_id) {
            Some(i) => Some(&mut self.nodes[i]),
            None => None,
        }
    }

    /// Looks a node up by id; absence is a normal result, not an error.
    pub fn get_node(&self, node_id: usize) -> (r: Option<&Node>)
        requires
            self.wf(),
        ensures
            match r {
                Some(n) => self.spec_has_node(node_id) && *n == self.spec_node(node_id) && n.id
                    == node_id,
                None => !self.spec_has_node(node_id),
            },
    {
        match self.find_node(node_id) {
            Some(i) => Some(&self.nodes[i]),
            None => None,
        }
    }
}

impl Graph {
    /// Semantic graph equality, as persistence sees it: the same live
    /// nodes with the same property mappings, and the same edges with
    /// the same label sets. The reverse index is determined by the
    /// forward one (`mirror_wf`), and the allocation counter is a
    /// session-local detail, so neither takes part.
    pub open spec fn equiv(self, other: Graph) -> bool {
        &&& forall|id: usize| #[trigger] self.spec_has_node(id) <==> other.spec_has_node(id)
        &&& forall|id: usize|
            #[trigger] self.spec_has_node(id) ==> self.spec_node(id).same_props(
                other.spec_node(id),
            )
        &&& forall|o: usize, d: usize|
            #[trigger] self.spec_has_edge(o, d) <==> other.spec_has_edge(o, d)
        &&& forall|o: usize, d: usize|
            #[trigger] self.spec_has_edge(o, d) ==> self.spec_edge(o, d).same_labels(
                other.spec_edge(o, d),
            )
    }

    /// Equivalent well-formed graphs store the same node id sequence.
    proof fn lemma_equiv_node_ids(g1: Graph, g2: Graph)
        requires
            g1.wf(),
            g2.wf(),
            forall|id: usize| #[trigger] g1.spec_has_node(id) <==> g2.spec_has_node(id),
        ensures
            g1.node_ids() == g2.node_ids(),
    {
        assert forall|x: usize| #[trigger] g1.node_ids().contains(x) <==> g2.node_ids().contains(
            x,
        ) by {
            assert(g1.spec_has_node(x) <==> g2.spec_has_node(x));
        }
        lemma_sorted_same_members(g1.node_ids(), g2.node_ids());
    }

    /// Equivalent well-formed graphs store the same origin key sequence.
    proof fn lemma_equiv_edge_keys(g1: Graph, g2: Graph)
        requires
            g1.wf(),
            g2.wf(),
            forall|o: usize, d: usize|
                #[trigger] g1.spec_has_edge(o, d) <==> g2.spec_has_edge(o, d),
        ensures
            akeys(g1.edges@) == akeys(g2.edges@),
    {
        assert forall|o: usize| #[trigger] akeys(g1.edges@).contains(o) <==> akeys(
            g2.edges@,
        ).contains(o) by {
            Graph::lemma_origin_member(g1, o);
            Graph::lemma_origin_member(g2, o);
            if exists|d: usize| #[trigger] g1.spec_has_edge(o, d) {
                let d = choose|d: usize| #[trigger] g1.spec_has_edge(o, d);
                assert(g2.spec_has_edge(o, d));
            }
            if exists|d: usize| #[trigger] g2.spec_has_edge(o, d) {
                let d = choose|d: usize| #[trigger] g2.spec_has_edge(o, d);
                assert(g1.spec_has_edge(o, d));
            }
        }
        lemma_sorted_same_members(akeys(g1.edges@), akeys(g2.edges@));
    }

    /// An origin appears in the forward index exactly when some edge
    /// leaves it: rows are never empty.
    proof fn lemma_origin_member(g: Graph, o: usize)
        requires
            g.wf(),
        ensures
            akeys(g.edges@).contains(o) <==> exists|d: usize| #[trigger] g.spec_has_edge(o, d),
    {
        if akeys(g.edges@).contains(o) {
            let w = choose|w: int| 0 <= w < akeys(g.edges@).len() && akeys(g.edges@)[w] == o;
            assert(g.edges@[w].0 == o);
            lemma_aidx(g.edges@, o, w);
            let row = aget(g.edges@, o);
            assert(g.edge_row_wf(row));
            let d0 = row@[0].0;
            lemma_aidx(row@, d0, 0);
            assert(g.spec_has_edge(o, d0));
        }
        if exists|d: usize| #[trigger] g.spec_has_edge(o, d) {
            let d = choose|d: usize| #[trigger] g.spec_has_edge(o, d);
            let w = aidx(g.edges@, o);
            assert(g.edges@[w].0 == o);
            assert(akeys(g.edges@)[w] == o);
        }
    }

    /// Whether this graph equals another in the sense of [`Graph::equiv`]:
    /// same nodes and properties, same edges and label sets.
    #[verifier::rlimit(60)]
    #[verifier::loop_isolation(false)]
    pub fn eq(&self, other: &Graph) -> (r: bool)
        requires
            self.wf(),
            other.wf(),
        ensures
            r == self.equiv(*other),
    {
        if self.nodes.len() != other.nodes.len() {
            proof {
                if self.equiv(*other) {
                    Graph::lemma_equiv_node_ids(*self, *other);
                }
            }
            return false;
        }
        let mut i: usize = 0;
        while i < self.nodes.len()
            invariant
                i <= self.nodes@.len(),
                forall|j: int|
                    0 <= j < i ==> (#[trigger] self.nodes@[j]).id == other.nodes@[j].id
                        && self.nodes@[j].same_props(other.nodes@[j]),
            decreases self.nodes@.len() - i,
        {
            if self.nodes[i].id != other.nodes[i].id {
                proof {
                    if self.equiv(*other) {
                        Graph::lemma_equiv_node_ids(*self, *other);
                        assert(self.node_ids()[i as int] == other.node_ids()[i as int]);
                    }
                }
                return false;
            }
            if !self.nodes[i].props_match(&other.nodes[i]) {
                proof {
                    let id = self.nodes@[i as int].id;
                    self.lemma_node_at(id, i as int);
                    other.lemma_node_at(id, i as int);
                }
                return false;
            }
            i += 1;
        }
        if self.edges.len() != other.edges.len() {
            proof {
                if self.equiv(*other) {
                    Graph::lemma_equiv_edge_keys(*self, *other);
                }
            }
            return false;
        }
        let mut i: usize = 0;
        while i < self.edges.len()
            invariant
                i <= self.edges@.len(),
                self.edges@.len() == other.edges@.len(),
                forall|j: int|
                    0 <= j < i ==> (#[trigger] self.edges@[j]).0 == other.edges@[j].0 && {
                        let r1 = self.edges@[j].1;
                        let r2 = other.edges@[j].1;
                        &&& r1@.len() == r2@.len()
                        &&& forall|v: int|
                            0 <= v < r1@.len() ==> (#[trigger] r1@[v]).0 == r2@[v].0
                                && r1@[v].1.same_labels(r2@[v].1)
                    },
            decreases self.edges@.len() - i,
        {
            let o = self.edges[i].0;
            if o != other.edges[i].0 {
                proof {
                    if self.equiv(*other) {
                        Graph::lemma_equiv_edge_keys(*self, *other);
                        assert(akeys(self.edges@)[i as int] == akeys(other.edges@)[i as int]);
                    }
                }
                return false;
            }
            proof {
                lemma_aidx(self.edges@, o, i as int);
                lemma_aidx(other.edges@, o, i as int);
            }
            let row1 = &self.edges[i].1;
            let row2 = &other.edges[i].1;
            proof {
                if self.equiv(*other) {
                    assert forall|d: usize| #[trigger] akeys(row1@).contains(d) <==> akeys(
                        row2@,
                    ).contains(d) by {
                        if akeys(row1@).contains(d) {
                            let w = choose|w: int|
                                0 <= w < akeys(row1@).len() && akeys(row1@)[w] == d;
                            assert(row1@[w].0 == d);
                            lemma_aidx(row1@, d, w);
                            assert(self.spec_has_edge(o, d));
                            assert(other.spec_has_edge(o, d));
                            let v = aidx(row2@, d);
                            assert(row2@[v].0 == d);
                            assert(akeys(row2@)[v] == d);
                        }
                        if akeys(row2@).contains(d) {
                            let w = choose|w: int|
                                0 <= w < akeys(row2@).len() && akeys(row2@)[w] == d;
                            assert(row2@[w].0 == d);
                            lemma_aidx(row2@, d, w);
                            assert(other.spec_has_edge(o, d));
                            assert(self.spec_has_edge(o, d));
                            let v = aidx(row1@, d);
                            assert(row1@[v].0 == d);
                            assert(akeys(row1@)[v] == d);
                        }
                    }
                    lemma_sorted_same_members(akeys(row1@), akeys(row2@));
                }
            }
            if row1.len() != row2.len() {
                return false;
            }
            let mut j: usize = 0;
            while j < row1.len()
                invariant
                    j <= row1@.len(),
                    row1@.len() == row2@.len(),
                    row1 == aget(self.edges@, o),
                    row2 == aget(other.edges@, o),
                    ahas(self.edges@, o),
                    ahas(other.edges@, o),
                    forall|v: int|
                        0 <= v < j ==> (#[trigger] row1@[v]).0 == row2@[v].0
                            && row1@[v].1.same_labels(row2@[v].1),
                decreases row1@.len() - j,
            {
                let d = row1[j].0;
                if d != row2[j].0 {
                    proof {
                        if self.equiv(*other) {
                            assert(akeys(row1@) == akeys(row2@)) by {
                                assert forall|d2: usize| #[trigger] akeys(row1@).contains(d2)
                                    <==> akeys(row2@).contains(d2) by {
                                    if akeys(row1@).contains(d2) {
                                        let w = choose|w: int|
                                            0 <= w < akeys(row1@).len() && akeys(row1@)[w] == d2;
                                        assert(row1@[w].0 == d2);
                                        lemma_aidx(row1@, d2, w);
                                        assert(self.spec_has_edge(o, d2));
                                        assert(other.spec_has_edge(o, d2));
                                        let v = aidx(row2@, d2);
                                        assert(akeys(row2@)[v] == d2);
                                    }
                                    if akeys(row2@).contains(d2) {
                                        let w = choose|w: int|
                                            0 <= w < akeys(row2@).len() && akeys(row2@)[w] == d2;
                                        assert(row2@[w].0 == d2);
                                        lemma_aidx(row2@, d2, w);
                                        assert(other.spec_has_edge(o, d2));
                                        assert(self.spec_has_edge(o, d2));
                                        let v = aidx(row1@, d2);
                                        assert(akeys(row1@)[v] == d2);
                                    }
                                }
                                lemma_sorted_same_members(akeys(row1@), akeys(row2@));
                            }
                            assert(akeys(row1@)[j as int] == akeys(row2@)[j as int]);
                        }
                    }
                    return false;
                }
                if !row1[j].1.labels_match(&row2[j].1) {
                    proof {
                        lemma_aidx(row1@, d, j as int);
                        lemma_aidx(row2@, d, j as int);
                        assert(self.spec_has_edge(o, d));
                    }
                    return false;
                }
                j += 1;
            }
            i += 1;
        }
        proof {
            assert forall|id: usize| #[trigger] self.spec_has_node(id) <==> other.spec_has_node(
                id,
            ) by {
                if self.spec_has_node(id) {
                    let w = choose|w: int|
                        0 <= w < self.node_ids().len() && self.node_ids()[w] == id;
                    assert(self.nodes@[w].id == id);
                    assert(other.node_ids()[w] == id);
                }
                if other.spec_has_node(id) {
                    let w = choose|w: int|
                        0 <= w < other.node_ids().len() && other.node_ids()[w] == id;
                    assert(other.nodes@[w].id == id);
                    assert(self.node_ids()[w] == id);
                }
            }
            assert forall|id: usize| #[trigger] self.spec_has_node(id) implies self.spec_node(
                id,
            ).same_props(other.spec_node(id)) by {
                let w = choose|w: int| 0 <= w < self.node_ids().len() && self.node_ids()[w] == id;
                assert(self.nodes@[w].id == id);
                self.lemma_node_at(id, w);
                other.lemma_node_at(id, w);
            }
            assert forall|o: usize, d: usize| #[trigger] self.spec_has_edge(o, d) <==> other
                .spec_has_edge(o, d) by {
                if self.spec_has_edge(o, d) {
                    let w = aidx(self.edges@, o);
                    assert(self.edges@[w].0 == o);
                    assert(other.edges@[w].0 == o);
                    lemma_aidx(other.edges@, o, w);
                    let row1 = self.edges@[w].1;
                    let row2 = other.edges@[w].1;
                    let v = aidx(row1@, d);
                    assert(row1@[v].0 == d);
                    assert(row2@[v].0 == d);
                    lemma_aidx(row2@, d, v);
                }
                if other.spec_has_edge(o, d) {
                    let w = aidx(other.edges@, o);
                    assert(other.edges@[w].0 == o);
                    assert(self.edges@[w].0 == o);
                    lemma_aidx(self.edges@, o, w);
                    let row1 = self.edges@[w].1;
                    let row2 = other.edges@[w].1;
                    let v = aidx(row2@, d);
                    assert(row2@[v].0 == d);
                    assert(row1@[v].0 == d);
                    lemma_aidx(row1@, d, v);
                }
            }
            assert forall|o: usize, d: usize| #[trigger] self.spec_has_edge(o, d) implies self
                .spec_edge(o, d).same_labels(other.spec_edge(o, d)) by {
                let w = aidx(self.edges@, o);
                assert(self.edges@[w].0 == o);
                assert(other.edges@[w].0 == o);
                lemma_aidx(other.edges@, o, w);
                let row1 = self.edges@[w].1;
                let row2 = other.edges@[w].1;
                let v = aidx(row1@, d);
                assert(row1@[v].0 == d);
                assert(row2@[v].0 == d);
                lemma_aidx(row1@, d, v);
                lemma_aidx(row2@, d, v);
            }
        }
        true
    }
}

/// Two strictly sorted id sequences with the same members are the same
/// sequence.
pub proof fn lemma_sorted_same_members(s1: Seq<usize>, s2: Seq<usize>)
    requires
        sorted_keys(s1),
        sorted_keys(s2),
        forall|x: usize| #[trigger] s1.contains(x) <==> s2.contains(x),
    ensures
        s1 == s2,
    decreases s1.len(),
{
    if s1.len() == 0 {
        if s2.len() > 0 {
            assert(s2.contains(s2[0]));
            assert(s1.contains(s2[0]));
            assert(false);
        }
        assert(s1 =~= s2);
    } else {
        assert(s1.contains(s1[0]));
        assert(s2.contains(s1[0]));
        assert(s2.len() > 0);
        assert(s2.contains(s2[0]));
        assert(s1.contains(s2[0]));
        let i = choose|i: int| 0 <= i < s2.len() && s2[i] == s1[0];
        let j = choose|j: int| 0 <= j < s1.len() && s1[j] == s2[0];
        assert(s2[0] <= s2[i]) by {
            if i > 0 {
                assert(s2[0] < s2[i]);
            }
        }
        assert(s1[0] <= s1[j]) by {
            if j > 0 {
                assert(s1[0] < s1[j]);
            }
        }
        assert(s1[0] == s2[0]);
        let t1 = s1.drop_first();
        let t2 = s2.drop_first();
        assert forall|a: int, b: int| 0 <= a < b < t1.len() implies t1[a] < t1[b] by {
            assert(s1[a + 1] < s1[b + 1]);
        }
        assert forall|a: int, b: int| 0 <= a < b < t2.len() implies t2[a] < t2[b] by {
            assert(s2[a + 1] < s2[b + 1]);
        }
        assert forall|x: usize| #[trigger] t1.contains(x) implies t2.contains(x) by {
            let w = choose|w: int| 0 <= w < t1.len() && t1[w] == x;
            assert(s1[w + 1] == x);
            assert(s1[0] < s1[w + 1]);
            assert(s1.contains(x));
            assert(s2.contains(x));
            let v = choose|v: int| 0 <= v < s2.len() && s2[v] == x;
            assert(v != 0);
            assert(t2[v - 1] == x);
        }
        assert forall|x: usize| #[trigger] t2.contains(x) implies t1.contains(x) by {
            let w = choose|w: int| 0 <= w < t2.len() && t2[w] == x;
            assert(s2[w + 1] == x);
            assert(s2[0] < s2[w + 1]);
            assert(s2.contains(x));
            assert(s1.contains(x));
            let v = choose|v: int| 0 <= v < s1.len() && s1[v] == x;
            assert(v != 0);
            assert(t1[v - 1] == x);
        }
        lemma_sorted_same_members(t1, t2);
        assert(s1 =~= s2) by {
            assert forall|w: int| 0 <= w < s1.len() implies s1[w] == s2[w] by {
                if w > 0 {
                    assert(t1[w - 1] == t2[w - 1]);
                }
            }
        }
    }
}

/// A label just added is on the edge.
pub proof fn lemma_add_label_contains(ls: Seq<Seq<char>>, l: Seq<char>)
    ensures
        Edge::spec_add_label(ls, l).contains(l),
{
    if !ls.contains(l) {
        assert(Edge::spec_add_label(ls, l)[ls.len() as int] == l);
    }
}

/// Adding a label twice is the same as adding it once.
pub proof fn lemma_add_label_idempotent(ls: Seq<Seq<char>>, l: Seq<char>)
    ensures
        Edge::spec_add_label(Edge::spec_add_label(ls, l), l) == Edge::spec_add_label(ls, l),
{
    lemma_add_label_contains(ls, l);
}

/// Connecting establishes what the queries then report: the
/// requirements are exactly what the contract of `connect_nodes` says
/// of the graph it leaves behind after a successful call on
/// `(a, b, l)`, and the conclusion is what makes `are_connected(a, b)`
/// answer true and `edges_with_label_from(a, l)` include `b`, by their
/// contracts.
pub proof fn lemma_connect_establishes(before: Graph, after: Graph, a: usize, b: usize, l: Seq<
    char,
>)
    requires
        after.spec_has_edge(a, b),
        after.spec_edge_labels(a, b) == Edge::spec_add_label(
            before.spec_labels_or_empty(a, b),
            l,
        ),
    ensures
        after.spec_pair_labeled(a, b, l),
{
    lemma_add_label_contains(before.spec_labels_or_empty(a, b), l);
}

/// Connecting the same pair under the same label twice leaves the label
/// sequence exactly as one call left it: the requirements are what the
/// contract of `connect_nodes` says of two successive successful calls
/// on `(a, b, l)`, and the conclusion is that the second call changed
/// nothing about the pair.
pub proof fn lemma_connect_idempotent(
    first: Graph,
    once: Graph,
    twice: Graph,
    a: usize,
    b: usize,
    l: Seq<char>,
)
    requires
        once.spec_has_edge(a, b),
        once.spec_edge_labels(a, b) == Edge::spec_add_label(first.spec_labels_or_empty(a, b), l),
        twice.spec_edge_labels(a, b) == Edge::spec_add_label(once.spec_labels_or_empty(a, b), l),
    ensures
        twice.spec_edge_labels(a, b) == once.spec_edge_labels(a, b),
{
    lemma_add_label_idempotent(first.spec_labels_or_empty(a, b), l);
}

} // verus!
