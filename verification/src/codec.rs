//! The JSON persistence of a graph.
//!
//! A graph has exactly one canonical document: an object with an
//! `"edges"` member and a `"nodes"` member, both keyed by node ids as
//! decimal strings in ascending order. `Graph::to_json_string` produces
//! exactly the canonical text of that document; `Graph::from_json` reads
//! a document back, rebuilding the reverse index and the allocation
//! counter by replaying every edge through the live `connect_nodes`
//! path, so that a loaded graph satisfies the same invariants as one
//! built by hand, and an edge naming a dead node is rejected as
//! `UnknownNode` rather than admitted.

use vstd::prelude::*;

use crate::assoc::{aget, ahas, aidx, akeys, lemma_aidx};
use crate::errors::GraphError;
use crate::graph::{Edge, Graph, Node};
use crate::json::{print_jm, print_member, print_members, print_items, print_str, JModel,
    JsonValue, lemma_esc_digits, lemma_print_items_snoc, lemma_print_members_snoc};
use crate::text::{dec_rep, fmt_usize, lemma_dec_rep, chars_to_string, str_to_chars, parse_usize,
    lex_lt, lemma_lex_total};

verus! {

/// Pairwise distinct keys in a pair sequence.
pub open spec fn keys_distinct(s: Seq<(Seq<char>, Seq<char>)>) -> bool {
    forall|i: int, j: int| 0 <= i < j < s.len() ==> (#[trigger] s[i]).0 != (#[trigger] s[j]).0
}

/// Strictly ascending keys in a pair sequence.
pub open spec fn keys_ascending(s: Seq<(Seq<char>, Seq<char>)>) -> bool {
    forall|i: int, j: int|
        0 <= i < j < s.len() ==> lex_lt((#[trigger] s[i]).0, (#[trigger] s[j]).0)
}

/// One pair placed at its ordered position among sorted pairs.
pub open spec fn insert_pm(
    p: (Seq<char>, Seq<char>),
    s: Seq<(Seq<char>, Seq<char>)>,
) -> Seq<(Seq<char>, Seq<char>)>
    decreases s.len(),
{
    if s.len() == 0 {
        seq![p]
    } else if lex_lt(p.0, s[0].0) {
        seq![p] + s
    } else {
        seq![s[0]] + insert_pm(p, s.drop_first())
    }
}

/// A property bag rearranged into ascending key order, the order node
/// documents are written in.
pub open spec fn sorted_pm(s: Seq<(Seq<char>, Seq<char>)>) -> Seq<(Seq<char>, Seq<char>)>
    decreases s.len(),
{
    if s.len() == 0 {
        Seq::empty()
    } else {
        insert_pm(s.last(), sorted_pm(s.drop_last()))
    }
}

/// Inserting keeps exactly the pairs: the one inserted and those there.
pub proof fn lemma_insert_pm_members(p: (Seq<char>, Seq<char>), s: Seq<(Seq<char>, Seq<char>)>)
    ensures
        insert_pm(p, s).len() == s.len() + 1,
        forall|i: int|
            0 <= i < insert_pm(p, s).len() ==> #[trigger] insert_pm(p, s)[i] == p || s.contains(
                insert_pm(p, s)[i],
            ),
        insert_pm(p, s).contains(p),
        forall|q: (Seq<char>, Seq<char>)| s.contains(q) ==> #[trigger] insert_pm(p, s).contains(
            q,
        ),
    decreases s.len(),
{
    let r = insert_pm(p, s);
    if s.len() == 0 {
        assert(r[0] == p);
    } else if lex_lt(p.0, s[0].0) {
        assert(r[0] == p);
        assert forall|i: int| 0 <= i < r.len() implies #[trigger] r[i] == p || s.contains(
            r[i],
        ) by {
            if i > 0 {
                assert(r[i] == s[i - 1]);
            }
        }
        assert forall|q: (Seq<char>, Seq<char>)| s.contains(q) implies #[trigger] r.contains(
            q,
        ) by {
            let w = choose|w: int| 0 <= w < s.len() && s[w] == q;
            assert(r[w + 1] == q);
        }
    } else {
        lemma_insert_pm_members(p, s.drop_first());
        let inner = insert_pm(p, s.drop_first());
        assert forall|i: int| 0 <= i < r.len() implies #[trigger] r[i] == p || s.contains(
            r[i],
        ) by {
            if i == 0 {
                assert(r[0] == s[0]);
            } else {
                assert(r[i] == inner[i - 1]);
                if inner[i - 1] != p {
                    assert(s.drop_first().contains(inner[i - 1]));
                    let w = choose|w: int|
                        0 <= w < s.drop_first().len() && s.drop_first()[w] == inner[i - 1];
                    assert(s[w + 1] == inner[i - 1]);
                }
            }
        }
        assert(inner.contains(p));
        let w = choose|w: int| 0 <= w < inner.len() && inner[w] == p;
        assert(r[w + 1] == p);
        assert forall|q: (Seq<char>, Seq<char>)| s.contains(q) implies #[trigger] r.contains(
            q,
        ) by {
            let w2 = choose|w2: int| 0 <= w2 < s.len() && s[w2] == q;
            if w2 == 0 {
                assert(r[0] == q);
            } else {
                assert(s.drop_first()[w2 - 1] == q);
                assert(inner.contains(q));
                let w3 = choose|w3: int| 0 <= w3 < inner.len() && inner[w3] == q;
                assert(r[w3 + 1] == q);
            }
        }
    }
}

/// Sorting keeps exactly the pairs that were there.
pub proof fn lemma_sorted_pm_members(s: Seq<(Seq<char>, Seq<char>)>)
    ensures
        sorted_pm(s).len() == s.len(),
        forall|i: int|
            0 <= i < sorted_pm(s).len() ==> s.contains(#[trigger] sorted_pm(s)[i]),
        forall|q: (Seq<char>, Seq<char>)| s.contains(q) ==> #[trigger] sorted_pm(s).contains(q),
    decreases s.len(),
{
    if s.len() > 0 {
        let s0 = s.drop_last();
        lemma_sorted_pm_members(s0);
        lemma_insert_pm_members(s.last(), sorted_pm(s0));
        let r = sorted_pm(s);
        assert forall|i: int| 0 <= i < r.len() implies s.contains(#[trigger] r[i]) by {
            if r[i] == s.last() {
                assert(s[s.len() - 1] == r[i]);
            } else {
                assert(sorted_pm(s0).contains(r[i]));
                let w = choose|w: int| 0 <= w < sorted_pm(s0).len() && sorted_pm(s0)[w] == r[i];
                assert(s0.contains(sorted_pm(s0)[w]));
                let w2 = choose|w2: int| 0 <= w2 < s0.len() && s0[w2] == r[i];
                assert(s[w2] == r[i]);
            }
        }
        assert forall|q: (Seq<char>, Seq<char>)| s.contains(q) implies #[trigger] r.contains(
            q,
        ) by {
            let w = choose|w: int| 0 <= w < s.len() && s[w] == q;
            if w == s.len() - 1 {
                assert(r.contains(s.last()));
            } else {
                assert(s0[w] == q);
                assert(s0.contains(q));
                assert(sorted_pm(s0).contains(q));
            }
        }
    }
}

/// The order is transitive.
pub proof fn lemma_lex_trans(a: Seq<char>, b: Seq<char>, c: Seq<char>)
    requires
        lex_lt(a, b),
        lex_lt(b, c),
    ensures
        lex_lt(a, c),
    decreases a.len(),
{
    if a.len() > 0 && b.len() > 0 && c.len() > 0 {
        if a[0] as u32 == b[0] as u32 && b[0] as u32 == c[0] as u32 {
            lemma_lex_trans(a.drop_first(), b.drop_first(), c.drop_first());
        }
    }
}

/// Inserting a fresh key into ascending pairs keeps them ascending.
pub proof fn lemma_insert_pm_sorted(p: (Seq<char>, Seq<char>), s: Seq<(Seq<char>, Seq<char>)>)
    requires
        keys_ascending(s),
        forall|w: int| 0 <= w < s.len() ==> (#[trigger] s[w]).0 != p.0,
    ensures
        keys_ascending(insert_pm(p, s)),
    decreases s.len(),
{
    let r = insert_pm(p, s);
    if s.len() == 0 {
    } else if lex_lt(p.0, s[0].0) {
        assert forall|i: int, j: int| 0 <= i < j < r.len() implies lex_lt(
            (#[trigger] r[i]).0,
            (#[trigger] r[j]).0,
        ) by {
            if i == 0 {
                assert(r[j] == s[j - 1]);
                if j > 1 {
                    assert(lex_lt(s[0].0, s[j - 1].0));
                    lemma_lex_trans(p.0, s[0].0, s[j - 1].0);
                }
            } else {
                assert(r[i] == s[i - 1] && r[j] == s[j - 1]);
            }
        }
    } else {
        assert forall|i: int, j: int| 0 <= i < j < s.drop_first().len() implies lex_lt(
            (#[trigger] s.drop_first()[i]).0,
            (#[trigger] s.drop_first()[j]).0,
        ) by {
            assert(s.drop_first()[i] == s[i + 1] && s.drop_first()[j] == s[j + 1]);
        }
        assert forall|w: int| 0 <= w < s.drop_first().len() implies (
        #[trigger] s.drop_first()[w]).0 != p.0 by {
            assert(s.drop_first()[w] == s[w + 1]);
        }
        lemma_insert_pm_sorted(p, s.drop_first());
        lemma_insert_pm_members(p, s.drop_first());
        let inner = insert_pm(p, s.drop_first());
        assert forall|i: int, j: int| 0 <= i < j < r.len() implies lex_lt(
            (#[trigger] r[i]).0,
            (#[trigger] r[j]).0,
        ) by {
            if i == 0 {
                assert(r[j] == inner[j - 1]);
                if inner[j - 1] == p {
                    lemma_lex_total(p.0, s[0].0);
                    assert(lex_lt(s[0].0, p.0));
                } else {
                    assert(s.drop_first().contains(inner[j - 1]));
                    let w = choose|w: int|
                        0 <= w < s.drop_first().len() && s.drop_first()[w] == inner[j - 1];
                    assert(s[w + 1] == inner[j - 1]);
                    assert(lex_lt(s[0].0, s[w + 1].0));
                }
            } else {
                assert(r[i] == inner[i - 1] && r[j] == inner[j - 1]);
            }
        }
    }
}

/// Sorting a bag with distinct keys yields ascending keys, still
/// distinct.
pub proof fn lemma_sorted_pm_sorted(s: Seq<(Seq<char>, Seq<char>)>)
    requires
        keys_distinct(s),
    ensures
        keys_ascending(sorted_pm(s)),
        keys_distinct(sorted_pm(s)),
    decreases s.len(),
{
    if s.len() > 0 {
        let s0 = s.drop_last();
        assert forall|i: int, j: int| 0 <= i < j < s0.len() implies (#[trigger] s0[i]).0 != (
        #[trigger] s0[j]).0 by {
            assert(s0[i] == s[i] && s0[j] == s[j]);
        }
        lemma_sorted_pm_sorted(s0);
        lemma_sorted_pm_members(s0);
        assert forall|w: int| 0 <= w < sorted_pm(s0).len() implies (
        #[trigger] sorted_pm(s0)[w]).0 != s.last().0 by {
            assert(s0.contains(sorted_pm(s0)[w]));
            let w2 = choose|w2: int| 0 <= w2 < s0.len() && s0[w2] == sorted_pm(s0)[w];
            assert(s[w2] == sorted_pm(s0)[w]);
            assert(s[w2].0 != s[s.len() - 1].0);
        }
        lemma_insert_pm_sorted(s.last(), sorted_pm(s0));
        assert forall|i: int, j: int| 0 <= i < j < sorted_pm(s).len() implies (
        #[trigger] sorted_pm(s)[i]).0 != (#[trigger] sorted_pm(s)[j]).0 by {
            assert(lex_lt(sorted_pm(s)[i].0, sorted_pm(s)[j].0));
            if sorted_pm(s)[i].0 == sorted_pm(s)[j].0 {
                lemma_lex_total(sorted_pm(s)[i].0, sorted_pm(s)[i].0);
                lemma_lex_irrefl(sorted_pm(s)[i].0);
            }
        }
    }
}

/// Nothing comes before itself.
pub proof fn lemma_lex_irrefl(a: Seq<char>)
    ensures
        !lex_lt(a, a),
    decreases a.len(),
{
    if a.len() > 0 {
        lemma_lex_irrefl(a.drop_first());
    }
}

/// Where the ordered position is, the insertion is a positional insert.
pub proof fn lemma_insert_pm_at(
    p: (Seq<char>, Seq<char>),
    s: Seq<(Seq<char>, Seq<char>)>,
    pos: int,
)
    requires
        0 <= pos <= s.len(),
        forall|w: int| 0 <= w < pos ==> !lex_lt(p.0, (#[trigger] s[w]).0),
        pos < s.len() ==> lex_lt(p.0, s[pos].0),
    ensures
        insert_pm(p, s) == s.insert(pos, p),
    decreases s.len(),
{
    if s.len() == 0 {
        assert(insert_pm(p, s) =~= s.insert(0, p));
    } else if pos == 0 {
        assert(lex_lt(p.0, s[0].0));
        assert(insert_pm(p, s) =~= s.insert(0, p));
    } else {
        assert(!lex_lt(p.0, s[0].0));
        assert forall|w: int| 0 <= w < pos - 1 implies !lex_lt(
            p.0,
            (#[trigger] s.drop_first()[w]).0,
        ) by {
            assert(s.drop_first()[w] == s[w + 1]);
        }
        assert(pos - 1 < s.drop_first().len() ==> lex_lt(p.0, s.drop_first()[pos - 1].0));
        lemma_insert_pm_at(p, s.drop_first(), pos - 1);
        assert(insert_pm(p, s) =~= s.insert(pos, p)) by {
            let r = insert_pm(p, s);
            let t = s.insert(pos, p);
            assert forall|i: int| 0 <= i < r.len() implies r[i] == t[i] by {
                crate::assoc::lemma_insert_index(s, pos, p, i);
                if i > 0 {
                    assert(r[i] == s.drop_first().insert(pos - 1, p)[i - 1]);
                    crate::assoc::lemma_insert_index(s.drop_first(), pos - 1, p, i - 1);
                    if i - 1 < pos - 1 {
                        assert(s.drop_first()[i - 1] == s[i]);
                    } else if i - 1 > pos - 1 {
                        assert(s.drop_first()[i - 2] == s[i - 1]);
                    }
                }
            }
            lemma_insert_pm_members(p, s);
        }
    }
}

/// The pairs of a property bag, rearranged into ascending key order.
#[verifier::loop_isolation(false)]
fn sort_pairs(ps: &Vec<(String, String)>) -> (r: Vec<(String, String)>)
    ensures
        r@.map_values(|p: (String, String)| (p.0@, p.1@)) == sorted_pm(
            ps@.map_values(|p: (String, String)| (p.0@, p.1@)),
        ),
{
    let ghost m = ps@.map_values(|p: (String, String)| (p.0@, p.1@));
    let mut r: Vec<(String, String)> = Vec::new();
    proof {
        assert(m.take(0) =~= Seq::<(Seq<char>, Seq<char>)>::empty());
        assert(r@.map_values(|p: (String, String)| (p.0@, p.1@)) =~= sorted_pm(m.take(0)));
    }
    let mut i: usize = 0;
    while i < ps.len()
        invariant
            i <= ps@.len(),
            m == ps@.map_values(|p: (String, String)| (p.0@, p.1@)),
            r@.map_values(|p: (String, String)| (p.0@, p.1@)) == sorted_pm(m.take(i as int)),
        decreases ps@.len() - i,
    {
        let ghost rm = r@.map_values(|p: (String, String)| (p.0@, p.1@));
        let mut pos: usize = 0;
        while pos < r.len() && !crate::text::str_lex_lt(ps[i].0.as_str(), r[pos].0.as_str())
            invariant
                pos <= r@.len(),
                r@.map_values(|p: (String, String)| (p.0@, p.1@)) == rm,
                forall|w: int| 0 <= w < pos ==> !lex_lt(ps@[i as int].0@, (#[trigger] rm[w]).0),
            decreases r@.len() - pos,
        {
            proof {
                assert(rm[pos as int].0 == r@[pos as int].0@);
            }
            pos += 1;
        }
        proof {
            if pos < r@.len() {
                assert(rm[pos as int].0 == r@[pos as int].0@);
                assert(lex_lt(ps@[i as int].0@, rm[pos as int].0));
            }
        }
        let key = ps[i].0.clone();
        let val = ps[i].1.clone();
        let ghost rv0 = r@;
        let ghost pr = (key, val);
        r.insert(pos, (key, val));
        proof {
            let pv = (ps@[i as int].0@, ps@[i as int].1@);
            assert(m[i as int] == pv);
            lemma_insert_pm_at(pv, rm, pos as int);
            assert(r@ == rv0.insert(pos as int, pr));
            assert(r@.map_values(|p: (String, String)| (p.0@, p.1@)) =~= rm.insert(
                pos as int,
                pv,
            )) by {
                let mv = r@.map_values(|p: (String, String)| (p.0@, p.1@));
                assert forall|w: int| 0 <= w < r@.len() implies #[trigger] mv[w] == rm.insert(
                    pos as int,
                    pv,
                )[w] by {
                    crate::assoc::lemma_insert_index(rm, pos as int, pv, w);
                    crate::assoc::lemma_insert_index(rv0, pos as int, pr, w);
                    assert(pr.0@ == pv.0 && pr.1@ == pv.1);
                    if w < pos {
                        assert(rm[w] == (rv0[w].0@, rv0[w].1@));
                    } else if w > pos {
                        assert(rm[w - 1] == (rv0[w - 1].0@, rv0[w - 1].1@));
                    }
                }
            }
            assert(m.take(i as int + 1).drop_last() =~= m.take(i as int));
            assert(m.take(i as int + 1).last() == m[i as int]);
            assert(sorted_pm(m.take(i as int + 1)) == insert_pm(pv, sorted_pm(m.take(i as int))));
        }
        i += 1;
    }
    proof {
        assert(m.take(m.len() as int) =~= m);
    }
    r
}

/// The members of a property object: each pair as a string member.
pub open spec fn props_jm(ps: Seq<(Seq<char>, Seq<char>)>) -> Seq<(Seq<char>, JModel)> {
    ps.map_values(|p: (Seq<char>, Seq<char>)| (p.0, JModel::Str(p.1)))
}

/// The document of one node: its id and its property bag with the keys
/// in ascending order.
pub open spec fn node_jm(n: Node) -> JModel {
    JModel::Obj(
        seq![
            ("id"@, JModel::Num(n.id as nat)),
            ("props"@, JModel::Obj(props_jm(sorted_pm(n.props_model())))),
        ],
    )
}

/// The elements of a label array.
pub open spec fn labels_jm(ls: Seq<Seq<char>>) -> Seq<JModel> {
    ls.map_values(|l: Seq<char>| JModel::Str(l))
}

/// The document of one edge: its label array.
pub open spec fn edge_jm(e: Edge) -> JModel {
    JModel::Obj(seq![("labels"@, JModel::Arr(labels_jm(e.labels_model())))])
}

/// The members of one adjacency row, keyed by destination id.
pub open spec fn row_jm(row: Seq<(usize, Edge)>) -> Seq<(Seq<char>, JModel)> {
    row.map_values(|p: (usize, Edge)| (dec_rep(p.0 as nat), edge_jm(p.1)))
}

/// The members of the `"edges"` object, keyed by origin id.
pub open spec fn edges_jm(es: Seq<(usize, Vec<(usize, Edge)>)>) -> Seq<(Seq<char>, JModel)> {
    es.map_values(
        |p: (usize, Vec<(usize, Edge)>)| (dec_rep(p.0 as nat), JModel::Obj(row_jm(p.1@))),
    )
}

/// The members of the `"nodes"` object, keyed by node id.
pub open spec fn nodes_jm(ns: Seq<Node>) -> Seq<(Seq<char>, JModel)> {
    ns.map_values(|n: Node| (dec_rep(n.id as nat), node_jm(n)))
}

/// Writes a node id as a JSON object key.
fn write_num_key(n: usize, out: &mut Vec<char>)
    ensures
        final(out)@ == old(out)@ + print_str(dec_rep(n as nat)),
{
    let ghost base = out@;
    out.push('"');
    fmt_usize(n, out);
    out.push('"');
    proof {
        lemma_dec_rep(n as nat);
        lemma_esc_digits(dec_rep(n as nat));
        assert(out@ =~= base + print_str(dec_rep(n as nat)));
    }
}

impl Graph {
    /// The canonical JSON document of this graph.
    pub open spec fn graph_jm(self) -> JModel {
        JModel::Obj(
            seq![
                ("edges"@, JModel::Obj(edges_jm(self.edges@))),
                ("nodes"@, JModel::Obj(nodes_jm(self.nodes@))),
            ],
        )
    }
}

/// Writes the document of one edge.
#[verifier::loop_isolation(false)]
fn write_edge(e: &Edge, out: &mut Vec<char>)
    ensures
        final(out)@ == old(out)@ + print_jm(edge_jm(*e)),
{
    let ghost base = out@;
    out.push('{');
    crate::json::write_string("labels", out);
    out.push(':');
    out.push('[');
    let ghost abase = out@;
    let ghost elems = labels_jm(e.labels_model());
    let mut i: usize = 0;
    while i < e.labels.len()
        invariant
            i <= e.labels@.len(),
            elems == labels_jm(e.labels_model()),
            elems.len() == e.labels@.len(),
            abase == base + seq!['{'] + print_str("labels"@) + seq![':'] + seq!['['],
            out@ == abase + print_items(elems.take(i as int)),
        decreases e.labels@.len() - i,
    {
        proof {
            assert(print_items(elems.take(0)) =~= Seq::<char>::empty());
        }
        if i > 0 {
            out.push(',');
        }
        crate::json::write_string(e.labels[i].as_str(), out);
        proof {
            assert(elems[i as int] == JModel::Str(e.labels@[i as int]@));
            assert(print_jm(elems[i as int]) == print_str(e.labels@[i as int]@));
            if i == 0 {
                assert(elems.take(1).len() == 1);
                assert(elems.take(1)[0] == elems[0]);
                assert(print_items(elems.take(1)) == print_jm(elems[0]));
                assert(out@ =~= abase + print_items(elems.take(1)));
            } else {
                lemma_print_items_snoc(elems, i as int);
                assert(out@ =~= abase + print_items(elems.take(i as int + 1)));
            }
        }
        i += 1;
    }
    out.push(']');
    out.push('}');
    proof {
        assert(print_items(elems.take(0)) =~= Seq::<char>::empty());
        assert(elems.take(elems.len() as int) =~= elems);
        let m = ("labels"@, JModel::Arr(elems));
        assert(print_members(seq![m]) == print_member(m));
        assert(print_jm(edge_jm(*e)) == seq!['{'] + print_member(m) + seq!['}']);
        assert(out@ =~= base + print_jm(edge_jm(*e)));
    }
}

/// Writes the document of one node.
#[verifier::loop_isolation(false)]
fn write_node(n: &Node, out: &mut Vec<char>)
    ensures
        final(out)@ == old(out)@ + print_jm(node_jm(*n)),
{
    let ghost base = out@;
    let sorted = sort_pairs(&n.props);
    proof {
        assert(n.props@.map_values(|p: (String, String)| (p.0@, p.1@)) == n.props_model());
    }
    out.push('{');
    crate::json::write_string("id", out);
    out.push(':');
    fmt_usize(n.id, out);
    out.push(',');
    crate::json::write_string("props", out);
    out.push(':');
    out.push('{');
    let ghost pbase = out@;
    let ghost sm = sorted_pm(n.props_model());
    let ghost pms = props_jm(sm);
    proof {
        lemma_sorted_pm_members(n.props_model());
        assert(sorted@.map_values(|p: (String, String)| (p.0@, p.1@)) == sm);
    }
    let mut i: usize = 0;
    while i < sorted.len()
        invariant
            i <= sorted@.len(),
            sm == sorted_pm(n.props_model()),
            sorted@.map_values(|p: (String, String)| (p.0@, p.1@)) == sm,
            pms == props_jm(sm),
            pms.len() == sorted@.len(),
            pbase == base + seq!['{'] + print_str("id"@) + seq![':'] + dec_rep(n.id as nat)
                + seq![','] + print_str("props"@) + seq![':'] + seq!['{'],
            out@ == pbase + print_members(pms.take(i as int)),
        decreases sorted@.len() - i,
    {
        proof {
            assert(print_members(pms.take(0)) =~= Seq::<char>::empty());
        }
        if i > 0 {
            out.push(',');
        }
        crate::json::write_string(sorted[i].0.as_str(), out);
        out.push(':');
        crate::json::write_string(sorted[i].1.as_str(), out);
        proof {
            assert(sorted@.map_values(|p: (String, String)| (p.0@, p.1@))[i as int] == (
                sorted@[i as int].0@,
                sorted@[i as int].1@,
            ));
            assert(sm[i as int] == (sorted@[i as int].0@, sorted@[i as int].1@));
            assert(pms[i as int] == (sorted@[i as int].0@, JModel::Str(sorted@[i as int].1@)));
            assert(print_member(pms[i as int]) == print_str(sorted@[i as int].0@) + seq![':']
                + print_str(sorted@[i as int].1@));
            if i == 0 {
                assert(pms.take(1).len() == 1);
                assert(pms.take(1)[0] == pms[0]);
                assert(print_members(pms.take(1)) == print_member(pms[0]));
                assert(out@ =~= pbase + print_members(pms.take(1)));
            } else {
                lemma_print_members_snoc(pms, i as int);
                assert(out@ =~= pbase + print_members(pms.take(i as int + 1)));
            }
        }
        i += 1;
    }
    out.push('}');
    out.push('}');
    proof {
        assert(print_members(pms.take(0)) =~= Seq::<char>::empty());
        assert(pms.take(pms.len() as int) =~= pms);
        let m1 = ("id"@, JModel::Num(n.id as nat));
        let m2 = ("props"@, JModel::Obj(props_jm(sorted_pm(n.props_model()))));
        let ms = seq![m1, m2];
        assert(ms.drop_first() =~= seq![m2]);
        assert(print_members(seq![m2]) == print_member(m2));
        assert(print_members(ms) == print_member(m1) + seq![','] + print_members(
            ms.drop_first(),
        ));
        assert(print_jm(node_jm(*n)) == seq!['{'] + print_members(ms) + seq!['}']);
        assert(print_member(m1) == print_str("id"@) + seq![':'] + dec_rep(n.id as nat));
        assert(print_member(m2) == print_str("props"@) + seq![':'] + (seq!['{'] + print_members(
            pms,
        ) + seq!['}']));
        assert(out@ =~= base + print_jm(node_jm(*n)));
    }
}

/// Writes one adjacency row as an object keyed by destination id.
#[verifier::loop_isolation(false)]
fn write_row(row: &Vec<(usize, Edge)>, out: &mut Vec<char>)
    ensures
        final(out)@ == old(out)@ + seq!['{'] + print_members(row_jm(row@)) + seq!['}'],
{
    let ghost base = out@;
    out.push('{');
    let ghost rbase = out@;
    let ghost rms = row_jm(row@);
    let mut i: usize = 0;
    while i < row.len()
        invariant
            i <= row@.len(),
            rms == row_jm(row@),
            rms.len() == row@.len(),
            rbase == base + seq!['{'],
            out@ == rbase + print_members(rms.take(i as int)),
        decreases row@.len() - i,
    {
        proof {
            assert(print_members(rms.take(0)) =~= Seq::<char>::empty());
        }
        if i > 0 {
            out.push(',');
        }
        write_num_key(row[i].0, out);
        out.push(':');
        write_edge(&row[i].1, out);
        proof {
            assert(rms[i as int] == (dec_rep(row@[i as int].0 as nat), edge_jm(
                row@[i as int].1,
            )));
            assert(print_member(rms[i as int]) == print_str(dec_rep(row@[i as int].0 as nat))
                + seq![':'] + print_jm(edge_jm(row@[i as int].1)));
            if i == 0 {
                assert(rms.take(1).len() == 1);
                assert(rms.take(1)[0] == rms[0]);
                assert(print_members(rms.take(1)) == print_member(rms[0]));
                assert(out@ =~= rbase + print_members(rms.take(1)));
            } else {
                lemma_print_members_snoc(rms, i as int);
                assert(out@ =~= rbase + print_members(rms.take(i as int + 1)));
            }
        }
        i += 1;
    }
    out.push('}');
    proof {
        assert(print_members(rms.take(0)) =~= Seq::<char>::empty());
        assert(rms.take(rms.len() as int) =~= rms);
        assert(out@ =~= base + seq!['{'] + print_members(rms) + seq!['}']);
    }
}

impl Graph {
    /// Encodes the graph as its canonical JSON text: one object holding
    /// `"edges"` then `"nodes"`, both keyed by ascending decimal node
    /// ids, nodes as `{"id":..,"props":{..}}` and edges as
    /// `{"labels":[..]}`; origins with no outgoing edge are absent from
    /// `"edges"` entirely.
    #[verifier::loop_isolation(false)]
    #[verifier::rlimit(30)]
    pub fn to_json_string(&self) -> (r: String)
        ensures
            r@ == print_jm(self.graph_jm()),
    {
        let mut out: Vec<char> = Vec::new();
        out.push('{');
        crate::json::write_string("edges", &mut out);
        out.push(':');
        out.push('{');
        let ghost ebase = out@;
        let ghost ems = edges_jm(self.edges@);
        let mut i: usize = 0;
        while i < self.edges.len()
            invariant
                i <= self.edges@.len(),
                ems == edges_jm(self.edges@),
                ems.len() == self.edges@.len(),
                ebase == seq!['{'] + print_str("edges"@) + seq![':'] + seq!['{'],
                out@ == ebase + print_members(ems.take(i as int)),
            decreases self.edges@.len() - i,
        {
            proof {
                assert(print_members(ems.take(0)) =~= Seq::<char>::empty());
            }
            if i > 0 {
                out.push(',');
            }
            write_num_key(self.edges[i].0, &mut out);
            out.push(':');
            write_row(&self.edges[i].1, &mut out);
            proof {
                assert(ems[i as int] == (dec_rep(self.edges@[i as int].0 as nat), JModel::Obj(
                    row_jm(self.edges@[i as int].1@),
                )));
                assert(print_member(ems[i as int]) == print_str(dec_rep(
                    self.edges@[i as int].0 as nat,
                )) + seq![':'] + (seq!['{'] + print_members(row_jm(self.edges@[i as int].1@))
                    + seq!['}']));
                if i == 0 {
                    assert(ems.take(1).len() == 1);
                    assert(ems.take(1)[0] == ems[0]);
                    assert(print_members(ems.take(1)) == print_member(ems[0]));
                    assert(out@ =~= ebase + print_members(ems.take(1)));
                } else {
                    lemma_print_members_snoc(ems, i as int);
                    assert(out@ =~= ebase + print_members(ems.take(i as int + 1)));
                }
            }
            i += 1;
        }
        out.push('}');
        out.push(',');
        crate::json::write_string("nodes", &mut out);
        out.push(':');
        out.push('{');
        proof {
            assert(ems.take(ems.len() as int) =~= ems);
            assert(out@ =~= ebase + print_members(edges_jm(self.edges@)) + seq!['}'] + seq![',']
                + print_str("nodes"@) + seq![':'] + seq!['{']);
        }
        let ghost nbase = out@;
        let ghost nms = nodes_jm(self.nodes@);
        let mut i: usize = 0;
        while i < self.nodes.len()
            invariant
                i <= self.nodes@.len(),
                nms == nodes_jm(self.nodes@),
                nms.len() == self.nodes@.len(),
                nbase == ebase + print_members(edges_jm(self.edges@)) + seq!['}'] + seq![',']
                    + print_str("nodes"@) + seq![':'] + seq!['{'],
                out@ == nbase + print_members(nms.take(i as int)),
            decreases self.nodes@.len() - i,
        {
            proof {
                assert(print_members(nms.take(0)) =~= Seq::<char>::empty());
            }
            if i > 0 {
                out.push(',');
            }
            write_num_key(self.nodes[i].id, &mut out);
            out.push(':');
            write_node(&self.nodes[i], &mut out);
            proof {
                assert(nms[i as int] == (dec_rep(self.nodes@[i as int].id as nat), node_jm(
                    self.nodes@[i as int],
                )));
                assert(print_member(nms[i as int]) == print_str(dec_rep(
                    self.nodes@[i as int].id as nat,
                )) + seq![':'] + print_jm(node_jm(self.nodes@[i as int])));
                if i == 0 {
                    assert(nms.take(1).len() == 1);
                    assert(nms.take(1)[0] == nms[0]);
                    assert(print_members(nms.take(1)) == print_member(nms[0]));
                    assert(out@ =~= nbase + print_members(nms.take(1)));
                } else {
                    lemma_print_members_snoc(nms, i as int);
                    assert(out@ =~= nbase + print_members(nms.take(i as int + 1)));
                }
            }
            i += 1;
        }
        out.push('}');
        out.push('}');
        proof {
            assert(print_members(ems.take(0)) =~= Seq::<char>::empty());
            assert(print_members(nms.take(0)) =~= Seq::<char>::empty());
            assert(ems.take(ems.len() as int) =~= ems);
            assert(nms.take(nms.len() as int) =~= nms);
            let m1 = ("edges"@, JModel::Obj(edges_jm(self.edges@)));
            let m2 = ("nodes"@, JModel::Obj(nodes_jm(self.nodes@)));
            let ms = seq![m1, m2];
            assert(ms.drop_first() =~= seq![m2]);
            assert(print_members(seq![m2]) == print_member(m2));
            assert(print_members(ms) == print_member(m1) + seq![','] + print_members(
                ms.drop_first(),
            ));
            assert(print_jm(self.graph_jm()) == seq!['{'] + print_members(ms) + seq!['}']);
            assert(print_member(m1) == print_str("edges"@) + seq![':'] + (seq!['{']
                + print_members(edges_jm(self.edges@)) + seq!['}']));
            assert(print_member(m2) == print_str("nodes"@) + seq![':'] + (seq!['{']
                + print_members(nodes_jm(self.nodes@)) + seq!['}']));
            assert(out@ =~= print_jm(self.graph_jm()));
        }
        chars_to_string(&out)
    }
}

/// Whether some member of an object carries the key.
pub open spec fn has_key_jm(ms: Seq<(Seq<char>, JModel)>, key: Seq<char>) -> bool {
    exists|w: int| 0 <= w < ms.len() && (#[trigger] ms[w]).0 == key
}

/// The position of the first member carrying the key.
pub open spec fn first_at(ms: Seq<(Seq<char>, JModel)>, key: Seq<char>) -> int {
    choose|w: int|
        0 <= w < ms.len() && (#[trigger] ms[w]).0 == key && (forall|j: int|
            0 <= j < w ==> (#[trigger] ms[j]).0 != key)
}

/// The value of the first member carrying the key, the one a lookup
/// finds.
pub open spec fn first_val(ms: Seq<(Seq<char>, JModel)>, key: Seq<char>) -> JModel {
    ms[first_at(ms, key)].1
}

/// A member with no earlier match is the one `first_at` names.
pub proof fn lemma_first_at(ms: Seq<(Seq<char>, JModel)>, key: Seq<char>, i: int)
    requires
        0 <= i < ms.len(),
        ms[i].0 == key,
        forall|j: int| 0 <= j < i ==> (#[trigger] ms[j]).0 != key,
    ensures
        has_key_jm(ms, key),
        first_at(ms, key) == i,
        first_val(ms, key) == ms[i].1,
{
    assert(has_key_jm(ms, key));
    let w = first_at(ms, key);
    assert(0 <= w < ms.len() && ms[w].0 == key && (forall|j: int|
        0 <= j < w ==> (#[trigger] ms[j]).0 != key));
    if w < i {
        assert(ms[w].0 != key);
    } else if w > i {
        assert(ms[i].0 != key);
    }
}

/// The shape of a node object stored under a key that reads as `id`:
/// an `"id"` member naming that id and a `"props"` member holding
/// strings.
#[verifier::opaque]
pub open spec fn node_doc_shaped(id: nat, m: JModel) -> bool {
    &&& m matches JModel::Obj(ms)
    &&& has_key_jm(ms, "id"@)
    &&& first_val(ms, "id"@) == JModel::Num(id)
    &&& has_key_jm(ms, "props"@)
    &&& (first_val(ms, "props"@) matches JModel::Obj(pms) && (forall|w: int|
        0 <= w < pms.len() ==> (#[trigger] pms[w]).1 is Str))
}

/// A decimal object key within machine range.
pub open spec fn key_ok(k: Seq<char>) -> bool {
    k.len() >= 1 && crate::text::all_digits(k) && crate::text::dec_val(k) <= usize::MAX as nat
}

/// Whether the document's node section declares `id`: the document is
/// an object whose first `"nodes"` member is an object with a member
/// keyed by `id` written in decimal.
#[verifier::opaque]
pub open spec fn doc_has_node(m: JModel, id: nat) -> bool {
    &&& m matches JModel::Obj(ms)
    &&& has_key_jm(ms, "nodes"@)
    &&& (first_val(ms, "nodes"@) matches JModel::Obj(nms) && (exists|w: int|
        0 <= w < nms.len() && key_ok((#[trigger] nms[w]).0) && crate::text::dec_val(nms[w].0)
            == id))
}

/// Every member of a node section is a well-shaped node entry under a
/// decimal key.
pub open spec fn nodes_members_shaped(nmm: Seq<(Seq<char>, JModel)>) -> bool {
    forall|w: int|
        0 <= w < nmm.len() ==> key_ok((#[trigger] nmm[w]).0) && node_doc_shaped(
            crate::text::dec_val(nmm[w].0),
            nmm[w].1,
        )
}

/// The first member under the given key, if any.
#[verifier::loop_isolation(false)]
fn find_member<'a>(ms: &'a Vec<(String, JsonValue)>, key: &str) -> (r: Option<&'a JsonValue>)
    ensures
        match r {
            Some(v) => exists|i: int|
                #![trigger ms@[i]]
                0 <= i < ms@.len() && ms@[i].0@ == key@ && ms@[i].1 == *v && (forall|j: int|
                    0 <= j < i ==> (#[trigger] ms@[j]).0@ != key@),
            None => forall|i: int| 0 <= i < ms@.len() ==> (#[trigger] ms@[i]).0@ != key@,
        },
{
    let needle = key.to_owned();
    let mut i: usize = 0;
    while i < ms.len()
        invariant
            i <= ms@.len(),
            needle@ == key@,
            forall|j: int| 0 <= j < i ==> (#[trigger] ms@[j]).0@ != key@,
        decreases ms@.len() - i,
    {
        if ms[i].0.eq(&needle) {
            proof {
                assert(ms@[i as int].0@ == key@);
            }
            return Some(&ms[i].1);
        }
        i += 1;
    }
    None
}

/// Sets one pair in a property list, last occurrence winning, keeping
/// the keys distinct.
#[verifier::loop_isolation(false)]
fn props_put(ps: &mut Vec<(String, String)>, key: String, value: String)
    requires
        forall|i: int, j: int|
            0 <= i < j < old(ps)@.len() ==> (#[trigger] old(ps)@[i]).0@ != (
            #[trigger] old(ps)@[j]).0@,
    ensures
        forall|i: int, j: int|
            0 <= i < j < final(ps)@.len() ==> (#[trigger] final(ps)@[i]).0@ != (
            #[trigger] final(ps)@[j]).0@,
        (forall|w: int| 0 <= w < old(ps)@.len() ==> (#[trigger] old(ps)@[w]).0@ != key@)
            ==> final(ps)@ == old(ps)@.push((key, value)),
{
    let ghost ps0 = ps@;
    let mut j: usize = 0;
    while j < ps.len() && !ps[j].0.eq(&key)
        invariant
            j <= ps@.len(),
            ps@ == ps0,
            forall|w: int| 0 <= w < j ==> (#[trigger] ps@[w]).0@ != key@,
        decreases ps@.len() - j,
    {
        j += 1;
    }
    if j < ps.len() {
        ps.remove(j);
        ps.insert(j, (key, value));
        proof {
            assert(ps@ =~= ps0.update(j as int, ps@[j as int])) by {
                assert forall|w: int| 0 <= w < ps@.len() implies ps@[w] == (if w == j {
                    ps@[j as int]
                } else {
                    ps0[w]
                }) by {
                    if w != j {
                        crate::assoc::lemma_remove_index(ps0, j as int, if w < j {
                            w
                        } else {
                            w - 1
                        });
                    }
                    ps0.remove(j as int).insert_ensures(j as int, ps@[j as int]);
                    crate::assoc::lemma_insert_index(
                        ps0.remove(j as int),
                        j as int,
                        ps@[j as int],
                        w,
                    );
                }
            }
            assert(ps@[j as int].0@ == ps0[j as int].0@);
            assert forall|a: int, b: int| 0 <= a < b < ps@.len() implies (
            #[trigger] ps@[a]).0@ != (#[trigger] ps@[b]).0@ by {
                assert(ps0[a].0@ != ps0[b].0@);
            }
            assert(ps0[j as int].0@ == key@);
        }
    } else {
        ps.push((key, value));
        proof {
            assert forall|a: int, b: int| 0 <= a < b < ps@.len() implies (
            #[trigger] ps@[a]).0@ != (#[trigger] ps@[b]).0@ by {
                if b == ps@.len() - 1 {
                    assert(ps@[a] == ps0[a]);
                } else {
                    assert(ps0[a].0@ != ps0[b].0@);
                }
            }
        }
    }
}

/// Reads one node object: its `"id"`, which must agree with the key it
/// is stored under, and its `"props"` mapping. Succeeds exactly on
/// objects of that shape.
#[verifier::rlimit(100)]
#[verifier::loop_isolation(false)]
fn decode_node(v: &JsonValue, id: usize) -> (r: Result<Vec<(String, String)>, GraphError>)
    ensures
        match r {
            Ok(ps) => forall|i: int, j: int|
                0 <= i < j < ps@.len() ==> (#[trigger] ps@[i]).0@ != (#[trigger] ps@[j]).0@,
            Err(e) => e == GraphError::SchemaError,
        },
        r is Ok <==> node_doc_shaped(id as nat, v.jm()),
        forall|n0: Node|
            n0.wf() && n0.id == id && v.jm() == #[trigger] node_jm(n0) ==> (r matches Ok(ps)
                && ps@.map_values(|p: (String, String)| (p.0@, p.1@)) == sorted_pm(
                n0.props_model(),
            )),
{
    proof {
        reveal_strlit("id");
        reveal_strlit("props");
    }
    let ms = match v {
        JsonValue::Obj(ms) => ms,
        _ => {
            proof {
                assert forall|n0: Node| v.jm() == #[trigger] node_jm(n0) implies false by {}
                reveal(crate::codec::node_doc_shaped);
                assert(!node_doc_shaped(id as nat, v.jm()));
            }
            return Err(GraphError::SchemaError);
        },
    };
    let ghost mm = crate::json::jm_of_members(ms@);
    proof {
        assert(v.jm() == JModel::Obj(mm));
        assert forall|n0: Node| n0.wf() && n0.id == id && v.jm() == #[trigger] node_jm(n0) implies
            crate::json::jm_of_members(ms@) == seq![
            ("id"@, JModel::Num(n0.id as nat)),
            ("props"@, JModel::Obj(props_jm(sorted_pm(n0.props_model())))),
        ] by {}
        assert forall|n0: Node| n0.wf() && n0.id == id && v.jm() == #[trigger] node_jm(n0) implies
            ms@.len() == 2 && ms@[0].0@ == "id"@ && ms@[0].1.jm() == JModel::Num(n0.id as nat)
            && ms@[1].0@ == "props"@ && ms@[1].1.jm() == JModel::Obj(
            props_jm(sorted_pm(n0.props_model())),
        ) by {
            crate::json::lemma_jm_of_members_len(ms@);
            crate::json::lemma_jm_of_members_index(ms@, 0);
            crate::json::lemma_jm_of_members_index(ms@, 1);
        }
    }
    match find_member(ms, "id") {
        Some(idv) => {
            proof {
                let i = choose|i: int|
                    #![trigger ms@[i]]
                    0 <= i < ms@.len() && ms@[i].0@ == "id"@ && ms@[i].1 == *idv && (forall|
                        j: int,
                    | 0 <= j < i ==> (#[trigger] ms@[j]).0@ != "id"@);
                crate::json::lemma_jm_of_members_len(ms@);
                crate::json::lemma_jm_of_members_index(ms@, i);
                assert forall|j: int| 0 <= j < i implies (#[trigger] mm[j]).0 != "id"@ by {
                    crate::json::lemma_jm_of_members_index(ms@, j);
                }
                lemma_first_at(mm, "id"@, i);
                assert(first_val(mm, "id"@) == idv.jm());
                assert forall|n0: Node|
                    n0.wf() && n0.id == id && v.jm() == #[trigger] node_jm(n0) implies *idv
                    == ms@[0].1 by {
                    assert("id"@.len() == 2);
                    assert("props"@.len() == 5);
                    assert(i == 0);
                }
            }
            match idv {
                JsonValue::Num(n) => {
                    if *n != id {
                        proof {
                            assert forall|n0: Node|
                                n0.wf() && n0.id == id && v.jm() == #[trigger] node_jm(n0) implies
                                false by {
                                assert(idv.jm() == JModel::Num(n0.id as nat));
                            }
                            reveal(crate::codec::node_doc_shaped);
                            assert(!node_doc_shaped(id as nat, v.jm()));
                        }
                        return Err(GraphError::SchemaError);
                    }
                    proof {
                        assert(first_val(mm, "id"@) == JModel::Num(id as nat));
                    }
                },
                _ => {
                    proof {
                        assert forall|n0: Node|
                            n0.wf() && n0.id == id && v.jm() == #[trigger] node_jm(n0) implies
                            false by {
                            assert(idv.jm() == JModel::Num(n0.id as nat));
                        }
                        reveal(crate::codec::node_doc_shaped);
                        assert(!node_doc_shaped(id as nat, v.jm()));
                    }
                    return Err(GraphError::SchemaError);
                },
            }
        },
        None => {
            proof {
                assert forall|j: int| 0 <= j < mm.len() implies (#[trigger] mm[j]).0
                    != "id"@ by {
                    crate::json::lemma_jm_of_members_len(ms@);
                    crate::json::lemma_jm_of_members_index(ms@, j);
                }
                assert(!has_key_jm(mm, "id"@));
                reveal(crate::codec::node_doc_shaped);
                assert(!node_doc_shaped(id as nat, v.jm()));
                assert forall|n0: Node|
                    n0.wf() && n0.id == id && v.jm() == #[trigger] node_jm(n0) implies false by {
                    assert(mm[0].0 == "id"@);
                }
            }
            return Err(GraphError::SchemaError);
        },
    }
    let pms = match find_member(ms, "props") {
        Some(pv) => {
            proof {
                let i = choose|i: int|
                    #![trigger ms@[i]]
                    0 <= i < ms@.len() && ms@[i].0@ == "props"@ && ms@[i].1 == *pv && (forall|
                        j: int,
                    | 0 <= j < i ==> (#[trigger] ms@[j]).0@ != "props"@);
                crate::json::lemma_jm_of_members_len(ms@);
                crate::json::lemma_jm_of_members_index(ms@, i);
                assert forall|j: int| 0 <= j < i implies (#[trigger] mm[j]).0 != "props"@ by {
                    crate::json::lemma_jm_of_members_index(ms@, j);
                }
                lemma_first_at(mm, "props"@, i);
                assert(first_val(mm, "props"@) == pv.jm());
                assert forall|n0: Node|
                    n0.wf() && n0.id == id && v.jm() == #[trigger] node_jm(n0) implies *pv
                    == ms@[1].1 by {
                    assert("id"@.len() == 2);
                    assert("props"@.len() == 5);
                    assert(i == 1);
                }
            }
            match pv {
                JsonValue::Obj(pms) => pms,
                _ => {
                    proof {
                        assert forall|n0: Node|
                            n0.wf() && n0.id == id && v.jm() == #[trigger] node_jm(n0) implies
                            false by {
                            assert(pv.jm() == JModel::Obj(
                                props_jm(sorted_pm(n0.props_model())),
                            ));
                        }
                        reveal(crate::codec::node_doc_shaped);
                        assert(!node_doc_shaped(id as nat, v.jm()));
                    }
                    return Err(GraphError::SchemaError);
                },
            }
        },
        None => {
            proof {
                assert forall|j: int| 0 <= j < mm.len() implies (#[trigger] mm[j]).0
                    != "props"@ by {
                    crate::json::lemma_jm_of_members_len(ms@);
                    crate::json::lemma_jm_of_members_index(ms@, j);
                }
                assert(!has_key_jm(mm, "props"@));
                reveal(crate::codec::node_doc_shaped);
                assert(!node_doc_shaped(id as nat, v.jm()));
                assert forall|n0: Node|
                    n0.wf() && n0.id == id && v.jm() == #[trigger] node_jm(n0) implies false by {
                    assert(mm[1].0 == "props"@);
                }
            }
            return Err(GraphError::SchemaError);
        },
    };
    let ghost pmm = crate::json::jm_of_members(pms@);
    proof {
        assert(first_val(mm, "props"@) == JModel::Obj(pmm));
        assert forall|n0: Node| n0.wf() && n0.id == id && v.jm() == #[trigger] node_jm(n0) implies
            crate::json::jm_of_members(pms@) == props_jm(sorted_pm(n0.props_model()))
            && pms@.len() == sorted_pm(n0.props_model()).len() by {
            crate::json::lemma_jm_of_members_len(pms@);
        }
    }
    let mut props: Vec<(String, String)> = Vec::new();
    let mut i: usize = 0;
    while i < pms.len()
        invariant
            i <= pms@.len(),
            pmm == crate::json::jm_of_members(pms@),
            forall|a: int, b: int|
                0 <= a < b < props@.len() ==> (#[trigger] props@[a]).0@ != (
                #[trigger] props@[b]).0@,
            forall|w: int| 0 <= w < i ==> (#[trigger] pmm[w]).1 is Str,
            forall|n0: Node|
                n0.wf() && n0.id == id && v.jm() == #[trigger] node_jm(n0) ==> props@.map_values(
                    |p: (String, String)| (p.0@, p.1@),
                ) =~= sorted_pm(n0.props_model()).take(i as int),
        decreases pms@.len() - i,
    {
        let ghost props0 = props@;
        match &pms[i].1 {
            JsonValue::Str(sv) => {
                props_put(&mut props, pms[i].0.clone(), sv.clone());
                proof {
                    crate::json::lemma_jm_of_members_index(pms@, i as int);
                    assert(pmm[i as int].1 == pms@[i as int].1.jm());
                    assert(pmm[i as int].1 is Str);
                    assert forall|n0: Node|
                        n0.wf() && n0.id == id && v.jm() == #[trigger] node_jm(n0) implies props@
                        .map_values(|p: (String, String)| (p.0@, p.1@)) =~= sorted_pm(
                        n0.props_model(),
                    ).take(i as int + 1) by {
                        let spm = sorted_pm(n0.props_model());
                        assert(props_jm(spm)[i as int] == (
                            spm[i as int].0,
                            JModel::Str(spm[i as int].1),
                        ));
                        assert(pms@[i as int].0@ == spm[i as int].0);
                        assert(pms@[i as int].1.jm() == JModel::Str(spm[i as int].1));
                        assert(sv@ == spm[i as int].1);
                        // the key is fresh: a sorted bag with distinct
                        // keys stays distinct
                        assert(keys_distinct(n0.props_model())) by {
                            assert forall|a: int, b: int|
                                0 <= a < b < n0.props_model().len() implies (
                            #[trigger] n0.props_model()[a]).0 != (
                            #[trigger] n0.props_model()[b]).0 by {
                                assert(n0.props_model()[a].0 == n0.props@[a].0@);
                                assert(n0.props_model()[b].0 == n0.props@[b].0@);
                            }
                        }
                        lemma_sorted_pm_sorted(n0.props_model());
                        assert forall|w: int| 0 <= w < props0.len() implies (
                        #[trigger] props0[w]).0@ != pms@[i as int].0@ by {
                            assert(props0.map_values(|p: (String, String)| (p.0@, p.1@))[w]
                                == spm.take(i as int)[w]);
                            assert(props0[w].0@ == spm[w].0);
                            assert(spm[w].0 != spm[i as int].0);
                        }
                        assert(props@ == props0.push((pms@[i as int].0, *sv)));
                    }
                }
            },
            _ => {
                proof {
                    crate::json::lemma_jm_of_members_index(pms@, i as int);
                    assert(pmm[i as int].1 == pms@[i as int].1.jm());
                    assert(!(pmm[i as int].1 is Str));
                    reveal(crate::codec::node_doc_shaped);
                    assert(!node_doc_shaped(id as nat, v.jm()));
                    assert forall|n0: Node|
                        n0.wf() && n0.id == id && v.jm() == #[trigger] node_jm(n0) implies
                        false by {
                        assert(pms@[i as int].1.jm() == JModel::Str(
                            sorted_pm(n0.props_model())[i as int].1,
                        ));
                    }
                }
                return Err(GraphError::SchemaError);
            },
        }
        i += 1;
    }
    proof {
        crate::json::lemma_jm_of_members_len(pms@);
        reveal(crate::codec::node_doc_shaped);
        assert(node_doc_shaped(id as nat, v.jm()));
        assert forall|n0: Node| n0.wf() && n0.id == id && v.jm() == #[trigger] node_jm(n0) implies
            props@.map_values(|p: (String, String)| (p.0@, p.1@)) == sorted_pm(
            n0.props_model(),
        ) by {
            let spm = sorted_pm(n0.props_model());
            assert(spm.take(spm.len() as int) =~= spm);
        }
    }
    Ok(props)
}

/// Reads a node id out of an object key written as a decimal string.
fn decode_id_key(key: &String) -> (r: Result<usize, GraphError>)
    ensures
        match r {
            Ok(n) => key@.len() >= 1 && crate::text::all_digits(key@) && crate::text::dec_val(
                key@,
            ) == n as nat,
            Err(e) => e == GraphError::SchemaError && (key@.len() == 0
                || !crate::text::all_digits(key@) || crate::text::dec_val(key@)
                > usize::MAX as nat),
        },
{
    let cs = str_to_chars(key.as_str());
    match parse_usize(&cs) {
        Some(id) => Ok(id),
        None => Err(GraphError::SchemaError),
    }
}

/// The allocation counter sits exactly on the largest live id (or on
/// zero in an empty graph), so the next allocated id is one past it.
#[verifier::opaque]
pub open spec fn counter_tight(g: Graph) -> bool {
    (g.max_node_id == 0 && g.nodes@.len() == 0) || g.spec_has_node(g.max_node_id)
}

/// The nodes of the first `i` members of a canonical node object have
/// been loaded: exactly those ids are live, each carrying its document's
/// property bag.
#[verifier::opaque]
spec fn node_prefix_loaded(g: Graph, g0: Graph, i: int) -> bool {
    &&& forall|idq: usize|
        #[trigger] g.spec_has_node(idq) <==> exists|w: int|
            0 <= w < i && (#[trigger] g0.nodes@[w]).id == idq
    &&& forall|w: int|
        0 <= w < i ==> ((#[trigger] g0.nodes@[w]).id == g.spec_node(g0.nodes@[w].id).id
            && g.spec_node(g0.nodes@[w].id).props@.map_values(
            |p: (String, String)| (p.0@, p.1@),
        ) == sorted_pm(g0.nodes@[w].props_model()))
}

/// The ordered pairs that stand before position `(i, j)` of a forward
/// adjacency: all pairs of the first `i` rows, and the first `j` pairs
/// of row `i`.
spec fn pair_before(
    es: Seq<(usize, Vec<(usize, Edge)>)>,
    i: int,
    j: int,
    o: usize,
    d: usize,
) -> bool {
    exists|w: int, u: int|
        #![trigger es[w].1@[u]]
        0 <= w && 0 <= u && ((w < i && u < es[w].1@.len()) || (w == i && u < j)) && es[w].0 == o
            && es[w].1@[u].0 == d
}

/// Every pair before position `(i, j)` carries in `g` exactly the
/// labels its document lists.
spec fn labels_loaded(g: Graph, es: Seq<(usize, Vec<(usize, Edge)>)>, i: int, j: int) -> bool {
    forall|w: int, u: int|
        #![trigger es[w].1@[u]]
        0 <= w && 0 <= u && ((w < i && u < es[w].1@.len()) || (w == i && u < j))
            ==> g.spec_edge_labels(es[w].0, es[w].1@[u].0) == es[w].1@[u].1.labels_model()
}

impl Graph {
    /// Loads the node section of a parsed document into a fresh graph:
    /// afterwards the live nodes are exactly the ids the section
    /// declares; a malformed member is `SchemaError`.
    #[verifier::loop_isolation(false)]
    #[verifier::rlimit(100)]
    #[verifier::spinoff_prover]
    fn load_nodes(
        g: &mut Graph,
        nms: &Vec<(String, JsonValue)>,
        Ghost(vm): Ghost<JModel>,
        Ghost(mm): Ghost<Seq<(Seq<char>, JModel)>>,
        Ghost(nmm): Ghost<Seq<(Seq<char>, JModel)>>,
    ) -> (r: Result<(), GraphError>)
        requires
            old(g).wf(),
            counter_tight(*old(g)),
            old(g).nodes@.len() == 0,
            old(g).edges@.len() == 0,
            old(g).reverse_edges@.len() == 0,
            old(g).max_node_id == 0,
            vm == JModel::Obj(mm),
            has_key_jm(mm, "nodes"@),
            first_val(mm, "nodes"@) == JModel::Obj(nmm),
            nmm == crate::json::jm_of_members(nms@),
            forall|g0: Graph|
                g0.wf() && vm == #[trigger] g0.graph_jm() ==> (crate::json::jm_of_members(nms@)
                    == nodes_jm(g0.nodes@) && nms@.len() == g0.nodes@.len()),
        ensures
            r matches Err(e) ==> e == GraphError::SchemaError,
            r is Ok ==> (final(g).wf() && counter_tight(*final(g)) && final(g).edges@.len() == 0
                && final(g).reverse_edges@.len() == 0),
            r is Ok ==> nodes_members_shaped(nmm),
            r is Ok ==> (forall|idq: usize|
                #[trigger] final(g).spec_has_node(idq) <==> doc_has_node(vm, idq as nat)),
            forall|g0: Graph|
                g0.wf() && vm == #[trigger] g0.graph_jm() ==> (r is Ok && node_prefix_loaded(
                    *final(g),
                    g0,
                    g0.nodes@.len() as int,
                )),
    {
        proof {
            assert forall|g0: Graph|
                g0.wf() && vm == #[trigger] g0.graph_jm() implies node_prefix_loaded(
                *g,
                g0,
                0,
            ) by {
                reveal(crate::codec::node_prefix_loaded);
            }
        }
        let mut i: usize = 0;
        while i < nms.len()
            invariant
                i <= nms@.len(),
                g.wf(),
                counter_tight(*g),
                g.edges@.len() == 0,
                g.reverse_edges@.len() == 0,
                nmm == crate::json::jm_of_members(nms@),
                forall|w: int|
                    0 <= w < i ==> key_ok((#[trigger] nmm[w]).0) && node_doc_shaped(
                        crate::text::dec_val(nmm[w].0),
                        nmm[w].1,
                    ),
                forall|idq: usize|
                    #[trigger] g.spec_has_node(idq) <==> (exists|w: int|
                        0 <= w < i && key_ok((#[trigger] nmm[w]).0) && crate::text::dec_val(
                            nmm[w].0,
                        ) == idq as nat),
                forall|g0: Graph|
                    g0.wf() && vm == #[trigger] g0.graph_jm() ==> (g.edges@.len() == 0
                        && g.reverse_edges@.len() == 0 && i <= g0.nodes@.len()
                        && node_prefix_loaded(*g, g0, i as int)),
            decreases nms@.len() - i,
        {
            let id = match decode_id_key(&nms[i].0) {
                Ok(id) => id,
                Err(e) => {
                    proof {
                        assert forall|g0: Graph|
                            g0.wf() && vm == #[trigger] g0.graph_jm() implies false by {
                            crate::json::lemma_jm_of_members_index(nms@, i as int);
                            assert(nms@[i as int].0@ == dec_rep(g0.nodes@[i as int].id as nat));
                            crate::text::lemma_dec_rep(g0.nodes@[i as int].id as nat);
                        }
                    }
                    return Err(e);
                },
            };
            proof {
                crate::json::lemma_jm_of_members_index(nms@, i as int);
                assert(nmm[i as int].0 == nms@[i as int].0@);
                assert(key_ok(nmm[i as int].0));
                assert(crate::text::dec_val(nmm[i as int].0) == id as nat);
            }
            let props = match decode_node(&nms[i].1, id) {
                Ok(ps) => ps,
                Err(e) => {
                    proof {
                        assert forall|g0: Graph|
                            g0.wf() && vm == #[trigger] g0.graph_jm() implies false by {
                            let n0 = g0.nodes@[i as int];
                            crate::json::lemma_jm_of_members_index(nms@, i as int);
                            assert(nms@[i as int].0@ == dec_rep(n0.id as nat));
                            crate::text::lemma_dec_rep(n0.id as nat);
                            assert(id == n0.id);
                            assert(n0.wf());
                            assert(nms@[i as int].1.jm() == node_jm(n0));
                        }
                    }
                    return Err(e);
                },
            };
            proof {
                reveal(crate::codec::node_doc_shaped);
                assert(node_doc_shaped(id as nat, nms@[i as int].1.jm()));
                assert(nmm[i as int].1 == nms@[i as int].1.jm());
                reveal(crate::codec::node_doc_shaped);
                assert(node_doc_shaped(crate::text::dec_val(nmm[i as int].0), nmm[i as int].1));
            }
            let ghost gpre = *g;
            g.put_node(id, props);
            proof {
                assert forall|idq: usize| #[trigger] g.spec_has_node(idq) <==> (exists|w: int|
                    0 <= w < i + 1 && key_ok((#[trigger] nmm[w]).0) && crate::text::dec_val(
                        nmm[w].0,
                    ) == idq as nat) by {
                    if g.spec_has_node(idq) {
                        if idq != id {
                            assert(gpre.spec_has_node(idq));
                            let w = choose|w: int|
                                0 <= w < i && key_ok((#[trigger] nmm[w]).0)
                                    && crate::text::dec_val(nmm[w].0) == idq as nat;
                            assert(key_ok(nmm[w].0) && crate::text::dec_val(nmm[w].0)
                                == idq as nat);
                        } else {
                            assert(key_ok(nmm[i as int].0) && crate::text::dec_val(
                                nmm[i as int].0,
                            ) == idq as nat);
                        }
                    }
                    if exists|w: int|
                        0 <= w < i + 1 && key_ok((#[trigger] nmm[w]).0) && crate::text::dec_val(
                            nmm[w].0,
                        ) == idq as nat {
                        let w = choose|w: int|
                            0 <= w < i + 1 && key_ok((#[trigger] nmm[w]).0)
                                && crate::text::dec_val(nmm[w].0) == idq as nat;
                        if w < i {
                            assert(gpre.spec_has_node(idq));
                        } else {
                            assert(idq as nat == id as nat);
                            assert(idq == id);
                        }
                    }
                }
                reveal(crate::codec::counter_tight);
                assert(counter_tight(*g)) by {
                    if id > gpre.max_node_id {
                        assert(g.spec_has_node(id));
                    } else if gpre.max_node_id == 0 && gpre.nodes@.len() == 0 {
                        assert(id == 0);
                        assert(g.spec_has_node(id));
                    } else {
                        assert(gpre.spec_has_node(gpre.max_node_id));
                        assert(g.spec_has_node(gpre.max_node_id));
                    }
                }
                assert forall|g0: Graph|
                    g0.wf() && vm == #[trigger] g0.graph_jm() implies (g.edges@.len() == 0
                        && g.reverse_edges@.len() == 0 && i + 1 <= g0.nodes@.len()
                        && node_prefix_loaded(*g, g0, i as int + 1)) by {
                    reveal(crate::codec::node_prefix_loaded);
                    let n0 = g0.nodes@[i as int];
                    crate::json::lemma_jm_of_members_index(nms@, i as int);
                    assert(nms@[i as int].0@ == dec_rep(n0.id as nat));
                    crate::text::lemma_dec_rep(n0.id as nat);
                    assert(id == n0.id);
                    assert(n0.wf());
                    assert(nms@[i as int].1.jm() == node_jm(n0));
                    assert(props@.map_values(|p: (String, String)| (p.0@, p.1@))
                        == sorted_pm(n0.props_model()));
                    assert(node_prefix_loaded(gpre, g0, i as int));
                    assert forall|w: int| 0 <= w < i implies (#[trigger] g0.nodes@[w]).id
                        != id by {
                        assert(g0.node_ids()[w] < g0.node_ids()[i as int]);
                    }
                    assert forall|idq: usize| #[trigger] g.spec_has_node(idq) <==> exists|w: int|
                        0 <= w < i + 1 && (#[trigger] g0.nodes@[w]).id == idq by {
                        if g.spec_has_node(idq) {
                            if idq == id {
                                assert(g0.nodes@[i as int].id == idq);
                            } else {
                                assert(gpre.spec_has_node(idq));
                                let w = choose|w: int|
                                    0 <= w < i && (#[trigger] g0.nodes@[w]).id == idq;
                                assert(g0.nodes@[w].id == idq);
                            }
                        }
                        if exists|w: int| 0 <= w < i + 1 && (#[trigger] g0.nodes@[w]).id == idq {
                            let w = choose|w: int|
                                0 <= w < i + 1 && (#[trigger] g0.nodes@[w]).id == idq;
                            if w < i {
                                assert(gpre.spec_has_node(idq));
                            } else {
                                assert(idq == id);
                            }
                        }
                    }
                    assert forall|w: int| 0 <= w < i + 1 implies ((#[trigger] g0.nodes@[w]).id
                        == g.spec_node(g0.nodes@[w].id).id && g.spec_node(
                        g0.nodes@[w].id,
                    ).props@.map_values(|p: (String, String)| (p.0@, p.1@))
                        == sorted_pm(g0.nodes@[w].props_model())) by {
                        if w < i {
                            assert(gpre.spec_has_node(g0.nodes@[w].id));
                            assert(g.spec_node(g0.nodes@[w].id) == gpre.spec_node(
                                g0.nodes@[w].id,
                            ));
                        } else {
                            assert(g.spec_node(id).props == props);
                        }
                    }
                }
            }
            i += 1;
        }
        proof {
            // a live node is exactly one the document's node section
            // declares
            assert forall|idq: usize| #[trigger] g.spec_has_node(idq) <==> doc_has_node(
                vm,
                idq as nat,
            ) by {
                reveal(crate::codec::doc_has_node);
                crate::json::lemma_jm_of_members_len(nms@);
                assert(vm == JModel::Obj(mm));
                assert(vm->Obj_0 == mm);
                assert(has_key_jm(mm, "nodes"@));
                assert(first_val(mm, "nodes"@) == JModel::Obj(nmm));
                assert(first_val(mm, "nodes"@)->Obj_0 == nmm);
                if g.spec_has_node(idq) {
                    assert(g.spec_has_node(idq));
                    assert(exists|w: int|
                        0 <= w < i && key_ok((#[trigger] nmm[w]).0) && crate::text::dec_val(
                            nmm[w].0,
                        ) == idq as nat);
                    let w = choose|w: int|
                        0 <= w < i && key_ok((#[trigger] nmm[w]).0) && crate::text::dec_val(
                            nmm[w].0,
                        ) == idq as nat;
                    assert(0 <= w < nmm.len() && key_ok(nmm[w].0) && crate::text::dec_val(
                        nmm[w].0,
                    ) == idq as nat);
                    assert(doc_has_node(vm, idq as nat));
                }
                if doc_has_node(vm, idq as nat) {
                    let w = choose|w: int|
                        0 <= w < nmm.len() && key_ok((#[trigger] nmm[w]).0)
                            && crate::text::dec_val(nmm[w].0) == idq as nat;
                    assert(key_ok(nmm[w].0) && crate::text::dec_val(nmm[w].0) == idq as nat);
                    assert(g.spec_has_node(idq));
                }
            }
        }
        proof {
            crate::json::lemma_jm_of_members_len(nms@);
            assert(nodes_members_shaped(nmm));
            assert forall|g0: Graph|
                g0.wf() && vm == #[trigger] g0.graph_jm() implies node_prefix_loaded(
                *g,
                g0,
                g0.nodes@.len() as int,
            ) by {
                crate::json::lemma_jm_of_members_len(nms@);
            }
        }
        Ok(())
    }

    /// Rebuilds a graph from a parsed document: nodes first, tracking
    /// the highest id for the allocation counter, then every edge
    /// replayed through `connect_nodes`, which re-derives the reverse
    /// index and rejects an edge naming an unknown node.
    #[verifier::loop_isolation(false)]
    #[verifier::rlimit(100)]
    #[verifier::spinoff_prover]
    fn decode(v: &JsonValue) -> (r: Result<Graph, GraphError>)
        ensures
            r matches Ok(g) ==> g.wf() && counter_tight(g),
            !(r == Err::<Graph, GraphError>(GraphError::ParseError)),
            r matches Ok(g) ==> (v.jm() is Obj && (forall|idq: usize|
                #[trigger] g.spec_has_node(idq) <==> doc_has_node(v.jm(), idq as nat))),
            r matches Err(GraphError::UnknownNode(x)) ==> !doc_has_node(v.jm(), x as nat),
            !(v.jm() is Obj) ==> r == Err::<Graph, GraphError>(GraphError::SchemaError),
            v.jm() matches JModel::Obj(ms2) && !has_key_jm(ms2, "nodes"@) ==> r == Err::<
                Graph,
                GraphError,
            >(GraphError::SchemaError),
            v.jm() matches JModel::Obj(ms2) && !has_key_jm(ms2, "edges"@) ==> r == Err::<
                Graph,
                GraphError,
            >(GraphError::SchemaError),
            v.jm() matches JModel::Obj(ms2) && has_key_jm(ms2, "nodes"@) && !(first_val(
                ms2,
                "nodes"@,
            ) is Obj) ==> r == Err::<Graph, GraphError>(GraphError::SchemaError),
            v.jm() matches JModel::Obj(ms2) && has_key_jm(ms2, "edges"@) && !(first_val(
                ms2,
                "edges"@,
            ) is Obj) ==> r == Err::<Graph, GraphError>(GraphError::SchemaError),
            v.jm() matches JModel::Obj(ms2) && has_key_jm(ms2, "nodes"@) && (first_val(
                ms2,
                "nodes"@,
            ) matches JModel::Obj(nms2) && !nodes_members_shaped(nms2)) ==> r == Err::<
                Graph,
                GraphError,
            >(GraphError::SchemaError),
            forall|g0: Graph|
                g0.wf() && v.jm() == #[trigger] g0.graph_jm() ==> (r matches Ok(g2) && g2.equiv(
                    g0,
                )),
    {
        proof {
            reveal_strlit("nodes");
            reveal_strlit("edges");
            reveal_strlit("labels");
        }
        let ms = match v {
            JsonValue::Obj(ms) => ms,
            _ => {
                proof {
                    assert forall|g0: Graph| v.jm() == #[trigger] g0.graph_jm() implies false by {}
                }
                return Err(GraphError::SchemaError);
            },
        };
        let ghost mm = crate::json::jm_of_members(ms@);
        proof {
            assert(v.jm() == JModel::Obj(mm));
            assert forall|g0: Graph| g0.wf() && v.jm() == #[trigger] g0.graph_jm() implies ms@.len()
                == 2 && ms@[0].0@ == "edges"@ && ms@[0].1.jm() == JModel::Obj(edges_jm(g0.edges@))
                && ms@[1].0@ == "nodes"@ && ms@[1].1.jm() == JModel::Obj(
                nodes_jm(g0.nodes@),
            ) by {
                crate::json::lemma_jm_of_members_len(ms@);
                crate::json::lemma_jm_of_members_index(ms@, 0);
                crate::json::lemma_jm_of_members_index(ms@, 1);
            }
        }
        let nodes_v = match find_member(ms, "nodes") {
            Some(x) => x,
            None => {
                proof {
                    assert forall|g0: Graph|
                        g0.wf() && v.jm() == #[trigger] g0.graph_jm() implies false by {
                        assert(ms@[1].0@ == "nodes"@);
                    }
                }
                return Err(GraphError::SchemaError);
            },
        };
        let edges_v = match find_member(ms, "edges") {
            Some(x) => x,
            None => {
                proof {
                    assert forall|g0: Graph|
                        g0.wf() && v.jm() == #[trigger] g0.graph_jm() implies false by {
                        assert(ms@[0].0@ == "edges"@);
                    }
                }
                return Err(GraphError::SchemaError);
            },
        };
        proof {
            // the lookup returns the first "nodes" member
            let i1 = choose|i1: int|
                #![trigger ms@[i1]]
                0 <= i1 < ms@.len() && ms@[i1].0@ == "nodes"@ && ms@[i1].1 == *nodes_v && (forall|
                    j: int,
                | 0 <= j < i1 ==> (#[trigger] ms@[j]).0@ != "nodes"@);
            crate::json::lemma_jm_of_members_len(ms@);
            crate::json::lemma_jm_of_members_index(ms@, i1);
            assert forall|j: int| 0 <= j < i1 implies (#[trigger] mm[j]).0 != "nodes"@ by {
                crate::json::lemma_jm_of_members_index(ms@, j);
            }
            lemma_first_at(mm, "nodes"@, i1);
            assert(first_val(mm, "nodes"@) == nodes_v.jm());
        }
        proof {
            assert forall|g0: Graph| g0.wf() && v.jm() == #[trigger] g0.graph_jm() implies *nodes_v
                == ms@[1].1 && *edges_v == ms@[0].1 by {
                assert("nodes"@[0] == 'n');
                assert("edges"@[0] == 'e');
                let w = choose|w: int|
                    0 <= w < ms@.len() && (#[trigger] ms@[w]).0@ == "nodes"@ && ms@[w].1
                        == *nodes_v;
                assert(w == 1);
                let w2 = choose|w2: int|
                    0 <= w2 < ms@.len() && (#[trigger] ms@[w2]).0@ == "edges"@ && ms@[w2].1
                        == *edges_v;
                assert(w2 == 0);
            }
        }
        let nms = match nodes_v {
            JsonValue::Obj(nms) => nms,
            _ => {
                proof {
                    assert forall|g0: Graph|
                        g0.wf() && v.jm() == #[trigger] g0.graph_jm() implies false by {
                        assert(nodes_v.jm() == JModel::Obj(nodes_jm(g0.nodes@)));
                    }
                }
                return Err(GraphError::SchemaError);
            },
        };
        let ghost nmm = crate::json::jm_of_members(nms@);
        proof {
            assert(first_val(mm, "nodes"@) == JModel::Obj(nmm));
            crate::json::lemma_jm_of_members_len(nms@);
            assert forall|g0: Graph| g0.wf() && v.jm() == #[trigger] g0.graph_jm() implies
                crate::json::jm_of_members(nms@) == nodes_jm(g0.nodes@) && nms@.len()
                == g0.nodes@.len() by {
                crate::json::lemma_jm_of_members_len(nms@);
            }
        }
        let mut g = Graph::new();
        proof {
            reveal(crate::codec::counter_tight);
            assert(counter_tight(g));
        }
        match Graph::load_nodes(&mut g, nms, Ghost(v.jm()), Ghost(mm), Ghost(nmm)) {
            Ok(()) => {},
            Err(e) => {
                proof {
                    assert forall|g0: Graph|
                        g0.wf() && v.jm() == #[trigger] g0.graph_jm() implies false by {}
                }
                return Err(e);
            },
        }
        let ghost g_nodes = g;
        proof {
            // the lookup returns the first "edges" member
            let i2 = choose|i2: int|
                #![trigger ms@[i2]]
                0 <= i2 < ms@.len() && ms@[i2].0@ == "edges"@ && ms@[i2].1 == *edges_v && (forall|
                    j: int,
                | 0 <= j < i2 ==> (#[trigger] ms@[j]).0@ != "edges"@);
            crate::json::lemma_jm_of_members_len(ms@);
            crate::json::lemma_jm_of_members_index(ms@, i2);
            assert forall|j: int| 0 <= j < i2 implies (#[trigger] mm[j]).0 != "edges"@ by {
                crate::json::lemma_jm_of_members_index(ms@, j);
            }
            lemma_first_at(mm, "edges"@, i2);
            assert(first_val(mm, "edges"@) == edges_v.jm());
        }
        let ems = match edges_v {
            JsonValue::Obj(ems) => ems,
            _ => {
                proof {
                    assert forall|g0: Graph|
                        g0.wf() && v.jm() == #[trigger] g0.graph_jm() implies false by {
                        assert(edges_v.jm() == JModel::Obj(edges_jm(g0.edges@)));
                    }
                }
                return Err(GraphError::SchemaError);
            },
        };
        let ghost emm = crate::json::jm_of_members(ems@);
        proof {
            assert(first_val(mm, "edges"@) == JModel::Obj(emm));
        }
        proof {
            assert forall|g0: Graph| g0.wf() && v.jm() == #[trigger] g0.graph_jm() implies
                crate::json::jm_of_members(ems@) == edges_jm(g0.edges@) && ems@.len()
                == g0.edges@.len() && node_prefix_loaded(g_nodes, g0, g0.nodes@.len() as int) by {
                crate::json::lemma_jm_of_members_len(ems@);
            }
        }
        let mut i: usize = 0;
        while i < ems.len()
            invariant
                i <= ems@.len(),
                g.wf(),
                g.nodes == g_nodes.nodes,
                g.max_node_id == g_nodes.max_node_id,
                counter_tight(g),
                forall|g0: Graph|
                    g0.wf() && v.jm() == #[trigger] g0.graph_jm() ==> (i <= g0.edges@.len() && (
                    forall|o: usize, d: usize|
                        #[trigger] g.spec_has_edge(o, d) <==> pair_before(
                            g0.edges@,
                            i as int,
                            0,
                            o,
                            d,
                        )) && labels_loaded(g, g0.edges@, i as int, 0)),
            decreases ems@.len() - i,
        {
            let origin = match decode_id_key(&ems[i].0) {
                Ok(o) => o,
                Err(e) => {
                    proof {
                        assert forall|g0: Graph|
                            g0.wf() && v.jm() == #[trigger] g0.graph_jm() implies false by {
                            crate::json::lemma_jm_of_members_index(ems@, i as int);
                            assert(ems@[i as int].0@ == dec_rep(g0.edges@[i as int].0 as nat));
                            crate::text::lemma_dec_rep(g0.edges@[i as int].0 as nat);
                        }
                    }
                    return Err(e);
                },
            };
            let rms = match &ems[i].1 {
                JsonValue::Obj(rms) => rms,
                _ => {
                    proof {
                        assert forall|g0: Graph|
                            g0.wf() && v.jm() == #[trigger] g0.graph_jm() implies false by {
                            crate::json::lemma_jm_of_members_index(ems@, i as int);
                            assert(ems@[i as int].1.jm() == JModel::Obj(
                                row_jm(g0.edges@[i as int].1@),
                            ));
                        }
                    }
                    return Err(GraphError::SchemaError);
                },
            };
            proof {
                assert forall|g0: Graph|
                    g0.wf() && v.jm() == #[trigger] g0.graph_jm() implies (i < g0.edges@.len()
                        && origin == g0.edges@[i as int].0 && crate::json::jm_of_members(rms@)
                        == row_jm(g0.edges@[i as int].1@) && rms@.len()
                        == g0.edges@[i as int].1@.len()) by {
                    crate::json::lemma_jm_of_members_len(ems@);
                    crate::json::lemma_jm_of_members_index(ems@, i as int);
                    assert(ems@[i as int].0@ == dec_rep(g0.edges@[i as int].0 as nat));
                    crate::text::lemma_dec_rep(g0.edges@[i as int].0 as nat);
                    assert(ems@[i as int].1.jm() == JModel::Obj(row_jm(g0.edges@[i as int].1@)));
                    crate::json::lemma_jm_of_members_len(rms@);
                }
            }
            let mut j: usize = 0;
            while j < rms.len()
                invariant
                    j <= rms@.len(),
                    g.wf(),
                    g.nodes == g_nodes.nodes,
                    g.max_node_id == g_nodes.max_node_id,
                    counter_tight(g),
                    forall|g0: Graph|
                        g0.wf() && v.jm() == #[trigger] g0.graph_jm() ==> (i < g0.edges@.len()
                            && origin == g0.edges@[i as int].0 && j <= g0.edges@[i as int].1@.len()
                            && crate::json::jm_of_members(rms@) == row_jm(g0.edges@[i as int].1@)
                            && rms@.len() == g0.edges@[i as int].1@.len() && (forall|
                            o: usize,
                            d: usize,
                        |
                            #[trigger] g.spec_has_edge(o, d) <==> pair_before(
                                g0.edges@,
                                i as int,
                                j as int,
                                o,
                                d,
                            )) && labels_loaded(g, g0.edges@, i as int, j as int)),
                decreases rms@.len() - j,
            {
                let destination = match decode_id_key(&rms[j].0) {
                    Ok(d) => d,
                    Err(e) => {
                        proof {
                            assert forall|g0: Graph|
                                g0.wf() && v.jm() == #[trigger] g0.graph_jm() implies false by {
                                crate::json::lemma_jm_of_members_index(rms@, j as int);
                                assert(rms@[j as int].0@ == dec_rep(
                                    g0.edges@[i as int].1@[j as int].0 as nat,
                                ));
                                crate::text::lemma_dec_rep(
                                    g0.edges@[i as int].1@[j as int].0 as nat,
                                );
                            }
                        }
                        return Err(e);
                    },
                };
                let lms = match &rms[j].1 {
                    JsonValue::Obj(lms) => lms,
                    _ => {
                        proof {
                            assert forall|g0: Graph|
                                g0.wf() && v.jm() == #[trigger] g0.graph_jm() implies false by {
                                crate::json::lemma_jm_of_members_index(rms@, j as int);
                                assert(rms@[j as int].1.jm() == edge_jm(
                                    g0.edges@[i as int].1@[j as int].1,
                                ));
                            }
                        }
                        return Err(GraphError::SchemaError);
                    },
                };
                let arr = match find_member(lms, "labels") {
                    Some(lv) => {
                        proof {
                            assert forall|g0: Graph|
                                g0.wf() && v.jm() == #[trigger] g0.graph_jm() implies lv.jm()
                                == JModel::Arr(
                                labels_jm(g0.edges@[i as int].1@[j as int].1.labels_model()),
                            ) by {
                                crate::json::lemma_jm_of_members_index(rms@, j as int);
                                assert(rms@[j as int].1.jm() == edge_jm(
                                    g0.edges@[i as int].1@[j as int].1,
                                ));
                                crate::json::lemma_jm_of_members_index(lms@, 0);
                                let w = choose|w: int|
                                    0 <= w < lms@.len() && (#[trigger] lms@[w]).0@ == "labels"@
                                        && lms@[w].1 == *lv;
                                crate::json::lemma_jm_of_members_len(lms@);
                                assert(w == 0);
                            }
                        }
                        match lv {
                            JsonValue::Arr(arr) => arr,
                            _ => {
                                proof {
                                    assert forall|g0: Graph|
                                        g0.wf() && v.jm() == #[trigger] g0.graph_jm() implies
                                        false by {}
                                }
                                return Err(GraphError::SchemaError);
                            },
                        }
                    },
                    None => {
                        proof {
                            assert forall|g0: Graph|
                                g0.wf() && v.jm() == #[trigger] g0.graph_jm() implies false by {
                                crate::json::lemma_jm_of_members_index(rms@, j as int);
                                assert(rms@[j as int].1.jm() == edge_jm(
                                    g0.edges@[i as int].1@[j as int].1,
                                ));
                                crate::json::lemma_jm_of_members_index(lms@, 0);
                                assert(lms@[0].0@ == "labels"@);
                            }
                        }
                        return Err(GraphError::SchemaError);
                    },
                };
                proof {
                    assert forall|g0: Graph|
                        g0.wf() && v.jm() == #[trigger] g0.graph_jm() implies (j
                            < g0.edges@[i as int].1@.len() && destination
                            == g0.edges@[i as int].1@[j as int].0 && crate::json::jm_of_list(arr@)
                            == labels_jm(g0.edges@[i as int].1@[j as int].1.labels_model())
                            && arr@.len()
                            == g0.edges@[i as int].1@[j as int].1.labels_model().len()) by {
                        crate::json::lemma_jm_of_members_index(rms@, j as int);
                        assert(rms@[j as int].0@ == dec_rep(
                            g0.edges@[i as int].1@[j as int].0 as nat,
                        ));
                        crate::text::lemma_dec_rep(g0.edges@[i as int].1@[j as int].0 as nat);
                        crate::json::lemma_jm_of_list_len(arr@);
                    }
                }
                let mut k: usize = 0;
                while k < arr.len()
                    invariant
                        k <= arr@.len(),
                        g.wf(),
                        g.nodes == g_nodes.nodes,
                        g.max_node_id == g_nodes.max_node_id,
                        counter_tight(g),
                        forall|g0: Graph|
                            g0.wf() && v.jm() == #[trigger] g0.graph_jm() ==> (i
                                < g0.edges@.len() && origin == g0.edges@[i as int].0 && j
                                < g0.edges@[i as int].1@.len() && destination
                                == g0.edges@[i as int].1@[j as int].0 && arr@.len()
                                == g0.edges@[i as int].1@[j as int].1.labels_model().len() && (
                            forall|o: usize, d: usize|
                                #[trigger] g.spec_has_edge(o, d) <==> (pair_before(
                                    g0.edges@,
                                    i as int,
                                    j as int,
                                    o,
                                    d,
                                ) || (k > 0 && o == origin && d == destination)))
                                && labels_loaded(g, g0.edges@, i as int, j as int) && (k > 0
                                ==> g.spec_edge_labels(origin, destination)
                                == g0.edges@[i as int].1@[j as int].1.labels_model().take(
                                k as int,
                            ))),
                    decreases arr@.len() - k,
                {
                    let sv = match &arr[k] {
                        JsonValue::Str(sv) => sv,
                        _ => {
                            proof {
                                assert forall|g0: Graph|
                                    g0.wf() && v.jm() == #[trigger] g0.graph_jm() implies
                                    false by {
                                    let ls = g0.edges@[i as int].1@[j as int].1.labels_model();
                                    crate::json::lemma_jm_of_list_index(arr@, k as int);
                                    assert(labels_jm(ls)[k as int] == JModel::Str(
                                        ls[k as int],
                                    ));
                                }
                            }
                            return Err(GraphError::SchemaError);
                        },
                    };
                    let ghost gpre = g;
                    match g.connect_nodes(origin, destination, sv.as_str()) {
                        Ok(()) => {},
                        Err(e) => {
                            proof {
                                assert forall|g0: Graph|
                                    g0.wf() && v.jm() == #[trigger] g0.graph_jm() implies
                                    false by {
                                    lemma_aidx(g0.edges@, origin, i as int);
                                    assert(ahas(g0.edges@, origin));
                                    assert(g0.spec_has_node(origin));
                                    assert(g0.edge_row_wf(aget(g0.edges@, origin)));
                                    lemma_aidx(g0.edges@[i as int].1@, destination, j as int);
                                    assert(ahas(g0.edges@[i as int].1@, destination));
                                    assert(g0.spec_has_node(destination));
                                    reveal(crate::codec::node_prefix_loaded);
                                    assert(node_prefix_loaded(g_nodes, g0, g0.nodes@.len() as int));
                                    let wo = g0.node_idx(origin);
                                    g0.lemma_node_at(
                                        origin,
                                        choose|w: int|
                                            0 <= w < g0.node_ids().len() && g0.node_ids()[w]
                                                == origin,
                                    );
                                    assert(g_nodes.spec_has_node(origin)) by {
                                        let w = g0.node_idx(origin);
                                        assert(g0.nodes@[w].id == origin);
                                    }
                                    assert(g_nodes.spec_has_node(destination)) by {
                                        let w = choose|w: int|
                                            0 <= w < g0.node_ids().len() && g0.node_ids()[w]
                                                == destination;
                                        g0.lemma_node_at(destination, w);
                                        assert(g0.nodes@[w].id == destination);
                                    }
                                    assert(gpre.spec_has_node(origin)) by {
                                        assert(gpre.nodes == g_nodes.nodes);
                                    }
                                    assert(gpre.spec_has_node(destination));
                                }
                                // the failed endpoint is not declared in
                                // the document's node section
                                assert(e matches GraphError::UnknownNode(x) ==> !doc_has_node(
                                    v.jm(),
                                    x as nat,
                                )) by {
                                    match e {
                                        GraphError::UnknownNode(x) => {
                                            assert(!gpre.spec_has_node(x));
                                            assert(!g_nodes.spec_has_node(x)) by {
                                                assert(gpre.nodes == g_nodes.nodes);
                                            }
                                        },
                                        _ => {},
                                    }
                                }
                            }
                            return Err(e);
                        },
                    }
                    proof {
                        reveal(crate::codec::counter_tight);
                        assert(counter_tight(g)) by {
                            if !(gpre.max_node_id == 0 && gpre.nodes@.len() == 0) {
                                assert(gpre.spec_has_node(gpre.max_node_id));
                                assert(g.spec_has_node(gpre.max_node_id));
                            }
                        }
                        assert forall|g0: Graph|
                            g0.wf() && v.jm() == #[trigger] g0.graph_jm() implies ((forall|
                            o: usize,
                            d: usize,
                        |
                            #[trigger] g.spec_has_edge(o, d) <==> (pair_before(
                                g0.edges@,
                                i as int,
                                j as int,
                                o,
                                d,
                            ) || (o == origin && d == destination))) && labels_loaded(
                            g,
                            g0.edges@,
                            i as int,
                            j as int,
                        ) && g.spec_edge_labels(origin, destination)
                            == g0.edges@[i as int].1@[j as int].1.labels_model().take(
                            k as int + 1,
                        )) by {
                            let es = g0.edges@;
                            let ls = es[i as int].1@[j as int].1.labels_model();
                            crate::json::lemma_jm_of_list_index(arr@, k as int);
                            assert(labels_jm(ls)[k as int] == JModel::Str(ls[k as int]));
                            assert(sv@ == ls[k as int]);
                            // the pair is fresh relative to earlier positions
                            assert(!pair_before(es, i as int, j as int, origin, destination))
                                by {
                                if pair_before(es, i as int, j as int, origin, destination) {
                                    let (w, u) = choose|w: int, u: int|
                                        #![trigger es[w].1@[u]]
                                        0 <= w && 0 <= u && ((w < i && u < es[w].1@.len()) || (w
                                            == i && u < j)) && es[w].0 == origin && es[w].1@[u].0
                                            == destination;
                                    if w < i {
                                        assert(akeys(es)[w] < akeys(es)[i as int]);
                                    } else {
                                        let row = es[i as int].1@;
                                        lemma_aidx(es, es[i as int].0, i as int);
                                        assert(g0.edge_row_wf(aget(es, es[i as int].0)));
                                        assert(aget(es, es[i as int].0) == es[i as int].1);
                                        assert(akeys(row)[u] < akeys(row)[j as int]);
                                    }
                                }
                            }
                            // edge presence after the call
                            assert forall|o: usize, d: usize| #[trigger] g.spec_has_edge(o, d)
                                <==> (pair_before(es, i as int, j as int, o, d) || (o == origin
                                && d == destination)) by {
                                assert(gpre.spec_has_edge(o, d) <==> (pair_before(
                                    es,
                                    i as int,
                                    j as int,
                                    o,
                                    d,
                                ) || (k > 0 && o == origin && d == destination)));
                            }
                            // labels of the pair
                            if k == 0 {
                                assert(!gpre.spec_has_edge(origin, destination));
                                assert(gpre.spec_labels_or_empty(origin, destination)
                                    =~= Seq::<Seq<char>>::empty());
                                assert(g.spec_edge_labels(origin, destination)
                                    == Edge::spec_add_label(Seq::empty(), sv@));
                                assert(!Seq::<Seq<char>>::empty().contains(sv@));
                                assert(g.spec_edge_labels(origin, destination) =~= ls.take(1));
                            } else {
                                assert(gpre.spec_has_edge(origin, destination));
                                assert(gpre.spec_edge_labels(origin, destination) == ls.take(
                                    k as int,
                                ));
                                assert(!ls.take(k as int).contains(ls[k as int])) by {
                                    if ls.take(k as int).contains(ls[k as int]) {
                                        let w = choose|w: int|
                                            0 <= w < k && ls.take(k as int)[w] == ls[k as int];
                                        let e0 = es[i as int].1@[j as int].1;
                                        assert(e0.labels@[w]@ == e0.labels@[k as int]@) by {
                                            assert(ls[w] == e0.labels@[w]@);
                                        }
                                        assert(e0.wf()) by {
                                            lemma_aidx(es, es[i as int].0, i as int);
                                            assert(g0.edge_row_wf(aget(es, es[i as int].0)));
                                            lemma_aidx(
                                                es[i as int].1@,
                                                es[i as int].1@[j as int].0,
                                                j as int,
                                            );
                                            assert(aget(
                                                es[i as int].1@,
                                                es[i as int].1@[j as int].0,
                                            ) == e0);
                                        }
                                    }
                                }
                                assert(g.spec_edge_labels(origin, destination) =~= ls.take(
                                    k as int + 1,
                                ));
                            }
                            // labels of earlier pairs are untouched
                            assert forall|w: int, u: int|
                                #![trigger es[w].1@[u]]
                                0 <= w && 0 <= u && ((w < i && u < es[w].1@.len()) || (w == i && u
                                    < j)) implies g.spec_edge_labels(es[w].0, es[w].1@[u].0)
                                == es[w].1@[u].1.labels_model() by {
                                assert(gpre.spec_has_edge(es[w].0, es[w].1@[u].0));
                                assert(!(es[w].0 == origin && es[w].1@[u].0 == destination));
                                assert(g.spec_edge(es[w].0, es[w].1@[u].0) == gpre.spec_edge(
                                    es[w].0,
                                    es[w].1@[u].0,
                                ));
                                assert(gpre.spec_edge_labels(es[w].0, es[w].1@[u].0)
                                    == es[w].1@[u].1.labels_model());
                            }
                        }
                    }
                    k += 1;
                }
                proof {
                    assert forall|g0: Graph|
                        g0.wf() && v.jm() == #[trigger] g0.graph_jm() implies ((forall|
                        o: usize,
                        d: usize,
                    |
                        #[trigger] g.spec_has_edge(o, d) <==> pair_before(
                            g0.edges@,
                            i as int,
                            j as int + 1,
                            o,
                            d,
                        )) && labels_loaded(g, g0.edges@, i as int, j as int + 1)) by {
                        let es = g0.edges@;
                        let ls = es[i as int].1@[j as int].1.labels_model();
                        assert(ls.len() >= 1) by {
                            lemma_aidx(es, es[i as int].0, i as int);
                            assert(g0.edge_row_wf(aget(es, es[i as int].0)));
                            lemma_aidx(es[i as int].1@, es[i as int].1@[j as int].0, j as int);
                            assert(aget(es[i as int].1@, es[i as int].1@[j as int].0).wf());
                        }
                        assert(k > 0);
                        assert(ls.take(ls.len() as int) =~= ls);
                        assert forall|o: usize, d: usize| #[trigger] g.spec_has_edge(o, d) <==>
                            pair_before(es, i as int, j as int + 1, o, d) by {
                            if g.spec_has_edge(o, d) {
                                if o == origin && d == destination {
                                    assert(es[i as int].1@[j as int].0 == d && es[i as int].0
                                        == o);
                                } else {
                                    let (w, u) = choose|w: int, u: int|
                                        #![trigger es[w].1@[u]]
                                        0 <= w && 0 <= u && ((w < i && u < es[w].1@.len()) || (w
                                            == i && u < j)) && es[w].0 == o && es[w].1@[u].0 == d;
                                    assert(es[w].1@[u].0 == d);
                                }
                            }
                            if pair_before(es, i as int, j as int + 1, o, d) {
                                let (w, u) = choose|w: int, u: int|
                                    #![trigger es[w].1@[u]]
                                    0 <= w && 0 <= u && ((w < i && u < es[w].1@.len()) || (w == i
                                        && u < j + 1)) && es[w].0 == o && es[w].1@[u].0 == d;
                                if w == i && u == j {
                                    assert(o == origin && d == destination);
                                } else {
                                    assert(pair_before(es, i as int, j as int, o, d));
                                }
                            }
                        }
                        assert forall|w: int, u: int|
                            #![trigger es[w].1@[u]]
                            0 <= w && 0 <= u && ((w < i && u < es[w].1@.len()) || (w == i && u < j
                                + 1)) implies g.spec_edge_labels(es[w].0, es[w].1@[u].0)
                            == es[w].1@[u].1.labels_model() by {
                            if w == i && u == j {
                                assert(g.spec_edge_labels(origin, destination) == ls.take(
                                    k as int,
                                ));
                            }
                        }
                    }
                }
                j += 1;
            }
            proof {
                assert forall|g0: Graph|
                    g0.wf() && v.jm() == #[trigger] g0.graph_jm() implies ((forall|
                    o: usize,
                    d: usize,
                |
                    #[trigger] g.spec_has_edge(o, d) <==> pair_before(
                        g0.edges@,
                        i as int + 1,
                        0,
                        o,
                        d,
                    )) && labels_loaded(g, g0.edges@, i as int + 1, 0)) by {
                    let es = g0.edges@;
                    assert(j == es[i as int].1@.len());
                    assert forall|o: usize, d: usize| #[trigger] g.spec_has_edge(o, d) <==>
                        pair_before(es, i as int + 1, 0, o, d) by {
                        if g.spec_has_edge(o, d) {
                            let (w, u) = choose|w: int, u: int|
                                #![trigger es[w].1@[u]]
                                0 <= w && 0 <= u && ((w < i && u < es[w].1@.len()) || (w == i && u
                                    < j)) && es[w].0 == o && es[w].1@[u].0 == d;
                            assert((w < i + 1 && u < es[w].1@.len()));
                            assert(es[w].1@[u].0 == d);
                        }
                        if pair_before(es, i as int + 1, 0, o, d) {
                            let (w, u) = choose|w: int, u: int|
                                #![trigger es[w].1@[u]]
                                0 <= w && 0 <= u && ((w < i + 1 && u < es[w].1@.len()) || (w == i
                                    + 1 && u < 0)) && es[w].0 == o && es[w].1@[u].0 == d;
                            assert(pair_before(es, i as int, j as int, o, d)) by {
                                assert(es[w].1@[u].0 == d);
                            }
                        }
                    }
                    assert forall|w: int, u: int|
                        #![trigger es[w].1@[u]]
                        0 <= w && 0 <= u && ((w < i + 1 && u < es[w].1@.len()) || (w == i + 1 && u
                            < 0)) implies g.spec_edge_labels(es[w].0, es[w].1@[u].0)
                        == es[w].1@[u].1.labels_model() by {
                        if w < i {
                        } else {
                            assert(w == i && u < j);
                        }
                    }
                }
            }
            i += 1;
        }
        proof {
            assert forall|g0: Graph| g0.wf() && v.jm() == #[trigger] g0.graph_jm() implies g.equiv(
                g0,
            ) by {
                reveal(crate::codec::node_prefix_loaded);
                let es = g0.edges@;
                assert(node_prefix_loaded(g_nodes, g0, g0.nodes@.len() as int));
                // the live nodes agree
                assert forall|idq: usize| #[trigger] g.spec_has_node(idq) <==> g0.spec_has_node(
                    idq,
                ) by {
                    assert(g.spec_has_node(idq) <==> g_nodes.spec_has_node(idq)) by {
                        assert(g.nodes == g_nodes.nodes);
                    }
                    if g_nodes.spec_has_node(idq) {
                        let w = choose|w: int|
                            0 <= w < g0.nodes@.len() && (#[trigger] g0.nodes@[w]).id == idq;
                        g0.lemma_node_at(idq, w);
                    }
                    if g0.spec_has_node(idq) {
                        let w = choose|w: int|
                            0 <= w < g0.node_ids().len() && g0.node_ids()[w] == idq;
                        assert(g0.nodes@[w].id == idq);
                    }
                }
                // and carry the same property bags
                assert forall|idq: usize| #[trigger] g.spec_has_node(idq) implies g.spec_node(
                    idq,
                ).same_props(g0.spec_node(idq)) by {
                    let w = choose|w: int|
                        0 <= w < g0.node_ids().len() && g0.node_ids()[w] == idq;
                    assert(g0.nodes@[w].id == idq);
                    g0.lemma_node_at(idq, w);
                    assert(g_nodes.spec_node(idq).props@.map_values(
                        |p: (String, String)| (p.0@, p.1@),
                    ) == sorted_pm(g0.nodes@[w].props_model()));
                    assert(g.spec_node(idq) == g_nodes.spec_node(idq)) by {
                        assert(g.nodes == g_nodes.nodes);
                        let u = choose|u: int|
                            0 <= u < g_nodes.nodes@.len() && (#[trigger] g_nodes.nodes@[u]).id
                                == idq;
                        g_nodes.lemma_node_at(idq, u);
                        assert(g.nodes@[u].id == idq);
                        g.lemma_node_at(idq, u);
                    }
                    let na = g.spec_node(idq);
                    let nb = g0.spec_node(idq);
                    lemma_sorted_pm_members(nb.props_model());
                    assert forall|kq: Seq<char>, vq: Seq<char>| #[trigger] na.spec_has_prop(
                        kq,
                        vq,
                    ) <==> nb.spec_has_prop(kq, vq) by {
                        let spm = sorted_pm(nb.props_model());
                        if na.spec_has_prop(kq, vq) {
                            let x = choose|x: int|
                                0 <= x < na.props@.len() && (#[trigger] na.props@[x]).0@ == kq
                                    && na.props@[x].1@ == vq;
                            assert(na.props@.map_values(|p: (String, String)| (p.0@, p.1@))[x]
                                == (kq, vq));
                            assert(spm[x] == (kq, vq));
                            assert(nb.props_model().contains((kq, vq)));
                            let y = choose|y: int|
                                0 <= y < nb.props_model().len() && nb.props_model()[y] == (
                                kq,
                                vq,
                            );
                            assert(nb.props@[y].0@ == kq && nb.props@[y].1@ == vq);
                        }
                        if nb.spec_has_prop(kq, vq) {
                            let x = choose|x: int|
                                0 <= x < nb.props@.len() && (#[trigger] nb.props@[x]).0@ == kq
                                    && nb.props@[x].1@ == vq;
                            assert(nb.props_model()[x] == (kq, vq));
                            assert(nb.props_model().contains((kq, vq)));
                            assert(spm.contains((kq, vq)));
                            let y = choose|y: int| 0 <= y < spm.len() && spm[y] == (kq, vq);
                            assert(na.props@.map_values(|p: (String, String)| (p.0@, p.1@))[y]
                                == (kq, vq));
                            assert(na.props@[y].0@ == kq && na.props@[y].1@ == vq);
                        }
                    }
                }
                // the edges agree
                assert forall|o: usize, d: usize| #[trigger] g.spec_has_edge(o, d) <==> g0
                    .spec_has_edge(o, d) by {
                    if g.spec_has_edge(o, d) {
                        let (w, u) = choose|w: int, u: int|
                            #![trigger es[w].1@[u]]
                            0 <= w && 0 <= u && ((w < es.len() && u < es[w].1@.len()) || (w
                                == es.len() && u < 0)) && es[w].0 == o && es[w].1@[u].0 == d;
                        lemma_aidx(es, o, w);
                        lemma_aidx(es[w].1@, d, u);
                    }
                    if g0.spec_has_edge(o, d) {
                        let w = aidx(es, o);
                        lemma_aidx(es, o, w);
                        let u = aidx(es[w].1@, d);
                        assert(es[w].1@[u].0 == d && 0 <= u < es[w].1@.len());
                        assert(pair_before(es, es.len() as int, 0, o, d));
                    }
                }
                // with the same label sets
                assert forall|o: usize, d: usize| #[trigger] g.spec_has_edge(o, d) implies g
                    .spec_edge(o, d).same_labels(g0.spec_edge(o, d)) by {
                    let w = aidx(es, o);
                    lemma_aidx(es, o, w);
                    let u = aidx(es[w].1@, d);
                    assert(es[w].1@[u].0 == d && 0 <= u < es[w].1@.len());
                    assert(g.spec_edge_labels(o, d) == es[w].1@[u].1.labels_model());
                    assert(g0.spec_edge(o, d) == es[w].1@[u].1);
                    let ea = g.spec_edge(o, d);
                    let eb = g0.spec_edge(o, d);
                    assert(ea.labels_model() == eb.labels_model());
                    assert forall|lq: Seq<char>| #[trigger] ea.spec_has_label(lq) <==> eb
                        .spec_has_label(lq) by {}
                }
            }
        }
        proof {
            assert forall|idq: usize| #[trigger] g.spec_has_node(idq) <==> doc_has_node(
                v.jm(),
                idq as nat,
            ) by {
                assert(g.spec_has_node(idq) <==> g_nodes.spec_has_node(idq)) by {
                    assert(g.nodes == g_nodes.nodes);
                }
            }
        }
        Ok(g)
    }

    /// Decodes a graph from JSON text. The format's syntax is the JSON
    /// subset the encoder emits: objects, arrays, strings with the named
    /// escapes and `\u00XX`, and unsigned decimal integers; text
    /// outside it is `ParseError`, exactly when [`parse_text`] fails. A
    /// document of the wrong shape — no object at the top, a missing or
    /// non-object `"nodes"` or `"edges"` member, a malformed node entry
    /// — is `SchemaError`; an edge naming an undeclared id is
    /// `UnknownNode`, as in the live API. A graph that comes back `Ok`
    /// holds exactly the ids the document declares and satisfies the
    /// full graph invariant, the reverse index and allocation counter
    /// having been rebuilt, not trusted.
    /// Loading what was saved gives the graph back: for every
    /// well-formed graph, decoding the exact text `to_json_string`
    /// produces succeeds and yields an equivalent graph, with the same
    /// nodes and properties and the same edges and label sets.
    pub fn from_json(text: &str) -> (r: Result<Graph, GraphError>)
        requires
            text@.len() < usize::MAX,
        ensures
            r matches Ok(g) ==> g.wf() && counter_tight(g),
            r == Err::<Graph, GraphError>(GraphError::ParseError) <==> crate::json::parse_text(
                text@,
            ) is None,
            r matches Ok(g) ==> (crate::json::parse_text(text@) matches Some(m) && m is Obj && (
            forall|idq: usize|
                #[trigger] g.spec_has_node(idq) <==> doc_has_node(m, idq as nat))),
            r matches Err(GraphError::UnknownNode(x)) ==> (crate::json::parse_text(text@) matches
                Some(m) && !doc_has_node(m, x as nat)),
            crate::json::parse_text(text@) matches Some(m) && !(m is Obj) ==> r == Err::<
                Graph,
                GraphError,
            >(GraphError::SchemaError),
            crate::json::parse_text(text@) matches Some(m) && (m matches JModel::Obj(ms2) && !(
            has_key_jm(ms2, "nodes"@) && has_key_jm(ms2, "edges"@) && first_val(
                ms2,
                "nodes"@,
            ) is Obj && first_val(ms2, "edges"@) is Obj)) ==> r == Err::<Graph, GraphError>(
                GraphError::SchemaError,
            ),
            crate::json::parse_text(text@) matches Some(m) && (m matches JModel::Obj(ms2)
                && has_key_jm(ms2, "nodes"@) && (first_val(ms2, "nodes"@) matches JModel::Obj(
                nms2,
            ) && !nodes_members_shaped(nms2))) ==> r == Err::<Graph, GraphError>(
                GraphError::SchemaError,
            ),
            forall|g0: Graph|
                g0.wf() && text@ == crate::json::print_jm(#[trigger] g0.graph_jm()) ==> (r matches
                    Ok(g2) && g2.equiv(g0)),
    {
        let chars = str_to_chars(text);
        let v = match crate::json::p_text(&chars) {
            Some(v) => v,
            None => {
                proof {
                    assert forall|g0: Graph|
                        g0.wf() && text@ == crate::json::print_jm(#[trigger] g0.graph_jm())
                        implies false by {
                        lemma_saved_text_parses_back(g0);
                    }
                }
                return Err(GraphError::ParseError);
            },
        };
        proof {
            assert forall|g0: Graph|
                g0.wf() && text@ == crate::json::print_jm(#[trigger] g0.graph_jm()) implies v.jm()
                == g0.graph_jm() by {
                lemma_saved_text_parses_back(g0);
            }
        }
        Graph::decode(&v)
    }
}

/// Members with well-formed values form a well-formed object body.
proof fn lemma_wf_members_all(ms: Seq<(Seq<char>, crate::json::JModel)>)
    requires
        forall|k: int| 0 <= k < ms.len() ==> crate::json::wf_jm((#[trigger] ms[k]).1),
    ensures
        crate::json::wf_jm_members(ms),
    decreases ms.len(),
{
    if ms.len() > 0 {
        assert(crate::json::wf_jm(ms[0].1));
        assert forall|k: int| 0 <= k < ms.drop_first().len() implies crate::json::wf_jm(
            (#[trigger] ms.drop_first()[k]).1,
        ) by {
            assert(ms.drop_first()[k] == ms[k + 1]);
        }
        lemma_wf_members_all(ms.drop_first());
    }
}

/// Well-formed elements form a well-formed array body.
proof fn lemma_wf_list_all(items: Seq<crate::json::JModel>)
    requires
        forall|k: int| 0 <= k < items.len() ==> crate::json::wf_jm(#[trigger] items[k]),
    ensures
        crate::json::wf_jm_list(items),
    decreases items.len(),
{
    if items.len() > 0 {
        assert forall|k: int| 0 <= k < items.drop_first().len() implies crate::json::wf_jm(
            #[trigger] items.drop_first()[k],
        ) by {
            assert(items.drop_first()[k] == items[k + 1]);
        }
        lemma_wf_list_all(items.drop_first());
    }
}

/// The persistence round trip at the document level: every graph's
/// canonical document is well-formed, and parsing its canonical text
/// gives exactly that document back. With the contracts of
/// `Graph::to_json_string` (which returns exactly that text) and
/// `Graph::from_json` (which fails with `ParseError` exactly when
/// parsing fails), loading a saved graph always gets past parsing and
/// decodes the very document that was saved.
pub proof fn lemma_saved_text_parses_back(g: Graph)
    ensures
        crate::json::wf_jm(g.graph_jm()),
        crate::json::parse_text(crate::json::print_jm(g.graph_jm())) == Some(g.graph_jm()),
{
    let doc = g.graph_jm();
    // every label is a string value
    assert forall|e: Edge| true implies crate::json::wf_jm(#[trigger] edge_jm(e)) by {
        let ls = labels_jm(e.labels_model());
        assert forall|k: int| 0 <= k < ls.len() implies crate::json::wf_jm(#[trigger] ls[k]) by {
            assert(ls[k] == crate::json::JModel::Str(e.labels_model()[k]));
        }
        lemma_wf_list_all(ls);
        let ms = seq![("labels"@, crate::json::JModel::Arr(ls))];
        lemma_wf_members_all(ms);
    }
    // every node document is well-formed: its id fits the machine
    assert forall|n: Node| true implies crate::json::wf_jm(#[trigger] node_jm(n)) by {
        let pms = props_jm(sorted_pm(n.props_model()));
        assert forall|k: int| 0 <= k < pms.len() implies crate::json::wf_jm(
            (#[trigger] pms[k]).1,
        ) by {
            assert(pms[k].1 == crate::json::JModel::Str(sorted_pm(n.props_model())[k].1));
        }
        lemma_wf_members_all(pms);
        let ms = seq![
            ("id"@, crate::json::JModel::Num(n.id as nat)),
            ("props"@, crate::json::JModel::Obj(pms)),
        ];
        lemma_wf_members_all(ms);
    }
    let ems = edges_jm(g.edges@);
    assert forall|k: int| 0 <= k < ems.len() implies crate::json::wf_jm((#[trigger] ems[k]).1) by {
        let row = row_jm(g.edges@[k].1@);
        assert forall|w: int| 0 <= w < row.len() implies crate::json::wf_jm(
            (#[trigger] row[w]).1,
        ) by {
            assert(row[w].1 == edge_jm(g.edges@[k].1@[w].1));
        }
        lemma_wf_members_all(row);
        assert(ems[k].1 == crate::json::JModel::Obj(row));
    }
    lemma_wf_members_all(ems);
    let nms = nodes_jm(g.nodes@);
    assert forall|k: int| 0 <= k < nms.len() implies crate::json::wf_jm((#[trigger] nms[k]).1) by {
        assert(nms[k].1 == node_jm(g.nodes@[k]));
    }
    lemma_wf_members_all(nms);
    let top = seq![
        ("edges"@, crate::json::JModel::Obj(ems)),
        ("nodes"@, crate::json::JModel::Obj(nms)),
    ];
    lemma_wf_members_all(top);
    assert(crate::json::wf_jm(doc));
    crate::json::lemma_parse_print(doc);
}

} // verus!
