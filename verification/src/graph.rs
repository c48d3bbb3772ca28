//! The graph index and the samplers over it.
//!
//! A `KG` is built exactly once from an ordered triple sequence and is
//! read-only afterwards: dense node and edge arrays, plus two derived
//! indices shared by the negative samplers — the set of nodes that are ever
//! a target of a directed relation anywhere in the graph
//! (`candidates_by_relation`), and the set of nodes actually reachable from
//! one specific head via one directed relation (`reachable_by_head_relation`).

use vstd::prelude::*;
use vstd::std_specs::vec::spec_vec_len;

use crate::rng::rand_below;
use crate::seqs::{
    find_first, lemma_find_first_extend, lemma_find_first_is, lemma_push_contains,
    lemma_push_no_duplicates, lemma_remove_insert_is_update, lemma_strictly_increasing_push,
    lemma_strictly_increasing_unique, strictly_increasing,
};
use crate::triple::{Triple, TripleV, Triples};

verus! {

#[derive(Debug)]
struct Node {
    label: String,
    edges_fwd: Vec<usize>,
    edges_rev: Vec<usize>,
}

#[derive(Debug)]
struct Edge {
    src: usize,
    dst: usize,
    label: String,
}

/// The graph index. Node and edge ids are the positions in the dense arrays,
/// assigned in first-seen order and never reassigned.
#[derive(Debug)]
pub struct KG {
    nodes: Vec<Node>,
    edges: Vec<Edge>,
    candidates: Vec<(String, Vec<usize>)>,
    hr2t: Vec<(usize, String, Vec<usize>)>,
}

/// Failure of a sampling call.
#[derive(Debug, PartialEq, Eq, Structural)]
pub enum SampleError {
    EmptyGraph,
}

// ---------------------------------------------------------------------------
// Ghost model
// ---------------------------------------------------------------------------

#[verifier::ext_equal]
pub ghost struct NodeV {
    pub label: Seq<char>,
    pub fwd: Seq<usize>,
    pub rev: Seq<usize>,
}

#[verifier::ext_equal]
pub ghost struct EdgeV {
    pub src: usize,
    pub dst: usize,
    pub label: Seq<char>,
}

#[verifier::ext_equal]
pub ghost struct KGV {
    pub nodes: Seq<NodeV>,
    pub edges: Seq<EdgeV>,
}

impl View for Node {
    type V = NodeV;

    closed spec fn view(&self) -> NodeV {
        NodeV { label: self.label@, fwd: self.edges_fwd@, rev: self.edges_rev@ }
    }
}

impl View for Edge {
    type V = EdgeV;

    closed spec fn view(&self) -> EdgeV {
        EdgeV { src: self.src, dst: self.dst, label: self.label@ }
    }
}

impl View for KG {
    type V = KGV;

    closed spec fn view(&self) -> KGV {
        KGV {
            nodes: self.nodes@.map_values(|n: Node| n@),
            edges: self.edges@.map_values(|e: Edge| e@),
        }
    }
}

// ---------------------------------------------------------------------------
// The mathematical reading of a graph
// ---------------------------------------------------------------------------

pub open spec fn has_label(g: KGV, l: Seq<char>) -> bool {
    exists|i: int| 0 <= i < g.nodes.len() && (#[trigger] g.nodes[i]).label == l
}

/// The id of the node carrying label `l` (unique when labels are unique).
pub open spec fn id_of(g: KGV, l: Seq<char>) -> usize {
    choose|i: usize| i < g.nodes.len() && g.nodes[i as int].label == l
}

/// The direction tag appended to a relation label for a forward traversal.
pub open spec fn fwd_tag() -> Seq<char> {
    "::-->"@
}

/// The direction tag appended to a relation label for a backward traversal.
pub open spec fn bwd_tag() -> Seq<char> {
    "::<--"@
}

pub open spec fn fwd_key(rel: Seq<char>) -> Seq<char> {
    rel + fwd_tag()
}

pub open spec fn bwd_key(rel: Seq<char>) -> Seq<char> {
    rel + bwd_tag()
}

/// Edge `e`, seen from one of its two sides, makes node `t` a valid target of
/// the directed relation `k` somewhere in the graph.
pub open spec fn edge_gives_cand(g: KGV, e: int, k: Seq<char>, t: usize) -> bool {
    ||| (k == fwd_key(g.edges[e].label) && t == g.edges[e].dst)
    ||| (k == bwd_key(g.edges[e].label) && t == g.edges[e].src)
}

pub open spec fn cand_pairs_upto(g: KGV, m: int) -> Set<(Seq<char>, usize)> {
    Set::new(|p: (Seq<char>, usize)| exists|e: int| 0 <= e < m && edge_gives_cand(g, e, p.0, p.1))
}

pub open spec fn cand_pairs(g: KGV) -> Set<(Seq<char>, usize)> {
    cand_pairs_upto(g, g.edges.len() as int)
}

/// All node ids that are ever a valid target of directed relation `k`.
pub open spec fn cand_set(g: KGV, k: Seq<char>) -> Set<usize> {
    Set::new(|t: usize| cand_pairs(g).contains((k, t)))
}

/// Edge `e` lets head `h` reach `t` via the directed relation `k`.
pub open spec fn edge_gives_reach(g: KGV, e: int, h: usize, k: Seq<char>, t: usize) -> bool {
    ||| (k == fwd_key(g.edges[e].label) && h == g.edges[e].src && t == g.edges[e].dst)
    ||| (k == bwd_key(g.edges[e].label) && h == g.edges[e].dst && t == g.edges[e].src)
}

pub open spec fn reach_pairs_upto(g: KGV, m: int) -> Set<(usize, Seq<char>, usize)> {
    Set::new(
        |p: (usize, Seq<char>, usize)|
            exists|e: int| 0 <= e < m && edge_gives_reach(g, e, p.0, p.1, p.2),
    )
}

pub open spec fn reach_pairs(g: KGV) -> Set<(usize, Seq<char>, usize)> {
    reach_pairs_upto(g, g.edges.len() as int)
}

/// The node ids actually reachable from head `h` via directed relation `k`.
pub open spec fn reach_set(g: KGV, h: usize, k: Seq<char>) -> Set<usize> {
    Set::new(|t: usize| reach_pairs(g).contains((h, k, t)))
}

/// A node's adjacency lists hold exactly the ids of its incident edges, in
/// increasing order: `fwd` those leaving it, `rev` those entering it.
pub open spec fn adj_ok(g: KGV, n: usize) -> bool {
    &&& strictly_increasing(g.nodes[n as int].fwd)
    &&& strictly_increasing(g.nodes[n as int].rev)
    &&& (forall|e: usize|
        #[trigger] g.nodes[n as int].fwd.contains(e) <==> e < g.edges.len() && g.edges[
            e as int
        ].src == n)
    &&& (forall|e: usize|
        #[trigger] g.nodes[n as int].rev.contains(e) <==> e < g.edges.len() && g.edges[
            e as int
        ].dst == n)
}

pub open spec fn incident_count(g: KGV, n: usize) -> int {
    g.nodes[n as int].fwd.len() + g.nodes[n as int].rev.len() as int
}

/// Structural well-formedness: unique labels, endpoints in range, exact
/// adjacency lists, and every node incident to at least one edge.
pub open spec fn wf_graph(g: KGV) -> bool {
    &&& (forall|i: int, j: int|
        0 <= i < j < g.nodes.len() ==> (#[trigger] g.nodes[i]).label != (
        #[trigger] g.nodes[j]).label)
    &&& (forall|e: int|
        0 <= e < g.edges.len() ==> (#[trigger] g.edges[e]).src < g.nodes.len() && g.edges[
            e
        ].dst < g.nodes.len())
    &&& (forall|n: usize| n < g.nodes.len() ==> #[trigger] adj_ok(g, n))
    &&& (forall|n: usize| n < g.nodes.len() ==> #[trigger] incident_count(g, n) >= 1)
}

// ---------------------------------------------------------------------------
// What construction from a triple sequence yields
// ---------------------------------------------------------------------------

/// One triple's effect on the label list: the head label is registered first
/// if unseen, then the tail label.
pub open spec fn step_labels(p: Seq<Seq<char>>, t: TripleV) -> Seq<Seq<char>> {
    let p1 = if p.contains(t.head) {
        p
    } else {
        p.push(t.head)
    };
    if p1.contains(t.tail) {
        p1
    } else {
        p1.push(t.tail)
    }
}

/// The node labels in first-seen order over the whole triple sequence.
pub open spec fn spec_labels(ts: Seq<TripleV>) -> Seq<Seq<char>>
    decreases ts.len(),
{
    if ts.len() == 0 {
        Seq::empty()
    } else {
        step_labels(spec_labels(ts.drop_last()), ts.last())
    }
}

/// The edge a triple contributes, given the final label list.
pub open spec fn edge_at(lv: Seq<Seq<char>>, t: TripleV) -> EdgeV {
    EdgeV {
        src: find_first(lv, t.head) as usize,
        dst: find_first(lv, t.tail) as usize,
        label: t.relation,
    }
}

/// Edge `j` records triple `j`: its endpoints are the first-seen positions of
/// the head and tail labels, its label the relation.
pub open spec fn spec_edges(ts: Seq<TripleV>) -> Seq<EdgeV> {
    Seq::new(ts.len(), |j: int| edge_at(spec_labels(ts), ts[j]))
}

/// Full functional characterisation of construction: node ids, edge ids and
/// adjacency are a function of the triple sequence alone.
pub open spec fn built_from(g: KGV, ts: Seq<TripleV>) -> bool {
    &&& g.nodes.len() == spec_labels(ts).len()
    &&& g.nodes.len() <= usize::MAX
    &&& (forall|i: int| 0 <= i < g.nodes.len() ==> (#[trigger] g.nodes[i]).label == spec_labels(ts)[i])
    &&& g.edges == spec_edges(ts)
    &&& (forall|n: usize| n < g.nodes.len() ==> #[trigger] adj_ok(g, n))
}

// ---------------------------------------------------------------------------
// What a sampled walk looks like
// ---------------------------------------------------------------------------

/// Tokens `a`, `t`, `b` record one walk step: some edge, traversed forward
/// (relation label + forward suffix) or backward (+ backward suffix).
pub open spec fn step_ok(
    g: KGV,
    a: Seq<char>,
    t: Seq<char>,
    b: Seq<char>,
    fs: Seq<char>,
    bs: Seq<char>,
) -> bool {
    exists|e: int|
        #![trigger g.edges[e]]
        0 <= e < g.edges.len() && {
            ||| (t == g.edges[e].label + fs && a == g.nodes[g.edges[e].src as int].label && b
                == g.nodes[g.edges[e].dst as int].label)
            ||| (t == g.edges[e].label + bs && a == g.nodes[g.edges[e].dst as int].label && b
                == g.nodes[g.edges[e].src as int].label)
        }
}

pub open spec fn step_at(g: KGV, toks: Seq<Seq<char>>, i: int, fs: Seq<char>, bs: Seq<char>) -> bool {
    step_ok(g, toks[2 * i], toks[2 * i + 1], toks[2 * i + 2], fs, bs)
}

/// An alternating node / suffixed-relation token sequence tracing a walk: it
/// starts and ends on a node token, and each consecutive (node, relation,
/// node) token window records one edge traversal.
pub open spec fn walk_ok(g: KGV, toks: Seq<Seq<char>>, fs: Seq<char>, bs: Seq<char>) -> bool {
    &&& toks.len() % 2 == 1
    &&& has_label(g, toks[0])
    &&& has_label(g, toks.last())
    &&& (forall|i: int| 0 <= i && 2 * i + 2 < toks.len() ==> #[trigger] step_at(g, toks, i, fs, bs))
}

// ---------------------------------------------------------------------------
// The stored indices, viewed as association lists
// ---------------------------------------------------------------------------

spec fn ckey(c: Seq<(String, Vec<usize>)>, i: int) -> Seq<char> {
    c[i].0@
}

spec fn cids(c: Seq<(String, Vec<usize>)>, i: int) -> Seq<usize> {
    c[i].1@
}

spec fn centry_has(c: Seq<(String, Vec<usize>)>, i: int, k: Seq<char>, t: usize) -> bool {
    ckey(c, i) == k && cids(c, i).contains(t)
}

spec fn cands_content(c: Seq<(String, Vec<usize>)>) -> Set<(Seq<char>, usize)> {
    Set::new(
        |p: (Seq<char>, usize)| exists|i: int| 0 <= i < c.len() && #[trigger] centry_has(c, i, p.0, p.1),
    )
}

spec fn cand_keys_unique(c: Seq<(String, Vec<usize>)>) -> bool {
    forall|i: int, j: int| 0 <= i < j < c.len() ==> ckey(c, i) != ckey(c, j)
}

spec fn cands_nodup(c: Seq<(String, Vec<usize>)>) -> bool {
    forall|i: int| 0 <= i < c.len() ==> (#[trigger] cids(c, i)).no_duplicates()
}

spec fn rhead(r: Seq<(usize, String, Vec<usize>)>, i: int) -> usize {
    r[i].0
}

spec fn rkey(r: Seq<(usize, String, Vec<usize>)>, i: int) -> Seq<char> {
    r[i].1@
}

spec fn rids(r: Seq<(usize, String, Vec<usize>)>, i: int) -> Seq<usize> {
    r[i].2@
}

spec fn rentry_has(
    r: Seq<(usize, String, Vec<usize>)>,
    i: int,
    h: usize,
    k: Seq<char>,
    t: usize,
) -> bool {
    rhead(r, i) == h && rkey(r, i) == k && rids(r, i).contains(t)
}

spec fn reach_content(r: Seq<(usize, String, Vec<usize>)>) -> Set<(usize, Seq<char>, usize)> {
    Set::new(
        |p: (usize, Seq<char>, usize)|
            exists|i: int| 0 <= i < r.len() && #[trigger] rentry_has(r, i, p.0, p.1, p.2),
    )
}

spec fn reach_keys_unique(r: Seq<(usize, String, Vec<usize>)>) -> bool {
    forall|i: int, j: int|
        0 <= i < j < r.len() ==> !(rhead(r, i) == rhead(r, j) && rkey(r, i) == rkey(r, j))
}

spec fn reach_nodup(r: Seq<(usize, String, Vec<usize>)>) -> bool {
    forall|i: int| 0 <= i < r.len() ==> (#[trigger] rids(r, i)).no_duplicates()
}

impl KG {
    /// The invariant every finished graph satisfies: a well-formed structure
    /// whose two stored indices hold exactly the candidate and reachability
    /// pairs that the edges induce.
    #[verifier::type_invariant]
    closed spec fn inv(&self) -> bool {
        &&& wf_graph(self@)
        &&& cand_keys_unique(self.candidates@)
        &&& cands_nodup(self.candidates@)
        &&& cands_content(self.candidates@) == cand_pairs(self@)
        &&& reach_keys_unique(self.hr2t@)
        &&& reach_nodup(self.hr2t@)
        &&& reach_content(self.hr2t@) == reach_pairs(self@)
    }
}


// ---------------------------------------------------------------------------
// Association-list helpers
// ---------------------------------------------------------------------------

fn vec_contains(v: &Vec<usize>, x: usize) -> (r: bool)
    ensures
        r == v@.contains(x),
{
    let n = v.len();
    let mut j: usize = 0;
    while j < n
        invariant
            j <= n,
            n == v@.len(),
            forall|i: int| 0 <= i < j ==> v@[i] != x,
        decreases n - j,
    {
        if v[j] == x {
            assert(v@.contains(x));
            return true;
        }
        j += 1;
    }
    proof {
        if v@.contains(x) {
            let i = choose|i: int| 0 <= i < v@.len() && v@[i] == x;
        }
    }
    false
}

fn find_cand(c: &Vec<(String, Vec<usize>)>, key: &String) -> (r: Option<usize>)
    ensures
        match r {
            Some(i) => i < c@.len() && ckey(c@, i as int) == key@,
            None => forall|i: int| 0 <= i < c@.len() ==> ckey(c@, i) != key@,
        },
{
    let n = c.len();
    let mut j: usize = 0;
    while j < n
        invariant
            j <= n,
            n == c@.len(),
            forall|i: int| 0 <= i < j ==> ckey(c@, i) != key@,
        decreases n - j,
    {
        if c[j].0 == *key {
            return Some(j);
        }
        assert(ckey(c@, j as int) != key@);
        j += 1;
    }
    None
}

fn find_reach(r: &Vec<(usize, String, Vec<usize>)>, h: usize, key: &String) -> (res: Option<usize>)
    ensures
        match res {
            Some(i) => i < r@.len() && rhead(r@, i as int) == h && rkey(r@, i as int) == key@,
            None => forall|i: int| 0 <= i < r@.len() ==> !(rhead(r@, i) == h && rkey(r@, i) == key@),
        },
{
    let n = r.len();
    let mut j: usize = 0;
    while j < n
        invariant
            j <= n,
            n == r@.len(),
            forall|i: int| 0 <= i < j ==> !(rhead(r@, i) == h && rkey(r@, i) == key@),
        decreases n - j,
    {
        if r[j].0 == h && r[j].1 == *key {
            return Some(j);
        }
        assert(!(rhead(r@, j as int) == h && rkey(r@, j as int) == key@));
        j += 1;
    }
    None
}

/// Appending a fresh key with a singleton id list adds exactly one pair to
/// the association list's content.
proof fn lemma_cand_append(oldc: Seq<(String, Vec<usize>)>, newc: Seq<(String, Vec<usize>)>, k: Seq<char>, v: usize)
    requires
        newc.len() == oldc.len() + 1,
        forall|j: int| 0 <= j < oldc.len() ==> newc[j] == oldc[j],
        ckey(newc, oldc.len() as int) == k,
        cids(newc, oldc.len() as int) =~= seq![v],
        forall|j: int| 0 <= j < oldc.len() ==> ckey(oldc, j) != k,
    ensures
        cands_content(newc) == cands_content(oldc).insert((k, v)),
        cand_keys_unique(oldc) ==> cand_keys_unique(newc),
        cands_nodup(oldc) ==> cands_nodup(newc),
{
    let m = oldc.len() as int;
    assert forall|p: (Seq<char>, usize)|
        cands_content(newc).contains(p) == cands_content(oldc).insert((k, v)).contains(p) by {
        if cands_content(newc).contains(p) {
            let i = choose|i: int| 0 <= i < newc.len() && #[trigger] centry_has(newc, i, p.0, p.1);
            if i < m {
                assert(centry_has(oldc, i, p.0, p.1));
                assert(cands_content(oldc).contains(p));
            } else {
                assert(p.0 == k);
                assert(cids(newc, m).contains(p.1));
                assert(seq![v][0] == v);
                assert(p.1 == v);
                assert(p == (k, v));
            }
        }
        if cands_content(oldc).insert((k, v)).contains(p) {
            if cands_content(oldc).contains(p) {
                let i = choose|i: int| 0 <= i < oldc.len() && #[trigger] centry_has(oldc, i, p.0, p.1);
                assert(centry_has(newc, i, p.0, p.1));
                assert(cands_content(newc).contains(p));
            } else {
                assert(p == (k, v));
                assert(p.0 == k && p.1 == v);
                assert(cids(newc, m)[0] == v);
                assert(cids(newc, m).contains(v));
                assert(centry_has(newc, m, p.0, p.1));
                assert(cands_content(newc).contains(p));
            }
        }
    }
    assert(cands_content(newc) =~= cands_content(oldc).insert((k, v)));
    if cand_keys_unique(oldc) {
        assert forall|a: int, b: int| 0 <= a < b < newc.len() implies ckey(newc, a) != ckey(
            newc,
            b,
        ) by {
            assert(ckey(newc, a) == ckey(oldc, a));
            if b < m {
                assert(ckey(newc, b) == ckey(oldc, b));
            }
        }
    }
    if cands_nodup(oldc) {
        assert forall|j: int| 0 <= j < newc.len() implies (#[trigger] cids(newc, j)).no_duplicates() by {
            if j < m {
                assert(cids(newc, j) == cids(oldc, j));
            } else {
                assert(cids(newc, j) =~= seq![v]);
            }
        }
    }
}

/// Pushing one fresh id onto an existing key's list adds exactly that pair.
proof fn lemma_cand_extend(oldc: Seq<(String, Vec<usize>)>, newc: Seq<(String, Vec<usize>)>, ii: int, k: Seq<char>, v: usize)
    requires
        newc.len() == oldc.len(),
        0 <= ii < oldc.len(),
        forall|j: int| 0 <= j < oldc.len() && j != ii ==> newc[j] == oldc[j],
        ckey(oldc, ii) == k,
        ckey(newc, ii) == k,
        cids(newc, ii) == cids(oldc, ii).push(v),
        !cids(oldc, ii).contains(v),
    ensures
        cands_content(newc) == cands_content(oldc).insert((k, v)),
        cand_keys_unique(oldc) ==> cand_keys_unique(newc),
        cands_nodup(oldc) ==> cands_nodup(newc),
{
    lemma_push_contains_all(cids(oldc, ii), v);
    assert forall|p: (Seq<char>, usize)|
        cands_content(newc).contains(p) == cands_content(oldc).insert((k, v)).contains(p) by {
        if cands_content(newc).contains(p) {
            let j = choose|j: int| 0 <= j < newc.len() && #[trigger] centry_has(newc, j, p.0, p.1);
            if j != ii {
                assert(centry_has(oldc, j, p.0, p.1));
                assert(cands_content(oldc).contains(p));
            } else {
                assert(p.0 == k);
                if p.1 == v {
                    assert(p == (k, v));
                } else {
                    assert(cids(oldc, ii).contains(p.1));
                    assert(centry_has(oldc, ii, p.0, p.1));
                    assert(cands_content(oldc).contains(p));
                }
            }
        }
        if cands_content(oldc).insert((k, v)).contains(p) {
            if cands_content(oldc).contains(p) {
                let j = choose|j: int| 0 <= j < oldc.len() && #[trigger] centry_has(oldc, j, p.0, p.1);
                if j == ii {
                    assert(cids(newc, ii).contains(p.1));
                    assert(centry_has(newc, ii, p.0, p.1));
                } else {
                    assert(centry_has(newc, j, p.0, p.1));
                }
                assert(cands_content(newc).contains(p));
            } else {
                assert(p == (k, v));
                assert(p.0 == k && p.1 == v);
                assert(cids(newc, ii).contains(v));
                assert(centry_has(newc, ii, p.0, p.1));
                assert(cands_content(newc).contains(p));
            }
        }
    }
    assert(cands_content(newc) =~= cands_content(oldc).insert((k, v)));
    assert forall|j: int| 0 <= j < newc.len() implies #[trigger] ckey(newc, j) == ckey(oldc, j) by {}
    if cands_nodup(oldc) {
        assert forall|j: int| 0 <= j < newc.len() implies (#[trigger] cids(newc, j)).no_duplicates() by {
            if j == ii {
                lemma_push_no_duplicates(cids(oldc, ii), v);
            } else {
                assert(cids(newc, j) == cids(oldc, j));
            }
        }
    }
}

/// Record that `val` is a valid target of directed relation `key`, keeping
/// the id lists duplicate-free and the keys unique.
fn upsert_cand(c: &mut Vec<(String, Vec<usize>)>, key: String, val: usize)
    ensures
        cands_content(final(c)@) == cands_content(old(c)@).insert((key@, val)),
        cand_keys_unique(old(c)@) ==> cand_keys_unique(final(c)@),
        cands_nodup(old(c)@) ==> cands_nodup(final(c)@),
{
    let found = find_cand(&*c, &key);
    match found {
        None => {
            let mut ids: Vec<usize> = Vec::new();
            ids.push(val);
            c.push((key, ids));
            proof {
                let m = old(c)@.len() as int;
                assert(cids(c@, m) =~= seq![val]);
                lemma_cand_append(old(c)@, c@, ckey(c@, m), val);
            }
        },
        Some(i) => {
            if vec_contains(&c[i].1, val) {
                proof {
                    assert(centry_has(c@, i as int, key@, val));
                    assert(centry_has(c@, i as int, ((key@, val)).0, ((key@, val)).1));
                    assert(cands_content(c@).contains((key@, val)));
                    assert(cands_content(c@) =~= cands_content(c@).insert((key@, val)));
                }
            } else {
                let mut pair = c.remove(i);
                pair.1.push(val);
                c.insert(i, pair);
                proof {
                    let ii = i as int;
                    lemma_remove_insert_is_update(old(c)@, ii, c@[ii]);
                    assert(c@ =~= old(c)@.update(ii, c@[ii]));
                    assert(ckey(c@, ii) == key@);
                    assert(cids(c@, ii) == cids(old(c)@, ii).push(val));
                    lemma_cand_extend(old(c)@, c@, ii, key@, val);
                }
            }
        },
    }
}

/// Appending a fresh (head, key) entry with a singleton id list adds exactly
/// one pair to the reachability index's content.
proof fn lemma_reach_append(oldr: Seq<(usize, String, Vec<usize>)>, newr: Seq<(usize, String, Vec<usize>)>, h: usize, k: Seq<char>, v: usize)
    requires
        newr.len() == oldr.len() + 1,
        forall|j: int| 0 <= j < oldr.len() ==> newr[j] == oldr[j],
        rhead(newr, oldr.len() as int) == h,
        rkey(newr, oldr.len() as int) == k,
        rids(newr, oldr.len() as int) =~= seq![v],
        forall|j: int| 0 <= j < oldr.len() ==> !(rhead(oldr, j) == h && rkey(oldr, j) == k),
    ensures
        reach_content(newr) == reach_content(oldr).insert((h, k, v)),
        reach_keys_unique(oldr) ==> reach_keys_unique(newr),
        reach_nodup(oldr) ==> reach_nodup(newr),
{
    let m = oldr.len() as int;
    assert forall|p: (usize, Seq<char>, usize)|
        reach_content(newr).contains(p) == reach_content(oldr).insert((h, k, v)).contains(p) by {
        if reach_content(newr).contains(p) {
            let i = choose|i: int|
                0 <= i < newr.len() && #[trigger] rentry_has(newr, i, p.0, p.1, p.2);
            if i < m {
                assert(rentry_has(oldr, i, p.0, p.1, p.2));
                assert(reach_content(oldr).contains(p));
            } else {
                assert(p.0 == h && p.1 == k);
                assert(rids(newr, m).contains(p.2));
                assert(seq![v][0] == v);
                assert(p.2 == v);
                assert(p == (h, k, v));
            }
        }
        if reach_content(oldr).insert((h, k, v)).contains(p) {
            if reach_content(oldr).contains(p) {
                let i = choose|i: int|
                    0 <= i < oldr.len() && #[trigger] rentry_has(oldr, i, p.0, p.1, p.2);
                assert(rentry_has(newr, i, p.0, p.1, p.2));
                assert(reach_content(newr).contains(p));
            } else {
                assert(p == (h, k, v));
                assert(p.0 == h && p.1 == k && p.2 == v);
                assert(rids(newr, m)[0] == v);
                assert(rids(newr, m).contains(v));
                assert(rentry_has(newr, m, p.0, p.1, p.2));
                assert(reach_content(newr).contains(p));
            }
        }
    }
    assert(reach_content(newr) =~= reach_content(oldr).insert((h, k, v)));
    if reach_keys_unique(oldr) {
        assert forall|a: int, b: int|
            0 <= a < b < newr.len() implies !(rhead(newr, a) == rhead(newr, b) && rkey(newr, a)
            == rkey(newr, b)) by {
            assert(rhead(newr, a) == rhead(oldr, a) && rkey(newr, a) == rkey(oldr, a));
            if b < m {
                assert(rhead(newr, b) == rhead(oldr, b) && rkey(newr, b) == rkey(oldr, b));
            }
        }
    }
    if reach_nodup(oldr) {
        assert forall|j: int| 0 <= j < newr.len() implies (#[trigger] rids(newr, j)).no_duplicates() by {
            if j < m {
                assert(rids(newr, j) == rids(oldr, j));
            } else {
                assert(rids(newr, j) =~= seq![v]);
            }
        }
    }
}

/// Pushing one fresh id onto an existing (head, key) entry adds exactly that
/// pair.
proof fn lemma_reach_extend(oldr: Seq<(usize, String, Vec<usize>)>, newr: Seq<(usize, String, Vec<usize>)>, ii: int, h: usize, k: Seq<char>, v: usize)
    requires
        newr.len() == oldr.len(),
        0 <= ii < oldr.len(),
        forall|j: int| 0 <= j < oldr.len() && j != ii ==> newr[j] == oldr[j],
        rhead(oldr, ii) == h && rkey(oldr, ii) == k,
        rhead(newr, ii) == h && rkey(newr, ii) == k,
        rids(newr, ii) == rids(oldr, ii).push(v),
        !rids(oldr, ii).contains(v),
    ensures
        reach_content(newr) == reach_content(oldr).insert((h, k, v)),
        reach_keys_unique(oldr) ==> reach_keys_unique(newr),
        reach_nodup(oldr) ==> reach_nodup(newr),
{
    lemma_push_contains_all(rids(oldr, ii), v);
    assert forall|p: (usize, Seq<char>, usize)|
        reach_content(newr).contains(p) == reach_content(oldr).insert((h, k, v)).contains(p) by {
        if reach_content(newr).contains(p) {
            let j = choose|j: int|
                0 <= j < newr.len() && #[trigger] rentry_has(newr, j, p.0, p.1, p.2);
            if j != ii {
                assert(rentry_has(oldr, j, p.0, p.1, p.2));
                assert(reach_content(oldr).contains(p));
            } else {
                assert(p.0 == h && p.1 == k);
                if p.2 == v {
                    assert(p == (h, k, v));
                } else {
                    assert(rids(oldr, ii).contains(p.2));
                    assert(rentry_has(oldr, ii, p.0, p.1, p.2));
                    assert(reach_content(oldr).contains(p));
                }
            }
        }
        if reach_content(oldr).insert((h, k, v)).contains(p) {
            if reach_content(oldr).contains(p) {
                let j = choose|j: int|
                    0 <= j < oldr.len() && #[trigger] rentry_has(oldr, j, p.0, p.1, p.2);
                if j == ii {
                    assert(rids(newr, ii).contains(p.2));
                    assert(rentry_has(newr, ii, p.0, p.1, p.2));
                } else {
                    assert(rentry_has(newr, j, p.0, p.1, p.2));
                }
                assert(reach_content(newr).contains(p));
            } else {
                assert(p == (h, k, v));
                assert(p.0 == h && p.1 == k && p.2 == v);
                assert(rids(newr, ii).contains(v));
                assert(rentry_has(newr, ii, p.0, p.1, p.2));
                assert(reach_content(newr).contains(p));
            }
        }
    }
    assert(reach_content(newr) =~= reach_content(oldr).insert((h, k, v)));
    assert forall|j: int| 0 <= j < newr.len() implies #[trigger] rhead(newr, j) == rhead(oldr, j)
        && rkey(newr, j) == rkey(oldr, j) by {}
    if reach_nodup(oldr) {
        assert forall|j: int| 0 <= j < newr.len() implies (#[trigger] rids(newr, j)).no_duplicates() by {
            if j == ii {
                lemma_push_no_duplicates(rids(oldr, ii), v);
            } else {
                assert(rids(newr, j) == rids(oldr, j));
            }
        }
    }
}

/// Record that head `h` reaches `val` via directed relation `key` in the
/// head-relation reachability index.
fn upsert_reach(r: &mut Vec<(usize, String, Vec<usize>)>, h: usize, key: String, val: usize)
    ensures
        reach_content(final(r)@) == reach_content(old(r)@).insert((h, key@, val)),
        reach_keys_unique(old(r)@) ==> reach_keys_unique(final(r)@),
        reach_nodup(old(r)@) ==> reach_nodup(final(r)@),
{
    let found = find_reach(&*r, h, &key);
    match found {
        None => {
            let mut ids: Vec<usize> = Vec::new();
            ids.push(val);
            r.push((h, key, ids));
            proof {
                let m = old(r)@.len() as int;
                assert(rids(r@, m) =~= seq![val]);
                lemma_reach_append(old(r)@, r@, h, rkey(r@, m), val);
            }
        },
        Some(i) => {
            if vec_contains(&r[i].2, val) {
                proof {
                    assert(rentry_has(r@, i as int, h, key@, val));
                    assert(rentry_has(r@, i as int, ((h, key@, val)).0, ((h, key@, val)).1, ((h, key@, val)).2));
                    assert(reach_content(r@).contains((h, key@, val)));
                    assert(reach_content(r@) =~= reach_content(r@).insert((h, key@, val)));
                }
            } else {
                let mut entry = r.remove(i);
                entry.2.push(val);
                r.insert(i, entry);
                proof {
                    let ii = i as int;
                    lemma_remove_insert_is_update(old(r)@, ii, r@[ii]);
                    assert(r@ =~= old(r)@.update(ii, r@[ii]));
                    assert(rhead(r@, ii) == h && rkey(r@, ii) == key@);
                    assert(rids(r@, ii) == rids(old(r)@, ii).push(val));
                    lemma_reach_extend(old(r)@, r@, ii, h, key@, val);
                }
            }
        },
    }
}

/// Push extends membership by exactly the pushed value.
proof fn lemma_push_contains_all(s: Seq<usize>, x: usize)
    ensures
        forall|y: usize| #[trigger] s.push(x).contains(y) <==> s.contains(y) || y == x,
{
    assert forall|y: usize| #[trigger] s.push(x).contains(y) <==> s.contains(y) || y == x by {
        lemma_push_contains(s, x, y);
    }
}


// ---------------------------------------------------------------------------
// Construction
// ---------------------------------------------------------------------------

spec fn gv_of(ns: Seq<Node>, es: Seq<Edge>) -> KGV {
    KGV { nodes: ns.map_values(|n: Node| n@), edges: es.map_values(|e: Edge| e@) }
}

spec fn has_node_label(ns: Seq<Node>, l: Seq<char>) -> bool {
    exists|i: int| 0 <= i < ns.len() && (#[trigger] ns[i])@.label == l
}

fn find_node(nodes: &Vec<Node>, label: &String) -> (r: Option<usize>)
    ensures
        match r {
            Some(j) => j < nodes@.len() && nodes@[j as int]@.label == label@ && (forall|i: int|
                0 <= i < j ==> (#[trigger] nodes@[i])@.label != label@),
            None => forall|i: int| 0 <= i < nodes@.len() ==> (#[trigger] nodes@[i])@.label != label@,
        },
{
    let n = nodes.len();
    let mut j: usize = 0;
    while j < n
        invariant
            j <= n,
            n == nodes@.len(),
            forall|i: int| 0 <= i < j ==> (#[trigger] nodes@[i])@.label != label@,
        decreases n - j,
    {
        if nodes[j].label == *label {
            return Some(j);
        }
        j += 1;
    }
    None
}

/// The id of the node carrying `label`, interning a fresh node (with empty
/// adjacency) when the label is new.
fn intern_node(nodes: &mut Vec<Node>, label: &String) -> (id: usize)
    ensures
        has_node_label(old(nodes)@, label@) ==> final(nodes)@ == old(nodes)@,
        !has_node_label(old(nodes)@, label@) ==> {
            &&& final(nodes)@.len() == old(nodes)@.len() + 1
            &&& (forall|j: int| 0 <= j < old(nodes)@.len() ==> final(nodes)@[j] == old(nodes)@[j])
            &&& final(nodes)@[old(nodes)@.len() as int]@ == (NodeV {
                label: label@,
                fwd: Seq::empty(),
                rev: Seq::empty(),
            })
            &&& id == old(nodes)@.len()
        },
        id < final(nodes)@.len(),
        final(nodes)@[id as int]@.label == label@,
        forall|i: int| 0 <= i < id ==> (#[trigger] final(nodes)@[i])@.label != label@,
{
    match find_node(&*nodes, label) {
        Some(j) => {
            proof {
                assert(has_node_label(nodes@, label@));
            }
            j
        },
        None => {
            let id = nodes.len();
            nodes.push(Node { label: label.clone(), edges_fwd: Vec::new(), edges_rev: Vec::new() });
            proof {
                if has_node_label(old(nodes)@, label@) {
                    let i = choose|i: int|
                        0 <= i < old(nodes)@.len() && (#[trigger] old(nodes)@[i])@.label == label@;
                }
            }
            id
        },
    }
}

/// Append edge id `e` to node `i`'s outgoing list.
fn register_fwd(nodes: &mut Vec<Node>, i: usize, e: usize)
    requires
        i < old(nodes)@.len(),
    ensures
        final(nodes)@.len() == old(nodes)@.len(),
        forall|j: int| 0 <= j < old(nodes)@.len() && j != i ==> final(nodes)@[j] == old(nodes)@[j],
        final(nodes)@[i as int]@.label == old(nodes)@[i as int]@.label,
        final(nodes)@[i as int]@.rev == old(nodes)@[i as int]@.rev,
        final(nodes)@[i as int]@.fwd == old(nodes)@[i as int]@.fwd.push(e),
{
    let mut nd = nodes.remove(i);
    nd.edges_fwd.push(e);
    nodes.insert(i, nd);
    proof {
        lemma_remove_insert_is_update(old(nodes)@, i as int, nodes@[i as int]);
        assert(nodes@ =~= old(nodes)@.update(i as int, nodes@[i as int]));
    }
}

/// Append edge id `e` to node `i`'s incoming list.
fn register_rev(nodes: &mut Vec<Node>, i: usize, e: usize)
    requires
        i < old(nodes)@.len(),
    ensures
        final(nodes)@.len() == old(nodes)@.len(),
        forall|j: int| 0 <= j < old(nodes)@.len() && j != i ==> final(nodes)@[j] == old(nodes)@[j],
        final(nodes)@[i as int]@.label == old(nodes)@[i as int]@.label,
        final(nodes)@[i as int]@.fwd == old(nodes)@[i as int]@.fwd,
        final(nodes)@[i as int]@.rev == old(nodes)@[i as int]@.rev.push(e),
{
    let mut nd = nodes.remove(i);
    nd.edges_rev.push(e);
    nodes.insert(i, nd);
    proof {
        lemma_remove_insert_is_update(old(nodes)@, i as int, nodes@[i as int]);
        assert(nodes@ =~= old(nodes)@.update(i as int, nodes@[i as int]));
    }
}

/// Node labels and the label list agree entrywise, so label membership
/// coincides.
proof fn lemma_has_label_bridge(ns: Seq<Node>, lv: Seq<Seq<char>>, x: Seq<char>)
    requires
        ns.len() == lv.len(),
        forall|i: int| 0 <= i < ns.len() ==> (#[trigger] ns[i])@.label == lv[i],
    ensures
        has_node_label(ns, x) <==> lv.contains(x),
{
    if has_node_label(ns, x) {
        let i = choose|i: int| 0 <= i < ns.len() && (#[trigger] ns[i])@.label == x;
        assert(lv[i] == x);
    }
    if lv.contains(x) {
        let i = choose|i: int| 0 <= i < lv.len() && lv[i] == x;
        assert(ns[i]@.label == x);
    }
}

proof fn lemma_spec_labels_step(ts: Seq<TripleV>, i: int)
    requires
        0 <= i < ts.len(),
    ensures
        spec_labels(ts.take(i + 1)) == step_labels(spec_labels(ts.take(i)), ts[i]),
{
    assert(ts.take(i + 1).drop_last() =~= ts.take(i));
    assert(ts.take(i + 1).last() == ts[i]);
}

proof fn lemma_step_labels_prefix(p: Seq<Seq<char>>, t: TripleV)
    ensures
        p.is_prefix_of(step_labels(p, t)),
        step_labels(p, t).contains(t.head),
        step_labels(p, t).contains(t.tail),
        step_labels(p, t).len() >= p.len(),
{
    let p1 = if p.contains(t.head) {
        p
    } else {
        p.push(t.head)
    };
    let p2 = step_labels(p, t);
    assert(p.is_prefix_of(p1)) by {
        if !p.contains(t.head) {
            assert(p =~= p.push(t.head).subrange(0, p.len() as int));
        }
    }
    assert(p1.is_prefix_of(p2)) by {
        if !p1.contains(t.tail) {
            assert(p1 =~= p1.push(t.tail).subrange(0, p1.len() as int));
        }
    }
    assert(p1.contains(t.head)) by {
        if !p.contains(t.head) {
            assert(p1[p.len() as int] == t.head);
        }
    }
    assert(p2.contains(t.head)) by {
        lemma_find_first_extend(p1, p2, t.head);
    }
    assert(p2.contains(t.tail)) by {
        if !p1.contains(t.tail) {
            assert(p2[p1.len() as int] == t.tail);
        } else {
            lemma_find_first_extend(p1, p2, t.tail);
        }
    }
    assert(p.is_prefix_of(p2)) by {
        assert(p =~= p2.subrange(0, p.len() as int)) by {
            assert(p =~= p1.subrange(0, p.len() as int));
            assert(p1 =~= p2.subrange(0, p1.len() as int));
            assert forall|i: int| 0 <= i < p.len() implies p[i] == p2[i] by {
                assert(p1.subrange(0, p.len() as int)[i] == p1[i]);
                assert(p2.subrange(0, p1.len() as int)[i] == p2[i]);
            }
        }
    }
}

/// Edge `e`'s two sides add exactly its forward and backward candidate pairs.
proof fn lemma_cand_pairs_step(g: KGV, e: int)
    requires
        0 <= e < g.edges.len(),
    ensures
        cand_pairs_upto(g, e + 1) == cand_pairs_upto(g, e).insert(
            (fwd_key(g.edges[e].label), g.edges[e].dst),
        ).insert((bwd_key(g.edges[e].label), g.edges[e].src)),
{
    let fp = (fwd_key(g.edges[e].label), g.edges[e].dst);
    let bp = (bwd_key(g.edges[e].label), g.edges[e].src);
    assert forall|p: (Seq<char>, usize)|
        cand_pairs_upto(g, e + 1).contains(p) == cand_pairs_upto(g, e).insert(fp).insert(
            bp,
        ).contains(p) by {
        if cand_pairs_upto(g, e + 1).contains(p) {
            let e2 = choose|e2: int| 0 <= e2 < e + 1 && edge_gives_cand(g, e2, p.0, p.1);
            if e2 < e {
                assert(cand_pairs_upto(g, e).contains(p));
            } else {
                if p.0 == fwd_key(g.edges[e].label) && p.1 == g.edges[e].dst {
                    assert(p == fp);
                } else {
                    assert(p == bp);
                }
            }
        }
        if cand_pairs_upto(g, e).insert(fp).insert(bp).contains(p) {
            if cand_pairs_upto(g, e).contains(p) {
                let e2 = choose|e2: int| 0 <= e2 < e && edge_gives_cand(g, e2, p.0, p.1);
                assert(edge_gives_cand(g, e2, p.0, p.1));
                assert(cand_pairs_upto(g, e + 1).contains(p));
            } else if p == fp {
                assert(edge_gives_cand(g, e, p.0, p.1));
                assert(cand_pairs_upto(g, e + 1).contains(p));
            } else {
                assert(p == bp);
                assert(edge_gives_cand(g, e, p.0, p.1));
                assert(cand_pairs_upto(g, e + 1).contains(p));
            }
        }
    }
    assert(cand_pairs_upto(g, e + 1) =~= cand_pairs_upto(g, e).insert(fp).insert(bp));
}

/// Edge `e`'s two sides add exactly its forward and backward reachability
/// pairs.
proof fn lemma_reach_pairs_step(g: KGV, e: int)
    requires
        0 <= e < g.edges.len(),
    ensures
        reach_pairs_upto(g, e + 1) == reach_pairs_upto(g, e).insert(
            (g.edges[e].src, fwd_key(g.edges[e].label), g.edges[e].dst),
        ).insert((g.edges[e].dst, bwd_key(g.edges[e].label), g.edges[e].src)),
{
    let fp = (g.edges[e].src, fwd_key(g.edges[e].label), g.edges[e].dst);
    let bp = (g.edges[e].dst, bwd_key(g.edges[e].label), g.edges[e].src);
    assert forall|p: (usize, Seq<char>, usize)|
        reach_pairs_upto(g, e + 1).contains(p) == reach_pairs_upto(g, e).insert(fp).insert(
            bp,
        ).contains(p) by {
        if reach_pairs_upto(g, e + 1).contains(p) {
            let e2 = choose|e2: int| 0 <= e2 < e + 1 && edge_gives_reach(g, e2, p.0, p.1, p.2);
            if e2 < e {
                assert(reach_pairs_upto(g, e).contains(p));
            } else {
                if p.1 == fwd_key(g.edges[e].label) && p.0 == g.edges[e].src && p.2 == g.edges[
                    e
                ].dst {
                    assert(p == fp);
                } else {
                    assert(p == bp);
                }
            }
        }
        if reach_pairs_upto(g, e).insert(fp).insert(bp).contains(p) {
            if reach_pairs_upto(g, e).contains(p) {
                let e2 = choose|e2: int| 0 <= e2 < e && edge_gives_reach(g, e2, p.0, p.1, p.2);
                assert(edge_gives_reach(g, e2, p.0, p.1, p.2));
                assert(reach_pairs_upto(g, e + 1).contains(p));
            } else if p == fp {
                assert(edge_gives_reach(g, e, p.0, p.1, p.2));
                assert(reach_pairs_upto(g, e + 1).contains(p));
            } else {
                assert(p == bp);
                assert(edge_gives_reach(g, e, p.0, p.1, p.2));
                assert(reach_pairs_upto(g, e + 1).contains(p));
            }
        }
    }
    assert(reach_pairs_upto(g, e + 1) =~= reach_pairs_upto(g, e).insert(fp).insert(bp));
}


/// One adjacency list after an optional push of the next edge id: strict
/// growth is kept, and membership extends by exactly that id when pushed.
proof fn lemma_adj_update(oldl: Seq<usize>, newl: Seq<usize>, m: usize, own: spec_fn(usize) -> bool, own_new: bool)
    requires
        strictly_increasing(oldl),
        forall|e: usize| #[trigger] oldl.contains(e) <==> e < m && own(e),
        newl == if own_new {
            oldl.push(m)
        } else {
            oldl
        },
    ensures
        strictly_increasing(newl),
        forall|e: usize| #[trigger] newl.contains(e) <==> e < m + 1 && (if e == m {
            own_new
        } else {
            own(e)
        }),
{
    if own_new {
        lemma_strictly_increasing_push(oldl, m);
        assert forall|e: usize| #[trigger] newl.contains(e) <==> e < m + 1 && (if e == m {
            own_new
        } else {
            own(e)
        }) by {
            lemma_push_contains(oldl, m, e);
        }
    }
}

impl KG {
    /// Build the graph index from an ordered triple sequence: nodes are
    /// assigned ids in first-seen order (head before tail within a triple),
    /// each triple appends one edge registered in its head's outgoing and its
    /// tail's incoming list, and a final pass over the edges fills the two
    /// derived indices.
    #[verifier::rlimit(50)]
    pub fn from_triples(triples: Triples) -> (r: KG)
        ensures
            built_from(r@, triples.deep_view()),
            wf_graph(r@),
    {
        let ghost ts = triples.deep_view();
        let mut nodes: Vec<Node> = Vec::new();
        let mut edges: Vec<Edge> = Vec::new();
        let n = triples.len();
        proof {
            assert(ts.len() == n);
            assert(ts.take(0) =~= Seq::<TripleV>::empty());
        }
        let mut idx: usize = 0;
        while idx < n
            invariant
                idx <= n,
                n == triples@.len(),
                ts == triples.deep_view(),
                ts.len() == n,
                nodes@.len() == spec_labels(ts.take(idx as int)).len(),
                forall|i: int|
                    0 <= i < nodes@.len() ==> (#[trigger] nodes@[i])@.label == spec_labels(
                        ts.take(idx as int),
                    )[i],
                forall|i: int, j: int|
                    0 <= i < j < nodes@.len() ==> (#[trigger] nodes@[i])@.label != (
                    #[trigger] nodes@[j])@.label,
                edges@.len() == idx,
                forall|j: int|
                    0 <= j < edges@.len() ==> (#[trigger] edges@[j])@ == edge_at(
                        spec_labels(ts.take(idx as int)),
                        ts[j],
                    ),
                forall|j: int|
                    0 <= j < edges@.len() ==> spec_labels(ts.take(idx as int)).contains(
                        (#[trigger] ts[j]).head,
                    ) && spec_labels(ts.take(idx as int)).contains(ts[j].tail),
                forall|j: int|
                    0 <= j < edges@.len() ==> (#[trigger] edges@[j])@.src < nodes@.len() && edges@[
                        j
                    ]@.dst < nodes@.len(),
                forall|n2: usize| n2 < nodes@.len() ==> #[trigger] adj_ok(gv_of(nodes@, edges@), n2),
                forall|n2: usize|
                    n2 < nodes@.len() ==> #[trigger] incident_count(gv_of(nodes@, edges@), n2) >= 1,
            decreases n - idx,
        {
            let ghost lv0 = spec_labels(ts.take(idx as int));
            let ghost ns0 = nodes@;
            let ghost es0 = edges@;
            let tri = &triples[idx];
            let ghost t = ts[idx as int];
            proof {
                assert(t == triples@[idx as int]@);
                lemma_has_label_bridge(ns0, lv0, t.head);
            }
            let head_id = intern_node(&mut nodes, &tri.head);
            let ghost ns1 = nodes@;
            let ghost lvh = if lv0.contains(t.head) {
                lv0
            } else {
                lv0.push(t.head)
            };
            proof {
                assert(ns1.len() == lvh.len());
                assert forall|i: int| 0 <= i < ns1.len() implies (#[trigger] ns1[i])@.label == lvh[i] by {
                    if !lv0.contains(t.head) && i == ns0.len() {
                        assert(ns1[i]@.label == t.head);
                    }
                }
                assert forall|i: int| 0 <= i < head_id implies lvh[i] != t.head by {
                    assert(ns1[i]@.label != t.head);
                }
                lemma_find_first_is(lvh, t.head, head_id as int);
            }
            let eid = edges.len();
            register_fwd(&mut nodes, head_id, eid);
            let ghost ns2 = nodes@;
            proof {
                assert forall|i: int| 0 <= i < ns2.len() implies (#[trigger] ns2[i])@.label == lvh[i] by {}
                lemma_has_label_bridge(ns2, lvh, t.tail);
            }
            let tail_id = intern_node(&mut nodes, &tri.tail);
            let ghost ns3 = nodes@;
            let ghost lv1 = step_labels(lv0, t);
            proof {
                assert(lv1 == if lvh.contains(t.tail) {
                    lvh
                } else {
                    lvh.push(t.tail)
                });
                assert(ns3.len() == lv1.len());
                assert forall|i: int| 0 <= i < ns3.len() implies (#[trigger] ns3[i])@.label == lv1[i] by {
                    if !lvh.contains(t.tail) && i == ns2.len() {
                        assert(ns3[i]@.label == t.tail);
                    }
                }
                assert forall|i: int| 0 <= i < tail_id implies lv1[i] != t.tail by {
                    assert(ns3[i]@.label != t.tail);
                }
                lemma_find_first_is(lv1, t.tail, tail_id as int);
            }
            register_rev(&mut nodes, tail_id, eid);
            let ghost ns4 = nodes@;
            edges.push(Edge { src: head_id, dst: tail_id, label: tri.relation.clone() });
            proof {
                let es1 = edges@;
                let gv0 = gv_of(ns0, es0);
                let gv1 = gv_of(ns4, es1);
                lemma_spec_labels_step(ts, idx as int);
                assert(spec_labels(ts.take(idx as int + 1)) == lv1);
                lemma_step_labels_prefix(lv0, t);
                assert(lv0.is_prefix_of(lv1));
                assert(lvh.is_prefix_of(lv1)) by {
                    if lvh.contains(t.tail) {
                        assert(lvh =~= lv1.subrange(0, lvh.len() as int));
                    } else {
                        assert(lvh =~= lvh.push(t.tail).subrange(0, lvh.len() as int));
                    }
                }
                // labels stay aligned after the rev registration
                assert(ns4.len() == lv1.len());
                assert forall|i: int| 0 <= i < ns4.len() implies (#[trigger] ns4[i])@.label == lv1[i] by {}
                // label uniqueness
                assert forall|i: int, j: int| 0 <= i < j < ns4.len() implies (
                #[trigger] ns4[i])@.label != (#[trigger] ns4[j])@.label by {
                    assert(lv1[i] == ns4[i]@.label && lv1[j] == ns4[j]@.label);
                    if j < ns0.len() {
                        assert(ns0[i]@.label != ns0[j]@.label);
                    } else if j == ns0.len() && !lv0.contains(t.head) {
                        // the head label was new
                        assert(lv1[j] == t.head);
                        assert(lv0[i] == lv1[i]);
                        if lv1[i] == t.head {
                            assert(lv0.contains(lv0[i]));
                        }
                    } else {
                        // the tail label was new
                        assert(lv1[j] == t.tail);
                        assert(lvh[i] == lv1[i]) by {
                            assert(lvh =~= lv1.subrange(0, lvh.len() as int));
                        }
                        if lv1[i] == t.tail {
                            assert(lvh.contains(lvh[i]));
                        }
                    }
                }
                // the new edge and the old ones, seen from the view
                assert(es1[eid as int]@ == (EdgeV { src: head_id, dst: tail_id, label: t.relation }));
                assert(head_id == find_first(lv1, t.head) as usize) by {
                    lemma_find_first_extend(lvh, lv1, t.head);
                }
                assert(tail_id == find_first(lv1, t.tail) as usize);
                assert forall|j: int| 0 <= j < es1.len() implies (#[trigger] es1[j])@ == edge_at(
                    lv1,
                    ts[j],
                ) by {
                    if j < idx {
                        assert(es1[j] == es0[j]);
                        assert(es0[j]@ == edge_at(lv0, ts[j]));
                        lemma_find_first_extend(lv0, lv1, ts[j].head);
                        lemma_find_first_extend(lv0, lv1, ts[j].tail);
                    }
                }
                assert forall|j: int| 0 <= j < es1.len() implies spec_labels(
                    ts.take(idx as int + 1),
                ).contains((#[trigger] ts[j]).head) && spec_labels(ts.take(idx as int + 1)).contains(
                    ts[j].tail,
                ) by {
                    if j < idx {
                        lemma_find_first_extend(lv0, lv1, ts[j].head);
                        lemma_find_first_extend(lv0, lv1, ts[j].tail);
                    }
                }
                // endpoint bounds
                assert forall|j: int| 0 <= j < es1.len() implies (#[trigger] es1[j])@.src
                    < ns4.len() && es1[j]@.dst < ns4.len() by {
                    if j < idx {
                        assert(es1[j] == es0[j]);
                        assert(es0[j]@.src < ns0.len() && es0[j]@.dst < ns0.len());
                    }
                }
                // adjacency
                let bf = |n2: usize|
                    if n2 < ns0.len() {
                        ns0[n2 as int]@.fwd
                    } else {
                        Seq::<usize>::empty()
                    };
                let br = |n2: usize|
                    if n2 < ns0.len() {
                        ns0[n2 as int]@.rev
                    } else {
                        Seq::<usize>::empty()
                    };
                assert forall|n2: usize|
                    #![trigger adj_ok(gv1, n2)]
                    #![trigger incident_count(gv1, n2)]
                    n2 < ns4.len() implies adj_ok(gv1, n2) && incident_count(gv1, n2) >= 1 by {
                    assert(gv1.nodes[n2 as int] == ns4[n2 as int]@);
                    // base characterisations over the old edges
                    if n2 < ns0.len() {
                        assert(adj_ok(gv0, n2));
                        assert(gv0.nodes[n2 as int] == ns0[n2 as int]@);
                    }
                    assert(strictly_increasing(bf(n2)) && strictly_increasing(br(n2)));
                    assert forall|e: usize| #[trigger] bf(n2).contains(e) <==> e < eid && es0[
                        e as int
                    ]@.src == n2 by {
                        if n2 < ns0.len() {
                            assert(gv0.nodes[n2 as int].fwd.contains(e) <==> e < gv0.edges.len()
                                && gv0.edges[e as int].src == n2);
                            if e < eid {
                                assert(gv0.edges[e as int] == es0[e as int]@);
                            }
                        } else {
                            if e < eid {
                                assert(es0[e as int]@.src < ns0.len());
                            }
                        }
                    }
                    assert forall|e: usize| #[trigger] br(n2).contains(e) <==> e < eid && es0[
                        e as int
                    ]@.dst == n2 by {
                        if n2 < ns0.len() {
                            assert(gv0.nodes[n2 as int].rev.contains(e) <==> e < gv0.edges.len()
                                && gv0.edges[e as int].dst == n2);
                            if e < eid {
                                assert(gv0.edges[e as int] == es0[e as int]@);
                            }
                        } else {
                            if e < eid {
                                assert(es0[e as int]@.dst < ns0.len());
                            }
                        }
                    }
                    // the new lists in terms of the bases
                    assert(ns4[n2 as int]@.fwd == if n2 == head_id {
                        bf(n2).push(eid)
                    } else {
                        bf(n2)
                    }) by {
                        if n2 == head_id {
                            assert(ns1[n2 as int]@.fwd == bf(n2));
                            assert(ns2[n2 as int]@.fwd == bf(n2).push(eid));
                        } else if n2 < ns2.len() {
                            assert(ns2[n2 as int]@.fwd == bf(n2));
                        } else {
                            assert(ns3[n2 as int]@.fwd =~= Seq::<usize>::empty());
                        }
                    }
                    assert(ns4[n2 as int]@.rev == if n2 == tail_id {
                        br(n2).push(eid)
                    } else {
                        br(n2)
                    }) by {
                        if n2 == tail_id {
                            assert(ns3[n2 as int]@.rev == br(n2));
                        } else if n2 < ns2.len() {
                            assert(ns3[n2 as int]@.rev == br(n2));
                        } else {
                            assert(ns3[n2 as int]@.rev =~= Seq::<usize>::empty());
                        }
                    }
                    // apply the generic list-update lemma
                    let ownf = |e: usize| es0[e as int]@.src == n2;
                    let ownr = |e: usize| es0[e as int]@.dst == n2;
                    lemma_adj_update(bf(n2), ns4[n2 as int]@.fwd, eid, ownf, n2 == head_id);
                    lemma_adj_update(br(n2), ns4[n2 as int]@.rev, eid, ownr, n2 == tail_id);
                    assert forall|e: usize| #[trigger]
                        gv1.nodes[n2 as int].fwd.contains(e) <==> e < gv1.edges.len() && gv1.edges[
                        e as int
                    ].src == n2 by {
                        if e < eid {
                            assert(gv1.edges[e as int] == es0[e as int]@);
                        } else if e == eid {
                            assert(gv1.edges[e as int] == es1[e as int]@);
                        }
                    }
                    assert forall|e: usize| #[trigger]
                        gv1.nodes[n2 as int].rev.contains(e) <==> e < gv1.edges.len() && gv1.edges[
                        e as int
                    ].dst == n2 by {
                        if e < eid {
                            assert(gv1.edges[e as int] == es0[e as int]@);
                        } else if e == eid {
                            assert(gv1.edges[e as int] == es1[e as int]@);
                        }
                    }
                    // at least one incident edge
                    if n2 == head_id {
                        assert(ns4[n2 as int]@.fwd.len() >= 1);
                    } else if n2 == tail_id {
                        assert(ns4[n2 as int]@.rev.len() >= 1);
                    } else {
                        assert(incident_count(gv0, n2) >= 1);
                        assert(gv0.nodes[n2 as int] == ns0[n2 as int]@);
                    }
                }
            }
            idx += 1;
        }
        proof {
            assert(ts.take(n as int) =~= ts);
        }
        let ghost lv = spec_labels(ts);
        let ghost gv = gv_of(nodes@, edges@);
        proof {
            assert forall|j: int| 0 <= j < gv.edges.len() implies gv.edges[j] == spec_edges(ts)[j] by {
                assert(gv.edges[j] == edges@[j]@);
                assert(edges@[j]@ == edge_at(lv, ts[j]));
            }
            assert(gv.edges =~= spec_edges(ts));
        }
        let m = edges.len();
        let mut candidates: Vec<(String, Vec<usize>)> = Vec::new();
        let mut hr2t: Vec<(usize, String, Vec<usize>)> = Vec::new();
        proof {
            assert(cands_content(candidates@) =~= cand_pairs_upto(gv, 0)) by {
                assert forall|p: (Seq<char>, usize)| !cands_content(candidates@).contains(p) by {
                    if cands_content(candidates@).contains(p) {
                        let i = choose|i: int|
                            0 <= i < candidates@.len() && #[trigger] centry_has(
                                candidates@,
                                i,
                                p.0,
                                p.1,
                            );
                    }
                }
                assert forall|p: (Seq<char>, usize)| !cand_pairs_upto(gv, 0).contains(p) by {
                    if cand_pairs_upto(gv, 0).contains(p) {
                        let e = choose|e: int| 0 <= e < 0 && edge_gives_cand(gv, e, p.0, p.1);
                    }
                }
            }
            assert(reach_content(hr2t@) =~= reach_pairs_upto(gv, 0)) by {
                assert forall|p: (usize, Seq<char>, usize)| !reach_content(hr2t@).contains(p) by {
                    if reach_content(hr2t@).contains(p) {
                        let i = choose|i: int|
                            0 <= i < hr2t@.len() && #[trigger] rentry_has(hr2t@, i, p.0, p.1, p.2);
                    }
                }
                assert forall|p: (usize, Seq<char>, usize)| !reach_pairs_upto(gv, 0).contains(
                    p,
                ) by {
                    if reach_pairs_upto(gv, 0).contains(p) {
                        let e = choose|e: int| 0 <= e < 0 && edge_gives_reach(gv, e, p.0, p.1, p.2);
                    }
                }
            }
        }
        let mut e: usize = 0;
        while e < m
            invariant
                e <= m,
                m == edges@.len(),
                gv == gv_of(nodes@, edges@),
                gv.edges.len() == m,
                cand_keys_unique(candidates@),
                cands_nodup(candidates@),
                cands_content(candidates@) == cand_pairs_upto(gv, e as int),
                reach_keys_unique(hr2t@),
                reach_nodup(hr2t@),
                reach_content(hr2t@) == reach_pairs_upto(gv, e as int),
            decreases m - e,
        {
            let ed_src = edges[e].src;
            let ed_dst = edges[e].dst;
            let fk = edges[e].label.clone().concat("::-->");
            proof {
                assert(gv.edges[e as int] == edges@[e as int]@);
                assert(fk@ == fwd_key(gv.edges[e as int].label));
                assert(ed_src == gv.edges[e as int].src && ed_dst == gv.edges[e as int].dst);
            }
            upsert_cand(&mut candidates, fk.clone(), ed_dst);
            upsert_reach(&mut hr2t, ed_src, fk, ed_dst);
            let bk = edges[e].label.clone().concat("::<--");
            proof {
                assert(bk@ == bwd_key(gv.edges[e as int].label));
            }
            upsert_cand(&mut candidates, bk.clone(), ed_src);
            upsert_reach(&mut hr2t, ed_dst, bk, ed_src);
            proof {
                lemma_cand_pairs_step(gv, e as int);
                lemma_reach_pairs_step(gv, e as int);
            }
            e += 1;
        }
        proof {
            assert(cands_content(candidates@) == cand_pairs(gv));
            assert(reach_content(hr2t@) == reach_pairs(gv));
            // well-formedness of the finished structure
            assert forall|i: int, j: int| 0 <= i < j < gv.nodes.len() implies (
            #[trigger] gv.nodes[i]).label != (#[trigger] gv.nodes[j]).label by {
                assert(gv.nodes[i] == nodes@[i]@ && gv.nodes[j] == nodes@[j]@);
            }
            assert forall|j: int| 0 <= j < gv.edges.len() implies (#[trigger] gv.edges[j]).src
                < gv.nodes.len() && gv.edges[j].dst < gv.nodes.len() by {
                assert(gv.edges[j] == edges@[j]@);
            }
            assert(wf_graph(gv));
            assert forall|i: int| 0 <= i < gv.nodes.len() implies (#[trigger] gv.nodes[i]).label
                == spec_labels(ts)[i] by {
                assert(gv.nodes[i] == nodes@[i]@);
            }
            assert(gv.nodes.len() <= usize::MAX) by {
                assert(spec_vec_len(&nodes) == nodes@.len());
            }
            assert(built_from(gv, ts));
        }
        let r = KG { nodes, edges, candidates, hr2t };
        proof {
            assert(r@ == gv);
        }
        r
    }
}


// ---------------------------------------------------------------------------
// Lookups
// ---------------------------------------------------------------------------

fn find_index(v: &Vec<usize>, x: usize) -> (r: Option<usize>)
    ensures
        match r {
            Some(i) => i < v@.len() && v@[i as int] == x && (forall|j: int|
                0 <= j < i ==> v@[j] != x),
            None => !v@.contains(x),
        },
{
    let n = v.len();
    let mut j: usize = 0;
    while j < n
        invariant
            j <= n,
            n == v@.len(),
            forall|i: int| 0 <= i < j ==> v@[i] != x,
        decreases n - j,
    {
        if v[j] == x {
            return Some(j);
        }
        j += 1;
    }
    proof {
        if v@.contains(x) {
            let i = choose|i: int| 0 <= i < v@.len() && v@[i] == x;
        }
    }
    None
}

impl KG {
    /// The id list stored under directed relation `key`, holding exactly
    /// `cand_set` of that key; no entry exists exactly when that set is empty.
    fn lookup_cand(&self, key: &String) -> (r: Option<&Vec<usize>>)
        ensures
            match r {
                Some(v) => forall|t: usize|
                    #[trigger] v@.contains(t) <==> cand_set(self@, key@).contains(t),
                None => forall|t: usize| !cand_set(self@, key@).contains(t),
            },
    {
        proof {
            use_type_invariant(&*self);
        }
        let found = find_cand(&self.candidates, key);
        match found {
            Some(i) => {
                let v = &self.candidates[i].1;
                proof {
                    let c = self.candidates@;
                    let ii = i as int;
                    assert forall|t: usize|
                        #[trigger] v@.contains(t) <==> cand_set(self@, key@).contains(t) by {
                        if v@.contains(t) {
                            assert(centry_has(c, ii, key@, t));
                            assert(centry_has(c, ii, ((key@, t)).0, ((key@, t)).1));
                            assert(cands_content(c).contains((key@, t)));
                            assert(cand_pairs(self@).contains((key@, t)));
                        }
                        if cand_set(self@, key@).contains(t) {
                            assert(cand_pairs(self@).contains((key@, t)));
                            assert(cands_content(c).contains((key@, t)));
                            let j = choose|j: int|
                                0 <= j < c.len() && #[trigger] centry_has(c, j, key@, t);
                            if j != ii {
                                assert(ckey(c, j) == ckey(c, ii));
                                if j < ii {
                                    assert(ckey(c, j) != ckey(c, ii));
                                } else {
                                    assert(ckey(c, ii) != ckey(c, j));
                                }
                            }
                            assert(cids(c, ii).contains(t));
                        }
                    }
                }
                Some(v)
            },
            None => {
                proof {
                    let c = self.candidates@;
                    assert forall|t: usize| !cand_set(self@, key@).contains(t) by {
                        if cand_set(self@, key@).contains(t) {
                            assert(cand_pairs(self@).contains((key@, t)));
                            assert(cands_content(c).contains((key@, t)));
                            let j = choose|j: int|
                                0 <= j < c.len() && #[trigger] centry_has(c, j, key@, t);
                            assert(ckey(c, j) == key@);
                        }
                    }
                }
                None
            },
        }
    }

    /// The id list stored under (head `h`, directed relation `key`), holding
    /// exactly `reach_set` of that pair.
    fn lookup_reach(&self, h: usize, key: &String) -> (r: Option<&Vec<usize>>)
        ensures
            match r {
                Some(v) => forall|t: usize|
                    #[trigger] v@.contains(t) <==> reach_set(self@, h, key@).contains(t),
                None => forall|t: usize| !reach_set(self@, h, key@).contains(t),
            },
    {
        proof {
            use_type_invariant(&*self);
        }
        let found = find_reach(&self.hr2t, h, key);
        match found {
            Some(i) => {
                let v = &self.hr2t[i].2;
                proof {
                    let c = self.hr2t@;
                    let ii = i as int;
                    assert forall|t: usize|
                        #[trigger] v@.contains(t) <==> reach_set(self@, h, key@).contains(t) by {
                        if v@.contains(t) {
                            assert(rentry_has(c, ii, h, key@, t));
                            assert(rentry_has(c, ii, ((h, key@, t)).0, ((h, key@, t)).1, ((h, key@, t)).2));
                            assert(reach_content(c).contains((h, key@, t)));
                            assert(reach_pairs(self@).contains((h, key@, t)));
                        }
                        if reach_set(self@, h, key@).contains(t) {
                            assert(reach_pairs(self@).contains((h, key@, t)));
                            assert(reach_content(c).contains((h, key@, t)));
                            let j = choose|j: int|
                                0 <= j < c.len() && #[trigger] rentry_has(c, j, h, key@, t);
                            if j != ii {
                                if j < ii {
                                    assert(!(rhead(c, j) == rhead(c, ii) && rkey(c, j) == rkey(
                                        c,
                                        ii,
                                    )));
                                } else {
                                    assert(!(rhead(c, ii) == rhead(c, j) && rkey(c, ii) == rkey(
                                        c,
                                        j,
                                    )));
                                }
                            }
                            assert(rids(c, ii).contains(t));
                        }
                    }
                }
                Some(v)
            },
            None => {
                proof {
                    let c = self.hr2t@;
                    assert forall|t: usize| !reach_set(self@, h, key@).contains(t) by {
                        if reach_set(self@, h, key@).contains(t) {
                            assert(reach_pairs(self@).contains((h, key@, t)));
                            assert(reach_content(c).contains((h, key@, t)));
                            let j = choose|j: int|
                                0 <= j < c.len() && #[trigger] rentry_has(c, j, h, key@, t);
                            assert(rhead(c, j) == h && rkey(c, j) == key@);
                        }
                    }
                }
                None
            },
        }
    }

    /// The id assigned to `label`, if any node carries it.
    pub fn lookup_node_id(&self, label: &String) -> (r: Option<usize>)
        ensures
            match r {
                Some(i) => i < self@.nodes.len() && self@.nodes[i as int].label == label@ && i
                    == id_of(self@, label@),
                None => !has_label(self@, label@),
            },
    {
        proof {
            use_type_invariant(&*self);
        }
        let found = find_node(&self.nodes, label);
        match found {
            Some(j) => {
                proof {
                    assert(self@.nodes[j as int] == self.nodes@[j as int]@);
                    assert(self@.nodes[j as int].label == label@);
                    let w = id_of(self@, label@);
                    assert(w < self@.nodes.len() && self@.nodes[w as int].label == label@) by {
                        assert(j < self@.nodes.len() && self@.nodes[j as int].label == label@);
                    }
                    if w != j {
                        if (w as int) < (j as int) {
                            assert(self@.nodes[w as int].label != self@.nodes[j as int].label);
                        } else {
                            assert(self@.nodes[j as int].label != self@.nodes[w as int].label);
                        }
                    }
                }
                Some(j)
            },
            None => {
                proof {
                    if has_label(self@, label@) {
                        let i = choose|i: int|
                            0 <= i < self@.nodes.len() && (#[trigger] self@.nodes[i]).label
                                == label@;
                        assert(self.nodes@[i]@.label == label@);
                    }
                }
                None
            },
        }
    }
}


// ---------------------------------------------------------------------------
// The walk sampler
// ---------------------------------------------------------------------------

impl KG {
    /// Pick a start node uniformly among all nodes.
    fn select_node(&self, rng: &mut rand::rngs::StdRng) -> (r: usize)
        requires
            self@.nodes.len() > 0,
        ensures
            r < self@.nodes.len(),
    {
        proof {
            assert(self@.nodes.len() == self.nodes@.len());
        }
        rand_below(rng, self.nodes.len())
    }

    /// Pick an edge incident to `from` uniformly, avoiding the previous edge:
    /// it is dropped from the candidates unless it is the only one. The flag
    /// says whether the edge was taken forward (leaving `from`) or backward
    /// (entering it). A previous edge that loops on `from` sits on both sides
    /// of the candidate list, and only one copy is dropped.
    pub fn select_edge(&self, from: usize, prev_edge: Option<usize>, rng: &mut rand::rngs::StdRng) -> (r: (usize, bool))
        requires
            from < self@.nodes.len(),
        ensures
            ({
                let g = self@;
                let e = r.0 as int;
                &&& r.0 < g.edges.len()
                &&& (r.1 ==> g.edges[e].src == from)
                &&& (!r.1 ==> g.edges[e].dst == from)
                &&& (match prev_edge {
                    Some(p) => incident_count(g, from) > 1 && !(g.edges[p as int].src == from
                        && g.edges[p as int].dst == from) ==> r.0 != p,
                    None => true,
                })
            }),
    {
        proof {
            use_type_invariant(&*self);
            assert(adj_ok(self@, from));
            assert(self@.nodes[from as int] == self.nodes@[from as int]@);
            assert(incident_count(self@, from) >= 1);
        }
        let ghost g = self@;
        let node = &self.nodes[from];
        let ghost fwd = node@.fwd;
        let ghost rev = node@.rev;
        let mut cands: Vec<usize> = Vec::new();
        let nf = node.edges_fwd.len();
        let mut i: usize = 0;
        while i < nf
            invariant
                i <= nf,
                nf == fwd.len(),
                node@.fwd == fwd,
                cands@ =~= fwd.take(i as int),
            decreases nf - i,
        {
            cands.push(node.edges_fwd[i]);
            i += 1;
        }
        proof {
            assert(cands@ =~= fwd);
        }
        let nr = node.edges_rev.len();
        let mut j: usize = 0;
        while j < nr
            invariant
                j <= nr,
                nr == rev.len(),
                node@.rev == rev,
                cands@ =~= fwd + rev.take(j as int),
            decreases nr - j,
        {
            cands.push(node.edges_rev[j]);
            proof {
                assert(cands@ =~= fwd + rev.take(j as int + 1)) by {
                    assert((fwd + rev.take(j as int)).push(rev[j as int]) =~= fwd + rev.take(
                        j as int + 1,
                    ));
                }
            }
            j += 1;
        }
        let mut boundary = nf;
        proof {
            assert(cands@ =~= fwd + rev);
            assert(cands@.len() == incident_count(g, from));
            // both sides of the partition are incident to `from`
            assert forall|q: int| 0 <= q < cands@.len() implies {
                &&& cands@[q] < g.edges.len()
                &&& (q < fwd.len() ==> g.edges[cands@[q] as int].src == from)
                &&& (q >= fwd.len() ==> g.edges[cands@[q] as int].dst == from)
            } by {
                if q < fwd.len() {
                    assert(cands@[q] == fwd[q]);
                    assert(fwd.contains(fwd[q]));
                } else {
                    assert(cands@[q] == rev[q - fwd.len()]);
                    assert(rev.contains(rev[q - fwd.len()]));
                }
            }
        }
        if let Some(p) = prev_edge {
            if cands.len() > 1 {
                let found = find_index(&cands, p);
                if let Some(ipos) = found {
                    proof {
                        // `p` occurs nowhere else, unless it loops on `from`
                        if !(g.edges[p as int].src == from && g.edges[p as int].dst == from) {
                            assert forall|q: int|
                                0 <= q < cands@.len() && q != ipos implies cands@[q] != p by {
                                if cands@[q] == p {
                                    let ip = ipos as int;
                                    if q < fwd.len() && ip < fwd.len() {
                                        assert(fwd[q] != fwd[ip]);
                                    } else if q >= fwd.len() && ip >= fwd.len() {
                                        assert(rev[q - fwd.len()] != rev[ip - fwd.len()]);
                                    } else {
                                        // one forward, one backward: a loop on `from`
                                        assert(g.edges[p as int].src == from && g.edges[
                                            p as int
                                        ].dst == from);
                                    }
                                }
                            }
                        }
                    }
                    cands.remove(ipos);
                    if ipos < boundary {
                        boundary -= 1;
                    }
                    proof {
                        assert(cands@.len() >= 1);
                    }
                }
            }
        }
        let pick = rand_below(rng, cands.len());
        let eid = cands[pick];
        (eid, pick < boundary)
    }
}


impl KG {
    /// Draw a random walk of `path_len` steps: a start node picked uniformly,
    /// then per step an incident edge picked under the backtrack-avoidance
    /// rule. The result has exactly `2 * path_len + 1` tokens, alternating
    /// node labels with relation labels carrying the direction suffix; on a
    /// graph without nodes the call fails instead.
    pub fn sample_path(
        &self,
        path_len: usize,
        rng: &mut rand::rngs::StdRng,
        redge_suffix: &str,
        ledge_suffix: &str,
    ) -> (r: Result<Vec<String>, SampleError>)
        ensures
            r is Ok <==> self@.nodes.len() > 0,
            r matches Ok(p) ==> p@.len() == 2 * path_len + 1 && walk_ok(
                self@,
                p.deep_view(),
                redge_suffix@,
                ledge_suffix@,
            ),
    {
        proof {
            use_type_invariant(&*self);
            assert(self@.nodes.len() == self.nodes@.len());
        }
        let ghost g = self@;
        let ghost fs = redge_suffix@;
        let ghost bs = ledge_suffix@;
        if self.nodes.len() == 0 {
            return Err(SampleError::EmptyGraph);
        }
        let mut path: Vec<String> = Vec::new();
        let mut cur = self.select_node(rng);
        let mut prev_edge: Option<usize> = None;
        path.push(self.nodes[cur].label.clone());
        proof {
            assert(g.nodes[cur as int] == self.nodes@[cur as int]@);
            assert(path.deep_view() =~= seq![g.nodes[cur as int].label]);
            assert(has_label(g, path.deep_view()[0]));
        }
        let mut step: usize = 0;
        while step < path_len
            invariant
                step <= path_len,
                g == self@,
                fs == redge_suffix@,
                bs == ledge_suffix@,
                cur < g.nodes.len(),
                path@.len() == 2 * step + 1,
                path.deep_view().len() == path@.len(),
                has_label(g, path.deep_view()[0]),
                path.deep_view().last() == g.nodes[cur as int].label,
                forall|i: int|
                    0 <= i && 2 * i + 2 < path@.len() ==> #[trigger] step_at(
                        g,
                        path.deep_view(),
                        i,
                        fs,
                        bs,
                    ),
            decreases path_len - step,
        {
            proof {
                use_type_invariant(&*self);
            }
            let ghost old_toks = path.deep_view();
            let (eid, fwd) = self.select_edge(cur, prev_edge, rng);
            prev_edge = Some(eid);
            proof {
                assert(self@.edges.len() == self.edges@.len());
                assert(g.edges[eid as int] == self.edges@[eid as int]@);
            }
            let nxt = if fwd {
                self.edges[eid].dst
            } else {
                self.edges[eid].src
            };
            let rel = self.edges[eid].label.clone().concat(
                if fwd {
                    redge_suffix
                } else {
                    ledge_suffix
                },
            );
            path.push(rel);
            path.push(self.nodes[nxt].label.clone());
            proof {
                assert(nxt < g.nodes.len());
                assert(g.nodes[nxt as int] == self.nodes@[nxt as int]@);
                let toks = path.deep_view();
                assert(toks =~= old_toks.push(rel@).push(g.nodes[nxt as int].label));
                assert(toks[2 * step as int] == old_toks.last());
                assert(step_at(g, toks, step as int, fs, bs)) by {
                    let e = eid as int;
                    assert(0 <= e < g.edges.len());
                    if fwd {
                        assert(toks[2 * step as int + 1] == g.edges[e].label + fs);
                        assert(toks[2 * step as int] == g.nodes[g.edges[e].src as int].label);
                        assert(toks[2 * step as int + 2] == g.nodes[g.edges[e].dst as int].label);
                    } else {
                        assert(toks[2 * step as int + 1] == g.edges[e].label + bs);
                        assert(toks[2 * step as int] == g.nodes[g.edges[e].dst as int].label);
                        assert(toks[2 * step as int + 2] == g.nodes[g.edges[e].src as int].label);
                    }
                }
                assert forall|i: int| 0 <= i && 2 * i + 2 < path@.len() implies #[trigger] step_at(
                    g,
                    toks,
                    i,
                    fs,
                    bs,
                ) by {
                    if i < step {
                        assert(step_at(g, old_toks, i, fs, bs));
                        assert(toks[2 * i] == old_toks[2 * i]);
                        assert(toks[2 * i + 1] == old_toks[2 * i + 1]);
                        assert(toks[2 * i + 2] == old_toks[2 * i + 2]);
                    }
                }
            }
            cur = nxt;
            step += 1;
        }
        proof {
            assert(path@.len() == 2 * path_len + 1);
            assert((2 * path_len as int + 1) % 2 == 1);
            assert(has_label(g, path.deep_view().last()));
            assert(walk_ok(g, path.deep_view(), fs, bs));
        }
        Ok(path)
    }
}


// ---------------------------------------------------------------------------
// The negative samplers
// ---------------------------------------------------------------------------

/// A candidate target is always a node of the graph.
proof fn lemma_cand_in_range(g: KGV, k: Seq<char>, t: usize)
    requires
        wf_graph(g),
        cand_set(g, k).contains(t),
    ensures
        t < g.nodes.len(),
{
    assert(cand_pairs(g).contains((k, t)));
    let e = choose|e: int| 0 <= e < g.edges.len() && edge_gives_cand(g, e, ((k, t)).0, ((k, t)).1);
    assert(g.edges[e].src < g.nodes.len() && g.edges[e].dst < g.nodes.len());
}

impl KG {
    /// Uniform negative policy: pick a node id other than the path's true
    /// tail, uniformly and without rejection looping — draw one short and
    /// shift indices at or above the tail's id up by one.
    pub fn sample_negative_tail_uniformly(&self, path: &Vec<String>, rng: &mut rand::rngs::StdRng) -> (r: Option<String>)
        requires
            self@.nodes.len() >= 2,
            path@.len() >= 1,
            has_label(self@, path.deep_view().last()),
        ensures
            r is Some,
            r matches Some(l) ==> exists|j: int|
                0 <= j < self@.nodes.len() && j != id_of(self@, path.deep_view().last()) && l@
                    == self@.nodes[j].label,
    {
        proof {
            use_type_invariant(&*self);
            assert(self@.nodes.len() == self.nodes@.len());
        }
        let ghost g = self@;
        let mut i = rand_below(rng, self.nodes.len() - 1);
        let tail_lbl = &path[path.len() - 1];
        proof {
            assert(tail_lbl@ == path.deep_view().last());
        }
        let tail_opt = self.lookup_node_id(tail_lbl);
        proof {
            if tail_opt is None {
                assert(false);
            }
        }
        let tail_i = tail_opt.unwrap();
        if i >= tail_i {
            i += 1;
        }
        proof {
            assert(g.nodes[i as int] == self.nodes@[i as int]@);
            assert(i != id_of(g, path.deep_view().last()));
        }
        Some(self.nodes[i].label.clone())
    }

    /// Near-miss negative policy: prefer a node that is a plausible target of
    /// the path's final directed relation somewhere in the graph but is not
    /// actually reachable from this path's start via it, and is not the true
    /// tail; when no such node exists, fall back to the uniform policy. The
    /// reachability index is one-hop, so this is only exact for single-step
    /// paths.
    pub fn sample_negative_tail_near_miss(&self, path: &Vec<String>, rng: &mut rand::rngs::StdRng) -> (r: Option<String>)
        requires
            self@.nodes.len() >= 2,
            path@.len() >= 2,
            has_label(self@, path.deep_view()[0]),
            has_label(self@, path.deep_view().last()),
            exists|t: usize| #[trigger] cand_set(self@, path.deep_view()[path@.len() - 2]).contains(t),
            exists|t: usize|
                #[trigger] reach_set(
                    self@,
                    id_of(self@, path.deep_view()[0]),
                    path.deep_view()[path@.len() - 2],
                ).contains(t),
        ensures
            r is Some,
            r matches Some(l) ==> ({
                let g = self@;
                let k = path.deep_view()[path@.len() - 2];
                let h = id_of(g, path.deep_view()[0]);
                let ti = id_of(g, path.deep_view().last());
                let d = cand_set(g, k).difference(reach_set(g, h, k)).remove(ti);
                if exists|t: usize| #[trigger] d.contains(t) {
                    exists|j: usize| #[trigger] d.contains(j) && l@ == g.nodes[j as int].label
                } else {
                    exists|j: int| 0 <= j < g.nodes.len() && j != ti && l@ == g.nodes[j].label
                }
            }),
    {
        proof {
            use_type_invariant(&*self);
            assert(self@.nodes.len() == self.nodes@.len());
        }
        let ghost g = self@;
        let ghost k = path.deep_view()[path@.len() - 2];
        let ghost h = id_of(g, path.deep_view()[0]);
        let ghost ti = id_of(g, path.deep_view().last());
        let ghost d = cand_set(g, k).difference(reach_set(g, h, k)).remove(ti);
        let key = &path[path.len() - 2];
        let head_lbl = &path[0];
        let tail_lbl = &path[path.len() - 1];
        proof {
            assert(key@ == k);
            assert(head_lbl@ == path.deep_view()[0]);
            assert(tail_lbl@ == path.deep_view().last());
        }
        let head_opt = self.lookup_node_id(head_lbl);
        let tail_opt = self.lookup_node_id(tail_lbl);
        proof {
            if head_opt is None {
                assert(false);
            }
            if tail_opt is None {
                assert(false);
            }
        }
        let head_i = head_opt.unwrap();
        let tail_i = tail_opt.unwrap();
        let cand_opt = self.lookup_cand(key);
        proof {
            if cand_opt is None {
                let w = choose|t: usize| cand_set(g, k).contains(t);
                assert(false);
            }
        }
        let cand_v = cand_opt.unwrap();
        let reach_opt = self.lookup_reach(head_i, key);
        proof {
            assert(head_i == h);
            if reach_opt is None {
                let w = choose|t: usize| reach_set(g, h, k).contains(t);
                assert(false);
            }
        }
        let reach_v = reach_opt.unwrap();
        let mut negs: Vec<usize> = Vec::new();
        let nc = cand_v.len();
        let mut q: usize = 0;
        while q < nc
            invariant
                q <= nc,
                nc == cand_v@.len(),
                forall|t: usize|
                    #[trigger] negs@.contains(t) ==> cand_v@.contains(t) && !reach_v@.contains(t)
                        && t != tail_i,
                forall|x: int|
                    0 <= x < q ==> ((!reach_v@.contains(#[trigger] cand_v@[x]) && cand_v@[x]
                        != tail_i) ==> negs@.contains(cand_v@[x])),
            decreases nc - q,
        {
            let t = cand_v[q];
            if !vec_contains(reach_v, t) && t != tail_i {
                proof {
                    lemma_push_contains_all(negs@, t);
                }
                negs.push(t);
            }
            proof {
                if negs@.contains(cand_v@[q as int]) {
                }
            }
            q += 1;
        }
        proof {
            assert(ti == tail_i);
        }
        if negs.len() == 0 {
            proof {
                if exists|t: usize| #[trigger] d.contains(t) {
                    let t = choose|t: usize| d.contains(t);
                    assert(cand_v@.contains(t));
                    let x = choose|x: int| 0 <= x < cand_v@.len() && cand_v@[x] == t;
                    assert(negs@.contains(t));
                }
            }
            self.sample_negative_tail_uniformly(path, rng)
        } else {
            let pick = rand_below(rng, negs.len());
            let t = negs[pick];
            proof {
                assert(negs@.contains(t));
                assert(cand_set(g, k).contains(t) && !reach_set(g, h, k).contains(t) && t != ti);
                assert(d.contains(t));
                lemma_cand_in_range(g, k, t);
                assert(g.nodes[t as int] == self.nodes@[t as int]@);
            }
            Some(self.nodes[t].label.clone())
        }
    }

    /// Exact-candidate negative policy: pick among the nodes that are ever a
    /// target of the path's final directed relation anywhere in the graph,
    /// excluding the true tail; when none is left, degrade to a node picked
    /// uniformly from the whole graph (which may equal the tail).
    pub fn sample_negative_tail(&self, path: &Vec<String>, rng: &mut rand::rngs::StdRng) -> (r: Option<String>)
        requires
            self@.nodes.len() >= 1,
            path@.len() >= 2,
            has_label(self@, path.deep_view().last()),
        ensures
            r is Some,
            r matches Some(l) ==> ({
                let g = self@;
                let k = path.deep_view()[path@.len() - 2];
                let ti = id_of(g, path.deep_view().last());
                let s = cand_set(g, k).remove(ti);
                if exists|t: usize| #[trigger] s.contains(t) {
                    exists|j: usize| #[trigger] s.contains(j) && l@ == g.nodes[j as int].label
                } else {
                    exists|j: int| 0 <= j < g.nodes.len() && l@ == g.nodes[j].label
                }
            }),
    {
        proof {
            use_type_invariant(&*self);
            assert(self@.nodes.len() == self.nodes@.len());
        }
        let ghost g = self@;
        let ghost k = path.deep_view()[path@.len() - 2];
        let ghost ti = id_of(g, path.deep_view().last());
        let ghost s = cand_set(g, k).remove(ti);
        let key = &path[path.len() - 2];
        let tail_lbl = &path[path.len() - 1];
        proof {
            assert(key@ == k);
            assert(tail_lbl@ == path.deep_view().last());
        }
        let tail_opt = self.lookup_node_id(tail_lbl);
        proof {
            if tail_opt is None {
                assert(false);
            }
        }
        let tail_i = tail_opt.unwrap();
        let cand_opt = self.lookup_cand(key);
        match cand_opt {
            None => {
                proof {
                    if exists|t: usize| #[trigger] s.contains(t) {
                        let t = choose|t: usize| s.contains(t);
                    }
                }
                let pick = rand_below(rng, self.nodes.len());
                proof {
                    assert(g.nodes[pick as int] == self.nodes@[pick as int]@);
                }
                Some(self.nodes[pick].label.clone())
            },
            Some(cand_v) => {
                let mut negs: Vec<usize> = Vec::new();
                let nc = cand_v.len();
                let mut q: usize = 0;
                while q < nc
                    invariant
                        q <= nc,
                        nc == cand_v@.len(),
                        forall|t: usize|
                            #[trigger] negs@.contains(t) ==> cand_v@.contains(t) && t != tail_i,
                        forall|x: int|
                            0 <= x < q ==> (((#[trigger] cand_v@[x]) != tail_i) ==> negs@.contains(
                                cand_v@[x],
                            )),
                    decreases nc - q,
                {
                    let t = cand_v[q];
                    if t != tail_i {
                        proof {
                            lemma_push_contains_all(negs@, t);
                        }
                        negs.push(t);
                    }
                    q += 1;
                }
                proof {
                    assert(ti == tail_i);
                }
                if negs.len() == 0 {
                    proof {
                        if exists|t: usize| #[trigger] s.contains(t) {
                            let t = choose|t: usize| s.contains(t);
                            assert(cand_v@.contains(t));
                            let x = choose|x: int| 0 <= x < cand_v@.len() && cand_v@[x] == t;
                            assert(negs@.contains(t));
                        }
                    }
                    let pick = rand_below(rng, self.nodes.len());
                    proof {
                        assert(g.nodes[pick as int] == self.nodes@[pick as int]@);
                    }
                    Some(self.nodes[pick].label.clone())
                } else {
                    let pick = rand_below(rng, negs.len());
                    let t = negs[pick];
                    proof {
                        assert(negs@.contains(t));
                        assert(cand_set(g, k).contains(t) && t != ti);
                        assert(s.contains(t));
                        lemma_cand_in_range(g, k, t);
                        assert(g.nodes[t as int] == self.nodes@[t as int]@);
                    }
                    Some(self.nodes[t].label.clone())
                }
            },
        }
    }
}


// ---------------------------------------------------------------------------
// Laws
// ---------------------------------------------------------------------------

/// Idempotent construction: two graphs built from the same triple sequence
/// agree on every node id, label, adjacency list and edge.
pub proof fn lemma_built_from_deterministic(g1: KGV, g2: KGV, ts: Seq<TripleV>)
    requires
        built_from(g1, ts),
        built_from(g2, ts),
    ensures
        g1 == g2,
{
    assert(g1.edges =~= g2.edges);
    assert forall|i: int| 0 <= i < g1.nodes.len() implies g1.nodes[i] == g2.nodes[i] by {
        let n = i as usize;
        assert(adj_ok(g1, n) && adj_ok(g2, n));
        assert forall|e: usize| g1.nodes[i].fwd.contains(e) <==> g2.nodes[i].fwd.contains(e) by {
            assert(g1.nodes[i].fwd.contains(e) <==> e < g1.edges.len() && g1.edges[e as int].src
                == n);
            assert(g2.nodes[i].fwd.contains(e) <==> e < g2.edges.len() && g2.edges[e as int].src
                == n);
        }
        assert forall|e: usize| g1.nodes[i].rev.contains(e) <==> g2.nodes[i].rev.contains(e) by {
            assert(g1.nodes[i].rev.contains(e) <==> e < g1.edges.len() && g1.edges[e as int].dst
                == n);
            assert(g2.nodes[i].rev.contains(e) <==> e < g2.edges.len() && g2.edges[e as int].dst
                == n);
        }
        lemma_strictly_increasing_unique(g1.nodes[i].fwd, g2.nodes[i].fwd);
        lemma_strictly_increasing_unique(g1.nodes[i].rev, g2.nodes[i].rev);
        assert(g1.nodes[i].label == spec_labels(ts)[i]);
        assert(g1.nodes[i] =~= g2.nodes[i]);
    }
    assert(g1.nodes =~= g2.nodes);
    assert(g1 =~= g2);
}

/// A node with exactly one incident edge admits only that edge, so a walk
/// standing there is forced to retrace the edge it came by.
pub proof fn lemma_single_incident_forces_retrace(g: KGV, n: usize, e: usize, p: usize)
    requires
        wf_graph(g),
        n < g.nodes.len(),
        incident_count(g, n) == 1,
        e < g.edges.len() && (g.edges[e as int].src == n || g.edges[e as int].dst == n),
        p < g.edges.len() && (g.edges[p as int].src == n || g.edges[p as int].dst == n),
    ensures
        e == p,
{
    assert(adj_ok(g, n));
    let fwd = g.nodes[n as int].fwd;
    let rev = g.nodes[n as int].rev;
    assert(fwd.contains(e) || rev.contains(e));
    assert(fwd.contains(p) || rev.contains(p));
    if fwd.len() == 1 {
        assert(rev.len() == 0);
        let i = choose|i: int| 0 <= i < fwd.len() && fwd[i] == e;
        let j = choose|j: int| 0 <= j < fwd.len() && fwd[j] == p;
    } else {
        assert(rev.len() == 1 && fwd.len() == 0);
        let i = choose|i: int| 0 <= i < rev.len() && rev[i] == e;
        let j = choose|j: int| 0 <= j < rev.len() && rev[j] == p;
    }
}

/// Data-model invariant: whatever is reachable from one specific head via a
/// directed relation is a valid target of that relation somewhere in the
/// graph.
pub proof fn lemma_reach_subset_cand(g: KGV, h: usize, k: Seq<char>)
    ensures
        reach_set(g, h, k).subset_of(cand_set(g, k)),
{
    assert forall|t: usize| reach_set(g, h, k).contains(t) implies cand_set(g, k).contains(t) by {
        assert(reach_pairs(g).contains((h, k, t)));
        let e = choose|e: int|
            0 <= e < g.edges.len() && #[trigger] edge_gives_reach(
                g,
                e,
                ((h, k, t)).0,
                ((h, k, t)).1,
                ((h, k, t)).2,
            );
        assert(edge_gives_cand(g, e, ((k, t)).0, ((k, t)).1));
        assert(cand_pairs(g).contains((k, t)));
    }
}

/// Forward and backward keys occupy disjoint namespaces: whatever the two
/// relation labels, a forward key never equals a backward key, because the
/// direction tags differ in their final characters.
pub proof fn lemma_directed_keys_disjoint(r1: Seq<char>, r2: Seq<char>)
    ensures
        fwd_key(r1) != bwd_key(r2),
{
    reveal_strlit("::-->");
    reveal_strlit("::<--");
    assert(fwd_tag().len() == 5 && fwd_tag()[4] == '>');
    assert(bwd_tag().len() == 5 && bwd_tag()[4] == '-');
    if fwd_key(r1) == bwd_key(r2) {
        assert(fwd_key(r1).len() == r1.len() + 5);
        assert(bwd_key(r2).len() == r2.len() + 5);
        assert(r1.len() == r2.len());
        assert(fwd_key(r1)[r1.len() as int + 4] == '>');
        assert(bwd_key(r2)[r2.len() as int + 4] == '-');
    }
}

// ---------------------------------------------------------------------------
// Read access
// ---------------------------------------------------------------------------

impl KG {
    /// Number of nodes.
    pub fn num_nodes(&self) -> (r: usize)
        ensures
            r == self@.nodes.len(),
    {
        proof {
            assert(self@.nodes.len() == self.nodes@.len());
        }
        self.nodes.len()
    }

    /// Number of edges.
    pub fn num_edges(&self) -> (r: usize)
        ensures
            r == self@.edges.len(),
    {
        proof {
            assert(self@.edges.len() == self.edges@.len());
        }
        self.edges.len()
    }

    /// The label of node `i`.
    pub fn node_label(&self, i: usize) -> (r: &String)
        requires
            i < self@.nodes.len(),
        ensures
            r@ == self@.nodes[i as int].label,
    {
        proof {
            assert(self@.nodes[i as int] == self.nodes@[i as int]@);
        }
        &self.nodes[i].label
    }

    /// How many edges leave node `i`.
    pub fn node_fwd_degree(&self, i: usize) -> (r: usize)
        requires
            i < self@.nodes.len(),
        ensures
            r == self@.nodes[i as int].fwd.len(),
    {
        proof {
            assert(self@.nodes[i as int] == self.nodes@[i as int]@);
        }
        self.nodes[i].edges_fwd.len()
    }

    /// How many edges enter node `i`.
    pub fn node_rev_degree(&self, i: usize) -> (r: usize)
        requires
            i < self@.nodes.len(),
        ensures
            r == self@.nodes[i as int].rev.len(),
    {
        proof {
            assert(self@.nodes[i as int] == self.nodes@[i as int]@);
        }
        self.nodes[i].edges_rev.len()
    }

    /// The endpoints of edge `e`: (source id, destination id).
    pub fn edge_endpoints(&self, e: usize) -> (r: (usize, usize))
        requires
            e < self@.edges.len(),
        ensures
            r.0 == self@.edges[e as int].src,
            r.1 == self@.edges[e as int].dst,
    {
        proof {
            assert(self@.edges[e as int] == self.edges@[e as int]@);
        }
        (self.edges[e].src, self.edges[e].dst)
    }

    /// The relation label of edge `e`.
    pub fn edge_label(&self, e: usize) -> (r: &String)
        requires
            e < self@.edges.len(),
        ensures
            r@ == self@.edges[e as int].label,
    {
        proof {
            assert(self@.edges[e as int] == self.edges@[e as int]@);
        }
        &self.edges[e].label
    }
}

} // verus!
