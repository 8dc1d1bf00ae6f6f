//! The in-memory dependency graph: an arena of packages, a list of
//! kind-tagged edges between arena indices, and the designated root.
//! `build` turns a resolved document into a graph, deduplicates edge
//! kinds, and prunes everything the root cannot reach.

use vstd::prelude::*;
use crate::args::Args;
use crate::common::DepKind;
use crate::errors::ErrV;
use crate::errors::TreeError;
use crate::ident::IdV;
use crate::ident::PackageId;
use crate::metadata::Document;
use crate::metadata::DocumentV;
use crate::metadata::Package;
use crate::metadata::PackageV;
use crate::metadata::ResolveDepV;
use crate::metadata::ResolveNodeV;

verus! {

// ---------------------------------------------------------------------------
// Graph data
// ---------------------------------------------------------------------------

/// Mathematical value of one edge.
#[verifier::ext_equal]
pub struct EdgeV {
    pub from: int,
    pub to: int,
    pub kind: DepKind,
}

/// One dependency edge between two arena indices. Edges between the same
/// pair that differ in kind stay distinct.
pub struct Edge {
    pub from: usize,
    pub to: usize,
    pub kind: DepKind,
}

impl View for Edge {
    type V = EdgeV;

    open spec fn view(&self) -> EdgeV {
        EdgeV { from: self.from as int, to: self.to as int, kind: self.kind }
    }
}

/// Mathematical value of a graph.
#[verifier::ext_equal]
pub struct GraphV {
    pub nodes: Seq<PackageV>,
    pub edges: Seq<EdgeV>,
    pub root: Option<int>,
}

/// The dependency graph: packages in a stable arena, edges by index, and
/// the designated root if the document named one.
pub struct Graph {
    pub nodes: Vec<Package>,
    pub edges: Vec<Edge>,
    pub root: Option<usize>,
}

pub open spec fn pkg_views(s: Seq<Package>) -> Seq<PackageV> {
    s.map_values(|p: Package| p@)
}

pub open spec fn edge_views(s: Seq<Edge>) -> Seq<EdgeV> {
    s.map_values(|e: Edge| e@)
}

impl View for Graph {
    type V = GraphV;

    open spec fn view(&self) -> GraphV {
        GraphV {
            nodes: pkg_views(self.nodes@),
            edges: edge_views(self.edges@),
            root: match self.root {
                Some(r) => Some(r as int),
                None => None,
            },
        }
    }
}

/// Every edge points into the arena, and so does the root.
pub open spec fn edges_wf(es: Seq<EdgeV>, n: int) -> bool {
    forall|j: int|
        0 <= j < es.len() ==> 0 <= (#[trigger] es[j]).from < n && 0 <= es[j].to < n
}

pub open spec fn graph_wf(g: GraphV) -> bool {
    &&& edges_wf(g.edges, g.nodes.len() as int)
    &&& (match g.root {
        Some(r) => 0 <= r < g.nodes.len(),
        None => true,
    })
}

// ---------------------------------------------------------------------------
// Render-time bookkeeping
// ---------------------------------------------------------------------------

/// How many of the first `j` edges point at `v`.
pub open spec fn in_count(es: Seq<EdgeV>, v: int, j: int) -> int
    decreases j,
{
    if j <= 0 {
        0
    } else {
        in_count(es, v, j - 1) + if es[j - 1].to == v {
            1int
        } else {
            0int
        }
    }
}

/// A node has a duplicate incoming path when a walk from the root would
/// discover it more than once: its incoming edges, plus its standing as
/// the root, come to two or more encounters.
pub open spec fn spec_dup_path(g: GraphV, v: int) -> bool {
    in_count(g.edges, v, g.edges.len() as int) + (match g.root {
        Some(r) => if r == v {
            1int
        } else {
            0int
        },
        None => 0int,
    }) >= 2
}

impl Graph {
    /// For each node, whether more than one path of the graph arrives at
    /// it: the flag the renderer's truncation marker reflects.
    pub fn dup_path_flags(&self) -> (r: Vec<bool>)
        ensures
            r@.len() == self@.nodes.len(),
            forall|v: int| 0 <= v < r@.len() ==> r@[v] == spec_dup_path(self@, v),
    {
        let n = self.nodes.len();
        let ne = self.edges.len();
        let mut out: Vec<bool> = Vec::new();
        let mut v: usize = 0;
        while v < n
            invariant
                v <= n,
                n == self.nodes@.len(),
                ne == self.edges@.len(),
                out@.len() == v,
                forall|w: int| 0 <= w < v ==> out@[w] == spec_dup_path(self@, w),
            decreases n - v,
        {
            let mut count: usize = 0;
            let mut j: usize = 0;
            while j < ne
                invariant
                    j <= ne,
                    ne == self.edges@.len(),
                    v < n,
                    n == self.nodes@.len(),
                    count <= j,
                    count as int == in_count(self@.edges, v as int, j as int),
                decreases ne - j,
            {
                proof {
                    assert(self@.edges[j as int] == self.edges@[j as int]@);
                }
                if self.edges[j].to == v {
                    count = count + 1;
                }
                j = j + 1;
            }
            let is_root = match &self.root {
                Some(r) => *r == v,
                None => false,
            };
            let flag = if is_root {
                count >= 1
            } else {
                count >= 2
            };
            out.push(flag);
            v = v + 1;
        }
        out
    }
}

// ---------------------------------------------------------------------------
// Finding a package entry by identity
// ---------------------------------------------------------------------------

/// Index of the first package with the given identity, or -1.
pub open spec fn find_pkg(packages: Seq<PackageV>, id: IdV) -> int
    decreases packages.len(),
{
    if packages.len() == 0 {
        -1
    } else if packages[0].id == id {
        0
    } else if find_pkg(packages.drop_first(), id) < 0 {
        -1
    } else {
        find_pkg(packages.drop_first(), id) + 1
    }
}

pub open spec fn has_pkg(packages: Seq<PackageV>, id: IdV) -> bool {
    find_pkg(packages, id) >= 0
}

pub proof fn lemma_find_pkg_at(packages: Seq<PackageV>, id: IdV, i: int)
    requires
        0 <= i < packages.len(),
        packages[i].id == id,
        forall|k: int| 0 <= k < i ==> (#[trigger] packages[k]).id != id,
    ensures
        find_pkg(packages, id) == i,
    decreases i,
{
    if i > 0 {
        assert(packages[0].id != id);
        lemma_find_pkg_at(packages.drop_first(), id, i - 1);
    }
}

pub proof fn lemma_find_pkg_none(packages: Seq<PackageV>, id: IdV)
    requires
        forall|k: int| 0 <= k < packages.len() ==> (#[trigger] packages[k]).id != id,
    ensures
        find_pkg(packages, id) == -1,
    decreases packages.len(),
{
    if packages.len() > 0 {
        lemma_find_pkg_none(packages.drop_first(), id);
    }
}

pub proof fn lemma_find_pkg_found(packages: Seq<PackageV>, id: IdV)
    requires
        find_pkg(packages, id) >= 0,
    ensures
        find_pkg(packages, id) < packages.len(),
        packages[find_pkg(packages, id)].id == id,
    decreases packages.len(),
{
    if packages.len() > 0 && packages[0].id != id {
        lemma_find_pkg_found(packages.drop_first(), id);
    }
}

pub proof fn lemma_find_pkg_exists(packages: Seq<PackageV>, id: IdV)
    requires
        exists|i: int| 0 <= i < packages.len() && (#[trigger] packages[i]).id == id,
    ensures
        find_pkg(packages, id) >= 0,
    decreases packages.len(),
{
    if packages.len() > 0 && packages[0].id != id {
        let i = choose|i: int| 0 <= i < packages.len() && (#[trigger] packages[i]).id == id;
        assert(packages.drop_first()[i - 1] == packages[i]);
        lemma_find_pkg_exists(packages.drop_first(), id);
    }
}

/// Linear search for a package by identity; yields the first match.
pub fn find_pkg_index(packages: &Vec<Package>, id: &PackageId) -> (r: Option<usize>)
    ensures
        match r {
            Some(i) => i < packages@.len() && find_pkg(pkg_views(packages@), id@) == i,
            None => find_pkg(pkg_views(packages@), id@) == -1,
        },
{
    let n = packages.len();
    let mut i: usize = 0;
    while i < n
        invariant
            i <= n,
            n == packages@.len(),
            forall|k: int| 0 <= k < i ==> (#[trigger] pkg_views(packages@)[k]).id != id@,
        decreases n - i,
    {
        if packages[i].id == *id {
            proof {
                lemma_find_pkg_at(pkg_views(packages@), id@, i as int);
            }
            return Some(i);
        }
        i = i + 1;
    }
    proof {
        lemma_find_pkg_none(pkg_views(packages@), id@);
    }
    None
}

// ---------------------------------------------------------------------------
// The edges a document encodes
// ---------------------------------------------------------------------------

/// The distinct kinds of one dependency entry, first occurrence first.
pub open spec fn dedup_kinds(kinds: Seq<DepKind>) -> Seq<DepKind>
    decreases kinds.len(),
{
    if kinds.len() == 0 {
        Seq::empty()
    } else {
        let d = dedup_kinds(kinds.drop_last());
        if d.contains(kinds.last()) {
            d
        } else {
            d.push(kinds.last())
        }
    }
}

/// Deduplication keeps exactly the kinds that occur, each once: edges of
/// different kinds between one pair stay distinct, and one kind reported
/// twice collapses into one edge.
pub proof fn lemma_dedup_kinds_exact(kinds: Seq<DepKind>)
    ensures
        forall|k: DepKind| dedup_kinds(kinds).contains(k) <==> kinds.contains(k),
        dedup_kinds(kinds).no_duplicates(),
    decreases kinds.len(),
{
    if kinds.len() > 0 {
        lemma_dedup_kinds_exact(kinds.drop_last());
        let t = kinds.drop_last();
        let d = dedup_kinds(t);
        let r = dedup_kinds(kinds);
        assert(forall|i: int| 0 <= i < t.len() ==> #[trigger] t[i] == kinds[i]);
        assert forall|k: DepKind| r.contains(k) <==> kinds.contains(k) by {
            if r.contains(k) {
                if d.contains(k) {
                    assert(t.contains(k));
                    let i = choose|i: int| 0 <= i < t.len() && t[i] == k;
                    assert(kinds[i] == k);
                    assert(kinds.contains(k));
                } else {
                    assert(r =~= d.push(kinds.last()));
                    let m = choose|m: int| 0 <= m < r.len() && r[m] == k;
                    if m < d.len() {
                        assert(d[m] == k);
                        assert(d.contains(k));
                    }
                    assert(k == kinds.last());
                    assert(kinds[kinds.len() - 1] == k);
                    assert(kinds.contains(k));
                }
            }
            if kinds.contains(k) {
                let i = choose|i: int| 0 <= i < kinds.len() && kinds[i] == k;
                if i < kinds.len() - 1 {
                    assert(t[i] == k);
                    assert(t.contains(k));
                    assert(d.contains(k));
                    let m = choose|m: int| 0 <= m < d.len() && d[m] == k;
                    if d.contains(kinds.last()) {
                        assert(r == d);
                    } else {
                        assert(r =~= d.push(kinds.last()));
                        assert(r[m] == k);
                    }
                    assert(r.contains(k));
                } else {
                    assert(k == kinds.last());
                    if d.contains(k) {
                        assert(r == d);
                        assert(r.contains(k));
                    } else {
                        assert(r =~= d.push(kinds.last()));
                        assert(r[d.len() as int] == k);
                        assert(r.contains(k));
                    }
                }
            }
        }
        if d.contains(kinds.last()) {
            assert(r == d);
        } else {
            assert(r =~= d.push(kinds.last()));
            assert forall|i: int, jj: int|
                0 <= i < r.len() && 0 <= jj < r.len() && i != jj implies r[i] != r[jj] by {
                if i < d.len() && jj < d.len() {
                    assert(d[i] != d[jj]);
                } else if jj == d.len() {
                    assert(r[jj] == kinds.last());
                    if r[i] == kinds.last() {
                        assert(d[i] == kinds.last());
                        assert(d.contains(kinds.last()));
                    }
                } else {
                    assert(r[i] == kinds.last());
                    if r[jj] == kinds.last() {
                        assert(d[jj] == kinds.last());
                        assert(d.contains(kinds.last()));
                    }
                }
            }
        }
    }
}

/// Without the development filter, one dependency entry yields exactly
/// one edge per listed kind, between the same endpoints and in order.
pub proof fn lemma_kind_edges_exact(from: int, to: int, kinds: Seq<DepKind>)
    ensures
        kind_edges(from, to, kinds, false).len() == kinds.len(),
        forall|i: int|
            0 <= i < kinds.len() ==> kind_edges(from, to, kinds, false)[i] == (EdgeV {
                from,
                to,
                kind: kinds[i],
            }),
    decreases kinds.len(),
{
    if kinds.len() > 0 {
        lemma_kind_edges_exact(from, to, kinds.drop_last());
    }
}

/// One edge per kept kind, in kind order of the (deduplicated) input.
pub open spec fn kind_edges(from: int, to: int, kinds: Seq<DepKind>, no_dev: bool) -> Seq<EdgeV>
    decreases kinds.len(),
{
    if kinds.len() == 0 {
        Seq::empty()
    } else {
        kind_edges(from, to, kinds.drop_last(), no_dev) + (if no_dev && kinds.last()
            == DepKind::Development {
            Seq::empty()
        } else {
            seq![EdgeV { from, to, kind: kinds.last() }]
        })
    }
}

/// The edges one dependency entry of one resolved node contributes.
pub open spec fn dep_edges(
    packages: Seq<PackageV>,
    from: int,
    dep: ResolveDepV,
    no_dev: bool,
) -> Seq<EdgeV> {
    kind_edges(from, find_pkg(packages, dep.pkg), dedup_kinds(dep.dep_kinds), no_dev)
}

pub open spec fn node_edges_upto(
    packages: Seq<PackageV>,
    node: ResolveNodeV,
    no_dev: bool,
    j: int,
) -> Seq<EdgeV>
    decreases j,
{
    if j <= 0 {
        Seq::empty()
    } else {
        node_edges_upto(packages, node, no_dev, j - 1) + dep_edges(
            packages,
            find_pkg(packages, node.id),
            node.deps[j - 1],
            no_dev,
        )
    }
}

/// The edges one resolved node contributes.
pub open spec fn node_edges(packages: Seq<PackageV>, node: ResolveNodeV, no_dev: bool) -> Seq<
    EdgeV,
> {
    node_edges_upto(packages, node, no_dev, node.deps.len() as int)
}

pub open spec fn doc_edges_upto(doc: DocumentV, no_dev: bool, j: int) -> Seq<EdgeV>
    decreases j,
{
    if j <= 0 {
        Seq::empty()
    } else {
        doc_edges_upto(doc, no_dev, j - 1) + node_edges(doc.packages, doc.nodes[j - 1], no_dev)
    }
}

/// Every edge of the document, in document order, kinds deduplicated and
/// development edges dropped on request.
pub open spec fn doc_edges(doc: DocumentV, no_dev: bool) -> Seq<EdgeV> {
    doc_edges_upto(doc, no_dev, doc.nodes.len() as int)
}

// ---------------------------------------------------------------------------
// Document validity
// ---------------------------------------------------------------------------

/// One resolved node is structurally sound: its two dependency lists
/// agree in length, every entry carries at least one kind tag, and every
/// identity it names exists in the package list.
pub open spec fn node_ok(packages: Seq<PackageV>, node: ResolveNodeV) -> bool {
    &&& node.deps.len() == node.dependencies.len()
    &&& has_pkg(packages, node.id)
    &&& forall|j: int|
        0 <= j < node.deps.len() ==> (#[trigger] node.deps[j]).dep_kinds.len() > 0 && has_pkg(
            packages,
            node.deps[j].pkg,
        )
}

pub open spec fn nodes_ok(doc: DocumentV) -> bool {
    forall|i: int| 0 <= i < doc.nodes.len() ==> node_ok(doc.packages, #[trigger] doc.nodes[i])
}

/// The whole document is sound, the designated root included.
pub open spec fn doc_ok(doc: DocumentV) -> bool {
    &&& nodes_ok(doc)
    &&& (match doc.root {
        Some(r) => has_pkg(doc.packages, r),
        None => true,
    })
}

// ---------------------------------------------------------------------------
// Reachability
// ---------------------------------------------------------------------------

/// `v` can be reached from `root` in at most `k` edge steps.
pub open spec fn reach(es: Seq<EdgeV>, root: int, v: int, k: nat) -> bool
    decreases k,
{
    if k == 0 {
        v == root
    } else {
        reach(es, root, v, (k - 1) as nat) || (exists|j: int|
            0 <= j < es.len() && (#[trigger] es[j]).to == v && reach(
                es,
                root,
                es[j].from,
                (k - 1) as nat,
            ))
    }
}

/// `v` can be reached from `root` along the edges, in any number of steps.
pub open spec fn reachable(es: Seq<EdgeV>, root: int, v: int) -> bool {
    exists|k: nat| reach(es, root, v, k)
}

pub proof fn lemma_reachable_root(es: Seq<EdgeV>, root: int)
    ensures
        reachable(es, root, root),
{
    assert(reach(es, root, root, 0));
}

pub proof fn lemma_reachable_step(es: Seq<EdgeV>, root: int, j: int)
    requires
        0 <= j < es.len(),
        reachable(es, root, es[j].from),
    ensures
        reachable(es, root, es[j].to),
{
    let k = choose|k: nat| reach(es, root, es[j].from, k);
    assert(reach(es, root, es[j].to, k + 1));
}

/// A set of nodes that holds the root and is closed under the edges holds
/// everything reachable.
proof fn lemma_reach_in_closed(es: Seq<EdgeV>, root: int, disc: Seq<bool>, v: int, k: nat)
    requires
        0 <= root < disc.len(),
        disc[root],
        edges_wf(es, disc.len() as int),
        forall|u: int, j: int|
            #![trigger disc[u], es[j]]
            0 <= u < disc.len() && disc[u] && 0 <= j < es.len() && es[j].from == u
                ==> disc[es[j].to],
        0 <= v < disc.len(),
        reach(es, root, v, k),
    ensures
        disc[v],
    decreases k,
{
    if k > 0 {
        if reach(es, root, v, (k - 1) as nat) {
            lemma_reach_in_closed(es, root, disc, v, (k - 1) as nat);
        } else {
            let j = choose|j: int|
                0 <= j < es.len() && (#[trigger] es[j]).to == v && reach(
                    es,
                    root,
                    es[j].from,
                    (k - 1) as nat,
                );
            lemma_reach_in_closed(es, root, disc, es[j].from, (k - 1) as nat);
            assert(disc[es[j].to]);
        }
    }
}

/// A sequence of distinct indices below `n` has at most `n` elements.
proof fn lemma_bounded_unique_len(s: Seq<usize>, n: int)
    requires
        s.no_duplicates(),
        n >= 0,
        forall|i: int| 0 <= i < s.len() ==> (#[trigger] s[i]) < n,
    ensures
        s.len() <= n,
{
    let f = |x: usize| x as int;
    let t = s.map_values(f);
    assert(vstd::relations::injective(f)) by {
        assert forall|x: usize, y: usize| #[trigger] f(x) == #[trigger] f(y) implies x == y by {}
    }
    s.lemma_no_duplicates_injective(f);
    t.unique_seq_to_set();
    vstd::set_lib::lemma_int_range(0, n);
    assert(t.to_set().subset_of(vstd::set_lib::set_int_range(0, n))) by {
        assert forall|x: int| t.to_set().contains(x) implies vstd::set_lib::set_int_range(
            0,
            n,
        ).contains(x) by {
            let i = choose|i: int| 0 <= i < t.len() && t[i] == x;
            assert(t[i] == f(s[i]));
        }
    }
    vstd::set_lib::lemma_len_subset(t.to_set(), vstd::set_lib::set_int_range(0, n));
}

// ---------------------------------------------------------------------------
// The pruned graph
// ---------------------------------------------------------------------------

/// How many of the first `v` arena slots survive the pruning.
pub open spec fn rank(es: Seq<EdgeV>, root: int, v: int) -> int
    decreases v,
{
    if v <= 0 {
        0
    } else {
        rank(es, root, v - 1) + if reachable(es, root, v - 1) {
            1int
        } else {
            0int
        }
    }
}

/// The reachable packages among the first `j`, in arena order.
pub open spec fn retained_nodes_upto(
    packages: Seq<PackageV>,
    es: Seq<EdgeV>,
    root: int,
    j: int,
) -> Seq<PackageV>
    decreases j,
{
    if j <= 0 {
        Seq::empty()
    } else {
        retained_nodes_upto(packages, es, root, j - 1) + (if reachable(es, root, j - 1) {
            seq![packages[j - 1]]
        } else {
            Seq::empty()
        })
    }
}

/// The edges among the first `j` whose endpoints both survive, with their
/// endpoints renumbered into the pruned arena.
pub open spec fn retained_edges_upto(es: Seq<EdgeV>, root: int, j: int) -> Seq<EdgeV>
    decreases j,
{
    if j <= 0 {
        Seq::empty()
    } else {
        retained_edges_upto(es, root, j - 1) + (if reachable(es, root, es[j - 1].from)
            && reachable(es, root, es[j - 1].to) {
            seq![
                EdgeV {
                    from: rank(es, root, es[j - 1].from),
                    to: rank(es, root, es[j - 1].to),
                    kind: es[j - 1].kind,
                },
            ]
        } else {
            Seq::empty()
        })
    }
}

pub proof fn lemma_rank_mono(es: Seq<EdgeV>, root: int, a: int, b: int)
    requires
        0 <= a <= b,
    ensures
        rank(es, root, a) <= rank(es, root, b) <= rank(es, root, a) + (b - a),
    decreases b - a,
{
    if a < b {
        lemma_rank_mono(es, root, a, b - 1);
    }
}

pub proof fn lemma_rank_reachable_lt(es: Seq<EdgeV>, root: int, v: int, n: int)
    requires
        0 <= v < n,
        reachable(es, root, v),
    ensures
        rank(es, root, v) < rank(es, root, n),
{
    assert(rank(es, root, v + 1) == rank(es, root, v) + 1);
    lemma_rank_mono(es, root, v + 1, n);
}

pub proof fn lemma_retained_len(packages: Seq<PackageV>, es: Seq<EdgeV>, root: int, j: int)
    ensures
        retained_nodes_upto(packages, es, root, j).len() == rank(es, root, if j < 0 {
            0
        } else {
            j
        }),
    decreases j,
{
    if j > 0 {
        lemma_retained_len(packages, es, root, j - 1);
    }
}

// ---------------------------------------------------------------------------
// What `build` returns
// ---------------------------------------------------------------------------

/// The graph a document denotes: its packages and deduplicated edges,
/// pruned to what the designated root reaches. A structurally unsound
/// document denotes the malformed-input failure instead.
pub open spec fn spec_build(doc: DocumentV, no_dev: bool) -> Result<GraphV, ErrV> {
    if !doc_ok(doc) {
        Err(ErrV::MalformedInput)
    } else {
        let es = doc_edges(doc, no_dev);
        match doc.root {
            None => Ok(GraphV { nodes: doc.packages, edges: es, root: None }),
            Some(rid) => {
                let r0 = find_pkg(doc.packages, rid);
                Ok(
                    GraphV {
                        nodes: retained_nodes_upto(doc.packages, es, r0, doc.packages.len() as int),
                        edges: retained_edges_upto(es, r0, es.len() as int),
                        root: Some(rank(es, r0, r0)),
                    },
                )
            },
        }
    }
}

// ---------------------------------------------------------------------------
// Executable construction
// ---------------------------------------------------------------------------

fn contains_kind(kinds: &Vec<DepKind>, k: DepKind) -> (r: bool)
    ensures
        r == kinds@.contains(k),
{
    let n = kinds.len();
    let mut i: usize = 0;
    while i < n
        invariant
            i <= n,
            n == kinds@.len(),
            forall|j: int| 0 <= j < i ==> kinds@[j] != k,
        decreases n - i,
    {
        if kinds[i] == k {
            return true;
        }
        i = i + 1;
    }
    false
}

/// Copy the package arena.
fn copy_packages(packages: &Vec<Package>) -> (r: Vec<Package>)
    ensures
        pkg_views(r@) == pkg_views(packages@),
{
    let n = packages.len();
    let mut out: Vec<Package> = Vec::new();
    let mut i: usize = 0;
    while i < n
        invariant
            i <= n,
            n == packages@.len(),
            out@.len() == i,
            forall|k: int| 0 <= k < i ==> (#[trigger] out@[k])@ == packages@[k]@,
        decreases n - i,
    {
        out.push(packages[i].duplicate());
        i = i + 1;
    }
    proof {
        assert(pkg_views(out@) =~= pkg_views(packages@));
    }
    out
}

/// Collect every edge the document encodes, validating it on the way.
fn collect_edges(no_dev: bool, doc: &Document) -> (r: Result<Vec<Edge>, TreeError>)
    ensures
        match r {
            Ok(es) => nodes_ok(doc@) && edge_views(es@) == doc_edges(doc@, no_dev) && (forall|
                j: int,
            |
                0 <= j < es@.len() ==> (#[trigger] es@[j]).from < doc@.packages.len()
                    && es@[j].to < doc@.packages.len()),
            Err(e) => e@ == ErrV::MalformedInput && !nodes_ok(doc@),
        },
{
    let nn = doc.nodes.len();
    let mut edges: Vec<Edge> = Vec::new();
    let mut ni: usize = 0;
    while ni < nn
        invariant
            ni <= nn,
            nn == doc@.nodes.len(),
            doc@.nodes.len() == doc.nodes@.len(),
            forall|i: int| 0 <= i < ni ==> node_ok(doc@.packages, #[trigger] doc@.nodes[i]),
            edge_views(edges@) == doc_edges_upto(doc@, no_dev, ni as int),
            forall|j: int|
                0 <= j < edges@.len() ==> (#[trigger] edges@[j]).from < doc@.packages.len()
                    && edges@[j].to < doc@.packages.len(),
        decreases nn - ni,
    {
        let node = &doc.nodes[ni];
        proof {
            assert(node@ == doc@.nodes[ni as int]);
        }
        if node.deps.len() != node.dependencies.len() {
            proof {
                assert(!node_ok(doc@.packages, doc@.nodes[ni as int]));
            }
            return Err(TreeError::MalformedInput);
        }
        let from = match find_pkg_index(&doc.packages, &node.id) {
            Some(i) => i,
            None => {
                proof {
                    assert(!node_ok(doc@.packages, doc@.nodes[ni as int]));
                }
                return Err(TreeError::MalformedInput);
            },
        };
        let nd = node.deps.len();
        let mut di: usize = 0;
        while di < nd
            invariant
                di <= nd,
                nd == node.deps@.len(),
                node@ == doc@.nodes[ni as int],
                0 <= (ni as int) < doc@.nodes.len(),
                doc@.nodes.len() == doc.nodes@.len(),
                nn == doc@.nodes.len(),
                node.deps.len() == node.dependencies.len(),
                from < doc@.packages.len(),
                find_pkg(doc@.packages, node@.id) == from,
                forall|i: int| 0 <= i < ni ==> node_ok(doc@.packages, #[trigger] doc@.nodes[i]),
                forall|j: int|
                    0 <= j < di ==> ((#[trigger] node@.deps[j]).dep_kinds.len() > 0 && has_pkg(
                        doc@.packages,
                        node@.deps[j].pkg,
                    )),
                edge_views(edges@) == doc_edges_upto(doc@, no_dev, ni as int) + node_edges_upto(
                    doc@.packages,
                    node@,
                    no_dev,
                    di as int,
                ),
                forall|j: int|
                    0 <= j < edges@.len() ==> (#[trigger] edges@[j]).from < doc@.packages.len()
                        && edges@[j].to < doc@.packages.len(),
            decreases nd - di,
        {
            let dep = &node.deps[di];
            proof {
                assert(dep@ == node@.deps[di as int]);
            }
            if dep.dep_kinds.len() == 0 {
                proof {
                    assert(node@.deps[di as int].dep_kinds.len() == 0);
                    assert(!node_ok(doc@.packages, doc@.nodes[ni as int]));
                }
                return Err(TreeError::MalformedInput);
            }
            let to = match find_pkg_index(&doc.packages, &dep.pkg) {
                Some(i) => i,
                None => {
                    proof {
                        assert(!has_pkg(doc@.packages, node@.deps[di as int].pkg));
                        assert(!node_ok(doc@.packages, doc@.nodes[ni as int]));
                    }
                    return Err(TreeError::MalformedInput);
                },
            };
            // deduplicate the kind tags of this entry
            let nk = dep.dep_kinds.len();
            let mut kinds: Vec<DepKind> = Vec::new();
            let mut ki: usize = 0;
            while ki < nk
                invariant
                    ki <= nk,
                    nk == dep.dep_kinds@.len(),
                    dep@ == node@.deps[di as int],
                    kinds@ == dedup_kinds(dep.dep_kinds@.take(ki as int)),
                decreases nk - ki,
            {
                let k = dep.dep_kinds[ki];
                proof {
                    assert(dep.dep_kinds@.take(ki as int + 1).drop_last() =~= dep.dep_kinds@.take(
                        ki as int,
                    ));
                    assert(dep.dep_kinds@.take(ki as int + 1).last() == dep.dep_kinds@[ki as int]);
                }
                if !contains_kind(&kinds, k) {
                    kinds.push(k);
                }
                ki = ki + 1;
            }
            proof {
                assert(dep.dep_kinds@.take(nk as int) =~= dep.dep_kinds@);
                assert(kinds@ == dedup_kinds(node@.deps[di as int].dep_kinds));
            }
            // one edge per kept kind
            let nke = kinds.len();
            let mut ei: usize = 0;
            while ei < nke
                invariant
                    ei <= nke,
                    nke == kinds@.len(),
                    from < doc@.packages.len(),
                    to < doc@.packages.len(),
                    edge_views(edges@) == doc_edges_upto(doc@, no_dev, ni as int)
                        + node_edges_upto(doc@.packages, node@, no_dev, di as int) + kind_edges(
                        from as int,
                        to as int,
                        kinds@.take(ei as int),
                        no_dev,
                    ),
                    forall|j: int|
                        0 <= j < edges@.len() ==> (#[trigger] edges@[j]).from < doc@.packages.len()
                            && edges@[j].to < doc@.packages.len(),
                decreases nke - ei,
            {
                let k = kinds[ei];
                proof {
                    assert(kinds@.take(ei as int + 1).drop_last() =~= kinds@.take(ei as int));
                    assert(kinds@.take(ei as int + 1).last() == kinds@[ei as int]);
                }
                let keep = match k {
                    DepKind::Development => !no_dev,
                    _ => true,
                };
                if keep {
                    let ghost before = edge_views(edges@);
                    edges.push(Edge { from, to, kind: k });
                    proof {
                        assert(edge_views(edges@) =~= before.push(
                            EdgeV { from: from as int, to: to as int, kind: kinds@[ei as int] },
                        ));
                        assert(edge_views(edges@) =~= doc_edges_upto(doc@, no_dev, ni as int)
                            + node_edges_upto(doc@.packages, node@, no_dev, di as int) + kind_edges(
                            from as int,
                            to as int,
                            kinds@.take(ei as int + 1),
                            no_dev,
                        ));
                    }
                } else {
                    proof {
                        assert(edge_views(edges@) =~= doc_edges_upto(doc@, no_dev, ni as int)
                            + node_edges_upto(doc@.packages, node@, no_dev, di as int) + kind_edges(
                            from as int,
                            to as int,
                            kinds@.take(ei as int + 1),
                            no_dev,
                        ));
                    }
                }
                ei = ei + 1;
            }
            proof {
                assert(kinds@.take(nke as int) =~= kinds@);
                assert(dep_edges(doc@.packages, from as int, node@.deps[di as int], no_dev)
                    == kind_edges(from as int, to as int, kinds@, no_dev));
                assert(edge_views(edges@) =~= doc_edges_upto(doc@, no_dev, ni as int)
                    + node_edges_upto(doc@.packages, node@, no_dev, di as int + 1));
            }
            di = di + 1;
        }
        proof {
            assert(node_ok(doc@.packages, doc@.nodes[ni as int]));
            assert(node_edges_upto(doc@.packages, node@, no_dev, nd as int) == node_edges(
                doc@.packages,
                node@,
                no_dev,
            ));
            assert(edge_views(edges@) =~= doc_edges_upto(doc@, no_dev, ni as int + 1));
        }
        ni = ni + 1;
    }
    proof {
        assert(doc_edges_upto(doc@, no_dev, nn as int) == doc_edges(doc@, no_dev));
    }
    Ok(edges)
}

/// Mark everything the root reaches, walking every edge regardless of
/// kind.
fn mark_reachable(n: usize, edges: &Vec<Edge>, r0: usize) -> (disc: Vec<bool>)
    requires
        r0 < n,
        forall|j: int|
            0 <= j < edges@.len() ==> (#[trigger] edges@[j]).from < n && edges@[j].to < n,
    ensures
        disc@.len() == n,
        forall|v: int|
            0 <= v < n ==> disc@[v] == reachable(edge_views(edges@), r0 as int, v),
{
    let ghost es = edge_views(edges@);
    let mut disc: Vec<bool> = vec![false; n];
    let mut queue: Vec<usize> = Vec::new();
    disc[r0] = true;
    queue.push(r0);
    proof {
        lemma_reachable_root(es, r0 as int);
        assert(queue@[0] == r0);
        assert forall|v: int| 0 <= v < n && disc@[v] implies queue@.contains(v as usize) by {
            assert(v == r0 as int);
            assert(queue@[0] == v as usize);
        }
    }
    let mut head: usize = 0;
    while head < queue.len()
        invariant
            disc@.len() == n,
            r0 < n,
            disc@[r0 as int],
            es == edge_views(edges@),
            forall|j: int| 0 <= j < es.len() ==> 0 <= (#[trigger] es[j]).from < n && 0 <= es[j].to < n,
            head <= queue@.len(),
            queue@.len() <= n,
            queue@.no_duplicates(),
            forall|qi: int|
                0 <= qi < queue@.len() ==> (#[trigger] queue@[qi]) < n && disc@[queue@[qi] as int],
            forall|v: int| 0 <= v < n && disc@[v] ==> queue@.contains(v as usize),
            forall|v: int| 0 <= v < n && disc@[v] ==> reachable(es, r0 as int, v),
            forall|qi: int, j: int|
                0 <= qi < head && 0 <= j < es.len() && (#[trigger] es[j]).from == (
                #[trigger] queue@[qi]) as int ==> disc@[es[j].to],
        decreases n - head,
    {
        let u = queue[head];
        let ne = edges.len();
        let mut ei: usize = 0;
        while ei < ne
            invariant
                ne == edges@.len(),
                ei <= ne,
                disc@.len() == n,
                r0 < n,
                disc@[r0 as int],
                u == queue@[head as int],
                u < n,
                head < queue@.len(),
                es == edge_views(edges@),
                forall|j: int|
                    0 <= j < es.len() ==> 0 <= (#[trigger] es[j]).from < n && 0 <= es[j].to < n,
                queue@.len() <= n,
                queue@.no_duplicates(),
                forall|qi: int|
                    0 <= qi < queue@.len() ==> (#[trigger] queue@[qi]) < n && disc@[queue@[qi] as int],
                forall|v: int| 0 <= v < n && disc@[v] ==> queue@.contains(v as usize),
                forall|v: int| 0 <= v < n && disc@[v] ==> reachable(es, r0 as int, v),
                forall|qi: int, j: int|
                    0 <= qi < head && 0 <= j < es.len() && (#[trigger] es[j]).from == (
                    #[trigger] queue@[qi]) as int ==> disc@[es[j].to],
                forall|j: int|
                    0 <= j < ei && (#[trigger] es[j]).from == u as int ==> disc@[es[j].to],
            decreases ne - ei,
        {
            let e_from = edges[ei].from;
            let e_to = edges[ei].to;
            proof {
                assert(es[ei as int] == edges@[ei as int]@);
            }
            if e_from == u && !disc[e_to] {
                let ghost q0 = queue@;
                let ghost d0 = disc@;
                disc[e_to] = true;
                queue.push(e_to);
                proof {
                    assert(reachable(es, r0 as int, u as int));
                    lemma_reachable_step(es, r0 as int, ei as int);
                    assert forall|qi: int| 0 <= qi < q0.len() implies q0[qi] != e_to by {
                        assert(d0[q0[qi] as int]);
                    }
                    assert(queue@.no_duplicates()) by {
                        assert(forall|qi: int|
                            0 <= qi < q0.len() ==> queue@[qi] == #[trigger] q0[qi]);
                        assert(queue@[q0.len() as int] == e_to);
                    }
                    lemma_bounded_unique_len(queue@, n as int);
                    assert forall|v: int| 0 <= v < n && disc@[v] implies queue@.contains(
                        v as usize,
                    ) by {
                        if v == e_to as int {
                            assert(queue@[q0.len() as int] == v as usize);
                        } else {
                            assert(d0[v]);
                            let qi = choose|qi: int| 0 <= qi < q0.len() && q0[qi] == v as usize;
                            assert(queue@[qi] == v as usize);
                        }
                    }
                }
            }
            ei = ei + 1;
        }
        head = head + 1;
    }
    proof {
        assert forall|v: int| 0 <= v < n implies disc@[v] == reachable(es, r0 as int, v) by {
            if disc@[v] {
            } else {
                if reachable(es, r0 as int, v) {
                    let k = choose|k: nat| reach(es, r0 as int, v, k);
                    assert forall|u: int, j: int|
                        #![trigger disc@[u], es[j]]
                        0 <= u < disc@.len() && disc@[u] && 0 <= j < es.len() && es[j].from
                            == u implies disc@[es[j].to] by {
                        assert(queue@.contains(u as usize));
                        let qi = choose|qi: int|
                            0 <= qi < queue@.len() && queue@[qi] == u as usize;
                        assert(disc@[es[j].to]);
                    }
                    lemma_reach_in_closed(es, r0 as int, disc@, v, k);
                }
            }
        }
    }
    disc
}

/// A set of nodes that holds the root and is closed under the edges with
/// depths growing by at most one per step bounds every walk's length.
proof fn lemma_reach_depth_bound(
    es: Seq<EdgeV>,
    root: int,
    disc: Seq<bool>,
    depths: Seq<int>,
    v: int,
    k: nat,
)
    requires
        0 <= root < disc.len(),
        depths.len() == disc.len(),
        disc[root],
        depths[root] == 0,
        edges_wf(es, disc.len() as int),
        forall|u: int, j: int|
            #![trigger disc[u], es[j]]
            0 <= u < disc.len() && disc[u] && 0 <= j < es.len() && es[j].from == u
                ==> disc[es[j].to] && depths[es[j].to] <= depths[u] + 1,
        0 <= v < disc.len(),
        reach(es, root, v, k),
    ensures
        disc[v] && depths[v] <= k,
    decreases k,
{
    if k > 0 {
        if reach(es, root, v, (k - 1) as nat) {
            lemma_reach_depth_bound(es, root, disc, depths, v, (k - 1) as nat);
        } else {
            let j = choose|j: int|
                0 <= j < es.len() && (#[trigger] es[j]).to == v && reach(
                    es,
                    root,
                    es[j].from,
                    (k - 1) as nat,
                );
            lemma_reach_depth_bound(es, root, disc, depths, es[j].from, (k - 1) as nat);
            assert(disc[es[j].to] && depths[es[j].to] <= depths[es[j].from] + 1);
        }
    }
}

impl Graph {
    /// The depth at which a breadth-first walk from the designated root
    /// first discovers each node: its shortest distance from the root in
    /// edge steps, and nothing for nodes out of reach or where no root is
    /// designated.
    pub fn discovery_depths(&self) -> (r: Vec<Option<usize>>)
        requires
            graph_wf(self@),
        ensures
            r@.len() == self@.nodes.len(),
            self@.root is None ==> forall|v: int| 0 <= v < r@.len() ==> r@[v] is None,
            self@.root matches Some(root) ==> forall|v: int|
                0 <= v < r@.len() ==> (match #[trigger] r@[v] {
                    Some(d) => reach(self@.edges, root, v, d as nat) && (d as int == 0 ==> v
                        == root) && (d as int > 0 ==> !reach(
                        self@.edges,
                        root,
                        v,
                        (d - 1) as nat,
                    )),
                    None => !reachable(self@.edges, root, v),
                }),
    {
        let n = self.nodes.len();
        let r0 = match &self.root {
            Some(r) => *r,
            None => {
                let mut out: Vec<Option<usize>> = Vec::new();
                let mut v: usize = 0;
                while v < n
                    invariant
                        v <= n,
                        out@.len() == v,
                        forall|w: int| 0 <= w < v ==> out@[w] is None,
                    decreases n - v,
                {
                    out.push(None);
                    v = v + 1;
                }
                proof {
                    assert(n == self.nodes@.len());
                }
                return out;
            },
        };
        let ghost es = edge_views(self.edges@);
        let mut disc: Vec<bool> = vec![false; n];
        let mut depths: Vec<usize> = vec![0; n];
        let mut queue: Vec<usize> = Vec::new();
        disc[r0] = true;
        queue.push(r0);
        proof {
            lemma_reachable_root(es, r0 as int);
            assert(queue@[0] == r0);
            assert forall|v: int| 0 <= v < n && disc@[v] implies queue@.contains(v as usize) by {
                assert(v == r0 as int);
                assert(queue@[0] == v as usize);
            }
            assert(reach(es, r0 as int, r0 as int, 0));
        }
        let mut head: usize = 0;
        while head < queue.len()
            invariant
                disc@.len() == n,
                depths@.len() == n,
                r0 < n,
                n == self.nodes@.len(),
                disc@[r0 as int],
                depths@[r0 as int] == 0,
                es == edge_views(self.edges@),
                forall|j: int|
                    0 <= j < es.len() ==> 0 <= (#[trigger] es[j]).from < n && 0 <= es[j].to < n,
                head <= queue@.len(),
                queue@.len() <= n,
                queue@.no_duplicates(),
                forall|qi: int|
                    0 <= qi < queue@.len() ==> (#[trigger] queue@[qi]) < n && disc@[queue@[qi] as int],
                forall|v: int| 0 <= v < n && disc@[v] ==> queue@.contains(v as usize),
                forall|v: int|
                    0 <= v < n && disc@[v] ==> reach(es, r0 as int, v, depths@[v] as nat),
                forall|qi: int|
                    0 <= qi < queue@.len() ==> depths@[(#[trigger] queue@[qi]) as int] <= qi,
                forall|qi: int, qj: int|
                    #![trigger queue@[qi], queue@[qj]]
                    0 <= qi <= qj < queue@.len() ==> depths@[queue@[qi] as int]
                        <= depths@[queue@[qj] as int],
                head < queue@.len() ==> forall|qi: int|
                    0 <= qi < queue@.len() ==> depths@[(#[trigger] queue@[qi]) as int]
                        <= depths@[queue@[head as int] as int] + 1,
                forall|qi: int, j: int|
                    #![trigger queue@[qi], es[j]]
                    0 <= qi < head && 0 <= j < es.len() && es[j].from == queue@[qi] as int
                        ==> disc@[es[j].to] && depths@[es[j].to] <= depths@[queue@[qi] as int] + 1,
            decreases n - head,
        {
            let u = queue[head];
            let du = depths[u];
            let ne = self.edges.len();
            let mut ei: usize = 0;
            while ei < ne
                invariant
                    ne == self.edges@.len(),
                    ei <= ne,
                    disc@.len() == n,
                    depths@.len() == n,
                    r0 < n,
                    disc@[r0 as int],
                    depths@[r0 as int] == 0,
                    u == queue@[head as int],
                    u < n,
                    du == depths@[u as int],
                    head < queue@.len(),
                    es == edge_views(self.edges@),
                    forall|j: int|
                        0 <= j < es.len() ==> 0 <= (#[trigger] es[j]).from < n && 0 <= es[j].to
                            < n,
                    queue@.len() <= n,
                    queue@.no_duplicates(),
                    forall|qi: int|
                        0 <= qi < queue@.len() ==> (#[trigger] queue@[qi]) < n && disc@[queue@[qi] as int],
                    forall|v: int| 0 <= v < n && disc@[v] ==> queue@.contains(v as usize),
                    forall|v: int|
                        0 <= v < n && disc@[v] ==> reach(es, r0 as int, v, depths@[v] as nat),
                    forall|qi: int|
                        0 <= qi < queue@.len() ==> depths@[(#[trigger] queue@[qi]) as int] <= qi,
                    forall|qi: int, qj: int|
                        #![trigger queue@[qi], queue@[qj]]
                        0 <= qi <= qj < queue@.len() ==> depths@[queue@[qi] as int]
                            <= depths@[queue@[qj] as int],
                    forall|qi: int|
                        0 <= qi < queue@.len() ==> depths@[(#[trigger] queue@[qi]) as int] <= du
                            + 1,
                    forall|qi: int, j: int|
                        #![trigger queue@[qi], es[j]]
                        0 <= qi < head && 0 <= j < es.len() && es[j].from == queue@[qi] as int
                            ==> disc@[es[j].to] && depths@[es[j].to] <= depths@[queue@[qi] as int]
                            + 1,
                    forall|j: int|
                        0 <= j < ei && (#[trigger] es[j]).from == u as int ==> disc@[es[j].to]
                            && depths@[es[j].to] <= du + 1,
                decreases ne - ei,
            {
                let e_from = self.edges[ei].from;
                let e_to = self.edges[ei].to;
                proof {
                    assert(es[ei as int] == self.edges@[ei as int]@);
                }
                if e_from == u && !disc[e_to] {
                    let ghost q0 = queue@;
                    let ghost d0 = disc@;
                    disc[e_to] = true;
                    depths[e_to] = du + 1;
                    queue.push(e_to);
                    proof {
                        assert(reach(es, r0 as int, u as int, depths@[u as int] as nat));
                        assert(reach(es, r0 as int, e_to as int, (du + 1) as nat));
                        assert forall|qi: int| 0 <= qi < q0.len() implies q0[qi] != e_to by {
                            assert(d0[q0[qi] as int]);
                        }
                        assert(queue@.no_duplicates()) by {
                            assert(forall|qi: int|
                                0 <= qi < q0.len() ==> queue@[qi] == #[trigger] q0[qi]);
                            assert(queue@[q0.len() as int] == e_to);
                        }
                        lemma_bounded_unique_len(queue@, n as int);
                        assert forall|v: int| 0 <= v < n && disc@[v] implies queue@.contains(
                            v as usize,
                        ) by {
                            if v == e_to as int {
                                assert(queue@[q0.len() as int] == v as usize);
                            } else {
                                assert(d0[v]);
                                let qi = choose|qi: int|
                                    0 <= qi < q0.len() && q0[qi] == v as usize;
                                assert(queue@[qi] == v as usize);
                            }
                        }
                        assert(depths@[queue@[head as int] as int] == du);
                        assert(queue@[q0.len() as int] == e_to);
                        assert(depths@[e_to as int] == du + 1);
                        assert(head < q0.len());
                    }
                }
                ei = ei + 1;
            }
            head = head + 1;
            proof {
                if head < queue.len() {
                    assert(depths@[queue@[head as int - 1] as int] <= depths@[queue@[head as int] as int]);
                }
            }
        }
        proof {
            assert forall|v: int| 0 <= v < n implies disc@[v] == reachable(es, r0 as int, v) by {
                if disc@[v] {
                } else {
                    if reachable(es, r0 as int, v) {
                        let k = choose|k: nat| reach(es, r0 as int, v, k);
                        assert forall|u: int, j: int|
                            #![trigger disc@[u], es[j]]
                            0 <= u < disc@.len() && disc@[u] && 0 <= j < es.len() && es[j].from
                                == u implies disc@[es[j].to] by {
                            assert(queue@.contains(u as usize));
                            let qi = choose|qi: int|
                                0 <= qi < queue@.len() && queue@[qi] == u as usize;
                            assert(disc@[es[j].to]);
                        }
                        lemma_reach_in_closed(es, r0 as int, disc@, v, k);
                    }
                }
            }
            assert forall|u: int, j: int|
                #![trigger disc@[u], es[j]]
                0 <= u < disc@.len() && disc@[u] && 0 <= j < es.len() && es[j].from
                    == u implies disc@[es[j].to] && depths@[es[j].to] as int <= depths@[u] as int
                + 1 by {
                assert(queue@.contains(u as usize));
                let qi = choose|qi: int| 0 <= qi < queue@.len() && queue@[qi] == u as usize;
                assert(disc@[es[j].to] && depths@[es[j].to] <= depths@[queue@[qi] as int] + 1);
            }
        }
        let ghost depth_ints = depths@.map_values(|d: usize| d as int);
        let mut out: Vec<Option<usize>> = Vec::new();
        let mut v: usize = 0;
        while v < n
            invariant
                v <= n,
                n == self.nodes@.len(),
                disc@.len() == n,
                depths@.len() == n,
                r0 < n,
                disc@[r0 as int],
                depths@[r0 as int] == 0,
                es == edge_views(self.edges@),
                self@.root == Some(r0 as int),
                forall|j: int|
                    0 <= j < es.len() ==> 0 <= (#[trigger] es[j]).from < n && 0 <= es[j].to < n,
                forall|w: int| 0 <= w < n ==> disc@[w] == reachable(es, r0 as int, w),
                forall|w: int|
                    0 <= w < n && disc@[w] ==> reach(es, r0 as int, w, depths@[w] as nat),
                forall|u: int, j: int|
                    #![trigger disc@[u], es[j]]
                    0 <= u < disc@.len() && disc@[u] && 0 <= j < es.len() && es[j].from == u
                        ==> disc@[es[j].to] && depths@[es[j].to] as int <= depths@[u] as int + 1,
                out@.len() == v,
                forall|w: int|
                    0 <= w < v ==> (match #[trigger] out@[w] {
                        Some(d) => reach(es, r0 as int, w, d as nat) && (d as int == 0 ==> w
                            == r0 as int) && (d as int > 0 ==> !reach(
                            es,
                            r0 as int,
                            w,
                            (d - 1) as nat,
                        )),
                        None => !reachable(es, r0 as int, w),
                    }),
            decreases n - v,
        {
            if disc[v] {
                let d = depths[v];
                proof {
                    if d > 0 && reach(es, r0 as int, v as int, (d - 1) as nat) {
                        let ghost di = depths@.map_values(|x: usize| x as int);
                        assert(forall|w: int| 0 <= w < n ==> di[w] == depths@[w] as int);
                        assert(di[r0 as int] == 0);
                        lemma_reach_depth_bound(
                            es,
                            r0 as int,
                            disc@,
                            di,
                            v as int,
                            (d - 1) as nat,
                        );
                        assert(di[v as int] <= d - 1);
                        assert(false);
                    }
                    if d == 0 {
                        assert(reach(es, r0 as int, v as int, 0));
                    }
                }
                out.push(Some(d));
            } else {
                out.push(None);
            }
            v = v + 1;
        }
        out
    }
}

/// Build the dependency graph of a document: one arena slot per package,
/// one edge per (source, target, kind) a resolved node reports, kinds
/// deduplicated per entry, development edges dropped on request, and the
/// whole graph pruned to what the designated root reaches.
pub fn build(args: &Args, doc: &Document) -> (r: Result<Graph, TreeError>)
    ensures
        match r {
            Ok(g) => spec_build(doc@, args@.no_dev_dependencies) == Ok::<GraphV, ErrV>(g@)
                && graph_wf(g@),
            Err(e) => spec_build(doc@, args@.no_dev_dependencies) == Err::<GraphV, ErrV>(e@),
        },
{
    let no_dev = args.no_dev_dependencies;
    let edges = match collect_edges(no_dev, doc) {
        Ok(es) => es,
        Err(e) => {
            return Err(e);
        },
    };
    let n = doc.packages.len();
    proof {
        assert(doc@.packages.len() == n as int);
    }
    match &doc.root {
        None => {
            let nodes = copy_packages(&doc.packages);
            let g = Graph { nodes, edges, root: None };
            proof {
                assert(g@.nodes =~= doc@.packages);
                assert(graph_wf(g@));
                assert(spec_build(doc@, no_dev) == Ok::<GraphV, ErrV>(g@));
            }
            Ok(g)
        },
        Some(rid) => {
            let r0 = match find_pkg_index(&doc.packages, rid) {
                Some(i) => i,
                None => {
                    proof {
                        assert(rid@ == doc@.root->0);
                        assert(!doc_ok(doc@));
                    }
                    return Err(TreeError::MalformedInput);
                },
            };
            let ghost es = edge_views(edges@);
            let disc = mark_reachable(n, &edges, r0);
            // compact the arena to the reachable slots
            let mut new_nodes: Vec<Package> = Vec::new();
            let mut remap: Vec<usize> = Vec::new();
            let mut v: usize = 0;
            while v < n
                invariant
                    v <= n,
                    n == doc.packages@.len(),
                    disc@.len() == n,
                    es == edge_views(edges@),
                    forall|w: int| 0 <= w < n ==> disc@[w] == reachable(es, r0 as int, w),
                    pkg_views(new_nodes@) == retained_nodes_upto(
                        doc@.packages,
                        es,
                        r0 as int,
                        v as int,
                    ),
                    new_nodes@.len() == rank(es, r0 as int, v as int),
                    remap@.len() == v,
                    forall|w: int|
                        0 <= w < v && disc@[w] ==> (#[trigger] remap@[w]) as int == rank(
                            es,
                            r0 as int,
                            w,
                        ),
                decreases n - v,
            {
                proof {
                    lemma_retained_len(doc@.packages, es, r0 as int, v as int + 1);
                }
                if disc[v] {
                    remap.push(new_nodes.len());
                    new_nodes.push(doc.packages[v].duplicate());
                    proof {
                        assert(pkg_views(new_nodes@) =~= retained_nodes_upto(
                            doc@.packages,
                            es,
                            r0 as int,
                            v as int + 1,
                        ));
                    }
                } else {
                    remap.push(0);
                    proof {
                        assert(pkg_views(new_nodes@) =~= retained_nodes_upto(
                            doc@.packages,
                            es,
                            r0 as int,
                            v as int + 1,
                        ));
                    }
                }
                v = v + 1;
            }
            // keep the edges between surviving slots, renumbered
            let ne = edges.len();
            let mut new_edges: Vec<Edge> = Vec::new();
            let mut ei: usize = 0;
            while ei < ne
                invariant
                    ei <= ne,
                    ne == edges@.len(),
                    n == doc.packages@.len(),
                    disc@.len() == n,
                    es == edge_views(edges@),
                    forall|j: int|
                        0 <= j < edges@.len() ==> (#[trigger] edges@[j]).from < n && edges@[j].to
                            < n,
                    forall|w: int| 0 <= w < n ==> disc@[w] == reachable(es, r0 as int, w),
                    remap@.len() == n,
                    forall|w: int|
                        0 <= w < n && disc@[w] ==> (#[trigger] remap@[w]) as int == rank(
                            es,
                            r0 as int,
                            w,
                        ),
                    edge_views(new_edges@) == retained_edges_upto(es, r0 as int, ei as int),
                    forall|j: int|
                        0 <= j < new_edges@.len() ==> 0 <= (#[trigger] new_edges@[j]@).from < rank(
                            es,
                            r0 as int,
                            n as int,
                        ) && 0 <= new_edges@[j]@.to < rank(es, r0 as int, n as int),
                decreases ne - ei,
            {
                let e_from = edges[ei].from;
                let e_to = edges[ei].to;
                let e_kind = edges[ei].kind;
                proof {
                    assert(es[ei as int] == edges@[ei as int]@);
                }
                if disc[e_from] && disc[e_to] {
                    let ghost before = edge_views(new_edges@);
                    new_edges.push(Edge { from: remap[e_from], to: remap[e_to], kind: e_kind });
                    proof {
                        lemma_rank_reachable_lt(es, r0 as int, e_from as int, n as int);
                        lemma_rank_reachable_lt(es, r0 as int, e_to as int, n as int);
                        assert(edge_views(new_edges@) =~= before.push(
                            EdgeV {
                                from: rank(es, r0 as int, e_from as int),
                                to: rank(es, r0 as int, e_to as int),
                                kind: e_kind,
                            },
                        ));
                        assert(edge_views(new_edges@) =~= retained_edges_upto(
                            es,
                            r0 as int,
                            ei as int + 1,
                        ));
                    }
                } else {
                    proof {
                        assert(edge_views(new_edges@) =~= retained_edges_upto(
                            es,
                            r0 as int,
                            ei as int + 1,
                        ));
                    }
                }
                ei = ei + 1;
            }
            let new_root = remap[r0];
            proof {
                lemma_reachable_root(es, r0 as int);
            }
            let g = Graph { nodes: new_nodes, edges: new_edges, root: Some(new_root) };
            proof {
                lemma_rank_reachable_lt(es, r0 as int, r0 as int, n as int);
                assert(g@.nodes.len() == rank(es, r0 as int, n as int));
                assert(graph_wf(g@));
                assert(es == doc_edges(doc@, no_dev));
                assert(find_pkg(doc@.packages, doc@.root->0) == r0 as int);
                assert(g@ =~= spec_build(doc@, no_dev)->Ok_0);
                assert(spec_build(doc@, no_dev) == Ok::<GraphV, ErrV>(g@));
            }
            Ok(g)
        },
    }
}

} // verus!
