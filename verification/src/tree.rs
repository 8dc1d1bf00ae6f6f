//! The tree renderer: walks the graph from a root in a chosen direction
//! and emits one line per visit, grouped by dependency kind, sorted for
//! determinism, truncated on revisits and at the depth limit.

use vstd::prelude::*;
use crate::args::Args;
use crate::args::ArgsV;
use crate::args::Charset;
use crate::common::DepKind;
use crate::errors::ErrV;
use crate::errors::TreeError;
use crate::format::ChunkV;
use crate::format::Pattern;
use crate::format::dec_chars;
use crate::format::push_u64;
use crate::format::spec_display;
use crate::format::spec_pattern;
use crate::graph::EdgeV;
use crate::graph::Graph;
use crate::graph::GraphV;
use crate::graph::find_pkg;
use crate::graph::find_pkg_index;
use crate::graph::graph_wf;
use crate::ident::IdV;
use crate::ident::PackageId;
use crate::ident::Version;
use crate::ident::VersionV;
use crate::ident::id_lt;
use crate::ident::lemma_id_lt_or_ge;
use crate::ident::lemma_id_lt_trans;
use crate::ident::parse_version;
use crate::ident::parsed_version;
use crate::ident::str_eq;
use crate::metadata::Package;
use crate::metadata::PackageV;

verus! {

// ---------------------------------------------------------------------------
// Render configuration
// ---------------------------------------------------------------------------

/// Which endpoint of an edge counts as the child.
#[derive(Clone, Copy, PartialEq, Eq, Structural, Debug)]
pub enum Direction {
    Outgoing,
    Incoming,
}

/// How each line is prefixed.
#[derive(Clone, Copy, PartialEq, Eq, Structural, Debug)]
pub enum PrefixStyle {
    /// No prefix: a flat list.
    Plain,
    /// Box-drawing connectors reproducing the parent chain.
    Indent,
    /// The current depth and a space.
    Depth,
}

/// Mathematical value of a glyph set.
#[verifier::ext_equal]
pub struct SymV {
    pub down: Seq<char>,
    pub tee: Seq<char>,
    pub ell: Seq<char>,
    pub right: Seq<char>,
}

/// The four connector glyphs of the indented style.
pub struct Symbols {
    pub down: &'static str,
    pub tee: &'static str,
    pub ell: &'static str,
    pub right: &'static str,
}

impl View for Symbols {
    type V = SymV;

    open spec fn view(&self) -> SymV {
        SymV { down: self.down@, tee: self.tee@, ell: self.ell@, right: self.right@ }
    }
}

/// The glyphs a charset selects; cosmetic only.
pub open spec fn glyphs(c: Charset) -> SymV {
    match c {
        Charset::Utf8 => SymV { down: "│"@, tee: "├"@, ell: "└"@, right: "─"@ },
        Charset::Ascii => SymV { down: "|"@, tee: "|"@, ell: "`"@, right: "-"@ },
    }
}

pub fn symbols(c: Charset) -> (r: Symbols)
    ensures
        r@ == glyphs(c),
{
    match c {
        Charset::Utf8 => Symbols { down: "│", tee: "├", ell: "└", right: "─" },
        Charset::Ascii => Symbols { down: "|", tee: "|", ell: "`", right: "-" },
    }
}

/// Everything one render call depends on besides the graph, the root and
/// the display pattern.
pub struct RenderConfig {
    pub direction: Direction,
    pub prefix: PrefixStyle,
    pub charset: Charset,
    /// Expand every path in full instead of truncating revisits.
    pub all: bool,
    /// Nodes at this depth still print but are not expanded.
    pub depth_limit: Option<usize>,
}

/// Mathematical value of a render call's configuration, pattern included.
#[verifier::ext_equal]
pub struct CfgV {
    pub direction: Direction,
    pub prefix: PrefixStyle,
    pub sym: SymV,
    pub all: bool,
    pub depth_limit: Option<int>,
    pub pattern: Seq<ChunkV>,
}

pub open spec fn cfg_view(c: RenderConfig, pattern: Seq<ChunkV>) -> CfgV {
    CfgV {
        direction: c.direction,
        prefix: c.prefix,
        sym: glyphs(c.charset),
        all: c.all,
        depth_limit: match c.depth_limit {
            Some(d) => Some(d as int),
            None => None,
        },
        pattern,
    }
}

pub open spec fn out_views(s: Seq<String>) -> Seq<Seq<char>> {
    s.map_values(|x: String| x@)
}

// ---------------------------------------------------------------------------
// Children of a node, grouped by kind and sorted
// ---------------------------------------------------------------------------

/// The child an edge contributes to node `i` under a direction and kind.
pub open spec fn edge_child(e: EdgeV, dir: Direction, i: int, kind: DepKind) -> Option<int> {
    if e.kind == kind {
        match dir {
            Direction::Outgoing => if e.from == i {
                Some(e.to)
            } else {
                None
            },
            Direction::Incoming => if e.to == i {
                Some(e.from)
            } else {
                None
            },
        }
    } else {
        None
    }
}

pub open spec fn raw_kids_upto(g: GraphV, dir: Direction, i: int, kind: DepKind, j: int) -> Seq<
    int,
>
    decreases j,
{
    if j <= 0 {
        Seq::empty()
    } else {
        raw_kids_upto(g, dir, i, kind, j - 1) + (match edge_child(g.edges[j - 1], dir, i, kind) {
            Some(c) => seq![c],
            None => Seq::empty(),
        })
    }
}

/// The children of `i` in edge order, before sorting.
pub open spec fn raw_kids(g: GraphV, dir: Direction, i: int, kind: DepKind) -> Seq<int> {
    raw_kids_upto(g, dir, i, kind, g.edges.len() as int)
}

/// Insert a node index into a list sorted by identity, after everything
/// not greater, so that the sort below is stable.
pub open spec fn sorted_insert(g: GraphV, s: Seq<int>, x: int) -> Seq<int>
    decreases s.len(),
{
    if s.len() == 0 {
        seq![x]
    } else if id_lt(g.nodes[x].id, g.nodes[s[0]].id) {
        seq![x] + s
    } else {
        seq![s[0]] + sorted_insert(g, s.drop_first(), x)
    }
}

/// Stable insertion sort of node indices by full package identity.
pub open spec fn sort_kids(g: GraphV, s: Seq<int>) -> Seq<int>
    decreases s.len(),
{
    if s.len() == 0 {
        Seq::empty()
    } else {
        sorted_insert(g, sort_kids(g, s.drop_last()), s.last())
    }
}

/// The children of `i`: matching edge endpoints, sorted by identity.
pub open spec fn spec_kids(g: GraphV, dir: Direction, i: int, kind: DepKind) -> Seq<int> {
    sort_kids(g, raw_kids(g, dir, i, kind))
}

pub open spec fn usize_views(s: Seq<usize>) -> Seq<int> {
    s.map_values(|x: usize| x as int)
}

fn collect_kids(g: &Graph, dir: Direction, i: usize, kind: DepKind) -> (r: Vec<usize>)
    requires
        graph_wf(g@),
    ensures
        usize_views(r@) == raw_kids(g@, dir, i as int, kind),
        forall|k: int| 0 <= k < r@.len() ==> (#[trigger] r@[k]) < g@.nodes.len(),
{
    let ne = g.edges.len();
    let mut out: Vec<usize> = Vec::new();
    let mut j: usize = 0;
    proof {
        assert(usize_views(out@) =~= raw_kids_upto(g@, dir, i as int, kind, 0));
    }
    while j < ne
        invariant
            j <= ne,
            ne == g.edges@.len(),
            graph_wf(g@),
            usize_views(out@) == raw_kids_upto(g@, dir, i as int, kind, j as int),
            forall|k: int| 0 <= k < out@.len() ==> (#[trigger] out@[k]) < g@.nodes.len(),
        decreases ne - j,
    {
        let e = &g.edges[j];
        proof {
            assert(g@.edges[j as int] == g.edges@[j as int]@);
        }
        let child: Option<usize> = if e.kind == kind {
            match dir {
                Direction::Outgoing => if e.from == i {
                    Some(e.to)
                } else {
                    None
                },
                Direction::Incoming => if e.to == i {
                    Some(e.from)
                } else {
                    None
                },
            }
        } else {
            None
        };
        let ghost before = usize_views(out@);
        match child {
            Some(c) => {
                out.push(c);
                proof {
                    assert(usize_views(out@) =~= before.push(c as int));
                    assert(usize_views(out@) =~= raw_kids_upto(g@, dir, i as int, kind, j as int
                        + 1));
                }
            },
            None => {
                proof {
                    assert(usize_views(out@) =~= raw_kids_upto(g@, dir, i as int, kind, j as int
                        + 1));
                }
            },
        }
        j = j + 1;
    }
    out
}

proof fn lemma_sorted_insert_at(g: GraphV, s: Seq<int>, x: int, p: int)
    requires
        0 <= p <= s.len(),
        forall|k: int| 0 <= k < p ==> !id_lt(g.nodes[x].id, g.nodes[#[trigger] s[k]].id),
        p < s.len() ==> id_lt(g.nodes[x].id, g.nodes[s[p]].id),
    ensures
        sorted_insert(g, s, x) == s.take(p) + seq![x] + s.skip(p),
    decreases p,
{
    if p == 0 {
        if s.len() == 0 {
            assert(sorted_insert(g, s, x) =~= s.take(0) + seq![x] + s.skip(0));
        } else {
            assert(sorted_insert(g, s, x) =~= s.take(0) + seq![x] + s.skip(0));
        }
    } else {
        assert(!id_lt(g.nodes[x].id, g.nodes[s[0]].id));
        lemma_sorted_insert_at(g, s.drop_first(), x, p - 1);
        assert(s.drop_first().take(p - 1) =~= s.take(p).drop_first());
        assert(s.drop_first().skip(p - 1) =~= s.skip(p));
        assert(seq![s[0]] + (s.drop_first().take(p - 1) + seq![x] + s.drop_first().skip(p - 1))
            =~= s.take(p) + seq![x] + s.skip(p));
    }
}

fn sort_kids_exec(g: &Graph, kids: &Vec<usize>) -> (r: Vec<usize>)
    requires
        graph_wf(g@),
        forall|k: int| 0 <= k < kids@.len() ==> (#[trigger] kids@[k]) < g@.nodes.len(),
    ensures
        usize_views(r@) == sort_kids(g@, usize_views(kids@)),
        forall|k: int| 0 <= k < r@.len() ==> (#[trigger] r@[k]) < g@.nodes.len(),
{
    let n = kids.len();
    let mut out: Vec<usize> = Vec::new();
    let mut j: usize = 0;
    proof {
        assert(usize_views(kids@).take(0) =~= Seq::<int>::empty());
        assert(usize_views(out@) =~= sort_kids(g@, usize_views(kids@).take(0)));
    }
    while j < n
        invariant
            j <= n,
            n == kids@.len(),
            graph_wf(g@),
            forall|k: int| 0 <= k < kids@.len() ==> (#[trigger] kids@[k]) < g@.nodes.len(),
            usize_views(out@) == sort_kids(g@, usize_views(kids@).take(j as int)),
            forall|k: int| 0 <= k < out@.len() ==> (#[trigger] out@[k]) < g@.nodes.len(),
        decreases n - j,
    {
        let x = kids[j];
        let m = out.len();
        let mut p: usize = 0;
        while p < m
            invariant_except_break
                p <= m,
                m == out@.len(),
                graph_wf(g@),
                x < g@.nodes.len(),
                forall|k: int| 0 <= k < out@.len() ==> (#[trigger] out@[k]) < g@.nodes.len(),
                forall|k: int|
                    0 <= k < p ==> !id_lt(
                        g@.nodes[x as int].id,
                        g@.nodes[usize_views(out@)[k]].id,
                    ),
            ensures
                p <= m,
                forall|k: int|
                    0 <= k < p ==> !id_lt(
                        g@.nodes[x as int].id,
                        g@.nodes[usize_views(out@)[k]].id,
                    ),
                p < m ==> id_lt(g@.nodes[x as int].id, g@.nodes[usize_views(out@)[p as int]].id),
            decreases m - p,
        {
            if g.nodes[x].id.lt(&g.nodes[out[p]].id) {
                break;
            }
            p = p + 1;
        }
        let ghost before = usize_views(out@);
        out.insert(p, x);
        proof {
            lemma_sorted_insert_at(g@, before, x as int, p as int);
            assert(usize_views(out@) =~= before.take(p as int) + seq![x as int] + before.skip(
                p as int,
            ));
            assert(usize_views(kids@).take(j as int + 1).drop_last() =~= usize_views(kids@).take(
                j as int,
            ));
            assert(usize_views(kids@).take(j as int + 1).last() == kids@[j as int] as int);
            assert(usize_views(out@) =~= sort_kids(g@, usize_views(kids@).take(j as int + 1)));
        }
        j = j + 1;
    }
    proof {
        assert(usize_views(kids@).take(n as int) =~= usize_views(kids@));
    }
    out
}

// ---------------------------------------------------------------------------
// Counting the ancestor path
// ---------------------------------------------------------------------------

pub open spec fn count_trues(s: Seq<bool>) -> int
    decreases s.len(),
{
    if s.len() == 0 {
        0
    } else {
        count_trues(s.drop_last()) + if s.last() {
            1int
        } else {
            0int
        }
    }
}

pub proof fn lemma_count_bounds(s: Seq<bool>)
    ensures
        0 <= count_trues(s) <= s.len(),
    decreases s.len(),
{
    if s.len() > 0 {
        lemma_count_bounds(s.drop_last());
    }
}

pub proof fn lemma_count_zero(s: Seq<bool>)
    requires
        forall|i: int| 0 <= i < s.len() ==> !s[i],
    ensures
        count_trues(s) == 0,
    decreases s.len(),
{
    if s.len() > 0 {
        lemma_count_zero(s.drop_last());
    }
}

pub proof fn lemma_count_update_true(s: Seq<bool>, i: int)
    requires
        0 <= i < s.len(),
        !s[i],
    ensures
        count_trues(s.update(i, true)) == count_trues(s) + 1,
    decreases s.len(),
{
    if i == s.len() - 1 {
        assert(s.update(i, true).drop_last() =~= s.drop_last());
        assert(s.update(i, true).last());
    } else {
        lemma_count_update_true(s.drop_last(), i);
        assert(s.update(i, true).drop_last() =~= s.drop_last().update(i, true));
        assert(s.update(i, true).last() == s.last());
    }
}

pub proof fn lemma_count_some_false(s: Seq<bool>, i: int)
    requires
        0 <= i < s.len(),
        !s[i],
    ensures
        count_trues(s) < s.len(),
{
    lemma_count_update_true(s, i);
    lemma_count_bounds(s.update(i, true));
    assert(s.update(i, true).len() == s.len());
}

// ---------------------------------------------------------------------------
// Line construction
// ---------------------------------------------------------------------------

/// The continuation glyphs of every ancestor level: a vertical bar where
/// a later sibling remains at that level, a blank where not.
pub open spec fn cont_lead(levels: Seq<bool>, sym: SymV) -> Seq<char>
    decreases levels.len(),
{
    if levels.len() == 0 {
        Seq::empty()
    } else {
        cont_lead(levels.drop_last(), sym) + (if levels.last() {
            sym.down
        } else {
            " "@
        }) + "   "@
    }
}

/// The prefix of the indented style: continuation glyphs for the outer
/// levels, then a tee where siblings follow, an ell where not.
pub open spec fn indent_prefix(levels: Seq<bool>, sym: SymV) -> Seq<char> {
    if levels.len() == 0 {
        Seq::empty()
    } else {
        cont_lead(levels.drop_last(), sym) + (if levels.last() {
            sym.tee
        } else {
            sym.ell
        }) + sym.right + sym.right + " "@
    }
}

/// The prefix a style puts before one node's label at one position.
pub open spec fn line_prefix(cfg: CfgV, levels: Seq<bool>) -> Seq<char> {
    match cfg.prefix {
        PrefixStyle::Plain => Seq::empty(),
        PrefixStyle::Depth => dec_chars(levels.len() as int) + " "@,
        PrefixStyle::Indent => indent_prefix(levels, cfg.sym),
    }
}

/// One whole output line: prefix, label, and the truncation marker where
/// the node's subtree is not repeated.
pub open spec fn spec_line(cfg: CfgV, levels: Seq<bool>, p: PackageV, star: bool) -> Seq<char> {
    line_prefix(cfg, levels) + spec_display(cfg.pattern, p) + (if star {
        " (*)"@
    } else {
        Seq::empty()
    })
}

fn append_cont_lead(out: &mut String, levels: &Vec<bool>, upto: usize, sym: &Symbols)
    requires
        upto <= levels@.len(),
    ensures
        final(out)@ == old(out)@ + cont_lead(levels@.take(upto as int), sym@),
{
    let mut j: usize = 0;
    proof {
        assert(levels@.take(0) =~= Seq::<bool>::empty());
        assert(out@ =~= old(out)@ + cont_lead(levels@.take(0), sym@));
    }
    while j < upto
        invariant
            j <= upto,
            upto <= levels@.len(),
            out@ == old(out)@ + cont_lead(levels@.take(j as int), sym@),
        decreases upto - j,
    {
        if levels[j] {
            out.append(sym.down);
        } else {
            out.append(" ");
        }
        out.append("   ");
        proof {
            assert(levels@.take(j as int + 1).drop_last() =~= levels@.take(j as int));
            assert(levels@.take(j as int + 1).last() == levels@[j as int]);
            assert(out@ =~= old(out)@ + cont_lead(levels@.take(j as int + 1), sym@));
        }
        j = j + 1;
    }
}

fn make_line(
    cfg: &RenderConfig,
    sym: &Symbols,
    pattern: &Pattern,
    pkg: &Package,
    levels: &Vec<bool>,
    star: bool,
) -> (r: String)
    requires
        sym@ == glyphs(cfg.charset),
    ensures
        r@ == spec_line(cfg_view(*cfg, pattern@), levels@, pkg@, star),
{
    let ghost cfgv = cfg_view(*cfg, pattern@);
    let mut out = String::new();
    match cfg.prefix {
        PrefixStyle::Plain => {},
        PrefixStyle::Depth => {
            push_u64(&mut out, levels.len() as u64);
            out.append(" ");
        },
        PrefixStyle::Indent => {
            let ll = levels.len();
            if ll > 0 {
                append_cont_lead(&mut out, levels, ll - 1, sym);
                if levels[ll - 1] {
                    out.append(sym.tee);
                } else {
                    out.append(sym.ell);
                }
                out.append(sym.right);
                out.append(sym.right);
                out.append(" ");
                proof {
                    assert(levels@.take(ll as int - 1) =~= levels@.drop_last());
                }
            }
        },
    }
    proof {
        assert(out@ =~= line_prefix(cfgv, levels@));
    }
    let label = pattern.display(pkg);
    out.append(label.as_str());
    if star {
        out.append(" (*)");
    }
    proof {
        assert(out@ =~= spec_line(cfgv, levels@, pkg@, star));
    }
    out
}

// ---------------------------------------------------------------------------
// What a traversal emits
// ---------------------------------------------------------------------------

pub open spec fn depth_limited(cfg: CfgV, depth: int) -> bool {
    match cfg.depth_limit {
        Some(d) => depth >= d,
        None => false,
    }
}

/// The header line announcing a non-empty group of this kind.
pub open spec fn kind_header(kind: DepKind) -> Seq<char> {
    match kind {
        DepKind::Normal => Seq::empty(),
        DepKind::Build => "[build-dependencies]"@,
        DepKind::Development => "[dev-dependencies]"@,
    }
}

/// The lines one node contributes, and the visited set afterwards. The
/// stop conditions apply in this order: a node at the depth limit prints
/// as a bare leaf; a revisited node (when not showing all) and a node on
/// the current ancestor path print as a leaf with the truncation marker;
/// anything else prints and expands its children, grouped by kind. The
/// fuel only justifies termination: callers pass the number of nodes not
/// yet on the path, which the expansion step never exhausts.
pub open spec fn spec_render_node(
    g: GraphV,
    cfg: CfgV,
    i: int,
    visited: Seq<bool>,
    onpath: Seq<bool>,
    levels: Seq<bool>,
    fuel: nat,
) -> (Seq<Seq<char>>, Seq<bool>)
    decreases fuel, 0int, 0int,
{
    if depth_limited(cfg, levels.len() as int) {
        (seq![spec_line(cfg, levels, g.nodes[i], false)], visited)
    } else if !cfg.all && visited[i] {
        (seq![spec_line(cfg, levels, g.nodes[i], true)], visited)
    } else if onpath[i] {
        (seq![spec_line(cfg, levels, g.nodes[i], true)], visited)
    } else if fuel == 0 {
        (seq![spec_line(cfg, levels, g.nodes[i], false)], visited.update(i, true))
    } else {
        let v1 = visited.update(i, true);
        let p1 = onpath.update(i, true);
        let r1 = spec_render_deps(g, cfg, i, DepKind::Normal, v1, p1, levels, (fuel - 1) as nat);
        let r2 = spec_render_deps(g, cfg, i, DepKind::Build, r1.1, p1, levels, (fuel - 1) as nat);
        let r3 = spec_render_deps(
            g,
            cfg,
            i,
            DepKind::Development,
            r2.1,
            p1,
            levels,
            (fuel - 1) as nat,
        );
        (seq![spec_line(cfg, levels, g.nodes[i], false)] + r1.0 + r2.0 + r3.0, r3.1)
    }
}

/// The lines one kind group of one node contributes: a header where the
/// group is non-empty, indented rendering is on and the kind is not
/// `Normal`, then the children in identity order.
pub open spec fn spec_render_deps(
    g: GraphV,
    cfg: CfgV,
    i: int,
    kind: DepKind,
    visited: Seq<bool>,
    onpath: Seq<bool>,
    levels: Seq<bool>,
    fuel: nat,
) -> (Seq<Seq<char>>, Seq<bool>)
    decreases fuel, 2int, 0int,
{
    let kids = spec_kids(g, cfg.direction, i, kind);
    let r = spec_render_kids(g, cfg, kids, visited, onpath, levels, fuel);
    if kids.len() > 0 && cfg.prefix == PrefixStyle::Indent && kind != DepKind::Normal {
        (seq![cont_lead(levels, cfg.sym) + kind_header(kind)] + r.0, r.1)
    } else {
        r
    }
}

/// The lines a list of children contributes, left to right, threading the
/// visited set; each child knows whether a later sibling follows it.
pub open spec fn spec_render_kids(
    g: GraphV,
    cfg: CfgV,
    kids: Seq<int>,
    visited: Seq<bool>,
    onpath: Seq<bool>,
    levels: Seq<bool>,
    fuel: nat,
) -> (Seq<Seq<char>>, Seq<bool>)
    decreases fuel, 1int, kids.len(),
{
    if kids.len() == 0 {
        (Seq::empty(), visited)
    } else {
        let r1 = spec_render_node(
            g,
            cfg,
            kids[0],
            visited,
            onpath,
            levels.push(kids.len() > 1),
            fuel,
        );
        let r2 = spec_render_kids(g, cfg, kids.drop_first(), r1.1, onpath, levels, fuel);
        (r1.0 + r2.0, r2.1)
    }
}

// ---------------------------------------------------------------------------
// The executable traversal
// ---------------------------------------------------------------------------

fn print_package(
    g: &Graph,
    cfg: &RenderConfig,
    sym: &Symbols,
    pattern: &Pattern,
    i: usize,
    visited: &mut Vec<bool>,
    onpath: &mut Vec<bool>,
    levels: &mut Vec<bool>,
    out: &mut Vec<String>,
)
    requires
        graph_wf(g@),
        i < g@.nodes.len(),
        old(visited)@.len() == g@.nodes.len(),
        old(onpath)@.len() == g@.nodes.len(),
        sym@ == glyphs(cfg.charset),
    ensures
        final(visited)@.len() == old(visited)@.len(),
        final(onpath)@ == old(onpath)@,
        final(levels)@ == old(levels)@,
        ({
            let r = spec_render_node(
                g@,
                cfg_view(*cfg, pattern@),
                i as int,
                old(visited)@,
                old(onpath)@,
                old(levels)@,
                (g@.nodes.len() - count_trues(old(onpath)@)) as nat,
            );
            out_views(final(out)@) == out_views(old(out)@) + r.0 && final(visited)@ == r.1
        }),
    decreases g@.nodes.len() - count_trues(old(onpath)@), 0int, 0int,
{
    let ghost cfgv = cfg_view(*cfg, pattern@);
    let ghost fuel = (g@.nodes.len() - count_trues(old(onpath)@)) as nat;
    proof {
        lemma_count_bounds(onpath@);
    }
    let node = &g.nodes[i];
    proof {
        assert(node@ == g@.nodes[i as int]);
    }
    let limited = match cfg.depth_limit {
        Some(d) => levels.len() >= d,
        None => false,
    };
    if limited {
        let line = make_line(cfg, sym, pattern, node, levels, false);
        let ghost b = out_views(out@);
        out.push(line);
        proof {
            assert(out_views(out@) =~= b.push(spec_line(cfgv, levels@, g@.nodes[i as int], false)));
        }
        return;
    }
    if !cfg.all && visited[i] {
        let line = make_line(cfg, sym, pattern, node, levels, true);
        let ghost b = out_views(out@);
        out.push(line);
        proof {
            assert(out_views(out@) =~= b.push(spec_line(cfgv, levels@, g@.nodes[i as int], true)));
        }
        return;
    }
    if onpath[i] {
        let line = make_line(cfg, sym, pattern, node, levels, true);
        let ghost b = out_views(out@);
        out.push(line);
        proof {
            assert(out_views(out@) =~= b.push(spec_line(cfgv, levels@, g@.nodes[i as int], true)));
        }
        return;
    }
    proof {
        lemma_count_some_false(onpath@, i as int);
        lemma_count_update_true(onpath@, i as int);
    }
    visited[i] = true;
    onpath[i] = true;
    let line = make_line(cfg, sym, pattern, node, levels, false);
    let ghost out0 = out_views(out@);
    out.push(line);
    proof {
        assert(out_views(out@) =~= out0.push(spec_line(cfgv, levels@, g@.nodes[i as int], false)));
    }
    let ghost v1 = visited@;
    let ghost p1 = onpath@;
    print_dependencies(g, cfg, sym, pattern, i, DepKind::Normal, visited, onpath, levels, out);
    let ghost r1 = spec_render_deps(
        g@,
        cfgv,
        i as int,
        DepKind::Normal,
        v1,
        p1,
        levels@,
        (fuel - 1) as nat,
    );
    print_dependencies(g, cfg, sym, pattern, i, DepKind::Build, visited, onpath, levels, out);
    let ghost r2 = spec_render_deps(
        g@,
        cfgv,
        i as int,
        DepKind::Build,
        r1.1,
        p1,
        levels@,
        (fuel - 1) as nat,
    );
    print_dependencies(
        g,
        cfg,
        sym,
        pattern,
        i,
        DepKind::Development,
        visited,
        onpath,
        levels,
        out,
    );
    let ghost r3 = spec_render_deps(
        g@,
        cfgv,
        i as int,
        DepKind::Development,
        r2.1,
        p1,
        levels@,
        (fuel - 1) as nat,
    );
    onpath[i] = false;
    proof {
        assert(onpath@ =~= old(onpath)@);
        let r = spec_render_node(
            g@,
            cfgv,
            i as int,
            old(visited)@,
            old(onpath)@,
            old(levels)@,
            fuel,
        );
        assert(r.0 =~= seq![spec_line(cfgv, old(levels)@, g@.nodes[i as int], false)] + r1.0 + r2.0
            + r3.0);
        assert(out_views(out@) =~= out_views(old(out)@) + r.0);
        assert(visited@ == r.1);
    }
}

fn print_dependencies(
    g: &Graph,
    cfg: &RenderConfig,
    sym: &Symbols,
    pattern: &Pattern,
    i: usize,
    kind: DepKind,
    visited: &mut Vec<bool>,
    onpath: &mut Vec<bool>,
    levels: &mut Vec<bool>,
    out: &mut Vec<String>,
)
    requires
        graph_wf(g@),
        i < g@.nodes.len(),
        old(visited)@.len() == g@.nodes.len(),
        old(onpath)@.len() == g@.nodes.len(),
        sym@ == glyphs(cfg.charset),
    ensures
        final(visited)@.len() == old(visited)@.len(),
        final(onpath)@ == old(onpath)@,
        final(levels)@ == old(levels)@,
        ({
            let r = spec_render_deps(
                g@,
                cfg_view(*cfg, pattern@),
                i as int,
                kind,
                old(visited)@,
                old(onpath)@,
                old(levels)@,
                (g@.nodes.len() - count_trues(old(onpath)@)) as nat,
            );
            out_views(final(out)@) == out_views(old(out)@) + r.0 && final(visited)@ == r.1
        }),
    decreases g@.nodes.len() - count_trues(old(onpath)@), 2int, 0int,
{
    let ghost cfgv = cfg_view(*cfg, pattern@);
    let raw = collect_kids(g, cfg.direction, i, kind);
    let kids = sort_kids_exec(g, &raw);
    proof {
        assert(usize_views(kids@) == spec_kids(g@, cfgv.direction, i as int, kind));
    }
    if kids.len() > 0 {
        let header: Option<&'static str> = match kind {
            DepKind::Normal => None,
            DepKind::Build => Some("[build-dependencies]"),
            DepKind::Development => Some("[dev-dependencies]"),
        };
        if let PrefixStyle::Indent = cfg.prefix {
            match header {
                Some(h) => {
                    let mut hl = String::new();
                    append_cont_lead(&mut hl, levels, levels.len(), sym);
                    hl.append(h);
                    let ghost b = out_views(out@);
                    out.push(hl);
                    proof {
                        assert(levels@.take(levels@.len() as int) =~= levels@);
                        assert(out_views(out@) =~= b.push(
                            cont_lead(levels@, cfgv.sym) + kind_header(kind),
                        ));
                    }
                },
                None => {},
            }
        }
    }
    print_deps_list(g, cfg, sym, pattern, &kids, 0, visited, onpath, levels, out);
    proof {
        assert(usize_views(kids@).skip(0) =~= usize_views(kids@));
        let r = spec_render_deps(
            g@,
            cfgv,
            i as int,
            kind,
            old(visited)@,
            old(onpath)@,
            old(levels)@,
            (g@.nodes.len() - count_trues(old(onpath)@)) as nat,
        );
        assert(out_views(out@) =~= out_views(old(out)@) + r.0);
    }
}

fn print_deps_list(
    g: &Graph,
    cfg: &RenderConfig,
    sym: &Symbols,
    pattern: &Pattern,
    kids: &Vec<usize>,
    j: usize,
    visited: &mut Vec<bool>,
    onpath: &mut Vec<bool>,
    levels: &mut Vec<bool>,
    out: &mut Vec<String>,
)
    requires
        graph_wf(g@),
        j <= kids@.len(),
        forall|k: int| 0 <= k < kids@.len() ==> (#[trigger] kids@[k]) < g@.nodes.len(),
        old(visited)@.len() == g@.nodes.len(),
        old(onpath)@.len() == g@.nodes.len(),
        sym@ == glyphs(cfg.charset),
    ensures
        final(visited)@.len() == old(visited)@.len(),
        final(onpath)@ == old(onpath)@,
        final(levels)@ == old(levels)@,
        ({
            let r = spec_render_kids(
                g@,
                cfg_view(*cfg, pattern@),
                usize_views(kids@).skip(j as int),
                old(visited)@,
                old(onpath)@,
                old(levels)@,
                (g@.nodes.len() - count_trues(old(onpath)@)) as nat,
            );
            out_views(final(out)@) == out_views(old(out)@) + r.0 && final(visited)@ == r.1
        }),
    decreases g@.nodes.len() - count_trues(old(onpath)@), 1int, kids@.len() - j,
{
    let ghost cfgv = cfg_view(*cfg, pattern@);
    let ghost fuel = (g@.nodes.len() - count_trues(old(onpath)@)) as nat;
    if j == kids.len() {
        proof {
            assert(usize_views(kids@).skip(j as int) =~= Seq::<int>::empty());
            assert(out_views(out@) =~= out_views(out@) + Seq::<Seq<char>>::empty());
        }
        return;
    }
    let has_next = j + 1 < kids.len();
    let ghost rest = usize_views(kids@).skip(j as int);
    proof {
        assert(rest[0] == kids@[j as int] as int);
        assert(rest.len() == kids@.len() - j);
        assert((rest.len() > 1) == has_next);
    }
    levels.push(has_next);
    let ghost levels1 = levels@;
    proof {
        assert(levels1 =~= old(levels)@.push(has_next));
    }
    print_package(g, cfg, sym, pattern, kids[j], visited, onpath, levels, out);
    let ghost r1 = spec_render_node(
        g@,
        cfgv,
        kids@[j as int] as int,
        old(visited)@,
        old(onpath)@,
        levels1,
        fuel,
    );
    levels.pop();
    proof {
        assert(levels@ =~= old(levels)@);
    }
    print_deps_list(g, cfg, sym, pattern, kids, j + 1, visited, onpath, levels, out);
    proof {
        let r2 = spec_render_kids(
            g@,
            cfgv,
            usize_views(kids@).skip(j as int + 1),
            r1.1,
            old(onpath)@,
            old(levels)@,
            fuel,
        );
        assert(rest.drop_first() =~= usize_views(kids@).skip(j as int + 1));
        let r = spec_render_kids(g@, cfgv, rest, old(visited)@, old(onpath)@, old(levels)@, fuel);
        assert(r.0 =~= r1.0 + r2.0);
        assert(out_views(out@) =~= out_views(old(out)@) + r.0);
    }
}

/// The whole tree of one root: every visited set starts empty, the root
/// stands at depth zero, and the fuel is the number of nodes.
pub open spec fn all_false(n: int) -> Seq<bool> {
    Seq::new(n as nat, |x: int| false)
}

pub open spec fn spec_render_root(g: GraphV, cfg: CfgV, root: int) -> Seq<Seq<char>> {
    spec_render_node(
        g,
        cfg,
        root,
        all_false(g.nodes.len() as int),
        all_false(g.nodes.len() as int),
        Seq::empty(),
        g.nodes.len() as nat,
    ).0
}

/// Render one root's tree into its ordered output lines.
pub fn print_tree(graph: &Graph, root: usize, cfg: &RenderConfig, pattern: &Pattern) -> (r: Vec<
    String,
>)
    requires
        graph_wf(graph@),
        root < graph@.nodes.len(),
    ensures
        out_views(r@) == spec_render_root(graph@, cfg_view(*cfg, pattern@), root as int),
{
    let n = graph.nodes.len();
    let sym = symbols(cfg.charset);
    let mut visited: Vec<bool> = vec![false; n];
    let mut onpath: Vec<bool> = vec![false; n];
    let mut levels: Vec<bool> = Vec::new();
    let mut out: Vec<String> = Vec::new();
    proof {
        assert(visited@ =~= all_false(graph@.nodes.len() as int));
        assert(onpath@ =~= all_false(graph@.nodes.len() as int));
        lemma_count_zero(onpath@);
    }
    print_package(
        graph,
        cfg,
        &sym,
        pattern,
        root,
        &mut visited,
        &mut onpath,
        &mut levels,
        &mut out,
    );
    proof {
        assert(out_views(out@) =~= spec_render_root(graph@, cfg_view(*cfg, pattern@), root as int));
    }
    out
}

// ---------------------------------------------------------------------------
// Laws of the traversal
// ---------------------------------------------------------------------------

/// Rendering is deterministic: the output is a function of the graph, the
/// configuration and the root alone, so the same inputs render to
/// byte-identical lines however often the call repeats. The executable
/// renderer ensures its lines equal `spec_render_root`, which this law
/// ties to the inputs.
pub proof fn lemma_render_deterministic(
    g1: GraphV,
    g2: GraphV,
    cfg1: CfgV,
    cfg2: CfgV,
    root1: int,
    root2: int,
)
    requires
        g1 == g2,
        cfg1 == cfg2,
        root1 == root2,
    ensures
        spec_render_root(g1, cfg1, root1) == spec_render_root(g2, cfg2, root2),
{
}

proof fn lemma_show_all_node(
    g: GraphV,
    cfg: CfgV,
    i: int,
    v1: Seq<bool>,
    v2: Seq<bool>,
    onpath: Seq<bool>,
    levels: Seq<bool>,
    fuel: nat,
)
    requires
        cfg.all,
    ensures
        spec_render_node(g, cfg, i, v1, onpath, levels, fuel).0 == spec_render_node(
            g,
            cfg,
            i,
            v2,
            onpath,
            levels,
            fuel,
        ).0,
    decreases fuel, 0int, 0int,
{
    if !depth_limited(cfg, levels.len() as int) && !onpath[i] && fuel > 0 {
        let p1 = onpath.update(i, true);
        let a1 = spec_render_deps(
            g,
            cfg,
            i,
            DepKind::Normal,
            v1.update(i, true),
            p1,
            levels,
            (fuel - 1) as nat,
        );
        let b1 = spec_render_deps(
            g,
            cfg,
            i,
            DepKind::Normal,
            v2.update(i, true),
            p1,
            levels,
            (fuel - 1) as nat,
        );
        lemma_show_all_deps(
            g,
            cfg,
            i,
            DepKind::Normal,
            v1.update(i, true),
            v2.update(i, true),
            p1,
            levels,
            (fuel - 1) as nat,
        );
        let a2 = spec_render_deps(g, cfg, i, DepKind::Build, a1.1, p1, levels, (fuel - 1) as nat);
        let b2 = spec_render_deps(g, cfg, i, DepKind::Build, b1.1, p1, levels, (fuel - 1) as nat);
        lemma_show_all_deps(g, cfg, i, DepKind::Build, a1.1, b1.1, p1, levels, (fuel - 1) as nat);
        lemma_show_all_deps(
            g,
            cfg,
            i,
            DepKind::Development,
            a2.1,
            b2.1,
            p1,
            levels,
            (fuel - 1) as nat,
        );
    }
}

proof fn lemma_show_all_deps(
    g: GraphV,
    cfg: CfgV,
    i: int,
    kind: DepKind,
    v1: Seq<bool>,
    v2: Seq<bool>,
    onpath: Seq<bool>,
    levels: Seq<bool>,
    fuel: nat,
)
    requires
        cfg.all,
    ensures
        spec_render_deps(g, cfg, i, kind, v1, onpath, levels, fuel).0 == spec_render_deps(
            g,
            cfg,
            i,
            kind,
            v2,
            onpath,
            levels,
            fuel,
        ).0,
    decreases fuel, 2int, 0int,
{
    lemma_show_all_kids(
        g,
        cfg,
        spec_kids(g, cfg.direction, i, kind),
        v1,
        v2,
        onpath,
        levels,
        fuel,
    );
}

proof fn lemma_show_all_kids(
    g: GraphV,
    cfg: CfgV,
    kids: Seq<int>,
    v1: Seq<bool>,
    v2: Seq<bool>,
    onpath: Seq<bool>,
    levels: Seq<bool>,
    fuel: nat,
)
    requires
        cfg.all,
    ensures
        spec_render_kids(g, cfg, kids, v1, onpath, levels, fuel).0 == spec_render_kids(
            g,
            cfg,
            kids,
            v2,
            onpath,
            levels,
            fuel,
        ).0,
    decreases fuel, 1int, kids.len(),
{
    if kids.len() > 0 {
        let lv = levels.push(kids.len() > 1);
        let a1 = spec_render_node(g, cfg, kids[0], v1, onpath, lv, fuel);
        let b1 = spec_render_node(g, cfg, kids[0], v2, onpath, lv, fuel);
        lemma_show_all_node(g, cfg, kids[0], v1, v2, onpath, lv, fuel);
        lemma_show_all_kids(g, cfg, kids.drop_first(), a1.1, b1.1, onpath, levels, fuel);
    }
}

/// With `show_all` on, what was printed before plays no part: the lines a
/// node emits do not depend on the visited set, so every path from the
/// root is expanded in full regardless of repetition. Only the
/// ancestor-path guard, which keeps the walk finite on cyclic graphs,
/// still truncates.
pub proof fn lemma_show_all_ignores_revisits(
    g: GraphV,
    cfg: CfgV,
    root: int,
    visited: Seq<bool>,
)
    requires
        cfg.all,
    ensures
        spec_render_node(
            g,
            cfg,
            root,
            visited,
            all_false(g.nodes.len() as int),
            Seq::empty(),
            g.nodes.len() as nat,
        ).0 == spec_render_root(g, cfg, root),
{
    lemma_show_all_node(
        g,
        cfg,
        root,
        visited,
        all_false(g.nodes.len() as int),
        all_false(g.nodes.len() as int),
        Seq::empty(),
        g.nodes.len() as nat,
    );
}

/// A traversal always ends — the recursion above is well-founded by the
/// number of nodes not yet on the ancestor path — and it always emits at
/// least the root's own line, whatever the graph holds, cycles included.
pub proof fn lemma_render_emits_the_root(g: GraphV, cfg: CfgV, root: int)
    ensures
        spec_render_root(g, cfg, root).len() >= 1,
{
}

/// A depth limit of zero prints exactly one line — the root, bare, with
/// no group headers and no children — whatever the other settings say.
pub proof fn lemma_depth_limit_zero(g: GraphV, cfg: CfgV, root: int)
    requires
        cfg.depth_limit == Some(0int),
    ensures
        spec_render_root(g, cfg, root).len() == 1,
        spec_render_root(g, cfg, root) == seq![
            spec_line(cfg, Seq::empty(), g.nodes[root], false),
        ],
{
    assert(depth_limited(cfg, 0));
}

proof fn lemma_raw_kids_member(g: GraphV, dir: Direction, i: int, kind: DepKind, j: int, x: int)
    requires
        0 <= j,
    ensures
        raw_kids_upto(g, dir, i, kind, j).contains(x) <==> exists|e: int|
            0 <= e < j && edge_child(#[trigger] g.edges[e], dir, i, kind) == Some(x),
    decreases j,
{
    if j > 0 {
        lemma_raw_kids_member(g, dir, i, kind, j - 1, x);
        let prev = raw_kids_upto(g, dir, i, kind, j - 1);
        let r = raw_kids_upto(g, dir, i, kind, j);
        if r.contains(x) {
            let k = choose|k: int| 0 <= k < r.len() && r[k] == x;
            if k < prev.len() {
                assert(prev[k] == x);
                assert(prev.contains(x));
            } else {
                assert(edge_child(g.edges[j - 1], dir, i, kind) == Some(x));
            }
        }
        if exists|e: int|
            0 <= e < j && edge_child(#[trigger] g.edges[e], dir, i, kind) == Some(x) {
            let e = choose|e: int|
                0 <= e < j && edge_child(#[trigger] g.edges[e], dir, i, kind) == Some(x);
            if e < j - 1 {
                assert(prev.contains(x));
                let k = choose|k: int| 0 <= k < prev.len() && prev[k] == x;
                assert(r[k] == x);
            } else {
                assert(r[r.len() - 1] == x);
            }
        }
    }
}

proof fn lemma_sorted_insert_member(g: GraphV, s: Seq<int>, x: int, y: int)
    ensures
        sorted_insert(g, s, x).contains(y) <==> (s.contains(y) || y == x),
    decreases s.len(),
{
    let r = sorted_insert(g, s, x);
    if s.len() == 0 {
        assert(r =~= seq![x]);
        if y == x {
            assert(r[0] == y);
        }
    } else if id_lt(g.nodes[x].id, g.nodes[s[0]].id) {
        assert(r =~= seq![x] + s);
        if r.contains(y) {
            let k = choose|k: int| 0 <= k < r.len() && r[k] == y;
            if k > 0 {
                assert(s[k - 1] == y);
            }
        }
        if y == x {
            assert(r[0] == y);
        }
        if s.contains(y) {
            let k = choose|k: int| 0 <= k < s.len() && s[k] == y;
            assert(r[k + 1] == y);
        }
    } else {
        lemma_sorted_insert_member(g, s.drop_first(), x, y);
        let rt = sorted_insert(g, s.drop_first(), x);
        assert(r =~= seq![s[0]] + rt);
        if r.contains(y) {
            let k = choose|k: int| 0 <= k < r.len() && r[k] == y;
            if k == 0 {
                assert(s[0] == y);
            } else {
                assert(rt[k - 1] == y);
                assert(rt.contains(y));
                if s.drop_first().contains(y) {
                    let m = choose|m: int| 0 <= m < s.drop_first().len() && s.drop_first()[m] == y;
                    assert(s[m + 1] == y);
                }
            }
        }
        if y == x {
            assert(rt.contains(y));
            let k = choose|k: int| 0 <= k < rt.len() && rt[k] == y;
            assert(r[k + 1] == y);
        }
        if s.contains(y) {
            let k = choose|k: int| 0 <= k < s.len() && s[k] == y;
            if k == 0 {
                assert(r[0] == y);
            } else {
                assert(s.drop_first()[k - 1] == y);
                assert(rt.contains(y));
                let m = choose|m: int| 0 <= m < rt.len() && rt[m] == y;
                assert(r[m + 1] == y);
            }
        }
    }
}

proof fn lemma_sort_kids_member(g: GraphV, s: Seq<int>, y: int)
    ensures
        sort_kids(g, s).contains(y) <==> s.contains(y),
    decreases s.len(),
{
    if s.len() > 0 {
        lemma_sort_kids_member(g, s.drop_last(), y);
        lemma_sorted_insert_member(g, sort_kids(g, s.drop_last()), s.last(), y);
        if s.contains(y) {
            let k = choose|k: int| 0 <= k < s.len() && s[k] == y;
            if k < s.len() - 1 {
                assert(s.drop_last()[k] == y);
                assert(s.drop_last().contains(y));
            }
        }
        if s.drop_last().contains(y) {
            let k = choose|k: int| 0 <= k < s.drop_last().len() && s.drop_last()[k] == y;
            assert(s[k] == y);
        }
    }
}

/// Direction strictly swaps which endpoint of an edge counts as the
/// child: `m` is a child of `n` walking outward exactly when `n` is a
/// child of `m` walking inward, kind by kind.
pub proof fn lemma_direction_swap(g: GraphV, n: int, m: int, kind: DepKind)
    ensures
        spec_kids(g, Direction::Outgoing, n, kind).contains(m) <==> spec_kids(
            g,
            Direction::Incoming,
            m,
            kind,
        ).contains(n),
{
    lemma_sort_kids_member(g, raw_kids(g, Direction::Outgoing, n, kind), m);
    lemma_sort_kids_member(g, raw_kids(g, Direction::Incoming, m, kind), n);
    lemma_raw_kids_member(g, Direction::Outgoing, n, kind, g.edges.len() as int, m);
    lemma_raw_kids_member(g, Direction::Incoming, m, kind, g.edges.len() as int, n);
    assert forall|e: int| 0 <= e < g.edges.len() implies (edge_child(
        #[trigger] g.edges[e],
        Direction::Outgoing,
        n,
        kind,
    ) == Some(m) <==> edge_child(g.edges[e], Direction::Incoming, m, kind) == Some(n)) by {}
}

// ---------------------------------------------------------------------------
// Resolving a root query
// ---------------------------------------------------------------------------

/// Index of the first colon at or after `j`, or -1.
pub open spec fn colon_at(s: Seq<char>, j: int) -> int
    decreases s.len() - j,
{
    if j < 0 || j >= s.len() {
        -1
    } else if s[j] == ':' {
        j
    } else {
        colon_at(s, j + 1)
    }
}

/// The name part of a query: everything before the first colon.
pub open spec fn query_name(q: Seq<char>) -> Seq<char> {
    if colon_at(q, 0) < 0 {
        q
    } else {
        q.subrange(0, colon_at(q, 0))
    }
}

/// The version part of a query: everything between the first colon and
/// the second one or the end; nothing without a colon.
pub open spec fn query_version_text(q: Seq<char>) -> Option<Seq<char>> {
    let c1 = colon_at(q, 0);
    if c1 < 0 {
        None
    } else {
        let c2 = colon_at(q, c1 + 1);
        Some(
            q.subrange(c1 + 1, if c2 < 0 {
                q.len() as int
            } else {
                c2
            }),
        )
    }
}

pub open spec fn query_matches(g: GraphV, name: Seq<char>, ov: Option<VersionV>, i: int) -> bool {
    g.nodes[i].id.name == name && (match ov {
        Some(v) => g.nodes[i].id.version == v,
        None => true,
    })
}

pub open spec fn candidates_upto(g: GraphV, name: Seq<char>, ov: Option<VersionV>, j: int) -> Seq<
    int,
>
    decreases j,
{
    if j <= 0 {
        Seq::empty()
    } else {
        candidates_upto(g, name, ov, j - 1) + (if query_matches(g, name, ov, j - 1) {
            seq![j - 1]
        } else {
            Seq::empty()
        })
    }
}

/// The nodes a query matches, in arena order.
pub open spec fn spec_candidates(g: GraphV, name: Seq<char>, ov: Option<VersionV>) -> Seq<int> {
    candidates_upto(g, name, ov, g.nodes.len() as int)
}

pub open spec fn candidate_ids(g: GraphV, c: Seq<int>) -> Seq<IdV> {
    c.map_values(|x: int| g.nodes[x].id)
}

pub open spec fn spec_select(g: GraphV, q: Seq<char>, name: Seq<char>, ov: Option<VersionV>) -> Result<
    int,
    ErrV,
> {
    let c = spec_candidates(g, name, ov);
    if c.len() == 0 {
        Err(ErrV::PackageNotFound { query: q })
    } else if c.len() > 1 {
        Err(ErrV::AmbiguousPackage { query: q, candidates: candidate_ids(g, c) })
    } else {
        Ok(c[0])
    }
}

/// What resolving a root query yields: the unique matching node, or the
/// failure that says why there is none.
pub open spec fn spec_find_package(g: GraphV, q: Seq<char>) -> Result<int, ErrV> {
    match query_version_text(q) {
        None => spec_select(g, q, query_name(q), None),
        Some(vt) => match parsed_version(vt) {
            None => Err(ErrV::InvalidVersion { query: q }),
            Some(v) => spec_select(g, q, query_name(q), Some(v)),
        },
    }
}

fn find_colon(s: &str, from: usize, n: usize) -> (r: Option<usize>)
    requires
        n == s@.len(),
        from <= n,
    ensures
        match r {
            Some(c) => from <= c < n && colon_at(s@, from as int) == c,
            None => colon_at(s@, from as int) == -1,
        },
{
    let mut j: usize = from;
    while j < n
        invariant
            from <= j <= n,
            n == s@.len(),
            colon_at(s@, from as int) == colon_at(s@, j as int),
        decreases n - j,
    {
        if s.get_char(j) == ':' {
            return Some(j);
        }
        j = j + 1;
    }
    None
}

/// Resolve a root query of the form `name` or `name:version` to the one
/// node it names.
pub fn find_package(package: &str, graph: &Graph) -> (r: Result<usize, TreeError>)
    requires
        graph_wf(graph@),
    ensures
        match r {
            Ok(i) => spec_find_package(graph@, package@) == Ok::<int, ErrV>(i as int) && i
                < graph@.nodes.len(),
            Err(e) => spec_find_package(graph@, package@) == Err::<int, ErrV>(e@),
        },
{
    let n = package.unicode_len();
    let c1 = find_colon(package, 0, n);
    let name_end = match c1 {
        Some(c) => c,
        None => n,
    };
    let name = package.substring_char(0, name_end);
    proof {
        if c1 is None {
            assert(package@.subrange(0, n as int) =~= package@);
        }
        assert(name@ == query_name(package@));
    }
    let ver: Option<Version> = match c1 {
        Some(c) => {
            let vend = match find_colon(package, c + 1, n) {
                Some(c2) => c2,
                None => n,
            };
            let vtext = package.substring_char(c + 1, vend);
            proof {
                assert(Some(vtext@) == query_version_text(package@));
            }
            match parse_version(vtext) {
                Some(v) => Some(v),
                None => {
                    return Err(TreeError::InvalidVersion { query: package.to_owned() });
                },
            }
        },
        None => None,
    };
    let ghost ov: Option<VersionV> = match ver {
        Some(ref v) => Some(v@),
        None => None,
    };
    let nn = graph.nodes.len();
    let mut cands: Vec<usize> = Vec::new();
    let mut i: usize = 0;
    proof {
        assert(usize_views(cands@) =~= candidates_upto(graph@, name@, ov, 0));
    }
    while i < nn
        invariant
            i <= nn,
            nn == graph@.nodes.len(),
            nn == graph.nodes@.len(),
            usize_views(cands@) == candidates_upto(graph@, name@, ov, i as int),
            forall|k: int| 0 <= k < cands@.len() ==> (#[trigger] cands@[k]) < nn,
            match ver {
                Some(ref v) => ov == Some(v@),
                None => ov is None,
            },
        decreases nn - i,
    {
        let node = &graph.nodes[i];
        proof {
            assert(node@ == graph@.nodes[i as int]);
        }
        let name_eq = str_eq(node.id.name.as_str(), name);
        let matches = name_eq && (match &ver {
            Some(v) => node.id.version == *v,
            None => true,
        });
        let ghost before = usize_views(cands@);
        if matches {
            cands.push(i);
            proof {
                assert(usize_views(cands@) =~= before.push(i as int));
            }
        }
        proof {
            assert(usize_views(cands@) =~= candidates_upto(graph@, name@, ov, i as int + 1));
        }
        i = i + 1;
    }
    if cands.len() == 0 {
        Err(TreeError::PackageNotFound { query: package.to_owned() })
    } else if cands.len() > 1 {
        let nc = cands.len();
        let mut ids: Vec<PackageId> = Vec::new();
        let mut k: usize = 0;
        proof {
            assert(id_views(ids@) =~= candidate_ids(graph@, usize_views(cands@).take(0)));
        }
        while k < nc
            invariant
                k <= nc,
                nc == cands@.len(),
                nn == graph@.nodes.len(),
                nn == graph.nodes@.len(),
                forall|j: int| 0 <= j < cands@.len() ==> (#[trigger] cands@[j]) < nn,
                id_views(ids@) == candidate_ids(graph@, usize_views(cands@).take(k as int)),
            decreases nc - k,
        {
            let idx = cands[k];
            let ghost before = id_views(ids@);
            ids.push(graph.nodes[idx].id.duplicate());
            proof {
                assert(id_views(ids@) =~= before.push(graph@.nodes[cands@[k as int] as int].id));
                assert(usize_views(cands@).take(k as int + 1) =~= usize_views(cands@).take(
                    k as int,
                ).push(cands@[k as int] as int));
                assert(id_views(ids@) =~= candidate_ids(
                    graph@,
                    usize_views(cands@).take(k as int + 1),
                ));
            }
            k = k + 1;
        }
        proof {
            assert(usize_views(cands@).take(nc as int) =~= usize_views(cands@));
        }
        Err(TreeError::AmbiguousPackage { query: package.to_owned(), candidates: ids })
    } else {
        Ok(cands[0])
    }
}

// ---------------------------------------------------------------------------
// Duplicate versions
// ---------------------------------------------------------------------------

pub open spec fn id_views(s: Seq<PackageId>) -> Seq<IdV> {
    s.map_values(|p: PackageId| p@)
}

/// Some other node shares this node's name under a different identity.
pub open spec fn has_dup_name(g: GraphV, i: int) -> bool {
    exists|j: int|
        0 <= j < g.nodes.len() && (#[trigger] g.nodes[j]).id.name == g.nodes[i].id.name
            && g.nodes[j].id != g.nodes[i].id
}

/// Insert an identity into a sorted list of distinct identities.
pub open spec fn insert_unique_sorted(s: Seq<IdV>, x: IdV) -> Seq<IdV>
    decreases s.len(),
{
    if s.len() == 0 {
        seq![x]
    } else if s[0] == x {
        s
    } else if id_lt(x, s[0]) {
        seq![x] + s
    } else {
        seq![s[0]] + insert_unique_sorted(s.drop_first(), x)
    }
}

pub open spec fn dups_upto(g: GraphV, j: int) -> Seq<IdV>
    decreases j,
{
    if j <= 0 {
        Seq::empty()
    } else {
        let d = dups_upto(g, j - 1);
        if has_dup_name(g, j - 1) {
            insert_unique_sorted(d, g.nodes[j - 1].id)
        } else {
            d
        }
    }
}

/// Every identity whose name another identity shares, sorted, each once.
pub open spec fn spec_find_duplicates(g: GraphV) -> Seq<IdV> {
    dups_upto(g, g.nodes.len() as int)
}

fn has_dup_name_exec(graph: &Graph, i: usize) -> (r: bool)
    requires
        i < graph.nodes@.len(),
    ensures
        r == has_dup_name(graph@, i as int),
{
    let nn = graph.nodes.len();
    let mut j: usize = 0;
    while j < nn
        invariant
            j <= nn,
            i < nn,
            nn == graph.nodes@.len(),
            forall|k: int|
                0 <= k < j ==> !((#[trigger] graph@.nodes[k]).id.name
                    == graph@.nodes[i as int].id.name && graph@.nodes[k].id
                    != graph@.nodes[i as int].id),
        decreases nn - j,
    {
        proof {
            assert(graph@.nodes[j as int] == graph.nodes@[j as int]@);
            assert(graph@.nodes[i as int] == graph.nodes@[i as int]@);
        }
        let same_name = str_eq(
            graph.nodes[j].id.name.as_str(),
            graph.nodes[i].id.name.as_str(),
        );
        if same_name && !(graph.nodes[j].id == graph.nodes[i].id) {
            return true;
        }
        j = j + 1;
    }
    false
}

proof fn lemma_insert_unique_found(s: Seq<IdV>, x: IdV, p: int)
    requires
        0 <= p < s.len(),
        forall|k: int| 0 <= k < p ==> (#[trigger] s[k]) != x && !id_lt(x, s[k]),
        s[p] == x,
    ensures
        insert_unique_sorted(s, x) == s,
    decreases p,
{
    if p > 0 {
        lemma_insert_unique_found(s.drop_first(), x, p - 1);
        assert(seq![s[0]] + s.drop_first() =~= s);
    }
}

proof fn lemma_insert_unique_at(s: Seq<IdV>, x: IdV, p: int)
    requires
        0 <= p <= s.len(),
        forall|k: int| 0 <= k < p ==> (#[trigger] s[k]) != x && !id_lt(x, s[k]),
        p < s.len() ==> id_lt(x, s[p]),
    ensures
        insert_unique_sorted(s, x) == s.take(p) + seq![x] + s.skip(p),
    decreases p,
{
    if p == 0 {
        assert(insert_unique_sorted(s, x) =~= s.take(0) + seq![x] + s.skip(0));
    } else {
        lemma_insert_unique_at(s.drop_first(), x, p - 1);
        assert(s.drop_first().take(p - 1) =~= s.take(p).drop_first());
        assert(s.drop_first().skip(p - 1) =~= s.skip(p));
        assert(seq![s[0]] + (s.drop_first().take(p - 1) + seq![x] + s.drop_first().skip(p - 1))
            =~= s.take(p) + seq![x] + s.skip(p));
    }
}

fn insert_dup(out: &mut Vec<PackageId>, x: &PackageId)
    ensures
        id_views(final(out)@) == insert_unique_sorted(id_views(old(out)@), x@),
{
    let m = out.len();
    let mut p: usize = 0;
    while p < m
        invariant_except_break
            p <= m,
            m == out@.len(),
            forall|k: int|
                0 <= k < p ==> (#[trigger] id_views(out@)[k]) != x@ && !id_lt(
                    x@,
                    id_views(out@)[k],
                ),
        ensures
            p <= m,
            m == out@.len(),
            out@ == old(out)@,
            forall|k: int|
                0 <= k < p ==> (#[trigger] id_views(out@)[k]) != x@ && !id_lt(
                    x@,
                    id_views(out@)[k],
                ),
            p < m ==> id_lt(x@, id_views(out@)[p as int]),
        decreases m - p,
    {
        if out[p] == *x {
            proof {
                lemma_insert_unique_found(id_views(out@), x@, p as int);
            }
            return;
        }
        if x.lt(&out[p]) {
            break;
        }
        p = p + 1;
    }
    let ghost before = id_views(out@);
    out.insert(p, x.duplicate());
    proof {
        lemma_insert_unique_at(before, x@, p as int);
        assert(id_views(out@) =~= before.take(p as int) + seq![x@] + before.skip(p as int));
    }
}

/// Every package identity that shares its name with a different identity
/// in the graph, sorted by full identity, each reported once.
pub fn find_duplicates(graph: &Graph) -> (r: Vec<PackageId>)
    ensures
        id_views(r@) == spec_find_duplicates(graph@),
{
    let nn = graph.nodes.len();
    let mut out: Vec<PackageId> = Vec::new();
    let mut i: usize = 0;
    proof {
        assert(id_views(out@) =~= dups_upto(graph@, 0));
    }
    while i < nn
        invariant
            i <= nn,
            nn == graph.nodes@.len(),
            id_views(out@) == dups_upto(graph@, i as int),
        decreases nn - i,
    {
        if has_dup_name_exec(graph, i) {
            proof {
                assert(graph@.nodes[i as int] == graph.nodes@[i as int]@);
            }
            insert_dup(&mut out, &graph.nodes[i].id);
        }
        i = i + 1;
    }
    out
}

// ---------------------------------------------------------------------------
// Whole invocations
// ---------------------------------------------------------------------------

/// Which node a render call starts from.
pub enum RootSelector {
    /// The root the document designated.
    Designated,
    /// An explicit `name` or `name:version` query.
    Query(String),
}

impl View for RootSelector {
    type V = Option<Seq<char>>;

    open spec fn view(&self) -> Option<Seq<char>> {
        match self {
            RootSelector::Designated => None,
            RootSelector::Query(q) => Some(q@),
        }
    }
}

/// What one render call yields: the tree of the selected root, or the
/// failure of resolving the selector.
pub open spec fn spec_render(g: GraphV, sel: Option<Seq<char>>, cfg: CfgV) -> Result<
    Seq<Seq<char>>,
    ErrV,
> {
    match sel {
        Some(q) => match spec_find_package(g, q) {
            Ok(i) => Ok(spec_render_root(g, cfg, i)),
            Err(e) => Err(e),
        },
        None => match g.root {
            Some(r) => Ok(spec_render_root(g, cfg, r)),
            None => Err(ErrV::RootMissing),
        },
    }
}

/// Render the tree of one root, selected by query or designation.
pub fn render(graph: &Graph, selector: &RootSelector, cfg: &RenderConfig, pattern: &Pattern) -> (r:
    Result<Vec<String>, TreeError>)
    requires
        graph_wf(graph@),
    ensures
        match r {
            Ok(lines) => spec_render(graph@, selector@, cfg_view(*cfg, pattern@)) == Ok::<
                Seq<Seq<char>>,
                ErrV,
            >(out_views(lines@)),
            Err(e) => spec_render(graph@, selector@, cfg_view(*cfg, pattern@)) == Err::<
                Seq<Seq<char>>,
                ErrV,
            >(e@),
        },
{
    let root = match selector {
        RootSelector::Query(q) => match find_package(q.as_str(), graph) {
            Ok(i) => i,
            Err(e) => {
                return Err(e);
            },
        },
        RootSelector::Designated => match &graph.root {
            Some(r) => *r,
            None => {
                return Err(TreeError::RootMissing);
            },
        },
    };
    Ok(print_tree(graph, root, cfg, pattern))
}

pub open spec fn spec_direction(a: ArgsV) -> Direction {
    if a.invert || a.duplicates {
        Direction::Incoming
    } else {
        Direction::Outgoing
    }
}

pub open spec fn spec_prefix_style(a: ArgsV) -> PrefixStyle {
    if a.prefix_depth {
        PrefixStyle::Depth
    } else if a.no_indent {
        PrefixStyle::Plain
    } else {
        PrefixStyle::Indent
    }
}

/// The configuration one argument set selects; the command line offers no
/// depth limit.
pub open spec fn spec_args_cfg(a: ArgsV, pattern: Seq<ChunkV>) -> CfgV {
    CfgV {
        direction: spec_direction(a),
        prefix: spec_prefix_style(a),
        sym: glyphs(a.charset),
        all: a.all,
        depth_limit: None,
        pattern,
    }
}

/// The trees of the first `k` duplicate identities, a blank line between
/// consecutive trees.
pub open spec fn dup_trees_upto(g: GraphV, cfg: CfgV, ids: Seq<IdV>, k: int) -> Seq<Seq<char>>
    decreases k,
{
    if k <= 0 {
        Seq::empty()
    } else {
        dup_trees_upto(g, cfg, ids, k - 1) + (if k - 1 > 0 {
            seq![Seq::<char>::empty()]
        } else {
            Seq::empty()
        }) + spec_render_root(g, cfg, find_pkg(g.nodes, ids[k - 1]))
    }
}

/// What one whole invocation prints: in duplicates mode one inverted tree
/// per duplicate identity, otherwise the tree of the queried or
/// designated root.
pub open spec fn spec_print(g: GraphV, a: ArgsV) -> Result<Seq<Seq<char>>, ErrV> {
    match spec_pattern(a.format) {
        Err(e) => Err(e),
        Ok(pat) => {
            let cfg = spec_args_cfg(a, pat);
            if a.duplicates {
                let ids = spec_find_duplicates(g);
                Ok(dup_trees_upto(g, cfg, ids, ids.len() as int))
            } else {
                match a.package {
                    Some(q) => match spec_find_package(g, q) {
                        Ok(i) => Ok(spec_render_root(g, cfg, i)),
                        Err(e) => Err(e),
                    },
                    None => match g.root {
                        Some(r) => Ok(spec_render_root(g, cfg, r)),
                        None => Err(ErrV::RootMissing),
                    },
                }
            }
        },
    }
}

// ---------------------------------------------------------------------------
// What the duplicate list holds
// ---------------------------------------------------------------------------

/// Strictly ascending by identity: sorted, and no identity twice.
pub open spec fn sorted_unique_ids(s: Seq<IdV>) -> bool {
    forall|a: int, b: int|
        #![trigger s[a], s[b]]
        0 <= a < b < s.len() ==> id_lt(s[a], s[b])
}

proof fn lemma_insert_unique_props(s: Seq<IdV>, x: IdV)
    requires
        sorted_unique_ids(s),
    ensures
        sorted_unique_ids(insert_unique_sorted(s, x)),
        forall|y: IdV|
            #[trigger] insert_unique_sorted(s, x).contains(y) <==> (s.contains(y) || y == x),
    decreases s.len(),
{
    let r = insert_unique_sorted(s, x);
    if s.len() == 0 {
        assert(r =~= seq![x]);
        assert forall|y: IdV| #[trigger] r.contains(y) <==> (s.contains(y) || y == x) by {
            if y == x {
                assert(r[0] == y);
            }
        }
    } else if s[0] == x {
        assert(r == s);
        assert forall|y: IdV| #[trigger] r.contains(y) <==> (s.contains(y) || y == x) by {
            if y == x {
                assert(s[0] == y);
            }
        }
    } else if id_lt(x, s[0]) {
        assert(r =~= seq![x] + s);
        assert forall|a: int, b: int|
            #![trigger r[a], r[b]]
            0 <= a < b < r.len() implies id_lt(r[a], r[b]) by {
            if a == 0 {
                assert(r[b] == s[b - 1]);
                if b > 1 {
                    assert(id_lt(s[0], s[b - 1]));
                    lemma_id_lt_trans(x, s[0], s[b - 1]);
                }
            } else {
                assert(r[a] == s[a - 1]);
                assert(r[b] == s[b - 1]);
            }
        }
        assert forall|y: IdV| #[trigger] r.contains(y) <==> (s.contains(y) || y == x) by {
            if r.contains(y) {
                let k = choose|k: int| 0 <= k < r.len() && r[k] == y;
                if k == 0 {
                } else {
                    assert(s[k - 1] == y);
                }
            }
            if y == x {
                assert(r[0] == y);
            }
            if s.contains(y) {
                let k = choose|k: int| 0 <= k < s.len() && s[k] == y;
                assert(r[k + 1] == y);
            }
        }
    } else {
        lemma_id_lt_or_ge(x, s[0]);
        let tail = s.drop_first();
        assert forall|a: int, b: int|
            #![trigger tail[a], tail[b]]
            0 <= a < b < tail.len() implies id_lt(tail[a], tail[b]) by {
            assert(tail[a] == s[a + 1]);
            assert(tail[b] == s[b + 1]);
        }
        lemma_insert_unique_props(tail, x);
        let rt = insert_unique_sorted(tail, x);
        assert(r =~= seq![s[0]] + rt);
        assert forall|a: int, b: int|
            #![trigger r[a], r[b]]
            0 <= a < b < r.len() implies id_lt(r[a], r[b]) by {
            if a == 0 {
                let y = rt[b - 1];
                assert(rt.contains(y));
                if tail.contains(y) {
                    let k = choose|k: int| 0 <= k < tail.len() && tail[k] == y;
                    assert(s[k + 1] == y);
                    assert(id_lt(s[0], s[k + 1]));
                } else {
                    assert(y == x);
                }
                assert(r[b] == y);
            } else {
                assert(r[a] == rt[a - 1]);
                assert(r[b] == rt[b - 1]);
            }
        }
        assert forall|y: IdV| #[trigger] r.contains(y) <==> (s.contains(y) || y == x) by {
            if r.contains(y) {
                let k = choose|k: int| 0 <= k < r.len() && r[k] == y;
                if k == 0 {
                    assert(s[0] == y);
                } else {
                    assert(rt[k - 1] == y);
                    assert(rt.contains(y));
                    if tail.contains(y) {
                        let m = choose|m: int| 0 <= m < tail.len() && tail[m] == y;
                        assert(s[m + 1] == y);
                    }
                }
            }
            if y == x {
                assert(rt.contains(y));
                let k = choose|k: int| 0 <= k < rt.len() && rt[k] == y;
                assert(r[k + 1] == y);
            }
            if s.contains(y) {
                let k = choose|k: int| 0 <= k < s.len() && s[k] == y;
                if k == 0 {
                    assert(r[0] == y);
                } else {
                    assert(tail[k - 1] == y);
                    assert(tail.contains(y));
                    assert(rt.contains(y));
                    let m = choose|m: int| 0 <= m < rt.len() && rt[m] == y;
                    assert(r[m + 1] == y);
                }
            }
        }
    }
}

proof fn lemma_dups_props(g: GraphV, j: int)
    requires
        0 <= j <= g.nodes.len(),
    ensures
        sorted_unique_ids(dups_upto(g, j)),
        forall|y: IdV|
            #[trigger] dups_upto(g, j).contains(y) <==> exists|i: int|
                0 <= i < j && (#[trigger] g.nodes[i]).id == y && has_dup_name(g, i),
    decreases j,
{
    if j > 0 {
        lemma_dups_props(g, j - 1);
        let d = dups_upto(g, j - 1);
        let r = dups_upto(g, j);
        if has_dup_name(g, j - 1) {
            lemma_insert_unique_props(d, g.nodes[j - 1].id);
            assert forall|y: IdV|
                #[trigger] r.contains(y) <==> exists|i: int|
                    0 <= i < j && (#[trigger] g.nodes[i]).id == y && has_dup_name(g, i) by {
                if r.contains(y) {
                    if d.contains(y) {
                        let i = choose|i: int|
                            0 <= i < j - 1 && (#[trigger] g.nodes[i]).id == y && has_dup_name(
                                g,
                                i,
                            );
                        assert(0 <= i < j && g.nodes[i].id == y && has_dup_name(g, i));
                    } else {
                        assert(y == g.nodes[j - 1].id);
                        assert(0 <= j - 1 < j && g.nodes[j - 1].id == y && has_dup_name(
                            g,
                            j - 1,
                        ));
                    }
                }
                if exists|i: int|
                    0 <= i < j && (#[trigger] g.nodes[i]).id == y && has_dup_name(g, i) {
                    let i = choose|i: int|
                        0 <= i < j && (#[trigger] g.nodes[i]).id == y && has_dup_name(g, i);
                    if i < j - 1 {
                        assert(d.contains(y));
                    }
                }
            }
        } else {
            assert(r == d);
            assert forall|y: IdV|
                #[trigger] r.contains(y) <==> exists|i: int|
                    0 <= i < j && (#[trigger] g.nodes[i]).id == y && has_dup_name(g, i) by {
                if exists|i: int|
                    0 <= i < j && (#[trigger] g.nodes[i]).id == y && has_dup_name(g, i) {
                    let i = choose|i: int|
                        0 <= i < j && (#[trigger] g.nodes[i]).id == y && has_dup_name(g, i);
                    assert(i < j - 1);
                    assert(d.contains(y));
                }
            }
        }
    }
}

/// The duplicate report is sorted by full identity, repeats nothing, and
/// holds exactly the identities whose name another identity shares.
pub proof fn lemma_find_duplicates_correct(g: GraphV)
    ensures
        sorted_unique_ids(spec_find_duplicates(g)),
        forall|y: IdV|
            #[trigger] spec_find_duplicates(g).contains(y) <==> exists|i: int|
                0 <= i < g.nodes.len() && (#[trigger] g.nodes[i]).id == y && has_dup_name(g, i),
{
    lemma_dups_props(g, g.nodes.len() as int);
}

// ---------------------------------------------------------------------------
// One whole invocation
// ---------------------------------------------------------------------------

/// Run one whole invocation against a built graph: parse the display
/// pattern, pick direction and prefix style from the flags, and return
/// the ordered output lines — one inverted tree per duplicate identity in
/// duplicates mode, the tree of the queried or designated root otherwise.
pub fn print(args: &Args, graph: &Graph) -> (r: Result<Vec<String>, TreeError>)
    requires
        graph_wf(graph@),
    ensures
        match r {
            Ok(lines) => spec_print(graph@, args@) == Ok::<Seq<Seq<char>>, ErrV>(
                out_views(lines@),
            ),
            Err(e) => spec_print(graph@, args@) == Err::<Seq<Seq<char>>, ErrV>(e@),
        },
{
    let pattern = match Pattern::new(args.format.as_str()) {
        Ok(p) => p,
        Err(e) => {
            return Err(e);
        },
    };
    let direction = if args.invert || args.duplicates {
        Direction::Incoming
    } else {
        Direction::Outgoing
    };
    let prefix = if args.prefix_depth {
        PrefixStyle::Depth
    } else if args.no_indent {
        PrefixStyle::Plain
    } else {
        PrefixStyle::Indent
    };
    let cfg = RenderConfig {
        direction,
        prefix,
        charset: args.charset,
        all: args.all,
        depth_limit: None,
    };
    let ghost cfgv = spec_args_cfg(args@, pattern@);
    proof {
        assert(cfg_view(cfg, pattern@) == cfgv);
    }
    if args.duplicates {
        let dups = find_duplicates(graph);
        proof {
            lemma_find_duplicates_correct(graph@);
        }
        let nd = dups.len();
        let mut out: Vec<String> = Vec::new();
        let mut k: usize = 0;
        proof {
            assert(out_views(out@) =~= dup_trees_upto(graph@, cfgv, id_views(dups@), 0));
        }
        while k < nd
            invariant
                k <= nd,
                nd == dups@.len(),
                graph_wf(graph@),
                cfgv == cfg_view(cfg, pattern@),
                id_views(dups@) == spec_find_duplicates(graph@),
                sorted_unique_ids(spec_find_duplicates(graph@)),
                forall|y: IdV|
                    #[trigger] spec_find_duplicates(graph@).contains(y) <==> exists|i: int|
                        0 <= i < graph@.nodes.len() && (#[trigger] graph@.nodes[i]).id == y
                            && has_dup_name(graph@, i),
                out_views(out@) == dup_trees_upto(graph@, cfgv, id_views(dups@), k as int),
            decreases nd - k,
        {
            let ghost before_sep = out_views(out@);
            if k > 0 {
                out.push(String::new());
                proof {
                    assert(out_views(out@) =~= before_sep.push(Seq::<char>::empty()));
                }
            }
            let ghost y = id_views(dups@)[k as int];
            proof {
                assert(dups@[k as int]@ == y);
                assert(spec_find_duplicates(graph@).contains(y));
                let i = choose|i: int|
                    0 <= i < graph@.nodes.len() && (#[trigger] graph@.nodes[i]).id == y
                        && has_dup_name(graph@, i);
                crate::graph::lemma_find_pkg_exists(graph@.nodes, y);
            }
            let idx = match find_pkg_index(&graph.nodes, &dups[k]) {
                Some(i) => i,
                None => {
                    // every reported identity is some node's identity
                    proof {
                        assert(false);
                    }
                    vstd::pervasive::unreached()
                },
            };
            let mut tree = print_tree(graph, idx, &cfg, &pattern);
            let ghost before_tree = out_views(out@);
            let ghost tree_lines = out_views(tree@);
            out.append(&mut tree);
            proof {
                assert(out_views(out@) =~= before_tree + tree_lines);
                assert(idx as int == find_pkg(graph@.nodes, y));
                assert(out_views(out@) =~= dup_trees_upto(
                    graph@,
                    cfgv,
                    id_views(dups@),
                    k as int + 1,
                ));
            }
            k = k + 1;
        }
        Ok(out)
    } else {
        let root = match &args.package {
            Some(q) => match find_package(q.as_str(), graph) {
                Ok(i) => i,
                Err(e) => {
                    return Err(e);
                },
            },
            None => match &graph.root {
                Some(r) => *r,
                None => {
                    return Err(TreeError::RootMissing);
                },
            },
        };
        let out = print_tree(graph, root, &cfg, &pattern);
        Ok(out)
    }
}

} // verus!
