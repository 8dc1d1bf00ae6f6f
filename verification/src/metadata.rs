//! The resolved-metadata document: what an external dependency resolver
//! reports, reduced to plain values. An unverified front end obtains the
//! document and converts it into these types; everything after that point
//! is verified.

use vstd::prelude::*;
use crate::args::Args;
use crate::args::ArgsV;
use crate::common::DepKind;
use crate::ident::IdV;
use crate::ident::PackageId;

verus! {

// ---------------------------------------------------------------------------
// Views
// ---------------------------------------------------------------------------

/// Mathematical value of a package entry.
#[verifier::ext_equal]
pub struct PackageV {
    pub id: IdV,
    pub license: Option<Seq<char>>,
    pub repository: Option<Seq<char>>,
    pub manifest_dir: Seq<char>,
}

/// Mathematical value of one resolved dependency edge source.
#[verifier::ext_equal]
pub struct ResolveDepV {
    pub pkg: IdV,
    pub dep_kinds: Seq<DepKind>,
}

/// Mathematical value of one resolved node.
#[verifier::ext_equal]
pub struct ResolveNodeV {
    pub id: IdV,
    pub dependencies: Seq<IdV>,
    pub deps: Seq<ResolveDepV>,
}

/// Mathematical value of a whole document.
#[verifier::ext_equal]
pub struct DocumentV {
    pub packages: Seq<PackageV>,
    pub root: Option<IdV>,
    pub nodes: Seq<ResolveNodeV>,
}

// ---------------------------------------------------------------------------
// Executable document model
// ---------------------------------------------------------------------------

/// One package of the document: its identity plus the metadata a display
/// pattern can ask for. `manifest_dir` is the directory of the package's
/// manifest, shown for packages without a named source.
pub struct Package {
    pub id: PackageId,
    pub license: Option<String>,
    pub repository: Option<String>,
    pub manifest_dir: String,
}

impl View for Package {
    type V = PackageV;

    open spec fn view(&self) -> PackageV {
        PackageV {
            id: self.id@,
            license: match self.license {
                Some(ref s) => Some(s@),
                None => None,
            },
            repository: match self.repository {
                Some(ref s) => Some(s@),
                None => None,
            },
            manifest_dir: self.manifest_dir@,
        }
    }
}

impl Package {
    /// A structural copy carrying the same mathematical value.
    pub fn duplicate(&self) -> (r: Package)
        ensures
            r@ == self@,
    {
        Package {
            id: self.id.duplicate(),
            license: match &self.license {
                Some(s) => Some(s.clone()),
                None => None,
            },
            repository: match &self.repository {
                Some(s) => Some(s.clone()),
                None => None,
            },
            manifest_dir: self.manifest_dir.clone(),
        }
    }
}

/// One dependency of a resolved node: the target package and every kind
/// under which the resolver reports it.
pub struct ResolveDep {
    pub pkg: PackageId,
    pub dep_kinds: Vec<DepKind>,
}

impl View for ResolveDep {
    type V = ResolveDepV;

    open spec fn view(&self) -> ResolveDepV {
        ResolveDepV { pkg: self.pkg@, dep_kinds: self.dep_kinds@ }
    }
}

/// One resolved node: a package and its outgoing dependencies, reported
/// once as plain identities and once with kind tags. A resolver too old to
/// tag kinds leaves the tagged list short or empty; the builder rejects
/// such a document.
pub struct ResolveNode {
    pub id: PackageId,
    pub dependencies: Vec<PackageId>,
    pub deps: Vec<ResolveDep>,
}

impl View for ResolveNode {
    type V = ResolveNodeV;

    open spec fn view(&self) -> ResolveNodeV {
        ResolveNodeV {
            id: self.id@,
            dependencies: self.dependencies@.map_values(|p: PackageId| p@),
            deps: self.deps@.map_values(|d: ResolveDep| d@),
        }
    }
}

/// A resolved dependency document: the package list, the designated root
/// if the resolver names one, and the resolve section.
pub struct Document {
    pub packages: Vec<Package>,
    pub root: Option<PackageId>,
    pub nodes: Vec<ResolveNode>,
}

impl View for Document {
    type V = DocumentV;

    open spec fn view(&self) -> DocumentV {
        DocumentV {
            packages: self.packages@.map_values(|p: Package| p@),
            root: match self.root {
                Some(ref r) => Some(r@),
                None => None,
            },
            nodes: self.nodes@.map_values(|n: ResolveNode| n@),
        }
    }
}

// ---------------------------------------------------------------------------
// The provider's command line
// ---------------------------------------------------------------------------

pub open spec fn repeat_flag(flag: Seq<char>, k: int) -> Seq<Seq<char>>
    decreases k,
{
    if k <= 0 {
        Seq::empty()
    } else {
        repeat_flag(flag, k - 1) + seq![flag]
    }
}

pub open spec fn z_flags_upto(flags: Seq<Seq<char>>, k: int) -> Seq<Seq<char>>
    decreases k,
{
    if k <= 0 {
        Seq::empty()
    } else {
        z_flags_upto(flags, k - 1) + seq!["-Z"@, flags[k - 1]]
    }
}

/// The arguments handed to the metadata provider for one invocation:
/// the metadata subcommand in its first format version, then one flag
/// per selection input that asks for one. Platform filtering is on
/// unless every target was asked for, and names the selected target or
/// the host `default_target`.
pub open spec fn spec_meta_head(a: ArgsV, default_target: Seq<char>) -> Seq<Seq<char>> {
    seq!["metadata"@, "--format-version"@, "1"@] + (if a.quiet {
        seq!["-q"@]
    } else {
        Seq::empty()
    }) + (match a.features {
        Some(f) => seq!["--features"@, f],
        None => Seq::empty(),
    }) + (if a.all_features {
        seq!["--all-features"@]
    } else {
        Seq::empty()
    }) + (if a.no_default_features {
        seq!["--no-default-features"@]
    } else {
        Seq::empty()
    }) + (if !a.all_targets {
        seq![
            "--filter-platform"@,
            match a.target {
                Some(t) => t,
                None => default_target,
            },
        ]
    } else {
        Seq::empty()
    }) + (match a.manifest_path {
        Some(p) => seq!["--manifest-path"@, p],
        None => Seq::empty(),
    })
}

pub open spec fn spec_meta_tail(a: ArgsV) -> Seq<Seq<char>> {
    repeat_flag("-v"@, a.verbose as int) + (match a.color {
        Some(c) => seq!["--color"@, c],
        None => Seq::empty(),
    }) + (if a.frozen {
        seq!["--frozen"@]
    } else {
        Seq::empty()
    }) + (if a.locked {
        seq!["--locked"@]
    } else {
        Seq::empty()
    }) + (if a.offline {
        seq!["--offline"@]
    } else {
        Seq::empty()
    }) + z_flags_upto(a.unstable_flags, a.unstable_flags.len() as int)
}

/// The arguments handed to the metadata provider for one invocation:
/// the metadata subcommand in its first format version, then one flag
/// per selection input that asks for one. Platform filtering is on
/// unless every target was asked for, and names the selected target or
/// the host `default_target`.
pub open spec fn spec_metadata_args(a: ArgsV, default_target: Seq<char>) -> Seq<Seq<char>> {
    spec_meta_head(a, default_target) + spec_meta_tail(a)
}

pub open spec fn arg_views(s: Seq<String>) -> Seq<Seq<char>> {
    s.map_values(|x: String| x@)
}

#[verifier::rlimit(50)]
fn meta_head(args: &Args, default_target: &str) -> (r: Vec<String>)
    ensures
        arg_views(r@) == spec_meta_head(args@, default_target@),
{
    let mut out: Vec<String> = Vec::new();
    out.push(String::from_str("metadata"));
    out.push(String::from_str("--format-version"));
    out.push(String::from_str("1"));
    let ghost s0 = seq!["metadata"@, "--format-version"@, "1"@];
    proof {
        assert(arg_views(out@) =~= s0);
    }
    if args.quiet {
        out.push(String::from_str("-q"));
    }
    let ghost s1 = s0 + (if args@.quiet {
        seq!["-q"@]
    } else {
        Seq::<Seq<char>>::empty()
    });
    proof {
        assert(arg_views(out@) =~= s1);
    }
    match &args.features {
        Some(f) => {
            out.push(String::from_str("--features"));
            out.push(f.clone());
        },
        None => {},
    }
    let ghost s2 = s1 + (match args@.features {
        Some(f) => seq!["--features"@, f],
        None => Seq::<Seq<char>>::empty(),
    });
    proof {
        assert(arg_views(out@) =~= s2);
    }
    if args.all_features {
        out.push(String::from_str("--all-features"));
    }
    let ghost s3 = s2 + (if args@.all_features {
        seq!["--all-features"@]
    } else {
        Seq::<Seq<char>>::empty()
    });
    proof {
        assert(arg_views(out@) =~= s3);
    }
    if args.no_default_features {
        out.push(String::from_str("--no-default-features"));
    }
    let ghost s4 = s3 + (if args@.no_default_features {
        seq!["--no-default-features"@]
    } else {
        Seq::<Seq<char>>::empty()
    });
    proof {
        assert(arg_views(out@) =~= s4);
    }
    if !args.all_targets {
        out.push(String::from_str("--filter-platform"));
        match &args.target {
            Some(t) => {
                out.push(t.clone());
            },
            None => {
                out.push(default_target.to_owned());
            },
        }
    }
    let ghost s5 = s4 + (if !args@.all_targets {
        seq![
            "--filter-platform"@,
            match args@.target {
                Some(t) => t,
                None => default_target@,
            },
        ]
    } else {
        Seq::<Seq<char>>::empty()
    });
    proof {
        assert(arg_views(out@) =~= s5);
    }
    match &args.manifest_path {
        Some(p) => {
            out.push(String::from_str("--manifest-path"));
            out.push(p.clone());
        },
        None => {},
    }
    let ghost s6 = s5 + (match args@.manifest_path {
        Some(p) => seq!["--manifest-path"@, p],
        None => Seq::<Seq<char>>::empty(),
    });
    proof {
        assert(arg_views(out@) =~= s6);
    }
    out
}

#[verifier::rlimit(50)]
fn meta_push_tail(args: &Args, out: &mut Vec<String>)
    ensures
        arg_views(final(out)@) == arg_views(old(out)@) + spec_meta_tail(args@),
{
    let ghost s6 = arg_views(out@);
    let ghost head = arg_views(out@);
    let nv = args.verbose;
    let mut k: u32 = 0;
    while k < nv
        invariant
            k <= nv,
            arg_views(out@) == head + repeat_flag("-v"@, k as int),
        decreases nv - k,
    {
        let ghost before = arg_views(out@);
        out.push(String::from_str("-v"));
        proof {
            assert(arg_views(out@) =~= before.push("-v"@));
            assert(arg_views(out@) =~= head + repeat_flag("-v"@, k as int + 1));
        }
        k = k + 1;
    }
    let ghost s7 = s6 + repeat_flag("-v"@, args@.verbose as int);
    proof {
        assert(arg_views(out@) =~= s7);
    }
    match &args.color {
        Some(c) => {
            out.push(String::from_str("--color"));
            out.push(c.clone());
        },
        None => {},
    }
    let ghost s8 = s7 + (match args@.color {
        Some(c) => seq!["--color"@, c],
        None => Seq::<Seq<char>>::empty(),
    });
    proof {
        assert(arg_views(out@) =~= s8);
    }
    if args.frozen {
        out.push(String::from_str("--frozen"));
    }
    let ghost s9 = s8 + (if args@.frozen {
        seq!["--frozen"@]
    } else {
        Seq::<Seq<char>>::empty()
    });
    proof {
        assert(arg_views(out@) =~= s9);
    }
    if args.locked {
        out.push(String::from_str("--locked"));
    }
    let ghost s10 = s9 + (if args@.locked {
        seq!["--locked"@]
    } else {
        Seq::<Seq<char>>::empty()
    });
    proof {
        assert(arg_views(out@) =~= s10);
    }
    if args.offline {
        out.push(String::from_str("--offline"));
    }
    let ghost s11 = s10 + (if args@.offline {
        seq!["--offline"@]
    } else {
        Seq::<Seq<char>>::empty()
    });
    proof {
        assert(arg_views(out@) =~= s11);
    }
    let ghost head2 = arg_views(out@);
    let nz = args.unstable_flags.len();
    let mut z: usize = 0;
    while z < nz
        invariant
            z <= nz,
            nz == args.unstable_flags@.len(),
            arg_views(out@) == head2 + z_flags_upto(args@.unstable_flags, z as int),
        decreases nz - z,
    {
        let ghost before = arg_views(out@);
        out.push(String::from_str("-Z"));
        out.push(args.unstable_flags[z].clone());
        proof {
            assert(args@.unstable_flags[z as int] == args.unstable_flags@[z as int]@);
            assert(arg_views(out@) =~= before.push("-Z"@).push(args@.unstable_flags[z as int]));
            assert(arg_views(out@) =~= head2 + z_flags_upto(args@.unstable_flags, z as int + 1));
        }
        z = z + 1;
    }
    proof {
        assert(args@.unstable_flags.len() == args.unstable_flags@.len());
        assert(arg_views(out@) == s11 + z_flags_upto(
            args@.unstable_flags,
            args@.unstable_flags.len() as int,
        ));
        assert(arg_views(out@) =~= old(out)@.map_values(|x: String| x@) + spec_meta_tail(args@));
    }
}

/// Build the provider's argument list from the selection inputs;
/// `default_target` is the host triple, used where platform filtering is
/// on and no target was named.
pub fn metadata_args(args: &Args, default_target: &str) -> (r: Vec<String>)
    ensures
        arg_views(r@) == spec_metadata_args(args@, default_target@),
{
    let mut out = meta_head(args, default_target);
    meta_push_tail(args, &mut out);
    out
}

// ---------------------------------------------------------------------------
// Reading the platform report
// ---------------------------------------------------------------------------

/// Whitespace as far as trimming a host triple is concerned.
pub open spec fn is_ws(c: char) -> bool {
    c == ' ' || c == '\t' || c == '\r' || c == '\n'
}

/// First index at or after `i` holding something other than whitespace.
pub open spec fn ws_start(s: Seq<char>, i: int) -> int
    decreases s.len() - i,
{
    if i < 0 {
        0
    } else if i >= s.len() {
        s.len() as int
    } else if is_ws(s[i]) {
        ws_start(s, i + 1)
    } else {
        i
    }
}

/// One past the last non-whitespace index below `i`.
pub open spec fn ws_end(s: Seq<char>, i: int) -> int
    decreases i,
{
    if i <= 0 {
        0
    } else if i > s.len() {
        s.len() as int
    } else if is_ws(s[i - 1]) {
        ws_end(s, i - 1)
    } else {
        i
    }
}

/// The text with leading and trailing whitespace removed.
pub open spec fn trimmed(s: Seq<char>) -> Seq<char> {
    let a = ws_start(s, 0);
    let b = ws_end(s, s.len() as int);
    if a >= b {
        Seq::empty()
    } else {
        s.subrange(a, b)
    }
}

/// What one line of the platform report yields: the trimmed rest of a
/// line that opens with the host marker, nothing otherwise.
pub open spec fn host_check(line: Seq<char>) -> Option<Seq<char>> {
    if line.len() >= 6 && line.subrange(0, 6) == "host: "@ {
        Some(trimmed(line.subrange(6, line.len() as int)))
    } else {
        None
    }
}

/// Scan the report line by line — the current line began at `ls` — and
/// yield the first host line's content.
pub open spec fn host_scan(s: Seq<char>, ls: int, i: int) -> Option<Seq<char>>
    decreases s.len() - i,
{
    if i < 0 || ls < 0 || ls > i {
        None
    } else if i >= s.len() {
        host_check(s.subrange(ls, s.len() as int))
    } else if s[i] == '\n' {
        match host_check(s.subrange(ls, i)) {
            Some(h) => Some(h),
            None => host_scan(s, i + 1, i + 1),
        }
    } else {
        host_scan(s, ls, i + 1)
    }
}

/// The host triple the platform report names, if any line names one.
pub open spec fn spec_host_line(s: Seq<char>) -> Option<Seq<char>> {
    host_scan(s, 0, 0)
}

fn is_ws_char(c: char) -> (r: bool)
    ensures
        r == is_ws(c),
{
    c == ' ' || c == '\t' || c == '\r' || c == '\n'
}

fn trim_text(sub: &str) -> (r: String)
    ensures
        r@ == trimmed(sub@),
{
    let m = sub.unicode_len();
    let mut a: usize = 0;
    while a < m && is_ws_char(sub.get_char(a))
        invariant
            a <= m,
            m == sub@.len(),
            ws_start(sub@, 0) == ws_start(sub@, a as int),
        decreases m - a,
    {
        a = a + 1;
    }
    proof {
        assert(ws_start(sub@, 0) == a as int);
    }
    let mut b: usize = m;
    while b > 0 && is_ws_char(sub.get_char(b - 1))
        invariant
            b <= m,
            m == sub@.len(),
            ws_end(sub@, m as int) == ws_end(sub@, b as int),
        decreases b,
    {
        b = b - 1;
    }
    proof {
        assert(ws_end(sub@, m as int) == b as int);
    }
    if a >= b {
        String::new()
    } else {
        sub.substring_char(a, b).to_owned()
    }
}

fn check_host_line(s: &str, ls: usize, le: usize) -> (r: Option<String>)
    requires
        ls <= le <= s@.len(),
    ensures
        match r {
            Some(h) => host_check(s@.subrange(ls as int, le as int)) == Some(h@),
            None => host_check(s@.subrange(ls as int, le as int)) is None,
        },
{
    let ghost line = s@.subrange(ls as int, le as int);
    if le - ls < 6 {
        return None;
    }
    let pre = s.substring_char(ls, ls + 6);
    proof {
        assert(pre@ =~= line.subrange(0, 6));
    }
    if !crate::ident::str_eq(pre, "host: ") {
        return None;
    }
    let sub = s.substring_char(ls + 6, le);
    proof {
        assert(sub@ =~= line.subrange(6, line.len() as int));
    }
    Some(trim_text(sub))
}

/// The host triple named by a platform report: the trimmed rest of the
/// first line that opens with `host: `, or nothing when no line does.
pub fn host_line(output: &str) -> (r: Option<String>)
    ensures
        match r {
            Some(h) => spec_host_line(output@) == Some(h@),
            None => spec_host_line(output@) is None,
        },
{
    let n = output.unicode_len();
    let mut ls: usize = 0;
    let mut i: usize = 0;
    while i < n
        invariant
            ls <= i <= n,
            n == output@.len(),
            spec_host_line(output@) == host_scan(output@, ls as int, i as int),
        decreases n - i,
    {
        if output.get_char(i) == '\n' {
            match check_host_line(output, ls, i) {
                Some(h) => {
                    return Some(h);
                },
                None => {
                    ls = i + 1;
                },
            }
        }
        i = i + 1;
    }
    check_host_line(output, ls, n)
}

} // verus!
