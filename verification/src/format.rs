//! Display patterns: a small template language for one package's line.
//! `{p}` stands for the package identity, `{l}` for its license, `{r}` for
//! its repository; `{{` and `}}` write literal braces. An unknown
//! placeholder or an unbalanced brace is rejected before any traversal.

use vstd::prelude::*;
use crate::errors::ErrV;
use crate::errors::TreeError;
use crate::ident::Version;
use crate::ident::VersionV;
use crate::ident::str_eq;
use crate::metadata::Package;
use crate::metadata::PackageV;

verus! {

// ---------------------------------------------------------------------------
// Chunks and their views
// ---------------------------------------------------------------------------

/// Mathematical value of one pattern piece.
#[verifier::ext_equal]
pub enum ChunkV {
    Raw(Seq<char>),
    Package,
    License,
    Repository,
}

/// One piece of a parsed pattern: literal text or a placeholder.
pub enum Chunk {
    Raw(String),
    Package,
    License,
    Repository,
}

impl View for Chunk {
    type V = ChunkV;

    open spec fn view(&self) -> ChunkV {
        match self {
            Chunk::Raw(s) => ChunkV::Raw(s@),
            Chunk::Package => ChunkV::Package,
            Chunk::License => ChunkV::License,
            Chunk::Repository => ChunkV::Repository,
        }
    }
}

pub open spec fn chunk_views(s: Seq<Chunk>) -> Seq<ChunkV> {
    s.map_values(|c: Chunk| c@)
}

// ---------------------------------------------------------------------------
// The grammar
// ---------------------------------------------------------------------------

/// Parse the pattern from position `i` on. Literal characters each form a
/// `Raw` piece; `{{` and `}}` escape braces; `{name}` names a placeholder.
pub open spec fn parse_from(s: Seq<char>, i: int) -> Result<Seq<ChunkV>, ErrV>
    decreases s.len() - i,
{
    if i < 0 || i >= s.len() {
        Ok(Seq::empty())
    } else if s[i] == '{' {
        if i + 1 < s.len() && s[i + 1] == '{' {
            parse_cons(ChunkV::Raw(seq!['{']), parse_from(s, i + 2))
        } else {
            parse_arg(s, i + 1, i + 1)
        }
    } else if s[i] == '}' {
        if i + 1 < s.len() && s[i + 1] == '}' {
            parse_cons(ChunkV::Raw(seq!['}']), parse_from(s, i + 2))
        } else {
            Err(ErrV::PatternSyntax)
        }
    } else {
        parse_cons(ChunkV::Raw(seq![s[i]]), parse_from(s, i + 1))
    }
}

/// Parse a placeholder whose name began at `start`, scanning at `i`.
pub open spec fn parse_arg(s: Seq<char>, start: int, i: int) -> Result<Seq<ChunkV>, ErrV>
    decreases s.len() - i, 1int,
{
    if i < 0 || start < 0 || start > i {
        Err(ErrV::PatternSyntax)
    } else if i >= s.len() {
        Err(ErrV::PatternSyntax)
    } else if s[i] == '}' {
        let name = s.subrange(start, i);
        if name == "p"@ {
            parse_cons(ChunkV::Package, parse_from(s, i + 1))
        } else if name == "l"@ {
            parse_cons(ChunkV::License, parse_from(s, i + 1))
        } else if name == "r"@ {
            parse_cons(ChunkV::Repository, parse_from(s, i + 1))
        } else {
            Err(ErrV::UnknownPattern { name })
        }
    } else {
        parse_arg(s, start, i + 1)
    }
}

pub open spec fn parse_cons(c: ChunkV, rest: Result<Seq<ChunkV>, ErrV>) -> Result<
    Seq<ChunkV>,
    ErrV,
> {
    match rest {
        Ok(r) => Ok(seq![c] + r),
        Err(e) => Err(e),
    }
}

/// What a whole pattern string denotes.
pub open spec fn spec_pattern(s: Seq<char>) -> Result<Seq<ChunkV>, ErrV> {
    parse_from(s, 0)
}

// ---------------------------------------------------------------------------
// Executable parser
// ---------------------------------------------------------------------------

fn parse_from_exec(s: &str, n: usize, i: usize, out: &mut Vec<Chunk>) -> (r: Result<
    (),
    TreeError,
>)
    requires
        n == s@.len(),
        i <= n,
    ensures
        match r {
            Ok(_) => parse_from(s@, i as int) is Ok && chunk_views(final(out)@) == chunk_views(
                old(out)@,
            ) + parse_from(s@, i as int)->Ok_0,
            Err(e) => parse_from(s@, i as int) == Err::<Seq<ChunkV>, ErrV>(e@),
        },
    decreases n - i, 0int,
{
    if i == n {
        proof {
            assert(chunk_views(out@) =~= chunk_views(out@) + Seq::<ChunkV>::empty());
        }
        return Ok(());
    }
    let c = s.get_char(i);
    if c == '{' {
        if i + 1 < n && s.get_char(i + 1) == '{' {
            let piece = s.substring_char(i, i + 1);
            out.push(Chunk::Raw(piece.to_owned()));
            proof {
                assert(piece@ =~= seq!['{']);
            }
            let ghost mid = out@;
            let r = parse_from_exec(s, n, i + 2, out);
            proof {
                if r is Ok {
                    assert(chunk_views(mid) =~= chunk_views(old(out)@).push(
                        ChunkV::Raw(seq!['{']),
                    ));
                    assert(chunk_views(out@) =~= chunk_views(old(out)@) + parse_from(
                        s@,
                        i as int,
                    )->Ok_0);
                }
            }
            r
        } else {
            parse_arg_exec(s, n, i + 1, i + 1, out)
        }
    } else if c == '}' {
        if i + 1 < n && s.get_char(i + 1) == '}' {
            let piece = s.substring_char(i, i + 1);
            out.push(Chunk::Raw(piece.to_owned()));
            proof {
                assert(piece@ =~= seq!['}']);
            }
            let ghost mid = out@;
            let r = parse_from_exec(s, n, i + 2, out);
            proof {
                if r is Ok {
                    assert(chunk_views(mid) =~= chunk_views(old(out)@).push(
                        ChunkV::Raw(seq!['}']),
                    ));
                    assert(chunk_views(out@) =~= chunk_views(old(out)@) + parse_from(
                        s@,
                        i as int,
                    )->Ok_0);
                }
            }
            r
        } else {
            Err(TreeError::PatternSyntax)
        }
    } else {
        let piece = s.substring_char(i, i + 1);
        out.push(Chunk::Raw(piece.to_owned()));
        proof {
            assert(piece@ =~= seq![s@[i as int]]);
        }
        let ghost mid = out@;
        let r = parse_from_exec(s, n, i + 1, out);
        proof {
            if r is Ok {
                assert(chunk_views(mid) =~= chunk_views(old(out)@).push(
                    ChunkV::Raw(seq![s@[i as int]]),
                ));
                assert(chunk_views(out@) =~= chunk_views(old(out)@) + parse_from(
                    s@,
                    i as int,
                )->Ok_0);
            }
        }
        r
    }
}

fn parse_arg_exec(s: &str, n: usize, start: usize, i: usize, out: &mut Vec<Chunk>) -> (r: Result<
    (),
    TreeError,
>)
    requires
        n == s@.len(),
        start <= i <= n,
    ensures
        match r {
            Ok(_) => parse_arg(s@, start as int, i as int) is Ok && chunk_views(final(out)@)
                == chunk_views(old(out)@) + parse_arg(s@, start as int, i as int)->Ok_0,
            Err(e) => parse_arg(s@, start as int, i as int) == Err::<Seq<ChunkV>, ErrV>(e@),
        },
    decreases n - i, 1int,
{
    if i == n {
        return Err(TreeError::PatternSyntax);
    }
    let c = s.get_char(i);
    if c == '}' {
        let name = s.substring_char(start, i);
        let chunk = if str_eq(name, "p") {
            Chunk::Package
        } else if str_eq(name, "l") {
            Chunk::License
        } else if str_eq(name, "r") {
            Chunk::Repository
        } else {
            return Err(TreeError::UnknownPattern { name: name.to_owned() });
        };
        out.push(chunk);
        let ghost mid = out@;
        let r = parse_from_exec(s, n, i + 1, out);
        proof {
            if r is Ok {
                assert(chunk_views(out@) =~= chunk_views(old(out)@) + parse_arg(
                    s@,
                    start as int,
                    i as int,
                )->Ok_0);
            }
        }
        r
    } else {
        parse_arg_exec(s, n, start, i + 1, out)
    }
}

// ---------------------------------------------------------------------------
// Pattern
// ---------------------------------------------------------------------------

/// A parsed display pattern.
pub struct Pattern {
    chunks: Vec<Chunk>,
}

impl View for Pattern {
    type V = Seq<ChunkV>;

    closed spec fn view(&self) -> Seq<ChunkV> {
        chunk_views(self.chunks@)
    }
}

impl Pattern {
    /// Parse a pattern string; rejects unknown placeholders and unbalanced
    /// braces, exactly as `spec_pattern` says.
    pub fn new(format: &str) -> (r: Result<Pattern, TreeError>)
        ensures
            match r {
                Ok(p) => spec_pattern(format@) == Ok::<Seq<ChunkV>, ErrV>(p@),
                Err(e) => spec_pattern(format@) == Err::<Seq<ChunkV>, ErrV>(e@),
            },
    {
        let n = format.unicode_len();
        let mut chunks: Vec<Chunk> = Vec::new();
        match parse_from_exec(format, n, 0, &mut chunks) {
            Ok(_) => {
                proof {
                    assert(chunk_views(chunks@) =~= Seq::<ChunkV>::empty() + parse_from(
                        format@,
                        0,
                    )->Ok_0);
                    assert(chunk_views(chunks@) =~= parse_from(format@, 0)->Ok_0);
                }
                Ok(Pattern { chunks })
            },
            Err(e) => Err(e),
        }
    }
}

// ---------------------------------------------------------------------------
// Decimal rendering
// ---------------------------------------------------------------------------

pub open spec fn digit_char(d: int) -> char {
    if d == 0 {
        '0'
    } else if d == 1 {
        '1'
    } else if d == 2 {
        '2'
    } else if d == 3 {
        '3'
    } else if d == 4 {
        '4'
    } else if d == 5 {
        '5'
    } else if d == 6 {
        '6'
    } else if d == 7 {
        '7'
    } else if d == 8 {
        '8'
    } else {
        '9'
    }
}

/// The decimal digits of `n`, most significant first.
pub open spec fn dec_chars(n: int) -> Seq<char>
    decreases n,
{
    if n < 10 {
        seq![digit_char(n)]
    } else {
        dec_chars(n / 10).push(digit_char(n % 10))
    }
}

fn digit_str(d: u64) -> (r: &'static str)
    requires
        d < 10,
    ensures
        r@ == seq![digit_char(d as int)],
{
    proof {
        reveal_strlit("0");
        reveal_strlit("1");
        reveal_strlit("2");
        reveal_strlit("3");
        reveal_strlit("4");
        reveal_strlit("5");
        reveal_strlit("6");
        reveal_strlit("7");
        reveal_strlit("8");
        reveal_strlit("9");
    }
    let r = match d {
        0 => "0",
        1 => "1",
        2 => "2",
        3 => "3",
        4 => "4",
        5 => "5",
        6 => "6",
        7 => "7",
        8 => "8",
        _ => "9",
    };
    proof {
        assert(r@ =~= seq![digit_char(d as int)]);
    }
    r
}

/// Append the decimal form of `n`.
pub fn push_u64(out: &mut String, n: u64)
    ensures
        final(out)@ == old(out)@ + dec_chars(n as int),
    decreases n,
{
    if n >= 10 {
        push_u64(out, n / 10);
    }
    out.append(digit_str(n % 10));
    proof {
        if n >= 10 {
            assert(out@ =~= old(out)@ + dec_chars(n as int));
        } else {
            assert(out@ =~= old(out)@ + dec_chars(n as int));
        }
    }
}

// ---------------------------------------------------------------------------
// Version and label text
// ---------------------------------------------------------------------------

/// The textual form of a version: `major.minor.patch`, then `-pre` and
/// `+build` when present.
pub open spec fn version_chars(v: VersionV) -> Seq<char> {
    dec_chars(v.major as int) + "."@ + dec_chars(v.minor as int) + "."@ + dec_chars(
        v.patch as int,
    ) + (if v.pre.len() > 0 {
        "-"@ + v.pre
    } else {
        Seq::empty()
    }) + (if v.build.len() > 0 {
        "+"@ + v.build
    } else {
        Seq::empty()
    })
}

/// Append the textual form of a version.
pub fn append_version(out: &mut String, v: &Version)
    ensures
        final(out)@ == old(out)@ + version_chars(v@),
{
    push_u64(out, v.major);
    out.append(".");
    push_u64(out, v.minor);
    out.append(".");
    push_u64(out, v.patch);
    if !v.pre.as_str().is_empty() {
        out.append("-");
        out.append(v.pre.as_str());
    }
    if !v.build.as_str().is_empty() {
        out.append("+");
        out.append(v.build.as_str());
    }
    proof {
        assert(out@ =~= old(out)@ + version_chars(v@));
    }
}

/// The source representation that stands for the default registry; a
/// package from there shows no source suffix.
pub open spec fn crates_io_chars() -> Seq<char> {
    "registry+https://github.com/rust-lang/crates.io-index"@
}

/// What one pattern piece writes for one package.
pub open spec fn chunk_text(c: ChunkV, p: PackageV) -> Seq<char> {
    match c {
        ChunkV::Raw(s) => s,
        ChunkV::Package => p.id.name + " v"@ + version_chars(p.id.version) + (match p.id.source {
            Some(s) => if s == crates_io_chars() {
                Seq::empty()
            } else {
                " ("@ + s + ")"@
            },
            None => " ("@ + p.manifest_dir + ")"@,
        }),
        ChunkV::License => match p.license {
            Some(l) => l,
            None => Seq::empty(),
        },
        ChunkV::Repository => match p.repository {
            Some(r) => r,
            None => Seq::empty(),
        },
    }
}

pub open spec fn display_upto(chunks: Seq<ChunkV>, p: PackageV, j: int) -> Seq<char>
    decreases j,
{
    if j <= 0 {
        Seq::empty()
    } else {
        display_upto(chunks, p, j - 1) + chunk_text(chunks[j - 1], p)
    }
}

/// The full label a pattern writes for one package.
pub open spec fn spec_display(chunks: Seq<ChunkV>, p: PackageV) -> Seq<char> {
    display_upto(chunks, p, chunks.len() as int)
}

impl Pattern {
    /// Render one package's label under this pattern.
    pub fn display(&self, package: &Package) -> (r: String)
        ensures
            r@ == spec_display(self@, package@),
    {
        let mut out = String::new();
        let n = self.chunks.len();
        let mut j: usize = 0;
        while j < n
            invariant
                j <= n,
                n == self.chunks@.len(),
                out@ == display_upto(self@, package@, j as int),
            decreases n - j,
        {
            let ghost before = out@;
            match &self.chunks[j] {
                Chunk::Raw(s) => {
                    out.append(s.as_str());
                },
                Chunk::Package => {
                    out.append(package.id.name.as_str());
                    out.append(" v");
                    append_version(&mut out, &package.id.version);
                    match &package.id.source {
                        Some(src) => {
                            if !str_eq(
                                src.as_str(),
                                "registry+https://github.com/rust-lang/crates.io-index",
                            ) {
                                out.append(" (");
                                out.append(src.as_str());
                                out.append(")");
                            }
                        },
                        None => {
                            out.append(" (");
                            out.append(package.manifest_dir.as_str());
                            out.append(")");
                        },
                    }
                },
                Chunk::License => {
                    match &package.license {
                        Some(l) => {
                            out.append(l.as_str());
                        },
                        None => {},
                    }
                },
                Chunk::Repository => {
                    match &package.repository {
                        Some(r) => {
                            out.append(r.as_str());
                        },
                        None => {},
                    }
                },
            }
            proof {
                assert(self@[j as int] == self.chunks@[j as int]@);
                assert(out@ =~= before + chunk_text(self@[j as int], package@));
                assert(out@ =~= display_upto(self@, package@, j as int + 1));
            }
            j = j + 1;
        }
        out
    }
}

} // verus!
