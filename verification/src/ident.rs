//! Package identities: name, semantic version and source origin, with the
//! total order that makes every listing of packages deterministic.

use vstd::prelude::*;

verus! {

// ---------------------------------------------------------------------------
// Views
// ---------------------------------------------------------------------------

/// Mathematical value of a semantic version.
#[verifier::ext_equal]
pub struct VersionV {
    pub major: u64,
    pub minor: u64,
    pub patch: u64,
    pub pre: Seq<char>,
    pub build: Seq<char>,
}

/// Mathematical value of a package identity.
#[verifier::ext_equal]
pub struct IdV {
    pub name: Seq<char>,
    pub version: VersionV,
    pub source: Option<Seq<char>>,
}

// ---------------------------------------------------------------------------
// Executable types
// ---------------------------------------------------------------------------

/// A semantic version: numeric triple plus pre-release and build metadata.
#[derive(Debug)]
pub struct Version {
    pub major: u64,
    pub minor: u64,
    pub patch: u64,
    pub pre: String,
    pub build: String,
}

impl View for Version {
    type V = VersionV;

    open spec fn view(&self) -> VersionV {
        VersionV {
            major: self.major,
            minor: self.minor,
            patch: self.patch,
            pre: self.pre@,
            build: self.build@,
        }
    }
}

impl Version {
    /// Build a plain release version with empty pre-release and build parts.
    pub fn release(major: u64, minor: u64, patch: u64) -> (r: Version)
        ensures
            r@ == (VersionV { major, minor, patch, pre: Seq::<char>::empty(), build: Seq::<char>::empty() }),
    {
        Version { major, minor, patch, pre: String::new(), build: String::new() }
    }

    /// A structural copy carrying the same mathematical value.
    pub fn duplicate(&self) -> (r: Version)
        ensures
            r@ == self@,
    {
        Version {
            major: self.major,
            minor: self.minor,
            patch: self.patch,
            pre: self.pre.clone(),
            build: self.build.clone(),
        }
    }
}

/// The components a version string parses into, or nothing where it does
/// not parse. What `semver` accepts takes pages to state; the name pins
/// only that the outcome depends on the string alone.
pub uninterp spec fn parsed_version(s: Seq<char>) -> Option<VersionV>;

/// Relies on `semver::Version::parse`: parsing either yields the five
/// components of a semantic version or fails, from the text alone.
#[verifier::external_body]
pub fn parse_version(s: &str) -> (r: Option<Version>)
    ensures
        (r is Some) == (parsed_version(s@) is Some),
        r matches Some(v) ==> parsed_version(s@) == Some(v@),
{
    match semver::Version::parse(s) {
        Ok(v) => Some(
            Version {
                major: v.major,
                minor: v.minor,
                patch: v.patch,
                pre: v.pre.as_str().to_owned(),
                build: v.build.as_str().to_owned(),
            },
        ),
        Err(_) => None,
    }
}

impl PartialEq for Version {
    fn eq(&self, o: &Version) -> bool {
        self.major == o.major && self.minor == o.minor && self.patch == o.patch
            && self.pre == o.pre && self.build == o.build
    }
}

impl vstd::std_specs::cmp::PartialEqSpecImpl for Version {
    open spec fn obeys_eq_spec() -> bool {
        true
    }

    open spec fn eq_spec(&self, o: &Version) -> bool {
        self@ == o@
    }
}

/// The identity of one resolved package: a name, a version and a source
/// origin. `None` as the source stands for a local (path) package. Identity
/// is the whole triple: several versions of one name are distinct packages.
#[derive(Debug)]
pub struct PackageId {
    pub name: String,
    pub version: Version,
    pub source: Option<String>,
}

impl View for PackageId {
    type V = IdV;

    open spec fn view(&self) -> IdV {
        IdV {
            name: self.name@,
            version: self.version@,
            source: match self.source {
                Some(ref s) => Some(s@),
                None => None,
            },
        }
    }
}

impl PackageId {
    /// A structural copy carrying the same mathematical value.
    pub fn duplicate(&self) -> (r: PackageId)
        ensures
            r@ == self@,
    {
        PackageId {
            name: self.name.clone(),
            version: self.version.duplicate(),
            source: match &self.source {
                Some(s) => Some(s.clone()),
                None => None,
            },
        }
    }
}

impl PartialEq for PackageId {
    fn eq(&self, o: &PackageId) -> bool {
        self.name == o.name && self.version == o.version && (match (&self.source, &o.source) {
            (None, None) => true,
            (Some(a), Some(b)) => *a == *b,
            _ => false,
        })
    }
}

impl vstd::std_specs::cmp::PartialEqSpecImpl for PackageId {
    open spec fn obeys_eq_spec() -> bool {
        true
    }

    open spec fn eq_spec(&self, o: &PackageId) -> bool {
        self@ == o@
    }
}

// ---------------------------------------------------------------------------
// Lexicographic order on character sequences
// ---------------------------------------------------------------------------

/// Lexicographic order over character sequences, by scalar value.
pub open spec fn chars_le(a: Seq<char>, b: Seq<char>) -> bool
    decreases a.len(),
{
    if a.len() == 0 {
        true
    } else if b.len() == 0 {
        false
    } else if a[0] == b[0] {
        chars_le(a.drop_first(), b.drop_first())
    } else {
        (a[0] as u32) < (b[0] as u32)
    }
}

proof fn lemma_char_cast_inj(x: char, y: char)
    requires
        x as u32 == y as u32,
    ensures
        x == y,
{
}

pub proof fn lemma_chars_le_refl(a: Seq<char>)
    ensures
        chars_le(a, a),
    decreases a.len(),
{
    if a.len() > 0 {
        lemma_chars_le_refl(a.drop_first());
    }
}

pub proof fn lemma_chars_le_total(a: Seq<char>, b: Seq<char>)
    ensures
        chars_le(a, b) || chars_le(b, a),
    decreases a.len(),
{
    if a.len() > 0 && b.len() > 0 {
        if a[0] == b[0] {
            lemma_chars_le_total(a.drop_first(), b.drop_first());
        } else if a[0] as u32 == b[0] as u32 {
            lemma_char_cast_inj(a[0], b[0]);
        }
    }
}

pub proof fn lemma_chars_le_antisym(a: Seq<char>, b: Seq<char>)
    requires
        chars_le(a, b),
        chars_le(b, a),
    ensures
        a == b,
    decreases a.len(),
{
    if a.len() == 0 {
        assert(b.len() == 0);
        assert(a =~= b);
    } else {
        assert(b.len() > 0);
        if a[0] != b[0] && a[0] as u32 == b[0] as u32 {
            lemma_char_cast_inj(a[0], b[0]);
        }
        assert(a[0] == b[0]);
        lemma_chars_le_antisym(a.drop_first(), b.drop_first());
        assert(a.len() == a.drop_first().len() + 1);
        assert(b.len() == b.drop_first().len() + 1);
        assert forall|i: int| 0 <= i < a.len() implies a[i] == b[i] by {
            if i > 0 {
                assert(a[i] == a.drop_first()[i - 1]);
                assert(b[i] == b.drop_first()[i - 1]);
            }
        }
        assert(a =~= b);
    }
}

pub proof fn lemma_chars_le_trans(a: Seq<char>, b: Seq<char>, c: Seq<char>)
    requires
        chars_le(a, b),
        chars_le(b, c),
    ensures
        chars_le(a, c),
    decreases a.len(),
{
    if a.len() > 0 && b.len() > 0 && c.len() > 0 && a[0] == b[0] && b[0] == c[0] {
        lemma_chars_le_trans(a.drop_first(), b.drop_first(), c.drop_first());
    }
}

// ---------------------------------------------------------------------------
// Order on versions and identities
// ---------------------------------------------------------------------------

/// Order on versions: numeric on the triple, then lexicographic on the
/// pre-release and build parts.
pub open spec fn ver_le(a: VersionV, b: VersionV) -> bool {
    if a.major != b.major {
        a.major < b.major
    } else if a.minor != b.minor {
        a.minor < b.minor
    } else if a.patch != b.patch {
        a.patch < b.patch
    } else if a.pre != b.pre {
        chars_le(a.pre, b.pre)
    } else {
        chars_le(a.build, b.build)
    }
}

pub open spec fn src_le(a: Option<Seq<char>>, b: Option<Seq<char>>) -> bool {
    match (a, b) {
        (Option::None, _) => true,
        (Option::Some(_), Option::None) => false,
        (Option::Some(x), Option::Some(y)) => chars_le(x, y),
    }
}

/// The full order on identities: by name, then version, then source, with a
/// local source before any named one.
pub open spec fn id_le(a: IdV, b: IdV) -> bool {
    if a.name != b.name {
        chars_le(a.name, b.name)
    } else if a.version != b.version {
        ver_le(a.version, b.version)
    } else {
        src_le(a.source, b.source)
    }
}

pub open spec fn id_lt(a: IdV, b: IdV) -> bool {
    id_le(a, b) && a != b
}

pub proof fn lemma_ver_le_refl(a: VersionV)
    ensures
        ver_le(a, a),
{
    lemma_chars_le_refl(a.build);
}

pub proof fn lemma_ver_le_total(a: VersionV, b: VersionV)
    ensures
        ver_le(a, b) || ver_le(b, a),
{
    lemma_chars_le_total(a.pre, b.pre);
    lemma_chars_le_total(a.build, b.build);
}

pub proof fn lemma_ver_le_antisym(a: VersionV, b: VersionV)
    requires
        ver_le(a, b),
        ver_le(b, a),
    ensures
        a == b,
{
    if a.major == b.major && a.minor == b.minor && a.patch == b.patch {
        if a.pre != b.pre {
            lemma_chars_le_antisym(a.pre, b.pre);
        } else {
            lemma_chars_le_antisym(a.build, b.build);
            assert(a =~= b);
        }
    }
}

pub proof fn lemma_ver_le_trans(a: VersionV, b: VersionV, c: VersionV)
    requires
        ver_le(a, b),
        ver_le(b, c),
    ensures
        ver_le(a, c),
{
    if a.major == b.major && b.major == c.major && a.minor == b.minor && b.minor == c.minor
        && a.patch == b.patch && b.patch == c.patch {
        if a.pre == b.pre && b.pre == c.pre {
            lemma_chars_le_trans(a.build, b.build, c.build);
        } else if a.pre == b.pre {
            // b.pre != c.pre decides both b <= c and a <= c
        } else if b.pre == c.pre {
            // a.pre != b.pre decides both a <= b and a <= c
        } else {
            lemma_chars_le_trans(a.pre, b.pre, c.pre);
            if a.pre == c.pre {
                lemma_chars_le_antisym(b.pre, c.pre);
            }
        }
    }
}

pub proof fn lemma_src_le_refl(a: Option<Seq<char>>)
    ensures
        src_le(a, a),
{
    match a {
        Option::Some(x) => lemma_chars_le_refl(x),
        Option::None => (),
    }
}

pub proof fn lemma_src_le_total(a: Option<Seq<char>>, b: Option<Seq<char>>)
    ensures
        src_le(a, b) || src_le(b, a),
{
    match (a, b) {
        (Option::Some(x), Option::Some(y)) => lemma_chars_le_total(x, y),
        _ => (),
    }
}

pub proof fn lemma_src_le_antisym(a: Option<Seq<char>>, b: Option<Seq<char>>)
    requires
        src_le(a, b),
        src_le(b, a),
    ensures
        a == b,
{
    match (a, b) {
        (Option::Some(x), Option::Some(y)) => lemma_chars_le_antisym(x, y),
        _ => (),
    }
}

pub proof fn lemma_src_le_trans(a: Option<Seq<char>>, b: Option<Seq<char>>, c: Option<Seq<char>>)
    requires
        src_le(a, b),
        src_le(b, c),
    ensures
        src_le(a, c),
{
    match (a, b, c) {
        (Option::Some(x), Option::Some(y), Option::Some(z)) => lemma_chars_le_trans(x, y, z),
        _ => (),
    }
}

pub proof fn lemma_id_le_refl(a: IdV)
    ensures
        id_le(a, a),
{
    lemma_src_le_refl(a.source);
}

pub proof fn lemma_id_le_total(a: IdV, b: IdV)
    ensures
        id_le(a, b) || id_le(b, a),
{
    lemma_chars_le_total(a.name, b.name);
    lemma_ver_le_total(a.version, b.version);
    lemma_src_le_total(a.source, b.source);
}

pub proof fn lemma_id_le_antisym(a: IdV, b: IdV)
    requires
        id_le(a, b),
        id_le(b, a),
    ensures
        a == b,
{
    if a.name == b.name {
        if a.version == b.version {
            lemma_src_le_antisym(a.source, b.source);
            assert(a =~= b);
        } else {
            lemma_ver_le_antisym(a.version, b.version);
        }
    } else {
        lemma_chars_le_antisym(a.name, b.name);
    }
}

pub proof fn lemma_id_le_trans(a: IdV, b: IdV, c: IdV)
    requires
        id_le(a, b),
        id_le(b, c),
    ensures
        id_le(a, c),
{
    if a.name == b.name && b.name == c.name {
        if a.version == b.version && b.version == c.version {
            lemma_src_le_trans(a.source, b.source, c.source);
        } else if a.version == b.version {
        } else if b.version == c.version {
        } else {
            lemma_ver_le_trans(a.version, b.version, c.version);
            if a.version == c.version {
                lemma_ver_le_antisym(b.version, c.version);
            }
        }
    } else if a.name == b.name {
    } else if b.name == c.name {
    } else {
        lemma_chars_le_trans(a.name, b.name, c.name);
        if a.name == c.name {
            lemma_chars_le_antisym(b.name, c.name);
        }
    }
}

pub proof fn lemma_id_lt_trans(a: IdV, b: IdV, c: IdV)
    requires
        id_lt(a, b),
        id_lt(b, c),
    ensures
        id_lt(a, c),
{
    lemma_id_le_trans(a, b, c);
    if a == c {
        lemma_id_le_antisym(a, b);
    }
}

pub proof fn lemma_id_lt_or_ge(a: IdV, b: IdV)
    requires
        a != b,
        !id_lt(a, b),
    ensures
        id_lt(b, a),
{
    lemma_id_le_total(a, b);
}

// ---------------------------------------------------------------------------
// Executable comparisons
// ---------------------------------------------------------------------------

/// Equality of string slices as character sequences.
pub fn str_eq(a: &str, b: &str) -> (r: bool)
    ensures
        r == (a@ == b@),
{
    let alen = a.unicode_len();
    let blen = b.unicode_len();
    if alen != blen {
        return false;
    }
    let mut i: usize = 0;
    loop
        invariant
            i <= alen,
            alen == a@.len(),
            alen == b@.len(),
            forall|k: int| 0 <= k < i ==> a@[k] == b@[k],
        decreases alen - i,
    {
        if i == alen {
            proof {
                assert(a@ =~= b@);
            }
            return true;
        }
        if a.get_char(i) != b.get_char(i) {
            return false;
        }
        i = i + 1;
    }
}

/// Lexicographic comparison of string slices.
pub fn str_le(a: &str, b: &str) -> (r: bool)
    ensures
        r == chars_le(a@, b@),
{
    let alen = a.unicode_len();
    let blen = b.unicode_len();
    let mut i: usize = 0;
    proof {
        assert(a@.skip(0) =~= a@);
        assert(b@.skip(0) =~= b@);
    }
    loop
        invariant
            i <= alen,
            i <= blen,
            alen == a@.len(),
            blen == b@.len(),
            chars_le(a@, b@) == chars_le(a@.skip(i as int), b@.skip(i as int)),
        decreases alen - i,
    {
        if i == alen {
            return true;
        }
        if i == blen {
            return false;
        }
        let ca = a.get_char(i);
        let cb = b.get_char(i);
        if ca == cb {
            proof {
                assert(a@.skip(i as int).drop_first() =~= a@.skip(i as int + 1));
                assert(b@.skip(i as int).drop_first() =~= b@.skip(i as int + 1));
            }
            i = i + 1;
        } else {
            return (ca as u32) < (cb as u32);
        }
    }
}

impl Version {
    pub fn le(&self, o: &Version) -> (r: bool)
        ensures
            r == ver_le(self@, o@),
    {
        if self.major != o.major {
            self.major < o.major
        } else if self.minor != o.minor {
            self.minor < o.minor
        } else if self.patch != o.patch {
            self.patch < o.patch
        } else if !(self.pre == o.pre) {
            str_le(self.pre.as_str(), o.pre.as_str())
        } else {
            str_le(self.build.as_str(), o.build.as_str())
        }
    }
}

impl PackageId {
    pub fn le(&self, o: &PackageId) -> (r: bool)
        ensures
            r == id_le(self@, o@),
    {
        if !(self.name == o.name) {
            str_le(self.name.as_str(), o.name.as_str())
        } else if !(self.version == o.version) {
            self.version.le(&o.version)
        } else {
            match (&self.source, &o.source) {
                (None, _) => true,
                (Some(_), None) => false,
                (Some(x), Some(y)) => str_le(x.as_str(), y.as_str()),
            }
        }
    }

    pub fn lt(&self, o: &PackageId) -> (r: bool)
        ensures
            r == id_lt(self@, o@),
    {
        self.le(o) && !(self == o)
    }
}

} // verus!
