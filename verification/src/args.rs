//! The selection inputs of one invocation, as the command line hands them
//! over, reduced to plain values.

use vstd::prelude::*;
use crate::ident::str_eq;

verus! {

/// Character set used by the indented rendering style.
#[derive(Clone, Copy, PartialEq, Eq, Structural, Debug)]
pub enum Charset {
    Utf8,
    Ascii,
}

impl Charset {
    /// Parse a charset name; only `utf8` and `ascii` are known.
    pub fn from_str(s: &str) -> (r: Result<Charset, &'static str>)
        ensures
            s@ == "utf8"@ ==> r == Ok::<Charset, &'static str>(Charset::Utf8),
            s@ == "ascii"@ ==> r == Ok::<Charset, &'static str>(Charset::Ascii),
            s@ != "utf8"@ && s@ != "ascii"@ ==> (match r {
                Ok(_) => false,
                Err(m) => m@ == "invalid charset"@,
            }),
    {
        proof {
            reveal_strlit("utf8");
            reveal_strlit("ascii");
            assert("utf8"@.len() == 4);
            assert("ascii"@.len() == 5);
            assert("utf8"@ != "ascii"@);
        }
        if str_eq(s, "utf8") {
            Ok(Charset::Utf8)
        } else if str_eq(s, "ascii") {
            Ok(Charset::Ascii)
        } else {
            Err("invalid charset")
        }
    }
}

/// Mathematical value of the argument set.
#[verifier::ext_equal]
pub struct ArgsV {
    pub package: Option<Seq<char>>,
    pub features: Option<Seq<char>>,
    pub all_features: bool,
    pub no_default_features: bool,
    pub target: Option<Seq<char>>,
    pub all_targets: bool,
    pub no_dev_dependencies: bool,
    pub manifest_path: Option<Seq<char>>,
    pub invert: bool,
    pub no_indent: bool,
    pub prefix_depth: bool,
    pub all: bool,
    pub duplicates: bool,
    pub charset: Charset,
    pub format: Seq<char>,
    pub verbose: u32,
    pub quiet: bool,
    pub color: Option<Seq<char>>,
    pub frozen: bool,
    pub locked: bool,
    pub offline: bool,
    pub unstable_flags: Seq<Seq<char>>,
}

/// Every selection input of one run. The unverified front end fills this
/// from the command line; the defaults below match what it would fill for
/// a bare invocation.
pub struct Args {
    /// Package to be used as the root of the tree.
    pub package: Option<String>,
    /// Space-separated list of features to activate.
    pub features: Option<String>,
    /// Activate all available features.
    pub all_features: bool,
    /// Do not activate the `default` feature.
    pub no_default_features: bool,
    /// Set the target triple.
    pub target: Option<String>,
    /// Return dependencies for all targets, not only the host target.
    pub all_targets: bool,
    /// Skip dev dependencies.
    pub no_dev_dependencies: bool,
    /// Path to the manifest to analyze.
    pub manifest_path: Option<String>,
    /// Invert the tree direction.
    pub invert: bool,
    /// Display the dependencies as a list rather than a tree.
    pub no_indent: bool,
    /// Display the dependencies as a list prefixed with their depth.
    pub prefix_depth: bool,
    /// Do not truncate dependencies that have already been displayed.
    pub all: bool,
    /// Show only dependencies which come in multiple versions.
    pub duplicates: bool,
    /// Character set to use in output.
    pub charset: Charset,
    /// Format string used for printing dependencies.
    pub format: String,
    /// Verbosity level asked of the metadata provider.
    pub verbose: u32,
    /// No output printed to stdout other than the tree.
    pub quiet: bool,
    /// Coloring choice handed to the metadata provider.
    pub color: Option<String>,
    /// Require the lock file and cache to be up to date.
    pub frozen: bool,
    /// Require the lock file to be up to date.
    pub locked: bool,
    /// Do not access the network.
    pub offline: bool,
    /// Unstable flags handed to the metadata provider.
    pub unstable_flags: Vec<String>,
}

impl View for Args {
    type V = ArgsV;

    open spec fn view(&self) -> ArgsV {
        ArgsV {
            package: match self.package {
                Some(ref s) => Some(s@),
                None => None,
            },
            features: match self.features {
                Some(ref s) => Some(s@),
                None => None,
            },
            all_features: self.all_features,
            no_default_features: self.no_default_features,
            target: match self.target {
                Some(ref s) => Some(s@),
                None => None,
            },
            all_targets: self.all_targets,
            no_dev_dependencies: self.no_dev_dependencies,
            manifest_path: match self.manifest_path {
                Some(ref s) => Some(s@),
                None => None,
            },
            invert: self.invert,
            no_indent: self.no_indent,
            prefix_depth: self.prefix_depth,
            all: self.all,
            duplicates: self.duplicates,
            charset: self.charset,
            format: self.format@,
            verbose: self.verbose,
            quiet: self.quiet,
            color: match self.color {
                Some(ref s) => Some(s@),
                None => None,
            },
            frozen: self.frozen,
            locked: self.locked,
            offline: self.offline,
            unstable_flags: self.unstable_flags@.map_values(|s: String| s@),
        }
    }
}

impl Default for Args {
    /// The argument set of a bare invocation: everything off, the default
    /// display pattern, the Unicode charset.
    fn default() -> (r: Args)
        ensures
            r@.package is None,
            r@.features is None,
            !r@.all_features,
            !r@.no_default_features,
            r@.target is None,
            !r@.all_targets,
            !r@.no_dev_dependencies,
            r@.manifest_path is None,
            !r@.invert,
            !r@.no_indent,
            !r@.prefix_depth,
            !r@.all,
            !r@.duplicates,
            r@.charset == Charset::Utf8,
            r@.format == "{p}"@,
            r@.verbose == 0,
            !r@.quiet,
            r@.color is None,
            !r@.frozen,
            !r@.locked,
            !r@.offline,
            r@.unstable_flags == Seq::<Seq<char>>::empty(),
    {
        let r = Args {
            package: None,
            features: None,
            all_features: false,
            no_default_features: false,
            target: None,
            all_targets: false,
            no_dev_dependencies: false,
            manifest_path: None,
            invert: false,
            no_indent: false,
            prefix_depth: false,
            all: false,
            duplicates: false,
            charset: Charset::Utf8,
            format: String::from_str("{p}"),
            verbose: 0,
            quiet: false,
            color: None,
            frozen: false,
            locked: false,
            offline: false,
            unstable_flags: Vec::new(),
        };
        proof {
            assert(r@.unstable_flags =~= Seq::<Seq<char>>::empty());
        }
        r
    }
}

/// The command surface: this tool is one subcommand.
pub enum Opts {
    Tree(Args),
}

} // verus!
