use cargo_tree::args::Args;
use cargo_tree::args::Charset;
use cargo_tree::common::DepKind;
use cargo_tree::common::RawKind;
use cargo_tree::errors::TreeError;
use cargo_tree::format::Pattern;
use cargo_tree::ident::PackageId;
use cargo_tree::ident::Version;
use cargo_tree::metadata::host_line;
use cargo_tree::metadata::metadata_args;
use cargo_tree::metadata::Package;

const CRATES_IO: &str = "registry+https://github.com/rust-lang/crates.io-index";

fn sample_package() -> Package {
    Package {
        id: PackageId {
            name: "widget".to_string(),
            version: Version {
                major: 1,
                minor: 2,
                patch: 3,
                pre: String::new(),
                build: String::new(),
            },
            source: Some(CRATES_IO.to_string()),
        },
        license: Some("MIT".to_string()),
        repository: Some("https://example.invalid/widget".to_string()),
        manifest_dir: "/src/widget".to_string(),
    }
}

#[test]
fn package_placeholder_shows_name_and_version() {
    let p = Pattern::new("{p}").expect("parses");
    assert_eq!(p.display(&sample_package()), "widget v1.2.3");
}

#[test]
fn license_and_repository_placeholders() {
    let p = Pattern::new("{p} ({l}) [{r}]").expect("parses");
    assert_eq!(
        p.display(&sample_package()),
        "widget v1.2.3 (MIT) [https://example.invalid/widget]"
    );
}

#[test]
fn missing_metadata_renders_as_empty() {
    let mut pkg = sample_package();
    pkg.license = None;
    pkg.repository = None;
    let p = Pattern::new("{l}|{r}").expect("parses");
    assert_eq!(p.display(&pkg), "|");
}

#[test]
fn escaped_braces_are_literal() {
    let p = Pattern::new("{{{p}}}").expect("parses");
    assert_eq!(p.display(&sample_package()), "{widget v1.2.3}");
}

#[test]
fn unknown_placeholder_is_rejected_with_its_name() {
    match Pattern::new("{p} {x}") {
        Err(TreeError::UnknownPattern { name }) => assert_eq!(name, "x"),
        _ => panic!("expected UnknownPattern"),
    }
}

#[test]
fn unbalanced_braces_are_rejected() {
    assert!(matches!(Pattern::new("{p"), Err(TreeError::PatternSyntax)));
    assert!(matches!(Pattern::new("a}b"), Err(TreeError::PatternSyntax)));
}

#[test]
fn pre_release_and_build_metadata_are_shown() {
    let mut pkg = sample_package();
    pkg.id.version.pre = "alpha.1".to_string();
    pkg.id.version.build = "42".to_string();
    let p = Pattern::new("{p}").expect("parses");
    assert_eq!(p.display(&pkg), "widget v1.2.3-alpha.1+42");
}

#[test]
fn local_package_shows_its_manifest_directory() {
    let mut pkg = sample_package();
    pkg.id.source = None;
    let p = Pattern::new("{p}").expect("parses");
    assert_eq!(p.display(&pkg), "widget v1.2.3 (/src/widget)");
}

#[test]
fn named_source_other_than_the_registry_is_shown() {
    let mut pkg = sample_package();
    pkg.id.source = Some("git+https://example.invalid/widget.git".to_string());
    let p = Pattern::new("{p}").expect("parses");
    assert_eq!(
        p.display(&pkg),
        "widget v1.2.3 (git+https://example.invalid/widget.git)"
    );
}

#[test]
fn charset_names_parse() {
    assert!(matches!(Charset::from_str("utf8"), Ok(Charset::Utf8)));
    assert!(matches!(Charset::from_str("ascii"), Ok(Charset::Ascii)));
    assert!(Charset::from_str("latin1").is_err());
}

#[test]
fn raw_kind_names_map_onto_dependency_kinds() {
    assert_eq!(DepKind::from(RawKind::Normal), DepKind::Normal);
    assert_eq!(DepKind::from(RawKind::Dev), DepKind::Development);
    assert_eq!(DepKind::from(RawKind::Build), DepKind::Build);
}

#[test]
fn provider_arguments_for_a_bare_invocation() {
    let args = Args::default();
    assert_eq!(
        metadata_args(&args, "x86_64-unknown-linux-gnu"),
        vec![
            "metadata",
            "--format-version",
            "1",
            "--filter-platform",
            "x86_64-unknown-linux-gnu",
        ]
    );
}

#[test]
fn provider_arguments_reflect_every_flag() {
    let mut args = Args::default();
    args.quiet = true;
    args.features = Some("fast small".to_string());
    args.all_features = true;
    args.no_default_features = true;
    args.target = Some("wasm32-unknown-unknown".to_string());
    args.manifest_path = Some("/src/app/Cargo.toml".to_string());
    args.verbose = 2;
    args.color = Some("never".to_string());
    args.frozen = true;
    args.locked = true;
    args.offline = true;
    args.unstable_flags = vec!["unstable-options".to_string()];
    assert_eq!(
        metadata_args(&args, "x86_64-unknown-linux-gnu"),
        vec![
            "metadata",
            "--format-version",
            "1",
            "-q",
            "--features",
            "fast small",
            "--all-features",
            "--no-default-features",
            "--filter-platform",
            "wasm32-unknown-unknown",
            "--manifest-path",
            "/src/app/Cargo.toml",
            "-v",
            "-v",
            "--color",
            "never",
            "--frozen",
            "--locked",
            "--offline",
            "-Z",
            "unstable-options",
        ]
    );
}

#[test]
fn host_line_is_found_and_trimmed() {
    let report = "rustc 1.75.0\nbinary: rustc\nhost: x86_64-unknown-linux-gnu \r\nrelease: 1.75.0\n";
    assert_eq!(
        host_line(report),
        Some("x86_64-unknown-linux-gnu".to_string())
    );
}

#[test]
fn report_without_a_host_yields_nothing() {
    assert_eq!(host_line("rustc 1.75.0\nrelease: 1.75.0"), None);
    assert_eq!(host_line(""), None);
}

#[test]
fn host_marker_must_open_the_line() {
    assert_eq!(host_line("the host: is elsewhere\n"), None);
    assert_eq!(host_line("host: here"), Some("here".to_string()));
}

#[test]
fn all_targets_turns_platform_filtering_off() {
    let mut args = Args::default();
    args.all_targets = true;
    assert_eq!(
        metadata_args(&args, "x86_64-unknown-linux-gnu"),
        vec!["metadata", "--format-version", "1"]
    );
}
