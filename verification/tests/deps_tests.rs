use context_snipe::deps::{
    clean_semver, collect, decode, parse_cargo_lock, parse_go_mod, parse_go_sum,
    parse_package_json, parse_package_lock, parse_pep_lock, parse_pnpm_key, parse_pnpm_lock,
    parse_requirements, parse_yarn_lock, select_files, yarn_name, yarn_version, DepFile, Ecosystem,
    FileKind, Package, Presence,
};

fn triples(pkgs: &[Package]) -> Vec<(String, String, Ecosystem)> {
    pkgs.iter()
        .map(|p| (p.name.clone(), p.version.clone(), p.ecosystem))
        .collect()
}

fn t(n: &str, v: &str, e: Ecosystem) -> (String, String, Ecosystem) {
    (n.to_string(), v.to_string(), e)
}

#[test]
fn pnpm_key_parsing() {
    assert_eq!(
        parse_pnpm_key("lodash@4.17.11"),
        Some(("lodash".into(), "4.17.11".into()))
    );
    assert_eq!(
        parse_pnpm_key("/@babel/core@7.0.0"),
        Some(("@babel/core".into(), "7.0.0".into()))
    );
    assert_eq!(
        parse_pnpm_key("'@babel/core@7.0.0'"),
        Some(("@babel/core".into(), "7.0.0".into()))
    );
    assert_eq!(
        parse_pnpm_key("lodash@4.17.11(react@18.0.0)"),
        Some(("lodash".into(), "4.17.11".into()))
    );
    assert_eq!(
        parse_pnpm_key("@babel/core/7.0.0"),
        Some(("@babel/core".into(), "7.0.0".into()))
    );
    assert_eq!(parse_pnpm_key("some-key-no-version"), None);
}

#[test]
fn yarn_name_and_version_parsing() {
    assert_eq!(yarn_name("lodash@^4.17.11").as_deref(), Some("lodash"));
    assert_eq!(yarn_name("\"@babel/core@^7.0.0\"").as_deref(), Some("@babel/core"));
    assert_eq!(yarn_name("\"lodash@npm:^4.17.11\"").as_deref(), Some("lodash"));
    assert_eq!(yarn_version("version \"4.17.21\"").as_deref(), Some("4.17.21"));
    assert_eq!(yarn_version("version: 4.17.21").as_deref(), Some("4.17.21"));
    assert_eq!(yarn_version("resolved \"https://x\""), None);
}

#[test]
fn clean_semver_pins_ranges_and_rejects_unpinnable() {
    assert_eq!(clean_semver("^4.18.2").as_deref(), Some("4.18.2"));
    assert_eq!(clean_semver("~1.2.3").as_deref(), Some("1.2.3"));
    assert_eq!(clean_semver(">=2.0.0").as_deref(), Some("2.0.0"));
    assert_eq!(clean_semver("1.0.0").as_deref(), Some("1.0.0"));
    assert_eq!(clean_semver("*"), None);
    assert_eq!(clean_semver("latest"), None);
    assert_eq!(clean_semver("workspace:*"), None);
    // A bare major (no dot) is not a usable exact version.
    assert_eq!(clean_semver("7"), None);
}

#[test]
fn clean_semver_rejects_git_url_and_path_specs() {
    assert_eq!(clean_semver("git+https://github.com/u/r.git#v1.2.3"), None);
    assert_eq!(clean_semver("https://example.com/pkg-1.0.0.tgz"), None);
    assert_eq!(clean_semver("github:user/repo#1.2.3"), None);
    assert_eq!(clean_semver("user/repo#v2.0.0"), None);
    assert_eq!(clean_semver("file:../lib-1.0.0"), None);
    assert_eq!(clean_semver("./vendor/lib-1.0.0"), None);
    assert_eq!(clean_semver("/abs/lib-1.0.0.tgz"), None);
    assert_eq!(clean_semver("link:../lib-2.0.0"), None);
    assert_eq!(clean_semver("git://host/r.git#1.2.3"), None);
}

#[test]
fn clean_semver_reads_protocol_ranges() {
    // An npm alias or a workspace range is no git, URL or path spec.
    assert_eq!(clean_semver("npm:lodash@^4.17.11").as_deref(), Some("4.17.11"));
    assert_eq!(clean_semver("npm:@s/x@~1.2.3").as_deref(), Some("1.2.3"));
    assert_eq!(clean_semver("workspace:^1.2.3").as_deref(), Some("1.2.3"));
    assert_eq!(clean_semver(" ^1.2.3 ").as_deref(), Some("1.2.3"));
}

#[test]
fn clean_semver_is_idempotent() {
    for spec in ["^4.18.2", "  >= 1.2.3 < 2.0.0 ", "1.2.3-beta.1", "v10.0", "~0.1."] {
        let v = clean_semver(spec).unwrap();
        assert_eq!(clean_semver(&v).as_deref(), Some(v.as_str()));
        assert!(spec.contains(v.as_str()));
    }
}

#[test]
fn clean_semver_takes_first_dotted_run() {
    assert_eq!(clean_semver("  >= 1.2.3 < 2.0.0 ").as_deref(), Some("1.2.3"));
    assert_eq!(clean_semver("1.2.3-beta.1").as_deref(), Some("1.2.3"));
    assert_eq!(clean_semver("v10.0"), Some("10.0".to_string()));
    assert_eq!(clean_semver(""), None);
}

#[test]
fn pnpm_key_edge_cases() {
    // Surrounding whitespace and double quotes are dropped.
    assert_eq!(
        parse_pnpm_key("  \"left-pad@1.3.0\"  "),
        Some(("left-pad".into(), "1.3.0".into()))
    );
    // A version that does not start with a digit is refused.
    assert_eq!(parse_pnpm_key("foo@latest"), None);
    // A key that is only a scope has no name.
    assert_eq!(parse_pnpm_key("/1.0.0"), None);
}

#[test]
fn yarn_name_edge_cases() {
    assert_eq!(yarn_name("lodash"), None);
    assert_eq!(yarn_name("@scope/x"), None);
    assert_eq!(yarn_version("version \"\""), None);
    assert_eq!(yarn_version("  version:   \"1.2.3\"  ").as_deref(), Some("1.2.3"));
}

#[test]
fn ecosystem_names() {
    assert_eq!(Ecosystem::CratesIo.osv_name(), "crates.io");
    assert_eq!(Ecosystem::Npm.osv_name(), "npm");
    assert_eq!(Ecosystem::PyPI.osv_name(), "PyPI");
    assert_eq!(Ecosystem::Go.osv_name(), "Go");
    assert_eq!(Ecosystem::CratesIo.label(), "cargo");
    assert_eq!(Ecosystem::Npm.label(), "npm");
    assert_eq!(Ecosystem::PyPI.label(), "pip");
    assert_eq!(Ecosystem::Go.label(), "go");
}

#[test]
fn requirements_keeps_pinned_lines_only() {
    let text = "# comment\n-r base.txt\n\nrequests==2.31.0\nflask>=2.0\nuvicorn[standard]==0.23.1 ; python_version>'3'\r\nDjango==4.2.7+local.1\n==1.0\nname==\n";
    assert_eq!(
        triples(&parse_requirements(text)),
        vec![
            t("requests", "2.31.0", Ecosystem::PyPI),
            t("uvicorn", "0.23.1", Ecosystem::PyPI),
            t("Django", "4.2.7+local.1", Ecosystem::PyPI),
        ]
    );
}

#[test]
fn requirements_version_after_space_is_empty() {
    // The version is read right after `==`: a space there leaves it empty.
    assert_eq!(triples(&parse_requirements("pkg== 1.0\n")), vec![]);
}

#[test]
fn go_sum_skips_go_mod_lines_and_duplicates() {
    let text = "github.com/a/b v1.2.3 h1:abc=\ngithub.com/a/b v1.2.3/go.mod h1:def=\ngithub.com/a/b v1.2.3 h1:abc=\ngolang.org/x/text v0.3.7 h1:x=\n\nlonely\n";
    assert_eq!(
        triples(&parse_go_sum(text)),
        vec![
            t("github.com/a/b", "1.2.3", Ecosystem::Go),
            t("golang.org/x/text", "0.3.7", Ecosystem::Go),
        ]
    );
}

#[test]
fn go_mod_reads_require_lines_and_blocks() {
    let text = "module example.com/m\n\ngo 1.21\n\nrequire github.com/pkg/errors v0.9.1\n\nrequire (\n\tgolang.org/x/net v0.17.0 // indirect\n\tgithub.com/bad/ver vmaster\n\texample.com/z v2.0.0+incompatible\n)\n\nreplace a => b v1.0.0\n";
    assert_eq!(
        triples(&parse_go_mod(text)),
        vec![
            t("github.com/pkg/errors", "0.9.1", Ecosystem::Go),
            t("golang.org/x/net", "0.17.0", Ecosystem::Go),
            t("example.com/z", "2.0.0+incompatible", Ecosystem::Go),
        ]
    );
}

#[test]
fn pnpm_lock_reads_packages_block_keys() {
    let text = "lockfileVersion: '6.0'\n\ndependencies:\n  lodash:\n    specifier: ^4.17.11\n    version: 4.17.11\n\npackages:\n\n  /lodash@4.17.11:\n    resolution: {integrity: sha512-x}\n    dev: false\n\n  /@babel/core@7.0.0(supports-color@5.5.0):\n    resolution: {integrity: sha512-y}\n\nsettings:\n  /ignored@1.0.0:\n";
    assert_eq!(
        triples(&parse_pnpm_lock(text)),
        vec![
            t("lodash", "4.17.11", Ecosystem::Npm),
            t("@babel/core", "7.0.0", Ecosystem::Npm),
        ]
    );
}

#[test]
fn pnpm_lock_v9_quoted_keys() {
    let text = "packages:\r\n  '@types/node@20.1.0':\r\n    resolution: {}\r\n  tslib@2.6.2:\r\n";
    assert_eq!(
        triples(&parse_pnpm_lock(text)),
        vec![
            t("@types/node", "20.1.0", Ecosystem::Npm),
            t("tslib", "2.6.2", Ecosystem::Npm),
        ]
    );
}

#[test]
fn yarn_lock_classic_and_berry() {
    let classic = "# yarn lockfile v1\n\n\nlodash@^4.17.11, lodash@^4.17.21:\n  version \"4.17.21\"\n  resolved \"https://registry.yarnpkg.com/lodash/-/lodash-4.17.21.tgz\"\n\n\"@babel/core@^7.0.0\":\n  version \"7.23.0\"\n";
    assert_eq!(
        triples(&parse_yarn_lock(classic)),
        vec![
            t("lodash", "4.17.21", Ecosystem::Npm),
            t("@babel/core", "7.23.0", Ecosystem::Npm),
        ]
    );
    let berry = "__metadata:\n  version: 6\n\n\"lodash@npm:^4.17.21\":\n  version: 4.17.21\n  resolution: \"lodash@npm:4.17.21\"\n";
    assert_eq!(
        triples(&parse_yarn_lock(berry)),
        vec![t("lodash", "4.17.21", Ecosystem::Npm)]
    );
}

fn decoded(kind: FileKind, text: &str) -> DepFile {
    decode(kind, "/p/file", text.to_string()).unwrap()
}

#[test]
fn toml_lock_entries_need_name_and_version() {
    let text = "version = 3\n\n[[package]]\nname = \"serde\"\nversion = \"1.0.193\"\n\n[[package]]\nname = \"no-version\"\n\n[[package]]\nversion = \"1.0.0\"\n\n[[package]]\nname = \"anyhow\"\nversion = \"1.0.75\"\nsource = \"registry+https://github.com/rust-lang/crates.io-index\"\n\n[[package]]\nname = \"numeric\"\nversion = 2\n";
    let DepFile::CargoLock(doc) = decoded(FileKind::CargoLock, text) else {
        panic!("a Cargo.lock decodes to a TOML document")
    };
    assert_eq!(
        triples(&parse_cargo_lock(&doc)),
        vec![
            t("serde", "1.0.193", Ecosystem::CratesIo),
            t("anyhow", "1.0.75", Ecosystem::CratesIo),
        ]
    );
    assert_eq!(
        triples(&parse_pep_lock(&doc)),
        vec![
            t("serde", "1.0.193", Ecosystem::PyPI),
            t("anyhow", "1.0.75", Ecosystem::PyPI),
        ]
    );
    assert_eq!(
        triples(&decoded(FileKind::UvLock, text).packages()),
        vec![t("serde", "1.0.193", Ecosystem::PyPI), t("anyhow", "1.0.75", Ecosystem::PyPI)]
    );
    // No `package` array, or one that is not an array: no packages.
    assert!(decoded(FileKind::CargoLock, "version = 3\n").packages().is_empty());
    assert!(decoded(FileKind::CargoLock, "package = \"x\"\n").packages().is_empty());
}

#[test]
fn decode_errors_name_the_file() {
    let e = decode(FileKind::CargoLock, "/p/Cargo.lock", "[[package]\n".to_string()).err().unwrap();
    assert!(e.starts_with("Cargo.lock: "), "{e}");
    let e = decode(FileKind::PoetryLock, "/p/poetry.lock", "= x".to_string()).err().unwrap();
    assert!(e.starts_with("/p/poetry.lock: "), "{e}");
    let e = decode(FileKind::PackageLock, "/p/package-lock.json", "{".to_string()).err().unwrap();
    assert!(e.starts_with("package-lock.json: "), "{e}");
    let e = decode(FileKind::PackageJson, "/p/package.json", "nope".to_string()).err().unwrap();
    assert!(e.starts_with("package.json: "), "{e}");
    // The line-oriented formats are kept as text.
    assert!(decode(FileKind::GoMod, "/p/go.mod", "{{{".to_string()).is_ok());
}

#[test]
fn package_lock_v2_uses_install_paths() {
    let text = r#"{
        "name": "root", "lockfileVersion": 3,
        "packages": {
            "": {"version": "1.0.0"},
            "node_modules/a": {"version": "1.0.0"},
            "node_modules/a/node_modules/@s/b": {"version": "2.0.0"},
            "node_modules/c": {"resolved": "x"},
            "node_modules/d": {"version": 4},
            "packages/local": {"version": "0.1.0"},
            "node_modules/": {"version": "9.9.9"}
        },
        "dependencies": {"ignored": {"version": "1.0.0"}}
    }"#;
    let DepFile::PackageLock(doc) = decoded(FileKind::PackageLock, text) else {
        panic!("a package-lock.json decodes to a JSON document")
    };
    assert_eq!(
        triples(&parse_package_lock(&doc)),
        vec![
            t("a", "1.0.0", Ecosystem::Npm),
            t("@s/b", "2.0.0", Ecosystem::Npm),
            t("packages/local", "0.1.0", Ecosystem::Npm),
        ]
    );
}

#[test]
fn package_lock_v1_walks_tree_depth_first() {
    let text = r#"{
        "lockfileVersion": 1,
        "dependencies": {
            "a": {"version": "1.0.0", "dependencies": {
                "b": {"version": "2.0.0", "dependencies": {"c": {"version": "3.0.0"}}}
            }},
            "d": {"dependencies": {"e": {"version": "5.0.0"}}},
            "f": "not an object"
        }
    }"#;
    assert_eq!(
        triples(&decoded(FileKind::PackageLock, text).packages()),
        vec![
            t("a", "1.0.0", Ecosystem::Npm),
            t("b", "2.0.0", Ecosystem::Npm),
            t("c", "3.0.0", Ecosystem::Npm),
            t("e", "5.0.0", Ecosystem::Npm),
        ]
    );
    assert!(decoded(FileKind::PackageLock, "[1, 2]").packages().is_empty());
}

#[test]
fn package_json_pins_what_it_can() {
    let text = r#"{
        "name": "app",
        "dependencies": {"express": "^4.18.2", "left": "latest"},
        "devDependencies": {"jest": "~29.7.0", "odd": 3},
        "optionalDependencies": {
            "fsevents": "2.3.3",
            "fork": "git+https://github.com/u/fork.git#v1.2.3"
        }
    }"#;
    let DepFile::PackageJson(doc) = decoded(FileKind::PackageJson, text) else {
        panic!("a package.json decodes to a JSON document")
    };
    assert_eq!(
        triples(&parse_package_json(&doc)),
        vec![
            t("express", "4.18.2", Ecosystem::Npm),
            t("jest", "29.7.0", Ecosystem::Npm),
            t("fsevents", "2.3.3", Ecosystem::Npm),
        ]
    );
}

fn presence() -> Presence {
    Presence {
        cargo_lock: false,
        pnpm_lock: false,
        yarn_lock: false,
        package_lock: false,
        package_json: false,
        poetry_lock: false,
        uv_lock: false,
        requirements: false,
        go_sum: false,
        go_mod: false,
    }
}

#[test]
fn selection_prefers_lockfiles() {
    let mut p = presence();
    assert_eq!(select_files(&p), vec![]);
    p.package_json = true;
    p.yarn_lock = true;
    p.requirements = true;
    p.go_mod = true;
    p.go_sum = true;
    p.cargo_lock = true;
    assert_eq!(
        select_files(&p),
        vec![FileKind::CargoLock, FileKind::YarnLock, FileKind::Requirements, FileKind::GoSum]
    );
    p.pnpm_lock = true;
    p.uv_lock = true;
    p.poetry_lock = true;
    assert_eq!(
        select_files(&p),
        vec![FileKind::CargoLock, FileKind::PnpmLock, FileKind::PoetryLock, FileKind::GoSum]
    );
    let mut q = presence();
    q.package_json = true;
    q.go_mod = true;
    assert_eq!(select_files(&q), vec![FileKind::PackageJson, FileKind::GoMod]);
}

#[test]
fn file_kinds_names_and_flags() {
    assert_eq!(FileKind::PnpmLock.file_name(), "pnpm-lock.yaml");
    assert_eq!(FileKind::Requirements.file_name(), "requirements.txt");
    assert!(FileKind::GoSum.locked());
    assert!(!FileKind::GoMod.locked());
    assert!(!FileKind::PackageJson.locked());
    assert!(FileKind::UvLock.locked());
}

#[test]
fn collect_builds_sources_in_order() {
    let files = vec![
        Ok(decoded(
            FileKind::CargoLock,
            "[[package]]\nname = \"serde\"\nversion = \"1.0.0\"\n",
        )),
        Ok(DepFile::Requirements("flask==3.0.0\n".to_string())),
    ];
    let sources = collect(files).unwrap();
    assert_eq!(sources.len(), 2);
    assert_eq!(sources[0].file, "Cargo.lock");
    assert!(sources[0].locked);
    assert_eq!(triples(&sources[0].packages), vec![t("serde", "1.0.0", Ecosystem::CratesIo)]);
    assert_eq!(sources[1].file, "requirements.txt");
    assert!(!sources[1].locked);
    assert_eq!(triples(&sources[1].packages), vec![t("flask", "3.0.0", Ecosystem::PyPI)]);
}

#[test]
fn collect_fails_with_first_error() {
    let files = vec![
        Ok(DepFile::GoMod("require a v1.0.0\n".to_string())),
        Err("cannot read x: denied".to_string()),
        Err("second".to_string()),
    ];
    assert_eq!(collect(files).err().as_deref(), Some("cannot read x: denied"));
}
