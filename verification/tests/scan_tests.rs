use context_snipe::deps::{Ecosystem, Package, Source};
use context_snipe::osv::{Finding, Severity, Vuln};
use context_snipe::scan::{
    check, list_dependencies, max_sev, missing_path_msg, no_sources_msg, parse_min, start_check,
    truncate, ScanStart, Scanned,
};

fn pkg(name: &str, version: &str, ecosystem: Ecosystem) -> Package {
    Package {
        name: name.into(),
        version: version.into(),
        ecosystem,
    }
}

fn vuln(id: &str, sev: Severity, aliases: &[&str], summary: &str) -> Vuln {
    Vuln {
        id: id.into(),
        summary: summary.into(),
        severity: sev,
        aliases: aliases.iter().map(|a| a.to_string()).collect(),
    }
}

const CLOSING: &str = "\nSource: OSV.dev. These advisories affect packages actually present in your dependency tree.\nNote: presence is not the same as exploitability — confirm the vulnerable code path is reachable in how you use the package.";

#[test]
fn messages() {
    assert_eq!(
        no_sources_msg("/p"),
        "No supported dependency files found in /p.\nSupported: Cargo.lock, package-lock.json, package.json, requirements.txt, go.mod/go.sum."
    );
    assert_eq!(missing_path_msg("/nope"), "path does not exist: /nope");
}

#[test]
fn severity_floor_words() {
    assert_eq!(parse_min("low"), Some(Severity::Low));
    assert_eq!(parse_min("Medium"), Some(Severity::Medium));
    assert_eq!(parse_min("moderate"), Some(Severity::Medium));
    assert_eq!(parse_min("HIGH"), Some(Severity::High));
    assert_eq!(parse_min("critical"), Some(Severity::Critical));
    assert_eq!(parse_min("severe"), None);
}

#[test]
fn max_severity_of_advisories() {
    assert_eq!(max_sev(&vec![]), Severity::Unknown);
    let vs = vec![
        vuln("a", Severity::Low, &[], ""),
        vuln("b", Severity::High, &[], ""),
        vuln("c", Severity::Unknown, &[], ""),
    ];
    assert_eq!(max_sev(&vs), Severity::High);
}

#[test]
fn truncate_marks_cuts() {
    assert_eq!(truncate("short", 10), "short");
    assert_eq!(truncate("exactly", 7), "exactly");
    assert_eq!(truncate("abcdef", 3), "abc…");
    assert_eq!(truncate("ééé", 2), "éé…");
}

#[test]
fn listing_of_dependencies() {
    let sources = vec![
        Source {
            file: "Cargo.lock".into(),
            locked: true,
            packages: vec![
                pkg("serde", "1.0.0", Ecosystem::CratesIo),
                pkg("anyhow", "1.0.75", Ecosystem::CratesIo),
            ],
        },
        Source {
            file: "requirements.txt".into(),
            locked: false,
            packages: vec![pkg("flask", "3.0.0", Ecosystem::PyPI)],
        },
    ];
    let out = list_dependencies("proj", true, Ok(sources)).unwrap();
    assert_eq!(
        out,
        "Dependencies in proj\n\nCargo.lock — 2 resolved package(s):\n  serde 1.0.0  [cargo]\n  anyhow 1.0.75  [cargo]\n\nrequirements.txt — 1 direct package(s):\n  flask 3.0.0  [pip]\n\nTotal: 3 package entries across 2 file(s)."
    );
}

#[test]
fn listing_errors_and_empty() {
    assert_eq!(
        list_dependencies("x", false, Ok(vec![])),
        Err("path does not exist: x".to_string())
    );
    assert_eq!(
        list_dependencies("x", true, Err("cannot read x/go.sum: denied".to_string())),
        Err("cannot read x/go.sum: denied".to_string())
    );
    assert_eq!(list_dependencies("x", true, Ok(vec![])), Ok(no_sources_msg("x")));
}

fn scanned() -> Scanned {
    let sources = vec![
        Source {
            file: "package-lock.json".into(),
            locked: true,
            packages: vec![
                pkg("minimist", "1.2.0", Ecosystem::Npm),
                pkg("lodash", "4.17.11", Ecosystem::Npm),
                pkg("lodash", "4.17.11", Ecosystem::Npm),
            ],
        },
        Source {
            file: "Cargo.lock".into(),
            locked: true,
            packages: vec![pkg("serde", "1.0.0", Ecosystem::CratesIo)],
        },
    ];
    match start_check("proj", true, Ok(sources)) {
        Ok(ScanStart::Lookup(sc)) => sc,
        _ => panic!("expected packages to look up"),
    }
}

#[test]
fn start_check_sorts_and_dedups_packages() {
    let sc = scanned();
    assert_eq!(sc.files, vec!["package-lock.json".to_string(), "Cargo.lock".to_string()]);
    assert_eq!(sc.total_entries, 4);
    let names: Vec<(String, Ecosystem)> = sc
        .packages
        .iter()
        .map(|p| (p.name.clone(), p.ecosystem))
        .collect();
    // "crates.io" sorts before "npm".
    assert_eq!(
        names,
        vec![
            ("serde".to_string(), Ecosystem::CratesIo),
            ("lodash".to_string(), Ecosystem::Npm),
            ("minimist".to_string(), Ecosystem::Npm),
        ]
    );
}

#[test]
fn start_check_early_answers() {
    match start_check("p", false, Ok(vec![])) {
        Err(e) => assert_eq!(e, "path does not exist: p"),
        _ => panic!("expected an error"),
    }
    match start_check("p", true, Ok(vec![])) {
        Ok(ScanStart::Report(t)) => assert_eq!(t, no_sources_msg("p")),
        _ => panic!("expected a report"),
    }
}

const HEADER: &str = "context-snipe — vulnerability scan\nProject: proj\nScanned: 4 entries (3 unique packages) from package-lock.json, Cargo.lock\n";

#[test]
fn report_with_findings() {
    let sc = scanned();
    let findings = vec![
        Finding {
            package: pkg("minimist", "1.2.0", Ecosystem::Npm),
            vulns: vec![vuln("GHSA-m", Severity::Medium, &["CVE-2020-7598"], "Prototype pollution")],
        },
        Finding {
            package: pkg("lodash", "4.17.11", Ecosystem::Npm),
            vulns: vec![
                vuln("GHSA-x", Severity::High, &["CVE-2021-23337"], "Command Injection"),
                vuln("GHSA-y", Severity::Critical, &["GHSA-alt", "CVE-2019-10744"], "Prototype Pollution"),
                vuln("GHSA-a", Severity::High, &[], ""),
            ],
        },
    ];
    let out = check("proj", None, &sc, Ok(findings)).unwrap();
    let expected = format!(
        "{HEADER}\nFOUND  4 advisories affecting 2 of 3 package(s):\n\n  lodash 4.17.11  [npm]\n    [CRIT] GHSA-y (CVE-2019-10744)  Prototype Pollution\n    [HIGH] GHSA-a\n    [HIGH] GHSA-x (CVE-2021-23337)  Command Injection\n\n  minimist 1.2.0  [npm]\n    [MED ] GHSA-m (CVE-2020-7598)  Prototype pollution\n{CLOSING}"
    );
    assert_eq!(out, expected);
}

#[test]
fn report_floor_keeps_unknown() {
    let sc = scanned();
    let findings = vec![Finding {
        package: pkg("lodash", "4.17.11", Ecosystem::Npm),
        vulns: vec![
            vuln("GHSA-low", Severity::Low, &[], "minor"),
            vuln("PYSEC-1", Severity::Unknown, &[], ""),
        ],
    }];
    let out = check("proj", Some("high"), &sc, Ok(findings)).unwrap();
    let expected = format!(
        "{HEADER}\nFOUND  1 advisory affecting 1 of 3 package(s):\n\n  lodash 4.17.11  [npm]\n    [??? ] PYSEC-1\n{CLOSING}"
    );
    assert_eq!(out, expected);
}

#[test]
fn report_without_findings() {
    let sc = scanned();
    let out = check("proj", Some("critical"), &sc, Ok(vec![])).unwrap();
    assert_eq!(
        out,
        format!("{HEADER}\nOK  No known vulnerabilities at/above critical severity.\n\nSource: OSV.dev — advisories for packages present in your dependency tree.")
    );
    let out = check("proj", None, &sc, Ok(vec![])).unwrap();
    assert_eq!(
        out,
        format!("{HEADER}\nOK  No known vulnerabilities.\n\nSource: OSV.dev — advisories for packages present in your dependency tree.")
    );
}

#[test]
fn report_passes_lookup_errors_on() {
    let sc = scanned();
    assert_eq!(
        check("proj", None, &sc, Err("request failed".to_string())),
        Err("request failed".to_string())
    );
}

#[test]
fn report_truncates_long_summaries() {
    let sc = scanned();
    let long = "x".repeat(120);
    let findings = vec![Finding {
        package: pkg("serde", "1.0.0", Ecosystem::CratesIo),
        vulns: vec![vuln("RUSTSEC-1", Severity::Low, &[], &long)],
    }];
    let out = check("proj", None, &sc, Ok(findings)).unwrap();
    let expected = format!(
        "{HEADER}\nFOUND  1 advisory affecting 1 of 3 package(s):\n\n  serde 1.0.0  [cargo]\n    [LOW ] RUSTSEC-1  {}…\n{CLOSING}",
        "x".repeat(100)
    );
    assert_eq!(out, expected);
}
