use context_snipe::deps::{Ecosystem, Package};
use context_snipe::osv::{
    batch_hits, dedup_by_cve, merge, parse_severity, parse_vuln, rank, reply_vulns,
    severity_from_word, to_ascii_lower, to_ascii_upper, OsvScan, OsvStep, Severity, Vuln,
};

fn vuln(id: &str, sev: Severity, cve: &str, summary: &str) -> Vuln {
    Vuln {
        id: id.into(),
        summary: summary.into(),
        severity: sev,
        aliases: vec![cve.into()],
    }
}

#[test]
fn dedup_collapses_ghsa_and_pysec_sharing_a_cve() {
    let pysec = vuln("PYSEC-2020-1", Severity::Unknown, "CVE-2020-0001", "");
    let ghsa = vuln("GHSA-aaaa", Severity::High, "CVE-2020-0001", "Real summary");
    let out = dedup_by_cve(vec![pysec, ghsa]);
    assert_eq!(out.len(), 1, "GHSA + PYSEC for one CVE must collapse to one");
    assert_eq!(out[0].id, "GHSA-aaaa", "GHSA is the preferred representative");
    assert_eq!(out[0].severity, Severity::High, "higher severity is retained");
    assert_eq!(out[0].summary, "Real summary", "non-empty summary is retained");
}

#[test]
fn dedup_keeps_distinct_cves_separate() {
    let a = vuln("GHSA-a", Severity::Low, "CVE-1", "");
    let b = vuln("GHSA-b", Severity::Low, "CVE-2", "");
    assert_eq!(dedup_by_cve(vec![a, b]).len(), 2);
}

#[test]
fn dedup_groups_by_id_without_cve_and_keeps_first_order() {
    let a = Vuln {
        id: "RUSTSEC-2023-0001".into(),
        summary: "first".into(),
        severity: Severity::Medium,
        aliases: vec!["GHSA-zzzz".into()],
    };
    let b = vuln("GHSA-b", Severity::Low, "CVE-9", "b");
    let c = Vuln {
        id: "RUSTSEC-2023-0001".into(),
        summary: "a longer summary".into(),
        severity: Severity::Critical,
        aliases: vec!["OSV-1".into()],
    };
    let out = dedup_by_cve(vec![a, b, c]);
    assert_eq!(out.len(), 2);
    assert_eq!(out[0].id, "RUSTSEC-2023-0001");
    assert_eq!(out[0].summary, "a longer summary", "longer summary wins the tie");
    assert_eq!(out[0].severity, Severity::Critical);
    assert_eq!(out[0].aliases, vec!["OSV-1".to_string(), "GHSA-zzzz".to_string()]);
    assert_eq!(out[1].id, "GHSA-b");
}

#[test]
fn merge_unions_aliases_once() {
    let a = Vuln {
        id: "CVE-2021-1".into(),
        summary: "".into(),
        severity: Severity::Medium,
        aliases: vec!["GHSA-x".into(), "CVE-2021-1".into(), "PYSEC-1".into(), "PYSEC-1".into()],
    };
    let b = Vuln {
        id: "GHSA-x".into(),
        summary: "sum".into(),
        severity: Severity::Low,
        aliases: vec!["CVE-2021-1".into()],
    };
    let m = merge(a, b);
    assert_eq!(m.id, "GHSA-x");
    assert_eq!(m.summary, "sum");
    assert_eq!(m.severity, Severity::Medium);
    assert_eq!(
        m.aliases,
        vec!["CVE-2021-1".to_string(), "GHSA-x".to_string(), "PYSEC-1".to_string()]
    );
}

#[test]
fn rank_orders_databases() {
    assert_eq!(rank(&vuln("GHSA-1", Severity::Low, "x", "ab")), (0, 2));
    assert_eq!(rank(&vuln("RUSTSEC-1", Severity::Low, "x", "")).0, 1);
    assert_eq!(rank(&vuln("GO-2023-1", Severity::Low, "x", "")).0, 2);
    assert_eq!(rank(&vuln("CVE-2023-1", Severity::Low, "x", "")).0, 3);
    assert_eq!(rank(&vuln("OSV-1", Severity::Low, "x", "")).0, 4);
    assert_eq!(rank(&vuln("PYSEC-1", Severity::Low, "x", "")).0, 5);
    // Summary length is counted in bytes.
    assert_eq!(rank(&vuln("GHSA-1", Severity::Low, "x", "é")).1, 2);
}

#[test]
fn severity_words() {
    assert_eq!(severity_from_word("CRITICAL"), Some(Severity::Critical));
    assert_eq!(severity_from_word("high"), Some(Severity::High));
    assert_eq!(severity_from_word("Moderate"), Some(Severity::Medium));
    assert_eq!(severity_from_word("medium"), Some(Severity::Medium));
    assert_eq!(severity_from_word("low"), Some(Severity::Low));
    assert_eq!(severity_from_word("none"), None);
    assert_eq!(parse_severity(Some("HIGH"), Severity::Low), Severity::High);
    assert_eq!(parse_severity(Some("bogus"), Severity::Low), Severity::Low);
    assert_eq!(parse_severity(None, Severity::Unknown), Severity::Unknown);
}

#[test]
fn severity_labels_and_order() {
    assert_eq!(Severity::Critical.label(), "CRIT");
    assert_eq!(Severity::High.label(), "HIGH");
    assert_eq!(Severity::Medium.label(), "MED ");
    assert_eq!(Severity::Low.label(), "LOW ");
    assert_eq!(Severity::Unknown.label(), "??? ");
    assert!(Severity::Unknown.level() < Severity::Low.level());
    assert!(Severity::High.level() < Severity::Critical.level());
}

#[test]
fn parse_vuln_defaults_and_first_line() {
    let reply = r#"{"vulns": [
        {"details": "First line\r\nsecond line", "aliases": ["CVE-1", 7],
         "database_specific": {"severity": "low"}},
        {"id": "GHSA-1", "summary": "", "details": "ignored", "severity": []}
    ]}"#;
    let records = reply_vulns("u", reply).unwrap();
    assert_eq!(records.len(), 2);
    let v = parse_vuln(&records[0], Severity::Critical);
    assert_eq!(v.id, "UNKNOWN");
    assert_eq!(v.summary, "First line");
    assert_eq!(v.severity, Severity::Low);
    assert_eq!(v.aliases, vec!["CVE-1".to_string()]);
    let v = parse_vuln(&records[1], Severity::High);
    assert_eq!(v.id, "GHSA-1");
    assert_eq!(v.summary, "");
    assert_eq!(v.severity, Severity::High);
    assert!(v.aliases.is_empty());
}

#[test]
fn osv_replies_are_read() {
    let hits = batch_hits(
        "u",
        r#"{"results": [{"vulns": [{"id": "X"}]}, {}, {"vulns": []}, {"vulns": [{"id": "Y"}]}]}"#,
    )
    .unwrap();
    assert_eq!(hits, vec![true, false, false, true]);
    assert_eq!(batch_hits("u", "{}").unwrap(), Vec::<bool>::new());
    let e = batch_hits("https://x/q", "<html>").err().unwrap();
    assert!(e.starts_with("invalid JSON from https://x/q: "), "{e}");
    assert!(reply_vulns("u", "{}").unwrap().is_empty());
    assert!(reply_vulns("u", "{\"vulns\": 3}").unwrap().is_empty());
    assert!(reply_vulns("u", "not json").is_err());
}

fn pkg(name: &str) -> Package {
    Package {
        name: name.into(),
        version: "1.0.0".into(),
        ecosystem: Ecosystem::Npm,
    }
}

#[test]
fn lookup_with_no_packages_is_done() {
    let scan = OsvScan::new(vec![]);
    assert_eq!(scan.next(), OsvStep::Done);
    assert!(scan.into_findings().is_empty());
}

#[test]
fn lookup_batches_then_queries_hits() {
    let packages: Vec<Package> = (0..502).map(|i| pkg(&format!("p{i}"))).collect();
    let mut scan = OsvScan::new(packages);
    // One batch request covers every package, however many there are.
    assert_eq!(scan.next(), OsvStep::QueryBatch);
    assert_eq!(scan.packages().len(), 502);
    assert_eq!(scan.packages()[501].name, "p501");
    let mut has = vec![false; 502];
    has[3] = true;
    has[7] = true;
    has[501] = true;
    // Extra results past the last package are ignored.
    has.push(true);
    scan.on_batch(&has);
    assert_eq!(scan.next(), OsvStep::QueryOne { index: 3 });
    assert_eq!(scan.package(3).name, "p3");
    scan.on_vulns(vec![vuln("GHSA-1", Severity::High, "CVE-1", "s")]);
    assert_eq!(scan.next(), OsvStep::QueryOne { index: 7 });
    // No advisory came back: the package is not a finding.
    scan.on_vulns(vec![]);
    assert_eq!(scan.next(), OsvStep::QueryOne { index: 501 });
    scan.on_vulns(vec![
        vuln("PYSEC-1", Severity::Unknown, "CVE-2", ""),
        vuln("GHSA-2", Severity::Low, "CVE-2", "x"),
    ]);
    assert_eq!(scan.next(), OsvStep::Done);
    let findings = scan.into_findings();
    assert_eq!(findings.len(), 2);
    assert_eq!(findings[0].package.name, "p3");
    assert_eq!(findings[1].package.name, "p501");
    assert_eq!(findings[1].vulns.len(), 1);
    assert_eq!(findings[1].vulns[0].id, "GHSA-2");
}

#[test]
fn ascii_case_mapping_matches_std() {
    for code in 0u32..0x250 {
        let c = char::from_u32(code).unwrap();
        assert_eq!(to_ascii_upper(c), c.to_ascii_uppercase());
        assert_eq!(to_ascii_lower(c), c.to_ascii_lowercase());
    }
}
