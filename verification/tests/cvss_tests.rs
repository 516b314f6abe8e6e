use context_snipe::cvss::{
    parse_vector, split_chars, AttackComplexity, AttackVector, CvssVector, Impact,
    PrivilegesRequired, UserInteraction,
};

#[test]
fn cvss_rejects_non_v3_and_garbage() {
    assert!(parse_vector("CVSS:2.0/AV:N/AC:L/Au:N/C:P/I:P/A:P").is_none());
    assert!(parse_vector("not-a-vector").is_none());
    assert!(parse_vector("CVSS:3.1/AV:X/AC:L/PR:N/UI:N/S:U/C:H/I:N/A:N").is_none());
}

#[test]
fn cvss_reads_scope_changed_vector() {
    let m = parse_vector("CVSS:3.1/AV:N/AC:L/PR:N/UI:N/S:C/C:H/I:H/A:H").unwrap();
    assert_eq!(
        m,
        CvssVector {
            attack_vector: AttackVector::Network,
            attack_complexity: AttackComplexity::Low,
            privileges_required: PrivilegesRequired::NoPrivileges,
            user_interaction: UserInteraction::NoInteraction,
            scope_changed: true,
            confidentiality: Impact::High,
            integrity: Impact::High,
            availability: Impact::High,
        }
    );
}

#[test]
fn cvss_reads_every_metric_value() {
    let m = parse_vector("CVSS:3.0/AV:P/AC:H/PR:H/UI:R/S:U/C:L/I:N/A:L").unwrap();
    assert_eq!(m.attack_vector, AttackVector::Physical);
    assert_eq!(m.attack_complexity, AttackComplexity::High);
    assert_eq!(m.privileges_required, PrivilegesRequired::High);
    assert_eq!(m.user_interaction, UserInteraction::Required);
    assert!(!m.scope_changed);
    assert_eq!(m.confidentiality, Impact::Low);
    assert_eq!(m.integrity, Impact::NoImpact);
    assert_eq!(m.availability, Impact::Low);
    let m = parse_vector("CVSS:3.1/AV:A/AC:L/PR:L/UI:N/S:U/C:N/I:N/A:N").unwrap();
    assert_eq!(m.attack_vector, AttackVector::Adjacent);
    assert_eq!(m.privileges_required, PrivilegesRequired::Low);
    assert!(!m.scope_changed);
    let m = parse_vector("CVSS:3.1/AV:L/AC:L/PR:N/UI:N/S:U/C:H/I:N/A:N").unwrap();
    assert_eq!(m.attack_vector, AttackVector::Local);
}

#[test]
fn cvss_scope_must_be_unchanged_or_changed() {
    assert!(parse_vector("CVSS:3.1/AV:N/AC:L/PR:N/UI:N/S:X/C:H/I:N/A:N").is_none());
    assert!(parse_vector("CVSS:3.1/AV:N/AC:L/PR:N/UI:N/S:/C:H/I:N/A:N").is_none());
    assert!(parse_vector("CVSS:3.1/AV:N/AC:L/PR:N/UI:N/C:H/I:N/A:N").is_none());
}

#[test]
fn cvss_last_value_of_a_metric_counts() {
    let m = parse_vector("CVSS:3.1/AV:X/AV:N/AC:L/PR:N/UI:N/S:U/C:H/I:N/A:N").unwrap();
    assert_eq!(m.attack_vector, AttackVector::Network);
    assert!(parse_vector("CVSS:3.1/AV:N/AV:X/AC:L/PR:N/UI:N/S:U/C:H/I:N/A:N").is_none());
}

#[test]
fn cvss_needs_every_base_metric() {
    assert!(parse_vector("CVSS:3.1/AV:N/AC:L/PR:N/UI:N/C:H/I:N/A:N").is_none(), "no scope");
    assert!(parse_vector("CVSS:3.1/AV:N/AC:L/PR:N/UI:N/S:U/C:H/I:N").is_none(), "no A");
    assert!(parse_vector("").is_none());
    // The marker may stand anywhere, and pieces without a colon are skipped.
    assert!(parse_vector("AV:N/AC:L/PR:N/UI:N/S:U/C:H/I:N/A:N/xCVSS:3").is_some());
    assert!(parse_vector("CVSS:3.1/junk/AV:N/AC:L/PR:N/UI:N/S:U/C:H/I:N/A:N").is_some());
}

#[test]
fn split_keeps_empty_pieces() {
    let s: Vec<char> = "a//b/".chars().collect();
    let pieces: Vec<String> = split_chars(&s, '/').iter().map(|p| p.iter().collect()).collect();
    assert_eq!(pieces, vec!["a", "", "b", ""]);
    let empty: Vec<char> = Vec::new();
    assert_eq!(split_chars(&empty, '/').len(), 1);
}
