//! The metrics of a CVSS v3.x vector string (`CVSS:3.1/AV:N/AC:L/...`).
//!
//! Only the reading of the vector lives here; the base score computed from
//! the metrics is floating-point arithmetic and is done by the program.

use vstd::prelude::*;

use crate::text::{self, first_where, is_char, views};

verus! {

/// Attack vector (`AV`).
#[derive(Debug, Clone, Copy, PartialEq, Eq, Structural)]
pub enum AttackVector {
    Network,
    Adjacent,
    Local,
    Physical,
}

/// Attack complexity (`AC`).
#[derive(Debug, Clone, Copy, PartialEq, Eq, Structural)]
pub enum AttackComplexity {
    Low,
    High,
}

/// Privileges required (`PR`).
#[derive(Debug, Clone, Copy, PartialEq, Eq, Structural)]
pub enum PrivilegesRequired {
    NoPrivileges,
    Low,
    High,
}

/// User interaction (`UI`).
#[derive(Debug, Clone, Copy, PartialEq, Eq, Structural)]
pub enum UserInteraction {
    NoInteraction,
    Required,
}

/// Impact on confidentiality, integrity or availability (`C`, `I`, `A`).
#[derive(Debug, Clone, Copy, PartialEq, Eq, Structural)]
pub enum Impact {
    High,
    Low,
    NoImpact,
}

/// The base metrics of a CVSS v3.x vector.
#[derive(Debug, Clone, Copy, PartialEq, Eq, Structural)]
pub struct CvssVector {
    pub attack_vector: AttackVector,
    pub attack_complexity: AttackComplexity,
    pub privileges_required: PrivilegesRequired,
    pub user_interaction: UserInteraction,
    /// Whether the scope (`S`) is `C`, changed, rather than `U`, unchanged.
    pub scope_changed: bool,
    pub confidentiality: Impact,
    pub integrity: Impact,
    pub availability: Impact,
}

/// The pieces of `s` between the occurrences of `c`, as `str::split` yields them.
pub open spec fn split_of(s: Seq<char>, c: char) -> Seq<Seq<char>>
    decreases s.len(),
{
    match first_where(s, is_char(c)) {
        Some(i) => if 0 <= i < s.len() {
            seq![s.take(i)] + split_of(s.skip(i + 1), c)
        } else {
            seq![s]
        },
        None => seq![s],
    }
}

/// `str::split` on one character.
pub fn split_chars(s: &[char], c: char) -> (r: Vec<&[char]>)
    ensures
        views(r@) == split_of(s@, c),
{
    let mut r: Vec<&[char]> = Vec::new();
    let n = s.len();
    let mut pos: usize = 0;
    proof {
        assert(s@.skip(0) == s@);
        assert(views(r@) + split_of(s@, c) =~= split_of(s@, c));
    }
    loop
        invariant
            n == s@.len(),
            pos <= n,
            split_of(s@, c) == views(r@) + split_of(s@.skip(pos as int), c),
        decreases n - pos,
    {
        let rest = &s[pos..n];
        assert(rest@ == s@.skip(pos as int));
        let ghost r0 = views(r@);
        match text::find_char(rest, c) {
            Some(j) => {
                let piece = &rest[0..j];
                r.push(piece);
                assert(rest@.skip(j + 1) == s@.skip(pos + j + 1));
                assert(views(r@) == r0.push(piece@));
                assert(split_of(rest@, c) == seq![piece@] + split_of(rest@.skip(j + 1), c));
                assert(r0 + split_of(rest@, c) =~= views(r@) + split_of(rest@.skip(j + 1), c));
                pos = pos + j + 1;
            },
            None => {
                r.push(rest);
                assert(views(r@) == r0.push(rest@));
                assert(split_of(rest@, c) == seq![rest@]);
                assert(r0 + split_of(rest@, c) =~= views(r@));
                return r;
            },
        }
    }
}

/// A `key:value` piece split at its first colon (`splitn(2, ':')`); a piece
/// without a colon gives nothing.
pub open spec fn key_value_of(piece: Seq<char>) -> Option<(Seq<char>, Seq<char>)> {
    match first_where(piece, is_char(':')) {
        Some(i) => Some((piece.take(i), piece.skip(i + 1))),
        None => None,
    }
}

/// The value of the last piece whose key is `key`.
pub open spec fn metric_of(pieces: Seq<Seq<char>>, key: Seq<char>) -> Option<Seq<char>>
    decreases pieces.len(),
{
    if pieces.len() == 0 {
        None
    } else {
        match key_value_of(pieces.last()) {
            Some((k, v)) => if k == key {
                Some(v)
            } else {
                metric_of(pieces.drop_last(), key)
            },
            None => metric_of(pieces.drop_last(), key),
        }
    }
}

fn key_value(piece: &[char]) -> (r: Option<(&[char], &[char])>)
    ensures
        match r {
            Some((k, v)) => key_value_of(piece@) == Some((k@, v@)),
            None => key_value_of(piece@) is None,
        },
{
    let n = piece.len();
    match text::find_char(piece, ':') {
        Some(i) => {
            proof {
                text::lemma_first_where_some(piece@, is_char(':'));
                assert(text::is_first(piece@, is_char(':'), i as int));
            }
            assert(i < n);
            Some((&piece[0..i], &piece[i + 1..n]))
        },
        None => None,
    }
}

/// The value of the last piece whose key is `key`.
fn metric<'a>(pieces: &Vec<&'a [char]>, key: &str) -> (r: Option<&'a [char]>)
    ensures
        match r {
            Some(v) => metric_of(views(pieces@), key@) == Some(v@),
            None => metric_of(views(pieces@), key@) is None,
        },
{
    let key_chars = text::chars_of(key);
    let ghost ps = views(pieces@);
    let mut i: usize = pieces.len();
    proof {
        assert(ps.take(i as int) == ps);
    }
    while i > 0
        invariant
            i <= pieces@.len(),
            ps == views(pieces@),
            key_chars@ == key@,
            metric_of(ps, key@) == metric_of(ps.take(i as int), key@),
        decreases i,
    {
        let piece = pieces[i - 1];
        let ghost pre = ps.take(i as int);
        proof {
            assert(pre.last() == piece@);
            assert(pre.drop_last() == ps.take(i - 1));
        }
        match key_value(piece) {
            Some((k, v)) => {
                if text::chars_eq(k, key_chars.as_slice()) {
                    return Some(v);
                }
            },
            None => {},
        }
        i -= 1;
    }
    None
}

pub open spec fn attack_vector_of(v: Seq<char>) -> Option<AttackVector> {
    if v == "N"@ {
        Some(AttackVector::Network)
    } else if v == "A"@ {
        Some(AttackVector::Adjacent)
    } else if v == "L"@ {
        Some(AttackVector::Local)
    } else if v == "P"@ {
        Some(AttackVector::Physical)
    } else {
        None
    }
}

pub open spec fn attack_complexity_of(v: Seq<char>) -> Option<AttackComplexity> {
    if v == "L"@ {
        Some(AttackComplexity::Low)
    } else if v == "H"@ {
        Some(AttackComplexity::High)
    } else {
        None
    }
}

pub open spec fn privileges_of(v: Seq<char>) -> Option<PrivilegesRequired> {
    if v == "N"@ {
        Some(PrivilegesRequired::NoPrivileges)
    } else if v == "L"@ {
        Some(PrivilegesRequired::Low)
    } else if v == "H"@ {
        Some(PrivilegesRequired::High)
    } else {
        None
    }
}

pub open spec fn interaction_of(v: Seq<char>) -> Option<UserInteraction> {
    if v == "N"@ {
        Some(UserInteraction::NoInteraction)
    } else if v == "R"@ {
        Some(UserInteraction::Required)
    } else {
        None
    }
}

/// The scope: `C` (changed) reads as `true`, `U` (unchanged) as `false`.
pub open spec fn scope_of(v: Seq<char>) -> Option<bool> {
    if v == "C"@ {
        Some(true)
    } else if v == "U"@ {
        Some(false)
    } else {
        None
    }
}

pub open spec fn impact_of(v: Seq<char>) -> Option<Impact> {
    if v == "H"@ {
        Some(Impact::High)
    } else if v == "L"@ {
        Some(Impact::Low)
    } else if v == "N"@ {
        Some(Impact::NoImpact)
    } else {
        None
    }
}

/// A metric's value read with `f`; nothing when the metric is missing.
pub open spec fn read_metric<T>(v: Option<Seq<char>>, f: spec_fn(Seq<char>) -> Option<T>) -> Option<T> {
    match v {
        Some(x) => f(x),
        None => None,
    }
}

/// The metrics of a vector string: only a v3 vector (one that contains
/// `CVSS:3`) whose eight base metrics are all given, each with a known value
/// (the scope `U` or `C`), has them; any other vector is
/// malformed. When a metric is given twice, its last value counts.
pub open spec fn cvss_vector_of(s: Seq<char>) -> Option<CvssVector> {
    let ps = split_of(s, '/');
    let scope = read_metric(metric_of(ps, "S"@), |x: Seq<char>| scope_of(x));
    let av = read_metric(metric_of(ps, "AV"@), |x: Seq<char>| attack_vector_of(x));
    let ac = read_metric(metric_of(ps, "AC"@), |x: Seq<char>| attack_complexity_of(x));
    let pr = read_metric(metric_of(ps, "PR"@), |x: Seq<char>| privileges_of(x));
    let ui = read_metric(metric_of(ps, "UI"@), |x: Seq<char>| interaction_of(x));
    let c = read_metric(metric_of(ps, "C"@), |x: Seq<char>| impact_of(x));
    let i = read_metric(metric_of(ps, "I"@), |x: Seq<char>| impact_of(x));
    let a = read_metric(metric_of(ps, "A"@), |x: Seq<char>| impact_of(x));
    if text::find_seq(s, "CVSS:3"@) is Some && scope is Some && av is Some && ac is Some && pr is Some
        && ui is Some && c is Some && i is Some && a is Some {
        Some(
            CvssVector {
                attack_vector: av->0,
                attack_complexity: ac->0,
                privileges_required: pr->0,
                user_interaction: ui->0,
                scope_changed: scope->0,
                confidentiality: c->0,
                integrity: i->0,
                availability: a->0,
            },
        )
    } else {
        None
    }
}

fn is_lit(v: &[char], lit: &str) -> (r: bool)
    ensures
        r == (v@ == lit@),
{
    let l = text::chars_of(lit);
    text::chars_eq(v, l.as_slice())
}

fn read_attack_vector(v: Option<&[char]>) -> (r: Option<AttackVector>)
    ensures
        r == read_metric(opt_view(v), |x: Seq<char>| attack_vector_of(x)),
{
    match v {
        Some(x) => if is_lit(x, "N") {
            Some(AttackVector::Network)
        } else if is_lit(x, "A") {
            Some(AttackVector::Adjacent)
        } else if is_lit(x, "L") {
            Some(AttackVector::Local)
        } else if is_lit(x, "P") {
            Some(AttackVector::Physical)
        } else {
            None
        },
        None => None,
    }
}

fn read_attack_complexity(v: Option<&[char]>) -> (r: Option<AttackComplexity>)
    ensures
        r == read_metric(opt_view(v), |x: Seq<char>| attack_complexity_of(x)),
{
    match v {
        Some(x) => if is_lit(x, "L") {
            Some(AttackComplexity::Low)
        } else if is_lit(x, "H") {
            Some(AttackComplexity::High)
        } else {
            None
        },
        None => None,
    }
}

fn read_privileges(v: Option<&[char]>) -> (r: Option<PrivilegesRequired>)
    ensures
        r == read_metric(opt_view(v), |x: Seq<char>| privileges_of(x)),
{
    match v {
        Some(x) => if is_lit(x, "N") {
            Some(PrivilegesRequired::NoPrivileges)
        } else if is_lit(x, "L") {
            Some(PrivilegesRequired::Low)
        } else if is_lit(x, "H") {
            Some(PrivilegesRequired::High)
        } else {
            None
        },
        None => None,
    }
}

fn read_interaction(v: Option<&[char]>) -> (r: Option<UserInteraction>)
    ensures
        r == read_metric(opt_view(v), |x: Seq<char>| interaction_of(x)),
{
    match v {
        Some(x) => if is_lit(x, "N") {
            Some(UserInteraction::NoInteraction)
        } else if is_lit(x, "R") {
            Some(UserInteraction::Required)
        } else {
            None
        },
        None => None,
    }
}

fn read_scope(v: Option<&[char]>) -> (r: Option<bool>)
    ensures
        r == read_metric(opt_view(v), |x: Seq<char>| scope_of(x)),
{
    match v {
        Some(x) => if is_lit(x, "C") {
            Some(true)
        } else if is_lit(x, "U") {
            Some(false)
        } else {
            None
        },
        None => None,
    }
}

fn read_impact(v: Option<&[char]>) -> (r: Option<Impact>)
    ensures
        r == read_metric(opt_view(v), |x: Seq<char>| impact_of(x)),
{
    match v {
        Some(x) => if is_lit(x, "H") {
            Some(Impact::High)
        } else if is_lit(x, "L") {
            Some(Impact::Low)
        } else if is_lit(x, "N") {
            Some(Impact::NoImpact)
        } else {
            None
        },
        None => None,
    }
}

/// An optional slice read by its characters.
pub open spec fn opt_view(v: Option<&[char]>) -> Option<Seq<char>> {
    match v {
        Some(x) => Some(x@),
        None => None,
    }
}

/// The base metrics of a CVSS v3.x vector string; `None` for a vector of
/// another version or one that is malformed.
pub fn parse_vector(s: &str) -> (r: Option<CvssVector>)
    ensures
        r == cvss_vector_of(s@),
{
    let chars = text::chars_of(s);
    let marker = text::chars_of("CVSS:3");
    let v3 = text::find_chars(chars.as_slice(), marker.as_slice()).is_some();
    let ps = split_chars(chars.as_slice(), '/');
    let scope = read_scope(metric(&ps, "S"));
    let av = read_attack_vector(metric(&ps, "AV"));
    let ac = read_attack_complexity(metric(&ps, "AC"));
    let pr = read_privileges(metric(&ps, "PR"));
    let ui = read_interaction(metric(&ps, "UI"));
    let c = read_impact(metric(&ps, "C"));
    let i = read_impact(metric(&ps, "I"));
    let a = read_impact(metric(&ps, "A"));
    if !v3 {
        return None;
    }
    match (scope, av, ac, pr, ui, c, i, a) {
        (Some(sc), Some(av), Some(ac), Some(pr), Some(ui), Some(c), Some(i), Some(a)) => Some(
            CvssVector {
                attack_vector: av,
                attack_complexity: ac,
                privileges_required: pr,
                user_interaction: ui,
                scope_changed: sc,
                confidentiality: c,
                integrity: i,
                availability: a,
            },
        ),
        _ => None,
    }
}

} // verus!
