//! OSV.dev advisories: severities, the advisory record, how advisories that
//! describe one flaw are collapsed, and the decisions of the two-phase lookup
//! (a `querybatch` call over the whole dependency set, then a focused `query`
//! per package that has any advisory).

use vstd::prelude::*;

use crate::deps::{Package, PackageView};
use crate::document::{
    deref_opt, json_document, json_get, json_get_of, json_str, json_str_of, parse_json, take_member,
    JsonValue,
};
use crate::text;

verus! {

#[derive(Debug, Clone, Copy, PartialEq, Eq, PartialOrd, Ord, Structural)]
pub enum Severity {
    Unknown,
    Low,
    Medium,
    High,
    Critical,
}

impl Severity {
    /// The place of a severity in the order Unknown < Low < Medium < High < Critical.
    pub open spec fn level_of(self) -> nat {
        match self {
            Severity::Unknown => 0,
            Severity::Low => 1,
            Severity::Medium => 2,
            Severity::High => 3,
            Severity::Critical => 4,
        }
    }

    pub open spec fn label_of(self) -> Seq<char> {
        match self {
            Severity::Critical => "CRIT"@,
            Severity::High => "HIGH"@,
            Severity::Medium => "MED "@,
            Severity::Low => "LOW "@,
            Severity::Unknown => "??? "@,
        }
    }

    /// The four-character tag used in reports.
    pub fn label(&self) -> (r: &'static str)
        ensures
            r@ == self.label_of(),
    {
        match self {
            Severity::Critical => "CRIT",
            Severity::High => "HIGH",
            Severity::Medium => "MED ",
            Severity::Low => "LOW ",
            Severity::Unknown => "??? ",
        }
    }

    /// The place of this severity in the order of severities.
    pub fn level(&self) -> (r: u8)
        ensures
            r as nat == self.level_of(),
    {
        match self {
            Severity::Unknown => 0,
            Severity::Low => 1,
            Severity::Medium => 2,
            Severity::High => 3,
            Severity::Critical => 4,
        }
    }
}

/// The higher of two severities.
pub open spec fn max_severity_of(a: Severity, b: Severity) -> Severity {
    if a.level_of() >= b.level_of() {
        a
    } else {
        b
    }
}

/// The higher of two severities.
pub fn max_severity(a: Severity, b: Severity) -> (r: Severity)
    ensures
        r == max_severity_of(a, b),
{
    if a.level() >= b.level() {
        a
    } else {
        b
    }
}

#[derive(Debug, Clone)]
pub struct Vuln {
    pub id: String,
    pub summary: String,
    pub severity: Severity,
    pub aliases: Vec<String>,
}

/// The character views of a sequence of strings.
pub open spec fn strings_view(v: Seq<String>) -> Seq<Seq<char>> {
    v.map_values(|s: String| s@)
}

/// An advisory as (id, summary, severity, aliases).
pub type VulnView = (Seq<char>, Seq<char>, Severity, Seq<Seq<char>>);

impl View for Vuln {
    type V = VulnView;

    open spec fn view(&self) -> VulnView {
        (self.id@, self.summary@, self.severity, strings_view(self.aliases@))
    }
}

pub open spec fn vuln_views(v: Seq<Vuln>) -> Seq<VulnView> {
    v.map_values(|x: Vuln| x@)
}

fn clone_strings(v: &Vec<String>) -> (r: Vec<String>)
    ensures
        strings_view(r@) == strings_view(v@),
{
    let mut r: Vec<String> = Vec::new();
    let mut i: usize = 0;
    while i < v.len()
        invariant
            i <= v@.len(),
            r@.len() == i,
            forall|j: int| 0 <= j < i ==> (#[trigger] r@[j])@ == v@[j]@,
        decreases v.len() - i,
    {
        let c = v[i].clone();
        r.push(c);
        i += 1;
    }
    proof {
        assert(strings_view(r@) =~= strings_view(v@));
    }
    r
}

impl Vuln {
    /// A copy of this advisory with the same view.
    pub fn duplicate(&self) -> (r: Vuln)
        ensures
            r@ == self@,
    {
        Vuln {
            id: self.id.clone(),
            summary: self.summary.clone(),
            severity: self.severity,
            aliases: clone_strings(&self.aliases),
        }
    }
}

pub struct Finding {
    pub package: Package,
    pub vulns: Vec<Vuln>,
}

/// A finding as (package, advisories).
pub type FindingView = (PackageView, Seq<VulnView>);

impl View for Finding {
    type V = FindingView;

    open spec fn view(&self) -> FindingView {
        (self.package@, vuln_views(self.vulns@))
    }
}

pub open spec fn finding_views(v: Seq<Finding>) -> Seq<FindingView> {
    v.map_values(|f: Finding| f@)
}

// ---------------------------------------------------------------------------
// Collapsing the records of one flaw
// ---------------------------------------------------------------------------

/// The first alias that is a CVE id.
pub open spec fn first_cve(aliases: Seq<Seq<char>>) -> Option<Seq<char>>
    decreases aliases.len(),
{
    if aliases.len() == 0 {
        None
    } else if text::starts_with(aliases[0], "CVE-"@) {
        Some(aliases[0])
    } else {
        first_cve(aliases.drop_first())
    }
}

/// What advisories are grouped by: their first CVE alias, or else their id.
pub open spec fn dedup_key_of(v: VulnView) -> Seq<char> {
    match first_cve(v.3) {
        Some(c) => c,
        None => v.0,
    }
}

/// The first alias of `aliases` that is a CVE id.
pub fn find_cve(aliases: &Vec<String>) -> (r: Option<&String>)
    ensures
        match r {
            Some(c) => first_cve(strings_view(aliases@)) == Some(c@),
            None => first_cve(strings_view(aliases@)) is None,
        },
{
    let cve = text::chars_of("CVE-");
    let ghost all = strings_view(aliases@);
    let mut i: usize = 0;
    proof {
        assert(all.skip(0) == all);
    }
    while i < aliases.len()
        invariant
            cve@ == "CVE-"@,
            all == strings_view(aliases@),
            i <= aliases@.len(),
            first_cve(all) == first_cve(all.skip(i as int)),
        decreases aliases.len() - i,
    {
        let a = text::chars_of(aliases[i].as_str());
        proof {
            assert(all.skip(i as int)[0] == aliases@[i as int]@);
            assert(all.skip(i as int).drop_first() == all.skip(i + 1));
        }
        if text::starts_with_chars(a.as_slice(), cve.as_slice()) {
            return Some(&aliases[i]);
        }
        i += 1;
    }
    proof {
        assert(all.skip(aliases@.len() as int).len() == 0);
    }
    None
}

/// The key an advisory is grouped by.
pub fn dedup_key(v: &Vuln) -> (r: Vec<char>)
    ensures
        r@ == dedup_key_of(v@),
{
    match find_cve(&v.aliases) {
        Some(c) => text::chars_of(c.as_str()),
        None => text::chars_of(v.id.as_str()),
    }
}

/// How curated an advisory database is, by the prefix of the id: GHSA, then
/// RUSTSEC, then GO, then CVE, then any other, then PYSEC.
pub open spec fn id_rank_of(id: Seq<char>) -> nat {
    if text::starts_with(id, "GHSA"@) {
        0
    } else if text::starts_with(id, "RUSTSEC"@) {
        1
    } else if text::starts_with(id, "GO-"@) {
        2
    } else if text::starts_with(id, "CVE"@) {
        3
    } else if text::starts_with(id, "PYSEC"@) {
        5
    } else {
        4
    }
}

/// The length in bytes of a summary, as `str::len` reports it.
pub open spec fn summary_bytes(s: Seq<char>) -> nat {
    (vstd::utf8::encode_utf8(s).len() as usize) as nat
}

/// `a` ranks at least as well as `b`: a more curated database, or the same
/// one and a summary at least as long.
pub open spec fn rank_le_of(a: VulnView, b: VulnView) -> bool {
    ||| id_rank_of(a.0) < id_rank_of(b.0)
    ||| (id_rank_of(a.0) == id_rank_of(b.0) && summary_bytes(a.1) >= summary_bytes(b.1))
}

/// Prefer GHSA/RUSTSEC ids (curated, carry severity) over bare CVE/PYSEC; break
/// ties toward the entry with the longer summary. Ranks compare as
/// `rank_le` says: a lower id rank first, then a longer summary.
pub fn rank(v: &Vuln) -> (r: (u8, usize))
    ensures
        r.0 as nat == id_rank_of(v.id@),
        r.1 as nat == summary_bytes(v.summary@),
{
    let id = text::chars_of(v.id.as_str());
    let id_rank: u8 = if text::starts_with_chars(id.as_slice(), text::chars_of("GHSA").as_slice()) {
        0
    } else if text::starts_with_chars(id.as_slice(), text::chars_of("RUSTSEC").as_slice()) {
        1
    } else if text::starts_with_chars(id.as_slice(), text::chars_of("GO-").as_slice()) {
        2
    } else if text::starts_with_chars(id.as_slice(), text::chars_of("CVE").as_slice()) {
        3
    } else if text::starts_with_chars(id.as_slice(), text::chars_of("PYSEC").as_slice()) {
        5
    } else {
        4
    };
    (id_rank, v.summary.as_str().len())
}

/// Whether rank `a` comes no later than rank `b`.
pub fn rank_le(a: (u8, usize), b: (u8, usize)) -> (r: bool)
    ensures
        r == (a.0 < b.0 || (a.0 == b.0 && a.1 >= b.1)),
{
    a.0 < b.0 || (a.0 == b.0 && a.1 >= b.1)
}

/// `acc` followed by the strings of `extra` it does not hold yet, each once.
pub open spec fn union_aliases(acc: Seq<Seq<char>>, extra: Seq<Seq<char>>) -> Seq<Seq<char>>
    decreases extra.len(),
{
    if extra.len() == 0 {
        acc
    } else {
        let prev = union_aliases(acc, extra.drop_last());
        if prev.contains(extra.last()) {
            prev
        } else {
            prev.push(extra.last())
        }
    }
}

/// Two records of one flaw merged: the better ranked one is kept, with the
/// higher severity of the two, the other's summary when its own is empty,
/// and the other's aliases it lacks.
pub open spec fn merge_of(a: VulnView, b: VulnView) -> VulnView {
    let (keep, drop) = if rank_le_of(a, b) {
        (a, b)
    } else {
        (b, a)
    };
    (
        keep.0,
        if keep.1.len() == 0 {
            drop.1
        } else {
            keep.1
        },
        max_severity_of(keep.2, drop.2),
        union_aliases(keep.3, drop.3),
    )
}

/// Merge two records of one flaw: the lower rank wins as the representative,
/// and the other's data is merged in.
pub fn merge(a: Vuln, b: Vuln) -> (r: Vuln)
    ensures
        r@ == merge_of(a@, b@),
{
    let ghost av = a@;
    let ghost bv = b@;
    let le = rank_le(rank(&a), rank(&b));
    assert(le == rank_le_of(av, bv));
    let (mut keep, drop) = if le {
        (a, b)
    } else {
        (b, a)
    };
    let ghost kv = keep@;
    let ghost dv = drop@;
    assert(kv == (if le { av } else { bv }));
    assert(dv == (if le { bv } else { av }));
    keep.severity = max_severity(keep.severity, drop.severity);
    if keep.summary.as_str().is_empty() {
        keep.summary = drop.summary;
    }
    assert(keep.id@ == kv.0);
    assert(keep.summary@ == (if kv.1.len() == 0 { dv.1 } else { kv.1 }));
    assert(keep.severity == max_severity_of(kv.2, dv.2));
    let ghost base = strings_view(keep.aliases@);
    let mut i: usize = 0;
    while i < drop.aliases.len()
        invariant
            i <= drop.aliases@.len(),
            strings_view(keep.aliases@) == union_aliases(base, strings_view(drop.aliases@).take(i as int)),
            keep.id@ == kv.0,
            keep.summary@ == (if kv.1.len() == 0 { dv.1 } else { kv.1 }),
            keep.severity == max_severity_of(kv.2, dv.2),
            strings_view(drop.aliases@) == dv.3,
        decreases drop.aliases.len() - i,
    {
        let ghost extra = strings_view(drop.aliases@).take(i + 1);
        proof {
            assert(extra.drop_last() =~= strings_view(drop.aliases@).take(i as int));
            assert(extra.last() == drop.aliases@[i as int]@);
        }
        let mut present = false;
        let mut k: usize = 0;
        while k < keep.aliases.len()
            invariant
                k <= keep.aliases@.len(),
                present <==> exists|j: int| 0 <= j < k && keep.aliases@[j]@ == drop.aliases@[i as int]@,
                i < drop.aliases@.len(),
            decreases keep.aliases.len() - k,
        {
            if keep.aliases[k] == drop.aliases[i] {
                present = true;
            }
            k += 1;
        }
        proof {
            let kv = strings_view(keep.aliases@);
            if present {
                let j = choose|j: int| 0 <= j < k && keep.aliases@[j]@ == drop.aliases@[i as int]@;
                assert(kv[j] == extra.last());
            } else {
                assert forall|j: int| 0 <= j < kv.len() implies kv[j] != extra.last() by {
                    assert(kv[j] == keep.aliases@[j]@);
                }
            }
        }
        if !present {
            let x = drop.aliases[i].clone();
            keep.aliases.push(x);
            proof {
                assert(strings_view(keep.aliases@) =~= union_aliases(base, extra));
            }
        }
        i += 1;
    }
    proof {
        assert(strings_view(drop.aliases@).take(drop.aliases@.len() as int) == strings_view(drop.aliases@));
        assert(base == kv.3);
        assert(strings_view(drop.aliases@) == dv.3);
        assert(keep@ == merge_of(av, bv));
    }
    keep
}

/// The groups formed so far, each as (key, merged record), in the order
/// their keys first appear.
pub open spec fn dedup_groups(vs: Seq<VulnView>) -> Seq<(Seq<char>, VulnView)>
    decreases vs.len(),
{
    if vs.len() == 0 {
        Seq::empty()
    } else {
        let prev = dedup_groups(vs.drop_last());
        let v = vs.last();
        let k = dedup_key_of(v);
        if exists|j: int| 0 <= j < prev.len() && (#[trigger] prev[j]).0 == k {
            let j = choose|j: int| 0 <= j < prev.len() && (#[trigger] prev[j]).0 == k;
            prev.update(j, (k, merge_of(prev[j].1, v)))
        } else {
            prev.push((k, v))
        }
    }
}

/// The records of `vs` collapsed by shared key, each group merged in order.
pub open spec fn dedup_of(vs: Seq<VulnView>) -> Seq<VulnView> {
    dedup_groups(vs).map_values(|g: (Seq<char>, VulnView)| g.1)
}

/// No two groups share a key.
pub open spec fn keys_distinct(gs: Seq<(Seq<char>, VulnView)>) -> bool {
    forall|i: int, j: int| 0 <= i < j < gs.len() ==> (#[trigger] gs[i]).0 != (#[trigger] gs[j]).0
}

pub proof fn lemma_dedup_groups_distinct(vs: Seq<VulnView>)
    ensures
        keys_distinct(dedup_groups(vs)),
    decreases vs.len(),
{
    if vs.len() > 0 {
        lemma_dedup_groups_distinct(vs.drop_last());
        let prev = dedup_groups(vs.drop_last());
        let k = dedup_key_of(vs.last());
        if exists|j: int| 0 <= j < prev.len() && (#[trigger] prev[j]).0 == k {
            let j = choose|j: int| 0 <= j < prev.len() && (#[trigger] prev[j]).0 == k;
            let next = prev.update(j, (k, merge_of(prev[j].1, vs.last())));
            assert forall|a: int, b: int| 0 <= a < b < next.len() implies (#[trigger] next[a]).0 != (
            #[trigger] next[b]).0 by {
                assert(next[a].0 == prev[a].0);
                assert(next[b].0 == prev[b].0);
            }
        }
    }
}

/// Merging two records keeps the higher severity, keeps every alias of
/// both, keeps a non-empty summary when either has one, and keeps one of
/// the two ids, the one of the better ranked record.
pub proof fn law_merge_keeps_data(a: VulnView, b: VulnView)
    ensures
        merge_of(a, b).2.level_of() >= a.2.level_of(),
        merge_of(a, b).2.level_of() >= b.2.level_of(),
        merge_of(a, b).2 == a.2 || merge_of(a, b).2 == b.2,
        forall|x: Seq<char>| a.3.contains(x) ==> merge_of(a, b).3.contains(x),
        forall|x: Seq<char>| b.3.contains(x) ==> merge_of(a, b).3.contains(x),
        forall|x: Seq<char>| merge_of(a, b).3.contains(x) ==> a.3.contains(x) || b.3.contains(x),
        a.1.len() > 0 || b.1.len() > 0 ==> merge_of(a, b).1.len() > 0,
        merge_of(a, b).0 == (if rank_le_of(a, b) { a.0 } else { b.0 }),
{
    lemma_union_aliases(a.3, b.3);
    lemma_union_aliases(b.3, a.3);
}

proof fn lemma_union_aliases(acc: Seq<Seq<char>>, extra: Seq<Seq<char>>)
    ensures
        forall|x: Seq<char>| acc.contains(x) ==> union_aliases(acc, extra).contains(x),
        forall|x: Seq<char>| extra.contains(x) ==> union_aliases(acc, extra).contains(x),
        forall|x: Seq<char>| union_aliases(acc, extra).contains(x) ==> acc.contains(x) || extra.contains(x),
    decreases extra.len(),
{
    if extra.len() > 0 {
        lemma_union_aliases(acc, extra.drop_last());
        let prev = union_aliases(acc, extra.drop_last());
        let l = extra.last();
        assert forall|x: Seq<char>| extra.contains(x) implies union_aliases(acc, extra).contains(x) by {
            let w = choose|w: int| 0 <= w < extra.len() && extra[w] == x;
            if w < extra.len() - 1 {
                assert(extra.drop_last()[w] == x);
                assert(extra.drop_last().contains(x));
                assert(prev.contains(x));
                if !prev.contains(l) {
                    let q = choose|q: int| 0 <= q < prev.len() && prev[q] == x;
                    assert(prev.push(l)[q] == x);
                }
            } else {
                assert(x == l);
                if !prev.contains(l) {
                    assert(prev.push(l)[prev.len() as int] == l);
                }
            }
        }
        assert forall|x: Seq<char>| prev.contains(x) implies union_aliases(acc, extra).contains(x) by {
            if !prev.contains(l) {
                let w = choose|w: int| 0 <= w < prev.len() && prev[w] == x;
                assert(prev.push(l)[w] == x);
            }
        }
        assert forall|x: Seq<char>| union_aliases(acc, extra).contains(x) implies acc.contains(x) || extra.contains(x) by {
            if !prev.contains(l) {
                let w = choose|w: int| 0 <= w < prev.len() + 1 && prev.push(l)[w] == x;
                if w < prev.len() {
                    assert(prev[w] == x);
                    if extra.drop_last().contains(x) {
                        let v = choose|v: int| 0 <= v < extra.drop_last().len() && extra.drop_last()[v] == x;
                        assert(extra[v] == x);
                    }
                } else {
                    assert(extra[extra.len() - 1] == x);
                }
            } else {
                if extra.drop_last().contains(x) {
                    let v = choose|v: int| 0 <= v < extra.drop_last().len() && extra.drop_last()[v] == x;
                    assert(extra[v] == x);
                }
            }
        }
    }
}

/// Collapsing records never puts two records with one key in the result:
/// each key of the result is that of a distinct group.
pub proof fn law_dedup_groups_distinct(vs: Seq<VulnView>)
    ensures
        forall|i: int, j: int|
            0 <= i < j < dedup_groups(vs).len() ==> (#[trigger] dedup_groups(vs)[i]).0 != (
            #[trigger] dedup_groups(vs)[j]).0,
        dedup_of(vs).len() == dedup_groups(vs).len(),
{
    lemma_dedup_groups_distinct(vs);
}

/// Every record of the input is reported: under its key there is a result
/// record with a severity at least its own.
pub proof fn law_dedup_reports_every_record(vs: Seq<VulnView>)
    ensures
        forall|v: VulnView| #[trigger] vs.contains(v) ==> exists|i: int|
            0 <= i < dedup_groups(vs).len() && (#[trigger] dedup_groups(vs)[i]).0 == dedup_key_of(v)
                && dedup_groups(vs)[i].1.2.level_of() >= v.2.level_of(),
    decreases vs.len(),
{
    if vs.len() > 0 {
        let init = vs.drop_last();
        law_dedup_reports_every_record(init);
        let prev = dedup_groups(init);
        let v = vs.last();
        let k = dedup_key_of(v);
        let next = dedup_groups(vs);
        if exists|j: int| 0 <= j < prev.len() && (#[trigger] prev[j]).0 == k {
            let j = choose|j: int| 0 <= j < prev.len() && (#[trigger] prev[j]).0 == k;
            assert(next == prev.update(j, (k, merge_of(prev[j].1, v))));
            law_merge_keeps_data(prev[j].1, v);
            assert forall|u: VulnView| #[trigger] vs.contains(u) implies exists|i: int|
                0 <= i < next.len() && (#[trigger] next[i]).0 == dedup_key_of(u) && next[i].1.2.level_of()
                    >= u.2.level_of() by {
                let w = choose|w: int| 0 <= w < vs.len() && vs[w] == u;
                if w < vs.len() - 1 {
                    assert(init[w] == u);
                    assert(init.contains(u));
                    let i = choose|i: int| 0 <= i < prev.len() && (#[trigger] prev[i]).0 == dedup_key_of(u)
                        && prev[i].1.2.level_of() >= u.2.level_of();
                    assert(next[i].0 == prev[i].0);
                } else {
                    assert(next[j].0 == k);
                }
            }
        } else {
            assert(next == prev.push((k, v)));
            assert forall|u: VulnView| #[trigger] vs.contains(u) implies exists|i: int|
                0 <= i < next.len() && (#[trigger] next[i]).0 == dedup_key_of(u) && next[i].1.2.level_of()
                    >= u.2.level_of() by {
                let w = choose|w: int| 0 <= w < vs.len() && vs[w] == u;
                if w < vs.len() - 1 {
                    assert(init[w] == u);
                    assert(init.contains(u));
                    let i = choose|i: int| 0 <= i < prev.len() && (#[trigger] prev[i]).0 == dedup_key_of(u)
                        && prev[i].1.2.level_of() >= u.2.level_of();
                    assert(next[i] == prev[i]);
                } else {
                    assert(next[prev.len() as int].0 == k);
                }
            }
        }
    }
}

/// Every key of the result is the key of an input record.
pub proof fn law_dedup_keys_from_input(vs: Seq<VulnView>)
    ensures
        forall|i: int| 0 <= i < dedup_groups(vs).len() ==> exists|v: VulnView|
            #[trigger] vs.contains(v) && dedup_key_of(v) == (#[trigger] dedup_groups(vs)[i]).0,
    decreases vs.len(),
{
    if vs.len() > 0 {
        let init = vs.drop_last();
        law_dedup_keys_from_input(init);
        let prev = dedup_groups(init);
        let v = vs.last();
        let k = dedup_key_of(v);
        let next = dedup_groups(vs);
        assert(vs[vs.len() - 1] == v);
        assert(vs.contains(v));
        if exists|j: int| 0 <= j < prev.len() && (#[trigger] prev[j]).0 == k {
            let j = choose|j: int| 0 <= j < prev.len() && (#[trigger] prev[j]).0 == k;
            assert(next == prev.update(j, (k, merge_of(prev[j].1, v))));
            assert forall|i: int| 0 <= i < next.len() implies exists|u: VulnView|
                #[trigger] vs.contains(u) && dedup_key_of(u) == (#[trigger] next[i]).0 by {
                assert(next[i].0 == prev[i].0);
                let u = choose|u: VulnView| #[trigger] init.contains(u) && dedup_key_of(u) == prev[i].0;
                let w = choose|w: int| 0 <= w < init.len() && init[w] == u;
                assert(vs[w] == u);
                assert(vs.contains(u));
            }
        } else {
            assert(next == prev.push((k, v)));
            assert forall|i: int| 0 <= i < next.len() implies exists|u: VulnView|
                #[trigger] vs.contains(u) && dedup_key_of(u) == (#[trigger] next[i]).0 by {
                if i < prev.len() {
                    assert(next[i] == prev[i]);
                    let u = choose|u: VulnView| #[trigger] init.contains(u) && dedup_key_of(u) == prev[i].0;
                    let w = choose|w: int| 0 <= w < init.len() && init[w] == u;
                    assert(vs[w] == u);
                    assert(vs.contains(u));
                } else {
                    assert(next[i].0 == k);
                    assert(vs.contains(v));
                }
            }
        }
    }
}

pub open spec fn is_cve(x: Seq<char>) -> bool {
    text::starts_with(x, "CVE-"@)
}

proof fn lemma_first_cve_at(s: Seq<Seq<char>>, i: int)
    requires
        0 <= i < s.len(),
        is_cve(s[i]),
        forall|j: int| 0 <= j < i ==> !is_cve(#[trigger] s[j]),
    ensures
        first_cve(s) == Some(s[i]),
    decreases i,
{
    if i > 0 {
        assert forall|j: int| 0 <= j < i - 1 implies !is_cve(#[trigger] s.drop_first()[j]) by {
            assert(s.drop_first()[j] == s[j + 1]);
        }
        assert(!is_cve(s[0]));
        lemma_first_cve_at(s.drop_first(), i - 1);
    }
}

proof fn lemma_first_cve_none(s: Seq<Seq<char>>)
    requires
        forall|j: int| 0 <= j < s.len() ==> !is_cve(#[trigger] s[j]),
    ensures
        first_cve(s) is None,
    decreases s.len(),
{
    if s.len() > 0 {
        assert(!is_cve(s[0]));
        assert forall|j: int| 0 <= j < s.len() - 1 implies !is_cve(#[trigger] s.drop_first()[j]) by {
            assert(s.drop_first()[j] == s[j + 1]);
        }
        lemma_first_cve_none(s.drop_first());
    }
}

/// Where `first_cve` finds its alias, or that none is a CVE id.
proof fn lemma_first_cve_index(s: Seq<Seq<char>>) -> (i: int)
    ensures
        first_cve(s) is Some ==> 0 <= i < s.len() && is_cve(s[i]) && s[i] == first_cve(s)->0 && forall|j: int|
            0 <= j < i ==> !is_cve(#[trigger] s[j]),
        first_cve(s) is None ==> forall|j: int| 0 <= j < s.len() ==> !is_cve(#[trigger] s[j]),
    decreases s.len(),
{
    if s.len() == 0 {
        0
    } else if is_cve(s[0]) {
        0
    } else {
        let k = lemma_first_cve_index(s.drop_first());
        if first_cve(s) is Some {
            assert forall|j: int| 0 <= j < k + 1 implies !is_cve(#[trigger] s[j]) by {
                if j > 0 {
                    assert(s[j] == s.drop_first()[j - 1]);
                }
            }
            assert(s[k + 1] == s.drop_first()[k]);
        } else {
            assert forall|j: int| 0 <= j < s.len() implies !is_cve(#[trigger] s[j]) by {
                if j > 0 {
                    assert(s[j] == s.drop_first()[j - 1]);
                }
            }
        }
        k + 1
    }
}

/// Later aliases only ever go after the ones already there.
proof fn lemma_union_prefix(acc: Seq<Seq<char>>, extra: Seq<Seq<char>>, n: int, m: int)
    requires
        0 <= n <= m <= extra.len(),
    ensures
        union_aliases(acc, extra.take(m)).take(union_aliases(acc, extra.take(n)).len() as int)
            == union_aliases(acc, extra.take(n)),
        union_aliases(acc, extra.take(n)).len() <= union_aliases(acc, extra.take(m)).len(),
    decreases m - n,
{
    if n < m {
        lemma_union_prefix(acc, extra, n, m - 1);
        let u = union_aliases(acc, extra.take(m - 1));
        assert(extra.take(m).drop_last() =~= extra.take(m - 1));
        let w = union_aliases(acc, extra.take(m));
        assert(w == u || w == u.push(extra[m - 1]));
        let p = union_aliases(acc, extra.take(n));
        assert(w.take(p.len() as int) =~= u.take(p.len() as int));
    } else {
        let p = union_aliases(acc, extra.take(n));
        assert(p.take(p.len() as int) =~= p);
    }
}

proof fn lemma_first_cve_prefix(p: Seq<Seq<char>>, s: Seq<Seq<char>>)
    requires
        p.len() <= s.len(),
        s.take(p.len() as int) == p,
        first_cve(p) is Some,
    ensures
        first_cve(s) == first_cve(p),
{
    let i = lemma_first_cve_index(p);
    assert(s[i] == p[i]);
    assert forall|j: int| 0 <= j < i implies !is_cve(#[trigger] s[j]) by {
        assert(s[j] == p[j]);
    }
    lemma_first_cve_at(s, i);
}

/// With no CVE id among the first aliases, the first CVE id of the union is
/// the first one of `extra`.
proof fn lemma_union_first_cve(acc: Seq<Seq<char>>, extra: Seq<Seq<char>>)
    requires
        first_cve(acc) is None,
    ensures
        first_cve(union_aliases(acc, extra)) == first_cve(extra),
{
    lemma_first_cve_index(acc);
    let k = lemma_first_cve_index(extra);
    lemma_union_aliases(acc, extra);
    if first_cve(extra) is None {
        let u = union_aliases(acc, extra);
        assert forall|j: int| 0 <= j < u.len() implies !is_cve(#[trigger] u[j]) by {
            assert(u.contains(u[j]));
            if acc.contains(u[j]) {
                let w = choose|w: int| 0 <= w < acc.len() && acc[w] == u[j];
            } else {
                let w = choose|w: int| 0 <= w < extra.len() && extra[w] == u[j];
            }
        }
        lemma_first_cve_none(u);
    } else {
        // Up to the first CVE id of `extra`, the union holds none.
        let c = extra[k];
        let p = union_aliases(acc, extra.take(k));
        lemma_union_aliases(acc, extra.take(k));
        assert forall|j: int| 0 <= j < p.len() implies !is_cve(#[trigger] p[j]) by {
            assert(p.contains(p[j]));
            if acc.contains(p[j]) {
                let w = choose|w: int| 0 <= w < acc.len() && acc[w] == p[j];
            } else {
                let w = choose|w: int| 0 <= w < extra.take(k).len() && extra.take(k)[w] == p[j];
                assert(extra[w] == p[j]);
            }
        }
        assert(!p.contains(c));
        assert(extra.take(k + 1).drop_last() =~= extra.take(k));
        let q = union_aliases(acc, extra.take(k + 1));
        assert(q == p.push(c));
        assert forall|j: int| 0 <= j < p.len() implies !is_cve(#[trigger] q[j]) by {
            assert(q[j] == p[j]);
        }
        lemma_first_cve_at(q, p.len() as int);
        lemma_union_prefix(acc, extra, k + 1, extra.len() as int);
        assert(extra.take(extra.len() as int) =~= extra);
        lemma_first_cve_prefix(q, union_aliases(acc, extra));
    }
}

/// Merging two records of one key gives a record of that key.
pub proof fn lemma_merge_key(a: VulnView, b: VulnView)
    requires
        dedup_key_of(a) == dedup_key_of(b),
    ensures
        dedup_key_of(merge_of(a, b)) == dedup_key_of(a),
{
    let (keep, drop) = if rank_le_of(a, b) {
        (a, b)
    } else {
        (b, a)
    };
    let u = union_aliases(keep.3, drop.3);
    assert(merge_of(a, b).3 == u);
    assert(merge_of(a, b).0 == keep.0);
    if first_cve(keep.3) is Some {
        lemma_union_prefix(keep.3, drop.3, 0, drop.3.len() as int);
        assert(drop.3.take(0) =~= Seq::<Seq<char>>::empty());
        assert(drop.3.take(drop.3.len() as int) =~= drop.3);
        assert(union_aliases(keep.3, Seq::<Seq<char>>::empty()) == keep.3);
        lemma_first_cve_prefix(keep.3, u);
    } else {
        lemma_union_first_cve(keep.3, drop.3);
    }
}

/// Each result record carries the key of its group.
pub proof fn lemma_groups_carry_keys(vs: Seq<VulnView>)
    ensures
        forall|i: int| 0 <= i < dedup_groups(vs).len() ==> dedup_key_of(
            (#[trigger] dedup_groups(vs)[i]).1,
        ) == dedup_groups(vs)[i].0,
    decreases vs.len(),
{
    if vs.len() > 0 {
        let init = vs.drop_last();
        lemma_groups_carry_keys(init);
        let prev = dedup_groups(init);
        let v = vs.last();
        let k = dedup_key_of(v);
        if exists|j: int| 0 <= j < prev.len() && (#[trigger] prev[j]).0 == k {
            let j = choose|j: int| 0 <= j < prev.len() && (#[trigger] prev[j]).0 == k;
            assert(dedup_key_of(prev[j].1) == k);
            lemma_merge_key(prev[j].1, v);
            assert(dedup_groups(vs) == prev.update(j, (k, merge_of(prev[j].1, v))));
        } else {
            assert(dedup_groups(vs) == prev.push((k, v)));
        }
    }
}

/// No two records of the result share a key (their first CVE alias, or their id).
pub proof fn law_dedup_keys_distinct(vs: Seq<VulnView>)
    ensures
        forall|i: int, j: int|
            0 <= i < j < dedup_of(vs).len() ==> dedup_key_of(#[trigger] dedup_of(vs)[i]) != dedup_key_of(
                #[trigger] dedup_of(vs)[j],
            ),
{
    lemma_groups_carry_keys(vs);
    lemma_dedup_groups_distinct(vs);
    assert forall|i: int, j: int| 0 <= i < j < dedup_of(vs).len() implies dedup_key_of(
        #[trigger] dedup_of(vs)[i],
    ) != dedup_key_of(#[trigger] dedup_of(vs)[j]) by {
        assert(dedup_of(vs)[i] == dedup_groups(vs)[i].1);
        assert(dedup_of(vs)[j] == dedup_groups(vs)[j].1);
    }
}

/// The CVE an advisory is grouped by is one of its aliases, starts with
/// `CVE-`, and comes before any other such alias; without such an alias
/// there is none.
pub proof fn law_first_cve_is_first_cve_alias(aliases: Seq<Seq<char>>)
    ensures
        first_cve(aliases) matches Some(c) ==> exists|i: int|
            0 <= i < aliases.len() && aliases[i] == c && text::starts_with(c, "CVE-"@) && forall|j: int|
                0 <= j < i ==> !text::starts_with(#[trigger] aliases[j], "CVE-"@),
        first_cve(aliases) is None <==> forall|j: int|
            0 <= j < aliases.len() ==> !text::starts_with(#[trigger] aliases[j], "CVE-"@),
    decreases aliases.len(),
{
    if aliases.len() > 0 && !text::starts_with(aliases[0], "CVE-"@) {
        let rest = aliases.drop_first();
        law_first_cve_is_first_cve_alias(rest);
        if let Some(c) = first_cve(rest) {
            let i = choose|i: int|
                0 <= i < rest.len() && rest[i] == c && text::starts_with(c, "CVE-"@) && forall|j: int|
                    0 <= j < i ==> !text::starts_with(#[trigger] rest[j], "CVE-"@);
            assert(aliases[i + 1] == c);
            assert forall|j: int| 0 <= j < i + 1 implies !text::starts_with(#[trigger] aliases[j], "CVE-"@) by {
                if j > 0 {
                    assert(aliases[j] == rest[j - 1]);
                }
            }
        }
        assert((forall|j: int| 0 <= j < aliases.len() ==> !text::starts_with(#[trigger] aliases[j], "CVE-"@))
            <==> (forall|j: int| 0 <= j < rest.len() ==> !text::starts_with(#[trigger] rest[j], "CVE-"@))) by {
            if forall|j: int| 0 <= j < rest.len() ==> !text::starts_with(#[trigger] rest[j], "CVE-"@) {
                assert forall|j: int| 0 <= j < aliases.len() implies !text::starts_with(
                    #[trigger] aliases[j],
                    "CVE-"@,
                ) by {
                    if j > 0 {
                        assert(aliases[j] == rest[j - 1]);
                    }
                }
            }
            if forall|j: int| 0 <= j < aliases.len() ==> !text::starts_with(#[trigger] aliases[j], "CVE-"@) {
                assert forall|j: int| 0 <= j < rest.len() implies !text::starts_with(#[trigger] rest[j], "CVE-"@) by {
                    assert(rest[j] == aliases[j + 1]);
                }
            }
        }
    } else if aliases.len() > 0 {
        assert(text::starts_with(aliases[0], "CVE-"@));
    }
}

/// Merging keeps the id of the more curated database: a GHSA record wins
/// over any record that is not GHSA, whichever comes first, and a PYSEC
/// record loses to any record that is not PYSEC. Between two records of one
/// database the one with the longer summary wins.
pub proof fn law_merge_prefers_curated_ids(a: VulnView, b: VulnView)
    ensures
        text::starts_with(a.0, "GHSA"@) && !text::starts_with(b.0, "GHSA"@) ==> merge_of(a, b).0 == a.0
            && merge_of(b, a).0 == a.0,
        text::starts_with(b.0, "PYSEC"@) && !text::starts_with(a.0, "PYSEC"@) ==> merge_of(a, b).0 == a.0
            && merge_of(b, a).0 == a.0,
        id_rank_of(a.0) == id_rank_of(b.0) && summary_bytes(a.1) > summary_bytes(b.1) ==> merge_of(a, b).0
            == a.0 && merge_of(b, a).0 == a.0,
{
    reveal_strlit("GHSA");
    reveal_strlit("RUSTSEC");
    reveal_strlit("GO-");
    reveal_strlit("CVE");
    reveal_strlit("PYSEC");
    if text::starts_with(b.0, "PYSEC"@) {
        assert(b.0.take(5)[0] == b.0[0]);
        assert("PYSEC"@[0] == 'P');
        assert(b.0[0] == 'P');
        assert(!text::starts_with(b.0, "GHSA"@)) by {
            if text::starts_with(b.0, "GHSA"@) {
                assert(b.0.take(4)[0] == b.0[0]);
            }
        }
        assert(!text::starts_with(b.0, "RUSTSEC"@)) by {
            if text::starts_with(b.0, "RUSTSEC"@) {
                assert(b.0.take(7)[0] == b.0[0]);
            }
        }
        assert(!text::starts_with(b.0, "GO-"@)) by {
            if text::starts_with(b.0, "GO-"@) {
                assert(b.0.take(3)[0] == b.0[0]);
            }
        }
        assert(!text::starts_with(b.0, "CVE"@)) by {
            if text::starts_with(b.0, "CVE"@) {
                assert(b.0.take(3)[0] == b.0[0]);
            }
        }
    }
}

/// Advisories are grouped by their CVE alias, or, without one, by their own
/// id: the key of an advisory without a CVE alias is its id, and that of one
/// with a CVE alias is an alias starting with `CVE-`.
pub proof fn law_dedup_key_is_cve_or_id(v: VulnView)
    ensures
        (forall|j: int| 0 <= j < v.3.len() ==> !text::starts_with(#[trigger] v.3[j], "CVE-"@))
            ==> dedup_key_of(v) == v.0,
        (exists|j: int| 0 <= j < v.3.len() && text::starts_with(#[trigger] v.3[j], "CVE-"@)) ==> (
        v.3.contains(dedup_key_of(v)) && text::starts_with(dedup_key_of(v), "CVE-"@)),
{
    law_first_cve_is_first_cve_alias(v.3);
}

/// Two advisories without a CVE alias and with different ids are both
/// reported, unchanged and in order; two that share their first CVE alias
/// are reported once, merged.
pub proof fn law_dedup_pairs(a: VulnView, b: VulnView)
    ensures
        (forall|j: int| 0 <= j < a.3.len() ==> !text::starts_with(#[trigger] a.3[j], "CVE-"@)) && (forall|j: int|
            0 <= j < b.3.len() ==> !text::starts_with(#[trigger] b.3[j], "CVE-"@)) && a.0 != b.0 ==> dedup_of(
            seq![a, b],
        ) == seq![a, b],
        first_cve(a.3) is Some && first_cve(a.3) == first_cve(b.3) ==> dedup_of(seq![a, b]) == seq![
            merge_of(a, b),
        ],
{
    law_dedup_key_is_cve_or_id(a);
    law_dedup_key_is_cve_or_id(b);
    let s = seq![a, b];
    assert(s.drop_last() =~= seq![a]);
    assert(seq![a].drop_last() =~= Seq::<VulnView>::empty());
    let g1 = dedup_groups(seq![a]);
    assert(dedup_groups(seq![a].drop_last()) == Seq::<(Seq<char>, VulnView)>::empty());
    assert(seq![a].last() == a);
    assert(g1 =~= Seq::<(Seq<char>, VulnView)>::empty().push((dedup_key_of(a), a)));
    assert(g1 =~= seq![(dedup_key_of(a), a)]);
    assert(s.last() == b);
    assert(dedup_groups(s.drop_last()) == g1);
    if dedup_key_of(a) != dedup_key_of(b) {
        assert(dedup_groups(s) =~= seq![(dedup_key_of(a), a), (dedup_key_of(b), b)]);
        assert(dedup_of(s) =~= seq![a, b]);
    } else {
        assert(g1[0].0 == dedup_key_of(b));
        assert(dedup_groups(s) =~= seq![(dedup_key_of(a), merge_of(a, b))]);
        assert(dedup_of(s) =~= seq![merge_of(a, b)]);
    }
}

/// Records whose keys are all distinct are reported unchanged, in order.
pub proof fn law_dedup_distinct_unchanged(vs: Seq<VulnView>)
    requires
        forall|i: int, j: int|
            0 <= i < j < vs.len() ==> dedup_key_of(#[trigger] vs[i]) != dedup_key_of(#[trigger] vs[j]),
    ensures
        dedup_of(vs) == vs,
    decreases vs.len(),
{
    if vs.len() > 0 {
        let init = vs.drop_last();
        assert forall|i: int, j: int| 0 <= i < j < init.len() implies dedup_key_of(#[trigger] init[i])
            != dedup_key_of(#[trigger] init[j]) by {
            assert(init[i] == vs[i] && init[j] == vs[j]);
        }
        law_dedup_distinct_unchanged(init);
        lemma_groups_keys(init);
        let prev = dedup_groups(init);
        let k = dedup_key_of(vs.last());
        assert forall|j: int| 0 <= j < prev.len() implies (#[trigger] prev[j]).0 != k by {
            assert(prev[j].0 == dedup_key_of(init[j]));
            assert(init[j] == vs[j]);
        }
        assert(dedup_groups(vs) == prev.push((k, vs.last())));
        assert(dedup_of(init) == init);
        assert(dedup_of(vs) =~= dedup_of(init).push(vs.last()));
        assert(init.push(vs.last()) =~= vs);
    }
}

/// When no two keys repeat, each group holds exactly its one record.
proof fn lemma_groups_keys(vs: Seq<VulnView>)
    requires
        forall|i: int, j: int|
            0 <= i < j < vs.len() ==> dedup_key_of(#[trigger] vs[i]) != dedup_key_of(#[trigger] vs[j]),
    ensures
        dedup_groups(vs).len() == vs.len(),
        forall|j: int| 0 <= j < vs.len() ==> (#[trigger] dedup_groups(vs)[j]).0 == dedup_key_of(vs[j])
            && dedup_groups(vs)[j].1 == vs[j],
    decreases vs.len(),
{
    if vs.len() > 0 {
        let init = vs.drop_last();
        assert forall|i: int, j: int| 0 <= i < j < init.len() implies dedup_key_of(#[trigger] init[i])
            != dedup_key_of(#[trigger] init[j]) by {
            assert(init[i] == vs[i] && init[j] == vs[j]);
        }
        lemma_groups_keys(init);
        let prev = dedup_groups(init);
        let k = dedup_key_of(vs.last());
        assert forall|j: int| 0 <= j < prev.len() implies (#[trigger] prev[j]).0 != k by {
            assert(prev[j].0 == dedup_key_of(init[j]));
            assert(init[j] == vs[j]);
        }
        assert(dedup_groups(vs) == prev.push((k, vs.last())));
        assert forall|j: int| 0 <= j < vs.len() implies (#[trigger] dedup_groups(vs)[j]).0 == dedup_key_of(
            vs[j],
        ) && dedup_groups(vs)[j].1 == vs[j] by {
            if j < init.len() {
                assert(init[j] == vs[j]);
            }
        }
    }
}

/// OSV emits one record per database (GHSA + PYSEC + CVE) for the *same*
/// underlying flaw. Collapse them by shared CVE so each real vulnerability is
/// reported once, keeping the richest twin (best id + summary + severity).
pub fn dedup_by_cve(vulns: Vec<Vuln>) -> (r: Vec<Vuln>)
    ensures
        vuln_views(r@) == dedup_of(vuln_views(vulns@)),
{
    let ghost input = vuln_views(vulns@);
    let mut keys: Vec<Vec<char>> = Vec::new();
    let mut out: Vec<Vuln> = Vec::new();
    let mut i: usize = 0;
    while i < vulns.len()
        invariant
            input == vuln_views(vulns@),
            i <= vulns@.len(),
            keys@.len() == out@.len(),
            keys@.len() == dedup_groups(input.take(i as int)).len(),
            forall|q: int|
                0 <= q < keys@.len() ==> (#[trigger] keys@[q])@ == dedup_groups(input.take(i as int))[q].0
                    && out@[q]@ == dedup_groups(input.take(i as int))[q].1,
        decreases vulns.len() - i,
    {
        let ghost pre = input.take(i as int);
        let ghost prev = dedup_groups(pre);
        proof {
            assert(input.take(i + 1).drop_last() =~= pre);
            assert(input.take(i + 1).last() == vulns@[i as int]@);
            lemma_dedup_groups_distinct(pre);
        }
        let v = vulns[i].duplicate();
        let k = dedup_key(&v);
        let mut found: Option<usize> = None;
        let mut q: usize = 0;
        while q < keys.len()
            invariant
                q <= keys@.len(),
                keys@.len() == prev.len(),
                forall|t: int| 0 <= t < keys@.len() ==> (#[trigger] keys@[t])@ == prev[t].0,
                match found {
                    Some(j) => j < keys@.len() && prev[j as int].0 == k@,
                    None => forall|t: int| 0 <= t < q ==> (#[trigger] prev[t]).0 != k@,
                },
            decreases keys.len() - q,
        {
            if found.is_none() && text::chars_eq(keys[q].as_slice(), k.as_slice()) {
                found = Some(q);
            }
            q += 1;
        }
        match found {
            Some(j) => {
                proof {
                    let c = choose|c: int| 0 <= c < prev.len() && (#[trigger] prev[c]).0 == k@;
                    if c != j {
                        assert(prev[c].0 == prev[j as int].0);
                        if c < j {
                            assert((prev[c]).0 != (prev[j as int]).0);
                        } else {
                            assert((prev[j as int]).0 != (prev[c]).0);
                        }
                    }
                }
                let ghost out0 = out@;
                let existing = out.remove(j);
                let merged = merge(existing, v);
                out.insert(j, merged);
                proof {
                    assert(out@ == out0.update(j as int, merged));
                    let next = prev.update(j as int, (k@, merge_of(prev[j as int].1, vulns@[i as int]@)));
                    assert(dedup_groups(input.take(i + 1)) == next);
                    assert(keys@[j as int]@ == prev[j as int].0);
                    assert forall|t: int| 0 <= t < keys@.len() implies (#[trigger] keys@[t])@
                        == next[t].0 && out@[t]@ == next[t].1 by {
                        assert(keys@[t]@ == prev[t].0);
                    }
                }
            },
            None => {
                proof {
                    assert(!exists|c: int| 0 <= c < prev.len() && (#[trigger] prev[c]).0 == k@);
                    assert(dedup_groups(input.take(i + 1)) == prev.push((k@, vulns@[i as int]@)));
                }
                let ghost out0 = out@;
                let ghost keys0 = keys@;
                let ghost kv = k@;
                out.push(v);
                keys.push(k);
                proof {
                    let next = prev.push((kv, vulns@[i as int]@));
                    assert forall|t: int| 0 <= t < keys@.len() implies (#[trigger] keys@[t])@
                        == next[t].0 && out@[t]@ == next[t].1 by {
                        if t < keys0.len() {
                            assert(keys@[t] == keys0[t]);
                            assert(keys0[t]@ == prev[t].0);
                            assert(out@[t] == out0[t]);
                        }
                    }
                }
            },
        }
        i += 1;
    }
    proof {
        assert(input.take(vulns@.len() as int) == input);
        assert forall|q: int| 0 <= q < out@.len() implies vuln_views(out@)[q] == dedup_of(input)[q] by {
            assert(keys@[q]@ == dedup_groups(input)[q].0);
        }
        assert(vuln_views(out@) =~= dedup_of(input));
    }
    out
}


// ---------------------------------------------------------------------------
// Severity words and advisory records
// ---------------------------------------------------------------------------

/// `char::to_ascii_uppercase`: `a`..`z` become `A`..`Z` (32 code points
/// lower), all else stays.
pub open spec fn ascii_upper(c: char) -> char {
    if 97 <= (c as u32) <= 122 {
        ((c as u32) - 32) as char
    } else {
        c
    }
}

/// `char::to_ascii_lowercase`: `A`..`Z` become `a`..`z` (32 code points
/// higher), all else stays.
pub open spec fn ascii_lower(c: char) -> char {
    if 65 <= (c as u32) <= 90 {
        ((c as u32) + 32) as char
    } else {
        c
    }
}

pub fn to_ascii_upper(c: char) -> (r: char)
    ensures
        r == ascii_upper(c),
{
    let code = c as u32;
    if 97 <= code && code <= 122 {
        let b = (code - 32) as u8;
        b as char
    } else {
        c
    }
}

pub fn to_ascii_lower(c: char) -> (r: char)
    ensures
        r == ascii_lower(c),
{
    let code = c as u32;
    if 65 <= code && code <= 90 {
        let b = (code + 32) as u8;
        b as char
    } else {
        c
    }
}

/// `str::to_ascii_uppercase`.
pub open spec fn upper_of(s: Seq<char>) -> Seq<char> {
    s.map_values(|c: char| ascii_upper(c))
}

/// `str::to_ascii_lowercase`.
pub open spec fn lower_of(s: Seq<char>) -> Seq<char> {
    s.map_values(|c: char| ascii_lower(c))
}

/// Whether `s` in ASCII upper case is `lit`.
pub fn upper_eq(s: &[char], lit: &[char]) -> (r: bool)
    ensures
        r == (upper_of(s@) == lit@),
{
    if s.len() != lit.len() {
        return false;
    }
    let mut i: usize = 0;
    while i < s.len()
        invariant
            s@.len() == lit@.len(),
            i <= s@.len(),
            forall|j: int| 0 <= j < i ==> ascii_upper(#[trigger] s@[j]) == lit@[j],
        decreases s.len() - i,
    {
        if to_ascii_upper(s[i]) != lit[i] {
            proof {
                assert(upper_of(s@)[i as int] != lit@[i as int]);
            }
            return false;
        }
        i += 1;
    }
    proof {
        assert(upper_of(s@) =~= lit@);
    }
    true
}

/// Whether `s` in ASCII lower case is `lit`.
pub fn lower_eq(s: &[char], lit: &[char]) -> (r: bool)
    ensures
        r == (lower_of(s@) == lit@),
{
    if s.len() != lit.len() {
        return false;
    }
    let mut i: usize = 0;
    while i < s.len()
        invariant
            s@.len() == lit@.len(),
            i <= s@.len(),
            forall|j: int| 0 <= j < i ==> ascii_lower(#[trigger] s@[j]) == lit@[j],
        decreases s.len() - i,
    {
        if to_ascii_lower(s[i]) != lit[i] {
            proof {
                assert(lower_of(s@)[i as int] != lit@[i as int]);
            }
            return false;
        }
        i += 1;
    }
    proof {
        assert(lower_of(s@) =~= lit@);
    }
    true
}

/// The severity a database word names, case-insensitively.
pub open spec fn severity_word_of(s: Seq<char>) -> Option<Severity> {
    let u = upper_of(s);
    if u == "CRITICAL"@ {
        Some(Severity::Critical)
    } else if u == "HIGH"@ {
        Some(Severity::High)
    } else if u == "MODERATE"@ || u == "MEDIUM"@ {
        Some(Severity::Medium)
    } else if u == "LOW"@ {
        Some(Severity::Low)
    } else {
        None
    }
}

/// The severity a database word (such as GHSA's `database_specific.severity`) names.
pub fn severity_from_word(s: &str) -> (r: Option<Severity>)
    ensures
        r == severity_word_of(s@),
{
    let w = text::chars_of(s);
    if upper_eq(w.as_slice(), text::chars_of("CRITICAL").as_slice()) {
        Some(Severity::Critical)
    } else if upper_eq(w.as_slice(), text::chars_of("HIGH").as_slice()) {
        Some(Severity::High)
    } else if upper_eq(w.as_slice(), text::chars_of("MODERATE").as_slice()) || upper_eq(
        w.as_slice(),
        text::chars_of("MEDIUM").as_slice(),
    ) {
        Some(Severity::Medium)
    } else if upper_eq(w.as_slice(), text::chars_of("LOW").as_slice()) {
        Some(Severity::Low)
    } else {
        None
    }
}

/// The severity of an advisory: the database's own word when it names one,
/// else `scored`, the grade of its CVSS score (Unknown when it has none).
pub open spec fn severity_of(word: Option<Seq<char>>, scored: Severity) -> Severity {
    match word {
        Some(w) => match severity_word_of(w) {
            Some(sev) => sev,
            None => scored,
        },
        None => scored,
    }
}

/// Best-effort severity: prefer the database's own word (GHSA), fall back to
/// `scored`, the grade of the CVSS base score.
pub fn parse_severity(word: Option<&str>, scored: Severity) -> (r: Severity)
    ensures
        r == severity_of(
            match word {
                Some(w) => Some(w@),
                None => None,
            },
            scored,
        ),
{
    match word {
        Some(w) => match severity_from_word(w) {
            Some(sev) => sev,
            None => scored,
        },
        None => scored,
    }
}

/// An OSV advisory record as its JSON gives it: the string fields that are
/// present, the string aliases, and the grade of its first usable CVSS score.
struct RawVuln {
    id: Option<String>,
    summary: Option<String>,
    details: Option<String>,
    aliases: Vec<String>,
    severity_word: Option<String>,
    scored: Severity,
}

pub open spec fn opt_str(o: Option<String>) -> Option<Seq<char>> {
    match o {
        Some(s) => Some(s@),
        None => None,
    }
}

/// The first line of `s`, or nothing.
pub open spec fn first_line(s: Seq<char>) -> Seq<char> {
    if text::lines(s).len() > 0 {
        text::lines(s)[0]
    } else {
        Seq::empty()
    }
}

/// The advisory a record describes: its id (`UNKNOWN` when missing), the
/// first line of its summary (or else of its details), its severity, and its
/// aliases.
spec fn vuln_of(raw: RawVuln) -> VulnView {
    let id = match raw.id {
        Some(i) => i@,
        None => "UNKNOWN"@,
    };
    let text = match raw.summary {
        Some(s) => s@,
        None => match raw.details {
            Some(d) => d@,
            None => Seq::empty(),
        },
    };
    (id, first_line(text), severity_of(opt_str(raw.severity_word), raw.scored), strings_view(raw.aliases@))
}

/// The advisory a record describes.
fn record_vuln(raw: &RawVuln) -> (r: Vuln)
    ensures
        r@ == vuln_of(*raw),
{
    let id = match &raw.id {
        Some(i) => i.clone(),
        None => "UNKNOWN".to_owned(),
    };
    let text_c = match &raw.summary {
        Some(s) => text::chars_of(s.as_str()),
        None => match &raw.details {
            Some(d) => text::chars_of(d.as_str()),
            None => Vec::new(),
        },
    };
    let ls = text::split_lines(text_c.as_slice());
    let summary = if ls.len() > 0 {
        proof {
            assert(text::views(ls@)[0] == ls@[0]@);
        }
        text::string_of(ls[0])
    } else {
        String::new()
    };
    let word = match &raw.severity_word {
        Some(w) => Some(w.as_str()),
        None => None,
    };
    let severity = parse_severity(word, raw.scored);
    Vuln { id, summary, severity, aliases: clone_strings(&raw.aliases) }
}

/// The string items of an array, in order (`filter_map(as_str)`).
pub open spec fn json_strings(items: Seq<JsonValue>) -> Seq<Seq<char>>
    decreases items.len(),
{
    if items.len() == 0 {
        Seq::empty()
    } else {
        let prev = json_strings(items.drop_last());
        match items.last() {
            JsonValue::Str(s) => prev.push(s@),
            _ => prev,
        }
    }
}

/// The items of an optional array, none when it is not an array.
pub open spec fn json_items(v: Option<JsonValue>) -> Seq<JsonValue> {
    match v {
        Some(JsonValue::Array(a)) => a@,
        _ => Seq::empty(),
    }
}

/// The database's own severity word of an OSV record (`database_specific.severity`).
pub open spec fn severity_word_in(v: JsonValue) -> Option<Seq<char>> {
    match json_get(v, "database_specific"@) {
        Some(d) => json_str(json_get(d, "severity"@)),
        None => None,
    }
}

/// The advisory an OSV record describes, `scored` being the grade of its
/// first usable CVSS score: its `id` (`UNKNOWN` when missing), the first line
/// of its `summary` (or else of its `details`), its severity (the database's
/// word, else `scored`), and its string `aliases`.
pub open spec fn vuln_json_of(v: JsonValue, scored: Severity) -> VulnView {
    let id = match json_str(json_get(v, "id"@)) {
        Some(i) => i,
        None => "UNKNOWN"@,
    };
    let text = match json_str(json_get(v, "summary"@)) {
        Some(s) => s,
        None => match json_str(json_get(v, "details"@)) {
            Some(d) => d,
            None => Seq::empty(),
        },
    };
    (id, first_line(text), severity_of(severity_word_in(v), scored), json_strings(json_items(json_get(v, "aliases"@))))
}

fn owned(s: Option<&String>) -> (r: Option<String>)
    ensures
        opt_str(r) == match s {
            Some(x) => Some(x@),
            None => None::<Seq<char>>,
        },
{
    match s {
        Some(x) => Some(x.clone()),
        None => None,
    }
}

/// The string items of an optional array.
fn string_items(v: Option<&JsonValue>) -> (r: Vec<String>)
    ensures
        strings_view(r@) == json_strings(json_items(deref_opt(v))),
{
    let mut out: Vec<String> = Vec::new();
    match v {
        Some(JsonValue::Array(a)) => {
            let mut i: usize = 0;
            proof {
                assert(a@.take(0) =~= Seq::<JsonValue>::empty());
                assert(strings_view(out@) =~= Seq::<Seq<char>>::empty());
            }
            while i < a.len()
                invariant
                    i <= a@.len(),
                    strings_view(out@) == json_strings(a@.take(i as int)),
                decreases a.len() - i,
            {
                proof {
                    assert(a@.take(i + 1).drop_last() =~= a@.take(i as int));
                    assert(a@.take(i + 1).last() == a@[i as int]);
                }
                match &a[i] {
                    JsonValue::Str(x) => {
                        let ghost before = out@;
                        out.push(x.clone());
                        proof {
                            assert(strings_view(out@) =~= strings_view(before).push(x@));
                        }
                    },
                    _ => {},
                }
                i += 1;
            }
            proof {
                assert(a@.take(a@.len() as int) == a@);
            }
        },
        _ => {
            proof {
                assert(strings_view(out@) =~= Seq::<Seq<char>>::empty());
            }
        },
    }
    out
}

/// The advisory an OSV record describes, `scored` being the grade of its
/// first usable CVSS score (which is computed in floating point, outside
/// this library).
pub fn parse_vuln(v: &JsonValue, scored: Severity) -> (r: Vuln)
    ensures
        r@ == vuln_json_of(*v, scored),
{
    let word = match json_get_of(v, "database_specific") {
        Some(d) => owned(json_str_of(json_get_of(d, "severity"))),
        None => None,
    };
    let raw = RawVuln {
        id: owned(json_str_of(json_get_of(v, "id"))),
        summary: owned(json_str_of(json_get_of(v, "summary"))),
        details: owned(json_str_of(json_get_of(v, "details"))),
        aliases: string_items(json_get_of(v, "aliases")),
        severity_word: word,
        scored,
    };
    record_vuln(&raw)
}

/// The hit flags of a `querybatch` reply: for each item of its `results`
/// array, whether that item's `vulns` is a non-empty array.
pub open spec fn batch_hits_of(doc: JsonValue) -> Seq<bool> {
    json_items(json_get(doc, "results"@)).map_values(
        |x: JsonValue| json_items(json_get(x, "vulns"@)).len() > 0,
    )
}

/// The error for a reply from `url` that is not JSON.
pub open spec fn invalid_reply_prefix(url: Seq<char>) -> Seq<char> {
    "invalid JSON from "@ + url + ": "@
}

fn invalid_reply(url: &str, e: String) -> (r: String)
    ensures
        r@ == invalid_reply_prefix(url@) + e@,
{
    let mut s = String::new();
    s.append("invalid JSON from ");
    s.append(url);
    s.append(": ");
    s.append(e.as_str());
    s
}

/// Read the reply to a `querybatch` request sent to `url`.
pub fn batch_hits(url: &str, reply: &str) -> (r: Result<Vec<bool>, String>)
    ensures
        match json_document(reply@) {
            None => r matches Err(e) && text::starts_with(e@, invalid_reply_prefix(url@)),
            Some(d) => r matches Ok(h) && h@ == batch_hits_of(d),
        },
{
    let doc = match parse_json(reply) {
        Ok(d) => d,
        Err(e) => {
            let m = invalid_reply(url, e);
            proof {
                assert(m@.take(invalid_reply_prefix(url@).len() as int) =~= invalid_reply_prefix(url@));
            }
            return Err(m);
        },
    };
    let mut hits: Vec<bool> = Vec::new();
    match json_get_of(&doc, "results") {
        Some(JsonValue::Array(rs)) => {
            let mut i: usize = 0;
            while i < rs.len()
                invariant
                    i <= rs@.len(),
                    hits@ == rs@.take(i as int).map_values(
                        |x: JsonValue| json_items(json_get(x, "vulns"@)).len() > 0,
                    ),
                decreases rs.len() - i,
            {
                let h = match json_get_of(&rs[i], "vulns") {
                    Some(JsonValue::Array(a)) => a.len() > 0,
                    _ => false,
                };
                hits.push(h);
                i += 1;
                proof {
                    assert(hits@ =~= rs@.take(i as int).map_values(
                        |x: JsonValue| json_items(json_get(x, "vulns"@)).len() > 0,
                    ));
                }
            }
            proof {
                assert(rs@.take(rs@.len() as int) == rs@);
            }
        },
        _ => {
            proof {
                assert(hits@ =~= batch_hits_of(doc));
            }
        },
    }
    Ok(hits)
}

/// Read the reply to a `query` request sent to `url`: the records of its
/// `vulns` array (none when it has no such array).
pub fn reply_vulns(url: &str, reply: &str) -> (r: Result<Vec<JsonValue>, String>)
    ensures
        match json_document(reply@) {
            None => r matches Err(e) && text::starts_with(e@, invalid_reply_prefix(url@)),
            Some(d) => r matches Ok(vs) && vs@ == json_items(json_get(d, "vulns"@)),
        },
{
    let doc = match parse_json(reply) {
        Ok(d) => d,
        Err(e) => {
            let m = invalid_reply(url, e);
            proof {
                assert(m@.take(invalid_reply_prefix(url@).len() as int) =~= invalid_reply_prefix(url@));
            }
            return Err(m);
        },
    };
    match take_member(doc, "vulns") {
        Some(JsonValue::Array(a)) => Ok(a),
        _ => Ok(Vec::new()),
    }
}

// ---------------------------------------------------------------------------
// The two-phase lookup
// ---------------------------------------------------------------------------

/// What the lookup needs done next.
#[derive(Debug, PartialEq, Eq, Structural)]
pub enum OsvStep {
    /// Send the one `querybatch` request, with a query for every package in order.
    QueryBatch,
    /// Send one `query` request for the package at `index`.
    QueryOne { index: usize },
    /// Every package was looked up.
    Done,
}

/// The state of a lookup of advisories for a list of packages: a single
/// `querybatch` call filters the whole list down to the packages that have
/// any advisory, then each of those gets a `query` of its own.
pub struct OsvScan {
    packages: Vec<Package>,
    batched: bool,
    pending: Vec<usize>,
    pending_pos: usize,
    findings: Vec<Finding>,
}

/// Indices `start + i`, for `i < n` in increasing order, whose batch result
/// `has[i]` says the package has advisories.
pub open spec fn hits_of(start: nat, n: nat, has: Seq<bool>) -> Seq<usize>
    decreases n,
{
    if n == 0 {
        Seq::empty()
    } else {
        let prev = hits_of(start, (n - 1) as nat, has);
        if has[n - 1] {
            prev.push((start + n - 1) as usize)
        } else {
            prev
        }
    }
}

impl OsvScan {
    /// The packages being looked up.
    pub closed spec fn packages_view(&self) -> Seq<PackageView> {
        crate::deps::pkg_views(self.packages@)
    }

    /// Whether the batch request was answered.
    pub closed spec fn batched(&self) -> bool {
        self.batched
    }

    /// The packages the batch reported that still await their own query, in order.
    pub closed spec fn pending(&self) -> Seq<usize> {
        self.pending@.skip(self.pending_pos as int)
    }

    /// The packages found to have advisories so far, each with its advisories.
    pub closed spec fn findings_view(&self) -> Seq<FindingView> {
        finding_views(self.findings@)
    }

    pub closed spec fn wf(&self) -> bool {
        &&& self.pending_pos <= self.pending@.len()
        &&& forall|k: int| 0 <= k < self.pending@.len() ==> #[trigger] self.pending@[k] < self.packages@.len()
        &&& forall|k: int| 0 <= k < self.findings@.len() ==> (#[trigger] self.findings@[k]).vulns@.len() > 0
    }

    /// A lookup of advisories for `packages`, with nothing asked yet.
    pub fn new(packages: Vec<Package>) -> (r: OsvScan)
        ensures
            r.wf(),
            r.packages_view() == crate::deps::pkg_views(packages@),
            !r.batched(),
            r.pending() == Seq::<usize>::empty(),
            r.findings_view() == Seq::<FindingView>::empty(),
    {
        let r = OsvScan { packages, batched: false, pending: Vec::new(), pending_pos: 0, findings: Vec::new() };
        proof {
            assert(r.pending() =~= Seq::<usize>::empty());
            assert(r.findings_view() =~= Seq::<FindingView>::empty());
        }
        r
    }

    /// The next request to make: the batch first (none for an empty list of
    /// packages), then the query of each package it reported, in order.
    pub fn next(&self) -> (r: OsvStep)
        requires
            self.wf(),
        ensures
            match r {
                OsvStep::QueryOne { index } => {
                    &&& self.pending().len() > 0
                    &&& index == self.pending()[0]
                    &&& index < self.packages_view().len()
                },
                OsvStep::QueryBatch => {
                    &&& self.pending().len() == 0
                    &&& !self.batched()
                    &&& self.packages_view().len() > 0
                },
                OsvStep::Done => self.pending().len() == 0 && (self.batched() || self.packages_view().len()
                    == 0),
            },
    {
        if self.pending_pos < self.pending.len() {
            return OsvStep::QueryOne { index: self.pending[self.pending_pos] };
        }
        if !self.batched && self.packages.len() > 0 {
            OsvStep::QueryBatch
        } else {
            OsvStep::Done
        }
    }

    /// The packages being looked up.
    pub fn packages(&self) -> (r: &Vec<Package>)
        ensures
            crate::deps::pkg_views(r@) == self.packages_view(),
    {
        &self.packages
    }

    /// The package at `index`.
    pub fn package(&self, index: usize) -> (r: &Package)
        requires
            index < self.packages_view().len(),
        ensures
            r@ == self.packages_view()[index as int],
    {
        &self.packages[index]
    }

    /// Record the answer to the batch: `has_vulns[i]` tells whether the
    /// `i`-th package has any advisory. Results past the last package are ignored.
    pub fn on_batch(&mut self, has_vulns: &Vec<bool>)
        requires
            old(self).wf(),
            !old(self).batched(),
            old(self).pending().len() == 0,
        ensures
            final(self).wf(),
            final(self).batched(),
            final(self).packages_view() == old(self).packages_view(),
            final(self).findings_view() == old(self).findings_view(),
            ({
                let len = old(self).packages_view().len();
                let n: nat = if has_vulns@.len() <= len {
                    has_vulns@.len()
                } else {
                    len
                };
                final(self).pending() == hits_of(0, n, has_vulns@)
            }),
    {
        let len = self.packages.len();
        let n = if has_vulns.len() <= len {
            has_vulns.len()
        } else {
            len
        };
        let mut hits: Vec<usize> = Vec::new();
        let mut i: usize = 0;
        while i < n
            invariant
                i <= n,
                n <= has_vulns@.len(),
                n <= len,
                hits@ == hits_of(0, i as nat, has_vulns@),
                forall|k: int| 0 <= k < hits@.len() ==> #[trigger] hits@[k] < i,
            decreases n - i,
        {
            if has_vulns[i] {
                hits.push(i);
            }
            i += 1;
        }
        self.pending = hits;
        self.pending_pos = 0;
        self.batched = true;
        proof {
            assert(self.pending() == self.pending@);
        }
    }

    /// Record the advisories returned for the pending package: they are
    /// collapsed by shared CVE, and the package becomes a finding when any remain.
    pub fn on_vulns(&mut self, vulns: Vec<Vuln>)
        requires
            old(self).wf(),
            old(self).pending().len() > 0,
        ensures
            final(self).wf(),
            final(self).packages_view() == old(self).packages_view(),
            final(self).batched() == old(self).batched(),
            final(self).pending() == old(self).pending().drop_first(),
            ({
                let d = dedup_of(vuln_views(vulns@));
                let p = old(self).packages_view()[old(self).pending()[0] as int];
                final(self).findings_view() == if d.len() > 0 {
                    old(self).findings_view().push((p, d))
                } else {
                    old(self).findings_view()
                }
            }),
    {
        let plen = self.pending.len();
        assert(self.pending_pos < plen);
        let index = self.pending[self.pending_pos];
        let deduped = dedup_by_cve(vulns);
        if deduped.len() > 0 {
            let f = Finding { package: self.packages[index].duplicate(), vulns: deduped };
            proof {
                assert(finding_views(self.findings@.push(f)) =~= finding_views(self.findings@).push(f@));
            }
            self.findings.push(f);
        }
        self.pending_pos = self.pending_pos + 1;
        proof {
            assert(self.pending() =~= old(self).pending().drop_first());
        }
    }

    /// The packages found to have advisories, each with its advisories.
    pub fn into_findings(self) -> (r: Vec<Finding>)
        requires
            self.wf(),
        ensures
            finding_views(r@) == self.findings_view(),
            forall|k: int| 0 <= k < r@.len() ==> (#[trigger] r@[k]).vulns@.len() > 0,
    {
        self.findings
    }
}

} // verus!
