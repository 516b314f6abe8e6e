//! Orchestration and report formatting: glues `deps` (what is installed) to
//! `osv` (what is vulnerable) and renders a compact text report suitable both
//! for a terminal and for returning to an LLM.
//!
//! Reading the project directory and asking OSV.dev happen outside this
//! module; what they found is handed in.

use vstd::prelude::*;

use crate::deps::{Ecosystem, Package, PackageView, Source, SourceView, pkg_views, source_views};
use crate::order;
use crate::osv::{
    Finding,
    FindingView,
    Severity,
    Vuln,
    VulnView,
    finding_views,
    first_cve,
    find_cve,
    lower_eq,
    lower_of,
    max_severity,
    max_severity_of,
    vuln_views,
};
use crate::text;

verus! {


// ---------------------------------------------------------------------------
// Small pieces
// ---------------------------------------------------------------------------

/// The message given when a project holds none of the supported files.
pub open spec fn no_sources_of(path: Seq<char>) -> Seq<char> {
    "No supported dependency files found in "@ + path
        + ".\nSupported: Cargo.lock, package-lock.json, package.json, requirements.txt, go.mod/go.sum."@
}

/// The message given when a project holds none of the supported files.
pub fn no_sources_msg(path: &str) -> (r: String)
    ensures
        r@ == no_sources_of(path@),
{
    let mut r = String::new();
    r.append("No supported dependency files found in ");
    r.append(path);
    r.append(
        ".\nSupported: Cargo.lock, package-lock.json, package.json, requirements.txt, go.mod/go.sum.",
    );
    r
}

/// The error given when the project path does not exist.
pub open spec fn missing_path_of(path: Seq<char>) -> Seq<char> {
    "path does not exist: "@ + path
}

/// The error given when the project path does not exist.
pub fn missing_path_msg(path: &str) -> (r: String)
    ensures
        r@ == missing_path_of(path@),
{
    let mut r = String::new();
    r.append("path does not exist: ");
    r.append(path);
    r
}

/// The severity floor a `severity_min` argument names, case-insensitively.
pub open spec fn min_of(s: Seq<char>) -> Option<Severity> {
    let l = lower_of(s);
    if l == "low"@ {
        Some(Severity::Low)
    } else if l == "medium"@ || l == "moderate"@ {
        Some(Severity::Medium)
    } else if l == "high"@ {
        Some(Severity::High)
    } else if l == "critical"@ {
        Some(Severity::Critical)
    } else {
        None
    }
}

/// The severity floor a `severity_min` argument names.
pub fn parse_min(s: &str) -> (r: Option<Severity>)
    ensures
        r == min_of(s@),
{
    let w = text::chars_of(s);
    if lower_eq(w.as_slice(), text::chars_of("low").as_slice()) {
        Some(Severity::Low)
    } else if lower_eq(w.as_slice(), text::chars_of("medium").as_slice()) || lower_eq(
        w.as_slice(),
        text::chars_of("moderate").as_slice(),
    ) {
        Some(Severity::Medium)
    } else if lower_eq(w.as_slice(), text::chars_of("high").as_slice()) {
        Some(Severity::High)
    } else if lower_eq(w.as_slice(), text::chars_of("critical").as_slice()) {
        Some(Severity::Critical)
    } else {
        None
    }
}

/// The highest severity among advisories (Unknown for none).
pub open spec fn max_sev_of(vs: Seq<VulnView>) -> Severity
    decreases vs.len(),
{
    if vs.len() == 0 {
        Severity::Unknown
    } else {
        max_severity_of(max_sev_of(vs.drop_last()), vs.last().2)
    }
}

/// The highest severity among advisories (Unknown for none).
pub fn max_sev(vulns: &Vec<Vuln>) -> (r: Severity)
    ensures
        r == max_sev_of(vuln_views(vulns@)),
        forall|i: int| 0 <= i < vulns@.len() ==> (#[trigger] vulns@[i]).severity.level_of() <= r.level_of(),
{
    let ghost vs = vuln_views(vulns@);
    let mut m = Severity::Unknown;
    let mut i: usize = 0;
    while i < vulns.len()
        invariant
            vs == vuln_views(vulns@),
            i <= vulns@.len(),
            m == max_sev_of(vs.take(i as int)),
            forall|j: int| 0 <= j < i ==> (#[trigger] vulns@[j]).severity.level_of() <= m.level_of(),
        decreases vulns.len() - i,
    {
        proof {
            assert(vs.take(i + 1).drop_last() =~= vs.take(i as int));
        }
        m = max_severity(m, vulns[i].severity);
        i += 1;
    }
    proof {
        assert(vs.take(vulns@.len() as int) =~= vs);
    }
    m
}

/// At most `n` characters of `s`, with `…` marking a cut.
pub open spec fn truncate_of(s: Seq<char>, n: nat) -> Seq<char> {
    if s.len() <= n {
        s
    } else {
        s.take(n as int) + "…"@
    }
}

/// At most `n` characters of `s`, with `…` marking a cut.
pub fn truncate(s: &str, n: usize) -> (r: String)
    ensures
        r@ == truncate_of(s@, n as nat),
{
    let c = text::chars_of(s);
    if c.len() <= n {
        s.to_owned()
    } else {
        let mut r = text::string_of(&c.as_slice()[0..n]);
        r.append("…");
        r
    }
}

// ---------------------------------------------------------------------------
// The dependency listing
// ---------------------------------------------------------------------------

/// One package line of a report.
pub open spec fn package_line_of(p: PackageView) -> Seq<char> {
    "  "@ + p.0 + " "@ + p.1 + "  ["@ + p.2.label_of() + "]\n"@
}

pub open spec fn package_lines_of(ps: Seq<PackageView>) -> Seq<char>
    decreases ps.len(),
{
    if ps.len() == 0 {
        Seq::empty()
    } else {
        package_lines_of(ps.drop_last()) + package_line_of(ps.last())
    }
}

/// The block that lists one source.
pub open spec fn source_block_of(s: SourceView) -> Seq<char> {
    "\n"@ + s.0 + " — "@ + text::decimal(s.2.len()) + " "@ + (if s.1 {
        "resolved"@
    } else {
        "direct"@
    }) + " package(s):\n"@ + package_lines_of(s.2)
}

pub open spec fn source_blocks_of(ss: Seq<SourceView>) -> Seq<char>
    decreases ss.len(),
{
    if ss.len() == 0 {
        Seq::empty()
    } else {
        source_blocks_of(ss.drop_last()) + source_block_of(ss.last())
    }
}

/// The number of package entries across sources.
pub open spec fn total_entries_of(ss: Seq<SourceView>) -> nat
    decreases ss.len(),
{
    if ss.len() == 0 {
        0
    } else {
        total_entries_of(ss.drop_last()) + ss.last().2.len()
    }
}

/// The listing of the dependencies found in `path`.
pub open spec fn listing_of(path: Seq<char>, ss: Seq<SourceView>) -> Seq<char> {
    "Dependencies in "@ + path + "\n"@ + source_blocks_of(ss) + "\nTotal: "@ + text::decimal(
        total_entries_of(ss),
    ) + " package entries across "@ + text::decimal(ss.len()) + " file(s)."@
}

/// What `list_dependencies` answers: an error when the path does not exist
/// or a file could not be read, a note when no supported file was found,
/// else the listing.
pub open spec fn list_dependencies_of(
    path: Seq<char>,
    exists: bool,
    sources: Result<Seq<SourceView>, Seq<char>>,
) -> Result<Seq<char>, Seq<char>> {
    if !exists {
        Err(missing_path_of(path))
    } else {
        match sources {
            Err(e) => Err(e),
            Ok(ss) => if ss.len() == 0 {
                Ok(no_sources_of(path))
            } else {
                Ok(listing_of(path, ss))
            },
        }
    }
}

pub open spec fn sources_result_view(r: Result<Vec<Source>, String>) -> Result<Seq<SourceView>, Seq<char>> {
    match r {
        Ok(v) => Ok(source_views(v@)),
        Err(e) => Err(e@),
    }
}

fn push_package_line(r: &mut String, p: &Package)
    ensures
        final(r)@ == old(r)@ + package_line_of(p@),
{
    r.append("  ");
    r.append(p.name.as_str());
    r.append(" ");
    r.append(p.version.as_str());
    r.append("  [");
    r.append(p.ecosystem.label());
    r.append("]\n");
    proof {
        assert(final(r)@ =~= old(r)@ + package_line_of(p@));
    }
}

/// Appends the listing of the sources; gives back the number of package entries.
fn push_source_blocks(r: &mut String, sources: &Vec<Source>) -> (total: usize)
    requires
        total_entries_of(source_views(sources@)) <= usize::MAX,
    ensures
        final(r)@ == old(r)@ + source_blocks_of(source_views(sources@)),
        total as nat == total_entries_of(source_views(sources@)),
{
    let ghost ss = source_views(sources@);
    let ghost r0 = r@;
    let mut total: usize = 0;
    let mut i: usize = 0;
    while i < sources.len()
        invariant
            ss == source_views(sources@),
            total_entries_of(ss) <= usize::MAX,
            i <= sources@.len(),
            r@ == r0 + source_blocks_of(ss.take(i as int)),
            total as nat == total_entries_of(ss.take(i as int)),
        decreases sources.len() - i,
    {
        proof {
            assert(ss.take(i + 1).drop_last() =~= ss.take(i as int));
            assert(ss.take(i + 1).last() == sources@[i as int]@);
            lemma_total_entries_mono(ss, i + 1);
        }
        let s = &sources[i];
        let ghost before = r@;
        r.append("\n");
        r.append(s.file.as_str());
        r.append(" — ");
        text::push_decimal(r, s.packages.len());
        r.append(" ");
        if s.locked {
            r.append("resolved");
        } else {
            r.append("direct");
        }
        r.append(" package(s):\n");
        let ghost head = r@;
        let mut j: usize = 0;
        while j < s.packages.len()
            invariant
                j <= s.packages@.len(),
                r@ == head + package_lines_of(pkg_views(s.packages@).take(j as int)),
            decreases s.packages.len() - j,
        {
            proof {
                assert(pkg_views(s.packages@).take(j + 1).drop_last() =~= pkg_views(s.packages@).take(
                    j as int,
                ));
            }
            push_package_line(r, &s.packages[j]);
            j += 1;
        }
        proof {
            assert(pkg_views(s.packages@).take(s.packages@.len() as int) =~= pkg_views(s.packages@));
            assert(r@ =~= before + source_block_of(s@));
        }
        total = total + s.packages.len();
        i += 1;
    }
    proof {
        assert(ss.take(sources@.len() as int) =~= ss);
    }
    total
}

proof fn lemma_total_entries_mono(ss: Seq<SourceView>, i: int)
    requires
        0 <= i <= ss.len(),
    ensures
        total_entries_of(ss.take(i)) <= total_entries_of(ss),
    decreases ss.len() - i,
{
    if i < ss.len() {
        lemma_total_entries_mono(ss, i + 1);
        assert(ss.take(i + 1).drop_last() =~= ss.take(i));
    } else {
        assert(ss.take(i) =~= ss);
    }
}

/// `scan_dependencies`: list the resolved dependency tree of the project at
/// `path`, given whether it exists and what collecting its dependency files gave.
pub fn list_dependencies(path: &str, exists: bool, sources: Result<Vec<Source>, String>) -> (r: Result<
    String,
    String,
>)
    requires
        sources matches Ok(v) ==> total_entries_of(source_views(v@)) <= usize::MAX,
    ensures
        match r {
            Ok(t) => list_dependencies_of(path@, exists, sources_result_view(sources)) == Ok::<
                Seq<char>,
                Seq<char>,
            >(t@),
            Err(e) => list_dependencies_of(path@, exists, sources_result_view(sources)) == Err::<
                Seq<char>,
                Seq<char>,
            >(e@),
        },
{
    if !exists {
        return Err(missing_path_msg(path));
    }
    let sources = match sources {
        Ok(v) => v,
        Err(e) => {
            return Err(e);
        },
    };
    if sources.len() == 0 {
        return Ok(no_sources_msg(path));
    }
    let mut out = String::new();
    out.append("Dependencies in ");
    out.append(path);
    out.append("\n");
    let total = push_source_blocks(&mut out, &sources);
    out.append("\nTotal: ");
    text::push_decimal(&mut out, total);
    out.append(" package entries across ");
    text::push_decimal(&mut out, sources.len());
    out.append(" file(s).");
    proof {
        assert(out@ =~= listing_of(path@, source_views(sources@)));
    }
    Ok(out)
}

// ---------------------------------------------------------------------------
// The packages to look up
// ---------------------------------------------------------------------------

/// The packages of all sources, in order.
pub open spec fn flat_of(ss: Seq<SourceView>) -> Seq<PackageView>
    decreases ss.len(),
{
    if ss.len() == 0 {
        Seq::empty()
    } else {
        flat_of(ss.drop_last()) + ss.last().2
    }
}

/// `a` sorts before `b` by (OSV ecosystem name, name, version).
pub open spec fn pkg_lt(a: PackageView, b: PackageView) -> bool {
    let ea = a.2.osv_name_of();
    let eb = b.2.osv_name_of();
    ||| order::str_lt(ea, eb)
    ||| (ea == eb && order::str_lt(a.0, b.0))
    ||| (ea == eb && a.0 == b.0 && order::str_lt(a.1, b.1))
}

/// Each package sorts strictly before the next.
pub open spec fn strictly_sorted(ps: Seq<PackageView>) -> bool {
    forall|i: int, j: int| 0 <= i < j < ps.len() ==> pkg_lt(#[trigger] ps[i], #[trigger] ps[j])
}

pub proof fn lemma_osv_name_injective(a: Ecosystem, b: Ecosystem)
    ensures
        a.osv_name_of() == b.osv_name_of() ==> a == b,
{
    reveal_strlit("crates.io");
    reveal_strlit("npm");
    reveal_strlit("PyPI");
    reveal_strlit("Go");
    assert("crates.io"@.len() == 9);
    assert("npm"@.len() == 3);
    assert("PyPI"@.len() == 4);
    assert("Go"@.len() == 2);
}

pub proof fn lemma_pkg_lt_transitive(a: PackageView, b: PackageView, c: PackageView)
    requires
        pkg_lt(a, b),
        pkg_lt(b, c),
    ensures
        pkg_lt(a, c),
{
    let (ea, eb, ec) = (a.2.osv_name_of(), b.2.osv_name_of(), c.2.osv_name_of());
    if order::str_lt(ea, eb) && order::str_lt(eb, ec) {
        order::lemma_str_lt_transitive(ea, eb, ec);
    }
    if ea == eb && eb == ec {
        if order::str_lt(a.0, b.0) && order::str_lt(b.0, c.0) {
            order::lemma_str_lt_transitive(a.0, b.0, c.0);
        }
        if a.0 == b.0 && b.0 == c.0 && order::str_lt(a.1, b.1) && order::str_lt(b.1, c.1) {
            order::lemma_str_lt_transitive(a.1, b.1, c.1);
        }
    }
}

pub proof fn lemma_pkg_lt_total(a: PackageView, b: PackageView)
    ensures
        a == b || pkg_lt(a, b) || pkg_lt(b, a),
{
    lemma_osv_name_injective(a.2, b.2);
    order::lemma_str_lt_total(a.2.osv_name_of(), b.2.osv_name_of());
    order::lemma_str_lt_total(a.0, b.0);
    order::lemma_str_lt_total(a.1, b.1);
}

/// Whether `a` sorts before `b` by (OSV ecosystem name, name, version).
fn pkg_lt_exec(a: &Package, b: &Package) -> (r: bool)
    ensures
        r == pkg_lt(a@, b@),
{
    let ea = text::chars_of(a.ecosystem.osv_name());
    let eb = text::chars_of(b.ecosystem.osv_name());
    match order::compare_chars(ea.as_slice(), eb.as_slice()) {
        order::Comparison::Less => true,
        order::Comparison::Greater => {
            proof {
                order::lemma_str_lt_asymmetric(ea@, eb@);
            }
            false
        },
        order::Comparison::Equal => {
            let na = text::chars_of(a.name.as_str());
            let nb = text::chars_of(b.name.as_str());
            match order::compare_chars(na.as_slice(), nb.as_slice()) {
                order::Comparison::Less => true,
                order::Comparison::Greater => {
                    proof {
                        order::lemma_str_lt_asymmetric(na@, nb@);
                        order::lemma_str_lt_irreflexive(ea@);
                    }
                    false
                },
                order::Comparison::Equal => {
                    proof {
                        order::lemma_str_lt_irreflexive(ea@);
                        order::lemma_str_lt_irreflexive(na@);
                    }
                    let va = text::chars_of(a.version.as_str());
                    let vb = text::chars_of(b.version.as_str());
                    match order::compare_chars(va.as_slice(), vb.as_slice()) {
                        order::Comparison::Less => true,
                        order::Comparison::Greater => {
                            proof {
                                order::lemma_str_lt_asymmetric(va@, vb@);
                            }
                            false
                        },
                        order::Comparison::Equal => {
                            proof {
                                order::lemma_str_lt_irreflexive(va@);
                            }
                            false
                        },
                    }
                },
            }
        },
    }
}

proof fn lemma_push_contains(t: Seq<PackageView>, p: PackageView, x: PackageView)
    ensures
        t.push(p).contains(x) <==> (t.contains(x) || x == p),
{
    if t.contains(x) {
        let w = choose|w: int| 0 <= w < t.len() && t[w] == x;
        assert(t.push(p)[w] == x);
    }
    if x == p {
        assert(t.push(p)[t.len() as int] == x);
    }
    if t.push(p).contains(x) {
        let w = choose|w: int| 0 <= w < t.len() + 1 && t.push(p)[w] == x;
        if w < t.len() {
            assert(t[w] == x);
        }
    }
}

proof fn lemma_insert_contains(t: Seq<PackageView>, k: int, p: PackageView, x: PackageView)
    requires
        0 <= k <= t.len(),
    ensures
        (t.take(k).push(p) + t.skip(k)).contains(x) <==> (t.contains(x) || x == p),
{
    let u = t.take(k).push(p) + t.skip(k);
    assert(u.len() == t.len() + 1);
    if u.contains(x) {
        let w = choose|w: int| 0 <= w < u.len() && u[w] == x;
        if w < k {
            assert(t[w] == x);
        } else if w > k {
            assert(t[w - 1] == x);
        }
    }
    if t.contains(x) {
        let w = choose|w: int| 0 <= w < t.len() && t[w] == x;
        if w < k {
            assert(u[w] == x);
        } else {
            assert(u[w + 1] == x);
        }
    }
    if x == p {
        assert(u[k] == x);
    }
}

/// The distinct packages of all sources, sorted by (ecosystem, name, version).
fn unique_packages(sources: &Vec<Source>) -> (r: Vec<Package>)
    ensures
        strictly_sorted(pkg_views(r@)),
        forall|x: PackageView| pkg_views(r@).contains(x) <==> flat_of(source_views(sources@)).contains(x),
{
    let ghost ss = source_views(sources@);
    let mut out: Vec<Package> = Vec::new();
    let mut i: usize = 0;
    proof {
        assert(ss.take(0) =~= Seq::<SourceView>::empty());
        assert(flat_of(ss.take(0)) =~= Seq::<PackageView>::empty());
        assert(pkg_views(out@) =~= Seq::<PackageView>::empty());
    }
    while i < sources.len()
        invariant
            ss == source_views(sources@),
            i <= sources@.len(),
            strictly_sorted(pkg_views(out@)),
            forall|x: PackageView| pkg_views(out@).contains(x) <==> flat_of(ss.take(i as int)).contains(x),
        decreases sources.len() - i,
    {
        let s = &sources[i];
        let ghost done = flat_of(ss.take(i as int));
        proof {
            assert(ss.take(i + 1).drop_last() =~= ss.take(i as int));
            assert(ss.take(i + 1).last() == s@);
        }
        let mut j: usize = 0;
        while j < s.packages.len()
            invariant
                j <= s.packages@.len(),
                strictly_sorted(pkg_views(out@)),
                forall|x: PackageView|
                    pkg_views(out@).contains(x) <==> (done + pkg_views(s.packages@).take(j as int)).contains(x),
            decreases s.packages.len() - j,
        {
            let p = &s.packages[j];
            let ghost before = pkg_views(out@);
            let mut k: usize = 0;
            while k < out.len() && pkg_lt_exec(&out[k], p)
                invariant
                    k <= out@.len(),
                    forall|q: int| 0 <= q < k ==> pkg_lt(#[trigger] out@[q]@, p@),
                decreases out.len() - k,
            {
                k += 1;
            }
            let dup = k < out.len() && out[k].ecosystem == p.ecosystem && out[k].name == p.name
                && out[k].version == p.version;
            proof {
                assert(pkg_views(s.packages@).take(j + 1) =~= pkg_views(s.packages@).take(j as int).push(p@));
                assert(done + pkg_views(s.packages@).take(j + 1) =~= (done + pkg_views(s.packages@).take(j as int)).push(p@));
            }
            if !dup {
                proof {
                    if k < out@.len() {
                        assert(!pkg_lt(out@[k as int]@, p@));
                        assert(out@[k as int]@ != p@);
                        lemma_pkg_lt_total(out@[k as int]@, p@);
                    }
                }
                out.insert(k, p.duplicate());
                proof {
                    let after = pkg_views(out@);
                    assert(after =~= before.take(k as int).push(p@) + before.skip(k as int));
                    assert forall|a: int, b: int| 0 <= a < b < after.len() implies pkg_lt(#[trigger] after[a], #[trigger] after[b]) by {
                        if b < k {
                            assert(after[a] == before[a] && after[b] == before[b]);
                        } else if b == k {
                            assert(after[a] == before[a]);
                            assert(pkg_lt(out@[a]@, p@));
                        } else if a == k {
                            assert(after[b] == before[b - 1]);
                            if b - 1 > k {
                                lemma_pkg_lt_transitive(p@, before[k as int], before[b - 1]);
                            }
                        } else if a < k {
                            assert(after[a] == before[a] && after[b] == before[b - 1]);
                        } else {
                            assert(after[a] == before[a - 1] && after[b] == before[b - 1]);
                        }
                    }
                    assert forall|x: PackageView| after.contains(x) <==> (done + pkg_views(s.packages@).take(j + 1)).contains(x) by {
                        lemma_insert_contains(before, k as int, p@, x);
                        lemma_push_contains(done + pkg_views(s.packages@).take(j as int), p@, x);
                    }
                }
            } else {
                proof {
                    assert(out@[k as int]@ == p@);
                    assert(pkg_views(out@)[k as int] == p@);
                    assert forall|x: PackageView| pkg_views(out@).contains(x) <==> (done + pkg_views(s.packages@).take(j + 1)).contains(x) by {
                        lemma_push_contains(done + pkg_views(s.packages@).take(j as int), p@, x);
                    }
                }
            }
            j += 1;
        }
        proof {
            assert(pkg_views(s.packages@).take(s.packages@.len() as int) =~= s@.2);
        }
        i += 1;
    }
    proof {
        assert(ss.take(sources@.len() as int) =~= ss);
    }
    out
}

/// What a scan found in a project before asking OSV: the files read, the
/// number of package entries in them, and the distinct packages to look up.
pub struct Scanned {
    pub files: Vec<String>,
    pub total_entries: usize,
    pub packages: Vec<Package>,
}

/// `sc` is what the sources `ss` give.
pub open spec fn scanned_from(sc: Scanned, ss: Seq<SourceView>) -> bool {
    &&& crate::osv::strings_view(sc.files@) == ss.map_values(|s: SourceView| s.0)
    &&& sc.total_entries as nat == total_entries_of(ss)
    &&& strictly_sorted(pkg_views(sc.packages@))
    &&& forall|x: PackageView| pkg_views(sc.packages@).contains(x) <==> flat_of(ss).contains(x)
}

/// How a scan goes on once the project's files were read.
pub enum ScanStart {
    /// The report is already known (no supported file was found).
    Report(String),
    /// These packages are to be looked up.
    Lookup(Scanned),
}

/// The start of `check_vulnerabilities`: an error when the path does not
/// exist or a file could not be read, the final report when no supported
/// file was found, else the packages to look up.
pub fn start_check(path: &str, exists: bool, sources: Result<Vec<Source>, String>) -> (r: Result<
    ScanStart,
    String,
>)
    requires
        sources matches Ok(v) ==> total_entries_of(source_views(v@)) <= usize::MAX,
    ensures
        !exists ==> (r matches Err(e) && e@ == missing_path_of(path@)),
        exists && sources is Err ==> (r matches Err(e) && e@ == sources->Err_0@),
        exists && sources is Ok && sources->Ok_0@.len() == 0 ==> (r matches Ok(ScanStart::Report(t))
            && t@ == no_sources_of(path@)),
        exists && sources is Ok && sources->Ok_0@.len() > 0 ==> (r matches Ok(ScanStart::Lookup(sc))
            && scanned_from(sc, source_views(sources->Ok_0@))),
{
    if !exists {
        return Err(missing_path_msg(path));
    }
    let sources = match sources {
        Ok(v) => v,
        Err(e) => {
            return Err(e);
        },
    };
    if sources.len() == 0 {
        return Ok(ScanStart::Report(no_sources_msg(path)));
    }
    let ghost ss = source_views(sources@);
    let mut files: Vec<String> = Vec::new();
    let mut total: usize = 0;
    let mut i: usize = 0;
    while i < sources.len()
        invariant
            ss == source_views(sources@),
            total_entries_of(ss) <= usize::MAX,
            i <= sources@.len(),
            files@.len() == i,
            forall|j: int| 0 <= j < i ==> (#[trigger] files@[j])@ == ss[j].0,
            total as nat == total_entries_of(ss.take(i as int)),
        decreases sources.len() - i,
    {
        proof {
            assert(ss.take(i + 1).drop_last() =~= ss.take(i as int));
            lemma_total_entries_mono(ss, i + 1);
        }
        files.push(sources[i].file.clone());
        total = total + sources[i].packages.len();
        i += 1;
    }
    proof {
        assert(ss.take(sources@.len() as int) =~= ss);
        assert(crate::osv::strings_view(files@) =~= ss.map_values(|s: SourceView| s.0));
    }
    let packages = unique_packages(&sources);
    Ok(ScanStart::Lookup(Scanned { files, total_entries: total, packages }))
}

// ---------------------------------------------------------------------------
// The vulnerability report
// ---------------------------------------------------------------------------

/// An advisory is shown under the floor `min`: always when ungraded (never
/// hide a finding just because it could not be graded), else when at or above it.
pub open spec fn kept(min: Option<Severity>, v: VulnView) -> bool {
    match min {
        Some(m) => v.2 == Severity::Unknown || v.2.level_of() >= m.level_of(),
        None => true,
    }
}

/// The advisories of `vs` shown under the floor `min`, in order.
pub open spec fn kept_of(min: Option<Severity>, vs: Seq<VulnView>) -> Seq<VulnView>
    decreases vs.len(),
{
    if vs.len() == 0 {
        Seq::empty()
    } else {
        let prev = kept_of(min, vs.drop_last());
        if kept(min, vs.last()) {
            prev.push(vs.last())
        } else {
            prev
        }
    }
}

/// Within a package: more severe advisories first, then by id.
pub open spec fn vuln_before(a: VulnView, b: VulnView) -> bool {
    ||| a.2.level_of() > b.2.level_of()
    ||| (a.2.level_of() == b.2.level_of() && order::str_lt(a.0, b.0))
}

pub open spec fn vuln_order() -> spec_fn(VulnView, VulnView) -> bool {
    |a: VulnView, b: VulnView| vuln_before(a, b)
}

/// A package with the advisories shown for it.
pub type Entry = (PackageView, Seq<VulnView>);

/// Packages in the report: the one with the most severe advisory first.
pub open spec fn entry_before(a: Entry, b: Entry) -> bool {
    max_sev_of(a.1).level_of() > max_sev_of(b.1).level_of()
}

pub open spec fn entry_order() -> spec_fn(Entry, Entry) -> bool {
    |a: Entry, b: Entry| entry_before(a, b)
}

/// The packages that keep advisories under the floor, each with them sorted,
/// in the order of the findings.
pub open spec fn entries_of(min: Option<Severity>, fs: Seq<FindingView>) -> Seq<Entry>
    decreases fs.len(),
{
    if fs.len() == 0 {
        Seq::empty()
    } else {
        let prev = entries_of(min, fs.drop_last());
        let vs = order::sort_by(kept_of(min, fs.last().1), vuln_order());
        if vs.len() > 0 {
            prev.push((fs.last().0, vs))
        } else {
            prev
        }
    }
}

/// The entries of the report, most severe package first.
pub open spec fn shown_of(min: Option<Severity>, fs: Seq<FindingView>) -> Seq<Entry> {
    order::sort_by(entries_of(min, fs), entry_order())
}

/// The number of advisories in entries.
pub open spec fn advisory_count(es: Seq<Entry>) -> nat
    decreases es.len(),
{
    if es.len() == 0 {
        0
    } else {
        advisory_count(es.drop_last()) + es.last().1.len()
    }
}

/// The number of advisories in findings.
pub open spec fn total_advisories_of(fs: Seq<FindingView>) -> nat
    decreases fs.len(),
{
    if fs.len() == 0 {
        0
    } else {
        total_advisories_of(fs.drop_last()) + fs.last().1.len()
    }
}

/// `strs` joined by `sep`.
pub open spec fn join_of(strs: Seq<Seq<char>>, sep: Seq<char>) -> Seq<char>
    decreases strs.len(),
{
    if strs.len() == 0 {
        Seq::empty()
    } else if strs.len() == 1 {
        strs[0]
    } else {
        join_of(strs.drop_last(), sep) + sep + strs.last()
    }
}

pub open spec fn report_header_of(path: Seq<char>, sc: Scanned) -> Seq<char> {
    "context-snipe — vulnerability scan\nProject: "@ + path + "\nScanned: "@ + text::decimal(
        sc.total_entries as nat,
    ) + " entries ("@ + text::decimal(sc.packages@.len()) + " unique packages) from "@ + join_of(
        crate::osv::strings_view(sc.files@),
        ", "@,
    ) + "\n"@
}

/// One advisory line of the report.
pub open spec fn vuln_line_of(v: VulnView) -> Seq<char> {
    let cve = match first_cve(v.3) {
        Some(c) => " ("@ + c + ")"@,
        None => Seq::empty(),
    };
    let summary = if v.1.len() == 0 {
        Seq::empty()
    } else {
        "  "@ + truncate_of(v.1, 100)
    };
    "    ["@ + v.2.label_of() + "] "@ + v.0 + cve + summary + "\n"@
}

pub open spec fn vuln_lines_of(vs: Seq<VulnView>) -> Seq<char>
    decreases vs.len(),
{
    if vs.len() == 0 {
        Seq::empty()
    } else {
        vuln_lines_of(vs.drop_last()) + vuln_line_of(vs.last())
    }
}

/// The block of one package in the report.
pub open spec fn entry_block_of(e: Entry) -> Seq<char> {
    "\n  "@ + e.0.0 + " "@ + e.0.1 + "  ["@ + e.0.2.label_of() + "]\n"@ + vuln_lines_of(e.1)
}

pub open spec fn entry_blocks_of(es: Seq<Entry>) -> Seq<char>
    decreases es.len(),
{
    if es.len() == 0 {
        Seq::empty()
    } else {
        entry_blocks_of(es.drop_last()) + entry_block_of(es.last())
    }
}

pub open spec fn closing_note() -> Seq<char> {
    "\nSource: OSV.dev. These advisories affect packages actually present in your dependency tree.\nNote: presence is not the same as exploitability — confirm the vulnerable code path is reachable in how you use the package."@
}

/// The report for the packages of `sc` given the findings `fs`.
pub open spec fn report_of(
    path: Seq<char>,
    severity_min: Option<Seq<char>>,
    sc: Scanned,
    fs: Seq<FindingView>,
) -> Seq<char> {
    let min = match severity_min {
        Some(s) => min_of(s),
        None => None,
    };
    let shown = shown_of(min, fs);
    let total = advisory_count(shown);
    if shown.len() == 0 {
        let floor = match severity_min {
            Some(s) => " at/above "@ + s + " severity"@,
            None => Seq::empty(),
        };
        report_header_of(path, sc) + "\nOK  No known vulnerabilities"@ + floor + ".\n"@
            + "\nSource: OSV.dev — advisories for packages present in your dependency tree."@
    } else {
        report_header_of(path, sc) + "\nFOUND  "@ + text::decimal(total) + " advisor"@ + (if total
            == 1 {
            "y"@
        } else {
            "ies"@
        }) + " affecting "@ + text::decimal(shown.len()) + " of "@ + text::decimal(
            sc.packages@.len(),
        ) + " package(s):\n"@ + entry_blocks_of(shown) + closing_note()
    }
}

pub proof fn lemma_vuln_order_strict()
    ensures
        order::transitive(vuln_order()),
        order::irreflexive(vuln_order()),
{
    assert forall|a: VulnView, b: VulnView, c: VulnView|
        #[trigger] vuln_order()(a, b) && #[trigger] vuln_order()(b, c) implies vuln_order()(a, c) by {
        if a.2.level_of() == b.2.level_of() && b.2.level_of() == c.2.level_of() {
            order::lemma_str_lt_transitive(a.0, b.0, c.0);
        }
    }
    assert forall|a: VulnView| !#[trigger] vuln_order()(a, a) by {
        order::lemma_str_lt_irreflexive(a.0);
    }
}

pub proof fn lemma_entry_order_strict()
    ensures
        order::transitive(entry_order()),
        order::irreflexive(entry_order()),
{
}

fn vuln_before_exec(a: &Vuln, b: &Vuln) -> (r: bool)
    ensures
        r == vuln_before(a@, b@),
{
    let la = a.severity.level();
    let lb = b.severity.level();
    if la != lb {
        la > lb
    } else {
        let ia = text::chars_of(a.id.as_str());
        let ib = text::chars_of(b.id.as_str());
        let c = order::compare_chars(ia.as_slice(), ib.as_slice());
        proof {
            order::lemma_str_lt_irreflexive(ia@);
            order::lemma_str_lt_asymmetric(ia@, ib@);
        }
        c == order::Comparison::Less
    }
}

/// The advisories of `vulns` kept under the floor, sorted for the report.
fn shown_vulns(min: Option<Severity>, vulns: &Vec<Vuln>) -> (r: Vec<Vuln>)
    ensures
        vuln_views(r@) == order::sort_by(kept_of(min, vuln_views(vulns@)), vuln_order()),
{
    let ghost vs = vuln_views(vulns@);
    let mut kept_v: Vec<Vuln> = Vec::new();
    let mut sorted: Vec<Vuln> = Vec::new();
    let mut i: usize = 0;
    proof {
        assert(vs.take(0) =~= Seq::<VulnView>::empty());
        assert(vuln_views(sorted@) =~= Seq::<VulnView>::empty());
    }
    while i < vulns.len()
        invariant
            vs == vuln_views(vulns@),
            i <= vulns@.len(),
            vuln_views(sorted@) == order::sort_by(kept_of(min, vs.take(i as int)), vuln_order()),
        decreases vulns.len() - i,
    {
        proof {
            assert(vs.take(i + 1).drop_last() =~= vs.take(i as int));
            assert(vs.take(i + 1).last() == vulns@[i as int]@);
        }
        let v = &vulns[i];
        let keep = match min {
            Some(m) => v.severity == Severity::Unknown || v.severity.level() >= m.level(),
            None => true,
        };
        if keep {
            let x = v.duplicate();
            let ghost before = vuln_views(sorted@);
            let mut k: usize = 0;
            while k < sorted.len() && !vuln_before_exec(&x, &sorted[k])
                invariant
                    k <= sorted@.len(),
                    forall|q: int| 0 <= q < k ==> !vuln_order()(x@, #[trigger] vuln_views(sorted@)[q]),
                decreases sorted.len() - k,
            {
                k += 1;
            }
            proof {
                assert(order::is_insert_point(before, x@, vuln_order(), k as int));
                order::lemma_insert_by_at(before, x@, vuln_order(), k as int);
                let kp = kept_of(min, vs.take(i as int));
                assert(kept_of(min, vs.take(i + 1)) == kp.push(x@));
                assert(kp.push(x@).drop_last() =~= kp);
            }
            sorted.insert(k, x);
            proof {
                assert(vuln_views(sorted@) =~= before.take(k as int) + seq![x@] + before.skip(k as int));
            }
        }
        i += 1;
    }
    proof {
        assert(vs.take(vulns@.len() as int) =~= vs);
    }
    sorted
}

/// The entries of the report in the order of the findings.
fn report_entries(min: Option<Severity>, findings: &Vec<Finding>) -> (r: Vec<(Package, Vec<Vuln>)>)
    ensures
        entry_views(r@) == entries_of(min, finding_views(findings@)),
{
    let ghost fs = finding_views(findings@);
    let mut out: Vec<(Package, Vec<Vuln>)> = Vec::new();
    let mut i: usize = 0;
    proof {
        assert(fs.take(0) =~= Seq::<FindingView>::empty());
        assert(entry_views(out@) =~= Seq::<Entry>::empty());
    }
    while i < findings.len()
        invariant
            fs == finding_views(findings@),
            i <= findings@.len(),
            entry_views(out@) == entries_of(min, fs.take(i as int)),
        decreases findings.len() - i,
    {
        proof {
            assert(fs.take(i + 1).drop_last() =~= fs.take(i as int));
            assert(fs.take(i + 1).last() == findings@[i as int]@);
        }
        let f = &findings[i];
        let vs = shown_vulns(min, &f.vulns);
        if vs.len() > 0 {
            let e = (f.package.duplicate(), vs);
            proof {
                assert(entry_views(out@.push(e)) =~= entry_views(out@).push((e.0@, vuln_views(e.1@))));
            }
            out.push(e);
        }
        i += 1;
    }
    proof {
        assert(fs.take(findings@.len() as int) =~= fs);
    }
    out
}

pub open spec fn entry_views(es: Seq<(Package, Vec<Vuln>)>) -> Seq<Entry> {
    es.map_values(|e: (Package, Vec<Vuln>)| (e.0@, vuln_views(e.1@)))
}

/// The entries sorted for the report, most severe package first.
fn sort_entries(entries: Vec<(Package, Vec<Vuln>)>) -> (r: Vec<(Package, Vec<Vuln>)>)
    ensures
        entry_views(r@) == order::sort_by(entry_views(entries@), entry_order()),
{
    let ghost es = entry_views(entries@);
    let mut sorted: Vec<(Package, Vec<Vuln>)> = Vec::new();
    let mut keys: Vec<u8> = Vec::new();
    let mut rest = entries;
    let n = rest.len();
    let mut i: usize = 0;
    proof {
        assert(es.take(0) =~= Seq::<Entry>::empty());
        assert(entry_views(sorted@) =~= Seq::<Entry>::empty());
    }
    while i < n
        invariant
            n == es.len(),
            i <= n,
            rest@.len() == n - i,
            forall|q: int| 0 <= q < rest@.len() ==> entry_views(rest@)[q] == es[q + i],
            entry_views(sorted@) == order::sort_by(es.take(i as int), entry_order()),
            keys@.len() == sorted@.len(),
            forall|q: int| 0 <= q < keys@.len() ==> keys@[q] as nat == max_sev_of(
                #[trigger] entry_views(sorted@)[q].1,
            ).level_of(),
        decreases n - i,
    {
        proof {
            assert(es.take(i + 1).drop_last() =~= es.take(i as int));
            assert(entry_views(rest@)[0] == es[i as int]);
        }
        let ghost rest0 = rest@;
        let x = rest.remove(0);
        proof {
            assert(rest0[0] == x);
            assert forall|q: int| 0 <= q < rest@.len() implies entry_views(rest@)[q] == es[q + i + 1] by {
                assert(rest@[q] == rest0[q + 1]);
                assert(entry_views(rest0)[q + 1] == es[q + 1 + i]);
            }
        }
        let kx = max_sev(&x.1).level();
        let ghost before = entry_views(sorted@);
        let ghost xv = (x.0@, vuln_views(x.1@));
        let mut k: usize = 0;
        while k < sorted.len() && !(kx > keys[k])
            invariant
                k <= sorted@.len(),
                keys@.len() == sorted@.len(),
                kx as nat == max_sev_of(xv.1).level_of(),
                before == entry_views(sorted@),
                forall|q: int| 0 <= q < keys@.len() ==> keys@[q] as nat == max_sev_of(
                    #[trigger] entry_views(sorted@)[q].1,
                ).level_of(),
                forall|q: int| 0 <= q < k ==> !entry_order()(xv, #[trigger] before[q]),
            decreases sorted.len() - k,
        {
            proof {
                assert(keys@[k as int] as nat == max_sev_of(entry_views(sorted@)[k as int].1).level_of());
            }
            k += 1;
        }
        proof {
            if k < sorted@.len() {
                assert(keys@[k as int] as nat == max_sev_of(entry_views(sorted@)[k as int].1).level_of());
            }
            assert(order::is_insert_point(before, xv, entry_order(), k as int));
            order::lemma_insert_by_at(before, xv, entry_order(), k as int);
            assert(es.take(i + 1).last() == xv);
        }
        let ghost keys0 = keys@;
        sorted.insert(k, x);
        keys.insert(k, kx);
        proof {
            assert(entry_views(sorted@) =~= before.take(k as int) + seq![xv] + before.skip(k as int));
            assert forall|q: int| 0 <= q < keys@.len() implies keys@[q] as nat == max_sev_of(
                #[trigger] entry_views(sorted@)[q].1,
            ).level_of() by {
                if q < k {
                    assert(keys@[q] == keys0[q]);
                    assert(entry_views(sorted@)[q] == before[q]);
                } else if q > k {
                    assert(keys@[q] == keys0[q - 1]);
                    assert(entry_views(sorted@)[q] == before[q - 1]);
                }
            }
        }
        i += 1;
    }
    proof {
        assert(es.take(n as int) =~= es);
    }
    sorted
}

proof fn lemma_count_concat(a: Seq<Entry>, b: Seq<Entry>)
    ensures
        advisory_count(a + b) == advisory_count(a) + advisory_count(b),
    decreases b.len(),
{
    if b.len() > 0 {
        lemma_count_concat(a, b.drop_last());
        assert((a + b).drop_last() =~= a + b.drop_last());
    } else {
        assert(a + b =~= a);
    }
}

proof fn lemma_count_sort(es: Seq<Entry>)
    ensures
        advisory_count(order::sort_by(es, entry_order())) == advisory_count(es),
        order::sort_by(es, entry_order()).len() == es.len(),
    decreases es.len(),
{
    if es.len() > 0 {
        let t = order::sort_by(es.drop_last(), entry_order());
        let x = es.last();
        lemma_count_sort(es.drop_last());
        let k = order::lemma_insert_point_exists(t, x, entry_order());
        order::lemma_insert_by_at(t, x, entry_order(), k);
        lemma_count_concat(t.take(k) + seq![x], t.skip(k));
        lemma_count_concat(t.take(k), seq![x]);
        lemma_count_concat(t.take(k), t.skip(k));
        assert(t.take(k) + t.skip(k) =~= t);
        assert(seq![x].drop_last() =~= Seq::<Entry>::empty());
        assert(seq![x].last() == x);
        assert(advisory_count(Seq::<Entry>::empty()) == 0);
        assert(advisory_count(seq![x]) == advisory_count(seq![x].drop_last()) + seq![x].last().1.len());
        assert(advisory_count(seq![x]) == x.1.len());
        assert(order::sort_by(es, entry_order()) == order::insert_by(t, x, entry_order()));
        assert(advisory_count(es) == advisory_count(es.drop_last()) + x.1.len());
    }
}

proof fn lemma_kept_len(min: Option<Severity>, vs: Seq<VulnView>)
    ensures
        kept_of(min, vs).len() <= vs.len(),
    decreases vs.len(),
{
    if vs.len() > 0 {
        lemma_kept_len(min, vs.drop_last());
    }
}

proof fn lemma_sort_len<T>(s: Seq<T>, before: spec_fn(T, T) -> bool)
    ensures
        order::sort_by(s, before).len() == s.len(),
    decreases s.len(),
{
    if s.len() > 0 {
        lemma_sort_len(s.drop_last(), before);
        let t = order::sort_by(s.drop_last(), before);
        let k = order::lemma_insert_point_exists(t, s.last(), before);
        order::lemma_insert_by_at(t, s.last(), before, k);
    }
}

proof fn lemma_entries_count(min: Option<Severity>, fs: Seq<FindingView>)
    ensures
        advisory_count(entries_of(min, fs)) <= total_advisories_of(fs),
    decreases fs.len(),
{
    if fs.len() > 0 {
        lemma_entries_count(min, fs.drop_last());
        lemma_kept_len(min, fs.last().1);
        lemma_sort_len(kept_of(min, fs.last().1), vuln_order());
        let prev = entries_of(min, fs.drop_last());
        let vs = order::sort_by(kept_of(min, fs.last().1), vuln_order());
        let e = (fs.last().0, vs);
        assert(prev.push(e).drop_last() =~= prev);
        assert(advisory_count(prev.push(e)) == advisory_count(prev) + vs.len());
    }
}

/// Appends `strs` joined by `sep`.
fn push_joined(r: &mut String, strs: &Vec<String>, sep: &str)
    ensures
        final(r)@ == old(r)@ + join_of(crate::osv::strings_view(strs@), sep@),
{
    let ghost sv = crate::osv::strings_view(strs@);
    let ghost r0 = r@;
    let mut i: usize = 0;
    proof {
        assert(sv.take(0) =~= Seq::<Seq<char>>::empty());
        assert(r@ =~= r0 + join_of(sv.take(0), sep@));
    }
    while i < strs.len()
        invariant
            sv == crate::osv::strings_view(strs@),
            i <= strs@.len(),
            r@ == r0 + join_of(sv.take(i as int), sep@),
        decreases strs.len() - i,
    {
        proof {
            assert(sv.take(i + 1).drop_last() =~= sv.take(i as int));
            assert(sv.take(i + 1).last() == strs@[i as int]@);
        }
        if i > 0 {
            r.append(sep);
        }
        r.append(strs[i].as_str());
        proof {
            if i == 0 {
                assert(sv.take(1).len() == 1);
                assert(join_of(sv.take(0), sep@) =~= Seq::<char>::empty());
                assert(r@ =~= r0 + join_of(sv.take(1), sep@));
            } else {
                assert(r@ =~= r0 + join_of(sv.take(i + 1), sep@));
            }
        }
        i += 1;
    }
    proof {
        assert(sv.take(strs@.len() as int) =~= sv);
    }
}

fn push_vuln_line(r: &mut String, v: &Vuln)
    ensures
        final(r)@ == old(r)@ + vuln_line_of(v@),
{
    r.append("    [");
    r.append(v.severity.label());
    r.append("] ");
    r.append(v.id.as_str());
    match find_cve(&v.aliases) {
        Some(c) => {
            r.append(" (");
            r.append(c.as_str());
            r.append(")");
        },
        None => {},
    }
    if !v.summary.as_str().is_empty() {
        r.append("  ");
        let t = truncate(v.summary.as_str(), 100);
        r.append(t.as_str());
    }
    r.append("\n");
    proof {
        assert(final(r)@ =~= old(r)@ + vuln_line_of(v@));
    }
}

fn push_entry_block(r: &mut String, e: &(Package, Vec<Vuln>))
    ensures
        final(r)@ == old(r)@ + entry_block_of((e.0@, vuln_views(e.1@))),
{
    let ghost r0 = r@;
    r.append("\n  ");
    r.append(e.0.name.as_str());
    r.append(" ");
    r.append(e.0.version.as_str());
    r.append("  [");
    r.append(e.0.ecosystem.label());
    r.append("]\n");
    let ghost head = r@;
    let ghost vs = vuln_views(e.1@);
    let mut j: usize = 0;
    while j < e.1.len()
        invariant
            vs == vuln_views(e.1@),
            j <= e.1@.len(),
            r@ == head + vuln_lines_of(vs.take(j as int)),
        decreases e.1.len() - j,
    {
        proof {
            assert(vs.take(j + 1).drop_last() =~= vs.take(j as int));
        }
        push_vuln_line(r, &e.1[j]);
        j += 1;
    }
    proof {
        assert(vs.take(e.1@.len() as int) =~= vs);
        assert(r@ =~= r0 + entry_block_of((e.0@, vs)));
    }
}

pub open spec fn findings_result_view(r: Result<Vec<Finding>, String>) -> Result<Seq<FindingView>, Seq<char>> {
    match r {
        Ok(v) => Ok(finding_views(v@)),
        Err(e) => Err(e@),
    }
}

pub open spec fn opt_str_view(o: Option<&str>) -> Option<Seq<char>> {
    match o {
        Some(s) => Some(s@),
        None => None,
    }
}

proof fn lemma_kept_members(min: Option<Severity>, vs: Seq<VulnView>)
    ensures
        forall|v: VulnView| kept_of(min, vs).contains(v) <==> (vs.contains(v) && kept(min, v)),
    decreases vs.len(),
{
    if vs.len() > 0 {
        let init = vs.drop_last();
        lemma_kept_members(min, init);
        let prev = kept_of(min, init);
        assert forall|v: VulnView| kept_of(min, vs).contains(v) <==> (vs.contains(v) && kept(min, v)) by {
            if vs.contains(v) {
                let w = choose|w: int| 0 <= w < vs.len() && vs[w] == v;
                if w < vs.len() - 1 {
                    assert(init[w] == v);
                    assert(init.contains(v));
                }
            }
            if init.contains(v) {
                let w = choose|w: int| 0 <= w < init.len() && init[w] == v;
                assert(vs[w] == v);
            }
            if kept(min, vs.last()) {
                let q = prev.push(vs.last());
                if q.contains(v) {
                    let w = choose|w: int| 0 <= w < q.len() && q[w] == v;
                    if w < prev.len() {
                        assert(prev[w] == v);
                    }
                }
                if prev.contains(v) {
                    let w = choose|w: int| 0 <= w < prev.len() && prev[w] == v;
                    assert(q[w] == v);
                }
                assert(q[prev.len() as int] == vs.last());
                assert(vs[vs.len() - 1] == vs.last());
            }
        }
    }
}

proof fn lemma_sort_members<T>(s: Seq<T>, before: spec_fn(T, T) -> bool)
    requires
        order::transitive(before),
        order::irreflexive(before),
    ensures
        forall|x: T| order::sort_by(s, before).contains(x) <==> s.contains(x),
{
    broadcast use vstd::seq_lib::group_to_multiset_ensures;

    order::lemma_sort_by_sorted(s, before);
    assert forall|x: T| order::sort_by(s, before).contains(x) <==> s.contains(x) by {
        vstd::seq_lib::to_multiset_contains(s, x);
        vstd::seq_lib::to_multiset_contains(order::sort_by(s, before), x);
    }
}

/// The report shows only advisories that pass the severity floor (an
/// ungraded advisory always passes), and no package without one.
pub proof fn law_report_respects_floor(min: Option<Severity>, fs: Seq<FindingView>)
    ensures
        forall|i: int| 0 <= i < shown_of(min, fs).len() ==> (#[trigger] shown_of(min, fs)[i]).1.len() > 0,
        forall|i: int, v: VulnView|
            0 <= i < shown_of(min, fs).len() && #[trigger] shown_of(min, fs)[i].1.contains(v) ==> kept(
                min,
                v,
            ),
{
    lemma_entries_props(min, fs);
    lemma_entry_order_strict();
    lemma_sort_members(entries_of(min, fs), entry_order());
    let sh = shown_of(min, fs);
    assert forall|i: int| 0 <= i < sh.len() implies (#[trigger] sh[i]).1.len() > 0 by {
        assert(sh.contains(sh[i]));
        assert(order::sort_by(entries_of(min, fs), entry_order()).contains(sh[i]));
        assert(entries_of(min, fs).contains(sh[i]));
    }
    assert forall|i: int, v: VulnView| 0 <= i < sh.len() && #[trigger] sh[i].1.contains(v) implies kept(
        min,
        v,
    ) by {
        assert(sh.contains(sh[i]));
        assert(order::sort_by(entries_of(min, fs), entry_order()).contains(sh[i]));
        assert(entries_of(min, fs).contains(sh[i]));
    }
}

proof fn lemma_entries_props(min: Option<Severity>, fs: Seq<FindingView>)
    ensures
        forall|e: Entry| #[trigger] entries_of(min, fs).contains(e) ==> e.1.len() > 0 && forall|v: VulnView|
            e.1.contains(v) ==> kept(min, v),
    decreases fs.len(),
{
    if fs.len() > 0 {
        lemma_entries_props(min, fs.drop_last());
        let prev = entries_of(min, fs.drop_last());
        let kv = kept_of(min, fs.last().1);
        let vs = order::sort_by(kv, vuln_order());
        lemma_vuln_order_strict();
        lemma_sort_members(kv, vuln_order());
        lemma_kept_members(min, fs.last().1);
        assert forall|e: Entry| #[trigger] entries_of(min, fs).contains(e) implies e.1.len() > 0 && forall|
            v: VulnView,
        | e.1.contains(v) ==> kept(min, v) by {
            if vs.len() > 0 {
                let q = prev.push((fs.last().0, vs));
                let w = choose|w: int| 0 <= w < q.len() && q[w] == e;
                if w < prev.len() {
                    assert(prev[w] == e);
                    assert(prev.contains(e));
                }
            }
        }
    }
}

/// Nothing that passes the floor is hidden: every advisory of a finding
/// that passes it (every ungraded one among them) is shown under its package.
pub proof fn law_report_shows_all_kept(min: Option<Severity>, fs: Seq<FindingView>, i: int, v: VulnView)
    requires
        0 <= i < fs.len(),
        fs[i].1.contains(v),
        kept(min, v),
    ensures
        exists|k: int|
            0 <= k < shown_of(min, fs).len() && (#[trigger] shown_of(min, fs)[k]).0 == fs[i].0
                && shown_of(min, fs)[k].1.contains(v),
{
    lemma_entries_contain(min, fs, i, v);
    lemma_entry_order_strict();
    lemma_sort_members(entries_of(min, fs), entry_order());
    let e = choose|e: Entry| #[trigger] entries_of(min, fs).contains(e) && e.0 == fs[i].0 && e.1.contains(v);
    assert(shown_of(min, fs).contains(e));
    let k = choose|k: int| 0 <= k < shown_of(min, fs).len() && shown_of(min, fs)[k] == e;
    assert(shown_of(min, fs)[k].0 == fs[i].0);
}

proof fn lemma_entries_contain(min: Option<Severity>, fs: Seq<FindingView>, i: int, v: VulnView)
    requires
        0 <= i < fs.len(),
        fs[i].1.contains(v),
        kept(min, v),
    ensures
        exists|e: Entry| #[trigger] entries_of(min, fs).contains(e) && e.0 == fs[i].0 && e.1.contains(v),
    decreases fs.len(),
{
    let prev = entries_of(min, fs.drop_last());
    if i < fs.len() - 1 {
        assert(fs.drop_last()[i] == fs[i]);
        lemma_entries_contain(min, fs.drop_last(), i, v);
        let e = choose|e: Entry| #[trigger] prev.contains(e) && e.0 == fs[i].0 && e.1.contains(v);
        let w = choose|w: int| 0 <= w < prev.len() && prev[w] == e;
        let kv = kept_of(min, fs.last().1);
        let vs = order::sort_by(kv, vuln_order());
        if vs.len() > 0 {
            assert(prev.push((fs.last().0, vs))[w] == e);
            assert(entries_of(min, fs).contains(e));
        } else {
            assert(entries_of(min, fs).contains(e));
        }
    } else {
        let kv = kept_of(min, fs.last().1);
        let vs = order::sort_by(kv, vuln_order());
        lemma_kept_members(min, fs.last().1);
        lemma_vuln_order_strict();
        lemma_sort_members(kv, vuln_order());
        assert(kv.contains(v));
        assert(vs.contains(v));
        assert(vs.len() > 0);
        let e = (fs.last().0, vs);
        assert(prev.push(e)[prev.len() as int] == e);
        assert(entries_of(min, fs).contains(e));
    }
}

/// The severity floor keeps exactly the advisories at or above it, and the
/// ungraded ones: with no floor, or a `low` one, every advisory is shown; a
/// `medium` floor hides only `LOW`; a `high` floor shows `HIGH`, `CRIT` and
/// ungraded ones; a `critical` floor shows `CRIT` and ungraded ones. In
/// particular an advisory exactly at the floor is shown.
pub proof fn law_floor_keeps_at_and_above(m: Severity, v: VulnView)
    ensures
        kept(None, v),
        v.2 == m ==> kept(Some(m), v),
        v.2 == Severity::Unknown ==> kept(Some(m), v),
        kept(Some(Severity::Unknown), v),
        kept(Some(Severity::Low), v),
        kept(Some(Severity::Medium), v) <==> v.2 != Severity::Low,
        kept(Some(Severity::High), v) <==> (v.2 == Severity::Unknown || v.2 == Severity::High || v.2
            == Severity::Critical),
        kept(Some(Severity::Critical), v) <==> (v.2 == Severity::Unknown || v.2 == Severity::Critical),
{
}

/// An advisory at or above the floor (or ungraded) of a finding is listed in
/// the report under its package; one below it is not listed anywhere.
pub proof fn law_report_lists_exactly_the_kept(min: Option<Severity>, fs: Seq<FindingView>, i: int, v: VulnView)
    requires
        0 <= i < fs.len(),
        fs[i].1.contains(v),
    ensures
        (v.2 == Severity::Unknown || min is None || v.2.level_of() >= min->0.level_of()) ==> exists|k: int|
            0 <= k < shown_of(min, fs).len() && (#[trigger] shown_of(min, fs)[k]).0 == fs[i].0
                && shown_of(min, fs)[k].1.contains(v),
        !kept(min, v) ==> forall|k: int|
            0 <= k < shown_of(min, fs).len() ==> !(#[trigger] shown_of(min, fs)[k]).1.contains(v),
{
    if v.2 == Severity::Unknown || min is None || v.2.level_of() >= min->0.level_of() {
        law_report_shows_all_kept(min, fs, i, v);
    }
    law_report_respects_floor(min, fs);
}

/// The report lists the most severe package first, and within each package
/// the most severe advisory first (then by id).
pub proof fn law_report_order(min: Option<Severity>, fs: Seq<FindingView>)
    ensures
        order::sorted_by(shown_of(min, fs), entry_order()),
        forall|i: int| 0 <= i < shown_of(min, fs).len() ==> order::sorted_by(
            (#[trigger] shown_of(min, fs)[i]).1,
            vuln_order(),
        ),
{
    lemma_entry_order_strict();
    order::lemma_sort_by_sorted(entries_of(min, fs), entry_order());
    lemma_entries_sorted(min, fs);
    lemma_sort_members(entries_of(min, fs), entry_order());
    let sh = shown_of(min, fs);
    assert forall|i: int| 0 <= i < sh.len() implies order::sorted_by((#[trigger] sh[i]).1, vuln_order()) by {
        assert(sh.contains(sh[i]));
        assert(order::sort_by(entries_of(min, fs), entry_order()).contains(sh[i]));
        assert(entries_of(min, fs).contains(sh[i]));
    }
}

proof fn lemma_entries_sorted(min: Option<Severity>, fs: Seq<FindingView>)
    ensures
        forall|e: Entry| #[trigger] entries_of(min, fs).contains(e) ==> order::sorted_by(e.1, vuln_order()),
    decreases fs.len(),
{
    if fs.len() > 0 {
        lemma_entries_sorted(min, fs.drop_last());
        let prev = entries_of(min, fs.drop_last());
        let vs = order::sort_by(kept_of(min, fs.last().1), vuln_order());
        lemma_vuln_order_strict();
        order::lemma_sort_by_sorted(kept_of(min, fs.last().1), vuln_order());
        assert forall|e: Entry| #[trigger] entries_of(min, fs).contains(e) implies order::sorted_by(
            e.1,
            vuln_order(),
        ) by {
            if vs.len() > 0 {
                let q = prev.push((fs.last().0, vs));
                let w = choose|w: int| 0 <= w < q.len() && q[w] == e;
                if w < prev.len() {
                    assert(prev[w] == e);
                    assert(prev.contains(e));
                }
            }
        }
    }
}

/// A cut text keeps its first `n` characters and marks the cut; an uncut
/// one is unchanged.
pub proof fn law_truncate(s: Seq<char>, n: nat)
    ensures
        truncate_of(s, n).len() <= n + 1,
        s.len() <= n ==> truncate_of(s, n) == s,
        s.len() > n ==> truncate_of(s, n).take(n as int) == s.take(n as int),
{
    reveal_strlit("…");
    if s.len() > n {
        assert(truncate_of(s, n).take(n as int) =~= s.take(n as int));
    }
}

/// `check_vulnerabilities`: the report on the packages `scanned` from the
/// project at `path`, given what OSV.dev found for them (or why it could
/// not be asked), under the optional severity floor `severity_min`.
pub fn check(
    path: &str,
    severity_min: Option<&str>,
    scanned: &Scanned,
    findings: Result<Vec<Finding>, String>,
) -> (r: Result<String, String>)
    requires
        findings matches Ok(fs) ==> total_advisories_of(finding_views(fs@)) <= usize::MAX,
    ensures
        match findings_result_view(findings) {
            Err(e) => r matches Err(x) && x@ == e,
            Ok(fs) => r matches Ok(t) && t@ == report_of(path@, opt_str_view(severity_min), *scanned, fs),
        },
{
    let findings = match findings {
        Ok(f) => f,
        Err(e) => {
            return Err(e);
        },
    };
    let ghost fs = finding_views(findings@);
    let mut report = String::new();
    report.append("context-snipe — vulnerability scan\nProject: ");
    report.append(path);
    report.append("\nScanned: ");
    text::push_decimal(&mut report, scanned.total_entries);
    report.append(" entries (");
    text::push_decimal(&mut report, scanned.packages.len());
    report.append(" unique packages) from ");
    push_joined(&mut report, &scanned.files, ", ");
    report.append("\n");
    proof {
        assert(report@ =~= report_header_of(path@, *scanned));
    }
    let ghost header = report@;
    let min = match severity_min {
        Some(s) => parse_min(s),
        None => None,
    };
    let entries = report_entries(min, &findings);
    let shown = sort_entries(entries);
    let ghost sv = entry_views(shown@);
    proof {
        lemma_entries_count(min, fs);
        lemma_count_sort(entries_of(min, fs));
        assert(sv == shown_of(min, fs));
    }
    let mut total: usize = 0;
    let mut i: usize = 0;
    while i < shown.len()
        invariant
            sv == entry_views(shown@),
            i <= shown@.len(),
            advisory_count(sv) <= usize::MAX,
            total as nat == advisory_count(sv.take(i as int)),
        decreases shown.len() - i,
    {
        proof {
            assert(sv.take(i + 1).drop_last() =~= sv.take(i as int));
            assert(sv.take(i + 1).last().1.len() == shown@[i as int].1@.len());
            lemma_count_concat(sv.take(i + 1), sv.skip(i + 1));
            assert(sv.take(i + 1) + sv.skip(i + 1) =~= sv);
        }
        total = total + shown[i].1.len();
        i += 1;
    }
    proof {
        assert(sv.take(shown@.len() as int) =~= sv);
    }
    if shown.len() == 0 {
        report.append("\nOK  No known vulnerabilities");
        match severity_min {
            Some(s) => {
                report.append(" at/above ");
                report.append(s);
                report.append(" severity");
            },
            None => {},
        }
        report.append(".\n");
        report.append("\nSource: OSV.dev — advisories for packages present in your dependency tree.");
        proof {
            assert(report@ =~= report_of(path@, opt_str_view(severity_min), *scanned, fs));
        }
        return Ok(report);
    }
    report.append("\nFOUND  ");
    text::push_decimal(&mut report, total);
    report.append(" advisor");
    if total == 1 {
        report.append("y");
    } else {
        report.append("ies");
    }
    report.append(" affecting ");
    text::push_decimal(&mut report, shown.len());
    report.append(" of ");
    text::push_decimal(&mut report, scanned.packages.len());
    report.append(" package(s):\n");
    let ghost mid = report@;
    let mut j: usize = 0;
    while j < shown.len()
        invariant
            sv == entry_views(shown@),
            j <= shown@.len(),
            report@ == mid + entry_blocks_of(sv.take(j as int)),
        decreases shown.len() - j,
    {
        proof {
            assert(sv.take(j + 1).drop_last() =~= sv.take(j as int));
        }
        push_entry_block(&mut report, &shown[j]);
        j += 1;
    }
    report.append(
        "\nSource: OSV.dev. These advisories affect packages actually present in your dependency tree.\nNote: presence is not the same as exploitability — confirm the vulnerable code path is reachable in how you use the package.",
    );
    proof {
        assert(sv.take(shown@.len() as int) =~= sv);
        assert(report@ =~= report_of(path@, opt_str_view(severity_min), *scanned, fs));
    }
    Ok(report)
}

} // verus!
