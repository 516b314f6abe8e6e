//! Dependency discovery: decide which dependency files of a project to read,
//! and parse each into a flat list of (name, version, ecosystem) packages.
//!
//! Lockfiles (Cargo.lock, pnpm-lock.yaml, yarn.lock, package-lock.json,
//! poetry.lock, uv.lock, go.sum) give the fully resolved tree. Plain manifests
//! (package.json, requirements.txt, go.mod) are best-effort direct-dependency
//! fallbacks when no lockfile is present.
//!
//! The line-oriented formats are parsed here from their text; the structured
//! formats (TOML and JSON) are decoded into documents (`crate::document`) and
//! read from those.

use vstd::prelude::*;

use crate::document::{
    str_is, json_document, parse_json, parse_toml, toml_document, json_field, json_field_of, json_get, json_get_of, json_members, json_str, json_str_of, toml_get,
    toml_get_of, toml_str, toml_str_of, JsonValue, TomlValue,
};
use crate::text;

verus! {

#[derive(Debug, Clone, Copy, PartialEq, Eq, Structural)]
pub enum Ecosystem {
    CratesIo,
    Npm,
    PyPI,
    Go,
}

impl Ecosystem {
    /// The ecosystem string OSV.dev expects.
    pub open spec fn osv_name_of(self) -> Seq<char> {
        match self {
            Ecosystem::CratesIo => "crates.io"@,
            Ecosystem::Npm => "npm"@,
            Ecosystem::PyPI => "PyPI"@,
            Ecosystem::Go => "Go"@,
        }
    }

    /// The short label used in reports.
    pub open spec fn label_of(self) -> Seq<char> {
        match self {
            Ecosystem::CratesIo => "cargo"@,
            Ecosystem::Npm => "npm"@,
            Ecosystem::PyPI => "pip"@,
            Ecosystem::Go => "go"@,
        }
    }

    /// The exact ecosystem string OSV.dev expects.
    pub fn osv_name(&self) -> (r: &'static str)
        ensures
            r@ == self.osv_name_of(),
    {
        match self {
            Ecosystem::CratesIo => "crates.io",
            Ecosystem::Npm => "npm",
            Ecosystem::PyPI => "PyPI",
            Ecosystem::Go => "Go",
        }
    }

    /// Short label for human-facing output.
    pub fn label(&self) -> (r: &'static str)
        ensures
            r@ == self.label_of(),
    {
        match self {
            Ecosystem::CratesIo => "cargo",
            Ecosystem::Npm => "npm",
            Ecosystem::PyPI => "pip",
            Ecosystem::Go => "go",
        }
    }
}

#[derive(Debug, Clone)]
pub struct Package {
    pub name: String,
    pub version: String,
    pub ecosystem: Ecosystem,
}

/// A package as (name, version, ecosystem).
pub type PackageView = (Seq<char>, Seq<char>, Ecosystem);

impl View for Package {
    type V = PackageView;

    open spec fn view(&self) -> PackageView {
        (self.name@, self.version@, self.ecosystem)
    }
}

pub open spec fn pkg_views(v: Seq<Package>) -> Seq<PackageView> {
    v.map_values(|p: Package| p@)
}

impl Package {
    pub fn new(name: &[char], version: &[char], ecosystem: Ecosystem) -> (p: Package)
        ensures
            p@ == (name@, version@, ecosystem),
    {
        Package { name: text::string_of(name), version: text::string_of(version), ecosystem }
    }

    /// A copy of this package with the same view.
    pub fn duplicate(&self) -> (p: Package)
        ensures
            p@ == self@,
    {
        Package {
            name: self.name.clone(),
            version: self.version.clone(),
            ecosystem: self.ecosystem,
        }
    }
}

// ---------------------------------------------------------------------------
// Single-value parsers
// ---------------------------------------------------------------------------

/// (name, version) encoded in a pnpm package key: quotes and surrounding
/// whitespace dropped, one leading `/` dropped (lockfile v5/v6), a peer suffix
/// `(...)` dropped, then split at the last `@` that is not the first character,
/// or else at the last `/` (older `name/version` keys). The version must start
/// with a digit and the name must not be empty.
pub open spec fn pnpm_key_of(raw: Seq<char>) -> Option<(Seq<char>, Seq<char>)> {
    let k1 = text::trim_matches(text::trim_matches(text::trim(raw), '\''), '"');
    let k2 = match text::strip_prefix(k1, "/"@) {
        Some(r) => r,
        None => k1,
    };
    let k = text::before_char(k2, '(');
    let split = match text::last_where(k, text::is_char('@')) {
        Some(i) => if i > 0 {
            Some(i)
        } else {
            text::last_where(k, text::is_char('/'))
        },
        None => text::last_where(k, text::is_char('/')),
    };
    match split {
        None => None,
        Some(i) => {
            let name = k.take(i);
            let version = k.skip(i + 1);
            if name.len() == 0 || !(version.len() > 0 && text::is_digit(version[0])) {
                None
            } else {
                Some((name, version))
            }
        },
    }
}

/// Extract (name, version) from a pnpm package key, handling scoped names,
/// quoting, a leading slash (v5/v6), peer-dependency suffixes `(...)`, and the
/// older `name/version` separator.
pub fn parse_pnpm_key(raw: &str) -> (r: Option<(String, String)>)
    ensures
        match r {
            Some((n, v)) => pnpm_key_of(raw@) == Some((n@, v@)),
            None => pnpm_key_of(raw@) is None,
        },
{
    let raw_c = text::chars_of(raw);
    match parse_pnpm_key_chars(raw_c.as_slice()) {
        Some((n, v)) => Some((text::string_of(n), text::string_of(v))),
        None => None,
    }
}

fn parse_pnpm_key_chars<'a>(raw: &'a [char]) -> (r: Option<(&'a [char], &'a [char])>)
    ensures
        match r {
            Some((n, v)) => pnpm_key_of(raw@) == Some((n@, v@)),
            None => pnpm_key_of(raw@) is None,
        },
{
    let slash = text::chars_of("/");
    let k1 = text::trim_matches_chars(
        text::trim_matches_chars(text::trim_chars(raw), '\''),
        '"',
    );
    let k2 = match text::strip_prefix_chars(k1, slash.as_slice()) {
        Some(r) => r,
        None => k1,
    };
    let k = text::before_char_chars(k2, '(');
    let split = match text::rfind_char(k, '@') {
        Some(i) => if i > 0 {
            Some(i)
        } else {
            text::rfind_char(k, '/')
        },
        None => text::rfind_char(k, '/'),
    };
    match split {
        None => None,
        Some(i) => {
            proof {
                text::lemma_last_where_some(k@, text::is_char('@'));
                text::lemma_last_where_some(k@, text::is_char('/'));
            }
            let n = k.len();
            let name = &k[0..i];
            let version = &k[i + 1..n];
            if name.len() == 0 || !(version.len() > 0 && text::char_is_digit(version[0])) {
                None
            } else {
                Some((name, version))
            }
        },
    }
}

/// Package name from a yarn spec: the part before the version selector's `@`,
/// where a leading `@` (a scope) does not count.
pub open spec fn yarn_name_of(spec: Seq<char>) -> Option<Seq<char>> {
    let s = text::trim_matches(text::trim(spec), '"');
    let off: int = if s.len() > 0 && s[0] == '@' {
        1
    } else {
        0
    };
    match text::first_where(s.skip(off), text::is_char('@')) {
        Some(i) => if i + off > 0 {
            Some(s.take(i + off))
        } else {
            None
        },
        None => None,
    }
}

/// Package name from a yarn spec: `lodash@^4.17.11`, `"@scope/x@^1.0.0"`, or
/// Berry's `"lodash@npm:^4.17.11"` -> the part before the version selector.
pub fn yarn_name(spec: &str) -> (r: Option<String>)
    ensures
        match r {
            Some(n) => yarn_name_of(spec@) == Some(n@),
            None => yarn_name_of(spec@) is None,
        },
{
    let spec_c = text::chars_of(spec);
    yarn_name_chars(spec_c.as_slice())
}

fn yarn_name_chars(spec: &[char]) -> (r: Option<String>)
    ensures
        match r {
            Some(n) => yarn_name_of(spec@) == Some(n@),
            None => yarn_name_of(spec@) is None,
        },
{
    let s = text::trim_matches_chars(text::trim_chars(spec), '"');
    let off: usize = if s.len() > 0 && s[0] == '@' {
        1
    } else {
        0
    };
    let n = s.len();
    let tail = &s[off..n];
    assert(tail@ == s@.skip(off as int));
    match text::find_char(tail, '@') {
        Some(i) => {
            proof {
                text::lemma_first_where_some(tail@, text::is_char('@'));
            }
            if i + off > 0 {
                Some(text::string_of(&s[0..i + off]))
            } else {
                None
            }
        },
        None => None,
    }
}

/// Resolved version from a yarn `version` line: classic `version "x"` or
/// Berry `version: x`.
pub open spec fn yarn_version_of(line: Seq<char>) -> Option<Seq<char>> {
    match text::strip_prefix(text::trim(line), "version"@) {
        None => None,
        Some(r0) => {
            let r1 = text::trim_start(r0);
            let r2 = match text::strip_prefix(r1, ":"@) {
                Some(x) => text::trim(x),
                None => r1,
            };
            let v = text::trim_matches(text::trim(r2), '"');
            if v.len() > 0 {
                Some(v)
            } else {
                None
            }
        },
    }
}

/// Resolved version from a yarn `version` line: classic `version "x"` or
/// Berry `version: x`.
pub fn yarn_version(line: &str) -> (r: Option<String>)
    ensures
        match r {
            Some(v) => yarn_version_of(line@) == Some(v@),
            None => yarn_version_of(line@) is None,
        },
{
    let line_c = text::chars_of(line);
    yarn_version_chars(line_c.as_slice())
}

fn yarn_version_chars(line: &[char]) -> (r: Option<String>)
    ensures
        match r {
            Some(v) => yarn_version_of(line@) == Some(v@),
            None => yarn_version_of(line@) is None,
        },
{
    let version_kw = text::chars_of("version");
    let colon = text::chars_of(":");
    match text::strip_prefix_chars(text::trim_chars(line), version_kw.as_slice()) {
        None => None,
        Some(r0) => {
            let r1 = text::trim_start_chars(r0);
            let r2 = match text::strip_prefix_chars(r1, colon.as_slice()) {
                Some(x) => text::trim_chars(x),
                None => r1,
            };
            let v = text::trim_matches_chars(text::trim_chars(r2), '"');
            if v.len() > 0 {
                Some(text::string_of(v))
            } else {
                None
            }
        },
    }
}

pub open spec fn is_semver_char(c: char) -> bool {
    text::is_digit(c) || c == '.'
}

pub open spec fn semver_char() -> spec_fn(char) -> bool {
    |c: char| is_semver_char(c)
}

fn char_not_semver(c: char) -> (b: bool)
    ensures
        b == !is_semver_char(c),
{
    !(text::char_is_digit(c) || c == '.')
}

/// A version spec that names a git repository, a URL or a local path rather
/// than a range of versions: a URL (`scheme://...`, which covers tarball and
/// `git+https` specs), a `git:`/hosted-git/`file:`/`link:` spec, a relative or
/// absolute path, or a `user/repo` shorthand (a `/` without any `:`).
/// Protocol specs such as `npm:` aliases and `workspace:` ranges are not
/// sources: their version is read like any range's.
pub open spec fn is_source_spec(t: Seq<char>) -> bool {
    ||| text::find_seq(t, "://"@) is Some
    ||| text::starts_with(t, "git+"@)
    ||| text::starts_with(t, "git:"@)
    ||| text::starts_with(t, "github:"@)
    ||| text::starts_with(t, "gitlab:"@)
    ||| text::starts_with(t, "bitbucket:"@)
    ||| text::starts_with(t, "gist:"@)
    ||| text::starts_with(t, "file:"@)
    ||| text::starts_with(t, "link:"@)
    ||| text::starts_with(t, "./"@)
    ||| text::starts_with(t, "../"@)
    ||| text::starts_with(t, "/"@)
    ||| text::starts_with(t, "~/"@)
    ||| (t.contains('/') && !t.contains(':'))
}

/// The first run of digits and dots in the trimmed range, when it holds a dot;
/// nothing for a source spec.
pub open spec fn clean_semver_of(s: Seq<char>) -> Option<Seq<char>> {
    let t = text::trim(s);
    if is_source_spec(t) {
        None
    } else {
        match text::first_where(t, text::digit()) {
            None => None,
            Some(start) => {
                let v = text::prefix_while(t.skip(start), semver_char());
                if v.len() == 0 || !v.contains('.') {
                    None
                } else {
                    Some(v)
                }
            },
        }
    }
}

/// Whether `t` starts with `p`.
fn starts_lit(t: &[char], p: &str) -> (r: bool)
    ensures
        r == text::starts_with(t@, p@),
{
    let pc = text::chars_of(p);
    text::starts_with_chars(t, pc.as_slice())
}

/// Whether `t` holds the character `c`.
fn holds_char(t: &[char], c: char) -> (r: bool)
    ensures
        r == t@.contains(c),
{
    match text::find_char(t, c) {
        Some(i) => {
            proof {
                text::lemma_first_where_some(t@, text::is_char(c));
                assert(t@[i as int] == c);
            }
            true
        },
        None => {
            proof {
                if t@.contains(c) {
                    let j = choose|j: int| 0 <= j < t@.len() && t@[j] == c;
                    assert(text::is_char(c)(t@[j]));
                    text::lemma_first_where_exists(t@, text::is_char(c), j);
                }
            }
            false
        },
    }
}

/// Strip a leading range operator (^, ~, >=, etc.) and keep the first concrete
/// `x.y.z`. Returns None for ranges we can't pin (`*`, `latest`, git/url specs).
pub fn clean_semver(s: &str) -> (r: Option<String>)
    ensures
        is_source_spec(text::trim(s@)) ==> r is None,
        match r {
            Some(v) => clean_semver_of(s@) == Some(v@),
            None => clean_semver_of(s@) is None,
        },
        r matches Some(v) ==> {
            &&& v@.len() > 0
            &&& text::is_digit(v@[0])
            &&& v@.contains('.')
            &&& forall|i: int| 0 <= i < v@.len() ==> is_semver_char(#[trigger] v@[i])
        },
{
    let s_c = text::chars_of(s);
    let t = text::trim_chars(s_c.as_slice());
    let scheme = text::chars_of("://");
    if text::find_chars(t, scheme.as_slice()).is_some() || starts_lit(t, "git+") || starts_lit(t, "git:") || starts_lit(t, "github:") || starts_lit(t, "gitlab:") || starts_lit(t, "bitbucket:") || starts_lit(t, "gist:") || starts_lit(t, "file:") || starts_lit(t, "link:") || starts_lit(t, "./") || starts_lit(t, "../") || starts_lit(t, "/") || starts_lit(t, "~/") || (holds_char(t, '/')
        && !holds_char(t, ':')) {
        return None;
    }
    let start = match text::find_by(t, text::char_is_digit, Ghost(text::digit())) {
        Some(i) => i,
        None => {
            return None;
        },
    };
    proof {
        text::lemma_first_where_some(t@, text::digit());
    }
    let n = t.len();
    let rest = &t[start..n];
    assert(rest@ == t@.skip(start as int));
    let end = match text::find_by(rest, char_not_semver, Ghost(text::negate(semver_char()))) {
        Some(e) => {
            proof {
                text::lemma_first_where_some(rest@, text::negate(semver_char()));
            }
            e
        },
        None => {
            proof {
                assert forall|j: int| 0 <= j < rest@.len() implies !text::negate(semver_char())(
                    #[trigger] rest@[j],
                ) by {
                    if text::negate(semver_char())(rest@[j]) {
                        text::lemma_first_where_exists(rest@, text::negate(semver_char()), j);
                    }
                }
            }
            rest.len()
        },
    };
    let v = &rest[0..end];
    assert(v@ == text::prefix_while(rest@, semver_char()));
    proof {
        assert forall|i: int| 0 <= i < v@.len() implies is_semver_char(#[trigger] v@[i]) by {
            assert(!text::negate(semver_char())(rest@[i]));
        }
    }
    if v.len() == 0 || text::find_char(v, '.').is_none() {
        proof {
            if v@.len() > 0 && v@.contains('.') {
                let j = choose|j: int| 0 <= j < v@.len() && v@[j] == '.';
                assert(text::is_char('.')(v@[j]));
                text::lemma_first_where_exists(v@, text::is_char('.'), j);
            }
        }
        None
    } else {
        proof {
            text::lemma_first_where_some(v@, text::is_char('.'));
            let j = text::first_where(v@, text::is_char('.'))->0;
            assert(v@[j] == '.');
        }
        Some(text::string_of(v))
    }
}


// ---------------------------------------------------------------------------
// Line-oriented files
// ---------------------------------------------------------------------------

proof fn lemma_push_view(out: Seq<Package>, p: Package)
    ensures
        pkg_views(out.push(p)) == pkg_views(out).push(p@),
{
    assert(pkg_views(out.push(p)) =~= pkg_views(out).push(p@));
}

proof fn lemma_take_step<T>(s: Seq<T>, i: int)
    requires
        0 <= i < s.len(),
    ensures
        s.take(i + 1).drop_last() == s.take(i),
        s.take(i + 1).last() == s[i],
{
    assert(s.take(i + 1).drop_last() =~= s.take(i));
}

pub open spec fn is_req_version_char(c: char) -> bool {
    text::is_ascii_alnum(c) || c == '.' || c == '-' || c == '+'
}

pub open spec fn req_version_char() -> spec_fn(char) -> bool {
    |c: char| is_req_version_char(c)
}

fn char_not_req_version(c: char) -> (b: bool)
    ensures
        b == !is_req_version_char(c),
{
    !(text::char_is_ascii_alnum(c) || c == '.' || c == '-' || c == '+')
}

/// The pinned requirement `name==version` on a requirements.txt line, if any:
/// blank lines, comments and options are skipped, extras `[..]` are dropped
/// from the name, and the version is the run of letters, digits, `.`, `-`
/// and `+` after `==`.
pub open spec fn requirement_of(raw: Seq<char>) -> Option<(Seq<char>, Seq<char>)> {
    let line = text::trim(raw);
    if line.len() == 0 || line[0] == '#' || line[0] == '-' {
        None
    } else {
        match text::find_seq(line, "=="@) {
            None => None,
            Some(idx) => {
                let name = text::trim(text::before_char(line.take(idx), '['));
                let ver = text::prefix_while(line.skip(idx + 2), req_version_char());
                if name.len() > 0 && ver.len() > 0 {
                    Some((name, ver))
                } else {
                    None
                }
            },
        }
    }
}

/// The packages of requirements.txt lines, in order.
pub open spec fn requirements_of(ls: Seq<Seq<char>>) -> Seq<PackageView>
    decreases ls.len(),
{
    if ls.len() == 0 {
        Seq::empty()
    } else {
        let prev = requirements_of(ls.drop_last());
        match requirement_of(ls.last()) {
            Some((n, v)) => prev.push((n, v, Ecosystem::PyPI)),
            None => prev,
        }
    }
}

/// The longest prefix of `s` whose characters satisfy `is_req_version_char`.
fn req_version_prefix(s: &[char]) -> (r: &[char])
    ensures
        r@ == text::prefix_while(s@, req_version_char()),
{
    match text::find_by(s, char_not_req_version, Ghost(text::negate(req_version_char()))) {
        Some(e) => {
            proof {
                text::lemma_first_where_some(s@, text::negate(req_version_char()));
            }
            &s[0..e]
        },
        None => s,
    }
}

fn requirement_line<'a>(raw: &'a [char], eqeq: &[char]) -> (r: Option<(&'a [char], &'a [char])>)
    requires
        eqeq@ == "=="@,
    ensures
        match r {
            Some((n, v)) => requirement_of(raw@) == Some((n@, v@)),
            None => requirement_of(raw@) is None,
        },
{
    let line = text::trim_chars(raw);
    if line.len() == 0 || line[0] == '#' || line[0] == '-' {
        return None;
    }
    match text::find_chars(line, eqeq) {
        None => None,
        Some(idx) => {
            proof {
                reveal_strlit("==");
                assert(text::is_first_occ(line@, eqeq@, idx as int));
            }
            let n = line.len();
            let name = text::trim_chars(text::before_char_chars(&line[0..idx], '['));
            let after = &line[idx + 2..n];
            assert(after@ == line@.skip(idx + 2));
            let ver = req_version_prefix(after);
            if name.len() > 0 && ver.len() > 0 {
                Some((name, ver))
            } else {
                None
            }
        },
    }
}

/// A text that starts with a digit starts with none of the source-spec prefixes.
proof fn lemma_run_not_prefixed(v: Seq<char>, p: Seq<char>)
    requires
        p.len() > 0,
        !text::is_digit(p[0]),
        v.len() > 0,
        text::is_digit(v[0]),
    ensures
        !text::starts_with(v, p),
{
    if text::starts_with(v, p) {
        assert(v.take(p.len() as int)[0] == v[0]);
    }
}

/// A run of digits and dots that starts with a digit is no source spec.
proof fn lemma_run_not_source(v: Seq<char>)
    requires
        v.len() > 0,
        text::is_digit(v[0]),
        forall|k: int| 0 <= k < v.len() ==> is_semver_char(#[trigger] v[k]),
    ensures
        !is_source_spec(v),
{
    reveal_strlit("://");
    if text::find_seq(v, "://"@) is Some {
        let i = text::find_seq(v, "://"@)->0;
        assert(text::is_first_occ(v, "://"@, i));
        assert(v.subrange(i, i + 3)[0] == v[i]);
        assert(is_semver_char(v[i]));
    }
    reveal_strlit("git+");
    lemma_run_not_prefixed(v, "git+"@);
    reveal_strlit("git:");
    lemma_run_not_prefixed(v, "git:"@);
    reveal_strlit("github:");
    lemma_run_not_prefixed(v, "github:"@);
    reveal_strlit("gitlab:");
    lemma_run_not_prefixed(v, "gitlab:"@);
    reveal_strlit("bitbucket:");
    lemma_run_not_prefixed(v, "bitbucket:"@);
    reveal_strlit("gist:");
    lemma_run_not_prefixed(v, "gist:"@);
    reveal_strlit("file:");
    lemma_run_not_prefixed(v, "file:"@);
    reveal_strlit("link:");
    lemma_run_not_prefixed(v, "link:"@);
    reveal_strlit("./");
    lemma_run_not_prefixed(v, "./"@);
    reveal_strlit("../");
    lemma_run_not_prefixed(v, "../"@);
    reveal_strlit("/");
    lemma_run_not_prefixed(v, "/"@);
    reveal_strlit("~/");
    lemma_run_not_prefixed(v, "~/"@);
    if v.contains(':') {
        let k = choose|k: int| 0 <= k < v.len() && v[k] == ':';
        assert(is_semver_char(v[k]));
    }
}

/// Cleaning a cleaned version gives it back unchanged, and a cleaned version
/// is a stretch of the input itself: non-empty, made of digits and dots,
/// starting with a digit and holding a dot.
pub proof fn law_clean_semver_idempotent(s: Seq<char>)
    ensures
        clean_semver_of(s) matches Some(v) ==> {
            &&& clean_semver_of(v) == Some(v)
            &&& exists|i: int| 0 <= i && i + v.len() <= s.len() && #[trigger] s.subrange(i, i + v.len()) == v
            &&& v.len() > 0
            &&& text::is_digit(v[0])
            &&& v.contains('.')
            &&& forall|k: int| 0 <= k < v.len() ==> is_semver_char(#[trigger] v[k])
        },
{
    if let Some(v) = clean_semver_of(s) {
        let t = text::trim(s);
        let a = text::first_where(s, text::non_ws())->0;
        let b = text::last_where(s, text::non_ws())->0;
        text::lemma_first_where_some(s, text::non_ws());
        text::lemma_last_where_some(s, text::non_ws());
        let start = text::first_where(t, text::digit())->0;
        text::lemma_first_where_some(t, text::digit());
        let rest = t.skip(start);
        text::lemma_first_where_some(rest, text::negate(semver_char()));
        // The run of digits and dots, and where it stands in `s`.
        assert forall|k: int| 0 <= k < v.len() implies is_semver_char(#[trigger] v[k]) by {
            match text::first_where(rest, text::negate(semver_char())) {
                Some(e) => {
                    assert(v == rest.take(e));
                    assert(!text::negate(semver_char())(rest[k]));
                },
                None => {
                    assert(v == rest);
                    if !is_semver_char(rest[k]) {
                        assert(text::negate(semver_char())(rest[k]));
                        text::lemma_first_where_exists(rest, text::negate(semver_char()), k);
                    }
                },
            }
        }
        assert(v[0] == t[start]);
        assert(t == s.subrange(a, b + 1));
        assert(s.subrange(a + start, a + start + v.len()) =~= v);
        // Cleaning `v` again: it is already trimmed, holds no `:` or `/`, and
        // starts with a digit.
        assert(!text::is_ws(v[0]));
        assert(!text::is_ws(v[v.len() - 1]));
        text::lemma_first_where_is(v, text::non_ws(), 0);
        text::lemma_last_where_is(v, text::non_ws(), v.len() - 1);
        assert(text::trim(v) =~= v);
        lemma_run_not_source(v);
        text::lemma_first_where_is(v, text::digit(), 0);
        assert(v.skip(0) =~= v);
        assert forall|k: int| 0 <= k < v.len() implies !text::negate(semver_char())(#[trigger] v[k]) by {
            assert(is_semver_char(v[k]));
        }
        text::lemma_first_where_none(v, text::negate(semver_char()));
    }
}

/// Parse requirements.txt: only pinned exact versions (`name==1.2.3`) can be
/// queried reliably.
pub fn parse_requirements(text: &str) -> (r: Vec<Package>)
    ensures
        pkg_views(r@) == requirements_of(text::lines(text@)),
{
    let chars = text::chars_of(text);
    let eqeq = text::chars_of("==");
    let ls = text::split_lines(chars.as_slice());
    let ghost lv = text::views(ls@);
    let mut out: Vec<Package> = Vec::new();
    let mut i: usize = 0;
    while i < ls.len()
        invariant
            lv == text::views(ls@),
            eqeq@ == "=="@,
            i <= ls@.len(),
            pkg_views(out@) == requirements_of(lv.take(i as int)),
        decreases ls.len() - i,
    {
        proof {
            lemma_take_step(lv, i as int);
        }
        match requirement_line(ls[i], eqeq.as_slice()) {
            Some((n, v)) => {
                let p = Package::new(n, v, Ecosystem::PyPI);
                proof {
                    lemma_push_view(out@, p);
                }
                out.push(p);
            },
            None => {},
        }
        i += 1;
    }
    proof {
        assert(lv.take(ls@.len() as int) == lv);
    }
    out
}

/// The module and version on a go.sum line, unless it is a `/go.mod` hash
/// line; leading `v`s are dropped from the version.
pub open spec fn go_sum_entry_of(raw: Seq<char>) -> Option<(Seq<char>, Seq<char>)> {
    match text::two_tokens(raw) {
        None => None,
        Some((m, v)) => if text::ends_with(v, "/go.mod"@) {
            None
        } else {
            Some((m, text::trim_start_matches(v, 'v')))
        },
    }
}

/// The key go.sum entries are told apart by: `module@version`.
pub open spec fn go_key(m: Seq<char>, v: Seq<char>) -> Seq<char> {
    m + "@"@ + v
}

pub open spec fn go_key_of(p: PackageView) -> Seq<char> {
    go_key(p.0, p.1)
}

/// The packages of go.sum lines: each `module@version` key once, at its first line.
pub open spec fn go_sum_of(ls: Seq<Seq<char>>) -> Seq<PackageView>
    decreases ls.len(),
{
    if ls.len() == 0 {
        Seq::empty()
    } else {
        let prev = go_sum_of(ls.drop_last());
        match go_sum_entry_of(ls.last()) {
            Some((m, v)) => if exists|j: int|
                0 <= j < prev.len() && go_key_of(#[trigger] prev[j]) == go_key(m, v) {
                prev
            } else {
                prev.push((m, v, Ecosystem::Go))
            },
            None => prev,
        }
    }
}

fn go_sum_entry<'a>(raw: &'a [char], gomod: &[char]) -> (r: Option<(&'a [char], &'a [char])>)
    requires
        gomod@ == "/go.mod"@,
    ensures
        match r {
            Some((m, v)) => go_sum_entry_of(raw@) == Some((m@, v@)),
            None => go_sum_entry_of(raw@) is None,
        },
{
    match text::two_tokens_chars(raw) {
        None => None,
        Some((m, v)) => if text::ends_with_chars(v, gomod) {
            None
        } else {
            Some((m, text::trim_start_matches_chars(v, 'v')))
        },
    }
}

/// The characters of `m`, then `@`, then those of `v`.
fn go_key_chars(m: &[char], v: &[char]) -> (r: Vec<char>)
    ensures
        r@ == go_key(m@, v@),
{
    let mut r: Vec<char> = Vec::new();
    let mut i: usize = 0;
    while i < m.len()
        invariant
            i <= m@.len(),
            r@ == m@.take(i as int),
        decreases m.len() - i,
    {
        r.push(m[i]);
        i += 1;
        proof {
            lemma_take_step(m@, i - 1);
        }
    }
    r.push('@');
    let mut j: usize = 0;
    while j < v.len()
        invariant
            j <= v@.len(),
            r@ == m@ + seq!['@'] + v@.take(j as int),
        decreases v.len() - j,
    {
        r.push(v[j]);
        j += 1;
        proof {
            lemma_take_step(v@, j - 1);
            assert(r@ =~= m@ + seq!['@'] + v@.take(j as int));
        }
    }
    proof {
        reveal_strlit("@");
        assert(m@.take(m@.len() as int) == m@);
        assert(v@.take(v@.len() as int) == v@);
        assert(r@ =~= go_key(m@, v@));
    }
    r
}

/// Parse go.sum: one package per `module version` line (skipping the
/// `/go.mod` hash lines), each `module@version` key once.
pub fn parse_go_sum(text: &str) -> (r: Vec<Package>)
    ensures
        pkg_views(r@) == go_sum_of(text::lines(text@)),
        forall|i: int, j: int|
            0 <= i < j < r@.len() ==> go_key_of(#[trigger] r@[i]@) != go_key_of(#[trigger] r@[j]@),
{
    let chars = text::chars_of(text);
    let gomod = text::chars_of("/go.mod");
    let ls = text::split_lines(chars.as_slice());
    let ghost lv = text::views(ls@);
    let mut out: Vec<Package> = Vec::new();
    let mut seen: Vec<Vec<char>> = Vec::new();
    let mut i: usize = 0;
    while i < ls.len()
        invariant
            lv == text::views(ls@),
            gomod@ == "/go.mod"@,
            i <= ls@.len(),
            pkg_views(out@) == go_sum_of(lv.take(i as int)),
            seen@.len() == out@.len(),
            forall|k: int| 0 <= k < seen@.len() ==> #[trigger] seen@[k]@ == go_key_of(out@[k]@),
            forall|a: int, b: int|
                0 <= a < b < out@.len() ==> go_key_of(#[trigger] out@[a]@) != go_key_of(
                    #[trigger] out@[b]@,
                ),
        decreases ls.len() - i,
    {
        proof {
            lemma_take_step(lv, i as int);
        }
        let ghost prev = pkg_views(out@);
        match go_sum_entry(ls[i], gomod.as_slice()) {
            Some((m, v)) => {
                let key = go_key_chars(m, v);
                let mut found = false;
                let mut k: usize = 0;
                while k < seen.len()
                    invariant
                        k <= seen@.len(),
                        seen@.len() == out@.len(),
                        prev == pkg_views(out@),
                        forall|q: int| 0 <= q < seen@.len() ==> #[trigger] seen@[q]@ == go_key_of(out@[q]@),
                        found <==> exists|j: int| 0 <= j < k && go_key_of(#[trigger] prev[j]) == key@,
                    decreases seen.len() - k,
                {
                    if text::chars_eq(seen[k].as_slice(), key.as_slice()) {
                        found = true;
                    }
                    proof {
                        assert(prev[k as int] == out@[k as int]@);
                        if found {
                            if go_key_of(prev[k as int]) == key@ {
                            } else {
                                let j = choose|j: int| 0 <= j < k && go_key_of(#[trigger] prev[j]) == key@;
                                assert(0 <= j < k + 1 && go_key_of(prev[j]) == key@);
                            }
                        }
                    }
                    k += 1;
                }
                if !found {
                    let p = Package::new(m, v, Ecosystem::Go);
                    proof {
                        lemma_push_view(out@, p);
                        assert forall|j: int| 0 <= j < out@.len() implies go_key_of(#[trigger] out@[j]@) != go_key_of(p@) by {
                            assert(prev[j] == out@[j]@);
                        }
                    }
                    out.push(p);
                    seen.push(key);
                } else {
                    proof {
                        let j = choose|j: int| 0 <= j < seen@.len() && go_key_of(#[trigger] prev[j]) == key@;
                        assert(0 <= j < prev.len() && go_key_of(prev[j]) == go_key(m@, v@));
                    }
                }
            },
            None => {},
        }
        i += 1;
    }
    proof {
        assert(lv.take(ls@.len() as int) == lv);
    }
    out
}

/// One go.mod line: whether a `require ( ... )` block is open after it, and
/// the module it requires, if any. `require X v1.2.3` lines and lines inside
/// a block count; comments after `//` are dropped, leading `v`s are dropped
/// from the version, and the version must start with a digit.
pub open spec fn go_mod_step(in_block: bool, raw: Seq<char>) -> (bool, Option<(Seq<char>, Seq<char>)>) {
    let l = text::trim(raw);
    if text::starts_with(l, "require ("@) {
        (true, None)
    } else if in_block && l == ")"@ {
        (false, None)
    } else {
        let body = match text::strip_prefix(l, "require "@) {
            Some(rest) => Some(text::trim(rest)),
            None => if in_block {
                Some(l)
            } else {
                None
            },
        };
        match body {
            None => (in_block, None),
            Some(b) => match text::two_tokens(text::trim(text::before_seq(b, "//"@))) {
                Some((m, v0)) => {
                    let v = text::trim_start_matches(v0, 'v');
                    if m.len() > 0 && v.len() > 0 && text::is_digit(v[0]) {
                        (in_block, Some((m, v)))
                    } else {
                        (in_block, None)
                    }
                },
                None => (in_block, None),
            },
        }
    }
}

/// The block state after go.mod lines and the modules they require, in order.
pub open spec fn go_mod_of(ls: Seq<Seq<char>>) -> (bool, Seq<PackageView>)
    decreases ls.len(),
{
    if ls.len() == 0 {
        (false, Seq::empty())
    } else {
        let prev = go_mod_of(ls.drop_last());
        let step = go_mod_step(prev.0, ls.last());
        match step.1 {
            Some((m, v)) => (step.0, prev.1.push((m, v, Ecosystem::Go))),
            None => (step.0, prev.1),
        }
    }
}

struct GoModWords {
    require_open: Vec<char>,
    close: Vec<char>,
    require: Vec<char>,
    comment: Vec<char>,
}

impl GoModWords {
    spec fn wf(&self) -> bool {
        &&& self.require_open@ == "require ("@
        &&& self.close@ == ")"@
        &&& self.require@ == "require "@
        &&& self.comment@ == "//"@
    }

    fn new() -> (w: GoModWords)
        ensures
            w.wf(),
    {
        GoModWords {
            require_open: text::chars_of("require ("),
            close: text::chars_of(")"),
            require: text::chars_of("require "),
            comment: text::chars_of("//"),
        }
    }
}

fn go_mod_line<'a>(in_block: bool, raw: &'a [char], w: &GoModWords) -> (r: (
    bool,
    Option<(&'a [char], &'a [char])>,
))
    requires
        w.wf(),
    ensures
        match r.1 {
            Some((m, v)) => go_mod_step(in_block, raw@) == (r.0, Some((m@, v@))),
            None => go_mod_step(in_block, raw@) == (r.0, None::<(Seq<char>, Seq<char>)>),
        },
{
    let l = text::trim_chars(raw);
    if text::starts_with_chars(l, w.require_open.as_slice()) {
        return (true, None);
    }
    if in_block && text::chars_eq(l, w.close.as_slice()) {
        return (false, None);
    }
    let body = match text::strip_prefix_chars(l, w.require.as_slice()) {
        Some(rest) => text::trim_chars(rest),
        None => if in_block {
            l
        } else {
            return (in_block, None);
        },
    };
    match text::two_tokens_chars(text::trim_chars(text::before_seq_chars(body, w.comment.as_slice()))) {
        Some((m, v0)) => {
            let v = text::trim_start_matches_chars(v0, 'v');
            if m.len() > 0 && v.len() > 0 && text::char_is_digit(v[0]) {
                (in_block, Some((m, v)))
            } else {
                (in_block, None)
            }
        },
        None => (in_block, None),
    }
}

/// Parse go.mod: the modules of `require` lines and `require ( ... )` blocks.
pub fn parse_go_mod(text: &str) -> (r: Vec<Package>)
    ensures
        pkg_views(r@) == go_mod_of(text::lines(text@)).1,
{
    let chars = text::chars_of(text);
    let w = GoModWords::new();
    let ls = text::split_lines(chars.as_slice());
    let ghost lv = text::views(ls@);
    let mut out: Vec<Package> = Vec::new();
    let mut in_block = false;
    let mut i: usize = 0;
    while i < ls.len()
        invariant
            lv == text::views(ls@),
            w.wf(),
            i <= ls@.len(),
            (in_block, pkg_views(out@)) == go_mod_of(lv.take(i as int)),
        decreases ls.len() - i,
    {
        proof {
            lemma_take_step(lv, i as int);
        }
        let (next, found) = go_mod_line(in_block, ls[i], &w);
        match found {
            Some((m, v)) => {
                let p = Package::new(m, v, Ecosystem::Go);
                proof {
                    lemma_push_view(out@, p);
                }
                out.push(p);
            },
            None => {},
        }
        in_block = next;
        i += 1;
    }
    proof {
        assert(lv.take(ls@.len() as int) == lv);
    }
    out
}

/// One pnpm-lock.yaml line: whether the top-level `packages:` block is open
/// after it, and the package its key names, if any. Keys are the lines two
/// bytes deep in that block that end with `:`.
pub open spec fn pnpm_step(in_packages: bool, line: Seq<char>) -> (bool, Option<(Seq<char>, Seq<char>)>) {
    if text::trim(line).len() == 0 {
        (in_packages, None)
    } else if text::indent(line) == 0 {
        (text::trim_end(line) == "packages:"@, None)
    } else if in_packages && text::indent(line) == 2 {
        match text::strip_suffix(text::trim_end(line), ":"@) {
            Some(key) => (in_packages, pnpm_key_of(key)),
            None => (in_packages, None),
        }
    } else {
        (in_packages, None)
    }
}

/// The block state after pnpm-lock.yaml lines and the packages they name, in order.
pub open spec fn pnpm_lock_of(ls: Seq<Seq<char>>) -> (bool, Seq<PackageView>)
    decreases ls.len(),
{
    if ls.len() == 0 {
        (false, Seq::empty())
    } else {
        let prev = pnpm_lock_of(ls.drop_last());
        let step = pnpm_step(prev.0, ls.last());
        match step.1 {
            Some((n, v)) => (step.0, prev.1.push((n, v, Ecosystem::Npm))),
            None => (step.0, prev.1),
        }
    }
}

/// Parse pnpm-lock.yaml by reading the keys of the top-level `packages:` block
/// (each key encodes `name@version`), without a full YAML parser.
pub fn parse_pnpm_lock(text: &str) -> (r: Vec<Package>)
    ensures
        pkg_views(r@) == pnpm_lock_of(text::lines(text@)).1,
{
    let chars = text::chars_of(text);
    let packages_kw = text::chars_of("packages:");
    let colon = text::chars_of(":");
    let ls = text::split_lines(chars.as_slice());
    let ghost lv = text::views(ls@);
    let mut out: Vec<Package> = Vec::new();
    let mut in_packages = false;
    let mut i: usize = 0;
    while i < ls.len()
        invariant
            lv == text::views(ls@),
            packages_kw@ == "packages:"@,
            colon@ == ":"@,
            i <= ls@.len(),
            (in_packages, pkg_views(out@)) == pnpm_lock_of(lv.take(i as int)),
        decreases ls.len() - i,
    {
        proof {
            lemma_take_step(lv, i as int);
        }
        let line = ls[i];
        if text::trim_chars(line).len() != 0 {
            let indent = text::indent_capped(line);
            if indent == 0 {
                in_packages = text::chars_eq(text::trim_end_chars(line), packages_kw.as_slice());
            } else if in_packages && indent == 2 {
                match text::strip_suffix_chars(text::trim_end_chars(line), colon.as_slice()) {
                    Some(key) => {
                        match parse_pnpm_key_chars(key) {
                            Some((n, v)) => {
                                let p = Package::new(n, v, Ecosystem::Npm);
                                proof {
                                    lemma_push_view(out@, p);
                                }
                                out.push(p);
                            },
                            None => {},
                        }
                    },
                    None => {},
                }
            }
        }
        i += 1;
    }
    proof {
        assert(lv.take(ls@.len() as int) == lv);
    }
    out
}

/// One yarn.lock line: the entry name awaiting its `version` line after it,
/// and the package it completes, if any. An unindented `spec, spec:` header
/// names the entry (by its first spec); the next indented `version` line
/// under it gives the version.
pub open spec fn yarn_step(current: Option<Seq<char>>, line: Seq<char>) -> (
    Option<Seq<char>>,
    Option<(Seq<char>, Seq<char>)>,
) {
    let t = text::trim(line);
    if t.len() == 0 || t[0] == '#' {
        (current, None)
    } else if text::indent(line) == 0 {
        (
            match text::strip_suffix(text::trim_end(line), ":"@) {
                Some(specs) => yarn_name_of(text::before_char(specs, ',')),
                None => None,
            },
            None,
        )
    } else {
        match current {
            Some(name) => match yarn_version_of(t) {
                Some(v) => (None, Some((name, v))),
                None => (current, None),
            },
            None => (current, None),
        }
    }
}

/// The pending entry after yarn.lock lines and the packages they resolve, in order.
pub open spec fn yarn_lock_of(ls: Seq<Seq<char>>) -> (Option<Seq<char>>, Seq<PackageView>)
    decreases ls.len(),
{
    if ls.len() == 0 {
        (None, Seq::empty())
    } else {
        let prev = yarn_lock_of(ls.drop_last());
        let step = yarn_step(prev.0, ls.last());
        match step.1 {
            Some((n, v)) => (step.0, prev.1.push((n, v, Ecosystem::Npm))),
            None => (step.0, prev.1),
        }
    }
}

/// Parse yarn.lock (classic and Berry). Each entry header names one or more
/// specs; the following indented `version` line gives the resolved version.
pub fn parse_yarn_lock(text: &str) -> (r: Vec<Package>)
    ensures
        pkg_views(r@) == yarn_lock_of(text::lines(text@)).1,
{
    let chars = text::chars_of(text);
    let colon = text::chars_of(":");
    let ls = text::split_lines(chars.as_slice());
    let ghost lv = text::views(ls@);
    let mut out: Vec<Package> = Vec::new();
    let mut current: Option<String> = None;
    let mut i: usize = 0;
    while i < ls.len()
        invariant
            lv == text::views(ls@),
            colon@ == ":"@,
            i <= ls@.len(),
            (opt_view(current), pkg_views(out@)) == yarn_lock_of(lv.take(i as int)),
        decreases ls.len() - i,
    {
        proof {
            lemma_take_step(lv, i as int);
        }
        let line = ls[i];
        let t = text::trim_chars(line);
        if t.len() != 0 && t[0] != '#' {
            if text::indent_capped(line) == 0 {
                current = match text::strip_suffix_chars(text::trim_end_chars(line), colon.as_slice()) {
                    Some(specs) => yarn_name_chars(text::before_char_chars(specs, ',')),
                    None => None,
                };
            } else {
                match &current {
                    Some(name) => {
                        match yarn_version_chars(t) {
                            Some(v) => {
                                let p = Package { name: name.clone(), version: v, ecosystem: Ecosystem::Npm };
                                proof {
                                    lemma_push_view(out@, p);
                                }
                                out.push(p);
                                current = None;
                            },
                            None => {},
                        }
                    },
                    None => {},
                }
            }
        }
        i += 1;
    }
    proof {
        assert(lv.take(ls@.len() as int) == lv);
    }
    out
}

pub open spec fn opt_view(o: Option<String>) -> Option<Seq<char>> {
    match o {
        Some(s) => Some(s@),
        None => None,
    }
}

// ---------------------------------------------------------------------------
// Structured files (TOML and JSON documents)
// ---------------------------------------------------------------------------

/// The `[[package]]` tables of a TOML lockfile that give both a `name` and a
/// `version` string, in order.
pub open spec fn lock_tables_of(items: Seq<TomlValue>, eco: Ecosystem) -> Seq<PackageView>
    decreases items.len(),
{
    if items.len() == 0 {
        Seq::empty()
    } else {
        let prev = lock_tables_of(items.drop_last(), eco);
        let t = items.last();
        match (toml_str(toml_get(t, "name"@)), toml_str(toml_get(t, "version"@))) {
            (Some(n), Some(v)) => prev.push((n, v, eco)),
            _ => prev,
        }
    }
}

/// The packages of a TOML lockfile (Cargo.lock, poetry.lock, uv.lock): its
/// `package` array of tables.
pub open spec fn toml_lock_of(doc: TomlValue, eco: Ecosystem) -> Seq<PackageView> {
    match toml_get(doc, "package"@) {
        Some(TomlValue::Array(items)) => lock_tables_of(items@, eco),
        _ => Seq::empty(),
    }
}

fn lock_tables(doc: &TomlValue, eco: Ecosystem) -> (r: Vec<Package>)
    ensures
        pkg_views(r@) == toml_lock_of(*doc, eco),
{
    let mut out: Vec<Package> = Vec::new();
    match toml_get_of(doc, "package") {
        Some(TomlValue::Array(items)) => {
            let mut i: usize = 0;
            proof {
                assert(items@.take(0) =~= Seq::<TomlValue>::empty());
                assert(pkg_views(out@) =~= Seq::<PackageView>::empty());
            }
            while i < items.len()
                invariant
                    i <= items@.len(),
                    pkg_views(out@) == lock_tables_of(items@.take(i as int), eco),
                decreases items.len() - i,
            {
                proof {
                    lemma_take_step(items@, i as int);
                }
                let t = &items[i];
                let name = toml_str_of(toml_get_of(t, "name"));
                let version = toml_str_of(toml_get_of(t, "version"));
                match (name, version) {
                    (Some(n), Some(v)) => {
                        let p = Package { name: n.clone(), version: v.clone(), ecosystem: eco };
                        proof {
                            lemma_push_view(out@, p);
                        }
                        out.push(p);
                    },
                    _ => {},
                }
                i += 1;
            }
            proof {
                assert(items@.take(items@.len() as int) == items@);
            }
        },
        _ => {
            proof {
                assert(pkg_views(out@) =~= Seq::<PackageView>::empty());
            }
        },
    }
    out
}

/// Cargo.lock: each `[[package]]` with a name and a version is a crates.io package.
pub fn parse_cargo_lock(doc: &TomlValue) -> (r: Vec<Package>)
    ensures
        pkg_views(r@) == toml_lock_of(*doc, Ecosystem::CratesIo),
{
    lock_tables(doc, Ecosystem::CratesIo)
}

/// poetry.lock / uv.lock: each `[[package]]` with a name and a version is a PyPI package.
pub fn parse_pep_lock(doc: &TomlValue) -> (r: Vec<Package>)
    ensures
        pkg_views(r@) == toml_lock_of(*doc, Ecosystem::PyPI),
{
    lock_tables(doc, Ecosystem::PyPI)
}

/// The package an entry of the v2/v3 `packages` map names: not the root
/// (empty key), the name being what follows the last `node_modules/`, and
/// its `version` a string.
pub open spec fn npm_entry_of(e: (String, JsonValue)) -> Option<PackageView> {
    let name = text::after_last_seq(e.0@, "node_modules/"@);
    if e.0@.len() == 0 || name.len() == 0 {
        None
    } else {
        match json_str(json_get(e.1, "version"@)) {
            Some(v) => Some((name, v, Ecosystem::Npm)),
            None => None,
        }
    }
}

/// The packages of the v2/v3 `packages` map, in order.
pub open spec fn npm_v2_of(es: Seq<(String, JsonValue)>) -> Seq<PackageView>
    decreases es.len(),
{
    if es.len() == 0 {
        Seq::empty()
    } else {
        let prev = npm_v2_of(es.drop_last());
        match npm_entry_of(es.last()) {
            Some(p) => prev.push(p),
            None => prev,
        }
    }
}

/// The packages of the v1 dependency `name` described by `val` (its
/// `version` when a string, then its own `dependencies`), depth first.
pub open spec fn npm_v1_dep(name: String, val: JsonValue) -> Seq<PackageView>
    decreases val, 2int,
{
    match val {
        JsonValue::Object(fs) => {
            let own: Seq<PackageView> = match json_str(json_field(fs@, "version"@)) {
                Some(v) => seq![(name@, v, Ecosystem::Npm)],
                None => Seq::empty(),
            };
            own + npm_v1_nested(fs@)
        },
        _ => Seq::empty(),
    }
}

/// The packages of the `dependencies` object among the members `fs` (the
/// first member of that name), none when there is no such object.
pub open spec fn npm_v1_nested(fs: Seq<(String, JsonValue)>) -> Seq<PackageView>
    decreases fs, 1int,
{
    if fs.len() == 0 {
        Seq::empty()
    } else if fs[0].0@ == "dependencies"@ {
        match fs[0].1 {
            JsonValue::Object(es) => npm_v1_list(es@),
            _ => Seq::empty(),
        }
    } else {
        npm_v1_nested(fs.subrange(1, fs.len() as int))
    }
}

/// The packages of the members of a v1 `dependencies` object, in order, depth first.
pub open spec fn npm_v1_list(es: Seq<(String, JsonValue)>) -> Seq<PackageView>
    decreases es, 0int,
{
    if es.len() == 0 {
        Seq::empty()
    } else {
        npm_v1_list(es.subrange(0, es.len() - 1)) + npm_v1_dep(es[es.len() - 1].0, es[es.len() - 1].1)
    }
}

/// The packages of package-lock.json: the v2/v3 `packages` map, or when that
/// yields none, the v1 `dependencies` tree.
pub open spec fn package_lock_of(doc: JsonValue) -> Seq<PackageView> {
    let v2 = npm_v2_of(json_members(json_get(doc, "packages"@)));
    if v2.len() > 0 {
        v2
    } else {
        match doc {
            JsonValue::Object(fs) => npm_v1_nested(fs@),
            _ => Seq::empty(),
        }
    }
}

fn collect_v1_dep(name: &String, val: &JsonValue, out: &mut Vec<Package>)
    ensures
        pkg_views(final(out)@) == pkg_views(old(out)@) + npm_v1_dep(*name, *val),
    decreases val, 2int,
{
    match val {
        JsonValue::Object(fs) => {
            let ghost start = pkg_views(out@);
            match json_str_of(json_field_of(fs, "version")) {
                Some(v) => {
                    let p = Package { name: name.clone(), version: v.clone(), ecosystem: Ecosystem::Npm };
                    proof {
                        lemma_push_view(out@, p);
                    }
                    out.push(p);
                },
                None => {},
            }
            let ghost own = pkg_views(out@);
            collect_v1_nested(fs, out);
            proof {
                assert(own == start + (match json_str(json_field(fs@, "version"@)) {
                    Some(v) => seq![(name@, v, Ecosystem::Npm)],
                    None => Seq::<PackageView>::empty(),
                }));
            }
        },
        _ => {
            proof {
                assert(pkg_views(out@) =~= pkg_views(out@) + Seq::<PackageView>::empty());
            }
        },
    }
}

/// Appends the packages of the `dependencies` object among the members `fs`.
fn collect_v1_nested(fs: &Vec<(String, JsonValue)>, out: &mut Vec<Package>)
    ensures
        pkg_views(final(out)@) == pkg_views(old(out)@) + npm_v1_nested(fs@),
    decreases fs, 1int,
{
    let ghost start = pkg_views(out@);
    let n = fs.len();
    let mut i: usize = 0;
    proof {
        assert(fs@.subrange(0, n as int) == fs@);
    }
    while i < n
        invariant
            n == fs@.len(),
            i <= n,
            pkg_views(out@) == start,
            start == pkg_views(old(out)@),
            npm_v1_nested(fs@) == npm_v1_nested(fs@.subrange(i as int, n as int)),
        decreases n - i,
    {
        let ghost rest = fs@.subrange(i as int, n as int);
        proof {
            assert(rest[0] == fs@[i as int]);
            assert(rest.subrange(1, rest.len() as int) == fs@.subrange(i + 1, n as int));
        }
        if str_is(&fs[i].0, "dependencies") {
            match &fs[i].1 {
                JsonValue::Object(es) => {
                    collect_v1_list(es, out);
                },
                _ => {
                    proof {
                        assert(pkg_views(out@) =~= pkg_views(out@) + Seq::<PackageView>::empty());
                    }
                },
            }
            return;
        }
        i += 1;
    }
    proof {
        assert(fs@.subrange(n as int, n as int) =~= Seq::<(String, JsonValue)>::empty());
        assert(pkg_views(out@) =~= pkg_views(out@) + Seq::<PackageView>::empty());
    }
}

/// Appends the packages of the members of a v1 `dependencies` object, depth first.
fn collect_v1_list(es: &Vec<(String, JsonValue)>, out: &mut Vec<Package>)
    ensures
        pkg_views(final(out)@) == pkg_views(old(out)@) + npm_v1_list(es@),
    decreases es, 0int,
{
    let ghost start = pkg_views(out@);
    let mut i: usize = 0;
    proof {
        assert(es@.subrange(0, 0) =~= Seq::<(String, JsonValue)>::empty());
        assert(start + Seq::<PackageView>::empty() =~= start);
    }
    while i < es.len()
        invariant
            i <= es@.len(),
            pkg_views(out@) == start + npm_v1_list(es@.subrange(0, i as int)),
        decreases es.len() - i,
    {
        proof {
            assert(es@.subrange(0, i + 1).subrange(0, i as int) == es@.subrange(0, i as int));
        }
        collect_v1_dep(&es[i].0, &es[i].1, out);
        i += 1;
    }
    proof {
        assert(es@.subrange(0, es@.len() as int) == es@);
    }
}

/// package-lock.json: the flat v2/v3 `packages` map (keyed by install path),
/// falling back to the nested v1 `dependencies` tree when that yields nothing.
pub fn parse_package_lock(doc: &JsonValue) -> (r: Vec<Package>)
    ensures
        pkg_views(r@) == package_lock_of(*doc),
{
    let nm = text::chars_of("node_modules/");
    let mut out: Vec<Package> = Vec::new();
    let empty: Vec<(String, JsonValue)> = Vec::new();
    let members: &Vec<(String, JsonValue)> = match json_get_of(doc, "packages") {
        Some(JsonValue::Object(fs)) => fs,
        _ => &empty,
    };
    assert(members@ == json_members(json_get(*doc, "packages"@)));
    let mut i: usize = 0;
    while i < members.len()
        invariant
            nm@ == "node_modules/"@,
            i <= members@.len(),
            pkg_views(out@) == npm_v2_of(members@.take(i as int)),
        decreases members.len() - i,
    {
        proof {
            lemma_take_step(members@, i as int);
        }
        let e = &members[i];
        let key = text::chars_of(e.0.as_str());
        if key.len() > 0 {
            let name = text::after_last_seq_chars(key.as_slice(), nm.as_slice());
            if name.len() > 0 {
                match json_str_of(json_get_of(&e.1, "version")) {
                    Some(v) => {
                        let p = Package { name: text::string_of(name), version: v.clone(), ecosystem: Ecosystem::Npm };
                        proof {
                            lemma_push_view(out@, p);
                        }
                        out.push(p);
                    },
                    None => {},
                }
            }
        }
        i += 1;
    }
    proof {
        assert(members@.take(members@.len() as int) == members@);
    }
    if out.len() == 0 {
        proof {
            assert(pkg_views(out@) =~= Seq::<PackageView>::empty());
        }
        match doc {
            JsonValue::Object(fs) => collect_v1_nested(fs, &mut out),
            _ => {},
        }
    }
    out
}

/// The packages of one package.json dependency object whose requirement is a
/// string that pins a version.
pub open spec fn manifest_deps_of(ds: Seq<(String, JsonValue)>) -> Seq<PackageView>
    decreases ds.len(),
{
    if ds.len() == 0 {
        Seq::empty()
    } else {
        let prev = manifest_deps_of(ds.drop_last());
        match ds.last().1 {
            JsonValue::Str(req) => match clean_semver_of(req@) {
                Some(v) => prev.push((ds.last().0@, v, Ecosystem::Npm)),
                None => prev,
            },
            _ => prev,
        }
    }
}

/// The packages of package.json: its `dependencies`, `devDependencies` and
/// `optionalDependencies` objects, in that order.
pub open spec fn package_json_of(doc: JsonValue) -> Seq<PackageView> {
    manifest_deps_of(json_members(json_get(doc, "dependencies"@))) + manifest_deps_of(
        json_members(json_get(doc, "devDependencies"@)),
    ) + manifest_deps_of(json_members(json_get(doc, "optionalDependencies"@)))
}

fn manifest_deps(doc: &JsonValue, field: &str, out: &mut Vec<Package>)
    ensures
        pkg_views(final(out)@) == pkg_views(old(out)@) + manifest_deps_of(json_members(json_get(*doc, field@))),
{
    let ghost start = pkg_views(out@);
    let empty: Vec<(String, JsonValue)> = Vec::new();
    let ds: &Vec<(String, JsonValue)> = match json_get_of(doc, field) {
        Some(JsonValue::Object(fs)) => fs,
        _ => &empty,
    };
    assert(ds@ == json_members(json_get(*doc, field@)));
    let mut i: usize = 0;
    proof {
        assert(ds@.take(0) =~= Seq::<(String, JsonValue)>::empty());
        assert(start + Seq::<PackageView>::empty() =~= start);
    }
    while i < ds.len()
        invariant
            i <= ds@.len(),
            pkg_views(out@) == start + manifest_deps_of(ds@.take(i as int)),
        decreases ds.len() - i,
    {
        proof {
            lemma_take_step(ds@, i as int);
        }
        match &ds[i].1 {
            JsonValue::Str(req) => match clean_semver(req.as_str()) {
                Some(v) => {
                    let p = Package { name: ds[i].0.clone(), version: v, ecosystem: Ecosystem::Npm };
                    proof {
                        lemma_push_view(out@, p);
                    }
                    out.push(p);
                },
                None => {},
            },
            _ => {},
        }
        i += 1;
    }
    proof {
        assert(ds@.take(ds@.len() as int) == ds@);
    }
}

/// package.json: the pinnable versions of `dependencies`, `devDependencies`
/// and `optionalDependencies`, in that order.
pub fn parse_package_json(doc: &JsonValue) -> (r: Vec<Package>)
    ensures
        pkg_views(r@) == package_json_of(*doc),
{
    let mut out: Vec<Package> = Vec::new();
    proof {
        assert(pkg_views(out@) =~= Seq::<PackageView>::empty());
    }
    manifest_deps(doc, "dependencies", &mut out);
    manifest_deps(doc, "devDependencies", &mut out);
    manifest_deps(doc, "optionalDependencies", &mut out);
    proof {
        assert(pkg_views(out@) =~= package_json_of(*doc));
    }
    out
}

// ---------------------------------------------------------------------------
// Which files to read, and the sources they give
// ---------------------------------------------------------------------------

/// The dependency files this library reads.
#[derive(Debug, Clone, Copy, PartialEq, Eq, Structural)]
pub enum FileKind {
    CargoLock,
    PnpmLock,
    YarnLock,
    PackageLock,
    PackageJson,
    PoetryLock,
    UvLock,
    Requirements,
    GoSum,
    GoMod,
}

impl FileKind {
    pub open spec fn name_of(self) -> Seq<char> {
        match self {
            FileKind::CargoLock => "Cargo.lock"@,
            FileKind::PnpmLock => "pnpm-lock.yaml"@,
            FileKind::YarnLock => "yarn.lock"@,
            FileKind::PackageLock => "package-lock.json"@,
            FileKind::PackageJson => "package.json"@,
            FileKind::PoetryLock => "poetry.lock"@,
            FileKind::UvLock => "uv.lock"@,
            FileKind::Requirements => "requirements.txt"@,
            FileKind::GoSum => "go.sum"@,
            FileKind::GoMod => "go.mod"@,
        }
    }

    /// Lockfiles give the fully resolved tree; the others are manifests.
    pub open spec fn is_lockfile(self) -> bool {
        !(self == FileKind::PackageJson || self == FileKind::Requirements || self == FileKind::GoMod)
    }

    /// The file's name in the project directory.
    pub fn file_name(&self) -> (r: &'static str)
        ensures
            r@ == self.name_of(),
    {
        match self {
            FileKind::CargoLock => "Cargo.lock",
            FileKind::PnpmLock => "pnpm-lock.yaml",
            FileKind::YarnLock => "yarn.lock",
            FileKind::PackageLock => "package-lock.json",
            FileKind::PackageJson => "package.json",
            FileKind::PoetryLock => "poetry.lock",
            FileKind::UvLock => "uv.lock",
            FileKind::Requirements => "requirements.txt",
            FileKind::GoSum => "go.sum",
            FileKind::GoMod => "go.mod",
        }
    }

    /// Whether the file is a lockfile.
    pub fn locked(&self) -> (r: bool)
        ensures
            r == self.is_lockfile(),
    {
        match self {
            FileKind::PackageJson | FileKind::Requirements | FileKind::GoMod => false,
            _ => true,
        }
    }
}

/// Which of the supported files exist (as regular files) in a project directory.
pub struct Presence {
    pub cargo_lock: bool,
    pub pnpm_lock: bool,
    pub yarn_lock: bool,
    pub package_lock: bool,
    pub package_json: bool,
    pub poetry_lock: bool,
    pub uv_lock: bool,
    pub requirements: bool,
    pub go_sum: bool,
    pub go_mod: bool,
}

impl Presence {
    pub open spec fn has(self, k: FileKind) -> bool {
        match k {
            FileKind::CargoLock => self.cargo_lock,
            FileKind::PnpmLock => self.pnpm_lock,
            FileKind::YarnLock => self.yarn_lock,
            FileKind::PackageLock => self.package_lock,
            FileKind::PackageJson => self.package_json,
            FileKind::PoetryLock => self.poetry_lock,
            FileKind::UvLock => self.uv_lock,
            FileKind::Requirements => self.requirements,
            FileKind::GoSum => self.go_sum,
            FileKind::GoMod => self.go_mod,
        }
    }
}

/// The first present file of a preference list, as a sequence of at most one.
pub open spec fn first_present(p: Presence, prefs: Seq<FileKind>) -> Seq<FileKind>
    decreases prefs.len(),
{
    if prefs.len() == 0 {
        Seq::empty()
    } else if p.has(prefs[0]) {
        seq![prefs[0]]
    } else {
        first_present(p, prefs.drop_first())
    }
}

/// The files to read, in order: Cargo.lock; the most precise npm file
/// (pnpm-lock.yaml, yarn.lock, package-lock.json, package.json); the Python
/// lockfile over requirements.txt (poetry.lock, uv.lock, requirements.txt);
/// go.sum over go.mod.
pub open spec fn selected_of(p: Presence) -> Seq<FileKind> {
    first_present(p, seq![FileKind::CargoLock]) + first_present(
        p,
        seq![FileKind::PnpmLock, FileKind::YarnLock, FileKind::PackageLock, FileKind::PackageJson],
    ) + first_present(p, seq![FileKind::PoetryLock, FileKind::UvLock, FileKind::Requirements])
        + first_present(p, seq![FileKind::GoSum, FileKind::GoMod])
}

/// Decide which dependency files of a project to parse, by the preference
/// order of each ecosystem.
pub fn select_files(p: &Presence) -> (r: Vec<FileKind>)
    ensures
        r@ == selected_of(*p),
{
    let mut r: Vec<FileKind> = Vec::new();
    if p.cargo_lock {
        r.push(FileKind::CargoLock);
    }
    if p.pnpm_lock {
        r.push(FileKind::PnpmLock);
    } else if p.yarn_lock {
        r.push(FileKind::YarnLock);
    } else if p.package_lock {
        r.push(FileKind::PackageLock);
    } else if p.package_json {
        r.push(FileKind::PackageJson);
    }
    if p.poetry_lock {
        r.push(FileKind::PoetryLock);
    } else if p.uv_lock {
        r.push(FileKind::UvLock);
    } else if p.requirements {
        r.push(FileKind::Requirements);
    }
    if p.go_sum {
        r.push(FileKind::GoSum);
    } else if p.go_mod {
        r.push(FileKind::GoMod);
    }
    proof {
        reveal_with_fuel(first_present, 5);
        assert(r@ =~= selected_of(*p));
    }
    r
}

/// Each ecosystem gives at most one file, only a present one; a manifest
/// (package.json, requirements.txt, go.mod) is read only when no lockfile of
/// its ecosystem is present; the most precise present lockfile is read.
pub proof fn law_selection_prefers_lockfiles(p: Presence)
    ensures
        selected_of(p).len() <= 4,
        forall|i: int| 0 <= i < selected_of(p).len() ==> p.has(#[trigger] selected_of(p)[i]),
        selected_of(p).contains(FileKind::PackageJson) ==> !p.pnpm_lock && !p.yarn_lock && !p.package_lock,
        selected_of(p).contains(FileKind::Requirements) ==> !p.poetry_lock && !p.uv_lock,
        selected_of(p).contains(FileKind::GoMod) ==> !p.go_sum,
        p.cargo_lock ==> selected_of(p).contains(FileKind::CargoLock),
        p.pnpm_lock ==> selected_of(p).contains(FileKind::PnpmLock),
        p.poetry_lock ==> selected_of(p).contains(FileKind::PoetryLock),
        p.go_sum ==> selected_of(p).contains(FileKind::GoSum),
{
    reveal_with_fuel(first_present, 5);
    let a = first_present(p, seq![FileKind::CargoLock]);
    let b = first_present(
        p,
        seq![FileKind::PnpmLock, FileKind::YarnLock, FileKind::PackageLock, FileKind::PackageJson],
    );
    let c = first_present(p, seq![FileKind::PoetryLock, FileKind::UvLock, FileKind::Requirements]);
    let d = first_present(p, seq![FileKind::GoSum, FileKind::GoMod]);
    let s = selected_of(p);
    assert(s == a + b + c + d);
    assert forall|k: FileKind| s.contains(k) implies (a.contains(k) || b.contains(k) || c.contains(k)
        || d.contains(k)) by {
        let w = choose|w: int| 0 <= w < s.len() && s[w] == k;
        if w < a.len() {
            assert(a[w] == k);
        } else if w < a.len() + b.len() {
            assert(b[w - a.len()] == k);
        } else if w < a.len() + b.len() + c.len() {
            assert(c[w - a.len() - b.len()] == k);
        } else {
            assert(d[w - a.len() - b.len() - c.len()] == k);
        }
    }
    assert forall|i: int| 0 <= i < s.len() implies p.has(#[trigger] s[i]) by {
        assert(s.contains(s[i]));
    }
    if p.cargo_lock {
        assert(s[0] == FileKind::CargoLock);
    }
    if p.pnpm_lock {
        assert(s[a.len() as int] == FileKind::PnpmLock);
    }
    if p.poetry_lock {
        assert(s[(a.len() + b.len()) as int] == FileKind::PoetryLock);
    }
    if p.go_sum {
        assert(s[(a.len() + b.len() + c.len()) as int] == FileKind::GoSum);
    }
}

/// A pnpm key that names a package gives a non-empty name and a version that
/// starts with a digit.
pub proof fn law_pnpm_key_shape(raw: Seq<char>)
    ensures
        pnpm_key_of(raw) matches Some((n, v)) ==> n.len() > 0 && v.len() > 0 && text::is_digit(v[0]),
{
}

/// The contents of one dependency file: the text of a line-oriented file, or
/// what a TOML or JSON file holds.
pub enum DepFile {
    CargoLock(TomlValue),
    PnpmLock(String),
    YarnLock(String),
    PackageLock(JsonValue),
    PackageJson(JsonValue),
    PoetryLock(TomlValue),
    UvLock(TomlValue),
    Requirements(String),
    GoSum(String),
    GoMod(String),
}

impl DepFile {
    pub open spec fn kind_of(self) -> FileKind {
        match self {
            DepFile::CargoLock(_) => FileKind::CargoLock,
            DepFile::PnpmLock(_) => FileKind::PnpmLock,
            DepFile::YarnLock(_) => FileKind::YarnLock,
            DepFile::PackageLock(_) => FileKind::PackageLock,
            DepFile::PackageJson(_) => FileKind::PackageJson,
            DepFile::PoetryLock(_) => FileKind::PoetryLock,
            DepFile::UvLock(_) => FileKind::UvLock,
            DepFile::Requirements(_) => FileKind::Requirements,
            DepFile::GoSum(_) => FileKind::GoSum,
            DepFile::GoMod(_) => FileKind::GoMod,
        }
    }

    /// The packages the file lists, by its format.
    pub open spec fn packages_of(self) -> Seq<PackageView> {
        match self {
            DepFile::CargoLock(d) => toml_lock_of(d, Ecosystem::CratesIo),
            DepFile::PnpmLock(t) => pnpm_lock_of(text::lines(t@)).1,
            DepFile::YarnLock(t) => yarn_lock_of(text::lines(t@)).1,
            DepFile::PackageLock(d) => package_lock_of(d),
            DepFile::PackageJson(d) => package_json_of(d),
            DepFile::PoetryLock(d) => toml_lock_of(d, Ecosystem::PyPI),
            DepFile::UvLock(d) => toml_lock_of(d, Ecosystem::PyPI),
            DepFile::Requirements(t) => requirements_of(text::lines(t@)),
            DepFile::GoSum(t) => go_sum_of(text::lines(t@)),
            DepFile::GoMod(t) => go_mod_of(text::lines(t@)).1,
        }
    }

    /// The packages the file lists.
    pub fn packages(&self) -> (r: Vec<Package>)
        ensures
            pkg_views(r@) == self.packages_of(),
    {
        match self {
            DepFile::CargoLock(d) => parse_cargo_lock(d),
            DepFile::PnpmLock(t) => parse_pnpm_lock(t.as_str()),
            DepFile::YarnLock(t) => parse_yarn_lock(t.as_str()),
            DepFile::PackageLock(d) => parse_package_lock(d),
            DepFile::PackageJson(d) => parse_package_json(d),
            DepFile::PoetryLock(d) => parse_pep_lock(d),
            DepFile::UvLock(d) => parse_pep_lock(d),
            DepFile::Requirements(t) => parse_requirements(t.as_str()),
            DepFile::GoSum(t) => parse_go_sum(t.as_str()),
            DepFile::GoMod(t) => parse_go_mod(t.as_str()),
        }
    }
}

impl FileKind {
    /// Whether the file is TOML (Cargo.lock, poetry.lock, uv.lock).
    pub open spec fn is_toml(self) -> bool {
        self is CargoLock || self is PoetryLock || self is UvLock
    }

    /// Whether the file is JSON (package-lock.json, package.json).
    pub open spec fn is_json(self) -> bool {
        self is PackageLock || self is PackageJson
    }

    /// Whether the file's text decodes in its format (the line-oriented
    /// formats always do).
    pub open spec fn decodes(self, text: Seq<char>) -> bool {
        if self.is_toml() {
            toml_document(text) is Some
        } else if self.is_json() {
            json_document(text) is Some
        } else {
            true
        }
    }

    /// What the error for a file that does not decode starts with: the file's
    /// name, or for poetry.lock and uv.lock the path it was read from.
    pub open spec fn error_prefix(self, path: Seq<char>) -> Seq<char> {
        if self is PoetryLock || self is UvLock {
            path + ": "@
        } else {
            self.name_of() + ": "@
        }
    }
}

impl DepFile {
    /// `self` is what the text `text` of its file decodes to.
    pub open spec fn holds(self, text: Seq<char>) -> bool {
        match self {
            DepFile::CargoLock(d) => toml_document(text) == Some(d),
            DepFile::PoetryLock(d) => toml_document(text) == Some(d),
            DepFile::UvLock(d) => toml_document(text) == Some(d),
            DepFile::PackageLock(d) => json_document(text) == Some(d),
            DepFile::PackageJson(d) => json_document(text) == Some(d),
            DepFile::PnpmLock(t) => t@ == text,
            DepFile::YarnLock(t) => t@ == text,
            DepFile::Requirements(t) => t@ == text,
            DepFile::GoSum(t) => t@ == text,
            DepFile::GoMod(t) => t@ == text,
        }
    }
}

fn decode_error(kind: FileKind, path: &str, e: String) -> (r: String)
    ensures
        r@ == kind.error_prefix(path@) + e@,
{
    let mut s = String::new();
    if kind == FileKind::PoetryLock || kind == FileKind::UvLock {
        s.append(path);
    } else {
        s.append(kind.file_name());
    }
    s.append(": ");
    s.append(e.as_str());
    s
}

/// Decode the text of a dependency file read from `path`, by its kind: TOML
/// and JSON files into their documents, the others kept as text. A file that
/// does not decode gives the decoder's message, after the file's name (or for
/// poetry.lock and uv.lock, its path).
pub fn decode(kind: FileKind, path: &str, text: String) -> (r: Result<DepFile, String>)
    ensures
        r is Ok <==> kind.decodes(text@),
        r matches Ok(d) ==> d.kind_of() == kind && d.holds(text@),
        r matches Err(e) ==> text::starts_with(e@, kind.error_prefix(path@)),
{
    let ghost t = text@;
    match kind {
        FileKind::CargoLock | FileKind::PoetryLock | FileKind::UvLock => match parse_toml(text.as_str()) {
            Ok(d) => Ok(
                match kind {
                    FileKind::CargoLock => DepFile::CargoLock(d),
                    FileKind::PoetryLock => DepFile::PoetryLock(d),
                    _ => DepFile::UvLock(d),
                },
            ),
            Err(e) => {
                let m = decode_error(kind, path, e);
                proof {
                    assert(m@.take(kind.error_prefix(path@).len() as int) =~= kind.error_prefix(path@));
                }
                Err(m)
            },
        },
        FileKind::PackageLock | FileKind::PackageJson => match parse_json(text.as_str()) {
            Ok(d) => Ok(
                if kind == FileKind::PackageLock {
                    DepFile::PackageLock(d)
                } else {
                    DepFile::PackageJson(d)
                },
            ),
            Err(e) => {
                let m = decode_error(kind, path, e);
                proof {
                    assert(m@.take(kind.error_prefix(path@).len() as int) =~= kind.error_prefix(path@));
                }
                Err(m)
            },
        },
        FileKind::PnpmLock => Ok(DepFile::PnpmLock(text)),
        FileKind::YarnLock => Ok(DepFile::YarnLock(text)),
        FileKind::Requirements => Ok(DepFile::Requirements(text)),
        FileKind::GoSum => Ok(DepFile::GoSum(text)),
        FileKind::GoMod => Ok(DepFile::GoMod(text)),
    }
}

/// A detected dependency file and the packages parsed from it.
pub struct Source {
    pub file: String,
    /// True if parsed from a lockfile (exact, fully-resolved tree).
    pub locked: bool,
    pub packages: Vec<Package>,
}

/// A source as (file name, whether it is a lockfile, packages).
pub type SourceView = (Seq<char>, bool, Seq<PackageView>);

impl View for Source {
    type V = SourceView;

    open spec fn view(&self) -> SourceView {
        (self.file@, self.locked, pkg_views(self.packages@))
    }
}

pub open spec fn source_views(v: Seq<Source>) -> Seq<SourceView> {
    v.map_values(|s: Source| s@)
}

/// The source a file gives.
pub open spec fn source_of(d: DepFile) -> SourceView {
    (d.kind_of().name_of(), d.kind_of().is_lockfile(), d.packages_of())
}

/// The sources of the files read, in order, or the first error met reading
/// or decoding one of them.
pub open spec fn collect_of(files: Seq<Result<DepFile, String>>) -> Result<Seq<SourceView>, Seq<char>>
    decreases files.len(),
{
    if files.len() == 0 {
        Ok(Seq::empty())
    } else {
        match collect_of(files.drop_last()) {
            Err(e) => Err(e),
            Ok(prev) => match files.last() {
                Err(e) => Err(e@),
                Ok(d) => Ok(prev.push(source_of(d))),
            },
        }
    }
}

/// Parse each dependency file found (as `select_files` chose them, read and
/// decoded in that order) into its source; the first file that could not be
/// read or decoded makes the whole collection fail with its error.
pub fn collect(files: Vec<Result<DepFile, String>>) -> (r: Result<Vec<Source>, String>)
    ensures
        match r {
            Ok(v) => collect_of(files@) == Ok::<Seq<SourceView>, Seq<char>>(source_views(v@)),
            Err(e) => collect_of(files@) == Err::<Seq<SourceView>, Seq<char>>(e@),
        },
{
    let mut sources: Vec<Source> = Vec::new();
    let mut i: usize = 0;
    proof {
        assert(files@.take(0) =~= Seq::<Result<DepFile, String>>::empty());
        assert(source_views(sources@) =~= Seq::<SourceView>::empty());
    }
    while i < files.len()
        invariant
            i <= files@.len(),
            collect_of(files@.take(i as int)) == Ok::<Seq<SourceView>, Seq<char>>(source_views(sources@)),
        decreases files.len() - i,
    {
        proof {
            lemma_take_step(files@, i as int);
        }
        match &files[i] {
            Err(e) => {
                proof {
                    lemma_collect_err(files@, i as int);
                }
                return Err(e.clone());
            },
            Ok(d) => {
                let k = d.kind();
                let src = Source { file: k.file_name().to_owned(), locked: k.locked(), packages: d.packages() };
                proof {
                    assert(source_views(sources@.push(src)) =~= source_views(sources@).push(src@));
                }
                sources.push(src);
            },
        }
        i += 1;
    }
    proof {
        assert(files@.take(files@.len() as int) == files@);
    }
    Ok(sources)
}

/// Once a prefix of the files ends in an error, the whole collection fails with it.
proof fn lemma_collect_err(files: Seq<Result<DepFile, String>>, i: int)
    requires
        0 <= i < files.len(),
        files[i] is Err,
        collect_of(files.take(i)) is Ok,
    ensures
        collect_of(files) == Err::<Seq<SourceView>, Seq<char>>(files[i]->Err_0@),
    decreases files.len() - i,
{
    lemma_take_step(files, i);
    lemma_collect_err_extends(files, i + 1);
}

proof fn lemma_collect_err_extends(files: Seq<Result<DepFile, String>>, j: int)
    requires
        0 < j <= files.len(),
        collect_of(files.take(j)) is Err,
    ensures
        collect_of(files) == collect_of(files.take(j)),
    decreases files.len() - j,
{
    if j < files.len() {
        lemma_take_step(files, j);
        lemma_collect_err_extends(files, j + 1);
    } else {
        assert(files.take(j) == files);
    }
}

impl DepFile {
    pub fn kind(&self) -> (k: FileKind)
        ensures
            k == self.kind_of(),
    {
        match self {
            DepFile::CargoLock(_) => FileKind::CargoLock,
            DepFile::PnpmLock(_) => FileKind::PnpmLock,
            DepFile::YarnLock(_) => FileKind::YarnLock,
            DepFile::PackageLock(_) => FileKind::PackageLock,
            DepFile::PackageJson(_) => FileKind::PackageJson,
            DepFile::PoetryLock(_) => FileKind::PoetryLock,
            DepFile::UvLock(_) => FileKind::UvLock,
            DepFile::Requirements(_) => FileKind::Requirements,
            DepFile::GoSum(_) => FileKind::GoSum,
            DepFile::GoMod(_) => FileKind::GoMod,
        }
    }
}

// ---------------------------------------------------------------------------
// What every file gives
// ---------------------------------------------------------------------------

/// Every package of `s` belongs to the ecosystem `e`.
pub open spec fn all_in(s: Seq<PackageView>, e: Ecosystem) -> bool {
    forall|i: int| 0 <= i < s.len() ==> (#[trigger] s[i]).2 == e
}

proof fn lemma_all_in_push(s: Seq<PackageView>, p: PackageView, e: Ecosystem)
    requires
        all_in(s, e),
        p.2 == e,
    ensures
        all_in(s.push(p), e),
{
    assert forall|i: int| 0 <= i < s.push(p).len() implies (#[trigger] s.push(p)[i]).2 == e by {
        if i < s.len() {
            assert(s.push(p)[i] == s[i]);
        }
    }
}

proof fn lemma_all_in_concat(a: Seq<PackageView>, b: Seq<PackageView>, e: Ecosystem)
    requires
        all_in(a, e),
        all_in(b, e),
    ensures
        all_in(a + b, e),
{
    assert forall|i: int| 0 <= i < (a + b).len() implies (#[trigger] (a + b)[i]).2 == e by {
        if i < a.len() {
            assert((a + b)[i] == a[i]);
        } else {
            assert((a + b)[i] == b[i - a.len()]);
        }
    }
}

proof fn lemma_requirements_pypi(ls: Seq<Seq<char>>)
    ensures
        all_in(requirements_of(ls), Ecosystem::PyPI),
    decreases ls.len(),
{
    if ls.len() > 0 {
        lemma_requirements_pypi(ls.drop_last());
        if let Some((n, v)) = requirement_of(ls.last()) {
            lemma_all_in_push(requirements_of(ls.drop_last()), (n, v, Ecosystem::PyPI), Ecosystem::PyPI);
        }
    }
}

proof fn lemma_go_sum_go(ls: Seq<Seq<char>>)
    ensures
        all_in(go_sum_of(ls), Ecosystem::Go),
    decreases ls.len(),
{
    if ls.len() > 0 {
        lemma_go_sum_go(ls.drop_last());
        if let Some((m, v)) = go_sum_entry_of(ls.last()) {
            lemma_all_in_push(go_sum_of(ls.drop_last()), (m, v, Ecosystem::Go), Ecosystem::Go);
        }
    }
}

proof fn lemma_go_mod_go(ls: Seq<Seq<char>>)
    ensures
        all_in(go_mod_of(ls).1, Ecosystem::Go),
    decreases ls.len(),
{
    if ls.len() > 0 {
        lemma_go_mod_go(ls.drop_last());
        let prev = go_mod_of(ls.drop_last());
        if let Some((m, v)) = go_mod_step(prev.0, ls.last()).1 {
            lemma_all_in_push(prev.1, (m, v, Ecosystem::Go), Ecosystem::Go);
        }
    }
}

proof fn lemma_pnpm_npm(ls: Seq<Seq<char>>)
    ensures
        all_in(pnpm_lock_of(ls).1, Ecosystem::Npm),
    decreases ls.len(),
{
    if ls.len() > 0 {
        lemma_pnpm_npm(ls.drop_last());
        let prev = pnpm_lock_of(ls.drop_last());
        if let Some((n, v)) = pnpm_step(prev.0, ls.last()).1 {
            lemma_all_in_push(prev.1, (n, v, Ecosystem::Npm), Ecosystem::Npm);
        }
    }
}

proof fn lemma_yarn_npm(ls: Seq<Seq<char>>)
    ensures
        all_in(yarn_lock_of(ls).1, Ecosystem::Npm),
    decreases ls.len(),
{
    if ls.len() > 0 {
        lemma_yarn_npm(ls.drop_last());
        let prev = yarn_lock_of(ls.drop_last());
        if let Some((n, v)) = yarn_step(prev.0, ls.last()).1 {
            lemma_all_in_push(prev.1, (n, v, Ecosystem::Npm), Ecosystem::Npm);
        }
    }
}

proof fn lemma_lock_tables_in(items: Seq<TomlValue>, eco: Ecosystem)
    ensures
        all_in(lock_tables_of(items, eco), eco),
    decreases items.len(),
{
    if items.len() > 0 {
        lemma_lock_tables_in(items.drop_last(), eco);
        let t = items.last();
        if let (Some(n), Some(v)) = (toml_str(toml_get(t, "name"@)), toml_str(toml_get(t, "version"@))) {
            lemma_all_in_push(lock_tables_of(items.drop_last(), eco), (n, v, eco), eco);
        }
    }
}

proof fn lemma_npm_v2_npm(es: Seq<(String, JsonValue)>)
    ensures
        all_in(npm_v2_of(es), Ecosystem::Npm),
    decreases es.len(),
{
    if es.len() > 0 {
        lemma_npm_v2_npm(es.drop_last());
        if let Some(p) = npm_entry_of(es.last()) {
            lemma_all_in_push(npm_v2_of(es.drop_last()), p, Ecosystem::Npm);
        }
    }
}

proof fn lemma_npm_v1_dep_npm(name: String, val: JsonValue)
    ensures
        all_in(npm_v1_dep(name, val), Ecosystem::Npm),
    decreases val, 2int,
{
    match val {
        JsonValue::Object(fs) => {
            let own: Seq<PackageView> = match json_str(json_field(fs@, "version"@)) {
                Some(v) => seq![(name@, v, Ecosystem::Npm)],
                None => Seq::empty(),
            };
            lemma_npm_v1_nested_npm(fs@);
            lemma_all_in_concat(own, npm_v1_nested(fs@), Ecosystem::Npm);
        },
        _ => {},
    }
}

proof fn lemma_npm_v1_nested_npm(fs: Seq<(String, JsonValue)>)
    ensures
        all_in(npm_v1_nested(fs), Ecosystem::Npm),
    decreases fs, 1int,
{
    if fs.len() > 0 {
        if fs[0].0@ == "dependencies"@ {
            match fs[0].1 {
                JsonValue::Object(es) => lemma_npm_v1_list_npm(es@),
                _ => {},
            }
        } else {
            lemma_npm_v1_nested_npm(fs.subrange(1, fs.len() as int));
        }
    }
}

proof fn lemma_npm_v1_list_npm(es: Seq<(String, JsonValue)>)
    ensures
        all_in(npm_v1_list(es), Ecosystem::Npm),
    decreases es, 0int,
{
    if es.len() > 0 {
        lemma_npm_v1_list_npm(es.subrange(0, es.len() - 1));
        lemma_npm_v1_dep_npm(es[es.len() - 1].0, es[es.len() - 1].1);
        lemma_all_in_concat(
            npm_v1_list(es.subrange(0, es.len() - 1)),
            npm_v1_dep(es[es.len() - 1].0, es[es.len() - 1].1),
            Ecosystem::Npm,
        );
    }
}

proof fn lemma_manifest_npm(ds: Seq<(String, JsonValue)>)
    ensures
        all_in(manifest_deps_of(ds), Ecosystem::Npm),
    decreases ds.len(),
{
    if ds.len() > 0 {
        lemma_manifest_npm(ds.drop_last());
        if let JsonValue::Str(req) = ds.last().1 {
            if let Some(v) = clean_semver_of(req@) {
                lemma_all_in_push(
                    manifest_deps_of(ds.drop_last()),
                    (ds.last().0@, v, Ecosystem::Npm),
                    Ecosystem::Npm,
                );
            }
        }
    }
}

/// The ecosystem whose packages a kind of file lists.
pub open spec fn ecosystem_of_file(k: FileKind) -> Ecosystem {
    match k {
        FileKind::CargoLock => Ecosystem::CratesIo,
        FileKind::PnpmLock => Ecosystem::Npm,
        FileKind::YarnLock => Ecosystem::Npm,
        FileKind::PackageLock => Ecosystem::Npm,
        FileKind::PackageJson => Ecosystem::Npm,
        FileKind::PoetryLock => Ecosystem::PyPI,
        FileKind::UvLock => Ecosystem::PyPI,
        FileKind::Requirements => Ecosystem::PyPI,
        FileKind::GoSum => Ecosystem::Go,
        FileKind::GoMod => Ecosystem::Go,
    }
}

/// Every package a dependency file gives belongs to the ecosystem of its
/// kind of file: Cargo.lock to crates.io; pnpm-lock.yaml, yarn.lock,
/// package-lock.json and package.json to npm; poetry.lock, uv.lock and
/// requirements.txt to PyPI; go.sum and go.mod to Go.
pub proof fn law_packages_belong_to_their_ecosystem(d: DepFile)
    ensures
        forall|i: int| 0 <= i < d.packages_of().len() ==> (#[trigger] d.packages_of()[i]).2
            == ecosystem_of_file(d.kind_of()),
{
    match d {
        DepFile::CargoLock(doc) => {
            if let Some(TomlValue::Array(items)) = toml_get(doc, "package"@) {
                lemma_lock_tables_in(items@, Ecosystem::CratesIo);
            }
        },
        DepFile::PoetryLock(doc) => {
            if let Some(TomlValue::Array(items)) = toml_get(doc, "package"@) {
                lemma_lock_tables_in(items@, Ecosystem::PyPI);
            }
        },
        DepFile::UvLock(doc) => {
            if let Some(TomlValue::Array(items)) = toml_get(doc, "package"@) {
                lemma_lock_tables_in(items@, Ecosystem::PyPI);
            }
        },
        DepFile::PnpmLock(t) => lemma_pnpm_npm(text::lines(t@)),
        DepFile::YarnLock(t) => lemma_yarn_npm(text::lines(t@)),
        DepFile::Requirements(t) => lemma_requirements_pypi(text::lines(t@)),
        DepFile::GoSum(t) => lemma_go_sum_go(text::lines(t@)),
        DepFile::GoMod(t) => lemma_go_mod_go(text::lines(t@)),
        DepFile::PackageLock(doc) => {
            lemma_npm_v2_npm(json_members(json_get(doc, "packages"@)));
            if let JsonValue::Object(fs) = doc {
                lemma_npm_v1_nested_npm(fs@);
            }
        },
        DepFile::PackageJson(doc) => {
            let a = manifest_deps_of(json_members(json_get(doc, "dependencies"@)));
            let b = manifest_deps_of(json_members(json_get(doc, "devDependencies"@)));
            let c = manifest_deps_of(json_members(json_get(doc, "optionalDependencies"@)));
            lemma_manifest_npm(json_members(json_get(doc, "dependencies"@)));
            lemma_manifest_npm(json_members(json_get(doc, "devDependencies"@)));
            lemma_manifest_npm(json_members(json_get(doc, "optionalDependencies"@)));
            lemma_all_in_concat(a, b, Ecosystem::Npm);
            lemma_all_in_concat(a + b, c, Ecosystem::Npm);
        },
    }
}

/// The lockfiles, which give the fully resolved tree, are Cargo.lock,
/// pnpm-lock.yaml, yarn.lock, package-lock.json, poetry.lock, uv.lock and
/// go.sum; package.json, requirements.txt and go.mod are manifests of direct
/// dependencies. The source a file gives is flagged accordingly.
pub proof fn law_lockfiles_are_resolved(k: FileKind, d: DepFile)
    ensures
        k.is_lockfile() <==> (k == FileKind::CargoLock || k == FileKind::PnpmLock || k == FileKind::YarnLock
            || k == FileKind::PackageLock || k == FileKind::PoetryLock || k == FileKind::UvLock || k
            == FileKind::GoSum),
        !k.is_lockfile() <==> (k == FileKind::PackageJson || k == FileKind::Requirements || k
            == FileKind::GoMod),
        source_of(d).1 <==> !(d is PackageJson || d is Requirements || d is GoMod),
{
}

/// Keys of modules without an `@` tell module and version apart.
proof fn lemma_go_key_injective(m: Seq<char>, v: Seq<char>, m2: Seq<char>, v2: Seq<char>)
    requires
        !m.contains('@'),
        !m2.contains('@'),
        go_key(m, v) == go_key(m2, v2),
    ensures
        m == m2,
        v == v2,
{
    reveal_strlit("@");
    let a = go_key(m, v);
    assert(a == go_key(m2, v2));
    if m.len() < m2.len() {
        assert(a[m.len() as int] == '@');
        assert(a[m.len() as int] == m2[m.len() as int]);
    } else if m2.len() < m.len() {
        assert(a[m2.len() as int] == '@');
        assert(a[m2.len() as int] == m[m2.len() as int]);
    }
    assert(m =~= a.take(m.len() as int));
    assert(m2 =~= a.take(m2.len() as int));
    assert(v =~= a.skip(m.len() + 1int));
    assert(v2 =~= a.skip(m2.len() + 1int));
}

/// Every package of a go.sum comes from the module and version of one of its lines.
proof fn lemma_go_sum_from_lines(ls: Seq<Seq<char>>)
    ensures
        forall|i: int| 0 <= i < go_sum_of(ls).len() ==> exists|k: int|
            0 <= k < ls.len() && go_sum_entry_of(#[trigger] ls[k]) == Some(
                ((#[trigger] go_sum_of(ls)[i]).0, go_sum_of(ls)[i].1),
            ),
    decreases ls.len(),
{
    if ls.len() > 0 {
        let pl = ls.drop_last();
        lemma_go_sum_from_lines(pl);
        let prev = go_sum_of(pl);
        assert forall|i: int| 0 <= i < go_sum_of(ls).len() implies exists|k: int|
            0 <= k < ls.len() && go_sum_entry_of(#[trigger] ls[k]) == Some(
                ((#[trigger] go_sum_of(ls)[i]).0, go_sum_of(ls)[i].1),
            ) by {
            if i < prev.len() {
                assert(go_sum_of(ls)[i] == prev[i]);
                let k = choose|k: int|
                    0 <= k < pl.len() && go_sum_entry_of(#[trigger] pl[k]) == Some((prev[i].0, prev[i].1));
                assert(ls[k] == pl[k]);
            } else {
                assert(go_sum_entry_of(ls[ls.len() - 1]) == Some((go_sum_of(ls)[i].0, go_sum_of(ls)[i].1)));
            }
        }
    }
}

/// Every go.sum line that names a module and a version (not a `/go.mod`
/// hash line) has its package in the result: entries are told apart by
/// module and version together, so two versions of one module are both
/// kept. (Stated for modules without an `@`, as Go module paths are.)
pub proof fn law_go_sum_keeps_each_module_version(ls: Seq<Seq<char>>)
    requires
        forall|k: int|
            0 <= k < ls.len() ==> (go_sum_entry_of(#[trigger] ls[k]) matches Some((m, _)) ==> !m.contains('@')),
    ensures
        forall|k: int|
            0 <= k < ls.len() ==> (go_sum_entry_of(#[trigger] ls[k]) matches Some((m, v)) ==> go_sum_of(
                ls,
            ).contains((m, v, Ecosystem::Go))),
    decreases ls.len(),
{
    if ls.len() > 0 {
        let pl = ls.drop_last();
        assert forall|k: int| 0 <= k < pl.len() implies (go_sum_entry_of(#[trigger] pl[k]) matches Some((m, _))
            ==> !m.contains('@')) by {
            assert(pl[k] == ls[k]);
        }
        law_go_sum_keeps_each_module_version(pl);
        lemma_go_sum_from_lines(pl);
        let prev = go_sum_of(pl);
        let res = go_sum_of(ls);
        // The result keeps what the earlier lines gave.
        assert forall|x: PackageView| prev.contains(x) implies res.contains(x) by {
            let j = choose|j: int| 0 <= j < prev.len() && prev[j] == x;
            if let Some((m, v)) = go_sum_entry_of(ls.last()) {
                if !(exists|j2: int| 0 <= j2 < prev.len() && go_key_of(#[trigger] prev[j2]) == go_key(m, v)) {
                    assert(res[j] == x);
                }
            }
        }
        assert forall|k: int| 0 <= k < ls.len() implies (go_sum_entry_of(#[trigger] ls[k]) matches Some((m, v))
            ==> res.contains((m, v, Ecosystem::Go))) by {
            if let Some((m, v)) = go_sum_entry_of(ls[k]) {
                if k < pl.len() {
                    assert(pl[k] == ls[k]);
                    assert(prev.contains((m, v, Ecosystem::Go)));
                } else {
                    assert(k == ls.len() - 1);
                    if exists|j2: int| 0 <= j2 < prev.len() && go_key_of(#[trigger] prev[j2]) == go_key(m, v) {
                        let j2 = choose|j2: int| 0 <= j2 < prev.len() && go_key_of(#[trigger] prev[j2]) == go_key(m, v);
                        let k2 = choose|k2: int|
                            0 <= k2 < pl.len() && go_sum_entry_of(#[trigger] pl[k2]) == Some((prev[j2].0, prev[j2].1));
                        assert(pl[k2] == ls[k2]);
                        lemma_go_key_injective(prev[j2].0, prev[j2].1, m, v);
                        lemma_go_sum_go(pl);
                        assert(prev[j2] == (m, v, Ecosystem::Go));
                        assert(prev.contains((m, v, Ecosystem::Go)));
                    } else {
                        assert(res[prev.len() as int] == (m, v, Ecosystem::Go));
                    }
                }
            }
        }
    }
}

} // verus!
