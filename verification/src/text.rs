//! Character-level text helpers with their specifications.
//!
//! Text is handled as sequences of `char`s. The spec functions here state what
//! the usual string operations (trimming, searching, splitting into lines and
//! whitespace-separated tokens) compute, and the executable functions below
//! are proved to compute exactly that.

use vstd::prelude::*;

verus! {

/// `String::push` (std): appends the one character `ch` to `s`, as its
/// documentation says; nothing else of `s` changes.
pub assume_specification[ String::push ](s: &mut String, ch: char)
    ensures
        final(s)@ == old(s)@.push(ch),
;

// ---------------------------------------------------------------------------
// Character classes
// ---------------------------------------------------------------------------

/// Unicode `White_Space`, the class that `char::is_whitespace` and `str::trim` use.
pub open spec fn is_ws(c: char) -> bool {
    ||| ('\t' <= c && c <= '\r')
    ||| c == ' '
    ||| c == '\u{85}'
    ||| c == '\u{a0}'
    ||| c == '\u{1680}'
    ||| ('\u{2000}' <= c && c <= '\u{200a}')
    ||| c == '\u{2028}'
    ||| c == '\u{2029}'
    ||| c == '\u{202f}'
    ||| c == '\u{205f}'
    ||| c == '\u{3000}'
}

pub open spec fn is_digit(c: char) -> bool {
    '0' <= c && c <= '9'
}

pub open spec fn is_ascii_alnum(c: char) -> bool {
    ||| is_digit(c)
    ||| ('a' <= c && c <= 'z')
    ||| ('A' <= c && c <= 'Z')
}

pub open spec fn ws() -> spec_fn(char) -> bool {
    |c: char| is_ws(c)
}

pub open spec fn non_ws() -> spec_fn(char) -> bool {
    |c: char| !is_ws(c)
}

pub open spec fn negate(p: spec_fn(char) -> bool) -> spec_fn(char) -> bool {
    |c: char| !p(c)
}

pub open spec fn digit() -> spec_fn(char) -> bool {
    |c: char| is_digit(c)
}

pub open spec fn is_char(x: char) -> spec_fn(char) -> bool {
    |c: char| c == x
}

pub open spec fn not_char(x: char) -> spec_fn(char) -> bool {
    |c: char| c != x
}

pub fn char_is_ws(c: char) -> (r: bool)
    ensures
        r == is_ws(c),
{
    ('\t' <= c && c <= '\r') || c == ' ' || c == '\u{85}' || c == '\u{a0}' || c == '\u{1680}'
        || ('\u{2000}' <= c && c <= '\u{200a}') || c == '\u{2028}' || c == '\u{2029}' || c
        == '\u{202f}' || c == '\u{205f}' || c == '\u{3000}'
}

pub fn char_is_digit(c: char) -> (r: bool)
    ensures
        r == is_digit(c),
{
    '0' <= c && c <= '9'
}

pub fn char_is_ascii_alnum(c: char) -> (r: bool)
    ensures
        r == is_ascii_alnum(c),
{
    ('0' <= c && c <= '9') || ('a' <= c && c <= 'z') || ('A' <= c && c <= 'Z')
}

// ---------------------------------------------------------------------------
// Searching
// ---------------------------------------------------------------------------

/// `i` is the first position of `s` whose character satisfies `p`.
pub open spec fn is_first(s: Seq<char>, p: spec_fn(char) -> bool, i: int) -> bool {
    &&& 0 <= i < s.len()
    &&& p(s[i])
    &&& forall|j: int| 0 <= j < i ==> !p(#[trigger] s[j])
}

/// `i` is the last position of `s` whose character satisfies `p`.
pub open spec fn is_last(s: Seq<char>, p: spec_fn(char) -> bool, i: int) -> bool {
    &&& 0 <= i < s.len()
    &&& p(s[i])
    &&& forall|j: int| i < j < s.len() ==> !p(#[trigger] s[j])
}

/// The first position whose character satisfies `p`, if any.
pub open spec fn first_where(s: Seq<char>, p: spec_fn(char) -> bool) -> Option<int> {
    if exists|i: int| is_first(s, p, i) {
        Some(choose|i: int| is_first(s, p, i))
    } else {
        None
    }
}

/// The last position whose character satisfies `p`, if any.
pub open spec fn last_where(s: Seq<char>, p: spec_fn(char) -> bool) -> Option<int> {
    if exists|i: int| is_last(s, p, i) {
        Some(choose|i: int| is_last(s, p, i))
    } else {
        None
    }
}

pub proof fn lemma_first_where_is(s: Seq<char>, p: spec_fn(char) -> bool, i: int)
    requires
        is_first(s, p, i),
    ensures
        first_where(s, p) == Some(i),
{
    let k = choose|k: int| is_first(s, p, k);
    assert(is_first(s, p, k));
    if k < i {
        assert(!p(s[k]));
    }
    if i < k {
        assert(!p(s[i]));
    }
}

pub proof fn lemma_first_where_none(s: Seq<char>, p: spec_fn(char) -> bool)
    requires
        forall|j: int| 0 <= j < s.len() ==> !p(#[trigger] s[j]),
    ensures
        first_where(s, p) == None::<int>,
{
    if exists|i: int| is_first(s, p, i) {
        let k = choose|k: int| is_first(s, p, k);
        assert(p(s[k]));
    }
}

pub proof fn lemma_first_where_some(s: Seq<char>, p: spec_fn(char) -> bool)
    ensures
        first_where(s, p) matches Some(i) ==> is_first(s, p, i),
{
}

pub proof fn lemma_last_where_is(s: Seq<char>, p: spec_fn(char) -> bool, i: int)
    requires
        is_last(s, p, i),
    ensures
        last_where(s, p) == Some(i),
{
    let k = choose|k: int| is_last(s, p, k);
    assert(is_last(s, p, k));
    if k < i {
        assert(!p(s[i]));
    }
    if i < k {
        assert(!p(s[k]));
    }
}

pub proof fn lemma_last_where_none(s: Seq<char>, p: spec_fn(char) -> bool)
    requires
        forall|j: int| 0 <= j < s.len() ==> !p(#[trigger] s[j]),
    ensures
        last_where(s, p) == None::<int>,
{
    if exists|i: int| is_last(s, p, i) {
        let k = choose|k: int| is_last(s, p, k);
        assert(p(s[k]));
    }
}

/// Some position satisfies `p`, so there is a first one.
pub proof fn lemma_first_where_exists(s: Seq<char>, p: spec_fn(char) -> bool, j: int)
    requires
        0 <= j < s.len(),
        p(s[j]),
    ensures
        first_where(s, p) is Some,
{
    lemma_first_index_from(s, p, j);
    lemma_first_where_is(s, p, first_index_from(s, p, j));
}

/// An `Option<usize>` read as an `Option<int>`.
pub open spec fn opt_int(r: Option<usize>) -> Option<int> {
    match r {
        Some(i) => Some(i as int),
        None => None,
    }
}

/// Position of the first character on which `f` holds, where `f` decides `p`.
pub fn find_by<F: Fn(char) -> bool>(s: &[char], f: F, Ghost(p): Ghost<spec_fn(char) -> bool>) -> (r:
    Option<usize>)
    requires
        forall|c: char| #[trigger] f.requires((c,)),
        forall|c: char, b: bool| f.ensures((c,), b) ==> b == p(c),
    ensures
        opt_int(r) == first_where(s@, p),
{
    let mut i: usize = 0;
    while i < s.len()
        invariant
            i <= s@.len(),
            forall|c: char| #[trigger] f.requires((c,)),
            forall|c: char, b: bool| f.ensures((c,), b) ==> b == p(c),
            forall|j: int| 0 <= j < i ==> !p(#[trigger] s@[j]),
        decreases s.len() - i,
    {
        if f(s[i]) {
            proof {
                lemma_first_where_is(s@, p, i as int);
            }
            return Some(i);
        }
        i += 1;
    }
    proof {
        lemma_first_where_none(s@, p);
    }
    None
}

/// The longest prefix of `s` on whose characters `p` holds.
pub open spec fn prefix_while(s: Seq<char>, p: spec_fn(char) -> bool) -> Seq<char> {
    match first_where(s, negate(p)) {
        Some(i) => s.take(i),
        None => s,
    }
}

/// Position of the first occurrence of `c`.
pub fn find_char(s: &[char], c: char) -> (r: Option<usize>)
    ensures
        opt_int(r) == first_where(s@, is_char(c)),
{
    let mut i: usize = 0;
    while i < s.len()
        invariant
            i <= s@.len(),
            forall|j: int| 0 <= j < i ==> !is_char(c)(#[trigger] s@[j]),
        decreases s.len() - i,
    {
        if s[i] == c {
            proof {
                lemma_first_where_is(s@, is_char(c), i as int);
            }
            return Some(i);
        }
        i += 1;
    }
    proof {
        lemma_first_where_none(s@, is_char(c));
    }
    None
}

/// Position of the last occurrence of `c`.
pub fn rfind_char(s: &[char], c: char) -> (r: Option<usize>)
    ensures
        opt_int(r) == last_where(s@, is_char(c)),
{
    let mut i: usize = s.len();
    while i > 0
        invariant
            i <= s@.len(),
            forall|j: int| i <= j < s@.len() ==> !is_char(c)(#[trigger] s@[j]),
        decreases i,
    {
        if s[i - 1] == c {
            proof {
                lemma_last_where_is(s@, is_char(c), i - 1);
            }
            return Some(i - 1);
        }
        i -= 1;
    }
    proof {
        lemma_last_where_none(s@, is_char(c));
    }
    None
}

/// Position of the first character that differs from `c`.
pub fn find_not_char(s: &[char], c: char) -> (r: Option<usize>)
    ensures
        opt_int(r) == first_where(s@, not_char(c)),
{
    let mut i: usize = 0;
    while i < s.len()
        invariant
            i <= s@.len(),
            forall|j: int| 0 <= j < i ==> !not_char(c)(#[trigger] s@[j]),
        decreases s.len() - i,
    {
        if s[i] != c {
            proof {
                lemma_first_where_is(s@, not_char(c), i as int);
            }
            return Some(i);
        }
        i += 1;
    }
    proof {
        lemma_first_where_none(s@, not_char(c));
    }
    None
}

/// Position of the last character that differs from `c`.
pub fn rfind_not_char(s: &[char], c: char) -> (r: Option<usize>)
    ensures
        opt_int(r) == last_where(s@, not_char(c)),
{
    let mut i: usize = s.len();
    while i > 0
        invariant
            i <= s@.len(),
            forall|j: int| i <= j < s@.len() ==> !not_char(c)(#[trigger] s@[j]),
        decreases i,
    {
        if s[i - 1] != c {
            proof {
                lemma_last_where_is(s@, not_char(c), i - 1);
            }
            return Some(i - 1);
        }
        i -= 1;
    }
    proof {
        lemma_last_where_none(s@, not_char(c));
    }
    None
}

/// Position of the first whitespace character.
pub fn find_ws(s: &[char]) -> (r: Option<usize>)
    ensures
        opt_int(r) == first_where(s@, ws()),
{
    let mut i: usize = 0;
    while i < s.len()
        invariant
            i <= s@.len(),
            forall|j: int| 0 <= j < i ==> !ws()(#[trigger] s@[j]),
        decreases s.len() - i,
    {
        if char_is_ws(s[i]) {
            proof {
                lemma_first_where_is(s@, ws(), i as int);
            }
            return Some(i);
        }
        i += 1;
    }
    proof {
        lemma_first_where_none(s@, ws());
    }
    None
}

/// Position of the first character that is not whitespace.
pub fn find_non_ws(s: &[char]) -> (r: Option<usize>)
    ensures
        opt_int(r) == first_where(s@, non_ws()),
{
    let mut i: usize = 0;
    while i < s.len()
        invariant
            i <= s@.len(),
            forall|j: int| 0 <= j < i ==> !non_ws()(#[trigger] s@[j]),
        decreases s.len() - i,
    {
        if !char_is_ws(s[i]) {
            proof {
                lemma_first_where_is(s@, non_ws(), i as int);
            }
            return Some(i);
        }
        i += 1;
    }
    proof {
        lemma_first_where_none(s@, non_ws());
    }
    None
}

/// Position of the last character that is not whitespace.
pub fn rfind_non_ws(s: &[char]) -> (r: Option<usize>)
    ensures
        opt_int(r) == last_where(s@, non_ws()),
{
    let mut i: usize = s.len();
    while i > 0
        invariant
            i <= s@.len(),
            forall|j: int| i <= j < s@.len() ==> !non_ws()(#[trigger] s@[j]),
        decreases i,
    {
        if !char_is_ws(s[i - 1]) {
            proof {
                lemma_last_where_is(s@, non_ws(), i - 1);
            }
            return Some(i - 1);
        }
        i -= 1;
    }
    proof {
        lemma_last_where_none(s@, non_ws());
    }
    None
}

// ---------------------------------------------------------------------------
// Trimming
// ---------------------------------------------------------------------------

/// `s` without leading whitespace (`str::trim_start`).
pub open spec fn trim_start(s: Seq<char>) -> Seq<char> {
    match first_where(s, non_ws()) {
        Some(i) => s.skip(i),
        None => Seq::empty(),
    }
}

/// `s` without trailing whitespace (`str::trim_end`).
pub open spec fn trim_end(s: Seq<char>) -> Seq<char> {
    match last_where(s, non_ws()) {
        Some(i) => s.take(i + 1),
        None => Seq::empty(),
    }
}

/// `s` without leading and trailing whitespace (`str::trim`).
pub open spec fn trim(s: Seq<char>) -> Seq<char> {
    match (first_where(s, non_ws()), last_where(s, non_ws())) {
        (Some(a), Some(b)) => s.subrange(a, b + 1),
        _ => Seq::empty(),
    }
}

/// `s` without leading and trailing copies of `c` (`str::trim_matches` with a char).
pub open spec fn trim_matches(s: Seq<char>, c: char) -> Seq<char> {
    match (first_where(s, not_char(c)), last_where(s, not_char(c))) {
        (Some(a), Some(b)) => s.subrange(a, b + 1),
        _ => Seq::empty(),
    }
}

/// `s` without leading copies of `c` (`str::trim_start_matches` with a char).
pub open spec fn trim_start_matches(s: Seq<char>, c: char) -> Seq<char> {
    match first_where(s, not_char(c)) {
        Some(i) => s.skip(i),
        None => Seq::empty(),
    }
}

proof fn lemma_first_le_last(s: Seq<char>, p: spec_fn(char) -> bool)
    ensures
        first_where(s, p) is Some <==> last_where(s, p) is Some,
        first_where(s, p) is Some ==> first_where(s, p)->0 <= last_where(s, p)->0,
{
    if let Some(a) = first_where(s, p) {
        lemma_first_where_some(s, p);
        if last_where(s, p) is None {
            // find the last one from a
            assert(p(s[a]));
            assert(is_last(s, p, last_index_from(s, p, a))) by {
                lemma_last_index_from(s, p, a);
            }
            lemma_last_where_is(s, p, last_index_from(s, p, a));
        }
        let b = last_where(s, p)->0;
        assert(is_last(s, p, b));
        if b < a {
            assert(!p(s[a]));
        }
    } else {
        if let Some(b) = last_where(s, p) {
            assert(is_last(s, p, b));
            assert(is_first(s, p, first_index_from(s, p, b))) by {
                lemma_first_index_from(s, p, b);
            }
            lemma_first_where_is(s, p, first_index_from(s, p, b));
        }
    }
}

/// The last position at or after `a` satisfying `p`, given that `a` does.
spec fn last_index_from(s: Seq<char>, p: spec_fn(char) -> bool, a: int) -> int
    decreases s.len() - a,
{
    if a + 1 >= s.len() {
        a
    } else if exists|j: int| a < j < s.len() && p(s[j]) {
        let j = choose|j: int| a < j < s.len() && p(s[j]);
        if j > a {
            last_index_from(s, p, j)
        } else {
            a
        }
    } else {
        a
    }
}

proof fn lemma_last_index_from(s: Seq<char>, p: spec_fn(char) -> bool, a: int)
    requires
        0 <= a < s.len(),
        p(s[a]),
    ensures
        is_last(s, p, last_index_from(s, p, a)),
    decreases s.len() - a,
{
    if a + 1 >= s.len() {
    } else if exists|j: int| a < j < s.len() && p(s[j]) {
        let j = choose|j: int| a < j < s.len() && p(s[j]);
        lemma_last_index_from(s, p, j);
    } else {
    }
}

/// The first position at or before `b` satisfying `p`, given that `b` does.
spec fn first_index_from(s: Seq<char>, p: spec_fn(char) -> bool, b: int) -> int
    decreases b,
{
    if b <= 0 {
        b
    } else if exists|j: int| 0 <= j < b && p(s[j]) {
        let j = choose|j: int| 0 <= j < b && p(s[j]);
        if j < b {
            first_index_from(s, p, j)
        } else {
            b
        }
    } else {
        b
    }
}

proof fn lemma_first_index_from(s: Seq<char>, p: spec_fn(char) -> bool, b: int)
    requires
        0 <= b < s.len(),
        p(s[b]),
    ensures
        is_first(s, p, first_index_from(s, p, b)),
    decreases b,
{
    if b <= 0 {
    } else if exists|j: int| 0 <= j < b && p(s[j]) {
        let j = choose|j: int| 0 <= j < b && p(s[j]);
        lemma_first_index_from(s, p, j);
    } else {
    }
}

/// `str::trim`.
pub fn trim_chars(s: &[char]) -> (r: &[char])
    ensures
        r@ == trim(s@),
{
    proof {
        lemma_first_le_last(s@, non_ws());
    }
    match find_non_ws(s) {
        Some(a) => {
            let b = rfind_non_ws(s).unwrap();
            proof {
                lemma_last_where_some(s@, non_ws());
                assert(is_last(s@, non_ws(), b as int));
            }
            let n = s.len();
            &s[a..b + 1]
        },
        None => &s[0..0],
    }
}

pub proof fn lemma_last_where_some(s: Seq<char>, p: spec_fn(char) -> bool)
    ensures
        last_where(s, p) matches Some(i) ==> is_last(s, p, i),
{
}

/// `str::trim_start`.
pub fn trim_start_chars(s: &[char]) -> (r: &[char])
    ensures
        r@ == trim_start(s@),
{
    match find_non_ws(s) {
        Some(a) => {
            proof {
                lemma_first_where_some(s@, non_ws());
            }
            &s[a..s.len()]
        },
        None => &s[0..0],
    }
}

/// `str::trim_end`.
pub fn trim_end_chars(s: &[char]) -> (r: &[char])
    ensures
        r@ == trim_end(s@),
{
    match rfind_non_ws(s) {
        Some(b) => {
            proof {
                lemma_last_where_some(s@, non_ws());
                assert(is_last(s@, non_ws(), b as int));
            }
            let n = s.len();
            &s[0..b + 1]
        },
        None => &s[0..0],
    }
}

/// `str::trim_matches` with a single character.
pub fn trim_matches_chars(s: &[char], c: char) -> (r: &[char])
    ensures
        r@ == trim_matches(s@, c),
{
    proof {
        lemma_first_le_last(s@, not_char(c));
    }
    match find_not_char(s, c) {
        Some(a) => {
            let b = rfind_not_char(s, c).unwrap();
            proof {
                lemma_last_where_some(s@, not_char(c));
                assert(is_last(s@, not_char(c), b as int));
            }
            let n = s.len();
            &s[a..b + 1]
        },
        None => &s[0..0],
    }
}

/// `str::trim_start_matches` with a single character.
pub fn trim_start_matches_chars(s: &[char], c: char) -> (r: &[char])
    ensures
        r@ == trim_start_matches(s@, c),
{
    match find_not_char(s, c) {
        Some(a) => {
            proof {
                lemma_first_where_some(s@, not_char(c));
            }
            &s[a..s.len()]
        },
        None => &s[0..0],
    }
}

// ---------------------------------------------------------------------------
// Conversions
// ---------------------------------------------------------------------------

/// The characters of `s`, in order.
pub fn chars_of(s: &str) -> (v: Vec<char>)
    ensures
        v@ == s@,
{
    let mut v: Vec<char> = Vec::new();
    for c in it: s.chars()
        invariant
            v@ == it.seq().take(it.index() as int),
    {
        v.push(c);
    }
    v
}

/// A string holding the characters of `s`.
pub fn string_of(s: &[char]) -> (r: String)
    ensures
        r@ == s@,
{
    let mut r = String::new();
    let mut i: usize = 0;
    while i < s.len()
        invariant
            i <= s@.len(),
            r@ == s@.take(i as int),
        decreases s.len() - i,
    {
        r.push(s[i]);
        i += 1;
        proof {
            assert(s@.take(i as int) == s@.take(i - 1).push(s@[i - 1]));
        }
    }
    proof {
        assert(s@.take(s@.len() as int) == s@);
    }
    r
}


// ---------------------------------------------------------------------------
// Prefixes, suffixes and substrings
// ---------------------------------------------------------------------------

pub open spec fn starts_with(s: Seq<char>, p: Seq<char>) -> bool {
    p.len() <= s.len() && s.take(p.len() as int) == p
}

pub open spec fn ends_with(s: Seq<char>, p: Seq<char>) -> bool {
    p.len() <= s.len() && s.skip(s.len() - p.len()) == p
}

/// `str::strip_prefix`.
pub open spec fn strip_prefix(s: Seq<char>, p: Seq<char>) -> Option<Seq<char>> {
    if starts_with(s, p) {
        Some(s.skip(p.len() as int))
    } else {
        None
    }
}

/// `str::strip_suffix`.
pub open spec fn strip_suffix(s: Seq<char>, p: Seq<char>) -> Option<Seq<char>> {
    if ends_with(s, p) {
        Some(s.take(s.len() - p.len()))
    } else {
        None
    }
}

/// `p` occurs in `s` starting at position `i`.
pub open spec fn occurs_at(s: Seq<char>, p: Seq<char>, i: int) -> bool {
    0 <= i && i + p.len() <= s.len() && s.subrange(i, i + p.len()) == p
}

pub open spec fn is_first_occ(s: Seq<char>, p: Seq<char>, i: int) -> bool {
    occurs_at(s, p, i) && forall|j: int| 0 <= j < i ==> !#[trigger] occurs_at(s, p, j)
}

pub open spec fn is_last_occ(s: Seq<char>, p: Seq<char>, i: int) -> bool {
    occurs_at(s, p, i) && forall|j: int| i < j ==> !#[trigger] occurs_at(s, p, j)
}

/// Position of the first occurrence of `p` in `s` (`str::find` with a string).
pub open spec fn find_seq(s: Seq<char>, p: Seq<char>) -> Option<int> {
    if exists|i: int| is_first_occ(s, p, i) {
        Some(choose|i: int| is_first_occ(s, p, i))
    } else {
        None
    }
}

/// Position of the last occurrence of `p` in `s` (`str::rfind` with a string).
pub open spec fn rfind_seq(s: Seq<char>, p: Seq<char>) -> Option<int> {
    if exists|i: int| is_last_occ(s, p, i) {
        Some(choose|i: int| is_last_occ(s, p, i))
    } else {
        None
    }
}

/// The part of `s` before the first `c` (the first piece of `str::split`).
pub open spec fn before_char(s: Seq<char>, c: char) -> Seq<char> {
    match first_where(s, is_char(c)) {
        Some(i) => s.take(i),
        None => s,
    }
}

/// The part of `s` before the first occurrence of `p` (the first piece of `str::split`).
pub open spec fn before_seq(s: Seq<char>, p: Seq<char>) -> Seq<char> {
    match find_seq(s, p) {
        Some(i) => s.take(i),
        None => s,
    }
}

/// The part of `s` after the last occurrence of `p` (the first piece of `str::rsplit`).
pub open spec fn after_last_seq(s: Seq<char>, p: Seq<char>) -> Seq<char> {
    match rfind_seq(s, p) {
        Some(i) => s.skip(i + p.len()),
        None => s,
    }
}

/// Equality of two character slices.
pub fn chars_eq(a: &[char], b: &[char]) -> (r: bool)
    ensures
        r == (a@ == b@),
{
    if a.len() != b.len() {
        return false;
    }
    let mut i: usize = 0;
    while i < a.len()
        invariant
            a@.len() == b@.len(),
            i <= a@.len(),
            forall|j: int| 0 <= j < i ==> a@[j] == b@[j],
        decreases a.len() - i,
    {
        if a[i] != b[i] {
            return false;
        }
        i += 1;
    }
    proof {
        assert(a@ =~= b@);
    }
    true
}

/// `p` occurs in `s` at position `i`.
pub fn occurs_at_chars(s: &[char], p: &[char], i: usize) -> (r: bool)
    ensures
        r == occurs_at(s@, p@, i as int),
{
    if i > s.len() || p.len() > s.len() - i {
        return false;
    }
    chars_eq(&s[i..i + p.len()], p)
}

pub fn starts_with_chars(s: &[char], p: &[char]) -> (r: bool)
    ensures
        r == starts_with(s@, p@),
{
    occurs_at_chars(s, p, 0)
}

pub fn ends_with_chars(s: &[char], p: &[char]) -> (r: bool)
    ensures
        r == ends_with(s@, p@),
{
    if p.len() > s.len() {
        return false;
    }
    let r = occurs_at_chars(s, p, s.len() - p.len());
    proof {
        assert(s@.skip(s@.len() - p@.len()) == s@.subrange(s@.len() - p@.len(), s@.len() as int));
    }
    r
}

pub fn strip_prefix_chars<'a>(s: &'a [char], p: &[char]) -> (r: Option<&'a [char]>)
    ensures
        match r {
            Some(x) => strip_prefix(s@, p@) == Some(x@),
            None => strip_prefix(s@, p@) is None,
        },
{
    if starts_with_chars(s, p) {
        Some(&s[p.len()..s.len()])
    } else {
        None
    }
}

pub fn strip_suffix_chars<'a>(s: &'a [char], p: &[char]) -> (r: Option<&'a [char]>)
    ensures
        match r {
            Some(x) => strip_suffix(s@, p@) == Some(x@),
            None => strip_suffix(s@, p@) is None,
        },
{
    if ends_with_chars(s, p) {
        Some(&s[0..s.len() - p.len()])
    } else {
        None
    }
}

/// Position of the first occurrence of `p`.
pub fn find_chars(s: &[char], p: &[char]) -> (r: Option<usize>)
    ensures
        opt_int(r) == find_seq(s@, p@),
{
    let n = s.len();
    let mut i: usize = 0;
    while i < n
        invariant
            n == s@.len(),
            i <= n,
            forall|j: int| 0 <= j < i ==> !#[trigger] occurs_at(s@, p@, j),
        decreases n - i,
    {
        if occurs_at_chars(s, p, i) {
            proof {
                lemma_first_occ_is(s@, p@, i as int);
            }
            return Some(i);
        }
        i += 1;
    }
    if occurs_at_chars(s, p, n) {
        proof {
            lemma_first_occ_is(s@, p@, n as int);
        }
        return Some(n);
    }
    proof {
        assert forall|j: int| !is_first_occ(s@, p@, j) by {
            if occurs_at(s@, p@, j) {
                assert(j <= n);
                if j < n {
                    assert(!occurs_at(s@, p@, j));
                }
            }
        }
    }
    None
}

proof fn lemma_first_occ_is(s: Seq<char>, p: Seq<char>, i: int)
    requires
        is_first_occ(s, p, i),
    ensures
        find_seq(s, p) == Some(i),
{
    let k = choose|k: int| is_first_occ(s, p, k);
    assert(is_first_occ(s, p, k));
    if k < i {
        assert(!occurs_at(s, p, k));
    }
    if i < k {
        assert(!occurs_at(s, p, i));
    }
}

proof fn lemma_last_occ_is(s: Seq<char>, p: Seq<char>, i: int)
    requires
        is_last_occ(s, p, i),
    ensures
        rfind_seq(s, p) == Some(i),
{
    let k = choose|k: int| is_last_occ(s, p, k);
    assert(is_last_occ(s, p, k));
    if k < i {
        assert(!occurs_at(s, p, i));
    }
    if i < k {
        assert(!occurs_at(s, p, k));
    }
}

/// Position of the last occurrence of `p`.
pub fn rfind_chars(s: &[char], p: &[char]) -> (r: Option<usize>)
    ensures
        opt_int(r) == rfind_seq(s@, p@),
{
    let n = s.len();
    let mut i: usize = n;
    while i > 0
        invariant
            n == s@.len(),
            i <= n,
            forall|j: int| i < j ==> !#[trigger] occurs_at(s@, p@, j),
        decreases i,
    {
        if occurs_at_chars(s, p, i) {
            proof {
                lemma_last_occ_is(s@, p@, i as int);
            }
            return Some(i);
        }
        i -= 1;
    }
    if occurs_at_chars(s, p, 0) {
        proof {
            lemma_last_occ_is(s@, p@, 0);
        }
        return Some(0);
    }
    proof {
        assert forall|j: int| !is_last_occ(s@, p@, j) by {
            if occurs_at(s@, p@, j) {
                if j > 0 {
                    assert(!occurs_at(s@, p@, j));
                }
            }
        }
    }
    None
}

pub fn before_char_chars(s: &[char], c: char) -> (r: &[char])
    ensures
        r@ == before_char(s@, c),
{
    match find_char(s, c) {
        Some(i) => {
            proof {
                lemma_first_where_some(s@, is_char(c));
            }
            &s[0..i]
        },
        None => s,
    }
}

pub fn before_seq_chars<'a>(s: &'a [char], p: &[char]) -> (r: &'a [char])
    ensures
        r@ == before_seq(s@, p@),
{
    match find_chars(s, p) {
        Some(i) => {
            proof {
                assert(is_first_occ(s@, p@, i as int));
            }
            &s[0..i]
        },
        None => s,
    }
}

pub fn after_last_seq_chars<'a>(s: &'a [char], p: &[char]) -> (r: &'a [char])
    ensures
        r@ == after_last_seq(s@, p@),
{
    match rfind_chars(s, p) {
        Some(i) => {
            proof {
                assert(is_last_occ(s@, p@, i as int));
            }
            let n = s.len();
            &s[i + p.len()..n]
        },
        None => s,
    }
}

// ---------------------------------------------------------------------------
// Lines and tokens
// ---------------------------------------------------------------------------

/// A line without its trailing carriage return.
pub open spec fn strip_cr(s: Seq<char>) -> Seq<char> {
    if s.len() > 0 && s.last() == '\r' {
        s.drop_last()
    } else {
        s
    }
}

/// The lines of `s`, as `str::lines` yields them: split at each `\n`, a
/// `\r` just before the `\n` dropped, and no empty last line after a final `\n`.
pub open spec fn lines(s: Seq<char>) -> Seq<Seq<char>>
    decreases s.len(),
{
    if s.len() == 0 {
        Seq::empty()
    } else {
        match first_where(s, is_char('\n')) {
            Some(i) => if 0 <= i < s.len() {
                seq![strip_cr(s.take(i))] + lines(s.skip(i + 1))
            } else {
                Seq::empty()
            },
            None => seq![s],
        }
    }
}

/// The character views of a sequence of slices.
pub open spec fn views(v: Seq<&[char]>) -> Seq<Seq<char>> {
    v.map_values(|x: &[char]| x@)
}

/// `str::lines`.
pub fn split_lines(s: &[char]) -> (r: Vec<&[char]>)
    ensures
        views(r@) == lines(s@),
{
    let mut r: Vec<&[char]> = Vec::new();
    let n = s.len();
    let mut pos: usize = 0;
    proof {
        assert(s@.skip(0) == s@);
        assert(views(r@) == Seq::<Seq<char>>::empty());
        assert(views(r@) + lines(s@) == lines(s@));
    }
    while pos < n
        invariant
            n == s@.len(),
            pos <= n,
            lines(s@) == views(r@) + lines(s@.skip(pos as int)),
        decreases n - pos,
    {
        let rest = &s[pos..n];
        assert(rest@ == s@.skip(pos as int));
        let ghost r0 = views(r@);
        match find_char(rest, '\n') {
            Some(j) => {
                proof {
                    lemma_first_where_some(rest@, is_char('\n'));
                }
                let mut line = &rest[0..j];
                if j > 0 && rest[j - 1] == '\r' {
                    line = &rest[0..j - 1];
                }
                assert(line@ == strip_cr(rest@.take(j as int)));
                r.push(line);
                assert(rest@.skip(j + 1) == s@.skip(pos + j + 1));
                assert(views(r@) == r0.push(line@));
                assert(lines(rest@) == seq![line@] + lines(rest@.skip(j + 1)));
                assert(r0 + lines(rest@) == views(r@) + lines(rest@.skip(j + 1)));
                pos = pos + j + 1;
            },
            None => {
                r.push(rest);
                assert(views(r@) == r0.push(rest@));
                assert(lines(rest@) == seq![rest@]);
                assert(s@.skip(n as int) == Seq::<char>::empty());
                assert(views(r@) + lines(s@.skip(n as int)) == views(r@));
                pos = n;
            },
        }
    }
    proof {
        assert(s@.skip(n as int) == Seq::<char>::empty());
        assert(views(r@) + Seq::<Seq<char>>::empty() == views(r@));
    }
    r
}

/// The first whitespace-separated token of `s` and what follows it
/// (one step of `str::split_whitespace`).
pub open spec fn next_token(s: Seq<char>) -> Option<(Seq<char>, Seq<char>)> {
    match first_where(s, non_ws()) {
        None => None,
        Some(a) => {
            let r = s.skip(a);
            match first_where(r, ws()) {
                Some(b) => Some((r.take(b), r.skip(b))),
                None => Some((r, Seq::empty())),
            }
        },
    }
}

/// The first two whitespace-separated tokens of `s`, if it has two.
pub open spec fn two_tokens(s: Seq<char>) -> Option<(Seq<char>, Seq<char>)> {
    match next_token(s) {
        Some((t1, rest)) => match next_token(rest) {
            Some((t2, _)) => Some((t1, t2)),
            None => None,
        },
        None => None,
    }
}

pub fn next_token_chars(s: &[char]) -> (r: Option<(&[char], &[char])>)
    ensures
        match r {
            Some((t, rest)) => next_token(s@) == Some((t@, rest@)),
            None => next_token(s@) is None,
        },
{
    match find_non_ws(s) {
        None => None,
        Some(a) => {
            proof {
                lemma_first_where_some(s@, non_ws());
            }
            let r = &s[a..s.len()];
            assert(r@ == s@.skip(a as int));
            match find_ws(r) {
                Some(b) => {
                    proof {
                        lemma_first_where_some(r@, ws());
                    }
                    Some((&r[0..b], &r[b..r.len()]))
                },
                None => {
                    let e: &[char] = &r[0..0];
                    assert(e@ == Seq::<char>::empty());
                    Some((r, e))
                },
            }
        },
    }
}

pub fn two_tokens_chars(s: &[char]) -> (r: Option<(&[char], &[char])>)
    ensures
        match r {
            Some((t1, t2)) => two_tokens(s@) == Some((t1@, t2@)),
            None => two_tokens(s@) is None,
        },
{
    match next_token_chars(s) {
        Some((t1, rest)) => match next_token_chars(rest) {
            Some((t2, _)) => Some((t1, t2)),
            None => None,
        },
        None => None,
    }
}

/// Number of UTF-8 bytes that encode `c`.
pub open spec fn utf8_len(c: char) -> nat {
    if (c as u32) < 0x80 {
        1
    } else if (c as u32) < 0x800 {
        2
    } else if (c as u32) < 0x10000 {
        3
    } else {
        4
    }
}

/// Number of UTF-8 bytes that encode `s`.
pub open spec fn byte_len(s: Seq<char>) -> nat
    decreases s.len(),
{
    if s.len() == 0 {
        0
    } else {
        byte_len(s.drop_last()) + utf8_len(s.last())
    }
}

/// Byte length of the leading whitespace of a line
/// (`line.len() - line.trim_start().len()`).
pub open spec fn indent(s: Seq<char>) -> nat {
    byte_len(s.take(s.len() - trim_start(s).len()))
}

proof fn lemma_byte_len_mono(s: Seq<char>, i: int, j: int)
    requires
        0 <= i <= j <= s.len(),
    ensures
        byte_len(s.take(i)) <= byte_len(s.take(j)),
    decreases j - i,
{
    if i < j {
        lemma_byte_len_mono(s, i, j - 1);
        assert(s.take(j).drop_last() == s.take(j - 1));
    }
}

/// The indentation of a line in bytes, counted up to 3 (callers only tell 0 and 2 apart
/// from the rest).
pub fn indent_capped(s: &[char]) -> (r: usize)
    ensures
        r == (if indent(s@) < 3 { indent(s@) } else { 3 }),
{
    let ghost k: int = s@.len() - trim_start(s@).len();
    let k_exec: usize = match find_non_ws(s) {
        Some(a) => {
            proof {
                lemma_first_where_some(s@, non_ws());
            }
            a
        },
        None => s.len(),
    };
    assert(k_exec == k);
    let mut sum: usize = 0;
    let mut i: usize = 0;
    while i < k_exec
        invariant
            k_exec == k,
            k == s@.len() - trim_start(s@).len(),
            0 <= k <= s@.len(),
            i <= k,
            sum == byte_len(s@.take(i as int)),
            sum < 3,
        decreases k_exec - i,
    {
        let c = s[i];
        let w: usize = if (c as u32) < 0x80 {
            1
        } else if (c as u32) < 0x800 {
            2
        } else if (c as u32) < 0x10000 {
            3
        } else {
            4
        };
        proof {
            assert(s@.take(i + 1).drop_last() == s@.take(i as int));
            assert(s@.take(i + 1).last() == c);
            assert(w == utf8_len(c));
            assert(byte_len(s@.take(i + 1)) == byte_len(s@.take(i as int)) + utf8_len(c));
        }
        i += 1;
        sum = sum + w;
        if sum >= 3 {
            proof {
                lemma_byte_len_mono(s@, i as int, k);
                assert(byte_len(s@.take(i as int)) >= 3);
                assert(indent(s@) == byte_len(s@.take(k)));
            }
            return 3;
        }
    }
    sum
}

// ---------------------------------------------------------------------------
// Numbers
// ---------------------------------------------------------------------------

pub open spec fn digit_char(d: nat) -> char {
    if d == 0 { '0' }
    else if d == 1 { '1' }
    else if d == 2 { '2' }
    else if d == 3 { '3' }
    else if d == 4 { '4' }
    else if d == 5 { '5' }
    else if d == 6 { '6' }
    else if d == 7 { '7' }
    else if d == 8 { '8' }
    else { '9' }
}

/// Decimal notation of `n`, as `{}` formats an unsigned integer.
pub open spec fn decimal(n: nat) -> Seq<char>
    decreases n,
{
    if n < 10 {
        seq![digit_char(n)]
    } else {
        decimal(n / 10).push(digit_char(n % 10))
    }
}

fn digit_of(d: usize) -> (c: char)
    requires
        d < 10,
    ensures
        c == digit_char(d as nat),
{
    if d == 0 { '0' }
    else if d == 1 { '1' }
    else if d == 2 { '2' }
    else if d == 3 { '3' }
    else if d == 4 { '4' }
    else if d == 5 { '5' }
    else if d == 6 { '6' }
    else if d == 7 { '7' }
    else if d == 8 { '8' }
    else { '9' }
}

/// Appends the decimal notation of `n`.
pub fn push_decimal(s: &mut String, n: usize)
    ensures
        final(s)@ == old(s)@ + decimal(n as nat),
    decreases n,
{
    if n >= 10 {
        push_decimal(s, n / 10);
    }
    s.push(digit_of(n % 10));
}

} // verus!
