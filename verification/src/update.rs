//! Self-update decisions: where updates come from, which release asset fits
//! this platform, whether a version is newer, and whether a download runs.
use vstd::prelude::*;
use crate::detect::Os;
use crate::paths::{file_name, file_name_of, join, joined, parent, parent_of};
use crate::view::{join_strings, join_with};
use crate::text::{
    decimal, decimal_string, views,
    chars_eq, chars_of, contains_chars, contains_text, debug_quoted, debug_string, lowercase, push_str,
    starts_with, starts_with_chars, string_of, to_lowercase, trim, trim_chars,
};

verus! {

// ---------------------------------------------------------------------------
// Splitting
// ---------------------------------------------------------------------------

/// Position of the first character of `s` that is one of `seps`, or -1.
pub open spec fn first_sep(s: Seq<char>, seps: Seq<char>) -> int
    decreases s.len(),
{
    if s.len() == 0 {
        -1
    } else if seps.contains(s[0]) {
        0
    } else {
        let r = first_sep(s.drop_first(), seps);
        if r < 0 {
            -1
        } else {
            r + 1
        }
    }
}

pub proof fn lemma_first_sep(s: Seq<char>, seps: Seq<char>)
    ensures
        -1 <= first_sep(s, seps) < s.len(),
        first_sep(s, seps) >= 0 ==> seps.contains(s[first_sep(s, seps)]),
        forall|i: int| 0 <= i < s.len() && (first_sep(s, seps) < 0 || i < first_sep(s, seps)) ==> !seps.contains(#[trigger] s[i]),
    decreases s.len(),
{
    if s.len() > 0 && !seps.contains(s[0]) {
        lemma_first_sep(s.drop_first(), seps);
        assert forall|i: int| 0 <= i < s.len() && (first_sep(s, seps) < 0 || i < first_sep(s, seps)) implies !seps.contains(#[trigger] s[i]) by {
            if i > 0 {
                assert(s[i] == s.drop_first()[i - 1]);
            }
        }
    }
}

/// `str::split` on any of the separator characters: always at least one
/// piece, empty pieces kept.
pub open spec fn split_on(s: Seq<char>, seps: Seq<char>) -> Seq<Seq<char>>
    decreases s.len(),
{
    let p = first_sep(s, seps);
    proof {
        lemma_first_sep(s, seps);
    }
    if p < 0 {
        seq![s]
    } else {
        seq![s.take(p)] + split_on(s.skip(p + 1), seps)
    }
}


/// `str::split` on characters.
pub fn split_chars(s: &[char], seps: &[char]) -> (out: Vec<Vec<char>>)
    ensures
        out@.map_values(|p: Vec<char>| p@) == split_on(s@, seps@),
{
    let mut out: Vec<Vec<char>> = Vec::new();
    let mut cur: Vec<char> = Vec::new();
    let mut i: usize = 0;
    assert(s@.skip(0) =~= s@);
    while i < s.len()
        invariant
            i <= s@.len(),
            split_on(s@, seps@) == out@.map_values(|p: Vec<char>| p@) + split_on(cur@ + s@.skip(i as int), seps@),
            forall|j: int| 0 <= j < cur@.len() ==> !seps@.contains(#[trigger] cur@[j]),
        decreases s.len() - i,
    {
        let c = s[i];
        let mut is_sep = false;
        let mut k: usize = 0;
        while k < seps.len()
            invariant
                k <= seps@.len(),
                is_sep == seps@.take(k as int).contains(c),
            decreases seps.len() - k,
        {
            if seps[k] == c {
                is_sep = true;
            }
            proof {
                crate::text::lemma_push_contains(seps@.take(k as int), seps@[k as int]);
                assert(seps@.take(k + 1) =~= seps@.take(k as int).push(seps@[k as int]));
            }
            k += 1;
        }
        assert(seps@.take(k as int) =~= seps@);
        let ghost whole = cur@ + s@.skip(i as int);
        proof {
            lemma_first_sep_prefix(cur@, s@.skip(i as int), seps@);
        }
        if is_sep {
            proof {
                assert(first_sep(s@.skip(i as int), seps@) == 0);
                assert(whole.take(cur@.len() as int) =~= cur@);
                assert(whole.skip(cur@.len() as int + 1) =~= s@.skip(i + 1));
                assert(Seq::<char>::empty() + s@.skip(i + 1) =~= s@.skip(i + 1));
            }
            let piece = cur;
            out.push(piece);
            cur = Vec::new();
            proof {
                assert(out@.map_values(|p: Vec<char>| p@) =~= out@.drop_last().map_values(|p: Vec<char>| p@).push(piece@));
            }
        } else {
            cur.push(c);
            proof {
                assert(cur@ + s@.skip(i + 1) =~= whole);
            }
        }
        i += 1;
    }
    proof {
        assert(cur@ + s@.skip(i as int) =~= cur@);
        lemma_no_sep(cur@, seps@);
    }
    let last = cur;
    out.push(last);
    proof {
        assert(out@.map_values(|p: Vec<char>| p@) =~= out@.drop_last().map_values(|p: Vec<char>| p@).push(last@));
    }
    out
}

proof fn lemma_no_sep(s: Seq<char>, seps: Seq<char>)
    requires
        forall|j: int| 0 <= j < s.len() ==> !seps.contains(#[trigger] s[j]),
    ensures
        first_sep(s, seps) < 0,
        split_on(s, seps) == seq![s],
{
    lemma_first_sep(s, seps);
}

/// A separator-free prefix shifts the first separator and is glued to the
/// first piece.
proof fn lemma_first_sep_prefix(a: Seq<char>, b: Seq<char>, seps: Seq<char>)
    requires
        forall|j: int| 0 <= j < a.len() ==> !seps.contains(#[trigger] a[j]),
    ensures
        first_sep(a + b, seps) == if first_sep(b, seps) < 0 { -1 } else { first_sep(b, seps) + a.len() },
    decreases a.len(),
{
    if a.len() > 0 {
        assert((a + b).drop_first() =~= a.drop_first() + b);
        lemma_first_sep_prefix(a.drop_first(), b, seps);
    } else {
        assert(a + b =~= b);
    }
}

// ---------------------------------------------------------------------------
// Update sources
// ---------------------------------------------------------------------------

/// Where a replacement binary comes from.
#[derive(Debug, PartialEq, Eq)]
pub enum Source {
    /// A GitHub repository, given as "owner/repo"; its latest release is used.
    GitHub(String),
    /// A direct URL to a binary for this platform.
    Url(String),
}

pub enum SourceView {
    GitHub(Seq<char>),
    Url(Seq<char>),
}

impl View for Source {
    type V = SourceView;

    open spec fn view(&self) -> SourceView {
        match self {
            Source::GitHub(s) => SourceView::GitHub(s@),
            Source::Url(s) => SourceView::Url(s@),
        }
    }
}

/// An update source that is neither a URL nor "owner/repo".
#[derive(Debug)]
pub struct SourceError {
    /// The trimmed text that was given.
    pub raw: String,
}

impl SourceError {
    /// The message shown to the user.
    pub fn message(&self) -> (m: String)
        ensures
            m@ == "update source must be a URL or a GitHub \"owner/repo\", got "@ + debug_quoted(self.raw@),
    {
        let mut m = String::from_str("update source must be a URL or a GitHub \"owner/repo\", got ");
        let q = debug_string(self.raw.as_str());
        push_str(&mut m, q.as_str());
        m
    }
}

/// "owner/repo": exactly two pieces around a slash, neither empty.
pub open spec fn is_repo_shorthand(raw: Seq<char>) -> bool {
    let parts = split_on(raw, seq!['/']);
    parts.len() == 2 && parts[0].len() > 0 && parts[1].len() > 0
}

/// The source a text names: a URL when it starts with http:// or https://,
/// else a GitHub repository when it reads "owner/repo"; the text is trimmed
/// first.
pub open spec fn spec_parse_source(raw: Seq<char>) -> Result<SourceView, Seq<char>> {
    let t = trim(raw);
    if starts_with(t, "http://"@) || starts_with(t, "https://"@) {
        Ok(SourceView::Url(t))
    } else if is_repo_shorthand(t) {
        Ok(SourceView::GitHub(t))
    } else {
        Err(t)
    }
}

/// Interprets an update source: a URL, or GitHub "owner/repo" shorthand.
pub fn parse_source(raw: &str) -> (r: Result<Source, SourceError>)
    ensures
        match r {
            Ok(s) => spec_parse_source(raw@) == Ok::<SourceView, Seq<char>>(s@),
            Err(e) => spec_parse_source(raw@) == Err::<SourceView, Seq<char>>(e.raw@),
        },
{
    let t = trim_chars(&chars_of(raw));
    let text = string_of(&t);
    if starts_with_chars(&t, &chars_of("http://")) || starts_with_chars(&t, &chars_of("https://")) {
        return Ok(Source::Url(text));
    }
    let slash = vec!['/'];
    let parts = split_chars(&t, &slash);
    proof {
        assert(slash@ =~= seq!['/']);
        assert(parts@.len() == split_on(t@, seq!['/']).len());
        if parts@.len() == 2 {
            assert(parts@[0]@ == split_on(t@, seq!['/'])[0]);
            assert(parts@[1]@ == split_on(t@, seq!['/'])[1]);
        }
    }
    if parts.len() == 2 && parts[0].len() > 0 && parts[1].len() > 0 {
        return Ok(Source::GitHub(text));
    }
    Err(SourceError { raw: text })
}

// ---------------------------------------------------------------------------
// Versions
// ---------------------------------------------------------------------------

/// The text without its leading 'v' and 'V' characters.
pub open spec fn strip_v(s: Seq<char>) -> Seq<char>
    decreases s.len(),
{
    if s.len() > 0 && (s[0] == 'v' || s[0] == 'V') {
        strip_v(s.drop_first())
    } else {
        s
    }
}

/// The value of a text made only of decimal digits (at least one).
pub open spec fn digits_value(s: Seq<char>) -> Option<nat>
    decreases s.len(),
{
    if s.len() == 0 {
        None
    } else {
        let d = s.last() as int - '0' as int;
        if !(0 <= d <= 9) {
            None
        } else if s.len() == 1 {
            Some(d as nat)
        } else {
            match digits_value(s.drop_last()) {
                Some(v) => Some(v * 10 + d as nat),
                None => None,
            }
        }
    }
}

/// `str::parse::<u64>`: digits after an optional '+', within range.
pub open spec fn parse_u64(s: Seq<char>) -> Option<nat> {
    let body = if s.len() > 0 && s[0] == '+' { s.drop_first() } else { s };
    match digits_value(body) {
        Some(v) => if v <= u64::MAX { Some(v) } else { None },
        None => None,
    }
}

/// A version's pieces: the text after any leading v/V, split at '.', '-'
/// and '+'.
pub open spec fn version_parts(v: Seq<char>) -> Seq<Seq<char>> {
    split_on(strip_v(v), seq!['.', '-', '+'])
}

/// Every piece of the version reads as a number.
pub open spec fn version_parses(v: Seq<char>) -> bool {
    forall|j: int| 0 <= j < version_parts(v).len() ==> (#[trigger] parse_u64(version_parts(v)[j])) is Some
}

/// A version's numeric components, each piece read as a number (0 when it is
/// not one; only consulted for versions that parse).
pub open spec fn version_nums(v: Seq<char>) -> Seq<nat> {
    version_parts(v).map_values(|p: Seq<char>| num_of(p))
}

/// A piece read as a number, 0 when it is not one.
pub open spec fn num_of(p: Seq<char>) -> nat {
    match parse_u64(p) {
        Some(n) => n,
        None => 0,
    }
}

/// Component `i`, or 0 past the end.
pub open spec fn num_at(ns: Seq<nat>, i: int) -> nat {
    if 0 <= i < ns.len() {
        ns[i]
    } else {
        0
    }
}

/// From component `i` on, the first differing component is larger in `b`.
pub open spec fn nums_newer_from(a: Seq<nat>, b: Seq<nat>, i: int) -> bool
    decreases (if a.len() > b.len() { a.len() } else { b.len() }) - i,
{
    if i < 0 || (i >= a.len() && i >= b.len()) {
        false
    } else if num_at(a, i) != num_at(b, i) {
        num_at(b, i) > num_at(a, i)
    } else {
        nums_newer_from(a, b, i + 1)
    }
}

/// `remote` is a different, higher version than `current`: when both parse,
/// the numeric components compare in order with missing ones read as 0;
/// when either does not, any difference in the text counts as newer.
pub open spec fn spec_is_newer(current: Seq<char>, remote: Seq<char>) -> bool {
    if version_parses(current) && version_parses(remote) {
        nums_newer_from(version_nums(current), version_nums(remote), 0)
    } else {
        current != remote
    }
}

/// True when `remote` is a different, higher version than `current`.
///
/// Anything unparseable falls back to "different means newer", so a build with
/// an odd version string still updates rather than refusing forever.
pub fn is_newer(current: &str, remote: &str) -> (r: bool)
    ensures
        r == spec_is_newer(current@, remote@),
{
    let (a, b) = match (version_numbers(current), version_numbers(remote)) {
        (Some(a), Some(b)) => (a, b),
        _ => {
            let cc = chars_of(current);
            let rc = chars_of(remote);
            return !chars_eq(&cc, &rc);
        },
    };
    let n = if a.len() > b.len() {
        a.len()
    } else {
        b.len()
    };
    let mut i: usize = 0;
    while i < n
        invariant
            i <= n,
            n == if a@.len() > b@.len() { a@.len() } else { b@.len() },
            a@.map_values(|x: u64| x as nat) == version_nums(current@),
            b@.map_values(|x: u64| x as nat) == version_nums(remote@),
            spec_is_newer(current@, remote@) == nums_newer_from(version_nums(current@), version_nums(remote@), i as int),
        decreases n - i,
    {
        let x: u64 = if i < a.len() {
            a[i]
        } else {
            0
        };
        let y: u64 = if i < b.len() {
            b[i]
        } else {
            0
        };
        assert(x as nat == num_at(version_nums(current@), i as int));
        assert(y as nat == num_at(version_nums(remote@), i as int));
        if x != y {
            return y > x;
        }
        i += 1;
    }
    false
}

/// `version_nums` as machine integers, when every piece parses.
fn version_numbers(v: &str) -> (r: Option<Vec<u64>>)
    ensures
        r is Some <==> version_parses(v@),
        r matches Some(ns) ==> ns@.map_values(|x: u64| x as nat) == version_nums(v@),
{
    let cs = chars_of(v);
    let mut start: usize = 0;
    assert(cs@.skip(0) =~= cs@);
    while start < cs.len() && (cs[start] == 'v' || cs[start] == 'V')
        invariant
            start <= cs@.len(),
            strip_v(v@) == strip_v(cs@.skip(start as int)),
            cs@ == v@,
        decreases cs.len() - start,
    {
        assert(cs@.skip(start as int).drop_first() =~= cs@.skip(start + 1));
        start += 1;
    }
    let body = crate::text::slice_chars(&cs, start, cs.len());
    assert(body@ =~= cs@.skip(start as int));
    assert(strip_v(body@) == body@);
    let seps = vec!['.', '-', '+'];
    assert(seps@ =~= seq!['.', '-', '+']);
    let parts = split_chars(&body, &seps);
    let ghost pv = parts@.map_values(|p: Vec<char>| p@);
    assert(pv =~= version_parts(v@));
    let mut out: Vec<u64> = Vec::new();
    let mut k: usize = 0;
    while k < parts.len()
        invariant
            k <= parts@.len(),
            pv == parts@.map_values(|p: Vec<char>| p@),
            pv == version_parts(v@),
            out@.len() == k,
            forall|j: int| 0 <= j < k ==> #[trigger] out@[j] as nat == num_of(pv[j]),
            forall|j: int| 0 <= j < k ==> (#[trigger] parse_u64(pv[j])) is Some,
        decreases parts.len() - k,
    {
        proof {
            assert(pv[k as int] == parts@[k as int]@);
        }
        let n = match parse_number(&parts[k]) {
            Some(n) => n,
            None => {
                return None;
            },
        };
        out.push(n);
        k += 1;
    }
    assert(out@.map_values(|x: u64| x as nat) =~= version_nums(v@));
    Some(out)
}

/// `str::parse::<u64>` on characters.
fn parse_number(s: &Vec<char>) -> (r: Option<u64>)
    ensures
        r matches Some(n) ==> parse_u64(s@) == Some(n as nat),
        r is None ==> parse_u64(s@) is None,
{
    let start: usize = if s.len() > 0 && s[0] == '+' {
        1
    } else {
        0
    };
    let ghost body = if s@.len() > 0 && s@[0] == '+' { s@.drop_first() } else { s@ };
    assert(body =~= s@.skip(start as int));
    if start == s.len() {
        return None;
    }
    let mut v: u64 = 0;
    let mut i = start;
    while i < s.len()
        invariant
            start < s@.len(),
            start <= i <= s@.len(),
            body == s@.skip(start as int),
            body == (if s@.len() > 0 && s@[0] == '+' { s@.drop_first() } else { s@ }),
            i > start ==> digits_value(s@.subrange(start as int, i as int)) == Some(v as nat),
            i == start ==> v == 0,
        decreases s.len() - i,
    {
        let c = s[i];
        let ghost prefix = s@.subrange(start as int, i + 1);
        assert(prefix.drop_last() =~= s@.subrange(start as int, i as int));
        assert(prefix.last() == c);
        if c < '0' || c > '9' {
            proof {
                assert(s@.skip(start as int).take(i + 1 - start) =~= prefix);
                lemma_digits_none_extends(s@.skip(start as int), i + 1 - start);
            }
            return None;
        }
        let d = (c as u32 - '0' as u32) as u64;
        if v > (u64::MAX - d) / 10 {
            proof {
                assert(v * 10 + d > u64::MAX) by (nonlinear_arith)
                    requires
                        v > (u64::MAX - d) / 10,
                        d <= 9,
                ;
                assert(s@.skip(start as int).take(i + 1 - start) =~= prefix);
                lemma_digits_big_extends(s@.skip(start as int), i + 1 - start);
            }
            return None;
        }
        assert(v * 10 + d <= u64::MAX) by (nonlinear_arith)
            requires
                v <= (u64::MAX - d) / 10,
                d <= 9,
        ;
        v = v * 10 + d;
        i += 1;
    }
    assert(s@.subrange(start as int, i as int) =~= body);
    Some(v)
}

/// Once a prefix is not all digits, no longer text is.
proof fn lemma_digits_none_extends(s: Seq<char>, k: int)
    requires
        0 < k <= s.len(),
        digits_value(s.take(k)) is None,
    ensures
        digits_value(s) is None,
    decreases s.len() - k,
{
    if k < s.len() {
        assert(s.take(k + 1).drop_last() =~= s.take(k));
        lemma_digits_none_extends(s, k + 1);
    } else {
        assert(s.take(k) =~= s);
    }
}

/// Once a prefix's value is beyond the `u64` range, a longer text's is too.
proof fn lemma_digits_big_extends(s: Seq<char>, k: int)
    requires
        0 < k <= s.len(),
        digits_value(s.take(k)) matches Some(v) ==> v > u64::MAX,
    ensures
        digits_value(s) matches Some(v) ==> v > u64::MAX,
    decreases s.len() - k,
{
    if k < s.len() {
        assert(s.take(k + 1).drop_last() =~= s.take(k));
        lemma_digits_big_extends(s, k + 1);
    } else {
        assert(s.take(k) =~= s);
    }
}

/// No version is newer than itself.
pub proof fn lemma_not_newer_than_itself(v: Seq<char>)
    ensures
        !spec_is_newer(v, v),
{
    lemma_nums_irreflexive(version_nums(v), 0);
}

proof fn lemma_nums_irreflexive(a: Seq<nat>, i: int)
    ensures
        !nums_newer_from(a, a, i),
    decreases a.len() - i,
{
    if i >= 0 && i < a.len() {
        lemma_nums_irreflexive(a, i + 1);
    }
}

/// Updates only move forward: of two versions that both parse (or are the
/// same text) at most one is newer than the other.
pub proof fn lemma_newer_is_one_way(a: Seq<char>, b: Seq<char>)
    requires
        (version_parses(a) && version_parses(b)) || a == b,
    ensures
        !(spec_is_newer(a, b) && spec_is_newer(b, a)),
{
    lemma_nums_asymmetric(version_nums(a), version_nums(b), 0);
    lemma_nums_irreflexive(version_nums(a), 0);
}

proof fn lemma_nums_asymmetric(a: Seq<nat>, b: Seq<nat>, i: int)
    ensures
        !(nums_newer_from(a, b, i) && nums_newer_from(b, a, i)),
    decreases (if a.len() > b.len() { a.len() } else { b.len() }) - i,
{
    if i >= 0 && (i < a.len() || i < b.len()) && num_at(a, i) == num_at(b, i) {
        lemma_nums_asymmetric(a, b, i + 1);
    }
}

/// Newer-than is transitive: a chain of updates between versions that parse
/// ends newer than it began (as does any chain whose ends differ and do not
/// both parse).
pub proof fn lemma_newer_transitive(a: Seq<char>, b: Seq<char>, c: Seq<char>)
    requires
        spec_is_newer(a, b),
        spec_is_newer(b, c),
        (version_parses(a) && version_parses(b) && version_parses(c)) || (!(version_parses(a)
            && version_parses(c)) && a != c),
    ensures
        spec_is_newer(a, c),
{
    if version_parses(a) && version_parses(b) && version_parses(c) {
        lemma_nums_transitive(version_nums(a), version_nums(b), version_nums(c), 0);
    }
}

proof fn lemma_nums_transitive(a: Seq<nat>, b: Seq<nat>, c: Seq<nat>, i: int)
    requires
        i >= 0,
        nums_newer_from(a, b, i),
        nums_newer_from(b, c, i),
    ensures
        nums_newer_from(a, c, i),
    decreases (if a.len() > b.len() { a.len() } else { b.len() }) + c.len() - i,
{
    if num_at(a, i) == num_at(b, i) && num_at(b, i) == num_at(c, i) {
        lemma_nums_transitive(a, b, c, i + 1);
    }
}

// ---------------------------------------------------------------------------
// Release assets and downloads
// ---------------------------------------------------------------------------

/// The first asset from position `k` on whose name contains the whole triple.
pub open spec fn first_exact(assets: Seq<(String, String)>, k: int, target: Seq<char>) -> Option<int>
    decreases assets.len() - k,
{
    if k < 0 || k >= assets.len() {
        None
    } else if contains_text(assets[k].0@, target) {
        Some(k)
    } else {
        first_exact(assets, k + 1, target)
    }
}

/// The first asset from position `k` on that fits the architecture and system.
pub open spec fn first_fitting(assets: Seq<(String, String)>, k: int, arch: Seq<char>, os: Seq<char>) -> Option<int>
    decreases assets.len() - k,
{
    if k < 0 || k >= assets.len() {
        None
    } else if fits_platform(assets[k].0@, arch, os) {
        Some(k)
    } else {
        first_fitting(assets, k + 1, arch, os)
    }
}

/// The operating system a target triple names, as release assets spell it.
pub open spec fn target_os(target: Seq<char>) -> Option<Seq<char>> {
    if contains_text(target, "linux"@) {
        Some("linux"@)
    } else if contains_text(target, "apple"@) || contains_text(target, "darwin"@) {
        Some("darwin"@)
    } else {
        None
    }
}

/// An asset for the target's architecture and operating system.
pub open spec fn fits_platform(name: Seq<char>, arch: Seq<char>, os: Seq<char>) -> bool {
    let n = lowercase(name);
    contains_text(n, arch) && (contains_text(n, os) || (os == "darwin"@ && contains_text(n, "apple"@)))
}

/// Which asset is chosen: an exact triple match wins; otherwise the
/// architecture (the triple up to its first '-') and the operating system
/// both have to appear in the lower-cased name.
pub open spec fn spec_asset_for_target(assets: Seq<(String, String)>, target: Seq<char>) -> Option<int> {
    match first_exact(assets, 0, target) {
        Some(i) => Some(i),
        None => match target_os(target) {
            None => None,
            Some(os) => first_fitting(assets, 0, split_on(target, seq!['-'])[0], os),
        },
    }
}

/// Picks the release asset matching a target triple.
///
/// An exact triple match wins; otherwise the architecture and operating system
/// both have to appear in the name, so an arm64 build is never handed an x86
/// binary.
pub fn asset_for_target<'a>(assets: &'a [(String, String)], target: &str) -> (r: Option<&'a (String, String)>)
    ensures
        r is Some == spec_asset_for_target(assets@, target@) is Some,
        r matches Some(x) ==> *x == assets@[spec_asset_for_target(assets@, target@)->0],
{
    let t = chars_of(target);
    let mut i: usize = 0;
    while i < assets.len()
        invariant
            i <= assets@.len(),
            t@ == target@,
            first_exact(assets@, 0, target@) == first_exact(assets@, i as int, target@),
        decreases assets.len() - i,
    {
        if contains_chars(&chars_of(assets[i].0.as_str()), &t) {
            return Some(&assets[i]);
        }
        i += 1;
    }
    let dash = vec!['-'];
    assert(dash@ =~= seq!['-']);
    let pieces = split_chars(&t, &dash);
    proof {
        assert(pieces@.len() == split_on(t@, seq!['-']).len());
    }
    let arch = &pieces[0];
    assert(arch@ == split_on(target@, seq!['-'])[0]);
    let os: Vec<char> = if contains_chars(&t, &chars_of("linux")) {
        chars_of("linux")
    } else if contains_chars(&t, &chars_of("apple")) || contains_chars(&t, &chars_of("darwin")) {
        chars_of("darwin")
    } else {
        return None;
    };
    let darwin = crate::text::chars_eq(&os, &chars_of("darwin"));
    let apple = chars_of("apple");
    assert(target_os(target@) == Some(os@));
    let mut j: usize = 0;
    while j < assets.len()
        invariant
            j <= assets@.len(),
            darwin == (os@ == "darwin"@),
            apple@ == "apple"@,
            first_exact(assets@, 0, target@) is None,
            target_os(target@) == Some(os@),
            arch@ == split_on(target@, seq!['-'])[0],
            first_fitting(assets@, 0, arch@, os@) == first_fitting(assets@, j as int, arch@, os@),
        decreases assets.len() - j,
    {
        let n = chars_of(to_lowercase(assets[j].0.as_str()).as_str());
        if contains_chars(&n, arch) && (contains_chars(&n, &os) || (darwin && contains_chars(&n, &apple))) {
            return Some(&assets[j]);
        }
        j += 1;
    }
    None
}

/// The first four bytes of an ELF file.
pub open spec fn is_elf_magic(m: Seq<u8>) -> bool {
    m == seq![0x7fu8, 0x45u8, 0x4cu8, 0x46u8]
}

/// The first four bytes of a Mach-O file (64-bit either endianness, or fat).
pub open spec fn is_macho_magic(m: Seq<u8>) -> bool {
    ||| m == seq![0xfeu8, 0xedu8, 0xfau8, 0xcfu8]
    ||| m == seq![0xcfu8, 0xfau8, 0xedu8, 0xfeu8]
    ||| m == seq![0xcau8, 0xfeu8, 0xbau8, 0xbeu8]
}

/// A native executable for the platform: ELF on Linux, Mach-O on macOS, and
/// either elsewhere.
pub open spec fn spec_looks_like_executable(os: Os, bytes: Seq<u8>) -> bool {
    bytes.len() >= 4 && {
        let m = bytes.take(4);
        match os {
            Os::Linux => is_elf_magic(m),
            Os::Mac => is_macho_magic(m),
            Os::Windows => is_elf_magic(m) || is_macho_magic(m),
        }
    }
}

/// Rejects payloads that are not a native executable for the platform.
///
/// Without this a rate-limit page or an HTML error would be written straight
/// over the binary.
pub fn looks_like_executable(os: Os, bytes: &[u8]) -> (r: bool)
    ensures
        r == spec_looks_like_executable(os, bytes@),
{
    if bytes.len() < 4 {
        return false;
    }
    let (a, b, c, d) = (bytes[0], bytes[1], bytes[2], bytes[3]);
    assert(bytes@.take(4) =~= seq![a, b, c, d]);
    let elf = a == 0x7f && b == 0x45 && c == 0x4c && d == 0x46;
    let macho = (a == 0xfe && b == 0xed && c == 0xfa && d == 0xcf) || (a == 0xcf && b == 0xfa && c
        == 0xed && d == 0xfe) || (a == 0xca && b == 0xfe && c == 0xba && d == 0xbe);
    proof {
        assert(elf == is_elf_magic(seq![a, b, c, d])) by {
            if is_elf_magic(seq![a, b, c, d]) {
                assert(seq![a, b, c, d][0] == a);
                assert(seq![a, b, c, d][1] == b);
                assert(seq![a, b, c, d][2] == c);
                assert(seq![a, b, c, d][3] == d);
            }
        }
        assert(macho == is_macho_magic(seq![a, b, c, d])) by {
            let m = seq![a, b, c, d];
            assert(m[0] == a && m[1] == b && m[2] == c && m[3] == d);
            if m == seq![0xfeu8, 0xedu8, 0xfau8, 0xcfu8] {
                assert(seq![0xfeu8, 0xedu8, 0xfau8, 0xcfu8][0] == 0xfe);
            }
        }
    }
    match os {
        Os::Linux => elf,
        Os::Mac => macho,
        Os::Windows => elf || macho,
    }
}

/// The advice shown when no update source has been configured.
pub open spec fn spec_unconfigured_hint(version: Seq<char>, target: Seq<char>) -> Seq<char> {
    "no update source configured.\n\nSet one once, then --update will use it:\n  valheim-mods-tui --update-source <owner/repo>      # GitHub releases\n  valheim-mods-tui --update-source <https://…/bin>   # any static host\n\nThis build is "@
        + version + " for "@ + target + "."@
}

/// Message used when no source has been configured.
pub fn unconfigured_hint(version: &str, target: &str) -> (s: String)
    ensures
        s@ == spec_unconfigured_hint(version@, target@),
{
    let mut s = String::from_str(
        "no update source configured.\n\nSet one once, then --update will use it:\n  valheim-mods-tui --update-source <owner/repo>      # GitHub releases\n  valheim-mods-tui --update-source <https://…/bin>   # any static host\n\nThis build is ",
    );
    push_str(&mut s, version);
    push_str(&mut s, " for ");
    push_str(&mut s, target);
    push_str(&mut s, ".");
    s
}

// ---------------------------------------------------------------------------
// Deciding on a release
// ---------------------------------------------------------------------------

/// What to do about the latest release.
#[derive(Debug)]
pub enum ReleaseChoice {
    /// The running build is as new as the release.
    UpToDate,
    /// Download the binary at this URL.
    Download(String),
    /// The release has nothing for this platform; the text says so.
    NoAsset(String),
}

pub enum ReleaseChoiceView {
    UpToDate,
    Download(Seq<char>),
    NoAsset(Seq<char>),
}

impl View for ReleaseChoice {
    type V = ReleaseChoiceView;

    open spec fn view(&self) -> ReleaseChoiceView {
        match self {
            ReleaseChoice::UpToDate => ReleaseChoiceView::UpToDate,
            ReleaseChoice::Download(u) => ReleaseChoiceView::Download(u@),
            ReleaseChoice::NoAsset(m) => ReleaseChoiceView::NoAsset(m@),
        }
    }
}

pub open spec fn asset_names(assets: Seq<(String, String)>) -> Seq<Seq<char>> {
    assets.map_values(|a: (String, String)| a.0@)
}

/// The release assets by name, for a message.
pub open spec fn available(assets: Seq<(String, String)>) -> Seq<char> {
    if assets.len() == 0 {
        "none"@
    } else {
        join_with(asset_names(assets), ", "@)
    }
}

/// Whether to update from a release tagged `tag` with these (name, URL)
/// assets: not when the running `current` version is as new (unless
/// `force`), else the asset for `target`, if one fits.
pub open spec fn spec_choose_release(
    current: Seq<char>,
    tag: Seq<char>,
    assets: Seq<(String, String)>,
    target: Seq<char>,
    force: bool,
) -> ReleaseChoiceView {
    if !force && !spec_is_newer(current, tag) {
        ReleaseChoiceView::UpToDate
    } else {
        match spec_asset_for_target(assets, target) {
            Some(i) => ReleaseChoiceView::Download(assets[i].1@),
            None => ReleaseChoiceView::NoAsset(
                "release "@ + tag + " has no asset for "@ + target + "; available: "@ + available(assets),
            ),
        }
    }
}

pub fn choose_release(current: &str, tag: &str, assets: &[(String, String)], target: &str, force: bool) -> (r: ReleaseChoice)
    ensures
        r@ == spec_choose_release(current@, tag@, assets@, target@, force),
{
    if !force && !is_newer(current, tag) {
        return ReleaseChoice::UpToDate;
    }
    match asset_for_target(assets, target) {
        Some(hit) => ReleaseChoice::Download(hit.1.clone()),
        None => {
            let mut m = String::from_str("release ");
            push_str(&mut m, tag);
            push_str(&mut m, " has no asset for ");
            push_str(&mut m, target);
            push_str(&mut m, "; available: ");
            if assets.len() == 0 {
                push_str(&mut m, "none");
            } else {
                let mut names: Vec<String> = Vec::new();
                let mut i: usize = 0;
                while i < assets.len()
                    invariant
                        i <= assets@.len(),
                        views(names@) == asset_names(assets@).take(i as int),
                    decreases assets.len() - i,
                {
                    let ghost before = views(names@);
                    names.push(assets[i].0.clone());
                    assert(views(names@) =~= before.push(assets@[i as int].0@));
                    assert(asset_names(assets@).take(i + 1) =~= asset_names(assets@).take(i as int).push(
                        assets@[i as int].0@,
                    ));
                    i += 1;
                }
                assert(asset_names(assets@).take(i as int) =~= asset_names(assets@));
                let list = join_strings(&names, ", ");
                push_str(&mut m, list.as_str());
            }
            ReleaseChoice::NoAsset(m)
        },
    }
}

/// The refusal of a download that is not a program for `target`.
pub fn not_executable_message(target: &str, size: usize) -> (m: String)
    ensures
        m@ == "that download is not an executable for "@ + target@ + " ("@ + decimal(size as nat)
            + " bytes) — check the update source"@,
{
    let mut m = String::from_str("that download is not an executable for ");
    push_str(&mut m, target);
    push_str(&mut m, " (");
    let n = decimal_string(size as u64);
    push_str(&mut m, n.as_str());
    push_str(&mut m, " bytes) — check the update source");
    m
}

/// Where a new binary is staged beside `exe` before it is renamed into
/// place: `.<name>.update` in the same directory, when `exe` has one.
pub open spec fn spec_staged_path(exe: Seq<char>) -> Option<Seq<char>> {
    match parent_of(exe) {
        None => None,
        Some(dir) => Some(
            joined(
                dir,
                "."@ + match file_name_of(exe) {
                    Some(n) => n,
                    None => Seq::empty(),
                } + ".update"@,
            ),
        ),
    }
}

pub fn staged_path(exe: &str) -> (r: Option<String>)
    ensures
        match r {
            Some(p) => spec_staged_path(exe@) == Some(p@),
            None => spec_staged_path(exe@) is None,
        },
{
    let dir = match parent(exe) {
        Some(d) => d,
        None => return None,
    };
    let mut name = String::from_str(".");
    if let Some(n) = file_name(exe) {
        push_str(&mut name, n.as_str());
    }
    push_str(&mut name, ".update");
    Some(join(dir.as_str(), name.as_str()))
}


/// An asset is never chosen for the wrong architecture: the chosen name holds
/// the whole target triple, or, lower-cased, the triple's architecture.
pub proof fn lemma_arch_is_never_mismatched(assets: Seq<(String, String)>, target: Seq<char>)
    requires
        spec_asset_for_target(assets, target) is Some,
    ensures
        ({
            let name = assets[spec_asset_for_target(assets, target)->0].0@;
            contains_text(name, target) || contains_text(lowercase(name), split_on(target, seq!['-'])[0])
        }),
{
    lemma_first_exact(assets, 0, target);
    if first_exact(assets, 0, target) is None {
        let os = target_os(target)->0;
        lemma_first_fitting(assets, 0, split_on(target, seq!['-'])[0], os);
    }
}

proof fn lemma_first_exact(assets: Seq<(String, String)>, k: int, target: Seq<char>)
    requires
        0 <= k,
    ensures
        first_exact(assets, k, target) matches Some(i) ==> k <= i < assets.len() && contains_text(assets[i].0@, target),
    decreases assets.len() - k,
{
    if k < assets.len() && !contains_text(assets[k].0@, target) {
        lemma_first_exact(assets, k + 1, target);
    }
}

proof fn lemma_first_fitting(assets: Seq<(String, String)>, k: int, arch: Seq<char>, os: Seq<char>)
    requires
        0 <= k,
    ensures
        first_fitting(assets, k, arch, os) matches Some(i) ==> k <= i < assets.len() && fits_platform(assets[i].0@, arch, os),
    decreases assets.len() - k,
{
    if k < assets.len() && !fits_platform(assets[k].0@, arch, os) {
        lemma_first_fitting(assets, k + 1, arch, os);
    }
}

proof fn lemma_first_exact_first(assets: Seq<(String, String)>, k: int, target: Seq<char>)
    requires
        0 <= k,
    ensures
        forall|j: int|
            k <= j < assets.len() && (first_exact(assets, k, target) is None || j < first_exact(assets, k, target)->0)
                ==> !contains_text(#[trigger] assets[j].0@, target),
    decreases assets.len() - k,
{
    if k < assets.len() && !contains_text(assets[k].0@, target) {
        lemma_first_exact_first(assets, k + 1, target);
    }
}

/// Which asset is chosen: when some name holds the whole target triple, the
/// first such asset; otherwise one whose lower-cased name holds the
/// triple's architecture and the operating system the triple names
/// ("linux"; or "darwin" or "apple" for an Apple triple); and nothing for a
/// triple that names neither.
pub proof fn lemma_asset_choice(assets: Seq<(String, String)>, target: Seq<char>)
    ensures
        (exists|j: int| 0 <= j < assets.len() && contains_text(#[trigger] assets[j].0@, target)) ==> (
        spec_asset_for_target(assets, target) matches Some(i) && 0 <= i < assets.len() && contains_text(
            assets[i].0@,
            target,
        ) && forall|j: int| 0 <= j < i ==> !contains_text(#[trigger] assets[j].0@, target)),
        !(exists|j: int| 0 <= j < assets.len() && contains_text(#[trigger] assets[j].0@, target)) ==> match spec_asset_for_target(assets, target) {
            Some(i) => {
                let n = lowercase(assets[i].0@);
                &&& 0 <= i < assets.len()
                &&& contains_text(n, split_on(target, seq!['-'])[0])
                &&& contains_text(target, "linux"@) ==> contains_text(n, "linux"@)
                &&& !contains_text(target, "linux"@) ==> (contains_text(n, "darwin"@) || contains_text(n, "apple"@))
            },
            None => true,
        },
        target_os(target) is None && !(exists|j: int| 0 <= j < assets.len() && contains_text(#[trigger] assets[j].0@, target))
            ==> spec_asset_for_target(assets, target) is None,
{
    lemma_first_exact(assets, 0, target);
    lemma_first_exact_first(assets, 0, target);
    reveal_strlit("linux");
    reveal_strlit("darwin");
    assert("linux"@ != "darwin"@) by {
        assert("linux"@[0] != "darwin"@[0]);
    }
    if first_exact(assets, 0, target) is None {
        if let Some(os) = target_os(target) {
            lemma_first_fitting(assets, 0, split_on(target, seq!['-'])[0], os);
        }
    }
}

proof fn lemma_nums_first_difference(a: Seq<nat>, b: Seq<nat>, j: int, k: int)
    requires
        0 <= j <= k,
        forall|q: int| j <= q < k ==> num_at(a, q) == num_at(b, q),
        num_at(a, k) != num_at(b, k),
    ensures
        nums_newer_from(a, b, j) <==> num_at(b, k) > num_at(a, k),
    decreases k - j,
{
    if j < k {
        assert(num_at(a, j) == num_at(b, j));
        assert(j < a.len() || j < b.len());
        lemma_nums_first_difference(a, b, j + 1, k);
    } else {
        assert(k < a.len() || k < b.len());
    }
}

proof fn lemma_nums_all_equal(a: Seq<nat>, b: Seq<nat>, j: int)
    requires
        0 <= j,
        forall|q: int| j <= q ==> num_at(a, q) == num_at(b, q),
    ensures
        !nums_newer_from(a, b, j),
    decreases (if a.len() > b.len() { a.len() } else { b.len() }) - j,
{
    if j < a.len() || j < b.len() {
        assert(num_at(a, j) == num_at(b, j));
        lemma_nums_all_equal(a, b, j + 1);
    }
}

/// Versions compare component by component from the first: when both parse
/// and the first `k` components agree (a missing one reads as 0), the first
/// component that differs decides, and the newer version is the one with the
/// larger number there; when no component differs, neither is newer.
pub proof fn lemma_first_difference_decides(current: Seq<char>, remote: Seq<char>, k: int)
    requires
        version_parses(current),
        version_parses(remote),
        0 <= k,
        forall|q: int| 0 <= q < k ==> num_at(version_nums(current), q) == num_at(version_nums(remote), q),
    ensures
        num_at(version_nums(current), k) != num_at(version_nums(remote), k) ==> (spec_is_newer(current, remote) <==> num_at(
            version_nums(remote),
            k,
        ) > num_at(version_nums(current), k)),
        (forall|q: int| 0 <= q ==> num_at(version_nums(current), q) == num_at(version_nums(remote), q)) ==> !spec_is_newer(
            current,
            remote,
        ),
{
    let (a, b) = (version_nums(current), version_nums(remote));
    if num_at(a, k) != num_at(b, k) {
        lemma_nums_first_difference(a, b, 0, k);
    }
    if forall|q: int| 0 <= q ==> num_at(a, q) == num_at(b, q) {
        lemma_nums_all_equal(a, b, 0);
    }
}

} // verus!
