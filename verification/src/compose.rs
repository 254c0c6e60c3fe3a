//! Writing a mod list into a .env file or a docker-compose service.
//!
//! Edits are line-targeted rather than a YAML round-trip, because rewriting the
//! document would discard the comments and formatting of a file the user owns.
use vstd::prelude::*;
use crate::lines::{finish, finish_lines, lines_view, spec_lines, split_lines};
use crate::paths::{extension, extension_of, file_name, file_name_of, join, joined, with_extension, with_extension_of};
use crate::text::{
    chars_eq, chars_of, count_lead_ws, debug_quoted, debug_string, ends_with, ends_with_chars,
    is_blank, lead_ws, lemma_lead_ws_bound, lemma_utf8_len_le, lowercase, push_str, slice_chars,
    spaces, spaces_string, starts_with, starts_with_chars, string_of, to_lowercase, trim,
    trim_end, trim_end_chars, trim_start, trim_start_chars, utf8_len, utf8_len_of, views,
    lemma_push_contains,
};

verus! {

/// How a target file expresses variables.
#[derive(Debug, Clone, Copy, PartialEq, Eq, Structural)]
pub enum Kind {
    /// KEY=value lines.
    Env,
    /// A docker-compose service's `environment:` block.
    Compose,
}

/// The format a file name suggests: YAML names are compose files.
pub open spec fn spec_kind_of_name(name: Seq<char>) -> Kind {
    let n = lowercase(name);
    if ends_with(n, ".yml"@) || ends_with(n, ".yaml"@) {
        Kind::Compose
    } else {
        Kind::Env
    }
}

/// The format a path suggests, by its file name.
pub open spec fn spec_kind_of(path: Seq<char>) -> Kind {
    match file_name_of(path) {
        Some(n) => spec_kind_of_name(n),
        None => spec_kind_of_name(Seq::empty()),
    }
}

/// Guesses the format from a file name.
pub fn kind_of(path: &str) -> (k: Kind)
    ensures
        k == spec_kind_of(path@),
{
    let name = match file_name(path) {
        Some(n) => n,
        None => String::new(),
    };
    let n = chars_of(to_lowercase(name.as_str()).as_str());
    if ends_with_chars(&n, &chars_of(".yml")) || ends_with_chars(&n, &chars_of(".yaml")) {
        Kind::Compose
    } else {
        Kind::Env
    }
}

/// Files worth offering, in preference order.
pub open spec fn offered_names() -> Seq<Seq<char>> {
    seq!["docker-compose.yml"@, "docker-compose.yaml"@, "compose.yml"@, "compose.yaml"@, ".env"@]
}

/// The first offered name at or after `i` that is among `files`.
pub open spec fn first_offered(files: Seq<Seq<char>>, i: nat) -> Option<nat>
    decreases 5 - i,
{
    if i >= 5 {
        None
    } else if files.contains(offered_names()[i as int]) {
        Some(i)
    } else {
        first_offered(files, i + 1)
    }
}

fn offered_name(i: usize) -> (r: &'static str)
    requires
        i < 5,
    ensures
        r@ == offered_names()[i as int],
{
    match i {
        0 => "docker-compose.yml",
        1 => "docker-compose.yaml",
        2 => "compose.yml",
        3 => "compose.yaml",
        _ => ".env",
    }
}

/// The file worth offering in `dir`, given the names of the regular files
/// found there: the first of the preferred names that is present.
pub fn discover(dir: &str, files: &[String]) -> (r: Option<String>)
    ensures
        match first_offered(views(files@), 0) {
            Some(i) => r matches Some(p) && p@ == joined(dir@, offered_names()[i as int]),
            None => r is None,
        },
{
    let mut i: usize = 0;
    while i < 5
        invariant
            i <= 5,
            first_offered(views(files@), 0) == first_offered(views(files@), i as nat),
        decreases 5 - i,
    {
        let name = offered_name(i);
        let k = String::from_str(name);
        let mut j: usize = 0;
        let mut found = false;
        while j < files.len()
            invariant
                j <= files@.len(),
                k@ == name@,
                found == views(files@).take(j as int).contains(name@),
            decreases files.len() - j,
        {
            proof {
                lemma_push_contains(views(files@).take(j as int), files@[j as int]@);
                assert(views(files@).take(j + 1) =~= views(files@).take(j as int).push(files@[j as int]@));
            }
            if files[j] == k {
                found = true;
            }
            j += 1;
        }
        assert(views(files@).take(j as int) =~= views(files@));
        if found {
            assert(first_offered(views(files@), i as nat) == Some(i as nat));
            return Some(join(dir, name));
        }
        i += 1;
    }
    None
}

// ---------------------------------------------------------------------------
// KEY=value files
// ---------------------------------------------------------------------------

/// The assignment line `KEY=value`.
pub open spec fn env_line(key: Seq<char>, value: Seq<char>) -> Seq<char> {
    key + "="@ + value
}

/// The first line at or after `k` that assigns `key` (a commented-out
/// assignment starts with `#` and so does not count).
pub open spec fn first_assignment(lines: Seq<Seq<char>>, key: Seq<char>, k: int) -> Option<int>
    decreases lines.len() - k,
{
    if k < 0 || k >= lines.len() {
        None
    } else if starts_with(trim_start(lines[k]), key + "="@) {
        Some(k)
    } else {
        first_assignment(lines, key, k + 1)
    }
}

/// Setting one key: its first assignment is replaced, or a new one appended.
pub open spec fn env_set(lines: Seq<Seq<char>>, key: Seq<char>, value: Seq<char>) -> Seq<Seq<char>> {
    match first_assignment(lines, key, 0) {
        Some(i) => lines.update(i, env_line(key, value)),
        None => lines.push(env_line(key, value)),
    }
}

pub open spec fn var_views(vars: Seq<(&str, String)>) -> Seq<(Seq<char>, Seq<char>)> {
    vars.map_values(|v: (&str, String)| (v.0@, v.1@))
}

/// Setting each key in turn.
pub open spec fn env_apply(lines: Seq<Seq<char>>, vars: Seq<(Seq<char>, Seq<char>)>) -> Seq<Seq<char>>
    decreases vars.len(),
{
    if vars.len() == 0 {
        lines
    } else {
        let prev = env_apply(lines, vars.drop_last());
        env_set(prev, vars.last().0, vars.last().1)
    }
}

pub open spec fn spec_update_env(src: Seq<char>, vars: Seq<(Seq<char>, Seq<char>)>) -> Seq<char> {
    finish_lines(env_apply(spec_lines(src), vars))
}

/// Sets each key in a KEY=value file, replacing existing lines in place.
pub fn update_env(src: &str, vars: &[(&str, String)]) -> (out: String)
    ensures
        out@ == spec_update_env(src@, var_views(vars@)),
{
    let mut lines = split_lines(&chars_of(src));
    let mut k: usize = 0;
    while k < vars.len()
        invariant
            k <= vars@.len(),
            lines_view(lines@) == env_apply(spec_lines(src@), var_views(vars@).take(k as int)),
        decreases vars.len() - k,
    {
        let key = chars_of(vars[k].0);
        let value = chars_of(vars[k].1.as_str());
        let mut prefix = key.clone();
        prefix.push('=');
        let mut line = prefix.clone();
        let mut q: usize = 0;
        while q < value.len()
            invariant
                q <= value@.len(),
                line@ == prefix@ + value@.take(q as int),
            decreases value.len() - q,
        {
            line.push(value[q]);
            assert(prefix@ + value@.take(q + 1) =~= (prefix@ + value@.take(q as int)).push(value@[q as int]));
            q += 1;
        }
        proof {
            assert(value@.take(q as int) =~= value@);
            assert(prefix@ =~= key@ + "="@) by {
                reveal_strlit("=");
            }
        }
        let ghost before = lines_view(lines@);
        let ghost found = first_assignment(before, key@, 0);
        let mut i: usize = 0;
        let mut hit = false;
        while i < lines.len()
            invariant_except_break
                !hit,
            invariant
                i <= lines@.len(),
                lines_view(lines@) == before,
                prefix@ == key@ + "="@,
                found == first_assignment(before, key@, i as int),
            ensures
                hit ==> i < lines@.len() && found == Some(i as int),
                !hit ==> found is None,
            decreases lines.len() - i,
        {
            if starts_with_chars(&trim_start_chars(&lines[i]), &prefix) {
                assert(before[i as int] == lines@[i as int]@);
                hit = true;
                break;
            }
            assert(before[i as int] == lines@[i as int]@);
            i += 1;
        }
        if hit {
            lines.set(i, line);
            proof {
                assert(lines_view(lines@) =~= before.update(i as int, env_line(key@, value@)));
            }
        } else {
            lines.push(line);
            proof {
                assert(lines_view(lines@) =~= before.push(env_line(key@, value@)));
            }
        }
        proof {
            assert(var_views(vars@).take(k + 1).drop_last() =~= var_views(vars@).take(k as int));
        }
        k += 1;
    }
    assert(var_views(vars@).take(k as int) =~= var_views(vars@));
    finish(&lines)
}

} // verus!

verus! {

// ---------------------------------------------------------------------------
// docker-compose files
// ---------------------------------------------------------------------------

/// Bytes of leading whitespace: `line.len() - line.trim_start().len()`.
pub open spec fn indent(l: Seq<char>) -> nat {
    utf8_len(l.take(lead_ws(l) as int))
}

/// A line holding only whitespace.
pub open spec fn blank(l: Seq<char>) -> bool {
    trim(l).len() == 0
}

/// The `environment:` key, with or without something after it on the line.
pub open spec fn is_env_key(l: Seq<char>) -> bool {
    let t = trim_start(trim_end(l));
    t == "environment:"@ || starts_with(t, "environment: "@)
}

/// Why a compose file cannot be edited.
#[derive(Debug)]
pub enum ComposeError {
    /// No `environment:` block anywhere (no service was named).
    NoEnvironment,
    /// No service with the given name.
    NoService(String),
    /// The named service has no `environment:` block.
    ServiceWithoutEnvironment(String),
}

/// A `ComposeError` with its service name as text.
pub enum Refusal {
    NoEnvironment,
    NoService(Seq<char>),
    ServiceWithoutEnvironment(Seq<char>),
}

impl View for ComposeError {
    type V = Refusal;

    open spec fn view(&self) -> Refusal {
        match self {
            ComposeError::NoEnvironment => Refusal::NoEnvironment,
            ComposeError::NoService(s) => Refusal::NoService(s@),
            ComposeError::ServiceWithoutEnvironment(s) => Refusal::ServiceWithoutEnvironment(s@),
        }
    }
}

pub open spec fn refusal_message(r: Refusal) -> Seq<char> {
    match r {
        Refusal::NoEnvironment => "no `environment:` block found — add one to the service first, so nothing has to be guessed about the file's layout"@,
        Refusal::NoService(s) => "no service named "@ + debug_quoted(s) + " in that file"@,
        Refusal::ServiceWithoutEnvironment(s) => "service "@ + debug_quoted(s) + " has no `environment:` block — add one first"@,
    }
}

impl ComposeError {
    /// The message shown to the user.
    pub fn message(&self) -> (m: String)
        ensures
            m@ == refusal_message(self@),
    {
        match self {
            ComposeError::NoEnvironment => String::from_str(
                "no `environment:` block found — add one to the service first, so nothing has to be guessed about the file's layout",
            ),
            ComposeError::NoService(s) => {
                let mut m = String::from_str("no service named ");
                let q = debug_string(s.as_str());
                push_str(&mut m, q.as_str());
                push_str(&mut m, " in that file");
                m
            },
            ComposeError::ServiceWithoutEnvironment(s) => {
                let mut m = String::from_str("service ");
                let q = debug_string(s.as_str());
                push_str(&mut m, q.as_str());
                push_str(&mut m, " has no `environment:` block — add one first");
                m
            },
        }
    }
}

/// The first `environment:` line at or after `k`.
pub open spec fn first_env(lines: Seq<Seq<char>>, k: int) -> Option<int>
    decreases lines.len() - k,
{
    if k < 0 || k >= lines.len() {
        None
    } else if is_env_key(lines[k]) {
        Some(k)
    } else {
        first_env(lines, k + 1)
    }
}

/// The first line at or after `k` that reads `header` once indentation is removed.
pub open spec fn first_header(lines: Seq<Seq<char>>, header: Seq<char>, k: int) -> Option<int>
    decreases lines.len() - k,
{
    if k < 0 || k >= lines.len() {
        None
    } else if trim_start(lines[k]) == header {
        Some(k)
    } else {
        first_header(lines, header, k + 1)
    }
}

/// The first `environment:` line from `k` on, before the service's block ends
/// at a non-blank line indented no deeper than the service (`si` bytes).
pub open spec fn env_in_service(lines: Seq<Seq<char>>, k: int, si: nat) -> Option<int>
    decreases lines.len() - k,
{
    if k < 0 || k >= lines.len() {
        None
    } else if !blank(lines[k]) && indent(lines[k]) <= si {
        None
    } else if is_env_key(lines[k]) {
        Some(k)
    } else {
        env_in_service(lines, k + 1, si)
    }
}

pub open spec fn opt_view(o: Option<&str>) -> Option<Seq<char>> {
    match o {
        Some(s) => Some(s@),
        None => None,
    }
}

/// Locates the `environment:` key, optionally within a named service.
pub open spec fn spec_find_environment(lines: Seq<Seq<char>>, service: Option<Seq<char>>) -> Result<int, Refusal> {
    match service {
        None => match first_env(lines, 0) {
            Some(i) => Ok(i),
            None => Err(Refusal::NoEnvironment),
        },
        Some(svc) => match first_header(lines, svc + ":"@, 0) {
            None => Err(Refusal::NoService(svc)),
            Some(start) => match env_in_service(lines, start + 1, indent(lines[start])) {
                Some(i) => Ok(i),
                None => Err(Refusal::ServiceWithoutEnvironment(svc)),
            },
        },
    }
}

/// The first line at or after `k` that ends a block indented `ei` bytes: a
/// non-blank line indented no deeper; or the end of the text.
pub open spec fn block_scan(lines: Seq<Seq<char>>, k: int, ei: nat) -> int
    decreases lines.len() - k,
{
    if k >= lines.len() {
        k
    } else if !blank(lines[k]) && indent(lines[k]) <= ei {
        k
    } else {
        block_scan(lines, k + 1, ei)
    }
}

/// Moves the end of a block back over trailing blank lines, not before `lo`.
pub open spec fn back_off(lines: Seq<Seq<char>>, lo: int, end: int) -> int
    decreases end - lo,
{
    if end > lo && blank(lines[end - 1]) {
        back_off(lines, lo, end - 1)
    } else {
        end
    }
}

/// Some line of `lines[lo..end]` is a list entry ("- ...").
pub open spec fn list_style(lines: Seq<Seq<char>>, lo: int, end: int) -> bool {
    exists|i: int| lo <= i < end && starts_with(trim_start(#[trigger] lines[i]), "- "@)
}

/// The first non-blank line in `lines[k..end]`.
pub open spec fn first_nonblank(lines: Seq<Seq<char>>, k: int, end: int) -> Option<int>
    decreases end - k,
{
    if k < 0 || k >= end {
        None
    } else if !blank(lines[k]) {
        Some(k)
    } else {
        first_nonblank(lines, k + 1, end)
    }
}

/// The indentation of the block's entries: that of its first non-blank line,
/// or two more than the `environment:` key when the block is empty.
pub open spec fn child_indent(lines: Seq<Seq<char>>, lo: int, end: int, ei: nat) -> nat {
    match first_nonblank(lines, lo, end) {
        Some(i) => indent(lines[i]),
        None => ei + 2,
    }
}

/// A variable rendered in the block's style, indented by `pad`.
pub open spec fn render(pad: Seq<char>, list: bool, key: Seq<char>, value: Seq<char>) -> Seq<char> {
    if list {
        pad + "- "@ + key + "="@ + value
    } else {
        pad + key + ": \""@ + value + "\""@
    }
}

/// The first line in `lines[k..end]` that sets `key`, in either style.
pub open spec fn find_key(lines: Seq<Seq<char>>, key: Seq<char>, k: int, end: int) -> Option<int>
    decreases end - k,
{
    if k < 0 || k >= end {
        None
    } else if starts_with(trim_start(lines[k]), key + ":"@) || starts_with(
        trim_start(lines[k]),
        "- "@ + key + "="@,
    ) {
        Some(k)
    } else {
        find_key(lines, key, k + 1, end)
    }
}

/// Setting each variable in the block `lines[lo..end]`: an existing line is
/// replaced in place, a new one goes at the end of the block.
pub open spec fn compose_apply(
    lines: Seq<Seq<char>>,
    lo: int,
    end: int,
    pad: Seq<char>,
    list: bool,
    vars: Seq<(Seq<char>, Seq<char>)>,
) -> (Seq<Seq<char>>, int)
    decreases vars.len(),
{
    if vars.len() == 0 {
        (lines, end)
    } else {
        let (ls, e) = compose_apply(lines, lo, end, pad, list, vars.drop_last());
        let (key, value) = vars.last();
        match find_key(ls, key, lo, e) {
            Some(i) => (ls.update(i, render(pad, list, key, value)), e),
            None => (ls.insert(e, render(pad, list, key, value)), e + 1),
        }
    }
}

/// The edited document, or why it cannot be edited.
pub open spec fn spec_update_compose(
    src: Seq<char>,
    service: Option<Seq<char>>,
    vars: Seq<(Seq<char>, Seq<char>)>,
) -> Result<Seq<char>, Refusal> {
    let lines = spec_lines(src);
    match spec_find_environment(lines, service) {
        Err(e) => Err(e),
        Ok(env_line) => {
            let ei = indent(lines[env_line]);
            let lo = env_line + 1;
            let end = back_off(lines, lo, block_scan(lines, lo, ei));
            let list = list_style(lines, lo, end);
            let child = child_indent(lines, lo, end, ei);
            Ok(finish_lines(compose_apply(lines, lo, end, spaces(child), list, vars).0))
        },
    }
}

pub proof fn lemma_lines_short(s: Seq<char>)
    ensures
        forall|i: int| 0 <= i < spec_lines(s).len() ==> #[trigger] spec_lines(s)[i].len() <= s.len(),
    decreases s.len(),
{
    if s.len() > 0 {
        let p = crate::lines::first_index_of(s, '\n');
        crate::lines::lemma_first_index_of(s, '\n');
        if p >= 0 {
            lemma_lines_short(s.skip(p + 1));
            let ls = spec_lines(s);
            assert forall|i: int| 0 <= i < ls.len() implies #[trigger] ls[i].len() <= s.len() by {
                if i > 0 {
                    assert(ls[i] == spec_lines(s.skip(p + 1))[i - 1]);
                }
            }
        }
    }
}

/// `indent` of a line no longer than `bound` characters.
fn indent_of(l: &Vec<char>) -> (n: usize)
    requires
        l@.len() <= usize::MAX / 8,
    ensures
        n == indent(l@),
        n <= usize::MAX / 2,
{
    proof {
        lemma_lead_ws_bound(l@);
    }
    let k = count_lead_ws(l);
    let lead = slice_chars(l, 0, k);
    assert(lead@ =~= l@.take(k as int));
    proof {
        lemma_utf8_len_le(lead@);
    }
    utf8_len_of(&lead)
}

fn is_env_line(l: &Vec<char>) -> (r: bool)
    ensures
        r == is_env_key(l@),
{
    let t = trim_start_chars(&trim_end_chars(l));
    chars_eq(&t, &chars_of("environment:")) || starts_with_chars(&t, &chars_of("environment: "))
}

fn find_environment(lines: &Vec<Vec<char>>, service: Option<&str>) -> (r: Result<usize, ComposeError>)
    requires
        forall|i: int| 0 <= i < lines@.len() ==> #[trigger] lines@[i]@.len() <= usize::MAX / 8,
    ensures
        match r {
            Ok(i) => spec_find_environment(lines_view(lines@), opt_view(service)) == Ok::<int, Refusal>(i as int),
            Err(e) => spec_find_environment(lines_view(lines@), opt_view(service)) == Err::<int, Refusal>(e@),
        },
        r matches Ok(i) ==> i < lines@.len(),
{
    let ghost ls = lines_view(lines@);
    let n = lines.len();
    match service {
        None => {
            assert(opt_view(service) == None::<Seq<char>>);
            let mut i: usize = 0;
            while i < lines.len()
                invariant
                    i <= lines@.len(),
                    ls == lines_view(lines@),
                    opt_view(service) == None::<Seq<char>>,
                    first_env(ls, 0) == first_env(ls, i as int),
                decreases lines.len() - i,
            {
                assert(ls[i as int] == lines@[i as int]@);
                if is_env_line(&lines[i]) {
                    assert(first_env(ls, i as int) == Some(i as int));
                    return Ok(i);
                }
                i += 1;
            }
            assert(first_env(ls, i as int) is None);
            Err(ComposeError::NoEnvironment)
        },
        Some(svc) => {
            assert(opt_view(service) == Some(svc@));
            let mut header = chars_of(svc);
            header.push(':');
            proof {
                reveal_strlit(":");
                assert(header@ =~= svc@ + ":"@);
            }
            let mut start: usize = 0;
            let mut found = false;
            while start < lines.len()
                invariant_except_break
                    !found,
                invariant
                    start <= lines@.len(),
                    ls == lines_view(lines@),
                    first_header(ls, svc@ + ":"@, 0) == first_header(ls, header@, start as int),
                    header@ == svc@ + ":"@,
                ensures
                    found ==> start < lines@.len() && first_header(ls, header@, 0) == Some(start as int),
                    !found ==> first_header(ls, header@, 0) is None,
                decreases lines.len() - start,
            {
                assert(ls[start as int] == lines@[start as int]@);
                if chars_eq(&trim_start_chars(&lines[start]), &header) {
                    found = true;
                    break;
                }
                start += 1;
            }
            if !found {
                return Err(ComposeError::NoService(String::from_str(svc)));
            }
            assert(start < n);
            assert(ls[start as int] == lines@[start as int]@);
            let si = indent_of(&lines[start]);
            let mut i = start + 1;
            while i < lines.len()
                invariant
                    start < i <= lines@.len(),
                    ls == lines_view(lines@),
                    opt_view(service) == Some(svc@),
                    first_header(ls, svc@ + ":"@, 0) == Some(start as int),
                    si == indent(ls[start as int]),
                    forall|j: int| 0 <= j < lines@.len() ==> #[trigger] lines@[j]@.len() <= usize::MAX / 8,
                    env_in_service(ls, start + 1, si as nat) == env_in_service(ls, i as int, si as nat),
                ensures
                    env_in_service(ls, start + 1, si as nat) is None,
                decreases lines.len() - i,
            {
                assert(ls[i as int] == lines@[i as int]@);
                if !is_blank(&lines[i]) && indent_of(&lines[i]) <= si {
                    break;
                }
                if is_env_line(&lines[i]) {
                    return Ok(i);
                }
                i += 1;
            }
            Err(ComposeError::ServiceWithoutEnvironment(String::from_str(svc)))
        },
    }
}

/// Sets each key inside a compose service's `environment:` block.
///
/// Both mapping (`KEY: value`) and list (`- KEY=value`) styles are supported;
/// whichever the block already uses is preserved.
pub fn update_compose(src: &str, service: Option<&str>, vars: &[(&str, String)]) -> (r: Result<String, ComposeError>)
    requires
        src@.len() <= usize::MAX / 8,
    ensures
        match r {
            Ok(out) => spec_update_compose(src@, opt_view(service), var_views(vars@)) == Ok::<Seq<char>, Refusal>(out@),
            Err(e) => spec_update_compose(src@, opt_view(service), var_views(vars@)) == Err::<Seq<char>, Refusal>(e@),
        },
{
    let mut lines = split_lines(&chars_of(src));
    let ghost ls = lines_view(lines@);
    proof {
        lemma_lines_short(src@);
        assert forall|i: int| 0 <= i < lines@.len() implies #[trigger] lines@[i]@.len() <= usize::MAX / 8 by {
            assert(lines@[i]@ == ls[i]);
        }
    }
    let env_line = match find_environment(&lines, service) {
        Ok(i) => i,
        Err(e) => return Err(e),
    };
    assert(ls[env_line as int] == lines@[env_line as int]@);
    let ei = indent_of(&lines[env_line]);
    let n_lines = lines.len();
    assert(env_line < n_lines);
    let lo = env_line + 1;

    // The block runs until a line at or above the `environment:` indent.
    let mut end = lo;
    while end < lines.len()
        invariant
            lo <= end <= lines@.len(),
            ls == lines_view(lines@),
            forall|i: int| 0 <= i < lines@.len() ==> #[trigger] lines@[i]@.len() <= usize::MAX / 8,
            block_scan(ls, lo as int, ei as nat) == block_scan(ls, end as int, ei as nat),
        ensures
            end == block_scan(ls, lo as int, ei as nat),
        decreases lines.len() - end,
    {
        assert(ls[end as int] == lines@[end as int]@);
        if is_blank(&lines[end]) {
            end += 1;
            continue;
        }
        if indent_of(&lines[end]) <= ei {
            break;
        }
        end += 1;
    }
    let ghost scanned = end;
    // Trailing blank lines belong after the block, not inside it.
    while end > lo && is_blank(&lines[end - 1])
        invariant
            lo <= end <= lines@.len(),
            ls == lines_view(lines@),
            back_off(ls, lo as int, scanned as int) == back_off(ls, lo as int, end as int),
        decreases end,
    {
        assert(ls[end - 1] == lines@[end - 1]@);
        end -= 1;
    }
    proof {
        if end > lo {
            assert(ls[end - 1] == lines@[end - 1]@);
        }
    }
    let ghost body_end = end;

    let dash = chars_of("- ");
    let mut list = false;
    let mut i = lo;
    while i < end
        invariant_except_break
            !list,
        invariant
            lo <= i <= end <= lines@.len(),
            ls == lines_view(lines@),
            dash@ == "- "@,
            forall|j: int| lo <= j < i ==> !starts_with(trim_start(#[trigger] ls[j]), "- "@),
        ensures
            list == list_style(ls, lo as int, end as int),
        decreases end - i,
    {
        assert(ls[i as int] == lines@[i as int]@);
        if starts_with_chars(&trim_start_chars(&lines[i]), &dash) {
            list = true;
            break;
        }
        i += 1;
    }

    let mut child: usize = ei + 2;
    let mut i = lo;
    while i < end
        invariant_except_break
            child == ei + 2,
        invariant
            lo <= i <= end <= lines@.len(),
            ls == lines_view(lines@),
            ei <= usize::MAX / 2,
            forall|j: int| 0 <= j < lines@.len() ==> #[trigger] lines@[j]@.len() <= usize::MAX / 8,
            first_nonblank(ls, lo as int, end as int) == first_nonblank(ls, i as int, end as int),
        ensures
            child as nat == child_indent(ls, lo as int, end as int, ei as nat),
        decreases end - i,
    {
        assert(ls[i as int] == lines@[i as int]@);
        if !is_blank(&lines[i]) {
            child = indent_of(&lines[i]);
            break;
        }
        i += 1;
    }
    let pad = spaces_string(child);

    let mut k: usize = 0;
    while k < vars.len()
        invariant
            k <= vars@.len(),
            lo <= end <= lines@.len(),
            pad@ == spaces(child as nat),
            (lines_view(lines@), end as int) == compose_apply(ls, lo as int, body_end as int, pad@, list, var_views(vars@).take(k as int)),
        decreases vars.len() - k,
    {
        let key = chars_of(vars[k].0);
        let value = chars_of(vars[k].1.as_str());
        let line = render_line(&pad, list, &key, &value);
        let mut mapping_prefix = key.clone();
        mapping_prefix.push(':');
        let mut list_prefix = chars_of("- ");
        let mut q: usize = 0;
        while q < key.len()
            invariant
                q <= key@.len(),
                list_prefix@ == "- "@ + key@.take(q as int),
            decreases key.len() - q,
        {
            list_prefix.push(key[q]);
            assert("- "@ + key@.take(q + 1) =~= ("- "@ + key@.take(q as int)).push(key@[q as int]));
            q += 1;
        }
        list_prefix.push('=');
        proof {
            reveal_strlit(":");
            reveal_strlit("=");
            assert(key@.take(q as int) =~= key@);
            assert(mapping_prefix@ =~= key@ + ":"@);
            assert(list_prefix@ =~= "- "@ + key@ + "="@);
        }
        let ghost cur = lines_view(lines@);
        let ghost found = find_key(cur, key@, lo as int, end as int);
        let mut j = lo;
        let mut hit = false;
        while j < end
            invariant_except_break
                !hit,
            invariant
                lo <= j <= end <= lines@.len(),
                cur == lines_view(lines@),
                mapping_prefix@ == key@ + ":"@,
                list_prefix@ == "- "@ + key@ + "="@,
                found == find_key(cur, key@, j as int, end as int),
            ensures
                hit ==> j < end && found == Some(j as int),
                !hit ==> found is None,
            decreases end - j,
        {
            assert(cur[j as int] == lines@[j as int]@);
            let t = trim_start_chars(&lines[j]);
            if starts_with_chars(&t, &mapping_prefix) || starts_with_chars(&t, &list_prefix) {
                hit = true;
                break;
            }
            j += 1;
        }
        if hit {
            lines.set(j, line);
            assert(lines_view(lines@) =~= cur.update(j as int, render(pad@, list, key@, value@)));
        } else {
            lines.insert(end, line);
            assert(lines_view(lines@) =~= cur.insert(end as int, render(pad@, list, key@, value@)));
            let grown = lines.len();
            assert(end < grown);
            end += 1;
        }
        proof {
            assert(var_views(vars@).take(k + 1).drop_last() =~= var_views(vars@).take(k as int));
        }
        k += 1;
    }
    assert(var_views(vars@).take(k as int) =~= var_views(vars@));
    Ok(finish(&lines))
}

/// `render` on characters.
fn render_line(pad: &Vec<char>, list: bool, key: &Vec<char>, value: &Vec<char>) -> (l: Vec<char>)
    ensures
        l@ == render(pad@, list, key@, value@),
{
    let mut parts: Vec<Vec<char>> = Vec::new();
    parts.push(pad.clone());
    if list {
        parts.push(chars_of("- "));
        parts.push(key.clone());
        parts.push(chars_of("="));
        parts.push(value.clone());
    } else {
        parts.push(key.clone());
        parts.push(chars_of(": \""));
        parts.push(value.clone());
        parts.push(chars_of("\""));
    }
    let mut out: Vec<char> = Vec::new();
    let mut p: usize = 0;
    while p < parts.len()
        invariant
            p <= parts@.len(),
            out@ == concat_all(lines_view(parts@).take(p as int)),
        decreases parts.len() - p,
    {
        let mut q: usize = 0;
        let ghost base = out@;
        while q < parts[p].len()
            invariant
                p < parts@.len(),
                q <= parts@[p as int]@.len(),
                out@ == base + parts@[p as int]@.take(q as int),
            decreases parts@[p as int]@.len() - q,
        {
            out.push(parts[p][q]);
            assert(base + parts@[p as int]@.take(q + 1) =~= (base + parts@[p as int]@.take(q as int)).push(parts@[p as int]@[q as int]));
            q += 1;
        }
        assert(parts@[p as int]@.take(q as int) =~= parts@[p as int]@);
        assert(lines_view(parts@).take(p + 1).drop_last() =~= lines_view(parts@).take(p as int));
        p += 1;
    }
    assert(lines_view(parts@).take(p as int) =~= lines_view(parts@));
    proof {
        let v = lines_view(parts@);
        if list {
            assert(v =~= seq![pad@, "- "@, key@, "="@, value@]);
            assert(concat_all(v) =~= pad@ + "- "@ + key@ + "="@ + value@) by {
                reveal_with_fuel(concat_all, 6);
                assert(v.drop_last().drop_last().drop_last().drop_last().drop_last() =~= Seq::<Seq<char>>::empty());
            }
        } else {
            assert(v =~= seq![pad@, key@, ": \""@, value@, "\""@]);
            assert(concat_all(v) =~= pad@ + key@ + ": \""@ + value@ + "\""@) by {
                reveal_with_fuel(concat_all, 6);
                assert(v.drop_last().drop_last().drop_last().drop_last().drop_last() =~= Seq::<Seq<char>>::empty());
            }
        }
    }
    out
}

/// All the pieces, one after another.
pub open spec fn concat_all(parts: Seq<Seq<char>>) -> Seq<char>
    decreases parts.len(),
{
    if parts.len() == 0 {
        Seq::empty()
    } else {
        concat_all(parts.drop_last()) + parts.last()
    }
}

pub proof fn lemma_find_key_in_range(lines: Seq<Seq<char>>, key: Seq<char>, k: int, end: int)
    ensures
        find_key(lines, key, k, end) matches Some(i) ==> k <= i < end,
    decreases end - k,
{
    if k >= 0 && k < end {
        lemma_find_key_in_range(lines, key, k + 1, end);
    }
}

pub proof fn lemma_first_assignment(lines: Seq<Seq<char>>, key: Seq<char>, k: int)
    requires
        0 <= k,
    ensures
        first_assignment(lines, key, k) matches Some(i) ==> k <= i < lines.len() && starts_with(
            trim_start(lines[i]),
            key + "="@,
        ),
        forall|j: int|
            k <= j < lines.len() && (first_assignment(lines, key, k) is None || j < first_assignment(lines, key, k)->0)
                ==> !starts_with(trim_start(#[trigger] lines[j]), key + "="@),
    decreases lines.len() - k,
{
    if k < lines.len() {
        lemma_first_assignment(lines, key, k + 1);
    }
}

/// Setting a key in a KEY=value file: the first assignment of the key is
/// replaced in place by `KEY=value` (or, when there is none, `KEY=value` is
/// appended); every other line stays as it was, so no second assignment
/// appears and commented-out or unrelated lines survive. Afterwards the
/// first assignment of the key is the new line (for a key that does not
/// begin with whitespace).
pub proof fn lemma_env_set(lines: Seq<Seq<char>>, key: Seq<char>, value: Seq<char>)
    requires
        key.len() > 0 ==> !crate::text::is_ws(key[0]),
    ensures
        ({
            let out = env_set(lines, key, value);
            match first_assignment(lines, key, 0) {
                Some(i) => out.len() == lines.len() && out[i] == env_line(key, value)
                    && forall|j: int| 0 <= j < lines.len() && j != i ==> #[trigger] out[j] == lines[j],
                None => out == lines.push(env_line(key, value)),
            }
        }),
        first_assignment(env_set(lines, key, value), key, 0) matches Some(i)
            && env_set(lines, key, value)[i] == env_line(key, value),
{
    lemma_first_assignment(lines, key, 0);
    let out = env_set(lines, key, value);
    let l = env_line(key, value);
    assert(trim_start(l) == l) by {
        crate::text::lemma_lead_ws_bound(l);
        if l.len() > 0 {
            if key.len() > 0 {
                assert(l[0] == key[0]);
            } else {
                reveal_strlit("=");
                assert(l[0] == '=');
            }
            assert(crate::text::lead_ws(l) == 0);
        }
        assert(l.skip(0) =~= l);
    }
    assert(starts_with(l, key + "="@)) by {
        assert(l.take((key + "="@).len() as int) =~= key + "="@);
    }
    lemma_first_assignment(out, key, 0);
    match first_assignment(lines, key, 0) {
        Some(i) => {
            if first_assignment(out, key, 0) != Some(i) {
                assert(out[i] == l);
            }
        },
        None => {
            let n = lines.len() as int;
            if first_assignment(out, key, 0) != Some(n) {
                assert(out[n] == l);
                let f = first_assignment(out, key, 0);
                if let Some(j) = f {
                    if j < n {
                        assert(out[j] == lines[j]);
                    }
                }
            }
        },
    }
}

/// The line assigns `key`: after any leading whitespace it begins `KEY=`.
pub open spec fn assigns(line: Seq<char>, key: Seq<char>) -> bool {
    starts_with(trim_start(line), key + "="@)
}

/// A key a KEY=value edit can set: not empty, not starting with whitespace,
/// and free of '='.
pub open spec fn env_key_ok(key: Seq<char>) -> bool {
    &&& key.len() > 0
    &&& !crate::text::is_ws(key[0])
    &&& forall|i: int| 0 <= i < key.len() ==> #[trigger] key[i] != '='
}

/// Variables for a KEY=value edit: each key settable, no key twice.
pub open spec fn env_vars_ok(vars: Seq<(Seq<char>, Seq<char>)>) -> bool {
    &&& forall|i: int| 0 <= i < vars.len() ==> env_key_ok(#[trigger] vars[i].0)
    &&& forall|i: int, j: int| 0 <= i < j < vars.len() ==> #[trigger] vars[i].0 != #[trigger] vars[j].0
}

/// No line assigns two different settable keys.
proof fn lemma_assigns_one_key(line: Seq<char>, a: Seq<char>, b: Seq<char>)
    requires
        env_key_ok(a),
        env_key_ok(b),
        assigns(line, a),
        assigns(line, b),
    ensures
        a == b,
{
    reveal_strlit("=");
    let t = trim_start(line);
    assert(t.take(a.len() + 1int) == a + "="@);
    assert(t.take(b.len() + 1int) == b + "="@);
    if a.len() < b.len() {
        assert(t[a.len() as int] == (a + "="@)[a.len() as int]);
        assert(t[a.len() as int] == (b + "="@)[a.len() as int]);
        assert(b[a.len() as int] != '=');
    } else if b.len() < a.len() {
        assert(t[b.len() as int] == (b + "="@)[b.len() as int]);
        assert(t[b.len() as int] == (a + "="@)[b.len() as int]);
        assert(a[b.len() as int] != '=');
    } else {
        assert forall|i: int| 0 <= i < a.len() implies a[i] == b[i] by {
            assert(t[i] == (a + "="@)[i]);
            assert(t[i] == (b + "="@)[i]);
        }
        assert(a =~= b);
    }
}

/// `KEY=value` assigns its key.
proof fn lemma_env_line_assigns(key: Seq<char>, value: Seq<char>)
    requires
        env_key_ok(key),
    ensures
        assigns(env_line(key, value), key),
{
    reveal_strlit("=");
    let l = env_line(key, value);
    crate::text::lemma_lead_ws_bound(l);
    assert(l[0] == key[0]);
    assert(lead_ws(l) == 0);
    assert(l.skip(0) =~= l);
    assert(l.take((key + "="@).len() as int) =~= key + "="@);
}

/// Replacing or adding a line that does not assign `key`, in place of one
/// that does not either, leaves the first assignment of `key` where it was.
proof fn lemma_first_assignment_kept(lines: Seq<Seq<char>>, q: int, l: Seq<char>, key: Seq<char>, k: int)
    requires
        0 <= k,
        0 <= q <= lines.len(),
        !assigns(l, key),
        q < lines.len() ==> !assigns(lines[q], key),
    ensures
        first_assignment(if q < lines.len() { lines.update(q, l) } else { lines.push(l) }, key, k)
            == first_assignment(lines, key, k),
    decreases lines.len() + 1 - k,
{
    let out = if q < lines.len() { lines.update(q, l) } else { lines.push(l) };
    if k < out.len() {
        lemma_first_assignment_kept(lines, q, l, key, k + 1);
        if k < lines.len() && k != q {
            assert(out[k] == lines[k]);
        } else if k == q {
            assert(out[k] == l);
        }
    }
}

/// Every variable set so far has its first assignment as its own line.
pub open spec fn env_settled(lines: Seq<Seq<char>>, vars: Seq<(Seq<char>, Seq<char>)>) -> bool {
    forall|i: int|
        0 <= i < vars.len() ==> ((#[trigger] first_assignment(lines, vars[i].0, 0)) matches Some(p) && lines[p]
            == env_line(vars[i].0, vars[i].1))
}

proof fn lemma_env_apply_prefix(
    lines: Seq<Seq<char>>,
    vars: Seq<(Seq<char>, Seq<char>)>,
    n: int,
)
    requires
        env_vars_ok(vars),
        0 <= n <= vars.len(),
    ensures
        env_settled(env_apply(lines, vars.take(n)), vars.take(n)),
        env_apply(lines, vars.take(n)).len() >= lines.len(),
        forall|j: int|
            0 <= j < lines.len() && (forall|i: int| 0 <= i < n ==> !assigns(lines[j], #[trigger] vars[i].0))
                ==> #[trigger] env_apply(lines, vars.take(n))[j] == lines[j],
    decreases n,
{
    let cur = vars.take(n);
    if n == 0 {
        assert(cur =~= Seq::<(Seq<char>, Seq<char>)>::empty());
    } else {
        lemma_env_apply_prefix(lines, vars, n - 1);
        let prev_vars = vars.take(n - 1);
        assert(cur.drop_last() =~= prev_vars);
        assert(cur.last() == vars[n - 1]);
        let prev = env_apply(lines, prev_vars);
        let (key, value) = vars[n - 1];
        assert(env_key_ok(vars[n - 1].0));
        lemma_env_set(prev, key, value);
        lemma_first_assignment(prev, key, 0);
        lemma_env_line_assigns(key, value);
        let out = env_set(prev, key, value);
        assert(env_apply(lines, cur) == out);
        assert forall|i: int| 0 <= i < cur.len() implies ((#[trigger] first_assignment(out, cur[i].0, 0)) matches Some(p)
            && out[p] == env_line(cur[i].0, cur[i].1)) by {
            if i < n - 1 {
                let ki = vars[i].0;
                assert(cur[i] == vars[i]);
                assert(prev_vars[i] == vars[i]);
                assert(env_key_ok(ki));
                assert(ki != key);
                let p = first_assignment(prev, ki, 0)->0;
                lemma_first_assignment(prev, ki, 0);
                assert(prev[p] == env_line(ki, vars[i].1));
                lemma_env_line_assigns(ki, vars[i].1);
                if assigns(env_line(key, value), ki) {
                    lemma_assigns_one_key(env_line(key, value), key, ki);
                }
                match first_assignment(prev, key, 0) {
                    Some(q) => {
                        if assigns(prev[q], ki) {
                            lemma_assigns_one_key(prev[q], key, ki);
                        }
                        lemma_first_assignment_kept(prev, q, env_line(key, value), ki, 0);
                        assert(q != p);
                        assert(out[p] == prev[p]);
                    },
                    None => {
                        lemma_first_assignment_kept(prev, prev.len() as int, env_line(key, value), ki, 0);
                        assert(out[p] == prev[p]);
                    },
                }
            } else {
                assert(cur[i] == vars[n - 1]);
            }
        }
        assert forall|j: int|
            0 <= j < lines.len() && (forall|i: int| 0 <= i < n ==> !assigns(lines[j], #[trigger] vars[i].0))
                implies #[trigger] out[j] == lines[j] by {
            assert(!assigns(lines[j], vars[n - 1].0));
            assert(prev[j] == lines[j]);
            match first_assignment(prev, key, 0) {
                Some(q) => {
                    assert(q != j);
                },
                None => {},
            }
        }
    }
}

proof fn lemma_env_apply_settled(lines: Seq<Seq<char>>, vars: Seq<(Seq<char>, Seq<char>)>, n: int)
    requires
        env_settled(lines, vars),
        0 <= n <= vars.len(),
    ensures
        env_apply(lines, vars.take(n)) == lines,
    decreases n,
{
    let cur = vars.take(n);
    if n == 0 {
        assert(cur =~= Seq::<(Seq<char>, Seq<char>)>::empty());
    } else {
        lemma_env_apply_settled(lines, vars, n - 1);
        assert(cur.drop_last() =~= vars.take(n - 1));
        assert(cur.last() == vars[n - 1]);
        assert(first_assignment(lines, vars[n - 1].0, 0) matches Some(p) && (lines[p] == env_line(vars[n - 1].0, vars[n - 1].1)));
        let p = first_assignment(lines, vars[n - 1].0, 0)->0;
        lemma_first_assignment(lines, vars[n - 1].0, 0);
        assert(lines.update(p, env_line(vars[n - 1].0, vars[n - 1].1)) =~= lines);
    }
}

/// A KEY=value edit with distinct settable keys: afterwards the first
/// assignment of each key is exactly `KEY=value`; every original line that
/// assigns none of the keys (a comment such as `# MODS=x` among them) is
/// kept, in its place; and editing again with the same variables changes
/// nothing.
pub proof fn lemma_env_edit(lines: Seq<Seq<char>>, vars: Seq<(Seq<char>, Seq<char>)>)
    requires
        env_vars_ok(vars),
    ensures
        env_settled(env_apply(lines, vars), vars),
        env_apply(lines, vars).len() >= lines.len(),
        forall|j: int|
            0 <= j < lines.len() && (forall|i: int| 0 <= i < vars.len() ==> !assigns(lines[j], #[trigger] vars[i].0))
                ==> #[trigger] env_apply(lines, vars)[j] == lines[j],
        env_apply(env_apply(lines, vars), vars) == env_apply(lines, vars),
{
    lemma_env_apply_prefix(lines, vars, vars.len() as int);
    assert(vars.take(vars.len() as int) =~= vars);
    lemma_env_apply_settled(env_apply(lines, vars), vars, vars.len() as int);
}

/// The text holds no newline.
pub open spec fn free_of_newlines(s: Seq<char>) -> bool {
    forall|c: int| 0 <= c < s.len() ==> #[trigger] s[c] != '\n'
}

/// The line is one of `lines` or one of the variables' `KEY=value` lines.
pub open spec fn env_line_from(l: Seq<char>, lines: Seq<Seq<char>>, vars: Seq<(Seq<char>, Seq<char>)>) -> bool {
    lines.contains(l) || exists|i: int| 0 <= i < vars.len() && l == env_line(#[trigger] vars[i].0, vars[i].1)
}

proof fn lemma_env_apply_lines(lines: Seq<Seq<char>>, vars: Seq<(Seq<char>, Seq<char>)>)
    ensures
        env_apply(lines, vars).len() >= lines.len(),
        forall|j: int| 0 <= j < env_apply(lines, vars).len() ==> env_line_from(#[trigger] env_apply(lines, vars)[j], lines, vars),
        env_apply(lines, vars).len() > 0 ==> (exists|i: int| 0 <= i < vars.len() && env_apply(lines, vars).last() == env_line(#[trigger] vars[i].0, vars[i].1))
            || (env_apply(lines, vars).len() == lines.len() && env_apply(lines, vars).last() == lines.last()),
    decreases vars.len(),
{
    if vars.len() > 0 {
        let pv = vars.drop_last();
        lemma_env_apply_lines(lines, pv);
        let prev = env_apply(lines, pv);
        let (key, value) = vars.last();
        let l = env_line(key, value);
        let out = env_set(prev, key, value);
        lemma_first_assignment(prev, key, 0);
        assert(vars[vars.len() - 1] == vars.last());
        assert forall|j: int| 0 <= j < out.len() implies env_line_from(#[trigger] out[j], lines, vars) by {
            if out[j] == l {
                assert(l == env_line(vars[vars.len() - 1].0, vars[vars.len() - 1].1));
            } else {
                assert(j < prev.len());
                assert(out[j] == prev[j]);
                assert(env_line_from(prev[j], lines, pv));
                if !lines.contains(prev[j]) {
                    let i = choose|i: int| 0 <= i < pv.len() && prev[j] == env_line(#[trigger] pv[i].0, pv[i].1);
                    assert(pv[i] == vars[i]);
                }
            }
        }
        match first_assignment(prev, key, 0) {
            Some(q) => {
                if q == prev.len() - 1 {
                    assert(out.last() == env_line(vars[vars.len() - 1].0, vars[vars.len() - 1].1));
                } else {
                    assert(out.last() == prev.last());
                    if prev.len() == lines.len() && prev.last() == lines.last() {
                    } else {
                        let i = choose|i: int| 0 <= i < pv.len() && prev.last() == env_line(#[trigger] pv[i].0, pv[i].1);
                        assert(pv[i] == vars[i]);
                    }
                }
            },
            None => {
                assert(out.last() == env_line(vars[vars.len() - 1].0, vars[vars.len() - 1].1));
            },
        }
    }
}

/// The line ends in a carriage return.
pub open spec fn ends_cr(l: Seq<char>) -> bool {
    l.len() > 0 && l.last() == '\r'
}

proof fn lemma_lead_ws_push(m: Seq<char>, c: char)
    ensures
        lead_ws(m) < m.len() ==> lead_ws(m.push(c)) == lead_ws(m),
        lead_ws(m) == m.len() && crate::text::is_ws(c) ==> lead_ws(m.push(c)) == m.len() + 1,
    decreases m.len(),
{
    lemma_lead_ws_bound(m);
    if m.len() > 0 {
        assert(m.push(c).drop_first() =~= m.drop_first().push(c));
        lemma_lead_ws_push(m.drop_first(), c);
        assert(m.push(c)[0] == m[0]);
        if crate::text::is_ws(m[0]) {
            assert(lead_ws(m) == 1 + lead_ws(m.drop_first()));
            assert(lead_ws(m.push(c)) == 1 + lead_ws(m.push(c).drop_first()));
        } else {
            assert(lead_ws(m) == 0);
            assert(lead_ws(m.push(c)) == 0);
        }
    } else {
        assert(m.push(c).drop_first() =~= Seq::<char>::empty());
        assert(m.push(c)[0] == c);
        assert(lead_ws(Seq::<char>::empty()) == 0);
        if crate::text::is_ws(c) {
            assert(lead_ws(m.push(c)) == 1 + lead_ws(m.push(c).drop_first()));
        }
    }
}

/// Dropping a final carriage return does not change whether the line,
/// once its indentation is removed, starts with a prefix that does not end
/// in one.
proof fn lemma_strip_keeps_prefix(l: Seq<char>, p: Seq<char>)
    requires
        p.len() > 0,
        p.last() != '\r',
    ensures
        starts_with(trim_start(crate::lines::strip_cr(l)), p) == starts_with(trim_start(l), p),
{
    if ends_cr(l) {
        let m = l.drop_last();
        assert(l =~= m.push('\r'));
        assert(crate::text::is_ws('\r')) by {
            assert('\r' as u32 == 0x0D);
        }
        lemma_lead_ws_bound(m);
        lemma_lead_ws_push(m, '\r');
        if lead_ws(m) < m.len() {
            let t = m.skip(lead_ws(m) as int);
            assert(trim_start(l) =~= t.push('\r'));
            if p.len() <= t.len() {
                assert(t.push('\r').take(p.len() as int) =~= t.take(p.len() as int));
            } else if p.len() == t.len() + 1 {
                if starts_with(t.push('\r'), p) {
                    assert(t.push('\r').take(p.len() as int) =~= t.push('\r'));
                    assert(p[p.len() - 1] == '\r');
                }
            }
        } else {
            assert(trim_start(l).len() == 0);
            assert(trim_start(m).len() == 0);
        }
    }
}

proof fn lemma_first_assignment_agree(a: Seq<Seq<char>>, b: Seq<Seq<char>>, key: Seq<char>, k: int)
    requires
        0 <= k,
        a.len() == b.len(),
        forall|j: int| 0 <= j < a.len() ==> assigns(#[trigger] a[j], key) == assigns(b[j], key),
    ensures
        first_assignment(a, key, k) == first_assignment(b, key, k),
    decreases a.len() - k,
{
    if k < a.len() {
        assert(assigns(a[k], key) == assigns(b[k], key));
        lemma_first_assignment_agree(a, b, key, k + 1);
    }
}

proof fn lemma_first_assignment_prefix(a: Seq<Seq<char>>, b: Seq<Seq<char>>, key: Seq<char>, k: int, p: int)
    requires
        0 <= k <= p < a.len() <= b.len(),
        b.take(a.len() as int) == a,
        first_assignment(b, key, k) == Some(p),
    ensures
        first_assignment(a, key, k) == Some(p),
    decreases p - k,
{
    assert(a[k] == b.take(a.len() as int)[k]);
    if k < p {
        lemma_first_assignment_prefix(a, b, key, k + 1, p);
    } else {
        lemma_first_assignment(b, key, k + 1);
    }
}

/// Editing lines that differ from settled lines only where the variables
/// go, and that assign the same keys on each line, gives the settled lines.
proof fn lemma_env_restore(r: Seq<Seq<char>>, d: Seq<Seq<char>>, vars: Seq<(Seq<char>, Seq<char>)>, n: int)
    requires
        env_vars_ok(vars),
        0 <= n <= vars.len(),
        r.len() == d.len(),
        env_settled(d, vars),
        forall|j: int, i: int|
            0 <= j < r.len() && 0 <= i < vars.len() ==> assigns(#[trigger] r[j], #[trigger] vars[i].0) == assigns(d[j], vars[i].0),
        forall|j: int|
            0 <= j < d.len() && (forall|i: int| 0 <= i < vars.len() ==> first_assignment(d, #[trigger] vars[i].0, 0) != Some(j))
                ==> #[trigger] r[j] == d[j],
    ensures
        env_apply(r, vars.take(n)).len() == d.len(),
        forall|j: int, i: int|
            0 <= j < d.len() && 0 <= i < vars.len() ==> assigns(#[trigger] env_apply(r, vars.take(n))[j], #[trigger] vars[i].0)
                == assigns(d[j], vars[i].0),
        forall|i: int|
            0 <= i < n ==> (#[trigger] first_assignment(d, vars[i].0, 0) matches Some(p) && env_apply(r, vars.take(n))[p]
                == d[p]),
        forall|j: int|
            0 <= j < d.len() && (forall|i: int| 0 <= i < n ==> first_assignment(d, #[trigger] vars[i].0, 0) != Some(j))
                ==> #[trigger] env_apply(r, vars.take(n))[j] == r[j],
    decreases n,
{
    let cur = vars.take(n);
    if n == 0 {
        assert(cur =~= Seq::<(Seq<char>, Seq<char>)>::empty());
    } else {
        lemma_env_restore(r, d, vars, n - 1);
        let pv = vars.take(n - 1);
        assert(cur.drop_last() =~= pv);
        assert(cur.last() == vars[n - 1]);
        let x = env_apply(r, pv);
        let (key, value) = vars[n - 1];
        assert(first_assignment(d, key, 0) matches Some(p) && d[p] == env_line(key, value));
        let p = first_assignment(d, key, 0)->0;
        lemma_first_assignment(d, key, 0);
        assert forall|j: int| 0 <= j < x.len() implies assigns(#[trigger] x[j], key) == assigns(d[j], key) by {
            assert(assigns(x[j], vars[n - 1].0) == assigns(d[j], vars[n - 1].0));
        }
        lemma_first_assignment_agree(x, d, key, 0);
        let out = x.update(p, env_line(key, value));
        assert(env_apply(r, cur) == out);
        assert forall|j: int, i: int|
            0 <= j < d.len() && 0 <= i < vars.len() implies assigns(#[trigger] out[j], #[trigger] vars[i].0) == assigns(d[j], vars[i].0) by {
            if j != p {
                assert(out[j] == x[j]);
                assert(assigns(x[j], vars[i].0) == assigns(d[j], vars[i].0));
            }
        }
        assert forall|i: int| 0 <= i < n implies (#[trigger] first_assignment(d, vars[i].0, 0) matches Some(q) && out[q] == d[q]) by {
            if i < n - 1 {
                assert(first_assignment(d, vars[i].0, 0) matches Some(q) && x[q] == d[q]);
                let q = first_assignment(d, vars[i].0, 0)->0;
                lemma_first_assignment(d, vars[i].0, 0);
                if q != p {
                    assert(out[q] == x[q]);
                }
            } else {
                assert(vars[i] == vars[n - 1]);
                assert(out[p] == d[p]);
            }
        }
        assert forall|j: int|
            0 <= j < d.len() && (forall|i: int| 0 <= i < n ==> first_assignment(d, #[trigger] vars[i].0, 0) != Some(j))
                implies #[trigger] out[j] == r[j] by {
            assert(first_assignment(d, vars[n - 1].0, 0) != Some(j));
            assert(forall|i: int| 0 <= i < n - 1 ==> first_assignment(d, #[trigger] vars[i].0, 0) != Some(j));
            assert(x[j] == r[j]);
        }
    }
}

/// Re-editing a KEY=value file with the same variables leaves the text as
/// the first edit wrote it, except where the text cannot read back as
/// written: a kept line (one no variable replaced) ending in a carriage
/// return, which reading strips; or two or more empty lines at the end of the
/// edited lines (three or more when they are all empty), of which reading
/// drops one each time. The keys are distinct and settable; keys and values
/// hold no newline.
pub proof fn lemma_env_reedit(src: Seq<char>, vars: Seq<(Seq<char>, Seq<char>)>)
    requires
        env_vars_ok(vars),
        forall|i: int| 0 <= i < vars.len() ==> free_of_newlines(#[trigger] vars[i].0),
        forall|i: int| 0 <= i < vars.len() ==> free_of_newlines(#[trigger] vars[i].1),
        forall|j: int|
            0 <= j < env_apply(spec_lines(src), vars).len() && (forall|i: int|
                0 <= i < vars.len() ==> first_assignment(env_apply(spec_lines(src), vars), #[trigger] vars[i].0, 0) != Some(j))
                ==> !ends_cr(#[trigger] env_apply(spec_lines(src), vars)[j]),
        !({
            let e = env_apply(spec_lines(src), vars);
            &&& e.len() >= 2
            &&& e.last().len() == 0
            &&& e[e.len() - 2].len() == 0
            &&& e.len() >= 3 || exists|j: int| 0 <= j < e.len() && (#[trigger] e[j]).len() > 0
        }),
    ensures
        spec_update_env(spec_update_env(src, vars), vars) == spec_update_env(src, vars),
{
    let ls = spec_lines(src);
    let e = env_apply(ls, vars);
    lemma_env_edit(ls, vars);
    lemma_env_apply_lines(ls, vars);
    crate::lines::lemma_lines_no_newline(src);
    reveal_strlit("=");
    if e.len() == 0 {
        if vars.len() > 0 {
            assert(first_assignment(e, vars[0].0, 0) matches Some(p));
            lemma_first_assignment(e, vars[0].0, 0);
        }
        assert(vars.len() == 0);
        assert(finish_lines(e) =~= seq!['\n']);
        let l2 = spec_lines(finish_lines(e));
        crate::lines::lemma_finish_reads_back(seq![Seq::<char>::empty()]);
        assert(finish_lines(seq![Seq::<char>::empty()]) =~= seq!['\n']);
        assert(env_apply(l2, vars) == l2);
        assert(finish_lines(l2) =~= seq!['\n']);
    } else {
        assert forall|j: int| 0 <= j < e.len() implies crate::lines::no_newline(#[trigger] e[j]) by {
            assert(env_line_from(e[j], ls, vars));
            if ls.contains(e[j]) {
                let q = choose|q: int| 0 <= q < ls.len() && ls[q] == e[j];
                assert(crate::lines::no_newline(ls[q]));
            } else {
                let i = choose|i: int| 0 <= i < vars.len() && e[j] == env_line(#[trigger] vars[i].0, vars[i].1);
                let (k, v) = vars[i];
                assert(free_of_newlines(k) && free_of_newlines(v));
                assert forall|c: int| 0 <= c < e[j].len() implies #[trigger] e[j][c] != '\n' by {
                    if c < k.len() {
                        assert(e[j][c] == k[c]);
                    } else if c == k.len() {
                        assert(e[j][c] == '=');
                    } else {
                        assert(e[j][c] == v[c - k.len() - 1]);
                    }
                }
            }
        }
        crate::lines::lemma_finish_reads_back(e);
        let dropped = e.len() >= 2 && e.last().len() == 0;
        let d = if dropped { e.drop_last() } else { e };
        let r = crate::lines::strip_all(d);
        assert(spec_lines(finish_lines(e)) == r);
        // The variables' lines are where they were.
        assert forall|i: int| 0 <= i < vars.len() implies (#[trigger] first_assignment(d, vars[i].0, 0)) == first_assignment(e, vars[i].0, 0) by {
            if dropped {
                let k = vars[i].0;
                assert(first_assignment(e, k, 0) matches Some(p) && e[p] == env_line(k, vars[i].1));
                let p = first_assignment(e, k, 0)->0;
                lemma_first_assignment(e, k, 0);
                if p == e.len() - 1 {
                    assert(env_key_ok(k));
                    assert(e[p].len() > 0);
                }
                assert(e.take(d.len() as int) =~= d);
                lemma_first_assignment_prefix(d, e, k, 0, p);
            }
        }
        assert(env_settled(d, vars)) by {
            assert forall|i: int| 0 <= i < vars.len() implies ((#[trigger] first_assignment(d, vars[i].0, 0)) matches Some(p) && d[p]
                == env_line(vars[i].0, vars[i].1)) by {
                assert(first_assignment(d, vars[i].0, 0) == first_assignment(e, vars[i].0, 0));
                assert(first_assignment(e, vars[i].0, 0) matches Some(p) && e[p] == env_line(vars[i].0, vars[i].1));
                lemma_first_assignment(d, vars[i].0, 0);
            }
        }
        assert forall|j: int, i: int| 0 <= j < r.len() && 0 <= i < vars.len() implies assigns(#[trigger] r[j], #[trigger] vars[i].0)
            == assigns(d[j], vars[i].0) by {
            reveal_strlit("=");
            assert(env_key_ok(vars[i].0));
            lemma_strip_keeps_prefix(d[j], vars[i].0 + "="@);
        }
        assert forall|j: int|
            0 <= j < d.len() && (forall|i: int| 0 <= i < vars.len() ==> first_assignment(d, #[trigger] vars[i].0, 0) != Some(j))
                implies #[trigger] r[j] == d[j] by {
            assert(d[j] == e[j]);
            assert forall|i: int| 0 <= i < vars.len() implies first_assignment(e, #[trigger] vars[i].0, 0) != Some(j) by {
                assert(first_assignment(d, vars[i].0, 0) == first_assignment(e, vars[i].0, 0));
            }
            assert(!ends_cr(e[j]));
        }
        lemma_env_restore(r, d, vars, vars.len() as int);
        assert(vars.take(vars.len() as int) =~= vars);
        let x = env_apply(r, vars);
        assert forall|j: int| 0 <= j < d.len() implies #[trigger] x[j] == d[j] by {
            if exists|i: int| 0 <= i < vars.len() && first_assignment(d, #[trigger] vars[i].0, 0) == Some(j) {
                let i = choose|i: int| 0 <= i < vars.len() && first_assignment(d, #[trigger] vars[i].0, 0) == Some(j);
                assert(first_assignment(d, vars[i].0, 0) matches Some(q) && x[q] == d[q]);
            }
        }
        assert(x =~= d);
        // Finishing the lines kept gives the same text.
        assert forall|j: int| 0 <= j < d.len() implies crate::lines::no_newline(#[trigger] d[j]) by {
            assert(d[j] == e[j]);
        }
        crate::lines::lemma_finish_reads_back(d);
        if dropped {
            if d.len() >= 2 && d.last().len() == 0 {
                assert(e[e.len() - 2] == d.last());
                assert(e.len() >= 3);
            }
        }
    }
}

/// Editing a compose block leaves the rest of the document alone: the lines
/// before the block and those after it are exactly as they were, and the
/// block grows by the lines added.
pub proof fn lemma_compose_outside_block_untouched(
    lines: Seq<Seq<char>>,
    lo: int,
    end: int,
    pad: Seq<char>,
    list: bool,
    vars: Seq<(Seq<char>, Seq<char>)>,
)
    requires
        0 <= lo <= end <= lines.len(),
    ensures
        ({
            let (out, e) = compose_apply(lines, lo, end, pad, list, vars);
            &&& end <= e
            &&& out.len() == lines.len() + (e - end)
            &&& out.take(lo) == lines.take(lo)
            &&& out.skip(e) == lines.skip(end)
        }),
    decreases vars.len(),
{
    if vars.len() > 0 {
        lemma_compose_outside_block_untouched(lines, lo, end, pad, list, vars.drop_last());
        let (ls, e) = compose_apply(lines, lo, end, pad, list, vars.drop_last());
        let (key, value) = vars.last();
        lemma_find_key_in_range(ls, key, lo, e);
        let r = render(pad, list, key, value);
        match find_key(ls, key, lo, e) {
            Some(i) => {
                assert(ls.update(i, r).take(lo) =~= ls.take(lo));
                assert(ls.update(i, r).skip(e) =~= ls.skip(e));
            },
            None => {
                assert(ls.insert(e, r).take(lo) =~= ls.take(lo));
                assert(ls.insert(e, r).skip(e + 1) =~= ls.skip(e));
            },
        }
    }
}

/// The line sets `key` in a compose block, in either style (`KEY: ...` or
/// `- KEY=...`).
pub open spec fn sets_key(line: Seq<char>, key: Seq<char>) -> bool {
    starts_with(trim_start(line), key + ":"@) || starts_with(trim_start(line), "- "@ + key + "="@)
}

/// A key a compose edit can set: not empty, and free of whitespace, '='
/// and ':'.
pub open spec fn compose_key_ok(key: Seq<char>) -> bool {
    &&& key.len() > 0
    &&& forall|i: int| 0 <= i < key.len() ==> !crate::text::is_ws(#[trigger] key[i]) && key[i] != '=' && key[i] != ':'
}

/// Variables for a compose edit: each key settable, no key twice.
pub open spec fn compose_vars_ok(vars: Seq<(Seq<char>, Seq<char>)>) -> bool {
    &&& forall|i: int| 0 <= i < vars.len() ==> compose_key_ok(#[trigger] vars[i].0)
    &&& forall|i: int, j: int| 0 <= i < j < vars.len() ==> #[trigger] vars[i].0 != #[trigger] vars[j].0
}

proof fn lemma_trim_after_spaces(n: nat, x: Seq<char>)
    requires
        x.len() > 0,
        !crate::text::is_ws(x[0]),
    ensures
        trim_start(spaces(n) + x) == x,
        lead_ws(spaces(n) + x) == n,
    decreases n,
{
    let s = spaces(n) + x;
    if n == 0 {
        assert(s =~= x);
        assert(lead_ws(x) == 0);
        assert(x.skip(0) =~= x);
    } else {
        assert(s[0] == ' ');
        assert(crate::text::is_ws(' ')) by {
            assert(' ' as u32 == 0x20);
        }
        assert(s.drop_first() =~= spaces((n - 1) as nat) + x);
        lemma_trim_after_spaces((n - 1) as nat, x);
        assert(lead_ws(s) == 1 + lead_ws(s.drop_first()));
        crate::text::lemma_lead_ws_bound(spaces((n - 1) as nat) + x);
        assert(s.drop_first().skip(lead_ws(s.drop_first()) as int) =~= s.skip(lead_ws(s) as int));
    }
}

/// A rendered variable sets its own key and no other settable key.
proof fn lemma_render_sets(c: nat, list: bool, key: Seq<char>, value: Seq<char>, other: Seq<char>)
    requires
        compose_key_ok(key),
        compose_key_ok(other),
    ensures
        sets_key(render(spaces(c), list, key, value), key),
        sets_key(render(spaces(c), list, key, value), other) ==> other == key,
{
    reveal_strlit("- ");
    reveal_strlit("=");
    reveal_strlit(": \"");
    reveal_strlit("\"");
    reveal_strlit(":");
    let body = if list {
        "- "@ + key + "="@ + value
    } else {
        key + ": \""@ + value + "\""@
    };
    if list {
        assert(render(spaces(c), list, key, value) =~= spaces(c) + body);
        assert(body[0] == '-');
    } else {
        assert(render(spaces(c), list, key, value) =~= spaces(c) + body);
        assert(body[0] == key[0]);
    }
    assert(!crate::text::is_ws(body[0])) by {
        assert('-' as u32 == 0x2d);
    }
    lemma_trim_after_spaces(c, body);
    let t = body;
    if list {
        assert(t.take(("- "@ + key + "="@).len() as int) =~= "- "@ + key + "="@);
        if starts_with(t, other + ":"@) {
            assert(t[0] == other[0]);
            if other.len() > 1 {
                assert(t[1] == other[1]);
                assert(!crate::text::is_ws(other[1]));
                assert(crate::text::is_ws(' ')) by {
                    assert(' ' as u32 == 0x20);
                }
            } else {
                assert(t[1] == (other + ":"@)[1]);
            }
        }
        if starts_with(t, "- "@ + other + "="@) {
            let u = t.skip(2);
            assert(u.take(key.len() + 1int) =~= key + seq!['=']);
            assert(t.take(("- "@ + other + "="@).len() as int) == "- "@ + other + "="@);
            assert(u.take(other.len() + 1int) =~= other + seq!['=']) by {
                assert forall|i: int| 0 <= i < other.len() + 1 implies u.take(other.len() + 1int)[i] == (other + seq![
                    '=',
                ])[i] by {
                    assert(u[i] == t[i + 2]);
                    assert(t[i + 2] == ("- "@ + other + "="@)[i + 2]);
                }
            }
            lemma_keys_agree(u, key, other, '=');
        }
    } else {
        assert(t.take((key + ":"@).len() as int) =~= key + ":"@);
        assert(t.take(key.len() + 1int) =~= key + seq![':']);
        if starts_with(t, other + ":"@) {
            assert(t.take(other.len() + 1int) =~= other + seq![':']);
            lemma_keys_agree(t, key, other, ':');
        }
        if starts_with(t, "- "@ + other + "="@) {
            assert(t[0] == ("- "@ + other + "="@)[0] && t[1] == ("- "@ + other + "="@)[1]);
            assert(t[0] == '-' && t[1] == ' ');
            assert(t[0] == key[0]);
            if key.len() > 1 {
                assert(t[1] == key[1]);
                assert(crate::text::is_ws(' ')) by {
                    assert(' ' as u32 == 0x20);
                }
            } else {
                assert(t[1] == ':');
            }
        }
    }
}

/// Two keys free of `sep`, each followed by `sep` at the start of the same
/// text, are the same key.
proof fn lemma_keys_agree(t: Seq<char>, a: Seq<char>, b: Seq<char>, sep: char)
    requires
        a.len() + 1 <= t.len(),
        b.len() + 1 <= t.len(),
        t.take(a.len() + 1int) == a + seq![sep],
        t.take(b.len() + 1int) == b + seq![sep],
        forall|i: int| 0 <= i < a.len() ==> #[trigger] a[i] != sep,
        forall|i: int| 0 <= i < b.len() ==> #[trigger] b[i] != sep,
    ensures
        a == b,
{
    assert(t.take(a.len() + 1int) == a + seq![sep]);
    if a.len() < b.len() {
        assert(t[a.len() as int] == (a + seq![sep])[a.len() as int]);
        assert(t[a.len() as int] == (b + seq![sep])[a.len() as int]);
    } else if b.len() < a.len() {
        assert(t[b.len() as int] == (b + seq![sep])[b.len() as int]);
        assert(t[b.len() as int] == (a + seq![sep])[b.len() as int]);
    } else {
        assert forall|i: int| 0 <= i < a.len() implies a[i] == b[i] by {
            assert(t[i] == (a + seq![sep])[i]);
            assert(t[i] == (b + seq![sep])[i]);
        }
        assert(a =~= b);
    }
}

proof fn lemma_find_key_facts(lines: Seq<Seq<char>>, key: Seq<char>, k: int, end: int)
    requires
        0 <= k,
        end <= lines.len(),
    ensures
        find_key(lines, key, k, end) matches Some(p) ==> k <= p < end && sets_key(lines[p], key),
        forall|j: int|
            k <= j < end && (find_key(lines, key, k, end) is None || j < find_key(lines, key, k, end)->0)
                ==> !sets_key(#[trigger] lines[j], key),
    decreases end - k,
{
    if k < end {
        lemma_find_key_facts(lines, key, k + 1, end);
    }
}

proof fn lemma_find_key_update(ls: Seq<Seq<char>>, q: int, l: Seq<char>, key: Seq<char>, k: int, end: int)
    requires
        0 <= k,
        0 <= q < ls.len(),
        end <= ls.len(),
        !sets_key(l, key),
        !sets_key(ls[q], key),
    ensures
        find_key(ls.update(q, l), key, k, end) == find_key(ls, key, k, end),
    decreases end - k,
{
    if k < end {
        lemma_find_key_update(ls, q, l, key, k + 1, end);
        if k == q {
            assert(ls.update(q, l)[k] == l);
        } else {
            assert(ls.update(q, l)[k] == ls[k]);
        }
    }
}

proof fn lemma_find_key_insert(ls: Seq<Seq<char>>, e: int, r: Seq<char>, key: Seq<char>, k: int)
    requires
        0 <= k <= e <= ls.len(),
        !sets_key(r, key),
    ensures
        find_key(ls.insert(e, r), key, k, e + 1) == find_key(ls, key, k, e),
    decreases e - k,
{
    let ins = ls.insert(e, r);
    if k < e {
        lemma_find_key_insert(ls, e, r, key, k + 1);
        assert(ins[k] == ls[k]);
    } else {
        assert(ins[e] == r);
        assert(find_key(ins, key, e + 1, e + 1) is None);
        assert(!sets_key(ins[e], key));
    }
}

/// Each variable set so far: the first line of the block `lines[lo..e]`
/// that sets its key is that key rendered with `pad` in the block's style.
pub open spec fn compose_settled(
    lines: Seq<Seq<char>>,
    lo: int,
    e: int,
    pad: Seq<char>,
    list: bool,
    vars: Seq<(Seq<char>, Seq<char>)>,
) -> bool {
    forall|i: int|
        0 <= i < vars.len() ==> ((#[trigger] find_key(lines, vars[i].0, lo, e)) matches Some(p) && lines[p]
            == render(pad, list, vars[i].0, vars[i].1))
}

proof fn lemma_compose_prefix(
    lines: Seq<Seq<char>>,
    lo: int,
    end: int,
    c: nat,
    list: bool,
    vars: Seq<(Seq<char>, Seq<char>)>,
    n: int,
)
    requires
        compose_vars_ok(vars),
        0 <= lo <= end <= lines.len(),
        0 <= n <= vars.len(),
    ensures
        ({
            let (out, e) = compose_apply(lines, lo, end, spaces(c), list, vars.take(n));
            &&& end <= e <= out.len()
            &&& compose_settled(out, lo, e, spaces(c), list, vars.take(n))
            &&& forall|j: int|
                lo <= j < end && (forall|i: int| 0 <= i < n ==> !sets_key(lines[j], #[trigger] vars[i].0))
                    ==> #[trigger] out[j] == lines[j]
        }),
    decreases n,
{
    let cur = vars.take(n);
    let pad = spaces(c);
    lemma_compose_outside_block_untouched(lines, lo, end, pad, list, cur);
    if n == 0 {
        assert(cur =~= Seq::<(Seq<char>, Seq<char>)>::empty());
    } else {
        lemma_compose_prefix(lines, lo, end, c, list, vars, n - 1);
        let pv = vars.take(n - 1);
        assert(cur.drop_last() =~= pv);
        assert(cur.last() == vars[n - 1]);
        let (ls, e0) = compose_apply(lines, lo, end, pad, list, pv);
        lemma_compose_outside_block_untouched(lines, lo, end, pad, list, pv);
        let (key, value) = vars[n - 1];
        let r = render(pad, list, key, value);
        assert(compose_key_ok(vars[n - 1].0));
        lemma_find_key_facts(ls, key, lo, e0);
        let (out, e) = compose_apply(lines, lo, end, pad, list, cur);
        assert forall|i: int| 0 <= i < cur.len() implies ((#[trigger] find_key(out, cur[i].0, lo, e)) matches Some(p)
            && out[p] == render(pad, list, cur[i].0, cur[i].1)) by {
            if i < n - 1 {
                let ki = vars[i].0;
                assert(cur[i] == vars[i]);
                assert(pv[i] == vars[i]);
                assert(compose_key_ok(ki));
                assert(ki != key);
                let p = find_key(ls, ki, lo, e0)->0;
                lemma_find_key_facts(ls, ki, lo, e0);
                lemma_render_sets(c, list, key, value, ki);
                match find_key(ls, key, lo, e0) {
                    Some(q) => {
                        lemma_render_sets(c, list, ki, vars[i].1, key);
                        assert(q != p);
                        if sets_key(ls[q], ki) {
                            assert(q > p);
                            lemma_find_key_facts(ls, key, lo, e0);
                        }
                        if q < p || !sets_key(ls[q], ki) {
                            lemma_find_key_update(ls, q, r, ki, lo, e0);
                        } else {
                            lemma_find_key_update_after(ls, q, r, ki, lo, e0, p);
                        }
                        assert(out[p] == ls[p]);
                    },
                    None => {
                        lemma_find_key_insert(ls, e0, r, ki, lo);
                        assert(out[p] == ls[p]);
                    },
                }
            } else {
                assert(cur[i] == vars[n - 1]);
                lemma_render_sets(c, list, key, value, key);
                match find_key(ls, key, lo, e0) {
                    Some(q) => {
                        lemma_find_key_update_found(ls, q, r, key, lo, e0);
                    },
                    None => {
                        lemma_find_key_insert_own(ls, e0, r, key, lo);
                    },
                }
            }
        }
        assert forall|j: int|
            lo <= j < end && (forall|i: int| 0 <= i < n ==> !sets_key(lines[j], #[trigger] vars[i].0))
                implies #[trigger] out[j] == lines[j] by {
            assert(!sets_key(lines[j], vars[n - 1].0));
            assert(ls[j] == lines[j]);
            match find_key(ls, key, lo, e0) {
                Some(q) => {
                    assert(q != j);
                },
                None => {
                    assert(ls.insert(e0, r)[j] == ls[j]);
                },
            }
        }
    }
}

/// Replacing a line after the first match leaves the first match alone.
proof fn lemma_find_key_update_after(ls: Seq<Seq<char>>, q: int, l: Seq<char>, key: Seq<char>, k: int, end: int, p: int)
    requires
        0 <= k,
        0 <= q < ls.len(),
        end <= ls.len(),
        find_key(ls, key, k, end) == Some(p),
        p < q,
    ensures
        find_key(ls.update(q, l), key, k, end) == Some(p),
    decreases end - k,
{
    lemma_find_key_facts(ls, key, k, end);
    if k < p {
        lemma_find_key_update_after(ls, q, l, key, k + 1, end, p);
        assert(ls.update(q, l)[k] == ls[k]);
    } else {
        assert(ls.update(q, l)[k] == ls[k]);
    }
}

/// Replacing the first match with a line that still sets the key keeps the
/// match there.
proof fn lemma_find_key_update_found(ls: Seq<Seq<char>>, q: int, l: Seq<char>, key: Seq<char>, k: int, end: int)
    requires
        0 <= k,
        end <= ls.len(),
        find_key(ls, key, k, end) == Some(q),
        sets_key(l, key),
    ensures
        find_key(ls.update(q, l), key, k, end) == Some(q),
    decreases end - k,
{
    lemma_find_key_facts(ls, key, k, end);
    if k < q {
        lemma_find_key_update_found(ls, q, l, key, k + 1, end);
        assert(ls.update(q, l)[k] == ls[k]);
    } else {
        assert(ls.update(q, l)[k] == l);
    }
}

/// With no match in `ls[k..e]`, a line inserted at `e` that sets the key is
/// the first match in the block grown by it.
proof fn lemma_find_key_insert_own(ls: Seq<Seq<char>>, e: int, r: Seq<char>, key: Seq<char>, k: int)
    requires
        0 <= k <= e <= ls.len(),
        find_key(ls, key, k, e) is None,
        sets_key(r, key),
    ensures
        find_key(ls.insert(e, r), key, k, e + 1) == Some(e),
    decreases e - k,
{
    let ins = ls.insert(e, r);
    if k < e {
        lemma_find_key_insert_own(ls, e, r, key, k + 1);
        assert(ins[k] == ls[k]);
    } else {
        assert(ins[e] == r);
    }
}

proof fn lemma_compose_settled_apply(
    lines: Seq<Seq<char>>,
    lo: int,
    e: int,
    pad: Seq<char>,
    list: bool,
    vars: Seq<(Seq<char>, Seq<char>)>,
    n: int,
)
    requires
        compose_settled(lines, lo, e, pad, list, vars),
        0 <= lo <= e <= lines.len(),
        0 <= n <= vars.len(),
    ensures
        compose_apply(lines, lo, e, pad, list, vars.take(n)) == (lines, e),
    decreases n,
{
    let cur = vars.take(n);
    if n == 0 {
        assert(cur =~= Seq::<(Seq<char>, Seq<char>)>::empty());
    } else {
        lemma_compose_settled_apply(lines, lo, e, pad, list, vars, n - 1);
        assert(cur.drop_last() =~= vars.take(n - 1));
        assert(cur.last() == vars[n - 1]);
        assert(find_key(lines, vars[n - 1].0, lo, e) matches Some(p) && (lines[p] == render(pad, list, vars[n - 1].0, vars[n - 1].1)));
        let p = find_key(lines, vars[n - 1].0, lo, e)->0;
        lemma_find_key_facts(lines, vars[n - 1].0, lo, e);
        assert(lines.update(p, render(pad, list, vars[n - 1].0, vars[n - 1].1)) =~= lines);
    }
}

/// Editing the `environment:` block `lines[lo..end]` with distinct settable
/// keys, each rendered with the block's indentation `c` and style: afterwards
/// the first line of the grown block that sets each key is that key
/// rendered; the lines before and after the block are untouched; every
/// block line that sets none of the keys is kept in its place; and editing
/// the grown block again with the same variables changes nothing.
pub proof fn lemma_compose_edit(
    lines: Seq<Seq<char>>,
    lo: int,
    end: int,
    c: nat,
    list: bool,
    vars: Seq<(Seq<char>, Seq<char>)>,
)
    requires
        compose_vars_ok(vars),
        0 <= lo <= end <= lines.len(),
    ensures
        ({
            let (out, e) = compose_apply(lines, lo, end, spaces(c), list, vars);
            &&& end <= e <= out.len()
            &&& compose_settled(out, lo, e, spaces(c), list, vars)
            &&& out.take(lo) == lines.take(lo)
            &&& out.skip(e) == lines.skip(end)
            &&& forall|j: int|
                lo <= j < end && (forall|i: int| 0 <= i < vars.len() ==> !sets_key(lines[j], #[trigger] vars[i].0))
                    ==> #[trigger] out[j] == lines[j]
            &&& compose_apply(out, lo, e, spaces(c), list, vars) == (out, e)
        }),
{
    lemma_compose_prefix(lines, lo, end, c, list, vars, vars.len() as int);
    assert(vars.take(vars.len() as int) =~= vars);
    lemma_compose_outside_block_untouched(lines, lo, end, spaces(c), list, vars);
    let (out, e) = compose_apply(lines, lo, end, spaces(c), list, vars);
    lemma_compose_settled_apply(out, lo, e, spaces(c), list, vars, vars.len() as int);
}

proof fn lemma_utf8_len_spaces(n: nat)
    ensures
        utf8_len(spaces(n)) == n,
    decreases n,
{
    if n > 0 {
        assert(spaces(n).drop_last() =~= spaces((n - 1) as nat));
        assert(spaces(n).last() == ' ');
        assert(crate::text::utf8_width(' ') == 1) by {
            assert(' ' as u32 == 0x20);
        }
        lemma_utf8_len_spaces((n - 1) as nat);
    }
}

/// A rendered variable is indented by its padding, is not blank, and starts
/// with "- " exactly in list style.
proof fn lemma_render_shape(c: nat, list: bool, key: Seq<char>, value: Seq<char>)
    requires
        compose_key_ok(key),
    ensures
        indent(render(spaces(c), list, key, value)) == c,
        !blank(render(spaces(c), list, key, value)),
        starts_with(trim_start(render(spaces(c), list, key, value)), "- "@) == list,
{
    reveal_strlit("- ");
    reveal_strlit("=");
    reveal_strlit(": \"");
    reveal_strlit("\"");
    let body = if list {
        "- "@ + key + "="@ + value
    } else {
        key + ": \""@ + value + "\""@
    };
    let r = render(spaces(c), list, key, value);
    assert(r =~= spaces(c) + body);
    if list {
        assert(body[0] == '-');
    } else {
        assert(body[0] == key[0]);
    }
    assert(!crate::text::is_ws(body[0])) by {
        assert('-' as u32 == 0x2d);
    }
    lemma_trim_after_spaces(c, body);
    assert(r.take(c as int) =~= spaces(c));
    lemma_utf8_len_spaces(c);
    crate::text::lemma_trim_empty(r);
    assert(r[c as int] == body[0]);
    if list {
        assert(body.take(2) =~= "- "@);
    } else {
        if starts_with(body, "- "@) {
            assert(body.take(2) == "- "@);
            assert(body[1] == body.take(2)[1]);
            assert(body[1] == ' ');
            if key.len() > 1 {
                assert(body[1] == key[1]);
                assert(crate::text::is_ws(' ')) by {
                    assert(' ' as u32 == 0x20);
                }
            } else {
                assert(body[1] == ':');
            }
        }
    }
}

/// A line that sets a key is not blank.
proof fn lemma_sets_key_nonblank(l: Seq<char>, key: Seq<char>)
    requires
        compose_key_ok(key),
        sets_key(l, key),
    ensures
        !blank(l),
{
    reveal_strlit("- ");
    reveal_strlit(":");
    crate::text::lemma_trim_empty(l);
    assert(trim_start(l).len() > 0);
}

/// The line is one of the variables rendered with `pad` in the given style.
pub open spec fn is_rendered(l: Seq<char>, pad: Seq<char>, list: bool, vars: Seq<(Seq<char>, Seq<char>)>) -> bool {
    exists|i: int| 0 <= i < vars.len() && l == render(pad, list, #[trigger] vars[i].0, vars[i].1)
}

/// What a line of the edited block holds: within the old block, the old line
/// or, in place of a non-blank one, a rendered variable; past it, a rendered
/// variable.
pub open spec fn block_line_from(
    out: Seq<Seq<char>>,
    lines: Seq<Seq<char>>,
    end: int,
    j: int,
    pad: Seq<char>,
    list: bool,
    vars: Seq<(Seq<char>, Seq<char>)>,
) -> bool {
    ||| j < end && out[j] == lines[j]
    ||| j < end && !blank(lines[j]) && is_rendered(out[j], pad, list, vars)
    ||| j >= end && is_rendered(out[j], pad, list, vars)
}

proof fn lemma_compose_lines(
    lines: Seq<Seq<char>>,
    lo: int,
    end: int,
    c: nat,
    list: bool,
    vars: Seq<(Seq<char>, Seq<char>)>,
)
    requires
        compose_vars_ok(vars),
        0 <= lo <= end <= lines.len(),
    ensures
        ({
            let (out, e) = compose_apply(lines, lo, end, spaces(c), list, vars);
            forall|j: int| lo <= j < e ==> #[trigger] block_line_from(out, lines, end, j, spaces(c), list, vars)
        }),
    decreases vars.len(),
{
    let pad = spaces(c);
    if vars.len() > 0 {
        let pv = vars.drop_last();
        assert(compose_vars_ok(pv)) by {
            assert forall|i: int| 0 <= i < pv.len() implies compose_key_ok(#[trigger] pv[i].0) by {
                assert(pv[i] == vars[i]);
            }
            assert forall|i: int, j: int| 0 <= i < j < pv.len() implies #[trigger] pv[i].0 != #[trigger] pv[j].0 by {
                assert(pv[i] == vars[i] && pv[j] == vars[j]);
            }
        }
        lemma_compose_lines(lines, lo, end, c, list, pv);
        lemma_compose_outside_block_untouched(lines, lo, end, pad, list, pv);
        let (ls, e0) = compose_apply(lines, lo, end, pad, list, pv);
        let (key, value) = vars.last();
        assert(vars[vars.len() - 1] == vars.last());
        assert(compose_key_ok(vars[vars.len() - 1].0));
        let r = render(pad, list, key, value);
        assert(is_rendered(r, pad, list, vars));
        let (out, e) = compose_apply(lines, lo, end, pad, list, vars);
        lemma_find_key_facts(ls, key, lo, e0);
        assert forall|j: int| lo <= j < e implies #[trigger] block_line_from(out, lines, end, j, pad, list, vars) by {
            let found = find_key(ls, key, lo, e0);
            if found is Some && j == found->0 {
                assert(out[j] == r);
                if j < end {
                    lemma_sets_key_nonblank(ls[j], key);
                    assert(block_line_from(ls, lines, end, j, pad, list, pv));
                }
            } else if found is None && j == e0 {
                assert(out[j] == r);
            } else {
                assert(j < e0);
                assert(out[j] == ls[j]);
                assert(block_line_from(ls, lines, end, j, pad, list, pv));
                if is_rendered(ls[j], pad, list, pv) {
                    let i = choose|i: int| 0 <= i < pv.len() && ls[j] == render(pad, list, #[trigger] pv[i].0, pv[i].1);
                    assert(pv[i] == vars[i]);
                }
            }
        }
    }
}

proof fn lemma_first_env_kept(a: Seq<Seq<char>>, b: Seq<Seq<char>>, k: int, i: int)
    requires
        0 <= k <= i,
        first_env(a, k) == Some(i),
        i < a.len(),
        i < b.len(),
        forall|j: int| k <= j <= i ==> #[trigger] a[j] == b[j],
    ensures
        first_env(b, k) == Some(i),
    decreases a.len() - k,
{
    if k < i {
        assert(a[k] == b[k]);
        assert(!is_env_key(a[k]));
        lemma_first_env_kept(a, b, k + 1, i);
        assert(first_env(b, k) == first_env(b, k + 1));
    } else {
        assert(a[k] == b[k]);
        lemma_first_env_range(a, k + 1);
    }
}

proof fn lemma_first_header_kept(a: Seq<Seq<char>>, b: Seq<Seq<char>>, h: Seq<char>, k: int, i: int)
    requires
        0 <= k <= i,
        first_header(a, h, k) == Some(i),
        i < a.len(),
        i < b.len(),
        forall|j: int| k <= j <= i ==> #[trigger] a[j] == b[j],
    ensures
        first_header(b, h, k) == Some(i),
    decreases a.len() - k,
{
    if k < i {
        assert(a[k] == b[k]);
        lemma_first_header_kept(a, b, h, k + 1, i);
    } else {
        assert(a[k] == b[k]);
        lemma_first_header_range(a, h, k + 1);
    }
}

proof fn lemma_env_in_service_kept(a: Seq<Seq<char>>, b: Seq<Seq<char>>, k: int, si: nat, i: int)
    requires
        0 <= k <= i,
        env_in_service(a, k, si) == Some(i),
        i < a.len(),
        i < b.len(),
        forall|j: int| k <= j <= i ==> #[trigger] a[j] == b[j],
    ensures
        env_in_service(b, k, si) == Some(i),
    decreases a.len() - k,
{
    if k < i {
        assert(a[k] == b[k]);
        lemma_env_in_service_kept(a, b, k + 1, si, i);
    } else {
        assert(a[k] == b[k]);
        lemma_env_in_service_range(a, k + 1, si);
    }
}

proof fn lemma_first_env_range(a: Seq<Seq<char>>, k: int)
    requires
        0 <= k,
    ensures
        first_env(a, k) matches Some(i) ==> k <= i < a.len() && is_env_key(a[i]),
    decreases a.len() - k,
{
    if k < a.len() {
        lemma_first_env_range(a, k + 1);
    }
}

proof fn lemma_first_header_range(a: Seq<Seq<char>>, h: Seq<char>, k: int)
    requires
        0 <= k,
    ensures
        first_header(a, h, k) matches Some(i) ==> k <= i < a.len(),
    decreases a.len() - k,
{
    if k < a.len() {
        lemma_first_header_range(a, h, k + 1);
    }
}

proof fn lemma_env_in_service_range(a: Seq<Seq<char>>, k: int, si: nat)
    requires
        0 <= k,
    ensures
        env_in_service(a, k, si) matches Some(i) ==> k <= i < a.len() && is_env_key(a[i]),
    decreases a.len() - k,
{
    if k < a.len() {
        lemma_env_in_service_range(a, k + 1, si);
    }
}

/// Lines that agree up to the `environment:` key found in one are found to
/// have it at the same place.
proof fn lemma_find_environment_kept(a: Seq<Seq<char>>, b: Seq<Seq<char>>, service: Option<Seq<char>>, lo: int)
    requires
        spec_find_environment(a, service) == Ok::<int, Refusal>(lo - 1),
        lo <= a.len(),
        lo <= b.len(),
        b.take(lo) == a.take(lo),
    ensures
        spec_find_environment(b, service) == Ok::<int, Refusal>(lo - 1),
{
    assert forall|j: int| 0 <= j < lo implies #[trigger] a[j] == b[j] by {
        assert(a.take(lo)[j] == a[j] && b.take(lo)[j] == b[j]);
    }
    match service {
        None => {
            lemma_first_env_range(a, 0);
            lemma_first_env_kept(a, b, 0, lo - 1);
        },
        Some(svc) => {
            let h = svc + ":"@;
            lemma_first_header_range(a, h, 0);
            let start = first_header(a, h, 0)->0;
            lemma_env_in_service_range(a, start + 1, indent(a[start]));
            lemma_first_header_kept(a, b, h, 0, start);
            assert(a[start] == b[start]);
            lemma_env_in_service_kept(a, b, start + 1, indent(a[start]), lo - 1);
        },
    }
}

/// The line stays inside a block indented `ei` bytes.
pub open spec fn in_block(l: Seq<char>, ei: nat) -> bool {
    blank(l) || indent(l) > ei
}

proof fn lemma_block_scan_facts(ls: Seq<Seq<char>>, k: int, ei: nat)
    requires
        0 <= k <= ls.len(),
    ensures
        k <= block_scan(ls, k, ei) <= ls.len(),
        forall|j: int| k <= j < block_scan(ls, k, ei) ==> in_block(#[trigger] ls[j], ei),
        block_scan(ls, k, ei) < ls.len() ==> !in_block(ls[block_scan(ls, k, ei)], ei),
    decreases ls.len() - k,
{
    if k < ls.len() && in_block(ls[k], ei) {
        lemma_block_scan_facts(ls, k + 1, ei);
    }
}

proof fn lemma_block_scan_is(ls: Seq<Seq<char>>, k: int, m: int, ei: nat)
    requires
        0 <= k <= m <= ls.len(),
        forall|j: int| k <= j < m ==> in_block(#[trigger] ls[j], ei),
        m < ls.len() ==> !in_block(ls[m], ei),
    ensures
        block_scan(ls, k, ei) == m,
    decreases m - k,
{
    if k < m {
        assert(in_block(ls[k], ei));
        lemma_block_scan_is(ls, k + 1, m, ei);
    }
}

proof fn lemma_back_off_facts(ls: Seq<Seq<char>>, lo: int, n: int)
    requires
        0 <= lo <= n <= ls.len(),
    ensures
        lo <= back_off(ls, lo, n) <= n,
        forall|j: int| back_off(ls, lo, n) <= j < n ==> blank(#[trigger] ls[j]),
        back_off(ls, lo, n) == lo || !blank(ls[back_off(ls, lo, n) - 1]),
    decreases n - lo,
{
    if n > lo && blank(ls[n - 1]) {
        lemma_back_off_facts(ls, lo, n - 1);
    }
}

proof fn lemma_back_off_is(ls: Seq<Seq<char>>, lo: int, m: int, n: int)
    requires
        0 <= lo <= m <= n <= ls.len(),
        forall|j: int| m <= j < n ==> blank(#[trigger] ls[j]),
        m == lo || !blank(ls[m - 1]),
    ensures
        back_off(ls, lo, n) == m,
    decreases n - m,
{
    if m < n {
        assert(blank(ls[n - 1]));
        lemma_back_off_is(ls, lo, m, n - 1);
    }
}

proof fn lemma_first_nonblank_facts(ls: Seq<Seq<char>>, k: int, end: int)
    requires
        0 <= k,
        end <= ls.len(),
    ensures
        first_nonblank(ls, k, end) matches Some(i) ==> k <= i < end && !blank(ls[i]),
        forall|j: int|
            k <= j < end && (first_nonblank(ls, k, end) is None || j < first_nonblank(ls, k, end)->0) ==> blank(
                #[trigger] ls[j],
            ),
    decreases end - k,
{
    if k < end {
        lemma_first_nonblank_facts(ls, k + 1, end);
    }
}

proof fn lemma_first_nonblank_is(ls: Seq<Seq<char>>, k: int, end: int, i: Option<int>)
    requires
        0 <= k,
        end <= ls.len(),
        i matches Some(p) ==> k <= p < end && !blank(ls[p]),
        forall|j: int| k <= j < end && (i is None || j < i->0) ==> blank(#[trigger] ls[j]),
    ensures
        first_nonblank(ls, k, end) == i,
    decreases end - k,
{
    if k < end {
        if i is Some && i->0 == k {
        } else {
            assert(blank(ls[k]));
            lemma_first_nonblank_is(ls, k + 1, end, i);
        }
    }
}

proof fn lemma_find_environment_range(a: Seq<Seq<char>>, service: Option<Seq<char>>)
    ensures
        spec_find_environment(a, service) matches Ok(i) ==> 0 <= i < a.len() && is_env_key(a[i]),
{
    match service {
        None => {
            lemma_first_env_range(a, 0);
        },
        Some(svc) => {
            let h = svc + ":"@;
            lemma_first_header_range(a, h, 0);
            if let Some(start) = first_header(a, h, 0) {
                lemma_env_in_service_range(a, start + 1, indent(a[start]));
            }
        },
    }
}

/// A rendered variable whose value holds no newline holds none either.
proof fn lemma_render_plain(c: nat, list: bool, key: Seq<char>, value: Seq<char>)
    requires
        compose_key_ok(key),
        free_of_newlines(value),
    ensures
        crate::lines::no_newline(render(spaces(c), list, key, value)),
{
    reveal_strlit("- ");
    reveal_strlit("=");
    reveal_strlit(": \"");
    reveal_strlit("\"");
    let r = render(spaces(c), list, key, value);
    assert(crate::text::is_ws('\n')) by {
        assert('\n' as u32 == 0x0A);
    }
    let pre = if list {
        spaces(c) + "- "@ + key + "="@
    } else {
        spaces(c) + key + ": \""@
    };
    if list {
        assert(r =~= pre + value);
    } else {
        assert(r =~= pre + value + "\""@);
    }
    assert forall|i: int| 0 <= i < pre.len() implies #[trigger] pre[i] != '\n' by {
        if i < c {
            assert(pre[i] == ' ');
        } else if list {
            if i < c + 2 {
            } else if i < c + 2 + key.len() {
                assert(pre[i] == key[i - c - 2]);
            }
        } else {
            if i < c + key.len() {
                assert(pre[i] == key[i - c]);
            }
        }
    }
    assert forall|i: int| 0 <= i < r.len() implies #[trigger] r[i] != '\n' by {
        if i < pre.len() {
            assert(r[i] == pre[i]);
        } else if i < pre.len() + value.len() {
            assert(r[i] == value[i - pre.len()]);
        } else {
            assert(r[i] == '"');
        }
    }
}

proof fn lemma_strip_blank(l: Seq<char>)
    ensures
        blank(crate::lines::strip_cr(l)) == blank(l),
        !blank(l) ==> indent(crate::lines::strip_cr(l)) == indent(l),
{
    crate::text::lemma_trim_empty(l);
    crate::text::lemma_trim_empty(crate::lines::strip_cr(l));
    if ends_cr(l) {
        let m = l.drop_last();
        assert(l =~= m.push('\r'));
        assert(crate::text::is_ws('\r')) by {
            assert('\r' as u32 == 0x0D);
        }
        assert forall|i: int| 0 <= i < m.len() implies m[i] == l[i] by {}
        lemma_lead_ws_bound(m);
        lemma_lead_ws_bound(l);
        lemma_lead_ws_push(m, '\r');
        if !blank(l) {
            if lead_ws(m) == m.len() {
                assert forall|i: int| 0 <= i < l.len() implies crate::text::is_ws(#[trigger] l[i]) by {
                    if i < m.len() {
                        assert(crate::text::is_ws(m[i]));
                    }
                }
            }
            assert(l.take(lead_ws(l) as int) =~= m.take(lead_ws(m) as int));
        }
    }
}

proof fn lemma_find_key_agree(a: Seq<Seq<char>>, b: Seq<Seq<char>>, key: Seq<char>, k: int, end: int)
    requires
        0 <= k,
        end <= a.len(),
        end <= b.len(),
        forall|j: int| k <= j < end ==> sets_key(#[trigger] a[j], key) == sets_key(b[j], key),
    ensures
        find_key(a, key, k, end) == find_key(b, key, k, end),
    decreases end - k,
{
    if k < end {
        assert(sets_key(a[k], key) == sets_key(b[k], key));
        lemma_find_key_agree(a, b, key, k + 1, end);
    }
}

/// Dropping a final carriage return does not change which key a line sets.
proof fn lemma_strip_sets_key(l: Seq<char>, key: Seq<char>)
    requires
        compose_key_ok(key),
    ensures
        sets_key(crate::lines::strip_cr(l), key) == sets_key(l, key),
{
    reveal_strlit(":");
    reveal_strlit("- ");
    reveal_strlit("=");
    lemma_strip_keeps_prefix(l, key + ":"@);
    lemma_strip_keeps_prefix(l, "- "@ + key + "="@);
}

/// Editing a block whose lines differ from settled lines only where the
/// variables go, and set the same keys on each line, gives the settled lines.
proof fn lemma_compose_restore(
    r: Seq<Seq<char>>,
    d: Seq<Seq<char>>,
    lo: int,
    e: int,
    pad: Seq<char>,
    list: bool,
    vars: Seq<(Seq<char>, Seq<char>)>,
    n: int,
)
    requires
        compose_vars_ok(vars),
        0 <= n <= vars.len(),
        0 <= lo <= e <= d.len(),
        r.len() == d.len(),
        compose_settled(d, lo, e, pad, list, vars),
        forall|j: int, i: int|
            0 <= j < r.len() && 0 <= i < vars.len() ==> sets_key(#[trigger] r[j], #[trigger] vars[i].0) == sets_key(d[j], vars[i].0),
        forall|j: int|
            0 <= j < d.len() && (forall|i: int| 0 <= i < vars.len() ==> find_key(d, #[trigger] vars[i].0, lo, e) != Some(j))
                ==> #[trigger] r[j] == d[j],
    ensures
        compose_apply(r, lo, e, pad, list, vars.take(n)).1 == e,
        compose_apply(r, lo, e, pad, list, vars.take(n)).0.len() == d.len(),
        forall|j: int, i: int|
            0 <= j < d.len() && 0 <= i < vars.len() ==> sets_key(#[trigger] compose_apply(r, lo, e, pad, list, vars.take(n)).0[j], #[trigger] vars[i].0)
                == sets_key(d[j], vars[i].0),
        forall|i: int|
            0 <= i < n ==> (#[trigger] find_key(d, vars[i].0, lo, e) matches Some(p) && compose_apply(r, lo, e, pad, list, vars.take(n)).0[p]
                == d[p]),
        forall|j: int|
            0 <= j < d.len() && (forall|i: int| 0 <= i < n ==> find_key(d, #[trigger] vars[i].0, lo, e) != Some(j))
                ==> #[trigger] compose_apply(r, lo, e, pad, list, vars.take(n)).0[j] == r[j],
    decreases n,
{
    let cur = vars.take(n);
    if n == 0 {
        assert(cur =~= Seq::<(Seq<char>, Seq<char>)>::empty());
    } else {
        lemma_compose_restore(r, d, lo, e, pad, list, vars, n - 1);
        let pv = vars.take(n - 1);
        assert(cur.drop_last() =~= pv);
        assert(cur.last() == vars[n - 1]);
        let x = compose_apply(r, lo, e, pad, list, pv).0;
        let (key, value) = vars[n - 1];
        assert(find_key(d, key, lo, e) matches Some(p) && d[p] == render(pad, list, key, value));
        let p = find_key(d, key, lo, e)->0;
        lemma_find_key_facts(d, key, lo, e);
        assert forall|j: int| lo <= j < e implies sets_key(#[trigger] x[j], key) == sets_key(d[j], key) by {
            assert(sets_key(x[j], vars[n - 1].0) == sets_key(d[j], vars[n - 1].0));
        }
        lemma_find_key_agree(x, d, key, lo, e);
        let out = x.update(p, render(pad, list, key, value));
        assert(compose_apply(r, lo, e, pad, list, cur) == (out, e));
        assert forall|j: int, i: int|
            0 <= j < d.len() && 0 <= i < vars.len() implies sets_key(#[trigger] out[j], #[trigger] vars[i].0) == sets_key(d[j], vars[i].0) by {
            if j != p {
                assert(out[j] == x[j]);
                assert(sets_key(x[j], vars[i].0) == sets_key(d[j], vars[i].0));
            }
        }
        assert forall|i: int| 0 <= i < n implies (#[trigger] find_key(d, vars[i].0, lo, e) matches Some(q) && out[q] == d[q]) by {
            if i < n - 1 {
                assert(find_key(d, vars[i].0, lo, e) matches Some(q) && x[q] == d[q]);
                let q = find_key(d, vars[i].0, lo, e)->0;
                lemma_find_key_facts(d, vars[i].0, lo, e);
                if q != p {
                    assert(out[q] == x[q]);
                }
            } else {
                assert(vars[i] == vars[n - 1]);
                assert(out[p] == d[p]);
            }
        }
        assert forall|j: int|
            0 <= j < d.len() && (forall|i: int| 0 <= i < n ==> find_key(d, #[trigger] vars[i].0, lo, e) != Some(j))
                implies #[trigger] out[j] == r[j] by {
            assert(find_key(d, vars[n - 1].0, lo, e) != Some(j));
            assert(forall|i: int| 0 <= i < n - 1 ==> find_key(d, #[trigger] vars[i].0, lo, e) != Some(j));
            assert(x[j] == r[j]);
        }
    }
}

/// The edited lines of a compose file, with the block's first line and the
/// grown block's end, when the file has the block.
pub open spec fn compose_parts(
    lines: Seq<Seq<char>>,
    service: Option<Seq<char>>,
    vars: Seq<(Seq<char>, Seq<char>)>,
) -> Option<(Seq<Seq<char>>, int, int)> {
    match spec_find_environment(lines, service) {
        Err(_) => None,
        Ok(env_line) => {
            let ei = indent(lines[env_line]);
            let lo = env_line + 1;
            let end = back_off(lines, lo, block_scan(lines, lo, ei));
            let list = list_style(lines, lo, end);
            let child = child_indent(lines, lo, end, ei);
            let (out, e) = compose_apply(lines, lo, end, spaces(child), list, vars);
            Some((out, lo, e))
        },
    }
}

/// The edited lines read back as written: every kept line (one no variable
/// replaced or added) is free of a final carriage return, and the lines do
/// not end in two empty lines.
pub open spec fn compose_reads_back(out: Seq<Seq<char>>, lo: int, e: int, vars: Seq<(Seq<char>, Seq<char>)>) -> bool {
    &&& forall|j: int|
        0 <= j < out.len() && (forall|i: int| 0 <= i < vars.len() ==> find_key(out, #[trigger] vars[i].0, lo, e) != Some(j))
            ==> !ends_cr(#[trigger] out[j])
    &&& !(out.len() >= 2 && out.last().len() == 0 && out[out.len() - 2].len() == 0)
}

/// Re-editing a compose file with the same variables leaves the text as the
/// first edit wrote it, except where the text cannot read back as written: a
/// kept line ending in a carriage return, which reading strips; or two empty
/// lines at the end, of which reading drops one each time. The block is
/// found again where it was, grown by the lines added, in the same style and
/// indentation, and every variable already reads as set. The keys are
/// distinct and settable; the values hold no newline.
#[verifier::rlimit(100)]
#[verifier::spinoff_prover]
pub proof fn lemma_compose_reedit(src: Seq<char>, service: Option<Seq<char>>, vars: Seq<(Seq<char>, Seq<char>)>)
    requires
        compose_vars_ok(vars),
        forall|i: int| 0 <= i < vars.len() ==> free_of_newlines(#[trigger] vars[i].1),
        compose_parts(spec_lines(src), service, vars) matches Some((out, lo, e)) ==> compose_reads_back(out, lo, e, vars),
    ensures
        match spec_update_compose(src, service, vars) {
            Ok(out) => spec_update_compose(out, service, vars) == Ok::<Seq<char>, Refusal>(out),
            Err(_) => true,
        },
{
    let lines = spec_lines(src);
    lemma_find_environment_range(lines, service);
    crate::lines::lemma_lines_no_newline(src);
    if let Ok(env) = spec_find_environment(lines, service) {
        let ei = indent(lines[env]);
        let lo = env + 1;
        let end0 = block_scan(lines, lo, ei);
        lemma_block_scan_facts(lines, lo, ei);
        let end = back_off(lines, lo, end0);
        lemma_back_off_facts(lines, lo, end0);
        let list = list_style(lines, lo, end);
        let child = child_indent(lines, lo, end, ei);
        let pad = spaces(child);
        lemma_compose_edit(lines, lo, end, child, list, vars);
        lemma_compose_lines(lines, lo, end, child, list, vars);
        let (out, e) = compose_apply(lines, lo, end, pad, list, vars);
        assert(compose_parts(lines, service, vars) == Some((out, lo, e)));
        assert(compose_reads_back(out, lo, e, vars));
        let text = finish_lines(out);
        assert(text == spec_update_compose(src, service, vars)->Ok_0);
        lemma_first_nonblank_facts(lines, lo, end);
        assert(child > ei) by {
            if let Some(i0) = first_nonblank(lines, lo, end) {
                assert(in_block(lines[i0], ei));
            }
        }
        assert forall|l: Seq<char>| #[trigger] is_rendered(l, pad, list, vars) implies indent(l) == child && !blank(l)
            && starts_with(trim_start(l), "- "@) == list && crate::lines::no_newline(l) by {
            let i = choose|i: int| 0 <= i < vars.len() && l == render(pad, list, #[trigger] vars[i].0, vars[i].1);
            assert(compose_key_ok(vars[i].0));
            lemma_render_shape(child, list, vars[i].0, vars[i].1);
            lemma_render_plain(child, list, vars[i].0, vars[i].1);
        }
        assert(out.take(lo) == lines.take(lo));
        assert(out.skip(e) == lines.skip(end));
        assert(out.skip(e).len() == lines.skip(end).len());
        assert(out.len() - e == lines.len() - end);
        // The edited lines, as they read back.
        assert forall|j: int| 0 <= j < out.len() implies crate::lines::no_newline(#[trigger] out[j]) by {
            if j < lo {
                assert(out.take(lo)[j] == out[j]);
                assert(lines.take(lo)[j] == lines[j]);
            } else if j >= e {
                assert(out.skip(e)[j - e] == out[j]);
                assert(lines.skip(end)[j - e] == lines[j - e + end]);
            } else {
                assert(block_line_from(out, lines, end, j, pad, list, vars));
                if !(j < end && out[j] == lines[j]) {
                    assert(is_rendered(out[j], pad, list, vars));
                }
            }
        }
        assert(out.len() > 0);
        crate::lines::lemma_finish_reads_back(out);
        let dropped = out.len() >= 2 && out.last().len() == 0;
        let d = if dropped { out.drop_last() } else { out };
        let r = crate::lines::strip_all(d);
        assert(spec_lines(text) == r);
        // Lines outside the grown block are kept.
        lemma_compose_edit(lines, lo, end, child, list, vars);
        assert forall|j: int| 0 <= j < out.len() && (j < lo || j >= e) implies !ends_cr(#[trigger] out[j]) by {
            assert forall|i: int| 0 <= i < vars.len() implies find_key(out, #[trigger] vars[i].0, lo, e) != Some(j) by {
                lemma_find_key_in_range(out, vars[i].0, lo, e);
            }
        }
        // Where the grown block ends, it is not the dropped line.
        assert(e <= d.len()) by {
            if dropped && e == out.len() {
                if e > lo {
                    assert(block_line_from(out, lines, end, e - 1, pad, list, vars));
                    if e - 1 < end && out[e - 1] == lines[e - 1] {
                        assert(!blank(lines[end - 1]));
                    }
                    crate::text::lemma_trim_empty(out[e - 1]);
                } else {
                    assert(out.take(lo)[lo - 1] == out[lo - 1]);
                    assert(lines.take(lo)[lo - 1] == lines[lo - 1]);
                    assert(is_env_key(lines[env]));
                    crate::text::lemma_trim_empty(lines[env]);
                    assert(trim_start(trim_end(lines[env])).len() > 0) by {
                        reveal_strlit("environment:");
                        reveal_strlit("environment: ");
                    }
                    assert(lines[env].len() > 0);
                }
            }
        }
        assert forall|j: int| 0 <= j < d.len() implies #[trigger] d[j] == out[j] by {}
        assert forall|j: int| 0 <= j < r.len() implies #[trigger] r[j] == crate::lines::strip_cr(out[j]) by {}
        // The block is found again where it was.
        assert(spec_find_environment(out, service) == Ok::<int, Refusal>(lo - 1)) by {
            lemma_find_environment_kept(lines, out, service, lo);
        }
        assert forall|j: int| 0 <= j < lo implies #[trigger] r[j] == out[j] by {
            assert(!ends_cr(out[j]));
        }
        assert(r.take(lo) =~= out.take(lo));
        lemma_find_environment_kept(out, r, service, lo);
        assert(r[env] == out[env]);
        assert(out[env] == lines[env]) by {
            assert(out.take(lo)[env] == out[env]);
            assert(lines.take(lo)[env] == lines[env]);
        }
        // Lines of the grown block keep their shape when read back.
        assert forall|j: int| lo <= j < e implies in_block(#[trigger] r[j], ei) && blank(r[j]) == blank(out[j])
            && (!blank(out[j]) ==> indent(r[j]) == indent(out[j]))
            && starts_with(trim_start(r[j]), "- "@) == starts_with(trim_start(out[j]), "- "@) by {
            lemma_strip_blank(out[j]);
            reveal_strlit("- ");
            lemma_strip_keeps_prefix(out[j], "- "@);
            assert(block_line_from(out, lines, end, j, pad, list, vars));
            if j < end && out[j] == lines[j] {
                assert(in_block(lines[j], ei));
            }
        }
        let m = e + (end0 - end);
        let mr = if m < out.len() { m } else { r.len() as int };
        assert(e <= mr);
        assert forall|j: int| e <= j < mr implies blank(#[trigger] r[j]) by {
            assert(out.skip(e)[j - e] == out[j]);
            assert(lines.skip(end)[j - e] == lines[j - e + end]);
            assert(blank(lines[j - e + end]));
            assert(!ends_cr(out[j]));
        }
        if m < out.len() {
            assert(out.skip(e)[end0 - end] == out[m]);
            assert(lines.skip(end)[end0 - end] == lines[end0]);
            assert(!in_block(out[m], ei));
            if dropped && m == out.len() - 1 {
                crate::text::lemma_trim_empty(out[m]);
            }
            assert(m < d.len());
            assert(!ends_cr(out[m]));
            assert(r[m] == out[m]);
        }
        lemma_block_scan_is(r, lo, mr, ei);
        if e > lo {
            assert(block_line_from(out, lines, end, e - 1, pad, list, vars));
            if e - 1 < end && out[e - 1] == lines[e - 1] {
                assert(!blank(lines[end - 1]));
            }
        }
        lemma_back_off_is(r, lo, e, mr);
        // Same style.
        if list {
            let w = choose|w: int| lo <= w < end && starts_with(trim_start(#[trigger] lines[w]), "- "@);
            assert(block_line_from(out, lines, end, w, pad, list, vars));
            assert(starts_with(trim_start(r[w]), "- "@));
            assert(list_style(r, lo, e));
        } else {
            assert forall|w: int| lo <= w < e implies !starts_with(trim_start(#[trigger] r[w]), "- "@) by {
                assert(block_line_from(out, lines, end, w, pad, list, vars));
                if w < end && out[w] == lines[w] {
                    assert(!starts_with(trim_start(lines[w]), "- "@));
                }
            }
            assert(!list_style(r, lo, e));
        }
        // Same indentation for the entries.
        match first_nonblank(lines, lo, end) {
            Some(i0) => {
                assert forall|j: int| lo <= j < e && j < i0 implies blank(#[trigger] r[j]) by {
                    assert(blank(lines[j]));
                    assert(block_line_from(out, lines, end, j, pad, list, vars));
                }
                assert(block_line_from(out, lines, end, i0, pad, list, vars));
                lemma_first_nonblank_is(r, lo, e, Some(i0));
            },
            None => {
                if e > end {
                    assert forall|j: int| lo <= j < e && j < end implies blank(#[trigger] r[j]) by {
                        assert(blank(lines[j]));
                        assert(block_line_from(out, lines, end, j, pad, list, vars));
                    }
                    assert(block_line_from(out, lines, end, end, pad, list, vars));
                    lemma_first_nonblank_is(r, lo, e, Some(end));
                } else {
                    assert forall|j: int| lo <= j < e implies blank(#[trigger] r[j]) by {
                        assert(blank(lines[j]));
                        assert(block_line_from(out, lines, end, j, pad, list, vars));
                    }
                    lemma_first_nonblank_is(r, lo, e, None);
                }
            },
        }
        assert(child_indent(r, lo, e, ei) == child);
        // Editing what was read back gives the edited lines again.
        assert(compose_settled(out, lo, e, pad, list, vars));
        assert forall|i: int| 0 <= i < vars.len() implies (#[trigger] find_key(d, vars[i].0, lo, e)) == find_key(out, vars[i].0, lo, e) by {
            lemma_find_key_agree(d, out, vars[i].0, lo, e);
        }
        assert(compose_settled(d, lo, e, pad, list, vars)) by {
            assert forall|i: int| 0 <= i < vars.len() implies ((#[trigger] find_key(d, vars[i].0, lo, e)) matches Some(p) && d[p]
                == render(pad, list, vars[i].0, vars[i].1)) by {
                assert(find_key(out, vars[i].0, lo, e) matches Some(p) && out[p] == render(pad, list, vars[i].0, vars[i].1));
                lemma_find_key_facts(out, vars[i].0, lo, e);
            }
        }
        assert forall|j: int, i: int| 0 <= j < r.len() && 0 <= i < vars.len() implies sets_key(#[trigger] r[j], #[trigger] vars[i].0)
            == sets_key(d[j], vars[i].0) by {
            assert(compose_key_ok(vars[i].0));
            lemma_strip_sets_key(d[j], vars[i].0);
        }
        assert forall|j: int|
            0 <= j < d.len() && (forall|i: int| 0 <= i < vars.len() ==> find_key(d, #[trigger] vars[i].0, lo, e) != Some(j))
                implies #[trigger] r[j] == d[j] by {
            assert forall|i: int| 0 <= i < vars.len() implies find_key(out, #[trigger] vars[i].0, lo, e) != Some(j) by {
                assert(find_key(d, vars[i].0, lo, e) == find_key(out, vars[i].0, lo, e));
            }
            assert(!ends_cr(out[j]));
        }
        lemma_compose_restore(r, d, lo, e, pad, list, vars, vars.len() as int);
        assert(vars.take(vars.len() as int) =~= vars);
        let x = compose_apply(r, lo, e, pad, list, vars).0;
        assert forall|j: int| 0 <= j < d.len() implies #[trigger] x[j] == d[j] by {
            if exists|i: int| 0 <= i < vars.len() && find_key(d, #[trigger] vars[i].0, lo, e) == Some(j) {
                let i = choose|i: int| 0 <= i < vars.len() && find_key(d, #[trigger] vars[i].0, lo, e) == Some(j);
                assert(find_key(d, vars[i].0, lo, e) matches Some(q) && x[q] == d[q]);
            }
        }
        assert(x =~= d);
        // Finishing the lines kept gives the same text.
        assert forall|j: int| 0 <= j < d.len() implies crate::lines::no_newline(#[trigger] d[j]) by {}
        crate::lines::lemma_finish_reads_back(d);
        if dropped {
            if d.len() >= 2 && d.last().len() == 0 {
                assert(out[out.len() - 2] == d.last());
            }
        }
    }
}

// ---------------------------------------------------------------------------
// Writing a file
// ---------------------------------------------------------------------------

/// Where the unedited file is kept when a file is edited: its extension with
/// `.bak` appended, or `.bak` alone.
pub open spec fn spec_backup_path(path: Seq<char>) -> Seq<char> {
    with_extension_of(
        path,
        match extension_of(path) {
            Some(e) => e + ".bak"@,
            None => "bak"@,
        },
    )
}

pub fn backup_path(path: &str) -> (r: String)
    ensures
        r@ == spec_backup_path(path@),
{
    let ext = match extension(path) {
        Some(e) => {
            let mut t = e;
            push_str(&mut t, ".bak");
            t
        },
        None => String::from_str("bak"),
    };
    proof {
        reveal_strlit(".bak");
        reveal_strlit("bak");
    }
    with_extension(path, ext.as_str())
}

/// The new text of the file at `path`, which held `src`: a .env file gets the
/// variables line by line, a compose file in the chosen service's block.
pub fn edit_text(path: &str, src: &str, service: Option<&str>, vars: &[(&str, String)]) -> (r: Result<String, ComposeError>)
    requires
        src@.len() <= usize::MAX / 8,
    ensures
        spec_kind_of(path@) == Kind::Env ==> (r matches Ok(out) && out@ == spec_update_env(src@, var_views(vars@))),
        spec_kind_of(path@) == Kind::Compose ==> match r {
            Ok(out) => spec_update_compose(src@, opt_view(service), var_views(vars@)) == Ok::<Seq<char>, Refusal>(out@),
            Err(e) => spec_update_compose(src@, opt_view(service), var_views(vars@)) == Err::<Seq<char>, Refusal>(e@),
        },
{
    match kind_of(path) {
        Kind::Env => Ok(update_env(src, vars)),
        Kind::Compose => update_compose(src, service, vars),
    }
}

} // verus!
