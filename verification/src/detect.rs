//! Finding Valheim installations, so a misconfigured path is caught at startup.
//!
//! The filesystem is probed by the caller; this module decides what the
//! answers mean and where to look.
use vstd::prelude::*;
use crate::paths::{join, joined, path_eq, path_lt, path_order_lt, path_same};
use crate::lines::{lines_view, spec_lines, split_lines};
use crate::text::{chars_of, push_char, starts_with, starts_with_chars, string_of, trim, trim_chars, views};
use crate::update::{split_chars, split_on};

verus! {

#[derive(Debug, Clone, Copy, PartialEq, Eq, Structural)]
pub enum Os {
    Windows,
    Mac,
    Linux,
}

/// A directory that looks like a Valheim install.
#[derive(Debug, Clone)]
pub struct Install {
    pub path: String,
    /// What the directory appears to be: a server, the game, or bare BepInEx.
    pub label: String,
    pub has_bepinex: bool,
}

pub struct InstallView {
    pub path: Seq<char>,
    pub label: Seq<char>,
    pub has_bepinex: bool,
}

impl View for Install {
    type V = InstallView;

    open spec fn view(&self) -> InstallView {
        InstallView { path: self.path@, label: self.label@, has_bepinex: self.has_bepinex }
    }
}

/// What the filesystem said about a directory.
pub struct Probe {
    /// The path names a directory.
    pub is_dir: bool,
    /// It holds a `BepInEx` directory.
    pub has_bepinex: bool,
    /// The marker names (see `marker_name`) that exist inside it.
    pub present: Vec<String>,
}

/// How many marker files identify a Valheim directory.
pub const MARKER_COUNT: usize = 6;

/// Files that identify a Valheim directory, most specific first.
pub open spec fn marker_names() -> Seq<Seq<char>> {
    seq![
        "valheim_server.x86_64"@,
        "valheim_server.exe"@,
        "valheim_server_Data"@,
        "valheim.exe"@,
        "valheim.x86_64"@,
        "valheim_Data"@,
    ]
}

/// What each marker says the directory is.
pub open spec fn marker_labels() -> Seq<Seq<char>> {
    seq![
        "dedicated server"@,
        "dedicated server"@,
        "dedicated server"@,
        "game install"@,
        "game install"@,
        "game install"@,
    ]
}

pub open spec fn bare_label() -> Seq<char> {
    "BepInEx directory"@
}

/// The first marker at or after `i` that is present.
pub open spec fn first_marker(present: Seq<Seq<char>>, i: nat) -> Option<nat>
    decreases 6 - i,
{
    if i >= 6 {
        None
    } else if present.contains(marker_names()[i as int]) {
        Some(i)
    } else {
        first_marker(present, i + 1)
    }
}

/// Whether a probed directory is a Valheim install, and what kind.
pub open spec fn spec_classify(path: Seq<char>, probe: Probe) -> Option<InstallView> {
    if !probe.is_dir {
        None
    } else {
        match first_marker(views(probe.present@), 0) {
            Some(i) => Some(
                InstallView { path, label: marker_labels()[i as int], has_bepinex: probe.has_bepinex },
            ),
            None => if probe.has_bepinex {
                Some(InstallView { path, label: bare_label(), has_bepinex: true })
            } else {
                None
            },
        }
    }
}

/// The name of marker `i`, most specific first.
pub fn marker_name(i: usize) -> (r: &'static str)
    requires
        i < MARKER_COUNT,
    ensures
        r@ == marker_names()[i as int],
{
    match i {
        0 => "valheim_server.x86_64",
        1 => "valheim_server.exe",
        2 => "valheim_server_Data",
        3 => "valheim.exe",
        4 => "valheim.x86_64",
        _ => "valheim_Data",
    }
}

fn marker_label(i: usize) -> (r: &'static str)
    requires
        i < MARKER_COUNT,
    ensures
        r@ == marker_labels()[i as int],
{
    if i < 3 {
        "dedicated server"
    } else {
        "game install"
    }
}

/// Whether `name` is one of `names`.
fn holds(names: &Vec<String>, name: &str) -> (r: bool)
    ensures
        r == views(names@).contains(name@),
{
    let k = String::from_str(name);
    let mut j: usize = 0;
    while j < names.len()
        invariant
            j <= names@.len(),
            k@ == name@,
            forall|q: int| 0 <= q < j ==> names@[q]@ != name@,
        decreases names.len() - j,
    {
        if names[j] == k {
            assert(views(names@)[j as int] == name@);
            return true;
        }
        j += 1;
    }
    proof {
        if views(names@).contains(name@) {
            let q = choose|q: int| 0 <= q < views(names@).len() && views(names@)[q] == name@;
            assert(names@[q]@ == name@);
        }
    }
    false
}

/// Decides whether a probed directory is a Valheim install, and what kind.
///
/// A directory holding only BepInEx is still a usable target: mods live there
/// even when the game files sit elsewhere.
pub fn classify(path: &str, probe: &Probe) -> (r: Option<Install>)
    ensures
        match r {
            Some(found) => spec_classify(path@, *probe) == Some(found@),
            None => spec_classify(path@, *probe) is None,
        },
{
    if !probe.is_dir {
        return None;
    }
    let mut i: usize = 0;
    while i < MARKER_COUNT
        invariant
            i <= MARKER_COUNT,
            probe.is_dir,
            first_marker(views(probe.present@), 0) == first_marker(views(probe.present@), i as nat),
        decreases MARKER_COUNT - i,
    {
        if holds(&probe.present, marker_name(i)) {
            assert(first_marker(views(probe.present@), i as nat) == Some(i as nat));
            let found = Install {
                path: String::from_str(path),
                label: String::from_str(marker_label(i)),
                has_bepinex: probe.has_bepinex,
            };

            return Some(found);
        }
        i += 1;
    }
    if probe.has_bepinex {
        Some(Install { path: String::from_str(path), label: String::from_str("BepInEx directory"), has_bepinex: true })
    } else {
        None
    }
}

// ---------------------------------------------------------------------------
// Where to look
// ---------------------------------------------------------------------------

/// Where Steam itself lives on each platform.
pub open spec fn spec_steam_roots(home: Seq<char>, os: Os) -> Seq<Seq<char>> {
    match os {
        Os::Windows => seq![
            "C:\\Program Files (x86)\\Steam"@,
            "C:\\Program Files\\Steam"@,
            joined(home, "Steam"@),
        ],
        Os::Mac => seq![joined(home, "Library/Application Support/Steam"@)],
        Os::Linux => seq![
            joined(home, ".steam/steam"@),
            joined(home, ".local/share/Steam"@),
            joined(home, ".steam/root"@),
            joined(home, "Steam"@),
            joined(home, "snap/steam/common/.local/share/Steam"@),
        ],
    }
}

/// The two game directories under a Steam library.
pub open spec fn library_games(library: Seq<char>) -> Seq<Seq<char>> {
    let common = joined(library, "steamapps/common"@);
    seq![joined(common, "Valheim"@), joined(common, "Valheim dedicated server"@)]
}

pub open spec fn games_in(libraries: Seq<Seq<char>>) -> Seq<Seq<char>>
    decreases libraries.len(),
{
    if libraries.len() == 0 {
        Seq::empty()
    } else {
        games_in(libraries.drop_last()) + library_games(libraries.last())
    }
}

/// Server installs rarely live under Steam's default tree.
pub open spec fn server_dirs(os: Os) -> Seq<Seq<char>> {
    match os {
        Os::Linux => seq![
            "/opt/valheim"@,
            "/opt/valheim/server"@,
            "/srv/valheim"@,
            "/home/steam/valheim"@,
            "/home/steam/valheim-server"@,
            "/root/valheim"@,
            "/root/valheim/server"@,
        ],
        _ => Seq::empty(),
    }
}

/// Every place worth checking, before adjacent repeats are dropped.
pub open spec fn all_candidates(home: Seq<char>, os: Os, extra: Seq<Seq<char>>) -> Seq<Seq<char>> {
    games_in(spec_steam_roots(home, os) + extra) + server_dirs(os) + seq![
        joined(home, "valheim"@),
        joined(home, "valheim-server"@),
    ]
}

/// `Vec::dedup`: runs of equal neighbours shrink to one.
pub open spec fn dedup_adjacent(s: Seq<Seq<char>>) -> Seq<Seq<char>>
    decreases s.len(),
{
    if s.len() == 0 {
        s
    } else {
        let d = dedup_adjacent(s.drop_last());
        if d.len() > 0 && d.last() == s.last() {
            d
        } else {
            d.push(s.last())
        }
    }
}


/// Where Steam itself lives on this platform.
pub fn steam_roots(home: &str, os: Os) -> (r: Vec<String>)
    ensures
        views(r@) == spec_steam_roots(home@, os),
{
    let mut r: Vec<String> = Vec::new();
    match os {
        Os::Windows => {
            r.push(String::from_str("C:\\Program Files (x86)\\Steam"));
            r.push(String::from_str("C:\\Program Files\\Steam"));
            r.push(join(home, "Steam"));
        },
        Os::Mac => {
            r.push(join(home, "Library/Application Support/Steam"));
        },
        Os::Linux => {
            r.push(join(home, ".steam/steam"));
            r.push(join(home, ".local/share/Steam"));
            r.push(join(home, ".steam/root"));
            r.push(join(home, "Steam"));
            r.push(join(home, "snap/steam/common/.local/share/Steam"));
        },
    }
    assert(views(r@) =~= spec_steam_roots(home@, os));
    r
}

/// Where a Steam root lists its extra libraries.
pub fn library_file(steam_root: &str) -> (r: String)
    ensures
        r@ == joined(steam_root@, "steamapps/libraryfolders.vdf"@),
{
    join(steam_root, "steamapps/libraryfolders.vdf")
}

/// Appends `item` unless it repeats the last element.
fn push_new(out: &mut Vec<String>, item: String, Ghost(seen): Ghost<Seq<Seq<char>>>)
    requires
        views(old(out)@) == dedup_adjacent(seen),
    ensures
        views(final(out)@) == dedup_adjacent(seen.push(item@)),
{
    assert(seen.push(item@).drop_last() =~= seen);
    let n = out.len();
    if n > 0 && out[n - 1] == item {
        assert(views(out@).last() == item@);
    } else {
        out.push(item);
        assert(views(out@) =~= views(old(out)@).push(item@));
    }
}

/// Paths worth checking for a platform, before touching the filesystem.
///
/// `extra_libraries` are the Steam library folders that the `steam_roots`
/// declare in their `library_file`, in that order: Steam keeps games under
/// `steamapps/common` in each library.
pub fn candidate_roots(home: &str, os: Os, extra_libraries: &[String]) -> (r: Vec<String>)
    ensures
        views(r@) == dedup_adjacent(all_candidates(home@, os, views(extra_libraries@))),
{
    let steam = steam_roots(home, os);
    let mut libraries: Vec<String> = steam;
    let mut k: usize = 0;
    while k < extra_libraries.len()
        invariant
            k <= extra_libraries@.len(),
            views(libraries@) == spec_steam_roots(home@, os) + views(extra_libraries@).take(k as int),
        decreases extra_libraries.len() - k,
    {
        let ghost prev = views(libraries@);
        libraries.push(extra_libraries[k].clone());
        assert(views(libraries@) =~= prev.push(extra_libraries@[k as int]@));
        assert(views(extra_libraries@).take(k + 1) =~= views(extra_libraries@).take(k as int).push(
            extra_libraries@[k as int]@,
        ));
        assert(views(libraries@) =~= spec_steam_roots(home@, os) + views(extra_libraries@).take(k + 1));
        k += 1;
    }
    assert(views(extra_libraries@).take(k as int) =~= views(extra_libraries@));
    let ghost libs = views(libraries@);
    let ghost all = all_candidates(home@, os, views(extra_libraries@));

    let mut out: Vec<String> = Vec::new();
    let ghost mut seen: Seq<Seq<char>> = Seq::empty();
    let mut i: usize = 0;
    while i < libraries.len()
        invariant
            i <= libraries@.len(),
            libs == views(libraries@),
            seen == games_in(libs.take(i as int)),
            views(out@) == dedup_adjacent(seen),
        decreases libraries.len() - i,
    {
        let common = join(libraries[i].as_str(), "steamapps/common");
        let game = join(common.as_str(), "Valheim");
        let server = join(common.as_str(), "Valheim dedicated server");
        push_new(&mut out, game, Ghost(seen));
        proof {
            seen = seen.push(game@);
        }
        push_new(&mut out, server, Ghost(seen));
        proof {
            seen = seen.push(server@);
            assert(libs.take(i + 1).drop_last() =~= libs.take(i as int));
            assert(seen =~= games_in(libs.take(i + 1)));
        }
        i += 1;
    }
    assert(libs.take(i as int) =~= libs);
    match os {
        Os::Linux => {
            let dirs = [
                "/opt/valheim",
                "/opt/valheim/server",
                "/srv/valheim",
                "/home/steam/valheim",
                "/home/steam/valheim-server",
                "/root/valheim",
                "/root/valheim/server",
            ];
            let mut j: usize = 0;
            while j < 7
                invariant
                    j <= 7,
                    dirs@ == seq![
                        "/opt/valheim",
                        "/opt/valheim/server",
                        "/srv/valheim",
                        "/home/steam/valheim",
                        "/home/steam/valheim-server",
                        "/root/valheim",
                        "/root/valheim/server",
                    ],
                    seen == games_in(libs) + server_dirs(os).take(j as int),
                    views(out@) == dedup_adjacent(seen),
                    os == Os::Linux,
                decreases 7 - j,
            {
                let d = String::from_str(dirs[j]);
                push_new(&mut out, d, Ghost(seen));
                proof {
                    seen = seen.push(d@);
                    assert(server_dirs(os).take(j + 1) =~= server_dirs(os).take(j as int).push(d@));
                    assert(seen =~= games_in(libs) + server_dirs(os).take(j + 1));
                }
                j += 1;
            }
            assert(server_dirs(os).take(7) =~= server_dirs(os));
        },
        _ => {
            assert(seen =~= games_in(libs) + server_dirs(os));
        },
    }
    let a = join(home, "valheim");
    push_new(&mut out, a, Ghost(seen));
    proof {
        seen = seen.push(a@);
    }
    let b = join(home, "valheim-server");
    push_new(&mut out, b, Ghost(seen));
    proof {
        seen = seen.push(b@);
        assert(seen =~= all);
    }
    out
}

// ---------------------------------------------------------------------------
// Steam's libraryfolders.vdf
// ---------------------------------------------------------------------------

/// VDF escapes backslashes by doubling them: `str::replace("\\\\", "\\")`.
pub open spec fn unescape(s: Seq<char>) -> Seq<char>
    decreases s.len(),
{
    if s.len() < 2 {
        s
    } else if s[0] == '\\' && s[1] == '\\' {
        seq!['\\'] + unescape(s.skip(2))
    } else {
        seq![s[0]] + unescape(s.skip(1))
    }
}

/// The library path a line declares: the second quoted field of a line that
/// starts with `"path"`, when it is not empty.
pub open spec fn library_value(line: Seq<char>) -> Option<Seq<char>> {
    let t = trim(line);
    let fields = split_on(t, seq!['"']);
    if starts_with(t, "\"path\""@) && fields.len() > 3 && fields[3].len() > 0 {
        Some(unescape(fields[3]))
    } else {
        None
    }
}

/// The declared library paths, in order.
pub open spec fn library_values(lines: Seq<Seq<char>>) -> Seq<Seq<char>>
    decreases lines.len(),
{
    if lines.len() == 0 {
        Seq::empty()
    } else {
        let rest = library_values(lines.drop_last());
        match library_value(lines.last()) {
            Some(v) => rest.push(v),
            None => rest,
        }
    }
}

fn unescape_chars(s: &[char]) -> (out: String)
    ensures
        out@ == unescape(s@),
{
    let mut out = String::new();
    let mut i: usize = 0;
    assert(s@.skip(0) =~= s@);
    while i < s.len()
        invariant
            i <= s@.len(),
            unescape(s@) == out@ + unescape(s@.skip(i as int)),
        decreases s.len() - i,
    {
        let ghost rest = s@.skip(i as int);
        if i + 1 < s.len() && s[i] == '\\' && s[i + 1] == '\\' {
            push_char(&mut out, '\\');
            assert(rest.skip(2) =~= s@.skip(i + 2));
            i += 2;
        } else {
            push_char(&mut out, s[i]);
            if i + 1 < s.len() {
                assert(rest.skip(1) =~= s@.skip(i + 1));
            } else {
                assert(rest =~= seq![s@[i as int]]);
                assert(s@.skip(i + 1) =~= Seq::<char>::empty());
            }
            i += 1;
        }
    }
    assert(s@.skip(i as int) =~= Seq::<char>::empty());
    assert(out@ + Seq::<char>::empty() =~= out@);
    out
}

/// Pulls the `"path"` values out of a Steam libraryfolders.vdf.
pub fn parse_library_folders(text: &str) -> (r: Vec<String>)
    ensures
        views(r@) == library_values(spec_lines(text@)),
{
    let lines = split_lines(&chars_of(text));
    let ghost ls = lines_view(lines@);
    let key = chars_of("\"path\"");
    let quote = vec!['"'];
    let mut out: Vec<String> = Vec::new();
    let mut i: usize = 0;
    while i < lines.len()
        invariant
            i <= lines@.len(),
            ls == lines_view(lines@),
            ls == spec_lines(text@),
            key@ == "\"path\""@,
            quote@ == seq!['"'],
            views(out@) == library_values(ls.take(i as int)),
        decreases lines.len() - i,
    {
        let t = trim_chars(lines[i].as_slice());
        let fields = split_chars(&t, &quote);
        assert(ls[i as int] == lines@[i as int]@);
        assert(ls.take(i + 1).drop_last() =~= ls.take(i as int));
        let ghost prev = views(out@);
        if starts_with_chars(&t, &key) && fields.len() > 3 && fields[3].len() > 0 {
            assert(fields@.map_values(|p: Vec<char>| p@)[3] == fields@[3]@);
            let v = unescape_chars(fields[3].as_slice());
            out.push(v);
            assert(views(out@) =~= prev.push(v@));
        } else {
            proof {
                if fields@.len() > 3 {
                    assert(fields@.map_values(|p: Vec<char>| p@)[3] == fields@[3]@);
                }
            }
        }
        i += 1;
    }
    assert(ls.take(i as int) =~= ls);
    out
}


// ---------------------------------------------------------------------------
// Ordering what was found
// ---------------------------------------------------------------------------

/// Installs with BepInEx come first; within each group, by path (`Path`'s
/// order).
pub open spec fn install_before(x: InstallView, y: InstallView) -> bool {
    ||| x.has_bepinex && !y.has_bepinex
    ||| x.has_bepinex == y.has_bepinex && path_order_lt(x.path, y.path)
}

/// No install comes before the one listed ahead of it.
pub open spec fn ranked(s: Seq<InstallView>) -> bool {
    forall|k: int| 0 <= k < s.len() - 1 ==> !install_before(#[trigger] s[k + 1], s[k])
}

/// Neither install comes before the other: their keys tie.
pub open spec fn tied(x: InstallView, y: InstallView) -> bool {
    !install_before(x, y) && !install_before(y, x)
}

/// `s` holds the items of `found` in the order `perm` gives: item `k` of `s`
/// is item `perm[k]` of `found`, and each position of `found` is used once.
pub open spec fn arranges(s: Seq<InstallView>, found: Seq<InstallView>, perm: Seq<int>) -> bool {
    &&& perm.len() == s.len()
    &&& s.len() == found.len()
    &&& forall|k: int| 0 <= k < perm.len() ==> 0 <= #[trigger] perm[k] < found.len() && s[k] == found[perm[k]]
    &&& forall|p: int, q: int| 0 <= p < q < perm.len() ==> #[trigger] perm[p] != #[trigger] perm[q]
}

/// Installs whose keys tie keep the order they were found in (the sort is
/// stable).
pub open spec fn keeps_ties(s: Seq<InstallView>, perm: Seq<int>) -> bool {
    forall|p: int, q: int| 0 <= p < q < s.len() && tied(#[trigger] s[p], #[trigger] s[q]) ==> perm[p] < perm[q]
}

/// `Vec::dedup_by` on paths: an install whose path equals (as a `Path`) the
/// one kept before it is dropped.
pub open spec fn dedup_paths(s: Seq<InstallView>) -> Seq<InstallView>
    decreases s.len(),
{
    if s.len() == 0 {
        s
    } else {
        let d = dedup_paths(s.drop_last());
        if d.len() > 0 && path_same(s.last().path, d.last().path) {
            d
        } else {
            d.push(s.last())
        }
    }
}

pub open spec fn install_views(v: Seq<Install>) -> Seq<InstallView> {
    v.map_values(|i: Install| i@)
}

fn comes_before(x: &Install, y: &Install) -> (r: bool)
    ensures
        r == install_before(x@, y@),
        r ==> !install_before(y@, x@),
{
    if x.has_bepinex != y.has_bepinex {
        x.has_bepinex
    } else {
        path_lt(x.path.as_str(), y.path.as_str())
    }
}

/// Orders what a scan found, installs that already have BepInEx first (those
/// are almost always the one the user means), then by path, and drops an
/// install whose path repeats the one before it. The sort is stable:
/// installs whose keys tie keep the order they were found in, so of two
/// installs at the same path the one found first stays.
pub fn rank_installs(found: Vec<Install>) -> (r: Vec<Install>)
    ensures
        exists|s: Seq<InstallView>, perm: Seq<int>|
            {
                &&& ranked(s)
                &&& s.to_multiset() == install_views(found@).to_multiset()
                &&& arranges(s, install_views(found@), perm)
                &&& keeps_ties(s, perm)
                &&& install_views(r@) == dedup_paths(s)
            },
{
    let ghost all = install_views(found@);
    let mut rest = found;
    let mut rev: Vec<Install> = Vec::new();
    while rest.len() > 0
        invariant
            all == install_views(rest@) + install_views(rev@).reverse(),
        decreases rest.len(),
    {
        let ghost before = rest@;
        let x = rest.pop().unwrap();
        assert(before =~= rest@.push(x));
        rev.push(x);
        assert(install_views(rev@).reverse() =~= seq![x@] + install_views(rev@).drop_last().reverse());
        assert(install_views(before) =~= install_views(rest@).push(x@));
        assert(all =~= install_views(rest@) + install_views(rev@).reverse());
    }
    assert(all =~= install_views(rev@).reverse());

    // Insertion in list order keeps equal installs in the order found.
    let mut sorted: Vec<Install> = Vec::new();
    let ghost mut done: Seq<InstallView> = Seq::empty();
    let ghost mut perm: Seq<int> = Seq::empty();
    assert(install_views(sorted@) =~= done);
    while rev.len() > 0
        invariant
            all == done + install_views(rev@).reverse(),
            ranked(install_views(sorted@)),
            install_views(sorted@).to_multiset() == done.to_multiset(),
            arranges(install_views(sorted@), done, perm),
            keeps_ties(install_views(sorted@), perm),
        decreases rev.len(),
    {
        let ghost before = rev@;
        let x = rev.pop().unwrap();
        assert(before =~= rev@.push(x));
        assert(install_views(before).reverse() =~= seq![x@] + install_views(rev@).reverse());
        let ghost s = install_views(sorted@);
        let mut j = sorted.len();
        let mut moving = true;
        while moving
            invariant
                j <= sorted@.len(),
                s == install_views(sorted@),
                j < sorted@.len() ==> !install_before(s[j as int], x@),
                !moving ==> (j == 0 || !install_before(x@, s[j - 1])),
                forall|k: int| j <= k < s.len() ==> install_before(x@, #[trigger] s[k]),
            decreases j + if moving { 1int } else { 0int },
        {
            if j == 0 {
                moving = false;
            } else {
                assert(s[j - 1] == sorted@[j - 1]@);
                if comes_before(&x, &sorted[j - 1]) {
                    j -= 1;
                } else {
                    moving = false;
                }
            }
        }
        let ghost xv = x@;
        sorted.insert(j, x);
        proof {
            let t = install_views(sorted@);
            assert(t =~= s.insert(j as int, xv));
            assert forall|k: int| 0 <= k < t.len() - 1 implies !install_before(#[trigger] t[k + 1], t[k]) by {
                if k + 1 < j {
                    assert(t[k + 1] == s[k + 1] && t[k] == s[k]);
                } else if k + 1 == j {
                    assert(t[k + 1] == xv && t[k] == s[k]);
                } else if k == j {
                    assert(t[k] == xv && t[k + 1] == s[k]);
                } else {
                    assert(t[k + 1] == s[k] && t[k] == s[k - 1]);
                    assert(!install_before(s[(k - 1) + 1], s[k - 1]));
                }
            }
            vstd::seq_lib::to_multiset_insert(s, j as int, xv);
            vstd::seq_lib::to_multiset_build(done, xv);
            assert(t.to_multiset() == s.to_multiset().insert(xv));
            let m = done.len() as int;
            let np = perm.insert(j as int, m);
            assert(all[m] == xv);
            assert forall|k: int| 0 <= k < np.len() implies 0 <= #[trigger] np[k] < done.push(xv).len() && t[k]
                == done.push(xv)[np[k]] by {
                if k < j {
                    assert(np[k] == perm[k] && t[k] == s[k]);
                } else if k > j {
                    assert(np[k] == perm[k - 1] && t[k] == s[k - 1]);
                }
            }
            assert forall|p: int, q: int| 0 <= p < q < np.len() implies #[trigger] np[p] != #[trigger] np[q] by {
                if p != j && q != j {
                    let pp = if p < j { p } else { p - 1 };
                    let qq = if q < j { q } else { q - 1 };
                    assert(np[p] == perm[pp] && np[q] == perm[qq]);
                    assert(perm[pp] != perm[qq]);
                } else if p == j {
                    assert(np[q] == perm[q - 1]);
                } else {
                    assert(np[p] == perm[p]);
                }
            }
            assert forall|p: int, q: int| 0 <= p < q < t.len() && tied(#[trigger] t[p], #[trigger] t[q]) implies np[p]
                < np[q] by {
                if p != j && q != j {
                    let pp = if p < j { p } else { p - 1 };
                    let qq = if q < j { q } else { q - 1 };
                    assert(np[p] == perm[pp] && np[q] == perm[qq]);
                    assert(t[p] == s[pp] && t[q] == s[qq]);
                    assert(tied(s[pp], s[qq]));
                } else if p == j {
                    assert(t[q] == s[q - 1]);
                    assert(install_before(xv, s[q - 1]));
                } else {
                    assert(np[p] == perm[p]);
                }
            }
            perm = np;
            done = done.push(xv);
            assert(all =~= done + install_views(rev@).reverse());
        }
    }
    assert(done =~= all);
    let ghost order = install_views(sorted@);
    let ghost fperm = perm;

    // Reverse again so that popping yields the sorted order.
    let mut back: Vec<Install> = Vec::new();
    while sorted.len() > 0
        invariant
            order == install_views(sorted@) + install_views(back@).reverse(),
        decreases sorted.len(),
    {
        let ghost before = sorted@;
        let x = sorted.pop().unwrap();
        assert(before =~= sorted@.push(x));
        back.push(x);
        assert(install_views(back@).reverse() =~= seq![x@] + install_views(back@).drop_last().reverse());
        assert(install_views(before) =~= install_views(sorted@).push(x@));
        assert(order =~= install_views(sorted@) + install_views(back@).reverse());
    }
    assert(order =~= install_views(back@).reverse());

    let mut out: Vec<Install> = Vec::new();
    let ghost mut seen: Seq<InstallView> = Seq::empty();
    while back.len() > 0
        invariant
            order == seen + install_views(back@).reverse(),
            install_views(out@) == dedup_paths(seen),
        decreases back.len(),
    {
        let ghost before = back@;
        let x = back.pop().unwrap();
        assert(before =~= back@.push(x));
        assert(install_views(before).reverse() =~= seq![x@] + install_views(back@).reverse());
        let ghost xv = x@;
        assert(seen.push(xv).drop_last() =~= seen);
        let n = out.len();
        let repeat = n > 0 && path_eq(x.path.as_str(), out[n - 1].path.as_str());
        if !repeat {
            let ghost prev = install_views(out@);
            out.push(x);
            assert(install_views(out@) =~= prev.push(xv));
        } else {
            assert(install_views(out@).last() == out@[n - 1]@);
        }
        proof {
            seen = seen.push(xv);
            assert(order =~= seen + install_views(back@).reverse());
        }
    }
    assert(seen =~= order);
    assert(all == install_views(found@));
    assert(ranked(order) && arranges(order, install_views(found@), fperm) && keeps_ties(order, fperm));
    out
}

/// The directory holds one of the dedicated server's files.
pub open spec fn has_server_marker(present: Seq<Seq<char>>) -> bool {
    ||| present.contains("valheim_server.x86_64"@)
    ||| present.contains("valheim_server.exe"@)
    ||| present.contains("valheim_server_Data"@)
}

/// The directory holds one of the game client's files.
pub open spec fn has_game_marker(present: Seq<Seq<char>>) -> bool {
    ||| present.contains("valheim.exe"@)
    ||| present.contains("valheim.x86_64"@)
    ||| present.contains("valheim_Data"@)
}

/// How a directory is classified: not a directory, nothing; a server file
/// present, "dedicated server"; otherwise a game file present, "game
/// install"; otherwise a BepInEx directory, "BepInEx directory"; otherwise
/// nothing. The install keeps the path and whether BepInEx is there.
pub proof fn lemma_classify_labels(path: Seq<char>, probe: Probe)
    ensures
        !probe.is_dir ==> spec_classify(path, probe) is None,
        probe.is_dir && has_server_marker(views(probe.present@)) ==> spec_classify(path, probe) == Some(
            InstallView { path, label: "dedicated server"@, has_bepinex: probe.has_bepinex },
        ),
        probe.is_dir && !has_server_marker(views(probe.present@)) && has_game_marker(views(probe.present@))
            ==> spec_classify(path, probe) == Some(InstallView { path, label: "game install"@, has_bepinex: probe.has_bepinex }),
        probe.is_dir && !has_server_marker(views(probe.present@)) && !has_game_marker(views(probe.present@)) ==> spec_classify(
            path,
            probe,
        ) == if probe.has_bepinex {
            Some(InstallView { path, label: "BepInEx directory"@, has_bepinex: true })
        } else {
            None
        },
        (spec_classify(path, probe) matches Some(v) && v.label == "dedicated server"@) ==> has_server_marker(views(probe.present@)),
{
    reveal_with_fuel(first_marker, 7);
    reveal_strlit("dedicated server");
    reveal_strlit("game install");
    reveal_strlit("BepInEx directory");
    assert("dedicated server"@ != "game install"@) by {
        assert("dedicated server"@[0] != "game install"@[0]);
    }
    assert("dedicated server"@ != "BepInEx directory"@) by {
        assert("dedicated server"@[0] != "BepInEx directory"@[0]);
    }
}

} // verus!
