//! Where the files of a Thunderstore archive go once unpacked into BepInEx.
use vstd::prelude::*;
use crate::config::Layout;
use crate::lines::first_index_of;
use crate::paths::{
    PartView, Part, components, components_of, extension, extension_of, has_prefix, join, joined,
    path_has_prefix,
};
use crate::text::{
    chars_eq, chars_of, lowercase, push_str, slice_chars, starts_with, starts_with_chars,
    string_of, to_lowercase,
};

verus! {

/// Where an archive entry belongs once unpacked.
#[derive(Debug)]
pub enum Target {
    /// Relative to the server root, used by the BepInEx framework package.
    Root(String),
    /// Relative to the BepInEx directory.
    BepInEx(String),
    Skip,
}

pub enum TargetView {
    Root(Seq<char>),
    BepInEx(Seq<char>),
    Skip,
}

impl View for Target {
    type V = TargetView;

    open spec fn view(&self) -> TargetView {
        match self {
            Target::Root(p) => TargetView::Root(p@),
            Target::BepInEx(p) => TargetView::BepInEx(p@),
            Target::Skip => TargetView::Skip,
        }
    }
}

/// What an install wrote and what it deliberately kept.
#[derive(Debug, Clone, Copy)]
pub struct Report {
    pub written: usize,
    pub skipped_config: usize,
}

impl Report {
    /// Nothing written or kept yet.
    pub fn new() -> (r: Report)
        ensures
            r.written == 0,
            r.skipped_config == 0,
    {
        Report { written: 0, skipped_config: 0 }
    }

    /// Whether an entry bound for a destination is written, counting it:
    /// existing configs hold the user's tuning, so a file in the config
    /// directory that already exists is kept (and counted as kept), never
    /// overwritten; anything else is written.
    pub fn take_entry(&mut self, is_config: bool, exists: bool) -> (write: bool)
        requires
            old(self).written < usize::MAX,
            old(self).skipped_config < usize::MAX,
        ensures
            write == !(is_config && exists),
            final(self).written == old(self).written + if write { 1int } else { 0int },
            final(self).skipped_config == old(self).skipped_config + if write { 0int } else { 1int },
    {
        if is_config && exists {
            self.skipped_config = self.skipped_config + 1;
            false
        } else {
            self.written = self.written + 1;
            true
        }
    }
}

/// Backslashes turned into forward slashes.
pub open spec fn slashes(s: Seq<char>) -> Seq<char> {
    s.map_values(|c: char| if c == '\\' { '/' } else { c })
}

fn to_slashes(s: &[char]) -> (r: Vec<char>)
    ensures
        r@ == slashes(s@),
{
    let mut r: Vec<char> = Vec::new();
    let mut i: usize = 0;
    while i < s.len()
        invariant
            i <= s@.len(),
            r@ == slashes(s@.take(i as int)),
        decreases s.len() - i,
    {
        r.push(if s[i] == '\\' { '/' } else { s[i] });
        assert(slashes(s@.take(i + 1)) =~= slashes(s@.take(i as int)).push(if s@[i as int] == '\\' { '/' } else { s@[i as int] }));
        i += 1;
    }
    assert(s@.take(i as int) =~= s@);
    r
}

/// The relative path rebuilt from the normal components, skipping `.`; none
/// when a root, prefix or `..` appears (it could escape the destination) or
/// when nothing is left.
pub open spec fn safe_parts(parts: Seq<PartView>, acc: Seq<char>) -> Option<Seq<char>>
    decreases parts.len(),
{
    if parts.len() == 0 {
        if acc.len() == 0 {
            None
        } else {
            Some(acc)
        }
    } else {
        match parts[0] {
            PartView::Normal(p) => safe_parts(parts.drop_first(), joined(acc, p)),
            PartView::CurDir => safe_parts(parts.drop_first(), acc),
            _ => None,
        }
    }
}

pub open spec fn spec_safe_relative(name: Seq<char>) -> Option<Seq<char>> {
    safe_parts(components_of(name), Seq::empty())
}

/// Rejects absolute paths and parent-directory escapes (zip-slip).
pub fn safe_relative(name: &str) -> (r: Option<String>)
    ensures
        match r {
            Some(p) => spec_safe_relative(name@) == Some(p@),
            None => spec_safe_relative(name@) is None,
        },
{
    let parts = components(name);
    let ghost pv = parts@.map_values(|c: Part| c@);
    let mut out = String::new();
    let mut i: usize = 0;
    assert(pv.skip(0) =~= pv);
    while i < parts.len()
        invariant
            i <= parts@.len(),
            pv == parts@.map_values(|c: Part| c@),
            pv == components_of(name@),
            spec_safe_relative(name@) == safe_parts(pv.skip(i as int), out@),
        decreases parts.len() - i,
    {
        assert(pv.skip(i as int)[0] == parts@[i as int]@);
        assert(pv.skip(i as int).drop_first() =~= pv.skip(i + 1));
        match &parts[i] {
            Part::Normal(p) => {
                out = join(out.as_str(), p.as_str());
            },
            Part::CurDir => {},
            _ => {
                return None;
            },
        }
        i += 1;
    }
    if crate::text::chars_of(out.as_str()).len() == 0 {
        None
    } else {
        Some(out)
    }
}

/// The lower-cased first directory of a path and the rest after it; or no
/// directory and the whole path.
pub open spec fn head_and_rest(unix: Seq<char>) -> (Seq<char>, Seq<char>) {
    let p = first_index_of(unix, '/');
    if p < 0 {
        (Seq::empty(), unix)
    } else {
        (lowercase(unix.take(p)), unix.skip(p + 1))
    }
}

/// Maps an archive entry to its destination, following Thunderstore's
/// conventional package layout.
pub open spec fn spec_route(rel: Seq<char>, full_name: Seq<char>, framework: Option<Seq<char>>) -> TargetView {
    let unix = slashes(rel);
    match framework {
        Some(prefix) => if starts_with(unix, prefix) && unix.len() > prefix.len() {
            TargetView::Root(unix.skip(prefix.len() as int))
        } else {
            TargetView::Skip
        },
        None => {
            let (head, rest) = head_and_rest(unix);
            if head == "plugins"@ {
                TargetView::BepInEx(joined(joined("plugins"@, full_name), rest))
            } else if head == "patchers"@ {
                TargetView::BepInEx(joined(joined("patchers"@, full_name), rest))
            } else if head == "monomod"@ {
                TargetView::BepInEx(joined(joined("monomod"@, full_name), rest))
            } else if head == "core"@ {
                TargetView::BepInEx(joined("core"@, rest))
            } else if head == "config"@ {
                TargetView::BepInEx(joined("config"@, rest))
            } else {
                TargetView::BepInEx(joined(joined("plugins"@, full_name), unix))
            }
        },
    }
}

/// Maps an archive entry to its destination. The BepInEx framework pack
/// unpacks over the server root; directories BepInEx owns are merged in
/// place; everything else is scoped to a per-mod folder so installs stay
/// separable.
pub fn route(rel: &str, full_name: &str, framework: Option<&str>) -> (t: Target)
    ensures
        t@ == spec_route(rel@, full_name@, crate::compose::opt_view(framework)),
{
    let unix = to_slashes(&chars_of(rel));
    match framework {
        Some(prefix) => {
            let pre = chars_of(prefix);
            // The pack's own metadata is not part of the game install.
            if starts_with_chars(&unix, &pre) && unix.len() > pre.len() {
                let rest = slice_chars(&unix, pre.len(), unix.len());
                assert(rest@ =~= unix@.skip(pre@.len() as int));
                return Target::Root(string_of(&rest));
            }
            return Target::Skip;
        },
        None => {},
    }
    let (head, rest): (Vec<char>, Vec<char>) = match slash_position(&unix) {
        Some(p) => {
            let h = slice_chars(&unix, 0, p);
            let r = slice_chars(&unix, p + 1, unix.len());
            assert(h@ =~= unix@.take(p as int));
            assert(r@ =~= unix@.skip(p + 1));
            (chars_of(to_lowercase(string_of(&h).as_str()).as_str()), r)
        },
        None => (Vec::new(), unix.clone()),
    };
    let rest_s = string_of(&rest);
    let unix_s = string_of(&unix);
    if chars_eq(&head, &chars_of("plugins")) {
        Target::BepInEx(join(join("plugins", full_name).as_str(), rest_s.as_str()))
    } else if chars_eq(&head, &chars_of("patchers")) {
        Target::BepInEx(join(join("patchers", full_name).as_str(), rest_s.as_str()))
    } else if chars_eq(&head, &chars_of("monomod")) {
        Target::BepInEx(join(join("monomod", full_name).as_str(), rest_s.as_str()))
    } else if chars_eq(&head, &chars_of("core")) {
        Target::BepInEx(join("core", rest_s.as_str()))
    } else if chars_eq(&head, &chars_of("config")) {
        Target::BepInEx(join("config", rest_s.as_str()))
    } else {
        Target::BepInEx(join(join("plugins", full_name).as_str(), unix_s.as_str()))
    }
}

/// Position of the first '/'.
fn slash_position(s: &Vec<char>) -> (r: Option<usize>)
    ensures
        r matches Some(p) ==> p < s@.len() && first_index_of(s@, '/') == p,
        r is None ==> first_index_of(s@, '/') < 0,
{
    let mut i: usize = 0;
    assert(s@.skip(0) =~= s@);
    while i < s.len()
        invariant
            i <= s@.len(),
            first_index_of(s@, '/') == if first_index_of(s@.skip(i as int), '/') < 0 {
                -1
            } else {
                first_index_of(s@.skip(i as int), '/') + i
            },
        decreases s.len() - i,
    {
        if s[i] == '/' {
            return Some(i);
        }
        assert(s@.skip(i as int).drop_first() =~= s@.skip(i + 1));
        i += 1;
    }
    None
}

/// A character's code with ASCII capitals lowered.
pub open spec fn ascii_lower(c: char) -> u32 {
    if 65 <= (c as u32) <= 90 {
        (c as u32 + 32) as u32
    } else {
        c as u32
    }
}

/// `str::eq_ignore_ascii_case`.
pub open spec fn eq_ignore_ascii_case(a: Seq<char>, b: Seq<char>) -> bool {
    a.len() == b.len() && forall|i: int| 0 <= i < a.len() ==> ascii_lower(#[trigger] a[i]) == ascii_lower(b[i])
}

fn lower_code(c: char) -> (r: u32)
    ensures
        r == ascii_lower(c),
{
    let u = c as u32;
    if 65 <= u && u <= 90 {
        u + 32
    } else {
        u
    }
}

fn ascii_eq_ignore_case(a: &[char], b: &[char]) -> (r: bool)
    ensures
        r == eq_ignore_ascii_case(a@, b@),
{
    if a.len() != b.len() {
        return false;
    }
    let mut i: usize = 0;
    while i < a.len()
        invariant
            a@.len() == b@.len(),
            i <= a@.len(),
            forall|j: int| 0 <= j < i ==> ascii_lower(#[trigger] a@[j]) == ascii_lower(b@[j]),
        decreases a.len() - i,
    {
        if lower_code(a[i]) != lower_code(b[i]) {
            return false;
        }
        i += 1;
    }
    true
}

/// The mode for an extracted file: archive permissions that carry an
/// executable bit are honoured; `.sh` files are made runnable regardless;
/// anything else keeps the default.
pub open spec fn spec_executable_mode(archive_mode: Option<u32>, dest: Seq<char>) -> Option<u32> {
    if archive_mode is Some && archive_mode->0 & 0o111u32 != 0 {
        Some(archive_mode->0 & 0o777u32)
    } else if extension_of(dest) matches Some(e) && eq_ignore_ascii_case(e, "sh"@) {
        Some(0o755u32)
    } else {
        None
    }
}

/// The mode to apply to an extracted file, or `None` to leave the default.
///
/// BepInEx ships its Linux launch scripts as plain 0666, so `.sh` files
/// are made runnable regardless — an unrunnable start script is useless.
pub fn executable_mode(archive_mode: Option<u32>, dest: &str) -> (r: Option<u32>)
    ensures
        r == spec_executable_mode(archive_mode, dest@),
{
    if let Some(mode) = archive_mode {
        if mode & 0o111 != 0 {
            return Some(mode & 0o777);
        }
    }
    let is_script = match extension(dest) {
        Some(e) => ascii_eq_ignore_case(&chars_of(e.as_str()), &chars_of("sh")),
        None => false,
    };
    if is_script {
        Some(0o755)
    } else {
        None
    }
}

/// The first directory of an entry name: everything before the first '/', if any.
pub open spec fn first_dir(name: Seq<char>) -> Option<Seq<char>> {
    let unix = slashes(name);
    let p = first_index_of(unix, '/');
    if p < 0 {
        None
    } else {
        Some(unix.take(p))
    }
}

/// From entry `k` on, the first one whose first directory names the BepInEx
/// pack, as that directory followed by '/'.
pub open spec fn spec_framework_prefix(names: Seq<Seq<char>>, opens: Seq<bool>, k: int) -> Option<Seq<char>>
    decreases names.len() - k,
{
    if k < 0 || k >= names.len() {
        None
    } else if k < opens.len() && opens[k] && (first_dir(names[k]) matches Some(d) && starts_with(d, "BepInExPack"@)) {
        Some(first_dir(names[k])->0.push('/'))
    } else {
        spec_framework_prefix(names, opens, k + 1)
    }
}

/// Detects the BepInEx framework pack from the archive's entry names and
/// returns the prefix to strip. Only entries that open (`opens[k]`) count.
pub fn framework_prefix(names: &[String], opens: &[bool]) -> (r: Option<String>)
    requires
        opens@.len() == names@.len(),
    ensures
        match r {
            Some(p) => spec_framework_prefix(crate::text::views(names@), opens@, 0) == Some(p@),
            None => spec_framework_prefix(crate::text::views(names@), opens@, 0) is None,
        },
{
    let ghost nv = crate::text::views(names@);
    let pack = chars_of("BepInExPack");
    let mut i: usize = 0;
    while i < names.len()
        invariant
            i <= names@.len(),
            nv == crate::text::views(names@),
            pack@ == "BepInExPack"@,
            opens@.len() == names@.len(),
            spec_framework_prefix(nv, opens@, 0) == spec_framework_prefix(nv, opens@, i as int),
        decreases names.len() - i,
    {
        if !opens[i] {
            i += 1;
            continue;
        }
        let unix = to_slashes(&chars_of(names[i].as_str()));
        assert(nv[i as int] == names@[i as int]@);
        if let Some(p) = slash_position(&unix) {
            let first = slice_chars(&unix, 0, p);
            assert(first@ =~= unix@.take(p as int));
            if starts_with_chars(&first, &pack) {
                let mut with_slash = first;
                with_slash.push('/');
                return Some(string_of(&with_slash));
            }
        }
        i += 1;
    }
    None
}

/// What to do with one archive entry.
#[derive(Debug)]
pub enum Placement {
    /// A directory entry, or metadata the layout drops.
    Ignore,
    /// The path could escape the destination; the text is the entry name.
    Unsafe(String),
    /// Write the entry here; `is_config` marks the user's config directory,
    /// where an existing file is kept rather than overwritten.
    Write { dest: String, is_config: bool },
}

pub enum PlacementView {
    Ignore,
    Unsafe(Seq<char>),
    Write { dest: Seq<char>, is_config: bool },
}

impl View for Placement {
    type V = PlacementView;

    open spec fn view(&self) -> PlacementView {
        match self {
            Placement::Ignore => PlacementView::Ignore,
            Placement::Unsafe(n) => PlacementView::Unsafe(n@),
            Placement::Write { dest, is_config } => PlacementView::Write { dest: dest@, is_config: *is_config },
        }
    }
}

pub open spec fn spec_place(
    name: Seq<char>,
    is_dir: bool,
    full_name: Seq<char>,
    framework: Option<Seq<char>>,
    root: Seq<char>,
    bepinex: Seq<char>,
) -> PlacementView {
    if is_dir {
        PlacementView::Ignore
    } else {
        let unix = slashes(name);
        match spec_safe_relative(unix) {
            None => PlacementView::Unsafe(unix),
            Some(rel) => match spec_route(rel, full_name, framework) {
                TargetView::Skip => PlacementView::Ignore,
                TargetView::Root(p) => {
                    let dest = joined(root, p);
                    PlacementView::Write { dest, is_config: path_has_prefix(dest, joined(bepinex, "config"@)) }
                },
                TargetView::BepInEx(p) => {
                    let dest = joined(bepinex, p);
                    PlacementView::Write { dest, is_config: path_has_prefix(dest, joined(bepinex, "config"@)) }
                },
            },
        }
    }
}

/// Decides where an archive entry goes in the install.
pub fn place_entry(
    name: &str,
    is_dir: bool,
    full_name: &str,
    framework: Option<&str>,
    layout: &Layout,
) -> (r: Placement)
    ensures
        r@ == spec_place(name@, is_dir, full_name@, crate::compose::opt_view(framework), layout.root@, layout.bepinex@),
{
    if is_dir {
        return Placement::Ignore;
    }
    let unix = string_of(&to_slashes(&chars_of(name)));
    let rel = match safe_relative(unix.as_str()) {
        Some(p) => p,
        None => return Placement::Unsafe(unix),
    };
    let dest = match route(rel.as_str(), full_name, framework) {
        Target::Skip => return Placement::Ignore,
        Target::Root(p) => join(layout.root.as_str(), p.as_str()),
        Target::BepInEx(p) => join(layout.bepinex.as_str(), p.as_str()),
    };
    let config_dir = join(layout.bepinex.as_str(), "config");
    let is_config = has_prefix(dest.as_str(), config_dir.as_str());
    Placement::Write { dest, is_config }
}

/// Nothing written is only an error when nothing was deliberately kept
/// either — a config-only package on a reinstall is a legitimate no-op.
pub fn check_report(full_name: &str, report: Report) -> (r: Result<Report, String>)
    ensures
        match r {
            Ok(rep) => rep == report && !(report.written == 0 && report.skipped_config == 0),
            Err(m) => report.written == 0 && report.skipped_config == 0 && m@ == full_name@ + " contained no installable files"@,
        },
{
    if report.written == 0 && report.skipped_config == 0 {
        let mut m = String::from_str(full_name);
        push_str(&mut m, " contained no installable files");
        return Err(m);
    }
    Ok(report)
}


/// A path with a parent-directory step, a root or a drive prefix among its
/// components is never accepted: archive entries cannot escape (zip-slip).
pub proof fn lemma_escapes_are_rejected(name: Seq<char>)
    requires
        exists|k: int| 0 <= k < components_of(name).len() && !(#[trigger] components_of(name)[k] is Normal)
            && !(components_of(name)[k] is CurDir),
    ensures
        spec_safe_relative(name) is None,
{
    let parts = components_of(name);
    let k = choose|k: int| 0 <= k < parts.len() && !(#[trigger] parts[k] is Normal) && !(parts[k] is CurDir);
    lemma_safe_parts_rejects(parts, Seq::empty(), k);
}

proof fn lemma_safe_parts_rejects(parts: Seq<PartView>, acc: Seq<char>, k: int)
    requires
        0 <= k < parts.len(),
        !(parts[k] is Normal),
        !(parts[k] is CurDir),
    ensures
        safe_parts(parts, acc) is None,
    decreases parts.len(),
{
    if k > 0 {
        match parts[0] {
            PartView::Normal(p) => {
                assert(parts.drop_first()[k - 1] == parts[k]);
                lemma_safe_parts_rejects(parts.drop_first(), joined(acc, p), k - 1);
            },
            PartView::CurDir => {
                assert(parts.drop_first()[k - 1] == parts[k]);
                lemma_safe_parts_rejects(parts.drop_first(), acc, k - 1);
            },
            _ => {},
        }
    }
}

/// A written destination is marked as configuration exactly when it lies
/// under `<bepinex>/config`, whether the entry was routed to the server root
/// or into BepInEx: an existing file there is kept on reinstall. Every
/// written destination lies under the root or under BepInEx.
pub proof fn lemma_config_marked_by_destination(
    name: Seq<char>,
    is_dir: bool,
    full_name: Seq<char>,
    framework: Option<Seq<char>>,
    root: Seq<char>,
    bepinex: Seq<char>,
)
    ensures
        spec_place(name, is_dir, full_name, framework, root, bepinex) matches PlacementView::Write { dest, is_config } ==> {
            &&& is_config == path_has_prefix(dest, joined(bepinex, "config"@))
            &&& exists|p: Seq<char>| dest == joined(root, p) || dest == joined(bepinex, p)
        },
        is_dir ==> spec_place(name, is_dir, full_name, framework, root, bepinex) is Ignore,
{
    if !is_dir {
        let unix = slashes(name);
        if let Some(rel) = spec_safe_relative(unix) {
            match spec_route(rel, full_name, framework) {
                TargetView::Root(p) => {
                    assert(joined(root, p) == joined(root, p));
                },
                TargetView::BepInEx(p) => {
                    assert(joined(bepinex, p) == joined(bepinex, p));
                },
                TargetView::Skip => {},
            }
        }
    }
}

} // verus!
