//! Package index, filtering, and dependency resolution.
use vstd::prelude::*;
use crate::text::chars_of;
use crate::thunderstore::Mod;

verus! {

/// Guard against pathological or malformed dependency chains.
pub const MAX_DEPTH: usize = 12;

/// Which slice of the catalogue the list shows.
#[derive(Debug, Clone, Copy, PartialEq, Eq, Structural)]
pub enum Filter {
    /// Maintained mods carrying either 1.0 signal. The default.
    V1Ready,
    /// Only mods the author tagged for the Deep North / 1.0 game version.
    TaggedOnly,
    /// Only mods released on or after the 1.0 launch.
    UpdatedOnly,
    /// Everything, deprecated packages included.
    All,
}

impl Filter {
    pub open spec fn spec_label(self) -> Seq<char> {
        match self {
            Filter::V1Ready => "1.0 ready"@,
            Filter::TaggedOnly => "tagged only"@,
            Filter::UpdatedOnly => "updated only"@,
            Filter::All => "all mods"@,
        }
    }

    pub open spec fn spec_describe(self) -> Seq<char> {
        match self {
            Filter::V1Ready => "maintained, tagged for 1.0 or released since launch"@,
            Filter::TaggedOnly => "author-tagged 'Deep North Update'"@,
            Filter::UpdatedOnly => "released on or after 2026-09-09"@,
            Filter::All => "every Valheim package, deprecated included"@,
        }
    }

    pub open spec fn spec_next(self) -> Filter {
        match self {
            Filter::V1Ready => Filter::TaggedOnly,
            Filter::TaggedOnly => Filter::UpdatedOnly,
            Filter::UpdatedOnly => Filter::All,
            Filter::All => Filter::V1Ready,
        }
    }

    /// Whether a mod belongs to this slice of the catalogue.
    pub open spec fn spec_accepts(self, m: Mod) -> bool {
        match self {
            Filter::V1Ready => m.spec_supports_v1(),
            Filter::TaggedOnly => !m.deprecated && m.spec_tagged_for_v1(),
            Filter::UpdatedOnly => !m.deprecated && m.spec_updated_since_v1(),
            Filter::All => true,
        }
    }

    pub fn label(self) -> (r: &'static str)
        ensures
            r@ == self.spec_label(),
    {
        match self {
            Filter::V1Ready => "1.0 ready",
            Filter::TaggedOnly => "tagged only",
            Filter::UpdatedOnly => "updated only",
            Filter::All => "all mods",
        }
    }

    pub fn describe(self) -> (r: &'static str)
        ensures
            r@ == self.spec_describe(),
    {
        match self {
            Filter::V1Ready => "maintained, tagged for 1.0 or released since launch",
            Filter::TaggedOnly => "author-tagged 'Deep North Update'",
            Filter::UpdatedOnly => "released on or after 2026-09-09",
            Filter::All => "every Valheim package, deprecated included",
        }
    }

    pub fn next(self) -> (r: Filter)
        ensures
            r == self.spec_next(),
    {
        match self {
            Filter::V1Ready => Filter::TaggedOnly,
            Filter::TaggedOnly => Filter::UpdatedOnly,
            Filter::UpdatedOnly => Filter::All,
            Filter::All => Filter::V1Ready,
        }
    }

    pub fn accepts(self, m: &Mod) -> (r: bool)
        ensures
            r == self.spec_accepts(*m),
    {
        match self {
            Filter::V1Ready => m.supports_v1(),
            Filter::TaggedOnly => !m.deprecated && m.tagged_for_v1(),
            Filter::UpdatedOnly => !m.deprecated && m.updated_since_v1(),
            Filter::All => true,
        }
    }
}

/// What each filter keeps, in terms of a mod's own fields: "1.0 ready" keeps
/// a mod that is not deprecated and is tagged "Deep North Update" or was
/// released on or after 2026-09-09; "tagged only" keeps a mod that is not
/// deprecated and carries the tag, whatever its date; "updated only" keeps a
/// mod that is not deprecated and was released on or after 2026-09-09,
/// whatever its tags; "all" keeps every mod. Dates compare as text, which for
/// ISO dates is date order.
pub proof fn lemma_filters_keep(m: Mod)
    ensures
        Filter::UpdatedOnly.spec_accepts(m) <==> !m.deprecated && !crate::text::lex_lt(m.date_updated@, "2026-09-09"@),
        Filter::TaggedOnly.spec_accepts(m) <==> !m.deprecated && exists|i: int|
            0 <= i < m.categories@.len() && #[trigger] m.categories@[i]@ == "Deep North Update"@,
        Filter::V1Ready.spec_accepts(m) <==> !m.deprecated && ((exists|i: int|
            0 <= i < m.categories@.len() && #[trigger] m.categories@[i]@ == "Deep North Update"@) || !crate::text::lex_lt(
            m.date_updated@,
            "2026-09-09"@,
        )),
        Filter::All.spec_accepts(m),
{
}

/// The date alone decides "updated only", and the tags alone (with the
/// deprecated flag) decide "tagged only": two mods that differ only in the
/// other field are kept alike.
pub proof fn lemma_filters_look_at_their_own_signal(a: Mod, b: Mod)
    ensures
        a.deprecated == b.deprecated && a.date_updated@ == b.date_updated@ ==> (Filter::UpdatedOnly.spec_accepts(a)
            == Filter::UpdatedOnly.spec_accepts(b)),
        a.deprecated == b.deprecated && a.categories@.map_values(|c: String| c@) == b.categories@.map_values(|c: String| c@)
            ==> (Filter::TaggedOnly.spec_accepts(a) == Filter::TaggedOnly.spec_accepts(b)),
{
    lemma_filters_keep(a);
    lemma_filters_keep(b);
    let (ca, cb) = (a.categories@.map_values(|c: String| c@), b.categories@.map_values(|c: String| c@));
    if a.deprecated == b.deprecated && ca == cb {
        assert(a.categories@.len() == ca.len() && b.categories@.len() == cb.len());
        assert forall|i: int| 0 <= i < a.categories@.len() implies #[trigger] a.categories@[i]@ == b.categories@[i]@ by {
            assert(ca[i] == a.categories@[i]@);
            assert(cb[i] == b.categories@[i]@);
        }
        if exists|i: int| 0 <= i < a.categories@.len() && #[trigger] a.categories@[i]@ == "Deep North Update"@ {
            let i = choose|i: int| 0 <= i < a.categories@.len() && #[trigger] a.categories@[i]@ == "Deep North Update"@;
            assert(b.categories@[i]@ == "Deep North Update"@);
        }
        if exists|i: int| 0 <= i < b.categories@.len() && #[trigger] b.categories@[i]@ == "Deep North Update"@ {
            let i = choose|i: int| 0 <= i < b.categories@.len() && #[trigger] b.categories@[i]@ == "Deep North Update"@;
            assert(a.categories@[i]@ == b.categories@[i]@);
        }
    }
}

/// Four steps of `next` bring every filter back to itself.
pub proof fn lemma_filter_cycle(f: Filter)
    ensures
        f.spec_next().spec_next().spec_next().spec_next() == f,
        f.spec_next() != f,
{
}

/// How the root list is ordered.
#[derive(Debug, Clone, Copy, PartialEq, Eq, Structural)]
pub enum Sort {
    Downloads,
    Rating,
    Updated,
    Name,
}

impl Sort {
    pub open spec fn spec_label(self) -> Seq<char> {
        match self {
            Sort::Downloads => "downloads"@,
            Sort::Rating => "rating"@,
            Sort::Updated => "updated"@,
            Sort::Name => "name"@,
        }
    }

    pub open spec fn spec_next(self) -> Sort {
        match self {
            Sort::Downloads => Sort::Rating,
            Sort::Rating => Sort::Updated,
            Sort::Updated => Sort::Name,
            Sort::Name => Sort::Downloads,
        }
    }

    pub fn label(self) -> (r: &'static str)
        ensures
            r@ == self.spec_label(),
    {
        match self {
            Sort::Downloads => "downloads",
            Sort::Rating => "rating",
            Sort::Updated => "updated",
            Sort::Name => "name",
        }
    }

    pub fn next(self) -> (r: Sort)
        ensures
            r == self.spec_next(),
    {
        match self {
            Sort::Downloads => Sort::Rating,
            Sort::Rating => Sort::Updated,
            Sort::Updated => Sort::Name,
            Sort::Name => Sort::Downloads,
        }
    }
}

/// Four steps of `next` bring every sort order back to itself.
pub proof fn lemma_sort_cycle(s: Sort)
    ensures
        s.spec_next().spec_next().spec_next().spec_next() == s,
        s.spec_next() != s,
{
}

/// Position of the last occurrence of `c` in `s`, or -1.
pub open spec fn last_index_of(s: Seq<char>, c: char) -> int
    decreases s.len(),
{
    if s.len() == 0 {
        -1
    } else if s.last() == c {
        s.len() - 1
    } else {
        last_index_of(s.drop_last(), c)
    }
}

pub proof fn lemma_last_index_of(s: Seq<char>, c: char)
    ensures
        -1 <= last_index_of(s, c) < s.len(),
        last_index_of(s, c) >= 0 ==> s[last_index_of(s, c)] == c,
        forall|i: int| last_index_of(s, c) < i < s.len() ==> s[i] != c,
    decreases s.len(),
{
    if s.len() > 0 && s.last() != c {
        lemma_last_index_of(s.drop_last(), c);
        assert forall|i: int| last_index_of(s, c) < i < s.len() implies s[i] != c by {
            if i < s.len() - 1 {
                assert(s[i] == s.drop_last()[i]);
            }
        }
    }
}

/// The "Owner-Name" part of a dependency string "Owner-Name-1.2.3": everything
/// before the last hyphen, or the whole string when there is none.
pub open spec fn spec_dep_key(dep: Seq<char>) -> Seq<char> {
    let p = last_index_of(dep, '-');
    if p < 0 {
        dep
    } else {
        dep.take(p)
    }
}

/// The version part of a dependency string: everything after the last
/// hyphen, or nothing when there is none.
pub open spec fn spec_dep_version(dep: Seq<char>) -> Seq<char> {
    let p = last_index_of(dep, '-');
    if p < 0 {
        Seq::empty()
    } else {
        dep.skip(p + 1)
    }
}

/// The last position in `mods[..n]` whose full name is `key`.
pub open spec fn find_last(mods: Seq<Mod>, key: Seq<char>, n: int) -> Option<int>
    decreases n,
{
    if n <= 0 {
        None
    } else if mods[n - 1].full_name@ == key {
        Some(n - 1)
    } else {
        find_last(mods, key, n - 1)
    }
}

pub proof fn lemma_find_last(mods: Seq<Mod>, key: Seq<char>, n: int)
    requires
        n <= mods.len(),
    ensures
        find_last(mods, key, n) matches Some(i) ==> 0 <= i < n && mods[i].full_name@ == key,
        find_last(mods, key, n) is None ==> forall|i: int| 0 <= i < n ==> mods[i].full_name@ != key,
        forall|i: int| 0 <= i < n && mods[i].full_name@ == key ==> (find_last(mods, key, n) matches Some(j) && i <= j),
    decreases n,
{
    if n > 0 {
        lemma_find_last(mods, key, n - 1);
    }
}

/// A dependency, resolved against the index.
#[derive(Debug, Clone)]
pub enum Dep {
    /// Published: the position of the mod in the index.
    Known(usize),
    /// Not published on Thunderstore: the dependency string as written.
    Missing(String),
}

pub struct Index {
    pub mods: Vec<Mod>,
}

impl Index {
    /// The mod a key names: the last mod whose full name is the key, which is
    /// the one a name-to-position table built in catalogue order keeps.
    pub open spec fn spec_lookup(&self, key: Seq<char>) -> Option<int> {
        find_last(self.mods@, key, self.mods@.len() as int)
    }

    /// How one dependency string resolves.
    pub open spec fn resolve_dep(&self, d: String) -> Dep {
        match self.spec_lookup(spec_dep_key(d@)) {
            Some(i) => Dep::Known(i as usize),
            None => Dep::Missing(d),
        }
    }

    /// Direct dependencies of a mod, resolved against the index.
    pub open spec fn spec_deps(&self, idx: int) -> Seq<Dep> {
        self.mods@[idx].dependencies@.map_values(|d: String| self.resolve_dep(d))
    }

    pub fn new(mods: Vec<Mod>) -> (r: Self)
        ensures
            r.mods@ == mods@,
    {
        Index { mods }
    }

    /// Strips the trailing version from a dependency string.
    ///
    /// Dependencies read "Owner-Name-1.2.3". Package names never contain a
    /// hyphen, so splitting once from the right always yields "Owner-Name"
    /// even for the handful of owners whose name contains a hyphen.
    pub fn dep_key(dep: &str) -> (r: &str)
        ensures
            r@ == spec_dep_key(dep@),
    {
        let cs = chars_of(dep);
        let p = last_dash(&cs);
        match p {
            Some(p) => dep.substring_char(0, p),
            None => dep,
        }
    }

    pub fn dep_version(dep: &str) -> (r: &str)
        ensures
            r@ == spec_dep_version(dep@),
    {
        let cs = chars_of(dep);
        let n = cs.len();
        match last_dash(&cs) {
            Some(p) => {
                assert(p < n);
                assert(dep@.subrange(p + 1, n as int) =~= dep@.skip(p + 1));
                dep.substring_char(p + 1, n)
            },
            None => {
                proof {
                    reveal_strlit("");
                }
                ""
            },
        }
    }

    pub fn lookup(&self, key: &str) -> (r: Option<usize>)
        ensures
            r matches Some(i) ==> self.spec_lookup(key@) == Some(i as int),
            r is None ==> self.spec_lookup(key@) is None,
    {
        let k = String::from_str(key);
        let mut n = self.mods.len();
        while n > 0
            invariant
                n <= self.mods@.len(),
                k@ == key@,
                self.spec_lookup(key@) == find_last(self.mods@, key@, n as int),
            decreases n,
        {
            if self.mods[n - 1].full_name == k {
                return Some(n - 1);
            }
            n -= 1;
        }
        None
    }

    pub fn get(&self, idx: usize) -> (r: &Mod)
        requires
            idx < self.mods@.len(),
        ensures
            *r == self.mods@[idx as int],
    {
        &self.mods[idx]
    }

    /// Direct dependencies of a mod, resolved against the index.
    pub fn deps(&self, idx: usize) -> (r: Vec<Dep>)
        requires
            idx < self.mods@.len(),
        ensures
            r@ == self.spec_deps(idx as int),
    {
        let ds = &self.mods[idx].dependencies;
        let mut out: Vec<Dep> = Vec::new();
        let mut k: usize = 0;
        while k < ds.len()
            invariant
                ds == &self.mods@[idx as int].dependencies,
                k <= ds@.len(),
                out@ == ds@.take(k as int).map_values(|d: String| self.resolve_dep(d)),
            decreases ds.len() - k,
        {
            let d = &ds[k];
            let key = Self::dep_key(d.as_str());
            let dep = match self.lookup(key) {
                Some(i) => Dep::Known(i),
                None => Dep::Missing(d.clone()),
            };
            out.push(dep);
            assert(ds@.take(k + 1) =~= ds@.take(k as int).push(ds@[k as int]));
            k += 1;
        }
        assert(ds@.take(k as int) =~= ds@);
        out
    }
}

/// Position of the last '-' in `cs`.
fn last_dash(cs: &Vec<char>) -> (r: Option<usize>)
    ensures
        r matches Some(p) ==> p == last_index_of(cs@, '-') && p < cs@.len(),
        r is None ==> last_index_of(cs@, '-') < 0,
{
    let mut n = cs.len();
    assert(cs@.take(n as int) =~= cs@);
    while n > 0
        invariant
            n <= cs@.len(),
            last_index_of(cs@, '-') == last_index_of(cs@.take(n as int), '-'),
        decreases n,
    {
        if cs[n - 1] == '-' {
            return Some(n - 1);
        }
        assert(cs@.take(n as int).drop_last() =~= cs@.take(n - 1));
        n -= 1;
    }
    None
}

} // verus!
