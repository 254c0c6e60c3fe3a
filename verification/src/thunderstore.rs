//! The slimmed mod model and the 1.0 compatibility signals.
use vstd::prelude::*;
use crate::sort::{KeyedOrder, PositionOrder, lemma_sorted_unique, sort_positions};
use crate::text::{chars_of, lemma_lex_irreflexive, lemma_lex_transitive, lemma_push_contains, lex_less, lex_lt};

verus! {

/// Valheim left early access as 1.0 alongside the Deep North update.
pub const V1_LAUNCH_DATE: &'static str = "2026-09-09";

/// The category authors tag when they mark a mod as current for 1.0.
pub const V1_CATEGORY: &'static str = "Deep North Update";

pub open spec fn v1_launch_date() -> Seq<char> {
    "2026-09-09"@
}

pub open spec fn v1_category() -> Seq<char> {
    "Deep North Update"@
}

/// A single mod, reduced to its latest version and the fields the browser needs.
#[derive(Debug, Clone)]
pub struct Mod {
    /// "Owner-Name", the key dependencies refer to.
    pub full_name: String,
    pub name: String,
    pub owner: String,
    pub description: String,
    pub version: String,
    pub download_url: String,
    pub package_url: String,
    pub downloads: u64,
    pub rating: i64,
    pub file_size: u64,
    pub date_updated: String,
    pub categories: Vec<String>,
    /// Dependencies as "Owner-Name-Version" strings.
    pub dependencies: Vec<String>,
    pub deprecated: bool,
}

impl Mod {
    /// One of the categories is the 1.0 tag.
    pub open spec fn spec_tagged_for_v1(&self) -> bool {
        exists|i: int| 0 <= i < self.categories@.len() && #[trigger] self.categories@[i]@ == v1_category()
    }

    /// The last release is dated on or after the 1.0 launch (text order on ISO dates).
    pub open spec fn spec_updated_since_v1(&self) -> bool {
        !lex_lt(self.date_updated@, v1_launch_date())
    }

    pub open spec fn spec_supports_v1(&self) -> bool {
        !self.deprecated && (self.spec_tagged_for_v1() || self.spec_updated_since_v1())
    }

    pub open spec fn spec_signal(&self) -> Seq<char> {
        if self.spec_tagged_for_v1() && self.spec_updated_since_v1() {
            "tagged + updated"@
        } else if self.spec_tagged_for_v1() {
            "tagged"@
        } else if self.spec_updated_since_v1() {
            "updated"@
        } else {
            "-"@
        }
    }

    /// The author tagged this mod for the 1.0 / Deep North game version.
    pub fn tagged_for_v1(&self) -> (r: bool)
        ensures
            r == self.spec_tagged_for_v1(),
    {
        let tag = String::from_str(V1_CATEGORY);
        proof {
            reveal_strlit("Deep North Update");
        }
        let mut i: usize = 0;
        while i < self.categories.len()
            invariant
                i <= self.categories@.len(),
                tag@ == v1_category(),
                forall|j: int| 0 <= j < i ==> self.categories@[j]@ != v1_category(),
            decreases self.categories.len() - i,
        {
            if self.categories[i] == tag {
                return true;
            }
            i += 1;
        }
        false
    }

    /// The mod saw a release on or after the 1.0 launch.
    pub fn updated_since_v1(&self) -> (r: bool)
        ensures
            r == self.spec_updated_since_v1(),
    {
        let date = chars_of(self.date_updated.as_str());
        let launch = chars_of(V1_LAUNCH_DATE);
        !lex_less(&date, &launch)
    }

    /// Thunderstore has no authoritative compatibility field, so a mod counts as
    /// 1.0-ready when it is still maintained and carries either positive signal.
    pub fn supports_v1(&self) -> (r: bool)
        ensures
            r == self.spec_supports_v1(),
    {
        !self.deprecated && (self.tagged_for_v1() || self.updated_since_v1())
    }

    /// Short marker shown in the list explaining why the mod qualified.
    pub fn signal(&self) -> (r: &'static str)
        ensures
            r@ == self.spec_signal(),
    {
        let tagged = self.tagged_for_v1();
        let updated = self.updated_since_v1();
        if tagged && updated {
            "tagged + updated"
        } else if tagged {
            "tagged"
        } else if updated {
            "updated"
        } else {
            "-"
        }
    }
}

// ---------------------------------------------------------------------------
// The package list as the API gives it
// ---------------------------------------------------------------------------

/// The newest version of a package, as the package list gives it.
pub struct PackageVersion {
    pub description: String,
    pub version_number: String,
    pub dependencies: Vec<String>,
    pub download_url: String,
    pub downloads: u64,
    pub file_size: u64,
}

/// A package as the package list gives it, with only its newest version
/// (the API lists versions newest first).
pub struct Package {
    pub full_name: String,
    pub name: String,
    pub owner: String,
    pub package_url: String,
    pub date_updated: String,
    pub rating_score: i64,
    pub is_deprecated: bool,
    pub categories: Vec<String>,
    pub latest: Option<PackageVersion>,
}

/// The mod a package and its newest version make.
pub open spec fn mod_of(p: Package, v: PackageVersion) -> Mod {
    Mod {
        full_name: p.full_name,
        name: p.name,
        owner: p.owner,
        description: v.description,
        version: v.version_number,
        download_url: v.download_url,
        package_url: p.package_url,
        downloads: v.downloads,
        rating: p.rating_score,
        file_size: v.file_size,
        date_updated: p.date_updated,
        categories: p.categories,
        dependencies: v.dependencies,
        deprecated: p.is_deprecated,
    }
}

/// The packages that have a version, as mods, in list order.
pub open spec fn published(raw: Seq<Package>) -> Seq<Mod>
    decreases raw.len(),
{
    if raw.len() == 0 {
        Seq::empty()
    } else {
        published(raw.drop_last()) + match raw.last().latest {
            Some(v) => seq![mod_of(raw.last(), v)],
            None => Seq::empty(),
        }
    }
}

/// `a` sorts before `b`: by full name, and by list position among equal names.
pub open spec fn name_before(mods: Seq<Mod>, a: usize, b: usize) -> bool {
    ||| lex_lt(mods[a as int].full_name@, mods[b as int].full_name@)
    ||| mods[a as int].full_name@ == mods[b as int].full_name@ && a < b
}

/// `o` lists each position of `mods` once, by full name, stably.
pub open spec fn is_name_order(mods: Seq<Mod>, o: Seq<usize>) -> bool {
    &&& forall|x: usize| o.contains(x) <==> x < mods.len()
    &&& forall|i: int, j: int| 0 <= i < j < o.len() ==> name_before(mods, #[trigger] o[i], #[trigger] o[j])
}

pub open spec fn name_order(mods: Seq<Mod>) -> Seq<usize> {
    choose|o: Seq<usize>| is_name_order(mods, o)
}

/// The catalogue: the published packages as mods, sorted by full name (a
/// stable sort, so equal names keep their list order).
pub open spec fn spec_catalogue(raw: Seq<Package>) -> Seq<Mod> {
    let mods = published(raw);
    name_order(mods).map_values(|k: usize| mods[k as int])
}

proof fn lemma_name_order_unique(mods: Seq<Mod>, o: Seq<usize>)
    requires
        is_name_order(mods, o),
    ensures
        o == name_order(mods),
{
    let c = name_order(mods);
    let before = |x: usize, y: usize| name_before(mods, x, y);
    assert forall|x: usize| !#[trigger] before(x, x) by {
        lemma_lex_irreflexive(mods[x as int].full_name@);
    }
    assert forall|x: usize, y: usize, z: usize| #[trigger] before(x, y) && #[trigger] before(y, z) implies before(x, z) by {
        let (a, b, c) = (mods[x as int].full_name@, mods[y as int].full_name@, mods[z as int].full_name@);
        if lex_lt(a, b) && lex_lt(b, c) {
            lemma_lex_transitive(a, b, c);
        }
    }
    assert forall|i: int, j: int| 0 <= i < j < o.len() implies before(#[trigger] o[i], #[trigger] o[j]) by {}
    assert forall|i: int, j: int| 0 <= i < j < c.len() implies before(#[trigger] c[i], #[trigger] c[j]) by {}
    lemma_sorted_unique(o, c, before);
}

fn mod_from(p: Package, v: PackageVersion) -> (m: Mod)
    ensures
        m == mod_of(p, v),
{
    Mod {
        full_name: p.full_name,
        name: p.name,
        owner: p.owner,
        description: v.description,
        version: v.version_number,
        download_url: v.download_url,
        package_url: p.package_url,
        downloads: v.downloads,
        rating: p.rating_score,
        file_size: v.file_size,
        date_updated: p.date_updated,
        categories: p.categories,
        dependencies: v.dependencies,
        deprecated: p.is_deprecated,
    }
}

/// Reduces the package list to the catalogue: packages without a version are
/// dropped, the rest become mods, sorted by full name.
pub fn catalogue(raw: Vec<Package>) -> (r: Vec<Mod>)
    ensures
        r@ == spec_catalogue(raw@),
{
    let ghost all = raw@;
    // Reverse the list by popping, so that popping again yields list order.
    let mut raw = raw;
    let mut rev: Vec<Package> = Vec::new();
    while raw.len() > 0
        invariant
            all == raw@ + rev@.reverse(),
        decreases raw.len(),
    {
        let ghost before = raw@;
        let p = raw.pop().unwrap();
        assert(before =~= raw@.push(p));
        rev.push(p);
        assert(rev@.reverse() =~= seq![p] + rev@.drop_last().reverse());
        assert(all =~= raw@ + rev@.reverse());
    }
    assert(all =~= rev@.reverse());

    let mut slots: Vec<Option<Mod>> = Vec::new();
    let mut names: Vec<Vec<char>> = Vec::new();
    let ghost mut done: Seq<Package> = Seq::empty();
    while rev.len() > 0
        invariant
            all == done + rev@.reverse(),
            slots@.len() == published(done).len(),
            names@.len() == slots@.len(),
            forall|j: int| 0 <= j < slots@.len() ==> #[trigger] slots@[j] == Some(published(done)[j]),
            forall|j: int| 0 <= j < names@.len() ==> #[trigger] names@[j]@ == published(done)[j].full_name@,
        decreases rev.len(),
    {
        let ghost before = rev@;
        let p = rev.pop().unwrap();
        assert(before =~= rev@.push(p));
        assert(before.reverse() =~= seq![p] + rev@.reverse());
        proof {
            assert(done.push(p).drop_last() =~= done);
        }
        let ghost pg = p;
        match p.latest {
            Some(v) => {
                let full = p.full_name;
                let m = mod_from(
                    Package {
                        full_name: full,
                        name: p.name,
                        owner: p.owner,
                        package_url: p.package_url,
                        date_updated: p.date_updated,
                        rating_score: p.rating_score,
                        is_deprecated: p.is_deprecated,
                        categories: p.categories,
                        latest: None,
                    },
                    v,
                );
                assert(m == mod_of(pg, v));
                names.push(chars_of(m.full_name.as_str()));
                slots.push(Some(m));
            },
            None => {},
        }
        proof {
            done = done.push(pg);
        }
        assert(all =~= done + rev@.reverse());
    }
    assert(done =~= all);
    let ghost mods = published(all);
    let n = slots.len();

    let mut nums: Vec<i128> = Vec::new();
    let mut empties: Vec<Vec<char>> = Vec::new();
    let mut positions: Vec<usize> = Vec::new();
    let mut i: usize = 0;
    while i < n
        invariant
            i <= n,
            nums@.len() == i,
            empties@.len() == i,
            positions@.len() == i,
            forall|j: int| 0 <= j < i ==> #[trigger] nums@[j] == 0,
            forall|j: int| 0 <= j < i ==> #[trigger] empties@[j]@ == Seq::<char>::empty(),
            forall|j: int| 0 <= j < i ==> #[trigger] positions@[j] == j,
        decreases n - i,
    {
        nums.push(0);
        empties.push(Vec::new());
        positions.push(i);
        i += 1;
    }
    let order = KeyedOrder { nums, texts: names, names: empties, desc: false };
    proof {
        assert(positions@.no_duplicates());
        assert forall|j: int| 0 <= j < positions@.len() implies order.valid(#[trigger] positions@[j]) by {}
    }
    let o = sort_positions(&order, positions.as_slice());
    proof {
        assert forall|x: usize| o@.contains(x) <==> x < mods.len() by {
            assert(o@.to_set().contains(x) <==> positions@.to_set().contains(x));
            if x < n {
                assert(positions@[x as int] == x);
            }
        }
        assert forall|a: int, b: int| 0 <= a < b < o@.len() implies name_before(mods, #[trigger] o@[a], #[trigger] o@[b]) by {
            assert(order.before(o@[a], o@[b]));
            assert(order.valid(o@[a]) && order.valid(o@[b]));
            lemma_lex_irreflexive(Seq::<char>::empty());
        }
        lemma_name_order_unique(mods, o@);
    }

    let mut out: Vec<Mod> = Vec::new();
    let mut k: usize = 0;
    while k < o.len()
        invariant
            k <= o@.len(),
            o@.len() == mods.len(),
            o@ == name_order(mods),
            is_name_order(mods, o@),
            slots@.len() == mods.len(),
            out@.len() == k,
            forall|j: int| 0 <= j < k ==> #[trigger] out@[j] == mods[o@[j] as int],
            forall|j: int| 0 <= j < slots@.len() ==> #[trigger] slots@[j] == (if o@.take(k as int).contains(j as usize) {
                None
            } else {
                Some(mods[j])
            }),
        decreases o.len() - k,
    {
        let at = o[k];
        proof {
            assert(o@.contains(at));
            if o@.take(k as int).contains(at) {
                let q = choose|q: int| 0 <= q < k && o@.take(k as int)[q] == at;
                assert(name_before(mods, o@[q], o@[k as int]));
                lemma_lex_irreflexive(mods[at as int].full_name@);
            }
        }
        let ghost prev = slots@;
        let mut taken: Option<Mod> = None;
        std::mem::swap(&mut taken, &mut slots[at]);
        let m = taken.unwrap();
        out.push(m);
        proof {
            lemma_push_contains(o@.take(k as int), at);
            assert(o@.take(k + 1) =~= o@.take(k as int).push(at));
            assert forall|j: int| 0 <= j < slots@.len() implies #[trigger] slots@[j] == (if o@.take(k + 1).contains(j as usize) {
                None
            } else {
                Some(mods[j])
            }) by {
                if j != at as int {
                    assert(slots@[j] == prev[j]);
                }
            }
        }
        k += 1;
    }
    proof {
        assert(out@ =~= name_order(mods).map_values(|j: usize| mods[j as int]));
    }
    out
}

// ---------------------------------------------------------------------------
// The cache
// ---------------------------------------------------------------------------

/// The cache layout this version writes and reads.
pub const CACHE_FORMAT: u32 = 1;

/// Cache lifetime before the package list is fetched again, in seconds.
pub const CACHE_TTL_SECS: u64 = 21600;

/// Age of a cache written at `fetched_at`, at `now` (seconds since the epoch);
/// a clock that went backwards gives age zero.
pub open spec fn spec_cache_age(fetched_at: u64, now: u64) -> nat {
    if now >= fetched_at {
        (now - fetched_at) as nat
    } else {
        0
    }
}

pub fn cache_age_at(fetched_at: u64, now: u64) -> (r: u64)
    ensures
        r == spec_cache_age(fetched_at, now),
{
    now.saturating_sub(fetched_at)
}

/// A cache is used instead of fetching when it is in this version's layout
/// and not older than the lifetime.
pub fn cache_is_fresh(format: u32, fetched_at: u64, now: u64) -> (r: bool)
    ensures
        r == (format == CACHE_FORMAT && spec_cache_age(fetched_at, now) <= CACHE_TTL_SECS),
{
    format == CACHE_FORMAT && cache_age_at(fetched_at, now) <= CACHE_TTL_SECS
}

/// The mod carries the package's fields and those of the version.
pub open spec fn carries(m: Mod, p: Package, v: PackageVersion) -> bool {
    &&& m.full_name@ == p.full_name@
    &&& m.name@ == p.name@
    &&& m.owner@ == p.owner@
    &&& m.package_url@ == p.package_url@
    &&& m.date_updated@ == p.date_updated@
    &&& m.rating == p.rating_score
    &&& m.categories@ == p.categories@
    &&& m.deprecated == p.is_deprecated
    &&& m.version@ == v.version_number@
    &&& m.description@ == v.description@
    &&& m.download_url@ == v.download_url@
    &&& m.downloads == v.downloads
    &&& m.file_size == v.file_size
    &&& m.dependencies@ == v.dependencies@
}

/// The mod is the newest version of one of the packages, carrying their
/// fields.
pub open spec fn from_package(m: Mod, raw: Seq<Package>) -> bool {
    exists|j: int| #![trigger raw[j]] 0 <= j < raw.len() && (raw[j].latest matches Some(v) && carries(m, raw[j], v))
}

/// The package's newest version is one of the mods.
pub open spec fn listed_in(p: Package, mods: Seq<Mod>) -> bool {
    p.latest matches Some(v) ==> exists|k: int| #![trigger mods[k]] 0 <= k < mods.len() && carries(mods[k], p, v)
}

proof fn lemma_published_lists(raw: Seq<Package>)
    ensures
        forall|j: int| 0 <= j < raw.len() ==> listed_in(#[trigger] raw[j], published(raw)),
    decreases raw.len(),
{
    if raw.len() > 0 {
        let init = raw.drop_last();
        lemma_published_lists(init);
        let out = published(raw);
        let prev = published(init);
        assert forall|j: int| 0 <= j < raw.len() implies listed_in(#[trigger] raw[j], out) by {
            if j < init.len() {
                assert(raw[j] == init[j]);
                assert(listed_in(init[j], prev));
                if let Some(v) = raw[j].latest {
                    let k = choose|k: int| #![trigger prev[k]] 0 <= k < prev.len() && carries(prev[k], raw[j], v);
                    assert(out[k] == prev[k]);
                }
            } else {
                assert(raw[j] == raw.last());
                if let Some(v) = raw[j].latest {
                    assert(out[prev.len() as int] == mod_of(raw.last(), v));
                }
            }
        }
    }
}

proof fn lemma_published_from(raw: Seq<Package>)
    ensures
        forall|k: int| 0 <= k < published(raw).len() ==> from_package(#[trigger] published(raw)[k], raw),
        published(raw).len() <= raw.len(),
    decreases raw.len(),
{
    if raw.len() > 0 {
        let init = raw.drop_last();
        lemma_published_from(init);
        let out = published(raw);
        let prev = published(init);
        assert forall|k: int| 0 <= k < out.len() implies from_package(#[trigger] out[k], raw) by {
            if k < prev.len() {
                assert(out[k] == prev[k]);
                assert(from_package(prev[k], init));
                let j = choose|j: int| #![trigger init[j]] 0 <= j < init.len() && (init[j].latest matches Some(v) && carries(prev[k], init[j], v));
                assert(raw[j] == init[j]);
            } else {
                let j = raw.len() - 1;
                assert(raw[j] == raw.last());
            }
        }
    }
}

proof fn lemma_name_before_total(mods: Seq<Mod>, a: usize, b: usize)
    requires
        a != b,
    ensures
        name_before(mods, a, b) || name_before(mods, b, a),
{
    crate::text::lemma_lex_total(mods[a as int].full_name@, mods[b as int].full_name@);
}

proof fn lemma_name_before_trans(mods: Seq<Mod>, a: usize, b: usize, c: usize)
    requires
        name_before(mods, a, b),
        name_before(mods, b, c),
    ensures
        name_before(mods, a, c),
{
    let (x, y, z) = (mods[a as int].full_name@, mods[b as int].full_name@, mods[c as int].full_name@);
    if lex_lt(x, y) && lex_lt(y, z) {
        lemma_lex_transitive(x, y, z);
    }
}

proof fn lemma_name_slot(mods: Seq<Mod>, r: Seq<usize>, n: usize, i: int) -> (p: int)
    requires
        0 <= i <= r.len(),
        !r.contains(n),
        forall|a: int, b: int| 0 <= a < b < r.len() ==> name_before(mods, #[trigger] r[a], #[trigger] r[b]),
        forall|a: int| 0 <= a < i ==> name_before(mods, #[trigger] r[a], n),
    ensures
        i <= p <= r.len(),
        forall|a: int| 0 <= a < p ==> name_before(mods, #[trigger] r[a], n),
        forall|a: int| p <= a < r.len() ==> name_before(mods, n, #[trigger] r[a]),
    decreases r.len() - i,
{
    if i == r.len() {
        i
    } else if name_before(mods, n, r[i]) {
        assert forall|a: int| i <= a < r.len() implies name_before(mods, n, #[trigger] r[a]) by {
            if a > i {
                lemma_name_before_trans(mods, n, r[i], r[a]);
            }
        }
        i
    } else {
        assert(r[i] != n);
        lemma_name_before_total(mods, r[i], n);
        lemma_name_slot(mods, r, n, i + 1)
    }
}

proof fn lemma_name_prefix(mods: Seq<Mod>, n: nat) -> (r: Seq<usize>)
    requires
        n <= mods.len(),
    ensures
        forall|x: usize| r.contains(x) <==> x < n,
        forall|a: int, b: int| 0 <= a < b < r.len() ==> name_before(mods, #[trigger] r[a], #[trigger] r[b]),
        r.len() <= n,
    decreases n,
{
    if n == 0 {
        Seq::empty()
    } else {
        let r0 = lemma_name_prefix(mods, (n - 1) as nat);
        if n - 1 > usize::MAX {
            r0
        } else {
            let m = (n - 1) as usize;
            assert(m == n - 1);
            assert(!r0.contains(m));
            let p = lemma_name_slot(mods, r0, m, 0);
            let r = r0.insert(p, m);
            assert forall|x: usize| r.contains(x) <==> x < n by {
                if r.contains(x) {
                    let q = choose|q: int| 0 <= q < r.len() && r[q] == x;
                    if q < p {
                        assert(r0[q] == x);
                        assert(r0.contains(x));
                    } else if q > p {
                        assert(r0[q - 1] == x);
                        assert(r0.contains(x));
                    }
                }
                if x < n {
                    if x == m {
                        assert(r[p] == m);
                    } else {
                        assert(x < n - 1);
                        assert(r0.contains(x));
                        let q = choose|q: int| 0 <= q < r0.len() && r0[q] == x;
                        if q < p {
                            assert(r[q] == x);
                        } else {
                            assert(r[q + 1] == x);
                        }
                    }
                }
            }
            assert forall|a: int, b: int| 0 <= a < b < r.len() implies name_before(mods, #[trigger] r[a], #[trigger] r[b]) by {
                if b < p {
                    assert(r[a] == r0[a] && r[b] == r0[b]);
                } else if b == p {
                    assert(r[a] == r0[a] && r[b] == m);
                } else if a < p {
                    assert(r[a] == r0[a] && r[b] == r0[b - 1]);
                    lemma_name_before_trans(mods, r0[a], m, r0[b - 1]);
                } else if a == p {
                    assert(r[a] == m && r[b] == r0[b - 1]);
                } else {
                    assert(r[a] == r0[a - 1] && r[b] == r0[b - 1]);
                }
            }
            r
        }
    }
}

/// The catalogue is the newest version of each package that has one, as a
/// mod that carries the package's own fields (its full name, name, owner,
/// page, update date, rating, categories and deprecated flag) and those of
/// that version (its number, description, download URL, download count, size
/// and dependencies); every package that has a version is among them; there
/// are no more mods than packages; and the mods come sorted by full name.
/// (The list is one a `Vec` can hold.)
pub proof fn lemma_catalogue_carries_packages(raw: Seq<Package>)
    requires
        raw.len() <= usize::MAX,
    ensures
        forall|j: int| 0 <= j < raw.len() ==> listed_in(#[trigger] raw[j], spec_catalogue(raw)),
        forall|k: int| 0 <= k < spec_catalogue(raw).len() ==> from_package(#[trigger] spec_catalogue(raw)[k], raw),
        spec_catalogue(raw).len() <= raw.len(),
        forall|a: int, b: int|
            0 <= a < b < spec_catalogue(raw).len() ==> !lex_lt(#[trigger] spec_catalogue(raw)[b].full_name@, #[trigger] spec_catalogue(raw)[a].full_name@),
{
    let mods = published(raw);
    lemma_published_from(raw);
    let w = lemma_name_prefix(mods, mods.len());
    assert(is_name_order(mods, w));
    let o = name_order(mods);
    assert(is_name_order(mods, o));
    let cat = spec_catalogue(raw);
    assert(cat == o.map_values(|k: usize| mods[k as int]));
    // Each position of the order appears once.
    assert(o.no_duplicates()) by {
        assert forall|i: int, j: int| 0 <= i < o.len() && 0 <= j < o.len() && i != j implies o[i] != o[j] by {
            if i < j {
                assert(name_before(mods, o[i], o[j]));
                lemma_lex_irreflexive(mods[o[i] as int].full_name@);
            } else {
                assert(name_before(mods, o[j], o[i]));
                lemma_lex_irreflexive(mods[o[j] as int].full_name@);
            }
        }
    }
    assert(w.no_duplicates()) by {
        assert forall|i: int, j: int| 0 <= i < w.len() && 0 <= j < w.len() && i != j implies w[i] != w[j] by {
            if i < j {
                assert(name_before(mods, w[i], w[j]));
                lemma_lex_irreflexive(mods[w[i] as int].full_name@);
            } else {
                assert(name_before(mods, w[j], w[i]));
                lemma_lex_irreflexive(mods[w[j] as int].full_name@);
            }
        }
    }
    lemma_name_order_unique(mods, w);
    assert(o == w);
    lemma_published_lists(raw);
    assert forall|j: int| 0 <= j < raw.len() implies listed_in(#[trigger] raw[j], cat) by {
        assert(listed_in(raw[j], mods));
        if let Some(v) = raw[j].latest {
            let x = choose|x: int| #![trigger mods[x]] 0 <= x < mods.len() && carries(mods[x], raw[j], v);
            assert((x as usize) as int == x);
            assert(o.contains(x as usize));
            let k = choose|k: int| 0 <= k < o.len() && o[k] == x as usize;
            assert(cat[k] == mods[x]);
        }
    }
    assert forall|k: int| 0 <= k < cat.len() implies from_package(#[trigger] cat[k], raw) by {
        assert(o.contains(o[k]));
        assert(cat[k] == mods[o[k] as int]);
    }
    assert forall|a: int, b: int|
        0 <= a < b < cat.len() implies !lex_lt(#[trigger] cat[b].full_name@, #[trigger] cat[a].full_name@) by {
        assert(name_before(mods, o[a], o[b]));
        let (x, y) = (mods[o[a] as int].full_name@, mods[o[b] as int].full_name@);
        crate::text::lemma_lex_total(x, y);
        if x == y {
            lemma_lex_irreflexive(x);
        }
    }
}

} // verus!
