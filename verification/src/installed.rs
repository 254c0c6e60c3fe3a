//! What a scan of an install found: the mods present, keyed by folder name.
use vstd::prelude::*;
use crate::text::views;

verus! {

/// The BepInEx directories mods are installed into, each scoped one folder
/// per mod, in the order they are scanned.
pub open spec fn scanned_dirs() -> Seq<Seq<char>> {
    seq!["plugins"@, "patchers"@, "monomod"@]
}

/// How many directories are scanned.
pub const SCANNED_COUNT: usize = 3;

pub fn scanned_dir(k: usize) -> (r: &'static str)
    requires
        k < SCANNED_COUNT,
    ensures
        r@ == scanned_dirs()[k as int],
{
    match k {
        0 => "plugins",
        1 => "patchers",
        _ => "monomod",
    }
}

/// A mod found on disk.
#[derive(Debug, Clone)]
pub struct Installed {
    /// Version from the package's metadata file, when one was written.
    pub version: Option<String>,
    /// Which BepInEx directory it sits in.
    pub location: String,
}

/// The UTF-8 byte order mark some package metadata files start with.
pub open spec fn bom() -> Seq<u8> {
    seq![0xEFu8, 0xBBu8, 0xBFu8]
}

pub open spec fn spec_strip_bom(raw: Seq<u8>) -> Seq<u8> {
    if raw.len() >= 3 && raw.take(3) == bom() {
        raw.skip(3)
    } else {
        raw
    }
}

/// The bytes without a leading byte order mark, which JSON parsers reject.
pub fn strip_bom(raw: &[u8]) -> (r: Vec<u8>)
    ensures
        r@ == spec_strip_bom(raw@),
{
    let start: usize = if raw.len() >= 3 && raw[0] == 0xEF && raw[1] == 0xBB && raw[2] == 0xBF {
        assert(raw@.take(3) =~= bom());
        3
    } else {
        proof {
            if raw@.len() >= 3 && raw@.take(3) == bom() {
                assert(raw@.take(3)[0] == raw@[0]);
                assert(raw@.take(3)[1] == raw@[1]);
                assert(raw@.take(3)[2] == raw@[2]);
            }
        }
        0
    };
    let mut out: Vec<u8> = Vec::new();
    let mut i = start;
    while i < raw.len()
        invariant
            start <= i <= raw@.len(),
            out@ == raw@.subrange(start as int, i as int),
        decreases raw.len() - i,
    {
        out.push(raw[i]);
        assert(raw@.subrange(start as int, i + 1) =~= raw@.subrange(start as int, i as int).push(raw@[i as int]));
        i += 1;
    }
    assert(raw@.subrange(start as int, raw@.len() as int) =~= spec_strip_bom(raw@));
    out
}


pub struct InstalledView {
    pub version: Option<Seq<char>>,
    pub location: Seq<char>,
}

impl View for Installed {
    type V = InstalledView;

    open spec fn view(&self) -> InstalledView {
        InstalledView {
            version: match self.version {
                Some(v) => Some(v@),
                None => None,
            },
            location: self.location@,
        }
    }
}

/// The mods a scan found, by folder name. The first find of a name is kept:
/// a mod that ships both a plugin and a patcher is reported where it was
/// found first.
pub struct Found {
    entries: Vec<(String, Installed)>,
}

pub open spec fn names_of(entries: Seq<(String, Installed)>) -> Seq<Seq<char>> {
    entries.map_values(|e: (String, Installed)| e.0@)
}

impl View for Found {
    type V = Map<Seq<char>, InstalledView>;

    closed spec fn view(&self) -> Map<Seq<char>, InstalledView> {
        Map::new(
            |k: Seq<char>| names_of(self.entries@).contains(k),
            |k: Seq<char>| self.entries@[names_of(self.entries@).index_of(k)].1@,
        )
    }
}

/// In a list without repeats, the position of an element is where it is.
proof fn lemma_unique_index(s: Seq<Seq<char>>, k: Seq<char>, i: int)
    requires
        s.no_duplicates(),
        0 <= i < s.len(),
        s[i] == k,
    ensures
        s.index_of(k) == i,
{
    assert(s.contains(k));
    let j = s.index_of(k);
    assert(0 <= j < s.len() && s[j] == k);
}

impl Found {
    #[verifier::type_invariant]
    closed spec fn wf(&self) -> bool {
        names_of(self.entries@).no_duplicates()
    }

    pub fn new() -> (r: Found)
        ensures
            r@ == Map::<Seq<char>, InstalledView>::empty(),
    {
        let r = Found { entries: Vec::new() };
        assert(r@ =~= Map::<Seq<char>, InstalledView>::empty());
        r
    }

    fn position(&self, name: &str) -> (r: Option<usize>)
        ensures
            match r {
                Some(i) => i < self.entries@.len() && names_of(self.entries@)[i as int] == name@,
                None => !names_of(self.entries@).contains(name@),
            },
    {
        let k = String::from_str(name);
        let mut i: usize = 0;
        while i < self.entries.len()
            invariant
                i <= self.entries@.len(),
                k@ == name@,
                forall|j: int| 0 <= j < i ==> names_of(self.entries@)[j] != name@,
            decreases self.entries.len() - i,
        {
            if self.entries[i].0 == k {
                return Some(i);
            }
            i += 1;
        }
        None
    }

    /// Records a find unless the name was found before; true when recorded.
    pub fn add(&mut self, name: String, item: Installed) -> (added: bool)
        ensures
            added == !old(self)@.contains_key(name@),
            final(self)@ == if added { old(self)@.insert(name@, item@) } else { old(self)@ },
    {
        proof {
            use_type_invariant(&*self);
        }
        if self.position(name.as_str()).is_some() {
            return false;
        }
        let ghost old_names = names_of(self.entries@);
        let ghost old_entries = self.entries@;
        let ghost old_map = self@;
        let mut entries = Vec::new();
        std::mem::swap(&mut entries, &mut self.entries);
        let ghost key = name@;
        let ghost value = item@;
        entries.push((name, item));
        proof {
            assert(names_of(entries@) =~= old_names.push(key));
            assert(names_of(entries@).no_duplicates()) by {
                assert forall|a: int, b: int|
                    0 <= a < names_of(entries@).len() && 0 <= b < names_of(entries@).len() && a != b
                    implies names_of(entries@)[a] != names_of(entries@)[b] by {
                    if a == old_names.len() as int {
                        assert(old_names.contains(names_of(entries@)[b]));
                    } else if b == old_names.len() as int {
                        assert(old_names.contains(names_of(entries@)[a]));
                    }
                }
            }
        }
        self.entries = entries;
        proof {
            assert forall|k: Seq<char>| #[trigger] self@.contains_key(k) == old_map.insert(key, value).contains_key(k) by {
                if old_names.contains(k) {
                    let q = choose|q: int| 0 <= q < old_names.len() && old_names[q] == k;
                    assert(names_of(self.entries@)[q] == k);
                }
                if names_of(self.entries@).contains(k) && k != key {
                    let q = choose|q: int| 0 <= q < names_of(self.entries@).len() && names_of(self.entries@)[q] == k;
                    assert(q < old_names.len());
                    assert(old_names[q] == k);
                }
                if k == key {
                    assert(names_of(self.entries@)[old_names.len() as int] == key);
                }
            }
            assert forall|k: Seq<char>| #[trigger] self@.contains_key(k) implies self@[k] == old_map.insert(key, value)[k] by {
                let nv = names_of(self.entries@);
                if k == key {
                    lemma_unique_index(nv, k, old_names.len() as int);
                } else {
                    let q = choose|q: int| 0 <= q < nv.len() && nv[q] == k;
                    assert(q < old_names.len());
                    assert(old_names[q] == k);
                    lemma_unique_index(nv, k, q);
                    lemma_unique_index(old_names, k, q);
                    assert(self.entries@[q] == old_entries[q]);
                }
            }
            assert(self@ =~= old_map.insert(key, value));
        }
        true
    }

    /// What was found under a name.
    pub fn get(&self, name: &str) -> (r: Option<&Installed>)
        ensures
            match r {
                Some(item) => self@.contains_key(name@) && self@[name@] == item@,
                None => !self@.contains_key(name@),
            },
    {
        proof {
            use_type_invariant(self);
        }
        match self.position(name) {
            Some(i) => {
                proof {
                    lemma_unique_index(names_of(self.entries@), name@, i as int);
                }
                Some(&self.entries[i].1)
            },
            None => None,
        }
    }

    pub fn contains_key(&self, name: &str) -> (r: bool)
        ensures
            r == self@.contains_key(name@),
    {
        self.position(name).is_some()
    }

    pub fn len(&self) -> (n: usize)
        ensures
            n == self@.len(),
    {
        proof {
            use_type_invariant(self);
            names_of(self.entries@).unique_seq_to_set();
            assert(self@.dom() =~= names_of(self.entries@).to_set());
        }
        self.entries.len()
    }

    pub fn is_empty(&self) -> (r: bool)
        ensures
            r == (self@.len() == 0),
    {
        self.len() == 0
    }
}

} // verus!
