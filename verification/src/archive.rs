//! Reading a downloaded package: which archive entries go where, with their
//! contents. Writing them to disk is the caller's part.
use vstd::prelude::*;
use crate::config::Layout;
use crate::install::{framework_prefix, place_entry, spec_framework_prefix, spec_place, Placement, PlacementView};
use crate::text::{push_str, views};

verus! {

#[verifier::external_type_specification]
#[verifier::external_body]
#[verifier::reject_recursive_types(R)]
pub struct ExZipArchive<R>(zip::ZipArchive<R>);

#[verifier::external_type_specification]
#[verifier::external_body]
#[verifier::reject_recursive_types(T)]
pub struct ExCursor<T>(std::io::Cursor<T>);

#[verifier::external_type_specification]
#[verifier::external_body]
pub struct ExZipError(zip::result::ZipError);

#[verifier::external_type_specification]
#[verifier::external_body]
pub struct ExIoError(std::io::Error);

/// The bytes an opened archive reads from: it reads them through a
/// `Cursor`, which never changes them.
pub uninterp spec fn archive_source(a: zip::ZipArchive<std::io::Cursor<Vec<u8>>>) -> Seq<u8>;

/// Whether `zip::ZipArchive::new` opens these bytes as a zip archive.
pub uninterp spec fn zip_opens(bytes: Seq<u8>) -> bool;

/// The entry names, in index order, that `zip::ZipArchive::new` reads from
/// these bytes when they hold a zip archive.
pub uninterp spec fn zip_entry_names(bytes: Seq<u8>) -> Seq<Seq<char>>;

/// Whether `ZipArchive::by_index` opens entry `k` of the archive in these
/// bytes (it is there, its compression is supported, it is not encrypted).
pub uninterp spec fn zip_entry_opens(bytes: Seq<u8>, k: int) -> bool;

/// The permissions entry `k` of the archive in these bytes records
/// (`ZipFile::unix_mode`).
pub uninterp spec fn zip_entry_mode(bytes: Seq<u8>, k: int) -> Option<u32>;

/// The uncompressed contents of entry `k` of the archive in these bytes, as
/// `Read::read_to_end` gives them; `None` when reading it fails (a corrupt
/// stream, a checksum that does not match).
pub uninterp spec fn zip_entry_data(bytes: Seq<u8>, k: int) -> Option<Seq<u8>>;

/// Calls `zip::ZipArchive::new` on the bytes: it succeeds exactly when they
/// open as a zip archive, and the archive reads from those bytes.
#[verifier::external_body]
fn open_archive(bytes: Vec<u8>) -> (r: Result<zip::ZipArchive<std::io::Cursor<Vec<u8>>>, zip::result::ZipError>)
    ensures
        r is Ok <==> zip_opens(bytes@),
        r matches Ok(a) ==> archive_source(a) == bytes@,
{
    zip::ZipArchive::new(std::io::Cursor::new(bytes))
}

/// Calls `ZipArchive::len`: the number of entries.
#[verifier::external_body]
fn entry_count(a: &zip::ZipArchive<std::io::Cursor<Vec<u8>>>) -> (n: usize)
    ensures
        n == zip_entry_names(archive_source(*a)).len(),
{
    a.len()
}

/// Calls `ZipArchive::name_for_index`: the name of entry `i`, if there is one.
#[verifier::external_body]
fn entry_name(a: &zip::ZipArchive<std::io::Cursor<Vec<u8>>>, i: usize) -> (r: Option<String>)
    ensures
        match r {
            Some(n) => i < zip_entry_names(archive_source(*a)).len() && n@ == zip_entry_names(archive_source(*a))[i as int],
            None => i >= zip_entry_names(archive_source(*a)).len(),
        },
{
    a.name_for_index(i).map(|s| s.to_string())
}

/// Calls `ZipArchive::by_index` and reads the permissions the opened entry
/// records (`ZipFile::unix_mode`). It succeeds exactly when entry `i` opens.
#[verifier::external_body]
fn entry_mode_at(a: &mut zip::ZipArchive<std::io::Cursor<Vec<u8>>>, i: usize) -> (r: Result<Option<u32>, zip::result::ZipError>)
    ensures
        archive_source(*final(a)) == archive_source(*old(a)),
        r is Ok <==> zip_entry_opens(archive_source(*old(a)), i as int),
        r matches Ok(m) ==> m == zip_entry_mode(archive_source(*old(a)), i as int),
{
    match a.by_index(i) {
        Ok(f) => Ok(f.unix_mode()),
        Err(e) => Err(e),
    }
}

/// How reading an entry failed.
pub enum EntryFailure {
    Open(zip::result::ZipError),
    Read(std::io::Error),
}

/// Calls `ZipArchive::by_index` and reads the opened entry to its end
/// (`Read::read_to_end`): its uncompressed contents.
#[verifier::external_body]
fn entry_data_at(a: &mut zip::ZipArchive<std::io::Cursor<Vec<u8>>>, i: usize) -> (r: Result<Vec<u8>, EntryFailure>)
    ensures
        archive_source(*final(a)) == archive_source(*old(a)),
        match r {
            Ok(d) => zip_entry_opens(archive_source(*old(a)), i as int) && zip_entry_data(archive_source(*old(a)), i as int)
                == Some(d@),
            Err(EntryFailure::Open(_)) => !zip_entry_opens(archive_source(*old(a)), i as int),
            Err(EntryFailure::Read(_)) => zip_entry_opens(archive_source(*old(a)), i as int) && zip_entry_data(
                archive_source(*old(a)),
                i as int,
            ) is None,
        },
{
    let mut f = match a.by_index(i) {
        Ok(f) => f,
        Err(e) => return Err(EntryFailure::Open(e)),
    };
    let mut buf = Vec::new();
    match std::io::Read::read_to_end(&mut f, &mut buf) {
        Ok(_) => Ok(buf),
        Err(e) => Err(EntryFailure::Read(e)),
    }
}

/// Writes a zip error with the errors that caused it, as `anyhow` writes an
/// error chain in its alternate form (`{:#}`): "i/o error: <the cause>".
#[verifier::external_body]
fn zip_error_text(e: zip::result::ZipError) -> (r: String) {
    format!("{:#}", anyhow::Error::new(e))
}

/// Writes an I/O error with the errors that caused it, as `anyhow` writes an
/// error chain in its alternate form (`{:#}`).
#[verifier::external_body]
fn io_error_text(e: std::io::Error) -> (r: String) {
    format!("{:#}", anyhow::Error::new(e))
}

/// A zip entry name that ends in a path separator names a directory (the
/// rule `zip` applies for `ZipFile::is_dir`).
pub open spec fn is_dir_name(name: Seq<char>) -> bool {
    name.len() > 0 && (name.last() == '/' || name.last() == '\\')
}

fn names_dir(name: &str) -> (r: bool)
    ensures
        r == is_dir_name(name@),
{
    let cs = crate::text::chars_of(name);
    cs.len() > 0 && (cs[cs.len() - 1] == '/' || cs[cs.len() - 1] == '\\')
}

/// Why a package could not be read.
#[derive(Debug)]
pub enum ArchiveError {
    /// The download is not a zip archive; the text is the reason `zip` gave.
    NotZip { full_name: String, reason: String },
    /// An entry could not be opened; the text is the reason `zip` gave.
    Entry(String),
    /// An entry could not be read; the text is the reason given.
    Read(String),
}

impl ArchiveError {
    /// The message shown to the user.
    pub fn message(&self) -> (m: String)
        ensures
            match self {
                ArchiveError::NotZip { full_name, reason } => m@ == full_name@ + " is not a readable zip archive: "@
                    + reason@,
                ArchiveError::Entry(reason) => m@ == reason@,
                ArchiveError::Read(reason) => m@ == reason@,
            },
    {
        match self {
            ArchiveError::NotZip { full_name, reason } => {
                let mut m = full_name.clone();
                push_str(&mut m, " is not a readable zip archive: ");
                push_str(&mut m, reason.as_str());
                m
            },
            ArchiveError::Entry(reason) => reason.clone(),
            ArchiveError::Read(reason) => reason.clone(),
        }
    }
}

/// One archive entry and what to do with it.
pub struct Extracted {
    /// The entry's name in the archive.
    pub name: String,
    pub placement: Placement,
}

/// Which entries of the archive in these bytes open.
pub open spec fn entries_open(bytes: Seq<u8>) -> Seq<bool> {
    Seq::new(zip_entry_names(bytes).len(), |k: int| zip_entry_opens(bytes, k))
}

/// Where entry `k` of the archive in these bytes goes: the framework pack
/// is recognised only from entries that open.
pub open spec fn placement_of(bytes: Seq<u8>, k: int, full_name: Seq<char>, layout: Layout) -> PlacementView {
    let names = zip_entry_names(bytes);
    spec_place(
        names[k],
        is_dir_name(names[k]),
        full_name,
        spec_framework_prefix(names, entries_open(bytes), 0),
        layout.root@,
        layout.bepinex@,
    )
}

/// Entry `k` as it is listed: its name and where it goes.
pub open spec fn listed_as(e: Extracted, bytes: Seq<u8>, k: int, full_name: Seq<char>, layout: Layout) -> bool {
    &&& e.name@ == zip_entry_names(bytes)[k]
    &&& e.placement@ == placement_of(bytes, k, full_name, layout)
}

/// A downloaded package, opened: its entries with their destinations, and
/// the archive, from which each entry is opened in turn and, when it is to
/// be written, read.
pub struct Package {
    archive: zip::ZipArchive<std::io::Cursor<Vec<u8>>>,
    entries: Vec<Extracted>,
}

impl Package {
    /// The bytes the package was read from.
    pub closed spec fn source(&self) -> Seq<u8> {
        archive_source(self.archive)
    }

    /// Its entries, in archive order.
    pub closed spec fn items(&self) -> Seq<Extracted> {
        self.entries@
    }

    /// There is one item per archive entry.
    pub closed spec fn wf(&self) -> bool {
        self.entries@.len() == zip_entry_names(self.source()).len()
    }

    /// The entries, in archive order.
    pub fn entries(&self) -> (r: &[Extracted])
        ensures
            r@ == self.items(),
    {
        self.entries.as_slice()
    }

    /// Opens entry `k` and gives the permissions it records. An entry that
    /// does not open (its compression is unsupported, it is encrypted) is an
    /// `Entry` error.
    pub fn open_entry(&mut self, k: usize) -> (r: Result<Option<u32>, ArchiveError>)
        requires
            old(self).wf(),
            k < old(self).items().len(),
        ensures
            final(self).wf(),
            final(self).source() == old(self).source(),
            final(self).items() == old(self).items(),
            r is Ok <==> zip_entry_opens(old(self).source(), k as int),
            match r {
                Ok(m) => m == zip_entry_mode(old(self).source(), k as int),
                Err(e) => e is Entry,
            },
    {
        match entry_mode_at(&mut self.archive, k) {
            Ok(m) => Ok(m),
            Err(e) => Err(ArchiveError::Entry(zip_error_text(e))),
        }
    }

    /// Reads the uncompressed contents of entry `k`: an `Entry` error when
    /// it does not open, a `Read` error when its contents cannot be read.
    pub fn read(&mut self, k: usize) -> (r: Result<Vec<u8>, ArchiveError>)
        requires
            old(self).wf(),
            k < old(self).items().len(),
        ensures
            final(self).wf(),
            final(self).source() == old(self).source(),
            final(self).items() == old(self).items(),
            r is Ok <==> zip_entry_opens(old(self).source(), k as int) && zip_entry_data(old(self).source(), k as int) is Some,
            match r {
                Ok(d) => zip_entry_data(old(self).source(), k as int) == Some(d@),
                Err(e) => (e is Entry <==> !zip_entry_opens(old(self).source(), k as int)) && (e is Entry || e is Read),
            },
    {
        match entry_data_at(&mut self.archive, k) {
            Ok(d) => Ok(d),
            Err(EntryFailure::Open(e)) => Err(ArchiveError::Entry(zip_error_text(e))),
            Err(EntryFailure::Read(e)) => Err(ArchiveError::Read(io_error_text(e))),
        }
    }
}

/// Opens a downloaded package and decides, entry by entry in archive order,
/// where each goes in the layout. Each entry is opened, and read when it is
/// written, later, in turn, so that a bad entry stops the install only once
/// the entries before it are in place.
///
/// The BepInEx pack is a framework, not a plugin: when the first directory
/// of an entry that opens names it, its payload unpacks over the server root
/// rather than into `BepInEx/plugins`.
pub fn extract(bytes: Vec<u8>, full_name: &str, layout: &Layout) -> (r: Result<Package, ArchiveError>)
    ensures
        r is Ok <==> zip_opens(bytes@),
        r matches Ok(p) ==> {
            &&& p.wf()
            &&& p.source() == bytes@
            &&& p.items().len() == zip_entry_names(bytes@).len()
            &&& forall|k: int| 0 <= k < p.items().len() ==> listed_as(#[trigger] p.items()[k], bytes@, k, full_name@, *layout)
        },
        r matches Err(e) ==> (e matches ArchiveError::NotZip { full_name: f, .. } && f@ == full_name@),
{
    let ghost src = bytes@;
    let mut archive = match open_archive(bytes) {
        Ok(a) => a,
        Err(e) => {
            return Err(ArchiveError::NotZip { full_name: String::from_str(full_name), reason: zip_error_text(e) });
        },
    };
    let ghost listed = zip_entry_names(src);
    let n = entry_count(&archive);
    let ghost opened = entries_open(src);
    let mut names: Vec<String> = Vec::new();
    let mut opens: Vec<bool> = Vec::new();
    let mut i: usize = 0;
    while i < n
        invariant
            i <= n,
            archive_source(archive) == src,
            n == listed.len(),
            listed == zip_entry_names(src),
            opened == entries_open(src),
            views(names@) == listed.take(i as int),
            opens@ == opened.take(i as int),
        decreases n - i,
    {
        let name = match entry_name(&archive, i) {
            Some(s) => s,
            None => String::new(),
        };
        let ghost before = views(names@);
        names.push(name);
        assert(views(names@) =~= before.push(listed[i as int]));
        assert(listed.take(i + 1) =~= listed.take(i as int).push(listed[i as int]));
        let ok = match entry_mode_at(&mut archive, i) {
            Ok(_) => true,
            Err(_) => false,
        };
        opens.push(ok);
        assert(opened.take(i + 1) =~= opened.take(i as int).push(opened[i as int]));
        i += 1;
    }
    assert(listed.take(n as int) =~= listed);
    assert(opened.take(n as int) =~= opened);
    let framework = framework_prefix(names.as_slice(), opens.as_slice());
    let fw_ref: Option<&str> = match &framework {
        Some(p) => Some(p.as_str()),
        None => None,
    };
    let ghost fw = spec_framework_prefix(listed, opened, 0);
    let mut items: Vec<Extracted> = Vec::new();
    let mut k: usize = 0;
    while k < n
        invariant
            k <= n,
            n == names@.len(),
            n == listed.len(),
            listed == zip_entry_names(src),
            views(names@) == listed,
            crate::compose::opt_view(fw_ref) == fw,
            fw == spec_framework_prefix(listed, entries_open(src), 0),
            archive_source(archive) == src,
            items@.len() == k,
            forall|j: int| 0 <= j < k ==> listed_as(#[trigger] items@[j], src, j, full_name@, *layout),
        decreases n - k,
    {
        let name = names[k].clone();
        assert(views(names@)[k as int] == names@[k as int]@);
        let placement = place_entry(name.as_str(), names_dir(name.as_str()), full_name, fw_ref, layout);
        items.push(Extracted { name, placement });
        k += 1;
    }
    Ok(Package { archive, entries: items })
}

} // verus!
