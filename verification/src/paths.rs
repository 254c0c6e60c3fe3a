//! Filesystem path operations, delegated to `std::path` on paths held as text.
use vstd::prelude::*;

verus! {

/// `Path::join`: the path with `rel` adjoined.
pub uninterp spec fn joined(base: Seq<char>, rel: Seq<char>) -> Seq<char>;

/// `Path::file_name`: the final component, when it is a normal one.
pub uninterp spec fn file_name_of(p: Seq<char>) -> Option<Seq<char>>;

/// `Path::parent`: the path without its final component, if it has one.
pub uninterp spec fn parent_of(p: Seq<char>) -> Option<Seq<char>>;

/// `Path::extension`: the text after the last dot of the file name.
pub uninterp spec fn extension_of(p: Seq<char>) -> Option<Seq<char>>;

/// `std::path::is_separator`: whether the character separates path
/// components on this platform. '/' does everywhere; '\\' does on Windows
/// only; no other character does.
pub uninterp spec fn separator_char(c: char) -> bool;

/// The text holds no character that separates path components here: no '/',
/// and no '\\' where that is a separator.
pub open spec fn free_of_separators(s: Seq<char>) -> bool {
    forall|i: int| 0 <= i < s.len() ==> #[trigger] s[i] != '/' && (s[i] == '\\' ==> !separator_char(s[i]))
}

/// `Path::components`.
pub uninterp spec fn components_of(p: Seq<char>) -> Seq<PartView>;

/// `Path::with_extension`: the path with its extension replaced (or added).
pub uninterp spec fn with_extension_of(p: Seq<char>, ext: Seq<char>) -> Seq<char>;

/// `Path`'s order (`<`): component by component.
pub uninterp spec fn path_order_lt(a: Seq<char>, b: Seq<char>) -> bool;

/// `Path`'s equality (`==`): component by component.
pub uninterp spec fn path_same(a: Seq<char>, b: Seq<char>) -> bool;

/// `Path::starts_with`: `base` is a whole-component prefix of `p`.
pub uninterp spec fn path_has_prefix(p: Seq<char>, base: Seq<char>) -> bool;

/// One component of a path.
pub enum Part {
    /// A drive or share prefix (Windows only).
    Prefix,
    /// The root directory.
    Root,
    /// `.`
    CurDir,
    /// `..`
    ParentDir,
    /// An ordinary name.
    Normal(String),
}

pub enum PartView {
    Prefix,
    Root,
    CurDir,
    ParentDir,
    Normal(Seq<char>),
}

impl View for Part {
    type V = PartView;

    open spec fn view(&self) -> PartView {
        match self {
            Part::Prefix => PartView::Prefix,
            Part::Root => PartView::Root,
            Part::CurDir => PartView::CurDir,
            Part::ParentDir => PartView::ParentDir,
            Part::Normal(s) => PartView::Normal(s@),
        }
    }
}

/// Calls `Path::join`; the result is `joined` of the two paths.
#[verifier::external_body]
pub(crate) fn join(base: &str, rel: &str) -> (r: String)
    ensures
        r@ == joined(base@, rel@),
{
    std::path::Path::new(base).join(rel).to_string_lossy().into_owned()
}

/// Calls `Path::file_name`; the result is `file_name_of` the path.
#[verifier::external_body]
pub(crate) fn file_name(p: &str) -> (r: Option<String>)
    ensures
        match r {
            Some(n) => file_name_of(p@) == Some(n@),
            None => file_name_of(p@) is None,
        },
{
    match std::path::Path::new(p).file_name() {
        Some(n) => Some(n.to_string_lossy().into_owned()),
        None => None,
    }
}

/// Calls `Path::parent`; the result is `parent_of` the path.
#[verifier::external_body]
pub(crate) fn parent(p: &str) -> (r: Option<String>)
    ensures
        match r {
            Some(n) => parent_of(p@) == Some(n@),
            None => parent_of(p@) is None,
        },
{
    match std::path::Path::new(p).parent() {
        Some(n) => Some(n.to_string_lossy().into_owned()),
        None => None,
    }
}

/// Calls `Path::extension`; the result is `extension_of` the path. The
/// extension is part of a file name, so it holds no path separator.
#[verifier::external_body]
pub(crate) fn extension(p: &str) -> (r: Option<String>)
    ensures
        match r {
            Some(n) => extension_of(p@) == Some(n@) && forall|i: int|
                0 <= i < n@.len() ==> #[trigger] n@[i] != '/' && (n@[i] == '\\' ==> !separator_char(n@[i])),
            None => extension_of(p@) is None,
        },
{
    match std::path::Path::new(p).extension() {
        Some(n) => Some(n.to_string_lossy().into_owned()),
        None => None,
    }
}

/// Calls `Path::components`; the result is `components_of` the path.
#[verifier::external_body]
pub(crate) fn components(p: &str) -> (r: Vec<Part>)
    ensures
        r@.map_values(|c: Part| c@) == components_of(p@),
{
    std::path::Path::new(p).components().map(|c| match c {
        std::path::Component::Prefix(_) => Part::Prefix,
        std::path::Component::RootDir => Part::Root,
        std::path::Component::CurDir => Part::CurDir,
        std::path::Component::ParentDir => Part::ParentDir,
        std::path::Component::Normal(s) => Part::Normal(s.to_string_lossy().into_owned()),
    }).collect()
}

/// Calls `Path::with_extension`; the result is `with_extension_of` the path
/// and extension. It panics on an extension that holds a path separator, so
/// such an extension is not admitted.
#[verifier::external_body]
pub(crate) fn with_extension(p: &str, ext: &str) -> (r: String)
    requires
        free_of_separators(ext@),
    ensures
        r@ == with_extension_of(p@, ext@),
{
    std::path::Path::new(p).with_extension(ext).to_string_lossy().into_owned()
}

/// Compares two paths with `<` on `Path`; the result is `path_order_lt` of
/// them. `Path`'s order is a total order (`Ord`), so when `a` comes before
/// `b`, `b` does not come before `a`.
#[verifier::external_body]
pub(crate) fn path_lt(a: &str, b: &str) -> (r: bool)
    ensures
        r == path_order_lt(a@, b@),
        r ==> !path_order_lt(b@, a@),
{
    std::path::Path::new(a) < std::path::Path::new(b)
}

/// Compares two paths with `==` on `Path`; the result is `path_same` of them.
#[verifier::external_body]
pub(crate) fn path_eq(a: &str, b: &str) -> (r: bool)
    ensures
        r == path_same(a@, b@),
{
    std::path::Path::new(a) == std::path::Path::new(b)
}

/// Calls `Path::starts_with`; the result is `path_has_prefix` of the two paths.
#[verifier::external_body]
pub(crate) fn has_prefix(p: &str, base: &str) -> (r: bool)
    ensures
        r == path_has_prefix(p@, base@),
{
    std::path::Path::new(p).starts_with(base)
}

} // verus!
