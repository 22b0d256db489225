//! The few operations of `std::path` that the library needs, on paths held as text.
//!
//! Each of them is std's own code; their results are named here and Verus does not look
//! inside them. The names stand for the path rules of the platform the library is built
//! for (separators and prefixes differ between Unix and Windows), which a build fixes.
use vstd::prelude::*;

use crate::text;

verus! {

/// `Path::parent`.
pub uninterp spec fn path_parent(p: Seq<char>) -> Option<Seq<char>>;

/// `Path::file_stem`.
pub uninterp spec fn path_file_stem(p: Seq<char>) -> Option<Seq<char>>;

/// `Path::extension`.
pub uninterp spec fn path_extension(p: Seq<char>) -> Option<Seq<char>>;

/// `Path::file_name`.
pub uninterp spec fn path_file_name(p: Seq<char>) -> Option<Seq<char>>;

/// `Path::join`.
pub uninterp spec fn path_join(base: Seq<char>, rel: Seq<char>) -> Seq<char>;

/// `Path::is_absolute`.
pub uninterp spec fn path_is_absolute(p: Seq<char>) -> bool;

/// `Path::starts_with` (whole components).
pub uninterp spec fn path_starts_with(p: Seq<char>, base: Seq<char>) -> bool;

/// `Path == Path` (component-wise).
pub uninterp spec fn path_eq(a: Seq<char>, b: Seq<char>) -> bool;

/// Calls `Path::parent`; claims only that the result is `path_parent` of the argument.
/// A parent of a path given as UTF-8 text is UTF-8 text, so the conversion loses nothing.
#[verifier::external_body]
pub(crate) fn parent_of(p: &str) -> (r: Option<String>)
    ensures
        text::opt_view(r) == path_parent(p@),
{
    std::path::Path::new(p).parent().map(|x| x.to_string_lossy().into_owned())
}

/// Calls `Path::file_stem`; claims only that the result is `path_file_stem` of the argument.
#[verifier::external_body]
pub(crate) fn file_stem_of(p: &str) -> (r: Option<String>)
    ensures
        text::opt_view(r) == path_file_stem(p@),
{
    std::path::Path::new(p).file_stem().map(|x| x.to_string_lossy().into_owned())
}

/// Calls `Path::extension`; claims only that the result is `path_extension` of the argument.
#[verifier::external_body]
pub(crate) fn extension_of(p: &str) -> (r: Option<String>)
    ensures
        text::opt_view(r) == path_extension(p@),
{
    std::path::Path::new(p).extension().map(|x| x.to_string_lossy().into_owned())
}

/// Calls `Path::file_name`; claims only that the result is `path_file_name` of the argument.
#[verifier::external_body]
pub(crate) fn file_name_of(p: &str) -> (r: Option<String>)
    ensures
        text::opt_view(r) == path_file_name(p@),
{
    std::path::Path::new(p).file_name().map(|x| x.to_string_lossy().into_owned())
}

/// Calls `Path::join`; claims only that the result is `path_join` of the arguments.
#[verifier::external_body]
pub(crate) fn join_path(base: &str, rel: &str) -> (r: String)
    ensures
        r@ == path_join(base@, rel@),
{
    std::path::Path::new(base).join(rel).to_string_lossy().into_owned()
}

/// Calls `Path::is_absolute`; claims only that the result is `path_is_absolute`.
#[verifier::external_body]
pub(crate) fn is_absolute_path(p: &str) -> (r: bool)
    ensures
        r == path_is_absolute(p@),
{
    std::path::Path::new(p).is_absolute()
}

/// Calls `Path::starts_with`; claims only that the result is `path_starts_with`.
#[verifier::external_body]
pub(crate) fn path_has_prefix(p: &str, base: &str) -> (r: bool)
    ensures
        r == path_starts_with(p@, base@),
{
    std::path::Path::new(p).starts_with(base)
}

/// Calls `==` on two `Path`s; claims only that the result is `path_eq`.
#[verifier::external_body]
pub(crate) fn same_path(a: &str, b: &str) -> (r: bool)
    ensures
        r == path_eq(a@, b@),
{
    std::path::Path::new(a) == std::path::Path::new(b)
}

} // verus!
