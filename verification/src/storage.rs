//! Where the state file lives, and the checks made on what was read from it.
//! Reading and writing the file is done outside the library.
use vstd::prelude::*;

use std::path::{Path, PathBuf};

use crate::models::STATE_VERSION;
use crate::text::trim;

verus! {

/// `std::path::PathBuf`, carried through as an opaque value.
#[verifier::external_type_specification]
#[verifier::external_body]
pub struct ExPathBuf(PathBuf);

/// `std::path::Path`, carried through as an opaque value.
#[verifier::external_type_specification]
#[verifier::external_body]
pub struct ExPath(Path);

/// The path that `PathBuf::as_path` gives for `p`: the path `p` holds.
pub uninterp spec fn path_of(p: &PathBuf) -> &Path;

/// The text that `Path::display` writes for the path `p` holds.
pub uninterp spec fn path_display(p: PathBuf) -> Seq<char>;

/// `PathBuf::as_path` from the standard library. Claimed: the result is
/// determined by `p` alone (the path `p` holds); the path's bytes are not
/// modelled, so nothing more is said of it.
#[verifier::external_body]
fn path_buf_as_path(p: &PathBuf) -> (r: &Path)
    ensures
        r == path_of(p),
{
    p.as_path()
}

/// `Path::display` followed by `to_string`. Claimed: the text is determined by
/// the path alone; how it is spelled (lossy UTF-8 of the path's bytes) is not
/// modelled.
#[verifier::external_body]
pub(crate) fn path_display_text(p: &PathBuf) -> (r: String)
    ensures
        r@ == path_display(*p),
{
    p.display().to_string()
}

/// `PathBuf::clone` from the standard library: a path equal to `p`.
#[verifier::external_body]
fn path_buf_clone(p: &PathBuf) -> (r: PathBuf)
    ensures
        r == *p,
{
    p.clone()
}

/// The location of the persisted state file.
#[derive(Debug)]
pub struct Storage {
    path: PathBuf,
}

impl Storage {
    /// A storage at `path`.
    pub fn new(path: PathBuf) -> (s: Self)
        ensures
            s.spec_path() == path,
    {
        Storage { path }
    }

    /// The path of the state file.
    pub fn path(&self) -> (r: &Path)
        ensures
            r == path_of(&self.spec_path()),
    {
        path_buf_as_path(&self.path)
    }

    /// The path as text.
    pub(crate) fn display_text(&self) -> (r: String)
        ensures
            r@ == path_display(self.spec_path()),
    {
        path_display_text(&self.path)
    }

    /// The path value held.
    pub closed spec fn spec_path(&self) -> PathBuf {
        self.path
    }
}

impl Clone for Storage {
    fn clone(&self) -> (s: Self)
        ensures
            s.spec_path() == self.spec_path(),
    {
        Storage { path: path_buf_clone(&self.path) }
    }
}

/// The text read from the state file holds nothing but whitespace, so the
/// default state is used (part of `load_or_default`).
pub fn state_text_is_blank(content: &str) -> (r: bool)
    ensures
        r == (trim(content@).len() == 0),
{
    let c = crate::text::chars_of(content);
    let t = crate::text::trim_chars(c.as_slice());
    t.len() == 0
}

/// A loaded state is accepted only with the current version; otherwise the
/// unsupported version is the error (part of `load_or_default`).
pub fn check_state_version(version: u32) -> (r: Result<(), u32>)
    ensures
        version == STATE_VERSION ==> r is Ok,
        version != STATE_VERSION ==> r == Err::<(), u32>(version),
{
    if version != STATE_VERSION {
        return Err(version);
    }
    Ok(())
}

} // verus!
