//! Importing a BibTeX file: the checks on its name and on what was parsed,
//! and the step from the file's text to the library.
use vstd::prelude::*;

use crate::bib_parser::{entry_models, parse_bib};
use crate::models::{ImportResult, LibraryEntry};
use crate::state::{citations_of, import_fold, import_message, AppState};
use crate::text::{byte_len, decimal, eq_ignore_case};

verus! {

/// `path` is a plain file path whose last `.` is at `i`: the path holds no
/// `:` or `\\` and does not begin with `//` (so no platform reads a drive or
/// network prefix in it), the `.` follows an ASCII letter or digit, and at
/// least one character follows it, none of them `.` or `/`. Every platform
/// then reads the part after the `.` as the path's extension.
pub open spec fn plain_extension_at(path: Seq<char>, i: int) -> bool {
    &&& 1 <= i
    &&& i + 1 < path.len()
    &&& path[i] == '.'
    &&& crate::text::is_ascii_alnum(path[i - 1])
    &&& forall|j: int| i < j < path.len() ==> #[trigger] path[j] != '.' && path[j] != '/'
    &&& !path.contains(':')
    &&& !path.contains('\\')
    &&& !(path.len() >= 2 && path[0] == '/' && path[1] == '/')
}

/// `extension` is what a plain file path holds after its last `.`, whenever
/// `path` is one.
pub open spec fn reads_plain_extension(path: Seq<char>, extension: Option<String>) -> bool {
    forall|i: int| #[trigger] plain_extension_at(path, i) ==> (extension matches Some(e) && e@
        == path.subrange(i + 1, path.len() as int))
}

/// `Path::extension` from the standard library, applied to `path` read as a
/// `Path`, with the extension given back as text. Which characters separate
/// components, and which leading parts are prefixes, depend on the platform,
/// so the result is not named. Claimed, as the documentation says of every
/// platform: an extension is the part of the file name after its final `.`,
/// so it holds no `.` and stands in `path` right after a `.`; without a `.`
/// in `path` there is no extension; and for a plain file path (see
/// `plain_extension_at`) the extension is the part after its last `.`.
#[verifier::external_body]
fn path_extension(path: &str) -> (r: Option<String>)
    ensures
        r matches Some(e) ==> !e@.contains('.') && exists|i: int|
            0 <= i && i + 1 + e@.len() <= path@.len() && path@[i] == '.' && #[trigger] path@.subrange(
                i + 1,
                i + 1 + e@.len(),
            ) == e@,
        !path@.contains('.') ==> r is None,
        reads_plain_extension(path@, r),
{
    match std::path::Path::new(path).extension() {
        Some(e) => match e.to_str() {
            Some(t) => Some(t.to_string()),
            None => None,
        },
        None => None,
    }
}

/// The error for a file that is not a `.bib` file.
pub open spec fn unsupported_file_message() -> Seq<char> {
    "Only .bib files are supported for import"@
}

/// Whether an extension is `bib`, in any letter case.
pub open spec fn is_bib_extension(extension: Option<String>) -> bool {
    match extension {
        Some(e) => eq_ignore_case(e@, "bib"@),
        None => false,
    }
}

/// Accepts a file by the extension of its path: only `bib`, in any letter
/// case, is accepted.
pub fn accept_bib_extension(extension: &Option<String>) -> (r: Result<(), String>)
    ensures
        is_bib_extension(*extension) ==> r is Ok,
        !is_bib_extension(*extension) ==> (r matches Err(e) && e@ == unsupported_file_message()),
{
    let ok = match extension {
        Some(e) => {
            let ec = crate::text::chars_of(e.as_str());
            let bib = crate::text::lit("bib");
            crate::text::chars_eq_ignore_case(ec.as_slice(), bib.as_slice())
        },
        None => false,
    };
    if ok {
        return Ok(());
    }
    Err(crate::text::owned_text("Only .bib files are supported for import"))
}

/// Accepts only paths whose extension, as the platform's path rules find it,
/// is `bib` in any letter case. An accepted path has
/// `.bib`, in some letter case, in it; a path without a `.` is refused.
pub fn ensure_bib_extension(path: &str) -> (r: Result<(), String>)
    ensures
        r is Ok ==> exists|i: int|
            0 <= i && i + 4 <= path@.len() && path@[i] == '.' && eq_ignore_case(
                #[trigger] path@.subrange(i + 1, i + 4),
                "bib"@,
            ),
        r is Err ==> (r matches Err(e) && e@ == unsupported_file_message()),
        !path@.contains('.') ==> r is Err,
        forall|i: int| #[trigger] plain_extension_at(path@, i) && eq_ignore_case(
            path@.subrange(i + 1, path@.len() as int),
            "bib"@,
        ) ==> r is Ok,
{
    let extension = path_extension(path);
    let r = accept_bib_extension(&extension);
    proof {
        if r is Ok {
            let e = extension->Some_0;
            assert(crate::text::lower(e@).len() == crate::text::lower("bib"@).len());
            reveal_strlit("bib");
            assert(e@.len() == 3);
            let i = choose|i: int|
                0 <= i && i + 1 + e@.len() <= path@.len() && path@[i] == '.' && #[trigger] path@.subrange(
                    i + 1,
                    i + 1 + e@.len(),
                ) == e@;
            assert(path@.subrange(i + 1, i + 4) == e@);
        }
    }
    r
}

/// The error for an import that found no entries.
pub open spec fn no_entries_message(path: Seq<char>) -> Seq<char> {
    "No valid BibTeX entries found in file '"@ + path + "'"@
}

/// Accepts a positive entry count.
pub fn ensure_non_empty_entries(entry_count: usize, path: &str) -> (r: Result<(), String>)
    ensures
        entry_count > 0 ==> r is Ok,
        entry_count == 0 ==> (r matches Err(e) && e@ == no_entries_message(path@)),
{
    if entry_count > 0 {
        return Ok(());
    }
    let mut out = crate::text::lit("No valid BibTeX entries found in file '");
    let pc = crate::text::chars_of(path);
    crate::text::extend_chars(&mut out, pc.as_slice());
    out.push('\'');
    proof {
        reveal_strlit("'");
        assert(out@ =~= no_entries_message(path@));
    }
    Err(crate::text::string_of(out.as_slice()))
}


/// The error for a BibTeX text that does not parse.
pub open spec fn parse_failed_message(path: Seq<char>, msg: Seq<char>, pos: nat) -> Seq<char> {
    "Failed to parse bib file '"@ + path + "': "@ + msg + " at byte "@ + decimal(pos)
}

/// Imports the BibTeX text `content` read from `path` (what `import_bib_file`
/// does once the file is read; saving is left to the caller): the text must
/// parse and hold at least one entry, and then its entries are imported.
/// On an error nothing changes.
pub fn import_bib_content(state: &mut AppState, path: &str, content: &str) -> (r: Result<ImportResult, String>)
    requires
        old(state).wf(),
        byte_len(content@) <= usize::MAX,
    ensures
        final(state).wf(),
        citations_of(final(state).data()) == citations_of(old(state).data()),
        final(state).data().version == old(state).data().version,
        final(state).location() == old(state).location(),
        match parse_bib(content@) {
            Err((msg, pos)) => r matches Err(e) && e@ == parse_failed_message(path@, msg, pos)
                && final(state).data().entries == old(state).data().entries,
            Ok(es) => if es.len() == 0 {
                r matches Err(e) && e@ == no_entries_message(path@) && final(state).data().entries
                    == old(state).data().entries
            } else {
                r matches Ok(res) && exists|v: Seq<LibraryEntry>| #[trigger] entry_models(v) == es && {
                    let (m, n, o) = import_fold(old(state).data().entries@, v);
                    &&& final(state).data().entries@ == m
                    &&& res.new_count == n
                    &&& res.overwritten_count == o
                    &&& res.total == es.len()
                    &&& res.imported == n + o
                    &&& res.failed == 0
                    &&& res.message@ == import_message(n + o, n, o)
                }
            },
        },
{
    let parsed = match crate::bib_parser::parse_bib_entries(content) {
        Ok(v) => v,
        Err(error) => {
            let mut out = crate::text::lit("Failed to parse bib file '");
            let pc = crate::text::chars_of(path);
            crate::text::extend_chars(&mut out, pc.as_slice());
            let sep = crate::text::lit("': ");
            crate::text::extend_chars(&mut out, sep.as_slice());
            let et = error.to_text();
            let ec = crate::text::chars_of(et.as_str());
            crate::text::extend_chars(&mut out, ec.as_slice());
            proof {
                assert(out@ =~= parse_failed_message(path@, error.msg(), error.pos()->Some_0 as nat));
            }
            return Err(crate::text::string_of(out.as_slice()));
        },
    };
    match ensure_non_empty_entries(parsed.len(), path) {
        Err(e) => {
            return Err(e);
        },
        Ok(()) => {},
    }
    let ghost v = parsed@;
    let res = state.import_entries(parsed);
    assert(entry_models(v) == parse_bib(content@)->Ok_0);
    Ok(res)
}

} // verus!
