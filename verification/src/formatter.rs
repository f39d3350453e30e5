//! Reference formatting: one entry rendered as a line of the reference list.
use vstd::prelude::*;

use crate::models::{strs, LibraryEntry};
use crate::text::{
    chars_eq, chars_of, collapse_whitespace, collapse_ws, extend_chars, find_exec, find_from,
    is_whitespace, is_ws, join, join_chars, lemma_join_push, slice_vec, split_chars, split_on,
    split_words, string_of, strip_brace_chars, strip_braces, trim, trim_chars, upper, upper_char,
    upper_chars, to_upper_char, views, words,
};

verus! {

// ---------------------------------------------------------------------------
// Model of the default style
// ---------------------------------------------------------------------------

/// Unicode `Alphabetic` or `Numeric`, as `char::is_alphanumeric` decides it.
pub uninterp spec fn unicode_alphanumeric(c: char) -> bool;

/// `char::is_alphanumeric` from the standard library.
/// Claimed: the result is the Unicode property named above, and for ASCII
/// characters it is exactly "letter or digit", as the documentation says.
#[verifier::external_body]
fn char_is_alphanumeric(c: char) -> (r: bool)
    ensures
        r == unicode_alphanumeric(c),
        (c as u32) < 0x80 ==> (r == crate::text::is_ascii_alnum(c)),
{
    c.is_alphanumeric()
}

/// Whether `c` lies in one of the CJK ideograph blocks.
pub open spec fn is_cjk(c: char) -> bool {
    let u = c as u32;
    ||| 0x4E00 <= u <= 0x9FFF
    ||| 0x3400 <= u <= 0x4DBF
    ||| 0xF900 <= u <= 0xFAFF
}

/// Whether any character of `s` is a CJK ideograph.
pub open spec fn looks_cjk(s: Seq<char>) -> bool {
    exists|i: int| 0 <= i < s.len() && is_cjk(#[trigger] s[i])
}

/// Braces removed, whitespace collapsed.
pub open spec fn clean(s: Seq<char>) -> Seq<char> {
    collapse_ws(strip_braces(s))
}

/// The trimmed value of the first listed field that is present and not blank.
pub open spec fn first_non_empty(entry: LibraryEntry, names: Seq<Seq<char>>) -> Option<Seq<char>>
    decreases names.len(),
{
    if names.len() == 0 {
        None
    } else {
        match entry.field(names[0]) {
            Some(v) => if trim(v).len() > 0 {
                Some(trim(v))
            } else {
                first_non_empty(entry, names.drop_first())
            },
            None => first_non_empty(entry, names.drop_first()),
        }
    }
}

/// The cleaned value of the first non-blank listed field, or the empty text.
pub open spec fn cleaned_or_empty(entry: LibraryEntry, names: Seq<Seq<char>>) -> Seq<char> {
    match first_non_empty(entry, names) {
        Some(v) => clean(v),
        None => Seq::empty(),
    }
}

/// Separators between the parts of a given name.
pub open spec fn is_name_sep(c: char) -> bool {
    is_ws(c) || c == '-' || c == '.'
}

/// Index of the first separator at or after `i`.
pub open spec fn token_end_from(s: Seq<char>, i: int) -> int
    decreases s.len() - i,
{
    if 0 <= i < s.len() && !is_name_sep(s[i]) {
        token_end_from(s, i + 1)
    } else {
        i
    }
}

/// `token_end_from` moves forward and stays within the sequence.
pub proof fn lemma_token_end_bounds(s: Seq<char>, i: int)
    requires
        0 <= i <= s.len(),
    ensures
        i <= token_end_from(s, i) <= s.len(),
        i < s.len() && !is_name_sep(s[i]) ==> i < token_end_from(s, i),
    decreases s.len() - i,
{
    if i < s.len() && !is_name_sep(s[i]) {
        lemma_token_end_bounds(s, i + 1);
    }
}

/// Whether each character of `s` is alphanumeric.
pub open spec fn alnum_flags(s: Seq<char>) -> Seq<bool> {
    Seq::new(s.len(), |i: int| unicode_alphanumeric(s[i]))
}

/// The first character of `s[lo..hi]` whose flag in `f` is set.
pub open spec fn first_flagged(s: Seq<char>, f: Seq<bool>, lo: int, hi: int) -> Option<char>
    decreases hi - lo,
{
    if lo >= hi {
        None
    } else if f[lo] {
        Some(s[lo])
    } else {
        first_flagged(s, f, lo + 1, hi)
    }
}

/// One upper-cased initial for each part of `s[i..]` between separators that
/// has a flagged character: its first flagged character.
pub open spec fn initial_list_from(s: Seq<char>, f: Seq<bool>, i: int) -> Seq<Seq<char>>
    decreases s.len() - i,
{
    if i < 0 || i >= s.len() {
        Seq::empty()
    } else if is_name_sep(s[i]) {
        initial_list_from(s, f, i + 1)
    } else {
        let b = token_end_from(s, i);
        proof {
            lemma_token_end_bounds(s, i);
        }
        let rest = initial_list_from(s, f, b);
        match first_flagged(s, f, i, b) {
            Some(c) => seq![seq![upper_char(c)]] + rest,
            None => rest,
        }
    }
}

/// The initials of a given-name segment, separated by spaces, where `f` tells
/// which characters are alphanumeric.
pub open spec fn initials_by(segment: Seq<char>, f: Seq<bool>) -> Seq<char> {
    join(initial_list_from(segment, f, 0), seq![' '])
}

/// The initials of a given-name segment, separated by spaces.
pub open spec fn initials(segment: Seq<char>) -> Seq<char> {
    initials_by(segment, alnum_flags(segment))
}

/// A family name followed by initials, if there are any.
pub open spec fn family_with_initials(family: Seq<char>, inits: Seq<char>) -> Seq<char> {
    if inits.len() == 0 {
        family
    } else {
        family + seq![' '] + inits
    }
}

/// One author written as family name and initials.
pub open spec fn single_author(a: Seq<char>) -> Seq<char> {
    if looks_cjk(a) {
        a
    } else {
        match find_from(a, seq![','], 0) {
            Some(i) => family_with_initials(
                clean(a.subrange(0, i)),
                initials(a.subrange(i + 1, a.len() as int)),
            ),
            None => {
                let ps = words(a);
                if ps.len() == 0 {
                    Seq::empty()
                } else if ps.len() == 1 {
                    clean(ps[0])
                } else {
                    family_with_initials(
                        clean(ps.last()),
                        initials(join(ps.drop_last(), seq![' '])),
                    )
                }
            },
        }
    }
}

/// The formatted authors of the non-blank pieces.
pub open spec fn author_list(pieces: Seq<Seq<char>>) -> Seq<Seq<char>>
    decreases pieces.len(),
{
    if pieces.len() == 0 {
        Seq::empty()
    } else {
        let rest = author_list(pieces.drop_last());
        let t = trim(pieces.last());
        if t.len() == 0 {
            rest
        } else {
            rest.push(single_author(t))
        }
    }
}

/// The author part of a reference: authors (or editors) separated by ", ".
pub open spec fn authors_text(entry: LibraryEntry) -> Seq<char> {
    match first_non_empty(entry, seq!["author"@, "editor"@]) {
        None => Seq::empty(),
        Some(raw) => {
            let n = clean(raw);
            if n.len() == 0 {
                Seq::empty()
            } else {
                join(author_list(split_on(n, " and "@)), ", "@)
            }
        },
    }
}

/// The document type marker of the default style.
pub open spec fn marker(entry: LibraryEntry) -> Seq<char> {
    let t = upper(entry.entry_type@);
    if t == "ARTICLE"@ {
        "J"@
    } else if t == "INPROCEEDINGS"@ || t == "CONFERENCE"@ || t == "PROCEEDINGS"@ {
        "C"@
    } else if t == "BOOK"@ {
        "M"@
    } else if t == "STANDARD"@ {
        "S"@
    } else if t == "PATENT"@ {
        "P"@
    } else if t == "THESIS"@ || t == "PHDTHESIS"@ || t == "MASTERSTHESIS"@ {
        "D"@
    } else if t == "REPORT"@ || t == "TECHREPORT"@ {
        "R"@
    } else if first_non_empty(entry, seq!["url"@]) is Some {
        "EB/OL"@
    } else {
        "Z"@
    }
}

/// The title, or the key when there is no usable title.
pub open spec fn title_text(entry: LibraryEntry) -> Seq<char> {
    match first_non_empty(entry, seq!["title"@, "booktitle"@]) {
        Some(v) => if clean(v).len() > 0 {
            clean(v)
        } else {
            entry.key@
        },
        None => entry.key@,
    }
}

/// `seg` followed by `part`, with `sep` between them when `seg` is not empty.
pub open spec fn append_part(seg: Seq<char>, sep: Seq<char>, part: Seq<char>) -> Seq<char> {
    if part.len() == 0 {
        seg
    } else if seg.len() == 0 {
        part
    } else {
        seg + sep + part
    }
}

/// Volume and issue: `V(N)`, `V`, `(N)` or nothing.
pub open spec fn volume_issue(volume: Seq<char>, number: Seq<char>) -> Seq<char> {
    if volume.len() > 0 && number.len() > 0 {
        volume + "("@ + number + ")"@
    } else if volume.len() > 0 {
        volume
    } else if number.len() > 0 {
        "("@ + number + ")"@
    } else {
        Seq::empty()
    }
}

/// Venue, year, volume and issue, pages.
pub open spec fn publication_text(entry: LibraryEntry) -> Seq<char> {
    let venue = cleaned_or_empty(
        entry,
        seq!["journal"@, "booktitle"@, "publisher"@, "institution"@, "school"@],
    );
    let year = cleaned_or_empty(entry, seq!["year"@]);
    let volume = cleaned_or_empty(entry, seq!["volume"@]);
    let number = cleaned_or_empty(entry, seq!["number"@, "issue"@]);
    let pages = cleaned_or_empty(entry, seq!["pages"@]);
    let s1 = append_part(venue, ", "@, year);
    let s2 = append_part(s1, ", "@, volume_issue(volume, number));
    append_part(s2, ": "@, pages)
}

/// `s` ending with a full stop.
pub open spec fn with_dot(s: Seq<char>) -> Seq<char> {
    if s.len() > 0 && s.last() == '.' {
        s
    } else {
        s.push('.')
    }
}

/// `out` extended by `prefix` and `part`, then ended with a full stop, when `part` is not empty.
pub open spec fn add_dotted(out: Seq<char>, prefix: Seq<char>, part: Seq<char>) -> Seq<char> {
    if part.len() > 0 {
        with_dot(out + prefix + part)
    } else {
        out
    }
}

/// `Author. Title[M]. Venue, Year, Volume(Number): Pages. DOI: doi. url.`
pub open spec fn default_entry_text(entry: LibraryEntry) -> Seq<char> {
    let authors = authors_text(entry);
    let head = if authors.len() > 0 {
        authors + ". "@
    } else {
        Seq::empty()
    };
    let o0 = head + title_text(entry) + "["@ + marker(entry) + "]."@;
    let o1 = add_dotted(o0, " "@, publication_text(entry));
    let o2 = add_dotted(o1, " DOI: "@, cleaned_or_empty(entry, seq!["doi"@]));
    add_dotted(o2, " "@, cleaned_or_empty(entry, seq!["url"@]))
}

/// The reference text of `entry` in `format`.
pub open spec fn entry_text(entry: LibraryEntry, format: OutputFormat) -> Seq<char> {
    match format {
        OutputFormat::DefaultV1 => default_entry_text(entry),
    }
}

// ---------------------------------------------------------------------------
// Executable pieces of the default style
// ---------------------------------------------------------------------------

/// A list of one field name.
fn names1(a: &str) -> (r: Vec<String>)
    ensures
        strs(r@) == seq![a@],
{
    let mut v: Vec<String> = Vec::new();
    v.push(a.to_owned());
    assert(strs(v@) =~= seq![a@]);
    v
}

/// A list of two field names.
fn names2(a: &str, b: &str) -> (r: Vec<String>)
    ensures
        strs(r@) == seq![a@, b@],
{
    let mut v: Vec<String> = Vec::new();
    v.push(a.to_owned());
    v.push(b.to_owned());
    assert(strs(v@) =~= seq![a@, b@]);
    v
}

/// A list of five field names.
fn names5(a: &str, b: &str, c: &str, d: &str, e: &str) -> (r: Vec<String>)
    ensures
        strs(r@) == seq![a@, b@, c@, d@, e@],
{
    let mut v: Vec<String> = Vec::new();
    v.push(a.to_owned());
    v.push(b.to_owned());
    v.push(c.to_owned());
    v.push(d.to_owned());
    v.push(e.to_owned());
    assert(strs(v@) =~= seq![a@, b@, c@, d@, e@]);
    v
}

/// Braces removed, whitespace collapsed.
pub fn clean_text(s: &[char]) -> (r: Vec<char>)
    ensures
        r@ == clean(s@),
{
    let stripped = strip_brace_chars(s);
    collapse_whitespace(stripped.as_slice())
}

/// The trimmed value of the first listed field that is present and not blank.
fn first_non_empty_exec(entry: &LibraryEntry, names: &Vec<String>) -> (r: Option<Vec<char>>)
    requires
        entry.wf(),
    ensures
        match r {
            Some(v) => first_non_empty(*entry, strs(names@)) == Some(v@),
            None => first_non_empty(*entry, strs(names@)) is None,
        },
{
    let ghost all = strs(names@);
    let mut i: usize = 0;
    assert(all.skip(0) =~= all);
    while i < names.len()
        invariant
            i <= names.len(),
            entry.wf(),
            all == strs(names@),
            first_non_empty(*entry, all.skip(i as int)) == first_non_empty(*entry, all),
        decreases names.len() - i,
    {
        assert(all.skip(i as int)[0] == names@[i as int]@);
        assert(all.skip(i as int).drop_first() =~= all.skip(i + 1));
        match entry.fields.get(&names[i]) {
            Some(v) => {
                let vc = chars_of(v.as_str());
                let t = trim_chars(vc.as_slice());
                if t.len() > 0 {
                    return Some(t);
                }
            },
            None => {},
        }
        i += 1;
    }
    None
}

/// The cleaned value of the first non-blank listed field, or the empty text.
fn cleaned_or_empty_exec(entry: &LibraryEntry, names: &Vec<String>) -> (r: Vec<char>)
    requires
        entry.wf(),
    ensures
        r@ == cleaned_or_empty(*entry, strs(names@)),
{
    match first_non_empty_exec(entry, names) {
        Some(v) => clean_text(v.as_slice()),
        None => Vec::new(),
    }
}

/// Whether any character of `s` is a CJK ideograph.
fn looks_cjk_exec(s: &[char]) -> (r: bool)
    ensures
        r == looks_cjk(s@),
{
    let mut i: usize = 0;
    while i < s.len()
        invariant
            i <= s.len(),
            forall|j: int| 0 <= j < i ==> !is_cjk(#[trigger] s@[j]),
        decreases s.len() - i,
    {
        let u = s[i] as u32;
        if (0x4E00 <= u && u <= 0x9FFF) || (0x3400 <= u && u <= 0x4DBF) || (0xF900 <= u && u
            <= 0xFAFF) {
            assert(is_cjk(s@[i as int]));
            return true;
        }
        i += 1;
    }
    false
}

/// Whether `c` separates the parts of a given name.
fn is_name_sep_exec(c: char) -> (r: bool)
    ensures
        r == is_name_sep(c),
{
    is_whitespace(c) || c == '-' || c == '.'
}

/// Whether each character of `s` is alphanumeric, as `char::is_alphanumeric`
/// decides it.
pub fn alphanumeric_flags(s: &[char]) -> (r: Vec<bool>)
    ensures
        r@ == alnum_flags(s@),
{
    let mut out: Vec<bool> = Vec::new();
    let mut i: usize = 0;
    while i < s.len()
        invariant
            i <= s.len(),
            out@ =~= alnum_flags(s@).take(i as int),
        decreases s.len() - i,
    {
        out.push(char_is_alphanumeric(s[i]));
        i += 1;
    }
    out
}

/// The first character of `s[lo..hi]` whose flag is set.
fn first_flagged_exec(s: &[char], f: &[bool], lo: usize, hi: usize) -> (r: Option<char>)
    requires
        lo <= hi <= s.len(),
        f.len() == s.len(),
    ensures
        r == first_flagged(s@, f@, lo as int, hi as int),
{
    let mut i: usize = lo;
    while i < hi
        invariant
            lo <= i <= hi <= s.len(),
            f.len() == s.len(),
            first_flagged(s@, f@, i as int, hi as int) == first_flagged(s@, f@, lo as int, hi as int),
        decreases hi - i,
    {
        if f[i] {
            return Some(s[i]);
        }
        i += 1;
    }
    None
}

/// The initials of a given-name segment, where `alnum` tells which of its
/// characters are alphanumeric: for each part between separators (whitespace,
/// `-` and `.`) that has an alphanumeric character, that character upper-cased,
/// the initials separated by spaces.
pub fn initials_with(seg: &[char], alnum: &[bool]) -> (r: Vec<char>)
    requires
        alnum.len() == seg.len(),
    ensures
        r@ == initials_by(seg@, alnum@),
{
    let mut out: Vec<char> = Vec::new();
    let mut first = true;
    let mut i: usize = 0;
    let ghost f = alnum@;
    let ghost mut done: Seq<Seq<char>> = Seq::empty();
    while i < seg.len()
        invariant
            i <= seg.len(),
            alnum.len() == seg.len(),
            f == alnum@,
            initial_list_from(seg@, f, 0) == done + initial_list_from(seg@, f, i as int),
            out@ == join(done, seq![' ']),
            first == (done.len() == 0),
        decreases seg.len() - i,
    {
        if is_name_sep_exec(seg[i]) {
            i += 1;
        } else {
            let start = i;
            proof {
                lemma_token_end_bounds(seg@, start as int);
            }
            while i < seg.len() && !is_name_sep_exec(seg[i])
                invariant
                    start <= i <= seg.len(),
                    token_end_from(seg@, i as int) == token_end_from(seg@, start as int),
                decreases seg.len() - i,
            {
                i += 1;
            }
            let ghost rest = initial_list_from(seg@, f, i as int);
            match first_flagged_exec(seg, alnum, start, i) {
                Some(c) => {
                    proof {
                        lemma_join_push(done, seq![upper_char(c)], seq![' ']);
                        assert(done + (seq![seq![upper_char(c)]] + rest) =~= done.push(
                            seq![upper_char(c)],
                        ) + rest);
                    }
                    if !first {
                        out.push(' ');
                    }
                    out.push(to_upper_char(c));
                    first = false;
                    proof {
                        done = done.push(seq![upper_char(c)]);
                    }
                    assert(out@ =~= join(done, seq![' ']));
                },
                None => {},
            }
        }
    }
    proof {
        assert(initial_list_from(seg@, f, i as int) == Seq::<Seq<char>>::empty());
        assert(done + Seq::<Seq<char>>::empty() =~= done);
    }
    out
}

/// The initials of a given-name segment.
fn initials_exec(seg: &[char]) -> (r: Vec<char>)
    ensures
        r@ == initials(seg@),
{
    let flags = alphanumeric_flags(seg);
    initials_with(seg, flags.as_slice())
}

/// A family name followed by initials, if there are any.
fn family_with_initials_exec(family: Vec<char>, inits: &[char]) -> (r: Vec<char>)
    ensures
        r@ == family_with_initials(family@, inits@),
{
    if inits.len() == 0 {
        family
    } else {
        let mut out = family;
        out.push(' ');
        extend_chars(&mut out, inits);
        out
    }
}

/// One author written as family name and initials.
pub fn format_single_author(a: &[char]) -> (r: Vec<char>)
    ensures
        r@ == single_author(a@),
{
    if looks_cjk_exec(a) {
        return slice_vec(a, 0, a.len());
    }
    let mut comma: Vec<char> = Vec::new();
    comma.push(',');
    assert(comma@ =~= seq![',']);
    match find_exec(a, comma.as_slice(), 0) {
        Some(i) => {
            let fam_raw = slice_vec(a, 0, i);
            let family = clean_text(fam_raw.as_slice());
            let given = slice_vec(a, i + 1, a.len());
            let inits = initials_exec(given.as_slice());
            family_with_initials_exec(family, inits.as_slice())
        },
        None => {
            let mut parts = split_words(a);
            let ghost ps = views(parts@);
            if parts.len() == 0 {
                Vec::new()
            } else if parts.len() == 1 {
                clean_text(parts[0].as_slice())
            } else {
                let last = parts.pop().unwrap();
                proof {
                    assert(views(parts@) =~= ps.drop_last());
                    assert(last@ == ps.last());
                }
                let family = clean_text(last.as_slice());
                let sp = crate::text::lit(" ");
                proof {
                    reveal_strlit(" ");
                    assert(sp@ =~= seq![' ']);
                }
                let given = join_chars(&parts, sp.as_slice());
                let inits = initials_exec(given.as_slice());
                family_with_initials_exec(family, inits.as_slice())
            }
        },
    }
}

/// The author part of a reference.
fn format_authors(entry: &LibraryEntry) -> (r: Vec<char>)
    requires
        entry.wf(),
    ensures
        r@ == authors_text(*entry),
{
    let names = names2("author", "editor");
    let raw = match first_non_empty_exec(entry, &names) {
        Some(v) => v,
        None => {
            return Vec::new();
        },
    };
    let normalized = clean_text(raw.as_slice());
    if normalized.len() == 0 {
        return Vec::new();
    }
    let and_sep = crate::text::lit(" and ");
    proof {
        reveal_strlit(" and ");
    }
    let pieces = split_chars(normalized.as_slice(), and_sep.as_slice());
    let ghost ps = views(pieces@);
    let mut authors: Vec<Vec<char>> = Vec::new();
    let mut i: usize = 0;
    while i < pieces.len()
        invariant
            i <= pieces.len(),
            ps == views(pieces@),
            views(authors@) == author_list(ps.take(i as int)),
        decreases pieces.len() - i,
    {
        proof {
            assert(ps.take(i + 1).drop_last() =~= ps.take(i as int));
            assert(ps.take(i + 1).last() == pieces@[i as int]@);
        }
        let t = trim_chars(pieces[i].as_slice());
        if t.len() > 0 {
            let f = format_single_author(t.as_slice());
            let ghost prev = views(authors@);
            authors.push(f);
            assert(views(authors@) =~= prev.push(f@));
        }
        i += 1;
    }
    assert(ps.take(pieces.len() as int) =~= ps);
    let sep = crate::text::lit(", ");
    join_chars(&authors, sep.as_slice())
}

/// Whether `t` equals the characters of `s`.
fn is_word(t: &[char], s: &str) -> (r: bool)
    ensures
        r == (t@ == s@),
{
    let w = chars_of(s);
    chars_eq(t, w.as_slice())
}

/// The document type marker.
fn doc_marker(entry: &LibraryEntry) -> (r: Vec<char>)
    requires
        entry.wf(),
    ensures
        r@ == marker(*entry),
{
    let tc = chars_of(entry.entry_type.as_str());
    let t = upper_chars(tc.as_slice());
    let t = t.as_slice();
    if is_word(t, "ARTICLE") {
        crate::text::lit("J")
    } else if is_word(t, "INPROCEEDINGS") || is_word(t, "CONFERENCE") || is_word(t, "PROCEEDINGS") {
        crate::text::lit("C")
    } else if is_word(t, "BOOK") {
        crate::text::lit("M")
    } else if is_word(t, "STANDARD") {
        crate::text::lit("S")
    } else if is_word(t, "PATENT") {
        crate::text::lit("P")
    } else if is_word(t, "THESIS") || is_word(t, "PHDTHESIS") || is_word(t, "MASTERSTHESIS") {
        crate::text::lit("D")
    } else if is_word(t, "REPORT") || is_word(t, "TECHREPORT") {
        crate::text::lit("R")
    } else {
        let names = names1("url");
        if first_non_empty_exec(entry, &names).is_some() {
            crate::text::lit("EB/OL")
        } else {
            crate::text::lit("Z")
        }
    }
}

/// `seg` followed by `part`, with `sep` between them when `seg` is not empty.
fn append_part_exec(seg: &mut Vec<char>, sep: &str, part: &[char])
    ensures
        final(seg)@ == append_part(old(seg)@, sep@, part@),
{
    if part.len() > 0 {
        if seg.len() > 0 {
            let s = chars_of(sep);
            extend_chars(seg, s.as_slice());
        }
        extend_chars(seg, part);
    }
    assert(part@.len() > 0 && old(seg)@.len() == 0 ==> old(seg)@ + part@ =~= part@);
}

/// Venue, year, volume and issue, pages.
fn publication_segment(entry: &LibraryEntry) -> (r: Vec<char>)
    requires
        entry.wf(),
    ensures
        r@ == publication_text(*entry),
{
    let venue = cleaned_or_empty_exec(
        entry,
        &names5("journal", "booktitle", "publisher", "institution", "school"),
    );
    let year = cleaned_or_empty_exec(entry, &names1("year"));
    let volume = cleaned_or_empty_exec(entry, &names1("volume"));
    let number = cleaned_or_empty_exec(entry, &names2("number", "issue"));
    let pages = cleaned_or_empty_exec(entry, &names1("pages"));

    let mut vi: Vec<char> = Vec::new();
    if volume.len() > 0 && number.len() > 0 {
        extend_chars(&mut vi, volume.as_slice());
        vi.push('(');
        extend_chars(&mut vi, number.as_slice());
        vi.push(')');
    } else if volume.len() > 0 {
        extend_chars(&mut vi, volume.as_slice());
    } else if number.len() > 0 {
        vi.push('(');
        extend_chars(&mut vi, number.as_slice());
        vi.push(')');
    }
    proof {
        reveal_strlit("(");
        reveal_strlit(")");
        assert(vi@ =~= volume_issue(volume@, number@));
    }

    let mut segment = venue;
    append_part_exec(&mut segment, ", ", year.as_slice());
    append_part_exec(&mut segment, ", ", vi.as_slice());
    append_part_exec(&mut segment, ": ", pages.as_slice());
    segment
}

/// Adds `prefix` and `part`, then a full stop if missing, when `part` is not empty.
fn add_dotted_exec(out: &mut Vec<char>, prefix: &str, part: &[char])
    ensures
        final(out)@ == add_dotted(old(out)@, prefix@, part@),
{
    if part.len() > 0 {
        let p = chars_of(prefix);
        extend_chars(out, p.as_slice());
        extend_chars(out, part);
        if out.len() == 0 || out[out.len() - 1] != '.' {
            out.push('.');
        }
    }
}

/// The default reference text of `entry`.
fn format_default_entry(entry: &LibraryEntry) -> (r: Vec<char>)
    requires
        entry.wf(),
    ensures
        r@ == default_entry_text(*entry),
{
    let authors = format_authors(entry);
    let title = match first_non_empty_exec(entry, &names2("title", "booktitle")) {
        Some(v) => {
            let c = clean_text(v.as_slice());
            if c.len() > 0 {
                c
            } else {
                chars_of(entry.key.as_str())
            }
        },
        None => chars_of(entry.key.as_str()),
    };
    let marker_text = doc_marker(entry);
    let mut output: Vec<char> = Vec::new();
    if authors.len() > 0 {
        extend_chars(&mut output, authors.as_slice());
        output.push('.');
        output.push(' ');
    }
    extend_chars(&mut output, title.as_slice());
    output.push('[');
    extend_chars(&mut output, marker_text.as_slice());
    output.push(']');
    output.push('.');
    proof {
        reveal_strlit(". ");
        reveal_strlit("[");
        reveal_strlit("].");
        let head = if authors@.len() > 0 {
            authors@ + ". "@
        } else {
            Seq::empty()
        };
        assert(output@ =~= head + title_text(*entry) + "["@ + marker(*entry) + "]."@);
    }
    let publication = publication_segment(entry);
    add_dotted_exec(&mut output, " ", publication.as_slice());
    let doi = cleaned_or_empty_exec(entry, &names1("doi"));
    add_dotted_exec(&mut output, " DOI: ", doi.as_slice());
    let url = cleaned_or_empty_exec(entry, &names1("url"));
    add_dotted_exec(&mut output, " ", url.as_slice());
    output
}

// ---------------------------------------------------------------------------
// Public interface
// ---------------------------------------------------------------------------

/// The reference styles that the library can write.
#[derive(Debug, Clone, Copy, PartialEq, Eq)]
pub enum OutputFormat {
    DefaultV1,
}

/// A reference style.
pub trait ReferenceFormatter {
    /// The reference text of `entry`.
    fn format_entry(&self, entry: &LibraryEntry) -> String
        requires
            entry.wf(),
    ;
}

/// The default style.
#[derive(Debug, Clone, Copy, Default)]
pub struct DefaultFormatterV1;

impl ReferenceFormatter for DefaultFormatterV1 {
    fn format_entry(&self, entry: &LibraryEntry) -> (r: String)
        ensures
            r@ == default_entry_text(*entry),
    {
        let v = format_default_entry(entry);
        string_of(v.as_slice())
    }
}

/// The reference text of `entry` in the given format.
pub fn format_entry(entry: &LibraryEntry, output_format: OutputFormat) -> (r: String)
    requires
        entry.wf(),
    ensures
        r@ == entry_text(*entry, output_format),
{
    match output_format {
        OutputFormat::DefaultV1 => DefaultFormatterV1.format_entry(entry),
    }
}

} // verus!

verus! {

// ---------------------------------------------------------------------------
// Which fields a reference shows
// ---------------------------------------------------------------------------

/// Field `name` of `entry` is absent or holds only whitespace.
pub open spec fn field_blank(entry: LibraryEntry, name: Seq<char>) -> bool {
    match entry.field(name) {
        Some(v) => trim(v).len() == 0,
        None => true,
    }
}

/// The part of a reference before its title: the authors and a full stop,
/// when there are authors.
pub open spec fn reference_head(entry: LibraryEntry) -> Seq<char> {
    if authors_text(entry).len() > 0 {
        authors_text(entry) + ". "@
    } else {
        Seq::empty()
    }
}

/// The first listed field that is not blank is the one `first_non_empty` picks.
proof fn lemma_first_non_empty_at(entry: LibraryEntry, names: Seq<Seq<char>>, i: int)
    requires
        0 <= i < names.len(),
        !field_blank(entry, names[i]),
        forall|j: int| 0 <= j < i ==> field_blank(entry, #[trigger] names[j]),
    ensures
        first_non_empty(entry, names) == Some(trim(entry.field(names[i])->Some_0)),
    decreases i,
{
    if i > 0 {
        assert(field_blank(entry, names[0]));
        let rest = names.drop_first();
        assert forall|j: int| 0 <= j < i - 1 implies field_blank(entry, #[trigger] rest[j]) by {
            assert(rest[j] == names[j + 1]);
        }
        assert(rest[i - 1] == names[i]);
        lemma_first_non_empty_at(entry, rest, i - 1);
    }
}

/// `a` begins `b` and `b` begins `c`, so `a` begins `c`.
proof fn lemma_prefix_trans(a: Seq<char>, b: Seq<char>, c: Seq<char>)
    requires
        a.is_prefix_of(b),
        b.is_prefix_of(c),
    ensures
        a.is_prefix_of(c),
{
    assert(c.subrange(0, a.len() as int) =~= b.subrange(0, a.len() as int));
}

/// Adding a dotted part keeps what was there as the beginning.
proof fn lemma_add_dotted_prefix(out: Seq<char>, prefix: Seq<char>, part: Seq<char>)
    ensures
        out.is_prefix_of(add_dotted(out, prefix, part)),
        part.len() > 0 ==> (out + prefix + part).is_prefix_of(add_dotted(out, prefix, part)),
{
    let x = out + prefix + part;
    assert(x.subrange(0, x.len() as int) =~= x);
    assert(x.push('.').subrange(0, x.len() as int) =~= x);
    assert(x.subrange(0, out.len() as int) =~= out);
    assert(x.push('.').subrange(0, out.len() as int) =~= out);
    assert(out.subrange(0, out.len() as int) =~= out);
}

/// Appending a part to a non-empty segment keeps the segment as the beginning.
proof fn lemma_append_part_prefix(seg: Seq<char>, sep: Seq<char>, part: Seq<char>)
    requires
        seg.len() > 0,
    ensures
        seg.is_prefix_of(append_part(seg, sep, part)),
{
    assert((seg + sep + part).subrange(0, seg.len() as int) =~= seg);
    assert(seg.subrange(0, seg.len() as int) =~= seg);
}

/// The reference text begins with its head, title part and document marker.
proof fn lemma_reference_begins(entry: LibraryEntry)
    ensures
        (reference_head(entry) + title_text(entry) + "["@ + marker(entry) + "]."@).is_prefix_of(
            entry_text(entry, OutputFormat::DefaultV1),
        ),
{
    let o0 = reference_head(entry) + title_text(entry) + "["@ + marker(entry) + "]."@;
    let o1 = add_dotted(o0, " "@, publication_text(entry));
    let o2 = add_dotted(o1, " DOI: "@, cleaned_or_empty(entry, seq!["doi"@]));
    let o3 = add_dotted(o2, " "@, cleaned_or_empty(entry, seq!["url"@]));
    assert(o3 == entry_text(entry, OutputFormat::DefaultV1));
    lemma_add_dotted_prefix(o0, " "@, publication_text(entry));
    lemma_add_dotted_prefix(o1, " DOI: "@, cleaned_or_empty(entry, seq!["doi"@]));
    lemma_add_dotted_prefix(o2, " "@, cleaned_or_empty(entry, seq!["url"@]));
    lemma_prefix_trans(o0, o1, o2);
    lemma_prefix_trans(o0, o2, o3);
}

/// The title part of a reference is the cleaned title field whenever that
/// field is not blank, whatever `booktitle` holds (the key when cleaning
/// leaves nothing); `booktitle` stands in only when the title is absent or
/// blank.
pub proof fn law_reference_title(entry: LibraryEntry)
    ensures
        !field_blank(entry, "title"@) ==> (reference_head(entry) + (if clean(
            trim(entry.field("title"@)->Some_0),
        ).len() > 0 {
            clean(trim(entry.field("title"@)->Some_0))
        } else {
            entry.key@
        }) + "["@ + marker(entry) + "]."@).is_prefix_of(entry_text(entry, OutputFormat::DefaultV1)),
        field_blank(entry, "title"@) && !field_blank(entry, "booktitle"@) && clean(
            trim(entry.field("booktitle"@)->Some_0),
        ).len() > 0 ==> (reference_head(entry) + clean(trim(entry.field("booktitle"@)->Some_0))
            + "["@ + marker(entry) + "]."@).is_prefix_of(entry_text(entry, OutputFormat::DefaultV1)),
{
    lemma_reference_begins(entry);
    let names = seq!["title"@, "booktitle"@];
    if !field_blank(entry, "title"@) {
        assert(names[0] == "title"@);
        lemma_first_non_empty_at(entry, names, 0);
    } else if !field_blank(entry, "booktitle"@) {
        assert(names[0] == "title"@);
        assert(names[1] == "booktitle"@);
        lemma_first_non_empty_at(entry, names, 1);
    }
}

/// The venue of a reference, right after its title part and marker, is the
/// cleaned value of the first field among journal, booktitle, publisher,
/// institution and school that is not blank: with no journal and a booktitle,
/// it is the booktitle. `names` lists those fields in that order.
pub proof fn law_reference_venue(entry: LibraryEntry, names: Seq<Seq<char>>, i: int)
    requires
        names == seq!["journal"@, "booktitle"@, "publisher"@, "institution"@, "school"@],
        0 <= i < 5,
        !field_blank(entry, names[i]),
        clean(trim(entry.field(names[i])->Some_0)).len() > 0,
        forall|j: int| 0 <= j < i ==> field_blank(entry, #[trigger] names[j]),
    ensures
        (reference_head(entry) + title_text(entry) + "["@ + marker(entry) + "]. "@ + clean(
            trim(entry.field(names[i])->Some_0),
        )).is_prefix_of(entry_text(entry, OutputFormat::DefaultV1)),
{
    lemma_first_non_empty_at(entry, names, i);
    let venue = clean(trim(entry.field(names[i])->Some_0));
    assert(cleaned_or_empty(entry, names) == venue);
    let year = cleaned_or_empty(entry, seq!["year"@]);
    let volume = cleaned_or_empty(entry, seq!["volume"@]);
    let number = cleaned_or_empty(entry, seq!["number"@, "issue"@]);
    let pages = cleaned_or_empty(entry, seq!["pages"@]);
    let s1 = append_part(venue, ", "@, year);
    let s2 = append_part(s1, ", "@, volume_issue(volume, number));
    let s3 = append_part(s2, ": "@, pages);
    assert(s3 == publication_text(entry));
    lemma_append_part_prefix(venue, ", "@, year);
    lemma_append_part_prefix(s1, ", "@, volume_issue(volume, number));
    lemma_append_part_prefix(s2, ": "@, pages);
    lemma_prefix_trans(venue, s1, s2);
    lemma_prefix_trans(venue, s2, s3);
    let o0 = reference_head(entry) + title_text(entry) + "["@ + marker(entry) + "]."@;
    let o1 = add_dotted(o0, " "@, s3);
    lemma_add_dotted_prefix(o0, " "@, s3);
    assert((o0 + " "@ + venue).is_prefix_of(o0 + " "@ + s3)) by {
        assert((o0 + " "@ + s3).subrange(0, (o0 + " "@ + venue).len() as int) =~= o0 + " "@ + venue);
    }
    lemma_prefix_trans(o0 + " "@ + venue, o0 + " "@ + s3, o1);
    let o2 = add_dotted(o1, " DOI: "@, cleaned_or_empty(entry, seq!["doi"@]));
    let o3 = add_dotted(o2, " "@, cleaned_or_empty(entry, seq!["url"@]));
    lemma_add_dotted_prefix(o1, " DOI: "@, cleaned_or_empty(entry, seq!["doi"@]));
    lemma_add_dotted_prefix(o2, " "@, cleaned_or_empty(entry, seq!["url"@]));
    lemma_prefix_trans(o0 + " "@ + venue, o1, o2);
    lemma_prefix_trans(o0 + " "@ + venue, o2, o3);
    assert(o0 + " "@ + venue =~= reference_head(entry) + title_text(entry) + "["@ + marker(entry)
        + "]. "@ + venue) by {
        reveal_strlit("].");
        reveal_strlit(" ");
        reveal_strlit("]. ");
    }
}

} // verus!
