//! The BibTeX parser: text in, library entries out.
use vstd::prelude::*;

use crate::models::LibraryEntry;
use crate::strmap::StrMap;
use crate::text::{
    byte_len, collapse_ws, eq_ignore_case, find_from, is_ascii_alnum, is_ws, lower, skip_ws_from,
    trim, trim_end_at, upper,
};

verus! {

// ---------------------------------------------------------------------------
// Model of the grammar
// ---------------------------------------------------------------------------

/// An entry as plain values.
pub ghost struct ParsedEntry {
    pub key: Seq<char>,
    pub entry_type: Seq<char>,
    pub fields: Map<Seq<char>, Seq<char>>,
    pub raw: Option<Seq<char>>,
}

/// The plain values of a library entry.
pub open spec fn entry_model(e: LibraryEntry) -> ParsedEntry {
    ParsedEntry {
        key: e.key@,
        entry_type: e.entry_type@,
        fields: e.fields@.map_values(|v: String| v@),
        raw: match e.raw {
            Some(r) => Some(r@),
            None => None,
        },
    }
}

/// A parse error: its message and the character position it refers to.
pub ghost struct ParseFailure {
    pub message: Seq<char>,
    pub at: int,
}

/// Characters allowed in an entry type.
pub open spec fn is_type_char(c: char) -> bool {
    is_ascii_alnum(c) || c == '_' || c == '-'
}

/// End of the entry type that starts at `i`.
pub open spec fn type_end_from(s: Seq<char>, i: int) -> int
    decreases s.len() - i,
{
    if 0 <= i < s.len() && is_type_char(s[i]) {
        type_end_from(s, i + 1)
    } else {
        i
    }
}

/// Index of the first comma at or after `i`, or the length.
pub open spec fn comma_from(s: Seq<char>, i: int) -> int
    decreases s.len() - i,
{
    if 0 <= i < s.len() && s[i] != ',' {
        comma_from(s, i + 1)
    } else {
        i
    }
}

/// Index of the first character at or after `i` that is neither a comma nor whitespace.
pub open spec fn skip_ws_commas_from(s: Seq<char>, i: int) -> int
    decreases s.len() - i,
{
    if 0 <= i < s.len() && (s[i] == ',' || is_ws(s[i])) {
        skip_ws_commas_from(s, i + 1)
    } else {
        i
    }
}

/// Index of the first `=`, comma or whitespace at or after `i`, or the length.
pub open spec fn name_stop_from(s: Seq<char>, i: int) -> int
    decreases s.len() - i,
{
    if 0 <= i < s.len() && s[i] != '=' && s[i] != ',' && !is_ws(s[i]) {
        name_stop_from(s, i + 1)
    } else {
        i
    }
}

/// The position of the delimiter that closes the entry, scanning from `i` at
/// nesting `depth`; quoted text (with backslash escapes) is skipped.
pub open spec fn matching_from(
    s: Seq<char>,
    i: int,
    depth: int,
    in_quotes: bool,
    escaped: bool,
    open: char,
    close: char,
) -> Option<int>
    decreases s.len() - i,
{
    if i < 0 || i >= s.len() {
        None
    } else {
        let ch = s[i];
        if in_quotes {
            matching_from(
                s,
                i + 1,
                depth,
                !(ch == '"' && !escaped),
                ch == '\\' && !escaped,
                open,
                close,
            )
        } else if ch == '"' {
            matching_from(s, i + 1, depth, true, escaped, open, close)
        } else if ch == open {
            matching_from(s, i + 1, depth + 1, false, escaped, open, close)
        } else if ch == close {
            if depth - 1 == 0 {
                Some(i)
            } else {
                matching_from(s, i + 1, depth - 1, false, escaped, open, close)
            }
        } else {
            matching_from(s, i + 1, depth, false, escaped, open, close)
        }
    }
}

/// The position of the `}` that closes the brace opened before `i`.
pub open spec fn brace_close_from(s: Seq<char>, i: int, depth: int) -> Option<int>
    decreases s.len() - i,
{
    if i < 0 || i >= s.len() {
        None
    } else if s[i] == '{' {
        brace_close_from(s, i + 1, depth + 1)
    } else if s[i] == '}' {
        if depth - 1 == 0 {
            Some(i)
        } else {
            brace_close_from(s, i + 1, depth - 1)
        }
    } else {
        brace_close_from(s, i + 1, depth)
    }
}

/// The position of the `"` that closes a quoted value, scanning from `i`.
pub open spec fn quote_close_from(s: Seq<char>, i: int, escaped: bool) -> Option<int>
    decreases s.len() - i,
{
    if i < 0 || i >= s.len() {
        None
    } else if s[i] == '"' && !escaped {
        Some(i)
    } else {
        quote_close_from(s, i + 1, s[i] == '\\' && !escaped)
    }
}

/// A field value that starts at `start` in body `b`: the value with whitespace
/// collapsed, and the position after it.
pub open spec fn value_at(b: Seq<char>, start: int) -> Result<(Seq<char>, int), ParseFailure> {
    if b[start] == '{' {
        match brace_close_from(b, start, 0) {
            Some(c) => Ok((collapse_ws(b.subrange(start + 1, c)), c + 1)),
            None => Err(ParseFailure { message: "Unclosed braced field value"@, at: start }),
        }
    } else if b[start] == '"' {
        match quote_close_from(b, start + 1, false) {
            Some(c) => Ok((collapse_ws(b.subrange(start + 1, c)), c + 1)),
            None => Err(ParseFailure { message: "Unclosed quoted field value"@, at: start }),
        }
    } else {
        let e = comma_from(b, start);
        let raw = trim(b.subrange(start, e));
        if raw.len() == 0 {
            Err(ParseFailure { message: "Bare field value is empty"@, at: start })
        } else {
            Ok((collapse_ws(raw), e))
        }
    }
}

/// The fields of body `b` from `cursor` on, added to `m`; later fields with
/// the same (lower-cased) name replace earlier ones.
pub open spec fn fields_from(b: Seq<char>, cursor: int, m: Map<Seq<char>, Seq<char>>) -> Result<
    Map<Seq<char>, Seq<char>>,
    ParseFailure,
>
    decreases b.len() - cursor,
{
    if cursor < 0 || cursor >= b.len() {
        Ok(m)
    } else {
        let c1 = skip_ws_commas_from(b, cursor);
        if c1 >= b.len() || c1 < cursor {
            Ok(m)
        } else {
            let j = name_stop_from(b, c1);
            if j < b.len() && b[j] == ',' {
                Err(ParseFailure { message: "Unexpected ',' while parsing field name"@, at: j })
            } else {
                let name = trim(b.subrange(c1, j));
                if name.len() == 0 {
                    Err(ParseFailure { message: "Empty field name in entry"@, at: c1 })
                } else {
                    let c2 = skip_ws_from(b, j);
                    if c2 >= b.len() || b[c2] != '=' {
                        Err(ParseFailure { message: "Expected '=' after field name"@, at: c2 })
                    } else {
                        let c3 = skip_ws_from(b, c2 + 1);
                        if c3 >= b.len() {
                            Err(ParseFailure { message: "Missing field value after '='"@, at: c3 })
                        } else {
                            match value_at(b, c3) {
                                Err(e) => Err(e),
                                Ok((v, next)) => {
                                    let c4 = skip_ws_from(b, next);
                                    let c5 = if 0 <= c4 < b.len() && b[c4] == ',' {
                                        c4 + 1
                                    } else {
                                        c4
                                    };
                                    if cursor < c5 <= b.len() {
                                        fields_from(b, c5, m.insert(lower(name), v))
                                    } else {
                                        Ok(m)
                                    }
                                },
                            }
                        }
                    }
                }
            }
        }
    }
}

/// The entry whose body is `b` and whose type is `entry_type`.
pub open spec fn entry_from_body(b: Seq<char>, entry_type: Seq<char>) -> Result<ParsedEntry, ParseFailure> {
    let ks = skip_ws_from(b, 0);
    let ke = comma_from(b, ks);
    let key = trim(b.subrange(ks, ke));
    if key.len() == 0 {
        Err(ParseFailure { message: "Missing citation key in entry"@, at: ks })
    } else {
        let c = if ke < b.len() {
            ke + 1
        } else {
            ke
        };
        match fields_from(b, c, Map::empty()) {
            Err(e) => Err(e),
            Ok(m) => Ok(
                ParsedEntry { key, entry_type: upper(entry_type), fields: m, raw: Some(trim(b)) },
            ),
        }
    }
}

/// `@comment`, `@preamble` and `@string` blocks, which hold no entry.
pub open spec fn is_special_type(t: Seq<char>) -> bool {
    eq_ignore_case(t, "comment"@) || eq_ignore_case(t, "preamble"@) || eq_ignore_case(t, "string"@)
}

/// The entries of `s` from `cursor` on, appended to `acc`.
pub open spec fn entries_from(s: Seq<char>, cursor: int, acc: Seq<ParsedEntry>) -> Result<
    Seq<ParsedEntry>,
    ParseFailure,
>
    decreases s.len() + 1 - cursor,
{
    if cursor < 0 || cursor > s.len() {
        Ok(acc)
    } else {
        match find_from(s, seq!['@'], cursor) {
            None => Ok(acc),
            Some(at) => {
                let ts = skip_ws_from(s, at + 1);
                let te = type_end_from(s, ts);
                if ts == te {
                    Err(ParseFailure { message: "Missing entry type"@, at: te })
                } else {
                    let entry_type = trim(s.subrange(ts, te));
                    let o = skip_ws_from(s, te);
                    if o >= s.len() || o < 0 {
                        Err(
                            ParseFailure {
                                message: "Missing opening delimiter after entry type"@,
                                at: o,
                            },
                        )
                    } else if s[o] != '{' && s[o] != '(' {
                        Err(ParseFailure { message: "Entry body must start with '{' or '('"@, at: o })
                    } else {
                        let close = if s[o] == '{' {
                            '}'
                        } else {
                            ')'
                        };
                        match matching_from(s, o + 1, 1, false, false, s[o], close) {
                            None => Err(ParseFailure { message: "Unclosed entry delimiter"@, at: o }),
                            Some(ci) => if ci < cursor || ci < o + 1 || ci >= s.len() {
                                Ok(acc)
                            } else if is_special_type(entry_type) {
                                entries_from(s, ci + 1, acc)
                            } else {
                                match entry_from_body(s.subrange(o + 1, ci), entry_type) {
                                    Err(e) => Err(ParseFailure { message: e.message, at: o + 1 + e.at }),
                                    Ok(e) => entries_from(s, ci + 1, acc.push(e)),
                                }
                            },
                        }
                    }
                }
            },
        }
    }
}

/// The entries of a BibTeX text, or the first error with its byte position.
pub open spec fn parse_bib(s: Seq<char>) -> Result<Seq<ParsedEntry>, (Seq<char>, nat)> {
    match entries_from(s, 0, Seq::empty()) {
        Ok(es) => Ok(es),
        Err(e) => Err((e.message, byte_len(s.take(e.at)))),
    }
}

} // verus!

verus! {

// ---------------------------------------------------------------------------
// Scanning lemmas
// ---------------------------------------------------------------------------

/// `comma_from` moves forward and stops at a comma or the end.
proof fn lemma_comma_bounds(s: Seq<char>, i: int)
    requires
        0 <= i <= s.len(),
    ensures
        i <= comma_from(s, i) <= s.len(),
        comma_from(s, i) < s.len() ==> s[comma_from(s, i)] == ',',
    decreases s.len() - i,
{
    if i < s.len() && s[i] != ',' {
        lemma_comma_bounds(s, i + 1);
    }
}

/// `skip_ws_commas_from` moves forward and stays within the sequence.
proof fn lemma_skip_ws_commas_bounds(s: Seq<char>, i: int)
    requires
        0 <= i <= s.len(),
    ensures
        i <= skip_ws_commas_from(s, i) <= s.len(),
    decreases s.len() - i,
{
    if i < s.len() && (s[i] == ',' || is_ws(s[i])) {
        lemma_skip_ws_commas_bounds(s, i + 1);
    }
}

/// `name_stop_from` moves forward and stays within the sequence.
proof fn lemma_name_stop_bounds(s: Seq<char>, i: int)
    requires
        0 <= i <= s.len(),
    ensures
        i <= name_stop_from(s, i) <= s.len(),
    decreases s.len() - i,
{
    if i < s.len() && s[i] != '=' && s[i] != ',' && !is_ws(s[i]) {
        lemma_name_stop_bounds(s, i + 1);
    }
}

/// `type_end_from` moves forward and stays within the sequence.
proof fn lemma_type_end_bounds(s: Seq<char>, i: int)
    requires
        0 <= i <= s.len(),
    ensures
        i <= type_end_from(s, i) <= s.len(),
    decreases s.len() - i,
{
    if i < s.len() && is_type_char(s[i]) {
        lemma_type_end_bounds(s, i + 1);
    }
}

/// The closing delimiter lies at or after the scan position.
proof fn lemma_matching_bounds(s: Seq<char>, i: int, depth: int, q: bool, e: bool, open: char, close: char)
    ensures
        matching_from(s, i, depth, q, e, open, close) matches Some(c) ==> i <= c < s.len(),
    decreases s.len() - i,
{
    if 0 <= i < s.len() {
        let ch = s[i];
        if q {
            lemma_matching_bounds(s, i + 1, depth, !(ch == '"' && !e), ch == '\\' && !e, open, close);
        } else if ch == '"' {
            lemma_matching_bounds(s, i + 1, depth, true, e, open, close);
        } else if ch == open {
            lemma_matching_bounds(s, i + 1, depth + 1, false, e, open, close);
        } else if ch == close {
            lemma_matching_bounds(s, i + 1, depth - 1, false, e, open, close);
        } else {
            lemma_matching_bounds(s, i + 1, depth, false, e, open, close);
        }
    }
}

/// The closing brace lies at or after the scan position.
proof fn lemma_brace_bounds(s: Seq<char>, i: int, depth: int)
    ensures
        brace_close_from(s, i, depth) matches Some(c) ==> i <= c < s.len(),
    decreases s.len() - i,
{
    if 0 <= i < s.len() {
        if s[i] == '{' {
            lemma_brace_bounds(s, i + 1, depth + 1);
        } else if s[i] == '}' {
            lemma_brace_bounds(s, i + 1, depth - 1);
        } else {
            lemma_brace_bounds(s, i + 1, depth);
        }
    }
}

/// The closing quote lies at or after the scan position.
proof fn lemma_quote_bounds(s: Seq<char>, i: int, e: bool)
    ensures
        quote_close_from(s, i, e) matches Some(c) ==> i <= c < s.len(),
    decreases s.len() - i,
{
    if 0 <= i < s.len() && !(s[i] == '"' && !e) {
        lemma_quote_bounds(s, i + 1, s[i] == '\\' && !e);
    }
}

// ---------------------------------------------------------------------------
// Executable scanning
// ---------------------------------------------------------------------------

/// Index of the first non-whitespace character at or after `i`.
fn skip_whitespace(s: &[char], i: usize) -> (r: usize)
    requires
        i <= s.len(),
    ensures
        r as int == skip_ws_from(s@, i as int),
        i <= r <= s.len(),
{
    proof {
        crate::text::lemma_skip_ws_bounds(s@, i as int);
    }
    let mut k = i;
    while k < s.len() && crate::text::is_whitespace(s[k])
        invariant
            i <= k <= s.len(),
            skip_ws_from(s@, k as int) == skip_ws_from(s@, i as int),
        decreases s.len() - k,
    {
        k += 1;
    }
    k
}

/// Index of the first character that is neither comma nor whitespace.
fn skip_whitespace_and_commas(s: &[char], i: usize) -> (r: usize)
    requires
        i <= s.len(),
    ensures
        r as int == skip_ws_commas_from(s@, i as int),
        i <= r <= s.len(),
{
    proof {
        lemma_skip_ws_commas_bounds(s@, i as int);
    }
    let mut k = i;
    while k < s.len() && (s[k] == ',' || crate::text::is_whitespace(s[k]))
        invariant
            i <= k <= s.len(),
            skip_ws_commas_from(s@, k as int) == skip_ws_commas_from(s@, i as int),
        decreases s.len() - k,
    {
        k += 1;
    }
    k
}

/// Index of the first comma at or after `i`, or the length.
fn scan_to_comma(s: &[char], i: usize) -> (r: usize)
    requires
        i <= s.len(),
    ensures
        r as int == comma_from(s@, i as int),
        i <= r <= s.len(),
        r < s.len() ==> s@[r as int] == ',',
{
    proof {
        lemma_comma_bounds(s@, i as int);
    }
    let mut k = i;
    while k < s.len() && s[k] != ','
        invariant
            i <= k <= s.len(),
            comma_from(s@, k as int) == comma_from(s@, i as int),
        decreases s.len() - k,
    {
        k += 1;
    }
    k
}

/// Whether `c` may appear in an entry type.
fn is_entry_type_char(c: char) -> (r: bool)
    ensures
        r == is_type_char(c),
{
    crate::text::is_ascii_alphanumeric(c) || c == '_' || c == '-'
}

/// Whether the entry type names a block without an entry.
fn is_special_entry_type(t: &[char]) -> (r: bool)
    ensures
        r == is_special_type(t@),
{
    let a = crate::text::lit("comment");
    let b = crate::text::lit("preamble");
    let c = crate::text::lit("string");
    crate::text::chars_eq_ignore_case(t, a.as_slice()) || crate::text::chars_eq_ignore_case(
        t,
        b.as_slice(),
    ) || crate::text::chars_eq_ignore_case(t, c.as_slice())
}

/// The delimiter that closes the entry opened at `open_index`.
fn find_matching_delimiter(s: &[char], open_index: usize, open: char, close: char) -> (r: Option<usize>)
    requires
        open_index < s.len(),
        open != '"',
        close != '"',
        open != close,
    ensures
        match r {
            Some(c) => matching_from(s@, open_index + 1, 1, false, false, open, close) == Some(c as int)
                && open_index < c < s.len(),
            None => matching_from(s@, open_index + 1, 1, false, false, open, close) is None,
        },
{
    let mut cursor = open_index + 1;
    let mut depth: usize = 1;
    let mut in_quotes = false;
    let mut escaped = false;
    proof {
        lemma_matching_bounds(s@, open_index + 1, 1, false, false, open, close);
    }
    while cursor < s.len()
        invariant
            open_index < cursor <= s.len(),
            1 <= depth <= cursor,
            open != close,
            matching_from(s@, cursor as int, depth as int, in_quotes, escaped, open, close)
                == matching_from(s@, open_index + 1, 1, false, false, open, close),
        decreases s.len() - cursor,
    {
        let ch = s[cursor];
        if in_quotes {
            let was_escaped = escaped;
            if ch == '"' && !was_escaped {
                in_quotes = false;
            }
            escaped = ch == '\\' && !was_escaped;
        } else {
            if ch == '"' {
                in_quotes = true;
            } else if ch == open {
                depth += 1;
            } else if ch == close {
                if depth == 1 {
                    return Some(cursor);
                }
                depth -= 1;
            }
        }
        cursor += 1;
    }
    None
}

/// A braced value starting at `start`.
fn parse_braced_value(b: &[char], start: usize) -> (r: Result<(Vec<char>, usize), (String, usize)>)
    requires
        start < b.len(),
        b@[start as int] == '{',
    ensures
        match value_at(b@, start as int) {
            Ok((v, next)) => r matches Ok((rv, rn)) && rv@ == v && rn == next,
            Err(e) => r matches Err((m, p)) && m@ == e.message && p == e.at,
        },
        r matches Ok((_, rn)) ==> start < rn <= b.len(),
        r matches Err((_, p)) ==> p <= b.len(),
{
    let mut cursor = start + 1;
    let mut depth: usize = 1;
    proof {
        lemma_brace_bounds(b@, start as int, 0);
    }
    while cursor < b.len()
        invariant
            start < cursor <= b.len(),
            1 <= depth <= cursor,
            b@[start as int] == '{',
            brace_close_from(b@, cursor as int, depth as int) == brace_close_from(b@, start as int, 0),
        decreases b.len() - cursor,
    {
        let ch = b[cursor];
        if ch == '{' {
            depth += 1;
        } else if ch == '}' {
            if depth == 1 {
                let raw = crate::text::slice_vec(b, start + 1, cursor);
                let v = crate::text::collapse_whitespace(raw.as_slice());
                return Ok((v, cursor + 1));
            }
            depth -= 1;
        }
        cursor += 1;
    }
    Err((crate::text::owned_text("Unclosed braced field value"), start))
}

} // verus!

verus! {

/// A quoted value starting at `start`.
fn parse_quoted_value(b: &[char], start: usize) -> (r: Result<(Vec<char>, usize), (String, usize)>)
    requires
        start < b.len(),
        b@[start as int] == '"',
    ensures
        match value_at(b@, start as int) {
            Ok((v, next)) => r matches Ok((rv, rn)) && rv@ == v && rn == next,
            Err(e) => r matches Err((m, p)) && m@ == e.message && p == e.at,
        },
        r matches Ok((_, rn)) ==> start < rn <= b.len(),
        r matches Err((_, p)) ==> p <= b.len(),
{
    let mut cursor = start + 1;
    let mut escaped = false;
    proof {
        lemma_quote_bounds(b@, start + 1, false);
    }
    while cursor < b.len()
        invariant
            start < cursor <= b.len(),
            b@[start as int] == '"',
            quote_close_from(b@, cursor as int, escaped) == quote_close_from(b@, start + 1, false),
        decreases b.len() - cursor,
    {
        let ch = b[cursor];
        if ch == '"' && !escaped {
            let raw = crate::text::slice_vec(b, start + 1, cursor);
            let v = crate::text::collapse_whitespace(raw.as_slice());
            return Ok((v, cursor + 1));
        }
        escaped = ch == '\\' && !escaped;
        cursor += 1;
    }
    Err((crate::text::owned_text("Unclosed quoted field value"), start))
}

/// A bare value starting at `start`: everything up to the next comma.
fn parse_bare_value(b: &[char], start: usize) -> (r: Result<(Vec<char>, usize), (String, usize)>)
    requires
        start < b.len(),
        b@[start as int] != '{',
        b@[start as int] != '"',
    ensures
        match value_at(b@, start as int) {
            Ok((v, next)) => r matches Ok((rv, rn)) && rv@ == v && rn == next,
            Err(e) => r matches Err((m, p)) && m@ == e.message && p == e.at,
        },
        r matches Ok((_, rn)) ==> start < rn <= b.len(),
        r matches Err((_, p)) ==> p <= b.len(),
{
    let cursor = scan_to_comma(b, start);
    let piece = crate::text::slice_vec(b, start, cursor);
    let raw = crate::text::trim_chars(piece.as_slice());
    if raw.len() == 0 {
        return Err((crate::text::owned_text("Bare field value is empty"), start));
    }
    proof {
        if cursor == start {
            assert(piece@.len() == 0);
            assert(crate::text::skip_ws_from(piece@, 0) == 0);
        }
    }
    let v = crate::text::collapse_whitespace(raw.as_slice());
    Ok((v, cursor))
}

/// The field value starting at `start`.
fn parse_field_value(b: &[char], start: usize) -> (r: Result<(Vec<char>, usize), (String, usize)>)
    requires
        start < b.len(),
    ensures
        match value_at(b@, start as int) {
            Ok((v, next)) => r matches Ok((rv, rn)) && rv@ == v && rn == next,
            Err(e) => r matches Err((m, p)) && m@ == e.message && p == e.at,
        },
        r matches Ok((_, rn)) ==> start < rn <= b.len(),
        r matches Err((_, p)) ==> p <= b.len(),
{
    if b[start] == '{' {
        parse_braced_value(b, start)
    } else if b[start] == '"' {
        parse_quoted_value(b, start)
    } else {
        parse_bare_value(b, start)
    }
}

/// The views of a map from strings to strings.
pub open spec fn text_map(m: Map<Seq<char>, String>) -> Map<Seq<char>, Seq<char>> {
    m.map_values(|v: String| v@)
}

/// The fields of a body, from `cursor` on.
fn parse_fields(b: &[char], from: usize) -> (r: Result<StrMap<String>, (String, usize)>)
    requires
        from <= b.len(),
    ensures
        match fields_from(b@, from as int, Map::empty()) {
            Ok(m) => r matches Ok(f) && f.wf() && text_map(f@) == m,
            Err(e) => r matches Err((msg, p)) && msg@ == e.message && p == e.at,
        },
        r matches Err((_, p)) ==> p <= b.len(),
{
    let mut fields: StrMap<String> = StrMap::new();
    let mut cursor = from;
    let ghost target = fields_from(b@, from as int, Map::empty());
    assert(text_map(fields@) =~= Map::<Seq<char>, Seq<char>>::empty());
    while cursor < b.len()
        invariant
            cursor <= b.len(),
            fields.wf(),
            fields_from(b@, cursor as int, text_map(fields@)) == target,
            target == fields_from(b@, from as int, Map::empty()),
        decreases b.len() - cursor,
    {
        let c1 = skip_whitespace_and_commas(b, cursor);
        if c1 >= b.len() {
            return Ok(fields);
        }
        proof {
            lemma_name_stop_bounds(b@, c1 as int);
        }
        let mut j = c1;
        while j < b.len() && b[j] != '=' && b[j] != ',' && !crate::text::is_whitespace(b[j])
            invariant
                c1 <= j <= b.len(),
                name_stop_from(b@, j as int) == name_stop_from(b@, c1 as int),
            decreases b.len() - j,
        {
            j += 1;
        }
        if j < b.len() && b[j] == ',' {
            return Err((crate::text::owned_text("Unexpected ',' while parsing field name"), j));
        }
        let name_piece = crate::text::slice_vec(b, c1, j);
        let name = crate::text::trim_chars(name_piece.as_slice());
        if name.len() == 0 {
            return Err((crate::text::owned_text("Empty field name in entry"), c1));
        }
        let c2 = skip_whitespace(b, j);
        if c2 >= b.len() || b[c2] != '=' {
            return Err((crate::text::owned_text("Expected '=' after field name"), c2));
        }
        let c3 = skip_whitespace(b, c2 + 1);
        if c3 >= b.len() {
            return Err((crate::text::owned_text("Missing field value after '='"), c3));
        }
        let (value, next) = match parse_field_value(b, c3) {
            Ok(p) => p,
            Err(e) => {
                return Err(e);
            },
        };
        let lname = crate::text::lower_chars(name.as_slice());
        let key = crate::text::string_of(lname.as_slice());
        let val = crate::text::string_of(value.as_slice());
        let ghost before = text_map(fields@);
        fields.insert(key, val);
        assert(text_map(fields@) =~= before.insert(lower(name@), value@));
        let c4 = skip_whitespace(b, next);
        cursor = if c4 < b.len() && b[c4] == ',' {
            c4 + 1
        } else {
            c4
        };
    }
    Ok(fields)
}

/// The entry whose body is `b`.
fn parse_standard_entry(entry_type: &[char], b: &[char]) -> (r: Result<LibraryEntry, (String, usize)>)
    ensures
        match entry_from_body(b@, entry_type@) {
            Ok(e) => r matches Ok(entry) && entry_model(entry) == e && entry.wf(),
            Err(e) => r matches Err((msg, p)) && msg@ == e.message && p == e.at,
        },
        r matches Err((_, p)) ==> p <= b.len(),
{
    let key_start = skip_whitespace(b, 0);
    let key_end = scan_to_comma(b, key_start);
    let key_piece = crate::text::slice_vec(b, key_start, key_end);
    let key = crate::text::trim_chars(key_piece.as_slice());
    if key.len() == 0 {
        return Err((crate::text::owned_text("Missing citation key in entry"), key_start));
    }
    let cursor = if key_end < b.len() {
        key_end + 1
    } else {
        key_end
    };
    let fields = match parse_fields(b, cursor) {
        Ok(f) => f,
        Err(e) => {
            return Err(e);
        },
    };
    let upper_type = crate::text::upper_chars(entry_type);
    let raw = crate::text::trim_chars(b);
    let entry = LibraryEntry {
        key: crate::text::string_of(key.as_slice()),
        entry_type: crate::text::string_of(upper_type.as_slice()),
        fields,
        raw: Some(crate::text::string_of(raw.as_slice())),
    };
    proof {
        assert(entry_model(entry).fields == text_map(entry.fields@));
    }
    Ok(entry)
}

} // verus!

verus! {

// ---------------------------------------------------------------------------
// Public interface
// ---------------------------------------------------------------------------

/// An error in a BibTeX text: what went wrong and at which byte.
#[derive(Debug, Clone, PartialEq, Eq)]
pub struct BibParseError {
    message: String,
    position: Option<usize>,
}

impl BibParseError {
    /// The message, as characters.
    pub closed spec fn msg(&self) -> Seq<char> {
        self.message@
    }

    /// The byte position.
    pub closed spec fn pos(&self) -> Option<usize> {
        self.position
    }

    /// An error with its message and byte position.
    fn new(message: String, position: Option<usize>) -> (e: Self)
        ensures
            e.msg() == message@,
            e.pos() == position,
    {
        BibParseError { message, position }
    }

    /// What went wrong.
    pub fn message(&self) -> (r: &String)
        ensures
            r@ == self.msg(),
    {
        &self.message
    }

    /// The byte position the error refers to.
    pub fn position(&self) -> (r: Option<usize>)
        ensures
            r == self.pos(),
    {
        self.position
    }

    /// The message, followed by ` at byte N` when there is a position.
    pub open spec fn text(&self) -> Seq<char> {
        match self.pos() {
            Some(p) => self.msg() + " at byte "@ + crate::text::decimal(p as nat),
            None => self.msg(),
        }
    }

    /// The error as text, as it is shown to the user.
    pub fn to_text(&self) -> (r: String)
        ensures
            r@ == self.text(),
    {
        let mut out = crate::text::chars_of(self.message.as_str());
        match self.position {
            Some(p) => {
                let sep = crate::text::lit(" at byte ");
                crate::text::extend_chars(&mut out, sep.as_slice());
                crate::text::push_decimal(&mut out, p);
            },
            None => {},
        }
        crate::text::string_of(out.as_slice())
    }
}

/// The error with the message and the byte position of character `at`.
fn fail(message: String, s: &[char], at: usize) -> (e: BibParseError)
    requires
        at <= s.len(),
        byte_len(s@) <= usize::MAX,
    ensures
        e.msg() == message@,
        e.pos() == Some(byte_len(s@.take(at as int)) as usize),
        byte_len(s@.take(at as int)) <= usize::MAX,
{
    let pos = crate::text::byte_offset(s, at);
    BibParseError::new(message, Some(pos))
}

/// The models of parsed entries.
pub open spec fn entry_models(v: Seq<LibraryEntry>) -> Seq<ParsedEntry> {
    v.map_values(|e: LibraryEntry| entry_model(e))
}

/// The entries of a BibTeX text in order.
///
/// `@comment`, `@preamble` and `@string` blocks are skipped. Each entry's
/// type is upper-cased, its field names lower-cased, and field values have
/// their whitespace collapsed; a later field with the same name replaces an
/// earlier one. The first malformed entry ends parsing with an error that
/// names the byte where the problem is.
pub fn parse_bib_entries(input: &str) -> (r: Result<Vec<LibraryEntry>, BibParseError>)
    requires
        byte_len(input@) <= usize::MAX,
    ensures
        match parse_bib(input@) {
            Ok(es) => r matches Ok(v) && entry_models(v@) == es && forall|i: int|
                0 <= i < v@.len() ==> (#[trigger] v@[i]).wf(),
            Err((msg, pos)) => r matches Err(e) && e.msg() == msg && pos <= usize::MAX && e.pos() == Some(
                pos as usize,
            ),
        },
{
    let s = crate::text::chars_of(input);
    let s = s.as_slice();
    let mut at_sign: Vec<char> = Vec::new();
    at_sign.push('@');
    assert(at_sign@ =~= seq!['@']);
    let mut entries: Vec<LibraryEntry> = Vec::new();
    let mut cursor: usize = 0;
    let ghost target = entries_from(s@, 0, Seq::empty());
    assert(entry_models(entries@) =~= Seq::<ParsedEntry>::empty());
    loop
        invariant
            cursor <= s.len(),
            s@ == input@,
            byte_len(s@) <= usize::MAX,
            at_sign@ == seq!['@'],
            target == entries_from(s@, 0, Seq::empty()),
            entries_from(s@, cursor as int, entry_models(entries@)) == target,
            forall|i: int| 0 <= i < entries@.len() ==> (#[trigger] entries@[i]).wf(),
        decreases s.len() + 1 - cursor,
    {
        let at_index = match crate::text::find_exec(s, at_sign.as_slice(), cursor) {
            None => {
                return Ok(entries);
            },
            Some(a) => a,
        };
        let type_start = skip_whitespace(s, at_index + 1);
        proof {
            lemma_type_end_bounds(s@, type_start as int);
        }
        let mut index = type_start;
        while index < s.len() && is_entry_type_char(s[index])
            invariant
                type_start <= index <= s.len(),
                type_end_from(s@, index as int) == type_end_from(s@, type_start as int),
            decreases s.len() - index,
        {
            index += 1;
        }
        if type_start == index {
            return Err(fail(crate::text::owned_text("Missing entry type"), s, index));
        }
        let type_piece = crate::text::slice_vec(s, type_start, index);
        let entry_type = crate::text::trim_chars(type_piece.as_slice());
        let open_index = skip_whitespace(s, index);
        if open_index >= s.len() {
            return Err(
                fail(
                    crate::text::owned_text("Missing opening delimiter after entry type"),
                    s,
                    open_index,
                ),
            );
        }
        let open = s[open_index];
        if open != '{' && open != '(' {
            return Err(
                fail(
                    crate::text::owned_text("Entry body must start with '{' or '('"),
                    s,
                    open_index,
                ),
            );
        }
        let close = if open == '{' {
            '}'
        } else {
            ')'
        };
        let close_index = match find_matching_delimiter(s, open_index, open, close) {
            None => {
                return Err(
                    fail(crate::text::owned_text("Unclosed entry delimiter"), s, open_index),
                );
            },
            Some(c) => c,
        };
        if !is_special_entry_type(entry_type.as_slice()) {
            let body = crate::text::slice_vec(s, open_index + 1, close_index);
            match parse_standard_entry(entry_type.as_slice(), body.as_slice()) {
                Err((msg, p)) => {
                    return Err(fail(msg, s, open_index + 1 + p));
                },
                Ok(entry) => {
                    let ghost prev = entry_models(entries@);
                    entries.push(entry);
                    assert(entry_models(entries@) =~= prev.push(entry_model(entry)));
                },
            }
        }
        cursor = close_index + 1;
    }
}

} // verus!

verus! {

// ---------------------------------------------------------------------------
// What parsed entries look like
// ---------------------------------------------------------------------------

/// An entry as the parser leaves it: a non-empty key without commas, an
/// upper-cased type, lower-cased field names, and its body kept.
pub open spec fn entry_shape(e: ParsedEntry) -> bool {
    &&& e.key.len() > 0
    &&& !e.key.contains(',')
    &&& upper(e.entry_type) == e.entry_type
    &&& forall|n: Seq<char>| #[trigger] e.fields.dom().contains(n) ==> lower(n) == n
    &&& e.raw is Some
    &&& key_is_text_before_comma(e.key, e.raw->Some_0)
}

/// `key` is, letter case kept, the trimmed text of `body` before its first
/// comma (or of the whole body when it has none).
pub open spec fn key_is_text_before_comma(key: Seq<char>, body: Seq<char>) -> bool {
    exists|j: int|
        0 <= j <= body.len() && (j < body.len() ==> body[j] == ',') && (forall|i: int|
            0 <= i < j ==> #[trigger] body[i] != ',') && key == trim(#[trigger] body.take(j))
}

/// The upper-cased type of a block that holds no entry.
pub open spec fn is_special_upper(t: Seq<char>) -> bool {
    t == "COMMENT"@ || t == "PREAMBLE"@ || t == "STRING"@
}

/// Trailing whitespace of `b` from `te` on is trailing whitespace of `b[ks..]`
/// too.
proof fn lemma_trim_end_suffix(b: Seq<char>, ks: int, te: int, m: int)
    requires
        0 <= ks < te <= b.len(),
        !is_ws(b[te - 1]),
        forall|k: int| te <= k < b.len() ==> is_ws(#[trigger] b[k]),
        te - ks <= m <= b.len() - ks,
    ensures
        trim_end_at(b.subrange(ks, b.len() as int), m) == te - ks,
    decreases m,
{
    let x = b.subrange(ks, b.len() as int);
    if m > te - ks {
        assert(x[m - 1] == b[ks + m - 1]);
        lemma_trim_end_suffix(b, ks, te, m - 1);
    } else {
        assert(x[m - 1] == b[te - 1]);
    }
}

/// A text that starts and ends with a non-whitespace character is its own trim.
proof fn lemma_trim_fixed(x: Seq<char>)
    requires
        x.len() > 0,
        !is_ws(x[0]),
        !is_ws(x[x.len() - 1]),
    ensures
        trim(x) == x,
{
    assert(skip_ws_from(x, 0) == 0);
    assert(trim_end_at(x, x.len() as int) == x.len());
    assert(x.subrange(0, x.len() as int) =~= x);
}

/// The upper-cased type of a block that is not `@comment`, `@preamble` or
/// `@string` is none of theirs.
proof fn lemma_not_special_upper(t: Seq<char>)
    requires
        !is_special_type(t),
    ensures
        !is_special_upper(upper(t)),
{
    assert forall|i: int| 0 <= i < t.len() implies #[trigger] crate::text::lower_char(
        crate::text::upper_char(t[i]),
    ) == crate::text::lower_char(t[i]) by {
        let c = t[i];
        if 0x61 <= (c as u32) <= 0x7A {
            assert((((c as u32) - 32) as char) as u32 == (c as u32) - 32);
        }
    }
    assert(lower(upper(t)) =~= lower(t));
    reveal_strlit("COMMENT");
    reveal_strlit("PREAMBLE");
    reveal_strlit("STRING");
    reveal_strlit("comment");
    reveal_strlit("preamble");
    reveal_strlit("string");
    assert(lower("COMMENT"@) =~= lower("comment"@));
    assert(lower("PREAMBLE"@) =~= lower("preamble"@));
    assert(lower("STRING"@) =~= lower("string"@));
}

/// Before `comma_from` there is no comma.
proof fn lemma_comma_free(s: Seq<char>, i: int)
    requires
        0 <= i <= s.len(),
    ensures
        forall|j: int| i <= j < comma_from(s, i) ==> #[trigger] s[j] != ',',
    decreases s.len() - i,
{
    if i < s.len() && s[i] != ',' {
        lemma_comma_free(s, i + 1);
    }
}

/// Upper-casing twice is upper-casing once.
proof fn lemma_upper_twice(s: Seq<char>)
    ensures
        upper(upper(s)) == upper(s),
{
    assert forall|i: int| 0 <= i < s.len() implies #[trigger] crate::text::upper_char(
        crate::text::upper_char(s[i]),
    ) == crate::text::upper_char(s[i]) by {
        let c = s[i];
        if 0x61 <= (c as u32) <= 0x7A {
            assert((((c as u32) - 32) as char) as u32 == (c as u32) - 32);
        }
    }
    assert(upper(upper(s)) =~= upper(s));
}

/// Lower-casing twice is lower-casing once.
proof fn lemma_lower_twice(s: Seq<char>)
    ensures
        lower(lower(s)) == lower(s),
{
    assert forall|i: int| 0 <= i < s.len() implies #[trigger] crate::text::lower_char(
        crate::text::lower_char(s[i]),
    ) == crate::text::lower_char(s[i]) by {
        let c = s[i];
        if 0x41 <= (c as u32) <= 0x5A {
            assert((((c as u32) + 32) as char) as u32 == (c as u32) + 32);
        }
    }
    assert(lower(lower(s)) =~= lower(s));
}

/// Field names come out lower-cased.
proof fn lemma_fields_lower(b: Seq<char>, cursor: int, m: Map<Seq<char>, Seq<char>>)
    requires
        forall|n: Seq<char>| #[trigger] m.dom().contains(n) ==> lower(n) == n,
    ensures
        fields_from(b, cursor, m) matches Ok(m2) ==> forall|n: Seq<char>| #[trigger] m2.dom().contains(n)
            ==> lower(n) == n,
    decreases b.len() - cursor,
{
    if 0 <= cursor < b.len() {
        let c1 = skip_ws_commas_from(b, cursor);
        if c1 < b.len() && c1 >= cursor {
            let j = name_stop_from(b, c1);
            let name = trim(b.subrange(c1, j));
            let c2 = skip_ws_from(b, j);
            if c2 < b.len() && b[c2] == '=' {
                let c3 = skip_ws_from(b, c2 + 1);
                if c3 < b.len() {
                    if let Ok((v, next)) = value_at(b, c3) {
                        let c4 = skip_ws_from(b, next);
                        let c5 = if 0 <= c4 < b.len() && b[c4] == ',' {
                            c4 + 1
                        } else {
                            c4
                        };
                        if cursor < c5 <= b.len() {
                            let m1 = m.insert(lower(name), v);
                            lemma_lower_twice(name);
                            assert forall|n: Seq<char>| #[trigger] m1.dom().contains(n) implies lower(n) == n by {
                                if n != lower(name) {
                                    assert(m.dom().contains(n));
                                }
                            }
                            lemma_fields_lower(b, c5, m1);
                        }
                    }
                }
            }
        }
    }
}

/// An entry read from a body has the shape the parser promises.
proof fn lemma_entry_shape(b: Seq<char>, entry_type: Seq<char>)
    ensures
        entry_from_body(b, entry_type) matches Ok(e) ==> entry_shape(e),
{
    let ks = skip_ws_from(b, 0);
    crate::text::lemma_skip_ws_bounds(b, 0);
    lemma_comma_bounds(b, ks);
    lemma_comma_free(b, ks);
    let ke = comma_from(b, ks);
    let piece = b.subrange(ks, ke);
    let key = trim(piece);
    crate::text::lemma_skip_ws_bounds(piece, 0);
    crate::text::lemma_trim_end_bounds(piece, piece.len() as int);
    assert(!key.contains(',')) by {
        if key.contains(',') {
            let j = choose|j: int| 0 <= j < key.len() && key[j] == ',';
            let a = skip_ws_from(piece, 0);
            assert(piece[a + j] == ',');
            assert(b[ks + a + j] == ',');
        }
    }
    lemma_upper_twice(entry_type);
    if key.len() > 0 {
        let te = trim_end_at(b, b.len() as int);
        crate::text::lemma_trim_end_bounds(b, b.len() as int);
        assert(ks < b.len());
        assert(!is_ws(b[ks]));
        assert(ks < te);
        let raw = trim(b);
        assert(raw == b.subrange(ks, te));
        if ke < te {
            let j = ke - ks;
            assert(raw.take(j) =~= b.subrange(ks, ke));
            assert(raw[j] == b[ke]);
            assert forall|i: int| 0 <= i < j implies #[trigger] raw[i] != ',' by {
                assert(raw[i] == b[ks + i]);
            }
            assert(key_is_text_before_comma(key, raw));
        } else {
            if ke < b.len() {
                assert(b[ke] == ',');
                assert(is_ws(b[ke]));
            }
            assert(ke == b.len());
            let j = raw.len() as int;
            assert(raw.take(j) =~= raw);
            assert forall|i: int| 0 <= i < j implies #[trigger] raw[i] != ',' by {
                assert(raw[i] == b[ks + i]);
            }
            lemma_trim_fixed(raw);
            lemma_trim_end_suffix(b, ks, te, b.len() - ks);
            let x = b.subrange(ks, b.len() as int);
            assert(x == piece);
            assert(skip_ws_from(x, 0) == 0);
            assert(x.subrange(0, te - ks) =~= raw);
            assert(key == raw);
            assert(key_is_text_before_comma(key, raw));
        }
    }
    let c = if ke < b.len() {
        ke + 1
    } else {
        ke
    };
    lemma_fields_lower(b, c, Map::empty());
}

/// Every entry found from `cursor` on has the shape the parser promises.
proof fn lemma_entries_shape(s: Seq<char>, cursor: int, acc: Seq<ParsedEntry>)
    requires
        forall|i: int| 0 <= i < acc.len() ==> entry_shape(#[trigger] acc[i]),
    ensures
        entries_from(s, cursor, acc) matches Ok(es) ==> forall|i: int|
            0 <= i < es.len() ==> entry_shape(#[trigger] es[i]),
        (forall|i: int| 0 <= i < acc.len() ==> !is_special_upper(#[trigger] acc[i].entry_type))
            ==> (entries_from(s, cursor, acc) matches Ok(es) ==> forall|i: int|
            0 <= i < es.len() ==> !is_special_upper(#[trigger] es[i].entry_type)),
    decreases s.len() + 1 - cursor,
{
    if 0 <= cursor <= s.len() {
        if let Some(at) = find_from(s, seq!['@'], cursor) {
            let ts = skip_ws_from(s, at + 1);
            let te = type_end_from(s, ts);
            if ts != te {
                let entry_type = trim(s.subrange(ts, te));
                let o = skip_ws_from(s, te);
                if 0 <= o < s.len() && (s[o] == '{' || s[o] == '(') {
                    let close = if s[o] == '{' {
                        '}'
                    } else {
                        ')'
                    };
                    if let Some(ci) = matching_from(s, o + 1, 1, false, false, s[o], close) {
                        if !(ci < cursor || ci < o + 1 || ci >= s.len()) {
                            if is_special_type(entry_type) {
                                lemma_entries_shape(s, ci + 1, acc);
                            } else {
                                lemma_entry_shape(s.subrange(o + 1, ci), entry_type);
                                if let Ok(e) = entry_from_body(s.subrange(o + 1, ci), entry_type) {
                                    let acc2 = acc.push(e);
                                    assert forall|i: int| 0 <= i < acc2.len() implies entry_shape(
                                        #[trigger] acc2[i],
                                    ) by {
                                        if i < acc.len() {
                                            assert(acc2[i] == acc[i]);
                                        }
                                    }
                                    lemma_not_special_upper(entry_type);
                                    assert(e.entry_type == upper(entry_type));
                                    if forall|i: int| 0 <= i < acc.len() ==> !is_special_upper(#[trigger] acc[i].entry_type) {
                                        assert forall|i: int| 0 <= i < acc2.len() implies !is_special_upper(
                                            #[trigger] acc2[i].entry_type,
                                        ) by {
                                            if i < acc.len() {
                                                assert(acc2[i] == acc[i]);
                                            }
                                        }
                                    }
                                    lemma_entries_shape(s, ci + 1, acc2);
                                }
                            }
                        }
                    }
                }
            }
        }
    }
}

/// Every entry a successful parse gives has a non-empty key without commas
/// that is, letter case kept, the trimmed text of its body before the first
/// comma; an upper-cased type that is never that of an `@comment`,
/// `@preamble` or `@string` block (those blocks give no entry); lower-cased
/// field names; and its body kept.
pub proof fn law_parsed_entries_shape(s: Seq<char>)
    ensures
        parse_bib(s) matches Ok(es) ==> forall|i: int| 0 <= i < es.len() ==> entry_shape(#[trigger] es[i]),
        parse_bib(s) matches Ok(es) ==> forall|i: int|
            0 <= i < es.len() ==> !is_special_upper(#[trigger] es[i].entry_type),
{
    lemma_entries_shape(s, 0, Seq::empty());
}

} // verus!
