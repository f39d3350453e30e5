//! Citation numbers: compressed ranges, key lists and `\cite{..}` commands.
use vstd::prelude::*;

use crate::models::strs;
use crate::text::{
    decimal, extend_chars, find_exec, find_from, is_whitespace, is_ws, join, lemma_join_push,
    push_decimal, slice_vec, string_of,
};

verus! {

// ---------------------------------------------------------------------------
// Compressed citation numbers
// ---------------------------------------------------------------------------

/// Every element is smaller than the next.
pub open spec fn strictly_increasing(t: Seq<usize>) -> bool {
    forall|i: int, j: int| 0 <= i < j < t.len() ==> t[i] < t[j]
}

/// The distinct indexes of `s` in ascending order.
pub open spec fn ascending_distinct(s: Seq<usize>) -> Seq<usize> {
    choose|t: Seq<usize>| strictly_increasing(t) && t.to_set() == s.to_set()
}

/// `[a]` for a single index, `[a]-[b]` for a range.
pub open spec fn range_text(a: usize, b: usize) -> Seq<char> {
    if a == b {
        seq!['['] + decimal(a as nat) + seq![']']
    } else {
        seq!['['] + decimal(a as nat) + seq![']', '-', '['] + decimal(b as nat) + seq![']']
    }
}

/// The range texts of the maximal runs of consecutive numbers in `t[i..]`,
/// where the run `start..=prev` is still open.
pub open spec fn runs_from(t: Seq<usize>, i: int, start: usize, prev: usize) -> Seq<Seq<char>>
    decreases t.len() - i,
{
    if i < 0 || i >= t.len() {
        seq![range_text(start, prev)]
    } else if t[i] == prev + 1 {
        runs_from(t, i + 1, start, t[i])
    } else {
        seq![range_text(start, prev)] + runs_from(t, i + 1, t[i], t[i])
    }
}

/// The compressed citation text of a list of indexes: the distinct indexes in
/// ascending order, consecutive runs written as `[a]-[b]`, separated by ", ".
pub open spec fn compressed(s: Seq<usize>) -> Seq<char> {
    let t = ascending_distinct(s);
    if t.len() == 0 {
        Seq::empty()
    } else {
        join(runs_from(t, 1, t[0], t[0]), seq![',', ' '])
    }
}

/// Dropping the first element of a sequence without duplicates removes it from the set.
proof fn lemma_drop_first_set(a: Seq<usize>)
    requires
        a.len() > 0,
        strictly_increasing(a),
    ensures
        a.drop_first().to_set() == a.to_set().remove(a[0]),
        strictly_increasing(a.drop_first()),
{
    assert forall|x: usize| #[trigger] a.drop_first().to_set().contains(x) <==> a.to_set().remove(
        a[0],
    ).contains(x) by {
        if a.drop_first().to_set().contains(x) {
            let j = choose|j: int| 0 <= j < a.drop_first().len() && a.drop_first()[j] == x;
            assert(a[j + 1] == x);
            assert(a.contains(x));
        }
        if a.to_set().remove(a[0]).contains(x) {
            let j = choose|j: int| 0 <= j < a.len() && a[j] == x;
            assert(j != 0);
            assert(a.drop_first()[j - 1] == x);
            assert(a.drop_first().contains(x));
        }
    }
    assert(a.drop_first().to_set() =~= a.to_set().remove(a[0]));
}

/// Two ascending sequences without duplicates that hold the same numbers are equal.
pub proof fn lemma_ascending_unique(a: Seq<usize>, b: Seq<usize>)
    requires
        strictly_increasing(a),
        strictly_increasing(b),
        a.to_set() == b.to_set(),
    ensures
        a == b,
    decreases a.len(),
{
    if a.len() == 0 {
        if b.len() > 0 {
            assert(b.to_set().contains(b[0]));
        }
        assert(a =~= b);
    } else {
        assert(a.to_set().contains(a[0]));
        assert(b.len() > 0);
        assert(b.to_set().contains(b[0]));
        let i = choose|i: int| 0 <= i < a.len() && a[i] == b[0];
        let j = choose|j: int| 0 <= j < b.len() && b[j] == a[0];
        assert(a[0] <= a[i]);
        assert(b[0] <= b[j]);
        assert(a[0] == b[0]);
        lemma_drop_first_set(a);
        lemma_drop_first_set(b);
        lemma_ascending_unique(a.drop_first(), b.drop_first());
        assert(a =~= seq![a[0]] + a.drop_first());
        assert(b =~= seq![b[0]] + b.drop_first());
    }
}

/// The range text of `a..=b`.
fn push_range(out: &mut Vec<char>, a: usize, b: usize)
    ensures
        final(out)@ == old(out)@ + range_text(a, b),
{
    out.push('[');
    push_decimal(out, a);
    out.push(']');
    if a != b {
        out.push('-');
        out.push('[');
        push_decimal(out, b);
        out.push(']');
    }
    assert(final(out)@ =~= old(out)@ + range_text(a, b));
}

/// The text of a single range.
pub fn format_range(start: usize, end: usize) -> (r: String)
    ensures
        r@ == range_text(start, end),
{
    let mut out: Vec<char> = Vec::new();
    push_range(&mut out, start, end);
    assert(out@ =~= range_text(start, end));
    string_of(out.as_slice())
}

/// The distinct elements of `s` in ascending order.
pub fn sort_dedup(s: &[usize]) -> (t: Vec<usize>)
    ensures
        strictly_increasing(t@),
        t@.to_set() == s@.to_set(),
{
    let mut t: Vec<usize> = Vec::new();
    let mut i: usize = 0;
    while i < s.len()
        invariant
            i <= s.len(),
            strictly_increasing(t@),
            t@.to_set() == s@.take(i as int).to_set(),
        decreases s.len() - i,
    {
        let x = s[i];
        let mut p: usize = 0;
        while p < t.len() && t[p] < x
            invariant
                p <= t.len(),
                forall|q: int| 0 <= q < p ==> t@[q] < x,
            decreases t.len() - p,
        {
            p += 1;
        }
        let ghost old_t = t@;
        if p < t.len() && t[p] == x {
            assert(old_t.contains(x));
        } else {
            t.insert(p, x);
            assert(t@ == old_t.insert(p as int, x));
            assert forall|a: int, b: int| 0 <= a < b < t@.len() implies t@[a] < t@[b] by {
                if b < p {
                } else if a < p && b == p {
                } else if a < p {
                    assert(t@[b] == old_t[b - 1]);
                    if b - 1 > p {
                        assert(old_t[p as int] < old_t[b - 1]);
                    }
                } else if a == p {
                    assert(t@[b] == old_t[b - 1]);
                    if b - 1 > p {
                        assert(old_t[p as int] < old_t[b - 1]);
                    }
                } else {
                }
            }
            assert forall|y: usize| #[trigger] t@.to_set().contains(y) <==> old_t.to_set().insert(
                x,
            ).contains(y) by {
                if t@.to_set().contains(y) {
                    let j = choose|j: int| 0 <= j < t@.len() && t@[j] == y;
                    if j < p {
                        assert(old_t[j] == y);
                    } else if j > p {
                        assert(old_t[j - 1] == y);
                    }
                }
                if old_t.to_set().contains(y) && y != x {
                    let j = choose|j: int| 0 <= j < old_t.len() && old_t[j] == y;
                    if j < p {
                        assert(t@[j] == y);
                    } else {
                        assert(t@[j + 1] == y);
                    }
                }
                if y == x {
                    assert(t@[p as int] == x);
                }
            }
            assert(t@.to_set() =~= old_t.to_set().insert(x));
        }
        assert(s@.take(i + 1) =~= s@.take(i as int).push(x));
        proof {
            s@.take(i as int).lemma_push_to_set_commute(x);
        }
        if p < t.len() && t[p] == x {
            assert(t@.to_set() =~= t@.to_set().insert(x));
        }
        i += 1;
    }
    assert(s@.take(s.len() as int) =~= s@);
    t
}

/// The compressed citation text: sorted, deduplicated, consecutive runs
/// written as `[a]-[b]`, separated by ", " (e.g. `[1]-[3], [5]`).
pub fn compress_citation_indexes(indexes: &[usize]) -> (r: String)
    ensures
        r@ == compressed(indexes@),
{
    let t = sort_dedup(indexes);
    proof {
        lemma_ascending_unique(t@, ascending_distinct(indexes@));
    }
    if t.len() == 0 {
        return String::new();
    }
    let ghost all = runs_from(t@, 1, t@[0], t@[0]);
    let mut out: Vec<char> = Vec::new();
    let ghost mut done: Seq<Seq<char>> = Seq::empty();
    let mut start = t[0];
    let mut previous = t[0];
    let mut i: usize = 1;
    let mut first = true;
    while i < t.len()
        invariant
            first == (done.len() == 0),
            1 <= i <= t.len(),
            strictly_increasing(t@),
            previous == t@[i - 1],
            all == runs_from(t@, 1, t@[0], t@[0]),
            done + runs_from(t@, i as int, start, previous) == all,
            out@ == join(done, seq![',', ' ']),
        decreases t.len() - i,
    {
        let current = t[i];
        assert(previous < current);
        if current == previous + 1 {
            previous = current;
        } else {
            proof {
                lemma_join_push(done, range_text(start, previous), seq![',', ' ']);
            }
            if !first {
                out.push(',');
                out.push(' ');
            }
            push_range(&mut out, start, previous);
            proof {
                let r = range_text(start, previous);
                assert(out@ =~= join(done.push(r), seq![',', ' ']));
                assert(done.push(r) + runs_from(t@, i + 1, current, current) =~= done + (seq![r]
                    + runs_from(t@, i + 1, current, current)));
                done = done.push(r);
            }
            first = false;
            start = current;
            previous = current;
        }
        i += 1;
    }
    proof {
        lemma_join_push(done, range_text(start, previous), seq![',', ' ']);
    }
    if !first {
        out.push(',');
        out.push(' ');
    }
    push_range(&mut out, start, previous);
    proof {
        let r = range_text(start, previous);
        assert(out@ =~= join(done.push(r), seq![',', ' ']));
        assert(done + seq![r] =~= done.push(r));
    }
    string_of(out.as_slice())
}

/// The compressed text depends only on which indexes occur, not on their
/// order or on repetitions.
pub proof fn law_compressed_depends_on_set(a: Seq<usize>, b: Seq<usize>)
    requires
        a.to_set() == b.to_set(),
    ensures
        compressed(a) == compressed(b),
{
}

} // verus!

verus! {

// ---------------------------------------------------------------------------
// Key lists
// ---------------------------------------------------------------------------

/// Separators between citation keys: commas (ASCII or full-width) and whitespace.
pub open spec fn is_key_sep(c: char) -> bool {
    c == ',' || c == '\u{FF0C}' || is_ws(c)
}

/// Index of the first key separator at or after `i`.
pub open spec fn key_end_from(s: Seq<char>, i: int) -> int
    decreases s.len() - i,
{
    if 0 <= i < s.len() && !is_key_sep(s[i]) {
        key_end_from(s, i + 1)
    } else {
        i
    }
}

/// `key_end_from` moves forward and stays within the sequence.
pub proof fn lemma_key_end_bounds(s: Seq<char>, i: int)
    requires
        0 <= i <= s.len(),
    ensures
        i <= key_end_from(s, i) <= s.len(),
        i < s.len() && !is_key_sep(s[i]) ==> i < key_end_from(s, i),
    decreases s.len() - i,
{
    if i < s.len() && !is_key_sep(s[i]) {
        lemma_key_end_bounds(s, i + 1);
    }
}

/// The non-empty keys in `s[i..]`.
pub open spec fn keys_from(s: Seq<char>, i: int) -> Seq<Seq<char>>
    decreases s.len() - i,
{
    if i < 0 || i >= s.len() {
        Seq::empty()
    } else if is_key_sep(s[i]) {
        keys_from(s, i + 1)
    } else {
        let b = key_end_from(s, i);
        proof {
            lemma_key_end_bounds(s, i);
        }
        seq![s.subrange(i, b)] + keys_from(s, b)
    }
}

/// The citation keys written in `s`, in order, repetitions kept.
pub open spec fn citation_keys(s: Seq<char>) -> Seq<Seq<char>> {
    keys_from(s, 0)
}

/// Whether `c` separates citation keys.
fn is_key_sep_exec(c: char) -> (r: bool)
    ensures
        r == is_key_sep(c),
{
    c == ',' || c == '\u{FF0C}' || is_whitespace(c)
}

/// The citation keys in a character sequence.
pub fn citation_keys_of(s: &[char]) -> (r: Vec<String>)
    ensures
        strs(r@) == citation_keys(s@),
{
    let mut out: Vec<String> = Vec::new();
    let mut i: usize = 0;
    let ghost all = citation_keys(s@);
    while i < s.len()
        invariant
            i <= s.len(),
            all == citation_keys(s@),
            all == strs(out@) + keys_from(s@, i as int),
        decreases s.len() - i,
    {
        if is_key_sep_exec(s[i]) {
            i += 1;
        } else {
            let start = i;
            proof {
                lemma_key_end_bounds(s@, start as int);
            }
            while i < s.len() && !is_key_sep_exec(s[i])
                invariant
                    start <= i <= s.len(),
                    key_end_from(s@, i as int) == key_end_from(s@, start as int),
                decreases s.len() - i,
            {
                i += 1;
            }
            let w = slice_vec(s, start, i);
            let k = string_of(w.as_slice());
            let ghost prev = strs(out@);
            out.push(k);
            assert(strs(out@) =~= prev.push(k@));
        }
    }
    assert(strs(out@) =~= all);
    out
}

/// The citation keys in `raw_input`, split at commas and whitespace.
pub fn parse_citation_keys(raw_input: &str) -> (r: Vec<String>)
    ensures
        strs(r@) == citation_keys(raw_input@),
{
    let s = crate::text::chars_of(raw_input);
    citation_keys_of(s.as_slice())
}

// ---------------------------------------------------------------------------
// `\cite{..}` commands in a paragraph
// ---------------------------------------------------------------------------

/// One `\cite{..}` command: where it starts, where it ends (one past its `}`),
/// both as character positions, and the keys between the braces.
#[derive(Debug)]
pub struct CiteCommand {
    pub start: usize,
    pub end: usize,
    pub keys: Vec<String>,
}

impl CiteCommand {
    /// The command as plain values.
    pub open spec fn view(&self) -> (int, int, Seq<Seq<char>>) {
        (self.start as int, self.end as int, strs(self.keys@))
    }
}

/// The opening of a citation command.
pub open spec fn cite_open() -> Seq<char> {
    "\\cite{"@
}

/// The `\cite{..}` commands of `s` from position `i` on, each closed by the
/// first `}` after its opening; an opening without a `}` ends the search.
pub open spec fn cite_commands_from(s: Seq<char>, i: int) -> Seq<(int, int, Seq<Seq<char>>)>
    decreases s.len() + 1 - i,
{
    if i < 0 || i > s.len() {
        Seq::empty()
    } else {
        match find_from(s, cite_open(), i) {
            None => Seq::empty(),
            Some(j) => {
                let body = j + cite_open().len();
                match find_from(s, seq!['}'], body) {
                    None => Seq::empty(),
                    Some(e) => {
                        proof {
                            crate::text::lemma_find_from_bounds(s, cite_open(), i);
                            crate::text::lemma_find_from_bounds(s, seq!['}'], body);
                        }
                        if i <= j && body <= e && e < s.len() {
                            seq![(j, e + 1, citation_keys(s.subrange(body, e)))]
                                + cite_commands_from(s, e + 1)
                        } else {
                            Seq::empty()
                        }
                    },
                }
            },
        }
    }
}

/// The views of a list of commands.
pub open spec fn command_views(v: Seq<CiteCommand>) -> Seq<(int, int, Seq<Seq<char>>)> {
    v.map_values(|c: CiteCommand| c@)
}

/// The `\cite{..}` commands of a paragraph, in order.
pub fn extract_cite_commands(s: &[char]) -> (r: Vec<CiteCommand>)
    ensures
        command_views(r@) == cite_commands_from(s@, 0),
        forall|k: int| #![trigger r@[k]] 0 <= k < r@.len() ==> r@[k].start < r@[k].end <= s.len(),
        forall|k: int| #![trigger r@[k]] 0 < k < r@.len() ==> r@[k - 1].end <= r@[k].start,
{
    let mut out: Vec<CiteCommand> = Vec::new();
    let open = crate::text::lit("\\cite{");
    let mut close: Vec<char> = Vec::new();
    close.push('}');
    assert(close@ =~= seq!['}']);
    let mut i: usize = 0;
    let ghost all = cite_commands_from(s@, 0);
    loop
        invariant
            i <= s.len(),
            open@ == cite_open(),
            close@ == seq!['}'],
            all == cite_commands_from(s@, 0),
            all == command_views(out@) + cite_commands_from(s@, i as int),
            forall|k: int| #![trigger out@[k]] 0 <= k < out@.len() ==> out@[k].start < out@[k].end <= i,
            forall|k: int| #![trigger out@[k]] 0 < k < out@.len() ==> out@[k - 1].end <= out@[k].start,
        decreases s.len() + 1 - i,
    {
        proof {
            reveal_strlit("\\cite{");
        }
        let j = match find_exec(s, open.as_slice(), i) {
            Some(j) => j,
            None => {
                assert(command_views(out@) =~= all);
                return out;
            },
        };
        let body = j + open.len();
        let e = match find_exec(s, close.as_slice(), body) {
            Some(e) => e,
            None => {
                assert(command_views(out@) =~= all);
                return out;
            },
        };
        let content = slice_vec(s, body, e);
        let keys = citation_keys_of(content.as_slice());
        let cmd = CiteCommand { start: j, end: e + 1, keys };
        let ghost prev = command_views(out@);
        let ghost old_out = out@;
        let ghost old_i = i;
        assert(old_i <= j);
        assert(j < e + 1);
        out.push(cmd);
        assert(command_views(out@) =~= prev.push(cmd@));
        i = e + 1;
        assert forall|k: int| #![trigger out@[k]] 0 <= k < out@.len() implies out@[k].start
            < out@[k].end <= i by {
            if k < out@.len() - 1 {
                assert(out@[k] == old_out[k]);
            }
        }
        assert forall|k: int| #![trigger out@[k]] 0 < k < out@.len() implies out@[k - 1].end
            <= out@[k].start by {
            assert(out@[k - 1] == old_out[k - 1]);
            assert(old_out[k - 1].end <= old_i);
            if k < out@.len() - 1 {
                assert(out@[k] == old_out[k]);
            }
        }
    }
}

/// The `\cite{..}` commands of a paragraph, in order.
pub fn extract_latex_cite_commands(raw_input: &str) -> (r: Vec<CiteCommand>)
    ensures
        command_views(r@) == cite_commands_from(raw_input@, 0),
{
    let s = crate::text::chars_of(raw_input);
    extract_cite_commands(s.as_slice())
}

} // verus!
