//! The library's data: entries, the persisted state and the results of operations.
use vstd::prelude::*;

use crate::strmap::StrMap;

verus! {

/// Version number written into the persisted state.
pub const STATE_VERSION: u32 = 1;

/// The views of a sequence of strings.
pub open spec fn strs(v: Seq<String>) -> Seq<Seq<char>> {
    v.map_values(|s: String| s@)
}

/// A copy of a vector of strings.
pub fn clone_strings(v: &Vec<String>) -> (r: Vec<String>)
    ensures
        strs(r@) == strs(v@),
{
    let mut out: Vec<String> = Vec::new();
    let mut i: usize = 0;
    while i < v.len()
        invariant
            i <= v.len(),
            strs(out@) =~= strs(v@).take(i as int),
        decreases v.len() - i,
    {
        let c = v[i].clone();
        let ghost prev = out@;
        out.push(c);
        assert(out@ == prev.push(c));
        assert(strs(out@) =~= strs(prev).push(c@));
        assert(strs(v@).take(i + 1) =~= strs(v@).take(i as int).push(v@[i as int]@));
        i += 1;
    }
    assert(strs(v@).take(v.len() as int) =~= strs(v@));
    out
}

/// One bibliography entry: its key, its type and its fields.
#[derive(Debug, Clone, PartialEq, Eq)]
pub struct LibraryEntry {
    pub key: String,
    pub entry_type: String,
    pub fields: StrMap<String>,
    pub raw: Option<String>,
}

impl LibraryEntry {
    /// The field map is well formed.
    pub open spec fn wf(&self) -> bool {
        self.fields.wf()
    }

    /// The value of field `name`, if present.
    pub open spec fn field(&self, name: Seq<char>) -> Option<Seq<char>> {
        if self.fields@.dom().contains(name) {
            Some(self.fields@[name]@)
        } else {
            None
        }
    }
}

/// Everything that is saved between sessions.
#[derive(Debug, Clone, PartialEq, Eq)]
pub struct PersistedState {
    pub version: u32,
    pub entries: StrMap<LibraryEntry>,
    pub citation_order: Vec<String>,
    pub citation_index_by_key: StrMap<usize>,
    pub next_citation_index: usize,
    pub citation_start_index: usize,
}

impl PersistedState {
    /// The maps are well formed, and so is every entry.
    pub open spec fn wf(&self) -> bool {
        &&& self.entries.wf()
        &&& self.citation_index_by_key.wf()
        &&& forall|k: Seq<char>| #[trigger] self.entries@.dom().contains(k) ==> self.entries@[k].wf()
    }

    /// The keys of the imported entries, in ascending order.
    pub fn imported_keys(&self) -> (r: Vec<String>)
        ensures
            strs(r@) == self.entries.keys(),
    {
        let mut out: Vec<String> = Vec::new();
        let mut i: usize = 0;
        while i < self.entries.len()
            invariant
                i <= self.entries.keys().len(),
                strs(out@) =~= self.entries.keys().take(i as int),
            decreases self.entries.keys().len() - i,
        {
            let c = self.entries.key_at(i).clone();
            let ghost prev = out@;
            out.push(c);
            assert(out@ == prev.push(c));
            assert(strs(out@) =~= strs(prev).push(c@));
            assert(self.entries.keys().take(i + 1) =~= self.entries.keys().take(i as int).push(
                self.entries.keys()[i as int],
            ));
            i += 1;
        }
        assert(self.entries.keys().take(self.entries.keys().len() as int) =~= self.entries.keys());
        out
    }
}

impl Default for PersistedState {
    fn default() -> (s: Self)
        ensures
            s.version == STATE_VERSION,
            s.entries@ == Map::<Seq<char>, LibraryEntry>::empty(),
            s.entries.keys().len() == 0,
            s.citation_order@.len() == 0,
            s.citation_index_by_key@ == Map::<Seq<char>, usize>::empty(),
            s.citation_index_by_key.keys().len() == 0,
            s.next_citation_index == 1,
            s.citation_start_index == 1,
            s.wf(),
    {
        PersistedState {
            version: STATE_VERSION,
            entries: StrMap::new(),
            citation_order: Vec::new(),
            citation_index_by_key: StrMap::new(),
            next_citation_index: 1,
            citation_start_index: 1,
        }
    }
}

/// What the user interface shows of the state.
#[derive(Debug, Clone)]
pub struct AppSnapshot {
    pub total_entries: usize,
    pub imported_keys: Vec<String>,
    pub citation_order: Vec<String>,
}

impl AppSnapshot {
    /// The snapshot of a persisted state.
    pub fn from_persisted(state: &PersistedState) -> (r: Self)
        requires
            state.wf(),
        ensures
            r.total_entries == state.entries@.dom().len(),
            strs(r.imported_keys@) == state.entries.keys(),
            strs(r.citation_order@) == strs(state.citation_order@),
    {
        proof {
            state.entries.lemma_wf();
        }
        AppSnapshot {
            total_entries: state.entries.len(),
            imported_keys: state.imported_keys(),
            citation_order: clone_strings(&state.citation_order),
        }
    }
}

/// Counts reported after an import.
#[derive(Debug, Clone)]
pub struct ImportResult {
    pub total: usize,
    pub imported: usize,
    pub new_count: usize,
    pub overwritten_count: usize,
    pub failed: usize,
    pub message: String,
}

/// The outcome of one citation request.
#[derive(Debug, Clone)]
pub struct CiteResult {
    pub citation_text: String,
    pub cited_references_text: String,
    pub newly_added_count: usize,
}

/// The title and authors of an entry, looked up by key.
#[derive(Debug, Clone)]
pub struct EntryLookupResult {
    pub key: String,
    pub title: String,
    pub authors: String,
}

} // verus!
