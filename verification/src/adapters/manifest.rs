//! Per-file state tracking for incremental builds.
//!
//! An incremental build needs to answer "which files changed since the last
//! build?" without re-reading every file. The manifest records, per source
//! path, the file's modification time (nanoseconds since the UNIX epoch) and
//! size; a file is unchanged when both agree.
//!
//! The manifest schema is versioned: a manifest of another version is not
//! used, so callers fall back to a full rebuild.

use crate::paths::{
    Part, distinct_paths, order_parts, part_views, path_parts, path_parts_of, same_path,
    sort_paths, sorted_paths,
};
use crate::text::{lemma_push_contains, strs};
use vstd::prelude::*;

verus! {

/// Schema version.
pub const MANIFEST_VERSION: u32 = 1;

/// The recorded state of one file.
#[derive(Debug, Clone, Copy, PartialEq, Eq, Structural)]
pub struct FileState {
    /// Modification time as nanoseconds since the UNIX epoch.
    pub mtime_ns: i128,
    pub size: u64,
}

impl FileState {
    /// The state of a file from its size and its modification time as
    /// nanoseconds since the UNIX epoch (`None` for a time before the epoch,
    /// which is recorded as 0: such a file then counts as changed against any
    /// other recorded time, the safe direction).
    pub fn from_stat(nanos_since_epoch: Option<u128>, size: u64) -> (s: FileState)
        ensures
            s.size == size,
            s.mtime_ns == match nanos_since_epoch {
                Some(n) => n as i128,
                None => 0,
            },
    {
        let mtime_ns: i128 = match nanos_since_epoch {
            Some(n) => n as i128,
            None => 0,
        };
        FileState { mtime_ns, size }
    }
}

/// The mathematical value of a table of file states: its entries in order.
pub type StateTable = Seq<(Seq<char>, FileState)>;

/// Whether the table has an entry for a path that names the same thing as `p`.
pub open spec fn has_path(m: StateTable, p: Seq<char>) -> bool {
    exists|i: int| 0 <= i < m.len() && same_path(#[trigger] m[i].0, p)
}

/// The position of the entry for `p` (meaningful when [`has_path`]).
pub open spec fn index_of_path(m: StateTable, p: Seq<char>) -> int {
    choose|i: int| 0 <= i < m.len() && same_path(#[trigger] m[i].0, p)
}

/// The state recorded for `p` (meaningful when [`has_path`]).
pub open spec fn state_of(m: StateTable, p: Seq<char>) -> FileState {
    m[index_of_path(m, p)].1
}

/// No two entries name the same path.
pub open spec fn unique_paths(m: StateTable) -> bool {
    forall|i: int, j: int|
        0 <= i < m.len() && 0 <= j < m.len() && i != j ==> !same_path(#[trigger] m[i].0, #[trigger] m[j].0)
}

/// Whether `p` itself is the text of a key of the table.
pub open spec fn is_key(m: StateTable, p: Seq<char>) -> bool {
    exists|i: int| 0 <= i < m.len() && #[trigger] m[i].0 == p
}

/// The table after recording `st` for `p`: an entry for the same path keeps
/// its key text and takes the new state; otherwise the entry is appended.
pub open spec fn map_insert(m: StateTable, p: Seq<char>, st: FileState) -> StateTable {
    if has_path(m, p) {
        m.update(index_of_path(m, p), (m[index_of_path(m, p)].0, st))
    } else {
        m.push((p, st))
    }
}

/// The table built by recording each pair of `s` in order into `m`.
pub open spec fn insert_all(m: StateTable, s: StateTable) -> StateTable
    decreases s.len(),
{
    if s.len() == 0 {
        m
    } else {
        map_insert(insert_all(m, s.drop_last()), s.last().0, s.last().1)
    }
}

#[derive(Debug)]
struct FileEntry {
    path: String,
    parts: Vec<Part>,
    state: FileState,
}

/// A table of file states keyed by path, where paths that name the same
/// thing are one key.
#[derive(Debug)]
pub struct FileStates {
    entries: Vec<FileEntry>,
}

impl View for FileStates {
    type V = StateTable;

    closed spec fn view(&self) -> StateTable {
        self.entries@.map_values(|e: FileEntry| (e.path@, e.state))
    }
}

impl FileStates {
    #[verifier::type_invariant]
    closed spec fn wf(self) -> bool {
        &&& forall|i: int|
            0 <= i < self.entries@.len() ==> part_views(#[trigger] self.entries@[i].parts@)
                == path_parts(self.entries@[i].path@)
        &&& unique_paths(self@)
    }

    /// An empty table.
    pub fn new() -> (t: FileStates)
        ensures
            t@ == Seq::<(Seq<char>, FileState)>::empty(),
    {
        let t = FileStates { entries: Vec::new() };
        assert(t@ =~= Seq::<(Seq<char>, FileState)>::empty());
        t
    }

    /// Number of entries.
    pub fn len(&self) -> (n: usize)
        ensures
            n == self@.len(),
    {
        self.entries.len()
    }

    /// Whether the table has no entries.
    pub fn is_empty(&self) -> (b: bool)
        ensures
            b == (self@.len() == 0),
    {
        self.entries.len() == 0
    }

    /// The key text of entry `i`.
    pub fn path_at(&self, i: usize) -> (p: &String)
        requires
            i < self@.len(),
        ensures
            p@ == self@[i as int].0,
    {
        &self.entries[i].path
    }

    /// The state of entry `i`.
    pub fn state_at(&self, i: usize) -> (s: FileState)
        requires
            i < self@.len(),
        ensures
            s == self@[i as int].1,
    {
        self.entries[i].state
    }

    fn find(&self, parts: &Vec<Part>) -> (r: Option<usize>)
        ensures
            match r {
                Some(i) => i < self@.len() && path_parts(self@[i as int].0) == part_views(parts@),
                None => forall|i: int|
                    0 <= i < self@.len() ==> path_parts(#[trigger] self@[i].0) != part_views(parts@),
            },
    {
        proof {
            use_type_invariant(self);
        }
        let mut i: usize = 0;
        while i < self.entries.len()
            invariant
                i <= self@.len(),
                self@.len() == self.entries@.len(),
                forall|k: int|
                    0 <= k < self.entries@.len() ==> part_views(#[trigger] self.entries@[k].parts@)
                        == path_parts(self.entries@[k].path@),
                forall|k: int| 0 <= k < i ==> path_parts(#[trigger] self@[k].0) != part_views(parts@),
            decreases self@.len() - i,
        {
            assert(self@[i as int].0 == self.entries@[i as int].path@);
            if order_parts(&self.entries[i].parts, parts) == 0 {
                return Some(i);
            }
            i = i + 1;
        }
        None
    }

    /// The state recorded for `path`, if any.
    pub fn get(&self, path: &str) -> (r: Option<FileState>)
        ensures
            r == if has_path(self@, path@) {
                Some(state_of(self@, path@))
            } else {
                None
            },
    {
        proof {
            use_type_invariant(self);
        }
        let parts = path_parts_of(path);
        match self.find(&parts) {
            Some(i) => {
                proof {
                    assert(same_path(self@[i as int].0, path@));
                    let k = index_of_path(self@, path@);
                    if k != i {
                        assert(same_path(self@[k].0, self@[i as int].0));
                    }
                }
                Some(self.entries[i].state)
            },
            None => {
                proof {
                    assert(!has_path(self@, path@));
                }
                None
            },
        }
    }

    /// Whether the table has an entry for `path`.
    pub fn contains_key(&self, path: &str) -> (b: bool)
        ensures
            b == has_path(self@, path@),
    {
        self.get(path).is_some()
    }

    /// Records `state` for `path`, as `HashMap::insert` does: an entry for the
    /// same path keeps its key and takes the new state, and the old state is
    /// returned; otherwise the entry is added.
    pub fn insert(&mut self, path: String, state: FileState) -> (old_state: Option<FileState>)
        ensures
            final(self)@ == map_insert(old(self)@, path@, state),
            old_state == if has_path(old(self)@, path@) {
                Some(state_of(old(self)@, path@))
            } else {
                None
            },
    {
        proof {
            use_type_invariant(&*self);
        }
        let parts = path_parts_of(path.as_str());
        let found = self.find(&parts);
        let mut entries: Vec<FileEntry> = Vec::new();
        std::mem::swap(&mut entries, &mut self.entries);
        let ghost before = entries@.map_values(|e: FileEntry| (e.path@, e.state));
        assert(before == old(self)@);
        match found {
            Some(i) => {
                let old_state = entries[i].state;
                let ghost k = index_of_path(before, path@);
                proof {
                    assert(same_path(before[i as int].0, path@));
                    if k != i {
                        assert(same_path(before[k].0, before[i as int].0));
                    }
                }
                let e = entries.remove(i);
                let updated = FileEntry { path: e.path, parts: e.parts, state };
                entries.insert(i, updated);
                proof {
                    let after = entries@.map_values(|e: FileEntry| (e.path@, e.state));
                    assert(after =~= map_insert(before, path@, state));
                }
                self.entries = entries;
                Some(old_state)
            },
            None => {
                proof {
                    assert(!has_path(before, path@));
                }
                let e = FileEntry { path, parts, state };
                entries.push(e);
                proof {
                    let after = entries@.map_values(|e: FileEntry| (e.path@, e.state));
                    assert(after =~= map_insert(before, e.path@, state));
                }
                self.entries = entries;
                None
            },
        }
    }
}

/// The manifest persisted next to an index.
#[derive(Debug)]
pub struct Manifest {
    pub version: u32,
    /// Source paths (as the caller supplied them) to their last-seen state.
    pub files: FileStates,
}

impl Manifest {
    /// A fresh manifest at the current schema version with no files.
    pub fn new() -> (m: Manifest)
        ensures
            m.version == MANIFEST_VERSION,
            m.files@ == Seq::<(Seq<char>, FileState)>::empty(),
    {
        Manifest { version: MANIFEST_VERSION, files: FileStates::new() }
    }

    /// Whether a manifest recorded at `version` can be used: only one at the
    /// current schema version can. Checked on the version alone, before the
    /// rest of a manifest is read, so a manifest of another version is never
    /// read into this shape.
    pub fn is_current_version(version: u32) -> (b: bool)
        ensures
            b == (version == MANIFEST_VERSION),
    {
        version == MANIFEST_VERSION
    }

    /// The version gate of loading: a manifest read from disk is usable only
    /// at the current schema version.
    pub fn usable(self) -> (r: Option<Manifest>)
        ensures
            self.version == MANIFEST_VERSION ==> r == Some(self),
            self.version != MANIFEST_VERSION ==> r is None,
    {
        if Manifest::is_current_version(self.version) {
            Some(self)
        } else {
            None
        }
    }
}

impl Default for Manifest {
    /// A manifest of version 0 with no files.
    fn default() -> (m: Manifest)
        ensures
            m.version == 0,
            m.files@ == Seq::<(Seq<char>, FileState)>::empty(),
    {
        Manifest { version: 0, files: FileStates::new() }
    }
}

/// Collects the states of a batch of files, stat results in path order, into
/// a table (a later result for the same path replaces the earlier state).
pub fn stat_all(stats: Vec<(String, FileState)>) -> (t: FileStates)
    ensures
        t@ == insert_all(Seq::empty(), stats@.map_values(|x: (String, FileState)| (x.0@, x.1))),
{
    let ghost all = stats@.map_values(|x: (String, FileState)| (x.0@, x.1));
    let mut t = FileStates::new();
    let mut i: usize = 0;
    let n = stats.len();
    while i < n
        invariant
            n == all.len(),
            n == stats@.len(),
            all == stats@.map_values(|x: (String, FileState)| (x.0@, x.1)),
            i <= n,
            t@ == insert_all(Seq::empty(), all.take(i as int)),
        decreases n - i,
    {
        let p = stats[i].0.clone();
        let s = stats[i].1;
        proof {
            assert(all.take(i + 1).drop_last() == all.take(i as int));
            assert(all.take(i + 1).last() == all[i as int]);
        }
        t.insert(p, s);
        i = i + 1;
    }
    proof {
        assert(all.take(n as int) == all);
    }
    t
}

/// Per-file classification produced by [`diff`].
#[derive(Debug, Default, PartialEq, Eq)]
pub struct ManifestDiff {
    /// Files present now that weren't in the prior manifest.
    pub new: Vec<String>,
    /// Files present in both, with different mtime or size.
    pub changed: Vec<String>,
    /// Files in the prior manifest that no longer exist in the current corpus.
    pub removed: Vec<String>,
    /// Files present in both, unchanged.
    pub unchanged: Vec<String>,
}

impl ManifestDiff {
    /// True when no re-indexing work is required.
    pub fn is_empty(&self) -> (b: bool)
        ensures
            b == (self.new@.len() == 0 && self.changed@.len() == 0 && self.removed@.len() == 0),
    {
        self.new.len() == 0 && self.changed.len() == 0 && self.removed.len() == 0
    }
}

/// A current file that the prior manifest does not know.
pub open spec fn is_new(cur: StateTable, prior: StateTable, p: Seq<char>) -> bool {
    is_key(cur, p) && !has_path(prior, p)
}

/// A current file that the prior manifest knows with another state.
pub open spec fn is_changed(cur: StateTable, prior: StateTable, p: Seq<char>) -> bool {
    is_key(cur, p) && has_path(prior, p) && state_of(prior, p) != state_of(cur, p)
}

/// A current file that the prior manifest knows with the same state.
pub open spec fn is_unchanged(cur: StateTable, prior: StateTable, p: Seq<char>) -> bool {
    is_key(cur, p) && has_path(prior, p) && state_of(prior, p) == state_of(cur, p)
}

/// A file of the prior manifest that is no longer current.
pub open spec fn is_removed(cur: StateTable, prior: StateTable, p: Seq<char>) -> bool {
    is_key(prior, p) && !has_path(cur, p)
}

/// Whether `q` is the key text of one of the first `i` entries of `m`.
pub open spec fn key_below(m: StateTable, i: int, q: Seq<char>) -> bool {
    exists|j: int| 0 <= j < i && #[trigger] m[j].0 == q
}

proof fn lemma_key_below_step(m: StateTable, i: int)
    requires
        0 <= i < m.len(),
    ensures
        forall|q: Seq<char>| #[trigger] key_below(m, i + 1, q) <==> (key_below(m, i, q) || q == m[i].0),
{
    assert forall|q: Seq<char>| #[trigger] key_below(m, i + 1, q) <==> (key_below(m, i, q) || q == m[i].0) by {
        if q == m[i].0 {
            assert(m[i].0 == q);
        }
        if key_below(m, i + 1, q) {
            let j = choose|j: int| 0 <= j < i + 1 && #[trigger] m[j].0 == q;
            if j < i {
                assert(key_below(m, i, q));
            }
        }
    }
}

proof fn lemma_key_below_all(m: StateTable)
    ensures
        forall|q: Seq<char>| #[trigger] key_below(m, m.len() as int, q) <==> is_key(m, q),
{
}

/// In a table without repeats, the entry for the key of entry `i` is entry `i`.
pub proof fn lemma_index_of_own_key(m: StateTable, i: int)
    requires
        unique_paths(m),
        0 <= i < m.len(),
    ensures
        has_path(m, m[i].0),
        index_of_path(m, m[i].0) == i,
        state_of(m, m[i].0) == m[i].1,
{
    assert(same_path(m[i].0, m[i].0));
    let k = index_of_path(m, m[i].0);
    if k != i {
        assert(same_path(m[k].0, m[i].0));
    }
}

/// Keys of `m` below position `i` for which `pick` holds, as pushed in order.
proof fn lemma_distinct_push(m: StateTable, list: Seq<Seq<char>>, i: int)
    requires
        unique_paths(m),
        0 <= i < m.len(),
        distinct_paths(list),
        forall|q: Seq<char>| list.contains(q) ==> key_below(m, i, q),
    ensures
        distinct_paths(list.push(m[i].0)),
{
    let l2 = list.push(m[i].0);
    assert forall|a: int, b: int|
        0 <= a < l2.len() && 0 <= b < l2.len() && a != b implies !same_path(
        #[trigger] l2[a],
        #[trigger] l2[b],
    ) by {
        if a == list.len() {
            assert(list.contains(l2[b]));
            let j = choose|j: int| 0 <= j < i && #[trigger] m[j].0 == l2[b];
            assert(!same_path(m[i].0, m[j].0));
        } else if b == list.len() {
            assert(list.contains(l2[a]));
            let j = choose|j: int| 0 <= j < i && #[trigger] m[j].0 == l2[a];
            assert(!same_path(m[j].0, m[i].0));
        }
    }
}

/// Compares the current corpus state against a prior manifest. Each list is
/// sorted by path so reports get a stable shape.
pub fn diff(current: &FileStates, prior: &Manifest) -> (d: ManifestDiff)
    ensures
        sorted_paths(strs(d.new@)),
        sorted_paths(strs(d.changed@)),
        sorted_paths(strs(d.removed@)),
        sorted_paths(strs(d.unchanged@)),
        forall|p: Seq<char>| strs(d.new@).contains(p) <==> is_new(current@, prior.files@, p),
        forall|p: Seq<char>| strs(d.changed@).contains(p) <==> is_changed(current@, prior.files@, p),
        forall|p: Seq<char>| strs(d.removed@).contains(p) <==> is_removed(current@, prior.files@, p),
        forall|p: Seq<char>|
            strs(d.unchanged@).contains(p) <==> is_unchanged(current@, prior.files@, p),
{
    proof {
        use_type_invariant(current);
        use_type_invariant(&prior.files);
    }
    let ghost cur = current@;
    let ghost pri = prior.files@;
    let mut new: Vec<String> = Vec::new();
    let mut changed: Vec<String> = Vec::new();
    let mut unchanged: Vec<String> = Vec::new();
    let mut i: usize = 0;
    while i < current.len()
        invariant
            cur == current@,
            pri == prior.files@,
            unique_paths(cur),
            i <= cur.len(),
            distinct_paths(strs(new@)),
            distinct_paths(strs(changed@)),
            distinct_paths(strs(unchanged@)),
            forall|q: Seq<char>|
                #[trigger] strs(new@).contains(q) <==> key_below(cur, i as int, q) && !has_path(pri, q),
            forall|q: Seq<char>|
                #[trigger] strs(changed@).contains(q) <==> key_below(cur, i as int, q) && has_path(pri, q)
                    && state_of(pri, q) != state_of(cur, q),
            forall|q: Seq<char>|
                #[trigger] strs(unchanged@).contains(q) <==> key_below(cur, i as int, q) && has_path(
                    pri,
                    q,
                ) && state_of(pri, q) == state_of(cur, q),
        decreases cur.len() - i,
    {
        let p = current.path_at(i).clone();
        let st = current.state_at(i);
        proof {
            lemma_index_of_own_key(cur, i as int);
        }
        let ghost q0 = p@;
        match prior.files.get(p.as_str()) {
            None => {
                proof {
                    lemma_distinct_push(cur, strs(new@), i as int);
                    assert(strs(new@.push(p)) == strs(new@).push(q0));
                    lemma_push_contains(strs(new@), q0);
                }
                new.push(p);
            },
            Some(ps) => {
                if ps != st {
                    proof {
                        lemma_distinct_push(cur, strs(changed@), i as int);
                        assert(strs(changed@.push(p)) == strs(changed@).push(q0));
                        lemma_push_contains(strs(changed@), q0);
                    }
                    changed.push(p);
                } else {
                    proof {
                        lemma_distinct_push(cur, strs(unchanged@), i as int);
                        assert(strs(unchanged@.push(p)) == strs(unchanged@).push(q0));
                        lemma_push_contains(strs(unchanged@), q0);
                    }
                    unchanged.push(p);
                }
            },
        }
        proof {
            lemma_key_below_step(cur, i as int);
        }
        i = i + 1;
    }
    let mut removed: Vec<String> = Vec::new();
    let mut k: usize = 0;
    while k < prior.files.len()
        invariant
            cur == current@,
            pri == prior.files@,
            unique_paths(pri),
            k <= pri.len(),
            distinct_paths(strs(removed@)),
            forall|q: Seq<char>|
                #[trigger] strs(removed@).contains(q) <==> key_below(pri, k as int, q) && !has_path(
                    cur,
                    q,
                ),
        decreases pri.len() - k,
    {
        let p = prior.files.path_at(k).clone();
        let ghost q0 = p@;
        if !current.contains_key(p.as_str()) {
            proof {
                lemma_distinct_push(pri, strs(removed@), k as int);
                assert(strs(removed@.push(p)) == strs(removed@).push(q0));
                lemma_push_contains(strs(removed@), q0);
            }
            removed.push(p);
        }
        proof {
            lemma_key_below_step(pri, k as int);
        }
        k = k + 1;
    }
    proof {
        lemma_key_below_all(cur);
        lemma_key_below_all(pri);
    }
    let d = ManifestDiff {
        new: sort_paths(&new),
        changed: sort_paths(&changed),
        removed: sort_paths(&removed),
        unchanged: sort_paths(&unchanged),
    };
    d
}

/// Law: recording a state and reading it back gives that state; the entries
/// still name distinct paths; and every other path keeps what it had.
pub proof fn law_insert_then_get(m: StateTable, p: Seq<char>, st: FileState, q: Seq<char>)
    requires
        unique_paths(m),
    ensures
        unique_paths(map_insert(m, p, st)),
        has_path(map_insert(m, p, st), p),
        state_of(map_insert(m, p, st), p) == st,
        !same_path(q, p) ==> has_path(map_insert(m, p, st), q) == has_path(m, q),
        !same_path(q, p) && has_path(m, q) ==> state_of(map_insert(m, p, st), q) == state_of(m, q),
{
    let n = map_insert(m, p, st);
    if has_path(m, p) {
        let k = index_of_path(m, p);
        assert(same_path(m[k].0, p));
        assert forall|i: int| 0 <= i < n.len() implies (#[trigger] n[i]).0 == m[i].0 by {}
        assert(unique_paths(n));
        assert(same_path(n[k].0, p));
        let j = index_of_path(n, p);
        if j != k {
            assert(same_path(n[j].0, n[k].0));
        }
        if !same_path(q, p) && has_path(m, q) {
            let a = index_of_path(m, q);
            let b = index_of_path(n, q);
            assert(same_path(n[a].0, q));
            if a != b {
                assert(same_path(n[b].0, n[a].0));
            }
        }
        if !same_path(q, p) && has_path(n, q) {
            let b = index_of_path(n, q);
            assert(same_path(m[b].0, q));
        }
    } else {
        let k = m.len() as int;
        assert(n[k].0 == p);
        assert forall|i: int, j: int|
            0 <= i < n.len() && 0 <= j < n.len() && i != j implies !same_path(
            #[trigger] n[i].0,
            #[trigger] n[j].0,
        ) by {
            if i == k {
                assert(!same_path(m[j].0, p));
            } else if j == k {
                assert(!same_path(m[i].0, p));
            }
        }
        assert(same_path(n[k].0, p));
        let j = index_of_path(n, p);
        if j != k {
            assert(n[j] == m[j]);
            assert(same_path(m[j].0, p));
        }
        if !same_path(q, p) && has_path(m, q) {
            let a = index_of_path(m, q);
            let b = index_of_path(n, q);
            assert(n[a] == m[a]);
            assert(same_path(n[a].0, q));
            if a != b {
                assert(same_path(n[b].0, n[a].0));
            }
        }
        if !same_path(q, p) && has_path(n, q) {
            let b = index_of_path(n, q);
            assert(b != k);
            assert(same_path(m[b].0, q));
        }
    }
}

/// Law: comparing a corpus with a manifest of the same states finds nothing
/// new, changed or removed: an incremental build then does no work.
pub proof fn law_diff_against_itself(m: StateTable, p: Seq<char>)
    requires
        unique_paths(m),
    ensures
        !is_new(m, m, p),
        !is_changed(m, m, p),
        !is_removed(m, m, p),
        is_key(m, p) ==> is_unchanged(m, m, p),
{
    if is_key(m, p) {
        let i = choose|i: int| 0 <= i < m.len() && #[trigger] m[i].0 == p;
        lemma_index_of_own_key(m, i);
    }
}

/// Law: each current file falls in exactly one of new, changed and
/// unchanged, and no removed file is current.
pub proof fn law_diff_partition(cur: StateTable, prior: StateTable, p: Seq<char>)
    ensures
        is_key(cur, p) ==> (is_new(cur, prior, p) || is_changed(cur, prior, p) || is_unchanged(
            cur,
            prior,
            p,
        )),
        !(is_new(cur, prior, p) && is_changed(cur, prior, p)),
        !(is_new(cur, prior, p) && is_unchanged(cur, prior, p)),
        !(is_changed(cur, prior, p) && is_unchanged(cur, prior, p)),
        is_removed(cur, prior, p) ==> !is_key(cur, p),
{
    if is_key(cur, p) {
        let i = choose|i: int| 0 <= i < cur.len() && #[trigger] cur[i].0 == p;
        assert(same_path(cur[i].0, p));
    }
}

} // verus!
