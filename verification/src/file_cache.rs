//! In-memory cache of source files with recency-based eviction.
//!
//! The cache resolves a (path, byte offset) pair to the line that starts at
//! that offset in the cached copy of the file.  On a miss the caller loads
//! the file's bytes and hands them to `insert`, which first decides, from the
//! host's available memory, whether the entry with the lowest recency score
//! must be evicted.  Every resolution bumps the resolved entry's recency
//! score and ages every other entry.

use vstd::prelude::*;

verus! {

use vstd::string::StringExecFns;

/// Ghost model of one cache entry.
pub ghost struct EntryModel {
    pub path: Seq<char>,
    pub content: Seq<u8>,
    pub score: int,
}

/// One cached source file: its path, its full byte content, and its
/// recency score (a relative ranking, not a timestamp).
pub struct CacheEntry {
    pub path: String,
    pub content: Vec<u8>,
    pub score: i64,
}

impl View for CacheEntry {
    type V = EntryModel;

    open spec fn view(&self) -> EntryModel {
        EntryModel { path: self.path@, content: self.content@, score: self.score as int }
    }
}

/// Whether some entry of the model holds `path`.
pub open spec fn cache_contains(m: Seq<EntryModel>, path: Seq<char>) -> bool {
    exists|i: int| 0 <= i < m.len() && m[i].path == path
}

/// The index of the entry holding `path` (meaningful only when present).
pub open spec fn index_of(m: Seq<EntryModel>, path: Seq<char>) -> int {
    choose|i: int| 0 <= i < m.len() && m[i].path == path
}

/// The cached content under `path` (meaningful only when present).
pub open spec fn content_of(m: Seq<EntryModel>, path: Seq<char>) -> Seq<u8> {
    m[index_of(m, path)].content
}

/// The index just past the line that starts at `start`: the position of the
/// first line terminator at or after `start`, or the end of the content if
/// none remains.
pub open spec fn line_end(content: Seq<u8>, start: int) -> int
    decreases content.len() - start,
{
    if start >= content.len() {
        content.len() as int
    } else if content[start] == 10 {
        start
    } else {
        line_end(content, start + 1)
    }
}

/// The line that starts at byte `start` of `content`: the bytes up to and
/// including the next line terminator, up to the end of the content if none
/// remains, and empty when `start` is at or past the end.
pub open spec fn line_at(content: Seq<u8>, start: int) -> Seq<u8> {
    if !(0 <= start < content.len()) {
        Seq::empty()
    } else if line_end(content, start) < content.len() {
        content.subrange(start, line_end(content, start) + 1)
    } else {
        content.subrange(start, content.len() as int)
    }
}

/// The recency bookkeeping of one resolution of `path`: the resolved
/// entry's score goes up by one, every other entry's score goes down by
/// one; paths and contents are untouched.
pub open spec fn touch_model(m: Seq<EntryModel>, path: Seq<char>) -> Seq<EntryModel> {
    Seq::new(
        m.len(),
        |i: int|
            EntryModel {
                path: m[i].path,
                content: m[i].content,
                score: if m[i].path == path {
                    m[i].score + 1
                } else {
                    m[i].score - 1
                },
            },
    )
}

/// The smallest index holding the minimal recency score (meaningful only
/// for a non-empty model).
pub open spec fn min_score_index(m: Seq<EntryModel>) -> int
    decreases m.len(),
{
    if m.len() <= 1 {
        0
    } else {
        let r = min_score_index(m.drop_last());
        if m.last().score < m[r].score {
            m.len() - 1
        } else {
            r
        }
    }
}

/// The eviction heuristic: evict when the available memory is below one and
/// a half times the candidate file's size.
pub open spec fn spec_should_evict(avail: int, size: int) -> bool {
    2 * avail < 3 * size
}

/// The state after inserting `path` with `content`: when `evict` is set and
/// the cache is non-empty, the entry with the lowest recency score leaves
/// first; the new entry enters with score zero.
pub open spec fn insert_model(
    m: Seq<EntryModel>,
    path: Seq<char>,
    content: Seq<u8>,
    evict: bool,
) -> Seq<EntryModel> {
    let base = if evict && m.len() > 0 {
        m.remove(min_score_index(m))
    } else {
        m
    };
    base.push(EntryModel { path: path, content: content, score: 0 })
}

/// Every score leaves room for one increment or decrement.
pub open spec fn scores_ok(m: Seq<EntryModel>) -> bool {
    forall|i: int| 0 <= i < m.len() ==> i64::MIN < #[trigger] m[i].score < i64::MAX
}

/// The in-memory file cache.  At most one entry per path.
pub struct FileCache {
    entries: Vec<CacheEntry>,
    sys: sysinfo::System,
}

impl View for FileCache {
    type V = Seq<EntryModel>;

    closed spec fn view(&self) -> Seq<EntryModel> {
        self.entries@.map_values(|e: CacheEntry| e@)
    }
}

/// sysinfo's `System` carries the host statistics that the eviction
/// heuristic reads; the cache only stores one and calls its memory queries.
#[verifier::external_type_specification]
#[verifier::external_body]
pub struct ExSystem(sysinfo::System);

/// Relies on sysinfo's `System::new`: builds a probe with nothing loaded.
pub assume_specification[ sysinfo::System::new ]() -> sysinfo::System;

/// Relies on sysinfo's `System::refresh_memory`: refreshes the probe's RAM
/// statistics in place; nothing is promised of the values it reads.
pub assume_specification[ sysinfo::System::refresh_memory ](s: &mut sysinfo::System);

/// Relies on sysinfo's `System::total_memory`: the host's total RAM in
/// bytes, a machine-dependent value of which nothing is promised.
pub assume_specification[ sysinfo::System::total_memory ](s: &sysinfo::System) -> u64;

/// Relies on sysinfo's `System::used_memory`: the host's used RAM in bytes,
/// a machine-dependent value of which nothing is promised.
pub assume_specification[ sysinfo::System::used_memory ](s: &sysinfo::System) -> u64;

impl FileCache {
    /// Paths are pairwise distinct: the cache is keyed by path.
    pub open spec fn wf(self) -> bool {
        forall|i: int, j: int|
            0 <= i < j < self@.len() ==> self@[i].path != self@[j].path
    }

    /// An empty cache.
    pub fn new() -> (r: FileCache)
        ensures
            r@ == Seq::<EntryModel>::empty(),
            r.wf(),
    {
        let r = FileCache { entries: Vec::new(), sys: sysinfo::System::new() };
        proof {
            assert(r@ =~= Seq::<EntryModel>::empty());
        }
        r
    }

    /// The position of `file` in the cache, if it is present.
    fn position_of(&self, file: &str) -> (r: Option<usize>)
        ensures
            match r {
                Some(i) => 0 <= i < self@.len() && self@[i as int].path == file@,
                None => !cache_contains(self@, file@),
            },
    {
        let key: String = String::from_str(file);
        let n = self.entries.len();
        let mut i: usize = 0;
        while i < n
            invariant
                0 <= i <= n,
                n == self@.len(),
                key@ == file@,
                forall|j: int| 0 <= j < i ==> self@[j].path != file@,
            decreases n - i,
        {
            assert(self@[i as int] == self.entries@[i as int]@);
            if self.entries[i].path == key {
                return Some(i);
            }
            i = i + 1;
        }
        None
    }

    /// Whether `file` is currently cached.
    pub fn contains(&self, file: &str) -> (r: bool)
        ensures
            r == cache_contains(self@, file@),
    {
        let p = self.position_of(file);
        if p.is_some() {
            proof {
                assert(cache_contains(self@, file@));
            }
            true
        } else {
            false
        }
    }

    /// Whether every recency score leaves room for one more resolution.
    pub fn scores_in_range(&self) -> (r: bool)
        ensures
            r == scores_ok(self@),
    {
        let n = self.entries.len();
        let mut i: usize = 0;
        while i < n
            invariant
                0 <= i <= n,
                n == self@.len(),
                forall|j: int| 0 <= j < i ==> i64::MIN < #[trigger] self@[j].score < i64::MAX,
            decreases n - i,
        {
            assert(self@[i as int] == self.entries@[i as int]@);
            let s = self.entries[i].score;
            if !(i64::MIN < s && s < i64::MAX) {
                proof {
                    assert(!(i64::MIN < self@[i as int].score < i64::MAX));
                }
                return false;
            }
            i = i + 1;
        }
        true
    }

    /// Resolves the cached `file` to the line starting at byte `start`.
    ///
    /// Returns the bytes from `start` up to and including the next line
    /// terminator (or up to the end of the content if none remains; empty
    /// when `start` is at or past the end), and performs the recency
    /// bookkeeping of one resolution: `file`'s score goes up by one, every
    /// other entry's score goes down by one.  Contents are never changed.
    pub fn get(&mut self, file: &str, start: u64) -> (line: Vec<u8>)
        requires
            old(self).wf(),
            cache_contains(old(self)@, file@),
            scores_ok(old(self)@),
        ensures
            final(self).wf(),
            final(self)@ == touch_model(old(self)@, file@),
            line@ == line_at(content_of(old(self)@, file@), start as int),
    {
        let ghost m0 = self@;
        let idx_opt = self.position_of(file);
        proof {
            if idx_opt is None {
                assert(false);
            }
        }
        let idx = idx_opt.unwrap();
        proof {
            lemma_index_of_unique(m0, file@, idx as int);
        }

        // Recency bookkeeping: bump the resolved entry, age the others.
        let n = self.entries.len();
        let mut k: usize = 0;
        while k < n
            invariant
                0 <= k <= n,
                n == self.entries@.len(),
                m0.len() == n,
                0 <= idx < n,
                m0[idx as int].path == file@,
                forall|j: int| 0 <= j < n && j != idx ==> m0[j].path != file@,
                scores_ok(m0),
                forall|j: int| #![trigger self.entries@[j]] k <= j < n ==> self.entries@[j]@
                    == m0[j],
                forall|j: int| #![trigger self.entries@[j]] 0 <= j < k ==> self.entries@[j]@
                    == touch_model(m0, file@)[j],
            decreases n - k,
        {
            proof {
                assert(self.entries@[k as int]@ == m0[k as int]);
                assert(i64::MIN < m0[k as int].score < i64::MAX);
            }
            let ghost prev = self.entries@;
            bump_score(&mut self.entries, k, k == idx);
            proof {
                assert(self.entries@[k as int]@ == touch_model(m0, file@)[k as int]);
                assert forall|j: int| 0 <= j < n && j != k implies self.entries@[j]@
                    == prev[j]@ by {
                    assert(self.entries@[j] == prev[j]);
                }
            }
            k = k + 1;
        }
        proof {
            assert forall|j: int| 0 <= j < n implies self@[j] == touch_model(m0, file@)[j] by {
                assert(self@[j] == self.entries@[j]@);
            }
            assert(self@.len() == n);
            assert(self@ =~= touch_model(m0, file@));
        }

        // Line extraction from the cached content.
        let entry = &self.entries[idx];
        let ghost c = entry.content@;
        proof {
            assert(entry@ == self@[idx as int]);
            assert(c == content_of(m0, file@));
        }
        let clen = entry.content.len();
        if start >= clen as u64 {
            let out: Vec<u8> = Vec::new();
            proof {
                assert(out@ =~= line_at(c, start as int));
            }
            return out;
        }
        let s = start as usize;
        let mut e: usize = s;
        while e < clen && entry.content[e] != 10u8
            invariant
                s <= e <= clen,
                clen == c.len(),
                entry.content@ == c,
                forall|j: int| s <= j < e ==> c[j] != 10,
            decreases clen - e,
        {
            e = e + 1;
        }
        proof {
            lemma_line_end_skip(c, s as int, e as int);
            if e < clen {
                assert(line_end(c, e as int) == e);
            } else {
                assert(line_end(c, e as int) == c.len());
            }
            assert(line_end(c, s as int) == e);
        }
        let stop = if e < clen {
            e + 1
        } else {
            e
        };
        let mut out: Vec<u8> = Vec::new();
        let mut j = s;
        while j < stop
            invariant
                s <= j <= stop <= clen,
                clen == c.len(),
                entry.content@ == c,
                out@ == c.subrange(s as int, j as int),
            decreases stop - j,
        {
            let b = entry.content[j];
            out.push(b);
            proof {
                assert(out@ =~= c.subrange(s as int, j + 1 as int));
            }
            j = j + 1;
        }
        proof {
            assert(out@ == c.subrange(s as int, stop as int));
            assert(out@ =~= line_at(c, start as int));
        }
        out
    }

    /// Removes the entry with the lowest recency score (the earliest such
    /// entry when scores tie); an empty cache is left unchanged.
    fn remove_oldest(&mut self)
        requires
            old(self).wf(),
        ensures
            final(self).wf(),
            old(self)@.len() == 0 ==> final(self)@ == old(self)@,
            old(self)@.len() > 0 ==> final(self)@ == old(self)@.remove(
                min_score_index(old(self)@),
            ),
    {
        let ghost m0 = self@;
        let n = self.entries.len();
        if n == 0 {
            return;
        }
        let mut best: usize = 0;
        let mut k: usize = 1;
        proof {
            assert(m0.subrange(0, 1) =~= seq![m0[0]]);
        }
        while k < n
            invariant
                1 <= k <= n,
                0 <= best < k,
                n == self.entries@.len(),
                m0 == self@,
                m0.len() == n,
                best as int == min_score_index(m0.subrange(0, k as int)),
            decreases n - k,
        {
            proof {
                assert(self@[k as int] == self.entries@[k as int]@);
                assert(self@[best as int] == self.entries@[best as int]@);
                let pre = m0.subrange(0, k as int);
                let post = m0.subrange(0, k + 1 as int);
                assert(post.drop_last() =~= pre);
                assert(post.last() == m0[k as int]);
                assert(pre[best as int] == m0[best as int]);
            }
            if self.entries[k].score < self.entries[best].score {
                best = k;
            }
            k = k + 1;
        }
        proof {
            assert(m0.subrange(0, n as int) =~= m0);
        }
        let ghost prev = self.entries@;
        self.entries.remove(best);
        proof {
            assert forall|j: int| 0 <= j < self@.len() implies self@[j] == m0.remove(
                best as int,
            )[j] by {
                assert(self@[j] == self.entries@[j]@);
                if j < best {
                    assert(self.entries@[j] == prev[j]);
                    assert(prev[j]@ == m0[j]);
                } else {
                    assert(self.entries@[j] == prev[j + 1]);
                    assert(prev[j + 1]@ == m0[j + 1]);
                }
            }
            assert(self@ =~= m0.remove(best as int));
            assert forall|a: int, b: int|
                0 <= a < b < self@.len() implies self@[a].path != self@[b].path by {
                let a0 = if a < best { a } else { a + 1 };
                let b0 = if b < best { b } else { b + 1 };
                assert(m0[a0].path != m0[b0].path);
            }
        }
    }

    /// Inserts `file` with its loaded `content`, deciding eviction from the
    /// given available-memory reading: exactly when the cache is non-empty
    /// and `avail` is below one and a half times `file_size`, the entry
    /// with the lowest recency score is evicted first.  The new entry
    /// enters with recency score zero.
    pub fn insert_with_memory(&mut self, file: &str, content: Vec<u8>, avail: u64, file_size: u64)
        requires
            old(self).wf(),
            !cache_contains(old(self)@, file@),
        ensures
            final(self).wf(),
            final(self)@ == insert_model(
                old(self)@,
                file@,
                content@,
                spec_should_evict(avail as int, file_size as int),
            ),
    {
        let ghost m0 = self@;
        let evict = (avail as u128) * 2 < (file_size as u128) * 3;
        proof {
            assert(evict == spec_should_evict(avail as int, file_size as int));
        }
        if evict {
            self.remove_oldest();
        }
        let ghost base = self@;
        proof {
            assert forall|j: int| 0 <= j < base.len() implies base[j].path != file@ by {
                if m0.len() > 0 && evict {
                    let r = min_score_index(m0);
                    lemma_min_score_index_in_range(m0);
                    let j0 = if j < r {
                        j
                    } else {
                        j + 1
                    };
                    assert(base[j] == m0[j0]);
                }
            }
        }
        let entry = CacheEntry { path: String::from_str(file), content: content, score: 0 };
        let ghost e_model = entry@;
        self.entries.push(entry);
        proof {
            let target = insert_model(m0, file@, content@, evict);
            assert forall|j: int| 0 <= j < self@.len() implies self@[j] == target[j] by {
                assert(self@[j] == self.entries@[j]@);
            }
            assert(self@ =~= target);
            assert(e_model.path == file@);
            assert forall|a: int, b: int|
                0 <= a < b < self@.len() implies self@[a].path != self@[b].path by {
                if b < self@.len() - 1 {
                    assert(base[a].path != base[b].path);
                } else {
                    assert(base[a].path != file@);
                }
            }
        }
    }

    /// Inserts `file` with its loaded `content` on a cache miss, reading the
    /// host's memory statistics live to decide eviction.  Whatever the
    /// reading, at most the one entry with the lowest recency score leaves,
    /// and the new entry enters with recency score zero.
    pub fn insert(&mut self, file: &str, content: Vec<u8>, file_size: u64)
        requires
            old(self).wf(),
            !cache_contains(old(self)@, file@),
        ensures
            final(self).wf(),
            exists|evict: bool|
                final(self)@ == insert_model(old(self)@, file@, content@, evict),
    {
        self.sys.refresh_memory();
        let total = self.sys.total_memory();
        let used = self.sys.used_memory();
        let avail = if used <= total {
            total - used
        } else {
            0
        };
        proof {
            assert(self@ == old(self)@);
            assert(self.wf());
        }
        self.insert_with_memory(file, content, avail, file_size);
    }
}

/// The smallest index of the minimal score is in range and minimal: no
/// entry scores below it, and every earlier entry scores strictly above it.
pub proof fn lemma_min_score_index_in_range(m: Seq<EntryModel>)
    requires
        m.len() > 0,
    ensures
        0 <= min_score_index(m) < m.len(),
        forall|i: int| 0 <= i < m.len() ==> m[min_score_index(m)].score <= #[trigger] m[i].score,
        forall|i: int| 0 <= i < min_score_index(m) ==> m[min_score_index(m)].score < #[trigger] m[i].score,
    decreases m.len(),
{
    if m.len() > 1 {
        lemma_min_score_index_in_range(m.drop_last());
        assert forall|i: int| 0 <= i < m.len() implies m[min_score_index(m)].score
            <= #[trigger] m[i].score by {
            if i < m.len() - 1 {
                assert(m.drop_last()[i] == m[i]);
            }
        }
        assert forall|i: int| 0 <= i < min_score_index(m) implies m[min_score_index(m)].score
            < #[trigger] m[i].score by {
            assert(m.drop_last()[i] == m[i]);
            let r = min_score_index(m.drop_last());
            assert(m.drop_last()[r] == m[r]);
        }
    }
}

/// Adjusts one entry's recency score by one, up or down, leaving every
/// other entry and the entry's own path and content untouched.
fn bump_score(entries: &mut Vec<CacheEntry>, k: usize, up: bool)
    requires
        k < old(entries)@.len(),
        i64::MIN < old(entries)@[k as int].score < i64::MAX,
    ensures
        final(entries)@.len() == old(entries)@.len(),
        forall|j: int|
            0 <= j < final(entries)@.len() && j != k ==> #[trigger] final(entries)@[j] == old(
                entries,
            )@[j],
        final(entries)@[k as int]@.path == old(entries)@[k as int]@.path,
        final(entries)@[k as int]@.content == old(entries)@[k as int]@.content,
        final(entries)@[k as int]@.score == old(entries)@[k as int]@.score + (if up {
            1int
        } else {
            -1int
        }),
{
    let e = &mut entries[k];
    if up {
        e.score = e.score + 1;
    } else {
        e.score = e.score - 1;
    }
}

/// When the cache is well formed, the entry found at a position holding
/// `path` is the entry `index_of` denotes.
proof fn lemma_index_of_unique(m: Seq<EntryModel>, path: Seq<char>, i: int)
    requires
        forall|a: int, b: int| 0 <= a < b < m.len() ==> m[a].path != m[b].path,
        0 <= i < m.len(),
        m[i].path == path,
    ensures
        index_of(m, path) == i,
        forall|j: int| 0 <= j < m.len() && j != i ==> m[j].path != path,
{
    assert(cache_contains(m, path));
    let w = index_of(m, path);
    if w != i {
        if w < i {
            assert(m[w].path != m[i].path);
        } else {
            assert(m[i].path != m[w].path);
        }
        assert(false);
    }
}

/// Law: resolution is content-deterministic.  A resolution of any path
/// performs recency bookkeeping only: it changes no entry's path or
/// content, so a later resolution of the same (path, offset) pair — after
/// any resolutions in between — returns byte-identical lines.
pub proof fn lemma_resolution_deterministic(
    m: Seq<EntryModel>,
    touched: Seq<char>,
    path: Seq<char>,
    start: int,
)
    requires
        forall|a: int, b: int| 0 <= a < b < m.len() ==> m[a].path != m[b].path,
        cache_contains(m, path),
    ensures
        cache_contains(touch_model(m, touched), path),
        content_of(touch_model(m, touched), path) == content_of(m, path),
        line_at(content_of(touch_model(m, touched), path), start) == line_at(
            content_of(m, path),
            start,
        ),
{
    let i = index_of(m, path);
    assert(0 <= i < m.len() && m[i].path == path);
    let t = touch_model(m, touched);
    assert(t[i].path == path);
    assert(cache_contains(t, path));
    assert forall|a: int, b: int| 0 <= a < b < t.len() implies t[a].path != t[b].path by {
        assert(m[a].path != m[b].path);
    }
    lemma_index_of_unique(t, path, i);
    assert(content_of(t, path) == t[i].content);
    lemma_index_of_unique(m, path, i);
}

/// Law: a resolution whose offset is at or past the end of the cached
/// content returns an empty result rather than failing.
pub proof fn lemma_eof_resolution_empty(content: Seq<u8>, start: int)
    requires
        start >= content.len(),
    ensures
        line_at(content, start).len() == 0,
{
}

/// Law: immediately after a resolution of `path`, its recency score is
/// strictly greater than every other cached entry's, provided no other
/// entry's score exceeded `path`'s by more than one beforehand.  (The
/// bound is necessary: one bookkeeping step closes a score gap by exactly
/// two, so an entry further ahead stays ahead.)
pub proof fn lemma_recency_strictly_greatest(
    m: Seq<EntryModel>,
    path: Seq<char>,
    i: int,
    j: int,
)
    requires
        0 <= i < m.len(),
        0 <= j < m.len(),
        i != j,
        m[i].path == path,
        m[j].path != path,
        m[j].score <= m[i].score + 1,
    ensures
        touch_model(m, path)[j].score < touch_model(m, path)[i].score,
{
}

/// Skipping a run of non-terminator bytes does not move the line's end.
proof fn lemma_line_end_skip(c: Seq<u8>, s: int, e: int)
    requires
        0 <= s <= e <= c.len(),
        forall|j: int| s <= j < e ==> c[j] != 10,
    ensures
        line_end(c, s) == line_end(c, e),
    decreases e - s,
{
    if s < e {
        assert(c[s] != 10);
        lemma_line_end_skip(c, s + 1, e);
    }
}

} // verus!
