//! File registry.
//!
//! Accumulates `(path, content)` pairs, deduplicates them by path, assigns
//! each surviving path a small deterministic identifier (1, 2, 3, … in
//! path-sorted order; 0 is reserved to mean "no file"), and keeps every
//! file's bytes in one consolidated buffer.

use crate::clo::CompactLineOffsets;
use crate::clo::line_starts;
use crate::fid::FileId;
use crate::fid::SourceFilePosition;
use crate::ord::bytes_eq;
use crate::ord::bytes_lt;
use crate::ord::lex_lt;
use std::sync::Arc;
use std::sync::Mutex;
use vstd::prelude::*;
use vstd::utf8::encode_utf8;

verus! {

/// Default preallocation: expected number of files per registry.
pub const DEFAULT_FILE_COUNT: usize = 100;

/// Default preallocation: expected average file size in bytes.
pub const DEFAULT_AVG_SIZE: usize = 2048;

/// Relies on `std::sync::Mutex` as a type: declared opaquely so a shared
/// statistics handle can be stored and passed around; its contents are only
/// reached through the two lock wrappers below.
#[verifier::external_type_specification]
#[verifier::external_body]
#[verifier::reject_recursive_types(T)]
pub struct ExMutex<T: ?Sized>(Mutex<T>);

/// Process-wide statistics shared between registry instances: what the last
/// finalized registry looked like. Purely advisory (it sizes preallocations);
/// no result of the registry depends on it.
#[derive(Debug, Clone, Copy)]
pub struct RuntimeFeedback {
    /// Number of files in the most recently finalized registry.
    pub total_files: usize,
    /// Total content bytes in the most recently finalized registry.
    pub total_bytes: u64,
    /// Largest single file size in the most recently finalized registry.
    pub max_file_size: usize,
    /// How many registries have been finalized against this context.
    pub usage_count: u32,
}

impl Default for RuntimeFeedback {
    /// The all-zero statistics.
    fn default() -> (r: Self)
        ensures
            r.total_files == 0,
            r.total_bytes == 0,
            r.max_file_size == 0,
            r.usage_count == 0,
    {
        RuntimeFeedback { total_files: 0, total_bytes: 0, max_file_size: 0, usage_count: 0 }
    }
}

/// Relies on `std::sync::Mutex::lock`: takes the lock and copies the shared
/// statistics out. Nothing is promised of the value read: another thread may
/// have written anything. A poisoned lock is recovered, not propagated.
#[verifier::external_body]
fn read_feedback(handle: &Arc<Mutex<RuntimeFeedback>>) -> RuntimeFeedback {
    match handle.lock() {
        Ok(guard) => *guard,
        Err(poisoned) => *poisoned.into_inner(),
    }
}

/// Relies on `std::sync::Mutex::lock`: takes the lock and overwrites the
/// shared statistics with `stats` (last writer wins). A poisoned lock is
/// recovered, not propagated.
#[verifier::external_body]
fn write_feedback(handle: &Arc<Mutex<RuntimeFeedback>>, stats: RuntimeFeedback) {
    match handle.lock() {
        Ok(mut guard) => *guard = stats,
        Err(poisoned) => *poisoned.into_inner() = stats,
    }
}

/// Relies on `std::sync::Arc::clone`: a new handle to the same shared
/// statistics context.
#[verifier::external_body]
fn clone_feedback_handle(handle: &Option<Arc<Mutex<RuntimeFeedback>>>) -> (r: Option<
    Arc<Mutex<RuntimeFeedback>>,
>)
    ensures
        r is Some <==> handle is Some,
{
    match handle {
        Some(h) => Some(Arc::clone(h)),
        None => None,
    }
}

/// One registered file: its path and the window of the registry's buffer
/// that holds its content.
#[derive(Debug)]
struct FileEntry {
    path: String,
    off: usize,
    len: usize,
}

impl Clone for FileEntry {
    fn clone(&self) -> (r: Self)
        ensures
            r == *self,
    {
        FileEntry { path: self.path.clone(), off: self.off, len: self.len }
    }
}

/// The registry: registered files, their consolidated content buffer, and
/// (after finalization) the path-to-identifier mapping and per-file line
/// indices.
#[derive(Debug)]
pub struct SourceFilesMap<Id: FileId> {
    files: Vec<FileEntry>,
    buffer: Vec<u8>,
    path_to_id: Vec<(String, Id)>,
    line_offsets: Vec<CompactLineOffsets>,
    avg_file_size: usize,
    expected_files: usize,
    feedback: Option<Arc<Mutex<RuntimeFeedback>>>,
}

/// The record an entry stands for: its path bytes and its window of `buf`.
spec fn entry_rec(e: FileEntry, buf: Seq<u8>) -> (Seq<u8>, Seq<u8>) {
    (encode_utf8(e.path@), buf.subrange(e.off as int, e.off + e.len))
}

/// The records a sequence of entries stands for, against the buffer `buf`.
spec fn entries_recs(v: Seq<FileEntry>, buf: Seq<u8>) -> Seq<(Seq<u8>, Seq<u8>)> {
    Seq::new(v.len(), |i: int| entry_rec(v[i], buf))
}

/// Every entry's window lies inside the buffer.
spec fn entries_wf(v: Seq<FileEntry>, buf: Seq<u8>) -> bool {
    forall|i: int| 0 <= i < v.len() ==> (#[trigger] v[i]).off + v[i].len <= buf.len()
}

/// An element-wise copy of an entry vector.
fn clone_entries(v: &Vec<FileEntry>) -> (r: Vec<FileEntry>)
    ensures
        r@ == v@,
{
    let mut r: Vec<FileEntry> = Vec::new();
    let mut i: usize = 0;
    while i < v.len()
        invariant
            i <= v@.len(),
            r@ == v@.take(i as int),
        decreases v@.len() - i,
    {
        r.push(v[i].clone());
        proof {
            assert(r@ =~= v@.take(i as int + 1));
        }
        i = i + 1;
    }
    proof {
        assert(v@.take(v@.len() as int) =~= v@);
    }
    r
}

/// An element-wise copy of a path-to-identifier vector.
fn clone_pairs<Id: FileId>(v: &Vec<(String, Id)>) -> (r: Vec<(String, Id)>)
    ensures
        r@ == v@,
{
    let mut r: Vec<(String, Id)> = Vec::new();
    let mut i: usize = 0;
    while i < v.len()
        invariant
            i <= v@.len(),
            r@ == v@.take(i as int),
        decreases v@.len() - i,
    {
        let pair = (v[i].0.clone(), v[i].1);
        r.push(pair);
        proof {
            assert(r@ =~= v@.take(i as int + 1));
        }
        i = i + 1;
    }
    proof {
        assert(v@.take(v@.len() as int) =~= v@);
    }
    r
}

/// An element-wise copy of a line-index vector: each copy records the same
/// offsets and content length.
fn clone_offsets(v: &Vec<CompactLineOffsets>) -> (r: Vec<CompactLineOffsets>)
    ensures
        r@.len() == v@.len(),
        forall|i: int|
            0 <= i < v@.len() ==> (#[trigger] r@[i]).offs() == v@[i].offs() && r@[i].clen()
                == v@[i].clen(),
{
    let mut r: Vec<CompactLineOffsets> = Vec::new();
    let mut i: usize = 0;
    while i < v.len()
        invariant
            i <= v@.len(),
            r@.len() == i,
            forall|t: int|
                0 <= t < i ==> (#[trigger] r@[t]).offs() == v@[t].offs() && r@[t].clen()
                    == v@[t].clen(),
        decreases v@.len() - i,
    {
        r.push(v[i].clone());
        i = i + 1;
    }
    r
}

impl<Id: FileId> Clone for SourceFilesMap<Id> {
    /// A copy of the registry: same files, same identifier mapping, same
    /// line indices, same preallocation hints; it shares the feedback
    /// context with the original.
    fn clone(&self) -> (r: Self)
        ensures
            r.records() == self.records(),
            r.id_map() == self.id_map(),
            r.indexed_count() == self.indexed_count(),
            r.hints() == self.hints(),
    {
        proof {
            use_type_invariant(self);
        }
        let r = SourceFilesMap {
            files: clone_entries(&self.files),
            buffer: self.buffer.clone(),
            path_to_id: clone_pairs(&self.path_to_id),
            line_offsets: clone_offsets(&self.line_offsets),
            avg_file_size: self.avg_file_size,
            expected_files: self.expected_files,
            feedback: clone_feedback_handle(&self.feedback),
        };
        proof {
            assert(r.buffer@ =~= self.buffer@);
            assert(r.records() =~= self.records());
            assert(r.id_map() =~= self.id_map());
        }
        r
    }
}

impl<Id: FileId> SourceFilesMap<Id> {
    /// The registered files, in storage order: each file as the pair of its
    /// path's UTF-8 bytes and its content bytes.
    pub closed spec fn records(self) -> Seq<(Seq<u8>, Seq<u8>)> {
        entries_recs(self.files@, self.buffer@)
    }

    /// The path-to-identifier mapping, as pairs of path bytes and identifier
    /// values, in storage order.
    pub closed spec fn id_map(self) -> Seq<(Seq<u8>, u64)> {
        Seq::new(
            self.path_to_id@.len(),
            |i: int| (encode_utf8(self.path_to_id@[i].0@), self.path_to_id@[i].1.id_u64()),
        )
    }

    /// How many files currently have a line index (the first
    /// `indexed_count` registered files, in storage order).
    pub closed spec fn indexed_count(self) -> int {
        self.line_offsets@.len() as int
    }

    /// The current preallocation hints: expected file count and average
    /// file size.
    pub closed spec fn hints(self) -> (usize, usize) {
        (self.expected_files, self.avg_file_size)
    }

    #[verifier::type_invariant]
    spec fn wf(self) -> bool {
        &&& self.files@.len() <= Id::spec_max_files()
        &&& forall|i: int|
            0 <= i < self.files@.len() ==> (#[trigger] self.files@[i]).off + self.files@[i].len
                <= self.buffer@.len()
        &&& self.line_offsets@.len() <= self.files@.len()
        &&& forall|i: int|
            0 <= i < self.line_offsets@.len() ==> (#[trigger] self.line_offsets@[i]).offs()
                == line_starts(
                self.buffer@.subrange(
                    self.files@[i].off as int,
                    self.files@[i].off + self.files@[i].len,
                ),
            ) && self.line_offsets@[i].clen() == self.files@[i].len
    }

    /// An empty registry with conservative preallocation defaults.
    pub fn new() -> (r: Self)
        ensures
            r.records() == Seq::<(Seq<u8>, Seq<u8>)>::empty(),
            r.id_map() == Seq::<(Seq<u8>, u64)>::empty(),
            r.indexed_count() == 0,
            r.hints() == (DEFAULT_FILE_COUNT, DEFAULT_AVG_SIZE),
    {
        let r = SourceFilesMap {
            files: Vec::with_capacity(DEFAULT_FILE_COUNT),
            buffer: Vec::new(),
            path_to_id: Vec::with_capacity(DEFAULT_FILE_COUNT),
            line_offsets: Vec::new(),
            avg_file_size: DEFAULT_AVG_SIZE,
            expected_files: DEFAULT_FILE_COUNT,
            feedback: None,
        };
        proof {
            Id::lemma_max_files();
            assert(r.records() =~= Seq::<(Seq<u8>, Seq<u8>)>::empty());
            assert(r.id_map() =~= Seq::<(Seq<u8>, u64)>::empty());
        }
        r
    }

    /// An empty registry that expects about `expected_files` files of about
    /// `avg_size` bytes each. The hints only size preallocations; they never
    /// change any result.
    pub fn with_capacity_hints(expected_files: usize, avg_size: usize) -> (r: Self)
        ensures
            r.records() == Seq::<(Seq<u8>, Seq<u8>)>::empty(),
            r.id_map() == Seq::<(Seq<u8>, u64)>::empty(),
            r.indexed_count() == 0,
            r.hints() == (expected_files, avg_size),
    {
        let r = SourceFilesMap {
            files: Vec::with_capacity(expected_files),
            buffer: Vec::new(),
            path_to_id: Vec::with_capacity(expected_files),
            line_offsets: Vec::new(),
            avg_file_size: avg_size,
            expected_files,
            feedback: None,
        };
        proof {
            Id::lemma_max_files();
            assert(r.records() =~= Seq::<(Seq<u8>, Seq<u8>)>::empty());
            assert(r.id_map() =~= Seq::<(Seq<u8>, u64)>::empty());
        }
        r
    }

    /// Preallocation hints derived from shared statistics: expect 20% more
    /// files than the last finalized registry had (clamped if the product
    /// would overflow), and their average size; defaults where no file has
    /// been seen.
    pub fn hints_from_stats(stats: &RuntimeFeedback) -> (r: (usize, usize))
        ensures
            r.0 == (if stats.total_files * 120 <= usize::MAX as int {
                (stats.total_files * 120) / 100
            } else {
                (usize::MAX as int) / 100
            }),
            r.1 == (if stats.total_files > 0 {
                (stats.total_bytes / (stats.total_files as u64)) as usize
            } else {
                DEFAULT_AVG_SIZE
            }),
    {
        let expected = match stats.total_files.checked_mul(120) {
            Some(p) => p / 100,
            None => usize::MAX / 100,
        };
        let avg_size = if stats.total_files > 0 {
            (stats.total_bytes / (stats.total_files as u64)) as usize
        } else {
            DEFAULT_AVG_SIZE
        };
        (expected, avg_size)
    }

    /// An empty registry; with a feedback context, its preallocation hints
    /// come from the shared statistics, else the defaults are used.
    pub fn with_feedback(feedback: Option<Arc<Mutex<RuntimeFeedback>>>) -> (r: Self)
        ensures
            r.records() == Seq::<(Seq<u8>, Seq<u8>)>::empty(),
            r.id_map() == Seq::<(Seq<u8>, u64)>::empty(),
            r.indexed_count() == 0,
            feedback is None ==> r.hints() == (DEFAULT_FILE_COUNT, DEFAULT_AVG_SIZE),
    {
        let (expected, avg_size) = match &feedback {
            None => (DEFAULT_FILE_COUNT, DEFAULT_AVG_SIZE),
            Some(handle) => {
                let stats = read_feedback(handle);
                Self::hints_from_stats(&stats)
            },
        };
        let r = SourceFilesMap {
            files: Vec::with_capacity(expected),
            buffer: Vec::new(),
            path_to_id: Vec::with_capacity(expected),
            line_offsets: Vec::new(),
            avg_file_size: avg_size,
            expected_files: expected,
            feedback,
        };
        proof {
            Id::lemma_max_files();
            assert(r.records() =~= Seq::<(Seq<u8>, Seq<u8>)>::empty());
            assert(r.id_map() =~= Seq::<(Seq<u8>, u64)>::empty());
        }
        r
    }

    /// Registers a file. Once the registry holds as many files as the
    /// identifier policy supports, further additions are silently dropped.
    pub fn add_file(&mut self, path: String, content: Vec<u8>)
        ensures
            old(self).records().len() < Id::spec_max_files() ==> final(self).records() == old(
                self,
            ).records().push((encode_utf8(path@), content@)),
            old(self).records().len() >= Id::spec_max_files() ==> final(self).records() == old(
                self,
            ).records(),
            final(self).id_map() == old(self).id_map(),
            final(self).indexed_count() == old(self).indexed_count(),
    {
        proof {
            use_type_invariant(&*self);
        }
        let ghost old_records = self.records();
        if self.files.len() < Id::max_files() {
            // Temporarily clear the derived state so the fields can be
            // reshaped one at a time.
            let mut line_offsets: Vec<CompactLineOffsets> = Vec::new();
            core::mem::swap(&mut line_offsets, &mut self.line_offsets);
            let mut files: Vec<FileEntry> = Vec::new();
            core::mem::swap(&mut files, &mut self.files);
            let mut buffer: Vec<u8> = Vec::new();
            core::mem::swap(&mut buffer, &mut self.buffer);
            let ghost old_buffer = buffer@;

            let off = buffer.len();
            let len = content.len();
            buffer.extend_from_slice(content.as_slice());
            files.push(FileEntry { path, off, len });
            self.buffer = buffer;

            proof {
                assert forall|i: int| 0 <= i < files@.len() implies (#[trigger] files@[i]).off
                    + files@[i].len <= self.buffer@.len() by {}
            }
            self.files = files;
            proof {
                assert forall|i: int| 0 <= i < line_offsets@.len() implies self.buffer@.subrange(
                    self.files@[i].off as int,
                    self.files@[i].off + self.files@[i].len,
                ) == old_buffer.subrange(
                    self.files@[i].off as int,
                    self.files@[i].off + self.files@[i].len,
                ) by {
                    assert(self.buffer@.subrange(
                        self.files@[i].off as int,
                        self.files@[i].off + self.files@[i].len,
                    ) =~= old_buffer.subrange(
                        self.files@[i].off as int,
                        self.files@[i].off + self.files@[i].len,
                    ));
                }
            }
            self.line_offsets = line_offsets;
            proof {
                assert forall|i: int| 0 <= i < old_records.len() implies self.records()[i]
                    == old_records[i] by {
                    assert(self.buffer@.subrange(
                        self.files@[i].off as int,
                        self.files@[i].off + self.files@[i].len,
                    ) =~= old_buffer.subrange(
                        self.files@[i].off as int,
                        self.files@[i].off + self.files@[i].len,
                    ));
                }
                assert(self.buffer@.subrange(off as int, off + len) =~= content@);
                assert(self.records() =~= old_records.push(
                    (encode_utf8(path@), content@),
                ));
            }
        }
    }

    /// Finalizes the registry: sorts the registered files by path (ties by
    /// content length), removes duplicate paths keeping the first occurrence
    /// in that order, consolidates all content into one fresh buffer in the
    /// new order, assigns identifier `i + 1` to the `i`-th surviving file,
    /// builds every file's line index, and publishes the new statistics to
    /// the feedback context, if one was supplied.
    pub fn finalize(&mut self) -> (r: Result<(), String>)
        ensures
            r is Ok,
            final(self).records() == spec_finalize(old(self).records()),
            final(self).id_map().len() == final(self).records().len(),
            forall|i: int|
                0 <= i < final(self).id_map().len() ==> #[trigger] final(self).id_map()[i] == (
                    final(self).records()[i].0,
                    (i + 1) as u64,
                ),
            final(self).indexed_count() == final(self).records().len(),
            final(self).hints() == old(self).hints(),
    {
        proof {
            use_type_invariant(&*self);
            Id::lemma_max_files();
        }
        let ghost old_records = self.records();

        // Take the current state out of `self`; it is all rebuilt below.
        let mut line_offsets: Vec<CompactLineOffsets> = Vec::new();
        core::mem::swap(&mut line_offsets, &mut self.line_offsets);
        let mut path_to_id: Vec<(String, Id)> = Vec::new();
        core::mem::swap(&mut path_to_id, &mut self.path_to_id);
        let mut files: Vec<FileEntry> = Vec::new();
        core::mem::swap(&mut files, &mut self.files);
        let mut buffer: Vec<u8> = Vec::new();
        core::mem::swap(&mut buffer, &mut self.buffer);
        line_offsets.clear();
        path_to_id.clear();

        // Sort by path (ties by content length) and deduplicate by path.
        let mut sorted: Vec<FileEntry> = Vec::new();
        let files_len = files.len();
        let mut i: usize = 0;
        proof {
            assert(entries_recs(files@, buffer@).take(0) =~= Seq::<(Seq<u8>, Seq<u8>)>::empty());
            assert(entries_recs(sorted@, buffer@) =~= Seq::<(Seq<u8>, Seq<u8>)>::empty());
        }
        while i < files_len
            invariant
                i <= files@.len(),
                files_len == files@.len(),
                entries_wf(files@, buffer@),
                entries_wf(sorted@, buffer@),
                entries_recs(sorted@, buffer@) == spec_finalize(
                    entries_recs(files@, buffer@).take(i as int),
                ),
            decreases files@.len() - i,
        {
            proof {
                assert(files@[i as int].off + files@[i as int].len <= buffer@.len());
            }
            let e = FileEntry {
                path: files[i].path.clone(),
                off: files[i].off,
                len: files[i].len,
            };
            proof {
                let recs = entries_recs(files@, buffer@);
                assert(entry_rec(e, buffer@) == recs[i as int]);
                assert(recs.take(i as int + 1).drop_last() =~= recs.take(i as int));
                assert(recs.take(i as int + 1).last() == recs[i as int]);
            }
            upsert_entry(&mut sorted, e, &buffer);
            i = i + 1;
        }
        proof {
            assert(entries_recs(files@, buffer@).take(files@.len() as int) =~= entries_recs(
                files@,
                buffer@,
            ));
            lemma_finalize_len(old_records);
        }

        // Capacity check: additions were already capped, so this cannot trip.
        if sorted.len() > Id::max_files() {
            return Err("too many files for the identifier type".to_owned());
        }

        // Consolidate every file's bytes into one fresh buffer, in the new
        // order. (A preallocation that would overflow is skipped.)
        let capacity = match self.avg_file_size.checked_mul(self.expected_files) {
            Some(total) => total,
            None => 0,
        };
        let mut new_buffer: Vec<u8> = Vec::with_capacity(capacity);
        let mut new_files: Vec<FileEntry> = Vec::new();
        let sorted_len = sorted.len();
        let mut k: usize = 0;
        while k < sorted_len
            invariant
                k <= sorted@.len(),
                sorted_len == sorted@.len(),
                entries_wf(sorted@, buffer@),
                new_files@.len() == k,
                entries_wf(new_files@, new_buffer@),
                forall|t: int|
                    0 <= t < k ==> #[trigger] entries_recs(new_files@, new_buffer@)[t]
                        == entries_recs(sorted@, buffer@)[t],
            decreases sorted@.len() - k,
        {
            let ghost prev_files = new_files@;
            let ghost prev_buffer = new_buffer@;
            proof {
                assert(sorted@[k as int].off + sorted@[k as int].len <= buffer@.len());
            }
            let e_off = sorted[k].off;
            let e_len = sorted[k].len;
            let new_off = new_buffer.len();
            let b_len = buffer.len();
            proof {
                assert(e_off + e_len <= b_len);
            }
            let window = vstd::slice::slice_subrange(buffer.as_slice(), e_off, e_off + e_len);
            new_buffer.extend_from_slice(window);
            new_files.push(FileEntry { path: sorted[k].path.clone(), off: new_off, len: e_len });
            proof {
                assert forall|t: int|
                    0 <= t <= k implies #[trigger] entries_recs(new_files@, new_buffer@)[t]
                    == entries_recs(sorted@, buffer@)[t] by {
                    if t < k {
                        assert(new_files@[t] == prev_files[t]);
                        assert(entries_recs(prev_files, prev_buffer)[t] == entries_recs(
                            sorted@,
                            buffer@,
                        )[t]);
                        assert(prev_files[t].off + prev_files[t].len <= prev_buffer.len());
                        assert(new_buffer@.subrange(
                            prev_files[t].off as int,
                            prev_files[t].off + prev_files[t].len,
                        ) =~= prev_buffer.subrange(
                            prev_files[t].off as int,
                            prev_files[t].off + prev_files[t].len,
                        ));
                        assert(entry_rec(prev_files[t], new_buffer@) == entry_rec(
                            prev_files[t],
                            prev_buffer,
                        ));
                    } else {
                        assert(entries_recs(new_files@, new_buffer@)[t] == entry_rec(
                            new_files@[t],
                            new_buffer@,
                        ));
                        assert(new_buffer@.subrange(new_off as int, new_off + e_len)
                            =~= buffer@.subrange(e_off as int, e_off + e_len));
                        assert(encode_utf8(new_files@[t].path@) == encode_utf8(
                            sorted@[t].path@,
                        ));
                        assert(entries_recs(sorted@, buffer@)[t] == entry_rec(
                            sorted@[t],
                            buffer@,
                        ));
                    }
                }
            }
            k = k + 1;
        }
        proof {
            assert(entries_recs(new_files@, new_buffer@) =~= entries_recs(sorted@, buffer@));
        }

        // Assign identifiers 1, 2, 3, … in the new order.
        let mut j: usize = 0;
        while j < sorted_len
            invariant
                j <= new_files@.len(),
                new_files@.len() == sorted_len,
                sorted_len <= Id::spec_max_files(),
                path_to_id@.len() == j,
                forall|t: int|
                    0 <= t < j ==> encode_utf8((#[trigger] path_to_id@[t]).0@) == entry_rec(
                        new_files@[t],
                        new_buffer@,
                    ).0 && path_to_id@[t].1.id_u64() == t + 1,
            decreases sorted_len - j,
        {
            match Id::id_from_u64((j as u64) + 1) {
                Some(id) => {
                    path_to_id.push((new_files[j].path.clone(), id));
                },
                None => {
                    return Err("identifier conversion failed".to_owned());
                },
            }
            j = j + 1;
        }

        // Build every file's line index against the new buffer.
        let mut h: usize = 0;
        while h < sorted_len
            invariant
                h <= new_files@.len(),
                new_files@.len() == sorted_len,
                entries_wf(new_files@, new_buffer@),
                line_offsets@.len() == h,
                forall|t: int|
                    0 <= t < h ==> (#[trigger] line_offsets@[t]).offs() == line_starts(
                        new_buffer@.subrange(
                            new_files@[t].off as int,
                            new_files@[t].off + new_files@[t].len,
                        ),
                    ) && line_offsets@[t].clen() == new_files@[t].len,
            decreases sorted_len - h,
        {
            proof {
                assert(new_files@[h as int].off + new_files@[h as int].len <= new_buffer@.len());
            }
            let e_off = new_files[h].off;
            let e_len = new_files[h].len;
            let nb_len = new_buffer.len();
            proof {
                assert(e_off + e_len <= nb_len);
            }
            let window = vstd::slice::slice_subrange(new_buffer.as_slice(), e_off, e_off + e_len);
            let index = CompactLineOffsets::compute(window);
            line_offsets.push(index);
            h = h + 1;
        }

        // Publish the new statistics to the shared feedback context.
        match &self.feedback {
            Some(handle) => {
                let mut max_size: usize = 0;
                let mut m: usize = 0;
                while m < sorted_len
                    invariant
                        new_files@.len() == sorted_len,
                        m <= sorted_len,
                    decreases sorted_len - m,
                {
                    if new_files[m].len > max_size {
                        max_size = new_files[m].len;
                    }
                    m = m + 1;
                }
                let stats = read_feedback(handle);
                write_feedback(
                    handle,
                    RuntimeFeedback {
                        total_files: sorted_len,
                        total_bytes: new_buffer.len() as u64,
                        max_file_size: max_size,
                        usage_count: stats.usage_count.wrapping_add(1),
                    },
                );
            },
            None => {},
        }

        // Install the rebuilt state.
        self.buffer = new_buffer;
        self.files = new_files;
        self.path_to_id = path_to_id;
        self.line_offsets = line_offsets;
        proof {
            assert(self.records() == spec_finalize(old_records));
            assert forall|t: int| 0 <= t < self.id_map().len() implies #[trigger] self.id_map()[t]
                == (self.records()[t].0, (t + 1) as u64) by {
                assert(self.id_map()[t].0 == encode_utf8(self.path_to_id@[t].0@));
            }
        }
        Ok(())
    }

    /// Resolves `pos` against the content of the file with identifier `id`:
    /// the byte slice from column `start_col` of line `start_line` (1-indexed;
    /// column 0 is treated as column 1) up to and including column `end_col`
    /// of line `end_line`. `None` if the file is unknown or not indexed, a
    /// line number is 0 or past the last line, or the byte range is inverted
    /// or out of bounds, as [`resolve_span`] spells out.
    pub fn view<P: SourceFilePosition>(&self, id: Id, pos: &P) -> (r: Option<&[u8]>)
        ensures
            match r {
                Some(s) => 1 <= id.id_u64() <= self.indexed_count() && id.id_u64()
                    <= self.records().len() && resolve_span(
                    self.records()[id.id_u64() - 1].1,
                    pos.spec_start_line() as int,
                    pos.spec_start_column() as int,
                    pos.spec_end_line() as int,
                    pos.spec_end_column() as int,
                ) == Some(s@),
                None => id.id_u64() == 0 || id.id_u64() > self.indexed_count() || id.id_u64()
                    > self.records().len() || resolve_span(
                    self.records()[id.id_u64() - 1].1,
                    pos.spec_start_line() as int,
                    pos.spec_start_column() as int,
                    pos.spec_end_line() as int,
                    pos.spec_end_column() as int,
                ) is None,
            },
    {
        proof {
            use_type_invariant(&*self);
            id.lemma_id_bound();
            Id::lemma_max_files();
        }
        let content = match self.get_content(id) {
            Some(c) => c,
            None => {
                return None;
            },
        };
        let raw_id = id.id_to_u64();
        let index = (raw_id - 1) as usize;
        if index >= self.line_offsets.len() {
            return None;
        }
        let line_index = &self.line_offsets[index];
        let ghost cbytes = self.records()[id.id_u64() - 1].1;
        proof {
            assert(line_index.offs() == line_starts(cbytes));
            assert(line_index.clen() == cbytes.len());
        }

        let start_line = pos.start_line() as usize;
        let start_col = pos.start_column() as usize;
        let end_line = pos.end_line() as usize;
        let end_col = pos.end_column() as usize;

        if start_line == 0 || end_line == 0 || start_line > end_line {
            return None;
        }

        let start_range = match line_index.get_line_range(start_line) {
            Some(rg) => rg,
            None => {
                return None;
            },
        };
        let end_range = match line_index.get_line_range(end_line) {
            Some(rg) => rg,
            None => {
                return None;
            },
        };

        let col_back = if start_col > 0 {
            start_col - 1
        } else {
            0
        };
        let content_len = content.len();
        let start_byte = match start_range.0.checked_add(col_back) {
            Some(b) => b,
            None => {
                return None;
            },
        };
        let end_byte = match end_range.0.checked_add(end_col) {
            Some(b) => b,
            None => {
                return None;
            },
        };

        if start_byte >= content_len || end_byte > content_len || start_byte > end_byte {
            return None;
        }

        Some(vstd::slice::slice_subrange(content, start_byte, end_byte))
    }

    /// Number of registered files.
    pub fn len(&self) -> (r: usize)
        ensures
            r == self.records().len(),
    {
        self.files.len()
    }

    /// Whether no file is registered.
    pub fn is_empty(&self) -> (r: bool)
        ensures
            r == (self.records().len() == 0),
    {
        self.files.is_empty()
    }

    /// The content bytes of the file with identifier `id`, or `None` if no
    /// file has that identifier.
    pub fn get_content(&self, id: Id) -> (r: Option<&[u8]>)
        ensures
            match r {
                Some(s) => 1 <= id.id_u64() <= self.records().len() && s@ == self.records()[
                    id.id_u64() - 1
                ].1,
                None => id.id_u64() == 0 || id.id_u64() > self.records().len(),
            },
    {
        proof {
            use_type_invariant(&*self);
            id.lemma_id_bound();
            Id::lemma_max_files();
        }
        let raw_id = id.id_to_u64();
        if raw_id == 0 {
            return None;
        }
        let index = (raw_id - 1) as usize;
        if index < self.files.len() {
            proof {
                assert(self.files@[index as int].off + self.files@[index as int].len
                    <= self.buffer@.len());
            }
            let e_off = self.files[index].off;
            let e_len = self.files[index].len;
            let buffer_len = self.buffer.len();
            proof {
                assert(e_off + e_len <= buffer_len);
            }
            Some(vstd::slice::slice_subrange(self.buffer.as_slice(), e_off, e_off + e_len))
        } else {
            None
        }
    }

    /// The path of the file with identifier `id`, or `None` if no file has
    /// that identifier.
    pub fn get_path(&self, id: Id) -> (r: Option<&str>)
        ensures
            match r {
                Some(p) => 1 <= id.id_u64() <= self.records().len() && encode_utf8(p@)
                    == self.records()[id.id_u64() - 1].0,
                None => id.id_u64() == 0 || id.id_u64() > self.records().len(),
            },
    {
        proof {
            use_type_invariant(&*self);
            id.lemma_id_bound();
            Id::lemma_max_files();
        }
        let raw_id = id.id_to_u64();
        if raw_id == 0 {
            return None;
        }
        let index = (raw_id - 1) as usize;
        if index < self.files.len() {
            Some(self.files[index].path.as_str())
        } else {
            None
        }
    }

    /// The identifier assigned to `path`, or `None` if `path` is not in the
    /// finalized mapping.
    pub fn get_id(&self, path: &str) -> (r: Option<Id>)
        ensures
            match r {
                Some(id) => spec_lookup(self.id_map(), encode_utf8(path@)) == Some(id.id_u64()),
                None => spec_lookup(self.id_map(), encode_utf8(path@)) is None,
            },
    {
        let key = path.as_bytes();
        let ghost keyb = encode_utf8(path@);
        proof {
            assert(self.id_map().skip(0) =~= self.id_map());
        }
        let mut j: usize = 0;
        while j < self.path_to_id.len()
            invariant
                j <= self.id_map().len(),
                keyb == encode_utf8(path@),
                key@ == keyb,
                spec_lookup(self.id_map(), keyb) == spec_lookup(
                    self.id_map().skip(j as int),
                    keyb,
                ),
            decreases self.id_map().len() - j,
        {
            let ghost m = self.id_map();
            proof {
                assert(m.skip(j as int).len() > 0);
                assert(m.skip(j as int)[0] == m[j as int]);
            }
            let entry_bytes = self.path_to_id[j].0.as_str().as_bytes();
            if bytes_eq(entry_bytes, key) {
                let id = self.path_to_id[j].1;
                return Some(id);
            }
            proof {
                assert(m.skip(j as int).drop_first() =~= m.skip(j as int + 1));
            }
            j = j + 1;
        }
        proof {
            assert(self.id_map().skip(j as int).len() == 0);
        }
        None
    }
}

/// The first identifier that `m` pairs with `key`, scanning in order.
pub open spec fn spec_lookup(m: Seq<(Seq<u8>, u64)>, key: Seq<u8>) -> Option<u64>
    decreases m.len(),
{
    if m.len() == 0 {
        None
    } else if m[0].0 == key {
        Some(m[0].1)
    } else {
        spec_lookup(m.drop_first(), key)
    }
}

/// A registered file, as a pair of path bytes and content bytes.
pub type FileRecord = (Seq<u8>, Seq<u8>);

/// The byte slice of `content` that a span denotes, or `None`.
///
/// The span runs from column `start_col` of line `start_line` (1-indexed;
/// column 0 is treated as column 1) up to and including column `end_col` of
/// line `end_line`. `None` if a line number is 0 or past the last line, if
/// the lines are inverted, or if the byte range is inverted, starts at or
/// past the end of the content, or runs past its end.
pub open spec fn resolve_span(
    content: Seq<u8>,
    start_line: int,
    start_col: int,
    end_line: int,
    end_col: int,
) -> Option<Seq<u8>> {
    let ls = line_starts(content);
    if start_line == 0 || end_line == 0 || start_line > end_line {
        None
    } else if start_line > ls.len() || end_line > ls.len() {
        None
    } else {
        let start_byte = ls[start_line - 1] + (if start_col >= 1 {
            start_col - 1
        } else {
            0
        });
        let end_byte = ls[end_line - 1] + end_col;
        if start_byte >= content.len() || end_byte > content.len() || start_byte > end_byte {
            None
        } else {
            Some(content.subrange(start_byte, end_byte))
        }
    }
}

/// Files sorted strictly by path, so every path occurs at most once.
pub open spec fn sorted_unique(s: Seq<FileRecord>) -> bool {
    forall|i: int, j: int| 0 <= i < j < s.len() ==> lex_lt(#[trigger] s[i].0, #[trigger] s[j].0)
}

/// Folds one file into a path-sorted, duplicate-free sequence: a new path
/// is inserted at its sorted position; a path already present keeps the
/// entry whose content is shorter (ties keep the entry already there).
pub open spec fn spec_upsert(s: Seq<FileRecord>, e: FileRecord) -> Seq<FileRecord>
    decreases s.len(),
{
    if s.len() == 0 {
        seq![e]
    } else if e.0 == s[0].0 {
        if e.1.len() < s[0].1.len() {
            s.update(0, e)
        } else {
            s
        }
    } else if lex_lt(e.0, s[0].0) {
        s.insert(0, e)
    } else {
        seq![s[0]] + spec_upsert(s.drop_first(), e)
    }
}

/// What finalization makes of the registered files: each one folded in, in
/// registration order. The result is path-sorted and duplicate-free, and for
/// each path keeps the content that a stable sort by (path, content length)
/// followed by first-occurrence deduplication would keep.
pub open spec fn spec_finalize(pending: Seq<FileRecord>) -> Seq<FileRecord>
    decreases pending.len(),
{
    if pending.len() == 0 {
        Seq::empty()
    } else {
        spec_upsert(spec_finalize(pending.drop_last()), pending.last())
    }
}

/// Folding a file in grows the sequence by at most one entry.
proof fn lemma_upsert_len(s: Seq<FileRecord>, e: FileRecord)
    ensures
        s.len() <= spec_upsert(s, e).len() <= s.len() + 1,
    decreases s.len(),
{
    if s.len() > 0 && e.0 != s[0].0 && !lex_lt(e.0, s[0].0) {
        lemma_upsert_len(s.drop_first(), e);
    }
}

/// Finalization never yields more files than were registered.
pub proof fn lemma_finalize_len(pending: Seq<FileRecord>)
    ensures
        spec_finalize(pending).len() <= pending.len(),
    decreases pending.len(),
{
    if pending.len() > 0 {
        lemma_finalize_len(pending.drop_last());
        lemma_upsert_len(spec_finalize(pending.drop_last()), pending.last());
    }
}

/// Folding a file into a sorted, duplicate-free sequence keeps it so.
proof fn lemma_upsert_sorted(s: Seq<FileRecord>, e: FileRecord)
    requires
        sorted_unique(s),
    ensures
        sorted_unique(spec_upsert(s, e)),
    decreases s.len(),
{
    if s.len() == 0 {
    } else if e.0 == s[0].0 {
        if e.1.len() < s[0].1.len() {
            let t = s.update(0, e);
            assert forall|i: int, j: int| 0 <= i < j < t.len() implies lex_lt(
                #[trigger] t[i].0,
                #[trigger] t[j].0,
            ) by {
                if i > 0 {
                    assert(t[i] == s[i]);
                }
                assert(t[j] == s[j]);
            }
        }
    } else if lex_lt(e.0, s[0].0) {
        let t = s.insert(0, e);
        assert forall|i: int, j: int| 0 <= i < j < t.len() implies lex_lt(
            #[trigger] t[i].0,
            #[trigger] t[j].0,
        ) by {
            assert(t[0] == e);
            if i > 0 {
                assert(t[i] == s[i - 1]);
            }
            assert(t[j] == s[j - 1]);
            if i == 0 && j > 1 {
                crate::ord::lemma_lex_lt_trans(e.0, s[0].0, s[j - 1].0);
            }
        }
    } else {
        let d = s.drop_first();
        assert forall|i: int, j: int| 0 <= i < j < d.len() implies lex_lt(
            #[trigger] d[i].0,
            #[trigger] d[j].0,
        ) by {
            assert(d[i] == s[i + 1]);
            assert(d[j] == s[j + 1]);
        }
        lemma_upsert_sorted(d, e);
        crate::ord::lemma_lex_lt_trichotomy(e.0, s[0].0);
        let u = spec_upsert(d, e);
        let t = seq![s[0]] + u;
        // every path in the tail result is either a tail path or e's path,
        // and s[0].0 precedes them all
        lemma_upsert_paths(d, e);
        assert forall|i: int, j: int| 0 <= i < j < t.len() implies lex_lt(
            #[trigger] t[i].0,
            #[trigger] t[j].0,
        ) by {
            if i > 0 {
                assert(t[i] == u[i - 1]);
                assert(t[j] == u[j - 1]);
            } else {
                assert(t[0] == s[0]);
                assert(t[j] == u[j - 1]);
                let q = u[j - 1].0;
                if q == e.0 {
                    assert(lex_lt(s[0].0, e.0));
                } else {
                    let k = choose|k: int| 0 <= k < d.len() && d[k].0 == q;
                    assert(s[k + 1].0 == q);
                    assert(lex_lt(s[0].0, s[k + 1].0));
                }
            }
        }
    }
}

/// The paths after folding a file in are the old paths plus the new one.
proof fn lemma_upsert_paths(s: Seq<FileRecord>, e: FileRecord)
    ensures
        forall|j: int|
            0 <= j < spec_upsert(s, e).len() ==> (#[trigger] spec_upsert(s, e)[j].0 == e.0
                || exists|k: int| 0 <= k < s.len() && s[k].0 == spec_upsert(s, e)[j].0),
        forall|k: int|
            0 <= k < s.len() ==> exists|j: int|
                0 <= j < spec_upsert(s, e).len() && #[trigger] spec_upsert(s, e)[j].0 == #[trigger] s[k].0,
        exists|j: int| 0 <= j < spec_upsert(s, e).len() && #[trigger] spec_upsert(s, e)[j].0 == e.0,
    decreases s.len(),
{
    let u = spec_upsert(s, e);
    if s.len() == 0 {
        assert(u[0] == e);
        assert(u[0].0 == e.0);
    } else if e.0 == s[0].0 {
        if e.1.len() < s[0].1.len() {
            assert(u[0] == e);
            assert(u[0].0 == e.0);
            assert forall|k: int| 0 <= k < s.len() implies exists|j: int|
                0 <= j < u.len() && #[trigger] u[j].0 == #[trigger] s[k].0 by {
                if k == 0 {
                    assert(u[0].0 == s[0].0);
                } else {
                    assert(u[k].0 == s[k].0);
                }
            }
        } else {
            assert(u[0].0 == e.0);
            assert forall|k: int| 0 <= k < s.len() implies exists|j: int|
                0 <= j < u.len() && #[trigger] u[j].0 == #[trigger] s[k].0 by {
                assert(u[k].0 == s[k].0);
            }
        }
    } else if lex_lt(e.0, s[0].0) {
        assert(u[0] == e);
        assert(u[0].0 == e.0);
        assert forall|k: int| 0 <= k < s.len() implies exists|j: int|
            0 <= j < u.len() && #[trigger] u[j].0 == #[trigger] s[k].0 by {
            assert(u[k + 1] == s[k]);
        }
        assert forall|j: int| 0 <= j < u.len() implies (#[trigger] u[j].0 == e.0 || exists|k: int|
            0 <= k < s.len() && s[k].0 == u[j].0) by {
            if j > 0 {
                assert(s[j - 1].0 == u[j].0);
            }
        }
    } else {
        let d = s.drop_first();
        lemma_upsert_paths(d, e);
        let v = spec_upsert(d, e);
        assert(u == seq![s[0]] + v);
        assert forall|j: int| 0 <= j < u.len() implies (#[trigger] u[j].0 == e.0 || exists|k: int|
            0 <= k < s.len() && s[k].0 == u[j].0) by {
            if j == 0 {
                assert(u[0].0 == s[0].0);
            } else {
                assert(u[j] == v[j - 1]);
                if v[j - 1].0 != e.0 {
                    let k = choose|k: int| 0 <= k < d.len() && d[k].0 == v[j - 1].0;
                    assert(s[k + 1].0 == v[j - 1].0);
                }
            }
        }
        assert forall|k: int| 0 <= k < s.len() implies exists|j: int|
            0 <= j < u.len() && #[trigger] u[j].0 == #[trigger] s[k].0 by {
            if k == 0 {
                assert(u[0].0 == s[0].0);
            } else {
                assert(d[k - 1].0 == s[k].0);
                let j = choose|j: int| 0 <= j < v.len() && v[j].0 == d[k - 1].0;
                assert(u[j + 1].0 == s[k].0);
            }
        }
        let j = choose|j: int| 0 <= j < v.len() && v[j].0 == e.0;
        assert(u[j + 1].0 == e.0);
    }
}

/// Folds one entry into a path-sorted, duplicate-free entry vector, as
/// [`spec_upsert`] describes.
fn upsert_entry(out: &mut Vec<FileEntry>, e: FileEntry, buffer: &Vec<u8>)
    requires
        entries_wf(old(out)@, buffer@),
        e.off + e.len <= buffer@.len(),
    ensures
        entries_recs(final(out)@, buffer@) == spec_upsert(
            entries_recs(old(out)@, buffer@),
            entry_rec(e, buffer@),
        ),
        entries_wf(final(out)@, buffer@),
        final(out)@.len() <= old(out)@.len() + 1,
{
    let ghost s0 = entries_recs(out@, buffer@);
    let ghost erec = entry_rec(e, buffer@);
    let mut j: usize = 0;
    while j < out.len()
        invariant
            j <= out@.len(),
            out@ == old(out)@,
            entries_wf(out@, buffer@),
            e.off + e.len <= buffer@.len(),
            s0 == entries_recs(out@, buffer@),
            erec == entry_rec(e, buffer@),
            forall|i: int| 0 <= i < j ==> lex_lt(#[trigger] s0[i].0, erec.0),
        decreases out@.len() - j,
    {
        let e_bytes = e.path.as_str().as_bytes();
        let o_bytes = out[j].path.as_str().as_bytes();
        proof {
            lemma_upsert_skip(s0, erec, j as int);
            assert(s0.skip(j as int)[0] == s0[j as int]);
            assert(s0[j as int] == entry_rec(out@[j as int], buffer@));
        }
        if bytes_eq(o_bytes, e_bytes) {
            proof {
                assert(s0[j as int].0 == erec.0);
            }
            if e.len < out[j].len {
                out.remove(j);
                out.insert(j, e);
                proof {
                    assert(spec_upsert(s0.skip(j as int), erec) == s0.skip(j as int).update(
                        0,
                        erec,
                    ));
                    assert(entries_recs(out@, buffer@) =~= s0.take(j as int) + s0.skip(
                        j as int,
                    ).update(0, erec));
                }
            } else {
                proof {
                    assert(spec_upsert(s0.skip(j as int), erec) == s0.skip(j as int));
                    assert(entries_recs(out@, buffer@) =~= s0.take(j as int) + s0.skip(j as int));
                }
            }
            return ;
        } else if bytes_lt(e_bytes, o_bytes) {
            proof {
                crate::ord::lemma_lex_lt_trichotomy(erec.0, s0[j as int].0);
                assert(spec_upsert(s0.skip(j as int), erec) == s0.skip(j as int).insert(0, erec));
            }
            out.insert(j, e);
            proof {
                assert(entries_recs(out@, buffer@) =~= s0.take(j as int) + s0.skip(
                    j as int,
                ).insert(0, erec));
            }
            return ;
        } else {
            proof {
                crate::ord::lemma_lex_lt_trichotomy(s0[j as int].0, erec.0);
            }
            j = j + 1;
        }
    }
    proof {
        lemma_upsert_skip(s0, erec, j as int);
        assert(s0.skip(j as int).len() == 0);
    }
    out.push(e);
    proof {
        assert(spec_upsert(s0.skip(j as int), erec) =~= seq![erec]);
        assert(entries_recs(out@, buffer@) =~= s0.take(j as int) + seq![erec]);
    }
}

/// Whether some file in `s` has path bytes `q`.
pub open spec fn has_path(s: Seq<FileRecord>, q: Seq<u8>) -> bool {
    exists|i: int| 0 <= i < s.len() && (#[trigger] s[i]).0 == q
}

/// No two files in `s` share a path.
pub open spec fn distinct_paths(s: Seq<FileRecord>) -> bool {
    forall|i: int, k: int| 0 <= i < k < s.len() ==> (#[trigger] s[i]).0 != (#[trigger] s[k]).0
}

/// How many files in `s` have a path that precedes `q` lexicographically.
pub open spec fn count_lt(s: Seq<FileRecord>, q: Seq<u8>) -> int
    decreases s.len(),
{
    if s.len() == 0 {
        0
    } else {
        (if lex_lt(s[0].0, q) {
            1int
        } else {
            0int
        }) + count_lt(s.drop_first(), q)
    }
}

/// Finalization sorts: the result is strictly ordered by path.
pub proof fn lemma_finalize_sorted(pending: Seq<FileRecord>)
    ensures
        sorted_unique(spec_finalize(pending)),
    decreases pending.len(),
{
    if pending.len() > 0 {
        lemma_finalize_sorted(pending.drop_last());
        lemma_upsert_sorted(spec_finalize(pending.drop_last()), pending.last());
    }
}

/// Finalization keeps exactly the registered paths.
pub proof fn lemma_finalize_paths(pending: Seq<FileRecord>)
    ensures
        forall|q: Seq<u8>| has_path(spec_finalize(pending), q) <==> #[trigger] has_path(
            pending,
            q,
        ),
    decreases pending.len(),
{
    if pending.len() == 0 {
    } else {
        let p1 = pending.drop_last();
        let e = pending.last();
        let f1 = spec_finalize(p1);
        let f = spec_upsert(f1, e);
        lemma_finalize_paths(p1);
        lemma_upsert_paths(f1, e);
        assert forall|q: Seq<u8>| has_path(f, q) <==> #[trigger] has_path(pending, q) by {
            if has_path(f, q) {
                let j = choose|j: int| 0 <= j < f.len() && f[j].0 == q;
                if f[j].0 == e.0 {
                    assert(pending[pending.len() - 1].0 == q);
                } else {
                    let k = choose|k: int| 0 <= k < f1.len() && f1[k].0 == f[j].0;
                    assert(has_path(p1, q));
                    let t = choose|t: int| 0 <= t < p1.len() && p1[t].0 == q;
                    assert(pending[t].0 == q);
                }
            }
            if has_path(pending, q) {
                let t = choose|t: int| 0 <= t < pending.len() && pending[t].0 == q;
                if t == pending.len() - 1 {
                    assert(e.0 == q);
                    let j = choose|j: int| 0 <= j < f.len() && f[j].0 == e.0;
                    assert(has_path(f, q));
                } else {
                    assert(p1[t].0 == q);
                    assert(has_path(p1, q));
                    let k = choose|k: int| 0 <= k < f1.len() && f1[k].0 == q;
                    let j = choose|j: int| 0 <= j < f.len() && f[j].0 == f1[k].0;
                    assert(has_path(f, q));
                }
            }
        }
    }
}

/// Dropping the last file removes its contribution to the count.
proof fn lemma_count_lt_drop_last(s: Seq<FileRecord>, q: Seq<u8>)
    requires
        s.len() > 0,
    ensures
        count_lt(s, q) == count_lt(s.drop_last(), q) + (if lex_lt(s.last().0, q) {
            1int
        } else {
            0int
        }),
    decreases s.len(),
{
    if s.len() == 1 {
        assert(s.drop_last() =~= Seq::empty());
        assert(s.drop_first() =~= Seq::empty());
    } else {
        let d = s.drop_first();
        lemma_count_lt_drop_last(d, q);
        assert(d.drop_last() =~= s.drop_last().drop_first());
        assert(d.last() == s.last());
        assert(s.drop_last()[0] == s[0]);
        assert(s.drop_last().len() > 0);
    }
}

/// Folding in a file with a fresh path adds exactly its own contribution.
proof fn lemma_count_lt_upsert(s: Seq<FileRecord>, e: FileRecord, q: Seq<u8>)
    requires
        !has_path(s, e.0),
    ensures
        count_lt(spec_upsert(s, e), q) == count_lt(s, q) + (if lex_lt(e.0, q) {
            1int
        } else {
            0int
        }),
    decreases s.len(),
{
    let u = spec_upsert(s, e);
    let ghost goal = count_lt(s, q) + (if lex_lt(e.0, q) {
        1int
    } else {
        0int
    });
    if s.len() == 0 {
        assert(u == seq![e]);
        assert(u.drop_first() =~= Seq::<FileRecord>::empty());
        assert(u[0] == e);
        assert(count_lt(Seq::<FileRecord>::empty(), q) == 0);
        assert(count_lt(u, q) == goal);
    } else if e.0 == s[0].0 {
        assert(s[0].0 == e.0);
        assert(has_path(s, e.0));
    } else if lex_lt(e.0, s[0].0) {
        assert(u == s.insert(0, e));
        assert(u[0] == e);
        assert(u.drop_first() =~= s);
    } else {
        let d = s.drop_first();
        assert(!has_path(d, e.0)) by {
            if has_path(d, e.0) {
                let i = choose|i: int| 0 <= i < d.len() && d[i].0 == e.0;
                assert(s[i + 1].0 == e.0);
            }
        }
        lemma_count_lt_upsert(d, e, q);
        assert(u == seq![s[0]] + spec_upsert(d, e));
        assert(u[0] == s[0]);
        assert(u.drop_first() =~= spec_upsert(d, e));
    }
}

/// Finalization does not change how many paths precede `q`, as long as the
/// registered paths are distinct.
proof fn lemma_count_lt_finalize(pending: Seq<FileRecord>, q: Seq<u8>)
    requires
        distinct_paths(pending),
    ensures
        count_lt(spec_finalize(pending), q) == count_lt(pending, q),
    decreases pending.len(),
{
    if pending.len() > 0 {
        let p1 = pending.drop_last();
        let e = pending.last();
        let f1 = spec_finalize(p1);
        assert(distinct_paths(p1)) by {
            assert(forall|i: int| 0 <= i < p1.len() ==> p1[i] == #[trigger] pending[i]);
        }
        lemma_count_lt_finalize(p1, q);
        lemma_finalize_paths(p1);
        assert(!has_path(f1, e.0)) by {
            if has_path(f1, e.0) {
                assert(has_path(p1, e.0));
                let i = choose|i: int| 0 <= i < p1.len() && p1[i].0 == e.0;
                assert(pending[i].0 == pending[pending.len() - 1].0);
            }
        }
        lemma_count_lt_upsert(f1, e, q);
        lemma_count_lt_drop_last(pending, q);
    }
}

/// Nothing precedes `q` when no path in `s` does.
proof fn lemma_count_lt_zero(s: Seq<FileRecord>, q: Seq<u8>)
    requires
        forall|i: int| 0 <= i < s.len() ==> !lex_lt((#[trigger] s[i]).0, q),
    ensures
        count_lt(s, q) == 0,
    decreases s.len(),
{
    if s.len() > 0 {
        let d = s.drop_first();
        assert(forall|i: int| 0 <= i < d.len() ==> #[trigger] d[i] == s[i + 1]);
        lemma_count_lt_zero(d, q);
    }
}

/// In a strictly path-sorted sequence, a file's position equals the number
/// of paths that precede its own.
proof fn lemma_count_lt_sorted_rank(s: Seq<FileRecord>, j: int)
    requires
        sorted_unique(s),
        0 <= j < s.len(),
    ensures
        count_lt(s, s[j].0) == j,
    decreases j,
{
    let q = s[j].0;
    let d = s.drop_first();
    assert(forall|i: int| 0 <= i < d.len() ==> #[trigger] d[i] == s[i + 1]);
    assert(sorted_unique(d));
    if j == 0 {
        crate::ord::lemma_lex_lt_irrefl(q);
        assert forall|i: int| 0 <= i < d.len() implies !lex_lt((#[trigger] d[i]).0, q) by {
            assert(lex_lt(s[0].0, s[i + 1].0));
            crate::ord::lemma_lex_lt_trichotomy(q, d[i].0);
        }
        lemma_count_lt_zero(d, q);
    } else {
        assert(lex_lt(s[0].0, q));
        lemma_count_lt_sorted_rank(d, j - 1);
        assert(d[j - 1].0 == q);
    }
}

/// Identifier determinism. When every registered path is distinct, the
/// position of a file in the finalized order — and with it the identifier
/// the registry assigns, which is that position plus one — depends only on
/// which paths were registered, never on the order they came in: it is
/// exactly the number of registered paths that precede the file's path
/// lexicographically.
pub proof fn lemma_finalize_rank(pending: Seq<FileRecord>, j: int)
    requires
        distinct_paths(pending),
        0 <= j < spec_finalize(pending).len(),
    ensures
        j == count_lt(pending, spec_finalize(pending)[j].0),
{
    lemma_finalize_sorted(pending);
    lemma_count_lt_finalize(pending, spec_finalize(pending)[j].0);
    lemma_count_lt_sorted_rank(spec_finalize(pending), j);
}

/// Looking a path up in a mapping whose keys are all distinct finds exactly
/// its own entry. Together with what `finalize` ensures of the identifier
/// mapping and with [`lemma_finalize_rank`], this pins `get_id` down: after
/// finalizing distinct paths, a registered path's identifier is one more
/// than the number of registered paths that precede it lexicographically.
pub proof fn lemma_lookup_unique(m: Seq<(Seq<u8>, u64)>, j: int)
    requires
        0 <= j < m.len(),
        forall|i: int, k: int| 0 <= i < k < m.len() ==> (#[trigger] m[i]).0 != (#[trigger] m[k]).0,
    ensures
        spec_lookup(m, m[j].0) == Some(m[j].1),
    decreases j,
{
    if j > 0 {
        let d = m.drop_first();
        assert(forall|i: int| 0 <= i < d.len() ==> #[trigger] d[i] == m[i + 1]);
        lemma_lookup_unique(d, j - 1);
    }
}

/// An identifier mapping in the shape `finalize` leaves behind — entry `i`
/// pairs the `i`-th finalized path with identifier `i + 1`, and the paths
/// are strictly sorted — maps the path of the `j`-th file to `j + 1`.
pub proof fn lemma_id_map_lookup(m: Seq<(Seq<u8>, u64)>, recs: Seq<FileRecord>, j: int)
    requires
        m.len() == recs.len(),
        forall|i: int| 0 <= i < m.len() ==> #[trigger] m[i] == (recs[i].0, (i + 1) as u64),
        sorted_unique(recs),
        0 <= j < recs.len(),
    ensures
        spec_lookup(m, recs[j].0) == Some((j + 1) as u64),
{
    assert forall|i: int, k: int| 0 <= i < k < m.len() implies (#[trigger] m[i]).0 != (
    #[trigger] m[k]).0 by {
        assert(lex_lt(recs[i].0, recs[k].0));
        crate::ord::lemma_lex_lt_trichotomy(recs[i].0, recs[k].0);
    }
    lemma_lookup_unique(m, j);
}

/// `i` points at the registration that survives for its path: the kept
/// record is `pending[i]` itself, no registration of the same path has
/// shorter content, and every earlier registration of the same path has
/// strictly longer content.
pub open spec fn dedup_witness(pending: Seq<FileRecord>, r: FileRecord, i: int) -> bool {
    &&& 0 <= i < pending.len()
    &&& pending[i] == r
    &&& forall|k: int|
        0 <= k < pending.len() && (#[trigger] pending[k]).0 == r.0 ==> r.1.len()
            <= pending[k].1.len()
    &&& forall|k: int|
        0 <= k < i && (#[trigger] pending[k]).0 == r.0 ==> r.1.len() < pending[k].1.len()
}

/// What folding a file in keeps at each position: either the new file (and
/// then it is strictly shorter than everything of its path that was there),
/// or an old record (of another path, or one the new file could not beat).
proof fn lemma_upsert_member(s: Seq<FileRecord>, e: FileRecord, j: int)
    requires
        sorted_unique(s),
        0 <= j < spec_upsert(s, e).len(),
    ensures
        (spec_upsert(s, e)[j] == e && forall|k: int|
            0 <= k < s.len() && (#[trigger] s[k]).0 == e.0 ==> e.1.len() < s[k].1.len()) || exists|
            k: int,
        |
            0 <= k < s.len() && #[trigger] s[k] == spec_upsert(s, e)[j] && (spec_upsert(s, e)[j].0
                != e.0 || e.1.len() >= spec_upsert(s, e)[j].1.len()),
    decreases s.len(),
{
    let u = spec_upsert(s, e);
    if s.len() == 0 {
        assert(u[0] == e);
    } else if e.0 == s[0].0 {
        assert forall|k: int| 0 < k < s.len() implies (#[trigger] s[k]).0 != e.0 by {
            assert(lex_lt(s[0].0, s[k].0));
            crate::ord::lemma_lex_lt_trichotomy(s[0].0, s[k].0);
        }
        if e.1.len() < s[0].1.len() {
            assert(u == s.update(0, e));
            if j == 0 {
                assert(u[0] == e);
            } else {
                assert(u[j] == s[j]);
            }
        } else {
            assert(u == s);
            assert(s[j] == u[j]);
        }
    } else if lex_lt(e.0, s[0].0) {
        assert(u == s.insert(0, e));
        assert forall|k: int| 0 <= k < s.len() implies (#[trigger] s[k]).0 != e.0 by {
            if k > 0 {
                assert(lex_lt(s[0].0, s[k].0));
                crate::ord::lemma_lex_lt_trans(e.0, s[0].0, s[k].0);
            }
            crate::ord::lemma_lex_lt_trichotomy(e.0, s[k].0);
        }
        if j == 0 {
            assert(u[0] == e);
        } else {
            assert(u[j] == s[j - 1]);
        }
    } else {
        let d = s.drop_first();
        assert(forall|i: int| 0 <= i < d.len() ==> #[trigger] d[i] == s[i + 1]);
        assert(sorted_unique(d));
        assert(u == seq![s[0]] + spec_upsert(d, e));
        crate::ord::lemma_lex_lt_trichotomy(e.0, s[0].0);
        if j == 0 {
            assert(u[0] == s[0]);
            assert(s[0].0 != e.0);
        } else {
            assert(u[j] == spec_upsert(d, e)[j - 1]);
            lemma_upsert_member(d, e, j - 1);
            if spec_upsert(d, e)[j - 1] == e && forall|k: int|
                0 <= k < d.len() && (#[trigger] d[k]).0 == e.0 ==> e.1.len() < d[k].1.len() {
                assert forall|k: int|
                    0 <= k < s.len() && (#[trigger] s[k]).0 == e.0 implies e.1.len()
                    < s[k].1.len() by {
                    assert(k > 0);
                    assert(d[k - 1] == s[k]);
                }
            } else {
                let k = choose|k: int|
                    0 <= k < d.len() && #[trigger] d[k] == spec_upsert(d, e)[j - 1] && (spec_upsert(
                        d,
                        e,
                    )[j - 1].0 != e.0 || e.1.len() >= spec_upsert(d, e)[j - 1].1.len());
                assert(s[k + 1] == u[j]);
            }
        }
    }
}

/// Deduplication: every file the finalized registry keeps is one of the
/// registered `(path, content)` pairs, namely the first occurrence of its
/// path in the sorted order — the registration with the shortest content,
/// and among equally short ones the earliest.
pub proof fn lemma_finalize_dedup(pending: Seq<FileRecord>, j: int)
    requires
        0 <= j < spec_finalize(pending).len(),
    ensures
        exists|i: int| #[trigger] dedup_witness(pending, spec_finalize(pending)[j], i),
    decreases pending.len(),
{
    let p1 = pending.drop_last();
    let e = pending.last();
    let f1 = spec_finalize(p1);
    let f = spec_finalize(pending);
    assert(pending.len() > 0);
    assert(f == spec_upsert(f1, e));
    lemma_finalize_sorted(p1);
    lemma_finalize_paths(p1);
    lemma_upsert_member(f1, e, j);
    assert(forall|i: int| 0 <= i < p1.len() ==> #[trigger] p1[i] == pending[i]);
    if f[j] == e && forall|k: int|
        0 <= k < f1.len() && (#[trigger] f1[k]).0 == e.0 ==> e.1.len() < f1[k].1.len() {
        let i = pending.len() - 1;
        assert forall|k: int|
            0 <= k < pending.len() && (#[trigger] pending[k]).0 == f[j].0 implies f[j].1.len()
            <= pending[k].1.len() by {
            if k < i {
                assert(p1[k].0 == e.0);
                assert(has_path(p1, e.0));
                assert(has_path(f1, e.0));
                let j0 = choose|j0: int| 0 <= j0 < f1.len() && (#[trigger] f1[j0]).0 == e.0;
                lemma_finalize_dedup(p1, j0);
                let i0 = choose|i0: int| #[trigger] dedup_witness(p1, f1[j0], i0);
                assert(f1[j0].1.len() <= p1[k].1.len());
                assert(e.1.len() < f1[j0].1.len());
            }
        }
        assert forall|k: int|
            0 <= k < i && (#[trigger] pending[k]).0 == f[j].0 implies f[j].1.len()
            < pending[k].1.len() by {
            assert(p1[k].0 == e.0);
            assert(has_path(p1, e.0));
            assert(has_path(f1, e.0));
            let j0 = choose|j0: int| 0 <= j0 < f1.len() && (#[trigger] f1[j0]).0 == e.0;
            lemma_finalize_dedup(p1, j0);
            let i0 = choose|i0: int| #[trigger] dedup_witness(p1, f1[j0], i0);
            assert(f1[j0].1.len() <= p1[k].1.len());
            assert(e.1.len() < f1[j0].1.len());
        }
        assert(dedup_witness(pending, f[j], i));
    } else {
        let k0 = choose|k0: int|
            0 <= k0 < f1.len() && #[trigger] f1[k0] == f[j] && (f[j].0 != e.0 || e.1.len()
                >= f[j].1.len());
        lemma_finalize_dedup(p1, k0);
        let i0 = choose|i0: int| #[trigger] dedup_witness(p1, f1[k0], i0);
        assert forall|k: int|
            0 <= k < pending.len() && (#[trigger] pending[k]).0 == f[j].0 implies f[j].1.len()
            <= pending[k].1.len() by {
            if k == pending.len() - 1 {
                assert(pending[k] == e);
                assert(f[j].0 == e.0);
                assert(e.1.len() >= f[j].1.len());
            } else {
                assert(p1[k].0 == f1[k0].0);
            }
        }
        assert forall|k: int|
            0 <= k < i0 && (#[trigger] pending[k]).0 == f[j].0 implies f[j].1.len()
            < pending[k].1.len() by {
            assert(p1[k].0 == f1[k0].0);
            assert(f1[k0].1.len() < p1[k].1.len());
        }
        assert(dedup_witness(pending, f[j], i0));
    }
}

/// Skipping a sorted prefix whose paths all precede `e`'s path commutes
/// with folding `e` in.
proof fn lemma_upsert_skip(s: Seq<FileRecord>, e: FileRecord, j: int)
    requires
        0 <= j <= s.len(),
        forall|i: int| 0 <= i < j ==> lex_lt(#[trigger] s[i].0, e.0),
    ensures
        spec_upsert(s, e) == s.take(j) + spec_upsert(s.skip(j), e),
    decreases j,
{
    if j == 0 {
        assert(s.skip(0) =~= s);
        assert(s.take(0) + spec_upsert(s, e) =~= spec_upsert(s, e));
    } else {
        crate::ord::lemma_lex_lt_trichotomy(s[0].0, e.0);
        let d = s.drop_first();
        assert(forall|i: int| 0 <= i < j - 1 ==> #[trigger] d[i].0 == s[i + 1].0);
        lemma_upsert_skip(d, e, j - 1);
        assert(d.skip(j - 1) =~= s.skip(j));
        assert(seq![s[0]] + (d.take(j - 1) + spec_upsert(d.skip(j - 1), e)) =~= s.take(j)
            + spec_upsert(s.skip(j), e));
    }
}

} // verus!
