//! Compact line-offset index.
//!
//! For one file's bytes, records the byte offset of every line start (offset
//! 0, plus the offset just after each newline), so that a 1-indexed line
//! number maps to its byte range in constant time.

use vstd::prelude::*;

verus! {

/// The line-start offsets of the first `n` bytes of `content`: offset 0,
/// plus offset `k + 1` for every newline byte at offset `k < n`.
pub open spec fn line_starts_upto(content: Seq<u8>, n: int) -> Seq<int>
    decreases n,
{
    if n <= 0 {
        seq![0]
    } else if content[n - 1] == 10u8 {
        line_starts_upto(content, n - 1).push(n)
    } else {
        line_starts_upto(content, n - 1)
    }
}

/// All line-start offsets of `content`.
pub open spec fn line_starts(content: Seq<u8>) -> Seq<int> {
    line_starts_upto(content, content.len() as int)
}

/// Scanning further over bytes that hold no newline adds no line start.
pub proof fn lemma_line_starts_upto_stable(content: Seq<u8>, a: int, b: int)
    requires
        0 <= a <= b,
        forall|k: int| a <= k < b ==> content[k] != 10u8,
    ensures
        line_starts_upto(content, b) == line_starts_upto(content, a),
    decreases b - a,
{
    if b > a {
        lemma_line_starts_upto_stable(content, a, b - 1);
    }
}

/// Relies on `memchr::memchr`: returns the index of the first occurrence of
/// `needle` in `haystack`, or `None` if it does not occur.
#[verifier::external_body]
fn find_byte(needle: u8, haystack: &[u8]) -> (r: Option<usize>)
    ensures
        match r {
            Some(i) => i < haystack@.len() && haystack@[i as int] == needle && forall|j: int|
                0 <= j < i ==> haystack@[j] != needle,
            None => forall|j: int| 0 <= j < haystack@.len() ==> haystack@[j] != needle,
        },
{
    memchr::memchr(needle, haystack)
}

/// Per-file table of line-start byte offsets, plus the content length.
#[derive(Debug)]
pub struct CompactLineOffsets {
    offsets: Vec<usize>,
    content_length: usize,
}

impl Clone for CompactLineOffsets {
    fn clone(&self) -> (r: Self)
        ensures
            r.offs() == self.offs(),
            r.clen() == self.clen(),
    {
        proof {
            use_type_invariant(self);
        }
        CompactLineOffsets { offsets: self.offsets.clone(), content_length: self.content_length }
    }
}

impl CompactLineOffsets {
    /// The recorded line-start offsets.
    pub closed spec fn offs(self) -> Seq<int> {
        self.offsets@.map_values(|o: usize| o as int)
    }

    /// The length of the indexed content.
    pub closed spec fn clen(self) -> int {
        self.content_length as int
    }

    #[verifier::type_invariant]
    spec fn wf(self) -> bool {
        &&& self.offsets@.len() >= 1
        &&& self.offsets@[0] == 0
        &&& forall|i: int|
            0 <= i < self.offsets@.len() - 1 ==> #[trigger] self.offsets@[i] < self.offsets@[i + 1]
        &&& forall|i: int|
            0 <= i < self.offsets@.len() ==> #[trigger] self.offsets@[i] <= self.content_length
    }

    /// Scans `content` once and records every line-start offset.
    pub fn compute(content: &[u8]) -> (r: Self)
        ensures
            r.offs() == line_starts(content@),
            r.clen() == content@.len(),
    {
        let mut offsets: Vec<usize> = Vec::new();
        offsets.push(0);
        let content_length = content.len();
        proof {
            assert(offsets@.map_values(|o: usize| o as int) =~= line_starts_upto(content@, 0));
        }
        let mut current_pos: usize = 0;
        loop
            invariant
                current_pos <= content@.len(),
                content_length == content@.len(),
                offsets@.len() >= 1,
                offsets@[0] == 0,
                forall|i: int|
                    0 <= i < offsets@.len() - 1 ==> #[trigger] offsets@[i] < offsets@[i + 1],
                forall|i: int| 0 <= i < offsets@.len() ==> #[trigger] offsets@[i] <= current_pos,
                offsets@.map_values(|o: usize| o as int) == line_starts_upto(
                    content@,
                    current_pos as int,
                ),
            ensures
                offsets@.map_values(|o: usize| o as int) == line_starts(content@),
                offsets@.len() >= 1,
                offsets@[0] == 0,
                forall|i: int|
                    0 <= i < offsets@.len() - 1 ==> #[trigger] offsets@[i] < offsets@[i + 1],
                forall|i: int| 0 <= i < offsets@.len() ==> #[trigger] offsets@[i] <= content@.len(),
            decreases content@.len() - current_pos,
        {
            let rest = vstd::slice::slice_subrange(content, current_pos, content_length);
            match find_byte(10u8, rest) {
                Some(newline_pos) => {
                    proof {
                        assert(forall|k: int|
                            current_pos <= k < current_pos + newline_pos ==> content@[k] == rest@[
                                k - current_pos
                            ] && content@[k] != 10u8);
                        lemma_line_starts_upto_stable(
                            content@,
                            current_pos as int,
                            current_pos + newline_pos,
                        );
                        assert(content@[current_pos + newline_pos] == 10u8);
                    }
                    let ghost old_offsets = offsets@;
                    current_pos = current_pos + newline_pos + 1;
                    offsets.push(current_pos);
                    proof {
                        assert(offsets@.map_values(|o: usize| o as int) =~= old_offsets.map_values(
                            |o: usize| o as int,
                        ).push(current_pos as int));
                    }
                }
                None => {
                    proof {
                        assert(forall|k: int|
                            current_pos <= k < content@.len() ==> content@[k] == rest@[
                                k - current_pos
                            ] && content@[k] != 10u8);
                        lemma_line_starts_upto_stable(
                            content@,
                            current_pos as int,
                            content@.len() as int,
                        );
                    }
                    break;
                }
            }
        }
        CompactLineOffsets { offsets, content_length }
    }

    /// The byte range `(start, end)` of the 1-indexed line `line`: `start`
    /// is the line's first byte; `end` excludes the terminating newline for
    /// all lines but the last, whose end is the content length. `None` if
    /// `line` is 0 or past the last recorded line.
    pub fn get_line_range(&self, line: usize) -> (r: Option<(usize, usize)>)
        ensures
            match r {
                Some(rg) => 1 <= line <= self.offs().len() && rg.0 == self.offs()[line - 1] && rg.1
                    == (if line < self.offs().len() {
                    self.offs()[line as int] - 1
                } else {
                    self.clen()
                }),
                None => line == 0 || line > self.offs().len(),
            },
    {
        proof {
            use_type_invariant(&*self);
        }
        if line == 0 || line > self.offsets.len() {
            return None;
        }
        let start = self.offsets[line - 1];
        let end = if line < self.offsets.len() {
            self.offsets[line] - 1
        } else {
            self.content_length
        };
        Some((start, end))
    }
}

} // verus!
