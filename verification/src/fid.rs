//! Bit-packed source positions.
//!
//! A span (start line, start column, end line, end column), optionally
//! qualified by a file identifier, is packed into a single 64-bit word.
//! The [`FileId`] trait fixes, per identifier type, the bit layout of the
//! word; [`AbsolutePosition`] embeds a file identifier, [`RelativePosition`]
//! carries only the four numeric fields.

use core::marker::PhantomData;
use vstd::prelude::*;

verus! {

/// A file-identifier policy: a small integer type together with the fixed
/// bit layout it induces on an encoded 64-bit position word.
///
/// The identifier occupies the topmost bits of the word; below it sit the
/// 16-bit start line, the 8-bit start column, the 16-bit end line and the
/// 8-bit end column. Identifier `0` is reserved to mean "no file", so a
/// policy with an `n`-bit identifier supports `2^n - 1` files.
pub trait FileId: Copy + Sized {
    /// The identifier's numeric value.
    spec fn id_u64(self) -> u64;

    /// Maximum number of distinct files this policy supports.
    spec fn spec_max_files() -> usize;

    /// The word that encodes an identifier value and the four span fields.
    spec fn spec_encode(id: u64, start_line: u16, start_col: u8, end_line: u16, end_col: u8) -> u64;

    /// The identifier field of a word.
    spec fn spec_file_id_of(word: u64) -> u64;

    /// The start-line field of a word.
    spec fn spec_start_line_of(word: u64) -> u16;

    /// The start-column field of a word.
    spec fn spec_start_col_of(word: u64) -> u8;

    /// The end-line field of a word.
    spec fn spec_end_line_of(word: u64) -> u16;

    /// The end-column field of a word.
    spec fn spec_end_col_of(word: u64) -> u8;

    /// Every policy supports between 255 and 65535 files, so identifier
    /// values always fit in 16 bits.
    proof fn lemma_max_files()
        ensures
            255 <= Self::spec_max_files() <= 65535,
    ;

    /// An identifier's value never exceeds the policy's capacity.
    proof fn lemma_id_bound(self)
        ensures
            self.id_u64() <= Self::spec_max_files() as u64,
    ;

    /// The identifier field decoded from any word fits the policy.
    proof fn lemma_file_id_of_bound(word: u64)
        ensures
            Self::spec_file_id_of(word) <= Self::spec_max_files() as u64,
    ;

    /// Decoding an encoded word recovers every field exactly.
    proof fn lemma_encode_decode(id: u64, start_line: u16, start_col: u8, end_line: u16, end_col: u8)
        requires
            id <= Self::spec_max_files() as u64,
        ensures
            Self::spec_file_id_of(Self::spec_encode(id, start_line, start_col, end_line, end_col))
                == id,
            Self::spec_start_line_of(
                Self::spec_encode(id, start_line, start_col, end_line, end_col),
            ) == start_line,
            Self::spec_start_col_of(Self::spec_encode(id, start_line, start_col, end_line, end_col))
                == start_col,
            Self::spec_end_line_of(Self::spec_encode(id, start_line, start_col, end_line, end_col))
                == end_line,
            Self::spec_end_col_of(Self::spec_encode(id, start_line, start_col, end_line, end_col))
                == end_col,
    ;

    /// Maximum number of distinct files this policy supports.
    fn max_files() -> (n: usize)
        ensures
            n == Self::spec_max_files(),
    ;

    /// The identifier's numeric value.
    fn id_to_u64(self) -> (r: u64)
        ensures
            r == self.id_u64(),
    ;

    /// The identifier whose value is `v`, if `v` fits the policy.
    fn id_from_u64(v: u64) -> (r: Option<Self>)
        ensures
            r is Some <==> v <= Self::spec_max_files() as u64,
            r matches Some(id) ==> id.id_u64() == v,
    ;

    /// Packs this identifier and the four span fields into one word.
    fn encode_word(self, start_line: u16, start_col: u8, end_line: u16, end_col: u8) -> (w: u64)
        ensures
            w == Self::spec_encode(self.id_u64(), start_line, start_col, end_line, end_col),
    ;

    /// The identifier field of a word.
    fn file_id_of_word(word: u64) -> (r: u64)
        ensures
            r == Self::spec_file_id_of(word),
    ;

    /// The start-line field of a word.
    fn start_line_of_word(word: u64) -> (r: u16)
        ensures
            r == Self::spec_start_line_of(word),
    ;

    /// The start-column field of a word.
    fn start_col_of_word(word: u64) -> (r: u8)
        ensures
            r == Self::spec_start_col_of(word),
    ;

    /// The end-line field of a word.
    fn end_line_of_word(word: u64) -> (r: u16)
        ensures
            r == Self::spec_end_line_of(word),
    ;

    /// The end-column field of a word.
    fn end_col_of_word(word: u64) -> (r: u8)
        ensures
            r == Self::spec_end_col_of(word),
    ;
}

/// 8-bit identifiers: up to 255 files. Layout (bit offsets): id 56, start
/// line 40, start column 32, end line 16, end column 8.
impl FileId for u8 {
    open spec fn id_u64(self) -> u64 {
        self as u64
    }

    open spec fn spec_max_files() -> usize {
        255
    }

    open spec fn spec_encode(id: u64, start_line: u16, start_col: u8, end_line: u16, end_col: u8) -> u64 {
        (id << 56) | ((start_line as u64) << 40) | ((start_col as u64) << 32)
            | ((end_line as u64) << 16) | ((end_col as u64) << 8)
    }

    open spec fn spec_file_id_of(word: u64) -> u64 {
        (word & 0xFF00_0000_0000_0000) >> 56
    }

    open spec fn spec_start_line_of(word: u64) -> u16 {
        ((word >> 40) & 0xFFFF) as u16
    }

    open spec fn spec_start_col_of(word: u64) -> u8 {
        ((word >> 32) & 0xFF) as u8
    }

    open spec fn spec_end_line_of(word: u64) -> u16 {
        ((word >> 16) & 0xFFFF) as u16
    }

    open spec fn spec_end_col_of(word: u64) -> u8 {
        ((word >> 8) & 0xFF) as u8
    }

    proof fn lemma_max_files() {
    }

    proof fn lemma_id_bound(self) {
    }

    proof fn lemma_file_id_of_bound(word: u64) {
        assert((word & 0xFF00_0000_0000_0000) >> 56 <= 255) by (bit_vector);
    }

    proof fn lemma_encode_decode(
        id: u64,
        start_line: u16,
        start_col: u8,
        end_line: u16,
        end_col: u8,
    ) {
        let w = (id << 56) | ((start_line as u64) << 40) | ((start_col as u64) << 32)
            | ((end_line as u64) << 16) | ((end_col as u64) << 8);
        assert((w & 0xFF00_0000_0000_0000) >> 56 == id && ((w >> 40) & 0xFFFF) as u16 == start_line
            && ((w >> 32) & 0xFF) as u8 == start_col && ((w >> 16) & 0xFFFF) as u16 == end_line
            && ((w >> 8) & 0xFF) as u8 == end_col) by (bit_vector)
            requires
                id <= 255,
                w == (id << 56) | ((start_line as u64) << 40) | ((start_col as u64) << 32)
                    | ((end_line as u64) << 16) | ((end_col as u64) << 8),
        ;
    }

    fn max_files() -> usize {
        255
    }

    fn id_to_u64(self) -> u64 {
        self as u64
    }

    fn id_from_u64(v: u64) -> Option<Self> {
        if v <= 255 {
            proof {
                assert(v <= 255 ==> (v as u8) as u64 == v) by (bit_vector);
            }
            Some(v as u8)
        } else {
            None
        }
    }

    fn encode_word(self, start_line: u16, start_col: u8, end_line: u16, end_col: u8) -> u64 {
        ((self as u64) << 56) | ((start_line as u64) << 40) | ((start_col as u64) << 32)
            | ((end_line as u64) << 16) | ((end_col as u64) << 8)
    }

    fn file_id_of_word(word: u64) -> u64 {
        (word & 0xFF00_0000_0000_0000) >> 56
    }

    fn start_line_of_word(word: u64) -> u16 {
        ((word >> 40) & 0xFFFF) as u16
    }

    fn start_col_of_word(word: u64) -> u8 {
        ((word >> 32) & 0xFF) as u8
    }

    fn end_line_of_word(word: u64) -> u16 {
        ((word >> 16) & 0xFFFF) as u16
    }

    fn end_col_of_word(word: u64) -> u8 {
        ((word >> 8) & 0xFF) as u8
    }
}

/// 16-bit identifiers: up to 65535 files. Layout (bit offsets): id 48, start
/// line 32, start column 24, end line 8, end column 0.
impl FileId for u16 {
    open spec fn id_u64(self) -> u64 {
        self as u64
    }

    open spec fn spec_max_files() -> usize {
        65535
    }

    open spec fn spec_encode(id: u64, start_line: u16, start_col: u8, end_line: u16, end_col: u8) -> u64 {
        (id << 48) | ((start_line as u64) << 32) | ((start_col as u64) << 24)
            | ((end_line as u64) << 8) | (end_col as u64)
    }

    open spec fn spec_file_id_of(word: u64) -> u64 {
        (word & 0xFFFF_0000_0000_0000) >> 48
    }

    open spec fn spec_start_line_of(word: u64) -> u16 {
        ((word >> 32) & 0xFFFF) as u16
    }

    open spec fn spec_start_col_of(word: u64) -> u8 {
        ((word >> 24) & 0xFF) as u8
    }

    open spec fn spec_end_line_of(word: u64) -> u16 {
        ((word >> 8) & 0xFFFF) as u16
    }

    open spec fn spec_end_col_of(word: u64) -> u8 {
        (word & 0xFF) as u8
    }

    proof fn lemma_max_files() {
    }

    proof fn lemma_id_bound(self) {
    }

    proof fn lemma_file_id_of_bound(word: u64) {
        assert((word & 0xFFFF_0000_0000_0000) >> 48 <= 65535) by (bit_vector);
    }

    proof fn lemma_encode_decode(
        id: u64,
        start_line: u16,
        start_col: u8,
        end_line: u16,
        end_col: u8,
    ) {
        let w = (id << 48) | ((start_line as u64) << 32) | ((start_col as u64) << 24)
            | ((end_line as u64) << 8) | (end_col as u64);
        assert((w & 0xFFFF_0000_0000_0000) >> 48 == id && ((w >> 32) & 0xFFFF) as u16 == start_line
            && ((w >> 24) & 0xFF) as u8 == start_col && ((w >> 8) & 0xFFFF) as u16 == end_line
            && (w & 0xFF) as u8 == end_col) by (bit_vector)
            requires
                id <= 65535,
                w == (id << 48) | ((start_line as u64) << 32) | ((start_col as u64) << 24)
                    | ((end_line as u64) << 8) | (end_col as u64),
        ;
    }

    fn max_files() -> usize {
        65535
    }

    fn id_to_u64(self) -> u64 {
        self as u64
    }

    fn id_from_u64(v: u64) -> Option<Self> {
        if v <= 65535 {
            proof {
                assert(v <= 65535 ==> (v as u16) as u64 == v) by (bit_vector);
            }
            Some(v as u16)
        } else {
            None
        }
    }

    fn encode_word(self, start_line: u16, start_col: u8, end_line: u16, end_col: u8) -> u64 {
        ((self as u64) << 48) | ((start_line as u64) << 32) | ((start_col as u64) << 24)
            | ((end_line as u64) << 8) | (end_col as u64)
    }

    fn file_id_of_word(word: u64) -> u64 {
        (word & 0xFFFF_0000_0000_0000) >> 48
    }

    fn start_line_of_word(word: u64) -> u16 {
        ((word >> 32) & 0xFFFF) as u16
    }

    fn start_col_of_word(word: u64) -> u8 {
        ((word >> 24) & 0xFF) as u8
    }

    fn end_line_of_word(word: u64) -> u16 {
        ((word >> 8) & 0xFFFF) as u16
    }

    fn end_col_of_word(word: u64) -> u8 {
        (word & 0xFF) as u8
    }
}

/// Read access to the components of an encoded position.
pub trait SourceFilePosition {
    /// The embedded file identifier, or `None` for relative positions.
    spec fn spec_source_file_id(&self) -> Option<u16>;

    /// The start-line field.
    spec fn spec_start_line(&self) -> u16;

    /// The start-column field.
    spec fn spec_start_column(&self) -> u8;

    /// The end-line field.
    spec fn spec_end_line(&self) -> u16;

    /// The end-column field.
    spec fn spec_end_column(&self) -> u8;

    /// The embedded file identifier, or `None` for relative positions.
    fn source_file_id(&self) -> (r: Option<u16>)
        ensures
            r == self.spec_source_file_id(),
    ;

    /// The start-line field.
    fn start_line(&self) -> (r: u16)
        ensures
            r == self.spec_start_line(),
    ;

    /// The start-column field.
    fn start_column(&self) -> (r: u8)
        ensures
            r == self.spec_start_column(),
    ;

    /// The end-line field.
    fn end_line(&self) -> (r: u16)
        ensures
            r == self.spec_end_line(),
    ;

    /// The end-column field.
    fn end_column(&self) -> (r: u8)
        ensures
            r == self.spec_end_column(),
    ;
}

/// A span together with the identifier of the file it lies in, packed into
/// one 64-bit word under the layout of the identifier type `Id`.
#[derive(Debug, Copy, PartialEq, Eq)]
pub struct AbsolutePosition<Id: FileId> {
    word: u64,
    id_type: PhantomData<Id>,
}

impl<Id: FileId> Clone for AbsolutePosition<Id> {
    fn clone(&self) -> (r: Self)
        ensures
            r == *self,
    {
        *self
    }
}

impl<Id: FileId> AbsolutePosition<Id> {
    /// The encoded 64-bit word.
    pub closed spec fn raw(self) -> u64 {
        self.word
    }

    /// The numeric value of the embedded file identifier.
    pub open spec fn spec_file_id_u64(self) -> u64 {
        Id::spec_file_id_of(self.raw())
    }

    /// Packs a file identifier and the four span fields into a position.
    /// Decoding the result recovers every field exactly.
    pub fn new(file_id: Id, start_line: u16, start_col: u8, end_line: u16, end_col: u8) -> (r:
        Self)
        ensures
            r.raw() == Id::spec_encode(file_id.id_u64(), start_line, start_col, end_line, end_col),
            r.spec_file_id_u64() == file_id.id_u64(),
            r.spec_source_file_id() == Some(file_id.id_u64() as u16),
            r.spec_start_line() == start_line,
            r.spec_start_column() == start_col,
            r.spec_end_line() == end_line,
            r.spec_end_column() == end_col,
    {
        proof {
            file_id.lemma_id_bound();
            Id::lemma_encode_decode(file_id.id_u64(), start_line, start_col, end_line, end_col);
        }
        let word = file_id.encode_word(start_line, start_col, end_line, end_col);
        AbsolutePosition { word, id_type: PhantomData }
    }

    /// The raw encoded word.
    pub fn as_raw(&self) -> (r: u64)
        ensures
            r == self.raw(),
    {
        self.word
    }

    /// The position whose encoded word is `word`. A foreign word is taken
    /// as it is; each accessor masks out its own field.
    pub fn from_raw(word: u64) -> (r: Self)
        ensures
            r.raw() == word,
    {
        AbsolutePosition { word, id_type: PhantomData }
    }

    /// The embedded file identifier, as the identifier type.
    pub fn file_id(&self) -> (r: Id)
        ensures
            r.id_u64() == self.spec_file_id_u64(),
    {
        proof {
            Id::lemma_file_id_of_bound(self.word);
        }
        let idv = Id::file_id_of_word(self.word);
        match Id::id_from_u64(idv) {
            Some(id) => id,
            None => vstd::pervasive::unreached(),
        }
    }
}

impl<Id: FileId> SourceFilePosition for AbsolutePosition<Id> {
    open spec fn spec_source_file_id(&self) -> Option<u16> {
        Some(Id::spec_file_id_of(self.raw()) as u16)
    }

    open spec fn spec_start_line(&self) -> u16 {
        Id::spec_start_line_of(self.raw())
    }

    open spec fn spec_start_column(&self) -> u8 {
        Id::spec_start_col_of(self.raw())
    }

    open spec fn spec_end_line(&self) -> u16 {
        Id::spec_end_line_of(self.raw())
    }

    open spec fn spec_end_column(&self) -> u8 {
        Id::spec_end_col_of(self.raw())
    }

    fn source_file_id(&self) -> Option<u16> {
        Some(Id::file_id_of_word(self.word) as u16)
    }

    fn start_line(&self) -> u16 {
        Id::start_line_of_word(self.word)
    }

    fn start_column(&self) -> u8 {
        Id::start_col_of_word(self.word)
    }

    fn end_line(&self) -> u16 {
        Id::end_line_of_word(self.word)
    }

    fn end_column(&self) -> u8 {
        Id::end_col_of_word(self.word)
    }
}

/// The word that encodes the four span fields of a relative position.
/// Layout (bit offsets): start line 32, start column 24, end line 8, end
/// column 0; the top 16 bits stay clear.
pub open spec fn rel_encode(start_line: u16, start_col: u8, end_line: u16, end_col: u8) -> u64 {
    ((start_line as u64) << 32) | ((start_col as u64) << 24) | ((end_line as u64) << 8)
        | (end_col as u64)
}

/// The start-line field of a relative-position word.
pub open spec fn rel_start_line_of(word: u64) -> u16 {
    ((word >> 32) & 0xFFFF) as u16
}

/// The start-column field of a relative-position word.
pub open spec fn rel_start_col_of(word: u64) -> u8 {
    ((word >> 24) & 0xFF) as u8
}

/// The end-line field of a relative-position word.
pub open spec fn rel_end_line_of(word: u64) -> u16 {
    ((word >> 8) & 0xFFFF) as u16
}

/// The end-column field of a relative-position word.
pub open spec fn rel_end_col_of(word: u64) -> u8 {
    (word & 0xFF) as u8
}

/// Decoding an encoded relative-position word recovers every field exactly.
pub proof fn lemma_rel_encode_decode(start_line: u16, start_col: u8, end_line: u16, end_col: u8)
    ensures
        rel_start_line_of(rel_encode(start_line, start_col, end_line, end_col)) == start_line,
        rel_start_col_of(rel_encode(start_line, start_col, end_line, end_col)) == start_col,
        rel_end_line_of(rel_encode(start_line, start_col, end_line, end_col)) == end_line,
        rel_end_col_of(rel_encode(start_line, start_col, end_line, end_col)) == end_col,
{
    let w = ((start_line as u64) << 32) | ((start_col as u64) << 24) | ((end_line as u64) << 8)
        | (end_col as u64);
    assert(((w >> 32) & 0xFFFF) as u16 == start_line && ((w >> 24) & 0xFF) as u8 == start_col
        && ((w >> 8) & 0xFFFF) as u16 == end_line && (w & 0xFF) as u8 == end_col) by (bit_vector)
        requires
            w == ((start_line as u64) << 32) | ((start_col as u64) << 24) | ((end_line as u64)
                << 8) | (end_col as u64),
    ;
}

/// A span with no embedded file identifier, interpreted against a file known
/// from context, packed into one 64-bit word.
#[derive(Debug, Clone, Copy, PartialEq, Eq)]
pub struct RelativePosition {
    word: u64,
}

impl RelativePosition {
    /// The encoded 64-bit word.
    pub closed spec fn raw(self) -> u64 {
        self.word
    }

    /// Packs the four span fields into a position. Decoding the result
    /// recovers every field exactly.
    pub fn new(start_line: u16, start_col: u8, end_line: u16, end_col: u8) -> (r: Self)
        ensures
            r.raw() == rel_encode(start_line, start_col, end_line, end_col),
            r.spec_source_file_id() is None,
            r.spec_start_line() == start_line,
            r.spec_start_column() == start_col,
            r.spec_end_line() == end_line,
            r.spec_end_column() == end_col,
    {
        proof {
            lemma_rel_encode_decode(start_line, start_col, end_line, end_col);
        }
        let word = ((start_line as u64) << 32) | ((start_col as u64) << 24) | ((end_line as u64)
            << 8) | (end_col as u64);
        RelativePosition { word }
    }

    /// The raw encoded word.
    pub fn as_raw(&self) -> (r: u64)
        ensures
            r == self.raw(),
    {
        self.word
    }

    /// The position whose encoded word is `word`. A foreign word is taken
    /// as it is; each accessor masks out its own field.
    pub fn from_raw(word: u64) -> (r: Self)
        ensures
            r.raw() == word,
    {
        RelativePosition { word }
    }
}

impl SourceFilePosition for RelativePosition {
    open spec fn spec_source_file_id(&self) -> Option<u16> {
        None
    }

    open spec fn spec_start_line(&self) -> u16 {
        rel_start_line_of(self.raw())
    }

    open spec fn spec_start_column(&self) -> u8 {
        rel_start_col_of(self.raw())
    }

    open spec fn spec_end_line(&self) -> u16 {
        rel_end_line_of(self.raw())
    }

    open spec fn spec_end_column(&self) -> u8 {
        rel_end_col_of(self.raw())
    }

    fn source_file_id(&self) -> Option<u16> {
        None
    }

    fn start_line(&self) -> u16 {
        ((self.word >> 32) & 0xFFFF) as u16
    }

    fn start_column(&self) -> u8 {
        ((self.word >> 24) & 0xFF) as u8
    }

    fn end_line(&self) -> u16 {
        ((self.word >> 8) & 0xFFFF) as u16
    }

    fn end_column(&self) -> u8 {
        (self.word & 0xFF) as u8
    }
}

/// An absolute position and a relative position built from the same four
/// span fields decode to the same four values; the absolute one carries a
/// file identifier, the relative one does not.
pub proof fn lemma_cross_codec<Id: FileId>(
    a: AbsolutePosition<Id>,
    r: RelativePosition,
    id: u64,
    start_line: u16,
    start_col: u8,
    end_line: u16,
    end_col: u8,
)
    requires
        id <= Id::spec_max_files() as u64,
        a.raw() == Id::spec_encode(id, start_line, start_col, end_line, end_col),
        r.raw() == rel_encode(start_line, start_col, end_line, end_col),
    ensures
        a.spec_start_line() == r.spec_start_line(),
        a.spec_start_column() == r.spec_start_column(),
        a.spec_end_line() == r.spec_end_line(),
        a.spec_end_column() == r.spec_end_column(),
        a.spec_start_line() == start_line,
        a.spec_start_column() == start_col,
        a.spec_end_line() == end_line,
        a.spec_end_column() == end_col,
        a.spec_source_file_id() is Some,
        r.spec_source_file_id() is None,
{
    Id::lemma_encode_decode(id, start_line, start_col, end_line, end_col);
    lemma_rel_encode_decode(start_line, start_col, end_line, end_col);
}

/// 8-bit-identifier absolute position: supports up to 255 files.
pub type CompactAbsolutePosition = AbsolutePosition<u8>;

/// 16-bit-identifier absolute position: supports up to 65535 files.
pub type StandardAbsolutePosition = AbsolutePosition<u16>;

} // verus!
