//! Reading from the archive buffer: big-endian words at absolute positions,
//! entry records, file contents, and names out of the decoded string pool.

use vstd::prelude::*;
use vstd::slice::{slice_subrange, slice_to_vec};
use vstd::string::StringSliceAdditionalSpecFns;
use vstd::utf8::{
    decode_first_scalar, decode_utf8, is_char_boundary, is_char_boundary_iff_is_leading_byte,
    is_char_boundary_iff_not_is_continuation_byte, is_char_boundary_start_end_of_seq,
    pop_first_scalar, valid_first_scalar, valid_utf8, valid_utf8_split,
};
use byteorder::{BigEndian, ByteOrder};
use crate::error::DecodeError;

verus! {

/// The value of the first four bytes of `b`, most significant byte first.
pub open spec fn be_u32(b: Seq<u8>) -> u32
    recommends
        b.len() >= 4,
{
    (b[0] as int * 0x100_0000 + b[1] as int * 0x1_0000 + b[2] as int * 0x100 + b[3] as int) as u32
}

/// The big-endian word at byte position `pos`, where the buffer holds four
/// bytes from there on.
pub open spec fn spec_u32_at(data: Seq<u8>, pos: int) -> Option<u32> {
    if 0 <= pos && pos + 4 <= data.len() {
        Some(be_u32(data.subrange(pos, pos + 4)))
    } else {
        None
    }
}

/// One record of the table: three big-endian words.
#[derive(Clone, Copy, Debug)]
pub struct Entry {
    /// Type tag in the top 8 bits, name offset in the low 24.
    pub word: u32,
    /// A file's content offset; a directory's parent index.
    pub field_b: u32,
    /// A file's content length; a directory's exclusive end index.
    pub field_c: u32,
}

impl Entry {
    pub open spec fn spec_tag(self) -> u32 {
        self.word >> 24
    }

    pub open spec fn spec_name_offset(self) -> u32 {
        self.word & 0xFFFFFF
    }

    /// The type tag: the top 8 bits of the first word.
    pub fn tag(&self) -> (r: u32)
        ensures
            r == self.spec_tag(),
    {
        self.word >> 24
    }

    /// The name's offset into the string pool: the low 24 bits of the first
    /// word.
    pub fn name_offset(&self) -> (r: u32)
        ensures
            r == self.spec_name_offset(),
    {
        self.word & 0xFFFFFF
    }
}

/// The record at byte position `ptr`, where the buffer holds all twelve bytes
/// of it.
pub open spec fn spec_entry(data: Seq<u8>, ptr: int) -> Option<Entry> {
    if 0 <= ptr && ptr + 12 <= data.len() {
        Some(
            Entry {
                word: be_u32(data.subrange(ptr, ptr + 4)),
                field_b: be_u32(data.subrange(ptr + 4, ptr + 8)),
                field_c: be_u32(data.subrange(ptr + 8, ptr + 12)),
            },
        )
    } else {
        None
    }
}

/// The bytes of a file whose record gives `offset` and `len`: exactly the
/// bytes `[offset, offset + len)` of the buffer, or nothing where that range
/// runs past the buffer.
pub open spec fn spec_content(data: Seq<u8>, offset: int, len: int) -> Option<Seq<u8>>
    recommends
        0 <= offset,
        0 <= len,
{
    if offset + len <= data.len() {
        Some(data.subrange(offset, offset + len))
    } else {
        None
    }
}

/// The position of the first NUL byte at or after `from`, or the pool's
/// length where there is none.
pub open spec fn name_end(pool: Seq<u8>, from: int) -> int
    recommends
        0 <= from,
    decreases pool.len() - from,
{
    if from >= pool.len() {
        pool.len() as int
    } else if pool[from] == 0 {
        from
    } else {
        name_end(pool, from + 1)
    }
}

/// The bytes of the name at byte position `offset` of the pool: from there
/// up to the next NUL byte, or to the pool's end.
pub open spec fn name_bytes(pool: Seq<u8>, offset: int) -> Seq<u8>
    recommends
        0 <= offset <= pool.len(),
{
    pool.subrange(offset, name_end(pool, offset))
}

/// The name at byte position `offset` of the pool: the text of its bytes. An
/// offset at or past the pool's end names the empty string. Where the bytes
/// are not text, the offset falls inside a character, and there is no name.
pub open spec fn spec_name(pool: Seq<u8>, offset: u32) -> Result<Seq<char>, DecodeError> {
    if offset < pool.len() {
        if valid_utf8(name_bytes(pool, offset as int)) {
            Ok(decode_utf8(name_bytes(pool, offset as int)))
        } else {
            Err(DecodeError::NameOffset(offset))
        }
    } else {
        Ok(Seq::empty())
    }
}

/// The text that the bytes `[start, end)` of the buffer hold: out of bounds
/// where the range does not lie in the buffer, invalid where the bytes are
/// not UTF-8.
pub open spec fn spec_text(data: Seq<u8>, start: int, end: int) -> Result<Seq<char>, DecodeError> {
    if !(0 <= start <= end <= data.len()) {
        Err(DecodeError::OutOfBounds)
    } else if !valid_utf8(data.subrange(start, end)) {
        Err(DecodeError::InvalidText)
    } else {
        Ok(decode_utf8(data.subrange(start, end)))
    }
}

/// Calls `byteorder::BigEndian::read_u32`, which reads the first four bytes
/// of the slice as a big-endian number and panics on a shorter slice. The
/// contract states that value and is not proved here.
#[verifier::external_body]
fn be_read_u32(buf: &[u8]) -> (r: u32)
    requires
        buf@.len() >= 4,
    ensures
        r == be_u32(buf@),
{
    BigEndian::read_u32(buf)
}

/// Calls `String::from_utf8`, which hands the bytes back as a string exactly
/// when they are valid UTF-8. The contract states this over vstd's model of
/// UTF-8 and is not proved here.
#[verifier::external_body]
fn text_of(bytes: Vec<u8>) -> (r: Option<String>)
    ensures
        r is Some <==> valid_utf8(bytes@),
        r matches Some(s) ==> s@ == decode_utf8(bytes@),
{
    String::from_utf8(bytes).ok()
}

/// Reads the big-endian word at byte position `pos`; `None` where the read
/// would run past the buffer.
pub fn read_u32_at(data: &[u8], pos: u64) -> (r: Option<u32>)
    ensures
        r == spec_u32_at(data@, pos as int),
        r is Some ==> pos + 4 <= u64::MAX,
{
    let len: usize = data.len();
    if len < 4 || pos > (len - 4) as u64 {
        return None;
    }
    let start: usize = pos as usize;
    let word = slice_subrange(data, start, start + 4);
    Some(be_read_u32(word))
}

/// A reader over an immutable buffer: it can be moved to any byte position
/// and reads big-endian words one after another from where it stands.
pub struct ByteCursor<'a> {
    data: &'a [u8],
    position: u64,
}

impl<'a> ByteCursor<'a> {
    /// The bytes that the cursor reads from.
    pub closed spec fn buffer(&self) -> Seq<u8> {
        self.data@
    }

    /// The byte position of the next read.
    pub closed spec fn pos(&self) -> u64 {
        self.position
    }

    /// A cursor at the start of `data`.
    pub fn new(data: &'a [u8]) -> (r: ByteCursor<'a>)
        ensures
            r.buffer() == data@,
            r.pos() == 0,
    {
        ByteCursor { data, position: 0 }
    }

    pub fn position(&self) -> (r: u64)
        ensures
            r == self.pos(),
    {
        self.position
    }

    /// Moves the cursor to byte position `pos`, which may lie past the
    /// buffer: only a read there fails.
    pub fn set_position(&mut self, pos: u64)
        ensures
            final(self).pos() == pos,
            final(self).buffer() == old(self).buffer(),
    {
        self.position = pos;
    }

    pub fn get_ref(&self) -> (r: &'a [u8])
        ensures
            r@ == self.buffer(),
    {
        self.data
    }

    /// Reads the big-endian word at the cursor and moves the cursor past it.
    /// A read that would run past the buffer fails and leaves the cursor
    /// where it was.
    pub fn read_u32(&mut self) -> (r: Result<u32, DecodeError>)
        ensures
            final(self).buffer() == old(self).buffer(),
            match spec_u32_at(old(self).buffer(), old(self).pos() as int) {
                Some(word) => r == Ok::<u32, DecodeError>(word) && final(self).pos() == old(
                    self,
                ).pos() + 4,
                None => r == Err::<u32, DecodeError>(DecodeError::OutOfBounds) && final(self).pos()
                    == old(self).pos(),
            },
    {
        match read_u32_at(self.data, self.position) {
            Some(word) => {
                self.position = self.position + 4;
                Ok(word)
            },
            None => Err(DecodeError::OutOfBounds),
        }
    }
}

/// Reads the record at byte position `ptr`: three words, one after another.
/// `None` where any of them would run past the buffer.
pub fn read_entry(data: &[u8], ptr: u64) -> (r: Option<Entry>)
    ensures
        r == spec_entry(data@, ptr as int),
        r is Some ==> ptr + 12 <= u64::MAX,
{
    let mut cursor = ByteCursor::new(data);
    cursor.set_position(ptr);
    let word = match cursor.read_u32() {
        Ok(word) => word,
        Err(_) => {
            return None;
        },
    };
    let field_b = match cursor.read_u32() {
        Ok(word) => word,
        Err(_) => {
            return None;
        },
    };
    let field_c = match cursor.read_u32() {
        Ok(word) => word,
        Err(_) => {
            return None;
        },
    };
    Some(Entry { word, field_b, field_c })
}

/// Copies a file's content out of the buffer; `None` where its range runs
/// past the buffer.
pub fn read_content(data: &[u8], offset: u32, len: u32) -> (r: Option<Vec<u8>>)
    ensures
        match spec_content(data@, offset as int, len as int) {
            Some(bytes) => r matches Some(v) && v@ == bytes,
            None => r is None,
        },
{
    let stop: u64 = offset as u64 + len as u64;
    if stop > data.len() as u64 {
        return None;
    }
    Some(slice_to_vec(slice_subrange(data, offset as usize, stop as usize)))
}

/// Decodes the bytes `[start, end)` of the buffer as text.
pub fn read_text(data: &[u8], start: u64, end: u64) -> (r: Result<String, DecodeError>)
    ensures
        match spec_text(data@, start as int, end as int) {
            Ok(text) => r matches Ok(s) && s@ == text,
            Err(e) => r == Err::<String, DecodeError>(e),
        },
{
    if start > end || end > data.len() as u64 {
        return Err(DecodeError::OutOfBounds);
    }
    let bytes = slice_to_vec(slice_subrange(data, start as usize, end as usize));
    match text_of(bytes) {
        Some(s) => Ok(s),
        None => Err(DecodeError::InvalidText),
    }
}

/// Extracts the name at byte position `offset` of the decoded pool.
pub fn extract_name(pool: &str, offset: u32) -> (r: Result<String, DecodeError>)
    ensures
        match spec_name(pool.spec_bytes(), offset) {
            Ok(name) => r matches Ok(s) && s@ == name,
            Err(e) => r == Err::<String, DecodeError>(e),
        },
{
    let bytes = pool.as_bytes();
    let n: usize = bytes.len();
    if offset as u64 >= n as u64 {
        return Ok(String::new());
    }
    let start: usize = offset as usize;
    let mut end: usize = start;
    while end < n && bytes[end] != 0
        invariant
            start <= end <= n,
            n == bytes@.len(),
            name_end(bytes@, start as int) == name_end(bytes@, end as int),
        decreases n - end,
    {
        end += 1;
    }
    let run = slice_to_vec(slice_subrange(bytes, start, end));
    match text_of(run) {
        Some(name) => Ok(name),
        None => Err(DecodeError::NameOffset(offset)),
    }
}

/// `name_end` is the least position at or after `from` that holds a NUL byte
/// or lies at the pool's end.
pub proof fn lemma_name_end(pool: Seq<u8>, from: int)
    requires
        0 <= from <= pool.len(),
    ensures
        from <= name_end(pool, from) <= pool.len(),
        forall|i: int| from <= i < name_end(pool, from) ==> #[trigger] pool[i] != 0,
        name_end(pool, from) == pool.len() || pool[name_end(pool, from)] == 0,
    decreases pool.len() - from,
{
    if from < pool.len() && pool[from] != 0 {
        lemma_name_end(pool, from + 1);
    }
}

/// A name's bytes are the pool's content between its offset and the next NUL
/// byte, verbatim: a run of the pool that starts at the offset, holds no NUL,
/// and ends at a NUL or at the pool's end. The name is the text of exactly
/// these bytes, and there is a name exactly where they are text.
pub proof fn lemma_name_verbatim(pool: Seq<u8>, offset: u32)
    requires
        offset <= pool.len(),
    ensures
        offset + name_bytes(pool, offset as int).len() == name_end(pool, offset as int),
        name_end(pool, offset as int) <= pool.len(),
        forall|i: int|
            0 <= i < name_bytes(pool, offset as int).len() ==> #[trigger] name_bytes(
                pool,
                offset as int,
            )[i] == pool[offset + i] && pool[offset + i] != 0,
        name_end(pool, offset as int) == pool.len() || pool[name_end(pool, offset as int)] == 0,
        spec_name(pool, offset) is Ok <==> valid_utf8(name_bytes(pool, offset as int)),
        spec_name(pool, offset) matches Ok(name) ==> name == decode_utf8(
            name_bytes(pool, offset as int),
        ),
{
    lemma_name_end(pool, offset as int);
    if offset == pool.len() {
        assert(name_bytes(pool, offset as int) =~= Seq::<u8>::empty());
        lemma_ascii_text(name_bytes(pool, offset as int));
        assert(decode_utf8(name_bytes(pool, offset as int)) =~= Seq::<char>::empty());
    }
}

/// A file's content is exactly the bytes `[offset, offset + len)` of the
/// buffer, no more and no fewer, and there is a content exactly where that
/// range lies in the buffer.
pub proof fn lemma_content_exact(data: Seq<u8>, offset: int, len: int)
    requires
        0 <= offset,
        0 <= len,
    ensures
        spec_content(data, offset, len) is Some <==> offset + len <= data.len(),
        spec_content(data, offset, len) matches Some(bytes) ==> bytes.len() == len && forall|
            i: int,
        |
            0 <= i < len ==> #[trigger] bytes[i] == data[offset + i],
{
}

/// Every byte is an ASCII byte.
pub open spec fn ascii_bytes(bytes: Seq<u8>) -> bool {
    forall|i: int| 0 <= i < bytes.len() ==> #[trigger] bytes[i] < 0x80
}

/// ASCII bytes are text, character for byte: they decode, to as many
/// characters as there are bytes, and each character is the byte at its
/// position.
pub proof fn lemma_ascii_text(bytes: Seq<u8>)
    requires
        ascii_bytes(bytes),
    ensures
        valid_utf8(bytes),
        decode_utf8(bytes).len() == bytes.len(),
        forall|i: int|
            0 <= i < bytes.len() ==> (#[trigger] decode_utf8(bytes)[i]) as u32 == bytes[i] as u32,
    decreases bytes.len(),
{
    if bytes.len() > 0 {
        let b = bytes[0];
        let rest = bytes.subrange(1, bytes.len() as int);
        assert forall|i: int| 0 <= i < rest.len() implies #[trigger] rest[i] < 0x80 by {
            assert(rest[i] == bytes[i + 1]);
        }
        lemma_ascii_text(rest);
        assert((b & 0x7F) as u32 == b as u32) by (bit_vector)
            requires
                b < 0x80,
        ;
        assert(valid_first_scalar(bytes));
        assert(pop_first_scalar(bytes) == rest);
        assert(decode_utf8(bytes) == seq![decode_first_scalar(bytes) as char] + decode_utf8(rest));
        assert forall|i: int| 0 <= i < bytes.len() implies (#[trigger] decode_utf8(bytes)[i]) as u32
            == bytes[i] as u32 by {
            if i > 0 {
                assert(decode_utf8(bytes)[i] == decode_utf8(rest)[i - 1]);
                assert(rest[i - 1] == bytes[i]);
            }
        }
    }
}

/// In a pool of ASCII bytes every offset names a name, and the name is the
/// pool's bytes from the offset up to the next NUL byte, or to the pool's
/// end, character for byte.
pub proof fn lemma_ascii_name(pool: Seq<u8>, offset: u32)
    requires
        ascii_bytes(pool),
        offset <= pool.len(),
    ensures
        spec_name(pool, offset) is Ok,
        ({
            let name = spec_name(pool, offset)->Ok_0;
            &&& offset + name.len() == name_end(pool, offset as int)
            &&& forall|i: int|
                0 <= i < name.len() ==> (#[trigger] name[i]) as u32 == pool[offset + i] as u32
        }),
{
    let run = name_bytes(pool, offset as int);
    lemma_name_verbatim(pool, offset);
    assert forall|i: int| 0 <= i < run.len() implies #[trigger] run[i] < 0x80 by {
        assert(run[i] == pool[offset + i]);
    }
    lemma_ascii_text(run);
    let name = spec_name(pool, offset)->Ok_0;
    assert forall|i: int| 0 <= i < name.len() implies (#[trigger] name[i]) as u32 == pool[offset
        + i] as u32 by {
        assert(run[i] == pool[offset + i]);
    }
}

/// In a pool that is text, an offset names a name exactly where it stands at
/// the start of a character or at the pool's end: only an offset inside a
/// character is refused.
pub proof fn lemma_name_at_boundary(pool: Seq<u8>, offset: u32)
    requires
        valid_utf8(pool),
        offset <= pool.len(),
    ensures
        spec_name(pool, offset) is Ok <==> is_char_boundary(pool, offset as int),
        spec_name(pool, offset) is Err ==> spec_name(pool, offset) == Err::<
            Seq<char>,
            DecodeError,
        >(DecodeError::NameOffset(offset)),
{
    lemma_name_verbatim(pool, offset);
    let end = name_end(pool, offset as int);
    let run = name_bytes(pool, offset as int);
    if is_char_boundary(pool, offset as int) {
        let tail = pool.subrange(offset as int, pool.len() as int);
        valid_utf8_split(pool, offset as int);
        if end < pool.len() {
            assert(tail[end - offset] == pool[end]);
            is_char_boundary_iff_is_leading_byte(tail, end - offset);
        } else {
            is_char_boundary_start_end_of_seq(tail);
        }
        valid_utf8_split(tail, end - offset);
        assert(tail.subrange(0, end - offset) =~= run);
    } else {
        is_char_boundary_start_end_of_seq(pool);
        is_char_boundary_iff_not_is_continuation_byte(pool, offset as int);
        assert(run[0] == pool[offset as int]);
    }
}

} // verus!
