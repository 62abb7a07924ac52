//! The storage engine: one append-only byte store per river, cut into slots
//! of a fixed width, each holding one message.

use vstd::prelude::*;
use vstd::utf8::*;
use crate::layout::{
    appended, lemma_line_has_no_line_end, lemma_slot_bounds, lemma_slot_position, line_from,
    line_len, padding, slot_count, slots_of_len, zeros,
};
use crate::text::{chars_without_line_ends, text_of_utf8, without_line_ends};
pub use crate::layout::{LINE_END, MESSAGE_SIZE};

verus! {

/// A message read from a river, with the offset to ask for next.
#[derive(Debug)]
pub struct PeekResult {
    /// The message.
    pub message: String,
    /// The offset of the message that follows this one.
    pub offset: usize,
}

/// What a `PeekResult` stands for: the message's text and the next offset.
pub struct PeekView {
    pub message: Seq<char>,
    pub offset: nat,
}

impl View for PeekResult {
    type V = PeekView;

    open spec fn view(&self) -> PeekView {
        PeekView { message: self.message@, offset: self.offset as nat }
    }
}

impl Clone for PeekResult {
    fn clone(&self) -> (r: PeekResult)
        ensures
            r == *self,
    {
        PeekResult { message: self.message.clone(), offset: self.offset }
    }
}

/// The view of a peek's outcome.
pub open spec fn peek_view(r: Option<PeekResult>) -> Option<PeekView> {
    match r {
        Some(p) => Some(p@),
        None => None,
    }
}

/// Why a river refused an operation.
#[derive(Clone, Copy, Debug, PartialEq, Eq, Structural)]
pub enum StorageError {
    /// The message does not fit in a slot beside its line end.
    MessageTooLarge,
    /// The backing store could not take the write.
    IoError,
}

/// The slot that a request for `offset` reads in a store of `size` slots:
/// the offset is clamped to `size`, no offset means the last slot, and
/// nothing is read where the clamped offset is zero.
pub open spec fn actual_slot(size: nat, offset: Option<usize>) -> Option<nat> {
    let adjusted = match offset {
        Some(wanted) => if (wanted as nat) < size { wanted as nat } else { size },
        None => size,
    };
    if adjusted == 0 {
        None
    } else {
        Some((adjusted - 1) as nat)
    }
}

/// Whether slot `actual` is the one that `offset` asked for. A request
/// without an offset is met by any slot.
pub open spec fn offsets_match(actual: nat, offset: Option<usize>) -> bool {
    match offset {
        Some(wanted) => actual + 1 == wanted,
        None => true,
    }
}

/// The seek position of the slot that a request for `offset` reads in a store
/// of `len` bytes, where there is such a slot and its position fits in `i64`.
pub open spec fn seek_position(len: nat, offset: Option<usize>) -> Option<i64> {
    match actual_slot(slot_count(len), offset) {
        Some(slot) => if slot * MESSAGE_SIZE <= i64::MAX {
            Some((slot * MESSAGE_SIZE) as i64)
        } else {
            None
        },
        None => None,
    }
}

/// The line that a request for `offset` reads from `data`, where it is text.
pub open spec fn line_at(data: Seq<u8>, offset: Option<usize>) -> Option<Seq<char>> {
    match seek_position(data.len(), offset) {
        Some(position) => {
            let line = line_from(data, position as int);
            if valid_utf8(line) {
                Some(decode_utf8(line))
            } else {
                None
            }
        },
        None => None,
    }
}

/// The slot that holds the message at `offset`, counted from one, in a
/// store of `size` slots; the last slot where `offset` is none. There is no
/// such slot in an empty store, at offset zero and past the last slot.
pub open spec fn slot_at(size: nat, offset: Option<usize>) -> Option<nat> {
    match offset {
        Some(wanted) => if 1 <= wanted <= size {
            Some((wanted - 1) as nat)
        } else {
            None
        },
        None => if size > 0 {
            Some((size - 1) as nat)
        } else {
            None
        },
    }
}

/// What a peek at `offset` returns from a store that holds `data`: the line
/// of the slot at `offset`, and the offset of the slot after it. It finds
/// nothing where there is no slot at `offset`, where the slot's position
/// does not fit in `i64`, and where the slot's line is not UTF-8.
pub open spec fn peeked(data: Seq<u8>, offset: Option<usize>) -> Option<PeekView> {
    match slot_at(slot_count(data.len()), offset) {
        Some(slot) => {
            let line = line_from(data, slot * MESSAGE_SIZE);
            if slot * MESSAGE_SIZE <= i64::MAX && valid_utf8(line) {
                Some(PeekView { message: decode_utf8(line), offset: slot + 2 })
            } else {
                None
            }
        },
        None => None,
    }
}

/// What a push of `message` to a store of `len` bytes answers.
pub open spec fn push_outcome(len: nat, message: Seq<u8>) -> Result<(), StorageError> {
    if message.len() >= MESSAGE_SIZE {
        Err(StorageError::MessageTooLarge)
    } else if (slot_count(len) + 1) * MESSAGE_SIZE > usize::MAX {
        Err(StorageError::IoError)
    } else {
        Ok(())
    }
}

/// The bytes of a backing store; none where the store is absent.
pub open spec fn stored(file: Option<Seq<u8>>) -> Seq<u8> {
    match file {
        Some(data) => data,
        None => Seq::empty(),
    }
}

/// What a river stands for: its name and, where its backing store exists,
/// the bytes in it.
pub struct RiverView {
    pub name: Seq<char>,
    pub file: Option<Seq<u8>>,
}

/// A named append-only queue of messages over one backing store.
pub struct River {
    name: String,
    present: bool,
    data: Vec<u8>,
}

impl View for River {
    type V = RiverView;

    closed spec fn view(&self) -> RiverView {
        RiverView {
            name: self.name@,
            file: if self.present {
                Some(self.data@)
            } else {
                None
            },
        }
    }
}

impl River {
    /// A river of the given name whose backing store does not exist yet.
    pub fn new(river: &str) -> (r: River)
        ensures
            r@.name == river@,
            r@.file is None,
    {
        River { name: river.to_owned(), present: false, data: Vec::new() }
    }

    /// A river of the given name over a backing store that holds `data`.
    pub fn open(river: &str, data: Vec<u8>) -> (r: River)
        ensures
            r@.name == river@,
            r@.file == Some(data@),
    {
        River { name: river.to_owned(), present: true, data }
    }

    /// The river's name.
    pub fn name(&self) -> (r: &String)
        ensures
            r@ == self@.name,
    {
        &self.name
    }

    /// Whether the backing store exists.
    pub fn is_present(&self) -> (r: bool)
        ensures
            r == self@.file is Some,
    {
        self.present
    }

    /// The bytes of the backing store; none where it is absent.
    pub fn bytes(&self) -> (r: Option<&Vec<u8>>)
        ensures
            match r {
                Some(data) => self@.file == Some(data@),
                None => self@.file is None,
            },
    {
        if self.present {
            Some(&self.data)
        } else {
            None
        }
    }

    /// Creates an empty backing store unless one exists.
    pub fn create_unless_exists(&mut self)
        ensures
            final(self)@.name == old(self)@.name,
            final(self)@.file == Some(stored(old(self)@.file)),
    {
        if !self.present {
            self.data = Vec::new();
            self.present = true;
        }
    }

    /// Removes the backing store. Removing an absent one is no error.
    pub fn destroy(&mut self) -> (r: Result<(), StorageError>)
        ensures
            r is Ok,
            final(self)@.name == old(self)@.name,
            final(self)@.file is None,
    {
        self.data = Vec::new();
        self.present = false;
        Ok(())
    }

    /// Number of slots in the backing store; zero where it is absent.
    pub fn size(&self) -> (n: usize)
        ensures
            n == slot_count(stored(self@.file).len()),
    {
        if self.present {
            slots_of_len(self.data.len())
        } else {
            0
        }
    }

    /// Whether slot `actual_offset` is the one that `offset` asked for.
    pub fn are_offsets_match(&self, actual_offset: usize, offset: Option<usize>) -> (r: bool)
        ensures
            r == offsets_match(actual_offset as nat, offset),
    {
        match offset {
            Some(wanted) => wanted >= 1 && actual_offset == wanted - 1,
            None => true,
        }
    }

    /// The slot that a request for `offset` reads.
    pub fn get_actual_offset(&self, offset: Option<usize>) -> (r: Option<usize>)
        ensures
            match r {
                Some(slot) => actual_slot(slot_count(stored(self@.file).len()), offset) == Some(
                    slot as nat,
                ),
                None => actual_slot(slot_count(stored(self@.file).len()), offset) is None,
            },
    {
        let size: usize = self.size();
        let adjusted_offset: usize = match offset {
            Some(wanted) => if wanted < size {
                wanted
            } else {
                size
            },
            None => size,
        };
        if adjusted_offset == 0 {
            None
        } else {
            Some(adjusted_offset - 1)
        }
    }

    /// The position in the backing store of the slot that a request for
    /// `offset` reads.
    pub fn get_seek_offset(&self, offset: Option<usize>) -> (r: Option<i64>)
        ensures
            r == seek_position(stored(self@.file).len(), offset),
            r matches Some(position) ==> 0 <= position < stored(self@.file).len(),
    {
        match self.get_actual_offset(offset) {
            Some(slot) => {
                proof {
                    assert(self.data.len() <= usize::MAX);
                    lemma_slot_bounds(stored(self@.file).len());
                    lemma_slot_position(slot as nat, slot_count(stored(self@.file).len()));
                }
                let position: usize = slot * MESSAGE_SIZE;
                if position as u64 <= i64::MAX as u64 {
                    Some(position as i64)
                } else {
                    None
                }
            },
            None => None,
        }
    }

    /// Copies the byte at `position` of the backing store to `buf`, unless it
    /// is a line end or the store ends before it. Says whether it copied.
    pub fn read_one_byte_to_buf(&self, position: usize, buf: &mut Vec<u8>) -> (more: bool)
        ensures
            more == (position < stored(self@.file).len() && stored(self@.file)[position as int]
                != LINE_END),
            final(buf)@ == if more {
                old(buf)@.push(stored(self@.file)[position as int])
            } else {
                old(buf)@
            },
    {
        if !self.present || position >= self.data.len() {
            return false;
        }
        let byte: u8 = self.data[position];
        if byte == LINE_END {
            false
        } else {
            buf.push(byte);
            true
        }
    }

    /// Appends to `buf` the line that starts at `start` of the backing store.
    pub fn read_to_buf_until_eol(&self, start: usize, buf: &mut Vec<u8>)
        ensures
            final(buf)@ == old(buf)@ + line_from(stored(self@.file), start as int),
    {
        let ghost data = stored(self@.file);
        let ghost before = buf@;
        let mut position: usize = start;
        let mut more: bool = true;
        proof {
            assert(self.data.len() <= usize::MAX);
            assert(before + Seq::<u8>::empty() =~= before);
            if start <= data.len() {
                assert(data.subrange(start as int, start as int) =~= Seq::<u8>::empty());
            }
        }
        while more
            invariant
                data == stored(self@.file),
                data.len() <= usize::MAX,
                start <= position,
                start <= data.len() ==> position <= data.len(),
                start <= data.len() ==> buf@ == before + data.subrange(
                    start as int,
                    position as int,
                ),
                start > data.len() ==> buf@ == before,
                line_len(data, start as int) == (position - start) + if more {
                    line_len(data, position as int)
                } else {
                    0
                },
            decreases
                    if more {
                        1 + if position < data.len() {
                            data.len() - position
                        } else {
                            0
                        }
                    } else {
                        0
                    },
        {
            more = self.read_one_byte_to_buf(position, buf);
            if more {
                proof {
                    assert(data.subrange(start as int, position as int).push(data[position as int])
                        =~= data.subrange(start as int, position + 1));
                    assert(buf@ =~= before + data.subrange(start as int, position + 1));
                }
                position += 1;
            }
        }
    }

    /// Reads `buf` as UTF-8 text.
    pub fn convert_buf_to_string(&self, buf: Vec<u8>) -> (r: Option<String>)
        ensures
            r is Some <==> valid_utf8(buf@),
            r matches Some(text) ==> text@ == decode_utf8(buf@),
    {
        match text_of_utf8(buf.as_slice()) {
            Some(text) => Some(text.to_owned()),
            None => None,
        }
    }

    /// Reads the line that starts at `start` of the backing store, where it
    /// is UTF-8 text.
    pub fn read_line(&self, start: usize) -> (r: Option<String>)
        ensures
            r is Some <==> valid_utf8(line_from(stored(self@.file), start as int)),
            r matches Some(text) ==> text@ == decode_utf8(
                line_from(stored(self@.file), start as int),
            ),
    {
        let mut buf: Vec<u8> = Vec::new();
        self.read_to_buf_until_eol(start, &mut buf);
        proof {
            assert(Seq::<u8>::empty() + line_from(stored(self@.file), start as int) =~= line_from(
                stored(self@.file),
                start as int,
            ));
        }
        self.convert_buf_to_string(buf)
    }

    /// Reads the line of the slot that a request for `offset` reads.
    pub fn seek_and_read_line(&self, offset: Option<usize>) -> (r: Option<String>)
        ensures
            text_view(r) == line_at(stored(self@.file), offset),
    {
        match self.get_seek_offset(offset) {
            Some(seek_offset) => {
                assert(self.data.len() <= usize::MAX);
                let start: usize = seek_offset as usize;
                self.read_line(start)
            },
            None => None,
        }
    }

    /// Reads the slot that a request for `offset` reads: the slot's index and
    /// its line.
    pub fn get_line(&self, offset: Option<usize>) -> (r: Option<(usize, String)>)
        ensures
            match r {
                Some((slot, text)) => {
                    &&& line_at(stored(self@.file), offset) == Some(text@)
                    &&& actual_slot(slot_count(stored(self@.file).len()), offset) == Some(
                        slot as nat,
                    )
                },
                None => line_at(stored(self@.file), offset) is None,
            },
    {
        match self.seek_and_read_line(offset) {
            Some(text) => match self.get_actual_offset(offset) {
                Some(slot) => Some((slot, text)),
                None => None,
            },
            None => None,
        }
    }

    /// The answer to a request for `offset` that read `message` from slot
    /// `actual_offset`: the message without newlines and the next offset,
    /// where the slot is the one that was asked for.
    pub fn form_peek_result(
        &self,
        message: String,
        actual_offset: usize,
        offset: Option<usize>,
    ) -> (r: Option<PeekResult>)
        requires
            actual_offset + 2 <= usize::MAX,
        ensures
            peek_view(r) == if offsets_match(actual_offset as nat, offset) {
                Some(
                    PeekView {
                        message: chars_without_line_ends(message@),
                        offset: (actual_offset + 2) as nat,
                    },
                )
            } else {
                None
            },
    {
        if self.are_offsets_match(actual_offset, offset) {
            Some(
                PeekResult {
                    message: without_line_ends(message.as_str()),
                    offset: actual_offset + 2,
                },
            )
        } else {
            None
        }
    }

    /// Reads the message at `offset`, or the latest one where `offset` is
    /// none. Creates an empty backing store first if none exists.
    pub fn peek_at(&mut self, offset: Option<usize>) -> (r: Option<PeekResult>)
        ensures
            final(self)@.name == old(self)@.name,
            final(self)@.file == Some(stored(old(self)@.file)),
            peek_view(r) == peeked(stored(old(self)@.file), offset),
    {
        self.create_unless_exists();
        match self.get_line(offset) {
            Some((actual_offset, message)) => {
                proof {
                    let data = stored(self@.file);
                    let position = seek_position(data.len(), offset).unwrap();
                    let line = line_from(data, position as int);
                    assert(self.data.len() <= usize::MAX);
                    lemma_slot_bounds(data.len());
                    lemma_line_has_no_line_end(data, position as int);
                    decode_utf8_encode_utf8(line);
                    crate::text::lemma_line_end_in_text(message@);
                    crate::text::lemma_chars_without_line_ends_same(message@);
                }
                self.form_peek_result(message, actual_offset, offset)
            },
            None => None,
        }
    }

    /// What follows a message of `count` bytes in its slot.
    pub fn abundant_bytes(&self, count: usize) -> (r: Vec<u8>)
        requires
            count < MESSAGE_SIZE,
        ensures
            r@ == padding(count as nat),
    {
        let wanted: usize = MESSAGE_SIZE - count;
        let mut abundant_bytes: Vec<u8> = Vec::new();
        abundant_bytes.push(LINE_END);
        while abundant_bytes.len() < wanted
            invariant
                wanted == MESSAGE_SIZE - count,
                1 <= abundant_bytes.len() <= wanted,
                abundant_bytes@ == seq![LINE_END] + zeros((abundant_bytes.len() - 1) as nat),
            decreases wanted - abundant_bytes.len(),
        {
            abundant_bytes.push(0);
            proof {
                assert(abundant_bytes@ =~= seq![LINE_END] + zeros(
                    (abundant_bytes.len() - 1) as nat,
                ));
            }
        }
        abundant_bytes
    }

    /// Completes the slot of a message of `count` bytes that was written to
    /// the end of the backing store.
    pub fn write_abundant_bytes(&mut self, count: usize)
        requires
            count < MESSAGE_SIZE,
        ensures
            final(self)@.name == old(self)@.name,
            final(self)@.file == Some(stored(old(self)@.file) + padding(count as nat)),
    {
        self.create_unless_exists();
        let abundant_bytes = self.abundant_bytes(count);
        let ghost before = self.data@;
        let mut i: usize = 0;
        while i < abundant_bytes.len()
            invariant
                i <= abundant_bytes.len(),
                self.present,
                self.name@ == old(self).name@,
                self.data@ == before + abundant_bytes@.take(i as int),
            decreases abundant_bytes.len() - i,
        {
            self.data.push(abundant_bytes[i]);
            i += 1;
            proof {
                assert(self.data@ =~= before + abundant_bytes@.take(i as int));
            }
        }
        proof {
            assert(abundant_bytes@.take(i as int) =~= abundant_bytes@);
        }
    }

    /// Appends `message` as the next slot of the backing store, which is
    /// created first if none exists.
    ///
    /// A message that does not fit in a slot beside its line end is refused,
    /// and so is one whose slot would end past the largest store; a refused
    /// message leaves the river as it was.
    pub fn push(&mut self, message: &str) -> (r: Result<(), StorageError>)
        ensures
            r == push_outcome(stored(old(self)@.file).len(), encode_utf8(message@)),
            final(self)@.name == old(self)@.name,
            r is Ok ==> final(self)@.file == Some(
                appended(stored(old(self)@.file), encode_utf8(message@)),
            ),
            r is Err ==> final(self)@ == old(self)@,
    {
        let bytes = message.as_bytes();
        let count: usize = bytes.len();
        if count >= MESSAGE_SIZE {
            return Err(StorageError::MessageTooLarge);
        }
        let size: usize = self.size();
        if size >= usize::MAX / MESSAGE_SIZE {
            return Err(StorageError::IoError);
        }
        let target: usize = size * MESSAGE_SIZE;
        self.create_unless_exists();
        let ghost before = self.data@;
        proof {
            assert(self.data.len() <= usize::MAX);
            lemma_slot_bounds(before.len());
        }
        while self.data.len() < target
            invariant
                self.present,
                self.name@ == old(self).name@,
                before.len() <= self.data.len() <= target,
                self.data@ == before + zeros((self.data.len() - before.len()) as nat),
            decreases target - self.data.len(),
        {
            self.data.push(0);
            proof {
                assert(self.data@ =~= before + zeros((self.data.len() - before.len()) as nat));
            }
        }
        let ghost gapless = self.data@;
        let mut i: usize = 0;
        while i < count
            invariant
                i <= count,
                count == bytes@.len(),
                self.present,
                self.name@ == old(self).name@,
                self.data@ == gapless + bytes@.take(i as int),
            decreases count - i,
        {
            self.data.push(bytes[i]);
            i += 1;
            proof {
                assert(self.data@ =~= gapless + bytes@.take(i as int));
            }
        }
        proof {
            assert(bytes@.take(i as int) =~= bytes@);
        }
        self.write_abundant_bytes(count);
        proof {
            assert(self@.file.unwrap() =~= appended(before, bytes@));
        }
        Ok(())
    }
}

/// The view of a line that may have been read.
pub open spec fn text_view(r: Option<String>) -> Option<Seq<char>> {
    match r {
        Some(text) => Some(text@),
        None => None,
    }
}

} // verus!
