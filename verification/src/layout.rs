//! The layout of a river's backing store: slots of one width, each holding
//! a message, the line end that closes it, and zeros up to the slot's end.

use vstd::prelude::*;

verus! {

/// Width in bytes of one slot.
pub const MESSAGE_SIZE: usize = 4096;

/// The byte that ends the message inside a slot: a newline.
pub const LINE_END: u8 = 10;

/// Number of slots that a store of `len` bytes occupies: a started slot counts.
pub open spec fn slot_count(len: nat) -> nat {
    (len + MESSAGE_SIZE - 1) as nat / (MESSAGE_SIZE as nat)
}

/// `n` zero bytes.
pub open spec fn zeros(n: nat) -> Seq<u8> {
    Seq::new(n, |i: int| 0u8)
}

/// What follows a message of `count` bytes in its slot: the line end, then
/// zeros up to the slot's width.
pub open spec fn padding(count: nat) -> Seq<u8>
    recommends
        count < MESSAGE_SIZE,
{
    seq![LINE_END] + zeros((MESSAGE_SIZE - count - 1) as nat)
}

/// The slot that holds `message`.
pub open spec fn record(message: Seq<u8>) -> Seq<u8>
    recommends
        message.len() < MESSAGE_SIZE,
{
    message + padding(message.len())
}

/// The store `data` after `message` was appended: a started last slot is
/// first completed with zeros, then the message's slot follows.
pub open spec fn appended(data: Seq<u8>, message: Seq<u8>) -> Seq<u8>
    recommends
        message.len() < MESSAGE_SIZE,
{
    data + zeros((slot_count(data.len()) * MESSAGE_SIZE - data.len()) as nat) + record(message)
}

/// Number of bytes from `start` up to the next line end, or up to the end of
/// `data` if no line end follows.
pub open spec fn line_len(data: Seq<u8>, start: int) -> nat
    decreases data.len() - start,
{
    if 0 <= start < data.len() && data[start] != LINE_END {
        1 + line_len(data, start + 1)
    } else {
        0
    }
}

/// The bytes from `start` up to the next line end, which is left out.
pub open spec fn line_from(data: Seq<u8>, start: int) -> Seq<u8> {
    if 0 <= start <= data.len() {
        data.subrange(start, start + line_len(data, start))
    } else {
        Seq::empty()
    }
}

/// The slots of a store cover it, and the last of them is not empty.
pub proof fn lemma_slot_bounds(len: nat)
    ensures
        len <= slot_count(len) * MESSAGE_SIZE < len + MESSAGE_SIZE,
{
}

/// A slot of a store of `size` slots starts before the last slot ends.
pub proof fn lemma_slot_position(slot: nat, size: nat)
    requires
        slot < size,
    ensures
        slot * MESSAGE_SIZE + MESSAGE_SIZE <= size * MESSAGE_SIZE,
{
    assert(slot * MESSAGE_SIZE + MESSAGE_SIZE <= size * MESSAGE_SIZE) by (nonlinear_arith)
        requires
            slot < size,
    ;
}

/// No line end stands in a line.
pub proof fn lemma_line_has_no_line_end(data: Seq<u8>, start: int)
    ensures
        !line_from(data, start).contains(LINE_END),
{
    if 0 <= start <= data.len() {
        lemma_line_len(data, start);
    }
}

/// A line ends inside the store, and no byte of it is a line end.
pub proof fn lemma_line_len(data: Seq<u8>, start: int)
    requires
        0 <= start <= data.len(),
    ensures
        start + line_len(data, start) <= data.len(),
        forall|i: int| start <= i < start + line_len(data, start) ==> data[i] != LINE_END,
        start + line_len(data, start) < data.len() ==> data[start + line_len(data, start)]
            == LINE_END,
    decreases data.len() - start,
{
    if start < data.len() && data[start] != LINE_END {
        lemma_line_len(data, start + 1);
    }
}

/// A line is known by where it ends: at the first line end from its start,
/// or at the end of the store.
pub proof fn lemma_line_ends_at(data: Seq<u8>, start: int, end: int)
    requires
        0 <= start <= end <= data.len(),
        forall|i: int| start <= i < end ==> data[i] != LINE_END,
        end < data.len() ==> data[end] == LINE_END,
    ensures
        line_len(data, start) == end - start,
        line_from(data, start) == data.subrange(start, end),
    decreases end - start,
{
    if start < end {
        lemma_line_ends_at(data, start + 1, end);
    }
}

/// Counts the slots of a store of `len` bytes.
pub fn slots_of_len(len: usize) -> (n: usize)
    ensures
        n == slot_count(len as nat),
        n * MESSAGE_SIZE >= len,
        n * MESSAGE_SIZE < len + MESSAGE_SIZE,
{
    let whole: usize = len / MESSAGE_SIZE;
    if len % MESSAGE_SIZE == 0 {
        whole
    } else {
        whole + 1
    }
}

} // verus!
