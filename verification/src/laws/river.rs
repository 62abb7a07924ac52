//! What holds of every river, whatever was pushed to it.

use vstd::prelude::*;
use vstd::utf8::*;
use crate::layout::{
    appended, lemma_line_ends_at, lemma_line_len, line_from, line_len, record, slot_count, zeros,
    LINE_END, MESSAGE_SIZE,
};
use crate::river::{peeked, push_outcome, stored, PeekView, StorageError};
use crate::rivers::{cleared, content, pushed, touched};
use crate::text::lemma_line_end_in_text;

verus! {

/// The backing store after `messages` were pushed, in order, to an empty
/// river.
pub open spec fn filled(messages: Seq<Seq<char>>) -> Seq<u8>
    decreases messages.len(),
{
    if messages.len() == 0 {
        Seq::empty()
    } else {
        appended(filled(messages.drop_last()), encode_utf8(messages.last()))
    }
}

/// Whether a push accepts the message: it fits in a slot beside its line end.
pub open spec fn fits(message: Seq<char>) -> bool {
    encode_utf8(message).len() < MESSAGE_SIZE
}

/// Whether a river gives the message back as it was pushed: it fits in a
/// slot and holds no newline.
pub open spec fn plain(message: Seq<char>) -> bool {
    fits(message) && !message.contains('\n')
}

/// After accepted pushes to an empty river the store holds one slot for each
/// message, in the order of the pushes.
pub proof fn lemma_filled_slots(messages: Seq<Seq<char>>, k: int)
    requires
        forall|i: int| 0 <= i < messages.len() ==> fits(#[trigger] messages[i]),
        0 <= k < messages.len(),
    ensures
        filled(messages).len() == messages.len() * MESSAGE_SIZE,
        slot_count(filled(messages).len()) == messages.len(),
        filled(messages).subrange(k * MESSAGE_SIZE, k * MESSAGE_SIZE + MESSAGE_SIZE) == record(
            encode_utf8(messages[k]),
        ),
    decreases messages.len(),
{
    let earlier = messages.drop_last();
    let before = filled(earlier);
    let last = encode_utf8(messages.last());
    lemma_filled_len(earlier);
    lemma_filled_len(messages);
    assert(zeros(0) =~= Seq::<u8>::empty());
    assert(filled(messages) =~= before + record(last));
    if k == messages.len() - 1 {
        assert(filled(messages).subrange(k * MESSAGE_SIZE, k * MESSAGE_SIZE + MESSAGE_SIZE)
            =~= record(last));
    } else {
        lemma_filled_slots(earlier, k);
        assert(earlier[k] == messages[k]);
        assert((k + 1) * MESSAGE_SIZE <= earlier.len() * MESSAGE_SIZE) by (nonlinear_arith)
            requires
                k + 1 <= earlier.len(),
        ;
        assert(filled(messages).subrange(k * MESSAGE_SIZE, k * MESSAGE_SIZE + MESSAGE_SIZE)
            =~= before.subrange(k * MESSAGE_SIZE, k * MESSAGE_SIZE + MESSAGE_SIZE));
    }
}

/// After accepted pushes to an empty river the store is as many slots long
/// as messages were pushed.
pub proof fn lemma_filled_len(messages: Seq<Seq<char>>)
    requires
        forall|i: int| 0 <= i < messages.len() ==> fits(#[trigger] messages[i]),
    ensures
        filled(messages).len() == messages.len() * MESSAGE_SIZE,
        slot_count(filled(messages).len()) == messages.len(),
    decreases messages.len(),
{
    if messages.len() > 0 {
        let earlier = messages.drop_last();
        lemma_filled_len(earlier);
        assert(fits(messages.last()));
        assert(filled(earlier).len() == earlier.len() * MESSAGE_SIZE);
        assert(filled(messages).len() == filled(earlier).len() + MESSAGE_SIZE);
        assert(filled(messages).len() == messages.len() * MESSAGE_SIZE) by (nonlinear_arith)
            requires
                filled(messages).len() == earlier.len() * MESSAGE_SIZE + MESSAGE_SIZE,
                earlier.len() == messages.len() - 1,
        ;
    }
    lemma_slot_count_of_whole(messages.len());
}

/// A store of `n` whole slots counts `n` slots.
pub proof fn lemma_slot_count_of_whole(n: nat)
    ensures
        slot_count((n * MESSAGE_SIZE) as nat) == n,
{
    assert((n * 4096 + 4095) / 4096 == n) by (nonlinear_arith);
}

/// The message up to its first newline, or all of it where it holds none:
/// what a river keeps of a message so that it can be read back.
pub open spec fn first_line(message: Seq<char>) -> Seq<char>
    decreases message.len(),
{
    if message.len() == 0 || message[0] == '\n' {
        Seq::empty()
    } else {
        seq![message[0]] + first_line(message.drop_first())
    }
}

/// A message without a newline is its own first line.
pub proof fn lemma_first_line_of_plain(message: Seq<char>)
    requires
        !message.contains('\n'),
    ensures
        first_line(message) == message,
    decreases message.len(),
{
    if message.len() > 0 {
        let rest = message.drop_first();
        assert(message[0] != '\n');
        assert forall|i: int| 0 <= i < rest.len() implies rest[i] != '\n' by {
            assert(rest[i] == message[i + 1]);
        }
        lemma_first_line_of_plain(rest);
        assert(seq![message[0]] + rest =~= message);
    }
}

/// The first line of a message is written as the first line of its bytes.
pub proof fn lemma_first_line_utf8(message: Seq<char>)
    ensures
        line_from(encode_utf8(message), 0) == encode_utf8(first_line(message)),
    decreases message.len(),
{
    let bytes = encode_utf8(message);
    if message.len() == 0 {
        assert(line_from(bytes, 0) =~= Seq::<u8>::empty());
    } else {
        let first = seq![message[0]];
        let rest = message.drop_first();
        let head = encode_utf8(first);
        let tail = encode_utf8(rest);
        assert(first.drop_first() =~= Seq::<char>::empty());
        assert(encode_utf8(Seq::<char>::empty()) =~= Seq::<u8>::empty());
        assert(first[0] == message[0]);
        assert(head =~= vstd::utf8::encode_scalar(message[0] as u32));
        assert(bytes =~= head + tail);
        lemma_line_end_in_text(first);
        if message[0] == '\n' {
            assert(first[0] == '\n');
            assert(head.len() == 1);
            assert(head[0] == LINE_END) by {
                let i = choose|i: int| 0 <= i < head.len() && head[i] == LINE_END;
            }
            assert(bytes[0] == LINE_END);
            assert(line_from(bytes, 0) =~= Seq::<u8>::empty());
        } else {
            assert(!first.contains('\n'));
            lemma_first_line_utf8(rest);
            lemma_line_len(tail, 0);
            let end = line_len(tail, 0) as int;
            assert forall|i: int| 0 <= i < head.len() + end implies bytes[i] != LINE_END by {
                if i < head.len() {
                    assert(bytes[i] == head[i]);
                } else {
                    assert(bytes[i] == tail[i - head.len()]);
                }
            }
            if head.len() + end < bytes.len() {
                assert(bytes[head.len() + end] == tail[end]);
            }
            lemma_line_ends_at(bytes, 0, head.len() + end);
            assert(line_from(bytes, 0) =~= head + line_from(tail, 0));
            let kept = seq![message[0]] + first_line(rest);
            assert(kept.drop_first() =~= first_line(rest));
            assert(encode_utf8(kept) =~= head + encode_utf8(first_line(rest)));
        }
    }
}

/// After accepted pushes to an empty river, the line of each slot is the
/// first line of the message that was pushed to it.
pub proof fn lemma_slot_line(messages: Seq<Seq<char>>, slot: int)
    requires
        forall|i: int| 0 <= i < messages.len() ==> fits(#[trigger] messages[i]),
        0 <= slot < messages.len(),
    ensures
        slot_count(filled(messages).len()) == messages.len(),
        line_from(filled(messages), slot * MESSAGE_SIZE) == encode_utf8(first_line(messages[slot])),
{
    let data = filled(messages);
    let start = slot * MESSAGE_SIZE;
    let message = messages[slot];
    let bytes = encode_utf8(message);
    assert(fits(message));
    lemma_filled_slots(messages, slot);
    assert(0 <= start && start + MESSAGE_SIZE <= data.len()) by (nonlinear_arith)
        requires
            start == slot * MESSAGE_SIZE,
            0 <= slot,
            slot + 1 <= messages.len(),
            data.len() == messages.len() * MESSAGE_SIZE,
    ;
    let image = data.subrange(start, start + MESSAGE_SIZE);
    assert(image == record(bytes));
    lemma_line_len(bytes, 0);
    let end = line_len(bytes, 0) as int;
    assert forall|i: int| start <= i < start + end implies data[i] != LINE_END by {
        assert(data[i] == image[i - start]);
        assert(image[i - start] == bytes[i - start]);
    }
    assert(data[start + end] == image[end]);
    assert(image[end] == LINE_END) by {
        if end < bytes.len() {
            assert(image[end] == bytes[end]);
        }
    }
    lemma_line_ends_at(data, start, start + end);
    assert(line_from(data, start) =~= line_from(bytes, 0)) by {
        assert(data.subrange(start, start + end) =~= bytes.subrange(0, end)) by {
            assert forall|i: int| 0 <= i < end implies data[start + i] == bytes[i] by {
                assert(data[start + i] == image[i]);
            }
        }
    }
    lemma_first_line_utf8(message);
}

/// Offset addressing: after accepted pushes to an empty river, a peek at
/// offset `k`, counted from one, returns the first line of the `k`-th
/// message and the offset `k + 1`, as long as the slot's position fits in
/// `i64`.
pub proof fn law_peek_at_offset(messages: Seq<Seq<char>>, k: usize)
    requires
        forall|i: int| 0 <= i < messages.len() ==> fits(#[trigger] messages[i]),
        1 <= k <= messages.len(),
        (k - 1) * MESSAGE_SIZE <= i64::MAX,
    ensures
        peeked(filled(messages), Some(k)) == Some(
            PeekView { message: first_line(messages[k - 1]), offset: (k + 1) as nat },
        ),
        plain(messages[k - 1]) ==> peeked(filled(messages), Some(k)) == Some(
            PeekView { message: messages[k - 1], offset: (k + 1) as nat },
        ),
{
    lemma_slot_line(messages, k - 1);
    encode_utf8_valid_utf8(first_line(messages[k - 1]));
    encode_utf8_decode_utf8(first_line(messages[k - 1]));
    if plain(messages[k - 1]) {
        lemma_first_line_of_plain(messages[k - 1]);
    }
}

/// Round trip: after accepted pushes to an empty river, a peek without an
/// offset returns the first line of the last message and, as the next
/// offset, the number of messages plus one, as long as the last slot's
/// position fits in `i64`.
pub proof fn law_peek_latest(messages: Seq<Seq<char>>)
    requires
        forall|i: int| 0 <= i < messages.len() ==> fits(#[trigger] messages[i]),
        messages.len() > 0,
        (messages.len() - 1) * MESSAGE_SIZE <= i64::MAX,
    ensures
        peeked(filled(messages), None) == Some(
            PeekView { message: first_line(messages.last()), offset: messages.len() + 1 },
        ),
        plain(messages.last()) ==> peeked(filled(messages), None) == Some(
            PeekView { message: messages.last(), offset: messages.len() + 1 },
        ),
{
    lemma_slot_line(messages, messages.len() - 1);
    encode_utf8_valid_utf8(first_line(messages.last()));
    encode_utf8_decode_utf8(first_line(messages.last()));
    if plain(messages.last()) {
        lemma_first_line_of_plain(messages.last());
    }
}

/// Out of range: a peek at an offset past the last slot finds nothing,
/// whatever the store holds, and so does a peek at offset zero.
pub proof fn law_peek_out_of_range(data: Seq<u8>, k: usize)
    requires
        k > slot_count(data.len()) || k == 0,
    ensures
        peeked(data, Some(k)) is None,
{
}

/// Out of range, counted in messages: after `n` accepted pushes to an empty
/// river a peek at an offset above `n` finds nothing.
pub proof fn law_peek_past_last_message(messages: Seq<Seq<char>>, k: usize)
    requires
        forall|i: int| 0 <= i < messages.len() ==> fits(#[trigger] messages[i]),
        k > messages.len(),
    ensures
        peeked(filled(messages), Some(k)) is None,
{
    lemma_filled_len(messages);
}

/// A peek finds nothing in an empty store and in an absent one.
pub proof fn law_peek_empty(offset: Option<usize>)
    ensures
        peeked(Seq::<u8>::empty(), offset) is None,
        peeked(stored(None), offset) is None,
{
}

/// Size rejection: a message of a slot's width or more is refused as too
/// large, whatever the store holds.
pub proof fn law_push_too_large(len: nat, message: Seq<u8>)
    requires
        message.len() >= MESSAGE_SIZE,
    ensures
        push_outcome(len, message) == Err::<(), StorageError>(StorageError::MessageTooLarge),
{
}

/// Idempotent clear: clearing a river once more changes nothing. After
/// either clear the river is absent and a peek at it finds nothing.
pub proof fn law_clear_twice(files: Map<Seq<char>, Seq<u8>>, river: Seq<char>, offset: Option<usize>)
    ensures
        cleared(cleared(files, river), river) == cleared(files, river),
        !cleared(files, river).dom().contains(river),
        peeked(content(cleared(files, river), river), offset) is None,
        peeked(content(cleared(cleared(files, river), river), river), offset) is None,
{
    assert(cleared(cleared(files, river), river) =~= cleared(files, river));
}

/// A clear touches no other river, and neither does a push.
pub proof fn law_rivers_apart(
    files: Map<Seq<char>, Seq<u8>>,
    river: Seq<char>,
    other: Seq<char>,
    message: Seq<char>,
)
    requires
        river != other,
    ensures
        cleared(files, river).dom().contains(other) == files.dom().contains(other),
        content(cleared(files, river), other) == content(files, other),
        content(pushed(files, river, message), other) == content(files, other),
{
}

/// A peek leaves what every river holds as it was, the one it reads too.
pub proof fn law_peek_keeps_content(
    files: Map<Seq<char>, Seq<u8>>,
    river: Seq<char>,
    other: Seq<char>,
)
    ensures
        content(touched(files, river), other) == content(files, other),
{
}

/// Appending messages to a river that was cleared, and nothing else in
/// between, leaves in it what appending them to an empty river leaves.
pub proof fn law_pushes_after_clear(
    files: Map<Seq<char>, Seq<u8>>,
    river: Seq<char>,
    messages: Seq<Seq<char>>,
)
    ensures
        content(pushed_all(cleared(files, river), river, messages), river) == filled(messages),
    decreases messages.len(),
{
    if messages.len() > 0 {
        law_pushes_after_clear(files, river, messages.drop_last());
    }
}

/// The stores after `messages` were pushed, in order, to the river `river`.
pub open spec fn pushed_all(
    files: Map<Seq<char>, Seq<u8>>,
    river: Seq<char>,
    messages: Seq<Seq<char>>,
) -> Map<Seq<char>, Seq<u8>>
    decreases messages.len(),
{
    if messages.len() == 0 {
        files
    } else {
        pushed(pushed_all(files, river, messages.drop_last()), river, messages.last())
    }
}

} // verus!
