//! Text as bytes: the bridge between the UTF-8 bytes that a river stores and
//! the strings that its callers hand in and get back.

use vstd::prelude::*;
use vstd::utf8::*;
use crate::layout::LINE_END;

verus! {

/// Reads `bytes` as UTF-8 text.
///
/// Trusted: calls `std::str::from_utf8`. The contract claims that the call
/// succeeds exactly on well-formed UTF-8, and that the text it then returns
/// is the decoding of `bytes`.
#[verifier::external_body]
pub(crate) fn text_of_utf8<'a>(bytes: &'a [u8]) -> (r: Option<&'a str>)
    ensures
        r is Some <==> valid_utf8(bytes@),
        r matches Some(s) ==> s@ == decode_utf8(bytes@),
{
    std::str::from_utf8(bytes).ok()
}

/// `bytes` with every line end taken out.
pub open spec fn bytes_without_line_ends(bytes: Seq<u8>) -> Seq<u8>
    decreases bytes.len(),
{
    if bytes.len() == 0 {
        bytes
    } else if bytes[0] == LINE_END {
        bytes_without_line_ends(bytes.drop_first())
    } else {
        seq![bytes[0]] + bytes_without_line_ends(bytes.drop_first())
    }
}

/// `chars` with every newline taken out.
pub open spec fn chars_without_line_ends(chars: Seq<char>) -> Seq<char>
    decreases chars.len(),
{
    if chars.len() == 0 {
        chars
    } else if chars[0] == '\n' {
        chars_without_line_ends(chars.drop_first())
    } else {
        seq![chars[0]] + chars_without_line_ends(chars.drop_first())
    }
}

/// Taking the line ends out of two pieces is taking them out of the whole.
pub proof fn lemma_bytes_without_line_ends_concat(a: Seq<u8>, b: Seq<u8>)
    ensures
        bytes_without_line_ends(a + b) == bytes_without_line_ends(a) + bytes_without_line_ends(b),
    decreases a.len(),
{
    if a.len() == 0 {
        assert(a + b =~= b);
        assert(bytes_without_line_ends(a) + bytes_without_line_ends(b) =~= bytes_without_line_ends(
            b,
        ));
    } else {
        assert((a + b).drop_first() =~= a.drop_first() + b);
        lemma_bytes_without_line_ends_concat(a.drop_first(), b);
        assert(bytes_without_line_ends(a + b) =~= bytes_without_line_ends(a)
            + bytes_without_line_ends(b));
    }
}

/// Bytes without a line end stay as they are, and only those do.
pub proof fn lemma_bytes_without_line_ends_same(bytes: Seq<u8>)
    ensures
        bytes_without_line_ends(bytes).len() <= bytes.len(),
        !bytes.contains(LINE_END) <==> bytes_without_line_ends(bytes) == bytes,
    decreases bytes.len(),
{
    if bytes.len() == 0 {
    } else {
        let rest = bytes.drop_first();
        lemma_bytes_without_line_ends_same(rest);
        if bytes[0] == LINE_END {
            assert(bytes.contains(LINE_END));
        } else {
            if rest.contains(LINE_END) {
                let i = choose|i: int| 0 <= i < rest.len() && rest[i] == LINE_END;
                assert(bytes[i + 1] == LINE_END);
                assert(bytes_without_line_ends(bytes).drop_first() =~= bytes_without_line_ends(
                    rest,
                ));
            } else {
                assert forall|i: int| 0 <= i < bytes.len() implies bytes[i] != LINE_END by {
                    if i > 0 {
                        assert(rest[i - 1] == bytes[i]);
                    }
                }
                assert(bytes_without_line_ends(bytes) =~= bytes);
            }
        }
    }
}

/// Characters without a newline stay as they are, and only those do.
pub proof fn lemma_chars_without_line_ends_same(chars: Seq<char>)
    ensures
        chars_without_line_ends(chars).len() <= chars.len(),
        !chars.contains('\n') <==> chars_without_line_ends(chars) == chars,
    decreases chars.len(),
{
    if chars.len() == 0 {
    } else {
        let rest = chars.drop_first();
        lemma_chars_without_line_ends_same(rest);
        if chars[0] == '\n' {
            assert(chars.contains('\n'));
        } else {
            if rest.contains('\n') {
                let i = choose|i: int| 0 <= i < rest.len() && rest[i] == '\n';
                assert(chars[i + 1] == '\n');
                assert(chars_without_line_ends(chars).drop_first() =~= chars_without_line_ends(
                    rest,
                ));
            } else {
                assert forall|i: int| 0 <= i < chars.len() implies chars[i] != '\n' by {
                    if i > 0 {
                        assert(rest[i - 1] == chars[i]);
                    }
                }
                assert(chars_without_line_ends(chars) =~= chars);
            }
        }
    }
}

/// A byte below 128 stands for the character of its value.
proof fn lemma_one_byte_scalar(byte: u8)
    by (bit_vector)
    requires
        byte <= 0x7f,
    ensures
        (byte & 0x7f) as u32 == byte as u32,
{
}

/// One byte without its line ends: nothing if it is a line end, else itself.
proof fn lemma_one_byte_without_line_ends(byte: u8)
    ensures
        bytes_without_line_ends(seq![byte]) == if byte == LINE_END {
            Seq::<u8>::empty()
        } else {
            seq![byte]
        },
{
    let one = seq![byte];
    assert(one.drop_first() =~= Seq::<u8>::empty());
    assert(bytes_without_line_ends(Seq::<u8>::empty()) =~= Seq::<u8>::empty());
    assert(bytes_without_line_ends(one) =~= if byte == LINE_END {
        Seq::<u8>::empty()
    } else {
        one
    });
}

/// Taking the line ends out of UTF-8 text leaves UTF-8 text: the same
/// characters without the newlines.
pub proof fn lemma_without_line_ends_utf8(bytes: Seq<u8>)
    requires
        valid_utf8(bytes),
    ensures
        valid_utf8(bytes_without_line_ends(bytes)),
        decode_utf8(bytes_without_line_ends(bytes)) == chars_without_line_ends(decode_utf8(bytes)),
    decreases bytes.len(),
{
    if bytes.len() == 0 {
    } else {
        let width = length_of_first_scalar(bytes);
        let head = bytes.subrange(0, width);
        let tail = pop_first_scalar(bytes);
        let first = decode_first_scalar(bytes) as char;
        assert(bytes =~= head + tail);
        lemma_without_line_ends_utf8(tail);
        lemma_bytes_without_line_ends_concat(head, tail);
        let kept = bytes_without_line_ends(bytes);
        let kept_tail = bytes_without_line_ends(tail);
        assert(decode_utf8(bytes).drop_first() =~= decode_utf8(tail));
        assert(decode_utf8(bytes)[0] == first);
        if width == 1 {
            lemma_one_byte_scalar(bytes[0]);
            assert(decode_first_scalar(bytes) == bytes[0] as u32);
            assert(head =~= seq![bytes[0]]);
            lemma_one_byte_without_line_ends(bytes[0]);
            if bytes[0] == LINE_END {
                assert(first == '\n');
                assert(kept =~= kept_tail);
            } else {
                assert(first != '\n');
                lemma_kept_head(bytes, kept_tail);
            }
        } else {
            assert(first != '\n') by {
                decode_utf8_first_scalar(bytes);
                assert(encode_scalar('\n' as u32).len() == 1);
                assert(take_first_scalar(bytes).len() == width);
            }
            assert(!head.contains(LINE_END));
            lemma_bytes_without_line_ends_same(head);
            lemma_kept_head(bytes, kept_tail);
        }
    }
}

/// The first scalar of UTF-8 text, followed by other UTF-8 text, is UTF-8
/// text that starts with the same character.
proof fn lemma_kept_head(bytes: Seq<u8>, rest: Seq<u8>)
    requires
        bytes.len() > 0,
        valid_utf8(bytes),
        valid_utf8(rest),
    ensures
        valid_utf8(take_first_scalar(bytes) + rest),
        decode_utf8(take_first_scalar(bytes) + rest) == seq![decode_first_scalar(bytes) as char]
            + decode_utf8(rest),
{
    let head = take_first_scalar(bytes);
    let joined = head + rest;
    let width = length_of_first_scalar(bytes);
    assert(forall|i: int| 0 <= i < width ==> joined[i] == bytes[i]);
    assert(valid_first_scalar(joined));
    assert(length_of_first_scalar(joined) == width);
    assert(decode_first_scalar(joined) == decode_first_scalar(bytes));
    assert(pop_first_scalar(joined) =~= rest);
}

/// Text holds a newline exactly if its UTF-8 bytes hold a line end.
pub proof fn lemma_line_end_in_text(chars: Seq<char>)
    ensures
        encode_utf8(chars).contains(LINE_END) <==> chars.contains('\n'),
{
    let bytes = encode_utf8(chars);
    encode_utf8_valid_utf8(chars);
    encode_utf8_decode_utf8(chars);
    lemma_without_line_ends_utf8(bytes);
    lemma_bytes_without_line_ends_same(bytes);
    lemma_chars_without_line_ends_same(chars);
    if !chars.contains('\n') {
        decode_utf8_encode_utf8(bytes_without_line_ends(bytes));
    }
}

/// Copies `bytes` without its line ends.
pub fn strip_line_ends(bytes: &[u8]) -> (kept: Vec<u8>)
    ensures
        kept@ == bytes_without_line_ends(bytes@),
{
    let mut kept: Vec<u8> = Vec::new();
    let mut i: usize = 0;
    while i < bytes.len()
        invariant
            i <= bytes.len(),
            kept@ == bytes_without_line_ends(bytes@.take(i as int)),
        decreases bytes.len() - i,
    {
        let byte: u8 = bytes[i];
        proof {
            let before = bytes@.take(i as int);
            let one = seq![byte];
            assert(bytes@.take(i + 1) =~= before + one);
            lemma_bytes_without_line_ends_concat(before, one);
            lemma_one_byte_without_line_ends(byte);
        }
        if byte != LINE_END {
            kept.push(byte);
        }
        i += 1;
        proof {
            assert(kept@ =~= bytes_without_line_ends(bytes@.take(i as int)));
        }
    }
    proof {
        assert(bytes@.take(i as int) =~= bytes@);
    }
    kept
}

/// Copies `text` without its newlines.
pub fn without_line_ends(text: &str) -> (r: String)
    ensures
        r@ == chars_without_line_ends(text@),
{
    let kept = strip_line_ends(text.as_bytes());
    proof {
        encode_utf8_valid_utf8(text@);
        encode_utf8_decode_utf8(text@);
        lemma_without_line_ends_utf8(encode_utf8(text@));
    }
    match text_of_utf8(kept.as_slice()) {
        Some(stripped) => stripped.to_owned(),
        // Never taken: text without its newlines is text.
        None => text.to_owned(),
    }
}

} // verus!
