//! A codec for newline terminated UTF-8 lines.
//!
//! Encoding appends the UTF-8 bytes of a line and a `\n`; decoding takes
//! everything up to the first `\n` out of the buffer, drops the `\n`, and
//! reads the taken bytes as UTF-8.

use vstd::prelude::*;
use vstd::utf8::*;
use bytes::BytesMut;
use crate::buffer::{buffer_as_slice, buffer_contents, buffer_extend, buffer_extend_from_slice, buffer_split_to};

verus! {

broadcast use vstd::utf8::encode_utf8_valid_utf8, vstd::utf8::encode_utf8_decode_utf8;

/// The byte that ends a line.
pub const NEWLINE: u8 = 10;

/// Encoder and decoder of newline delimited lines.
pub struct LineCodec;

/// Why a line could not be decoded.
#[derive(Debug, Clone, Copy, PartialEq, Eq)]
pub enum LineCodecError {
    /// The bytes before the newline are not valid UTF-8.
    InvalidUtf8,
}

/// Index of the first newline byte in `bytes`, if there is one.
pub open spec fn newline_index(bytes: Seq<u8>) -> Option<nat>
    decreases bytes.len(),
{
    if bytes.len() == 0 {
        None
    } else if bytes[0] == NEWLINE {
        Some(0)
    } else {
        match newline_index(bytes.drop_first()) {
            Some(i) => Some(i + 1),
            None => None,
        }
    }
}

/// The bytes `encode` appends for `line`.
pub open spec fn encoded_line(line: Seq<char>) -> Seq<u8> {
    encode_utf8(line).push(NEWLINE)
}

/// What `decode` returns for a buffer holding `bytes`, with the strings taken
/// by their characters.
pub open spec fn decode_result(bytes: Seq<u8>) -> Result<Option<Seq<char>>, LineCodecError> {
    match newline_index(bytes) {
        None => Ok(None),
        Some(i) => {
            let line = bytes.take(i as int);
            if valid_utf8(line) {
                Ok(Some(decode_utf8(line)))
            } else {
                Err(LineCodecError::InvalidUtf8)
            }
        },
    }
}

/// What `decode` leaves in a buffer that held `bytes`.
pub open spec fn decode_rest(bytes: Seq<u8>) -> Seq<u8> {
    match newline_index(bytes) {
        None => bytes,
        Some(i) => bytes.skip(i + 1int),
    }
}

/// A decode result with the string taken by its characters.
pub open spec fn result_view(r: Result<Option<String>, LineCodecError>) -> Result<
    Option<Seq<char>>,
    LineCodecError,
> {
    match r {
        Ok(Some(s)) => Ok(Some(s@)),
        Ok(None) => Ok(None),
        Err(e) => Err(e),
    }
}

/// `std::str::from_utf8`: it succeeds exactly when the bytes are valid UTF-8,
/// and then the string it returns is the UTF-8 decoding of the bytes. The
/// error value is not handed on.
#[verifier::external_body]
fn utf8_str(bytes: &[u8]) -> (text: Option<&str>)
    ensures
        text is Some <==> valid_utf8(bytes@),
        text matches Some(t) ==> t@ == decode_utf8(bytes@),
{
    match std::str::from_utf8(bytes) {
        Ok(t) => Some(t),
        Err(_) => None,
    }
}

/// Position of the first newline in `bytes`.
fn newline_position(bytes: &[u8]) -> (pos: Option<usize>)
    ensures
        match pos {
            Some(i) => newline_index(bytes@) == Some(i as nat),
            None => newline_index(bytes@) is None,
        },
{
    let mut i: usize = 0;
    while i < bytes.len()
        invariant
            i <= bytes@.len(),
            forall|j: int| 0 <= j < i ==> bytes@[j] != NEWLINE,
        decreases bytes@.len() - i,
    {
        if bytes[i] == NEWLINE {
            proof {
                lemma_newline_index_after_prefix(bytes@.take(i as int), bytes@.skip(i as int));
                assert(bytes@.take(i as int) + bytes@.skip(i as int) =~= bytes@);
            }
            return Some(i);
        }
        i = i + 1;
    }
    proof {
        lemma_newline_index_after_prefix(bytes@, Seq::empty());
        assert(bytes@ + Seq::<u8>::empty() =~= bytes@);
    }
    None
}

/// Skipping a prefix without newlines shifts the first newline by the
/// prefix's length.
pub proof fn lemma_newline_index_after_prefix(prefix: Seq<u8>, suffix: Seq<u8>)
    requires
        forall|j: int| 0 <= j < prefix.len() ==> prefix[j] != NEWLINE,
    ensures
        newline_index(prefix + suffix) == match newline_index(suffix) {
            Some(i) => Some(i + prefix.len()),
            None => None::<nat>,
        },
    decreases prefix.len(),
{
    if prefix.len() == 0 {
        assert(prefix + suffix =~= suffix);
    } else {
        assert((prefix + suffix).drop_first() =~= prefix.drop_first() + suffix);
        lemma_newline_index_after_prefix(prefix.drop_first(), suffix);
    }
}

/// The first newline index, when there is one, points at a newline inside
/// the bytes with no newline before it.
pub proof fn lemma_newline_index_bounds(bytes: Seq<u8>)
    ensures
        newline_index(bytes) matches Some(i) ==> {
            &&& i < bytes.len()
            &&& bytes[i as int] == NEWLINE
            &&& forall|j: int| 0 <= j < i ==> bytes[j] != NEWLINE
        },
    decreases bytes.len(),
{
    if bytes.len() > 0 && bytes[0] != NEWLINE {
        lemma_newline_index_bounds(bytes.drop_first());
        if let Some(i) = newline_index(bytes.drop_first()) {
            assert forall|j: int| 0 <= j < i + 1 implies bytes[j] != NEWLINE by {
                if j > 0 {
                    assert(bytes[j] == bytes.drop_first()[j - 1]);
                }
            }
        }
    }
}

/// The UTF-8 encoding of a character other than `\n` holds no newline byte.
proof fn lemma_scalar_has_no_newline(c: char)
    requires
        c != '\n',
    ensures
        forall|j: int|
            0 <= j < encode_scalar(c as u32).len() ==> #[trigger] encode_scalar(c as u32)[j]
                != NEWLINE,
{
    let s = c as u32;
    assert(s != 10u32);
    if has_width_1_encoding(s) {
        assert(leading_byte_width_1(s) != 10u8) by (bit_vector)
            requires
                s <= 0x7f,
                s != 10u32,
        ;
    } else {
        assert(leading_byte_width_2(s) != 10u8) by (bit_vector);
        assert(leading_byte_width_3(s) != 10u8) by (bit_vector);
        assert(leading_byte_width_4(s) != 10u8) by (bit_vector);
        assert(last_continuation_byte(s) != 10u8) by (bit_vector);
        assert(second_last_continuation_byte(s) != 10u8) by (bit_vector);
        assert(third_last_continuation_byte(s) != 10u8) by (bit_vector);
    }
}

/// A line without `\n` encodes to bytes without a newline byte.
pub proof fn lemma_encoding_has_no_newline(line: Seq<char>)
    requires
        !line.contains('\n'),
    ensures
        forall|j: int| 0 <= j < encode_utf8(line).len() ==> encode_utf8(line)[j] != NEWLINE,
    decreases line.len(),
{
    if line.len() > 0 {
        assert(line[0] != '\n');
        lemma_scalar_has_no_newline(line[0]);
        assert forall|c: char| line.drop_first().contains(c) implies c != '\n' by {
            let k = choose|k: int| 0 <= k < line.drop_first().len() && line.drop_first()[k] == c;
            assert(line[k + 1] == c);
        }
        lemma_encoding_has_no_newline(line.drop_first());
        let head = encode_scalar(line[0] as u32);
        let tail = encode_utf8(line.drop_first());
        assert(encode_utf8(line) == head + tail);
        assert forall|j: int| 0 <= j < encode_utf8(line).len() implies encode_utf8(line)[j]
            != NEWLINE by {
            if j < head.len() {
                assert(encode_utf8(line)[j] == head[j]);
            } else {
                assert(encode_utf8(line)[j] == tail[j - head.len()]);
            }
        }
    }
}

/// Law: a line without `\n`, once encoded, decodes to itself, whatever bytes
/// follow it, and decoding leaves exactly those following bytes.
pub proof fn lemma_encoded_line_decodes(line: Seq<char>, rest: Seq<u8>)
    requires
        !line.contains('\n'),
    ensures
        decode_result(encoded_line(line) + rest) == Ok::<Option<Seq<char>>, LineCodecError>(
            Some(line),
        ),
        decode_rest(encoded_line(line) + rest) == rest,
{
    let enc = encode_utf8(line);
    let bytes = encoded_line(line) + rest;
    lemma_encoding_has_no_newline(line);
    let tail = seq![NEWLINE] + rest;
    assert(bytes =~= enc + tail);
    lemma_newline_index_after_prefix(enc, tail);
    assert(newline_index(tail) == Some(0nat));
    assert(bytes.take(enc.len() as int) =~= enc);
    assert(bytes.skip(enc.len() + 1int) =~= rest);
}

/// The bytes `encode` appends for each of `lines`, in order.
pub open spec fn encoded_lines(lines: Seq<Seq<char>>) -> Seq<u8>
    decreases lines.len(),
{
    if lines.len() == 0 {
        Seq::empty()
    } else {
        encoded_line(lines[0]) + encoded_lines(lines.drop_first())
    }
}

/// The results of `n` successive decodes of a buffer holding `bytes`, and
/// what the buffer holds after them.
pub open spec fn decode_repeatedly(bytes: Seq<u8>, n: nat) -> (
    Seq<Result<Option<Seq<char>>, LineCodecError>>,
    Seq<u8>,
)
    decreases n,
{
    if n == 0 {
        (Seq::empty(), bytes)
    } else {
        let later = decode_repeatedly(decode_rest(bytes), (n - 1) as nat);
        (seq![decode_result(bytes)] + later.0, later.1)
    }
}

/// Law: lines are decoded in the order they were encoded. Encoding lines
/// without `\n` one after the other and then decoding as many times gives
/// back each line, first to last, and leaves whatever followed them.
pub proof fn lemma_lines_decode_in_order(lines: Seq<Seq<char>>, rest: Seq<u8>)
    requires
        forall|i: int| 0 <= i < lines.len() ==> !(#[trigger] lines[i]).contains('\n'),
    ensures
        decode_repeatedly(encoded_lines(lines) + rest, lines.len()).0 == lines.map_values(
            |l: Seq<char>| Ok::<Option<Seq<char>>, LineCodecError>(Some(l)),
        ),
        decode_repeatedly(encoded_lines(lines) + rest, lines.len()).1 == rest,
    decreases lines.len(),
{
    if lines.len() > 0 {
        let tail = lines.drop_first();
        assert forall|i: int| 0 <= i < tail.len() implies !(#[trigger] tail[i]).contains('\n') by {
            assert(tail[i] == lines[i + 1]);
        }
        lemma_lines_decode_in_order(tail, rest);
        let after = encoded_lines(tail) + rest;
        assert(encoded_lines(lines) + rest =~= encoded_line(lines[0]) + after);
        lemma_encoded_line_decodes(lines[0], after);
        let n = lines.len();
        assert(decode_repeatedly(encoded_lines(lines) + rest, n) == (
            seq![decode_result(encoded_lines(lines) + rest)] + decode_repeatedly(after, (n - 1) as nat).0,
            decode_repeatedly(after, (n - 1) as nat).1,
        ));
        assert(decode_repeatedly(encoded_lines(lines) + rest, n).0 =~= lines.map_values(
            |l: Seq<char>| Ok::<Option<Seq<char>>, LineCodecError>(Some(l)),
        ));
    } else {
        assert(encoded_lines(lines) + rest =~= rest);
        assert(decode_repeatedly(rest, 0).0 =~= lines.map_values(
            |l: Seq<char>| Ok::<Option<Seq<char>>, LineCodecError>(Some(l)),
        ));
    }
}

/// Law: a buffer without a newline holds no complete line; decoding it
/// yields nothing and leaves it as it is.
pub proof fn lemma_partial_line_waits(bytes: Seq<u8>)
    requires
        !bytes.contains(NEWLINE),
    ensures
        decode_result(bytes) == Ok::<Option<Seq<char>>, LineCodecError>(None),
        decode_rest(bytes) == bytes,
{
    assert forall|j: int| 0 <= j < bytes.len() implies bytes[j] != NEWLINE by {
        if bytes[j] == NEWLINE {
            assert(bytes.contains(NEWLINE));
        }
    }
    lemma_newline_index_after_prefix(bytes, Seq::empty());
    assert(bytes + Seq::<u8>::empty() =~= bytes);
}

/// Law: what `encode` appends for a line is the line's UTF-8 bytes (the
/// bytes of `str::as_bytes`) followed by one newline byte: dropping the
/// final newline leaves valid UTF-8 that decodes back to exactly the line.
pub proof fn lemma_encoding_is_utf8_then_newline(line: Seq<char>)
    ensures
        encoded_line(line) == encode_utf8(line) + seq![NEWLINE],
        encoded_line(line).len() > 0,
        encoded_line(line).last() == NEWLINE,
        valid_utf8(encoded_line(line).drop_last()),
        decode_utf8(encoded_line(line).drop_last()) == line,
{
    assert(encoded_line(line) =~= encode_utf8(line) + seq![NEWLINE]);
    assert(encoded_line(line).drop_last() =~= encode_utf8(line));
}

/// Without a first newline index, the bytes hold no newline.
proof fn lemma_no_newline_index(bytes: Seq<u8>)
    requires
        newline_index(bytes) is None,
    ensures
        !bytes.contains(NEWLINE),
    decreases bytes.len(),
{
    if bytes.len() > 0 {
        lemma_no_newline_index(bytes.drop_first());
        if bytes.contains(NEWLINE) {
            let j = choose|j: int| 0 <= j < bytes.len() && bytes[j] == NEWLINE;
            assert(j != 0);
            assert(bytes.drop_first()[j - 1] == NEWLINE);
        }
    }
}

/// Law: what `decode` takes out of a buffer is exactly one line and its
/// newline, from the front:
/// - a returned string `s` is what the buffer began with: the buffer was
///   the UTF-8 bytes of `s` (holding no newline), a newline, then what is
///   left;
/// - nothing returned means the buffer holds no newline and is left whole;
/// - an error means the buffer began with bytes holding no newline that are
///   not valid UTF-8, then a newline, then what is left.
pub proof fn lemma_decode_takes_first_line(bytes: Seq<u8>)
    ensures
        decode_result(bytes) matches Ok(Some(s)) ==> {
            &&& bytes == encode_utf8(s) + seq![NEWLINE] + decode_rest(bytes)
            &&& !encode_utf8(s).contains(NEWLINE)
        },
        decode_result(bytes) matches Ok(None) ==> {
            &&& !bytes.contains(NEWLINE)
            &&& decode_rest(bytes) == bytes
        },
        decode_result(bytes) is Err ==> {
            let line = bytes.take(bytes.len() - decode_rest(bytes).len() - 1);
            &&& decode_rest(bytes).len() < bytes.len()
            &&& bytes == line + seq![NEWLINE] + decode_rest(bytes)
            &&& !line.contains(NEWLINE)
            &&& !valid_utf8(line)
        },
{
    lemma_newline_index_bounds(bytes);
    match newline_index(bytes) {
        None => {
            lemma_no_newline_index(bytes);
        },
        Some(i) => {
            let line = bytes.take(i as int);
            let rest = bytes.skip(i + 1int);
            assert(bytes =~= line + seq![NEWLINE] + rest);
            assert(bytes.take(bytes.len() - rest.len() - 1) =~= line);
            if line.contains(NEWLINE) {
                let j = choose|j: int| 0 <= j < line.len() && line[j] == NEWLINE;
                assert(bytes[j] == NEWLINE);
            }
            if valid_utf8(line) {
                vstd::utf8::decode_utf8_encode_utf8(line);
            }
        },
    }
}

impl LineCodec {
    /// Appends `item` and a newline to `dst`.
    pub fn encode(&mut self, item: String, dst: &mut BytesMut) -> (res: Result<(), LineCodecError>)
        requires
            buffer_contents(*old(dst)).len() + encoded_line(item@).len() <= isize::MAX,
        ensures
            res is Ok,
            buffer_contents(*final(dst)) == buffer_contents(*old(dst)) + encoded_line(item@),
            buffer_contents(*final(dst)) == buffer_contents(*old(dst)) + encode_utf8(item@) + seq![
                NEWLINE,
            ],
    {
        proof {
            lemma_encoding_is_utf8_then_newline(item@);
        }
        let bytes = item.as_str().as_bytes();
        buffer_extend_from_slice(dst, bytes);
        let newline: [u8; 1] = [NEWLINE];
        buffer_extend(dst, newline.as_slice());
        assert(buffer_contents(*dst) =~= buffer_contents(*old(dst)) + encoded_line(item@));
        Ok(())
    }

    /// Takes the first complete line out of `src`: `Ok(None)` (with `src`
    /// untouched) when `src` holds no newline; otherwise the bytes up to the
    /// first newline and the newline itself leave `src`, and the line is
    /// returned, or `InvalidUtf8` when its bytes are not valid UTF-8.
    pub fn decode(&mut self, src: &mut BytesMut) -> (res: Result<Option<String>, LineCodecError>)
        ensures
            result_view(res) == decode_result(buffer_contents(*old(src))),
            buffer_contents(*final(src)) == decode_rest(buffer_contents(*old(src))),
            res matches Ok(Some(s)) ==> {
                &&& buffer_contents(*old(src)) == encode_utf8(s@) + seq![NEWLINE] + buffer_contents(
                    *final(src),
                )
                &&& !encode_utf8(s@).contains(NEWLINE)
            },
            res matches Ok(None) ==> {
                &&& !buffer_contents(*old(src)).contains(NEWLINE)
                &&& buffer_contents(*final(src)) == buffer_contents(*old(src))
            },
    {
        proof {
            lemma_newline_index_bounds(buffer_contents(*src));
            lemma_decode_takes_first_line(buffer_contents(*src));
        }
        let found = newline_position(buffer_as_slice(src));
        match found {
            None => Ok(None),
            Some(i) => {
                let msg = buffer_split_to(src, i);
                let _newline = buffer_split_to(src, 1);
                assert(buffer_contents(*src) =~= buffer_contents(*old(src)).skip(i + 1));
                match utf8_str(buffer_as_slice(&msg)) {
                    Some(text) => Ok(Some(text.to_owned())),
                    None => Err(LineCodecError::InvalidUtf8),
                }
            },
        }
    }
}

} // verus!
