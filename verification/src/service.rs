//! The request handlers of the line based echo servers, the line framing of
//! the multi-core echo server, and the reading of its listen address.

use vstd::prelude::*;
use vstd::std_specs::iter::IteratorSpec;
use vstd::utf8::encode_utf8;

verus! {

/// `String::push`: appends the character to the string. It grows the
/// string's buffer, which panics when the UTF-8 length would pass
/// `isize::MAX`; `requires` keeps the new length within that.
#[verifier::external_body]
fn push_char(s: &mut String, c: char)
    requires
        encode_utf8(old(s)@.push(c)).len() <= isize::MAX,
    ensures
        final(s)@ == old(s)@.push(c),
{
    s.push(c)
}

/// The UTF-8 encoding of two character sequences one after the other is the
/// encoding of the first followed by that of the second.
pub proof fn lemma_encoding_concat(a: Seq<char>, b: Seq<char>)
    ensures
        encode_utf8(a + b) == encode_utf8(a) + encode_utf8(b),
    decreases a.len(),
{
    if a.len() == 0 {
        assert(a + b =~= b);
        assert(encode_utf8(a) + encode_utf8(b) =~= encode_utf8(b));
    } else {
        assert((a + b).drop_first() =~= a.drop_first() + b);
        lemma_encoding_concat(a.drop_first(), b);
        assert(encode_utf8(a + b) =~= encode_utf8(a) + encode_utf8(b));
    }
}

/// Reversing characters keeps the length of their UTF-8 encoding.
pub proof fn lemma_reverse_keeps_encoded_length(s: Seq<char>)
    ensures
        encode_utf8(s.reverse()).len() == encode_utf8(s).len(),
    decreases s.len(),
{
    if s.len() > 0 {
        let rest = s.drop_first();
        lemma_reverse_keeps_encoded_length(rest);
        assert(s.reverse() =~= rest.reverse() + seq![s[0]]);
        lemma_encoding_concat(rest.reverse(), seq![s[0]]);
        let one = seq![s[0]];
        assert(one.drop_first() =~= Seq::<char>::empty());
        assert(encode_utf8(one.drop_first()) == Seq::<u8>::empty());
        assert(encode_utf8(one) == vstd::utf8::encode_scalar(one[0] as u32) + encode_utf8(
            one.drop_first(),
        ));
        assert(encode_utf8(one) =~= vstd::utf8::encode_scalar(s[0] as u32));
    }
}

/// A service that answers each line with the line itself.
pub struct EchoService;

impl EchoService {
    /// The response to `input`: `input` unchanged.
    pub fn call(&self, input: String) -> (out: String)
        ensures
            out@ == input@,
    {
        input
    }
}

/// A service that answers each line with its characters in reverse order.
pub struct EchoRev;

impl EchoRev {
    /// The response to `req`: its characters, last first.
    pub fn call(&self, req: String) -> (rev: String)
        requires
            encode_utf8(req@).len() <= isize::MAX,
        ensures
            rev@ == req@.reverse(),
    {
        let mut chars: Vec<char> = Vec::new();
        let ghost mut seen: int = 0;
        for c in it: req.as_str().chars()
            invariant
                it.seq() == req@,
                seen == it.index(),
                chars@ == req@.take(seen),
        {
            chars.push(c);
            proof {
                assert(req@.take(seen + 1) =~= req@.take(seen).push(c));
                seen = seen + 1;
            }
        }
        assert(seen == req@.len());
        assert(chars@ =~= req@);
        let mut rev = String::new();
        let mut i: usize = chars.len();
        while i > 0
            invariant
                i <= chars@.len(),
                chars@ == req@,
                encode_utf8(req@).len() <= isize::MAX,
                rev@ =~= chars@.subrange(i as int, chars@.len() as int).reverse(),
            decreases i,
        {
            i = i - 1;
            proof {
                let suffix = chars@.subrange(i as int, chars@.len() as int);
                assert(rev@.push(chars@[i as int]) =~= suffix.reverse());
                lemma_reverse_keeps_encoded_length(suffix);
                assert(req@ =~= req@.take(i as int) + suffix);
                lemma_encoding_concat(req@.take(i as int), suffix);
            }
            push_char(&mut rev, chars[i]);
            assert(chars@.subrange(i as int, chars@.len() as int).reverse() =~= chars@.subrange(
                i + 1,
                chars@.len() as int,
            ).reverse().push(chars@[i as int]));
        }
        assert(chars@.subrange(0, chars@.len() as int) =~= chars@);
        rev
    }
}

/// Law: answering the reversed line with the reversing service gives back
/// the line itself.
pub proof fn lemma_reverse_twice(line: Seq<char>)
    ensures
        line.reverse().reverse() == line,
{
    assert(line.reverse().reverse() =~= line);
}

/// A line as the echo server writes it back: the line and a `\n`.
pub fn terminate_line(line: String) -> (out: String)
    ensures
        out@ == line@.push('\n'),
{
    let mut out = line;
    out.append("\n");
    proof {
        reveal_strlit("\n");
    }
    assert(out@ =~= line@.push('\n'));
    out
}

/// Why the server could not find the address to listen on.
#[derive(Debug, PartialEq, Eq)]
pub enum ArgumentError {
    /// No argument after the program name.
    MissingArgument,
}

/// The listen address: the first argument after the program name.
pub fn address_argument(args: &Vec<String>) -> (addr: Result<String, ArgumentError>)
    ensures
        args@.len() > 1 ==> (addr matches Ok(a) && a@ == args@[1]@),
        args@.len() <= 1 ==> addr == Err::<String, ArgumentError>(ArgumentError::MissingArgument),
{
    if args.len() > 1 {
        Ok(args[1].clone())
    } else {
        Err(ArgumentError::MissingArgument)
    }
}

} // verus!
