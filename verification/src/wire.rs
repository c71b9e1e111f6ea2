//! The wire form of a chat message: a JSON object
//! `{"author":...,"contents":...,"timestamp":...}` with the two text fields
//! escaped as JSON strings and the timestamp as a decimal number. A message
//! is serialized once per broadcast and the resulting bytes are enqueued
//! verbatim on every recipient's outbound queue.

use vstd::prelude::*;
use vstd::utf8::encode_utf8;

use crate::message::{ChatMessage, ChatMessageView};

verus! {

/// The byte standing for the value `n` as a lowercase hexadecimal digit.
pub open spec fn hex_digit(n: int) -> u8
    recommends
        0 <= n < 16,
{
    if n < 10 {
        (48 + n) as u8
    } else {
        (87 + n) as u8
    }
}

/// How one byte of a field appears inside a JSON string literal: quote and
/// backslash get a backslash escape, control bytes become `\u00XX`, and every
/// other byte (including the bytes of multi-byte UTF-8 sequences) stands as
/// itself.
pub open spec fn escape_byte(b: u8) -> Seq<u8> {
    if b == 34 {
        seq![92u8, 34u8]
    } else if b == 92 {
        seq![92u8, 92u8]
    } else if b < 32 {
        seq![92u8, 117u8, 48u8, 48u8, hex_digit(b as int / 16), hex_digit(b as int % 16)]
    } else {
        seq![b]
    }
}

/// A whole field escaped byte by byte, in order.
pub open spec fn escape_bytes(s: Seq<u8>) -> Seq<u8>
    decreases s.len(),
{
    if s.len() == 0 {
        Seq::empty()
    } else {
        escape_bytes(s.drop_last()) + escape_byte(s.last())
    }
}

/// The decimal digits of `n`, most significant first, no leading zeros
/// (a single `0` for zero itself).
pub open spec fn dec_digits(n: nat) -> Seq<u8>
    decreases n,
{
    if n < 10 {
        seq![(48 + n) as u8]
    } else {
        dec_digits(n / 10) + seq![(48 + n % 10) as u8]
    }
}

/// The bytes of `{"author":"`.
pub open spec fn author_key() -> Seq<u8> {
    seq![123u8, 34u8, 97u8, 117u8, 116u8, 104u8, 111u8, 114u8, 34u8, 58u8, 34u8]
}

/// The bytes of `","contents":"`.
pub open spec fn contents_key() -> Seq<u8> {
    seq![34u8, 44u8, 34u8, 99u8, 111u8, 110u8, 116u8, 101u8, 110u8, 116u8, 115u8, 34u8, 58u8, 34u8]
}

/// The bytes of `","timestamp":`.
pub open spec fn timestamp_key() -> Seq<u8> {
    seq![34u8, 44u8, 34u8, 116u8, 105u8, 109u8, 101u8, 115u8, 116u8, 97u8, 109u8, 112u8, 34u8, 58u8]
}

/// The serialized form of a message: what the broadcast engine enqueues on
/// every recipient's outbound queue.
pub open spec fn chat_message_json(m: ChatMessageView) -> Seq<u8> {
    author_key() + escape_bytes(encode_utf8(m.author)) + contents_key() + escape_bytes(
        encode_utf8(m.contents),
    ) + timestamp_key() + dec_digits(m.timestamp as nat) + seq![125u8]
}

fn push_hex_digit(out: &mut Vec<u8>, n: u8)
    requires
        n < 16,
    ensures
        final(out)@ == old(out)@.push(hex_digit(n as int)),
{
    if n < 10 {
        out.push(48 + n);
    } else {
        out.push(87 + n);
    }
}

fn push_escaped_bytes(out: &mut Vec<u8>, s: &Vec<u8>)
    ensures
        final(out)@ == old(out)@ + escape_bytes(s@),
{
    let mut i: usize = 0;
    while i < s.len()
        invariant
            i <= s.len(),
            out@ == old(out)@ + escape_bytes(s@.take(i as int)),
        decreases s.len() - i,
    {
        let b = s[i];
        proof {
            assert(s@.take(i + 1).drop_last() =~= s@.take(i as int));
            assert(s@.take(i + 1).last() == b);
        }
        if b == 34 {
            out.push(92);
            out.push(34);
        } else if b == 92 {
            out.push(92);
            out.push(92);
        } else if b < 32 {
            out.push(92);
            out.push(117);
            out.push(48);
            out.push(48);
            push_hex_digit(out, b / 16);
            push_hex_digit(out, b % 16);
        } else {
            out.push(b);
        }
        proof {
            assert(out@ =~= old(out)@ + escape_bytes(s@.take(i + 1)));
        }
        i = i + 1;
    }
    proof {
        assert(s@.take(s@.len() as int) =~= s@);
    }
}

fn push_decimal(out: &mut Vec<u8>, n: u64)
    ensures
        final(out)@ == old(out)@ + dec_digits(n as nat),
{
    if n == 0 {
        out.push(48);
        proof {
            assert(old(out)@.push(48u8) =~= old(out)@ + dec_digits(0));
        }
        return ;
    }
    let mut rev: Vec<u8> = Vec::new();
    let mut m = n;
    while m > 0
        invariant
            m > 0 ==> dec_digits(n as nat) == dec_digits(m as nat) + rev@.reverse(),
            m == 0 ==> dec_digits(n as nat) == rev@.reverse(),
        decreases m,
    {
        let ghost prev_m = m as nat;
        let ghost prev_rev = rev@;
        let d: u8 = (m % 10) as u8;
        rev.push(48 + d);
        m = m / 10;
        proof {
            assert(rev@.reverse() =~= seq![(48 + d) as u8] + prev_rev.reverse());
            if m > 0 {
                assert(dec_digits(prev_m) == dec_digits(prev_m / 10) + seq![
                    (48 + prev_m % 10) as u8,
                ]);
                assert(dec_digits(m as nat) + rev@.reverse() =~= (dec_digits(m as nat) + seq![
                    (48 + d) as u8,
                ]) + prev_rev.reverse());
            } else {
                assert(dec_digits(prev_m) == seq![(48 + d) as u8]);
            }
        }
    }
    let mut j = rev.len();
    while j > 0
        invariant
            j <= rev.len(),
            dec_digits(n as nat) == rev@.reverse(),
            out@ == old(out)@ + rev@.reverse().take(rev@.len() - j),
        decreases j,
    {
        j = j - 1;
        out.push(rev[j]);
        proof {
            assert(out@ =~= old(out)@ + rev@.reverse().take(rev@.len() - j));
        }
    }
    proof {
        assert(rev@.reverse().take(rev@.len() as int) =~= rev@.reverse());
    }
}

fn push_author_key(out: &mut Vec<u8>)
    ensures
        final(out)@ == old(out)@ + author_key(),
{
    out.push(123);
    out.push(34);
    out.push(97);
    out.push(117);
    out.push(116);
    out.push(104);
    out.push(111);
    out.push(114);
    out.push(34);
    out.push(58);
    out.push(34);
    proof {
        assert(out@ =~= old(out)@ + author_key());
    }
}

fn push_contents_key(out: &mut Vec<u8>)
    ensures
        final(out)@ == old(out)@ + contents_key(),
{
    out.push(34);
    out.push(44);
    out.push(34);
    out.push(99);
    out.push(111);
    out.push(110);
    out.push(116);
    out.push(101);
    out.push(110);
    out.push(116);
    out.push(115);
    out.push(34);
    out.push(58);
    out.push(34);
    proof {
        assert(out@ =~= old(out)@ + contents_key());
    }
}

fn push_timestamp_key(out: &mut Vec<u8>)
    ensures
        final(out)@ == old(out)@ + timestamp_key(),
{
    out.push(34);
    out.push(44);
    out.push(34);
    out.push(116);
    out.push(105);
    out.push(109);
    out.push(101);
    out.push(115);
    out.push(116);
    out.push(97);
    out.push(109);
    out.push(112);
    out.push(34);
    out.push(58);
    proof {
        assert(out@ =~= old(out)@ + timestamp_key());
    }
}

/// A fresh copy of a serialized message, so that one serialization can be
/// enqueued for many recipients.
pub fn copy_bytes(v: &Vec<u8>) -> (r: Vec<u8>)
    ensures
        r@ == v@,
{
    let mut r: Vec<u8> = Vec::new();
    let mut i: usize = 0;
    while i < v.len()
        invariant
            i <= v@.len(),
            r@ == v@.take(i as int),
        decreases v@.len() - i,
    {
        r.push(v[i]);
        proof {
            assert(r@ =~= v@.take(i + 1));
        }
        i = i + 1;
    }
    proof {
        assert(v@.take(v@.len() as int) =~= v@);
    }
    r
}

/// Serializes a message to its wire form.
pub fn chat_message_to_json(m: &ChatMessage) -> (r: Vec<u8>)
    ensures
        r@ == chat_message_json(m@),
{
    let mut out: Vec<u8> = Vec::new();
    push_author_key(&mut out);
    let author_bytes = m.author.as_str().as_bytes_vec();
    push_escaped_bytes(&mut out, &author_bytes);
    push_contents_key(&mut out);
    let contents_bytes = m.contents.as_str().as_bytes_vec();
    push_escaped_bytes(&mut out, &contents_bytes);
    push_timestamp_key(&mut out);
    push_decimal(&mut out, m.timestamp);
    out.push(125);
    proof {
        assert(out@ =~= chat_message_json(m@));
    }
    out
}

} // verus!
