//! Little-endian integers and length-prefixed UTF-8 text in byte buffers:
//! the pieces the table formats are made of.

use vstd::prelude::*;
use vstd::utf8::{valid_utf8, decode_utf8, encode_utf8};
use crate::text::{utf8_decode, utf8_error_text};

verus! {

broadcast use vstd::seq_lib::group_seq_properties;

/// The value of the two bytes at `pos`, least significant first.
pub open spec fn le16(b: Seq<u8>, pos: int) -> nat {
    (b[pos] + 256 * b[pos + 1]) as nat
}

/// The value of the four bytes at `pos`, least significant first.
pub open spec fn le32(b: Seq<u8>, pos: int) -> nat {
    (b[pos] + 256 * b[pos + 1] + 65536 * b[pos + 2] + 16777216 * b[pos + 3]) as nat
}

/// The two bytes of `v`, least significant first (`u16::to_le_bytes`).
pub open spec fn u16_bytes(v: u16) -> Seq<u8> {
    seq![(v % 256) as u8, (v / 256) as u8]
}

/// The four bytes of `v`, least significant first (`u32::to_le_bytes`).
pub open spec fn u32_bytes(v: u32) -> Seq<u8> {
    seq![(v % 256) as u8, ((v / 256) % 256) as u8, ((v / 65536) % 256) as u8, (v / 16777216) as u8]
}

/// `n` cut to its low 16 bits, as `as u16` does.
pub open spec fn low16(n: nat) -> u16 {
    (n % 65536) as u16
}

/// `n` cut to its low 32 bits, as `as u32` does.
pub open spec fn low32(n: nat) -> u32 {
    (n % 4294967296) as u32
}

/// A length prefix, then the UTF-8 bytes of `s`.
pub open spec fn text_field(s: Seq<char>) -> Seq<u8> {
    u16_bytes(low16(encode_utf8(s).len())) + encode_utf8(s)
}

/// Reading a 16-bit value back from its bytes.
pub proof fn lemma_le16(v: u16, b: Seq<u8>, pos: int)
    requires
        0 <= pos,
        pos + 2 <= b.len(),
        b.subrange(pos, pos + 2) == u16_bytes(v),
    ensures
        le16(b, pos) == v,
{
    assert(b[pos] == u16_bytes(v)[0]);
    assert(b[pos + 1] == u16_bytes(v)[1]);
}

/// Reading a 32-bit value back from its bytes.
pub proof fn lemma_le32(v: u32, b: Seq<u8>, pos: int)
    requires
        0 <= pos,
        pos + 4 <= b.len(),
        b.subrange(pos, pos + 4) == u32_bytes(v),
    ensures
        le32(b, pos) == v,
{
    assert(b[pos] == u32_bytes(v)[0]);
    assert(b[pos + 1] == u32_bytes(v)[1]);
    assert(b[pos + 2] == u32_bytes(v)[2]);
    assert(b[pos + 3] == u32_bytes(v)[3]);
    assert(v == (v % 256) + 256 * ((v / 256) % 256) + 65536 * ((v / 65536) % 256) + 16777216 * (v
        / 16777216)) by (nonlinear_arith);
}

/// The 16-bit value at `pos`, if two bytes are there.
pub fn read_u16(bytes: &[u8], pos: usize) -> (r: Option<u16>)
    ensures
        r is Some <==> pos + 2 <= bytes@.len(),
        r is Some ==> r->Some_0 == le16(bytes@, pos as int),
{
    if pos > bytes.len() || bytes.len() - pos < 2 {
        return None;
    }
    Some(bytes[pos] as u16 + 256 * (bytes[pos + 1] as u16))
}

/// The 32-bit value at `pos`, if four bytes are there.
pub fn read_u32(bytes: &[u8], pos: usize) -> (r: Option<u32>)
    ensures
        r is Some <==> pos + 4 <= bytes@.len(),
        r is Some ==> r->Some_0 == le32(bytes@, pos as int),
{
    if pos > bytes.len() || bytes.len() - pos < 4 {
        return None;
    }
    Some(
        bytes[pos] as u32 + 256 * (bytes[pos + 1] as u32) + 65536 * (bytes[pos + 2] as u32)
            + 16777216 * (bytes[pos + 3] as u32),
    )
}

/// How reading `len` bytes of text at `pos` ends.
pub enum TextRead {
    /// Fewer than `len` bytes are left.
    Truncated,
    /// The bytes are not UTF-8; the error's message.
    Invalid(String),
    /// The decoded text.
    Text(String),
}

/// The text of `len` bytes at `pos`.
pub fn read_text(bytes: &[u8], pos: usize, len: usize) -> (r: TextRead)
    ensures
        r is Truncated <==> pos + len > bytes@.len(),
        r matches TextRead::Invalid(m) ==> !valid_utf8(bytes@.subrange(pos as int, pos + len))
            && m@ == utf8_error_text(bytes@.subrange(pos as int, pos + len)),
        r matches TextRead::Text(s) ==> valid_utf8(bytes@.subrange(pos as int, pos + len)) && s@
            == decode_utf8(bytes@.subrange(pos as int, pos + len)),
        pos + len <= bytes@.len() ==> (r is Text <==> valid_utf8(
            bytes@.subrange(pos as int, pos + len),
        )),
{
    if pos > bytes.len() || bytes.len() - pos < len {
        return TextRead::Truncated;
    }
    let field = slice_range(bytes, pos, pos + len);
    match utf8_decode(field.as_slice()) {
        Ok(s) => TextRead::Text(String::from_str(s)),
        Err(m) => TextRead::Invalid(m),
    }
}

/// A copy of `bytes[from..to]`.
pub fn slice_range(bytes: &[u8], from: usize, to: usize) -> (r: Vec<u8>)
    requires
        from <= to <= bytes@.len(),
    ensures
        r@ == bytes@.subrange(from as int, to as int),
{
    let mut out: Vec<u8> = Vec::new();
    let mut i = from;
    while i < to
        invariant
            from <= i <= to,
            to <= bytes@.len(),
            out@ == bytes@.subrange(from as int, i as int),
        decreases to - i,
    {
        out.push(bytes[i]);
        proof {
            assert(out@ =~= bytes@.subrange(from as int, i + 1));
        }
        i = i + 1;
    }
    out
}

/// Append the bytes of `v`, least significant first.
pub fn push_u16(out: &mut Vec<u8>, v: u16)
    ensures
        final(out)@ == old(out)@ + u16_bytes(v),
{
    out.push((v % 256) as u8);
    out.push((v / 256) as u8);
    proof {
        assert(final(out)@ =~= old(out)@ + u16_bytes(v));
    }
}

/// Append the bytes of `v`, least significant first.
pub fn push_u32(out: &mut Vec<u8>, v: u32)
    ensures
        final(out)@ == old(out)@ + u32_bytes(v),
{
    out.push((v % 256) as u8);
    out.push(((v / 256) % 256) as u8);
    out.push(((v / 65536) % 256) as u8);
    out.push((v / 16777216) as u8);
    proof {
        assert(final(out)@ =~= old(out)@ + u32_bytes(v));
    }
}

/// Append `bytes`.
pub fn push_bytes(out: &mut Vec<u8>, bytes: &[u8])
    ensures
        final(out)@ == old(out)@ + bytes@,
{
    let mut i: usize = 0;
    while i < bytes.len()
        invariant
            0 <= i <= bytes@.len(),
            out@ == old(out)@ + bytes@.take(i as int),
        decreases bytes.len() - i,
    {
        out.push(bytes[i]);
        proof {
            assert(out@ =~= old(out)@ + bytes@.take(i + 1));
        }
        i = i + 1;
    }
    proof {
        assert(bytes@.take(i as int) =~= bytes@);
    }
}

/// Append the bytes of `s` after their length, cut to 16 bits as `as u16`
/// cuts it.
pub fn push_text(out: &mut Vec<u8>, s: &str)
    ensures
        final(out)@ == old(out)@ + text_field(s@),
{
    let b = s.as_bytes();
    let len = b.len();
    let prefix: u16 = (len % 65536) as u16;
    push_u16(out, prefix);
    push_bytes(out, b);
    proof {
        assert(final(out)@ =~= old(out)@ + text_field(s@));
    }
}

/// A text field written for `s` reads back as `s`.
pub proof fn lemma_text_field(b: Seq<u8>, pos: int, s: Seq<char>)
    requires
        0 <= pos,
        encode_utf8(s).len() <= 0xFFFF,
        pos + text_field(s).len() <= b.len(),
        b.subrange(pos, pos + text_field(s).len()) == text_field(s),
    ensures
        text_field(s).len() == 2 + encode_utf8(s).len(),
        le16(b, pos) == encode_utf8(s).len(),
        valid_utf8(b.subrange(pos + 2, pos + 2 + encode_utf8(s).len())),
        decode_utf8(b.subrange(pos + 2, pos + 2 + encode_utf8(s).len())) == s,
{
    let w = encode_utf8(s);
    let f = text_field(s);
    assert(low16(w.len()) == w.len());
    assert(b.subrange(pos, pos + 2) =~= f.subrange(0, 2));
    assert(f.subrange(0, 2) =~= u16_bytes(low16(w.len())));
    lemma_le16(low16(w.len()), b, pos);
    assert(b.subrange(pos + 2, pos + 2 + w.len()) =~= f.subrange(2, 2 + w.len() as int));
    assert(f.subrange(2, 2 + w.len() as int) =~= w);
    vstd::utf8::encode_utf8_valid_utf8(s);
    vstd::utf8::encode_utf8_decode_utf8(s);
}

/// The two bytes at `pos` are the bytes of the value they hold.
pub proof fn lemma_le16_bytes(b: Seq<u8>, pos: int)
    requires
        0 <= pos,
        pos + 2 <= b.len(),
    ensures
        le16(b, pos) < 65536,
        u16_bytes(le16(b, pos) as u16) == b.subrange(pos, pos + 2),
{
    let x = b[pos];
    let y = b[pos + 1];
    let v = le16(b, pos);
    assert(v == x + 256 * y);
    assert((x + 256 * y) % 256 == x && (x + 256 * y) / 256 == y) by (nonlinear_arith)
        requires
            x < 256,
            y < 256,
    ;
    assert(u16_bytes(v as u16) =~= b.subrange(pos, pos + 2));
}

/// The four bytes at `pos` are the bytes of the value they hold.
pub proof fn lemma_le32_bytes(b: Seq<u8>, pos: int)
    requires
        0 <= pos,
        pos + 4 <= b.len(),
    ensures
        le32(b, pos) < 4294967296,
        u32_bytes(le32(b, pos) as u32) == b.subrange(pos, pos + 4),
{
    let x0 = b[pos] as int;
    let x1 = b[pos + 1] as int;
    let x2 = b[pos + 2] as int;
    let x3 = b[pos + 3] as int;
    let v = x0 + 256 * x1 + 65536 * x2 + 16777216 * x3;
    assert(le32(b, pos) == v);
    assert(v % 256 == x0 && (v / 256) % 256 == x1 && (v / 65536) % 256 == x2 && v / 16777216 == x3
        && v < 4294967296) by (nonlinear_arith)
        requires
            0 <= x0 < 256,
            0 <= x1 < 256,
            0 <= x2 < 256,
            0 <= x3 < 256,
            v == x0 + 256 * x1 + 65536 * x2 + 16777216 * x3,
    ;
    assert(u32_bytes(v as u32) =~= b.subrange(pos, pos + 4));
}

} // verus!
