//! What the library promises as a whole: whatever a writer emits, the
//! matching reader gives back, and consumes exactly those bytes.
use crate::bytes::{
    lemma_u16_roundtrip, lemma_u32_roundtrip, lemma_u64_roundtrip, u16_from_be, u16_to_be,
    u32_from_be, u32_to_be, u64_from_be, u64_to_be,
};
use crate::error::{Error, Invalid};
use crate::format::{
    array_header, bin_header, enc_bool, enc_f32, enc_f64, enc_nil, enc_pairs, enc_signed,
    enc_str, enc_unsigned, enc_value, enc_values, encodable, lemma_all_encodable,
    lemma_all_pairs_encodable, lemma_skip_skip, lemma_skip_zero, map_header, parse_array,
    parse_bool, parse_char, parse_entries, parse_f32, parse_f64, parse_map_len, parse_nil,
    parse_option, parse_signed, parse_str, parse_str_len, parse_struct, parse_unsigned,
    parse_value, parse_variant, parse_vec_len, position_of, str_header, take_bytes, take_u16,
    take_u32, take_u64,
};
use crate::value::SpecValue;
use vstd::prelude::*;
use vstd::utf8::{decode_utf8, encode_utf8, encode_utf8_decode_utf8, encode_utf8_valid_utf8, valid_utf8};

verus! {

broadcast use {lemma_skip_skip, lemma_skip_zero};

// ---------------------------------------------------------------------
// Fields behind a marker
// ---------------------------------------------------------------------

proof fn lemma_be16_front(x: u16, rest: Seq<u8>)
    ensures
        u16_from_be(u16_to_be(x) + rest) == x,
        take_u16(u16_to_be(x) + rest) == (Ok::<u16, Error>(x), 2nat),
        (u16_to_be(x) + rest).skip(2) == rest,
{
    lemma_u16_roundtrip(x);
    let s = u16_to_be(x) + rest;
    assert(s[0] == u16_to_be(x)[0] && s[1] == u16_to_be(x)[1]);
    assert(s.skip(2) =~= rest);
}

proof fn lemma_be32_front(x: u32, rest: Seq<u8>)
    ensures
        u32_from_be(u32_to_be(x) + rest) == x,
        take_u32(u32_to_be(x) + rest) == (Ok::<u32, Error>(x), 4nat),
        (u32_to_be(x) + rest).skip(4) == rest,
{
    lemma_u32_roundtrip(x);
    let s = u32_to_be(x) + rest;
    let b = u32_to_be(x);
    assert(s[0] == b[0] && s[1] == b[1] && s[2] == b[2] && s[3] == b[3]);
    assert(s.skip(4) =~= rest);
}

proof fn lemma_be64_front(x: u64, rest: Seq<u8>)
    ensures
        u64_from_be(u64_to_be(x) + rest) == x,
        take_u64(u64_to_be(x) + rest) == (Ok::<u64, Error>(x), 8nat),
        (u64_to_be(x) + rest).skip(8) == rest,
{
    lemma_u64_roundtrip(x);
    let s = u64_to_be(x) + rest;
    let b = u64_to_be(x);
    assert(s[0] == b[0] && s[1] == b[1] && s[2] == b[2] && s[3] == b[3]);
    assert(s[4] == b[4] && s[5] == b[5] && s[6] == b[6] && s[7] == b[7]);
    assert(s.skip(8) =~= rest);
}

proof fn lemma_bytes_front(b: Seq<u8>, rest: Seq<u8>)
    ensures
        take_bytes(b + rest, b.len()) == (Ok::<Seq<u8>, Error>(b), b.len()),
        (b + rest).skip(b.len() as int) == rest,
{
    assert((b + rest).take(b.len() as int) =~= b);
    assert((b + rest).skip(b.len() as int) =~= rest);
}

/// A marker byte followed by `body` and `rest`: the marker is first, and
/// skipping it leaves `body + rest`.
proof fn lemma_marker(c: u8, body: Seq<u8>, rest: Seq<u8>)
    ensures
        (seq![c] + body + rest).len() > 0,
        (seq![c] + body + rest)[0] == c,
        (seq![c] + body + rest).skip(1) == body + rest,
{
    assert((seq![c] + body + rest).skip(1) =~= body + rest);
}

// ---------------------------------------------------------------------
// Scalars
// ---------------------------------------------------------------------

/// An unsigned integer written by `emit_u64` (and the narrower `emit_u*`)
/// is read back by `read_u64` as the same number, which consumes exactly
/// the bytes written.
pub proof fn unsigned_roundtrip(v: u64, rest: Seq<u8>)
    ensures
        parse_unsigned(enc_unsigned(v) + rest) == (Ok::<u64, Error>(v), enc_unsigned(v).len()),
{
    if v <= 0x7f {
        assert((enc_unsigned(v) + rest)[0] == v as u8);
    } else if v <= 0xff {
        lemma_marker(0xcc, seq![v as u8], rest);
    } else if v <= 0xffff {
        lemma_marker(0xcd, u16_to_be(v as u16), rest);
        lemma_be16_front(v as u16, rest);
    } else if v <= 0xffff_ffff {
        lemma_marker(0xce, u32_to_be(v as u32), rest);
        lemma_be32_front(v as u32, rest);
    } else {
        lemma_marker(0xcf, u64_to_be(v), rest);
        lemma_be64_front(v, rest);
    }
}

/// No encoding of an unsigned integer that `read_u64` accepts is shorter
/// than the one `emit_u64` writes: the writer picks the most efficient form.
pub proof fn unsigned_shortest(s: Seq<u8>)
    ensures
        parse_unsigned(s).0 matches Ok(v) ==> enc_unsigned(v).len() <= parse_unsigned(s).1,
{
    if s.len() > 0 {
        let c = s[0];
        let t = s.skip(1);
        if c == 0xcd && t.len() >= 2 {
            let x = u16_from_be(t);
            assert(x as u64 <= 0xffff);
        } else if c == 0xce && t.len() >= 4 {
            let x = u32_from_be(t);
            assert(x as u64 <= 0xffff_ffff);
        }
    }
}

/// A signed integer written by `emit_i64` (and the narrower `emit_i*`) is
/// read back by `read_i64` as the same number, which consumes exactly the
/// bytes written.
pub proof fn signed_roundtrip(v: i64, rest: Seq<u8>)
    ensures
        parse_signed(enc_signed(v) + rest) == (Ok::<i64, Error>(v), enc_signed(v).len()),
{
    if -32 <= v < 0 {
        let s = enc_signed(v) + rest;
        assert(s[0] == v as u8);
        assert(-32 <= v < 0 ==> (v as u8) >= 0xe0 && (v as u8) as i8 as i64 == v) by (bit_vector);
    } else if -0x80 <= v < 0x80 {
        lemma_marker(0xd0, seq![v as u8], rest);
        assert(-0x80 <= v < 0x80 ==> (v as u8) as i8 as i64 == v) by (bit_vector);
    } else if -0x8000 <= v < 0x8000 {
        lemma_marker(0xd1, u16_to_be(v as u16), rest);
        lemma_be16_front(v as u16, rest);
        assert(-0x8000 <= v < 0x8000 ==> (v as u16) as i16 as i64 == v) by (bit_vector);
    } else if -0x8000_0000 <= v < 0x8000_0000 {
        lemma_marker(0xd2, u32_to_be(v as u32), rest);
        lemma_be32_front(v as u32, rest);
        assert(-0x8000_0000 <= v < 0x8000_0000 ==> (v as u32) as i32 as i64 == v) by (bit_vector);
    } else {
        lemma_marker(0xd3, u64_to_be(v as u64), rest);
        lemma_be64_front(v as u64, rest);
        assert((v as u64) as i64 == v) by (bit_vector);
    }
}

/// Nil written by `emit_nil` is read back by `read_nil`.
pub proof fn nil_roundtrip(rest: Seq<u8>)
    ensures
        parse_nil(enc_nil() + rest) == (Ok::<(), Error>(()), 1nat),
{
    assert((enc_nil() + rest)[0] == 0xc0);
}

/// A boolean written by `emit_bool` is read back by `read_bool`.
pub proof fn bool_roundtrip(b: bool, rest: Seq<u8>)
    ensures
        parse_bool(enc_bool(b) + rest) == (Ok::<bool, Error>(b), 1nat),
{
    assert((enc_bool(b) + rest)[0] == enc_bool(b)[0]);
}

/// The bits of a 32-bit float written by `emit_f32` are read back by `read_f32`.
pub proof fn f32_roundtrip(bits: u32, rest: Seq<u8>)
    ensures
        parse_f32(enc_f32(bits) + rest) == (Ok::<u32, Error>(bits), 5nat),
{
    lemma_marker(0xca, u32_to_be(bits), rest);
    lemma_be32_front(bits, rest);
}

/// The bits of a 64-bit float written by `emit_f64` are read back by `read_f64`.
pub proof fn f64_roundtrip(bits: u64, rest: Seq<u8>)
    ensures
        parse_f64(enc_f64(bits) + rest) == (Ok::<u64, Error>(bits), 9nat),
{
    lemma_marker(0xcb, u64_to_be(bits), rest);
    lemma_be64_front(bits, rest);
}

/// No encoding of a signed integer that `read_i64` accepts is shorter than
/// the one `emit_i64` writes: the writer picks the most efficient form.
pub proof fn signed_shortest(s: Seq<u8>)
    ensures
        parse_signed(s).0 matches Ok(v) ==> enc_signed(v).len() <= parse_signed(s).1,
{
    if s.len() > 0 {
        let c = s[0];
        let t = s.skip(1);
        if c == 0xd0 && t.len() >= 1 {
            let x = t[0];
            assert(-0x80 <= ((x as i8) as i64) && ((x as i8) as i64) < 0x80) by (bit_vector);
        } else if c == 0xd1 && t.len() >= 2 {
            let x = u16_from_be(t);
            assert(-0x8000 <= ((x as i16) as i64) && ((x as i16) as i64) < 0x8000) by (bit_vector);
        } else if c == 0xd2 && t.len() >= 4 {
            let x = u32_from_be(t);
            assert(-0x8000_0000 <= ((x as i32) as i64) && ((x as i32) as i64) < 0x8000_0000) by (bit_vector);
        } else if c >= 0xe0 {
            assert(c >= 0xe0 ==> -32 <= ((c as i8) as i64) && ((c as i8) as i64) < 0) by (bit_vector);
        }
    }
}

// ---------------------------------------------------------------------
// Headers and strings
// ---------------------------------------------------------------------

/// An array header written by `emit_seq` (or `emit_tuple`) is read back by
/// `read_seq` as the same length.
pub proof fn vec_len_roundtrip(n: nat, rest: Seq<u8>)
    requires
        n <= u32::MAX,
    ensures
        parse_vec_len(array_header(n) + rest) == (Ok::<usize, Error>(n as usize), array_header(n).len()),
{
    if n < 16 {
        assert((array_header(n) + rest)[0] == (0x90 + n) as u8);
    } else if n <= 0xffff {
        lemma_marker(0xdc, u16_to_be(n as u16), rest);
        lemma_be16_front(n as u16, rest);
    } else {
        lemma_marker(0xdd, u32_to_be(n as u32), rest);
        lemma_be32_front(n as u32, rest);
    }
}

/// A map header written by `emit_map` (or `emit_struct`) is read back by
/// `read_map` as the same count.
pub proof fn map_len_roundtrip(n: nat, rest: Seq<u8>)
    requires
        n <= u32::MAX,
    ensures
        parse_map_len(map_header(n) + rest) == (Ok::<usize, Error>(n as usize), map_header(n).len()),
{
    if n < 16 {
        assert((map_header(n) + rest)[0] == (0x80 + n) as u8);
    } else if n <= 0xffff {
        lemma_marker(0xde, u16_to_be(n as u16), rest);
        lemma_be16_front(n as u16, rest);
    } else {
        lemma_marker(0xdf, u32_to_be(n as u32), rest);
        lemma_be32_front(n as u32, rest);
    }
}

/// A struct header written by `emit_struct(len)` is accepted by
/// `read_struct(len)`.
pub proof fn struct_roundtrip(len: usize, rest: Seq<u8>)
    requires
        len <= u32::MAX,
    ensures
        parse_struct(map_header(len as nat) + rest, len) == (Ok::<(), Error>(()), map_header(len as nat).len()),
{
    map_len_roundtrip(len as nat, rest);
}

proof fn lemma_str_header_roundtrip(n: nat, rest: Seq<u8>)
    requires
        n <= u32::MAX,
    ensures
        parse_str_len(str_header(n) + rest) == (Ok::<usize, Error>(n as usize), str_header(n).len()),
{
    if n < 32 {
        assert((str_header(n) + rest)[0] == (0xa0 + n) as u8);
    } else if n < 256 {
        lemma_marker(0xd9, seq![n as u8], rest);
    } else if n <= 0xffff {
        lemma_marker(0xda, u16_to_be(n as u16), rest);
        lemma_be16_front(n as u16, rest);
    } else {
        lemma_marker(0xdb, u32_to_be(n as u32), rest);
        lemma_be32_front(n as u32, rest);
    }
}

/// A string written by `emit_str` is read back by `read_str` as the same
/// characters, which consumes exactly the bytes written.
pub proof fn str_roundtrip(cs: Seq<char>, rest: Seq<u8>)
    requires
        encode_utf8(cs).len() <= u32::MAX,
    ensures
        parse_str(enc_str(cs) + rest) == (Ok::<Seq<char>, Error>(cs), enc_str(cs).len()),
{
    let b = encode_utf8(cs);
    let h = str_header(b.len());
    let s = enc_str(cs) + rest;
    assert(s =~= h + (b + rest));
    lemma_str_header_roundtrip(b.len(), b + rest);
    assert(s.skip(h.len() as int) =~= b + rest);
    lemma_bytes_front(b, rest);
    encode_utf8_valid_utf8(cs);
    encode_utf8_decode_utf8(cs);
}

/// A character written by `emit_char` is read back by `read_char` when its
/// UTF-8 form is one byte (an ASCII character); any other character is
/// refused by `read_char` as `InvalidChar`, after its string is consumed.
pub proof fn char_roundtrip(c: char, rest: Seq<u8>)
    ensures
        parse_char(enc_str(seq![c]) + rest) == (if encode_utf8(seq![c]).len() == 1 {
            (Ok::<char, Error>(c), enc_str(seq![c]).len())
        } else {
            (Err::<char, Error>(Error::InvalidInput(Invalid::InvalidChar)), enc_str(seq![c]).len())
        }),
{
    assert(seq![c].drop_first() =~= Seq::<char>::empty());
    reveal_with_fuel(encode_utf8, 2);
    str_roundtrip(seq![c], rest);
}

/// A nil marker written by `emit_option_none` makes `read_option` report
/// no value and consume the marker.
pub proof fn option_none_roundtrip(rest: Seq<u8>)
    ensures
        parse_option(enc_nil() + rest) == (Ok::<bool, Error>(false), 1nat),
{
    assert((enc_nil() + rest)[0] == 0xc0);
}

/// Before anything but a nil marker, `read_option` reports a value and
/// consumes nothing, so the value's own reader sees all of it.
pub proof fn option_some_untouched(s: Seq<u8>)
    requires
        s.len() > 0,
        s[0] != 0xc0,
    ensures
        parse_option(s) == (Ok::<bool, Error>(true), 0nat),
{
}

/// The start of an enum variant written by `emit_enum_variant(name, cnt)` is
/// read back by `read_enum_variant(names)` as the first index of `name` among
/// `names`, and refused as `UnknownVariant` when `name` is not there.
pub proof fn variant_roundtrip(name: Seq<char>, cnt: nat, names: Seq<Seq<char>>, rest: Seq<u8>)
    requires
        cnt < u32::MAX,
        encode_utf8(name).len() <= u32::MAX,
    ensures
        parse_variant(array_header(cnt + 1) + enc_str(name) + rest, names) == (match position_of(
            names,
            name,
        ) {
            Some(i) => Ok::<usize, Error>(i as usize),
            None => Err(Error::InvalidInput(Invalid::UnknownVariant)),
        }, array_header(cnt + 1).len() + enc_str(name).len()),
{
    let h = array_header(cnt + 1);
    let s = h + enc_str(name) + rest;
    assert(s =~= h + (enc_str(name) + rest));
    vec_len_roundtrip(cnt + 1, enc_str(name) + rest);
    assert(s.skip(h.len() as int) =~= enc_str(name) + rest);
    str_roundtrip(name, rest);
}

// ---------------------------------------------------------------------
// Whole values
// ---------------------------------------------------------------------

/// The bytes of a non-empty sequence of values are those of its first
/// value, then those of the others.
proof fn lemma_enc_values_front(vs: Seq<SpecValue>)
    requires
        vs.len() > 0,
    ensures
        enc_values(vs) == enc_value(vs[0]) + enc_values(vs.drop_first()),
    decreases vs.len(),
{
    let d = vs.drop_last();
    if vs.len() == 1 {
        assert(d =~= Seq::<SpecValue>::empty());
        assert(vs.drop_first() =~= Seq::<SpecValue>::empty());
        assert(enc_values(vs) =~= enc_value(vs[0]) + enc_values(vs.drop_first()));
    } else {
        lemma_enc_values_front(d);
        assert(vs.drop_first().drop_last() =~= d.drop_first());
        assert(vs.drop_first().last() == vs.last());
        assert(d[0] == vs[0]);
        assert(enc_values(vs) =~= enc_value(vs[0]) + enc_values(vs.drop_first()));
    }
}

/// The bytes of a non-empty sequence of pairs are those of its first key
/// and value, then those of the others.
proof fn lemma_enc_pairs_front(ps: Seq<(SpecValue, SpecValue)>)
    requires
        ps.len() > 0,
    ensures
        enc_pairs(ps) == enc_value(ps[0].0) + enc_value(ps[0].1) + enc_pairs(ps.drop_first()),
    decreases ps.len(),
{
    let d = ps.drop_last();
    if ps.len() == 1 {
        assert(d =~= Seq::<(SpecValue, SpecValue)>::empty());
        assert(ps.drop_first() =~= Seq::<(SpecValue, SpecValue)>::empty());
        assert(enc_pairs(ps) =~= enc_value(ps[0].0) + enc_value(ps[0].1) + enc_pairs(ps.drop_first()));
    } else {
        lemma_enc_pairs_front(d);
        assert(ps.drop_first().drop_last() =~= d.drop_first());
        assert(ps.drop_first().last() == ps.last());
        assert(d[0] == ps[0]);
        assert(enc_pairs(ps) =~= enc_value(ps[0].0) + enc_value(ps[0].1) + enc_pairs(ps.drop_first()));
    }
}

proof fn lemma_unsigned_value(u: u64, rest: Seq<u8>)
    ensures
        parse_value(enc_unsigned(u) + rest) == (Ok::<SpecValue, Error>(SpecValue::Unsigned(u)), enc_unsigned(u).len()),
{
    if u <= 0x7f {
        lemma_marker(u as u8, Seq::empty(), rest);
        assert(enc_unsigned(u) + rest =~= seq![u as u8] + Seq::<u8>::empty() + rest);
    } else if u <= 0xff {
        lemma_marker(0xcc, seq![u as u8], rest);
    } else if u <= 0xffff {
        lemma_marker(0xcd, u16_to_be(u as u16), rest);
        lemma_be16_front(u as u16, rest);
    } else if u <= 0xffff_ffff {
        lemma_marker(0xce, u32_to_be(u as u32), rest);
        lemma_be32_front(u as u32, rest);
    } else {
        lemma_marker(0xcf, u64_to_be(u), rest);
        lemma_be64_front(u, rest);
    }
}

proof fn lemma_signed_value(v: i64, rest: Seq<u8>)
    ensures
        parse_value(enc_signed(v) + rest) == (Ok::<SpecValue, Error>(SpecValue::Integer(v)), enc_signed(v).len()),
{
    if -32 <= v < 0 {
        lemma_marker(v as u8, Seq::empty(), rest);
        assert(enc_signed(v) + rest =~= seq![v as u8] + Seq::<u8>::empty() + rest);
        assert(-32 <= v < 0 ==> (v as u8) >= 0xe0 && (v as u8) as i8 as i64 == v) by (bit_vector);
    } else if -0x80 <= v < 0x80 {
        lemma_marker(0xd0, seq![v as u8], rest);
        assert(-0x80 <= v < 0x80 ==> (v as u8) as i8 as i64 == v) by (bit_vector);
    } else if -0x8000 <= v < 0x8000 {
        lemma_marker(0xd1, u16_to_be(v as u16), rest);
        lemma_be16_front(v as u16, rest);
        assert(-0x8000 <= v < 0x8000 ==> (v as u16) as i16 as i64 == v) by (bit_vector);
    } else if -0x8000_0000 <= v < 0x8000_0000 {
        lemma_marker(0xd2, u32_to_be(v as u32), rest);
        lemma_be32_front(v as u32, rest);
        assert(-0x8000_0000 <= v < 0x8000_0000 ==> (v as u32) as i32 as i64 == v) by (bit_vector);
    } else {
        lemma_marker(0xd3, u64_to_be(v as u64), rest);
        lemma_be64_front(v as u64, rest);
        assert((v as u64) as i64 == v) by (bit_vector);
    }
}

proof fn lemma_str_value(b: Seq<u8>, rest: Seq<u8>)
    requires
        b.len() <= u32::MAX,
    ensures
        parse_value(str_header(b.len()) + b + rest) == (Ok::<SpecValue, Error>(SpecValue::Str(b)), str_header(b.len()).len() + b.len()),
{
    let n = b.len();
    lemma_bytes_front(b, rest);
    if n < 32 {
        lemma_marker((0xa0 + n) as u8, b, rest);
    } else if n < 256 {
        lemma_marker(0xd9, seq![n as u8], b + rest);
        assert(str_header(n) + b + rest =~= seq![0xd9u8] + seq![n as u8] + (b + rest));
        assert((seq![n as u8] + (b + rest)).skip(1) =~= b + rest);
    } else if n <= 0xffff {
        lemma_marker(0xda, u16_to_be(n as u16), b + rest);
        assert(str_header(n) + b + rest =~= seq![0xdau8] + u16_to_be(n as u16) + (b + rest));
        lemma_be16_front(n as u16, b + rest);
    } else {
        lemma_marker(0xdb, u32_to_be(n as u32), b + rest);
        assert(str_header(n) + b + rest =~= seq![0xdbu8] + u32_to_be(n as u32) + (b + rest));
        lemma_be32_front(n as u32, b + rest);
    }
}

/// A binary blob, framed by its shortest header, is read back by
/// `decode_value` as the same bytes.
pub proof fn binary_roundtrip(b: Seq<u8>, rest: Seq<u8>)
    requires
        b.len() <= u32::MAX,
    ensures
        parse_value(bin_header(b.len()) + b + rest) == (Ok::<SpecValue, Error>(SpecValue::Binary(b)), bin_header(b.len()).len() + b.len()),
{
    let n = b.len();
    lemma_bytes_front(b, rest);
    if n < 256 {
        lemma_marker(0xc4, seq![n as u8], b + rest);
        assert(bin_header(n) + b + rest =~= seq![0xc4u8] + seq![n as u8] + (b + rest));
        assert((seq![n as u8] + (b + rest)).skip(1) =~= b + rest);
    } else if n <= 0xffff {
        lemma_marker(0xc5, u16_to_be(n as u16), b + rest);
        assert(bin_header(n) + b + rest =~= seq![0xc5u8] + u16_to_be(n as u16) + (b + rest));
        lemma_be16_front(n as u16, b + rest);
    } else {
        lemma_marker(0xc6, u32_to_be(n as u32), b + rest);
        assert(bin_header(n) + b + rest =~= seq![0xc6u8] + u32_to_be(n as u32) + (b + rest));
        lemma_be32_front(n as u32, b + rest);
    }
}

/// A value written by `encode_value` is read back by `decode_value` as the
/// same value, which consumes exactly the bytes written.
pub proof fn value_roundtrip(v: SpecValue, rest: Seq<u8>)
    requires
        encodable(v),
    ensures
        parse_value(enc_value(v) + rest) == (Ok::<SpecValue, Error>(v), enc_value(v).len()),
    decreases v, 0nat,
{
    match v {
        SpecValue::Nil => {
            lemma_marker(0xc0, Seq::empty(), rest);
            assert(enc_value(v) + rest =~= seq![0xc0u8] + Seq::<u8>::empty() + rest);
        },
        SpecValue::Boolean(b) => {
            let c: u8 = if b { 0xc3 } else { 0xc2 };
            lemma_marker(c, Seq::empty(), rest);
            assert(enc_value(v) + rest =~= seq![c] + Seq::<u8>::empty() + rest);
        },
        SpecValue::Integer(i) => {
            lemma_signed_value(i, rest);
        },
        SpecValue::Unsigned(u) => {
            lemma_unsigned_value(u, rest);
        },
        SpecValue::Float(f) => {
            lemma_marker(0xca, u32_to_be(f), rest);
            lemma_be32_front(f, rest);
        },
        SpecValue::Double(d) => {
            lemma_marker(0xcb, u64_to_be(d), rest);
            lemma_be64_front(d, rest);
        },
        SpecValue::Str(b) => {
            lemma_str_value(b, rest);
        },
        SpecValue::Array(vs) => {
            array_roundtrip(vs, rest);
        },
        SpecValue::Mapping(ps) => {
            map_roundtrip(ps, rest);
        },
        SpecValue::Binary(_) => {},
        SpecValue::Extended(_, _) => {},
    }
}

/// An array written by `encode_value` is read back by `decode_value`.
pub proof fn array_roundtrip(vs: Seq<SpecValue>, rest: Seq<u8>)
    requires
        encodable(SpecValue::Array(vs)),
    ensures
        parse_value(enc_value(SpecValue::Array(vs)) + rest) == (Ok::<SpecValue, Error>(SpecValue::Array(vs)), enc_value(SpecValue::Array(vs)).len()),
    decreases vs, 1nat,
{
    let n = vs.len();
    let body = enc_values(vs) + rest;
    lemma_all_encodable(vs);
    values_roundtrip(vs, rest);
    if n < 16 {
        lemma_marker((0x90 + n) as u8, enc_values(vs), rest);
    } else if n <= 0xffff {
        lemma_marker(0xdc, u16_to_be(n as u16), body);
        assert(enc_value(SpecValue::Array(vs)) + rest =~= seq![0xdcu8] + u16_to_be(n as u16) + body);
        lemma_be16_front(n as u16, body);
    } else {
        lemma_marker(0xdd, u32_to_be(n as u32), body);
        assert(enc_value(SpecValue::Array(vs)) + rest =~= seq![0xddu8] + u32_to_be(n as u32) + body);
        lemma_be32_front(n as u32, body);
    }
}

/// A map written by `encode_value` is read back by `decode_value`.
pub proof fn map_roundtrip(ps: Seq<(SpecValue, SpecValue)>, rest: Seq<u8>)
    requires
        encodable(SpecValue::Mapping(ps)),
    ensures
        parse_value(enc_value(SpecValue::Mapping(ps)) + rest) == (Ok::<SpecValue, Error>(SpecValue::Mapping(ps)), enc_value(SpecValue::Mapping(ps)).len()),
    decreases ps, 1nat,
{
    let n = ps.len();
    let body = enc_pairs(ps) + rest;
    lemma_all_pairs_encodable(ps);
    pairs_roundtrip(ps, rest);
    if n < 16 {
        lemma_marker((0x80 + n) as u8, enc_pairs(ps), rest);
    } else if n <= 0xffff {
        lemma_marker(0xde, u16_to_be(n as u16), body);
        assert(enc_value(SpecValue::Mapping(ps)) + rest =~= seq![0xdeu8] + u16_to_be(n as u16) + body);
        lemma_be16_front(n as u16, body);
    } else {
        lemma_marker(0xdf, u32_to_be(n as u32), body);
        assert(enc_value(SpecValue::Mapping(ps)) + rest =~= seq![0xdfu8] + u32_to_be(n as u32) + body);
        lemma_be32_front(n as u32, body);
    }
}

/// Values written one after the other are read back, in order, as an array
/// body of that many values.
#[verifier::spinoff_prover]
pub proof fn values_roundtrip(vs: Seq<SpecValue>, rest: Seq<u8>)
    requires
        forall|j: int| 0 <= j < vs.len() ==> encodable(#[trigger] vs[j]),
    ensures
        parse_array(enc_values(vs) + rest, vs.len()) == (Ok::<Seq<SpecValue>, Error>(vs), enc_values(vs).len()),
    decreases vs, 0nat,
{
    if vs.len() == 0 {
        assert(enc_values(vs) =~= Seq::<u8>::empty());
        assert(vs =~= Seq::<SpecValue>::empty());
    } else {
        let tail = vs.drop_first();
        lemma_enc_values_front(vs);
        let e0 = enc_value(vs[0]);
        let s = enc_values(vs) + rest;
        assert(s =~= e0 + (enc_values(tail) + rest));
        value_roundtrip(vs[0], enc_values(tail) + rest);
        assert(s.skip(e0.len() as int) =~= enc_values(tail) + rest);
        assert forall|j: int| 0 <= j < tail.len() implies encodable(#[trigger] tail[j]) by {
            assert(tail[j] == vs[j + 1]);
        }
        values_roundtrip(tail, rest);
        let pv = parse_value(s);
        assert(pv == (Ok::<SpecValue, Error>(vs[0]), e0.len()));
        let q = parse_array(s.skip(e0.len() as int), (vs.len() - 1) as nat);
        assert(q == (Ok::<Seq<SpecValue>, Error>(tail), enc_values(tail).len()));
        assert(seq![vs[0]] + tail =~= vs);
        assert(parse_array(s, vs.len()) == (Ok::<Seq<SpecValue>, Error>(seq![vs[0]] + tail), e0.len() + enc_values(tail).len()));
    }
}

/// One step of reading map entries: a key, its value, then the rest.
proof fn lemma_entries_step(
    s: Seq<u8>,
    n: nat,
    k: SpecValue,
    nk: nat,
    v: SpecValue,
    nv: nat,
    tail: Seq<(SpecValue, SpecValue)>,
    nt: nat,
)
    requires
        n > 0,
        nk + nv <= s.len(),
        parse_value(s) == (Ok::<SpecValue, Error>(k), nk),
        parse_value(s.skip(nk as int)) == (Ok::<SpecValue, Error>(v), nv),
        parse_entries(s.skip((nk + nv) as int), (n - 1) as nat) == (Ok::<Seq<(SpecValue, SpecValue)>, Error>(tail), nt),
    ensures
        parse_entries(s, n) == (Ok::<Seq<(SpecValue, SpecValue)>, Error>(seq![(k, v)] + tail), nk + nv + nt),
{
}

/// Key/value pairs written one after the other are read back, in order, as
/// a map body of that many entries.
#[verifier::spinoff_prover]
#[verifier::rlimit(40)]
pub proof fn pairs_roundtrip(ps: Seq<(SpecValue, SpecValue)>, rest: Seq<u8>)
    requires
        forall|j: int| 0 <= j < ps.len() ==> encodable((#[trigger] ps[j]).0) && encodable(ps[j].1),
    ensures
        parse_entries(enc_pairs(ps) + rest, ps.len()) == (Ok::<Seq<(SpecValue, SpecValue)>, Error>(ps), enc_pairs(ps).len()),
    decreases ps, 0nat,
{
    if ps.len() == 0 {
        assert(enc_pairs(ps) =~= Seq::<u8>::empty());
        assert(ps =~= Seq::<(SpecValue, SpecValue)>::empty());
    } else {
        let tail = ps.drop_first();
        lemma_enc_pairs_front(ps);
        let ek = enc_value(ps[0].0);
        let ev = enc_value(ps[0].1);
        let s = enc_pairs(ps) + rest;
        assert(s =~= ek + (ev + (enc_pairs(tail) + rest)));
        value_roundtrip(ps[0].0, ev + (enc_pairs(tail) + rest));
        assert(s.skip(ek.len() as int) =~= ev + (enc_pairs(tail) + rest));
        value_roundtrip(ps[0].1, enc_pairs(tail) + rest);
        assert(s.skip((ek.len() + ev.len()) as int) =~= enc_pairs(tail) + rest);
        assert forall|j: int| 0 <= j < tail.len() implies encodable((#[trigger] tail[j]).0) && encodable(tail[j].1) by {
            assert(tail[j] == ps[j + 1]);
        }
        pairs_roundtrip(tail, rest);
        lemma_entries_step(s, ps.len(), ps[0].0, ek.len(), ps[0].1, ev.len(), tail, enc_pairs(tail).len());
        assert(seq![(ps[0].0, ps[0].1)] + tail =~= ps);
    }
}

// ---------------------------------------------------------------------
// Extensions
// ---------------------------------------------------------------------

/// A fixext value is its marker, its type byte, then exactly 1, 2, 4, 8 or
/// 16 data bytes for the markers 0xd4, 0xd5, 0xd6, 0xd7 and 0xd8; all of
/// them are read, and nothing more.
pub proof fn fixext_reads(marker: u8, t: i8, d: Seq<u8>, rest: Seq<u8>)
    requires
        0xd4 <= marker <= 0xd8,
        t >= 0,
        d.len() == (if marker == 0xd4 {
            1nat
        } else if marker == 0xd5 {
            2nat
        } else if marker == 0xd6 {
            4nat
        } else if marker == 0xd7 {
            8nat
        } else {
            16nat
        }),
    ensures
        parse_value(seq![marker, t as u8] + d + rest) == (Ok::<SpecValue, Error>(SpecValue::Extended(t, d)), 2 + d.len()),
{
    let s = seq![marker, t as u8] + d + rest;
    assert(s =~= seq![marker] + seq![t as u8] + (d + rest));
    lemma_marker(marker, seq![t as u8], d + rest);
    let u = s.skip(1);
    assert(u =~= seq![t as u8] + (d + rest));
    assert(u[0] == t as u8);
    assert(((t as u8) as i8) == t) by (bit_vector);
    assert(u.skip(1) =~= d + rest);
    lemma_bytes_front(d, rest);
}

/// A fixext value with a negative (reserved) type is refused once its
/// marker and type byte are read.
pub proof fn fixext_refuses_reserved_type(marker: u8, t: i8, rest: Seq<u8>)
    requires
        0xd4 <= marker <= 0xd8,
        t < 0,
    ensures
        parse_value(seq![marker, t as u8] + rest) == (Err::<SpecValue, Error>(Error::InvalidInput(Invalid::ReservedType)), 2nat),
{
    let s = seq![marker, t as u8] + rest;
    lemma_marker(marker, seq![t as u8], rest);
    assert(s =~= seq![marker] + seq![t as u8] + rest);
    assert(s.skip(1)[0] == t as u8);
    assert(((t as u8) as i8) == t) by (bit_vector);
}

/// An ext 8 value is its marker, a one-byte length, its type byte, then that
/// many data bytes; all of them are read, and nothing more.
pub proof fn ext8_reads(t: i8, d: Seq<u8>, rest: Seq<u8>)
    requires
        t >= 0,
        d.len() < 256,
    ensures
        parse_value(seq![0xc7u8, d.len() as u8, t as u8] + d + rest) == (Ok::<SpecValue, Error>(SpecValue::Extended(t, d)), 3 + d.len()),
{
    let s = seq![0xc7u8, d.len() as u8, t as u8] + d + rest;
    assert(s =~= seq![0xc7u8] + seq![d.len() as u8] + (seq![t as u8] + d + rest));
    lemma_marker(0xc7, seq![d.len() as u8], seq![t as u8] + d + rest);
    let u = s.skip(1);
    assert(u[0] == d.len() as u8);
    let w = u.skip(1);
    assert(w =~= seq![t as u8] + (d + rest));
    assert(w[0] == t as u8);
    assert(((t as u8) as i8) == t) by (bit_vector);
    assert(w.skip(1) =~= d + rest);
    lemma_bytes_front(d, rest);
}

/// An ext 16 value is its marker, a big-endian two-byte length, its type
/// byte, then that many data bytes; all of them are read, and nothing more.
pub proof fn ext16_reads(t: i8, d: Seq<u8>, rest: Seq<u8>)
    requires
        t >= 0,
        d.len() <= 0xffff,
    ensures
        parse_value(seq![0xc8u8] + u16_to_be(d.len() as u16) + seq![t as u8] + d + rest) == (Ok::<SpecValue, Error>(SpecValue::Extended(t, d)), 4 + d.len()),
{
    let tail = seq![t as u8] + d + rest;
    let s = seq![0xc8u8] + u16_to_be(d.len() as u16) + seq![t as u8] + d + rest;
    assert(s =~= seq![0xc8u8] + u16_to_be(d.len() as u16) + tail);
    lemma_marker(0xc8, u16_to_be(d.len() as u16), tail);
    lemma_be16_front(d.len() as u16, tail);
    let w = s.skip(1).skip(2);
    assert(w =~= seq![t as u8] + (d + rest));
    assert(w[0] == t as u8);
    assert(((t as u8) as i8) == t) by (bit_vector);
    assert(w.skip(1) =~= d + rest);
    lemma_bytes_front(d, rest);
}

/// An ext 32 value is its marker, a big-endian four-byte length, its type
/// byte, then that many data bytes; all of them are read, and nothing more.
pub proof fn ext32_reads(t: i8, d: Seq<u8>, rest: Seq<u8>)
    requires
        t >= 0,
        d.len() <= u32::MAX,
    ensures
        parse_value(seq![0xc9u8] + u32_to_be(d.len() as u32) + seq![t as u8] + d + rest) == (Ok::<SpecValue, Error>(SpecValue::Extended(t, d)), 6 + d.len()),
{
    let tail = seq![t as u8] + d + rest;
    let s = seq![0xc9u8] + u32_to_be(d.len() as u32) + seq![t as u8] + d + rest;
    assert(s =~= seq![0xc9u8] + u32_to_be(d.len() as u32) + tail);
    lemma_marker(0xc9, u32_to_be(d.len() as u32), tail);
    lemma_be32_front(d.len() as u32, tail);
    let w = s.skip(1).skip(4);
    assert(w =~= seq![t as u8] + (d + rest));
    assert(w[0] == t as u8);
    assert(((t as u8) as i8) == t) by (bit_vector);
    assert(w.skip(1) =~= d + rest);
    lemma_bytes_front(d, rest);
}

// ---------------------------------------------------------------------
// Structs
// ---------------------------------------------------------------------

/// `read_struct(len)` accepts a map header exactly when its count is `len`:
/// another count is refused as `InvalidStructLength`, and a header that does
/// not read is refused as the map reader refuses it. Either way it consumes
/// what the header takes.
pub proof fn struct_checks_the_count(s: Seq<u8>, len: usize)
    ensures
        parse_struct(s, len).1 == parse_map_len(s).1,
        parse_map_len(s).0 matches Ok(n) ==> (n == len <==> parse_struct(s, len).0 is Ok),
        parse_map_len(s).0 matches Ok(n) && n != len ==> parse_struct(s, len).0
            == Err::<(), Error>(Error::InvalidInput(Invalid::InvalidStructLength)),
        parse_map_len(s).0 matches Err(e) ==> parse_struct(s, len).0 == Err::<(), Error>(e),
{
}

/// A map header of `n` entries, as `emit_map` writes it, read as a struct of
/// `len` fields: accepted when `n == len`, refused as `InvalidStructLength`
/// otherwise.
pub proof fn struct_of_map_header(n: nat, len: usize, rest: Seq<u8>)
    requires
        n <= u32::MAX,
    ensures
        parse_struct(map_header(n) + rest, len) == (if n == len {
            (Ok::<(), Error>(()), map_header(n).len())
        } else {
            (Err::<(), Error>(Error::InvalidInput(Invalid::InvalidStructLength)), map_header(n).len())
        }),
{
    map_len_roundtrip(n, rest);
}

// ---------------------------------------------------------------------
// Every form of a number that the readers accept
// ---------------------------------------------------------------------

/// A positive fixint byte (0x00 to 0x7f) is the number itself, one byte long.
pub proof fn positive_fixint_reads(c: u8, rest: Seq<u8>)
    requires
        c <= 0x7f,
    ensures
        parse_unsigned(seq![c] + rest) == (Ok::<u64, Error>(c as u64), 1nat),
        parse_value(seq![c] + rest) == (Ok::<SpecValue, Error>(SpecValue::Unsigned(c as u64)), 1nat),
{
    lemma_marker(c, Seq::empty(), rest);
    assert(seq![c] + rest =~= seq![c] + Seq::<u8>::empty() + rest);
}

/// 0xcc then one byte: that byte as an unsigned number.
pub proof fn uint8_reads(x: u8, rest: Seq<u8>)
    ensures
        parse_unsigned(seq![0xccu8, x] + rest) == (Ok::<u64, Error>(x as u64), 2nat),
        parse_value(seq![0xccu8, x] + rest) == (Ok::<SpecValue, Error>(SpecValue::Unsigned(x as u64)), 2nat),
{
    lemma_marker(0xcc, seq![x], rest);
    assert(seq![0xccu8, x] + rest =~= seq![0xccu8] + seq![x] + rest);
}

/// 0xcd then a big-endian `u16`: that number.
pub proof fn uint16_reads(x: u16, rest: Seq<u8>)
    ensures
        parse_unsigned(seq![0xcdu8] + u16_to_be(x) + rest) == (Ok::<u64, Error>(x as u64), 3nat),
        parse_value(seq![0xcdu8] + u16_to_be(x) + rest) == (Ok::<SpecValue, Error>(SpecValue::Unsigned(x as u64)), 3nat),
{
    lemma_marker(0xcd, u16_to_be(x), rest);
    lemma_be16_front(x, rest);
}

/// 0xce then a big-endian `u32`: that number.
pub proof fn uint32_reads(x: u32, rest: Seq<u8>)
    ensures
        parse_unsigned(seq![0xceu8] + u32_to_be(x) + rest) == (Ok::<u64, Error>(x as u64), 5nat),
        parse_value(seq![0xceu8] + u32_to_be(x) + rest) == (Ok::<SpecValue, Error>(SpecValue::Unsigned(x as u64)), 5nat),
{
    lemma_marker(0xce, u32_to_be(x), rest);
    lemma_be32_front(x, rest);
}

/// 0xcf then a big-endian `u64`: that number.
pub proof fn uint64_reads(x: u64, rest: Seq<u8>)
    ensures
        parse_unsigned(seq![0xcfu8] + u64_to_be(x) + rest) == (Ok::<u64, Error>(x), 9nat),
        parse_value(seq![0xcfu8] + u64_to_be(x) + rest) == (Ok::<SpecValue, Error>(SpecValue::Unsigned(x)), 9nat),
{
    lemma_marker(0xcf, u64_to_be(x), rest);
    lemma_be64_front(x, rest);
}

/// A negative fixint byte (0xe0 to 0xff) is that byte minus 256.
pub proof fn negative_fixint_reads(c: u8, rest: Seq<u8>)
    requires
        c >= 0xe0,
    ensures
        parse_signed(seq![c] + rest) == (Ok::<i64, Error>((c - 256) as i64), 1nat),
        parse_value(seq![c] + rest) == (Ok::<SpecValue, Error>(SpecValue::Integer((c - 256) as i64)), 1nat),
{
    lemma_marker(c, Seq::empty(), rest);
    assert(seq![c] + rest =~= seq![c] + Seq::<u8>::empty() + rest);
    assert(c >= 0xe0 ==> (c as i8) as i64 == (c as i64) - 256) by (bit_vector);
}

/// 0xd0 then one two's-complement byte: that `i8`.
pub proof fn int8_reads(x: i8, rest: Seq<u8>)
    ensures
        parse_signed(seq![0xd0u8, x as u8] + rest) == (Ok::<i64, Error>(x as i64), 2nat),
        parse_value(seq![0xd0u8, x as u8] + rest) == (Ok::<SpecValue, Error>(SpecValue::Integer(x as i64)), 2nat),
{
    lemma_marker(0xd0, seq![x as u8], rest);
    assert(seq![0xd0u8, x as u8] + rest =~= seq![0xd0u8] + seq![x as u8] + rest);
    assert((x as u8) as i8 == x) by (bit_vector);
}

/// 0xd1 then a big-endian two's-complement `i16`: that number.
pub proof fn int16_reads(x: i16, rest: Seq<u8>)
    ensures
        parse_signed(seq![0xd1u8] + u16_to_be(x as u16) + rest) == (Ok::<i64, Error>(x as i64), 3nat),
        parse_value(seq![0xd1u8] + u16_to_be(x as u16) + rest) == (Ok::<SpecValue, Error>(SpecValue::Integer(x as i64)), 3nat),
{
    lemma_marker(0xd1, u16_to_be(x as u16), rest);
    lemma_be16_front(x as u16, rest);
    assert((x as u16) as i16 == x) by (bit_vector);
}

/// 0xd2 then a big-endian two's-complement `i32`: that number.
pub proof fn int32_reads(x: i32, rest: Seq<u8>)
    ensures
        parse_signed(seq![0xd2u8] + u32_to_be(x as u32) + rest) == (Ok::<i64, Error>(x as i64), 5nat),
        parse_value(seq![0xd2u8] + u32_to_be(x as u32) + rest) == (Ok::<SpecValue, Error>(SpecValue::Integer(x as i64)), 5nat),
{
    lemma_marker(0xd2, u32_to_be(x as u32), rest);
    lemma_be32_front(x as u32, rest);
    assert((x as u32) as i32 == x) by (bit_vector);
}

/// 0xd3 then a big-endian two's-complement `i64`: that number.
pub proof fn int64_reads(x: i64, rest: Seq<u8>)
    ensures
        parse_signed(seq![0xd3u8] + u64_to_be(x as u64) + rest) == (Ok::<i64, Error>(x), 9nat),
        parse_value(seq![0xd3u8] + u64_to_be(x as u64) + rest) == (Ok::<SpecValue, Error>(SpecValue::Integer(x)), 9nat),
{
    lemma_marker(0xd3, u64_to_be(x as u64), rest);
    lemma_be64_front(x as u64, rest);
    assert((x as u64) as i64 == x) by (bit_vector);
}

/// A number whose marker promises more bytes than are left is refused as
/// early end, with everything consumed: 1, 2, 4, 8 bytes after 0xcc, 0xcd,
/// 0xce, 0xcf, and after 0xd0, 0xd1, 0xd2, 0xd3.
pub proof fn truncated_number(c: u8, b: Seq<u8>)
    requires
        0xcc <= c <= 0xd3,
        b.len() < (if c == 0xcc || c == 0xd0 {
            1nat
        } else if c == 0xcd || c == 0xd1 {
            2nat
        } else if c == 0xce || c == 0xd2 {
            4nat
        } else {
            8nat
        }),
    ensures
        c <= 0xcf ==> parse_unsigned(seq![c] + b) == (Err::<u64, Error>(Error::UnexpectedEof), 1 + b.len()),
        c >= 0xd0 ==> parse_signed(seq![c] + b) == (Err::<i64, Error>(Error::UnexpectedEof), 1 + b.len()),
        parse_value(seq![c] + b) == (Err::<SpecValue, Error>(Error::UnexpectedEof), 1 + b.len()),
{
    lemma_marker(c, b, Seq::empty());
    assert(seq![c] + b =~= seq![c] + b + Seq::<u8>::empty());
    assert(b + Seq::<u8>::empty() =~= b);
}

/// `read_u64` refuses every marker that does not start an unsigned integer,
/// after that one byte.
pub proof fn unsigned_refuses_other_markers(s: Seq<u8>)
    requires
        s.len() > 0,
        !(s[0] <= 0x7f || 0xcc <= s[0] <= 0xcf),
    ensures
        parse_unsigned(s) == (Err::<u64, Error>(Error::InvalidInput(Invalid::NoUnsignedInteger)), 1nat),
{
}

/// `read_i64` refuses every marker that does not start a signed integer
/// (positive fixints included), after that one byte.
pub proof fn signed_refuses_other_markers(s: Seq<u8>)
    requires
        s.len() > 0,
        !(0xd0 <= s[0] <= 0xd3 || s[0] >= 0xe0),
    ensures
        parse_signed(s) == (Err::<i64, Error>(Error::InvalidInput(Invalid::NoSignedInteger)), 1nat),
{
}

/// On empty input every reader reports early end and consumes nothing.
pub proof fn empty_input_is_early_end(names: Seq<Seq<char>>, len: usize)
    ensures
        parse_unsigned(Seq::empty()) == (Err::<u64, Error>(Error::UnexpectedEof), 0nat),
        parse_signed(Seq::empty()) == (Err::<i64, Error>(Error::UnexpectedEof), 0nat),
        parse_nil(Seq::empty()) == (Err::<(), Error>(Error::UnexpectedEof), 0nat),
        parse_bool(Seq::empty()) == (Err::<bool, Error>(Error::UnexpectedEof), 0nat),
        parse_f32(Seq::empty()) == (Err::<u32, Error>(Error::UnexpectedEof), 0nat),
        parse_f64(Seq::empty()) == (Err::<u64, Error>(Error::UnexpectedEof), 0nat),
        parse_str(Seq::empty()) == (Err::<Seq<char>, Error>(Error::UnexpectedEof), 0nat),
        parse_char(Seq::empty()) == (Err::<char, Error>(Error::UnexpectedEof), 0nat),
        parse_vec_len(Seq::empty()) == (Err::<usize, Error>(Error::UnexpectedEof), 0nat),
        parse_map_len(Seq::empty()) == (Err::<usize, Error>(Error::UnexpectedEof), 0nat),
        parse_struct(Seq::empty(), len) == (Err::<(), Error>(Error::UnexpectedEof), 0nat),
        parse_option(Seq::empty()) == (Err::<bool, Error>(Error::UnexpectedEof), 0nat),
        parse_variant(Seq::empty(), names) == (Err::<usize, Error>(Error::UnexpectedEof), 0nat),
        parse_value(Seq::empty()) == (Err::<SpecValue, Error>(Error::UnexpectedEof), 0nat),
{
}

/// Markers that are not what a scalar reader asks for are refused after one
/// byte: nil, booleans, 32-bit and 64-bit floats; and 0xc1, which the format
/// reserves, is refused by `decode_value`.
pub proof fn scalars_refuse_other_markers(s: Seq<u8>)
    requires
        s.len() > 0,
    ensures
        s[0] != 0xc0 ==> parse_nil(s) == (Err::<(), Error>(Error::InvalidInput(Invalid::InvalidNil)), 1nat),
        s[0] != 0xc2 && s[0] != 0xc3 ==> parse_bool(s) == (Err::<bool, Error>(Error::InvalidInput(Invalid::InvalidBool)), 1nat),
        s[0] != 0xca ==> parse_f32(s) == (Err::<u32, Error>(Error::InvalidInput(Invalid::InvalidF32)), 1nat),
        s[0] != 0xcb ==> parse_f64(s) == (Err::<u64, Error>(Error::InvalidInput(Invalid::InvalidF64)), 1nat),
        s[0] == 0xc1 ==> parse_value(s) == (Err::<SpecValue, Error>(Error::InvalidInput(Invalid::Reserved)), 1nat),
{
}

// ---------------------------------------------------------------------
// Every form of a header that the readers accept
// ---------------------------------------------------------------------

/// An array header: 0x90 to 0x9f hold the length in their low four bits;
/// 0xdc is followed by a big-endian `u16` length, 0xdd by a `u32` one.
pub proof fn vec_len_forms(c: u8, x: u16, y: u32, rest: Seq<u8>)
    requires
        0x90 <= c <= 0x9f,
    ensures
        parse_vec_len(seq![c] + rest) == (Ok::<usize, Error>((c - 0x90) as usize), 1nat),
        parse_vec_len(seq![0xdcu8] + u16_to_be(x) + rest) == (Ok::<usize, Error>(x as usize), 3nat),
        parse_vec_len(seq![0xddu8] + u32_to_be(y) + rest) == (Ok::<usize, Error>(y as usize), 5nat),
{
    assert((seq![c] + rest)[0] == c);
    lemma_marker(0xdc, u16_to_be(x), rest);
    lemma_be16_front(x, rest);
    lemma_marker(0xdd, u32_to_be(y), rest);
    lemma_be32_front(y, rest);
}

/// A map header: 0x80 to 0x8f hold the count in their low four bits;
/// 0xde is followed by a big-endian `u16` count, 0xdf by a `u32` one.
pub proof fn map_len_forms(c: u8, x: u16, y: u32, rest: Seq<u8>)
    requires
        0x80 <= c <= 0x8f,
    ensures
        parse_map_len(seq![c] + rest) == (Ok::<usize, Error>((c - 0x80) as usize), 1nat),
        parse_map_len(seq![0xdeu8] + u16_to_be(x) + rest) == (Ok::<usize, Error>(x as usize), 3nat),
        parse_map_len(seq![0xdfu8] + u32_to_be(y) + rest) == (Ok::<usize, Error>(y as usize), 5nat),
{
    assert((seq![c] + rest)[0] == c);
    lemma_marker(0xde, u16_to_be(x), rest);
    lemma_be16_front(x, rest);
    lemma_marker(0xdf, u32_to_be(y), rest);
    lemma_be32_front(y, rest);
}

/// A string header: 0xa0 to 0xbf hold the byte length in their low five
/// bits; 0xd9, 0xda, 0xdb are followed by a one, two or four byte length.
pub proof fn str_len_forms(c: u8, w: u8, x: u16, y: u32, rest: Seq<u8>)
    requires
        0xa0 <= c <= 0xbf,
    ensures
        parse_str_len(seq![c] + rest) == (Ok::<usize, Error>((c - 0xa0) as usize), 1nat),
        parse_str_len(seq![0xd9u8, w] + rest) == (Ok::<usize, Error>(w as usize), 2nat),
        parse_str_len(seq![0xdau8] + u16_to_be(x) + rest) == (Ok::<usize, Error>(x as usize), 3nat),
        parse_str_len(seq![0xdbu8] + u32_to_be(y) + rest) == (Ok::<usize, Error>(y as usize), 5nat),
{
    assert((seq![c] + rest)[0] == c);
    lemma_marker(0xd9, seq![w], rest);
    assert(seq![0xd9u8, w] + rest =~= seq![0xd9u8] + seq![w] + rest);
    lemma_marker(0xda, u16_to_be(x), rest);
    lemma_be16_front(x, rest);
    lemma_marker(0xdb, u32_to_be(y), rest);
    lemma_be32_front(y, rest);
}

/// Headers refuse every marker that does not start what they read, after
/// that one byte.
pub proof fn headers_refuse_other_markers(s: Seq<u8>)
    requires
        s.len() > 0,
    ensures
        !(0x90 <= s[0] <= 0x9f || s[0] == 0xdc || s[0] == 0xdd) ==> parse_vec_len(s) == (Err::<usize, Error>(Error::InvalidInput(Invalid::InvalidVecLen)), 1nat),
        !(0x80 <= s[0] <= 0x8f || s[0] == 0xde || s[0] == 0xdf) ==> parse_map_len(s) == (Err::<usize, Error>(Error::InvalidInput(Invalid::InvalidMapLen)), 1nat),
        !(0xa0 <= s[0] <= 0xbf || 0xd9 <= s[0] <= 0xdb) ==> parse_str_len(s) == (Err::<usize, Error>(Error::InvalidInput(Invalid::InvalidString)), 1nat),
        !(0xa0 <= s[0] <= 0xbf || 0xd9 <= s[0] <= 0xdb) ==> parse_str(s) == (Err::<Seq<char>, Error>(Error::InvalidInput(Invalid::InvalidString)), 1nat),
{
}

/// After a string header of `b.len()` bytes, `read_str` takes exactly those
/// bytes: their characters when they are UTF-8, `NoUtf8String` otherwise.
pub proof fn str_reads_its_bytes(h: Seq<u8>, b: Seq<u8>, rest: Seq<u8>)
    requires
        b.len() <= usize::MAX,
        parse_str_len(h + b + rest) == (Ok::<usize, Error>(b.len() as usize), h.len()),
    ensures
        parse_str(h + b + rest) == (if valid_utf8(b) {
            (Ok::<Seq<char>, Error>(decode_utf8(b)), h.len() + b.len())
        } else {
            (Err::<Seq<char>, Error>(Error::InvalidInput(Invalid::NoUtf8String)), h.len() + b.len())
        }),
{
    let s = h + b + rest;
    assert(s.skip(h.len() as int) =~= b + rest);
    lemma_bytes_front(b, rest);
}

/// After a string header of `n` bytes with fewer than `n` left, `read_str`
/// reports early end and consumes everything.
pub proof fn truncated_str(h: Seq<u8>, b: Seq<u8>, n: usize)
    requires
        parse_str_len(h + b) == (Ok::<usize, Error>(n), h.len()),
        b.len() < n,
    ensures
        parse_str(h + b) == (Err::<Seq<char>, Error>(Error::UnexpectedEof), h.len() + b.len()),
{
    assert((h + b).skip(h.len() as int) =~= b);
}

// ---------------------------------------------------------------------
// Every form of a string, blob, array or map that `decode_value` accepts
// ---------------------------------------------------------------------

/// Under any of its headers long enough for it, a string's bytes are read
/// back as they are, and nothing more.
pub proof fn str_value_forms(b: Seq<u8>, rest: Seq<u8>)
    ensures
        b.len() < 32 ==> parse_value(seq![(0xa0 + b.len()) as u8] + b + rest) == (Ok::<SpecValue, Error>(SpecValue::Str(b)), 1 + b.len()),
        b.len() < 256 ==> parse_value(seq![0xd9u8, b.len() as u8] + b + rest) == (Ok::<SpecValue, Error>(SpecValue::Str(b)), 2 + b.len()),
        b.len() <= 0xffff ==> parse_value(seq![0xdau8] + u16_to_be(b.len() as u16) + b + rest) == (Ok::<SpecValue, Error>(SpecValue::Str(b)), 3 + b.len()),
        b.len() <= u32::MAX ==> parse_value(seq![0xdbu8] + u32_to_be(b.len() as u32) + b + rest) == (Ok::<SpecValue, Error>(SpecValue::Str(b)), 5 + b.len()),
{
    let n = b.len();
    lemma_bytes_front(b, rest);
    if n < 32 {
        lemma_marker((0xa0 + n) as u8, b, rest);
    }
    if n < 256 {
        lemma_marker(0xd9, seq![n as u8], b + rest);
        assert(seq![0xd9u8, n as u8] + b + rest =~= seq![0xd9u8] + seq![n as u8] + (b + rest));
        assert((seq![n as u8] + (b + rest)).skip(1) =~= b + rest);
    }
    if n <= 0xffff {
        lemma_marker(0xda, u16_to_be(n as u16), b + rest);
        assert(seq![0xdau8] + u16_to_be(n as u16) + b + rest =~= seq![0xdau8] + u16_to_be(n as u16) + (b + rest));
        lemma_be16_front(n as u16, b + rest);
    }
    if n <= u32::MAX {
        lemma_marker(0xdb, u32_to_be(n as u32), b + rest);
        assert(seq![0xdbu8] + u32_to_be(n as u32) + b + rest =~= seq![0xdbu8] + u32_to_be(n as u32) + (b + rest));
        lemma_be32_front(n as u32, b + rest);
    }
}

/// Under any of its headers long enough for it, a binary blob's bytes are
/// read back as they are, and nothing more.
pub proof fn binary_value_forms(b: Seq<u8>, rest: Seq<u8>)
    ensures
        b.len() < 256 ==> parse_value(seq![0xc4u8, b.len() as u8] + b + rest) == (Ok::<SpecValue, Error>(SpecValue::Binary(b)), 2 + b.len()),
        b.len() <= 0xffff ==> parse_value(seq![0xc5u8] + u16_to_be(b.len() as u16) + b + rest) == (Ok::<SpecValue, Error>(SpecValue::Binary(b)), 3 + b.len()),
        b.len() <= u32::MAX ==> parse_value(seq![0xc6u8] + u32_to_be(b.len() as u32) + b + rest) == (Ok::<SpecValue, Error>(SpecValue::Binary(b)), 5 + b.len()),
{
    let n = b.len();
    lemma_bytes_front(b, rest);
    if n < 256 {
        lemma_marker(0xc4, seq![n as u8], b + rest);
        assert(seq![0xc4u8, n as u8] + b + rest =~= seq![0xc4u8] + seq![n as u8] + (b + rest));
        assert((seq![n as u8] + (b + rest)).skip(1) =~= b + rest);
    }
    if n <= 0xffff {
        lemma_marker(0xc5, u16_to_be(n as u16), b + rest);
        assert(seq![0xc5u8] + u16_to_be(n as u16) + b + rest =~= seq![0xc5u8] + u16_to_be(n as u16) + (b + rest));
        lemma_be16_front(n as u16, b + rest);
    }
    if n <= u32::MAX {
        lemma_marker(0xc6, u32_to_be(n as u32), b + rest);
        assert(seq![0xc6u8] + u32_to_be(n as u32) + b + rest =~= seq![0xc6u8] + u32_to_be(n as u32) + (b + rest));
        lemma_be32_front(n as u32, b + rest);
    }
}

/// Under any of its headers long enough for it, an array of values is read
/// back element by element, and nothing more.
pub proof fn array_value_forms(vs: Seq<SpecValue>, rest: Seq<u8>)
    requires
        forall|j: int| 0 <= j < vs.len() ==> encodable(#[trigger] vs[j]),
    ensures
        vs.len() < 16 ==> parse_value(seq![(0x90 + vs.len()) as u8] + enc_values(vs) + rest) == (Ok::<SpecValue, Error>(SpecValue::Array(vs)), 1 + enc_values(vs).len()),
        vs.len() <= 0xffff ==> parse_value(seq![0xdcu8] + u16_to_be(vs.len() as u16) + enc_values(vs) + rest) == (Ok::<SpecValue, Error>(SpecValue::Array(vs)), 3 + enc_values(vs).len()),
        vs.len() <= u32::MAX ==> parse_value(seq![0xddu8] + u32_to_be(vs.len() as u32) + enc_values(vs) + rest) == (Ok::<SpecValue, Error>(SpecValue::Array(vs)), 5 + enc_values(vs).len()),
{
    let n = vs.len();
    let body = enc_values(vs) + rest;
    values_roundtrip(vs, rest);
    if n < 16 {
        lemma_marker((0x90 + n) as u8, enc_values(vs), rest);
    }
    if n <= 0xffff {
        lemma_marker(0xdc, u16_to_be(n as u16), body);
        assert(seq![0xdcu8] + u16_to_be(n as u16) + enc_values(vs) + rest =~= seq![0xdcu8] + u16_to_be(n as u16) + body);
        lemma_be16_front(n as u16, body);
    }
    if n <= u32::MAX {
        lemma_marker(0xdd, u32_to_be(n as u32), body);
        assert(seq![0xddu8] + u32_to_be(n as u32) + enc_values(vs) + rest =~= seq![0xddu8] + u32_to_be(n as u32) + body);
        lemma_be32_front(n as u32, body);
    }
}

/// Under any of its headers long enough for it, a map is read back entry by
/// entry, each key before its value, and nothing more.
pub proof fn map_value_forms(ps: Seq<(SpecValue, SpecValue)>, rest: Seq<u8>)
    requires
        forall|j: int| 0 <= j < ps.len() ==> encodable((#[trigger] ps[j]).0) && encodable(ps[j].1),
    ensures
        ps.len() < 16 ==> parse_value(seq![(0x80 + ps.len()) as u8] + enc_pairs(ps) + rest) == (Ok::<SpecValue, Error>(SpecValue::Mapping(ps)), 1 + enc_pairs(ps).len()),
        ps.len() <= 0xffff ==> parse_value(seq![0xdeu8] + u16_to_be(ps.len() as u16) + enc_pairs(ps) + rest) == (Ok::<SpecValue, Error>(SpecValue::Mapping(ps)), 3 + enc_pairs(ps).len()),
        ps.len() <= u32::MAX ==> parse_value(seq![0xdfu8] + u32_to_be(ps.len() as u32) + enc_pairs(ps) + rest) == (Ok::<SpecValue, Error>(SpecValue::Mapping(ps)), 5 + enc_pairs(ps).len()),
{
    let n = ps.len();
    let body = enc_pairs(ps) + rest;
    pairs_roundtrip(ps, rest);
    if n < 16 {
        lemma_marker((0x80 + n) as u8, enc_pairs(ps), rest);
    }
    if n <= 0xffff {
        lemma_marker(0xde, u16_to_be(n as u16), body);
        assert(seq![0xdeu8] + u16_to_be(n as u16) + enc_pairs(ps) + rest =~= seq![0xdeu8] + u16_to_be(n as u16) + body);
        lemma_be16_front(n as u16, body);
    }
    if n <= u32::MAX {
        lemma_marker(0xdf, u32_to_be(n as u32), body);
        assert(seq![0xdfu8] + u32_to_be(n as u32) + enc_pairs(ps) + rest =~= seq![0xdfu8] + u32_to_be(n as u32) + body);
        lemma_be32_front(n as u32, body);
    }
}

/// No header that the readers accept for a length is shorter than the one
/// the writers emit for it: `emit_seq`, `emit_map` and `emit_str` pick the
/// most efficient form.
pub proof fn headers_shortest(s: Seq<u8>)
    ensures
        parse_vec_len(s).0 matches Ok(n) ==> array_header(n as nat).len() <= parse_vec_len(s).1,
        parse_map_len(s).0 matches Ok(n) ==> map_header(n as nat).len() <= parse_map_len(s).1,
        parse_str_len(s).0 matches Ok(n) ==> str_header(n as nat).len() <= parse_str_len(s).1,
{
}

/// `read_enum_variant` gives the first index whose name is the one read, and
/// refuses the name when no index has it.
pub proof fn variant_is_first_match(names: Seq<Seq<char>>, name: Seq<char>)
    ensures
        position_of(names, name) matches Some(i) ==> i < names.len() && names[i as int] == name
            && forall|k: int| 0 <= k < i ==> names[k] != name,
        position_of(names, name) is None ==> forall|k: int| 0 <= k < names.len() ==> names[k] != name,
    decreases names.len(),
{
    if names.len() > 0 {
        let d = names.drop_first();
        variant_is_first_match(d, name);
        if names[0] != name {
            assert forall|k: int| 0 <= k < d.len() implies #[trigger] d[k] == names[k + 1] by {}
            if let Some(i) = position_of(d, name) {
                assert forall|k: int| 0 <= k < i + 1 implies names[k] != name by {
                    if k > 0 {
                        assert(names[k] == d[k - 1]);
                    }
                }
            } else {
                assert forall|k: int| 0 <= k < names.len() implies names[k] != name by {
                    if k > 0 {
                        assert(names[k] == d[k - 1]);
                    }
                }
            }
        }
    }
}

/// A string, blob or extension whose header promises more data bytes than
/// are left is refused by `decode_value` as early end, with everything
/// consumed.
pub proof fn truncated_payloads(c: u8, n: u8, t: i8, b: Seq<u8>)
    requires
        b.len() < n,
        t >= 0,
    ensures
        0xa0 <= c <= 0xbf && n == c - 0xa0 ==> parse_value(seq![c] + b) == (Err::<SpecValue, Error>(Error::UnexpectedEof), 1 + b.len()),
        parse_value(seq![0xd9u8, n] + b) == (Err::<SpecValue, Error>(Error::UnexpectedEof), 2 + b.len()),
        parse_value(seq![0xc4u8, n] + b) == (Err::<SpecValue, Error>(Error::UnexpectedEof), 2 + b.len()),
        parse_value(seq![0xc7u8, n, t as u8] + b) == (Err::<SpecValue, Error>(Error::UnexpectedEof), 3 + b.len()),
{
    assert((seq![c] + b).skip(1) =~= b);
    assert((seq![0xd9u8, n] + b).skip(1) =~= seq![n] + b);
    assert((seq![n] + b).skip(1) =~= b);
    assert((seq![0xc4u8, n] + b).skip(1) =~= seq![n] + b);
    let e = seq![0xc7u8, n, t as u8] + b;
    assert(e.skip(1) =~= seq![n, t as u8] + b);
    assert((seq![n, t as u8] + b).skip(1) =~= seq![t as u8] + b);
    assert((seq![t as u8] + b).skip(1) =~= b);
    assert(((t as u8) as i8) == t) by (bit_vector);
}

} // verus!
