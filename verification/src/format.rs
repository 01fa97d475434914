//! The MessagePack wire format as spec functions: what each writer
//! appends, and what each reader makes of the bytes in front of it.
use crate::bytes::{u16_from_be, u16_to_be, u32_from_be, u32_to_be, u64_from_be, u64_to_be};
use crate::error::{Error, Invalid};
use crate::value::SpecValue;
use vstd::prelude::*;
use vstd::utf8::*;

verus! {

/// What a reader makes of its input: the value read or the error met,
/// and how many bytes it consumed on the way.
pub type Parsed<T> = (Result<T, Error>, nat);

/// The input ended early: everything that was left is consumed.
pub open spec fn eof<T>(s: Seq<u8>) -> Parsed<T> {
    (Err(Error::UnexpectedEof), s.len())
}

/// The input is not what was asked for, noticed after `n` bytes.
pub open spec fn invalid<T>(why: Invalid, n: nat) -> Parsed<T> {
    (Err(Error::InvalidInput(why)), n)
}

/// `p`, read after `k` bytes that were consumed first.
pub open spec fn after<T>(k: nat, p: Parsed<T>) -> Parsed<T> {
    (p.0, k + p.1)
}

/// `p` with `f` applied to what it read.
pub open spec fn map_ok<A, B>(p: Parsed<A>, f: spec_fn(A) -> B) -> Parsed<B> {
    (
        match p.0 {
            Ok(a) => Ok(f(a)),
            Err(e) => Err(e),
        },
        p.1,
    )
}

/// A reader's result seen through the views of what it returns.
pub open spec fn result_view<T: View>(r: Result<T, Error>) -> Result<T::V, Error> {
    match r {
        Ok(x) => Ok(x@),
        Err(e) => Err(e),
    }
}

// ---------------------------------------------------------------------
// Fixed-width fields
// ---------------------------------------------------------------------

/// One byte.
pub open spec fn take_u8(t: Seq<u8>) -> Parsed<u8> {
    if t.len() < 1 {
        eof(t)
    } else {
        (Ok(t[0]), 1)
    }
}

/// A big-endian `u16`.
pub open spec fn take_u16(t: Seq<u8>) -> Parsed<u16> {
    if t.len() < 2 {
        eof(t)
    } else {
        (Ok(u16_from_be(t)), 2)
    }
}

/// A big-endian `u32`.
pub open spec fn take_u32(t: Seq<u8>) -> Parsed<u32> {
    if t.len() < 4 {
        eof(t)
    } else {
        (Ok(u32_from_be(t)), 4)
    }
}

/// A big-endian `u64`.
pub open spec fn take_u64(t: Seq<u8>) -> Parsed<u64> {
    if t.len() < 8 {
        eof(t)
    } else {
        (Ok(u64_from_be(t)), 8)
    }
}

/// The next `n` bytes as they stand.
pub open spec fn take_bytes(t: Seq<u8>, n: nat) -> Parsed<Seq<u8>> {
    if t.len() < n {
        eof(t)
    } else {
        (Ok(t.take(n as int)), n)
    }
}

/// A length stored in `w` bytes (1, 2 or 4), big-endian.
pub open spec fn take_len(t: Seq<u8>, w: nat) -> Parsed<nat> {
    if w == 1 {
        map_ok(take_u8(t), |x: u8| x as nat)
    } else if w == 2 {
        map_ok(take_u16(t), |x: u16| x as nat)
    } else {
        map_ok(take_u32(t), |x: u32| x as nat)
    }
}

/// A `w`-byte length, then that many bytes.
pub open spec fn take_sized(t: Seq<u8>, w: nat) -> Parsed<Seq<u8>> {
    let l = take_len(t, w);
    match l.0 {
        Ok(n) => after(l.1, take_bytes(t.skip(l.1 as int), n)),
        Err(e) => (Err(e), l.1),
    }
}

// ---------------------------------------------------------------------
// Scalars
// ---------------------------------------------------------------------

/// An unsigned integer in any of its encodings.
pub open spec fn parse_unsigned(s: Seq<u8>) -> Parsed<u64> {
    if s.len() == 0 {
        eof(s)
    } else {
        let c = s[0];
        let t = s.skip(1);
        if c <= 0x7f {
            (Ok(c as u64), 1)
        } else if c == 0xcc {
            after(1, map_ok(take_u8(t), |x: u8| x as u64))
        } else if c == 0xcd {
            after(1, map_ok(take_u16(t), |x: u16| x as u64))
        } else if c == 0xce {
            after(1, map_ok(take_u32(t), |x: u32| x as u64))
        } else if c == 0xcf {
            after(1, take_u64(t))
        } else {
            invalid(Invalid::NoUnsignedInteger, 1)
        }
    }
}

/// A signed integer in any of its encodings.
pub open spec fn parse_signed(s: Seq<u8>) -> Parsed<i64> {
    if s.len() == 0 {
        eof(s)
    } else {
        let c = s[0];
        let t = s.skip(1);
        if c == 0xd0 {
            after(1, map_ok(take_u8(t), |x: u8| x as i8 as i64))
        } else if c == 0xd1 {
            after(1, map_ok(take_u16(t), |x: u16| x as i16 as i64))
        } else if c == 0xd2 {
            after(1, map_ok(take_u32(t), |x: u32| x as i32 as i64))
        } else if c == 0xd3 {
            after(1, map_ok(take_u64(t), |x: u64| x as i64))
        } else if c >= 0xe0 {
            (Ok(c as i8 as i64), 1)
        } else {
            invalid(Invalid::NoSignedInteger, 1)
        }
    }
}

/// The nil marker.
pub open spec fn parse_nil(s: Seq<u8>) -> Parsed<()> {
    if s.len() == 0 {
        eof(s)
    } else if s[0] == 0xc0 {
        (Ok(()), 1)
    } else {
        invalid(Invalid::InvalidNil, 1)
    }
}

/// A boolean marker.
pub open spec fn parse_bool(s: Seq<u8>) -> Parsed<bool> {
    if s.len() == 0 {
        eof(s)
    } else if s[0] == 0xc2 {
        (Ok(false), 1)
    } else if s[0] == 0xc3 {
        (Ok(true), 1)
    } else {
        invalid(Invalid::InvalidBool, 1)
    }
}

/// The bits of a 32-bit float.
pub open spec fn parse_f32(s: Seq<u8>) -> Parsed<u32> {
    if s.len() == 0 {
        eof(s)
    } else if s[0] == 0xca {
        after(1, take_u32(s.skip(1)))
    } else {
        invalid(Invalid::InvalidF32, 1)
    }
}

/// The bits of a 64-bit float.
pub open spec fn parse_f64(s: Seq<u8>) -> Parsed<u64> {
    if s.len() == 0 {
        eof(s)
    } else if s[0] == 0xcb {
        after(1, take_u64(s.skip(1)))
    } else {
        invalid(Invalid::InvalidF64, 1)
    }
}

// ---------------------------------------------------------------------
// Headers of containers and strings
// ---------------------------------------------------------------------

/// The length in an array header.
pub open spec fn parse_vec_len(s: Seq<u8>) -> Parsed<usize> {
    if s.len() == 0 {
        eof(s)
    } else {
        let c = s[0];
        let t = s.skip(1);
        if 0x90 <= c <= 0x9f {
            (Ok((c - 0x90) as usize), 1)
        } else if c == 0xdc {
            after(1, map_ok(take_u16(t), |x: u16| x as usize))
        } else if c == 0xdd {
            after(1, map_ok(take_u32(t), |x: u32| x as usize))
        } else {
            invalid(Invalid::InvalidVecLen, 1)
        }
    }
}

/// The number of entries in a map header.
pub open spec fn parse_map_len(s: Seq<u8>) -> Parsed<usize> {
    if s.len() == 0 {
        eof(s)
    } else {
        let c = s[0];
        let t = s.skip(1);
        if 0x80 <= c <= 0x8f {
            (Ok((c - 0x80) as usize), 1)
        } else if c == 0xde {
            after(1, map_ok(take_u16(t), |x: u16| x as usize))
        } else if c == 0xdf {
            after(1, map_ok(take_u32(t), |x: u32| x as usize))
        } else {
            invalid(Invalid::InvalidMapLen, 1)
        }
    }
}

/// The byte length in a string header.
pub open spec fn parse_str_len(s: Seq<u8>) -> Parsed<usize> {
    if s.len() == 0 {
        eof(s)
    } else {
        let c = s[0];
        let t = s.skip(1);
        if 0xa0 <= c <= 0xbf {
            (Ok((c - 0xa0) as usize), 1)
        } else if c == 0xd9 {
            after(1, map_ok(take_u8(t), |x: u8| x as usize))
        } else if c == 0xda {
            after(1, map_ok(take_u16(t), |x: u16| x as usize))
        } else if c == 0xdb {
            after(1, map_ok(take_u32(t), |x: u32| x as usize))
        } else {
            invalid(Invalid::InvalidString, 1)
        }
    }
}

/// `n` bytes that must be UTF-8, as the characters they encode.
pub open spec fn take_utf8(t: Seq<u8>, n: nat) -> Parsed<Seq<char>> {
    let b = take_bytes(t, n);
    match b.0 {
        Ok(bytes) => if valid_utf8(bytes) {
            (Ok(decode_utf8(bytes)), b.1)
        } else {
            invalid(Invalid::NoUtf8String, b.1)
        },
        Err(e) => (Err(e), b.1),
    }
}

/// A string: its header, then its UTF-8 bytes.
pub open spec fn parse_str(s: Seq<u8>) -> Parsed<Seq<char>> {
    let h = parse_str_len(s);
    match h.0 {
        Ok(n) => after(h.1, take_utf8(s.skip(h.1 as int), n as nat)),
        Err(e) => (Err(e), h.1),
    }
}

/// A character: a string whose UTF-8 form is one byte long.
pub open spec fn parse_char(s: Seq<u8>) -> Parsed<char> {
    let p = parse_str(s);
    match p.0 {
        Ok(cs) => if encode_utf8(cs).len() != 1 {
            invalid(Invalid::InvalidChar, p.1)
        } else {
            (Ok(cs[0]), p.1)
        },
        Err(e) => (Err(e), p.1),
    }
}

/// The first index of `name` among `names`, if any.
pub open spec fn position_of(names: Seq<Seq<char>>, name: Seq<char>) -> Option<nat>
    decreases names.len(),
{
    if names.len() == 0 {
        None
    } else if names[0] == name {
        Some(0)
    } else {
        match position_of(names.drop_first(), name) {
            Some(i) => Some(i + 1),
            None => None,
        }
    }
}

/// An enum variant: an array header, whose length is not looked at, then the
/// variant's name, given as its index among `names`.
pub open spec fn parse_variant(s: Seq<u8>, names: Seq<Seq<char>>) -> Parsed<usize> {
    let h = parse_vec_len(s);
    match h.0 {
        Err(e) => (Err(e), h.1),
        Ok(_) => {
            let p = after(h.1, parse_str(s.skip(h.1 as int)));
            match p.0 {
                Err(e) => (Err(e), p.1),
                Ok(name) => match position_of(names, name) {
                    Some(i) => (Ok(i as usize), p.1),
                    None => invalid(Invalid::UnknownVariant, p.1),
                },
            }
        },
    }
}

/// A struct header: a map header whose count must be `len`.
pub open spec fn parse_struct(s: Seq<u8>, len: usize) -> Parsed<()> {
    let h = parse_map_len(s);
    match h.0 {
        Ok(n) => if n != len {
            invalid(Invalid::InvalidStructLength, h.1)
        } else {
            (Ok(()), h.1)
        },
        Err(e) => (Err(e), h.1),
    }
}

/// Whether an optional value is there: a nil marker is consumed and says no;
/// any other byte is left in place and says yes.
pub open spec fn parse_option(s: Seq<u8>) -> Parsed<bool> {
    if s.len() == 0 {
        eof(s)
    } else if s[0] == 0xc0 {
        (Ok(false), 1)
    } else {
        (Ok(true), 0)
    }
}

// ---------------------------------------------------------------------
// Dynamically typed values
// ---------------------------------------------------------------------

/// An extension body of `len` bytes: its type byte, which must not be
/// negative, then the data.
pub open spec fn parse_ext(t: Seq<u8>, len: nat) -> Parsed<SpecValue> {
    if t.len() < 1 {
        eof(t)
    } else if (t[0] as i8) < 0 {
        invalid(Invalid::ReservedType, 1)
    } else {
        after(1, map_ok(take_bytes(t.skip(1), len), |b: Seq<u8>| SpecValue::Extended(t[0] as i8, b)))
    }
}

/// Markers of arrays and maps.
pub open spec fn is_container_marker(c: u8) -> bool {
    0x80 <= c <= 0x9f || 0xdc <= c <= 0xdf
}

/// Markers of strings and binary blobs.
pub open spec fn is_bytes_marker(c: u8) -> bool {
    0xa0 <= c <= 0xbf || 0xc4 <= c <= 0xc6 || 0xd9 <= c <= 0xdb
}

/// Markers of extensions.
pub open spec fn is_ext_marker(c: u8) -> bool {
    0xc7 <= c <= 0xc9 || 0xd4 <= c <= 0xd8
}

/// What follows a marker of nil, a boolean, an integer or a float
/// (or the reserved marker 0xc1).
pub open spec fn scalar_body(c: u8, t: Seq<u8>) -> Parsed<SpecValue> {
    if c == 0xc0 {
        (Ok(SpecValue::Nil), 0)
    } else if c == 0xc1 {
        invalid(Invalid::Reserved, 0)
    } else if c == 0xc2 {
        (Ok(SpecValue::Boolean(false)), 0)
    } else if c == 0xc3 {
        (Ok(SpecValue::Boolean(true)), 0)
    } else if c <= 0x7f {
        (Ok(SpecValue::Unsigned(c as u64)), 0)
    } else if c == 0xcc {
        map_ok(take_u8(t), |x: u8| SpecValue::Unsigned(x as u64))
    } else if c == 0xcd {
        map_ok(take_u16(t), |x: u16| SpecValue::Unsigned(x as u64))
    } else if c == 0xce {
        map_ok(take_u32(t), |x: u32| SpecValue::Unsigned(x as u64))
    } else if c == 0xcf {
        map_ok(take_u64(t), |x: u64| SpecValue::Unsigned(x))
    } else if c == 0xd0 {
        map_ok(take_u8(t), |x: u8| SpecValue::Integer(x as i8 as i64))
    } else if c == 0xd1 {
        map_ok(take_u16(t), |x: u16| SpecValue::Integer(x as i16 as i64))
    } else if c == 0xd2 {
        map_ok(take_u32(t), |x: u32| SpecValue::Integer(x as i32 as i64))
    } else if c == 0xd3 {
        map_ok(take_u64(t), |x: u64| SpecValue::Integer(x as i64))
    } else if c == 0xca {
        map_ok(take_u32(t), |x: u32| SpecValue::Float(x))
    } else if c == 0xcb {
        map_ok(take_u64(t), |x: u64| SpecValue::Double(x))
    } else {
        // 0xe0 ..= 0xff: a negative fixint
        (Ok(SpecValue::Integer(c as i8 as i64)), 0)
    }
}

/// What follows a marker of a string or a binary blob.
pub open spec fn bytes_body(c: u8, t: Seq<u8>) -> Parsed<SpecValue> {
    if 0xa0 <= c <= 0xbf {
        map_ok(take_bytes(t, (c - 0xa0) as nat), |b: Seq<u8>| SpecValue::Str(b))
    } else if c == 0xd9 {
        map_ok(take_sized(t, 1), |b: Seq<u8>| SpecValue::Str(b))
    } else if c == 0xda {
        map_ok(take_sized(t, 2), |b: Seq<u8>| SpecValue::Str(b))
    } else if c == 0xdb {
        map_ok(take_sized(t, 4), |b: Seq<u8>| SpecValue::Str(b))
    } else if c == 0xc4 {
        map_ok(take_sized(t, 1), |b: Seq<u8>| SpecValue::Binary(b))
    } else if c == 0xc5 {
        map_ok(take_sized(t, 2), |b: Seq<u8>| SpecValue::Binary(b))
    } else {
        map_ok(take_sized(t, 4), |b: Seq<u8>| SpecValue::Binary(b))
    }
}

/// What follows a marker of an extension.
pub open spec fn ext_body(c: u8, t: Seq<u8>) -> Parsed<SpecValue> {
    if 0xd4 <= c <= 0xd8 {
        let n: nat = if c == 0xd4 {
            1
        } else if c == 0xd5 {
            2
        } else if c == 0xd6 {
            4
        } else if c == 0xd7 {
            8
        } else {
            16
        };
        parse_ext(t, n)
    } else {
        let l = take_len(t, if c == 0xc7 { 1 } else if c == 0xc8 { 2 } else { 4 });
        match l.0 {
            Ok(n) => after(l.1, parse_ext(t.skip(l.1 as int), n)),
            Err(e) => (Err(e), l.1),
        }
    }
}

/// What follows a marker of an array or a map.
pub open spec fn container_body(c: u8, t: Seq<u8>) -> Parsed<SpecValue>
    decreases t.len() + 1, 0nat,
{
    if 0x90 <= c <= 0x9f {
        map_ok(parse_array(t, (c - 0x90) as nat), |vs: Seq<SpecValue>| SpecValue::Array(vs))
    } else if c == 0xdc || c == 0xdd {
        let l = take_len(t, if c == 0xdc { 2 } else { 4 });
        match l.0 {
            Ok(n) => after(
                l.1,
                map_ok(parse_array(t.skip(l.1 as int), n), |vs: Seq<SpecValue>| SpecValue::Array(vs)),
            ),
            Err(e) => (Err(e), l.1),
        }
    } else if 0x80 <= c <= 0x8f {
        map_ok(
            parse_entries(t, (c - 0x80) as nat),
            |ps: Seq<(SpecValue, SpecValue)>| SpecValue::Mapping(ps),
        )
    } else {
        let l = take_len(t, if c == 0xde { 2 } else { 4 });
        match l.0 {
            Ok(n) => after(
                l.1,
                map_ok(
                    parse_entries(t.skip(l.1 as int), n),
                    |ps: Seq<(SpecValue, SpecValue)>| SpecValue::Mapping(ps),
                ),
            ),
            Err(e) => (Err(e), l.1),
        }
    }
}

/// What follows the marker `c` of a value.
pub open spec fn value_body(c: u8, t: Seq<u8>) -> Parsed<SpecValue>
    decreases t.len() + 1, 1nat,
{
    if is_container_marker(c) {
        container_body(c, t)
    } else if is_bytes_marker(c) {
        bytes_body(c, t)
    } else if is_ext_marker(c) {
        ext_body(c, t)
    } else {
        scalar_body(c, t)
    }
}

/// Any value: its marker, then what follows it.
pub open spec fn parse_value(s: Seq<u8>) -> Parsed<SpecValue>
    decreases s.len(), 2nat,
{
    if s.len() == 0 {
        eof(s)
    } else {
        after(1, value_body(s[0], s.skip(1)))
    }
}

/// `n` values one after the other.
pub open spec fn parse_array(s: Seq<u8>, n: nat) -> Parsed<Seq<SpecValue>>
    decreases s.len(), n + 3,
{
    if n == 0 {
        (Ok(Seq::empty()), 0)
    } else {
        let p = parse_value(s);
        match p.0 {
            Err(e) => (Err(e), p.1),
            Ok(v) => if p.1 > s.len() {
                eof(s)
            } else {
                let q = parse_array(s.skip(p.1 as int), (n - 1) as nat);
                (
                    match q.0 {
                        Ok(vs) => Ok(seq![v] + vs),
                        Err(e) => Err(e),
                    },
                    p.1 + q.1,
                )
            },
        }
    }
}

/// `n` key/value pairs one after the other, each key before its value.
pub open spec fn parse_entries(s: Seq<u8>, n: nat) -> Parsed<Seq<(SpecValue, SpecValue)>>
    decreases s.len(), n + 3,
{
    if n == 0 {
        (Ok(Seq::empty()), 0)
    } else {
        let p = parse_value(s);
        match p.0 {
            Err(e) => (Err(e), p.1),
            Ok(k) => if p.1 > s.len() {
                eof(s)
            } else {
                let q = parse_value(s.skip(p.1 as int));
                match q.0 {
                    Err(e) => (Err(e), p.1 + q.1),
                    Ok(v) => if p.1 + q.1 > s.len() {
                        eof(s)
                    } else {
                        let r = parse_entries(s.skip((p.1 + q.1) as int), (n - 1) as nat);
                        (
                            match r.0 {
                                Ok(ps) => Ok(seq![(k, v)] + ps),
                                Err(e) => Err(e),
                            },
                            p.1 + q.1 + r.1,
                        )
                    },
                }
            },
        }
    }
}

// ---------------------------------------------------------------------
// Writing
// ---------------------------------------------------------------------

/// The bytes of nil.
pub open spec fn enc_nil() -> Seq<u8> {
    seq![0xc0u8]
}

/// The bytes of a boolean.
pub open spec fn enc_bool(b: bool) -> Seq<u8> {
    if b {
        seq![0xc3u8]
    } else {
        seq![0xc2u8]
    }
}

/// The shortest encoding of an unsigned integer.
pub open spec fn enc_unsigned(v: u64) -> Seq<u8> {
    if v <= 0x7f {
        seq![v as u8]
    } else if v <= 0xff {
        seq![0xccu8, v as u8]
    } else if v <= 0xffff {
        seq![0xcdu8] + u16_to_be(v as u16)
    } else if v <= 0xffff_ffff {
        seq![0xceu8] + u32_to_be(v as u32)
    } else {
        seq![0xcfu8] + u64_to_be(v)
    }
}

/// The shortest encoding of a signed integer among the signed forms: a
/// negative fixint for -32 to -1, else the narrowest of the 1, 2, 4 and
/// 8 byte two's-complement forms.
pub open spec fn enc_signed(v: i64) -> Seq<u8> {
    if -32 <= v < 0 {
        seq![v as u8]
    } else if -0x80 <= v < 0x80 {
        seq![0xd0u8, v as u8]
    } else if -0x8000 <= v < 0x8000 {
        seq![0xd1u8] + u16_to_be(v as u16)
    } else if -0x8000_0000 <= v < 0x8000_0000 {
        seq![0xd2u8] + u32_to_be(v as u32)
    } else {
        seq![0xd3u8] + u64_to_be(v as u64)
    }
}

/// The bytes of a 32-bit float, given by its bits.
pub open spec fn enc_f32(bits: u32) -> Seq<u8> {
    seq![0xcau8] + u32_to_be(bits)
}

/// The bytes of a 64-bit float, given by its bits.
pub open spec fn enc_f64(bits: u64) -> Seq<u8> {
    seq![0xcbu8] + u64_to_be(bits)
}

/// A length header: `op1` alone below `sz1`, `op2` and one byte below
/// `sz2`, `op3` and two bytes up to 0xffff, `op4` and four bytes above.
pub open spec fn len_header(len: nat, op1: u8, sz1: nat, op2: u8, sz2: nat, op3: u8, op4: u8) -> Seq<u8> {
    if len < sz1 {
        seq![op1]
    } else if len < sz2 {
        seq![op2, len as u8]
    } else if len <= 0xffff {
        seq![op3] + u16_to_be(len as u16)
    } else {
        seq![op4] + u32_to_be(len as u32)
    }
}

/// The header of a string of `len` bytes.
pub open spec fn str_header(len: nat) -> Seq<u8> {
    if len < 32 {
        seq![(0xa0 + len) as u8]
    } else if len < 256 {
        seq![0xd9u8, len as u8]
    } else if len <= 0xffff {
        seq![0xdau8] + u16_to_be(len as u16)
    } else {
        seq![0xdbu8] + u32_to_be(len as u32)
    }
}

/// The header of a binary blob of `len` bytes.
pub open spec fn bin_header(len: nat) -> Seq<u8> {
    if len < 256 {
        seq![0xc4u8, len as u8]
    } else if len <= 0xffff {
        seq![0xc5u8] + u16_to_be(len as u16)
    } else {
        seq![0xc6u8] + u32_to_be(len as u32)
    }
}

/// The header of an array of `len` values.
pub open spec fn array_header(len: nat) -> Seq<u8> {
    if len < 16 {
        seq![(0x90 + len) as u8]
    } else if len <= 0xffff {
        seq![0xdcu8] + u16_to_be(len as u16)
    } else {
        seq![0xddu8] + u32_to_be(len as u32)
    }
}

/// The header of a map of `len` entries.
pub open spec fn map_header(len: nat) -> Seq<u8> {
    if len < 16 {
        seq![(0x80 + len) as u8]
    } else if len <= 0xffff {
        seq![0xdeu8] + u16_to_be(len as u16)
    } else {
        seq![0xdfu8] + u32_to_be(len as u32)
    }
}

/// The bytes of a string: its header, then its UTF-8 form.
pub open spec fn enc_str(s: Seq<char>) -> Seq<u8> {
    str_header(encode_utf8(s).len()) + encode_utf8(s)
}

/// The bytes of a value. Binary blobs and extensions have no encoding
/// here: the writer refuses them.
pub open spec fn enc_value(v: SpecValue) -> Seq<u8>
    decreases v,
{
    match v {
        SpecValue::Nil => enc_nil(),
        SpecValue::Boolean(b) => enc_bool(b),
        SpecValue::Integer(i) => enc_signed(i),
        SpecValue::Unsigned(u) => enc_unsigned(u),
        SpecValue::Float(f) => enc_f32(f),
        SpecValue::Double(d) => enc_f64(d),
        SpecValue::Array(vs) => array_header(vs.len()) + enc_values(vs),
        SpecValue::Mapping(ps) => map_header(ps.len()) + enc_pairs(ps),
        SpecValue::Str(b) => str_header(b.len()) + b,
        SpecValue::Binary(_) => Seq::empty(),
        SpecValue::Extended(_, _) => Seq::empty(),
    }
}

/// The bytes of values one after the other.
pub open spec fn enc_values(vs: Seq<SpecValue>) -> Seq<u8>
    decreases vs,
{
    if vs.len() == 0 {
        Seq::empty()
    } else {
        enc_values(vs.drop_last()) + enc_value(vs.last())
    }
}

/// The bytes of key/value pairs one after the other, each key before its value.
pub open spec fn enc_pairs(ps: Seq<(SpecValue, SpecValue)>) -> Seq<u8>
    decreases ps,
{
    if ps.len() == 0 {
        Seq::empty()
    } else {
        enc_pairs(ps.drop_last()) + enc_value(ps.last().0) + enc_value(ps.last().1)
    }
}

/// Whether the writer takes this value: no binary blob or extension
/// anywhere in it, every string UTF-8, and no length beyond `u32::MAX`.
pub open spec fn encodable(v: SpecValue) -> bool
    decreases v,
{
    match v {
        SpecValue::Array(vs) => vs.len() <= u32::MAX && all_encodable(vs),
        SpecValue::Mapping(ps) => ps.len() <= u32::MAX && all_pairs_encodable(ps),
        SpecValue::Str(b) => b.len() <= u32::MAX && valid_utf8(b),
        SpecValue::Binary(_) => false,
        SpecValue::Extended(_, _) => false,
        _ => true,
    }
}

/// Every value of the sequence is [`encodable`].
pub open spec fn all_encodable(vs: Seq<SpecValue>) -> bool
    decreases vs,
{
    vs.len() == 0 || (all_encodable(vs.drop_last()) && encodable(vs.last()))
}

/// Every key and value of the sequence is [`encodable`].
pub open spec fn all_pairs_encodable(ps: Seq<(SpecValue, SpecValue)>) -> bool
    decreases ps,
{
    ps.len() == 0 || (all_pairs_encodable(ps.drop_last()) && encodable(ps.last().0) && encodable(
        ps.last().1,
    ))
}

// ---------------------------------------------------------------------
// Facts the readers rely on
// ---------------------------------------------------------------------

/// `front` placed before what `p` read, after `k` bytes consumed first.
pub open spec fn prefixed<T>(front: Seq<T>, k: nat, p: Parsed<Seq<T>>) -> Parsed<Seq<T>> {
    (
        match p.0 {
            Ok(vs) => Ok(front + vs),
            Err(e) => Err(e),
        },
        k + p.1,
    )
}

/// Skipping nothing leaves a sequence as it is.
pub broadcast proof fn lemma_skip_zero<A>(s: Seq<A>)
    ensures
        #[trigger] s.skip(0) == s,
{
    assert(s.skip(0) =~= s);
}

/// Skipping twice is skipping the sum.
pub broadcast proof fn lemma_skip_skip<A>(s: Seq<A>, i: int, j: int)
    requires
        0 <= i <= s.len(),
        0 <= j <= s.len() - i,
    ensures
        #[trigger] s.skip(i).skip(j) == s.skip(i + j),
{
    assert(s.skip(i).skip(j) =~= s.skip(i + j));
}

/// Placing before a placement is placing the concatenation.
pub proof fn lemma_prefixed_prefixed<T>(a: Seq<T>, k: nat, b: Seq<T>, n: nat, p: Parsed<Seq<T>>)
    ensures
        prefixed(a, k, prefixed(b, n, p)) == prefixed(a + b, k + n, p),
{
    match p.0 {
        Ok(vs) => {
            assert(a + (b + vs) =~= (a + b) + vs);
        },
        Err(_) => {},
    }
}

/// No reader of values consumes more than there is.
pub proof fn lemma_parse_value_len(s: Seq<u8>)
    ensures
        parse_value(s).1 <= s.len(),
    decreases s.len(), 2nat,
{
    if s.len() > 0 {
        lemma_value_body_len(s[0], s.skip(1));
    }
}

/// What follows a marker takes no more than there is.
pub proof fn lemma_value_body_len(c: u8, t: Seq<u8>)
    ensures
        value_body(c, t).1 <= t.len(),
    decreases t.len() + 1, 1nat,
{
    if is_container_marker(c) {
        lemma_container_body_len(c, t);
    }
}

/// What follows a container marker takes no more than there is.
pub proof fn lemma_container_body_len(c: u8, t: Seq<u8>)
    ensures
        container_body(c, t).1 <= t.len(),
    decreases t.len() + 1, 0nat,
{
    if 0x90 <= c <= 0x9f {
        lemma_parse_array_len(t, (c - 0x90) as nat);
    } else if c == 0xdc || c == 0xdd {
        let l = take_len(t, if c == 0xdc { 2 } else { 4 });
        if l.0 is Ok {
            lemma_parse_array_len(t.skip(l.1 as int), l.0->Ok_0);
        }
    } else if 0x80 <= c <= 0x8f {
        lemma_parse_entries_len(t, (c - 0x80) as nat);
    } else {
        let l = take_len(t, if c == 0xde { 2 } else { 4 });
        if l.0 is Ok {
            lemma_parse_entries_len(t.skip(l.1 as int), l.0->Ok_0);
        }
    }
}

/// No reader of arrays consumes more than there is.
pub proof fn lemma_parse_array_len(s: Seq<u8>, n: nat)
    ensures
        parse_array(s, n).1 <= s.len(),
    decreases s.len(), n + 3,
{
    if n > 0 {
        lemma_parse_value_len(s);
        let p = parse_value(s);
        if p.0 is Ok {
            lemma_parse_array_len(s.skip(p.1 as int), (n - 1) as nat);
        }
    }
}

/// No reader of map entries consumes more than there is.
pub proof fn lemma_parse_entries_len(s: Seq<u8>, n: nat)
    ensures
        parse_entries(s, n).1 <= s.len(),
    decreases s.len(), n + 3,
{
    if n > 0 {
        lemma_parse_value_len(s);
        let p = parse_value(s);
        if p.0 is Ok {
            lemma_parse_value_len(s.skip(p.1 as int));
            let q = parse_value(s.skip(p.1 as int));
            if q.0 is Ok {
                lemma_parse_entries_len(s.skip((p.1 + q.1) as int), (n - 1) as nat);
            }
        }
    }
}

/// [`all_encodable`] holds exactly when every element is [`encodable`].
pub proof fn lemma_all_encodable(vs: Seq<SpecValue>)
    ensures
        all_encodable(vs) <==> forall|j: int| 0 <= j < vs.len() ==> encodable(#[trigger] vs[j]),
    decreases vs.len(),
{
    if vs.len() > 0 {
        let d = vs.drop_last();
        lemma_all_encodable(d);
        if forall|j: int| 0 <= j < vs.len() ==> encodable(#[trigger] vs[j]) {
            assert forall|j: int| 0 <= j < d.len() implies encodable(#[trigger] d[j]) by {
                assert(d[j] == vs[j]);
            }
            assert(encodable(vs[vs.len() - 1]));
        }
        if all_encodable(vs) {
            assert forall|j: int| 0 <= j < vs.len() implies encodable(#[trigger] vs[j]) by {
                if j < d.len() {
                    assert(d[j] == vs[j]);
                }
            }
        }
    }
}

/// [`all_pairs_encodable`] holds exactly when every key and value is [`encodable`].
pub proof fn lemma_all_pairs_encodable(ps: Seq<(SpecValue, SpecValue)>)
    ensures
        all_pairs_encodable(ps) <==> forall|j: int|
            0 <= j < ps.len() ==> encodable((#[trigger] ps[j]).0) && encodable(ps[j].1),
    decreases ps.len(),
{
    if ps.len() > 0 {
        let d = ps.drop_last();
        lemma_all_pairs_encodable(d);
        if forall|j: int| 0 <= j < ps.len() ==> encodable((#[trigger] ps[j]).0) && encodable(ps[j].1) {
            assert forall|j: int| 0 <= j < d.len() implies encodable((#[trigger] d[j]).0) && encodable(d[j].1) by {
                assert(d[j] == ps[j]);
            }
            assert(encodable(ps[ps.len() - 1].0) && encodable(ps[ps.len() - 1].1));
        }
        if all_pairs_encodable(ps) {
            assert forall|j: int| 0 <= j < ps.len() implies encodable((#[trigger] ps[j]).0) && encodable(ps[j].1) by {
                if j < d.len() {
                    assert(d[j] == ps[j]);
                }
            }
        }
    }
}

} // verus!
