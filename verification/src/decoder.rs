//! The reader: each `read_*` consumes from the input exactly what the
//! matching `parse_*` of `format` consumes, and returns what it reads.
use crate::bytes::{be_read_i16, be_read_i32, be_read_i64, be_read_u16, be_read_u32, be_read_u64};
use crate::convert::{
    cast_i64_to_isize, cast_u64_to_usize, i64_to_i16, i64_to_i32, i64_to_i8, u64_to_u16, u64_to_u32,
    u64_to_u8,
};
use crate::error::{Error, IntType, Invalid};
use crate::format::{
    lemma_parse_value_len, lemma_prefixed_prefixed, lemma_skip_skip, lemma_skip_zero, map_ok,
    parse_array, parse_entries, parse_ext, parse_value, parse_variant, position_of, prefixed,
    bytes_body, container_body, ext_body, is_bytes_marker, is_container_marker, is_ext_marker,
    lemma_parse_array_len, lemma_parse_entries_len, lemma_value_body_len, scalar_body, parse_bool, parse_char, parse_f32, parse_f64,
    parse_map_len, parse_nil, parse_option, parse_signed, parse_str, parse_str_len, parse_struct,
    parse_unsigned, parse_vec_len, result_view, take_bytes, take_len, take_u16, take_u32, take_u64,
    take_u8, take_utf8,
};
use crate::text::string_from_utf8;
use crate::value::{pairs_view, values_view, SpecValue, Value};
use vstd::string::StrSliceExecFns;
use vstd::utf8::{decode_utf8_encode_utf8, encode_utf8, encode_utf8_decode_utf8};
use vstd::prelude::*;
use vstd::slice::{slice_subrange, slice_to_vec};

verus! {

broadcast use {lemma_skip_skip, lemma_skip_zero};

/// A MessagePack reader over a byte buffer.
pub struct Decoder {
    rd: Vec<u8>,
    pos: usize,
    next_byte: Option<u8>,
}

impl Decoder {
    #[verifier::type_invariant]
    spec fn inv(self) -> bool {
        self.pos <= self.rd@.len()
    }
}

impl View for Decoder {
    type V = Seq<u8>;

    /// The input not read yet; a byte that was peeked at comes first.
    closed spec fn view(&self) -> Seq<u8> {
        match self.next_byte {
            Some(b) => seq![b] + self.rd@.skip(self.pos as int),
            None => self.rd@.skip(self.pos as int),
        }
    }
}

impl Decoder {
    /// Creates a new decoder for decoding from the given bytes.
    pub fn new(rd: Vec<u8>) -> (d: Decoder)
        ensures
            d@ == rd@,
    {
        Decoder { rd: rd, pos: 0, next_byte: None }
    }

    fn read_raw_u8(&mut self) -> (r: Result<u8, Error>)
        requires
            old(self).next_byte is None,
        ensures
            final(self).next_byte is None,
            r == take_u8(old(self)@).0,
            final(self)@ == old(self)@.skip(take_u8(old(self)@).1 as int),
    {
        proof {
            use_type_invariant(&*self);
        }
        if self.pos < self.rd.len() {
            let b = self.rd[self.pos];
            self.pos = self.pos + 1;
            Ok(b)
        } else {
            Err(Error::UnexpectedEof)
        }
    }

    fn read_raw_u16(&mut self) -> (r: Result<u16, Error>)
        requires
            old(self).next_byte is None,
        ensures
            final(self).next_byte is None,
            r == take_u16(old(self)@).0,
            final(self)@ == old(self)@.skip(take_u16(old(self)@).1 as int),
    {
        proof {
            use_type_invariant(&*self);
        }
        if self.rd.len() - self.pos >= 2 {
            let v = be_read_u16(slice_subrange(self.rd.as_slice(), self.pos, self.pos + 2));
            self.pos = self.pos + 2;
            Ok(v)
        } else {
            self.pos = self.rd.len();
            Err(Error::UnexpectedEof)
        }
    }

    fn read_raw_u32(&mut self) -> (r: Result<u32, Error>)
        requires
            old(self).next_byte is None,
        ensures
            final(self).next_byte is None,
            r == take_u32(old(self)@).0,
            final(self)@ == old(self)@.skip(take_u32(old(self)@).1 as int),
    {
        proof {
            use_type_invariant(&*self);
        }
        if self.rd.len() - self.pos >= 4 {
            let v = be_read_u32(slice_subrange(self.rd.as_slice(), self.pos, self.pos + 4));
            self.pos = self.pos + 4;
            Ok(v)
        } else {
            self.pos = self.rd.len();
            Err(Error::UnexpectedEof)
        }
    }

    fn read_raw_u64(&mut self) -> (r: Result<u64, Error>)
        requires
            old(self).next_byte is None,
        ensures
            final(self).next_byte is None,
            r == take_u64(old(self)@).0,
            final(self)@ == old(self)@.skip(take_u64(old(self)@).1 as int),
    {
        proof {
            use_type_invariant(&*self);
        }
        if self.rd.len() - self.pos >= 8 {
            let v = be_read_u64(slice_subrange(self.rd.as_slice(), self.pos, self.pos + 8));
            self.pos = self.pos + 8;
            Ok(v)
        } else {
            self.pos = self.rd.len();
            Err(Error::UnexpectedEof)
        }
    }

    fn read_raw_i16(&mut self) -> (r: Result<i16, Error>)
        requires
            old(self).next_byte is None,
        ensures
            final(self).next_byte is None,
            r == map_ok(take_u16(old(self)@), |x: u16| x as i16).0,
            final(self)@ == old(self)@.skip(take_u16(old(self)@).1 as int),
    {
        proof {
            use_type_invariant(&*self);
        }
        if self.rd.len() - self.pos >= 2 {
            let v = be_read_i16(slice_subrange(self.rd.as_slice(), self.pos, self.pos + 2));
            self.pos = self.pos + 2;
            Ok(v)
        } else {
            self.pos = self.rd.len();
            Err(Error::UnexpectedEof)
        }
    }

    fn read_raw_i32(&mut self) -> (r: Result<i32, Error>)
        requires
            old(self).next_byte is None,
        ensures
            final(self).next_byte is None,
            r == map_ok(take_u32(old(self)@), |x: u32| x as i32).0,
            final(self)@ == old(self)@.skip(take_u32(old(self)@).1 as int),
    {
        proof {
            use_type_invariant(&*self);
        }
        if self.rd.len() - self.pos >= 4 {
            let v = be_read_i32(slice_subrange(self.rd.as_slice(), self.pos, self.pos + 4));
            self.pos = self.pos + 4;
            Ok(v)
        } else {
            self.pos = self.rd.len();
            Err(Error::UnexpectedEof)
        }
    }

    fn read_raw_i64(&mut self) -> (r: Result<i64, Error>)
        requires
            old(self).next_byte is None,
        ensures
            final(self).next_byte is None,
            r == map_ok(take_u64(old(self)@), |x: u64| x as i64).0,
            final(self)@ == old(self)@.skip(take_u64(old(self)@).1 as int),
    {
        proof {
            use_type_invariant(&*self);
        }
        if self.rd.len() - self.pos >= 8 {
            let v = be_read_i64(slice_subrange(self.rd.as_slice(), self.pos, self.pos + 8));
            self.pos = self.pos + 8;
            Ok(v)
        } else {
            self.pos = self.rd.len();
            Err(Error::UnexpectedEof)
        }
    }

    /// Reads a length of `w` bytes (1, 2 or 4).
    fn read_raw_len(&mut self, w: u8) -> (r: Result<usize, Error>)
        requires
            old(self).next_byte is None,
            w == 1 || w == 2 || w == 4,
        ensures
            final(self).next_byte is None,
            result_view(r) == map_ok(take_len(old(self)@, w as nat), |x: nat| x as usize).0,
            r matches Ok(n) ==> take_len(old(self)@, w as nat).0 == Ok::<nat, Error>(n as nat),
            final(self)@ == old(self)@.skip(take_len(old(self)@, w as nat).1 as int),
    {
        if w == 1 {
            let l = self.read_raw_u8()?;
            Ok(l as usize)
        } else if w == 2 {
            let l = self.read_raw_u16()?;
            Ok(l as usize)
        } else {
            let l = self.read_raw_u32()?;
            Ok(l as usize)
        }
    }

    /// Reads exactly `len` bytes; at the end of the input, consumes what is
    /// left and fails.
    fn _read_exact(&mut self, len: usize) -> (r: Result<Vec<u8>, Error>)
        requires
            old(self).next_byte is None,
        ensures
            final(self).next_byte is None,
            result_view(r) == take_bytes(old(self)@, len as nat).0,
            final(self)@ == old(self)@.skip(take_bytes(old(self)@, len as nat).1 as int),
    {
        proof {
            use_type_invariant(&*self);
        }
        if self.rd.len() - self.pos >= len {
            let v = slice_to_vec(slice_subrange(self.rd.as_slice(), self.pos, self.pos + len));
            self.pos = self.pos + len;
            assert(v@ =~= old(self)@.take(len as int));
            Ok(v)
        } else {
            self.pos = self.rd.len();
            Err(Error::UnexpectedEof)
        }
    }

    fn _read_raw(&mut self, len: usize) -> (r: Result<Vec<u8>, Error>)
        requires
            old(self).next_byte is None,
        ensures
            final(self).next_byte is None,
            result_view(r) == take_bytes(old(self)@, len as nat).0,
            final(self)@ == old(self)@.skip(take_bytes(old(self)@, len as nat).1 as int),
    {
        self._read_exact(len)
    }

    /// Looks at the next byte without consuming it.
    fn _peek_byte(&mut self) -> (r: Result<u8, Error>)
        ensures
            final(self)@ == old(self)@,
            r == take_u8(old(self)@).0,
            r matches Ok(b) ==> final(self).next_byte == Some(b),
    {
        match self.next_byte {
            Some(byte) => Ok(byte),
            None => {
                let res = self.read_raw_u8();
                proof {
                    use_type_invariant(&*self);
                }
                match res {
                    Ok(byte) => {
                        self.next_byte = Some(byte);
                        assert(self@ =~= old(self)@);
                        Ok(byte)
                    },
                    Err(e) => Err(e),
                }
            },
        }
    }

    /// Consumes the next byte.
    fn _read_byte(&mut self) -> (r: Result<u8, Error>)
        ensures
            final(self).next_byte is None,
            r == take_u8(old(self)@).0,
            final(self)@ == old(self)@.skip(take_u8(old(self)@).1 as int),
    {
        proof {
            use_type_invariant(&*self);
        }
        match self.next_byte {
            Some(byte) => {
                self.next_byte = None;
                assert(self@ =~= old(self)@.skip(1));
                Ok(byte)
            },
            None => self.read_raw_u8(),
        }
    }

    fn _read_unsigned(&mut self) -> (r: Result<u64, Error>)
        ensures
            final(self).next_byte is None,
            r == parse_unsigned(old(self)@).0,
            final(self)@ == old(self)@.skip(parse_unsigned(old(self)@).1 as int),
    {
        let c = self._read_byte()?;
        match c {
            0x00..=0x7f => Ok(c as u64),
            0xcc => Ok(self.read_raw_u8()? as u64),
            0xcd => Ok(self.read_raw_u16()? as u64),
            0xce => Ok(self.read_raw_u32()? as u64),
            0xcf => self.read_raw_u64(),
            _ => Err(Error::InvalidInput(Invalid::NoUnsignedInteger)),
        }
    }

    fn _read_signed(&mut self) -> (r: Result<i64, Error>)
        ensures
            final(self).next_byte is None,
            r == parse_signed(old(self)@).0,
            final(self)@ == old(self)@.skip(parse_signed(old(self)@).1 as int),
    {
        let c = self._read_byte()?;
        match c {
            0xd0 => Ok(self.read_raw_u8()? as i8 as i64),
            0xd1 => Ok(self.read_raw_i16()? as i64),
            0xd2 => Ok(self.read_raw_i32()? as i64),
            0xd3 => self.read_raw_i64(),
            0xe0..=0xff => Ok((c as i8) as i64),
            _ => Err(Error::InvalidInput(Invalid::NoSignedInteger)),
        }
    }
}

impl Decoder {
    fn _read_str(&mut self, len: usize) -> (r: Result<String, Error>)
        requires
            old(self).next_byte is None,
        ensures
            final(self).next_byte is None,
            result_view(r) == take_utf8(old(self)@, len as nat).0,
            final(self)@ == old(self)@.skip(take_utf8(old(self)@, len as nat).1 as int),
    {
        let bytes = self._read_exact(len)?;
        match string_from_utf8(bytes) {
            Some(s) => {
                proof {
                    encode_utf8_decode_utf8(s@);
                }
                Ok(s)
            },
            None => Err(Error::InvalidInput(Invalid::NoUtf8String)),
        }
    }

    fn _read_vec_len(&mut self) -> (r: Result<usize, Error>)
        ensures
            final(self).next_byte is None,
            r == parse_vec_len(old(self)@).0,
            final(self)@ == old(self)@.skip(parse_vec_len(old(self)@).1 as int),
    {
        let c = self._read_byte()?;
        match c {
            0x90..=0x9f => {
                assert(0x90 <= c <= 0x9f ==> (c as usize) & 0x0f == (c - 0x90) as usize)
                    by (bit_vector);
                Ok((c as usize) & 0x0F)
            },
            0xdc => Ok(self.read_raw_u16()? as usize),
            0xdd => Ok(self.read_raw_u32()? as usize),
            _ => Err(Error::InvalidInput(Invalid::InvalidVecLen)),
        }
    }

    fn _read_map_len(&mut self) -> (r: Result<usize, Error>)
        ensures
            final(self).next_byte is None,
            r == parse_map_len(old(self)@).0,
            final(self)@ == old(self)@.skip(parse_map_len(old(self)@).1 as int),
    {
        let c = self._read_byte()?;
        match c {
            0x80..=0x8f => {
                assert(0x80 <= c <= 0x8f ==> (c as usize) & 0x0f == (c - 0x80) as usize)
                    by (bit_vector);
                Ok((c as usize) & 0x0F)
            },
            0xde => Ok(self.read_raw_u16()? as usize),
            0xdf => Ok(self.read_raw_u32()? as usize),
            _ => Err(Error::InvalidInput(Invalid::InvalidMapLen)),
        }
    }

    /// Reads nil.
    pub fn read_nil(&mut self) -> (r: Result<(), Error>)
        ensures
            r == parse_nil(old(self)@).0,
            final(self)@ == old(self)@.skip(parse_nil(old(self)@).1 as int),
    {
        match self._read_byte() {
            Ok(0xc0) => Ok(()),
            Ok(_) => Err(Error::InvalidInput(Invalid::InvalidNil)),
            Err(e) => Err(e),
        }
    }

    /// Reads an unsigned integer in any of its encodings.
    pub fn read_u64(&mut self) -> (r: Result<u64, Error>)
        ensures
            r == parse_unsigned(old(self)@).0,
            final(self)@ == old(self)@.skip(parse_unsigned(old(self)@).1 as int),
    {
        self._read_unsigned()
    }

    /// Reads an unsigned integer that must fit in `usize`.
    pub fn read_uint(&mut self) -> (r: Result<usize, Error>)
        ensures
            r == match parse_unsigned(old(self)@).0 {
                Ok(v) => if v <= usize::MAX {
                    Ok(v as usize)
                } else {
                    Err(Error::InvalidInput(Invalid::DoesNotFit(IntType::Usize)))
                },
                Err(e) => Err(e),
            },
            final(self)@ == old(self)@.skip(parse_unsigned(old(self)@).1 as int),
    {
        match cast_u64_to_usize(self._read_unsigned()?) {
            Some(i) => Ok(i),
            None => Err(Error::InvalidInput(Invalid::DoesNotFit(IntType::Usize))),
        }
    }

    /// Reads an unsigned integer that must fit in `u32`.
    pub fn read_u32(&mut self) -> (r: Result<u32, Error>)
        ensures
            r == match parse_unsigned(old(self)@).0 {
                Ok(v) => if v <= u32::MAX {
                    Ok(v as u32)
                } else {
                    Err(Error::InvalidInput(Invalid::DoesNotFit(IntType::U32)))
                },
                Err(e) => Err(e),
            },
            final(self)@ == old(self)@.skip(parse_unsigned(old(self)@).1 as int),
    {
        match u64_to_u32(self._read_unsigned()?) {
            Some(i) => Ok(i),
            None => Err(Error::InvalidInput(Invalid::DoesNotFit(IntType::U32))),
        }
    }

    /// Reads an unsigned integer that must fit in `u16`.
    pub fn read_u16(&mut self) -> (r: Result<u16, Error>)
        ensures
            r == match parse_unsigned(old(self)@).0 {
                Ok(v) => if v <= u16::MAX {
                    Ok(v as u16)
                } else {
                    Err(Error::InvalidInput(Invalid::DoesNotFit(IntType::U16)))
                },
                Err(e) => Err(e),
            },
            final(self)@ == old(self)@.skip(parse_unsigned(old(self)@).1 as int),
    {
        match u64_to_u16(self._read_unsigned()?) {
            Some(i) => Ok(i),
            None => Err(Error::InvalidInput(Invalid::DoesNotFit(IntType::U16))),
        }
    }

    /// Reads an unsigned integer that must fit in `u8`.
    pub fn read_u8(&mut self) -> (r: Result<u8, Error>)
        ensures
            r == match parse_unsigned(old(self)@).0 {
                Ok(v) => if v <= u8::MAX {
                    Ok(v as u8)
                } else {
                    Err(Error::InvalidInput(Invalid::DoesNotFit(IntType::U8)))
                },
                Err(e) => Err(e),
            },
            final(self)@ == old(self)@.skip(parse_unsigned(old(self)@).1 as int),
    {
        match u64_to_u8(self._read_unsigned()?) {
            Some(i) => Ok(i),
            None => Err(Error::InvalidInput(Invalid::DoesNotFit(IntType::U8))),
        }
    }

    /// Reads a signed integer in any of its encodings.
    pub fn read_i64(&mut self) -> (r: Result<i64, Error>)
        ensures
            r == parse_signed(old(self)@).0,
            final(self)@ == old(self)@.skip(parse_signed(old(self)@).1 as int),
    {
        self._read_signed()
    }

    /// Reads a signed integer that must fit in `isize`.
    pub fn read_int(&mut self) -> (r: Result<isize, Error>)
        ensures
            r == match parse_signed(old(self)@).0 {
                Ok(v) => if isize::MIN <= v <= isize::MAX {
                    Ok(v as isize)
                } else {
                    Err(Error::InvalidInput(Invalid::DoesNotFit(IntType::Isize)))
                },
                Err(e) => Err(e),
            },
            final(self)@ == old(self)@.skip(parse_signed(old(self)@).1 as int),
    {
        match cast_i64_to_isize(self._read_signed()?) {
            Some(i) => Ok(i),
            None => Err(Error::InvalidInput(Invalid::DoesNotFit(IntType::Isize))),
        }
    }

    /// Reads a signed integer that must fit in `i32`.
    pub fn read_i32(&mut self) -> (r: Result<i32, Error>)
        ensures
            r == match parse_signed(old(self)@).0 {
                Ok(v) => if i32::MIN <= v <= i32::MAX {
                    Ok(v as i32)
                } else {
                    Err(Error::InvalidInput(Invalid::DoesNotFit(IntType::I32)))
                },
                Err(e) => Err(e),
            },
            final(self)@ == old(self)@.skip(parse_signed(old(self)@).1 as int),
    {
        match i64_to_i32(self._read_signed()?) {
            Some(i) => Ok(i),
            None => Err(Error::InvalidInput(Invalid::DoesNotFit(IntType::I32))),
        }
    }

    /// Reads a signed integer that must fit in `i16`.
    pub fn read_i16(&mut self) -> (r: Result<i16, Error>)
        ensures
            r == match parse_signed(old(self)@).0 {
                Ok(v) => if i16::MIN <= v <= i16::MAX {
                    Ok(v as i16)
                } else {
                    Err(Error::InvalidInput(Invalid::DoesNotFit(IntType::I16)))
                },
                Err(e) => Err(e),
            },
            final(self)@ == old(self)@.skip(parse_signed(old(self)@).1 as int),
    {
        match i64_to_i16(self._read_signed()?) {
            Some(i) => Ok(i),
            None => Err(Error::InvalidInput(Invalid::DoesNotFit(IntType::I16))),
        }
    }

    /// Reads a signed integer that must fit in `i8`.
    pub fn read_i8(&mut self) -> (r: Result<i8, Error>)
        ensures
            r == match parse_signed(old(self)@).0 {
                Ok(v) => if i8::MIN <= v <= i8::MAX {
                    Ok(v as i8)
                } else {
                    Err(Error::InvalidInput(Invalid::DoesNotFit(IntType::I8)))
                },
                Err(e) => Err(e),
            },
            final(self)@ == old(self)@.skip(parse_signed(old(self)@).1 as int),
    {
        match i64_to_i8(self._read_signed()?) {
            Some(i) => Ok(i),
            None => Err(Error::InvalidInput(Invalid::DoesNotFit(IntType::I8))),
        }
    }

    /// Reads a boolean.
    pub fn read_bool(&mut self) -> (r: Result<bool, Error>)
        ensures
            r == parse_bool(old(self)@).0,
            final(self)@ == old(self)@.skip(parse_bool(old(self)@).1 as int),
    {
        match self._read_byte()? {
            0xc2 => Ok(false),
            0xc3 => Ok(true),
            _ => Err(Error::InvalidInput(Invalid::InvalidBool)),
        }
    }

    /// Reads a 64-bit float, returned as its IEEE-754 bits.
    pub fn read_f64(&mut self) -> (r: Result<u64, Error>)
        ensures
            r == parse_f64(old(self)@).0,
            final(self)@ == old(self)@.skip(parse_f64(old(self)@).1 as int),
    {
        match self._read_byte()? {
            0xcb => self.read_raw_u64(),
            _ => Err(Error::InvalidInput(Invalid::InvalidF64)),
        }
    }

    /// Reads a 32-bit float, returned as its IEEE-754 bits.
    pub fn read_f32(&mut self) -> (r: Result<u32, Error>)
        ensures
            r == parse_f32(old(self)@).0,
            final(self)@ == old(self)@.skip(parse_f32(old(self)@).1 as int),
    {
        match self._read_byte()? {
            0xca => self.read_raw_u32(),
            _ => Err(Error::InvalidInput(Invalid::InvalidF32)),
        }
    }

    /// Reads a character: a string of exactly one byte.
    pub fn read_char(&mut self) -> (r: Result<char, Error>)
        ensures
            r == parse_char(old(self)@).0,
            final(self)@ == old(self)@.skip(parse_char(old(self)@).1 as int),
    {
        let s = self.read_str()?;
        proof {
            lemma_parse_str_fits(old(self)@);
        }
        if s.as_str().len() != 1 {
            return Err(Error::InvalidInput(Invalid::InvalidChar));
        }
        assert(s@.len() > 0) by {
            if s@.len() == 0 {
                assert(encode_utf8(s@) =~= Seq::<u8>::empty());
            }
        }
        Ok(s.as_str().get_char(0))
    }

    /// Reads a string.
    pub fn read_str(&mut self) -> (r: Result<String, Error>)
        ensures
            result_view(r) == parse_str(old(self)@).0,
            final(self)@ == old(self)@.skip(parse_str(old(self)@).1 as int),
    {
        let c = self._read_byte()?;
        match c {
            0xa0..=0xbf => {
                assert(0xa0 <= c <= 0xbf ==> (c as usize) & 0x1f == (c - 0xa0) as usize)
                    by (bit_vector);
                self._read_str((c as usize) & 0x1F)
            },
            0xd9 => {
                let l = self.read_raw_u8()? as usize;
                self._read_str(l)
            },
            0xda => {
                let l = self.read_raw_u16()? as usize;
                self._read_str(l)
            },
            0xdb => {
                let l = self.read_raw_u32()? as usize;
                self._read_str(l)
            },
            _ => Err(Error::InvalidInput(Invalid::InvalidString)),
        }
    }

    /// Reads the length of a sequence: an array header.
    pub fn read_seq(&mut self) -> (r: Result<usize, Error>)
        ensures
            r == parse_vec_len(old(self)@).0,
            final(self)@ == old(self)@.skip(parse_vec_len(old(self)@).1 as int),
    {
        self._read_vec_len()
    }

    /// Reads the number of entries of a map: a map header.
    pub fn read_map(&mut self) -> (r: Result<usize, Error>)
        ensures
            r == parse_map_len(old(self)@).0,
            final(self)@ == old(self)@.skip(parse_map_len(old(self)@).1 as int),
    {
        self._read_map_len()
    }

    /// Reads the header of a struct of `len` fields: a map header, whose
    /// count must be `len`.
    pub fn read_struct(&mut self, len: usize) -> (r: Result<(), Error>)
        ensures
            r == parse_struct(old(self)@, len).0,
            final(self)@ == old(self)@.skip(parse_struct(old(self)@, len).1 as int),
    {
        if len != self._read_map_len()? {
            Err(Error::InvalidInput(Invalid::InvalidStructLength))
        } else {
            Ok(())
        }
    }

    /// Reads whether an optional value follows: a nil marker is consumed and
    /// gives `false`; any other byte stays in place and gives `true`.
    pub fn read_option(&mut self) -> (r: Result<bool, Error>)
        ensures
            r == parse_option(old(self)@).0,
            final(self)@ == old(self)@.skip(parse_option(old(self)@).1 as int),
    {
        match self._peek_byte()? {
            0xc0 => {
                let _ = self._read_byte();
                Ok(false)
            },
            _ => Ok(true),
        }
    }

    /// Reads the header of a tuple of `exp_len` elements: an array header.
    /// It must not be called before an array header of another length.
    pub fn read_tuple(&mut self, exp_len: usize) -> (r: Result<(), Error>)
        requires
            parse_vec_len(old(self)@).0 matches Ok(l) ==> l == exp_len,
        ensures
            r == map_ok(parse_vec_len(old(self)@), |l: usize| ()).0,
            final(self)@ == old(self)@.skip(parse_vec_len(old(self)@).1 as int),
    {
        let len = self._read_vec_len()?;
        assert(len == exp_len);
        Ok(())
    }

    /// Reads the header of a tuple struct of `len` fields: as
    /// [`Decoder::read_tuple`].
    pub fn read_tuple_struct(&mut self, len: usize) -> (r: Result<(), Error>)
        requires
            parse_vec_len(old(self)@).0 matches Ok(l) ==> l == len,
        ensures
            r == map_ok(parse_vec_len(old(self)@), |l: usize| ()).0,
            final(self)@ == old(self)@.skip(parse_vec_len(old(self)@).1 as int),
    {
        self.read_tuple(len)
    }

    /// The error raised on behalf of the caller.
    pub fn error(&mut self, _err: &str) -> (r: Error)
        ensures
            r == Error::InvalidInput(Invalid::ApplicationError),
            final(self)@ == old(self)@,
    {
        Error::InvalidInput(Invalid::ApplicationError)
    }
}

/// A string read off the wire has a UTF-8 form no longer than `usize::MAX` bytes.
proof fn lemma_parse_str_fits(s: Seq<u8>)
    ensures
        parse_str(s).0 matches Ok(cs) ==> encode_utf8(cs).len() <= usize::MAX,
{
    let h = parse_str_len(s);
    if let Ok(n) = h.0 {
        let t = s.skip(h.1 as int);
        let b = take_bytes(t, n as nat);
        if let Ok(bytes) = b.0 {
            if vstd::utf8::valid_utf8(bytes) {
                decode_utf8_encode_utf8(bytes);
            }
        }
    }
}

/// The names of enum variants, as character sequences.
pub open spec fn names_view(names: Seq<&str>) -> Seq<Seq<char>> {
    names.map_values(|n: &str| n@)
}

/// No name equal to `x`: no position.
proof fn lemma_position_none(ns: Seq<Seq<char>>, x: Seq<char>)
    requires
        forall|k: int| 0 <= k < ns.len() ==> ns[k] != x,
    ensures
        position_of(ns, x) is None,
    decreases ns.len(),
{
    if ns.len() > 0 {
        let d = ns.drop_first();
        assert forall|k: int| 0 <= k < d.len() implies d[k] != x by {
            assert(d[k] == ns[k + 1]);
        }
        lemma_position_none(d, x);
    }
}

/// The first name equal to `x` is at `i`: the position is `i`.
proof fn lemma_position_some(ns: Seq<Seq<char>>, x: Seq<char>, i: int)
    requires
        0 <= i < ns.len(),
        ns[i] == x,
        forall|k: int| 0 <= k < i ==> ns[k] != x,
    ensures
        position_of(ns, x) == Some(i as nat),
    decreases i,
{
    if i > 0 {
        let d = ns.drop_first();
        assert forall|k: int| 0 <= k < i - 1 implies d[k] != x by {
            assert(d[k] == ns[k + 1]);
        }
        assert(d[i - 1] == ns[i]);
        lemma_position_some(d, x, i - 1);
    }
}

impl Decoder {
    /// Reads an enum variant: an array header, whose length is not looked
    /// at, then the variant's name, returned as its index in `names`.
    #[verifier::loop_isolation(false)]
    pub fn read_enum_variant(&mut self, names: &[&str]) -> (r: Result<usize, Error>)
        ensures
            r == parse_variant(old(self)@, names_view(names@)).0,
            final(self)@ == old(self)@.skip(parse_variant(old(self)@, names_view(names@)).1 as int),
    {
        let _len = self._read_vec_len()?;
        let name = self.read_str()?;
        let ghost ns = names_view(names@);
        let mut i: usize = 0;
        while i < names.len()
            invariant
                i <= names@.len(),
                ns == names_view(names@),
                forall|k: int| 0 <= k < i ==> ns[k] != name@,
            decreases names@.len() - i,
        {
            let candidate: String = names[i].to_owned();
            if name == candidate {
                proof {
                    lemma_position_some(ns, name@, i as int);
                }
                return Ok(i);
            }
            i = i + 1;
        }
        proof {
            lemma_position_none(ns, name@);
        }
        Err(Error::InvalidInput(Invalid::UnknownVariant))
    }

    /// Reads a struct-like enum variant: as [`Decoder::read_enum_variant`].
    pub fn read_enum_struct_variant(&mut self, names: &[&str]) -> (r: Result<usize, Error>)
        ensures
            r == parse_variant(old(self)@, names_view(names@)).0,
            final(self)@ == old(self)@.skip(parse_variant(old(self)@, names_view(names@)).1 as int),
    {
        self.read_enum_variant(names)
    }

    /// Reads the body of an extension of `len` bytes: a type, which must not
    /// be negative, then the data.
    fn decode_ext(&mut self, len: usize) -> (r: Result<Value, Error>)
        requires
            old(self).next_byte is None,
        ensures
            result_view(r) == parse_ext(old(self)@, len as nat).0,
            final(self)@ == old(self)@.skip(parse_ext(old(self)@, len as nat).1 as int),
    {
        let typ = self.read_raw_u8()? as i8;
        if typ < 0 {
            return Err(Error::InvalidInput(Invalid::ReservedType));
        }
        Ok(Value::Extended(typ, self._read_exact(len)?))
    }

    /// Reads `len` values into an array.
    fn decode_array(&mut self, len: usize) -> (r: Result<Value, Error>)
        ensures
            result_view(r) == map_ok(
                parse_array(old(self)@, len as nat),
                |vs: Seq<SpecValue>| SpecValue::Array(vs),
            ).0,
            final(self)@ == old(self)@.skip(parse_array(old(self)@, len as nat).1 as int),
        decreases old(self)@.len(), 3nat,
    {
        let ghost s0 = self@;
        let mut v: Vec<Value> = Vec::new();
        let mut i: usize = 0;
        let ghost mut k: nat = 0;
        assert(values_view(v@) =~= Seq::<SpecValue>::empty());
        while i < len
            invariant
                i <= len,
                s0 == old(self)@,
                k <= s0.len(),
                self@ == s0.skip(k as int),
                parse_array(s0, len as nat) == prefixed(
                    values_view(v@),
                    k,
                    parse_array(self@, (len - i) as nat),
                ),
            decreases len - i,
        {
            let ghost cur = self@;
            let ghost m = (len - i) as nat;
            proof {
                lemma_parse_value_len(cur);
            }
            match self.decode_value() {
                Ok(x) => {
                    let ghost n = parse_value(cur).1;
                    let ghost rest = parse_array(cur.skip(n as int), (m - 1) as nat);
                    assert(parse_array(cur, m) == prefixed(seq![x@], n, rest));
                    proof {
                        lemma_prefixed_prefixed(values_view(v@), k, seq![x@], n, rest);
                    }
                    let ghost before = v@;
                    v.push(x);
                    assert(v@.drop_last() =~= before);
                    assert(values_view(v@) =~= values_view(before) + seq![x@]);
                    i = i + 1;
                    proof {
                        k = k + n;
                    }
                },
                Err(e) => {
                    return Err(e);
                },
            }
        }
        assert(values_view(v@) + Seq::<SpecValue>::empty() =~= values_view(v@));
        Ok(Value::Array(v))
    }

    /// Reads `len` key/value pairs into a map.
    fn decode_map(&mut self, len: usize) -> (r: Result<Value, Error>)
        ensures
            result_view(r) == map_ok(
                parse_entries(old(self)@, len as nat),
                |ps: Seq<(SpecValue, SpecValue)>| SpecValue::Mapping(ps),
            ).0,
            final(self)@ == old(self)@.skip(parse_entries(old(self)@, len as nat).1 as int),
        decreases old(self)@.len(), 3nat,
    {
        let ghost s0 = self@;
        let mut v: Vec<(Value, Value)> = Vec::new();
        let mut i: usize = 0;
        let ghost mut k: nat = 0;
        assert(pairs_view(v@) =~= Seq::<(SpecValue, SpecValue)>::empty());
        while i < len
            invariant
                i <= len,
                s0 == old(self)@,
                k <= s0.len(),
                self@ == s0.skip(k as int),
                parse_entries(s0, len as nat) == prefixed(
                    pairs_view(v@),
                    k,
                    parse_entries(self@, (len - i) as nat),
                ),
            decreases len - i,
        {
            let ghost cur = self@;
            let ghost m = (len - i) as nat;
            proof {
                lemma_parse_value_len(cur);
            }
            let a = match self.decode_value() {
                Ok(a) => a,
                Err(e) => {
                    return Err(e);
                },
            };
            let ghost n1 = parse_value(cur).1;
            let ghost mid = self@;
            proof {
                lemma_parse_value_len(mid);
            }
            let b = match self.decode_value() {
                Ok(b) => b,
                Err(e) => {
                    return Err(e);
                },
            };
            let ghost n2 = parse_value(mid).1;
            let ghost rest = parse_entries(cur.skip((n1 + n2) as int), (m - 1) as nat);
            assert(parse_entries(cur, m) == prefixed(seq![(a@, b@)], n1 + n2, rest));
            proof {
                lemma_prefixed_prefixed(pairs_view(v@), k, seq![(a@, b@)], n1 + n2, rest);
            }
            let ghost before = v@;
            v.push((a, b));
            assert(v@.drop_last() =~= before);
            assert(pairs_view(v@) =~= pairs_view(before) + seq![(a@, b@)]);
            i = i + 1;
            proof {
                k = k + n1 + n2;
            }
        }
        assert(pairs_view(v@) + Seq::<(SpecValue, SpecValue)>::empty() =~= pairs_view(v@));
        Ok(Value::Mapping(v))
    }

    /// Reads what follows the marker of nil, a boolean, an integer or a float.
    fn decode_scalar(&mut self, c: u8) -> (r: Result<Value, Error>)
        requires
            old(self).next_byte is None,
            !is_container_marker(c),
            !is_bytes_marker(c),
            !is_ext_marker(c),
        ensures
            result_view(r) == scalar_body(c, old(self)@).0,
            final(self)@ == old(self)@.skip(scalar_body(c, old(self)@).1 as int),
    {
        match c {
            0xc0 => Ok(Value::Nil),
            0xc1 => Err(Error::InvalidInput(Invalid::Reserved)),
            0xc2 => Ok(Value::Boolean(false)),
            0xc3 => Ok(Value::Boolean(true)),
            0x00..=0x7f => Ok(Value::Unsigned(c as u64)),
            0xcc => Ok(Value::Unsigned(self.read_raw_u8()? as u64)),
            0xcd => Ok(Value::Unsigned(self.read_raw_u16()? as u64)),
            0xce => Ok(Value::Unsigned(self.read_raw_u32()? as u64)),
            0xcf => Ok(Value::Unsigned(self.read_raw_u64()?)),
            0xd0 => Ok(Value::Integer(self.read_raw_u8()? as i8 as i64)),
            0xd1 => Ok(Value::Integer(self.read_raw_i16()? as i64)),
            0xd2 => Ok(Value::Integer(self.read_raw_i32()? as i64)),
            0xd3 => Ok(Value::Integer(self.read_raw_i64()?)),
            0xca => Ok(Value::Float(self.read_raw_u32()?)),
            0xcb => Ok(Value::Double(self.read_raw_u64()?)),
            _ => Ok(Value::Integer((c as i8) as i64)),
        }
    }

    /// Reads what follows the marker of a string or a binary blob.
    fn decode_bytes(&mut self, c: u8) -> (r: Result<Value, Error>)
        requires
            old(self).next_byte is None,
            is_bytes_marker(c),
        ensures
            result_view(r) == bytes_body(c, old(self)@).0,
            final(self)@ == old(self)@.skip(bytes_body(c, old(self)@).1 as int),
    {
        match c {
            0xa0..=0xbf => {
                assert(0xa0 <= c <= 0xbf ==> (c as usize) & 0x1f == (c - 0xa0) as usize)
                    by (bit_vector);
                Ok(Value::Str(self._read_raw((c as usize) & 0x1F)?))
            },
            0xd9 => {
                let l = self.read_raw_len(1)?;
                Ok(Value::Str(self._read_raw(l)?))
            },
            0xda => {
                let l = self.read_raw_len(2)?;
                Ok(Value::Str(self._read_raw(l)?))
            },
            0xdb => {
                let l = self.read_raw_len(4)?;
                Ok(Value::Str(self._read_raw(l)?))
            },
            0xc4 => {
                let l = self.read_raw_len(1)?;
                Ok(Value::Binary(self._read_raw(l)?))
            },
            0xc5 => {
                let l = self.read_raw_len(2)?;
                Ok(Value::Binary(self._read_raw(l)?))
            },
            _ => {
                let l = self.read_raw_len(4)?;
                Ok(Value::Binary(self._read_raw(l)?))
            },
        }
    }

    /// Reads what follows the marker of an extension.
    fn decode_extension(&mut self, c: u8) -> (r: Result<Value, Error>)
        requires
            old(self).next_byte is None,
            is_ext_marker(c),
        ensures
            result_view(r) == ext_body(c, old(self)@).0,
            final(self)@ == old(self)@.skip(ext_body(c, old(self)@).1 as int),
    {
        match c {
            0xd4 => self.decode_ext(1),
            0xd5 => self.decode_ext(2),
            0xd6 => self.decode_ext(4),
            0xd7 => self.decode_ext(8),
            0xd8 => self.decode_ext(16),
            0xc7 => {
                let l = self.read_raw_len(1)?;
                self.decode_ext(l)
            },
            0xc8 => {
                let l = self.read_raw_len(2)?;
                self.decode_ext(l)
            },
            _ => {
                let l = self.read_raw_len(4)?;
                self.decode_ext(l)
            },
        }
    }

    /// Reads what follows the marker of an array or a map.
    fn decode_container(&mut self, c: u8) -> (r: Result<Value, Error>)
        requires
            old(self).next_byte is None,
            is_container_marker(c),
        ensures
            result_view(r) == container_body(c, old(self)@).0,
            final(self)@ == old(self)@.skip(container_body(c, old(self)@).1 as int),
        decreases old(self)@.len() + 1, 0nat,
    {
        match c {
            0x90..=0x9f => {
                assert(0x90 <= c <= 0x9f ==> (c as usize) & 0x0f == (c - 0x90) as usize)
                    by (bit_vector);
                self.decode_array((c as usize) & 0x0F)
            },
            0xdc => {
                let l = self.read_raw_len(2)?;
                proof {
                    lemma_parse_array_len(self@, l as nat);
                }
                self.decode_array(l)
            },
            0xdd => {
                let l = self.read_raw_len(4)?;
                proof {
                    lemma_parse_array_len(self@, l as nat);
                }
                self.decode_array(l)
            },
            0x80..=0x8f => {
                assert(0x80 <= c <= 0x8f ==> (c as usize) & 0x0f == (c - 0x80) as usize)
                    by (bit_vector);
                self.decode_map((c as usize) & 0x0F)
            },
            0xde => {
                let l = self.read_raw_len(2)?;
                proof {
                    lemma_parse_entries_len(self@, l as nat);
                }
                self.decode_map(l)
            },
            _ => {
                let l = self.read_raw_len(4)?;
                proof {
                    lemma_parse_entries_len(self@, l as nat);
                }
                self.decode_map(l)
            },
        }
    }

    /// Reads any value.
    pub fn decode_value(&mut self) -> (r: Result<Value, Error>)
        ensures
            result_view(r) == parse_value(old(self)@).0,
            final(self)@ == old(self)@.skip(parse_value(old(self)@).1 as int),
        decreases old(self)@.len(), 2nat,
    {
        let c = self._read_byte()?;
        proof {
            lemma_value_body_len(c, self@);
        }
        match c {
            0x80..=0x9f | 0xdc..=0xdf => self.decode_container(c),
            0xa0..=0xbf | 0xc4..=0xc6 | 0xd9..=0xdb => self.decode_bytes(c),
            0xc7..=0xc9 | 0xd4..=0xd8 => self.decode_extension(c),
            _ => self.decode_scalar(c),
        }
    }
}

} // verus!
