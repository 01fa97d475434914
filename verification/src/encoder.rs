//! The writer: each `emit_*` appends the encoding that `format` states.
use crate::bytes::{
    be_write_i16, be_write_i32, be_write_i64, be_write_u16, be_write_u32, be_write_u64,
};
use crate::format::{
    array_header, bin_header, enc_bool, enc_f32, enc_f64, enc_nil, enc_pairs, enc_signed, enc_str,
    enc_unsigned, enc_value, enc_values, encodable, lemma_all_encodable, lemma_all_pairs_encodable,
    len_header, map_header, str_header,
};
use crate::text::{str_from_utf8, string_push};
use crate::value::{
    lemma_pairs_view, lemma_values_view, pairs_view, value_view, values_view, Value,
};
use vstd::prelude::*;
use vstd::utf8::encode_utf8;

verus! {

/// A MessagePack writer that appends to a byte buffer.
pub struct Encoder {
    wr: Vec<u8>,
}

impl View for Encoder {
    type V = Seq<u8>;

    /// Everything in the buffer so far.
    closed spec fn view(&self) -> Seq<u8> {
        self.wr@
    }
}

impl Encoder {
    /// Creates an encoder that appends to `wr`.
    pub fn new(wr: Vec<u8>) -> (e: Encoder)
        ensures
            e@ == wr@,
    {
        Encoder { wr: wr }
    }

    /// The buffer, with everything written to it.
    pub fn into_bytes(self) -> (r: Vec<u8>)
        ensures
            r@ == self@,
    {
        self.wr
    }

    fn write_u8(&mut self, b: u8)
        ensures
            final(self)@ == old(self)@.push(b),
    {
        self.wr.push(b);
    }

    fn write_vec(&mut self, b: Vec<u8>)
        ensures
            final(self)@ == old(self)@ + b@,
    {
        let mut b = b;
        self.wr.append(&mut b);
    }

    fn write_slice(&mut self, b: &[u8])
        ensures
            final(self)@ == old(self)@ + b@,
    {
        let n = b.len();
        let mut i: usize = 0;
        while i < n
            invariant
                n == b@.len(),
                i <= n,
                self@ == old(self)@ + b@.take(i as int),
            decreases n - i,
        {
            self.wr.push(b[i]);
            assert(b@.take(i + 1) =~= b@.take(i as int).push(b@[i as int]));
            i = i + 1;
        }
        assert(b@.take(n as int) =~= b@);
    }

    /// Emits the most efficient representation of the given unsigned integer.
    fn _emit_unsigned(&mut self, v: u64)
        ensures
            final(self)@ == old(self)@ + enc_unsigned(v),
    {
        if v <= 127 {
            self.write_u8(v as u8);
        } else if v <= u8::MAX as u64 {
            self.write_u8(0xcc);
            self.write_u8(v as u8);
        } else if v <= u16::MAX as u64 {
            self.write_u8(0xcd);
            self.write_vec(be_write_u16(v as u16));
        } else if v <= u32::MAX as u64 {
            self.write_u8(0xce);
            self.write_vec(be_write_u32(v as u32));
        } else {
            self.write_u8(0xcf);
            self.write_vec(be_write_u64(v));
        }
        assert(self@ =~= old(self)@ + enc_unsigned(v));
    }

    /// Emits the most efficient representation of the given signed integer.
    fn _emit_signed(&mut self, v: i64)
        ensures
            final(self)@ == old(self)@ + enc_signed(v),
    {
        if v >= i8::MIN as i64 && v <= i8::MAX as i64 {
            let w = v as i8;
            assert((w as u8) == (v as u8)) by (bit_vector)
                requires
                    w == v as i8,
            ;
            assert(((w as u8) & 0xe0 == 0xe0) <==> (-32 <= v < 0)) by (bit_vector)
                requires
                    w == v as i8,
                    -128 <= v <= 127,
            ;
            if (w as u8) & 0xe0 != 0xe0 {
                self.write_u8(0xd0);
            }
            self.write_u8(w as u8);
        } else if v >= i16::MIN as i64 && v <= i16::MAX as i64 {
            let w = v as i16;
            assert((w as u16) == (v as u16)) by (bit_vector)
                requires
                    w == v as i16,
            ;
            self.write_u8(0xd1);
            self.write_vec(be_write_i16(w));
        } else if v >= i32::MIN as i64 && v <= i32::MAX as i64 {
            let w = v as i32;
            assert((w as u32) == (v as u32)) by (bit_vector)
                requires
                    w == v as i32,
            ;
            self.write_u8(0xd2);
            self.write_vec(be_write_i32(w));
        } else {
            self.write_u8(0xd3);
            self.write_vec(be_write_i64(v));
        }
        assert(self@ =~= old(self)@ + enc_signed(v));
    }

    /// Emits a length header: `op1` alone below `sz1`, `op2` and a byte below
    /// `sz2`, `op3` and a `u16` up to `u16::MAX`, `op4` and a `u32` beyond.
    fn _emit_len(&mut self, len: usize, first: (u8, usize), second: (u8, usize), op3: u8, op4: u8)
        requires
            len <= u32::MAX,
            second.1 <= 256,
        ensures
            final(self)@ == old(self)@ + len_header(
                len as nat,
                first.0,
                first.1 as nat,
                second.0,
                second.1 as nat,
                op3,
                op4,
            ),
    {
        let (op1, sz1) = first;
        let (op2, sz2) = second;
        if len < sz1 {
            self.write_u8(op1);
        } else if len < sz2 {
            self.write_u8(op2);
            self.write_u8(len as u8);
        } else if len <= u16::MAX as usize {
            self.write_u8(op3);
            self.write_vec(be_write_u16(len as u16));
        } else {
            self.write_u8(op4);
            self.write_vec(be_write_u32(len as u32));
        }
        assert(self@ =~= old(self)@ + len_header(
            len as nat,
            first.0,
            first.1 as nat,
            second.0,
            second.1 as nat,
            op3,
            op4,
        ));
    }

    fn _emit_str_len(&mut self, len: usize)
        requires
            len <= u32::MAX,
        ensures
            final(self)@ == old(self)@ + str_header(len as nat),
    {
        let op1 = 0xa0u8 | (len & 31) as u8;
        assert(len < 32 ==> op1 == (0xa0 + len) as u8) by (bit_vector)
            requires
                op1 == 0xa0u8 | (len & 31) as u8,
        ;
        self._emit_len(len, (op1, 32), (0xd9, 256), 0xda, 0xdb);
        assert(len_header(len as nat, op1, 32, 0xd9, 256, 0xda, 0xdb) =~= str_header(len as nat));
    }

    fn _emit_bin_len(&mut self, len: usize)
        requires
            len <= u32::MAX,
        ensures
            final(self)@ == old(self)@ + bin_header(len as nat),
    {
        self._emit_len(len, (0x00, 0), (0xc4, 256), 0xc5, 0xc6);
        assert(len_header(len as nat, 0x00, 0, 0xc4, 256, 0xc5, 0xc6) =~= bin_header(len as nat));
    }

    fn _emit_array_len(&mut self, len: usize)
        requires
            len <= u32::MAX,
        ensures
            final(self)@ == old(self)@ + array_header(len as nat),
    {
        let op1 = 0x90u8 | (len & 15) as u8;
        assert(len < 16 ==> op1 == (0x90 + len) as u8) by (bit_vector)
            requires
                op1 == 0x90u8 | (len & 15) as u8,
        ;
        self._emit_len(len, (op1, 16), (0x00, 0), 0xdc, 0xdd);
        assert(len_header(len as nat, op1, 16, 0x00, 0, 0xdc, 0xdd) =~= array_header(len as nat));
    }

    fn _emit_map_len(&mut self, len: usize)
        requires
            len <= u32::MAX,
        ensures
            final(self)@ == old(self)@ + map_header(len as nat),
    {
        let op1 = 0x80u8 | (len & 15) as u8;
        assert(len < 16 ==> op1 == (0x80 + len) as u8) by (bit_vector)
            requires
                op1 == 0x80u8 | (len & 15) as u8,
        ;
        self._emit_len(len, (op1, 16), (0x00, 0), 0xde, 0xdf);
        assert(len_header(len as nat, op1, 16, 0x00, 0, 0xde, 0xdf) =~= map_header(len as nat));
    }
}

impl Encoder {
    /// Writes nil.
    pub fn emit_nil(&mut self)
        ensures
            final(self)@ == old(self)@ + enc_nil(),
    {
        self.write_u8(0xc0);
        assert(self@ =~= old(self)@ + enc_nil());
    }

    /// Writes a `usize` in its shortest unsigned form.
    pub fn emit_uint(&mut self, v: usize)
        ensures
            final(self)@ == old(self)@ + enc_unsigned(v as u64),
    {
        self._emit_unsigned(v as u64)
    }

    /// Writes a `u64` in its shortest unsigned form.
    pub fn emit_u64(&mut self, v: u64)
        ensures
            final(self)@ == old(self)@ + enc_unsigned(v),
    {
        self._emit_unsigned(v)
    }

    /// Writes a `u32` in its shortest unsigned form.
    pub fn emit_u32(&mut self, v: u32)
        ensures
            final(self)@ == old(self)@ + enc_unsigned(v as u64),
    {
        self._emit_unsigned(v as u64)
    }

    /// Writes a `u16` in its shortest unsigned form.
    pub fn emit_u16(&mut self, v: u16)
        ensures
            final(self)@ == old(self)@ + enc_unsigned(v as u64),
    {
        self._emit_unsigned(v as u64)
    }

    /// Writes a `u8` in its shortest unsigned form.
    pub fn emit_u8(&mut self, v: u8)
        ensures
            final(self)@ == old(self)@ + enc_unsigned(v as u64),
    {
        self._emit_unsigned(v as u64)
    }

    /// Writes an `isize` in its shortest signed form.
    pub fn emit_int(&mut self, v: isize)
        ensures
            final(self)@ == old(self)@ + enc_signed(v as i64),
    {
        self._emit_signed(v as i64)
    }

    /// Writes an `i64` in its shortest signed form.
    pub fn emit_i64(&mut self, v: i64)
        ensures
            final(self)@ == old(self)@ + enc_signed(v),
    {
        self._emit_signed(v)
    }

    /// Writes an `i32` in its shortest signed form.
    pub fn emit_i32(&mut self, v: i32)
        ensures
            final(self)@ == old(self)@ + enc_signed(v as i64),
    {
        self._emit_signed(v as i64)
    }

    /// Writes an `i16` in its shortest signed form.
    pub fn emit_i16(&mut self, v: i16)
        ensures
            final(self)@ == old(self)@ + enc_signed(v as i64),
    {
        self._emit_signed(v as i64)
    }

    /// Writes an `i8` in its shortest signed form.
    pub fn emit_i8(&mut self, v: i8)
        ensures
            final(self)@ == old(self)@ + enc_signed(v as i64),
    {
        self._emit_signed(v as i64)
    }

    /// Writes a 64-bit float, given by its IEEE-754 bits.
    pub fn emit_f64(&mut self, bits: u64)
        ensures
            final(self)@ == old(self)@ + enc_f64(bits),
    {
        self.write_u8(0xcb);
        self.write_vec(be_write_u64(bits));
        assert(self@ =~= old(self)@ + enc_f64(bits));
    }

    /// Writes a 32-bit float, given by its IEEE-754 bits.
    pub fn emit_f32(&mut self, bits: u32)
        ensures
            final(self)@ == old(self)@ + enc_f32(bits),
    {
        self.write_u8(0xca);
        self.write_vec(be_write_u32(bits));
        assert(self@ =~= old(self)@ + enc_f32(bits));
    }

    /// Writes a boolean.
    pub fn emit_bool(&mut self, v: bool)
        ensures
            final(self)@ == old(self)@ + enc_bool(v),
    {
        if v {
            self.write_u8(0xc3);
        } else {
            self.write_u8(0xc2);
        }
        assert(self@ =~= old(self)@ + enc_bool(v));
    }

    /// Writes a character as a one-character string.
    pub fn emit_char(&mut self, v: char)
        ensures
            final(self)@ == old(self)@ + enc_str(seq![v]),
    {
        let mut s = String::new();
        string_push(&mut s, v);
        assert(s@ =~= seq![v]);
        proof {
            lemma_encode_one_char(v);
        }
        self.emit_str(s.as_str());
    }

    /// Writes a string: its header, then its UTF-8 bytes.
    pub fn emit_str(&mut self, v: &str)
        requires
            encode_utf8(v@).len() <= u32::MAX,
        ensures
            final(self)@ == old(self)@ + enc_str(v@),
    {
        self._emit_str_len(v.len());
        self.write_slice(v.as_bytes());
        assert(self@ =~= old(self)@ + enc_str(v@));
    }

    /// Writes the start of an enum variant with `cnt` arguments: an array
    /// header for `cnt + 1` elements, then the variant's name. The arguments
    /// are written next by the caller.
    pub fn emit_enum_variant(&mut self, name: &str, cnt: usize)
        requires
            cnt < u32::MAX,
            encode_utf8(name@).len() <= u32::MAX,
        ensures
            final(self)@ == old(self)@ + array_header((cnt + 1) as nat) + enc_str(name@),
    {
        self.emit_seq(cnt + 1);
        self.emit_str(name);
        assert(self@ =~= old(self)@ + array_header((cnt + 1) as nat) + enc_str(name@));
    }

    /// Writes the start of a struct-like enum variant: the same as
    /// [`Encoder::emit_enum_variant`].
    pub fn emit_enum_struct_variant(&mut self, name: &str, cnt: usize)
        requires
            cnt < u32::MAX,
            encode_utf8(name@).len() <= u32::MAX,
        ensures
            final(self)@ == old(self)@ + array_header((cnt + 1) as nat) + enc_str(name@),
    {
        self.emit_enum_variant(name, cnt)
    }

    /// Writes the start of a struct of `len` fields: a map header. The
    /// fields are written next by the caller.
    pub fn emit_struct(&mut self, len: usize)
        requires
            len <= u32::MAX,
        ensures
            final(self)@ == old(self)@ + map_header(len as nat),
    {
        self._emit_map_len(len)
    }

    /// Writes the start of a tuple of `len` elements: an array header.
    pub fn emit_tuple(&mut self, len: usize)
        requires
            len <= u32::MAX,
        ensures
            final(self)@ == old(self)@ + array_header(len as nat),
    {
        self.emit_seq(len)
    }

    /// Writes the start of a tuple struct of `len` fields: an array header.
    pub fn emit_tuple_struct(&mut self, len: usize)
        requires
            len <= u32::MAX,
        ensures
            final(self)@ == old(self)@ + array_header(len as nat),
    {
        self.emit_seq(len)
    }

    /// Writes an absent optional value: nil.
    pub fn emit_option_none(&mut self)
        ensures
            final(self)@ == old(self)@ + enc_nil(),
    {
        self.emit_nil()
    }

    /// Writes the start of a sequence of `len` elements: an array header.
    pub fn emit_seq(&mut self, len: usize)
        requires
            len <= u32::MAX,
        ensures
            final(self)@ == old(self)@ + array_header(len as nat),
    {
        self._emit_array_len(len)
    }

    /// Writes the start of a map of `len` entries: a map header.
    pub fn emit_map(&mut self, len: usize)
        requires
            len <= u32::MAX,
        ensures
            final(self)@ == old(self)@ + map_header(len as nat),
    {
        self._emit_map_len(len)
    }

    /// Writes a whole value. Binary blobs and extensions are refused
    /// (`encodable`), as are strings that are not UTF-8.
    pub fn encode_value(&mut self, v: &Value)
        requires
            encodable(v@),
        ensures
            final(self)@ == old(self)@ + enc_value(v@),
        decreases *v,
    {
        match v {
            Value::Nil => self.emit_nil(),
            Value::Boolean(b) => self.emit_bool(*b),
            Value::Integer(i) => self.emit_i64(*i),
            Value::Unsigned(u) => self.emit_u64(*u),
            Value::Float(f) => self.emit_f32(*f),
            Value::Double(d) => self.emit_f64(*d),
            Value::Array(ary) => {
                let ghost vs = values_view(ary@);
                proof {
                    lemma_values_view(ary@);
                    lemma_all_encodable(vs);
                }
                let n = ary.len();
                self.emit_seq(n);
                let ghost start = self@;
                let mut i: usize = 0;
                while i < n
                    invariant
                        n == ary@.len(),
                        vs == values_view(ary@),
                        vs.len() == n,
                        forall|j: int| 0 <= j < n ==> #[trigger] vs[j] == value_view(ary@[j]),
                        forall|j: int| 0 <= j < n ==> encodable(#[trigger] vs[j]),
                        i <= n,
                        self@ == start + enc_values(vs.take(i as int)),
                        *v == Value::Array(*ary),
                    decreases n - i,
                {
                    assert(vs[i as int] == ary@[i as int]@);
                    assert(decreases_to!(*ary => ary[i as int]));
                    assert(decreases_to!(*v => (*v)->Array_0));
                    assert(decreases_to!(*v => ary[i as int]));
                    self.encode_value(&ary[i]);
                    assert(vs.take(i + 1).drop_last() =~= vs.take(i as int));
                    assert(self@ =~= start + enc_values(vs.take(i + 1)));
                    i = i + 1;
                }
                assert(vs.take(n as int) =~= vs);
                assert(self@ =~= old(self)@ + enc_value(v@));
            },
            Value::Mapping(map) => {
                let ghost ps = pairs_view(map@);
                proof {
                    lemma_pairs_view(map@);
                    lemma_all_pairs_encodable(ps);
                }
                let n = map.len();
                self.emit_map(n);
                let ghost start = self@;
                let mut i: usize = 0;
                while i < n
                    invariant
                        n == map@.len(),
                        ps == pairs_view(map@),
                        ps.len() == n,
                        forall|j: int|
                            0 <= j < n ==> #[trigger] ps[j] == (
                            value_view(map@[j].0),
                            value_view(map@[j].1),
                        ),
                        forall|j: int|
                            0 <= j < n ==> encodable((#[trigger] ps[j]).0) && encodable(ps[j].1),
                        i <= n,
                        self@ == start + enc_pairs(ps.take(i as int)),
                        *v == Value::Mapping(*map),
                    decreases n - i,
                {
                    let (key, val) = &map[i];
                    assert(ps[i as int] == (key@, val@));
                    assert(decreases_to!(*map => map[i as int]));
                    assert(decreases_to!(*v => (*v)->Mapping_0));
                    assert(decreases_to!(*v => map[i as int].0));
                    assert(decreases_to!(*v => map[i as int].1));
                    self.encode_value(key);
                    self.encode_value(val);
                    assert(ps.take(i + 1).drop_last() =~= ps.take(i as int));
                    assert(self@ =~= start + enc_pairs(ps.take(i + 1)));
                    i = i + 1;
                }
                assert(ps.take(n as int) =~= ps);
                assert(self@ =~= old(self)@ + enc_value(v@));
            },
            Value::Str(bytes) => {
                match str_from_utf8(bytes.as_slice()) {
                    Some(s) => {
                        self.emit_str(s);
                    },
                    None => {},
                }
            },
            Value::Binary(_) => {},
            Value::Extended(_, _) => {},
        }
    }
}

/// The UTF-8 form of one character is at most four bytes long.
proof fn lemma_encode_one_char(c: char)
    ensures
        encode_utf8(seq![c]).len() <= 4,
{
    assert(seq![c].drop_first() =~= Seq::<char>::empty());
    reveal_with_fuel(encode_utf8, 2);
}

} // verus!
