// Each value is written with the encoder and read back with the decoder,
// through the calls that the serialisation of its type makes.
use msgpack::decoder::Decoder;
use msgpack::encoder::Encoder;
use std::collections::HashMap;

fn decoder_of(e: Encoder) -> Decoder {
    Decoder::new(e.into_bytes())
}

fn circular_str(s: &str) {
    let mut e = Encoder::new(Vec::new());
    e.emit_str(s);
    let mut d = decoder_of(e);
    assert_eq!(d.read_str().unwrap(), s.to_string());
}

#[test]
fn test_circular_str() {
    circular_str("");
    circular_str("a");
    circular_str("abcdef");
}

fn circular_isize(v: isize) {
    let mut e = Encoder::new(Vec::new());
    e.emit_int(v);
    let mut d = decoder_of(e);
    assert_eq!(d.read_int().unwrap(), v);
}

#[test]
fn test_circular_isize() {
    circular_isize(123isize);
    circular_isize(-123isize);
}

#[test]
fn test_circular_float() {
    let v = -1243.111 as f32;
    let mut e = Encoder::new(Vec::new());
    e.emit_f32(v.to_bits());
    let mut d = decoder_of(e);
    assert_eq!(f32::from_bits(d.read_f32().unwrap()), v);
}

fn circular_bool(v: bool) {
    let mut e = Encoder::new(Vec::new());
    e.emit_bool(v);
    let mut d = decoder_of(e);
    assert_eq!(d.read_bool().unwrap(), v);
}

#[test]
fn test_circular_bool() {
    circular_bool(true);
    circular_bool(false);
}

fn encode_isize_vec(e: &mut Encoder, v: &Vec<isize>) {
    e.emit_seq(v.len());
    for x in v {
        e.emit_int(*x);
    }
}

fn decode_isize_vec(d: &mut Decoder) -> Vec<isize> {
    let len = d.read_seq().unwrap();
    let mut v = Vec::new();
    for _ in 0..len {
        v.push(d.read_int().unwrap());
    }
    v
}

#[test]
fn test_circular_list() {
    let v: Vec<isize> = vec![1, 2, 3];
    let mut e = Encoder::new(Vec::new());
    encode_isize_vec(&mut e, &v);
    let mut d = decoder_of(e);
    assert_eq!(decode_isize_vec(&mut d), v);
}

#[test]
fn test_circular_map() {
    let mut v = HashMap::new();
    v.insert(1isize, 2isize);
    v.insert(3isize, 4isize);
    let mut e = Encoder::new(Vec::new());
    e.emit_map(v.len());
    for (k, x) in v.iter() {
        e.emit_int(*k);
        e.emit_int(*x);
    }
    let mut d = decoder_of(e);
    let len = d.read_map().unwrap();
    let mut back = HashMap::new();
    for _ in 0..len {
        let k = d.read_int().unwrap();
        let x = d.read_int().unwrap();
        back.insert(k, x);
    }
    assert_eq!(back, v);
}

fn encode_option(e: &mut Encoder, v: &Option<isize>) {
    match v {
        None => e.emit_option_none(),
        Some(x) => e.emit_int(*x),
    }
}

fn decode_option(d: &mut Decoder) -> Option<isize> {
    if d.read_option().unwrap() {
        Some(d.read_int().unwrap())
    } else {
        None
    }
}

fn circular_option(v: Option<isize>) {
    let mut e = Encoder::new(Vec::new());
    encode_option(&mut e, &v);
    let mut d = decoder_of(e);
    assert_eq!(decode_option(&mut d), v);
}

#[test]
fn test_circular_option() {
    let v: Option<isize> = Some(1);
    circular_option(v);

    let v: Option<isize> = None;
    circular_option(v);
}

fn circular_option_pair(v: (Option<isize>, Option<isize>)) {
    let mut e = Encoder::new(Vec::new());
    e.emit_tuple(2);
    encode_option(&mut e, &v.0);
    encode_option(&mut e, &v.1);
    let mut d = decoder_of(e);
    d.read_tuple(2).unwrap();
    let a = decode_option(&mut d);
    let b = decode_option(&mut d);
    assert_eq!((a, b), v);
}

#[test]
fn test_circular_embedded_option() {
    let v: (Option<isize>, Option<isize>) = (None, Some(1));
    circular_option_pair(v);

    let v: (Option<isize>, Option<isize>) = (Some(1), Some(1));
    circular_option_pair(v);
}

#[test]
fn test_circular_char() {
    let mut e = Encoder::new(Vec::new());
    e.emit_char('a');
    let mut d = decoder_of(e);
    assert_eq!(d.read_char().unwrap(), 'a');
}

#[derive(PartialEq, Debug)]
struct S {
    f: u8,
    g: u16,
    i: String,
    a: Vec<u32>,
    c: HashMap<u32, u32>,
}

fn encode_s(e: &mut Encoder, s: &S) {
    e.emit_struct(5);
    e.emit_u8(s.f);
    e.emit_u16(s.g);
    e.emit_str(&s.i);
    e.emit_seq(s.a.len());
    for x in &s.a {
        e.emit_u32(*x);
    }
    e.emit_map(s.c.len());
    for (k, x) in s.c.iter() {
        e.emit_u32(*k);
        e.emit_u32(*x);
    }
}

fn decode_s(d: &mut Decoder) -> S {
    d.read_struct(5).unwrap();
    let f = d.read_u8().unwrap();
    let g = d.read_u16().unwrap();
    let i = d.read_str().unwrap();
    let n = d.read_seq().unwrap();
    let mut a = Vec::new();
    for _ in 0..n {
        a.push(d.read_u32().unwrap());
    }
    let m = d.read_map().unwrap();
    let mut c = HashMap::new();
    for _ in 0..m {
        let k = d.read_u32().unwrap();
        let x = d.read_u32().unwrap();
        c.insert(k, x);
    }
    S { f, g, i, a, c }
}

#[test]
fn test_circular_struct() {
    let mut c = HashMap::new();
    c.insert(1u32, 2u32);
    c.insert(2u32, 3u32);

    let s1 = S { f: 1u8, g: 2u16, i: "foo".to_string(), a: vec![], c: c.clone() };
    let s2 = S { f: 5u8, g: 1u16, i: "bar".to_string(), a: vec![1, 2, 3], c: c.clone() };
    let s = vec![s1, s2];

    let mut e = Encoder::new(Vec::new());
    e.emit_seq(s.len());
    for x in &s {
        encode_s(&mut e, x);
    }
    let mut d = decoder_of(e);
    let n = d.read_seq().unwrap();
    let mut back = Vec::new();
    for _ in 0..n {
        back.push(decode_s(&mut d));
    }
    assert_eq!(back, s);
}

fn from_char(mut n: usize, c: char) -> String {
    let mut s = String::new();
    while n > 0 {
        s.push(c);
        n -= 1;
    }
    s
}

#[test]
fn test_circular_str_lengths() {
    circular_str(&from_char(4, 'a'));
    circular_str(&from_char(32, 'a'));
    circular_str(&from_char(256, 'a'));
    circular_str(&from_char(0x10000, 'a'));
}

#[derive(PartialEq, Debug)]
enum Animal {
    Dog,
    Frog(String, usize),
}

fn encode_animal(e: &mut Encoder, a: &Animal) {
    match a {
        Animal::Dog => e.emit_enum_variant("Dog", 0),
        Animal::Frog(name, n) => {
            e.emit_enum_variant("Frog", 2);
            e.emit_str(name);
            e.emit_uint(*n);
        },
    }
}

fn decode_animal(d: &mut Decoder) -> Animal {
    match d.read_enum_variant(&["Dog", "Frog"]).unwrap() {
        0 => Animal::Dog,
        1 => {
            let name = d.read_str().unwrap();
            let n = d.read_uint().unwrap();
            Animal::Frog(name, n)
        },
        _ => unreachable!(),
    }
}

fn circular_animal(a: Animal) {
    let mut e = Encoder::new(Vec::new());
    encode_animal(&mut e, &a);
    let mut d = decoder_of(e);
    assert_eq!(decode_animal(&mut d), a);
}

#[test]
fn test_circular_enum() {
    circular_animal(Animal::Dog);
    circular_animal(Animal::Frog("Henry".to_string(), 349));
}
