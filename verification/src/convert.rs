//! Range-checked integer narrowing through `num`.
use num::ToPrimitive;
use vstd::prelude::*;

verus! {

/// `num::traits::cast::<u64, usize>`: `Some(v)` exactly when `v` fits in `usize`.
#[verifier::external_body]
pub(crate) fn cast_u64_to_usize(v: u64) -> (r: Option<usize>)
    ensures
        r == (if v <= usize::MAX {
            Some(v as usize)
        } else {
            None::<usize>
        }),
{
    num::traits::cast(v)
}

/// `ToPrimitive::to_u32` on a `u64`: `Some(v)` exactly when `v` fits in `u32`.
#[verifier::external_body]
pub(crate) fn u64_to_u32(v: u64) -> (r: Option<u32>)
    ensures
        r == (if v <= u32::MAX {
            Some(v as u32)
        } else {
            None::<u32>
        }),
{
    v.to_u32()
}

/// `ToPrimitive::to_u16` on a `u64`: `Some(v)` exactly when `v` fits in `u16`.
#[verifier::external_body]
pub(crate) fn u64_to_u16(v: u64) -> (r: Option<u16>)
    ensures
        r == (if v <= u16::MAX {
            Some(v as u16)
        } else {
            None::<u16>
        }),
{
    v.to_u16()
}

/// `ToPrimitive::to_u8` on a `u64`: `Some(v)` exactly when `v` fits in `u8`.
#[verifier::external_body]
pub(crate) fn u64_to_u8(v: u64) -> (r: Option<u8>)
    ensures
        r == (if v <= u8::MAX {
            Some(v as u8)
        } else {
            None::<u8>
        }),
{
    v.to_u8()
}

/// `num::traits::cast::<i64, isize>`: `Some(v)` exactly when `v` fits in `isize`.
#[verifier::external_body]
pub(crate) fn cast_i64_to_isize(v: i64) -> (r: Option<isize>)
    ensures
        r == (if isize::MIN <= v <= isize::MAX {
            Some(v as isize)
        } else {
            None::<isize>
        }),
{
    num::traits::cast(v)
}

/// `ToPrimitive::to_i32` on an `i64`: `Some(v)` exactly when `v` fits in `i32`.
#[verifier::external_body]
pub(crate) fn i64_to_i32(v: i64) -> (r: Option<i32>)
    ensures
        r == (if i32::MIN <= v <= i32::MAX {
            Some(v as i32)
        } else {
            None::<i32>
        }),
{
    v.to_i32()
}

/// `ToPrimitive::to_i16` on an `i64`: `Some(v)` exactly when `v` fits in `i16`.
#[verifier::external_body]
pub(crate) fn i64_to_i16(v: i64) -> (r: Option<i16>)
    ensures
        r == (if i16::MIN <= v <= i16::MAX {
            Some(v as i16)
        } else {
            None::<i16>
        }),
{
    v.to_i16()
}

/// `ToPrimitive::to_i8` on an `i64`: `Some(v)` exactly when `v` fits in `i8`.
#[verifier::external_body]
pub(crate) fn i64_to_i8(v: i64) -> (r: Option<i8>)
    ensures
        r == (if i8::MIN <= v <= i8::MAX {
            Some(v as i8)
        } else {
            None::<i8>
        }),
{
    v.to_i8()
}

} // verus!
