//! Big-endian numbers: what their bytes are, what bytes spell, and the
//! outside functions that read and write them.

use byteorder::{BigEndian, WriteBytesExt};
use vstd::arithmetic::div_mod::{
    lemma_fundamental_div_mod, lemma_fundamental_div_mod_converse, lemma_mod_bound,
};
use vstd::prelude::*;

verus! {

/// The signed reading, in two's complement, of an unsigned number below
/// `modulus`.
pub open spec fn as_signed(u: int, modulus: int) -> int {
    if 2 * u >= modulus {
        u - modulus
    } else {
        u
    }
}

/// The unsigned number that the first two bytes spell, most significant first.
pub open spec fn be_u16_value(b: Seq<u8>) -> int
    recommends
        b.len() >= 2,
{
    b[0] as int * 0x100 + b[1] as int
}

/// The unsigned number that the first four bytes spell, most significant first.
pub open spec fn be_u32_value(b: Seq<u8>) -> int
    recommends
        b.len() >= 4,
{
    b[0] as int * 0x100_0000 + b[1] as int * 0x1_0000 + b[2] as int * 0x100 + b[3] as int
}

/// The unsigned number that the first eight bytes spell, most significant first.
pub open spec fn be_u64_value(b: Seq<u8>) -> int
    recommends
        b.len() >= 8,
{
    b[0] as int * 0x100_0000_0000_0000 + b[1] as int * 0x1_0000_0000_0000 + b[2] as int
        * 0x100_0000_0000 + b[3] as int * 0x1_0000_0000 + b[4] as int * 0x100_0000 + b[5] as int
        * 0x1_0000 + b[6] as int * 0x100 + b[7] as int
}

/// The signed number that the first byte spells.
pub open spec fn be_i8_value(b: Seq<u8>) -> int
    recommends
        b.len() >= 1,
{
    as_signed(b[0] as int, 0x100)
}

/// The signed number that the first two bytes spell.
pub open spec fn be_i16_value(b: Seq<u8>) -> int
    recommends
        b.len() >= 2,
{
    as_signed(be_u16_value(b), 0x1_0000)
}

/// The signed number that the first four bytes spell.
pub open spec fn be_i32_value(b: Seq<u8>) -> int
    recommends
        b.len() >= 4,
{
    as_signed(be_u32_value(b), 0x1_0000_0000)
}

/// The signed number that the first eight bytes spell.
pub open spec fn be_i64_value(b: Seq<u8>) -> int
    recommends
        b.len() >= 8,
{
    as_signed(be_u64_value(b), 0x1_0000_0000_0000_0000)
}

/// The lowest byte of `n`, in two's complement where `n` is negative.
pub open spec fn low_byte(n: int) -> u8 {
    (n % 0x100) as u8
}

/// The one byte of `n` modulo 2^8.
pub open spec fn be_bytes_1(n: int) -> Seq<u8> {
    seq![low_byte(n)]
}

/// The two bytes of `n` modulo 2^16, most significant first.
pub open spec fn be_bytes_2(n: int) -> Seq<u8> {
    seq![low_byte(n / 0x100), low_byte(n)]
}

/// The four bytes of `n` modulo 2^32, most significant first.
pub open spec fn be_bytes_4(n: int) -> Seq<u8> {
    seq![low_byte(n / 0x100_0000), low_byte(n / 0x1_0000), low_byte(n / 0x100), low_byte(n)]
}

/// The eight bytes of `n` modulo 2^64, most significant first.
pub open spec fn be_bytes_8(n: int) -> Seq<u8> {
    seq![
        low_byte(n / 0x100_0000_0000_0000),
        low_byte(n / 0x1_0000_0000_0000),
        low_byte(n / 0x100_0000_0000),
        low_byte(n / 0x1_0000_0000),
        low_byte(n / 0x100_0000),
        low_byte(n / 0x1_0000),
        low_byte(n / 0x100),
        low_byte(n),
    ]
}

/// Dividing by `a` and then by `b` is dividing by `a * b`, and the
/// remainder by `a * b` is made of the two remainders.
proof fn lemma_split(n: int, a: int, b: int)
    requires
        a > 0,
        b > 0,
    ensures
        a * b > 0,
        (n / a) / b == n / (a * b),
        n % (a * b) == a * ((n / a) % b) + n % a,
{
    let q1 = n / a;
    let r1 = n % a;
    let q2 = q1 / b;
    let r2 = q1 % b;
    lemma_fundamental_div_mod(n, a);
    lemma_fundamental_div_mod(q1, b);
    lemma_mod_bound(n, a);
    lemma_mod_bound(q1, b);
    assert(n == q2 * (a * b) + (a * r2 + r1)) by (nonlinear_arith)
        requires
            n == a * q1 + r1,
            q1 == b * q2 + r2,
    ;
    assert(0 <= a * r2 + r1 < a * b) by (nonlinear_arith)
        requires
            0 <= r1 < a,
            0 <= r2 < b,
    ;
    lemma_fundamental_div_mod_converse(n, a * b, q2, a * r2 + r1);
}

/// The two lowest base-256 digits of `n` make up `n` modulo 2^16.
proof fn lemma_digits_2(n: int)
    ensures
        (n / 0x100 % 0x100) * 0x100 + n % 0x100 == n % 0x1_0000,
{
    lemma_split(n, 0x100, 0x100);
}

/// The four lowest base-256 digits of `n` make up `n` modulo 2^32.
proof fn lemma_digits_4(n: int)
    ensures
        (n / 0x100_0000 % 0x100) * 0x100_0000 + (n / 0x1_0000 % 0x100) * 0x1_0000 + (n / 0x100
            % 0x100) * 0x100 + n % 0x100 == n % 0x1_0000_0000,
{
    lemma_split(n, 0x1_0000, 0x1_0000);
    lemma_split(n, 0x1_0000, 0x100);
    lemma_digits_2(n);
    lemma_digits_2(n / 0x1_0000);
}

/// The eight lowest base-256 digits of `n` make up `n` modulo 2^64.
proof fn lemma_digits_8(n: int)
    ensures
        (n / 0x100_0000_0000_0000 % 0x100) * 0x100_0000_0000_0000 + (n / 0x1_0000_0000_0000
            % 0x100) * 0x1_0000_0000_0000 + (n / 0x100_0000_0000 % 0x100) * 0x100_0000_0000 + (n
            / 0x1_0000_0000 % 0x100) * 0x1_0000_0000 + (n / 0x100_0000 % 0x100) * 0x100_0000 + (n
            / 0x1_0000 % 0x100) * 0x1_0000 + (n / 0x100 % 0x100) * 0x100 + n % 0x100 == n
            % 0x1_0000_0000_0000_0000,
{
    lemma_split(n, 0x1_0000_0000, 0x1_0000_0000);
    lemma_split(n, 0x1_0000_0000, 0x100);
    lemma_split(n, 0x1_0000_0000, 0x1_0000);
    lemma_split(n, 0x1_0000_0000, 0x100_0000);
    lemma_digits_4(n);
    lemma_digits_4(n / 0x1_0000_0000);
}

/// What the bytes of `n` spell, whatever follows them, is `n` modulo the
/// number of values of their width.
pub proof fn lemma_value_of_bytes(n: int, tail: Seq<u8>)
    ensures
        (be_bytes_1(n) + tail)[0] as int == n % 0x100,
        be_u16_value(be_bytes_2(n) + tail) == n % 0x1_0000,
        be_u32_value(be_bytes_4(n) + tail) == n % 0x1_0000_0000,
        be_u64_value(be_bytes_8(n) + tail) == n % 0x1_0000_0000_0000_0000,
{
    lemma_digits_2(n);
    lemma_digits_4(n);
    lemma_digits_8(n);
    let b8 = be_bytes_8(n) + tail;
    assert(b8[0] == low_byte(n / 0x100_0000_0000_0000) && b8[1] == low_byte(
        n / 0x1_0000_0000_0000,
    ) && b8[2] == low_byte(n / 0x100_0000_0000) && b8[3] == low_byte(n / 0x1_0000_0000));
}

/// The bytes of a number depend only on its residue modulo the number of
/// values of their width.
pub proof fn lemma_bytes_of_residue(n: int)
    ensures
        be_bytes_1(n % 0x100) == be_bytes_1(n),
        be_bytes_2(n % 0x1_0000) == be_bytes_2(n),
        be_bytes_4(n % 0x1_0000_0000) == be_bytes_4(n),
{
    let q2 = n / 0x1_0000;
    let m2 = n % 0x1_0000;
    assert(n / 0x100 == m2 / 0x100 + 0x100 * q2);
    let q4 = n / 0x1_0000_0000;
    let m4 = n % 0x1_0000_0000;
    assert(n == m4 + 0x1_0000_0000 * q4);
    assert(n / 0x100 == m4 / 0x100 + 0x100_0000 * q4);
    assert(n / 0x1_0000 == m4 / 0x1_0000 + 0x1_0000 * q4);
    assert(n / 0x100_0000 == m4 / 0x100_0000 + 0x100 * q4);
}

/// Reading the bytes of a number gives the number back, whatever follows
/// them: unsigned numbers of each width.
pub proof fn lemma_unsigned_round_trip(n: int, tail: Seq<u8>)
    ensures
        0 <= n < 0x1_0000 ==> be_u16_value(be_bytes_2(n) + tail) == n,
        0 <= n < 0x1_0000_0000 ==> be_u32_value(be_bytes_4(n) + tail) == n,
        0 <= n < 0x1_0000_0000_0000_0000 ==> be_u64_value(be_bytes_8(n) + tail) == n,
{
    lemma_value_of_bytes(n, tail);
}

/// Reading the bytes of a number gives the number back, whatever follows
/// them: signed numbers of each width.
pub proof fn lemma_signed_round_trip(n: int, tail: Seq<u8>)
    ensures
        -0x80 <= n < 0x80 ==> be_i8_value(be_bytes_1(n) + tail) == n,
        -0x8000 <= n < 0x8000 ==> be_i16_value(be_bytes_2(n) + tail) == n,
        -0x8000_0000 <= n < 0x8000_0000 ==> be_i32_value(be_bytes_4(n) + tail) == n,
        -0x8000_0000_0000_0000 <= n < 0x8000_0000_0000_0000 ==> be_i64_value(
            be_bytes_8(n) + tail,
        ) == n,
{
    lemma_value_of_bytes(n, tail);
}

/// The failure that nom's parsers return. Nothing is read out of it.
#[verifier::external_type_specification]
#[verifier::external_body]
#[verifier::reject_recursive_types(I)]
#[verifier::reject_recursive_types(E)]
pub struct ExNomErr<I, E>(nom::Err<I, E>);

/// `nom::be_i8` fails on an empty input. Otherwise it returns the first byte,
/// read as a signed number, and the input after it.
pub assume_specification[ nom::be_i8 ](i: &[u8]) -> (r: nom::IResult<&[u8], i8>)
    ensures
        i@.len() < 1 ==> r is Err,
        i@.len() >= 1 ==> r is Ok && r->Ok_0.0@ == i@.skip(1) && r->Ok_0.1 as int == be_i8_value(
            i@,
        ),
;

/// `nom::be_i16` fails on fewer than two bytes. Otherwise it returns the
/// signed number that the first two spell, and the input after them.
pub assume_specification[ nom::be_i16 ](i: &[u8]) -> (r: nom::IResult<&[u8], i16>)
    ensures
        i@.len() < 2 ==> r is Err,
        i@.len() >= 2 ==> r is Ok && r->Ok_0.0@ == i@.skip(2) && r->Ok_0.1 as int == be_i16_value(
            i@,
        ),
;

/// `nom::be_i32` fails on fewer than four bytes. Otherwise it returns the
/// signed number that the first four spell, and the input after them.
pub assume_specification[ nom::be_i32 ](i: &[u8]) -> (r: nom::IResult<&[u8], i32>)
    ensures
        i@.len() < 4 ==> r is Err,
        i@.len() >= 4 ==> r is Ok && r->Ok_0.0@ == i@.skip(4) && r->Ok_0.1 as int == be_i32_value(
            i@,
        ),
;

/// `nom::be_i64` fails on fewer than eight bytes. Otherwise it returns the
/// signed number that the first eight spell, and the input after them.
pub assume_specification[ nom::be_i64 ](i: &[u8]) -> (r: nom::IResult<&[u8], i64>)
    ensures
        i@.len() < 8 ==> r is Err,
        i@.len() >= 8 ==> r is Ok && r->Ok_0.0@ == i@.skip(8) && r->Ok_0.1 as int == be_i64_value(
            i@,
        ),
;

/// `nom::be_u16` fails on fewer than two bytes. Otherwise it returns the
/// unsigned number that the first two spell, and the input after them.
pub assume_specification[ nom::be_u16 ](i: &[u8]) -> (r: nom::IResult<&[u8], u16>)
    ensures
        i@.len() < 2 ==> r is Err,
        i@.len() >= 2 ==> r is Ok && r->Ok_0.0@ == i@.skip(2) && r->Ok_0.1 as int == be_u16_value(
            i@,
        ),
;

/// `nom::be_u32` fails on fewer than four bytes. Otherwise it returns the
/// unsigned number that the first four spell, and the input after them.
pub assume_specification[ nom::be_u32 ](i: &[u8]) -> (r: nom::IResult<&[u8], u32>)
    ensures
        i@.len() < 4 ==> r is Err,
        i@.len() >= 4 ==> r is Ok && r->Ok_0.0@ == i@.skip(4) && r->Ok_0.1 as int == be_u32_value(
            i@,
        ),
;

/// `nom::be_u64` fails on fewer than eight bytes. Otherwise it returns the
/// unsigned number that the first eight spell, and the input after them.
pub assume_specification[ nom::be_u64 ](i: &[u8]) -> (r: nom::IResult<&[u8], u64, u32>)
    ensures
        i@.len() < 8 ==> r is Err,
        i@.len() >= 8 ==> r is Ok && r->Ok_0.0@ == i@.skip(8) && r->Ok_0.1 as int == be_u64_value(
            i@,
        ),
;

/// Calls byteorder's `write_i8` on the vector, which appends the one byte of
/// `value`.
#[verifier::external_body]
pub(crate) fn put_i8(output: &mut Vec<u8>, value: i8)
    ensures
        final(output)@ == old(output)@ + be_bytes_1(value as int),
{
    let _ = output.write_i8(value);
}

/// Calls byteorder's `write_i16` with `BigEndian` on the vector, which
/// appends the two bytes of `value`, most significant first.
#[verifier::external_body]
pub(crate) fn put_i16(output: &mut Vec<u8>, value: i16)
    ensures
        final(output)@ == old(output)@ + be_bytes_2(value as int),
{
    let _ = output.write_i16::<BigEndian>(value);
}

/// Calls byteorder's `write_i32` with `BigEndian` on the vector, which
/// appends the four bytes of `value`, most significant first.
#[verifier::external_body]
pub(crate) fn put_i32(output: &mut Vec<u8>, value: i32)
    ensures
        final(output)@ == old(output)@ + be_bytes_4(value as int),
{
    let _ = output.write_i32::<BigEndian>(value);
}

/// Calls byteorder's `write_i64` with `BigEndian` on the vector, which
/// appends the eight bytes of `value`, most significant first.
#[verifier::external_body]
pub(crate) fn put_i64(output: &mut Vec<u8>, value: i64)
    ensures
        final(output)@ == old(output)@ + be_bytes_8(value as int),
{
    let _ = output.write_i64::<BigEndian>(value);
}

/// Calls byteorder's `write_u16` with `BigEndian` on the vector, which
/// appends the two bytes of `value`, most significant first.
#[verifier::external_body]
pub(crate) fn put_u16(output: &mut Vec<u8>, value: u16)
    ensures
        final(output)@ == old(output)@ + be_bytes_2(value as int),
{
    let _ = output.write_u16::<BigEndian>(value);
}

/// Calls byteorder's `write_u32` with `BigEndian` on the vector, which
/// appends the four bytes of `value`, most significant first.
#[verifier::external_body]
pub(crate) fn put_u32(output: &mut Vec<u8>, value: u32)
    ensures
        final(output)@ == old(output)@ + be_bytes_4(value as int),
{
    let _ = output.write_u32::<BigEndian>(value);
}

/// Calls byteorder's `write_u64` with `BigEndian` on the vector, which
/// appends the eight bytes of `value`, most significant first.
#[verifier::external_body]
pub(crate) fn put_u64(output: &mut Vec<u8>, value: u64)
    ensures
        final(output)@ == old(output)@ + be_bytes_8(value as int),
{
    let _ = output.write_u64::<BigEndian>(value);
}

} // verus!
