//! The binary encoding: an 80-byte header, a little-endian triangle count,
//! then one 50-byte record per triangle.

use crate::mesh::{Triangle, Vec3};
use byteorder::ByteOrder;
use vstd::prelude::*;
use vstd::slice::slice_subrange;

verus! {

/// Length of the header that precedes the triangle count.
pub const HEADER_SIZE: usize = 80;

/// Offset of the first record: the header and the four bytes of the count.
pub const RECORDS_START: usize = 84;

/// Length of one record: twelve values of four bytes and a two-byte
/// attribute field.
pub const TRIANGLE_SIZE: usize = 50;

/// The 32-bit value whose little-endian bytes stand at `at` in `s`.
pub open spec fn le_u32(s: Seq<u8>, at: int) -> u32 {
    (s[at] as int + 256 * (s[at + 1] as int) + 65536 * (s[at + 2] as int) + 16777216 * (s[at
        + 3] as int)) as u32
}

/// The three values that stand at `at` in `s`.
pub open spec fn vec3_at(s: Seq<u8>, at: int) -> Vec3 {
    Vec3 { x: le_u32(s, at), y: le_u32(s, at + 4), z: le_u32(s, at + 8) }
}

/// The triangle of the record at `at`: the normal, then the three vertices.
/// The record's last two bytes are not part of the triangle.
pub open spec fn record_at(s: Seq<u8>, at: int) -> Triangle {
    Triangle {
        vertices: [vec3_at(s, at + 12), vec3_at(s, at + 24), vec3_at(s, at + 36)],
        normal: vec3_at(s, at),
    }
}

/// The triangle count that a binary file declares.
pub open spec fn declared_count(data: Seq<u8>) -> int {
    le_u32(data, HEADER_SIZE as int) as int
}

/// Whether the data has exactly the length that its declared count gives a
/// binary file. Data of any other length is read as text.
pub open spec fn is_binary(data: Seq<u8>) -> bool {
    data.len() >= RECORDS_START && data.len() == RECORDS_START + TRIANGLE_SIZE * declared_count(
        data,
    )
}

/// `byteorder::LittleEndian::read_u32`: the value of the first four bytes
/// of `buf`, the first byte being the lowest. It panics on fewer than four
/// bytes.
#[verifier::external_body]
fn read_u32_le(buf: &[u8]) -> (value: u32)
    requires
        buf@.len() >= 4,
    ensures
        value == le_u32(buf@, 0),
{
    byteorder::LittleEndian::read_u32(buf)
}

/// The 32-bit little-endian value at `at`.
pub fn u32_at(data: &[u8], at: usize) -> (value: u32)
    requires
        at + 4 <= data.len(),
    ensures
        value == le_u32(data@, at as int),
{
    read_u32_le(slice_subrange(data, at, at + 4))
}

fn read_vec3(data: &[u8], at: usize) -> (v: Vec3)
    requires
        at + 12 <= data.len(),
    ensures
        v == vec3_at(data@, at as int),
{
    Vec3 { x: u32_at(data, at), y: u32_at(data, at + 4), z: u32_at(data, at + 8) }
}

/// Decodes the record at `at`.
pub fn read_record(data: &[u8], at: usize) -> (t: Triangle)
    requires
        at + TRIANGLE_SIZE <= data.len(),
    ensures
        t == record_at(data@, at as int),
{
    let normal = read_vec3(data, at);
    let v0 = read_vec3(data, at + 12);
    let v1 = read_vec3(data, at + 24);
    let v2 = read_vec3(data, at + 36);
    Triangle { vertices: [v0, v1, v2], normal }
}

/// Whether the data is a binary file.
pub fn detect_binary(data: &[u8]) -> (r: bool)
    requires
        data.len() >= RECORDS_START,
    ensures
        r == is_binary(data@),
{
    let count = u32_at(data, HEADER_SIZE) as u64;
    count * 50 + 84 == data.len() as u64
}

} // verus!
