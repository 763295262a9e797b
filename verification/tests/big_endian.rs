use minecraft_world_optimizer::big_endian::{
    from_i16, from_i32, from_i64, from_i8, push_u16, push_u32, push_u64, read_u16, read_u32,
    read_u64, to_i16, to_i32, to_i64, to_i8,
};
use minecraft_world_optimizer::region_loader::get_u32::get_u32;

#[test]
fn reads_are_big_endian() {
    let data: Vec<u8> = vec![0x01, 0x02, 0x03, 0x04, 0x05, 0x06, 0x07, 0x08, 0x09];
    assert_eq!(read_u16(&data, 0), 0x0102);
    assert_eq!(read_u16(&data, 7), 0x0809);
    assert_eq!(read_u32(&data, 0), 0x01020304);
    assert_eq!(read_u32(&data, 5), 0x06070809);
    assert_eq!(read_u64(&data, 0), 0x0102030405060708);
    assert_eq!(read_u64(&data, 1), 0x0203040506070809);
}

#[test]
fn get_u32_reads_a_table_entry() {
    let data: Vec<u8> = vec![0xff, 0x00, 0x00, 0x02, 0x01, 0xff];
    assert_eq!(get_u32(&data, 1), 0x00000201);
    assert_eq!(get_u32(&data, 0), 0xff000002);
    assert_eq!(get_u32(&data, 2), 0x000201ff);
}

#[test]
fn pushes_are_big_endian() {
    let mut out: Vec<u8> = vec![0xaa];
    push_u16(&mut out, 0x0102);
    push_u32(&mut out, 0x03040506);
    push_u64(&mut out, 0x0708090a0b0c0d0e);
    assert_eq!(
        out,
        vec![0xaa, 1, 2, 3, 4, 5, 6, 7, 8, 9, 10, 11, 12, 13, 14]
    );
}

#[test]
fn extremes_are_written_and_read() {
    let mut out: Vec<u8> = Vec::new();
    push_u16(&mut out, u16::MAX);
    push_u32(&mut out, u32::MAX);
    push_u64(&mut out, u64::MAX);
    push_u16(&mut out, 0);
    push_u32(&mut out, 0);
    push_u64(&mut out, 0);
    assert_eq!(out.len(), 28);
    assert_eq!(read_u16(&out, 0), u16::MAX);
    assert_eq!(read_u32(&out, 2), u32::MAX);
    assert_eq!(read_u64(&out, 6), u64::MAX);
    assert_eq!(read_u16(&out, 14), 0);
    assert_eq!(read_u32(&out, 16), 0);
    assert_eq!(read_u64(&out, 20), 0);
}

#[test]
fn twos_complement_readings() {
    assert_eq!(to_i8(0), 0);
    assert_eq!(to_i8(127), 127);
    assert_eq!(to_i8(128), -128);
    assert_eq!(to_i8(255), -1);
    assert_eq!(to_i16(0x7fff), i16::MAX);
    assert_eq!(to_i16(0x8000), i16::MIN);
    assert_eq!(to_i16(0xffff), -1);
    assert_eq!(to_i32(0x7fff_ffff), i32::MAX);
    assert_eq!(to_i32(0x8000_0000), i32::MIN);
    assert_eq!(to_i32(0xffff_ffff), -1);
    assert_eq!(to_i64(0x7fff_ffff_ffff_ffff), i64::MAX);
    assert_eq!(to_i64(0x8000_0000_0000_0000), i64::MIN);
    assert_eq!(to_i64(0xffff_ffff_ffff_ffff), -1);
}

#[test]
fn twos_complement_writings() {
    assert_eq!(from_i8(-1), 255);
    assert_eq!(from_i8(-128), 128);
    assert_eq!(from_i8(5), 5);
    assert_eq!(from_i16(-1), 0xffff);
    assert_eq!(from_i16(i16::MIN), 0x8000);
    assert_eq!(from_i32(-2), 0xffff_fffe);
    assert_eq!(from_i32(i32::MIN), 0x8000_0000);
    assert_eq!(from_i32(i32::MAX), 0x7fff_ffff);
    assert_eq!(from_i64(-1), u64::MAX);
    assert_eq!(from_i64(i64::MIN), 0x8000_0000_0000_0000);
    assert_eq!(from_i64(i64::MAX), 0x7fff_ffff_ffff_ffff);
}

#[test]
fn signed_numbers_come_back() {
    for v in [i8::MIN, -1, 0, 1, i8::MAX] {
        assert_eq!(to_i8(from_i8(v)), v);
    }
    for v in [i16::MIN, -1, 0, 1, i16::MAX] {
        assert_eq!(to_i16(from_i16(v)), v);
    }
    for v in [i32::MIN, -1, 0, 1, i32::MAX] {
        assert_eq!(to_i32(from_i32(v)), v);
    }
    for v in [i64::MIN, -1, 0, 1, i64::MAX] {
        assert_eq!(to_i64(from_i64(v)), v);
    }
}
