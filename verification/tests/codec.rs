use cerebros_numerics::{read_fp16_le_slice, write_fp16_le_slice};

#[test]
fn reads_low_byte_first() {
    assert_eq!(read_fp16_le_slice(&[0x34, 0x12]), vec![0x1234]);
    assert_eq!(
        read_fp16_le_slice(&[0x00, 0x3c, 0xff, 0x7b, 0x01, 0x80]),
        vec![0x3c00, 0x7bff, 0x8001]
    );
}

#[test]
fn reads_nothing_from_an_empty_buffer() {
    assert_eq!(read_fp16_le_slice(&[]), Vec::<u16>::new());
}

#[test]
fn drops_a_trailing_single_byte() {
    assert_eq!(read_fp16_le_slice(&[0x34, 0x12, 0xab]), vec![0x1234]);
    assert_eq!(read_fp16_le_slice(&[0xab]), Vec::<u16>::new());
}

#[test]
fn writes_low_byte_first() {
    let mut buf = [0u8; 6];
    write_fp16_le_slice(&mut buf, &[0x1234, 0xff00, 0x00ff]);
    assert_eq!(buf, [0x34, 0x12, 0x00, 0xff, 0xff, 0x00]);
}

#[test]
fn write_leaves_the_rest_of_the_buffer_alone() {
    let mut buf = [0xaau8; 5];
    write_fp16_le_slice(&mut buf, &[0x0102]);
    assert_eq!(buf, [0x02, 0x01, 0xaa, 0xaa, 0xaa]);
    write_fp16_le_slice(&mut buf, &[]);
    assert_eq!(buf, [0x02, 0x01, 0xaa, 0xaa, 0xaa]);
}

#[test]
fn every_pattern_survives_write_then_read() {
    let all: Vec<u16> = (0..=u16::MAX).collect();
    let mut buf = vec![0u8; 2 * all.len()];
    write_fp16_le_slice(&mut buf, &all);
    assert_eq!(read_fp16_le_slice(&buf), all);
}

#[test]
fn whole_pairs_survive_read_then_write() {
    let bytes: Vec<u8> = (0..200u32).map(|t| (t * 37 % 251) as u8).collect();
    let halves = read_fp16_le_slice(&bytes);
    let mut back = vec![0u8; bytes.len()];
    write_fp16_le_slice(&mut back, &halves);
    assert_eq!(back, bytes);
}
