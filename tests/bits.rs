use symbolic_store::bitops::{bitwise_copy_nonoverlapping, lsb_bitmask, BitwiseRead, BitwiseWrite};

fn bit(words: &[u64], k: usize) -> bool {
    (words[k / 64] >> (k % 64)) & 1 == 1
}

#[test]
fn lsb_bitmask_values() {
    assert_eq!(lsb_bitmask(0), 0);
    assert_eq!(lsb_bitmask(1), 1);
    assert_eq!(lsb_bitmask(8), 0xFF);
    assert_eq!(lsb_bitmask(63), u64::MAX >> 1);
    assert_eq!(lsb_bitmask(64), u64::MAX);
}

fn check_copy(dst_offset: usize, src_offset: usize, length: usize) {
    let src: Vec<u64> = vec![0x0123_4567_89AB_CDEF, 0xF0E1_D2C3_B4A5_9687, 0x1357_9BDF_2468_ACE0, 0xDEAD_BEEF_CAFE_F00D];
    let before: Vec<u64> = vec![0x5555_5555_5555_5555, 0xAAAA_AAAA_AAAA_AAAA, 0x3333_3333_3333_3333, 0xCCCC_CCCC_CCCC_CCCC];
    let mut dst = before.clone();
    bitwise_copy_nonoverlapping(&mut dst, &src, dst_offset, src_offset, length);
    for k in 0..256 {
        let want = if k >= dst_offset && k < dst_offset + length { bit(&src, src_offset + k - dst_offset) } else { bit(&before, k) };
        assert_eq!(bit(&dst, k), want, "bit {} of copy {} {} {}", k, dst_offset, src_offset, length);
    }
}

#[test]
fn copy_word_aligned() {
    check_copy(64, 0, 130);
    check_copy(0, 128, 64);
    check_copy(128, 64, 5);
}

#[test]
fn copy_byte_aligned() {
    check_copy(8, 16, 100);
    check_copy(24, 0, 7);
}

#[test]
fn copy_unaligned() {
    check_copy(3, 61, 150);
    check_copy(100, 1, 1);
    check_copy(63, 2, 65);
}

#[test]
fn copy_nothing() {
    check_copy(5, 9, 0);
}

#[test]
fn write_then_read_round_trip() {
    let mut buffer = vec![0x9999_9999_9999_9999u64; 4];
    let input = [0x1122_3344_5566_7788u64, 0x99AA_BBCC_DDEE_FF00, 0x1F];
    let mut writer = BitwiseWrite::new(133, 45);
    let mut i = 0;
    while writer.more() {
        writer.next(&mut buffer, input[i]);
        i += 1;
    }
    assert_eq!(i, 3);
    let mut reader = BitwiseRead::new(&buffer, 133, 45);
    let mut out = Vec::new();
    while let Some(word) = reader.next() {
        out.push(word);
    }
    assert_eq!(out, vec![input[0], input[1], input[2] & 0x1F]);
}

#[test]
fn read_masks_the_last_word() {
    let buffer = [u64::MAX, u64::MAX];
    let mut reader = BitwiseRead::new(&buffer, 70, 10);
    assert_eq!(reader.next(), Some(u64::MAX));
    assert_eq!(reader.next(), Some(0x3F));
    assert_eq!(reader.next(), None);
}
