use edmlog::bits::be_u16_uwu;
use edmlog::bits::be_u32_uwu;
use edmlog::bits::calc_checksum;
use edmlog::bits::calc_new_checksum;
use edmlog::bits::clear_bit;
use edmlog::bits::clear_bit_slice;
use edmlog::bits::set_bit;
use edmlog::bits::set_bit_slice;
use edmlog::bits::test_bit;
use edmlog::bits::test_bit_slice;

#[test]
fn big_endian_reads() {
    assert_eq!(be_u16_uwu(&[0x12, 0x34]), 0x1234);
    assert_eq!(be_u16_uwu(&[0xFF, 0x00, 0x55]), 0xFF00);
    assert_eq!(be_u32_uwu(&[0x12, 0x34, 0x56, 0x78]), 0x1234_5678);
    assert_eq!(be_u32_uwu(&[0xFF, 0x00, 0x00, 0x01]), 0xFF00_0001);
}

#[test]
fn bit_helpers() {
    assert!(test_bit(0b0000_0100, 2));
    assert!(!test_bit(0b0000_0100, 3));
    let mut b: u8 = 0;
    set_bit(&mut b, 7);
    assert_eq!(b, 0x80);
    set_bit(&mut b, 0);
    assert_eq!(b, 0x81);
    clear_bit(&mut b, 7);
    assert_eq!(b, 0x01);
    let mut arr = [0u8; 6];
    set_bit_slice(&mut arr, 41);
    assert_eq!(arr, [0, 0, 0, 0, 0, 0x02]);
    assert!(test_bit_slice(&arr, 41));
    assert!(!test_bit_slice(&arr, 40));
    clear_bit_slice(&mut arr, 41);
    assert_eq!(arr, [0u8; 6]);
}

#[test]
fn checksum_variants_agree() {
    let data: &[u8] = &[0x41, 0x41, 0x00, 0x01, 0x01, 0x00, 0x00, 0x01];
    assert_eq!(calc_checksum(data), calc_new_checksum(data));
    assert_eq!(calc_checksum(data), 123);
}
