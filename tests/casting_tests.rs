#[test]
fn casting_between_i128_and_u64() {
    let n: i128 = u64::MAX as i128;
    let nn: u64 = n as u64;
    assert_eq!(0xFFFF_FFFF_FFFF_FFFF_u64, nn);

    let n: i128 = i64::MAX as i128;
    let nn: u64 = n as u64;
    assert_eq!(0x7FFF_FFFF_FFFF_FFFF_u64, nn);
}
