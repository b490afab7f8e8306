use nom_fun::fit::Fit;

#[test]
fn test_crc_calc16() {
    let fed: [u8; 3] = [0xF, 0xE, 0xD];

    assert_eq!(0, Fit::crc_calc16(b""));
    assert_eq!(0xE0F0, Fit::crc_calc16(b"This is a test"));
    assert_eq!(0x0440, Fit::crc_calc16(&fed[..1]));
    assert_eq!(0x3484, Fit::crc_calc16(&fed[..2]));
    assert_eq!(0xA6F5, Fit::crc_calc16(&fed));
}

#[test]
fn crc_get16_folds_into_calc16() {
    let step = Fit::crc_get16(0, 0xF);
    assert_eq!(step, 0x0440);
    assert_eq!(Fit::crc_get16(step, 0xE), 0x3484);
}
