use lz77::codeword::CodeWord;
use lz77::errors::Error;

#[test]
fn test_codeword_set() {
    let mut cw = CodeWord::new(8).expect("CodeWord is not valid");
    assert_eq!(cw.get_length(), 0);
    assert_eq!(cw.get_distance(), 0);
    assert!(cw.set_length(255).is_ok());
    assert!(cw.set_distance(1).is_ok());
    assert_eq!(cw.get_length(), 255);
    assert_eq!(cw.get_distance(), 1);
    assert!(cw.set_length(1).is_ok());
    assert!(cw.set_distance(255).is_ok());
    assert_eq!(cw.get_length(), 1);
    assert_eq!(cw.get_distance(), 255);
    assert!(cw.set_length(256).is_err());
    assert!(cw.set_distance(256).is_err());
}

#[test]
fn test_conversion() {
    let cw = CodeWord::new_with_data(4, 2048, 15).expect("CodeWord not valid");
    let buf = cw.as_bytes();
    let mut cw_copy = CodeWord::new(4).expect("CodeWord not valid");
    cw_copy.read(&buf[..]);

    assert_eq!(cw.get_length(), cw_copy.get_length());
    assert_eq!(cw.get_distance(), cw.get_distance());
}

#[test]
fn codeword_rejects_invalid_field_sizes() {
    assert_eq!(CodeWord::new(0).err(), Some(Error::InvalidFieldSize));
    assert_eq!(CodeWord::new(16).err(), Some(Error::InvalidFieldSize));
    assert_eq!(CodeWord::new(200).err(), Some(Error::InvalidFieldSize));
    assert!(CodeWord::new(1).is_ok());
    assert!(CodeWord::new(15).is_ok());
    assert_eq!(CodeWord::new_with_data(0, 0, 0).err(), Some(Error::InvalidFieldSize));
    assert_eq!(CodeWord::new_with_data(4, 4096, 0).err(), Some(Error::FieldOverflow));
    assert_eq!(CodeWord::new_with_data(4, 0, 16).err(), Some(Error::FieldOverflow));
}

#[test]
fn codeword_bytes_are_big_endian() {
    let cw = CodeWord::new_with_data(4, 0x123, 0x4).expect("fits");
    assert_eq!(cw.as_bytes(), [0x12, 0x34]);
    let mut buf = [0xaau8; 4];
    cw.write(&mut buf[..]);
    assert_eq!(buf, [0x12, 0x34, 0xaa, 0xaa]);
    let mut other = CodeWord::new(12).expect("valid");
    other.read(&[0xab, 0xcd, 0xef]);
    assert_eq!(other.get_distance(), 0xa);
    assert_eq!(other.get_length(), 0xbcd);
}

#[test]
fn codeword_overflow_leaves_the_fields() {
    let mut cw = CodeWord::new_with_data(12, 9, 777).expect("fits");
    assert_eq!(cw.set_distance(16), Err(Error::FieldOverflow));
    assert_eq!(cw.set_length(4096), Err(Error::FieldOverflow));
    assert_eq!(cw.get_distance(), 9);
    assert_eq!(cw.get_length(), 777);
    assert!(cw.set_distance(15).is_ok());
    assert!(cw.set_length(4095).is_ok());
    assert_eq!(cw.as_bytes(), [0xff, 0xff]);
}

#[test]
fn codeword_round_trips_every_pair() {
    for bits in 1u8..=15 {
        let dmax: u32 = 1 << (16 - bits);
        let lmax: u32 = 1 << bits;
        for d in [0, 1, dmax / 2, dmax - 1] {
            for l in [0, 1, lmax / 2, lmax - 1] {
                let cw = CodeWord::new_with_data(bits, d as u16, l as u16).expect("fits");
                let mut back = CodeWord::new(bits).expect("valid");
                back.read(&cw.as_bytes());
                assert_eq!(back.get_distance() as u32, d);
                assert_eq!(back.get_length() as u32, l);
            }
        }
    }
}

#[test]
fn error_messages_differ() {
    assert_eq!(Error::InvalidFieldSize.message(), "CodeWord length field has invalid size");
    assert_ne!(Error::FieldOverflow.message(), Error::UnexpectedEnd.message());
}
