use kleestor::utils::varint::{VarUint64, VarintError};

fn works(value: u64) {
    let mut buffer: [u8; 9] = [1, 2, 3, 4, 5, 6, 7, 8, 9];
    VarUint64::as_slice(value, &mut buffer);

    match VarUint64::read(&buffer, 9) {
        Ok(resolved) => assert_eq!(resolved, value),
        Err(_) => panic!("varuint64 0x{value:x} failed to decode"),
    };
}

#[test]
fn rand_3_bits() {
    for i in 0..64 {
        for j in i..64 {
            for k in j..64 {
                let value = (1_u64 << i) | (1_u64 << j) | (1_u64 << k);
                works(value);
            }
        }
    }
}

#[test]
fn small_values() {
    for i in 0..16384 {
        works(i);
    }
}

#[test]
fn boundary_values_have_the_advertised_lengths() {
    let cases: [(u64, usize); 8] = [
        (0, 1),
        (127, 1),
        (128, 2),
        (4095, 2),
        (4096, 3),
        ((1 << 60) - 1, 8),
        (1 << 60, 9),
        (u64::MAX, 9),
    ];
    for (value, len) in cases {
        let mut buffer = [0xaa_u8; 12];
        let written = VarUint64::as_slice(value, &mut buffer);
        assert_eq!(written, len);
        assert_eq!(VarUint64::read_offset(&buffer, 12), Ok((len, value)));
        for b in &buffer[len..] {
            assert_eq!(*b, 0xaa);
        }
    }
}

#[test]
fn every_length_round_trips_at_its_bounds() {
    let bounds: [u64; 8] = [7, 12, 20, 28, 36, 44, 52, 60];
    let mut expect = 1;
    for shift in bounds {
        let below = (1_u64 << shift) - 1;
        let at = 1_u64 << shift;
        let mut buffer = [0_u8; 9];
        assert_eq!(VarUint64::as_slice(below, &mut buffer), expect);
        assert_eq!(VarUint64::read_offset(&buffer, 9), Ok((expect, below)));
        expect += 1;
        let mut buffer = [0_u8; 9];
        assert_eq!(VarUint64::as_slice(at, &mut buffer), expect);
        assert_eq!(VarUint64::read_offset(&buffer, 9), Ok((expect, at)));
    }
}

#[test]
fn exact_bytes_of_some_encodings() {
    let mut buffer = [0_u8; 9];
    assert_eq!(VarUint64::as_slice(5, &mut buffer), 1);
    assert_eq!(buffer[0], 0x05);
    assert_eq!(VarUint64::as_slice(128, &mut buffer), 2);
    assert_eq!(&buffer[..2], &[0x80, 0x01]);
    assert_eq!(VarUint64::as_slice(4096, &mut buffer), 3);
    assert_eq!(&buffer[..3], &[0x80, 0x20, 0x01]);
    assert_eq!(VarUint64::as_slice(u64::MAX, &mut buffer), 9);
    assert_eq!(&buffer[..], &[0xff, 0xff, 0xff, 0xff, 0xff, 0xff, 0xff, 0xff, 0x0f]);
}

#[test]
fn reserved_bits_of_the_last_byte_are_ignored() {
    let bytes = [0xff_u8, 0xff, 0xff, 0xff, 0xff, 0xff, 0xff, 0xff, 0xff];
    assert_eq!(VarUint64::read_offset(&bytes, 9), Ok((9, u64::MAX)));
}

#[test]
fn reading_past_the_end_is_an_error() {
    assert_eq!(VarUint64::read_offset(&[], 0), Err(VarintError::OutOfBounds));
    assert_eq!(VarUint64::read_offset(&[0x05], 0), Err(VarintError::OutOfBounds));
    assert_eq!(VarUint64::read_offset(&[0x80], 1), Err(VarintError::OutOfBounds));
    assert_eq!(VarUint64::read_offset(&[0x80, 0x20], 2), Err(VarintError::OutOfBounds));
    assert_eq!(VarUint64::read_offset(&[0x80, 0x20, 0x01], 2), Err(VarintError::OutOfBounds));
    assert_eq!(VarUint64::read_offset(&[0x80, 0x20, 0x01], 3), Ok((3, 4096)));
    assert_eq!(VarUint64::read_offset(&[0x80, 0x20, 0x01], 100), Ok((3, 4096)));
    assert_eq!(VarUint64::read(&[0x80, 0xe0, 0, 0, 0, 0, 0, 0], 8), Err(VarintError::OutOfBounds));
}

#[test]
fn read_and_seek_moves_the_offset_by_the_bytes_read() {
    let bytes = [0x80_u8, 0x20, 0x01, 0x07];
    let mut offset = 10_usize;
    assert_eq!(VarUint64::read_and_seek(&bytes, &mut offset, 4), Ok(4096));
    assert_eq!(offset, 13);
    assert_eq!(VarUint64::read_and_seek(&bytes[3..], &mut offset, 1), Ok(7));
    assert_eq!(offset, 14);
    assert_eq!(
        VarUint64::read_and_seek(&bytes[..2], &mut offset, 2),
        Err(VarintError::OutOfBounds)
    );
    assert_eq!(offset, 14);
}
