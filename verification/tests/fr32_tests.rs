use storage_proofs::fr32::{write_padded, write_unpadded, Fr32Writer};

fn write_test(bytes: &[u8], extra_bytes: &[u8]) -> (usize, Vec<u8>) {
    let mut writer = Fr32Writer::new(Vec::new());
    let mut count = writer.write(bytes);
    // This tests to make sure state is correctly maintained so we can restart
    // writing mid-32-byte chunk.
    count += writer.write(extra_bytes);
    count += writer.finish();
    let data = writer.into_inner();
    (count, data)
}

#[test]
fn test_write() {
    let source = vec![
        1, 2, 3, 4, 5, 6, 7, 8, 9, 10, 11, 12, 13, 14, 15, 16, 17, 18, 19, 20, 21, 22, 23, 24,
        25, 26, 27, 28, 29, 30, 31, 0xff, 1, 2, 3, 4, 5, 6, 7, 8, 9, 10, 11, 12, 13, 14, 15,
        16, 17, 18, 19, 20, 21, 22, 23, 24, 25, 26, 27, 28, 29, 30, 31, 0xff, 9, 9,
    ];
    let extra = vec![9, 0xff];

    let (write_count, buf) = write_test(&source, &extra);
    assert_eq!(write_count, 69);
    assert_eq!(buf.len(), 69);

    for i in 0..31 {
        assert_eq!(buf[i], i as u8 + 1);
    }
    assert_eq!(buf[31], 63); // Six least significant bits of 0xff
    assert_eq!(buf[32], (1 << 2) | 0b11); // 7
    for i in 33..63 {
        assert_eq!(buf[i], (i as u8 - 31) << 2);
    }
    assert_eq!(buf[63], 0x0f << 2); // 4-bits of ones, half of 0xff, shifted by two, followed by two bits of 0-padding.
    assert_eq!(buf[64], 0x0f | 9 << 4); // The last half of 0xff, 'followed' by 9.
    assert_eq!(buf[65], 9 << 4); // A shifted 9.
    assert_eq!(buf[66], 9 << 4); // Another.
    assert_eq!(buf[67], 0xf0); // The final 0xff is split into two bytes. Here is the first half.
    assert_eq!(buf[68], 0x0f); // And here is the second.
}

#[test]
fn test_write_padded() {
    let data = vec![255u8; 32];
    let padded = write_padded(&data);
    let written = padded.len();
    assert_eq!(written, 64);
    assert_eq!(padded.len(), 64);
    assert_eq!(&padded[0..31], &data[0..31]);
    assert_eq!(padded[31], 0b0011_1111);
    assert_eq!(padded[32], 0b0000_0011);
    assert_eq!(&padded[33..], vec![0u8; 31].as_slice());
}

#[test]
fn test_write_padded_alt() {
    let mut source = vec![
        1, 2, 3, 4, 5, 6, 7, 8, 9, 10, 11, 12, 13, 14, 15, 16, 17, 18, 19, 20, 21, 22, 23, 24,
        25, 26, 27, 28, 29, 30, 31, 0xff, 1, 2, 3, 4, 5, 6, 7, 8, 9, 10, 11, 12, 13, 14, 15,
        16, 17, 18, 19, 20, 21, 22, 23, 24, 25, 26, 27, 28, 29, 30, 31, 0xff, 9, 9,
    ];
    source.extend(vec![9, 0xff]);

    let buf = write_padded(&source);

    for i in 0..31 {
        assert_eq!(buf[i], i as u8 + 1);
    }
    assert_eq!(buf[31], 63); // Six least significant bits of 0xff
    assert_eq!(buf[32], (1 << 2) | 0b11); // 7
    for i in 33..63 {
        assert_eq!(buf[i], (i as u8 - 31) << 2);
    }
    assert_eq!(buf[63], 0x0f << 2); // 4-bits of ones, half of 0xff, shifted by two, followed by two bits of 0-padding.
    assert_eq!(buf[64], 0x0f | 9 << 4); // The last half of 0xff, 'followed' by 9.
    assert_eq!(buf[65], 9 << 4); // A shifted 9.
    assert_eq!(buf[66], 9 << 4); // Another.
    assert_eq!(buf[67], 0xf0); // The final 0xff is split into two bytes. Here is the first half.
    assert_eq!(buf[68], 0x0f); // And here is the second.
}

#[test]
fn test_read_write_padded() {
    let len = 1024;
    let data = vec![255u8; len];
    let padded = write_padded(&data);

    let unpadded = write_unpadded(&padded, 0, len);

    assert_eq!(data, unpadded);
}

#[test]
fn test_write_padded_offset() {
    let data: Vec<u8> = (0..100u8).collect();
    let padded = write_padded(&data);
    let unpadded = write_unpadded(&padded, 5, 95);
    assert_eq!(&data[5..], unpadded.as_slice());
}

#[test]
fn test_writer_matches_write_padded_prefix() {
    // The streaming writer emits the same stream as the one-shot padder,
    // short of the final frame's zero fill.
    let data: Vec<u8> = (0..77u8).collect();
    let padded = write_padded(&data);
    let mut writer = Fr32Writer::new(Vec::new());
    writer.write(&data);
    writer.finish();
    let streamed = writer.into_inner();
    assert_eq!(&padded[..streamed.len()], streamed.as_slice());
}

#[test]
fn test_split_byte() {
    // The low `pos` bits come first, the remaining high bits second.
    assert_eq!(storage_proofs::fr32::split_byte(0b1011_0110, 6), (0b11_0110, 0b10));
    assert_eq!(storage_proofs::fr32::split_byte(0b1011_0110, 0), (0, 0b1011_0110));
    assert_eq!(storage_proofs::fr32::split_byte(0xff, 4), (0x0f, 0x0f));
}

#[test]
fn test_process_bytes_whole_frame() {
    let mut writer = Fr32Writer::new(Vec::new());
    let input = [0xffu8; 40];
    let chunk = writer.process_bytes(&input);
    // A fresh frame needs 254 bits: 31 whole bytes and 6 bits of the 32nd.
    assert!(chunk.complete);
    assert_eq!(chunk.bytes_consumed, 32);
    assert_eq!(chunk.remainder, 0b11); // the top two bits of the boundary byte
    assert_eq!(chunk.remainder_size, 2);
    assert_eq!(chunk.out.len(), 32);
    assert_eq!(chunk.out[31], 0b0011_1111); // six payload bits, two zero pad bits
}

#[test]
fn test_process_bytes_incomplete() {
    let mut writer = Fr32Writer::new(Vec::new());
    let input = [0xabu8; 3];
    let chunk = writer.process_bytes(&input);
    assert!(!chunk.complete);
    assert_eq!(chunk.bytes_consumed, 3);
    assert_eq!(chunk.out[0], 0xab);
    assert_eq!(chunk.out[2], 0xab);
}

#[test]
fn test_finish_twice() {
    let data: Vec<u8> = (0..40u8).collect();
    let mut writer = Fr32Writer::new(Vec::new());
    writer.write(&data);
    let first = writer.finish();
    assert_eq!(first, 1);
    // A second consecutive finish commits nothing more.
    let second = writer.finish();
    assert_eq!(second, 0);
    assert_eq!(writer.into_inner().len(), 41);
}
