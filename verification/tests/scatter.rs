//! Splitting of transfers into frames.

use emcyphal::buffer::scatter::Scatter;
use emcyphal::format::{TailByte, TransferCrc};
use emcyphal::frame::{Data, DataLength, Mtu};
use emcyphal::ids::TransferId;

#[test]
fn test_zero_frame_length() {
    let transfer_id = TransferId::from_u8_truncating(27);
    let buffer: [u8; 0] = [];

    let mut scatter = Scatter::new(
        transfer_id,
        &buffer,
        buffer.len(),
        TransferCrc::from(0xffff),
    );
    assert_eq!(
        scatter.fetch_frame_data(&buffer, Mtu::Classic),
        Some(Data::new(&[0b1110_0000 + 27]).unwrap())
    );
    assert_eq!(scatter.fetch_frame_data(&buffer, Mtu::Classic), None);
}

#[test]
fn test_non_full_single_frame() {
    let transfer_id = TransferId::from_u8_truncating(27);
    let buffer: [u8; 6] = [0, 1, 2, 3, 4, 5];

    let mut scatter = Scatter::new(transfer_id, &buffer, buffer.len(), 0x8c18.into());
    assert_eq!(
        scatter.fetch_frame_data(&buffer, Mtu::Classic),
        Some(Data::new(&[0, 1, 2, 3, 4, 5, 0b1110_0000 + 27]).unwrap())
    );
    assert_eq!(scatter.fetch_frame_data(&buffer, Mtu::Classic), None);
}

#[test]
fn test_full_single_frame() {
    let transfer_id = TransferId::from_u8_truncating(27);
    let buffer: [u8; 7] = [0, 1, 2, 3, 4, 5, 6];

    let mut scatter = Scatter::new(transfer_id, &buffer, buffer.len(), 0x28c2.into());
    assert_eq!(
        scatter.fetch_frame_data(&buffer, Mtu::Classic),
        Some(Data::new(&[0, 1, 2, 3, 4, 5, 6, 0b1110_0000 + 27]).unwrap())
    );
    assert_eq!(scatter.fetch_frame_data(&buffer, Mtu::Classic), None);
}

#[test]
fn test_minimum_double_frame() {
    let transfer_id = TransferId::from_u8_truncating(27);
    let buffer: [u8; 8] = [0, 1, 2, 3, 4, 5, 6, 7];

    let mut scatter = Scatter::new(transfer_id, &buffer, buffer.len(), 0x178d.into());
    assert_eq!(
        scatter.fetch_frame_data(&buffer, Mtu::Classic),
        Some(Data::new(&[0, 1, 2, 3, 4, 5, 6, 0b1010_0000 + 27]).unwrap())
    );
    assert_eq!(
        scatter.fetch_frame_data(&buffer, Mtu::Classic),
        Some(Data::new(&[7, 0x17, 0x8d, 0b0100_0000 + 27]).unwrap())
    );
    assert_eq!(scatter.fetch_frame_data(&buffer, Mtu::Classic), None);
}

#[test]
fn test_non_full_double_frame() {
    let transfer_id = TransferId::from_u8_truncating(27);
    let buffer: [u8; 11] = [0, 1, 2, 3, 4, 5, 6, 7, 8, 9, 10];

    let mut scatter = Scatter::new(transfer_id, &buffer, buffer.len(), 0x1944.into());
    assert_eq!(
        scatter.fetch_frame_data(&buffer, Mtu::Classic),
        Some(Data::new(&[0, 1, 2, 3, 4, 5, 6, 0b1010_0000 + 27]).unwrap())
    );
    assert_eq!(
        scatter.fetch_frame_data(&buffer, Mtu::Classic),
        Some(Data::new(&[7, 8, 9, 10, 0x19, 0x44, 0b0100_0000 + 27]).unwrap())
    );
    assert_eq!(scatter.fetch_frame_data(&buffer, Mtu::Classic), None);
}

#[test]
fn test_full_double_frame() {
    let transfer_id = TransferId::from_u8_truncating(27);
    let buffer: [u8; 12] = [0, 1, 2, 3, 4, 5, 6, 7, 8, 9, 10, 11];

    let mut scatter = Scatter::new(transfer_id, &buffer, buffer.len(), 0x7673.into());
    assert_eq!(
        scatter.fetch_frame_data(&buffer, Mtu::Classic),
        Some(Data::new(&[0, 1, 2, 3, 4, 5, 6, 0b1010_0000 + 27]).unwrap())
    );
    assert_eq!(
        scatter.fetch_frame_data(&buffer, Mtu::Classic),
        Some(Data::new(&[7, 8, 9, 10, 11, 0x76, 0x73, 0b0100_0000 + 27]).unwrap())
    );
    assert_eq!(scatter.fetch_frame_data(&buffer, Mtu::Classic), None);
}

#[test]
fn test_minimal_triple_frame() {
    let transfer_id = TransferId::from_u8_truncating(27);
    let buffer: [u8; 13] = [0, 1, 2, 3, 4, 5, 6, 7, 8, 9, 10, 11, 12];

    let mut scatter = Scatter::new(transfer_id, &buffer, buffer.len(), 0xacdd.into());
    assert_eq!(
        scatter.fetch_frame_data(&buffer, Mtu::Classic),
        Some(Data::new(&[0, 1, 2, 3, 4, 5, 6, 0b1010_0000 + 27]).unwrap())
    );
    assert_eq!(
        scatter.fetch_frame_data(&buffer, Mtu::Classic),
        Some(Data::new(&[7, 8, 9, 10, 11, 12, 0xac, 0b0000_0000 + 27]).unwrap())
    );
    assert_eq!(
        scatter.fetch_frame_data(&buffer, Mtu::Classic),
        Some(Data::new(&[0xdd, 0b0110_0000 + 27]).unwrap())
    );
    assert_eq!(scatter.fetch_frame_data(&buffer, Mtu::Classic), None);
}

#[test]
fn test_crc_only_triple_frame() {
    let transfer_id = TransferId::from_u8_truncating(27);
    let buffer: [u8; 14] = [0, 1, 2, 3, 4, 5, 6, 7, 8, 9, 10, 11, 12, 13];

    let mut scatter = Scatter::new(transfer_id, &buffer, buffer.len(), 0x78cb.into());
    assert_eq!(
        scatter.fetch_frame_data(&buffer, Mtu::Classic),
        Some(Data::new(&[0, 1, 2, 3, 4, 5, 6, 0b1010_0000 + 27]).unwrap())
    );
    assert_eq!(
        scatter.fetch_frame_data(&buffer, Mtu::Classic),
        Some(Data::new(&[7, 8, 9, 10, 11, 12, 13, 0b0000_0000 + 27]).unwrap())
    );
    assert_eq!(
        scatter.fetch_frame_data(&buffer, Mtu::Classic),
        Some(Data::new(&[0x78, 0xcb, 0b0110_0000 + 27]).unwrap())
    );
    assert_eq!(scatter.fetch_frame_data(&buffer, Mtu::Classic), None);
}

#[test]
fn test_non_full_triple_frame() {
    let transfer_id = TransferId::from_u8_truncating(27);
    let buffer: [u8; 15] = [0, 1, 2, 3, 4, 5, 6, 7, 8, 9, 10, 11, 12, 13, 14];

    let mut scatter = Scatter::new(transfer_id, &buffer, buffer.len(), 0xd551.into());
    assert_eq!(
        scatter.fetch_frame_data(&buffer, Mtu::Classic),
        Some(Data::new(&[0, 1, 2, 3, 4, 5, 6, 0b1010_0000 + 27]).unwrap())
    );
    assert_eq!(
        scatter.fetch_frame_data(&buffer, Mtu::Classic),
        Some(Data::new(&[7, 8, 9, 10, 11, 12, 13, 0b0000_0000 + 27]).unwrap())
    );
    assert_eq!(
        scatter.fetch_frame_data(&buffer, Mtu::Classic),
        Some(Data::new(&[14, 0xd5, 0x51, 0b0110_0000 + 27]).unwrap())
    );
    assert_eq!(scatter.fetch_frame_data(&buffer, Mtu::Classic), None);
}

#[test]
fn test_padding_single_frame() {
    let transfer_id = TransferId::from_u8_truncating(27);
    let buffer: [u8; 8] = [0, 1, 2, 3, 4, 5, 6, 7];

    let mut scatter = Scatter::new(transfer_id, &buffer, buffer.len(), 0x178d.into());
    assert_eq!(
        scatter.fetch_frame_data(&buffer, Mtu::Fd),
        Some(Data::new(&[0, 1, 2, 3, 4, 5, 6, 7, 0, 0, 0, 0b1110_0000 + 27]).unwrap())
    );
    assert_eq!(scatter.fetch_frame_data(&buffer, Mtu::Classic), None);
}

#[test]
fn test_padding_multi_frame() {
    let transfer_id = TransferId::from_u8_truncating(27);
    let buffer: [u8; 69] = core::array::from_fn(|i| i.try_into().unwrap());

    let mut scatter = Scatter::new(transfer_id, &buffer, buffer.len(), 0xd7de.into());
    let vec: heapless::Vec<u8, 64>  = (0u8..63).chain([0b1010_0000u8 + 27].iter().copied()).collect();
    assert_eq!(
        scatter.fetch_frame_data(&buffer, Mtu::Fd),
        Some(Data::new(&vec).unwrap())
    );
    assert_eq!(
        scatter.fetch_frame_data(&buffer, Mtu::Fd),
        Some(Data::new(&[63, 64, 65, 66, 67, 68, 0, 0, 0, 0xd6, 0x2c, 0b0100_0000 + 27]).unwrap())
    );

    assert_eq!(scatter.fetch_frame_data(&buffer, Mtu::Classic), None);
}

#[test]
fn frames_carry_the_whole_transfer() {
    let transfer_id = TransferId::from_u8_truncating(9);
    for (mtu, max) in [(Mtu::Classic, 7), (Mtu::Fd, 63)] {
        for n in 0..200usize {
            let data: Vec<u8> = (0..n).map(|i| (i * 7 + 3) as u8).collect();
            let mut crc = TransferCrc::default();
            crc.add_bytes(&data);
            let mut scatter = Scatter::new(transfer_id, &data, n, crc);
            let mut frames = Vec::new();
            while let Some(frame) = scatter.fetch_frame_data(&data, mtu) {
                frames.push(frame.as_slice().to_vec());
            }

            let count = if n <= max { 1 } else { (n + 2 + max - 1) / max };
            assert_eq!(frames.len(), count);
            let mut payload = Vec::new();
            for (i, frame) in frames.iter().enumerate() {
                let (tail, bytes) = frame.split_last().unwrap();
                let tail = TailByte::from_u8(*tail);
                assert_eq!(tail.sot(), i == 0);
                assert_eq!(tail.eot(), i == count - 1);
                assert_eq!(tail.toggle(), i % 2 == 0);
                assert_eq!(tail.transfer_id(), transfer_id);
                if i < count - 1 {
                    assert_eq!(bytes.len(), max);
                }
                payload.extend_from_slice(bytes);
            }
            let least = if n <= max { n + 1 } else { n + 2 - (count - 1) * max + 1 };
            assert_eq!(
                frames[count - 1].len(),
                DataLength::new_ceil(least).unwrap().as_usize()
            );

            let mut expected = data.clone();
            expected.resize(payload.len() - if n <= max { 0 } else { 2 }, 0);
            if n > max {
                let mut crc = TransferCrc::default();
                crc.add_bytes(&expected);
                expected.extend_from_slice(&crc.to_bytes());
            }
            assert_eq!(payload, expected);
            if mtu == Mtu::Classic {
                assert_eq!(payload.len(), if n <= max { n } else { n + 2 });
            }
        }
    }
}
