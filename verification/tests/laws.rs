use mosh_client::crypto::SessionKey;
use mosh_client::fragment::{self, FragmentReassembler, ReassemblyOutcome};
use mosh_client::instruction::TransportInstruction;
use mosh_client::limits::{MAX_DATAGRAM_BYTES, MAX_FRAGMENT_BODY_BYTES};
use mosh_client::packet::{Direction, PacketCodec, PacketError, PacketReceiver, ReplayWindow};
use mosh_client::protobuf::{push_varint, read_varint};

fn sample_instruction(seed: u64, difference_len: usize) -> TransportInstruction {
    TransportInstruction {
        protocol_version: 2,
        base_state: seed,
        new_state: seed.wrapping_mul(31).wrapping_add(1),
        acknowledged_state: seed / 3,
        discard_before_state: seed % 7,
        state_difference: (0..difference_len).map(|i| (i as u8).wrapping_mul(seed as u8)).collect(),
        chaff: if seed % 2 == 0 { vec![0] } else { Vec::new() },
    }
}

#[test]
fn decoding_an_encoded_instruction_gives_it_back() {
    for seed in [0_u64, 1, 2, 127, 128, 300, u64::MAX / 2, u64::MAX] {
        for len in [0, 1, 200, 5000] {
            let instruction = sample_instruction(seed, len);
            assert_eq!(
                TransportInstruction::decode(&instruction.encode()),
                Some(instruction.clone())
            );
            assert_eq!(
                TransportInstruction::decode_zlib(&instruction.encode_zlib().unwrap()),
                Ok(instruction)
            );
        }
    }
}

#[test]
fn opening_a_sealed_datagram_gives_its_sequence_and_plaintext_back() {
    let key = SessionKey::new([7; 16]);
    let codec = PacketCodec::new(&key);
    for direction in [Direction::ClientToServer, Direction::ServerToClient] {
        let mut receiver = PacketReceiver::new(&key, direction);
        for (sequence, len) in [(0_u64, 0_usize), (1, 1), (1000, 1414), (1 << 40, 77)] {
            let plaintext: Vec<u8> = (0..len).map(|i| i as u8).collect();
            let mut output = vec![0_u8; MAX_DATAGRAM_BYTES];
            let n = codec.seal(direction, sequence, &plaintext, &mut output).unwrap();
            output.truncate(n);
            let opened = receiver.open(&mut output).unwrap();
            assert_eq!(opened.sequence, sequence);
            assert_eq!(opened.plaintext, plaintext);
        }
    }
}

#[test]
fn a_sequence_number_is_accepted_at_most_once() {
    let mut window = ReplayWindow::new();
    for sequence in [10_u64, 3, 70, 9, 69, 200, 150] {
        assert_eq!(window.accept(sequence), Ok(()));
        assert_eq!(window.accept(sequence), Err(PacketError::Replay));
    }
    assert_eq!(window.accept(136), Err(PacketError::TooOld));
    assert_eq!(window.accept(137), Ok(()));
}

#[test]
fn varints_read_back_what_was_written() {
    for value in [0_u64, 1, 127, 128, 16_383, 16_384, u64::from(u32::MAX), u64::MAX] {
        let mut out = vec![0xee];
        push_varint(&mut out, value);
        out.push(0x55);
        let (read, len) = read_varint(&out, 1).unwrap();
        assert_eq!(read, value);
        assert_eq!(out[1 + len], 0x55);
    }
    assert_eq!(read_varint(&[0x80; 10], 0), None);
    assert_eq!(read_varint(&[0xff, 0xff, 0xff, 0xff, 0xff, 0xff, 0xff, 0xff, 0xff, 0x02], 0), None);
}

#[test]
fn fragments_of_a_split_instruction_reassemble_in_any_order() {
    let instruction = sample_instruction(99, 6_000);
    let compressed: Vec<u8> = (0..5_000_u32).map(|i| (i * 7 % 251) as u8).collect();
    assert!(instruction.encode_zlib().is_ok());
    let pieces: Vec<&[u8]> = compressed.chunks(MAX_FRAGMENT_BODY_BYTES).collect();
    let mut order: Vec<usize> = (0..pieces.len()).collect();
    order.reverse();
    order.swap(0, 1);
    let mut reassembler = FragmentReassembler::new(0);
    let mut last = ReassemblyOutcome::Pending;
    for (arrival, number) in order.into_iter().enumerate() {
        assert_eq!(last, ReassemblyOutcome::Pending, "arrival {arrival} came after completion");
        let mut plaintext = vec![0_u8; MAX_DATAGRAM_BYTES];
        let len = fragment::encode(
            1,
            None,
            5,
            number as u16,
            number + 1 == pieces.len(),
            pieces[number],
            &mut plaintext,
        )
        .unwrap();
        let decoded = fragment::decode(&plaintext[..len]).unwrap();
        last = reassembler.push(1, decoded).unwrap();
    }
    assert_eq!(last, ReassemblyOutcome::Complete(compressed));
}
