use miniz_oxide::deflate::compress_to_vec_zlib;
use mosh_client::instruction::{
    decompress_exact_zlib, encode_client_difference, ClientOperation, InstructionError,
    TransportInstruction, ZLIB_LEVEL,
};
use mosh_client::limits::{
    MAX_CLIENT_OPERATIONS_AFTER_ACK, MAX_DECOMPRESSED_INSTRUCTION_BYTES, MAX_INPUT_COMMAND_BYTES,
};

#[test]
fn initial_instruction_matches_the_observed_field_shape() {
    let instruction = TransportInstruction::initial(80, 24, vec![0]).unwrap();

    assert_eq!(instruction.protocol_version, 2);
    assert_eq!(instruction.base_state, 0);
    assert_eq!(instruction.new_state, 1);
    assert_eq!(
        instruction.state_difference,
        [0x0a, 0x06, 0x1a, 0x04, 0x28, 80, 0x30, 24]
    );
    assert_eq!(
        TransportInstruction::decode_zlib(&instruction.encode_zlib().unwrap()).unwrap(),
        instruction
    );
}

#[test]
fn client_input_and_resize_preserve_the_verified_operation_order() {
    let difference = encode_client_difference(&[
        ClientOperation::Input("x中".as_bytes().to_vec()),
        ClientOperation::Resize {
            columns: 81,
            rows: 25,
        },
    ])
    .unwrap();

    assert_eq!(
        &difference[..10],
        &[0x0a, 0x08, 0x12, 0x06, 0x22, 0x04, 0x78, 0xe4, 0xb8, 0xad]
    );
    assert_eq!(
        &difference[10..],
        &[0x0a, 0x06, 0x1a, 0x04, 0x28, 81, 0x30, 25]
    );
}

#[test]
fn client_difference_limits_fail_before_encoding() {
    assert!(
        encode_client_difference(&vec![
            ClientOperation::Input(Vec::new());
            MAX_CLIENT_OPERATIONS_AFTER_ACK
        ])
        .is_ok()
    );
    assert_eq!(
        encode_client_difference(&[ClientOperation::Input(vec![0; MAX_INPUT_COMMAND_BYTES + 1])]),
        Err(InstructionError::InputTooLarge)
    );
    assert_eq!(
        encode_client_difference(&vec![
            ClientOperation::Input(Vec::new());
            MAX_CLIENT_OPERATIONS_AFTER_ACK + 1
        ]),
        Err(InstructionError::TooManyClientOperations)
    );
}

#[test]
fn rejects_invalid_sizes_versions_compression_and_trailing_data() {
    assert_eq!(
        TransportInstruction::initial(0, 24, vec![]).unwrap_err(),
        InstructionError::InvalidTerminalSize
    );
    assert_eq!(
        TransportInstruction::decode_zlib(b"not zlib").unwrap_err(),
        InstructionError::InvalidCompression
    );

    let mut wrong_version = TransportInstruction::initial(80, 24, vec![]).unwrap();
    wrong_version.protocol_version = 3;
    assert_eq!(
        TransportInstruction::decode_zlib(&wrong_version.encode_zlib().unwrap()).unwrap_err(),
        InstructionError::IncompatibleVersion
    );

    let instruction = TransportInstruction::initial(80, 24, vec![]).unwrap();
    let mut trailing = instruction.encode_zlib().unwrap();
    trailing.extend_from_slice(b"trailing");
    assert_eq!(
        TransportInstruction::decode_zlib(&trailing).unwrap_err(),
        InstructionError::TrailingCompressedData
    );

    let mut truncated = instruction.encode_zlib().unwrap();
    truncated.pop();
    assert_eq!(
        TransportInstruction::decode_zlib(&truncated).unwrap_err(),
        InstructionError::InvalidCompression
    );
}

#[test]
fn streaming_decompression_enforces_the_decoded_limit() {
    let at_limit = vec![b'x'; MAX_DECOMPRESSED_INSTRUCTION_BYTES];
    let compressed = compress_to_vec_zlib(&at_limit, ZLIB_LEVEL);
    assert_eq!(decompress_exact_zlib(&compressed).unwrap(), at_limit);

    let above_limit = vec![b'x'; MAX_DECOMPRESSED_INSTRUCTION_BYTES + 1];
    let compressed = compress_to_vec_zlib(&above_limit, ZLIB_LEVEL);
    assert_eq!(
        decompress_exact_zlib(&compressed).unwrap_err(),
        InstructionError::DecodedTooLarge
    );
}

#[test]
fn protocol_buffer_form_reads_back_every_field() {
    let instruction = TransportInstruction {
        protocol_version: 2,
        base_state: 300,
        new_state: u64::MAX - 1,
        acknowledged_state: 1,
        discard_before_state: 0,
        state_difference: vec![1, 2, 3],
        chaff: Vec::new(),
    };
    let encoded = instruction.encode();
    assert_eq!(&encoded[..2], &[0x08, 0x02]);
    assert_eq!(&encoded[2..5], &[0x10, 0xac, 0x02]);
    assert_eq!(TransportInstruction::decode(&encoded), Some(instruction.clone()));
    assert_eq!(
        TransportInstruction::decode_zlib(&instruction.encode_zlib().unwrap()),
        Ok(instruction)
    );
}

#[test]
fn later_fields_replace_earlier_ones_and_unknown_fields_are_skipped() {
    let bytes = [0x10, 0x05, 0x10, 0x07, 0x48, 0x01, 0x32, 0x01, 0xaa];
    let decoded = TransportInstruction::decode(&bytes).unwrap();
    assert_eq!(decoded.base_state, 7);
    assert_eq!(decoded.state_difference, vec![0xaa]);
    assert_eq!(TransportInstruction::decode(&[0x12, 0x00]), None);
    assert_eq!(TransportInstruction::decode(&[0x08]), None);
}

#[test]
fn shutdown_instructions_are_recognized_by_their_state() {
    let mut instruction = TransportInstruction::initial(80, 24, vec![]).unwrap();
    assert!(!instruction.is_shutdown());
    instruction.new_state = u64::MAX;
    assert!(instruction.is_shutdown());
}

#[test]
fn oversized_compressed_instructions_are_refused_before_decompression() {
    let oversized = vec![0_u8; 1024 * 1024 + 1];
    assert_eq!(
        TransportInstruction::decode_zlib(&oversized).unwrap_err(),
        InstructionError::CompressedTooLarge
    );
}

#[test]
fn encoded_operations_reject_an_invalid_resize() {
    assert_eq!(
        encode_client_difference(&[
            ClientOperation::Input(b"ok".to_vec()),
            ClientOperation::Resize { columns: 0, rows: 24 },
            ClientOperation::Input(vec![0; MAX_INPUT_COMMAND_BYTES + 1]),
        ]),
        Err(InstructionError::InvalidTerminalSize)
    );
    assert_eq!(encode_client_difference(&[]), Ok(Vec::new()));
    assert_eq!(
        encode_client_difference(&[ClientOperation::Input(Vec::new())]),
        Ok(vec![0x0a, 0x02, 0x12, 0x00])
    );
}
