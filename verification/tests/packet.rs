use mosh_client::crypto::{SessionCrypto, SessionKey};
use mosh_client::limits::MAX_DATAGRAM_BYTES;
use mosh_client::packet::{
    nonce, Direction, Ipv4Endpoint, PacketCodec, PacketError, PacketReceiver, SendSequence,
    SourceAddress, DIRECTION_MASK, HEADER_BYTES, MAX_PLAINTEXT_BYTES, MAX_SEQUENCE, OVERHEAD_BYTES,
    TAG_BYTES,
};

const KEY: [u8; 16] = [0x42; 16];

fn sealed(sequence: u64, plaintext: &[u8]) -> Vec<u8> {
    let key = SessionKey::new(KEY);
    let codec = PacketCodec::new(&key);
    let mut output = vec![0_u8; MAX_DATAGRAM_BYTES];
    let len = codec
        .seal(Direction::ServerToClient, sequence, plaintext, &mut output)
        .unwrap();
    output.truncate(len);
    output
}

fn endpoint(a: u8, b: u8, c: u8, d: u8, port: u16) -> Ipv4Endpoint {
    Ipv4Endpoint {
        address: u32::from_be_bytes([a, b, c, d]),
        port,
    }
}

#[test]
fn mosh_header_is_big_endian_and_forms_the_nonce() {
    let header = (DIRECTION_MASK | 0x0102_0304_0506_0708).to_be_bytes();
    assert_eq!(
        nonce(header),
        [0, 0, 0, 0, 0x81, 0x02, 0x03, 0x04, 0x05, 0x06, 0x07, 0x08]
    );
}

#[test]
fn seals_and_opens_a_bounded_datagram() {
    let mut datagram = sealed(7, b"authenticated payload");
    let key = SessionKey::new(KEY);
    let mut receiver = PacketReceiver::new(&key, Direction::ServerToClient);

    let packet = receiver.open(&mut datagram).unwrap();

    assert_eq!(packet.sequence, 7);
    assert_eq!(packet.plaintext, b"authenticated payload");
}

#[test]
fn rejects_wrong_keys_and_every_authenticated_region_change() {
    for changed_index in [HEADER_BYTES - 1, HEADER_BYTES, 24] {
        let mut datagram = sealed(3, b"payload");
        datagram[changed_index] ^= 1;
        let key = SessionKey::new(KEY);
        let mut receiver = PacketReceiver::new(&key, Direction::ServerToClient);
        assert_eq!(
            receiver.open(&mut datagram).unwrap_err(),
            PacketError::AuthenticationFailed
        );
    }

    let mut datagram = sealed(3, b"payload");
    let wrong_key = SessionKey::new([0x43; 16]);
    let mut receiver = PacketReceiver::new(&wrong_key, Direction::ServerToClient);
    assert_eq!(
        receiver.open(&mut datagram).unwrap_err(),
        PacketError::AuthenticationFailed
    );
}

#[test]
fn accepts_reordering_once_and_rejects_replay_and_old_packets() {
    let key = SessionKey::new(KEY);
    let mut receiver = PacketReceiver::new(&key, Direction::ServerToClient);

    for sequence in [65, 64, 2] {
        let mut datagram = sealed(sequence, b"payload");
        assert!(receiver.open(&mut datagram).is_ok());
    }
    let mut replay = sealed(64, b"payload");
    assert_eq!(receiver.open(&mut replay).unwrap_err(), PacketError::Replay);
    let replay_body_end = replay.len() - TAG_BYTES;
    assert!(
        replay[HEADER_BYTES..replay_body_end]
            .iter()
            .all(|byte| *byte == 0)
    );
    let mut old = sealed(1, b"payload");
    assert_eq!(receiver.open(&mut old).unwrap_err(), PacketError::TooOld);
}

#[test]
fn client_receiver_keeps_the_server_endpoint_fixed() {
    let expected = endpoint(192, 0, 2, 1, 60_001);
    let changed = endpoint(192, 0, 2, 2, 60_002);
    let mut datagram = sealed(7, b"server payload");
    let key = SessionKey::new(KEY);
    let mut receiver = PacketReceiver::new(&key, Direction::ServerToClient);

    assert_eq!(
        receiver
            .open_from(expected, SourceAddress::V4(changed), &mut datagram)
            .unwrap_err(),
        PacketError::UnexpectedSource
    );
    assert_eq!(
        receiver
            .open_from(expected, SourceAddress::Other, &mut datagram)
            .unwrap_err(),
        PacketError::UnexpectedSource
    );
    let packet = receiver
        .open_from(expected, SourceAddress::V4(expected), &mut datagram)
        .unwrap();
    assert_eq!(packet.sequence, 7);
    assert_eq!(packet.plaintext, b"server payload");
}

#[test]
fn enforces_packet_and_sequence_boundaries() {
    let key = SessionKey::new(KEY);
    let codec = PacketCodec::new(&key);
    let mut output = vec![0_u8; MAX_DATAGRAM_BYTES];
    assert!(
        codec
            .seal(
                Direction::ClientToServer,
                MAX_SEQUENCE,
                &vec![0; MAX_PLAINTEXT_BYTES],
                &mut output,
            )
            .is_ok()
    );
    assert_eq!(
        codec
            .seal(
                Direction::ClientToServer,
                MAX_SEQUENCE + 1,
                &[],
                &mut output,
            )
            .unwrap_err(),
        PacketError::InvalidSequence
    );

    let mut sequence = SendSequence::starting_at(MAX_SEQUENCE);
    assert_eq!(sequence.take().unwrap(), MAX_SEQUENCE);
    assert_eq!(sequence.take().unwrap_err(), PacketError::SequenceExhausted);
}

#[test]
fn rejects_short_oversized_and_insufficient_buffers() {
    let key = SessionKey::new(KEY);
    let codec = PacketCodec::new(&key);
    let mut short_output = [0_u8; OVERHEAD_BYTES - 1];
    assert_eq!(
        codec
            .seal(Direction::ClientToServer, 0, &[], &mut short_output)
            .unwrap_err(),
        PacketError::OutputTooSmall
    );

    let oversized_plaintext = vec![0_u8; MAX_PLAINTEXT_BYTES + 1];
    let mut output = vec![0_u8; MAX_DATAGRAM_BYTES + 1];
    assert_eq!(
        codec
            .seal(
                Direction::ClientToServer,
                0,
                &oversized_plaintext,
                &mut output,
            )
            .unwrap_err(),
        PacketError::PlaintextTooLarge
    );

    let mut receiver = PacketReceiver::new(&key, Direction::ServerToClient);
    assert_eq!(
        receiver.open(&mut [0_u8; OVERHEAD_BYTES - 1]).unwrap_err(),
        PacketError::DatagramTooShort
    );
    assert_eq!(
        receiver
            .open(&mut vec![0_u8; MAX_DATAGRAM_BYTES + 1])
            .unwrap_err(),
        PacketError::DatagramTooLarge
    );
}

#[test]
fn authentication_failure_clears_candidate_plaintext_and_cannot_advance_replay() {
    let key = SessionKey::new(KEY);
    let mut receiver = PacketReceiver::new(&key, Direction::ServerToClient);
    let mut corrupted = sealed(100, b"candidate plaintext");
    let last = corrupted.len() - 1;
    let body_end = corrupted.len() - TAG_BYTES;
    corrupted[last] ^= 1;

    assert_eq!(
        receiver.open(&mut corrupted).unwrap_err(),
        PacketError::AuthenticationFailed
    );
    assert!(
        corrupted[HEADER_BYTES..body_end]
            .iter()
            .all(|byte| *byte == 0)
    );

    let mut valid = sealed(1, b"valid");
    assert!(receiver.open(&mut valid).is_ok());
}

#[test]
fn rejects_the_wrong_direction_without_decrypting() {
    let key = SessionKey::new(KEY);
    let mut datagram = sealed(0, b"payload");
    let mut receiver = PacketReceiver::new(&key, Direction::ClientToServer);

    assert_eq!(
        receiver.open(&mut datagram).unwrap_err(),
        PacketError::WrongDirection
    );
}

#[test]
fn matches_rfc_7253_aes_128_vector_with_empty_associated_data() {
    let key = SessionKey::new([
        0x00, 0x01, 0x02, 0x03, 0x04, 0x05, 0x06, 0x07, 0x08, 0x09, 0x0a, 0x0b, 0x0c, 0x0d, 0x0e,
        0x0f,
    ]);
    let crypto = SessionCrypto::new(&key);
    let nonce = [
        0xbb, 0xaa, 0x99, 0x88, 0x77, 0x66, 0x55, 0x44, 0x33, 0x22, 0x11, 0x03,
    ];
    let mut plaintext = [0x00, 0x01, 0x02, 0x03, 0x04, 0x05, 0x06, 0x07];

    let tag = crypto.seal(nonce, &mut plaintext).unwrap();

    assert_eq!(plaintext, [0x45, 0xdd, 0x69, 0xf8, 0xf5, 0xaa, 0xe7, 0x24]);
    assert_eq!(
        tag,
        [
            0x14, 0x05, 0x4c, 0xd1, 0xf3, 0x5d, 0x82, 0x76, 0x0b, 0x2c, 0xd0, 0x0d, 0x2f, 0x99,
            0xbf, 0xa9,
        ]
    );
    assert_eq!(crypto.open(nonce, &mut plaintext, tag), Ok(()));
    assert_eq!(plaintext, [0x00, 0x01, 0x02, 0x03, 0x04, 0x05, 0x06, 0x07]);
}

#[test]
fn sealed_datagram_carries_header_ciphertext_and_tag() {
    let datagram = sealed(0x0102, b"abc");
    assert_eq!(datagram.len(), OVERHEAD_BYTES + 3);
    assert_eq!(&datagram[..8], &[0x80, 0, 0, 0, 0, 0, 0x01, 0x02]);
    assert_ne!(&datagram[8..11], b"abc");
}

#[test]
fn session_keys_can_be_zeroized() {
    let mut key = SessionKey::new(KEY);
    assert_eq!(key.as_bytes(), &KEY);
    key.zeroize();
    assert_eq!(key.as_bytes(), &[0; 16]);
}

#[test]
fn the_cipher_refuses_a_buffer_at_its_length_limit_unchanged() {
    let key = SessionKey::new([7; 16]);
    let crypto = SessionCrypto::new(&key);
    let nonce = [1; 12];
    let mut too_long = vec![0x5a_u8; mosh_client::crypto::MAX_SEALED_BYTES];
    assert_eq!(crypto.seal(nonce, &mut too_long), Err(()));
    assert!(too_long.iter().all(|byte| *byte == 0x5a));

    let mut just_below = vec![0x5a_u8; mosh_client::crypto::MAX_SEALED_BYTES - 1];
    let tag = crypto.seal(nonce, &mut just_below).unwrap();
    assert_ne!(just_below, vec![0x5a_u8; mosh_client::crypto::MAX_SEALED_BYTES - 1]);
    assert_eq!(crypto.open(nonce, &mut just_below, tag), Ok(()));
    assert_eq!(just_below, vec![0x5a_u8; mosh_client::crypto::MAX_SEALED_BYTES - 1]);
}

#[test]
fn the_cipher_refuses_to_open_a_buffer_at_its_length_limit_unchanged() {
    let key = SessionKey::new([7; 16]);
    let crypto = SessionCrypto::new(&key);
    let mut too_long = vec![0x5a_u8; mosh_client::crypto::MAX_SEALED_BYTES];
    assert_eq!(crypto.open([1; 12], &mut too_long, [0; 16]), Err(()));
    assert!(too_long.iter().all(|byte| *byte == 0x5a));
}
