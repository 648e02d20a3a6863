use std::io::ErrorKind;

use mosh_client::crypto::SessionKey;
use mosh_client::driver::{
    classify_send, ends_local_close, CloseStep, DatagramOutcome, GracefulClose, SendAttempt,
    SessionCore,
};
use mosh_client::fragment::{self, FragmentReassembler, ReassemblyOutcome};
use mosh_client::instruction::{
    ClientOperation, TransportInstruction, PROTOCOL_VERSION, SHUTDOWN_STATE,
};
use mosh_client::limits::MAX_DATAGRAM_BYTES;
use mosh_client::packet::{
    Direction, Ipv4Endpoint, PacketCodec, PacketError, PacketReceiver, SourceAddress,
};
use mosh_client::session::{
    check_input, check_open, check_resize, is_recoverable_established_io_error, DriverError,
    InstructionIdentifier,
};
use mosh_client::synchronization::RemoteStateDisposition;
use mosh_client::terminal::{choose_repaint, Repaint, TerminalError};
use mosh_client::timing::SchedulerPoll;
use mosh_client::{
    exercise_state_transitions, exercise_untrusted_parsers, SessionCommandError, SessionError,
    SessionReachability, SessionState,
};

const TEST_KEY: [u8; 16] = [0x42; 16];

fn server() -> Ipv4Endpoint {
    Ipv4Endpoint {
        address: u32::from_be_bytes([127, 0, 0, 1]),
        port: 65_000,
    }
}

fn fresh_core() -> SessionCore {
    SessionCore::new(server(), &SessionKey::new(TEST_KEY), 80, 24).unwrap()
}

fn server_datagram(sequence: u64, instruction: &TransportInstruction) -> Vec<u8> {
    let codec = PacketCodec::new(&SessionKey::new(TEST_KEY));
    let compressed = instruction.encode_zlib().unwrap();
    let mut plaintext = vec![0_u8; MAX_DATAGRAM_BYTES];
    let plaintext_len = fragment::encode(
        7,
        None,
        sequence,
        0,
        true,
        &compressed,
        &mut plaintext,
    )
    .unwrap();
    let mut datagram = vec![0_u8; MAX_DATAGRAM_BYTES];
    let length = codec
        .seal(
            Direction::ServerToClient,
            sequence,
            &plaintext[..plaintext_len],
            &mut datagram,
        )
        .unwrap();
    datagram.truncate(length);
    datagram
}

#[test]
fn public_session_validates_initial_size_without_starting_a_task() {
    for (columns, rows) in [(0, 0), (80, 0), (0, 24)] {
        let result = SessionCore::new(server(), &SessionKey::new(TEST_KEY), columns, rows);
        let error = result.err().unwrap();
        assert_eq!(
            error,
            DriverError::Terminal(TerminalError::InvalidTerminalSize)
        );
        assert_eq!(SessionError::from(error), SessionError::InvalidTerminalSize);
    }
}

#[test]
fn new_core_starts_connecting_with_the_initial_size_due() {
    let mut driver = fresh_core();
    assert_eq!(driver.remote_latest(), 0);
    assert_eq!(driver.local_latest(), 1);
    assert_eq!(driver.server_addr(), server());
    assert_eq!(driver.reachability(), SessionReachability::AwaitingPeer);
    assert!(driver.receive_enabled(0));
    assert!(matches!(driver.poll_scheduler(0), Ok(SchedulerPoll::Pending { .. })));
}

#[test]
fn initial_instruction_opens_at_the_server_with_the_initial_size() {
    let mut driver = fresh_core();
    let (plan, instruction) = driver.plan_instruction(20).unwrap();
    assert_eq!(instruction.protocol_version, PROTOCOL_VERSION);
    assert_eq!(instruction.base_state, 0);
    assert_eq!(instruction.new_state, 1);
    assert!(!instruction.state_difference.is_empty());

    let outgoing = driver.begin_transport(&instruction, 20).unwrap();
    assert_eq!(outgoing.fragment_count, 1);
    let mut datagram = driver.seal_fragment(&outgoing, 0).unwrap();
    assert!(datagram.len() <= MAX_DATAGRAM_BYTES);

    let mut receiver = PacketReceiver::new(&SessionKey::new(TEST_KEY), Direction::ClientToServer);
    let opened = receiver.open(&mut datagram).unwrap();
    assert_eq!(opened.sequence, 0);
    let decoded = fragment::decode(&opened.plaintext).unwrap();
    assert_eq!(decoded.identifier, outgoing.identifier);
    assert!(decoded.is_final);
    assert_eq!(
        TransportInstruction::decode_zlib(decoded.body).unwrap(),
        instruction
    );
    driver.commit_instruction(plan, None).unwrap();
}

#[test]
fn datagrams_from_elsewhere_are_dropped_and_the_server_state_applies() {
    let mut driver = fresh_core();
    let state = TransportInstruction {
        protocol_version: PROTOCOL_VERSION,
        base_state: 0,
        new_state: 1,
        acknowledged_state: 0,
        discard_before_state: 0,
        state_difference: Vec::new(),
        chaff: Vec::new(),
    };
    let mut datagram = server_datagram(0, &state);
    let elsewhere = Ipv4Endpoint {
        address: server().address,
        port: 65_001,
    };
    assert_eq!(
        driver.decode_datagram(&mut datagram, SourceAddress::V4(elsewhere), 5),
        Ok(None)
    );
    assert_eq!(
        driver.decode_datagram(&mut datagram, SourceAddress::Other, 5),
        Ok(None)
    );
    let received = driver
        .decode_datagram(&mut datagram, SourceAddress::V4(server()), 5)
        .unwrap()
        .unwrap();
    assert_eq!(received, state);

    let disposition = driver.begin_instruction(&received, 5).unwrap();
    let RemoteStateDisposition::Apply(apply) = disposition else {
        panic!("expected the first server state to be applicable")
    };
    let (_, latest) = driver.commit_remote_state(apply, 5).unwrap();
    assert!(latest);
    assert_eq!(driver.remote_latest(), 1);

    let mut replayed = server_datagram(0, &state);
    assert_eq!(
        driver.decode_datagram(&mut replayed, SourceAddress::V4(server()), 6),
        Ok(None)
    );
}

#[test]
fn client_input_advances_the_local_state() {
    let mut driver = fresh_core();
    driver.advance_client(ClientOperation::Input(b"ls\r".to_vec()), 10)
        .unwrap();
    assert_eq!(driver.local_latest(), 2);
    let (_, instruction) = driver.plan_instruction(30).unwrap();
    assert_eq!(instruction.base_state, 0);
    assert_eq!(instruction.new_state, 2);
}

#[test]
fn driver_errors_are_reported_by_category() {
    assert_eq!(
        SessionError::from(DriverError::ConnectionTimeout),
        SessionError::ConnectionTimeout
    );
    assert_eq!(
        SessionError::from(DriverError::Io(ErrorKind::ConnectionRefused)),
        SessionError::Io(ErrorKind::ConnectionRefused)
    );
    assert_eq!(
        SessionError::from(DriverError::Packet(PacketError::SequenceExhausted)),
        SessionError::StateExhausted
    );
    assert_eq!(
        SessionError::from(DriverError::MissingClientState),
        SessionError::InternalState
    );
}

#[test]
fn instruction_identifiers_count_up_from_zero() {
    let mut identifiers = InstructionIdentifier::new();
    assert_eq!(identifiers.take(), Ok(0));
    assert_eq!(identifiers.take(), Ok(1));
    assert_eq!(identifiers.take(), Ok(2));
}

#[test]
fn state_transition_exercise_accepts_arbitrary_input() {
    exercise_state_transitions(&[]);
    exercise_state_transitions(&[0xff; 16 * 300]);
    let bytes: Vec<u8> = (0..=255).cycle().take(16 * 64).collect();
    exercise_state_transitions(&bytes);
}

#[test]
fn remote_shutdown_outcome_is_distinct() {
    assert_ne!(DatagramOutcome::Continue, DatagramOutcome::RemoteShutdown);
}

#[test]
fn untrusted_parser_exercise_accepts_arbitrary_input() {
    exercise_untrusted_parsers(&[]);
    exercise_untrusted_parsers(b"MOSH CONNECT 60001 4NeCCgvZFe2RnPgrcU1PQw\n");
    exercise_untrusted_parsers(&[0xff; MAX_DATAGRAM_BYTES + 40]);
    let fragment: Vec<u8> = vec![0, 1, 0xff, 0xff, 0, 0, 0, 0, 0, 0, 0, 9, 0, 3, 0x78, 0x9c];
    exercise_untrusted_parsers(&fragment);
}

#[test]
fn only_temporary_path_loss_on_an_active_session_is_retried() {
    for kind in [
        ErrorKind::NetworkDown,
        ErrorKind::NetworkUnreachable,
        ErrorKind::HostUnreachable,
        ErrorKind::AddrNotAvailable,
        ErrorKind::PermissionDenied,
    ] {
        assert!(is_recoverable_established_io_error(kind));
        assert_eq!(classify_send(Err(kind), 10, true), Ok(SendAttempt::Deferred));
        assert_eq!(
            classify_send(Err(kind), 10, false),
            Err(DriverError::Io(kind))
        );
    }
    for kind in [ErrorKind::ConnectionRefused, ErrorKind::WouldBlock, ErrorKind::Other] {
        assert!(!is_recoverable_established_io_error(kind));
        assert_eq!(classify_send(Err(kind), 10, true), Err(DriverError::Io(kind)));
    }
    assert_eq!(classify_send(Ok(10), 10, false), Ok(SendAttempt::Sent));
    assert_eq!(
        classify_send(Ok(9), 10, true),
        Err(DriverError::IncompleteDatagramSend)
    );
    assert_eq!(
        SessionError::from(DriverError::IncompleteDatagramSend),
        SessionError::Io(ErrorKind::WriteZero)
    );
}

#[test]
fn receive_failures_defer_reading_only_when_recoverable() {
    let mut driver = fresh_core();
    assert_eq!(
        driver.receive_failed(ErrorKind::NetworkDown, false, 50),
        Err(DriverError::Io(ErrorKind::NetworkDown))
    );
    assert_eq!(driver.receive_not_before_ms(), 0);
    assert_eq!(driver.receive_failed(ErrorKind::NetworkDown, true, 50), Ok(()));
    assert_eq!(driver.io_retry_ms(), 1_000);
    assert_eq!(driver.receive_not_before_ms(), 1_050);
    assert!(!driver.receive_enabled(1_049));
    assert!(driver.receive_enabled(1_050));
    driver.resume_receive();
    assert_eq!(driver.receive_not_before_ms(), 0);
    assert_eq!(
        driver.receive_failed(ErrorKind::HostUnreachable, true, u64::MAX - 10),
        Err(DriverError::ClockExhausted)
    );
}

#[test]
fn graceful_close_repeats_requests_until_its_deadline() {
    let mut close = GracefulClose::start(100).unwrap();
    assert_eq!(close.step(100), CloseStep::SendDue);
    close.retry_after(100, 300).unwrap();
    assert_eq!(close.step(399), CloseStep::Wait);
    assert_eq!(close.step(400), CloseStep::SendDue);
    assert_eq!(close.wake_ms(true, 0), 400);
    assert_eq!(close.wake_ms(false, 250), 250);
    close.retry_after(400, 5_000).unwrap();
    assert_eq!(close.wake_ms(true, 0), 3_100);
    assert_eq!(close.step(3_099), CloseStep::Wait);
    assert_eq!(close.step(3_100), CloseStep::Expired);
    assert_eq!(
        close.retry_after(u64::MAX, 1),
        Err(DriverError::ClockExhausted)
    );
    assert!(GracefulClose::start(u64::MAX - 2_999).is_err());
}

#[test]
fn close_replies_acknowledge_with_the_known_receiver_state() {
    let driver = fresh_core();
    let reply = TransportInstruction {
        protocol_version: PROTOCOL_VERSION,
        base_state: 0,
        new_state: 1,
        acknowledged_state: SHUTDOWN_STATE,
        discard_before_state: 0,
        state_difference: Vec::new(),
        chaff: Vec::new(),
    };
    assert!(ends_local_close(&reply));
    let ordinary = driver.ordinary_close_reply(reply.clone());
    assert_eq!(ordinary.acknowledged_state, driver.known_receiver_state());
    assert_eq!(ordinary.new_state, 1);

    let plain = TransportInstruction {
        acknowledged_state: 0,
        ..reply
    };
    assert!(!ends_local_close(&plain));
    assert_eq!(driver.ordinary_close_reply(plain.clone()), plain);

    let request = driver.shutdown_request().unwrap();
    assert_eq!(request.new_state, SHUTDOWN_STATE);
    assert!(ends_local_close(&request));
}

#[test]
fn commands_are_checked_before_queueing() {
    assert_eq!(
        check_input(&vec![0; 64 * 1024 + 1]),
        Err(SessionCommandError::InputTooLarge)
    );
    assert_eq!(check_input(&vec![0; 64 * 1024]), Ok(()));
    assert_eq!(check_input(&[]), Ok(()));
    assert_eq!(
        check_resize(0, 24),
        Err(SessionCommandError::InvalidTerminalSize)
    );
    assert_eq!(
        check_resize(1025, 24),
        Err(SessionCommandError::InvalidTerminalSize)
    );
    assert_eq!(check_resize(100, 30), Ok(()));
    assert_eq!(check_open(false, false, SessionState::Connecting), Ok(()));
    assert_eq!(check_open(false, false, SessionState::Active), Ok(()));
    assert_eq!(
        check_open(true, false, SessionState::Active),
        Err(SessionCommandError::Closed)
    );
    assert_eq!(
        check_open(false, true, SessionState::Active),
        Err(SessionCommandError::Closed)
    );
    assert_eq!(
        check_open(false, false, SessionState::Closed),
        Err(SessionCommandError::Closed)
    );
}

#[test]
fn repaints_are_full_unless_only_changes_are_needed() {
    assert_eq!(choose_repaint(false, true, true), Repaint::Incremental);
    assert_eq!(choose_repaint(true, true, true), Repaint::Full);
    assert_eq!(choose_repaint(false, false, true), Repaint::Full);
    assert_eq!(choose_repaint(false, true, false), Repaint::Full);
}

#[test]
fn a_sealed_multi_fragment_instruction_reassembles_at_the_server_in_any_order() {
    let mut driver = fresh_core();
    let mut noise = 0x2545_f491_u32;
    let difference: Vec<u8> = (0..6_000)
        .map(|_| {
            noise ^= noise << 13;
            noise ^= noise >> 17;
            noise ^= noise << 5;
            (noise >> 24) as u8
        })
        .collect();
    let instruction = TransportInstruction {
        protocol_version: PROTOCOL_VERSION,
        base_state: 0,
        new_state: 1,
        acknowledged_state: 0,
        discard_before_state: 0,
        state_difference: difference,
        chaff: vec![0],
    };
    let outgoing = driver.begin_transport(&instruction, 10).unwrap();
    assert!(outgoing.fragment_count >= 3);
    let datagrams: Vec<Vec<u8>> = (0..outgoing.fragment_count)
        .map(|number| driver.seal_fragment(&outgoing, number).unwrap())
        .collect();

    let mut receiver = PacketReceiver::new(&SessionKey::new(TEST_KEY), Direction::ClientToServer);
    let mut reassembler = FragmentReassembler::new(0);
    let mut outcome = ReassemblyOutcome::Pending;
    for mut datagram in datagrams.into_iter().rev() {
        assert_eq!(outcome, ReassemblyOutcome::Pending);
        let opened = receiver.open(&mut datagram).unwrap();
        let decoded = fragment::decode(&opened.plaintext).unwrap();
        assert_eq!(decoded.identifier, outgoing.identifier);
        outcome = reassembler.push(20, decoded).unwrap();
    }
    let ReassemblyOutcome::Complete(compressed) = outcome else {
        panic!("the last fragment did not complete the instruction")
    };
    assert_eq!(compressed, outgoing.compressed);
    assert_eq!(
        TransportInstruction::decode_zlib(&compressed).unwrap(),
        instruction
    );
}

#[test]
fn only_a_connecting_session_becomes_active_on_remote_state() {
    assert_eq!(SessionState::Connecting.after_remote_state(), SessionState::Active);
    assert_eq!(SessionState::Active.after_remote_state(), SessionState::Active);
    assert_eq!(SessionState::Closed.after_remote_state(), SessionState::Closed);
}

#[test]
fn zeroizing_the_core_clears_its_keys_and_keeps_its_state() {
    let key = SessionKey::new([0x42; 16]);
    let server = Ipv4Endpoint { address: 0x7f00_0001, port: 60001 };
    let mut core = SessionCore::new(server, &key, 80, 24).unwrap();
    let before = core.local_latest();
    core.zeroize_keys();
    assert_eq!(core.local_latest(), before);
    let zero_codec = PacketCodec::new(&SessionKey::new([0; 16]));
    let mut datagram = vec![0_u8; MAX_DATAGRAM_BYTES];
    let n = zero_codec
        .seal(Direction::ServerToClient, 0, &[1, 2, 3], &mut datagram)
        .unwrap();
    datagram.truncate(n);
    // A datagram sealed under the all-zero key now authenticates.
    let result = core.decode_datagram(&mut datagram, SourceAddress::V4(server), 0);
    assert!(!matches!(result, Ok(None)));
}
