use mosh_client::instruction::{encode_client_difference, ClientOperation, InstructionError};
use mosh_client::limits::MAX_CLIENT_OPERATIONS_AFTER_ACK;
use mosh_client::session::{ClientHistory, DriverError};

#[test]
fn encodes_only_operations_after_the_selected_reference() {
    let mut history = ClientHistory::new();
    history
        .append(ClientOperation::Resize {
            columns: 80,
            rows: 24,
        })
        .unwrap();
    history.checkpoint(1);
    history
        .append(ClientOperation::Input(b"hello\n".to_vec()))
        .unwrap();
    history.checkpoint(2);

    assert_eq!(
        history.difference(1, 2).unwrap(),
        encode_client_difference(&[ClientOperation::Input(b"hello\n".to_vec())]).unwrap()
    );
    history.acknowledge(1).unwrap();
    assert_eq!(history.operation_offset(), 1);
    assert_eq!(history.operation_count(), 1);
    assert!(!history.has_checkpoint(0));
}

#[test]
fn unchanged_checkpoint_encodes_an_empty_acknowledgement() {
    let mut history = ClientHistory::new();
    history.checkpoint(1);

    assert_eq!(
        history.difference(0, 1).unwrap(),
        encode_client_difference(&[]).unwrap()
    );
}

#[test]
fn acknowledgement_before_unsent_change_preserves_later_input_once() {
    let mut history = ClientHistory::new();
    history
        .append(ClientOperation::Resize {
            columns: 80,
            rows: 24,
        })
        .unwrap();
    history.checkpoint(1);
    history
        .append(ClientOperation::Input(b"pending".to_vec()))
        .unwrap();
    history.checkpoint(2);

    history.acknowledge(1).unwrap();
    assert_eq!(
        history.difference(1, 2).unwrap(),
        encode_client_difference(&[ClientOperation::Input(b"pending".to_vec())]).unwrap()
    );
    history.acknowledge(2).unwrap();
    assert_eq!(history.operation_count(), 0);
}

#[test]
fn unknown_states_and_full_histories_are_refused() {
    let mut history = ClientHistory::new();
    assert_eq!(history.difference(0, 5), Err(DriverError::MissingClientState));
    assert_eq!(history.acknowledge(5), Err(DriverError::MissingClientState));
    for _ in 0..MAX_CLIENT_OPERATIONS_AFTER_ACK {
        history.append(ClientOperation::Input(b"x".to_vec())).unwrap();
    }
    assert_eq!(
        history.append(ClientOperation::Input(b"x".to_vec())),
        Err(DriverError::Instruction(InstructionError::TooManyClientOperations))
    );
    assert_eq!(history.operation_count(), MAX_CLIENT_OPERATIONS_AFTER_ACK);
}

#[test]
fn an_operation_that_breaks_a_limit_is_not_retained() {
    let mut history = ClientHistory::new();
    assert_eq!(
        history.append(ClientOperation::Resize { columns: 0, rows: 1 }),
        Err(DriverError::Instruction(InstructionError::InvalidTerminalSize))
    );
    assert_eq!(history.operation_count(), 0);
    history.checkpoint(3);
    history.remove_checkpoint(3);
    assert!(!history.has_checkpoint(3));
    assert!(history.has_checkpoint(0));
}
