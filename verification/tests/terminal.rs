use mosh_client::limits::{
    MAX_OUTPUT_CHUNK_BYTES, MAX_STATE_DIFFERENCE_BYTES, MAX_TERMINAL_COLUMNS,
    MAX_TERMINAL_OPERATIONS_PER_DIFFERENCE,
};
use mosh_client::terminal::{
    bounded, checked_size, full_paint, is_suppressed_external_policy_sequence, is_valid_size,
    next_echo_acknowledgement, PaintError, ScalarBudget, TerminalDifference, TerminalError,
    TerminalOperation,
};

fn varint(mut value: u64, out: &mut Vec<u8>) {
    while value >= 0x80 {
        out.push((value as u8 & 0x7f) | 0x80);
        value >>= 7;
    }
    out.push(value as u8);
}

fn length_delimited(tag: u64, payload: &[u8], out: &mut Vec<u8>) {
    varint(tag << 3 | 2, out);
    varint(payload.len() as u64, out);
    out.extend_from_slice(payload);
}

fn varint_field(tag: u64, value: u64, out: &mut Vec<u8>) {
    if value != 0 {
        varint(tag << 3, out);
        varint(value, out);
    }
}

fn host_bytes_operation(bytes: &[u8]) -> Vec<u8> {
    let mut inner = Vec::new();
    if !bytes.is_empty() {
        length_delimited(4, bytes, &mut inner);
    }
    let mut operation = Vec::new();
    length_delimited(2, &inner, &mut operation);
    operation
}

fn size_message(columns: u32, rows: u32) -> Vec<u8> {
    let mut size = Vec::new();
    varint_field(5, u64::from(columns), &mut size);
    varint_field(6, u64::from(rows), &mut size);
    size
}

fn difference(operations: &[Vec<u8>]) -> Vec<u8> {
    let mut out = Vec::new();
    for operation in operations {
        length_delimited(1, operation, &mut out);
    }
    out
}

#[test]
fn decodes_each_verified_server_operation() {
    let host_bytes =
        TerminalDifference::decode(&difference(&[host_bytes_operation("A中Z".as_bytes())])).unwrap();
    assert_eq!(
        host_bytes.operations,
        [TerminalOperation::HostBytes("A中Z".as_bytes().to_vec())]
    );

    let mut resize_operation = Vec::new();
    length_delimited(3, &size_message(81, 25), &mut resize_operation);
    let resize = TerminalDifference::decode(&difference(&[resize_operation])).unwrap();
    assert_eq!(
        resize.operations,
        [TerminalOperation::Resize {
            columns: 81,
            rows: 25
        }]
    );

    let mut echo_message = Vec::new();
    varint_field(8, 7, &mut echo_message);
    let mut echo_operation = Vec::new();
    length_delimited(7, &echo_message, &mut echo_operation);
    let echo = TerminalDifference::decode(&difference(&[echo_operation])).unwrap();
    assert_eq!(echo.operations, [TerminalOperation::EchoAcknowledgement(7)]);
    assert_eq!(echo.latest_echo_acknowledgement(), Some(7));
    assert_eq!(host_bytes.latest_echo_acknowledgement(), None);
}

#[test]
fn rejects_oversized_malformed_ambiguous_and_excessive_messages() {
    assert_eq!(
        TerminalDifference::decode(&vec![0; MAX_STATE_DIFFERENCE_BYTES + 1]),
        Err(TerminalError::DifferenceTooLarge)
    );
    assert_eq!(
        TerminalDifference::decode(&[0x0a, 0x02, 0xff]),
        Err(TerminalError::InvalidMessage)
    );

    let mut ambiguous = host_bytes_operation(&[]);
    length_delimited(3, &size_message(80, 24), &mut ambiguous);
    assert_eq!(
        TerminalDifference::decode(&difference(&[ambiguous])),
        Err(TerminalError::InvalidOperation)
    );

    let operations = vec![host_bytes_operation(&[]); MAX_TERMINAL_OPERATIONS_PER_DIFFERENCE + 1];
    assert_eq!(
        TerminalDifference::decode(&difference(&operations)),
        Err(TerminalError::TooManyOperations)
    );
}

#[test]
fn bounded_output_rejects_oversized_chunks() {
    assert_eq!(
        bounded(vec![0; MAX_OUTPUT_CHUNK_BYTES + 1]),
        Err(PaintError::OutputTooLarge)
    );
    assert_eq!(bounded(vec![1, 2]), Ok(vec![1, 2]));
}

#[test]
fn repeated_sub_messages_merge_and_empty_operations_are_refused() {
    let mut merged = Vec::new();
    length_delimited(3, &size_message(80, 0), &mut merged);
    length_delimited(3, &size_message(0, 30), &mut merged);
    let decoded = TerminalDifference::decode(&difference(&[merged])).unwrap();
    assert_eq!(
        decoded.operations,
        [TerminalOperation::Resize {
            columns: 80,
            rows: 30
        }]
    );
    assert_eq!(
        TerminalDifference::decode(&difference(&[Vec::new()])),
        Err(TerminalError::InvalidOperation)
    );
    assert!(TerminalDifference::decode(&[]).unwrap().operations.is_empty());
    assert_eq!(
        TerminalDifference::decode(&[0x08, 0x01]),
        Err(TerminalError::InvalidMessage)
    );
}

#[test]
fn the_latest_echo_acknowledgement_is_the_last_one() {
    let mut first = Vec::new();
    varint_field(8, 3, &mut first);
    let mut second = Vec::new();
    varint_field(8, 9, &mut second);
    let mut a = Vec::new();
    length_delimited(7, &first, &mut a);
    let mut b = Vec::new();
    length_delimited(7, &second, &mut b);
    let decoded =
        TerminalDifference::decode(&difference(&[a, host_bytes_operation(b"x"), b])).unwrap();
    assert_eq!(decoded.latest_echo_acknowledgement(), Some(9));
}

#[test]
fn validates_terminal_dimensions_and_visible_cells() {
    assert_eq!(checked_size(0, 24), Err(TerminalError::InvalidTerminalSize));
    assert_eq!(
        checked_size(MAX_TERMINAL_COLUMNS + 1, 24),
        Err(TerminalError::InvalidTerminalSize)
    );
    assert_eq!(checked_size(500, 200), Ok((200, 500)));
    assert_eq!(checked_size(1024, 1024), Err(TerminalError::InvalidTerminalSize));
    assert!(is_valid_size(80, 24));
    assert!(!is_valid_size(80, 0));
}

#[test]
fn echo_acknowledgements_never_move_backwards() {
    assert_eq!(next_echo_acknowledgement(None, 0), Ok(0));
    assert_eq!(next_echo_acknowledgement(Some(5), 5), Ok(5));
    assert_eq!(
        next_echo_acknowledgement(Some(5), 4),
        Err(TerminalError::InvalidOperation)
    );
}

#[test]
fn accepts_only_verified_external_policy_resets() {
    fn suppressed(intermediate: Option<u8>, params: &[&[u16]], final_character: char) -> bool {
        is_suppressed_external_policy_sequence(intermediate, params, final_character)
    }
    for parameter in [1001_u16, 1004, 1015] {
        let single: &[u16] = &[parameter];
        assert!(suppressed(Some(b'?'), &[single], 'l'));
    }
    let focus: &[u16] = &[1004];
    let mouse: &[u16] = &[1015];
    let other: &[u16] = &[1];
    let pair: &[u16] = &[1004, 1];
    assert!(suppressed(Some(b'?'), &[focus], 'h'));
    assert!(!suppressed(Some(b'?'), &[mouse], 'h'));
    assert!(!suppressed(None, &[focus], 'l'));
    assert!(!suppressed(Some(b'?'), &[focus, other], 'l'));
    assert!(!suppressed(Some(b'?'), &[pair], 'l'));
}

#[test]
fn scalar_budget_limits_combining_characters_per_cell() {
    let mut budget = ScalarBudget::new();
    budget.print('e');
    for _ in 0..7 {
        budget.print('\u{301}');
    }
    assert_eq!(budget.error, None);
    assert_eq!(budget.scalars, 8);
    budget.print('\u{301}');
    assert_eq!(budget.error, Some(TerminalError::TooManyScalarsInCell));

    let mut lone = ScalarBudget::new();
    lone.print('\u{301}');
    assert_eq!(lone.error, Some(TerminalError::TooManyScalarsInCell));

    let mut control = ScalarBudget::new();
    control.print('\u{7f}');
    assert_eq!(control.error, Some(TerminalError::UnsupportedControl));

    let mut wide = ScalarBudget::new();
    wide.print('中');
    assert_eq!(wide.utf8_bytes, 3);
    wide.csi_dispatch('m');
    assert_eq!(wide.scalars, 1);
    wide.csi_dispatch('H');
    assert_eq!(wide.scalars, 0);
}

#[test]
fn validation_outcome_requires_the_sentinel_alone() {
    let mut budget = ScalarBudget::new();
    budget.print('a');
    let before = budget.prints;
    budget.print('X');
    assert_eq!(budget.outcome(before), Ok(()));
    assert_eq!(budget.outcome(before + 1), Err(TerminalError::IncompleteSequence));
}

#[test]
fn full_paint_starts_with_the_policy_reset() {
    let painted = full_paint(b"screen").unwrap();
    assert_eq!(&painted[..8], b"\x1b[?1001l");
    assert!(painted.ends_with(b"screen"));
    assert_eq!(
        full_paint(&vec![0; MAX_OUTPUT_CHUNK_BYTES]),
        Err(PaintError::OutputTooLarge)
    );
}
