//! Protocol, resource, and timer limits shared by every module.
use vstd::prelude::*;

verus! {

/// Bytes in a decoded AES-128 session key.
pub const DECODED_KEY_BYTES: usize = 16;
/// Characters in the unpadded standard Base64 form of the session key.
pub const ENCODED_KEY_BYTES: usize = 22;
/// Largest accepted bootstrap output.
pub const MAX_BOOTSTRAP_BYTES: usize = 4096;
/// Largest accepted number of physical bootstrap lines.
pub const MAX_BOOTSTRAP_LINES: usize = 64;

/// Largest authenticated UDP datagram sent or accepted.
pub const MAX_DATAGRAM_BYTES: usize = 1438;
/// Largest fragment body carried by one datagram.
pub const MAX_FRAGMENT_BODY_BYTES: usize = 1400;
/// Fragment numbers of one instruction are below this bound.
pub const MAX_FRAGMENTS_PER_INSTRUCTION: usize = 749;
/// Largest compressed transport instruction.
pub const MAX_COMPRESSED_INSTRUCTION_BYTES: usize = 1048576;
/// Largest decompressed transport instruction.
pub const MAX_DECOMPRESSED_INSTRUCTION_BYTES: usize = 1048576;
/// Lifetime of an incomplete instruction, counted from its first fragment.
pub const INCOMPLETE_INSTRUCTION_LIFETIME_MS: u64 = 10000;

/// Largest encoded terminal state difference.
pub const MAX_STATE_DIFFERENCE_BYTES: usize = 262144;
/// Largest number of unacknowledged client operations.
pub const MAX_CLIENT_OPERATIONS_AFTER_ACK: usize = 1024;
/// Largest single input command.
pub const MAX_INPUT_COMMAND_BYTES: usize = 65536;
/// Largest number of operations in one host difference.
pub const MAX_TERMINAL_OPERATIONS_PER_DIFFERENCE: usize = 4096;
/// Largest terminal width.
pub const MAX_TERMINAL_COLUMNS: u32 = 1024;
/// Largest terminal height.
pub const MAX_TERMINAL_ROWS: u32 = 1024;
/// Largest number of visible terminal cells.
pub const MAX_TERMINAL_VISIBLE_CELLS: u64 = 262144;
/// Largest number of Unicode scalars kept in one terminal cell.
pub const MAX_UNICODE_SCALARS_PER_CELL: usize = 8;
/// Largest painted output chunk.
pub const MAX_OUTPUT_CHUNK_BYTES: usize = 4194304;

/// Retransmission timeout before any RTT sample.
pub const INITIAL_RETRANSMISSION_TIMEOUT_MS: u64 = 1000;
/// Smallest retransmission timeout.
pub const MIN_RETRANSMISSION_TIMEOUT_MS: u64 = 50;
/// Largest retransmission timeout.
pub const MAX_RETRANSMISSION_TIMEOUT_MS: u64 = 5000;
/// Smallest frame interval.
pub const MIN_FRAME_INTERVAL_MS: u64 = 20;
/// Largest frame interval.
pub const MAX_FRAME_INTERVAL_MS: u64 = 250;
/// Largest plausible RTT sample.
pub const MAX_RTT_SAMPLE_MS: u64 = 60000;
/// A received timestamp older than this is not echoed.
pub const MAX_TIMESTAMP_REPLY_AGE_MS: u64 = 1000;
/// Local changes are collected for this long before a send.
pub const STATE_CHANGE_COLLECTION_MS: u64 = 15;
/// Largest delay before an acknowledgement is sent.
pub const MAX_ACKNOWLEDGEMENT_DELAY_MS: u64 = 100;
/// Interval between heartbeats when nothing else is sent.
pub const HEARTBEAT_INTERVAL_MS: u64 = 3000;

/// Largest number of retained sent states beyond the acknowledged one.
pub const MAX_SENT_STATES_AFTER_ACK: usize = 32;
/// Largest number of retained received reference states.
pub const MAX_RECEIVED_REFERENCE_STATES: usize = 32;

/// Deadline for the first complete authenticated remote state.
pub const INITIAL_ATTACHMENT_TIMEOUT_MS: u64 = 15000;
/// Contact older than this is reported as an interruption.
pub const NO_RECENT_CONTACT_MS: u64 = 6500;
/// Reply progress older than this is reported as an interruption.
pub const NO_RECENT_REPLY_MS: u64 = 10000;

/// Largest age of a pending local prediction.
pub const MAX_PREDICTION_AGE_MS: u64 = 10000;
/// Largest number of pending predicted scalars.
pub const MAX_PENDING_PREDICTION_SCALARS: usize = 32;
/// Largest number of pending predicted bytes.
pub const MAX_PENDING_PREDICTION_BYTES: usize = 64;
/// A frame interval above this marks the link as slow.
pub const ADAPTIVE_PREDICTION_ENABLE_FRAME_MS: u64 = 30;
/// A frame interval at or below this clears the slow-link mark.
pub const ADAPTIVE_PREDICTION_DISABLE_FRAME_MS: u64 = 20;
/// An unconfirmed prediction older than this is shown as a glitch.
pub const ADAPTIVE_PREDICTION_GLITCH_MS: u64 = 250;

/// How long a local graceful close waits for the peer's acknowledgement.
pub const GRACEFUL_CLOSE_ACK_TIMEOUT_MS: u64 = 3000;
/// Capacity of the Session command queue.
pub const SESSION_COMMAND_QUEUE_CAPACITY: usize = 64;
/// Capacity of the Session output queue.
pub const PENDING_OUTPUT_CHUNKS: usize = 1;

} // verus!
