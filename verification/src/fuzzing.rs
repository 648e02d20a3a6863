//! An entry point that drives the fragment, synchronization, and scheduling
//! state machines from arbitrary bytes, with their resource bounds proved
//! after every step.
use vstd::prelude::*;

use crate::bootstrap::Bootstrap;
use crate::bytes::{be_value, read_be};
use crate::crypto::SessionKey;
use crate::fragment::{Fragment, FragmentReassembler};
use crate::instruction::{TransportInstruction, PROTOCOL_VERSION};
use crate::limits::{
    MAX_COMPRESSED_INSTRUCTION_BYTES, MAX_DATAGRAM_BYTES, MAX_RECEIVED_REFERENCE_STATES,
    MAX_SENT_STATES_AFTER_ACK,
};
use crate::packet::{Direction, PacketReceiver};
use crate::terminal::TerminalDifference;
use crate::synchronization::{RemoteStateDisposition, SynchronizationState};
use crate::timing::{RttEstimator, SchedulerPoll, SendScheduler};

verus! {

/// The first eight bytes of `bytes`, zero-padded.
pub open spec fn padded(bytes: Seq<u8>) -> Seq<u8> {
    Seq::new(8, |i: int| if i < bytes.len() { bytes[i] } else { 0u8 })
}

/// The first eight bytes of `bytes`, zero-padded to eight.
pub fn padded_eight(bytes: &[u8]) -> (r: [u8; 8])
    ensures
        r@ == padded(bytes@),
{
    let mut out = [0u8; 8];
    let mut i: usize = 0;
    while i < 8 && i < bytes.len()
        invariant
            i <= 8,
            i <= bytes@.len(),
            out@.len() == 8,
            forall|k: int| 0 <= k < i ==> out@[k] == bytes@[k],
            forall|k: int| i <= k < 8 ==> out@[k] == 0,
        decreases 8 - i,
    {
        out[i] = bytes[i];
        i = i + 1;
    }
    assert(out@ =~= padded(bytes@));
    out
}

/// The little-endian value of eight bytes.
fn little_endian(bytes: [u8; 8]) -> (r: u64)
    ensures
        r as nat == be_value(bytes@.reverse()),
{
    let mut reversed = [0u8; 8];
    let mut i: usize = 0;
    while i < 8
        invariant
            i <= 8,
            reversed@.len() == 8,
            forall|k: int| 0 <= k < i ==> reversed@[k] == bytes@[7 - k],
        decreases 8 - i,
    {
        reversed[i] = bytes[7 - i];
        i = i + 1;
    }
    assert(reversed@ =~= bytes@.reverse());
    let r = read_be(reversed.as_slice(), 0, 8);
    assert(reversed@.subrange(0, 8) =~= reversed@);
    r
}

/// The byte at `index`, or zero past the end.
fn byte_or_zero(bytes: &[u8], index: usize) -> (r: u8)
    ensures
        index < bytes@.len() ==> r == bytes@[index as int],
        index >= bytes@.len() ==> r == 0,
{
    if index < bytes.len() {
        bytes[index]
    } else {
        0
    }
}

/// Interprets bounded input as fragment, synchronization, and scheduler
/// transitions: each sixteen-byte chunk (at most 256 of them) selects one
/// transition and its arguments. After every transition at most one
/// instruction is incomplete, it stores at most the compressed-instruction
/// limit, and the retained sent and received states stay within their
/// limits.
pub fn exercise_state_transitions(data: &[u8]) {
    let mut now_ms: u64 = 0;
    let mut reassembler = FragmentReassembler::new(now_ms);
    let mut synchronization = SynchronizationState::new();
    let mut scheduler = SendScheduler::new(now_ms);
    let mut timing = RttEstimator::new();
    let total = data.len();
    let mut offset: usize = 0;
    let mut chunks: usize = 0;
    while offset < total && chunks < 256
        invariant
            total == data@.len(),
            offset <= total,
            reassembler.wf(),
            synchronization.wf(),
            timing.wf(),
        decreases total - offset,
    {
        let end = if total - offset > 16 {
            offset + 16
        } else {
            total
        };
        let chunk = vstd::slice::slice_subrange(data, offset, end);
        let operation = chunk[0] % 8;
        let step = (byte_or_zero(chunk, 1) % 32) as u64;
        now_ms = now_ms.saturating_add(step);
        let number = little_endian(padded_eight(chunk));
        if operation == 0 {
            let body = if chunk.len() > 4 {
                vstd::slice::slice_subrange(chunk, 4, chunk.len())
            } else {
                vstd::slice::slice_subrange(chunk, 0, 0)
            };
            let fragment = Fragment {
                timestamp: (now_ms % 0x1_0000) as u16,
                timestamp_reply: None,
                identifier: number % 4,
                number: (byte_or_zero(chunk, 2) % 8) as u16,
                is_final: byte_or_zero(chunk, 3) % 2 != 0,
                body,
            };
            let _ = reassembler.push(now_ms, fragment);
        } else if operation == 1 {
            let _ = reassembler.expire(now_ms);
        } else if operation == 2 {
            let _ = synchronization.advance_local();
        } else if operation == 3 {
            match synchronization.plan_send(now_ms, 50) {
                Ok(plan) => {
                    let _ = synchronization.commit_send(plan);
                },
                Err(_) => {},
            }
        } else if operation == 4 {
            let difference = if chunk.len() > 6 {
                vstd::slice::slice_to_vec(vstd::slice::slice_subrange(chunk, 6, chunk.len()))
            } else {
                Vec::new()
            };
            let instruction = TransportInstruction {
                protocol_version: if byte_or_zero(chunk, 2) % 2 != 0 {
                    PROTOCOL_VERSION
                } else {
                    PROTOCOL_VERSION + 1
                },
                base_state: number % 64,
                new_state: (byte_or_zero(chunk, 3) % 64) as u64,
                acknowledged_state: (byte_or_zero(chunk, 4) % 64) as u64,
                discard_before_state: (byte_or_zero(chunk, 5) % 64) as u64,
                state_difference: difference,
                chaff: Vec::new(),
            };
            match synchronization.begin_receive(&instruction) {
                Ok(transition) => {
                    match transition.remote_state {
                        RemoteStateDisposition::Apply(plan) => {
                            let _ = synchronization.commit_receive(plan);
                        },
                        _ => {},
                    }
                },
                Err(_) => {},
            }
        } else if operation == 5 {
            let _ = scheduler.note_local_change(now_ms);
        } else if operation == 6 {
            let _ = scheduler.note_acknowledgement_needed(now_ms);
        } else {
            let sample = number % 60_001;
            let _ = timing.observe_sample(sample);
            match scheduler.poll(now_ms, &timing, None) {
                Ok(SchedulerPoll::Send(plan)) => {
                    let _ = scheduler.commit_send(plan);
                },
                _ => {},
            }
        }
        let incomplete = reassembler.incomplete_count();
        let stored = reassembler.stored_bytes();
        let (sent, received) = synchronization.retained_counts();
        assert(incomplete <= 1);
        assert(stored <= MAX_COMPRESSED_INSTRUCTION_BYTES);
        assert(sent <= MAX_SENT_STATES_AFTER_ACK);
        assert(received <= MAX_RECEIVED_REFERENCE_STATES);
        offset = end;
        chunks = chunks + 1;
    }
}

/// Runs every parser of untrusted input on `data`: bootstrap output, a
/// compressed instruction, a fragment (pushed into a fresh reassembler, which
/// then holds at most one incomplete instruction within the compressed
/// limit), a terminal difference, and a datagram of at most one byte over the
/// datagram limit, opened under a fixed key.
pub fn exercise_untrusted_parsers(data: &[u8]) {
    let _ = Bootstrap::parse(0x7f00_0001, data);
    let _ = TransportInstruction::decode_zlib(data);

    match crate::fragment::decode(data) {
        Ok(fragment) => {
            let mut reassembler = FragmentReassembler::new(0);
            let _ = reassembler.push(0, fragment);
            let incomplete = reassembler.incomplete_count();
            let stored = reassembler.stored_bytes();
            assert(incomplete <= 1);
            assert(stored <= MAX_COMPRESSED_INSTRUCTION_BYTES);
        },
        Err(_) => {},
    }

    let _ = TerminalDifference::decode(data);

    let key = SessionKey::new([0x5a; 16]);
    let mut receiver = PacketReceiver::new(&key, Direction::ServerToClient);
    let end = if data.len() > MAX_DATAGRAM_BYTES + 1 {
        MAX_DATAGRAM_BYTES + 1
    } else {
        data.len()
    };
    let mut datagram: Vec<u8> = Vec::new();
    crate::bytes::append_bytes(&mut datagram, vstd::slice::slice_subrange(data, 0, end));
    let _ = receiver.open(datagram.as_mut_slice());
}

} // verus!
