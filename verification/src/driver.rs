//! The protocol core of a Session: every decision its event loop makes
//! between socket reads and writes. The loop hands this core received
//! datagrams, commands, and the time, and sends the datagrams it seals.
use vstd::prelude::*;

use std::io::ErrorKind;

use crate::bytes::append_bytes;
use crate::crypto::SessionKey;
use crate::fragment::{
    self, decoded_fields, expire_spec, fragment_header, FragmentError, joined, law_fragments_reassemble_in_any_order,
    push_in_order, push_spec, Fragment, FragmentReassembler, OutcomeView, ReassemblerView,
    ReassemblyError, ReassemblyOutcome,
};
use crate::instruction::{
    client_difference_result, compression_result, decode_zlib_result, encode_instruction,
    ClientOperation, InstructionFields, TransportInstruction, PROTOCOL_VERSION,
    SHUTDOWN_STATE,
};
use crate::limits::{
    GRACEFUL_CLOSE_ACK_TIMEOUT_MS, INCOMPLETE_INSTRUCTION_LIFETIME_MS,
    INITIAL_RETRANSMISSION_TIMEOUT_MS, MAX_COMPRESSED_INSTRUCTION_BYTES,
    MAX_FRAGMENTS_PER_INSTRUCTION, MAX_DATAGRAM_BYTES, MAX_FRAGMENT_BODY_BYTES,
};
use crate::packet::{
    open_result, Direction, Ipv4Endpoint, PacketCodec, PacketError, PacketReceiver, SendSequence,
    SourceAddress,
};
use crate::reachability::{
    deadline_at, reachability_at, ReachabilityError, ReachabilityTracker, SessionReachability,
};
use crate::session::{
    is_recoverable_established_io_error, recoverable_kind, ClientHistory, DriverError,
    InstructionIdentifier,
};
use crate::synchronization::{
    law_sends_build_on_a_known_or_recent_state, observe_ack_spec, plan_base, received_after_commit, remote_kind, validation_error,
    AcknowledgementDisposition, ApplyPlan, ReceiveCommit, RemoteStateDisposition, SendPlan,
    SentState, SyncView, SynchronizationError, SynchronizationState,
};
use crate::terminal::{checked_size, TerminalError};
use crate::timing::{
    poll_result, reply_spec, wire_ms_spec, DatagramTiming, OutgoingTimestamps, RttEstimator, SchedulerPoll, SchedulerView,
    SendScheduler, TimingError, WakePlan,
};

verus! {

/// What an authenticated, fresh datagram plaintext `p` received at `now`
/// gives: a framing error, time moving backwards, a reassembly error, no
/// instruction yet, or the decoded instruction (or its decoding error).
pub open spec fn datagram_outcome(
    reassembly: ReassemblerView,
    timing_observed: u64,
    p: Seq<u8>,
    now: u64,
) -> Result<Option<InstructionFields>, DriverError> {
    if p.len() < fragment::HEADER_BYTES {
        Err(DriverError::Fragment(FragmentError::TooShort))
    } else if p.len() - fragment::HEADER_BYTES > MAX_FRAGMENT_BODY_BYTES {
        Err(DriverError::Fragment(FragmentError::BodyTooLarge))
    } else if now < timing_observed {
        Err(DriverError::Timing(TimingError::TimeMovedBackwards))
    } else {
        let (_, _, identifier, number, is_final, body) = decoded_fields(p);
        match push_spec(reassembly, now, identifier, number, is_final, body).1 {
            Err(e) => Err(DriverError::Reassembly(e)),
            Ok(OutcomeView::Complete(c)) => match decode_zlib_result(c) {
                Ok(x) => Ok(Some(x)),
                Err(e) => Err(DriverError::Instruction(e)),
            },
            Ok(_) => Ok(None),
        }
    }
}

/// The chaff that every outgoing instruction carries.
pub open spec fn initial_chaff() -> Seq<u8> {
    seq![0u8]
}

fn initial_chaff_bytes() -> (r: Vec<u8>)
    ensures
        r@ == initial_chaff(),
{
    let mut v: Vec<u8> = Vec::new();
    v.push(0);
    assert(v@ =~= initial_chaff());
    v
}

/// An instruction ready to be split into datagrams.
pub struct OutgoingInstruction {
    pub compressed: Vec<u8>,
    pub timestamps: OutgoingTimestamps,
    pub identifier: u64,
    pub fragment_count: usize,
}

/// What a datagram received by the Session asks of it.
#[derive(Clone, Copy, Debug, PartialEq, Eq, Structural)]
pub enum DatagramOutcome {
    Continue,
    RemoteShutdown,
}

/// The number of fragments that carry `len` compressed bytes.
pub open spec fn fragment_count_of(len: nat) -> nat {
    ((len + MAX_FRAGMENT_BODY_BYTES - 1) as nat) / (MAX_FRAGMENT_BODY_BYTES as nat)
}

/// The fragment bodies of a compressed instruction, in fragment order.
pub open spec fn split_instruction(compressed: Seq<u8>) -> Seq<Seq<u8>> {
    Seq::new(
        fragment_count_of(compressed.len()),
        |i: int| fragment_body(compressed, i as nat),
    )
}

proof fn lemma_joined_split_prefix(compressed: Seq<u8>, k: int)
    requires
        0 <= k <= fragment_count_of(compressed.len()),
    ensures
        joined(split_instruction(compressed).take(k)) == compressed.subrange(
            0,
            if k * MAX_FRAGMENT_BODY_BYTES < compressed.len() {
                k * MAX_FRAGMENT_BODY_BYTES
            } else {
                compressed.len() as int
            },
        ),
    decreases k,
{
    let parts = split_instruction(compressed);
    let len = compressed.len() as int;
    let b = MAX_FRAGMENT_BODY_BYTES as int;
    if k == 0 {
        assert(parts.take(0) =~= Seq::<Seq<u8>>::empty());
        assert(compressed.subrange(0, 0) =~= Seq::<u8>::empty());
    } else {
        lemma_joined_split_prefix(compressed, k - 1);
        assert(parts.take(k).drop_last() =~= parts.take(k - 1));
        assert(parts.take(k).last() == parts[k - 1]);
        assert((k - 1) * b < len) by (nonlinear_arith)
            requires
                k <= (len + b - 1) / b,
                1 <= k,
                b == 1400,
                len >= 0,
        ;
        assert(k * b == (k - 1) * b + b) by (nonlinear_arith);
        let end = if k * b < len {
            k * b
        } else {
            len
        };
        assert(compressed.subrange(0, (k - 1) * b) + compressed.subrange((k - 1) * b, end)
            =~= compressed.subrange(0, end));
    }
}

/// The fragment bodies of a compressed instruction join back to it.
proof fn lemma_joined_split(compressed: Seq<u8>)
    ensures
        joined(split_instruction(compressed)) == compressed,
{
    let n = fragment_count_of(compressed.len()) as int;
    let len = compressed.len() as int;
    let b = MAX_FRAGMENT_BODY_BYTES as int;
    lemma_joined_split_prefix(compressed, n);
    assert(split_instruction(compressed).take(n) =~= split_instruction(compressed));
    assert(n * b >= len) by (nonlinear_arith)
        requires
            n == (len + b - 1) / b,
            b == 1400,
            len >= 0,
    ;
    assert(compressed.subrange(0, len) =~= compressed);
}

/// An instruction split into fragments as `seal_fragment` seals them
/// reassembles to the compressed bytes it was split from, whatever order its
/// fragments arrive in; a one-fragment instruction completes at once.
pub proof fn law_split_instruction_reassembles(
    s: ReassemblerView,
    now: u64,
    identifier: u64,
    compressed: Seq<u8>,
    order: Seq<int>,
)
    requires
        0 < compressed.len() <= MAX_COMPRESSED_INSTRUCTION_BYTES,
        order.len() == fragment_count_of(compressed.len()),
        forall|t: int| 0 <= t < order.len() ==> 0 <= #[trigger] order[t] < order.len(),
        forall|a: int, b: int| 0 <= a < b < order.len() ==> #[trigger] order[a] != #[trigger] order[b],
        s.incomplete is None,
        now >= s.last_observed_ms,
        now + INCOMPLETE_INSTRUCTION_LIFETIME_MS <= u64::MAX,
    ensures
        push_in_order(s, now, identifier, split_instruction(compressed), order).1 == Ok::<
            OutcomeView,
            ReassemblyError,
        >(OutcomeView::Complete(compressed)),
{
    let parts = split_instruction(compressed);
    let n = order.len() as int;
    let len = compressed.len() as int;
    let b = MAX_FRAGMENT_BODY_BYTES as int;
    lemma_joined_split(compressed);
    assert(1 <= n <= MAX_FRAGMENTS_PER_INSTRUCTION) by (nonlinear_arith)
        requires
            n == (len + b - 1) / b,
            0 < len <= 1048576,
            b == 1400,
            MAX_FRAGMENTS_PER_INSTRUCTION == 749,
    ;
    law_fragments_reassemble_in_any_order(s, now, identifier, parts, order);
}

/// When the sent state numbered `number` was sent, if it is among `sent`.
pub open spec fn sent_at_of(sent: Seq<SentState>, number: u64) -> Option<u64> {
    if exists|k: int| 0 <= k < sent.len() && #[trigger] sent[k].number == number {
        Some(sent[choose|k: int| 0 <= k < sent.len() && #[trigger] sent[k].number == number].sent_at_ms)
    } else {
        None
    }
}

/// A timing result as a Session failure.
pub open spec fn timing_result<T>(r: Result<T, TimingError>) -> Result<T, DriverError> {
    match r {
        Ok(v) => Ok(v),
        Err(e) => Err(DriverError::Timing(e)),
    }
}

/// The body of fragment `number` of `compressed`: the `number`-th slice of
/// at most a fragment body's length.
pub open spec fn fragment_body(compressed: Seq<u8>, number: nat) -> Seq<u8> {
    let start = number * MAX_FRAGMENT_BODY_BYTES;
    let end = start + MAX_FRAGMENT_BODY_BYTES;
    compressed.subrange(
        start as int,
        if end < compressed.len() {
            end as int
        } else {
            compressed.len() as int
        },
    )
}

/// The transport state of one Session: authenticated packets, fragments,
/// state synchronization, timing, the client's operations, and reachability.
pub struct SessionCore {
    server_addr: Ipv4Endpoint,
    packet_codec: PacketCodec,
    packet_receiver: PacketReceiver,
    send_sequence: SendSequence,
    fragment_identifier: InstructionIdentifier,
    reassembler: FragmentReassembler,
    synchronization: SynchronizationState,
    scheduler: SendScheduler,
    datagram_timing: DatagramTiming,
    client_history: ClientHistory,
    reachability: ReachabilityTracker,
    receive_not_before_ms: u64,
}

impl SessionCore {
    /// The core's invariant: every component keeps its own.
    pub closed spec fn wf(&self) -> bool {
        &&& self.reassembler.wf()
        &&& self.synchronization.wf()
        &&& self.datagram_timing.wf()
        &&& self.client_history.wf()
        &&& self.send_sequence.next_spec() matches Some(n) ==> n <= crate::packet::MAX_SEQUENCE
        &&& self.packet_receiver.key() == self.packet_codec.key()
        &&& self.packet_receiver.direction_spec() == Direction::ServerToClient
    }

    /// The server endpoint datagrams go to and must come from.
    pub closed spec fn server_addr_spec(&self) -> Ipv4Endpoint {
        self.server_addr
    }

    /// The time before which no datagram is read.
    pub closed spec fn receive_not_before(&self) -> u64 {
        self.receive_not_before_ms
    }

    /// The latest authenticated remote state number.
    pub closed spec fn remote_latest_spec(&self) -> u64 {
        self.synchronization.view().remote_latest
    }

    /// The latest local state number.
    pub closed spec fn local_latest_spec(&self) -> u64 {
        self.synchronization.view().local_latest
    }

    /// The latest local state the peer is known to have.
    pub closed spec fn known_receiver_spec(&self) -> u64 {
        self.synchronization.view().known_receiver_state
    }

    /// The state synchronization.
    pub closed spec fn sync(&self) -> SyncView {
        self.synchronization.view()
    }

    /// The send scheduler.
    pub closed spec fn schedule(&self) -> SchedulerView {
        self.scheduler.view()
    }

    /// The fragment reassembler.
    pub closed spec fn reassembly(&self) -> ReassemblerView {
        self.reassembler.view()
    }

    /// The RTT estimator.
    pub closed spec fn estimator(&self) -> RttEstimator {
        self.datagram_timing.estimator_spec()
    }

    /// The client operations not yet acknowledged, oldest first.
    pub closed spec fn history_ops(&self) -> Seq<ClientOperation> {
        self.client_history.retained()
    }

    /// The index of the first retained client operation.
    pub closed spec fn history_offset(&self) -> u64 {
        self.client_history.offset()
    }

    /// The index the next client operation gets.
    pub closed spec fn history_next(&self) -> u64 {
        self.client_history.next_index()
    }

    /// The operation index at which local state `state` was recorded.
    pub closed spec fn checkpoint_spec(&self, state: u64) -> Option<u64> {
        self.client_history.checkpoint_of(state)
    }

    /// The encoded client difference from local state `base` to `target`,
    /// as the client history gives it.
    pub open spec fn history_difference(&self, base: u64, target: u64) -> Result<Seq<u8>, DriverError> {
        match (self.checkpoint_spec(base), self.checkpoint_spec(target)) {
            (Some(start), Some(end)) => if start < self.history_offset() || end
                < self.history_offset() || start > end {
                Err(DriverError::MissingClientState)
            } else {
                match client_difference_result(
                    self.history_ops().subrange(
                        start - self.history_offset(),
                        end - self.history_offset(),
                    ),
                ) {
                    Ok(b) => Ok(b),
                    Err(e) => Err(DriverError::Instruction(e)),
                }
            },
            _ => Err(DriverError::MissingClientState),
        }
    }

    /// The identifier the next outgoing instruction gets, if any is left.
    pub closed spec fn next_identifier_spec(&self) -> Option<u64> {
        self.fragment_identifier.next_spec()
    }

    /// The last received timestamp and when it arrived.
    pub closed spec fn last_received_spec(&self) -> Option<(u16, u64)> {
        self.datagram_timing.last_received()
    }

    /// When outgoing timestamps were last taken or a datagram last observed.
    pub closed spec fn timing_observed_spec(&self) -> u64 {
        self.datagram_timing.last_observed()
    }

    /// When the peer last acknowledged progress.
    pub closed spec fn last_reply_spec(&self) -> u64 {
        self.reachability.last_reply()
    }

    /// When the latest unacknowledged local state was sent, if any.
    pub open spec fn unacknowledged_spec(&self) -> Option<u64> {
        if self.sync().sent_states.len() > 0 {
            Some(self.sync().sent_states.last().sent_at_ms)
        } else {
            None
        }
    }

    /// The sequence numbers of received datagrams still remembered as
    /// accepted.
    pub closed spec fn accepted_spec(&self) -> Set<u64> {
        self.packet_receiver.accepted()
    }

    /// The highest sequence number accepted from the server, if any.
    pub closed spec fn receive_highest_spec(&self) -> Option<u64> {
        self.packet_receiver.highest()
    }

    /// The session key that seals outgoing datagrams.
    pub closed spec fn key_spec(&self) -> Seq<u8> {
        self.packet_codec.key()
    }

    /// The sequence number of the next outgoing datagram, if any is left.
    pub closed spec fn next_sequence_spec(&self) -> Option<u64> {
        self.send_sequence.next_spec()
    }

    /// Overwrites every copy of the session key that the core holds with
    /// zeros, for when the session ends; nothing else changes.
    pub fn zeroize_keys(&mut self)
        requires
            old(self).wf(),
        ensures
            final(self).wf(),
            final(self).key_spec() == Seq::new(
                crate::limits::DECODED_KEY_BYTES as nat,
                |_i: int| 0u8,
            ),
            final(self).server_addr_spec() == old(self).server_addr_spec(),
            final(self).sync() == old(self).sync(),
            final(self).schedule() == old(self).schedule(),
            final(self).reassembly() == old(self).reassembly(),
            final(self).accepted_spec() == old(self).accepted_spec(),
            final(self).receive_highest_spec() == old(self).receive_highest_spec(),
            final(self).next_sequence_spec() == old(self).next_sequence_spec(),
    {
        self.packet_codec.zeroize();
        self.packet_receiver.zeroize();
    }

    /// Creates the core for a terminal of `columns` by `rows`: local state 1
    /// carries the initial size and is due to be sent.
    pub fn new(server_addr: Ipv4Endpoint, key: &SessionKey, columns: u32, rows: u32) -> (r:
        Result<SessionCore, DriverError>)
        ensures
            !crate::terminal::supported_size(columns, rows) ==> r == Err::<
                SessionCore,
                DriverError,
            >(DriverError::Terminal(TerminalError::InvalidTerminalSize)),
            crate::terminal::supported_size(columns, rows) ==> (r matches Ok(core) && core.wf()
                && core.server_addr_spec() == server_addr && core.remote_latest_spec() == 0
                && core.local_latest_spec() == 1 && core.receive_not_before() == 0
                && core.key_spec() == key.key() && core.next_sequence_spec() == Some(0u64)),
    {
        match checked_size(columns, rows) {
            Err(e) => {
                return Err(DriverError::Terminal(e));
            },
            Ok(_) => {},
        }
        let mut synchronization = SynchronizationState::new();
        let mut client_history = ClientHistory::new();
        proof {
            crate::instruction::lemma_resize_difference(columns, rows);
            assert(Seq::<ClientOperation>::empty().push(ClientOperation::Resize { columns, rows })
                =~= seq![ClientOperation::Resize { columns, rows }]);
        }
        match client_history.append(ClientOperation::Resize { columns, rows }) {
            Err(e) => {
                return Err(e);
            },
            Ok(()) => {},
        }
        let initial_state = match synchronization.advance_local() {
            Err(e) => {
                return Err(DriverError::Synchronization(e));
            },
            Ok(s) => s,
        };
        client_history.checkpoint(initial_state);
        let mut scheduler = SendScheduler::new(0);
        match scheduler.note_local_change(0) {
            Err(e) => {
                return Err(DriverError::Timing(e));
            },
            Ok(()) => {},
        }
        Ok(
            SessionCore {
                server_addr,
                packet_codec: PacketCodec::new(key),
                packet_receiver: PacketReceiver::new(key, Direction::ServerToClient),
                send_sequence: SendSequence::new(),
                fragment_identifier: InstructionIdentifier::new(),
                reassembler: FragmentReassembler::new(0),
                synchronization,
                scheduler,
                datagram_timing: DatagramTiming::new(0),
                client_history,
                reachability: ReachabilityTracker::new(),
                receive_not_before_ms: 0,
            },
        )
    }
}


impl SessionCore {
    /// The latest authenticated remote state number.
    pub fn remote_latest(&self) -> (r: u64)
        requires
            self.wf(),
        ensures
            r == self.remote_latest_spec(),
    {
        self.synchronization.remote_latest()
    }

    /// The latest local state number.
    pub fn local_latest(&self) -> (r: u64)
        requires
            self.wf(),
        ensures
            r == self.local_latest_spec(),
    {
        self.synchronization.local_latest()
    }

    /// The latest reported reachability.
    pub closed spec fn reachability_spec(&self) -> SessionReachability {
        self.reachability.current_spec()
    }

    /// When authenticated remote state was last accepted.
    pub closed spec fn last_contact_spec(&self) -> Option<u64> {
        self.reachability.last_contact()
    }

    /// The latest reported reachability.
    pub fn reachability(&self) -> (r: SessionReachability)
        ensures
            r == self.reachability_spec(),
    {
        self.reachability.current()
    }

    /// The server's UDP endpoint.
    pub fn server_addr(&self) -> (r: Ipv4Endpoint)
        ensures
            r == self.server_addr_spec(),
    {
        self.server_addr
    }

    /// How long to wait before retrying after a recoverable I/O error: the
    /// retransmission timeout, at least the initial one.
    pub fn io_retry_ms(&self) -> (r: u64)
        requires
            self.wf(),
        ensures
            r == self.io_retry_spec(),
    {
        let rto = self.datagram_timing.estimator().retransmission_timeout_ms();
        if rto > INITIAL_RETRANSMISSION_TIMEOUT_MS {
            rto
        } else {
            INITIAL_RETRANSMISSION_TIMEOUT_MS
        }
    }

    /// The current retransmission timeout.
    pub closed spec fn rto_spec(&self) -> u64 {
        self.datagram_timing.estimator_spec().rto()
    }

    /// The frame interval once an RTT sample exists, and `None` before.
    pub closed spec fn frame_interval_spec(&self) -> Option<u64> {
        let estimator = self.datagram_timing.estimator_spec();
        if estimator.smoothed_ms_spec() is Some {
            Some(estimator.frame_interval_spec())
        } else {
            None
        }
    }

    /// The current retransmission timeout.
    pub fn retransmission_timeout_ms(&self) -> (r: u64)
        requires
            self.wf(),
        ensures
            r == self.rto_spec(),
    {
        self.datagram_timing.estimator().retransmission_timeout_ms()
    }

    /// The frame interval, once an RTT sample exists.
    pub fn frame_interval_ms(&self) -> (r: Option<u64>)
        requires
            self.wf(),
        ensures
            r == self.frame_interval_spec(),
    {
        let estimator = self.datagram_timing.estimator();
        match estimator.smoothed_rtt_ms() {
            Some(_) => Some(estimator.frame_interval_ms()),
            None => None,
        }
    }

    /// Whether datagrams may be read at `now_ms`.
    pub fn receive_enabled(&self, now_ms: u64) -> (r: bool)
        ensures
            r == (now_ms >= self.receive_not_before()),
    {
        now_ms >= self.receive_not_before_ms
    }

    /// The time before which no datagram is read.
    pub fn receive_not_before_ms(&self) -> (r: u64)
        ensures
            r == self.receive_not_before(),
    {
        self.receive_not_before_ms
    }

    /// Notes that a datagram was read: reading is no longer deferred.
    pub fn resume_receive(&mut self)
        requires
            old(self).wf(),
        ensures
            final(self).wf(),
            final(self).receive_not_before() == 0,
            final(self).remote_latest_spec() == old(self).remote_latest_spec(),
            final(self).local_latest_spec() == old(self).local_latest_spec(),
    {
        self.receive_not_before_ms = 0;
    }

    /// Defers reading after a recoverable receive error at `now_ms`.
    pub fn defer_receive(&mut self, now_ms: u64) -> (r: Result<(), DriverError>)
        requires
            old(self).wf(),
        ensures
            final(self).wf(),
            final(self).remote_latest_spec() == old(self).remote_latest_spec(),
            final(self).local_latest_spec() == old(self).local_latest_spec(),
            now_ms + old(self).io_retry_spec() > u64::MAX ==> r == Err::<(), DriverError>(
                DriverError::ClockExhausted,
            ),
            now_ms + old(self).io_retry_spec() <= u64::MAX ==> r is Ok && final(self).receive_not_before() == now_ms + old(self).io_retry_spec(),
    {
        let retry = self.io_retry_ms();
        match now_ms.checked_add(retry) {
            None => Err(DriverError::ClockExhausted),
            Some(t) => {
                self.receive_not_before_ms = t;
                Ok(())
            },
        }
    }

    /// The retry delay after a recoverable I/O error.
    pub closed spec fn io_retry_spec(&self) -> u64 {
        if self.datagram_timing.estimator_spec().rto() > INITIAL_RETRANSMISSION_TIMEOUT_MS {
            self.datagram_timing.estimator_spec().rto()
        } else {
            INITIAL_RETRANSMISSION_TIMEOUT_MS
        }
    }

    /// Defers the next send after a recoverable send error at `now_ms`.
    pub fn defer_send(&mut self, now_ms: u64) -> (r: Result<(), DriverError>)
        requires
            old(self).wf(),
        ensures
            final(self).wf(),
            final(self).remote_latest_spec() == old(self).remote_latest_spec(),
            final(self).local_latest_spec() == old(self).local_latest_spec(),
            final(self).sync() == old(self).sync(),
            now_ms < old(self).schedule().last_observed_ms ==> r == Err::<(), DriverError>(
                DriverError::Timing(TimingError::TimeMovedBackwards),
            ) && final(self).schedule() == old(self).schedule(),
            now_ms >= old(self).schedule().last_observed_ms && now_ms + old(self).io_retry_spec()
                > u64::MAX ==> r == Err::<(), DriverError>(
                DriverError::Timing(TimingError::TimerExhausted),
            ),
            now_ms >= old(self).schedule().last_observed_ms && now_ms + old(self).io_retry_spec()
                <= u64::MAX && old(self).schedule().generation == u64::MAX ==> r == Err::<
                (),
                DriverError,
            >(DriverError::Timing(TimingError::GenerationExhausted)),
            now_ms >= old(self).schedule().last_observed_ms && now_ms + old(self).io_retry_spec()
                <= u64::MAX && old(self).schedule().generation < u64::MAX ==> r is Ok && final(
                self).schedule() == (SchedulerView {
                last_observed_ms: now_ms,
                deferred_until_ms: Some((now_ms + old(self).io_retry_spec()) as u64),
                generation: (old(self).schedule().generation + 1) as u64,
                ..old(self).schedule()
            }),
    {
        let delay = self.io_retry_ms();
        match self.scheduler.defer_send(now_ms, delay) {
            Err(e) => Err(DriverError::Timing(e)),
            Ok(()) => Ok(()),
        }
    }

    /// Records a client operation as a new local state that is due to be
    /// sent, and returns that state's number.
    pub fn advance_client(&mut self, operation: ClientOperation, now_ms: u64) -> (r: Result<
        u64,
        DriverError,
    >)
        requires
            old(self).wf(),
        ensures
            final(self).wf(),
            final(self).remote_latest_spec() == old(self).remote_latest_spec(),
            r matches Ok(state) ==> state == final(self).local_latest_spec() && state
                == old(self).local_latest_spec() + 1,
            r is Err ==> final(self).local_latest_spec() <= old(self).local_latest_spec() + 1,
            old(self).history_ops().len() == crate::limits::MAX_CLIENT_OPERATIONS_AFTER_ACK ==> r
                == Err::<u64, DriverError>(
                DriverError::Instruction(crate::instruction::InstructionError::TooManyClientOperations),
            ) && final(self).sync() == old(self).sync(),
            old(self).history_ops().len() < crate::limits::MAX_CLIENT_OPERATIONS_AFTER_ACK && old(self).history_next() == u64::MAX ==> r == Err::<u64, DriverError>(
                DriverError::OperationIndexExhausted,
            ) && final(self).sync() == old(self).sync(),
            old(self).history_ops().len() < crate::limits::MAX_CLIENT_OPERATIONS_AFTER_ACK && old(self).history_next() < u64::MAX ==> (client_difference_result(
                old(self).history_ops().push(operation),
            ) matches Err(e) ==> r == Err::<u64, DriverError>(DriverError::Instruction(e))
                && final(self).sync() == old(self).sync()),
            r is Ok <==> (old(self).history_ops().len() < crate::limits::MAX_CLIENT_OPERATIONS_AFTER_ACK
                && old(self).history_next() < u64::MAX && client_difference_result(
                old(self).history_ops().push(operation),
            ) is Ok && old(self).sync().local_latest < u64::MAX && old(self).sync().sender_generation
                < u64::MAX && now_ms >= old(self).schedule().last_observed_ms && (old(self).schedule().local_change_at_ms is None ==> old(self).schedule().generation
                < u64::MAX)),
            r matches Ok(state) ==> {
                &&& final(self).history_ops() == old(self).history_ops().push(operation)
                &&& final(self).history_next() == old(self).history_next() + 1
                &&& final(self).history_offset() == old(self).history_offset()
                &&& final(self).checkpoint_spec(state) == Some(final(self).history_next())
                &&& final(self).schedule().last_observed_ms == now_ms
                &&& final(self).schedule().local_change_at_ms == if old(self).schedule().local_change_at_ms is Some {
                    old(self).schedule().local_change_at_ms
                } else {
                    Some(now_ms)
                }
            },
    {
        match self.client_history.append(operation) {
            Err(e) => {
                return Err(e);
            },
            Ok(()) => {},
        }
        let state = match self.synchronization.advance_local() {
            Err(e) => {
                return Err(DriverError::Synchronization(e));
            },
            Ok(s) => s,
        };
        self.client_history.checkpoint(state);
        match self.scheduler.note_local_change(now_ms) {
            Err(e) => {
                return Err(DriverError::Timing(e));
            },
            Ok(()) => {},
        }
        Ok(state)
    }

    /// Polls the send scheduler at `now_ms`.
    pub fn poll_scheduler(&mut self, now_ms: u64) -> (r: Result<SchedulerPoll, DriverError>)
        requires
            old(self).wf(),
        ensures
            final(self).wf(),
            final(self).remote_latest_spec() == old(self).remote_latest_spec(),
            final(self).local_latest_spec() == old(self).local_latest_spec(),
            final(self).sync() == old(self).sync(),
            now_ms < old(self).schedule().last_observed_ms ==> r == Err::<
                SchedulerPoll,
                DriverError,
            >(DriverError::Timing(TimingError::TimeMovedBackwards)) && final(self).schedule()
                == old(self).schedule(),
            now_ms >= old(self).schedule().last_observed_ms ==> final(self).schedule() == (
            SchedulerView { last_observed_ms: now_ms, ..old(self).schedule() }) && r
                == timing_result(
                poll_result(
                    old(self).schedule(),
                    now_ms,
                    old(self).estimator().frame_interval_spec(),
                    old(self).estimator().rto(),
                    old(self).unacknowledged_spec(),
                ),
            ),
    {
        let unacknowledged = self.synchronization.latest_unacknowledged_sent_at_ms();
        match self.scheduler.poll(now_ms, self.datagram_timing.estimator(), unacknowledged) {
            Err(e) => Err(DriverError::Timing(e)),
            Ok(p) => Ok(p),
        }
    }

    /// Expires incomplete instructions and updates the reachability at
    /// `now_ms`; returns the reachability when it changed. An attachment
    /// that found no peer by its deadline is a connection timeout.
    pub fn tick(&mut self, now_ms: u64) -> (r: Result<Option<SessionReachability>, DriverError>)
        requires
            old(self).wf(),
        ensures
            final(self).wf(),
            final(self).remote_latest_spec() == old(self).remote_latest_spec(),
            final(self).local_latest_spec() == old(self).local_latest_spec(),
            final(self).sync() == old(self).sync(),
            final(self).last_contact_spec() == old(self).last_contact_spec(),
            final(self).last_reply_spec() == old(self).last_reply_spec(),
            match reachability_at(old(self).last_contact_spec(), old(self).last_reply_spec(), now_ms) {
                Err(e) => r == Err::<Option<SessionReachability>, DriverError>(
                    DriverError::Reachability(e),
                ) && final(self).reachability_spec() == old(self).reachability_spec()
                    && final(self).reassembly() == old(self).reassembly(),
                Ok(next) => {
                    let changed = if next == old(self).reachability_spec() {
                        None
                    } else {
                        Some(next)
                    };
                    let observed = ReassemblerView {
                        last_observed_ms: now_ms,
                        ..old(self).reassembly()
                    };
                    &&& final(self).reachability_spec() == next
                    &&& if old(self).last_contact_spec() is None && now_ms
                        >= crate::limits::INITIAL_ATTACHMENT_TIMEOUT_MS {
                        r == Err::<Option<SessionReachability>, DriverError>(
                            DriverError::ConnectionTimeout,
                        ) && final(self).reassembly() == old(self).reassembly()
                    } else if now_ms < old(self).reassembly().last_observed_ms {
                        r == Err::<Option<SessionReachability>, DriverError>(
                            DriverError::Reassembly(ReassemblyError::TimeMovedBackwards),
                        ) && final(self).reassembly() == old(self).reassembly()
                    } else {
                        match expire_spec(observed, now_ms) {
                            Ok((after, _)) => r == Ok::<
                                Option<SessionReachability>,
                                DriverError,
                            >(changed) && final(self).reassembly() == after,
                            Err(e) => r == Err::<Option<SessionReachability>, DriverError>(
                                DriverError::Reassembly(e),
                            ) && final(self).reassembly() == observed,
                        }
                    }
                },
            },
    {
        let changed = match self.reachability.update(now_ms) {
            Err(e) => {
                return Err(DriverError::Reachability(e));
            },
            Ok(c) => c,
        };
        if self.reachability.attachment_timed_out(now_ms) {
            return Err(DriverError::ConnectionTimeout);
        }
        match self.reassembler.expire(now_ms) {
            Err(e) => {
                return Err(DriverError::Reassembly(e));
            },
            Ok(_) => {},
        }
        Ok(changed)
    }

    /// Updates the reachability at `now_ms`; returns it when it changed.
    pub fn publish_reachability(&mut self, now_ms: u64) -> (r: Result<
        Option<SessionReachability>,
        DriverError,
    >)
        requires
            old(self).wf(),
        ensures
            final(self).wf(),
            final(self).remote_latest_spec() == old(self).remote_latest_spec(),
            final(self).local_latest_spec() == old(self).local_latest_spec(),
            final(self).sync() == old(self).sync(),
            final(self).last_contact_spec() == old(self).last_contact_spec(),
            final(self).last_reply_spec() == old(self).last_reply_spec(),
            match reachability_at(old(self).last_contact_spec(), old(self).last_reply_spec(), now_ms) {
                Err(e) => r == Err::<Option<SessionReachability>, DriverError>(
                    DriverError::Reachability(e),
                ) && final(self).reachability_spec() == old(self).reachability_spec(),
                Ok(next) => final(self).reachability_spec() == next && r == Ok::<
                    Option<SessionReachability>,
                    DriverError,
                >(
                    if next == old(self).reachability_spec() {
                        None
                    } else {
                        Some(next)
                    },
                ),
            },
    {
        match self.reachability.update(now_ms) {
            Err(e) => Err(DriverError::Reachability(e)),
            Ok(c) => Ok(c),
        }
    }

    /// The time the main loop sleeps until: the earliest of the scheduler's
    /// wake time, the prediction and reachability deadlines, and, while
    /// reading is deferred, the end of that deferral.
    pub fn wake_ms(&self, scheduler_wake_ms: u64, prediction_deadline_ms: Option<u64>, now_ms: u64) -> (r:
        Result<u64, DriverError>)
        ensures
            match deadline_at(
                self.reachability_spec(),
                self.last_contact_spec(),
                self.last_reply_spec(),
            ) {
                Err(e) => r == Err::<u64, DriverError>(DriverError::Reachability(e)),
                Ok(reachability_deadline) => r matches Ok(w) && {
                    &&& w <= scheduler_wake_ms
                    &&& prediction_deadline_ms matches Some(p) ==> w <= p
                    &&& reachability_deadline matches Some(d) ==> w <= d
                    &&& now_ms < self.receive_not_before() ==> w <= self.receive_not_before()
                    &&& w == scheduler_wake_ms || prediction_deadline_ms == Some(w)
                        || reachability_deadline == Some(w) || (now_ms < self.receive_not_before()
                        && w == self.receive_not_before())
                },
            },
    {
        let mut wake = scheduler_wake_ms;
        match prediction_deadline_ms {
            Some(p) => {
                if p < wake {
                    wake = p;
                }
            },
            None => {},
        }
        match self.reachability.next_deadline_ms() {
            Err(e) => {
                return Err(DriverError::Reachability(e));
            },
            Ok(Some(d)) => {
                if d < wake {
                    wake = d;
                }
            },
            Ok(None) => {},
        }
        if now_ms < self.receive_not_before_ms && self.receive_not_before_ms < wake {
            wake = self.receive_not_before_ms;
        }
        Ok(wake)
    }

    /// Plans the next instruction at `now_ms`. When nothing new is left to
    /// send, a new local state with no operations is made first, so that the
    /// instruction still carries an acknowledgement.
    pub fn plan_instruction(&mut self, now_ms: u64) -> (r: Result<
        (SendPlan, TransportInstruction),
        DriverError,
    >)
        requires
            old(self).wf(),
        ensures
            final(self).wf(),
            final(self).remote_latest_spec() == old(self).remote_latest_spec(),
            r matches Ok((plan, instruction)) ==> instruction.protocol_version == PROTOCOL_VERSION
                && instruction.base_state == plan.base_spec() && instruction.new_state
                == plan.target_spec() && instruction.acknowledged_state == plan.acknowledged_spec()
                && instruction.discard_before_state == plan.throwaway_spec() && instruction.chaff@
                == initial_chaff() && plan.target_spec() == final(self).local_latest_spec()
                && final(self).history_difference(plan.base_spec(), plan.target_spec()) == Ok::<
                Seq<u8>,
                DriverError,
            >(instruction.state_difference@) && plan.planned_at_spec() == now_ms
                && plan.generation_spec() == final(self).sync().sender_generation,
            final(self).local_latest_spec() == old(self).local_latest_spec() || final(self).local_latest_spec() == old(self).local_latest_spec() + 1,
            final(self).sync().sent_states == old(self).sync().sent_states,
            match plan_base(
                old(self).sync().sent_states,
                old(self).sync().known_receiver_state,
                now_ms,
                old(self).rto_spec(),
            ) {
                Err(e) => r == Err::<(SendPlan, TransportInstruction), DriverError>(
                    DriverError::Synchronization(e),
                ),
                Ok(base) => if old(self).sync().local_latest <= base && old(self).sync().local_latest
                    == u64::MAX {
                    r == Err::<(SendPlan, TransportInstruction), DriverError>(
                        DriverError::Synchronization(SynchronizationError::StateNumberExhausted),
                    )
                } else if old(self).sync().local_latest <= base && old(self).sync().sender_generation
                    == u64::MAX {
                    r == Err::<(SendPlan, TransportInstruction), DriverError>(
                        DriverError::Synchronization(SynchronizationError::GenerationExhausted),
                    )
                } else {
                    &&& final(self).local_latest_spec() == if old(self).sync().local_latest <= base {
                        old(self).sync().local_latest + 1
                    } else {
                        old(self).sync().local_latest as int
                    }
                    &&& match final(self).history_difference(base, final(self).local_latest_spec()) {
                        Ok(d) => r matches Ok((plan, instruction)) && plan.base_spec() == base
                            && instruction.state_difference@ == d,
                        Err(e) => r == Err::<(SendPlan, TransportInstruction), DriverError>(e),
                    }
                },
            },
    {
        let estimator = self.datagram_timing.estimator();
        proof {
            estimator.law_timeouts_are_bounded();
            let v = self.synchronization.view();
            law_sends_build_on_a_known_or_recent_state(
                v.sent_states,
                v.known_receiver_state,
                v.local_latest,
                now_ms,
                estimator.rto(),
            );
        }
        let rto = estimator.retransmission_timeout_ms();
        let plan = match self.synchronization.plan_send(now_ms, rto) {
            Ok(p) => p,
            Err(SynchronizationError::NoNewState) => {
                let state = match self.synchronization.advance_local() {
                    Err(e) => {
                        return Err(DriverError::Synchronization(e));
                    },
                    Ok(s) => s,
                };
                self.client_history.checkpoint(state);
                match self.synchronization.plan_send(now_ms, rto) {
                    Err(e) => {
                        return Err(DriverError::Synchronization(e));
                    },
                    Ok(p) => p,
                }
            },
            Err(e) => {
                return Err(DriverError::Synchronization(e));
            },
        };
        let difference = match self.client_history.difference(plan.base(), plan.target()) {
            Err(e) => {
                return Err(e);
            },
            Ok(d) => d,
        };
        let instruction = plan.instruction(difference, initial_chaff_bytes());
        Ok((plan, instruction))
    }

    /// Compresses an instruction and takes its timestamps and identifier.
    pub fn begin_transport(&mut self, instruction: &TransportInstruction, now_ms: u64) -> (r:
        Result<OutgoingInstruction, DriverError>)
        requires
            old(self).wf(),
        ensures
            final(self).wf(),
            final(self).remote_latest_spec() == old(self).remote_latest_spec(),
            final(self).local_latest_spec() == old(self).local_latest_spec(),
            r matches Ok(o) ==> now_ms >= old(self).timing_observed_spec() && o.timestamps == (
            OutgoingTimestamps {
                timestamp: wire_ms_spec(now_ms),
                timestamp_reply: reply_spec(old(self).last_received_spec(), now_ms),
            }) && old(self).next_identifier_spec() == Some(o.identifier),
            match compression_result(encode_instruction(instruction@)) {
                Err(e) => r == Err::<OutgoingInstruction, DriverError>(DriverError::Instruction(e)),
                Ok(compressed) => if now_ms < old(self).timing_observed_spec() {
                    r == Err::<OutgoingInstruction, DriverError>(
                        DriverError::Timing(TimingError::TimeMovedBackwards),
                    )
                } else if old(self).next_identifier_spec() is None {
                    r == Err::<OutgoingInstruction, DriverError>(
                        DriverError::FragmentIdentifierExhausted,
                    )
                } else {
                    r matches Ok(o) && o.compressed@ == compressed
                },
            },
            r matches Ok(o) ==> o.fragment_count == fragment_count_of(o.compressed@.len())
                && crate::instruction::decode_zlib_result(o.compressed@) == (if instruction.protocol_version
                == PROTOCOL_VERSION {
                Ok::<crate::instruction::InstructionFields, crate::instruction::InstructionError>(
                    instruction@,
                )
            } else {
                Err(crate::instruction::InstructionError::IncompatibleVersion)
            }),
    {
        let compressed = match instruction.encode_zlib() {
            Err(e) => {
                return Err(DriverError::Instruction(e));
            },
            Ok(c) => c,
        };
        let timestamps = match self.datagram_timing.outgoing(now_ms) {
            Err(e) => {
                return Err(DriverError::Timing(e));
            },
            Ok(t) => t,
        };
        let identifier = match self.fragment_identifier.take() {
            Err(e) => {
                return Err(e);
            },
            Ok(i) => i,
        };
        let len = compressed.len();
        let fragment_count = len / MAX_FRAGMENT_BODY_BYTES + if len % MAX_FRAGMENT_BODY_BYTES == 0 {
            0
        } else {
            1
        };
        proof {
            let n = len as nat;
            let b = MAX_FRAGMENT_BODY_BYTES as nat;
            assert(fragment_count == fragment_count_of(n)) by (nonlinear_arith)
                requires
                    fragment_count == n / b + if n % b == 0 { 0nat } else { 1nat },
                    b == 1400,
            ;
        }
        Ok(OutgoingInstruction { compressed, timestamps, identifier, fragment_count })
    }

    /// Seals fragment `number` of an outgoing instruction into a datagram to
    /// the server, under the next sequence number.
    pub fn seal_fragment(&mut self, outgoing: &OutgoingInstruction, number: usize) -> (r: Result<
        Vec<u8>,
        DriverError,
    >)
        requires
            old(self).wf(),
            number < outgoing.fragment_count,
            outgoing.fragment_count == fragment_count_of(outgoing.compressed@.len()),
            outgoing.compressed@.len() <= crate::limits::MAX_COMPRESSED_INSTRUCTION_BYTES,
        ensures
            final(self).wf(),
            final(self).remote_latest_spec() == old(self).remote_latest_spec(),
            final(self).local_latest_spec() == old(self).local_latest_spec(),
            final(self).key_spec() == old(self).key_spec(),
            r is Ok <==> old(self).next_sequence_spec() is Some,
            old(self).next_sequence_spec() is None ==> r == Err::<Vec<u8>, DriverError>(
                DriverError::Packet(PacketError::SequenceExhausted),
            ),
            r matches Ok(d) ==> d@.len() <= MAX_DATAGRAM_BYTES && (old(self).next_sequence_spec() matches Some(sequence) && final(self).next_sequence_spec() == (
            if sequence < crate::packet::MAX_SEQUENCE {
                Some((sequence + 1) as u64)
            } else {
                None
            }) && open_result(old(self).key_spec(), Direction::ClientToServer, d@) == Ok::<
                (u64, Seq<u8>),
                PacketError,
            >(
                (
                    sequence,
                    fragment_header(
                        outgoing.timestamps.timestamp,
                        outgoing.timestamps.timestamp_reply,
                        outgoing.identifier,
                        number as u16,
                        number + 1 == outgoing.fragment_count,
                    ) + fragment_body(outgoing.compressed@, number as nat),
                ),
            )),
    {
        let start = number * MAX_FRAGMENT_BODY_BYTES;
        let total = outgoing.compressed.len();
        proof {
            let n = number as nat;
            let b = MAX_FRAGMENT_BODY_BYTES as nat;
            let len = total as nat;
            assert(n * b < len) by (nonlinear_arith)
                requires
                    n < ((len + b - 1) as nat) / b,
                    b == 1400,
            ;
        }
        let end = if total - start > MAX_FRAGMENT_BODY_BYTES {
            start + MAX_FRAGMENT_BODY_BYTES
        } else {
            total
        };
        let body = vstd::slice::slice_subrange(outgoing.compressed.as_slice(), start, end);
        if number > 0xffff {
            return Err(DriverError::FragmentIdentifierExhausted);
        }
        let mut plaintext = vec![0u8; MAX_DATAGRAM_BYTES];
        let plaintext_len = match fragment::encode(
            outgoing.timestamps.timestamp,
            outgoing.timestamps.timestamp_reply,
            outgoing.identifier,
            number as u16,
            number + 1 == outgoing.fragment_count,
            body,
            plaintext.as_mut_slice(),
        ) {
            Err(e) => {
                return Err(DriverError::Fragment(e));
            },
            Ok(l) => l,
        };
        let sequence = match self.send_sequence.take() {
            Err(e) => {
                return Err(DriverError::Packet(e));
            },
            Ok(s) => s,
        };
        let payload = vstd::slice::slice_subrange(plaintext.as_slice(), 0, plaintext_len);
        proof {
            crate::bytes::lemma_be_bytes_len(outgoing.timestamps.timestamp as nat, 2);
            crate::bytes::lemma_be_bytes_len(
                crate::fragment::raw_reply(outgoing.timestamps.timestamp_reply) as nat,
                2,
            );
            crate::bytes::lemma_be_bytes_len(outgoing.identifier as nat, 8);
            crate::bytes::lemma_be_bytes_len(
                crate::fragment::fragment_word(number as u16, number + 1 == outgoing.fragment_count),
                2,
            );
            assert(body@ =~= fragment_body(outgoing.compressed@, number as nat));
            assert(payload@ =~= fragment_header(
                outgoing.timestamps.timestamp,
                outgoing.timestamps.timestamp_reply,
                outgoing.identifier,
                number as u16,
                number + 1 == outgoing.fragment_count,
            ) + body@);
        }
        let mut datagram = vec![0u8; MAX_DATAGRAM_BYTES];
        let length = match self.packet_codec.seal(
            Direction::ClientToServer,
            sequence,
            payload,
            datagram.as_mut_slice(),
        ) {
            Err(e) => {
                return Err(DriverError::Packet(e));
            },
            Ok(l) => l,
        };
        let ghost sealed = crate::packet::sealed_datagram(
            self.packet_codec.key(),
            Direction::ClientToServer,
            sequence,
            payload@,
        );
        datagram.truncate(length);
        assert(datagram@ =~= sealed);
        Ok(datagram)
    }

    /// Records that an instruction planned by `send_plan` was sent, and
    /// commits the scheduler's plan.
    pub fn commit_instruction(&mut self, send_plan: SendPlan, wake_plan: Option<WakePlan>) -> (r:
        Result<(), DriverError>)
        requires
            old(self).wf(),
        ensures
            final(self).wf(),
            final(self).remote_latest_spec() == old(self).remote_latest_spec(),
            final(self).local_latest_spec() == old(self).local_latest_spec(),
            ({
                let v = old(self).sync();
                let stale = send_plan.generation_spec() != v.sender_generation
                    || send_plan.target_spec() != v.local_latest || send_plan.acknowledged_spec()
                    != v.remote_latest || send_plan.throwaway_spec() != v.known_receiver_state;
                &&& stale ==> r == Err::<(), DriverError>(
                    DriverError::Synchronization(SynchronizationError::StalePlan),
                ) && final(self).sync() == v
                &&& !stale && v.sender_generation == u64::MAX ==> r == Err::<(), DriverError>(
                    DriverError::Synchronization(SynchronizationError::GenerationExhausted),
                ) && final(self).sync() == v
                &&& !stale && v.sender_generation < u64::MAX ==> {
                    &&& final(self).sync().sender_generation == v.sender_generation + 1
                    &&& send_plan.target_spec() > v.known_receiver_state ==> final(self).sync().sent_states.last() == (SentState {
                        number: send_plan.target_spec(),
                        sent_at_ms: send_plan.planned_at_spec(),
                    })
                    &&& wake_plan is None ==> r is Ok
                    &&& wake_plan matches Some(p) ==> r == timing_result(
                        if p.generation != old(self).schedule().generation || p.planned_at_ms
                            != old(self).schedule().last_observed_ms {
                            Err::<(), TimingError>(TimingError::StalePlan)
                        } else if old(self).schedule().generation == u64::MAX {
                            Err::<(), TimingError>(TimingError::GenerationExhausted)
                        } else {
                            Ok::<(), TimingError>(())
                        },
                    )
                    &&& r is Ok && wake_plan is Some ==> final(self).schedule().last_send_ms
                        == Some(wake_plan->0.planned_at_ms)
                    &&& final(self).history_ops() == old(self).history_ops()
                    &&& send_plan.target_spec() > v.known_receiver_state
                        && !crate::synchronization::sent_numbers(v.sent_states).contains(
                        send_plan.target_spec(),
                    ) && v.sent_states.len() == crate::limits::MAX_SENT_STATES_AFTER_ACK ==> final(
                    self).checkpoint_spec(v.sent_states[0].number) is None
                }
            }),
    {
        let commit = match self.synchronization.commit_send(send_plan) {
            Err(e) => {
                return Err(DriverError::Synchronization(e));
            },
            Ok(c) => c,
        };
        match commit.capacity_evicted_state {
            Some(evicted) => self.client_history.remove_checkpoint(evicted),
            None => {},
        }
        match wake_plan {
            Some(plan) => match self.scheduler.commit_send(plan) {
                Err(e) => Err(DriverError::Timing(e)),
                Ok(()) => Ok(()),
            },
            None => Ok(()),
        }
    }

    /// Opens, reassembles, and decompresses a received datagram at `now_ms`.
    /// Datagrams that fail authentication, come from elsewhere, or repeat
    /// are dropped (`None`), as are fragments of an unfinished instruction.
    pub fn decode_datagram(&mut self, datagram: &mut [u8], source: SourceAddress, now_ms: u64) -> (r:
        Result<Option<TransportInstruction>, DriverError>)
        requires
            old(self).wf(),
        ensures
            final(self).wf(),
            final(self).remote_latest_spec() == old(self).remote_latest_spec(),
            final(self).local_latest_spec() == old(self).local_latest_spec(),
            source != SourceAddress::V4(old(self).server_addr_spec()) ==> r == Ok::<
                Option<TransportInstruction>,
                DriverError,
            >(None),
            r matches Ok(Some(i)) ==> i.protocol_version == PROTOCOL_VERSION,
            r matches Ok(Some(_)) ==> source == SourceAddress::V4(old(self).server_addr_spec())
                && open_result(old(self).key_spec(), Direction::ServerToClient, old(datagram)@) is Ok,
            source == SourceAddress::V4(old(self).server_addr_spec()) && open_result(
                old(self).key_spec(),
                Direction::ServerToClient,
                old(datagram)@,
            ) is Err ==> r == Ok::<Option<TransportInstruction>, DriverError>(None),
            final(self).key_spec() == old(self).key_spec(),
            final(self).server_addr_spec() == old(self).server_addr_spec(),
            source == SourceAddress::V4(old(self).server_addr_spec()) && (open_result(
                old(self).key_spec(),
                Direction::ServerToClient,
                old(datagram)@,
            ) matches Ok((sequence, _)) && old(self).accepted_spec().contains(sequence)) ==> r
                == Ok::<Option<TransportInstruction>, DriverError>(None)
                && final(self).accepted_spec() == old(self).accepted_spec(),
            r matches Ok(Some(_)) ==> (open_result(
                old(self).key_spec(),
                Direction::ServerToClient,
                old(datagram)@,
            ) matches Ok((sequence, _)) && !old(self).accepted_spec().contains(sequence)
                && final(self).accepted_spec().contains(sequence)),
            source == SourceAddress::V4(old(self).server_addr_spec()) ==> (open_result(
                old(self).key_spec(),
                Direction::ServerToClient,
                old(datagram)@,
            ) matches Ok((sequence, p)) ==> !old(self).accepted_spec().contains(sequence) ==> if (
            old(self).receive_highest_spec() matches Some(h) && sequence <= h && h - sequence
                >= crate::packet::REPLAY_WINDOW_BITS) {
                r == Ok::<Option<TransportInstruction>, DriverError>(None)
            } else {
                match datagram_outcome(
                    old(self).reassembly(),
                    old(self).timing_observed_spec(),
                    p,
                    now_ms,
                ) {
                    Ok(Some(x)) => r matches Ok(Some(i)) && i@ == x,
                    Ok(None) => r == Ok::<Option<TransportInstruction>, DriverError>(None),
                    Err(e) => r == Err::<Option<TransportInstruction>, DriverError>(e),
                }
            }),
    {
        let opened = match self.packet_receiver.open_from(self.server_addr, source, datagram) {
            Ok(o) => o,
            Err(e) => {
                if e == PacketError::DatagramTooShort || e == PacketError::DatagramTooLarge || e
                    == PacketError::WrongDirection || e == PacketError::AuthenticationFailed || e
                    == PacketError::Replay || e == PacketError::TooOld || e
                    == PacketError::UnexpectedSource {
                    return Ok(None);
                }
                return Err(DriverError::Packet(e));
            },
        };
        let decoded = match fragment::decode(opened.plaintext.as_slice()) {
            Err(e) => {
                return Err(DriverError::Fragment(e));
            },
            Ok(d) => d,
        };
        match self.datagram_timing.observe_received(
            opened.sequence,
            decoded.timestamp,
            decoded.timestamp_reply,
            now_ms,
        ) {
            Err(e) => {
                return Err(DriverError::Timing(e));
            },
            Ok(_) => {},
        }
        let compressed = match self.reassembler.push(now_ms, decoded) {
            Err(e) => {
                return Err(DriverError::Reassembly(e));
            },
            Ok(ReassemblyOutcome::Complete(c)) => c,
            Ok(_) => {
                return Ok(None);
            },
        };
        match TransportInstruction::decode_zlib(compressed.as_slice()) {
            Err(e) => Err(DriverError::Instruction(e)),
            Ok(i) => Ok(Some(i)),
        }
    }

    /// The synchronization steps of an ordinary instruction received at
    /// `now_ms`: its acknowledgement advances what the peer is known to have,
    /// which discards acknowledged client operations and counts as a reply,
    /// and an acknowledgement becomes due. Returns what to do with its state.
    pub fn begin_instruction<'a>(&mut self, instruction: &'a TransportInstruction, now_ms: u64) -> (r:
        Result<RemoteStateDisposition<'a>, DriverError>)
        requires
            old(self).wf(),
        ensures
            final(self).wf(),
            final(self).remote_latest_spec() == old(self).remote_latest_spec(),
            final(self).local_latest_spec() == old(self).local_latest_spec(),
            final(self).last_contact_spec() == old(self).last_contact_spec(),
            final(self).reachability_spec() == old(self).reachability_spec(),
            final(self).last_reply_spec() == if validation_error(old(self).sync(), *instruction)
                is None && (observe_ack_spec(old(self).sync(), instruction.acknowledged_state).1 matches Ok(
                AcknowledgementDisposition::Advanced { .. },
            )) && (sent_at_of(old(self).sync().sent_states, instruction.acknowledged_state) matches Some(
                t,
            ) && t > old(self).last_reply_spec()) {
                sent_at_of(old(self).sync().sent_states, instruction.acknowledged_state)->0
            } else {
                old(self).last_reply_spec()
            },
            validation_error(old(self).sync(), *instruction) matches Some(e) ==> r == Err::<
                RemoteStateDisposition<'a>,
                DriverError,
            >(DriverError::Synchronization(e)) && final(self).sync() == old(self).sync(),
            validation_error(old(self).sync(), *instruction) is None ==> ({
                let (after, ack) = observe_ack_spec(old(self).sync(), instruction.acknowledged_state);
                &&& final(self).sync() == after
                &&& ack matches Err(e) ==> r == Err::<RemoteStateDisposition<'a>, DriverError>(
                    DriverError::Synchronization(e),
                )
                &&& ack is Ok ==> {
                    let retained = old(self).checkpoint_spec(after.known_receiver_state) matches Some(
                        i,
                    ) && i >= old(self).history_offset();
                    let sch = old(self).schedule();
                    &&& !retained ==> r == Err::<RemoteStateDisposition<'a>, DriverError>(
                        DriverError::MissingClientState,
                    )
                    &&& retained && now_ms < sch.last_observed_ms ==> r == Err::<
                        RemoteStateDisposition<'a>,
                        DriverError,
                    >(DriverError::Timing(TimingError::TimeMovedBackwards))
                    &&& retained && now_ms >= sch.last_observed_ms && sch.acknowledgement_at_ms is None
                        && sch.generation == u64::MAX ==> r == Err::<
                        RemoteStateDisposition<'a>,
                        DriverError,
                    >(DriverError::Timing(TimingError::GenerationExhausted))
                    &&& retained && now_ms >= sch.last_observed_ms && !(sch.acknowledgement_at_ms
                        is None && sch.generation == u64::MAX) ==> r is Ok
                }
                &&& r matches Ok(d) ==> {
                    &&& ack is Ok
                    &&& old(self).checkpoint_spec(after.known_receiver_state) matches Some(i) && i
                        >= old(self).history_offset() && final(self).history_offset() == i && final(
                    self).history_ops() == old(self).history_ops().skip(i - old(self).history_offset())
                    &&& d.kind() == remote_kind(after, instruction.base_state, instruction.new_state)
                    &&& final(self).schedule().acknowledgement_at_ms is Some
                    &&& final(self).schedule().last_observed_ms == now_ms
                    &&& d matches RemoteStateDisposition::Apply(plan) ==> {
                        &&& plan.base_spec() == instruction.base_state
                        &&& plan.target_spec() == instruction.new_state
                        &&& plan.throwaway_spec() == instruction.discard_before_state
                        &&& plan.difference_spec() == instruction.state_difference@
                        &&& plan.generation_spec() == after.receiver_generation
                        &&& plan.becomes_latest_spec() == (instruction.new_state
                            > after.remote_latest)
                    }
                }
            }),
    {
        let sent_at = self.synchronization.sent_state_sent_at_ms(instruction.acknowledged_state);
        proof {
            let v = self.synchronization.view();
            let number = instruction.acknowledged_state;
            assert forall|k: int|
                0 <= k < v.sent_states.len() && (#[trigger] v.sent_states[k]).number
                    == number implies sent_at == Some(v.sent_states[k].sent_at_ms) by {
                let numbers = crate::synchronization::sent_numbers(v.sent_states);
                assert(numbers[k] == number);
                assert(numbers.contains(number));
                let i = choose|i: int|
                    0 <= i < v.sent_states.len() && v.sent_states[i] == (SentState {
                        number,
                        sent_at_ms: sent_at->0,
                    });
                assert(numbers[i] == number);
                if i < k {
                    assert(numbers[i] < numbers[k]);
                } else if k < i {
                    assert(numbers[k] < numbers[i]);
                }
            }
            if exists|k: int| 0 <= k < v.sent_states.len() && #[trigger] v.sent_states[k].number == number {
                let k = choose|k: int| 0 <= k < v.sent_states.len() && #[trigger] v.sent_states[k].number == number;
                assert(sent_at == Some(v.sent_states[k].sent_at_ms));
            } else {
                if sent_at is Some {
                    let i = choose|i: int|
                        0 <= i < v.sent_states.len() && v.sent_states[i] == (SentState {
                            number,
                            sent_at_ms: sent_at->0,
                        });
                    assert(v.sent_states[i].number == number);
                }
            }
            assert(sent_at == sent_at_of(v.sent_states, number));
        }
        let transition = match self.synchronization.begin_receive(instruction) {
            Err(e) => {
                return Err(DriverError::Synchronization(e));
            },
            Ok(t) => t,
        };
        match (transition.acknowledgement, sent_at) {
            (AcknowledgementDisposition::Advanced { .. }, Some(at)) => {
                self.reachability.note_reply(at);
            },
            _ => {},
        }
        let known = self.synchronization.known_receiver_state();
        match self.client_history.acknowledge(known) {
            Err(e) => {
                return Err(e);
            },
            Ok(()) => {},
        }
        match self.scheduler.note_acknowledgement_needed(now_ms) {
            Err(e) => {
                return Err(DriverError::Timing(e));
            },
            Ok(()) => {},
        }
        Ok(transition.remote_state)
    }

    /// Commits a received state once its terminal state is built, and
    /// returns the commit and whether it is now the latest remote state, in
    /// which case it counts as contact at `now_ms`.
    pub fn commit_remote_state(&mut self, plan: ApplyPlan, now_ms: u64) -> (r: Result<
        (ReceiveCommit, bool),
        DriverError,
    >)
        requires
            old(self).wf(),
        ensures
            final(self).wf(),
            final(self).local_latest_spec() == old(self).local_latest_spec(),
            r matches Ok((_, latest)) ==> latest == (plan.target_spec()
                == final(self).remote_latest_spec()),
            ({
                let v = old(self).sync();
                let stale = plan.generation_spec() != v.receiver_generation
                    || !v.received_states.contains(plan.base_spec()) || v.received_states.contains(
                    plan.target_spec(),
                );
                &&& stale ==> r == Err::<(ReceiveCommit, bool), DriverError>(
                    DriverError::Synchronization(SynchronizationError::StalePlan),
                ) && final(self).sync() == v
                &&& !stale && v.receiver_generation == u64::MAX ==> r == Err::<
                    (ReceiveCommit, bool),
                    DriverError,
                >(DriverError::Synchronization(SynchronizationError::GenerationExhausted))
                    && final(self).sync() == v
                &&& !stale && v.receiver_generation < u64::MAX ==> {
                    let (received, floor, evicted) = received_after_commit(
                        v.received_states,
                        v.remote_throwaway_floor,
                        plan.target_spec(),
                        plan.throwaway_spec(),
                        plan.becomes_latest_spec(),
                    );
                    &&& r matches Ok((commit, _)) && commit == (ReceiveCommit {
                        discard_before_state: floor,
                        capacity_evicted_state: evicted,
                    })
                    &&& final(self).sync() == (SyncView {
                        remote_latest: if plan.becomes_latest_spec() {
                            plan.target_spec()
                        } else {
                            v.remote_latest
                        },
                        remote_throwaway_floor: floor,
                        received_states: received,
                        receiver_generation: (v.receiver_generation + 1) as u64,
                        ..v
                    })
                }
            }),
            r matches Ok((_, latest)) && latest ==> final(self).last_contact_spec() == Some(
                now_ms,
            ),
    {
        let target = plan.target();
        let commit = match self.synchronization.commit_receive(plan) {
            Err(e) => {
                return Err(DriverError::Synchronization(e));
            },
            Ok(c) => c,
        };
        let latest = target == self.synchronization.remote_latest();
        if latest {
            self.reachability.note_contact(now_ms);
        }
        Ok((commit, latest))
    }

    /// The synchronization steps of a graceful-close instruction from the
    /// peer. An acknowledgement of the close itself stands for the state the
    /// peer is known to have. Returns the base state of the final terminal
    /// state.
    pub fn begin_remote_shutdown(&mut self, instruction: &TransportInstruction) -> (r: Result<
        u64,
        DriverError,
    >)
        requires
            old(self).wf(),
        ensures
            final(self).wf(),
            final(self).remote_latest_spec() == old(self).remote_latest_spec(),
            final(self).local_latest_spec() == old(self).local_latest_spec(),
            ({
                let shutdown = TransportInstruction {
                    acknowledged_state: if instruction.acknowledged_state == SHUTDOWN_STATE {
                        old(self).sync().known_receiver_state
                    } else {
                        instruction.acknowledged_state
                    },
                    ..*instruction
                };
                &&& validation_error(old(self).sync(), shutdown) matches Some(e) ==> r == Err::<
                    u64,
                    DriverError,
                >(DriverError::Synchronization(e)) && final(self).sync() == old(self).sync()
                &&& validation_error(old(self).sync(), shutdown) is None ==> {
                    let (after, ack) = observe_ack_spec(old(self).sync(), shutdown.acknowledged_state);
                    &&& final(self).sync() == after
                    &&& ack matches Err(e) ==> r == Err::<u64, DriverError>(
                        DriverError::Synchronization(e),
                    )
                    &&& ack is Ok && (instruction.base_state < after.remote_throwaway_floor
                        || !after.received_states.contains(instruction.base_state)) ==> r == Err::<
                        u64,
                        DriverError,
                    >(DriverError::Synchronization(SynchronizationError::InvalidStateTransition))
                    &&& ack is Ok && !(instruction.base_state < after.remote_throwaway_floor
                        || !after.received_states.contains(instruction.base_state)) ==> if old(
                    self).checkpoint_spec(after.known_receiver_state) matches Some(i) && i >= old(
                    self).history_offset() {
                        r == Ok::<u64, DriverError>(instruction.base_state)
                    } else {
                        r == Err::<u64, DriverError>(DriverError::MissingClientState)
                    }
                    &&& r matches Ok(base) ==> ack is Ok && base == instruction.base_state
                    &&& r is Ok ==> (old(self).checkpoint_spec(after.known_receiver_state) matches Some(
                        i,
                    ) && i >= old(self).history_offset() && final(self).history_offset() == i
                        && final(self).history_ops() == old(self).history_ops().skip(
                        i - old(self).history_offset(),
                    ))
                }
            }),
    {
        let mut difference: Vec<u8> = Vec::new();
        append_bytes(&mut difference, instruction.state_difference.as_slice());
        let mut chaff: Vec<u8> = Vec::new();
        append_bytes(&mut chaff, instruction.chaff.as_slice());
        let acknowledged = if instruction.acknowledged_state == SHUTDOWN_STATE {
            self.synchronization.known_receiver_state()
        } else {
            instruction.acknowledged_state
        };
        let shutdown = TransportInstruction {
            protocol_version: instruction.protocol_version,
            base_state: instruction.base_state,
            new_state: instruction.new_state,
            acknowledged_state: acknowledged,
            discard_before_state: instruction.discard_before_state,
            state_difference: difference,
            chaff,
        };
        let base = match self.synchronization.begin_shutdown_receive(&shutdown) {
            Err(e) => {
                return Err(DriverError::Synchronization(e));
            },
            Ok(t) => t.base_state,
        };
        let known = self.synchronization.known_receiver_state();
        match self.client_history.acknowledge(known) {
            Err(e) => {
                return Err(e);
            },
            Ok(()) => {},
        }
        Ok(base)
    }

    /// Plans the acknowledgement of a graceful close from the peer: a new
    /// local state whose instruction acknowledges the close.
    pub fn plan_shutdown_acknowledgement(&mut self, now_ms: u64) -> (r: Result<
        (SendPlan, TransportInstruction),
        DriverError,
    >)
        requires
            old(self).wf(),
        ensures
            final(self).wf(),
            final(self).remote_latest_spec() == old(self).remote_latest_spec(),
            r matches Ok((_, instruction)) ==> instruction.acknowledged_state == SHUTDOWN_STATE
                && instruction.protocol_version == PROTOCOL_VERSION,
            old(self).sync().local_latest == u64::MAX ==> r == Err::<
                (SendPlan, TransportInstruction),
                DriverError,
            >(DriverError::Synchronization(SynchronizationError::StateNumberExhausted)),
            old(self).sync().local_latest < u64::MAX && old(self).sync().sender_generation
                == u64::MAX ==> r == Err::<(SendPlan, TransportInstruction), DriverError>(
                DriverError::Synchronization(SynchronizationError::GenerationExhausted),
            ),
            r is Ok ==> final(self).local_latest_spec() == old(self).local_latest_spec() + 1,
            old(self).sync().local_latest < u64::MAX && old(self).sync().sender_generation
                < u64::MAX ==> {
                &&& final(self).local_latest_spec() == old(self).local_latest_spec() + 1
                &&& match plan_base(
                    old(self).sync().sent_states,
                    old(self).sync().known_receiver_state,
                    now_ms,
                    old(self).rto_spec(),
                ) {
                    Err(e) => r == Err::<(SendPlan, TransportInstruction), DriverError>(
                        DriverError::Synchronization(e),
                    ),
                    Ok(base) => match final(self).history_difference(
                        base,
                        final(self).local_latest_spec(),
                    ) {
                        Ok(d) => r matches Ok((plan, instruction)) && plan.base_spec() == base
                            && instruction.state_difference@ == d,
                        Err(e) => r == Err::<(SendPlan, TransportInstruction), DriverError>(e),
                    },
                }
            },
            r matches Ok((plan, instruction)) ==> {
                &&& plan.target_spec() == final(self).local_latest_spec()
                &&& plan.planned_at_spec() == now_ms
                &&& plan.generation_spec() == final(self).sync().sender_generation
                &&& instruction.base_state == plan.base_spec()
                &&& instruction.new_state == plan.target_spec()
                &&& instruction.discard_before_state == plan.throwaway_spec()
                &&& instruction.chaff@ == initial_chaff()
                &&& final(self).history_difference(plan.base_spec(), plan.target_spec()) == Ok::<
                    Seq<u8>,
                    DriverError,
                >(instruction.state_difference@)
            },
    {
        let state = match self.synchronization.advance_local() {
            Err(e) => {
                return Err(DriverError::Synchronization(e));
            },
            Ok(s) => s,
        };
        self.client_history.checkpoint(state);
        let estimator = self.datagram_timing.estimator();
        proof {
            estimator.law_timeouts_are_bounded();
            let v = self.synchronization.view();
            law_sends_build_on_a_known_or_recent_state(
                v.sent_states,
                v.known_receiver_state,
                v.local_latest,
                now_ms,
                estimator.rto(),
            );
        }
        let rto = estimator.retransmission_timeout_ms();
        let plan = match self.synchronization.plan_send(now_ms, rto) {
            Err(e) => {
                return Err(DriverError::Synchronization(e));
            },
            Ok(p) => p,
        };
        let difference = match self.client_history.difference(plan.base(), plan.target()) {
            Err(e) => {
                return Err(e);
            },
            Ok(d) => d,
        };
        let mut instruction = plan.instruction(difference, initial_chaff_bytes());
        instruction.acknowledged_state = SHUTDOWN_STATE;
        Ok((plan, instruction))
    }

    /// The graceful-close request: every operation since the state the peer
    /// is known to have, leading to the close state.
    pub fn shutdown_request(&self) -> (r: Result<TransportInstruction, DriverError>)
        requires
            self.wf(),
        ensures
            r matches Ok(i) ==> i.new_state == SHUTDOWN_STATE && i.protocol_version
                == PROTOCOL_VERSION && i.acknowledged_state == self.remote_latest_spec()
                && i.base_state == i.discard_before_state && i.chaff@ == initial_chaff()
                && i.base_state == self.known_receiver_spec(),
            match self.history_difference(self.known_receiver_spec(), self.local_latest_spec()) {
                Ok(d) => r matches Ok(i) && i.state_difference@ == d,
                Err(e) => r == Err::<TransportInstruction, DriverError>(e),
            },
    {
        let base_state = self.synchronization.known_receiver_state();
        let current_state = self.synchronization.local_latest();
        let difference = match self.client_history.difference(base_state, current_state) {
            Err(e) => {
                return Err(e);
            },
            Ok(d) => d,
        };
        Ok(
            TransportInstruction {
                protocol_version: PROTOCOL_VERSION,
                base_state,
                new_state: SHUTDOWN_STATE,
                acknowledged_state: self.synchronization.remote_latest(),
                discard_before_state: base_state,
                state_difference: difference,
                chaff: initial_chaff_bytes(),
            },
        )
    }

    /// The known receiver state.
    pub fn known_receiver_state(&self) -> (r: u64)
        requires
            self.wf(),
        ensures
            r == self.known_receiver_spec(),
    {
        self.synchronization.known_receiver_state()
    }
}

/// How one attempt to send a datagram ended.
#[derive(Clone, Copy, Debug, PartialEq, Eq, Structural)]
pub enum SendAttempt {
    /// The whole datagram was handed to the network.
    Sent,
    /// The network path is gone for a while: the send is retried later.
    Deferred,
}

/// The outcome of sending a datagram of `length` bytes, given what the
/// socket reported: a whole send goes on, a partial one is a failure, and on
/// an active Session a temporary loss of the network path defers the send.
/// Every other error ends the Session.
pub fn classify_send(result: Result<usize, ErrorKind>, length: usize, active: bool) -> (r: Result<
    SendAttempt,
    DriverError,
>)
    ensures
        r == match result {
            Ok(sent) => if sent == length {
                Ok::<SendAttempt, DriverError>(SendAttempt::Sent)
            } else {
                Err(DriverError::IncompleteDatagramSend)
            },
            Err(kind) => if active && recoverable_kind(kind) {
                Ok::<SendAttempt, DriverError>(SendAttempt::Deferred)
            } else {
                Err(DriverError::Io(kind))
            },
        },
{
    match result {
        Ok(sent) => if sent == length {
            Ok(SendAttempt::Sent)
        } else {
            Err(DriverError::IncompleteDatagramSend)
        },
        Err(kind) => if active && is_recoverable_established_io_error(kind) {
            Ok(SendAttempt::Deferred)
        } else {
            Err(DriverError::Io(kind))
        },
    }
}

/// Whether an instruction received while closing ends the close: it
/// acknowledges the close request, or it is the peer's own close request.
pub open spec fn ends_local_close_spec(instruction: TransportInstruction) -> bool {
    instruction.acknowledged_state == SHUTDOWN_STATE || instruction.new_state == SHUTDOWN_STATE
}

/// Whether an instruction received while closing ends the close.
pub fn ends_local_close(instruction: &TransportInstruction) -> (r: bool)
    ensures
        r == ends_local_close_spec(*instruction),
{
    instruction.acknowledged_state == SHUTDOWN_STATE || instruction.new_state == SHUTDOWN_STATE
}

impl SessionCore {
    /// A failed read at `now_ms`: on an active Session a temporary loss of
    /// the network path defers reading; every other error ends the Session.
    pub fn receive_failed(&mut self, kind: ErrorKind, active: bool, now_ms: u64) -> (r: Result<
        (),
        DriverError,
    >)
        requires
            old(self).wf(),
        ensures
            final(self).wf(),
            final(self).remote_latest_spec() == old(self).remote_latest_spec(),
            final(self).local_latest_spec() == old(self).local_latest_spec(),
            !(active && recoverable_kind(kind)) ==> r == Err::<(), DriverError>(
                DriverError::Io(kind),
            ) && final(self).receive_not_before() == old(self).receive_not_before(),
            active && recoverable_kind(kind) && now_ms + old(self).io_retry_spec() > u64::MAX ==> r
                == Err::<(), DriverError>(DriverError::ClockExhausted),
            active && recoverable_kind(kind) && now_ms + old(self).io_retry_spec() <= u64::MAX ==> r
                is Ok && final(self).receive_not_before() == now_ms + old(self).io_retry_spec(),
    {
        if active && is_recoverable_established_io_error(kind) {
            self.defer_receive(now_ms)
        } else {
            Err(DriverError::Io(kind))
        }
    }

    /// An instruction received while closing, as an ordinary instruction:
    /// an acknowledgement of the close request stands for the latest local
    /// state the peer is known to have.
    pub fn ordinary_close_reply(&self, instruction: TransportInstruction) -> (r: TransportInstruction)
        requires
            self.wf(),
        ensures
            r == (TransportInstruction {
                acknowledged_state: if instruction.acknowledged_state == SHUTDOWN_STATE {
                    self.known_receiver_spec()
                } else {
                    instruction.acknowledged_state
                },
                ..instruction
            }),
    {
        let mut ordinary = instruction;
        if ordinary.acknowledged_state == SHUTDOWN_STATE {
            ordinary.acknowledged_state = self.synchronization.known_receiver_state();
        }
        ordinary
    }
}

/// What a local graceful close does next.
#[derive(Clone, Copy, Debug, PartialEq, Eq, Structural)]
pub enum CloseStep {
    /// The bounded wait for an acknowledgement is over: the Session closes.
    Expired,
    /// A shutdown request is due.
    SendDue,
    /// Nothing is due before the close's wake time.
    Wait,
}

/// The timing of a local graceful close: a shutdown request is sent at once
/// and repeated after each retransmission timeout until the peer answers or
/// the bounded wait ends.
pub struct GracefulClose {
    deadline_ms: u64,
    next_send_ms: u64,
}

impl GracefulClose {
    /// The time at which the close gives up waiting.
    pub closed spec fn deadline(&self) -> u64 {
        self.deadline_ms
    }

    /// The time at which the next shutdown request is due.
    pub closed spec fn next_send(&self) -> u64 {
        self.next_send_ms
    }

    /// Starts a close at `now_ms`: a request is due at once, and the wait
    /// ends after the acknowledgement timeout.
    pub fn start(now_ms: u64) -> (r: Result<GracefulClose, DriverError>)
        ensures
            now_ms + GRACEFUL_CLOSE_ACK_TIMEOUT_MS > u64::MAX ==> r == Err::<
                GracefulClose,
                DriverError,
            >(DriverError::ClockExhausted),
            now_ms + GRACEFUL_CLOSE_ACK_TIMEOUT_MS <= u64::MAX ==> (r matches Ok(c) && c.deadline()
                == now_ms + GRACEFUL_CLOSE_ACK_TIMEOUT_MS && c.next_send() == now_ms),
    {
        match now_ms.checked_add(GRACEFUL_CLOSE_ACK_TIMEOUT_MS) {
            None => Err(DriverError::ClockExhausted),
            Some(deadline_ms) => Ok(GracefulClose { deadline_ms, next_send_ms: now_ms }),
        }
    }

    /// What is due at `now_ms`: the end of the wait comes first.
    pub fn step(&self, now_ms: u64) -> (r: CloseStep)
        ensures
            r == if now_ms >= self.deadline() {
                CloseStep::Expired
            } else if now_ms >= self.next_send() {
                CloseStep::SendDue
            } else {
                CloseStep::Wait
            },
    {
        if now_ms >= self.deadline_ms {
            CloseStep::Expired
        } else if now_ms >= self.next_send_ms {
            CloseStep::SendDue
        } else {
            CloseStep::Wait
        }
    }

    /// Schedules the next request `delay_ms` after `from_ms`: after a sent
    /// request the delay is the retransmission timeout, after a deferred one
    /// the I/O retry delay.
    pub fn retry_after(&mut self, from_ms: u64, delay_ms: u64) -> (r: Result<(), DriverError>)
        ensures
            final(self).deadline() == old(self).deadline(),
            from_ms + delay_ms > u64::MAX ==> r == Err::<(), DriverError>(
                DriverError::ClockExhausted,
            ) && final(self).next_send() == old(self).next_send(),
            from_ms + delay_ms <= u64::MAX ==> r is Ok && final(self).next_send() == from_ms
                + delay_ms,
    {
        match from_ms.checked_add(delay_ms) {
            None => Err(DriverError::ClockExhausted),
            Some(t) => {
                self.next_send_ms = t;
                Ok(())
            },
        }
    }

    /// The time to wake at: the next request or the end of the wait,
    /// whichever is first, and no later than `receive_not_before_ms` while
    /// reading is deferred.
    pub fn wake_ms(&self, receive_enabled: bool, receive_not_before_ms: u64) -> (r: u64)
        ensures
            r <= self.next_send(),
            r <= self.deadline(),
            !receive_enabled ==> r <= receive_not_before_ms,
            r == self.next_send() || r == self.deadline() || (!receive_enabled && r
                == receive_not_before_ms),
    {
        let mut wake = if self.next_send_ms < self.deadline_ms {
            self.next_send_ms
        } else {
            self.deadline_ms
        };
        if !receive_enabled && receive_not_before_ms < wake {
            wake = receive_not_before_ms;
        }
        wake
    }
}

} // verus!
