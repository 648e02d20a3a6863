//! The decisions of a Session that do not need a socket or a clock: its
//! public lifecycle and error categories, the mapping of internal failures
//! to those categories, the client's operation history, reachability
//! tracking, and fragment identifiers.
use vstd::prelude::*;

use std::io::ErrorKind;

use crate::fragment::{FragmentError, ReassemblyError};
use crate::instruction::{
    client_difference_result, encode_client_difference, ClientOperation, InstructionError,
};
use crate::limits::{
    INITIAL_ATTACHMENT_TIMEOUT_MS, MAX_CLIENT_OPERATIONS_AFTER_ACK, MAX_INPUT_COMMAND_BYTES,
    NO_RECENT_CONTACT_MS, NO_RECENT_REPLY_MS,
};
use crate::packet::PacketError;
use crate::reachability::ReachabilityError;
use crate::synchronization::SynchronizationError;
use crate::terminal::{is_valid_size, supported_size, PaintError, TerminalError};
use crate::timing::TimingError;

verus! {

/// `std::io::ErrorKind`: a fieldless enum, read by Verus as it is declared,
/// so that the Session's I/O rules can match on its variants.
#[verifier::external_type_specification]
pub struct ExErrorKind(ErrorKind);

/// The I/O failures of an established Session that mean the network path is
/// gone for a while (the interface went down, the route or address vanished,
/// a firewall refused): sending and reading are retried later.
pub open spec fn recoverable_kind(kind: ErrorKind) -> bool {
    kind == ErrorKind::NetworkDown || kind == ErrorKind::NetworkUnreachable || kind
        == ErrorKind::HostUnreachable || kind == ErrorKind::AddrNotAvailable || kind
        == ErrorKind::PermissionDenied
}

/// Whether an I/O failure of an established Session is retried later.
pub fn is_recoverable_established_io_error(kind: ErrorKind) -> (r: bool)
    ensures
        r == recoverable_kind(kind),
{
    match kind {
        ErrorKind::NetworkDown | ErrorKind::NetworkUnreachable | ErrorKind::HostUnreachable
        | ErrorKind::AddrNotAvailable | ErrorKind::PermissionDenied => true,
        _ => false,
    }
}

/// The externally visible lifecycle of a Session.
#[derive(Clone, Copy, Debug, PartialEq, Eq, Structural)]
#[non_exhaustive]
pub enum SessionState {
    /// The local UDP endpoint exists, but no authenticated remote state has arrived.
    Connecting,
    /// At least one authenticated remote terminal state has been accepted.
    Active,
    /// The Session task has stopped or was dropped.
    Closed,
}

impl SessionState {
    /// The state once newer authenticated remote state has been accepted: a
    /// connecting Session becomes active, and any other state stays.
    pub fn after_remote_state(self) -> (r: SessionState)
        ensures
            r == (if self == SessionState::Connecting {
                SessionState::Active
            } else {
                self
            }),
    {
        match self {
            SessionState::Connecting => SessionState::Active,
            other => other,
        }
    }
}

/// The expected reason a Session task stopped.
#[derive(Clone, Copy, Debug, PartialEq, Eq, Structural)]
#[non_exhaustive]
pub enum SessionExit {
    /// A locally requested graceful close completed or reached its bounded ACK wait.
    LocalClosed,
    /// The authenticated peer requested a graceful close.
    RemoteClosed,
    /// The owning application explicitly cancelled the Session.
    Cancelled,
    /// The Session handle or its output consumer was dropped.
    OwnerDropped,
}

/// A failure reported by the Session task.
#[derive(Clone, Copy, Debug, PartialEq, Eq)]
#[non_exhaustive]
pub enum SessionError {
    /// Local socket setup or datagram I/O failed.
    Io(ErrorKind),
    /// The requested initial terminal size is outside the documented limits.
    InvalidTerminalSize,
    /// No complete authenticated remote state arrived before the attachment deadline.
    ConnectionTimeout,
    /// Authenticated input violated the supported protocol or terminal contract.
    Protocol,
    /// A bounded protocol or output resource limit was reached.
    ResourceLimit,
    /// A monotonic protocol identifier or clock value was exhausted.
    StateExhausted,
    /// An internal state invariant could not be satisfied.
    InternalState,
}

/// A command rejected before it entered the Session task.
#[derive(Clone, Copy, Debug, PartialEq, Eq, Structural)]
#[non_exhaustive]
pub enum SessionCommandError {
    /// The Session is cancelled or closed.
    Closed,
    /// One input command exceeded the documented byte limit.
    InputTooLarge,
    /// The requested terminal size is outside the documented limits.
    InvalidTerminalSize,
}

impl SessionCommandError {
    /// A description of the refusal.
    pub fn message(&self) -> (r: &'static str)
        ensures
            match *self {
                SessionCommandError::Closed => r@ == "Session is closed"@,
                SessionCommandError::InputTooLarge => r@ == "input command is too large"@,
                SessionCommandError::InvalidTerminalSize => r@ == "invalid terminal size"@,
            },
    {
        match self {
            SessionCommandError::Closed => "Session is closed",
            SessionCommandError::InputTooLarge => "input command is too large",
            SessionCommandError::InvalidTerminalSize => "invalid terminal size",
        }
    }
}

/// Checks one input command before it is queued: at most the per-command
/// byte limit.
pub fn check_input(bytes: &[u8]) -> (r: Result<(), SessionCommandError>)
    ensures
        r is Ok <==> bytes@.len() <= MAX_INPUT_COMMAND_BYTES,
        r is Err ==> r == Err::<(), SessionCommandError>(SessionCommandError::InputTooLarge),
{
    if bytes.len() > MAX_INPUT_COMMAND_BYTES {
        Err(SessionCommandError::InputTooLarge)
    } else {
        Ok(())
    }
}

/// Checks a resize before it is queued: a supported terminal size.
pub fn check_resize(columns: u32, rows: u32) -> (r: Result<(), SessionCommandError>)
    ensures
        r is Ok <==> supported_size(columns, rows),
        r is Err ==> r == Err::<(), SessionCommandError>(SessionCommandError::InvalidTerminalSize),
{
    if is_valid_size(columns, rows) {
        Ok(())
    } else {
        Err(SessionCommandError::InvalidTerminalSize)
    }
}

/// Whether a command may still be queued: not after a close request,
/// cancellation, or the end of the Session.
pub fn check_open(close_requested: bool, cancelled: bool, state: SessionState) -> (r: Result<
    (),
    SessionCommandError,
>)
    ensures
        r is Ok <==> !close_requested && !cancelled && state != SessionState::Closed,
        r is Err ==> r == Err::<(), SessionCommandError>(SessionCommandError::Closed),
{
    if close_requested || cancelled || state == SessionState::Closed {
        Err(SessionCommandError::Closed)
    } else {
        Ok(())
    }
}

/// A failure inside the Session task, before it is reported by category.
#[derive(Clone, Copy, Debug, PartialEq, Eq)]
pub enum DriverError {
    Io(ErrorKind),
    Packet(PacketError),
    Fragment(FragmentError),
    Reassembly(ReassemblyError),
    Instruction(InstructionError),
    Synchronization(SynchronizationError),
    Timing(TimingError),
    Reachability(ReachabilityError),
    Terminal(TerminalError),
    Paint(PaintError),
    MissingClientState,
    MissingTerminalState,
    OperationIndexExhausted,
    FragmentIdentifierExhausted,
    ClockExhausted,
    ConnectionTimeout,
    IncompleteDatagramSend,
}

/// The category that a failure is reported under: resource limits, exhausted
/// identifiers or clocks, missing internal state, I/O (a partly sent datagram
/// as the kind `WriteZero`), timeout, and every other refusal of
/// authenticated input as a protocol failure.
pub open spec fn category_of(e: DriverError) -> SessionError {
    match e {
        DriverError::IncompleteDatagramSend => SessionError::Io(ErrorKind::WriteZero),
        _ => category_of_complete(e),
    }
}

/// The category of every failure but a partly sent datagram.
pub open spec fn category_of_complete(e: DriverError) -> SessionError {
    match e {
        DriverError::Io(kind) => SessionError::Io(kind),
        DriverError::ConnectionTimeout => SessionError::ConnectionTimeout,
        DriverError::Terminal(TerminalError::InvalidTerminalSize) => SessionError::InvalidTerminalSize,
        DriverError::Instruction(InstructionError::DecodedTooLarge)
        | DriverError::Instruction(InstructionError::CompressedTooLarge)
        | DriverError::Instruction(InstructionError::InputTooLarge)
        | DriverError::Instruction(InstructionError::TooManyClientOperations)
        | DriverError::Instruction(InstructionError::StateDifferenceTooLarge)
        | DriverError::Paint(_)
        | DriverError::Reassembly(ReassemblyError::InstructionTooLarge)
        | DriverError::Reassembly(ReassemblyError::TooManyIncompleteInstructions) => SessionError::ResourceLimit,
        DriverError::MissingClientState | DriverError::MissingTerminalState => SessionError::InternalState,
        DriverError::OperationIndexExhausted
        | DriverError::FragmentIdentifierExhausted
        | DriverError::ClockExhausted
        | DriverError::Reachability(_)
        | DriverError::Packet(PacketError::SequenceExhausted)
        | DriverError::Reassembly(ReassemblyError::TimerExhausted)
        | DriverError::Synchronization(SynchronizationError::StateNumberExhausted)
        | DriverError::Synchronization(SynchronizationError::GenerationExhausted)
        | DriverError::Timing(TimingError::TimerExhausted)
        | DriverError::Timing(TimingError::GenerationExhausted) => SessionError::StateExhausted,
        _ => SessionError::Protocol,
    }
}

impl SessionError {
    /// Reports an internal failure by its category.
    pub fn from(error: DriverError) -> (r: SessionError)
        ensures
            r == category_of(error),
    {
        match error {
            DriverError::Io(kind) => SessionError::Io(kind),
            DriverError::ConnectionTimeout => SessionError::ConnectionTimeout,
            DriverError::Terminal(TerminalError::InvalidTerminalSize) => SessionError::InvalidTerminalSize,
            DriverError::Instruction(InstructionError::DecodedTooLarge)
            | DriverError::Instruction(InstructionError::CompressedTooLarge)
            | DriverError::Instruction(InstructionError::InputTooLarge)
            | DriverError::Instruction(InstructionError::TooManyClientOperations)
            | DriverError::Instruction(InstructionError::StateDifferenceTooLarge)
            | DriverError::Paint(_)
            | DriverError::Reassembly(ReassemblyError::InstructionTooLarge)
            | DriverError::Reassembly(ReassemblyError::TooManyIncompleteInstructions) => SessionError::ResourceLimit,
            DriverError::IncompleteDatagramSend => SessionError::Io(ErrorKind::WriteZero),
            DriverError::MissingClientState | DriverError::MissingTerminalState => SessionError::InternalState,
            DriverError::OperationIndexExhausted
            | DriverError::FragmentIdentifierExhausted
            | DriverError::ClockExhausted
            | DriverError::Reachability(_)
            | DriverError::Packet(PacketError::SequenceExhausted)
            | DriverError::Reassembly(ReassemblyError::TimerExhausted)
            | DriverError::Synchronization(SynchronizationError::StateNumberExhausted)
            | DriverError::Synchronization(SynchronizationError::GenerationExhausted)
            | DriverError::Timing(TimingError::TimerExhausted)
            | DriverError::Timing(TimingError::GenerationExhausted) => SessionError::StateExhausted,
            _ => SessionError::Protocol,
        }
    }

    /// A description of the failure category.
    pub fn message(&self) -> (r: &'static str)
        ensures
            match *self {
                SessionError::Io(_) => r@ == "Session I/O failed"@,
                SessionError::InvalidTerminalSize => r@ == "invalid terminal size"@,
                SessionError::ConnectionTimeout => r@ == "Session attachment timed out"@,
                SessionError::Protocol => r@ == "remote protocol state is invalid"@,
                SessionError::ResourceLimit => r@ == "Session resource limit reached"@,
                SessionError::StateExhausted => r@ == "Session state space exhausted"@,
                SessionError::InternalState => r@ == "Session internal state is unavailable"@,
            },
    {
        match self {
            SessionError::Io(_) => "Session I/O failed",
            SessionError::InvalidTerminalSize => "invalid terminal size",
            SessionError::ConnectionTimeout => "Session attachment timed out",
            SessionError::Protocol => "remote protocol state is invalid",
            SessionError::ResourceLimit => "Session resource limit reached",
            SessionError::StateExhausted => "Session state space exhausted",
            SessionError::InternalState => "Session internal state is unavailable",
        }
    }
}


/// The operation index recorded for `state` among checkpoint pairs; a later
/// pair for the same state replaces an earlier one.
pub open spec fn checkpoint_lookup(pairs: Seq<(u64, u64)>, state: u64) -> Option<u64>
    decreases pairs.len(),
{
    if pairs.len() == 0 {
        None
    } else if pairs.last().0 == state {
        Some(pairs.last().1)
    } else {
        checkpoint_lookup(pairs.drop_last(), state)
    }
}

/// The pairs whose state satisfies `keep`, in order.
pub open spec fn kept_pairs(pairs: Seq<(u64, u64)>, keep: spec_fn(u64) -> bool) -> Seq<(u64, u64)>
    decreases pairs.len(),
{
    if pairs.len() == 0 {
        Seq::empty()
    } else if keep(pairs.last().0) {
        kept_pairs(pairs.drop_last(), keep).push(pairs.last())
    } else {
        kept_pairs(pairs.drop_last(), keep)
    }
}

proof fn lemma_lookup_kept(pairs: Seq<(u64, u64)>, keep: spec_fn(u64) -> bool, state: u64)
    ensures
        checkpoint_lookup(kept_pairs(pairs, keep), state) == if keep(state) {
            checkpoint_lookup(pairs, state)
        } else {
            None
        },
    decreases pairs.len(),
{
    if pairs.len() > 0 {
        lemma_lookup_kept(pairs.drop_last(), keep, state);
        if keep(pairs.last().0) {
            let k = kept_pairs(pairs.drop_last(), keep).push(pairs.last());
            assert(k.drop_last() =~= kept_pairs(pairs.drop_last(), keep));
        }
    }
}

/// The pairs of `pairs` whose state is kept: with `drop_only`, every state
/// but `pivot`; otherwise every state at or after `pivot`.
fn retain_pairs(pairs: &Vec<(u64, u64)>, pivot: u64, drop_only: bool) -> (r: Vec<(u64, u64)>)
    ensures
        forall|s: u64| #[trigger] checkpoint_lookup(r@, s) == if (if drop_only {
            s != pivot
        } else {
            s >= pivot
        }) {
            checkpoint_lookup(pairs@, s)
        } else {
            None
        },
{
    let ghost keep = |state: u64|
        if drop_only {
            state != pivot
        } else {
            state >= pivot
        };
    let mut out: Vec<(u64, u64)> = Vec::new();
    let mut i: usize = 0;
    assert(pairs@.take(0) =~= Seq::<(u64, u64)>::empty());
    while i < pairs.len()
        invariant
            i <= pairs@.len(),
            out@ == kept_pairs(pairs@.take(i as int), keep),
            keep == (|state: u64|
                if drop_only {
                    state != pivot
                } else {
                    state >= pivot
                }),
        decreases pairs@.len() - i,
    {
        let pair = pairs[i];
        assert(pairs@.take(i + 1).drop_last() =~= pairs@.take(i as int));
        let kept = if drop_only {
            pair.0 != pivot
        } else {
            pair.0 >= pivot
        };
        if kept {
            out.push(pair);
        }
        i = i + 1;
    }
    assert(pairs@.take(i as int) =~= pairs@);
    proof {
        assert forall|s: u64| #[trigger] checkpoint_lookup(out@, s) == if (if drop_only {
            s != pivot
        } else {
            s >= pivot
        }) {
            checkpoint_lookup(pairs@, s)
        } else {
            None
        } by {
            lemma_lookup_kept(pairs@, keep, s);
        }
    }
    out
}

/// The client's operations since the last acknowledged state, and which
/// operation each local state number reached.
#[derive(Debug)]
pub struct ClientHistory {
    operation_offset: u64,
    next_operation: u64,
    operations: Vec<ClientOperation>,
    checkpoints: Vec<(u64, u64)>,
}

impl ClientHistory {
    /// The index of the first retained operation.
    pub closed spec fn offset(&self) -> u64 {
        self.operation_offset
    }

    /// The index the next operation will have.
    pub closed spec fn next_index(&self) -> u64 {
        self.next_operation
    }

    /// The retained operations.
    pub closed spec fn retained(&self) -> Seq<ClientOperation> {
        self.operations@
    }

    /// The operation index that local state `state` reached, if recorded.
    pub closed spec fn checkpoint_of(&self, state: u64) -> Option<u64> {
        checkpoint_lookup(self.checkpoints@, state)
    }

    /// The history's invariant: retained operations end at the next index,
    /// fit the unacknowledged-operation limit, and no checkpoint is past the
    /// next index.
    pub closed spec fn wf(&self) -> bool {
        &&& self.operation_offset + self.operations@.len() == self.next_operation
        &&& self.operations@.len() <= MAX_CLIENT_OPERATIONS_AFTER_ACK
        &&& forall|state: u64|
            #[trigger] checkpoint_lookup(self.checkpoints@, state) matches Some(i) ==> i
                <= self.next_operation
    }

    /// An empty history whose state 0 is at operation 0.
    pub fn new() -> (r: ClientHistory)
        ensures
            r.wf(),
            r.offset() == 0,
            r.next_index() == 0,
            r.retained() == Seq::<ClientOperation>::empty(),
            forall|state: u64| #[trigger] r.checkpoint_of(state) == if state == 0 {
                Some(0u64)
            } else {
                None
            },
    {
        let mut checkpoints: Vec<(u64, u64)> = Vec::new();
        checkpoints.push((0, 0));
        let r = ClientHistory {
            operation_offset: 0,
            next_operation: 0,
            operations: Vec::new(),
            checkpoints,
        };
        proof {
            assert forall|state: u64| #[trigger] r.checkpoint_of(state) == if state == 0 {
                Some(0u64)
            } else {
                None
            } by {
                let cps = r.checkpoints@;
                assert(cps.len() == 1);
                assert(cps.last() == (0u64, 0u64));
                assert(cps.drop_last() =~= Seq::<(u64, u64)>::empty());
                assert(checkpoint_lookup(cps.drop_last(), state) is None);
            }
            assert forall|state: u64| #[trigger] checkpoint_lookup(r.checkpoints@, state) is Some
                implies checkpoint_lookup(r.checkpoints@, state)->0 <= r.next_operation by {
                assert(r.checkpoint_of(state) == checkpoint_lookup(r.checkpoints@, state));
            }
            assert(r.wf());
        }
        r
    }

    /// Appends an operation when the operations since the acknowledged state,
    /// with it, still encode within their limits.
    pub fn append(&mut self, operation: ClientOperation) -> (r: Result<(), DriverError>)
        requires
            old(self).wf(),
        ensures
            final(self).wf(),
            old(self).retained().len() == MAX_CLIENT_OPERATIONS_AFTER_ACK ==> r == Err::<
                (),
                DriverError,
            >(DriverError::Instruction(InstructionError::TooManyClientOperations)),
            old(self).retained().len() < MAX_CLIENT_OPERATIONS_AFTER_ACK && old(self).next_index()
                == u64::MAX ==> r == Err::<(), DriverError>(DriverError::OperationIndexExhausted),
            old(self).retained().len() < MAX_CLIENT_OPERATIONS_AFTER_ACK && old(self).next_index()
                < u64::MAX ==> match client_difference_result(old(self).retained().push(operation)) {
                Err(e) => r == Err::<(), DriverError>(DriverError::Instruction(e)),
                Ok(_) => r is Ok,
            },
            r is Err ==> final(self).retained() == old(self).retained() && final(self).next_index()
                == old(self).next_index(),
            r is Ok ==> final(self).retained() == old(self).retained().push(operation) && final(self).next_index() == old(self).next_index() + 1,
            r is Ok ==> old(self).retained().len() < MAX_CLIENT_OPERATIONS_AFTER_ACK && old(
                self,
            ).next_index() < u64::MAX,
            final(self).offset() == old(self).offset(),
            forall|state: u64| #[trigger] final(self).checkpoint_of(state) == old(self).checkpoint_of(
                state,
            ),
    {
        if self.operations.len() == MAX_CLIENT_OPERATIONS_AFTER_ACK {
            return Err(DriverError::Instruction(InstructionError::TooManyClientOperations));
        }
        if self.next_operation == u64::MAX {
            return Err(DriverError::OperationIndexExhausted);
        }
        let next_operation = self.next_operation + 1;
        self.operations.push(operation);
        match encode_client_difference(self.operations.as_slice()) {
            Err(e) => {
                self.operations.pop();
                return Err(DriverError::Instruction(e));
            },
            Ok(_) => {},
        }
        self.next_operation = next_operation;
        Ok(())
    }

    /// Records that local state `state` reached the next operation index.
    pub fn checkpoint(&mut self, state: u64)
        requires
            old(self).wf(),
        ensures
            final(self).wf(),
            final(self).offset() == old(self).offset(),
            final(self).next_index() == old(self).next_index(),
            final(self).retained() == old(self).retained(),
            forall|s: u64| #[trigger] final(self).checkpoint_of(s) == if s == state {
                Some(old(self).next_index())
            } else {
                old(self).checkpoint_of(s)
            },
    {
        let mut pairs = retain_pairs(&self.checkpoints, state, true);
        let ghost kept = pairs@;
        pairs.push((state, self.next_operation));
        proof {
            assert(pairs@.drop_last() =~= kept);
            assert forall|s: u64| #[trigger] checkpoint_lookup(pairs@, s) == if s == state {
                Some(self.next_operation)
            } else {
                checkpoint_lookup(self.checkpoints@, s)
            } by {
                assert(checkpoint_lookup(kept, s) == if s != state {
                    checkpoint_lookup(self.checkpoints@, s)
                } else {
                    None
                });
            }
        }
        self.checkpoints = pairs;
    }

    /// Forgets the checkpoint of local state `state`.
    pub fn remove_checkpoint(&mut self, state: u64)
        requires
            old(self).wf(),
        ensures
            final(self).wf(),
            final(self).offset() == old(self).offset(),
            final(self).next_index() == old(self).next_index(),
            final(self).retained() == old(self).retained(),
            forall|s: u64| #[trigger] final(self).checkpoint_of(s) == if s == state {
                None
            } else {
                old(self).checkpoint_of(s)
            },
    {
        let pairs = retain_pairs(&self.checkpoints, state, true);
        self.checkpoints = pairs;
    }

    /// The encoded operations between the checkpoints of `base` and `target`.
    pub fn difference(&self, base: u64, target: u64) -> (r: Result<Vec<u8>, DriverError>)
        requires
            self.wf(),
        ensures
            match (self.checkpoint_of(base), self.checkpoint_of(target)) {
                (Some(start), Some(end)) => if start < self.offset() || end < self.offset()
                    || start > end {
                    r == Err::<Vec<u8>, DriverError>(DriverError::MissingClientState)
                } else {
                    let ops = self.retained().subrange(
                        start - self.offset(),
                        end - self.offset(),
                    );
                    match client_difference_result(ops) {
                        Ok(b) => r matches Ok(v) && v@ == b,
                        Err(e) => r == Err::<Vec<u8>, DriverError>(DriverError::Instruction(e)),
                    }
                },
                _ => r == Err::<Vec<u8>, DriverError>(DriverError::MissingClientState),
            },
    {
        let start = match lookup_pairs(&self.checkpoints, base) {
            None => {
                return Err(DriverError::MissingClientState);
            },
            Some(s) => s,
        };
        let end = match lookup_pairs(&self.checkpoints, target) {
            None => {
                return Err(DriverError::MissingClientState);
            },
            Some(e) => e,
        };
        if start < self.operation_offset || end < self.operation_offset || start > end {
            return Err(DriverError::MissingClientState);
        }
        let first = (start - self.operation_offset) as usize;
        let last = (end - self.operation_offset) as usize;
        let range = vstd::slice::slice_subrange(self.operations.as_slice(), first, last);
        match encode_client_difference(range) {
            Ok(b) => Ok(b),
            Err(e) => Err(DriverError::Instruction(e)),
        }
    }

    /// Discards the operations that local state `state` covers, and every
    /// checkpoint of an earlier state.
    pub fn acknowledge(&mut self, state: u64) -> (r: Result<(), DriverError>)
        requires
            old(self).wf(),
        ensures
            final(self).wf(),
            match old(self).checkpoint_of(state) {
                None => r == Err::<(), DriverError>(DriverError::MissingClientState) && *final(self)
                    == *old(self),
                Some(acknowledged) => if acknowledged < old(self).offset() {
                    r == Err::<(), DriverError>(DriverError::MissingClientState) && *final(self)
                        == *old(self)
                } else {
                    &&& r is Ok
                    &&& final(self).offset() == acknowledged
                    &&& final(self).next_index() == old(self).next_index()
                    &&& final(self).retained() == old(self).retained().skip(
                        acknowledged - old(self).offset(),
                    )
                    &&& forall|s: u64| #[trigger] final(self).checkpoint_of(s) == if s >= state {
                        old(self).checkpoint_of(s)
                    } else {
                        None
                    }
                },
            },
    {
        let acknowledged = match lookup_pairs(&self.checkpoints, state) {
            None => {
                return Err(DriverError::MissingClientState);
            },
            Some(a) => a,
        };
        if acknowledged < self.operation_offset {
            return Err(DriverError::MissingClientState);
        }
        let discard = (acknowledged - self.operation_offset) as usize;
        let rest = self.operations.split_off(discard);
        self.operations = rest;
        self.operation_offset = acknowledged;
        let pairs = retain_pairs(&self.checkpoints, state, false);
        self.checkpoints = pairs;
        Ok(())
    }

    /// The index of the first retained operation.
    pub fn operation_offset(&self) -> (r: u64)
        ensures
            r == self.offset(),
    {
        self.operation_offset
    }

    /// The number of retained operations.
    pub fn operation_count(&self) -> (r: usize)
        ensures
            r == self.retained().len(),
    {
        self.operations.len()
    }

    /// Whether a checkpoint is recorded for local state `state`.
    pub fn has_checkpoint(&self, state: u64) -> (r: bool)
        ensures
            r == self.checkpoint_of(state) is Some,
    {
        lookup_pairs(&self.checkpoints, state).is_some()
    }
}

/// The operation index recorded for `state`.
fn lookup_pairs(pairs: &Vec<(u64, u64)>, state: u64) -> (r: Option<u64>)
    ensures
        r == checkpoint_lookup(pairs@, state),
{
    let mut i = pairs.len();
    assert(pairs@.take(i as int) =~= pairs@);
    while i > 0
        invariant
            i <= pairs@.len(),
            checkpoint_lookup(pairs@, state) == checkpoint_lookup(pairs@.take(i as int), state),
        decreases i,
    {
        assert(pairs@.take(i as int).drop_last() =~= pairs@.take(i - 1));
        let pair = pairs[i - 1];
        if pair.0 == state {
            return Some(pair.1);
        }
        i = i - 1;
    }
    None
}

/// Identifiers of outgoing instructions: each used once, in increasing order.
pub struct InstructionIdentifier {
    next: Option<u64>,
}

impl InstructionIdentifier {
    pub closed spec fn next_spec(&self) -> Option<u64> {
        self.next
    }

    /// Identifiers starting at zero.
    pub fn new() -> (r: InstructionIdentifier)
        ensures
            r.next_spec() == Some(0u64),
    {
        InstructionIdentifier { next: Some(0) }
    }

    /// Takes the next identifier.
    pub fn take(&mut self) -> (r: Result<u64, DriverError>)
        ensures
            old(self).next_spec() is None ==> r == Err::<u64, DriverError>(
                DriverError::FragmentIdentifierExhausted,
            ) && final(self).next_spec() is None,
            old(self).next_spec() matches Some(n) ==> r == Ok::<u64, DriverError>(n) && final(self).next_spec() == if n < u64::MAX {
                Some((n + 1) as u64)
            } else {
                None
            },
    {
        let identifier = match self.next {
            None => {
                return Err(DriverError::FragmentIdentifierExhausted);
            },
            Some(i) => i,
        };
        self.next = identifier.checked_add(1);
        Ok(identifier)
    }
}

} // verus!
