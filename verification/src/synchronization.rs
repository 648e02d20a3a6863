//! State synchronization: numbering of local states, the sent-state window,
//! acknowledgements, and the retained window of received reference states.
use vstd::prelude::*;

use crate::instruction::{PROTOCOL_VERSION, TransportInstruction};
use crate::limits::{
    MAX_RECEIVED_REFERENCE_STATES, MAX_RETRANSMISSION_TIMEOUT_MS, MAX_SENT_STATES_AFTER_ACK,
    MIN_RETRANSMISSION_TIMEOUT_MS,
};

verus! {

/// Why an instruction or a planned step was refused.
#[derive(Clone, Copy, Debug, PartialEq, Eq, Structural)]
pub enum SynchronizationError {
    StateNumberExhausted,
    InvalidAcknowledgement,
    IncompatibleVersion,
    InvalidStateTransition,
    InvalidThrowaway,
    InvalidRetransmissionTimeout,
    TimeMovedBackwards,
    NoNewState,
    StalePlan,
    GenerationExhausted,
}

/// What a received acknowledgement did to the state known at the peer.
#[derive(Clone, Copy, Debug, PartialEq, Eq, Structural)]
pub enum AcknowledgementDisposition {
    Advanced { from: u64, to: u64 },
    Current,
    Stale,
    Unknown,
}

/// A planned send: the state transition an instruction will carry.
#[derive(Clone, Copy, Debug, PartialEq, Eq, Structural)]
pub struct SendPlan {
    generation: u64,
    pub base_state: u64,
    pub target_state: u64,
    pub acknowledged_state: u64,
    pub throwaway_state: u64,
    planned_at_ms: u64,
}

/// What committing a send evicted, if anything.
#[derive(Clone, Copy, Debug, PartialEq, Eq, Structural)]
pub struct SendCommit {
    pub capacity_evicted_state: Option<u64>,
}

impl SendPlan {
    pub closed spec fn generation_spec(&self) -> u64 {
        self.generation
    }

    pub closed spec fn planned_at_spec(&self) -> u64 {
        self.planned_at_ms
    }

    pub closed spec fn base_spec(&self) -> u64 {
        self.base_state
    }

    pub closed spec fn target_spec(&self) -> u64 {
        self.target_state
    }

    pub closed spec fn acknowledged_spec(&self) -> u64 {
        self.acknowledged_state
    }

    pub closed spec fn throwaway_spec(&self) -> u64 {
        self.throwaway_state
    }

    /// The state the planned instruction is based on.
    pub fn base(&self) -> (r: u64)
        ensures
            r == self.base_spec(),
    {
        self.base_state
    }

    /// The state the planned instruction leads to.
    pub fn target(&self) -> (r: u64)
        ensures
            r == self.target_spec(),
    {
        self.target_state
    }

    /// The instruction that carries this plan.
    pub fn instruction(self, state_difference: Vec<u8>, chaff: Vec<u8>) -> (r: TransportInstruction)
        ensures
            r == (TransportInstruction {
                protocol_version: PROTOCOL_VERSION,
                base_state: self.base_spec(),
                new_state: self.target_spec(),
                acknowledged_state: self.acknowledged_spec(),
                discard_before_state: self.throwaway_spec(),
                state_difference,
                chaff,
            }),
    {
        TransportInstruction {
            protocol_version: PROTOCOL_VERSION,
            base_state: self.base_state,
            new_state: self.target_state,
            acknowledged_state: self.acknowledged_state,
            discard_before_state: self.throwaway_state,
            state_difference,
            chaff,
        }
    }
}

/// A planned application of a received state difference.
pub struct ApplyPlan<'a> {
    generation: u64,
    pub base_state: u64,
    pub target_state: u64,
    pub throwaway_state: u64,
    pub difference: &'a [u8],
    becomes_latest: bool,
}

impl<'a> ApplyPlan<'a> {
    pub closed spec fn generation_spec(&self) -> u64 {
        self.generation
    }

    pub closed spec fn becomes_latest_spec(&self) -> bool {
        self.becomes_latest
    }

    pub closed spec fn base_spec(&self) -> u64 {
        self.base_state
    }

    pub closed spec fn target_spec(&self) -> u64 {
        self.target_state
    }

    pub closed spec fn throwaway_spec(&self) -> u64 {
        self.throwaway_state
    }

    pub closed spec fn difference_spec(&self) -> Seq<u8> {
        self.difference@
    }

    /// The state the received difference applies to.
    pub fn base(&self) -> (r: u64)
        ensures
            r == self.base_spec(),
    {
        self.base_state
    }

    /// The state the received difference leads to.
    pub fn target(&self) -> (r: u64)
        ensures
            r == self.target_spec(),
    {
        self.target_state
    }

    /// The received difference.
    pub fn difference(&self) -> (r: &'a [u8])
        ensures
            r@ == self.difference_spec(),
    {
        self.difference
    }
}

/// What to do with the remote state an instruction carries.
pub enum RemoteStateDisposition<'a> {
    Apply(ApplyPlan<'a>),
    AlreadyConstructed,
    MissingReference,
    BelowThrowawayFloor,
    BelowRetentionWindow,
}

/// The acknowledgement and remote-state outcome of a received instruction.
pub struct ReceiveTransition<'a> {
    pub acknowledgement: AcknowledgementDisposition,
    pub remote_state: RemoteStateDisposition<'a>,
}

/// The base and difference of a graceful-close instruction.
pub struct ShutdownTransition<'a> {
    pub acknowledgement: AcknowledgementDisposition,
    pub base_state: u64,
    pub difference: &'a [u8],
}

/// The states forgotten once a remote state was committed.
#[derive(Clone, Copy, Debug, PartialEq, Eq, Structural)]
pub struct ReceiveCommit {
    pub discard_before_state: u64,
    pub capacity_evicted_state: Option<u64>,
}

/// A local state sent to the peer and when.
#[derive(Clone, Copy, Debug, PartialEq, Eq, Structural)]
pub struct SentState {
    pub number: u64,
    pub sent_at_ms: u64,
}

/// The abstract synchronization state.
pub ghost struct SyncView {
    pub local_latest: u64,
    pub known_receiver_state: u64,
    pub sent_states: Seq<SentState>,
    pub sender_generation: u64,
    pub remote_latest: u64,
    pub remote_throwaway_floor: u64,
    pub received_states: Seq<u64>,
    pub receiver_generation: u64,
}

/// Numbers strictly increase along `s`.
pub open spec fn increasing(s: Seq<u64>) -> bool {
    forall|i: int, j: int| 0 <= i < j < s.len() ==> s[i] < s[j]
}

/// The numbers of the sent states, in order.
pub open spec fn sent_numbers(s: Seq<SentState>) -> Seq<u64> {
    s.map_values(|x: SentState| x.number)
}

/// The invariant of the synchronization state.
pub open spec fn sync_wf(v: SyncView) -> bool {
    &&& increasing(sent_numbers(v.sent_states))
    &&& v.sent_states.len() <= MAX_SENT_STATES_AFTER_ACK
    &&& forall|i: int|
        0 <= i < v.sent_states.len() ==> v.known_receiver_state < (#[trigger] v.sent_states[i]).number
            <= v.local_latest
    &&& v.known_receiver_state <= v.local_latest
    &&& increasing(v.received_states)
    &&& 1 <= v.received_states.len() <= MAX_RECEIVED_REFERENCE_STATES
}

/// The base state for a send at `now`: the newest sent state still within its
/// retransmission timeout, or else the acknowledged state.
pub open spec fn plan_base(sent: Seq<SentState>, known: u64, now: u64, rto: u64) -> Result<u64, SynchronizationError>
    decreases sent.len(),
{
    if sent.len() == 0 {
        Ok(known)
    } else if now < sent.last().sent_at_ms {
        Err(SynchronizationError::TimeMovedBackwards)
    } else if now - sent.last().sent_at_ms < rto {
        Ok(sent.last().number)
    } else {
        plan_base(sent.drop_last(), known, now, rto)
    }
}

/// A send builds on a state the peer has or was sent within the
/// retransmission timeout: its base is the acknowledged state or a sent one,
/// never older than the acknowledged state and never newer than the latest;
/// the only way to find no base is time moving backwards.
pub proof fn law_sends_build_on_a_known_or_recent_state(
    sent: Seq<SentState>,
    known: u64,
    local_latest: u64,
    now: u64,
    rto: u64,
)
    requires
        forall|i: int| 0 <= i < sent.len() ==> known < (#[trigger] sent[i]).number <= local_latest,
        known <= local_latest,
    ensures
        plan_base(sent, known, now, rto) matches Ok(base) ==> known <= base <= local_latest && (base
            == known || exists|i: int|
            0 <= i < sent.len() && (#[trigger] sent[i]).number == base && now - sent[i].sent_at_ms
                < rto),
        plan_base(sent, known, now, rto) is Err ==> plan_base(sent, known, now, rto) == Err::<
            u64,
            SynchronizationError,
        >(SynchronizationError::TimeMovedBackwards),
    decreases sent.len(),
{
    if sent.len() > 0 {
        let last = sent.len() - 1;
        assert(sent.last() == sent[last]);
        if !(now < sent.last().sent_at_ms) && !(now - sent.last().sent_at_ms < rto) {
            assert forall|i: int| 0 <= i < sent.drop_last().len() implies known < (
            #[trigger] sent.drop_last()[i]).number <= local_latest by {
                assert(sent.drop_last()[i] == sent[i]);
            }
            law_sends_build_on_a_known_or_recent_state(sent.drop_last(), known, local_latest, now, rto);
            match plan_base(sent.drop_last(), known, now, rto) {
                Ok(base) => {
                    if base != known {
                        let i = choose|i: int|
                            0 <= i < sent.drop_last().len() && (#[trigger] sent.drop_last()[i]).number
                                == base && now - sent.drop_last()[i].sent_at_ms < rto;
                        assert(sent[i] == sent.drop_last()[i]);
                    }
                },
                Err(_) => {},
            }
        }
    }
}

/// The sent states above `ack`, in order.
pub open spec fn sent_above(s: Seq<SentState>, ack: u64) -> Seq<SentState>
    decreases s.len(),
{
    if s.len() == 0 {
        s
    } else if s.last().number > ack {
        sent_above(s.drop_last(), ack).push(s.last())
    } else {
        sent_above(s.drop_last(), ack)
    }
}

/// The numbers of `s` at or above `floor`, in order.
pub open spec fn at_least(s: Seq<u64>, floor: u64) -> Seq<u64>
    decreases s.len(),
{
    if s.len() == 0 {
        s
    } else if s.last() >= floor {
        at_least(s.drop_last(), floor).push(s.last())
    } else {
        at_least(s.drop_last(), floor)
    }
}

/// `s` with `x` inserted in increasing order.
pub open spec fn insert_increasing(s: Seq<u64>, x: u64) -> Seq<u64>
    decreases s.len(),
{
    if s.len() == 0 {
        seq![x]
    } else if x < s[0] {
        seq![x] + s
    } else {
        seq![s[0]] + insert_increasing(s.drop_first(), x)
    }
}

/// The index of the first received state that capacity eviction may remove:
/// the throwaway floor itself, when present first, is kept.
pub open spec fn first_evictable(received: Seq<u64>, floor: u64) -> int {
    if received.len() > 0 && received[0] == floor {
        1
    } else {
        0
    }
}

/// Whether a received state numbered `target` can enter the retained window.
pub open spec fn can_retain(received: Seq<u64>, floor: u64, target: u64) -> bool {
    received.len() < MAX_RECEIVED_REFERENCE_STATES || (first_evictable(received, floor)
        < received.len() && target > received[first_evictable(received, floor)])
}

/// The acknowledgement disposition and the state after observing `ack`.
pub open spec fn observe_ack_spec(v: SyncView, ack: u64) -> (SyncView, Result<AcknowledgementDisposition, SynchronizationError>) {
    if ack < v.known_receiver_state {
        (v, Ok(AcknowledgementDisposition::Stale))
    } else if ack == v.known_receiver_state {
        (v, Ok(AcknowledgementDisposition::Current))
    } else if !sent_numbers(v.sent_states).contains(ack) {
        (v, Ok(AcknowledgementDisposition::Unknown))
    } else if v.sender_generation == u64::MAX {
        (v, Err(SynchronizationError::GenerationExhausted))
    } else {
        (
            SyncView {
                known_receiver_state: ack,
                sent_states: sent_above(v.sent_states, ack),
                sender_generation: (v.sender_generation + 1) as u64,
                ..v
            },
            Ok(AcknowledgementDisposition::Advanced { from: v.known_receiver_state, to: ack }),
        )
    }
}

/// The validation error of an instruction, if any.
pub open spec fn validation_error(v: SyncView, instruction: TransportInstruction) -> Option<SynchronizationError> {
    if instruction.protocol_version != PROTOCOL_VERSION {
        Some(SynchronizationError::IncompatibleVersion)
    } else if instruction.acknowledged_state > v.local_latest {
        Some(SynchronizationError::InvalidAcknowledgement)
    } else if instruction.new_state <= instruction.base_state {
        Some(SynchronizationError::InvalidStateTransition)
    } else if instruction.discard_before_state > instruction.base_state {
        Some(SynchronizationError::InvalidThrowaway)
    } else {
        None
    }
}

/// What happens to a validated instruction's remote state.
pub ghost enum RemoteKind {
    Apply,
    AlreadyConstructed,
    MissingReference,
    BelowThrowawayFloor,
    BelowRetentionWindow,
}

pub open spec fn remote_kind(v: SyncView, base: u64, new: u64) -> RemoteKind {
    if new < v.remote_throwaway_floor || base < v.remote_throwaway_floor {
        RemoteKind::BelowThrowawayFloor
    } else if v.received_states.contains(new) {
        RemoteKind::AlreadyConstructed
    } else if !v.received_states.contains(base) {
        RemoteKind::MissingReference
    } else if !can_retain(v.received_states, v.remote_throwaway_floor, new) {
        RemoteKind::BelowRetentionWindow
    } else {
        RemoteKind::Apply
    }
}

impl<'a> RemoteStateDisposition<'a> {
    pub open spec fn kind(&self) -> RemoteKind {
        match self {
            RemoteStateDisposition::Apply(_) => RemoteKind::Apply,
            RemoteStateDisposition::AlreadyConstructed => RemoteKind::AlreadyConstructed,
            RemoteStateDisposition::MissingReference => RemoteKind::MissingReference,
            RemoteStateDisposition::BelowThrowawayFloor => RemoteKind::BelowThrowawayFloor,
            RemoteStateDisposition::BelowRetentionWindow => RemoteKind::BelowRetentionWindow,
        }
    }
}

/// The received window after committing `target` with throwaway `throwaway`:
/// a new latest state raises the floor and drops older references, a full
/// window evicts its oldest evictable state, and `target` is inserted in order.
pub open spec fn received_after_commit(
    received: Seq<u64>,
    floor: u64,
    target: u64,
    throwaway: u64,
    becomes_latest: bool,
) -> (Seq<u64>, u64, Option<u64>) {
    let new_floor = if becomes_latest && throwaway > floor {
        throwaway
    } else {
        floor
    };
    let kept = if becomes_latest {
        at_least(received, new_floor)
    } else {
        received
    };
    if kept.len() == MAX_RECEIVED_REFERENCE_STATES {
        let index = first_evictable(kept, new_floor);
        (insert_increasing(kept.remove(index), target), new_floor, Some(kept[index]))
    } else {
        (insert_increasing(kept, target), new_floor, None)
    }
}

/// Both directions of state synchronization: local states sent and remote states received.
pub struct SynchronizationState {
    local_latest: u64,
    known_receiver_state: u64,
    sent_states: Vec<SentState>,
    sender_generation: u64,
    remote_latest: u64,
    remote_throwaway_floor: u64,
    received_states: Vec<u64>,
    receiver_generation: u64,
}

proof fn lemma_sent_above_props(s: Seq<SentState>, ack: u64)
    requires
        increasing(sent_numbers(s)),
    ensures
        increasing(sent_numbers(sent_above(s, ack))),
        sent_above(s, ack).len() <= s.len(),
        forall|i: int|
            0 <= i < sent_above(s, ack).len() ==> (#[trigger] sent_above(s, ack)[i]).number > ack
                && s.contains(sent_above(s, ack)[i]),
    decreases s.len(),
{
    if s.len() > 0 {
        let shorter = s.drop_last();
        assert(sent_numbers(shorter) =~= sent_numbers(s).drop_last());
        lemma_sent_above_props(shorter, ack);
        let r = sent_above(s, ack);
        let rs = sent_above(shorter, ack);
        assert forall|i: int| 0 <= i < rs.len() implies #[trigger] s.contains(rs[i]) by {
            let k = choose|k: int| 0 <= k < shorter.len() && shorter[k] == rs[i];
            assert(s[k] == rs[i]);
        }
        if s.last().number > ack {
            assert forall|i: int| 0 <= i < rs.len() implies (#[trigger] rs[i]).number
                < s.last().number by {
                let k = choose|k: int| 0 <= k < shorter.len() && shorter[k] == rs[i];
                assert(sent_numbers(s)[k] < sent_numbers(s)[s.len() - 1]);
            }
            assert(s.contains(s.last())) by {
                assert(s[s.len() - 1] == s.last());
            }
            assert forall|i: int| 0 <= i < r.len() implies (#[trigger] r[i]).number > ack
                && s.contains(r[i]) by {
                if i < rs.len() {
                    assert(r[i] == rs[i]);
                }
            }
            assert forall|i: int, j: int|
                0 <= i < j < sent_numbers(r).len() implies sent_numbers(r)[i] < sent_numbers(
                r,
            )[j] by {
                if j < rs.len() {
                    assert(sent_numbers(rs)[i] < sent_numbers(rs)[j]);
                } else {
                    assert(r[i] == rs[i]);
                }
            }
        }
    }
}

proof fn lemma_at_least_props(s: Seq<u64>, floor: u64)
    requires
        increasing(s),
    ensures
        increasing(at_least(s, floor)),
        at_least(s, floor).len() <= s.len(),
        forall|x: u64| #[trigger] at_least(s, floor).contains(x) <==> (s.contains(x) && x >= floor),
    decreases s.len(),
{
    if s.len() > 0 {
        let shorter = s.drop_last();
        lemma_at_least_props(shorter, floor);
        let r = at_least(s, floor);
        let rs = at_least(shorter, floor);
        assert forall|x: u64| #[trigger] s.contains(x) <==> (shorter.contains(x) || x == s.last()) by {
            if s.contains(x) {
                let k = choose|k: int| 0 <= k < s.len() && s[k] == x;
                if k < s.len() - 1 {
                    assert(shorter[k] == x);
                }
            }
            if shorter.contains(x) {
                let k = choose|k: int| 0 <= k < shorter.len() && shorter[k] == x;
                assert(s[k] == x);
            }
            if x == s.last() {
                assert(s[s.len() - 1] == x);
            }
        }
        if s.last() >= floor {
            assert forall|x: u64| #[trigger] r.contains(x) <==> (rs.contains(x) || x == s.last()) by {
                if r.contains(x) {
                    let k = choose|k: int| 0 <= k < r.len() && r[k] == x;
                    if k < rs.len() {
                        assert(rs[k] == x);
                    }
                }
                if rs.contains(x) {
                    let k = choose|k: int| 0 <= k < rs.len() && rs[k] == x;
                    assert(r[k] == x);
                }
                if x == s.last() {
                    assert(r[r.len() - 1] == x);
                }
            }
            assert forall|i: int| 0 <= i < rs.len() implies #[trigger] rs[i] < s.last() by {
                assert(rs.contains(rs[i]));
                let k = choose|k: int| 0 <= k < shorter.len() && shorter[k] == rs[i];
                assert(s[k] < s[s.len() - 1]);
            }
            assert forall|i: int, j: int| 0 <= i < j < r.len() implies r[i] < r[j] by {
                if j < rs.len() {
                    assert(r[i] == rs[i] && r[j] == rs[j]);
                } else {
                    assert(r[i] == rs[i]);
                }
            }
        }
    }
}

proof fn lemma_insert_increasing_props(s: Seq<u64>, x: u64)
    requires
        increasing(s),
        !s.contains(x),
    ensures
        increasing(insert_increasing(s, x)),
        insert_increasing(s, x).len() == s.len() + 1,
        forall|y: u64| #[trigger] insert_increasing(s, x).contains(y) <==> (s.contains(y) || y == x),
    decreases s.len(),
{
    let r = insert_increasing(s, x);
    if s.len() == 0 {
        assert forall|y: u64| #[trigger] r.contains(y) <==> (s.contains(y) || y == x) by {
            if r.contains(y) {
                let k = choose|k: int| 0 <= k < r.len() && r[k] == y;
                assert(k == 0);
            }
            if y == x {
                assert(r[0] == x);
            }
        }
    } else if x < s[0] {
        assert forall|i: int, j: int| 0 <= i < j < r.len() implies r[i] < r[j] by {
            if i == 0 {
                assert(s[0] <= s[j - 1]) by {
                    if j - 1 > 0 {
                        assert(s[0] < s[j - 1]);
                    }
                }
            }
        }
        assert forall|y: u64| #[trigger] r.contains(y) <==> (s.contains(y) || y == x) by {
            if r.contains(y) {
                let k = choose|k: int| 0 <= k < r.len() && r[k] == y;
                if k > 0 {
                    assert(s[k - 1] == y);
                }
            }
            if s.contains(y) {
                let k = choose|k: int| 0 <= k < s.len() && s[k] == y;
                assert(r[k + 1] == y);
            }
            if y == x {
                assert(r[0] == x);
            }
        }
    } else {
        let rest = s.drop_first();
        assert(increasing(rest)) by {
            assert forall|i: int, j: int| 0 <= i < j < rest.len() implies rest[i] < rest[j] by {
                assert(s[i + 1] < s[j + 1]);
            }
        }
        assert(!rest.contains(x)) by {
            if rest.contains(x) {
                let k = choose|k: int| 0 <= k < rest.len() && rest[k] == x;
                assert(s[k + 1] == x);
            }
        }
        lemma_insert_increasing_props(rest, x);
        let rr = insert_increasing(rest, x);
        assert(s[0] != x) by {
            assert(s[0] == s[0]);
            if s[0] == x {
                assert(s.contains(x));
            }
        }
        assert forall|y: u64| #[trigger] r.contains(y) <==> (s.contains(y) || y == x) by {
            if r.contains(y) {
                let k = choose|k: int| 0 <= k < r.len() && r[k] == y;
                if k > 0 {
                    assert(rr[k - 1] == y);
                    assert(rr.contains(y));
                    if rest.contains(y) {
                        let m = choose|m: int| 0 <= m < rest.len() && rest[m] == y;
                        assert(s[m + 1] == y);
                    }
                } else {
                    assert(s[0] == y);
                }
            }
            if s.contains(y) {
                let k = choose|k: int| 0 <= k < s.len() && s[k] == y;
                if k == 0 {
                    assert(r[0] == y);
                } else {
                    assert(rest[k - 1] == y);
                    assert(rr.contains(y));
                    let m = choose|m: int| 0 <= m < rr.len() && rr[m] == y;
                    assert(r[m + 1] == y);
                }
            }
            if y == x {
                assert(rr.contains(x));
                let m = choose|m: int| 0 <= m < rr.len() && rr[m] == x;
                assert(r[m + 1] == x);
            }
        }
        assert forall|i: int, j: int| 0 <= i < j < r.len() implies r[i] < r[j] by {
            if i == 0 {
                assert(rr.contains(r[j])) by {
                    assert(rr[j - 1] == r[j]);
                }
                if rest.contains(r[j]) {
                    let m = choose|m: int| 0 <= m < rest.len() && rest[m] == r[j];
                    assert(s[0] < s[m + 1]);
                }
            } else {
                assert(rr[i - 1] < rr[j - 1]);
            }
        }
    }
}

/// Inserting at the first position holding a larger number is the ordered insertion.
proof fn lemma_insert_increasing_at(s: Seq<u64>, x: u64, pos: int)
    requires
        0 <= pos <= s.len(),
        forall|i: int| 0 <= i < pos ==> s[i] < x,
        pos < s.len() ==> x < s[pos],
    ensures
        s.insert(pos, x) == insert_increasing(s, x),
    decreases s.len(),
{
    if s.len() == 0 {
        assert(s.insert(pos, x) =~= seq![x]);
    } else if pos == 0 {
        assert(s.insert(pos, x) =~= seq![x] + s);
    } else {
        let rest = s.drop_first();
        assert forall|i: int| 0 <= i < pos - 1 implies rest[i] < x by {
            assert(rest[i] == s[i + 1]);
        }
        lemma_insert_increasing_at(rest, x, pos - 1);
        assert(s.insert(pos, x) =~= seq![s[0]] + rest.insert(pos - 1, x));
    }
}

impl SynchronizationState {
    pub closed spec fn view(&self) -> SyncView {
        SyncView {
            local_latest: self.local_latest,
            known_receiver_state: self.known_receiver_state,
            sent_states: self.sent_states@,
            sender_generation: self.sender_generation,
            remote_latest: self.remote_latest,
            remote_throwaway_floor: self.remote_throwaway_floor,
            received_states: self.received_states@,
            receiver_generation: self.receiver_generation,
        }
    }

    pub open spec fn wf(&self) -> bool {
        sync_wf(self.view())
    }

    /// Local state 0 sent, remote state 0 received, nothing pending.
    pub fn new() -> (r: Self)
        ensures
            r.wf(),
            r.view() == (SyncView {
                local_latest: 0,
                known_receiver_state: 0,
                sent_states: Seq::empty(),
                sender_generation: 0,
                remote_latest: 0,
                remote_throwaway_floor: 0,
                received_states: seq![0],
                receiver_generation: 0,
            }),
    {
        let mut received_states = Vec::new();
        received_states.push(0);
        let r = SynchronizationState {
            local_latest: 0,
            known_receiver_state: 0,
            sent_states: Vec::new(),
            sender_generation: 0,
            remote_latest: 0,
            remote_throwaway_floor: 0,
            received_states,
            receiver_generation: 0,
        };
        assert(r.view().received_states =~= seq![0u64]);
        assert(sent_numbers(r.view().sent_states) =~= Seq::<u64>::empty());
        r
    }

    /// The received reference states, oldest first.
    pub fn received_states(&self) -> (r: &[u64])
        ensures
            r@ == self.view().received_states,
    {
        self.received_states.as_slice()
    }

    /// The retained sent states, oldest first.
    pub fn sent_states(&self) -> (r: &[SentState])
        ensures
            r@ == self.view().sent_states,
    {
        self.sent_states.as_slice()
    }

    /// A state whose newest local state is `local_latest` and that has sent nothing.
    pub fn with_local_latest(local_latest: u64) -> (r: Self)
        ensures
            r.wf(),
            r.view() == (SyncView {
                local_latest,
                known_receiver_state: 0,
                sent_states: Seq::empty(),
                sender_generation: 0,
                remote_latest: 0,
                remote_throwaway_floor: 0,
                received_states: seq![0],
                receiver_generation: 0,
            }),
    {
        let mut r = Self::new();
        r.local_latest = local_latest;
        r
    }

    /// The newest local state.
    pub fn local_latest(&self) -> (r: u64)
        ensures
            r == self.view().local_latest,
    {
        self.local_latest
    }

    /// The newest local state the peer acknowledged.
    pub fn known_receiver_state(&self) -> (r: u64)
        ensures
            r == self.view().known_receiver_state,
    {
        self.known_receiver_state
    }

    /// The newest remote state applied.
    pub fn remote_latest(&self) -> (r: u64)
        ensures
            r == self.view().remote_latest,
    {
        self.remote_latest
    }

    /// The send time of the newest unacknowledged sent state.
    pub fn latest_unacknowledged_sent_at_ms(&self) -> (r: Option<u64>)
        ensures
            r == (if self.view().sent_states.len() > 0 {
                Some(self.view().sent_states.last().sent_at_ms)
            } else {
                None::<u64>
            }),
    {
        let len = self.sent_states.len();
        if len > 0 {
            Some(self.sent_states[len - 1].sent_at_ms)
        } else {
            None
        }
    }

    /// The send time of the retained sent state `number`, if it is retained.
    pub fn sent_state_sent_at_ms(&self, number: u64) -> (r: Option<u64>)
        requires
            self.wf(),
        ensures
            r is Some <==> sent_numbers(self.view().sent_states).contains(number),
            r matches Some(t) ==> exists|i: int|
                0 <= i < self.view().sent_states.len() && self.view().sent_states[i] == (SentState {
                    number,
                    sent_at_ms: t,
                }),
    {
        let mut i: usize = 0;
        while i < self.sent_states.len()
            invariant
                i <= self.sent_states@.len(),
                forall|k: int| 0 <= k < i ==> self.sent_states@[k].number != number,
            decreases self.sent_states@.len() - i,
        {
            if self.sent_states[i].number == number {
                proof {
                    assert(sent_numbers(self.view().sent_states)[i as int] == number);
                }
                return Some(self.sent_states[i].sent_at_ms);
            }
            i = i + 1;
        }
        proof {
            if sent_numbers(self.view().sent_states).contains(number) {
                let k = choose|k: int|
                    0 <= k < sent_numbers(self.view().sent_states).len() && sent_numbers(
                        self.view().sent_states,
                    )[k] == number;
                assert(self.sent_states@[k].number == number);
            }
        }
        None
    }

    /// How many sent and received states are retained.
    pub fn retained_counts(&self) -> (r: (usize, usize))
        requires
            self.wf(),
        ensures
            r.0 == self.view().sent_states.len(),
            r.1 == self.view().received_states.len(),
            r.0 <= MAX_SENT_STATES_AFTER_ACK,
            r.1 <= MAX_RECEIVED_REFERENCE_STATES,
    {
        (self.sent_states.len(), self.received_states.len())
    }

    /// Allocates the next local state number.
    pub fn advance_local(&mut self) -> (r: Result<u64, SynchronizationError>)
        requires
            old(self).wf(),
        ensures
            final(self).wf(),
            old(self).view().local_latest == u64::MAX ==> r == Err::<u64, SynchronizationError>(
                SynchronizationError::StateNumberExhausted,
            ) && final(self).view() == old(self).view(),
            old(self).view().local_latest < u64::MAX && old(self).view().sender_generation
                == u64::MAX ==> r == Err::<u64, SynchronizationError>(
                SynchronizationError::GenerationExhausted,
            ) && final(self).view() == old(self).view(),
            old(self).view().local_latest < u64::MAX && old(self).view().sender_generation
                < u64::MAX ==> r == Ok::<u64, SynchronizationError>(
                (old(self).view().local_latest + 1) as u64,
            ) && final(self).view() == (SyncView {
                local_latest: (old(self).view().local_latest + 1) as u64,
                sender_generation: (old(self).view().sender_generation + 1) as u64,
                ..old(self).view()
            }),
    {
        if self.local_latest == u64::MAX {
            return Err(SynchronizationError::StateNumberExhausted);
        }
        if self.sender_generation == u64::MAX {
            return Err(SynchronizationError::GenerationExhausted);
        }
        self.local_latest = self.local_latest + 1;
        self.sender_generation = self.sender_generation + 1;
        Ok(self.local_latest)
    }

    /// Plans a send at `now_ms` for the newest local state.
    pub fn plan_send(&self, now_ms: u64, retransmission_timeout_ms: u64) -> (r: Result<
        SendPlan,
        SynchronizationError,
    >)
        requires
            self.wf(),
        ensures
            !(MIN_RETRANSMISSION_TIMEOUT_MS <= retransmission_timeout_ms
                <= MAX_RETRANSMISSION_TIMEOUT_MS) ==> r == Err::<SendPlan, SynchronizationError>(
                SynchronizationError::InvalidRetransmissionTimeout,
            ),
            MIN_RETRANSMISSION_TIMEOUT_MS <= retransmission_timeout_ms
                <= MAX_RETRANSMISSION_TIMEOUT_MS ==> match plan_base(
                self.view().sent_states,
                self.view().known_receiver_state,
                now_ms,
                retransmission_timeout_ms,
            ) {
                Err(e) => r == Err::<SendPlan, SynchronizationError>(e),
                Ok(base) => if self.view().local_latest <= base {
                    r == Err::<SendPlan, SynchronizationError>(SynchronizationError::NoNewState)
                } else {
                    &&& r is Ok
                    &&& r->Ok_0.base_spec() == base
                    &&& r->Ok_0.target_spec() == self.view().local_latest
                    &&& r->Ok_0.acknowledged_spec() == self.view().remote_latest
                    &&& r->Ok_0.throwaway_spec() == self.view().known_receiver_state
                    &&& r->Ok_0.generation_spec() == self.view().sender_generation
                    &&& r->Ok_0.planned_at_spec() == now_ms
                },
            },
            r matches Ok(p) ==> self.view().known_receiver_state <= p.base_spec() < p.target_spec(),
    {
        proof {
            let v = self.view();
            law_sends_build_on_a_known_or_recent_state(
                v.sent_states,
                v.known_receiver_state,
                v.local_latest,
                now_ms,
                retransmission_timeout_ms,
            );
        }
        if retransmission_timeout_ms < MIN_RETRANSMISSION_TIMEOUT_MS || retransmission_timeout_ms
            > MAX_RETRANSMISSION_TIMEOUT_MS {
            return Err(SynchronizationError::InvalidRetransmissionTimeout);
        }
        let ghost sent = self.sent_states@;
        let ghost known = self.known_receiver_state;
        let mut found: Option<u64> = None;
        let mut i: usize = self.sent_states.len();
        assert(sent.subrange(0, i as int) =~= sent);
        while i > 0 && found.is_none()
            invariant
                sent == self.sent_states@,
                known == self.known_receiver_state,
                MIN_RETRANSMISSION_TIMEOUT_MS <= retransmission_timeout_ms
                    <= MAX_RETRANSMISSION_TIMEOUT_MS,
                i <= sent.len(),
                found is None ==> plan_base(sent, known, now_ms, retransmission_timeout_ms)
                    == plan_base(sent.subrange(0, i as int), known, now_ms, retransmission_timeout_ms),
                found matches Some(b) ==> plan_base(sent, known, now_ms, retransmission_timeout_ms)
                    == Ok::<u64, SynchronizationError>(b),
            decreases i + (if found is None {
                1int
            } else {
                0int
            }),
        {
            let sent_state = self.sent_states[i - 1];
            let ghost prefix = sent.subrange(0, i as int);
            assert(prefix.last() == sent_state);
            assert(prefix.drop_last() =~= sent.subrange(0, i - 1));
            if now_ms < sent_state.sent_at_ms {
                return Err(SynchronizationError::TimeMovedBackwards);
            }
            if now_ms - sent_state.sent_at_ms < retransmission_timeout_ms {
                found = Some(sent_state.number);
            } else {
                i = i - 1;
            }
        }
        let base_state = match found {
            Some(b) => b,
            None => {
                assert(sent.subrange(0, 0) =~= Seq::<SentState>::empty());
                self.known_receiver_state
            },
        };
        if self.local_latest <= base_state {
            return Err(SynchronizationError::NoNewState);
        }
        Ok(
            SendPlan {
                generation: self.sender_generation,
                base_state,
                target_state: self.local_latest,
                acknowledged_state: self.remote_latest,
                throwaway_state: self.known_receiver_state,
                planned_at_ms: now_ms,
            },
        )
    }

    /// Commits a planned send: the target state is recorded as sent at the
    /// plan's time, evicting the oldest sent state when the window is full.
    pub fn commit_send(&mut self, plan: SendPlan) -> (r: Result<SendCommit, SynchronizationError>)
        requires
            old(self).wf(),
        ensures
            final(self).wf(),
            ({
                let v = old(self).view();
                let stale = plan.generation_spec() != v.sender_generation || plan.target_spec()
                    != v.local_latest || plan.acknowledged_spec() != v.remote_latest
                    || plan.throwaway_spec() != v.known_receiver_state;
                let sent = v.sent_states;
                let entry = SentState { number: plan.target_spec(), sent_at_ms: plan.planned_at_spec() };
                &&& stale ==> r == Err::<SendCommit, SynchronizationError>(
                    SynchronizationError::StalePlan,
                ) && final(self).view() == v
                &&& !stale && v.sender_generation == u64::MAX ==> r == Err::<
                    SendCommit,
                    SynchronizationError,
                >(SynchronizationError::GenerationExhausted) && final(self).view() == v
                &&& !stale && v.sender_generation < u64::MAX ==> {
                    &&& r is Ok
                    &&& final(self).view().sender_generation == v.sender_generation + 1
                    &&& final(self).view() == (SyncView {
                        sent_states: final(self).view().sent_states,
                        sender_generation: final(self).view().sender_generation,
                        ..v
                    })
                    &&& if plan.target_spec() <= v.known_receiver_state {
                        final(self).view().sent_states == sent && r->Ok_0.capacity_evicted_state is None
                    } else if sent_numbers(sent).contains(plan.target_spec()) {
                        &&& r->Ok_0.capacity_evicted_state is None
                        &&& final(self).view().sent_states == sent.update(
                            sent.len() - 1,
                            entry,
                        )
                    } else if sent.len() == MAX_SENT_STATES_AFTER_ACK {
                        &&& r->Ok_0.capacity_evicted_state == Some(sent[0].number)
                        &&& final(self).view().sent_states == sent.drop_first().push(entry)
                    } else {
                        &&& r->Ok_0.capacity_evicted_state is None
                        &&& final(self).view().sent_states == sent.push(entry)
                    }
                }
            }),
    {
        if plan.generation != self.sender_generation || plan.target_state != self.local_latest
            || plan.acknowledged_state != self.remote_latest || plan.throwaway_state
            != self.known_receiver_state {
            return Err(SynchronizationError::StalePlan);
        }
        if self.sender_generation == u64::MAX {
            return Err(SynchronizationError::GenerationExhausted);
        }
        let ghost sent = self.sent_states@;
        let ghost entry = SentState { number: plan.target_state, sent_at_ms: plan.planned_at_ms };
        let mut capacity_evicted_state: Option<u64> = None;
        if plan.target_state > self.known_receiver_state {
            let len = self.sent_states.len();
            if len > 0 && self.sent_states[len - 1].number == plan.target_state {
                self.sent_states.set(
                    len - 1,
                    SentState { number: plan.target_state, sent_at_ms: plan.planned_at_ms },
                );
                proof {
                    assert(sent_numbers(sent)[len - 1] == plan.target_state);
                    assert(sent_numbers(self.sent_states@) =~= sent_numbers(sent));
                }
            } else {
                proof {
                    // the target is the newest local state, so only the last entry can hold it
                    if sent_numbers(sent).contains(plan.target_state) {
                        let k = choose|k: int|
                            0 <= k < sent_numbers(sent).len() && sent_numbers(sent)[k]
                                == plan.target_state;
                        assert(sent[k].number <= sent[len - 1].number) by {
                            if k < len - 1 {
                                assert(sent_numbers(sent)[k] < sent_numbers(sent)[len - 1]);
                            }
                        }
                    }
                    if len > 0 {
                        assert(sent[len - 1].number <= self.local_latest);
                    }
                }
                if len == MAX_SENT_STATES_AFTER_ACK {
                    let evicted = self.sent_states.remove(0);
                    capacity_evicted_state = Some(evicted.number);
                }
                self.sent_states.push(
                    SentState { number: plan.target_state, sent_at_ms: plan.planned_at_ms },
                );
                proof {
                    let now = self.sent_states@;
                    assert forall|k: int| 0 <= k < len implies (#[trigger] sent[k]).number
                        < plan.target_state by {
                        assert(sent_numbers(sent)[k] == sent[k].number);
                        if k < len - 1 {
                            assert(sent_numbers(sent)[len - 1] == sent[len - 1].number);
                            assert(sent_numbers(sent)[k] < sent_numbers(sent)[len - 1]);
                        }
                    }
                    assert forall|i: int, j: int|
                        0 <= i < j < sent_numbers(now).len() implies sent_numbers(now)[i]
                        < sent_numbers(now)[j] by {
                        assert(sent_numbers(now)[i] == now[i].number);
                        assert(sent_numbers(now)[j] == now[j].number);
                        if len == MAX_SENT_STATES_AFTER_ACK {
                            if j < now.len() - 1 {
                                assert(now[i] == sent[i + 1] && now[j] == sent[j + 1]);
                                assert(sent_numbers(sent)[i + 1] < sent_numbers(sent)[j + 1]);
                            } else {
                                assert(now[i] == sent[i + 1]);
                            }
                        } else {
                            if j < now.len() - 1 {
                                assert(now[i] == sent[i] && now[j] == sent[j]);
                                assert(sent_numbers(sent)[i] < sent_numbers(sent)[j]);
                            } else {
                                assert(now[i] == sent[i]);
                                assert(sent[i].number <= sent[len - 1].number) by {
                                    if i < len - 1 {
                                        assert(sent_numbers(sent)[i] < sent_numbers(sent)[len - 1]);
                                    }
                                }
                            }
                        }
                    }
                    if len == MAX_SENT_STATES_AFTER_ACK {
                        assert(now =~= sent.drop_first().push(entry));
                    } else {
                        assert(now =~= sent.push(entry));
                    }
                    assert forall|i: int| 0 <= i < now.len() implies self.known_receiver_state
                        < (#[trigger] now[i]).number <= self.local_latest by {
                        if i < now.len() - 1 {
                            if len == MAX_SENT_STATES_AFTER_ACK {
                                assert(now[i] == sent[i + 1]);
                            } else {
                                assert(now[i] == sent[i]);
                            }
                        }
                    }
                }
            }
        }
        self.sender_generation = self.sender_generation + 1;
        Ok(SendCommit { capacity_evicted_state })
    }

    /// Validates an instruction, observes its acknowledgement, and classifies
    /// its remote state.
    pub fn begin_receive<'a>(&mut self, instruction: &'a TransportInstruction) -> (r: Result<
        ReceiveTransition<'a>,
        SynchronizationError,
    >)
        requires
            old(self).wf(),
        ensures
            final(self).wf(),
            validation_error(old(self).view(), *instruction) matches Some(e) ==> r == Err::<
                ReceiveTransition<'a>,
                SynchronizationError,
            >(e) && final(self).view() == old(self).view(),
            validation_error(old(self).view(), *instruction) is None ==> ({
                let (after, ack) = observe_ack_spec(old(self).view(), instruction.acknowledged_state);
                &&& final(self).view() == after
                &&& match ack {
                    Err(e) => r matches Err(re) && re == e,
                    Ok(disposition) => r matches Ok(t) && t.acknowledgement == disposition
                        && t.remote_state.kind() == remote_kind(
                        after,
                        instruction.base_state,
                        instruction.new_state,
                    ) && (t.remote_state matches RemoteStateDisposition::Apply(plan) ==> {
                        &&& plan.base_spec() == instruction.base_state
                        &&& plan.target_spec() == instruction.new_state
                        &&& plan.throwaway_spec() == instruction.discard_before_state
                        &&& plan.difference_spec() == instruction.state_difference@
                        &&& plan.generation_spec() == after.receiver_generation
                        &&& plan.becomes_latest_spec() == (instruction.new_state
                            > after.remote_latest)
                    }),
                }
            }),
    {
        self.validate_instruction(instruction)?;
        let acknowledgement = self.observe_acknowledgement(instruction.acknowledged_state)?;
        let remote_state = if instruction.new_state < self.remote_throwaway_floor
            || instruction.base_state < self.remote_throwaway_floor {
            RemoteStateDisposition::BelowThrowawayFloor
        } else if self.received_contains(instruction.new_state) {
            RemoteStateDisposition::AlreadyConstructed
        } else if !self.received_contains(instruction.base_state) {
            RemoteStateDisposition::MissingReference
        } else if !self.can_retain_received_state(instruction.new_state) {
            RemoteStateDisposition::BelowRetentionWindow
        } else {
            RemoteStateDisposition::Apply(
                ApplyPlan {
                    generation: self.receiver_generation,
                    base_state: instruction.base_state,
                    target_state: instruction.new_state,
                    throwaway_state: instruction.discard_before_state,
                    difference: instruction.state_difference.as_slice(),
                    becomes_latest: instruction.new_state > self.remote_latest,
                },
            )
        };
        Ok(ReceiveTransition { acknowledgement, remote_state })
    }

    /// Validates a graceful-close instruction and observes its acknowledgement;
    /// its target never enters the ordinary received window.
    pub fn begin_shutdown_receive<'a>(&mut self, instruction: &'a TransportInstruction) -> (r:
        Result<ShutdownTransition<'a>, SynchronizationError>)
        requires
            old(self).wf(),
        ensures
            final(self).wf(),
            validation_error(old(self).view(), *instruction) matches Some(e) ==> r == Err::<
                ShutdownTransition<'a>,
                SynchronizationError,
            >(e) && final(self).view() == old(self).view(),
            validation_error(old(self).view(), *instruction) is None ==> ({
                let (after, ack) = observe_ack_spec(old(self).view(), instruction.acknowledged_state);
                &&& final(self).view() == after
                &&& match ack {
                    Err(e) => r matches Err(re) && re == e,
                    Ok(disposition) => if instruction.base_state < after.remote_throwaway_floor
                        || !after.received_states.contains(instruction.base_state) {
                        r matches Err(re) && re == SynchronizationError::InvalidStateTransition
                    } else {
                        r matches Ok(t) && t.acknowledgement == disposition && t.base_state
                            == instruction.base_state && t.difference@
                            == instruction.state_difference@
                    },
                }
            }),
    {
        self.validate_instruction(instruction)?;
        let acknowledgement = self.observe_acknowledgement(instruction.acknowledged_state)?;
        if instruction.base_state < self.remote_throwaway_floor || !self.received_contains(
            instruction.base_state,
        ) {
            return Err(SynchronizationError::InvalidStateTransition);
        }
        Ok(
            ShutdownTransition {
                acknowledgement,
                base_state: instruction.base_state,
                difference: instruction.state_difference.as_slice(),
            },
        )
    }

    /// Commits a planned application: the target enters the received window.
    pub fn commit_receive(&mut self, plan: ApplyPlan) -> (r: Result<ReceiveCommit, SynchronizationError>)
        requires
            old(self).wf(),
        ensures
            final(self).wf(),
            ({
                let v = old(self).view();
                let stale = plan.generation_spec() != v.receiver_generation
                    || !v.received_states.contains(plan.base_spec()) || v.received_states.contains(
                    plan.target_spec(),
                );
                &&& stale ==> r == Err::<ReceiveCommit, SynchronizationError>(
                    SynchronizationError::StalePlan,
                ) && final(self).view() == v
                &&& !stale && v.receiver_generation == u64::MAX ==> r == Err::<
                    ReceiveCommit,
                    SynchronizationError,
                >(SynchronizationError::GenerationExhausted) && final(self).view() == v
                &&& !stale && v.receiver_generation < u64::MAX ==> {
                    let (received, floor, evicted) = received_after_commit(
                        v.received_states,
                        v.remote_throwaway_floor,
                        plan.target_spec(),
                        plan.throwaway_spec(),
                        plan.becomes_latest_spec(),
                    );
                    &&& r == Ok::<ReceiveCommit, SynchronizationError>(
                        ReceiveCommit { discard_before_state: floor, capacity_evicted_state: evicted },
                    )
                    &&& final(self).view() == (SyncView {
                        remote_latest: if plan.becomes_latest_spec() {
                            plan.target_spec()
                        } else {
                            v.remote_latest
                        },
                        remote_throwaway_floor: floor,
                        received_states: received,
                        receiver_generation: (v.receiver_generation + 1) as u64,
                        ..v
                    })
                }
            }),
    {
        if plan.generation != self.receiver_generation || !self.received_contains(plan.base_state)
            || self.received_contains(plan.target_state) {
            return Err(SynchronizationError::StalePlan);
        }
        if self.receiver_generation == u64::MAX {
            return Err(SynchronizationError::GenerationExhausted);
        }
        let ghost v = self.view();
        if plan.becomes_latest {
            self.remote_latest = plan.target_state;
            if plan.throwaway_state > self.remote_throwaway_floor {
                self.remote_throwaway_floor = plan.throwaway_state;
            }
            self.retain_at_least_floor();
            proof {
                lemma_at_least_props(v.received_states, self.remote_throwaway_floor);
            }
        }
        let ghost kept = self.received_states@;
        assert(increasing(kept));
        assert(kept.len() <= MAX_RECEIVED_REFERENCE_STATES);
        let mut capacity_evicted_state: Option<u64> = None;
        if self.received_states.len() == MAX_RECEIVED_REFERENCE_STATES {
            let index: usize = if self.received_states[0] == self.remote_throwaway_floor {
                1
            } else {
                0
            };
            let evicted = self.received_states.remove(index);
            capacity_evicted_state = Some(evicted);
            proof {
                assert(increasing(self.received_states@)) by {
                    assert forall|i: int, j: int|
                        0 <= i < j < self.received_states@.len() implies self.received_states@[i]
                        < self.received_states@[j] by {
                        if i < index && j >= index {
                            assert(self.received_states@[j] == kept[j + 1]);
                        } else if i >= index {
                            assert(self.received_states@[i] == kept[i + 1]);
                            assert(self.received_states@[j] == kept[j + 1]);
                        }
                    }
                }
            }
        }
        proof {
            assert(!self.received_states@.contains(plan.target_state)) by {
                if self.received_states@.contains(plan.target_state) {
                    let k = choose|k: int|
                        0 <= k < self.received_states@.len() && self.received_states@[k]
                            == plan.target_state;
                    if capacity_evicted_state is Some {
                        let index = first_evictable(kept, self.remote_throwaway_floor);
                        if k < index {
                            assert(kept[k] == plan.target_state);
                        } else {
                            assert(kept[k + 1] == plan.target_state);
                        }
                        assert(kept.contains(plan.target_state));
                    } else {
                        assert(kept.contains(plan.target_state));
                    }
                    if plan.becomes_latest {
                        lemma_at_least_props(v.received_states, self.remote_throwaway_floor);
                    }
                }
            }
        }
        proof {
            lemma_insert_increasing_props(self.received_states@, plan.target_state);
        }
        self.insert_received(plan.target_state);
        self.receiver_generation = self.receiver_generation + 1;
        proof {
            lemma_at_least_props(v.received_states, self.remote_throwaway_floor);
        }
        Ok(
            ReceiveCommit {
                discard_before_state: self.remote_throwaway_floor,
                capacity_evicted_state,
            },
        )
    }

    fn received_contains(&self, number: u64) -> (r: bool)
        ensures
            r == self.view().received_states.contains(number),
    {
        let mut i: usize = 0;
        while i < self.received_states.len()
            invariant
                i <= self.received_states@.len(),
                forall|k: int| 0 <= k < i ==> self.received_states@[k] != number,
            decreases self.received_states@.len() - i,
        {
            if self.received_states[i] == number {
                return true;
            }
            i = i + 1;
        }
        false
    }

    /// Keeps only the received states at or above the throwaway floor.
    fn retain_at_least_floor(&mut self)
        requires
            increasing(old(self).received_states@),
        ensures
            final(self).received_states@ == at_least(
                old(self).received_states@,
                old(self).remote_throwaway_floor,
            ),
            final(self).view() == (SyncView {
                received_states: final(self).received_states@,
                ..old(self).view()
            }),
    {
        let floor = self.remote_throwaway_floor;
        let mut kept: Vec<u64> = Vec::new();
        let mut i: usize = 0;
        while i < self.received_states.len()
            invariant
                floor == self.remote_throwaway_floor,
                i <= self.received_states@.len(),
                kept@ == at_least(self.received_states@.subrange(0, i as int), floor),
            decreases self.received_states@.len() - i,
        {
            let number = self.received_states[i];
            proof {
                let prefix = self.received_states@.subrange(0, i + 1);
                assert(prefix.drop_last() =~= self.received_states@.subrange(0, i as int));
                assert(prefix.last() == number);
            }
            if number >= floor {
                kept.push(number);
            }
            i = i + 1;
        }
        assert(self.received_states@.subrange(0, self.received_states@.len() as int)
            =~= self.received_states@);
        self.received_states = kept;
    }

    /// Inserts a new received state in increasing order.
    fn insert_received(&mut self, number: u64)
        requires
            increasing(old(self).received_states@),
            !old(self).received_states@.contains(number),
        ensures
            final(self).received_states@ == insert_increasing(old(self).received_states@, number),
            final(self).view() == (SyncView {
                received_states: final(self).received_states@,
                ..old(self).view()
            }),
    {
        let ghost s = self.received_states@;
        let mut pos: usize = 0;
        while pos < self.received_states.len() && self.received_states[pos] < number
            invariant
                s == self.received_states@,
                pos <= s.len(),
                forall|k: int| 0 <= k < pos ==> s[k] < number,
            decreases s.len() - pos,
        {
            pos = pos + 1;
        }
        proof {
            if pos < s.len() {
                assert(s[pos as int] != number) by {
                    if s[pos as int] == number {
                        assert(s.contains(number));
                    }
                }
            }
            lemma_insert_increasing_at(s, number, pos as int);
        }
        self.received_states.insert(pos, number);
    }

    fn validate_instruction(&self, instruction: &TransportInstruction) -> (r: Result<
        (),
        SynchronizationError,
    >)
        ensures
            match validation_error(self.view(), *instruction) {
                Some(e) => r == Err::<(), SynchronizationError>(e),
                None => r is Ok,
            },
    {
        if instruction.protocol_version != PROTOCOL_VERSION {
            return Err(SynchronizationError::IncompatibleVersion);
        }
        if instruction.acknowledged_state > self.local_latest {
            return Err(SynchronizationError::InvalidAcknowledgement);
        }
        if instruction.new_state <= instruction.base_state {
            return Err(SynchronizationError::InvalidStateTransition);
        }
        if instruction.discard_before_state > instruction.base_state {
            return Err(SynchronizationError::InvalidThrowaway);
        }
        Ok(())
    }

    fn can_retain_received_state(&self, target_state: u64) -> (r: bool)
        ensures
            r == can_retain(
                self.view().received_states,
                self.view().remote_throwaway_floor,
                target_state,
            ),
    {
        let len = self.received_states.len();
        if len < MAX_RECEIVED_REFERENCE_STATES {
            return true;
        }
        let first: usize = if len > 0 && self.received_states[0] == self.remote_throwaway_floor {
            1
        } else {
            0
        };
        first < len && target_state > self.received_states[first]
    }

    fn observe_acknowledgement(&mut self, acknowledgement: u64) -> (r: Result<
        AcknowledgementDisposition,
        SynchronizationError,
    >)
        requires
            old(self).wf(),
            acknowledgement <= old(self).view().local_latest,
        ensures
            final(self).wf(),
            (final(self).view(), r) == observe_ack_spec(old(self).view(), acknowledgement),
    {
        if acknowledgement < self.known_receiver_state {
            return Ok(AcknowledgementDisposition::Stale);
        }
        if acknowledgement == self.known_receiver_state {
            return Ok(AcknowledgementDisposition::Current);
        }
        if self.sent_state_sent_at_ms(acknowledgement).is_none() {
            return Ok(AcknowledgementDisposition::Unknown);
        }
        if self.sender_generation == u64::MAX {
            return Err(SynchronizationError::GenerationExhausted);
        }
        let previous = self.known_receiver_state;
        let ghost sent = self.sent_states@;
        let mut kept: Vec<SentState> = Vec::new();
        let mut i: usize = 0;
        while i < self.sent_states.len()
            invariant
                sent == self.sent_states@,
                i <= sent.len(),
                kept@ == sent_above(sent.subrange(0, i as int), acknowledgement),
            decreases sent.len() - i,
        {
            let state = self.sent_states[i];
            proof {
                let prefix = sent.subrange(0, i + 1);
                assert(prefix.drop_last() =~= sent.subrange(0, i as int));
                assert(prefix.last() == state);
            }
            if state.number > acknowledgement {
                kept.push(state);
            }
            i = i + 1;
        }
        assert(sent.subrange(0, sent.len() as int) =~= sent);
        proof {
            lemma_sent_above_props(sent, acknowledgement);
            let r = sent_above(sent, acknowledgement);
            assert forall|i: int| 0 <= i < r.len() implies acknowledgement < (#[trigger] r[i]).number
                <= self.local_latest by {
                assert(sent.contains(r[i]));
                let k = choose|k: int| 0 <= k < sent.len() && sent[k] == r[i];
                assert(sent[k].number <= self.local_latest);
            }
        }
        self.sent_states = kept;
        self.known_receiver_state = acknowledgement;
        self.sender_generation = self.sender_generation + 1;
        Ok(AcknowledgementDisposition::Advanced { from: previous, to: acknowledgement })
    }
}

} // verus!
