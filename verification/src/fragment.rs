//! Fragment framing inside an authenticated datagram, and bounded reassembly
//! of one fragmented transport instruction at a time.
use vstd::prelude::*;

use crate::bytes::{
    append_bytes, be_bytes, be_value, bytes_equal, copy_into, lemma_be_bytes_len,
    lemma_be_roundtrip_small, lemma_pow256_facts, read_be, spliced, write_be,
};
use crate::limits::{
    INCOMPLETE_INSTRUCTION_LIFETIME_MS, MAX_COMPRESSED_INSTRUCTION_BYTES, MAX_FRAGMENT_BODY_BYTES,
    MAX_FRAGMENTS_PER_INSTRUCTION,
};

verus! {

/// Bytes of the fragment header: timestamp, timestamp reply, identifier, fragment word.
pub const HEADER_BYTES: usize = 14;
/// The high bit of the fragment word marks the final fragment.
pub const FINAL_FRAGMENT_BIT: u16 = 0x8000;
/// Largest fragment number.
pub const MAX_FRAGMENT_NUMBER: u16 = 0x7fff;
/// The wire value that means "no timestamp reply".
pub const NO_TIMESTAMP_REPLY: u16 = 0xffff;

/// Why a fragment cannot be encoded or decoded.
#[derive(Clone, Copy, Debug, PartialEq, Eq, Structural)]
pub enum FragmentError {
    TooShort,
    BodyTooLarge,
    FragmentNumberOutOfRange,
    OutputTooSmall,
}

/// Why a fragment was refused by the reassembler.
#[derive(Clone, Copy, Debug, PartialEq, Eq, Structural)]
pub enum ReassemblyError {
    FragmentNumberOutOfRange,
    ConflictingFragment,
    InstructionTooLarge,
    TooManyIncompleteInstructions,
    TimeMovedBackwards,
    TimerExhausted,
}

/// What a pushed fragment did: nothing yet, nothing new, or completed an instruction.
#[derive(Debug, PartialEq, Eq)]
pub enum ReassemblyOutcome {
    Pending,
    Duplicate,
    Complete(Vec<u8>),
}

/// One decoded fragment; the body borrows the datagram plaintext.
#[derive(Clone, Copy)]
pub struct Fragment<'a> {
    pub timestamp: u16,
    pub timestamp_reply: Option<u16>,
    pub identifier: u64,
    pub number: u16,
    pub is_final: bool,
    pub body: &'a [u8],
}

/// The wire value of an optional timestamp reply.
pub open spec fn raw_reply(reply: Option<u16>) -> u16 {
    match reply {
        Some(value) => value,
        None => NO_TIMESTAMP_REPLY,
    }
}

/// The fragment word: the number, with the high bit set on the final fragment.
pub open spec fn fragment_word(number: u16, is_final: bool) -> nat {
    number as nat + if is_final {
        0x8000nat
    } else {
        0
    }
}

/// The encoded fragment header.
pub open spec fn fragment_header(
    timestamp: u16,
    timestamp_reply: Option<u16>,
    identifier: u64,
    number: u16,
    is_final: bool,
) -> Seq<u8> {
    be_bytes(timestamp as nat, 2) + be_bytes(raw_reply(timestamp_reply) as nat, 2) + be_bytes(
        identifier as nat,
        8,
    ) + be_bytes(fragment_word(number, is_final), 2)
}

/// The fields that a fragment plaintext of at least header length carries:
/// timestamp, timestamp reply, identifier, number, final marker, and body.
pub open spec fn decoded_fields(p: Seq<u8>) -> (u16, Option<u16>, u64, u16, bool, Seq<u8>) {
    let raw = be_value(p.subrange(2, 4));
    let word = be_value(p.subrange(12, 14));
    (
        be_value(p.subrange(0, 2)) as u16,
        if raw == NO_TIMESTAMP_REPLY as nat {
            None
        } else {
            Some(raw as u16)
        },
        be_value(p.subrange(4, 12)) as u64,
        (word % 0x8000) as u16,
        word >= 0x8000,
        p.subrange(HEADER_BYTES as int, p.len() as int),
    )
}

impl<'a> Fragment<'a> {
    /// The fields of this fragment in the order of `decoded_fields`.
    pub open spec fn fields(&self) -> (u16, Option<u16>, u64, u16, bool, Seq<u8>) {
        (self.timestamp, self.timestamp_reply, self.identifier, self.number, self.is_final, self.body@)
    }
}

/// Writes one fragment into `output` and returns its encoded length.
///
/// On error `output` is left unchanged.
pub fn encode(
    timestamp: u16,
    timestamp_reply: Option<u16>,
    identifier: u64,
    number: u16,
    is_final: bool,
    body: &[u8],
    output: &mut [u8],
) -> (r: Result<usize, FragmentError>)
    ensures
        number > MAX_FRAGMENT_NUMBER ==> r == Err::<usize, FragmentError>(
            FragmentError::FragmentNumberOutOfRange,
        ),
        number <= MAX_FRAGMENT_NUMBER && body@.len() > MAX_FRAGMENT_BODY_BYTES ==> r == Err::<
            usize,
            FragmentError,
        >(FragmentError::BodyTooLarge),
        number <= MAX_FRAGMENT_NUMBER && body@.len() <= MAX_FRAGMENT_BODY_BYTES && old(output)@.len() < HEADER_BYTES + body@.len() ==> r == Err::<usize, FragmentError>(
            FragmentError::OutputTooSmall,
        ),
        r is Err ==> final(output)@ == old(output)@,
        r is Ok <==> (number <= MAX_FRAGMENT_NUMBER && body@.len() <= MAX_FRAGMENT_BODY_BYTES
            && HEADER_BYTES + body@.len() <= old(output)@.len()),
        r matches Ok(len) ==> len == HEADER_BYTES + body@.len() && final(output)@ == spliced(
            old(output)@,
            0,
            fragment_header(timestamp, timestamp_reply, identifier, number, is_final) + body@,
        ),
{
    if number > MAX_FRAGMENT_NUMBER {
        return Err(FragmentError::FragmentNumberOutOfRange);
    }
    if body.len() > MAX_FRAGMENT_BODY_BYTES {
        return Err(FragmentError::BodyTooLarge);
    }
    let encoded_len = HEADER_BYTES + body.len();
    if output.len() < encoded_len {
        return Err(FragmentError::OutputTooSmall);
    }
    let ghost original = output@;
    let reply = match timestamp_reply {
        Some(value) => value,
        None => NO_TIMESTAMP_REPLY,
    };
    let word: u16 = if is_final {
        number + FINAL_FRAGMENT_BIT
    } else {
        number
    };
    write_be(output, 0, timestamp as u64, 2);
    write_be(output, 2, reply as u64, 2);
    write_be(output, 4, identifier, 8);
    write_be(output, 12, word as u64, 2);
    copy_into(output, HEADER_BYTES, body);
    proof {
        lemma_be_bytes_len(timestamp as nat, 2);
        lemma_be_bytes_len(reply as nat, 2);
        lemma_be_bytes_len(identifier as nat, 8);
        lemma_be_bytes_len(word as nat, 2);
        assert(word as nat == fragment_word(number, is_final));
        let header = fragment_header(timestamp, timestamp_reply, identifier, number, is_final);
        assert(output@ =~= spliced(original, 0, header + body@));
    }
    Ok(encoded_len)
}

/// Decodes one fragment from an authenticated plaintext.
pub fn decode<'a>(plaintext: &'a [u8]) -> (r: Result<Fragment<'a>, FragmentError>)
    ensures
        plaintext@.len() < HEADER_BYTES ==> r == Err::<Fragment<'a>, FragmentError>(
            FragmentError::TooShort,
        ),
        plaintext@.len() >= HEADER_BYTES && plaintext@.len() - HEADER_BYTES
            > MAX_FRAGMENT_BODY_BYTES ==> r == Err::<Fragment<'a>, FragmentError>(
            FragmentError::BodyTooLarge,
        ),
        r is Ok <==> HEADER_BYTES <= plaintext@.len() <= HEADER_BYTES + MAX_FRAGMENT_BODY_BYTES,
        r matches Ok(f) ==> f.fields() == decoded_fields(plaintext@),
{
    if plaintext.len() < HEADER_BYTES {
        return Err(FragmentError::TooShort);
    }
    let (_, body) = plaintext.split_at(HEADER_BYTES);
    if body.len() > MAX_FRAGMENT_BODY_BYTES {
        return Err(FragmentError::BodyTooLarge);
    }
    let timestamp = read_be(plaintext, 0, 2);
    let raw_reply = read_be(plaintext, 2, 2);
    let identifier = read_be(plaintext, 4, 8);
    let word = read_be(plaintext, 12, 2);
    proof {
        crate::bytes::lemma_be_value_bound(plaintext@.subrange(0, 2));
        crate::bytes::lemma_be_value_bound(plaintext@.subrange(2, 4));
        crate::bytes::lemma_be_value_bound(plaintext@.subrange(12, 14));
        lemma_pow256_facts(2);
    }
    let timestamp_reply = if raw_reply == NO_TIMESTAMP_REPLY as u64 {
        None
    } else {
        Some(raw_reply as u16)
    };
    Ok(
        Fragment {
            timestamp: timestamp as u16,
            timestamp_reply,
            identifier,
            number: (word % 0x8000) as u16,
            is_final: word >= 0x8000,
            body,
        },
    )
}

/// Decoding an encoded fragment gives back every field, provided the reply is
/// not the reserved "no reply" value.
pub proof fn law_fragment_roundtrip(
    timestamp: u16,
    timestamp_reply: Option<u16>,
    identifier: u64,
    number: u16,
    is_final: bool,
    body: Seq<u8>,
)
    requires
        number <= MAX_FRAGMENT_NUMBER,
        timestamp_reply != Some(NO_TIMESTAMP_REPLY),
    ensures
        decoded_fields(
            fragment_header(timestamp, timestamp_reply, identifier, number, is_final) + body,
        ) == (timestamp, timestamp_reply, identifier, number, is_final, body),
{
    let a = be_bytes(timestamp as nat, 2);
    let b = be_bytes(raw_reply(timestamp_reply) as nat, 2);
    let c = be_bytes(identifier as nat, 8);
    let d = be_bytes(fragment_word(number, is_final), 2);
    lemma_be_bytes_len(timestamp as nat, 2);
    lemma_be_bytes_len(raw_reply(timestamp_reply) as nat, 2);
    lemma_be_bytes_len(identifier as nat, 8);
    lemma_be_bytes_len(fragment_word(number, is_final), 2);
    lemma_pow256_facts(2);
    lemma_be_roundtrip_small(timestamp as nat, 2);
    lemma_be_roundtrip_small(raw_reply(timestamp_reply) as nat, 2);
    lemma_be_roundtrip_small(identifier as nat, 8);
    lemma_be_roundtrip_small(fragment_word(number, is_final), 2);
    let p = fragment_header(timestamp, timestamp_reply, identifier, number, is_final) + body;
    assert(p.subrange(0, 2) =~= a);
    assert(p.subrange(2, 4) =~= b);
    assert(p.subrange(4, 12) =~= c);
    assert(p.subrange(12, 14) =~= d);
    assert(p.subrange(14, p.len() as int) =~= body);
}

/// One stored fragment of an incomplete instruction: number, body, final marker.
pub type StoredView = (u16, Seq<u8>, bool);

/// Fragment numbers strictly increase along `fs`.
pub open spec fn sorted_numbers(fs: Seq<StoredView>) -> bool {
    forall|i: int, j: int| 0 <= i < j < fs.len() ==> fs[i].0 < fs[j].0
}

/// Only the last stored fragment may carry the final marker.
pub open spec fn only_last_final(fs: Seq<StoredView>) -> bool {
    forall|i: int| 0 <= i < fs.len() - 1 ==> !(#[trigger] fs[i]).2
}

/// The number of the final fragment, once it has been stored.
pub open spec fn final_number_of(fs: Seq<StoredView>) -> Option<u16> {
    if fs.len() > 0 && fs.last().2 {
        Some(fs.last().0)
    } else {
        None
    }
}

/// Total body bytes stored.
pub open spec fn stored_total(fs: Seq<StoredView>) -> nat
    decreases fs.len(),
{
    if fs.len() == 0 {
        0
    } else {
        stored_total(fs.drop_last()) + fs.last().1.len()
    }
}

/// The bodies of `fs` concatenated in order.
pub open spec fn assembled(fs: Seq<StoredView>) -> Seq<u8>
    decreases fs.len(),
{
    if fs.len() == 0 {
        Seq::empty()
    } else {
        assembled(fs.drop_last()) + fs.last().1
    }
}

/// Whether a fragment with number `n` is stored.
pub open spec fn has_number(fs: Seq<StoredView>, n: u16) -> bool {
    exists|i: int| 0 <= i < fs.len() && fs[i].0 == n
}

/// Every fragment from zero through the final one is present.
pub open spec fn is_complete(fs: Seq<StoredView>) -> bool {
    &&& fs.len() > 0
    &&& fs.last().2
    &&& forall|i: int| 0 <= i < fs.len() ==> (#[trigger] fs[i]).0 == i
}

/// `fs` with `e` inserted so that fragment numbers stay sorted.
pub open spec fn sorted_insert(fs: Seq<StoredView>, e: StoredView) -> Seq<StoredView>
    decreases fs.len(),
{
    if fs.len() == 0 {
        seq![e]
    } else if e.0 < fs[0].0 {
        seq![e] + fs
    } else {
        seq![fs[0]] + sorted_insert(fs.drop_first(), e)
    }
}

/// How a fragment relates to the stored fragments of its instruction.
pub enum InsertKind {
    New,
    Duplicate,
    Conflict,
}

/// Classification of a fragment with the given number, body, and final marker.
pub open spec fn classify_spec(fs: Seq<StoredView>, n: u16, body: Seq<u8>, is_final: bool) -> InsertKind {
    if has_number(fs, n) {
        let i = choose|i: int| 0 <= i < fs.len() && fs[i].0 == n;
        if fs[i].1 == body && fs[i].2 == is_final {
            InsertKind::Duplicate
        } else {
            InsertKind::Conflict
        }
    } else if final_number_of(fs) matches Some(f) && n > f {
        InsertKind::Conflict
    } else if is_final && (final_number_of(fs) is Some || (fs.len() > 0 && fs.last().0 > n)) {
        InsertKind::Conflict
    } else {
        InsertKind::New
    }
}

/// The abstract state of an incomplete instruction.
pub ghost struct IncompleteView {
    pub identifier: u64,
    pub created_at_ms: u64,
    pub fragments: Seq<StoredView>,
}

/// The abstract state of a reassembler.
pub ghost struct ReassemblerView {
    pub incomplete: Option<IncompleteView>,
    pub last_observed_ms: u64,
}

/// The abstract outcome of a push.
pub ghost enum OutcomeView {
    Pending,
    Duplicate,
    Complete(Seq<u8>),
}

impl ReassemblyOutcome {
    pub open spec fn view(&self) -> OutcomeView {
        match self {
            ReassemblyOutcome::Pending => OutcomeView::Pending,
            ReassemblyOutcome::Duplicate => OutcomeView::Duplicate,
            ReassemblyOutcome::Complete(bytes) => OutcomeView::Complete(bytes@),
        }
    }
}

/// The well-formedness of a stored fragment list.
pub open spec fn fragments_wf(fs: Seq<StoredView>) -> bool {
    &&& sorted_numbers(fs)
    &&& only_last_final(fs)
    &&& stored_total(fs) <= MAX_COMPRESSED_INSTRUCTION_BYTES
    &&& forall|i: int| 0 <= i < fs.len() ==> (#[trigger] fs[i]).0 < MAX_FRAGMENTS_PER_INSTRUCTION
    &&& !is_complete(fs)
}

/// Expiry at `now`: the incomplete instruction is dropped once its lifetime ends.
pub open spec fn expire_spec(s: ReassemblerView, now: u64) -> Result<(ReassemblerView, usize), ReassemblyError> {
    match s.incomplete {
        None => Ok((s, 0)),
        Some(p) => if p.created_at_ms + INCOMPLETE_INSTRUCTION_LIFETIME_MS > u64::MAX {
            Err(ReassemblyError::TimerExhausted)
        } else if p.created_at_ms + INCOMPLETE_INSTRUCTION_LIFETIME_MS <= now {
            Ok((ReassemblerView { incomplete: None, ..s }, 1))
        } else {
            Ok((s, 0))
        },
    }
}

/// The state after a push once time has been observed and expiry applied.
pub open spec fn push_after_expiry(
    s: ReassemblerView,
    now: u64,
    identifier: u64,
    n: u16,
    is_final: bool,
    body: Seq<u8>,
) -> (ReassemblerView, Result<OutcomeView, ReassemblyError>) {
    if n >= MAX_FRAGMENTS_PER_INSTRUCTION {
        (s, Err(ReassemblyError::FragmentNumberOutOfRange))
    } else if s.incomplete is Some && s.incomplete->0.identifier == identifier {
        let p = s.incomplete->0;
        match classify_spec(p.fragments, n, body, is_final) {
            InsertKind::Conflict => (
                ReassemblerView { incomplete: None, ..s },
                Err(ReassemblyError::ConflictingFragment),
            ),
            InsertKind::Duplicate => (s, Ok(OutcomeView::Duplicate)),
            InsertKind::New => if stored_total(p.fragments) + body.len()
                > MAX_COMPRESSED_INSTRUCTION_BYTES {
                (s, Err(ReassemblyError::InstructionTooLarge))
            } else {
                let fs = sorted_insert(p.fragments, (n, body, is_final));
                if is_complete(fs) {
                    (ReassemblerView { incomplete: None, ..s }, Ok(OutcomeView::Complete(assembled(fs))))
                } else {
                    (
                        ReassemblerView {
                            incomplete: Some(IncompleteView { fragments: fs, ..p }),
                            ..s
                        },
                        Ok(OutcomeView::Pending),
                    )
                }
            },
        }
    } else if n == 0 && is_final {
        if body.len() <= MAX_COMPRESSED_INSTRUCTION_BYTES {
            (s, Ok(OutcomeView::Complete(body)))
        } else {
            (s, Err(ReassemblyError::InstructionTooLarge))
        }
    } else if s.incomplete is Some {
        (s, Err(ReassemblyError::TooManyIncompleteInstructions))
    } else if body.len() > MAX_COMPRESSED_INSTRUCTION_BYTES {
        (s, Err(ReassemblyError::InstructionTooLarge))
    } else {
        (
            ReassemblerView {
                incomplete: Some(
                    IncompleteView {
                        identifier,
                        created_at_ms: now,
                        fragments: seq![(n, body, is_final)],
                    },
                ),
                ..s
            },
            Ok(OutcomeView::Pending),
        )
    }
}

/// The state and result of pushing one fragment at `now`.
pub open spec fn push_spec(
    s: ReassemblerView,
    now: u64,
    identifier: u64,
    n: u16,
    is_final: bool,
    body: Seq<u8>,
) -> (ReassemblerView, Result<OutcomeView, ReassemblyError>) {
    if now < s.last_observed_ms {
        (s, Err(ReassemblyError::TimeMovedBackwards))
    } else {
        let observed = ReassemblerView { last_observed_ms: now, ..s };
        match expire_spec(observed, now) {
            Err(e) => (observed, Err(e)),
            Ok((expired, _)) => push_after_expiry(expired, now, identifier, n, is_final, body),
        }
    }
}

/// Fragment `i` of an instruction whose fragment bodies are `bodies`: the
/// last one carries the final marker.
pub open spec fn fragment_of(bodies: Seq<Seq<u8>>, i: int) -> StoredView {
    (i as u16, bodies[i], i == bodies.len() - 1)
}

/// The bodies joined in fragment order.
pub open spec fn joined(bodies: Seq<Seq<u8>>) -> Seq<u8>
    decreases bodies.len(),
{
    if bodies.len() == 0 {
        Seq::empty()
    } else {
        joined(bodies.drop_last()) + bodies.last()
    }
}

/// Pushes the fragments of `bodies` numbered by `order`, one after another,
/// all at `now`: the state after the last push and its outcome.
pub open spec fn push_in_order(
    s: ReassemblerView,
    now: u64,
    identifier: u64,
    bodies: Seq<Seq<u8>>,
    order: Seq<int>,
) -> (ReassemblerView, Result<OutcomeView, ReassemblyError>)
    decreases order.len(),
{
    if order.len() == 0 {
        (s, Ok(OutcomeView::Pending))
    } else {
        let before = push_in_order(s, now, identifier, bodies, order.drop_last()).0;
        let i = order.last();
        push_spec(before, now, identifier, i as u16, i == bodies.len() - 1, bodies[i])
    }
}

/// Sorted insertion of a new number keeps the order, adds one fragment, and
/// keeps every other.
proof fn lemma_sorted_insert_contents(fs: Seq<StoredView>, e: StoredView)
    requires
        sorted_numbers(fs),
        !has_number(fs, e.0),
    ensures
        sorted_numbers(sorted_insert(fs, e)),
        sorted_insert(fs, e).len() == fs.len() + 1,
        forall|j: int| 0 <= j < sorted_insert(fs, e).len() ==> #[trigger] sorted_insert(fs, e)[j]
            == e || exists|i: int| 0 <= i < fs.len() && sorted_insert(fs, e)[j] == fs[i],
        forall|m: u16| #[trigger] has_number(sorted_insert(fs, e), m) <==> (has_number(fs, m) || m
            == e.0),
    decreases fs.len(),
{
    let r = sorted_insert(fs, e);
    if fs.len() == 0 {
        assert(r =~= seq![e]);
        assert forall|m: u16| #[trigger] has_number(r, m) <==> (has_number(fs, m) || m == e.0) by {
            if m == e.0 {
                assert(r[0].0 == m);
            }
        }
    } else if e.0 < fs[0].0 {
        assert(r =~= seq![e] + fs);
        assert forall|a: int, b: int| 0 <= a < b < r.len() implies r[a].0 < r[b].0 by {
            if a == 0 {
                assert(r[b] == fs[b - 1]);
                if b - 1 > 0 {
                    assert(fs[0].0 < fs[b - 1].0);
                }
            } else {
                assert(r[a] == fs[a - 1] && r[b] == fs[b - 1]);
            }
        }
        assert forall|j: int| 0 <= j < r.len() implies #[trigger] r[j] == e || exists|i: int|
            0 <= i < fs.len() && r[j] == fs[i] by {
            if j > 0 {
                assert(r[j] == fs[j - 1]);
            }
        }
        assert forall|m: u16| #[trigger] has_number(r, m) <==> (has_number(fs, m) || m == e.0) by {
            if has_number(r, m) {
                let j = choose|j: int| 0 <= j < r.len() && r[j].0 == m;
                if j > 0 {
                    assert(r[j] == fs[j - 1]);
                }
            }
            if has_number(fs, m) {
                let j = choose|j: int| 0 <= j < fs.len() && fs[j].0 == m;
                assert(r[j + 1] == fs[j]);
            }
            if m == e.0 {
                assert(r[0] == e);
            }
        }
    } else {
        let rest = fs.drop_first();
        assert(sorted_numbers(rest)) by {
            assert forall|a: int, b: int| 0 <= a < b < rest.len() implies rest[a].0
                < rest[b].0 by {
                assert(rest[a] == fs[a + 1] && rest[b] == fs[b + 1]);
            }
        }
        assert(!has_number(rest, e.0)) by {
            if has_number(rest, e.0) {
                let j = choose|j: int| 0 <= j < rest.len() && rest[j].0 == e.0;
                assert(fs[j + 1].0 == e.0);
            }
        }
        lemma_sorted_insert_contents(rest, e);
        let inner = sorted_insert(rest, e);
        assert(r =~= seq![fs[0]] + inner);
        assert(fs[0].0 != e.0) by {
            assert(fs[0].0 == fs[0].0);
            if fs[0].0 == e.0 {
                assert(has_number(fs, e.0));
            }
        }
        assert forall|a: int, b: int| 0 <= a < b < r.len() implies r[a].0 < r[b].0 by {
            if a == 0 {
                assert(r[b] == inner[b - 1]);
                if inner[b - 1] == e {
                } else {
                    let i = choose|i: int| 0 <= i < rest.len() && inner[b - 1] == rest[i];
                    assert(rest[i] == fs[i + 1]);
                }
            } else {
                assert(r[a] == inner[a - 1] && r[b] == inner[b - 1]);
            }
        }
        assert forall|j: int| 0 <= j < r.len() implies #[trigger] r[j] == e || exists|i: int|
            0 <= i < fs.len() && r[j] == fs[i] by {
            if j == 0 {
                assert(r[0] == fs[0]);
            } else {
                assert(r[j] == inner[j - 1]);
                if inner[j - 1] != e {
                    let i = choose|i: int| 0 <= i < rest.len() && inner[j - 1] == rest[i];
                    assert(rest[i] == fs[i + 1]);
                }
            }
        }
        assert forall|m: u16| #[trigger] has_number(r, m) <==> (has_number(fs, m) || m == e.0) by {
            if has_number(r, m) {
                let j = choose|j: int| 0 <= j < r.len() && r[j].0 == m;
                if j == 0 {
                    assert(fs[0].0 == m);
                } else {
                    assert(r[j] == inner[j - 1]);
                    assert(has_number(inner, m));
                    if has_number(rest, m) {
                        let t = choose|t: int| 0 <= t < rest.len() && rest[t].0 == m;
                        assert(fs[t + 1].0 == m);
                    }
                }
            }
            if has_number(fs, m) {
                let j = choose|j: int| 0 <= j < fs.len() && fs[j].0 == m;
                if j == 0 {
                    assert(r[0].0 == m);
                } else {
                    assert(rest[j - 1] == fs[j]);
                    assert(has_number(rest, m));
                    assert(has_number(inner, m));
                    let t = choose|t: int| 0 <= t < inner.len() && inner[t].0 == m;
                    assert(r[t + 1] == inner[t]);
                }
            }
            if m == e.0 {
                assert(has_number(inner, m));
                let t = choose|t: int| 0 <= t < inner.len() && inner[t].0 == m;
                assert(r[t + 1] == inner[t]);
            }
        }
    }
}

/// In a sorted list of `n` fragment numbers below `n`, entry `k` is at most `k`.
proof fn lemma_numbers_at_most_index(fs: Seq<StoredView>, n: int, k: int)
    requires
        sorted_numbers(fs),
        fs.len() == n,
        forall|j: int| 0 <= j < fs.len() ==> (#[trigger] fs[j]).0 < n,
        0 <= k < fs.len(),
    ensures
        fs[k].0 <= k,
    decreases fs.len() - k,
{
    if k < fs.len() - 1 {
        lemma_numbers_at_most_index(fs, n, k + 1);
        assert(fs[k].0 < fs[k + 1].0);
    }
}

/// Fragments carrying the bodies in order assemble to the joined bodies.
proof fn lemma_assembled_joined(fs: Seq<StoredView>, bodies: Seq<Seq<u8>>)
    requires
        fs.len() == bodies.len(),
        forall|j: int| 0 <= j < fs.len() ==> (#[trigger] fs[j]).1 == bodies[j],
    ensures
        assembled(fs) == joined(bodies),
    decreases fs.len(),
{
    if fs.len() > 0 {
        assert forall|j: int| 0 <= j < fs.drop_last().len() implies (#[trigger] fs.drop_last()[j]).1
            == bodies.drop_last()[j] by {
            assert(fs.drop_last()[j] == fs[j]);
        }
        lemma_assembled_joined(fs.drop_last(), bodies.drop_last());
        assert(fs.last().1 == bodies.last());
    }
}

/// Stored fragments of an instruction, numbered below `n`, hold at most the
/// bytes of its first `n` bodies.
proof fn lemma_stored_within_bodies(fs: Seq<StoredView>, bodies: Seq<Seq<u8>>, n: int)
    requires
        sorted_numbers(fs),
        0 <= n <= bodies.len(),
        forall|j: int| 0 <= j < fs.len() ==> (#[trigger] fs[j]).0 < n && fs[j] == fragment_of(
            bodies,
            fs[j].0 as int,
        ),
    ensures
        stored_total(fs) <= joined(bodies.take(n)).len(),
    decreases n,
{
    if n == 0 {
        if fs.len() > 0 {
            assert(fs[0].0 < 0);
        }
    } else {
        assert(bodies.take(n).drop_last() =~= bodies.take(n - 1));
        assert(bodies.take(n).last() == bodies[n - 1]);
        if fs.len() > 0 && fs.last().0 == n - 1 {
            let shorter = fs.drop_last();
            assert forall|j: int| 0 <= j < shorter.len() implies (#[trigger] shorter[j]).0 < n - 1
                && shorter[j] == fragment_of(bodies, shorter[j].0 as int) by {
                assert(shorter[j] == fs[j]);
                assert(fs[j].0 < fs[fs.len() - 1].0);
            }
            assert(sorted_numbers(shorter));
            lemma_stored_within_bodies(shorter, bodies, n - 1);
            assert(fs.last() == fragment_of(bodies, n - 1));
        } else {
            assert forall|j: int| 0 <= j < fs.len() implies (#[trigger] fs[j]).0 < n - 1
                && fs[j] == fragment_of(bodies, fs[j].0 as int) by {
                if j < fs.len() - 1 {
                    assert(fs[j].0 < fs[fs.len() - 1].0);
                }
            }
            lemma_stored_within_bodies(fs, bodies, n - 1);
        }
    }
}

/// What reassembly holds after the first `k` fragments of an instruction
/// arrived in `order`, short of the last one: the incomplete instruction
/// stores exactly those fragments, sorted, and every push was pending.
proof fn lemma_push_prefix(
    s: ReassemblerView,
    now: u64,
    identifier: u64,
    bodies: Seq<Seq<u8>>,
    order: Seq<int>,
    k: int,
)
    requires
        2 <= bodies.len() <= MAX_FRAGMENTS_PER_INSTRUCTION,
        order.len() == bodies.len(),
        forall|t: int| 0 <= t < order.len() ==> 0 <= #[trigger] order[t] < bodies.len(),
        forall|a: int, b: int| 0 <= a < b < order.len() ==> #[trigger] order[a] != #[trigger] order[b],
        joined(bodies).len() <= MAX_COMPRESSED_INSTRUCTION_BYTES,
        s.incomplete is None,
        now >= s.last_observed_ms,
        now + INCOMPLETE_INSTRUCTION_LIFETIME_MS <= u64::MAX,
        1 <= k < bodies.len(),
    ensures
        ({
            let (st, outcome) = push_in_order(s, now, identifier, bodies, order.take(k));
            &&& outcome == Ok::<OutcomeView, ReassemblyError>(OutcomeView::Pending)
            &&& st.last_observed_ms == now
            &&& st.incomplete matches Some(p) && {
                &&& p.identifier == identifier
                &&& p.created_at_ms == now
                &&& sorted_numbers(p.fragments)
                &&& p.fragments.len() == k
                &&& forall|j: int| 0 <= j < p.fragments.len() ==> #[trigger] p.fragments[j]
                    == fragment_of(bodies, p.fragments[j].0 as int)
                &&& forall|m: u16| #[trigger] has_number(p.fragments, m) <==> exists|t: int|
                    0 <= t < k && #[trigger] order[t] == m as int
            }
        }),
    decreases k,
{
    let n = bodies.len() as int;
    let i = order[k - 1];
    assert(order.take(k).drop_last() =~= order.take(k - 1));
    assert(order.take(k).last() == i);
    assert(bodies.take(bodies.len() as int) =~= bodies);
    let e = fragment_of(bodies, i);
    if k == 1 {
        assert(order.take(0) =~= Seq::<int>::empty());
        assert(push_in_order(s, now, identifier, bodies, order.take(0)).0 == s);
        let observed = ReassemblerView { last_observed_ms: now, ..s };
        assert(expire_spec(observed, now) == Ok::<(ReassemblerView, usize), ReassemblyError>(
            (observed, 0),
        ));
        let fs = seq![e];
        lemma_stored_within_bodies(fs, bodies, n);
        assert forall|m: u16| #[trigger] has_number(fs, m) <==> exists|t: int|
            0 <= t < 1 && #[trigger] order[t] == m as int by {
            if has_number(fs, m) {
                assert(order[0] == m as int);
            }
            if exists|t: int| 0 <= t < 1 && #[trigger] order[t] == m as int {
                assert(fs[0].0 == m);
            }
        }
    } else {
        lemma_push_prefix(s, now, identifier, bodies, order, k - 1);
        let (before, _) = push_in_order(s, now, identifier, bodies, order.take(k - 1));
        let p = before.incomplete->0;
        let fs = p.fragments;
        // The new number is not stored yet.
        assert(!has_number(fs, i as u16)) by {
            if has_number(fs, i as u16) {
                let t = choose|t: int| 0 <= t < k - 1 && #[trigger] order[t] == (i as u16) as int;
                assert(order[t] != order[k - 1]);
            }
        }
        // Every stored number is below the instruction's count, and the final
        // one is stored only if it is the last stored.
        assert forall|j: int| 0 <= j < fs.len() implies (#[trigger] fs[j]).0 < n by {
            assert(has_number(fs, fs[j].0));
            let t = choose|t: int| 0 <= t < k - 1 && #[trigger] order[t] == fs[j].0 as int;
        }
        assert(final_number_of(fs) matches Some(f) ==> f == n - 1) by {
            if fs.len() > 0 && fs.last().2 {
                assert(fs[fs.len() - 1] == fragment_of(bodies, fs[fs.len() - 1].0 as int));
            }
        }
        if i == n - 1 {
            assert(final_number_of(fs) is None) by {
                if final_number_of(fs) is Some {
                    assert(has_number(fs, fs.last().0));
                }
            }
        }
        assert(classify_spec(fs, i as u16, bodies[i], i == n - 1) == InsertKind::New);
        let observed = ReassemblerView { last_observed_ms: now, ..before };
        assert(expire_spec(observed, now) == Ok::<(ReassemblerView, usize), ReassemblyError>(
            (observed, 0),
        ));
        lemma_sorted_insert_contents(fs, e);
        lemma_sorted_insert_total(fs, e);
        let grown = sorted_insert(fs, e);
        assert forall|j: int| 0 <= j < grown.len() implies (#[trigger] grown[j]).0 < n
            && grown[j] == fragment_of(bodies, grown[j].0 as int) by {
            if grown[j] != e {
                let t = choose|t: int| 0 <= t < fs.len() && grown[j] == fs[t];
                assert(fs[t] == fragment_of(bodies, fs[t].0 as int));
            }
        }
        lemma_stored_within_bodies(grown, bodies, n);
        assert(!is_complete(grown)) by {
            if is_complete(grown) {
                let last = grown[grown.len() - 1];
                assert(last.0 == grown.len() - 1);
                if last == e {
                } else {
                    let t = choose|t: int| 0 <= t < fs.len() && last == fs[t];
                    assert(fs[t] == fragment_of(bodies, fs[t].0 as int));
                }
            }
        }
        assert forall|j: int| 0 <= j < grown.len() implies #[trigger] grown[j] == fragment_of(
            bodies,
            grown[j].0 as int,
        ) by {
            if grown[j] != e {
                let t = choose|t: int| 0 <= t < fs.len() && grown[j] == fs[t];
                assert(fs[t] == fragment_of(bodies, fs[t].0 as int));
            }
        }
        assert forall|m: u16| #[trigger] has_number(grown, m) <==> exists|t: int|
            0 <= t < k && #[trigger] order[t] == m as int by {
            if has_number(fs, m) {
                let t = choose|t: int| 0 <= t < k - 1 && #[trigger] order[t] == m as int;
                assert(0 <= t < k);
            }
            if exists|t: int| 0 <= t < k && #[trigger] order[t] == m as int {
                let t = choose|t: int| 0 <= t < k && #[trigger] order[t] == m as int;
                if t < k - 1 {
                    assert(has_number(fs, m));
                } else {
                    assert(m == i as u16);
                }
            }
        }
    }
}

/// An instruction sent as one or more fragments reassembles whatever order
/// they arrive in: every arrival but the last leaves it pending, the last one
/// completes it with the bodies joined in fragment order, and the reassembler
/// is then left with no incomplete instruction and so no stored bytes.
pub proof fn law_fragments_reassemble_in_any_order(
    s: ReassemblerView,
    now: u64,
    identifier: u64,
    bodies: Seq<Seq<u8>>,
    order: Seq<int>,
)
    requires
        1 <= bodies.len() <= MAX_FRAGMENTS_PER_INSTRUCTION,
        order.len() == bodies.len(),
        forall|t: int| 0 <= t < order.len() ==> 0 <= #[trigger] order[t] < bodies.len(),
        forall|a: int, b: int| 0 <= a < b < order.len() ==> #[trigger] order[a] != #[trigger] order[b],
        joined(bodies).len() <= MAX_COMPRESSED_INSTRUCTION_BYTES,
        s.incomplete is None,
        now >= s.last_observed_ms,
        now + INCOMPLETE_INSTRUCTION_LIFETIME_MS <= u64::MAX,
    ensures
        forall|k: int|
            1 <= k < bodies.len() ==> #[trigger] push_in_order(
                s,
                now,
                identifier,
                bodies,
                order.take(k),
            ).1 == Ok::<OutcomeView, ReassemblyError>(OutcomeView::Pending),
        push_in_order(s, now, identifier, bodies, order).1 == Ok::<OutcomeView, ReassemblyError>(
            OutcomeView::Complete(joined(bodies)),
        ),
        push_in_order(s, now, identifier, bodies, order).0.incomplete is None,
{
    let n = bodies.len() as int;
    if n == 1 {
        assert(order[0] == 0);
        assert(order.drop_last() =~= Seq::<int>::empty());
        assert(joined(bodies.drop_last()) =~= Seq::<u8>::empty());
        assert(joined(bodies) =~= bodies[0]);
        let observed = ReassemblerView { last_observed_ms: now, ..s };
        assert(expire_spec(observed, now) == Ok::<(ReassemblerView, usize), ReassemblyError>(
            (observed, 0),
        ));
        assert(push_in_order(s, now, identifier, bodies, order.drop_last()).0 == s);
        assert(order.last() == 0);
        assert(push_spec(s, now, identifier, 0u16, true, bodies[0]) == (
            observed,
            Ok::<OutcomeView, ReassemblyError>(OutcomeView::Complete(bodies[0])),
        ));
    } else {
        lemma_reassembles_from_several(s, now, identifier, bodies, order);
    }
}

/// Reassembly in any order of an instruction of two or more fragments.
proof fn lemma_reassembles_from_several(
    s: ReassemblerView,
    now: u64,
    identifier: u64,
    bodies: Seq<Seq<u8>>,
    order: Seq<int>,
)
    requires
        2 <= bodies.len() <= MAX_FRAGMENTS_PER_INSTRUCTION,
        order.len() == bodies.len(),
        forall|t: int| 0 <= t < order.len() ==> 0 <= #[trigger] order[t] < bodies.len(),
        forall|a: int, b: int| 0 <= a < b < order.len() ==> #[trigger] order[a] != #[trigger] order[b],
        joined(bodies).len() <= MAX_COMPRESSED_INSTRUCTION_BYTES,
        s.incomplete is None,
        now >= s.last_observed_ms,
        now + INCOMPLETE_INSTRUCTION_LIFETIME_MS <= u64::MAX,
    ensures
        forall|k: int|
            1 <= k < bodies.len() ==> #[trigger] push_in_order(
                s,
                now,
                identifier,
                bodies,
                order.take(k),
            ).1 == Ok::<OutcomeView, ReassemblyError>(OutcomeView::Pending),
        push_in_order(s, now, identifier, bodies, order).1 == Ok::<OutcomeView, ReassemblyError>(
            OutcomeView::Complete(joined(bodies)),
        ),
        push_in_order(s, now, identifier, bodies, order).0.incomplete is None,
{
    let n = bodies.len() as int;
    assert forall|k: int| 1 <= k < bodies.len() implies #[trigger] push_in_order(
        s,
        now,
        identifier,
        bodies,
        order.take(k),
    ).1 == Ok::<OutcomeView, ReassemblyError>(OutcomeView::Pending) by {
        lemma_push_prefix(s, now, identifier, bodies, order, k);
    }
    lemma_push_prefix(s, now, identifier, bodies, order, n - 1);
    assert(order.take(n) =~= order);
    assert(order.drop_last() =~= order.take(n - 1));
    let (before, _) = push_in_order(s, now, identifier, bodies, order.take(n - 1));
    let p = before.incomplete->0;
    let fs = p.fragments;
    let i = order[n - 1];
    let e = fragment_of(bodies, i);
    assert(!has_number(fs, i as u16)) by {
        if has_number(fs, i as u16) {
            let t = choose|t: int| 0 <= t < n - 1 && #[trigger] order[t] == (i as u16) as int;
            assert(order[t] != order[n - 1]);
        }
    }
    assert forall|j: int| 0 <= j < fs.len() implies (#[trigger] fs[j]).0 < n by {
        assert(has_number(fs, fs[j].0));
        let t = choose|t: int| 0 <= t < n - 1 && #[trigger] order[t] == fs[j].0 as int;
    }
    assert(final_number_of(fs) matches Some(f) ==> f == n - 1) by {
        if fs.len() > 0 && fs.last().2 {
            assert(fs[fs.len() - 1] == fragment_of(bodies, fs[fs.len() - 1].0 as int));
        }
    }
    if i == n - 1 {
        assert(final_number_of(fs) is None) by {
            if final_number_of(fs) is Some {
                assert(has_number(fs, fs.last().0));
            }
        }
    }
    assert(classify_spec(fs, i as u16, bodies[i], i == n - 1) == InsertKind::New);
    assert(bodies.take(n) =~= bodies);
    let observed = ReassemblerView { last_observed_ms: now, ..before };
    assert(expire_spec(observed, now) == Ok::<(ReassemblerView, usize), ReassemblyError>(
        (observed, 0),
    ));
    lemma_sorted_insert_contents(fs, e);
    lemma_sorted_insert_total(fs, e);
    let grown = sorted_insert(fs, e);
    assert forall|j: int| 0 <= j < grown.len() implies (#[trigger] grown[j]).0 < n
        && grown[j] == fragment_of(bodies, grown[j].0 as int) by {
        if grown[j] != e {
            let t = choose|t: int| 0 <= t < fs.len() && grown[j] == fs[t];
            assert(fs[t] == fragment_of(bodies, fs[t].0 as int));
        }
    }
    lemma_stored_within_bodies(grown, bodies, n);
    assert forall|j: int| 0 <= j < grown.len() implies (#[trigger] grown[j]).0 == j by {
        lemma_numbers_at_least_index(grown, j);
        lemma_numbers_at_most_index(grown, n, j);
    }
    assert(is_complete(grown)) by {
        assert(grown[grown.len() - 1] == fragment_of(bodies, n - 1));
    }
    lemma_assembled_joined(grown, bodies);
}

/// A fragment held until its instruction completes.
pub struct StoredFragment {
    number: u16,
    body: Vec<u8>,
    is_final: bool,
}

impl StoredFragment {
    pub closed spec fn view(&self) -> StoredView {
        (self.number, self.body@, self.is_final)
    }
}

/// The fragments received so far of one instruction, sorted by number.
pub struct IncompleteInstruction {
    identifier: u64,
    created_at_ms: u64,
    stored_bytes: usize,
    final_number: Option<u16>,
    fragments: Vec<StoredFragment>,
}

impl IncompleteInstruction {
    pub closed spec fn stored(&self) -> Seq<StoredView> {
        self.fragments@.map_values(|f: StoredFragment| f.view())
    }

    pub closed spec fn view(&self) -> IncompleteView {
        IncompleteView {
            identifier: self.identifier,
            created_at_ms: self.created_at_ms,
            fragments: self.stored(),
        }
    }

    pub closed spec fn wf(&self) -> bool {
        &&& fragments_wf(self.stored())
        &&& self.stored_bytes == stored_total(self.stored())
        &&& self.final_number == final_number_of(self.stored())
    }
}

/// Reassembles at most one fragmented instruction; a one-fragment instruction
/// completes at once without displacing the incomplete one.
pub struct FragmentReassembler {
    incomplete: Option<IncompleteInstruction>,
    last_observed_ms: u64,
}

proof fn lemma_stored_total_push(fs: Seq<StoredView>, e: StoredView)
    ensures
        stored_total(fs.push(e)) == stored_total(fs) + e.1.len(),
        assembled(fs.push(e)) == assembled(fs) + e.1,
{
    assert(fs.push(e).drop_last() =~= fs);
}

proof fn lemma_stored_total_prepend(e: StoredView, fs: Seq<StoredView>)
    ensures
        stored_total(seq![e] + fs) == e.1.len() + stored_total(fs),
    decreases fs.len(),
{
    if fs.len() == 0 {
        assert(seq![e] + fs =~= seq![e]);
        assert(seq![e].drop_last() =~= Seq::<StoredView>::empty());
        assert(stored_total(Seq::<StoredView>::empty()) == 0);
    } else {
        lemma_stored_total_prepend(e, fs.drop_last());
        assert((seq![e] + fs).drop_last() =~= seq![e] + fs.drop_last());
        assert((seq![e] + fs).last() == fs.last());
    }
}

proof fn lemma_sorted_insert_total(fs: Seq<StoredView>, e: StoredView)
    ensures
        stored_total(sorted_insert(fs, e)) == stored_total(fs) + e.1.len(),
        sorted_insert(fs, e).len() == fs.len() + 1,
    decreases fs.len(),
{
    if fs.len() == 0 {
        lemma_stored_total_prepend(e, fs);
        assert(seq![e] + fs =~= seq![e]);
    } else if e.0 < fs[0].0 {
        lemma_stored_total_prepend(e, fs);
    } else {
        lemma_sorted_insert_total(fs.drop_first(), e);
        lemma_stored_total_prepend(fs[0], sorted_insert(fs.drop_first(), e));
        lemma_stored_total_prepend(fs[0], fs.drop_first());
        assert(seq![fs[0]] + fs.drop_first() =~= fs);
    }
}

/// Inserting at the first position with a larger number is the sorted insertion.
proof fn lemma_insert_at_position(fs: Seq<StoredView>, e: StoredView, pos: int)
    requires
        0 <= pos <= fs.len(),
        forall|i: int| 0 <= i < pos ==> (#[trigger] fs[i]).0 < e.0,
        pos < fs.len() ==> e.0 < fs[pos].0,
    ensures
        fs.insert(pos, e) == sorted_insert(fs, e),
    decreases fs.len(),
{
    if fs.len() == 0 {
        assert(fs.insert(pos, e) =~= seq![e]);
    } else if pos == 0 {
        assert(fs.insert(pos, e) =~= seq![e] + fs);
    } else {
        let rest = fs.drop_first();
        assert forall|i: int| 0 <= i < pos - 1 implies (#[trigger] rest[i]).0 < e.0 by {
            assert(rest[i] == fs[i + 1]);
        }
        lemma_insert_at_position(rest, e, pos - 1);
        assert(fs.insert(pos, e) =~= seq![fs[0]] + rest.insert(pos - 1, e));
    }
}

/// After an insertion the new fragment's neighbours keep the order.
proof fn lemma_insert_sorted(fs: Seq<StoredView>, e: StoredView, pos: int)
    requires
        0 <= pos <= fs.len(),
        sorted_numbers(fs),
        forall|i: int| 0 <= i < pos ==> (#[trigger] fs[i]).0 < e.0,
        pos < fs.len() ==> e.0 < fs[pos].0,
    ensures
        sorted_numbers(fs.insert(pos, e)),
{
    let r = fs.insert(pos, e);
    assert forall|i: int, j: int| 0 <= i < j < r.len() implies r[i].0 < r[j].0 by {
        if j < pos {
        } else if j == pos {
            assert(r[i] == fs[i]);
        } else if i < pos {
            assert(r[j] == fs[j - 1]);
            assert(r[i] == fs[i]);
        } else if i == pos {
            assert(r[j] == fs[j - 1]);
        } else {
            assert(r[j] == fs[j - 1]);
            assert(r[i] == fs[i - 1]);
        }
    }
}

proof fn lemma_complete_final(fs: Seq<StoredView>)
    requires
        is_complete(fs),
    ensures
        final_number_of(fs) == Some(fs.last().0),
        fs.last().0 == fs.len() - 1,
{
    assert(fs[fs.len() - 1].0 == fs.len() - 1);
}

/// A sorted list of distinct numbers whose last number is `len - 1` and starts
/// at or above zero holds exactly the numbers `0..len`.
proof fn lemma_sorted_dense(fs: Seq<StoredView>)
    requires
        fs.len() > 0,
        sorted_numbers(fs),
        fs.last().0 == fs.len() - 1,
    ensures
        forall|i: int| 0 <= i < fs.len() ==> (#[trigger] fs[i]).0 == i,
    decreases fs.len(),
{
    if fs.len() > 1 {
        let shorter = fs.drop_last();
        assert(fs[fs.len() - 2].0 < fs.last().0);
        assert(fs[fs.len() - 2].0 >= fs.len() - 2) by {
            lemma_numbers_at_least_index(fs, fs.len() - 2);
        }
        lemma_sorted_dense(shorter);
        assert forall|i: int| 0 <= i < fs.len() implies (#[trigger] fs[i]).0 == i by {
            if i < fs.len() - 1 {
                assert(fs[i] == shorter[i]);
            }
        }
    } else {
        assert(fs[0].0 == 0);
    }
}

proof fn lemma_numbers_at_least_index(fs: Seq<StoredView>, k: int)
    requires
        sorted_numbers(fs),
        0 <= k < fs.len(),
    ensures
        fs[k].0 >= k,
    decreases k,
{
    if k > 0 {
        lemma_numbers_at_least_index(fs, k - 1);
        assert(fs[k - 1].0 < fs[k].0);
    }
}

impl IncompleteInstruction {
    fn new(identifier: u64, created_at_ms: u64, fragment: &Fragment) -> (r: Self)
        requires
            fragment.number < MAX_FRAGMENTS_PER_INSTRUCTION,
            fragment.body@.len() <= MAX_COMPRESSED_INSTRUCTION_BYTES,
            !(fragment.number == 0 && fragment.is_final),
        ensures
            r.wf(),
            r.view() == (IncompleteView {
                identifier,
                created_at_ms,
                fragments: seq![(fragment.number, fragment.body@, fragment.is_final)],
            }),
    {
        let stored = StoredFragment {
            number: fragment.number,
            body: vstd::slice::slice_to_vec(fragment.body),
            is_final: fragment.is_final,
        };
        let mut fragments = Vec::new();
        fragments.push(stored);
        let r = IncompleteInstruction {
            identifier,
            created_at_ms,
            stored_bytes: fragment.body.len(),
            final_number: if fragment.is_final {
                Some(fragment.number)
            } else {
                None
            },
            fragments,
        };
        proof {
            let fs = r.stored();
            assert(fs =~= seq![(fragment.number, fragment.body@, fragment.is_final)]);
            assert(fs.drop_last() =~= Seq::<StoredView>::empty());
            assert(stored_total(Seq::<StoredView>::empty()) == 0);
            assert(stored_total(fs) == fragment.body@.len());
            assert(fs.last() == fs[0]);
            assert(final_number_of(fs) == r.final_number);
            if is_complete(fs) {
                assert(fs[0].0 == 0);
            }
            assert(fragments_wf(fs));
        }
        r
    }

    fn classify(&self, fragment: &Fragment) -> (r: InsertKind)
        requires
            self.wf(),
        ensures
            r == classify_spec(self.stored(), fragment.number, fragment.body@, fragment.is_final),
    {
        let ghost fs = self.stored();
        let mut i: usize = 0;
        while i < self.fragments.len()
            invariant
                self.wf(),
                fs == self.stored(),
                i <= fs.len(),
                forall|k: int| 0 <= k < i ==> (#[trigger] fs[k]).0 != fragment.number,
            decreases fs.len() - i,
        {
            let existing = &self.fragments[i];
            assert(fs[i as int] == existing.view());
            if existing.number == fragment.number {
                proof {
                    assert(has_number(fs, fragment.number));
                    let j = choose|j: int| 0 <= j < fs.len() && fs[j].0 == fragment.number;
                    if j != i {
                        if j < i {
                            assert(fs[j].0 < fs[i as int].0);
                        } else {
                            assert(fs[i as int].0 < fs[j].0);
                        }
                    }
                }
                let same = bytes_equal(existing.body.as_slice(), fragment.body)
                    && existing.is_final == fragment.is_final;
                if same {
                    return InsertKind::Duplicate;
                } else {
                    return InsertKind::Conflict;
                }
            }
            i = i + 1;
        }
        assert(!has_number(fs, fragment.number));
        let len = self.fragments.len();
        if let Some(final_number) = self.final_number {
            if fragment.number > final_number {
                return InsertKind::Conflict;
            }
        }
        if fragment.is_final {
            if self.final_number.is_some() {
                return InsertKind::Conflict;
            }
            if len > 0 && self.fragments[len - 1].number > fragment.number {
                return InsertKind::Conflict;
            }
        }
        InsertKind::New
    }

    /// Inserts a new fragment whose classification is `New` and whose bytes fit.
    fn insert(&mut self, fragment: &Fragment)
        requires
            old(self).wf(),
            fragment.number < MAX_FRAGMENTS_PER_INSTRUCTION,
            classify_spec(old(self).stored(), fragment.number, fragment.body@, fragment.is_final)
                == InsertKind::New,
            stored_total(old(self).stored()) + fragment.body@.len()
                <= MAX_COMPRESSED_INSTRUCTION_BYTES,
        ensures
            final(self).stored() == sorted_insert(
                old(self).stored(),
                (fragment.number, fragment.body@, fragment.is_final),
            ),
            final(self).identifier == old(self).identifier,
            final(self).created_at_ms == old(self).created_at_ms,
            final(self).stored_bytes == stored_total(final(self).stored()),
            final(self).final_number == final_number_of(final(self).stored()),
            fragments_wf(final(self).stored()) || is_complete(final(self).stored()),
    {
        let ghost fs = self.stored();
        let ghost e = (fragment.number, fragment.body@, fragment.is_final);
        let mut pos: usize = 0;
        while pos < self.fragments.len() && self.fragments[pos].number < fragment.number
            invariant
                self.wf(),
                fs == self.stored(),
                pos <= fs.len(),
                forall|k: int| 0 <= k < pos ==> (#[trigger] fs[k]).0 < fragment.number,
            decreases fs.len() - pos,
        {
            pos = pos + 1;
        }
        proof {
            if pos < fs.len() {
                assert(fs[pos as int].0 != fragment.number);
            }
        }
        let stored = StoredFragment {
            number: fragment.number,
            body: vstd::slice::slice_to_vec(fragment.body),
            is_final: fragment.is_final,
        };
        self.fragments.insert(pos, stored);
        self.stored_bytes = self.stored_bytes + fragment.body.len();
        if fragment.is_final {
            self.final_number = Some(fragment.number);
        }
        proof {
            let r = self.stored();
            assert(r =~= fs.insert(pos as int, e));
            lemma_insert_at_position(fs, e, pos as int);
            lemma_insert_sorted(fs, e, pos as int);
            lemma_sorted_insert_total(fs, e);
            // only the last fragment can be final
            if fragment.is_final {
                // a new final fragment is larger than every stored number
                assert(final_number_of(fs) is None);
                if fs.len() > 0 {
                    assert(fs.last().0 < fragment.number);
                    assert(pos == fs.len()) by {
                        if pos < fs.len() {
                            assert(fs[pos as int].0 <= fs.last().0) by {
                                if pos < fs.len() - 1 {
                                    assert(fs[pos as int].0 < fs[fs.len() - 1].0);
                                }
                            }
                        }
                    }
                }
                assert(r.last() == e);
                assert(final_number_of(r) == Some(fragment.number));
                assert(only_last_final(r)) by {
                    assert forall|i: int| 0 <= i < r.len() - 1 implies !(#[trigger] r[i]).2 by {
                        assert(r[i] == fs[i]);
                        if fs.len() > 0 && i == fs.len() - 1 {
                            assert(!fs.last().2);
                        }
                    }
                }
            } else {
                assert(only_last_final(r)) by {
                    assert forall|i: int| 0 <= i < r.len() - 1 implies !(#[trigger] r[i]).2 by {
                        if i < pos {
                            assert(r[i] == fs[i]);
                            if i == fs.len() - 1 {
                                assert(fs[i].0 < fragment.number);
                                if fs.last().2 {
                                    assert(final_number_of(fs) == Some(fs.last().0));
                                }
                            }
                        } else if i > pos {
                            assert(r[i] == fs[i - 1]);
                        }
                    }
                }
                if let Some(f) = final_number_of(fs) {
                    assert(fragment.number <= f);
                    assert(pos < fs.len()) by {
                        if pos == fs.len() {
                            assert(fs[fs.len() - 1].0 < fragment.number);
                        }
                    }
                    assert(r.last() == fs.last());
                } else {
                    if pos == fs.len() {
                        assert(r.last() == e);
                    } else {
                        assert(r.last() == fs.last());
                    }
                }
                assert(final_number_of(r) == final_number_of(fs));
            }
            assert forall|i: int| 0 <= i < r.len() implies (#[trigger] r[i]).0
                < MAX_FRAGMENTS_PER_INSTRUCTION by {
                if i < pos {
                    assert(r[i] == fs[i]);
                } else if i > pos {
                    assert(r[i] == fs[i - 1]);
                }
            }
        }
    }

    fn is_complete(&self) -> (r: bool)
        requires
            sorted_numbers(self.stored()),
            self.final_number == final_number_of(self.stored()),
        ensures
            r == is_complete(self.stored()),
    {
        let ghost fs = self.stored();
        let final_number = match self.final_number {
            Some(n) => n,
            None => {
                return false;
            },
        };
        let len = self.fragments.len();
        if len != final_number as usize + 1 {
            proof {
                if is_complete(fs) {
                    lemma_complete_final(fs);
                }
            }
            return false;
        }
        proof {
            assert(fs.last().0 == fs.len() - 1);
            lemma_sorted_dense(fs);
        }
        true
    }

    fn assemble(self) -> (r: Vec<u8>)
        ensures
            r@ == assembled(self.stored()),
    {
        let ghost fs = self.stored();
        let mut output: Vec<u8> = Vec::new();
        let mut i: usize = 0;
        while i < self.fragments.len()
            invariant
                fs == self.stored(),
                i <= fs.len(),
                output@ == assembled(fs.subrange(0, i as int)),
            decreases fs.len() - i,
        {
            let body = self.fragments[i].body.as_slice();
            append_bytes(&mut output, body);
            proof {
                assert(fs.subrange(0, i + 1) =~= fs.subrange(0, i as int).push(fs[i as int]));
                lemma_stored_total_push(fs.subrange(0, i as int), fs[i as int]);
            }
            i = i + 1;
        }
        assert(fs.subrange(0, fs.len() as int) =~= fs);
        output
    }
}

impl FragmentReassembler {
    pub closed spec fn view(&self) -> ReassemblerView {
        ReassemblerView {
            incomplete: match self.incomplete {
                Some(i) => Some(i.view()),
                None => None,
            },
            last_observed_ms: self.last_observed_ms,
        }
    }

    pub closed spec fn wf(&self) -> bool {
        self.incomplete matches Some(i) ==> i.wf()
    }

    /// Stored body bytes of the incomplete instruction, if any.
    pub open spec fn stored_bytes_spec(&self) -> nat {
        match self.view().incomplete {
            Some(p) => stored_total(p.fragments),
            None => 0,
        }
    }

    /// An empty reassembler that has seen time `started_at_ms`.
    pub fn new(started_at_ms: u64) -> (r: Self)
        ensures
            r.wf(),
            r.view() == (ReassemblerView { incomplete: None, last_observed_ms: started_at_ms }),
    {
        FragmentReassembler { incomplete: None, last_observed_ms: started_at_ms }
    }

    /// Pushes one authenticated fragment received at `now_ms`.
    pub fn push(&mut self, now_ms: u64, fragment: Fragment) -> (r: Result<
        ReassemblyOutcome,
        ReassemblyError,
    >)
        requires
            old(self).wf(),
        ensures
            final(self).wf(),
            ({
                let (s, result) = push_spec(
                    old(self).view(),
                    now_ms,
                    fragment.identifier,
                    fragment.number,
                    fragment.is_final,
                    fragment.body@,
                );
                &&& final(self).view() == s
                &&& match r {
                    Ok(o) => result == Ok::<OutcomeView, ReassemblyError>(o.view()),
                    Err(e) => result == Err::<OutcomeView, ReassemblyError>(e),
                }
            }),
    {
        self.observe_time(now_ms)?;
        self.expire_due(now_ms)?;
        if fragment.number as usize >= MAX_FRAGMENTS_PER_INSTRUCTION {
            return Err(ReassemblyError::FragmentNumberOutOfRange);
        }
        let matches_incomplete = match &self.incomplete {
            Some(instruction) => instruction.identifier == fragment.identifier,
            None => false,
        };
        if !matches_incomplete {
            if fragment.number == 0 && fragment.is_final {
                if fragment.body.len() <= MAX_COMPRESSED_INSTRUCTION_BYTES {
                    return Ok(ReassemblyOutcome::Complete(vstd::slice::slice_to_vec(fragment.body)));
                } else {
                    return Err(ReassemblyError::InstructionTooLarge);
                }
            }
            if self.incomplete.is_some() {
                return Err(ReassemblyError::TooManyIncompleteInstructions);
            }
            if fragment.body.len() > MAX_COMPRESSED_INSTRUCTION_BYTES {
                return Err(ReassemblyError::InstructionTooLarge);
            }
            let instruction = IncompleteInstruction::new(fragment.identifier, now_ms, &fragment);
            self.incomplete = Some(instruction);
            return Ok(ReassemblyOutcome::Pending);
        }
        let mut taken: Option<IncompleteInstruction> = None;
        core::mem::swap(&mut taken, &mut self.incomplete);
        let mut instruction = match taken {
            Some(instruction) => instruction,
            None => {
                return Err(ReassemblyError::ConflictingFragment);
            },
        };
        match instruction.classify(&fragment) {
            InsertKind::Conflict => {
                return Err(ReassemblyError::ConflictingFragment);
            },
            InsertKind::Duplicate => {
                self.incomplete = Some(instruction);
                return Ok(ReassemblyOutcome::Duplicate);
            },
            InsertKind::New => {},
        }
        if fragment.body.len() > MAX_COMPRESSED_INSTRUCTION_BYTES - instruction.stored_bytes {
            self.incomplete = Some(instruction);
            return Err(ReassemblyError::InstructionTooLarge);
        }
        instruction.insert(&fragment);
        if !instruction.is_complete() {
            self.incomplete = Some(instruction);
            return Ok(ReassemblyOutcome::Pending);
        }
        Ok(ReassemblyOutcome::Complete(instruction.assemble()))
    }

    /// Drops the incomplete instruction once its lifetime has ended at `now_ms`.
    pub fn expire(&mut self, now_ms: u64) -> (r: Result<usize, ReassemblyError>)
        requires
            old(self).wf(),
        ensures
            final(self).wf(),
            now_ms < old(self).view().last_observed_ms ==> r == Err::<usize, ReassemblyError>(
                ReassemblyError::TimeMovedBackwards,
            ) && final(self).view() == old(self).view(),
            now_ms >= old(self).view().last_observed_ms ==> ({
                let observed = ReassemblerView { last_observed_ms: now_ms, ..old(self).view() };
                match expire_spec(observed, now_ms) {
                    Ok((s, count)) => r == Ok::<usize, ReassemblyError>(count) && final(self).view()
                        == s,
                    Err(e) => r == Err::<usize, ReassemblyError>(e) && final(self).view()
                        == observed,
                }
            }),
    {
        self.observe_time(now_ms)?;
        self.expire_due(now_ms)
    }

    /// Drops the incomplete instruction and returns how many were dropped.
    pub fn clear(&mut self) -> (r: usize)
        requires
            old(self).wf(),
        ensures
            final(self).wf(),
            final(self).view() == (ReassemblerView { incomplete: None, ..old(self).view() }),
            r == (if old(self).view().incomplete is Some {
                1usize
            } else {
                0usize
            }),
    {
        let had = self.incomplete.is_some();
        self.incomplete = None;
        if had {
            1
        } else {
            0
        }
    }

    /// How many instructions are incomplete: zero or one.
    pub fn incomplete_count(&self) -> (r: usize)
        ensures
            r == (if self.view().incomplete is Some {
                1usize
            } else {
                0usize
            }),
    {
        if self.incomplete.is_some() {
            1
        } else {
            0
        }
    }

    /// The body bytes held for the incomplete instruction.
    pub fn stored_bytes(&self) -> (r: usize)
        requires
            self.wf(),
        ensures
            r == self.stored_bytes_spec(),
            r <= MAX_COMPRESSED_INSTRUCTION_BYTES,
    {
        match &self.incomplete {
            Some(instruction) => instruction.stored_bytes,
            None => 0,
        }
    }

    fn observe_time(&mut self, now_ms: u64) -> (r: Result<(), ReassemblyError>)
        requires
            old(self).wf(),
        ensures
            final(self).wf(),
            now_ms < old(self).view().last_observed_ms ==> r == Err::<(), ReassemblyError>(
                ReassemblyError::TimeMovedBackwards,
            ) && final(self).view() == old(self).view(),
            now_ms >= old(self).view().last_observed_ms ==> r is Ok && final(self).view() == (
            ReassemblerView { last_observed_ms: now_ms, ..old(self).view() }),
    {
        if now_ms < self.last_observed_ms {
            return Err(ReassemblyError::TimeMovedBackwards);
        }
        self.last_observed_ms = now_ms;
        Ok(())
    }

    fn expire_due(&mut self, now_ms: u64) -> (r: Result<usize, ReassemblyError>)
        requires
            old(self).wf(),
        ensures
            final(self).wf(),
            match expire_spec(old(self).view(), now_ms) {
                Ok((s, count)) => r == Ok::<usize, ReassemblyError>(count) && final(self).view() == s,
                Err(e) => r == Err::<usize, ReassemblyError>(e) && final(self).view() == old(self).view(),
            },
    {
        let expired = match &self.incomplete {
            Some(instruction) => {
                if instruction.created_at_ms > u64::MAX - INCOMPLETE_INSTRUCTION_LIFETIME_MS {
                    return Err(ReassemblyError::TimerExhausted);
                }
                instruction.created_at_ms + INCOMPLETE_INSTRUCTION_LIFETIME_MS <= now_ms
            },
            None => false,
        };
        if expired {
            self.incomplete = None;
            Ok(1)
        } else {
            Ok(0)
        }
    }
}

} // verus!
