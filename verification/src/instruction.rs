//! Transport instructions and the client's terminal operations: their
//! protocol-buffer form, the zlib layer around it, and the limits that every
//! encoded or decoded instruction obeys.
use vstd::prelude::*;

use miniz_oxide::deflate::compress_to_vec_zlib;
use miniz_oxide::inflate::stream::{inflate, InflateState};
use miniz_oxide::{DataFormat, MZFlush, MZStatus};

use crate::bytes::append_bytes;
use crate::limits::{
    MAX_CLIENT_OPERATIONS_AFTER_ACK, MAX_COMPRESSED_INSTRUCTION_BYTES,
    MAX_DECOMPRESSED_INSTRUCTION_BYTES, MAX_INPUT_COMMAND_BYTES, MAX_STATE_DIFFERENCE_BYTES,
    MAX_TERMINAL_COLUMNS, MAX_TERMINAL_ROWS,
};
use crate::protobuf::{
    fields_of, field_views, implicit_bytes_field, implicit_varint_field, len_field,
    lemma_fields_of_append, lemma_fields_of_implicit_bytes, lemma_fields_of_implicit_varint,
    lemma_fields_of_len_field, lemma_varint_bytes_len, push_len_field, push_varint_field,
    read_fields, varint_bytes, varint_field, FieldValue, WireValue, last_bytes, last_varint,
    key_bytes, WIRE_VARINT,
};

verus! {

/// The only supported transport protocol version.
pub const PROTOCOL_VERSION: u32 = 2;
/// The state number that marks a graceful-close instruction.
pub const SHUTDOWN_STATE: u64 = 0xffff_ffff_ffff_ffff;
/// Compression level of outgoing instructions.
pub const ZLIB_LEVEL: u8 = 6;

/// Why an instruction or client difference cannot be encoded or decoded.
#[derive(Clone, Copy, Debug, PartialEq, Eq, Structural)]
pub enum InstructionError {
    InvalidTerminalSize,
    DecodedTooLarge,
    CompressedTooLarge,
    InvalidCompression,
    TrailingCompressedData,
    InvalidMessage,
    IncompatibleVersion,
    InputTooLarge,
    TooManyClientOperations,
    StateDifferenceTooLarge,
}

/// One transport instruction: a state transition with its acknowledgement.
#[derive(Clone, Debug, PartialEq, Eq)]
pub struct TransportInstruction {
    pub protocol_version: u32,
    pub base_state: u64,
    pub new_state: u64,
    pub acknowledged_state: u64,
    pub discard_before_state: u64,
    pub state_difference: Vec<u8>,
    pub chaff: Vec<u8>,
}

/// The mathematical content of a transport instruction.
pub ghost struct InstructionFields {
    pub protocol_version: u32,
    pub base_state: u64,
    pub new_state: u64,
    pub acknowledged_state: u64,
    pub discard_before_state: u64,
    pub state_difference: Seq<u8>,
    pub chaff: Seq<u8>,
}

impl View for TransportInstruction {
    type V = InstructionFields;

    open spec fn view(&self) -> InstructionFields {
        InstructionFields {
            protocol_version: self.protocol_version,
            base_state: self.base_state,
            new_state: self.new_state,
            acknowledged_state: self.acknowledged_state,
            discard_before_state: self.discard_before_state,
            state_difference: self.state_difference@,
            chaff: self.chaff@,
        }
    }
}

/// The instruction whose every field holds its default.
pub open spec fn empty_instruction() -> InstructionFields {
    InstructionFields {
        protocol_version: 0,
        base_state: 0,
        new_state: 0,
        acknowledged_state: 0,
        discard_before_state: 0,
        state_difference: Seq::empty(),
        chaff: Seq::empty(),
    }
}

/// The wire form of an instruction: fields in number order, each omitted
/// when it holds its default.
pub open spec fn encode_instruction(x: InstructionFields) -> Seq<u8> {
    implicit_varint_field(1, x.protocol_version as u64) + implicit_varint_field(2, x.base_state)
        + implicit_varint_field(3, x.new_state) + implicit_varint_field(4, x.acknowledged_state)
        + implicit_varint_field(5, x.discard_before_state) + implicit_bytes_field(
        6,
        x.state_difference,
    ) + implicit_bytes_field(7, x.chaff)
}

/// Applies one decoded field: a later field replaces an earlier one, a
/// field of another number is skipped, and a known field of the wrong wire
/// type makes the message invalid.
pub open spec fn apply_instruction_field(acc: InstructionFields, f: (u64, WireValue)) -> Option<
    InstructionFields,
> {
    let (tag, value) = f;
    if 1 <= tag <= 5 {
        match value {
            WireValue::Varint(v) => Some(
                if tag == 1 {
                    InstructionFields { protocol_version: v as u32, ..acc }
                } else if tag == 2 {
                    InstructionFields { base_state: v, ..acc }
                } else if tag == 3 {
                    InstructionFields { new_state: v, ..acc }
                } else if tag == 4 {
                    InstructionFields { acknowledged_state: v, ..acc }
                } else {
                    InstructionFields { discard_before_state: v, ..acc }
                },
            ),
            _ => None,
        }
    } else if tag == 6 || tag == 7 {
        match value {
            WireValue::Bytes(b) => Some(
                if tag == 6 {
                    InstructionFields { state_difference: b, ..acc }
                } else {
                    InstructionFields { chaff: b, ..acc }
                },
            ),
            _ => None,
        }
    } else {
        Some(acc)
    }
}

/// Applies decoded fields in order, starting from `acc`.
pub open spec fn apply_instruction_fields(acc: InstructionFields, fs: Seq<(u64, WireValue)>) -> Option<
    InstructionFields,
>
    decreases fs.len(),
{
    if fs.len() == 0 {
        Some(acc)
    } else {
        match apply_instruction_fields(acc, fs.drop_last()) {
            None => None,
            Some(a) => apply_instruction_field(a, fs.last()),
        }
    }
}

/// The instruction a message decodes to, or `None` when it is malformed.
pub open spec fn decode_instruction(s: Seq<u8>) -> Option<InstructionFields> {
    match fields_of(s) {
        None => None,
        Some(fs) => apply_instruction_fields(empty_instruction(), fs),
    }
}

proof fn lemma_apply_instruction_append(
    acc: InstructionFields,
    a: Seq<(u64, WireValue)>,
    b: Seq<(u64, WireValue)>,
)
    ensures
        apply_instruction_fields(acc, a + b) == match apply_instruction_fields(acc, a) {
            None => None,
            Some(m) => apply_instruction_fields(m, b),
        },
    decreases b.len(),
{
    if b.len() == 0 {
        assert(a + b =~= a);
    } else {
        lemma_apply_instruction_append(acc, a, b.drop_last());
        assert((a + b).drop_last() =~= a + b.drop_last());
        assert((a + b).last() == b.last());
    }
}

/// The decoded fields of an implicit varint field.
pub open spec fn present_varint(tag: u64, v: u64) -> Seq<(u64, WireValue)> {
    if v == 0 {
        Seq::empty()
    } else {
        seq![(tag, WireValue::Varint(v))]
    }
}

/// The decoded fields of an implicit bytes field.
pub open spec fn present_bytes(tag: u64, b: Seq<u8>) -> Seq<(u64, WireValue)> {
    if b.len() == 0 {
        Seq::empty()
    } else {
        seq![(tag, WireValue::Bytes(b))]
    }
}

proof fn lemma_apply_one(acc: InstructionFields, fs: Seq<(u64, WireValue)>, f: (u64, WireValue))
    requires
        fs == seq![f],
    ensures
        apply_instruction_fields(acc, fs) == apply_instruction_field(acc, f),
{
    assert(fs.drop_last() =~= Seq::<(u64, WireValue)>::empty());
    assert(apply_instruction_fields(acc, fs.drop_last()) == Some(acc));
    assert(fs.last() == f);
}

/// The decoded fields of an encoded instruction.
pub open spec fn instruction_field_list(x: InstructionFields) -> Seq<(u64, WireValue)> {
    present_varint(1, x.protocol_version as u64) + present_varint(2, x.base_state)
        + present_varint(3, x.new_state) + present_varint(4, x.acknowledged_state)
        + present_varint(5, x.discard_before_state) + present_bytes(6, x.state_difference)
        + present_bytes(7, x.chaff)
}

#[verifier::spinoff_prover]
proof fn lemma_encode_instruction_fields(x: InstructionFields)
    requires
        x.state_difference.len() <= u64::MAX,
        x.chaff.len() <= u64::MAX,
    ensures
        fields_of(encode_instruction(x)) == Some(instruction_field_list(x)),
{
    let e1 = implicit_varint_field(1, x.protocol_version as u64);
    let e2 = implicit_varint_field(2, x.base_state);
    let e3 = implicit_varint_field(3, x.new_state);
    let e4 = implicit_varint_field(4, x.acknowledged_state);
    let e5 = implicit_varint_field(5, x.discard_before_state);
    let e6 = implicit_bytes_field(6, x.state_difference);
    let e7 = implicit_bytes_field(7, x.chaff);
    lemma_fields_of_implicit_varint(1, x.protocol_version as u64);
    lemma_fields_of_implicit_varint(2, x.base_state);
    lemma_fields_of_implicit_varint(3, x.new_state);
    lemma_fields_of_implicit_varint(4, x.acknowledged_state);
    lemma_fields_of_implicit_varint(5, x.discard_before_state);
    lemma_fields_of_implicit_bytes(6, x.state_difference);
    lemma_fields_of_implicit_bytes(7, x.chaff);
    lemma_fields_of_append(e1, e2);
    lemma_fields_of_append(e1 + e2, e3);
    lemma_fields_of_append(e1 + e2 + e3, e4);
    lemma_fields_of_append(e1 + e2 + e3 + e4, e5);
    lemma_fields_of_append(e1 + e2 + e3 + e4 + e5, e6);
    lemma_fields_of_append(e1 + e2 + e3 + e4 + e5 + e6, e7);
}

proof fn lemma_apply_present_varint(acc: InstructionFields, tag: u64, v: u64, next: InstructionFields)
    requires
        1 <= tag <= 5,
        next == apply_instruction_field(acc, (tag, WireValue::Varint(v)))->0,
        v == 0 ==> next == acc,
    ensures
        apply_instruction_fields(acc, present_varint(tag, v)) == Some(next),
{
    if v != 0 {
        lemma_apply_one(acc, present_varint(tag, v), (tag, WireValue::Varint(v)));
    } else {
        assert(present_varint(tag, v) =~= Seq::<(u64, WireValue)>::empty());
    }
}

proof fn lemma_apply_present_bytes(
    acc: InstructionFields,
    tag: u64,
    b: Seq<u8>,
    next: InstructionFields,
)
    requires
        tag == 6 || tag == 7,
        next == apply_instruction_field(acc, (tag, WireValue::Bytes(b)))->0,
        b.len() == 0 ==> next == acc,
    ensures
        apply_instruction_fields(acc, present_bytes(tag, b)) == Some(next),
{
    if b.len() != 0 {
        lemma_apply_one(acc, present_bytes(tag, b), (tag, WireValue::Bytes(b)));
    } else {
        assert(present_bytes(tag, b) =~= Seq::<(u64, WireValue)>::empty());
    }
}

#[verifier::spinoff_prover]
proof fn lemma_apply_instruction_field_list(x: InstructionFields)
    ensures
        apply_instruction_fields(empty_instruction(), instruction_field_list(x)) == Some(x),
{
    let f1 = present_varint(1, x.protocol_version as u64);
    let f2 = present_varint(2, x.base_state);
    let f3 = present_varint(3, x.new_state);
    let f4 = present_varint(4, x.acknowledged_state);
    let f5 = present_varint(5, x.discard_before_state);
    let f6 = present_bytes(6, x.state_difference);
    let f7 = present_bytes(7, x.chaff);
    let d = empty_instruction();
    let m1 = InstructionFields { protocol_version: x.protocol_version, ..d };
    let m2 = InstructionFields { base_state: x.base_state, ..m1 };
    let m3 = InstructionFields { new_state: x.new_state, ..m2 };
    let m4 = InstructionFields { acknowledged_state: x.acknowledged_state, ..m3 };
    let m5 = InstructionFields { discard_before_state: x.discard_before_state, ..m4 };
    let m6 = InstructionFields { state_difference: x.state_difference, ..m5 };
    assert((x.protocol_version as u64) as u32 == x.protocol_version);
    lemma_apply_present_varint(d, 1, x.protocol_version as u64, m1);
    lemma_apply_present_varint(m1, 2, x.base_state, m2);
    lemma_apply_present_varint(m2, 3, x.new_state, m3);
    lemma_apply_present_varint(m3, 4, x.acknowledged_state, m4);
    lemma_apply_present_varint(m4, 5, x.discard_before_state, m5);
    if x.state_difference.len() == 0 {
        assert(x.state_difference =~= Seq::<u8>::empty());
    }
    lemma_apply_present_bytes(m5, 6, x.state_difference, m6);
    if x.chaff.len() == 0 {
        assert(x.chaff =~= Seq::<u8>::empty());
    }
    lemma_apply_present_bytes(m6, 7, x.chaff, x);
    lemma_apply_instruction_append(d, f1, f2);
    lemma_apply_instruction_append(d, f1 + f2, f3);
    lemma_apply_instruction_append(d, f1 + f2 + f3, f4);
    lemma_apply_instruction_append(d, f1 + f2 + f3 + f4, f5);
    lemma_apply_instruction_append(d, f1 + f2 + f3 + f4 + f5, f6);
    lemma_apply_instruction_append(d, f1 + f2 + f3 + f4 + f5 + f6, f7);
}

/// Decoding the encoding of an instruction gives the instruction back.
pub proof fn law_instruction_roundtrip(x: InstructionFields)
    requires
        x.state_difference.len() <= u64::MAX,
        x.chaff.len() <= u64::MAX,
    ensures
        decode_instruction(encode_instruction(x)) == Some(x),
{
    lemma_encode_instruction_fields(x);
    lemma_apply_instruction_field_list(x);
}

/// Whether every field of `fs` has the wire type its number calls for:
/// numbers one to five are varints, six and seven are bytes.
pub open spec fn instruction_wire_types_ok(fs: Seq<(u64, WireValue)>) -> bool {
    forall|k: int|
        0 <= k < fs.len() ==> (1 <= (#[trigger] fs[k]).0 <= 5 ==> fs[k].1 is Varint) && (6
            <= fs[k].0 <= 7 ==> fs[k].1 is Bytes)
}

/// Reading fields from the default instruction: each field number sets its
/// own field, to the last value the message gives it.
proof fn lemma_apply_reads_field_numbers(fs: Seq<(u64, WireValue)>)
    ensures
        apply_instruction_fields(empty_instruction(), fs) is Some <==> instruction_wire_types_ok(fs),
        apply_instruction_fields(empty_instruction(), fs) matches Some(x) ==> {
            &&& x.protocol_version == last_varint(fs, 1) as u32
            &&& x.base_state == last_varint(fs, 2)
            &&& x.new_state == last_varint(fs, 3)
            &&& x.acknowledged_state == last_varint(fs, 4)
            &&& x.discard_before_state == last_varint(fs, 5)
            &&& x.state_difference == last_bytes(fs, 6)
            &&& x.chaff == last_bytes(fs, 7)
        },
    decreases fs.len(),
{
    if fs.len() > 0 {
        let init = fs.drop_last();
        lemma_apply_reads_field_numbers(init);
        let f = fs.last();
        assert(fs[fs.len() - 1] == f);
        assert forall|k: int| 0 <= k < init.len() implies #[trigger] init[k] == fs[k] by {}
        if instruction_wire_types_ok(fs) {
            assert forall|k: int| 0 <= k < init.len() implies (1 <= (#[trigger] init[k]).0 <= 5
                ==> init[k].1 is Varint) && (6 <= init[k].0 <= 7 ==> init[k].1 is Bytes) by {
                assert(init[k] == fs[k]);
            }
        }
        if instruction_wire_types_ok(init) && !instruction_wire_types_ok(fs) {
            let k = choose|k: int|
                0 <= k < fs.len() && !((1 <= (#[trigger] fs[k]).0 <= 5 ==> fs[k].1 is Varint) && (6
                    <= fs[k].0 <= 7 ==> fs[k].1 is Bytes));
            if k < init.len() {
                assert(init[k] == fs[k]);
            }
        }
    } else {
        assert(empty_instruction().state_difference =~= last_bytes(fs, 6));
        assert(empty_instruction().chaff =~= last_bytes(fs, 7));
    }
}

/// How a message decodes: it decodes exactly when it is well-formed
/// protocol buffers whose fields one to five are varints and six and seven
/// bytes, and then field 1 is the protocol version, 2 the base state, 3 the
/// new state, 4 the acknowledged state, 5 the state below which the peer may
/// discard, 6 the state difference and 7 the chaff, each the last value the
/// message gives that field (its default when absent). Other field numbers
/// are skipped.
pub proof fn law_instruction_decode_reads_field_numbers(s: Seq<u8>)
    ensures
        decode_instruction(s) is Some <==> (fields_of(s) matches Some(fs)
            && instruction_wire_types_ok(fs)),
        decode_instruction(s) matches Some(x) ==> {
            let fs = fields_of(s)->0;
            &&& x.protocol_version == last_varint(fs, 1) as u32
            &&& x.base_state == last_varint(fs, 2)
            &&& x.new_state == last_varint(fs, 3)
            &&& x.acknowledged_state == last_varint(fs, 4)
            &&& x.discard_before_state == last_varint(fs, 5)
            &&& x.state_difference == last_bytes(fs, 6)
            &&& x.chaff == last_bytes(fs, 7)
        },
{
    if fields_of(s) is Some {
        lemma_apply_reads_field_numbers(fields_of(s)->0);
    }
}

/// The fields of an encoded instruction carry their numbers: reading the
/// encoding as protocol buffers gives the protocol version in field 1, the
/// base state in 2, the new state in 3, the acknowledged state in 4, the
/// discard-before state in 5, the state difference in 6 and the chaff in 7,
/// every field a varint or bytes as its number calls for. Field 4's key is
/// the byte 0x20 and field 5's is 0x28.
pub proof fn law_instruction_encode_field_numbers(x: InstructionFields)
    requires
        x.state_difference.len() <= u64::MAX,
        x.chaff.len() <= u64::MAX,
    ensures
        fields_of(encode_instruction(x)) matches Some(fs) && instruction_wire_types_ok(fs)
            && last_varint(fs, 1) as u32 == x.protocol_version && last_varint(fs, 2)
            == x.base_state && last_varint(fs, 3) == x.new_state && last_varint(fs, 4)
            == x.acknowledged_state && last_varint(fs, 5) == x.discard_before_state && last_bytes(
            fs,
            6,
        ) == x.state_difference && last_bytes(fs, 7) == x.chaff,
        key_bytes(4, WIRE_VARINT) == seq![0x20u8],
        key_bytes(5, WIRE_VARINT) == seq![0x28u8],
{
    law_instruction_roundtrip(x);
    law_instruction_decode_reads_field_numbers(encode_instruction(x));
    assert(varint_bytes(32) == seq![32u8]);
    assert(varint_bytes(40) == seq![40u8]);
}

impl TransportInstruction {
    /// Whether this instruction requests a graceful close.
    pub fn is_shutdown(&self) -> (r: bool)
        ensures
            r == (self.new_state == SHUTDOWN_STATE),
    {
        self.new_state == SHUTDOWN_STATE
    }

    /// The protocol-buffer form of this instruction.
    pub fn encode(&self) -> (r: Vec<u8>)
        ensures
            r@ == encode_instruction(self@),
    {
        let mut out: Vec<u8> = Vec::new();
        if self.protocol_version != 0 {
            push_varint_field(&mut out, 1, self.protocol_version as u64);
        }
        if self.base_state != 0 {
            push_varint_field(&mut out, 2, self.base_state);
        }
        if self.new_state != 0 {
            push_varint_field(&mut out, 3, self.new_state);
        }
        if self.acknowledged_state != 0 {
            push_varint_field(&mut out, 4, self.acknowledged_state);
        }
        if self.discard_before_state != 0 {
            push_varint_field(&mut out, 5, self.discard_before_state);
        }
        if self.state_difference.len() != 0 {
            push_len_field(&mut out, 6, self.state_difference.as_slice());
        }
        if self.chaff.len() != 0 {
            push_len_field(&mut out, 7, self.chaff.as_slice());
        }
        proof {
            let x = self@;
            assert(implicit_bytes_field(6, x.state_difference) == if x.state_difference.len() == 0 {
                Seq::<u8>::empty()
            } else {
                len_field(6, x.state_difference)
            });
        }
        assert(out@ =~= encode_instruction(self@));
        out
    }

    /// Parses the protocol-buffer form of an instruction.
    pub fn decode(bytes: &[u8]) -> (r: Option<TransportInstruction>)
        ensures
            match decode_instruction(bytes@) {
                None => r is None,
                Some(x) => r matches Some(t) && t@ == x,
            },
    {
        let fields = match read_fields(bytes) {
            None => {
                return None;
            },
            Some(f) => f,
        };
        let ghost fs = field_views(fields@);
        let mut out = TransportInstruction {
            protocol_version: 0,
            base_state: 0,
            new_state: 0,
            acknowledged_state: 0,
            discard_before_state: 0,
            state_difference: Vec::new(),
            chaff: Vec::new(),
        };
        assert(out@ == empty_instruction());
        let mut i: usize = 0;
        assert(fs.take(0) =~= Seq::<(u64, WireValue)>::empty());
        while i < fields.len()
            invariant
                i <= fields@.len(),
                fs == field_views(fields@),
                fields_of(bytes@) == Some(fs),
                apply_instruction_fields(empty_instruction(), fs.take(i as int)) == Some(out@),
            decreases fields@.len() - i,
        {
            let field = &fields[i];
            let tag = field.tag;
            proof {
                assert(fs.take(i + 1).drop_last() =~= fs.take(i as int));
                assert(fs.take(i + 1).last() == fs[i as int]);
                assert(fs[i as int] == fields@[i as int].view());
            }
            if 1 <= tag && tag <= 5 {
                match field.value {
                    FieldValue::Varint(v) => {
                        if tag == 1 {
                            out.protocol_version = v as u32;
                        } else if tag == 2 {
                            out.base_state = v;
                        } else if tag == 3 {
                            out.new_state = v;
                        } else if tag == 4 {
                            out.acknowledged_state = v;
                        } else {
                            out.discard_before_state = v;
                        }
                    },
                    _ => {
                        proof {
                            lemma_apply_prefix_fails(fs, (i + 1) as nat);
                        }
                        return None;
                    },
                }
            } else if tag == 6 || tag == 7 {
                match field.value {
                    FieldValue::Bytes(b) => {
                        let mut copy: Vec<u8> = Vec::new();
                        append_bytes(&mut copy, b);
                        assert(copy@ =~= b@);
                        if tag == 6 {
                            out.state_difference = copy;
                        } else {
                            out.chaff = copy;
                        }
                    },
                    _ => {
                        proof {
                            lemma_apply_prefix_fails(fs, (i + 1) as nat);
                        }
                        return None;
                    },
                }
            }
            i = i + 1;
        }
        assert(fs.take(i as int) =~= fs);
        Some(out)
    }
}

/// Once a prefix of the fields is invalid, the whole message is.
proof fn lemma_apply_prefix_fails(fs: Seq<(u64, WireValue)>, k: nat)
    requires
        k <= fs.len(),
        apply_instruction_fields(empty_instruction(), fs.take(k as int)) is None,
    ensures
        apply_instruction_fields(empty_instruction(), fs) is None,
{
    lemma_apply_instruction_append(
        empty_instruction(),
        fs.take(k as int),
        fs.subrange(k as int, fs.len() as int),
    );
    assert(fs.take(k as int) + fs.subrange(k as int, fs.len() as int) =~= fs);
}


/// What `miniz_oxide::deflate::compress_to_vec_zlib` returns for `input` at
/// compression level `level`.
pub uninterp spec fn zlib_compressed(input: Seq<u8>, level: u8) -> Seq<u8>;

/// What a one-shot zlib decompression of `input` into an output buffer of
/// `capacity` bytes reports: whether the stream ended, how many input bytes
/// it consumed, and the bytes it wrote.
pub uninterp spec fn zlib_inflated(input: Seq<u8>, capacity: nat) -> (bool, nat, Seq<u8>);

/// Calls `miniz_oxide::deflate::compress_to_vec_zlib`. The contract names the
/// result and states the defining promise of a compressor: the one-shot
/// decompression of the result, into a buffer larger than `input`, ends the
/// stream, consumes all of it, and yields `input`.
#[verifier::external_body]
fn compress_zlib(input: &[u8], level: u8) -> (r: Vec<u8>)
    requires
        level <= 10,
    ensures
        r@ == zlib_compressed(input@, level),
        forall|capacity: nat|
            capacity > input@.len() ==> #[trigger] zlib_inflated(r@, capacity) == (
                true,
                r@.len(),
                input@,
            ),
{
    compress_to_vec_zlib(input, level)
}

/// Calls `miniz_oxide::inflate::stream::inflate` once, with a fresh zlib
/// state, `MZFlush::Finish`, and an output buffer of `capacity` bytes. The
/// contract names the outcome and states that no more bytes are consumed
/// than given and no more are written than fit.
#[verifier::external_body]
fn inflate_zlib(input: &[u8], capacity: usize) -> (r: (bool, usize, Vec<u8>))
    ensures
        (r.0, r.1 as nat, r.2@) == zlib_inflated(input@, capacity as nat),
        r.1 <= input@.len(),
        r.2@.len() <= capacity,
{
    let mut state = InflateState::new_boxed(DataFormat::Zlib);
    let mut output = vec![0u8; capacity];
    let result = inflate(&mut state, input, &mut output, MZFlush::Finish);
    output.truncate(result.bytes_written);
    (matches!(result.status, Ok(MZStatus::StreamEnd)), result.bytes_consumed, output)
}

/// The outcome of decompressing `input` with the decompressed-size limit.
pub open spec fn inflation_result(done: bool, consumed: nat, output: Seq<u8>, input_len: nat) -> Result<
    Seq<u8>,
    InstructionError,
> {
    if output.len() > MAX_DECOMPRESSED_INSTRUCTION_BYTES {
        Err(InstructionError::DecodedTooLarge)
    } else if !done {
        Err(InstructionError::InvalidCompression)
    } else if consumed != input_len {
        Err(InstructionError::TrailingCompressedData)
    } else {
        Ok(output)
    }
}

/// Classifies a decompression outcome: too much output, a stream that did
/// not end, bytes after the stream's end, or the decompressed bytes.
pub fn classify_inflation(done: bool, consumed: usize, output: Vec<u8>, input_len: usize) -> (r:
    Result<Vec<u8>, InstructionError>)
    ensures
        match inflation_result(done, consumed as nat, output@, input_len as nat) {
            Ok(b) => r matches Ok(v) && v@ == b,
            Err(e) => r == Err::<Vec<u8>, InstructionError>(e),
        },
{
    if output.len() > MAX_DECOMPRESSED_INSTRUCTION_BYTES {
        return Err(InstructionError::DecodedTooLarge);
    }
    if !done {
        return Err(InstructionError::InvalidCompression);
    }
    if consumed != input_len {
        return Err(InstructionError::TrailingCompressedData);
    }
    Ok(output)
}

/// The zlib stream in `compressed`, decompressed, with no byte after its end
/// and at most the decompressed-instruction limit of output.
pub open spec fn decompressed_result(compressed: Seq<u8>) -> Result<Seq<u8>, InstructionError> {
    let (done, consumed, output) = zlib_inflated(
        compressed,
        (MAX_DECOMPRESSED_INSTRUCTION_BYTES + 1) as nat,
    );
    inflation_result(done, consumed, output, compressed.len())
}

/// Decompresses one zlib stream that must fill `compressed` exactly.
pub fn decompress_exact_zlib(compressed: &[u8]) -> (r: Result<Vec<u8>, InstructionError>)
    ensures
        match decompressed_result(compressed@) {
            Ok(b) => r matches Ok(v) && v@ == b,
            Err(e) => r == Err::<Vec<u8>, InstructionError>(e),
        },
{
    let (done, consumed, output) = inflate_zlib(compressed, MAX_DECOMPRESSED_INSTRUCTION_BYTES + 1);
    classify_inflation(done, consumed, output, compressed.len())
}

/// The outcome of compressing an encoded instruction under the size limits.
pub open spec fn compression_result(encoded: Seq<u8>) -> Result<Seq<u8>, InstructionError> {
    if encoded.len() > MAX_DECOMPRESSED_INSTRUCTION_BYTES {
        Err(InstructionError::DecodedTooLarge)
    } else if zlib_compressed(encoded, ZLIB_LEVEL).len() > MAX_COMPRESSED_INSTRUCTION_BYTES {
        Err(InstructionError::CompressedTooLarge)
    } else {
        Ok(zlib_compressed(encoded, ZLIB_LEVEL))
    }
}

/// The outcome of reading a compressed instruction.
pub open spec fn decode_zlib_result(compressed: Seq<u8>) -> Result<InstructionFields, InstructionError> {
    if compressed.len() > MAX_COMPRESSED_INSTRUCTION_BYTES {
        Err(InstructionError::CompressedTooLarge)
    } else {
        match decompressed_result(compressed) {
            Err(e) => Err(e),
            Ok(decoded) => match decode_instruction(decoded) {
                None => Err(InstructionError::InvalidMessage),
                Some(x) => if x.protocol_version != PROTOCOL_VERSION {
                    Err(InstructionError::IncompatibleVersion)
                } else {
                    Ok(x)
                },
            },
        }
    }
}

/// Checks a compressed instruction against the compressed-size limit.
pub fn check_compressed(compressed: Vec<u8>) -> (r: Result<Vec<u8>, InstructionError>)
    ensures
        compressed@.len() > MAX_COMPRESSED_INSTRUCTION_BYTES ==> r == Err::<Vec<u8>, InstructionError>(
            InstructionError::CompressedTooLarge,
        ),
        compressed@.len() <= MAX_COMPRESSED_INSTRUCTION_BYTES ==> (r matches Ok(v) && v@
            == compressed@),
{
    if compressed.len() > MAX_COMPRESSED_INSTRUCTION_BYTES {
        return Err(InstructionError::CompressedTooLarge);
    }
    Ok(compressed)
}

impl TransportInstruction {
    /// The compressed wire form of this instruction. What it returns,
    /// `decode_zlib` reads back as this instruction whenever the protocol
    /// version is the supported one.
    pub fn encode_zlib(&self) -> (r: Result<Vec<u8>, InstructionError>)
        ensures
            match compression_result(encode_instruction(self@)) {
                Ok(b) => r matches Ok(v) && v@ == b,
                Err(e) => r == Err::<Vec<u8>, InstructionError>(e),
            },
            r matches Ok(v) ==> decode_zlib_result(v@) == (if self.protocol_version
                == PROTOCOL_VERSION {
                Ok::<InstructionFields, InstructionError>(self@)
            } else {
                Err(InstructionError::IncompatibleVersion)
            }),
    {
        let encoded = self.encode();
        if encoded.len() > MAX_DECOMPRESSED_INSTRUCTION_BYTES {
            return Err(InstructionError::DecodedTooLarge);
        }
        let compressed = compress_zlib(encoded.as_slice(), ZLIB_LEVEL);
        let r = check_compressed(compressed);
        proof {
            if r is Ok {
                let c = r->Ok_0@;
                assert(zlib_inflated(c, (MAX_DECOMPRESSED_INSTRUCTION_BYTES + 1) as nat) == (
                    true,
                    c.len(),
                    encoded@,
                ));
                law_instruction_roundtrip(self@);
            }
        }
        r
    }

    /// Reads a compressed instruction of the supported protocol version.
    pub fn decode_zlib(compressed: &[u8]) -> (r: Result<TransportInstruction, InstructionError>)
        ensures
            match decode_zlib_result(compressed@) {
                Ok(x) => r matches Ok(t) && t@ == x,
                Err(e) => r == Err::<TransportInstruction, InstructionError>(e),
            },
    {
        if compressed.len() > MAX_COMPRESSED_INSTRUCTION_BYTES {
            return Err(InstructionError::CompressedTooLarge);
        }
        let decoded = match decompress_exact_zlib(compressed) {
            Err(e) => {
                return Err(e);
            },
            Ok(d) => d,
        };
        let instruction = match TransportInstruction::decode(decoded.as_slice()) {
            None => {
                return Err(InstructionError::InvalidMessage);
            },
            Some(i) => i,
        };
        if instruction.protocol_version != PROTOCOL_VERSION {
            return Err(InstructionError::IncompatibleVersion);
        }
        Ok(instruction)
    }
}


/// One client operation of the user's input stream.
#[derive(Clone, Debug, PartialEq, Eq)]
pub enum ClientOperation {
    Input(Vec<u8>),
    Resize { columns: u32, rows: u32 },
}

/// Whether a terminal size is inside the supported bounds.
pub open spec fn valid_terminal_size(columns: u32, rows: u32) -> bool {
    1 <= columns <= MAX_TERMINAL_COLUMNS && 1 <= rows <= MAX_TERMINAL_ROWS
}

/// The limit that one operation breaks, if any.
pub open spec fn operation_error(op: ClientOperation) -> Option<InstructionError> {
    match op {
        ClientOperation::Input(b) => if b@.len() > MAX_INPUT_COMMAND_BYTES {
            Some(InstructionError::InputTooLarge)
        } else {
            None
        },
        ClientOperation::Resize { columns, rows } => if !valid_terminal_size(columns, rows) {
            Some(InstructionError::InvalidTerminalSize)
        } else {
            None
        },
    }
}

/// The limit broken by the first operation that breaks one.
pub open spec fn first_operation_error(ops: Seq<ClientOperation>) -> Option<InstructionError>
    decreases ops.len(),
{
    if ops.len() == 0 {
        None
    } else {
        match operation_error(ops[0]) {
            Some(e) => Some(e),
            None => first_operation_error(ops.drop_first()),
        }
    }
}

/// The wire form of one operation message.
pub open spec fn operation_bytes(op: ClientOperation) -> Seq<u8> {
    match op {
        ClientOperation::Input(b) => len_field(2, implicit_bytes_field(4, b@)),
        ClientOperation::Resize { columns, rows } => len_field(
            3,
            implicit_varint_field(5, columns as u64) + implicit_varint_field(6, rows as u64),
        ),
    }
}

/// The wire form of a client difference: each operation in order.
pub open spec fn client_difference_bytes(ops: Seq<ClientOperation>) -> Seq<u8>
    decreases ops.len(),
{
    if ops.len() == 0 {
        Seq::empty()
    } else {
        client_difference_bytes(ops.drop_last()) + len_field(1, operation_bytes(ops.last()))
    }
}

/// What encoding a client difference gives: the operation-count limit is
/// checked first, then each operation in order, then the encoded size.
pub open spec fn client_difference_result(ops: Seq<ClientOperation>) -> Result<
    Seq<u8>,
    InstructionError,
> {
    if ops.len() > MAX_CLIENT_OPERATIONS_AFTER_ACK {
        Err(InstructionError::TooManyClientOperations)
    } else {
        match first_operation_error(ops) {
            Some(e) => Err(e),
            None => if client_difference_bytes(ops).len() > MAX_STATE_DIFFERENCE_BYTES {
                Err(InstructionError::StateDifferenceTooLarge)
            } else {
                Ok(client_difference_bytes(ops))
            },
        }
    }
}

/// Whether `message`, read as protocol buffers, is the operation message of
/// `op`: one field, number 2 for input and 3 for a resize, whose payload
/// holds the input bytes in field 4, or the columns in field 5 and the rows
/// in field 6.
pub open spec fn reads_as_operation(op: ClientOperation, message: Seq<u8>) -> bool {
    match fields_of(message) {
        None => false,
        Some(gs) => gs.len() == 1 && gs[0].1 is Bytes && match fields_of(gs[0].1->Bytes_0) {
            None => false,
            Some(hs) => match op {
                ClientOperation::Input(b) => gs[0].0 == 2 && last_bytes(hs, 4) == b@ && forall|
                    k: int,
                | 0 <= k < hs.len() ==> (#[trigger] hs[k]).0 == 4 && hs[k].1 is Bytes,
                ClientOperation::Resize { columns, rows } => gs[0].0 == 3 && last_varint(hs, 5)
                    == columns as u64 && last_varint(hs, 6) == rows as u64 && forall|k: int|
                    0 <= k < hs.len() ==> ((#[trigger] hs[k]).0 == 5 || hs[k].0 == 6)
                        && hs[k].1 is Varint,
            },
        },
    }
}

proof fn lemma_input_field_numbers(op: ClientOperation)
    requires
        op is Input,
        operation_error(op) is None,
    ensures
        reads_as_operation(op, operation_bytes(op)),
        operation_bytes(op).len() <= MAX_INPUT_COMMAND_BYTES + 64,
{
    let b = op->Input_0;
    let inner = implicit_bytes_field(4, b@);
    lemma_fields_of_implicit_bytes(4, b@);
    if b@.len() != 0 {
        lemma_varint_bytes_len(b@.len());
        lemma_varint_bytes_len(34);
    }
    lemma_fields_of_len_field(2, inner);
    lemma_varint_bytes_len(inner.len());
    lemma_varint_bytes_len(18);
    let gs = fields_of(operation_bytes(op))->0;
    assert(operation_bytes(op) == len_field(2, inner));
    assert(gs == seq![(2u64, WireValue::Bytes(inner))]);
    let hs = fields_of(inner)->0;
    if b@.len() == 0 {
        assert(last_bytes(hs, 4) =~= b@);
    } else {
        assert(hs.last() == (4u64, WireValue::Bytes(b@)));
    }
}

proof fn lemma_last_varint_push(fs: Seq<(u64, WireValue)>, f: (u64, WireValue), tag: u64)
    ensures
        last_varint(fs.push(f), tag) == if f.0 == tag && f.1 is Varint {
            f.1->Varint_0
        } else {
            last_varint(fs, tag)
        },
{
    assert(fs.push(f).drop_last() =~= fs);
    assert(fs.push(f).last() == f);
}

proof fn lemma_resize_field_numbers(op: ClientOperation)
    requires
        op is Resize,
    ensures
        reads_as_operation(op, operation_bytes(op)),
        operation_bytes(op).len() <= 64,
{
    let columns = op->columns;
    let rows = op->rows;
    let c = implicit_varint_field(5, columns as u64);
    let r = implicit_varint_field(6, rows as u64);
    lemma_fields_of_implicit_varint(5, columns as u64);
    lemma_fields_of_implicit_varint(6, rows as u64);
    lemma_fields_of_append(c, r);
    lemma_varint_bytes_len(columns as nat);
    lemma_varint_bytes_len(rows as nat);
    lemma_varint_bytes_len(40);
    lemma_varint_bytes_len(48);
    lemma_fields_of_len_field(3, c + r);
    lemma_varint_bytes_len((c + r).len());
    lemma_varint_bytes_len(26);
    assert(operation_bytes(op) == len_field(3, c + r));
    let gs = fields_of(operation_bytes(op))->0;
    assert(gs == seq![(3u64, WireValue::Bytes(c + r))]);
    let hs = fields_of(c + r)->0;
    let vc = (5u64, WireValue::Varint(columns as u64));
    let vr = (6u64, WireValue::Varint(rows as u64));
    let e = Seq::<(u64, WireValue)>::empty();
    if columns == 0 && rows == 0 {
        assert(hs =~= e);
    } else if columns == 0 {
        assert(hs =~= e.push(vr));
        lemma_last_varint_push(e, vr, 5);
        lemma_last_varint_push(e, vr, 6);
    } else if rows == 0 {
        assert(hs =~= e.push(vc));
        lemma_last_varint_push(e, vc, 5);
        lemma_last_varint_push(e, vc, 6);
    } else {
        assert(hs =~= e.push(vc).push(vr));
        lemma_last_varint_push(e, vc, 5);
        lemma_last_varint_push(e, vc, 6);
        lemma_last_varint_push(e.push(vc), vr, 5);
        lemma_last_varint_push(e.push(vc), vr, 6);
    }
    assert(last_varint(hs, 5) == columns as u64);
    assert(last_varint(hs, 6) == rows as u64);
    assert forall|k: int| 0 <= k < hs.len() implies ((#[trigger] hs[k]).0 == 5 || hs[k].0 == 6)
        && hs[k].1 is Varint by {}
}

/// The fields of an encoded client difference carry their numbers: read as
/// protocol buffers, it is one field number 1 per operation, in order, and
/// each holds that operation's message (input in field 2 with its bytes in
/// field 4; a resize in field 3 with its columns in field 5 and its rows in
/// field 6).
pub proof fn law_client_difference_field_numbers(ops: Seq<ClientOperation>)
    requires
        forall|i: int| 0 <= i < ops.len() ==> operation_error(#[trigger] ops[i]) is None,
    ensures
        fields_of(client_difference_bytes(ops)) is Some,
        fields_of(client_difference_bytes(ops))->0.len() == ops.len(),
        forall|i: int|
            0 <= i < ops.len() ==> (#[trigger] fields_of(client_difference_bytes(ops))->0[i]).0 == 1
                && fields_of(client_difference_bytes(ops))->0[i].1 is Bytes && reads_as_operation(
                ops[i],
                fields_of(client_difference_bytes(ops))->0[i].1->Bytes_0,
            ),
    decreases ops.len(),
{
    if ops.len() == 0 {
        assert(fields_of(Seq::<u8>::empty()) == Some(Seq::<(u64, WireValue)>::empty()));
    } else {
        let init = ops.drop_last();
        assert forall|i: int| 0 <= i < init.len() implies operation_error(#[trigger] init[i]) is None by {
            assert(init[i] == ops[i]);
        }
        law_client_difference_field_numbers(init);
        let op = ops.last();
        assert(operation_error(ops[ops.len() - 1]) is None);
        if op is Input {
            lemma_input_field_numbers(op);
        } else {
            lemma_resize_field_numbers(op);
        }
        lemma_fields_of_len_field(1, operation_bytes(op));
        lemma_fields_of_append(client_difference_bytes(init), len_field(1, operation_bytes(op)));
        let fs = fields_of(client_difference_bytes(ops))->0;
        let fi = fields_of(client_difference_bytes(init))->0;
        assert forall|i: int| 0 <= i < ops.len() implies (#[trigger] fs[i]).0 == 1 && fs[i].1 is Bytes
            && reads_as_operation(ops[i], fs[i].1->Bytes_0) by {
            if i < init.len() {
                assert(fs[i] == fi[i]);
                assert(init[i] == ops[i]);
            }
        }
    }
}

proof fn lemma_first_error_skip(ops: Seq<ClientOperation>, i: nat)
    requires
        i <= ops.len(),
        forall|j: int| 0 <= j < i ==> operation_error(#[trigger] ops[j]) is None,
    ensures
        first_operation_error(ops) == first_operation_error(ops.skip(i as int)),
    decreases i,
{
    if i == 0 {
        assert(ops.skip(0) =~= ops);
    } else {
        assert(operation_error(ops[0]) is None);
        let rest = ops.drop_first();
        assert forall|j: int| 0 <= j < i - 1 implies operation_error(#[trigger] rest[j]) is None by {
            assert(rest[j] == ops[j + 1]);
        }
        lemma_first_error_skip(rest, (i - 1) as nat);
        assert(rest.skip(i - 1) =~= ops.skip(i as int));
    }
}

proof fn lemma_difference_prefix_len(ops: Seq<ClientOperation>, i: nat)
    requires
        i <= ops.len(),
    ensures
        client_difference_bytes(ops.take(i as int)).len() <= client_difference_bytes(ops).len(),
    decreases ops.len(),
{
    if i == ops.len() {
        assert(ops.take(i as int) =~= ops);
    } else {
        assert(ops.drop_last().take(i as int) =~= ops.take(i as int));
        lemma_difference_prefix_len(ops.drop_last(), i);
    }
}

/// Checks one operation against its limit.
fn operation_check(op: &ClientOperation) -> (r: Option<InstructionError>)
    ensures
        r == operation_error(*op),
{
    match op {
        ClientOperation::Input(b) => {
            if b.len() > MAX_INPUT_COMMAND_BYTES {
                Some(InstructionError::InputTooLarge)
            } else {
                None
            }
        },
        ClientOperation::Resize { columns, rows } => {
            if *columns == 0 || *columns > MAX_TERMINAL_COLUMNS || *rows == 0 || *rows
                > MAX_TERMINAL_ROWS {
                Some(InstructionError::InvalidTerminalSize)
            } else {
                None
            }
        },
    }
}

/// Appends the difference field of one valid operation.
fn push_operation(out: &mut Vec<u8>, op: &ClientOperation)
    requires
        operation_error(*op) is None,
    ensures
        final(out)@ == old(out)@ + len_field(1, operation_bytes(*op)),
        final(out)@.len() <= old(out)@.len() + MAX_INPUT_COMMAND_BYTES + 66,
{
    let mut message: Vec<u8> = Vec::new();
    match op {
        ClientOperation::Input(b) => {
            let mut inner: Vec<u8> = Vec::new();
            if b.len() != 0 {
                push_len_field(&mut inner, 4, b.as_slice());
            }
            proof {
                lemma_varint_bytes_len(34);
                lemma_varint_bytes_len(b@.len());
                assert(inner@ =~= implicit_bytes_field(4, b@));
            }
            push_len_field(&mut message, 2, inner.as_slice());
            proof {
                lemma_varint_bytes_len(18);
                lemma_varint_bytes_len(inner@.len());
            }
        },
        ClientOperation::Resize { columns, rows } => {
            let mut inner: Vec<u8> = Vec::new();
            push_varint_field(&mut inner, 5, *columns as u64);
            push_varint_field(&mut inner, 6, *rows as u64);
            proof {
                lemma_varint_bytes_len(40);
                lemma_varint_bytes_len(48);
                lemma_varint_bytes_len(*columns as nat);
                lemma_varint_bytes_len(*rows as nat);
                assert(inner@ =~= implicit_varint_field(5, *columns as u64) + implicit_varint_field(
                    6,
                    *rows as u64,
                ));
            }
            push_len_field(&mut message, 3, inner.as_slice());
            proof {
                lemma_varint_bytes_len(26);
                lemma_varint_bytes_len(inner@.len());
            }
        },
    }
    assert(message@ == operation_bytes(*op));
    push_len_field(out, 1, message.as_slice());
    proof {
        lemma_varint_bytes_len(10);
        lemma_varint_bytes_len(message@.len());
    }
}

/// Encodes the operations of a client difference, in order.
pub fn encode_client_difference(operations: &[ClientOperation]) -> (r: Result<
    Vec<u8>,
    InstructionError,
>)
    ensures
        match client_difference_result(operations@) {
            Ok(b) => r matches Ok(v) && v@ == b,
            Err(e) => r == Err::<Vec<u8>, InstructionError>(e),
        },
{
    if operations.len() > MAX_CLIENT_OPERATIONS_AFTER_ACK {
        return Err(InstructionError::TooManyClientOperations);
    }
    let ghost ops = operations@;
    let mut i: usize = 0;
    while i < operations.len()
        invariant
            ops == operations@,
            i <= ops.len(),
            ops.len() <= MAX_CLIENT_OPERATIONS_AFTER_ACK,
            forall|j: int| 0 <= j < i ==> operation_error(#[trigger] ops[j]) is None,
        decreases ops.len() - i,
    {
        match operation_check(&operations[i]) {
            Some(e) => {
                proof {
                    lemma_first_error_skip(ops, i as nat);
                    assert(ops.skip(i as int)[0] == ops[i as int]);
                    assert(first_operation_error(ops.skip(i as int)) == Some(e));
                }
                return Err(e);
            },
            None => {},
        }
        i = i + 1;
    }
    proof {
        lemma_first_error_skip(ops, ops.len());
        assert(ops.skip(ops.len() as int) =~= Seq::<ClientOperation>::empty());
    }
    let mut out: Vec<u8> = Vec::new();
    i = 0;
    assert(ops.take(0) =~= Seq::<ClientOperation>::empty());
    while i < operations.len()
        invariant
            ops == operations@,
            i <= ops.len(),
            forall|j: int| 0 <= j < ops.len() ==> operation_error(#[trigger] ops[j]) is None,
            first_operation_error(ops) is None,
            ops.len() <= MAX_CLIENT_OPERATIONS_AFTER_ACK,
            out@ == client_difference_bytes(ops.take(i as int)),
            out@.len() <= MAX_STATE_DIFFERENCE_BYTES,
        decreases ops.len() - i,
    {
        assert(operation_error(ops[i as int]) is None);
        push_operation(&mut out, &operations[i]);
        proof {
            assert(ops.take(i + 1).drop_last() =~= ops.take(i as int));
            assert(ops.take(i + 1).last() == ops[i as int]);
        }
        if out.len() > MAX_STATE_DIFFERENCE_BYTES {
            proof {
                lemma_difference_prefix_len(ops, (i + 1) as nat);
            }
            return Err(InstructionError::StateDifferenceTooLarge);
        }
        i = i + 1;
    }
    assert(ops.take(i as int) =~= ops);
    Ok(out)
}

/// A single valid resize always encodes.
pub proof fn lemma_resize_difference(columns: u32, rows: u32)
    requires
        valid_terminal_size(columns, rows),
    ensures
        client_difference_result(seq![ClientOperation::Resize { columns, rows }]) == Ok::<
            Seq<u8>,
            InstructionError,
        >(client_difference_bytes(seq![ClientOperation::Resize { columns, rows }])),
{
    let s = seq![ClientOperation::Resize { columns, rows }];
    assert(s.drop_first() =~= Seq::<ClientOperation>::empty());
    assert(first_operation_error(s.drop_first()) is None);
    assert(first_operation_error(s) is None);
    assert(s.drop_last() =~= Seq::<ClientOperation>::empty());
    assert(client_difference_bytes(s.drop_last()) =~= Seq::<u8>::empty());
    lemma_varint_bytes_len(10);
    lemma_varint_bytes_len(26);
    lemma_varint_bytes_len(40);
    lemma_varint_bytes_len(48);
    lemma_varint_bytes_len(columns as nat);
    lemma_varint_bytes_len(rows as nat);
    let inner = implicit_varint_field(5, columns as u64) + implicit_varint_field(6, rows as u64);
    lemma_varint_bytes_len(inner.len());
    lemma_varint_bytes_len(len_field(3, inner).len());
    assert(client_difference_bytes(s).len() <= 100);
}

impl TransportInstruction {
    /// The first instruction of a session: state 0 to state 1, carrying the
    /// initial terminal size.
    pub fn initial(columns: u32, rows: u32, chaff: Vec<u8>) -> (r: Result<
        TransportInstruction,
        InstructionError,
    >)
        ensures
            !valid_terminal_size(columns, rows) ==> r == Err::<TransportInstruction, InstructionError>(
                InstructionError::InvalidTerminalSize,
            ),
            valid_terminal_size(columns, rows) ==> (r matches Ok(t) && t@ == InstructionFields {
                protocol_version: PROTOCOL_VERSION,
                base_state: 0,
                new_state: 1,
                acknowledged_state: 0,
                discard_before_state: 0,
                state_difference: client_difference_bytes(
                    seq![ClientOperation::Resize { columns, rows }],
                ),
                chaff: chaff@,
            }),
    {
        if columns == 0 || columns > MAX_TERMINAL_COLUMNS || rows == 0 || rows > MAX_TERMINAL_ROWS {
            return Err(InstructionError::InvalidTerminalSize);
        }
        let ops = vec![ClientOperation::Resize { columns, rows }];
        proof {
            assert(ops@ =~= seq![ClientOperation::Resize { columns, rows }]);
            lemma_resize_difference(columns, rows);
        }
        let difference = match encode_client_difference(ops.as_slice()) {
            Ok(d) => d,
            Err(e) => {
                return Err(e);
            },
        };
        Ok(
            TransportInstruction {
                protocol_version: PROTOCOL_VERSION,
                base_state: 0,
                new_state: 1,
                acknowledged_state: 0,
                discard_before_state: 0,
                state_difference: difference,
                chaff,
            },
        )
    }
}

} // verus!
