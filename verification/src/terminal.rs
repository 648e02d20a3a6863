//! The host's terminal differences and the checks that the authoritative
//! terminal state relies on: differences decoded from their protocol-buffer
//! form, terminal dimensions, the scalar budget of one cell, and the bound on
//! painted output.
use vstd::prelude::*;

use unicode_width::UnicodeWidthChar;

use crate::bytes::append_bytes;
use crate::limits::{
    MAX_OUTPUT_CHUNK_BYTES, MAX_STATE_DIFFERENCE_BYTES, MAX_TERMINAL_COLUMNS, MAX_TERMINAL_ROWS,
    MAX_TERMINAL_OPERATIONS_PER_DIFFERENCE, MAX_TERMINAL_VISIBLE_CELLS,
    MAX_UNICODE_SCALARS_PER_CELL,
};
use crate::protobuf::{
    fields_of, field_views, len_field, lemma_fields_of_append, lemma_fields_of_len_field,
    lemma_fields_of_varint_field, lemma_varint_bytes_len, read_fields, varint_field, Field,
    FieldValue, WireValue,
};

verus! {

/// Bytes that one terminal cell's contents may occupy.
pub const CELL_CONTENT_BYTES: usize = 22;
/// A combining scalar is appended only while the cell holds fewer bytes.
pub const MAX_BYTES_BEFORE_COMBINING_APPEND: usize = 18;

/// Why a host difference or terminal size was refused.
#[derive(Clone, Copy, Debug, PartialEq, Eq, Structural)]
pub enum TerminalError {
    DifferenceTooLarge,
    TooManyOperations,
    InvalidMessage,
    InvalidOperation,
    InvalidTerminalSize,
    InvalidUtf8,
    IncompleteSequence,
    UnsupportedCharacter,
    UnsupportedControl,
    UnsupportedEscape,
    UnsupportedCsi { intermediate: Option<u8>, parameter: Option<u16>, final_character: char },
    UnsupportedOsc,
    TooManyScalarsInCell,
    CellEncodingTooLarge,
}

/// One operation of a host difference.
#[derive(Clone, Debug, PartialEq, Eq)]
pub enum TerminalOperation {
    HostBytes(Vec<u8>),
    Resize { columns: u32, rows: u32 },
    EchoAcknowledgement(u64),
}

/// The mathematical content of a terminal operation.
pub ghost enum OperationView {
    HostBytes(Seq<u8>),
    Resize { columns: u32, rows: u32 },
    EchoAcknowledgement(u64),
}

impl View for TerminalOperation {
    type V = OperationView;

    open spec fn view(&self) -> OperationView {
        match self {
            TerminalOperation::HostBytes(b) => OperationView::HostBytes(b@),
            TerminalOperation::Resize { columns, rows } => OperationView::Resize {
                columns: *columns,
                rows: *rows,
            },
            TerminalOperation::EchoAcknowledgement(n) => OperationView::EchoAcknowledgement(*n),
        }
    }
}

/// The operations of one host difference, in wire order.
#[derive(Clone, Debug, PartialEq, Eq)]
pub struct TerminalDifference {
    pub operations: Vec<TerminalOperation>,
}

/// The views of a list of operations.
pub open spec fn operation_views(ops: Seq<TerminalOperation>) -> Seq<OperationView> {
    ops.map_values(|op: TerminalOperation| op@)
}

/// One decoded operation message: which of its sub-messages were present,
/// each merged over all of its occurrences.
pub ghost struct WireOperation {
    pub host_bytes: Option<Seq<u8>>,
    pub size: Option<(u32, u32)>,
    pub echo: Option<u64>,
}

/// Merges the fields of a host-bytes message into `acc`.
pub open spec fn merge_host_bytes(acc: Seq<u8>, fs: Seq<(u64, WireValue)>) -> Option<Seq<u8>>
    decreases fs.len(),
{
    if fs.len() == 0 {
        Some(acc)
    } else {
        match merge_host_bytes(acc, fs.drop_last()) {
            None => None,
            Some(a) => {
                let (tag, value) = fs.last();
                if tag == 4 {
                    match value {
                        WireValue::Bytes(b) => Some(b),
                        _ => None,
                    }
                } else {
                    Some(a)
                }
            },
        }
    }
}

/// Merges the fields of a size message into `acc` (columns, rows).
pub open spec fn merge_size(acc: (u32, u32), fs: Seq<(u64, WireValue)>) -> Option<(u32, u32)>
    decreases fs.len(),
{
    if fs.len() == 0 {
        Some(acc)
    } else {
        match merge_size(acc, fs.drop_last()) {
            None => None,
            Some(a) => {
                let (tag, value) = fs.last();
                if tag == 5 || tag == 6 {
                    match value {
                        WireValue::Varint(v) => Some(
                            if tag == 5 {
                                (v as u32, a.1)
                            } else {
                                (a.0, v as u32)
                            },
                        ),
                        _ => None,
                    }
                } else {
                    Some(a)
                }
            },
        }
    }
}

/// Merges the fields of an echo-acknowledgement message into `acc`.
pub open spec fn merge_echo(acc: u64, fs: Seq<(u64, WireValue)>) -> Option<u64>
    decreases fs.len(),
{
    if fs.len() == 0 {
        Some(acc)
    } else {
        match merge_echo(acc, fs.drop_last()) {
            None => None,
            Some(a) => {
                let (tag, value) = fs.last();
                if tag == 8 {
                    match value {
                        WireValue::Varint(v) => Some(v),
                        _ => None,
                    }
                } else {
                    Some(a)
                }
            },
        }
    }
}

/// Applies one field of an operation message.
pub open spec fn apply_operation_field(acc: WireOperation, f: (u64, WireValue)) -> Option<
    WireOperation,
> {
    let (tag, value) = f;
    if tag == 2 || tag == 3 || tag == 7 {
        match value {
            WireValue::Bytes(b) => match fields_of(b) {
                None => None,
                Some(sub) => if tag == 2 {
                    match merge_host_bytes(
                        match acc.host_bytes {
                            Some(h) => h,
                            None => Seq::empty(),
                        },
                        sub,
                    ) {
                        None => None,
                        Some(h) => Some(WireOperation { host_bytes: Some(h), ..acc }),
                    }
                } else if tag == 3 {
                    match merge_size(
                        match acc.size {
                            Some(z) => z,
                            None => (0u32, 0u32),
                        },
                        sub,
                    ) {
                        None => None,
                        Some(z) => Some(WireOperation { size: Some(z), ..acc }),
                    }
                } else {
                    match merge_echo(
                        match acc.echo {
                            Some(n) => n,
                            None => 0u64,
                        },
                        sub,
                    ) {
                        None => None,
                        Some(n) => Some(WireOperation { echo: Some(n), ..acc }),
                    }
                },
            },
            _ => None,
        }
    } else {
        Some(acc)
    }
}

/// Applies the fields of an operation message in order.
pub open spec fn apply_operation_fields(acc: WireOperation, fs: Seq<(u64, WireValue)>) -> Option<
    WireOperation,
>
    decreases fs.len(),
{
    if fs.len() == 0 {
        Some(acc)
    } else {
        match apply_operation_fields(acc, fs.drop_last()) {
            None => None,
            Some(a) => apply_operation_field(a, fs.last()),
        }
    }
}

/// An operation message with no sub-message.
pub open spec fn empty_wire_operation() -> WireOperation {
    WireOperation { host_bytes: None, size: None, echo: None }
}

/// The operation message encoded by `s`.
pub open spec fn decode_wire_operation(s: Seq<u8>) -> Option<WireOperation> {
    match fields_of(s) {
        None => None,
        Some(fs) => apply_operation_fields(empty_wire_operation(), fs),
    }
}

/// The operation messages of a difference message, in order.
pub open spec fn collect_operations(fs: Seq<(u64, WireValue)>) -> Option<Seq<WireOperation>>
    decreases fs.len(),
{
    if fs.len() == 0 {
        Some(Seq::empty())
    } else {
        match collect_operations(fs.drop_last()) {
            None => None,
            Some(ops) => {
                let (tag, value) = fs.last();
                if tag == 1 {
                    match value {
                        WireValue::Bytes(b) => match decode_wire_operation(b) {
                            None => None,
                            Some(op) => Some(ops.push(op)),
                        },
                        _ => None,
                    }
                } else {
                    Some(ops)
                }
            },
        }
    }
}

/// The operation that a message names, when it names exactly one.
pub open spec fn operation_of(w: WireOperation) -> Option<OperationView> {
    match (w.host_bytes, w.size, w.echo) {
        (Some(b), None, None) => Some(OperationView::HostBytes(b)),
        (None, Some(z), None) => Some(OperationView::Resize { columns: z.0, rows: z.1 }),
        (None, None, Some(n)) => Some(OperationView::EchoAcknowledgement(n)),
        _ => None,
    }
}

/// What decoding a host difference gives: the size limit first, then the
/// message as a whole, then the operation count, then each operation.
pub open spec fn decode_difference(s: Seq<u8>) -> Result<Seq<OperationView>, TerminalError> {
    if s.len() > MAX_STATE_DIFFERENCE_BYTES {
        Err(TerminalError::DifferenceTooLarge)
    } else {
        match fields_of(s) {
            None => Err(TerminalError::InvalidMessage),
            Some(fs) => match collect_operations(fs) {
                None => Err(TerminalError::InvalidMessage),
                Some(ws) => if ws.len() > MAX_TERMINAL_OPERATIONS_PER_DIFFERENCE {
                    Err(TerminalError::TooManyOperations)
                } else if exists|i: int| 0 <= i < ws.len() && #[trigger] operation_of(ws[i]) is None {
                    Err(TerminalError::InvalidOperation)
                } else {
                    Ok(ws.map_values(|w: WireOperation| operation_of(w)->0))
                },
            },
        }
    }
}

/// A difference whose one field 1 holds the operation message `m`.
proof fn lemma_single_operation(m: Seq<u8>, w: WireOperation)
    requires
        m.len() <= MAX_STATE_DIFFERENCE_BYTES - 16,
        decode_wire_operation(m) == Some(w),
        operation_of(w) is Some,
    ensures
        decode_difference(len_field(1, m)) == Ok::<Seq<OperationView>, TerminalError>(
            seq![operation_of(w)->0],
        ),
{
    let e = Seq::<(u64, WireValue)>::empty();
    lemma_varint_bytes_len(m.len());
    lemma_varint_bytes_len(10);
    lemma_fields_of_len_field(1, m);
    let fs = seq![(1u64, WireValue::Bytes(m))];
    assert(fs.drop_last() =~= e);
    assert(collect_operations(e) == Some(Seq::<WireOperation>::empty()));
    assert(Seq::<WireOperation>::empty().push(w) =~= seq![w]);
    assert(collect_operations(fs) == Some(seq![w]));
    assert(seq![w].map_values(|x: WireOperation| operation_of(x)->0) =~= seq![operation_of(w)->0]);
    assert(!exists|i: int| 0 <= i < seq![w].len() && #[trigger] operation_of(seq![w][i]) is None);
}

/// An operation message whose one field `tag` holds `inner`.
proof fn lemma_single_field_operation(tag: u64, inner: Seq<u8>)
    requires
        tag == 2 || tag == 3 || tag == 7,
        inner.len() <= MAX_STATE_DIFFERENCE_BYTES,
    ensures
        decode_wire_operation(len_field(tag, inner)) == apply_operation_field(
            empty_wire_operation(),
            (tag, WireValue::Bytes(inner)),
        ),
        len_field(tag, inner).len() <= inner.len() + 11,
{
    let e = Seq::<(u64, WireValue)>::empty();
    lemma_varint_bytes_len(inner.len());
    lemma_varint_bytes_len(tag as nat * 8 + 2);
    lemma_fields_of_len_field(tag, inner);
    let one = seq![(tag, WireValue::Bytes(inner))];
    assert(one.drop_last() =~= e);
    assert(one.last() == (tag, WireValue::Bytes(inner)));
    assert(apply_operation_fields(empty_wire_operation(), e) == Some(empty_wire_operation()));
}

proof fn lemma_host_bytes_operation(bytes: Seq<u8>)
    requires
        bytes.len() <= MAX_STATE_DIFFERENCE_BYTES - 64,
    ensures
        decode_wire_operation(len_field(2, len_field(4, bytes))) == Some(
            WireOperation { host_bytes: Some(bytes), size: None, echo: None },
        ),
        len_field(2, len_field(4, bytes)).len() <= bytes.len() + 22,
{
    let e = Seq::<(u64, WireValue)>::empty();
    let hb = len_field(4, bytes);
    lemma_fields_of_len_field(4, bytes);
    lemma_varint_bytes_len(bytes.len());
    lemma_varint_bytes_len(34);
    lemma_single_field_operation(2, hb);
    let hf = seq![(4u64, WireValue::Bytes(bytes))];
    assert(hf.drop_last() =~= e);
    assert(hf.last() == (4u64, WireValue::Bytes(bytes)));
    assert(merge_host_bytes(Seq::empty(), e) == Some(Seq::<u8>::empty()));
    assert(merge_host_bytes(Seq::empty(), hf.drop_last()) == Some(Seq::<u8>::empty()));
    assert(merge_host_bytes(Seq::empty(), hf) == Some(bytes));
}

proof fn lemma_resize_operation(columns: u32, rows: u32)
    ensures
        decode_wire_operation(
            len_field(3, varint_field(5, columns as u64) + varint_field(6, rows as u64)),
        ) == Some(WireOperation { host_bytes: None, size: Some((columns, rows)), echo: None }),
        len_field(3, varint_field(5, columns as u64) + varint_field(6, rows as u64)).len() <= 64,
{
    let e = Seq::<(u64, WireValue)>::empty();
    let c = varint_field(5, columns as u64);
    let r = varint_field(6, rows as u64);
    lemma_fields_of_varint_field(5, columns as u64);
    lemma_fields_of_varint_field(6, rows as u64);
    lemma_fields_of_append(c, r);
    lemma_varint_bytes_len(columns as nat);
    lemma_varint_bytes_len(rows as nat);
    lemma_varint_bytes_len(40);
    lemma_varint_bytes_len(48);
    lemma_single_field_operation(3, c + r);
    let vc = (5u64, WireValue::Varint(columns as u64));
    let vr = (6u64, WireValue::Varint(rows as u64));
    let sf = fields_of(c + r)->0;
    assert(sf =~= e.push(vc).push(vr));
    assert(sf.drop_last() =~= e.push(vc));
    assert(e.push(vc).drop_last() =~= e);
    assert(e.push(vc).last() == vc);
    assert(sf.last() == vr);
    assert(merge_size((0u32, 0u32), e) == Some((0u32, 0u32)));
    assert(merge_size((0u32, 0u32), e.push(vc).drop_last()) == Some((0u32, 0u32)));
    assert(merge_size((0u32, 0u32), e.push(vc)) == Some((columns, 0u32)));
    assert(merge_size((0u32, 0u32), sf.drop_last()) == Some((columns, 0u32)));
    assert(merge_size((0u32, 0u32), sf) == Some((columns, rows)));
}

proof fn lemma_echo_operation(echo: u64)
    ensures
        decode_wire_operation(len_field(7, varint_field(8, echo))) == Some(
            WireOperation { host_bytes: None, size: None, echo: Some(echo) },
        ),
        len_field(7, varint_field(8, echo)).len() <= 64,
{
    let e = Seq::<(u64, WireValue)>::empty();
    let n = varint_field(8, echo);
    lemma_fields_of_varint_field(8, echo);
    lemma_varint_bytes_len(echo as nat);
    lemma_varint_bytes_len(64);
    lemma_single_field_operation(7, n);
    let nf = seq![(8u64, WireValue::Varint(echo))];
    assert(nf.drop_last() =~= e);
    assert(nf.last() == (8u64, WireValue::Varint(echo)));
    assert(merge_echo(0u64, e) == Some(0u64));
    assert(merge_echo(0u64, nf.drop_last()) == Some(0u64));
    assert(merge_echo(0u64, nf) == Some(echo));
}

/// The field numbers of a host difference: an operation is field 1 of the
/// difference; host bytes are field 2 of an operation with the bytes in its
/// field 4, a resize is field 3 with the columns in field 5 and the rows in
/// field 6, and an echo acknowledgement is field 7 with its number in
/// field 8. A difference made of one such operation decodes to it.
pub proof fn law_difference_field_numbers(bytes: Seq<u8>, columns: u32, rows: u32, echo: u64)
    requires
        bytes.len() <= MAX_STATE_DIFFERENCE_BYTES - 64,
    ensures
        decode_difference(len_field(1, len_field(2, len_field(4, bytes)))) == Ok::<
            Seq<OperationView>,
            TerminalError,
        >(seq![OperationView::HostBytes(bytes)]),
        decode_difference(
            len_field(1, len_field(3, varint_field(5, columns as u64) + varint_field(6, rows as u64))),
        ) == Ok::<Seq<OperationView>, TerminalError>(
            seq![OperationView::Resize { columns, rows }],
        ),
        decode_difference(len_field(1, len_field(7, varint_field(8, echo)))) == Ok::<
            Seq<OperationView>,
            TerminalError,
        >(seq![OperationView::EchoAcknowledgement(echo)]),
{
    lemma_host_bytes_operation(bytes);
    lemma_single_operation(
        len_field(2, len_field(4, bytes)),
        WireOperation { host_bytes: Some(bytes), size: None, echo: None },
    );
    lemma_resize_operation(columns, rows);
    lemma_single_operation(
        len_field(3, varint_field(5, columns as u64) + varint_field(6, rows as u64)),
        WireOperation { host_bytes: None, size: Some((columns, rows)), echo: None },
    );
    lemma_echo_operation(echo);
    lemma_single_operation(
        len_field(7, varint_field(8, echo)),
        WireOperation { host_bytes: None, size: None, echo: Some(echo) },
    );
}

/// The echo acknowledgement carried last among `ops`, if any.
pub open spec fn latest_echo(ops: Seq<OperationView>) -> Option<u64>
    decreases ops.len(),
{
    if ops.len() == 0 {
        None
    } else {
        match ops.last() {
            OperationView::EchoAcknowledgement(n) => Some(n),
            _ => latest_echo(ops.drop_last()),
        }
    }
}


proof fn lemma_merge_host_bytes_prefix(acc: Seq<u8>, fs: Seq<(u64, WireValue)>, k: int)
    requires
        0 <= k <= fs.len(),
        merge_host_bytes(acc, fs.take(k)) is None,
    ensures
        merge_host_bytes(acc, fs) is None,
    decreases fs.len(),
{
    if k == fs.len() {
        assert(fs.take(k) =~= fs);
    } else {
        assert(fs.drop_last().take(k) =~= fs.take(k));
        lemma_merge_host_bytes_prefix(acc, fs.drop_last(), k);
    }
}

proof fn lemma_merge_size_prefix(acc: (u32, u32), fs: Seq<(u64, WireValue)>, k: int)
    requires
        0 <= k <= fs.len(),
        merge_size(acc, fs.take(k)) is None,
    ensures
        merge_size(acc, fs) is None,
    decreases fs.len(),
{
    if k == fs.len() {
        assert(fs.take(k) =~= fs);
    } else {
        assert(fs.drop_last().take(k) =~= fs.take(k));
        lemma_merge_size_prefix(acc, fs.drop_last(), k);
    }
}

proof fn lemma_merge_echo_prefix(acc: u64, fs: Seq<(u64, WireValue)>, k: int)
    requires
        0 <= k <= fs.len(),
        merge_echo(acc, fs.take(k)) is None,
    ensures
        merge_echo(acc, fs) is None,
    decreases fs.len(),
{
    if k == fs.len() {
        assert(fs.take(k) =~= fs);
    } else {
        assert(fs.drop_last().take(k) =~= fs.take(k));
        lemma_merge_echo_prefix(acc, fs.drop_last(), k);
    }
}

proof fn lemma_apply_operation_prefix(acc: WireOperation, fs: Seq<(u64, WireValue)>, k: int)
    requires
        0 <= k <= fs.len(),
        apply_operation_fields(acc, fs.take(k)) is None,
    ensures
        apply_operation_fields(acc, fs) is None,
    decreases fs.len(),
{
    if k == fs.len() {
        assert(fs.take(k) =~= fs);
    } else {
        assert(fs.drop_last().take(k) =~= fs.take(k));
        lemma_apply_operation_prefix(acc, fs.drop_last(), k);
    }
}

proof fn lemma_collect_prefix(fs: Seq<(u64, WireValue)>, k: int)
    requires
        0 <= k <= fs.len(),
        collect_operations(fs.take(k)) is None,
    ensures
        collect_operations(fs) is None,
    decreases fs.len(),
{
    if k == fs.len() {
        assert(fs.take(k) =~= fs);
    } else {
        assert(fs.drop_last().take(k) =~= fs.take(k));
        lemma_collect_prefix(fs.drop_last(), k);
    }
}

/// Facts that relate one step of a fold over `fs.take(i + 1)` to `fs.take(i)`.
proof fn lemma_take_step(fs: Seq<(u64, WireValue)>, i: int)
    requires
        0 <= i < fs.len(),
    ensures
        fs.take(i + 1).drop_last() == fs.take(i),
        fs.take(i + 1).last() == fs[i],
        fs.take(i + 1).len() == i + 1,
{
    assert(fs.take(i + 1).drop_last() =~= fs.take(i));
}

/// Merges a host-bytes message into `acc`.
fn merge_host_bytes_message(acc: Vec<u8>, message: &[u8]) -> (r: Option<Vec<u8>>)
    ensures
        match fields_of(message@) {
            None => r is None,
            Some(sub) => match merge_host_bytes(acc@, sub) {
                None => r is None,
                Some(h) => r matches Some(v) && v@ == h,
            },
        },
{
    let fields = match read_fields(message) {
        None => {
            return None;
        },
        Some(f) => f,
    };
    let ghost fs = field_views(fields@);
    let ghost start = acc@;
    let mut cur = acc;
    let mut i: usize = 0;
    assert(fs.take(0) =~= Seq::<(u64, WireValue)>::empty());
    while i < fields.len()
        invariant
            i <= fields@.len(),
            fs == field_views(fields@),
            fields_of(message@) == Some(fs),
            merge_host_bytes(start, fs.take(i as int)) == Some(cur@),
            start == acc@,
        decreases fields@.len() - i,
    {
        proof {
            lemma_take_step(fs, i as int);
            assert(fs[i as int] == fields@[i as int].view());
        }
        let field = &fields[i];
        if field.tag == 4 {
            match field.value {
                FieldValue::Bytes(b) => {
                    let mut copy: Vec<u8> = Vec::new();
                    append_bytes(&mut copy, b);
                    assert(copy@ =~= b@);
                    cur = copy;
                },
                _ => {
                    proof {
                        assert(merge_host_bytes(start, fs.take(i + 1)) is None);
                        lemma_merge_host_bytes_prefix(start, fs, i + 1);
                    }
                    return None;
                },
            }
        }
        i = i + 1;
    }
    assert(fs.take(i as int) =~= fs);
    Some(cur)
}

/// Merges a size message into `acc` (columns, rows).
fn merge_size_message(acc: (u32, u32), message: &[u8]) -> (r: Option<(u32, u32)>)
    ensures
        match fields_of(message@) {
            None => r is None,
            Some(sub) => r == merge_size(acc, sub),
        },
{
    let fields = match read_fields(message) {
        None => {
            return None;
        },
        Some(f) => f,
    };
    let ghost fs = field_views(fields@);
    let mut cur = acc;
    let mut i: usize = 0;
    assert(fs.take(0) =~= Seq::<(u64, WireValue)>::empty());
    while i < fields.len()
        invariant
            i <= fields@.len(),
            fs == field_views(fields@),
            fields_of(message@) == Some(fs),
            merge_size(acc, fs.take(i as int)) == Some(cur),
        decreases fields@.len() - i,
    {
        proof {
            lemma_take_step(fs, i as int);
            assert(fs[i as int] == fields@[i as int].view());
        }
        let field = &fields[i];
        if field.tag == 5 || field.tag == 6 {
            match field.value {
                FieldValue::Varint(v) => {
                    if field.tag == 5 {
                        cur = (v as u32, cur.1);
                    } else {
                        cur = (cur.0, v as u32);
                    }
                },
                _ => {
                    proof {
                        lemma_merge_size_prefix(acc, fs, i + 1);
                    }
                    return None;
                },
            }
        }
        i = i + 1;
    }
    assert(fs.take(i as int) =~= fs);
    Some(cur)
}

/// Merges an echo-acknowledgement message into `acc`.
fn merge_echo_message(acc: u64, message: &[u8]) -> (r: Option<u64>)
    ensures
        match fields_of(message@) {
            None => r is None,
            Some(sub) => r == merge_echo(acc, sub),
        },
{
    let fields = match read_fields(message) {
        None => {
            return None;
        },
        Some(f) => f,
    };
    let ghost fs = field_views(fields@);
    let mut cur = acc;
    let mut i: usize = 0;
    assert(fs.take(0) =~= Seq::<(u64, WireValue)>::empty());
    while i < fields.len()
        invariant
            i <= fields@.len(),
            fs == field_views(fields@),
            fields_of(message@) == Some(fs),
            merge_echo(acc, fs.take(i as int)) == Some(cur),
        decreases fields@.len() - i,
    {
        proof {
            lemma_take_step(fs, i as int);
            assert(fs[i as int] == fields@[i as int].view());
        }
        let field = &fields[i];
        if field.tag == 8 {
            match field.value {
                FieldValue::Varint(v) => {
                    cur = v;
                },
                _ => {
                    proof {
                        lemma_merge_echo_prefix(acc, fs, i + 1);
                    }
                    return None;
                },
            }
        }
        i = i + 1;
    }
    assert(fs.take(i as int) =~= fs);
    Some(cur)
}

/// A decoded operation message.
struct WireOperationBuf {
    host_bytes: Option<Vec<u8>>,
    size: Option<(u32, u32)>,
    echo: Option<u64>,
}

impl WireOperationBuf {
    spec fn view(&self) -> WireOperation {
        WireOperation {
            host_bytes: match self.host_bytes {
                Some(b) => Some(b@),
                None => None,
            },
            size: self.size,
            echo: self.echo,
        }
    }
}

/// Decodes one operation message.
fn decode_operation_message(message: &[u8]) -> (r: Option<WireOperationBuf>)
    ensures
        match decode_wire_operation(message@) {
            None => r is None,
            Some(w) => r matches Some(v) && v.view() == w,
        },
{
    let fields = match read_fields(message) {
        None => {
            return None;
        },
        Some(f) => f,
    };
    let ghost fs = field_views(fields@);
    let mut cur = WireOperationBuf { host_bytes: None, size: None, echo: None };
    let mut i: usize = 0;
    assert(fs.take(0) =~= Seq::<(u64, WireValue)>::empty());
    while i < fields.len()
        invariant
            i <= fields@.len(),
            fs == field_views(fields@),
            fields_of(message@) == Some(fs),
            apply_operation_fields(empty_wire_operation(), fs.take(i as int)) == Some(cur.view()),
        decreases fields@.len() - i,
    {
        proof {
            lemma_take_step(fs, i as int);
            assert(fs[i as int] == fields@[i as int].view());
        }
        let field = &fields[i];
        let tag = field.tag;
        if tag == 2 || tag == 3 || tag == 7 {
            let payload = match field.value {
                FieldValue::Bytes(b) => b,
                _ => {
                    proof {
                        lemma_apply_operation_prefix(empty_wire_operation(), fs, i + 1);
                    }
                    return None;
                },
            };
            if tag == 2 {
                let before = match cur.host_bytes {
                    Some(h) => h,
                    None => Vec::new(),
                };
                match merge_host_bytes_message(before, payload) {
                    None => {
                        proof {
                            lemma_apply_operation_prefix(empty_wire_operation(), fs, i + 1);
                        }
                        return None;
                    },
                    Some(h) => {
                        cur = WireOperationBuf { host_bytes: Some(h), size: cur.size, echo: cur.echo };
                    },
                }
            } else if tag == 3 {
                let before = match cur.size {
                    Some(z) => z,
                    None => (0u32, 0u32),
                };
                match merge_size_message(before, payload) {
                    None => {
                        proof {
                            lemma_apply_operation_prefix(empty_wire_operation(), fs, i + 1);
                        }
                        return None;
                    },
                    Some(z) => {
                        cur.size = Some(z);
                    },
                }
            } else {
                let before = match cur.echo {
                    Some(n) => n,
                    None => 0u64,
                };
                match merge_echo_message(before, payload) {
                    None => {
                        proof {
                            lemma_apply_operation_prefix(empty_wire_operation(), fs, i + 1);
                        }
                        return None;
                    },
                    Some(n) => {
                        cur.echo = Some(n);
                    },
                }
            }
        }
        i = i + 1;
    }
    assert(fs.take(i as int) =~= fs);
    Some(cur)
}

/// The operation that a decoded message names, when it names exactly one.
fn operation_from(w: &WireOperationBuf) -> (r: Option<TerminalOperation>)
    ensures
        match operation_of(w.view()) {
            None => r is None,
            Some(op) => r matches Some(t) && t@ == op,
        },
{
    match (&w.host_bytes, w.size, w.echo) {
        (Some(b), None, None) => {
            let mut copy: Vec<u8> = Vec::new();
            append_bytes(&mut copy, b.as_slice());
            assert(copy@ =~= b@);
            Some(TerminalOperation::HostBytes(copy))
        },
        (None, Some(z), None) => Some(TerminalOperation::Resize { columns: z.0, rows: z.1 }),
        (None, None, Some(n)) => Some(TerminalOperation::EchoAcknowledgement(n)),
        _ => None,
    }
}

impl TerminalDifference {
    /// Decodes a host difference and checks its limits and the shape of each
    /// operation.
    pub fn decode(bytes: &[u8]) -> (r: Result<TerminalDifference, TerminalError>)
        ensures
            match decode_difference(bytes@) {
                Ok(ops) => r matches Ok(d) && operation_views(d.operations@) == ops,
                Err(e) => r == Err::<TerminalDifference, TerminalError>(e),
            },
    {
        if bytes.len() > MAX_STATE_DIFFERENCE_BYTES {
            return Err(TerminalError::DifferenceTooLarge);
        }
        let fields = match read_fields(bytes) {
            None => {
                return Err(TerminalError::InvalidMessage);
            },
            Some(f) => f,
        };
        let ghost fs = field_views(fields@);
        let mut wire: Vec<WireOperationBuf> = Vec::new();
        let mut i: usize = 0;
        assert(fs.take(0) =~= Seq::<(u64, WireValue)>::empty());
        while i < fields.len()
            invariant
                i <= fields@.len(),
                fs == field_views(fields@),
                fields_of(bytes@) == Some(fs),
                bytes@.len() <= MAX_STATE_DIFFERENCE_BYTES,
                collect_operations(fs.take(i as int)) == Some(
                    wire@.map_values(|w: WireOperationBuf| w.view()),
                ),
            decreases fields@.len() - i,
        {
            proof {
                lemma_take_step(fs, i as int);
                assert(fs[i as int] == fields@[i as int].view());
            }
            let field = &fields[i];
            if field.tag == 1 {
                let payload = match field.value {
                    FieldValue::Bytes(b) => b,
                    _ => {
                        proof {
                            lemma_collect_prefix(fs, i + 1);
                        }
                        return Err(TerminalError::InvalidMessage);
                    },
                };
                match decode_operation_message(payload) {
                    None => {
                        proof {
                            lemma_collect_prefix(fs, i + 1);
                        }
                        return Err(TerminalError::InvalidMessage);
                    },
                    Some(w) => {
                        let ghost before = wire@;
                        wire.push(w);
                        proof {
                            assert(wire@.map_values(|w: WireOperationBuf| w.view()) =~= before.map_values(
                                |w: WireOperationBuf| w.view(),
                            ).push(w.view()));
                        }
                    },
                }
            }
            i = i + 1;
        }
        assert(fs.take(i as int) =~= fs);
        let ghost ws = wire@.map_values(|w: WireOperationBuf| w.view());
        if wire.len() > MAX_TERMINAL_OPERATIONS_PER_DIFFERENCE {
            return Err(TerminalError::TooManyOperations);
        }
        let mut operations: Vec<TerminalOperation> = Vec::new();
        let mut j: usize = 0;
        while j < wire.len()
            invariant
                ws == wire@.map_values(|w: WireOperationBuf| w.view()),
                fields_of(bytes@) == Some(fs),
                collect_operations(fs) == Some(ws),
                bytes@.len() <= MAX_STATE_DIFFERENCE_BYTES,
                ws.len() <= MAX_TERMINAL_OPERATIONS_PER_DIFFERENCE,
                j <= wire@.len(),
                forall|k: int| 0 <= k < j ==> #[trigger] operation_of(ws[k]) is Some,
                operation_views(operations@) =~= Seq::new(
                    j as nat,
                    |k: int| operation_of(ws[k])->0,
                ),
            decreases wire@.len() - j,
        {
            assert(wire@[j as int].view() == ws[j as int]);
            match operation_from(&wire[j]) {
                None => {
                    assert(operation_of(ws[j as int]) is None);
                    return Err(TerminalError::InvalidOperation);
                },
                Some(op) => {
                    let ghost before = operations@;
                    operations.push(op);
                    proof {
                        assert(operation_views(operations@) =~= operation_views(before).push(op@));
                    }
                },
            }
            j = j + 1;
        }
        proof {
            let expected = ws.map_values(|w: WireOperation| operation_of(w)->0);
            assert(operation_views(operations@) =~= expected);
        }
        Ok(TerminalDifference { operations })
    }

    /// The echo acknowledgement carried last in this difference, if any.
    pub fn latest_echo_acknowledgement(&self) -> (r: Option<u64>)
        ensures
            r == latest_echo(operation_views(self.operations@)),
    {
        let ghost all = operation_views(self.operations@);
        let mut i = self.operations.len();
        assert(all.take(i as int) =~= all);
        while i > 0
            invariant
                i <= self.operations@.len(),
                all == operation_views(self.operations@),
                latest_echo(all) == latest_echo(all.take(i as int)),
            decreases i,
        {
            proof {
                assert(all.take(i as int).drop_last() =~= all.take(i - 1));
                assert(all.take(i as int).last() == all[i - 1]);
            }
            match &self.operations[i - 1] {
                TerminalOperation::EchoAcknowledgement(n) => {
                    return Some(*n);
                },
                _ => {},
            }
            i = i - 1;
        }
        assert(all.take(0) =~= Seq::<OperationView>::empty());
        None
    }
}


/// Whether a terminal of `columns` by `rows` is supported.
pub open spec fn supported_size(columns: u32, rows: u32) -> bool {
    &&& 1 <= columns <= MAX_TERMINAL_COLUMNS
    &&& 1 <= rows <= MAX_TERMINAL_ROWS
    &&& columns * rows <= MAX_TERMINAL_VISIBLE_CELLS
}

/// The (rows, columns) of a supported terminal size.
pub fn checked_size(columns: u32, rows: u32) -> (r: Result<(u16, u16), TerminalError>)
    ensures
        supported_size(columns, rows) ==> r == Ok::<(u16, u16), TerminalError>(
            (rows as u16, columns as u16),
        ),
        !supported_size(columns, rows) ==> r == Err::<(u16, u16), TerminalError>(
            TerminalError::InvalidTerminalSize,
        ),
{
    if columns == 0 || columns > MAX_TERMINAL_COLUMNS || rows == 0 || rows > MAX_TERMINAL_ROWS {
        return Err(TerminalError::InvalidTerminalSize);
    }
    assert((columns as u64) * (rows as u64) <= 1024 * 1024) by (nonlinear_arith)
        requires
            columns <= 1024,
            rows <= 1024,
    ;
    let cells = columns as u64 * rows as u64;
    if cells > MAX_TERMINAL_VISIBLE_CELLS {
        return Err(TerminalError::InvalidTerminalSize);
    }
    Ok((rows as u16, columns as u16))
}

/// Whether a terminal size is supported.
pub fn is_valid_size(columns: u32, rows: u32) -> (r: bool)
    ensures
        r == supported_size(columns, rows),
{
    checked_size(columns, rows).is_ok()
}

/// The echo acknowledgement after a difference names `number`: it never
/// moves backwards.
pub fn next_echo_acknowledgement(current: Option<u64>, number: u64) -> (r: Result<u64, TerminalError>)
    ensures
        (current is Some && number < current->0) ==> r == Err::<u64, TerminalError>(
            TerminalError::InvalidOperation,
        ),
        !(current is Some && number < current->0) ==> r == Ok::<u64, TerminalError>(number),
{
    match current {
        Some(c) => {
            if number < c {
                return Err(TerminalError::InvalidOperation);
            }
        },
        None => {},
    }
    Ok(number)
}

/// Whether a CSI sequence is one of the terminal-profile resets that the
/// host may send and that are dropped from the authoritative state:
/// `CSI ? 1001 l`, `CSI ? 1004 l`, `CSI ? 1015 l`, and `CSI ? 1004 h`.
pub open spec fn suppressed_policy_sequence(
    intermediate: Option<u8>,
    params: Seq<Seq<u16>>,
    final_character: char,
) -> bool {
    &&& intermediate == Some(63u8)
    &&& params.len() == 1
    &&& params[0].len() == 1
    &&& ((final_character == 'l' && (params[0][0] == 1001 || params[0][0] == 1004 || params[0][0]
        == 1015)) || (final_character == 'h' && params[0][0] == 1004))
}

/// Decides whether a CSI sequence is a suppressed terminal-profile reset.
pub fn is_suppressed_external_policy_sequence(
    intermediate: Option<u8>,
    params: &[&[u16]],
    final_character: char,
) -> (r: bool)
    ensures
        r == suppressed_policy_sequence(
            intermediate,
            params@.map_values(|p: &[u16]| p@),
            final_character,
        ),
{
    let question = match intermediate {
        Some(b) => b == 63u8,
        None => false,
    };
    if !question || params.len() != 1 {
        return false;
    }
    let first: &[u16] = params[0];
    if first.len() != 1 {
        return false;
    }
    let value = first[0];
    (final_character == 'l' && (value == 1001 || value == 1004 || value == 1015)) || (
    final_character == 'h' && value == 1004)
}

/// Number of bytes of the UTF-8 encoding of `c`.
pub open spec fn utf8_len(c: char) -> nat {
    if (c as u32) < 0x80 {
        1
    } else if (c as u32) < 0x800 {
        2
    } else if (c as u32) < 0x10000 {
        3
    } else {
        4
    }
}

/// Number of bytes of the UTF-8 encoding of `c`.
pub fn utf8_len_of(c: char) -> (r: usize)
    ensures
        r == utf8_len(c),
{
    let code = c as u32;
    if code < 0x80 {
        1
    } else if code < 0x800 {
        2
    } else if code < 0x10000 {
        3
    } else {
        4
    }
}

/// The display width that `unicode_width` gives a character, or `None` for a
/// control character.
pub uninterp spec fn char_width(c: char) -> Option<usize>;

/// Calls `unicode_width::UnicodeWidthChar::width`. The contract names the
/// result and states what its documentation and source show of control
/// characters and printable ASCII: `None` exactly for U+0000 to U+001F and
/// U+007F to U+009F, and width one for U+0020 to U+007E.
#[verifier::external_body]
fn display_width(c: char) -> (r: Option<usize>)
    ensures
        r == char_width(c),
        r is None <== ((c as u32) < 0x20 || (0x7f <= (c as u32) && (c as u32) < 0xa0)),
        r is None ==> ((c as u32) < 0x20 || (0x7f <= (c as u32) && (c as u32) < 0xa0)),
        (0x20 <= (c as u32) && (c as u32) < 0x7f) ==> r == Some(1usize),
{
    c.width()
}

/// Tracks the scalars of the cell that printed text is filling, and the
/// first reason to refuse the text.
pub struct ScalarBudget {
    pub scalars: usize,
    pub utf8_bytes: usize,
    pub prints: usize,
    pub last_printed: Option<char>,
    pub error: Option<TerminalError>,
}

/// The budget after printing `c`, whose display width is `width`.
pub open spec fn printed(b: ScalarBudget, c: char, width: Option<usize>) -> ScalarBudget {
    let counted = ScalarBudget { prints: (b.prints + 1) as usize, last_printed: Some(c), ..b };
    match width {
        None => ScalarBudget { error: Some(TerminalError::UnsupportedControl), ..counted },
        Some(w) => if w == 0 {
            if b.scalars == 0 || b.scalars == MAX_UNICODE_SCALARS_PER_CELL {
                ScalarBudget { error: Some(TerminalError::TooManyScalarsInCell), ..counted }
            } else if b.utf8_bytes >= MAX_BYTES_BEFORE_COMBINING_APPEND {
                ScalarBudget { error: Some(TerminalError::CellEncodingTooLarge), ..counted }
            } else {
                ScalarBudget {
                    scalars: (b.scalars + 1) as usize,
                    utf8_bytes: (b.utf8_bytes + utf8_len(c)) as usize,
                    ..counted
                }
            }
        } else {
            ScalarBudget { scalars: 1, utf8_bytes: utf8_len(c) as usize, ..counted }
        },
    }
}

impl ScalarBudget {
    /// The budget's invariant: one cell holds at most the scalar limit, and
    /// its bytes are bounded.
    pub open spec fn wf(&self) -> bool {
        &&& self.scalars <= MAX_UNICODE_SCALARS_PER_CELL
        &&& self.utf8_bytes <= CELL_CONTENT_BYTES
    }

    /// An empty budget.
    pub fn new() -> (r: ScalarBudget)
        ensures
            r == (ScalarBudget {
                scalars: 0,
                utf8_bytes: 0,
                prints: 0,
                last_printed: None,
                error: None,
            }),
            r.wf(),
    {
        ScalarBudget { scalars: 0, utf8_bytes: 0, prints: 0, last_printed: None, error: None }
    }

    /// Starts a new cell.
    pub fn reset_cluster(&mut self)
        ensures
            *final(self) == (ScalarBudget { scalars: 0, utf8_bytes: 0, ..*old(self) }),
    {
        self.scalars = 0;
        self.utf8_bytes = 0;
    }

    /// Accounts for one printed character: a character of positive width
    /// starts a cell, one of zero width joins the current cell within its
    /// limits, and a control character is refused.
    pub fn print(&mut self, character: char)
        requires
            old(self).wf(),
            old(self).prints < usize::MAX,
        ensures
            *final(self) == printed(*old(self), character, char_width(character)),
            final(self).wf(),
    {
        self.prints = self.prints + 1;
        self.last_printed = Some(character);
        let width = match display_width(character) {
            None => {
                self.error = Some(TerminalError::UnsupportedControl);
                return;
            },
            Some(w) => w,
        };
        if width == 0 {
            if self.scalars == 0 || self.scalars == MAX_UNICODE_SCALARS_PER_CELL {
                self.error = Some(TerminalError::TooManyScalarsInCell);
                return;
            }
            if self.utf8_bytes >= MAX_BYTES_BEFORE_COMBINING_APPEND {
                self.error = Some(TerminalError::CellEncodingTooLarge);
                return;
            }
            self.scalars = self.scalars + 1;
            self.utf8_bytes = self.utf8_bytes + utf8_len_of(character);
        } else {
            self.scalars = 1;
            self.utf8_bytes = utf8_len_of(character);
        }
    }

    /// A CSI sequence ends the cell unless it only selects graphic rendition.
    pub fn csi_dispatch(&mut self, action: char)
        ensures
            action == 'm' ==> *final(self) == *old(self),
            action != 'm' ==> *final(self) == (ScalarBudget {
                scalars: 0,
                utf8_bytes: 0,
                ..*old(self)
            }),
    {
        if action != 'm' {
            self.reset_cluster();
        }
    }

    /// What validating host text concludes once the text and a final sentinel
    /// `X` have been fed through: the first refusal, else whether the
    /// sentinel was printed by itself, which shows the text ended outside any
    /// sequence.
    pub fn outcome(&self, prints_before_sentinel: usize) -> (r: Result<(), TerminalError>)
        ensures
            self.error is Some ==> r == Err::<(), TerminalError>(self.error->0),
            self.error is None ==> (r is Ok <==> (self.prints == prints_before_sentinel + 1
                && self.last_printed == Some('X'))),
            self.error is None && r is Err ==> r == Err::<(), TerminalError>(
                TerminalError::IncompleteSequence,
            ),
    {
        match self.error {
            Some(e) => {
                return Err(e);
            },
            None => {},
        }
        let printed_sentinel = match self.last_printed {
            Some(c) => c == 'X',
            None => false,
        };
        if prints_before_sentinel == usize::MAX || self.prints != prints_before_sentinel + 1
            || !printed_sentinel {
            return Err(TerminalError::IncompleteSequence);
        }
        Ok(())
    }
}

/// Why a repaint cannot be produced.
#[derive(Clone, Copy, Debug, PartialEq, Eq, Structural)]
pub enum PaintError {
    OutputTooLarge,
}

/// A painted chunk, refused when it exceeds the output chunk limit.
pub fn bounded(output: Vec<u8>) -> (r: Result<Vec<u8>, PaintError>)
    ensures
        output@.len() > MAX_OUTPUT_CHUNK_BYTES ==> r == Err::<Vec<u8>, PaintError>(
            PaintError::OutputTooLarge,
        ),
        output@.len() <= MAX_OUTPUT_CHUNK_BYTES ==> (r matches Ok(v) && v@ == output@),
{
    if output.len() > MAX_OUTPUT_CHUNK_BYTES {
        return Err(PaintError::OutputTooLarge);
    }
    Ok(output)
}

/// The sequence that turns off the mouse and focus reporting modes a host
/// may have left on: `CSI ? 1001 l`, `CSI ? 1004 l`, `CSI ? 1015 l`.
pub open spec fn profile_policy_reset() -> Seq<u8> {
    seq![
        0x1b, 0x5b, 0x3f, 0x31, 0x30, 0x30, 0x31, 0x6c,
        0x1b, 0x5b, 0x3f, 0x31, 0x30, 0x30, 0x34, 0x6c,
        0x1b, 0x5b, 0x3f, 0x31, 0x30, 0x31, 0x35, 0x6c,
    ]
}

/// A self-contained repaint: the policy reset, then the formatted screen,
/// within the output chunk limit.
pub fn full_paint(formatted: &[u8]) -> (r: Result<Vec<u8>, PaintError>)
    ensures
        (profile_policy_reset() + formatted@).len() > MAX_OUTPUT_CHUNK_BYTES ==> r == Err::<
            Vec<u8>,
            PaintError,
        >(PaintError::OutputTooLarge),
        (profile_policy_reset() + formatted@).len() <= MAX_OUTPUT_CHUNK_BYTES ==> (r matches Ok(v)
            && v@ == profile_policy_reset() + formatted@),
{
    let mut output: Vec<u8> = vec![
        0x1b, 0x5b, 0x3f, 0x31, 0x30, 0x30, 0x31, 0x6c,
        0x1b, 0x5b, 0x3f, 0x31, 0x30, 0x30, 0x34, 0x6c,
        0x1b, 0x5b, 0x3f, 0x31, 0x30, 0x31, 0x35, 0x6c,
    ];
    assert(output@ =~= profile_policy_reset());
    append_bytes(&mut output, formatted);
    bounded(output)
}

/// How the next output chunk repaints the screen.
#[derive(Clone, Copy, Debug, PartialEq, Eq, Structural)]
pub enum Repaint {
    /// A self-contained repaint of the whole screen.
    Full,
    /// The changes from the previously painted screen.
    Incremental,
}

/// The repaint of the next output chunk: a full one when one was requested,
/// when nothing was painted yet, or when the screen size changed since;
/// otherwise only the changes.
pub fn choose_repaint(force_full: bool, painted_before: bool, same_size: bool) -> (r: Repaint)
    ensures
        r == if force_full || !painted_before || !same_size {
            Repaint::Full
        } else {
            Repaint::Incremental
        },
{
    if force_full || !painted_before || !same_size {
        Repaint::Full
    } else {
        Repaint::Incremental
    }
}

} // verus!
