//! The bootstrap exchange: the one `MOSH CONNECT <port> <key>` record in
//! bounded, untrusted server output, bound to the server's IPv4 address.
use vstd::prelude::*;
use vstd::string::*;

use base64::engine::general_purpose::STANDARD_NO_PAD;
use base64::Engine;

use crate::crypto::{zeroize_key_bytes, SessionKey};
use crate::limits::{DECODED_KEY_BYTES, ENCODED_KEY_BYTES, MAX_BOOTSTRAP_BYTES, MAX_BOOTSTRAP_LINES};
use crate::packet::Ipv4Endpoint;

verus! {

/// An error found while parsing untrusted bootstrap output. Variants carry
/// neither input text nor key material.
#[derive(Clone, Copy, Debug, PartialEq, Eq, Structural)]
#[non_exhaustive]
pub enum BootstrapError {
    /// The bootstrap output exceeded the byte limit.
    OutputTooLarge,
    /// The bootstrap output exceeded the line limit.
    TooManyLines,
    /// No connect record was present.
    MissingConnectRecord,
    /// More than one possible connect record was present.
    AmbiguousConnectRecord,
    /// The connect record did not use the required field layout.
    MalformedConnectRecord,
    /// The UDP port was not a decimal value in the range 1 through 65535.
    InvalidPort,
    /// The session key was not a canonical 22-byte unpadded standard Base64 value.
    InvalidKey,
}

impl BootstrapError {
    /// A description that holds no secret.
    pub fn message(&self) -> (r: &'static str)
        ensures
            match *self {
                BootstrapError::OutputTooLarge => r@ == "bootstrap output exceeds the byte limit"@,
                BootstrapError::TooManyLines => r@ == "bootstrap output exceeds the line limit"@,
                BootstrapError::MissingConnectRecord => r@ == "bootstrap output has no connect record"@,
                BootstrapError::AmbiguousConnectRecord => r@ == "bootstrap output has multiple connect records"@,
                BootstrapError::MalformedConnectRecord => r@ == "bootstrap connect record is malformed"@,
                BootstrapError::InvalidPort => r@ == "bootstrap UDP port is invalid"@,
                BootstrapError::InvalidKey => r@ == "bootstrap session key is invalid"@,
            },
    {
        match self {
            BootstrapError::OutputTooLarge => "bootstrap output exceeds the byte limit",
            BootstrapError::TooManyLines => "bootstrap output exceeds the line limit",
            BootstrapError::MissingConnectRecord => "bootstrap output has no connect record",
            BootstrapError::AmbiguousConnectRecord => "bootstrap output has multiple connect records",
            BootstrapError::MalformedConnectRecord => "bootstrap connect record is malformed",
            BootstrapError::InvalidPort => "bootstrap UDP port is invalid",
            BootstrapError::InvalidKey => "bootstrap session key is invalid",
        }
    }
}

/// `MOSH` in ASCII.
pub open spec fn mosh_word() -> Seq<u8> {
    seq![77u8, 79u8, 83u8, 72u8]
}

/// `CONNECT` in ASCII.
pub open spec fn connect_word() -> Seq<u8> {
    seq![67u8, 79u8, 78u8, 78u8, 69u8, 67u8, 84u8]
}

/// ASCII whitespace: space, tab, line feed, form feed, carriage return.
pub open spec fn is_ascii_space(b: u8) -> bool {
    b == 32 || b == 9 || b == 10 || b == 12 || b == 13
}

/// The number of line feeds in `s`.
pub open spec fn newline_count(s: Seq<u8>) -> nat
    decreases s.len(),
{
    if s.len() == 0 {
        0
    } else {
        newline_count(s.drop_last()) + if s.last() == 10 {
            1nat
        } else {
            0nat
        }
    }
}

/// Lines of `s`: line feeds counted, plus one for a final unterminated line.
pub open spec fn line_count(s: Seq<u8>) -> nat {
    if s.len() == 0 {
        0
    } else {
        newline_count(s) + if s.last() == 10 {
            0nat
        } else {
            1nat
        }
    }
}

/// The first index at or after `i` that holds `sep`, or the length.
pub open spec fn find_byte(s: Seq<u8>, i: nat, sep: u8) -> nat
    decreases s.len() - i,
{
    if i >= s.len() {
        s.len()
    } else if s[i as int] == sep {
        i
    } else {
        find_byte(s, i + 1, sep)
    }
}

/// A terminated line without its optional carriage return.
pub open spec fn strip_cr(line: Seq<u8>) -> Seq<u8> {
    if line.len() > 0 && line.last() == 13 {
        line.drop_last()
    } else {
        line
    }
}

/// The lines of `s` from `start` on, each without its line feed, and a
/// terminated one also without a carriage return before it.
pub open spec fn lines_from(s: Seq<u8>, start: nat) -> Seq<Seq<u8>>
    decreases s.len() - start,
{
    if start >= s.len() {
        Seq::empty()
    } else {
        let e = find_byte(s, start, 10);
        if e < s.len() {
            proof {
                lemma_find_byte_bounds(s, start, 10);
            }
            seq![strip_cr(s.subrange(start as int, e as int))] + lines_from(s, e + 1)
        } else {
            seq![s.subrange(start as int, s.len() as int)]
        }
    }
}

/// The position `find_byte` gives lies between its start and the end.
pub proof fn lemma_find_byte_bounds(s: Seq<u8>, i: nat, sep: u8)
    ensures
        i <= s.len() ==> i <= find_byte(s, i, sep) <= s.len(),
        i > s.len() ==> find_byte(s, i, sep) == s.len(),
        find_byte(s, i, sep) < s.len() ==> s[find_byte(s, i, sep) as int] == sep,
        forall|k: int| i <= k < find_byte(s, i, sep) ==> s[k] != sep,
    decreases s.len() - i,
{
    if i < s.len() && s[i as int] != sep {
        lemma_find_byte_bounds(s, i + 1, sep);
    }
}

/// The first index at or after `i` whose byte is (or, with `space` false, is
/// not) ASCII whitespace, or the length.
pub open spec fn scan(s: Seq<u8>, i: nat, space: bool) -> nat
    decreases s.len() - i,
{
    if i >= s.len() {
        s.len()
    } else if is_ascii_space(s[i as int]) == space {
        i
    } else {
        scan(s, i + 1, space)
    }
}

/// The position a whitespace scan gives lies between its start and the end.
pub proof fn lemma_scan_bounds(s: Seq<u8>, i: nat, space: bool)
    ensures
        i <= s.len() ==> i <= scan(s, i, space) <= s.len(),
        forall|k: int| i <= k < scan(s, i, space) ==> is_ascii_space(s[k]) != space,
    decreases s.len() - i,
{
    if i < s.len() && is_ascii_space(s[i as int]) != space {
        lemma_scan_bounds(s, i + 1, space);
    }
}

/// Whether the first two whitespace-separated words of `line` are `MOSH`
/// and `CONNECT`.
pub open spec fn looks_like_record(line: Seq<u8>) -> bool {
    let a = scan(line, 0, false);
    let b = scan(line, a, true);
    let c = scan(line, b, false);
    let d = scan(line, c, true);
    a <= b && b <= c && c <= d && d <= line.len() && line.subrange(a as int, b as int)
        == mosh_word() && line.subrange(c as int, d as int) == connect_word()
}

/// The fields of `s` from `start` on, separated by single spaces.
pub open spec fn space_fields(s: Seq<u8>, start: nat) -> Seq<Seq<u8>>
    decreases s.len() + 1 - start,
{
    if start > s.len() {
        Seq::empty()
    } else {
        let e = find_byte(s, start, 32);
        if e < s.len() {
            proof {
                lemma_find_byte_bounds(s, start, 32);
            }
            seq![s.subrange(start as int, e as int)] + space_fields(s, e + 1)
        } else {
            proof {
                lemma_find_byte_bounds(s, start, 32);
            }
            seq![s.subrange(start as int, s.len() as int)]
        }
    }
}

/// The value of a string of decimal digits.
pub open spec fn decimal_value(s: Seq<u8>) -> nat
    decreases s.len(),
{
    if s.len() == 0 {
        0
    } else {
        decimal_value(s.drop_last()) * 10 + (s.last() - 48) as nat
    }
}

/// What parsing a port field gives.
pub open spec fn port_result(s: Seq<u8>) -> Result<u16, BootstrapError> {
    if s.len() > 5 || exists|i: int| 0 <= i < s.len() && !(48 <= #[trigger] s[i] <= 57) {
        Err(BootstrapError::InvalidPort)
    } else if decimal_value(s) == 0 || decimal_value(s) > 65535 {
        Err(BootstrapError::InvalidPort)
    } else {
        Ok(decimal_value(s) as u16)
    }
}

/// What `base64::engine::general_purpose::STANDARD_NO_PAD.decode_slice`
/// writes into a buffer of sixteen bytes for `input`, or `None` when it
/// refuses the input.
pub uninterp spec fn base64_key_decoded(input: Seq<u8>) -> Option<Seq<u8>>;

/// Calls `STANDARD_NO_PAD.decode_slice` with a sixteen-byte output buffer.
/// The contract names what it writes and states that the count it returns
/// is that many bytes, all inside the buffer; what a refused call leaves in
/// the buffer is left unsaid.
#[verifier::external_body]
fn decode_key_text(input: &[u8], output: &mut [u8; DECODED_KEY_BYTES]) -> (r: Option<usize>)
    ensures
        r is None <==> base64_key_decoded(input@) is None,
        r matches Some(n) ==> n <= DECODED_KEY_BYTES,
        r matches Some(n) ==> base64_key_decoded(input@) == Some(
            final(output)@.subrange(0, n as int),
        ),
{
    STANDARD_NO_PAD.decode_slice(input, output.as_mut_slice()).ok()
}

/// The key that a decoded key field gives: exactly sixteen decoded bytes.
pub open spec fn key_result(decoded: Option<Seq<u8>>) -> Result<Seq<u8>, BootstrapError> {
    match decoded {
        Some(b) => if b.len() == DECODED_KEY_BYTES {
            Ok(b)
        } else {
            Err(BootstrapError::InvalidKey)
        },
        None => Err(BootstrapError::InvalidKey),
    }
}

/// What parsing a connect record gives: its port and key.
pub open spec fn record_result(record: Seq<u8>) -> Result<(u16, Seq<u8>), BootstrapError> {
    let f = space_fields(record, 0);
    if exists|i: int| 0 <= i < record.len() && is_ascii_space(#[trigger] record[i]) && record[i]
        != 32 {
        Err(BootstrapError::MalformedConnectRecord)
    } else if !(f.len() == 4 && f[0] == mosh_word() && f[1] == connect_word() && f[2].len() > 0
        && f[3].len() > 0) {
        Err(BootstrapError::MalformedConnectRecord)
    } else {
        match port_result(f[2]) {
            Err(e) => Err(e),
            Ok(port) => if f[3].len() != ENCODED_KEY_BYTES {
                Err(BootstrapError::InvalidKey)
            } else {
                match key_result(base64_key_decoded(f[3])) {
                    Err(e) => Err(e),
                    Ok(key) => Ok((port, key)),
                }
            },
        }
    }
}

/// The lines of `output` that look like connect records.
pub open spec fn record_candidates(output: Seq<u8>) -> Seq<Seq<u8>> {
    candidates_of(lines_from(output, 0))
}

/// What parsing bootstrap output gives: the port and key of its one connect
/// record.
pub open spec fn bootstrap_result(output: Seq<u8>) -> Result<(u16, Seq<u8>), BootstrapError> {
    if output.len() > MAX_BOOTSTRAP_BYTES {
        Err(BootstrapError::OutputTooLarge)
    } else if line_count(output) > MAX_BOOTSTRAP_LINES {
        Err(BootstrapError::TooManyLines)
    } else if record_candidates(output).len() == 0 {
        Err(BootstrapError::MissingConnectRecord)
    } else if record_candidates(output).len() > 1 {
        Err(BootstrapError::AmbiguousConnectRecord)
    } else {
        record_result(record_candidates(output)[0])
    }
}


proof fn lemma_newline_count_bound(s: Seq<u8>)
    ensures
        newline_count(s) <= s.len(),
    decreases s.len(),
{
    if s.len() > 0 {
        lemma_newline_count_bound(s.drop_last());
    }
}

/// The number of physical lines of `output`.
pub fn physical_line_count(output: &[u8]) -> (r: usize)
    ensures
        r == line_count(output@),
{
    let total = output.len();
    if total == 0 {
        return 0;
    }
    let mut count: usize = 0;
    let mut i: usize = 0;
    assert(output@.take(0) =~= Seq::<u8>::empty());
    while i < total
        invariant
            total == output@.len(),
            i <= total,
            count == newline_count(output@.take(i as int)),
            count <= i,
        decreases total - i,
    {
        assert(output@.take(i + 1).drop_last() =~= output@.take(i as int));
        if output[i] == 10 {
            count = count + 1;
        }
        i = i + 1;
    }
    assert(output@.take(total as int) =~= output@);
    if output[total - 1] == 10 {
        count
    } else {
        proof {
            lemma_newline_count_bound(output@.drop_last());
        }
        count + 1
    }
}

/// The first index at or after `from` that holds `sep`, or the length.
fn find_byte_exec(s: &[u8], from: usize, sep: u8) -> (r: usize)
    requires
        from <= s@.len(),
    ensures
        r == find_byte(s@, from as nat, sep),
        from <= r <= s@.len(),
{
    proof {
        lemma_find_byte_bounds(s@, from as nat, sep);
    }
    let total = s.len();
    let mut e = from;
    while e < total && s[e] != sep
        invariant
            total == s@.len(),
            from <= e <= total,
            find_byte(s@, e as nat, sep) == find_byte(s@, from as nat, sep),
        decreases total - e,
    {
        e = e + 1;
    }
    e
}

/// The first index at or after `from` whose byte is (or, with `space` false,
/// is not) ASCII whitespace, or the length.
fn scan_exec(s: &[u8], from: usize, space: bool) -> (r: usize)
    requires
        from <= s@.len(),
    ensures
        r == scan(s@, from as nat, space),
        from <= r <= s@.len(),
{
    proof {
        lemma_scan_bounds(s@, from as nat, space);
    }
    let total = s.len();
    let mut e = from;
    while e < total
        invariant
            total == s@.len(),
            from <= e <= total,
            scan(s@, e as nat, space) == scan(s@, from as nat, space),
        decreases total - e,
    {
        let b = s[e];
        let is_space = b == 32 || b == 9 || b == 10 || b == 12 || b == 13;
        if is_space == space {
            return e;
        }
        e = e + 1;
    }
    e
}

/// Whether `s[start..end]` holds exactly `word`.
fn range_equals(s: &[u8], start: usize, end: usize, word: &[u8]) -> (r: bool)
    requires
        start <= end <= s@.len(),
    ensures
        r == (s@.subrange(start as int, end as int) == word@),
{
    if end - start != word.len() {
        assert(s@.subrange(start as int, end as int).len() != word@.len());
        return false;
    }
    let mut i: usize = 0;
    while i < word.len()
        invariant
            start <= end <= s@.len(),
            end - start == word@.len(),
            i <= word@.len(),
            forall|k: int| 0 <= k < i ==> s@[start + k] == word@[k],
        decreases word@.len() - i,
    {
        if s[start + i] != word[i] {
            assert(s@.subrange(start as int, end as int)[i as int] != word@[i as int]);
            return false;
        }
        i = i + 1;
    }
    assert(s@.subrange(start as int, end as int) =~= word@);
    true
}

/// Whether the first two whitespace-separated words of `line` are `MOSH`
/// and `CONNECT`.
pub fn looks_like_connect_record(line: &[u8]) -> (r: bool)
    ensures
        r == looks_like_record(line@),
{
    let a = scan_exec(line, 0, false);
    let b = scan_exec(line, a, true);
    let c = scan_exec(line, b, false);
    let d = scan_exec(line, c, true);
    let mosh: [u8; 4] = [77, 79, 83, 72];
    let connect: [u8; 7] = [67, 79, 78, 78, 69, 67, 84];
    assert(mosh@ =~= mosh_word());
    assert(connect@ =~= connect_word());
    range_equals(line, a, b, mosh.as_slice()) && range_equals(line, c, d, connect.as_slice())
}

/// Parses a decimal port in 1 through 65535.
pub fn parse_port(bytes: &[u8]) -> (r: Result<u16, BootstrapError>)
    ensures
        r == port_result(bytes@),
{
    if bytes.len() > 5 {
        return Err(BootstrapError::InvalidPort);
    }
    let mut i: usize = 0;
    while i < bytes.len()
        invariant
            bytes@.len() <= 5,
            i <= bytes@.len(),
            forall|k: int| 0 <= k < i ==> 48 <= #[trigger] bytes@[k] <= 57,
        decreases bytes@.len() - i,
    {
        if bytes[i] < 48 || bytes[i] > 57 {
            return Err(BootstrapError::InvalidPort);
        }
        i = i + 1;
    }
    let mut port: u32 = 0;
    let mut j: usize = 0;
    assert(bytes@.take(0) =~= Seq::<u8>::empty());
    while j < bytes.len()
        invariant
            bytes@.len() <= 5,
            j <= bytes@.len(),
            forall|k: int| 0 <= k < bytes@.len() ==> 48 <= #[trigger] bytes@[k] <= 57,
            port == decimal_value(bytes@.take(j as int)),
            port < pow10(j as nat),
        decreases bytes@.len() - j,
    {
        assert(bytes@.take(j + 1).drop_last() =~= bytes@.take(j as int));
        assert(pow10((j + 1) as nat) == 10 * pow10(j as nat));
        assert(pow10(j as nat) <= 10000) by {
            lemma_pow10_small(j as nat);
        }
        port = port * 10 + (bytes[j] - 48) as u32;
        j = j + 1;
    }
    assert(bytes@.take(j as int) =~= bytes@);
    if port == 0 || port > 65535 {
        return Err(BootstrapError::InvalidPort);
    }
    Ok(port as u16)
}

/// `10` raised to `n`.
pub open spec fn pow10(n: nat) -> nat
    decreases n,
{
    if n == 0 {
        1
    } else {
        10 * pow10((n - 1) as nat)
    }
}

proof fn lemma_pow10_small(n: nat)
    requires
        n <= 4,
    ensures
        pow10(n) <= 10000,
{
    reveal_with_fuel(pow10, 5);
}

/// The session key that a decoded key field gives: the buffer when exactly
/// sixteen bytes were decoded into it. A refused buffer is zeroized.
pub fn key_from_decoded(decoded: Option<usize>, buffer: [u8; DECODED_KEY_BYTES]) -> (r: Result<
    SessionKey,
    BootstrapError,
>)
    ensures
        decoded == Some(DECODED_KEY_BYTES) ==> (r matches Ok(k) && k.key() == buffer@),
        decoded != Some(DECODED_KEY_BYTES) ==> r is Err && r->Err_0 == BootstrapError::InvalidKey,
{
    match decoded {
        Some(n) => {
            if n == DECODED_KEY_BYTES {
                return Ok(SessionKey::new(buffer));
            }
        },
        None => {},
    }
    let mut discarded = buffer;
    zeroize_key_bytes(&mut discarded);
    Err(BootstrapError::InvalidKey)
}


proof fn lemma_space_fields_step(s: Seq<u8>, start: nat)
    requires
        start <= s.len(),
    ensures
        find_byte(s, start, 32) < s.len() ==> space_fields(s, start) == seq![
            s.subrange(start as int, find_byte(s, start, 32) as int),
        ] + space_fields(s, find_byte(s, start, 32) + 1),
        find_byte(s, start, 32) == s.len() ==> space_fields(s, start) == seq![
            s.subrange(start as int, s.len() as int),
        ],
{
    lemma_find_byte_bounds(s, start, 32);
}

/// The bounds of every space-separated field of `record`.
fn field_bounds(record: &[u8]) -> (r: Vec<(usize, usize)>)
    ensures
        r@.len() == space_fields(record@, 0).len(),
        forall|i: int| 0 <= i < r@.len() ==> (#[trigger] r@[i]).0 <= r@[i].1 && r@[i].1 <= record@.len(),
        forall|i: int|
            0 <= i < r@.len() ==> record@.subrange(r@[i].0 as int, r@[i].1 as int)
                == #[trigger] space_fields(record@, 0)[i],
{
    let ghost s = record@;
    let total = record.len();
    let mut bounds: Vec<(usize, usize)> = Vec::new();
    let mut pos: usize = 0;
    let mut done = false;
    let ghost mut seen: Seq<Seq<u8>> = Seq::empty();
    while !done
        invariant
            total == s.len(),
            s == record@,
            pos <= total,
            done ==> seen == space_fields(s, 0),
            !done ==> seen + space_fields(s, pos as nat) == space_fields(s, 0),
            bounds@.len() == seen.len(),
            forall|i: int|
                0 <= i < bounds@.len() ==> (#[trigger] bounds@[i]).0 <= bounds@[i].1 && bounds@[i].1
                    <= total,
            forall|i: int|
                0 <= i < bounds@.len() ==> s.subrange(bounds@[i].0 as int, bounds@[i].1 as int)
                    == #[trigger] seen[i],
        decreases total - pos + if done {
            0int
        } else {
            1int
        },
    {
        let e = find_byte_exec(record, pos, 32);
        proof {
            lemma_space_fields_step(s, pos as nat);
        }
        let ghost old_bounds = bounds@;
        bounds.push((pos, e));
        proof {
            let piece = s.subrange(pos as int, e as int);
            assert forall|i: int| 0 <= i < bounds@.len() implies (#[trigger] bounds@[i]).0
                <= bounds@[i].1 && bounds@[i].1 <= total by {
                if i < old_bounds.len() {
                    assert(bounds@[i] == old_bounds[i]);
                }
            }
            assert forall|i: int| 0 <= i < bounds@.len() implies s.subrange(
                bounds@[i].0 as int,
                bounds@[i].1 as int,
            ) == #[trigger] seen.push(piece)[i] by {
                if i < old_bounds.len() {
                    assert(bounds@[i] == old_bounds[i]);
                    assert(seen.push(piece)[i] == seen[i]);
                }
            }
            if e < total {
                assert(seen.push(piece) + space_fields(s, (e + 1) as nat) =~= seen + space_fields(
                    s,
                    pos as nat,
                ));
            } else {
                assert(seen.push(piece) =~= seen + space_fields(s, pos as nat));
            }
            seen = seen.push(piece);
        }
        if e < total {
            pos = e + 1;
        } else {
            done = true;
        }
    }
    bounds
}

/// Parses the record `MOSH CONNECT <port> <key>` with single spaces.
pub fn parse_connect_record(record: &[u8]) -> (r: Result<(u16, SessionKey), BootstrapError>)
    ensures
        match record_result(record@) {
            Ok((port, key)) => r matches Ok((p, k)) && p == port && k.key() == key,
            Err(e) => r is Err && r->Err_0 == e,
        },
{
    let mut i: usize = 0;
    while i < record.len()
        invariant
            i <= record@.len(),
            forall|k: int| 0 <= k < i ==> !(is_ascii_space(#[trigger] record@[k]) && record@[k] != 32),
        decreases record@.len() - i,
    {
        let b = record[i];
        if b == 9 || b == 10 || b == 12 || b == 13 {
            assert(is_ascii_space(record@[i as int]) && record@[i as int] != 32);
            return Err(BootstrapError::MalformedConnectRecord);
        }
        i = i + 1;
    }
    let bounds = field_bounds(record);
    let ghost f = space_fields(record@, 0);
    if bounds.len() != 4 {
        return Err(BootstrapError::MalformedConnectRecord);
    }
    let mosh: [u8; 4] = [77, 79, 83, 72];
    let connect: [u8; 7] = [67, 79, 78, 78, 69, 67, 84];
    assert(mosh@ =~= mosh_word());
    assert(connect@ =~= connect_word());
    let (a0, b0) = bounds[0];
    let (a1, b1) = bounds[1];
    let (a2, b2) = bounds[2];
    let (a3, b3) = bounds[3];
    assert(record@.subrange(a0 as int, b0 as int) == f[0]);
    assert(record@.subrange(a1 as int, b1 as int) == f[1]);
    assert(record@.subrange(a2 as int, b2 as int) == f[2]);
    assert(record@.subrange(a3 as int, b3 as int) == f[3]);
    if !range_equals(record, a0, b0, mosh.as_slice()) || !range_equals(
        record,
        a1,
        b1,
        connect.as_slice(),
    ) || b2 == a2 || b3 == a3 {
        return Err(BootstrapError::MalformedConnectRecord);
    }
    let port_text = vstd::slice::slice_subrange(record, a2, b2);
    let port = match parse_port(port_text) {
        Err(e) => {
            return Err(e);
        },
        Ok(p) => p,
    };
    if b3 - a3 != ENCODED_KEY_BYTES {
        return Err(BootstrapError::InvalidKey);
    }
    let key_text = vstd::slice::slice_subrange(record, a3, b3);
    let mut buffer = [0u8; DECODED_KEY_BYTES];
    let decoded = decode_key_text(key_text, &mut buffer);
    proof {
        if decoded == Some(DECODED_KEY_BYTES) {
            assert(buffer@.subrange(0, 16) =~= buffer@);
        }
    }
    match key_from_decoded(decoded, buffer) {
        Err(e) => Err(e),
        Ok(key) => Ok((port, key)),
    }
}


/// The lines of `lines` that look like connect records.
pub open spec fn candidates_of(lines: Seq<Seq<u8>>) -> Seq<Seq<u8>> {
    lines.filter(|line: Seq<u8>| looks_like_record(line))
}

proof fn lemma_candidates_push(lines: Seq<Seq<u8>>, line: Seq<u8>)
    ensures
        candidates_of(lines.push(line)) == if looks_like_record(line) {
            candidates_of(lines).push(line)
        } else {
            candidates_of(lines)
        },
{
    reveal(Seq::filter);
    assert(lines.push(line).drop_last() =~= lines);
    assert(lines.push(line).last() == line);
}

proof fn lemma_candidates_prefix(a: Seq<Seq<u8>>, b: Seq<Seq<u8>>)
    ensures
        candidates_of(a + b).len() >= candidates_of(a).len(),
        candidates_of(a).len() > 0 ==> candidates_of(a + b)[0] == candidates_of(a)[0],
{
    let pred = |line: Seq<u8>| looks_like_record(line);
    Seq::filter_distributes_over_add(a, b, pred);
}

/// The end of the line that starts at `pos` (before its line feed and the
/// carriage return of a terminated line) and where the next line starts.
fn next_line(output: &[u8], pos: usize) -> (r: (usize, usize))
    requires
        pos < output@.len(),
    ensures
        pos <= r.0 <= output@.len(),
        pos < r.1 <= output@.len(),
        lines_from(output@, pos as nat) == seq![output@.subrange(pos as int, r.0 as int)]
            + lines_from(output@, r.1 as nat),
{
    let ghost s = output@;
    let total = output.len();
    let e = find_byte_exec(output, pos, 10);
    proof {
        lemma_find_byte_bounds(s, pos as nat, 10);
    }
    if e < total {
        let mut line_end = e;
        if e > pos && output[e - 1] == 13 {
            line_end = e - 1;
        }
        assert(s.subrange(pos as int, line_end as int) =~= strip_cr(s.subrange(pos as int, e as int)));
        (line_end, e + 1)
    } else {
        assert(lines_from(s, total as nat) =~= Seq::<Seq<u8>>::empty());
        assert(seq![s.subrange(pos as int, total as int)] + lines_from(s, total as nat) =~= seq![
            s.subrange(pos as int, total as int),
        ]);
        (total, total)
    }
}

/// The text of one decimal digit.
pub open spec fn digit_text(d: nat) -> Seq<char> {
    if d == 0 {
        "0"@
    } else if d == 1 {
        "1"@
    } else if d == 2 {
        "2"@
    } else if d == 3 {
        "3"@
    } else if d == 4 {
        "4"@
    } else if d == 5 {
        "5"@
    } else if d == 6 {
        "6"@
    } else if d == 7 {
        "7"@
    } else if d == 8 {
        "8"@
    } else {
        "9"@
    }
}

/// The decimal text of `n`, most significant digit first, with no leading
/// zeros.
pub open spec fn decimal_text(n: nat) -> Seq<char>
    decreases n,
{
    if n < 10 {
        digit_text(n)
    } else {
        decimal_text(n / 10) + digit_text(n % 10)
    }
}

/// The debugging text of a bootstrap value with endpoint `addr` and a key of
/// `key_bytes` bytes: the address in dotted-quad form with its port, the
/// key's length, and the key redacted.
pub open spec fn bootstrap_debug_text(addr: Ipv4Endpoint, key_bytes: nat) -> Seq<char> {
    let a = addr.address as nat;
    "Bootstrap { server_addr: "@ + decimal_text(a / 0x100_0000) + "."@ + decimal_text(
        a / 0x1_0000 % 256,
    ) + "."@ + decimal_text(a / 256 % 256) + "."@ + decimal_text(a % 256) + ":"@ + decimal_text(
        addr.port as nat,
    ) + ", session_key_bytes: "@ + decimal_text(key_bytes) + ", session_key: \"[REDACTED]\" }"@
}

/// The text of the digit `d`.
fn digit_str(d: u32) -> (r: &'static str)
    requires
        d < 10,
    ensures
        r@ == digit_text(d as nat),
{
    if d == 0 {
        "0"
    } else if d == 1 {
        "1"
    } else if d == 2 {
        "2"
    } else if d == 3 {
        "3"
    } else if d == 4 {
        "4"
    } else if d == 5 {
        "5"
    } else if d == 6 {
        "6"
    } else if d == 7 {
        "7"
    } else if d == 8 {
        "8"
    } else {
        "9"
    }
}

/// Appends the decimal text of `n` to `out`.
fn append_decimal(out: &mut String, n: u32)
    ensures
        final(out)@ == old(out)@ + decimal_text(n as nat),
    decreases n,
{
    if n >= 10 {
        append_decimal(out, n / 10);
    }
    out.append(digit_str(n % 10));
    proof {
        if n >= 10 {
            assert(out@ =~= old(out)@ + decimal_text(n as nat));
        }
    }
}

/// Validated values of a bootstrap exchange: the server's UDP endpoint and
/// the session key.
pub struct Bootstrap {
    server_addr: Ipv4Endpoint,
    session_key: SessionKey,
}

impl Bootstrap {
    /// The validated server endpoint.
    pub closed spec fn server_addr_spec(&self) -> Ipv4Endpoint {
        self.server_addr
    }

    /// The session key's bytes.
    pub closed spec fn key(&self) -> Seq<u8> {
        self.session_key.key()
    }

    /// Parses bounded, untrusted server output and binds it to the server's
    /// IPv4 address (its octets as a big-endian number). Unrelated lines are
    /// ignored as raw bytes; a possible connect record is accepted only in
    /// the exact form `MOSH CONNECT <port> <key>` with single spaces.
    pub fn parse(server_address: u32, output: &[u8]) -> (r: Result<Bootstrap, BootstrapError>)
        ensures
            match bootstrap_result(output@) {
                Ok((port, key)) => r matches Ok(b) && b.server_addr_spec() == (Ipv4Endpoint {
                    address: server_address,
                    port,
                }) && b.key() == key,
                Err(e) => r is Err && r->Err_0 == e,
            },
    {
        if output.len() > MAX_BOOTSTRAP_BYTES {
            return Err(BootstrapError::OutputTooLarge);
        }
        if physical_line_count(output) > MAX_BOOTSTRAP_LINES {
            return Err(BootstrapError::TooManyLines);
        }
        let ghost s = output@;
        let total = output.len();
        let mut candidate: Option<(usize, usize)> = None;
        let mut pos: usize = 0;
        let ghost mut seen: Seq<Seq<u8>> = Seq::empty();
        proof {
            reveal(Seq::filter);
            assert(seen.filter(|line: Seq<u8>| looks_like_record(line)) =~= Seq::<Seq<u8>>::empty());
            assert(seen + lines_from(s, 0) =~= lines_from(s, 0));
        }
        while pos < total
            invariant
                total == s.len(),
                s == output@,
                s.len() <= MAX_BOOTSTRAP_BYTES,
                line_count(s) <= MAX_BOOTSTRAP_LINES,
                pos <= total,
                seen + lines_from(s, pos as nat) == lines_from(s, 0),
                candidates_of(seen).len() <= 1,
                candidate is None <==> candidates_of(seen).len() == 0,
                candidate matches Some((a, b)) ==> a <= b <= total && s.subrange(a as int, b as int)
                    == candidates_of(seen)[0],
            decreases total - pos,
        {
            let (line_end, next) = next_line(output, pos);
            let line = vstd::slice::slice_subrange(output, pos, line_end);
            let ghost piece = line@;
            proof {
                assert(seen.push(piece) + lines_from(s, next as nat) =~= seen + lines_from(
                    s,
                    pos as nat,
                ));
                lemma_candidates_push(seen, piece);
            }
            if looks_like_connect_record(line) {
                if candidate.is_some() {
                    proof {
                        lemma_candidates_prefix(seen.push(piece), lines_from(s, next as nat));
                        assert(candidates_of(seen.push(piece)).len() == 2);
                        assert(record_candidates(s) == candidates_of(seen.push(piece) + lines_from(
                            s,
                            next as nat,
                        )));
                    }
                    return Err(BootstrapError::AmbiguousConnectRecord);
                }
                candidate = Some((pos, line_end));
            }
            proof {
                seen = seen.push(piece);
            }
            pos = next;
        }
        proof {
            assert(lines_from(s, pos as nat) =~= Seq::<Seq<u8>>::empty());
            assert(seen + lines_from(s, pos as nat) =~= seen);
        }
        let (start, end) = match candidate {
            None => {
                return Err(BootstrapError::MissingConnectRecord);
            },
            Some(c) => c,
        };
        let record = vstd::slice::slice_subrange(output, start, end);
        let (port, session_key) = match parse_connect_record(record) {
            Err(e) => {
                return Err(e);
            },
            Ok(parts) => parts,
        };
        Ok(Bootstrap { server_addr: Ipv4Endpoint { address: server_address, port }, session_key })
    }

    /// The validated server endpoint.
    pub fn server_addr(&self) -> (r: Ipv4Endpoint)
        ensures
            r == self.server_addr_spec(),
    {
        self.server_addr
    }

    /// The session key's bytes.
    pub fn session_key(&self) -> (r: &[u8; DECODED_KEY_BYTES])
        ensures
            r@ == self.key(),
    {
        self.session_key.as_bytes()
    }

    /// Overwrites the stored session key with zeros.
    pub fn zeroize_session_key(&mut self)
        ensures
            final(self).server_addr_spec() == old(self).server_addr_spec(),
            final(self).key() == Seq::new(DECODED_KEY_BYTES as nat, |_i: int| 0u8),
    {
        self.session_key.zeroize();
    }

    /// The value's debugging text. It shows the endpoint and the key's
    /// length, and the key itself only as `[REDACTED]`.
    pub fn debug_text(&self) -> (r: String)
        ensures
            r@ == bootstrap_debug_text(self.server_addr_spec(), self.key().len()),
    {
        let key_bytes: usize = self.session_key.as_bytes().len();
        let address = self.server_addr.address;
        let mut out = String::new();
        out.append("Bootstrap { server_addr: ");
        append_decimal(&mut out, address / 0x100_0000);
        out.append(".");
        append_decimal(&mut out, address / 0x1_0000 % 256);
        out.append(".");
        append_decimal(&mut out, address / 256 % 256);
        out.append(".");
        append_decimal(&mut out, address % 256);
        out.append(":");
        append_decimal(&mut out, self.server_addr.port as u32);
        out.append(", session_key_bytes: ");
        append_decimal(&mut out, key_bytes as u32);
        out.append(", session_key: \"[REDACTED]\" }");
        out
    }

    /// The endpoint and key, for a session.
    pub fn into_session_parts(self) -> (r: (Ipv4Endpoint, SessionKey))
        ensures
            r.0 == self.server_addr_spec(),
            r.1.key() == self.key(),
    {
        (self.server_addr, self.session_key)
    }
}

} // verus!
