//! Authenticated datagrams: an 8-byte big-endian header holding the
//! direction bit and a 63-bit sequence number, the OCB3-encrypted body, and
//! the tag; replay protection for received datagrams; and the sequence of
//! sent datagrams.
use vstd::prelude::*;

use crate::bytes::{
    be_bytes, be_value, clear_range, copy_into, lemma_be_bytes_len, lemma_be_roundtrip_small,
    lemma_pow256_facts, read_be, spliced, write_be,
};
use crate::crypto::{ocb3_opened, ocb3_sealed, zeroize_bytes, SessionCrypto, SessionKey};
use crate::limits::{DECODED_KEY_BYTES, MAX_DATAGRAM_BYTES};

verus! {

/// Bytes of the datagram header.
pub const HEADER_BYTES: usize = 8;
/// Bytes of the authentication tag.
pub const TAG_BYTES: usize = 16;
/// Bytes that a datagram adds to its plaintext.
pub const OVERHEAD_BYTES: usize = 24;
/// Largest plaintext of one datagram.
pub const MAX_PLAINTEXT_BYTES: usize = 1414;
/// Largest sequence number.
pub const MAX_SEQUENCE: u64 = 0x7fff_ffff_ffff_ffff;
/// The header bit that marks the server-to-client direction.
pub const DIRECTION_MASK: u64 = 0x8000_0000_0000_0000;
/// Sequence numbers this far below the highest one are too old.
pub const REPLAY_WINDOW_BITS: u64 = 64;

/// The direction a datagram travels in, carried in its header.
#[derive(Clone, Copy, Debug, PartialEq, Eq, Structural)]
pub enum Direction {
    ClientToServer,
    ServerToClient,
}

/// The header bit of a direction.
pub open spec fn direction_bit(d: Direction) -> u64 {
    match d {
        Direction::ClientToServer => 0,
        Direction::ServerToClient => DIRECTION_MASK,
    }
}

impl Direction {
    /// The header bit that marks this direction.
    pub fn header_bit(self) -> (r: u64)
        ensures
            r == direction_bit(self),
    {
        match self {
            Direction::ClientToServer => 0,
            Direction::ServerToClient => DIRECTION_MASK,
        }
    }
}

/// Why a datagram cannot be sealed or opened.
#[derive(Clone, Copy, Debug, PartialEq, Eq, Structural)]
pub enum PacketError {
    DatagramTooShort,
    DatagramTooLarge,
    PlaintextTooLarge,
    OutputTooSmall,
    InvalidSequence,
    WrongDirection,
    AuthenticationFailed,
    Replay,
    TooOld,
    SequenceExhausted,
    UnexpectedSource,
}

/// The nonce of a datagram: four zero bytes, then its header.
pub open spec fn nonce_of(header: Seq<u8>) -> Seq<u8> {
    seq![0u8, 0u8, 0u8, 0u8] + header
}

/// The nonce of a datagram with the given header.
pub fn nonce(header: [u8; HEADER_BYTES]) -> (r: [u8; 12])
    ensures
        r@ == nonce_of(header@),
{
    let mut n = [0u8; 12];
    let mut index: usize = 0;
    while index < HEADER_BYTES
        invariant
            index <= HEADER_BYTES,
            n@.len() == 12,
            forall|k: int| 0 <= k < 4 ==> n@[k] == 0,
            forall|k: int| 0 <= k < index ==> n@[k + 4] == header@[k],
        decreases HEADER_BYTES - index,
    {
        n[index + 4] = header[index];
        index = index + 1;
    }
    assert(n@ =~= nonce_of(header@));
    n
}

/// The header of a datagram in `direction` with `sequence`.
pub open spec fn header_bytes(direction: Direction, sequence: u64) -> Seq<u8> {
    be_bytes((direction_bit(direction) + sequence) as nat, 8)
}

/// The datagram that sealing `plaintext` produces.
pub open spec fn sealed_datagram(
    key: Seq<u8>,
    direction: Direction,
    sequence: u64,
    plaintext: Seq<u8>,
) -> Seq<u8> {
    let h = header_bytes(direction, sequence);
    let (ciphertext, tag) = ocb3_sealed(key, nonce_of(h), plaintext);
    h + ciphertext + tag
}

/// What opening `datagram`, expected to travel in `direction`, gives: its
/// sequence number and plaintext.
pub open spec fn open_result(key: Seq<u8>, direction: Direction, datagram: Seq<u8>) -> Result<
    (u64, Seq<u8>),
    PacketError,
> {
    if datagram.len() > MAX_DATAGRAM_BYTES {
        Err(PacketError::DatagramTooLarge)
    } else if datagram.len() < OVERHEAD_BYTES {
        Err(PacketError::DatagramTooShort)
    } else {
        let h = datagram.subrange(0, 8);
        let value = be_value(h);
        if (value >= DIRECTION_MASK) != (direction == Direction::ServerToClient) {
            Err(PacketError::WrongDirection)
        } else {
            let body_end = datagram.len() - 16;
            match ocb3_opened(
                key,
                nonce_of(h),
                datagram.subrange(8, body_end),
                datagram.subrange(body_end, datagram.len() as int),
            ) {
                None => Err(PacketError::AuthenticationFailed),
                Some(p) => Ok(((value % 0x8000_0000_0000_0000) as u64, p)),
            }
        }
    }
}

proof fn lemma_header_bits(bit: u64, sequence: u64)
    requires
        bit == 0 || bit == 0x8000_0000_0000_0000u64,
        sequence <= 0x7fff_ffff_ffff_ffffu64,
    ensures
        bit | sequence == bit + sequence,
{
    assert(bit | sequence == bit + sequence) by (bit_vector)
        requires
            bit == 0 || bit == 0x8000_0000_0000_0000u64,
            sequence <= 0x7fff_ffff_ffff_ffffu64,
    ;
}

proof fn lemma_header_fields(header: u64)
    ensures
        header & 0x8000_0000_0000_0000u64 == if header >= 0x8000_0000_0000_0000u64 {
            0x8000_0000_0000_0000u64
        } else {
            0u64
        },
        header & 0x7fff_ffff_ffff_ffffu64 == header % 0x8000_0000_0000_0000u64,
{
    assert(header & 0x8000_0000_0000_0000u64 == if header >= 0x8000_0000_0000_0000u64 {
        0x8000_0000_0000_0000u64
    } else {
        0u64
    }) by (bit_vector);
    assert(header & 0x7fff_ffff_ffff_ffffu64 == header % 0x8000_0000_0000_0000u64) by (bit_vector);
}

/// Seals and opens datagrams with one session key.
pub struct PacketCodec {
    crypto: SessionCrypto,
}

/// An opened datagram.
#[derive(Debug)]
pub struct OpenedPacket {
    pub sequence: u64,
    pub plaintext: Vec<u8>,
}

impl PacketCodec {
    /// The session key the codec uses.
    pub closed spec fn key(&self) -> Seq<u8> {
        self.crypto.key()
    }

    /// A codec for `key`.
    pub fn new(key: &SessionKey) -> (r: PacketCodec)
        ensures
            r.key() == key.key(),
    {
        PacketCodec { crypto: SessionCrypto::new(key) }
    }

    /// Overwrites the codec's key with zeros.
    pub fn zeroize(&mut self)
        ensures
            final(self).key() == Seq::new(DECODED_KEY_BYTES as nat, |_i: int| 0u8),
    {
        self.crypto.zeroize();
    }

    /// Writes the datagram carrying `plaintext` to the front of `output` and
    /// returns its length. What it writes, `open` reads back as `sequence`
    /// and `plaintext`.
    pub fn seal(&self, direction: Direction, sequence: u64, plaintext: &[u8], output: &mut [u8]) -> (r:
        Result<usize, PacketError>)
        ensures
            sequence > MAX_SEQUENCE ==> r == Err::<usize, PacketError>(
                PacketError::InvalidSequence,
            ),
            sequence <= MAX_SEQUENCE && plaintext@.len() > MAX_PLAINTEXT_BYTES ==> r == Err::<
                usize,
                PacketError,
            >(PacketError::PlaintextTooLarge),
            sequence <= MAX_SEQUENCE && plaintext@.len() <= MAX_PLAINTEXT_BYTES && old(output)@.len() < OVERHEAD_BYTES + plaintext@.len() ==> r == Err::<usize, PacketError>(
                PacketError::OutputTooSmall,
            ),
            r is Err ==> final(output)@ == old(output)@,
            sequence <= MAX_SEQUENCE && plaintext@.len() <= MAX_PLAINTEXT_BYTES && old(output)@.len() >= OVERHEAD_BYTES + plaintext@.len() ==> r == Ok::<usize, PacketError>(
                (OVERHEAD_BYTES + plaintext@.len()) as usize,
            ),
            r is Ok ==> final(output)@ == spliced(
                old(output)@,
                0,
                sealed_datagram(self.key(), direction, sequence, plaintext@),
            ),
            r is Ok ==> open_result(
                self.key(),
                direction,
                sealed_datagram(self.key(), direction, sequence, plaintext@),
            ) == Ok::<(u64, Seq<u8>), PacketError>((sequence, plaintext@)),
            r is Ok ==> sealed_datagram(self.key(), direction, sequence, plaintext@).len()
                == OVERHEAD_BYTES + plaintext@.len(),
            r is Ok ==> forall|other: Direction|
                other != direction ==> open_result(
                    self.key(),
                    other,
                    #[trigger] sealed_datagram(self.key(), direction, sequence, plaintext@),
                ) == Err::<(u64, Seq<u8>), PacketError>(PacketError::WrongDirection),
    {
        if sequence > MAX_SEQUENCE {
            return Err(PacketError::InvalidSequence);
        }
        if plaintext.len() > MAX_PLAINTEXT_BYTES {
            return Err(PacketError::PlaintextTooLarge);
        }
        let datagram_len = OVERHEAD_BYTES + plaintext.len();
        if output.len() < datagram_len {
            return Err(PacketError::OutputTooSmall);
        }
        let bit = direction.header_bit();
        proof {
            lemma_header_bits(bit, sequence);
        }
        let header = bit | sequence;
        let mut header_array = [0u8; HEADER_BYTES];
        write_be(&mut header_array, 0, header, HEADER_BYTES);
        proof {
            lemma_be_bytes_len(header as nat, 8);
            assert(header_array@ =~= header_bytes(direction, sequence));
        }
        let mut body: Vec<u8> = Vec::new();
        crate::bytes::append_bytes(&mut body, plaintext);
        assert(body@ =~= plaintext@);
        let tag = match self.crypto.seal(nonce(header_array), body.as_mut_slice()) {
            Ok(t) => t,
            Err(()) => {
                return Err(PacketError::PlaintextTooLarge);
            },
        };
        let ghost h = header_array@;
        let ghost sealed = ocb3_sealed(self.key(), nonce_of(h), plaintext@);
        assert(body@ == sealed.0);
        assert(tag@ == sealed.1);
        let ghost before = output@;
        copy_into(output, 0, header_array.as_slice());
        copy_into(output, HEADER_BYTES, body.as_slice());
        copy_into(output, HEADER_BYTES + plaintext.len(), tag.as_slice());
        proof {
            let d = sealed_datagram(self.key(), direction, sequence, plaintext@);
            assert(d =~= h + body@ + tag@);
            assert(output@ =~= spliced(before, 0, d));
            lemma_open_sealed(self.key(), direction, sequence, plaintext@);
        }
        Ok(datagram_len)
    }

    /// Opens a datagram expected to travel in `expected_direction`. The body
    /// is decrypted in place; when authentication fails it is overwritten
    /// with zeros.
    pub fn open(&self, expected_direction: Direction, datagram: &mut [u8]) -> (r: Result<
        OpenedPacket,
        PacketError,
    >)
        ensures
            match open_result(self.key(), expected_direction, old(datagram)@) {
                Ok((sequence, p)) => r matches Ok(o) && o.sequence == sequence && o.plaintext@ == p
                    && final(datagram)@ == spliced(old(datagram)@, 8, p),
                Err(e) => r == Err::<OpenedPacket, PacketError>(e),
            },
            r == Err::<OpenedPacket, PacketError>(PacketError::AuthenticationFailed) ==> final(datagram)@ == spliced(
                old(datagram)@,
                8,
                Seq::new((old(datagram)@.len() - 24) as nat, |_i: int| 0u8),
            ),
            r is Err && r != Err::<OpenedPacket, PacketError>(PacketError::AuthenticationFailed)
                ==> final(datagram)@ == old(datagram)@,
    {
        if datagram.len() > MAX_DATAGRAM_BYTES {
            return Err(PacketError::DatagramTooLarge);
        }
        if datagram.len() < OVERHEAD_BYTES {
            return Err(PacketError::DatagramTooShort);
        }
        let ghost original = datagram@;
        let total = datagram.len();
        let header = read_be(datagram, 0, HEADER_BYTES);
        proof {
            lemma_header_fields(header);
        }
        if header & DIRECTION_MASK != expected_direction.header_bit() {
            return Err(PacketError::WrongDirection);
        }
        let sequence = header & MAX_SEQUENCE;
        let mut header_array = [0u8; HEADER_BYTES];
        let mut i: usize = 0;
        while i < HEADER_BYTES
            invariant
                i <= HEADER_BYTES,
                total == datagram@.len(),
                total >= OVERHEAD_BYTES,
                header_array@.len() == 8,
                forall|k: int| 0 <= k < i ==> header_array@[k] == datagram@[k],
            decreases HEADER_BYTES - i,
        {
            header_array[i] = datagram[i];
            i = i + 1;
        }
        assert(header_array@ =~= original.subrange(0, 8));
        let body_end = total - TAG_BYTES;
        let mut tag = [0u8; TAG_BYTES];
        let mut j: usize = 0;
        while j < TAG_BYTES
            invariant
                j <= TAG_BYTES,
                total == datagram@.len(),
                body_end == total - 16,
                total >= OVERHEAD_BYTES,
                tag@.len() == 16,
                forall|k: int| 0 <= k < j ==> tag@[k] == datagram@[body_end + k],
            decreases TAG_BYTES - j,
        {
            tag[j] = datagram[body_end + j];
            j = j + 1;
        }
        assert(tag@ =~= original.subrange(body_end as int, total as int));
        let mut body: Vec<u8> = Vec::new();
        let mut k: usize = HEADER_BYTES;
        while k < body_end
            invariant
                HEADER_BYTES <= k <= body_end,
                total == datagram@.len(),
                datagram@ == original,
                body_end == total - 16,
                body@ =~= original.subrange(8, k as int),
            decreases body_end - k,
        {
            body.push(datagram[k]);
            k = k + 1;
        }
        let ghost ciphertext = body@;
        if self.crypto.open(nonce(header_array), body.as_mut_slice(), tag).is_err() {
            zeroize_bytes(body.as_mut_slice());
            clear_range(datagram, HEADER_BYTES, body_end);
            return Err(PacketError::AuthenticationFailed);
        }
        copy_into(datagram, HEADER_BYTES, body.as_slice());
        Ok(OpenedPacket { sequence, plaintext: body })
    }
}

/// Opening a sealed datagram gives its sequence number and plaintext back.
proof fn lemma_open_sealed(key: Seq<u8>, direction: Direction, sequence: u64, plaintext: Seq<u8>)
    requires
        sequence <= MAX_SEQUENCE,
        plaintext.len() <= MAX_PLAINTEXT_BYTES,
        ocb3_opened(
            key,
            nonce_of(header_bytes(direction, sequence)),
            ocb3_sealed(key, nonce_of(header_bytes(direction, sequence)), plaintext).0,
            ocb3_sealed(key, nonce_of(header_bytes(direction, sequence)), plaintext).1,
        ) == Some(plaintext),
        ocb3_sealed(key, nonce_of(header_bytes(direction, sequence)), plaintext).0.len()
            == plaintext.len(),
        ocb3_sealed(key, nonce_of(header_bytes(direction, sequence)), plaintext).1.len() == 16,
    ensures
        open_result(key, direction, sealed_datagram(key, direction, sequence, plaintext)) == Ok::<
            (u64, Seq<u8>),
            PacketError,
        >((sequence, plaintext)),
{
    let h = header_bytes(direction, sequence);
    let (c, t) = ocb3_sealed(key, nonce_of(h), plaintext);
    let d = sealed_datagram(key, direction, sequence, plaintext);
    let v = direction_bit(direction) + sequence;
    lemma_pow256_facts(8);
    lemma_be_bytes_len(v as nat, 8);
    lemma_be_roundtrip_small(v as nat, 8);
    assert(d.subrange(0, 8) =~= h);
    let body_end = d.len() - 16;
    assert(d.subrange(8, body_end) =~= c);
    assert(d.subrange(body_end, d.len() as int) =~= t);
}


/// Whether bit `d` of `v` is set.
pub open spec fn bit_set(v: u64, d: u64) -> bool {
    (v >> d) & 1u64 == 1u64
}

proof fn lemma_shifted_bits(s: u64, k: u64, d: u64)
    requires
        1 <= k < 64,
        d < 64,
    ensures
        bit_set((s << k) | 1u64, d) == (d == 0 || (d >= k && bit_set(s, (d - k) as u64))),
{
    assert(((((s << k) | 1u64) >> d) & 1u64 == 1u64) == (d == 0 || (d >= k && ((s >> ((d - k)
        as u64)) & 1u64 == 1u64)))) by (bit_vector)
        requires
            1 <= k < 64,
            d < 64,
    ;
}

proof fn lemma_one_bits(d: u64)
    requires
        d < 64,
    ensures
        bit_set(1u64, d) == (d == 0),
{
    assert(((1u64 >> d) & 1u64 == 1u64) == (d == 0)) by (bit_vector)
        requires
            d < 64,
    ;
}

proof fn lemma_marked_bits(s: u64, a: u64, d: u64)
    requires
        a < 64,
        d < 64,
    ensures
        bit_set(s | (1u64 << a), d) == (d == a || bit_set(s, d)),
{
    assert(((((s | (1u64 << a)) >> d) & 1u64) == 1u64) == (d == a || ((s >> d) & 1u64 == 1u64)))
        by (bit_vector)
        requires
            a < 64,
            d < 64,
    ;
}

proof fn lemma_single_bit(s: u64, a: u64)
    requires
        a < 64,
    ensures
        (s & (1u64 << a) != 0) == bit_set(s, a),
{
    assert((s & (1u64 << a) != 0) == ((s >> a) & 1u64 == 1u64)) by (bit_vector)
        requires
            a < 64,
    ;
}

/// The sequence numbers accepted so far that are still inside the window.
pub open spec fn window_accepted(highest: Option<u64>, seen: u64) -> Set<u64> {
    Set::new(
        |n: u64|
            highest is Some && n <= highest->0 && highest->0 - n < REPLAY_WINDOW_BITS && bit_set(
                seen,
                (highest->0 - n) as u64,
            ),
    )
}

/// Remembers which recent sequence numbers were accepted, relative to the
/// highest one.
pub struct ReplayWindow {
    highest: Option<u64>,
    seen: u64,
}

impl ReplayWindow {
    /// The highest accepted sequence number.
    pub closed spec fn highest_spec(&self) -> Option<u64> {
        self.highest
    }

    /// The accepted sequence numbers still inside the window.
    pub closed spec fn accepted(&self) -> Set<u64> {
        window_accepted(self.highest, self.seen)
    }

    /// A window with nothing accepted yet.
    pub fn new() -> (r: ReplayWindow)
        ensures
            r.highest_spec() is None,
            r.accepted() == Set::<u64>::empty(),
    {
        let r = ReplayWindow { highest: None, seen: 0 };
        assert(r.accepted() =~= Set::<u64>::empty());
        r
    }

    /// Accepts a sequence number at most once: a number above the highest
    /// one moves the window, one inside it is accepted once, and one below it
    /// is too old.
    pub fn accept(&mut self, sequence: u64) -> (r: Result<(), PacketError>)
        ensures
            old(self).accepted().contains(sequence) ==> r == Err::<(), PacketError>(
                PacketError::Replay,
            ),
            old(self).highest_spec() matches Some(h) && sequence <= h && h - sequence
                >= REPLAY_WINDOW_BITS ==> r == Err::<(), PacketError>(PacketError::TooOld),
            r is Err ==> r == Err::<(), PacketError>(PacketError::Replay) || r == Err::<
                (),
                PacketError,
            >(PacketError::TooOld),
            r is Err ==> final(self).accepted() == old(self).accepted() && final(self).highest_spec() == old(self).highest_spec(),
            !old(self).accepted().contains(sequence) && !(old(self).highest_spec() matches Some(h)
                && sequence <= h && h - sequence >= REPLAY_WINDOW_BITS) ==> r is Ok,
            r is Ok ==> final(self).accepted().contains(sequence),
            r is Ok ==> final(self).highest_spec() == Some(
                match old(self).highest_spec() {
                    Some(h) => if sequence > h {
                        sequence
                    } else {
                        h
                    },
                    None => sequence,
                },
            ),
            r is Ok ==> forall|n: u64|
                #[trigger] final(self).accepted().contains(n) ==> old(self).accepted().contains(n)
                    || n == sequence,
            r is Ok ==> forall|n: u64|
                old(self).accepted().contains(n) && final(self).highest_spec()->0 - n
                    < REPLAY_WINDOW_BITS ==> #[trigger] final(self).accepted().contains(n),
    {
        let ghost old_accepted = self.accepted();
        let highest = match self.highest {
            None => {
                self.highest = Some(sequence);
                self.seen = 1;
                proof {
                    assert forall|n: u64| #[trigger]
                        self.accepted().contains(n) implies n == sequence by {
                        lemma_one_bits((sequence - n) as u64);
                    }
                    lemma_one_bits(0);
                }
                return Ok(());
            },
            Some(h) => h,
        };
        if sequence > highest {
            let shift = sequence - highest;
            let ghost old_seen = self.seen;
            if shift >= REPLAY_WINDOW_BITS {
                self.seen = 1;
            } else {
                self.seen = (self.seen << shift) | 1;
            }
            self.highest = Some(sequence);
            proof {
                assert forall|n: u64| #[trigger] self.accepted().contains(n) implies old_accepted.contains(
                    n,
                ) || n == sequence by {
                    let d = (sequence - n) as u64;
                    if shift >= REPLAY_WINDOW_BITS {
                        lemma_one_bits(d);
                    } else {
                        lemma_shifted_bits(old_seen, shift, d);
                    }
                }
                assert forall|n: u64|
                    old_accepted.contains(n) && sequence - n < REPLAY_WINDOW_BITS implies #[trigger] self.accepted().contains(n) by {
                    let d = (sequence - n) as u64;
                    lemma_shifted_bits(old_seen, shift, d);
                }
                if shift >= REPLAY_WINDOW_BITS {
                    lemma_one_bits(0);
                } else {
                    lemma_shifted_bits(old_seen, shift, 0);
                }
            }
            return Ok(());
        }
        let distance = highest - sequence;
        if distance >= REPLAY_WINDOW_BITS {
            return Err(PacketError::TooOld);
        }
        let bit = 1u64 << distance;
        proof {
            lemma_single_bit(self.seen, distance);
        }
        if self.seen & bit != 0 {
            return Err(PacketError::Replay);
        }
        let ghost old_seen = self.seen;
        self.seen = self.seen | bit;
        proof {
            assert forall|n: u64| #[trigger] self.accepted().contains(n) implies old_accepted.contains(
                n,
            ) || n == sequence by {
                lemma_marked_bits(old_seen, distance, (highest - n) as u64);
            }
            assert forall|n: u64|
                old_accepted.contains(n) && highest - n < REPLAY_WINDOW_BITS implies #[trigger] self.accepted().contains(n) by {
                lemma_marked_bits(old_seen, distance, (highest - n) as u64);
            }
            lemma_marked_bits(old_seen, distance, distance);
        }
        Ok(())
    }
}

/// Opens the datagrams of one direction from one peer, each at most once.
pub struct PacketReceiver {
    codec: PacketCodec,
    direction: Direction,
    replay: ReplayWindow,
}

/// An IPv4 endpoint: the address as a big-endian number, and the port.
#[derive(Clone, Copy, Debug, PartialEq, Eq, Structural)]
pub struct Ipv4Endpoint {
    pub address: u32,
    pub port: u16,
}

/// The source of a received datagram.
#[derive(Clone, Copy, Debug, PartialEq, Eq, Structural)]
pub enum SourceAddress {
    V4(Ipv4Endpoint),
    Other,
}

impl PacketReceiver {
    pub closed spec fn key(&self) -> Seq<u8> {
        self.codec.key()
    }

    pub closed spec fn direction_spec(&self) -> Direction {
        self.direction
    }

    pub closed spec fn accepted(&self) -> Set<u64> {
        self.replay.accepted()
    }

    pub closed spec fn highest(&self) -> Option<u64> {
        self.replay.highest_spec()
    }

    /// A receiver of datagrams travelling in `direction`, with nothing accepted yet.
    pub fn new(key: &SessionKey, direction: Direction) -> (r: PacketReceiver)
        ensures
            r.key() == key.key(),
            r.direction_spec() == direction,
            r.accepted() == Set::<u64>::empty(),
            r.highest() is None,
    {
        PacketReceiver { codec: PacketCodec::new(key), direction, replay: ReplayWindow::new() }
    }

    /// Overwrites the receiver's key with zeros; nothing else changes.
    pub fn zeroize(&mut self)
        ensures
            final(self).key() == Seq::new(DECODED_KEY_BYTES as nat, |_i: int| 0u8),
            final(self).direction_spec() == old(self).direction_spec(),
            final(self).accepted() == old(self).accepted(),
            final(self).highest() == old(self).highest(),
    {
        self.codec.zeroize();
    }

    /// Opens a datagram and accepts its sequence number at most once. A
    /// refused datagram's body is overwritten with zeros.
    pub fn open(&mut self, datagram: &mut [u8]) -> (r: Result<OpenedPacket, PacketError>)
        ensures
            final(self).key() == old(self).key(),
            final(self).direction_spec() == old(self).direction_spec(),
            open_result(old(self).key(), old(self).direction_spec(), old(datagram)@) is Err ==> r
                == Err::<OpenedPacket, PacketError>(
                open_result(old(self).key(), old(self).direction_spec(), old(datagram)@)->Err_0,
            ) && final(self).accepted() == old(self).accepted() && final(self).highest() == old(self).highest(),
            open_result(old(self).key(), old(self).direction_spec(), old(datagram)@) matches Ok(
                (sequence, p),
            ) ==> {
                &&& old(self).accepted().contains(sequence) ==> r == Err::<
                    OpenedPacket,
                    PacketError,
                >(PacketError::Replay)
                &&& !old(self).accepted().contains(sequence) && (old(self).highest() matches Some(
                    h,
                ) && sequence <= h && h - sequence >= REPLAY_WINDOW_BITS) ==> r == Err::<
                    OpenedPacket,
                    PacketError,
                >(PacketError::TooOld)
                &&& !old(self).accepted().contains(sequence) && !(old(self).highest() matches Some(
                    h,
                ) && sequence <= h && h - sequence >= REPLAY_WINDOW_BITS) ==> r is Ok
                &&& r is Ok ==> r->Ok_0.sequence == sequence && r->Ok_0.plaintext@ == p
                    && final(self).accepted().contains(sequence)
                &&& r is Err ==> final(self).accepted() == old(self).accepted()
            },
    {
        let packet = match self.codec.open(self.direction, datagram) {
            Err(e) => {
                return Err(e);
            },
            Ok(p) => p,
        };
        match self.replay.accept(packet.sequence) {
            Err(e) => {
                let mut plaintext = packet.plaintext;
                zeroize_bytes(plaintext.as_mut_slice());
                let end = datagram.len() - TAG_BYTES;
                clear_range(datagram, HEADER_BYTES, end);
                return Err(e);
            },
            Ok(()) => {},
        }
        Ok(packet)
    }

    /// Opens a datagram only when it came from the expected IPv4 endpoint.
    pub fn open_from(
        &mut self,
        expected_source: Ipv4Endpoint,
        actual_source: SourceAddress,
        datagram: &mut [u8],
    ) -> (r: Result<OpenedPacket, PacketError>)
        ensures
            actual_source != SourceAddress::V4(expected_source) ==> r == Err::<
                OpenedPacket,
                PacketError,
            >(PacketError::UnexpectedSource) && *final(self) == *old(self) && final(datagram)@
                == old(datagram)@,
            actual_source == SourceAddress::V4(expected_source) ==> final(self).key() == old(self).key() && final(self).direction_spec() == old(self).direction_spec(),
            actual_source == SourceAddress::V4(expected_source) ==> (open_result(
                old(self).key(),
                old(self).direction_spec(),
                old(datagram)@,
            ) matches Ok((sequence, p)) ==> {
                &&& old(self).accepted().contains(sequence) ==> r == Err::<
                    OpenedPacket,
                    PacketError,
                >(PacketError::Replay)
                &&& !old(self).accepted().contains(sequence) && (old(self).highest() matches Some(
                    h,
                ) && sequence <= h && h - sequence >= REPLAY_WINDOW_BITS) ==> r == Err::<
                    OpenedPacket,
                    PacketError,
                >(PacketError::TooOld)
                &&& !old(self).accepted().contains(sequence) && !(old(self).highest() matches Some(
                    h,
                ) && sequence <= h && h - sequence >= REPLAY_WINDOW_BITS) ==> r is Ok
                &&& r is Ok ==> r->Ok_0.sequence == sequence && r->Ok_0.plaintext@ == p
                    && final(self).accepted().contains(sequence)
                &&& r is Err ==> final(self).accepted() == old(self).accepted()
            }),
            actual_source == SourceAddress::V4(expected_source) && open_result(
                old(self).key(),
                old(self).direction_spec(),
                old(datagram)@,
            ) is Err ==> r == Err::<OpenedPacket, PacketError>(
                open_result(old(self).key(), old(self).direction_spec(), old(datagram)@)->Err_0,
            ),
    {
        let matches_expected = match actual_source {
            SourceAddress::V4(actual) => actual == expected_source,
            SourceAddress::Other => false,
        };
        if !matches_expected {
            return Err(PacketError::UnexpectedSource);
        }
        self.open(datagram)
    }
}

/// The sequence numbers of sent datagrams: each is used once, in increasing
/// order, and numbers run out after the largest one.
pub struct SendSequence {
    next: Option<u64>,
}

impl SendSequence {
    /// The next sequence number, if any is left.
    pub closed spec fn next_spec(&self) -> Option<u64> {
        self.next
    }

    /// Sequence numbers starting at zero.
    pub fn new() -> (r: SendSequence)
        ensures
            r.next_spec() == Some(0u64),
    {
        SendSequence { next: Some(0) }
    }

    /// A sequence whose next number is `next`.
    pub fn starting_at(next: u64) -> (r: SendSequence)
        requires
            next <= MAX_SEQUENCE,
        ensures
            r.next_spec() == Some(next),
    {
        SendSequence { next: Some(next) }
    }

    /// Takes the next sequence number.
    pub fn take(&mut self) -> (r: Result<u64, PacketError>)
        requires
            old(self).next_spec() matches Some(n) ==> n <= MAX_SEQUENCE,
        ensures
            old(self).next_spec() is None ==> r == Err::<u64, PacketError>(
                PacketError::SequenceExhausted,
            ) && final(self).next_spec() is None,
            old(self).next_spec() matches Some(n) ==> r == Ok::<u64, PacketError>(n) && final(self).next_spec() == if n < MAX_SEQUENCE {
                Some((n + 1) as u64)
            } else {
                None
            },
    {
        let sequence = match self.next {
            None => {
                return Err(PacketError::SequenceExhausted);
            },
            Some(s) => s,
        };
        self.next = if sequence < MAX_SEQUENCE {
            Some(sequence + 1)
        } else {
            None
        };
        Ok(sequence)
    }
}

} // verus!
