//! The packet wire format: an eight-byte big-endian sequence number
//! followed by an opaque payload.

use vstd::prelude::*;

verus! {

/// Number of bytes taken by the sequence number at the front of a packet.
pub const SEQUENCE_NUMBER_SIZE: usize = 8;

/// The integer that eight bytes denote when read most significant byte first.
pub open spec fn be_value(b: Seq<u8>) -> int
    recommends
        b.len() == 8,
{
    b[0] * 0x100000000000000 + b[1] * 0x1000000000000 + b[2] * 0x10000000000 + b[3]
        * 0x100000000 + b[4] * 0x1000000 + b[5] * 0x10000 + b[6] * 0x100 + b[7]
}

/// The eight bytes of `n`, most significant byte first.
pub open spec fn be_bytes(n: u64) -> Seq<u8> {
    seq![
        (n / 0x100000000000000) as u8,
        ((n / 0x1000000000000) % 0x100) as u8,
        ((n / 0x10000000000) % 0x100) as u8,
        ((n / 0x100000000) % 0x100) as u8,
        ((n / 0x1000000) % 0x100) as u8,
        ((n / 0x10000) % 0x100) as u8,
        ((n / 0x100) % 0x100) as u8,
        (n % 0x100) as u8,
    ]
}

/// The sequence number that a packet's first eight bytes carry.
pub open spec fn header_value(bytes: Seq<u8>) -> u64
    recommends
        bytes.len() >= 8,
{
    be_value(bytes.subrange(0, 8)) as u64
}

/// Reading back what was written gives the number that was written.
pub proof fn lemma_be_value_of_be_bytes(n: u64)
    ensures
        be_bytes(n).len() == 8,
        be_value(be_bytes(n)) == n,
{
    assert(n == ((n / 0x100000000000000) as u8) * 0x100000000000000 + (((n / 0x1000000000000)
        % 0x100) as u8) * 0x1000000000000 + (((n / 0x10000000000) % 0x100) as u8)
        * 0x10000000000 + (((n / 0x100000000) % 0x100) as u8) * 0x100000000 + (((n / 0x1000000)
        % 0x100) as u8) * 0x1000000 + (((n / 0x10000) % 0x100) as u8) * 0x10000 + (((n / 0x100)
        % 0x100) as u8) * 0x100 + ((n % 0x100) as u8)) by (bit_vector);
}

/// Any eight bytes denote a `u64`, and writing that number gives the same eight bytes back.
pub proof fn lemma_be_bytes_of_be_value(b: Seq<u8>)
    requires
        b.len() == 8,
    ensures
        0 <= be_value(b) <= u64::MAX,
        be_bytes(be_value(b) as u64) == b,
{
    let (b0, b1, b2, b3, b4, b5, b6, b7) = (b[0], b[1], b[2], b[3], b[4], b[5], b[6], b[7]);
    assert(b0 * 0x100000000000000 + b1 * 0x1000000000000 + b2 * 0x10000000000 + b3 * 0x100000000
        + b4 * 0x1000000 + b5 * 0x10000 + b6 * 0x100 + b7 <= 0xffff_ffff_ffff_ffff)
        by (bit_vector);
    let m: u64 = be_value(b) as u64;
    assert({
        &&& (m / 0x100000000000000) as u8 == b0
        &&& ((m / 0x1000000000000) % 0x100) as u8 == b1
        &&& ((m / 0x10000000000) % 0x100) as u8 == b2
        &&& ((m / 0x100000000) % 0x100) as u8 == b3
        &&& ((m / 0x1000000) % 0x100) as u8 == b4
        &&& ((m / 0x10000) % 0x100) as u8 == b5
        &&& ((m / 0x100) % 0x100) as u8 == b6
        &&& (m % 0x100) as u8 == b7
    }) by (bit_vector)
        requires
            m == b0 * 0x100000000000000 + b1 * 0x1000000000000 + b2 * 0x10000000000 + b3
                * 0x100000000 + b4 * 0x1000000 + b5 * 0x10000 + b6 * 0x100 + b7,
    ;
    assert(be_bytes(m) =~= b);
}

/// A packet framed with sequence number `n` in front of `payload` reads back as `n`
/// followed by `payload`: what a sender frames, a receiver parses unchanged.
pub proof fn lemma_framed_packet_reads_back(n: u64, payload: Seq<u8>)
    ensures
        (be_bytes(n) + payload).len() == 8 + payload.len(),
        header_value(be_bytes(n) + payload) == n,
        (be_bytes(n) + payload).subrange(8, 8 + payload.len() as int) == payload,
{
    lemma_be_value_of_be_bytes(n);
    let framed = be_bytes(n) + payload;
    assert(framed.subrange(0, 8) =~= be_bytes(n));
    assert(framed.subrange(8, 8 + payload.len() as int) =~= payload);
}

/// Writing back the header read from a packet leaves the packet's bytes unchanged.
pub proof fn lemma_reframed_packet_unchanged(bytes: Seq<u8>)
    requires
        bytes.len() >= 8,
    ensures
        be_bytes(header_value(bytes)) + bytes.subrange(8, bytes.len() as int) == bytes,
{
    lemma_be_bytes_of_be_value(bytes.subrange(0, 8));
    assert(be_bytes(header_value(bytes)) + bytes.subrange(8, bytes.len() as int) =~= bytes);
}

/// The fixed-size header at the front of every packet.
#[derive(Debug, Clone, Copy, PartialEq, Eq, Structural)]
pub struct PacketHeader {
    pub sequence_number: u64,
}

impl PacketHeader {
    /// Reads a header from exactly eight bytes.
    fn parse(bytes: &[u8]) -> (header: Self)
        requires
            bytes@.len() == SEQUENCE_NUMBER_SIZE,
        ensures
            header.sequence_number == be_value(bytes@),
    {
        let b0 = bytes[0];
        let b1 = bytes[1];
        let b2 = bytes[2];
        let b3 = bytes[3];
        let b4 = bytes[4];
        let b5 = bytes[5];
        let b6 = bytes[6];
        let b7 = bytes[7];
        let n: u64 = ((b0 as u64) << 56u64) | ((b1 as u64) << 48u64) | ((b2 as u64) << 40u64) | ((
        b3 as u64) << 32u64) | ((b4 as u64) << 24u64) | ((b5 as u64) << 16u64) | ((b6 as u64)
            << 8u64) | (b7 as u64);
        assert(n == b0 * 0x100000000000000 + b1 * 0x1000000000000 + b2 * 0x10000000000 + b3
            * 0x100000000 + b4 * 0x1000000 + b5 * 0x10000 + b6 * 0x100 + b7) by (bit_vector)
            requires
                n == ((b0 as u64) << 56u64) | ((b1 as u64) << 48u64) | ((b2 as u64) << 40u64) | ((
                b3 as u64) << 32u64) | ((b4 as u64) << 24u64) | ((b5 as u64) << 16u64) | ((
                b6 as u64) << 8u64) | (b7 as u64),
        ;
        PacketHeader { sequence_number: n }
    }

    /// Writes the header into exactly eight bytes.
    fn write_to(self, bytes: &mut [u8])
        requires
            old(bytes)@.len() == SEQUENCE_NUMBER_SIZE,
        ensures
            final(bytes)@ == be_bytes(self.sequence_number),
    {
        let n = self.sequence_number;
        bytes[0] = (n >> 56u64) as u8;
        bytes[1] = (n >> 48u64) as u8;
        bytes[2] = (n >> 40u64) as u8;
        bytes[3] = (n >> 32u64) as u8;
        bytes[4] = (n >> 24u64) as u8;
        bytes[5] = (n >> 16u64) as u8;
        bytes[6] = (n >> 8u64) as u8;
        bytes[7] = n as u8;
        assert({
            &&& (n >> 56u64) as u8 == (n / 0x100000000000000) as u8
            &&& (n >> 48u64) as u8 == ((n / 0x1000000000000) % 0x100) as u8
            &&& (n >> 40u64) as u8 == ((n / 0x10000000000) % 0x100) as u8
            &&& (n >> 32u64) as u8 == ((n / 0x100000000) % 0x100) as u8
            &&& (n >> 24u64) as u8 == ((n / 0x1000000) % 0x100) as u8
            &&& (n >> 16u64) as u8 == ((n / 0x10000) % 0x100) as u8
            &&& (n >> 8u64) as u8 == ((n / 0x100) % 0x100) as u8
            &&& n as u8 == (n % 0x100) as u8
        }) by (bit_vector);
        assert(bytes@ =~= be_bytes(n));
    }
}

/// Why a buffer could not be read or framed as a packet.
#[derive(Debug, Clone, Copy, PartialEq, Eq, Structural)]
pub enum PacketError {
    PacketTooSmall { actual_size: usize, minimum_size: usize },
}

/// A packet read from a received buffer, borrowing it.
#[derive(Debug, Clone, Copy, PartialEq, Eq)]
pub struct Packet<'a> {
    pub header: PacketHeader,
    pub payload: &'a [u8],
    /// The whole buffer the packet was read from.
    pub bytes: &'a [u8],
}

impl<'a> Packet<'a> {
    /// The smallest buffer that holds a packet: its header.
    pub const MINIMUM_SIZE: usize = SEQUENCE_NUMBER_SIZE;

    /// The header of this packet.
    pub open spec fn header_view(&self) -> PacketHeader {
        self.header
    }

    /// The bytes after the header.
    pub open spec fn payload_view(&self) -> Seq<u8> {
        self.payload@
    }

    /// The whole buffer the packet was read from.
    pub open spec fn bytes_view(&self) -> Seq<u8> {
        self.bytes@
    }

    /// Reads a packet from `bytes`: the first eight bytes are the big-endian sequence
    /// number, the rest is the payload. Fails exactly when `bytes` is shorter than a header.
    pub fn parse(bytes: &'a [u8]) -> (r: Result<Self, PacketError>)
        ensures
            bytes@.len() < 8 <==> r is Err,
            r matches Err(e) ==> e == (PacketError::PacketTooSmall {
                actual_size: bytes@.len() as usize,
                minimum_size: 8,
            }),
            r matches Ok(p) ==> {
                &&& p.header.sequence_number == header_value(bytes@)
                &&& p.payload@ == bytes@.subrange(8, bytes@.len() as int)
                &&& p.bytes@ == bytes@
                &&& p.header_view().sequence_number == header_value(bytes@)
                &&& p.payload_view() == bytes@.subrange(8, bytes@.len() as int)
                &&& p.bytes_view() == bytes@
            },
    {
        if bytes.len() < Self::MINIMUM_SIZE {
            return Err(
                PacketError::PacketTooSmall {
                    actual_size: bytes.len(),
                    minimum_size: Self::MINIMUM_SIZE,
                },
            );
        }
        let (header_bytes, payload) = bytes.split_at(Self::MINIMUM_SIZE);
        Ok(Packet { header: PacketHeader::parse(header_bytes), payload, bytes })
    }

    /// The sequence number in this packet's header.
    pub fn sequence_number(&self) -> (n: u64)
        ensures
            n == self.header.sequence_number,
            n == self.header_view().sequence_number,
    {
        self.header.sequence_number
    }

    /// The bytes after the header.
    pub fn payload(&self) -> (p: &'a [u8])
        ensures
            p@ == self.payload@,
            p@ == self.payload_view(),
    {
        self.payload
    }

    /// The whole buffer the packet was read from, header included.
    pub fn as_bytes(&self) -> (b: &'a [u8])
        ensures
            b@ == self.bytes@,
            b@ == self.bytes_view(),
    {
        self.bytes
    }
}

/// A packet being framed in a caller's buffer.
#[derive(Debug)]
pub struct PacketMut<'a> {
    pub header: PacketHeader,
    /// The caller's buffer, borrowed; what it holds when the packet is done with it
    /// is what the caller's buffer holds afterwards.
    pub bytes: &'a mut [u8],
}

impl<'a> PacketMut<'a> {
    /// The header that the next call of `as_bytes` writes.
    pub open spec fn header_view(&self) -> PacketHeader {
        self.header
    }

    /// The current contents of the buffer.
    pub open spec fn bytes_view(&self) -> Seq<u8> {
        self.bytes@
    }

    /// Frames a packet in `bytes`, reading the header that the buffer holds.
    /// Fails exactly when `bytes` is shorter than a header. Nothing is written: the
    /// buffer changes only through the packet's `payload_mut` and `as_bytes`.
    pub fn new(bytes: &'a mut [u8]) -> (r: Result<Self, PacketError>)
        ensures
            old(bytes)@.len() < 8 <==> r is Err,
            r matches Err(e) ==> e == (PacketError::PacketTooSmall {
                actual_size: old(bytes)@.len() as usize,
                minimum_size: 8,
            }),
            r matches Ok(p) ==> {
                &&& p.header.sequence_number == header_value(old(bytes)@)
                &&& p.bytes@ == old(bytes)@
                &&& p.header_view().sequence_number == header_value(old(bytes)@)
                &&& p.bytes_view() == old(bytes)@
            },
            r is Err ==> final(bytes)@ == old(bytes)@,
            r matches Ok(p) ==> final(bytes)@ == final(p.bytes)@,
    {
        if bytes.len() < Packet::MINIMUM_SIZE {
            return Err(
                PacketError::PacketTooSmall {
                    actual_size: bytes.len(),
                    minimum_size: Packet::MINIMUM_SIZE,
                },
            );
        }
        let header = PacketHeader::parse(&bytes[0..Packet::MINIMUM_SIZE]);
        Ok(PacketMut { header, bytes })
    }

    /// Sets the sequence number that the next call of `as_bytes` writes.
    pub fn set_sequence_number(&mut self, sequence_number: u64)
        ensures
            final(self).header.sequence_number == sequence_number,
            final(self).header_view().sequence_number == sequence_number,
            final(self).bytes == old(self).bytes,
            final(self).bytes_view() == old(self).bytes_view(),
    {
        self.header.sequence_number = sequence_number;
    }

    /// The sequence number in the header.
    pub fn sequence_number(&self) -> (n: u64)
        ensures
            n == self.header.sequence_number,
            n == self.header_view().sequence_number,
    {
        self.header.sequence_number
    }

    /// The bytes after the header.
    pub fn payload(&self) -> (p: &[u8])
        requires
            self.bytes_view().len() >= 8,
        ensures
            p@ == self.bytes_view().subrange(8, self.bytes_view().len() as int),
    {
        &self.bytes[SEQUENCE_NUMBER_SIZE..self.bytes.len()]
    }

    /// The bytes after the header, to be written; the header bytes stay as they are.
    pub fn payload_mut(&mut self) -> (p: &mut [u8])
        requires
            old(self).bytes_view().len() >= 8,
        ensures
            p@ == old(self).bytes_view().subrange(8, old(self).bytes_view().len() as int),
            final(self).bytes_view() == old(self).bytes_view().subrange(0, 8) + final(p)@,
            final(self).bytes@ == old(self).bytes@.subrange(0, 8) + final(p)@,
            final(self).header == old(self).header,
            final(self).header_view() == old(self).header_view(),
            final(final(self).bytes)@ == final(old(self).bytes)@,
    {
        let (_, payload) = self.bytes.split_at_mut(SEQUENCE_NUMBER_SIZE);
        payload
    }

    /// Writes the header into the first eight bytes and returns the whole packet.
    pub fn as_bytes(&mut self) -> (b: &[u8])
        requires
            old(self).bytes_view().len() >= 8,
        ensures
            final(self).bytes_view() == be_bytes(old(self).header_view().sequence_number) + old(self).bytes_view().subrange(8, old(self).bytes_view().len() as int),
            final(self).bytes@ == be_bytes(old(self).header.sequence_number)
                + old(self).bytes@.subrange(8, old(self).bytes@.len() as int),
            b@ == final(self).bytes@,
            final(self).header == old(self).header,
            b@ == final(self).bytes_view(),
            final(self).header_view() == old(self).header_view(),
            final(final(self).bytes)@ == final(old(self).bytes)@,
    {
        let header = self.header;
        let (head, _) = self.bytes.split_at_mut(SEQUENCE_NUMBER_SIZE);
        header.write_to(head);
        &*self.bytes
    }
}

/// Copies the start of `body` into the start of `payload`, as many bytes as both hold;
/// the rest of `payload` stays as it is.
pub fn write_payload_prefix(payload: &mut [u8], body: &[u8])
    ensures
        ({
            let n = if old(payload)@.len() < body@.len() {
                old(payload)@.len()
            } else {
                body@.len()
            };
            final(payload)@ == body@.subrange(0, n as int) + old(payload)@.subrange(
                n as int,
                old(payload)@.len() as int,
            )
        }),
{
    let ghost original = payload@;
    let n = if payload.len() < body.len() {
        payload.len()
    } else {
        body.len()
    };
    let mut i: usize = 0;
    while i < n
        invariant
            n <= payload@.len(),
            n <= body@.len(),
            n == (if original.len() < body@.len() {
                original.len()
            } else {
                body@.len()
            }),
            payload@.len() == original.len(),
            i <= n,
            forall|j: int| 0 <= j < i ==> payload@[j] == body@[j],
            forall|j: int| i <= j < payload@.len() ==> payload@[j] == original[j],
        decreases n - i,
    {
        payload[i] = body[i];
        i = i + 1;
    }
    assert(payload@ =~= body@.subrange(0, n as int) + original.subrange(
        n as int,
        original.len() as int,
    ));
}

} // verus!
