//! The entries of a pack file.
use vstd::arithmetic::power2::{lemma2_to64, lemma_pow2_adds, lemma_pow2_pos, pow2};
use vstd::prelude::*;

use crate::inflate::{blocks, checksum_ok, zlib, zlib_decompress};

verus! {

/// The type of an entry, by the first byte of its header.
pub open spec fn entry_kind(bytes: Seq<u8>) -> int {
    bytes[0] as int / 16 % 8
}

/// The number that the header spells: four bits of the first byte, then seven of each
/// further one, the lowest first.
pub open spec fn size_sum(bytes: Seq<u8>) -> nat
    decreases bytes.len(),
{
    if bytes.len() <= 1 {
        (bytes[0] % 16) as nat
    } else {
        size_sum(bytes.drop_last()) + (bytes.last() % 128) as nat * pow2(
            (4 + 7 * (bytes.len() - 2)) as nat,
        )
    }
}

/// The size of an entry's object: the low 64 bits of what the header spells.
pub open spec fn entry_size(bytes: Seq<u8>) -> int {
    size_sum(bytes) as int % 0x1_0000_0000_0000_0000
}

/// The type number of a tag that is stored in full.
pub const TAG: u8 = 4;

/// The largest tag that is read.
pub const MAX_TAG: u64 = 65536;

/// The header is that of a tag, stored in full, that is read.
pub open spec fn is_small_tag(bytes: Seq<u8>) -> bool {
    entry_kind(bytes) == TAG && entry_size(bytes) <= MAX_TAG
}

/// Another byte of the header follows.
pub open spec fn header_goes_on(bytes: Seq<u8>) -> bool {
    bytes.last() >= 128
}

/// How many bytes of an entry's data are read at most, where it is read.
pub open spec fn data_limit(bytes: Seq<u8>) -> Option<int> {
    if is_small_tag(bytes) {
        Some(2 * entry_size(bytes) + 1024)
    } else {
        None
    }
}

/// The object of an entry: what its data decompresses to, where that has the size that the
/// header says.
pub open spec fn entry_object(header: Seq<u8>, compressed: Seq<u8>) -> Option<Seq<u8>> {
    match zlib(compressed, entry_size(header) + 1) {
        Some(object) if object.len() == entry_size(header) => Some(object),
        _ => None,
    }
}

/// An entry's header, as far as it has been read.
pub struct PackHeader {
    kind: u8,
    size: u64,
    shift: u32,
    more: bool,
    bytes: Ghost<Seq<u8>>,
}

impl PackHeader {
    /// The bytes that have been read.
    pub closed spec fn bytes(&self) -> Seq<u8> {
        self.bytes@
    }

    /// The fields agree with the bytes.
    pub closed spec fn wf(&self) -> bool {
        let bytes = self.bytes@;
        &&& 1 <= bytes.len() <= 10
        &&& self.shift == 4 + 7 * (bytes.len() - 1)
        &&& self.kind == entry_kind(bytes)
        &&& self.size == entry_size(bytes)
        &&& bytes.len() < 10 ==> size_sum(bytes) < pow2(self.shift as nat)
        &&& self.more == (bytes.last() >= 128)
    }

    /// A header of which one byte has been read.
    pub fn start(byte: u8) -> (r: PackHeader)
        ensures
            r.wf(),
            r.bytes() == seq![byte],
    {
        let ghost bytes: Seq<u8> = seq![byte];
        proof {
            lemma2_to64();
            assert((byte >> 4) & 7 == byte / 16 % 8) by (bit_vector);
            assert(byte & 0x0f == byte % 16) by (bit_vector);
            assert((byte & 0x80 != 0) == (byte >= 128)) by (bit_vector);
        }
        PackHeader {
            kind: (byte >> 4) & 7,
            size: (byte & 0x0f) as u64,
            shift: 4,
            more: byte & 0x80 != 0,
            bytes: Ghost(bytes),
        }
    }

    /// Whether another byte follows.
    pub fn wants_more(&self) -> (r: bool)
        requires
            self.wf(),
        ensures
            r == header_goes_on(self.bytes()),
    {
        self.more
    }

    /// Whether the header has as many bytes as can be taken in.
    pub fn is_full(&self) -> (r: bool)
        requires
            self.wf(),
        ensures
            r == (self.bytes().len() == 10),
            1 <= self.bytes().len() <= 10,
    {
        self.shift >= 64
    }

    /// Takes in the next byte.
    pub fn push(&mut self, byte: u8)
        requires
            old(self).wf(),
            old(self).bytes().len() < 10,
        ensures
            final(self).wf(),
            final(self).bytes() == old(self).bytes().push(byte),
    {
        let ghost bytes = self.bytes@;
        let ghost all = bytes.push(byte);
        let ghost sum = size_sum(bytes);
        let size = self.size;
        let shift = self.shift;
        let x = (byte & 0x7f) as u64;
        proof {
            assert(byte & 0x7f == byte % 128) by (bit_vector);
            assert((byte & 0x80 != 0) == (byte >= 128)) by (bit_vector);
            assert(all.drop_last() == bytes);
            assert(size_sum(all) == sum + x * pow2(shift as nat));
            lemma2_to64();
            lemma_pow2_pos(shift as nat);
            lemma_pow2_adds(shift as nat, 7);
            if shift < 60 {
                vstd::arithmetic::power2::lemma_pow2_strictly_increases(shift as nat, 60);
            }
            lemma_pow2_60();
            let w = pow2(shift as nat);
            assert(x * w <= 127 * w) by (nonlinear_arith)
                requires
                    x <= 127,
                    0 < w,
            ;
            assert(w * 128 == pow2((shift + 7) as nat));
            vstd::bits::lemma_u64_shl_is_mul(1, shift as u64);
            assert(size < (1u64 << shift));
            assert(shift <= 60 && x < 128 && size < (1u64 << shift) ==> size | (x << shift) == size
                + (x << shift)) by (bit_vector);
            if shift < 60 {
                assert(shift <= 53);
                if shift < 53 {
                    vstd::arithmetic::power2::lemma_pow2_strictly_increases(shift as nat, 53);
                }
                lemma_pow2_adds(53, 7);
                vstd::bits::lemma_u64_shl_is_mul(x, shift as u64);
                if shift < 53 {
                    vstd::arithmetic::power2::lemma_pow2_strictly_increases(
                        (shift + 7) as nat,
                        60,
                    );
                }
                assert(size == sum);
                assert(size_sum(all) < pow2(60));
                assert(size + (x << shift) == entry_size(all));
            } else {
                assert(shift == 60);
                assert(x < 128 ==> (x << 60) == (x % 16) * 0x1000_0000_0000_0000) by (bit_vector);
                assert(x * w == x * 0x1000_0000_0000_0000) by (nonlinear_arith)
                    requires
                        w == 0x1000_0000_0000_0000,
                ;
                assert(x == 16 * (x / 16) + x % 16);
                assert(size == sum);
                assert(size + (x << shift) == entry_size(all));
            }
            assert(all.last() == byte && all[0] == bytes[0]);
        }
        self.size = size | (x << shift);
        self.shift = shift + 7;
        self.more = byte & 0x80 != 0;
        self.bytes = Ghost(all);
    }

    /// How many bytes of compressed data to read behind the header: enough for any tag of
    /// its size. `None` where the entry is no tag stored in full, or is too large.
    pub fn read_limit(&self) -> (r: Option<u64>)
        requires
            self.wf(),
        ensures
            match data_limit(self.bytes()) {
                Some(limit) => r matches Some(found) && found == limit,
                None => r is None,
            },
    {
        if self.kind != TAG || self.size > MAX_TAG {
            None
        } else {
            Some(self.size * 2 + 1024)
        }
    }

    /// The object that the entry's compressed data holds. `None` where the data is malformed
    /// or has another size than the header says.
    pub fn object(&self, compressed: &[u8]) -> (r: Option<Vec<u8>>)
        requires
            self.wf(),
            is_small_tag(self.bytes()),
        ensures
            match entry_object(self.bytes(), compressed@) {
                Some(object) => r matches Some(found) && found@ == object,
                None => r is None,
            },
    {
        let limit = (self.size + 1) as usize;
        match zlib_decompress(compressed, limit) {
            Some(object) => if object.len() as u64 == self.size {
                Some(object)
            } else {
                None
            },
            None => None,
        }
    }
}

/// The entry's object does not pass its limit, and has passed its checksum as far as the
/// data still holds it.
pub proof fn entry_is_checked(header: Seq<u8>, compressed: Seq<u8>)
    requires
        entry_object(header, compressed) is Some,
    ensures
        blocks(compressed.skip(2), 0, Seq::empty(), entry_size(header) + 1) matches Some(g)
            && !g.capped && g.out == entry_object(header, compressed)->0 && checksum_ok(
            compressed.skip(2),
            g,
        ),
{
    crate::limits::short_output_is_checked(compressed, entry_size(header) + 1);
}

/// The bytes of a header behind the first, for the bits of the size that are left.
pub open spec fn header_tail(left: nat) -> Seq<u8>
    decreases left,
{
    if left == 0 {
        Seq::empty()
    } else {
        let more: nat = if left >= 128 {
            128
        } else {
            0
        };
        seq![(left % 128 + more) as u8] + header_tail(left / 128)
    }
}

/// The header of an entry, as git writes it: each byte but the last says that another one
/// follows.
pub open spec fn header_of(kind: nat, size: nat) -> Seq<u8> {
    let more: nat = if size >= 16 {
        128
    } else {
        0
    };
    seq![(16 * kind + size % 16 + more) as u8] + header_tail(size / 16)
}

proof fn lemma_tail(start: Seq<u8>, left: nat)
    requires
        start.len() > 0,
    ensures
        size_sum(start + header_tail(left)) == size_sum(start) + left * pow2(
            (4 + 7 * (start.len() - 1)) as nat,
        ),
    decreases left,
{
    let e = (4 + 7 * (start.len() - 1)) as nat;
    if left == 0 {
        assert(start + header_tail(left) == start);
        assert(0 * pow2(e) == 0);
    } else {
        let byte = header_tail(left)[0];
        let next = start.push(byte);
        lemma_tail(next, left / 128);
        assert(start + header_tail(left) == next + header_tail(left / 128));
        assert(next.drop_last() == start);
        assert(byte % 128 == left % 128);
        lemma_pow2_adds(e, 7);
        lemma2_to64();
        assert((left / 128) * (pow2(e) * 128) + (left % 128) * pow2(e) == left * pow2(e))
            by (nonlinear_arith);
    }
}

proof fn lemma_tail_ends(left: nat)
    ensures
        forall|i: int|
            0 <= i < header_tail(left).len() ==> ((#[trigger] header_tail(left)[i] >= 128) == (i
                < header_tail(left).len() - 1)),
        (left > 0) == (header_tail(left).len() > 0),
    decreases left,
{
    if left > 0 {
        lemma_tail_ends(left / 128);
        let rest = header_tail(left / 128);
        assert forall|i: int| 0 <= i < header_tail(left).len() implies ((
        #[trigger] header_tail(left)[i] >= 128) == (i < header_tail(left).len() - 1)) by {
            if i > 0 {
                assert(header_tail(left)[i] == rest[i - 1]);
            }
        }
    }
}

/// What git writes as the header of an entry is read back: its type, its size, and where it
/// ends.
pub proof fn header_reads_back(kind: nat, size: nat)
    requires
        kind < 8,
        size < 0x1_0000_0000_0000_0000,
    ensures
        entry_kind(header_of(kind, size)) == kind,
        entry_size(header_of(kind, size)) == size,
        forall|i: int|
            0 <= i < header_of(kind, size).len() ==> ((#[trigger] header_of(kind, size)[i] >= 128)
                == (i < header_of(kind, size).len() - 1)),
{
    let header = header_of(kind, size);
    let start = seq![header[0]];
    lemma_tail(start, size / 16);
    assert(start + header_tail(size / 16) == header);
    lemma2_to64();
    assert(header[0] as nat % 16 == size % 16);
    assert(size_sum(start) == size % 16);
    assert(pow2(4) == 16);
    assert(size_sum(header) == size % 16 + (size / 16) * 16);
    lemma_tail_ends(size / 16);
    assert forall|i: int| 0 <= i < header.len() implies ((#[trigger] header[i] >= 128) == (i
        < header.len() - 1)) by {
        if i > 0 {
            assert(header[i] == header_tail(size / 16)[i - 1]);
        }
    }
}

proof fn lemma_pow2_60()
    ensures
        pow2(60) == 0x1000_0000_0000_0000,
{
    lemma2_to64();
    lemma_pow2_adds(30, 30);
}

} // verus!
