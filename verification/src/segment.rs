//! Immutable segment files of vectors.
//!
//! A segment is written once and read at random. Its layout, all integers
//! little-endian:
//!
//! ```text
//! header   magic "RKSG" | version u32 | dimension u32 | count u32
//!          | checksum u32 of the data | 12 zero bytes
//! data     count * dimension single-precision numbers, vector by vector
//! ```
//!
//! The components of a vector are held by their bit patterns.

use vstd::arithmetic::mul::*;
use vstd::bytes::*;
use vstd::prelude::*;
use vstd::slice::*;
use vstd::string::*;

use crate::bytes;
use crate::bytes::{append_bytes, checksum, read_u32};
use crate::text;
use crate::text::{decimal, decimal_wide, hex8};

verus! {

/// Current format version.
pub const SEGMENT_VERSION: u32 = 1;

/// Size of the header in bytes.
pub const HEADER_SIZE: usize = 32;

/// The header of a segment: the shape of its data and their checksum.
#[derive(Debug, Clone, Copy, PartialEq, Eq, Structural)]
pub struct SegmentHeader {
    pub dimension: u32,
    pub count: u32,
    pub checksum: u32,
}

/// Why a file is not a segment.
#[derive(Debug, Clone, Copy, PartialEq, Eq, Structural)]
pub enum SegmentError {
    /// The file ends inside its header.
    ShortHeader,
    /// The file starts with these bytes in place of the magic ones.
    BadMagic(u8, u8, u8, u8),
    /// The header carries another format version.
    UnsupportedVersion(u32),
    /// The header asks for this many bytes of data, the file has fewer.
    Truncated { wanted: u128, present: u64 },
    /// The data do not have the checksum of the header.
    ChecksumMismatch { expected: u32, actual: u32 },
}

impl SegmentError {
    /// The message that describes the error.
    pub open spec fn text(self) -> Seq<char> {
        match self {
            SegmentError::ShortHeader => "segment header truncated"@,
            SegmentError::BadMagic(a, b, c, d) => "segment bad magic: expected [82, 75, 83, 71], got ["@
                + text::decimal_text(a as nat) + ", "@ + text::decimal_text(b as nat) + ", "@
                + text::decimal_text(c as nat) + ", "@ + text::decimal_text(d as nat) + "]"@,
            SegmentError::UnsupportedVersion(v) => "segment unsupported version "@
                + text::decimal_text(v as nat),
            SegmentError::Truncated { wanted, present } => "segment truncated: header says "@
                + text::decimal_text(wanted as nat) + " bytes of vector data, file has "@
                + text::decimal_text(present as nat),
            SegmentError::ChecksumMismatch { expected, actual } => "segment checksum mismatch: expected 0x"@
                + text::hex8_text(expected) + ", got 0x"@ + text::hex8_text(actual),
        }
    }
}

impl SegmentError {
    /// The message that describes the error.
    pub fn message(&self) -> (r: String)
        ensures
            r@ == self.text(),
    {
        match self {
            SegmentError::ShortHeader => "segment header truncated".to_owned(),
            SegmentError::BadMagic(a, b, c, d) => {
                let mut s: String = "segment bad magic: expected [82, 75, 83, 71], got [".to_owned();
                s.append(decimal(*a as u64).as_str());
                s.append(", ");
                s.append(decimal(*b as u64).as_str());
                s.append(", ");
                s.append(decimal(*c as u64).as_str());
                s.append(", ");
                s.append(decimal(*d as u64).as_str());
                s.append("]");
                s
            },
            SegmentError::UnsupportedVersion(v) => {
                let mut s: String = "segment unsupported version ".to_owned();
                s.append(decimal(*v as u64).as_str());
                s
            },
            SegmentError::Truncated { wanted, present } => {
                let mut s: String = "segment truncated: header says ".to_owned();
                s.append(decimal_wide(*wanted).as_str());
                s.append(" bytes of vector data, file has ");
                s.append(decimal(*present).as_str());
                s
            },
            SegmentError::ChecksumMismatch { expected, actual } => {
                let mut s: String = "segment checksum mismatch: expected 0x".to_owned();
                s.append(hex8(*expected).as_str());
                s.append(", got 0x");
                s.append(hex8(*actual).as_str());
                s
            },
        }
    }
}

/// The bytes that every segment starts with.
pub open spec fn segment_magic() -> Seq<u8> {
    seq![0x52u8, 0x4Bu8, 0x53u8, 0x47u8]
}

/// The twelve zero bytes at the end of a header.
pub open spec fn reserved() -> Seq<u8> {
    Seq::new(12, |i: int| 0u8)
}

impl SegmentHeader {
    /// The bytes of a header.
    pub open spec fn image(self) -> Seq<u8> {
        segment_magic() + spec_u32_to_le_bytes(SEGMENT_VERSION) + spec_u32_to_le_bytes(self.dimension)
            + spec_u32_to_le_bytes(self.count) + spec_u32_to_le_bytes(self.checksum) + reserved()
    }

    /// The number of data bytes that the header asks for.
    pub open spec fn data_len(self) -> nat {
        (self.count as nat * self.dimension as nat) * 4
    }

    /// Writes a header.
    pub fn encode(&self) -> (r: Vec<u8>)
        ensures
            r@ == self.image(),
            r@.len() == HEADER_SIZE,
    {
        let mut out: Vec<u8> = Vec::new();
        out.push(0x52);
        out.push(0x4B);
        out.push(0x53);
        out.push(0x47);
        assert(out@ =~= segment_magic());
        append_bytes(&mut out, u32_to_le_bytes(SEGMENT_VERSION).as_slice());
        append_bytes(&mut out, u32_to_le_bytes(self.dimension).as_slice());
        append_bytes(&mut out, u32_to_le_bytes(self.count).as_slice());
        append_bytes(&mut out, u32_to_le_bytes(self.checksum).as_slice());
        let ghost before = out@;
        let mut i: usize = 0;
        while i < 12
            invariant
                i <= 12,
                out@ == before + reserved().take(i as int),
            decreases 12 - i,
        {
            out.push(0);
            i += 1;
            assert(reserved().take(i as int) =~= reserved().take(i - 1).push(0u8));
        }
        assert(reserved().take(12) =~= reserved());
        proof {
            lemma_auto_spec_u32_to_from_le_bytes();
        }
        out
    }

    /// Reads a header.
    pub fn decode(image: &[u8]) -> (r: Result<SegmentHeader, SegmentError>)
        ensures
            r == header_read(image@),
    {
        if image.len() < HEADER_SIZE {
            return Err(SegmentError::ShortHeader);
        }
        if image[0] != 0x52 || image[1] != 0x4B || image[2] != 0x53 || image[3] != 0x47 {
            proof {
                let t = image@.take(4);
                assert(t[0] == image@[0] && t[1] == image@[1] && t[2] == image@[2] && t[3] == image@[3]);
                assert(segment_magic()[0] == 0x52 && segment_magic()[1] == 0x4B && segment_magic()[2]
                    == 0x53 && segment_magic()[3] == 0x47);
            }
            return Err(SegmentError::BadMagic(image[0], image[1], image[2], image[3]));
        }
        assert(image@.take(4) =~= segment_magic());
        let version: u32 = read_u32(image, 4);
        if version != SEGMENT_VERSION {
            return Err(SegmentError::UnsupportedVersion(version));
        }
        Ok(
            SegmentHeader {
                dimension: read_u32(image, 8),
                count: read_u32(image, 12),
                checksum: read_u32(image, 16),
            },
        )
    }
}

/// What the header of a file says, or why it is none.
pub open spec fn header_read(b: Seq<u8>) -> Result<SegmentHeader, SegmentError> {
    if b.len() < HEADER_SIZE {
        Err(SegmentError::ShortHeader)
    } else if b.take(4) != segment_magic() {
        Err(SegmentError::BadMagic(b[0], b[1], b[2], b[3]))
    } else if bytes::u32_at(b, 4) != SEGMENT_VERSION {
        Err(SegmentError::UnsupportedVersion(bytes::u32_at(b, 4)))
    } else {
        Ok(
            SegmentHeader {
                dimension: bytes::u32_at(b, 8),
                count: bytes::u32_at(b, 12),
                checksum: bytes::u32_at(b, 16),
            },
        )
    }
}

/// What a file is as a segment, or why it is none: a readable header, enough
/// data, and the right checksum of the data.
pub open spec fn segment_read(b: Seq<u8>) -> Result<SegmentHeader, SegmentError> {
    match header_read(b) {
        Ok(h) => if 32 + h.data_len() > b.len() {
            Err(
                SegmentError::Truncated {
                    wanted: h.data_len() as u128,
                    present: (b.len() - 32) as u64,
                },
            )
        } else if bytes::crc32(b.subrange(32, 32 + h.data_len() as int)) != h.checksum {
            Err(
                SegmentError::ChecksumMismatch {
                    expected: h.checksum,
                    actual: bytes::crc32(b.subrange(32, 32 + h.data_len() as int)),
                },
            )
        } else {
            Ok(h)
        },
        Err(e) => Err(e),
    }
}

/// The vector at the given index of a segment's data.
pub open spec fn vector_at(b: Seq<u8>, dimension: nat, index: nat) -> Seq<u32> {
    Seq::new(dimension, |j: int| bytes::u32_at(b, 32 + 4 * (index * dimension + j)))
}

/// An open segment: the shape of a file that was found in order.
#[derive(Debug, Clone, Copy)]
pub struct Segment {
    header: SegmentHeader,
}

impl View for Segment {
    type V = SegmentHeader;

    closed spec fn view(&self) -> SegmentHeader {
        self.header
    }
}

impl Segment {
    /// Opens a segment over the bytes of its file.
    pub fn open(image: &[u8]) -> (r: Result<Segment, SegmentError>)
        ensures
            match r {
                Ok(s) => segment_read(image@) == Result::<SegmentHeader, SegmentError>::Ok(s@),
                Err(e) => segment_read(image@) == Result::<SegmentHeader, SegmentError>::Err(e),
            },
    {
        match SegmentHeader::decode(image) {
            Ok(header) => {
                proof {
                    lemma_data_len(header);
                }
                let wanted: u128 = (header.count as u128 * header.dimension as u128) * 4;
                let present: usize = image.len() - HEADER_SIZE;
                if wanted > present as u128 {
                    return Err(SegmentError::Truncated { wanted, present: present as u64 });
                }
                let end: usize = HEADER_SIZE + wanted as usize;
                let actual: u32 = checksum(slice_subrange(image, HEADER_SIZE, end));
                if actual != header.checksum {
                    return Err(
                        SegmentError::ChecksumMismatch { expected: header.checksum, actual },
                    );
                }
                Ok(Segment { header })
            },
            Err(e) => Err(e),
        }
    }

    /// Number of vectors.
    pub fn len(&self) -> (r: usize)
        ensures
            r == self@.count,
    {
        self.header.count as usize
    }

    /// Whether there are no vectors.
    pub fn is_empty(&self) -> (r: bool)
        ensures
            r == (self@.count == 0),
    {
        self.header.count == 0
    }

    /// Number of components of each vector.
    pub fn dimension(&self) -> (r: usize)
        ensures
            r == self@.dimension,
    {
        self.header.dimension as usize
    }

    /// The vector at an index, read from the bytes of the file.
    pub fn get_vector(&self, image: &[u8], index: usize) -> (r: Option<Vec<u32>>)
        requires
            32 + self@.data_len() <= image.len(),
        ensures
            match r {
                Some(v) => index < self@.count && v@ == vector_at(
                    image@,
                    self@.dimension as nat,
                    index as nat,
                ),
                None => index >= self@.count,
            },
    {
        if index >= self.header.count as usize {
            return None;
        }
        let dim: usize = self.header.dimension as usize;
        proof {
            lemma_vector_in_data(self.header, index as nat);
        }
        let start: usize = index * dim;
        let mut out: Vec<u32> = Vec::new();
        let mut j: usize = 0;
        while j < dim
            invariant
                j <= dim,
                dim == self@.dimension,
                start == index * dim,
                32 + 4 * (index * dim + dim) <= image.len(),
                out@.len() == j,
                forall|k: int| 0 <= k < j ==> #[trigger] out@[k] == bytes::u32_at(image@, 32 + 4 * (index * dim + k)),
            decreases dim - j,
        {
            out.push(read_u32(image, HEADER_SIZE + 4 * (start + j)));
            j += 1;
        }
        assert(out@ =~= vector_at(image@, self@.dimension as nat, index as nat));
        Some(out)
    }
}

/// The vectors of a file that was found in order.
pub open spec fn vectors_in(b: Seq<u8>, h: SegmentHeader) -> Seq<Seq<u32>> {
    Seq::new(h.count as nat, |i: int| vector_at(b, h.dimension as nat, i as nat))
}

/// An open segment over the bytes of its file.
#[derive(Clone, Copy)]
pub struct Mapped<'a> {
    segment: Segment,
    image: &'a [u8],
}

impl View for Mapped<'_> {
    type V = Seq<Seq<u32>>;

    closed spec fn view(&self) -> Seq<Seq<u32>> {
        vectors_in(self.image@, self.segment@)
    }
}

impl<'a> Mapped<'a> {
    #[verifier::type_invariant]
    spec fn complete(self) -> bool {
        32 + self.segment@.data_len() <= self.image@.len()
    }

    /// Opens a segment over the bytes of its file.
    pub fn open(image: &'a [u8]) -> (r: Result<Mapped<'a>, SegmentError>)
        ensures
            match r {
                Ok(m) => segment_read(image@) is Ok && m@ == vectors_in(
                    image@,
                    segment_read(image@)->Ok_0,
                ),
                Err(e) => segment_read(image@) == Result::<SegmentHeader, SegmentError>::Err(e),
            },
    {
        match Segment::open(image) {
            Ok(segment) => Ok(Mapped { segment, image }),
            Err(e) => Err(e),
        }
    }

    /// The vector at an index.
    pub fn get(&self, index: usize) -> (r: Option<Vec<u32>>)
        ensures
            match r {
                Some(v) => index < self@.len() && v@ == self@[index as int],
                None => index >= self@.len(),
            },
    {
        proof {
            use_type_invariant(&*self);
        }
        self.segment.get_vector(self.image, index)
    }

    /// Number of vectors.
    pub fn len(&self) -> (n: usize)
        ensures
            n == self@.len(),
    {
        self.segment.len()
    }

    /// All vectors in their order.
    pub fn iter_vectors(&self) -> (r: Vec<Vec<u32>>)
        ensures
            r@.len() == self@.len(),
            forall|i: int| 0 <= i < r@.len() ==> (#[trigger] r@[i])@ == self@[i],
    {
        let n: usize = self.len();
        let mut r: Vec<Vec<u32>> = Vec::new();
        let mut i: usize = 0;
        while i < n
            invariant
                i <= n == self@.len(),
                r@.len() == i,
                forall|j: int| 0 <= j < i ==> (#[trigger] r@[j])@ == self@[j],
            decreases n - i,
        {
            match self.get(i) {
                Some(v) => {
                    r.push(v);
                },
                None => {},
            }
            i += 1;
        }
        r
    }
}

proof fn lemma_data_len(h: SegmentHeader)
    ensures
        h.data_len() <= 0xffff_ffff * 0xffff_ffff * 4,
{
    lemma_mul_upper_bound(
        h.count as int,
        0xffff_ffff,
        h.dimension as int,
        0xffff_ffff,
    );
}

proof fn lemma_vector_in_data(h: SegmentHeader, index: nat)
    requires
        index < h.count,
    ensures
        4 * (index * h.dimension + h.dimension) <= h.data_len(),
        index * h.dimension + h.dimension <= h.count as nat * h.dimension as nat,
{
    let d = h.dimension as nat;
    let c = h.count as nat;
    assert(index * d + d <= c * d) by (nonlinear_arith)
        requires
            index + 1 <= c,
    ;
}

// ---------------------------------------------------------------------------
// Writing
// ---------------------------------------------------------------------------

/// The data bytes of some numbers, one behind the other.
pub open spec fn data_bytes(flat: Seq<u32>) -> Seq<u8> {
    Seq::new(flat.len() * 4, |i: int| spec_u32_to_le_bytes(flat[i / 4])[i % 4])
}

/// The file of a segment with the given numbers as data.
pub open spec fn segment_image(dimension: u32, count: u32, flat: Seq<u32>) -> Seq<u8> {
    (SegmentHeader { dimension, count, checksum: bytes::crc32(data_bytes(flat)) }).image() + data_bytes(
        flat,
    )
}

/// What a writer has taken in: vectors of one dimension, end to end.
pub struct WriterView {
    pub dimension: u32,
    pub count: u32,
    pub flat: Seq<u32>,
}

/// Collects vectors for a segment.
#[derive(Debug)]
pub struct SegmentWriter {
    dimension: u32,
    vectors: Vec<u32>,
    count: u32,
}

impl View for SegmentWriter {
    type V = WriterView;

    closed spec fn view(&self) -> WriterView {
        WriterView { dimension: self.dimension, count: self.count, flat: self.vectors@ }
    }
}

impl SegmentWriter {
    /// Whether the data are whole vectors.
    pub open spec fn wf(self) -> bool {
        self@.flat.len() == self@.count as nat * self@.dimension as nat
    }

    /// A writer for vectors of the given dimension.
    pub fn new(dimension: usize) -> (w: SegmentWriter)
        requires
            dimension <= u32::MAX,
        ensures
            w.wf(),
            w@ == (WriterView { dimension: dimension as u32, count: 0, flat: Seq::empty() }),
    {
        SegmentWriter { dimension: dimension as u32, vectors: Vec::new(), count: 0 }
    }

    /// Adds a vector.
    pub fn push(&mut self, embedding: &[u32])
        requires
            old(self).wf(),
            embedding@.len() == old(self)@.dimension,
            old(self)@.count < u32::MAX,
        ensures
            final(self).wf(),
            final(self)@ == (WriterView {
                count: (old(self)@.count + 1) as u32,
                flat: old(self)@.flat + embedding@,
                ..old(self)@
            }),
    {
        let ghost before = self.vectors@;
        let mut i: usize = 0;
        while i < embedding.len()
            invariant
                i <= embedding.len(),
                self.dimension == old(self)@.dimension,
                self.count == old(self)@.count,
                self.vectors@ == before + embedding@.take(i as int),
            decreases embedding.len() - i,
        {
            self.vectors.push(embedding[i]);
            i += 1;
            assert(embedding@.take(i as int) =~= embedding@.take(i - 1).push(embedding@[i - 1]));
        }
        assert(embedding@.take(embedding@.len() as int) =~= embedding@);
        proof {
            let c = self.count as int;
            let d = self.dimension as int;
            assert((c + 1) * d == c * d + d) by (nonlinear_arith);
        }
        self.count = self.count + 1;
    }

    /// Number of vectors taken in.
    pub fn len(&self) -> (r: u32)
        ensures
            r == self@.count,
    {
        self.count
    }

    /// Whether no vectors were taken in.
    pub fn is_empty(&self) -> (r: bool)
        ensures
            r == (self@.count == 0),
    {
        self.count == 0
    }

    /// The bytes of the segment's file.
    pub fn finish(&self) -> (r: Vec<u8>)
        requires
            32 + 4 * self@.flat.len() <= usize::MAX,
        ensures
            r@ == segment_image(self@.dimension, self@.count, self@.flat),
    {
        let mut data: Vec<u8> = Vec::new();
        let ghost whole = data_bytes(self.vectors@);
        let mut i: usize = 0;
        assert(whole.take(0) =~= Seq::<u8>::empty());
        while i < self.vectors.len()
            invariant
                i <= self.vectors.len(),
                whole == data_bytes(self.vectors@),
                data@ == whole.take(4 * i as int),
            decreases self.vectors.len() - i,
        {
            append_bytes(&mut data, u32_to_le_bytes(self.vectors[i]).as_slice());
            proof {
                lemma_auto_spec_u32_to_from_le_bytes();
                let word = spec_u32_to_le_bytes(self.vectors@[i as int]);
                assert(whole.take(4 * (i + 1)) =~= whole.take(4 * i as int) + word) by {
                    assert forall|k: int| 0 <= k < 4 implies #[trigger] whole.take(4 * (i + 1))[4 * i + k]
                        == word[k] by {
                        assert((4 * i + k) / 4 == i && (4 * i + k) % 4 == k);
                    }
                    assert forall|k: int| 4 * i <= k < 4 * (i + 1) implies #[trigger] whole[k] == word[k - 4
                        * i] by {
                        assert(k / 4 == i && k % 4 == k - 4 * i);
                    }
                }
            }
            i += 1;
        }
        assert(whole.take(4 * self.vectors@.len() as int) =~= whole);
        let header = SegmentHeader {
            dimension: self.dimension,
            count: self.count,
            checksum: checksum(data.as_slice()),
        };
        let mut out: Vec<u8> = header.encode();
        append_bytes(&mut out, data.as_slice());
        out
    }
}

/// A header that was written is read back, whatever follows it.
pub proof fn segment_header_is_read_back(h: SegmentHeader, tail: Seq<u8>)
    ensures
        header_read(h.image() + tail) == Result::<SegmentHeader, SegmentError>::Ok(h),
{
    lemma_auto_spec_u32_to_from_le_bytes();
    let b = h.image() + tail;
    assert(b.take(4) =~= segment_magic());
    assert(b.subrange(4, 8) =~= spec_u32_to_le_bytes(SEGMENT_VERSION));
    assert(b.subrange(8, 12) =~= spec_u32_to_le_bytes(h.dimension));
    assert(b.subrange(12, 16) =~= spec_u32_to_le_bytes(h.count));
    assert(b.subrange(16, 20) =~= spec_u32_to_le_bytes(h.checksum));
}

/// A segment that was written opens, with the shape that it was written with.
pub proof fn written_segment_opens(dimension: u32, count: u32, flat: Seq<u32>)
    requires
        flat.len() == count as nat * dimension as nat,
    ensures
        segment_read(segment_image(dimension, count, flat)) matches Ok(h) && h.dimension == dimension
            && h.count == count,
{
    let h = SegmentHeader { dimension, count, checksum: bytes::crc32(data_bytes(flat)) };
    let data = data_bytes(flat);
    let b = segment_image(dimension, count, flat);
    lemma_auto_spec_u32_to_from_le_bytes();
    segment_header_is_read_back(h, data);
    assert(h.image().len() == 32);
    assert(b.subrange(32, 32 + h.data_len() as int) =~= data);
}

/// Every vector of a segment comes back as it was taken in.
pub proof fn written_vectors_are_read_back(dimension: u32, count: u32, flat: Seq<u32>, index: nat)
    requires
        flat.len() == count as nat * dimension as nat,
        index < count,
    ensures
        ({
            let b = segment_image(dimension, count, flat);
            vector_at(b, dimension as nat, index) == flat.subrange(
                index * dimension,
                index * dimension + dimension,
            )
        }),
{
    let h = SegmentHeader { dimension, count, checksum: bytes::crc32(data_bytes(flat)) };
    let data = data_bytes(flat);
    let b = segment_image(dimension, count, flat);
    lemma_auto_spec_u32_to_from_le_bytes();
    assert(h.image().len() == 32);
    lemma_vector_in_data(h, index);
    let d = dimension as int;
    let v = vector_at(b, dimension as nat, index);
    let want = flat.subrange(index * d, index * d + d);
    assert forall|j: int| 0 <= j < d implies #[trigger] v[j] == want[j] by {
        let k = index * d + j;
        let word = spec_u32_to_le_bytes(flat[k]);
        assert(0 <= k) by {
            lemma_mul_nonnegative(index as int, d);
        }
        assert(b.subrange(32 + 4 * k, 32 + 4 * k + 4) =~= word) by {
            assert forall|q: int| 0 <= q < 4 implies #[trigger] b.subrange(32 + 4 * k, 32 + 4 * k + 4)[q]
                == word[q] by {
                assert(b[32 + 4 * k + q] == data[4 * k + q]);
                assert((4 * k + q) / 4 == k && (4 * k + q) % 4 == q);
            }
        }
    }
    assert(v =~= want);
}

/// A file opens as a segment only where it starts as a segment of that shape is
/// written, holds all data of it, and has the data that its checksum is of.
pub proof fn only_sound_segments_open(b: Seq<u8>, h: SegmentHeader)
    ensures
        segment_read(b) == Result::<SegmentHeader, SegmentError>::Ok(h) <==> {
            &&& b.len() >= 32 + 4 * h.count as nat * h.dimension as nat
            &&& b.take(20) == h.image().take(20)
            &&& bytes::crc32(b.subrange(32, 32 + 4 * h.count as int * h.dimension as int)) == h.checksum
        },
{
    lemma_auto_spec_u32_to_from_le_bytes();
    let n: int = 4 * h.count as int * h.dimension as int;
    assert(h.data_len() == n) by (nonlinear_arith)
        requires
            h.data_len() == (h.count as int * h.dimension as int) * 4,
            n == 4 * h.count as int * h.dimension as int,
    ;
    let head = h.image().take(20);
    assert(head.subrange(0, 4) =~= segment_magic());
    assert(head.subrange(4, 8) =~= spec_u32_to_le_bytes(SEGMENT_VERSION));
    assert(head.subrange(8, 12) =~= spec_u32_to_le_bytes(h.dimension));
    assert(head.subrange(12, 16) =~= spec_u32_to_le_bytes(h.count));
    assert(head.subrange(16, 20) =~= spec_u32_to_le_bytes(h.checksum));
    if b.len() >= 20 {
        let own = b.take(20);
        assert(spec_u32_to_le_bytes(bytes::u32_at(b, 4)) == b.subrange(4, 8));
        assert(spec_u32_to_le_bytes(bytes::u32_at(b, 8)) == b.subrange(8, 12));
        assert(spec_u32_to_le_bytes(bytes::u32_at(b, 12)) == b.subrange(12, 16));
        assert(spec_u32_to_le_bytes(bytes::u32_at(b, 16)) == b.subrange(16, 20));
        assert(own.subrange(0, 4) =~= b.take(4));
        assert(own.subrange(4, 8) =~= b.subrange(4, 8));
        assert(own.subrange(8, 12) =~= b.subrange(8, 12));
        assert(own.subrange(12, 16) =~= b.subrange(12, 16));
        assert(own.subrange(16, 20) =~= b.subrange(16, 20));
        assert(own =~= own.subrange(0, 4) + own.subrange(4, 8) + own.subrange(8, 12) + own.subrange(12, 16)
            + own.subrange(16, 20));
        assert(head =~= head.subrange(0, 4) + head.subrange(4, 8) + head.subrange(8, 12) + head.subrange(
            12,
            16,
        ) + head.subrange(16, 20));
    }
}

} // verus!
