//! The write-ahead log: the framing of its file, recovery of a damaged tail,
//! range reads and pruning.
//!
//! The log is the source of truth; indexes are derived from it. A log file is
//! a header followed by records:
//!
//! ```text
//! header   magic "RKW1" | version u16 | epoch u64 | crc u32 of the bytes before
//! record   length u32 | crc u32 of the payload | seq u64 | epoch u64 | payload
//! ```
//!
//! All integers are little-endian and `length` spans the whole record. The
//! functions here work on the bytes of the file; reading and writing the file
//! is left to the caller, and so is turning a payload into an operation.

use vstd::bytes::*;
use vstd::prelude::*;
use vstd::slice::*;
use vstd::string::*;

use crate::bytes;
use crate::bytes::{append_bytes, checksum, copy_range, le_u16, read_u32, read_u64};
use crate::tags::Epoch;
use crate::text;
use crate::text::{around, decimal};

verus! {

/// On-disk format version.
pub const VERSION: u16 = 1;

/// Size of the file header: magic, version, epoch and checksum.
pub const HEADER_LEN: usize = 18;

/// Size of a record's prefix: length, checksum, sequence number and epoch.
pub const RECORD_HEADER_LEN: usize = 24;

/// Open options of a [`Wal`].
#[derive(Debug, Clone, Copy)]
pub struct WalOptions {
    /// Whether every append is flushed to stable storage.
    pub fsync: bool,
    /// Sequence number to resume at when the file holds no records. A file
    /// with records resumes behind its own last one, whatever this says.
    pub start_seq: Option<u64>,
}

impl WalOptions {
    /// Options with the given flush behaviour; an empty file resumes at 1.
    pub fn new(fsync: bool) -> (o: Self)
        ensures
            o.fsync == fsync,
            o.start_seq is None,
    {
        WalOptions { fsync, start_seq: None }
    }

    /// The last sequence number that an empty file reports.
    pub open spec fn resume_point(self) -> u64 {
        match self.start_seq {
            Some(n) => if n == 0 {
                0
            } else {
                (n - 1) as u64
            },
            None => 0,
        }
    }
}

/// A record of the log as a mathematical value.
#[verifier::ext_equal]
pub struct RecordView {
    pub seq: u64,
    pub epoch: u64,
    pub payload: Seq<u8>,
}

/// A record of the log: an encoded operation with its sequence number and the
/// epoch of its writer.
#[derive(Debug)]
pub struct WalRecord {
    pub seq: u64,
    pub epoch: u64,
    pub payload: Vec<u8>,
}

impl View for WalRecord {
    type V = RecordView;

    open spec fn view(&self) -> RecordView {
        RecordView { seq: self.seq, epoch: self.epoch, payload: self.payload@ }
    }
}

/// The records of a vector as mathematical values.
pub open spec fn record_views(rs: Seq<WalRecord>) -> Seq<RecordView> {
    Seq::new(rs.len(), |i: int| rs[i]@)
}

/// What is wrong with a log file.
#[derive(Debug, Clone, Copy, PartialEq, Eq, Structural)]
pub enum Corruption {
    /// The file ends inside its header.
    TruncatedHeader,
    /// The file starts with these bytes in place of the magic ones.
    BadMagic(u8, u8, u8, u8),
    /// The header carries another format version.
    UnsupportedVersion(u16),
    /// The header's checksum does not match.
    HeaderChecksum,
    /// The record at this offset does not fit the file.
    OutOfBounds(u64),
    /// The record at this offset does not fit into the file that is pruned.
    OutOfBoundsInPrune(u64),
    /// A record carries an epoch older than the file's.
    FencedRecord { record: u64, file: u64 },
    /// Sequence numbers do not grow.
    NonMonotonicSeq,
    /// The payload of the record with this sequence number is damaged.
    RecordChecksum(u64),
    /// A record of this many bytes is too large for its length field.
    RecordTooLarge(u64),
}

impl Corruption {
    /// The message that describes the defect.
    pub open spec fn text(self) -> Seq<char> {
        match self {
            Corruption::TruncatedHeader => "truncated WAL header"@,
            Corruption::BadMagic(a, b, c, d) => "bad magic: expected RKW1, got ["@ + text::decimal_text(
                a as nat,
            ) + ", "@ + text::decimal_text(b as nat) + ", "@ + text::decimal_text(c as nat) + ", "@
                + text::decimal_text(d as nat) + "]"@,
            Corruption::UnsupportedVersion(v) => "unsupported WAL version "@ + text::decimal_text(
                v as nat,
            ) + " (expected 1)"@,
            Corruption::HeaderChecksum => "header CRC mismatch"@,
            Corruption::OutOfBounds(o) => "record at offset "@ + text::decimal_text(o as nat)
                + " is out of bounds"@,
            Corruption::OutOfBoundsInPrune(o) => "record at offset "@ + text::decimal_text(o as nat)
                + " is out of bounds during prune"@,
            Corruption::FencedRecord { record, file } => "fenced record (epoch "@ + text::decimal_text(
                record as nat,
            ) + " < file epoch "@ + text::decimal_text(file as nat) + ")"@,
            Corruption::NonMonotonicSeq => "non-monotonic seq during read"@,
            Corruption::RecordChecksum(q) => "record "@ + text::decimal_text(q as nat)
                + " CRC mismatch"@,
            Corruption::RecordTooLarge(n) => "record too large for WAL framing: "@ + text::decimal_text(
                n as nat,
            ) + " bytes"@,
        }
    }

    /// The message that describes the error.
    pub fn message(&self) -> (r: String)
        ensures
            r@ == self.text(),
    {
        match self {
            Corruption::TruncatedHeader => "truncated WAL header".to_owned(),
            Corruption::BadMagic(a, b, c, d) => {
                let mut s: String = "bad magic: expected RKW1, got [".to_owned();
                s.append(decimal(*a as u64).as_str());
                s.append(", ");
                s.append(decimal(*b as u64).as_str());
                s.append(", ");
                s.append(decimal(*c as u64).as_str());
                s.append(", ");
                s.append(decimal(*d as u64).as_str());
                s.append("]");
                s
            },
            Corruption::UnsupportedVersion(v) => around(
                "unsupported WAL version ",
                *v as u64,
                " (expected 1)",
            ),
            Corruption::HeaderChecksum => "header CRC mismatch".to_owned(),
            Corruption::OutOfBounds(o) => around("record at offset ", *o, " is out of bounds"),
            Corruption::OutOfBoundsInPrune(o) => around(
                "record at offset ",
                *o,
                " is out of bounds during prune",
            ),
            Corruption::FencedRecord { record, file } => {
                let mut s: String = around("fenced record (epoch ", *record, " < file epoch ");
                s.append(decimal(*file).as_str());
                s.append(")");
                s
            },
            Corruption::NonMonotonicSeq => "non-monotonic seq during read".to_owned(),
            Corruption::RecordChecksum(q) => around("record ", *q, " CRC mismatch"),
            Corruption::RecordTooLarge(n) => around(
                "record too large for WAL framing: ",
                *n,
                " bytes",
            ),
        }
    }
}

/// Errors of the log.
#[derive(Debug, Clone, Copy, PartialEq, Eq, Structural)]
pub enum WalError {
    /// The file is malformed, or a record cannot be framed.
    Corrupt(Corruption),
}

impl WalError {
    /// The message that describes the error.
    pub fn message(&self) -> (r: String)
        ensures
            r@ == "invalid WAL file: "@ + self->Corrupt_0.text(),
    {
        match self {
            WalError::Corrupt(c) => {
                let mut s: String = "invalid WAL file: ".to_owned();
                s.append(c.message().as_str());
                s
            },
        }
    }
}

pub type WalResult<T> = Result<T, WalError>;

/// The bytes that every log file starts with.
pub open spec fn magic() -> Seq<u8> {
    seq![0x52u8, 0x4Bu8, 0x57u8, 0x31u8]
}

/// The header bytes that the checksum covers.
pub open spec fn header_body(epoch: u64) -> Seq<u8> {
    magic() + spec_u16_to_le_bytes(VERSION) + spec_u64_to_le_bytes(epoch)
}

/// The header of a file with the given epoch.
pub open spec fn header_bytes(epoch: u64) -> Seq<u8> {
    header_body(epoch) + spec_u32_to_le_bytes(bytes::crc32(header_body(epoch)))
}

/// The bytes of one record.
pub open spec fn frame_bytes(r: RecordView) -> Seq<u8> {
    spec_u32_to_le_bytes((24 + r.payload.len()) as u32) + spec_u32_to_le_bytes(bytes::crc32(r.payload))
        + spec_u64_to_le_bytes(r.seq) + spec_u64_to_le_bytes(r.epoch) + r.payload
}

/// The bytes of a sequence of records, one behind the other.
pub open spec fn frames_bytes(rs: Seq<RecordView>) -> Seq<u8>
    decreases rs.len(),
{
    if rs.len() == 0 {
        Seq::empty()
    } else {
        frames_bytes(rs.drop_last()) + frame_bytes(rs.last())
    }
}

/// The bytes of a log file that holds exactly these records.
pub open spec fn log_image(epoch: u64, rs: Seq<RecordView>) -> Seq<u8> {
    header_bytes(epoch) + frames_bytes(rs)
}

/// What a log's records satisfy: sequence numbers grow strictly, no epoch is
/// older than the file's, and every record fits its length field.
pub open spec fn well_kept(epoch: u64, rs: Seq<RecordView>) -> bool {
    &&& forall|i: int| #![trigger rs[i]] 0 <= i < rs.len() ==> rs[i].epoch >= epoch && 24 + rs[i].payload.len() <= u32::MAX
    &&& forall|i: int, j: int| 0 <= i < j < rs.len() ==> rs[i].seq < rs[j].seq
}

/// The length field of the record at offset `o`.
pub open spec fn frame_len(b: Seq<u8>, o: int) -> int {
    bytes::u32_at(b, o) as int
}

/// Whether a record's prefix stands at offset `o` within the first `end` bytes.
pub open spec fn prefix_fits(end: int, o: int) -> bool {
    o + 24 <= end
}

/// Whether the length field at offset `o` describes a record within `end` bytes.
pub open spec fn length_fits(b: Seq<u8>, end: int, o: int) -> bool {
    24 <= frame_len(b, o) && o + frame_len(b, o) <= end
}

/// The record that the bytes at offset `o` describe.
pub open spec fn frame_at(b: Seq<u8>, o: int) -> RecordView {
    RecordView {
        seq: bytes::u64_at(b, o + 8),
        epoch: bytes::u64_at(b, o + 16),
        payload: b.subrange(o + 24, o + frame_len(b, o)),
    }
}

/// Whether the payload of the record at offset `o` has the stored checksum.
pub open spec fn crc_holds(b: Seq<u8>, o: int) -> bool {
    bytes::crc32(frame_at(b, o).payload) == bytes::u32_at(b, o + 4)
}

/// Whether `seq` may follow the sequence number `prev`.
pub open spec fn follows(prev: Option<u64>, seq: u64) -> bool {
    match prev {
        Some(p) => p < seq,
        None => true,
    }
}

/// Whether the record at offset `o` is intact, not fenced, and in order.
pub open spec fn acceptable(b: Seq<u8>, o: int, epoch: u64, prev: Option<u64>) -> bool {
    &&& prefix_fits(b.len() as int, o)
    &&& length_fits(b, b.len() as int, o)
    &&& frame_at(b, o).epoch >= epoch
    &&& follows(prev, frame_at(b, o).seq)
    &&& crc_holds(b, o)
}

/// The records from offset `o` on, up to the first that is not acceptable.
pub open spec fn scan_from(b: Seq<u8>, o: int, epoch: u64, prev: Option<u64>) -> Seq<RecordView>
    decreases b.len() - o,
{
    if acceptable(b, o, epoch, prev) {
        let r = frame_at(b, o);
        seq![r] + scan_from(b, o + frame_len(b, o), epoch, Some(r.seq))
    } else {
        Seq::empty()
    }
}

/// The records of a file: those behind the header, up to the first that is
/// truncated, damaged, fenced or out of order.
pub open spec fn scanned(b: Seq<u8>, epoch: u64) -> Seq<RecordView> {
    scan_from(b, 18, epoch, None)
}


// ---------------------------------------------------------------------------
// Facts about the framing
// ---------------------------------------------------------------------------

proof fn lemma_frame_shape(r: RecordView)
    ensures
        frame_bytes(r).len() == 24 + r.payload.len(),
{
    lemma_auto_spec_u32_to_from_le_bytes();
    lemma_auto_spec_u64_to_from_le_bytes();
}

/// A record that stands at `o` in `b` is read back as it was written.
proof fn lemma_frame_read_back(b: Seq<u8>, o: int, r: RecordView)
    requires
        0 <= o,
        24 + r.payload.len() <= u32::MAX,
        o + frame_bytes(r).len() <= b.len(),
        b.subrange(o, o + frame_bytes(r).len()) == frame_bytes(r),
    ensures
        frame_len(b, o) == 24 + r.payload.len(),
        frame_at(b, o) == r,
        crc_holds(b, o),
{
    lemma_auto_spec_u32_to_from_le_bytes();
    lemma_auto_spec_u64_to_from_le_bytes();
    lemma_frame_shape(r);
    let f = frame_bytes(r);
    let n = f.len() as int;
    assert(f.subrange(0, 4) =~= spec_u32_to_le_bytes((24 + r.payload.len()) as u32));
    assert(f.subrange(4, 8) =~= spec_u32_to_le_bytes(bytes::crc32(r.payload)));
    assert(f.subrange(8, 16) =~= spec_u64_to_le_bytes(r.seq));
    assert(f.subrange(16, 24) =~= spec_u64_to_le_bytes(r.epoch));
    assert(f.subrange(24, n) =~= r.payload);
    assert(b.subrange(o, o + 4) =~= b.subrange(o, o + n).subrange(0, 4));
    assert(b.subrange(o + 4, o + 4 + 4) =~= b.subrange(o, o + n).subrange(4, 8));
    assert(b.subrange(o + 8, o + 8 + 8) =~= b.subrange(o, o + n).subrange(8, 16));
    assert(b.subrange(o + 16, o + 16 + 8) =~= b.subrange(o, o + n).subrange(16, 24));
    assert(b.subrange(o + 24, o + n) =~= b.subrange(o, o + n).subrange(24, n));
}

/// The sequence number that the next record is held against.
pub open spec fn prev_after(prev: Option<u64>, rs: Seq<RecordView>) -> Option<u64> {
    if rs.len() == 0 {
        prev
    } else {
        Some(rs.last().seq)
    }
}

/// Whether the records may follow `prev` in a file of this epoch.
pub open spec fn continues(epoch: u64, prev: Option<u64>, rs: Seq<RecordView>) -> bool {
    well_kept(epoch, rs) && (rs.len() > 0 ==> follows(prev, rs[0].seq))
}

proof fn lemma_frames_split_first(rs: Seq<RecordView>)
    requires
        rs.len() > 0,
    ensures
        frames_bytes(rs) == frame_bytes(rs[0]) + frames_bytes(rs.skip(1)),
    decreases rs.len(),
{
    if rs.len() == 1 {
        assert(rs.drop_last() =~= Seq::<RecordView>::empty());
        assert(rs.skip(1) =~= Seq::<RecordView>::empty());
        assert(frames_bytes(rs.drop_last()) =~= Seq::<u8>::empty());
        assert(frames_bytes(rs) =~= frame_bytes(rs[0]));
        assert(frame_bytes(rs[0]) + frames_bytes(rs.skip(1)) =~= frame_bytes(rs[0]));
    } else {
        lemma_frames_split_first(rs.drop_last());
        assert(rs.drop_last()[0] == rs[0]);
        assert(rs.skip(1).drop_last() =~= rs.drop_last().skip(1));
        assert(rs.skip(1).last() == rs.last());
        assert(frames_bytes(rs) =~= frame_bytes(rs[0]) + (frames_bytes(rs.drop_last().skip(1))
            + frame_bytes(rs.last())));
    }
}

/// Records that stand at `o` are scanned first, and the scan goes on behind them.
proof fn lemma_scan_over(b: Seq<u8>, o: int, epoch: u64, prev: Option<u64>, rs: Seq<RecordView>)
    requires
        0 <= o,
        o + frames_bytes(rs).len() <= b.len(),
        b.subrange(o, o + frames_bytes(rs).len()) == frames_bytes(rs),
        continues(epoch, prev, rs),
    ensures
        scan_from(b, o, epoch, prev) == rs + scan_from(
            b,
            o + frames_bytes(rs).len(),
            epoch,
            prev_after(prev, rs),
        ),
    decreases rs.len(),
{
    if rs.len() == 0 {
        assert(frames_bytes(rs).len() == 0);
        assert(rs + scan_from(b, o, epoch, prev) =~= scan_from(b, o, epoch, prev));
    } else {
        lemma_frames_split_first(rs);
        let r = rs[0];
        let rest = rs.skip(1);
        let n = frame_bytes(r).len() as int;
        let whole = b.subrange(o, o + frames_bytes(rs).len());
        lemma_frame_shape(r);
        assert(frames_bytes(rs).len() == n + frames_bytes(rest).len());
        assert(b.subrange(o, o + n) =~= frame_bytes(r)) by {
            assert forall|i: int| 0 <= i < n implies b.subrange(o, o + n)[i] == frame_bytes(r)[i] by {
                assert(whole[i] == b[o + i]);
                assert(frames_bytes(rs)[i] == frame_bytes(r)[i]);
            }
        }
        lemma_frame_read_back(b, o, r);
        let o2 = o + n;
        assert(b.subrange(o2, o2 + frames_bytes(rest).len()) =~= frames_bytes(rest)) by {
            assert forall|i: int| 0 <= i < frames_bytes(rest).len() implies b.subrange(
                o2,
                o2 + frames_bytes(rest).len(),
            )[i] == frames_bytes(rest)[i] by {
                assert(whole[n + i] == b[o2 + i]);
                assert(frames_bytes(rs)[n + i] == frames_bytes(rest)[i]);
            }
        }
        assert forall|i: int| #![trigger rest[i]] 0 <= i < rest.len() implies rest[i].epoch >= epoch && 24
            + rest[i].payload.len() <= u32::MAX by {
            assert(rest[i] == rs[i + 1]);
        }
        assert(continues(epoch, Some(r.seq), rest));
        lemma_scan_over(b, o2, epoch, Some(r.seq), rest);
        assert(acceptable(b, o, epoch, prev));
        assert(prev_after(prev, rs) == prev_after(Some(r.seq), rest));
        let tail = scan_from(b, o2 + frames_bytes(rest).len(), epoch, prev_after(prev, rs));
        assert(seq![r] + (rest + tail) =~= rs + tail);
    }
}

/// A file written record by record is scanned back as those records.
pub proof fn written_log_is_read_back(epoch: u64, rs: Seq<RecordView>)
    requires
        well_kept(epoch, rs),
    ensures
        scanned(log_image(epoch, rs), epoch) == rs,
{
    let b = log_image(epoch, rs);
    lemma_header_shape(epoch);
    assert(b.subrange(18, (18 + frames_bytes(rs).len()) as int) =~= frames_bytes(rs));
    lemma_scan_over(b, 18, epoch, None, rs);
    assert(rs + Seq::<RecordView>::empty() =~= rs);
}

/// A crash in the middle of an append loses that record alone: whatever part
/// of the record reached the file, the records before it are scanned back.
pub proof fn torn_tail_is_dropped(epoch: u64, rs: Seq<RecordView>, r: RecordView, cut: int)
    requires
        well_kept(epoch, rs.push(r)),
        0 <= cut < frame_bytes(r).len(),
    ensures
        scanned(log_image(epoch, rs) + frame_bytes(r).take(cut), epoch) == rs,
{
    let b = log_image(epoch, rs) + frame_bytes(r).take(cut);
    lemma_header_shape(epoch);
    let end = (18 + frames_bytes(rs).len()) as int;
    assert(b.subrange(18, end) =~= frames_bytes(rs));
    assert forall|i: int| #![trigger rs[i]] 0 <= i < rs.len() implies rs[i].epoch >= epoch && 24
        + rs[i].payload.len() <= u32::MAX by {
        assert(rs.push(r)[i] == rs[i]);
    }
    assert forall|i: int, j: int| 0 <= i < j < rs.len() implies rs[i].seq < rs[j].seq by {
        assert(rs.push(r)[i] == rs[i] && rs.push(r)[j] == rs[j]);
    }
    lemma_scan_over(b, 18, epoch, None, rs);
    lemma_frame_shape(r);
    if cut >= 24 {
        lemma_auto_spec_u32_to_from_le_bytes();
        assert(rs.push(r)[rs.len() as int] == r);
        let length = spec_u32_to_le_bytes((24 + r.payload.len()) as u32);
        assert(b.subrange(end, end + 4) =~= length) by {
            assert forall|i: int| 0 <= i < 4 implies #[trigger] b.subrange(end, end + 4)[i] == length[i] by {
                assert(frame_bytes(r).take(cut)[i] == frame_bytes(r)[i]);
            }
        }
        assert(frame_len(b, end) == frame_bytes(r).len());
    }
    assert(!acceptable(b, end, epoch, prev_after(None, rs)));
    assert(rs + Seq::<RecordView>::empty() =~= rs);
}

proof fn lemma_header_shape(epoch: u64)
    ensures
        header_body(epoch).len() == 14,
        header_bytes(epoch).len() == 18,
{
    lemma_auto_spec_u16_to_from_le_bytes();
    lemma_auto_spec_u32_to_from_le_bytes();
    lemma_auto_spec_u64_to_from_le_bytes();
}

// ---------------------------------------------------------------------------
// Header
// ---------------------------------------------------------------------------

/// The header of a file with the given epoch.
pub fn build_header(epoch: u64) -> (h: Vec<u8>)
    ensures
        h@ == header_bytes(epoch),
        h@.len() == HEADER_LEN,
{
    let mut h: Vec<u8> = Vec::new();
    h.push(0x52);
    h.push(0x4B);
    h.push(0x57);
    h.push(0x31);
    assert(h@ =~= magic());
    append_bytes(&mut h, u16_to_le_bytes(VERSION).as_slice());
    append_bytes(&mut h, u64_to_le_bytes(epoch).as_slice());
    assert(h@ =~= header_body(epoch));
    let crc: u32 = checksum(h.as_slice());
    append_bytes(&mut h, u32_to_le_bytes(crc).as_slice());
    proof {
        lemma_header_shape(epoch);
    }
    h
}

/// What the header of a file says: its epoch, or why it is refused. The first
/// defect in the order length, magic, version and checksum is the one reported.
pub open spec fn header_reading(b: Seq<u8>) -> WalResult<u64> {
    if b.len() < HEADER_LEN {
        Err(WalError::Corrupt(Corruption::TruncatedHeader))
    } else if b.take(4) != magic() {
        Err(WalError::Corrupt(Corruption::BadMagic(b[0], b[1], b[2], b[3])))
    } else if spec_u16_from_le_bytes(b.subrange(4, 6)) != VERSION {
        Err(WalError::Corrupt(Corruption::UnsupportedVersion(spec_u16_from_le_bytes(b.subrange(4, 6)))))
    } else if bytes::crc32(b.take(14)) != bytes::u32_at(b, 14) {
        Err(WalError::Corrupt(Corruption::HeaderChecksum))
    } else {
        Ok(bytes::u64_at(b, 6))
    }
}

/// Verifies a file's header and returns the epoch that the file was made with.
pub fn read_and_verify_header(image: &[u8]) -> (r: WalResult<u64>)
    ensures
        r == header_reading(image@),
{
    if image.len() < HEADER_LEN {
        return Err(WalError::Corrupt(Corruption::TruncatedHeader));
    }
    if image[0] != 0x52 || image[1] != 0x4B || image[2] != 0x57 || image[3] != 0x31 {
        proof {
            let t = image@.take(4);
            assert(t[0] == image@[0] && t[1] == image@[1] && t[2] == image@[2] && t[3] == image@[3]);
            assert(magic()[0] == 0x52 && magic()[1] == 0x4B && magic()[2] == 0x57 && magic()[3] == 0x31);
        }
        return Err(WalError::Corrupt(Corruption::BadMagic(image[0], image[1], image[2], image[3])));
    }
    assert(image@.take(4) =~= magic());
    let version: u16 = le_u16(slice_subrange(image, 4, 6));
    assert(image@.subrange(4, 6).take(2) =~= image@.subrange(4, 6));
    if version != VERSION {
        return Err(WalError::Corrupt(Corruption::UnsupportedVersion(version)));
    }
    let stored: u32 = read_u32(image, 14);
    let actual: u32 = checksum(slice_subrange(image, 0, 14));
    assert(image@.subrange(0, 14) =~= image@.take(14));
    if stored != actual {
        return Err(WalError::Corrupt(Corruption::HeaderChecksum));
    }
    Ok(read_u64(image, 6))
}

/// A header that was built for an epoch is read back as that epoch, whatever
/// follows it in the file.
pub proof fn header_is_read_back(epoch: u64, tail: Seq<u8>)
    ensures
        header_reading(header_bytes(epoch) + tail) == WalResult::<u64>::Ok(epoch),
{
    lemma_header_shape(epoch);
    lemma_auto_spec_u16_to_from_le_bytes();
    lemma_auto_spec_u32_to_from_le_bytes();
    lemma_auto_spec_u64_to_from_le_bytes();
    let b = header_bytes(epoch) + tail;
    assert(b.take(4) =~= magic());
    assert(b.subrange(4, 6) =~= spec_u16_to_le_bytes(VERSION));
    assert(b.subrange(6, 14) =~= spec_u64_to_le_bytes(epoch));
    assert(b.take(14) =~= header_body(epoch));
    assert(b.subrange(14, 18) =~= spec_u32_to_le_bytes(bytes::crc32(header_body(epoch))));
}

// ---------------------------------------------------------------------------
// Scanning and recovery
// ---------------------------------------------------------------------------

/// The length and sequence number of the record at `offset`, if it is
/// acceptable there.
fn accept_at(image: &[u8], offset: usize, epoch: u64, prev: Option<u64>) -> (r: Option<(usize, u64)>)
    requires
        offset <= image.len(),
    ensures
        match r {
            Some((n, seq)) => acceptable(image@, offset as int, epoch, prev) && n == frame_len(
                image@,
                offset as int,
            ) && seq == frame_at(image@, offset as int).seq,
            None => !acceptable(image@, offset as int, epoch, prev),
        },
{
    if image.len() - offset < RECORD_HEADER_LEN {
        return None;
    }
    let length: usize = read_u32(image, offset) as usize;
    let stored: u32 = read_u32(image, offset + 4);
    let seq: u64 = read_u64(image, offset + 8);
    let record_epoch: u64 = read_u64(image, offset + 16);
    if length < RECORD_HEADER_LEN || length > image.len() - offset {
        return None;
    }
    if record_epoch < epoch {
        return None;
    }
    if let Some(p) = prev {
        if seq <= p {
            return None;
        }
    }
    if checksum(slice_subrange(image, offset + RECORD_HEADER_LEN, offset + length)) != stored {
        return None;
    }
    Some((length, seq))
}

proof fn lemma_frames_push(rs: Seq<RecordView>, r: RecordView)
    ensures
        frames_bytes(rs.push(r)) == frames_bytes(rs) + frame_bytes(r),
{
    assert(rs.push(r).drop_last() =~= rs);
}

/// Reads the records of a file up to the first that is truncated, damaged,
/// fenced or out of order.
pub fn scan(image: &[u8], epoch: u64) -> (r: Vec<WalRecord>)
    ensures
        record_views(r@) == scanned(image@, epoch),
{
    let mut out: Vec<WalRecord> = Vec::new();
    if image.len() < HEADER_LEN {
        assert(record_views(out@) =~= scanned(image@, epoch));
        return out;
    }
    let mut offset: usize = HEADER_LEN;
    let mut prev: Option<u64> = None;
    let mut going: bool = true;
    while going
        invariant
            18 <= offset <= image.len(),
            scanned(image@, epoch) == record_views(out@) + (if going {
                scan_from(image@, offset as int, epoch, prev)
            } else {
                Seq::empty()
            }),
        decreases image.len() - offset, (if going { 1int } else { 0int }),
    {
        match accept_at(image, offset, epoch, prev) {
            Some((n, seq)) => {
                let ghost before = record_views(out@);
                let ghost r = frame_at(image@, offset as int);
                let payload: Vec<u8> = copy_range(image, offset + RECORD_HEADER_LEN, offset + n);
                let record_epoch: u64 = read_u64(image, offset + 16);
                out.push(WalRecord { seq, epoch: record_epoch, payload });
                assert(record_views(out@) =~= before.push(r));
                offset = offset + n;
                prev = Some(seq);
                assert(before + (seq![r] + scan_from(image@, offset as int, epoch, prev))
                    =~= record_views(out@) + scan_from(image@, offset as int, epoch, prev));
            },
            None => {
                going = false;
            },
        }
    }
    assert(record_views(out@) + Seq::<RecordView>::empty() =~= record_views(out@));
    out
}

/// Where a file stands after recovery.
#[derive(Debug, Clone, Copy)]
pub struct Recovered {
    /// Length of the file up to the end of its last good record.
    pub valid_len: u64,
    /// Number of good records.
    pub count: u64,
    /// Sequence number of the last good record, 0 if there is none.
    pub last_seq: u64,
}

/// The last sequence number of some records, 0 if there are none.
pub open spec fn last_seq_of(rs: Seq<RecordView>) -> u64 {
    if rs.len() == 0 {
        0
    } else {
        rs.last().seq
    }
}

/// The records that recovery keeps: of the scanned ones, those before the
/// first whose payload does not decode. The first `decodable` do.
pub open spec fn recovered(b: Seq<u8>, epoch: u64, decodable: nat) -> Seq<RecordView> {
    let all = scanned(b, epoch);
    if decodable < all.len() {
        all.take(decodable as int)
    } else {
        all
    }
}

/// Finds the end of the good records of a file. Of the records that [`scan`]
/// returns, the first `decodable` have payloads that decode; the good records
/// end there, and everything behind them is a tail to cut off.
pub fn recover(image: &[u8], epoch: u64, decodable: usize) -> (r: Recovered)
    requires
        image.len() >= HEADER_LEN,
    ensures
        r.count == recovered(image@, epoch, decodable as nat).len(),
        r.last_seq == last_seq_of(recovered(image@, epoch, decodable as nat)),
        r.valid_len == 18 + frames_bytes(recovered(image@, epoch, decodable as nat)).len(),
        r.valid_len <= image.len(),
{
    let mut offset: usize = HEADER_LEN;
    let mut prev: Option<u64> = None;
    let mut count: usize = 0;
    let mut last_seq: u64 = 0;
    let mut going: bool = true;
    let ghost mut done = Seq::<RecordView>::empty();
    assert(done + scan_from(image@, 18, epoch, None) =~= scanned(image@, epoch));
    while going && count < decodable
        invariant
            18 <= offset <= image.len(),
            scanned(image@, epoch) == done + (if going {
                scan_from(image@, offset as int, epoch, prev)
            } else {
                Seq::empty()
            }),
            count == done.len(),
            count <= decodable,
            count <= offset,
            last_seq == last_seq_of(done),
            offset == 18 + frames_bytes(done).len(),
        decreases image.len() - offset, (if going { 1int } else { 0int }),
    {
        match accept_at(image, offset, epoch, prev) {
            Some((n, seq)) => {
                let ghost r = frame_at(image@, offset as int);
                let ghost before = done;
                proof {
                    lemma_frames_push(done, r);
                    lemma_frame_shape(r);
                    done = done.push(r);
                }
                offset = offset + n;
                prev = Some(seq);
                last_seq = seq;
                count = count + 1;
                assert(before + (seq![r] + scan_from(image@, offset as int, epoch, prev)) =~= done
                    + scan_from(image@, offset as int, epoch, prev));
            },
            None => {
                going = false;
            },
        }
    }
    proof {
        let all = scanned(image@, epoch);
        if decodable < all.len() {
            assert(all.take(decodable as int) =~= done);
        } else {
            assert(all =~= done);
        }
    }
    Recovered { valid_len: offset as u64, count: count as u64, last_seq }
}

// ---------------------------------------------------------------------------
// Range reads
// ---------------------------------------------------------------------------

/// What reading the records with sequence numbers in `from..=to` gives, from
/// offset `o` on. A record that does not fit, is fenced, out of order or
/// damaged is an error, unless a record beyond `to` comes before it.
pub open spec fn read_from(
    b: Seq<u8>,
    o: int,
    epoch: u64,
    prev: Option<u64>,
    from: u64,
    to: u64,
) -> WalResult<Seq<RecordView>>
    decreases b.len() - o,
{
    let r = frame_at(b, o);
    if !prefix_fits(b.len() as int, o) {
        Ok(Seq::empty())
    } else if !length_fits(b, b.len() as int, o) {
        Err(WalError::Corrupt(Corruption::OutOfBounds(o as u64)))
    } else if r.epoch < epoch {
        Err(WalError::Corrupt(Corruption::FencedRecord { record: r.epoch, file: epoch }))
    } else if !follows(prev, r.seq) {
        Err(WalError::Corrupt(Corruption::NonMonotonicSeq))
    } else if !crc_holds(b, o) {
        Err(WalError::Corrupt(Corruption::RecordChecksum(r.seq)))
    } else if r.seq >= from && r.seq > to {
        Ok(Seq::empty())
    } else {
        match read_from(b, o + frame_len(b, o), epoch, Some(r.seq), from, to) {
            Ok(rest) => if r.seq >= from {
                Ok(seq![r] + rest)
            } else {
                Ok(rest)
            },
            Err(e) => Err(e),
        }
    }
}

/// Puts records before those of a successful reading.
pub open spec fn read_behind(done: Seq<RecordView>, rest: WalResult<Seq<RecordView>>) -> WalResult<
    Seq<RecordView>,
> {
    match rest {
        Ok(rs) => Ok(done + rs),
        Err(e) => Err(e),
    }
}

/// What reading `from..=to` out of a file gives.
pub open spec fn range_reading(b: Seq<u8>, epoch: u64, from: u64, to: u64) -> WalResult<
    Seq<RecordView>,
> {
    if from > to {
        Ok(Seq::empty())
    } else {
        read_from(b, 18, epoch, None, from, to)
    }
}

/// The reading as a mathematical value.
pub open spec fn reading_view(r: WalResult<Vec<WalRecord>>) -> WalResult<Seq<RecordView>> {
    match r {
        Ok(rs) => Ok(record_views(rs@)),
        Err(e) => Err(e),
    }
}

/// Reads the records with sequence numbers in `from..=to`, in order.
pub fn read_records(image: &[u8], epoch: u64, from: u64, to: u64) -> (r: WalResult<Vec<WalRecord>>)
    requires
        image.len() >= HEADER_LEN,
    ensures
        reading_view(r) == range_reading(image@, epoch, from, to),
{
    let mut out: Vec<WalRecord> = Vec::new();
    assert(record_views(out@) =~= Seq::<RecordView>::empty());
    if from > to {
        return Ok(out);
    }
    let mut offset: usize = HEADER_LEN;
    let mut prev: Option<u64> = None;
    let ghost whole = range_reading(image@, epoch, from, to);
    proof {
        assert(read_behind(record_views(out@), whole) == whole) by {
            if let Ok(rs) = whole {
                assert(record_views(out@) + rs =~= rs);
            }
        }
    }
    while image.len() - offset >= RECORD_HEADER_LEN
        invariant
            18 <= offset <= image.len(),
            from <= to,
            whole == range_reading(image@, epoch, from, to),
            whole == read_behind(
                record_views(out@),
                read_from(image@, offset as int, epoch, prev, from, to),
            ),
        decreases image.len() - offset,
    {
        let length: usize = read_u32(image, offset) as usize;
        let stored: u32 = read_u32(image, offset + 4);
        let seq: u64 = read_u64(image, offset + 8);
        let record_epoch: u64 = read_u64(image, offset + 16);
        let ghost r = frame_at(image@, offset as int);
        if length < RECORD_HEADER_LEN || length > image.len() - offset {
            return Err(WalError::Corrupt(Corruption::OutOfBounds(offset as u64)));
        }
        if record_epoch < epoch {
            return Err(
                WalError::Corrupt(Corruption::FencedRecord { record: record_epoch, file: epoch }),
            );
        }
        if let Some(p) = prev {
            if seq <= p {
                return Err(WalError::Corrupt(Corruption::NonMonotonicSeq));
            }
        }
        if checksum(slice_subrange(image, offset + RECORD_HEADER_LEN, offset + length)) != stored {
            return Err(WalError::Corrupt(Corruption::RecordChecksum(seq)));
        }
        let ghost before = record_views(out@);
        if seq >= from {
            if seq > to {
                assert(before + Seq::<RecordView>::empty() =~= before);
                return Ok(out);
            }
            let payload: Vec<u8> = copy_range(image, offset + RECORD_HEADER_LEN, offset + length);
            out.push(WalRecord { seq, epoch: record_epoch, payload });
            assert(record_views(out@) =~= before.push(r));
        }
        offset = offset + length;
        prev = Some(seq);
        proof {
            if let Ok(rest) = read_from(image@, offset as int, epoch, prev, from, to) {
                assert(before + (seq![r] + rest) =~= before.push(r) + rest);
            }
        }
    }
    assert(record_views(out@) + Seq::<RecordView>::empty() =~= record_views(out@));
    Ok(out)
}

// ---------------------------------------------------------------------------
// Pruning
// ---------------------------------------------------------------------------

/// The bytes of the records from offset `o` on whose sequence numbers are
/// beyond `keep_from`, or the offset of the first record that does not fit.
pub open spec fn kept_from(b: Seq<u8>, o: int, keep_from: u64) -> WalResult<Seq<u8>>
    decreases b.len() - o,
{
    let r = frame_at(b, o);
    if !prefix_fits(b.len() as int, o) {
        Ok(Seq::empty())
    } else if !length_fits(b, b.len() as int, o) {
        Err(WalError::Corrupt(Corruption::OutOfBoundsInPrune(o as u64)))
    } else {
        match kept_from(b, o + frame_len(b, o), keep_from) {
            Ok(rest) => if r.seq > keep_from {
                Ok(b.subrange(o, o + frame_len(b, o)) + rest)
            } else {
                Ok(rest)
            },
            Err(e) => Err(e),
        }
    }
}

/// The file that pruning writes: a fresh header and the kept records.
pub open spec fn pruned_image(b: Seq<u8>, epoch: u64, keep_from: u64) -> WalResult<Seq<u8>> {
    match kept_from(b, 18, keep_from) {
        Ok(kept) => Ok(header_bytes(epoch) + kept),
        Err(e) => Err(e),
    }
}

/// Copies a file without the records up to `keep_from`.
pub fn prune_records(image: &[u8], epoch: u64, keep_from: u64) -> (r: WalResult<Vec<u8>>)
    requires
        image.len() >= HEADER_LEN,
    ensures
        match r {
            Ok(bytes) => pruned_image(image@, epoch, keep_from) == WalResult::<Seq<u8>>::Ok(bytes@),
            Err(e) => pruned_image(image@, epoch, keep_from) == WalResult::<Seq<u8>>::Err(e),
        },
{
    let mut out: Vec<u8> = build_header(epoch);
    let mut offset: usize = HEADER_LEN;
    while image.len() - offset >= RECORD_HEADER_LEN
        invariant
            18 <= offset <= image.len(),
            match kept_from(image@, offset as int, keep_from) {
                Ok(rest) => pruned_image(image@, epoch, keep_from) == WalResult::<Seq<u8>>::Ok(
                    out@ + rest,
                ),
                Err(e) => pruned_image(image@, epoch, keep_from) == WalResult::<Seq<u8>>::Err(e),
            },
        decreases image.len() - offset,
    {
        let length: usize = read_u32(image, offset) as usize;
        let seq: u64 = read_u64(image, offset + 8);
        if length < RECORD_HEADER_LEN || length > image.len() - offset {
            return Err(WalError::Corrupt(Corruption::OutOfBoundsInPrune(offset as u64)));
        }
        let ghost before = out@;
        if seq > keep_from {
            append_bytes(&mut out, slice_subrange(image, offset, offset + length));
        }
        proof {
            if let Ok(rest) = kept_from(image@, offset + length, keep_from) {
                let f = image@.subrange(offset as int, offset + length);
                assert(before + (f + rest) =~= before + f + rest);
            }
        }
        offset = offset + length;
    }
    assert(out@ + Seq::<u8>::empty() =~= out@);
    Ok(out)
}

/// Whether a sequence number lies in `from..=to`.
pub open spec fn in_range(from: u64, to: u64) -> spec_fn(RecordView) -> bool {
    |r: RecordView| from <= r.seq <= to
}

/// Whether a sequence number lies beyond `keep_from`.
pub open spec fn beyond(keep_from: u64) -> spec_fn(RecordView) -> bool {
    |r: RecordView| r.seq > keep_from
}

proof fn lemma_filter_first(rs: Seq<RecordView>, keep: spec_fn(RecordView) -> bool)
    requires
        rs.len() > 0,
    ensures
        rs.filter(keep) == (if keep(rs[0]) {
            seq![rs[0]]
        } else {
            Seq::empty()
        }) + rs.skip(1).filter(keep),
{
    let head = seq![rs[0]];
    assert(rs =~= head + rs.skip(1));
    Seq::filter_distributes_over_add(head, rs.skip(1), keep);
    reveal_with_fuel(Seq::filter, 2);
    assert(head.drop_last() =~= Seq::<RecordView>::empty());
    assert(head.filter(keep) =~= if keep(rs[0]) {
        seq![rs[0]]
    } else {
        Seq::empty()
    });
}

proof fn lemma_filter_none(rs: Seq<RecordView>, keep: spec_fn(RecordView) -> bool)
    requires
        forall|i: int| 0 <= i < rs.len() ==> !keep(#[trigger] rs[i]),
    ensures
        rs.filter(keep) == Seq::<RecordView>::empty(),
    decreases rs.len(),
{
    reveal(Seq::filter);
    if rs.len() > 0 {
        let init = rs.drop_last();
        assert forall|i: int| 0 <= i < init.len() implies !keep(#[trigger] init[i]) by {
            assert(init[i] == rs[i]);
        }
        lemma_filter_none(init, keep);
    }
}

/// The record at the head of a run of records, and the run behind it.
proof fn lemma_run_head(b: Seq<u8>, o: int, epoch: u64, rs: Seq<RecordView>)
    requires
        0 <= o,
        rs.len() > 0,
        o + frames_bytes(rs).len() == b.len(),
        b.skip(o) == frames_bytes(rs),
        well_kept(epoch, rs),
    ensures
        frame_len(b, o) == frame_bytes(rs[0]).len(),
        frame_at(b, o) == rs[0],
        crc_holds(b, o),
        prefix_fits(b.len() as int, o),
        length_fits(b, b.len() as int, o),
        b.subrange(o, o + frame_len(b, o)) == frame_bytes(rs[0]),
        o + frame_len(b, o) + frames_bytes(rs.skip(1)).len() == b.len(),
        b.skip(o + frame_len(b, o)) == frames_bytes(rs.skip(1)),
        well_kept(epoch, rs.skip(1)),
{
    let r = rs[0];
    let rest = rs.skip(1);
    lemma_frames_split_first(rs);
    lemma_frame_shape(r);
    let n = frame_bytes(r).len() as int;
    assert(frames_bytes(rs).take(n) =~= frame_bytes(r));
    assert(frames_bytes(rs).skip(n) =~= frames_bytes(rest));
    assert(b.subrange(o, o + n) =~= b.skip(o).take(n));
    assert(b.skip(o + n) =~= b.skip(o).skip(n));
    lemma_frame_read_back(b, o, r);
    assert forall|i: int| #![trigger rest[i]] 0 <= i < rest.len() implies rest[i].epoch >= epoch && 24
        + rest[i].payload.len() <= u32::MAX by {
        assert(rest[i] == rs[i + 1]);
    }
}

proof fn lemma_read_over(
    b: Seq<u8>,
    o: int,
    epoch: u64,
    prev: Option<u64>,
    rs: Seq<RecordView>,
    from: u64,
    to: u64,
)
    requires
        0 <= o,
        o + frames_bytes(rs).len() == b.len(),
        b.skip(o) == frames_bytes(rs),
        continues(epoch, prev, rs),
        from <= to,
    ensures
        read_from(b, o, epoch, prev, from, to) == WalResult::<Seq<RecordView>>::Ok(
            rs.filter(in_range(from, to)),
        ),
    decreases rs.len(),
{
    let keep = in_range(from, to);
    if rs.len() == 0 {
        lemma_filter_none(rs, keep);
    } else {
        let r = rs[0];
        let rest = rs.skip(1);
        lemma_run_head(b, o, epoch, rs);
        lemma_filter_first(rs, keep);
        if rest.len() > 0 {
            assert(rest[0] == rs[1]);
        }
        if r.seq > to {
            assert forall|i: int| 0 <= i < rest.len() implies !keep(#[trigger] rest[i]) by {
                assert(rest[i] == rs[i + 1]);
            }
            lemma_filter_none(rest, keep);
            assert(Seq::<RecordView>::empty() + Seq::<RecordView>::empty() =~= Seq::<RecordView>::empty());
            if r.seq < from {
                assert(from <= to);
            }
        } else {
            lemma_read_over(b, o + frame_len(b, o), epoch, Some(r.seq), rest, from, to);
            assert(Seq::<RecordView>::empty() + rest.filter(keep) =~= rest.filter(keep));
        }
    }
}

/// Reading a range out of a written log gives exactly the records whose
/// sequence numbers lie in the range, in their order.
pub proof fn range_read_selects(epoch: u64, rs: Seq<RecordView>, from: u64, to: u64)
    requires
        well_kept(epoch, rs),
    ensures
        range_reading(log_image(epoch, rs), epoch, from, to) == WalResult::<Seq<RecordView>>::Ok(
            rs.filter(in_range(from, to)),
        ),
{
    let b = log_image(epoch, rs);
    lemma_header_shape(epoch);
    if from > to {
        lemma_filter_none(rs, in_range(from, to));
    } else {
        assert(b.skip(18) =~= frames_bytes(rs));
        lemma_read_over(b, 18, epoch, None, rs, from, to);
    }
}

proof fn lemma_kept_over(b: Seq<u8>, o: int, epoch: u64, rs: Seq<RecordView>, keep_from: u64)
    requires
        0 <= o,
        o + frames_bytes(rs).len() == b.len(),
        b.skip(o) == frames_bytes(rs),
        well_kept(epoch, rs),
    ensures
        kept_from(b, o, keep_from) == WalResult::<Seq<u8>>::Ok(
            frames_bytes(rs.filter(beyond(keep_from))),
        ),
    decreases rs.len(),
{
    let keep = beyond(keep_from);
    if rs.len() == 0 {
        lemma_filter_none(rs, keep);
    } else {
        let r = rs[0];
        let rest = rs.skip(1);
        lemma_run_head(b, o, epoch, rs);
        lemma_filter_first(rs, keep);
        lemma_kept_over(b, o + frame_len(b, o), epoch, rest, keep_from);
        let kept = rest.filter(keep);
        if keep(r) {
            let all = seq![r] + kept;
            lemma_frames_split_first(all);
            assert(all.skip(1) =~= kept);
        } else {
            assert(Seq::<RecordView>::empty() + kept =~= kept);
        }
    }
}

/// Pruning a written log leaves a log of exactly the records whose sequence
/// numbers are beyond the watermark.
pub proof fn prune_keeps_newer(epoch: u64, rs: Seq<RecordView>, keep_from: u64)
    requires
        well_kept(epoch, rs),
    ensures
        pruned_image(log_image(epoch, rs), epoch, keep_from) == WalResult::<Seq<u8>>::Ok(
            log_image(epoch, rs.filter(beyond(keep_from))),
        ),
{
    let b = log_image(epoch, rs);
    lemma_header_shape(epoch);
    assert(b.skip(18) =~= frames_bytes(rs));
    lemma_kept_over(b, 18, epoch, rs, keep_from);
}

proof fn lemma_filter_well_kept(epoch: u64, rs: Seq<RecordView>, keep: spec_fn(RecordView) -> bool)
    requires
        well_kept(epoch, rs),
    ensures
        well_kept(epoch, rs.filter(keep)),
        rs.filter(keep).len() > 0 ==> rs.len() > 0 && rs.filter(keep).last().seq <= rs.last().seq,
    decreases rs.len(),
{
    reveal(Seq::filter);
    if rs.len() > 0 {
        let init = rs.drop_last();
        assert forall|i: int| #![trigger init[i]] 0 <= i < init.len() implies init[i].epoch >= epoch && 24
            + init[i].payload.len() <= u32::MAX by {
            assert(init[i] == rs[i]);
        }
        lemma_filter_well_kept(epoch, init, keep);
        let sub = init.filter(keep);
        let out = rs.filter(keep);
        if keep(rs.last()) {
            assert(out == sub.push(rs.last()));
            assert(rs.last() == rs[rs.len() - 1]);
            if init.len() > 0 {
                assert(init.last() == rs[rs.len() - 2]);
            }
            assert forall|i: int, j: int| 0 <= i < j < out.len() implies out[i].seq < out[j].seq by {
                if j == sub.len() {
                    if i < sub.len() - 1 {
                        assert(sub[i].seq < sub[sub.len() - 1].seq);
                    }
                }
            }
        } else {
            assert(out == sub);
            if init.len() > 0 {
                assert(init.last() == rs[rs.len() - 2]);
                assert(rs.last() == rs[rs.len() - 1]);
            }
        }
    }
}

/// What pruning leaves is again a well-kept log.
pub proof fn pruned_log_is_well_kept(epoch: u64, rs: Seq<RecordView>, keep_from: u64)
    requires
        well_kept(epoch, rs),
    ensures
        well_kept(epoch, rs.filter(beyond(keep_from))),
{
    lemma_filter_well_kept(epoch, rs, beyond(keep_from));
}

/// Whatever a file holds, the records scanned from it are well kept: sequence
/// numbers grow strictly and no record is fenced.
pub proof fn scanned_records_are_well_kept(b: Seq<u8>, epoch: u64)
    ensures
        well_kept(epoch, scanned(b, epoch)),
{
    lemma_scan_well_kept(b, 18, epoch, None);
}

proof fn lemma_scan_well_kept(b: Seq<u8>, o: int, epoch: u64, prev: Option<u64>)
    requires
        0 <= o,
    ensures
        continues(epoch, prev, scan_from(b, o, epoch, prev)),
    decreases b.len() - o,
{
    if acceptable(b, o, epoch, prev) {
        let r = frame_at(b, o);
        lemma_scan_well_kept(b, o + frame_len(b, o), epoch, Some(r.seq));
        let rest = scan_from(b, o + frame_len(b, o), epoch, Some(r.seq));
        let all = scan_from(b, o, epoch, prev);
        assert(all =~= seq![r] + rest);
        assert forall|i: int| #![trigger all[i]] 0 <= i < all.len() implies all[i].epoch >= epoch && 24
            + all[i].payload.len() <= u32::MAX by {
            if i > 0 {
                assert(all[i] == rest[i - 1]);
            }
        }
        assert forall|i: int, j: int| 0 <= i < j < all.len() implies all[i].seq < all[j].seq by {
            assert(all[j] == rest[j - 1]);
            if i > 0 {
                assert(all[i] == rest[i - 1]);
            } else if j > 1 {
                assert(rest[0].seq < rest[j - 1].seq);
            }
        }
    }
}

// ---------------------------------------------------------------------------
// The log
// ---------------------------------------------------------------------------

/// An append-only log of one collection: where its file stands. The bytes of
/// the file are the caller's; this type says what to write and where.
#[derive(Debug, Clone, Copy)]
pub struct Wal {
    header_epoch: u64,
    last_seq: u64,
    len: u64,
    file_len: u64,
    options: WalOptions,
}

/// A log's position as a mathematical value.
pub struct WalView {
    pub epoch: u64,
    pub last_seq: u64,
    pub len: nat,
    pub file_len: nat,
    pub options: WalOptions,
}

impl View for Wal {
    type V = WalView;

    closed spec fn view(&self) -> WalView {
        WalView {
            epoch: self.header_epoch,
            last_seq: self.last_seq,
            len: self.len as nat,
            file_len: self.file_len as nat,
            options: self.options,
        }
    }
}

/// A record that was given its place in the log, and the bytes to write there.
#[derive(Debug)]
pub struct Appended {
    pub seq: u64,
    pub epoch: u64,
    /// Offset in the file at which the bytes belong.
    pub offset: u64,
    pub bytes: Vec<u8>,
}

/// The position of a log whose file holds exactly these records.
pub open spec fn position(epoch: u64, rs: Seq<RecordView>, options: WalOptions) -> WalView {
    WalView {
        epoch,
        last_seq: if rs.len() == 0 {
            options.resume_point()
        } else {
            rs.last().seq
        },
        len: rs.len(),
        file_len: 18 + frames_bytes(rs).len(),
        options,
    }
}

impl Wal {
    /// Opens a log whose file does not exist or is empty. The file is to be
    /// written with [`build_header`] of the same epoch.
    pub fn create(epoch: Epoch, options: WalOptions) -> (w: Wal)
        ensures
            w@ == position(epoch.0, Seq::empty(), options),
    {
        let last_seq: u64 = match options.start_seq {
            Some(n) => n.saturating_sub(1),
            None => 0,
        };
        Wal { header_epoch: epoch.0, last_seq, len: 0, file_len: HEADER_LEN as u64, options }
    }

    /// Opens a log over the bytes of its file. The first `decodable` records
    /// that [`scan`] finds have payloads that decode. The file keeps the epoch
    /// of its header, and everything behind [`Wal::size_bytes`] is a damaged
    /// tail to be cut off.
    pub fn open(image: &[u8], decodable: usize, epoch: Epoch, options: WalOptions) -> (r: WalResult<Wal>)
        ensures
            image@.len() == 0 ==> (r matches Ok(w) && w@ == position(epoch.0, Seq::empty(), options)),
            image@.len() > 0 ==> match header_reading(image@) {
                Ok(e) => r matches Ok(w) && w@ == position(
                    e,
                    recovered(image@, e, decodable as nat),
                    options,
                ),
                Err(err) => r == WalResult::<Wal>::Err(err),
            },
    {
        if image.len() == 0 {
            return Ok(Wal::create(epoch, options));
        }
        match read_and_verify_header(image) {
            Ok(header_epoch) => {
                let at: Recovered = recover(image, header_epoch, decodable);
                let last_seq: u64 = if at.count == 0 {
                    match options.start_seq {
                        Some(n) => n.saturating_sub(1),
                        None => at.last_seq,
                    }
                } else {
                    at.last_seq
                };
                Ok(
                    Wal {
                        header_epoch,
                        last_seq,
                        len: at.count,
                        file_len: at.valid_len,
                        options,
                    },
                )
            },
            Err(e) => Err(e),
        }
    }

    /// Gives a payload the next sequence number and frames it. The bytes are
    /// to be written at the returned offset.
    pub fn append(&mut self, payload: &[u8]) -> (r: WalResult<Appended>)
        requires
            old(self)@.last_seq < u64::MAX,
            old(self)@.len < u64::MAX,
            old(self)@.file_len + 24 + payload@.len() <= u64::MAX,
        ensures
            24 + payload@.len() > u32::MAX ==> *final(self) == *old(self) && r == WalResult::<
                Appended,
            >::Err(WalError::Corrupt(Corruption::RecordTooLarge((24 + payload@.len()) as u64))),
            24 + payload@.len() <= u32::MAX ==> {
                let record = RecordView {
                    seq: (old(self)@.last_seq + 1) as u64,
                    epoch: old(self)@.epoch,
                    payload: payload@,
                };
                &&& r matches Ok(a)
                &&& a.seq == record.seq
                &&& a.epoch == record.epoch
                &&& a.offset == old(self)@.file_len
                &&& a.bytes@ == frame_bytes(record)
                &&& final(self)@ == (WalView {
                    last_seq: record.seq,
                    len: old(self)@.len + 1,
                    file_len: old(self)@.file_len + frame_bytes(record).len(),
                    ..old(self)@
                })
            },
    {
        let seq: u64 = self.last_seq + 1;
        let epoch: u64 = self.header_epoch;
        let total: u64 = RECORD_HEADER_LEN as u64 + payload.len() as u64;
        if total > u32::MAX as u64 {
            return Err(WalError::Corrupt(Corruption::RecordTooLarge(total)));
        }
        let mut bytes: Vec<u8> = u32_to_le_bytes(total as u32);
        append_bytes(&mut bytes, u32_to_le_bytes(checksum(payload)).as_slice());
        append_bytes(&mut bytes, u64_to_le_bytes(seq).as_slice());
        append_bytes(&mut bytes, u64_to_le_bytes(epoch).as_slice());
        append_bytes(&mut bytes, payload);
        let ghost record = RecordView { seq, epoch, payload: payload@ };
        assert(bytes@ =~= frame_bytes(record));
        proof {
            lemma_frame_shape(record);
        }
        let offset: u64 = self.file_len;
        self.file_len = self.file_len + total;
        self.last_seq = seq;
        self.len = self.len + 1;
        Ok(Appended { seq, epoch, offset, bytes })
    }

    /// Reads the records with sequence numbers in `from..=to`, in order, from
    /// the bytes of the file. Empty if `from > to`.
    pub fn read_range(&self, image: &[u8], from: u64, to: u64) -> (r: WalResult<Vec<WalRecord>>)
        requires
            18 <= self@.file_len <= image.len(),
        ensures
            reading_view(r) == range_reading(
                image@.take(self@.file_len as int),
                self@.epoch,
                from,
                to,
            ),
    {
        let end: usize = self.file_len as usize;
        assert(image@.subrange(0, end as int) =~= image@.take(end as int));
        read_records(slice_subrange(image, 0, end), self.header_epoch, from, to)
    }

    /// The file that keeps only the records beyond `keep_from`. It is to
    /// replace the old one; [`Wal::reposition`] then moves the log onto it.
    pub fn prune(&self, image: &[u8], keep_from: u64) -> (r: WalResult<Vec<u8>>)
        requires
            18 <= self@.file_len <= image.len(),
        ensures
            match r {
                Ok(bytes) => pruned_image(
                    image@.take(self@.file_len as int),
                    self@.epoch,
                    keep_from,
                ) == WalResult::<Seq<u8>>::Ok(bytes@),
                Err(e) => pruned_image(image@.take(self@.file_len as int), self@.epoch, keep_from)
                    == WalResult::<Seq<u8>>::Err(e),
            },
    {
        let end: usize = self.file_len as usize;
        assert(image@.subrange(0, end as int) =~= image@.take(end as int));
        prune_records(slice_subrange(image, 0, end), self.header_epoch, keep_from)
    }

    /// Moves the log onto a rewritten file, of whose records the first
    /// `decodable` decode. A file without records restarts at 1.
    pub fn reposition(&mut self, image: &[u8], decodable: usize)
        requires
            image.len() >= HEADER_LEN,
        ensures
            final(self)@ == (WalView {
                last_seq: last_seq_of(recovered(image@, old(self)@.epoch, decodable as nat)),
                ..position(
                    old(self)@.epoch,
                    recovered(image@, old(self)@.epoch, decodable as nat),
                    old(self)@.options,
                )
            }),
    {
        let at: Recovered = recover(image, self.header_epoch, decodable);
        self.last_seq = at.last_seq;
        self.len = at.count;
        self.file_len = at.valid_len;
    }

    /// Highest sequence number of the log. For a log without records this is
    /// where the next append will land, less one.
    pub fn last_seq(&self) -> (r: u64)
        ensures
            r == self@.last_seq,
    {
        self.last_seq
    }

    /// Number of records.
    pub fn len(&self) -> (r: u64)
        ensures
            r == self@.len,
    {
        self.len
    }

    /// Whether the log holds no records.
    pub fn is_empty(&self) -> (r: bool)
        ensures
            r == (self@.len == 0),
    {
        self.len == 0
    }

    /// The epoch that the file was made with.
    pub fn epoch(&self) -> (r: u64)
        ensures
            r == self@.epoch,
    {
        self.header_epoch
    }

    /// Size of the file in bytes.
    pub fn size_bytes(&self) -> (r: u64)
        ensures
            r == self@.file_len,
    {
        self.file_len
    }
}

/// Appending keeps the log well kept: the file with the new record is the
/// image of the old records and the new one, and the log stands behind it.
pub proof fn append_extends_log(epoch: u64, rs: Seq<RecordView>, options: WalOptions, payload: Seq<u8>)
    requires
        well_kept(epoch, rs),
        24 + payload.len() <= u32::MAX,
        position(epoch, rs, options).last_seq < u64::MAX,
    ensures
        ({
            let at = position(epoch, rs, options);
            let r = RecordView { seq: (at.last_seq + 1) as u64, epoch, payload };
            &&& log_image(epoch, rs.push(r)) == log_image(epoch, rs) + frame_bytes(r)
            &&& well_kept(epoch, rs.push(r))
            &&& position(epoch, rs.push(r), options) == (WalView {
                last_seq: r.seq,
                len: at.len + 1,
                file_len: at.file_len + frame_bytes(r).len(),
                ..at
            })
        }),
{
    let at = position(epoch, rs, options);
    let r = RecordView { seq: (at.last_seq + 1) as u64, epoch, payload };
    lemma_frames_push(rs, r);
    assert(log_image(epoch, rs.push(r)) =~= log_image(epoch, rs) + frame_bytes(r));
    let all = rs.push(r);
    assert forall|i: int, j: int| 0 <= i < j < all.len() implies all[i].seq < all[j].seq by {
        if j == rs.len() {
            if i < rs.len() - 1 {
                assert(rs[i].seq < rs[rs.len() - 1].seq);
            }
        }
    }
}

/// A log that is pruned and opened again where the next append was to land goes
/// on as if nothing had happened: the file holds exactly the records beyond the
/// watermark, and the next append gets the number that it would have got.
pub proof fn pruned_logs_go_on(epoch: u64, rs: Seq<RecordView>, options: WalOptions, keep_from: u64)
    requires
        well_kept(epoch, rs),
        position(epoch, rs, options).last_seq < u64::MAX,
    ensures
        ({
            let last = position(epoch, rs, options).last_seq;
            let kept = rs.filter(beyond(keep_from));
            let again = WalOptions { start_seq: Some((last + 1) as u64), ..options };
            let image = log_image(epoch, kept);
            &&& pruned_image(log_image(epoch, rs), epoch, keep_from) == WalResult::<Seq<u8>>::Ok(image)
            &&& header_reading(image) == WalResult::<u64>::Ok(epoch)
            &&& scanned(image, epoch) == kept
            &&& position(epoch, kept, again).last_seq == last
        }),
{
    let kept = rs.filter(beyond(keep_from));
    prune_keeps_newer(epoch, rs, keep_from);
    pruned_log_is_well_kept(epoch, rs, keep_from);
    header_is_read_back(epoch, frames_bytes(kept));
    written_log_is_read_back(epoch, kept);
    if kept.len() > 0 {
        lemma_filter_well_kept(epoch, rs, beyond(keep_from));
        let r = rs.last();
        assert(r.seq > keep_from) by {
            rs.filter_lemma(beyond(keep_from));
        }
        reveal(Seq::filter);
        assert(kept.last() == r);
    }
}

// ---------------------------------------------------------------------------
// What the log is for
// ---------------------------------------------------------------------------

/// A range is read by number, both ends among it: every record with a number in
/// it comes back, in order, and no other.
pub proof fn ranges_hold_their_ends(epoch: u64, rs: Seq<RecordView>, from: u64, to: u64, r: RecordView)
    requires
        well_kept(epoch, rs),
    ensures
        range_reading(log_image(epoch, rs), epoch, from, to) matches Ok(got) && {
            &&& got.contains(r) <==> rs.contains(r) && from <= r.seq && r.seq <= to
            &&& forall|i: int, j: int| 0 <= i < j < got.len() ==> (#[trigger] got[i]).seq < (
            #[trigger] got[j]).seq
        },
{
    range_read_selects(epoch, rs, from, to);
    let got = rs.filter(in_range(from, to));
    lemma_filtered(rs, in_range(from, to), r);
    lemma_filter_well_kept(epoch, rs, in_range(from, to));
}

proof fn lemma_filtered(rs: Seq<RecordView>, keep: spec_fn(RecordView) -> bool, r: RecordView)
    ensures
        rs.filter(keep).contains(r) <==> rs.contains(r) && keep(r),
    decreases rs.len(),
{
    reveal(Seq::filter);
    if rs.len() > 0 {
        let init = rs.drop_last();
        lemma_filtered(init, keep, r);
        let a = init.filter(keep);
        let b = rs.filter(keep);
        if rs.contains(r) {
            let i = choose|i: int| 0 <= i < rs.len() && rs[i] == r;
            if i < init.len() {
                assert(init[i] == r);
            }
        }
        if init.contains(r) {
            let i = choose|i: int| 0 <= i < init.len() && init[i] == r;
            assert(rs[i] == r);
        }
        if a.contains(r) {
            let i = choose|i: int| 0 <= i < a.len() && a[i] == r;
            assert(b[i] == r);
        }
        if keep(rs.last()) {
            assert(b == a.push(rs.last()));
            assert(b[a.len() as int] == rs.last());
            assert(rs[rs.len() - 1] == rs.last());
            if b.contains(r) {
                let i = choose|i: int| 0 <= i < b.len() && b[i] == r;
                if i < a.len() {
                    assert(a[i] == r);
                }
            }
        }
    } else {
        assert(rs.filter(keep).len() == 0);
    }
}

/// Pruning takes away the records up to the watermark, the one with its number
/// among them, and keeps every other.
pub proof fn pruning_goes_by_the_watermark(epoch: u64, rs: Seq<RecordView>, keep_from: u64, r: RecordView)
    requires
        well_kept(epoch, rs),
    ensures
        pruned_image(log_image(epoch, rs), epoch, keep_from) matches Ok(b) && (scanned(b, epoch).contains(r)
            <==> rs.contains(r) && r.seq > keep_from),
{
    prune_keeps_newer(epoch, rs, keep_from);
    pruned_log_is_well_kept(epoch, rs, keep_from);
    written_log_is_read_back(epoch, rs.filter(beyond(keep_from)));
    lemma_filtered(rs, beyond(keep_from), r);
}

/// The bytes of a record whose checksum field holds `crc`.
pub open spec fn stamped_frame(r: RecordView, crc: u32) -> Seq<u8> {
    spec_u32_to_le_bytes((24 + r.payload.len()) as u32) + spec_u32_to_le_bytes(crc) + spec_u64_to_le_bytes(
        r.seq,
    ) + spec_u64_to_le_bytes(r.epoch) + r.payload
}

/// A record behind a well-kept log is recovered just when it is intact, of the
/// file's epoch or a later one, and numbered beyond the records before it.
pub proof fn only_good_records_are_recovered(epoch: u64, rs: Seq<RecordView>, r: RecordView, crc: u32)
    requires
        well_kept(epoch, rs),
        24 + r.payload.len() <= u32::MAX,
    ensures
        ({
            let b = log_image(epoch, rs) + stamped_frame(r, crc);
            let good = crc == bytes::crc32(r.payload) && r.epoch >= epoch && (rs.len() > 0 ==> rs.last().seq
                < r.seq);
            &&& good ==> scanned(b, epoch) == rs.push(r)
            &&& !good ==> scanned(b, epoch) == rs
        }),
{
    let f = stamped_frame(r, crc);
    let b = log_image(epoch, rs) + f;
    lemma_header_shape(epoch);
    lemma_auto_spec_u32_to_from_le_bytes();
    lemma_auto_spec_u64_to_from_le_bytes();
    let end = (18 + frames_bytes(rs).len()) as int;
    assert(b.subrange(18, end) =~= frames_bytes(rs));
    lemma_scan_over(b, 18, epoch, None, rs);
    let prev = prev_after(None, rs);
    let n = 24 + r.payload.len();
    assert(f.len() == n);
    assert(b.subrange(end, end + 4) =~= spec_u32_to_le_bytes(n as u32));
    assert(b.subrange(end + 4, end + 8) =~= spec_u32_to_le_bytes(crc));
    assert(b.subrange(end + 8, end + 16) =~= spec_u64_to_le_bytes(r.seq));
    assert(b.subrange(end + 16, end + 24) =~= spec_u64_to_le_bytes(r.epoch));
    assert(frame_len(b, end) == n);
    assert(b.subrange(end + 24, end + n) =~= r.payload);
    assert(frame_at(b, end) == r);
    if acceptable(b, end, epoch, prev) {
        assert(scan_from(b, end + n, epoch, Some(r.seq)) =~= Seq::empty());
        assert(scan_from(b, end, epoch, prev) =~= seq![r]);
        assert(rs + seq![r] =~= rs.push(r));
    } else {
        assert(rs + Seq::<RecordView>::empty() =~= rs);
    }
}

/// Only a header that was written is accepted: four magic bytes, the version, the
/// epoch and the checksum of these.
pub proof fn only_written_headers_are_accepted(b: Seq<u8>, epoch: u64)
    requires
        header_reading(b) == WalResult::<u64>::Ok(epoch),
    ensures
        b.len() >= 18,
        b.take(18) == header_bytes(epoch),
        b[0] == 0x52 && b[1] == 0x4B && b[2] == 0x57 && b[3] == 0x31,
        b.subrange(4, 6) == spec_u16_to_le_bytes(1),
        b.subrange(6, 14) == spec_u64_to_le_bytes(epoch),
        bytes::u32_at(b, 14) == bytes::crc32(b.take(14)),
{
    lemma_header_shape(epoch);
    lemma_auto_spec_u16_to_from_le_bytes();
    lemma_auto_spec_u32_to_from_le_bytes();
    lemma_auto_spec_u64_to_from_le_bytes();
    assert(b.take(4) == magic());
    assert(b[0] == b.take(4)[0] && b[1] == b.take(4)[1] && b[2] == b.take(4)[2] && b[3] == b.take(4)[3]);
    assert(spec_u16_to_le_bytes(spec_u16_from_le_bytes(b.subrange(4, 6))) == b.subrange(4, 6));
    assert(spec_u64_to_le_bytes(spec_u64_from_le_bytes(b.subrange(6, 14))) == b.subrange(6, 14));
    assert(spec_u32_to_le_bytes(spec_u32_from_le_bytes(b.subrange(14, 18))) == b.subrange(14, 18));
    assert(b.take(14) =~= b.take(4) + b.subrange(4, 6) + b.subrange(6, 14));
    assert(b.take(14) =~= header_body(epoch));
    assert(b.take(18) =~= b.take(14) + b.subrange(14, 18));
}

/// Recovery keeps the records whose payloads decode, up to the first that does
/// not.
pub proof fn recovery_keeps_what_decodes(b: Seq<u8>, epoch: u64, decodable: nat)
    ensures
        recovered(b, epoch, decodable).len() <= decodable || recovered(b, epoch, decodable).len() == 0,
        recovered(b, epoch, decodable).len() <= scanned(b, epoch).len(),
        recovered(b, epoch, decodable).len() == decodable || recovered(b, epoch, decodable) == scanned(
            b,
            epoch,
        ),
        recovered(b, epoch, decodable).is_prefix_of(scanned(b, epoch)),
{
}

/// A fresh log counts from 1, or from where it is told to go on.
pub proof fn fresh_logs_start_where_told(epoch: u64, options: WalOptions)
    ensures
        options.start_seq is None ==> position(epoch, Seq::empty(), options).last_seq == 0,
        options.start_seq matches Some(n) ==> (n > 0 ==> position(epoch, Seq::empty(), options).last_seq + 1
            == n),
        position(epoch, Seq::empty(), options).len == 0,
        position(epoch, Seq::empty(), options).file_len == 18,
{
}

/// The last number of records is that of the last one.
pub proof fn the_last_record_has_the_last_number(rs: Seq<RecordView>, r: RecordView)
    ensures
        last_seq_of(rs.push(r)) == r.seq,
        last_seq_of(Seq::empty()) == 0,
{
}

/// A reading that reaches a record that must not be there is refused with the
/// reason: a record of an older epoch than the log's, one whose number does not
/// grow, or one whose payload is damaged.
pub proof fn damaged_ranges_are_refused(
    epoch: u64,
    rs: Seq<RecordView>,
    r: RecordView,
    crc: u32,
    from: u64,
    to: u64,
)
    requires
        well_kept(epoch, rs),
        24 + r.payload.len() <= u32::MAX,
        from <= to,
        rs.len() > 0 ==> rs.last().seq <= to,
    ensures
        ({
            let got = range_reading(log_image(epoch, rs) + stamped_frame(r, crc), epoch, from, to);
            let grows = rs.len() > 0 ==> rs.last().seq < r.seq;
            &&& r.epoch < epoch ==> got == WalResult::<Seq<RecordView>>::Err(
                WalError::Corrupt(Corruption::FencedRecord { record: r.epoch, file: epoch }),
            )
            &&& r.epoch >= epoch && !grows ==> got == WalResult::<Seq<RecordView>>::Err(
                WalError::Corrupt(Corruption::NonMonotonicSeq),
            )
            &&& r.epoch >= epoch && grows && crc != bytes::crc32(r.payload) ==> got == WalResult::<
                Seq<RecordView>,
            >::Err(WalError::Corrupt(Corruption::RecordChecksum(r.seq)))
        }),
{
    let f = stamped_frame(r, crc);
    let b = log_image(epoch, rs) + f;
    lemma_header_shape(epoch);
    lemma_auto_spec_u32_to_from_le_bytes();
    lemma_auto_spec_u64_to_from_le_bytes();
    let end = (18 + frames_bytes(rs).len()) as int;
    assert(b.subrange(18, end) =~= frames_bytes(rs));
    let prev = prev_after(None, rs);
    let n = 24 + r.payload.len();
    assert(f.len() == n);
    assert(b.subrange(end, end + 4) =~= spec_u32_to_le_bytes(n as u32));
    assert(b.subrange(end + 4, end + 8) =~= spec_u32_to_le_bytes(crc));
    assert(b.subrange(end + 8, end + 16) =~= spec_u64_to_le_bytes(r.seq));
    assert(b.subrange(end + 16, end + 24) =~= spec_u64_to_le_bytes(r.epoch));
    assert(frame_len(b, end) == n);
    assert(b.subrange(end + 24, end + n) =~= r.payload);
    assert(frame_at(b, end) == r);
    assert forall|i: int| 0 <= i < rs.len() implies (#[trigger] rs[i]).seq <= to by {
        if i < rs.len() - 1 {
            assert(rs[i].seq < rs[rs.len() - 1].seq);
        }
    }
    if let Err(e) = read_from(b, end, epoch, prev, from, to) {
        lemma_read_on(b, 18, epoch, None, rs, from, to, e);
    }
}

/// A reading that fails behind good records fails.
proof fn lemma_read_on(
    b: Seq<u8>,
    o: int,
    epoch: u64,
    prev: Option<u64>,
    rs: Seq<RecordView>,
    from: u64,
    to: u64,
    e: WalError,
)
    requires
        0 <= o,
        o + frames_bytes(rs).len() <= b.len(),
        b.subrange(o, o + frames_bytes(rs).len()) == frames_bytes(rs),
        continues(epoch, prev, rs),
        forall|i: int| 0 <= i < rs.len() ==> (#[trigger] rs[i]).seq <= to,
        read_from(b, o + frames_bytes(rs).len(), epoch, prev_after(prev, rs), from, to) == WalResult::<
            Seq<RecordView>,
        >::Err(e),
    ensures
        read_from(b, o, epoch, prev, from, to) == WalResult::<Seq<RecordView>>::Err(e),
    decreases rs.len(),
{
    if rs.len() == 0 {
        assert(frames_bytes(rs).len() == 0);
    } else {
        lemma_frames_split_first(rs);
        let r = rs[0];
        let rest = rs.skip(1);
        let n = frame_bytes(r).len() as int;
        let whole = b.subrange(o, o + frames_bytes(rs).len());
        lemma_frame_shape(r);
        assert(frames_bytes(rs).len() == n + frames_bytes(rest).len());
        assert(b.subrange(o, o + n) =~= frame_bytes(r)) by {
            assert forall|i: int| 0 <= i < n implies b.subrange(o, o + n)[i] == frame_bytes(r)[i] by {
                assert(whole[i] == b[o + i]);
                assert(frames_bytes(rs)[i] == frame_bytes(r)[i]);
            }
        }
        lemma_frame_read_back(b, o, r);
        let o2 = o + n;
        assert(b.subrange(o2, o2 + frames_bytes(rest).len()) =~= frames_bytes(rest)) by {
            assert forall|i: int| 0 <= i < frames_bytes(rest).len() implies b.subrange(
                o2,
                o2 + frames_bytes(rest).len(),
            )[i] == frames_bytes(rest)[i] by {
                assert(whole[n + i] == b[o2 + i]);
                assert(frames_bytes(rs)[n + i] == frames_bytes(rest)[i]);
            }
        }
        assert forall|i: int| #![trigger rest[i]] 0 <= i < rest.len() implies rest[i].epoch >= epoch && 24
            + rest[i].payload.len() <= u32::MAX && rest[i].seq <= to by {
            assert(rest[i] == rs[i + 1]);
        }
        assert(continues(epoch, Some(r.seq), rest));
        assert(prev_after(prev, rs) == prev_after(Some(r.seq), rest));
        lemma_read_on(b, o2, epoch, Some(r.seq), rest, from, to, e);
        assert(acceptable(b, o, epoch, prev));
        assert(rs[0].seq <= to);
    }
}

} // verus!
