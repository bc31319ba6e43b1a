use rekha::op::Operation;
use rekha::tags::Epoch;
use rekha::wal::{
    build_header, read_and_verify_header, scan, Appended, Corruption, Wal, WalError, WalOptions,
    HEADER_LEN, RECORD_HEADER_LEN,
};

type Plain = (String, String, Vec<u32>, Option<String>);

fn bits(v: &[f32]) -> Vec<u32> {
    v.iter().map(|x| x.to_bits()).collect()
}

fn plain(op: &Operation) -> Plain {
    let (e, d) = match op {
        Operation::Add { embedding, document, .. } | Operation::Upsert { embedding, document, .. } => {
            (embedding.clone(), document.clone())
        }
        Operation::Update { document, .. } => (Vec::new(), document.clone()),
        Operation::Delete { .. } => (Vec::new(), None),
    };
    (op.kind().to_string(), op.id().to_string(), e, d)
}

fn encode(op: &Operation) -> Vec<u8> {
    bincode::serialize(&plain(op)).unwrap()
}

fn decode(payload: &[u8]) -> Option<Plain> {
    bincode::deserialize(payload).ok()
}

/// A log together with the bytes of its file.
struct Log {
    wal: Wal,
    image: Vec<u8>,
}

struct Read {
    seq: u64,
    epoch: u64,
    op: Plain,
}

fn decodable(image: &[u8], epoch: u64) -> usize {
    scan(image, epoch)
        .iter()
        .take_while(|r| decode(&r.payload).is_some())
        .count()
}

impl Log {
    fn open(image: Vec<u8>, epoch: u64, options: WalOptions) -> Result<Log, WalError> {
        if image.is_empty() {
            let wal = Wal::open(&image, 0, Epoch(epoch), options)?;
            return Ok(Log { wal, image: build_header(epoch) });
        }
        let found = read_and_verify_header(&image)?;
        let n = decodable(&image, found);
        let wal = Wal::open(&image, n, Epoch(epoch), options)?;
        let mut image = image;
        image.truncate(wal.size_bytes() as usize);
        Ok(Log { wal, image })
    }

    fn fresh(epoch: u64, fsync: bool) -> Log {
        Log::open(Vec::new(), epoch, WalOptions::new(fsync)).unwrap()
    }

    fn append(&mut self, op: Operation) -> Result<Appended, WalError> {
        let a = self.wal.append(&encode(&op))?;
        assert_eq!(a.offset, self.image.len() as u64);
        self.image.extend_from_slice(&a.bytes);
        Ok(a)
    }

    fn read_range(&self, from: u64, to: u64) -> Result<Vec<Read>, WalError> {
        let records = self.wal.read_range(&self.image, from, to)?;
        Ok(records
            .iter()
            .map(|r| Read {
                seq: r.seq,
                epoch: r.epoch,
                op: decode(&r.payload).unwrap(),
            })
            .collect())
    }

    fn prune(&mut self, upto: u64) -> Result<(), WalError> {
        let image = self.wal.prune(&self.image, upto)?;
        let n = decodable(&image, self.wal.epoch());
        self.wal.reposition(&image, n);
        self.image = image;
        Ok(())
    }

    fn last_seq(&self) -> u64 {
        self.wal.last_seq()
    }

    fn len(&self) -> u64 {
        self.wal.len()
    }

    fn epoch(&self) -> u64 {
        self.wal.epoch()
    }

    fn size_bytes(&self) -> u64 {
        assert_eq!(self.wal.size_bytes(), self.image.len() as u64);
        self.wal.size_bytes()
    }
}

fn add(id: &str) -> Operation {
    Operation::Add {
        id: id.into(),
        embedding: bits(&[1.0, 2.0, 3.0]),
        metadata: None,
        document: None,
    }
}

fn update(id: &str) -> Operation {
    Operation::Update {
        id: id.into(),
        metadata: None,
        document: Some("doc".into()),
    }
}

fn delete(id: &str) -> Operation {
    Operation::Delete { id: id.into() }
}

fn upsert(id: &str) -> Operation {
    Operation::Upsert {
        id: id.into(),
        embedding: bits(&[4.0, 5.0]),
        metadata: None,
        document: None,
    }
}

#[test]
fn append_and_replay() {
    let opts = WalOptions::new(false);
    let mut wal = Log::open(Vec::new(), 1, opts).unwrap();
    let ops = vec![add("a"), update("a"), delete("b"), upsert("c")];
    let plains: Vec<Plain> = ops.iter().map(plain).collect();
    for op in ops {
        wal.append(op).unwrap();
    }
    assert_eq!(wal.last_seq(), 4);
    assert_eq!(wal.len(), 4);

    let wal = Log::open(wal.image, 1, opts).unwrap();
    assert_eq!(wal.last_seq(), 4);
    assert_eq!(wal.len(), 4);
    assert_eq!(wal.epoch(), 1);

    let recs = wal.read_range(1, 4).unwrap();
    assert_eq!(recs.len(), 4);
    for (i, (rec, op)) in recs.iter().zip(&plains).enumerate() {
        assert_eq!(rec.op, *op);
        assert_eq!(rec.epoch, 1);
        assert_eq!(rec.seq, i as u64 + 1);
    }
    // Reading past the end is bounded by the log contents.
    assert_eq!(wal.read_range(1, 100).unwrap().len(), 4);
}

#[test]
fn fsync_and_no_fsync_paths() {
    for fsync in [true, false] {
        let opts = WalOptions::new(fsync);
        let mut wal = Log::open(Vec::new(), 1, opts).unwrap();
        wal.append(add("x")).unwrap();
        wal.append(update("x")).unwrap();

        let wal = Log::open(wal.image, 1, opts).unwrap();
        assert_eq!(wal.len(), 2);
        assert_eq!(wal.last_seq(), 2);
        assert_eq!(wal.read_range(1, 2).unwrap().len(), 2);
    }
}

#[test]
fn torn_tail_recovery() {
    let mut wal = Log::fresh(1, true);
    // Track boundaries so we know where record 4 lives.
    wal.append(add("1")).unwrap();
    wal.append(add("2")).unwrap();
    wal.append(add("3")).unwrap();
    let off3 = wal.size_bytes(); // end of record 3 == start of record 4
    wal.append(add("4")).unwrap();
    let off4 = wal.size_bytes(); // end of record 4 == start of record 5
    wal.append(add("5")).unwrap();

    // Truncate mid-record-4 (record 4 spans [off3, off4)).
    let mid4 = off3 + (off4 - off3) / 2;
    let mut image = wal.image;
    image.truncate(mid4 as usize);

    let mut wal = Log::open(image, 1, WalOptions::new(true)).unwrap();
    assert_eq!(wal.len(), 3);
    assert_eq!(wal.last_seq(), 3);
    assert_eq!(wal.epoch(), 1);
    // File was re-truncated cleanly to the end of record 3.
    assert_eq!(wal.size_bytes(), off3);

    let recs = wal.read_range(1, 3).unwrap();
    assert_eq!(recs.len(), 3);
    assert_eq!(recs[0].seq, 1);
    assert_eq!(recs[1].seq, 2);
    assert_eq!(recs[2].seq, 3);

    // Appends continue at seq 4.
    let r = wal.append(delete("after")).unwrap();
    assert_eq!(r.seq, 4);
    assert_eq!(wal.len(), 4);
    assert_eq!(wal.last_seq(), 4);
}

#[test]
fn corrupt_middle_discards_tail() {
    let mut wal = Log::fresh(1, true);
    wal.append(add("1")).unwrap();
    let off1 = wal.size_bytes();
    wal.append(add("2")).unwrap();
    let off2 = wal.size_bytes();
    wal.append(add("3")).unwrap();
    let off3 = wal.size_bytes();
    wal.append(add("4")).unwrap();
    let off4 = wal.size_bytes();
    wal.append(add("5")).unwrap();
    assert!(off2 > off1 + 24 && off3 > off2 && off4 > off3);

    // Flip one payload byte of record 2 (payload starts at off1+24).
    let mut image = wal.image;
    image[off1 as usize + 24] ^= 0xFF;

    let wal = Log::open(image, 1, WalOptions::new(true)).unwrap();
    assert_eq!(wal.len(), 1);
    assert_eq!(wal.last_seq(), 1);
    assert_eq!(wal.size_bytes(), off1);
    let recs = wal.read_range(1, 100).unwrap();
    assert_eq!(recs.len(), 1);
    assert_eq!(recs[0].seq, 1);
}

#[test]
fn header_corruption_errors() {
    let mut wal = Log::fresh(1, true);
    wal.append(add("x")).unwrap();

    // Corrupt the magic bytes.
    let mut image = wal.image;
    image[..4].copy_from_slice(b"XXXX");

    let result = Log::open(image, 1, WalOptions::new(true));
    match result {
        Err(WalError::Corrupt(_)) => {}
        Ok(_) => panic!("expected Corrupt"),
    }
}

#[test]
fn fenced_record_discarded_on_replay() {
    let mut wal = Log::fresh(5, true);
    wal.append(add("1")).unwrap();
    wal.append(add("2")).unwrap();

    // Craft a raw record with a VALID CRC but a fenced epoch (0 < file 5).
    let mut image = wal.image;
    let payload = encode(&delete("fenced"));
    let record_len = (RECORD_HEADER_LEN as u32) + payload.len() as u32;
    image.extend_from_slice(&record_len.to_le_bytes());
    image.extend_from_slice(&crc32fast::hash(&payload).to_le_bytes());
    image.extend_from_slice(&3u64.to_le_bytes());
    image.extend_from_slice(&0u64.to_le_bytes());
    image.extend_from_slice(&payload);

    // Reopen at the file's epoch: the fenced record is a corrupt tail.
    let mut wal = Log::open(image, 5, WalOptions::new(true)).unwrap();
    assert_eq!(wal.epoch(), 5);
    assert_eq!(wal.len(), 2);
    assert_eq!(wal.last_seq(), 2);

    // Appends continue cleanly at seq 3, stamped with the file epoch.
    let r = wal.append(upsert("after")).unwrap();
    assert_eq!(r.seq, 3);
    assert_eq!(r.epoch, 5);
    assert_eq!(wal.len(), 3);
}

#[test]
fn prune_keeps_only_records_above_watermark() {
    let mut wal = Log::fresh(1, true);
    for i in 0..5 {
        wal.append(add(&format!("r{i}"))).unwrap();
    }
    assert_eq!(wal.len(), 5);

    wal.prune(3).unwrap();
    assert_eq!(wal.len(), 2);
    assert_eq!(wal.last_seq(), 5);

    let recs = wal.read_range(1, 5).unwrap();
    assert_eq!(recs.len(), 2);
    assert_eq!(recs[0].seq, 4);
    assert_eq!(recs[1].seq, 5);
}

#[test]
fn prune_persists_across_reopen() {
    let mut wal = Log::fresh(1, true);
    for i in 0..5 {
        wal.append(add(&format!("r{i}"))).unwrap();
    }
    wal.prune(3).unwrap();

    let wal = Log::open(wal.image, 1, WalOptions::new(true)).unwrap();
    assert_eq!(wal.len(), 2);
    assert_eq!(wal.last_seq(), 5);
    let recs = wal.read_range(1, 100).unwrap();
    assert_eq!(recs.len(), 2);
    assert_eq!(recs[0].seq, 4);
    assert_eq!(recs[1].seq, 5);

    // Appends continue at seq 6.
    let mut wal = wal;
    let r = wal.append(delete("x")).unwrap();
    assert_eq!(r.seq, 6);
    assert_eq!(wal.len(), 3);
    assert_eq!(wal.last_seq(), 6);
}

#[test]
fn prune_to_empty_restarts_seq() {
    let mut wal = Log::fresh(1, true);
    wal.append(add("1")).unwrap();
    wal.append(add("2")).unwrap();
    wal.append(add("3")).unwrap();
    wal.prune(3).unwrap(); // keep seq > 3 → nothing

    assert_eq!(wal.len(), 0);
    assert_eq!(wal.last_seq(), 0);
    assert_eq!(wal.size_bytes(), HEADER_LEN as u64);

    let r = wal.append(add("fresh")).unwrap();
    assert_eq!(r.seq, 1);
    assert_eq!(wal.len(), 1);
}

/// A log that is pruned and opened again where it stood goes on counting.
#[test]
fn pruned_logs_go_on() {
    for keep_from in 0..5u64 {
        let mut wal = Log::fresh(1, true);
        for id in ["1", "2", "3"] {
            wal.append(add(id)).unwrap();
        }
        let next = wal.last_seq() + 1;
        wal.prune(keep_from).unwrap();
        let options = WalOptions { fsync: true, start_seq: Some(next) };
        let mut wal = Log::open(wal.image, 1, options).unwrap();
        assert_eq!(wal.last_seq(), 3);
        assert_eq!(wal.len(), 3u64.saturating_sub(keep_from));
        let kept: Vec<u64> = wal.read_range(0, u64::MAX).unwrap().iter().map(|r| r.seq).collect();
        let wanted: Vec<u64> = (1..4).filter(|n| *n > keep_from).collect();
        assert_eq!(kept, wanted);
        assert_eq!(wal.append(add("4")).unwrap().seq, 4);
    }
}

#[test]
fn empty_file_opens_and_appends() {
    let mut wal = Log::fresh(1, true);
    assert_eq!(wal.len(), 0);
    assert_eq!(wal.last_seq(), 0);
    assert_eq!(wal.epoch(), 1);
    assert_eq!(wal.read_range(1, 1).unwrap().len(), 0);

    let r = wal.append(add("first")).unwrap();
    assert_eq!(r.seq, 1);
    assert_eq!(wal.len(), 1);
    assert_eq!(wal.last_seq(), 1);
}

#[test]
fn read_range_out_of_order_is_empty() {
    let mut wal = Log::fresh(1, true);
    wal.append(add("1")).unwrap();
    assert!(wal.read_range(2, 1).unwrap().is_empty());
}

#[test]
fn large_payload_roundtrips() {
    let mut wal = Log::fresh(1, true);
    let big: Vec<f32> = (0..100_000).map(|i| i as f32 / 1000.0).collect();
    let op = Operation::Add {
        id: "big".into(),
        embedding: bits(&big),
        metadata: None,
        document: None,
    };
    let want = plain(&op);
    let rec = wal.append(op).unwrap();
    assert_eq!(rec.seq, 1);
    assert!(wal.size_bytes() > 400_000);

    let wal = Log::open(wal.image, 1, WalOptions::new(true)).unwrap();
    let recs = wal.read_range(1, 1).unwrap();
    assert_eq!(recs.len(), 1);
    assert_eq!(recs[0].op, want);
    assert_eq!(recs[0].seq, 1);
}

#[test]
fn start_seq_on_fresh_file_seeds_next_append() {
    let opts = WalOptions {
        fsync: true,
        start_seq: Some(501),
    };
    let mut wal = Log::open(Vec::new(), 1, opts).unwrap();
    assert_eq!(wal.len(), 0);
    // The resume position is start_seq - 1: the next append lands on 501.
    assert_eq!(wal.last_seq(), 500);

    let r1 = wal.append(add("a")).unwrap();
    assert_eq!(r1.seq, 501);
    let r2 = wal.append(add("b")).unwrap();
    assert_eq!(r2.seq, 502);
    assert_eq!(wal.last_seq(), 502);

    // A reopen of a non-empty file ignores start_seq (file position wins).
    let mut wal = Log::open(wal.image, 1, opts).unwrap();
    assert_eq!(wal.len(), 2);
    assert_eq!(wal.last_seq(), 502);
    let r3 = wal.append(add("c")).unwrap();
    assert_eq!(r3.seq, 503);
}

#[test]
fn start_seq_ignored_when_file_has_records() {
    let mut wal = Log::fresh(1, true);
    for i in 0..3 {
        wal.append(add(&format!("r{i}"))).unwrap();
    }
    assert_eq!(wal.last_seq(), 3);

    // start_seq = Some(1000) must be ignored: records already exist.
    let opts = WalOptions {
        fsync: true,
        start_seq: Some(1000),
    };
    let mut wal = Log::open(wal.image, 1, opts).unwrap();
    assert_eq!(wal.last_seq(), 3);
    let r = wal.append(add("after")).unwrap();
    assert_eq!(r.seq, 4);
}

#[test]
fn the_file_format_is_fixed() {
    let mut wal = Log::fresh(7, true);
    wal.wal.append(b"abc").map(|a| wal.image.extend_from_slice(&a.bytes)).unwrap();
    let mut want: Vec<u8> = b"RKW1".to_vec();
    want.extend_from_slice(&1u16.to_le_bytes());
    want.extend_from_slice(&7u64.to_le_bytes());
    let check = crc32fast::hash(&want);
    want.extend_from_slice(&check.to_le_bytes());
    assert_eq!(want.len(), HEADER_LEN);
    assert_eq!(build_header(7), want);
    want.extend_from_slice(&27u32.to_le_bytes());
    want.extend_from_slice(&crc32fast::hash(b"abc").to_le_bytes());
    want.extend_from_slice(&1u64.to_le_bytes());
    want.extend_from_slice(&7u64.to_le_bytes());
    want.extend_from_slice(b"abc");
    assert_eq!(wal.image, want);
}

#[test]
fn damaged_headers_are_told_apart() {
    let good = build_header(3);
    assert_eq!(read_and_verify_header(&good), Ok(3));
    let of = |image: &[u8]| match read_and_verify_header(image) {
        Err(WalError::Corrupt(c)) => c,
        Ok(_) => panic!("expected an error"),
    };
    assert_eq!(of(&good[..10]), Corruption::TruncatedHeader);
    let mut bad = good.clone();
    bad[0] = b'X';
    assert_eq!(of(&bad), Corruption::BadMagic(b'X', good[1], good[2], good[3]));
    let mut bad = good.clone();
    bad[4] = 9;
    assert_eq!(of(&bad), Corruption::UnsupportedVersion(9));
    let mut bad = good.clone();
    bad[17] ^= 1;
    assert_eq!(of(&bad), Corruption::HeaderChecksum);
}

#[test]
fn damaged_records_are_told_apart() {
    let mut wal = Log::fresh(5, true);
    wal.append(add("1")).unwrap();
    let first = wal.size_bytes() as usize;
    wal.append(add("2")).unwrap();
    let of = |image: &[u8]| match wal.wal.read_range(image, 1, 9) {
        Err(WalError::Corrupt(c)) => c,
        Ok(_) => panic!("expected an error"),
    };
    let mut bad = wal.image.clone();
    bad[HEADER_LEN..HEADER_LEN + 4].copy_from_slice(&u32::MAX.to_le_bytes());
    assert_eq!(of(&bad), Corruption::OutOfBounds(HEADER_LEN as u64));
    match wal.wal.prune(&bad, 1) {
        Err(WalError::Corrupt(c)) => {
            assert_eq!(c, Corruption::OutOfBoundsInPrune(HEADER_LEN as u64));
            assert_eq!(c.message(), "record at offset 18 is out of bounds during prune");
        }
        Ok(_) => panic!("expected an error"),
    }
    let mut bad = wal.image.clone();
    bad[first + 16..first + 24].copy_from_slice(&4u64.to_le_bytes());
    assert_eq!(of(&bad), Corruption::FencedRecord { record: 4, file: 5 });
    let mut bad = wal.image.clone();
    bad[first + 8..first + 16].copy_from_slice(&1u64.to_le_bytes());
    assert_eq!(of(&bad), Corruption::NonMonotonicSeq);
    let mut bad = wal.image.clone();
    bad[first + 24] ^= 0xff;
    assert_eq!(of(&bad), Corruption::RecordChecksum(2));
    assert_eq!(WalError::Corrupt(of(&bad)).message(), format!("invalid WAL file: {}", of(&bad).message()));
}
