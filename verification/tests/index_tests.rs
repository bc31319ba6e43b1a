use rekha::index::{capacity_to_reserve, IndexError, IndexHit, IndexMeta, LabelMap};
use rekha::num::F32;
use rekha::types::Distance;

/// The labels of an index over a graph that is searched exhaustively.
struct ExactIndex {
    labels: LabelMap,
    graph: Vec<(u64, Vec<f32>)>,
}

impl ExactIndex {
    fn new(space: Distance, dimension: usize) -> ExactIndex {
        ExactIndex { labels: LabelMap::new(space, dimension), graph: Vec::new() }
    }

    fn add(&mut self, id: &str, v: &[f32]) -> Result<(), IndexError> {
        let label = self.labels.add(id, v.len())?;
        self.graph.push((label, v.to_vec()));
        Ok(())
    }

    fn delete(&mut self, id: &str) {
        if let Some(label) = self.labels.delete(id) {
            self.graph.retain(|(l, _)| *l != label);
        }
    }

    fn search(&self, q: &[f32], k: usize) -> Result<Vec<IndexHit>, IndexError> {
        self.labels.check_query(q.len())?;
        let mut all: Vec<(u64, f32)> = self
            .graph
            .iter()
            .map(|(l, v)| (*l, q.iter().zip(v).map(|(a, b)| (a - b) * (a - b)).sum()))
            .collect();
        all.sort_by(|a, b| a.1.total_cmp(&b.1));
        let hits = all.into_iter().take(k).map(|(l, d)| (l, F32 { bits: d.to_bits() })).collect();
        Ok(self.labels.resolve(&hits))
    }

    fn load(&self, meta: &IndexMeta, space: Distance, dimension: usize) -> Result<ExactIndex, IndexError> {
        let labels = LabelMap::restore(meta, space, dimension, self.graph.len())?;
        Ok(ExactIndex { labels, graph: self.graph.clone() })
    }
}

/// xorshift64: deterministic.
fn xorshift(state: &mut u64) -> u64 {
    let mut x = *state;
    x ^= x << 13;
    x ^= x >> 7;
    x ^= x << 17;
    *state = x;
    x
}

fn rand_embedding(state: &mut u64, dim: usize) -> Vec<f32> {
    (0..dim).map(|_| (xorshift(state) >> 40) as f32 / (1u64 << 24) as f32).collect()
}

#[test]
fn add_search_delete_lifecycle() {
    let mut index = ExactIndex::new(Distance::L2, 4);
    let a = [0.1, 0.2, 0.3, 0.4];
    let b = [0.9, 0.8, 0.7, 0.6];
    let c = [0.5, 0.5, 0.5, 0.5];
    index.add("a", &a).unwrap();
    index.add("b", &b).unwrap();
    index.add("c", &c).unwrap();
    assert_eq!(index.labels.len(), 3);
    assert!(index.labels.contains("a"));

    let hits = index.search(&b, 3).unwrap();
    assert_eq!(hits.len(), 3);
    assert_eq!(hits[0].id, "b", "a point is its own nearest neighbor");

    index.delete("a");
    assert_eq!(index.labels.len(), 2);
    assert!(!index.labels.contains("a"));
    let hits = index.search(&a, 3).unwrap();
    assert!(hits.iter().all(|h| h.id != "a"), "deleted id must not be returned");

    index.delete("a");
    assert_eq!(index.labels.len(), 2, "delete of an absent id is idempotent");
}

#[test]
fn duplicate_id_rejected_and_readd_after_delete() {
    let mut index = ExactIndex::new(Distance::L2, 4);
    let v = [1.0, 2.0, 3.0, 4.0];
    index.add("dup", &v).unwrap();
    let e = index.add("dup", &v).unwrap_err();
    assert!(matches!(&e, IndexError::DuplicateId(s) if s == "dup"));
    assert_eq!(e.message(), "id `dup` already exists (use upsert/delete first)");
    index.delete("dup");
    index.add("dup", &v).unwrap();
    assert!(index.labels.contains("dup"));
    assert_eq!(index.labels.len(), 1);
}

#[test]
fn dimension_mismatch_rejected() {
    let mut index = ExactIndex::new(Distance::L2, 4);
    let e = index.add("x", &[1.0, 2.0]).unwrap_err();
    assert!(matches!(e, IndexError::DimensionMismatch { index: 4, got: 2 }));
    assert_eq!(e.message(), "dimension mismatch: index is 4, got 2");
    assert_eq!(index.labels.len(), 0);
    assert!(matches!(
        index.search(&[1.0], 1),
        Err(IndexError::DimensionMismatch { index: 4, got: 1 })
    ));
}

#[test]
fn empty_index_search_is_empty() {
    let index = ExactIndex::new(Distance::L2, 8);
    assert_eq!(index.labels.len(), 0);
    assert!(index.search(&[0.0; 8], 10).unwrap().is_empty());
}

#[test]
fn save_load_roundtrip_preserves_maps_and_search() {
    let dim = 16;
    let mut rng = 0xDEAD_BEEF_CAFE_F00Du64;
    let mut index = ExactIndex::new(Distance::L2, dim);
    for i in 0..100 {
        index.add(&format!("s{i:03}"), &rand_embedding(&mut rng, dim)).unwrap();
    }
    let query = rand_embedding(&mut rng, dim);
    let ids = |hits: Vec<IndexHit>| -> Vec<String> { hits.into_iter().map(|h| h.id).collect() };
    let before = ids(index.search(&query, 10).unwrap());
    assert_eq!(before.len(), 10);

    let mut loaded = index.load(&index.labels.to_meta(), Distance::L2, dim).unwrap();
    assert_eq!(loaded.labels.len(), 100);
    assert_eq!(loaded.labels.dimension(), dim);
    assert_eq!(loaded.labels.space(), Distance::L2);
    for i in 0..100 {
        assert!(loaded.labels.contains(&format!("s{i:03}")));
    }
    assert_eq!(ids(loaded.search(&query, 10).unwrap()), before);

    loaded.add("newbie", &rand_embedding(&mut rng, dim)).unwrap();
    assert!(loaded.labels.contains("newbie"));
    loaded.delete("s000");
    assert!(!loaded.labels.contains("s000"));
    assert_eq!(loaded.labels.len(), 100);

    // A fresh id gets a label above everything that was restored.
    assert_eq!(loaded.labels.next_label(), 101);
    loaded.add("fresh", &rand_embedding(&mut rng, dim)).unwrap();
    assert!(loaded.labels.contains("fresh"));
}

#[test]
fn save_load_preserves_ids_after_delete() {
    let dim = 8;
    let mut rng = 0x1234_5678_9ABC_DEF0u64;
    let mut index = ExactIndex::new(Distance::L2, dim);
    for i in 0..10 {
        index.add(&format!("d{i}"), &rand_embedding(&mut rng, dim)).unwrap();
    }
    index.delete("d3");
    index.delete("d7");
    assert_eq!(index.labels.len(), 8);

    let loaded = index.load(&index.labels.to_meta(), Distance::L2, dim).unwrap();
    assert_eq!(loaded.labels.len(), 8);
    assert!(!loaded.labels.contains("d3"));
    assert!(!loaded.labels.contains("d7"));
    for i in [0, 1, 2, 4, 5, 6, 8, 9] {
        assert!(loaded.labels.contains(&format!("d{i}")));
    }
}

#[test]
fn load_with_wrong_dimension_errors() {
    let mut index = ExactIndex::new(Distance::L2, 8);
    index.add("a", &rand_embedding(&mut 7u64, 8)).unwrap();
    let meta = index.labels.to_meta();
    let refused = |space, dim| match index.load(&meta, space, dim) {
        Ok(_) => panic!("expected a refusal"),
        Err(e) => e.message(),
    };
    assert_eq!(
        refused(Distance::L2, 16),
        "corrupt index file: dimension mismatch: meta says 8, expected 16"
    );
    assert_eq!(
        refused(Distance::Cosine, 8),
        "corrupt index file: space mismatch: meta says `l2`, expected `cosine`"
    );
}

#[test]
fn labels_that_do_not_fit_are_refused() {
    let mut index = ExactIndex::new(Distance::L2, 1);
    index.add("a", &[0.0]).unwrap();
    index.add("b", &[1.0]).unwrap();
    let mut meta = index.labels.to_meta();
    let e = LabelMap::restore(&meta, Distance::L2, 1, 3).err().unwrap();
    assert_eq!(
        e.message(),
        "corrupt index file: label count mismatch: 2 labels but the graph holds 3 vectors"
    );
    meta.labels[1].1 = meta.labels[0].1;
    assert!(matches!(
        LabelMap::restore(&meta, Distance::L2, 1, 2),
        Err(IndexError::LabelsInconsistent)
    ));
}

#[test]
fn labels_are_not_reused() {
    let mut index = ExactIndex::new(Distance::L2, 1);
    index.add("a", &[0.0]).unwrap();
    index.delete("a");
    index.add("a", &[0.0]).unwrap();
    assert_eq!(index.graph[0].0, 1);
    // A label that belongs to no record is left out of the hits.
    index.graph.push((0, vec![0.0]));
    assert_eq!(index.search(&[0.0], 5).unwrap().len(), 1);
}

#[test]
fn capacity_doubles_and_starts_at_64() {
    assert_eq!(capacity_to_reserve(0, 0), Some(64));
    assert_eq!(capacity_to_reserve(64, 64), Some(128));
    assert_eq!(capacity_to_reserve(200, 200), Some(400));
    assert_eq!(capacity_to_reserve(10, 64), None);
}
