use pero_core::errors::CoreError;
use pero_core::intent_engine::{IntentAnchor, IntentEngine};
use pero_core::vision_intent_memory::VisionIntentMemoryManager;

fn anchor(id: i64, vector: Vec<i32>, description: &str, importance: u32, tags: &str) -> IntentAnchor {
    IntentAnchor { id, vector, description: description.to_string(), importance, tags: tags.to_string() }
}

fn populated() -> IntentEngine {
    let mut engine = IntentEngine::new(3).unwrap();
    engine.add_anchor(anchor(-5, vec![1 << 30, 0, 0], "desk at night", 1 << 30, "work,night")).unwrap();
    engine.add_anchor(anchor(i64::MAX, vec![0, -(1 << 30), 0], "门口", 12345, "")).unwrap();
    engine.add_anchor(anchor(i64::MIN, vec![i32::MIN, i32::MAX, 7], "", 0, "t")).unwrap();
    engine.add_anchor(anchor(0, vec![644245094, 858993459, 0], "window", u32::MAX, "a,b")).unwrap();
    engine
}

#[test]
fn persisted_form_has_the_documented_layout() {
    let mut engine = IntentEngine::new(2).unwrap();
    engine.add_anchor(anchor(1, vec![0, -1], "é", 5, "")).unwrap();
    let bytes = engine.to_bytes();
    let mut expected: Vec<u8> = Vec::new();
    expected.extend_from_slice(&0x3158_4449_4f52_4550u64.to_le_bytes());
    expected.extend_from_slice(&2u64.to_le_bytes());
    expected.extend_from_slice(&1u64.to_le_bytes());
    expected.extend_from_slice(&0x8000_0000_0000_0001u64.to_le_bytes());
    expected.extend_from_slice(&5u32.to_le_bytes());
    expected.extend_from_slice(&0x8000_0000u32.to_le_bytes());
    expected.extend_from_slice(&0x7fff_ffffu32.to_le_bytes());
    expected.extend_from_slice(&2u64.to_le_bytes());
    expected.extend_from_slice("é".as_bytes());
    expected.extend_from_slice(&0u64.to_le_bytes());
    assert_eq!(bytes, expected);
    assert_eq!(&bytes[..8], b"PEROIDX1");
}

#[test]
fn save_then_load_gives_the_same_anchors_and_searches() {
    let engine = populated();
    let bytes = engine.to_bytes();
    let loaded = IntentEngine::from_bytes(&bytes, 3).unwrap();
    assert_eq!(loaded.size(), engine.size());
    assert_eq!(loaded.dimension(), 3);
    for i in 0..engine.size() {
        let (a, b) = (engine.anchor(i), loaded.anchor(i));
        assert_eq!(a.id, b.id);
        assert_eq!(a.vector, b.vector);
        assert_eq!(a.description, b.description);
        assert_eq!(a.importance, b.importance);
        assert_eq!(a.tags, b.tags);
    }
    let queries = [vec![1 << 30, 0, 0], vec![0, 1 << 30, 0], vec![-3, 4, 5], vec![0, 0, 0]];
    for q in queries.iter() {
        for k in 0..6 {
            let before: Vec<(i64, usize)> = engine.search(q, k).unwrap().iter().map(|m| (m.similarity, m.position)).collect();
            let after: Vec<(i64, usize)> = loaded.search(q, k).unwrap().iter().map(|m| (m.similarity, m.position)).collect();
            assert_eq!(before, after);
        }
    }
    assert_eq!(loaded.to_bytes(), bytes);
}

#[test]
fn an_empty_index_round_trips() {
    let engine = IntentEngine::new(384).unwrap();
    let bytes = engine.to_bytes();
    assert_eq!(bytes.len(), 24);
    let loaded = IntentEngine::from_bytes(&bytes, 384).unwrap();
    assert_eq!(loaded.size(), 0);
}

#[test]
fn malformed_bytes_are_refused() {
    let good = populated().to_bytes();
    let refused = |bytes: &Vec<u8>, dim: usize| match IntentEngine::from_bytes(bytes, dim) {
        Err(e) => e,
        Ok(_) => panic!("malformed bytes were accepted"),
    };
    // Another dimension than the one asked for.
    assert_eq!(refused(&good, 4), CoreError::IndexIOError);
    // A dimension that no index can have.
    assert_eq!(refused(&good, 0), CoreError::BadInputSize);
    assert_eq!(refused(&good, 1 << 20), CoreError::BadInputSize);
    // Cut short at every length.
    for n in 0..good.len() {
        assert_eq!(refused(&good[..n].to_vec(), 3), CoreError::IndexIOError);
    }
    // Bytes after the last record.
    let mut longer = good.clone();
    longer.push(0);
    assert_eq!(refused(&longer, 3), CoreError::IndexIOError);
    // A wrong magic number.
    let mut wrong = good.clone();
    wrong[0] ^= 1;
    assert_eq!(refused(&wrong, 3), CoreError::IndexIOError);
    // More records announced than there are.
    let mut more = good.clone();
    more[16] += 1;
    assert_eq!(refused(&more, 3), CoreError::IndexIOError);
    // A text that is not UTF-8.
    let mut engine = IntentEngine::new(1).unwrap();
    engine.add_anchor(anchor(1, vec![0], "ab", 0, "")).unwrap();
    let mut bad_text = engine.to_bytes();
    let at = bad_text.len() - 8 - 2;
    bad_text[at] = 0xff;
    assert_eq!(refused(&bad_text, 1), CoreError::IndexIOError);
    // An identifier that occurs twice.
    let one = engine.to_bytes();
    let mut twice = one.clone();
    twice.extend_from_slice(&one[24..]);
    twice[16] = 2;
    assert_eq!(refused(&twice, 1), CoreError::IndexIOError);
    // A text length beyond the end.
    let mut long_text = one.clone();
    let len_at = 24 + 8 + 4 + 4;
    long_text[len_at + 7] = 0xff;
    assert_eq!(refused(&long_text, 1), CoreError::IndexIOError);
}

#[test]
fn manager_saves_and_loads_its_anchors() {
    let mut source = VisionIntentMemoryManager::new(None, 3).unwrap();
    source.add_intent_anchor(1, vec![1, 2, 3], "one".to_string(), 9, "x").unwrap();
    source.add_intent_anchor(2, vec![4, 5, 6], "two".to_string(), 8, "y").unwrap();
    let bytes = source.save_anchors();
    let mut target = VisionIntentMemoryManager::new(None, 3).unwrap();
    target.add_intent_anchor(77, vec![0, 0, 0], "old".to_string(), 1, "").unwrap();
    assert_eq!(target.load_anchors(&bytes), Ok(()));
    assert_eq!(target.anchor_count(), 2);
    assert_eq!(target.save_anchors(), bytes);
    assert_eq!(target.load_anchors(&vec![1, 2, 3]), Err(CoreError::IndexIOError));
    assert_eq!(target.anchor_count(), 2);
    let mut other = VisionIntentMemoryManager::new(None, 4).unwrap();
    assert_eq!(other.load_anchors(&bytes), Err(CoreError::IndexIOError));
    assert_eq!(other.anchor_count(), 0);
}
