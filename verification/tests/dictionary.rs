use wordle_lib::dict::{FeedbackTable, OffsetDictionary, WordDictionary};
use wordle_lib::word_match::WordMatch;

#[test]
fn dictionary_construction() {
    let d = WordDictionary::new(b"cranebrace");
    assert_eq!(d.len(), 2);
    assert_eq!(d.word(0), *b"crane");
    assert_eq!(d.word(1), *b"brace");
}

#[test]
fn dictionary_push_and_index_of() {
    let mut d = WordDictionary::with_capacity(4);
    d.push(*b"crane");
    d.push(*b"boats");
    d.push(*b"crane");
    assert_eq!(d.len(), 3);
    assert_eq!(d.index_of(*b"boats"), Some(1));
    assert_eq!(d.index_of(*b"crane"), Some(0));
    assert_eq!(d.index_of(*b"zzzzz"), None);
}

#[test]
fn partition_buckets_are_disjoint_and_exhaustive() {
    let d = WordDictionary::new(b"sanesboatstonkaauntylarescoach");
    let guess = *b"sanes";
    let p = d.partition(guess);
    let mut total = 0;
    let mut seen: Vec<[u8; 5]> = Vec::new();
    for c in 0..243 {
        let b = p.bucket(c);
        total += b.len();
        for k in 0..b.len() {
            let w = b.word(k);
            // every member of bucket c gets feedback c from the guess
            assert_eq!(WordMatch::from(guess, w).0 as usize, c);
            // no word lands in two buckets
            assert!(!seen.contains(&w));
            seen.push(w);
        }
    }
    // bucket lengths sum to the source length
    assert_eq!(total, d.len());
}

#[test]
fn partition_is_pure() {
    let d = WordDictionary::new(b"sanesboatstonkaauntylarescoach");
    let guess = *b"tonka";
    let p1 = d.partition(guess);
    let p2 = d.partition(guess);
    for c in 0..243 {
        let b1 = p1.bucket(c);
        let b2 = p2.bucket(c);
        assert_eq!(b1.len(), b2.len());
        for k in 0..b1.len() {
            assert_eq!(b1.word(k), b2.word(k));
        }
    }
}

#[test]
fn feedback_table_matches_direct_computation() {
    let answers = WordDictionary::new(b"sanesboatstonka");
    let table = FeedbackTable::new(&answers);
    assert_eq!(table.word_count(), 3);
    for g in 0..3u16 {
        for a in 0..3u16 {
            let direct = WordMatch::from(answers.word(g as usize), answers.word(a as usize));
            assert_eq!(table.lookup(g, a), direct.0);
        }
    }
}

#[test]
fn offset_dictionary_enumerates_indices() {
    let d = OffsetDictionary::new(4);
    assert_eq!(d.len(), 4);
    for i in 0..4 {
        assert_eq!(d.word(i), i as u16);
    }
}

#[test]
fn offset_partition_agrees_with_word_partition() {
    let answers = WordDictionary::new(b"sanesboatstonkaaunty");
    let table = FeedbackTable::new(&answers);
    let idx = OffsetDictionary::new(4);
    let by_index = idx.partition(&table, 0);
    let by_word = answers.partition(answers.word(0));
    for c in 0..243 {
        let bi = by_index.bucket(c);
        let bw = by_word.bucket(c);
        assert_eq!(bi.len(), bw.len());
        for k in 0..bi.len() {
            assert_eq!(answers.word(bi.word(k) as usize), bw.word(k));
        }
    }
}
