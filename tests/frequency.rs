use tans::{symbol_freq, FileChunker, FrequencyTable};

#[test]
fn basic_symbol_freq() {
    // input is 'ab\n'
    let r = symbol_freq(b"ab\n".to_vec(), Some(1));
    assert_eq!(r.len(), 3);

    let num_a = r.get(&vec![b'a']).unwrap();
    let num_b = r.get(&vec![b'b']).unwrap();
    let num_newline = r.get(&vec![b'\n']).unwrap();

    assert_eq!(num_a, 1);
    assert_eq!(num_b, 1);
    assert_eq!(num_newline, 1);
}

#[test]
fn basic_symbol_freq_chunk_of_2() {
    // input is 'ab\n'
    let r = symbol_freq(b"ab\n".to_vec(), Some(2));
    assert_eq!(r.len(), 2);

    let num_ab = r.get(&vec![b'a', b'b']).unwrap();
    let num_newline = r.get(&vec![b'\n']).unwrap();
    assert_eq!(num_ab, 1);
    assert_eq!(num_newline, 1);
}

fn all_chunks(data: &[u8], w: usize) -> Vec<Vec<u8>> {
    let mut c = FileChunker::new(data.to_vec(), w);
    let mut out = Vec::new();
    while let Some(ch) = c.next() {
        out.push(ch);
    }
    out
}

#[test]
fn chunks_rebuild_input() {
    let data = b"abcdefg";
    let cs = all_chunks(data, 3);
    assert_eq!(cs, vec![b"abc".to_vec(), b"def".to_vec(), b"g".to_vec()]);
    assert_eq!(cs.concat(), data.to_vec());
}

#[test]
fn chunks_exact_multiple() {
    let cs = all_chunks(b"abcd", 2);
    assert_eq!(cs, vec![b"ab".to_vec(), b"cd".to_vec()]);
}

#[test]
fn chunks_of_empty_input() {
    assert!(all_chunks(b"", 4).is_empty());
}

#[test]
fn chunks_of_zero_width() {
    assert!(all_chunks(b"abc", 0).is_empty());
}

#[test]
fn chunker_stays_exhausted() {
    let mut c = FileChunker::new(b"a".to_vec(), 1);
    assert_eq!(c.next(), Some(b"a".to_vec()));
    assert_eq!(c.next(), None);
    assert_eq!(c.next(), None);
}

#[test]
fn frequencies_sum_to_chunk_count() {
    let data = b"abcdababx".to_vec();
    let r = symbol_freq(data.clone(), Some(2));
    assert_eq!(r.total(), Some(all_chunks(&data, 2).len() as u64));
    assert_eq!(r.total(), Some(5));
    assert_eq!(r.len(), 3);
    assert_eq!(r.get(&b"ab".to_vec()), Some(3));
    assert_eq!(r.get(&b"cd".to_vec()), Some(1));
    assert_eq!(r.get(&b"x".to_vec()), Some(1));
    assert_eq!(r.get(&b"zz".to_vec()), None);
}

#[test]
fn default_width_is_one_byte() {
    let r = symbol_freq(b"aab".to_vec(), None);
    assert_eq!(r.len(), 2);
    assert_eq!(r.get(&b"a".to_vec()), Some(2));
    assert_eq!(r.total(), Some(3));
}

#[test]
fn empty_input_has_empty_table() {
    let r = symbol_freq(Vec::new(), Some(1));
    assert_eq!(r.len(), 0);
    assert_eq!(r.total(), Some(0));
}

#[test]
fn insert_replaces_count() {
    let mut t = FrequencyTable::new();
    t.insert(b"a".to_vec(), 3);
    t.insert(b"b".to_vec(), 1);
    t.insert(b"a".to_vec(), 7);
    assert_eq!(t.len(), 2);
    assert_eq!(t.get(&b"a".to_vec()), Some(7));
    assert_eq!(t.symbol_at(0), &b"a".to_vec());
    assert_eq!(t.count_at(1), 1);
}

#[test]
fn total_overflow_is_reported() {
    let mut t = FrequencyTable::new();
    t.insert(b"a".to_vec(), u64::MAX);
    t.insert(b"b".to_vec(), 1);
    assert_eq!(t.total(), None);
}
