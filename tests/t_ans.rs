use tans::t_ans::before_exec;
use tans::{
    build_base_tans_config, build_tans_config, encode, generate_table, FrequencyTable,
    SpreadTable, TableANSConfig, TansError,
};

fn freqs(pairs: &[(&[u8], u64)]) -> FrequencyTable {
    let mut hm = FrequencyTable::new();
    for (s, c) in pairs {
        hm.insert(s.to_vec(), *c);
    }
    hm
}

fn keys(t: &SpreadTable) -> Vec<(Vec<u8>, u64)> {
    (0..t.len()).map(|i| {
        let (s, k) = t.key_at(i);
        (s.clone(), k)
    }).collect()
}

#[test]
fn t_ans_basic_table_gen() {
    let hm = freqs(&[(&[0], 10), (&[1], 5), (&[2], 2)]);
    let test_config = TableANSConfig {
        base: 2,
        total_num_symbols: 3,
        table_size: 17,
    };
    let table = generate_table(&hm, &test_config).unwrap();
    assert_eq!(table.len(), 17);
}

#[allow(non_snake_case)]
#[test]
fn tANS_basic_table_gen() {
    let hm = freqs(&[(&[0], 10), (&[1], 5), (&[2], 2)]);
    let config = TableANSConfig {
        base: 2,
        total_num_symbols: 17,
        table_size: 17,
    };
    let table = generate_table(&hm, &config).unwrap();
    assert_eq!(table.len(), 17);
}

#[test]
fn basic_table_gen_byte_transfer() {
    let hm = freqs(&[(&[0], 10), (&[1], 5), (&[2], 2)]);
    let test_config = TableANSConfig {
        base: 2 << 8,
        total_num_symbols: 3,
        table_size: 17,
    };
    let table = generate_table(&hm, &test_config).unwrap();
    assert_eq!(table.len(), 8687);
}

#[test]
fn test_encode_basic() {
    let hm = freqs(&[(b"0", 9), (b"1", 4)]);
    let test_config = TableANSConfig {
        base: 2,
        total_num_symbols: 2,
        table_size: 9,
    };
    let table = generate_table(&hm, &test_config).unwrap();
    assert_eq!(table.len(), 9);
    let v = vec![vec![b'1'], vec![b'0'], vec![b'0'], vec![b'1'], vec![b'0'], vec![b'1']];
    // occurrence counting starts at 1, and this table's keys for "1" start at 4
    match encode(&v, table, test_config) {
        Err(TansError::UnknownSymbolOccurrence { symbol, occurrence }) => {
            assert_eq!(symbol, vec![b'1']);
            assert_eq!(occurrence, 1);
        }
        other => panic!("unexpected result {:?}", other),
    }
}

#[test]
fn table_covers_interval_once() {
    let hm = freqs(&[(&[0], 10), (&[1], 5), (&[2], 2)]);
    let config = TableANSConfig {
        base: 2,
        total_num_symbols: 3,
        table_size: 17,
    };
    let table = generate_table(&hm, &config).unwrap();
    assert_eq!(table.start(), 17);
    let ks = keys(&table);
    let mut slots: Vec<u64> = ks.iter().map(|(s, k)| table.get(s, *k).unwrap()).collect();
    slots.sort();
    assert_eq!(slots, (17..34).collect::<Vec<u64>>());
    for (s, k) in &ks {
        let f = hm.get(s).unwrap();
        assert!(*k >= f && *k < 2 * f);
    }
    let total: usize = [10usize, 5, 2].iter().sum();
    assert_eq!(ks.len(), total);
}

#[test]
fn table_is_deterministic() {
    let hm = freqs(&[(b"x", 7), (b"y", 3), (b"z", 3)]);
    let config = TableANSConfig {
        base: 4,
        total_num_symbols: 13,
        table_size: 13,
    };
    let t1 = generate_table(&hm, &config).unwrap();
    let t2 = generate_table(&hm, &config).unwrap();
    assert_eq!(t1.start(), t2.start());
    assert_eq!(keys(&t1), keys(&t2));
    assert_eq!(t1.len(), 39);
}

#[test]
fn equal_priority_goes_to_higher_frequency() {
    // "b" is listed first, but on the tie at the second slot "a" wins
    let hm = freqs(&[(b"b", 1), (b"a", 3)]);
    let config = TableANSConfig {
        base: 2,
        total_num_symbols: 4,
        table_size: 4,
    };
    let table = generate_table(&hm, &config).unwrap();
    assert_eq!(
        keys(&table),
        vec![(b"a".to_vec(), 3), (b"a".to_vec(), 4), (b"b".to_vec(), 1), (b"a".to_vec(), 5)]
    );
    assert_eq!(table.get(&b"a".to_vec(), 4), Some(5));
    assert_eq!(table.get(&b"b".to_vec(), 1), Some(6));
    assert_eq!(table.get(&b"b".to_vec(), 2), None);
}

#[test]
fn equal_frequencies_go_in_byte_order() {
    // "y" is listed first, but on a full tie the smaller symbol wins
    let hm = freqs(&[(b"y", 1), (b"x", 1)]);
    let config = TableANSConfig {
        base: 2,
        total_num_symbols: 2,
        table_size: 2,
    };
    let table = generate_table(&hm, &config).unwrap();
    assert_eq!(keys(&table), vec![(b"x".to_vec(), 1), (b"y".to_vec(), 1)]);
}

#[test]
fn table_ignores_listing_order() {
    let config = TableANSConfig {
        base: 3,
        total_num_symbols: 9,
        table_size: 9,
    };
    let orders: [&[(&[u8], u64)]; 3] = [
        &[(b"p", 2), (b"q", 2), (b"r", 2), (b"s", 3)],
        &[(b"s", 3), (b"r", 2), (b"q", 2), (b"p", 2)],
        &[(b"q", 2), (b"s", 3), (b"p", 2), (b"r", 2)],
    ];
    let tables: Vec<Vec<(Vec<u8>, u64)>> = orders
        .iter()
        .map(|o| keys(&generate_table(&freqs(o), &config).unwrap()))
        .collect();
    assert_eq!(tables[0].len(), 18);
    assert_eq!(tables[0], tables[1]);
    assert_eq!(tables[0], tables[2]);
}

#[test]
fn comparator_tie_rules() {
    // equal priority values (3/6 == 1/2): the more frequent symbol first
    assert!(before_exec(1, 3, &b"b".to_vec(), 0, 1, &b"a".to_vec()));
    assert!(!before_exec(0, 1, &b"a".to_vec(), 1, 3, &b"b".to_vec()));
    // full tie: the lexicographically smaller symbol first
    assert!(before_exec(2, 5, &b"ab".to_vec(), 2, 5, &b"b".to_vec()));
    assert!(!before_exec(2, 5, &b"b".to_vec(), 2, 5, &b"ab".to_vec()));
    assert!(before_exec(0, 5, &b"a".to_vec(), 0, 5, &b"ab".to_vec()));
    // smaller value first
    assert!(before_exec(0, 1, &b"z".to_vec(), 1, 1, &b"a".to_vec()));
    assert!(!before_exec(1, 1, &b"a".to_vec(), 0, 1, &b"z".to_vec()));
}

#[test]
fn encode_walks_the_table() {
    let hm = freqs(&[(b"x", 1), (b"y", 1)]);
    let config = TableANSConfig {
        base: 2,
        total_num_symbols: 2,
        table_size: 2,
    };
    let table = generate_table(&hm, &config).unwrap();
    let states = encode(&vec![b"x".to_vec(), b"y".to_vec()], table, config).unwrap();
    assert_eq!(states, vec![2, 2, 3]);
}

#[test]
fn encode_empty_input_keeps_initial_state() {
    let hm = freqs(&[(b"x", 1)]);
    let config = TableANSConfig {
        base: 2,
        total_num_symbols: 1,
        table_size: 1,
    };
    let table = generate_table(&hm, &config).unwrap();
    assert_eq!(encode(&vec![], table, config).unwrap(), vec![1]);
}

#[test]
fn encode_unknown_symbol_fails() {
    let hm = freqs(&[(b"x", 1), (b"y", 1)]);
    let config = TableANSConfig {
        base: 2,
        total_num_symbols: 2,
        table_size: 2,
    };
    let table = generate_table(&hm, &config).unwrap();
    match encode(&vec![b"x".to_vec(), b"q".to_vec()], table, config) {
        Err(TansError::UnknownSymbolOccurrence { symbol, occurrence }) => {
            assert_eq!(symbol, b"q".to_vec());
            assert_eq!(occurrence, 1);
        }
        other => panic!("unexpected result {:?}", other),
    }
}

#[test]
fn encode_occurrence_beyond_table_fails() {
    let hm = freqs(&[(b"x", 1), (b"y", 1)]);
    let config = TableANSConfig {
        base: 2,
        total_num_symbols: 2,
        table_size: 2,
    };
    let table = generate_table(&hm, &config).unwrap();
    match encode(&vec![b"x".to_vec(), b"x".to_vec()], table, config) {
        Err(TansError::UnknownSymbolOccurrence { symbol, occurrence }) => {
            assert_eq!(symbol, b"x".to_vec());
            assert_eq!(occurrence, 2);
        }
        other => panic!("unexpected result {:?}", other),
    }
}

#[test]
fn zero_frequency_is_degenerate() {
    let hm = freqs(&[(b"x", 4), (b"y", 0)]);
    let config = TableANSConfig {
        base: 2,
        total_num_symbols: 4,
        table_size: 4,
    };
    assert!(matches!(generate_table(&hm, &config), Err(TansError::DegenerateDistribution)));
}

#[test]
fn zero_total_is_degenerate() {
    let hm = freqs(&[(b"x", 4)]);
    let config = TableANSConfig {
        base: 2,
        total_num_symbols: 0,
        table_size: 4,
    };
    assert!(matches!(generate_table(&hm, &config), Err(TansError::DegenerateDistribution)));
}

#[test]
fn empty_distribution_exhausts_table() {
    let hm = FrequencyTable::new();
    let config = TableANSConfig {
        base: 2,
        total_num_symbols: 0,
        table_size: 5,
    };
    assert!(matches!(generate_table(&hm, &config), Err(TansError::TableExhausted)));
}

#[test]
fn empty_interval_gives_empty_table() {
    let hm = FrequencyTable::new();
    let config = TableANSConfig {
        base: 2,
        total_num_symbols: 0,
        table_size: 0,
    };
    let table = generate_table(&hm, &config).unwrap();
    assert_eq!(table.len(), 0);
}

#[test]
fn base_config_defaults() {
    let hm = freqs(&[(b"a", 1), (b"b", 1), (b"\n", 1)]);
    let cfg = build_base_tans_config(&hm);
    assert_eq!(cfg.base, 256);
    assert_eq!(cfg.total_num_symbols, 3);
    assert_eq!(cfg.table_size, 24);
}

#[test]
fn custom_config() {
    let hm = freqs(&[(b"a", 5), (b"b", 2)]);
    let cfg = build_tans_config(&hm, 16, 3);
    assert_eq!(cfg.base, 16);
    assert_eq!(cfg.total_num_symbols, 7);
    assert_eq!(cfg.table_size, 21);
}
