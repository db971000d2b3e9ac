use markov::chain::{BOUNDARY, MAX_WORD_LEN};
use markov::{ChainError, TextMarkovChain};

const EXPECTED: [u64; 36] = [
    0, 0, 0, 0, 0, 0, //
    1, 1, 0, 0, 0, 1, //
    0, 0, 0, 0, 1, 0, //
    1, 0, 0, 0, 0, 1, //
    1, 0, 0, 0, 0, 0, //
    2, 0, 0, 1, 0, 0,
];

fn sample_chain() -> TextMarkovChain {
    let data = ["aa", "ar", "rc", "cr", "bo"];
    TextMarkovChain::fit(&data).unwrap()
}

#[test]
fn markov_chain_fit_test() {
    let data = ["aa", "ar", "rc", "cr", "bo"];
    let mc = TextMarkovChain::fit(&data).unwrap();
    let expected = [
        0, 0, 0, 0, 0, 0, //
        1, 1, 0, 0, 0, 1, //
        0, 0, 0, 0, 1, 0, //
        1, 0, 0, 0, 0, 1, //
        1, 0, 0, 0, 0, 0, //
        2, 0, 0, 1, 0, 0,
    ];
    assert_eq!(mc.graph().get_all_weights().as_slice(), expected);
}

#[test]
fn chain_fit_test() {
    let data = ["aa", "ar", "rc", "cr", "bo"];
    let mc = TextMarkovChain::fit(&data).unwrap();
    let expected = [
        0, 0, 0, 0, 0, 0, 1, 1, 0, 0, 0, 1, 0, 0, 0, 0, 1, 0, 1, 0, 0, 0, 0, 1, 1, 0, 0, 0, 0,
        0, 2, 0, 0, 1, 0, 0,
    ];
    assert_eq!(mc.graph().get_all_weights().as_slice(), expected);
}

#[test]
fn fit_vertices_are_sorted_alphabet_with_boundary() {
    let mc = sample_chain();
    assert_eq!(mc.graph().get_vertices(), vec![' ', 'a', 'b', 'c', 'o', 'r']);
    assert_eq!(mc.graph().n_vertices(), 6);
}

#[test]
fn fit_counts_each_pair() {
    let g = sample_chain();
    let g = g.graph();
    let nonzero = [
        ('a', 'a', 1),
        ('a', ' ', 1),
        ('a', 'r', 1),
        ('r', 'c', 1),
        ('r', ' ', 2),
        ('c', 'r', 1),
        ('c', ' ', 1),
        ('b', 'o', 1),
        ('o', ' ', 1),
    ];
    let vs = g.get_vertices();
    for from in &vs {
        for to in &vs {
            let want = nonzero
                .iter()
                .find(|(f, t, _)| f == from && t == to)
                .map(|(_, _, w)| *w)
                .unwrap_or(0);
            assert_eq!(g.get_weight(from, to), want, "{:?} -> {:?}", from, to);
        }
    }
}

#[test]
fn fit_is_deterministic() {
    let a = sample_chain();
    let b = sample_chain();
    assert_eq!(a.graph().get_vertices(), b.graph().get_vertices());
    assert_eq!(a.graph().get_all_weights(), b.graph().get_all_weights());
}

#[test]
fn fit_conserves_counts() {
    let data = ["hello", "world", "x"];
    let mc = TextMarkovChain::fit(&data).unwrap();
    let total: u64 = mc.graph().get_all_weights().iter().sum();
    assert_eq!(total, 11);
    let single = TextMarkovChain::fit(&["abcab"]).unwrap();
    let total: u64 = single.graph().get_all_weights().iter().sum();
    assert_eq!(total, 5);
    assert_eq!(single.graph().get_weight(&'a', &'b'), 2);
    assert_eq!(single.graph().get_weight(&'b', &' '), 1);
}

#[test]
fn fit_rejects_word_with_boundary() {
    let r = TextMarkovChain::fit(&["ab cd"]);
    assert!(matches!(r, Err(ChainError::BoundaryInWord { index: 0 })));
    let r = TextMarkovChain::fit(&["ok", "fine", "not ok"]);
    assert!(matches!(r, Err(ChainError::BoundaryInWord { index: 2 })));
}

#[test]
fn fit_rejects_empty_corpus() {
    let data: [&str; 0] = [];
    assert!(matches!(TextMarkovChain::fit(&data), Err(ChainError::EmptyCorpus)));
}

#[test]
fn fit_rejects_empty_word() {
    let r = TextMarkovChain::fit(&["ab", "", "a b"]);
    assert!(matches!(r, Err(ChainError::EmptyWord { index: 1 })));
}

#[test]
fn fit_handles_non_ascii() {
    let mc = TextMarkovChain::fit(&["été"]).unwrap();
    assert_eq!(mc.graph().get_vertices(), vec![' ', 't', 'é']);
    assert_eq!(mc.graph().get_weight(&'é', &'t'), 1);
    assert_eq!(mc.graph().get_weight(&'t', &'é'), 1);
    assert_eq!(mc.graph().get_weight(&'é', &' '), 1);
}

#[test]
fn new_starts_with_zero_counts() {
    let mc = TextMarkovChain::new(&['x', ' ', 'y']);
    assert_eq!(mc.graph().get_vertices(), vec!['x', ' ', 'y']);
    assert_eq!(mc.graph().get_all_weights(), &vec![0u64; 9]);
}

#[test]
fn save_layout_is_exact() {
    let mc = sample_chain();
    let bytes = mc.to_bytes();
    assert_eq!(bytes.len(), 8 + 6 + 8 * 36);
    assert_eq!(&bytes[0..8], &6u64.to_le_bytes());
    assert_eq!(&bytes[8..14], " abcor".as_bytes());
    for (i, w) in EXPECTED.iter().enumerate() {
        let at = 14 + 8 * i;
        assert_eq!(&bytes[at..at + 8], &w.to_le_bytes());
    }
}

#[test]
fn save_encodes_non_ascii_vertices() {
    let mc = TextMarkovChain::fit(&["日本"]).unwrap();
    let bytes = mc.to_bytes();
    let table = " 日本".as_bytes();
    assert_eq!(&bytes[0..8], &(table.len() as u64).to_le_bytes());
    assert_eq!(&bytes[8..8 + table.len()], table);
    assert_eq!(bytes.len(), 8 + table.len() + 8 * 9);
}

#[test]
fn load_of_save_round_trips() {
    for data in [vec!["aa", "ar", "rc", "cr", "bo"], vec!["été", "ça", "o'neil"]] {
        let mc = TextMarkovChain::fit(&data).unwrap();
        let back = TextMarkovChain::from_bytes(&mc.to_bytes()).unwrap();
        assert_eq!(back.graph().get_vertices(), mc.graph().get_vertices());
        assert_eq!(back.graph().get_all_weights(), mc.graph().get_all_weights());
    }
}

#[test]
fn load_rejects_truncated_data() {
    let bytes = sample_chain().to_bytes();
    let r = TextMarkovChain::from_bytes(&bytes[..bytes.len() - 1]);
    assert!(matches!(r, Err(ChainError::SizeMismatch)));
    let r = TextMarkovChain::from_bytes(&bytes[..5]);
    assert!(matches!(r, Err(ChainError::SizeMismatch)));
    let r = TextMarkovChain::from_bytes(&bytes[..10]);
    assert!(matches!(r, Err(ChainError::SizeMismatch)));
}

#[test]
fn load_rejects_trailing_data() {
    let mut bytes = sample_chain().to_bytes();
    bytes.push(0);
    assert!(matches!(TextMarkovChain::from_bytes(&bytes), Err(ChainError::SizeMismatch)));
}

#[test]
fn load_rejects_invalid_utf8() {
    let mut bytes = 1u64.to_le_bytes().to_vec();
    bytes.push(0xFF);
    bytes.extend_from_slice(&[0u8; 8]);
    assert!(matches!(TextMarkovChain::from_bytes(&bytes), Err(ChainError::InvalidUtf8)));
}

#[test]
fn load_rejects_bad_vertex_tables() {
    for table in ["a", "  ", ""] {
        let n = table.chars().count();
        let mut bytes = (table.len() as u64).to_le_bytes().to_vec();
        bytes.extend_from_slice(table.as_bytes());
        bytes.extend(std::iter::repeat(0u8).take(8 * n * n));
        let r = TextMarkovChain::from_bytes(&bytes);
        assert!(matches!(r, Err(ChainError::InvalidVertices)), "{:?}", table);
    }
}

#[test]
fn load_accepts_handmade_data() {
    let mut bytes = 2u64.to_le_bytes().to_vec();
    bytes.extend_from_slice(b"x ");
    for w in [3u64, 4, 5, 6] {
        bytes.extend_from_slice(&w.to_le_bytes());
    }
    let mc = TextMarkovChain::from_bytes(&bytes).unwrap();
    assert_eq!(mc.graph().get_vertices(), vec!['x', ' ']);
    assert_eq!(mc.graph().get_weight(&'x', &' '), 4);
    assert_eq!(mc.graph().get_weight(&' ', &'x'), 5);
}

#[test]
fn gen_stays_in_alphabet() {
    let data = ["anna", "bob", "carol", "dave", "eve", "o'neil", "jean-luc"];
    let mc = TextMarkovChain::fit(&data).unwrap();
    let vertices = mc.graph().get_vertices();
    for _ in 0..200 {
        let w = mc.gen();
        assert!(!w.is_empty());
        assert!(w.chars().count() <= MAX_WORD_LEN);
        for c in w.chars() {
            assert!(vertices.contains(&c));
            assert_ne!(c, BOUNDARY);
        }
        let first = w.chars().next().unwrap();
        assert!(first != '\'' && first != '-');
    }
}

#[test]
fn gen_follows_the_only_transitions() {
    let mc = TextMarkovChain::fit(&["abc"]).unwrap();
    for _ in 0..50 {
        let w = mc.gen();
        assert!(["abc", "bc", "c"].contains(&w.as_str()), "{}", w);
    }
}

#[test]
fn gen_is_empty_without_a_start_character() {
    let mc = TextMarkovChain::fit(&["-", "'"]).unwrap();
    assert_eq!(mc.gen(), "");
}

#[test]
fn gen_stops_at_the_length_cap() {
    let mut bytes = 2u64.to_le_bytes().to_vec();
    bytes.extend_from_slice(b"z ");
    for w in [9u64, 0, 0, 0] {
        bytes.extend_from_slice(&w.to_le_bytes());
    }
    let mc = TextMarkovChain::from_bytes(&bytes).unwrap();
    let w = mc.gen();
    assert_eq!(w, "z".repeat(MAX_WORD_LEN));
}
