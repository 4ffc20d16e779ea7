use movie_codec::bitstream::BitStream;
use movie_codec::bitvec::BitVec;
use movie_codec::huffman::{huffman_index, HuffmanCode};

fn bits_of(v: &BitVec) -> Vec<bool> {
    let bytes = v.dump();
    let mut stream = BitStream::new(&bytes);
    let mut out = Vec::new();
    for _ in 0..v.len() {
        out.push(stream.read_one().unwrap());
    }
    out
}

fn codeword(code: &HuffmanCode, v: u32) -> Vec<bool> {
    let mut b = BitVec::new();
    code.encode_value(&mut b, v);
    bits_of(&b)
}

fn check_round_trip(counts: Vec<(u32, u64)>) {
    let code = HuffmanCode::new(&counts);
    let (shape, values) = code.structure();
    let tree = shape.dump();
    let mut words = Vec::new();
    for &(v, _) in &counts {
        let mut b = BitVec::new();
        code.encode_value(&mut b, v);
        b.write_bits(0b1011, 4);
        let bytes = b.dump();
        let mut stream = BitStream::new(&bytes);
        let i = huffman_index(&mut stream, &tree).unwrap();
        assert_eq!(values[i], v);
        assert_eq!(stream.read_bits(4), Some(0b1011));
        words.push(codeword(&code, v));
    }
    for i in 0..words.len() {
        for j in 0..words.len() {
            if i != j {
                assert!(!words[j].starts_with(&words[i]), "{:?} is a prefix of {:?}", words[i], words[j]);
            }
        }
    }
}

#[test]
fn huffman_round_trip_small_tables() {
    check_round_trip(vec![(7, 1)]);
    check_round_trip(vec![(0, 5), (1, 5)]);
    check_round_trip(vec![(10, 1), (20, 2), (30, 4), (40, 8), (50, 16)]);
    check_round_trip(vec![(3, 0), (4, 0), (5, 0)]);
}

#[test]
fn huffman_round_trip_many_symbols() {
    let mut counts = Vec::new();
    let mut seed: u64 = 12345;
    for s in 0..200u32 {
        seed = seed.wrapping_mul(6364136223846793005).wrapping_add(1442695040888963407);
        counts.push((s * 3 + 1, (seed >> 40) % 1000));
    }
    check_round_trip(counts);
}

#[test]
fn single_symbol_has_empty_word() {
    let code = HuffmanCode::new(&vec![(42, 9)]);
    assert_eq!(codeword(&code, 42), Vec::<bool>::new());
    let (shape, values) = code.structure();
    assert_eq!(bits_of(&shape), vec![true]);
    assert_eq!(values, vec![42]);
}

#[test]
fn frequent_symbols_get_short_words() {
    let code = HuffmanCode::new(&vec![(1, 100), (2, 10), (3, 1), (4, 1)]);
    assert_eq!(codeword(&code, 1).len(), 1);
    assert_eq!(codeword(&code, 2).len(), 2);
    assert_eq!(codeword(&code, 3).len(), 3);
    assert_eq!(codeword(&code, 4).len(), 3);
}

#[test]
fn merge_puts_fewer_leaves_on_zero() {
    // 1 and 2 merge first (2 leaves, frequency 2); then 3 (1 leaf, frequency 2)
    // joins that node: the single leaf goes on the zero branch.
    let code = HuffmanCode::new(&vec![(1, 1), (2, 1), (3, 2)]);
    assert_eq!(codeword(&code, 3), vec![false]);
    let (shape, values) = code.structure();
    assert_eq!(bits_of(&shape), vec![false, true, false, true, true]);
    assert_eq!(values[0], 3);
}

#[test]
fn huffman_index_runs_out() {
    let code = HuffmanCode::new(&vec![(1, 1), (2, 1), (3, 1), (4, 1)]);
    let (shape, _) = code.structure();
    let tree = shape.dump();
    let empty: Vec<u8> = vec![];
    let mut stream = BitStream::new(&empty);
    assert_eq!(huffman_index(&mut stream, &tree), None);
}
