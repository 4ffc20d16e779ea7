use movie_codec::bitstream::BitStream;
use movie_codec::bitvec::BitVec;

fn bits_of(v: &BitVec) -> Vec<bool> {
    let bytes = v.dump();
    let mut stream = BitStream::new(&bytes);
    let mut out = Vec::new();
    for _ in 0..v.len() {
        out.push(stream.read_one().unwrap());
    }
    out
}

#[test]
fn write_bits_lowest_first() {
    let mut v = BitVec::new();
    v.write_bits(0b1101, 4);
    assert_eq!(bits_of(&v), vec![true, false, true, true]);
    assert_eq!(v.dump(), vec![0b1101]);
}

#[test]
fn dump_pads_last_byte() {
    let mut v = BitVec::new();
    for i in 0..10 {
        v.write(i % 3 == 0);
    }
    assert_eq!(v.len(), 10);
    assert_eq!(v.bytes(), 2);
    assert_eq!(v.dump(), vec![0b0100_1001, 0b10]);
}

#[test]
fn fibonacci_code_words() {
    let words: Vec<(u32, Vec<bool>)> = vec![
        (1, vec![true, true]),
        (2, vec![false, true, true]),
        (3, vec![false, false, true, true]),
        (4, vec![true, false, true, true]),
        (5, vec![false, false, false, true, true]),
        (12, vec![true, false, true, false, true, true]),
    ];
    for (v, word) in words {
        let mut b = BitVec::new();
        b.write_int(v);
        assert_eq!(bits_of(&b), word, "code word of {}", v);
    }
}

#[test]
fn int_code_round_trip_up_to_100000() {
    let mut b = BitVec::new();
    for v in 1..=100_000u32 {
        b.write_int(v);
    }
    let bytes = b.dump();
    let mut s = BitStream::new(&bytes);
    for v in 1..=100_000u32 {
        assert_eq!(s.read_int(), Some(v));
    }
}

#[test]
fn int_code_round_trip_large_values() {
    for v in [u32::MAX, u32::MAX - 1, 2_971_215_073, 1 << 31, 123_456_789] {
        let mut b = BitVec::new();
        b.write_int(v);
        b.write_bits(0b101, 3);
        let bytes = b.dump();
        let mut s = BitStream::new(&bytes);
        assert_eq!(s.read_int(), Some(v));
        assert_eq!(s.read_bits(3), Some(0b101));
    }
}

#[test]
fn read_int_runs_out() {
    let bytes = vec![0b0000_0101u8];
    let mut s = BitStream::new(&bytes);
    assert_eq!(s.read_int(), None);
    let empty: Vec<u8> = vec![];
    let mut e = BitStream::new(&empty);
    assert_eq!(e.read_int(), None);
}

#[test]
fn read_int_too_large() {
    // digits 1 0 1 0 ... up to term 50, then the closing pair
    let mut b = BitVec::new();
    for i in 0..50 {
        b.write(i % 2 == 0);
    }
    b.write(false);
    b.write(true);
    b.write(true);
    let bytes = b.dump();
    let mut s = BitStream::new(&bytes);
    assert_eq!(s.read_int(), None);
}

#[test]
fn read_bits_and_read_one() {
    let bytes = vec![0b1010_0110u8, 0xff];
    let mut s = BitStream::new(&bytes);
    assert_eq!(s.read_one(), Some(false));
    assert_eq!(s.read_one(), Some(true));
    assert_eq!(s.read_bits(4), Some(0b1001));
    assert_eq!(s.read_bits(4), Some(0b1110));
    assert_eq!(s.read_bits(7), None);
    assert_eq!(s.read_one(), None);
}

#[test]
fn bit_field_round_trip() {
    let values = [0u32, 1, 7, 255, 1000, 65_535, 1 << 20, u32::MAX];
    let widths = [1u32, 1, 3, 8, 10, 16, 21, 32];
    let mut b = BitVec::new();
    for i in 0..values.len() {
        b.write_bits(values[i], widths[i]);
    }
    let bytes = b.dump();
    let mut s = BitStream::new(&bytes);
    for i in 0..values.len() {
        assert_eq!(s.read_bits(widths[i] as u8), Some(values[i]));
    }
}

#[test]
fn append_concatenates() {
    let mut a = BitVec::new();
    a.write_bits(0b11, 2);
    let mut b = BitVec::new();
    b.write_bits(0b010, 3);
    a.append(&b);
    assert_eq!(a.len(), 5);
    assert_eq!(bits_of(&a), vec![true, true, false, true, false]);
}
