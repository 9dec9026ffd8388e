use bit_vec::BitVec;
use libpiedpiper::DecodeError;
use libpiedpiper::EncodeError;
use libpiedpiper::Encoder;

fn lines(strs: &[&str]) -> Vec<Vec<char>> {
    strs.iter().map(|s| s.chars().collect()).collect()
}

fn bits(bv: &BitVec) -> Vec<bool> {
    (0..bv.len()).map(|i| bv.get(i).unwrap()).collect()
}

fn bitvec_of(pattern: &[bool]) -> BitVec {
    let mut bv = BitVec::new();
    for &b in pattern {
        bv.push(b);
    }
    bv
}

#[test]
fn skewed_single_line_beats_fixed_width() {
    // Input "aaab": counts a:3, b:1, terminator:1.  The two weight-1
    // nodes (b, then the terminator) merge first; 'a' gets a one-bit
    // code.  The 5 symbols take 7 bits, under the 8 bits of a
    // fixed-width 2-bit code for the 4 line characters alone.
    let mut enc = Encoder::open(lines(&["aaab"]));
    let encoded = enc.encode().unwrap();
    assert_eq!(encoded.len(), 7);
    assert_eq!(
        bits(&encoded),
        vec![true, true, true, false, false, false, true]
    );
    assert!(encoded.len() < 8);
    let decoded = enc.decode(encoded).unwrap();
    assert_eq!(decoded, "aaab\n");
}

#[test]
fn empty_input_gives_empty_alphabet_error() {
    // Zero lines: no terminator is ever emitted, the alphabet is
    // empty and tree assembly refuses it.
    let mut enc = Encoder::open(lines(&[]));
    assert_eq!(enc.encode(), Err(EncodeError::EmptyAlphabet));
}

#[test]
fn single_repeated_symbol_round_trips() {
    // "aaaa" with no trailing newline still gets one terminator; the
    // tree has two leaves and the round trip is exact.
    let mut enc = Encoder::open(lines(&["aaaa"]));
    let encoded = enc.encode().unwrap();
    assert_eq!(bits(&encoded), vec![true, true, true, true, false]);
    let decoded = enc.decode(encoded).unwrap();
    assert_eq!(decoded, "aaaa\n");
}

#[test]
fn single_symbol_alphabet_uses_one_bit_code() {
    // One empty line: the alphabet is just the terminator, the tree a
    // single leaf.  By convention that leaf gets the one-bit code 0,
    // so the output stays decodable.
    let mut enc = Encoder::open(lines(&[""]));
    let encoded = enc.encode().unwrap();
    assert_eq!(bits(&encoded), vec![false]);
    let decoded = enc.decode(encoded).unwrap();
    assert_eq!(decoded, "\n");
}

#[test]
fn trailing_partial_path_is_dropped() {
    // A bit sequence longer than the payload, whose tail ends in the
    // middle of a root-to-leaf path, decodes to the original text with
    // the tail silently dropped.
    let mut enc = Encoder::open(lines(&["aaab"]));
    let encoded = enc.encode().unwrap();
    let mut longer = bits(&encoded);
    longer.push(false);
    let decoded = enc.decode(bitvec_of(&longer)).unwrap();
    assert_eq!(decoded, "aaab\n");
}

#[test]
fn trailing_complete_path_emits_one_more_symbol() {
    // A trailing bit that does complete a path emits one extra symbol:
    // decoding runs strictly until the bits are exhausted.
    let mut enc = Encoder::open(lines(&["aaab"]));
    let encoded = enc.encode().unwrap();
    let mut longer = bits(&encoded);
    longer.push(true);
    let decoded = enc.decode(bitvec_of(&longer)).unwrap();
    assert_eq!(decoded, "aaab\na");
}

#[test]
fn round_trip_two_lines() {
    let mut enc = Encoder::open(lines(&["hello", "world"]));
    let encoded = enc.encode().unwrap();
    let decoded = enc.decode(encoded).unwrap();
    assert_eq!(decoded, "hello\nworld\n");
}

#[test]
fn round_trip_empty_line_among_lines() {
    let mut enc = Encoder::open(lines(&["ab", ""]));
    let encoded = enc.encode().unwrap();
    // Stream "ab\n\n": ties on weight are broken towards the earlier
    // node, so the terminator gets code 0, 'a' 10 and 'b' 11.
    assert_eq!(
        bits(&encoded),
        vec![true, false, true, true, false, false]
    );
    let decoded = enc.decode(encoded).unwrap();
    assert_eq!(decoded, "ab\n\n");
}

#[test]
fn encoding_twice_is_deterministic() {
    // The same input encoded twice, under the same tie-break rule,
    // yields bit-identical sequences.
    let mut enc1 = Encoder::open(lines(&["abracadabra", "alakazam"]));
    let mut enc2 = Encoder::open(lines(&["abracadabra", "alakazam"]));
    let b1 = enc1.encode().unwrap();
    let b2 = enc2.encode().unwrap();
    assert_eq!(bits(&b1), bits(&b2));
    // Re-encoding with the same coder starts afresh and agrees too.
    let b3 = enc1.encode().unwrap();
    assert_eq!(bits(&b1), bits(&b3));
}

#[test]
fn codes_are_prefix_free() {
    // Each symbol's code alone decodes to exactly that symbol: no code
    // is a prefix of another, so no code runs past a leaf or stops
    // short of one.  Codes from the "aaab" tree: a=1, b=00, nl=01.
    let mut enc = Encoder::open(lines(&["aaab"]));
    enc.encode().unwrap();
    assert_eq!(enc.decode(bitvec_of(&[true])).unwrap(), "a");
    assert_eq!(enc.decode(bitvec_of(&[false, false])).unwrap(), "b");
    assert_eq!(enc.decode(bitvec_of(&[false, true])).unwrap(), "\n");
}

#[test]
fn decode_without_tree_fails() {
    let enc = Encoder::open(lines(&["abc"]));
    assert_eq!(
        enc.decode(BitVec::new()),
        Err(DecodeError::TreeNotBuilt)
    );
}

#[test]
fn decode_empty_bits_gives_empty_text() {
    let mut enc = Encoder::open(lines(&["abc"]));
    enc.encode().unwrap();
    assert_eq!(enc.decode(BitVec::new()).unwrap(), "");
}
