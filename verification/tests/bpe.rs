//! The byte-pair tokeniser.
use bitnet::bpe::{Bpe, BPE_BASE};
use bitnet::codec::ReadError;

#[test]
fn learns_the_obvious_merge_first() {
    let bpe = Bpe::train(b"ababab ababab", 258);
    assert_eq!(bpe.merges[0], (b'a' as u32, b'b' as u32));
    assert_eq!(bpe.encode("ab"), vec![BPE_BASE]);
    assert_eq!(bpe.decode(&[BPE_BASE]), "ab");
}

#[test]
fn encode_decode_round_trips_arbitrary_utf8() {
    let bpe = Bpe::train(b"the quick brown fox jumps over the lazy dog. ", 300);
    let mut lcg: u64 = 0x2545F4914F6CDD1Du64;
    let mut cases: Vec<String> = vec![
        String::new(),
        "the the the".into(),
        "completely unseen WORDS \n\t 123".into(),
        "multibyte: \u{00e9}\u{4e16}\u{754c} \u{1F600} caf\u{00e9}".into(),
    ];
    for _ in 0..50 {
        let mut s = String::new();
        for _ in 0..40 {
            lcg = lcg
                .wrapping_mul(6364136223846793005)
                .wrapping_add(1442695040888963407);
            let c = char::from_u32((lcg >> 40) as u32 % 0x2FFF).unwrap_or('x');
            s.push(c);
        }
        cases.push(s);
    }
    for case in &cases {
        let ids = bpe.encode(case);
        assert_eq!(&bpe.decode(&ids), case, "round-trip failed");
        assert!(ids.iter().all(|&i| i < bpe.size()), "id out of range");
    }
}

#[test]
fn training_is_deterministic() {
    let corpus = b"to be or not to be that is the question ";
    let a = Bpe::train(corpus, 280);
    let b = Bpe::train(corpus, 280);
    assert_eq!(a.merges, b.merges);
    let (mut buf_a, mut buf_b) = (Vec::new(), Vec::new());
    a.save(&mut buf_a);
    b.save(&mut buf_b);
    assert_eq!(buf_a, buf_b);
}

#[test]
fn save_load_round_trips_and_validates() {
    let bpe = Bpe::train(b"mississippi mississippi", 262);
    let mut buf = Vec::new();
    bpe.save(&mut buf);
    let back = Bpe::load(buf.as_slice()).unwrap();
    assert_eq!(back, bpe);
    assert!(Bpe::load(&b"NOPE"[..]).is_err());
    let mut evil = Vec::new();
    evil.extend_from_slice(b"BPE1");
    evil.extend_from_slice(&1u32.to_le_bytes());
    evil.extend_from_slice(&300u32.to_le_bytes());
    evil.extend_from_slice(&0u32.to_le_bytes());
    assert!(Bpe::load(evil.as_slice()).is_err());
}

#[test]
fn training_stops_when_no_pair_repeats() {
    let bpe = Bpe::train(b"abcdefg", 512);
    assert!(bpe.size() < 512, "cannot mint merges from singleton pairs");
}

#[test]
fn load_reports_what_is_wrong() {
    assert_eq!(Bpe::load(&b"NOPE\0\0\0\0"[..]), Err(ReadError::BadMagic));
    assert_eq!(Bpe::load(&b"BPE"[..]), Err(ReadError::UnexpectedEof));
    let mut evil = Vec::new();
    evil.extend_from_slice(b"BPE1");
    evil.extend_from_slice(&1u32.to_le_bytes());
    evil.extend_from_slice(&300u32.to_le_bytes());
    evil.extend_from_slice(&0u32.to_le_bytes());
    assert_eq!(Bpe::load(evil.as_slice()), Err(ReadError::FutureToken(0, 300, 0)));
    let mut short = Vec::new();
    short.extend_from_slice(b"BPE1");
    short.extend_from_slice(&2u32.to_le_bytes());
    short.extend_from_slice(&97u32.to_le_bytes());
    assert_eq!(Bpe::load(short.as_slice()), Err(ReadError::UnexpectedEof));
}

#[test]
fn saved_bytes_are_magic_count_and_pairs() {
    let bpe = Bpe::from_merges(vec![(97, 98), (256, 99)]);
    let mut buf = Vec::new();
    bpe.save(&mut buf);
    let mut want = b"BPE1".to_vec();
    for n in [2u32, 97, 98, 256, 99] {
        want.extend_from_slice(&n.to_le_bytes());
    }
    assert_eq!(buf, want);
    assert_eq!(bpe.decode_bytes(&[257]), b"abc".to_vec());
    assert_eq!(bpe.size(), 258);
}

#[test]
fn broken_bytes_decode_to_replacement_characters() {
    let bpe = Bpe::from_merges(Vec::new());
    assert_eq!(bpe.decode(&[0x61, 0xFF, 0x62]), "a\u{FFFD}b");
}

#[test]
fn ties_go_to_the_smallest_pair() {
    let bpe = Bpe::train(b"cdab cdab", 257);
    assert_eq!(bpe.merges, vec![(b'a' as u32, b'b' as u32)]);
}

#[test]
fn merging_keeps_the_bytes() {
    let bpe = Bpe::train(b"banana bandana", 262);
    let ids = bpe.encode("banana band");
    assert!(ids.len() < "banana band".len());
    assert_eq!(bpe.decode_bytes(&ids), b"banana band".to_vec());
}

#[test]
fn encoding_the_corpus_ends_where_training_ended() {
    let corpus = "the theme thereof there, the other";
    let bpe = Bpe::train(corpus.as_bytes(), 512);
    assert!(bpe.size() < 512);
    let ids = bpe.encode(corpus);
    let mut pairs: Vec<(usize, usize)> = ids.windows(2).map(|p| (p[0], p[1])).collect();
    let total = pairs.len();
    pairs.sort();
    pairs.dedup();
    assert_eq!(pairs.len(), total);
}

#[test]
fn merged_tokens_stand_for_the_bytes_of_their_parts() {
    let bpe = Bpe::from_merges(vec![(104, 105), (256, 33)]);
    assert_eq!(bpe.size(), 258);
    assert_eq!(bpe.decode(&[104]), "h");
    assert_eq!(bpe.decode(&[256]), "hi");
    assert_eq!(bpe.decode(&[257, 256]), "hi!hi");
}
