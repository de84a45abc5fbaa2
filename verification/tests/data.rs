//! The character vocabulary, training windows, the generator and the shuffle.
use bitnet::data::{make_windows, shuffle_in_place, Lcg, Vocab, TINY_CORPUS};

#[test]
fn vocab_dedups_and_sorts_by_char_ordinal() {
    let v = Vocab::from_text("baba");
    assert_eq!(v.size(), 2);
    assert_eq!(v.id_to_char, vec!['a', 'b']);
    assert_eq!(v.char_to_id[&('a' as u32)], 0);
    assert_eq!(v.char_to_id[&('b' as u32)], 1);
}

#[test]
fn encode_decode_roundtrip() {
    let v = Vocab::from_text(TINY_CORPUS);
    let s = "to be or not to be";
    let ids = v.encode(s);
    let back = v.decode(&ids);
    assert_eq!(back, s, "encode→decode must be identity");
}

#[test]
#[should_panic]
fn encode_panics_on_char_outside_vocab() {
    let v = Vocab::from_text("abc");
    let _ = v.encode("z");
}

#[test]
fn can_encode_reports_vocab_membership() {
    let v = Vocab::from_text("abc");
    assert!(v.can_encode("cab"));
    assert!(v.can_encode("")); // vacuously encodable
    assert!(!v.can_encode("abz"));
}

#[test]
fn make_windows_produces_correct_pairs() {
    let ids = vec![1, 2, 3, 4, 5, 6, 7];
    let w = make_windows(&ids, 3);
    assert_eq!(w.len(), 4);
    assert_eq!(w[0], (vec![1, 2, 3], vec![2, 3, 4]));
    assert_eq!(w[3], (vec![4, 5, 6], vec![5, 6, 7]));
}

#[test]
#[should_panic]
fn make_windows_panics_when_corpus_too_short() {
    let _ = make_windows(&[1, 2, 3], 3);
}

#[test]
fn tiny_corpus_yields_reasonable_vocab_and_encoding() {
    let v = Vocab::from_text(TINY_CORPUS);

    assert!(
        v.size() >= 20,
        "vocab size {} too small for tiny corpus",
        v.size()
    );

    let ids = v.encode(TINY_CORPUS);
    let back = v.decode(&ids);
    assert_eq!(
        back, TINY_CORPUS,
        "full-corpus encode→decode must be identity"
    );
    assert_eq!(ids.len(), TINY_CORPUS.chars().count());
}

#[test]
fn generator_follows_its_recurrence() {
    let mut rng = Lcg::new(5);
    let first = rng.next_u64();
    assert_eq!(rng.state, first);
    assert_eq!(rng.next_u64(), first.wrapping_mul(6364136223846793005).wrapping_add(1442695040888963407));
    for _ in 0..100 {
        assert!(rng.gen_range(7) < 7);
    }
}

#[test]
fn shuffling_keeps_every_item() {
    let mut items: Vec<u32> = (0..50).collect();
    let mut rng = Lcg::new(9);
    shuffle_in_place(&mut items, &mut rng);
    assert_ne!(items, (0..50).collect::<Vec<u32>>());
    let mut sorted = items.clone();
    sorted.sort();
    assert_eq!(sorted, (0..50).collect::<Vec<u32>>());

    let mut again: Vec<u32> = (0..50).collect();
    let mut same = Lcg::new(9);
    shuffle_in_place(&mut again, &mut same);
    assert_eq!(again, items);
}

#[test]
fn decoding_pushes_every_character() {
    let v = Vocab::from_text("caf\u{00e9} \u{4e16}");
    let ids = v.encode("\u{4e16}\u{00e9}");
    assert_eq!(v.decode(&ids), "\u{4e16}\u{00e9}");
    assert!(v.can_encode_char('\u{00e9}'));
    assert!(!v.can_encode_char('z'));
}

#[test]
fn ids_decode_and_encode_back() {
    let v = Vocab::from_text("hello");
    let ids: Vec<usize> = vec![3, 0, 1, 2, 2];
    assert_eq!(v.encode(&v.decode(&ids)), ids);
}

#[test]
fn each_target_is_the_next_input() {
    let ids: Vec<usize> = (10..20).collect();
    let w = make_windows(&ids, 4);
    for (input, target) in &w {
        assert_eq!(input[1..], target[..3]);
    }
    assert_eq!(w.last().unwrap().1.last(), ids.last());
}

#[test]
fn text_order_does_not_change_the_vocabulary() {
    let a = Vocab::from_text("abcabc");
    let b = Vocab::from_text("cba");
    assert_eq!(a.id_to_char, b.id_to_char);
}
