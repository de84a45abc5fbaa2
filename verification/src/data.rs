//! Character vocabulary, training windows and the deterministic generator.
use crate::float::{deterministic, fbits, fcount, fdiv, Float};
use crate::tensor::copy_slice;
use std::collections::BTreeMap;
use vstd::pervasive::runtime_assert;
use vstd::prelude::*;
use vstd::slice::slice_subrange;
use vstd::std_specs::iter::IteratorSpec;

verus! {

/// Exchanges two items. The contract is believed of `<[T]>::swap`: the items
/// at `a` and `b` change places and nothing else moves. `swap` panics where
/// either is not an index, so both must be.
#[verifier::external_body]
fn exchange<T>(s: &mut [T], a: usize, b: usize)
    requires
        a < old(s)@.len(),
        b < old(s)@.len(),
    ensures
        final(s)@ == swapped(old(s)@, a as int, b as int),
{
    s.swap(a, b)
}

/// `String::push`: the character is appended.
pub assume_specification[ String::push ](s: &mut String, c: char)
    ensures
        final(s)@ == old(s)@.push(c),
;

/// The characters in strictly rising order of their code points.
pub open spec fn rising(s: Seq<char>) -> bool {
    forall|i: int, j: int| 0 <= i < j < s.len() ==> (#[trigger] s[i]) < (#[trigger] s[j])
}

/// A vocabulary of characters, numbered in the order of their code points.
pub struct Vocab {
    /// The number of each character, by its code point.
    pub char_to_id: BTreeMap<u32, usize>,
    /// The character of each number.
    pub id_to_char: Vec<char>,
}

/// The characters of a text, in order.
pub fn chars_of(text: &str) -> (r: Vec<char>)
    ensures
        r@ == text@,
{
    let mut out: Vec<char> = Vec::new();
    proof {
        broadcast use vstd::string::axiom_spec_iter;

    }
    for c in it: text.chars()
        invariant
            it.seq() == text@,
            out@ == text@.take(it.index()),
    {
        out.push(c);
        proof {
            assert(text@.take(it.index() + 1) =~= text@.take(it.index()).push(c));
        }
    }
    proof {
        assert(text@.take(text@.len() as int) =~= text@);
    }
    out
}

/// The first place whose character is not below `c`.
fn place_of(chars: &Vec<char>, c: char) -> (r: usize)
    requires
        rising(chars@),
    ensures
        r <= chars@.len(),
        forall|i: int| 0 <= i < r ==> chars@[i] < c,
        forall|i: int| r <= i < chars@.len() ==> c <= chars@[i],
{
    let mut lo: usize = 0;
    let mut hi: usize = chars.len();
    while lo < hi
        invariant
            lo <= hi <= chars@.len(),
            rising(chars@),
            forall|i: int| 0 <= i < lo ==> chars@[i] < c,
            forall|i: int| hi <= i < chars@.len() ==> c <= chars@[i],
        decreases hi - lo,
    {
        let mid: usize = lo + (hi - lo) / 2;
        if chars[mid] < c {
            lo = mid + 1;
        } else {
            hi = mid;
        }
    }
    lo
}

impl Vocab {
    /// The characters rise, and the map holds exactly their numbers.
    pub open spec fn wf(&self) -> bool {
        &&& rising(self.id_to_char@)
        &&& forall|i: int|
            0 <= i < self.id_to_char@.len() ==> {
                &&& self.char_to_id@.contains_key(#[trigger] self.id_to_char@[i] as u32)
                &&& self.char_to_id@[self.id_to_char@[i] as u32] == i
            }
        &&& forall|k: u32| #[trigger]
            self.char_to_id@.contains_key(k) ==> {
                &&& self.char_to_id@[k] < self.id_to_char@.len()
                &&& self.id_to_char@[self.char_to_id@[k] as int] as u32 == k
            }
    }

    /// The character is in the vocabulary.
    pub open spec fn knows(&self, c: char) -> bool {
        self.id_to_char@.contains(c)
    }

    /// Every character of the text is in the vocabulary.
    pub open spec fn covers(&self, text: Seq<char>) -> bool {
        forall|i: int| 0 <= i < text.len() ==> self.knows(#[trigger] text[i])
    }

    /// The number of each character.
    pub open spec fn encoded(&self, text: Seq<char>) -> Seq<usize> {
        Seq::new(text.len(), |i: int| self.char_to_id@[text[i] as u32])
    }

    /// The character of each number.
    pub open spec fn decoded(&self, ids: Seq<usize>) -> Seq<char> {
        Seq::new(ids.len(), |i: int| self.id_to_char@[ids[i] as int])
    }

    /// The vocabulary of the characters that occur in a text.
    pub fn from_text(text: &str) -> (r: Self)
        ensures
            r.wf(),
            forall|c: char| r.knows(c) <==> #[trigger] text@.contains(c),
    {
        let all = chars_of(text);
        let mut chars: Vec<char> = Vec::new();
        let mut k: usize = 0;
        while k < all.len()
            invariant
                k <= all@.len(),
                rising(chars@),
                forall|i: int| 0 <= i < k ==> chars@.contains(#[trigger] all@[i]),
                forall|j: int| 0 <= j < chars@.len() ==> all@.contains(#[trigger] chars@[j]),
            decreases all@.len() - k,
        {
            let c = all[k];
            let p: usize = place_of(&chars, c);
            if p == chars.len() || chars[p] != c {
                let ghost before = chars@;
                chars.insert(p, c);
                proof {
                    assert(chars@ =~= before.insert(p as int, c));
                    assert(chars@[p as int] == c);
                    assert forall|i: int| 0 <= i < k implies chars@.contains(#[trigger] all@[i]) by {
                        let j = choose|j: int| 0 <= j < before.len() && before[j] == all@[i];
                        if j < p {
                            assert(chars@[j] == all@[i]);
                        } else {
                            assert(chars@[j + 1] == all@[i]);
                        }
                    }
                    assert forall|i: int, j: int| 0 <= i < j < chars@.len() implies (
                    #[trigger] chars@[i]) < (#[trigger] chars@[j]) by {
                        if j < p {
                            assert(before[i] < before[j]);
                        } else if j > p && i < p {
                            assert(before[i] < before[j - 1]);
                        } else if i > p {
                            assert(before[i - 1] < before[j - 1]);
                        } else if j > p {
                            assert(c <= before[j - 1]);
                            if p < before.len() {
                                assert(before[p as int] != c);
                                if j - 1 > p {
                                    assert(before[p as int] < before[j - 1]);
                                }
                            }
                        }
                    }
                    assert forall|j: int| 0 <= j < chars@.len() implies all@.contains(
                        #[trigger] chars@[j],
                    ) by {
                        if j < p {
                            assert(all@.contains(before[j]));
                        } else if j > p {
                            assert(all@.contains(before[j - 1]));
                        } else {
                            assert(all@[k as int] == c);
                        }
                    }
                }
            } else {
                proof {
                    assert(chars@[p as int] == all@[k as int]);
                }
            }
            k += 1;
        }
        let r = Vocab { char_to_id: index_chars(&chars), id_to_char: chars };
        proof {
            assert forall|c: char| r.knows(c) <==> #[trigger] text@.contains(c) by {
                if text@.contains(c) {
                    let i = choose|i: int| 0 <= i < text@.len() && text@[i] == c;
                    assert(r.id_to_char@.contains(all@[i]));
                }
                if r.knows(c) {
                    let j = choose|j: int| 0 <= j < r.id_to_char@.len() && r.id_to_char@[j] == c;
                    assert(all@.contains(r.id_to_char@[j]));
                }
            }
        }
        r
    }

    /// The number of characters.
    pub fn size(&self) -> (r: usize)
        ensures
            r == self.id_to_char@.len(),
    {
        self.id_to_char.len()
    }

    /// Whether a character is in the vocabulary.
    pub fn can_encode_char(&self, c: char) -> (r: bool)
        requires
            self.wf(),
        ensures
            r == self.knows(c),
    {
        let k: u32 = c as u32;
        let r = self.char_to_id.contains_key(&k);
        proof {
            if r {
                assert(self.char_to_id@.contains_key(k));
                vstd::utf8::char_u32_cast(self.id_to_char@[self.char_to_id@[k] as int], self.id_to_char@[self.char_to_id@[k] as int] as u32);
                vstd::utf8::char_u32_cast(c, c as u32);
                assert(self.id_to_char@[self.char_to_id@[k] as int] == c);
            }
            if self.knows(c) {
                let i = choose|i: int| 0 <= i < self.id_to_char@.len() && self.id_to_char@[i] == c;
                assert(self.char_to_id@.contains_key(self.id_to_char@[i] as u32));
            }
        }
        r
    }

    /// Whether every character of a text is in the vocabulary.
    pub fn can_encode(&self, text: &str) -> (r: bool)
        requires
            self.wf(),
        ensures
            r == self.covers(text@),
    {
        let all = chars_of(text);
        let mut k: usize = 0;
        while k < all.len()
            invariant
                k <= all@.len(),
                all@ == text@,
                self.wf(),
                forall|i: int| 0 <= i < k ==> self.knows(#[trigger] text@[i]),
            decreases all@.len() - k,
        {
            if !self.can_encode_char(all[k]) {
                proof {
                    assert(!self.knows(text@[k as int]));
                }
                return false;
            }
            k += 1;
        }
        true
    }

    /// The number of each character of a text that the vocabulary covers.
    pub fn encode(&self, text: &str) -> (r: Vec<usize>)
        requires
            self.wf(),
            self.covers(text@),
        ensures
            r@ == self.encoded(text@),
            forall|i: int| 0 <= i < r@.len() ==> #[trigger] r@[i] < self.id_to_char@.len(),
    {
        let all = chars_of(text);
        let mut out: Vec<usize> = Vec::new();
        let mut k: usize = 0;
        while k < all.len()
            invariant
                k <= all@.len(),
                all@ == text@,
                self.wf(),
                self.covers(text@),
                out@ == self.encoded(text@).take(k as int),
                forall|i: int| 0 <= i < k ==> #[trigger] out@[i] < self.id_to_char@.len(),
            decreases all@.len() - k,
        {
            let c = all[k];
            proof {
                assert(self.knows(text@[k as int]));
                let i = choose|i: int| 0 <= i < self.id_to_char@.len() && self.id_to_char@[i] == c;
                assert(self.char_to_id@.contains_key(self.id_to_char@[i] as u32));
            }
            let key: u32 = c as u32;
            let found = self.char_to_id.get(&key);
            runtime_assert(found.is_some());
            if let Some(id) = found {
                out.push(*id);
            }
            k += 1;
            proof {
                assert(out@ =~= self.encoded(text@).take(k as int));
            }
        }
        proof {
            assert(out@ =~= self.encoded(text@));
        }
        out
    }

    /// The text that numbers of the vocabulary stand for.
    pub fn decode(&self, ids: &[usize]) -> (r: String)
        requires
            forall|i: int| 0 <= i < ids@.len() ==> #[trigger] ids@[i] < self.id_to_char@.len(),
        ensures
            r@ == self.decoded(ids@),
    {
        let mut out = String::new();
        let mut k: usize = 0;
        while k < ids.len()
            invariant
                k <= ids@.len(),
                forall|i: int| 0 <= i < ids@.len() ==> #[trigger] ids@[i] < self.id_to_char@.len(),
                out@ =~= self.decoded(ids@).take(k as int),
            decreases ids@.len() - k,
        {
            let id: usize = ids[k];
            out.push(self.id_to_char[id]);
            k += 1;
        }
        proof {
            assert(out@ =~= self.decoded(ids@));
        }
        out
    }
}

/// The place of each character, by its code point.
fn index_chars(chars: &Vec<char>) -> (r: BTreeMap<u32, usize>)
    requires
        rising(chars@),
    ensures
        forall|i: int|
            0 <= i < chars@.len() ==> r@.contains_key(#[trigger] chars@[i] as u32)
                && r@[chars@[i] as u32] == i,
        forall|k: u32| #[trigger]
            r@.contains_key(k) ==> r@[k] < chars@.len() && chars@[r@[k] as int] as u32 == k,
{
    let mut map: BTreeMap<u32, usize> = BTreeMap::new();
    let mut i: usize = 0;
    while i < chars.len()
        invariant
            i <= chars@.len(),
            rising(chars@),
            forall|j: int|
                0 <= j < i ==> map@.contains_key(#[trigger] chars@[j] as u32)
                    && map@[chars@[j] as u32] == j,
            forall|k: u32| #[trigger]
                map@.contains_key(k) ==> map@[k] < i && chars@[map@[k] as int] as u32 == k,
        decreases chars@.len() - i,
    {
        let key: u32 = chars[i] as u32;
        let ghost before = map@;
        map.insert(key, i);
        proof {
            assert(map@ == before.insert(key, i));
            assert forall|j: int| 0 <= j < i implies (#[trigger] chars@[j]) as u32 != key by {
                assert(chars@[j] < chars@[i as int]);
                vstd::utf8::char_u32_cast(chars@[j], chars@[j] as u32);
                vstd::utf8::char_u32_cast(chars@[i as int], chars@[i as int] as u32);
            }
        }
        i += 1;
    }
    map
}

/// What a vocabulary encodes it decodes to the same text.
pub proof fn law_vocab_round_trip(v: &Vocab, text: Seq<char>)
    requires
        v.wf(),
        v.covers(text),
    ensures
        v.decoded(v.encoded(text)) == text,
{
    assert forall|i: int| 0 <= i < text.len() implies v.decoded(v.encoded(text))[i] == text[i] by {
        assert(v.knows(text[i]));
        let j = choose|j: int| 0 <= j < v.id_to_char@.len() && v.id_to_char@[j] == text[i];
        assert(v.char_to_id@.contains_key(v.id_to_char@[j] as u32));
    }
    assert(v.decoded(v.encoded(text)) =~= text);
}

/// What a vocabulary decodes it encodes to the same numbers.
pub proof fn law_vocab_ids_round_trip(v: &Vocab, ids: Seq<usize>)
    requires
        v.wf(),
        forall|i: int| 0 <= i < ids.len() ==> #[trigger] ids[i] < v.id_to_char@.len(),
    ensures
        v.covers(v.decoded(ids)),
        v.encoded(v.decoded(ids)) == ids,
{
    let text = v.decoded(ids);
    assert forall|i: int| 0 <= i < ids.len() implies v.encoded(text)[i] == ids[i] && v.knows(
        #[trigger] text[i],
    ) by {
        assert(v.id_to_char@[ids[i] as int] == text[i]);
        assert(v.char_to_id@.contains_key(v.id_to_char@[ids[i] as int] as u32));
    }
    assert(v.encoded(text) =~= ids);
}

/// Two vocabularies of the same characters number them alike.
pub proof fn law_vocab_unique(a: &Vocab, b: &Vocab)
    requires
        a.wf(),
        b.wf(),
        forall|c: char| a.knows(c) <==> b.knows(c),
    ensures
        a.id_to_char@ == b.id_to_char@,
{
    assert forall|c: char| a.id_to_char@.contains(c) <==> b.id_to_char@.contains(c) by {
        assert(a.knows(c) <==> b.knows(c));
    }
    lemma_rising_unique(a.id_to_char@, b.id_to_char@);
}

/// A rising sequence is determined by what occurs in it.
proof fn lemma_rising_unique(s: Seq<char>, t: Seq<char>)
    requires
        rising(s),
        rising(t),
        forall|c: char| s.contains(c) <==> t.contains(c),
    ensures
        s == t,
    decreases s.len(),
{
    if s.len() == 0 {
        if t.len() > 0 {
            assert(t.contains(t[0]));
        }
        assert(s =~= t);
    } else {
        assert(s.contains(s[0]));
        assert(t.len() > 0);
        let (x, y) = (s.last(), t.last());
        assert(s.contains(x));
        assert(t.contains(y));
        let i = choose|i: int| 0 <= i < t.len() && t[i] == x;
        let j = choose|j: int| 0 <= j < s.len() && s[j] == y;
        if i < t.len() - 1 {
            assert(t[i] < t[t.len() - 1]);
        }
        if j < s.len() - 1 {
            assert(s[j] < s[s.len() - 1]);
        }
        assert(x == y);
        let (s1, t1) = (s.drop_last(), t.drop_last());
        assert(rising(s1)) by {
            assert forall|i: int, j: int| 0 <= i < j < s1.len() implies (#[trigger] s1[i]) < (
            #[trigger] s1[j]) by {
                assert(s[i] < s[j]);
            }
        }
        assert(rising(t1)) by {
            assert forall|i: int, j: int| 0 <= i < j < t1.len() implies (#[trigger] t1[i]) < (
            #[trigger] t1[j]) by {
                assert(t[i] < t[j]);
            }
        }
        assert forall|c: char| s1.contains(c) <==> t1.contains(c) by {
            if s1.contains(c) {
                let p = choose|p: int| 0 <= p < s1.len() && s1[p] == c;
                assert(s[p] == c && s[p] < s[s.len() - 1]);
                assert(t.contains(c));
                let q = choose|q: int| 0 <= q < t.len() && t[q] == c;
                assert(t1[q] == c);
            }
            if t1.contains(c) {
                let p = choose|p: int| 0 <= p < t1.len() && t1[p] == c;
                assert(t[p] == c && t[p] < t[t.len() - 1]);
                assert(s.contains(c));
                let q = choose|q: int| 0 <= q < s.len() && s[q] == c;
                assert(s1[q] == c);
            }
        }
        lemma_rising_unique(s1, t1);
        assert(s =~= s1.push(x));
        assert(t =~= t1.push(x));
    }
}

/// The training window at `i`: `seq_len` ids, and the ids one place further on.
pub open spec fn window_at(ids: Seq<usize>, seq_len: nat, i: int) -> (Seq<usize>, Seq<usize>) {
    (ids.subrange(i, i + seq_len), ids.subrange(i + 1, i + seq_len + 1))
}

/// Every window of `seq_len` ids with the window one place further on, in order.
pub fn make_windows(ids: &[usize], seq_len: usize) -> (r: Vec<(Vec<usize>, Vec<usize>)>)
    requires
        ids@.len() > seq_len,
    ensures
        r@.len() == ids@.len() - seq_len,
        forall|i: int|
            0 <= i < r@.len() ==> ((#[trigger] r@[i]).0@, r@[i].1@) == window_at(
                ids@,
                seq_len as nat,
                i,
            ),
{
    runtime_assert(ids.len() > seq_len);
    let n: usize = ids.len() - seq_len;
    let mut windows: Vec<(Vec<usize>, Vec<usize>)> = Vec::new();
    let mut i: usize = 0;
    while i < n
        invariant
            i <= n,
            n == ids@.len() - seq_len,
            ids@.len() <= usize::MAX,
            windows@.len() == i,
            forall|k: int|
                0 <= k < i ==> ((#[trigger] windows@[k]).0@, windows@[k].1@) == window_at(
                    ids@,
                    seq_len as nat,
                    k,
                ),
        decreases n - i,
    {
        let input = copy_slice(slice_subrange(ids, i, i + seq_len));
        let target = copy_slice(slice_subrange(ids, i + 1, i + seq_len + 1));
        windows.push((input, target));
        i += 1;
    }
    windows
}

/// In every window each target is the input that follows.
pub proof fn law_target_follows_input(ids: Seq<usize>, seq_len: nat, i: int, j: int)
    requires
        0 <= i < ids.len() - seq_len,
        0 <= j < seq_len - 1,
    ensures
        window_at(ids, seq_len, i).1[j] == window_at(ids, seq_len, i).0[j + 1],
{
}

/// The state that follows `s`.
pub open spec fn lcg_next(s: u64) -> u64 {
    ((s * 6364136223846793005 + 1442695040888963407) % 0x1_0000_0000_0000_0000) as u64
}

/// The state of a generator for a seed.
pub open spec fn lcg_start(seed: u64) -> u64 {
    ((seed + 1) % 0x1_0000_0000_0000_0000) as u64
}

/// The linear step in two wrapping operations.
pub(crate) proof fn lemma_lcg(s: u64)
    ensures
        vstd::wrapping::u64_specs::wrapping_add(
            vstd::wrapping::u64_specs::wrapping_mul(s, 6364136223846793005),
            1442695040888963407,
        ) == lcg_next(s),
{
    let m: int = 0x1_0000_0000_0000_0000;
    let p: int = s * 6364136223846793005;
    let c: int = 1442695040888963407;
    assert(0 <= p) by (nonlinear_arith)
        requires
            p == s * 6364136223846793005,
            s >= 0,
    ;
    vstd::arithmetic::div_mod::lemma_add_mod_noop_right(c, p, m);
    assert((c + p % m) % m == (c + p) % m);
    let q = p % m;
    if q + c >= m {
        vstd::arithmetic::div_mod::lemma_fundamental_div_mod_converse(q + c, m, 1, q + c - m);
    } else {
        vstd::arithmetic::div_mod::lemma_small_mod((q + c) as nat, m as nat);
    }
}

/// The bit pattern of 2 to the power of 24.
pub const TWO_POW_24: u32 = 0x4B80_0000;

/// A linear congruential generator.
#[derive(Debug, Clone)]
pub struct Lcg {
    pub state: u64,
}

impl Lcg {
    /// The generator for a seed.
    pub fn new(seed: u64) -> (r: Self)
        ensures
            r.state == lcg_start(seed),
    {
        Lcg { state: seed.wrapping_add(1) }
    }

    /// The next state, which is also the number drawn.
    pub fn next_u64(&mut self) -> (r: u64)
        ensures
            final(self).state == lcg_next(old(self).state),
            r == final(self).state,
    {
        proof {
            lemma_lcg(self.state);
        }
        self.state = self.state.wrapping_mul(6364136223846793005).wrapping_add(1442695040888963407);
        self.state
    }

    /// A number below `n`; 0, with nothing drawn, for `n` of 0.
    pub fn gen_range(&mut self, n: usize) -> (r: usize)
        ensures
            n == 0 ==> r == 0 && final(self).state == old(self).state,
            n > 0 ==> final(self).state == lcg_next(old(self).state) && r == final(self).state % (
            n as u64),
            n > 0 ==> r < n,
    {
        if n == 0 {
            return 0;
        }
        let x: u64 = self.next_u64();
        let r: u64 = x % (n as u64);
        r as usize
    }

    /// A number from 0 up to 1: the top 24 bits divided by 2 to the power of 24.
    pub fn next_f01<T: Float>(&mut self) -> (r: T)
        ensures
            final(self).state == lcg_next(old(self).state),
            deterministic::<T>() ==> r == unit_of::<T>(final(self).state),
    {
        let x: u64 = self.next_u64();
        proof {
            assert(x >> 40 < 0x100_0000) by (bit_vector);
        }
        let bits: usize = (x >> 40) as usize;
        T::from_count(bits).over(T::from_bits(TWO_POW_24))
    }
}

/// The top 24 bits of a state divided by 2 to the power of 24.
pub open spec fn unit_of<T: Float>(state: u64) -> T {
    fdiv(fcount::<T>((state >> 40) as usize), fbits::<T>(TWO_POW_24))
}

/// Two items of a sequence exchanged.
pub open spec fn swapped<T>(s: Seq<T>, i: int, j: int) -> Seq<T> {
    s.update(i, s[j]).update(j, s[i])
}

/// The sequence after places `i` down to 1 have each been exchanged with a
/// drawn place not above it, and the state after the draws.
pub open spec fn shuffled<T>(s: Seq<T>, state: u64, i: nat) -> (Seq<T>, u64)
    decreases i,
{
    if i == 0 {
        (s, state)
    } else {
        let next = lcg_next(state);
        shuffled(swapped(s, i as int, (next % ((i + 1) as u64)) as int), next, (i - 1) as nat)
    }
}

/// Shuffles a slice in place: from the last place down to the second, each is
/// exchanged with a drawn place not above it.
pub fn shuffle_in_place<T>(slice: &mut [T], rng: &mut Lcg)
    ensures
        old(slice)@.len() < 2 ==> final(slice)@ == old(slice)@ && final(rng).state
            == old(rng).state,
        old(slice)@.len() >= 2 ==> (final(slice)@, final(rng).state) == shuffled(
            old(slice)@,
            old(rng).state,
            (old(slice)@.len() - 1) as nat,
        ),
        final(slice)@.to_multiset() == old(slice)@.to_multiset(),
{
    let n: usize = slice.len();
    if n < 2 {
        return;
    }
    let ghost start = slice@;
    let ghost seed = rng.state;
    let mut i: usize = n - 1;
    while i > 0
        invariant
            i < n,
            n == slice@.len(),
            shuffled(slice@, rng.state, i as nat) == shuffled(start, seed, (n - 1) as nat),
            slice@.to_multiset() == start.to_multiset(),
        decreases i,
    {
        let j: usize = rng.gen_range(i + 1);
        let ghost before = slice@;
        exchange(slice, i, j);
        proof {
            lemma_swap_keeps(before, i as int, j as int);
        }
        i -= 1;
    }
}

/// An exchange keeps what a sequence holds.
proof fn lemma_swap_keeps<T>(s: Seq<T>, i: int, j: int)
    requires
        0 <= i < s.len(),
        0 <= j < s.len(),
    ensures
        swapped(s, i, j).to_multiset() == s.to_multiset(),
{
    broadcast use vstd::seq_lib::group_to_multiset_ensures;

    let a = s.update(i, s[j]);
    assert(a[j] == s[j]);
    assert(s.contains(s[i]));
    assert(s.to_multiset().count(s[i]) > 0);
    vstd::seq_lib::to_multiset_update(s, i, s[j]);
    vstd::seq_lib::to_multiset_update(a, j, s[i]);
    assert(a.to_multiset() == s.to_multiset().insert(s[j]).remove(s[i]));
    assert(swapped(s, i, j).to_multiset() =~= s.to_multiset());
}

/// A few lines to train on.
pub const TINY_CORPUS: &'static str = "\
to be or not to be that is the question
whether tis nobler in the mind to suffer
the slings and arrows of outrageous fortune
or to take arms against a sea of troubles
";

} // verus!
