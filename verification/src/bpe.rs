//! Byte-pair encoding over bytes.
use crate::codec::{get_u32, lemma_u32_at, lemma_u32_bytes, put_u32, u32_at, u32_bytes, ReadError};
use std::collections::HashMap;
use vstd::pervasive::runtime_assert;
use vstd::prelude::*;
use vstd::string::StringSliceAdditionalSpecFns;
use vstd::utf8::{decode_utf8, encode_utf8, valid_utf8};

verus! {

/// The number of single-byte tokens.
pub const BPE_BASE: usize = 256;

/// The leading bytes of a saved tokeniser, "BPE1", as a little-endian number.
pub const BPE_MAGIC: u32 = 0x3145_5042;

/// The stream with every occurrence of the pair, taken from the left, replaced by `id`.
pub open spec fn merged(s: Seq<u32>, pair: (u32, u32), id: u32) -> Seq<u32>
    decreases s.len(),
{
    if s.len() == 0 {
        seq![]
    } else if s.len() >= 2 && s[0] == pair.0 && s[1] == pair.1 {
        seq![id] + merged(s.skip(2), pair, id)
    } else {
        seq![s[0]] + merged(s.skip(1), pair, id)
    }
}

/// How often two neighbouring tokens of the stream are the pair.
pub open spec fn pair_count(s: Seq<u32>, p: (u32, u32)) -> nat
    decreases s.len(),
{
    if s.len() < 2 {
        0
    } else {
        pair_count(s.drop_last(), p) + if s[s.len() - 2] == p.0 && s[s.len() - 1] == p.1 {
            1nat
        } else {
            0nat
        }
    }
}

/// The order of pairs: by the first token, then by the second.
pub open spec fn pair_below(p: (u32, u32), q: (u32, u32)) -> bool {
    p.0 < q.0 || (p.0 == q.0 && p.1 < q.1)
}

/// `p` occurs more often than `q`, or as often and does not come after it.
pub open spec fn not_worse(s: Seq<u32>, p: (u32, u32), q: (u32, u32)) -> bool {
    pair_count(s, q) < pair_count(s, p) || (pair_count(s, q) == pair_count(s, p) && !pair_below(
        q,
        p,
    ))
}

/// `p` is the most frequent pair, the least of those where several are.
pub open spec fn is_best(s: Seq<u32>, p: (u32, u32)) -> bool {
    pair_count(s, p) > 0 && forall|q: (u32, u32)| #[trigger] not_worse(s, p, q)
}

/// The most frequent pair.
pub open spec fn best_pair(s: Seq<u32>) -> (u32, u32) {
    choose|p: (u32, u32)| is_best(s, p)
}

/// Some pair occurs at least twice.
pub open spec fn repeats(s: Seq<u32>) -> bool {
    exists|p: (u32, u32)| #[trigger] pair_count(s, p) >= 2
}

/// The token that the merge of a rank makes, held in 32 bits.
pub open spec fn new_token(rank: nat) -> u32 {
    #[verifier::truncate]
    ((BPE_BASE + rank) as u32)
}

/// The merges learned from a stream, at most `left` of them, the first of rank `rank`:
/// again and again the most frequent pair is replaced by a new token, until no
/// pair occurs twice.
pub open spec fn learned(s: Seq<u32>, rank: nat, left: nat) -> Seq<(u32, u32)>
    decreases left,
{
    if left == 0 || !repeats(s) {
        seq![]
    } else {
        let p = best_pair(s);
        seq![p] + learned(merged(s, p, new_token(rank)), rank + 1, (left - 1) as nat)
    }
}

/// The bytes as single-byte tokens.
pub open spec fn byte_tokens(bytes: Seq<u8>) -> Seq<u32> {
    Seq::new(bytes.len(), |i: int| bytes[i] as u32)
}

/// Every merge joins tokens that exist before it.
pub open spec fn valid_merges(m: Seq<(u32, u32)>) -> bool {
    forall|i: int| 0 <= i < m.len() ==> (#[trigger] m[i]).0 < BPE_BASE + i && m[i].1 < BPE_BASE + i
}

/// The bytes a token stands for.
pub open spec fn expand(m: Seq<(u32, u32)>, id: nat) -> Seq<u8>
    decreases id,
{
    if id < BPE_BASE {
        seq![id as u8]
    } else if id - BPE_BASE < m.len() && m[id - BPE_BASE].0 < id && m[id - BPE_BASE].1 < id {
        expand(m, m[id - BPE_BASE].0 as nat) + expand(m, m[id - BPE_BASE].1 as nat)
    } else {
        seq![]
    }
}

/// The bytes a sequence of tokens stands for.
pub open spec fn expand_all(m: Seq<(u32, u32)>, ids: Seq<usize>) -> Seq<u8>
    decreases ids.len(),
{
    if ids.len() == 0 {
        seq![]
    } else {
        expand(m, ids[0] as nat) + expand_all(m, ids.skip(1))
    }
}

/// The tokens as indices.
pub open spec fn widened(s: Seq<u32>) -> Seq<usize> {
    Seq::new(s.len(), |i: int| s[i] as usize)
}

/// The stream after the first `k` merges have been applied in order.
pub open spec fn applied(m: Seq<(u32, u32)>, s: Seq<u32>, k: nat) -> Seq<u32>
    decreases k,
{
    if k == 0 {
        s
    } else {
        merged(applied(m, s, (k - 1) as nat), m[k - 1], new_token((k - 1) as nat))
    }
}

/// The tokens of a byte string.
pub open spec fn tokens_of(m: Seq<(u32, u32)>, bytes: Seq<u8>) -> Seq<usize> {
    widened(applied(m, byte_tokens(bytes), m.len()))
}

/// The bytes of a list of merges.
pub open spec fn merge_bytes(m: Seq<(u32, u32)>) -> Seq<u8>
    decreases m.len(),
{
    if m.len() == 0 {
        seq![]
    } else {
        merge_bytes(m.drop_last()) + u32_bytes(m.last().0) + u32_bytes(m.last().1)
    }
}

/// The bytes of a saved tokeniser.
pub open spec fn saved(m: Seq<(u32, u32)>) -> Seq<u8> {
    u32_bytes(BPE_MAGIC) + u32_bytes(#[verifier::truncate] (m.len() as u32)) + merge_bytes(m)
}

/// What reading merges `k` to `n` from `pos` gives, after `m` were read.
pub open spec fn read_merges(buf: Seq<u8>, pos: int, m: Seq<(u32, u32)>, n: nat) -> Result<
    Seq<(u32, u32)>,
    ReadError,
>
    decreases n - m.len(),
{
    if m.len() >= n {
        Ok(m)
    } else if buf.len() - pos < 8 {
        Err(ReadError::UnexpectedEof)
    } else {
        let (a, b) = (u32_at(buf, pos), u32_at(buf, pos + 4));
        let limit = #[verifier::truncate] ((BPE_BASE + m.len()) as u32);
        if a >= limit || b >= limit {
            Err(ReadError::FutureToken(m.len() as usize, a, b))
        } else {
            read_merges(buf, pos + 8, m.push((a, b)), n)
        }
    }
}

/// What reading a saved tokeniser at `pos` gives.
pub open spec fn loaded(buf: Seq<u8>, pos: int) -> Result<Seq<(u32, u32)>, ReadError> {
    if buf.len() - pos < 4 {
        Err(ReadError::UnexpectedEof)
    } else if u32_at(buf, pos) != BPE_MAGIC {
        Err(ReadError::BadMagic)
    } else if buf.len() - pos < 8 {
        Err(ReadError::UnexpectedEof)
    } else {
        read_merges(buf, pos + 8, seq![], u32_at(buf, pos + 4) as nat)
    }
}

/// What `String::from_utf8_lossy` makes of bytes.
pub uninterp spec fn lossy_text(bytes: Seq<u8>) -> Seq<char>;

/// The text of bytes. The contract is believed of `String::from_utf8_lossy`: its
/// result depends on the bytes alone, and bytes that are valid UTF-8 give the
/// text they encode. What stands in for invalid bytes is left unsaid.
#[verifier::external_body]
fn text_of(bytes: &[u8]) -> (r: String)
    ensures
        r@ == lossy_text(bytes@),
        valid_utf8(bytes@) ==> r@ == decode_utf8(bytes@),
{
    String::from_utf8_lossy(bytes).into_owned()
}

/// A byte-pair tokeniser.
#[derive(Debug, Clone, PartialEq, Eq)]
pub struct Bpe {
    /// The pairs, in the order in which they are merged.
    pub merges: Vec<(u32, u32)>,
    /// The bytes of each token.
    pub token_bytes: Vec<Vec<u8>>,
}

/// Every token of the stream is below `n`.
pub open spec fn tokens_below(s: Seq<u32>, n: int) -> bool {
    forall|i: int| 0 <= i < s.len() ==> (#[trigger] s[i]) < n
}

/// A merge makes no token but the new one, and no stream longer.
proof fn lemma_merged_tokens(s: Seq<u32>, pair: (u32, u32), id: u32, n: int)
    requires
        tokens_below(s, n),
        id <= n,
    ensures
        tokens_below(merged(s, pair, id), n + 1),
        merged(s, pair, id).len() <= s.len(),
    decreases s.len(),
{
    if s.len() > 0 {
        let k: int = if s.len() >= 2 && s[0] == pair.0 && s[1] == pair.1 {
            2
        } else {
            1
        };
        let rest = s.skip(k);
        assert forall|i: int| 0 <= i < rest.len() implies (#[trigger] rest[i]) < n by {
            assert(rest[i] == s[i + k]);
        }
        lemma_merged_tokens(rest, pair, id, n);
        let tail = merged(rest, pair, id);
        let head: u32 = if k == 2 {
            id
        } else {
            s[0]
        };
        let all = seq![head] + tail;
        assert(merged(s, pair, id) == all);
        assert forall|i: int| 0 <= i < all.len() implies (#[trigger] all[i]) < n + 1 by {
            if i > 0 {
                assert(all[i] == tail[i - 1]);
            }
        }
    }
}

/// Replaces every occurrence of the pair, taken from the left, by `new_id`.
fn merge_pass(stream: &[u32], pair: (u32, u32), new_id: u32) -> (r: Vec<u32>)
    ensures
        r@ == merged(stream@, pair, new_id),
{
    let mut out: Vec<u32> = Vec::new();
    let mut i: usize = 0;
    proof {
        assert(stream@.skip(0) =~= stream@);
        assert(out@ + merged(stream@, pair, new_id) =~= merged(stream@, pair, new_id));
    }
    while i < stream.len()
        invariant
            i <= stream@.len(),
            out@ + merged(stream@.skip(i as int), pair, new_id) == merged(stream@, pair, new_id),
        decreases stream@.len() - i,
    {
        let ghost rest = stream@.skip(i as int);
        let ghost before = out@;
        if i < stream.len() - 1 && stream[i] == pair.0 && stream[i + 1] == pair.1 {
            out.push(new_id);
            proof {
                assert(rest.skip(2) =~= stream@.skip(i + 2));
                assert(out@ + merged(stream@.skip(i + 2), pair, new_id) =~= before + merged(
                    rest,
                    pair,
                    new_id,
                ));
            }
            i += 2;
        } else {
            out.push(stream[i]);
            proof {
                assert(rest.skip(1) =~= stream@.skip(i + 1));
                assert(out@ + merged(stream@.skip(i + 1), pair, new_id) =~= before + merged(
                    rest,
                    pair,
                    new_id,
                ));
            }
            i += 1;
        }
    }
    proof {
        assert(out@ + merged(stream@.skip(i as int), pair, new_id) =~= out@);
    }
    out
}

/// A pair as one number.
pub open spec fn pair_key(p: (u32, u32)) -> u64 {
    (p.0 * 0x1_0000_0000 + p.1) as u64
}

/// Two pairs with one number are one pair.
proof fn lemma_pair_key(p: (u32, u32), q: (u32, u32))
    ensures
        pair_key(p) == pair_key(q) ==> p == q,
        pair_key(p) == p.0 * 0x1_0000_0000 + p.1,
{
}

/// A stream has fewer pairs than tokens.
proof fn lemma_count_bound(s: Seq<u32>, p: (u32, u32))
    ensures
        pair_count(s, p) <= s.len(),
    decreases s.len(),
{
    if s.len() >= 2 {
        lemma_count_bound(s.drop_last(), p);
    }
}

/// A pair that counts stands somewhere.
proof fn lemma_count_occurs(s: Seq<u32>, p: (u32, u32)) -> (j: int)
    requires
        pair_count(s, p) > 0,
    ensures
        1 <= j < s.len(),
        s[j - 1] == p.0 && s[j] == p.1,
    decreases s.len(),
{
    if s[s.len() - 2] == p.0 && s[s.len() - 1] == p.1 {
        s.len() - 1
    } else {
        lemma_count_occurs(s.drop_last(), p)
    }
}

/// A pair that stands somewhere counts.
proof fn lemma_occurs_count(s: Seq<u32>, j: int)
    requires
        1 <= j < s.len(),
    ensures
        pair_count(s, (s[j - 1], s[j])) > 0,
    decreases s.len(),
{
    if j < s.len() - 1 {
        lemma_occurs_count(s.drop_last(), j);
    }
}

/// There is one best pair.
proof fn lemma_best_unique(s: Seq<u32>, p: (u32, u32), q: (u32, u32))
    requires
        is_best(s, p),
        is_best(s, q),
    ensures
        p == q,
{
    assert(not_worse(s, p, q));
    assert(not_worse(s, q, p));
}

/// Counts the pairs of neighbouring tokens.
fn count_pairs(stream: &[u32]) -> (r: HashMap<u64, usize>)
    ensures
        forall|p: (u32, u32)|
            pair_count(stream@, p) == if r@.contains_key(#[trigger] pair_key(p)) {
                r@[pair_key(p)] as nat
            } else {
                0
            },
{
    broadcast use vstd::std_specs::hash::group_hash_axioms;

    let mut counts: HashMap<u64, usize> = HashMap::new();
    let mut i: usize = 1;
    proof {
        if stream@.len() > 0 {
            assert(stream@.take(1).len() == 1);
        }
    }
    while i < stream.len()
        invariant
            1 <= i,
            i <= stream@.len() || stream@.len() == 0,
            stream@.len() > 0 ==> forall|p: (u32, u32)|
                pair_count(stream@.take(i as int), p) == if counts@.contains_key(
                    #[trigger] pair_key(p),
                ) {
                    counts@[pair_key(p)] as nat
                } else {
                    0
                },
            stream@.len() == 0 ==> counts@ == Map::<u64, usize>::empty(),
            vstd::std_specs::hash::obeys_key_model::<u64>(),
        decreases stream@.len() - i,
    {
        let key: u64 = (stream[i - 1] as u64) * 0x1_0000_0000 + (stream[i] as u64);
        let ghost pair = (stream@[i - 1], stream@[i as int]);
        let ghost before = counts@;
        proof {
            assert(key == pair_key(pair));
            lemma_count_bound(stream@.take(i as int), pair);
        }
        let c: usize = match counts.get(&key) {
            Some(c) => *c,
            None => 0,
        };
        proof {
            assert(c == pair_count(stream@.take(i as int), pair));
        }
        counts.insert(key, c + 1);
        proof {
            let s1 = stream@.take(i + 1);
            assert(s1.drop_last() =~= stream@.take(i as int));
            assert forall|p: (u32, u32)|
                pair_count(s1, p) == if counts@.contains_key(#[trigger] pair_key(p)) {
                    counts@[pair_key(p)] as nat
                } else {
                    0
                } by {
                lemma_pair_key(p, pair);
                assert(pair_count(stream@.take(i as int), p) == if before.contains_key(
                    pair_key(p),
                ) {
                    before[pair_key(p)] as nat
                } else {
                    0
                });
            }
        }
        i += 1;
    }
    proof {
        if stream@.len() > 0 {
            assert(stream@.take(i as int) =~= stream@);
        }
    }
    counts
}

/// The most frequent pair and how often it occurs, where there is a pair.
fn most_frequent(stream: &[u32]) -> (r: Option<((u32, u32), usize)>)
    ensures
        match r {
            Some(best) => is_best(stream@, best.0) && best.1 == pair_count(stream@, best.0),
            None => stream@.len() < 2,
        },
{
    if stream.len() < 2 {
        return None;
    }
    broadcast use vstd::std_specs::hash::group_hash_axioms;

    let counts = count_pairs(stream);
    let mut best: (u32, u32) = (stream[0], stream[1]);
    let mut best_count: usize = 0;
    let mut i: usize = 1;
    while i < stream.len()
        invariant
            1 <= i <= stream@.len(),
            stream@.len() >= 2,
            vstd::std_specs::hash::obeys_key_model::<u64>(),
            forall|p: (u32, u32)|
                pair_count(stream@, p) == if counts@.contains_key(#[trigger] pair_key(p)) {
                    counts@[pair_key(p)] as nat
                } else {
                    0
                },
            i == 1 ==> best_count == 0,
            i > 1 ==> best_count > 0 && best_count == pair_count(stream@, best),
            i > 1 ==> forall|j: int|
                1 <= j < i ==> not_worse(
                    stream@,
                    best,
                    (#[trigger] stream@[j - 1], #[trigger] stream@[j]),
                ),
        decreases stream@.len() - i,
    {
        let pair: (u32, u32) = (stream[i - 1], stream[i]);
        let key: u64 = (pair.0 as u64) * 0x1_0000_0000 + (pair.1 as u64);
        proof {
            assert(key == pair_key(pair));
            lemma_occurs_count(stream@, i as int);
        }
        let c: usize = match counts.get(&key) {
            Some(c) => *c,
            None => 0,
        };
        let ghost old_best = best;
        proof {
            assert(c == pair_count(stream@, pair));
        }
        if c > best_count || (c == best_count && (pair.0 < best.0 || (pair.0 == best.0 && pair.1
            < best.1))) {
            best = pair;
            best_count = c;
        }
        i += 1;
        proof {
            assert forall|j: int| 1 <= j < i implies not_worse(
                stream@,
                best,
                (#[trigger] stream@[j - 1], #[trigger] stream@[j]),
            ) by {
                if j < i - 1 {
                    assert(not_worse(stream@, old_best, (stream@[j - 1], stream@[j])));
                }
            }
        }
    }
    proof {
        assert forall|q: (u32, u32)| #[trigger] not_worse(stream@, best, q) by {
            if pair_count(stream@, q) > 0 {
                let j = lemma_count_occurs(stream@, q);
                assert(not_worse(stream@, best, (stream@[j - 1], stream@[j])));
                assert(q == (stream@[j - 1], stream@[j]));
            }
        }
    }
    Some((best, best_count))
}

/// What is learned joins tokens that exist, and there is at most `left` of it.
proof fn lemma_learned(s: Seq<u32>, rank: nat, left: nat)
    requires
        tokens_below(s, BPE_BASE + rank),
    ensures
        learned(s, rank, left).len() <= left,
        forall|i: int|
            0 <= i < learned(s, rank, left).len() ==> {
                &&& (#[trigger] learned(s, rank, left)[i]).0 < BPE_BASE + rank + i
                &&& learned(s, rank, left)[i].1 < BPE_BASE + rank + i
            },
    decreases left,
{
    if left > 0 && repeats(s) {
        let p = best_pair(s);
        lemma_has_best(s);
        let j = lemma_count_occurs(s, p);
        assert(s[j - 1] < BPE_BASE + rank && s[j] < BPE_BASE + rank);
        let id = new_token(rank);
        lemma_merged_tokens(s, p, id, BPE_BASE + rank);
        let rest = learned(merged(s, p, id), rank + 1, (left - 1) as nat);
        lemma_learned(merged(s, p, id), rank + 1, (left - 1) as nat);
        let all = learned(s, rank, left);
        assert(all == seq![p] + rest);
        assert forall|i: int| 0 <= i < all.len() implies (#[trigger] all[i]).0 < BPE_BASE + rank + i
            && all[i].1 < BPE_BASE + rank + i by {
            if i > 0 {
                assert(all[i] == rest[i - 1]);
            }
        }
    }
}

/// Where a pair repeats there is a best one, and it repeats.
pub proof fn lemma_has_best(s: Seq<u32>)
    requires
        repeats(s),
    ensures
        is_best(s, best_pair(s)),
        pair_count(s, best_pair(s)) >= 2,
{
    let p = choose|p: (u32, u32)| #[trigger] pair_count(s, p) >= 2;
    lemma_best_exists(s, p);
    assert(not_worse(s, best_pair(s), p));
}

/// From any pair that occurs one comes to a best one.
proof fn lemma_best_exists(s: Seq<u32>, p: (u32, u32))
    requires
        pair_count(s, p) > 0,
    ensures
        exists|q: (u32, u32)| is_best(s, q),
    decreases s.len() - pair_count(s, p), p.0, p.1,
{
    lemma_count_bound(s, p);
    if !is_best(s, p) {
        let q = choose|q: (u32, u32)| !#[trigger] not_worse(s, p, q);
        lemma_count_bound(s, q);
        lemma_best_exists(s, q);
    }
}

impl Bpe {
    /// The merges are valid and the byte table holds what each token stands for.
    pub open spec fn wf(&self) -> bool {
        &&& valid_merges(self.merges@)
        &&& self.token_bytes@.len() == BPE_BASE + self.merges@.len()
        &&& forall|i: int|
            0 <= i < self.token_bytes@.len() ==> (#[trigger] self.token_bytes@[i])@ == expand(
                self.merges@,
                i as nat,
            )
    }

    /// Learns merges from a corpus until the vocabulary has `vocab_size` tokens
    /// or no pair occurs twice.
    pub fn train(corpus: &[u8], vocab_size: usize) -> (r: Bpe)
        requires
            BPE_BASE < vocab_size,
        ensures
            r.wf(),
            r.merges@ == learned(byte_tokens(corpus@), 0, (vocab_size - BPE_BASE) as nat),
            r.merges@.len() <= vocab_size - BPE_BASE,
    {
        runtime_assert(vocab_size > BPE_BASE);
        let mut stream: Vec<u32> = widen_bytes(corpus);
        let ghost start = stream@;
        let mut merges: Vec<(u32, u32)> = Vec::new();
        let mut rank: usize = 0;
        let total: usize = vocab_size - BPE_BASE;
        let mut more: bool = true;
        proof {
            assert(merges@ + learned(start, 0, total as nat) =~= learned(start, 0, total as nat));
        }
        while more && rank < total
            invariant
                rank <= total,
                total == vocab_size - BPE_BASE,
                tokens_below(stream@, BPE_BASE + rank),
                more ==> merges@ + learned(stream@, rank as nat, (total - rank) as nat) == learned(
                    start,
                    0,
                    total as nat,
                ),
                !more ==> merges@ == learned(start, 0, total as nat),
            decreases
                total - rank,
                if more {
                    1int
                } else {
                    0int
                },
        {
            match most_frequent(stream.as_slice()) {
                None => {
                    proof {
                        assert(!repeats(stream@));
                        assert(merges@ + Seq::<(u32, u32)>::empty() =~= merges@);
                    }
                    more = false;
                },
                Some(best) => {
                    let (pair, count) = best;
                    if count < 2 {
                        proof {
                            assert forall|p: (u32, u32)| #[trigger] pair_count(stream@, p) < 2 by {
                                assert(not_worse(stream@, pair, p));
                            }
                            assert(!repeats(stream@));
                            assert(merges@ + Seq::<(u32, u32)>::empty() =~= merges@);
                        }
                        more = false;
                    } else {
                        let new_id: u32 = #[verifier::truncate] ((BPE_BASE + rank) as u32);
                        let ghost before = stream@;
                        let ghost done = merges@;
                        proof {
                            assert(pair_count(stream@, pair) >= 2);
                            lemma_has_best(stream@);
                            lemma_best_unique(stream@, pair, best_pair(stream@));
                            lemma_merged_tokens(stream@, pair, new_id, BPE_BASE + rank);
                        }
                        merges.push(pair);
                        stream = merge_pass(stream.as_slice(), pair, new_id);
                        rank += 1;
                        proof {
                            let rest = learned(stream@, rank as nat, (total - rank) as nat);
                            assert(learned(before, (rank - 1) as nat, (total - rank + 1) as nat)
                                == seq![pair] + rest);
                            assert(merges@ + rest =~= done + (seq![pair] + rest));
                        }
                    }
                },
            }
        }
        proof {
            if more {
                assert(merges@ + Seq::<(u32, u32)>::empty() =~= merges@);
            }
            lemma_learned(start, 0, total as nat);
        }
        Bpe::from_merges(merges)
    }

    /// The tokeniser with these merges.
    pub fn from_merges(merges: Vec<(u32, u32)>) -> (r: Bpe)
        requires
            valid_merges(merges@),
        ensures
            r.wf(),
            r.merges@ == merges@,
    {
        let mut token_bytes: Vec<Vec<u8>> = Vec::new();
        let mut b: usize = 0;
        while b < BPE_BASE
            invariant
                b <= BPE_BASE,
                token_bytes@.len() == b,
                forall|i: int|
                    0 <= i < b ==> (#[trigger] token_bytes@[i])@ == expand(merges@, i as nat),
            decreases BPE_BASE - b,
        {
            let mut bytes: Vec<u8> = Vec::new();
            bytes.push(b as u8);
            proof {
                assert(bytes@ =~= expand(merges@, b as nat));
            }
            token_bytes.push(bytes);
            b += 1;
        }
        let mut k: usize = 0;
        while k < merges.len()
            invariant
                k <= merges@.len(),
                valid_merges(merges@),
                token_bytes@.len() == BPE_BASE + k,
                forall|i: int|
                    0 <= i < BPE_BASE + k ==> (#[trigger] token_bytes@[i])@ == expand(
                        merges@,
                        i as nat,
                    ),
            decreases merges@.len() - k,
        {
            let (a, b) = merges[k];
            proof {
                assert(merges@[k as int].0 < BPE_BASE + k);
            }
            let mut bytes = crate::tensor::copy_slice(token_bytes[a as usize].as_slice());
            let mut more = crate::tensor::copy_slice(token_bytes[b as usize].as_slice());
            bytes.append(&mut more);
            proof {
                assert(bytes@ =~= expand(merges@, (BPE_BASE + k) as nat));
            }
            token_bytes.push(bytes);
            k += 1;
        }
        Bpe { merges, token_bytes }
    }

    /// The number of tokens.
    pub fn size(&self) -> (r: usize)
        requires
            self.wf(),
        ensures
            r == BPE_BASE + self.merges@.len(),
    {
        proof {
            assert(self.token_bytes@.len() == self.token_bytes.len());
        }
        BPE_BASE + self.merges.len()
    }

    /// The tokens of a text: its bytes, with every merge applied in order.
    pub fn encode(&self, text: &str) -> (r: Vec<usize>)
        requires
            self.wf(),
        ensures
            r@ == tokens_of(self.merges@, encode_utf8(text@)),
            forall|i: int| 0 <= i < r@.len() ==> #[trigger] r@[i] < BPE_BASE + self.merges@.len(),
    {
        let mut stream: Vec<u32> = widen_bytes(text.as_bytes());
        let ghost start = stream@;
        let mut rank: usize = 0;
        proof {
            assert(self.token_bytes@.len() == self.token_bytes.len());
        }
        while rank < self.merges.len()
            invariant
                rank <= self.merges@.len(),
                BPE_BASE + self.merges@.len() <= usize::MAX,
                tokens_below(stream@, BPE_BASE + rank),
                stream@ == applied(self.merges@, start, rank as nat),
            decreases self.merges@.len() - rank,
        {
            let new_id: u32 = #[verifier::truncate] ((BPE_BASE + rank) as u32);
            proof {
                lemma_merged_tokens(
                    stream@,
                    self.merges@[rank as int],
                    new_id,
                    BPE_BASE + rank,
                );
            }
            stream = merge_pass(stream.as_slice(), self.merges[rank], new_id);
            rank += 1;
        }
        let mut out: Vec<usize> = Vec::new();
        let mut i: usize = 0;
        while i < stream.len()
            invariant
                i <= stream@.len(),
                out@ =~= widened(stream@).take(i as int),
            decreases stream@.len() - i,
        {
            out.push(stream[i] as usize);
            i += 1;
        }
        proof {
            assert(out@ =~= widened(stream@));
            assert forall|i: int| 0 <= i < out@.len() implies #[trigger] out@[i] < BPE_BASE
                + self.merges@.len() by {
                assert(stream@[i] < BPE_BASE + self.merges@.len());
            }
        }
        out
    }

    /// The bytes that tokens stand for.
    pub fn decode_bytes(&self, ids: &[usize]) -> (r: Vec<u8>)
        requires
            self.wf(),
            forall|i: int|
                0 <= i < ids@.len() ==> #[trigger] ids@[i] < BPE_BASE + self.merges@.len(),
        ensures
            r@ == expand_all(self.merges@, ids@),
    {
        let mut out: Vec<u8> = Vec::new();
        let mut i: usize = 0;
        proof {
            assert(ids@.skip(0) =~= ids@);
            assert(out@ + expand_all(self.merges@, ids@) =~= expand_all(self.merges@, ids@));
        }
        while i < ids.len()
            invariant
                i <= ids@.len(),
                self.wf(),
                forall|i: int|
                    0 <= i < ids@.len() ==> #[trigger] ids@[i] < BPE_BASE + self.merges@.len(),
                out@ + expand_all(self.merges@, ids@.skip(i as int)) == expand_all(
                    self.merges@,
                    ids@,
                ),
            decreases ids@.len() - i,
        {
            let ghost before = out@;
            let ghost rest = ids@.skip(i as int);
            let mut bytes = crate::tensor::copy_slice(self.token_bytes[ids[i]].as_slice());
            out.append(&mut bytes);
            i += 1;
            proof {
                assert(rest.skip(1) =~= ids@.skip(i as int));
                assert(out@ + expand_all(self.merges@, ids@.skip(i as int)) =~= before
                    + expand_all(self.merges@, rest));
            }
        }
        proof {
            assert(out@ + expand_all(self.merges@, ids@.skip(i as int)) =~= out@);
        }
        out
    }

    /// The text that tokens stand for; bytes that are not UTF-8 are replaced.
    pub fn decode(&self, ids: &[usize]) -> (r: String)
        requires
            self.wf(),
            forall|i: int|
                0 <= i < ids@.len() ==> #[trigger] ids@[i] < BPE_BASE + self.merges@.len(),
        ensures
            r@ == lossy_text(expand_all(self.merges@, ids@)),
            valid_utf8(expand_all(self.merges@, ids@)) ==> r@ == decode_utf8(
                expand_all(self.merges@, ids@),
            ),
    {
        let bytes = self.decode_bytes(ids);
        text_of(bytes.as_slice())
    }

    /// Appends the saved form: the magic, the number of merges and the merges.
    pub fn save(&self, w: &mut Vec<u8>)
        ensures
            final(w)@ == old(w)@ + saved(self.merges@),
    {
        let ghost start = w@;
        put_u32(w, BPE_MAGIC);
        put_u32(w, #[verifier::truncate] (self.merges.len() as u32));
        let ghost head = w@;
        let mut i: usize = 0;
        proof {
            assert(self.merges@.take(0) =~= seq![]);
            assert(w@ =~= head + merge_bytes(self.merges@.take(0)));
        }
        while i < self.merges.len()
            invariant
                i <= self.merges@.len(),
                w@ == head + merge_bytes(self.merges@.take(i as int)),
            decreases self.merges@.len() - i,
        {
            let (a, b) = self.merges[i];
            put_u32(w, a);
            put_u32(w, b);
            i += 1;
            proof {
                assert(self.merges@.take(i as int).drop_last() =~= self.merges@.take(i - 1));
                assert(w@ =~= head + merge_bytes(self.merges@.take(i as int)));
            }
        }
        proof {
            assert(self.merges@.take(i as int) =~= self.merges@);
            assert(w@ =~= start + saved(self.merges@));
        }
    }

    /// Reads the saved form at the start of `buf`.
    pub fn load(buf: &[u8]) -> (r: Result<Bpe, ReadError>)
        ensures
            match r {
                Ok(bpe) => bpe.wf() && loaded(buf@, 0) == Ok::<Seq<(u32, u32)>, ReadError>(
                    bpe.merges@,
                ),
                Err(e) => loaded(buf@, 0) == Err::<Seq<(u32, u32)>, ReadError>(e),
            },
    {
        match Bpe::load_at(buf, 0) {
            Ok(found) => Ok(found.0),
            Err(e) => Err(e),
        }
    }

    /// Reads the saved form at `pos`, and says where it ends.
    pub fn load_at(buf: &[u8], pos: usize) -> (r: Result<(Bpe, usize), ReadError>)
        requires
            pos <= buf@.len(),
        ensures
            match r {
                Ok(found) => {
                    &&& found.0.wf()
                    &&& loaded(buf@, pos as int) == Ok::<Seq<(u32, u32)>, ReadError>(
                        found.0.merges@,
                    )
                    &&& found.1 == pos + 8 + 8 * found.0.merges@.len()
                    &&& found.1 <= buf@.len()
                },
                Err(e) => loaded(buf@, pos as int) == Err::<Seq<(u32, u32)>, ReadError>(e),
            },
    {
        proof {
            assert(buf@.len() == buf.len());
        }
        let magic: u32 = match get_u32(buf, pos) {
            Ok(x) => x,
            Err(e) => return Err(e),
        };
        if magic != BPE_MAGIC {
            return Err(ReadError::BadMagic);
        }
        let n: usize = match get_u32(buf, pos + 4) {
            Ok(x) => x as usize,
            Err(e) => return Err(e),
        };
        let mut merges: Vec<(u32, u32)> = Vec::new();
        let mut at: usize = pos + 8;
        while merges.len() < n
            invariant
                pos + 8 <= at <= buf@.len() <= usize::MAX,
                at == pos + 8 + 8 * merges@.len(),
                merges@.len() <= n,
                n <= u32::MAX,
                valid_merges(merges@),
                loaded(buf@, pos as int) == read_merges(buf@, at as int, merges@, n as nat),
            decreases n - merges@.len(),
        {
            let a: u32 = match get_u32(buf, at) {
                Ok(x) => x,
                Err(e) => return Err(e),
            };
            let b: u32 = match get_u32(buf, at + 4) {
                Ok(x) => x,
                Err(e) => return Err(e),
            };
            let limit: u32 = #[verifier::truncate] ((BPE_BASE as u64 + merges.len() as u64) as u32);
            if a >= limit || b >= limit {
                return Err(ReadError::FutureToken(merges.len(), a, b));
            }
            merges.push((a, b));
            at += 8;
        }
        Ok((Bpe::from_merges(merges), at))
    }
}

/// The first tokens of a joined sequence come first in its bytes.
proof fn lemma_expand_push(m: Seq<(u32, u32)>, head: usize, ids: Seq<usize>)
    ensures
        expand_all(m, seq![head] + ids) == expand(m, head as nat) + expand_all(m, ids),
{
    assert((seq![head] + ids).skip(1) =~= ids);
}

/// A merge changes no byte.
proof fn lemma_merge_keeps_bytes(m: Seq<(u32, u32)>, s: Seq<u32>, k: int)
    requires
        0 <= k < m.len(),
        valid_merges(m),
        BPE_BASE + m.len() <= 0x1_0000_0000,
    ensures
        expand_all(m, widened(merged(s, m[k], new_token(k as nat)))) == expand_all(
            m,
            widened(s),
        ),
    decreases s.len(),
{
    let id = new_token(k as nat);
    let pair = m[k];
    if s.len() == 0 {
        assert(widened(merged(s, pair, id)) =~= widened(s));
    } else if s.len() >= 2 && s[0] == pair.0 && s[1] == pair.1 {
        let tail = merged(s.skip(2), pair, id);
        lemma_merge_keeps_bytes(m, s.skip(2), k);
        assert(widened(merged(s, pair, id)) =~= seq![id as usize] + widened(tail));
        lemma_expand_push(m, id as usize, widened(tail));
        assert(widened(s) =~= seq![pair.0 as usize] + (seq![pair.1 as usize] + widened(
            s.skip(2),
        )));
        lemma_expand_push(m, pair.0 as usize, seq![pair.1 as usize] + widened(s.skip(2)));
        lemma_expand_push(m, pair.1 as usize, widened(s.skip(2)));
        let (x, y) = (expand(m, pair.0 as nat), expand(m, pair.1 as nat));
        assert(expand(m, id as nat) == x + y);
        let z = expand_all(m, widened(s.skip(2)));
        assert((x + y) + z =~= x + (y + z));
    } else {
        let tail = merged(s.skip(1), pair, id);
        lemma_merge_keeps_bytes(m, s.skip(1), k);
        assert(widened(merged(s, pair, id)) =~= seq![s[0] as usize] + widened(tail));
        lemma_expand_push(m, s[0] as usize, widened(tail));
        assert(widened(s) =~= seq![s[0] as usize] + widened(s.skip(1)));
        lemma_expand_push(m, s[0] as usize, widened(s.skip(1)));
    }
}

/// No number of merges changes a byte.
proof fn lemma_applied_keeps_bytes(m: Seq<(u32, u32)>, s: Seq<u32>, k: nat)
    requires
        k <= m.len(),
        valid_merges(m),
        BPE_BASE + m.len() <= 0x1_0000_0000,
    ensures
        expand_all(m, widened(applied(m, s, k))) == expand_all(m, widened(s)),
    decreases k,
{
    if k > 0 {
        lemma_applied_keeps_bytes(m, s, (k - 1) as nat);
        lemma_merge_keeps_bytes(m, applied(m, s, (k - 1) as nat), k - 1);
    }
}

/// Single-byte tokens stand for their bytes.
proof fn lemma_bytes_stand(m: Seq<(u32, u32)>, bytes: Seq<u8>)
    ensures
        expand_all(m, widened(byte_tokens(bytes))) == bytes,
    decreases bytes.len(),
{
    let ids = widened(byte_tokens(bytes));
    if bytes.len() == 0 {
        assert(expand_all(m, ids) =~= bytes);
    } else {
        lemma_bytes_stand(m, bytes.skip(1));
        assert(ids.skip(1) =~= widened(byte_tokens(bytes.skip(1))));
        assert(expand(m, ids[0] as nat) =~= seq![bytes[0]]);
        assert(expand_all(m, ids) =~= bytes);
    }
}

/// A token below the base stands for its byte, and a merged one for what its two parts
/// stand for, in order.
pub proof fn law_token_expansion(m: Seq<(u32, u32)>, id: nat)
    requires
        valid_merges(m),
        id < BPE_BASE + m.len(),
    ensures
        id < BPE_BASE ==> expand(m, id) == seq![id as u8],
        id >= BPE_BASE ==> expand(m, id) == expand(m, m[id - BPE_BASE].0 as nat) + expand(
            m,
            m[id - BPE_BASE].1 as nat,
        ),
{
}

/// The tokens of a byte string stand for exactly those bytes.
pub proof fn law_tokens_keep_bytes(m: Seq<(u32, u32)>, bytes: Seq<u8>)
    requires
        valid_merges(m),
        BPE_BASE + m.len() <= 0x1_0000_0000,
    ensures
        expand_all(m, tokens_of(m, bytes)) == bytes,
{
    lemma_applied_keeps_bytes(m, byte_tokens(bytes), m.len());
    lemma_bytes_stand(m, bytes);
}

/// Decoding the tokens of a text gives the text back.
pub proof fn law_bpe_round_trip(m: Seq<(u32, u32)>, text: Seq<char>)
    requires
        valid_merges(m),
        BPE_BASE + m.len() <= 0x1_0000_0000,
    ensures
        valid_utf8(expand_all(m, tokens_of(m, encode_utf8(text)))),
        decode_utf8(expand_all(m, tokens_of(m, encode_utf8(text)))) == text,
{
    law_tokens_keep_bytes(m, encode_utf8(text));
    vstd::utf8::encode_utf8_valid_utf8(text);
    vstd::utf8::encode_utf8_decode_utf8(text);
}

/// The bytes of a list of merges, from the left.
proof fn lemma_merge_bytes_concat(m: Seq<(u32, u32)>, k: int)
    requires
        0 <= k < m.len(),
    ensures
        merge_bytes(m.take(k + 1)) == merge_bytes(m.take(k)) + u32_bytes(m[k].0) + u32_bytes(
            m[k].1,
        ),
        merge_bytes(m.take(k)).len() == 8 * k,
    decreases k,
{
    assert(m.take(k + 1).drop_last() =~= m.take(k));
    if k == 0 {
        assert(m.take(0) =~= seq![]);
    } else {
        lemma_merge_bytes_concat(m, k - 1);
        lemma_u32_bytes(m[k - 1].0);
        lemma_u32_bytes(m[k - 1].1);
    }
}

/// The bytes of the merges from `k` on follow those before.
proof fn lemma_merge_bytes_split(m: Seq<(u32, u32)>, k: int) -> (tail: Seq<u8>)
    requires
        0 <= k <= m.len(),
    ensures
        merge_bytes(m) == merge_bytes(m.take(k)) + tail,
    decreases m.len() - k,
{
    if k == m.len() {
        assert(m.take(k) =~= m);
        assert(merge_bytes(m) =~= merge_bytes(m) + Seq::<u8>::empty());
        Seq::empty()
    } else {
        let rest = lemma_merge_bytes_split(m, k + 1);
        lemma_merge_bytes_concat(m, k);
        let tail = u32_bytes(m[k].0) + u32_bytes(m[k].1) + rest;
        assert(merge_bytes(m.take(k + 1)) + rest =~= merge_bytes(m.take(k)) + tail);
        tail
    }
}

/// Reading on after the first `k` merges gives them all.
proof fn lemma_read_back(head: Seq<u8>, m: Seq<(u32, u32)>, after: Seq<u8>, k: int)
    requires
        valid_merges(m),
        BPE_BASE + m.len() <= 0x1_0000_0000,
        0 <= k <= m.len(),
    ensures
        read_merges(head + merge_bytes(m) + after, head.len() + 8 * k, m.take(k), m.len()) == Ok::<
            Seq<(u32, u32)>,
            ReadError,
        >(m),
    decreases m.len() - k,
{
    let buf = head + merge_bytes(m) + after;
    if k == m.len() {
        assert(m.take(k) =~= m);
    } else {
        lemma_merge_bytes_concat(m, k);
        let rest = lemma_merge_bytes_split(m, k + 1);
        let before = head + merge_bytes(m.take(k));
        let (a, b) = m[k];
        assert(buf =~= before + u32_bytes(a) + (u32_bytes(b) + rest + after));
        lemma_u32_at(before, a, u32_bytes(b) + rest + after);
        assert(buf =~= (before + u32_bytes(a)) + u32_bytes(b) + (rest + after));
        lemma_u32_at(before + u32_bytes(a), b, rest + after);
        lemma_u32_bytes(a);
        lemma_u32_bytes(b);
        assert(m.take(k).push((a, b)) =~= m.take(k + 1));
        lemma_read_back(head, m, after, k + 1);
    }
}

/// The number of bytes of a saved tokeniser.
pub proof fn lemma_saved_len(m: Seq<(u32, u32)>)
    ensures
        saved(m).len() == 8 + 8 * m.len(),
{
    lemma_u32_bytes(BPE_MAGIC);
    lemma_u32_bytes(#[verifier::truncate] (m.len() as u32));
    assert(m.take(m.len() as int) =~= m);
    if m.len() > 0 {
        let k = m.len() - 1;
        lemma_merge_bytes_concat(m, k);
        lemma_u32_bytes(m[k].0);
        lemma_u32_bytes(m[k].1);
    }
}

/// A saved tokeniser reads back as itself, whatever comes before and after it, as long as
/// every token has a 32-bit number.
pub proof fn law_save_load(m: Seq<(u32, u32)>, head: Seq<u8>, after: Seq<u8>)
    requires
        valid_merges(m),
        BPE_BASE + m.len() <= 0x1_0000_0000,
    ensures
        saved(m).len() == 8 + 8 * m.len(),
        loaded(head + saved(m) + after, head.len() as int) == Ok::<Seq<(u32, u32)>, ReadError>(m),
{
    let buf = head + saved(m) + after;
    let n = #[verifier::truncate] (m.len() as u32);
    lemma_u32_bytes(BPE_MAGIC);
    lemma_u32_bytes(n);
    assert(buf =~= head + u32_bytes(BPE_MAGIC) + (u32_bytes(n) + merge_bytes(m) + after));
    lemma_u32_at(head, BPE_MAGIC, u32_bytes(n) + merge_bytes(m) + after);
    assert(buf =~= (head + u32_bytes(BPE_MAGIC)) + u32_bytes(n) + (merge_bytes(m) + after));
    lemma_u32_at(head + u32_bytes(BPE_MAGIC), n, merge_bytes(m) + after);
    let front = head + u32_bytes(BPE_MAGIC) + u32_bytes(n);
    assert(buf =~= front + merge_bytes(m) + after);
    lemma_read_back(front, m, after, 0);
    assert(m.take(0) =~= seq![]);
    lemma_saved_len(m);
}

/// A stream in which no pair repeats teaches no merge.
pub proof fn law_no_repeat_no_merge(s: Seq<u32>, left: nat)
    requires
        forall|p: (u32, u32)| #[trigger] pair_count(s, p) < 2,
    ensures
        learned(s, 0, left).len() == 0,
{
}

/// The bytes as single-byte tokens.
fn widen_bytes(bytes: &[u8]) -> (r: Vec<u32>)
    ensures
        r@ == byte_tokens(bytes@),
        tokens_below(r@, BPE_BASE as int),
{
    let mut out: Vec<u32> = Vec::new();
    let mut i: usize = 0;
    while i < bytes.len()
        invariant
            i <= bytes@.len(),
            out@ =~= byte_tokens(bytes@).take(i as int),
        decreases bytes@.len() - i,
    {
        out.push(bytes[i] as u32);
        i += 1;
    }
    proof {
        assert(out@ =~= byte_tokens(bytes@));
    }
    out
}

/// The stream that is left when training ends: that of [`learned`] after its merges.
pub open spec fn trained_stream(s: Seq<u32>, rank: nat, left: nat) -> Seq<u32>
    decreases left,
{
    if left == 0 || !repeats(s) {
        s
    } else {
        trained_stream(
            merged(s, best_pair(s), new_token(rank)),
            rank + 1,
            (left - 1) as nat,
        )
    }
}

/// The first merges decide the stream after them.
proof fn lemma_applied_same(a: Seq<(u32, u32)>, b: Seq<(u32, u32)>, s: Seq<u32>, k: nat)
    requires
        k <= a.len(),
        k <= b.len(),
        forall|i: int| 0 <= i < k ==> a[i] == b[i],
    ensures
        applied(a, s, k) == applied(b, s, k),
    decreases k,
{
    if k > 0 {
        lemma_applied_same(a, b, s, (k - 1) as nat);
    }
}

/// Applying merges that were learned repeats what training did to the stream.
proof fn lemma_applied_learned(
    first: Seq<(u32, u32)>,
    start: Seq<u32>,
    s: Seq<u32>,
    left: nat,
)
    requires
        applied(first, start, first.len()) == s,
    ensures
        ({
            let m = first + learned(s, first.len(), left);
            applied(m, start, m.len()) == trained_stream(s, first.len(), left)
        }),
        learned(s, first.len(), left).len() <= left,
        learned(s, first.len(), left).len() < left ==> !repeats(
            trained_stream(s, first.len(), left),
        ),
    decreases left,
{
    let n = first.len();
    if left == 0 || !repeats(s) {
        assert(first + learned(s, n, left) =~= first);
    } else {
        let p = best_pair(s);
        let next = merged(s, p, new_token(n));
        let more = first.push(p);
        lemma_applied_same(more, first, start, n);
        assert(applied(more, start, more.len()) == next);
        lemma_applied_learned(more, start, next, (left - 1) as nat);
        assert(first + learned(s, n, left) =~= more + learned(next, n + 1, (left - 1) as nat));
    }
}

/// Encoding a corpus with the merges that were learned from it gives the stream that
/// training ended with. Where fewer merges were learned than asked for, no pair of
/// that stream occurs twice.
pub proof fn law_encoding_repeats_training(corpus: Seq<u8>, left: nat)
    ensures
        ({
            let s = byte_tokens(corpus);
            let m = learned(s, 0, left);
            &&& tokens_of(m, corpus) == widened(trained_stream(s, 0, left))
            &&& m.len() <= left
            &&& m.len() < left ==> !repeats(trained_stream(s, 0, left))
        }),
{
    let s = byte_tokens(corpus);
    let none = Seq::<(u32, u32)>::empty();
    lemma_applied_learned(none, s, s, left);
    assert(none + learned(s, 0, left) =~= learned(s, 0, left));
}

} // verus!
