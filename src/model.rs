//! The mathematical model of a tokenizer: its merge table, its vocabulary, and
//! what training and encoding compute over them.
use vstd::prelude::*;
use vstd::utf8::encode_utf8;
use crate::pairs::{pair_count, pair_occurs, merge_seq, lemma_merge_len, lemma_count_occurs};

verus! {

/// A merge table in training order (entry `i` creates id `256 + i`) and the
/// byte expansion of every id.
pub struct Model {
    pub merges: Seq<(usize, usize)>,
    pub vocab: Seq<Seq<u8>>,
}

/// The vocabulary holds the 256 single bytes, then one entry per merge, each
/// the concatenation of the two earlier entries it was made of.
pub open spec fn model_wf(m: Model) -> bool {
    &&& m.vocab.len() == 256 + m.merges.len()
    &&& m.vocab.len() <= usize::MAX
    &&& forall|b: int| 0 <= b < 256 ==> #[trigger] m.vocab[b] == seq![b as u8]
    &&& forall|i: int|
        #![trigger m.merges[i]]
        0 <= i < m.merges.len() ==> m.merges[i].0 < 256 + i && m.merges[i].1 < 256 + i
            && m.vocab[256 + i] == m.vocab[m.merges[i].0 as int] + m.vocab[m.merges[i].1 as int]
}

/// The vocabulary of a model with no merges.
pub open spec fn byte_vocab() -> Seq<Seq<u8>> {
    Seq::new(256, |b: int| seq![b as u8])
}

/// Token ids of raw bytes.
pub open spec fn byte_ids(b: Seq<u8>) -> Seq<usize> {
    b.map_values(|x: u8| x as usize)
}

/// Token ids of the UTF-8 bytes of a text.
pub open spec fn text_ids(t: Seq<char>) -> Seq<usize> {
    byte_ids(encode_utf8(t))
}

/// Every id of `ids` has a vocabulary entry.
pub open spec fn all_known(vocab: Seq<Seq<u8>>, ids: Seq<usize>) -> bool {
    forall|j: int| 0 <= j < ids.len() ==> #[trigger] ids[j] < vocab.len()
}

/// The concatenated byte expansions of `ids`.
pub open spec fn expand(vocab: Seq<Seq<u8>>, ids: Seq<usize>) -> Seq<u8>
    decreases ids.len(),
{
    if ids.len() == 0 {
        seq![]
    } else {
        vocab[ids[0] as int] + expand(vocab, ids.skip(1))
    }
}

/// `i` is the earliest merge whose pair occurs in `s`.
pub open spec fn first_eligible(merges: Seq<(usize, usize)>, s: Seq<usize>, i: int) -> bool {
    &&& 0 <= i < merges.len()
    &&& pair_occurs(s, merges[i])
    &&& forall|j: int| 0 <= j < i ==> !pair_occurs(s, #[trigger] merges[j])
}

/// Encoding: apply the earliest learned merge that occurs, until none does.
pub open spec fn encode_ids(merges: Seq<(usize, usize)>, s: Seq<usize>) -> Seq<usize>
    decreases s.len(),
{
    if exists|i: int| first_eligible(merges, s, i) {
        let i = choose|i: int| first_eligible(merges, s, i);
        let t = merge_seq(s, merges[i], (256 + i) as usize);
        if t.len() < s.len() {
            encode_ids(merges, t)
        } else {
            s
        }
    } else {
        s
    }
}

/// Lexicographic order on pairs.
pub open spec fn pair_lt(a: (usize, usize), b: (usize, usize)) -> bool {
    a.0 < b.0 || (a.0 == b.0 && a.1 < b.1)
}

/// `p` is the most frequent pair of `s`, the smallest one among equally frequent.
pub open spec fn is_best_pair(s: Seq<usize>, p: (usize, usize)) -> bool {
    &&& pair_count(s, p) > 0
    &&& forall|q: (usize, usize)|
        #[trigger] pair_count(s, q) < pair_count(s, p) || (pair_count(s, q) == pair_count(s, p)
            && !pair_lt(q, p))
}

/// The pair that training merges next.
pub open spec fn best_pair(s: Seq<usize>) -> (usize, usize) {
    choose|p: (usize, usize)| is_best_pair(s, p)
}

/// The merges that at most `k` training rounds learn from `s`, the first of
/// them creating id `next`; training stops early once fewer than two tokens are left.
pub open spec fn trained_merges(s: Seq<usize>, next: nat, k: nat) -> Seq<(usize, usize)>
    decreases k,
{
    if k == 0 || s.len() < 2 {
        seq![]
    } else {
        let p = best_pair(s);
        seq![p] + trained_merges(merge_seq(s, p, next as usize), next + 1, (k - 1) as nat)
    }
}

/// Training selects a unique pair.
pub proof fn lemma_best_pair_unique(s: Seq<usize>, p: (usize, usize))
    requires
        is_best_pair(s, p),
    ensures
        best_pair(s) == p,
{
    let q = best_pair(s);
    assert(is_best_pair(s, q));
    assert(pair_count(s, q) == pair_count(s, p));
}

/// Encoding selects a unique merge.
pub proof fn lemma_first_eligible_unique(merges: Seq<(usize, usize)>, s: Seq<usize>, i: int, j: int)
    requires
        first_eligible(merges, s, i),
        first_eligible(merges, s, j),
    ensures
        i == j,
{
    if i < j {
        assert(!pair_occurs(s, merges[i]));
    } else if j < i {
        assert(!pair_occurs(s, merges[j]));
    }
}

/// Expansion distributes over concatenation.
pub proof fn lemma_expand_concat(vocab: Seq<Seq<u8>>, a: Seq<usize>, b: Seq<usize>)
    ensures
        expand(vocab, a + b) == expand(vocab, a) + expand(vocab, b),
    decreases a.len(),
{
    if a.len() == 0 {
        assert(a + b =~= b);
        assert(expand(vocab, a) + expand(vocab, b) =~= expand(vocab, b));
    } else {
        lemma_expand_concat(vocab, a.skip(1), b);
        assert((a + b).skip(1) =~= a.skip(1) + b);
        assert(expand(vocab, a + b) =~= expand(vocab, a) + expand(vocab, b));
    }
}

/// Merging a pair into an id whose expansion joins the pair's keeps the expansion.
pub proof fn lemma_expand_merge(vocab: Seq<Seq<u8>>, s: Seq<usize>, p: (usize, usize), n: usize)
    requires
        n < vocab.len() && p.0 < vocab.len() && p.1 < vocab.len(),
        vocab[n as int] == vocab[p.0 as int] + vocab[p.1 as int],
    ensures
        expand(vocab, merge_seq(s, p, n)) == expand(vocab, s),
    decreases s.len(),
{
    if s.len() >= 2 && s[0] == p.0 && s[1] == p.1 {
        let r = merge_seq(s.skip(2), p, n);
        lemma_expand_merge(vocab, s.skip(2), p, n);
        assert((seq![n] + r).skip(1) =~= r);
        assert(s.skip(1).skip(1) =~= s.skip(2));
        assert(expand(vocab, seq![n] + r) == vocab[n as int] + expand(vocab, r));
        assert(expand(vocab, s.skip(1)) == vocab[p.1 as int] + expand(vocab, s.skip(2)));
        assert(expand(vocab, s) == vocab[p.0 as int] + expand(vocab, s.skip(1)));
        assert(expand(vocab, merge_seq(s, p, n)) =~= expand(vocab, s));
    } else if s.len() > 0 {
        let r = merge_seq(s.skip(1), p, n);
        lemma_expand_merge(vocab, s.skip(1), p, n);
        assert((seq![s[0]] + r).skip(1) =~= r);
    }
}

/// Raw byte ids expand to the bytes themselves.
pub proof fn lemma_expand_bytes(m: Model, b: Seq<u8>)
    requires
        model_wf(m),
    ensures
        expand(m.vocab, byte_ids(b)) == b,
        all_known(m.vocab, byte_ids(b)),
    decreases b.len(),
{
    if b.len() > 0 {
        lemma_expand_bytes(m, b.skip(1));
        assert(byte_ids(b).skip(1) =~= byte_ids(b.skip(1)));
        assert(m.vocab[b[0] as int] == seq![b[0]]);
        assert(b =~= seq![b[0]] + b.skip(1));
    }
}

/// Encoding keeps the expansion, and keeps ids known.
pub proof fn lemma_encode_expand(m: Model, s: Seq<usize>)
    requires
        model_wf(m),
        all_known(m.vocab, s),
    ensures
        expand(m.vocab, encode_ids(m.merges, s)) == expand(m.vocab, s),
        all_known(m.vocab, encode_ids(m.merges, s)),
    decreases s.len(),
{
    if exists|i: int| first_eligible(m.merges, s, i) {
        let i = choose|i: int| first_eligible(m.merges, s, i);
        let n = (256 + i) as usize;
        let t = merge_seq(s, m.merges[i], n);
        if t.len() < s.len() {
            assert(m.merges[i].0 < 256 + i);
            lemma_expand_merge(m.vocab, s, m.merges[i], n);
            crate::pairs::lemma_merge_bounded(s, m.merges[i], n, m.vocab.len());
            lemma_encode_expand(m, t);
        }
    }
}

} // verus!
