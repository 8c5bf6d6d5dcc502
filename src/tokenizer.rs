//! The tokenizer: training builds the merge table and vocabulary, encoding and
//! decoding apply them.
use vstd::prelude::*;
use vstd::utf8::{decode_utf8, encode_utf8, valid_utf8};
use crate::pairs::{
    find_pair, get_stats, merge, merge_seq, pair_count, pair_occurs, stats_exact,
    lemma_count_occurs, lemma_merge_bounded, lemma_merge_len,
};
use crate::model::{
    Model, model_wf, byte_vocab, byte_ids, text_ids, all_known, expand, first_eligible,
    encode_ids, pair_lt, is_best_pair, trained_merges, lemma_best_pair_unique,
    lemma_first_eligible_unique, lemma_expand_concat,
};

verus! {

broadcast use {vstd::utf8::encode_utf8_valid_utf8, vstd::utf8::encode_utf8_decode_utf8};

/// Why training or decoding refused its input.
#[derive(Debug, Clone, Copy, PartialEq, Eq, Structural)]
pub enum TokenizerError {
    /// The requested vocabulary is smaller than the 256 single bytes.
    InvalidConfiguration,
    /// An id has no vocabulary entry.
    UnknownTokenId,
    /// The expanded bytes are not well-formed UTF-8.
    InvalidByteSequence,
}

/// What decoding `ids` yields against `vocab`.
pub open spec fn decode_outcome(vocab: Seq<Seq<u8>>, ids: Seq<usize>) -> Result<
    Seq<char>,
    TokenizerError,
> {
    if !all_known(vocab, ids) {
        Err(TokenizerError::UnknownTokenId)
    } else if !valid_utf8(expand(vocab, ids)) {
        Err(TokenizerError::InvalidByteSequence)
    } else {
        Ok(decode_utf8(expand(vocab, ids)))
    }
}

/// A minimal byte-pair-encoding tokenizer.
pub struct BasicTokenizer {
    merges: Vec<(usize, usize)>,
    vocab: Vec<Vec<u8>>,
}

impl View for BasicTokenizer {
    type V = Model;

    closed spec fn view(&self) -> Model {
        Model { merges: self.merges@, vocab: self.vocab@.map_values(|v: Vec<u8>| v@) }
    }
}

/// Relies on String::from_utf8: it fails exactly on bytes that are not
/// well-formed UTF-8, and otherwise returns a string made of those bytes.
#[verifier::external_body]
fn string_from_utf8(bytes: Vec<u8>) -> (r: Option<String>)
    ensures
        match r {
            Some(s) => encode_utf8(s@) == bytes@,
            None => !valid_utf8(bytes@),
        },
{
    String::from_utf8(bytes).ok()
}

/// Index of the entry with the highest count, the smallest pair among equal counts.
fn select_best(stats: &Vec<((usize, usize), usize)>) -> (b: usize)
    requires
        stats@.len() > 0,
    ensures
        b < stats@.len(),
        forall|k: int|
            0 <= k < stats@.len() ==> #[trigger] stats@[k].1 < stats@[b as int].1 || (
            stats@[k].1 == stats@[b as int].1 && !pair_lt(stats@[k].0, stats@[b as int].0)),
{
    let mut b: usize = 0;
    let mut k: usize = 1;
    while k < stats.len()
        invariant
            b < k <= stats@.len(),
            forall|j: int|
                0 <= j < k ==> #[trigger] stats@[j].1 < stats@[b as int].1 || (stats@[j].1
                    == stats@[b as int].1 && !pair_lt(stats@[j].0, stats@[b as int].0)),
        decreases stats.len() - k,
    {
        let (p, c) = stats[k];
        let (q, d) = stats[b];
        if c > d || (c == d && (p.0 < q.0 || (p.0 == q.0 && p.1 < q.1))) {
            b = k;
        }
        k = k + 1;
    }
    b
}

/// Index of the earliest merge whose pair has an entry in `stats`, if any.
fn first_known_merge(merges: &Vec<(usize, usize)>, stats: &Vec<((usize, usize), usize)>) -> (r:
    Option<usize>)
    ensures
        match r {
            Some(i) => i < merges@.len() && (exists|k: int|
                0 <= k < stats@.len() && stats@[k].0 == merges@[i as int]) && forall|j: int|
                0 <= j < i ==> forall|k: int|
                    0 <= k < stats@.len() ==> stats@[k].0 != #[trigger] merges@[j],
            None => forall|j: int|
                0 <= j < merges@.len() ==> forall|k: int|
                    0 <= k < stats@.len() ==> stats@[k].0 != #[trigger] merges@[j],
        },
{
    let mut i: usize = 0;
    while i < merges.len()
        invariant
            i <= merges@.len(),
            forall|j: int|
                0 <= j < i ==> forall|k: int|
                    0 <= k < stats@.len() ==> stats@[k].0 != #[trigger] merges@[j],
        decreases merges.len() - i,
    {
        if find_pair(stats, merges[i]).is_some() {
            return Some(i);
        }
        i = i + 1;
    }
    None
}

/// The token ids of the UTF-8 bytes of `text`.
fn text_to_ids(text: &str) -> (ids: Vec<usize>)
    ensures
        ids@ == text_ids(text@),
{
    let bytes = text.as_bytes();
    let mut ids: Vec<usize> = Vec::new();
    let mut j: usize = 0;
    while j < bytes.len()
        invariant
            j <= bytes@.len(),
            bytes@ == encode_utf8(text@),
            ids@ == byte_ids(bytes@.subrange(0, j as int)),
        decreases bytes.len() - j,
    {
        ids.push(bytes[j] as usize);
        proof {
            assert(byte_ids(bytes@.subrange(0, j + 1)) =~= byte_ids(bytes@.subrange(0, j as int)).push(
                bytes@[j as int] as usize,
            ));
        }
        j = j + 1;
    }
    proof {
        assert(bytes@.subrange(0, bytes@.len() as int) =~= bytes@);
    }
    ids
}

impl BasicTokenizer {
    /// The model is well formed.
    pub open spec fn wf(&self) -> bool {
        model_wf(self@)
    }

    /// An untrained tokenizer: the 256 single bytes and no merges.
    pub fn new() -> (t: Self)
        ensures
            t@.merges == Seq::<(usize, usize)>::empty(),
            t@.vocab == byte_vocab(),
            t.wf(),
    {
        let mut vocab: Vec<Vec<u8>> = Vec::new();
        let mut b: usize = 0;
        while b < 256
            invariant
                b <= 256,
                vocab@.len() == b,
                forall|j: int| 0 <= j < b ==> #[trigger] vocab@[j]@ == seq![j as u8],
            decreases 256 - b,
        {
            let mut entry: Vec<u8> = Vec::new();
            entry.push(b as u8);
            vocab.push(entry);
            b = b + 1;
        }
        let t = BasicTokenizer { merges: Vec::new(), vocab };
        assert(t@.vocab =~= byte_vocab());
        t
    }

    /// Learns up to `vocab_size - 256` merges from `text`: each round merges
    /// the most frequent adjacent pair (the smallest pair among equally
    /// frequent ones) into the next id, and training stops early once fewer
    /// than two tokens are left. Only an untrained tokenizer can be trained.
    pub fn train(&mut self, text: &str, vocab_size: usize) -> (r: Result<(), TokenizerError>)
        requires
            old(self).wf(),
            old(self)@.merges.len() == 0,
        ensures
            vocab_size < 256 ==> r == Err::<(), TokenizerError>(
                TokenizerError::InvalidConfiguration,
            ) && final(self)@ == old(self)@,
            vocab_size >= 256 ==> r == Ok::<(), TokenizerError>(()) && final(self).wf()
                && final(self)@.merges == trained_merges(
                text_ids(text@),
                256,
                (vocab_size - 256) as nat,
            ),
    {
        if vocab_size < 256 {
            return Err(TokenizerError::InvalidConfiguration);
        }
        let num_merges: usize = vocab_size - 256;
        let mut ids = text_to_ids(text);
        let ghost target = trained_merges(text_ids(text@), 256, num_merges as nat);
        proof {
            assert(self@.merges + target =~= target);
            assert forall|j: int| 0 <= j < ids@.len() implies #[trigger] ids@[j] < self@.vocab.len() by {
                assert(ids@[j] == encode_utf8(text@)[j] as usize);
            }
        }
        let mut i: usize = 0;
        let mut done = false;
        while i < num_merges && !done
            invariant
                num_merges == vocab_size - 256,
                i <= num_merges,
                self.wf(),
                self@.merges.len() == i,
                all_known(self@.vocab, ids@),
                self@.merges + trained_merges(ids@, (256 + i) as nat, (num_merges - i) as nat)
                    == target,
                done ==> ids@.len() < 2,
            decreases num_merges - i + if done {
                0int
            } else {
                1int
            },
        {
            let stats = get_stats(ids.as_slice());
            if stats.len() == 0 {
                proof {
                    if ids@.len() >= 2 {
                        lemma_count_occurs(ids@, (ids@[0], ids@[1]));
                        assert(ids@[0] == ids@[0] && ids@[1] == ids@[1]);
                        assert(pair_count(ids@, (ids@[0], ids@[1])) > 0);
                    }
                }
                done = true;
            } else {
                let b = select_best(&stats);
                let pair = stats[b].0;
                let ghost s = ids@;
                let ghost before = self@;
                proof {
                    assert(stats@[b as int].1 == pair_count(s, pair));
                    assert forall|q: (usize, usize)|
                        #[trigger] pair_count(s, q) < pair_count(s, pair) || (pair_count(s, q)
                            == pair_count(s, pair) && !pair_lt(q, pair)) by {
                        if pair_count(s, q) > 0 {
                            let k = choose|k: int| 0 <= k < stats@.len() && stats@[k].0 == q;
                            assert(stats@[k].1 == pair_count(s, q));
                            assert(stats@[k].1 < stats@[b as int].1 || (stats@[k].1
                                == stats@[b as int].1 && !pair_lt(stats@[k].0, stats@[b as int].0)));
                        }
                    }
                    assert(stats@[b as int].1 == pair_count(s, pair));
                    assert(is_best_pair(s, pair));
                    lemma_best_pair_unique(s, pair);
                    lemma_count_occurs(s, pair);
                    let j = choose|j: int| 0 <= j < s.len() - 1 && #[trigger] s[j] == pair.0 && s[j + 1] == pair.1;
                    assert(s[j] < 256 + i && s[j + 1] < 256 + i);
                }
                let idx: usize = 256 + i;
                ids = merge(ids.as_slice(), pair, idx);
                let mut token = self.vocab[pair.0].clone();
                let mut tail = self.vocab[pair.1].clone();
                proof {
                    assert(token@ =~= before.vocab[pair.0 as int]);
                    assert(tail@ =~= before.vocab[pair.1 as int]);
                }
                token.append(&mut tail);
                self.merges.push(pair);
                self.vocab.push(token);
                proof {
                    lemma_merge_bounded(s, pair, idx, (256 + i + 1) as nat);
                    assert(self@.vocab =~= before.vocab.push(
                        before.vocab[pair.0 as int] + before.vocab[pair.1 as int],
                    ));
                    assert(self@.merges == before.merges.push(pair));
                    let rest = trained_merges(merge_seq(s, pair, idx), (256 + i + 1) as nat, (num_merges - i - 1) as nat);
                    assert(trained_merges(s, (256 + i) as nat, (num_merges - i) as nat) == seq![pair] + rest);
                    assert(before.merges.push(pair) + rest =~= before.merges + (seq![pair] + rest));
                    assert(model_wf(self@));
                }
                i = i + 1;
            }
        }
        proof {
            assert(trained_merges(ids@, (256 + i) as nat, (num_merges - i) as nat) == Seq::<(usize, usize)>::empty());
            assert(self@.merges + Seq::<(usize, usize)>::empty() =~= self@.merges);
        }
        Ok(())
    }

    /// Encodes `text`: starting from its UTF-8 bytes, repeatedly applies the
    /// earliest learned merge whose pair occurs, until none occurs.
    pub fn encode(&self, text: &str) -> (ids: Vec<usize>)
        requires
            self.wf(),
        ensures
            ids@ == encode_ids(self@.merges, text_ids(text@)),
    {
        let mut ids = text_to_ids(text);
        let ghost target = encode_ids(self@.merges, ids@);
        while ids.len() >= 2
            invariant
                self.wf(),
                encode_ids(self@.merges, ids@) == target,
                target == encode_ids(self@.merges, text_ids(text@)),
            decreases ids@.len(),
        {
            let stats = get_stats(ids.as_slice());
            let ghost s = ids@;
            let ghost m = self@.merges;
            match first_known_merge(&self.merges, &stats) {
                None => {
                    proof {
                        assert forall|i: int| !first_eligible(m, s, i) by {
                            if 0 <= i < m.len() && pair_occurs(s, m[i]) {
                                lemma_count_occurs(s, m[i]);
                                let k = choose|k: int| 0 <= k < stats@.len() && stats@[k].0 == m[i];
                                assert(stats@[k].0 != m[i]);
                            }
                        }
                    }
                    assert(!exists|i: int| first_eligible(m, s, i));
                    assert(encode_ids(m, s) == s);
                    return ids;
                },
                Some(i) => {
                    proof {
                        let k = choose|k: int| 0 <= k < stats@.len() && stats@[k].0 == m[i as int];
                        assert(stats@[k].1 == pair_count(s, stats@[k].0));
                        lemma_count_occurs(s, m[i as int]);
                        assert forall|j: int| 0 <= j < i implies !pair_occurs(s, #[trigger] m[j]) by {
                            lemma_count_occurs(s, m[j]);
                            if pair_count(s, m[j]) > 0 {
                                let k2 = choose|k2: int| 0 <= k2 < stats@.len() && stats@[k2].0 == m[j];
                                assert(stats@[k2].0 != m[j]);
                            }
                        }
                        assert(first_eligible(m, s, i as int));
                        let c = choose|c: int| first_eligible(m, s, c);
                        lemma_first_eligible_unique(m, s, i as int, c);
                        lemma_merge_len(s, m[i as int], (256 + i) as usize);
                    }
                    ids = merge(ids.as_slice(), self.merges[i], 256 + i);
                },
            }
        }
        proof {
            assert forall|i: int| !first_eligible(self@.merges, ids@, i) by {}
        }
        ids
    }

    /// Decodes `ids`: concatenates their byte expansions and reads the bytes
    /// as UTF-8. Fails on an id without an entry, then on malformed UTF-8.
    pub fn decode(&self, ids: &[usize]) -> (r: Result<String, TokenizerError>)
        ensures
            match r {
                Ok(s) => decode_outcome(self@.vocab, ids@) == Ok::<Seq<char>, TokenizerError>(s@),
                Err(e) => decode_outcome(self@.vocab, ids@) == Err::<Seq<char>, TokenizerError>(e),
            },
    {
        let mut bytes: Vec<u8> = Vec::new();
        let mut j: usize = 0;
        while j < ids.len()
            invariant
                j <= ids@.len(),
                all_known(self@.vocab, ids@.subrange(0, j as int)),
                bytes@ == expand(self@.vocab, ids@.subrange(0, j as int)),
            decreases ids.len() - j,
        {
            let id = ids[j];
            if id >= self.vocab.len() {
                proof {
                    assert(!(ids@[j as int] < self@.vocab.len()));
                }
                return Err(TokenizerError::UnknownTokenId);
            }
            let mut piece = self.vocab[id].clone();
            proof {
                assert(piece@ =~= self@.vocab[id as int]);
                let a = ids@.subrange(0, j as int);
                let one = seq![id];
                assert(ids@.subrange(0, j + 1) =~= a + one);
                lemma_expand_concat(self@.vocab, a, one);
                assert(one.skip(1) =~= Seq::<usize>::empty());
                assert(expand(self@.vocab, one.skip(1)) =~= Seq::<u8>::empty());
                assert(one[0] == id);
                assert(expand(self@.vocab, one) =~= self@.vocab[id as int]);
            }
            bytes.append(&mut piece);
            j = j + 1;
        }
        proof {
            assert(ids@.subrange(0, ids@.len() as int) =~= ids@);
        }
        match string_from_utf8(bytes) {
            Some(s) => Ok(s),
            None => Err(TokenizerError::InvalidByteSequence),
        }
    }
}

} // verus!
