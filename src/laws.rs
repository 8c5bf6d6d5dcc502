//! Properties of training and encoding, proved over the model.
use vstd::prelude::*;
use vstd::utf8::encode_utf8;
use crate::pairs::{pair_occurs, merge_seq, lemma_merge_len};
use crate::model::{
    Model, model_wf, byte_vocab, text_ids, expand, first_eligible, encode_ids, best_pair,
    trained_merges, lemma_expand_bytes, lemma_encode_expand, lemma_first_eligible_unique,
};
use crate::tokenizer::{TokenizerError, decode_outcome};

verus! {

broadcast use {vstd::utf8::encode_utf8_valid_utf8, vstd::utf8::encode_utf8_decode_utf8};

/// The token sequence left after at most `k` training rounds on `s`.
pub open spec fn trained_seq(s: Seq<usize>, next: nat, k: nat) -> Seq<usize>
    decreases k,
{
    if k == 0 || s.len() < 2 {
        s
    } else {
        trained_seq(merge_seq(s, best_pair(s), next as usize), next + 1, (k - 1) as nat)
    }
}

/// Decoding what a well-formed model encodes gives the text back.
pub proof fn lemma_round_trip(m: Model, t: Seq<char>)
    requires
        model_wf(m),
    ensures
        decode_outcome(m.vocab, encode_ids(m.merges, text_ids(t))) == Ok::<
            Seq<char>,
            TokenizerError,
        >(t),
{
    lemma_expand_bytes(m, encode_utf8(t));
    lemma_encode_expand(m, text_ids(t));
}

/// The ids that a well-formed model encodes a text into expand to as many
/// bytes as the text's UTF-8 form has.
pub proof fn lemma_byte_count(m: Model, t: Seq<char>)
    requires
        model_wf(m),
    ensures
        expand(m.vocab, encode_ids(m.merges, text_ids(t))).len() == encode_utf8(t).len(),
{
    lemma_expand_bytes(m, encode_utf8(t));
    lemma_encode_expand(m, text_ids(t));
}

/// `k` training rounds learn at most `k` merges; they learn fewer only when
/// the sequence has collapsed below two tokens, and then more rounds learn
/// nothing more.
pub proof fn lemma_merge_count(s: Seq<usize>, next: nat, k: nat)
    ensures
        trained_merges(s, next, k).len() <= k,
        trained_merges(s, next, k).len() < k ==> trained_seq(s, next, k).len() < 2,
        trained_merges(s, next, k).len() < k ==> forall|k2: nat|
            k2 >= k ==> #[trigger] trained_merges(s, next, k2) == trained_merges(s, next, k),
    decreases k,
{
    if k > 0 && s.len() >= 2 {
        let t = merge_seq(s, best_pair(s), next as usize);
        lemma_merge_count(t, next + 1, (k - 1) as nat);
        if trained_merges(s, next, k).len() < k {
            assert forall|k2: nat| k2 >= k implies #[trigger] trained_merges(s, next, k2)
                == trained_merges(s, next, k) by {
                assert(trained_merges(t, next + 1, (k2 - 1) as nat) == trained_merges(
                    t,
                    next + 1,
                    (k - 1) as nat,
                ));
            }
        }
    } else if k > 0 {
        assert forall|k2: nat| k2 >= k implies #[trigger] trained_merges(s, next, k2)
            == trained_merges(s, next, k) by {}
    }
}

/// A model without merges encodes a text as its raw bytes and decodes them
/// back to the text.
pub proof fn lemma_untrained_passthrough(t: Seq<char>)
    ensures
        encode_ids(Seq::empty(), text_ids(t)) == text_ids(t),
        decode_outcome(byte_vocab(), text_ids(t)) == Ok::<Seq<char>, TokenizerError>(t),
{
    let m = Model { merges: Seq::empty(), vocab: byte_vocab() };
    assert(model_wf(m));
    assert(!exists|i: int| first_eligible(m.merges, text_ids(t), i));
    lemma_round_trip(m, t);
}

proof fn lemma_first_eligible_exists(merges: Seq<(usize, usize)>, s: Seq<usize>, j: int)
    requires
        0 <= j < merges.len(),
        pair_occurs(s, merges[j]),
    ensures
        exists|i: int| 0 <= i <= j && first_eligible(merges, s, i),
    decreases j,
{
    if exists|j2: int| 0 <= j2 < j && pair_occurs(s, #[trigger] merges[j2]) {
        let j2 = choose|j2: int| 0 <= j2 < j && pair_occurs(s, #[trigger] merges[j2]);
        lemma_first_eligible_exists(merges, s, j2);
    } else {
        assert(first_eligible(merges, s, j));
    }
}

/// Where merge `j` could apply, encoding applies a merge learned no later
/// than `j`, and the earliest one that applies.
pub proof fn lemma_merge_priority(merges: Seq<(usize, usize)>, s: Seq<usize>, j: int)
    requires
        0 <= j < merges.len(),
        pair_occurs(s, merges[j]),
    ensures
        exists|i: int|
            0 <= i <= j && first_eligible(merges, s, i) && encode_ids(merges, s) == encode_ids(
                merges,
                #[trigger] merge_seq(s, merges[i], (256 + i) as usize),
            ),
{
    lemma_first_eligible_exists(merges, s, j);
    let i = choose|i: int| 0 <= i <= j && first_eligible(merges, s, i);
    let c = choose|c: int| first_eligible(merges, s, c);
    lemma_first_eligible_unique(merges, s, i, c);
    lemma_merge_len(s, merges[i], (256 + i) as usize);
    assert(encode_ids(merges, s) == encode_ids(merges, merge_seq(s, merges[i], (256 + i) as usize)));
}

/// Two well-formed models with the same merge table have the same vocabulary entry `id`.
proof fn lemma_vocab_entry(a: Model, b: Model, id: int)
    requires
        model_wf(a),
        model_wf(b),
        a.merges == b.merges,
        0 <= id < a.vocab.len(),
    ensures
        a.vocab[id] == b.vocab[id],
    decreases id,
{
    if id >= 256 {
        let i = id - 256;
        assert(a.merges[i] == b.merges[i]);
        lemma_vocab_entry(a, b, a.merges[i].0 as int);
        lemma_vocab_entry(a, b, a.merges[i].1 as int);
    }
}

/// Training is deterministic: two well-formed models trained on the same text
/// with the same number of rounds are identical.
pub proof fn lemma_training_deterministic(a: Model, b: Model, t: Seq<char>, k: nat)
    requires
        model_wf(a),
        model_wf(b),
        a.merges == trained_merges(text_ids(t), 256, k),
        b.merges == trained_merges(text_ids(t), 256, k),
    ensures
        a == b,
{
    assert forall|id: int| 0 <= id < a.vocab.len() implies a.vocab[id] == b.vocab[id] by {
        lemma_vocab_entry(a, b, id);
    }
    assert(a.vocab =~= b.vocab);
}

} // verus!
