use minbpe::{get_stats, merge, BasicTokenizer, TokenizerError};

fn bytes_of(text: &str) -> Vec<usize> {
    text.bytes().map(|b| b as usize).collect()
}

fn sorted_stats(ids: &[usize]) -> Vec<((usize, usize), usize)> {
    let mut stats = get_stats(ids);
    stats.sort();
    stats
}

fn trained(text: &str, vocab_size: usize) -> BasicTokenizer {
    let mut t = BasicTokenizer::new();
    assert_eq!(t.train(text, vocab_size), Ok(()));
    t
}

#[test]
fn stats_count_overlapping_windows() {
    assert_eq!(sorted_stats(&[97, 97, 97, 98]), vec![((97, 97), 2), ((97, 98), 1)]);
    assert_eq!(
        sorted_stats(&[1, 2, 3, 1, 2]),
        vec![((1, 2), 2), ((2, 3), 1), ((3, 1), 1)]
    );
}

#[test]
fn stats_of_short_sequences_are_empty() {
    assert!(get_stats(&[]).is_empty());
    assert!(get_stats(&[5]).is_empty());
}

#[test]
fn merge_replaces_left_to_right() {
    assert_eq!(merge(&[1, 2, 1, 2], (1, 2), 9), vec![9, 9]);
    assert_eq!(merge(&[1, 1, 1], (1, 1), 9), vec![9, 1]);
    assert_eq!(merge(&[3, 1, 2, 4, 1], (1, 2), 9), vec![3, 9, 4, 1]);
}

#[test]
fn merge_copies_short_sequences() {
    assert_eq!(merge(&[], (1, 2), 9), Vec::<usize>::new());
    assert_eq!(merge(&[1], (1, 2), 9), vec![1]);
    assert_eq!(merge(&[2, 1], (1, 2), 9), vec![2, 1]);
}

#[test]
fn scenario_aaabdaaabac() {
    let t = trained("aaabdaaabac", 259);
    assert_eq!(t.encode("aaabdaaabac"), vec![258, 100, 258, 97, 99]);
    assert_eq!(t.decode(&[256]), Ok("aa".to_string()));
    assert_eq!(t.decode(&[257]), Ok("ab".to_string()));
    assert_eq!(t.decode(&[258]), Ok("aaab".to_string()));
    assert_eq!(t.decode(&t.encode("aaabdaaabac")), Ok("aaabdaaabac".to_string()));
}

#[test]
fn round_trip_on_other_texts() {
    let t = trained("the cat sat on the mat with the hat", 280);
    for text in ["", "a", "the hat", "that cat", "héllo wörld 日本語", "zzz the the"] {
        assert_eq!(t.decode(&t.encode(text)), Ok(text.to_string()));
    }
}

#[test]
fn round_trip_with_multibyte_training_text() {
    let t = trained("日本日本日本語", 270);
    for text in ["日本語", "本日", "abc 日"] {
        assert_eq!(t.decode(&t.encode(text)), Ok(text.to_string()));
    }
}

#[test]
fn expansions_keep_the_byte_count() {
    let t = trained("abracadabra abracadabra", 265);
    for text in ["abracadabra", "cadabra bra", "x"] {
        let ids = t.encode(text);
        let total: usize = ids.iter().map(|&id| t.decode(&[id]).unwrap().len()).sum();
        assert_eq!(total, text.len());
    }
}

#[test]
fn training_learns_the_requested_merges() {
    let t = trained("abcdefgh", 259);
    assert!(t.decode(&[256]).is_ok());
    assert!(t.decode(&[258]).is_ok());
    assert_eq!(t.decode(&[259]), Err(TokenizerError::UnknownTokenId));
}

#[test]
fn training_stops_when_the_text_collapses() {
    let t = trained("ab", 300);
    assert_eq!(t.encode("ab"), vec![256]);
    assert_eq!(t.decode(&[256]), Ok("ab".to_string()));
    assert_eq!(t.decode(&[257]), Err(TokenizerError::UnknownTokenId));
    let u = trained("a", 300);
    assert_eq!(u.decode(&[256]), Err(TokenizerError::UnknownTokenId));
    assert_eq!(u.encode("aa"), vec![97, 97]);
}

#[test]
fn more_rounds_after_collapse_learn_nothing() {
    let small = trained("abab", 258);
    let large = trained("abab", 400);
    assert_eq!(small.encode("abab"), vec![257]);
    assert_eq!(large.encode("abab"), vec![257]);
    assert_eq!(large.decode(&[258]), Err(TokenizerError::UnknownTokenId));
}

#[test]
fn untrained_passthrough() {
    let t = BasicTokenizer::new();
    let text = "hello, wörld";
    assert_eq!(t.encode(text), bytes_of(text));
    assert_eq!(t.decode(&t.encode(text)), Ok(text.to_string()));
    assert_eq!(t.encode(""), Vec::<usize>::new());
}

#[test]
fn earliest_merge_applies_first() {
    // Training "aaab" learns (a, a) -> 256, then (a, b) -> 257.
    let t = trained("aaab", 258);
    assert_eq!(t.decode(&[256]), Ok("aa".to_string()));
    assert_eq!(t.decode(&[257]), Ok("ab".to_string()));
    assert_eq!(t.encode("aab"), vec![256, 98]);
    assert_eq!(t.encode("ab"), vec![257]);
}

#[test]
fn ties_go_to_the_smallest_pair() {
    // "ba" and "ab" both occur once in "bab": (97, 98) wins.
    let t = trained("bab", 257);
    assert_eq!(t.decode(&[256]), Ok("ab".to_string()));
    assert_eq!(t.encode("bab"), vec![98, 256]);
}

#[test]
fn training_is_deterministic() {
    let text = "low lower lowest newer wider";
    let a = trained(text, 275);
    let b = trained(text, 275);
    for id in 0..275 {
        assert_eq!(a.decode(&[id]).ok(), b.decode(&[id]).ok());
    }
    for probe in ["lowest", "newer wider", "slow"] {
        assert_eq!(a.encode(probe), b.encode(probe));
    }
}

#[test]
fn small_vocab_size_is_rejected() {
    let mut t = BasicTokenizer::new();
    assert_eq!(t.train("aaaa", 255), Err(TokenizerError::InvalidConfiguration));
    assert_eq!(t.encode("aaaa"), vec![97, 97, 97, 97]);
    assert_eq!(t.decode(&[256]), Err(TokenizerError::UnknownTokenId));
}

#[test]
fn empty_text_trains_nothing() {
    let t = trained("", 300);
    assert_eq!(t.encode(""), Vec::<usize>::new());
    assert_eq!(t.encode("ab"), vec![97, 98]);
}

#[test]
fn unknown_id_is_an_error() {
    let t = BasicTokenizer::new();
    assert_eq!(t.decode(&[97, 256]), Err(TokenizerError::UnknownTokenId));
    assert_eq!(t.decode(&[]), Ok(String::new()));
}

#[test]
fn malformed_bytes_are_an_error() {
    let t = BasicTokenizer::new();
    assert_eq!(t.decode(&[0xff]), Err(TokenizerError::InvalidByteSequence));
    assert_eq!(t.decode(&[0xc3]), Err(TokenizerError::InvalidByteSequence));
    assert_eq!(t.decode(&[0xc3, 0xa9]), Ok("é".to_string()));
    let u = trained("éé", 257);
    assert_eq!(u.decode(&[256]), Ok("é".to_string()));
    assert_eq!(u.encode("é"), vec![256]);
}
