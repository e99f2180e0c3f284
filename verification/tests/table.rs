use panphon2::error::FeatureError;
use panphon2::features::{binarize, sum_rows};
use panphon2::table::IpaFeatureTable;

fn p() -> Vec<i8> {
    vec![-1, -1, 1, -1, -1, -1, -1, 0, -1, -1, -1, 1, -1, 0, 1, -1, -1, -1, -1, -1, 0, -1, 0, 0]
}

fn b() -> Vec<i8> {
    vec![-1, -1, 1, -1, -1, -1, -1, 0, 1, -1, -1, 1, -1, 0, 1, -1, -1, -1, -1, -1, 0, -1, 0, 0]
}

fn a() -> Vec<i8> {
    vec![1, 1, -1, 1, -1, -1, -1, 0, 1, -1, -1, 0, -1, 0, -1, -1, 1, -1, -1, -1, 1, -1, 0, 0]
}

fn strings(items: &[&str]) -> Vec<String> {
    items.iter().map(|s| s.to_string()).collect()
}

#[test]
fn built_in_inventory_is_uniform_and_ternary() {
    let ft = rspanphon::featuretable::FeatureTable::new();
    assert!(!ft.ft.is_empty());
    for (symbol, vector) in ft.ft.iter() {
        assert!(!symbol.is_empty());
        assert_eq!(vector.len(), 24);
        assert!(vector.iter().all(|v| *v == -1 || *v == 0 || *v == 1));
    }
}

#[test]
fn phonemes_of_empty_word_is_empty() {
    let ft = IpaFeatureTable::new();
    assert_eq!(ft.phonemes(""), Vec::<String>::new());
}

#[test]
fn phonemes_splits_a_word() {
    let ft = IpaFeatureTable::new();
    assert_eq!(ft.phonemes("pa"), strings(&["p", "a"]));
    assert_eq!(ft.phonemes("tin"), strings(&["t", "i", "n"]));
}

#[test]
fn phonemes_twice_gives_the_same() {
    let ft = IpaFeatureTable::new();
    let word = "k\u{2b0}ul t\u{361}\u{283}a";
    assert_eq!(ft.phonemes(word), ft.phonemes(word));
    assert_eq!(IpaFeatureTable::new().phonemes(word), ft.phonemes(word));
}

#[test]
fn phonemes_prefers_the_longest_symbol() {
    let ft = IpaFeatureTable::new();
    assert_eq!(ft.phonemes("t"), strings(&["t"]));
    assert_eq!(ft.phonemes("t\u{361}\u{283}a"), strings(&["t\u{361}\u{283}", "a"]));
    assert_eq!(ft.phonemes("t\u{361}sa"), strings(&["t\u{361}s", "a"]));
    assert_eq!(ft.phonemes("p\u{2b0}i"), strings(&["p\u{2b0}", "i"]));
    assert_eq!(ft.phonemes("k\u{2b0}ul"), strings(&["k\u{2b0}", "u", "l"]));
}

#[test]
fn phonemes_skips_what_it_does_not_know() {
    let ft = IpaFeatureTable::new();
    assert_eq!(ft.phonemes("k\u{259}-a"), strings(&["k", "\u{259}", "a"]));
    assert_eq!(ft.phonemes("p a!"), strings(&["p", "a"]));
}

#[test]
fn phonemes_of_unknown_codepoints_only_is_empty() {
    let ft = IpaFeatureTable::new();
    assert_eq!(ft.phonemes("--"), Vec::<String>::new());
    assert_eq!(ft.phonemes(" !?"), Vec::<String>::new());
}

#[test]
fn phonemes_to_vectors_looks_up_each_symbol() {
    let ft = IpaFeatureTable::new();
    assert_eq!(ft.phonemes_to_vectors(strings(&["p", "a"])), Ok(vec![p(), a()]));
    assert_eq!(ft.phonemes_to_vectors(strings(&["a", "a", "b"])), Ok(vec![a(), a(), b()]));
}

#[test]
fn phonemes_to_vectors_of_no_symbols_is_empty() {
    let ft = IpaFeatureTable::new();
    assert_eq!(ft.phonemes_to_vectors(Vec::new()), Ok(Vec::new()));
}

#[test]
fn phonemes_to_vectors_refuses_unknown_symbol() {
    let ft = IpaFeatureTable::new();
    assert_eq!(
        ft.phonemes_to_vectors(strings(&["p", "-", "a"])),
        Err(FeatureError::UnknownPhoneme)
    );
    assert_eq!(ft.phonemes_to_vectors(strings(&["pa"])), Err(FeatureError::UnknownPhoneme));
    assert_eq!(ft.phonemes_to_vectors(strings(&[""])), Err(FeatureError::UnknownPhoneme));
}

#[test]
fn word_to_vectors_gives_the_vectors_in_order() {
    let ft = IpaFeatureTable::new();
    assert_eq!(ft.word_to_vectors("pa"), vec![p(), a()]);
    assert_eq!(ft.word_to_vectors("ap"), vec![a(), p()]);
}

#[test]
fn word_to_vectors_of_empty_word_is_empty() {
    let ft = IpaFeatureTable::new();
    assert_eq!(ft.word_to_vectors(""), Vec::<Vec<i8>>::new());
}

#[test]
fn word_to_vectors_is_encoding_of_phonemes() {
    let ft = IpaFeatureTable::new();
    let word = "k\u{2b0}ul";
    assert_eq!(ft.word_to_vectors(word).len(), 3);
    assert_eq!(Ok(ft.word_to_vectors(word)), ft.phonemes_to_vectors(ft.phonemes(word)));
}

#[test]
fn word_to_binary_vectors_keeps_present_features() {
    let ft = IpaFeatureTable::new();
    let bp = vec![0, 0, 1, 0, 0, 0, 0, 0, 0, 0, 0, 1, 0, 0, 1, 0, 0, 0, 0, 0, 0, 0, 0, 0];
    let ba = vec![1, 1, 0, 1, 0, 0, 0, 0, 1, 0, 0, 0, 0, 0, 0, 0, 1, 0, 0, 0, 1, 0, 0, 0];
    assert_eq!(ft.word_to_binary_vectors("pa"), vec![bp, ba]);
    assert_eq!(ft.word_to_binary_vectors("pa"), binarize(&ft.word_to_vectors("pa")));
}

#[test]
fn word_to_binary_vectors_of_empty_word_is_empty() {
    let ft = IpaFeatureTable::new();
    assert_eq!(ft.word_to_binary_vectors(""), Vec::<Vec<i8>>::new());
}

#[test]
fn word_to_bag_of_features_sums_the_binary_vectors() {
    let ft = IpaFeatureTable::new();
    assert_eq!(
        ft.word_to_bag_of_features("pa"),
        Ok(vec![1, 1, 1, 1, 0, 0, 0, 0, 1, 0, 0, 1, 0, 0, 1, 0, 1, 0, 0, 0, 1, 0, 0, 0])
    );
    assert_eq!(
        ft.word_to_bag_of_features("pat"),
        Ok(vec![1, 1, 2, 1, 0, 0, 0, 0, 1, 0, 0, 2, 1, 0, 1, 0, 1, 0, 0, 0, 1, 0, 0, 0])
    );
}

#[test]
fn word_to_bag_of_features_is_sum_over_single_phonemes() {
    let ft = IpaFeatureTable::new();
    let word = "tin";
    let mut expected = vec![0u64; 24];
    for ph in ft.phonemes(word) {
        let rows = binarize(&ft.phonemes_to_vectors(vec![ph]).unwrap());
        assert_eq!(rows.len(), 1);
        for (j, v) in rows[0].iter().enumerate() {
            expected[j] += *v as u64;
        }
    }
    assert_eq!(ft.word_to_bag_of_features(word), Ok(expected));
    assert_eq!(ft.word_to_bag_of_features(word), sum_rows(&ft.word_to_binary_vectors(word)));
}

#[test]
fn word_to_bag_of_features_does_not_depend_on_order() {
    let ft = IpaFeatureTable::new();
    assert_eq!(ft.word_to_bag_of_features("pat"), ft.word_to_bag_of_features("tap"));
}

#[test]
fn word_to_bag_of_features_of_empty_word_is_refused() {
    let ft = IpaFeatureTable::new();
    assert_eq!(ft.word_to_bag_of_features(""), Err(FeatureError::EmptyInput));
}

#[test]
fn word_to_bag_of_features_without_phonemes_is_refused() {
    let ft = IpaFeatureTable::new();
    assert_eq!(ft.word_to_bag_of_features("--"), Err(FeatureError::EmptyInput));
}

#[test]
fn bag_of_features_pools_symbols() {
    let ft = IpaFeatureTable::new();
    assert_eq!(
        ft.bag_of_features(strings(&["p", "a"])),
        Ok(vec![1, 1, 1, 1, 0, 0, 0, 0, 1, 0, 0, 1, 0, 0, 1, 0, 1, 0, 0, 0, 1, 0, 0, 0])
    );
}

#[test]
fn bag_of_features_refuses_no_symbols() {
    let ft = IpaFeatureTable::new();
    assert_eq!(ft.bag_of_features(Vec::new()), Err(FeatureError::EmptyInput));
}

#[test]
fn bag_of_features_refuses_unknown_symbol() {
    let ft = IpaFeatureTable::new();
    assert_eq!(ft.bag_of_features(strings(&["p", "?"])), Err(FeatureError::UnknownPhoneme));
}

#[test]
fn distance_of_a_voicing_contrast_is_one_feature() {
    let ft = IpaFeatureTable::new();
    assert_eq!(ft.feature_edit_distance("pa", "ba"), 1);
    assert_eq!(ft.feature_edit_distance("tin", "din"), 1);
}

#[test]
fn distance_of_a_word_from_itself_is_zero() {
    let ft = IpaFeatureTable::new();
    assert_eq!(ft.feature_edit_distance("pa", "pa"), 0);
    assert_eq!(ft.feature_edit_distance("k\u{2b0}ul", "k\u{2b0}ul"), 0);
    assert_eq!(ft.feature_edit_distance("", ""), 0);
    assert_eq!(ft.feature_edit_distance("k\u{259}-a", "k\u{259}-a"), 0);
}

#[test]
fn distance_between_words_is_symmetric() {
    let ft = IpaFeatureTable::new();
    assert_eq!(ft.feature_edit_distance("tin", "kin"), 5);
    assert_eq!(ft.feature_edit_distance("kin", "tin"), 5);
    assert_eq!(ft.feature_edit_distance("pat", "tap"), 6);
    assert_eq!(ft.feature_edit_distance("tap", "pat"), 6);
    assert_eq!(ft.feature_edit_distance("pa", "a"), ft.feature_edit_distance("a", "pa"));
}

#[test]
fn distance_from_the_empty_word_is_the_markedness_of_the_other() {
    let ft = IpaFeatureTable::new();
    assert_eq!(ft.feature_edit_distance("", "pa"), 38);
    assert_eq!(ft.feature_edit_distance("pa", ""), 38);
    assert_eq!(ft.feature_edit_distance("pa", "a"), 19);
}

#[test]
fn distance_grows_with_the_number_of_differing_features() {
    let ft = IpaFeatureTable::new();
    assert!(ft.feature_edit_distance("tin", "din") < ft.feature_edit_distance("tin", "kin"));
}

#[test]
fn distance_ignores_codepoints_that_are_skipped() {
    let ft = IpaFeatureTable::new();
    assert_eq!(ft.feature_edit_distance("p-a", "pa!"), 0);
}
