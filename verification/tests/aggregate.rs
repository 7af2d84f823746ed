use alphabet_mask::alphabets::{common_alphabets, render_outcome};
use alphabet_mask::combine::find_common_mask;
use alphabet_mask::error::{AggregateError, EncodingError};
use alphabet_mask::render::mask_to_chars;
use alphabet_mask::parallel::{find_common_mask_parallel, reduction_result};
use alphabet_mask::strategy::{select_strategy, Strategy};

const EVERY_SYMBOL: &str = " abcdefghijklmnopqrstuvwxyz.,'-\"";

/// Twelve strings of fifty bytes each.
fn fifty_byte_strings() -> Vec<&'static str> {
    vec![
        "The weather in the highlands changes rapidly here.",
        "She holds a lantern and watches the tide go north.",
        "Her late letters tell the rest, as the hart rests.",
        "Three small hares rest there near the other shelf.",
        "The elder teaches the rest, then the hall settles.",
        "Here the last rehearsal halts, and the cast rests.",
        "A well-read teacher tells the tale \"as it stands\".",
        "The hen's nest sat in the heather near the stream.",
        "Set the kettle there, then let the tea rest a bit.",
        "Earth, rain and salt, then earth, rain, salt, tar.",
        "That street leads east, then left at the old well.",
        "The letter has bent, yet the seal held all the way",
    ]
}

fn parallel_alphabet_of_first(count: usize) -> String {
    let texts = fifty_byte_strings()[0..count].to_vec();
    let mask = find_common_mask_parallel(&texts, Some(100)).unwrap();
    mask_to_chars(mask)
}

#[test]
fn parallel_alphabet_of_one_string() {
    assert_eq!(parallel_alphabet_of_first(1), " acdeghilnprstwy.");
}

#[test]
fn parallel_alphabet_of_two_strings() {
    assert_eq!(parallel_alphabet_of_first(2), " acdeghilnrstw.");
}

#[test]
fn parallel_alphabet_of_three_strings() {
    assert_eq!(parallel_alphabet_of_first(3), " aehlrst.");
}

#[test]
fn parallel_alphabet_of_six_strings() {
    assert_eq!(parallel_alphabet_of_first(6), " aehlrst.");
}

#[test]
fn parallel_alphabet_of_eight_strings() {
    assert_eq!(parallel_alphabet_of_first(8), " aehrst.");
}

#[test]
fn parallel_alphabet_of_twelve_strings() {
    assert_eq!(parallel_alphabet_of_first(12), " aehrst");
}

#[test]
fn parallel_mask_of_no_strings_is_every_symbol() {
    assert_eq!(find_common_mask_parallel(&[], Some(10)), Ok(u32::MAX));
    assert_eq!(find_common_mask_parallel(&[], None), Ok(u32::MAX));
}

#[test]
fn parallel_mask_with_the_default_limit() {
    let strings = fifty_byte_strings();
    assert_eq!(find_common_mask_parallel(&strings, None), Ok(1835299));
}

#[test]
fn parallel_failure_is_that_of_a_string() {
    let strings = vec!["abc", "d1", "efg", "h2", "ijk"];
    let result = find_common_mask_parallel(&strings, Some(3));
    assert!(
        result == Err(AggregateError::Encoding(EncodingError { character: '1' }))
            || result == Err(AggregateError::Encoding(EncodingError { character: '2' }))
    );
}

#[test]
fn parallel_failure_of_the_only_failing_string() {
    let strings = vec!["abc", "def", "g7", "hij"];
    assert_eq!(
        find_common_mask_parallel(&strings, Some(4)),
        Err(AggregateError::Encoding(EncodingError { character: '7' }))
    );
}

#[test]
fn parallel_rejects_a_zero_limit() {
    assert_eq!(
        find_common_mask_parallel(&["abc"], Some(0)),
        Err(AggregateError::ZeroLengthLimit)
    );
    assert_eq!(find_common_mask_parallel(&[], Some(0)), Err(AggregateError::ZeroLengthLimit));
}

#[test]
fn strategies_agree() {
    let lists: Vec<Vec<&str>> = vec![
        vec![],
        vec![""],
        vec!["Hello, world"],
        vec!["Hello, world", "The quick brown fox", "held low"],
        vec!["abc", "b c d", "c-d-e", "cab", "'c'", "\"c\""],
        vec!["abc", "d1", "efg"],
        vec!["x!", "y?", "z"],
        fifty_byte_strings(),
    ];
    for strings in &lists {
        let sequential = find_common_mask(strings);
        for limit in [1, 2, 3, 5, 8, 13, 50, 99, 100, 101, 1000] {
            let parallel = find_common_mask_parallel(strings, Some(limit));
            assert_eq!(sequential.is_ok(), parallel.is_ok());
            if let (Ok(left), Ok(right)) = (sequential, parallel) {
                assert_eq!(left, right);
            }
        }
    }
}

#[test]
fn strategy_is_sequential_up_to_the_limit() {
    assert_eq!(select_strategy(&[], 1), Strategy::Sequential);
    assert_eq!(select_strategy(&["abc", "de"], 5), Strategy::Sequential);
    assert_eq!(select_strategy(&["abc", "de"], 6), Strategy::Sequential);
    assert_eq!(select_strategy(&["", ""], 0), Strategy::Sequential);
}

#[test]
fn strategy_is_chunked_beyond_the_limit() {
    assert_eq!(select_strategy(&["abc", "de"], 4), Strategy::ParallelChunked);
    assert_eq!(select_strategy(&["abc", "de", ""], 4), Strategy::ParallelChunked);
    assert_eq!(select_strategy(&["a"], 0), Strategy::ParallelChunked);
    assert_eq!(select_strategy(&["\u{e9}"], 1), Strategy::ParallelChunked);
}

#[test]
fn no_strings_have_every_symbol_in_common() {
    assert_eq!(common_alphabets(&[], None), Ok(EVERY_SYMBOL.to_string()));
    assert_eq!(common_alphabets(&[], Some(1)), Ok(EVERY_SYMBOL.to_string()));
}

#[test]
fn common_alphabet_in_one_pass() {
    let strings = fifty_byte_strings();
    assert_eq!(common_alphabets(&strings, None), Ok(" aehrst".to_string()));
    assert_eq!(common_alphabets(&strings, Some(600)), Ok(" aehrst".to_string()));
}

#[test]
fn common_alphabet_chunk_by_chunk() {
    let strings = fifty_byte_strings();
    assert_eq!(common_alphabets(&strings, Some(599)), Ok(" aehrst".to_string()));
    assert_eq!(common_alphabets(&strings, Some(100)), Ok(" aehrst".to_string()));
    assert_eq!(common_alphabets(&strings, Some(1)), Ok(" aehrst".to_string()));
    assert_eq!(common_alphabets(&strings[0..3], Some(100)), Ok(" aehlrst.".to_string()));
}

#[test]
fn common_alphabet_of_disjoint_strings_is_empty() {
    assert_eq!(common_alphabets(&["abc", "xyz"], None), Ok(String::new()));
    assert_eq!(common_alphabets(&["abc", "xyz"], Some(2)), Ok(String::new()));
}

#[test]
fn common_alphabet_fails_with_the_first_failure_in_one_pass() {
    assert_eq!(
        common_alphabets(&["abc", "d1", "e2"], None),
        Err(AggregateError::Encoding(EncodingError { character: '1' }))
    );
}

#[test]
fn common_alphabet_fails_chunk_by_chunk() {
    assert_eq!(
        common_alphabets(&["abc", "def", "g7", "hij"], Some(4)),
        Err(AggregateError::Encoding(EncodingError { character: '7' }))
    );
}

#[test]
fn common_alphabet_rejects_a_zero_limit() {
    assert_eq!(common_alphabets(&["abc"], Some(0)), Err(AggregateError::ZeroLengthLimit));
    assert_eq!(common_alphabets(&[], Some(0)), Err(AggregateError::ZeroLengthLimit));
}

#[test]
fn outcome_is_rendered_or_handed_on() {
    assert_eq!(render_outcome(Ok(0b111)), Ok(" ab".to_string()));
    assert_eq!(render_outcome(Ok(0)), Ok(String::new()));
    assert_eq!(
        render_outcome(Err(AggregateError::ZeroLengthLimit)),
        Err(AggregateError::ZeroLengthLimit)
    );
    let failure = AggregateError::Encoding(EncodingError { character: '#' });
    assert_eq!(render_outcome(Err(failure)), Err(failure));
}

#[test]
fn reduction_comes_to_a_mask_or_an_encoding_failure() {
    assert_eq!(reduction_result(Ok(0b101)), Ok(0b101));
    let failure = EncodingError { character: '!' };
    assert_eq!(reduction_result(Err(failure)), Err(AggregateError::Encoding(failure)));
}
