use alphabet_mask::chunks::{Chunker, LENGTH_LIMIT_PER_CHUNK};
use alphabet_mask::parallel::chunk_strings_by;

/// Twelve strings of fifty bytes each.
fn fifty_byte_strings() -> Vec<&'static str> {
    vec![
        "The weather in the highlands changes rapidly here.",
        "She holds a lantern and watches the tide go north.",
        "Her late letters tell the rest, as the hart rests.",
        "Three small hares rest there near the other shelf.",
        "The elder teaches the rest, then the hall settles.",
        "Here the last rehearsal halts, and the cast rests.",
        "A well-read teacher tells the tale \"as it stands\".",
        "The hen's nest sat in the heather near the stream.",
        "Set the kettle there, then let the tea rest a bit.",
        "Earth, rain and salt, then earth, rain, salt, tar.",
        "That street leads east, then left at the old well.",
        "The letter has bent, yet the seal held all the way",
    ]
}

/// A small deterministic generator, so that the same lists come out each run.
fn next_number(state: &mut u64) -> u64 {
    *state = state.wrapping_mul(6364136223846793005).wrapping_add(1442695040888963407);
    *state >> 33
}

fn sample_strings(state: &mut u64) -> Vec<String> {
    let count = next_number(state) % 12;
    let mut strings = Vec::new();
    for _ in 0..count {
        let length = next_number(state) % 9;
        let mut string = String::new();
        for _ in 0..length {
            string.push((b'a' + (next_number(state) % 26) as u8) as char);
        }
        strings.push(string);
    }
    strings
}

#[test]
fn simple() {
    let strings = vec![
        "Hello, world!",                                                      // len = 13
        "The quick brown fox jumps over the lazy dog.",                       // len = 43
        "Lorem ipsum dolor sit amet, consectetur adipiscing elit.",           // len = 57
        "Sed do eiusmod tempor incididunt ut labore et dolore magna aliqua.", // len = 63
        "Ending",                                                             // len = 6
    ];
    // 57 is chosen because the first two strings add up to 56 bytes.
    let chunker = Chunker::with_length_limit(&strings, 57).unwrap();
    let chunks: Vec<_> = chunker.collect();

    assert_eq!(chunks.len(), 4);
    assert_eq!(chunks[0].len(), 2);
    assert_eq!(
        chunks[0],
        vec![
            "Hello, world!",
            "The quick brown fox jumps over the lazy dog."
        ]
    );
    assert_eq!(chunks[1].len(), 1);
    assert_eq!(
        chunks[1],
        vec!["Lorem ipsum dolor sit amet, consectetur adipiscing elit."]
    );
    assert_eq!(chunks[2].len(), 1);
    assert_eq!(
        chunks[2],
        vec!["Sed do eiusmod tempor incididunt ut labore et dolore magna aliqua."]
    );
    assert_eq!(chunks[3].len(), 1);
    assert_eq!(chunks[3], vec!["Ending"]);
}

#[test]
fn empty() {
    let strings = Vec::<&str>::new();
    let chunker = Chunker::new(&strings);
    let chunks: Vec<_> = chunker.collect();

    assert_eq!(chunks.len(), 0);
}

#[test]
fn uniform_strings_100() {
    let strings = fifty_byte_strings();

    const LENGTH_LIMIT: usize = 100;

    let chunker = Chunker::with_length_limit(&strings, LENGTH_LIMIT).unwrap();

    for (i, chunk) in chunker.collect().into_iter().enumerate() {
        assert!(chunk.len() == 2);
        assert!(chunk[0] == fifty_byte_strings()[i * 2]);
        assert!(chunk[1] == fifty_byte_strings()[i * 2 + 1]);

        assert!(chunk.iter().map(|s| s.len()).sum::<usize>() <= LENGTH_LIMIT);
    }
}

#[test]
fn uniform_strings_give_six_chunks() {
    let strings = fifty_byte_strings();
    let chunks = Chunker::with_length_limit(&strings, 100).unwrap().collect();
    assert_eq!(chunks.len(), 6);
}

#[test]
fn default_limit_is_one_mebibyte() {
    assert_eq!(LENGTH_LIMIT_PER_CHUNK, 1 << 20);
    let strings = fifty_byte_strings();
    let chunks = Chunker::new(&strings).collect();
    assert_eq!(chunks, vec![fifty_byte_strings()]);
}

#[test]
fn zero_limit_is_rejected() {
    let strings = vec!["a", "b"];
    assert!(Chunker::with_length_limit(&strings, 0).is_none());
    assert!(chunk_strings_by(&strings, Some(0)).is_none());
    assert!(Chunker::with_length_limit(&strings, 1).is_some());
}

#[test]
fn chunk_strings_by_uses_the_given_limit_or_the_default() {
    let strings = vec!["aa", "bb", "cc"];
    let bounded = chunk_strings_by(&strings, Some(4)).unwrap().collect();
    assert_eq!(bounded, vec![vec!["aa", "bb"], vec!["cc"]]);
    let unbounded = chunk_strings_by(&strings, None).unwrap().collect();
    assert_eq!(unbounded, vec![vec!["aa", "bb", "cc"]]);
}

#[test]
fn next_hands_out_one_chunk_per_call() {
    let strings = vec!["aa", "bb", "cc"];
    let mut chunker = Chunker::with_length_limit(&strings, 4).unwrap();
    assert_eq!(chunker.next(), Some(vec!["aa", "bb"]));
    assert_eq!(chunker.next(), Some(vec!["cc"]));
    assert_eq!(chunker.next(), None);
    assert_eq!(chunker.next(), None);
}

#[test]
fn oversized_string_is_a_chunk_of_its_own() {
    let strings = vec!["aa", "bbbbbbbbbb", "c", "d"];
    let chunks = Chunker::with_length_limit(&strings, 3).unwrap().collect();
    assert_eq!(chunks, vec![vec!["aa"], vec!["bbbbbbbbbb"], vec!["c", "d"]]);
}

#[test]
fn oversized_strings_in_a_row_are_singletons() {
    let strings = vec!["aaaa", "bbbbb", "cccccc"];
    let chunks = Chunker::with_length_limit(&strings, 1).unwrap().collect();
    assert_eq!(chunks, vec![vec!["aaaa"], vec!["bbbbb"], vec!["cccccc"]]);
}

#[test]
fn string_of_exactly_the_limit_fits() {
    let strings = vec!["abc", "d"];
    let chunks = Chunker::with_length_limit(&strings, 3).unwrap().collect();
    assert_eq!(chunks, vec![vec!["abc"], vec!["d"]]);
}

#[test]
fn empty_strings_take_no_room() {
    let strings = vec!["", "", "a", ""];
    let chunks = Chunker::with_length_limit(&strings, 1).unwrap().collect();
    assert_eq!(chunks, vec![vec!["", "", "a", ""]]);
}

#[test]
fn lengths_are_counted_in_bytes() {
    let strings = vec!["\u{e9}", "\u{e9}"];
    let chunks = Chunker::with_length_limit(&strings, 3).unwrap().collect();
    assert_eq!(chunks, vec![vec!["\u{e9}"], vec!["\u{e9}"]]);
    let chunks = Chunker::with_length_limit(&strings, 4).unwrap().collect();
    assert_eq!(chunks, vec![vec!["\u{e9}", "\u{e9}"]]);
}

#[test]
fn chunks_cover_the_input_in_order() {
    let mut state = 7;
    for _ in 0..200 {
        let owned = sample_strings(&mut state);
        let strings: Vec<&str> = owned.iter().map(|s| s.as_str()).collect();
        let limit = 1 + (next_number(&mut state) % 12) as usize;
        let chunks = Chunker::with_length_limit(&strings, limit).unwrap().collect();
        let joined: Vec<&str> = chunks.into_iter().flatten().collect();
        assert_eq!(joined, strings);
    }
}

#[test]
fn chunks_are_bounded_and_never_empty() {
    let mut state = 11;
    for _ in 0..200 {
        let owned = sample_strings(&mut state);
        let strings: Vec<&str> = owned.iter().map(|s| s.as_str()).collect();
        let limit = 1 + (next_number(&mut state) % 12) as usize;
        let chunks = Chunker::with_length_limit(&strings, limit).unwrap().collect();
        assert_eq!(chunks.is_empty(), strings.is_empty());
        for chunk in &chunks {
            assert!(!chunk.is_empty());
            let total: usize = chunk.iter().map(|s| s.len()).sum();
            assert!(total <= limit || (chunk.len() == 1 && chunk[0].len() > limit));
        }
    }
}

#[test]
fn chunks_take_as_many_strings_as_fit() {
    let mut state = 13;
    for _ in 0..200 {
        let owned = sample_strings(&mut state);
        let strings: Vec<&str> = owned.iter().map(|s| s.as_str()).collect();
        let limit = 1 + (next_number(&mut state) % 12) as usize;
        let chunks = Chunker::with_length_limit(&strings, limit).unwrap().collect();
        for pair in chunks.windows(2) {
            let total: usize = pair[0].iter().map(|s| s.len()).sum();
            assert!(total + pair[1][0].len() > limit);
        }
    }
}
