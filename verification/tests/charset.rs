use alphabet_mask::charset::alphabet_set;

fn sorted_bytes(text: &str) -> Vec<u8> {
    let mut bytes: Vec<u8> = alphabet_set(text).into_iter().collect();
    bytes.sort();
    bytes
}

#[test]
fn set_of_an_empty_string_is_empty() {
    assert!(alphabet_set("").is_empty());
}

#[test]
fn set_holds_each_byte_once() {
    assert_eq!(sorted_bytes("banana"), vec![b'a', b'b', b'n']);
}

#[test]
fn set_folds_upper_case() {
    assert_eq!(
        sorted_bytes("Hello, World"),
        vec![b' ', b',', b'd', b'e', b'h', b'l', b'o', b'r', b'w']
    );
}

#[test]
fn set_keeps_what_is_no_letter() {
    assert_eq!(sorted_bytes("a1!Z@["), vec![b'!', b'1', b'@', b'[', b'a', b'z']);
}

#[test]
fn set_takes_the_low_byte_of_a_wide_character() {
    assert_eq!(sorted_bytes("\u{141}"), vec![0x41]);
    assert_eq!(sorted_bytes("\u{e9}\u{1e9}"), vec![0xe9]);
}
