use rust_indexer::trigram::{lowercase_alphanumeric_only, text_trigram_codes, Trigram};

#[test]
fn trigram_trigram_empty() {
    let trigram = Trigram::from_str("");
    assert_eq!(0, trigram.len());
}

#[test]
fn trigram_trigram_less_than_one() {
    let trigram = Trigram::from_str("a");
    assert_eq!(0, trigram.len());

    let trigram = Trigram::from_str("ab");
    assert_eq!(0, trigram.len());
}

#[test]
fn trigram_trigram_one() {
    let trigram = Trigram::from_str("abc");
    assert_eq!(1, trigram.len());
    assert_eq!("abc", trigram.get(0).unwrap());
}

#[test]
fn trigram_trigram_two() {
    let trigram = Trigram::from_str("abcde");
    assert_eq!(3, trigram.len());
    assert_eq!(*"abc", trigram[0]);
    assert_eq!(*"bcd", trigram[1]);
    assert_eq!(*"cde", trigram[2]);
}

#[test]
fn trigram_empty() {
    let trigram = Trigram::from_str("");
    assert_eq!(0, trigram.len());
}

#[test]
fn trigram_less_than_one() {
    let trigram = Trigram::from_str("a");
    assert_eq!(0, trigram.len());

    let trigram = Trigram::from_str("ab");
    assert_eq!(0, trigram.len());
}

#[test]
fn trigram_one() {
    let trigram = Trigram::from_str("abc");
    assert_eq!(1, trigram.len());
    assert_eq!("abc", trigram.get(0).unwrap());
}

#[test]
fn trigram_two() {
    let trigram = Trigram::from_str("abcde");
    assert_eq!(3, trigram.len());
    assert_eq!(*"abc", trigram[0]);
    assert_eq!(*"bcd", trigram[1]);
    assert_eq!(*"cde", trigram[2]);
}

#[test]
fn trigrams_fold_case() {
    let trigrams = Trigram::from_str("AbC");
    assert_eq!(vec![Trigram { first: b'a', second: b'b', third: b'c' }], trigrams);
}

#[test]
fn normalization_keeps_ascii_letters_and_digits() {
    assert_eq!("abc", lowercase_alphanumeric_only("A!b@C"));
    assert_eq!("helloworld42", lowercase_alphanumeric_only("Hello, World! 42"));
    assert_eq!("", lowercase_alphanumeric_only("!@# $%^"));
    assert_eq!("caf", lowercase_alphanumeric_only("Café"));
}

#[test]
fn normalized_trigrams_match() {
    let noisy = Trigram::from_str(&lowercase_alphanumeric_only("A!b@C"));
    let plain = Trigram::from_str(&lowercase_alphanumeric_only("abc"));
    assert_eq!(plain, noisy);
    assert_eq!(text_trigram_codes("A!b@C"), text_trigram_codes("abc"));
}

#[test]
fn trigram_packing() {
    let t = Trigram { first: b'a', second: b'b', third: b'c' };
    assert_eq!(0x61_62_63, t.to_u32());
    let t = Trigram { first: 0xff, second: 0, third: 1 };
    assert_eq!(0xff_00_01, t.to_u32());
    assert_eq!(vec![0x61_62_63u32, 0x62_63_64, 0x63_64_65], text_trigram_codes("ABC-DE"));
}

#[test]
fn trigram_to_string() {
    let t = Trigram { first: b'x', second: b'y', third: b'z' };
    assert_eq!("xyz", t.to_string().unwrap());
    let bad = Trigram { first: 0xff, second: b'a', third: b'b' };
    assert!(bad.to_string().is_err());
}

#[test]
fn short_strings_do_not_equal_trigrams() {
    let t = Trigram { first: b'a', second: b'b', third: b'c' };
    assert!(*"ab" != t);
    assert!(*"abd" != t);
}
