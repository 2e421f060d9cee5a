use indexed_string::indexed_string::IndexedString;

#[test]
fn create_indexed_string() {
    let str = "aaabc";

    let indexed_string = IndexedString::from(str);

    assert_eq!(indexed_string.to_string(), str.to_string());
}

#[test]
fn create_indexed_string_with_unicode() {
    let str = "Café du 🌍";

    let indexed_string = IndexedString::from(str);

    assert_eq!(indexed_string.to_string(), str);
}

#[test]
fn access_indexed_string() {
    let str = "Café du 🌍";

    let indexed_string = IndexedString::from(str);

    println!("{}", indexed_string.get(8));

    assert_eq!(indexed_string.get(8), "🌍");
}

#[test]
fn mutating_index_string() {
    let str = "🌍❤️é💯🇺🇦";

    let mut indexed_string = IndexedString::from(str);

    indexed_string.set(2, "2".to_string());

    assert_eq!(indexed_string.to_string(), "🌍❤️2💯🇺🇦")
}

#[test]
fn iterator_over_indexed_string() {
    let str = "🌍❤️é💯";

    let indexed_string = IndexedString::from(str);

    for (index, item) in indexed_string.iterate().iter().enumerate() {
        match index {
            0 => {
                assert_eq!(item.as_str(), "🌍")
            }
            1 => {
                assert_eq!(item.as_str(), "❤️")
            }
            2 => {
                assert_eq!(item.as_str(), "é")
            }
            3 => {
                assert_eq!(item.as_str(), "💯")
            }
            _ => {
                panic!();
            }
        }
    }
}

#[test]
fn ascii_unit_count() {
    let indexed_string = IndexedString::from("hello");
    assert_eq!(indexed_string.len(), 5);
    assert_eq!(indexed_string.get(0), "h");
    assert_eq!(indexed_string.get(4), "o");
}

#[test]
fn fused_selector_is_one_unit() {
    let indexed_string = IndexedString::from("a❤️b");
    assert_eq!(indexed_string.len(), 3);
    assert_eq!(indexed_string.get(0), "a");
    assert_eq!(indexed_string.get(1), "❤️");
    assert_eq!(indexed_string.get(2), "b");
}

#[test]
fn two_byte_scalar_is_one_unit() {
    let indexed_string = IndexedString::from("é");
    assert_eq!(indexed_string.len(), 1);
    assert_eq!(indexed_string.get(0), "é");
}

#[test]
fn nul_round_trips() {
    let indexed_string = IndexedString::from("\u{0}");
    assert_eq!(indexed_string.len(), 1);
    assert_eq!(indexed_string.get(0), "\u{0}");
    assert_eq!(indexed_string.to_string(), "\u{0}");
}

#[test]
fn empty_string_has_no_units() {
    let indexed_string = IndexedString::from("");
    assert_eq!(indexed_string.len(), 0);
    assert_eq!(indexed_string.to_string(), "");
}

#[test]
fn replacement_length_does_not_change_count() {
    let mut indexed_string = IndexedString::from("abc");
    indexed_string.set(1, "ZZZ".to_string());
    assert_eq!(indexed_string.len(), 3);
    assert_eq!(indexed_string.to_string(), "aZZZc");

    let mut shrunk = IndexedString::from("abc");
    shrunk.set(1, "Z".to_string());
    assert_eq!(shrunk.len(), 3);
    assert_eq!(shrunk.to_string(), "aZc");
}

#[test]
fn string_and_into_string_flatten() {
    let indexed_string = IndexedString::from("Café");
    assert_eq!(indexed_string.string(), "Café");
    assert_eq!(indexed_string.into_string(), "Café");
}

#[test]
fn nul_with_selector_is_one_unit() {
    let str = "\u{0}\u{fe0f}";
    let indexed_string = IndexedString::from(str);
    assert_eq!(indexed_string.len(), 1);
    assert_eq!(indexed_string.to_string(), str);
}
