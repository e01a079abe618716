use zorsh_schema::names::{parse_generic_type, parse_map_types, parse_tuple_types};
use zorsh_schema::text::{
    chars_of, decimal_text, find_first, find_last, same_text, text_precedes, trim, trim_bounds,
    whitespace,
};

#[test]
fn generic_type_splits_at_first_open_and_last_close() {
    assert_eq!(parse_generic_type("Vec<MyType>"), Some(("Vec", "MyType")));
    assert_eq!(
        parse_generic_type("HashMap<String, Vec<u8>>"),
        Some(("HashMap", "String, Vec<u8>"))
    );
    assert_eq!(parse_generic_type("Vec<>"), Some(("Vec", "")));
    assert_eq!(parse_generic_type("<T>"), Some(("", "T")));
}

#[test]
fn generic_type_drops_what_follows_the_last_close() {
    assert_eq!(parse_generic_type("Vec<u8>tail"), Some(("Vec", "u8")));
}

#[test]
fn generic_type_needs_both_brackets_in_order() {
    assert_eq!(parse_generic_type("Plain"), None);
    assert_eq!(parse_generic_type("Vec<u8"), None);
    assert_eq!(parse_generic_type("Vec u8>"), None);
    assert_eq!(parse_generic_type("><"), None);
    assert_eq!(parse_generic_type(""), None);
}

#[test]
fn generic_type_counts_characters_not_bytes() {
    assert_eq!(parse_generic_type("Größe<Maß>"), Some(("Größe", "Maß")));
}

#[test]
fn map_types_split_at_the_first_comma_and_are_trimmed() {
    assert_eq!(parse_map_types("KeyType, ValueType"), Some(("KeyType", "ValueType")));
    assert_eq!(parse_map_types("String,u32"), Some(("String", "u32")));
    assert_eq!(parse_map_types("  a ,  b  "), Some(("a", "b")));
    assert_eq!(parse_map_types("a, b, c"), Some(("a", "b, c")));
}

#[test]
fn map_types_need_a_comma() {
    assert_eq!(parse_map_types("String"), None);
    assert_eq!(parse_map_types(""), None);
}

#[test]
fn map_types_skip_commas_inside_brackets() {
    assert_eq!(parse_map_types("(A, B), C"), Some(("(A, B)", "C")));
    assert_eq!(
        parse_map_types("HashMap<u8, u16>, Vec<u32>"),
        Some(("HashMap<u8, u16>", "Vec<u32>"))
    );
    assert_eq!(parse_map_types("[(A, B); 3], C"), Some(("[(A, B); 3]", "C")));
    assert_eq!(parse_map_types("(A, B)"), None);
}

#[test]
fn map_types_take_a_stray_closing_bracket_as_text() {
    assert_eq!(parse_map_types(")a, b"), Some((")a", "b")));
}

#[test]
fn tuple_types_split_on_commas_and_are_trimmed() {
    assert_eq!(parse_tuple_types("Type1, Type2"), vec!["Type1", "Type2"]);
    assert_eq!(parse_tuple_types("u8,u16 ,  u32"), vec!["u8", "u16", "u32"]);
    assert_eq!(parse_tuple_types("Single"), vec!["Single"]);
}

#[test]
fn tuple_types_of_an_empty_text_are_one_empty_piece() {
    assert_eq!(parse_tuple_types(""), vec![""]);
    assert_eq!(parse_tuple_types("   "), vec![""]);
}

#[test]
fn tuple_types_keep_a_piece_after_a_trailing_comma() {
    assert_eq!(parse_tuple_types("A,"), vec!["A", ""]);
    assert_eq!(parse_tuple_types(",A"), vec!["", "A"]);
}

#[test]
fn tuple_types_skip_commas_inside_brackets() {
    assert_eq!(parse_tuple_types("(A, B), C"), vec!["(A, B)", "C"]);
    assert_eq!(
        parse_tuple_types("HashMap<String, u32>, Vec<(u8, u16)>, bool"),
        vec!["HashMap<String, u32>", "Vec<(u8, u16)>", "bool"]
    );
}

#[test]
fn trim_removes_whitespace_at_both_ends_only() {
    assert_eq!(trim("  a b  "), "a b");
    assert_eq!(trim("\t\n x \r\n"), "x");
    assert_eq!(trim(""), "");
    assert_eq!(trim(" \t "), "");
    assert_eq!(trim("plain"), "plain");
}

#[test]
fn trim_agrees_with_the_standard_library_on_unicode_whitespace() {
    let samples = [
        "\u{0085}a\u{00A0}",
        "\u{1680}b\u{2000}",
        "\u{200A}c\u{2028}",
        "\u{2029}d\u{202F}",
        "\u{205F}e\u{3000}",
        "\u{200B}f\u{200B}",
        "\u{000B}g\u{000C}",
        "\u{001C}h\u{001F}",
    ];
    for sample in samples {
        assert_eq!(trim(sample), sample.trim());
    }
}

#[test]
fn decimal_text_writes_numbers_in_base_ten() {
    assert_eq!(decimal_text(0), "0");
    assert_eq!(decimal_text(7), "7");
    assert_eq!(decimal_text(10), "10");
    assert_eq!(decimal_text(32), "32");
    assert_eq!(decimal_text(4294967295), "4294967295");
    assert_eq!(decimal_text(u64::MAX), "18446744073709551615");
}

#[test]
fn chars_of_lists_the_characters() {
    assert_eq!(chars_of("aß€"), vec!['a', 'ß', '€']);
    assert_eq!(chars_of(""), Vec::<char>::new());
}

#[test]
fn same_text_compares_character_by_character() {
    assert!(same_text("Vec", "Vec"));
    assert!(!same_text("Vec", "Vec "));
    assert!(!same_text("Vec", "vec"));
    assert!(same_text("", ""));
}

#[test]
fn text_precedes_is_the_order_of_strings() {
    let samples = ["", "A", "AB", "B", "Point", "Segment", "a", "u32", "u8", "ß", "€"];
    for a in samples {
        for b in samples {
            assert_eq!(text_precedes(a, b), a < b);
        }
    }
}

#[test]
fn whitespace_agrees_with_the_standard_library_on_every_character() {
    for code in 0..=0x10FFFFu32 {
        if let Some(c) = char::from_u32(code) {
            assert_eq!(whitespace(c), c.is_whitespace());
        }
    }
}

#[test]
fn trim_bounds_give_the_range_that_is_kept() {
    assert_eq!(trim_bounds(&chars_of("  ab ")), (2, 4));
    assert_eq!(trim_bounds(&chars_of("ab")), (0, 2));
    assert_eq!(trim_bounds(&chars_of("   ")), (3, 3));
    assert_eq!(trim_bounds(&chars_of("")), (0, 0));
}

#[test]
fn find_first_and_find_last_count_characters() {
    let chars = chars_of("ß<a<b>>");
    assert_eq!(find_first(&chars, '<'), Some(1));
    assert_eq!(find_last(&chars, '<'), Some(3));
    assert_eq!(find_first(&chars, '>'), Some(5));
    assert_eq!(find_last(&chars, '>'), Some(6));
    assert_eq!(find_first(&chars, ','), None);
    assert_eq!(find_last(&chars, ','), None);
}
