use loadpeek::amounts::{push_amount, unit_name};
use loadpeek::double::Double;
use loadpeek::sorting::{arranged, Arrangement};
use loadpeek::inspection::TimeOrder;
use loadpeek::table::{characters_less, precedes, Table};
use loadpeek::text::{
    characters, contains, control, decimal_characters, ends_with, find, join, lower, lowered,
    parse_hexadecimal, parse_i64, parse_u32, parse_u64, parse_usize, push_padded, push_signed,
    read_trimmed, rfind, rows_of, same_text, space, spells, split, split_once, split_whitespace,
    starts_with, string_of, trim,
};

fn chars(text: &str) -> Vec<char> {
    text.chars().collect()
}

fn strings(parts: Vec<Vec<char>>) -> Vec<String> {
    parts.into_iter().map(|part| part.into_iter().collect()).collect()
}

const TEXTS: [&str; 14] = [
    "",
    " ",
    "word",
    "  two words ",
    "tabs\tand\nlines\r\nhere\n",
    "\n\n",
    "a:b:c",
    ":",
    "no-separator",
    "\u{2003}wide\u{3000}spaces\u{a0}",
    "trailing:\r",
    "\r\n\r",
    "uppercase ÄÖ Straße",
    "0x0x1f",
];

#[test]
fn characters_are_classified_like_the_standard_library_does() {
    for code in 0..=0x10ffff_u32 {
        if let Some(c) = char::from_u32(code) {
            assert_eq!(space(c), c.is_whitespace(), "{code:x}");
            assert_eq!(control(c), c.is_control(), "{code:x}");
            assert_eq!(lower(c), c.to_ascii_lowercase(), "{code:x}");
        }
    }
}

#[test]
fn texts_are_cut_like_the_standard_library_cuts_them() {
    for text in TEXTS {
        let all = characters(text);
        assert_eq!(all, chars(text));
        assert_eq!(string_of(&all), text);
        assert_eq!(string_of(trim(&all)), text.trim());
        assert_eq!(strings(split_whitespace(&all)), text.split_whitespace().collect::<Vec<_>>());
        assert_eq!(strings(rows_of(text)), text.lines().collect::<Vec<_>>());
        assert_eq!(strings(split(&all, ':')), text.split(':').collect::<Vec<_>>());
        assert_eq!(string_of(&lowered(&all)), text.to_ascii_lowercase());
        assert_eq!(
            split_once(&all, ':').map(|(a, b)| (string_of(a), string_of(b))),
            text.split_once(':').map(|(a, b)| (a.to_owned(), b.to_owned()))
        );
        assert_eq!(
            read_trimmed(&Some(text.to_owned())).map(|inner| string_of(&inner)),
            Some(text.trim().to_owned()).filter(|inner| !inner.is_empty())
        );
        for part in ["", "o", "words", "\n", "zz", ":"] {
            assert_eq!(contains(&all, &chars(part)), text.contains(part), "{text:?} {part:?}");
            assert_eq!(starts_with(&all, &chars(part)), text.starts_with(part));
            assert_eq!(ends_with(&all, &chars(part)), text.ends_with(part));
            assert_eq!(spells(&all, part), text == part);
            assert_eq!(same_text(text, part), text == part);
        }
        for other in TEXTS {
            assert_eq!(precedes(text, other), text < other, "{text:?} {other:?}");
            assert_eq!(characters_less(&all, &chars(other)), text < other);
        }
    }
    assert_eq!(read_trimmed(&None), None);
}

#[test]
fn characters_are_found_from_both_ends() {
    let text = chars("a(b)c)d");
    assert_eq!(find(&text, '('), 1);
    assert_eq!(find(&text, 'x'), text.len());
    assert_eq!(rfind(&text, ')'), 6);
    assert_eq!(rfind(&text, 'x'), 0);
}

#[test]
fn integers_are_read_like_the_standard_library_reads_them() {
    for text in [
        "", "0", "7", "+7", "-7", "-0", "--1", "+", "-", "007", " 7", "7 ", "1_000", "18446744073709551615",
        "18446744073709551616", "4294967295", "4294967296", "9223372036854775807", "9223372036854775808",
        "-9223372036854775808", "-9223372036854775809", "99999999999999999999999", "0x1", "1.0", "٣",
    ] {
        let all = chars(text);
        assert_eq!(parse_u64(&all), text.parse::<u64>().ok(), "{text}");
        assert_eq!(parse_u32(&all), text.parse::<u32>().ok(), "{text}");
        assert_eq!(parse_usize(&all), text.parse::<usize>().ok(), "{text}");
        assert_eq!(parse_i64(&all), text.parse::<i64>().ok(), "{text}");
    }
    for text in ["", "0", "1f", "FFFFFFFF", "100000000", "+1", "-1", "g", "1043", "0x1", "+", "00000000000001"] {
        assert_eq!(parse_hexadecimal(&chars(text)), u32::from_str_radix(text, 16).ok(), "{text}");
    }
}

#[test]
fn integers_are_written_in_digits() {
    for value in [0_u128, 9, 10, 1234567890, u128::from(u64::MAX), u128::MAX] {
        assert_eq!(string_of(&decimal_characters(value)), value.to_string());
    }
    for (value, width) in [(0_u64, 2_usize), (7, 2), (42, 2), (100, 2), (5, 0)] {
        let mut text = String::new();
        push_padded(&mut text, value, width);
        assert_eq!(text, format!("{value:0width$}"));
    }
    for value in [0_i64, -1, 20, i64::MIN, i64::MAX] {
        let mut text = String::new();
        push_signed(&mut text, value);
        assert_eq!(text, value.to_string());
    }
}

#[test]
fn texts_are_joined_with_a_separator() {
    let list = |texts: &[&str]| texts.iter().map(|text| (*text).to_owned()).collect::<Vec<_>>();
    assert_eq!(join(&list(&[]), ", "), "");
    assert_eq!(join(&list(&["one"]), ", "), "one");
    assert_eq!(join(&list(&["one", "", "three"]), ", "), "one, , three");
}

#[test]
fn a_table_keeps_the_last_value_of_each_name_in_order() {
    let mut table: Table<u32> = Table::new();
    assert!(table.is_empty());
    for (name, value) in [("cpu2", 1), ("cpu", 2), ("cpu10", 3), ("cpu2", 4)] {
        table.insert(name.to_owned(), value);
    }
    assert_eq!(table.len(), 3);
    assert_eq!(table.get("cpu2"), Some(4));
    assert_eq!(table.get("cpu1"), None);
    assert!(table.contains_key("cpu"));
    assert!(!table.contains_key("gpu"));
    let names: Vec<&str> = table.entries.iter().map(|entry| entry.name.as_str()).collect();
    assert_eq!(names, ["cpu", "cpu10", "cpu2"]);
}

#[test]
fn lists_are_brought_into_order() {
    let values = [3.0, -1.0, 2.5, -0.0, 0.0, 2.5, f64::INFINITY];
    let items: Vec<Double> = values.iter().map(|value: &f64| Double::from_bits(value.to_bits())).collect();
    let found: Vec<u64> = arranged(&items, &TimeOrder).iter().map(|item| item.bits).collect();
    let mut expected = values;
    expected.sort_by(f64::total_cmp);
    assert_eq!(found, expected.map(f64::to_bits));
    assert!(TimeOrder.can_precede(&items[1], &items[0]));
    assert!(!TimeOrder.can_precede(&items[0], &items[1]));
}

#[test]
fn amounts_step_through_the_units() {
    let names: Vec<&str> = (0..8).map(unit_name).collect();
    assert_eq!(names, ["B", "KiB", "MiB", "GiB", "TiB", "PiB", "EiB", "EiB"]);
    let mut text = String::from("used ");
    push_amount(&mut text, Double::from_integer(1536), 0, 6);
    assert_eq!(text, "used 1.5 KiB");
    let mut text = String::new();
    push_amount(&mut text, Double::from_integer(1 << 60), 0, 2);
    assert_eq!(text, "1099511627776.0 MiB");
}
