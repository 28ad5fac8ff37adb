use pirate_sim::seed::{choose_seed, parse_seed, seed_text};

#[test]
fn a_setting_of_digits_fixes_the_seed() {
    assert_eq!(parse_seed("42"), Some(42));
    assert_eq!(parse_seed("0"), Some(0));
    assert_eq!(parse_seed("007"), Some(7));
    assert_eq!(parse_seed("+15"), Some(15));
    assert_eq!(parse_seed("18446744073709551615"), Some(u64::MAX));
    assert_eq!(parse_seed("00018446744073709551615"), Some(u64::MAX));
}

#[test]
fn a_setting_that_writes_no_number_fixes_nothing() {
    for text in ["", "+", "-1", "12a", " 12", "12 ", "1_000", "٣", "++1", "1+", "0x10"] {
        assert_eq!(parse_seed(text), None, "{:?}", text);
    }
    assert_eq!(parse_seed("18446744073709551616"), None);
    assert_eq!(parse_seed("99999999999999999999999"), None);
}

#[test]
fn the_parser_agrees_with_the_standard_one() {
    for text in ["1", "+1", "-0", "", "+", "123456789", "18446744073709551615", "18446744073709551616"] {
        assert_eq!(parse_seed(text), text.parse::<u64>().ok(), "{:?}", text);
    }
}

#[test]
fn without_a_number_in_the_setting_the_clock_gives_the_seed() {
    assert_eq!(choose_seed(Some("1234"), 99), 1234);
    assert_eq!(choose_seed(Some("pirates"), 99), 99);
    assert_eq!(choose_seed(Some(""), 99), 99);
    assert_eq!(choose_seed(None, 99), 99);
}

#[test]
fn a_seed_is_written_in_decimal_digits() {
    assert_eq!(seed_text(0), "0");
    assert_eq!(seed_text(7), "7");
    assert_eq!(seed_text(10), "10");
    assert_eq!(seed_text(1234567890), "1234567890");
    assert_eq!(seed_text(u64::MAX), "18446744073709551615");
    for seed in [0u64, 9, 99, 100, 4096, u64::MAX - 1] {
        assert_eq!(seed_text(seed), seed.to_string());
        assert_eq!(parse_seed(&seed_text(seed)), Some(seed));
    }
}
