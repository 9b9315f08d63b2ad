use parts_shopper::text::{
    concat_str, drop_bytes, find_char, find_pair, first_piece, first_word, nth_line_1, nth_piece_1,
    parse_choice, remove_char, replace_char, split_whitespace, str_contains, to_decimal,
    trim_whitespace, trunc_padd, trunc_padd_start, ChoiceError,
};

#[test]
fn trunc_padd_pads_short_text() {
    assert_eq!(trunc_padd("abc", 6), "abc   ");
}

#[test]
fn trunc_padd_cuts_long_text() {
    assert_eq!(trunc_padd("abcdefgh", 5), "abcde");
}

#[test]
fn trunc_padd_keeps_exact_width() {
    assert_eq!(trunc_padd("abcde", 5), "abcde");
}

#[test]
fn trunc_padd_counts_bytes_not_chars() {
    // "čć" takes four bytes, so two spaces make six
    assert_eq!(trunc_padd("čć", 6), "čć  ");
    assert_eq!(trunc_padd("čćž", 4), "čć");
}

#[test]
fn trunc_padd_is_idempotent() {
    let once = trunc_padd("Tranzistor BC547", 8);
    assert_eq!(trunc_padd(&once, 8), once);
    let padded = trunc_padd("ab", 8);
    assert_eq!(trunc_padd(&padded, 8), padded);
    assert_eq!(padded.len(), 8);
}

#[test]
fn trunc_padd_start_pads_short_text() {
    assert_eq!(trunc_padd_start("abc", 6), "   abc");
}

#[test]
fn trunc_padd_start_cuts_long_text() {
    assert_eq!(trunc_padd_start("123456789012", 10), "1234567890");
}

#[test]
fn trunc_padd_start_is_idempotent() {
    let once = trunc_padd_start("12.5", 10);
    assert_eq!(once.len(), 10);
    assert_eq!(trunc_padd_start(&once, 10), once);
}

#[test]
fn trunc_padd_empty_width() {
    assert_eq!(trunc_padd("", 0), "");
    assert_eq!(trunc_padd_start("x", 0), "");
}

#[test]
fn trim_whitespace_drops_single_byte_words() {
    assert_eq!(trim_whitespace("  a  bc\t d\n efg "), "bc efg");
}

#[test]
fn trim_whitespace_keeps_single_multibyte_char() {
    assert_eq!(trim_whitespace("x č y"), "č");
}

#[test]
fn trim_whitespace_of_blank_is_empty() {
    assert_eq!(trim_whitespace(" \t\n\u{a0} "), "");
}

#[test]
fn trim_whitespace_is_idempotent() {
    let s = "  Otpornik   10k \n  0,25W  x";
    let once = trim_whitespace(s);
    assert_eq!(once, "Otpornik 10k 0,25W");
    assert_eq!(trim_whitespace(&once), once);
}

#[test]
fn split_whitespace_gives_words_in_order() {
    assert_eq!(split_whitespace(" a\u{2003}bb  c "), vec!["a", "bb", "c"]);
    assert!(split_whitespace("   ").is_empty());
}

#[test]
fn first_word_of_text() {
    assert_eq!(first_word("  12,50 RSD"), Some("12,50".to_string()));
    assert_eq!(first_word(" \n "), None);
}

#[test]
fn second_line_of_text() {
    assert_eq!(nth_line_1("Cena:\r\n  1.234,50 din\r\n"), Some("  1.234,50 din".to_string()));
    assert_eq!(nth_line_1("one\ntwo"), Some("two".to_string()));
    assert_eq!(nth_line_1("one\n"), None);
    assert_eq!(nth_line_1("one"), None);
    assert_eq!(nth_line_1("one\n\nthree"), Some("".to_string()));
    assert_eq!(nth_line_1("a\nb\r"), Some("b\r".to_string()));
}

#[test]
fn second_piece_of_text() {
    assert_eq!(nth_piece_1("BC | Tranzistor | NPN", '|', ' '), Some("Tranzistor ".to_string()));
    assert_eq!(nth_piece_1("BC | Tranzistor", '|', ' '), Some("Tranzistor".to_string()));
    assert_eq!(nth_piece_1("BC|Tranzistor", '|', ' '), None);
}

#[test]
fn first_piece_of_text() {
    assert_eq!(first_piece("1.050,00(sa PDV)", '('), "1.050,00");
    assert_eq!(first_piece("no bracket", '('), "no bracket");
}

#[test]
fn find_char_and_pair_positions() {
    assert_eq!(find_char("ab\ncd\n", '\n', 0), Some(2));
    assert_eq!(find_char("ab\ncd\n", '\n', 3), Some(5));
    assert_eq!(find_char("abc", '\n', 0), None);
    assert_eq!(find_pair("a| b| c", '|', ' ', 0), Some(1));
    assert_eq!(find_pair("a| b| c", '|', ' ', 3), Some(4));
    assert_eq!(find_pair("a|b", '|', ' ', 0), None);
}

#[test]
fn drop_bytes_of_text() {
    assert_eq!(drop_bytes("../x.php", 2), Some("/x.php".to_string()));
    assert_eq!(drop_bytes("..", 2), Some("".to_string()));
    assert_eq!(drop_bytes(".", 2), None);
    assert_eq!(drop_bytes("ča", 1), None);
    assert_eq!(drop_bytes("ča", 2), Some("a".to_string()));
}

#[test]
fn replacing_and_removing_chars() {
    assert_eq!(remove_char("1.234.567,50", '.'), "1234567,50");
    assert_eq!(replace_char("1234,50", ',', "."), "1234.50");
}

#[test]
fn concat_joins_texts() {
    assert_eq!(concat_str("http://www.kelco.rs", "/a"), "http://www.kelco.rs/a");
}

#[test]
fn str_contains_finds_substrings() {
    assert!(str_contains("ok, kraj kupovine\n", "kraj kupovine"));
    assert!(!str_contains("kraj kupov", "kraj kupovine"));
    assert!(str_contains("anything", ""));
    assert!(str_contains("yes", "y"));
    assert!(!str_contains("ne", "y"));
}

#[test]
fn to_decimal_writes_numbers() {
    assert_eq!(to_decimal(0), "0");
    assert_eq!(to_decimal(7), "7");
    assert_eq!(to_decimal(10), "10");
    assert_eq!(to_decimal(1234567), "1234567");
    assert_eq!(to_decimal(usize::MAX), usize::MAX.to_string());
}

#[test]
fn parse_choice_reads_first_line() {
    assert_eq!(parse_choice("3\n", 5), Ok(3));
    assert_eq!(parse_choice("3\r\nrest", 5), Ok(3));
    assert_eq!(parse_choice("+4\n", 5), Ok(4));
    assert_eq!(parse_choice("0", 1), Ok(0));
}

#[test]
fn parse_choice_errors() {
    assert_eq!(parse_choice("\n", 5), Err(ChoiceError::Empty));
    assert_eq!(parse_choice("x\n", 5), Err(ChoiceError::InvalidDigit));
    assert_eq!(parse_choice("+\n", 5), Err(ChoiceError::InvalidDigit));
    assert_eq!(parse_choice("-1\n", 5), Err(ChoiceError::InvalidDigit));
    assert_eq!(parse_choice(" 1\n", 5), Err(ChoiceError::InvalidDigit));
    assert_eq!(parse_choice("99999999999999999999999\n", 5), Err(ChoiceError::TooLarge));
    assert_eq!(parse_choice("99999999999999999999999x\n", 5), Err(ChoiceError::TooLarge));
    assert_eq!(parse_choice("5\n", 5), Err(ChoiceError::OutOfRange));
}

#[test]
fn parse_choice_agrees_with_std_parse() {
    for s in ["", "+", "-", "12", "+12", "1a", "a1", "007", "18446744073709551615", "18446744073709551616"] {
        let ours = parse_choice(&format!("{s}\n"), usize::MAX);
        let std = s.parse::<usize>();
        match std {
            Ok(v) if v < usize::MAX => assert_eq!(ours, Ok(v)),
            Ok(_) => assert_eq!(ours, Err(ChoiceError::OutOfRange)),
            Err(_) => assert!(ours.is_err()),
        }
    }
}

#[test]
fn listed_number_chooses_article() {
    for n in [0usize, 1, 9, 10, 42, 999] {
        let line = format!("{}\n", to_decimal(n));
        assert_eq!(parse_choice(&line, 1000), Ok(n));
    }
}

#[test]
fn trimmed_words_are_the_long_words() {
    let s = " x  Otpornik\t10k  a č  ";
    let long: Vec<String> = split_whitespace(s).into_iter().filter(|w| w.len() > 1).collect();
    assert_eq!(split_whitespace(&trim_whitespace(s)), long);
}
