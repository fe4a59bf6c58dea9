use ulmensa::number::{parse_count, Decimal};
use ulmensa::text::{chars_of, find, is_whitespace, split_at_char, string_of, strip, trim, Strip};
use ulmensa::{get_args, Args, Format};

#[test]
fn white_space_is_what_std_says() {
    for code in 0..=0x10ffffu32 {
        if let Some(c) = char::from_u32(code) {
            assert_eq!(is_whitespace(c), c.is_whitespace(), "{:x}", code);
        }
    }
}

#[test]
fn trim_is_what_std_does() {
    for s in ["", " ", "a", "  a b \t\n", "\u{a0}x\u{2003}", "\u{3000}\u{3000}", "x ", " x", "ä  ö"] {
        assert_eq!(string_of(&trim(&chars_of(s))), s.trim(), "{:?}", s);
    }
}

#[test]
fn strip_takes_a_symbol_from_both_ends() {
    let s = chars_of("€€ 3,50 €");
    assert_eq!(string_of(&strip(&s, Strip::Symbol('€'))), " 3,50 ");
    assert_eq!(string_of(&strip(&chars_of("€€€"), Strip::Symbol('€'))), "");
    assert_eq!(string_of(&strip(&chars_of("a€b"), Strip::Symbol('€'))), "a€b");
}

#[test]
fn split_is_what_std_does() {
    for s in ["", "|", "a|b", "a||b|", "|a", "abc", "ä|ö|ü"] {
        let ours: Vec<String> = split_at_char(&chars_of(s), '|').iter().map(string_of).collect();
        let theirs: Vec<String> = s.split('|').map(String::from).collect();
        assert_eq!(ours, theirs, "{:?}", s);
    }
}

#[test]
fn find_is_what_std_does() {
    let hay = "xxCO2yyCO2";
    assert_eq!(find(&chars_of(hay), &chars_of("CO2"), 0), Some(2));
    assert_eq!(find(&chars_of(hay), &chars_of("CO2"), 3), Some(7));
    assert_eq!(find(&chars_of(hay), &chars_of("CO2"), 8), None);
    assert_eq!(find(&chars_of(hay), &chars_of("CO3"), 0), None);
    assert_eq!(find(&chars_of(hay), &chars_of(""), 10), Some(10));
    assert_eq!(find(&chars_of(hay), &chars_of(""), 11), None);
    assert_eq!(find(&chars_of("äöCO2"), &chars_of("CO2"), 0), Some(2));
}

#[test]
fn counts_grouped_by_dots() {
    assert_eq!(parse_count(&chars_of("1.234")), Some(1234));
    assert_eq!(parse_count(&chars_of("0")), Some(0));
    assert_eq!(parse_count(&chars_of("1.2.3.")), Some(123));
    assert_eq!(parse_count(&chars_of("")), None);
    assert_eq!(parse_count(&chars_of(".")), None);
    assert_eq!(parse_count(&chars_of("12a")), None);
    assert_eq!(parse_count(&chars_of("-12")), None);
    assert_eq!(parse_count(&chars_of("2147483647")), Some(i32::MAX));
    assert_eq!(parse_count(&chars_of("2147483648")), None);
    assert_eq!(parse_count(&chars_of("21474836470")), None);
    assert_eq!(parse_count(&chars_of("99999999999999999999x")), None);
}

#[test]
fn numerals() {
    let d = Decimal::parse(&chars_of("12,50")).unwrap();
    assert_eq!((d.whole_digits(), d.frac_digits()), (&vec![1, 2], &vec![5, 0]));
    let d = Decimal::parse(&chars_of("12.5")).unwrap();
    assert_eq!((d.whole_digits(), d.frac_digits()), (&vec![1, 2], &vec![5]));
    let d = Decimal::parse(&chars_of("7")).unwrap();
    assert_eq!((d.whole_digits(), d.frac_digits()), (&vec![7], &vec![]));
    for bad in ["", ",", ".", "1,2,3", "1.2,3", "1 2", "a", "1a", "٣"] {
        assert_eq!(Decimal::parse(&chars_of(bad)), None, "{:?}", bad);
    }
    assert_eq!(Decimal::parse(&chars_of("0")), Some(Decimal::zero()));
    assert_eq!(Decimal::from_digits(vec![1, 2], vec![5, 0]), Decimal::parse(&chars_of("12,50")));
    assert_eq!(Decimal::from_digits(vec![], vec![]), None);
    assert_eq!(Decimal::from_digits(vec![10], vec![]), None);
    assert_eq!(Decimal::from_digits(vec![1], vec![11]), None);
}

#[test]
fn numerals_are_what_std_reads() {
    for s in ["0", "007", "12,5", ",5", "5,", "3,50", "123456789012345678901234567890,5"] {
        let d = Decimal::parse(&chars_of(s)).unwrap();
        let whole: String = d.whole_digits().iter().map(|x| char::from(b'0' + x)).collect();
        let frac: String = d.frac_digits().iter().map(|x| char::from(b'0' + x)).collect();
        let ours: f64 = format!("0{}.{}0", whole, frac).parse().unwrap();
        let theirs: f64 = s.replace(',', ".").parse().unwrap();
        assert_eq!(ours, theirs, "{:?}", s);
    }
}

#[test]
fn format_follows_the_choices() {
    assert_eq!(get_args(false, 0, false), Args { nutritional_info: false, days: 0, json: false });
    assert_eq!(get_args(false, 0, false).format(), Format::Table);
    assert_eq!(get_args(true, 3, false).format(), Format::TableNutrition);
    assert_eq!(get_args(false, 255, true).format(), Format::Json);
    assert_eq!(get_args(true, 1, true).format(), Format::Json);
    assert_eq!(get_args(true, 7, true).days, 7);
}

#[test]
fn mantissa_and_scale() {
    let d = Decimal::parse(&chars_of("0012,50")).unwrap();
    assert_eq!((d.mantissa(), d.scale()), (Some(1250), 2));
    let d = Decimal::parse(&chars_of(",5")).unwrap();
    assert_eq!((d.mantissa(), d.scale()), (Some(5), 1));
    let d = Decimal::parse(&chars_of("7")).unwrap();
    assert_eq!((d.mantissa(), d.scale()), (Some(7), 0));
    assert_eq!(Decimal::zero().mantissa(), Some(0));
    let d = Decimal::parse(&chars_of("18446744073709551,615")).unwrap();
    assert_eq!((d.mantissa(), d.scale()), (Some(u64::MAX), 3));
    let d = Decimal::parse(&chars_of("18446744073709551,616")).unwrap();
    assert_eq!((d.mantissa(), d.scale()), (None, 3));
    let d = Decimal::parse(&chars_of("1844674407370955161500000000000000000000000000")).unwrap();
    assert_eq!(d.mantissa(), None);
    let d = Decimal::parse(&chars_of("000000000000000000000000000000000000000000001,0")).unwrap();
    assert_eq!((d.mantissa(), d.scale()), (Some(10), 1));
}
