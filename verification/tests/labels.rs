use ulmensa::label::parse;
use ulmensa::{Decimal, ParseError};

fn value(d: &Decimal) -> f64 {
    let whole: String = d.whole_digits().iter().map(|x| char::from(b'0' + x)).collect();
    let frac: String = d.frac_digits().iter().map(|x| char::from(b'0' + x)).collect();
    format!("0{}.{}0", whole, frac).parse().unwrap()
}

const CURRY: &str = "Chicken Curry CO2 Fußabdruck pro Portion 1.234\n2000 kJ / 478 kcal\n20 g\n10 g, 3 g\n40 g, 5 g\n2 g";

#[test]
fn chicken_curry_label_is_read() {
    let label = parse(CURRY).unwrap();
    assert_eq!(label.name, "Chicken Curry ");
    assert_eq!(label.co2_grams, 1234);
    assert_eq!(value(&label.nutrition.energy_kj), 2000.0);
    assert_eq!(value(&label.nutrition.energy_kcal), 478.0);
    assert_eq!(value(&label.nutrition.protein), 20.0);
    assert_eq!(value(&label.nutrition.fat.0), 10.0);
    assert_eq!(value(&label.nutrition.fat.1), 3.0);
    assert_eq!(value(&label.nutrition.carbohydrates.0), 40.0);
    assert_eq!(value(&label.nutrition.carbohydrates.1), 5.0);
    assert_eq!(value(&label.nutrition.salt), 2.0);
}

#[test]
fn four_lines_are_malformed_input() {
    let r = parse("Soup CO2 Fußabdruck pro Portion 12\n\n100 kJ / 24 kcal\n   \n1 g\n2 g, 1 g\n");
    assert_eq!(r, Err(ParseError::MalformedInput));
}

#[test]
fn empty_label_is_malformed_input() {
    assert_eq!(parse(""), Err(ParseError::MalformedInput));
    assert_eq!(parse("\n \n\t\n"), Err(ParseError::MalformedInput));
}

#[test]
fn five_lines_are_malformed_input() {
    let r = parse("A CO2 Fußabdruck pro Portion 1\n1 kJ / 1 kcal\n1 g\n1 g, 1 g\n1 g, 1 g");
    assert_eq!(r, Err(ParseError::MalformedInput));
}

#[test]
fn caption_and_blank_lines_are_left_out() {
    let text = "  Linsensuppe CO2 Fußabdruck pro Portion 321  \n\nNährwertangaben pro Portion\n  1.234,5 kJ / 234,5 kcal\n\n Eiweiß: 7,5 g\n Fett: 12,25 g, davon gesättigt 0,5 g\r\n Kohlenhydrate 30 g (davon Zucker 4,0 g)\n\u{a0}Salz 1,2 g\u{3000}\n";
    let label = parse(text).unwrap();
    assert_eq!(label.name, "Linsensuppe ");
    assert_eq!(label.co2_grams, 321);
    // the dot is no part of an amount: the match starts after it
    assert_eq!(value(&label.nutrition.energy_kj), 234.5);
    assert_eq!(value(&label.nutrition.energy_kcal), 234.5);
    assert_eq!(value(&label.nutrition.protein), 7.5);
    assert_eq!(value(&label.nutrition.fat.0), 12.25);
    assert_eq!(value(&label.nutrition.fat.1), 0.5);
    assert_eq!(value(&label.nutrition.carbohydrates.0), 30.0);
    assert_eq!(value(&label.nutrition.carbohydrates.1), 4.0);
    assert_eq!(value(&label.nutrition.salt), 1.2);
}

#[test]
fn amounts_keep_their_digits() {
    let label = parse("X CO2 Fußabdruck pro Portion 7\n1,50 kJ / ,5 kcal\n3, g\n1 g 2 g\n3 g 4 g\n007 g").unwrap();
    assert_eq!(label.nutrition.energy_kj.whole_digits(), &vec![1]);
    assert_eq!(label.nutrition.energy_kj.frac_digits(), &vec![5, 0]);
    assert_eq!(label.nutrition.energy_kcal.whole_digits(), &Vec::<u8>::new());
    assert_eq!(label.nutrition.energy_kcal.frac_digits(), &vec![5]);
    assert_eq!(label.nutrition.protein.whole_digits(), &vec![3]);
    assert_eq!(label.nutrition.protein.frac_digits(), &Vec::<u8>::new());
    assert_eq!(label.nutrition.salt.whole_digits(), &vec![0, 0, 7]);
}

#[test]
fn missing_co2_mark() {
    let r = parse("Chicken Curry Fußabdruck pro Portion 1.234\n2000 kJ / 478 kcal\n20 g\n10 g, 3 g\n40 g, 5 g\n2 g");
    assert_eq!(r, Err(ParseError::MissingCO2));
}

#[test]
fn missing_footprint_number() {
    let r = parse("Chicken Curry CO2 Fußabdruck pro Portion x\n2000 kJ / 478 kcal\n20 g\n10 g, 3 g\n40 g, 5 g\n2 g");
    assert_eq!(r, Err(ParseError::MissingCO2));
    let r = parse("Chicken Curry CO2 Fußabdruck pro Portion ...\n2000 kJ / 478 kcal\n20 g\n10 g, 3 g\n40 g, 5 g\n2 g");
    assert_eq!(r, Err(ParseError::MissingCO2));
}

#[test]
fn footprint_before_the_mark_does_not_count() {
    let r = parse("abdruck pro Portion 5 CO2\n2000 kJ / 478 kcal\n20 g\n10 g, 3 g\n40 g, 5 g\n2 g");
    assert_eq!(r, Err(ParseError::MissingCO2));
}

#[test]
fn footprint_must_fit() {
    let ok = parse("A CO2 abdruck pro Portion 2.147.483.647\n1 kJ / 1 kcal\n1 g\n1 g 1 g\n1 g 1 g\n1 g").unwrap();
    assert_eq!(ok.co2_grams, 2147483647);
    let r = parse("A CO2 abdruck pro Portion 2.147.483.648\n1 kJ / 1 kcal\n1 g\n1 g 1 g\n1 g 1 g\n1 g");
    assert_eq!(r, Err(ParseError::MissingCO2));
    let r = parse("A CO2 abdruck pro Portion 99999999999999999999999999\n1 kJ / 1 kcal\n1 g\n1 g 1 g\n1 g 1 g\n1 g");
    assert_eq!(r, Err(ParseError::MissingCO2));
    let zeros = parse("A CO2 abdruck pro Portion 0000000000000000000000012\n1 kJ / 1 kcal\n1 g\n1 g 1 g\n1 g 1 g\n1 g").unwrap();
    assert_eq!(zeros.co2_grams, 12);
}

#[test]
fn second_footprint_is_taken_when_the_first_has_no_number() {
    let label = parse("A CO2 abdruck pro Portion abdruck pro Portion 15 g\n1 kJ / 1 kcal\n1 g\n1 g 1 g\n1 g 1 g\n1 g").unwrap();
    assert_eq!(label.co2_grams, 15);
    assert_eq!(label.name, "A ");
}

#[test]
fn name_ends_at_the_first_mark() {
    let label = parse("Tofu CO2 frei CO2 Fußabdruck pro Portion 80\n1 kJ / 1 kcal\n1 g\n1 g 1 g\n1 g 1 g\n1 g").unwrap();
    assert_eq!(label.name, "Tofu ");
    assert_eq!(label.co2_grams, 80);
}

#[test]
fn missing_energy() {
    let r = parse("A CO2 abdruck pro Portion 1\n2000 kJ 478 kcal\n20 g\n10 g, 3 g\n40 g, 5 g\n2 g");
    assert_eq!(r, Err(ParseError::MissingEnergy));
    let r = parse("A CO2 abdruck pro Portion 1\n1,2,3 kJ / 478 kcal\n20 g\n10 g, 3 g\n40 g, 5 g\n2 g");
    assert_eq!(r, Err(ParseError::MissingEnergy));
    let r = parse("A CO2 abdruck pro Portion 1\n12 kJ / , kcal\n20 g\n10 g, 3 g\n40 g, 5 g\n2 g");
    assert_eq!(r, Err(ParseError::MissingEnergy));
}

#[test]
fn missing_protein() {
    let r = parse("A CO2 abdruck pro Portion 1\n2000 kJ / 478 kcal\n20g\n10 g, 3 g\n40 g, 5 g\n2 g");
    assert_eq!(r, Err(ParseError::MissingProtein));
    // the first match decides, even where a later one would do
    let r = parse("A CO2 abdruck pro Portion 1\n2000 kJ / 478 kcal\n1,,2 g 20 g\n10 g, 3 g\n40 g, 5 g\n2 g");
    assert_eq!(r, Err(ParseError::MissingProtein));
}

#[test]
fn missing_fat() {
    let r = parse("A CO2 abdruck pro Portion 1\n2000 kJ / 478 kcal\n20 g\n10 g\n40 g, 5 g\n2 g");
    assert_eq!(r, Err(ParseError::MissingFat));
    let r = parse("A CO2 abdruck pro Portion 1\n2000 kJ / 478 kcal\n20 g\n10 g, ,, g\n40 g, 5 g\n2 g");
    assert_eq!(r, Err(ParseError::MissingFat));
}

#[test]
fn malformed_amount_is_passed_over_among_several() {
    let label = parse("A CO2 abdruck pro Portion 1\n2000 kJ / 478 kcal\n20 g\n1,2,3 g, 10 g, 3 g, 99 g\n40 g, 5 g\n2 g").unwrap();
    assert_eq!(value(&label.nutrition.fat.0), 10.0);
    assert_eq!(value(&label.nutrition.fat.1), 3.0);
}

#[test]
fn missing_carbohydrate() {
    let r = parse("A CO2 abdruck pro Portion 1\n2000 kJ / 478 kcal\n20 g\n10 g, 3 g\n40 g, 5 mg\n2 g");
    assert_eq!(r, Err(ParseError::MissingCarbohydrate));
}

#[test]
fn missing_salt() {
    let r = parse("A CO2 abdruck pro Portion 1\n2000 kJ / 478 kcal\n20 g\n10 g, 3 g\n40 g, 5 g\nwenig");
    assert_eq!(r, Err(ParseError::MissingSalt));
}

#[test]
fn first_failing_line_decides() {
    let r = parse("A CO2 abdruck pro Portion 1\nx\ny\nz\nw\nv");
    assert_eq!(r, Err(ParseError::MissingEnergy));
    let r = parse("A\nx\ny\nz\nw\nv");
    assert_eq!(r, Err(ParseError::MissingCO2));
}

#[test]
fn lines_after_the_sixth_are_ignored() {
    let mut text = String::from(CURRY);
    text.push_str("\nAllergene: keine\n");
    assert_eq!(parse(&text), parse(CURRY));
}

#[test]
fn reading_twice_gives_the_same() {
    assert_eq!(parse(CURRY), parse(CURRY));
    assert_eq!(parse("bad"), parse("bad"));
}

#[test]
fn formatted_label_reads_back() {
    let names = ["Chicken Curry ", "Käsespätzle mit Röstzwiebeln ", "", "Dish 2 g "];
    let counts = [0i32, 7, 1234, 2147483647];
    let amounts = [("2000", ""), ("478", "5"), ("0", "25"), ("", "5"), ("007", "100")];
    for (n, name) in names.iter().enumerate() {
        let co2 = counts[n % counts.len()];
        let pick = |k: usize| amounts[(n + k) % amounts.len()];
        let show = |a: (&str, &str)| {
            if a.1.is_empty() {
                a.0.to_string()
            } else {
                format!("{},{}", a.0, a.1)
            }
        };
        let text = format!(
            "{}CO2 Fußabdruck pro Portion {}\n{} kJ / {} kcal\n{} g\n{} g, {} g\n{} g, {} g\n{} g",
            name,
            co2,
            show(pick(0)),
            show(pick(1)),
            show(pick(2)),
            show(pick(3)),
            show(pick(4)),
            show(pick(5)),
            show(pick(6)),
            show(pick(7)),
        );
        let label = parse(&text).unwrap();
        assert_eq!(&label.name, name);
        assert_eq!(label.co2_grams, co2);
        let digits = |s: &str| s.bytes().map(|b| b - b'0').collect::<Vec<u8>>();
        let same = |d: &Decimal, a: (&str, &str)| {
            d.whole_digits() == &digits(a.0) && d.frac_digits() == &digits(a.1)
        };
        assert!(same(&label.nutrition.energy_kj, pick(0)));
        assert!(same(&label.nutrition.energy_kcal, pick(1)));
        assert!(same(&label.nutrition.protein, pick(2)));
        assert!(same(&label.nutrition.fat.0, pick(3)));
        assert!(same(&label.nutrition.fat.1, pick(4)));
        assert!(same(&label.nutrition.carbohydrates.0, pick(5)));
        assert!(same(&label.nutrition.carbohydrates.1, pick(6)));
        assert!(same(&label.nutrition.salt, pick(7)));
    }
}

fn amount(whole: &[u8], frac: &[u8]) -> Decimal {
    Decimal::from_digits(whole.to_vec(), frac.to_vec()).unwrap()
}

fn curry() -> ulmensa::Label {
    ulmensa::Label {
        name: "Chicken Curry ".to_string(),
        co2_grams: 1234,
        nutrition: ulmensa::NutritionalInfo {
            energy_kj: amount(&[2, 0, 0, 0], &[]),
            energy_kcal: amount(&[4, 7, 8], &[]),
            protein: amount(&[2, 0], &[]),
            fat: (amount(&[1, 0], &[]), amount(&[3], &[])),
            carbohydrates: (amount(&[4, 0], &[]), amount(&[5], &[])),
            salt: amount(&[2], &[]),
        },
    }
}

#[test]
fn written_label_has_the_printed_shape() {
    let text = ulmensa::written::write_label(&curry()).unwrap();
    assert_eq!(
        text,
        "Chicken Curry CO2 Fußabdruck pro Portion 1234\n2000 kJ / 478 kcal\n20 g\n10 g, 3 g\n40 g, 5 g\n2 g"
    );
    assert_eq!(parse(CURRY), Ok(curry()));
}

#[test]
fn written_label_reads_back() {
    let mut labels = vec![curry()];
    let mut other = curry();
    other.name = String::new();
    other.co2_grams = 0;
    other.nutrition.energy_kj = amount(&[], &[5]);
    other.nutrition.fat = (amount(&[0, 0], &[2, 5, 0]), amount(&[1, 2, 3, 4, 5, 6, 7, 8, 9, 0], &[1]));
    labels.push(other);
    let mut big = curry();
    big.name = "Grünkohl (C O2) ₂ ".to_string();
    big.co2_grams = i32::MAX;
    labels.push(big);
    for label in labels {
        let text = ulmensa::written::write_label(&label).unwrap();
        assert_eq!(parse(&text), Ok(label), "{:?}", text);
    }
}

#[test]
fn negative_footprint_is_not_written() {
    let mut label = curry();
    label.co2_grams = -1;
    assert_eq!(ulmensa::written::write_label(&label), None);
    label.co2_grams = i32::MIN;
    assert_eq!(ulmensa::written::write_label(&label), None);
}

#[test]
fn label_whose_name_cannot_head_it_reads_back_otherwise() {
    let mut label = curry();
    label.name = " CO2-arm ".to_string();
    let text = ulmensa::written::write_label(&label).unwrap();
    let back = parse(&text).unwrap();
    assert_eq!(back.name, "");
    assert_eq!(back.co2_grams, 1234);
    label.name = "Nährwertangaben ".to_string();
    let text = ulmensa::written::write_label(&label).unwrap();
    assert_eq!(parse(&text), Err(ParseError::MalformedInput));
}
