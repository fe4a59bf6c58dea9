use ulmensa::prices::extract_prices;
use ulmensa::{Decimal, ParseError, Prices};

fn value(d: &Decimal) -> f64 {
    let whole: String = d.whole_digits().iter().map(|x| char::from(b'0' + x)).collect();
    let frac: String = d.frac_digits().iter().map(|x| char::from(b'0' + x)).collect();
    format!("0{}.{}0", whole, frac).parse().unwrap()
}

fn values(p: &Prices) -> (f64, f64, f64) {
    (value(&p.student), value(&p.employee), value(&p.guest))
}

#[test]
fn three_prices_with_trailing_symbol() {
    let p = extract_prices("3,50 € | 4,20 € | 5,00 €").unwrap();
    assert_eq!(values(&p), (3.50, 4.20, 5.00));
    assert_eq!(p.student.whole_digits(), &vec![3]);
    assert_eq!(p.student.frac_digits(), &vec![5, 0]);
    assert_eq!((p.student.mantissa(), p.student.scale()), (Some(350), 2));
    assert_eq!((p.employee.mantissa(), p.employee.scale()), (Some(420), 2));
    assert_eq!((p.guest.mantissa(), p.guest.scale()), (Some(500), 2));
}

#[test]
fn bad_price_text() {
    assert_eq!(extract_prices("bad"), Err(ParseError::MalformedPrice));
}

#[test]
fn three_prices_with_leading_symbol() {
    let p = extract_prices("€ 3,50 | € 4,20 | € 5,00").unwrap();
    assert_eq!(values(&p), (3.50, 4.20, 5.00));
    let p = extract_prices("  €€3,5|€\t4.25|5\n").unwrap();
    assert_eq!(values(&p), (3.5, 4.25, 5.0));
}

#[test]
fn too_few_or_too_many_prices() {
    assert_eq!(extract_prices(""), Err(ParseError::MalformedPrice));
    assert_eq!(extract_prices("€ 3,50 | € 4,20"), Err(ParseError::MalformedPrice));
    assert_eq!(extract_prices("1 | 2 | 3 | 4"), Err(ParseError::MalformedPrice));
    assert_eq!(extract_prices("1 | 2 | x"), Err(ParseError::MalformedPrice));
    assert_eq!(extract_prices("1,2,3 | 2 | 3"), Err(ParseError::MalformedPrice));
    assert_eq!(extract_prices("€ | € | €"), Err(ParseError::MalformedPrice));
}

#[test]
fn part_without_amount_is_passed_over() {
    let p = extract_prices("Preis | 1,00 € | 2,00 € | 3,00 €").unwrap();
    assert_eq!(values(&p), (1.0, 2.0, 3.0));
}

#[test]
fn spellings_that_are_no_decimal() {
    for text in ["-1 | 2 | 3", "+1 | 2 | 3", "1e3 | 2 | 3", "inf | 2 | 3", "NaN | 2 | 3", "1 € € | 2 | 3 x"] {
        assert_eq!(extract_prices(text), Err(ParseError::MalformedPrice), "{}", text);
    }
}

#[test]
fn zero_prices() {
    let p = Prices::zero();
    assert_eq!(values(&p), (0.0, 0.0, 0.0));
}
