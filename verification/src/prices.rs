//! Reading the three prices of a dish off one line of text.

use crate::model::{ParseError, Prices, PricesView};
use crate::number::{read_amount, Amount, Decimal};
use crate::text::{chars_of, split, split_at_char, strip, stripped, trim, trimmed, views, Strip};
use vstd::prelude::*;

verus! {

/// The currency symbol that may stand beside a price.
pub open spec fn currency() -> Strip {
    Strip::Symbol('€')
}

/// The numeral of one price: the part without the white space around it,
/// then without the currency symbols at its ends, then once more without
/// white space.
pub open spec fn price_numeral(part: Seq<char>) -> Seq<char> {
    trimmed(stripped(trimmed(part), currency()))
}

/// The amounts that the parts denote, in order; a part that denotes none
/// is passed over.
pub open spec fn priced(parts: Seq<Seq<char>>) -> Seq<Amount>
    decreases parts.len(),
{
    if parts.len() == 0 {
        Seq::empty()
    } else {
        let before = priced(parts.drop_last());
        match read_amount(price_numeral(parts.last())) {
            Some(a) => before.push(a),
            None => before,
        }
    }
}

/// What a price text says: its parts between `|` must give exactly three
/// amounts, for students, employees and guests in this order.
pub open spec fn parse_prices(text: Seq<char>) -> Result<PricesView, ParseError> {
    let found = priced(split(text, '|'));
    if found.len() == 3 {
        Ok(PricesView { student: found[0], employee: found[1], guest: found[2] })
    } else {
        Err(ParseError::MalformedPrice)
    }
}

/// The amounts held by a list of decimals.
pub open spec fn amounts(v: Seq<Decimal>) -> Seq<Amount> {
    v.map_values(|d: Decimal| d@)
}

impl Prices {
    /// Three prices of zero, for a dish that shows no price.
    pub fn zero() -> (r: Prices)
        ensures
            r@ == Prices::free(),
    {
        Prices { student: Decimal::zero(), employee: Decimal::zero(), guest: Decimal::zero() }
    }

    /// Three prices of zero.
    pub open spec fn free() -> PricesView {
        let zero = Amount { whole: seq![0u8], frac: Seq::<u8>::empty() };
        PricesView { student: zero, employee: zero, guest: zero }
    }
}

/// Reads the numeral of one price.
pub fn price_of(part: &Vec<char>) -> (r: Option<Decimal>)
    ensures
        match r {
            Some(d) => read_amount(price_numeral(part@)) == Some(d@),
            None => read_amount(price_numeral(part@)).is_none(),
        },
{
    let bare = trim(&strip(&trim(part), Strip::Symbol('€')));
    Decimal::parse(&bare)
}

/// Reads the prices for students, employees and guests.
pub fn extract_prices(text: &str) -> (r: Result<Prices, ParseError>)
    ensures
        match r {
            Ok(p) => parse_prices(text@) == Ok::<PricesView, ParseError>(p@),
            Err(e) => parse_prices(text@) == Err::<PricesView, ParseError>(e),
        },
{
    let parts = split_at_char(&chars_of(text), '|');
    let mut found: Vec<Decimal> = Vec::new();
    let mut i: usize = 0;
    while i < parts.len()
        invariant
            i <= parts.len(),
            amounts(found@) == priced(views(parts@).take(i as int)),
        decreases parts.len() - i,
    {
        proof {
            let all = views(parts@);
            assert(all.take(i + 1).drop_last() == all.take(i as int));
            assert(all.take(i + 1).last() == parts[i as int]@);
        }
        match price_of(&parts[i]) {
            Some(d) => {
                let ghost before = amounts(found@);
                found.push(d);
                assert(amounts(found@) == before.push(d@));
            },
            None => {},
        }
        i += 1;
    }
    proof {
        assert(views(parts@).take(i as int) == views(parts@));
    }
    if found.len() != 3 {
        return Err(ParseError::MalformedPrice);
    }
    let ghost all = amounts(found@);
    assert(all[0] == found[0]@ && all[1] == found[1]@ && all[2] == found[2]@);
    let guest = found.pop().unwrap();
    let employee = found.pop().unwrap();
    let student = found.pop().unwrap();
    Ok(Prices { student, employee, guest })
}

} // verus!
