//! Numbers as the labels print them: decimal amounts with a comma, and
//! counts whose thousands are grouped by dots.

use vstd::prelude::*;

verus! {

/// Whether `c` is one of the ten ASCII digits.
pub open spec fn is_digit(c: char) -> bool {
    '0' <= c && c <= '9'
}

/// The value of a digit character.
pub open spec fn digit_of(c: char) -> u8 {
    (c as u32 - 48) as u8
}

/// Whether `c` separates the whole part of an amount from its fraction:
/// the comma of the source text, or the dot it is normalised to.
pub open spec fn is_mark(c: char) -> bool {
    c == ',' || c == '.'
}

/// Whether every character of `s` is a digit.
pub open spec fn all_digits(s: Seq<char>) -> bool {
    forall|i: int| 0 <= i < s.len() ==> is_digit(#[trigger] s[i])
}

/// The digit values of a run of digit characters.
pub open spec fn digits_of(s: Seq<char>) -> Seq<u8> {
    s.map_values(|c: char| digit_of(c))
}

/// Index of the first decimal mark at or after `i`, or the length.
pub open spec fn mark_from(s: Seq<char>, i: int) -> int
    decreases s.len() - i,
{
    if 0 <= i < s.len() && !is_mark(s[i]) {
        mark_from(s, i + 1)
    } else {
        i
    }
}

/// The number that a sequence of decimal digits writes.
pub open spec fn number_of(d: Seq<u8>) -> nat
    decreases d.len(),
{
    if d.len() == 0 {
        0
    } else {
        number_of(d.drop_last()) * 10 + d.last() as nat
    }
}

/// A decimal amount: the digits before and after the decimal mark.
pub ghost struct Amount {
    pub whole: Seq<u8>,
    pub frac: Seq<u8>,
}

impl Amount {
    /// At least one digit, and nothing but digits.
    pub open spec fn valid(self) -> bool {
        &&& self.whole.len() + self.frac.len() >= 1
        &&& forall|i: int| 0 <= i < self.whole.len() ==> #[trigger] self.whole[i] < 10
        &&& forall|i: int| 0 <= i < self.frac.len() ==> #[trigger] self.frac[i] < 10
    }

    /// All digits read as one integer; the amount is this over ten to the
    /// power `scale`.
    pub open spec fn mantissa(self) -> nat {
        number_of(self.whole + self.frac)
    }

    /// Number of digits after the decimal mark.
    pub open spec fn scale(self) -> nat {
        self.frac.len()
    }
}

/// What a numeral denotes: digits with at most one decimal mark and at
/// least one digit. Anything else denotes nothing.
pub open spec fn read_amount(s: Seq<char>) -> Option<Amount> {
    let m = mark_from(s, 0);
    let whole = s.take(m);
    let frac = if m < s.len() {
        s.skip(m + 1)
    } else {
        Seq::<char>::empty()
    };
    if all_digits(whole) && all_digits(frac) && whole.len() + frac.len() >= 1 {
        Some(Amount { whole: digits_of(whole), frac: digits_of(frac) })
    } else {
        None
    }
}

/// The digits of a grouped count, dots left out; nothing if any other
/// character occurs.
pub open spec fn grouped_digits(s: Seq<char>) -> Option<Seq<u8>>
    decreases s.len(),
{
    if s.len() == 0 {
        Some(Seq::<u8>::empty())
    } else {
        match grouped_digits(s.drop_last()) {
            None => None,
            Some(d) => if s.last() == '.' {
                Some(d)
            } else if is_digit(s.last()) {
                Some(d.push(digit_of(s.last())))
            } else {
                None
            },
        }
    }
}

/// What a grouped count denotes: its digits read as one integer, if there
/// is at least one digit and the integer fits in an `i32`.
pub open spec fn read_count(s: Seq<char>) -> Option<i32> {
    match grouped_digits(s) {
        Some(d) => if d.len() >= 1 && number_of(d) <= i32::MAX {
            Some(number_of(d) as i32)
        } else {
            None
        },
        None => None,
    }
}

/// Tests for an ASCII digit.
pub fn is_ascii_digit(c: char) -> (r: bool)
    ensures
        r == is_digit(c),
{
    '0' <= c && c <= '9'
}

/// The value of a digit character.
pub fn digit_value(c: char) -> (d: u8)
    requires
        is_digit(c),
    ensures
        d == digit_of(c),
        d < 10,
{
    (c as u32 - 48) as u8
}

/// Reads a count whose thousands are grouped by dots.
pub fn parse_count(s: &Vec<char>) -> (r: Option<i32>)
    ensures
        r == read_count(s@),
{
    let mut acc: u64 = 0;
    let mut seen: usize = 0;
    let mut i: usize = 0;
    let ghost mut d: Seq<u8> = Seq::empty();
    while i < s.len()
        invariant
            i <= s.len(),
            grouped_digits(s@.take(i as int)) == Some(d),
            seen == d.len(),
            seen <= i,
            acc == if number_of(d) <= i32::MAX {
                number_of(d)
            } else {
                0x8000_0000nat
            },
        decreases s.len() - i,
    {
        let c = s[i];
        proof {
            assert(s@.take(i + 1).drop_last() == s@.take(i as int));
            assert(s@.take(i + 1).last() == c);
        }
        if c == '.' {
        } else if is_ascii_digit(c) {
            let v = digit_value(c);
            proof {
                let e = d.push(v);
                assert(e.drop_last() == d);
                assert(e.last() == v);
                d = e;
            }
            seen += 1;
            acc = acc * 10 + v as u64;
            if acc > 0x7fff_ffff {
                acc = 0x8000_0000;
            }
        } else {
            proof {
                lemma_grouped_prefix(s@, i + 1);
            }
            return None;
        }
        i += 1;
    }
    proof {
        assert(s@.take(i as int) == s@);
    }
    if seen >= 1 && acc <= 0x7fff_ffff {
        Some(acc as i32)
    } else {
        None
    }
}

/// Once a prefix denotes no digits, the whole text denotes none.
pub proof fn lemma_grouped_prefix(s: Seq<char>, k: int)
    requires
        0 <= k <= s.len(),
        grouped_digits(s.take(k)).is_none(),
    ensures
        grouped_digits(s).is_none(),
    decreases s.len() - k,
{
    if k < s.len() {
        assert(s.take(k + 1).drop_last() == s.take(k));
        lemma_grouped_prefix(s, k + 1);
    } else {
        assert(s.take(k) == s);
    }
}

/// A number, or one more than the largest that 64 bits hold where it is
/// larger than that.
pub open spec fn capped(n: nat) -> nat {
    if n <= u64::MAX {
        n
    } else {
        0x1_0000_0000_0000_0000
    }
}

/// An exact decimal amount, kept as the digits that were written.
#[derive(Debug, PartialEq, Eq)]
pub struct Decimal {
    whole: Vec<u8>,
    frac: Vec<u8>,
}

impl View for Decimal {
    type V = Amount;

    closed spec fn view(&self) -> Amount {
        Amount { whole: self.whole@, frac: self.frac@ }
    }
}

/// Reads the digits of `s[lo..hi]`, or nothing if one of its characters is
/// no digit.
fn digits_between(s: &Vec<char>, lo: usize, hi: usize) -> (r: Option<Vec<u8>>)
    requires
        lo <= hi <= s.len(),
    ensures
        match r {
            Some(d) => all_digits(s@.subrange(lo as int, hi as int)) && d@ == digits_of(
                s@.subrange(lo as int, hi as int),
            ) && forall|i: int| 0 <= i < d.len() ==> #[trigger] d[i] < 10,
            None => !all_digits(s@.subrange(lo as int, hi as int)),
        },
{
    let mut d: Vec<u8> = Vec::new();
    let mut i: usize = lo;
    while i < hi
        invariant
            lo <= i <= hi <= s.len(),
            all_digits(s@.subrange(lo as int, i as int)),
            d@ == digits_of(s@.subrange(lo as int, i as int)),
            forall|k: int| 0 <= k < d.len() ==> #[trigger] d[k] < 10,
        decreases hi - i,
    {
        let c = s[i];
        if !is_ascii_digit(c) {
            proof {
                assert(s@.subrange(lo as int, hi as int)[i - lo] == c);
            }
            return None;
        }
        d.push(digit_value(c));
        proof {
            assert(s@.subrange(lo as int, i + 1) == s@.subrange(lo as int, i as int).push(c));
        }
        i += 1;
    }
    Some(d)
}

impl Decimal {
    #[verifier::type_invariant]
    spec fn well_formed(self) -> bool {
        self@.valid()
    }

    /// The amount zero, written as the single digit `0`.
    pub fn zero() -> (r: Decimal)
        ensures
            r@ == (Amount { whole: seq![0u8], frac: Seq::<u8>::empty() }),
    {
        let mut whole: Vec<u8> = Vec::new();
        whole.push(0);
        let r = Decimal { whole, frac: Vec::new() };
        assert(r@.whole == seq![0u8]);
        assert(r@.frac == Seq::<u8>::empty());
        r
    }

    /// The amount with the given digits before and after the mark, where
    /// they form one.
    pub fn from_digits(whole: Vec<u8>, frac: Vec<u8>) -> (r: Option<Decimal>)
        ensures
            match r {
                Some(d) => d@ == (Amount { whole: whole@, frac: frac@ }) && d@.valid(),
                None => !(Amount { whole: whole@, frac: frac@ }).valid(),
            },
    {
        if whole.len() == 0 && frac.len() == 0 {
            return None;
        }
        let mut i: usize = 0;
        while i < whole.len()
            invariant
                i <= whole.len(),
                forall|k: int| 0 <= k < i ==> #[trigger] whole[k] < 10,
            decreases whole.len() - i,
        {
            if whole[i] >= 10 {
                return None;
            }
            i += 1;
        }
        let mut j: usize = 0;
        while j < frac.len()
            invariant
                j <= frac.len(),
                forall|k: int| 0 <= k < j ==> #[trigger] frac[k] < 10,
            decreases frac.len() - j,
        {
            if frac[j] >= 10 {
                return None;
            }
            j += 1;
        }
        Some(Decimal { whole, frac })
    }

    /// Reads a numeral: digits with at most one decimal mark.
    pub fn parse(s: &Vec<char>) -> (r: Option<Decimal>)
        ensures
            match r {
                Some(d) => read_amount(s@) == Some(d@) && d@.valid(),
                None => read_amount(s@).is_none(),
            },
    {
        let mut m: usize = 0;
        while m < s.len() && !(s[m] == ',' || s[m] == '.')
            invariant
                m <= s.len(),
                mark_from(s@, 0) == mark_from(s@, m as int),
            decreases s.len() - m,
        {
            m += 1;
        }
        let rest: usize = if m < s.len() {
            m + 1
        } else {
            m
        };
        proof {
            assert(s@.take(m as int) == s@.subrange(0, m as int));
            if m < s.len() {
                assert(s@.skip(m + 1) == s@.subrange(rest as int, s.len() as int));
            } else {
                assert(Seq::<char>::empty() == s@.subrange(rest as int, s.len() as int));
            }
        }
        match digits_between(s, 0, m) {
            None => None,
            Some(whole) => match digits_between(s, rest, s.len()) {
                None => None,
                Some(frac) => {
                    if whole.len() + frac.len() >= 1 {
                        Some(Decimal { whole, frac })
                    } else {
                        None
                    }
                },
            },
        }
    }

    /// The digits before the decimal mark.
    pub fn whole_digits(&self) -> (r: &Vec<u8>)
        ensures
            r@ == self@.whole,
    {
        &self.whole
    }

    /// The digits after the decimal mark.
    pub fn frac_digits(&self) -> (r: &Vec<u8>)
        ensures
            r@ == self@.frac,
    {
        &self.frac
    }

    /// Number of digits after the decimal mark.
    pub fn scale(&self) -> (r: usize)
        ensures
            r == self@.scale(),
    {
        self.frac.len()
    }

    /// All digits read as one integer, where it fits in 64 bits: the
    /// amount is this over ten to the power `scale()`.
    pub fn mantissa(&self) -> (r: Option<u64>)
        ensures
            match r {
                Some(m) => m == self@.mantissa(),
                None => self@.mantissa() > u64::MAX,
            },
    {
        proof {
            use_type_invariant(self);
        }
        let mut acc: u128 = 0;
        let mut i: usize = 0;
        while i < self.whole.len()
            invariant
                i <= self.whole.len(),
                self@.valid(),
                acc == capped(number_of(self.whole@.take(i as int))),
            decreases self.whole.len() - i,
        {
            proof {
                let next = self.whole@.take(i + 1);
                assert(next.drop_last() == self.whole@.take(i as int));
                assert(next.last() == self.whole@[i as int]);
                assert(self@.whole[i as int] < 10);
            }
            acc = acc * 10 + self.whole[i] as u128;
            if acc > 0xffff_ffff_ffff_ffff {
                acc = 0x1_0000_0000_0000_0000;
            }
            i += 1;
        }
        proof {
            assert(self.whole@.take(i as int) == self.whole@);
            assert(self.whole@ + self.frac@.take(0) == self.whole@);
        }
        let mut j: usize = 0;
        while j < self.frac.len()
            invariant
                j <= self.frac.len(),
                self@.valid(),
                acc == capped(number_of(self.whole@ + self.frac@.take(j as int))),
            decreases self.frac.len() - j,
        {
            proof {
                let next = self.whole@ + self.frac@.take(j + 1);
                assert(next.drop_last() == self.whole@ + self.frac@.take(j as int));
                assert(next.last() == self.frac@[j as int]);
                assert(self@.frac[j as int] < 10);
            }
            acc = acc * 10 + self.frac[j] as u128;
            if acc > 0xffff_ffff_ffff_ffff {
                acc = 0x1_0000_0000_0000_0000;
            }
            j += 1;
        }
        proof {
            assert(self.frac@.take(j as int) == self.frac@);
        }
        if acc <= 0xffff_ffff_ffff_ffff {
            Some(acc as u64)
        } else {
            None
        }
    }
}

/// The character that writes a digit.
pub open spec fn digit_char(d: u8) -> char {
    if d == 0 {
        '0'
    } else if d == 1 {
        '1'
    } else if d == 2 {
        '2'
    } else if d == 3 {
        '3'
    } else if d == 4 {
        '4'
    } else if d == 5 {
        '5'
    } else if d == 6 {
        '6'
    } else if d == 7 {
        '7'
    } else if d == 8 {
        '8'
    } else {
        '9'
    }
}

/// The characters that write a sequence of digits.
pub open spec fn digit_chars(d: Seq<u8>) -> Seq<char> {
    d.map_values(|x: u8| digit_char(x))
}

impl Amount {
    /// The amount as the labels write it: the digits before the mark,
    /// and, where digits follow, a comma and those digits.
    pub open spec fn text(self) -> Seq<char> {
        if self.frac.len() == 0 {
            digit_chars(self.whole)
        } else {
            digit_chars(self.whole) + seq![','] + digit_chars(self.frac)
        }
    }
}

/// The decimal digits of a number, without leading zeros.
pub open spec fn decimal_digits(n: nat) -> Seq<u8>
    decreases n,
{
    if n < 10 {
        seq![n as u8]
    } else {
        decimal_digits(n / 10).push((n % 10) as u8)
    }
}

/// A count written with its decimal digits and no grouping.
pub open spec fn count_text(n: i32) -> Seq<char> {
    digit_chars(decimal_digits(n as nat))
}

/// A digit's character is a digit that stands for it.
pub proof fn lemma_digit_char(d: u8)
    requires
        d < 10,
    ensures
        is_digit(digit_char(d)),
        digit_of(digit_char(d)) == d,
{
}

/// Written digits are digits, and read back as themselves.
pub proof fn lemma_digit_chars(d: Seq<u8>)
    requires
        forall|i: int| 0 <= i < d.len() ==> #[trigger] d[i] < 10,
    ensures
        all_digits(digit_chars(d)),
        digits_of(digit_chars(d)) == d,
{
    assert forall|i: int| 0 <= i < d.len() implies is_digit(#[trigger] digit_chars(d)[i])
        && digit_of(digit_chars(d)[i]) == d[i] by {
        lemma_digit_char(d[i]);
    }
    assert(digits_of(digit_chars(d)) =~= d);
}

/// The first mark at or after `i` is at `m` when no mark stands between
/// them and one stands at `m`, or the text ends there.
pub proof fn lemma_mark_at(s: Seq<char>, i: int, m: int)
    requires
        0 <= i <= m <= s.len(),
        forall|k: int| i <= k < m ==> !is_mark(#[trigger] s[k]),
        m < s.len() ==> is_mark(s[m]),
    ensures
        mark_from(s, i) == m,
    decreases m - i,
{
    if i < m {
        lemma_mark_at(s, i + 1, m);
    }
}

/// An amount that is written and read again is the same amount.
pub proof fn lemma_amount_reads_back(a: Amount)
    requires
        a.valid(),
    ensures
        read_amount(a.text()) == Some(a),
{
    let t = a.text();
    let w = digit_chars(a.whole);
    let f = digit_chars(a.frac);
    lemma_digit_chars(a.whole);
    lemma_digit_chars(a.frac);
    let m = a.whole.len() as int;
    assert forall|k: int| 0 <= k < m implies !is_mark(#[trigger] t[k]) by {
        assert(t[k] == w[k]);
        assert(is_digit(w[k]));
    }
    if a.frac.len() == 0 {
        lemma_mark_at(t, 0, m);
        assert(t.take(m) == w);
        assert(digits_of(Seq::<char>::empty()) == a.frac);
        assert(all_digits(Seq::<char>::empty()));
    } else {
        assert(t[m] == ',');
        lemma_mark_at(t, 0, m);
        assert(t.take(m) == w);
        assert(t.skip(m + 1) == f);
    }
}

/// The decimal digits of a number are digits that write it.
pub proof fn lemma_decimal_digits(n: nat)
    ensures
        decimal_digits(n).len() >= 1,
        forall|i: int| 0 <= i < decimal_digits(n).len() ==> #[trigger] decimal_digits(n)[i] < 10,
        number_of(decimal_digits(n)) == n,
    decreases n,
{
    if n < 10 {
        let d = seq![n as u8];
        assert(d.drop_last() == Seq::<u8>::empty());
        assert(number_of(d.drop_last()) == 0);
    } else {
        lemma_decimal_digits(n / 10);
        let d = decimal_digits(n);
        assert(d.drop_last() == decimal_digits(n / 10));
    }
}

/// Digits written without dots are read as the same digits.
pub proof fn lemma_grouped_plain(d: Seq<u8>)
    requires
        forall|i: int| 0 <= i < d.len() ==> #[trigger] d[i] < 10,
    ensures
        grouped_digits(digit_chars(d)) == Some(d),
    decreases d.len(),
{
    let t = digit_chars(d);
    if d.len() == 0 {
        assert(d == Seq::<u8>::empty());
    } else {
        lemma_grouped_plain(d.drop_last());
        assert(t.drop_last() == digit_chars(d.drop_last()));
        lemma_digit_char(d.last());
        assert(t.last() == digit_char(d.last()));
        assert(d.drop_last().push(d.last()) == d);
    }
}

/// A count that is written and read again is the same count.
pub proof fn lemma_count_reads_back(n: i32)
    requires
        n >= 0,
    ensures
        read_count(count_text(n)) == Some(n),
{
    lemma_decimal_digits(n as nat);
    lemma_grouped_plain(decimal_digits(n as nat));
}

} // verus!
