//! Reading the nutrition label of a dish: its name, its CO2 footprint and
//! the six lines of the nutrition table.

use crate::model::{Label, LabelView, Nutrition, NutritionalInfo, ParseError};
use crate::number::{
    is_ascii_digit, is_digit, parse_count, read_amount, read_count, Amount, Decimal,
};
use crate::text::{
    chars_of, find, find_from, has_at, occurs_at, slice_of, split, split_at_char, string_of, trim,
    trimmed, views,
};
use vstd::prelude::*;

verus! {

/// What separates a dish's name from its footprint on the first line.
pub open spec fn co2_mark() -> Seq<char> {
    "CO2"@
}

/// The words right before the footprint's number.
pub open spec fn footprint_lead() -> Seq<char> {
    "abdruck pro Portion "@
}

/// What follows the energy in kilojoules.
pub open spec fn kj_unit() -> Seq<char> {
    " kJ / "@
}

/// What follows the energy in kilocalories.
pub open spec fn kcal_unit() -> Seq<char> {
    " kcal"@
}

/// What follows an amount in grams.
pub open spec fn gram_unit() -> Seq<char> {
    " g"@
}

/// The caption that heads the nutrition table; its line is left out.
pub open spec fn caption() -> Seq<char> {
    "Nährwertangaben"@
}

/// Whether `c` belongs to a number written with the separator `mark`.
pub open spec fn in_number(c: char, mark: char) -> bool {
    is_digit(c) || c == mark
}

/// End of the longest run of number characters that starts at `i`.
pub open spec fn run_end(s: Seq<char>, mark: char, i: int) -> int
    decreases s.len() - i,
{
    if 0 <= i < s.len() && in_number(s[i], mark) {
        run_end(s, mark, i + 1)
    } else {
        i
    }
}

/// The three shapes that the label's lines are searched for.
#[derive(Clone, Copy, PartialEq, Eq, Debug)]
pub enum Token {
    /// `abdruck pro Portion <count>`, the count grouped by dots.
    Footprint,
    /// `<amount> kJ / <amount> kcal`.
    Energy,
    /// `<amount> g`.
    Grams,
}

/// One occurrence of a token: the numbers it holds as written, and where
/// it ends.
pub ghost struct Hit {
    pub first: Seq<char>,
    pub second: Seq<char>,
    pub end: int,
}

/// The occurrence of `t` that starts at index `i` of `s`, if there is one.
/// A number is always the longest run of its characters.
pub open spec fn token_at(t: Token, s: Seq<char>, i: int) -> Option<Hit> {
    match t {
        Token::Footprint => {
            let j = i + footprint_lead().len();
            let e = run_end(s, '.', j);
            if has_at(s, i, footprint_lead()) && j < e {
                Some(Hit { first: s.subrange(j, e), second: Seq::empty(), end: e })
            } else {
                None
            }
        },
        Token::Energy => {
            let e = run_end(s, ',', i);
            let j = e + kj_unit().len();
            let f = run_end(s, ',', j);
            if i < e && has_at(s, e, kj_unit()) && j < f && has_at(s, f, kcal_unit()) {
                Some(
                    Hit {
                        first: s.subrange(i, e),
                        second: s.subrange(j, f),
                        end: f + kcal_unit().len(),
                    },
                )
            } else {
                None
            }
        },
        Token::Grams => {
            let e = run_end(s, ',', i);
            if i < e && has_at(s, e, gram_unit()) {
                Some(
                    Hit { first: s.subrange(i, e), second: Seq::empty(), end: e + gram_unit().len() },
                )
            } else {
                None
            }
        },
    }
}

/// The leftmost occurrence of `t` in `s` that starts at or after `from`.
pub open spec fn first_hit(t: Token, s: Seq<char>, from: int) -> Option<Hit>
    decreases s.len() - from + 1,
{
    if from < 0 || from > s.len() {
        None
    } else {
        match token_at(t, s, from) {
            Some(h) => Some(h),
            None => first_hit(t, s, from + 1),
        }
    }
}

/// The amounts in grams that `s` gives at or after `from`, in order: each
/// search starts where the last occurrence ended, and an occurrence whose
/// number is no amount is passed over.
pub open spec fn gram_amounts(s: Seq<char>, from: int) -> Seq<Amount>
    decreases s.len() - from,
{
    match first_hit(Token::Grams, s, from) {
        None => Seq::empty(),
        Some(h) => {
            let rest = if from < h.end <= s.len() {
                gram_amounts(s, h.end)
            } else {
                Seq::empty()
            };
            match read_amount(h.first) {
                Some(a) => seq![a] + rest,
                None => rest,
            }
        },
    }
}

/// The dish's name and its footprint in grams, from the first line: the
/// name is what stands before the first `CO2`, the footprint is searched
/// for in what stands after it.
pub open spec fn read_heading(line: Seq<char>) -> Option<(Seq<char>, i32)> {
    match find_from(line, co2_mark(), 0) {
        None => None,
        Some(k) => match first_hit(Token::Footprint, line.skip(k + co2_mark().len()), 0) {
            None => None,
            Some(h) => match read_count(h.first) {
                None => None,
                Some(n) => Some((line.take(k), n)),
            },
        },
    }
}

/// The energy in kJ and in kcal, from the second line.
pub open spec fn read_energy(line: Seq<char>) -> Option<(Amount, Amount)> {
    match first_hit(Token::Energy, line, 0) {
        None => None,
        Some(h) => match (read_amount(h.first), read_amount(h.second)) {
            (Some(kj), Some(kcal)) => Some((kj, kcal)),
            _ => None,
        },
    }
}

/// The first amount in grams on a line.
pub open spec fn read_grams(line: Seq<char>) -> Option<Amount> {
    match first_hit(Token::Grams, line, 0) {
        None => None,
        Some(h) => read_amount(h.first),
    }
}

/// The first two amounts in grams on a line.
pub open spec fn read_gram_pair(line: Seq<char>) -> Option<(Amount, Amount)> {
    let all = gram_amounts(line, 0);
    if all.len() >= 2 {
        Some((all[0], all[1]))
    } else {
        None
    }
}

/// Whether a trimmed line counts: it is not empty and does not start with
/// the caption.
pub open spec fn is_content(line: Seq<char>) -> bool {
    line.len() > 0 && !has_at(line, 0, caption())
}

/// The lines that count among `lines`, each trimmed, in order.
pub open spec fn content_of(lines: Seq<Seq<char>>) -> Seq<Seq<char>>
    decreases lines.len(),
{
    if lines.len() == 0 {
        Seq::empty()
    } else {
        let before = content_of(lines.drop_last());
        let line = trimmed(lines.last());
        if is_content(line) {
            before.push(line)
        } else {
            before
        }
    }
}

/// The lines of a label that count.
pub open spec fn label_lines(raw: Seq<char>) -> Seq<Seq<char>> {
    content_of(split(raw, '\n'))
}

/// What a label's text says: the first failing line decides the error.
pub open spec fn parse_label(raw: Seq<char>) -> Result<LabelView, ParseError> {
    let lines = label_lines(raw);
    if lines.len() < 6 {
        Err(ParseError::MalformedInput)
    } else {
        match read_heading(lines[0]) {
            None => Err(ParseError::MissingCO2),
            Some((name, co2_grams)) => match read_energy(lines[1]) {
                None => Err(ParseError::MissingEnergy),
                Some((energy_kj, energy_kcal)) => match read_grams(lines[2]) {
                    None => Err(ParseError::MissingProtein),
                    Some(protein) => match read_gram_pair(lines[3]) {
                        None => Err(ParseError::MissingFat),
                        Some(fat) => match read_gram_pair(lines[4]) {
                            None => Err(ParseError::MissingCarbohydrate),
                            Some(carbohydrates) => match read_grams(lines[5]) {
                                None => Err(ParseError::MissingSalt),
                                Some(salt) => Ok(
                                    LabelView {
                                        name,
                                        co2_grams,
                                        nutrition: Nutrition {
                                            energy_kj,
                                            energy_kcal,
                                            protein,
                                            fat,
                                            carbohydrates,
                                            salt,
                                        },
                                    },
                                ),
                            },
                        },
                    },
                },
            },
        }
    }
}

/// One occurrence of a token, as found.
#[derive(Debug, PartialEq, Eq)]
pub struct Found {
    pub first: Vec<char>,
    pub second: Vec<char>,
    pub end: usize,
}

impl View for Found {
    type V = Hit;

    open spec fn view(&self) -> Hit {
        Hit { first: self.first@, second: self.second@, end: self.end as int }
    }
}

/// The fixed texts that the label's lines are matched against, made once
/// and handed to every reader.
pub struct Patterns {
    co2: Vec<char>,
    footprint: Vec<char>,
    kj: Vec<char>,
    kcal: Vec<char>,
    gram: Vec<char>,
    caption: Vec<char>,
}

/// Finds the end of the longest run of number characters from `i` on.
pub fn scan_run(s: &Vec<char>, mark: char, i: usize) -> (e: usize)
    ensures
        e == run_end(s@, mark, i as int),
        i <= e,
        i <= s.len() ==> e <= s.len(),
{
    let mut e: usize = i;
    while e < s.len() && (is_ascii_digit(s[e]) || s[e] == mark)
        invariant
            i <= e,
            i <= s.len() ==> e <= s.len(),
            run_end(s@, mark, i as int) == run_end(s@, mark, e as int),
        decreases s.len() - e,
    {
        e += 1;
    }
    e
}

/// An occurrence lies inside the text, after the index it was found at.
pub proof fn lemma_token_bounds(t: Token, s: Seq<char>, i: int)
    requires
        token_at(t, s, i) is Some,
    ensures
        0 <= i < token_at(t, s, i).unwrap().end <= s.len(),
{
    match t {
        Token::Footprint => {
            lemma_run_bounds(s, '.', i + footprint_lead().len());
        },
        Token::Energy => {
            lemma_run_bounds(s, ',', i);
            lemma_run_bounds(s, ',', run_end(s, ',', i) + kj_unit().len());
        },
        Token::Grams => {
            lemma_run_bounds(s, ',', i);
        },
    }
}

/// A run that starts inside the text ends inside it.
pub proof fn lemma_run_bounds(s: Seq<char>, mark: char, i: int)
    ensures
        i <= run_end(s, mark, i),
        0 <= i <= s.len() ==> run_end(s, mark, i) <= s.len(),
        i < run_end(s, mark, i) ==> 0 <= i < s.len(),
    decreases s.len() - i,
{
    if 0 <= i < s.len() && in_number(s[i], mark) {
        lemma_run_bounds(s, mark, i + 1);
    }
}

/// The leftmost occurrence starts at or after the index searched from.
pub proof fn lemma_first_hit_bounds(t: Token, s: Seq<char>, from: int)
    requires
        first_hit(t, s, from) is Some,
    ensures
        0 <= from < first_hit(t, s, from).unwrap().end <= s.len(),
    decreases s.len() - from + 1,
{
    if token_at(t, s, from) is Some {
        lemma_token_bounds(t, s, from);
    } else {
        lemma_first_hit_bounds(t, s, from + 1);
    }
}

impl Patterns {
    #[verifier::type_invariant]
    spec fn well_formed(self) -> bool {
        &&& self.co2@ == co2_mark()
        &&& self.footprint@ == footprint_lead()
        &&& self.kj@ == kj_unit()
        &&& self.kcal@ == kcal_unit()
        &&& self.gram@ == gram_unit()
        &&& self.caption@ == caption()
    }

    /// Whether the fixed texts are the ones that the label's lines are
    /// matched against.
    pub closed spec fn prepared(&self) -> bool {
        self.well_formed()
    }

    /// Prepares the fixed texts.
    pub fn new() -> (p: Patterns)
        ensures
            p.prepared(),
    {
        Patterns {
            co2: chars_of("CO2"),
            footprint: chars_of("abdruck pro Portion "),
            kj: chars_of(" kJ / "),
            kcal: chars_of(" kcal"),
            gram: chars_of(" g"),
            caption: chars_of("Nährwertangaben"),
        }
    }

    /// Looks for an occurrence of `t` that starts exactly at `i`.
    pub fn token_here(&self, t: Token, s: &Vec<char>, i: usize) -> (r: Option<Found>)
        ensures
            match r {
                Some(f) => token_at(t, s@, i as int) == Some(f@),
                None => token_at(t, s@, i as int).is_none(),
            },
    {
        proof {
            use_type_invariant(self);
        }
        let n = s.len();
        if i > n {
            return None;
        }
        match t {
            Token::Footprint => {
                if !occurs_at(s, i, &self.footprint) {
                    return None;
                }
                let j = i + self.footprint.len();
                let e = scan_run(s, '.', j);
                if j < e {
                    Some(Found { first: slice_of(s, j, e), second: Vec::new(), end: e })
                } else {
                    None
                }
            },
            Token::Energy => {
                let e = scan_run(s, ',', i);
                if !(i < e && occurs_at(s, e, &self.kj)) {
                    return None;
                }
                let j = e + self.kj.len();
                let f = scan_run(s, ',', j);
                if j < f && occurs_at(s, f, &self.kcal) {
                    Some(
                        Found {
                            first: slice_of(s, i, e),
                            second: slice_of(s, j, f),
                            end: f + self.kcal.len(),
                        },
                    )
                } else {
                    None
                }
            },
            Token::Grams => {
                let e = scan_run(s, ',', i);
                if i < e && occurs_at(s, e, &self.gram) {
                    Some(
                        Found {
                            first: slice_of(s, i, e),
                            second: Vec::new(),
                            end: e + self.gram.len(),
                        },
                    )
                } else {
                    None
                }
            },
        }
    }

    /// Looks for the leftmost occurrence of `t` that starts at or after
    /// `from`.
    pub fn find_token(&self, t: Token, s: &Vec<char>, from: usize) -> (r: Option<Found>)
        ensures
            match r {
                Some(f) => first_hit(t, s@, from as int) == Some(f@),
                None => first_hit(t, s@, from as int).is_none(),
            },
    {
        let mut i: usize = from;
        while i <= s.len()
            invariant
                from <= i,
                first_hit(t, s@, from as int) == first_hit(t, s@, i as int),
            decreases s.len() - i,
        {
            match self.token_here(t, s, i) {
                Some(f) => {
                    return Some(f);
                },
                None => {},
            }
            if i == s.len() {
                assert(first_hit(t, s@, i + 1).is_none());
                return None;
            }
            i += 1;
        }
        None
    }

    /// Reads the name and the footprint off the first line.
    pub fn heading(&self, line: &Vec<char>) -> (r: Option<(String, i32)>)
        ensures
            match r {
                Some((name, co2)) => read_heading(line@) == Some((name@, co2)),
                None => read_heading(line@).is_none(),
            },
    {
        proof {
            use_type_invariant(self);
        }
        match find(line, &self.co2, 0) {
            None => None,
            Some(k) => {
                let n = line.len();
                let rest = slice_of(line, k + self.co2.len(), n);
                proof {
                    assert(rest@ == line@.skip(k + co2_mark().len()));
                    assert(line@.take(k as int) == line@.subrange(0, k as int));
                }
                match self.find_token(Token::Footprint, &rest, 0) {
                    None => None,
                    Some(f) => match parse_count(&f.first) {
                        None => None,
                        Some(n) => Some((string_of(&slice_of(line, 0, k)), n)),
                    },
                }
            },
        }
    }

    /// Reads the energy in kJ and in kcal off the second line.
    pub fn energy(&self, line: &Vec<char>) -> (r: Option<(Decimal, Decimal)>)
        ensures
            match r {
                Some((kj, kcal)) => read_energy(line@) == Some((kj@, kcal@)),
                None => read_energy(line@).is_none(),
            },
    {
        match self.find_token(Token::Energy, line, 0) {
            None => None,
            Some(f) => match Decimal::parse(&f.first) {
                None => None,
                Some(kj) => match Decimal::parse(&f.second) {
                    None => None,
                    Some(kcal) => Some((kj, kcal)),
                },
            },
        }
    }

    /// Reads the first amount in grams off a line.
    pub fn grams(&self, line: &Vec<char>) -> (r: Option<Decimal>)
        ensures
            match r {
                Some(a) => read_grams(line@) == Some(a@),
                None => read_grams(line@).is_none(),
            },
    {
        match self.find_token(Token::Grams, line, 0) {
            None => None,
            Some(f) => Decimal::parse(&f.first),
        }
    }

    /// Reads the first two amounts in grams off a line.
    pub fn gram_pair(&self, line: &Vec<char>) -> (r: Option<(Decimal, Decimal)>)
        ensures
            match r {
                Some((a, b)) => read_gram_pair(line@) == Some((a@, b@)),
                None => read_gram_pair(line@).is_none(),
            },
    {
        let mut first: Option<Decimal> = None;
        let mut from: usize = 0;
        loop
            invariant
                from <= line.len(),
                match first {
                    None => gram_amounts(line@, 0) == gram_amounts(line@, from as int),
                    Some(a) => gram_amounts(line@, 0) == seq![a@] + gram_amounts(
                        line@,
                        from as int,
                    ),
                },
            decreases line.len() - from,
        {
            match self.find_token(Token::Grams, line, from) {
                None => {
                    return None;
                },
                Some(f) => {
                    proof {
                        lemma_first_hit_bounds(Token::Grams, line@, from as int);
                    }
                    from = f.end;
                    match Decimal::parse(&f.first) {
                        None => {},
                        Some(a) => {
                            match first {
                                None => {
                                    first = Some(a);
                                },
                                Some(b) => {
                                    return Some((b, a));
                                },
                            }
                        },
                    }
                },
            }
        }
    }

    /// Whether a trimmed line counts.
    pub fn counts(&self, line: &Vec<char>) -> (r: bool)
        ensures
            r == is_content(line@),
    {
        proof {
            use_type_invariant(self);
        }
        line.len() > 0 && !occurs_at(line, 0, &self.caption)
    }

    /// Trims the lines and keeps those that count.
    pub fn content_lines(&self, lines: &Vec<Vec<char>>) -> (r: Vec<Vec<char>>)
        ensures
            views(r@) == content_of(views(lines@)),
    {
        let mut kept: Vec<Vec<char>> = Vec::new();
        let mut i: usize = 0;
        while i < lines.len()
            invariant
                i <= lines.len(),
                views(kept@) == content_of(views(lines@).take(i as int)),
            decreases lines.len() - i,
        {
            let line = trim(&lines[i]);
            proof {
                let all = views(lines@);
                assert(all.take(i + 1).drop_last() == all.take(i as int));
                assert(all.take(i + 1).last() == lines[i as int]@);
            }
            if self.counts(&line) {
                let ghost before = views(kept@);
                kept.push(line);
                assert(views(kept@) == before.push(line@));
            }
            i += 1;
        }
        proof {
            assert(views(lines@).take(i as int) == views(lines@));
        }
        kept
    }

    /// Reads a label.
    pub fn read(&self, raw_text: &str) -> (r: Result<Label, ParseError>)
        ensures
            match r {
                Ok(label) => parse_label(raw_text@) == Ok::<LabelView, ParseError>(label@),
                Err(e) => parse_label(raw_text@) == Err::<LabelView, ParseError>(e),
            },
    {
        let raw = chars_of(raw_text);
        let lines = self.content_lines(&split_at_char(&raw, '\n'));
        assert(views(lines@) == label_lines(raw_text@));
        if lines.len() < 6 {
            return Err(ParseError::MalformedInput);
        }
        assert(forall|i: int| 0 <= i < 6 ==> views(lines@)[i] == lines[i]@);
        let (name, co2_grams) = match self.heading(&lines[0]) {
            None => {
                return Err(ParseError::MissingCO2);
            },
            Some(h) => h,
        };
        let (energy_kj, energy_kcal) = match self.energy(&lines[1]) {
            None => {
                return Err(ParseError::MissingEnergy);
            },
            Some(e) => e,
        };
        let protein = match self.grams(&lines[2]) {
            None => {
                return Err(ParseError::MissingProtein);
            },
            Some(a) => a,
        };
        let fat = match self.gram_pair(&lines[3]) {
            None => {
                return Err(ParseError::MissingFat);
            },
            Some(p) => p,
        };
        let carbohydrates = match self.gram_pair(&lines[4]) {
            None => {
                return Err(ParseError::MissingCarbohydrate);
            },
            Some(p) => p,
        };
        let salt = match self.grams(&lines[5]) {
            None => {
                return Err(ParseError::MissingSalt);
            },
            Some(a) => a,
        };
        Ok(
            Label {
                name,
                co2_grams,
                nutrition: NutritionalInfo {
                    energy_kj,
                    energy_kcal,
                    protein,
                    fat,
                    carbohydrates,
                    salt,
                },
            },
        )
    }
}

/// Reads the nutrition label of one dish: its name, its CO2 footprint in
/// grams and its nutrition table.
pub fn parse(raw_text: &str) -> (r: Result<Label, ParseError>)
    ensures
        match r {
            Ok(label) => parse_label(raw_text@) == Ok::<LabelView, ParseError>(label@),
            Err(e) => parse_label(raw_text@) == Err::<LabelView, ParseError>(e),
        },
{
    Patterns::new().read(raw_text)
}

/// What reading a label gave, as plain values.
pub open spec fn outcome(r: Result<Label, ParseError>) -> Result<LabelView, ParseError> {
    match r {
        Ok(label) => Ok(label@),
        Err(e) => Err(e),
    }
}

/// The same text gives the same label, or the same error, however often
/// it is read.
pub proof fn lemma_same_text_same_label(
    raw_text: &str,
    a: Result<Label, ParseError>,
    b: Result<Label, ParseError>,
)
    requires
        call_ensures(parse, (raw_text,), a),
        call_ensures(parse, (raw_text,), b),
    ensures
        outcome(a) == outcome(b),
{
}

/// The occurrence that `first_hit` gives is the leftmost: it starts at or
/// after `from`, and none starts between `from` and its start.
pub proof fn lemma_first_hit_leftmost(t: Token, s: Seq<char>, from: int)
    requires
        0 <= from,
    ensures
        match first_hit(t, s, from) {
            Some(h) => exists|i: int|
                from <= i <= s.len() && #[trigger] token_at(t, s, i) == Some(h) && forall|k: int|
                    from <= k < i ==> token_at(t, s, k).is_none(),
            None => forall|k: int| from <= k ==> token_at(t, s, k).is_none(),
        },
    decreases s.len() - from + 1,
{
    if from <= s.len() {
        if token_at(t, s, from) is Some {
        } else {
            lemma_first_hit_leftmost(t, s, from + 1);
            match first_hit(t, s, from + 1) {
                Some(h) => {
                    let i = choose|i: int|
                        from + 1 <= i <= s.len() && #[trigger] token_at(t, s, i) == Some(h)
                            && forall|k: int| from + 1 <= k < i ==> token_at(t, s, k).is_none();
                    assert(from <= i <= s.len() && token_at(t, s, i) == Some(h) && forall|k: int|
                        from <= k < i ==> token_at(t, s, k).is_none());
                },
                None => {},
            }
        }
    } else {
        assert forall|k: int| from <= k implies token_at(t, s, k).is_none() by {
            if token_at(t, s, k) is Some {
                lemma_token_bounds(t, s, k);
            }
        }
    }
}

} // verus!
