//! A label as it is written, and the proof that reading what was written
//! gives the label back.

use crate::label::{
    caption, co2_mark, content_of, first_hit, footprint_lead, gram_amounts, gram_unit, in_number,
    is_content, kcal_unit, kj_unit, label_lines, parse_label, read_energy, read_gram_pair,
    read_grams, read_heading, run_end, token_at, Hit, Token,
};
use crate::model::{Label, LabelView, ParseError};
use crate::number::{
    count_text, decimal_digits, digit_char, digit_chars, is_digit, lemma_amount_reads_back,
    lemma_count_reads_back, lemma_decimal_digits, lemma_digit_char, Amount, Decimal,
};
use crate::text::{
    chars_of, find_from, free_of, has_at, is_space, joined, lemma_first_found, lemma_free_join,
    lemma_split_joined, lemma_strip_nothing, split, string_of, trimmed, Strip,
};
use vstd::prelude::*;

verus! {

/// Rows that trimming leaves alone and that count are all kept.
pub proof fn lemma_content_kept(rows: Seq<Seq<char>>)
    requires
        forall|i: int| 0 <= i < rows.len() ==> trimmed(#[trigger] rows[i]) == rows[i],
        forall|i: int| 0 <= i < rows.len() ==> is_content(#[trigger] rows[i]),
    ensures
        content_of(rows) == rows,
    decreases rows.len(),
{
    if rows.len() == 0 {
        assert(rows == Seq::<Seq<char>>::empty());
    } else {
        let before = rows.drop_last();
        assert forall|i: int| 0 <= i < before.len() implies trimmed(#[trigger] before[i])
            == before[i] && is_content(before[i]) by {
            assert(before[i] == rows[i]);
        }
        lemma_content_kept(before);
        assert(trimmed(rows.last()) == rows.last());
        assert(is_content(rows.last()));
        assert(before.push(rows.last()) == rows);
    }
}

/// A run of number characters ends where the first other character
/// stands.
pub proof fn lemma_run_exact(s: Seq<char>, mark: char, i: int, e: int)
    requires
        0 <= i <= e <= s.len(),
        forall|k: int| i <= k < e ==> in_number(#[trigger] s[k], mark),
        e < s.len() ==> !in_number(s[e], mark),
    ensures
        run_end(s, mark, i) == e,
    decreases e - i,
{
    if i < e {
        lemma_run_exact(s, mark, i + 1, e);
    }
}

/// What a written amount is made of: at least one character, each of
/// them a digit or the comma.
pub proof fn lemma_amount_text(a: Amount)
    requires
        a.valid(),
    ensures
        a.text().len() >= 1,
        forall|k: int| 0 <= k < a.text().len() ==> in_number(#[trigger] a.text()[k], ','),
{
    let t = a.text();
    let w = digit_chars(a.whole);
    let f = digit_chars(a.frac);
    assert forall|k: int| 0 <= k < t.len() implies in_number(#[trigger] t[k], ',') by {
        if k < w.len() {
            lemma_digit_char(a.whole[k]);
            assert(t[k] == w[k]);
        } else if a.frac.len() > 0 && k > w.len() {
            lemma_digit_char(a.frac[k - w.len() - 1]);
            assert(t[k] == f[k - w.len() - 1]);
        } else {
        }
    }
}

/// What a written count is made of: at least one character, each of them
/// a digit.
pub proof fn lemma_count_text(n: i32)
    requires
        n >= 0,
    ensures
        count_text(n).len() >= 1,
        forall|k: int| 0 <= k < count_text(n).len() ==> is_digit(#[trigger] count_text(n)[k]),
{
    lemma_decimal_digits(n as nat);
    let d = decimal_digits(n as nat);
    assert forall|k: int| 0 <= k < count_text(n).len() implies is_digit(
        #[trigger] count_text(n)[k],
    ) by {
        lemma_digit_char(d[k]);
    }
}

/// A row that survives the reading of lines as it is: it is not empty,
/// holds no line break, neither starts nor ends in white space and does
/// not start with the caption.
pub open spec fn plain_row(r: Seq<char>) -> bool {
    &&& r.len() > 0
    &&& free_of(r, '\n')
    &&& !is_space(r[0])
    &&& !is_space(r.last())
    &&& !has_at(r, 0, caption())
}

/// A plain row is left alone by trimming and counts.
pub proof fn lemma_plain_row(r: Seq<char>)
    requires
        plain_row(r),
    ensures
        trimmed(r) == r,
        is_content(r),
{
    lemma_strip_nothing(r, Strip::WhiteSpace);
}

/// The fixed texts hold no line break, and neither start nor end like a
/// number.
pub proof fn lemma_fixed_texts()
    ensures
        co2_mark().len() == 3,
        co2_mark()[0] == 'C',
        free_of(co2_mark(), '\n'),
        footprint_lead().len() == 20,
        footprint_lead()[0] == 'a',
        free_of(footprint_lead(), '\n'),
        kj_unit().len() == 6,
        kj_unit()[0] == ' ',
        free_of(kj_unit(), '\n'),
        kcal_unit().len() == 5,
        kcal_unit()[0] == ' ',
        kcal_unit()[4] == 'l',
        free_of(kcal_unit(), '\n'),
        gram_unit().len() == 2,
        gram_unit()[0] == ' ',
        gram_unit()[1] == 'g',
        free_of(gram_unit(), '\n'),
        caption().len() == 15,
        caption()[0] == 'N',
        free_of(caption(), 'C'),
{
    reveal_strlit("CO2");
    reveal_strlit("abdruck pro Portion ");
    reveal_strlit(" kJ / ");
    reveal_strlit(" kcal");
    reveal_strlit(" g");
    reveal_strlit("Nährwertangaben");
}

/// An amount in grams as written.
pub open spec fn grams_text(a: Amount) -> Seq<char> {
    a.text() + gram_unit()
}

/// Where a written amount in grams stands in a text, the token for grams
/// occurs and holds the amount as written.
pub proof fn lemma_grams_hit(s: Seq<char>, i: int, a: Amount)
    requires
        a.valid(),
        has_at(s, i, grams_text(a)),
    ensures
        token_at(Token::Grams, s, i) == Some(
            Hit { first: a.text(), second: Seq::empty(), end: i + grams_text(a).len() },
        ),
{
    lemma_fixed_texts();
    lemma_amount_text(a);
    let t = a.text();
    let row = grams_text(a);
    let e = i + t.len();
    assert forall|k: int| i <= k < e implies in_number(#[trigger] s[k], ',') by {
        assert(s.subrange(i, i + row.len())[k - i] == row[k - i]);
        assert(row[k - i] == t[k - i]);
    }
    assert(s[e] == ' ') by {
        assert(s.subrange(i, i + row.len())[e - i] == row[e - i]);
        assert(row[t.len() as int] == gram_unit()[0]);
    }
    lemma_run_exact(s, ',', i, e);
    assert(s.subrange(e, e + gram_unit().len()) == gram_unit()) by {
        assert forall|k: int| 0 <= k < gram_unit().len() implies s.subrange(
            e,
            e + gram_unit().len(),
        )[k] == gram_unit()[k] by {
            assert(s.subrange(i, i + row.len())[t.len() + k] == row[t.len() + k]);
        }
    }
    assert(s.subrange(i, e) == t) by {
        assert forall|k: int| 0 <= k < t.len() implies s.subrange(i, e)[k] == t[k] by {
            assert(s.subrange(i, i + row.len())[k] == row[k]);
        }
    }
}

/// A written amount in grams is a plain row.
pub proof fn lemma_grams_row(a: Amount)
    requires
        a.valid(),
    ensures
        plain_row(grams_text(a)),
{
    lemma_fixed_texts();
    lemma_amount_text(a);
    let t = a.text();
    let row = grams_text(a);
    assert(free_of(t, '\n')) by {
        assert forall|k: int| 0 <= k < t.len() implies #[trigger] t[k] != '\n' by {
            assert(in_number(t[k], ','));
        }
    }
    lemma_free_join(t, gram_unit(), '\n');
    assert(row[0] == t[0]);
    assert(in_number(t[0], ','));
    assert(row.last() == gram_unit()[1]);
    assert(!has_at(row, 0, caption())) by {
        if has_at(row, 0, caption()) {
            assert(row.subrange(0, caption().len() as int)[0] == caption()[0]);
        }
    }
}

/// An amount in grams that is written and read again is the same amount.
pub proof fn lemma_grams_read_back(a: Amount)
    requires
        a.valid(),
    ensures
        read_grams(grams_text(a)) == Some(a),
{
    let row = grams_text(a);
    assert(row.subrange(0, row.len() as int) == row);
    lemma_grams_hit(row, 0, a);
    lemma_amount_reads_back(a);
}

/// The middle of three joined texts stands right after the first.
pub proof fn lemma_has_at_join(a: Seq<char>, b: Seq<char>, c: Seq<char>)
    ensures
        has_at(a + b + c, a.len() as int, b),
{
    assert((a + b + c).subrange(a.len() as int, (a.len() + b.len()) as int) == b);
}

/// The energy of a dish as written.
pub open spec fn energy_text(kj: Amount, kcal: Amount) -> Seq<char> {
    kj.text() + kj_unit() + kcal.text() + kcal_unit()
}

/// A written energy that is read again gives the same two amounts.
pub proof fn lemma_energy_read_back(kj: Amount, kcal: Amount)
    requires
        kj.valid(),
        kcal.valid(),
    ensures
        read_energy(energy_text(kj, kcal)) == Some((kj, kcal)),
{
    lemma_fixed_texts();
    lemma_amount_text(kj);
    lemma_amount_text(kcal);
    lemma_amount_reads_back(kj);
    lemma_amount_reads_back(kcal);
    let a = kj.text();
    let b = kcal.text();
    let row = energy_text(kj, kcal);
    let e = a.len() as int;
    let j = e + kj_unit().len();
    let f = j + b.len();
    assert forall|k: int| 0 <= k < e implies in_number(#[trigger] row[k], ',') by {
        assert(row[k] == a[k]);
    }
    assert(row[e] == kj_unit()[0]);
    lemma_run_exact(row, ',', 0, e);
    assert(row == a + kj_unit() + (b + kcal_unit()));
    lemma_has_at_join(a, kj_unit(), b + kcal_unit());
    assert forall|k: int| j <= k < f implies in_number(#[trigger] row[k], ',') by {
        assert(row[k] == b[k - j]);
    }
    assert(row[f] == kcal_unit()[0]);
    lemma_run_exact(row, ',', j, f);
    assert(row == (a + kj_unit() + b) + kcal_unit() + Seq::<char>::empty());
    lemma_has_at_join(a + kj_unit() + b, kcal_unit(), Seq::<char>::empty());
    assert(row.subrange(0, e) == a);
    assert(row.subrange(j, f) == b);
}

/// A written energy is a plain row.
pub proof fn lemma_energy_row(kj: Amount, kcal: Amount)
    requires
        kj.valid(),
        kcal.valid(),
    ensures
        plain_row(energy_text(kj, kcal)),
{
    lemma_fixed_texts();
    lemma_amount_text(kj);
    lemma_amount_text(kcal);
    let a = kj.text();
    let b = kcal.text();
    let row = energy_text(kj, kcal);
    lemma_number_free(a);
    lemma_number_free(b);
    lemma_free_join(a, kj_unit(), '\n');
    lemma_free_join(a + kj_unit(), b, '\n');
    lemma_free_join(a + kj_unit() + b, kcal_unit(), '\n');
    assert(row[0] == a[0]);
    assert(in_number(a[0], ','));
    assert(row.last() == kcal_unit()[4]);
    assert(!has_at(row, 0, caption())) by {
        if has_at(row, 0, caption()) {
            assert(row.subrange(0, caption().len() as int)[0] == caption()[0]);
        }
    }
}

/// A text made of number characters holds no line break.
pub proof fn lemma_number_free(t: Seq<char>)
    requires
        forall|k: int| 0 <= k < t.len() ==> in_number(#[trigger] t[k], ','),
    ensures
        free_of(t, '\n'),
{
}

/// Two amounts in grams as written, the second after a comma.
pub open spec fn pair_text(p: (Amount, Amount)) -> Seq<char> {
    grams_text(p.0) + ", "@ + grams_text(p.1)
}

/// In two written amounts in grams, the first occurrence of the token
/// holds the first amount.
proof fn lemma_pair_first(p: (Amount, Amount))
    requires
        p.0.valid(),
        p.1.valid(),
    ensures
        first_hit(Token::Grams, pair_text(p), 0) == Some(
            Hit { first: p.0.text(), second: Seq::empty(), end: grams_text(p.0).len() as int },
        ),
{
    let g0 = grams_text(p.0);
    let g1 = grams_text(p.1);
    let row = pair_text(p);
    assert(row == Seq::<char>::empty() + g0 + (", "@ + g1));
    lemma_has_at_join(Seq::<char>::empty(), g0, ", "@ + g1);
    lemma_grams_hit(row, 0, p.0);
}

/// In two written amounts in grams, no occurrence of the token starts at
/// the comma or at the blank between them.
proof fn lemma_pair_gap(p: (Amount, Amount))
    requires
        p.0.valid(),
        p.1.valid(),
    ensures
        token_at(Token::Grams, pair_text(p), grams_text(p.0).len() as int).is_none(),
        token_at(Token::Grams, pair_text(p), (grams_text(p.0).len() + 1) as int).is_none(),
{
    lemma_fixed_texts();
    reveal_strlit(", ");
    lemma_amount_text(p.1);
    let g0 = grams_text(p.0);
    let g1 = grams_text(p.1);
    let row = pair_text(p);
    let e = g0.len() as int;
    assert(row[e] == ", "@[0]);
    assert(row[e + 1] == ", "@[1]);
    assert(row[e + 2] == g1[0]);
    assert(g1[0] == p.1.text()[0]);
    assert(in_number(p.1.text()[0], ','));
    lemma_run_exact(row, ',', e, e + 1);
    assert(!has_at(row, e + 1, gram_unit())) by {
        if has_at(row, e + 1, gram_unit()) {
            assert(row.subrange(e + 1, e + 1 + gram_unit().len())[1] == gram_unit()[1]);
        }
    }
    lemma_run_exact(row, ',', e + 1, e + 1);
}

/// In two written amounts in grams, the occurrence after the comma holds
/// the second amount and ends the text.
proof fn lemma_pair_second(p: (Amount, Amount))
    requires
        p.0.valid(),
        p.1.valid(),
    ensures
        token_at(Token::Grams, pair_text(p), (grams_text(p.0).len() + 2) as int) == Some(
            Hit { first: p.1.text(), second: Seq::empty(), end: pair_text(p).len() as int },
        ),
        pair_text(p).len() == grams_text(p.0).len() + 2 + grams_text(p.1).len(),
        grams_text(p.0).len() >= 1,
{
    reveal_strlit(", ");
    lemma_amount_text(p.0);
    let g0 = grams_text(p.0);
    let g1 = grams_text(p.1);
    let row = pair_text(p);
    assert(row == (g0 + ", "@) + g1 + Seq::<char>::empty());
    lemma_has_at_join(g0 + ", "@, g1, Seq::<char>::empty());
    lemma_grams_hit(row, (g0.len() + 2) as int, p.1);
}

/// No occurrence of the token for grams starts at the end of a text.
proof fn lemma_no_grams_at_end(s: Seq<char>)
    ensures
        first_hit(Token::Grams, s, s.len() as int).is_none(),
        gram_amounts(s, s.len() as int) == Seq::<Amount>::empty(),
{
    let n = s.len() as int;
    lemma_run_exact(s, ',', n, n);
    assert(token_at(Token::Grams, s, n).is_none());
    assert(first_hit(Token::Grams, s, n + 1).is_none());
}

/// Two written amounts in grams that are read again are the same two.
pub proof fn lemma_pair_read_back(p: (Amount, Amount))
    requires
        p.0.valid(),
        p.1.valid(),
    ensures
        read_gram_pair(pair_text(p)) == Some(p),
{
    let row = pair_text(p);
    let e = grams_text(p.0).len() as int;
    let n = row.len() as int;
    lemma_amount_reads_back(p.0);
    lemma_amount_reads_back(p.1);
    lemma_pair_first(p);
    lemma_pair_gap(p);
    lemma_pair_second(p);
    lemma_no_grams_at_end(row);
    let second = Hit { first: p.1.text(), second: Seq::empty(), end: n };
    assert(first_hit(Token::Grams, row, e + 2) == Some(second));
    assert(first_hit(Token::Grams, row, e + 1) == Some(second));
    assert(first_hit(Token::Grams, row, e) == Some(second));
    assert(gram_amounts(row, e) == seq![p.1] + Seq::<Amount>::empty());
    assert(gram_amounts(row, 0) == seq![p.0] + gram_amounts(row, e));
    assert(gram_amounts(row, 0) == seq![p.0, p.1]);
}

/// Two written amounts in grams are a plain row.
pub proof fn lemma_pair_row(p: (Amount, Amount))
    requires
        p.0.valid(),
        p.1.valid(),
    ensures
        plain_row(pair_text(p)),
{
    lemma_fixed_texts();
    reveal_strlit(", ");
    lemma_grams_row(p.0);
    lemma_grams_row(p.1);
    let g0 = grams_text(p.0);
    let g1 = grams_text(p.1);
    let row = pair_text(p);
    assert(free_of(", "@, '\n'));
    lemma_free_join(g0, ", "@, '\n');
    lemma_free_join(g0 + ", "@, g1, '\n');
    assert(row[0] == g0[0]);
    assert(row.last() == g1.last());
    assert(!has_at(row, 0, caption())) by {
        if has_at(row, 0, caption()) {
            assert(row.subrange(0, caption().len() as int)[0] == caption()[0]);
            lemma_amount_text(p.0);
            assert(g0[0] == p.0.text()[0]);
            assert(in_number(p.0.text()[0], ','));
        }
    }
}

/// A name that can head a label: it holds no line break, does not start
/// with white space or with the caption, and the CO2 mark that follows it
/// is the first one on its line.
pub open spec fn plain_name(name: Seq<char>) -> bool {
    &&& free_of(name, '\n')
    &&& name.len() > 0 ==> !is_space(name[0])
    &&& !has_at(name, 0, caption())
    &&& forall|i: int| 0 <= i < name.len() ==> !has_at(name + co2_mark(), i, co2_mark())
}

/// The first line of a label as written: the name, the CO2 mark, and the
/// footprint in grams after its words.
pub open spec fn heading_text(name: Seq<char>, co2_grams: i32) -> Seq<char> {
    name + co2_mark() + heading_gap() + footprint_lead() + count_text(co2_grams)
}

/// A pattern that stands in the first of two joined texts stands in it
/// alone.
pub proof fn lemma_has_at_prefix(a: Seq<char>, b: Seq<char>, i: int, pat: Seq<char>)
    requires
        has_at(a + b, i, pat),
        i + pat.len() <= a.len(),
    ensures
        has_at(a, i, pat),
{
    assert(a.subrange(i, i + pat.len()) == (a + b).subrange(i, i + pat.len()));
}

/// On a written first line, the first CO2 mark is the one after the name.
proof fn lemma_heading_mark(name: Seq<char>, co2_grams: i32)
    requires
        plain_name(name),
    ensures
        find_from(heading_text(name, co2_grams), co2_mark(), 0) == Some(name.len() as int),
        heading_text(name, co2_grams).take(name.len() as int) == name,
        heading_text(name, co2_grams).skip((name.len() + co2_mark().len()) as int)
            == heading_gap() + footprint_lead() + count_text(co2_grams),
{
    let mark = co2_mark();
    let tail = heading_gap() + footprint_lead() + count_text(co2_grams);
    let row = heading_text(name, co2_grams);
    let k = name.len() as int;
    assert(row == name + mark + tail);
    lemma_has_at_join(name, mark, tail);
    assert forall|i: int| 0 <= i < k implies !has_at(row, i, mark) by {
        if has_at(row, i, mark) {
            lemma_has_at_prefix(name + mark, tail, i, mark);
        }
    }
    lemma_first_found(row, mark, 0, k);
    assert(row.take(k) == name);
    assert(row.skip(k + mark.len()) == tail);
}

/// The words between the mark and the footprint on a written first line.
pub open spec fn heading_gap() -> Seq<char> {
    " Fuß"@
}

/// No footprint starts within the words before it.
proof fn lemma_heading_gap(tail: Seq<char>)
    ensures
        forall|i: int|
            0 <= i < 4 ==> token_at(Token::Footprint, heading_gap() + tail, i).is_none(),
        heading_gap().len() == 4,
        free_of(heading_gap(), '\n'),
{
    lemma_fixed_texts();
    reveal_strlit(" Fuß");
    let gap = heading_gap();
    let rest = gap + tail;
    let lead = footprint_lead();
    assert forall|i: int| 0 <= i < 4 implies token_at(Token::Footprint, rest, i).is_none() by {
        if has_at(rest, i, lead) {
            assert(rest.subrange(i, i + lead.len())[0] == lead[0]);
            assert(rest[i] == gap[i]);
        }
    }
}

/// The footprint that starts right after the words before it holds the
/// count as written.
proof fn lemma_heading_count(co2_grams: i32)
    requires
        co2_grams >= 0,
    ensures
        token_at(Token::Footprint, heading_gap() + (footprint_lead() + count_text(co2_grams)), 4)
            matches Some(h) && h.first == count_text(co2_grams),
{
    lemma_fixed_texts();
    lemma_heading_gap(Seq::empty());
    lemma_count_text(co2_grams);
    let gap = heading_gap();
    let lead = footprint_lead();
    let count = count_text(co2_grams);
    let rest = gap + (lead + count);
    assert(rest == gap + lead + count);
    lemma_has_at_join(gap, lead, count);
    let n = rest.len() as int;
    assert forall|i: int| 24 <= i < n implies in_number(#[trigger] rest[i], '.') by {
        assert(rest[i] == count[i - 24]);
        assert(is_digit(count[i - 24]));
    }
    lemma_run_exact(rest, '.', 24, n);
    assert(rest.subrange(24, n) == count);
}

/// In what follows the mark on a written first line, the first
/// occurrence of the footprint holds the count as written.
proof fn lemma_heading_footprint(co2_grams: i32)
    requires
        co2_grams >= 0,
    ensures
        first_hit(
            Token::Footprint,
            heading_gap() + footprint_lead() + count_text(co2_grams),
            0,
        ) matches Some(h) && h.first == count_text(co2_grams),
{
    let tail = footprint_lead() + count_text(co2_grams);
    let rest = heading_gap() + tail;
    assert(rest == heading_gap() + footprint_lead() + count_text(co2_grams));
    lemma_heading_gap(tail);
    lemma_heading_count(co2_grams);
    let hit = token_at(Token::Footprint, rest, 4);
    assert(first_hit(Token::Footprint, rest, 4) == hit);
    assert(first_hit(Token::Footprint, rest, 3) == hit);
    assert(first_hit(Token::Footprint, rest, 2) == hit);
    assert(first_hit(Token::Footprint, rest, 1) == hit);
    assert(first_hit(Token::Footprint, rest, 0) == hit);
}

/// A written first line that is read again gives the same name and the
/// same footprint.
pub proof fn lemma_heading_read_back(name: Seq<char>, co2_grams: i32)
    requires
        plain_name(name),
        co2_grams >= 0,
    ensures
        read_heading(heading_text(name, co2_grams)) == Some((name, co2_grams)),
{
    lemma_heading_mark(name, co2_grams);
    lemma_heading_footprint(co2_grams);
    lemma_count_reads_back(co2_grams);
}

/// A written first line is a plain row.
pub proof fn lemma_heading_row(name: Seq<char>, co2_grams: i32)
    requires
        plain_name(name),
        co2_grams >= 0,
    ensures
        plain_row(heading_text(name, co2_grams)),
{
    lemma_fixed_texts();
    lemma_heading_gap(Seq::empty());
    lemma_count_text(co2_grams);
    let mark = co2_mark();
    let gap = heading_gap();
    let lead = footprint_lead();
    let count = count_text(co2_grams);
    let row = heading_text(name, co2_grams);
    let k = name.len() as int;
    assert(free_of(count, '\n')) by {
        assert forall|i: int| 0 <= i < count.len() implies #[trigger] count[i] != '\n' by {
            assert(is_digit(count[i]));
        }
    }
    lemma_free_join(name, mark, '\n');
    lemma_free_join(name + mark, gap, '\n');
    lemma_free_join(name + mark + gap, lead, '\n');
    lemma_free_join(name + mark + gap + lead, count, '\n');
    if k > 0 {
        assert(row[0] == name[0]);
    } else {
        assert(row[0] == mark[0]);
    }
    assert(row.last() == count.last());
    assert(is_digit(count[count.len() - 1]));
    assert(row[k] == mark[0]);
    assert(!has_at(row, 0, caption())) by {
        if has_at(row, 0, caption()) {
            let head = row.subrange(0, caption().len() as int);
            if k >= caption().len() {
                assert(name.subrange(0, caption().len() as int) == head);
            } else {
                assert(head[k] == row[k]);
                assert(caption()[k] != 'C');
            }
        }
    }
}

/// The six lines of a label as written.
pub open spec fn label_rows(l: LabelView) -> Seq<Seq<char>> {
    seq![
        heading_text(l.name, l.co2_grams),
        energy_text(l.nutrition.energy_kj, l.nutrition.energy_kcal),
        grams_text(l.nutrition.protein),
        pair_text(l.nutrition.fat),
        pair_text(l.nutrition.carbohydrates),
        grams_text(l.nutrition.salt),
    ]
}

/// A label as written: its six lines, a line break between two of them.
pub open spec fn label_text(l: LabelView) -> Seq<char> {
    joined(label_rows(l), '\n')
}

/// A label that can be written: its name can head a label, its footprint
/// is not negative, and its amounts have digits.
pub open spec fn writable(l: LabelView) -> bool {
    &&& plain_name(l.name)
    &&& l.co2_grams >= 0
    &&& l.nutrition.energy_kj.valid()
    &&& l.nutrition.energy_kcal.valid()
    &&& l.nutrition.protein.valid()
    &&& l.nutrition.fat.0.valid()
    &&& l.nutrition.fat.1.valid()
    &&& l.nutrition.carbohydrates.0.valid()
    &&& l.nutrition.carbohydrates.1.valid()
    &&& l.nutrition.salt.valid()
}

/// Reading is a left inverse of writing: a label that is written and read
/// again is the same label.
pub proof fn lemma_label_reads_back(l: LabelView)
    requires
        writable(l),
    ensures
        parse_label(label_text(l)) == Ok::<LabelView, ParseError>(l),
{
    let rows = label_rows(l);
    let n = l.nutrition;
    lemma_heading_row(l.name, l.co2_grams);
    lemma_energy_row(n.energy_kj, n.energy_kcal);
    lemma_grams_row(n.protein);
    lemma_pair_row(n.fat);
    lemma_pair_row(n.carbohydrates);
    lemma_grams_row(n.salt);
    assert forall|i: int| 0 <= i < rows.len() implies free_of(#[trigger] rows[i], '\n')
        && trimmed(rows[i]) == rows[i] && is_content(rows[i]) by {
        assert(plain_row(rows[i]));
        lemma_plain_row(rows[i]);
    }
    lemma_split_joined(rows, '\n');
    lemma_content_kept(rows);
    assert(label_lines(label_text(l)) == rows);
    lemma_heading_read_back(l.name, l.co2_grams);
    lemma_energy_read_back(n.energy_kj, n.energy_kcal);
    lemma_grams_read_back(n.protein);
    lemma_pair_read_back(n.fat);
    lemma_pair_read_back(n.carbohydrates);
    lemma_grams_read_back(n.salt);
}

/// Appends the characters of `text`.
fn push_text(out: &mut Vec<char>, text: &str)
    ensures
        final(out)@ == old(out)@ + text@,
{
    let chars = chars_of(text);
    let mut i: usize = 0;
    while i < chars.len()
        invariant
            i <= chars.len(),
            chars@ == text@,
            out@ == old(out)@ + chars@.take(i as int),
        decreases chars.len() - i,
    {
        out.push(chars[i]);
        assert(chars@.take(i + 1) == chars@.take(i as int).push(chars@[i as int]));
        i += 1;
    }
    assert(chars@.take(i as int) == chars@);
}

/// The character that writes a digit.
fn char_of_digit(d: u8) -> (c: char)
    ensures
        c == digit_char(d),
{
    match d {
        0 => '0',
        1 => '1',
        2 => '2',
        3 => '3',
        4 => '4',
        5 => '5',
        6 => '6',
        7 => '7',
        8 => '8',
        _ => '9',
    }
}

/// Appends the characters that write the digits.
fn push_digits(out: &mut Vec<char>, digits: &Vec<u8>)
    ensures
        final(out)@ == old(out)@ + digit_chars(digits@),
{
    let mut i: usize = 0;
    while i < digits.len()
        invariant
            i <= digits.len(),
            out@ == old(out)@ + digit_chars(digits@.take(i as int)),
        decreases digits.len() - i,
    {
        out.push(char_of_digit(digits[i]));
        assert(digit_chars(digits@.take(i + 1)) == digit_chars(digits@.take(i as int)).push(
            digit_char(digits@[i as int]),
        ));
        i += 1;
    }
    assert(digits@.take(i as int) == digits@);
}

/// Appends an amount as the labels write it.
fn push_amount(out: &mut Vec<char>, a: &Decimal)
    ensures
        final(out)@ == old(out)@ + a@.text(),
{
    push_digits(out, a.whole_digits());
    if a.frac_digits().len() > 0 {
        out.push(',');
        push_digits(out, a.frac_digits());
        assert(out@ == old(out)@ + (digit_chars(a@.whole) + seq![','] + digit_chars(a@.frac)));
    }
}

/// Appends the decimal digits of `n`.
fn push_number(out: &mut Vec<char>, n: u32)
    ensures
        final(out)@ == old(out)@ + digit_chars(decimal_digits(n as nat)),
    decreases n,
{
    if n < 10 {
        out.push(char_of_digit(n as u8));
        assert(digit_chars(seq![n as u8]) == seq![digit_char(n as u8)]);
    } else {
        push_number(out, n / 10);
        out.push(char_of_digit((n % 10) as u8));
        let ghost front = decimal_digits((n / 10) as nat);
        assert(digit_chars(front.push((n % 10) as u8)) == digit_chars(front).push(
            digit_char((n % 10) as u8),
        ));
    }
}

/// Writes a label as the page prints it, six lines in all. A label with a
/// negative footprint cannot be written.
pub fn write_label(label: &Label) -> (r: Option<String>)
    ensures
        match r {
            Some(text) => label.co2_grams >= 0 && text@ == label_text(label@),
            None => label.co2_grams < 0,
        },
{
    if label.co2_grams < 0 {
        return None;
    }
    let n = &label.nutrition;
    let mut out = chars_of(label.name.as_str());
    push_text(&mut out, "CO2");
    push_text(&mut out, " Fuß");
    push_text(&mut out, "abdruck pro Portion ");
    push_number(&mut out, label.co2_grams as u32);
    let ghost row0 = out@;
    assert(row0 == heading_text(label@.name, label@.co2_grams));
    out.push('\n');
    let ghost at1 = out@;
    push_amount(&mut out, &n.energy_kj);
    push_text(&mut out, " kJ / ");
    push_amount(&mut out, &n.energy_kcal);
    push_text(&mut out, " kcal");
    let ghost row1 = energy_text(n@.energy_kj, n@.energy_kcal);
    assert(out@ == at1 + row1);
    out.push('\n');
    let ghost at2 = out@;
    push_amount(&mut out, &n.protein);
    push_text(&mut out, " g");
    let ghost row2 = grams_text(n@.protein);
    assert(out@ == at2 + row2);
    out.push('\n');
    let ghost at3 = out@;
    push_amount(&mut out, &n.fat.0);
    push_text(&mut out, " g");
    push_text(&mut out, ", ");
    push_amount(&mut out, &n.fat.1);
    push_text(&mut out, " g");
    let ghost row3 = pair_text(n@.fat);
    assert(out@ == at3 + row3);
    out.push('\n');
    let ghost at4 = out@;
    push_amount(&mut out, &n.carbohydrates.0);
    push_text(&mut out, " g");
    push_text(&mut out, ", ");
    push_amount(&mut out, &n.carbohydrates.1);
    push_text(&mut out, " g");
    let ghost row4 = pair_text(n@.carbohydrates);
    assert(out@ == at4 + row4);
    out.push('\n');
    let ghost at5 = out@;
    push_amount(&mut out, &n.salt);
    push_text(&mut out, " g");
    let ghost row5 = grams_text(n@.salt);
    assert(out@ == at5 + row5);
    proof {
        let rows = label_rows(label@);
        let r1 = rows.take(1);
        let r2 = rows.take(2);
        let r3 = rows.take(3);
        let r4 = rows.take(4);
        let r5 = rows.take(5);
        assert(joined(r1, '\n') == row0);
        assert(r2.drop_last() == r1 && r2.last() == row1);
        assert(joined(r2, '\n') == row0 + seq!['\n'] + row1);
        assert(r3.drop_last() == r2 && r3.last() == row2);
        assert(joined(r3, '\n') == joined(r2, '\n') + seq!['\n'] + row2);
        assert(r4.drop_last() == r3 && r4.last() == row3);
        assert(joined(r4, '\n') == joined(r3, '\n') + seq!['\n'] + row3);
        assert(r5.drop_last() == r4 && r5.last() == row4);
        assert(joined(r5, '\n') == joined(r4, '\n') + seq!['\n'] + row4);
        assert(rows.drop_last() == r5 && rows.last() == row5);
        assert(joined(rows, '\n') == joined(r5, '\n') + seq!['\n'] + row5);
        assert(at1 == row0 + seq!['\n']);
        assert(at2 == joined(r2, '\n') + seq!['\n']);
        assert(at3 == joined(r3, '\n') + seq!['\n']);
        assert(at4 == joined(r4, '\n') + seq!['\n']);
        assert(at5 == joined(r5, '\n') + seq!['\n']);
    }
    Some(string_of(&out))
}

} // verus!
