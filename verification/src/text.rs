//! Character-level helpers: whitespace, trimming, splitting and searching.

use vstd::prelude::*;

verus! {

/// Whether `c` carries the Unicode `White_Space` property.
pub open spec fn is_space(c: char) -> bool {
    ||| ('\u{9}' <= c && c <= '\u{d}')
    ||| c == ' '
    ||| c == '\u{85}'
    ||| c == '\u{a0}'
    ||| c == '\u{1680}'
    ||| ('\u{2000}' <= c && c <= '\u{200a}')
    ||| c == '\u{2028}'
    ||| c == '\u{2029}'
    ||| c == '\u{202f}'
    ||| c == '\u{205f}'
    ||| c == '\u{3000}'
}

/// Tests a character for the `White_Space` property.
pub fn is_whitespace(c: char) -> (r: bool)
    ensures
        r == is_space(c),
{
    ('\u{9}' <= c && c <= '\u{d}') || c == ' ' || c == '\u{85}' || c == '\u{a0}' || c == '\u{1680}'
        || ('\u{2000}' <= c && c <= '\u{200a}') || c == '\u{2028}' || c == '\u{2029}' || c
        == '\u{202f}' || c == '\u{205f}' || c == '\u{3000}'
}

/// The characters of a string slice, in order.
pub fn chars_of(s: &str) -> (v: Vec<char>)
    ensures
        v@ == s@,
{
    let mut v: Vec<char> = Vec::new();
    for c in it: s.chars()
        invariant
            v@ == it.seq().take(it.index() as int),
    {
        v.push(c);
    }
    v
}

/// `String::push` appends one character to the end of the string and
/// leaves what was there before untouched.
pub assume_specification[ String::push ](s: &mut String, ch: char)
    ensures
        final(s)@ == old(s)@.push(ch),
;

/// A string holding exactly the given characters.
pub fn string_of(chars: &Vec<char>) -> (s: String)
    ensures
        s@ == chars@,
{
    let mut s = String::new();
    let mut i: usize = 0;
    while i < chars.len()
        invariant
            i <= chars.len(),
            s@ == chars@.take(i as int),
        decreases chars.len() - i,
    {
        s.push(chars[i]);
        i += 1;
    }
    s
}

/// The plain sequences held by a list of character vectors.
pub open spec fn views(v: Seq<Vec<char>>) -> Seq<Seq<char>> {
    v.map_values(|x: Vec<char>| x@)
}

/// What gets stripped from the two ends of a text.
#[derive(Clone, Copy, PartialEq, Eq, Debug)]
pub enum Strip {
    /// Unicode white space.
    WhiteSpace,
    /// Repetitions of one symbol.
    Symbol(char),
}

impl Strip {
    /// Whether `c` is stripped.
    pub open spec fn takes(self, c: char) -> bool {
        match self {
            Strip::WhiteSpace => is_space(c),
            Strip::Symbol(x) => c == x,
        }
    }

    /// Tests whether `c` is stripped.
    pub fn matches(&self, c: char) -> (r: bool)
        ensures
            r == self.takes(c),
    {
        match self {
            Strip::WhiteSpace => is_whitespace(c),
            Strip::Symbol(x) => c == *x,
        }
    }
}

/// First index at or after `i` whose character is kept, or the length.
pub open spec fn skip_front(s: Seq<char>, what: Strip, i: int) -> int
    decreases s.len() - i,
{
    if 0 <= i < s.len() && what.takes(s[i]) {
        skip_front(s, what, i + 1)
    } else {
        i
    }
}

/// End of the text once the stripped characters before `hi` are dropped,
/// never going below `lo`.
pub open spec fn skip_back(s: Seq<char>, what: Strip, lo: int, hi: int) -> int
    decreases hi - lo,
{
    if lo < hi <= s.len() && what.takes(s[hi - 1]) {
        skip_back(s, what, lo, hi - 1)
    } else {
        hi
    }
}

/// `s` without the stripped characters at its two ends.
pub open spec fn stripped(s: Seq<char>, what: Strip) -> Seq<char> {
    let lo = skip_front(s, what, 0);
    s.subrange(lo, skip_back(s, what, lo, s.len() as int))
}

/// `s` without leading and trailing white space.
pub open spec fn trimmed(s: Seq<char>) -> Seq<char> {
    stripped(s, Strip::WhiteSpace)
}

/// Where the skipping from the front ends: everything passed over is
/// stripped, and the character it stops at is kept.
pub proof fn lemma_skip_front(s: Seq<char>, what: Strip, i: int)
    requires
        0 <= i <= s.len(),
    ensures
        i <= skip_front(s, what, i) <= s.len(),
        forall|k: int| i <= k < skip_front(s, what, i) ==> what.takes(#[trigger] s[k]),
        skip_front(s, what, i) < s.len() ==> !what.takes(s[skip_front(s, what, i)]),
    decreases s.len() - i,
{
    if i < s.len() && what.takes(s[i]) {
        lemma_skip_front(s, what, i + 1);
    }
}

/// Where the skipping from the back ends: everything passed over is
/// stripped, and the character it stops after is kept.
pub proof fn lemma_skip_back(s: Seq<char>, what: Strip, lo: int, hi: int)
    requires
        0 <= lo <= hi <= s.len(),
    ensures
        lo <= skip_back(s, what, lo, hi) <= hi,
        forall|k: int| skip_back(s, what, lo, hi) <= k < hi ==> what.takes(#[trigger] s[k]),
        lo < skip_back(s, what, lo, hi) ==> !what.takes(s[skip_back(s, what, lo, hi) - 1]),
    decreases hi - lo,
{
    if lo < hi && what.takes(s[hi - 1]) {
        lemma_skip_back(s, what, lo, hi - 1);
    }
}

/// What stripping leaves is the part of the text from its first kept
/// character to its last: all before and all after it is stripped, and
/// unless nothing is left, it starts and ends with a kept character.
pub proof fn lemma_stripped(s: Seq<char>, what: Strip)
    ensures
        ({
            let lo = skip_front(s, what, 0);
            let hi = skip_back(s, what, lo, s.len() as int);
            &&& 0 <= lo <= hi <= s.len()
            &&& stripped(s, what) == s.subrange(lo, hi)
            &&& forall|k: int| 0 <= k < lo ==> what.takes(#[trigger] s[k])
            &&& forall|k: int| hi <= k < s.len() ==> what.takes(#[trigger] s[k])
            &&& lo < hi ==> !what.takes(s[lo]) && !what.takes(s[hi - 1])
        }),
{
    lemma_skip_front(s, what, 0);
    lemma_skip_back(s, what, skip_front(s, what, 0), s.len() as int);
}

/// Copies `s[lo..hi]`.
pub fn slice_of(s: &Vec<char>, lo: usize, hi: usize) -> (r: Vec<char>)
    requires
        lo <= hi <= s.len(),
    ensures
        r@ == s@.subrange(lo as int, hi as int),
{
    let mut r: Vec<char> = Vec::new();
    let mut i: usize = lo;
    while i < hi
        invariant
            lo <= i <= hi <= s.len(),
            r@ == s@.subrange(lo as int, i as int),
        decreases hi - i,
    {
        r.push(s[i]);
        i += 1;
    }
    r
}

/// Strips the given characters from both ends of `s`.
pub fn strip(s: &Vec<char>, what: Strip) -> (r: Vec<char>)
    ensures
        r@ == stripped(s@, what),
{
    let mut lo: usize = 0;
    while lo < s.len() && what.matches(s[lo])
        invariant
            lo <= s.len(),
            skip_front(s@, what, 0) == skip_front(s@, what, lo as int),
        decreases s.len() - lo,
    {
        lo += 1;
    }
    let mut hi: usize = s.len();
    while lo < hi && what.matches(s[hi - 1])
        invariant
            lo <= hi <= s.len(),
            skip_back(s@, what, lo as int, s.len() as int) == skip_back(
                s@,
                what,
                lo as int,
                hi as int,
            ),
        decreases hi - lo,
    {
        hi -= 1;
    }
    slice_of(s, lo, hi)
}

/// Removes leading and trailing white space.
pub fn trim(s: &Vec<char>) -> (r: Vec<char>)
    ensures
        r@ == trimmed(s@),
{
    strip(s, Strip::WhiteSpace)
}

/// The pieces of `s` between occurrences of `sep`: one more piece than
/// there are separators.
pub open spec fn split(s: Seq<char>, sep: char) -> Seq<Seq<char>>
    decreases s.len(),
{
    if s.len() == 0 {
        seq![Seq::<char>::empty()]
    } else {
        let before = split(s.drop_last(), sep);
        if s.last() == sep {
            before.push(Seq::<char>::empty())
        } else {
            before.drop_last().push(before.last().push(s.last()))
        }
    }
}

pub proof fn lemma_split_nonempty(s: Seq<char>, sep: char)
    ensures
        split(s, sep).len() >= 1,
    decreases s.len(),
{
    if s.len() > 0 {
        lemma_split_nonempty(s.drop_last(), sep);
    }
}

/// Splits `s` at every occurrence of `sep`.
pub fn split_at_char(s: &Vec<char>, sep: char) -> (r: Vec<Vec<char>>)
    ensures
        views(r@) == split(s@, sep),
{
    let mut done: Vec<Vec<char>> = Vec::new();
    let mut piece: Vec<char> = Vec::new();
    let mut i: usize = 0;
    while i < s.len()
        invariant
            i <= s.len(),
            views(done@).push(piece@) == split(s@.take(i as int), sep),
        decreases s.len() - i,
    {
        let c = s[i];
        proof {
            let prev = s@.take(i as int);
            let next = s@.take(i + 1);
            assert(next.drop_last() == prev);
            assert(next.last() == c);
            lemma_split_nonempty(prev, sep);
        }
        if c == sep {
            let ghost before = views(done@).push(piece@);
            done.push(piece);
            piece = Vec::new();
            proof {
                assert(views(done@) == before);
                assert(piece@ == Seq::<char>::empty());
            }
        } else {
            let ghost before = views(done@).push(piece@);
            piece.push(c);
            proof {
                assert(before.drop_last() == views(done@));
                assert(views(done@).push(piece@) == before.drop_last().push(before.last().push(c)));
            }
        }
        i += 1;
    }
    proof {
        assert(s@.take(i as int) == s@);
    }
    let ghost before = views(done@).push(piece@);
    done.push(piece);
    proof {
        assert(views(done@) == before);
    }
    done
}

/// Whether `pat` stands in `s` at index `i`.
pub open spec fn has_at(s: Seq<char>, i: int, pat: Seq<char>) -> bool {
    0 <= i && i + pat.len() <= s.len() && s.subrange(i, i + pat.len()) == pat
}

/// Index of the first occurrence of `pat` in `s` that starts at or after
/// `from`.
pub open spec fn find_from(s: Seq<char>, pat: Seq<char>, from: int) -> Option<int>
    decreases s.len() - from + 1,
{
    if from < 0 || from + pat.len() > s.len() {
        None
    } else if has_at(s, from, pat) {
        Some(from)
    } else {
        find_from(s, pat, from + 1)
    }
}

/// Tests whether `pat` stands in `s` at index `i`.
pub fn occurs_at(s: &Vec<char>, i: usize, pat: &Vec<char>) -> (r: bool)
    ensures
        r == has_at(s@, i as int, pat@),
{
    if pat.len() > s.len() || i > s.len() - pat.len() {
        return false;
    }
    let mut k: usize = 0;
    while k < pat.len()
        invariant
            k <= pat.len(),
            i + pat.len() <= s.len(),
            s@.subrange(i as int, i + k) == pat@.take(k as int),
        decreases pat.len() - k,
    {
        if s[i + k] != pat[k] {
            proof {
                assert(s@.subrange(i as int, i + pat.len())[k as int] == s@[i + k]);
            }
            return false;
        }
        proof {
            assert(s@.subrange(i as int, i + k + 1) == s@.subrange(i as int, i + k).push(
                s@[i + k],
            ));
            assert(pat@.take(k + 1) == pat@.take(k as int).push(pat@[k as int]));
        }
        k += 1;
    }
    proof {
        assert(pat@.take(k as int) == pat@);
    }
    true
}

/// Finds the first occurrence of `pat` in `s` that starts at or after
/// `from`.
pub fn find(s: &Vec<char>, pat: &Vec<char>, from: usize) -> (r: Option<usize>)
    ensures
        match r {
            Some(i) => find_from(s@, pat@, from as int) == Some(i as int) && from <= i && has_at(
                s@,
                i as int,
                pat@,
            ),
            None => find_from(s@, pat@, from as int).is_none(),
        },
{
    let mut i: usize = from;
    while i <= s.len()
        invariant
            from <= i,
            find_from(s@, pat@, from as int) == find_from(s@, pat@, i as int),
        decreases s.len() - i,
    {
        if occurs_at(s, i, pat) {
            return Some(i);
        }
        if i == s.len() {
            assert(find_from(s@, pat@, i + 1).is_none());
            return None;
        }
        i += 1;
    }
    None
}

/// A text that neither starts nor ends with a stripped character is left
/// as it is.
pub proof fn lemma_strip_nothing(s: Seq<char>, what: Strip)
    requires
        s.len() > 0,
        !what.takes(s[0]),
        !what.takes(s.last()),
    ensures
        stripped(s, what) == s,
{
    assert(s.subrange(0, s.len() as int) == s);
}

/// A text without the separator is one piece.
pub proof fn lemma_split_one(s: Seq<char>, sep: char)
    requires
        free_of(s, sep),
    ensures
        split(s, sep) == seq![s],
    decreases s.len(),
{
    if s.len() == 0 {
        assert(s == Seq::<char>::empty());
    } else {
        let before = s.drop_last();
        assert forall|i: int| 0 <= i < before.len() implies #[trigger] before[i] != sep by {
            assert(s[i] == before[i]);
        }
        lemma_split_one(before, sep);
        assert(s.last() != sep);
        assert(before.push(s.last()) == s);
        assert(seq![before].drop_last().push(seq![before].last().push(s.last())) == seq![s]);
    }
}

/// Two texts joined by one separator split into the pieces of the first
/// followed by the pieces of the second.
pub proof fn lemma_split_join(a: Seq<char>, b: Seq<char>, sep: char)
    ensures
        split(a + seq![sep] + b, sep) == split(a, sep) + split(b, sep),
    decreases b.len(),
{
    let x = a + seq![sep] + b;
    if b.len() == 0 {
        assert(x.drop_last() == a);
        assert(split(a, sep).push(Seq::<char>::empty()) == split(a, sep) + split(b, sep));
    } else {
        let short = b.drop_last();
        lemma_split_join(a, short, sep);
        lemma_split_nonempty(short, sep);
        assert(x.drop_last() == a + seq![sep] + short);
        assert(x.last() == b.last());
        let left = split(a, sep);
        let right = split(short, sep);
        let before = left + right;
        if b.last() == sep {
            assert(before.push(Seq::<char>::empty()) == left + right.push(Seq::<char>::empty()));
        } else {
            assert(before.last() == right.last());
            assert(before.drop_last() == left + right.drop_last());
            assert(before.drop_last().push(before.last().push(b.last())) == left
                + right.drop_last().push(right.last().push(b.last())));
        }
    }
}

/// What `find_from` gives is the first occurrence at or after `from`.
pub proof fn lemma_find_first(s: Seq<char>, pat: Seq<char>, from: int)
    requires
        0 <= from,
    ensures
        match find_from(s, pat, from) {
            Some(k) => from <= k && has_at(s, k, pat) && forall|i: int|
                from <= i < k ==> !has_at(s, i, pat),
            None => forall|i: int| from <= i ==> !has_at(s, i, pat),
        },
    decreases s.len() - from + 1,
{
    if from + pat.len() > s.len() {
    } else if has_at(s, from, pat) {
    } else {
        lemma_find_first(s, pat, from + 1);
    }
}

/// The first occurrence at or after `from` is what `find_from` gives.
pub proof fn lemma_first_found(s: Seq<char>, pat: Seq<char>, from: int, k: int)
    requires
        0 <= from <= k,
        has_at(s, k, pat),
        forall|i: int| from <= i < k ==> !has_at(s, i, pat),
    ensures
        find_from(s, pat, from) == Some(k),
    decreases k - from,
{
    if from < k {
        lemma_first_found(s, pat, from + 1, k);
    }
}

/// Whether no character of `s` is `c`.
pub open spec fn free_of(s: Seq<char>, c: char) -> bool {
    forall|k: int| 0 <= k < s.len() ==> #[trigger] s[k] != c
}

/// Two texts free of a character are free of it when joined.
pub proof fn lemma_free_join(a: Seq<char>, b: Seq<char>, c: char)
    requires
        free_of(a, c),
        free_of(b, c),
    ensures
        free_of(a + b, c),
{
    assert forall|k: int| 0 <= k < (a + b).len() implies #[trigger] (a + b)[k] != c by {
        if k < a.len() {
            assert((a + b)[k] == a[k]);
        } else {
            assert((a + b)[k] == b[k - a.len()]);
        }
    }
}

/// The rows joined by `sep`, one separator between two rows.
pub open spec fn joined(rows: Seq<Seq<char>>, sep: char) -> Seq<char>
    decreases rows.len(),
{
    if rows.len() == 0 {
        Seq::empty()
    } else if rows.len() == 1 {
        rows[0]
    } else {
        joined(rows.drop_last(), sep) + seq![sep] + rows.last()
    }
}

/// Rows without the separator, joined and split again, are the same rows.
pub proof fn lemma_split_joined(rows: Seq<Seq<char>>, sep: char)
    requires
        rows.len() >= 1,
        forall|i: int| 0 <= i < rows.len() ==> free_of(#[trigger] rows[i], sep),
    ensures
        split(joined(rows, sep), sep) == rows,
    decreases rows.len(),
{
    if rows.len() == 1 {
        lemma_split_one(rows[0], sep);
        assert(seq![rows[0]] == rows);
    } else {
        let before = rows.drop_last();
        assert forall|i: int| 0 <= i < before.len() implies free_of(#[trigger] before[i], sep) by {
            assert(before[i] == rows[i]);
        }
        lemma_split_joined(before, sep);
        lemma_split_join(joined(before, sep), rows.last(), sep);
        lemma_split_one(rows.last(), sep);
        assert(before + seq![rows.last()] == rows);
    }
}

/// No piece of a split text holds the separator.
pub proof fn lemma_split_pieces(s: Seq<char>, sep: char)
    ensures
        split(s, sep).len() >= 1,
        forall|i: int| 0 <= i < split(s, sep).len() ==> free_of(#[trigger] split(s, sep)[i], sep),
    decreases s.len(),
{
    if s.len() > 0 {
        lemma_split_pieces(s.drop_last(), sep);
        let before = split(s.drop_last(), sep);
        let now = split(s, sep);
        assert forall|i: int| 0 <= i < now.len() implies free_of(#[trigger] now[i], sep) by {
            if i < before.len() - 1 {
                assert(now[i] == before[i]);
            } else if s.last() == sep {
                if i < before.len() {
                    assert(now[i] == before[i]);
                }
            } else {
                assert(now[i] == before.last().push(s.last()));
                assert(free_of(before[before.len() - 1], sep));
            }
        }
    }
}

/// The pieces of a split text, joined by the separator, are the text.
pub proof fn lemma_joined_split(s: Seq<char>, sep: char)
    ensures
        joined(split(s, sep), sep) == s,
    decreases s.len(),
{
    if s.len() == 0 {
        assert(s == Seq::<char>::empty());
    } else {
        let short = s.drop_last();
        let c = s.last();
        lemma_joined_split(short, sep);
        lemma_split_nonempty(short, sep);
        let before = split(short, sep);
        let now = split(s, sep);
        assert(short.push(c) == s);
        if c == sep {
            assert(now.drop_last() == before);
            assert(now.last() == Seq::<char>::empty());
            assert(short + seq![sep] + Seq::<char>::empty() == s);
        } else if before.len() == 1 {
            assert(now[0] == before[0].push(c));
        } else {
            assert(now.drop_last() == before.drop_last());
            assert(now.last() == before.last().push(c));
            let front = joined(before.drop_last(), sep);
            assert(front + seq![sep] + before.last().push(c) == (front + seq![sep]
                + before.last()).push(c));
        }
    }
}

} // verus!
