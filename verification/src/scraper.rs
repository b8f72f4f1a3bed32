//! Parsing of the bulletin's text fragments into notices: the date line
//! ("2016年12月19日(月)　1講時"), the free-form period list ("1-3,5講時"),
//! and the title cell ("題目 [教員]"). The surrounding HTML navigation is
//! not part of the library; it hands these functions plain text.

use crate::dates::{day_number, valid_ymd, Date};
use crate::notices::{has_u8, Kyuko, Periods};
use vstd::prelude::*;

verus! {

/// Why a text fragment could not be read as a notice.
#[derive(Clone, Copy, PartialEq, Eq, Structural, Debug)]
pub enum ParseError {
    /// The date part is not a valid "Y年M月D日" calendar date.
    BadDate,
    /// The date line has no second word to read the periods from.
    MissingPeriods,
    /// The title cell has no bracketed lecturer name.
    MissingLecturer,
}

pub open spec fn is_digit_char(c: char) -> bool {
    '0' <= c <= '9'
}

pub open spec fn is_space_char(c: char) -> bool {
    c == ' ' || c == '\u{3000}' || c == '\t' || c == '\n' || c == '\r'
}

/// Whether the character at `i` is whitespace.
fn at_space(s: &str, i: usize) -> (r: bool)
    requires
        i < s@.len(),
    ensures
        r == is_space_char(s@[i as int]),
{
    let c = s.get_char(i);
    c == ' ' || c == '\u{3000}' || c == '\t' || c == '\n' || c == '\r'
}

/// Whether the character at `i` is an ASCII digit.
fn at_digit(s: &str, i: usize) -> (r: bool)
    requires
        i < s@.len(),
    ensures
        r == is_digit_char(s@[i as int]),
{
    let c = s.get_char(i);
    '0' <= c && c <= '9'
}

/// The first index at or after `i` that does not hold an ASCII digit.
pub open spec fn run_digits(s: Seq<char>, i: int) -> int
    decreases s.len() - i,
{
    if 0 <= i < s.len() && is_digit_char(s[i]) {
        run_digits(s, i + 1)
    } else {
        i
    }
}

/// The first index at or after `i` that does not hold whitespace.
pub open spec fn run_spaces(s: Seq<char>, i: int) -> int
    decreases s.len() - i,
{
    if 0 <= i < s.len() && is_space_char(s[i]) {
        run_spaces(s, i + 1)
    } else {
        i
    }
}

/// The first index at or after `i` that holds whitespace (or the end).
pub open spec fn run_word(s: Seq<char>, i: int) -> int
    decreases s.len() - i,
{
    if 0 <= i < s.len() && !is_space_char(s[i]) {
        run_word(s, i + 1)
    } else {
        i
    }
}

/// The value of the digit run `s[i..j]`.
pub open spec fn seg_val(s: Seq<char>, i: int, j: int) -> int
    decreases j - i,
{
    if i >= j {
        0
    } else {
        seg_val(s, i, j - 1) * 10 + (s[j - 1] as int - 48)
    }
}

/// The deterministic reading of a date string "Y年M月D日": three non-empty
/// digit runs separated by the three date markers, nothing after the last.
pub open spec fn date_text_parse(s: Seq<char>) -> Option<(int, int, int)> {
    let i1 = run_digits(s, 0);
    if i1 == 0 || i1 >= s.len() || s[i1] != '年' {
        None
    } else {
        let i2 = run_digits(s, i1 + 1);
        if i2 == i1 + 1 || i2 >= s.len() || s[i2] != '月' {
            None
        } else {
            let i3 = run_digits(s, i2 + 1);
            if i3 == i2 + 1 || i3 != s.len() - 1 || s[i3] != '日' {
                None
            } else {
                Some((seg_val(s, 0, i1), seg_val(s, i1 + 1, i2), seg_val(s, i2 + 1, i3)))
            }
        }
    }
}

/// Whether the deterministic reading yields a valid calendar date.
pub open spec fn date_text_valid(s: Seq<char>) -> bool {
    date_text_parse(s) matches Some((y, m, d)) && valid_ymd(y, m, d)
}

/// Scans one digit run from `i`, accumulating its value and saturating well
/// above every valid calendar field.
fn scan_number(s: &str, n: usize, i: usize) -> (r: (usize, u32))
    requires
        n == s@.len(),
        i <= n,
    ensures
        r.0 == run_digits(s@, i as int),
        i <= r.0 <= n,
        (seg_val(s@, i as int, r.0 as int) <= 99999 && r.1 == seg_val(s@, i as int, r.0 as int))
            || (seg_val(s@, i as int, r.0 as int) > 99999 && r.1 > 9999),
{
    let mut j = i;
    let mut v: u32 = 0;
    while j < n && at_digit(s, j)
        invariant
            n == s@.len(),
            i <= j <= n,
            run_digits(s@, i as int) == run_digits(s@, j as int),
            forall|k: int| i <= k < j ==> is_digit_char(s@[k]),
            (seg_val(s@, i as int, j as int) <= 99999 && v == seg_val(s@, i as int, j as int)) || (
            seg_val(s@, i as int, j as int) > 99999 && v > 9999),
            v <= 1000009,
        decreases n - j,
    {
        let c = s.get_char(j);
        let d = (c as u32) - 48;
        if v <= 99999 {
            v = v * 10 + d;
        }
        proof {
            assert(seg_val(s@, i as int, j + 1) == seg_val(s@, i as int, j as int) * 10 + (
            s@[j as int] as int - 48));
        }
        j = j + 1;
    }
    proof {
        assert(run_digits(s@, j as int) == j as int);
    }
    (j, v)
}

/// Parses a date string in the fixed "Y年M月D日" format; fails exactly when
/// the text does not have that shape or the numbers are no valid calendar
/// date.
pub fn parse_date_str(src: &str) -> (r: Result<Date, ParseError>)
    ensures
        r is Ok <==> date_text_valid(src@),
        r matches Ok(d) ==> (date_text_parse(src@) matches Some((y, m, dd)) && d.day == day_number(
            y,
            m,
            dd,
        ) && d.valid()),
        r is Err ==> r == Err::<Date, ParseError>(ParseError::BadDate),
{
    let n = src.unicode_len();
    let (i1, y) = scan_number(src, n, 0);
    if i1 == 0 || i1 >= n || src.get_char(i1) != '年' {
        return Err(ParseError::BadDate);
    }
    let (i2, m) = scan_number(src, n, i1 + 1);
    if i2 == i1 + 1 || i2 >= n || src.get_char(i2) != '月' {
        return Err(ParseError::BadDate);
    }
    let (i3, d) = scan_number(src, n, i2 + 1);
    if i3 == i2 + 1 || i3 != n - 1 || src.get_char(i3) != '日' {
        return Err(ParseError::BadDate);
    }
    // the numbers must form a valid calendar date
    if y < 1 || y > 9999 || m < 1 || m > 12 || d < 1 {
        return Err(ParseError::BadDate);
    }
    let leap: bool = (y % 4 == 0 && y % 100 != 0) || y % 400 == 0;
    let dim: u32 = if m == 2 {
        if leap {
            29
        } else {
            28
        }
    } else if m == 4 || m == 6 || m == 9 || m == 11 {
        30
    } else {
        31
    };
    if d > dim {
        return Err(ParseError::BadDate);
    }
    Ok(Date::from_ymd(y, m, d))
}

/// The period numbers a period string denotes: every ASCII digit in the
/// text contributes its value, and every "digit, dash, digit" run
/// contributes the whole closed range between the two digits.
pub open spec fn period_set(s: Seq<char>, v: int) -> bool {
    ||| exists|i: int| 0 <= i < s.len() && is_digit_char(#[trigger] s[i]) && v == s[i] as int - 48
    ||| exists|i: int|
        {
            &&& 0 <= i && i + 2 < s.len()
            &&& is_digit_char(#[trigger] s[i]) && s[i + 1] == '-' && is_digit_char(s[i + 2])
            &&& s[i] as int - 48 <= v <= s[i + 2] as int - 48
        }
}

/// The prefix of `period_set` that mentions only digits (and range starts)
/// before position `m`.
pub open spec fn period_set_upto(s: Seq<char>, v: int, m: int) -> bool {
    ||| exists|i: int| 0 <= i < m && is_digit_char(#[trigger] s[i]) && v == s[i] as int - 48
    ||| exists|i: int|
        {
            &&& 0 <= i < m && i + 2 < s.len()
            &&& is_digit_char(#[trigger] s[i]) && s[i + 1] == '-' && is_digit_char(s[i + 2])
            &&& s[i] as int - 48 <= v <= s[i + 2] as int - 48
        }
}

/// Reads a free-form period list: single digits count on their own, and
/// "a-b" runs count the whole range; everything else separates. The result
/// holds exactly those numbers, sorted, without duplicates.
pub fn parse_periods(src: &str) -> (r: Periods)
    ensures
        r.wf(),
        forall|v: int| has_u8(r.view_seq(), v) <==> period_set(src@, v),
{
    let n = src.unicode_len();
    let mut raw: Vec<u8> = Vec::new();
    proof {
        assert forall|v: int| has_u8(raw@, v) <==> period_set_upto(src@, v, 0) by {}
    }
    for i in 0..n
        invariant
            n == src@.len(),
            forall|v: int| has_u8(raw@, v) <==> period_set_upto(src@, v, i as int),
    {
        let ghost pre = raw@;
        let c = src.get_char(i);
        let is_d = '0' <= c && c <= '9';
        let mut lo: u8 = 0;
        let mut hi: u8 = 0;
        let mut ranged = false;
        if is_d {
            lo = ((c as u32) - 48) as u8;
            raw.push(lo);
            proof {
                assert(raw@ == pre.push(lo));
            }
            if n >= 3 && i < n - 2 && src.get_char(i + 1) == '-' {
                let c2 = src.get_char(i + 2);
                if '0' <= c2 && c2 <= '9' {
                    ranged = true;
                    hi = ((c2 as u32) - 48) as u8;
                    let mut t = lo;
                    while t < hi
                        invariant
                            lo <= t,
                            lo > hi ==> t == lo,
                            lo <= hi ==> t <= hi,
                            hi <= 9,
                            t <= 9,
                            raw@ == pre.push(lo) + Seq::new(
                                (t - lo) as nat,
                                |k: int| (lo + 1 + k) as u8,
                            ),
                        decreases hi - t,
                    {
                        raw.push(t + 1);
                        proof {
                            assert(raw@ =~= pre.push(lo) + Seq::new(
                                (t + 1 - lo) as nat,
                                |k: int| (lo + 1 + k) as u8,
                            ));
                        }
                        t = t + 1;
                    }
                    proof {
                        // what the whole range step left behind, positionally
                        let run = Seq::new((t - lo) as nat, |k: int| (lo + 1 + k) as u8);
                        assert(raw@ == pre.push(lo) + run);
                        let loi = lo as int;
                        let hii = hi as int;
                        assert forall|v: int|
                            #[trigger] has_u8(raw@, v) == (has_u8(pre, v) || v == loi || (loi < v
                                && v <= hii)) by {
                            if has_u8(raw@, v) {
                                let w = choose|w: int| 0 <= w < raw@.len() && raw@[w] == v;
                                if w < pre.len() {
                                    assert(pre[w] == v);
                                } else if w == pre.len() {
                                    assert(v == lo as int);
                                } else {
                                    assert(raw@[w] == run[w - pre.len() - 1]);
                                    assert(v == lo + 1 + (w - pre.len() - 1));
                                }
                            }
                            if has_u8(pre, v) {
                                let w = choose|w: int| 0 <= w < pre.len() && pre[w] == v;
                                assert(raw@[w] == v);
                            } else if v == lo as int {
                                assert(raw@[pre.len() as int] == lo);
                            } else if loi < v && v <= hii {
                                assert(t == hi);
                                let w = pre.len() + 1 + (v - lo - 1);
                                assert(raw@[w] == run[v - lo - 1]);
                                assert(raw@[w] == v);
                            }
                        }
                    }
                }
            }
        }
        proof {
            let s = src@;
            let ii = i as int;
            // one summary of what this position contributed
            assert forall|v: int|
                #[trigger] has_u8(raw@, v) == (has_u8(pre, v) || (is_d && v == lo as int) || (is_d
                    && ranged && lo as int <= v <= hi as int)) by {
                if !is_d {
                } else if !ranged {
                    assert(raw@ == pre.push(lo));
                    if v == lo as int {
                        assert(raw@[pre.len() as int] == lo);
                    } else if has_u8(raw@, v) {
                        let w = choose|w: int| 0 <= w < raw@.len() && raw@[w] == v;
                        assert(pre[w] == v);
                    } else if has_u8(pre, v) {
                        let w = choose|w: int| 0 <= w < pre.len() && pre[w] == v;
                        assert(raw@[w] == v);
                    }
                }
            }
            if is_d {
                assert(is_digit_char(s[ii]) && lo as int == s[ii] as int - 48);
                if ranged {
                    assert(s[ii + 1] == '-' && is_digit_char(s[ii + 2]) && hi as int == s[ii
                        + 2] as int - 48);
                }
            }
            assert forall|v: int| has_u8(raw@, v) implies period_set_upto(s, v, ii + 1) by {
                if has_u8(pre, v) {
                    assert(period_set_upto(s, v, ii));
                } else if is_d && v == lo as int {
                    assert(0 <= ii < ii + 1 && is_digit_char(s[ii]) && v == s[ii] as int - 48);
                } else {
                    assert(is_d && ranged && lo as int <= v <= hi as int);
                    assert(0 <= ii < ii + 1 && ii + 2 < s.len() && is_digit_char(s[ii]) && s[ii + 1]
                        == '-' && is_digit_char(s[ii + 2]) && s[ii] as int - 48 <= v <= s[ii
                        + 2] as int - 48);
                }
            }
            assert forall|v: int| period_set_upto(s, v, ii + 1) implies has_u8(raw@, v) by {
                if period_set_upto(s, v, ii) {
                    assert(has_u8(pre, v));
                } else {
                    assert(is_digit_char(s[ii]));
                    assert(is_d);
                    if v == s[ii] as int - 48 {
                        assert(v == lo as int);
                    } else {
                        assert(ii + 2 < s.len() && s[ii + 1] == '-' && is_digit_char(s[ii + 2])
                            && s[ii] as int - 48 <= v <= s[ii + 2] as int - 48);
                        assert(ranged);
                        assert(lo as int <= v <= hi as int);
                    }
                }
            }
        }
    }
    proof {
        assert forall|v: int| period_set(src@, v) implies period_set_upto(src@, v, n as int) by {}
        assert forall|v: int| period_set_upto(src@, v, n as int) implies period_set(src@, v) by {}
    }
    Periods::from_vec(raw)
}

/// The last index of `c` in `s`, or -1.
pub open spec fn last_ix(s: Seq<char>, c: char) -> int
    decreases s.len(),
{
    if s.len() == 0 {
        -1
    } else if s.last() == c {
        s.len() - 1
    } else {
        last_ix(s.drop_last(), c)
    }
}

pub open spec fn trim_end_ws(s: Seq<char>) -> Seq<char>
    decreases s.len(),
{
    if s.len() > 0 && is_space_char(s.last()) {
        trim_end_ws(s.drop_last())
    } else {
        s
    }
}

pub open spec fn trim_start_ch(s: Seq<char>, c: char) -> Seq<char>
    decreases s.len(),
{
    if s.len() > 0 && s[0] == c {
        trim_start_ch(s.skip(1), c)
    } else {
        s
    }
}

pub open spec fn trim_end_ch(s: Seq<char>, c: char) -> Seq<char>
    decreases s.len(),
{
    if s.len() > 0 && s.last() == c {
        trim_end_ch(s.drop_last(), c)
    } else {
        s
    }
}

/// Splits a title cell "題目 [教員]" at its last opening bracket into the
/// title (trailing whitespace removed) and the lecturer (brackets removed).
/// Fails exactly when there is no opening bracket.
pub fn parse_kamoku(src: &str) -> (r: Result<(String, String), ParseError>)
    ensures
        r is Ok <==> last_ix(src@, '[') >= 0,
        r matches Ok((t, l)) ==> {
            let i = last_ix(src@, '[');
            t@ == trim_end_ws(src@.take(i)) && l@ == trim_end_ch(
                trim_start_ch(src@.skip(i), '['),
                ']',
            )
        },
        r is Err ==> r == Err::<(String, String), ParseError>(ParseError::MissingLecturer),
{
    let n = src.unicode_len();
    let mut i = n;
    proof {
        assert(src@.take(n as int) =~= src@);
    }
    while i > 0 && src.get_char(i - 1) != '['
        invariant
            n == src@.len(),
            i <= n,
            last_ix(src@, '[') == last_ix(src@.take(i as int), '['),
        decreases i,
    {
        proof {
            assert(src@.take(i as int).drop_last() =~= src@.take(i - 1));
            assert(src@.take(i as int).last() == src@[i - 1]);
        }
        i = i - 1;
    }
    if i == 0 {
        proof {
            assert(src@.take(0) =~= Seq::<char>::empty());
        }
        return Err(ParseError::MissingLecturer);
    }
    proof {
        assert(src@.take(i as int).last() == src@[i - 1]);
        assert(last_ix(src@.take(i as int), '[') == i - 1);
    }
    let bx = i - 1;
    // trim trailing whitespace off the title
    let mut e = bx;
    while e > 0 && at_space(src, e - 1)
        invariant
            n == src@.len(),
            e <= bx < n,
            trim_end_ws(src@.take(bx as int)) == trim_end_ws(src@.take(e as int)),
        decreases e,
    {
        proof {
            assert(src@.take(e as int).drop_last() =~= src@.take(e - 1));
            assert(src@.take(e as int).last() == src@[e - 1]);
        }
        e = e - 1;
    }
    proof {
        if e > 0 {
            assert(src@.take(e as int).last() == src@[e - 1]);
        }
        assert(trim_end_ws(src@.take(e as int)) == src@.take(e as int));
    }
    let title = src.substring_char(0, e).to_owned();
    // strip the brackets off the lecturer
    let mut ls = bx;
    while ls < n && src.get_char(ls) == '['
        invariant
            n == src@.len(),
            bx <= ls <= n,
            trim_start_ch(src@.skip(bx as int), '[') == trim_start_ch(src@.skip(ls as int), '['),
        decreases n - ls,
    {
        proof {
            assert(src@.skip(ls as int)[0] == src@[ls as int]);
            assert(src@.skip(ls as int).skip(1) =~= src@.skip(ls + 1));
        }
        ls = ls + 1;
    }
    proof {
        if ls < n {
            assert(src@.skip(ls as int)[0] == src@[ls as int]);
        }
        assert(trim_start_ch(src@.skip(ls as int), '[') == src@.skip(ls as int));
    }
    let mut le = n;
    while le > ls && src.get_char(le - 1) == ']'
        invariant
            n == src@.len(),
            ls <= le <= n,
            trim_end_ch(src@.subrange(ls as int, n as int), ']') == trim_end_ch(
                src@.subrange(ls as int, le as int),
                ']',
            ),
        decreases le,
    {
        proof {
            assert(src@.subrange(ls as int, le as int).drop_last() =~= src@.subrange(
                ls as int,
                le - 1,
            ));
            assert(src@.subrange(ls as int, le as int).last() == src@[le - 1]);
        }
        le = le - 1;
    }
    proof {
        if le > ls {
            assert(src@.subrange(ls as int, le as int).last() == src@[le - 1]);
        }
        assert(trim_end_ch(src@.subrange(ls as int, le as int), ']') == src@.subrange(
            ls as int,
            le as int,
        ));
        assert(src@.skip(ls as int) =~= src@.subrange(ls as int, n as int));
    }
    let lecturer = src.substring_char(ls, le).to_owned();
    Ok((title, lecturer))
}

/// Parses a date line "Y年M月D日(w)　periods": the date runs to the first
/// opening parenthesis, and the periods are read from the line's second
/// whitespace-separated word. Fails exactly when the date part is invalid
/// or there is no second word.
pub fn parse_date(src: &str) -> (r: Result<(Date, Periods), ParseError>)
    ensures
        ({
            let s = src@;
            let cut = run_to_paren(s, 0);
            let e0 = run_word(s, run_spaces(s, 0));
            let s1 = run_spaces(s, e0);
            let e1 = run_word(s, s1);
            &&& (r is Ok <==> (date_text_valid(s.take(cut)) && s1 < e1))
            &&& (r matches Ok((d, p)) ==> {
                &&& (date_text_parse(s.take(cut)) matches Some((y, m, dd)) && d.day == day_number(
                    y,
                    m,
                    dd,
                ))
                &&& p.wf()
                &&& forall|v: int| has_u8(p.view_seq(), v) <==> period_set(s.subrange(s1, e1), v)
            })
            &&& (r == Err::<(Date, Periods), ParseError>(ParseError::BadDate) <==> !date_text_valid(
                s.take(cut),
            ))
            &&& (r == Err::<(Date, Periods), ParseError>(ParseError::MissingPeriods) <==> (
            date_text_valid(s.take(cut)) && s1 >= e1))
        }),
{
    let n = src.unicode_len();
    // the date part: everything before the first '('
    let mut cut: usize = 0;
    while cut < n && src.get_char(cut) != '('
        invariant
            n == src@.len(),
            cut <= n,
            run_to_paren(src@, 0) == run_to_paren(src@, cut as int),
        decreases n - cut,
    {
        cut = cut + 1;
    }
    proof {
        assert(run_to_paren(src@, cut as int) == cut as int);
    }
    let date_part = src.substring_char(0, cut);
    proof {
        assert(date_part@ =~= src@.take(cut as int));
    }
    let d = match parse_date_str(date_part) {
        Ok(d) => d,
        Err(e) => {
            return Err(e);
        },
    };
    // the periods: the second whitespace-separated word
    let mut t0: usize = 0;
    while t0 < n && at_space(src, t0)
        invariant
            n == src@.len(),
            t0 <= n,
            run_spaces(src@, 0) == run_spaces(src@, t0 as int),
        decreases n - t0,
    {
        t0 = t0 + 1;
    }
    proof {
        assert(run_spaces(src@, t0 as int) == t0 as int);
    }
    let mut e0: usize = t0;
    while e0 < n && !at_space(src, e0)
        invariant
            n == src@.len(),
            t0 <= e0 <= n,
            run_word(src@, t0 as int) == run_word(src@, e0 as int),
        decreases n - e0,
    {
        e0 = e0 + 1;
    }
    proof {
        assert(run_word(src@, e0 as int) == e0 as int);
    }
    let mut s1: usize = e0;
    while s1 < n && at_space(src, s1)
        invariant
            n == src@.len(),
            e0 <= s1 <= n,
            run_spaces(src@, e0 as int) == run_spaces(src@, s1 as int),
        decreases n - s1,
    {
        s1 = s1 + 1;
    }
    proof {
        assert(run_spaces(src@, s1 as int) == s1 as int);
    }
    let mut e1: usize = s1;
    while e1 < n && !at_space(src, e1)
        invariant
            n == src@.len(),
            s1 <= e1 <= n,
            run_word(src@, s1 as int) == run_word(src@, e1 as int),
        decreases n - e1,
    {
        e1 = e1 + 1;
    }
    proof {
        assert(run_word(src@, e1 as int) == e1 as int);
    }
    if s1 == e1 {
        return Err(ParseError::MissingPeriods);
    }
    let word = src.substring_char(s1, e1);
    let p = parse_periods(word);
    proof {
        assert(word@ =~= src@.subrange(s1 as int, e1 as int));
    }
    Ok((d, p))
}

/// The first index at or after `i` holding '(' (or the end).
pub open spec fn run_to_paren(s: Seq<char>, i: int) -> int
    decreases s.len() - i,
{
    if 0 <= i < s.len() && s[i] != '(' {
        run_to_paren(s, i + 1)
    } else {
        i
    }
}

/// The notice kind with its surrounding brackets removed: a trailing '】'
/// first, then a leading '【', as the bulletin writes kinds as "【kind】".
pub open spec fn kind_trim(s: Seq<char>) -> Seq<char> {
    let a = if s.len() > 0 && s.last() == '】' {
        s.drop_last()
    } else {
        s
    };
    if a.len() > 0 && a[0] == '【' {
        a.skip(1)
    } else {
        a
    }
}

/// Assembles one notice from the plain text fragments of a bulletin row:
/// the kind attribute, the date line, the title cell, and optional remarks.
/// Fails exactly when the date line or the title cell fails to parse.
pub fn parse_kyuko_parts(kind_attr: &str, date_line: &str, title_cell: &str, remarks: Option<
    String,
>) -> (r: Result<Kyuko, ParseError>)
    ensures
        ({
            let dl = date_line@;
            let cut = run_to_paren(dl, 0);
            let s1 = run_spaces(dl, run_word(dl, run_spaces(dl, 0)));
            let e1 = run_word(dl, s1);
            &&& (r is Ok <==> (date_text_valid(dl.take(cut)) && s1 < e1 && last_ix(
                title_cell@,
                '[',
            ) >= 0))
            &&& (r == Err::<Kyuko, ParseError>(ParseError::BadDate) <==> !date_text_valid(
                dl.take(cut),
            ))
            &&& (r == Err::<Kyuko, ParseError>(ParseError::MissingPeriods) <==> (date_text_valid(
                dl.take(cut),
            ) && s1 >= e1))
            &&& (r == Err::<Kyuko, ParseError>(ParseError::MissingLecturer) <==> (date_text_valid(
                dl.take(cut),
            ) && s1 < e1 && last_ix(title_cell@, '[') < 0))
            &&& (r matches Ok(k) ==> {
                &&& k.kind@ == kind_trim(kind_attr@)
                &&& (date_text_parse(dl.take(cut)) matches Some((y, m, dd)) && k.date.day
                    == day_number(y, m, dd))
                &&& k.periods.wf()
                &&& forall|v: int|
                    has_u8(k.periods.view_seq(), v) <==> period_set(dl.subrange(s1, e1), v)
                &&& k.title@ == trim_end_ws(title_cell@.take(last_ix(title_cell@, '[')))
                &&& k.lecturer@ == trim_end_ch(
                    trim_start_ch(title_cell@.skip(last_ix(title_cell@, '[')), '['),
                    ']',
                )
                &&& k.remarks == remarks
            })
        }),
{
    let n = kind_attr.unicode_len();
    let mut ke = n;
    if ke > 0 && kind_attr.get_char(ke - 1) == '】' {
        ke = ke - 1;
    }
    let mut ks: usize = 0;
    if ks < ke && kind_attr.get_char(ks) == '【' {
        ks = 1;
    }
    let kind = kind_attr.substring_char(ks, ke).to_owned();
    proof {
        assert(kind@ =~= kind_trim(kind_attr@));
    }
    let (date, periods) = match parse_date(date_line) {
        Ok(x) => x,
        Err(e) => {
            return Err(e);
        },
    };
    let (title, lecturer) = match parse_kamoku(title_cell) {
        Ok(x) => x,
        Err(e) => {
            return Err(e);
        },
    };
    Ok(Kyuko { kind, date, periods, title, lecturer, remarks })
}

} // verus!
