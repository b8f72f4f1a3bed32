//! Notices and their text formats: the notice value itself, its period
//! set with the collapsed-runs display form, and decimal formatting.

use crate::dates::Date;
use vstd::prelude::*;

verus! {

pub open spec fn digit_char(d: int) -> char {
    if d == 0 {
        '0'
    } else if d == 1 {
        '1'
    } else if d == 2 {
        '2'
    } else if d == 3 {
        '3'
    } else if d == 4 {
        '4'
    } else if d == 5 {
        '5'
    } else if d == 6 {
        '6'
    } else if d == 7 {
        '7'
    } else if d == 8 {
        '8'
    } else {
        '9'
    }
}

/// The decimal digits of a non-negative number.
pub open spec fn dec_chars(n: int) -> Seq<char>
    decreases n,
{
    if n < 10 {
        seq![digit_char(n)]
    } else {
        dec_chars(n / 10) + seq![digit_char(n % 10)]
    }
}

/// Appends the decimal digits of `n`.
pub fn push_dec(out: &mut String, n: u64)
    ensures
        final(out)@ == old(out)@ + dec_chars(n as int),
    decreases n,
{
    if n >= 10 {
        push_dec(out, n / 10);
    }
    let d = n % 10;
    proof {
        reveal_strlit("0");
        reveal_strlit("1");
        reveal_strlit("2");
        reveal_strlit("3");
        reveal_strlit("4");
        reveal_strlit("5");
        reveal_strlit("6");
        reveal_strlit("7");
        reveal_strlit("8");
        reveal_strlit("9");
    }
    if d == 0 {
        out.append("0");
    } else if d == 1 {
        out.append("1");
    } else if d == 2 {
        out.append("2");
    } else if d == 3 {
        out.append("3");
    } else if d == 4 {
        out.append("4");
    } else if d == 5 {
        out.append("5");
    } else if d == 6 {
        out.append("6");
    } else if d == 7 {
        out.append("7");
    } else if d == 8 {
        out.append("8");
    } else {
        out.append("9");
    }
    proof {
        assert(final(out)@ =~= old(out)@ + dec_chars(n as int));
    }
}

/// The decimal form of a number, as used for subscription identifiers.
pub fn dec_string(n: u64) -> (r: String)
    ensures
        r@ == dec_chars(n as int),
{
    let mut r = String::new();
    push_dec(&mut r, n);
    proof {
        assert(r@ =~= dec_chars(n as int));
    }
    r
}

pub open spec fn sorted_strict_u8(s: Seq<u8>) -> bool {
    forall|i: int, j: int| 0 <= i < j < s.len() ==> #[trigger] s[i] < #[trigger] s[j]
}

pub open spec fn has_u8(s: Seq<u8>, v: int) -> bool {
    exists|i: int| 0 <= i < s.len() && s[i] == v
}

/// The printed tail of a period list, inside a run that started at `start`
/// (already printed) and whose latest value is `prev` (printed only if it
/// equals `start`).
pub open spec fn groups_chars(start: int, prev: int, s: Seq<u8>) -> Seq<char>
    decreases s.len(),
{
    if s.len() == 0 {
        if start == prev {
            Seq::empty()
        } else {
            seq!['-'] + dec_chars(prev)
        }
    } else if s[0] == prev + 1 {
        groups_chars(start, prev + 1, s.skip(1))
    } else {
        (if start == prev {
            Seq::<char>::empty()
        } else {
            seq!['-'] + dec_chars(prev)
        }) + seq![','] + dec_chars(s[0] as int) + groups_chars(s[0] as int, s[0] as int, s.skip(1))
    }
}

/// The printed form of a strictly increasing period list: maximal runs of
/// consecutive numbers collapse to "first-last", and groups are separated
/// by commas, as in "1-3,5".
pub open spec fn periods_chars(s: Seq<u8>) -> Seq<char> {
    if s.len() == 0 {
        Seq::empty()
    } else {
        dec_chars(s[0] as int) + groups_chars(s[0] as int, s[0] as int, s.skip(1))
    }
}

/// The class periods a notice concerns: a strictly increasing set of small
/// numbers.
#[derive(Debug, PartialEq, Eq)]
pub struct Periods {
    items: Vec<u8>,
}

impl Periods {
    pub closed spec fn view_seq(self) -> Seq<u8> {
        self.items@
    }

    pub open spec fn wf(self) -> bool {
        sorted_strict_u8(self.view_seq())
    }

    /// The underlying period numbers, in increasing order.
    pub fn as_slice(&self) -> (r: &Vec<u8>)
        ensures
            r@ == self.view_seq(),
    {
        &self.items
    }

    /// Whether two period sets hold the same numbers.
    pub fn same_as(&self, other: &Periods) -> (r: bool)
        ensures
            r == (self.view_seq() == other.view_seq()),
    {
        let r = self.items == other.items;
        proof {
            if r {
                assert(self.items@ =~= other.items@);
            }
        }
        r
    }

    /// Builds a period set from numbers in any order, with duplicates
    /// allowed: the result holds exactly the given values, strictly
    /// increasing.
    pub fn from_vec(v: Vec<u8>) -> (r: Periods)
        ensures
            r.wf(),
            forall|x: int| has_u8(r.view_seq(), x) <==> has_u8(v@, x),
    {
        let mut out: Vec<u8> = Vec::new();
        let n = v.len();
        for idx in 0..n
            invariant
                n == v@.len(),
                sorted_strict_u8(out@),
                forall|x: int| has_u8(out@, x) <==> has_u8(v@.take(idx as int), x),
        {
            let x = v[idx];
            let ghost old_out = out@;
            let mut j: usize = 0;
            while j < out.len() && out[j] < x
                invariant
                    j <= out@.len(),
                    out@ == old_out,
                    forall|k: int| 0 <= k < j ==> #[trigger] out@[k] < x,
                decreases out@.len() - j,
            {
                j = j + 1;
            }
            if j == out.len() {
                out.push(x);
            } else if x < out[j] {
                out.insert(j, x);
            }
            proof {
                assert(v@.take(idx + 1) == v@.take(idx as int).push(x));
                assert forall|y: int| has_u8(out@, y) implies has_u8(v@.take(idx + 1), y) by {
                    if y == x {
                        assert(v@.take(idx + 1)[idx as int] == x);
                    } else {
                        let i = choose|i: int| 0 <= i < out@.len() && out@[i] == y;
                        if j < old_out.len() && x < old_out[j as int] {
                            let i0 = if i < j {
                                i
                            } else {
                                i - 1
                            };
                            assert(old_out[i0] == y);
                            assert(has_u8(old_out, y));
                        } else if j == old_out.len() {
                            assert(old_out[i] == y);
                            assert(has_u8(old_out, y));
                        } else {
                            assert(has_u8(old_out, y));
                        }
                        let i2 = choose|i2: int|
                            0 <= i2 < v@.take(idx as int).len() && #[trigger] v@.take(idx as int)[i2]
                                == y;
                        assert(v@.take(idx + 1)[i2] == y);
                    }
                }
                assert forall|y: int| has_u8(v@.take(idx + 1), y) implies has_u8(out@, y) by {
                    let i = choose|i: int|
                        0 <= i < v@.take(idx + 1).len() && #[trigger] v@.take(idx + 1)[i] == y;
                    if i < idx {
                        assert(v@.take(idx as int)[i] == y);
                        assert(has_u8(old_out, y));
                        let i3 = choose|i3: int| 0 <= i3 < old_out.len() && old_out[i3] == y;
                        if j < old_out.len() && x < old_out[j as int] {
                            if i3 < j {
                                assert(out@[i3] == y);
                            } else {
                                assert(out@[i3 + 1] == y);
                            }
                        } else {
                            assert(out@[i3] == y);
                        }
                    } else {
                        if j == old_out.len() {
                            assert(out@[j as int] == x);
                        } else if x < old_out[j as int] {
                            assert(out@[j as int] == x);
                        } else {
                            assert(old_out[j as int] == x);
                            assert(out@[j as int] == x);
                        }
                    }
                }
                assert(sorted_strict_u8(out@)) by {
                    if j < old_out.len() && x < old_out[j as int] {
                        assert forall|p: int, q: int|
                            0 <= p < q < out@.len() implies #[trigger] out@[p] < #[trigger] out@[q] by {
                            let jj = j as int;
                            if p < jj && q > jj {
                                assert(out@[q] == old_out[q - 1]);
                            } else if p == jj && q > jj {
                                assert(out@[q] == old_out[q - 1]);
                                assert(old_out[jj] <= old_out[q - 1]);
                            } else if p > jj {
                                assert(out@[p] == old_out[p - 1]);
                                assert(out@[q] == old_out[q - 1]);
                            }
                        }
                    }
                }
            }
        }
        proof {
            assert(v@.take(n as int) == v@);
        }
        Periods { items: out }
    }

    /// The human-readable form, runs collapsed: "1-3,5".
    pub fn display_string(&self) -> (r: String)
        ensures
            r@ == periods_chars(self.view_seq()),
    {
        let mut r = String::new();
        let n = self.items.len();
        if n == 0 {
            proof {
                assert(r@ =~= periods_chars(self.view_seq()));
            }
            return r;
        }
        let first = self.items[0];
        push_dec(&mut r, first as u64);
        let mut start = first;
        let mut prev = first;
        proof {
            reveal_strlit("-");
            reveal_strlit(",");
            assert(r@ + groups_chars(start as int, prev as int, self.items@.skip(1)) == periods_chars(
                self.items@,
            ));
        }
        for i in 1..n
            invariant
                n == self.items@.len(),
                1 <= i <= n,
                r@ + groups_chars(start as int, prev as int, self.items@.skip(i as int))
                    == periods_chars(self.items@),
        {
            let x = self.items[i];
            proof {
                assert(self.items@.skip(i as int)[0] == x);
                assert(self.items@.skip(i as int).skip(1) =~= self.items@.skip(i + 1));
            }
            let ghost old_r = r@;
            let ghost old_start = start;
            let ghost old_prev = prev;
            if prev < 255 && x == prev + 1 {
                prev = x;
            } else {
                if start != prev {
                    r.append("-");
                    push_dec(&mut r, prev as u64);
                }
                r.append(",");
                push_dec(&mut r, x as u64);
                start = x;
                prev = x;
            }
            proof {
                reveal_strlit("-");
                reveal_strlit(",");
                assert("-"@ =~= seq!['-']);
                assert(","@ =~= seq![',']);
                if x as int == old_prev + 1 {
                    assert(groups_chars(old_start as int, old_prev as int, self.items@.skip(i as int))
                        == groups_chars(start as int, prev as int, self.items@.skip(i + 1)));
                } else {
                    assert(groups_chars(old_start as int, old_prev as int, self.items@.skip(i as int))
                        == (if old_start == old_prev {
                        Seq::<char>::empty()
                    } else {
                        seq!['-'] + dec_chars(old_prev as int)
                    }) + seq![','] + dec_chars(x as int) + groups_chars(
                        x as int,
                        x as int,
                        self.items@.skip(i + 1),
                    ));
                    assert(r@ =~= old_r + (if old_start == old_prev {
                        Seq::<char>::empty()
                    } else {
                        seq!['-'] + dec_chars(old_prev as int)
                    }) + seq![','] + dec_chars(x as int));
                    assert(r@ + groups_chars(start as int, prev as int, self.items@.skip(i + 1)) =~= old_r
                        + groups_chars(old_start as int, old_prev as int, self.items@.skip(i as int)));
                }
            }
        }
        proof {
            assert(self.items@.skip(n as int) =~= Seq::<u8>::empty());
        }
        if start != prev {
            r.append("-");
            push_dec(&mut r, prev as u64);
        }
        r
    }
}

/// One lecture cancellation or supplementary-lecture notice.
#[derive(Debug, PartialEq)]
pub struct Kyuko {
    /// The notice's kind, as the bulletin states it.
    pub kind: String,
    /// The date the notice concerns.
    pub date: Date,
    /// The class periods concerned.
    pub periods: Periods,
    /// The lecture's title.
    pub title: String,
    /// The lecturer's name.
    pub lecturer: String,
    /// Free-form remarks, when the notice carries any.
    pub remarks: Option<String>,
}

pub open spec fn opt_string_eq(a: Option<String>, b: Option<String>) -> bool {
    match (a, b) {
        (Option::None, Option::None) => true,
        (Option::Some(x), Option::Some(y)) => x@ == y@,
        _ => false,
    }
}

/// Two notices agree in every field.
pub open spec fn kyuko_eq(a: Kyuko, b: Kyuko) -> bool {
    &&& a.kind@ == b.kind@
    &&& a.date == b.date
    &&& a.periods.view_seq() == b.periods.view_seq()
    &&& a.title@ == b.title@
    &&& a.lecturer@ == b.lecturer@
    &&& opt_string_eq(a.remarks, b.remarks)
}

impl Kyuko {
    /// Whether two notices agree in every field.
    pub fn same_as(&self, other: &Kyuko) -> (r: bool)
        ensures
            r == kyuko_eq(*self, *other),
    {
        let remarks_eq = match (&self.remarks, &other.remarks) {
            (Option::None, Option::None) => true,
            (Option::Some(x), Option::Some(y)) => *x == *y,
            _ => false,
        };
        self.kind == other.kind && self.date == other.date && self.periods.same_as(&other.periods)
            && self.title == other.title && self.lecturer == other.lecturer && remarks_eq
    }
}

} // verus!
