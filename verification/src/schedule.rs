//! Calendar patterns: a pattern is three sets of small integers (weekdays,
//! hours, minutes), and it matches every date-time whose weekday, hour and
//! minute are all members. A pattern can be enumerated as the ascending
//! stream of all its matches after a given instant, several patterns can be
//! merged into one ascending stream, and a polling state machine turns that
//! stream into one-shot timer decisions.

use crate::dates::{dt_le, dt_lt, wday_of_day, Date, DateTime, MAX_DAY};
use crate::util::{cursor_succ, CarryingUpIterator};
use vstd::prelude::*;

verus! {

/// Membership of a value in a sequence of small integers.
pub open spec fn has(s: Seq<u32>, v: int) -> bool {
    exists|i: int| 0 <= i < s.len() && s[i] == v
}

pub open spec fn strictly_sorted(s: Seq<u32>) -> bool {
    forall|i: int, j: int| 0 <= i < j < s.len() ==> #[trigger] s[i] < #[trigger] s[j]
}

pub open spec fn all_below(s: Seq<u32>, bound: int) -> bool {
    forall|i: int| 0 <= i < s.len() ==> #[trigger] s[i] < bound
}

/// Well-formed weekday, hour and minute sets of a pattern: non-empty,
/// strictly increasing, and within their calendar ranges.
pub open spec fn triple_wf(ws: Seq<u32>, hs: Seq<u32>, ms: Seq<u32>) -> bool {
    &&& ws.len() > 0 && strictly_sorted(ws) && all_below(ws, 7)
    &&& hs.len() > 0 && strictly_sorted(hs) && all_below(hs, 24)
    &&& ms.len() > 0 && strictly_sorted(ms) && all_below(ms, 60)
}

/// A date-time matches a pattern when its weekday, hour and minute are all
/// members of the pattern's sets.
pub open spec fn triple_matches(ws: Seq<u32>, hs: Seq<u32>, ms: Seq<u32>, t: DateTime) -> bool {
    &&& has(ws, wday_of_day(t.date.day as int))
    &&& has(hs, t.hour as int)
    &&& has(ms, t.min as int)
}

/// `e` is the earliest match of the pattern strictly after `lo`.
pub open spec fn first_match_after(
    ws: Seq<u32>,
    hs: Seq<u32>,
    ms: Seq<u32>,
    lo: DateTime,
    e: DateTime,
) -> bool {
    &&& triple_matches(ws, hs, ms, e)
    &&& dt_lt(lo, e)
    &&& forall|t: DateTime| #[trigger] triple_matches(ws, hs, ms, t) && dt_lt(lo, t) ==> dt_le(e, t)
}

/// The normalized form of one input set: an empty input means "every value
/// in range" (wildcard), and a non-empty input keeps exactly its values.
pub open spec fn normalized(input: Seq<u32>, bound: int, out: Seq<u32>) -> bool {
    if input.len() == 0 {
        forall|x: int| has(out, x) <==> 0 <= x < bound
    } else {
        forall|x: int| has(out, x) <==> has(input, x)
    }
}

/// A recurring-time pattern: sets of allowed weekdays (0 = Sunday), hours
/// and minutes, kept strictly increasing and in range.
#[derive(Debug)]
pub struct UnitSchedule {
    wdays: Vec<u32>,
    hours: Vec<u32>,
    mins: Vec<u32>,
}

/// The values 0, 1, ..., bound - 1.
fn fill_range(bound: u32) -> (r: Vec<u32>)
    requires
        0 < bound <= 60,
    ensures
        r@.len() == bound,
        forall|i: int| 0 <= i < bound ==> #[trigger] r@[i] == i,
{
    let mut v: Vec<u32> = Vec::new();
    for x in 0..bound
        invariant
            v@.len() == x,
            forall|i: int| 0 <= i < x ==> #[trigger] v@[i] == i,
    {
        v.push(x);
    }
    v
}

/// Sorts the input, removes duplicates, and checks the range; an empty input
/// becomes the full range. Fails exactly when a value is out of range.
fn normalize(v: &Vec<u32>, bound: u32) -> (r: Option<Vec<u32>>)
    requires
        0 < bound <= 60,
    ensures
        r is Some <==> all_below(v@, bound as int),
        r matches Some(s) ==> {
            &&& s@.len() > 0
            &&& strictly_sorted(s@)
            &&& all_below(s@, bound as int)
            &&& normalized(v@, bound as int, s@)
        },
{
    if v.len() == 0 {
        let full = fill_range(bound);
        proof {
            assert forall|x: int| has(full@, x) implies 0 <= x < bound by {
                let i = choose|i: int| 0 <= i < full@.len() && full@[i] == x;
            }
            assert forall|x: int| 0 <= x < bound implies has(full@, x) by {
                assert(full@[x] == x);
            }
        }
        return Some(full);
    }
    let mut out: Vec<u32> = Vec::new();
    let n = v.len();
    for idx in 0..n
        invariant
            n == v@.len(),
            strictly_sorted(out@),
            all_below(out@, bound as int),
            all_below(v@.take(idx as int), bound as int),
            forall|x: int| has(out@, x) <==> has(v@.take(idx as int), x),
    {
        let x = v[idx];
        if x >= bound {
            proof {
                assert(v@[idx as int] == x);
                assert(!all_below(v@, bound as int));
            }
            return None;
        }
        let ghost old_out = out@;
        let mut j: usize = 0;
        while j < out.len() && out[j] < x
            invariant
                j <= out@.len(),
                out@ == old_out,
                forall|k: int| 0 <= k < j ==> #[trigger] out@[k] < x,
            decreases out@.len() - j,
        {
            j = j + 1;
        }
        if j == out.len() {
            out.push(x);
        } else if x < out[j] {
            out.insert(j, x);
        }
        proof {
            assert(v@.take(idx + 1) == v@.take(idx as int).push(x));
            if old_out.len() > 0 && j < old_out.len() && old_out[j as int] == x {
                // already present; nothing inserted
                assert(has(out@, x as int));
            }
            assert forall|y: int| has(out@, y) implies has(v@.take(idx + 1), y) by {
                if y == x {
                    assert(v@.take(idx + 1)[idx as int] == x);
                } else {
                    let i = choose|i: int| 0 <= i < out@.len() && out@[i] == y;
                    if j < old_out.len() && x < old_out[j as int] {
                        // inserted at j
                        let i0 = if i < j {
                            i
                        } else {
                            i - 1
                        };
                        assert(old_out[i0] == y);
                        assert(has(old_out, y));
                    } else if j == old_out.len() {
                        assert(old_out[i] == y);
                        assert(has(old_out, y));
                    } else {
                        assert(has(old_out, y));
                    }
                    let i2 = choose|i2: int| 0 <= i2 < v@.take(idx as int).len() && v@.take(
                        idx as int,
                    )[i2] == y;
                    assert(v@.take(idx + 1)[i2] == y);
                }
            }
            assert forall|y: int| has(v@.take(idx + 1), y) implies has(out@, y) by {
                let i = choose|i: int|
                    0 <= i < v@.take(idx + 1).len() && #[trigger] v@.take(idx + 1)[i] == y;
                if i < idx {
                    assert(v@.take(idx as int)[i] == y);
                    assert(has(old_out, y));
                    let i3 = choose|i3: int| 0 <= i3 < old_out.len() && old_out[i3] == y;
                    if j < old_out.len() && x < old_out[j as int] {
                        if i3 < j {
                            assert(out@[i3] == y);
                        } else {
                            assert(out@[i3 + 1] == y);
                        }
                    } else {
                        assert(out@[i3] == y);
                    }
                } else {
                    // y == x
                    if j == old_out.len() {
                        assert(out@[j as int] == x);
                    } else if x < old_out[j as int] {
                        assert(out@[j as int] == x);
                    } else {
                        assert(old_out[j as int] == x);
                        assert(out@[j as int] == x);
                    }
                }
            }
            assert(strictly_sorted(out@)) by {
                if j < old_out.len() && x < old_out[j as int] {
                    assert forall|p: int, q: int| 0 <= p < q < out@.len() implies #[trigger] out@[p]
                        < #[trigger] out@[q] by {
                        let jj = j as int;
                        if p < jj && q < jj {
                        } else if p < jj && q == jj {
                        } else if p < jj && q > jj {
                            assert(out@[q] == old_out[q - 1]);
                        } else if p == jj {
                            assert(out@[q] == old_out[q - 1]);
                            assert(old_out[jj] <= old_out[q - 1]);
                        } else {
                            assert(out@[p] == old_out[p - 1]);
                            assert(out@[q] == old_out[q - 1]);
                        }
                    }
                }
            }
        }
    }
    proof {
        assert(v@.take(n as int) == v@);
        assert(has(v@, v@[0] as int));
        assert(out@.len() > 0) by {
            assert(has(out@, v@[0] as int));
        }
    }
    Some(out)
}

impl UnitSchedule {
    pub closed spec fn wdays(self) -> Seq<u32> {
        self.wdays@
    }

    pub closed spec fn hours(self) -> Seq<u32> {
        self.hours@
    }

    pub closed spec fn mins(self) -> Seq<u32> {
        self.mins@
    }

    pub open spec fn wf(self) -> bool {
        triple_wf(self.wdays(), self.hours(), self.mins())
    }

    pub open spec fn matches_dt(self, t: DateTime) -> bool {
        triple_matches(self.wdays(), self.hours(), self.mins(), t)
    }

    /// Builds a pattern from raw weekday, hour and minute sets, in any order
    /// and with duplicates; an empty set means "every value in range".
    /// Fails exactly when a value is out of range (weekday 0-6, hour 0-23,
    /// minute 0-59).
    pub fn new(wdays: Vec<u32>, hours: Vec<u32>, mins: Vec<u32>) -> (r: Option<UnitSchedule>)
        ensures
            r is Some <==> (all_below(wdays@, 7) && all_below(hours@, 24) && all_below(mins@, 60)),
            r matches Some(us) ==> {
                &&& us.wf()
                &&& normalized(wdays@, 7, us.wdays())
                &&& normalized(hours@, 24, us.hours())
                &&& normalized(mins@, 60, us.mins())
            },
    {
        let wdays = match normalize(&wdays, 7) {
            Some(s) => s,
            None => {
                return None;
            },
        };
        let hours = match normalize(&hours, 24) {
            Some(s) => s,
            None => {
                return None;
            },
        };
        let mins = match normalize(&mins, 60) {
            Some(s) => s,
            None => {
                return None;
            },
        };
        Some(UnitSchedule { wdays, hours, mins })
    }
}

impl PartialEq for UnitSchedule {
    /// Patterns are equal when their normalized sets are equal.
    fn eq(&self, other: &Self) -> (r: bool) {
        let r = self.wdays == other.wdays && self.hours == other.hours && self.mins == other.mins;
        proof {
            if r {
                assert(self.wdays@ =~= other.wdays@);
                assert(self.hours@ =~= other.hours@);
                assert(self.mins@ =~= other.mins@);
            }
        }
        r
    }
}

impl vstd::std_specs::cmp::PartialEqSpecImpl for UnitSchedule {
    open spec fn obeys_eq_spec() -> bool {
        true
    }

    open spec fn eq_spec(&self, other: &Self) -> bool {
        self.wdays() == other.wdays() && self.hours() == other.hours() && self.mins()
            == other.mins()
    }
}

/// Days from day `d` forward to the next day (possibly `d` itself) whose
/// weekday is `w`.
pub open spec fn gap_to(w: int, d: int) -> int {
    (w - wday_of_day(d) + 7) % 7
}

/// The date-time an enumerator emits from cursor `cur` and search day `day`:
/// the first day on or after `day` with the cursor's weekday, at the
/// cursor's hour and minute.
pub open spec fn emit_at(
    ws: Seq<u32>,
    hs: Seq<u32>,
    ms: Seq<u32>,
    cur: (int, int, int),
    day: int,
) -> DateTime {
    let w = ws[cur.0] as int;
    let d = day + gap_to(w, day);
    DateTime { date: Date { day: d as u64 }, hour: hs[cur.1], min: ms[cur.2] }
}

/// Lexicographic order on value triples.
pub open spec fn tri_lt(a: (int, int, int), b: (int, int, int)) -> bool {
    ||| a.0 < b.0
    ||| (a.0 == b.0 && a.1 < b.1)
    ||| (a.0 == b.0 && a.1 == b.1 && a.2 < b.2)
}

pub open spec fn tri_le(a: (int, int, int), b: (int, int, int)) -> bool {
    tri_lt(a, b) || a == b
}

/// The weekday/hour/minute values at a cursor position.
pub open spec fn combo_at(ws: Seq<u32>, hs: Seq<u32>, ms: Seq<u32>, p: (int, int, int)) -> (
    int,
    int,
    int,
) {
    (ws[p.0] as int, hs[p.1] as int, ms[p.2] as int)
}

pub open spec fn cur_in(p: (int, int, int), lens: (int, int, int)) -> bool {
    0 <= p.0 < lens.0 && 0 <= p.1 < lens.1 && 0 <= p.2 < lens.2
}

/// Weekday arithmetic: moving `k` days forward rotates the weekday.
proof fn lemma_wday_add(d: int, k: int)
    requires
        0 <= d,
        0 <= k < 7,
    ensures
        wday_of_day(d + k) == if wday_of_day(d) + k < 7 {
            wday_of_day(d) + k
        } else {
            wday_of_day(d) + k - 7
        },
{
    vstd::arithmetic::div_mod::lemma_fundamental_div_mod(d + 1, 7);
    let q = (d + 1) / 7;
    let wd = (d + 1) % 7;
    if wd + k < 7 {
        vstd::arithmetic::div_mod::lemma_fundamental_div_mod_converse(d + k + 1, 7, q, wd + k);
    } else {
        vstd::arithmetic::div_mod::lemma_fundamental_div_mod_converse(
            d + k + 1,
            7,
            q + 1,
            wd + k - 7,
        );
    }
}

/// The gap to weekday `w` is under a week, lands on `w`, and no earlier day
/// on the way has weekday `w`.
proof fn lemma_gap_props(w: int, d: int)
    requires
        0 <= w < 7,
        0 <= d,
    ensures
        0 <= gap_to(w, d) < 7,
        wday_of_day(d + gap_to(w, d)) == w,
        forall|k: int| 0 <= k < gap_to(w, d) ==> #[trigger] wday_of_day(d + k) != w,
{
    let wd = wday_of_day(d);
    assert(0 <= wd < 7);
    let g = gap_to(w, d);
    if w >= wd {
        vstd::arithmetic::div_mod::lemma_fundamental_div_mod_converse(w - wd + 7, 7, 1, w - wd);
        assert(g == w - wd);
    } else {
        vstd::arithmetic::div_mod::lemma_fundamental_div_mod_converse(w - wd + 7, 7, 0, w - wd + 7);
        assert(g == w - wd + 7);
    }
    assert forall|k: int| 0 <= k <= g implies #[trigger] wday_of_day(d + k) == (if wd + k < 7 {
        wd + k
    } else {
        wd + k - 7
    }) by {
        lemma_wday_add(d, k);
    }
}

/// In a strictly sorted sequence, a member above `s[i]` is at least `s[i+1]`.
proof fn lemma_member_above(s: Seq<u32>, i: int, v: int)
    requires
        strictly_sorted(s),
        0 <= i < s.len(),
        has(s, v),
        v > s[i],
    ensures
        i + 1 < s.len(),
        v >= s[i + 1],
{
    let j = choose|j: int| 0 <= j < s.len() && s[j] == v;
    if j < i {
        assert(s[j] < s[i]);
    }
    assert(j > i);
    if j > i + 1 {
        assert(s[i + 1] < s[j]);
    }
}

proof fn lemma_member_ge_first(s: Seq<u32>, v: int)
    requires
        strictly_sorted(s),
        s.len() > 0,
        has(s, v),
    ensures
        v >= s[0],
{
    let j = choose|j: int| 0 <= j < s.len() && s[j] == v;
    if j > 0 {
        assert(s[0] < s[j]);
    }
}

/// The single-step alignment law of the enumerator: if the cursor and search
/// day emit `e`, then after stepping the cursor (and, on a full cycle wrap,
/// bumping the search day past `e`), the new state emits exactly the first
/// pattern match after `e`.
proof fn lemma_step(ws: Seq<u32>, hs: Seq<u32>, ms: Seq<u32>, cur: (int, int, int), day: int)
    requires
        triple_wf(ws, hs, ms),
        cur_in(cur, (ws.len() as int, hs.len() as int, ms.len() as int)),
        0 <= day,
        day + 14 <= u64::MAX,
    ensures
        ({
            let lens = (ws.len() as int, hs.len() as int, ms.len() as int);
            let wrapped = cur == (lens.0 - 1, lens.1 - 1, lens.2 - 1);
            let e = emit_at(ws, hs, ms, cur, day);
            let day2 = e.date.day + (if wrapped {
                1int
            } else {
                0int
            });
            let e2 = emit_at(ws, hs, ms, cursor_succ(cur, lens), day2);
            &&& first_match_after(ws, hs, ms, e, e2)
            &&& e2.date.day <= day + 13
        }),
{
    let lens = (ws.len() as int, hs.len() as int, ms.len() as int);
    let wrapped = cur == (lens.0 - 1, lens.1 - 1, lens.2 - 1);
    let nxt = cursor_succ(cur, lens);
    let ai = cur.0;
    let bi = cur.1;
    let ci = cur.2;
    let w = ws[ai] as int;
    let h = hs[bi] as int;
    let m = ms[ci] as int;
    lemma_gap_props(w, day);
    let ed = day + gap_to(w, day);
    let e = emit_at(ws, hs, ms, cur, day);
    assert(e.date.day == ed);
    assert(wday_of_day(ed) == w);
    assert(has(ws, w)) by {
        assert(ws[ai] as int == w);
    }
    assert(has(hs, h)) by {
        assert(hs[bi] as int == h);
    }
    assert(has(ms, m)) by {
        assert(ms[ci] as int == m);
    }
    if ci + 1 < lens.2 {
        // same weekday and hour, next minute
        assert(nxt == (ai, bi, ci + 1));
        lemma_gap_props(w, ed);
        assert(gap_to(w, ed) == 0) by {
            vstd::arithmetic::div_mod::lemma_fundamental_div_mod_converse(7, 7, 1, 0);
        }
        let e2 = emit_at(ws, hs, ms, nxt, ed);
        assert(e2.date.day == ed);
        assert(m < ms[ci + 1] as int);
        assert(triple_matches(ws, hs, ms, e2)) by {
            assert(has(ms, ms[ci + 1] as int)) by {
                assert(ms[ci + 1] as int == ms[ci + 1] as int);
            }
        }
        assert(dt_lt(e, e2));
        assert forall|t: DateTime| #[trigger] triple_matches(ws, hs, ms, t) && dt_lt(e, t)
            implies dt_le(e2, t) by {
            if t.date.day as int == ed {
                if t.hour as int == h {
                    lemma_member_above(ms, ci, t.min as int);
                }
            }
        }
    } else if bi + 1 < lens.1 {
        // same weekday, next hour, first minute
        assert(nxt == (ai, bi + 1, 0int));
        lemma_gap_props(w, ed);
        assert(gap_to(w, ed) == 0) by {
            vstd::arithmetic::div_mod::lemma_fundamental_div_mod_converse(7, 7, 1, 0);
        }
        let e2 = emit_at(ws, hs, ms, nxt, ed);
        assert(e2.date.day == ed);
        assert(h < hs[bi + 1] as int);
        assert(triple_matches(ws, hs, ms, e2)) by {
            assert(has(hs, hs[bi + 1] as int)) by {
                assert(hs[bi + 1] == hs[bi + 1]);
            }
            assert(has(ms, ms[0] as int)) by {
                assert(ms[0] == ms[0]);
            }
        }
        assert(dt_lt(e, e2));
        assert forall|t: DateTime| #[trigger] triple_matches(ws, hs, ms, t) && dt_lt(e, t)
            implies dt_le(e2, t) by {
            if t.date.day as int == ed {
                if t.hour as int == h {
                    // no minute above the last one
                    lemma_member_above(ms, ci, t.min as int);
                } else {
                    lemma_member_above(hs, bi, t.hour as int);
                    if t.hour as int == hs[bi + 1] as int {
                        lemma_member_ge_first(ms, t.min as int);
                    }
                }
            }
        }
    } else if ai + 1 < lens.0 {
        // next weekday in the set, first hour and minute
        assert(nxt == (ai + 1, 0int, 0int));
        let w2 = ws[ai + 1] as int;
        assert(w < w2 < 7);
        lemma_gap_props(w2, ed);
        assert(gap_to(w2, ed) == w2 - w) by {
            vstd::arithmetic::div_mod::lemma_fundamental_div_mod_converse(
                w2 - w + 7,
                7,
                1,
                w2 - w,
            );
        }
        let ed2 = ed + (w2 - w);
        let e2 = emit_at(ws, hs, ms, nxt, ed);
        assert(e2.date.day == ed2);
        assert(triple_matches(ws, hs, ms, e2)) by {
            assert(has(ws, w2)) by {
                assert(ws[ai + 1] == ws[ai + 1]);
            }
            assert(has(hs, hs[0] as int)) by {
                assert(hs[0] == hs[0]);
            }
            assert(has(ms, ms[0] as int)) by {
                assert(ms[0] == ms[0]);
            }
        }
        assert(dt_lt(e, e2));
        assert forall|t: DateTime| #[trigger] triple_matches(ws, hs, ms, t) && dt_lt(e, t)
            implies dt_le(e2, t) by {
            let td = t.date.day as int;
            if td == ed {
                if t.hour as int == h {
                    lemma_member_above(ms, ci, t.min as int);
                } else {
                    lemma_member_above(hs, bi, t.hour as int);
                }
            } else if ed < td < ed2 {
                let k = td - ed;
                lemma_wday_add(ed, k);
                assert(wday_of_day(td) == w + k);
                lemma_member_above(ws, ai, w + k);
            } else if td == ed2 {
                assert(wday_of_day(td) == w2);
                lemma_member_ge_first(hs, t.hour as int);
                if t.hour as int == hs[0] as int {
                    lemma_member_ge_first(ms, t.min as int);
                }
            }
        }
    } else {
        // full cycle wrap: first weekday of the set, at least one day later
        assert(nxt == (0int, 0int, 0int));
        assert(wrapped);
        let w2 = ws[0] as int;
        assert(w2 <= w) by {
            if lens.0 > 1 {
                assert(ws[0] < ws[lens.0 - 1]);
            }
        }
        lemma_gap_props(w2, ed + 1);
        let g2 = gap_to(w2, ed + 1);
        let ed2 = ed + 1 + g2;
        assert(g2 == w2 - w + 6) by {
            lemma_wday_add(ed, 1);
            if w + 1 < 7 {
                assert(wday_of_day(ed + 1) == w + 1);
                vstd::arithmetic::div_mod::lemma_fundamental_div_mod_converse(
                    w2 - (w + 1) + 7,
                    7,
                    0,
                    w2 - w + 6,
                );
            } else {
                assert(wday_of_day(ed + 1) == 0);
                vstd::arithmetic::div_mod::lemma_fundamental_div_mod_converse(
                    w2 + 7,
                    7,
                    1,
                    w2,
                );
            }
        }
        assert(ed2 == ed + 7 - (w - w2));
        let e2 = emit_at(ws, hs, ms, nxt, ed + 1);
        assert(e2.date.day == ed2);
        assert(triple_matches(ws, hs, ms, e2)) by {
            assert(has(ws, w2)) by {
                assert(ws[0] == ws[0]);
            }
            assert(has(hs, hs[0] as int)) by {
                assert(hs[0] == hs[0]);
            }
            assert(has(ms, ms[0] as int)) by {
                assert(ms[0] == ms[0]);
            }
        }
        assert(dt_lt(e, e2));
        assert forall|t: DateTime| #[trigger] triple_matches(ws, hs, ms, t) && dt_lt(e, t)
            implies dt_le(e2, t) by {
            let td = t.date.day as int;
            if td == ed {
                if t.hour as int == h {
                    lemma_member_above(ms, ci, t.min as int);
                } else {
                    lemma_member_above(hs, bi, t.hour as int);
                }
            } else if ed < td < ed2 {
                let k = td - ed;
                lemma_wday_add(ed, k);
                if w + k < 7 {
                    assert(wday_of_day(td) == w + k);
                    lemma_member_above(ws, lens.0 - 1, w + k);
                } else {
                    assert(wday_of_day(td) == w + k - 7);
                    assert(w + k - 7 < w2);
                    lemma_member_ge_first(ws, w + k - 7);
                }
            } else if td == ed2 {
                assert(wday_of_day(td) == w2);
                lemma_member_ge_first(hs, t.hour as int);
                if t.hour as int == hs[0] as int {
                    lemma_member_ge_first(ms, t.min as int);
                }
            }
        }
    }
}

/// An enumeration cursor over one pattern: yields the pattern's matches as
/// concrete date-times, in strictly increasing order, each one the earliest
/// match after the previous (or after the anchor it was built from).
pub struct Iter {
    inner: CarryingUpIterator<u32, u32, u32>,
    date: Date,
    prev: Ghost<DateTime>,
}

impl Iter {
    pub closed spec fn wdays(self) -> Seq<u32> {
        self.inner.seq_a()
    }

    pub closed spec fn hours(self) -> Seq<u32> {
        self.inner.seq_b()
    }

    pub closed spec fn mins(self) -> Seq<u32> {
        self.inner.seq_c()
    }

    /// The odometer cursor position.
    pub closed spec fn cursor(self) -> (int, int, int) {
        self.inner.cursor()
    }

    pub closed spec fn inner_ok(self) -> bool {
        self.inner.wf()
    }

    /// The exclusive lower bound of everything still to come: the last value
    /// yielded, or the anchor the cursor was built from.
    pub closed spec fn lower(self) -> DateTime {
        self.prev@
    }

    /// The day the emission search starts from.
    pub closed spec fn cur_day(self) -> int {
        self.date.day as int
    }

    /// The next date-time this cursor will yield.
    pub open spec fn emission(self) -> DateTime {
        emit_at(self.wdays(), self.hours(), self.mins(), self.cursor(), self.cur_day())
    }

    pub open spec fn wf(self) -> bool {
        &&& self.inner_ok()
        &&& triple_wf(self.wdays(), self.hours(), self.mins())
        &&& 0 <= self.cur_day()
        &&& first_match_after(
            self.wdays(),
            self.hours(),
            self.mins(),
            self.lower(),
            self.emission(),
        )
    }

    /// Yields the earliest match of the pattern strictly after the previous
    /// yield (or after the anchor), so successive yields strictly increase.
    pub fn next(&mut self) -> (r: DateTime)
        requires
            old(self).wf(),
            old(self).cur_day() + 14 <= MAX_DAY,
        ensures
            final(self).wf(),
            final(self).wdays() == old(self).wdays(),
            final(self).hours() == old(self).hours(),
            final(self).mins() == old(self).mins(),
            r == old(self).emission(),
            first_match_after(
                old(self).wdays(),
                old(self).hours(),
                old(self).mins(),
                old(self).lower(),
                r,
            ),
            final(self).lower() == r,
            dt_lt(old(self).lower(), r),
            old(self).cur_day() <= r.date.day as int <= old(self).cur_day() + 6,
            final(self).cur_day() <= old(self).cur_day() + 7,
            final(self).cur_day() <= r.date.day as int + 1,
            r.hour < 24,
            r.min < 60,
    {
        let at_end = self.inner.cursor_at_end();
        let (w, h, m) = self.inner.next();
        let wd = self.date.weekday();
        let gap = (w + 7 - wd) % 7;
        let eday = Date { day: self.date.day + gap as u64 };
        let r = DateTime { date: eday, hour: h, min: m };
        proof {
            lemma_step(
                old(self).wdays(),
                old(self).hours(),
                old(self).mins(),
                old(self).inner.cursor(),
                old(self).cur_day(),
            );
            lemma_gap_props(w as int, old(self).cur_day());
            self.prev@ = r;
        }
        self.date = if at_end {
            Date { day: eday.day + 1 }
        } else {
            eday
        };
        r
    }
}

/// The three set sizes as a cursor-bound triple; cursor positions compare
/// lexicographically, in the order the odometer visits them within a cycle.
pub open spec fn scan_lens(ws: Seq<u32>, hs: Seq<u32>, ms: Seq<u32>) -> (int, int, int) {
    (ws.len() as int, hs.len() as int, ms.len() as int)
}

/// Within one cycle, combinations grow with the cursor order.
proof fn lemma_combo_monotone(
    ws: Seq<u32>,
    hs: Seq<u32>,
    ms: Seq<u32>,
    p: (int, int, int),
    q: (int, int, int),
)
    requires
        triple_wf(ws, hs, ms),
        cur_in(p, scan_lens(ws, hs, ms)),
        cur_in(q, scan_lens(ws, hs, ms)),
        tri_lt(p, q),
    ensures
        tri_lt(combo_at(ws, hs, ms, p), combo_at(ws, hs, ms, q)),
{
    if p.0 < q.0 {
        assert(ws[p.0] < ws[q.0]);
    } else if p.1 < q.1 {
        assert(hs[p.1] < hs[q.1]);
    } else {
        assert(ms[p.2] < ms[q.2]);
    }
}

/// Days until the first day on or after `d` (counting from `k`) whose
/// weekday is a member of `ws`.
pub open spec fn align_gap_from(ws: Seq<u32>, d: int, k: int) -> int
    decreases 7 - k,
{
    if k >= 7 {
        7
    } else if has(ws, wday_of_day(d + k)) {
        k
    } else {
        align_gap_from(ws, d, k + 1)
    }
}

pub open spec fn align_gap(ws: Seq<u32>, d: int) -> int {
    align_gap_from(ws, d, 0)
}

proof fn lemma_align_from(ws: Seq<u32>, d: int, k: int, k0: int)
    requires
        0 <= d,
        0 <= k <= k0 < 7,
        has(ws, wday_of_day(d + k0)),
    ensures
        k <= align_gap_from(ws, d, k) <= k0,
        has(ws, wday_of_day(d + align_gap_from(ws, d, k))),
        forall|j: int|
            k <= j < align_gap_from(ws, d, k) ==> !(has(ws, #[trigger] wday_of_day(d + j))),
    decreases 7 - k,
{
    if has(ws, wday_of_day(d + k)) {
    } else {
        assert(k < k0);
        lemma_align_from(ws, d, k + 1, k0);
    }
}

/// The alignment gap lands on a member weekday within a week, and no
/// earlier day on the way has a member weekday.
proof fn lemma_align_props(ws: Seq<u32>, d: int)
    requires
        ws.len() > 0,
        strictly_sorted(ws),
        all_below(ws, 7),
        0 <= d,
    ensures
        0 <= align_gap(ws, d) < 7,
        has(ws, wday_of_day(d + align_gap(ws, d))),
        forall|j: int| 0 <= j < align_gap(ws, d) ==> !(has(ws, #[trigger] wday_of_day(d + j))),
{
    let w = ws[0] as int;
    lemma_gap_props(w, d);
    let k0 = gap_to(w, d);
    assert(has(ws, wday_of_day(d + k0))) by {
        assert(ws[0] as int == w);
    }
    lemma_align_from(ws, d, 0, k0);
}

/// The alignment law of `iter_since`: starting the odometer at the first
/// combination after the anchor's weekday/hour/minute triple (or back at the
/// start, one day later, when no combination is after it) emits exactly the
/// first pattern match after the anchor.
proof fn lemma_init(
    ws: Seq<u32>,
    hs: Seq<u32>,
    ms: Seq<u32>,
    cur: (int, int, int),
    anchor: DateTime,
    wrapped: bool,
)
    requires
        triple_wf(ws, hs, ms),
        anchor.date.day + 14 <= u64::MAX,
        anchor.hour < 24,
        anchor.min < 60,
        has(ws, wday_of_day(anchor.date.day as int)),
        ({
            let whm = (
                wday_of_day(anchor.date.day as int),
                anchor.hour as int,
                anchor.min as int,
            );
            let lens = scan_lens(ws, hs, ms);
            if wrapped {
                cur == (0int, 0int, 0int) && forall|p: (int, int, int)|
                    cur_in(p, lens) ==> tri_le(#[trigger] combo_at(ws, hs, ms, p), whm)
            } else {
                cur_in(cur, lens) && tri_lt(whm, combo_at(ws, hs, ms, cur)) && forall|
                    p: (int, int, int),
                |
                    cur_in(p, lens) && tri_lt(p, cur) ==> tri_le(
                        #[trigger] combo_at(ws, hs, ms, p),
                        whm,
                    )
            }
        }),
    ensures
        first_match_after(
            ws,
            hs,
            ms,
            anchor,
            emit_at(
                ws,
                hs,
                ms,
                cur,
                anchor.date.day + (if wrapped {
                    1int
                } else {
                    0int
                }),
            ),
        ),
{
    let dal = anchor.date.day as int;
    let w0 = wday_of_day(dal);
    let th = anchor.hour as int;
    let tm = anchor.min as int;
    let whm = (w0, th, tm);
    let lens = scan_lens(ws, hs, ms);
    assert(0 <= w0 < 7);
    let a0 = choose|i: int| 0 <= i < ws.len() && ws[i] == w0;
    if !wrapped {
        let wstar = ws[cur.0] as int;
        if wstar == w0 {
            lemma_gap_props(w0, dal);
            assert(gap_to(w0, dal) == 0) by {
                vstd::arithmetic::div_mod::lemma_fundamental_div_mod_converse(7, 7, 1, 0);
            }
            let e = emit_at(ws, hs, ms, cur, dal);
            assert(e.date.day as int == dal);
            assert(triple_matches(ws, hs, ms, e)) by {
                assert(ws[cur.0] == ws[cur.0]);
                assert(hs[cur.1] == hs[cur.1]);
                assert(ms[cur.2] == ms[cur.2]);
            }
            assert(dt_lt(anchor, e));
            assert forall|t: DateTime| #[trigger] triple_matches(ws, hs, ms, t) && dt_lt(anchor, t)
                implies dt_le(e, t) by {
                let td = t.date.day as int;
                if td == dal {
                    let it = choose|i: int| 0 <= i < ws.len() && ws[i] == wday_of_day(td);
                    let jt = choose|j: int| 0 <= j < hs.len() && hs[j] == t.hour as int;
                    let kt = choose|k: int| 0 <= k < ms.len() && ms[k] == t.min as int;
                    let pt = (it, jt, kt);
                    assert(cur_in(pt, lens));
                    assert(combo_at(ws, hs, ms, pt) == (w0, t.hour as int, t.min as int));
                    assert(tri_lt(whm, combo_at(ws, hs, ms, pt)));
                    if tri_lt(pt, cur) {
                        assert(tri_le(combo_at(ws, hs, ms, pt), whm));
                        assert(false);
                    } else if pt == cur {
                    } else {
                        assert(tri_lt(cur, pt));
                        lemma_combo_monotone(ws, hs, ms, cur, pt);
                    }
                }
            }
        } else {
            assert(wstar > w0);
            assert(cur.1 == 0 && cur.2 == 0) by {
                if cur.1 != 0 || cur.2 != 0 {
                    let p0 = (cur.0, 0int, 0int);
                    assert(cur_in(p0, lens));
                    assert(tri_lt(p0, cur));
                    assert(tri_le(combo_at(ws, hs, ms, p0), whm));
                    assert(false);
                }
            }
            lemma_gap_props(wstar, dal);
            assert(gap_to(wstar, dal) == wstar - w0) by {
                vstd::arithmetic::div_mod::lemma_fundamental_div_mod_converse(
                    wstar - w0 + 7,
                    7,
                    1,
                    wstar - w0,
                );
            }
            let ed = dal + (wstar - w0);
            let e = emit_at(ws, hs, ms, cur, dal);
            assert(e.date.day as int == ed);
            assert(triple_matches(ws, hs, ms, e)) by {
                assert(ws[cur.0] == ws[cur.0]);
                assert(hs[0] == hs[0]);
                assert(ms[0] == ms[0]);
            }
            assert(dt_lt(anchor, e));
            assert forall|t: DateTime| #[trigger] triple_matches(ws, hs, ms, t) && dt_lt(anchor, t)
                implies dt_le(e, t) by {
                let td = t.date.day as int;
                if td == dal {
                    let it = choose|i: int| 0 <= i < ws.len() && ws[i] == wday_of_day(td);
                    let jt = choose|j: int| 0 <= j < hs.len() && hs[j] == t.hour as int;
                    let kt = choose|k: int| 0 <= k < ms.len() && ms[k] == t.min as int;
                    let pt = (it, jt, kt);
                    assert(cur_in(pt, lens));
                    assert(ws[it] == w0);
                    assert(it < cur.0) by {
                        if it > cur.0 {
                            assert(ws[cur.0] < ws[it]);
                        }
                    }
                    assert(tri_lt(pt, cur));
                    assert(tri_le(combo_at(ws, hs, ms, pt), whm));
                    assert(tri_lt(whm, combo_at(ws, hs, ms, pt)));
                    assert(false);
                } else if dal < td < ed {
                    let k = td - dal;
                    lemma_wday_add(dal, k);
                    assert(wday_of_day(td) == w0 + k);
                    let it = choose|i: int| 0 <= i < ws.len() && ws[i] == wday_of_day(td);
                    assert(it < cur.0) by {
                        if it >= cur.0 {
                            if it > cur.0 {
                                assert(ws[cur.0] < ws[it]);
                            }
                        }
                    }
                    let pw = (it, 0int, 0int);
                    assert(cur_in(pw, lens));
                    assert(tri_lt(pw, cur));
                    assert(tri_le(combo_at(ws, hs, ms, pw), whm));
                    assert(false);
                } else if td == ed {
                    assert(wday_of_day(td) == wstar);
                    lemma_member_ge_first(hs, t.hour as int);
                    if t.hour as int == hs[0] as int {
                        lemma_member_ge_first(ms, t.min as int);
                    }
                }
            }
        }
    } else {
        assert(ws[lens.0 - 1] as int <= w0) by {
            let plast = (lens.0 - 1, 0int, 0int);
            assert(cur_in(plast, lens));
            assert(tri_le(combo_at(ws, hs, ms, plast), whm));
        }
        assert(a0 == lens.0 - 1) by {
            if a0 < lens.0 - 1 {
                assert(ws[a0] < ws[lens.0 - 1]);
            }
        }
        assert(ws[lens.0 - 1] as int == w0);
        let w2 = ws[0] as int;
        assert(w2 <= w0) by {
            if lens.0 > 1 {
                assert(ws[0] < ws[lens.0 - 1]);
            }
        }
        lemma_gap_props(w2, dal + 1);
        let g2 = gap_to(w2, dal + 1);
        assert(g2 == w2 - w0 + 6) by {
            lemma_wday_add(dal, 1);
            if w0 + 1 < 7 {
                assert(wday_of_day(dal + 1) == w0 + 1);
                vstd::arithmetic::div_mod::lemma_fundamental_div_mod_converse(
                    w2 - (w0 + 1) + 7,
                    7,
                    0,
                    w2 - w0 + 6,
                );
            } else {
                assert(wday_of_day(dal + 1) == 0);
                vstd::arithmetic::div_mod::lemma_fundamental_div_mod_converse(w2 + 7, 7, 1, w2);
            }
        }
        let ed = dal + 1 + g2;
        let e = emit_at(ws, hs, ms, cur, dal + 1);
        assert(e.date.day as int == ed);
        assert(triple_matches(ws, hs, ms, e)) by {
            assert(ws[0] == ws[0]);
            assert(hs[0] == hs[0]);
            assert(ms[0] == ms[0]);
        }
        assert(dt_lt(anchor, e));
        assert forall|t: DateTime| #[trigger] triple_matches(ws, hs, ms, t) && dt_lt(anchor, t)
            implies dt_le(e, t) by {
            let td = t.date.day as int;
            if td == dal {
                let it = choose|i: int| 0 <= i < ws.len() && ws[i] == wday_of_day(td);
                let jt = choose|j: int| 0 <= j < hs.len() && hs[j] == t.hour as int;
                let kt = choose|k: int| 0 <= k < ms.len() && ms[k] == t.min as int;
                let pt = (it, jt, kt);
                assert(cur_in(pt, lens));
                assert(combo_at(ws, hs, ms, pt) == (w0, t.hour as int, t.min as int));
                assert(tri_le(combo_at(ws, hs, ms, pt), whm));
                assert(tri_lt(whm, combo_at(ws, hs, ms, pt)));
                assert(false);
            } else if dal < td < ed {
                let k = td - dal;
                lemma_wday_add(dal, k);
                if w0 + k < 7 {
                    assert(wday_of_day(td) == w0 + k);
                    lemma_member_above(ws, lens.0 - 1, w0 + k);
                    assert(false);
                } else {
                    assert(wday_of_day(td) == w0 + k - 7);
                    assert(w0 + k - 7 < w2);
                    lemma_member_ge_first(ws, w0 + k - 7);
                    assert(false);
                }
            } else if td == ed {
                assert(wday_of_day(td) == w2);
                lemma_member_ge_first(hs, t.hour as int);
                if t.hour as int == hs[0] as int {
                    lemma_member_ge_first(ms, t.min as int);
                }
            }
        }
    }
}

/// Linear membership test.
fn contains_val(v: &Vec<u32>, x: u32) -> (r: bool)
    ensures
        r == has(v@, x as int),
{
    let n = v.len();
    for i in 0..n
        invariant
            n == v@.len(),
            forall|j: int| 0 <= j < i ==> v@[j] != x,
    {
        if v[i] == x {
            proof {
                assert(v@[i as int] == x);
            }
            return true;
        }
    }
    false
}

/// An element-for-element copy.
fn copy_vec(v: &Vec<u32>) -> (r: Vec<u32>)
    ensures
        r@ == v@,
{
    let mut out: Vec<u32> = Vec::new();
    let n = v.len();
    for i in 0..n
        invariant
            n == v@.len(),
            out@ == v@.take(i as int),
    {
        out.push(v[i]);
        proof {
            assert(out@ =~= v@.take(i + 1));
        }
    }
    proof {
        assert(v@.take(n as int) == v@);
    }
    out
}

impl UnitSchedule {
    /// The resync anchor for `since`: if the pattern's last hour/minute pair
    /// is not strictly after `since`'s time of day, move to the next date;
    /// then move date by date (resetting the time of day) until the weekday
    /// is a member of the pattern.
    pub open spec fn anchor_of(self, since: DateTime) -> DateTime {
        let adv = !(since.hour < self.hours().last() || (since.hour == self.hours().last()
            && since.min < self.mins().last()));
        let d0 = since.date.day + (if adv {
            1int
        } else {
            0int
        });
        let dal = d0 + align_gap(self.wdays(), d0);
        if dal == since.date.day {
            since
        } else {
            DateTime { date: Date { day: dal as u64 }, hour: 0, min: 0 }
        }
    }

    /// Builds an enumeration cursor whose first yield is the earliest match
    /// of this pattern strictly after the anchor of `since` (which is
    /// `since` itself whenever the resync does not move the date).
    pub fn iter_since(&self, since: DateTime) -> (r: Iter)
        requires
            self.wf(),
            since.valid(),
        ensures
            r.wf(),
            r.wdays() == self.wdays(),
            r.hours() == self.hours(),
            r.mins() == self.mins(),
            r.lower() == self.anchor_of(since),
            since.date.day <= r.cur_day() <= since.date.day + 8,
    {
        let h_last = self.hours[self.hours.len() - 1];
        let m_last = self.mins[self.mins.len() - 1];
        let adv = !(since.hour < h_last || (since.hour == h_last && since.min < m_last));
        let mut day: u64 = since.date.day + if adv {
            1
        } else {
            0
        };
        let mut th: u32 = if adv {
            0
        } else {
            since.hour
        };
        let mut tm: u32 = if adv {
            0
        } else {
            since.min
        };
        let ghost d0 = day as int;
        proof {
            lemma_align_props(self.wdays(), d0);
        }
        let ghost ag = align_gap(self.wdays(), d0);
        loop
            invariant_except_break
                self.wf(),
                since.valid(),
                d0 <= day as int <= d0 + ag,
                since.date.day <= d0 <= since.date.day + 1,
                0 <= ag < 7,
                forall|j: int| 0 <= j < ag ==> !(has(self.wdays(), #[trigger] wday_of_day(d0 + j))),
                has(self.wdays(), wday_of_day(d0 + ag)),
                day as int == since.date.day ==> (th == since.hour && tm == since.min),
                day as int > since.date.day ==> (th == 0 && tm == 0),
                th < 24,
                tm < 60,
            ensures
                self.wf(),
                since.valid(),
                day as int == d0 + ag,
                since.date.day <= d0 <= since.date.day + 1,
                has(self.wdays(), wday_of_day(day as int)),
                day as int == since.date.day ==> (th == since.hour && tm == since.min),
                day as int > since.date.day ==> (th == 0 && tm == 0),
                d0 <= day as int,
                d0 <= since.date.day + 1,
                day as int <= since.date.day + 8,
                th < 24,
                tm < 60,
            decreases d0 + ag - day as int,
        {
            let wd = Date { day }.weekday();
            if contains_val(&self.wdays, wd) {
                proof {
                    if (day as int) < d0 + ag {
                        let j = day as int - d0;
                        assert(!(has(self.wdays(), wday_of_day(d0 + j))));
                        assert(d0 + j == day as int);
                        assert(false);
                    }
                }
                break;
            }
            proof {
                if day as int == d0 + ag {
                    assert(has(self.wdays(), wday_of_day(day as int)));
                    assert(false);
                }
            }
            day = day + 1;
            th = 0;
            tm = 0;
        }
        let ghost anchor = DateTime { date: Date { day }, hour: th, min: tm };
        proof {
            assert(anchor == self.anchor_of(since));
        }
        let w0 = Date { day }.weekday();
        let wl = self.wdays.len();
        let hl = self.hours.len();
        let ml = self.mins.len();
        let mut ai: usize = 0;
        let mut bi: usize = 0;
        let mut ci: usize = 0;
        let mut wrapped = false;
        let ghost whm = (w0 as int, th as int, tm as int);
        let ghost lens = scan_lens(self.wdays(), self.hours(), self.mins());
        loop
            invariant_except_break
                self.wf(),
                wl == self.wdays@.len(),
                hl == self.hours@.len(),
                ml == self.mins@.len(),
                lens == scan_lens(self.wdays(), self.hours(), self.mins()),
                ai < wl,
                bi < hl,
                ci < ml,
                !wrapped,
                whm == (w0 as int, th as int, tm as int),
                forall|p: (int, int, int)|
                    cur_in(p, lens) && tri_lt(p, (ai as int, bi as int, ci as int)) ==> tri_le(
                        #[trigger] combo_at(self.wdays(), self.hours(), self.mins(), p),
                        whm,
                    ),
            ensures
                self.wf(),
                ai < wl && bi < hl && ci < ml,
                whm == (w0 as int, th as int, tm as int),
                wrapped ==> (ai == 0 && bi == 0 && ci == 0 && forall|p: (int, int, int)|
                    cur_in(p, lens) ==> tri_le(
                        #[trigger] combo_at(self.wdays(), self.hours(), self.mins(), p),
                        whm,
                    )),
                !wrapped ==> (tri_lt(
                    whm,
                    combo_at(
                        self.wdays(),
                        self.hours(),
                        self.mins(),
                        (ai as int, bi as int, ci as int),
                    ),
                ) && forall|p: (int, int, int)|
                    cur_in(p, lens) && tri_lt(p, (ai as int, bi as int, ci as int)) ==> tri_le(
                        #[trigger] combo_at(self.wdays(), self.hours(), self.mins(), p),
                        whm,
                    )),
            decreases wl - ai, hl - bi, ml - ci,
        {
            let cw = self.wdays[ai];
            let ch = self.hours[bi];
            let cm = self.mins[ci];
            if cw > w0 || (cw == w0 && (ch > th || (ch == th && cm > tm))) {
                break;
            }
            proof {
                assert(tri_le(
                    combo_at(
                        self.wdays(),
                        self.hours(),
                        self.mins(),
                        (ai as int, bi as int, ci as int),
                    ),
                    whm,
                ));
            }
            if ci < ml - 1 {
                proof {
                    assert forall|p: (int, int, int)|
                        cur_in(p, lens) && tri_lt(p, (ai as int, bi as int, ci + 1 as int))
                        implies tri_le(
                        #[trigger] combo_at(self.wdays(), self.hours(), self.mins(), p),
                        whm,
                    ) by {
                        if !tri_lt(p, (ai as int, bi as int, ci as int)) {
                            assert(p == (ai as int, bi as int, ci as int));
                        }
                    }
                }
                ci = ci + 1;
            } else if bi < hl - 1 {
                proof {
                    assert forall|p: (int, int, int)|
                        cur_in(p, lens) && tri_lt(p, (ai as int, bi + 1 as int, 0int))
                        implies tri_le(
                        #[trigger] combo_at(self.wdays(), self.hours(), self.mins(), p),
                        whm,
                    ) by {
                        if !tri_lt(p, (ai as int, bi as int, ci as int)) {
                            assert(p == (ai as int, bi as int, ci as int));
                        }
                    }
                }
                bi = bi + 1;
                ci = 0;
            } else if ai < wl - 1 {
                proof {
                    assert forall|p: (int, int, int)|
                        cur_in(p, lens) && tri_lt(p, (ai + 1 as int, 0int, 0int)) implies tri_le(
                        #[trigger] combo_at(self.wdays(), self.hours(), self.mins(), p),
                        whm,
                    ) by {
                        if !tri_lt(p, (ai as int, bi as int, ci as int)) {
                            assert(p == (ai as int, bi as int, ci as int));
                        }
                    }
                }
                ai = ai + 1;
                bi = 0;
                ci = 0;
            } else {
                proof {
                    assert forall|p: (int, int, int)| cur_in(p, lens) implies tri_le(
                        #[trigger] combo_at(self.wdays(), self.hours(), self.mins(), p),
                        whm,
                    ) by {
                        if !tri_lt(p, (ai as int, bi as int, ci as int)) {
                            assert(p == (ai as int, bi as int, ci as int));
                        }
                    }
                }
                wrapped = true;
                ai = 0;
                bi = 0;
                ci = 0;
                break;
            }
        }
        let mut inner = CarryingUpIterator::new(
            copy_vec(&self.wdays),
            copy_vec(&self.hours),
            copy_vec(&self.mins),
        ).unwrap();
        inner.set_cursor(ai, bi, ci);
        let date = Date {
            day: if wrapped {
                day + 1
            } else {
                day
            },
        };
        proof {
            lemma_init(
                self.wdays(),
                self.hours(),
                self.mins(),
                (ai as int, bi as int, ci as int),
                anchor,
                wrapped,
            );
        }
        Iter { inner, date, prev: Ghost(anchor) }
    }
}

/// A date-time as a count of minutes, for timer durations.
pub open spec fn dt_minutes(t: DateTime) -> int {
    t.date.day * 1440 + t.hour * 60 + t.min
}

/// Whole minutes from `a` to the later instant `b`.
fn minutes_between(a: DateTime, b: DateTime) -> (r: u64)
    requires
        dt_le(a, b),
        a.hour < 24,
        a.min < 60,
        b.hour < 24,
        b.min < 60,
        b.date.day <= MAX_DAY,
    ensures
        r == dt_minutes(b) - dt_minutes(a),
{
    let bm = b.date.day * 1440 + (b.hour as u64) * 60 + (b.min as u64);
    let am = a.date.day * 1440 + (a.hour as u64) * 60 + (a.min as u64);
    bm - am
}

/// Termination measure for discarding stale candidates: how far candidate
/// `h` lags behind `now`.
pub open spec fn lag_measure(h: DateTime, now: DateTime) -> int {
    if dt_le(h, now) {
        dt_minutes(now) + 1 - dt_minutes(h)
    } else {
        0
    }
}

/// Chronological order agrees with the minute count.
proof fn lemma_minutes_mono(a: DateTime, b: DateTime)
    requires
        dt_lt(a, b),
        a.hour < 24,
        a.min < 60,
        b.hour < 24,
        b.min < 60,
    ensures
        dt_minutes(a) < dt_minutes(b),
{
}

/// What the consumer should do after polling the schedule.
#[derive(Clone, Copy, PartialEq, Eq, Structural, Debug)]
pub enum Poll {
    /// No fire is due yet. When `arm` is set, no timer is outstanding and a
    /// one-shot timer for that many minutes should be started; when it is
    /// `None`, a timer is already outstanding and polling is a no-op.
    NotReady { arm: Option<u64> },
    /// Exactly one fire is due now; a fresh one-shot timer for `rearm`
    /// minutes (until the next fire) should be started.
    Fire { rearm: u64 },
}

/// The timer-driven event stream over every configured pattern: it merges
/// the patterns' enumeration cursors into one ascending stream of fire
/// instants and, on each poll, decides between "not ready" and "fire",
/// coalescing missed instants into a single fire.
pub struct Schedule {
    iters: Vec<Iter>,
    heads: Vec<DateTime>,
    next: Option<DateTime>,
}

impl Schedule {
    pub closed spec fn n_pats(self) -> int {
        self.iters@.len() as int
    }

    /// The weekday, hour and minute sets of pattern `i`.
    pub closed spec fn pat(self, i: int) -> (Seq<u32>, Seq<u32>, Seq<u32>) {
        (self.iters@[i].wdays(), self.iters@[i].hours(), self.iters@[i].mins())
    }

    pub open spec fn pat_matches(self, i: int, t: DateTime) -> bool {
        triple_matches(self.pat(i).0, self.pat(i).1, self.pat(i).2, t)
    }

    /// The next fire candidate of pattern `i`.
    pub closed spec fn head(self, i: int) -> DateTime {
        self.heads@[i]
    }

    /// The cached next fire instant, if one has been computed.
    pub closed spec fn pending(self) -> Option<DateTime> {
        self.next
    }

    #[verifier::opaque]
    pub closed spec fn wf(self) -> bool {
        &&& self.iters@.len() == self.heads@.len()
        &&& self.iters@.len() > 0
        &&& forall|i: int| 0 <= i < self.iters@.len() ==> (#[trigger] self.iters@[i]).wf()
        &&& forall|i: int|
            0 <= i < self.iters@.len() ==> (#[trigger] self.iters@[i]).lower() == self.heads@[i]
        &&& forall|i: int|
            0 <= i < self.iters@.len() ==> triple_matches(
                self.iters@[i].wdays(),
                self.iters@[i].hours(),
                self.iters@[i].mins(),
                #[trigger] self.heads@[i],
            )
        &&& forall|i: int|
            0 <= i < self.iters@.len() ==> (#[trigger] self.iters@[i]).cur_day()
                <= self.heads@[i].date.day + 1
        &&& forall|i: int|
            0 <= i < self.heads@.len() ==> (#[trigger] self.heads@[i]).hour < 24
                && self.heads@[i].min < 60 && self.heads@[i].date.day + 16 <= MAX_DAY
        &&& (self.next matches Some(nx) ==> {
            &&& forall|i: int| 0 <= i < self.heads@.len() ==> dt_le(nx, #[trigger] self.heads@[i])
            &&& exists|k: int|
                0 <= k < self.iters@.len() && triple_matches(
                    (#[trigger] self.iters@[k]).wdays(),
                    self.iters@[k].hours(),
                    self.iters@[k].mins(),
                    nx,
                )
            &&& nx.hour < 24
            &&& nx.min < 60
            &&& nx.date.day <= MAX_DAY
        })
    }

    /// Builds the stream over the given patterns, anchored strictly after
    /// `now`: each pattern's first candidate is its earliest match after its
    /// resync anchor for `now`.
    pub fn new(units: &Vec<UnitSchedule>, now: DateTime) -> (r: Schedule)
        requires
            units@.len() > 0,
            forall|i: int| 0 <= i < units@.len() ==> (#[trigger] units@[i]).wf(),
            now.valid(),
            now.date.day + 30 <= MAX_DAY,
        ensures
            r.wf(),
            r.n_pats() == units@.len(),
            forall|i: int|
                0 <= i < units@.len() ==> #[trigger] r.pat(i) == (
                    units@[i].wdays(),
                    units@[i].hours(),
                    units@[i].mins(),
                ),
            r.pending() is None,
            forall|i: int|
                0 <= i < units@.len() ==> first_match_after(
                    units@[i].wdays(),
                    units@[i].hours(),
                    units@[i].mins(),
                    units@[i].anchor_of(now),
                    #[trigger] r.head(i),
                ),
    {
        let n = units.len();
        let mut iters: Vec<Iter> = Vec::new();
        let mut heads: Vec<DateTime> = Vec::new();
        for i in 0..n
            invariant
                n == units@.len(),
                forall|j: int| 0 <= j < n ==> (#[trigger] units@[j]).wf(),
                now.valid(),
                now.date.day + 30 <= MAX_DAY,
                iters@.len() == i,
                heads@.len() == i,
                forall|j: int| 0 <= j < i ==> (#[trigger] iters@[j]).wf(),
                forall|j: int|
                    0 <= j < i ==> #[trigger] iters@[j].wdays() == units@[j].wdays()
                        && iters@[j].hours() == units@[j].hours() && iters@[j].mins()
                        == units@[j].mins(),
                forall|j: int| 0 <= j < i ==> (#[trigger] iters@[j]).lower() == heads@[j],
                forall|j: int|
                    0 <= j < i ==> triple_matches(
                        iters@[j].wdays(),
                        iters@[j].hours(),
                        iters@[j].mins(),
                        #[trigger] heads@[j],
                    ),
                forall|j: int|
                    0 <= j < i ==> (#[trigger] iters@[j]).cur_day() <= heads@[j].date.day + 1,
                forall|j: int|
                    0 <= j < i ==> (#[trigger] heads@[j]).hour < 24 && heads@[j].min < 60
                        && heads@[j].date.day + 16 <= MAX_DAY,
                forall|j: int|
                    0 <= j < i ==> first_match_after(
                        units@[j].wdays(),
                        units@[j].hours(),
                        units@[j].mins(),
                        units@[j].anchor_of(now),
                        #[trigger] heads@[j],
                    ),
        {
            let mut it = units[i].iter_since(now);
            let h = it.next();
            iters.push(it);
            heads.push(h);
        }
        let r = Schedule { iters, heads, next: None };
        proof {
            assert(r.wf()) by {
                reveal(Schedule::wf);
            }
        }
        r
    }

    /// Replaces pattern `i`'s candidate by the pattern's next match.
    #[verifier::rlimit(100)]
    #[verifier::spinoff_prover]
    fn refill(&mut self, i: usize)
        requires
            old(self).wf(),
            i < old(self).n_pats(),
            old(self).head(i as int).date.day + 23 <= MAX_DAY,
        ensures
            final(self).wf(),
            final(self).n_pats() == old(self).n_pats(),
            forall|j: int|
                0 <= j < old(self).n_pats() ==> #[trigger] final(self).pat(j) == old(self).pat(j),
            final(self).pending() == old(self).pending(),
            forall|j: int|
                0 <= j < old(self).n_pats() && j != i ==> #[trigger] final(self).head(j) == old(
                    self,
                ).head(j),
            dt_lt(old(self).head(i as int), final(self).head(i as int)),
            first_match_after(
                old(self).pat(i as int).0,
                old(self).pat(i as int).1,
                old(self).pat(i as int).2,
                old(self).head(i as int),
                final(self).head(i as int),
            ),
    {
        proof {
            reveal(Schedule::wf);
        }
        let h2 = self.iters[i].next();
        self.heads.set(i, h2);
        proof {
            assert forall|j: int| 0 <= j < self.iters@.len() && j != i implies self.iters@[j]
                == old(self).iters@[j] && #[trigger] self.heads@[j] == old(self).heads@[j] by {
                assert(self.iters@ =~= old(self).iters@.update(i as int, self.iters@[i as int]));
            }
            assert(self.iters@[i as int].lower() == h2);
            assert(dt_lt(old(self).head(i as int), h2));
            assert(self.wf()) by {
                assert forall|j: int| 0 <= j < self.iters@.len() implies (
                #[trigger] self.iters@[j]).wf() by {
                    if j != i {
                        assert(self.iters@[j] == old(self).iters@[j]);
                    }
                }
                assert forall|j: int| 0 <= j < self.iters@.len() implies (
                #[trigger] self.iters@[j]).lower() == self.heads@[j] by {
                    if j != i {
                        assert(self.iters@[j] == old(self).iters@[j]);
                    }
                }
                assert forall|j: int| 0 <= j < self.iters@.len() implies triple_matches(
                    self.iters@[j].wdays(),
                    self.iters@[j].hours(),
                    self.iters@[j].mins(),
                    #[trigger] self.heads@[j],
                ) by {
                    if j != i {
                        assert(self.iters@[j] == old(self).iters@[j]);
                    }
                }
                assert forall|j: int| 0 <= j < self.iters@.len() implies (
                #[trigger] self.iters@[j]).cur_day() <= self.heads@[j].date.day + 1 by {
                    if j != i {
                        assert(self.iters@[j] == old(self).iters@[j]);
                    }
                }
                assert forall|j: int| 0 <= j < self.heads@.len() implies (
                #[trigger] self.heads@[j]).hour < 24 && self.heads@[j].min < 60
                    && self.heads@[j].date.day + 16 <= MAX_DAY by {
                    if j != i {
                        assert(self.heads@[j] == old(self).heads@[j]);
                    }
                }
                if self.next is Some {
                    let nx = self.next->0;
                    assert forall|j: int| 0 <= j < self.heads@.len() implies dt_le(
                        nx,
                        #[trigger] self.heads@[j],
                    ) by {
                        assert(dt_le(nx, old(self).heads@[j]));
                        if j == i {
                            assert(dt_lt(old(self).head(i as int), h2));
                        }
                    }
                    let k = choose|k: int|
                        0 <= k < old(self).iters@.len() && triple_matches(
                            (#[trigger] old(self).iters@[k]).wdays(),
                            old(self).iters@[k].hours(),
                            old(self).iters@[k].mins(),
                            nx,
                        );
                    assert(self.iters@[k].wdays() == old(self).iters@[k].wdays()
                        && self.iters@[k].hours() == old(self).iters@[k].hours()
                        && self.iters@[k].mins() == old(self).iters@[k].mins());
                    assert(triple_matches(
                        (self.iters@[k]).wdays(),
                        self.iters@[k].hours(),
                        self.iters@[k].mins(),
                        nx,
                    ));
                }
            }
        }
    }

    /// Advances pattern `i`'s candidate until it is strictly after `now`,
    /// discarding candidates at or before `now` unfired.
    #[verifier::rlimit(100)]
    #[verifier::spinoff_prover]
    fn advance_one(&mut self, i: usize, now: DateTime)
        requires
            old(self).wf(),
            i < old(self).n_pats(),
            now.hour < 24,
            now.min < 60,
            now.date.day + 30 <= MAX_DAY,
        ensures
            final(self).wf(),
            final(self).n_pats() == old(self).n_pats(),
            forall|j: int|
                0 <= j < old(self).n_pats() ==> #[trigger] final(self).pat(j) == old(self).pat(j),
            final(self).pending() == old(self).pending(),
            forall|j: int|
                0 <= j < old(self).n_pats() && j != i ==> #[trigger] final(self).head(j) == old(
                    self,
                ).head(j),
            dt_lt(now, final(self).head(i as int)),
            dt_lt(now, old(self).head(i as int)) ==> final(self).head(i as int) == old(self).head(
                i as int,
            ),
            forall|t: DateTime|
                #[trigger] old(self).pat_matches(i as int, t) && dt_lt(old(self).head(i as int), t)
                    && dt_lt(now, t) ==> dt_le(final(self).head(i as int), t),
        decreases lag_measure(old(self).head(i as int), now),
    {
        proof {
            assert((i as int) < self.heads@.len() && self.heads@[i as int].hour < 24
                && self.heads@[i as int].min < 60 && self.heads@[i as int].date.day + 16
                <= MAX_DAY) by {
                reveal(Schedule::wf);
            }
        }
        let hd = self.heads[i];
        if now.lt(&hd) {
            return;
        }
        let ghost pre = *self;
        self.refill(i);
        let ghost mid = *self;
        proof {
            assert(mid.head(i as int).hour < 24 && mid.head(i as int).min < 60) by {
                reveal(Schedule::wf);
            }
            lemma_minutes_mono(hd, mid.head(i as int));
            if dt_lt(hd, now) {
                lemma_minutes_mono(hd, now);
            }
            if dt_le(mid.head(i as int), now) {
                if dt_lt(mid.head(i as int), now) {
                    lemma_minutes_mono(mid.head(i as int), now);
                }
            }
        }
        self.advance_one(i, now);
        proof {
            assert forall|t: DateTime|
                #[trigger] old(self).pat_matches(i as int, t) && dt_lt(old(self).head(i as int), t)
                    && dt_lt(now, t) implies dt_le(self.head(i as int), t) by {
                assert(mid.pat(i as int) == old(self).pat(i as int));
                assert(mid.pat_matches(i as int, t));
                assert(triple_matches(
                    pre.pat(i as int).0,
                    pre.pat(i as int).1,
                    pre.pat(i as int).2,
                    t,
                ));
                if dt_lt(mid.head(i as int), t) {
                } else {
                    // the refilled candidate is the first match after the
                    // discarded one, so t is at or past it
                    assert(dt_le(mid.head(i as int), t));
                    if t == mid.head(i as int) {
                        assert(dt_lt(now, self.head(i as int)));
                    }
                }
            }
        }
    }

    /// Advances every pattern's candidate past `now` (candidates at or
    /// before `now` are discarded unfired, coalescing missed fires) and
    /// returns the least candidate: the earliest undelivered fire instant
    /// strictly after `now` across all patterns.
    #[verifier::rlimit(100)]
    #[verifier::spinoff_prover]
    fn next_fire(&mut self, now: DateTime) -> (r: DateTime)
        requires
            old(self).wf(),
            now.hour < 24,
            now.min < 60,
            now.date.day + 30 <= MAX_DAY,
        ensures
            final(self).wf(),
            final(self).n_pats() == old(self).n_pats(),
            forall|i: int|
                0 <= i < old(self).n_pats() ==> #[trigger] final(self).pat(i) == old(self).pat(i),
            final(self).pending() == old(self).pending(),
            dt_lt(now, r),
            r.hour < 24,
            r.min < 60,
            r.date.day <= MAX_DAY,
            exists|k: int| 0 <= k < old(self).n_pats() && #[trigger] old(self).pat_matches(k, r),
            forall|i: int| 0 <= i < old(self).n_pats() ==> dt_le(r, #[trigger] final(self).head(i)),
            forall|i: int|
                0 <= i < old(self).n_pats() ==> dt_lt(now, #[trigger] final(self).head(i)),
            forall|i: int|
                0 <= i < old(self).n_pats() && dt_lt(now, #[trigger] old(self).head(i))
                    ==> final(self).head(i) == old(self).head(i),
            forall|i: int, t: DateTime|
                0 <= i < old(self).n_pats() && #[trigger] old(self).pat_matches(i, t) && dt_lt(
                    old(self).head(i),
                    t,
                ) && dt_lt(now, t) ==> dt_le(final(self).head(i), t),
    {
        let n = self.iters.len();
        proof {
            assert(self.heads@.len() == self.iters@.len()) by {
                reveal(Schedule::wf);
            }
        }
        for i in 0..n
            invariant
                self.wf(),
                n == self.iters@.len(),
                now.hour < 24,
                now.min < 60,
                now.date.day + 30 <= MAX_DAY,
                self.iters@.len() == old(self).n_pats(),
                self.next == old(self).pending(),
                forall|j: int| 0 <= j < n ==> #[trigger] self.pat(j) == old(self).pat(j),
                forall|j: int| 0 <= j < i ==> dt_lt(now, #[trigger] self.head(j)),
                forall|j: int| i <= j < n ==> #[trigger] self.head(j) == old(self).head(j),
                forall|j: int|
                    0 <= j < n && dt_lt(now, #[trigger] old(self).head(j)) ==> self.head(j)
                        == old(self).head(j),
                forall|j: int, t: DateTime|
                    0 <= j < i && #[trigger] old(self).pat_matches(j, t) && dt_lt(
                        old(self).head(j),
                        t,
                    ) && dt_lt(now, t) ==> dt_le(self.head(j), t),
        {
            let ghost pre = *self;
            self.advance_one(i, now);
            proof {
                assert forall|j: int, t: DateTime|
                    0 <= j < i + 1 && #[trigger] old(self).pat_matches(j, t) && dt_lt(
                        old(self).head(j),
                        t,
                    ) && dt_lt(now, t) implies dt_le(self.head(j), t) by {
                    if j == i as int {
                        assert(pre.head(j) == old(self).head(j));
                        assert(pre.pat_matches(j, t));
                    } else {
                        assert(self.head(j) == pre.head(j));
                    }
                }
            }
        }
        // peek the least candidate
        proof {
            assert(self.heads@.len() == self.iters@.len() && self.iters@.len() > 0) by {
                reveal(Schedule::wf);
            }
        }
        let mut k: usize = 0;
        let n2 = self.heads.len();
        for i in 1..n2
            invariant
                self.wf(),
                n2 == self.heads@.len(),
                n2 == old(self).n_pats(),
                k < i,
                self.next == old(self).pending(),
                forall|j: int| 0 <= j < n2 ==> #[trigger] self.pat(j) == old(self).pat(j),
                forall|j: int| 0 <= j < n2 ==> dt_lt(now, #[trigger] self.head(j)),
                forall|j: int|
                    0 <= j < n2 && dt_lt(now, #[trigger] old(self).head(j)) ==> self.head(j)
                        == old(self).head(j),
                forall|j: int, t: DateTime|
                    0 <= j < n2 && #[trigger] old(self).pat_matches(j, t) && dt_lt(
                        old(self).head(j),
                        t,
                    ) && dt_lt(now, t) ==> dt_le(self.head(j), t),
                forall|j: int| 0 <= j < i ==> dt_le(#[trigger] self.head(k as int), self.head(j)),
        {
            let hi = self.heads[i];
            let hk = self.heads[k];
            if hi.le(&hk) {
                k = i;
            }
        }
        let r = self.heads[k];
        proof {
            assert(r == self.head(k as int));
            assert(dt_lt(now, self.head(k as int)));
            assert(r.hour < 24 && r.min < 60 && r.date.day <= MAX_DAY && triple_matches(
                self.iters@[k as int].wdays(),
                self.iters@[k as int].hours(),
                self.iters@[k as int].mins(),
                self.heads@[k as int],
            )) by {
                reveal(Schedule::wf);
            }
            assert(self.pat(k as int) == old(self).pat(k as int));
            assert(old(self).pat_matches(k as int, r));
        }
        r
    }

    /// Computes the next fire instant after `now`, advancing the merge.
    #[verifier::rlimit(100)]
    #[verifier::spinoff_prover]
    fn compute_next(&mut self, now: DateTime) -> (r: DateTime)
        requires
            old(self).wf(),
            now.hour < 24,
            now.min < 60,
            now.date.day + 30 <= MAX_DAY,
        ensures
            final(self).wf(),
            final(self).n_pats() == old(self).n_pats(),
            forall|i: int|
                0 <= i < old(self).n_pats() ==> #[trigger] final(self).pat(i) == old(self).pat(i),
            final(self).pending() == old(self).pending(),
            dt_lt(now, r),
            r.hour < 24,
            r.min < 60,
            r.date.day <= MAX_DAY,
            exists|k: int| 0 <= k < old(self).n_pats() && #[trigger] old(self).pat_matches(k, r),
            forall|i: int| 0 <= i < old(self).n_pats() ==> dt_le(r, #[trigger] final(self).head(i)),
    {
        self.next_fire(now)
    }

    /// One poll of the stream, as a pure decision: `now` is the current
    /// instant and `timer_armed` says whether a one-shot timer is already
    /// outstanding. A fire is delivered exactly when the computed fire
    /// instant has been reached (never early), and a new timer is requested
    /// exactly when none is outstanding.
    #[verifier::rlimit(100)]
    #[verifier::spinoff_prover]
    pub fn poll(&mut self, now: DateTime, timer_armed: bool) -> (r: Poll)
        requires
            old(self).wf(),
            now.hour < 24,
            now.min < 60,
            now.date.day + 30 <= MAX_DAY,
        ensures
            final(self).wf(),
            final(self).n_pats() == old(self).n_pats(),
            forall|i: int|
                0 <= i < old(self).n_pats() ==> #[trigger] final(self).pat(i) == old(self).pat(i),
            (r is Fire <==> (old(self).pending() matches Some(due) && dt_le(due, now))),
            final(self).pending() matches Some(nx) && dt_lt(now, nx),
            (r matches Poll::NotReady { arm } ==> {
                &&& (old(self).pending() matches Some(due) ==> final(self).pending() == old(
                    self,
                ).pending())
                &&& (arm is Some <==> !timer_armed)
                &&& (arm matches Some(d) ==> d == dt_minutes(final(self).pending()->0)
                    - dt_minutes(now))
            }),
            (r matches Poll::Fire { rearm } ==> {
                &&& rearm == dt_minutes(final(self).pending()->0) - dt_minutes(now)
                &&& exists|k: int|
                    0 <= k < old(self).n_pats() && #[trigger] old(self).pat_matches(
                        k,
                        final(self).pending()->0,
                    )
            }),
    {
        let due = match self.next {
            Some(d) => d,
            None => {
                let d = self.compute_next(now);
                let ghost mid = *self;
                self.next = Some(d);
                proof {
                    assert(self.wf()) by {
                        reveal(Schedule::wf);
                        assert(mid.wf());
                        assert(self.iters@ == mid.iters@ && self.heads@ == mid.heads@);
                        let k = choose|k: int|
                            0 <= k < old(self).n_pats() && #[trigger] old(self).pat_matches(k, d);
                        assert(mid.pat(k) == old(self).pat(k));
                        assert(triple_matches(
                            self.iters@[k].wdays(),
                            self.iters@[k].hours(),
                            self.iters@[k].mins(),
                            d,
                        ));
                        assert forall|i: int| 0 <= i < self.heads@.len() implies dt_le(
                            d,
                            #[trigger] self.heads@[i],
                        ) by {
                            assert(dt_le(d, mid.head(i)));
                        }
                    }
                    assert forall|i: int| 0 <= i < old(self).n_pats() implies #[trigger] self.pat(
                        i,
                    ) == old(self).pat(i) by {
                        assert(self.pat(i) == mid.pat(i));
                    }
                }
                d
            },
        };
        proof {
            assert(self.pending() == Some(due) && due.hour < 24 && due.min < 60 && due.date.day
                <= MAX_DAY) by {
                reveal(Schedule::wf);
            }
        }
        if now.lt(&due) {
            let arm = if timer_armed {
                None
            } else {
                Some(minutes_between(now, due))
            };
            Poll::NotReady { arm }
        } else {
            let ghost pre = *self;
            let d2 = self.compute_next(now);
            let ghost mid = *self;
            self.next = Some(d2);
            proof {
                assert(self.wf()) by {
                    reveal(Schedule::wf);
                    assert(mid.wf());
                    assert(self.iters@ == mid.iters@ && self.heads@ == mid.heads@);
                    let k = choose|k: int|
                        0 <= k < pre.n_pats() && #[trigger] pre.pat_matches(k, d2);
                    assert(mid.pat(k) == pre.pat(k));
                    assert(triple_matches(
                        self.iters@[k].wdays(),
                        self.iters@[k].hours(),
                        self.iters@[k].mins(),
                        d2,
                    ));
                    assert forall|i: int| 0 <= i < self.heads@.len() implies dt_le(
                        d2,
                        #[trigger] self.heads@[i],
                    ) by {
                        assert(dt_le(d2, mid.head(i)));
                    }
                }
                assert forall|i: int| 0 <= i < old(self).n_pats() implies #[trigger] self.pat(i)
                    == old(self).pat(i) by {
                    assert(self.pat(i) == mid.pat(i));
                    assert(mid.pat(i) == pre.pat(i));
                    assert(pre.pat(i) == old(self).pat(i));
                }
            }
            Poll::Fire { rearm: minutes_between(now, d2) }
        }
    }
}

proof fn lemma_member_le_last(s: Seq<u32>, v: int)
    requires
        strictly_sorted(s),
        s.len() > 0,
        has(s, v),
    ensures
        v <= s[s.len() - 1],
{
    let j = choose|j: int| 0 <= j < s.len() && s[j] == v;
    if j < s.len() - 1 {
        assert(s[j] < s[s.len() - 1]);
    }
}

/// Minimality of the first yield: the earliest match after the resync
/// anchor is also the earliest match after `since` itself, so the first
/// value out of `iter_since(since)` is the least match strictly after
/// `since`. The one family of inputs left out: when the resync moves the
/// date and midnight (hour 0, minute 0) is itself in the pattern, the match
/// at midnight of the anchor date is skipped.
pub proof fn lemma_first_fire_minimal(us: UnitSchedule, since: DateTime, e: DateTime)
    requires
        us.wf(),
        since.valid(),
        us.anchor_of(since) != since ==> !(has(us.hours(), 0) && has(us.mins(), 0)),
        first_match_after(us.wdays(), us.hours(), us.mins(), us.anchor_of(since), e),
    ensures
        first_match_after(us.wdays(), us.hours(), us.mins(), since, e),
{
    let anchor = us.anchor_of(since);
    let ws = us.wdays();
    let hs = us.hours();
    let ms = us.mins();
    let adv = !(since.hour < hs.last() || (since.hour == hs.last() && since.min < ms.last()));
    let d0 = since.date.day + (if adv {
        1int
    } else {
        0int
    });
    lemma_align_props(ws, d0);
    let ag = align_gap(ws, d0);
    let dal = d0 + ag;
    if anchor == since {
        assert(dt_lt(since, e));
    } else {
        assert(anchor.date.day == dal && anchor.hour == 0 && anchor.min == 0);
        assert(dal > since.date.day);
        assert(dt_lt(since, anchor));
        assert(dt_lt(since, e));
        assert forall|t: DateTime| #[trigger] triple_matches(ws, hs, ms, t) && dt_lt(since, t)
            implies dt_le(e, t) by {
            if dt_lt(anchor, t) {
                // covered by minimality after the anchor
            } else if t == anchor {
                // midnight of the anchor date would have to be a match
                assert(has(hs, 0) && has(ms, 0));
                assert(false);
            } else {
                // a match strictly between `since` and the anchor is
                // impossible: the resync skipped nothing
                assert(dt_lt(t, anchor));
                let td = t.date.day as int;
                assert(td <= dal);
                if td == dal {
                    // before midnight on the anchor date
                    assert(false);
                } else if td == since.date.day as int {
                    // on `since`'s own date, after `since`
                    if adv {
                        lemma_member_le_last(hs, t.hour as int);
                        lemma_member_le_last(ms, t.min as int);
                        assert(false);
                    } else {
                        // the date moved only because the weekday loop ran
                        assert(d0 == since.date.day);
                        assert(ag > 0);
                        assert(!(has(ws, wday_of_day(d0 + 0))));
                        assert(false);
                    }
                } else {
                    // on a date the weekday loop skipped
                    assert(since.date.day < td < dal);
                    let j = td - d0;
                    assert(0 <= j < ag);
                    assert(!(has(ws, wday_of_day(d0 + j))));
                    assert(d0 + j == td);
                    assert(false);
                }
            }
        }
    }
}

/// Successive yields of an enumeration cursor strictly increase, for any
/// anchor and any number of yields: each yield is the earliest match after
/// the previous one, so the stream never repeats or goes back, across week
/// boundaries and cycle wraparounds alike.
pub proof fn lemma_yields_increase(
    ws: Seq<u32>,
    hs: Seq<u32>,
    ms: Seq<u32>,
    lo: DateTime,
    r1: DateTime,
    r2: DateTime,
)
    requires
        first_match_after(ws, hs, ms, lo, r1),
        first_match_after(ws, hs, ms, r1, r2),
    ensures
        dt_lt(lo, r1),
        dt_lt(r1, r2),
{
}

} // verus!
