//! The two iterator-like primitives under the scheduler: a mixed-radix
//! "odometer" over three finite sequences, and a k-way merge of ascending
//! sequences.

use vstd::prelude::*;

verus! {

/// Infinite cyclic enumeration of every `(a, b, c)` combination of three
/// non-empty sequences, with `c` varying fastest: mixed-radix counting whose
/// digits are the positions in the three sequences.
pub struct CarryingUpIterator<A, B, C> {
    a: Vec<A>,
    b: Vec<B>,
    c: Vec<C>,
    ai: usize,
    bi: usize,
    ci: usize,
}

/// The cursor position after one step: the innermost digit advances, and a
/// digit that wraps to 0 carries into the next more significant one.
pub open spec fn cursor_succ(cur: (int, int, int), lens: (int, int, int)) -> (int, int, int) {
    if cur.2 + 1 < lens.2 {
        (cur.0, cur.1, cur.2 + 1)
    } else if cur.1 + 1 < lens.1 {
        (cur.0, cur.1 + 1, 0int)
    } else if cur.0 + 1 < lens.0 {
        (cur.0 + 1, 0int, 0int)
    } else {
        (0int, 0int, 0int)
    }
}

impl<A: Copy, B: Copy, C: Copy> CarryingUpIterator<A, B, C> {
    pub closed spec fn seq_a(self) -> Seq<A> {
        self.a@
    }

    pub closed spec fn seq_b(self) -> Seq<B> {
        self.b@
    }

    pub closed spec fn seq_c(self) -> Seq<C> {
        self.c@
    }

    pub closed spec fn cursor(self) -> (int, int, int) {
        (self.ai as int, self.bi as int, self.ci as int)
    }

    pub open spec fn lens(self) -> (int, int, int) {
        (self.seq_a().len() as int, self.seq_b().len() as int, self.seq_c().len() as int)
    }

    pub open spec fn wf(self) -> bool {
        &&& self.seq_a().len() > 0
        &&& self.seq_b().len() > 0
        &&& self.seq_c().len() > 0
        &&& 0 <= self.cursor().0 < self.seq_a().len()
        &&& 0 <= self.cursor().1 < self.seq_b().len()
        &&& 0 <= self.cursor().2 < self.seq_c().len()
    }

    /// The combination the cursor points at.
    pub open spec fn current(self) -> (A, B, C) {
        (self.seq_a()[self.cursor().0], self.seq_b()[self.cursor().1], self.seq_c()[self.cursor().2])
    }

    /// Construction fails exactly when one of the sequences is empty.
    pub fn new(a: Vec<A>, b: Vec<B>, c: Vec<C>) -> (r: Option<Self>)
        ensures
            r is Some <==> (a@.len() > 0 && b@.len() > 0 && c@.len() > 0),
            r matches Some(it) ==> {
                &&& it.wf()
                &&& it.seq_a() == a@
                &&& it.seq_b() == b@
                &&& it.seq_c() == c@
                &&& it.cursor() == (0int, 0int, 0int)
            },
    {
        if a.len() > 0 && b.len() > 0 && c.len() > 0 {
            Some(CarryingUpIterator { a, b, c, ai: 0, bi: 0, ci: 0 })
        } else {
            None
        }
    }

    /// Moves the cursor to the given position.
    pub fn set_cursor(&mut self, ai: usize, bi: usize, ci: usize)
        requires
            old(self).wf(),
            ai < old(self).seq_a().len(),
            bi < old(self).seq_b().len(),
            ci < old(self).seq_c().len(),
        ensures
            final(self).wf(),
            final(self).seq_a() == old(self).seq_a(),
            final(self).seq_b() == old(self).seq_b(),
            final(self).seq_c() == old(self).seq_c(),
            final(self).cursor() == (ai as int, bi as int, ci as int),
    {
        self.ai = ai;
        self.bi = bi;
        self.ci = ci;
    }

    /// Whether the cursor stands on the very last combination, so that the
    /// next step wraps around to the start of the cycle.
    pub fn cursor_at_end(&self) -> (r: bool)
        requires
            self.wf(),
        ensures
            r == (self.cursor() == ((self.lens().0 - 1) as int, (self.lens().1 - 1) as int, (
                self.lens().2 - 1) as int)),
    {
        self.ai == self.a.len() - 1 && self.bi == self.b.len() - 1 && self.ci == self.c.len() - 1
    }

    /// Returns the current combination and steps the cursor, carrying
    /// odometer-style and wrapping to the start after the last combination.
    pub fn next(&mut self) -> (r: (A, B, C))
        requires
            old(self).wf(),
        ensures
            final(self).wf(),
            final(self).seq_a() == old(self).seq_a(),
            final(self).seq_b() == old(self).seq_b(),
            final(self).seq_c() == old(self).seq_c(),
            r == old(self).current(),
            final(self).cursor() == cursor_succ(old(self).cursor(), old(self).lens()),
    {
        let r = (self.a[self.ai], self.b[self.bi], self.c[self.ci]);
        let la = self.a.len();
        let lb = self.b.len();
        let lc = self.c.len();
        if self.ci < lc - 1 {
            self.ci = self.ci + 1;
        } else if self.bi < lb - 1 {
            self.bi = self.bi + 1;
            self.ci = 0;
        } else if self.ai < la - 1 {
            self.ai = self.ai + 1;
            self.bi = 0;
            self.ci = 0;
        } else {
            self.ai = 0;
            self.bi = 0;
            self.ci = 0;
        }
        r
    }
}

/// A sequence is ascending (non-strictly).
pub open spec fn src_sorted(s: Seq<i64>) -> bool {
    forall|i: int, j: int| 0 <= i <= j < s.len() ==> #[trigger] s[i] <= #[trigger] s[j]
}

/// Merges a fixed family of ascending sequences into one ascending sequence,
/// by always yielding the least of the sources' current heads.
pub struct MergedIterator {
    srcs: Vec<Vec<i64>>,
    pos: Vec<usize>,
    last: Ghost<Option<i64>>,
}

impl MergedIterator {
    pub closed spec fn sources(self) -> Seq<Seq<i64>> {
        self.srcs@.map_values(|v: Vec<i64>| v@)
    }

    /// The replay position within source `i`.
    pub closed spec fn pos_at(self, i: int) -> int {
        self.pos@[i] as int
    }

    /// The last value yielded, if any.
    pub closed spec fn last_out(self) -> Option<i64> {
        self.last@
    }

    /// The current head of source `i`, if it is not exhausted.
    pub open spec fn head(self, i: int) -> Option<i64> {
        if self.pos_at(i) < self.sources()[i].len() {
            Some(self.sources()[i][self.pos_at(i)])
        } else {
            None
        }
    }

    pub open spec fn exhausted(self) -> bool {
        forall|i: int| 0 <= i < self.sources().len() ==> #[trigger] self.head(i) is None
    }

    pub closed spec fn wf(self) -> bool {
        &&& self.pos@.len() == self.srcs@.len()
        &&& forall|i: int|
            0 <= i < self.srcs@.len() ==> (#[trigger] self.pos@[i] as int) <= self.srcs@[i]@.len()
        &&& forall|i: int| 0 <= i < self.srcs@.len() ==> src_sorted(#[trigger] self.srcs@[i]@)
        &&& forall|i: int|
            0 <= i < self.srcs@.len() && self.last@ is Some && #[trigger] self.head(i) is Some
                ==> self.last@->0 <= self.head(i)->0
    }

    /// Builds a merge over the given ascending sources.
    pub fn new(srcs: Vec<Vec<i64>>) -> (r: Self)
        requires
            forall|i: int| 0 <= i < srcs@.len() ==> src_sorted(#[trigger] srcs@[i]@),
        ensures
            r.wf(),
            r.sources() == srcs@.map_values(|v: Vec<i64>| v@),
            r.last_out() is None,
            forall|i: int| 0 <= i < srcs@.len() ==> #[trigger] r.pos_at(i) == 0,
    {
        let mut pos: Vec<usize> = Vec::new();
        let n = srcs.len();
        for _k in 0..n
            invariant
                pos@.len() == _k,
                forall|i: int| 0 <= i < _k ==> #[trigger] pos@[i] == 0usize,
        {
            pos.push(0);
        }
        MergedIterator { srcs, pos, last: Ghost(None) }
    }

    /// Yields the least current head among the sources and advances exactly
    /// the source it came from; `None` once every source is exhausted.
    /// Given ascending sources, the values yielded are themselves ascending.
    /// When several sources share the least head, which of them advances is
    /// left unspecified: equal values from the others are yielded strictly
    /// later.
    pub fn next(&mut self) -> (r: Option<i64>)
        requires
            old(self).wf(),
        ensures
            final(self).wf(),
            final(self).sources() == old(self).sources(),
            r is None <==> old(self).exhausted(),
            r is None ==> *final(self) == *old(self),
            r matches Some(m) ==> {
                &&& exists|k: int|
                    {
                        &&& 0 <= k < old(self).sources().len()
                        &&& #[trigger] old(self).head(k) == Some(m)
                        &&& final(self).pos_at(k) == old(self).pos_at(k) + 1
                        &&& forall|j: int|
                            0 <= j < old(self).sources().len() && j != k
                                ==> #[trigger] final(self).pos_at(j) == old(self).pos_at(j)
                    }
                &&& forall|i: int|
                    0 <= i < old(self).sources().len() && #[trigger] old(self).head(i) is Some
                        ==> m <= old(self).head(i)->0
                &&& (old(self).last_out() matches Some(l) ==> l <= m)
                &&& final(self).last_out() == Some(m)
            },
    {
        let n = self.srcs.len();
        let mut best: Option<usize> = None;
        for i in 0..n
            invariant
                self.wf(),
                *self == *old(self),
                n == self.srcs@.len(),
                best is None ==> forall|j: int| 0 <= j < i ==> #[trigger] self.head(j) is None,
                best matches Some(k) ==> {
                    &&& 0 <= (k as int) < n
                    &&& self.head(k as int) is Some
                    &&& forall|j: int|
                        0 <= j < i && #[trigger] self.head(j) is Some ==> self.head(k as int)->0
                            <= self.head(j)->0
                },
        {
            if self.pos[i] < self.srcs[i].len() {
                let v = self.srcs[i][self.pos[i]];
                match best {
                    Some(k) => {
                        let w = self.srcs[k][self.pos[k]];
                        if v <= w {
                            best = Some(i);
                        }
                    },
                    None => {
                        best = Some(i);
                    },
                }
            }
        }
        match best {
            Some(k) => {
                let lk = self.srcs[k].len();
                let p = self.pos[k];
                let m = self.srcs[k][p];
                self.pos.set(k, p + 1);
                proof {
                    self.last@ = Some(m);
                    assert forall|i: int|
                        0 <= i < self.srcs@.len() && self.last@ is Some && #[trigger] self.head(
                            i,
                        ) is Some implies self.last@->0 <= self.head(i)->0 by {
                        assert(self.sources()[i] == self.srcs@[i]@);
                        if i == k as int {
                            assert(self.srcs@[i]@[p as int] <= self.srcs@[i]@[p + 1]);
                        } else {
                            assert(old(self).head(i) is Some);
                        }
                    }
                }
                Some(m)
            },
            None => None,
        }
    }
}

} // verus!
