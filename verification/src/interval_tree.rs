//! An ordered list of disjoint intervals with associated values, used as the
//! symbol-transition table of automata and as a character set.

use vstd::prelude::*;

verus! {

/// Integer-like keys of an [`IntervalTree`]: totally ordered, bounded, with a
/// successor and predecessor. Each key denotes the mathematical integer `num`.
pub trait Number: Copy + Sized {
    /// The integer this key denotes.
    spec fn num(self) -> int;

    /// The smallest representable key.
    spec fn min_num() -> int;

    /// The largest representable key.
    spec fn max_num() -> int;

    proof fn lemma_num_bounds(x: Self)
        ensures
            Self::min_num() <= x.num() <= Self::max_num(),
            Self::min_num() <= Self::max_num(),
    ;

    proof fn lemma_num_injective(x: Self, y: Self)
        ensures
            x.num() == y.num() ==> x == y,
    ;

    fn min_value() -> (r: Self)
        ensures
            r.num() == Self::min_num(),
    ;

    fn max_value() -> (r: Self)
        ensures
            r.num() == Self::max_num(),
    ;

    /// The successor; the original panics at the maximum.
    fn up(&self) -> (r: Self)
        requires
            self.num() < Self::max_num(),
        ensures
            r.num() == self.num() + 1,
    ;

    /// The predecessor; the original panics at the minimum.
    fn down(&self) -> (r: Self)
        requires
            self.num() > Self::min_num(),
        ensures
            r.num() == self.num() - 1,
    ;

    fn less_than(&self, other: &Self) -> (r: bool)
        ensures
            r == (self.num() < other.num()),
    ;

    fn at_most(&self, other: &Self) -> (r: bool)
        ensures
            r == (self.num() <= other.num()),
    ;
}

impl Number for u8 {
    open spec fn num(self) -> int {
        self as int
    }

    open spec fn min_num() -> int {
        u8::MIN as int
    }

    open spec fn max_num() -> int {
        u8::MAX as int
    }

    proof fn lemma_num_bounds(x: Self) {
    }

    proof fn lemma_num_injective(x: Self, y: Self) {
    }

    fn min_value() -> (r: Self) {
        u8::MIN
    }

    fn max_value() -> (r: Self) {
        u8::MAX
    }

    fn up(&self) -> (r: Self) {
        *self + 1
    }

    fn down(&self) -> (r: Self) {
        *self - 1
    }

    fn less_than(&self, other: &Self) -> (r: bool) {
        *self < *other
    }

    fn at_most(&self, other: &Self) -> (r: bool) {
        *self <= *other
    }
}

impl Number for u16 {
    open spec fn num(self) -> int {
        self as int
    }

    open spec fn min_num() -> int {
        u16::MIN as int
    }

    open spec fn max_num() -> int {
        u16::MAX as int
    }

    proof fn lemma_num_bounds(x: Self) {
    }

    proof fn lemma_num_injective(x: Self, y: Self) {
    }

    fn min_value() -> (r: Self) {
        u16::MIN
    }

    fn max_value() -> (r: Self) {
        u16::MAX
    }

    fn up(&self) -> (r: Self) {
        *self + 1
    }

    fn down(&self) -> (r: Self) {
        *self - 1
    }

    fn less_than(&self, other: &Self) -> (r: bool) {
        *self < *other
    }

    fn at_most(&self, other: &Self) -> (r: bool) {
        *self <= *other
    }
}

impl Number for u32 {
    open spec fn num(self) -> int {
        self as int
    }

    open spec fn min_num() -> int {
        u32::MIN as int
    }

    open spec fn max_num() -> int {
        u32::MAX as int
    }

    proof fn lemma_num_bounds(x: Self) {
    }

    proof fn lemma_num_injective(x: Self, y: Self) {
    }

    fn min_value() -> (r: Self) {
        u32::MIN
    }

    fn max_value() -> (r: Self) {
        u32::MAX
    }

    fn up(&self) -> (r: Self) {
        *self + 1
    }

    fn down(&self) -> (r: Self) {
        *self - 1
    }

    fn less_than(&self, other: &Self) -> (r: bool) {
        *self < *other
    }

    fn at_most(&self, other: &Self) -> (r: bool) {
        *self <= *other
    }
}

impl Number for u64 {
    open spec fn num(self) -> int {
        self as int
    }

    open spec fn min_num() -> int {
        u64::MIN as int
    }

    open spec fn max_num() -> int {
        u64::MAX as int
    }

    proof fn lemma_num_bounds(x: Self) {
    }

    proof fn lemma_num_injective(x: Self, y: Self) {
    }

    fn min_value() -> (r: Self) {
        u64::MIN
    }

    fn max_value() -> (r: Self) {
        u64::MAX
    }

    fn up(&self) -> (r: Self) {
        *self + 1
    }

    fn down(&self) -> (r: Self) {
        *self - 1
    }

    fn less_than(&self, other: &Self) -> (r: bool) {
        *self < *other
    }

    fn at_most(&self, other: &Self) -> (r: bool) {
        *self <= *other
    }
}

impl Number for usize {
    open spec fn num(self) -> int {
        self as int
    }

    open spec fn min_num() -> int {
        usize::MIN as int
    }

    open spec fn max_num() -> int {
        usize::MAX as int
    }

    proof fn lemma_num_bounds(x: Self) {
    }

    proof fn lemma_num_injective(x: Self, y: Self) {
    }

    fn min_value() -> (r: Self) {
        usize::MIN
    }

    fn max_value() -> (r: Self) {
        usize::MAX
    }

    fn up(&self) -> (r: Self) {
        *self + 1
    }

    fn down(&self) -> (r: Self) {
        *self - 1
    }

    fn less_than(&self, other: &Self) -> (r: bool) {
        *self < *other
    }

    fn at_most(&self, other: &Self) -> (r: bool) {
        *self <= *other
    }
}

impl Number for i8 {
    open spec fn num(self) -> int {
        self as int
    }

    open spec fn min_num() -> int {
        i8::MIN as int
    }

    open spec fn max_num() -> int {
        i8::MAX as int
    }

    proof fn lemma_num_bounds(x: Self) {
    }

    proof fn lemma_num_injective(x: Self, y: Self) {
    }

    fn min_value() -> (r: Self) {
        i8::MIN
    }

    fn max_value() -> (r: Self) {
        i8::MAX
    }

    fn up(&self) -> (r: Self) {
        *self + 1
    }

    fn down(&self) -> (r: Self) {
        *self - 1
    }

    fn less_than(&self, other: &Self) -> (r: bool) {
        *self < *other
    }

    fn at_most(&self, other: &Self) -> (r: bool) {
        *self <= *other
    }
}

impl Number for i16 {
    open spec fn num(self) -> int {
        self as int
    }

    open spec fn min_num() -> int {
        i16::MIN as int
    }

    open spec fn max_num() -> int {
        i16::MAX as int
    }

    proof fn lemma_num_bounds(x: Self) {
    }

    proof fn lemma_num_injective(x: Self, y: Self) {
    }

    fn min_value() -> (r: Self) {
        i16::MIN
    }

    fn max_value() -> (r: Self) {
        i16::MAX
    }

    fn up(&self) -> (r: Self) {
        *self + 1
    }

    fn down(&self) -> (r: Self) {
        *self - 1
    }

    fn less_than(&self, other: &Self) -> (r: bool) {
        *self < *other
    }

    fn at_most(&self, other: &Self) -> (r: bool) {
        *self <= *other
    }
}

impl Number for i32 {
    open spec fn num(self) -> int {
        self as int
    }

    open spec fn min_num() -> int {
        i32::MIN as int
    }

    open spec fn max_num() -> int {
        i32::MAX as int
    }

    proof fn lemma_num_bounds(x: Self) {
    }

    proof fn lemma_num_injective(x: Self, y: Self) {
    }

    fn min_value() -> (r: Self) {
        i32::MIN
    }

    fn max_value() -> (r: Self) {
        i32::MAX
    }

    fn up(&self) -> (r: Self) {
        *self + 1
    }

    fn down(&self) -> (r: Self) {
        *self - 1
    }

    fn less_than(&self, other: &Self) -> (r: bool) {
        *self < *other
    }

    fn at_most(&self, other: &Self) -> (r: bool) {
        *self <= *other
    }
}

impl Number for i64 {
    open spec fn num(self) -> int {
        self as int
    }

    open spec fn min_num() -> int {
        i64::MIN as int
    }

    open spec fn max_num() -> int {
        i64::MAX as int
    }

    proof fn lemma_num_bounds(x: Self) {
    }

    proof fn lemma_num_injective(x: Self, y: Self) {
    }

    fn min_value() -> (r: Self) {
        i64::MIN
    }

    fn max_value() -> (r: Self) {
        i64::MAX
    }

    fn up(&self) -> (r: Self) {
        *self + 1
    }

    fn down(&self) -> (r: Self) {
        *self - 1
    }

    fn less_than(&self, other: &Self) -> (r: bool) {
        *self < *other
    }

    fn at_most(&self, other: &Self) -> (r: bool) {
        *self <= *other
    }
}

impl Number for isize {
    open spec fn num(self) -> int {
        self as int
    }

    open spec fn min_num() -> int {
        isize::MIN as int
    }

    open spec fn max_num() -> int {
        isize::MAX as int
    }

    proof fn lemma_num_bounds(x: Self) {
    }

    proof fn lemma_num_injective(x: Self, y: Self) {
    }

    fn min_value() -> (r: Self) {
        isize::MIN
    }

    fn max_value() -> (r: Self) {
        isize::MAX
    }

    fn up(&self) -> (r: Self) {
        *self + 1
    }

    fn down(&self) -> (r: Self) {
        *self - 1
    }

    fn less_than(&self, other: &Self) -> (r: bool) {
        *self < *other
    }

    fn at_most(&self, other: &Self) -> (r: bool) {
        *self <= *other
    }
}

/// A closed interval `start..=end` of keys.
#[derive(Debug, Clone, Copy, Eq, Ord, PartialEq, PartialOrd)]
pub struct Interval<T: Number> {
    pub start: T,
    pub end: T,
}

impl<T: Number> Interval<T> {
    /// The interval is non-empty: `start <= end`.
    pub open spec fn wf(self) -> bool {
        self.start.num() <= self.end.num()
    }

    pub open spec fn lo(self) -> int {
        self.start.num()
    }

    pub open spec fn hi(self) -> int {
        self.end.num()
    }

    /// Whether the point `p` lies in the interval.
    pub open spec fn has(self, p: int) -> bool {
        self.lo() <= p <= self.hi()
    }

    /// Whether the two intervals share a point.
    pub open spec fn meets(self, other: Self) -> bool {
        self.lo() <= other.hi() && other.lo() <= self.hi()
    }

    /// The original panics when `start > end`.
    pub fn new(start: T, end: T) -> (r: Self)
        requires
            start.num() <= end.num(),
        ensures
            r.start == start,
            r.end == end,
            r.wf(),
    {
        Interval { start, end }
    }

    pub fn start(&self) -> (r: T)
        ensures
            r == self.start,
    {
        self.start
    }

    pub fn end(&self) -> (r: T)
        ensures
            r == self.end,
    {
        self.end
    }

    /// Whether `other` lies entirely within `self`.
    pub fn contains(&self, other: &Interval<T>) -> (r: bool)
        ensures
            r == (self.lo() <= other.lo() && other.hi() <= self.hi()),
    {
        self.start.at_most(&other.start) && other.end.at_most(&self.end)
    }

    /// The intersection of two intervals, if it is non-empty.
    pub fn overlap(&self, other: &Self) -> (r: Option<Self>)
        ensures
            r is Some <== (spec_max(self.lo(), other.lo()) <= spec_min(self.hi(), other.hi())),
            r is Some ==> (spec_max(self.lo(), other.lo()) <= spec_min(self.hi(), other.hi())),
            r matches Some(i) ==> i.lo() == spec_max(self.lo(), other.lo()) && i.hi() == spec_min(
                self.hi(),
                other.hi(),
            ),
    {
        let start: T = if self.start.less_than(&other.start) {
            other.start
        } else {
            self.start
        };
        let end: T = if other.end.less_than(&self.end) {
            other.end
        } else {
            self.end
        };
        if start.at_most(&end) {
            Some(Interval::new(start, end))
        } else {
            None
        }
    }
}

pub open spec fn spec_max(a: int, b: int) -> int {
    if a < b {
        b
    } else {
        a
    }
}

pub open spec fn spec_min(a: int, b: int) -> int {
    if a < b {
        a
    } else {
        b
    }
}

/// Whether some interval of `s` holds the point `p`.
pub open spec fn covered<T: Number>(s: Seq<Interval<T>>, p: int) -> bool {
    exists|j: int| 0 <= j < s.len() && #[trigger] s[j].has(p)
}

/// Lexicographic order on `(start, end)`, the derived order of [`Interval`].
pub open spec fn lex_le<T: Number>(a: Interval<T>, b: Interval<T>) -> bool {
    a.lo() < b.lo() || (a.lo() == b.lo() && a.hi() <= b.hi())
}

pub open spec fn sorted_lex<T: Number>(s: Seq<Interval<T>>) -> bool {
    forall|i: int, j: int| 0 <= i < j < s.len() ==> lex_le(#[trigger] s[i], #[trigger] s[j])
}

pub open spec fn all_wf<T: Number>(s: Seq<Interval<T>>) -> bool {
    forall|i: int| 0 <= i < s.len() ==> (#[trigger] s[i]).wf()
}

/// Non-empty intervals in increasing order, each separated from the next by at
/// least one point: the canonical representation of a set of points.
pub open spec fn separated<T: Number>(s: Seq<Interval<T>>) -> bool {
    &&& all_wf(s)
    &&& forall|i: int, j: int| 0 <= i < j < s.len() ==> #[trigger] s[i].hi() + 1 < #[trigger] s[j].lo()
}

fn lex_at_most<T: Number>(a: &Interval<T>, b: &Interval<T>) -> (r: bool)
    ensures
        r == lex_le(*a, *b),
{
    a.start.less_than(&b.start) || (a.start.at_most(&b.start) && b.start.at_most(&a.start)
        && a.end.at_most(&b.end))
}

/// Sorts the intervals by `(start, end)`.
fn sort_intervals<T: Number>(v: &mut Vec<Interval<T>>)
    ensures
        final(v)@.to_multiset() == old(v)@.to_multiset(),
        sorted_lex(final(v)@),
{
    let mut sorted: Vec<Interval<T>> = Vec::new();
    let mut i: usize = 0;
    proof {
        broadcast use vstd::seq_lib::group_to_multiset_ensures;

        assert(v@.subrange(0, 0) =~= Seq::<Interval<T>>::empty());
        assert(sorted@ =~= Seq::<Interval<T>>::empty());
    }
    while i < v.len()
        invariant
            0 <= i <= v.len(),
            sorted@.to_multiset() == v@.subrange(0, i as int).to_multiset(),
            sorted_lex(sorted@),
        decreases v.len() - i,
    {
        let x: Interval<T> = v[i];
        let mut j: usize = 0;
        while j < sorted.len() && lex_at_most(&sorted[j], &x)
            invariant
                0 <= j <= sorted.len(),
                forall|k: int| 0 <= k < j ==> lex_le(#[trigger] sorted@[k], x),
            decreases sorted.len() - j,
        {
            j = j + 1;
        }
        proof {
            vstd::seq_lib::to_multiset_insert(sorted@, j as int, x);
            assert(v@.subrange(0, i + 1) =~= v@.subrange(0, i as int).push(x));
            vstd::seq_lib::to_multiset_build(v@.subrange(0, i as int), x);
        }
        sorted.insert(j, x);
        i = i + 1;
    }
    proof {
        assert(v@.subrange(0, v@.len() as int) =~= v@);
    }
    *v = sorted;
}

/// Whether two sequences hold the same intervals (as multisets) cover the same points.
proof fn lemma_covered_multiset<T: Number>(a: Seq<Interval<T>>, b: Seq<Interval<T>>, p: int)
    requires
        a.to_multiset() == b.to_multiset(),
    ensures
        covered(a, p) == covered(b, p),
{
    if covered(a, p) {
        let j = choose|j: int| 0 <= j < a.len() && #[trigger] a[j].has(p);
        vstd::seq_lib::to_multiset_contains(a, a[j]);
        vstd::seq_lib::to_multiset_contains(b, a[j]);
        assert(a.contains(a[j]));
        let k = choose|k: int| 0 <= k < b.len() && b[k] == a[j];
        assert(b[k].has(p));
    }
    if covered(b, p) {
        let j = choose|j: int| 0 <= j < b.len() && #[trigger] b[j].has(p);
        vstd::seq_lib::to_multiset_contains(a, b[j]);
        vstd::seq_lib::to_multiset_contains(b, b[j]);
        assert(b.contains(b[j]));
        let k = choose|k: int| 0 <= k < a.len() && a[k] == b[j];
        assert(a[k].has(p));
    }
}

impl<T: Number> Interval<T> {
    /// The points of the key range not covered by any of `intervals`, as
    /// maximal intervals in increasing order. Sorts `intervals` in place.
    pub fn complement(intervals: &mut Vec<Interval<T>>) -> (r: Vec<Interval<T>>)
        requires
            all_wf(old(intervals)@),
        ensures
            final(intervals)@.to_multiset() == old(intervals)@.to_multiset(),
            sorted_lex(final(intervals)@),
            separated(r@),
            forall|p: int|
                T::min_num() <= p <= T::max_num() ==> (covered(r@, p) <==> !covered(
                    old(intervals)@,
                    p,
                )),
    {
        let ghost original = intervals@;
        sort_intervals(intervals);
        proof {
            assert forall|k: int| 0 <= k < intervals@.len() implies (#[trigger] intervals@[k]).wf() by {
                vstd::seq_lib::to_multiset_contains(intervals@, intervals@[k]);
                vstd::seq_lib::to_multiset_contains(original, intervals@[k]);
                assert(intervals@.contains(intervals@[k]));
            }
            assert forall|p: int| covered(intervals@, p) == covered(original, p) by {
                lemma_covered_multiset(intervals@, original, p);
            }
        }
        let ghost s = intervals@;
        let n: usize = intervals.len();
        let mut complement: Vec<Interval<T>> = Vec::new();
        let mut cursor: T = T::min_value();
        let mut i: usize = 0;
        while i < n
            invariant
                n == s.len(),
                s == intervals@,
                intervals@.to_multiset() == original.to_multiset(),
                original == old(intervals)@,
                sorted_lex(s),
                all_wf(s),
                forall|p: int| covered(s, p) == covered(original, p),
                0 <= i <= n,
                separated(complement@),
                forall|c: int| 0 <= c < complement@.len() ==> #[trigger] complement@[c].hi() + 1
                    < cursor.num(),
                forall|c: int, k: int|
                    0 <= c < complement@.len() && i <= k < n ==> #[trigger] complement@[c].hi()
                        < #[trigger] s[k].lo(),
                forall|k: int| 0 <= k < i ==> #[trigger] s[k].hi() < cursor.num(),
                forall|p: int|
                    T::min_num() <= p < cursor.num() ==> (covered(complement@, p) <==> !covered(
                        s.subrange(0, i as int),
                        p,
                    )),
                T::min_num() <= cursor.num(),
            decreases n - i,
        {
            let Interval { start, end } = intervals[i];
            let ghost old_complement = complement@;
            let ghost old_cursor = cursor.num();
            proof {
                T::lemma_num_bounds(end);
                T::lemma_num_bounds(start);
                assert forall|p: int| covered(s.subrange(0, i + 1), p) == (covered(
                    s.subrange(0, i as int),
                    p,
                ) || s[i as int].has(p)) by {
                    if covered(s.subrange(0, i + 1), p) {
                        let j = choose|j: int|
                            0 <= j < i + 1 && #[trigger] s.subrange(0, i + 1)[j].has(p);
                        if j < i {
                            assert(s.subrange(0, i as int)[j].has(p));
                        }
                    }
                    if covered(s.subrange(0, i as int), p) {
                        let j = choose|j: int|
                            0 <= j < i && #[trigger] s.subrange(0, i as int)[j].has(p);
                        assert(s.subrange(0, i + 1)[j].has(p));
                    }
                    if s[i as int].has(p) {
                        assert(s.subrange(0, i + 1)[i as int].has(p));
                    }
                }
            }
            if end.less_than(&cursor) {
                proof {
                    assert forall|p: int|
                        T::min_num() <= p < cursor.num() implies (covered(complement@, p) <==> !covered(
                            s.subrange(0, i + 1),
                            p,
                        )) by {
                        if s[i as int].has(p) && covered(complement@, p) {
                            let c = choose|c: int|
                                0 <= c < complement@.len() && #[trigger] complement@[c].has(p);
                            assert(complement@[c].hi() < s[i as int].lo());
                        }
                    }
                }
                i = i + 1;
                continue;
            }
            if cursor.less_than(&start) {
                complement.push(Interval::new(cursor, start.down()));
                proof {
                    let g = complement@[complement@.len() - 1];
                    assert forall|a: int, b: int|
                        0 <= a < b < complement@.len() implies #[trigger] complement@[a].hi() + 1
                        < #[trigger] complement@[b].lo() by {
                        if b == complement@.len() - 1 {
                            assert(complement@[a] == old_complement[a]);
                        } else {
                            assert(complement@[a] == old_complement[a]);
                            assert(complement@[b] == old_complement[b]);
                        }
                    }
                    assert forall|c: int| 0 <= c < complement@.len() implies (
                    #[trigger] complement@[c]).wf() by {
                        if c < old_complement.len() {
                            assert(complement@[c] == old_complement[c]);
                        }
                    }
                }
            }
            proof {
                // Every point up to `end` is now accounted for.
                assert forall|p: int|
                    T::min_num() <= p <= end.num() implies (covered(complement@, p) <==> !covered(
                        s.subrange(0, i + 1),
                        p,
                    )) by {
                    if p < old_cursor {
                        if covered(complement@, p) && !covered(old_complement, p) {
                            let c = choose|c: int|
                                0 <= c < complement@.len() && #[trigger] complement@[c].has(p);
                            assert(c == old_complement.len());
                        }
                        if covered(old_complement, p) {
                            let c = choose|c: int|
                                0 <= c < old_complement.len() && #[trigger] old_complement[c].has(p);
                            assert(complement@[c].has(p));
                            assert(old_complement[c].hi() < s[i as int].lo());
                        }
                    } else if p < start.num() {
                        assert(complement@[complement@.len() - 1].has(p));
                        if covered(s.subrange(0, i as int), p) {
                            let j = choose|j: int|
                                0 <= j < i && #[trigger] s.subrange(0, i as int)[j].has(p);
                            assert(s[j].hi() < old_cursor);
                        }
                    } else {
                        assert(s[i as int].has(p));
                        if covered(complement@, p) {
                            let c = choose|c: int|
                                0 <= c < complement@.len() && #[trigger] complement@[c].has(p);
                            if c < old_complement.len() {
                                assert(complement@[c] == old_complement[c]);
                                assert(old_complement[c].hi() + 1 < old_cursor);
                            }
                        }
                    }
                }
                assert forall|c: int, k: int|
                    0 <= c < complement@.len() && i < k < n implies #[trigger] complement@[c].hi()
                    < #[trigger] s[k].lo() by {
                    assert(lex_le(s[i as int], s[k]));
                    if c < old_complement.len() {
                        assert(complement@[c] == old_complement[c]);
                    }
                }
            }
            if T::max_value().at_most(&end) {
                proof {
                    assert forall|p: int|
                        T::min_num() <= p <= T::max_num() implies (covered(complement@, p) <==> !covered(
                            original,
                            p,
                        )) by {
                        if covered(s, p) && !covered(s.subrange(0, i + 1), p) {
                            let j = choose|j: int| 0 <= j < n && #[trigger] s[j].has(p);
                            if j <= i {
                                assert(s.subrange(0, i + 1)[j].has(p));
                            } else {
                                assert(lex_le(s[i as int], s[j]));
                                assert(s.subrange(0, i + 1)[i as int].has(p));
                            }
                        }
                        if !covered(s, p) && covered(s.subrange(0, i + 1), p) {
                            let j = choose|j: int|
                                0 <= j < i + 1 && #[trigger] s.subrange(0, i + 1)[j].has(p);
                            assert(s[j].has(p));
                        }
                    }
                }
                return complement;
            }
            cursor = end.up();
            i = i + 1;
        }
        proof {
            T::lemma_num_bounds(cursor);
        }
        let ghost before_last = complement@;
        complement.push(Interval::new(cursor, T::max_value()));
        proof {
            assert(complement@.drop_last() =~= before_last);
            assert(s.subrange(0, n as int) =~= s);
            let last = complement@.len() - 1;
            assert forall|a: int, b: int|
                0 <= a < b < complement@.len() implies #[trigger] complement@[a].hi() + 1
                < #[trigger] complement@[b].lo() by {
                if b < last {
                    assert(complement@[b] == complement@.drop_last()[b]);
                }
                assert(complement@[a] == complement@.drop_last()[a]);
            }
            assert forall|c: int| 0 <= c < complement@.len() implies (#[trigger] complement@[c]).wf() by {
                if c < last {
                    assert(complement@[c] == complement@.drop_last()[c]);
                }
            }
            assert forall|p: int|
                T::min_num() <= p <= T::max_num() implies (covered(complement@, p) <==> !covered(
                    original,
                    p,
                )) by {
                if p < cursor.num() {
                    if covered(complement@, p) && !covered(complement@.drop_last(), p) {
                        let c = choose|c: int|
                            0 <= c < complement@.len() && #[trigger] complement@[c].has(p);
                        if c < last {
                            assert(complement@.drop_last()[c].has(p));
                        }
                    }
                    if covered(complement@.drop_last(), p) {
                        let c = choose|c: int|
                            0 <= c < last && #[trigger] complement@.drop_last()[c].has(p);
                        assert(complement@[c].has(p));
                    }
                } else {
                    assert(complement@[last].has(p));
                    if covered(s, p) {
                        let j = choose|j: int| 0 <= j < n && #[trigger] s[j].has(p);
                        assert(s[j].hi() < cursor.num());
                    }
                }
            }
        }
        complement
    }
}

/// How the values of overlapping intervals are combined when inserting into an
/// [`IntervalTree`].
pub trait Policy<V> {
    /// Whether `combine` may be called on these values (the original panics otherwise).
    spec fn allows(&self, existing: V, new: V) -> bool;

    /// The relation between the values before and after `combine`.
    spec fn combines(&self, existing: V, new: V, result: V) -> bool;

    fn combine(&self, existing: &mut V, new: V)
        requires
            self.allows(*old(existing), new),
        ensures
            self.combines(*old(existing), new, *final(existing)),
    ;
}

/// Combine values by appending, e.g. for containers.
#[derive(Debug)]
pub struct PolicyExtend;

/// Combine values by addition, e.g. for numbers.
#[derive(Debug)]
pub struct PolicyAdd;

/// Do nothing; for the unit value `()`.
#[derive(Debug)]
pub struct PolicyNoop;

/// Only equal values may overlap.
#[derive(Debug)]
pub struct PolicyUnique;

/// Combine values with a function of the existing and the new value.
#[derive(Debug)]
pub struct PolicyFunction<F>(pub F);

impl<F> PolicyFunction<F> {
    pub fn new(f: F) -> (r: Self)
        ensures
            r.0 == f,
    {
        PolicyFunction(f)
    }
}

impl<T> Policy<Vec<T>> for PolicyExtend {
    open spec fn allows(&self, existing: Vec<T>, new: Vec<T>) -> bool {
        true
    }

    open spec fn combines(&self, existing: Vec<T>, new: Vec<T>, result: Vec<T>) -> bool {
        result@ == existing@ + new@
    }

    fn combine(&self, existing: &mut Vec<T>, new: Vec<T>) {
        let mut new: Vec<T> = new;
        existing.append(&mut new);
    }
}

impl Policy<()> for PolicyNoop {
    open spec fn allows(&self, existing: (), new: ()) -> bool {
        true
    }

    open spec fn combines(&self, existing: (), new: (), result: ()) -> bool {
        true
    }

    fn combine(&self, existing: &mut (), new: ()) {
    }
}

/// The value of a tree that stores a set of points: a point is present.
#[derive(Debug, Clone, Copy, PartialEq, Eq, Structural)]
pub struct Present;

impl Policy<Present> for PolicyNoop {
    open spec fn allows(&self, existing: Present, new: Present) -> bool {
        true
    }

    open spec fn combines(&self, existing: Present, new: Present, result: Present) -> bool {
        true
    }

    fn combine(&self, existing: &mut Present, new: Present) {
    }
}

impl<V, F: Fn(&V, V) -> V> Policy<V> for PolicyFunction<F> {
    open spec fn allows(&self, existing: V, new: V) -> bool {
        call_requires(self.0, (&existing, new))
    }

    open spec fn combines(&self, existing: V, new: V, result: V) -> bool {
        call_ensures(self.0, (&existing, new), result)
    }

    fn combine(&self, existing: &mut V, new: V) {
        let combined: V = (self.0)(&*existing, new);
        *existing = combined;
    }
}

impl Policy<u8> for PolicyAdd {
    open spec fn allows(&self, existing: u8, new: u8) -> bool {
        existing + new <= u8::MAX
    }

    open spec fn combines(&self, existing: u8, new: u8, result: u8) -> bool {
        result == existing + new
    }

    fn combine(&self, existing: &mut u8, new: u8) {
        *existing = *existing + new;
    }
}

impl Policy<u16> for PolicyAdd {
    open spec fn allows(&self, existing: u16, new: u16) -> bool {
        existing + new <= u16::MAX
    }

    open spec fn combines(&self, existing: u16, new: u16, result: u16) -> bool {
        result == existing + new
    }

    fn combine(&self, existing: &mut u16, new: u16) {
        *existing = *existing + new;
    }
}

impl Policy<u32> for PolicyAdd {
    open spec fn allows(&self, existing: u32, new: u32) -> bool {
        existing + new <= u32::MAX
    }

    open spec fn combines(&self, existing: u32, new: u32, result: u32) -> bool {
        result == existing + new
    }

    fn combine(&self, existing: &mut u32, new: u32) {
        *existing = *existing + new;
    }
}

impl Policy<u64> for PolicyAdd {
    open spec fn allows(&self, existing: u64, new: u64) -> bool {
        existing + new <= u64::MAX
    }

    open spec fn combines(&self, existing: u64, new: u64, result: u64) -> bool {
        result == existing + new
    }

    fn combine(&self, existing: &mut u64, new: u64) {
        *existing = *existing + new;
    }
}

impl Policy<usize> for PolicyAdd {
    open spec fn allows(&self, existing: usize, new: usize) -> bool {
        existing + new <= usize::MAX
    }

    open spec fn combines(&self, existing: usize, new: usize, result: usize) -> bool {
        result == existing + new
    }

    fn combine(&self, existing: &mut usize, new: usize) {
        *existing = *existing + new;
    }
}

impl Policy<u8> for PolicyUnique {
    open spec fn allows(&self, existing: u8, new: u8) -> bool {
        existing == new
    }

    open spec fn combines(&self, existing: u8, new: u8, result: u8) -> bool {
        result == existing
    }

    fn combine(&self, existing: &mut u8, new: u8) {
    }
}

impl Policy<u16> for PolicyUnique {
    open spec fn allows(&self, existing: u16, new: u16) -> bool {
        existing == new
    }

    open spec fn combines(&self, existing: u16, new: u16, result: u16) -> bool {
        result == existing
    }

    fn combine(&self, existing: &mut u16, new: u16) {
    }
}

impl Policy<u32> for PolicyUnique {
    open spec fn allows(&self, existing: u32, new: u32) -> bool {
        existing == new
    }

    open spec fn combines(&self, existing: u32, new: u32, result: u32) -> bool {
        result == existing
    }

    fn combine(&self, existing: &mut u32, new: u32) {
    }
}

impl Policy<u64> for PolicyUnique {
    open spec fn allows(&self, existing: u64, new: u64) -> bool {
        existing == new
    }

    open spec fn combines(&self, existing: u64, new: u64, result: u64) -> bool {
        result == existing
    }

    fn combine(&self, existing: &mut u64, new: u64) {
    }
}

impl Policy<usize> for PolicyUnique {
    open spec fn allows(&self, existing: usize, new: usize) -> bool {
        existing == new
    }

    open spec fn combines(&self, existing: usize, new: usize, result: usize) -> bool {
        result == existing
    }

    fn combine(&self, existing: &mut usize, new: usize) {
    }
}

impl Policy<()> for PolicyUnique {
    open spec fn allows(&self, existing: (), new: ()) -> bool {
        existing == new
    }

    open spec fn combines(&self, existing: (), new: (), result: ()) -> bool {
        result == existing
    }

    fn combine(&self, existing: &mut (), new: ()) {
    }
}

/// Entries are non-empty intervals in strictly increasing, disjoint order.
pub open spec fn entries_wf<T: Number, V>(s: Seq<(Interval<T>, V)>) -> bool {
    &&& forall|i: int| 0 <= i < s.len() ==> (#[trigger] s[i]).0.wf()
    &&& forall|i: int, j: int| 0 <= i < j < s.len() ==> (#[trigger] s[i]).0.hi() < (#[trigger] s[j]).0.lo()
}

/// Whether some entry's interval holds the point `p`.
pub open spec fn entries_cover<T: Number, V>(s: Seq<(Interval<T>, V)>, p: int) -> bool {
    exists|i: int| 0 <= i < s.len() && (#[trigger] s[i]).0.has(p)
}

/// The index of the entry holding `p` (meaningful when `entries_cover(s, p)`).
pub open spec fn entry_index_at<T: Number, V>(s: Seq<(Interval<T>, V)>, p: int) -> int {
    choose|i: int| 0 <= i < s.len() && (#[trigger] s[i]).0.has(p)
}

/// The value associated with the point `p`, if any.
pub open spec fn value_at<T: Number, V>(s: Seq<(Interval<T>, V)>, p: int) -> Option<V> {
    if entries_cover(s, p) {
        Some(s[entry_index_at(s, p)].1)
    } else {
        None
    }
}

/// The interval holding the point `p`, if any.
pub open spec fn interval_at<T: Number, V>(s: Seq<(Interval<T>, V)>, p: int) -> Option<Interval<T>> {
    if entries_cover(s, p) {
        Some(s[entry_index_at(s, p)].0)
    } else {
        None
    }
}

/// `result` is what combining a clone of `existing` with a clone of `new` gives.
pub open spec fn merged_value<V: Clone, P: Policy<V>>(policy: P, existing: V, new: V, result: V) -> bool {
    exists|m: V, n: V| cloned(existing, m) && cloned(new, n) && #[trigger] policy.combines(m, n, result)
}

/// The value `v` at point `p` after inserting `new_value` over `new` into `s`.
pub open spec fn inserted_value<T: Number, V: Clone, P: Policy<V>>(
    s: Seq<(Interval<T>, V)>,
    new: Interval<T>,
    new_value: V,
    policy: P,
    p: int,
    v: V,
) -> bool {
    &&& forall|j: int|
        0 <= j < s.len() && (#[trigger] s[j]).0.has(p) ==> (if new.has(p) {
            merged_value(policy, s[j].1, new_value, v)
        } else {
            cloned(s[j].1, v)
        })
    &&& (new.has(p) && !entries_cover(s, p)) ==> cloned(new_value, v)
    &&& !new.has(p) ==> entries_cover(s, p)
}

pub proof fn lemma_value_at<T: Number, V>(s: Seq<(Interval<T>, V)>, i: int, p: int)
    requires
        entries_wf(s),
        0 <= i < s.len(),
        s[i].0.has(p),
    ensures
        entries_cover(s, p),
        entry_index_at(s, p) == i,
        value_at(s, p) == Some(s[i].1),
        interval_at(s, p) == Some(s[i].0),
{
    assert(entries_cover(s, p));
    let j = entry_index_at(s, p);
    if j < i {
        assert(s[j].0.hi() < s[i].0.lo());
    } else if i < j {
        assert(s[i].0.hi() < s[j].0.lo());
    }
}

/// An ordered list of disjoint intervals, each with a value; lookups by
/// binary search.
#[derive(Debug, Eq, PartialEq)]
pub struct IntervalTree<T: Number, V: Clone> {
    intervals: Vec<(Interval<T>, V)>,
}

impl<T: Number, V: Clone> IntervalTree<T, V> {
    #[verifier::type_invariant]
    spec fn well_formed(self) -> bool {
        entries_wf(self.intervals@)
    }

    /// The entries, in increasing order.
    pub closed spec fn entries_view(self) -> Seq<(Interval<T>, V)> {
        self.intervals@
    }

    pub fn new() -> (r: Self)
        ensures
            r.entries_view() == Seq::<(Interval<T>, V)>::empty(),
    {
        IntervalTree { intervals: Vec::new() }
    }

    pub fn len(&self) -> (r: usize)
        ensures
            r == self.entries_view().len(),
            entries_wf(self.entries_view()),
    {
        proof {
            use_type_invariant(self);
        }
        self.intervals.len()
    }

    pub fn is_empty(&self) -> (r: bool)
        ensures
            r == (self.entries_view().len() == 0),
            entries_wf(self.entries_view()),
    {
        proof {
            use_type_invariant(self);
        }
        self.intervals.len() == 0
    }

    /// The entries, in increasing order.
    pub fn iter(&self) -> (r: &[(Interval<T>, V)])
        ensures
            r@ == self.entries_view(),
            entries_wf(r@),
    {
        proof {
            use_type_invariant(self);
        }
        self.intervals.as_slice()
    }

    /// The index of the first entry whose interval does not end before `pos`.
    fn partition_point(&self, pos: T) -> (r: usize)
        ensures
            r <= self.entries_view().len(),
            forall|i: int| 0 <= i < r ==> (#[trigger] self.entries_view()[i]).0.hi() < pos.num(),
            forall|i: int|
                r <= i < self.entries_view().len() ==> (#[trigger] self.entries_view()[i]).0.hi()
                    >= pos.num(),
    {
        proof {
            use_type_invariant(self);
        }
        let mut lo: usize = 0;
        let mut hi: usize = self.intervals.len();
        while lo < hi
            invariant
                0 <= lo <= hi <= self.intervals@.len(),
                entries_wf(self.intervals@),
                forall|i: int| 0 <= i < lo ==> (#[trigger] self.intervals@[i]).0.hi() < pos.num(),
                forall|i: int|
                    hi <= i < self.intervals@.len() ==> (#[trigger] self.intervals@[i]).0.hi()
                        >= pos.num(),
            decreases hi - lo,
        {
            let mid: usize = lo + (hi - lo) / 2;
            if self.intervals[mid].0.end.less_than(&pos) {
                proof {
                    assert forall|i: int| 0 <= i < mid + 1 implies (#[trigger] self.intervals@[i]).0.hi()
                        < pos.num() by {
                        if i < mid {
                            assert(self.intervals@[i].0.hi() < self.intervals@[mid as int].0.lo());
                        }
                    }
                }
                lo = mid + 1;
            } else {
                proof {
                    assert forall|i: int| mid <= i < self.intervals@.len() implies (
                    #[trigger] self.intervals@[i]).0.hi() >= pos.num() by {
                        if mid < i {
                            assert(self.intervals@[mid as int].0.hi() < self.intervals@[i].0.lo());
                        }
                    }
                }
                hi = mid;
            }
        }
        lo
    }

    /// The index of the first entry whose interval starts after `pos`.
    fn first_start_after(&self, pos: T) -> (r: usize)
        ensures
            r <= self.entries_view().len(),
            forall|i: int| 0 <= i < r ==> (#[trigger] self.entries_view()[i]).0.lo() <= pos.num(),
            forall|i: int|
                r <= i < self.entries_view().len() ==> (#[trigger] self.entries_view()[i]).0.lo()
                    > pos.num(),
    {
        proof {
            use_type_invariant(self);
        }
        let mut lo: usize = 0;
        let mut hi: usize = self.intervals.len();
        while lo < hi
            invariant
                0 <= lo <= hi <= self.intervals@.len(),
                entries_wf(self.intervals@),
                forall|i: int| 0 <= i < lo ==> (#[trigger] self.intervals@[i]).0.lo() <= pos.num(),
                forall|i: int|
                    hi <= i < self.intervals@.len() ==> (#[trigger] self.intervals@[i]).0.lo()
                        > pos.num(),
            decreases hi - lo,
        {
            let mid: usize = lo + (hi - lo) / 2;
            if self.intervals[mid].0.start.at_most(&pos) {
                proof {
                    assert forall|i: int| 0 <= i < mid + 1 implies (#[trigger] self.intervals@[i]).0.lo()
                        <= pos.num() by {
                        if i < mid {
                            assert(self.intervals@[i].0.hi() < self.intervals@[mid as int].0.lo());
                        }
                    }
                }
                lo = mid + 1;
            } else {
                proof {
                    assert forall|i: int| mid <= i < self.intervals@.len() implies (
                    #[trigger] self.intervals@[i]).0.lo() > pos.num() by {
                        if mid < i {
                            assert(self.intervals@[mid as int].0.hi() < self.intervals@[i].0.lo());
                        }
                    }
                }
                hi = mid;
            }
        }
        lo
    }

    /// The index of the entry holding `pos`, if any.
    fn lookup_index(&self, pos: T) -> (r: Option<usize>)
        ensures
            r matches Some(i) ==> i < self.entries_view().len() && self.entries_view()[i as int].0.has(
                pos.num(),
            ),
            r is None ==> !entries_cover(self.entries_view(), pos.num()),
    {
        proof {
            use_type_invariant(self);
        }
        let index: usize = self.partition_point(pos);
        if index < self.intervals.len() && self.intervals[index].0.start.at_most(&pos) {
            Some(index)
        } else {
            proof {
                if entries_cover(self.intervals@, pos.num()) {
                    let j = entry_index_at(self.intervals@, pos.num());
                    if j > index {
                        assert(self.intervals@[index as int].0.hi() < self.intervals@[j].0.lo());
                    }
                }
            }
            None
        }
    }

    /// The value of the interval containing `pos`, if any.
    pub fn lookup(&self, pos: T) -> (r: Option<&V>)
        ensures
            match r {
                Some(v) => value_at(self.entries_view(), pos.num()) == Some(*v),
                None => value_at(self.entries_view(), pos.num()) is None,
            },
    {
        proof {
            use_type_invariant(self);
        }
        match self.lookup_index(pos) {
            Some(i) => {
                proof {
                    lemma_value_at(self.intervals@, i as int, pos.num());
                }
                Some(&self.intervals[i].1)
            },
            None => None,
        }
    }

    /// The exact interval containing `pos`, if any.
    pub fn lookup_interval(&self, pos: T) -> (r: Option<Interval<T>>)
        ensures
            r == interval_at(self.entries_view(), pos.num()),
    {
        proof {
            use_type_invariant(self);
        }
        match self.lookup_index(pos) {
            Some(i) => {
                proof {
                    lemma_value_at(self.intervals@, i as int, pos.num());
                }
                Some(self.intervals[i].0)
            },
            None => None,
        }
    }

    /// Replaces every value `v` with `f(&v)`, keeping the intervals.
    pub fn map_values<F: Fn(&V) -> V>(&mut self, f: F)
        requires
            forall|i: int|
                0 <= i < old(self).entries_view().len() ==> call_requires(
                    f,
                    (&(#[trigger] old(self).entries_view()[i]).1,),
                ),
        ensures
            final(self).entries_view().len() == old(self).entries_view().len(),
            forall|i: int|
                0 <= i < old(self).entries_view().len() ==> (#[trigger] final(self).entries_view()[i]).0
                    == old(self).entries_view()[i].0 && call_ensures(
                    f,
                    (&old(self).entries_view()[i].1,),
                    final(self).entries_view()[i].1,
                ),
    {
        proof {
            use_type_invariant(&*self);
        }
        let ghost s = self.intervals@;
        proof {
            assert forall|k: int| 0 <= k < s.len() implies call_requires(f, (&(#[trigger] s[k]).1,)) by {
                assert(s[k] == old(self).entries_view()[k]);
            }
        }
        let mut mapped: Vec<(Interval<T>, V)> = Vec::new();
        let mut i: usize = 0;
        while i < self.intervals.len()
            invariant
                self.intervals@ == s,
                entries_wf(s),
                0 <= i <= s.len(),
                mapped@.len() == i,
                forall|k: int| 0 <= k < s.len() ==> call_requires(f, (&(#[trigger] s[k]).1,)),
                forall|k: int|
                    0 <= k < i ==> (#[trigger] mapped@[k]).0 == s[k].0 && call_ensures(
                        f,
                        (&s[k].1,),
                        mapped@[k].1,
                    ),
            decreases s.len() - i,
        {
            let v: V = f(&self.intervals[i].1);
            mapped.push((self.intervals[i].0, v));
            i = i + 1;
        }
        proof {
            assert forall|a: int, b: int| 0 <= a < b < mapped@.len() implies (#[trigger] mapped@[a]).0.hi()
                < (#[trigger] mapped@[b]).0.lo() by {
                assert(s[a].0.hi() < s[b].0.lo());
            }
            assert forall|a: int| 0 <= a < mapped@.len() implies (#[trigger] mapped@[a]).0.wf() by {
                assert(s[a].0.wf());
            }
        }
        self.intervals = mapped;
    }

    /// Keeps only the entries for which `predicate` holds, in order.
    pub fn retain<P: Fn(&(Interval<T>, V)) -> bool>(&mut self, predicate: P)
        requires
            forall|i: int|
                0 <= i < old(self).entries_view().len() ==> call_requires(
                    predicate,
                    (&#[trigger] old(self).entries_view()[i],),
                ),
        ensures
            exists|keep: Seq<bool>|
                {
                    &&& keep.len() == old(self).entries_view().len()
                    &&& forall|i: int|
                        0 <= i < keep.len() ==> call_ensures(
                            predicate,
                            (&#[trigger] old(self).entries_view()[i],),
                            keep[i],
                        )
                    &&& final(self).entries_view() == select(old(self).entries_view(), keep)
                },
    {
        proof {
            use_type_invariant(&*self);
        }
        let ghost s = self.intervals@;
        let total: usize = self.intervals.len();
        proof {
            assert forall|k: int| 0 <= k < s.len() implies call_requires(predicate, (&#[trigger] s[k],)) by {
                assert(s[k] == old(self).entries_view()[k]);
            }
        }
        let mut kept: Vec<(Interval<T>, V)> = Vec::new();
        let mut rest: Vec<(Interval<T>, V)> = Vec::new();
        std::mem::swap(&mut rest, &mut self.intervals);
        let ghost mut keep: Seq<bool> = Seq::empty();
        let mut i: usize = 0;
        while rest.len() > 0
            invariant
                entries_wf(s),
                0 <= i <= s.len(),
                rest@ == s.subrange(i as int, s.len() as int),
                s.len() <= usize::MAX,
                keep.len() == i,
                forall|k: int| 0 <= k < s.len() ==> call_requires(predicate, (&#[trigger] s[k],)),
                forall|k: int| 0 <= k < i ==> call_ensures(predicate, (&#[trigger] s[k],), keep[k]),
                kept@ == select(s.subrange(0, i as int), keep),
                entries_wf(kept@),
                forall|a: int, k: int|
                    0 <= a < kept@.len() && i <= k < s.len() ==> (#[trigger] kept@[a]).0.hi() < (
                    #[trigger] s[k]).0.lo(),
            decreases rest.len(),
        {
            proof {
                assert(rest@.len() == s.len() - i);
            }
            let entry: (Interval<T>, V) = rest.remove(0);
            proof {
                assert(entry == s[i as int]);
            }
            let k: bool = predicate(&entry);
            let ghost old_kept = kept@;
            if k {
                kept.push(entry);
            }
            proof {
                assert(s.subrange(0, i + 1).drop_last() =~= s.subrange(0, i as int));
                assert(keep.push(k).drop_last() =~= keep);
                keep = keep.push(k);
                assert forall|a: int, b: int| 0 <= a < b < kept@.len() implies (
                #[trigger] kept@[a]).0.hi() < (#[trigger] kept@[b]).0.lo() by {
                    if b == old_kept.len() {
                        assert(kept@[a] == old_kept[a]);
                    } else {
                        assert(kept@[a] == old_kept[a]);
                        assert(kept@[b] == old_kept[b]);
                    }
                }
                assert forall|a: int| 0 <= a < kept@.len() implies (#[trigger] kept@[a]).0.wf() by {
                    if a < old_kept.len() {
                        assert(kept@[a] == old_kept[a]);
                    }
                }
                assert forall|a: int, c: int|
                    0 <= a < kept@.len() && i + 1 <= c < s.len() implies (#[trigger] kept@[a]).0.hi()
                    < (#[trigger] s[c]).0.lo() by {
                    if a < old_kept.len() {
                        assert(kept@[a] == old_kept[a]);
                    } else {
                        assert(s[i as int].0.hi() < s[c].0.lo());
                    }
                }
            }
            i = i + 1;
        }
        proof {
            assert(s.subrange(0, s.len() as int) =~= s);
        }
        self.intervals = kept;
    }
}

impl<T: Number, V: Clone> Clone for IntervalTree<T, V> {
    /// Clones every value; the intervals are copied.
    fn clone(&self) -> (r: Self)
        ensures
            r.entries_view().len() == self.entries_view().len(),
            forall|i: int|
                0 <= i < self.entries_view().len() ==> (#[trigger] r.entries_view()[i]).0
                    == self.entries_view()[i].0 && cloned(self.entries_view()[i].1, r.entries_view()[i].1),
    {
        proof {
            use_type_invariant(self);
        }
        let ghost s = self.intervals@;
        let mut copied: Vec<(Interval<T>, V)> = Vec::new();
        let mut i: usize = 0;
        while i < self.intervals.len()
            invariant
                self.intervals@ == s,
                entries_wf(s),
                0 <= i <= s.len(),
                copied@.len() == i,
                forall|k: int|
                    0 <= k < i ==> (#[trigger] copied@[k]).0 == s[k].0 && cloned(s[k].1, copied@[k].1),
            decreases s.len() - i,
        {
            let v: V = self.intervals[i].1.clone();
            copied.push((self.intervals[i].0, v));
            i = i + 1;
        }
        proof {
            assert forall|a: int, b: int| 0 <= a < b < copied@.len() implies (#[trigger] copied@[a]).0.hi()
                < (#[trigger] copied@[b]).0.lo() by {
                assert(s[a].0.hi() < s[b].0.lo());
            }
            assert forall|a: int| 0 <= a < copied@.len() implies (#[trigger] copied@[a]).0.wf() by {
                assert(s[a].0.wf());
            }
        }
        IntervalTree { intervals: copied }
    }
}

/// The entries of `s` for which `keep` holds, in order.
pub open spec fn select<A>(s: Seq<A>, keep: Seq<bool>) -> Seq<A>
    decreases s.len(),
{
    if s.len() == 0 || keep.len() != s.len() {
        Seq::empty()
    } else if keep.last() {
        select(s.drop_last(), keep.drop_last()).push(s.last())
    } else {
        select(s.drop_last(), keep.drop_last())
    }
}

/// The point-wise effect of inserting `new_value` over `new` into `before`,
/// giving `after`: inside `new`, a point takes the combination of its old value
/// with the new one (or the new value where it had none); outside, nothing
/// changes (up to cloning).
pub open spec fn insert_law<T: Number, V: Clone, P: Policy<V>>(
    before: Seq<(Interval<T>, V)>,
    after: Seq<(Interval<T>, V)>,
    new: Interval<T>,
    new_value: V,
    policy: P,
    p: int,
) -> bool {
    let b = value_at(before, p);
    let a = value_at(after, p);
    &&& new.has(p) ==> (a is Some && match b {
        Some(e) => merged_value(policy, e, new_value, a->0),
        None => cloned(new_value, a->0),
    })
    &&& !new.has(p) ==> match b {
        None => a is None,
        Some(e) => a is Some && cloned(e, a->0),
    }
}

/// Where a piece of the tree after inserting `new` into `s` may start: where
/// `new` or an interval of `s` starts, or just after one ends.
#[verifier::opaque]
pub open spec fn start_cut<T: Number, V>(s: Seq<(Interval<T>, V)>, new: Interval<T>, p: int) -> bool {
    ||| p == new.lo()
    ||| p == new.hi() + 1
    ||| exists|j: int| 0 <= j < s.len() && (p == (#[trigger] s[j]).0.lo() || p == s[j].0.hi() + 1)
}

/// Where a piece of the tree after inserting `new` into `s` may end: where
/// `new` or an interval of `s` ends, or just before one starts.
#[verifier::opaque]
pub open spec fn end_cut<T: Number, V>(s: Seq<(Interval<T>, V)>, new: Interval<T>, p: int) -> bool {
    ||| p == new.hi()
    ||| p == new.lo() - 1
    ||| exists|j: int| 0 <= j < s.len() && (p == (#[trigger] s[j]).0.hi() || p == s[j].0.lo() - 1)
}

/// An interval of the tree after inserting `new` into `s`: it lies on one
/// side of each end of `new`, and within one interval of `s` or, inside
/// `new`, within a gap between them; and it starts and ends only where `new`
/// or an interval of `s` starts or ends. Inserting splits intervals at the
/// ends of `new` and at the ends of the intervals it meets, nowhere else, and
/// never joins neighbours.
pub open spec fn split_piece<T: Number, V>(s: Seq<(Interval<T>, V)>, new: Interval<T>, piece: Interval<T>) -> bool {
    &&& piece.lo() < new.lo() ==> piece.hi() < new.lo()
    &&& piece.hi() > new.hi() ==> piece.lo() > new.hi()
    &&& (exists|j: int| 0 <= j < s.len() && (#[trigger] s[j]).0.lo() <= piece.lo() && piece.hi() <= s[j].0.hi())
        || (new.lo() <= piece.lo() && piece.hi() <= new.hi() && forall|j: int|
        0 <= j < s.len() ==> !(#[trigger] s[j]).0.meets(piece))
    &&& start_cut(s, new, piece.lo())
    &&& end_cut(s, new, piece.hi())
}

/// The ends of an interval of `s`, and the points beside them, are cuts.
proof fn lemma_cuts_at<T: Number, V>(s: Seq<(Interval<T>, V)>, new: Interval<T>, j: int)
    requires
        0 <= j < s.len(),
    ensures
        start_cut(s, new, s[j].0.lo()),
        start_cut(s, new, s[j].0.hi() + 1),
        end_cut(s, new, s[j].0.hi()),
        end_cut(s, new, s[j].0.lo() - 1),
{
    reveal(start_cut);
    reveal(end_cut);
}

/// The ends of `new`, and the points beside them, are cuts.
proof fn lemma_new_cuts<T: Number, V>(s: Seq<(Interval<T>, V)>, new: Interval<T>)
    ensures
        start_cut(s, new, new.lo()),
        start_cut(s, new, new.hi() + 1),
        end_cut(s, new, new.hi()),
        end_cut(s, new, new.lo() - 1),
{
    reveal(start_cut);
    reveal(end_cut);
}

/// The policy may be applied to every value that `new` overlaps.
pub open spec fn insert_allowed<T: Number, V: Clone, P: Policy<V>>(
    s: Seq<(Interval<T>, V)>,
    new: Interval<T>,
    new_value: V,
    policy: P,
) -> bool {
    forall|j: int, m: V, n: V|
        #![trigger s[j], policy.allows(m, n)]
        0 <= j < s.len() && s[j].0.meets(new) && cloned(s[j].1, m) && cloned(new_value, n)
            ==> policy.allows(m, n)
}

impl<T: Number, V: Clone> IntervalTree<T, V> {
    /// Inserts `new_value` for the interval `new`; where `new` overlaps
    /// existing intervals, those are split at the boundaries and the values
    /// are combined by `policy`.
    pub fn insert<P: Policy<V>>(&mut self, new: Interval<T>, new_value: V, policy: P)
        requires
            new.wf(),
            insert_allowed(old(self).entries_view(), new, new_value, policy),
        ensures
            forall|p: int|
                insert_law(old(self).entries_view(), final(self).entries_view(), new, new_value, policy, p),
            forall|r: int|
                0 <= r < final(self).entries_view().len() ==> split_piece(
                    old(self).entries_view(),
                    new,
                    (#[trigger] final(self).entries_view()[r]).0,
                ),
    {
        proof {
            use_type_invariant(&*self);
        }
        let ghost s = self.intervals@;
        let ghost n = s.len();
        let a: usize = self.partition_point(new.start);
        let b: usize = self.first_start_after(new.end);
        proof {
            if b < a {
                assert(s[b as int].0.hi() < new.lo());
            }
        }
        let mut entries: Vec<(Interval<T>, V)> = Vec::new();
        std::mem::swap(&mut entries, &mut self.intervals);
        let mut tail: Vec<(Interval<T>, V)> = entries.split_off(b);
        let mut mid: Vec<(Interval<T>, V)> = entries.split_off(a);
        let mut replacement: Vec<(Interval<T>, V)> = Vec::new();
        let mut cursor: T = new.start;
        let mut covered: bool = false;
        let ghost mut k: int = 0;
        while mid.len() > 0
            invariant
                s.len() == n,
                entries_wf(s),
                new.wf(),
                insert_allowed(s, new, new_value, policy),
                a <= b <= n,
                forall|i: int| 0 <= i < a ==> (#[trigger] s[i]).0.hi() < new.lo(),
                forall|i: int| a <= i < n ==> (#[trigger] s[i]).0.hi() >= new.lo(),
                forall|i: int| 0 <= i < b ==> (#[trigger] s[i]).0.lo() <= new.hi(),
                forall|i: int| b <= i < n ==> (#[trigger] s[i]).0.lo() > new.hi(),
                entries@ == s.subrange(0, a as int),
                tail@ == s.subrange(b as int, n as int),
                0 <= k <= b - a,
                mid@ == s.subrange(a + k, b as int),
                covered ==> a + k == b,
                entries_wf(replacement@),
                forall|r: int, j: int|
                    0 <= r < replacement@.len() && 0 <= j < a ==> (#[trigger] s[j]).0.hi() < (
                    #[trigger] replacement@[r]).0.lo(),
                forall|r: int, j: int|
                    0 <= r < replacement@.len() && a + k <= j < n ==> (
                    #[trigger] replacement@[r]).0.hi() < (#[trigger] s[j]).0.lo(),
                !covered ==> new.lo() <= cursor.num() <= new.hi(),
                !covered ==> forall|r: int|
                    0 <= r < replacement@.len() ==> (#[trigger] replacement@[r]).0.hi() < cursor.num(),
                !covered && k == 0 ==> cursor.num() == new.lo(),
                !covered && k > 0 ==> cursor.num() == s[a + k - 1].0.hi() + 1,
                forall|p: int|
                    new.lo() <= p < (if covered {
                        new.hi() + 1
                    } else {
                        cursor.num()
                    }) ==> entries_cover(replacement@, p),
                forall|j: int, p: int|
                    a <= j < a + k && #[trigger] s[j].0.has(p) ==> entries_cover(replacement@, p),
                forall|r: int, p: int|
                    0 <= r < replacement@.len() && #[trigger] replacement@[r].0.has(p)
                        ==> inserted_value(s, new, new_value, policy, p, replacement@[r].1),
                forall|r: int| 0 <= r < replacement@.len() ==> split_piece(s, new, (#[trigger] replacement@[r]).0),
            decreases mid.len(),
        {
            let ghost i: int = a + k;
            assert(!covered);
            let ghost old_replacement = replacement@;
            let ghost old_cursor = cursor.num();
            let (existing, existing_value) = mid.remove(0);
            proof {
                lemma_new_cuts(s, new);
                lemma_cuts_at(s, new, i);
                if k > 0 {
                    lemma_cuts_at(s, new, i - 1);
                }
                assert(start_cut(s, new, cursor.num()));
                assert(existing == s[i].0 && existing_value == s[i].1);
                T::lemma_num_bounds(existing.start);
                T::lemma_num_bounds(cursor);
                if k > 0 {
                    assert(s[i - 1].0.hi() < s[i].0.lo());
                }
            }
            if cursor.less_than(&existing.start) {
                let gap_value: V = new_value.clone();
                replacement.push((Interval::new(cursor, existing.start.down()), gap_value));
                proof {
                    let g = replacement@.len() - 1;
                    assert forall|p: int| replacement@[g].0.has(p) implies inserted_value(
                        s,
                        new,
                        new_value,
                        policy,
                        p,
                        replacement@[g].1,
                    ) by {
                        assert forall|j: int| 0 <= j < s.len() implies !#[trigger] s[j].0.has(p) by {
                            if j < i && j >= a && k > 0 {
                                if j < i - 1 {
                                    assert(s[j].0.hi() < s[i - 1].0.lo());
                                }
                            }
                            if j > i {
                                assert(s[i].0.hi() < s[j].0.lo());
                            }
                        }
                    }
                }
                proof {
                    let g = replacement@.len() - 1;
                    let piece = replacement@[g].0;
                    assert forall|j: int| 0 <= j < s.len() implies !(#[trigger] s[j]).0.meets(piece) by {
                        if j < i && j >= a && k > 0 {
                            if j < i - 1 {
                                assert(s[j].0.hi() < s[i - 1].0.lo());
                            }
                        }
                        if j > i {
                            assert(s[i].0.hi() < s[j].0.lo());
                        }
                    }
                    assert(split_piece(s, new, piece));
                }
                cursor = existing.start;
            } else if existing.start.less_than(&cursor) {
                let head_value: V = existing_value.clone();
                replacement.push((Interval::new(existing.start, cursor.down()), head_value));
                proof {
                    let g = replacement@.len() - 1;
                    assert(s[i].0.lo() <= replacement@[g].0.lo() && replacement@[g].0.hi() <= s[i].0.hi());
                    assert(split_piece(s, new, replacement@[g].0));
                    let g = replacement@.len() - 1;
                    assert(k == 0);
                    assert forall|p: int| replacement@[g].0.has(p) implies inserted_value(
                        s,
                        new,
                        new_value,
                        policy,
                        p,
                        replacement@[g].1,
                    ) by {
                        assert(s[i].0.has(p));
                        assert forall|j: int| 0 <= j < s.len() && #[trigger] s[j].0.has(p) implies j
                            == i by {
                            if j < i {
                                assert(s[j].0.hi() < s[i].0.lo());
                            }
                            if j > i {
                                assert(s[i].0.hi() < s[j].0.lo());
                            }
                        }
                    }
                }
            }
            let ghost pre_merge = replacement@;
            let overlap_end: T = if existing.end.less_than(&new.end) {
                existing.end
            } else {
                new.end
            };
            let mut merged: V = existing_value.clone();
            let ghost m0 = merged;
            let addition: V = new_value.clone();
            proof {
                assert(s[i].0.meets(new));
                assert(policy.allows(m0, addition));
            }
            policy.combine(&mut merged, addition);
            replacement.push((Interval::new(cursor, overlap_end), merged));
            proof {
                let g = replacement@.len() - 1;
                assert(s[i].0.lo() <= replacement@[g].0.lo() && replacement@[g].0.hi() <= s[i].0.hi());
                assert(split_piece(s, new, replacement@[g].0));
                let g = replacement@.len() - 1;
                assert(merged_value(policy, existing_value, new_value, merged));
                assert forall|p: int| replacement@[g].0.has(p) implies inserted_value(
                    s,
                    new,
                    new_value,
                    policy,
                    p,
                    replacement@[g].1,
                ) by {
                    assert(s[i].0.has(p));
                    assert forall|j: int| 0 <= j < s.len() && #[trigger] s[j].0.has(p) implies j == i by {
                        if j < i {
                            assert(s[j].0.hi() < s[i].0.lo());
                        }
                        if j > i {
                            assert(s[i].0.hi() < s[j].0.lo());
                        }
                    }
                }
            }
            let ghost pre_tail = replacement@;
            if overlap_end.less_than(&existing.end) {
                proof {
                    T::lemma_num_bounds(existing.end);
                }
                replacement.push((Interval::new(overlap_end.up(), existing.end), existing_value));
                proof {
                    let g = replacement@.len() - 1;
                    assert(s[i].0.lo() <= replacement@[g].0.lo() && replacement@[g].0.hi() <= s[i].0.hi());
                    assert(split_piece(s, new, replacement@[g].0));
                    let g = replacement@.len() - 1;
                    assert forall|p: int| replacement@[g].0.has(p) implies inserted_value(
                        s,
                        new,
                        new_value,
                        policy,
                        p,
                        replacement@[g].1,
                    ) by {
                        assert(s[i].0.has(p));
                        assert forall|j: int| 0 <= j < s.len() && #[trigger] s[j].0.has(p) implies j
                            == i by {
                            if j < i {
                                assert(s[j].0.hi() < s[i].0.lo());
                            }
                            if j > i {
                                assert(s[i].0.hi() < s[j].0.lo());
                            }
                        }
                    }
                }
            }
            let ghost old_covered = covered;
            if overlap_end.at_most(&new.end) && new.end.at_most(&overlap_end) {
                covered = true;
                proof {
                    if i + 1 < b {
                        assert(s[i].0.hi() < s[i + 1].0.lo());
                    }
                }
            } else {
                proof {
                    T::lemma_num_bounds(new.end);
                }
                cursor = overlap_end.up();
            }
            proof {
                k = k + 1;
                assert(mid@ =~= s.subrange(a + k, b as int));
                // Every piece pushed in this step lies in `s[i]` or in the gap before it.
                assert forall|r: int, j: int|
                    0 <= r < replacement@.len() && a + k <= j < n implies (
                    #[trigger] replacement@[r]).0.hi() < (#[trigger] s[j]).0.lo() by {
                    assert(s[i].0.hi() < s[j].0.lo());
                    if r < old_replacement.len() {
                        assert(replacement@[r] == old_replacement[r]);
                    }
                }
                assert forall|r: int, j: int|
                    0 <= r < replacement@.len() && 0 <= j < a implies (#[trigger] s[j]).0.hi() < (
                    #[trigger] replacement@[r]).0.lo() by {
                    if r < old_replacement.len() {
                        assert(replacement@[r] == old_replacement[r]);
                    } else if i > a {
                        assert(s[j].0.hi() < s[i].0.lo());
                    } else {
                        assert(s[j].0.hi() < s[a as int].0.lo());
                    }
                }
                assert forall|x: int, y: int| 0 <= x < y < replacement@.len() implies (
                #[trigger] replacement@[x]).0.hi() < (#[trigger] replacement@[y]).0.lo() by {
                    if y < old_replacement.len() {
                        assert(replacement@[x] == old_replacement[x]);
                        assert(replacement@[y] == old_replacement[y]);
                    } else if x < old_replacement.len() {
                        assert(replacement@[x] == old_replacement[x]);
                    }
                }
                assert forall|x: int| 0 <= x < replacement@.len() implies (
                #[trigger] replacement@[x]).0.wf() by {
                    if x < old_replacement.len() {
                        assert(replacement@[x] == old_replacement[x]);
                    }
                }
                assert forall|r: int, p: int|
                    0 <= r < replacement@.len() && #[trigger] replacement@[r].0.has(p)
                        implies inserted_value(s, new, new_value, policy, p, replacement@[r].1) by {
                    if r < old_replacement.len() {
                        assert(replacement@[r] == old_replacement[r]);
                    } else if r < pre_merge.len() {
                        assert(replacement@[r] == pre_merge[r]);
                    } else if r < pre_tail.len() {
                        assert(replacement@[r] == pre_tail[r]);
                    }
                }
                assert forall|r: int| 0 <= r < replacement@.len() implies split_piece(
                    s,
                    new,
                    (#[trigger] replacement@[r]).0,
                ) by {
                    if r < old_replacement.len() {
                        assert(replacement@[r] == old_replacement[r]);
                    } else if r < pre_merge.len() {
                        assert(replacement@[r] == pre_merge[r]);
                    } else if r < pre_tail.len() {
                        assert(replacement@[r] == pre_tail[r]);
                    }
                }
                if !covered {
                    assert forall|r: int| 0 <= r < replacement@.len() implies (
                    #[trigger] replacement@[r]).0.hi() < cursor.num() by {
                        if r < old_replacement.len() {
                            assert(replacement@[r] == old_replacement[r]);
                        }
                    }
                }
                assert forall|p: int|
                    new.lo() <= p < (if covered {
                        new.hi() + 1
                    } else {
                        cursor.num()
                    }) implies entries_cover(replacement@, p) by {
                    if p < old_cursor {
                        assert(entries_cover(old_replacement, p));
                        let r = choose|r: int|
                            0 <= r < old_replacement.len() && #[trigger] old_replacement[r].0.has(p);
                        assert(replacement@[r] == old_replacement[r]);
                    } else if p < existing.start.num() {
                        assert(pre_merge[pre_merge.len() - 1].0.has(p));
                        assert(replacement@[pre_merge.len() - 1] == pre_merge[pre_merge.len() - 1]);
                    } else {
                        assert(replacement@[pre_merge.len() as int].0.has(p));
                    }
                }
                assert forall|j: int, p: int|
                    a <= j < a + k && #[trigger] s[j].0.has(p) implies entries_cover(
                    replacement@,
                    p,
                ) by {
                    if j < i {
                        assert(entries_cover(old_replacement, p));
                        let r = choose|r: int|
                            0 <= r < old_replacement.len() && #[trigger] old_replacement[r].0.has(p);
                        assert(replacement@[r] == old_replacement[r]);
                    } else if p < old_cursor {
                        assert(k == 1);
                        assert(pre_merge[pre_merge.len() - 1].0.has(p));
                        assert(replacement@[pre_merge.len() - 1] == pre_merge[pre_merge.len() - 1]);
                    } else if p <= overlap_end.num() {
                        assert(replacement@[pre_merge.len() as int].0.has(p));
                    } else {
                        assert(replacement@[pre_tail.len() as int].0.has(p));
                    }
                }
            }
        }
        let ghost before_final = replacement@;
        if !covered {
            replacement.push((Interval::new(cursor, new.end), new_value));
            proof {
                lemma_new_cuts(s, new);
                if k > 0 {
                    lemma_cuts_at(s, new, a + k - 1);
                }
                let g = replacement@.len() - 1;
                let piece = replacement@[g].0;
                assert forall|j: int| 0 <= j < s.len() implies !(#[trigger] s[j]).0.meets(piece) by {
                    if a <= j < b && k > 0 && j < a + k - 1 {
                        assert(s[j].0.hi() < s[a + k - 1].0.lo());
                    }
                }
                assert(split_piece(s, new, piece));
                let g = replacement@.len() - 1;
                assert forall|p: int| replacement@[g].0.has(p) implies inserted_value(
                    s,
                    new,
                    new_value,
                    policy,
                    p,
                    replacement@[g].1,
                ) by {
                    assert forall|j: int| 0 <= j < s.len() implies !#[trigger] s[j].0.has(p) by {
                        if a <= j < b && k > 0 && j < a + k - 1 {
                            assert(s[j].0.hi() < s[a + k - 1].0.lo());
                        }
                    }
                }
            }
        }
        let ghost rep = replacement@;
        proof {
            let pre = replacement@.drop_last();
            if !covered {
                assert(pre =~= before_final);
                assert forall|x: int, y: int| 0 <= x < y < rep.len() implies (#[trigger] rep[x]).0.hi() < (
                #[trigger] rep[y]).0.lo() by {
                    assert(rep[x] == pre[x]);
                    if y < pre.len() {
                        assert(rep[y] == pre[y]);
                    }
                }
                assert forall|x: int| 0 <= x < rep.len() implies (#[trigger] rep[x]).0.wf() by {
                    if x < pre.len() {
                        assert(rep[x] == pre[x]);
                    }
                }
                assert forall|r: int, p: int|
                    0 <= r < rep.len() && #[trigger] rep[r].0.has(p) implies inserted_value(
                    s,
                    new,
                    new_value,
                    policy,
                    p,
                    rep[r].1,
                ) by {
                    if r < pre.len() {
                        assert(rep[r] == pre[r]);
                    }
                }
                assert forall|r: int| 0 <= r < rep.len() implies split_piece(s, new, (#[trigger] rep[r]).0) by {
                    if r < pre.len() {
                        assert(rep[r] == pre[r]);
                    }
                }
                assert forall|p: int| new.has(p) implies entries_cover(rep, p) by {
                    if p < cursor.num() {
                        assert(entries_cover(pre, p));
                        let r = choose|r: int| 0 <= r < pre.len() && #[trigger] pre[r].0.has(p);
                        assert(rep[r] == pre[r]);
                    } else {
                        assert(rep[rep.len() - 1].0.has(p));
                    }
                }
                assert forall|j: int, p: int| a <= j < b && #[trigger] s[j].0.has(p) implies entries_cover(
                    rep,
                    p,
                ) by {
                    assert(entries_cover(pre, p));
                    let r = choose|r: int| 0 <= r < pre.len() && #[trigger] pre[r].0.has(p);
                    assert(rep[r] == pre[r]);
                }
                assert forall|r: int, j: int|
                    0 <= r < rep.len() && b <= j < n implies (#[trigger] rep[r]).0.hi() < (
                    #[trigger] s[j]).0.lo() by {
                    if r < pre.len() {
                        assert(rep[r] == pre[r]);
                    }
                }
                assert forall|r: int, j: int|
                    0 <= r < rep.len() && 0 <= j < a implies (#[trigger] s[j]).0.hi() < (
                    #[trigger] rep[r]).0.lo() by {
                    if r < pre.len() {
                        assert(rep[r] == pre[r]);
                    }
                }
            }
        }
        entries.append(&mut replacement);
        entries.append(&mut tail);
        let ghost f = entries@;
        proof {
            let pre = s.subrange(0, a as int);
            let suf = s.subrange(b as int, n as int);
            assert(f =~= pre + rep + suf);
            let al = a as int;
            let rl = rep.len();
            assert forall|x: int| 0 <= x < f.len() implies #[trigger] f[x] == (if x < al {
                s[x]
            } else if x < al + rl {
                rep[x - al]
            } else {
                s[x - al - rl + b]
            }) by {}
            assert forall|x: int| 0 <= x < f.len() implies (#[trigger] f[x]).0.wf() by {
                if x >= al && x < al + rl {
                    assert(rep[x - al].0.wf());
                }
            }
            assert forall|x: int, y: int| 0 <= x < y < f.len() implies (#[trigger] f[x]).0.hi() < (
            #[trigger] f[y]).0.lo() by {
                if x < al {
                    if y < al {
                    } else if y < al + rl {
                        assert(s[x].0.hi() < rep[y - al].0.lo());
                    } else {
                        assert(s[x].0.hi() < s[y - al - rl + b].0.lo());
                    }
                } else if x < al + rl {
                    if y < al + rl {
                        assert(rep[x - al].0.hi() < rep[y - al].0.lo());
                    } else {
                        assert(rep[x - al].0.hi() < s[y - al - rl + b].0.lo());
                    }
                } else {
                    assert(s[x - al - rl + b].0.hi() < s[y - al - rl + b].0.lo());
                }
            }
            assert forall|x: int| 0 <= x < f.len() implies split_piece(s, new, (#[trigger] f[x]).0) by {
                if x < al {
                    lemma_cuts_at(s, new, x);
                    assert(s[x].0.lo() <= f[x].0.lo() && f[x].0.hi() <= s[x].0.hi());
                } else if x < al + rl {
                    assert(split_piece(s, new, rep[x - al].0));
                } else {
                    let j = x - al - rl + b;
                    lemma_cuts_at(s, new, j);
                    assert(s[j].0.lo() <= f[x].0.lo() && f[x].0.hi() <= s[j].0.hi());
                }
            }
            assert forall|p: int| insert_law(s, f, new, new_value, policy, p) by {
                if new.has(p) {
                    assert(entries_cover(rep, p));
                    let r = choose|r: int| 0 <= r < rep.len() && #[trigger] rep[r].0.has(p);
                    assert(f[al + r] == rep[r]);
                    lemma_value_at(f, al + r, p);
                    if entries_cover(s, p) {
                        let j = entry_index_at(s, p);
                        lemma_value_at(s, j, p);
                    }
                } else if entries_cover(s, p) {
                    let j = entry_index_at(s, p);
                    lemma_value_at(s, j, p);
                    if j < al {
                        assert(f[j] == s[j]);
                        lemma_value_at(f, j, p);
                    } else if j >= b {
                        assert(f[j - b + al + rl] == s[j]);
                        lemma_value_at(f, j - b + al + rl, p);
                    } else {
                        assert(entries_cover(rep, p));
                        let r = choose|r: int| 0 <= r < rep.len() && #[trigger] rep[r].0.has(p);
                        assert(f[al + r] == rep[r]);
                        lemma_value_at(f, al + r, p);
                    }
                } else {
                    if entries_cover(f, p) {
                        let x = entry_index_at(f, p);
                        if x < al {
                            assert(s[x].0.has(p));
                        } else if x < al + rl {
                            assert(rep[x - al].0.has(p));
                        } else {
                            assert(s[x - al - rl + b].0.has(p));
                        }
                    }
                }
            }
        }
        self.intervals = entries;
    }
}


/// `trees[k + 1]` is what inserting `entries[k]` into `trees[k]` gives, for
/// every step that `trees` records, starting from the empty tree.
pub open spec fn insertion_chain<T: Number, V: Clone, P: Policy<V>>(
    entries: Seq<(Interval<T>, V, P)>,
    trees: Seq<Seq<(Interval<T>, V)>>,
) -> bool {
    &&& 1 <= trees.len() <= entries.len() + 1
    &&& trees[0].len() == 0
    &&& forall|k: int, p: int|
        #![trigger trees[k + 1], insert_law(trees[k], trees[k + 1], entries[k].0, entries[k].1, entries[k].2, p)]
        0 <= k < trees.len() - 1 ==> insert_law(
            trees[k],
            trees[k + 1],
            entries[k].0,
            entries[k].1,
            entries[k].2,
            p,
        )
}

/// Every insertion of the sequence may apply its policy, whatever the
/// earlier insertions gave.
pub open spec fn insertions_allowed<T: Number, V: Clone, P: Policy<V>>(
    entries: Seq<(Interval<T>, V, P)>,
) -> bool {
    &&& forall|k: int| 0 <= k < entries.len() ==> (#[trigger] entries[k]).0.wf()
    &&& forall|trees: Seq<Seq<(Interval<T>, V)>>|
        #![trigger insertion_chain(entries, trees)]
        insertion_chain(entries, trees) && trees.len() <= entries.len() ==> insert_allowed(
            trees.last(),
            entries[trees.len() - 1].0,
            entries[trees.len() - 1].1,
            entries[trees.len() - 1].2,
        )
}

impl<T: Number, V: Clone> IntervalTree<T, V> {
    /// The tree that inserting `entries` one after the other, in order, into
    /// an empty tree gives.
    pub fn from_iter<P: Policy<V>>(entries: Vec<(Interval<T>, V, P)>) -> (r: Self)
        requires
            insertions_allowed(entries@),
        ensures
            exists|trees: Seq<Seq<(Interval<T>, V)>>|
                #[trigger] insertion_chain(entries@, trees) && trees.len() == entries@.len() + 1
                    && trees.last() == r.entries_view(),
    {
        let ghost all = entries@;
        let mut rest: Vec<(Interval<T>, V, P)> = entries;
        let mut this: Self = Self::new();
        let ghost mut trees: Seq<Seq<(Interval<T>, V)>> = seq![this.entries_view()];
        while rest.len() > 0
            invariant
                insertions_allowed(all),
                rest@ == all.subrange(all.len() - rest@.len(), all.len() as int),
                insertion_chain(all, trees),
                trees.len() == all.len() - rest@.len() + 1,
                trees.last() == this.entries_view(),
            decreases rest.len(),
        {
            let ghost i: int = all.len() - rest@.len();
            let item: (Interval<T>, V, P) = rest.remove(0);
            assert(item == all[i]);
            let (interval, value, policy) = item;
            proof {
                assert(insertion_chain(all, trees));
            }
            let ghost before = this.entries_view();
            this.insert(interval, value, policy);
            proof {
                let next = trees.push(this.entries_view());
                assert forall|k: int, p: int|
                    #![trigger next[k + 1], insert_law(next[k], next[k + 1], all[k].0, all[k].1, all[k].2, p)]
                    0 <= k < next.len() - 1 implies insert_law(
                    next[k],
                    next[k + 1],
                    all[k].0,
                    all[k].1,
                    all[k].2,
                    p,
                ) by {
                    if k < trees.len() - 1 {
                        assert(next[k] == trees[k] && next[k + 1] == trees[k + 1]);
                    } else {
                        assert(next[k] == before && next[k + 1] == this.entries_view());
                    }
                }
                trees = next;
                assert(rest@ == all.subrange(all.len() - rest@.len(), all.len() as int));
            }
        }
        assert(insertion_chain(all, trees));
        this
    }
}

} // verus!
