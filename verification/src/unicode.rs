//! Inclusive code-point spans and the canonical ordered range built from
//! them: singletons first, multi-point spans after, no two spans touching.

use vstd::prelude::*;

verus! {

broadcast use vstd::utf8::char_is_scalar, vstd::utf8::char_u32_cast;

/// An inclusive `[start, end]` pair of code points.
#[derive(Clone, Copy, Debug, PartialEq, Eq, Structural)]
pub struct USpan {
    pub start: u32,
    pub end: u32,
}

impl USpan {
    /// The start code point as a mathematical integer.
    pub open spec fn lo(self) -> int {
        self.start as int
    }

    /// The end code point as a mathematical integer.
    pub open spec fn hi(self) -> int {
        self.end as int
    }

    pub open spec fn wf(self) -> bool {
        self.lo() <= self.hi()
    }

    pub open spec fn covers(self, c: int) -> bool {
        self.lo() <= c <= self.hi()
    }

    pub open spec fn spec_single(self) -> bool {
        self.lo() == self.hi()
    }

    /// Neither overlapping nor adjacent: a gap of at least one code point.
    pub open spec fn separated(self, other: USpan) -> bool {
        self.hi() + 1 < other.lo() || other.hi() + 1 < self.lo()
    }

    /// Order by start, then by end.
    pub open spec fn le(self, other: USpan) -> bool {
        self.lo() < other.lo() || (self.lo() == other.lo() && self.hi() <= other.hi())
    }

    /// The number of code points spanned, surrogate gap included.
    pub fn size(&self) -> (r: isize)
        requires
            self.wf(),
            self.hi() <= 0x10FFFF,
        ensures
            r == self.hi() - self.lo() + 1,
    {
        let d: i64 = self.end as i64 - self.start as i64 + 1;
        d as isize
    }

    pub fn is_single(&self) -> (r: bool)
        ensures
            r == self.spec_single(),
    {
        self.start == self.end
    }

    /// Joins two singletons into the span from `self` to `other`; `None`
    /// unless both are singletons in nondecreasing order.
    fn to(&self, other: USpan) -> (r: Option<USpan>)
        ensures
            r is Some <==> self.spec_single() && other.spec_single() && self.lo() <= other.lo(),
            r matches Some(s) ==> s == (USpan { start: self.start, end: other.end }),
    {
        if self.is_single() && other.is_single() && self.start <= other.start {
            Some(USpan { start: self.start, end: other.end })
        } else {
            None
        }
    }

    /// Merges two spans that overlap or touch into their covering interval.
    fn merge_with(&self, other: &USpan) -> (r: Option<USpan>)
        requires
            self.wf(),
            other.wf(),
        ensures
            r is Some <==> !self.separated(*other),
            r matches Some(m) ==> {
                &&& m.wf()
                &&& m.lo() == if self.lo() <= other.lo() { self.lo() } else { other.lo() }
                &&& m.hi() == if self.hi() >= other.hi() { self.hi() } else { other.hi() }
                &&& forall|c: int| m.covers(c) <==> (self.covers(c) || other.covers(c))
            },
    {
        let (lhs, rhs): (&USpan, &USpan) = if span_le_exec(self, other) {
            (self, other)
        } else {
            (other, self)
        };
        if lhs.end < u32::MAX && lhs.end + 1 < rhs.start {
            return None;
        }
        let end: u32 = if lhs.end >= rhs.end {
            lhs.end
        } else {
            rhs.end
        };
        Some(USpan { start: lhs.start, end })
    }

    /// Every Unicode scalar covered by the span, in ascending order.
    pub fn chars(&self) -> (r: Vec<char>)
        ensures
            r@ == scalar_chars(self.lo(), self.hi()),
    {
        let mut out: Vec<char> = Vec::new();
        if self.start > self.end || self.start > 0x10FFFF {
            return out;
        }
        let lo: u32 = self.start;
        let hi: u32 = self.end;
        let stop: u32 = if hi > 0x10FFFF {
            0x10FFFF
        } else {
            hi
        };
        let mut cp: u32 = lo;
        while cp <= stop
            invariant
                lo <= cp <= stop + 1,
                stop <= 0x10FFFF,
                stop == if hi > 0x10FFFF { 0x10FFFF as u32 } else { hi },
                out@ + scalar_chars(cp as int, hi as int) == scalar_chars(lo as int, hi as int),
            decreases stop + 1 - cp,
        {
            let ghost pre: Seq<char> = out@;
            if cp < 0xD800 || (0xE000 <= cp && cp <= 0x10FFFF) {
                match crate::extern_specs::char_from_u32(cp) {
                    Some(c) => {
                        out.push(c);
                        proof {
                            vstd::utf8::char_u32_cast(c, cp);
                            assert((cp as int) as u32 == cp);
                            assert(scalar_chars(cp as int, hi as int) == seq![c] + scalar_chars(
                                cp + 1,
                                hi as int,
                            ));
                            assert(out@ + scalar_chars(cp + 1, hi as int) =~= pre + scalar_chars(
                                cp as int,
                                hi as int,
                            ));
                        }
                    },
                    None => {
                        proof {
                            assert(false);
                        }
                    },
                }
            } else {
                proof {
                    assert(!vstd::utf8::is_scalar(cp));
                    assert(scalar_chars(cp as int, hi as int) == scalar_chars(cp + 1, hi as int));
                }
            }
            cp = cp + 1;
        }
        proof {
            assert(scalar_chars(cp as int, hi as int) =~= Seq::<char>::empty());
            assert(out@ =~= out@ + scalar_chars(cp as int, hi as int));
        }
        out
    }
}

/// The Unicode scalars in `[lo, hi]`, ascending, surrogates skipped.
pub open spec fn scalar_chars(lo: int, hi: int) -> Seq<char>
    decreases hi + 1 - lo,
{
    if lo > hi || lo < 0 || lo > 0x10FFFF {
        Seq::empty()
    } else if vstd::utf8::is_scalar(lo as u32) {
        seq![lo as u32 as char] + scalar_chars(lo + 1, hi)
    } else {
        scalar_chars(lo + 1, hi)
    }
}

/// Some span of `spans` covers code point `c`.
#[verifier::opaque]
pub open spec fn in_spans(spans: Seq<USpan>, c: int) -> bool {
    exists|s: USpan| spans.contains(s) && s.covers(c)
}

pub open spec fn all_wf(spans: Seq<USpan>) -> bool {
    forall|k: int| 0 <= k < spans.len() ==> (#[trigger] spans[k]).wf()
}

/// Sorted by `(start, end)`, pairwise.
pub open spec fn spans_sorted(spans: Seq<USpan>) -> bool {
    forall|i: int, j: int| 0 <= i < j < spans.len() ==> (#[trigger] spans[i]).le(#[trigger] spans[j])
}

/// Each span ends at least two code points before the next begins.
pub open spec fn spans_separated(spans: Seq<USpan>) -> bool {
    forall|k: int|
        0 <= k && k + 1 < spans.len() ==> (#[trigger] spans[k]).hi() + 1 < spans[k + 1].lo()
}

fn span_le_exec(a: &USpan, b: &USpan) -> (r: bool)
    ensures
        r == a.le(*b),
{
    a.start < b.start || (a.start == b.start && a.end <= b.end)
}

/// In a well-formed separated run, earlier spans end strictly below later
/// ones, whatever the distance between the indices.
pub proof fn lemma_separated_pairwise(spans: Seq<USpan>, i: int, j: int)
    requires
        all_wf(spans),
        spans_separated(spans),
        0 <= i < j < spans.len(),
    ensures
        spans[i].hi() + 1 < spans[j].lo(),
    decreases j - i,
{
    if i + 1 < j {
        lemma_separated_pairwise(spans, i + 1, j);
    }
}

/// A sequence still holds its elements after a push, and the pushed one.
proof fn lemma_contains_after_push(s: Seq<USpan>, v: USpan, x: USpan)
    ensures
        s.contains(x) ==> s.push(v).contains(x),
        s.push(v).contains(v),
{
    if s.contains(x) {
        let i = choose|i: int| 0 <= i < s.len() && s[i] == x;
        assert(s.push(v)[i] == x);
    }
    assert(s.push(v)[s.len() as int] == v);
}

/// Accumulates raw spans; `build` turns them into a canonical `URange`.
#[derive(Clone, Debug, PartialEq, Eq)]
pub struct URangeBuilder {
    spans: Vec<USpan>,
}

impl URangeBuilder {
    pub closed spec fn spans_view(&self) -> Seq<USpan> {
        self.spans@
    }

    pub fn new() -> (r: URangeBuilder)
        ensures
            r.spans_view() == Seq::<USpan>::empty(),
    {
        URangeBuilder { spans: Vec::new() }
    }

    /// One singleton span per character, in the order given.
    pub fn from_chars(chars: &[char]) -> (r: URangeBuilder)
        ensures
            r.spans_view().len() == chars@.len(),
            forall|k: int|
                0 <= k < chars@.len() ==> (#[trigger] r.spans_view()[k]) == (USpan {
                    start: chars@[k] as u32,
                    end: chars@[k] as u32,
                }),
            all_wf(r.spans_view()),
    {
        let mut spans: Vec<USpan> = Vec::new();
        let mut i: usize = 0;
        while i < chars.len()
            invariant
                i <= chars@.len(),
                spans@.len() == i,
                forall|k: int|
                    0 <= k < i ==> (#[trigger] spans@[k]) == (USpan {
                        start: chars@[k] as u32,
                        end: chars@[k] as u32,
                    }),
            decreases chars@.len() - i,
        {
            let c: char = chars[i];
            let cp: u32 = c as u32;
            spans.push(USpan { start: cp, end: cp });
            i = i + 1;
        }
        URangeBuilder { spans }
    }

    /// Wraps an already-collected span list.
    pub fn from_spans(spans: Vec<USpan>) -> (r: URangeBuilder)
        ensures
            r.spans_view() == spans@,
    {
        URangeBuilder { spans }
    }

    pub fn push(&mut self, range: USpan)
        ensures
            final(self).spans_view() == old(self).spans_view().push(range),
    {
        self.spans.push(range);
    }

    /// Sorts, merges overlapping or touching spans, and places every
    /// singleton before every multi-point span, each group ascending. The
    /// result covers exactly the code points of the pushed spans.
    pub fn build(self) -> (r: URange)
        requires
            all_wf(self.spans_view()),
        ensures
            r.wf(),
            forall|c: int| r.covers(c) <==> in_spans(self.spans_view(), c),
    {
        let ghost orig: Seq<USpan> = self.spans@;
        let mut spans: Vec<USpan> = self.spans;
        sort_spans(&mut spans);
        proof {
            lemma_multiset_contains_equiv(orig, spans@);
        }
        let merged: Vec<USpan> = merge_sorted(&spans);
        let ghost whole: Seq<USpan> = merged@;
        let (singles, mut multis): (Vec<USpan>, Vec<USpan>) = split_singles(merged);
        let num_single: usize = singles.len();
        let ghost singles_snap: Seq<USpan> = singles@;
        let ghost multis_snap: Seq<USpan> = multis@;
        let mut spans_out: Vec<USpan> = singles;
        spans_out.append(&mut multis);
        let r = URange { spans: spans_out, num_single };
        proof {
            assert(r.spans@ =~= singles_snap + multis_snap);
            lemma_concat_covers(singles_snap, multis_snap);
            assert(r.spans@.take(num_single as int) =~= singles_snap);
            assert(r.spans@.skip(num_single as int) =~= multis_snap);
            assert forall|i: int, j: int| 0 <= i < j < r.spans@.len() implies (
            #[trigger] r.spans@[i]).separated(#[trigger] r.spans@[j]) by {
                let x = r.spans@[i];
                let y = r.spans@[j];
                if j < num_single {
                    lemma_separated_pairwise(singles_snap, i, j);
                } else if num_single <= i {
                    lemma_separated_pairwise(multis_snap, i - num_single, j - num_single);
                } else {
                    assert(x == singles_snap[i]);
                    assert(y == multis_snap[j - num_single]);
                    assert(singles_snap.contains(x));
                    assert(multis_snap.contains(y));
                    assert(x.spec_single() && !y.spec_single());
                    lemma_contained_separated(whole, x, y);
                }
            }
            assert(forall|c: int| r.covers(c) <==> in_spans(orig, c));
        }
        r
    }
}

/// Left-fold of a sorted span list, merging each span into the previous
/// when they overlap or touch.
fn merge_sorted(spans: &Vec<USpan>) -> (r: Vec<USpan>)
    requires
        all_wf(spans@),
        spans_sorted(spans@),
    ensures
        all_wf(r@),
        spans_separated(r@),
        forall|c: int| in_spans(r@, c) <==> in_spans(spans@, c),
{
    let ghost sorted: Seq<USpan> = spans@;
    let mut merged: Vec<USpan> = Vec::new();
    proof {
        assert(sorted.take(0) =~= Seq::<USpan>::empty());
        assert(merged@ =~= sorted.take(0));
    }
    let mut idx: usize = 0;
    while idx < spans.len()
        invariant
            idx <= sorted.len(),
            spans@ == sorted,
            all_wf(sorted),
            spans_sorted(sorted),
            all_wf(merged@),
            spans_separated(merged@),
            merged@.len() == 0 ==> idx == 0,
            merged@.len() > 0 ==> idx >= 1 && merged@.last().lo() <= sorted[idx - 1].lo(),
            forall|c: int| in_spans(merged@, c) <==> in_spans(sorted.take(idx as int), c),
        decreases sorted.len() - idx,
    {
        let s: USpan = spans[idx];
        let ghost pre: Seq<USpan> = merged@;
        let mut did_merge: bool = false;
        if merged.len() > 0 {
            let li: usize = merged.len() - 1;
            let last: USpan = merged[li];
            proof {
                if idx > 1 {
                    assert(sorted[idx - 1].le(sorted[idx as int]));
                }
                assert(last.lo() <= s.lo());
            }
            match last.merge_with(&s) {
                Some(m) => {
                    merged[li] = m;
                    did_merge = true;
                    proof {
                        assert(m.lo() == last.lo());
                        assert forall|k2: int| 0 <= k2 && k2 + 1 < merged@.len() implies (
                        #[trigger] merged@[k2]).hi() + 1 < merged@[k2 + 1].lo() by {
                            if k2 + 1 < li {
                                assert(merged@[k2] == pre[k2] && merged@[k2 + 1] == pre[k2 + 1]);
                            } else {
                                assert(merged@[k2] == pre[k2] && merged@[li as int] == m);
                            }
                        }
                        lemma_merge_step_covers(pre, merged@, li as int, s);
                    }
                },
                None => {},
            }
        }
        if !did_merge {
            merged.push(s);
            proof {
                lemma_push_covers(pre, s);
            }
        }
        proof {
            assert(sorted.take(idx + 1) =~= sorted.take(idx as int).push(s));
            lemma_push_covers(sorted.take(idx as int), s);
            assert forall|c: int| in_spans(merged@, c) <==> in_spans(sorted.take(idx + 1), c) by {
                assert(in_spans(merged@, c) <==> (in_spans(pre, c) || s.covers(c)));
                assert(in_spans(pre, c) <==> in_spans(sorted.take(idx as int), c));
                assert(in_spans(sorted.take(idx + 1), c) <==> (in_spans(
                    sorted.take(idx as int),
                    c,
                ) || s.covers(c)));
            }
        }
        idx = idx + 1;
    }
    proof {
        assert(sorted.take(sorted.len() as int) =~= sorted);
    }
    merged
}

/// Stable partition of a separated ascending run: singletons, then
/// multi-point spans, each group keeping its order.
fn split_singles(merged: Vec<USpan>) -> (r: (Vec<USpan>, Vec<USpan>))
    requires
        all_wf(merged@),
        spans_separated(merged@),
    ensures
        all_wf(r.0@),
        all_wf(r.1@),
        spans_separated(r.0@),
        spans_separated(r.1@),
        forall|a: int| 0 <= a < r.0@.len() ==> (#[trigger] r.0@[a]).spec_single(),
        forall|a: int| 0 <= a < r.1@.len() ==> !(#[trigger] r.1@[a]).spec_single(),
        forall|a: int| 0 <= a < r.0@.len() ==> merged@.contains(#[trigger] r.0@[a]),
        forall|a: int| 0 <= a < r.1@.len() ==> merged@.contains(#[trigger] r.1@[a]),
        forall|c: int| (in_spans(r.0@, c) || in_spans(r.1@, c)) <==> in_spans(merged@, c),
{
    let ghost whole: Seq<USpan> = merged@;
    let mut singles: Vec<USpan> = Vec::new();
    let mut multis: Vec<USpan> = Vec::new();
    let ghost mut last_s: int = -1;
    let ghost mut last_m: int = -1;
    let mut k: usize = 0;
    while k < merged.len()
        invariant
            k <= whole.len(),
            merged@ == whole,
            all_wf(whole),
            spans_separated(whole),
            all_wf(singles@),
            all_wf(multis@),
            spans_separated(singles@),
            spans_separated(multis@),
            forall|a: int| 0 <= a < singles@.len() ==> (#[trigger] singles@[a]).spec_single(),
            forall|a: int| 0 <= a < multis@.len() ==> !(#[trigger] multis@[a]).spec_single(),
            forall|a: int| 0 <= a < singles@.len() ==> whole.contains(#[trigger] singles@[a]),
            forall|a: int| 0 <= a < multis@.len() ==> whole.contains(#[trigger] multis@[a]),
            forall|j: int|
                0 <= j < k ==> (singles@.contains(#[trigger] whole[j]) || multis@.contains(
                    whole[j],
                )),
            singles@.len() == 0 <==> last_s == -1,
            singles@.len() > 0 ==> 0 <= last_s < k && whole[last_s] == singles@.last(),
            multis@.len() == 0 <==> last_m == -1,
            multis@.len() > 0 ==> 0 <= last_m < k && whole[last_m] == multis@.last(),
        decreases whole.len() - k,
    {
        let s: USpan = merged[k];
        let ghost pre_s: Seq<USpan> = singles@;
        let ghost pre_m: Seq<USpan> = multis@;
        if s.is_single() {
            proof {
                if singles@.len() > 0 {
                    lemma_separated_pairwise(whole, last_s, k as int);
                }
                last_s = k as int;
            }
            singles.push(s);
        } else {
            proof {
                if multis@.len() > 0 {
                    lemma_separated_pairwise(whole, last_m, k as int);
                }
                last_m = k as int;
            }
            multis.push(s);
        }
        proof {
            lemma_split_step(whole, pre_s, pre_m, singles@, multis@, k as int);
        }
        k = k + 1;
    }
    proof {
        lemma_partition_covers(whole, singles@, multis@);
    }
    (singles, multis)
}

/// One partition step keeps both directions of membership between the run
/// and the two groups.
proof fn lemma_split_step(
    whole: Seq<USpan>,
    pre_s: Seq<USpan>,
    pre_m: Seq<USpan>,
    new_s: Seq<USpan>,
    new_m: Seq<USpan>,
    k: int,
)
    requires
        0 <= k < whole.len(),
        forall|j: int|
            0 <= j < k ==> (pre_s.contains(#[trigger] whole[j]) || pre_m.contains(whole[j])),
        forall|a: int| 0 <= a < pre_s.len() ==> whole.contains(#[trigger] pre_s[a]),
        forall|a: int| 0 <= a < pre_m.len() ==> whole.contains(#[trigger] pre_m[a]),
        (new_s == pre_s.push(whole[k]) && new_m == pre_m) || (new_m == pre_m.push(whole[k])
            && new_s == pre_s),
    ensures
        forall|j: int|
            0 <= j < k + 1 ==> (new_s.contains(#[trigger] whole[j]) || new_m.contains(whole[j])),
        forall|a: int| 0 <= a < new_s.len() ==> whole.contains(#[trigger] new_s[a]),
        forall|a: int| 0 <= a < new_m.len() ==> whole.contains(#[trigger] new_m[a]),
{
    assert forall|j: int|
        0 <= j < k + 1 implies (new_s.contains(#[trigger] whole[j]) || new_m.contains(
        whole[j],
    )) by {
        if j < k {
            if pre_s.contains(whole[j]) {
                lemma_contains_after_push(pre_s, whole[k], whole[j]);
                if new_s == pre_s {
                } else {
                    assert(new_s.contains(whole[j]));
                }
            } else {
                lemma_contains_after_push(pre_m, whole[k], whole[j]);
            }
        } else {
            lemma_contains_after_push(pre_s, whole[k], whole[k]);
            lemma_contains_after_push(pre_m, whole[k], whole[k]);
        }
    }
    assert forall|a: int| 0 <= a < new_s.len() implies whole.contains(#[trigger] new_s[a]) by {
        if a < pre_s.len() {
            assert(new_s[a] == pre_s[a]);
        } else {
            assert(new_s[a] == whole[k]);
            assert(whole.contains(whole[k]));
        }
    }
    assert forall|a: int| 0 <= a < new_m.len() implies whole.contains(#[trigger] new_m[a]) by {
        if a < pre_m.len() {
            assert(new_m[a] == pre_m[a]);
        } else {
            assert(new_m[a] == whole[k]);
            assert(whole.contains(whole[k]));
        }
    }
}

/// Coverage is unchanged by splitting a list in two, element for element.
proof fn lemma_partition_covers(whole: Seq<USpan>, a: Seq<USpan>, b: Seq<USpan>)
    requires
        forall|k: int| 0 <= k < a.len() ==> whole.contains(#[trigger] a[k]),
        forall|k: int| 0 <= k < b.len() ==> whole.contains(#[trigger] b[k]),
        forall|j: int|
            0 <= j < whole.len() ==> (a.contains(#[trigger] whole[j]) || b.contains(whole[j])),
    ensures
        forall|c: int| (in_spans(a, c) || in_spans(b, c)) <==> in_spans(whole, c),
{
    reveal(in_spans);
    assert forall|c: int| (in_spans(a, c) || in_spans(b, c)) implies in_spans(whole, c) by {
        if in_spans(a, c) {
            let x = choose|x: USpan| a.contains(x) && x.covers(c);
            let i = choose|i: int| 0 <= i < a.len() && a[i] == x;
            assert(whole.contains(a[i]));
        } else {
            let x = choose|x: USpan| b.contains(x) && x.covers(c);
            let i = choose|i: int| 0 <= i < b.len() && b[i] == x;
            assert(whole.contains(b[i]));
        }
    }
    assert forall|c: int| in_spans(whole, c) implies (in_spans(a, c) || in_spans(b, c)) by {
        let x = choose|x: USpan| whole.contains(x) && x.covers(c);
        let i = choose|i: int| 0 <= i < whole.len() && whole[i] == x;
        assert(a.contains(whole[i]) || b.contains(whole[i]));
    }
}

/// Pushing a span extends coverage by exactly that span.
proof fn lemma_push_covers(spans: Seq<USpan>, s: USpan)
    ensures
        forall|c: int| in_spans(spans.push(s), c) <==> (in_spans(spans, c) || s.covers(c)),
{
    reveal(in_spans);
    assert forall|c: int| in_spans(spans.push(s), c) implies (in_spans(spans, c) || s.covers(c)) by {
        let x = choose|x: USpan| spans.push(s).contains(x) && x.covers(c);
        let i = choose|i: int| 0 <= i < spans.push(s).len() && spans.push(s)[i] == x;
        if i < spans.len() {
            assert(spans[i] == x);
            assert(spans.contains(x));
        } else {
            assert(x == s);
        }
    }
    assert forall|c: int| (in_spans(spans, c) || s.covers(c)) implies in_spans(spans.push(s), c) by {
        if in_spans(spans, c) {
            let x = choose|x: USpan| spans.contains(x) && x.covers(c);
            lemma_contains_after_push(spans, s, x);
        } else {
            lemma_contains_after_push(spans, s, s);
        }
    }
}

/// Replacing the final span by one covering its union with `s` extends the
/// coverage by exactly `s`.
proof fn lemma_merge_step_covers(pre: Seq<USpan>, post: Seq<USpan>, li: int, s: USpan)
    requires
        pre.len() == post.len(),
        li == pre.len() - 1,
        0 <= li,
        forall|k: int| 0 <= k < li ==> post[k] == pre[k],
        forall|c: int| post[li].covers(c) <==> (pre[li].covers(c) || s.covers(c)),
    ensures
        forall|c: int| in_spans(post, c) <==> (in_spans(pre, c) || s.covers(c)),
{
    reveal(in_spans);
    assert forall|c: int| in_spans(post, c) implies (in_spans(pre, c) || s.covers(c)) by {
        let x = choose|x: USpan| post.contains(x) && x.covers(c);
        let i = choose|i: int| 0 <= i < post.len() && post[i] == x;
        if i < li {
            assert(pre.contains(pre[i]));
        } else {
            assert(pre[li].covers(c) || s.covers(c));
            if pre[li].covers(c) {
                assert(pre.contains(pre[li]));
            }
        }
    }
    assert forall|c: int| (in_spans(pre, c) || s.covers(c)) implies in_spans(post, c) by {
        if s.covers(c) {
            assert(post[li].covers(c));
            assert(post.contains(post[li]));
        } else {
            let x = choose|x: USpan| pre.contains(x) && x.covers(c);
            let i = choose|i: int| 0 <= i < pre.len() && pre[i] == x;
            if i < li {
                assert(post.contains(post[i]));
            } else {
                assert(post[li].covers(c));
                assert(post.contains(post[li]));
            }
        }
    }
}

proof fn lemma_concat_covers(a: Seq<USpan>, b: Seq<USpan>)
    ensures
        forall|c: int| in_spans(a + b, c) <==> (in_spans(a, c) || in_spans(b, c)),
{
    reveal(in_spans);
    assert forall|c: int| in_spans(a + b, c) implies (in_spans(a, c) || in_spans(b, c)) by {
        let x = choose|x: USpan| (a + b).contains(x) && x.covers(c);
        let i = choose|i: int| 0 <= i < (a + b).len() && (a + b)[i] == x;
        if i < a.len() {
            assert(a.contains(a[i]));
        } else {
            assert(b.contains(b[i - a.len()]));
        }
    }
    assert forall|c: int| (in_spans(a, c) || in_spans(b, c)) implies in_spans(a + b, c) by {
        if in_spans(a, c) {
            let x = choose|x: USpan| a.contains(x) && x.covers(c);
            let i = choose|i: int| 0 <= i < a.len() && a[i] == x;
            assert((a + b)[i] == x);
            assert((a + b).contains(x));
        } else {
            let x = choose|x: USpan| b.contains(x) && x.covers(c);
            let i = choose|i: int| 0 <= i < b.len() && b[i] == x;
            assert((a + b)[i + a.len()] == x);
            assert((a + b).contains(x));
        }
    }
}

/// Two distinct spans of a separated ascending run never touch.
proof fn lemma_contained_separated(spans: Seq<USpan>, x: USpan, y: USpan)
    requires
        all_wf(spans),
        spans_separated(spans),
        spans.contains(x),
        spans.contains(y),
        x != y,
    ensures
        x.separated(y),
{
    let i = choose|i: int| 0 <= i < spans.len() && spans[i] == x;
    let j = choose|j: int| 0 <= j < spans.len() && spans[j] == y;
    if i < j {
        lemma_separated_pairwise(spans, i, j);
    } else if j < i {
        lemma_separated_pairwise(spans, j, i);
    }
}

/// Equal multisets cover the same code points.
proof fn lemma_multiset_contains_equiv(a: Seq<USpan>, b: Seq<USpan>)
    requires
        a.to_multiset() == b.to_multiset(),
    ensures
        forall|c: int| in_spans(a, c) <==> in_spans(b, c),
        all_wf(a) ==> all_wf(b),
{
    reveal(in_spans);
    assert forall|x: USpan| a.contains(x) <==> b.contains(x) by {
        vstd::seq_lib::to_multiset_contains(a, x);
        vstd::seq_lib::to_multiset_contains(b, x);
    }
    assert forall|c: int| in_spans(a, c) implies in_spans(b, c) by {
        let x = choose|x: USpan| a.contains(x) && x.covers(c);
        assert(b.contains(x) && x.covers(c));
    }
    assert forall|c: int| in_spans(b, c) implies in_spans(a, c) by {
        let x = choose|x: USpan| b.contains(x) && x.covers(c);
        assert(a.contains(x) && x.covers(c));
    }
    if all_wf(a) {
        assert forall|k: int| 0 <= k < b.len() implies (#[trigger] b[k]).wf() by {
            assert(b.contains(b[k]));
            assert(a.contains(b[k]));
            let i = choose|i: int| 0 <= i < a.len() && a[i] == b[k];
            assert(a[i].wf());
        }
    }
}

/// Insertion sort over the `(start, end)` order; keeps the multiset.
fn sort_spans(v: &mut Vec<USpan>)
    ensures
        final(v)@.len() == old(v)@.len(),
        final(v)@.to_multiset() == old(v)@.to_multiset(),
        spans_sorted(final(v)@),
{
    let ghost orig: Seq<USpan> = v@;
    let n: usize = v.len();
    let mut i: usize = 1;
    while i < n
        invariant
            1 <= i || n == 0,
            i <= n || n == 0,
            v@.len() == n,
            v@.to_multiset() == orig.to_multiset(),
            forall|a: int, b: int| 0 <= a < b < i && b < n ==> (#[trigger] v@[a]).le(
                #[trigger] v@[b],
            ),
        decreases n - i,
    {
        let ghost before: Seq<USpan> = v@;
        let x: USpan = v.remove(i);
        let ghost mid: Seq<USpan> = v@;
        let mut k: usize = 0;
        while k < i && span_le_exec(&v[k], &x)
            invariant
                k <= i,
                i < n,
                v@ == mid,
                mid.len() == n - 1,
                forall|a: int| 0 <= a < k ==> (#[trigger] mid[a]).le(x),
            decreases i - k,
        {
            k = k + 1;
        }
        v.insert(k, x);
        proof {
            vstd::seq_lib::to_multiset_remove(before, i as int);
            vstd::seq_lib::to_multiset_insert(mid, k as int, x);
            vstd::seq_lib::to_multiset_contains(before, x);
            assert(before.contains(x)) by {
                assert(before[i as int] == x);
            }
            assert(before.to_multiset().count(x) > 0);
            assert(v@.to_multiset() =~= before.to_multiset());
            assert(forall|a: int| 0 <= a < i ==> mid[a] == before[a]);
            assert forall|a: int, b: int| 0 <= a < b < i + 1 && b < n implies (#[trigger] v@[a]).le(
            #[trigger] v@[b]) by {
                let kk = k as int;
                if b < kk {
                    assert(v@[a] == before[a] && v@[b] == before[b]);
                } else if a < kk && b == kk {
                    assert(v@[a] == mid[a] && v@[b] == x);
                } else if a < kk && b > kk {
                    assert(v@[a] == before[a] && v@[b] == before[b - 1]);
                } else if a == kk {
                    // v[a] is x; v[b] sits past the scan's stop, where the
                    // stopping element itself exceeds x in the span order.
                    assert(v@[b] == before[b - 1]);
                    if kk < i {
                        assert(!mid[kk].le(x));
                        assert(x.le(mid[kk]));
                        if b - 1 > kk {
                            assert(mid[kk] == before[kk]);
                            assert(before[kk].le(before[b - 1]));
                        } else {
                            assert(mid[kk] == before[b - 1]);
                        }
                    }
                } else {
                    assert(v@[a] == before[a - 1] && v@[b] == before[b - 1]);
                }
            }
        }
        i = i + 1;
    }
    proof {
        if n == 0 {
            assert(spans_sorted(v@));
        }
    }
}

/// An ordered collection of non-overlapping, non-adjacent spans: all
/// singletons first (ascending), all multi-point spans after (ascending).
#[derive(Clone, Debug, PartialEq, Eq)]
pub struct URange {
    spans: Vec<USpan>,
    num_single: usize,
}

impl URange {
    pub closed spec fn spans_view(&self) -> Seq<USpan> {
        self.spans@
    }

    pub closed spec fn num_single_view(&self) -> int {
        self.num_single as int
    }

    /// The starts of the singleton spans, in stored order.
    pub open spec fn singles(&self) -> Seq<int> {
        self.spans_view().take(self.num_single_view()).map(|_k: int, s: USpan| s.lo())
    }

    /// The `(start, end)` pairs of the multi-point spans, in stored order.
    pub open spec fn multis(&self) -> Seq<(int, int)> {
        self.spans_view().skip(self.num_single_view()).map(|_k: int, s: USpan| (s.lo(), s.hi()))
    }

    pub open spec fn wf(&self) -> bool {
        &&& 0 <= self.num_single_view() <= self.spans_view().len()
        &&& all_wf(self.spans_view())
        &&& forall|k: int|
            0 <= k < self.num_single_view() ==> (#[trigger] self.spans_view()[k]).spec_single()
        &&& forall|k: int|
            self.num_single_view() <= k < self.spans_view().len() ==> !(
            #[trigger] self.spans_view()[k]).spec_single()
        &&& spans_separated(self.spans_view().take(self.num_single_view()))
        &&& spans_separated(self.spans_view().skip(self.num_single_view()))
        &&& forall|i: int, j: int|
            0 <= i < j < self.spans_view().len() ==> (#[trigger] self.spans_view()[i]).separated(
                #[trigger] self.spans_view()[j],
            )
    }

    pub open spec fn covers(&self, c: int) -> bool {
        in_spans(self.spans_view(), c)
    }

    pub fn single_count(&self) -> (r: usize)
        ensures
            r == self.num_single_view(),
    {
        self.num_single
    }

    pub fn multi_count(&self) -> (r: usize)
        requires
            self.wf(),
        ensures
            r == self.spans_view().len() - self.num_single_view(),
    {
        self.spans.len() - self.num_single
    }

    /// The stored spans: singletons first, then multi-point spans.
    pub fn as_spans(&self) -> (r: &Vec<USpan>)
        ensures
            r@ == self.spans_view(),
    {
        &self.spans
    }

    /// Every covered Unicode scalar, in strictly ascending order.
    #[verifier::rlimit(100)]
    #[verifier::spinoff_prover]
    pub fn as_chars(&self) -> (r: Vec<char>)
        requires
            self.wf(),
        ensures
            forall|a: int, b: int|
                0 <= a < b < r@.len() ==> ((#[trigger] r@[a]) as u32) < ((#[trigger] r@[b]) as u32),
            forall|k: int| 0 <= k < r@.len() ==> self.covers((#[trigger] r@[k]) as u32 as int),
            forall|c: u32|
                vstd::utf8::is_scalar(c) && self.covers(c as int) ==> r@.contains(
                    #[trigger] (c as char),
                ),
    {
        let ordered: Vec<USpan> = self.spans_ascending();
        let ghost ord: Seq<USpan> = ordered@;
        let mut out: Vec<char> = Vec::new();
        let mut k: usize = 0;
        proof {
            reveal(in_spans);
            assert(ord.take(0) =~= Seq::<USpan>::empty());
            assert forall|c: int| !in_spans(ord.take(0), c) by {
                if in_spans(ord.take(0), c) {
                    let x = choose|x: USpan| ord.take(0).contains(x) && x.covers(c);
                    let i2 = choose|i2: int| 0 <= i2 < ord.take(0).len() && ord.take(0)[i2] == x;
                }
            }
        }
        while k < ordered.len()
            invariant
                k <= ord.len(),
                ordered@ == ord,
                all_wf(ord),
                spans_separated(ord),
                forall|a: int, b: int|
                    0 <= a < b < out@.len() ==> ((#[trigger] out@[a]) as u32) < ((
                    #[trigger] out@[b]) as u32),
                forall|i2: int|
                    0 <= i2 < out@.len() ==> in_spans(ord.take(k as int), (
                    #[trigger] out@[i2]) as u32 as int),
                forall|c: u32|
                    vstd::utf8::is_scalar(c) && in_spans(ord.take(k as int), c as int)
                        ==> out@.contains(#[trigger] (c as char)),
                k == 0 ==> out@.len() == 0,
                out@.len() > 0 ==> k > 0 && (out@.last() as u32) as int <= ord[k - 1].hi(),
            decreases ord.len() - k,
        {
            let s: USpan = ordered[k];
            let mut piece: Vec<char> = s.chars();
            let ghost pre: Seq<char> = out@;
            proof {
                lemma_scalar_chars_props(s.lo(), s.hi());
            }
            out.append(&mut piece);
            proof {
                let pc = scalar_chars(s.lo(), s.hi());
                assert(out@ == pre + pc);
                assert(ord.take(k + 1) =~= ord.take(k as int).push(s));
                lemma_push_covers(ord.take(k as int), s);
                // earlier output stays below every new scalar
                assert forall|a: int, b: int|
                    0 <= a < b < out@.len() implies ((#[trigger] out@[a]) as u32) < ((
                #[trigger] out@[b]) as u32) by {
                    if b < pre.len() {
                    } else if a >= pre.len() {
                        assert((pc[a - pre.len()] as u32) < (pc[b - pre.len()] as u32));
                    } else {
                        assert(pre.len() > 0);
                        assert(k > 0);
                        if a < pre.len() - 1 {
                            assert((pre[a] as u32) < (pre[pre.len() - 1] as u32));
                        }
                        assert((pre.last() as u32) as int <= ord[k - 1].hi());
                        assert(ord[k - 1].hi() + 1 < ord[k as int].lo());
                        assert(out@[b] == pc[b - pre.len()]);
                        assert(s.lo() <= ((pc[b - pre.len()]) as u32) as int);
                    }
                }
                assert forall|i2: int| 0 <= i2 < out@.len() implies in_spans(
                    ord.take(k + 1),
                    (#[trigger] out@[i2]) as u32 as int,
                ) by {
                    if i2 < pre.len() {
                        assert(in_spans(ord.take(k as int), (pre[i2] as u32) as int));
                    } else {
                        assert(s.covers((pc[i2 - pre.len()] as u32) as int));
                    }
                }
                assert forall|c: u32|
                    vstd::utf8::is_scalar(c) && in_spans(ord.take(k + 1), c as int)
                        implies out@.contains(#[trigger] (c as char)) by {
                    if in_spans(ord.take(k as int), c as int) {
                        assert(pre.contains(c as char));
                        let j = choose|j: int| 0 <= j < pre.len() && pre[j] == (c as char);
                        assert(out@[j] == (c as char));
                    } else {
                        assert(s.covers(c as int));
                        assert(pc.contains(c as char));
                        let j = choose|j: int| 0 <= j < pc.len() && pc[j] == (c as char);
                        assert(out@[pre.len() + j] == (c as char));
                    }
                }
                if out@.len() > 0 {
                    if pc.len() > 0 {
                        assert(out@.last() == pc[pc.len() - 1]);
                        assert((out@.last() as u32) as int <= s.hi());
                    } else {
                        assert(pre.len() > 0);
                        assert(k > 0);
                        assert((pre.last() as u32) as int <= ord[k - 1].hi());
                        assert(ord[k as int].wf());
                        assert(ord[k - 1].hi() + 1 < ord[k as int].lo());
                        assert((out@.last() as u32) as int <= ord[k as int].hi());
                    }
                }
            }
            k = k + 1;
        }
        proof {
            assert(ord.take(ord.len() as int) =~= ord);
            let ghost sp: Seq<USpan> = self.spans_view();
            lemma_mutual_elements_cover(ord, sp);
        }
        out
    }

    /// The stored spans re-ordered by start: the two ascending groups
    /// merged into one ascending, separated run over the same spans.
    fn spans_ascending(&self) -> (r: Vec<USpan>)
        requires
            self.wf(),
        ensures
            all_wf(r@),
            spans_separated(r@),
            forall|k: int| 0 <= k < r@.len() ==> self.spans_view().contains(#[trigger] r@[k]),
            forall|k: int|
                0 <= k < self.spans_view().len() ==> r@.contains(#[trigger] self.spans_view()[k]),
    {
        let ghost sp: Seq<USpan> = self.spans_view();
        let ns: usize = self.num_single;
        let len: usize = self.spans.len();
        let mut ordered: Vec<USpan> = Vec::new();
        let mut i: usize = 0;
        let mut j: usize = ns;
        while i < ns || j < len
            invariant
                self.wf(),
                sp == self.spans_view(),
                ns == self.num_single_view(),
                len == sp.len(),
                0 <= i <= ns,
                ns <= j <= len,
                ordered@.len() == i + (j - ns),
                all_wf(ordered@),
                spans_separated(ordered@),
                forall|k: int| 0 <= k < i ==> ordered@.contains(#[trigger] sp[k]),
                forall|k: int| ns <= k < j ==> ordered@.contains(#[trigger] sp[k]),
                forall|k: int| 0 <= k < ordered@.len() ==> sp.contains(#[trigger] ordered@[k]),
                ordered@.len() > 0 && i < ns ==> ordered@.last().hi() + 1 < sp[i as int].lo(),
                ordered@.len() > 0 && j < len ==> ordered@.last().hi() + 1 < sp[j as int].lo(),
            decreases (ns - i) + (len - j),
        {
            let take_single: bool = if i >= ns {
                false
            } else if j >= len {
                true
            } else {
                self.spans[i].start < self.spans[j].start
            };
            let p: usize = if take_single {
                i
            } else {
                j
            };
            let s: USpan = self.spans[p];
            let ghost pre: Seq<USpan> = ordered@;
            proof {
                assert(sp.contains(sp[p as int]));
            }
            ordered.push(s);
            proof {
                assert(ordered@ == pre.push(s));
                assert forall|k: int| 0 <= k < ordered@.len() implies sp.contains(
                    #[trigger] ordered@[k],
                ) by {
                    if k < pre.len() {
                        assert(ordered@[k] == pre[k]);
                    } else {
                        assert(ordered@[k] == s);
                    }
                }
                assert forall|k: int|
                    0 <= k < (if take_single { i + 1 } else { i as int }) implies ordered@.contains(
                    #[trigger] sp[k]) by {
                    if k < i {
                        lemma_contains_after_push(pre, s, sp[k]);
                    } else {
                        lemma_contains_after_push(pre, s, s);
                    }
                }
                assert forall|k: int|
                    ns <= k < (if take_single { j as int } else { j + 1 }) implies ordered@.contains(
                    #[trigger] sp[k]) by {
                    if k < j {
                        lemma_contains_after_push(pre, s, sp[k]);
                    } else {
                        lemma_contains_after_push(pre, s, s);
                    }
                }
                // the pick has the least start among the remaining spans
                if i < ns && j < len {
                    assert(!sp[i as int].spec_single() || sp[i as int].lo() != sp[j as int].lo())
                        by {
                        if sp[i as int].lo() == sp[j as int].lo() {
                            assert(sp[i as int].separated(sp[j as int]));
                            assert(sp[i as int].wf() && sp[j as int].wf());
                            assert(false);
                        }
                    }
                }
                if take_single {
                    if i + 1 < ns {
                        assert(sp.take(ns as int)[i as int] == sp[i as int]);
                        assert(sp.take(ns as int)[i + 1] == sp[i + 1]);
                        assert(sp[i as int].hi() + 1 < sp[i + 1].lo());
                    }
                    if j < len {
                        assert(sp[i as int].lo() < sp[j as int].lo());
                        assert(sp[i as int].separated(sp[j as int]));
                        assert(sp[i as int].hi() + 1 < sp[j as int].lo());
                    }
                } else {
                    if j + 1 < len {
                        assert(sp.skip(ns as int)[j - ns] == sp[j as int]);
                        assert(sp.skip(ns as int)[j + 1 - ns] == sp[j + 1]);
                        assert(sp[j as int].hi() + 1 < sp[j + 1].lo());
                    }
                    if i < ns {
                        assert(sp[j as int].lo() <= sp[i as int].lo());
                        assert(sp[j as int].separated(sp[i as int]));
                        assert(sp[j as int].hi() + 1 < sp[i as int].lo());
                    }
                }
                assert forall|k2: int| 0 <= k2 && k2 + 1 < ordered@.len() implies (
                #[trigger] ordered@[k2]).hi() + 1 < ordered@[k2 + 1].lo() by {
                    if k2 + 1 < pre.len() {
                        assert(ordered@[k2] == pre[k2] && ordered@[k2 + 1] == pre[k2 + 1]);
                    } else {
                        assert(ordered@[k2] == pre.last() && ordered@[k2 + 1] == s);
                    }
                }
            }
            if take_single {
                i = i + 1;
            } else {
                j = j + 1;
            }
        }
        proof {
            assert forall|k: int| 0 <= k < sp.len() implies ordered@.contains(
                #[trigger] sp[k],
            ) by {}
        }
        ordered
    }
}

/// Span lists over the same spans cover the same code points.
proof fn lemma_mutual_elements_cover(a: Seq<USpan>, b: Seq<USpan>)
    requires
        forall|k: int| 0 <= k < a.len() ==> b.contains(#[trigger] a[k]),
        forall|k: int| 0 <= k < b.len() ==> a.contains(#[trigger] b[k]),
    ensures
        forall|c: int| in_spans(a, c) <==> in_spans(b, c),
{
    reveal(in_spans);
    assert forall|c: int| in_spans(a, c) implies in_spans(b, c) by {
        let x = choose|x: USpan| a.contains(x) && x.covers(c);
        let i = choose|i: int| 0 <= i < a.len() && a[i] == x;
        assert(b.contains(a[i]));
    }
    assert forall|c: int| in_spans(b, c) implies in_spans(a, c) by {
        let x = choose|x: USpan| b.contains(x) && x.covers(c);
        let i = choose|i: int| 0 <= i < b.len() && b[i] == x;
        assert(a.contains(b[i]));
    }
}

/// The scalars of an interval are within it, strictly ascending, and
/// complete: every scalar the interval covers appears.
pub proof fn lemma_scalar_chars_props(lo: int, hi: int)
    requires
        0 <= lo,
    ensures
        forall|idx: int|
            0 <= idx < scalar_chars(lo, hi).len() ==> lo <= ((
            #[trigger] scalar_chars(lo, hi)[idx]) as u32) as int <= hi,
        forall|a: int, b: int|
            #![trigger scalar_chars(lo, hi)[a], scalar_chars(lo, hi)[b]]
            0 <= a < b < scalar_chars(lo, hi).len() ==> ((scalar_chars(lo, hi)[a] as u32))
                < ((scalar_chars(lo, hi)[b] as u32)),
        forall|c: u32|
            lo <= c as int <= hi && vstd::utf8::is_scalar(c) ==> scalar_chars(lo, hi).contains(
                #[trigger] (c as char),
            ),
    decreases hi + 1 - lo,
{
    if lo > hi || lo < 0 || lo > 0x10FFFF {
    } else {
        lemma_scalar_chars_props(lo + 1, hi);
        let sc = scalar_chars(lo, hi);
        let tail = scalar_chars(lo + 1, hi);
        if vstd::utf8::is_scalar(lo as u32) {
            assert(sc == seq![(lo as u32) as char] + tail);
            assert(((lo as u32) as char) as u32 == lo as u32);
            assert forall|c: u32|
                lo <= c as int <= hi && vstd::utf8::is_scalar(c) implies sc.contains(
                #[trigger] (c as char)) by {
                if c as int == lo {
                    assert(sc[0] == (c as char));
                } else {
                    assert(tail.contains(c as char));
                    let j = choose|j: int| 0 <= j < tail.len() && tail[j] == (c as char);
                    assert(sc[j + 1] == (c as char));
                }
            }
        } else {
            assert(sc == tail);
            assert forall|c: u32|
                lo <= c as int <= hi && vstd::utf8::is_scalar(c) implies sc.contains(
                #[trigger] (c as char)) by {
                assert(c as int != lo);
            }
        }
    }
}

/// A partition entry's name: the bucket index as decimal text.
#[derive(Clone, Debug, PartialEq, Eq)]
pub struct UName {
    bytes: Vec<u8>,
}

impl UName {
    pub closed spec fn bytes_view(&self) -> Seq<u8> {
        self.bytes@
    }

    pub fn new(bytes: Vec<u8>) -> (r: UName)
        ensures
            r.bytes_view() == bytes@,
    {
        UName { bytes }
    }

    pub fn as_bytes(&self) -> (r: &Vec<u8>)
        ensures
            r@ == self.bytes_view(),
    {
        &self.bytes
    }
}

/// One partition bucket under its name.
#[derive(Clone, Debug, PartialEq, Eq)]
pub struct UEntry {
    pub name: UName,
    pub range: URange,
}

} // verus!
