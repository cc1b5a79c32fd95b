//! Orders a font's character base by expected demand — frequency data,
//! required characters, page usage — and cuts it into buckets of a target
//! size, each bucket coalesced into a canonical range.

use crate::unicode::{in_spans, URange, URangeBuilder, USpan};
use vstd::prelude::*;

verus! {

/// Why an algorithm could not be built.
#[derive(Clone, Copy, Debug, PartialEq, Eq, Structural)]
pub enum PartitionError {
    /// No character source at all was configured.
    NoInputData,
}

/// The target bucket size.
#[derive(Clone, Copy, Debug, PartialEq, Eq, Structural)]
pub enum PartSize {
    /// So many code points per bucket.
    Chars(usize),
}

impl Default for PartSize {
    /// Two hundred code points per bucket.
    fn default() -> (r: PartSize)
        ensures
            r == PartSize::Chars(200usize),
    {
        PartSize::Chars(200)
    }
}

/// The distinct characters of one page, ascending.
#[derive(Clone, Debug, PartialEq, Eq)]
pub struct Page {
    chars: Vec<u32>,
}

pub open spec fn strictly_ascending(s: Seq<u32>) -> bool {
    forall|i: int, j: int| 0 <= i < j < s.len() ==> (#[trigger] s[i]) < (#[trigger] s[j])
}

impl Page {
    pub closed spec fn chars_view(&self) -> Seq<u32> {
        self.chars@
    }

    pub open spec fn wf(&self) -> bool {
        strictly_ascending(self.chars_view())
    }

    pub open spec fn has(&self, c: u32) -> bool {
        self.chars_view().contains(c)
    }

    /// Collects the distinct code points of a document's characters.
    pub fn from_chars(chars: &[char]) -> (r: Page)
        ensures
            r.wf(),
            forall|c: u32|
                r.has(c) <==> exists|k: int| 0 <= k < chars@.len() && (#[trigger] chars@[k]) as u32
                    == c,
    {
        let mut cps: Vec<u32> = Vec::new();
        let mut i: usize = 0;
        while i < chars.len()
            invariant
                i <= chars@.len(),
                cps@.len() == i,
                forall|k: int| 0 <= k < i ==> (#[trigger] cps@[k]) == chars@[k] as u32,
            decreases chars@.len() - i,
        {
            let c: char = chars[i];
            cps.push(c as u32);
            i = i + 1;
        }
        let sorted: Vec<u32> = sort_unique(cps);
        proof {
            assert(forall|c: u32|
                sorted@.contains(c) <==> exists|k: int|
                    0 <= k < chars@.len() && (#[trigger] chars@[k]) as u32 == c) by {
                assert forall|c: u32| sorted@.contains(c) implies exists|k: int|
                    0 <= k < chars@.len() && (#[trigger] chars@[k]) as u32 == c by {
                    let k = choose|k: int| 0 <= k < cps@.len() && cps@[k] == c;
                    assert(chars@[k] as u32 == c);
                }
                assert forall|c: u32|
                    exists|k: int| 0 <= k < chars@.len() && (#[trigger] chars@[k]) as u32 == c
                    implies sorted@.contains(c) by {
                    let k = choose|k: int|
                        0 <= k < chars@.len() && (#[trigger] chars@[k]) as u32 == c;
                    assert(cps@[k] == c);
                    assert(cps@.contains(c));
                }
            }
        }
        Page { chars: sorted }
    }

    /// The code points, ascending.
    pub fn as_codepoints(&self) -> (r: &Vec<u32>)
        ensures
            r@ == self.chars_view(),
    {
        &self.chars
    }
}

/// A source of the code points a font must cover.
pub trait CharBaseProvider {
    fn char_base(&self) -> Vec<u32>;
}

/// A source of characters in descending frequency order.
pub trait CharFreqProvider {
    fn char_freq(&self) -> Vec<u32>;
}

/// A source of per-page character sets.
pub trait PagesProvider {
    fn pages(&self) -> Vec<Page>;
}

/// A compact built-in frequency order: the first run of the CJK Unified
/// Ideographs block in code-point order. A full deployment supplies a
/// corpus-derived table in its place.
pub struct PresetZH;

impl CharFreqProvider for PresetZH {
    fn char_freq(&self) -> Vec<u32> {
        let mut v: Vec<u32> = Vec::new();
        let mut c: u32 = 0x4E00;
        while c < 0x4F00
            invariant
                0x4E00 <= c <= 0x4F00,
            decreases 0x4F00 - c,
        {
            v.push(c);
            c = c + 1;
        }
        v
    }
}

pub open spec fn pair_le(a: (i64, u32), b: (i64, u32)) -> bool {
    a.0 < b.0 || (a.0 == b.0 && a.1 <= b.1)
}

pub open spec fn pairs_sorted(s: Seq<(i64, u32)>) -> bool {
    forall|i: int, j: int| 0 <= i < j < s.len() ==> pair_le(#[trigger] s[i], #[trigger] s[j])
}

fn pair_le_exec(a: (i64, u32), b: (i64, u32)) -> (r: bool)
    ensures
        r == pair_le(a, b),
{
    a.0 < b.0 || (a.0 == b.0 && a.1 <= b.1)
}

/// Insertion sort over `(score, code point)` pairs; keeps the multiset.
fn sort_pairs(v: &mut Vec<(i64, u32)>)
    ensures
        final(v)@.len() == old(v)@.len(),
        final(v)@.to_multiset() == old(v)@.to_multiset(),
        pairs_sorted(final(v)@),
{
    let ghost orig: Seq<(i64, u32)> = v@;
    let n: usize = v.len();
    let mut i: usize = 1;
    while i < n
        invariant
            1 <= i || n == 0,
            i <= n || n == 0,
            v@.len() == n,
            v@.to_multiset() == orig.to_multiset(),
            forall|a: int, b: int| 0 <= a < b < i && b < n ==> pair_le(
                #[trigger] v@[a],
                #[trigger] v@[b],
            ),
        decreases n - i,
    {
        let ghost before: Seq<(i64, u32)> = v@;
        let x: (i64, u32) = v.remove(i);
        let ghost mid: Seq<(i64, u32)> = v@;
        let mut k: usize = 0;
        while k < i && pair_le_exec(v[k], x)
            invariant
                k <= i,
                i < n,
                v@ == mid,
                mid.len() == n - 1,
                forall|a: int| 0 <= a < k ==> pair_le(#[trigger] mid[a], x),
            decreases i - k,
        {
            k = k + 1;
        }
        v.insert(k, x);
        proof {
            vstd::seq_lib::to_multiset_remove(before, i as int);
            vstd::seq_lib::to_multiset_insert(mid, k as int, x);
            vstd::seq_lib::to_multiset_contains(before, x);
            assert(before.contains(x)) by {
                assert(before[i as int] == x);
            }
            assert(v@.to_multiset() =~= before.to_multiset());
            assert(forall|a: int| 0 <= a < i ==> mid[a] == before[a]);
            assert forall|a: int, b: int| 0 <= a < b < i + 1 && b < n implies pair_le(
                #[trigger] v@[a],
                #[trigger] v@[b],
            ) by {
                let kk = k as int;
                if b < kk {
                    assert(v@[a] == before[a] && v@[b] == before[b]);
                } else if a < kk && b == kk {
                    assert(v@[a] == mid[a] && v@[b] == x);
                } else if a < kk && b > kk {
                    assert(v@[a] == before[a] && v@[b] == before[b - 1]);
                } else if a == kk {
                    assert(v@[b] == before[b - 1]);
                    if kk < i {
                        assert(!pair_le(mid[kk], x));
                        assert(pair_le(x, mid[kk]));
                        if b - 1 > kk {
                            assert(mid[kk] == before[kk]);
                            assert(pair_le(before[kk], before[b - 1]));
                        } else {
                            assert(mid[kk] == before[b - 1]);
                        }
                    }
                } else {
                    assert(v@[a] == before[a - 1] && v@[b] == before[b - 1]);
                }
            }
        }
        i = i + 1;
    }
    proof {
        if n == 0 {
            assert(pairs_sorted(v@));
        }
    }
}

/// Sorts and deduplicates code points, ascending.
pub fn sort_unique(cps: Vec<u32>) -> (r: Vec<u32>)
    ensures
        strictly_ascending(r@),
        forall|c: u32| r@.contains(c) <==> cps@.contains(c),
{
    let ghost orig: Seq<u32> = cps@;
    let mut pairs: Vec<(i64, u32)> = Vec::new();
    let mut i: usize = 0;
    while i < cps.len()
        invariant
            i <= cps@.len(),
            pairs@.len() == i,
            forall|k: int| 0 <= k < i ==> (#[trigger] pairs@[k]) == (0i64, cps@[k]),
        decreases cps@.len() - i,
    {
        pairs.push((0i64, cps[i]));
        i = i + 1;
    }
    proof {
        assert forall|c: u32| pairs@.contains((0i64, c)) <==> orig.contains(c) by {
            if pairs@.contains((0i64, c)) {
                let k = choose|k: int| 0 <= k < pairs@.len() && pairs@[k] == (0i64, c);
                assert(orig[k] == c);
            }
            if orig.contains(c) {
                let k = choose|k: int| 0 <= k < orig.len() && orig[k] == c;
                assert(pairs@[k] == (0i64, c));
            }
        }
    }
    let ghost unsorted: Seq<(i64, u32)> = pairs@;
    sort_pairs(&mut pairs);
    proof {
        assert forall|p: (i64, u32)| pairs@.contains(p) <==> unsorted.contains(p) by {
            vstd::seq_lib::to_multiset_contains(pairs@, p);
            vstd::seq_lib::to_multiset_contains(unsorted, p);
        }
        assert forall|k: int| 0 <= k < pairs@.len() implies (#[trigger] pairs@[k]).0 == 0i64 by {
            assert(pairs@.contains(pairs@[k]));
            assert(unsorted.contains(pairs@[k]));
            let j = choose|j: int| 0 <= j < unsorted.len() && unsorted[j] == pairs@[k];
        }
    }
    let mut out: Vec<u32> = Vec::new();
    let mut k: usize = 0;
    while k < pairs.len()
        invariant
            k <= pairs@.len(),
            pairs_sorted(pairs@),
            forall|k2: int| 0 <= k2 < pairs@.len() ==> (#[trigger] pairs@[k2]).0 == 0i64,
            strictly_ascending(out@),
            forall|c: u32| out@.contains(c) ==> pairs@.take(k as int).contains((0i64, c)),
            forall|j: int| 0 <= j < k ==> out@.contains((#[trigger] pairs@[j]).1),
            out@.len() > 0 ==> k > 0 && out@.last() == pairs@[k - 1].1,
        decreases pairs@.len() - k,
    {
        let c: u32 = pairs[k].1;
        let ghost pre: Seq<u32> = out@;
        if out.len() == 0 || out[out.len() - 1] < c {
            out.push(c);
            proof {
                assert forall|i2: int, j2: int| 0 <= i2 < j2 < out@.len() implies (
                #[trigger] out@[i2]) < (#[trigger] out@[j2]) by {
                    if j2 < pre.len() {
                    } else {
                        assert(out@[j2] == c);
                        if i2 < pre.len() - 1 {
                            assert(pre[i2] < pre[pre.len() - 1]);
                        }
                    }
                }
            }
        } else {
            proof {
                // pairs is sorted with equal scores, so a non-increasing step
                // means this code point was just emitted.
                assert(pair_le(pairs@[k - 1], pairs@[k as int]));
                assert(pairs@[k - 1].1 <= c);
                assert(out@.last() == c);
            }
        }
        proof {
            assert forall|c2: u32| out@.contains(c2) implies pairs@.take(k + 1).contains(
                (0i64, c2),
            ) by {
                if pre.contains(c2) {
                    let j = choose|j: int| 0 <= j < k && pairs@.take(k as int)[j] == (0i64, c2);
                    assert(pairs@.take(k + 1)[j] == (0i64, c2));
                } else {
                    assert(c2 == c);
                    assert(pairs@.take(k + 1)[k as int] == (0i64, c));
                }
            }
            assert forall|j: int| 0 <= j < k + 1 implies out@.contains(
                (#[trigger] pairs@[j]).1,
            ) by {
                if j < k {
                    let c2 = pairs@[j].1;
                    assert(pre.contains(c2));
                    if out@.len() > pre.len() {
                        let i2 = choose|i2: int| 0 <= i2 < pre.len() && pre[i2] == c2;
                        assert(out@[i2] == c2);
                    }
                } else {
                    if out@.len() > pre.len() {
                        assert(out@.last() == c);
                    } else {
                        assert(out@.last() == c);
                    }
                }
            }
        }
        k = k + 1;
    }
    proof {
        assert(pairs@.take(pairs@.len() as int) =~= pairs@);
        assert forall|c: u32| out@.contains(c) <==> cps@.contains(c) by {
            if out@.contains(c) {
                assert(pairs@.contains((0i64, c)));
            }
            if cps@.contains(c) {
                assert(pairs@.contains((0i64, c)));
                let j = choose|j: int| 0 <= j < pairs@.len() && pairs@[j] == (0i64, c);
                assert(out@.contains(pairs@[j].1));
            }
        }
    }
    out
}

} // verus!

verus! {

/// `s[k] == c` for some `k` in `[lo, hi)`.
pub open spec fn chunk_has(s: Seq<u32>, lo: int, hi: int, c: int) -> bool {
    exists|k: int| lo <= k < hi && 0 <= k < s.len() && (#[trigger] s[k]) as int == c
}

pub open spec fn chunk_count(len: int, num: int) -> int {
    if len % num == 0 {
        len / num
    } else {
        len / num + 1
    }
}

/// The buckets cut the character sequence into runs of `num`, the last run
/// holding the remainder; bucket `i` covers exactly the code points of its
/// run.
pub open spec fn is_partition_of(r: Seq<URange>, chars: Seq<u32>, num: int) -> bool {
    &&& r.len() == chunk_count(chars.len() as int, num)
    &&& forall|i: int| 0 <= i < r.len() ==> (#[trigger] r[i]).wf()
    &&& forall|i: int, c: int|
        #![trigger r[i].covers(c)]
        0 <= i < r.len() ==> (r[i].covers(c) <==> chunk_has(
            chars,
            i * num,
            if (i + 1) * num < chars.len() { (i + 1) * num } else { chars.len() as int },
            c,
        ))
}

/// Cuts the ordered characters into buckets of `num` code points and builds
/// one canonical range per bucket.
pub fn do_partition(chars: &Vec<u32>, num: usize) -> (r: Vec<URange>)
    requires
        num >= 1,
    ensures
        is_partition_of(r@, chars@, num as int),
{
    let mut res: Vec<URange> = Vec::new();
    let mut pos: usize = 0;
    while pos < chars.len()
        invariant
            num >= 1,
            pos <= chars@.len(),
            res@.len() * num >= pos,
            pos < chars@.len() ==> pos == res@.len() * num,
            chars@.len() == 0 ==> res@.len() == 0,
            pos == chars@.len() && chars@.len() > 0 ==> res@.len() >= 1 && (res@.len() - 1) * num
                < chars@.len() && chars@.len() <= res@.len() * num,
            forall|i: int| 0 <= i < res@.len() ==> (#[trigger] res@[i]).wf(),
            forall|i: int, c: int|
                #![trigger res@[i].covers(c)]
                0 <= i < res@.len() ==> (res@[i].covers(c) <==> chunk_has(
                    chars@,
                    i * num,
                    if (i + 1) * num < chars@.len() {
                        (i + 1) * num
                    } else {
                        chars@.len() as int
                    },
                    c,
                )),
        decreases chars@.len() - pos,
    {
        let ghost i: int = res@.len() as int;
        let chunk_end: usize = if chars.len() - pos > num {
            pos + num
        } else {
            chars.len()
        };
        proof {
            assert(pos == i * num);
            assert((i + 1) * num == i * num + num) by (nonlinear_arith);
            assert(chunk_end == if (i + 1) * num < chars@.len() {
                (i + 1) * num
            } else {
                chars@.len() as int
            });
        }
        let mut spans: Vec<USpan> = Vec::new();
        let mut k: usize = pos;
        while k < chunk_end
            invariant
                pos <= k <= chunk_end <= chars@.len(),
                spans@.len() == k - pos,
                forall|j: int|
                    0 <= j < spans@.len() ==> (#[trigger] spans@[j]) == (USpan {
                        start: chars@[pos + j],
                        end: chars@[pos + j],
                    }),
            decreases chunk_end - k,
        {
            let c: u32 = chars[k];
            spans.push(USpan { start: c, end: c });
            k = k + 1;
        }
        let ghost chunk_spans: Seq<USpan> = spans@;
        proof {
            assert(crate::unicode::all_wf(chunk_spans));
        }
        let built: URange = URangeBuilder::from_spans(spans).build();
        proof {
            let lo = i * num;
            let hi = if (i + 1) * num < chars@.len() {
                (i + 1) * num
            } else {
                chars@.len() as int
            };
            assert(lo == pos && hi == chunk_end);
            assert forall|c: int| built.covers(c) <==> chunk_has(chars@, lo, hi, c) by {
                reveal(crate::unicode::in_spans);
                if in_spans(chunk_spans, c) {
                    let x = choose|x: USpan| chunk_spans.contains(x) && x.covers(c);
                    let j = choose|j: int| 0 <= j < chunk_spans.len() && chunk_spans[j] == x;
                    assert(chars@[pos + j] as int == c);
                    assert(chunk_has(chars@, lo, hi, c));
                }
                if chunk_has(chars@, lo, hi, c) {
                    let k2 = choose|k2: int|
                        lo <= k2 < hi && 0 <= k2 < chars@.len() && (#[trigger] chars@[k2]) as int
                            == c;
                    assert(chunk_spans[k2 - pos] == (USpan {
                        start: chars@[k2],
                        end: chars@[k2],
                    }));
                    assert(chunk_spans.contains(chunk_spans[k2 - pos]));
                    assert(chunk_spans[k2 - pos].covers(c));
                    assert(in_spans(chunk_spans, c));
                }
            }
        }
        res.push(built);
        pos = chunk_end;
        proof {
            assert((i + 1) * num == i * num + num) by (nonlinear_arith);
            assert(res@.len() == i + 1);
            assert(res@.len() * num >= pos);
            assert forall|i2: int, c: int|
                #![trigger res@[i2].covers(c)]
                0 <= i2 < res@.len() implies (res@[i2].covers(c) <==> chunk_has(
                chars@,
                i2 * num,
                if (i2 + 1) * num < chars@.len() {
                    (i2 + 1) * num
                } else {
                    chars@.len() as int
                },
                c,
            )) by {
                if i2 < i {
                } else {
                    assert(res@[i2] == built);
                }
            }
        }
    }
    proof {
        if chars@.len() == 0 {
            assert(chunk_count(0, num as int) == 0);
        } else {
            lemma_chunk_count(res@.len() as int, chars@.len() as int, num as int);
        }
    }
    res
}

/// A run of full buckets and one final partial or full bucket cover a
/// sequence exactly when the count is the rounded-up quotient.
proof fn lemma_chunk_count(nres: int, len: int, num: int)
    requires
        num >= 1,
        len > 0,
        // every bucket but the last is full; the last ends at `len`
        nres >= 1,
        (nres - 1) * num < len,
        len <= nres * num,
    ensures
        nres == chunk_count(len, num),
{
    assert(nres == chunk_count(len, num)) by (nonlinear_arith)
        requires
            num >= 1,
            len > 0,
            nres >= 1,
            (nres - 1) * num < len,
            len <= nres * num,
            chunk_count(len, num) == if len % num == 0 {
                len / num
            } else {
                len / num + 1
            },
    ;
}

} // verus!

verus! {

/// How many pages contain `c`.
pub open spec fn pages_count(pages: Seq<Page>, c: u32) -> int
    decreases pages.len(),
{
    if pages.len() == 0 {
        0
    } else {
        (if pages[0].has(c) {
            1int
        } else {
            0int
        }) + pages_count(pages.skip(1), c)
    }
}

proof fn lemma_pages_count_range(pages: Seq<Page>, c: u32)
    ensures
        0 <= pages_count(pages, c) <= pages.len(),
    decreases pages.len(),
{
    if pages.len() > 0 {
        lemma_pages_count_range(pages.skip(1), c);
    }
}

fn count_pages(pages: &Vec<Page>, c: u32) -> (r: usize)
    ensures
        r == pages_count(pages@, c),
    decreases pages@.len(),
{
    let mut n: usize = 0;
    let mut i: usize = 0;
    let ghost all: Seq<Page> = pages@;
    proof {
        assert(all.skip(0) =~= all);
    }
    while i < pages.len()
        invariant
            i <= all.len(),
            pages@ == all,
            n <= i,
            pages_count(all, c) == n + pages_count(all.skip(i as int), c),
        decreases all.len() - i,
    {
        proof {
            assert(all.skip(i as int)[0] == all[i as int]);
            assert(all.skip(i as int).skip(1) =~= all.skip(i + 1));
            lemma_pages_count_range(all.skip(i + 1), c);
        }
        if contains_u32(pages[i].as_codepoints(), c) {
            n = n + 1;
        }
        i = i + 1;
    }
    proof {
        assert(all.skip(all.len() as int) =~= Seq::<Page>::empty());
    }
    n
}

fn contains_u32(v: &Vec<u32>, x: u32) -> (r: bool)
    ensures
        r == v@.contains(x),
{
    let mut i: usize = 0;
    while i < v.len()
        invariant
            i <= v@.len(),
            forall|k: int| 0 <= k < i ==> (#[trigger] v@[k]) != x,
        decreases v@.len() - i,
    {
        if v[i] == x {
            proof {
                assert(v@[i as int] == x);
            }
            return true;
        }
        i = i + 1;
    }
    proof {
        if v@.contains(x) {
            let k = choose|k: int| 0 <= k < v@.len() && v@[k] == x;
        }
    }
    false
}

/// The last position of `c`, or `-1`.
pub open spec fn last_index(s: Seq<u32>, c: u32) -> int
    decreases s.len(),
{
    if s.len() == 0 {
        -1
    } else if s.last() == c {
        s.len() - 1
    } else {
        last_index(s.drop_last(), c)
    }
}

proof fn lemma_last_index_range(s: Seq<u32>, c: u32)
    ensures
        -1 <= last_index(s, c) < s.len(),
        last_index(s, c) >= 0 ==> s[last_index(s, c)] == c,
        last_index(s, c) == -1 ==> !s.contains(c),
    decreases s.len(),
{
    if s.len() > 0 && s.last() != c {
        lemma_last_index_range(s.drop_last(), c);
        if last_index(s, c) == -1 {
            if s.contains(c) {
                let k = choose|k: int| 0 <= k < s.len() && s[k] == c;
                assert(s.drop_last()[k] == c);
            }
        }
    }
}

fn find_last(v: &Vec<u32>, c: u32) -> (r: Option<usize>)
    ensures
        last_index(v@, c) == -1 ==> r is None,
        last_index(v@, c) >= 0 ==> r == Some(last_index(v@, c) as usize),
    decreases v@.len(),
{
    let mut i: usize = v.len();
    proof {
        assert(v@.take(v@.len() as int) =~= v@);
    }
    while i > 0
        invariant
            i <= v@.len(),
            last_index(v@, c) == last_index(v@.take(i as int), c),
        decreases i,
    {
        proof {
            assert(v@.take(i as int).last() == v@[i - 1]);
            assert(v@.take(i as int).drop_last() =~= v@.take(i - 1));
        }
        if v[i - 1] == c {
            proof {
                assert(last_index(v@.take(i as int), c) == i - 1);
            }
            return Some(i - 1);
        }
        i = i - 1;
    }
    proof {
        assert(v@.take(0) =~= Seq::<u32>::empty());
    }
    None
}

/// Frequency entries kept when a character base is present: those in the
/// base, in frequency order.
pub open spec fn keep_in(freq: Seq<u32>, base: Seq<u32>) -> Seq<u32>
    decreases freq.len(),
{
    if freq.len() == 0 {
        Seq::empty()
    } else if base.contains(freq[0]) {
        seq![freq[0]] + keep_in(freq.skip(1), base)
    } else {
        keep_in(freq.skip(1), base)
    }
}

fn filter_in(freq: &Vec<u32>, base: &Vec<u32>) -> (r: Vec<u32>)
    ensures
        r@ == keep_in(freq@, base@),
{
    let mut out: Vec<u32> = Vec::new();
    let mut i: usize = 0;
    proof {
        assert(freq@.skip(0) =~= freq@);
        assert(keep_in(freq@, base@) =~= Seq::<u32>::empty() + keep_in(freq@.skip(0), base@));
    }
    while i < freq.len()
        invariant
            i <= freq@.len(),
            keep_in(freq@, base@) == out@ + keep_in(freq@.skip(i as int), base@),
        decreases freq@.len() - i,
    {
        let c: u32 = freq[i];
        proof {
            assert(freq@.skip(i as int)[0] == c);
            assert(freq@.skip(i as int).skip(1) =~= freq@.skip(i + 1));
        }
        if contains_u32(base, c) {
            out.push(c);
            proof {
                assert(keep_in(freq@.skip(i as int), base@) == seq![c] + keep_in(
                    freq@.skip(i + 1),
                    base@,
                ));
                assert(keep_in(freq@, base@) =~= out@ + keep_in(freq@.skip(i + 1), base@));
            }
        } else {
            proof {
                assert(keep_in(freq@.skip(i as int), base@) == keep_in(freq@.skip(i + 1), base@));
            }
        }
        i = i + 1;
    }
    proof {
        assert(freq@.skip(freq@.len() as int) =~= Seq::<u32>::empty());
        assert(keep_in(freq@, base@) =~= out@);
    }
    out
}

/// The frequency entries kept from the configured sources.
pub open spec fn effective_freq(freq: Option<Seq<u32>>, base: Option<Seq<u32>>) -> Seq<u32> {
    match freq {
        None => Seq::empty(),
        Some(f) => match base {
            None => f,
            Some(b) => keep_in(f, b),
        },
    }
}

/// The seed-then-demote score of the usage-driven ordering: characters of
/// `U+0000..=U+00FF` come first of all; a character seen on `n > 0` pages
/// scores its seed capped at zero minus `n`; otherwise its seed — the last
/// position in the kept frequency list, or the maximum for base characters
/// outside it.
pub open spec fn usage_score(
    c: u32,
    ff: Seq<u32>,
    pages: Seq<Page>,
) -> int {
    if c <= 0xFF {
        i64::MIN as int
    } else {
        let li = last_index(ff, c);
        let seed: int = if li >= 0 {
            li
        } else {
            i64::MAX as int
        };
        let n = pages_count(pages, c);
        if n == 0 {
            seed
        } else {
            (if seed < 0 {
                seed
            } else {
                0
            }) - n
        }
    }
}

proof fn lemma_usage_score_range(c: u32, ff: Seq<u32>, pages: Seq<Page>)
    requires
        ff.len() <= 0x7FFF_0000,
        pages.len() <= 0x7FFF_0000,
    ensures
        i64::MIN <= usage_score(c, ff, pages) <= i64::MAX,
{
    lemma_last_index_range(ff, c);
    lemma_pages_count_range(pages, c);
}

/// Strictly ordered by `(score, code point)`.
pub open spec fn sorted_by_usage(order: Seq<u32>, ff: Seq<u32>, pages: Seq<Page>) -> bool {
    forall|i: int, j: int|
        0 <= i < j < order.len() ==> (usage_score(#[trigger] order[i], ff, pages) < usage_score(
            #[trigger] order[j],
            ff,
            pages,
        ) || (usage_score(order[i], ff, pages) == usage_score(order[j], ff, pages) && order[i]
            < order[j]))
}

/// Orders the domain by the usage score. The domain is the character base
/// when one is configured, else the distinct frequency characters.
pub fn usage_order(
    pages: &Vec<Page>,
    char_freq: Option<&Vec<u32>>,
    char_base: Option<&Vec<u32>>,
) -> (r: Vec<u32>)
    requires
        pages@.len() <= 0x7FFF_0000,
        char_freq matches Some(f) ==> f@.len() <= 0x7FFF_0000,
        char_freq is Some || char_base is Some,
    ensures
        sorted_by_usage(r@, effective_freq(opt_view(char_freq), opt_view(char_base)), pages@),
        forall|c: u32| r@.contains(c) <==> domain_of(char_base, char_freq).contains(c),
{
    let ff: Vec<u32> = match char_freq {
        Some(f) => match char_base {
            Some(b) => filter_in(f, b),
            None => {
                let mut copy: Vec<u32> = Vec::new();
                let mut i: usize = 0;
                while i < f.len()
                    invariant
                        i <= f@.len(),
                        copy@ == f@.take(i as int),
                    decreases f@.len() - i,
                {
                    copy.push(f[i]);
                    proof {
                        assert(f@.take(i + 1) =~= f@.take(i as int).push(f@[i as int]));
                    }
                    i = i + 1;
                }
                proof {
                    assert(f@.take(f@.len() as int) =~= f@);
                }
                copy
            },
        },
        None => Vec::new(),
    };
    proof {
        assert(ff@ == effective_freq(opt_view(char_freq), opt_view(char_base)));
        lemma_keep_in_len(
            match char_freq {
                Some(f) => f@,
                None => Seq::empty(),
            },
            match char_base {
                Some(b) => b@,
                None => Seq::empty(),
            },
        );
    }
    let domain: Vec<u32> = match char_base {
        Some(b) => {
            let mut copy: Vec<u32> = Vec::new();
            let mut i: usize = 0;
            while i < b.len()
                invariant
                    i <= b@.len(),
                    copy@ == b@.take(i as int),
                decreases b@.len() - i,
            {
                copy.push(b[i]);
                proof {
                    assert(b@.take(i + 1) =~= b@.take(i as int).push(b@[i as int]));
                }
                i = i + 1;
            }
            proof {
                assert(b@.take(b@.len() as int) =~= b@);
            }
            sort_unique(copy)
        },
        None => match char_freq {
            Some(f) => {
                let mut copy: Vec<u32> = Vec::new();
                let mut i: usize = 0;
                while i < f.len()
                    invariant
                        i <= f@.len(),
                        copy@ == f@.take(i as int),
                    decreases f@.len() - i,
                {
                    copy.push(f[i]);
                    proof {
                        assert(f@.take(i + 1) =~= f@.take(i as int).push(f@[i as int]));
                    }
                    i = i + 1;
                }
                proof {
                    assert(f@.take(f@.len() as int) =~= f@);
                }
                sort_unique(copy)
            },
            None => Vec::new(),
        },
    };
    let ghost ffs: Seq<u32> = ff@;
    let mut pairs: Vec<(i64, u32)> = Vec::new();
    let mut i: usize = 0;
    while i < domain.len()
        invariant
            i <= domain@.len(),
            strictly_ascending(domain@),
            ffs == ff@,
            ff@.len() <= 0x7FFF_0000,
            pages@.len() <= 0x7FFF_0000,
            pairs@.len() == i,
            forall|k: int|
                0 <= k < i ==> (#[trigger] pairs@[k]) == (
                    usage_score(domain@[k], ffs, pages@) as i64,
                    domain@[k],
                ),
        decreases domain@.len() - i,
    {
        let c: u32 = domain[i];
        let score: i64 = if c <= 0xFF {
            i64::MIN
        } else {
            let seed: i64 = match find_last(&ff, c) {
                Some(li) => {
                    proof {
                        lemma_last_index_range(ff@, c);
                    }
                    li as i64
                },
                None => {
                    proof {
                        lemma_last_index_range(ff@, c);
                    }
                    i64::MAX
                },
            };
            let n: usize = count_pages(pages, c);
            proof {
                lemma_pages_count_range(pages@, c);
            }
            if n == 0 {
                seed
            } else {
                let capped: i64 = if seed < 0 {
                    seed
                } else {
                    0
                };
                capped - n as i64
            }
        };
        pairs.push((score, c));
        i = i + 1;
    }
    proof {
        assert forall|a: int, b2: int| 0 <= a < b2 < pairs@.len() implies (#[trigger] pairs@[a]).1
            != (#[trigger] pairs@[b2]).1 by {
            assert(domain@[a] < domain@[b2]);
        }
    }
    let order: Vec<u32> = order_pairs(pairs);
    proof {
        assert forall|a: int, b2: int| 0 <= a < b2 < order@.len() implies (usage_score(
            #[trigger] order@[a],
            ffs,
            pages@,
        ) < usage_score(#[trigger] order@[b2], ffs, pages@) || (usage_score(order@[a], ffs, pages@)
            == usage_score(order@[b2], ffs, pages@) && order@[a] < order@[b2])) by {
            let pa = (score_of(pairs@, order@[a]), order@[a]);
            let pb = (score_of(pairs@, order@[b2]), order@[b2]);
            assert(pairs@.contains(pa));
            assert(pairs@.contains(pb));
            let ka = choose|ka: int| 0 <= ka < pairs@.len() && pairs@[ka] == pa;
            let kb = choose|kb: int| 0 <= kb < pairs@.len() && pairs@[kb] == pb;
            lemma_usage_score_range(order@[a], ffs, pages@);
            lemma_usage_score_range(order@[b2], ffs, pages@);
            assert(pa.0 == usage_score(domain@[ka], ffs, pages@) as i64);
            assert(pa.0 == usage_score(order@[a], ffs, pages@));
            assert(pb.0 == usage_score(order@[b2], ffs, pages@));
        }
        assert forall|c: u32| order@.contains(c) <==> domain_of(char_base, char_freq).contains(
            c,
        ) by {
            if order@.contains(c) {
                let p = choose|p: (i64, u32)| pairs@.contains(p) && p.1 == c;
                let k = choose|k: int| 0 <= k < pairs@.len() && pairs@[k] == p;
                assert(domain@[k] == c);
                assert(domain@.contains(c));
            }
            if (match char_base {
                Some(b) => b@.contains(c),
                None => match char_freq {
                    Some(f) => f@.contains(c),
                    None => false,
                },
            }) {
                assert(domain@.contains(c));
                let k = choose|k: int| 0 <= k < domain@.len() && domain@[k] == c;
                assert(pairs@[k].1 == c);
                assert(pairs@.contains(pairs@[k]));
            }
        }
    }
    order
}

proof fn lemma_keep_in_len(freq: Seq<u32>, base: Seq<u32>)
    ensures
        keep_in(freq, base).len() <= freq.len(),
    decreases freq.len(),
{
    if freq.len() > 0 {
        lemma_keep_in_len(freq.skip(1), base);
    }
}

/// The score paired with `c` in the list; zero when absent.
pub open spec fn score_of(pairs: Seq<(i64, u32)>, c: u32) -> i64
    decreases pairs.len(),
{
    if pairs.len() == 0 {
        0i64
    } else if pairs[0].1 == c {
        pairs[0].0
    } else {
        score_of(pairs.skip(1), c)
    }
}

proof fn lemma_score_of_contains(pairs: Seq<(i64, u32)>, p: (i64, u32))
    requires
        forall|a: int, b: int|
            0 <= a < b < pairs.len() ==> (#[trigger] pairs[a]).1 != (#[trigger] pairs[b]).1,
        pairs.contains(p),
    ensures
        score_of(pairs, p.1) == p.0,
    decreases pairs.len(),
{
    if pairs.len() > 0 {
        if pairs[0] == p {
            assert(pairs[0].1 == p.1);
        } else {
            assert(pairs[0].1 != p.1) by {
                let k = choose|k: int| 0 <= k < pairs.len() && pairs[k] == p;
                assert(k > 0);
            }
            let k = choose|k: int| 0 <= k < pairs.len() && pairs[k] == p;
            assert(pairs.skip(1)[k - 1] == p);
            assert(pairs.skip(1).contains(p));
            assert(forall|a: int, b: int|
                0 <= a < b < pairs.skip(1).len() ==> (#[trigger] pairs.skip(1)[a]).1 != (
                #[trigger] pairs.skip(1)[b]).1);
            lemma_score_of_contains(pairs.skip(1), p);
        }
    }
}

/// Sorts the pairs by `(score, code point)` and returns the code points;
/// each keeps the score it was paired with.
fn order_pairs(pairs: Vec<(i64, u32)>) -> (r: Vec<u32>)
    requires
        forall|a: int, b: int|
            0 <= a < b < pairs@.len() ==> (#[trigger] pairs@[a]).1 != (#[trigger] pairs@[b]).1,
    ensures
        r@.len() == pairs@.len(),
        forall|c: u32|
            r@.contains(c) <==> exists|p: (i64, u32)| pairs@.contains(p) && p.1 == c,
        forall|i: int|
            0 <= i < r@.len() ==> pairs@.contains(
                (score_of(pairs@, #[trigger] r@[i]), r@[i]),
            ),
        forall|i: int, j: int|
            0 <= i < j < r@.len() ==> (score_of(pairs@, #[trigger] r@[i]) < score_of(
                pairs@,
                #[trigger] r@[j],
            ) || (score_of(pairs@, r@[i]) == score_of(pairs@, r@[j]) && r@[i] < r@[j])),
{
    let ghost orig: Seq<(i64, u32)> = pairs@;
    let mut sorted: Vec<(i64, u32)> = pairs;
    sort_pairs(&mut sorted);
    proof {
        assert forall|p: (i64, u32)| sorted@.contains(p) <==> orig.contains(p) by {
            vstd::seq_lib::to_multiset_contains(sorted@, p);
            vstd::seq_lib::to_multiset_contains(orig, p);
        }
        orig.lemma_multiset_has_no_duplicates();
        sorted@.lemma_multiset_has_no_duplicates_conv();
        assert(orig.no_duplicates()) by {
            assert forall|a: int, b: int| 0 <= a < b < orig.len() implies orig[a] != orig[b] by {
                assert(orig[a].1 != orig[b].1);
            }
        }
        assert(sorted@.no_duplicates());
        assert forall|a: int, b: int| 0 <= a < b < sorted@.len() implies (
        #[trigger] sorted@[a]).1 != (#[trigger] sorted@[b]).1 by {
            if sorted@[a].1 == sorted@[b].1 {
                assert(pair_le(sorted@[a], sorted@[b]));
                assert(pair_le(sorted@[b], sorted@[a]) || sorted@[a].0 < sorted@[b].0);
                if sorted@[a].0 == sorted@[b].0 {
                    assert(sorted@[a] == sorted@[b]);
                    assert(false);
                } else {
                    // scores differ for one code point: both pairs sit in the
                    // original list, which pairs each code point once
                    assert(sorted@.contains(sorted@[a]));
                    assert(sorted@.contains(sorted@[b]));
                    assert(orig.contains(sorted@[a]));
                    assert(orig.contains(sorted@[b]));
                    let ka = choose|ka: int| 0 <= ka < orig.len() && orig[ka] == sorted@[a];
                    let kb = choose|kb: int| 0 <= kb < orig.len() && orig[kb] == sorted@[b];
                    assert(ka != kb);
                    if ka < kb {
                        assert(orig[ka].1 != orig[kb].1);
                    } else if kb < ka {
                        assert(orig[kb].1 != orig[ka].1);
                    }
                    assert(false);
                }
            }
        }
    }
    let mut out: Vec<u32> = Vec::new();
    let mut i: usize = 0;
    while i < sorted.len()
        invariant
            i <= sorted@.len(),
            out@.len() == i,
            forall|k: int| 0 <= k < i ==> (#[trigger] out@[k]) == sorted@[k].1,
        decreases sorted@.len() - i,
    {
        let p: (i64, u32) = sorted[i];
        out.push(p.1);
        i = i + 1;
    }
    proof {
        assert forall|c: u32|
            out@.contains(c) <==> exists|p: (i64, u32)| orig.contains(p) && p.1 == c by {
            if out@.contains(c) {
                let k = choose|k: int| 0 <= k < out@.len() && out@[k] == c;
                assert(sorted@.contains(sorted@[k]));
                assert(orig.contains(sorted@[k]) && sorted@[k].1 == c);
            }
            if exists|p: (i64, u32)| orig.contains(p) && p.1 == c {
                let p = choose|p: (i64, u32)| orig.contains(p) && p.1 == c;
                assert(sorted@.contains(p));
                let k = choose|k: int| 0 <= k < sorted@.len() && sorted@[k] == p;
                assert(out@[k] == c);
            }
        }
        assert forall|i2: int| 0 <= i2 < out@.len() implies orig.contains(
            (score_of(orig, #[trigger] out@[i2]), out@[i2]),
        ) by {
            let p = sorted@[i2];
            assert(sorted@.contains(p));
            assert(orig.contains(p));
            lemma_score_of_contains(orig, p);
            assert((score_of(orig, out@[i2]), out@[i2]) == p);
        }
        assert forall|i2: int, j2: int| 0 <= i2 < j2 < out@.len() implies (score_of(
            orig,
            #[trigger] out@[i2],
        ) < score_of(orig, #[trigger] out@[j2]) || (score_of(orig, out@[i2]) == score_of(
            orig,
            out@[j2],
        ) && out@[i2] < out@[j2])) by {
            let pa = sorted@[i2];
            let pb = sorted@[j2];
            assert(pair_le(pa, pb));
            assert(pa.1 != pb.1);
            assert(sorted@.contains(pa) && sorted@.contains(pb));
            assert(orig.contains(pa) && orig.contains(pb));
            lemma_score_of_contains(orig, pa);
            lemma_score_of_contains(orig, pb);
        }
    }
    out
}

} // verus!

verus! {

/// The view of an optional character list.
pub open spec fn opt_view(v: Option<&Vec<u32>>) -> Option<Seq<u32>> {
    match v {
        Some(x) => Some(x@),
        None => None,
    }
}

/// The scored domain: the base when present, else the frequency list.
pub open spec fn domain_of(base: Option<&Vec<u32>>, freq: Option<&Vec<u32>>) -> Seq<u32> {
    match base {
        Some(b) => b@,
        None => match freq {
            Some(f) => f@,
            None => Seq::empty(),
        },
    }
}

/// All pages' characters, page by page.
pub open spec fn pages_concat(pages: Seq<Page>) -> Seq<u32>
    decreases pages.len(),
{
    if pages.len() == 0 {
        Seq::empty()
    } else {
        pages[0].chars_view() + pages_concat(pages.skip(1))
    }
}

proof fn lemma_pages_concat_contains(pages: Seq<Page>, c: u32)
    ensures
        pages_concat(pages).contains(c) <==> on_some_page(pages, c),
    decreases pages.len(),
{
    if pages.len() > 0 {
        lemma_pages_concat_contains(pages.skip(1), c);
        let head = pages[0].chars_view();
        let tail = pages_concat(pages.skip(1));
        if pages_concat(pages).contains(c) {
            let j = choose|j: int|
                0 <= j < pages_concat(pages).len() && pages_concat(pages)[j] == c;
            if j < head.len() {
                assert(head[j] == c);
                assert(pages[0].has(c));
                assert(on_some_page(pages, c));
            } else {
                assert(tail[j - head.len()] == c);
                assert(tail.contains(c));
                let k = choose|k: int|
                    0 <= k < pages.skip(1).len() && (#[trigger] pages.skip(1)[k]).has(c);
                assert(pages[k + 1].has(c));
                assert(on_some_page(pages, c));
            }
        }
        if on_some_page(pages, c) {
            let k = choose|k: int| 0 <= k < pages.len() && (#[trigger] pages[k]).has(c);
            if k == 0 {
                let j = choose|j: int| 0 <= j < head.len() && head[j] == c;
                assert(pages_concat(pages)[j] == c);
            } else {
                assert(pages.skip(1)[k - 1].has(c));
                assert(on_some_page(pages.skip(1), c));
                let j = choose|j: int| 0 <= j < tail.len() && tail[j] == c;
                assert(pages_concat(pages)[head.len() + j] == c);
            }
        }
    }
}

/// `c` appears on some page.
pub open spec fn on_some_page(pages: Seq<Page>, c: u32) -> bool {
    exists|k: int| 0 <= k < pages.len() && (#[trigger] pages[k]).has(c)
}

proof fn lemma_pages_count_positive(pages: Seq<Page>, c: u32)
    ensures
        pages_count(pages, c) > 0 <==> on_some_page(pages, c),
    decreases pages.len(),
{
    if pages.len() > 0 {
        lemma_pages_count_positive(pages.skip(1), c);
        lemma_pages_count_range(pages.skip(1), c);
        if pages[0].has(c) {
            assert(on_some_page(pages, c));
        } else {
            if on_some_page(pages.skip(1), c) {
                let k = choose|k: int|
                    0 <= k < pages.skip(1).len() && (#[trigger] pages.skip(1)[k]).has(c);
                assert(pages[k + 1].has(c));
            }
            if on_some_page(pages, c) {
                let k = choose|k: int| 0 <= k < pages.len() && (#[trigger] pages[k]).has(c);
                assert(k > 0);
                assert(pages.skip(1)[k - 1].has(c));
            }
        }
    }
}

/// Strictly ordered by page-usage count, most used first.
pub open spec fn sorted_by_pages(order: Seq<u32>, pages: Seq<Page>) -> bool {
    forall|i: int, j: int|
        0 <= i < j < order.len() ==> (pages_count(pages, #[trigger] order[i]) > pages_count(
            pages,
            #[trigger] order[j],
        ) || (pages_count(pages, order[i]) == pages_count(pages, order[j]) && order[i]
            < order[j]))
}

/// Buckets the characters seen on the pages, most used first.
pub fn case_with_pages_only(num: usize, pages: &Vec<Page>) -> (r: Vec<URange>)
    requires
        num >= 1,
        pages@.len() <= 0x7FFF_0000,
    ensures
        exists|ord: Seq<u32>|
            {
                &&& sorted_by_pages(ord, pages@)
                &&& (forall|c: u32| ord.contains(c) <==> on_some_page(pages@, c))
                &&& #[trigger] is_partition_of(r@, ord, num as int)
            },
{
    let mut all: Vec<u32> = Vec::new();
    let mut i: usize = 0;
    proof {
        assert(pages@.skip(0) =~= pages@);
        assert(all@ + pages_concat(pages@.skip(0)) =~= pages_concat(pages@));
    }
    while i < pages.len()
        invariant
            i <= pages@.len(),
            all@ + pages_concat(pages@.skip(i as int)) == pages_concat(pages@),
        decreases pages@.len() - i,
    {
        let ghost pre: Seq<u32> = all@;
        let p: &Vec<u32> = pages[i].as_codepoints();
        proof {
            assert(pages@.skip(i as int)[0] == pages@[i as int]);
            assert(pages@.skip(i as int).skip(1) =~= pages@.skip(i + 1));
            assert(pages_concat(pages@.skip(i as int)) == pages@[i as int].chars_view()
                + pages_concat(pages@.skip(i + 1)));
        }
        let mut k: usize = 0;
        while k < p.len()
            invariant
                k <= p@.len(),
                p@ == pages@[i as int].chars_view(),
                all@ == pre + p@.take(k as int),
            decreases p@.len() - k,
        {
            all.push(p[k]);
            proof {
                assert(p@.take(k + 1) =~= p@.take(k as int).push(p@[k as int]));
                assert(all@ =~= pre + p@.take(k + 1));
            }
            k = k + 1;
        }
        proof {
            assert(p@.take(p@.len() as int) =~= p@);
            assert(all@ + pages_concat(pages@.skip(i + 1)) =~= pages_concat(pages@));
        }
        i = i + 1;
    }
    proof {
        assert(pages@.skip(pages@.len() as int) =~= Seq::<Page>::empty());
        assert(all@ =~= pages_concat(pages@));
        assert forall|c: u32| all@.contains(c) <==> on_some_page(pages@, c) by {
            lemma_pages_concat_contains(pages@, c);
        }
    }
    let domain: Vec<u32> = sort_unique(all);
    let ghost pview: Seq<Page> = pages@;
    let mut pairs: Vec<(i64, u32)> = Vec::new();
    let mut d: usize = 0;
    while d < domain.len()
        invariant
            d <= domain@.len(),
            strictly_ascending(domain@),
            pview == pages@,
            pages@.len() <= 0x7FFF_0000,
            pairs@.len() == d,
            forall|k: int|
                0 <= k < d ==> (#[trigger] pairs@[k]) == (
                    (-1 * pages_count(pview, domain@[k])) as i64,
                    domain@[k],
                ),
        decreases domain@.len() - d,
    {
        let c: u32 = domain[d];
        let n: usize = count_pages(pages, c);
        proof {
            lemma_pages_count_range(pages@, c);
        }
        let score: i64 = -1i64 * (n as i64);
        pairs.push((score, c));
        d = d + 1;
    }
    proof {
        assert forall|a: int, b2: int| 0 <= a < b2 < pairs@.len() implies (#[trigger] pairs@[a]).1
            != (#[trigger] pairs@[b2]).1 by {
            assert(domain@[a] < domain@[b2]);
        }
    }
    let order: Vec<u32> = order_pairs(pairs);
    let r: Vec<URange> = do_partition(&order, num);
    proof {
        assert forall|a: int, b2: int| 0 <= a < b2 < order@.len() implies (pages_count(
            pview,
            #[trigger] order@[a],
        ) > pages_count(pview, #[trigger] order@[b2]) || (pages_count(pview, order@[a])
            == pages_count(pview, order@[b2]) && order@[a] < order@[b2])) by {
            let pa = (score_of(pairs@, order@[a]), order@[a]);
            let pb = (score_of(pairs@, order@[b2]), order@[b2]);
            assert(pairs@.contains(pa));
            assert(pairs@.contains(pb));
            let ka = choose|ka: int| 0 <= ka < pairs@.len() && pairs@[ka] == pa;
            let kb = choose|kb: int| 0 <= kb < pairs@.len() && pairs@[kb] == pb;
            lemma_pages_count_range(pview, order@[a]);
            lemma_pages_count_range(pview, order@[b2]);
            assert(pa.0 == -1 * pages_count(pview, order@[a]));
            assert(pb.0 == -1 * pages_count(pview, order@[b2]));
        }
        assert forall|c: u32| order@.contains(c) <==> on_some_page(pages@, c) by {
            if order@.contains(c) {
                let p = choose|p: (i64, u32)| pairs@.contains(p) && p.1 == c;
                let k = choose|k: int| 0 <= k < pairs@.len() && pairs@[k] == p;
                assert(domain@.contains(domain@[k]));
            }
            if on_some_page(pages@, c) {
                assert(domain@.contains(c));
                let k = choose|k: int| 0 <= k < domain@.len() && domain@[k] == c;
                assert(pairs@[k].1 == c);
                assert(pairs@.contains(pairs@[k]));
            }
        }
        assert(sorted_by_pages(order@, pages@));
        assert(is_partition_of(r@, order@, num as int));
    }
    r
}

/// Buckets the base or frequency characters by the usage score.
pub fn case_with_pages_generic(
    num: usize,
    pages: &Vec<Page>,
    char_freq: Option<&Vec<u32>>,
    char_base: Option<&Vec<u32>>,
) -> (r: Vec<URange>)
    requires
        num >= 1,
        pages@.len() <= 0x7FFF_0000,
        char_freq matches Some(f) ==> f@.len() <= 0x7FFF_0000,
        char_freq is Some || char_base is Some,
    ensures
        exists|ord: Seq<u32>|
            {
                &&& sorted_by_usage(
                    ord,
                    effective_freq(opt_view(char_freq), opt_view(char_base)),
                    pages@,
                )
                &&& (forall|c: u32| ord.contains(c) <==> domain_of(char_base, char_freq).contains(
                    c,
                ))
                &&& #[trigger] is_partition_of(r@, ord, num as int)
            },
{
    let order: Vec<u32> = usage_order(pages, char_freq, char_base);
    let r: Vec<URange> = do_partition(&order, num);
    proof {
        assert(sorted_by_usage(
            order@,
            effective_freq(opt_view(char_freq), opt_view(char_base)),
            pages@,
        ));
        assert(forall|c: u32| order@.contains(c) <==> domain_of(char_base, char_freq).contains(c));
        assert(is_partition_of(r@, order@, num as int));
    }
    r
}

/// Frequency characters alone, most frequent first.
pub fn case_with_charfreq_only(num: usize, char_freq: &Vec<u32>) -> (r: Vec<URange>)
    requires
        num >= 1,
    ensures
        is_partition_of(r@, char_freq@, num as int),
{
    do_partition(char_freq, num)
}

/// Characters not in any excluded position.
pub open spec fn keep_not_in(base: Seq<u32>, excl: Seq<u32>) -> Seq<u32>
    decreases base.len(),
{
    if base.len() == 0 {
        Seq::empty()
    } else if excl.contains(base[0]) {
        keep_not_in(base.skip(1), excl)
    } else {
        seq![base[0]] + keep_not_in(base.skip(1), excl)
    }
}

/// Frequency entries restricted to the base, in frequency order with
/// repeats dropped.
pub open spec fn freq_then_base(freq: Seq<u32>, base: Seq<u32>, seen: Seq<u32>) -> Seq<u32>
    decreases freq.len(),
{
    if freq.len() == 0 {
        Seq::empty()
    } else if base.contains(freq[0]) && !seen.contains(freq[0]) {
        seq![freq[0]] + freq_then_base(freq.skip(1), base, seen.push(freq[0]))
    } else {
        freq_then_base(freq.skip(1), base, seen)
    }
}

/// Base characters in frequency order first, the rest of the base in
/// ascending code-point order after.
pub fn freq_base_order(char_freq: &Vec<u32>, char_base: &Vec<u32>) -> (r: Vec<u32>)
    ensures
        ({
            let first = freq_then_base(char_freq@, char_base@, Seq::empty());
            exists|rest: Seq<u32>|
                {
                    &&& strictly_ascending(rest)
                    &&& (forall|c: u32|
                        rest.contains(c) <==> (char_base@.contains(c) && !first.contains(c)))
                    &&& #[trigger] r@ == first + rest
                }
        }),
{
    let mut first: Vec<u32> = Vec::new();
    let mut i: usize = 0;
    let ghost whole: Seq<u32> = freq_then_base(char_freq@, char_base@, Seq::empty());
    proof {
        assert(char_freq@.skip(0) =~= char_freq@);
        assert(first@ =~= Seq::<u32>::empty());
        assert(whole =~= Seq::<u32>::empty() + freq_then_base(
            char_freq@.skip(0),
            char_base@,
            first@,
        ));
    }
    while i < char_freq.len()
        invariant
            i <= char_freq@.len(),
            whole == freq_then_base(char_freq@, char_base@, Seq::empty()),
            whole == first@ + freq_then_base(char_freq@.skip(i as int), char_base@, first@),
        decreases char_freq@.len() - i,
    {
        let c: u32 = char_freq[i];
        proof {
            assert(char_freq@.skip(i as int)[0] == c);
            assert(char_freq@.skip(i as int).skip(1) =~= char_freq@.skip(i + 1));
        }
        let ghost pre_first: Seq<u32> = first@;
        if contains_u32(char_base, c) && !contains_u32(&first, c) {
            first.push(c);
            proof {
                assert(freq_then_base(char_freq@.skip(i as int), char_base@, pre_first)
                    == seq![c] + freq_then_base(
                    char_freq@.skip(i + 1),
                    char_base@,
                    pre_first.push(c),
                ));
                assert(first@ == pre_first.push(c));
                assert(whole =~= first@ + freq_then_base(
                    char_freq@.skip(i + 1),
                    char_base@,
                    first@,
                ));
            }
        } else {
            proof {
                assert(freq_then_base(char_freq@.skip(i as int), char_base@, first@)
                    == freq_then_base(char_freq@.skip(i + 1), char_base@, first@));
            }
        }
        i = i + 1;
    }
    proof {
        assert(char_freq@.skip(char_freq@.len() as int) =~= Seq::<u32>::empty());
        assert(whole =~= first@);
    }
    // the rest of the base, ascending
    let sorted_base: Vec<u32> = {
        let mut copy: Vec<u32> = Vec::new();
        let mut k: usize = 0;
        while k < char_base.len()
            invariant
                k <= char_base@.len(),
                copy@ == char_base@.take(k as int),
            decreases char_base@.len() - k,
        {
            copy.push(char_base[k]);
            proof {
                assert(char_base@.take(k + 1) =~= char_base@.take(k as int).push(
                    char_base@[k as int],
                ));
            }
            k = k + 1;
        }
        proof {
            assert(char_base@.take(char_base@.len() as int) =~= char_base@);
        }
        sort_unique(copy)
    };
    let mut rest: Vec<u32> = Vec::new();
    let mut k: usize = 0;
    let ghost mut last_k: int = -1;
    while k < sorted_base.len()
        invariant
            k <= sorted_base@.len(),
            strictly_ascending(sorted_base@),
            forall|c: u32| sorted_base@.contains(c) <==> char_base@.contains(c),
            strictly_ascending(rest@),
            forall|c: u32|
                rest@.contains(c) <==> (sorted_base@.take(k as int).contains(c)
                    && !first@.contains(c)),
            rest@.len() == 0 <==> last_k == -1,
            rest@.len() > 0 ==> 0 <= last_k < k && rest@.last() == sorted_base@[last_k],
        decreases sorted_base@.len() - k,
    {
        let c: u32 = sorted_base[k];
        let ghost pre: Seq<u32> = rest@;
        if !contains_u32(&first, c) {
            proof {
                if rest@.len() > 0 {
                    assert(sorted_base@[last_k] < sorted_base@[k as int]);
                }
                last_k = k as int;
            }
            rest.push(c);
            proof {
                assert forall|i2: int, j2: int| 0 <= i2 < j2 < rest@.len() implies (
                #[trigger] rest@[i2]) < (#[trigger] rest@[j2]) by {
                    if j2 == rest@.len() - 1 {
                        if i2 < pre.len() - 1 {
                            assert(pre[i2] < pre[pre.len() - 1]);
                        }
                    }
                }
            }
        }
        proof {
            assert forall|c2: u32|
                rest@.contains(c2) <==> (sorted_base@.take(k + 1).contains(c2) && !first@.contains(
                    c2,
                )) by {
                assert(sorted_base@.take(k + 1) =~= sorted_base@.take(k as int).push(c));
                if rest@.contains(c2) {
                    let j = choose|j: int| 0 <= j < rest@.len() && rest@[j] == c2;
                    if j < pre.len() {
                        assert(pre.contains(c2));
                        let j2 = choose|j2: int|
                            0 <= j2 < k && sorted_base@.take(k as int)[j2] == c2;
                        assert(sorted_base@.take(k + 1)[j2] == c2);
                    } else {
                        assert(c2 == c);
                        assert(sorted_base@.take(k + 1)[k as int] == c);
                    }
                }
                if sorted_base@.take(k + 1).contains(c2) && !first@.contains(c2) {
                    let j = choose|j: int|
                        0 <= j < k + 1 && #[trigger] sorted_base@.take(k + 1)[j] == c2;
                    if j < k {
                        assert(sorted_base@.take(k as int)[j] == c2);
                        assert(pre.contains(c2));
                        if rest@.len() > pre.len() {
                            let j3 = choose|j3: int| 0 <= j3 < pre.len() && pre[j3] == c2;
                            assert(rest@[j3] == c2);
                        }
                    } else {
                        assert(c2 == c);
                        assert(rest@.last() == c);
                    }
                }
            }
        }
        k = k + 1;
    }
    proof {
        assert(sorted_base@.take(sorted_base@.len() as int) =~= sorted_base@);
    }
    let mut out: Vec<u32> = first;
    let ghost rest_snap: Seq<u32> = rest@;
    let mut rest2: Vec<u32> = rest;
    out.append(&mut rest2);
    proof {
        assert(out@ =~= whole + rest_snap);
        assert forall|c: u32|
            rest_snap.contains(c) <==> (char_base@.contains(c) && !whole.contains(c)) by {}
    }
    out
}

/// Buckets base characters: frequency order first, the rest ascending.
pub fn case_with_charfreq_charbase(num: usize, char_freq: &Vec<u32>, char_base: &Vec<u32>) -> (r:
    Vec<URange>)
    requires
        num >= 1,
    ensures
        ({
            let first = freq_then_base(char_freq@, char_base@, Seq::empty());
            exists|rest: Seq<u32>|
                {
                    &&& strictly_ascending(rest)
                    &&& (forall|c: u32|
                        rest.contains(c) <==> (char_base@.contains(c) && !first.contains(c)))
                    &&& #[trigger] is_partition_of(r@, first + rest, num as int)
                }
        }),
{
    let order: Vec<u32> = freq_base_order(char_freq, char_base);
    let r: Vec<URange> = do_partition(&order, num);
    r
}

/// Buckets the base characters in ascending code-point order.
pub fn case_with_charbase(num: usize, char_base: &Vec<u32>) -> (r: Vec<URange>)
    requires
        num >= 1,
    ensures
        exists|ord: Seq<u32>|
            {
                &&& strictly_ascending(ord)
                &&& (forall|c: u32| ord.contains(c) <==> char_base@.contains(c))
                &&& #[trigger] is_partition_of(r@, ord, num as int)
            },
{
    let mut copy: Vec<u32> = Vec::new();
    let mut k: usize = 0;
    while k < char_base.len()
        invariant
            k <= char_base@.len(),
            copy@ == char_base@.take(k as int),
        decreases char_base@.len() - k,
    {
        copy.push(char_base[k]);
        proof {
            assert(char_base@.take(k + 1) =~= char_base@.take(k as int).push(
                char_base@[k as int],
            ));
        }
        k = k + 1;
    }
    proof {
        assert(char_base@.take(char_base@.len() as int) =~= char_base@);
    }
    let order: Vec<u32> = sort_unique(copy);
    let r: Vec<URange> = do_partition(&order, num);
    proof {
        assert(is_partition_of(r@, order@, num as int));
    }
    r
}

/// The bucket size as an integer.
pub open spec fn part_size_of(ps: PartSize) -> int {
    match ps {
        PartSize::Chars(n) => n as int,
    }
}

/// What the partitioner works from.
pub struct AlgorithmContext {
    pub part_size: PartSize,
    pub char_base: Option<Vec<u32>>,
    pub char_freq: Option<Vec<u32>>,
    pub pages: Option<Vec<Page>>,
}

impl AlgorithmContext {
    pub open spec fn wf(&self) -> bool {
        &&& (match self.part_size {
            PartSize::Chars(n) => n >= 1,
        })
        &&& (self.pages matches Some(p) ==> p@.len() <= 0x7FFF_0000)
        &&& (self.char_freq matches Some(f) ==> f@.len() <= 0x7FFF_0000)
        &&& (self.char_base is Some || self.char_freq is Some || self.pages is Some)
    }
}

/// The one bucketing strategy: order by expected demand, then chunk.
pub struct SortByOccurrence;

impl SortByOccurrence {
    /// Accepts a context with at least one character source.
    pub fn new(ctx: &AlgorithmContext) -> (r: Result<SortByOccurrence, PartitionError>)
        ensures
            r is Ok <==> (ctx.char_base is Some || ctx.char_freq is Some || ctx.pages is Some),
    {
        if ctx.char_base.is_none() && ctx.char_freq.is_none() && ctx.pages.is_none() {
            Err(PartitionError::NoInputData)
        } else {
            Ok(SortByOccurrence)
        }
    }
}

/// The view of an optional owned character list.
pub open spec fn opt_seq(v: Option<Vec<u32>>) -> Option<Seq<u32>> {
    match v {
        Some(x) => Some(x@),
        None => None,
    }
}

/// What `partition` promises under a configuration: the score table, case
/// by case, each tying the buckets to an ordering of the configured
/// characters.
pub open spec fn partition_spec(ctx: AlgorithmContext, r: Seq<URange>) -> bool {
    let n = part_size_of(ctx.part_size);
    match (ctx.pages, ctx.char_base, ctx.char_freq) {
        (Some(pages), None, None) => exists|ord: Seq<u32>|
            {
                &&& sorted_by_pages(ord, pages@)
                &&& (forall|c: u32| ord.contains(c) <==> on_some_page(pages@, c))
                &&& #[trigger] is_partition_of(r, ord, n)
            },
        (Some(pages), base, freq) => exists|ord: Seq<u32>|
            {
                &&& sorted_by_usage(ord, effective_freq(opt_seq(freq), opt_seq(base)), pages@)
                &&& (forall|c: u32|
                    ord.contains(c) <==> (match base {
                        Some(b) => b@.contains(c),
                        None => match freq {
                            Some(f) => f@.contains(c),
                            None => false,
                        },
                    }))
                &&& #[trigger] is_partition_of(r, ord, n)
            },
        (None, None, Some(freq)) => is_partition_of(r, freq@, n),
        (None, Some(base), Some(freq)) => exists|rest: Seq<u32>|
            {
                &&& strictly_ascending(rest)
                &&& (forall|c: u32|
                    rest.contains(c) <==> (base@.contains(c) && !freq_then_base(
                        freq@,
                        base@,
                        Seq::empty(),
                    ).contains(c)))
                &&& #[trigger] is_partition_of(
                    r,
                    freq_then_base(freq@, base@, Seq::empty()) + rest,
                    n,
                )
            },
        (None, Some(base), None) => exists|ord: Seq<u32>|
            {
                &&& strictly_ascending(ord)
                &&& (forall|c: u32| ord.contains(c) <==> base@.contains(c))
                &&& #[trigger] is_partition_of(r, ord, n)
            },
        (None, None, None) => false,
    }
}

/// A partitioner bound to its inputs.
pub struct Algorithm {
    ctx: AlgorithmContext,
}

impl Algorithm {
    pub closed spec fn ctx_view(&self) -> AlgorithmContext {
        self.ctx
    }

    /// Accepts a well-formed context with at least one character source.
    pub fn new(ctx: AlgorithmContext) -> (r: Result<Algorithm, PartitionError>)
        requires
            match ctx.part_size {
                PartSize::Chars(n) => n >= 1,
            },
            ctx.pages matches Some(p) ==> p@.len() <= 0x7FFF_0000,
            ctx.char_freq matches Some(f) ==> f@.len() <= 0x7FFF_0000,
        ensures
            r matches Ok(a) ==> a.ctx_view() == ctx && ctx.wf(),
            r is Err <==> !(ctx.char_base is Some || ctx.char_freq is Some || ctx.pages is Some),
    {
        match SortByOccurrence::new(&ctx) {
            Ok(_) => Ok(Algorithm { ctx }),
            Err(e) => Err(e),
        }
    }

    /// Buckets the characters as the configured sources direct: page usage
    /// rules when pages are given; otherwise frequency and base data.
    pub fn partition(&self) -> (r: Vec<URange>)
        requires
            self.ctx_view().wf(),
        ensures
            partition_spec(self.ctx_view(), r@),
    {
        let num: usize = match self.ctx.part_size {
            PartSize::Chars(n) => n,
        };
        let ghost n: int = part_size_of(self.ctx_view().part_size);
        let r: Vec<URange> = match (&self.ctx.pages, &self.ctx.char_base, &self.ctx.char_freq) {
            (Some(pages), None, None) => {
                let r = case_with_pages_only(num, pages);
                proof {
                    let ord = choose|ord: Seq<u32>|
                        {
                            &&& sorted_by_pages(ord, pages@)
                            &&& (forall|c: u32| ord.contains(c) <==> on_some_page(pages@, c))
                            &&& #[trigger] is_partition_of(r@, ord, num as int)
                        };
                    assert(is_partition_of(r@, ord, n));
                }
                r
            },
            (Some(pages), base, freq) => {
                let freq2: Option<&Vec<u32>> = match freq {
                    Some(f) => Some(f),
                    None => None,
                };
                let base2: Option<&Vec<u32>> = match base {
                    Some(b) => Some(b),
                    None => None,
                };
                let r = case_with_pages_generic(num, pages, freq2, base2);
                proof {
                    assert(opt_view(freq2) == opt_seq(self.ctx.char_freq));
                    assert(opt_view(base2) == opt_seq(self.ctx.char_base));
                    let ord = choose|ord: Seq<u32>|
                        {
                            &&& sorted_by_usage(
                                ord,
                                effective_freq(opt_view(freq2), opt_view(base2)),
                                pages@,
                            )
                            &&& (forall|c: u32|
                                ord.contains(c) <==> domain_of(base2, freq2).contains(c))
                            &&& #[trigger] is_partition_of(r@, ord, num as int)
                        };
                    assert(is_partition_of(r@, ord, n));
                    assert(forall|c: u32|
                        ord.contains(c) <==> (match self.ctx.char_base {
                            Some(b) => b@.contains(c),
                            None => match self.ctx.char_freq {
                                Some(f) => f@.contains(c),
                                None => false,
                            },
                        }));
                }
                r
            },
            (None, None, Some(freq)) => {
                let r = case_with_charfreq_only(num, freq);
                proof {
                    assert(is_partition_of(r@, freq@, n));
                }
                r
            },
            (None, Some(base), Some(freq)) => {
                let r = case_with_charfreq_charbase(num, freq, base);
                proof {
                    let first = freq_then_base(freq@, base@, Seq::empty());
                    let rest = choose|rest: Seq<u32>|
                        {
                            &&& strictly_ascending(rest)
                            &&& (forall|c: u32|
                                rest.contains(c) <==> (base@.contains(c) && !first.contains(c)))
                            &&& #[trigger] is_partition_of(r@, first + rest, num as int)
                        };
                    assert(is_partition_of(r@, first + rest, n));
                }
                r
            },
            (None, Some(base), None) => {
                let r = case_with_charbase(num, base);
                proof {
                    let ord = choose|ord: Seq<u32>|
                        {
                            &&& strictly_ascending(ord)
                            &&& (forall|c: u32| ord.contains(c) <==> base@.contains(c))
                            &&& #[trigger] is_partition_of(r@, ord, num as int)
                        };
                    assert(is_partition_of(r@, ord, n));
                }
                r
            },
            (None, None, None) => {
                proof {
                    assert(false);
                }
                Vec::new()
            },
        };
        r
    }
}

} // verus!

verus! {

/// The ascending character enumeration of one bucket is no longer than
/// the bucket's target size; stated in the shape of `URange::as_chars`'
/// contract.
pub proof fn lemma_bucket_chars_bound(
    out: Seq<char>,
    r: Seq<URange>,
    chars: Seq<u32>,
    num: int,
    i: int,
)
    requires
        is_partition_of(r, chars, num),
        num >= 1,
        0 <= i < r.len(),
        forall|a: int, b: int|
            0 <= a < b < out.len() ==> ((#[trigger] out[a]) as u32) < ((#[trigger] out[b]) as u32),
        forall|k: int| 0 <= k < out.len() ==> r[i].covers(((#[trigger] out[k]) as u32) as int),
    ensures
        out.len() <= num,
{
    let vals = out.map(|_k: int, ch: char| ch as u32);
    assert(vals.len() == out.len());
    assert(forall|k: int| 0 <= k < vals.len() ==> #[trigger] vals[k] == out[k] as u32);
    assert(vals.no_duplicates()) by {
        assert forall|a: int, b: int| 0 <= a < b < vals.len() implies vals[a] != vals[b] by {
            assert((out[a] as u32) < (out[b] as u32));
        }
    }
    lemma_bucket_size(vals, r, chars, num, i);
}

/// Any repetition-free enumeration of one bucket's code points is no
/// longer than the bucket's target size: the bucket covers only the code
/// points of its run of at most `num` characters.
pub proof fn lemma_bucket_size(
    out: Seq<u32>,
    r: Seq<URange>,
    chars: Seq<u32>,
    num: int,
    i: int,
)
    requires
        is_partition_of(r, chars, num),
        num >= 1,
        0 <= i < r.len(),
        out.no_duplicates(),
        forall|k: int| 0 <= k < out.len() ==> r[i].covers((#[trigger] out[k]) as int),
    ensures
        out.len() <= num,
{
    broadcast use vstd::seq_lib::seq_to_set_is_finite;
    broadcast use vstd::set::group_set_axioms;

    let lo = i * num;
    let hi = if (i + 1) * num < chars.len() {
        (i + 1) * num
    } else {
        chars.len() as int
    };
    assert(lo >= 0 && lo <= hi && hi - lo <= num && hi <= chars.len()) by (nonlinear_arith)
        requires
            num >= 1,
            0 <= i < r.len(),
            r.len() == if (chars.len() as int) % num == 0 {
                (chars.len() as int) / num
            } else {
                (chars.len() as int) / num + 1
            },
            lo == i * num,
            hi == if (i + 1) * num < chars.len() {
                (i + 1) * num
            } else {
                chars.len() as int
            },
    ;
    let window = chars.subrange(lo, hi);
    assert forall|k: int| 0 <= k < out.len() implies window.to_set().contains(
        #[trigger] out[k],
    ) by {
        assert(r[i].covers(out[k] as int));
        assert(chunk_has(chars, lo, hi, out[k] as int));
        let k2 = choose|k2: int|
            lo <= k2 < hi && 0 <= k2 < chars.len() && (#[trigger] chars[k2]) as int == out[k] as int;
        assert(window[k2 - lo] == out[k]);
        assert(window.contains(out[k]));
    }
    assert forall|x: u32| out.to_set().contains(x) implies window.to_set().contains(x) by {
        assert(out.contains(x));
        let k = choose|k: int| 0 <= k < out.len() && out[k] == x;
        assert(window.to_set().contains(out[k]));
    }
    assert(out.to_set().subset_of(window.to_set()));
    out.unique_seq_to_set();
    window.lemma_cardinality_of_set();
    vstd::set_lib::lemma_len_subset(out.to_set(), window.to_set());
    assert(out.len() == out.to_set().len());
    assert(out.to_set().len() <= window.to_set().len());
    assert(window.to_set().len() <= window.len());
    assert(window.len() == hi - lo);
}

} // verus!
