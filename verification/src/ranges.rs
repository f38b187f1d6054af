//! Inclusive character ranges and the set operations the optimizer needs:
//! sorting, coalescing into a canonical form, complement, and overlap tests.
use vstd::prelude::*;

verus! {

/// An inclusive character range `(start, end)`.
#[derive(Debug, Clone, Copy, PartialEq, Eq, PartialOrd, Ord, Structural)]
pub struct CharRange {
    pub start: char,
    pub end: char,
}

/// The largest Unicode scalar value.
pub open spec fn max_scalar() -> u32 {
    0x10FFFFu32
}

/// `v` is the code of some `char` (not a surrogate, not above the maximum).
pub open spec fn is_scalar(v: int) -> bool {
    (0 <= v < 0xD800) || (0xE000 <= v <= 0x10FFFF)
}

/// `c` lies inside the range.
pub open spec fn range_contains(r: CharRange, c: char) -> bool {
    r.start <= c && c <= r.end
}

/// `c` lies inside one of the ranges.
pub open spec fn ranges_cover(rs: Seq<CharRange>, c: char) -> bool {
    exists|i: int| 0 <= i < rs.len() && range_contains(#[trigger] rs[i], c)
}

/// Lexicographic order on `(start, end)`.
pub open spec fn range_le(a: CharRange, b: CharRange) -> bool {
    a.start < b.start || (a.start == b.start && a.end <= b.end)
}

/// Ordered by `(start, end)`.
pub open spec fn ranges_sorted(rs: Seq<CharRange>) -> bool {
    forall|i: int, j: int| 0 <= i < j < rs.len() ==> range_le(rs[i], rs[j])
}

/// Every range is non-empty (`start <= end`).
pub open spec fn ranges_proper(rs: Seq<CharRange>) -> bool {
    forall|i: int| 0 <= i < rs.len() ==> (#[trigger] rs[i]).start <= rs[i].end
}

/// The canonical form: non-empty ranges in increasing order, separated by at
/// least one code point that neither of two neighbours contains.
pub open spec fn ranges_canonical(rs: Seq<CharRange>) -> bool {
    &&& ranges_proper(rs)
    &&& forall|i: int| 0 <= i < rs.len() - 1 ==> (#[trigger] rs[i]).end as u32 + 1 < rs[i + 1].start as u32
}

/// Non-empty ranges in increasing order, each ending before the next one
/// starts; neighbours may touch.
pub open spec fn ranges_separate(rs: Seq<CharRange>) -> bool {
    &&& ranges_proper(rs)
    &&& forall|i: int| 0 <= i < rs.len() - 1 ==> (#[trigger] rs[i]).end < rs[i + 1].start
}

/// The two ranges share at least one character.
pub open spec fn spec_ranges_overlap(a: CharRange, b: CharRange) -> bool {
    a.start <= b.end && b.start <= a.end
}

/// Ranges in `(start, end)` order, as a sorted permutation.
#[verifier::opaque]
pub open spec fn sort_model(rs: Seq<CharRange>) -> Seq<CharRange> {
    rs.sort_by(|a: CharRange, b: CharRange| range_le(a, b))
}

/// The larger of two characters.
pub open spec fn char_max(a: char, b: char) -> char {
    if a >= b {
        a
    } else {
        b
    }
}

/// Left-to-right merge of sorted ranges: a range that overlaps or directly
/// follows the last merged range extends it; any other range starts a new one.
#[verifier::opaque]
pub open spec fn merge_model(s: Seq<CharRange>) -> Seq<CharRange>
    decreases s.len(),
{
    if s.len() <= 1 {
        s
    } else {
        let prev = merge_model(s.drop_last());
        let r = s.last();
        let last = prev.last();
        if r.start <= last.end || last.end as u32 + 1 == r.start as u32 {
            prev.update(prev.len() - 1, CharRange { start: last.start, end: char_max(last.end, r.end) })
        } else {
            prev.push(r)
        }
    }
}

/// What coalescing computes: merge the sorted ranges.
pub open spec fn coalesce_model(rs: Seq<CharRange>) -> Seq<CharRange> {
    merge_model(sort_model(rs))
}

impl CharRange {
    pub fn new(start: char, end: char) -> (r: Self)
        ensures
            r.start == start,
            r.end == end,
    {
        CharRange { start, end }
    }

    pub fn single(ch: char) -> (r: Self)
        ensures
            r.start == ch,
            r.end == ch,
    {
        CharRange { start: ch, end: ch }
    }
}

/// Calls `char::from_u32`, which returns the `char` whose code is `v` when `v`
/// is a Unicode scalar value, and `None` otherwise.
#[verifier::external_body]
fn char_from_code(v: u32) -> (res: Option<char>)
    ensures
        match res {
            Some(c) => c as u32 == v && is_scalar(v as int),
            None => !is_scalar(v as int),
        },
{
    char::from_u32(v)
}

proof fn lemma_char_is_scalar(c: char)
    ensures
        is_scalar(c as u32 as int),
        '\u{0}' <= c,
        c <= '\u{10FFFF}',
{
}

proof fn lemma_char_order(a: char, b: char)
    ensures
        (a < b) == ((a as u32) < (b as u32)),
        (a <= b) == ((a as u32) <= (b as u32)),
        (a == b) == ((a as u32) == (b as u32)),
{
}

/// The code of the next scalar value after the scalar `v` (skipping surrogates).
pub open spec fn next_code(v: int) -> int {
    if v == 0xD7FF {
        0xE000
    } else {
        v + 1
    }
}

/// The code of the previous scalar value before the scalar `v` (skipping surrogates).
pub open spec fn prev_code(v: int) -> int {
    if v == 0xE000 {
        0xD7FF
    } else {
        v - 1
    }
}

/// The smallest `char` greater than `ch`, if there is one.
pub fn next_scalar(ch: char) -> (res: Option<char>)
    ensures
        match res {
            Some(n) => n as u32 == next_code(ch as u32 as int),
            None => ch as u32 == max_scalar(),
        },
{
    proof {
        lemma_char_is_scalar(ch);
    }
    let mut value: u32 = ch as u32 + 1;
    while value <= 0x10FFFF
        invariant
            is_scalar(ch as u32 as int),
            ch as u32 + 1 <= value <= 0x110000,
            value <= next_code(ch as u32 as int) || ch as u32 == max_scalar(),
            forall|v: int| ch as u32 + 1 <= v < value ==> !is_scalar(v),
        decreases 0x110000 - value,
    {
        if let Some(next) = char_from_code(value) {
            proof {
                assert(ch as u32 != max_scalar() ==> is_scalar(next_code(ch as u32 as int)));
                assert(forall|v: int| ch as u32 + 1 <= v < next_code(ch as u32 as int) ==> !is_scalar(v));
                assert(is_scalar(value as int));
                assert(value <= next_code(ch as u32 as int));
                if (value as int) < next_code(ch as u32 as int) {
                    assert(!is_scalar(value as int));
                }
                assert(next as u32 == value);
            }
            return Some(next);
        }
        value = value + 1;
    }
    None
}

/// The largest `char` smaller than `ch`, if there is one.
pub fn prev_scalar(ch: char) -> (res: Option<char>)
    ensures
        match res {
            Some(p) => p as u32 == prev_code(ch as u32 as int),
            None => ch as u32 == 0,
        },
{
    proof {
        lemma_char_is_scalar(ch);
    }
    let mut value: u32 = ch as u32;
    while value > 0
        invariant
            is_scalar(ch as u32 as int),
            value <= ch as u32,
            value >= prev_code(ch as u32 as int) + 1 || ch as u32 == 0,
            forall|v: int| value <= v < ch as u32 ==> !is_scalar(v),
        decreases value,
    {
        value = value - 1;
        if let Some(prev) = char_from_code(value) {
            proof {
                assert(ch as u32 != 0 ==> is_scalar(prev_code(ch as u32 as int)));
                assert(forall|v: int| prev_code(ch as u32 as int) < v < ch as u32 ==> !is_scalar(v));
            }
            return Some(prev);
        }
    }
    None
}

/// Whether the two ranges share a character.
pub fn ranges_overlap(left: CharRange, right: CharRange) -> (res: bool)
    ensures
        res == spec_ranges_overlap(left, right),
{
    left.start <= right.end && right.start <= left.end
}

/// Some range of `left` shares a character with some range of `right`.
pub open spec fn overlap_any(left: Seq<CharRange>, right: Seq<CharRange>) -> bool {
    exists|i: int, j: int|
        0 <= i < left.len() && 0 <= j < right.len() && spec_ranges_overlap(#[trigger] left[i], #[trigger] right[j])
}

/// Whether some range of `left` overlaps some range of `right`.
pub fn ranges_overlap_any(left: &[CharRange], right: &[CharRange]) -> (res: bool)
    ensures
        res == overlap_any(left@, right@),
{
    let mut i: usize = 0;
    while i < left.len()
        invariant
            i <= left@.len(),
            forall|a: int, b: int|
                0 <= a < i && 0 <= b < right@.len() ==> !spec_ranges_overlap(
                    #[trigger] left@[a],
                    #[trigger] right@[b],
                ),
        decreases left@.len() - i,
    {
        let mut j: usize = 0;
        while j < right.len()
            invariant
                i < left@.len(),
                j <= right@.len(),
                forall|a: int, b: int|
                    0 <= a < i && 0 <= b < right@.len() ==> !spec_ranges_overlap(
                        #[trigger] left@[a],
                        #[trigger] right@[b],
                    ),
                forall|b: int| 0 <= b < j ==> !spec_ranges_overlap(left@[i as int], #[trigger] right@[b]),
            decreases right@.len() - j,
        {
            if ranges_overlap(left[i], right[j]) {
                return true;
            }
            j = j + 1;
        }
        i = i + 1;
    }
    false
}

/// Element-wise equality of two range lists.
pub fn ranges_equal(left: &[CharRange], right: &[CharRange]) -> (res: bool)
    ensures
        res == (left@ == right@),
{
    if left.len() != right.len() {
        return false;
    }
    let mut i: usize = 0;
    while i < left.len()
        invariant
            i <= left@.len(),
            left@.len() == right@.len(),
            forall|k: int| 0 <= k < i ==> left@[k] == right@[k],
        decreases left@.len() - i,
    {
        if left[i] != right[i] {
            return false;
        }
        i = i + 1;
    }
    proof {
        assert(left@ =~= right@);
    }
    true
}

fn range_le_exec(a: CharRange, b: CharRange) -> (res: bool)
    ensures
        res == range_le(a, b),
{
    a.start < b.start || (a.start == b.start && a.end <= b.end)
}

/// Sort by `(start, end)`; a stable insertion sort.
pub fn sort_ranges(ranges: &[CharRange]) -> (res: Vec<CharRange>)
    ensures
        ranges_sorted(res@),
        res@.to_multiset() == ranges@.to_multiset(),
        ranges_sorted(ranges@) ==> res@ == ranges@,
        res@ == sort_model(ranges@),
{
    broadcast use vstd::seq_lib::group_seq_properties;
    let mut res: Vec<CharRange> = Vec::new();
    let mut i: usize = 0;
    proof {
        assert(ranges@.take(0) =~= Seq::<CharRange>::empty());
    }
    while i < ranges.len()
        invariant
            i <= ranges@.len(),
            ranges_sorted(res@),
            res@.to_multiset() == ranges@.take(i as int).to_multiset(),
            ranges_sorted(ranges@) ==> res@ == ranges@.take(i as int),
        decreases ranges@.len() - i,
    {
        let x = ranges[i];
        let mut p: usize = 0;
        while p < res.len() && range_le_exec(res[p], x)
            invariant
                p <= res@.len(),
                forall|k: int| 0 <= k < p ==> range_le(res@[k], x),
            decreases res@.len() - p,
        {
            p = p + 1;
        }
        let ghost old_res = res@;
        res.insert(p, x);
        proof {
            old_res.insert_ensures(p as int, x);
            // all elements after p are strictly greater than x
            assert forall|a: int, b: int| 0 <= a < b < res@.len() implies range_le(res@[a], res@[b]) by {
                if a < p && b == p {
                } else if a == p && b > p {
                    assert(!range_le(old_res[p as int], x));
                    assert(range_le(old_res[p as int], old_res[b - 1]) || b - 1 == p);
                } else if a < p && b > p {
                } else {
                }
            }
            assert(res@.remove(p as int) =~= old_res);
            res@.to_multiset_ensures();
            old_res.to_multiset_ensures();
            ranges@.take(i as int).to_multiset_ensures();
            assert(res@.to_multiset().remove(x) =~= old_res.to_multiset());
            assert(res@.to_multiset().count(x) > 0);
            assert(ranges@.take(i + 1) =~= ranges@.take(i as int).push(x));
            assert(res@.to_multiset() =~= old_res.to_multiset().insert(x));
            if ranges_sorted(ranges@) {
                assert(p == old_res.len()) by {
                    if p < old_res.len() {
                        assert(old_res[p as int] == ranges@[p as int]);
                        assert(range_le(ranges@[p as int], ranges@[i as int]));
                    }
                }
                assert(res@ =~= ranges@.take(i + 1));
            }
        }
        i = i + 1;
    }
    proof {
        assert(ranges@.take(ranges@.len() as int) =~= ranges@);
        lemma_sort_model(ranges@);
        lemma_sorted_unique(res@, sort_model(ranges@));
    }
    res
}

proof fn lemma_range_le_total()
    ensures
        vstd::relations::total_ordering(|a: CharRange, b: CharRange| range_le(a, b)),
{
    let leq = |a: CharRange, b: CharRange| range_le(a, b);
    assert forall|a: CharRange, b: CharRange| #[trigger] leq(a, b) && #[trigger] leq(b, a) implies a == b by {
        lemma_char_order(a.start, b.start);
        lemma_char_order(a.end, b.end);
    }
    assert forall|a: CharRange, b: CharRange| #[trigger] leq(a, b) || leq(b, a) by {
        lemma_char_order(a.start, b.start);
        lemma_char_order(a.end, b.end);
    }
    assert forall|a: CharRange, b: CharRange, c: CharRange| #[trigger] leq(a, b) && #[trigger] leq(b, c) implies leq(a, c) by {
        lemma_char_order(a.start, b.start);
        lemma_char_order(b.start, c.start);
        lemma_char_order(a.start, c.start);
        lemma_char_order(a.end, b.end);
        lemma_char_order(b.end, c.end);
        lemma_char_order(a.end, c.end);
    }
    assert forall|a: CharRange| #[trigger] leq(a, a) by {
        lemma_char_order(a.end, a.end);
    }
}

proof fn lemma_sort_model(rs: Seq<CharRange>)
    ensures
        ranges_sorted(sort_model(rs)),
        sort_model(rs).to_multiset() == rs.to_multiset(),
{
    reveal(sort_model);
    lemma_range_le_total();
    rs.lemma_sort_by_ensures(|a: CharRange, b: CharRange| range_le(a, b));
    let s = sort_model(rs);
    assert forall|i: int, j: int| 0 <= i < j < s.len() implies range_le(s[i], s[j]) by {
        assert((|a: CharRange, b: CharRange| range_le(a, b))(s[i], s[j]));
    }
}

proof fn lemma_sorted_unique(a: Seq<CharRange>, b: Seq<CharRange>)
    requires
        ranges_sorted(a),
        ranges_sorted(b),
        a.to_multiset() == b.to_multiset(),
    ensures
        a == b,
    decreases a.len(),
{
    a.to_multiset_ensures();
    b.to_multiset_ensures();
    if a.len() == 0 {
        assert(b.len() == 0);
        assert(a =~= b);
    } else {
        assert(b.len() == a.len());
        assert(a.to_multiset().count(a[0]) > 0);
        assert(b.contains(a[0]));
        assert(a.contains(b[0])) by {
            assert(b.to_multiset().count(b[0]) > 0);
        }
        let ja = choose|j: int| 0 <= j < b.len() && b[j] == a[0];
        let jb = choose|j: int| 0 <= j < a.len() && a[j] == b[0];
        assert(range_le(b[0], a[0])) by {
            if ja > 0 {
                assert(range_le(b[0], b[ja]));
            } else {
                lemma_char_order(b[0].end, b[0].end);
            }
        }
        assert(range_le(a[0], b[0])) by {
            if jb > 0 {
                assert(range_le(a[0], a[jb]));
            } else {
                lemma_char_order(a[0].end, a[0].end);
            }
        }
        lemma_char_order(a[0].start, b[0].start);
        lemma_char_order(a[0].end, b[0].end);
        assert(a[0] == b[0]);
        assert(a.remove(0) =~= a.drop_first());
        assert(b.remove(0) =~= b.drop_first());
        assert(a.drop_first().to_multiset() =~= b.drop_first().to_multiset());
        lemma_sorted_unique(a.drop_first(), b.drop_first());
        assert(a =~= seq![a[0]] + a.drop_first());
        assert(b =~= seq![b[0]] + b.drop_first());
    }
}


/// Merge overlapping and adjacent ranges, after sorting them by `(start, end)`.
///
/// The result covers exactly the characters the input covers. For non-empty
/// input ranges the result is the canonical form of that character set, so
/// coalescing canonical ranges gives them back unchanged.
#[verifier::rlimit(80)]
pub fn coalesce_ranges(ranges: Vec<CharRange>) -> (res: Vec<CharRange>)
    ensures
        res@ == coalesce_model(ranges@),
        forall|c: char| ranges_cover(res@, c) == ranges_cover(ranges@, c),
        ranges_proper(ranges@) ==> ranges_canonical(res@),
        ranges_canonical(ranges@) ==> res@ == ranges@,
        res@.len() <= ranges@.len(),
        res@.len() == 0 <==> ranges@.len() == 0,
{
    if ranges.len() == 0 {
        proof {
            lemma_sort_model(ranges@);
            sort_model(ranges@).to_multiset_ensures();
            ranges@.to_multiset_ensures();
            assert(sort_model(ranges@) =~= ranges@);
            reveal(merge_model);
        }
        return ranges;
    }
    let sorted = sort_ranges(ranges.as_slice());
    proof {
        lemma_multiset_same_elements(sorted@, ranges@);
        lemma_cover_same_elements(sorted@, ranges@);
        if ranges_canonical(ranges@) {
            lemma_canonical_sorted(ranges@);
        }
        if ranges_proper(ranges@) {
            assert forall|k: int| 0 <= k < sorted@.len() implies (#[trigger] sorted@[k]).start <= sorted@[k].end by {
                assert(ranges@.contains(sorted@[k]));
            }
        }
    }
    if sorted.len() == 1 {
        proof {
            assert(sorted@ =~= ranges@ || true);
        }
    }
    let mut result: Vec<CharRange> = Vec::new();
    result.push(sorted[0]);
    proof {
        reveal(merge_model);
        assert(result@ =~= merge_model(sorted@.take(1)));
    }
    let mut i: usize = 1;
    proof {
        assert(sorted@.take(1) =~= seq![sorted@[0]]);
        assert(ranges_cover(result@, sorted@[0].start) || true);
    }
    while i < sorted.len()
        invariant
            1 <= i <= sorted@.len(),
            ranges_sorted(sorted@),
            forall|c: char| ranges_cover(result@, c) == ranges_cover(sorted@.take(i as int), c),
            1 <= result@.len() <= i,
            result@.last().start <= sorted@[i - 1].start,
            ranges_proper(sorted@) ==> ranges_canonical(result@),
            ranges_canonical(sorted@) ==> result@ == sorted@.take(i as int),
            result@ == merge_model(sorted@.take(i as int)),
        decreases sorted@.len() - i,
    {
        let r = sorted[i];
        let last_index = result.len() - 1;
        let last = result[last_index];
        proof {
            assert(range_le(sorted@[i - 1], r));
            assert(last == result@.last());
        }
        if r.start <= last.end || last.end as u32 + 1 == r.start as u32 {
            let new_end = if last.end >= r.end { last.end } else { r.end };
            let merged = CharRange { start: last.start, end: new_end };
            let ghost old_result = result@;
            result.set(last_index, merged);
            proof {
                reveal(merge_model);
                assert(sorted@.take(i + 1).drop_last() =~= sorted@.take(i as int));
                assert(result@ =~= merge_model(sorted@.take(i + 1)));
                assert(sorted@.take(i + 1) =~= sorted@.take(i as int).push(r));
                lemma_merge_step(old_result, sorted@.take(i as int), r, merged);
                if ranges_canonical(sorted@) {
                    assert(sorted@[i - 1] == last);
                    assert(false);
                }
            }
        } else {
            let ghost old_result = result@;
            result.push(r);
            proof {
                reveal(merge_model);
                assert(sorted@.take(i + 1).drop_last() =~= sorted@.take(i as int));
                assert(result@ =~= merge_model(sorted@.take(i + 1)));
                assert(sorted@.take(i + 1) =~= sorted@.take(i as int).push(r));
                assert forall|c: char| ranges_cover(result@, c) == ranges_cover(sorted@.take(i + 1), c) by {
                    lemma_cover_push(sorted@.take(i as int), r, c);
                    lemma_cover_push(old_result, r, c);
                }
                if ranges_canonical(sorted@) {
                    assert(result@ =~= sorted@.take(i + 1));
                }
            }
        }
        i = i + 1;
    }
    proof {
        assert(sorted@.take(sorted@.len() as int) =~= sorted@);
    }
    result
}

proof fn lemma_merge_step(old_result: Seq<CharRange>, done: Seq<CharRange>, r: CharRange, merged: CharRange)
    requires
        old_result.len() > 0,
        forall|c: char| ranges_cover(old_result, c) == ranges_cover(done, c),
        old_result.last().start <= r.start,
        r.start <= old_result.last().end || old_result.last().end as u32 + 1 == r.start as u32,
        merged.start == old_result.last().start,
        merged.end == (if old_result.last().end >= r.end { old_result.last().end } else { r.end }),
    ensures
        forall|c: char| ranges_cover(old_result.update(old_result.len() - 1, merged), c) == ranges_cover(done.push(r), c),
{
    let last = old_result.last();
    assert forall|c: char| ranges_cover(old_result.update(old_result.len() - 1, merged), c) == ranges_cover(done.push(r), c) by {
        lemma_cover_push(done, r, c);
        lemma_cover_replace_last(old_result, merged, c);
        assert(range_contains(merged, c) == (range_contains(last, c) || range_contains(r, c)));
    }
}

proof fn lemma_cover_push(s: Seq<CharRange>, r: CharRange, c: char)
    ensures
        ranges_cover(s.push(r), c) == (ranges_cover(s, c) || range_contains(r, c)),
{
    if ranges_cover(s, c) {
        let k = choose|k: int| 0 <= k < s.len() && range_contains(#[trigger] s[k], c);
        assert(s.push(r)[k] == s[k]);
    }
    if range_contains(r, c) {
        assert(s.push(r)[s.len() as int] == r);
    }
    if ranges_cover(s.push(r), c) {
        let k = choose|k: int| 0 <= k < s.push(r).len() && range_contains(#[trigger] s.push(r)[k], c);
        if k < s.len() {
            assert(s[k] == s.push(r)[k]);
        }
    }
}

proof fn lemma_cover_replace_last(s: Seq<CharRange>, r: CharRange, c: char)
    requires
        s.len() > 0,
    ensures
        ranges_cover(s.update(s.len() - 1, r), c) == (ranges_cover(s.drop_last(), c) || range_contains(r, c)),
        ranges_cover(s, c) == (ranges_cover(s.drop_last(), c) || range_contains(s.last(), c)),
{
    assert(s.update(s.len() - 1, r) =~= s.drop_last().push(r));
    assert(s =~= s.drop_last().push(s.last()));
    lemma_cover_push(s.drop_last(), r, c);
    lemma_cover_push(s.drop_last(), s.last(), c);
}

proof fn lemma_multiset_same_elements(a: Seq<CharRange>, b: Seq<CharRange>)
    requires
        a.to_multiset() == b.to_multiset(),
    ensures
        forall|x: CharRange| a.contains(x) <==> b.contains(x),
        a.len() == b.len(),
{
    a.to_multiset_ensures();
    b.to_multiset_ensures();
    assert forall|x: CharRange| a.contains(x) <==> b.contains(x) by {
        a.to_multiset_ensures();
        b.to_multiset_ensures();
        assert(a.to_multiset().count(x) == b.to_multiset().count(x));
        assert(a.contains(x) <==> a.to_multiset().count(x) > 0);
        assert(b.contains(x) <==> b.to_multiset().count(x) > 0);
    }
}

proof fn lemma_cover_same_elements(a: Seq<CharRange>, b: Seq<CharRange>)
    requires
        forall|x: CharRange| a.contains(x) <==> b.contains(x),
    ensures
        forall|c: char| ranges_cover(a, c) == ranges_cover(b, c),
{
    assert forall|c: char| ranges_cover(a, c) == ranges_cover(b, c) by {
        if ranges_cover(a, c) {
            let k = choose|k: int| 0 <= k < a.len() && range_contains(#[trigger] a[k], c);
            assert(a.contains(a[k]));
            let j = choose|j: int| 0 <= j < b.len() && b[j] == a[k];
            assert(range_contains(b[j], c));
        }
        if ranges_cover(b, c) {
            let k = choose|k: int| 0 <= k < b.len() && range_contains(#[trigger] b[k], c);
            assert(b.contains(b[k]));
            let j = choose|j: int| 0 <= j < a.len() && a[j] == b[k];
            assert(range_contains(a[j], c));
        }
    }
}

proof fn lemma_canonical_sorted(rs: Seq<CharRange>)
    requires
        ranges_canonical(rs),
    ensures
        ranges_sorted(rs),
    decreases rs.len(),
{
    if rs.len() > 0 {
        let front = rs.drop_last();
        assert(ranges_canonical(front)) by {
            assert forall|i: int| 0 <= i < front.len() - 1 implies (#[trigger] front[i]).end as u32 + 1 < front[i + 1].start as u32 by {
                assert(front[i] == rs[i] && front[i + 1] == rs[i + 1]);
            }
        }
        lemma_canonical_sorted(front);
        lemma_canonical_increasing(rs);
    }
}

proof fn lemma_canonical_increasing(rs: Seq<CharRange>)
    requires
        ranges_canonical(rs),
    ensures
        forall|i: int, j: int| 0 <= i < j < rs.len() ==> rs[i].end < rs[j].start,
{
    assert forall|i: int, j: int| 0 <= i < j < rs.len() implies rs[i].end < rs[j].start by {
        lemma_canonical_step(rs, i, j);
    }
}

proof fn lemma_canonical_step(rs: Seq<CharRange>, i: int, j: int)
    requires
        ranges_canonical(rs),
        0 <= i < j < rs.len(),
    ensures
        rs[i].end < rs[j].start,
    decreases j - i,
{
    assert(rs[i].end as u32 + 1 < rs[i + 1].start as u32);
    if j > i + 1 {
        lemma_canonical_step(rs, i + 1, j);
    }
}


/// The walk behind inverting ranges: a cursor starts at U+0000; before each
/// range, the gap from the cursor up to the scalar just below the range's
/// start is emitted when it is not empty; the cursor then moves to the scalar
/// just above the range's end, and the walk stops for good when there is none.
pub open spec fn invert_walk(rs: Seq<CharRange>) -> (Seq<CharRange>, Option<char>)
    decreases rs.len(),
{
    if rs.len() == 0 {
        (Seq::empty(), Some('\u{0}'))
    } else {
        let (res, cur) = invert_walk(rs.drop_last());
        match cur {
            None => (res, None),
            Some(c) => {
                let r = rs.last();
                let res2 = if c < r.start && r.start as u32 != 0 && c as u32 <= prev_code(r.start as u32 as int) {
                    res.push(CharRange { start: c, end: prev_code(r.start as u32 as int) as char })
                } else {
                    res
                };
                let cur2 = if r.end as u32 == max_scalar() {
                    None
                } else {
                    Some(next_code(r.end as u32 as int) as char)
                };
                (res2, cur2)
            },
        }
    }
}

/// What inverting computes: everything when there are no ranges; otherwise
/// the gaps of the walk, and the tail from the cursor to U+10FFFF if the walk
/// did not stop.
pub open spec fn invert_model(rs: Seq<CharRange>) -> Seq<CharRange> {
    if rs.len() == 0 {
        seq![CharRange { start: '\u{0}', end: '\u{10FFFF}' }]
    } else {
        let (res, cur) = invert_walk(rs);
        match cur {
            Some(c) => res.push(CharRange { start: c, end: '\u{10FFFF}' }),
            None => res,
        }
    }
}

/// A character is the character of its own code.
proof fn lemma_code_char(c: char, x: int)
    requires
        x == c as u32 as int,
    ensures
        x as char == c,
{
}

proof fn lemma_walk_stopped(rs: Seq<CharRange>, k: int)
    requires
        0 <= k <= rs.len(),
        invert_walk(rs.take(k)).1 is None,
    ensures
        invert_walk(rs) == invert_walk(rs.take(k)),
    decreases rs.len(),
{
    if k < rs.len() {
        assert(rs.drop_last().take(k) =~= rs.take(k));
        lemma_walk_stopped(rs.drop_last(), k);
    } else {
        assert(rs.take(k) =~= rs);
    }
}


/// Canonical ranges are separate.
pub proof fn lemma_canonical_separate(rs: Seq<CharRange>)
    requires
        ranges_canonical(rs),
    ensures
        ranges_separate(rs),
{
    assert forall|i: int| 0 <= i < rs.len() - 1 implies (#[trigger] rs[i]).end < rs[i + 1].start by {
        assert(rs[i].end as u32 + 1 < rs[i + 1].start as u32);
        lemma_char_order(rs[i].end, rs[i + 1].start);
    }
}

proof fn lemma_separate_step(rs: Seq<CharRange>, i: int, j: int)
    requires
        ranges_separate(rs),
        0 <= i < j < rs.len(),
    ensures
        rs[i].end < rs[j].start,
    decreases j - i,
{
    assert(rs[i].end < rs[i + 1].start);
    if j > i + 1 {
        lemma_separate_step(rs, i + 1, j);
        assert(rs[i + 1].start <= rs[i + 1].end);
    }
}

/// The ranges covering exactly the characters that sorted, non-overlapping
/// `ranges` do not cover, in canonical form.
#[verifier::spinoff_prover]
#[verifier::rlimit(80)]
pub fn invert_ranges(ranges: &[CharRange]) -> (res: Vec<CharRange>)
    ensures
        res@ == invert_model(ranges@),
        ranges_separate(ranges@) ==> ranges_canonical(res@),
        ranges_separate(ranges@) ==> forall|c: char| ranges_cover(res@, c) == !ranges_cover(ranges@, c),
{
    let ghost canon = ranges_separate(ranges@);
    if ranges.len() == 0 {
        let mut all: Vec<CharRange> = Vec::new();
        all.push(CharRange::new('\u{0}', '\u{10FFFF}'));
        proof {
            assert forall|c: char| ranges_cover(all@, c) == !ranges_cover(ranges@, c) by {
                lemma_char_is_scalar(c);
                assert(range_contains(all@[0], c));
            }
        }
        proof {
            assert(all@ =~= invert_model(ranges@));
        }
        return all;
    }
    let mut result: Vec<CharRange> = Vec::new();
    let mut cursor: char = '\u{0}';
    let mut i: usize = 0;
    proof {
        assert(ranges@.take(0) =~= Seq::<CharRange>::empty());
        if canon {
            assert forall|a: int, b: int| 0 <= a < b < ranges@.len() implies ranges@[a].end < ranges@[b].start by {
                lemma_separate_step(ranges@, a, b);
            }
        }
        assert forall|c: char| c < cursor implies (ranges_cover(result@, c) == !ranges_cover(ranges@, c)) by {
            lemma_char_is_scalar(c);
        }
    }
    while i < ranges.len()
        invariant
            i <= ranges@.len(),
            canon == ranges_separate(ranges@),
            canon ==> forall|a: int, b: int| 0 <= a < b < ranges@.len() ==> ranges@[a].end < ranges@[b].start,
            canon ==> ranges_canonical(result@),
            canon && i < ranges@.len() ==> cursor <= ranges@[i as int].start,
            canon && i > 0 ==> ranges@[i - 1].end < cursor,
            canon ==> forall|c: char| c < cursor ==> (ranges_cover(result@, c) == !ranges_cover(ranges@, c)),
            canon ==> forall|c: char| cursor <= c ==> !ranges_cover(result@, c),
            canon && result@.len() > 0 ==> result@.last().end as u32 + 1 < cursor as u32,
            invert_walk(ranges@.take(i as int)) == (result@, Some(cursor)),
        decreases ranges@.len() - i,
    {
        let range = ranges[i];
        let ghost old_result = result@;
        let ghost old_cursor = cursor;
        let ghost mut pushed = false;
        let prev = prev_scalar(range.start);
        proof {
            assert(ranges@.take(i + 1).drop_last() =~= ranges@.take(i as int));
            assert(ranges@.take(i + 1).last() == range);
            lemma_char_order(cursor, range.start);
            match prev {
                Some(p) => {
                    lemma_char_order(cursor, p);
                    let x = prev_code(range.start as u32 as int);
                    assert(p as u32 as int == x);
                    lemma_code_char(p, x);
                },
                None => {},
            }
        }
        if cursor < range.start {
            if let Some(end) = prev {
                if cursor <= end {
                    result.push(CharRange::new(cursor, end));
                    proof {
                        pushed = true;
                    }
                }
            }
        }
        proof {
            if canon {
                assert(range.start <= range.end);
                if pushed {
                    assert(result@ =~= old_result.push(result@.last()));
                } else {
                    assert(result@ =~= old_result);
                }
                assert forall|c: char| c < range.start implies (ranges_cover(result@, c) == !ranges_cover(ranges@, c)) by {
                    lemma_char_is_scalar(c);
                    if pushed {
                        lemma_cover_push(old_result, result@.last(), c);
                    }
                    if c >= old_cursor {
                        lemma_not_covered_gap(ranges@, i as int, c);
                        lemma_below_prev(c, range.start);
                        lemma_char_is_scalar(range.start);
                        match prev {
                            Some(e) => {
                                lemma_char_is_scalar(e);
                                assert(c <= e);
                                if pushed {
                                    assert(result@.last() == CharRange { start: old_cursor, end: e });
                                    assert(range_contains(result@.last(), c));
                                } else {
                                    assert(false);
                                }
                            },
                            None => {
                                assert(false);
                            },
                        }
                    }
                }
                assert forall|c: char| range.start <= c implies !ranges_cover(result@, c) by {
                    if pushed {
                        lemma_cover_push(old_result, result@.last(), c);
                    }
                }
                assert forall|c: char| range.start <= c && c <= range.end implies ranges_cover(ranges@, c) by {
                    assert(range_contains(ranges@[i as int], c));
                }
                if pushed {
                    assert(ranges_canonical(result@)) by {
                        if old_result.len() > 0 {
                            assert(old_result.last().end as u32 + 1 < old_cursor as u32);
                        }
                    }
                }
            }
        }
        let after = next_scalar(range.end);
        proof {
            let w = invert_walk(ranges@.take(i + 1));
            assert(w.0 == result@);
            match after {
                Some(n) => {
                    let x = next_code(range.end as u32 as int);
                    assert(n as u32 as int == x);
                    lemma_code_char(n, x);
                    assert(w.1 == Some(n));
                },
                None => {
                    assert(w.1 is None);
                    lemma_walk_stopped(ranges@, i + 1);
                    assert(result@ == invert_model(ranges@));
                },
            }
        }
        match after {
            Some(next) => {
                cursor = next;
                proof {
                    if canon {
                        assert forall|c: char| c < cursor implies (ranges_cover(result@, c) == !ranges_cover(ranges@, c)) by {
                            lemma_char_is_scalar(c);
                            if c > range.end {
                                lemma_above_next(range.end, c);
                                lemma_char_order(c, cursor);
                            } else if c >= range.start {
                                assert(range_contains(ranges@[i as int], c));
                                assert(ranges_cover(ranges@, c));
                                assert(!ranges_cover(result@, c));
                            } else {
                                assert(c < range.start);
                            }
                        }
                        lemma_char_order(range.end, cursor);
                        lemma_char_is_scalar(cursor);
                        if result@.len() > 0 {
                            lemma_char_is_scalar(range.end);
                            if pushed {
                                lemma_prev_next_gap(range.start, range.end);
                            } else {
                                assert(result@.last().end as u32 + 1 < old_cursor as u32);
                            }
                        }
                        if i + 1 < ranges@.len() {
                            assert(ranges@[i as int].end < ranges@[i + 1].start);
                            lemma_above_next(range.end, ranges@[i + 1].start);
                            lemma_char_is_scalar(ranges@[i + 1].start);
                            lemma_char_is_scalar(range.end);
                            lemma_char_order(cursor, ranges@[i + 1].start);
                        }
                    }
                }
            },
            None => {
                proof {
                    if canon {
                        assert forall|c: char| ranges_cover(result@, c) == !ranges_cover(ranges@, c) by {
                            lemma_char_is_scalar(c);
                        }
                    }
                }
                return result;
            },
        }
        i = i + 1;
    }
    let ghost old_result = result@;
    result.push(CharRange::new(cursor, '\u{10FFFF}'));
    proof {
        assert(ranges@.take(ranges@.len() as int) =~= ranges@);
        assert(result@ =~= invert_model(ranges@));
        if canon {
            lemma_char_is_scalar(cursor);
            assert forall|c: char| ranges_cover(result@, c) == !ranges_cover(ranges@, c) by {
                lemma_cover_push(old_result, result@.last(), c);
                lemma_char_is_scalar(c);
                if c >= cursor {
                    if ranges_cover(ranges@, c) {
                        let k = choose|k: int| 0 <= k < ranges@.len() && range_contains(#[trigger] ranges@[k], c);
                        if k < ranges@.len() - 1 {
                            assert(ranges@[k].end < ranges@.last().start);
                        }
                    }
                }
            }
        }
    }
    result
}

proof fn lemma_below_prev(c: char, s: char)
    requires
        c < s,
    ensures
        c as u32 <= prev_code(s as u32 as int),
{
    lemma_char_is_scalar(c);
    lemma_char_is_scalar(s);
}

proof fn lemma_above_next(e: char, c: char)
    requires
        e < c,
    ensures
        c as u32 >= next_code(e as u32 as int),
{
    lemma_char_is_scalar(c);
    lemma_char_is_scalar(e);
}

proof fn lemma_prev_next_gap(s: char, e: char)
    requires
        s <= e,
        s as u32 > 0,
        (e as u32) < max_scalar(),
    ensures
        prev_code(s as u32 as int) + 1 < next_code(e as u32 as int),
{
    lemma_char_is_scalar(s);
    lemma_char_is_scalar(e);
}

proof fn lemma_not_covered_gap(rs: Seq<CharRange>, i: int, c: char)
    requires
        0 <= i < rs.len(),
        forall|a: int, b: int| 0 <= a < b < rs.len() ==> rs[a].end < rs[b].start,
        ranges_proper(rs),
        i > 0 ==> rs[i - 1].end < c,
        c < rs[i].start,
    ensures
        !ranges_cover(rs, c),
{
    if ranges_cover(rs, c) {
        let k = choose|k: int| 0 <= k < rs.len() && range_contains(#[trigger] rs[k], c);
        if k < i {
            if k < i - 1 {
                assert(rs[k].end < rs[i - 1].start);
                assert(rs[i - 1].start <= rs[i - 1].end);
            }
        } else if k > i {
            assert(rs[i].end < rs[k].start);
        }
    }
}

} // verus!
