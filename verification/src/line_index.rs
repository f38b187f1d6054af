use vstd::prelude::*;
use vstd::string::StringSliceAdditionalSpecFns;

verus! {

/// The byte offsets at which lines start in `text`: offset 0, then every
/// offset that directly follows a `\n` byte, in increasing order.
pub open spec fn line_starts_of(text: Seq<u8>) -> Seq<usize>
    decreases text.len(),
{
    if text.len() == 0 {
        seq![0usize]
    } else if text.last() == 10u8 {
        line_starts_of(text.drop_last()).push(text.len() as usize)
    } else {
        line_starts_of(text.drop_last())
    }
}

/// Calls `memchr::memchr`, which returns the index of the first occurrence of
/// `needle` in `haystack`, or `None` when the byte does not occur there.
#[verifier::external_body]
fn find_byte(needle: u8, haystack: &[u8]) -> (res: Option<usize>)
    ensures
        match res {
            Some(i) => i < haystack@.len() && haystack@[i as int] == needle
                && forall|j: int| 0 <= j < i ==> haystack@[j] != needle,
            None => forall|j: int| 0 <= j < haystack@.len() ==> haystack@[j] != needle,
        },
{
    memchr::memchr(needle, haystack)
}

/// Precomputed line start offsets for byte-offset to line:column conversion.
#[derive(Clone, Debug)]
pub struct LineIndex {
    line_starts: Vec<usize>,
}

impl View for LineIndex {
    type V = Seq<usize>;

    closed spec fn view(&self) -> Seq<usize> {
        self.line_starts@
    }
}

impl LineIndex {
    /// The index starts at 0 and increases strictly.
    pub open spec fn wf(&self) -> bool {
        &&& self@.len() > 0
        &&& self@[0] == 0
        &&& forall|i: int, j: int| 0 <= i < j < self@.len() ==> self@[i] < self@[j]
    }

    /// Number of line starts at or before `offset`.
    pub open spec fn starts_at_or_before(starts: Seq<usize>, offset: usize) -> nat
        decreases starts.len(),
    {
        if starts.len() == 0 {
            0
        } else {
            Self::starts_at_or_before(starts.drop_last(), offset) + if starts.last() <= offset {
                1nat
            } else {
                0nat
            }
        }
    }

    /// Build a line index from source text.
    pub fn new(text: &str) -> (res: Self)
        ensures
            res@ == line_starts_of(text.spec_bytes()),
            res.wf(),
    {
        let bytes = text.as_bytes();
        let n = bytes.len();
        let mut line_starts: Vec<usize> = Vec::new();
        line_starts.push(0);
        let mut i: usize = 0;
        proof {
            assert(bytes@.take(0) =~= Seq::<u8>::empty());
        }
        loop
            invariant
                i <= n,
                n == bytes@.len(),
                bytes@ == text.spec_bytes(),
                line_starts@ == line_starts_of(bytes@.take(i as int)),
                line_starts@.len() > 0,
                line_starts@[0] == 0,
                line_starts@.last() == i || (i > 0 && line_starts@.last() < i),
                forall|a: int, b: int| 0 <= a < b < line_starts@.len() ==> line_starts@[a] < line_starts@[b],
                forall|a: int| 0 <= a < line_starts@.len() ==> line_starts@[a] <= i,
            decreases n - i,
        {
            let rest = &bytes[i..n];
            match find_byte(10u8, rest) {
                Some(pos) => {
                    proof {
                        assert forall|j: int| i <= j < i + pos implies bytes@[j] != 10u8 by {
                            assert(rest@[j - i] == bytes@[j]);
                        }
                        lemma_no_newline_extends(bytes@, i as int, (i + pos) as int);
                        assert(bytes@.take(i + pos + 1).drop_last() =~= bytes@.take(i + pos));
                    }
                    i = i + pos + 1;
                    line_starts.push(i);
                },
                None => {
                    proof {
                        assert forall|j: int| i <= j < n implies bytes@[j] != 10u8 by {
                            assert(rest@[j - i] == bytes@[j]);
                        }
                        lemma_no_newline_extends(bytes@, i as int, n as int);
                        assert(bytes@.take(n as int) =~= bytes@);
                    }
                    return LineIndex { line_starts };
                },
            }
        }
    }

    /// Convert a byte offset to 1-based (line, column); the column counts bytes.
    pub fn line_col(&self, offset: usize) -> (res: (usize, usize))
        requires
            self.wf(),
            offset - self@[Self::starts_at_or_before(self@, offset) - 1] + 1 <= usize::MAX,
        ensures
            res.0 == Self::starts_at_or_before(self@, offset),
            res.1 == offset - self@[res.0 - 1] + 1,
    {
        // Binary search for the number of starts that are <= offset.
        let n = self.line_starts.len();
        let mut lo: usize = 0;
        let mut hi: usize = n;
        while lo < hi
            invariant
                self.wf(),
                n == self@.len(),
                lo <= hi <= n,
                forall|k: int| 0 <= k < lo ==> self@[k] <= offset,
                forall|k: int| hi <= k < n ==> self@[k] > offset,
            decreases hi - lo,
        {
            let mid = lo + (hi - lo) / 2;
            if self.line_starts[mid] <= offset {
                lo = mid + 1;
            } else {
                hi = mid;
            }
        }
        proof {
            lemma_count_prefix(self@, offset, lo as int);
        }
        let line_start = self.line_starts[lo - 1];
        (lo, offset - line_start + 1)
    }
}

proof fn lemma_no_newline_extends(text: Seq<u8>, from: int, to: int)
    requires
        0 <= from <= to <= text.len(),
        forall|j: int| from <= j < to ==> text[j] != 10u8,
    ensures
        line_starts_of(text.take(to)) == line_starts_of(text.take(from)),
    decreases to - from,
{
    if to > from {
        assert(text.take(to).drop_last() =~= text.take(to - 1));
        lemma_no_newline_extends(text, from, to - 1);
    }
}

proof fn lemma_count_prefix(starts: Seq<usize>, offset: usize, lo: int)
    requires
        0 <= lo <= starts.len(),
        forall|k: int| 0 <= k < lo ==> starts[k] <= offset,
        forall|k: int| lo <= k < starts.len() ==> starts[k] > offset,
    ensures
        LineIndex::starts_at_or_before(starts, offset) == lo,
    decreases starts.len(),
{
    if starts.len() > 0 {
        if lo == starts.len() {
            lemma_count_prefix(starts.drop_last(), offset, lo - 1);
        } else {
            lemma_count_prefix(starts.drop_last(), offset, lo);
        }
    }
}

// ── Lines and newlines ──

/// The number of newline bytes in `s`.
pub open spec fn newline_count(s: Seq<u8>) -> nat
    decreases s.len(),
{
    if s.len() == 0 {
        0
    } else {
        newline_count(s.drop_last()) + if s.last() == 10u8 {
            1nat
        } else {
            0nat
        }
    }
}

/// Where the last line of `s` starts: just after its last newline, or at 0.
pub open spec fn last_line_start(s: Seq<u8>) -> int
    decreases s.len(),
{
    if s.len() == 0 {
        0
    } else if s.last() == 10u8 {
        s.len() as int
    } else {
        last_line_start(s.drop_last())
    }
}

/// Every line start lies within the text, and there is at least one.
proof fn lemma_starts_within(text: Seq<u8>)
    ensures
        line_starts_of(text).len() >= 1,
        forall|i: int| 0 <= i < line_starts_of(text).len() ==> #[trigger] line_starts_of(text)[i] <= text.len(),
    decreases text.len(),
{
    if text.len() > 0 {
        lemma_starts_within(text.drop_last());
    }
}

/// All of `starts` at or before `offset`: counting them counts them all.
proof fn lemma_count_all(starts: Seq<usize>, offset: usize)
    requires
        forall|i: int| 0 <= i < starts.len() ==> #[trigger] starts[i] <= offset,
    ensures
        LineIndex::starts_at_or_before(starts, offset) == starts.len(),
    decreases starts.len(),
{
    if starts.len() > 0 {
        lemma_count_all(starts.drop_last(), offset);
    }
}

/// At most all of `starts` are at or before `offset`.
proof fn lemma_count_at_most(starts: Seq<usize>, offset: usize)
    ensures
        LineIndex::starts_at_or_before(starts, offset) <= starts.len(),
    decreases starts.len(),
{
    if starts.len() > 0 {
        lemma_count_at_most(starts.drop_last(), offset);
    }
}

/// The line of a byte offset is one more than the newlines before it, and
/// the line starts just after the last of those newlines (or at 0): so
/// `line_col` gives one plus the newlines before the offset, and the bytes
/// from the line's start up to the offset, plus one.
pub proof fn law_line_col_counts_newlines(text: Seq<u8>, offset: usize)
    requires
        offset <= text.len() <= usize::MAX,
    ensures
        LineIndex::starts_at_or_before(line_starts_of(text), offset) == 1 + newline_count(text.take(offset as int)),
        line_starts_of(text)[LineIndex::starts_at_or_before(line_starts_of(text), offset) - 1] == last_line_start(
            text.take(offset as int),
        ),
    decreases text.len(),
{
    if text.len() == 0 {
        assert(text.take(offset as int) =~= Seq::<u8>::empty());
        let one = line_starts_of(text);
        assert(one == seq![0usize]);
        assert(one.drop_last() =~= Seq::<usize>::empty());
        assert(one.last() == 0usize);
        assert(LineIndex::starts_at_or_before(Seq::<usize>::empty(), offset) == 0);
        assert(LineIndex::starts_at_or_before(one, offset) == 1);
    } else {
        let t = text.drop_last();
        let l = line_starts_of(t);
        lemma_starts_within(t);
        lemma_starts_within(text);
        if (offset as int) < text.len() {
            law_line_col_counts_newlines(t, offset);
            assert(text.take(offset as int) =~= t.take(offset as int));
            lemma_count_at_most(l, offset);
            let k = LineIndex::starts_at_or_before(l, offset);
            assert(1 <= k <= l.len());
            if text.last() == 10u8 {
                let big = l.push(text.len() as usize);
                assert(line_starts_of(text) == big);
                assert(big.drop_last() =~= l);
                assert(big.last() == text.len() as usize);
                assert(LineIndex::starts_at_or_before(big, offset) == k);
                assert(big[k - 1] == l[k - 1]);
            } else {
                assert(line_starts_of(text) == l);
            }
            assert(LineIndex::starts_at_or_before(line_starts_of(text), offset) == 1 + newline_count(text.take(offset as int)));
        } else {
            let o1 = (offset - 1) as usize;
            law_line_col_counts_newlines(t, o1);
            assert(t.take(o1 as int) =~= t);
            assert(text.take(offset as int) =~= text);
            lemma_count_all(l, offset);
            lemma_count_all(l, o1);
            assert(newline_count(text) == newline_count(t) + if text.last() == 10u8 { 1nat } else { 0nat });
            if text.last() == 10u8 {
                let big = l.push(text.len() as usize);
                assert(line_starts_of(text) == big);
                assert(big.drop_last() =~= l);
                assert(big.last() == text.len() as usize);
                assert(LineIndex::starts_at_or_before(big, offset) == l.len() + 1);
                assert(big[l.len() as int] == text.len() as usize);
                assert(last_line_start(text) == text.len());
            } else {
                assert(line_starts_of(text) == l);
                assert(last_line_start(text) == last_line_start(t));
            }
        }
    }
}

} // verus!
