use vstd::prelude::*;

verus! {

/// Byte value of `\n`.
pub const LF: u8 = 10;

/// Byte value of `\r`.
pub const CR: u8 = 13;

/// `j` is the first byte offset of a logical line other than line 0: it
/// immediately follows a line terminator. A line boundary occurs after `\n`,
/// after a `\r` not immediately followed by `\n`, and after the two-byte
/// sequence `\r\n` (one boundary, consuming both bytes).
pub open spec fn is_line_start(s: Seq<u8>, j: int) -> bool {
    &&& 0 < j <= s.len()
    &&& (s[j - 1] == LF || (s[j - 1] == CR && (j == s.len() || s[j] != LF)))
}

/// All line starts `j` of `s` with `lo <= j < hi`, in increasing order.
pub open spec fn line_starts_in(s: Seq<u8>, lo: int, hi: int) -> Seq<int>
    decreases hi - lo,
{
    if lo >= hi {
        Seq::empty()
    } else if is_line_start(s, lo) {
        seq![lo] + line_starts_in(s, lo + 1, hi)
    } else {
        line_starts_in(s, lo + 1, hi)
    }
}

/// The line starts contributed by a scan of `text` up to boundary position
/// `upto` (exclusive), preceded by the scan base 0 when the scan begins at a
/// line start.
pub open spec fn line_offsets_upto(text: Seq<u8>, is_at_line_start: bool, upto: int) -> Seq<int> {
    (if is_at_line_start {
        seq![0int]
    } else {
        Seq::empty()
    }) + line_starts_in(text, 1, upto)
}

/// What a full terminator scan of `text` yields, relative to the scan base.
pub open spec fn spec_line_offsets(text: Seq<u8>, is_at_line_start: bool) -> Seq<int> {
    line_offsets_upto(text, is_at_line_start, text.len() as int + 1)
}

/// The complete line-start table of a buffer: offset 0, then every line
/// start, in increasing order.
pub open spec fn line_starts(s: Seq<u8>) -> Seq<int> {
    spec_line_offsets(s, true)
}

/// `offs` holds exactly the offsets `base + starts[k]`.
pub open spec fn offsets_match(offs: Seq<u32>, starts: Seq<int>, base: int) -> bool {
    &&& offs.len() == starts.len()
    &&& forall|k: int| 0 <= k < offs.len() ==> offs[k] == base + starts[k]
}

/// Extending the scanned range by one boundary position appends that
/// position exactly when it is a line start.
pub proof fn lemma_line_starts_in_snoc(s: Seq<u8>, lo: int, hi: int)
    requires
        lo <= hi,
    ensures
        line_starts_in(s, lo, hi + 1) == line_starts_in(s, lo, hi)
            + (if is_line_start(s, hi) {
            seq![hi]
        } else {
            Seq::<int>::empty()
        }),
    decreases hi - lo,
{
    let tail = if is_line_start(s, hi) {
        seq![hi]
    } else {
        Seq::<int>::empty()
    };
    if lo >= hi {
        reveal_with_fuel(line_starts_in, 2);
        assert(line_starts_in(s, lo, hi) + tail =~= line_starts_in(s, lo, hi + 1));
    } else {
        lemma_line_starts_in_snoc(s, lo + 1, hi);
        if is_line_start(s, lo) {
            assert((seq![lo] + line_starts_in(s, lo + 1, hi)) + tail =~= seq![lo]
                + (line_starts_in(s, lo + 1, hi) + tail));
        }
    }
}

/// Every element of `line_starts_in` lies in range and is a line start, the
/// sequence is strictly increasing, and it contains every line start in
/// range.
pub proof fn lemma_line_starts_in_props(s: Seq<u8>, lo: int, hi: int)
    ensures
        forall|k: int| 0 <= k < line_starts_in(s, lo, hi).len() ==> lo
            <= #[trigger] line_starts_in(s, lo, hi)[k] < hi && is_line_start(
            s,
            line_starts_in(s, lo, hi)[k],
        ),
        forall|k1: int, k2: int|
            0 <= k1 < k2 < line_starts_in(s, lo, hi).len() ==> #[trigger] line_starts_in(
                s,
                lo,
                hi,
            )[k1] < #[trigger] line_starts_in(s, lo, hi)[k2],
        forall|j: int| lo <= j < hi && is_line_start(s, j) ==> line_starts_in(s, lo, hi).contains(
            j,
        ),
    decreases hi - lo,
{
    if lo >= hi {
    } else {
        lemma_line_starts_in_props(s, lo + 1, hi);
        let r = line_starts_in(s, lo, hi);
        let rt = line_starts_in(s, lo + 1, hi);
        if is_line_start(s, lo) {
            assert(r == seq![lo] + rt);
            assert(forall|k: int| 0 <= k < rt.len() ==> r[k + 1] == rt[k]);
            assert forall|j: int| lo <= j < hi && is_line_start(s, j) implies r.contains(
                j,
            ) by {
                if j == lo {
                    assert(r[0] == lo);
                } else {
                    let k = choose|k: int| 0 <= k < rt.len() && rt[k] == j;
                    assert(r[k + 1] == j);
                }
            }
        } else {
            assert forall|j: int| lo <= j < hi && is_line_start(s, j) implies r.contains(
                j,
            ) by {
                let k = choose|k: int| 0 <= k < rt.len() && rt[k] == j;
                assert(r[k] == j);
            }
        }
    }
}

/// Two strictly increasing integer sequences with the same members are
/// equal.
pub proof fn lemma_sorted_distinct_seqs_equal(a: Seq<int>, b: Seq<int>)
    requires
        forall|k1: int, k2: int| 0 <= k1 < k2 < a.len() ==> #[trigger] a[k1] < #[trigger] a[k2],
        forall|k1: int, k2: int| 0 <= k1 < k2 < b.len() ==> #[trigger] b[k1] < #[trigger] b[k2],
        forall|j: int| a.contains(j) <==> b.contains(j),
    ensures
        a =~= b,
    decreases a.len(),
{
    if a.len() == 0 {
        if b.len() > 0 {
            assert(b.contains(b[0]));
            assert(a.contains(b[0]));
        }
    } else {
        assert(a.contains(a[0]));
        assert(b.contains(a[0]));
        assert(b.len() > 0);
        assert(b.contains(b[0]));
        assert(a.contains(b[0]));
        let ka = choose|k: int| 0 <= k < a.len() && a[k] == b[0];
        let kb = choose|k: int| 0 <= k < b.len() && b[k] == a[0];
        assert(a[0] <= a[ka]);
        assert(b[0] <= b[kb]);
        assert(a[0] == b[0]);
        let at = a.subrange(1, a.len() as int);
        let bt = b.subrange(1, b.len() as int);
        assert forall|j: int| at.contains(j) implies bt.contains(j) by {
            let k = choose|k: int| 0 <= k < at.len() && at[k] == j;
            assert(a[k + 1] == j);
            assert(a.contains(j));
            assert(b.contains(j));
            let kj = choose|k2: int| 0 <= k2 < b.len() && b[k2] == j;
            assert(j > a[0]);
            assert(kj != 0);
            assert(bt[kj - 1] == j);
        }
        assert forall|j: int| bt.contains(j) implies at.contains(j) by {
            let k = choose|k: int| 0 <= k < bt.len() && bt[k] == j;
            assert(b[k + 1] == j);
            assert(b.contains(j));
            assert(a.contains(j));
            let kj = choose|k2: int| 0 <= k2 < a.len() && a[k2] == j;
            assert(j > b[0]);
            assert(kj != 0);
            assert(at[kj - 1] == j);
        }
        lemma_sorted_distinct_seqs_equal(at, bt);
        assert(a =~= seq![a[0]] + at);
        assert(b =~= seq![b[0]] + bt);
    }
}

/// A strictly increasing sequence of integers drawn from `[lo, hi)` cannot
/// have more elements than that interval has integers.
pub proof fn lemma_increasing_seq_bound(a: Seq<int>, lo: int, hi: int)
    requires
        lo <= hi,
        forall|k1: int, k2: int| 0 <= k1 < k2 < a.len() ==> #[trigger] a[k1] < #[trigger] a[k2],
        forall|k: int| 0 <= k < a.len() ==> lo <= #[trigger] a[k] < hi,
    ensures
        a.len() <= hi - lo,
    decreases a.len(),
{
    if a.len() > 0 {
        let b = a.drop_last();
        assert(lo <= a[0] < hi);
        assert(forall|k: int| 0 <= k < b.len() ==> b[k] == a[k]);
        assert forall|k: int| 0 <= k < b.len() implies lo <= #[trigger] b[k] < hi - 1 by {
            assert(a[k] < a[a.len() - 1]);
            assert(a[a.len() - 1] < hi);
        }
        lemma_increasing_seq_bound(b, lo, hi - 1);
    }
}

/// The scan base encoded by the optional offset argument of
/// `computed_line_offsets`.
pub open spec fn spec_base(text_offset: Option<u32>) -> int {
    match text_offset {
        Some(b) => b as int,
        None => 0,
    }
}

/// Scans `text` for line terminators and returns the byte offset immediately
/// following each one, shifted by the scan base; when `is_at_line_start`
/// holds, the base itself is recorded first.
pub fn computed_line_offsets(text: &Vec<u8>, is_at_line_start: bool, text_offset: Option<u32>) -> (r:
    Vec<u32>)
    requires
        spec_base(text_offset) + text@.len() <= u32::MAX,
    ensures
        offsets_match(
            r@,
            spec_line_offsets(text@, is_at_line_start),
            spec_base(text_offset),
        ),
{
    let base: u32 = match text_offset {
        Some(b) => b,
        None => 0,
    };
    let mut r: Vec<u32> = Vec::new();
    if is_at_line_start {
        r.push(base);
    }
    let n = text.len();
    let mut i: usize = 0;
    while i < n
        invariant
            n == text@.len(),
            base == spec_base(text_offset),
            base + n <= u32::MAX,
            i <= n,
            offsets_match(r@, line_offsets_upto(text@, is_at_line_start, i as int + 1), base as int),
        decreases n - i,
    {
        let b = text[i];
        if b == CR {
            if i + 1 < n && text[i + 1] == LF {
                r.push(base + (i as u32) + 2);
                proof {
                    lemma_line_starts_in_snoc(text@, 1, i + 1);
                    lemma_line_starts_in_snoc(text@, 1, i + 2);
                    assert(!is_line_start(text@, i + 1));
                    assert(is_line_start(text@, i + 2));
                }
                i = i + 2;
            } else {
                r.push(base + (i as u32) + 1);
                proof {
                    lemma_line_starts_in_snoc(text@, 1, i + 1);
                    assert(is_line_start(text@, i + 1));
                }
                i = i + 1;
            }
        } else if b == LF {
            r.push(base + (i as u32) + 1);
            proof {
                lemma_line_starts_in_snoc(text@, 1, i + 1);
                assert(is_line_start(text@, i + 1));
            }
            i = i + 1;
        } else {
            proof {
                lemma_line_starts_in_snoc(text@, 1, i + 1);
                assert(!is_line_start(text@, i + 1));
            }
            i = i + 1;
        }
    }
    r
}

} // verus!
