use vstd::prelude::*;

use crate::chars::byte_offset_of;
use crate::chars::line_byte_offset;
use crate::chars::line_offset_utf16;
use crate::chars::lemma_byte_offset_of_bounds;
use crate::chars::lemma_utf16_len_to_bounds;
use crate::chars::utf16_len_to;
use crate::lines::computed_line_offsets;
use crate::lines::lemma_increasing_seq_bound;
use crate::lines::lemma_line_starts_in_props;
use crate::lines::line_starts;
use crate::lines::offsets_match;
use crate::lines::CR;
use crate::lines::LF;
use crate::types::ContractViolation;
use crate::types::Position;
use crate::types::Range;
use crate::types::TextDocumentContentChangeEvent;

verus! {

/// A line-offset table is well formed for a buffer when it starts with 0,
/// is strictly increasing, stays within the buffer, and every entry other
/// than the first immediately follows a line-terminator byte.
pub open spec fn wf_table(content: Seq<u8>, offs: Seq<u32>) -> bool {
    &&& offs.len() >= 1
    &&& offs[0] == 0
    &&& forall|k1: int, k2: int| 0 <= k1 < k2 < offs.len() ==> #[trigger] offs[k1] < #[trigger] offs[k2]
    &&& forall|k: int| 0 <= k < offs.len() ==> #[trigger] offs[k] <= content.len()
    &&& forall|k: int|
        1 <= k < offs.len() ==> (content[#[trigger] offs[k] as int - 1] == LF || content[offs[k] as int
            - 1] == CR)
}

/// A well-formed table has at most one entry per buffer offset.
pub proof fn lemma_wf_table_len(content: Seq<u8>, offs: Seq<u32>)
    requires
        wf_table(content, offs),
    ensures
        offs.len() <= content.len() + 1,
{
    let a = Seq::new(offs.len(), |k: int| offs[k] as int);
    lemma_increasing_seq_bound(a, 0, content.len() as int + 1);
}

/// A table that matches the full terminator scan of the buffer is well
/// formed.
pub proof fn lemma_synced_table_wf(content: Seq<u8>, offs: Seq<u32>)
    requires
        offsets_match(offs, line_starts(content), 0),
    ensures
        wf_table(content, offs),
{
    lemma_line_starts_in_props(content, 1, content.len() as int + 1);
    let starts = line_starts(content);
    assert(starts[0] == 0);
    assert(forall|k: int|
        1 <= k < starts.len() ==> starts[k] == crate::lines::line_starts_in(
            content,
            1,
            content.len() as int + 1,
        )[k - 1]);
}

/// The greatest index `l` with `offs[l] <= o`; the line containing byte
/// offset `o`.
pub open spec fn spec_line_of(offs: Seq<u32>, o: int) -> int
    decreases offs.len(),
{
    if offs.len() == 0 {
        0
    } else if offs[offs.len() - 1] <= o {
        offs.len() - 1
    } else {
        spec_line_of(offs.drop_last(), o)
    }
}

/// For a well-formed table and an in-range offset, `spec_line_of` picks the
/// unique index whose line span contains the offset.
pub proof fn lemma_spec_line_of(content: Seq<u8>, offs: Seq<u32>, o: int)
    requires
        wf_table(content, offs),
        0 <= o,
    ensures
        0 <= spec_line_of(offs, o) < offs.len(),
        offs[spec_line_of(offs, o)] <= o,
        spec_line_of(offs, o) + 1 < offs.len() ==> o < offs[spec_line_of(offs, o) + 1],
    decreases offs.len(),
{
    if offs[offs.len() - 1] <= o {
    } else {
        let b = offs.drop_last();
        assert(offs.len() >= 2);
        assert(forall|k: int| 0 <= k < b.len() ==> b[k] == offs[k]);
        assert(wf_table(content, b));
        lemma_spec_line_of(content, b, o);
    }
}

/// Any index whose line span contains the offset is `spec_line_of`.
pub proof fn lemma_line_of_unique(content: Seq<u8>, offs: Seq<u32>, o: int, l: int)
    requires
        wf_table(content, offs),
        0 <= l < offs.len(),
        offs[l] <= o,
        l + 1 < offs.len() ==> o < offs[l + 1],
    ensures
        l == spec_line_of(offs, o),
{
    lemma_spec_line_of(content, offs, o);
    let m = spec_line_of(offs, o);
    if l < m {
        assert(offs[l + 1] <= offs[m]);
    } else if m < l {
        assert(offs[m + 1] <= offs[l]);
    }
}

/// The byte offset one past line `line`'s span (the next line's start, or
/// the end of the buffer for the last line).
pub open spec fn spec_line_end(content: Seq<u8>, offs: Seq<u32>, line: int) -> int {
    if line + 1 < offs.len() {
        offs[line + 1] as int
    } else {
        content.len() as int
    }
}

/// The bytes of line `line`, including its terminator.
pub open spec fn spec_line_slice(content: Seq<u8>, offs: Seq<u32>, line: int) -> Seq<u8> {
    content.subrange(offs[line] as int, spec_line_end(content, offs, line))
}

/// The byte offset denoted by a (line, UTF-16 character) position: positions
/// past the last line clamp to the buffer's end, and the character count is
/// resolved within the line by UTF-16 width, clamping to the line's end.
pub open spec fn spec_offset_at(content: Seq<u8>, offs: Seq<u32>, line: int, character: int) -> int {
    if line >= offs.len() {
        content.len() as int
    } else {
        offs[line] + byte_offset_of(spec_line_slice(content, offs, line), 0, 0, character)
    }
}

/// The position denoting byte offset `o`: the offset is clamped to the
/// buffer, its line is the greatest line starting at or before it, and its
/// character is the UTF-16 length of the line's bytes before it, rounding
/// down to a character start.
pub open spec fn spec_position_at(content: Seq<u8>, offs: Seq<u32>, o: int) -> Position {
    let o2 = if o > content.len() {
        content.len() as int
    } else {
        o
    };
    let l = spec_line_of(offs, o2);
    Position {
        line: l as u32,
        character: utf16_len_to(spec_line_slice(content, offs, l), 0, o2 - offs[l]) as u32,
    }
}

/// The resolved byte offset of a position, after which the position's
/// canonical line is the line actually containing that offset.
pub open spec fn spec_canonical_offset(content: Seq<u8>, offs: Seq<u32>, p: Position) -> int {
    spec_offset_at(content, offs, p.line as int, p.character as int)
}

/// A position/offset conversion never leaves the line span it resolves in,
/// nor the buffer.
pub proof fn lemma_spec_offset_at_bounds(content: Seq<u8>, offs: Seq<u32>, line: int, character: int)
    requires
        wf_table(content, offs),
        0 <= line,
    ensures
        0 <= spec_offset_at(content, offs, line, character) <= content.len(),
        line < offs.len() ==> offs[line] <= spec_offset_at(content, offs, line, character)
            <= spec_line_end(content, offs, line),
{
    if line < offs.len() {
        let s = spec_line_slice(content, offs, line);
        lemma_byte_offset_of_bounds(s, 0, 0, character);
    }
}

/// The line-start table freshly computed for a buffer.
pub open spec fn table_of(content: Seq<u8>) -> Seq<u32> {
    Seq::new(line_starts(content).len(), |k: int| line_starts(content)[k] as u32)
}

/// A ranged edit is valid when its canonicalized start offset does not
/// exceed its canonicalized end offset; a full replacement always is.
pub open spec fn change_valid(
    content: Seq<u8>,
    offs: Seq<u32>,
    c: TextDocumentContentChangeEvent,
) -> bool {
    match c.range {
        Some(r) => spec_canonical_offset(content, offs, r.start) <= spec_canonical_offset(
            content,
            offs,
            r.end,
        ),
        None => true,
    }
}

/// The buffer that results from applying one edit would still have every
/// byte offset fit in `u32`.
pub open spec fn change_fits(
    content: Seq<u8>,
    offs: Seq<u32>,
    c: TextDocumentContentChangeEvent,
) -> bool {
    match c.range {
        Some(r) => {
            let s_off = spec_canonical_offset(content, offs, r.start);
            let e_off = spec_canonical_offset(content, offs, r.end);
            content.len() - (e_off - s_off) + c.text@.len() < u32::MAX
        },
        None => c.text@.len() < u32::MAX,
    }
}

/// The error value reported for an inverted range: both canonicalized
/// positions and both resolved offsets.
pub open spec fn spec_violation(content: Seq<u8>, offs: Seq<u32>, r: Range) -> ContractViolation {
    let s_off = spec_canonical_offset(content, offs, r.start);
    let e_off = spec_canonical_offset(content, offs, r.end);
    ContractViolation {
        start: spec_position_at(content, offs, s_off),
        end: spec_position_at(content, offs, e_off),
        start_offset: s_off as u32,
        end_offset: e_off as u32,
    }
}

/// The document state after one edit. A full replacement recomputes the
/// table from scratch. A ranged edit replaces the byte span between the
/// canonicalized offsets with the edit's text, discards the table entries
/// for the lines inside that span, splices in the line starts found in the
/// inserted text, and shifts every later entry by the edit's length delta.
pub open spec fn spec_apply_change(
    content: Seq<u8>,
    offs: Seq<u32>,
    c: TextDocumentContentChangeEvent,
) -> (Seq<u8>, Seq<u32>) {
    match c.range {
        None => (c.text@, table_of(c.text@)),
        Some(r) => {
            let s_off = spec_canonical_offset(content, offs, r.start);
            let e_off = spec_canonical_offset(content, offs, r.end);
            let s_line = spec_line_of(offs, s_off);
            let e_line = spec_line_of(offs, e_off);
            let t = c.text@;
            let delta = t.len() - (e_off - s_off);
            let new_content = content.subrange(0, s_off) + t + content.subrange(
                e_off,
                content.len() as int,
            );
            let added = crate::lines::line_starts_in(t, 1, t.len() as int + 1);
            let new_offs = offs.subrange(0, s_line + 1) + Seq::new(
                added.len(),
                |k: int| (s_off + added[k]) as u32,
            ) + Seq::new(
                (offs.len() - (e_line + 1)) as nat,
                |k: int| (offs[e_line + 1 + k] + delta) as u32,
            );
            (new_content, new_offs)
        },
    }
}

/// The value at index `k` of a spliced line-offset table: entries up to the
/// start line are kept, then come the line starts of the inserted text, then
/// the kept later entries shifted by the edit's length delta.
pub open spec fn spliced_entry(
    offs: Seq<u32>,
    added: Seq<int>,
    s_line: int,
    e_line: int,
    s_off: int,
    delta: int,
    k: int,
) -> int {
    if k <= s_line {
        offs[k] as int
    } else if k <= s_line + added.len() {
        s_off + added[k - s_line - 1]
    } else {
        offs[e_line + k - s_line - added.len()] + delta
    }
}

/// Applying a valid, fitting edit to a well-formed document yields a
/// well-formed document of the expected length.
#[verifier::rlimit(100)]
pub proof fn lemma_apply_change_wf(
    content: Seq<u8>,
    offs: Seq<u32>,
    c: TextDocumentContentChangeEvent,
)
    requires
        content.len() < u32::MAX,
        wf_table(content, offs),
        change_valid(content, offs, c),
        change_fits(content, offs, c),
    ensures
        ({
            let (c2, o2) = spec_apply_change(content, offs, c);
            &&& c2.len() < u32::MAX
            &&& wf_table(c2, o2)
        }),
{
    let (c2, o2) = spec_apply_change(content, offs, c);
    match c.range {
        None => {
            lemma_line_starts_in_props(c.text@, 1, c.text@.len() as int + 1);
            let starts = line_starts(c.text@);
            assert(forall|k: int|
                1 <= k < starts.len() ==> starts[k] == crate::lines::line_starts_in(
                    c.text@,
                    1,
                    c.text@.len() as int + 1,
                )[k - 1]);
            assert(offsets_match(table_of(c.text@), starts, 0));
            lemma_synced_table_wf(c.text@, table_of(c.text@));
        },
        Some(r) => {
            let s_off = spec_canonical_offset(content, offs, r.start);
            let e_off = spec_canonical_offset(content, offs, r.end);
            lemma_spec_offset_at_bounds(content, offs, r.start.line as int, r.start.character as int);
            lemma_spec_offset_at_bounds(content, offs, r.end.line as int, r.end.character as int);
            let s_line = spec_line_of(offs, s_off);
            let e_line = spec_line_of(offs, e_off);
            lemma_spec_line_of(content, offs, s_off);
            lemma_spec_line_of(content, offs, e_off);
            let t = c.text@;
            let delta = t.len() - (e_off - s_off);
            lemma_line_starts_in_props(t, 1, t.len() as int + 1);
            let added = crate::lines::line_starts_in(t, 1, t.len() as int + 1);
            let pre = offs.subrange(0, s_line + 1);
            let mid = Seq::new(added.len(), |k: int| (s_off + added[k]) as u32);
            let post = Seq::new((offs.len() - (e_line + 1)) as nat, |k: int| (offs[e_line + 1 + k] + delta) as u32);
            let n_pre = s_line + 1;
            let n_mid = added.len() as int;
            assert(o2 == pre + mid + post);
            assert(o2.len() == n_pre + n_mid + post.len());
            assert(c2.len() == content.len() + delta);
            // the edit's span lies inside the two canonical lines
            assert(offs[s_line] <= s_off);
            assert(offs[e_line] <= e_off);
            assert(e_line + 1 < offs.len() ==> e_off < offs[e_line + 1]);
            assert(s_line <= e_line) by {
                if e_line < s_line {
                    assert(offs[e_line + 1] <= offs[s_line]);
                }
            }
            // each entry of the spliced table, as an integer
            assert forall|k: int| 0 <= k < o2.len() implies #[trigger] o2[k] as int == spliced_entry(
                offs,
                added,
                s_line,
                e_line,
                s_off,
                delta,
                k,
            ) by {
                let v = spliced_entry(offs, added, s_line, e_line, s_off, delta, k);
                if k < n_pre {
                    assert(o2[k] == pre[k]);
                    assert(offs[k] <= content.len());
                } else if k < n_pre + n_mid {
                    assert(o2[k] == mid[k - n_pre]);
                    assert(1 <= added[k - n_pre] <= t.len());
                    assert(e_off <= content.len());
                    assert(0 <= v <= content.len() + delta);
                } else {
                    assert(o2[k] == post[k - n_pre - n_mid]);
                    assert(e_off < offs[e_line + 1 + (k - n_pre - n_mid)]);
                    assert(offs[e_line + 1 + (k - n_pre - n_mid)] <= content.len());
                    assert(0 <= v <= content.len() + delta);
                }
            }
            assert(o2[0] as int == spliced_entry(offs, added, s_line, e_line, s_off, delta, 0));
            assert(o2[0] == 0);
            // the spliced table is strictly increasing
            assert forall|k1: int, k2: int| 0 <= k1 < k2 < o2.len() implies #[trigger] o2[k1]
                < #[trigger] o2[k2] by {
                let v1 = spliced_entry(offs, added, s_line, e_line, s_off, delta, k1);
                let v2 = spliced_entry(offs, added, s_line, e_line, s_off, delta, k2);
                assert(o2[k1] as int == v1);
                assert(o2[k2] as int == v2);
                if k1 <= s_line {
                    assert(offs[k1] <= offs[s_line]);
                } else if k1 <= s_line + n_mid {
                    assert(1 <= added[k1 - s_line - 1] <= t.len());
                } else {
                    assert(e_off < offs[e_line + k1 - s_line - n_mid]);
                }
                if k2 <= s_line {
                } else if k2 <= s_line + n_mid {
                    assert(1 <= added[k2 - s_line - 1] <= t.len());
                    if s_line < k1 && k1 <= s_line + n_mid {
                        assert(added[k1 - s_line - 1] < added[k2 - s_line - 1]);
                    }
                } else {
                    assert(e_off < offs[e_line + k2 - s_line - n_mid]);
                    if k1 > s_line + n_mid {
                        assert(offs[e_line + k1 - s_line - n_mid] < offs[e_line + k2 - s_line
                            - n_mid]);
                    }
                }
            }
            // every entry stays within the new buffer
            assert forall|k: int| 0 <= k < o2.len() implies #[trigger] o2[k] <= c2.len() by {
                assert(o2[k] as int == spliced_entry(offs, added, s_line, e_line, s_off, delta, k));
                if k <= s_line {
                    assert(offs[k] <= offs[s_line]);
                    assert(e_off <= content.len());
                } else if k <= s_line + n_mid {
                    assert(added[k - s_line - 1] <= t.len());
                    assert(e_off <= content.len());
                } else {
                    assert(offs[e_line + k - s_line - n_mid] <= content.len());
                }
            }
            // every entry but the first still follows a terminator byte
            assert forall|k: int| 1 <= k < o2.len() implies (c2[#[trigger] o2[k] as int - 1] == LF
                || c2[o2[k] as int - 1] == CR) by {
                assert(o2[k] as int == spliced_entry(offs, added, s_line, e_line, s_off, delta, k));
                if k <= s_line {
                    let j = offs[k] as int;
                    assert(offs[k] <= offs[s_line]);
                    assert(c2[j - 1] == (content.subrange(0, s_off))[j - 1]);
                    assert(c2[j - 1] == content[j - 1]);
                } else if k <= s_line + n_mid {
                    let a = added[k - s_line - 1];
                    assert(crate::lines::is_line_start(t, a));
                    assert(1 <= a <= t.len());
                    assert(c2[s_off + a - 1] == t[a - 1]);
                } else {
                    let j0 = offs[e_line + k - s_line - n_mid] as int;
                    assert(e_off < j0 <= content.len());
                    assert(c2[j0 + delta - 1] == (content.subrange(e_off, content.len() as int))[j0
                        - 1 - e_off]);
                    assert(c2[j0 + delta - 1] == content[j0 - 1]);
                }
            }
        },
    }
}

/// The document state after a sequence of edits, applied in order, together
/// with the error of the first invalid edit if there is one; editing stops
/// at that edit.
pub open spec fn spec_update(
    content: Seq<u8>,
    offs: Seq<u32>,
    changes: Seq<TextDocumentContentChangeEvent>,
) -> ((Seq<u8>, Seq<u32>), Option<ContractViolation>)
    decreases changes.len(),
{
    if changes.len() == 0 {
        ((content, offs), None)
    } else {
        let prev = spec_update(content, offs, changes.drop_last());
        if prev.1 is Some {
            prev
        } else {
            let st = prev.0;
            let c = changes.last();
            match c.range {
                Some(r) => {
                    if spec_canonical_offset(st.0, st.1, r.start) <= spec_canonical_offset(
                        st.0,
                        st.1,
                        r.end,
                    ) {
                        (spec_apply_change(st.0, st.1, c), None)
                    } else {
                        (st, Some(spec_violation(st.0, st.1, r)))
                    }
                },
                None => (spec_apply_change(st.0, st.1, c), None),
            }
        }
    }
}

/// Every intermediate buffer produced while applying the edits keeps its
/// byte offsets within `u32`.
pub open spec fn spec_update_fits(
    content: Seq<u8>,
    offs: Seq<u32>,
    changes: Seq<TextDocumentContentChangeEvent>,
) -> bool
    decreases changes.len(),
{
    if changes.len() == 0 {
        true
    } else {
        let c = changes[0];
        if change_valid(content, offs, c) {
            &&& change_fits(content, offs, c)
            &&& ({
                let st = spec_apply_change(content, offs, c);
                spec_update_fits(st.0, st.1, changes.drop_first())
            })
        } else {
            true
        }
    }
}

/// The total number of bytes of text the edits carry.
pub open spec fn texts_len(changes: Seq<TextDocumentContentChangeEvent>) -> int
    decreases changes.len(),
{
    if changes.len() == 0 {
        0
    } else {
        changes[0].text@.len() + texts_len(changes.drop_first())
    }
}

/// Edits carry a non-negative number of text bytes.
pub proof fn lemma_texts_len_nonneg(changes: Seq<TextDocumentContentChangeEvent>)
    ensures
        texts_len(changes) >= 0,
    decreases changes.len(),
{
    if changes.len() > 0 {
        lemma_texts_len_nonneg(changes.drop_first());
    }
}

/// A buffer never grows by more than the text its edits insert, so when the
/// initial length plus all inserted text stays below `u32::MAX`, so does
/// every intermediate buffer.
pub proof fn lemma_texts_len_fits(
    content: Seq<u8>,
    offs: Seq<u32>,
    changes: Seq<TextDocumentContentChangeEvent>,
)
    requires
        wf_table(content, offs),
        content.len() + texts_len(changes) < u32::MAX,
    ensures
        spec_update_fits(content, offs, changes),
    decreases changes.len(),
{
    lemma_texts_len_nonneg(changes);
    if changes.len() > 0 {
        let c = changes[0];
        lemma_texts_len_nonneg(changes.drop_first());
        if change_valid(content, offs, c) {
            match c.range {
                Some(r) => {
                    lemma_spec_offset_at_bounds(
                        content,
                        offs,
                        r.start.line as int,
                        r.start.character as int,
                    );
                    lemma_spec_offset_at_bounds(
                        content,
                        offs,
                        r.end.line as int,
                        r.end.character as int,
                    );
                },
                None => {},
            }
            assert(change_fits(content, offs, c));
            lemma_apply_change_wf(content, offs, c);
            let (c2, o2) = spec_apply_change(content, offs, c);
            assert(c2.len() + texts_len(changes.drop_first()) < u32::MAX);
            lemma_texts_len_fits(c2, o2, changes.drop_first());
        }
    }
}

/// Once a prefix of the edits has failed, the remaining edits change
/// nothing: the whole sequence yields the prefix's state and error.
pub proof fn lemma_spec_update_err_stable(
    content: Seq<u8>,
    offs: Seq<u32>,
    changes: Seq<TextDocumentContentChangeEvent>,
    k: int,
)
    requires
        0 <= k <= changes.len(),
        spec_update(content, offs, changes.subrange(0, k)).1 is Some,
    ensures
        spec_update(content, offs, changes) == spec_update(content, offs, changes.subrange(0, k)),
    decreases changes.len() - k,
{
    if k == changes.len() {
        assert(changes.subrange(0, k) =~= changes);
    } else {
        assert(changes.subrange(0, k + 1).drop_last() =~= changes.subrange(0, k));
        assert(changes.subrange(0, k + 1).last() == changes[k]);
        lemma_spec_update_err_stable(content, offs, changes, k + 1);
    }
}

/// Replaces the byte span `[s, e)` of `a` with the bytes of `t`.
fn splice_bytes(a: &Vec<u8>, s: usize, e: usize, t: &Vec<u8>) -> (r: Vec<u8>)
    requires
        s <= e <= a@.len(),
    ensures
        r@ == a@.subrange(0, s as int) + t@ + a@.subrange(e as int, a@.len() as int),
{
    let mut r = vstd::slice::slice_to_vec(vstd::slice::slice_subrange(a.as_slice(), 0, s));
    let mut m = vstd::slice::slice_to_vec(t.as_slice());
    r.append(&mut m);
    let mut b = vstd::slice::slice_to_vec(
        vstd::slice::slice_subrange(a.as_slice(), e, a.len()),
    );
    r.append(&mut b);
    r
}

/// The table entries from index `from` on, each shifted by the signed
/// length delta `inserted - removed` of an edit.
fn shift_tail(offs: &Vec<u32>, from: usize, removed: u32, inserted: u32) -> (r: Vec<u32>)
    requires
        from <= offs@.len(),
        forall|k: int|
            from <= k < offs@.len() ==> removed <= #[trigger] offs@[k] && offs@[k] - removed
                + inserted <= u32::MAX,
    ensures
        r@.len() == offs@.len() - from,
        forall|k: int|
            0 <= k < r@.len() ==> #[trigger] r@[k] == offs@[from + k] - removed + inserted,
{
    let mut r: Vec<u32> = Vec::new();
    let n = offs.len();
    let mut i = from;
    while i < n
        invariant
            n == offs@.len(),
            from <= i <= n,
            forall|k: int|
                from <= k < offs@.len() ==> removed <= #[trigger] offs@[k] && offs@[k] - removed
                    + inserted <= u32::MAX,
            r@.len() == i - from,
            forall|k: int|
                0 <= k < r@.len() ==> #[trigger] r@[k] == offs@[from + k] - removed + inserted,
        decreases n - i,
    {
        r.push(offs[i] - removed + inserted);
        i = i + 1;
    }
    r
}

/// One tracked text buffer: an opaque language tag, the caller-supplied
/// version, the content as UTF-8 bytes, and the table of line-start byte
/// offsets.
#[derive(Debug)]
pub struct FullTextDocument {
    language_id: String,
    version: i32,
    content: Vec<u8>,

    /// The value at index `i` is the byte offset into `content` of the
    /// first byte of line `i`; the first entry is always 0.
    line_offsets: Vec<u32>,
}

impl FullTextDocument {
    /// The document's language tag.
    pub closed spec fn spec_language_id(&self) -> Seq<char> {
        self.language_id@
    }

    /// The document's version.
    pub closed spec fn spec_version(&self) -> i32 {
        self.version
    }

    /// The document's content bytes.
    pub closed spec fn spec_content(&self) -> Seq<u8> {
        self.content@
    }

    /// The document's line-start table.
    pub closed spec fn spec_line_offsets(&self) -> Seq<u32> {
        self.line_offsets@
    }

    /// Every document keeps its content small enough that all byte offsets
    /// and the line count fit in `u32`, and keeps a well-formed line-offset
    /// table.
    pub open spec fn wf(&self) -> bool {
        &&& self.spec_content().len() < u32::MAX
        &&& wf_table(self.spec_content(), self.spec_line_offsets())
    }

    /// The line-offset table is exactly what a full terminator scan of the
    /// content yields.
    pub open spec fn is_synced(&self) -> bool {
        offsets_match(self.spec_line_offsets(), line_starts(self.spec_content()), 0)
    }

    /// Creates a document from its initial text, computing the line-offset
    /// table with a full terminator scan.
    pub fn new(language_id: String, version: i32, content: Vec<u8>) -> (d: Self)
        requires
            content@.len() < u32::MAX,
        ensures
            d.wf(),
            d.is_synced(),
            d.spec_language_id() == language_id@,
            d.spec_version() == version,
            d.spec_content() == content@,
    {
        let line_offsets = computed_line_offsets(&content, true, None);
        proof {
            lemma_synced_table_wf(content@, line_offsets@);
        }
        Self { language_id, version, content, line_offsets }
    }

    /// The document's language tag.
    pub fn language_id(&self) -> (r: &str)
        ensures
            r@ == self.spec_language_id(),
    {
        self.language_id.as_str()
    }

    /// The document's version.
    pub fn version(&self) -> (r: i32)
        ensures
            r == self.spec_version(),
    {
        self.version
    }

    /// The number of lines of the document.
    pub fn line_count(&self) -> (r: u32)
        requires
            self.wf(),
        ensures
            r == self.spec_line_offsets().len(),
    {
        proof {
            lemma_wf_table_len(self.spec_content(), self.spec_line_offsets());
        }
        self.line_offsets.len() as u32
    }

    /// The length of the document's content in UTF-8 bytes.
    pub fn content_len(&self) -> (r: u32)
        requires
            self.wf(),
        ensures
            r == self.spec_content().len(),
    {
        self.content.len() as u32
    }

    /// The document's line-start table.
    pub fn line_offsets(&self) -> (r: &Vec<u32>)
        ensures
            r@ == self.spec_line_offsets(),
    {
        &self.line_offsets
    }

    /// The content bytes denoted by `range`, or the whole content when
    /// `range` is `None`. The range's positions resolve to byte offsets the
    /// same way `offset_at` resolves them, so its start must not resolve
    /// past its end.
    pub fn get_content(&self, range: Option<Range>) -> (r: &[u8])
        requires
            self.wf(),
            match range {
                Some(rg) => spec_canonical_offset(
                    self.spec_content(),
                    self.spec_line_offsets(),
                    rg.start,
                ) <= spec_canonical_offset(self.spec_content(), self.spec_line_offsets(), rg.end),
                None => true,
            },
        ensures
            match range {
                Some(rg) => r@ == self.spec_content().subrange(
                    spec_canonical_offset(self.spec_content(), self.spec_line_offsets(), rg.start),
                    spec_canonical_offset(self.spec_content(), self.spec_line_offsets(), rg.end),
                ),
                None => r@ == self.spec_content(),
            },
    {
        match range {
            Some(rg) => {
                let start = self.offset_at(rg.start);
                let end = self.offset_at(rg.end);
                vstd::slice::slice_subrange(self.content.as_slice(), start as usize, end as usize)
            },
            None => self.content.as_slice(),
        }
    }

    /// The bytes of line `line` (terminator included) together with the
    /// line's start offset, or `None` past the last line.
    pub fn get_line_and_offset(&self, line: u32) -> (r: Option<(&[u8], u32)>)
        requires
            self.wf(),
        ensures
            match r {
                Some((s, off)) => {
                    &&& (line as int) < self.spec_line_offsets().len()
                    &&& s@ == spec_line_slice(
                        self.spec_content(),
                        self.spec_line_offsets(),
                        line as int,
                    )
                    &&& off == self.spec_line_offsets()[line as int]
                },
                None => line as int >= self.spec_line_offsets().len(),
            },
    {
        let li = line as usize;
        if li < self.line_offsets.len() {
            let start = self.line_offsets[li];
            let end = if li + 1 < self.line_offsets.len() {
                self.line_offsets[li + 1]
            } else {
                self.content.len() as u32
            };
            let s = vstd::slice::slice_subrange(
                self.content.as_slice(),
                start as usize,
                end as usize,
            );
            Some((s, start))
        } else {
            None
        }
    }

    /// The bytes of line `line` (terminator included), or `None` past the
    /// last line.
    pub fn get_line(&self, line: u32) -> (r: Option<&[u8]>)
        requires
            self.wf(),
        ensures
            match r {
                Some(s) => {
                    &&& (line as int) < self.spec_line_offsets().len()
                    &&& s@ == spec_line_slice(
                        self.spec_content(),
                        self.spec_line_offsets(),
                        line as int,
                    )
                },
                None => line as int >= self.spec_line_offsets().len(),
            },
    {
        match self.get_line_and_offset(line) {
            Some((s, _)) => Some(s),
            None => None,
        }
    }

    /// The index of the line containing byte offset `o`: the greatest index
    /// whose line starts at or before `o`, found by binary search.
    fn find_line(&self, o: u32) -> (l: usize)
        requires
            self.wf(),
        ensures
            l == spec_line_of(self.spec_line_offsets(), o as int),
            0 <= l < self.spec_line_offsets().len(),
            self.spec_line_offsets()[l as int] <= o,
            l + 1 < self.spec_line_offsets().len() ==> o < self.spec_line_offsets()[l as int + 1],
    {
        let ghost content = self.spec_content();
        let ghost offs = self.spec_line_offsets();
        let mut low: usize = 0;
        let mut high: usize = self.line_offsets.len() - 1;
        while low < high
            invariant
                self.wf(),
                offs == self.spec_line_offsets(),
                low <= high < offs.len(),
                offs[low as int] <= o,
                high + 1 < offs.len() ==> o < offs[high as int + 1],
            decreases high - low,
        {
            let mid = high - (high - low) / 2;
            if self.line_offsets[mid] <= o {
                low = mid;
            } else {
                high = mid - 1;
            }
        }
        proof {
            lemma_line_of_unique(content, offs, o as int, low as int);
        }
        low
    }

    /// Converts a zero-based byte offset into the content to a position.
    /// The offset is clamped to the content's length; an offset that is not
    /// on a character boundary rounds down to the character's start.
    pub fn position_at(&self, offset: u32) -> (p: Position)
        requires
            self.wf(),
        ensures
            p == spec_position_at(self.spec_content(), self.spec_line_offsets(), offset as int),
    {
        let len = self.content_len();
        let o = if offset > len {
            len
        } else {
            offset
        };
        let l = self.find_line(o);
        let ghost offs = self.spec_line_offsets();
        let start = self.line_offsets[l];
        let nlines = self.line_offsets.len();
        assert(l < nlines);
        let end = if l + 1 < nlines {
            self.line_offsets[l + 1]
        } else {
            len
        };
        let s = vstd::slice::slice_subrange(self.content.as_slice(), start as usize, end as usize);
        let c = line_offset_utf16(s, o - start);
        proof {
            lemma_wf_table_len(self.spec_content(), offs);
        }
        Position { line: l as u32, character: c }
    }

    /// Whether applying `changes` is sure to keep every intermediate buffer
    /// length within `u32`: the current length plus all inserted text stays
    /// below `u32::MAX`. An unverified caller can test this before calling
    /// `update`.
    pub fn changes_fit(&self, changes: &[TextDocumentContentChangeEvent]) -> (r: bool)
        requires
            self.wf(),
        ensures
            r ==> spec_update_fits(self.spec_content(), self.spec_line_offsets(), changes@),
    {
        let n = changes.len();
        let mut i = n;
        let mut total: u64 = 0;
        while i > 0
            invariant
                i <= n,
                n == changes@.len(),
                total == texts_len(changes@.subrange(i as int, n as int)),
            decreases i,
        {
            i = i - 1;
            let t = vstd::slice::slice_index_get(changes, i).text.len();
            proof {
                assert(changes@.subrange(i as int, n as int).drop_first() =~= changes@.subrange(
                    i as int + 1,
                    n as int,
                ));
                assert(changes@.subrange(i as int, n as int)[0] == changes@[i as int]);
                lemma_texts_len_nonneg(changes@.subrange(i as int + 1, n as int));
            }
            total = match total.checked_add(t as u64) {
                Some(v) => v,
                None => {
                    return false;
                },
            };
        }
        proof {
            assert(changes@.subrange(0, n as int) =~= changes@);
        }
        let fits = match (self.content.len() as u64).checked_add(total) {
            Some(s) => s < u32::MAX as u64,
            None => false,
        };
        proof {
            if fits {
                lemma_texts_len_fits(self.spec_content(), self.spec_line_offsets(), changes@);
            }
        }
        fits
    }

    /// Reduces a position to its canonical form for an edit: the
    /// position's byte offset is recomputed, then re-expressed with the
    /// line actually containing that offset, so that the two encodings of
    /// an offset that follows a line terminator coincide. Returns the
    /// canonical position and the resolved offset.
    fn find_canonical_position(&self, position: Position) -> (r: (Position, u32))
        requires
            self.wf(),
        ensures
            r.1 as int == spec_canonical_offset(
                self.spec_content(),
                self.spec_line_offsets(),
                position,
            ),
            r.0 == spec_position_at(self.spec_content(), self.spec_line_offsets(), r.1 as int),
            r.1 <= self.spec_content().len(),
    {
        let offset = self.offset_at(position);
        (self.position_at(offset), offset)
    }

    /// Applies a sequence of edits in order, then records the
    /// caller-supplied version. A full-replacement edit recomputes content
    /// and line-offset table from scratch; a ranged edit canonicalizes its
    /// positions, splices content and table, and shifts the later table
    /// entries, without rescanning the rest of the document. Editing stops
    /// at the first edit whose canonicalized start offset exceeds its end
    /// offset: that edit is rejected with a contract-violation error,
    /// earlier edits remain applied, and the version is left unchanged.
    #[verifier::rlimit(100)]
    pub fn update(&mut self, changes: &[TextDocumentContentChangeEvent], version: i32) -> (r:
        Result<(), ContractViolation>)
        requires
            old(self).wf(),
            spec_update_fits(
                old(self).spec_content(),
                old(self).spec_line_offsets(),
                changes@,
            ),
        ensures
            final(self).wf(),
            final(self).spec_language_id() == old(self).spec_language_id(),
            ({
                let (st, err) = spec_update(
                    old(self).spec_content(),
                    old(self).spec_line_offsets(),
                    changes@,
                );
                &&& final(self).spec_content() == st.0
                &&& final(self).spec_line_offsets() == st.1
                &&& match err {
                    None => r is Ok && final(self).spec_version() == version,
                    Some(e) => r == Result::<(), ContractViolation>::Err(e)
                        && final(self).spec_version() == old(self).spec_version(),
                }
            }),
    {
        let ghost c0 = old(self).spec_content();
        let ghost o0 = old(self).spec_line_offsets();
        let n = changes.len();
        proof {
            assert(changes@.subrange(0, n as int) =~= changes@);
        }
        let mut idx: usize = 0;
        while idx < n
            invariant
                n == changes@.len(),
                idx <= n,
                self.wf(),
                self.spec_language_id() == old(self).spec_language_id(),
                self.spec_version() == old(self).spec_version(),
                c0 == old(self).spec_content(),
                o0 == old(self).spec_line_offsets(),
                spec_update(c0, o0, changes@.subrange(0, idx as int)).1 is None,
                spec_update(c0, o0, changes@.subrange(0, idx as int)).0.0 == self.spec_content(),
                spec_update(c0, o0, changes@.subrange(0, idx as int)).0.1
                    == self.spec_line_offsets(),
                spec_update_fits(
                    self.spec_content(),
                    self.spec_line_offsets(),
                    changes@.subrange(idx as int, n as int),
                ),
            decreases n - idx,
        {
            let ghost pre_content = self.spec_content();
            let ghost pre_offs = self.spec_line_offsets();
            let ghost cur = changes@[idx as int];
            let change = vstd::slice::slice_index_get(changes, idx);
            proof {
                assert(changes@.subrange(idx as int, n as int)[0] == cur);
                assert(changes@.subrange(idx as int, n as int).drop_first() =~= changes@.subrange(
                    idx as int + 1,
                    n as int,
                ));
                assert(changes@.subrange(0, idx as int + 1).drop_last() =~= changes@.subrange(
                    0,
                    idx as int,
                ));
                assert(changes@.subrange(0, idx as int + 1).last() == cur);
            }
            match &change.range {
                Some(range) => {
                    let (start_pos, start_offset) = self.find_canonical_position(range.start);
                    let (end_pos, end_offset) = self.find_canonical_position(range.end);
                    if start_offset > end_offset {
                        proof {
                            lemma_spec_update_err_stable(c0, o0, changes@, idx as int + 1);
                        }
                        return Err(
                            ContractViolation {
                                start: start_pos,
                                end: end_pos,
                                start_offset,
                                end_offset,
                            },
                        );
                    }
                    let ghost s_off = start_offset as int;
                    let ghost e_off = end_offset as int;
                    proof {
                        lemma_wf_table_len(pre_content, pre_offs);
                        lemma_spec_line_of(pre_content, pre_offs, s_off);
                        lemma_spec_line_of(pre_content, pre_offs, e_off);
                        assert(change_valid(pre_content, pre_offs, cur));
                        assert(change_fits(pre_content, pre_offs, cur));
                    }
                    let s_line = start_pos.line as usize;
                    let e_line = end_pos.line as usize;
                    let removed = end_offset - start_offset;
                    let tlen = change.text.len();
                    assert(s_off + tlen <= u32::MAX);
                    let added = computed_line_offsets(&change.text, false, Some(start_offset));
                    let new_content = splice_bytes(
                        &self.content,
                        start_offset as usize,
                        end_offset as usize,
                        &change.text,
                    );
                    proof {
                        assert(forall|k: int|
                            e_line as int + 1 <= k < pre_offs.len() ==> removed
                                <= #[trigger] pre_offs[k] && pre_offs[k] - removed + tlen
                                <= u32::MAX);
                    }
                    let mut new_table = vstd::slice::slice_to_vec(
                        vstd::slice::slice_subrange(self.line_offsets.as_slice(), 0, s_line + 1),
                    );
                    let mut added_tail = shift_tail(
                        &self.line_offsets,
                        e_line + 1,
                        removed,
                        tlen as u32,
                    );
                    let mut added_mid = added;
                    let ghost added_seq = added_mid@;
                    let ghost tail_seq = added_tail@;
                    new_table.append(&mut added_mid);
                    new_table.append(&mut added_tail);
                    self.content = new_content;
                    self.line_offsets = new_table;
                    proof {
                        lemma_apply_change_wf(pre_content, pre_offs, cur);
                        let (sc, so) = spec_apply_change(pre_content, pre_offs, cur);
                        assert(self.spec_content() == sc);
                        let t = cur.text@;
                        let starts = crate::lines::line_starts_in(t, 1, t.len() as int + 1);
                        lemma_line_starts_in_props(t, 1, t.len() as int + 1);
                        assert(crate::lines::spec_line_offsets(t, false) =~= starts);
                        assert forall|k: int| 0 <= k < starts.len() implies added_seq[k]
                            == (s_off + starts[k]) as u32 by {
                            assert(added_seq[k] == s_off + starts[k]);
                            assert(1 <= starts[k] <= t.len());
                        }
                        assert(self.spec_line_offsets() =~= so);
                    }
                },
                None => {
                    let new_offsets = computed_line_offsets(&change.text, true, None);
                    self.content = vstd::slice::slice_to_vec(change.text.as_slice());
                    self.line_offsets = new_offsets;
                    proof {
                        lemma_apply_change_wf(pre_content, pre_offs, cur);
                        let (sc, so) = spec_apply_change(pre_content, pre_offs, cur);
                        assert(self.spec_content() == sc);
                        let starts = line_starts(cur.text@);
                        lemma_line_starts_in_props(cur.text@, 1, cur.text@.len() as int + 1);
                        lemma_synced_table_wf(cur.text@, new_offsets@);
                        assert forall|k: int| 0 <= k < starts.len() implies new_offsets@[k]
                            == starts[k] as u32 by {
                            assert(new_offsets@[k] == 0 + starts[k]);
                            assert(0 <= starts[k] <= cur.text@.len());
                        }
                        assert(self.spec_line_offsets() =~= table_of(cur.text@));
                    }
                },
            }
            idx = idx + 1;
        }
        proof {
            assert(changes@.subrange(0, n as int) =~= changes@);
        }
        self.version = version;
        Ok(())
    }

    /// Converts a position to a zero-based byte offset into the content.
    /// Positions past the last line clamp to the content's end; a character
    /// count beyond the line's UTF-16 length clamps to the line's end, and
    /// one inside a surrogate pair rounds down to the character's start.
    pub fn offset_at(&self, position: Position) -> (r: u32)
        requires
            self.wf(),
        ensures
            r == spec_offset_at(
                self.spec_content(),
                self.spec_line_offsets(),
                position.line as int,
                position.character as int,
            ),
            r <= self.spec_content().len(),
    {
        match self.get_line_and_offset(position.line) {
            Some((line, offset)) => {
                proof {
                    lemma_byte_offset_of_bounds(line@, 0, 0, position.character as int);
                }
                let d = line_byte_offset(line, position.character);
                offset + d as u32
            },
            None => self.content_len(),
        }
    }
}


/// `o` lies on a character boundary of the document: it is reachable from
/// the start of the line containing it by whole-character steps.
pub open spec fn offset_on_char_boundary(content: Seq<u8>, offs: Seq<u32>, o: int) -> bool {
    let l = spec_line_of(offs, o);
    crate::chars::reachable(spec_line_slice(content, offs, l), 0, o - offs[l])
}

/// Converting a valid, character-aligned byte offset to a position and back
/// returns exactly the same offset.
pub proof fn lemma_offset_position_round_trip(doc: &FullTextDocument, o: int)
    requires
        doc.wf(),
        0 <= o <= doc.spec_content().len(),
        offset_on_char_boundary(doc.spec_content(), doc.spec_line_offsets(), o),
    ensures
        ({
            let p = spec_position_at(doc.spec_content(), doc.spec_line_offsets(), o);
            spec_offset_at(
                doc.spec_content(),
                doc.spec_line_offsets(),
                p.line as int,
                p.character as int,
            ) == o
        }),
{
    let content = doc.spec_content();
    let offs = doc.spec_line_offsets();
    let l = spec_line_of(offs, o);
    lemma_spec_line_of(content, offs, o);
    lemma_wf_table_len(content, offs);
    let line = spec_line_slice(content, offs, l);
    let d = o - offs[l];
    assert(d <= line.len());
    lemma_utf16_len_to_bounds(line, 0, d);
    crate::chars::lemma_walk_round_trip(line, 0, 0, d);
    let p = spec_position_at(content, offs, o);
    assert(p.line as int == l);
    assert(p.character as int == utf16_len_to(line, 0, d));
}

/// A canonical position is the one `position_at` yields for some valid,
/// character-aligned byte offset; converting such a position to its byte
/// offset and back returns it unchanged.
pub proof fn lemma_position_offset_round_trip(doc: &FullTextDocument, o: int)
    requires
        doc.wf(),
        0 <= o <= doc.spec_content().len(),
        offset_on_char_boundary(doc.spec_content(), doc.spec_line_offsets(), o),
    ensures
        ({
            let p = spec_position_at(doc.spec_content(), doc.spec_line_offsets(), o);
            spec_position_at(
                doc.spec_content(),
                doc.spec_line_offsets(),
                spec_offset_at(
                    doc.spec_content(),
                    doc.spec_line_offsets(),
                    p.line as int,
                    p.character as int,
                ),
            ) == p
        }),
{
    lemma_offset_position_round_trip(doc, o);
}


/// The two splice seams of a ranged edit leave every `\r\n` pair intact:
/// a kept `\r` immediately before the replaced span keeps its pairing with
/// a following `\n`, and the inserted text does not end with a `\r` that
/// meets a kept `\n`.
pub open spec fn splice_keeps_pairs(content: Seq<u8>, s_off: int, e_off: int, t: Seq<u8>) -> bool {
    let old_lf = s_off < content.len() && content[s_off] == LF;
    let new_lf = if t.len() > 0 {
        t[0] == LF
    } else {
        e_off < content.len() && content[e_off] == LF
    };
    &&& (s_off > 0 && content[s_off - 1] == CR ==> (old_lf <==> new_lf))
    &&& (t.len() > 0 && t[t.len() - 1] == CR ==> !(e_off < content.len() && content[e_off] == LF))
}

/// Where the line starts of a spliced buffer lie: positions up to the left
/// seam are line starts exactly when they were in the old buffer, positions
/// in the inserted text exactly when they are line starts of that text, and
/// later positions exactly when their unshifted counterparts were.
pub proof fn lemma_splice_line_start_equiv(
    content: Seq<u8>,
    s_off: int,
    e_off: int,
    t: Seq<u8>,
    j: int,
)
    requires
        0 <= s_off <= e_off <= content.len(),
        splice_keeps_pairs(content, s_off, e_off, t),
        1 <= j,
    ensures
        ({
            let c2 = content.subrange(0, s_off) + t + content.subrange(
                e_off,
                content.len() as int,
            );
            let delta = t.len() - (e_off - s_off);
            &&& (j <= s_off ==> (crate::lines::is_line_start(c2, j)
                <==> crate::lines::is_line_start(content, j)))
            &&& (s_off < j <= s_off + t.len() ==> (crate::lines::is_line_start(c2, j)
                <==> crate::lines::is_line_start(t, j - s_off)))
            &&& (s_off + t.len() < j ==> (crate::lines::is_line_start(c2, j)
                <==> crate::lines::is_line_start(content, j - delta)))
        }),
{
    let c2 = content.subrange(0, s_off) + t + content.subrange(e_off, content.len() as int);
    let delta = t.len() - (e_off - s_off);
    assert(c2.len() == content.len() + delta);
    assert(forall|x: int| 0 <= x < s_off ==> c2[x] == content[x]);
    assert(forall|x: int| 0 <= x < t.len() ==> c2[s_off + x] == t[x]);
    assert(forall|x: int| e_off <= x < content.len() ==> c2[x + delta] == content[x]);
    if j <= s_off {
        if j == s_off {
            if s_off < c2.len() {
                assert(c2[s_off] == (if t.len() > 0 {
                    t[0]
                } else {
                    content[e_off]
                }));
            }
            assert(s_off == c2.len() <==> (t.len() == 0 && e_off == content.len()));
        }
    } else if j <= s_off + t.len() {
        assert(c2[j - 1] == t[j - s_off - 1]);
        if j == s_off + t.len() {
            if j < c2.len() {
                assert(c2[j] == content[e_off]);
            }
            assert(j == c2.len() <==> e_off == content.len());
        } else {
            assert(c2[j] == t[j - s_off]);
        }
    } else {
        let j0 = j - delta;
        assert(j0 > e_off);
        if j0 <= content.len() {
            assert(c2[j - 1] == content[j0 - 1]);
            if j0 < content.len() {
                assert(c2[j] == content[j0]);
            }
            assert(j == c2.len() <==> j0 == content.len());
        } else {
            assert(j > c2.len());
        }
    }
}

/// Shared setup of the splice lemmas: the integer view of a table.
pub open spec fn table_ints(offs: Seq<u32>) -> Seq<int> {
    Seq::new(offs.len(), |k: int| offs[k] as int)
}

/// Every entry of the spliced table is the start of a line of the spliced
/// buffer (or offset 0).
#[verifier::rlimit(100)]
proof fn lemma_spliced_table_sound(
    content: Seq<u8>,
    offs: Seq<u32>,
    c: TextDocumentContentChangeEvent,
    r: Range,
)
    requires
        content.len() < u32::MAX,
        offsets_match(offs, line_starts(content), 0),
        c.range == Some(r),
        change_valid(content, offs, c),
        change_fits(content, offs, c),
        splice_keeps_pairs(
            content,
            spec_canonical_offset(content, offs, r.start),
            spec_canonical_offset(content, offs, r.end),
            c.text@,
        ),
    ensures
        ({
            let (c2, o2) = spec_apply_change(content, offs, c);
            forall|j: int| table_ints(o2).contains(j) ==> line_starts(c2).contains(j)
        }),
{
    lemma_synced_table_wf(content, offs);
    lemma_apply_change_wf(content, offs, c);
    let (c2, o2) = spec_apply_change(content, offs, c);
    let s_off = spec_canonical_offset(content, offs, r.start);
    let e_off = spec_canonical_offset(content, offs, r.end);
    lemma_spec_offset_at_bounds(content, offs, r.start.line as int, r.start.character as int);
    lemma_spec_offset_at_bounds(content, offs, r.end.line as int, r.end.character as int);
    let s_line = spec_line_of(offs, s_off);
    let e_line = spec_line_of(offs, e_off);
    lemma_spec_line_of(content, offs, s_off);
    lemma_spec_line_of(content, offs, e_off);
    let t = c.text@;
    let delta = t.len() - (e_off - s_off);
    let added = crate::lines::line_starts_in(t, 1, t.len() as int + 1);
    lemma_line_starts_in_props(t, 1, t.len() as int + 1);
    lemma_line_starts_in_props(content, 1, content.len() as int + 1);
    lemma_line_starts_in_props(c2, 1, c2.len() as int + 1);
    let old_starts = line_starts(content);
    let n_mid = added.len() as int;
    let a = table_ints(o2);
    assert(offs.len() == old_starts.len());
    assert(forall|k: int|
        1 <= k < old_starts.len() ==> old_starts[k] == crate::lines::line_starts_in(
            content,
            1,
            content.len() as int + 1,
        )[k - 1]);
    assert forall|j: int| a.contains(j) implies line_starts(c2).contains(j) by {
        let k = choose|k: int| 0 <= k < a.len() && a[k] == j;
        assert(o2[k] as int == spliced_entry(offs, added, s_line, e_line, s_off, delta, k));
        if k == 0 {
            assert(j == 0);
            assert(line_starts(c2)[0] == 0);
        } else {
            lemma_splice_line_start_equiv(content, s_off, e_off, t, j);
            if k <= s_line {
                assert(j == offs[k] as int);
                assert(j == old_starts[k]);
                assert(crate::lines::is_line_start(content, j));
                assert(offs[k] <= offs[s_line]);
                assert(crate::lines::is_line_start(c2, j));
            } else if k <= s_line + n_mid {
                assert(j == s_off + added[k - s_line - 1]);
                assert(crate::lines::is_line_start(t, added[k - s_line - 1]));
                assert(crate::lines::is_line_start(c2, j));
            } else {
                let j0 = offs[e_line + k - s_line - n_mid] as int;
                assert(j == j0 + delta);
                assert(j0 == old_starts[e_line + k - s_line - n_mid]);
                assert(e_line + k - s_line - n_mid >= 1);
                assert(crate::lines::is_line_start(content, j0));
                assert(j0 > e_off);
                assert(crate::lines::is_line_start(c2, j));
            }
            assert(crate::lines::line_starts_in(c2, 1, c2.len() as int + 1).contains(j));
            let kb = choose|kb: int|
                0 <= kb < crate::lines::line_starts_in(c2, 1, c2.len() as int + 1).len()
                    && #[trigger] crate::lines::line_starts_in(c2, 1, c2.len() as int + 1)[kb]
                    == j;
            assert(line_starts(c2)[kb + 1] == j);
        }
    }
}

/// Every line start of the spliced buffer (and offset 0) occurs in the
/// spliced table.
#[verifier::rlimit(100)]
proof fn lemma_spliced_table_complete(
    content: Seq<u8>,
    offs: Seq<u32>,
    c: TextDocumentContentChangeEvent,
    r: Range,
)
    requires
        content.len() < u32::MAX,
        offsets_match(offs, line_starts(content), 0),
        c.range == Some(r),
        change_valid(content, offs, c),
        change_fits(content, offs, c),
        splice_keeps_pairs(
            content,
            spec_canonical_offset(content, offs, r.start),
            spec_canonical_offset(content, offs, r.end),
            c.text@,
        ),
    ensures
        ({
            let (c2, o2) = spec_apply_change(content, offs, c);
            forall|j: int| line_starts(c2).contains(j) ==> table_ints(o2).contains(j)
        }),
{
    lemma_synced_table_wf(content, offs);
    lemma_apply_change_wf(content, offs, c);
    let (c2, o2) = spec_apply_change(content, offs, c);
    let s_off = spec_canonical_offset(content, offs, r.start);
    let e_off = spec_canonical_offset(content, offs, r.end);
    lemma_spec_offset_at_bounds(content, offs, r.start.line as int, r.start.character as int);
    lemma_spec_offset_at_bounds(content, offs, r.end.line as int, r.end.character as int);
    let s_line = spec_line_of(offs, s_off);
    let e_line = spec_line_of(offs, e_off);
    lemma_spec_line_of(content, offs, s_off);
    lemma_spec_line_of(content, offs, e_off);
    let t = c.text@;
    let delta = t.len() - (e_off - s_off);
    let added = crate::lines::line_starts_in(t, 1, t.len() as int + 1);
    lemma_line_starts_in_props(t, 1, t.len() as int + 1);
    lemma_line_starts_in_props(content, 1, content.len() as int + 1);
    lemma_line_starts_in_props(c2, 1, c2.len() as int + 1);
    let old_starts = line_starts(content);
    let n_pre = s_line + 1;
    let n_mid = added.len() as int;
    let a = table_ints(o2);
    let b = line_starts(c2);
    assert(offs.len() == old_starts.len());
    assert(forall|k: int|
        1 <= k < old_starts.len() ==> old_starts[k] == crate::lines::line_starts_in(
            content,
            1,
            content.len() as int + 1,
        )[k - 1]);
    assert(forall|k: int|
        1 <= k < b.len() ==> b[k] == crate::lines::line_starts_in(
            c2,
            1,
            c2.len() as int + 1,
        )[k - 1]);
    assert forall|k: int| 0 <= k < o2.len() implies #[trigger] a[k] == spliced_entry(
        offs,
        added,
        s_line,
        e_line,
        s_off,
        delta,
        k,
    ) by {
        assert(o2[k] as int == spliced_entry(offs, added, s_line, e_line, s_off, delta, k));
    }
    assert forall|j: int| b.contains(j) implies a.contains(j) by {
        let kb = choose|kb: int| 0 <= kb < b.len() && b[kb] == j;
        if kb == 0 {
            assert(j == 0);
            assert(a[0] == 0);
        } else {
            assert(crate::lines::is_line_start(c2, j));
            assert(1 <= j <= c2.len());
            lemma_splice_line_start_equiv(content, s_off, e_off, t, j);
            if j <= s_off {
                assert(crate::lines::is_line_start(content, j));
                assert(crate::lines::line_starts_in(content, 1, content.len() as int + 1).contains(
                    j,
                ));
                let ko = choose|ko: int|
                    0 <= ko < crate::lines::line_starts_in(content, 1, content.len() as int
                        + 1).len() && #[trigger] crate::lines::line_starts_in(
                        content,
                        1,
                        content.len() as int + 1,
                    )[ko] == j;
                assert(offs[ko + 1] as int == old_starts[ko + 1]);
                assert(offs[ko + 1] as int == j);
                assert(ko + 1 <= s_line) by {
                    if ko + 1 > s_line {
                        assert(s_line + 1 < offs.len());
                        assert(offs[s_line + 1] <= offs[ko + 1]);
                        assert(s_off < offs[s_line + 1]);
                    }
                }
                assert(a[ko + 1] == j);
            } else if j <= s_off + t.len() {
                assert(crate::lines::is_line_start(t, j - s_off));
                assert(added.contains(j - s_off));
                let ka = choose|ka: int| 0 <= ka < added.len() && added[ka] == j - s_off;
                assert(a[n_pre + ka] == j);
            } else {
                let j0 = j - delta;
                assert(crate::lines::is_line_start(content, j0));
                assert(crate::lines::line_starts_in(content, 1, content.len() as int + 1).contains(
                    j0,
                ));
                let ko = choose|ko: int|
                    0 <= ko < crate::lines::line_starts_in(content, 1, content.len() as int
                        + 1).len() && #[trigger] crate::lines::line_starts_in(
                        content,
                        1,
                        content.len() as int + 1,
                    )[ko] == j0;
                assert(offs[ko + 1] as int == j0);
                assert(j0 > e_off);
                assert(ko + 1 > e_line) by {
                    if ko + 1 <= e_line {
                        assert(offs[ko + 1] <= offs[e_line]);
                        assert(offs[e_line] <= e_off);
                    }
                }
                let k = ko + 1 - e_line + s_line + n_mid;
                assert(k > s_line + n_mid);
                assert(k < a.len());
                assert(e_line + k - s_line - n_mid == ko + 1);
                assert(a[k] == j);
            }
        }
    }
}

/// Applying a ranged edit through the incremental path (splice the content,
/// splice the inserted text's line starts into the table, shift the later
/// entries) yields exactly the line-offset table that a full terminator
/// rescan of the resulting content yields, provided the edit does not split
/// or join a `\r\n` pair at either seam of the replaced span.
pub proof fn lemma_incremental_matches_rescan(
    content: Seq<u8>,
    offs: Seq<u32>,
    c: TextDocumentContentChangeEvent,
    r: Range,
)
    requires
        content.len() < u32::MAX,
        offsets_match(offs, line_starts(content), 0),
        c.range == Some(r),
        change_valid(content, offs, c),
        change_fits(content, offs, c),
        splice_keeps_pairs(
            content,
            spec_canonical_offset(content, offs, r.start),
            spec_canonical_offset(content, offs, r.end),
            c.text@,
        ),
    ensures
        ({
            let (c2, o2) = spec_apply_change(content, offs, c);
            offsets_match(o2, line_starts(c2), 0)
        }),
{
    lemma_synced_table_wf(content, offs);
    lemma_apply_change_wf(content, offs, c);
    let (c2, o2) = spec_apply_change(content, offs, c);
    lemma_line_starts_in_props(c2, 1, c2.len() as int + 1);
    let a = table_ints(o2);
    let b = line_starts(c2);
    lemma_spliced_table_sound(content, offs, c, r);
    lemma_spliced_table_complete(content, offs, c, r);
    assert(forall|k: int|
        1 <= k < b.len() ==> b[k] == crate::lines::line_starts_in(
            c2,
            1,
            c2.len() as int + 1,
        )[k - 1]);
    assert(forall|k1: int, k2: int| 0 <= k1 < k2 < a.len() ==> #[trigger] a[k1] < #[trigger] a[k2]);
    assert forall|k1: int, k2: int| 0 <= k1 < k2 < b.len() implies #[trigger] b[k1]
        < #[trigger] b[k2] by {
        if k1 >= 1 {
            assert(b[k1] == crate::lines::line_starts_in(c2, 1, c2.len() as int + 1)[k1 - 1]);
        } else {
            assert(b[0] == 0);
            assert(crate::lines::is_line_start(c2, b[k2]));
        }
    }
    crate::lines::lemma_sorted_distinct_seqs_equal(a, b);
    assert forall|k: int| 0 <= k < o2.len() implies #[trigger] o2[k] == 0 + b[k] by {
        assert(a[k] == b[k]);
    }
}

} // verus!
