use vstd::prelude::*;

verus! {

/// Width in bytes of the UTF-8 encoded character whose leading byte is `b`.
/// Bytes that cannot lead a character (continuation bytes and invalid
/// leading bytes) count as one byte, so every byte sequence has a defined
/// walk.
pub open spec fn utf8_width(b: u8) -> int {
    if b < 0xC0 {
        1
    } else if b < 0xE0 {
        2
    } else if b < 0xF0 {
        3
    } else if b < 0xF8 {
        4
    } else {
        1
    }
}

/// Width in UTF-16 code units of the character whose leading byte is `b`:
/// supplementary-plane characters (4 UTF-8 bytes) need a surrogate pair,
/// every other character one code unit.
pub open spec fn utf16_width(b: u8) -> int {
    if 0xF0 <= b && b < 0xF8 {
        2
    } else {
        1
    }
}

/// `o` is reachable from `i` by whole-character steps within `line`: the
/// byte offsets `i` and `o` delimit a (possibly empty) run of complete
/// characters.
pub open spec fn reachable(line: Seq<u8>, i: int, o: int) -> bool
    decreases o - i,
{
    if i < o {
        &&& 0 <= i < line.len()
        &&& i + utf8_width(line[i]) <= line.len()
        &&& i + utf8_width(line[i]) <= o
        &&& reachable(line, i + utf8_width(line[i]), o)
    } else {
        i == o
    }
}

/// UTF-16 code units of the characters of `line` from byte `i` that lie
/// fully within the first `end` bytes; a character that crosses `end` (or
/// the end of `line`) is not counted, so offsets inside a character round
/// down to its start.
pub open spec fn utf16_len_to(line: Seq<u8>, i: int, end: int) -> int
    decreases line.len() - i,
{
    if 0 <= i && i < line.len() && i < end && i + utf8_width(line[i]) <= end && i + utf8_width(
        line[i],
    ) <= line.len() {
        utf16_width(line[i]) + utf16_len_to(line, i + utf8_width(line[i]), end)
    } else {
        0
    }
}

/// Byte offset within `line` of the character containing UTF-16 code-unit
/// position `character`, walking from byte `i` with `c` code units already
/// accumulated. A position inside a surrogate pair rounds down to the
/// character's start; a position beyond the line's UTF-16 length clamps to
/// the line's end.
pub open spec fn byte_offset_of(line: Seq<u8>, i: int, c: int, character: int) -> int
    decreases line.len() - i,
{
    if 0 <= i && i < line.len() {
        if c + utf16_width(line[i]) > character {
            i
        } else if i + utf8_width(line[i]) <= line.len() {
            byte_offset_of(line, i + utf8_width(line[i]), c + utf16_width(line[i]), character)
        } else {
            line.len() as int
        }
    } else {
        line.len() as int
    }
}

/// A character's UTF-16 width never exceeds its UTF-8 width, so a UTF-16
/// count is bounded by the byte span it was counted over.
pub proof fn lemma_utf16_len_to_bounds(line: Seq<u8>, i: int, end: int)
    requires
        0 <= i,
    ensures
        0 <= utf16_len_to(line, i, end),
        i <= end ==> utf16_len_to(line, i, end) <= end - i,
    decreases line.len() - i,
{
    if 0 <= i && i < line.len() && i < end && i + utf8_width(line[i]) <= end && i + utf8_width(
        line[i],
    ) <= line.len() {
        lemma_utf16_len_to_bounds(line, i + utf8_width(line[i]), end);
    }
}

/// The byte offset found for a UTF-16 position lies between the walk's
/// starting point and the end of the line.
pub proof fn lemma_byte_offset_of_bounds(line: Seq<u8>, i: int, c: int, character: int)
    requires
        0 <= i <= line.len(),
    ensures
        i <= byte_offset_of(line, i, c, character) <= line.len(),
    decreases line.len() - i,
{
    if 0 <= i && i < line.len() {
        if c + utf16_width(line[i]) > character {
        } else if i + utf8_width(line[i]) <= line.len() {
            lemma_byte_offset_of_bounds(
                line,
                i + utf8_width(line[i]),
                c + utf16_width(line[i]),
                character,
            );
        }
    }
}

/// Walking back from the UTF-16 count of a character-aligned byte offset
/// recovers that byte offset exactly.
pub proof fn lemma_walk_round_trip(line: Seq<u8>, i: int, c: int, d: int)
    requires
        0 <= i,
        d <= line.len(),
        reachable(line, i, d),
    ensures
        byte_offset_of(line, i, c, c + utf16_len_to(line, i, d)) == d,
    decreases d - i,
{
    if i < d {
        let w8 = utf8_width(line[i]);
        let w16 = utf16_width(line[i]);
        lemma_utf16_len_to_bounds(line, i + w8, d);
        assert(utf16_len_to(line, i, d) == w16 + utf16_len_to(line, i + w8, d));
        lemma_walk_round_trip(line, i + w8, c + w16, d);
    } else {
        assert(utf16_len_to(line, d, d) == 0);
        if d < line.len() {
            assert(byte_offset_of(line, d, c, c) == d);
        }
    }
}

/// Width in bytes of the UTF-8 encoded character led by `b`.
pub fn char_width(b: u8) -> (w: usize)
    ensures
        w == utf8_width(b),
{
    if b < 0xC0 {
        1
    } else if b < 0xE0 {
        2
    } else if b < 0xF0 {
        3
    } else if b < 0xF8 {
        4
    } else {
        1
    }
}

/// Width in UTF-16 code units of the character led by `b`.
pub fn char_utf16_width(b: u8) -> (w: u32)
    ensures
        w == utf16_width(b),
{
    if 0xF0 <= b && b < 0xF8 {
        2
    } else {
        1
    }
}

/// Given a line's bytes and a byte offset, returns the offset in UTF-16
/// code units from the line's start. Offsets that are not on a character
/// boundary, or beyond the line's end, round down.
pub fn line_offset_utf16(line: &[u8], offset: u32) -> (c: u32)
    requires
        line@.len() <= u32::MAX,
    ensures
        c == utf16_len_to(line@, 0, offset as int),
{
    let n = line.len();
    let mut i: usize = 0;
    let mut c: u32 = 0;
    while i < n
        invariant
            n == line@.len(),
            n <= u32::MAX,
            0 <= i <= n,
            c <= i,
            c + utf16_len_to(line@, i as int, offset as int) == utf16_len_to(
                line@,
                0,
                offset as int,
            ),
        ensures
            c == utf16_len_to(line@, 0, offset as int),
        decreases n - i,
    {
        if i >= offset as usize {
            assert(utf16_len_to(line@, i as int, offset as int) == 0);
            break ;
        }
        let b = line[i];
        let w = char_width(b);
        if w > n - i || w > offset as usize - i {
            assert(utf16_len_to(line@, i as int, offset as int) == 0);
            break ;
        }
        c = c + char_utf16_width(b);
        i = i + w;
    }
    if i >= n {
        assert(utf16_len_to(line@, i as int, offset as int) == 0);
    }
    c
}

/// Given a line's bytes and a UTF-16 code-unit position, returns the byte
/// offset of the character containing that position, clamping to the line's
/// end when the position exceeds the line's UTF-16 length.
pub fn line_byte_offset(line: &[u8], character: u32) -> (r: usize)
    requires
        line@.len() <= u32::MAX,
    ensures
        r == byte_offset_of(line@, 0, 0, character as int),
{
    let n = line.len();
    let mut i: usize = 0;
    let mut c: u32 = 0;
    while i < n
        invariant
            n == line@.len(),
            n <= u32::MAX,
            0 <= i <= n,
            c <= i,
            c <= character,
            byte_offset_of(line@, i as int, c as int, character as int) == byte_offset_of(
                line@,
                0,
                0,
                character as int,
            ),
        decreases n - i,
    {
        let b = line[i];
        let w16 = char_utf16_width(b);
        if w16 > character - c {
            return i;
        }
        let w = char_width(b);
        if w > n - i {
            return n;
        }
        c = c + w16;
        i = i + w;
    }
    n
}

} // verus!
