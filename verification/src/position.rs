use vstd::prelude::*;

verus! {

/// A zero-based (line, column) pair; the column counts UTF-16 code units
/// from the start of the line, the unit the editor protocol measures
/// text in.
#[derive(Clone, Copy, PartialEq, Eq, Structural, Debug)]
pub struct Position {
    pub line: usize,
    pub col: usize,
}

/// A pair of positions delimiting a region of the text.
#[derive(Clone, Copy, PartialEq, Eq, Structural, Debug)]
pub struct Range {
    pub start: Position,
    pub end: Position,
}

/// UTF-16 code units a byte contributes when UTF-8 text is measured in
/// UTF-16: a continuation byte none, the lead byte of a four-byte
/// sequence two (its character takes a surrogate pair), every other
/// byte one.
pub open spec fn utf16_units(b: u8) -> int {
    if 0x80 <= b < 0xC0 {
        0
    } else if b >= 0xF0 {
        2
    } else {
        1
    }
}

/// UTF-16 length of a byte string: the units its bytes contribute.
pub open spec fn utf16_len(s: Seq<u8>) -> int
    decreases s.len(),
{
    if s.len() == 0 {
        0
    } else {
        utf16_len(s.drop_last()) + utf16_units(s.last())
    }
}

/// The UTF-16 length of a byte string is non-negative and at most twice
/// its byte length.
pub proof fn lemma_utf16_len_bounds(s: Seq<u8>)
    ensures
        0 <= utf16_len(s) <= 2 * s.len(),
    decreases s.len(),
{
    if s.len() > 0 {
        lemma_utf16_len_bounds(s.drop_last());
    }
}

/// Extending a measured prefix by one byte adds that byte's units.
pub proof fn lemma_utf16_len_extend(text: Seq<u8>, start: int, j: int)
    requires
        0 <= start <= j < text.len(),
    ensures
        utf16_len(text.subrange(start, j + 1)) == utf16_len(text.subrange(start, j))
            + utf16_units(text[j]),
{
    assert(text.subrange(start, j + 1).drop_last() =~= text.subrange(start, j));
    assert(text.subrange(start, j + 1).last() == text[j]);
}

/// Columns grow with the offset: a longer prefix of the line measures at
/// least as many units.
pub proof fn lemma_utf16_len_monotone(text: Seq<u8>, start: int, j: int, o: int)
    requires
        0 <= start <= j <= o <= text.len(),
    ensures
        utf16_len(text.subrange(start, j)) <= utf16_len(text.subrange(start, o)),
    decreases o - j,
{
    if j < o {
        lemma_utf16_len_monotone(text, start, j, o - 1);
        lemma_utf16_len_extend(text, start, o - 1);
    }
}

/// Whether `o` is an offset at which a line of `text` begins.
pub open spec fn is_line_start(text: Seq<u8>, o: int) -> bool {
    o == 0 || text[o - 1] == 10u8
}

/// The offsets at which the lines of `text` begin: offset zero, and the
/// offset just after every newline byte, in increasing order.
pub open spec fn line_starts_of(text: Seq<u8>) -> Seq<usize>
    decreases text.len(),
{
    if text.len() == 0 {
        seq![0usize]
    } else if text.last() == 10u8 {
        line_starts_of(text.drop_last()).push(text.len() as usize)
    } else {
        line_starts_of(text.drop_last())
    }
}

/// The shape every line-start table has: it begins at offset zero and is
/// strictly increasing.
pub open spec fn lines_sorted(ls: Seq<usize>) -> bool {
    &&& ls.len() >= 1
    &&& ls[0] == 0
    &&& forall|i: int, j: int| 0 <= i < j < ls.len() ==> ls[i] < ls[j]
}

/// The canonical line-start table of a text is sorted, bounded by the text
/// length, and holds exactly the line starts.
pub proof fn lemma_line_starts_of_wf(text: Seq<u8>)
    requires
        text.len() <= usize::MAX,
    ensures
        lines_sorted(line_starts_of(text)),
        forall|l: int|
            0 <= l < line_starts_of(text).len() ==> #[trigger] line_starts_of(text)[l]
                <= text.len() && is_line_start(text, line_starts_of(text)[l] as int),
    decreases text.len(),
{
    if text.len() == 0 {
    } else {
        let prev = line_starts_of(text.drop_last());
        lemma_line_starts_of_wf(text.drop_last());
        assert forall|l: int|
            0 <= l < prev.len() implies prev[l] <= text.len() - 1 && is_line_start(
            text,
            prev[l] as int,
        ) by {
            assert(prev[l] <= text.drop_last().len());
            if prev[l] as int != 0 {
                assert(text.drop_last()[prev[l] - 1] == text[prev[l] - 1]);
            }
        }
    }
}

/// Index of the line containing offset `o`: the largest `l` with
/// `ls[l] <= o`, assuming the table is sorted and starts at or below `o`.
pub open spec fn line_index(ls: Seq<usize>, o: int) -> int
    decreases ls.len(),
{
    if ls.len() <= 1 || o < ls[1] {
        0
    } else {
        1 + line_index(ls.drop_first(), o)
    }
}

/// `line_index` picks a line whose start is at or before `o` and whose
/// successor line, if any, starts after `o`.
pub proof fn lemma_line_index(ls: Seq<usize>, o: int)
    requires
        ls.len() >= 1,
        forall|i: int, j: int| 0 <= i < j < ls.len() ==> ls[i] < ls[j],
        ls[0] <= o,
    ensures
        0 <= line_index(ls, o) < ls.len(),
        ls[line_index(ls, o)] <= o,
        line_index(ls, o) + 1 < ls.len() ==> o < ls[line_index(ls, o) + 1],
    decreases ls.len(),
{
    if ls.len() <= 1 || o < ls[1] {
    } else {
        let tail = ls.drop_first();
        assert forall|i: int, j: int| 0 <= i < j < tail.len() implies tail[i] < tail[j] by {
            assert(ls[i + 1] < ls[j + 1]);
        }
        lemma_line_index(tail, o);
        let lt = line_index(tail, o);
        assert(tail[lt] == ls[lt + 1]);
        if lt + 1 < tail.len() {
            assert(tail[lt + 1] == ls[lt + 2]);
        }
    }
}

/// No two lines contain the same offset: the sandwich property pins the line.
pub proof fn lemma_line_index_unique(ls: Seq<usize>, o: int, l: int)
    requires
        ls.len() >= 1,
        forall|i: int, j: int| 0 <= i < j < ls.len() ==> ls[i] < ls[j],
        ls[0] <= o,
        0 <= l < ls.len(),
        ls[l] <= o,
        l + 1 < ls.len() ==> o < ls[l + 1],
    ensures
        l == line_index(ls, o),
{
    lemma_line_index(ls, o);
    let li = line_index(ls, o);
    if l + 1 <= li {
        assert(ls[l + 1] <= ls[li] <= o);
    } else if li + 1 <= l {
        assert(ls[li + 1] <= ls[l] <= o);
    }
}

/// The position naming offset `o`: its line, and the UTF-16 measure of
/// the line's bytes before it.
pub open spec fn position_of(text: Seq<u8>, ls: Seq<usize>, o: int) -> Position {
    Position {
        line: line_index(ls, o) as usize,
        col: utf16_len(text.subrange(ls[line_index(ls, o)] as int, o)) as usize,
    }
}

/// Builds the line-start table of `text` in one pass.
pub fn build_line_starts(text: &Vec<u8>) -> (ls: Vec<usize>)
    ensures
        ls@ == line_starts_of(text@),
{
    let mut ls: Vec<usize> = Vec::new();
    ls.push(0);
    assert(ls@ =~= line_starts_of(text@.take(0)));
    let mut i: usize = 0;
    while i < text.len()
        invariant
            i <= text@.len(),
            ls@ == line_starts_of(text@.take(i as int)),
        decreases text@.len() - i,
    {
        proof {
            assert(text@.take(i + 1).drop_last() =~= text@.take(i as int));
            assert(text@.take(i + 1).last() == text@[i as int]);
        }
        if text[i] == 10 {
            ls.push(i + 1);
        }
        i = i + 1;
    }
    proof {
        assert(text@.take(text@.len() as int) =~= text@);
    }
    ls
}

/// Maps an offset to its (line, column) position: binary search over the
/// line-start table for the line, then one pass over the line's bytes up
/// to the offset for the UTF-16 column.
pub fn to_position(text: &Vec<u8>, ls: &Vec<usize>, offset: usize) -> (p: Position)
    requires
        lines_sorted(ls@),
        offset <= text@.len(),
        text@.len() <= usize::MAX / 2,
    ensures
        p == position_of(text@, ls@, offset as int),
        p.line < ls@.len(),
        ls@[p.line as int] <= offset,
        p.line + 1 < ls@.len() ==> offset < ls@[p.line as int + 1],
{
    let mut lo: usize = 0;
    let mut hi: usize = ls.len() - 1;
    while lo != hi
        invariant
            lines_sorted(ls@),
            lo <= hi < ls@.len() <= usize::MAX,
            ls@[lo as int] <= offset,
            hi + 1 < ls@.len() ==> offset < ls@[hi as int + 1],
        decreases hi - lo,
    {
        let mid = lo + (hi - lo + 1) / 2;
        if ls[mid] <= offset {
            lo = mid;
        } else {
            hi = mid - 1;
        }
    }
    proof {
        lemma_line_index_unique(ls@, offset as int, lo as int);
    }
    let start = ls[lo];
    let mut cur: usize = 0;
    let mut j: usize = start;
    proof {
        assert(text@.subrange(start as int, start as int) =~= Seq::<u8>::empty());
    }
    while j < offset
        invariant
            start <= j <= offset <= text@.len() <= usize::MAX / 2,
            cur == utf16_len(text@.subrange(start as int, j as int)),
            cur <= 2 * (j - start),
        decreases offset - j,
    {
        proof {
            lemma_utf16_len_extend(text@, start as int, j as int);
        }
        let b = text[j];
        if b >= 0x80 && b < 0xC0 {
        } else if b >= 0xF0 {
            cur = cur + 2;
        } else {
            cur = cur + 1;
        }
        j = j + 1;
    }
    proof {
        lemma_utf16_len_bounds(text@.subrange(start as int, offset as int));
    }
    Position { line: lo, col: cur }
}

/// The largest offset that belongs to line `l`: one before the next
/// line's start, or the end of the text for the last line.
pub open spec fn line_end(text_len: int, ls: Seq<usize>, l: int) -> int {
    if l + 1 < ls.len() {
        ls[l + 1] - 1
    } else {
        text_len
    }
}

/// Walks a line's bytes for the offset whose column is `col`: past whole
/// characters while the measure is short of `col`, then past any
/// continuation bytes so the answer sits on a character boundary. A
/// column that lands inside a character — between the halves of a
/// surrogate pair — names no offset.
pub open spec fn utf16_seek(text: Seq<u8>, o: int, max: int, cur: int, col: int) -> Option<usize>
    decreases max - o,
{
    if cur > col {
        None
    } else if cur == col && (o >= max || utf16_units(text[o]) != 0) {
        Some(o as usize)
    } else if o >= max {
        None
    } else {
        utf16_seek(text, o + 1, max, cur + utf16_units(text[o]), col)
    }
}

/// The offset a (line, column) pair names, if that pair exists in the
/// current text.
pub open spec fn offset_of(text: Seq<u8>, ls: Seq<usize>, line: int, col: int) -> Option<usize> {
    if 0 <= line < ls.len() {
        utf16_seek(text, ls[line] as int, line_end(text.len() as int, ls, line), 0, col)
    } else {
        None
    }
}

/// The seek finds a character-boundary offset from any point at or before
/// it on the same line.
pub proof fn lemma_seek_finds(text: Seq<u8>, start: int, max: int, j: int, o: int)
    requires
        0 <= start <= j <= o <= max <= text.len(),
        o == max || utf16_units(text[o]) != 0,
    ensures
        utf16_seek(
            text,
            j,
            max,
            utf16_len(text.subrange(start, j)),
            utf16_len(text.subrange(start, o)),
        ) == Some(o as usize),
    decreases o - j,
{
    let cur = utf16_len(text.subrange(start, j));
    let col = utf16_len(text.subrange(start, o));
    lemma_utf16_len_monotone(text, start, j, o);
    if j == o {
    } else {
        lemma_utf16_len_extend(text, start, j);
        lemma_utf16_len_monotone(text, start, j + 1, o);
        if cur == col {
            assert(utf16_units(text[j]) == 0);
        }
        lemma_seek_finds(text, start, max, j + 1, o);
    }
}

/// Maps a (line, column) pair back to an offset; a pair that does not
/// exist in the current text yields no offset, which callers treat as
/// "no result".
pub fn to_offset(text: &Vec<u8>, ls: &Vec<usize>, line: usize, col: usize) -> (r: Option<usize>)
    requires
        lines_sorted(ls@),
        forall|l: int| 0 <= l < ls@.len() ==> #[trigger] ls@[l] <= text@.len(),
        text@.len() <= usize::MAX / 2,
    ensures
        r == offset_of(text@, ls@, line as int, col as int),
        r matches Some(o) ==> o <= text@.len(),
{
    let text_len = text.len();
    if line >= ls.len() {
        return None;
    }
    let start = ls[line];
    let line_max = if line + 1 < ls.len() {
        ls[line + 1] - 1
    } else {
        text_len
    };
    let mut o: usize = start;
    let mut cur: usize = 0;
    while o < line_max && cur < col
        invariant
            start <= o <= line_max <= text@.len() <= usize::MAX / 2,
            cur <= 2 * (o - start),
            utf16_seek(text@, start as int, line_max as int, 0, col as int) == utf16_seek(
                text@,
                o as int,
                line_max as int,
                cur as int,
                col as int,
            ),
        decreases line_max - o,
    {
        let b = text[o];
        if b >= 0x80 && b < 0xC0 {
        } else if b >= 0xF0 {
            cur = cur + 2;
        } else {
            cur = cur + 1;
        }
        o = o + 1;
    }
    while o < line_max && text[o] >= 0x80 && text[o] < 0xC0
        invariant
            start <= o <= line_max <= text@.len(),
            cur >= col || o == line_max,
            utf16_seek(text@, start as int, line_max as int, 0, col as int) == utf16_seek(
                text@,
                o as int,
                line_max as int,
                cur as int,
                col as int,
            ),
        decreases line_max - o,
    {
        o = o + 1;
    }
    if cur == col {
        Some(o)
    } else {
        None
    }
}

/// Translating a valid offset — one on a character boundary — to its
/// position and back recovers the offset exactly.
pub proof fn lemma_position_offset_round_trip(text: Seq<u8>, ls: Seq<usize>, o: int)
    requires
        lines_sorted(ls),
        forall|l: int| 0 <= l < ls.len() ==> #[trigger] ls[l] <= text.len(),
        0 <= o <= text.len(),
        o == text.len() || utf16_units(text[o]) != 0,
        text.len() <= usize::MAX / 2,
        ls.len() <= usize::MAX,
    ensures
        offset_of(
            text,
            ls,
            position_of(text, ls, o).line as int,
            position_of(text, ls, o).col as int,
        ) == Some(o as usize),
{
    lemma_line_index(ls, o);
    let li = line_index(ls, o);
    let start = ls[li] as int;
    let max = line_end(text.len() as int, ls, li);
    assert(o <= max);
    lemma_utf16_len_bounds(text.subrange(start, o));
    assert(text.subrange(start, start) =~= Seq::<u8>::empty());
    lemma_seek_finds(text, start, max, start, o);
    assert(position_of(text, ls, o).line as int == li);
    assert(position_of(text, ls, o).col as int == utf16_len(text.subrange(start, o)));
}

} // verus!
