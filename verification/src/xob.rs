//! Boxes of text and the character canvas they are drawn on.
use vstd::prelude::*;
use crate::text::{
    ascii, lemma_ascii_byte_len, lemma_text_lines_ascii, lemma_wrap_lines_ascii,
    string_push,
    split_on, split_on_exec,
    all_fit, byte_len, byte_len_exec, chars_of, lemma_text_lines_bounded, lemma_words_of_lines_bounded,
    lemma_wrap_lines_within, push_all, string_from_chars, text_lines, text_lines_exec, views,
    words_fit, wrap_lines, wrap_lines_exec,
};

verus! {

/// A colour code: one character that `colorize` turns into an escape sequence.
pub type ColorCode = char;

/// A canvas of rows of (character, colour code) cells.
pub type Grid = Vec<Vec<(char, ColorCode)>>;

/// A position, as (column, row) or as the caller reads it.
pub type Point = (usize, usize);

/// Where a text stands in the space it is given.
#[derive(Clone, Copy, Debug, PartialEq, Eq, Structural)]
pub enum TextPosition {
    Left,
    Right,
    Center,
}

/// `a - b`, or `0` when `b` is larger.
pub open spec fn sat_sub(a: int, b: int) -> nat {
    if a > b {
        (a - b) as nat
    } else {
        0
    }
}

/// `n` copies of `c`.
pub open spec fn repeat(c: char, n: nat) -> Seq<char> {
    Seq::new(n, |i: int| c)
}

/// The text of an optional title or footer; none stands for the empty text.
pub open spec fn opt_text(t: Option<&str>) -> Seq<char> {
    match t {
        Some(s) => s@,
        None => Seq::empty(),
    }
}

/// The longest byte length among the lines, `0` when there are none.
pub open spec fn max_byte_len(ls: Seq<Seq<char>>) -> nat
    decreases ls.len(),
{
    if ls.len() == 0 {
        0
    } else {
        let m = max_byte_len(ls.drop_last());
        let b = byte_len(ls.last());
        if b > m {
            b
        } else {
            m
        }
    }
}

/// The inner width of a box, in bytes: the width asked for, else the longest
/// line, widened to the title when the title is longer.
pub open spec fn box_width(ls: Seq<Seq<char>>, title: Seq<char>, width: Option<usize>) -> nat {
    let base: nat = match width {
        Some(w) => w as nat,
        None => max_byte_len(ls),
    };
    if byte_len(title) > base {
        byte_len(title)
    } else {
        base
    }
}

/// A top or bottom edge: the text placed on a line of `─` that fills the width.
pub open spec fn frame_line(text: Seq<char>, pos: TextPosition, w: nat) -> Seq<char> {
    let pad = sat_sub(w as int, byte_len(text) as int);
    match pos {
        TextPosition::Left => text + repeat('─', pad),
        TextPosition::Right => repeat('─', pad) + text,
        TextPosition::Center => repeat('─', pad / 2) + text + repeat('─', (pad - pad / 2) as nat),
    }
}

/// A row of the box: the line between two `│`, padded with spaces to the width.
pub open spec fn frame_row(line: Seq<char>, pos: TextPosition, w: nat) -> Seq<char> {
    let pad = sat_sub(w as int, byte_len(line) as int);
    match pos {
        TextPosition::Left => seq!['│'] + line + repeat(' ', pad) + seq!['│'],
        TextPosition::Right => seq!['│'] + repeat(' ', pad) + line + seq!['│'],
        TextPosition::Center => seq!['│'] + repeat(' ', pad / 2) + line + repeat(
            ' ',
            (pad - pad / 2) as nat,
        ) + seq!['│'],
    }
}

/// The lines joined by `\n`.
pub open spec fn join_lines(ls: Seq<Seq<char>>) -> Seq<char>
    decreases ls.len(),
{
    if ls.len() == 0 {
        Seq::empty()
    } else if ls.len() == 1 {
        ls[0]
    } else {
        join_lines(ls.drop_last()) + seq!['\n'] + ls.last()
    }
}

/// Each line framed as a row.
pub open spec fn frame_rows(wl: Seq<Seq<char>>, pos: TextPosition, w: nat) -> Seq<Seq<char>> {
    wl.map_values(|l: Seq<char>| frame_row(l, pos, w))
}

/// The rows of a box: its wrapped lines, each framed.
pub open spec fn box_rows(ls: Seq<Seq<char>>, pos: TextPosition, w: nat) -> Seq<Seq<char>> {
    frame_rows(wrap_lines(ls, w), pos, w)
}

/// A box from its top edge, its body and its bottom edge, between the corners.
pub open spec fn frame_box(top: Seq<char>, body: Seq<char>, bottom: Seq<char>) -> Seq<char> {
    seq!['┌'] + top + seq!['┐', '\n'] + body + seq!['\n', '└'] + bottom + seq!['┘']
}

/// The text of a box: the top edge with the title, the framed rows, and the
/// bottom edge with the footer, on lines of their own.
pub open spec fn box_text(
    input: Seq<char>,
    text_pos: TextPosition,
    title: Seq<char>,
    title_pos: TextPosition,
    footer: Seq<char>,
    footer_pos: TextPosition,
    width: Option<usize>,
) -> Seq<char> {
    let ls = text_lines(input);
    let w = box_width(ls, title, width);
    frame_box(
        frame_line(title, title_pos, w),
        join_lines(box_rows(ls, text_pos, w)),
        frame_line(footer, footer_pos, w),
    )
}

/// Whether `boxify` can draw the box: left or right aligned rows need every
/// word to fit the width, since the padding of a longer row would be negative.
pub open spec fn box_drawable(
    input: Seq<char>,
    text_pos: TextPosition,
    title: Seq<char>,
    width: Option<usize>,
) -> bool {
    text_pos != TextPosition::Center ==> words_fit(
        text_lines(input),
        box_width(text_lines(input), title, width),
    )
}

proof fn lemma_frame_line_len(text: Seq<char>, pos: TextPosition, w: nat)
    requires
        ascii(text),
        byte_len(text) <= w,
    ensures
        frame_line(text, pos, w).len() == w,
{
    lemma_ascii_byte_len(text);
}

proof fn lemma_frame_row_len(line: Seq<char>, pos: TextPosition, w: nat)
    requires
        ascii(line),
        byte_len(line) <= w,
    ensures
        frame_row(line, pos, w).len() == w + 2,
{
    lemma_ascii_byte_len(line);
}

/// An ASCII box whose words fit its width is a rectangle: its top line, each
/// of its rows, and its bottom line when the footer fits, are all `w + 2`
/// characters long, `w` being the box's inner width.
pub proof fn lemma_ascii_box_is_rectangle(
    input: Seq<char>,
    text_pos: TextPosition,
    title: Seq<char>,
    title_pos: TextPosition,
    footer: Seq<char>,
    footer_pos: TextPosition,
    width: Option<usize>,
)
    requires
        ascii(input),
        ascii(title),
        ascii(footer),
        words_fit(text_lines(input), box_width(text_lines(input), title, width)),
        byte_len(footer) <= box_width(text_lines(input), title, width),
    ensures
        ({
            let ls = text_lines(input);
            let w = box_width(ls, title, width);
            let rows = box_rows(ls, text_pos, w);
            &&& (seq!['┌'] + frame_line(title, title_pos, w) + seq!['┐']).len() == w + 2
            &&& (seq!['└'] + frame_line(footer, footer_pos, w) + seq!['┘']).len() == w + 2
            &&& forall|i: int| 0 <= i < rows.len() ==> (#[trigger] rows[i]).len() == w + 2
        }),
{
    let ls = text_lines(input);
    let w = box_width(ls, title, width);
    lemma_frame_line_len(title, title_pos, w);
    lemma_frame_line_len(footer, footer_pos, w);
    lemma_text_lines_ascii(input);
    lemma_wrap_lines_ascii(ls, w);
    lemma_wrap_lines_within(ls, w, w);
    let wl = wrap_lines(ls, w);
    assert forall|i: int| 0 <= i < wl.len() implies (#[trigger] box_rows(ls, text_pos, w)[i]).len()
        == w + 2 by {
        assert(ascii(wl[i]));
        assert(byte_len(wl[i]) <= w);
        lemma_frame_row_len(wl[i], text_pos, w);
    }
}

/// The first line of a box, with its line break, and its last line, with
/// the line break before it.
proof fn lemma_frame_box_ends(top: Seq<char>, body: Seq<char>, bottom: Seq<char>)
    ensures
        ({
            let b = frame_box(top, body, bottom);
            &&& b.subrange(0, top.len() + 3int) == seq!['┌'] + top + seq!['┐', '\n']
            &&& b.subrange(b.len() - (bottom.len() + 3), b.len() as int) == seq!['\n', '└']
                + bottom + seq!['┘']
        }),
{
    let b = frame_box(top, body, bottom);
    assert(b.subrange(0, top.len() + 3int) =~= seq!['┌'] + top + seq!['┐', '\n']);
    assert(b.subrange(b.len() - (bottom.len() + 3), b.len() as int) =~= seq!['\n', '└'] + bottom
        + seq!['┘']);
}

/// The edges of a box.  Its text begins with the top line: `┌`, the title
/// placed on a line of `─` as wide as the box, `┐` and a line break; and it
/// ends with the bottom line: a line break, `└`, the footer placed the same
/// way, and `┘`.  A left-placed title or footer opens its edge and the `─`
/// fill the rest; a right-placed one closes its edge after the fill; a
/// centred one has half the fill (rounded down) before it and the rest after
/// it.  The fill is the box's inner width less the text's byte length, or
/// none when the text is wider.
pub proof fn lemma_box_edges(
    input: Seq<char>,
    text_pos: TextPosition,
    title: Seq<char>,
    title_pos: TextPosition,
    footer: Seq<char>,
    footer_pos: TextPosition,
    width: Option<usize>,
)
    ensures
        ({
            let b = box_text(input, text_pos, title, title_pos, footer, footer_pos, width);
            let w = box_width(text_lines(input), title, width);
            let tp = sat_sub(w as int, byte_len(title) as int);
            let fp = sat_sub(w as int, byte_len(footer) as int);
            let top = b.subrange(0, title.len() + tp + 3int);
            let bottom = b.subrange(b.len() - (footer.len() + fp + 3), b.len() as int);
            &&& title_pos == TextPosition::Left ==> top == seq!['┌'] + title + repeat('─', tp)
                + seq!['┐', '\n']
            &&& title_pos == TextPosition::Right ==> top == seq!['┌'] + repeat('─', tp) + title
                + seq!['┐', '\n']
            &&& title_pos == TextPosition::Center ==> top == seq!['┌'] + repeat('─', tp / 2)
                + title + repeat('─', (tp - tp / 2) as nat) + seq!['┐', '\n']
            &&& footer_pos == TextPosition::Left ==> bottom == seq!['\n', '└'] + footer + repeat(
                '─',
                fp,
            ) + seq!['┘']
            &&& footer_pos == TextPosition::Right ==> bottom == seq!['\n', '└'] + repeat('─', fp)
                + footer + seq!['┘']
            &&& footer_pos == TextPosition::Center ==> bottom == seq!['\n', '└'] + repeat(
                '─',
                fp / 2,
            ) + footer + repeat('─', (fp - fp / 2) as nat) + seq!['┘']
        }),
{
    let ls = text_lines(input);
    let w = box_width(ls, title, width);
    let tp = sat_sub(w as int, byte_len(title) as int);
    let fp = sat_sub(w as int, byte_len(footer) as int);
    let t = frame_line(title, title_pos, w);
    let bo = frame_line(footer, footer_pos, w);
    let body = join_lines(box_rows(ls, text_pos, w));
    lemma_frame_box_ends(t, body, bo);
    assert(t.len() == title.len() + tp);
    assert(bo.len() == footer.len() + fp);
    match title_pos {
        TextPosition::Left => {
            assert(seq!['┌'] + t + seq!['┐', '\n'] =~= seq!['┌'] + title + repeat('─', tp)
                + seq!['┐', '\n']);
        },
        TextPosition::Right => {
            assert(seq!['┌'] + t + seq!['┐', '\n'] =~= seq!['┌'] + repeat('─', tp) + title
                + seq!['┐', '\n']);
        },
        TextPosition::Center => {
            assert(seq!['┌'] + t + seq!['┐', '\n'] =~= seq!['┌'] + repeat('─', tp / 2) + title
                + repeat('─', (tp - tp / 2) as nat) + seq!['┐', '\n']);
        },
    }
    match footer_pos {
        TextPosition::Left => {
            assert(seq!['\n', '└'] + bo + seq!['┘'] =~= seq!['\n', '└'] + footer + repeat('─', fp)
                + seq!['┘']);
        },
        TextPosition::Right => {
            assert(seq!['\n', '└'] + bo + seq!['┘'] =~= seq!['\n', '└'] + repeat('─', fp) + footer
                + seq!['┘']);
        },
        TextPosition::Center => {
            assert(seq!['\n', '└'] + bo + seq!['┘'] =~= seq!['\n', '└'] + repeat('─', fp / 2)
                + footer + repeat('─', (fp - fp / 2) as nat) + seq!['┘']);
        },
    }
}

/// Appends `n` copies of `c`.
fn push_repeat(out: &mut Vec<char>, c: char, n: usize)
    ensures
        final(out)@ == old(out)@ + repeat(c, n as nat),
{
    let mut i: usize = 0;
    while i < n
        invariant
            i <= n,
            out@ == old(out)@ + repeat(c, i as nat),
        decreases n - i,
    {
        out.push(c);
        assert(repeat(c, (i + 1) as nat) =~= repeat(c, i as nat).push(c));
        i += 1;
    }
}

/// Appends a top or bottom edge.
fn push_frame_line(out: &mut Vec<char>, text: &Vec<char>, text_len: usize, pos: &TextPosition, w: usize)
    requires
        text_len == byte_len(text@),
    ensures
        final(out)@ == old(out)@ + frame_line(text@, *pos, w as nat),
{
    let pad = w.saturating_sub(text_len);
    match pos {
        TextPosition::Left => {
            push_all(out, text);
            push_repeat(out, '─', pad);
        },
        TextPosition::Right => {
            push_repeat(out, '─', pad);
            push_all(out, text);
        },
        TextPosition::Center => {
            let left = pad / 2;
            let right = pad - left;
            push_repeat(out, '─', left);
            push_all(out, text);
            push_repeat(out, '─', right);
        },
    }
    assert(out@ =~= old(out)@ + frame_line(text@, *pos, w as nat));
}

/// Appends a framed row.
fn push_frame_row(out: &mut Vec<char>, line: &Vec<char>, line_len: usize, pos: &TextPosition, w: usize)
    requires
        line_len == byte_len(line@),
        *pos != TextPosition::Center ==> line_len <= w,
    ensures
        final(out)@ == old(out)@ + frame_row(line@, *pos, w as nat),
{
    match pos {
        TextPosition::Left => {
            out.push('│');
            push_all(out, line);
            push_repeat(out, ' ', w - line_len);
            out.push('│');
        },
        TextPosition::Right => {
            out.push('│');
            push_repeat(out, ' ', w - line_len);
            push_all(out, line);
            out.push('│');
        },
        TextPosition::Center => {
            let pad = w.saturating_sub(line_len);
            let left = pad / 2;
            let right = pad - left;
            out.push('│');
            push_repeat(out, ' ', left);
            push_all(out, line);
            push_repeat(out, ' ', right);
            out.push('│');
        },
    }
    assert(out@ =~= old(out)@ + frame_row(line@, *pos, w as nat));
}

/// The byte length of the longest line.
fn longest_line(lines: &Vec<Vec<char>>, Ghost(bound): Ghost<nat>) -> (longest: usize)
    requires
        bound <= usize::MAX,
        all_fit(views(lines@), bound),
    ensures
        longest == max_byte_len(views(lines@)),
{
    let ghost ls = views(lines@);
    let mut longest: usize = 0;
    let mut i: usize = 0;
    assert(ls.take(0) =~= Seq::<Seq<char>>::empty());
    while i < lines.len()
        invariant
            i <= lines.len(),
            ls == views(lines@),
            bound <= usize::MAX,
            all_fit(ls, bound),
            longest == max_byte_len(ls.take(i as int)),
        decreases lines.len() - i,
    {
        assert(ls[i as int] == lines@[i as int]@);
        let n = byte_len_exec(&lines[i]);
        assert(ls.take(i + 1).drop_last() =~= ls.take(i as int));
        if n > longest {
            longest = n;
        }
        i += 1;
    }
    assert(ls.take(lines.len() as int) =~= ls);
    longest
}

/// Appends the framed rows, joined by `\n`.
fn push_rows(
    out: &mut Vec<char>,
    wrapped: &Vec<Vec<char>>,
    text_pos: &TextPosition,
    w: usize,
    Ghost(bound): Ghost<nat>,
)
    requires
        all_fit(views(wrapped@), bound),
        bound <= usize::MAX,
        *text_pos != TextPosition::Center ==> all_fit(views(wrapped@), w as nat),
    ensures
        final(out)@ == old(out)@ + join_lines(frame_rows(views(wrapped@), *text_pos, w as nat)),
{
    let ghost wl = views(wrapped@);
    let ghost rows = frame_rows(wl, *text_pos, w as nat);
    let ghost head = out@;
    let mut k: usize = 0;
    assert(rows.take(0) =~= Seq::<Seq<char>>::empty());
    assert(out@ =~= head + join_lines(rows.take(0)));
    while k < wrapped.len()
        invariant
            k <= wrapped.len(),
            wl == views(wrapped@),
            rows == frame_rows(wl, *text_pos, w as nat),
            all_fit(wl, bound),
            bound <= usize::MAX,
            *text_pos != TextPosition::Center ==> all_fit(wl, w as nat),
            out@ == head + join_lines(rows.take(k as int)),
        decreases wrapped.len() - k,
    {
        if k > 0 {
            out.push('\n');
        }
        let line = &wrapped[k];
        assert(line@ == wl[k as int]);
        assert(byte_len(wl[k as int]) <= bound);
        let line_len = byte_len_exec(line);
        push_frame_row(out, line, line_len, text_pos, w);
        assert(rows[k as int] == frame_row(wl[k as int], *text_pos, w as nat));
        assert(rows.take(k + 1).drop_last() =~= rows.take(k as int));
        if k > 0 {
            assert(out@ =~= head + (join_lines(rows.take(k as int)) + seq!['\n'] + rows[k as int]));
        } else {
            assert(out@ =~= head + rows.take(1)[0]);
        }
        k += 1;
    }
    assert(rows.take(wrapped.len() as int) =~= rows);
}

proof fn lemma_wrapped_bounds(ls: Seq<Seq<char>>, text_pos: TextPosition, w: nat, n: nat, bound: nat)
    requires
        all_fit(ls, n),
        bound == if w > n { w } else { n },
        text_pos != TextPosition::Center ==> words_fit(ls, w),
    ensures
        all_fit(wrap_lines(ls, w), bound),
        text_pos != TextPosition::Center ==> all_fit(wrap_lines(ls, w), w),
{
    assert(all_fit(ls, bound));
    lemma_words_of_lines_bounded(ls, bound);
    lemma_wrap_lines_within(ls, w, bound);
    if text_pos != TextPosition::Center {
        lemma_wrap_lines_within(ls, w, w);
    }
}

proof fn lemma_frame_box(top: Seq<char>, body: Seq<char>, bottom: Seq<char>)
    ensures
        (((Seq::<char>::empty().push('┌') + top).push('┐').push('\n') + body).push('\n').push('└')
            + bottom).push('┘') == frame_box(top, body, bottom),
{
    let x = (((Seq::<char>::empty().push('┌') + top).push('┐').push('\n') + body).push('\n').push(
        '└',
    ) + bottom).push('┘');
    assert(x =~= frame_box(top, body, bottom));
}

/// Draws `input` in a box of box-drawing characters, with an optional title
/// on the top edge and an optional footer on the bottom edge.
///
/// The lines of the input are wrapped, word by word, to the inner width:
/// `width` when given, else the longest input line, and at least the title.
/// Widths count UTF-8 bytes, as `str::len` does.
pub fn boxify(
    input: &str,
    text_pos: &TextPosition,
    title: Option<&str>,
    title_pos: &TextPosition,
    footer: Option<&str>,
    footer_pos: &TextPosition,
    width: Option<usize>,
) -> (r: String)
    requires
        byte_len(input@) <= usize::MAX,
        byte_len(opt_text(title)) <= usize::MAX,
        byte_len(opt_text(footer)) <= usize::MAX,
        box_drawable(input@, *text_pos, opt_text(title), width),
    ensures
        r@ == box_text(
            input@,
            *text_pos,
            opt_text(title),
            *title_pos,
            opt_text(footer),
            *footer_pos,
            width,
        ),
{
    let chars = chars_of(input);
    let lines = text_lines_exec(&chars);
    let ghost ls = views(lines@);
    proof {
        lemma_text_lines_bounded(chars@);
        assert(all_fit(ls, byte_len(chars@)));
    }
    let longest = longest_line(&lines, Ghost(byte_len(chars@)));
    let title_chars = match title {
        Some(t) => chars_of(t),
        None => Vec::new(),
    };
    let footer_chars = match footer {
        Some(t) => chars_of(t),
        None => Vec::new(),
    };
    assert(title_chars@ == opt_text(title));
    assert(footer_chars@ == opt_text(footer));
    let title_len = byte_len_exec(&title_chars);
    let footer_len = byte_len_exec(&footer_chars);
    let mut max_width = match width {
        Some(w) => w,
        None => longest,
    };
    if title_len > max_width {
        max_width = title_len;
    }
    let ghost w = max_width as nat;
    assert(w == box_width(ls, opt_text(title), width));
    // No wrapped line exceeds this bound.
    let ghost bound: nat = if w > byte_len(chars@) {
        w
    } else {
        byte_len(chars@)
    };
    proof {
        lemma_wrapped_bounds(ls, *text_pos, w, byte_len(chars@), bound);
        assert forall|j: int| 0 <= j < lines.len() implies byte_len(#[trigger] lines@[j]@)
            <= usize::MAX by {
            assert(ls[j] == lines@[j]@);
        }
    }
    let wrapped = wrap_lines_exec(&lines, max_width);
    let ghost tl = frame_line(opt_text(title), *title_pos, w);
    let ghost bl = frame_line(opt_text(footer), *footer_pos, w);
    let ghost body = join_lines(box_rows(ls, *text_pos, w));
    let mut out: Vec<char> = Vec::new();
    out.push('┌');
    push_frame_line(&mut out, &title_chars, title_len, title_pos, max_width);
    out.push('┐');
    out.push('\n');
    push_rows(&mut out, &wrapped, text_pos, max_width, Ghost(bound));
    out.push('\n');
    out.push('└');
    push_frame_line(&mut out, &footer_chars, footer_len, footer_pos, max_width);
    out.push('┘');
    proof {
        lemma_frame_box(tl, body, bl);
    }
    string_from_chars(&out)
}


/// The cells of a grid, row by row.
pub open spec fn cells(g: Grid) -> Seq<Seq<(char, ColorCode)>> {
    g@.map_values(|r: Vec<(char, ColorCode)>| r@)
}

/// A row of `width` blank white cells.
pub open spec fn blank_row(width: nat) -> Seq<(char, ColorCode)> {
    Seq::new(width, |c: int| (' ', 'w'))
}

/// `height` rows of `width` blank white cells.
pub open spec fn blank_grid(width: nat, height: nat) -> Seq<Seq<(char, ColorCode)>> {
    Seq::new(height, |r: int| blank_row(width))
}

/// A drawing surface of character cells.
pub struct Canvas {
    pub grid: Grid,
}

/// A grid of `height` rows of `width` blank white cells.
pub fn create_grid(width: usize, height: usize) -> (g: Grid)
    ensures
        cells(g) == blank_grid(width as nat, height as nat),
{
    let mut g: Grid = Vec::new();
    let mut r: usize = 0;
    while r < height
        invariant
            r <= height,
            cells(g) == Seq::new(r as nat, |i: int| blank_row(width as nat)),
        decreases height - r,
    {
        let mut row: Vec<(char, ColorCode)> = Vec::new();
        let mut c: usize = 0;
        while c < width
            invariant
                c <= width,
                row@ == blank_row(c as nat),
            decreases width - c,
        {
            row.push((' ', 'w'));
            assert(row@ =~= blank_row((c + 1) as nat));
            c += 1;
        }
        let ghost before = cells(g);
        let ghost rv = row@;
        g.push(row);
        assert(cells(g) =~= before.push(rv));
        assert(cells(g) =~= Seq::new((r + 1) as nat, |i: int| blank_row(width as nat)));
        r += 1;
    }
    assert(cells(g) =~= blank_grid(width as nat, height as nat));
    g
}

/// Sets one cell of a grid.
pub fn set_cell(grid: &mut Grid, r: usize, c: usize, v: (char, ColorCode))
    requires
        r < old(grid)@.len(),
        c < old(grid)@[r as int]@.len(),
    ensures
        final(grid)@.len() == old(grid)@.len(),
        cells(*final(grid)) == cells(*old(grid)).update(
            r as int,
            cells(*old(grid))[r as int].update(c as int, v),
        ),
{
    grid[r][c] = v;
    assert(cells(*grid) =~= cells(*old(grid)).update(
        r as int,
        cells(*old(grid))[r as int].update(c as int, v),
    ));
}

/// The cell a character of a block leaves: spaces are marked `A` so that
/// paths avoid the inside of blocks; other characters take the colour.
pub open spec fn placed(ch: char, color: ColorCode) -> (char, ColorCode) {
    if ch == ' ' {
        (ch, 'A')
    } else {
        (ch, color)
    }
}

/// The grid after drawing `pieces` as consecutive rows from (`sx`, `sy`):
/// what falls outside the grid is cut off.
pub open spec fn place_pieces(
    g: Seq<Seq<(char, ColorCode)>>,
    pieces: Seq<Seq<char>>,
    sx: int,
    sy: int,
    color: ColorCode,
) -> Seq<Seq<(char, ColorCode)>> {
    Seq::new(
        g.len(),
        |r: int|
            Seq::new(
                g[r].len(),
                |c: int|
                    if sy <= r < sy + pieces.len() && sx <= c < sx + pieces[r - sy].len() {
                        placed(pieces[r - sy][c - sx], color)
                    } else {
                        g[r][c]
                    },
            ),
    )
}

/// The grid after drawing the lines of `block` (split at `\n`) from (`sx`, `sy`).
pub open spec fn block_placed(
    g: Seq<Seq<(char, ColorCode)>>,
    block: Seq<char>,
    sx: int,
    sy: int,
    color: ColorCode,
) -> Seq<Seq<(char, ColorCode)>> {
    place_pieces(g, split_on(block, '\n'), sx, sy, color)
}

/// The digit character for `d`, which is below ten.
pub open spec fn digit_char(d: int) -> char {
    if d == 0 {
        '0'
    } else if d == 1 {
        '1'
    } else if d == 2 {
        '2'
    } else if d == 3 {
        '3'
    } else if d == 4 {
        '4'
    } else if d == 5 {
        '5'
    } else if d == 6 {
        '6'
    } else if d == 7 {
        '7'
    } else if d == 8 {
        '8'
    } else {
        '9'
    }
}

/// The decimal digit for `d`, which is below ten.
pub fn digit_char_exec(d: u32) -> (c: char)
    requires
        d < 10,
    ensures
        c == digit_char(d as int),
{
    if d == 0 {
        '0'
    } else if d == 1 {
        '1'
    } else if d == 2 {
        '2'
    } else if d == 3 {
        '3'
    } else if d == 4 {
        '4'
    } else if d == 5 {
        '5'
    } else if d == 6 {
        '6'
    } else if d == 7 {
        '7'
    } else if d == 8 {
        '8'
    } else {
        '9'
    }
}

/// The ruler digit of a coordinate: its last decimal digit, taken after the
/// coordinate is cut to 32 bits.
pub open spec fn ruler_digit(x: usize) -> char {
    digit_char(((x as u32) % 10) as int)
}

/// The grid with its first row and first column turned into rulers of digits.
pub open spec fn bordered(g: Seq<Seq<(char, ColorCode)>>) -> Seq<Seq<(char, ColorCode)>> {
    Seq::new(
        g.len(),
        |r: int|
            Seq::new(
                g[r].len(),
                |c: int|
                    if c == 0 {
                        (ruler_digit(r as usize), 'G')
                    } else if r == 0 {
                        (ruler_digit(c as usize), 'G')
                    } else {
                        g[r][c]
                    },
            ),
    )
}

impl Canvas {
    /// Draws the lines of `block` from column `start_x` of row `start_y` on,
    /// one row per line; what falls outside the grid is cut off.
    pub fn place_block(&mut self, block: &str, start_x: usize, start_y: usize, color: char)
        ensures
            cells(final(self).grid) == block_placed(
                cells(old(self).grid),
                block@,
                start_x as int,
                start_y as int,
                color,
            ),
    {
        let ghost g0 = cells(self.grid);
        let chars = chars_of(block);
        let pieces = split_on_exec(&chars, '\n');
        let ghost ps = views(pieces@);
        let mut y = start_y;
        let mut k: usize = 0;
        proof {
            let p0 = place_pieces(g0, ps.take(0), start_x as int, start_y as int, color);
            assert forall|r: int| 0 <= r < g0.len() implies #[trigger] g0[r] =~= p0[r] by {}
            assert(g0 =~= p0);
        }
        while k < pieces.len()
            invariant
                k <= pieces.len(),
                ps == views(pieces@),
                ps == split_on(block@, '\n'),
                g0 == cells(old(self).grid),
                y == start_y + k,
                self.grid@.len() == g0.len(),
                cells(self.grid) == place_pieces(g0, ps.take(k as int), start_x as int, start_y as int, color),
            decreases pieces.len() - k,
        {
            if y >= self.grid.len() {
                proof {
                    let a = place_pieces(g0, ps.take(k as int), start_x as int, start_y as int, color);
                    let b = place_pieces(g0, ps, start_x as int, start_y as int, color);
                    assert forall|r: int| 0 <= r < g0.len() implies #[trigger] a[r] =~= b[r] by {
                        assert forall|c: int| 0 <= c < a[r].len() implies a[r][c] == b[r][c] by {
                            if start_y <= r < start_y + k {
                                assert(ps.take(k as int)[r - start_y] == ps[r - start_y]);
                            }
                        }
                    }
                    assert(a =~= b);
                    assert(ps == split_on(block@, '\n'));
                    assert(b == block_placed(g0, block@, start_x as int, start_y as int, color));
                }
                return;
            }
            let piece = &pieces[k];
            let ghost pk = ps[k as int];
            assert(piece@ == pk);
            let ghost before = cells(self.grid);
            let row_len = self.grid[y].len();
            assert(row_len == before[y as int].len());
            let mut i: usize = 0;
            let n: usize = if start_x >= row_len {
                0
            } else if piece.len() <= row_len - start_x {
                piece.len()
            } else {
                row_len - start_x
            };
            while i < n
                invariant
                    i <= n,
                    n <= piece@.len(),
                    piece@ == pk,
                    y < self.grid@.len(),
                    self.grid@.len() == before.len(),
                    row_len == before[y as int].len(),
                    n > 0 ==> start_x + n <= row_len,
                    cells(self.grid).len() == before.len(),
                    forall|r: int| 0 <= r < before.len() && r != y ==> #[trigger] cells(self.grid)[r] == before[r],
                    cells(self.grid)[y as int].len() == row_len,
                    forall|c: int|
                        0 <= c < row_len ==> #[trigger] cells(self.grid)[y as int][c] == if start_x <= c
                            < start_x + i {
                            placed(pk[c - start_x], color)
                        } else {
                            before[y as int][c]
                        },
                decreases n - i,
            {
                let ch = piece[i];
                let v = if ch == ' ' {
                    (ch, 'A')
                } else {
                    (ch, color)
                };
                set_cell(&mut self.grid, y, start_x + i, v);
                i += 1;
            }
            proof {
                let next = place_pieces(g0, ps.take(k + 1), start_x as int, start_y as int, color);
                assert(ps.take(k + 1)[k as int] == pk);
                assert forall|r: int| 0 <= r < before.len() implies #[trigger] cells(self.grid)[r]
                    =~= next[r] by {
                    if r == y {
                        assert forall|c: int| 0 <= c < row_len implies cells(self.grid)[r][c]
                            == next[r][c] by {
                            assert(before[r][c] == g0[r][c] || (start_y <= r < start_y + k));
                        }
                    } else {
                        assert forall|c: int| 0 <= c < cells(self.grid)[r].len() implies cells(
                            self.grid,
                        )[r][c] == next[r][c] by {
                            if start_y <= r < start_y + k {
                                assert(ps.take(k + 1)[r - start_y] == ps.take(k as int)[r - start_y]);
                            }
                        }
                    }
                }
                assert(cells(self.grid) =~= next);
            }
            y += 1;
            k += 1;
        }
        assert(ps.take(pieces.len() as int) =~= ps);
    }

    /// Turns the first row and the first column into rulers: each cell shows
    /// the last digit of its coordinate, in colour `G`.
    pub fn place_border(&mut self)
        requires
            forall|r: int| 0 <= r < old(self).grid@.len() ==> #[trigger] old(self).grid@[r]@.len() > 0,
        ensures
            cells(final(self).grid) == bordered(cells(old(self).grid)),
    {
        let ghost g0 = cells(self.grid);
        let height = self.grid.len();
        if height == 0 {
            assert(cells(self.grid) =~= bordered(g0));
            return;
        }
        let width = self.grid[0].len();
        let mut x: usize = 0;
        while x < width
            invariant
                height == g0.len(),
                height > 0,
                width == g0[0].len(),
                x <= width,
                cells(self.grid).len() == height,
                self.grid@.len() == height,
                forall|r: int| 0 < r < height ==> #[trigger] cells(self.grid)[r] == g0[r],
                cells(self.grid)[0].len() == width,
                forall|c: int|
                    0 <= c < width ==> #[trigger] cells(self.grid)[0][c] == if c < x {
                        (ruler_digit(c as usize), 'G')
                    } else {
                        g0[0][c]
                    },
            decreases width - x,
        {
            let d = digit_char_exec((#[verifier::truncate] (x as u32)) % 10);
            assert(cells(self.grid)[0] == self.grid@[0]@);
            set_cell(&mut self.grid, 0, x, (d, 'G'));
            x += 1;
        }
        let mut y: usize = 0;
        while y < height
            invariant
                height == g0.len(),
                height > 0,
                width == g0[0].len(),
                y <= height,
                cells(self.grid).len() == height,
                self.grid@.len() == height,
                forall|r: int| 0 <= r < height ==> #[trigger] cells(self.grid)[r].len() == g0[r].len(),
                forall|r: int| 0 <= r < height ==> g0[r].len() > 0,
                forall|r: int, c: int|
                    0 <= r < height && 0 <= c < g0[r].len() ==> #[trigger] cells(self.grid)[r][c]
                        == if c == 0 && r < y {
                        (ruler_digit(r as usize), 'G')
                    } else if r == 0 {
                        if c == 0 {
                            (ruler_digit(0), 'G')
                        } else {
                            (ruler_digit(c as usize), 'G')
                        }
                    } else {
                        g0[r][c]
                    },
            decreases height - y,
        {
            let d = digit_char_exec((#[verifier::truncate] (y as u32)) % 10);
            assert(cells(self.grid)[y as int] == self.grid@[y as int]@);
            set_cell(&mut self.grid, y, 0, (d, 'G'));
            y += 1;
        }
        proof {
            let b = bordered(g0);
            assert forall|r: int| 0 <= r < height implies #[trigger] cells(self.grid)[r] =~= b[r] by {}
            assert(cells(self.grid) =~= b);
        }
    }

    /// Sets the cell at row `x`, column `y` (the first index picks the row).
    pub fn place_point(&mut self, x: usize, y: usize, ch: char, color: char)
        requires
            x < old(self).grid@.len(),
            y < old(self).grid@[x as int]@.len(),
        ensures
            cells(final(self).grid) == cells(old(self).grid).update(
                x as int,
                cells(old(self).grid)[x as int].update(y as int, (ch, color)),
            ),
    {
        set_cell(&mut self.grid, x, y, (ch, color));
    }
}


/// The escape sequence that a colour code stands for; unknown codes, and
/// `A` (the mark of the inside of blocks), give no escape.
pub open spec fn color_escape(code: char) -> Seq<char> {
    if code == 'B' {
        "\x1b[30m"@
    } else if code == 'r' {
        "\x1b[31m"@
    } else if code == 'g' {
        "\x1b[32m"@
    } else if code == 'y' {
        "\x1b[33m"@
    } else if code == 'b' {
        "\x1b[34m"@
    } else if code == 'm' {
        "\x1b[35m"@
    } else if code == 'c' {
        "\x1b[36m"@
    } else if code == 'G' {
        "\x1b[37m"@
    } else if code == 'w' {
        "\x1b[39m"@
    } else if code == 'R' {
        "\x1b[0m"@
    } else {
        ""@
    }
}

/// The terminal escape sequence for a colour code.
pub fn colorize(color_code: char) -> (s: String)
    ensures
        s@ == color_escape(color_code),
{
    let color_str = if color_code == 'B' {
        "\x1b[30m"
    } else if color_code == 'r' {
        "\x1b[31m"
    } else if color_code == 'g' {
        "\x1b[32m"
    } else if color_code == 'y' {
        "\x1b[33m"
    } else if color_code == 'b' {
        "\x1b[34m"
    } else if color_code == 'm' {
        "\x1b[35m"
    } else if color_code == 'c' {
        "\x1b[36m"
    } else if color_code == 'G' {
        "\x1b[37m"
    } else if color_code == 'w' {
        "\x1b[39m"
    } else if color_code == 'R' {
        "\x1b[0m"
    } else {
        ""
    };
    color_str.to_string()
}

/// A cell as the terminal gets it: its colour escape, then its character.
pub open spec fn cell_text(cell: (char, ColorCode)) -> Seq<char> {
    color_escape(cell.1).push(cell.0)
}

/// The cells of a row, one after the other.
pub open spec fn row_text(row: Seq<(char, ColorCode)>) -> Seq<char>
    decreases row.len(),
{
    if row.len() == 0 {
        Seq::empty()
    } else {
        row_text(row.drop_last()) + cell_text(row.last())
    }
}

/// The rows of a grid, one after the other, with nothing between them.
pub open spec fn grid_text(g: Seq<Seq<(char, ColorCode)>>) -> Seq<char>
    decreases g.len(),
{
    if g.len() == 0 {
        Seq::empty()
    } else {
        grid_text(g.drop_last()) + row_text(g.last())
    }
}

/// Appends a string slice to a `String`.
pub fn string_push_str(s: &mut String, t: &str)
    ensures
        final(s)@ == old(s)@ + t@,
{
    let chars = chars_of(t);
    let mut i: usize = 0;
    while i < chars.len()
        invariant
            i <= chars.len(),
            chars@ == t@,
            s@ == old(s)@ + chars@.take(i as int),
        decreases chars.len() - i,
    {
        string_push(s, chars[i]);
        assert(chars@.take(i + 1) =~= chars@.take(i as int).push(chars@[i as int]));
        i += 1;
    }
    assert(chars@.take(chars.len() as int) =~= chars@);
}

/// Appends the text of one row.
pub fn push_row_text(buf: &mut String, row: &Vec<(char, ColorCode)>)
    ensures
        final(buf)@ == old(buf)@ + row_text(row@),
{
    let mut i: usize = 0;
    assert(row@.take(0) =~= Seq::<(char, ColorCode)>::empty());
    while i < row.len()
        invariant
            i <= row.len(),
            buf@ == old(buf)@ + row_text(row@.take(i as int)),
        decreases row.len() - i,
    {
        let (ch, code) = row[i];
        let color = colorize(code);
        string_push_str(buf, color.as_str());
        string_push(buf, ch);
        assert(row@.take(i + 1).drop_last() =~= row@.take(i as int));
        assert(buf@ =~= old(buf)@ + (row_text(row@.take(i as int)) + cell_text(row@[i as int])));
        i += 1;
    }
    assert(row@.take(row.len() as int) =~= row@);
}

impl Canvas {
    /// Appends the whole canvas, row after row, each cell as its colour
    /// escape followed by its character.
    pub fn _buf_string(&mut self, buf: &mut String)
        ensures
            final(self).grid@ == old(self).grid@,
            final(buf)@ == old(buf)@ + grid_text(cells(old(self).grid)),
    {
        let ghost g = cells(self.grid);
        let mut r: usize = 0;
        assert(g.take(0) =~= Seq::<Seq<(char, ColorCode)>>::empty());
        while r < self.grid.len()
            invariant
                r <= self.grid@.len(),
                g == cells(self.grid),
                self.grid@ == old(self).grid@,
                buf@ == old(buf)@ + grid_text(g.take(r as int)),
            decreases self.grid@.len() - r,
        {
            push_row_text(buf, &self.grid[r]);
            assert(g.take(r + 1).drop_last() =~= g.take(r as int));
            assert(g[r as int] == self.grid@[r as int]@);
            assert(buf@ =~= old(buf)@ + (grid_text(g.take(r as int)) + row_text(g[r as int])));
            r += 1;
        }
        assert(g.take(self.grid@.len() as int) =~= g);
    }
}

/// Whether `find_edge` can place the block's edge midpoints: the block has a
/// line, and no coordinate leaves the range of `usize`.
pub open spec fn edges_defined(bx: usize, by: usize, block: Seq<char>) -> bool {
    let ls = text_lines(block);
    &&& ls.len() > 0
    &&& 1 <= bx + ls[0].len() <= usize::MAX
    &&& by + ls.len() <= usize::MAX
}

/// The midpoints of the left, right, top and bottom edges of a block drawn
/// at (`bx`, `by`): its height is its number of lines, its width the number
/// of characters of its first line.
pub open spec fn edges(bx: usize, by: usize, block: Seq<char>) -> Seq<Point> {
    let h = text_lines(block).len();
    let w = text_lines(block)[0].len();
    seq![
        (bx, (by + h / 2) as usize),
        ((bx + w - 1) as usize, (by + h / 2) as usize),
        ((bx + w / 2) as usize, by),
        ((bx + w / 2) as usize, (by + h - 1) as usize),
    ]
}

/// The midpoints of the left, right, top and bottom edges of a block.
pub fn find_edge(block_x: usize, block_y: usize, block: &str) -> (r: [Point; 4])
    requires
        edges_defined(block_x, block_y, block@),
    ensures
        r@ == edges(block_x, block_y, block@),
{
    let chars = chars_of(block);
    let lines = text_lines_exec(&chars);
    assert(views(lines@) == text_lines(block@));
    let block_height = lines.len();
    let block_width = lines[0].len();
    assert(lines@[0]@ == text_lines(block@)[0]);
    let left = (block_x, block_y + block_height / 2);
    let right = (block_x + block_width - 1, block_y + block_height / 2);
    let top = (block_x + block_width / 2, block_y);
    let bottom = (block_x + block_width / 2, block_y + block_height - 1);
    let r = [left, right, top, bottom];
    assert(r@ =~= edges(block_x, block_y, block@));
    r
}


/// `a - b` after both are cut to `i32`, as the distance computation does.
pub open spec fn i32_diff(a: usize, b: usize) -> int {
    (a as i32) as int - (b as i32) as int
}

/// The squared distance from (`rx`, `ry`) to `p`, over coordinates cut to `i32`.
pub open spec fn sq_dist(rx: usize, ry: usize, p: Point) -> int {
    let dx = i32_diff(rx, p.0);
    let dy = i32_diff(ry, p.1);
    dx * dx + dy * dy
}

/// Whether the squared distance can be computed in `i32` without overflow.
pub open spec fn sq_dist_fits(rx: usize, ry: usize, p: Point) -> bool {
    let dx = i32_diff(rx, p.0);
    let dy = i32_diff(ry, p.1);
    &&& i32::MIN <= dx <= i32::MAX
    &&& i32::MIN <= dy <= i32::MAX
    &&& dx * dx <= i32::MAX
    &&& dy * dy <= i32::MAX
    &&& dx * dx + dy * dy <= i32::MAX
}

/// The index of the first smallest key.
pub open spec fn first_min(keys: Seq<int>) -> int
    decreases keys.len(),
{
    if keys.len() <= 1 {
        0
    } else {
        let k = first_min(keys.drop_last());
        if keys.last() < keys[k] {
            keys.len() - 1
        } else {
            k
        }
    }
}

/// The first smallest key is no larger than any key, and every key before
/// it is larger.
pub proof fn lemma_first_min(keys: Seq<int>)
    requires
        keys.len() > 0,
    ensures
        0 <= first_min(keys) < keys.len(),
        forall|j: int| 0 <= j < keys.len() ==> keys[first_min(keys)] <= #[trigger] keys[j],
        forall|j: int| 0 <= j < first_min(keys) ==> keys[first_min(keys)] < #[trigger] keys[j],
    decreases keys.len(),
{
    if keys.len() > 1 {
        lemma_first_min(keys.drop_last());
        assert forall|j: int| 0 <= j < keys.len() - 1 implies keys.drop_last()[j] == keys[j] by {}
    }
}

/// The squared distances from (`rx`, `ry`) to the points.
pub open spec fn sq_dists(rx: usize, ry: usize, ps: Seq<Point>) -> Seq<int> {
    ps.map_values(|p: Point| sq_dist(rx, ry, p))
}

/// Whether `find_nearest_edge` can compute its answer: the edges of the block
/// exist, with the block's coordinates taken in the order the function
/// passes them on, and every squared distance fits in `i32`.
pub open spec fn nearest_edge_defined(
    ref_x: usize,
    ref_y: usize,
    block_x: usize,
    block_y: usize,
    block: Seq<char>,
) -> bool {
    &&& edges_defined(block_y, block_x, block)
    &&& forall|i: int| 0 <= i < 4 ==> sq_dist_fits(ref_x, ref_y, #[trigger] edges(block_y, block_x, block)[i])
}

/// The point `find_nearest_edge` picks is one of the block's edge midpoints,
/// and none of them is nearer.
pub proof fn lemma_nearest_edge_is_nearest(rx: usize, ry: usize, cands: Seq<Point>)
    requires
        cands.len() == 4,
    ensures
        ({
            let p = cands[first_min(sq_dists(rx, ry, cands))];
            &&& cands.contains(p)
            &&& forall|i: int| 0 <= i < 4 ==> sq_dist(rx, ry, p) <= sq_dist(rx, ry, #[trigger] cands[i])
        }),
{
    let keys = sq_dists(rx, ry, cands);
    lemma_first_min(keys);
    let k = first_min(keys);
    assert(cands[k] == cands[k]);
    assert forall|i: int| 0 <= i < 4 implies sq_dist(rx, ry, cands[k]) <= sq_dist(
        rx,
        ry,
        #[trigger] cands[i],
    ) by {
        assert(keys[k] <= keys[i]);
    }
}

/// The point `find_nearest_edge` answers is one of the block's four edge
/// midpoints, and no edge midpoint is nearer to the reference point in
/// squared Euclidean distance `(rx - x)^2 + (ry - y)^2`, over both
/// coordinates (coordinates that fit in `i32`).
pub proof fn lemma_nearest_edge_minimises_distance(
    rx: usize,
    ry: usize,
    block_x: usize,
    block_y: usize,
    block: Seq<char>,
)
    requires
        edges_defined(block_y, block_x, block),
        rx <= i32::MAX,
        ry <= i32::MAX,
        forall|i: int|
            0 <= i < 4 ==> (#[trigger] edges(block_y, block_x, block)[i]).0 <= i32::MAX && edges(
                block_y,
                block_x,
                block,
            )[i].1 <= i32::MAX,
    ensures
        ({
            let cands = edges(block_y, block_x, block);
            let p = cands[first_min(sq_dists(rx, ry, cands))];
            &&& cands.contains(p)
            &&& forall|i: int|
                0 <= i < 4 ==> (rx - p.0) * (rx - p.0) + (ry - p.1) * (ry - p.1) <= (rx
                    - (#[trigger] cands[i]).0) * (rx - cands[i].0) + (ry - cands[i].1) * (ry
                    - cands[i].1)
        }),
{
    let cands = edges(block_y, block_x, block);
    let keys = sq_dists(rx, ry, cands);
    lemma_first_min(keys);
    let k = first_min(keys);
    assert(cands[k] == cands[k]);
    assert forall|i: int| 0 <= i < 4 implies (rx - cands[k].0) * (rx - cands[k].0) + (ry
        - cands[k].1) * (ry - cands[k].1) <= (rx - (#[trigger] cands[i]).0) * (rx - cands[i].0)
        + (ry - cands[i].1) * (ry - cands[i].1) by {
        assert(keys[k] <= keys[i]);
        assert(i32_diff(rx, cands[k].0) == rx - cands[k].0);
        assert(i32_diff(ry, cands[k].1) == ry - cands[k].1);
        assert(i32_diff(rx, cands[i].0) == rx - cands[i].0);
        assert(i32_diff(ry, cands[i].1) == ry - cands[i].1);
    }
}

/// The edge midpoint of a block nearest to (`ref_x`, `ref_y`), the first of
/// them in left, right, top, bottom order when several are nearest.  The
/// block's position is handed to `find_edge` with its two coordinates in
/// the order (`block_y`, `block_x`).
pub fn find_nearest_edge(
    ref_x: usize,
    ref_y: usize,
    block_x: usize,
    block_y: usize,
    block: &str,
) -> (p: Point)
    requires
        nearest_edge_defined(ref_x, ref_y, block_x, block_y, block@),
    ensures
        ({
            let cands = edges(block_y, block_x, block@);
            p == cands[first_min(sq_dists(ref_x, ref_y, cands))]
        }),
{
    let candidates = find_edge(block_y, block_x, block);
    let ghost cands = candidates@;
    let ghost keys = sq_dists(ref_x, ref_y, cands);
    let mut best: usize = 0;
    let mut best_key: i32 = 0;
    let mut i: usize = 0;
    assert(cands.len() == 4);
    while i < 4
        invariant
            i <= 4,
            cands == candidates@,
            cands.len() == 4,
            keys == sq_dists(ref_x, ref_y, cands),
            forall|j: int| 0 <= j < 4 ==> sq_dist_fits(ref_x, ref_y, #[trigger] cands[j]),
            i > 0 ==> best == first_min(keys.take(i as int)),
            i > 0 ==> best < i && best_key == keys[best as int],
        decreases 4 - i,
    {
        let (x, y) = candidates[i];
        assert(sq_dist_fits(ref_x, ref_y, cands[i as int]));
        let dx: i32 = (#[verifier::truncate] (ref_x as i32)) - (#[verifier::truncate] (x as i32));
        let dy: i32 = (#[verifier::truncate] (ref_y as i32)) - (#[verifier::truncate] (y as i32));
        assert(cands[i as int] == (x, y));
        assert(dx as int == i32_diff(ref_x, x));
        assert(dy as int == i32_diff(ref_y, y));
        assert(0 <= (dx as int) * (dx as int)) by (nonlinear_arith);
        assert(0 <= (dy as int) * (dy as int)) by (nonlinear_arith);
        let key = dx * dx + dy * dy;
        assert(key == keys[i as int]);
        assert(keys.take(i + 1).drop_last() =~= keys.take(i as int));
        if i == 0 || key < best_key {
            best = i;
            best_key = key;
        }
        i += 1;
    }
    assert(keys.take(4) =~= keys);
    candidates[best]
}

} // verus!
