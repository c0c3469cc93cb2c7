//! Drawing the editor's state on a canvas, and the canvas on the terminal.
use vstd::prelude::*;
use crate::editor::{Block, State, block_view, blocks_view};
use crate::text::{all_fit, byte_len, string_from_chars, text_lines, words, words_fit, lemma_words};
use crate::xob::{
    Canvas, ColorCode, TextPosition, block_placed, bordered, box_drawable, box_text, box_width,
    boxify, cells, digit_char, digit_char_exec, max_byte_len, opt_text, row_text, push_row_text,
    string_push_str,
};
use crate::text::string_push;

verus! {

/// The text a block shows: its own, or `X` when it has none.
pub open spec fn shown_text(t: Seq<char>) -> Seq<char> {
    if t.len() == 0 {
        seq!['X']
    } else {
        t
    }
}

/// The box a block is drawn as: its text left aligned, its title on the top
/// edge, no footer, as wide as its longest line or its title.
pub open spec fn block_box(b: (Seq<char>, (usize, usize), ColorCode, Seq<char>)) -> Seq<char> {
    box_text(
        shown_text(b.0),
        TextPosition::Left,
        b.3,
        TextPosition::Left,
        Seq::empty(),
        TextPosition::Left,
        None,
    )
}

/// The colour a block is drawn in: green when selected, else its own.
pub open spec fn shown_color(b: (Seq<char>, (usize, usize), ColorCode, Seq<char>), i: int, sel: int) -> ColorCode {
    if i == sel {
        'g'
    } else {
        b.2
    }
}

/// The grid after the first `k` blocks are drawn, in order, each at its position.
pub open spec fn place_blocks(
    g: Seq<Seq<(char, ColorCode)>>,
    bs: Seq<(Seq<char>, (usize, usize), ColorCode, Seq<char>)>,
    sel: int,
    k: int,
) -> Seq<Seq<(char, ColorCode)>>
    decreases k,
{
    if k <= 0 {
        g
    } else {
        let g1 = place_blocks(g, bs, sel, k - 1);
        let b = bs[k - 1];
        block_placed(g1, block_box(b), b.1.0 as int, b.1.1 as int, shown_color(b, k - 1, sel))
    }
}

/// The grid after the first `k` debug lines are drawn in red, the line at
/// index `i` from the row `height - i` on.
pub open spec fn place_debug(g: Seq<Seq<(char, ColorCode)>>, lines: Seq<Seq<char>>, k: int) -> Seq<Seq<(char, ColorCode)>>
    decreases k,
{
    if k <= 0 {
        g
    } else {
        let g1 = place_debug(g, lines, k - 1);
        block_placed(g1, lines[k - 1], 0, g1.len() - (k - 1), 'r')
    }
}

/// A screen: rulers on the border, the blocks, then the debug lines.
pub open spec fn rendered(
    g: Seq<Seq<(char, ColorCode)>>,
    bs: Seq<(Seq<char>, (usize, usize), ColorCode, Seq<char>)>,
    sel: int,
    debug: Seq<Seq<char>>,
) -> Seq<Seq<(char, ColorCode)>> {
    place_debug(place_blocks(bordered(g), bs, sel, bs.len() as int), debug, debug.len() as int)
}

/// The debug lines as plain values.
pub open spec fn lines_view(v: Seq<String>) -> Seq<Seq<char>> {
    v.map_values(|s: String| s@)
}

/// Whether `render_xob` can draw: every row of the grid has a cell for the
/// ruler, every text and title has a byte length that fits in `usize`, and
/// there are at most one more debug lines than rows.
pub open spec fn renderable(g: Seq<Seq<(char, ColorCode)>>, s: &State, debug: Seq<String>) -> bool {
    &&& forall|r: int| 0 <= r < g.len() ==> #[trigger] g[r].len() > 0
    &&& forall|i: int|
        0 <= i < s.blocks@.len() ==> byte_len(#[trigger] s.blocks@[i].0@) <= usize::MAX && byte_len(
            s.blocks@[i].3@,
        ) <= usize::MAX
    &&& debug.len() <= g.len() + 1
}

/// No line is longer in bytes than the longest.
pub proof fn lemma_max_byte_len(ls: Seq<Seq<char>>)
    ensures
        forall|i: int| 0 <= i < ls.len() ==> byte_len(#[trigger] ls[i]) <= max_byte_len(ls),
    decreases ls.len(),
{
    if ls.len() > 0 {
        lemma_max_byte_len(ls.drop_last());
        assert forall|i: int| 0 <= i < ls.len() - 1 implies ls.drop_last()[i] == ls[i] by {}
    }
}

/// A box as wide as its longest line can always be drawn.
pub proof fn lemma_natural_width_drawable(input: Seq<char>, pos: TextPosition, title: Seq<char>)
    ensures
        box_drawable(input, pos, title, None),
{
    let ls = text_lines(input);
    let w = box_width(ls, title, None);
    lemma_max_byte_len(ls);
    assert forall|i: int| 0 <= i < ls.len() implies all_fit(words(#[trigger] ls[i]), w) by {
        lemma_words(ls[i]);
        assert forall|j: int| 0 <= j < words(ls[i]).len() implies byte_len(
            #[trigger] words(ls[i])[j],
        ) <= w by {}
    }
    assert(words_fit(ls, w));
}

/// Draws the editor's state on `grid`: rulers on its border, every block as a
/// box at its position (the selected one in green), and the debug lines in
/// red, from the bottom row up.
pub fn render_xob(grid: Canvas, state: &State, debug: &Vec<String>) -> (r: Canvas)
    requires
        renderable(cells(grid.grid), state, debug@),
    ensures
        cells(r.grid) == rendered(
            cells(grid.grid),
            blocks_view(state.blocks@),
            state.current_selection as int,
            lines_view(debug@),
        ),
{
    let ghost g0 = cells(grid.grid);
    let ghost bs = blocks_view(state.blocks@);
    let ghost sel = state.current_selection as int;
    let mut grid = grid;
    assert forall|r: int| 0 <= r < grid.grid@.len() implies #[trigger] grid.grid@[r]@.len() > 0 by {
        assert(grid.grid@[r]@ == g0[r]);
    }
    grid.place_border();
    assert(cells(grid.grid).len() == grid.grid@.len());
    assert(bordered(g0).len() == g0.len());
    let mut index: usize = 0;
    while index < state.blocks.len()
        invariant
            index <= state.blocks@.len(),
            bs == blocks_view(state.blocks@),
            sel == state.current_selection as int,
            renderable(g0, state, debug@),
            grid.grid@.len() == g0.len(),
            cells(grid.grid) == place_blocks(bordered(g0), bs, sel, index as int),
        decreases state.blocks@.len() - index,
    {
        let block: &Block = &state.blocks[index];
        let ghost b = bs[index as int];
        assert(b == block_view(*block));
        let input: String = if block.0.len() == 0 {
            let mut x: Vec<char> = Vec::new();
            x.push('X');
            string_from_chars(&x)
        } else {
            string_from_chars(&block.0)
        };
        assert(input@ == shown_text(b.0)) by {
            if block.0@.len() == 0 {
                assert(input@ =~= seq!['X']);
            }
        }
        proof {
            lemma_natural_width_drawable(input@, TextPosition::Left, block.3@);
            if block.0@.len() == 0 {
                crate::text::lemma_byte_len_single('X');
            }
        }
        let text_box = boxify(
            input.as_str(),
            &TextPosition::Left,
            Some(block.3.as_str()),
            &TextPosition::Left,
            None,
            &TextPosition::Left,
            None,
        );
        assert(opt_text(None) =~= Seq::<char>::empty());
        let color = if state.current_selection == index {
            'g'
        } else {
            block.2
        };
        let (x, y) = block.1;
        grid.place_block(text_box.as_str(), x, y, color);
        assert(cells(grid.grid).len() == grid.grid@.len());
        index += 1;
    }
    let ghost g1 = cells(grid.grid);
    let ghost ls = lines_view(debug@);
    let height = grid.grid.len();
    let mut index: usize = 0;
    while index < debug.len()
        invariant
            index <= debug@.len(),
            ls == lines_view(debug@),
            debug@.len() <= height + 1,
            height == g1.len(),
            grid.grid@.len() == height,
            cells(grid.grid) == place_debug(g1, ls, index as int),
        decreases debug@.len() - index,
    {
        let item = &debug[index];
        assert(item@ == ls[index as int]);
        grid.place_block(item.as_str(), 0, grid.grid.len() - index, 'r');
        assert(cells(grid.grid).len() == grid.grid@.len());
        index += 1;
    }
    grid
}

/// The decimal digits of `n`.
pub open spec fn decimal(n: nat) -> Seq<char>
    decreases n,
{
    if n < 10 {
        seq![digit_char(n as int)]
    } else {
        decimal(n / 10).push(digit_char((n % 10) as int))
    }
}

/// The escape sequence that moves the cursor to the first column of row `n`.
pub open spec fn cursor_to(n: nat) -> Seq<char> {
    "\x1b["@ + decimal(n) + ";0f"@
}

/// What `buf_render` writes for the grid: each row's cells, then the move to
/// the next row (rows count from 1, so row `i` is followed by a move to row
/// `i + 2`).
pub open spec fn screen_text(g: Seq<Seq<(char, ColorCode)>>) -> Seq<char>
    decreases g.len(),
{
    if g.len() == 0 {
        Seq::empty()
    } else {
        screen_text(g.drop_last()) + row_text(g.last()) + cursor_to(g.len() + 1)
    }
}

/// Appends the decimal digits of `n`.
pub fn push_decimal(s: &mut String, n: usize)
    ensures
        final(s)@ == old(s)@ + decimal(n as nat),
    decreases n,
{
    if n >= 10 {
        push_decimal(s, n / 10);
    }
    string_push(s, digit_char_exec((n % 10) as u32));
    assert(s@ =~= old(s)@ + decimal(n as nat));
}

/// Appends the whole grid for the terminal: each row's cells with their
/// colour escapes, each row followed by a move to the start of the next.
pub fn buf_render(buffer: &mut String, grid: &Canvas)
    requires
        grid.grid@.len() + 2 <= usize::MAX,
    ensures
        final(buffer)@ == old(buffer)@ + screen_text(cells(grid.grid)),
{
    let ghost g = cells(grid.grid);
    let mut index: usize = 0;
    assert(g.take(0) =~= Seq::<Seq<(char, ColorCode)>>::empty());
    while index < grid.grid.len()
        invariant
            index <= grid.grid@.len(),
            grid.grid@.len() + 2 <= usize::MAX,
            g == cells(grid.grid),
            buffer@ == old(buffer)@ + screen_text(g.take(index as int)),
        decreases grid.grid@.len() - index,
    {
        let ghost before = buffer@;
        push_row_text(buffer, &grid.grid[index]);
        string_push_str(buffer, "\x1b[");
        push_decimal(buffer, index + 2);
        string_push_str(buffer, ";0f");
        assert(g.take(index + 1).drop_last() =~= g.take(index as int));
        assert(g[index as int] == grid.grid@[index as int]@);
        assert(buffer@ =~= old(buffer)@ + (screen_text(g.take(index as int)) + row_text(g[index as int])
            + cursor_to((index + 2) as nat)));
        index += 1;
    }
    assert(g.take(grid.grid@.len() as int) =~= g);
}

} // verus!
