//! The editor behind the terminal front end: the blocks on screen, the
//! selection, and what each key does to them.
use vstd::prelude::*;
use crate::controls::{backspace_word, control_backspace};
use crate::xob::{ColorCode, Point, sat_sub};
use crate::{subtract_wrap, wrap_back, wrap_forward};

verus! {

/// A block of text on screen: its text, its position (column, row), its
/// colour code and its title.
pub type Block = (Vec<char>, Point, ColorCode, String);

/// The editor's state.
pub struct State {
    pub blocks: Vec<Block>,
    pub paths: Vec<(usize, usize)>,
    pub current_selection: usize,
    pub block_width: usize,
    pub block_height: usize,
    pub grid_width: usize,
    pub grid_height: usize,
}

/// A block as plain values.
pub open spec fn block_view(b: Block) -> (Seq<char>, Point, ColorCode, Seq<char>) {
    (b.0@, b.1, b.2, b.3@)
}

/// The blocks as plain values.
pub open spec fn blocks_view(bs: Seq<Block>) -> Seq<(Seq<char>, Point, ColorCode, Seq<char>)> {
    bs.map_values(|b: Block| block_view(b))
}

impl State {
    /// The editor's first state: one empty white block at (1, 1), selected,
    /// on a screen of the given size.
    pub fn new(grid_width: usize, grid_height: usize) -> (s: State)
        ensures
            s.wf(),
            blocks_view(s.blocks@) == seq![(Seq::<char>::empty(), (1usize, 1usize), 'w', Seq::<char>::empty())],
            s.paths@.len() == 0,
            s.current_selection == 0,
            s.block_width == 0,
            s.block_height == 0,
            s.grid_width == grid_width,
            s.grid_height == grid_height,
    {
        let mut blocks: Vec<Block> = Vec::new();
        blocks.push((Vec::new(), (1, 1), 'w', String::new()));
        let s = State {
            blocks,
            paths: Vec::new(),
            current_selection: 0,
            block_width: 0,
            block_height: 0,
            grid_width,
            grid_height,
        };
        assert(blocks_view(s.blocks@) =~= seq![(Seq::<char>::empty(), (1usize, 1usize), 'w', Seq::<char>::empty())]);
        s
    }

    /// There is a block, and the selection names one.
    pub open spec fn wf(&self) -> bool {
        self.blocks@.len() > 0 && self.current_selection < self.blocks@.len()
    }
}

/// The modifier keys held with a key, compared as a whole: exactly Shift,
/// exactly Control, exactly Alt, none, or some other combination.
#[derive(Clone, Copy, Debug, PartialEq, Eq, Structural)]
pub enum Modifiers {
    Plain,
    Shift,
    Control,
    Alt,
    Other,
}

/// The keys the editor tells apart.
#[derive(Clone, Copy, Debug, PartialEq, Eq, Structural)]
pub enum Key {
    Left,
    Right,
    Up,
    Down,
    Char(char),
    Enter,
    Backspace,
    Other,
}

/// A direction of movement.
#[derive(Clone, Copy, Debug, PartialEq, Eq, Structural)]
pub enum Dir {
    Left,
    Right,
    Up,
    Down,
}

/// What a key press asks of the editor.
#[derive(Clone, Copy, Debug, PartialEq, Eq, Structural)]
pub enum Command {
    /// Select the next block, wrapping around.
    SelectNext,
    /// Select the previous block, wrapping around.
    SelectPrev,
    /// Move the selected block five cells, stopping at the screen's edge.
    Jump(Dir),
    /// Move the selected block one cell when it stays on screen.
    Step(Dir),
    /// Add a block and select it.
    NewBlock,
    /// Leave the editor.
    Quit,
    /// Stop with a panic, to try the panic handler.
    Panic,
    /// Delete the last word of the selected block.
    DeleteWord,
    /// Type a character into the selected block.
    Insert(char),
    /// Start a new line in the selected block.
    NewLine,
    /// Delete the last character of the selected block.
    DeleteChar,
    /// Nothing.
    Nothing,
}

/// The command a key press stands for.
pub open spec fn command_of(m: Modifiers, k: Key) -> Command {
    match (m, k) {
        (Modifiers::Alt, Key::Right) | (Modifiers::Alt, Key::Down) => Command::SelectNext,
        (Modifiers::Alt, Key::Left) | (Modifiers::Alt, Key::Up) => Command::SelectPrev,
        (Modifiers::Shift, Key::Right) | (Modifiers::Shift, Key::Left) | (Modifiers::Shift, Key::Up)
        | (Modifiers::Shift, Key::Down) => Command::Nothing,
        (Modifiers::Control, Key::Right) => Command::Jump(Dir::Right),
        (Modifiers::Control, Key::Left) => Command::Jump(Dir::Left),
        (Modifiers::Control, Key::Up) => Command::Jump(Dir::Up),
        (Modifiers::Control, Key::Down) => Command::Jump(Dir::Down),
        (_, Key::Right) => Command::Step(Dir::Right),
        (_, Key::Left) => Command::Step(Dir::Left),
        (_, Key::Up) => Command::Step(Dir::Up),
        (_, Key::Down) => Command::Step(Dir::Down),
        (Modifiers::Control, Key::Char('n')) => Command::NewBlock,
        (Modifiers::Control, Key::Char('q')) => Command::Quit,
        (Modifiers::Control, Key::Char('p')) => Command::Panic,
        (Modifiers::Control, Key::Char('h')) => Command::DeleteWord,
        (_, Key::Char(c)) => Command::Insert(c),
        (_, Key::Enter) => Command::NewLine,
        (_, Key::Backspace) => Command::DeleteChar,
        _ => Command::Nothing,
    }
}

/// The command a key press stands for.
pub fn command(m: Modifiers, k: Key) -> (c: Command)
    ensures
        c == command_of(m, k),
{
    match (m, k) {
        (Modifiers::Alt, Key::Right) | (Modifiers::Alt, Key::Down) => Command::SelectNext,
        (Modifiers::Alt, Key::Left) | (Modifiers::Alt, Key::Up) => Command::SelectPrev,
        (Modifiers::Shift, Key::Right) | (Modifiers::Shift, Key::Left) | (Modifiers::Shift, Key::Up)
        | (Modifiers::Shift, Key::Down) => Command::Nothing,
        (Modifiers::Control, Key::Right) => Command::Jump(Dir::Right),
        (Modifiers::Control, Key::Left) => Command::Jump(Dir::Left),
        (Modifiers::Control, Key::Up) => Command::Jump(Dir::Up),
        (Modifiers::Control, Key::Down) => Command::Jump(Dir::Down),
        (_, Key::Right) => Command::Step(Dir::Right),
        (_, Key::Left) => Command::Step(Dir::Left),
        (_, Key::Up) => Command::Step(Dir::Up),
        (_, Key::Down) => Command::Step(Dir::Down),
        (Modifiers::Control, Key::Char('n')) => Command::NewBlock,
        (Modifiers::Control, Key::Char('q')) => Command::Quit,
        (Modifiers::Control, Key::Char('p')) => Command::Panic,
        (Modifiers::Control, Key::Char('h')) => Command::DeleteWord,
        (_, Key::Char(c)) => Command::Insert(c),
        (_, Key::Enter) => Command::NewLine,
        (_, Key::Backspace) => Command::DeleteChar,
        _ => Command::Nothing,
    }
}


/// What the front end does after a key press.
#[derive(Clone, Copy, Debug, PartialEq, Eq, Structural)]
pub enum Action {
    /// Draw the screen again and wait for the next key.
    Continue,
    /// Leave the editor.
    Quit,
    /// Stop with a panic.
    Panic,
}

/// The action a command leads to.
pub open spec fn action_of(c: Command) -> Action {
    match c {
        Command::Quit => Action::Quit,
        Command::Panic => Action::Panic,
        _ => Action::Continue,
    }
}

/// The smaller of two numbers.
pub open spec fn min_of(a: int, b: int) -> int {
    if a <= b {
        a
    } else {
        b
    }
}

/// Whether a command on a block at `pos` stays within `usize` arithmetic on
/// a screen of `w` by `h` cells with blocks of `bw` by `bh` cells.
pub open spec fn command_ok(pos: Point, c: Command, w: usize, h: usize, bw: usize, bh: usize) -> bool {
    match c {
        Command::Jump(Dir::Right) => pos.0 + 5 <= usize::MAX && w >= bw + 3,
        Command::Jump(Dir::Down) => pos.1 + 5 <= usize::MAX && h >= bh + 3,
        Command::Step(Dir::Right) => pos.0 + 1 <= usize::MAX && w >= bw + 2,
        Command::Step(Dir::Down) => pos.1 + 1 <= usize::MAX && h >= bh + 2,
        _ => true,
    }
}

/// Where a command moves a block at `pos`: jumps go five cells and stop at
/// the screen's edge (three cells in from the right and the bottom) or at
/// zero; steps go one cell when the block stays on screen (two cells in from
/// the right and the bottom, above zero).
pub open spec fn moved(pos: Point, c: Command, w: usize, h: usize, bw: usize, bh: usize) -> Point {
    match c {
        Command::Jump(Dir::Right) => (min_of(pos.0 + 5, w - bw - 3) as usize, pos.1),
        Command::Jump(Dir::Left) => (sat_sub(pos.0 as int, 5) as usize, pos.1),
        Command::Jump(Dir::Up) => (pos.0, sat_sub(pos.1 as int, 5) as usize),
        Command::Jump(Dir::Down) => (pos.0, min_of(pos.1 + 5, h - bh - 3) as usize),
        Command::Step(Dir::Right) => if pos.0 + 1 < w - bw - 2 {
            ((pos.0 + 1) as usize, pos.1)
        } else {
            pos
        },
        Command::Step(Dir::Left) => if pos.0 > 0 {
            ((pos.0 - 1) as usize, pos.1)
        } else {
            pos
        },
        Command::Step(Dir::Up) => if pos.1 > 0 {
            (pos.0, (pos.1 - 1) as usize)
        } else {
            pos
        },
        Command::Step(Dir::Down) => if pos.1 + 1 < h - bh - 2 {
            (pos.0, (pos.1 + 1) as usize)
        } else {
            pos
        },
        _ => pos,
    }
}

/// A block's text after a command.
pub open spec fn edited(text: Seq<char>, c: Command) -> Seq<char> {
    match c {
        Command::DeleteWord => backspace_word(text),
        Command::Insert(ch) => text.push(ch),
        Command::NewLine => text.push('\n').push(' '),
        Command::DeleteChar => if text.len() > 0 {
            text.drop_last()
        } else {
            text
        },
        _ => text,
    }
}

/// The blocks after a command on the selected block `sel`: a new block
/// whitens the selected one and adds an `X` block at the origin; other
/// commands edit or move the selected block.
pub open spec fn applied_blocks(
    bs: Seq<(Seq<char>, Point, ColorCode, Seq<char>)>,
    sel: int,
    c: Command,
    w: usize,
    h: usize,
    bw: usize,
    bh: usize,
) -> Seq<(Seq<char>, Point, ColorCode, Seq<char>)> {
    let b = bs[sel];
    match c {
        Command::NewBlock => bs.update(sel, (b.0, b.1, 'w', b.3)).push(
            (seq!['X'], (0usize, 0usize), 'w', Seq::empty()),
        ),
        _ => bs.update(sel, (edited(b.0, c), moved(b.1, c, w, h, bw, bh), b.2, b.3)),
    }
}

/// The selection after a command, with `len` blocks before it.
pub open spec fn applied_selection(len: int, sel: int, c: Command) -> int {
    match c {
        Command::SelectNext => wrap_forward(sel, len),
        Command::SelectPrev => wrap_back(sel, len),
        Command::NewBlock => len,
        _ => sel,
    }
}

/// Typing a character and then deleting one gives back the text.
pub proof fn lemma_type_then_delete(text: Seq<char>, c: char)
    ensures
        edited(edited(text, Command::Insert(c)), Command::DeleteChar) == text,
{
    assert(text.push(c).drop_last() =~= text);
}

/// Selecting the next block and then the previous one, or the other way
/// round, comes back to the block one started from and changes no block.
pub proof fn lemma_select_round_trip(
    bs: Seq<(Seq<char>, Point, ColorCode, Seq<char>)>,
    sel: int,
    w: usize,
    h: usize,
    bw: usize,
    bh: usize,
)
    requires
        0 <= sel < bs.len(),
    ensures
        applied_selection(bs.len() as int, applied_selection(bs.len() as int, sel, Command::SelectNext), Command::SelectPrev) == sel,
        applied_selection(bs.len() as int, applied_selection(bs.len() as int, sel, Command::SelectPrev), Command::SelectNext) == sel,
        applied_blocks(bs, sel, Command::SelectNext, w, h, bw, bh) == bs,
        applied_blocks(bs, sel, Command::SelectPrev, w, h, bw, bh) == bs,
{
    crate::lemma_ring_steps_undo(sel, bs.len() as int);
    assert(bs.update(sel, bs[sel]) =~= bs);
}

/// An arrow key pressed without Shift, Control or Alt moves the selected
/// block one cell its way — down adds one to the row, up takes one from it,
/// right adds one to the column, left takes one from it — when the block
/// then stays on screen: its row stays below the screen's height less the
/// block's height less two, its column below the screen's width less the
/// block's width less two, and neither goes below zero.  Otherwise the block
/// stays where it is.  The block's text, colour and title and every other
/// block are kept.
pub proof fn lemma_arrow_steps_one_cell(
    bs: Seq<(Seq<char>, Point, ColorCode, Seq<char>)>,
    sel: int,
    m: Modifiers,
    k: Key,
    w: usize,
    h: usize,
    bw: usize,
    bh: usize,
)
    requires
        0 <= sel < bs.len(),
        m == Modifiers::Plain || m == Modifiers::Other,
        k == Key::Down || k == Key::Up || k == Key::Right || k == Key::Left,
    ensures
        ({
            let r = applied_blocks(bs, sel, command_of(m, k), w, h, bw, bh);
            let p = bs[sel].1;
            let q = r[sel].1;
            &&& r.len() == bs.len()
            &&& forall|j: int| 0 <= j < bs.len() && j != sel ==> #[trigger] r[j] == bs[j]
            &&& r[sel].0 == bs[sel].0 && r[sel].2 == bs[sel].2 && r[sel].3 == bs[sel].3
            &&& k == Key::Down ==> q.0 == p.0 && q.1 == (if p.1 + 1 < h - bh - 2 {
                p.1 + 1
            } else {
                p.1 as int
            })
            &&& k == Key::Up ==> q.0 == p.0 && q.1 == (if p.1 >= 1 {
                p.1 - 1
            } else {
                p.1 as int
            })
            &&& k == Key::Right ==> q.1 == p.1 && q.0 == (if p.0 + 1 < w - bw - 2 {
                p.0 + 1
            } else {
                p.0 as int
            })
            &&& k == Key::Left ==> q.1 == p.1 && q.0 == (if p.0 >= 1 {
                p.0 - 1
            } else {
                p.0 as int
            })
        }),
{
}

/// A step down that moved the block and a step up after it leave the blocks
/// as they were; so do a step right that moved it and a step left after it,
/// and, from inside the screen, a step up or left that moved the block and
/// the step back.
pub proof fn lemma_step_and_back(
    bs: Seq<(Seq<char>, Point, ColorCode, Seq<char>)>,
    sel: int,
    w: usize,
    h: usize,
    bw: usize,
    bh: usize,
)
    requires
        0 <= sel < bs.len(),
    ensures
        ({
            let p = bs[sel].1;
            let step = |bs1: Seq<(Seq<char>, Point, ColorCode, Seq<char>)>, d: Dir|
                applied_blocks(bs1, sel, Command::Step(d), w, h, bw, bh);
            &&& p.1 + 1 < h - bh - 2 ==> step(step(bs, Dir::Down), Dir::Up) == bs
            &&& p.0 + 1 < w - bw - 2 ==> step(step(bs, Dir::Right), Dir::Left) == bs
            &&& 1 <= p.1 < h - bh - 2 ==> step(step(bs, Dir::Up), Dir::Down) == bs
            &&& 1 <= p.0 < w - bw - 2 ==> step(step(bs, Dir::Left), Dir::Right) == bs
        }),
{
    let b = bs[sel];
    assert(bs.update(sel, b) =~= bs);
    let p = b.1;
    if p.1 + 1 < h - bh - 2 {
        let once = applied_blocks(bs, sel, Command::Step(Dir::Down), w, h, bw, bh);
        assert(once.update(sel, b) =~= bs);
    }
    if p.0 + 1 < w - bw - 2 {
        let once = applied_blocks(bs, sel, Command::Step(Dir::Right), w, h, bw, bh);
        assert(once.update(sel, b) =~= bs);
    }
    if 1 <= p.1 < h - bh - 2 {
        let once = applied_blocks(bs, sel, Command::Step(Dir::Up), w, h, bw, bh);
        assert(once.update(sel, b) =~= bs);
    }
    if 1 <= p.0 < w - bw - 2 {
        let once = applied_blocks(bs, sel, Command::Step(Dir::Left), w, h, bw, bh);
        assert(once.update(sel, b) =~= bs);
    }
}

/// An arrow key with Control moves the selected block five cells its way,
/// stopping at zero on the left and at the top, and at the screen's width
/// (height) less the block's width (height) less three on the right (at the
/// bottom); the block keeps its other coordinate.
pub proof fn lemma_control_arrow_jumps(
    bs: Seq<(Seq<char>, Point, ColorCode, Seq<char>)>,
    sel: int,
    k: Key,
    w: usize,
    h: usize,
    bw: usize,
    bh: usize,
)
    requires
        0 <= sel < bs.len(),
        k == Key::Down || k == Key::Up || k == Key::Right || k == Key::Left,
        k == Key::Right ==> w >= bw + 3,
        k == Key::Down ==> h >= bh + 3,
    ensures
        ({
            let r = applied_blocks(bs, sel, command_of(Modifiers::Control, k), w, h, bw, bh);
            let p = bs[sel].1;
            let q = r[sel].1;
            &&& r.len() == bs.len()
            &&& forall|j: int| 0 <= j < bs.len() && j != sel ==> #[trigger] r[j] == bs[j]
            &&& r[sel].0 == bs[sel].0 && r[sel].2 == bs[sel].2 && r[sel].3 == bs[sel].3
            &&& k == Key::Down ==> q.0 == p.0 && q.1 <= p.1 + 5 && q.1 <= h - bh - 3 && (q.1
                == p.1 + 5 || q.1 == h - bh - 3)
            &&& k == Key::Right ==> q.1 == p.1 && q.0 <= p.0 + 5 && q.0 <= w - bw - 3 && (q.0
                == p.0 + 5 || q.0 == w - bw - 3)
            &&& k == Key::Up ==> q.0 == p.0 && q.1 == (if p.1 >= 5 {
                p.1 - 5
            } else {
                0
            })
            &&& k == Key::Left ==> q.1 == p.1 && q.0 == (if p.0 >= 5 {
                p.0 - 5
            } else {
                0
            })
        }),
{
}

/// What the other key presses do.  Alt with right or down selects the next
/// block and Alt with left or up the previous one, wrapping around; Shift
/// with an arrow does nothing.  Control-N whitens the selected block, adds a
/// block holding `X` at the origin and selects it; Control-Q quits and
/// Control-P panics, changing nothing; Control-H deletes the last word of the
/// selected block.  Any other character is typed at the end of the selected
/// block's text, Enter adds a line break and a space, Backspace removes the
/// last character if there is one, and other keys do nothing.  Only the
/// selected block changes, and only the new block is added.
pub proof fn lemma_key_effects(
    bs: Seq<(Seq<char>, Point, ColorCode, Seq<char>)>,
    sel: int,
    m: Modifiers,
    k: Key,
    w: usize,
    h: usize,
    bw: usize,
    bh: usize,
)
    requires
        0 <= sel < bs.len(),
    ensures
        ({
            let c = command_of(m, k);
            let r = applied_blocks(bs, sel, c, w, h, bw, bh);
            let s = applied_selection(bs.len() as int, sel, c);
            let a = action_of(c);
            let b = bs[sel];
            let arrow = k == Key::Down || k == Key::Up || k == Key::Right || k == Key::Left;
            let unchanged = r == bs && s == sel && a == Action::Continue;
            &&& m == Modifiers::Alt && (k == Key::Right || k == Key::Down) ==> r == bs && a
                == Action::Continue && s == (if sel + 1 < bs.len() {
                sel + 1
            } else {
                0
            })
            &&& m == Modifiers::Alt && (k == Key::Left || k == Key::Up) ==> r == bs && a
                == Action::Continue && s == (if sel > 0 {
                sel - 1
            } else {
                bs.len() - 1
            })
            &&& m == Modifiers::Shift && arrow ==> unchanged
            &&& m == Modifiers::Control && k == Key::Char('n') ==> a == Action::Continue && s
                == bs.len() && r == bs.update(sel, (b.0, b.1, 'w', b.3)).push(
                (seq!['X'], (0usize, 0usize), 'w', Seq::empty()),
            )
            &&& m == Modifiers::Control && k == Key::Char('q') ==> r == bs && s == sel && a
                == Action::Quit
            &&& m == Modifiers::Control && k == Key::Char('p') ==> r == bs && s == sel && a
                == Action::Panic
            &&& m == Modifiers::Control && k == Key::Char('h') ==> s == sel && a
                == Action::Continue && r == bs.update(sel, (backspace_word(b.0), b.1, b.2, b.3))
            &&& forall|ch: char|
                k == Key::Char(ch) && !(m == Modifiers::Control && (ch == 'n' || ch == 'q' || ch
                    == 'p' || ch == 'h')) ==> s == sel && a == Action::Continue && r == bs.update(
                    sel,
                    (b.0 + seq![ch], b.1, b.2, b.3),
                )
            &&& k == Key::Enter ==> s == sel && a == Action::Continue && r == bs.update(
                sel,
                (b.0 + seq!['\n', ' '], b.1, b.2, b.3),
            )
            &&& k == Key::Backspace ==> s == sel && a == Action::Continue && r == bs.update(
                sel,
                (b.0.take(if b.0.len() > 0 {
                    b.0.len() - 1
                } else {
                    0
                }), b.1, b.2, b.3),
            )
            &&& k == Key::Other ==> unchanged
        }),
{
    let b = bs[sel];
    let len = bs.len() as int;
    assert(bs.update(sel, b) =~= bs);
    crate::lemma_ring_steps_undo(sel, len);
    if sel + 1 >= len {
        vstd::arithmetic::div_mod::lemma_mod_self_0(len);
    } else {
        vstd::arithmetic::div_mod::lemma_small_mod((sel + 1) as nat, len as nat);
    }
    assert(b.0.push('\n').push(' ') =~= b.0 + seq!['\n', ' ']);
    assert forall|ch: char| #[trigger] b.0.push(ch) =~= b.0 + seq![ch] by {}
    if b.0.len() > 0 {
        assert(b.0.drop_last() =~= b.0.take(b.0.len() - 1));
    } else {
        assert(b.0 =~= b.0.take(0));
    }
}

impl State {
    /// Whether the key press can be handled within `usize` arithmetic.
    pub open spec fn key_ok(&self, m: Modifiers, k: Key, width: usize, height: usize) -> bool {
        command_ok(
            self.blocks@[self.current_selection as int].1,
            command_of(m, k),
            width,
            height,
            self.block_width,
            self.block_height,
        )
    }

    /// Whether `handle_key` can handle the key press within `usize` arithmetic.
    pub fn can_handle_key(&self, m: Modifiers, k: Key, width: usize, height: usize) -> (b: bool)
        requires
            self.wf(),
        ensures
            b == self.key_ok(m, k, width, height),
    {
        let (x, y) = self.blocks[self.current_selection].1;
        let bw = self.block_width;
        let bh = self.block_height;
        match command(m, k) {
            Command::Jump(Dir::Right) => x <= usize::MAX - 5 && bw <= usize::MAX - 3 && width
                >= bw + 3,
            Command::Jump(Dir::Down) => y <= usize::MAX - 5 && bh <= usize::MAX - 3 && height >= bh
                + 3,
            Command::Step(Dir::Right) => x <= usize::MAX - 1 && bw <= usize::MAX - 2 && width >= bw
                + 2,
            Command::Step(Dir::Down) => y <= usize::MAX - 1 && bh <= usize::MAX - 2 && height >= bh
                + 2,
            _ => true,
        }
    }

    /// Handles one key press on a screen of `width` by `height` cells, and
    /// says what the front end does next.
    pub fn handle_key(&mut self, m: Modifiers, k: Key, width: usize, height: usize) -> (a: Action)
        requires
            old(self).wf(),
            old(self).key_ok(m, k, width, height),
        ensures
            final(self).wf(),
            a == action_of(command_of(m, k)),
            blocks_view(final(self).blocks@) == applied_blocks(
                blocks_view(old(self).blocks@),
                old(self).current_selection as int,
                command_of(m, k),
                width,
                height,
                old(self).block_width,
                old(self).block_height,
            ),
            final(self).current_selection == applied_selection(
                old(self).blocks@.len() as int,
                old(self).current_selection as int,
                command_of(m, k),
            ),
            final(self).paths@ == old(self).paths@,
            final(self).block_width == old(self).block_width,
            final(self).block_height == old(self).block_height,
            final(self).grid_width == old(self).grid_width,
            final(self).grid_height == old(self).grid_height,
    {
        let cmd = command(m, k);
        let sel = self.current_selection;
        let len = self.blocks.len();
        let ghost bs = blocks_view(self.blocks@);
        let ghost b = bs[sel as int];
        let bw = self.block_width;
        let bh = self.block_height;
        match cmd {
            Command::SelectNext => {
                self.current_selection = (sel + 1) % len;
                assert(bs.update(sel as int, b) =~= bs);
            },
            Command::SelectPrev => {
                self.current_selection = subtract_wrap(sel, len);
                proof {
                    crate::lemma_ring_steps_undo(sel as int, len as int);
                }
                assert(bs.update(sel as int, b) =~= bs);
            },
            Command::Jump(d) => {
                let (x, y) = self.blocks[sel].1;
                let pos = match d {
                    Dir::Right => {
                        let limit = width - bw - 3;
                        let nx = x + 5;
                        (if nx <= limit { nx } else { limit }, y)
                    },
                    Dir::Left => (x.saturating_sub(5), y),
                    Dir::Up => (x, y.saturating_sub(5)),
                    Dir::Down => {
                        let limit = height - bh - 3;
                        let ny = y + 5;
                        (x, if ny <= limit { ny } else { limit })
                    },
                };
                self.blocks[sel].1 = pos;
                assert(blocks_view(self.blocks@) =~= bs.update(sel as int, (b.0, pos, b.2, b.3)));
            },
            Command::Step(d) => {
                let (x, y) = self.blocks[sel].1;
                let pos = match d {
                    Dir::Right => if x + 1 < width - bw - 2 {
                        (x + 1, y)
                    } else {
                        (x, y)
                    },
                    Dir::Left => if x > 0 {
                        (x - 1, y)
                    } else {
                        (x, y)
                    },
                    Dir::Up => if y > 0 {
                        (x, y - 1)
                    } else {
                        (x, y)
                    },
                    Dir::Down => if y + 1 < height - bh - 2 {
                        (x, y + 1)
                    } else {
                        (x, y)
                    },
                };
                self.blocks[sel].1 = pos;
                assert(blocks_view(self.blocks@) =~= bs.update(sel as int, (b.0, pos, b.2, b.3)));
            },
            Command::NewBlock => {
                self.blocks[sel].2 = 'w';
                let mut text: Vec<char> = Vec::new();
                text.push('X');
                self.blocks.push((text, (0, 0), 'w', String::new()));
                self.current_selection = self.blocks.len() - 1;
                assert(blocks_view(self.blocks@) =~= bs.update(sel as int, (b.0, b.1, 'w', b.3)).push(
                    (seq!['X'], (0usize, 0usize), 'w', Seq::empty()),
                ));
            },
            Command::Quit => {
                assert(bs.update(sel as int, b) =~= bs);
                return Action::Quit;
            },
            Command::Panic => {
                assert(bs.update(sel as int, b) =~= bs);
                return Action::Panic;
            },
            Command::DeleteWord => {
                control_backspace(&mut self.blocks[sel].0);
                assert(blocks_view(self.blocks@) =~= bs.update(
                    sel as int,
                    (backspace_word(b.0), b.1, b.2, b.3),
                ));
            },
            Command::Insert(c) => {
                self.blocks[sel].0.push(c);
                assert(blocks_view(self.blocks@) =~= bs.update(sel as int, (b.0.push(c), b.1, b.2, b.3)));
            },
            Command::NewLine => {
                self.blocks[sel].0.push('\n');
                self.blocks[sel].0.push(' ');
                assert(blocks_view(self.blocks@) =~= bs.update(
                    sel as int,
                    (b.0.push('\n').push(' '), b.1, b.2, b.3),
                ));
            },
            Command::DeleteChar => {
                self.blocks[sel].0.pop();
                assert(blocks_view(self.blocks@) =~= bs.update(
                    sel as int,
                    (edited(b.0, Command::DeleteChar), b.1, b.2, b.3),
                ));
            },
            Command::Nothing => {
                assert(bs.update(sel as int, b) =~= bs);
            },
        }
        Action::Continue
    }
}

} // verus!
