//! Text boxes on a character canvas, the editing rules of the terminal
//! front end, and the ring arithmetic that moves the selection.
use vstd::prelude::*;

pub mod controls;
pub mod text;
pub mod xob;
pub mod route;
pub mod editor;
pub mod render;

pub use controls::control_backspace;

verus! {

/// The index before `index` in a ring of `len` slots: slot `0` wraps to the last slot.
pub open spec fn wrap_back(index: int, len: int) -> int {
    if index == 0 {
        len - 1
    } else {
        index - 1
    }
}

/// The index after `index` in a ring of `len` slots.
pub open spec fn wrap_forward(index: int, len: int) -> int {
    (index + 1) % len
}

/// Steps one slot back in a ring of `vec_len` slots (a ring has at least one slot).
pub fn subtract_wrap(index: usize, vec_len: usize) -> (r: usize)
    requires
        vec_len > 0,
    ensures
        r == wrap_back(index as int, vec_len as int),
{
    if index == 0 {
        vec_len - 1
    } else {
        index - 1
    }
}

/// Stepping forward and then back, or back and then forward, in a ring
/// returns to the slot one started from.
pub proof fn lemma_ring_steps_undo(index: int, len: int)
    requires
        0 <= index < len,
    ensures
        wrap_back(wrap_forward(index, len), len) == index,
        wrap_forward(wrap_back(index, len), len) == index,
        0 <= wrap_back(index, len) < len,
        0 <= wrap_forward(index, len) < len,
{
    if index + 1 < len {
        vstd::arithmetic::div_mod::lemma_small_mod((index + 1) as nat, len as nat);
    } else {
        vstd::arithmetic::div_mod::lemma_mod_self_0(len);
    }
    if index == 0 {
        vstd::arithmetic::div_mod::lemma_mod_self_0(len);
    } else {
        vstd::arithmetic::div_mod::lemma_small_mod(index as nat, len as nat);
    }
}

} // verus!
