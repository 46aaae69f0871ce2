//! Machine words from the stack.
use vstd::prelude::*;

use crate::laux::{slot_integer, wraps_to, LuaStack};
use crate::value::Val;

verus! {

/// The unsigned word of the machine that a slot holds, brought into range by
/// whole turns; the default where there is no integer.
pub open spec fn slot_usize(v: Option<Val>, default: int) -> int {
    match slot_integer(v) {
        Some(i) => i as int % (usize::MAX + 1),
        None => default,
    }
}

/// The signed word of the machine that a slot holds.
pub open spec fn slot_isize(v: Option<Val>, default: int) -> int {
    match slot_integer(v) {
        Some(i) => (i - isize::MIN) % (usize::MAX + 1) + isize::MIN,
        None => default,
    }
}

/// What is brought into a range by whole turns is the remainder.
pub proof fn lemma_wraps(i: int, r: int, min: int, max: int)
    requires
        wraps_to(i, r, min, max),
    ensures
        r == (i - min) % (max - min + 1) + min,
{
    let m = max - min + 1;
    let q = (i - r) / m;
    assert(i - r == m * q) by (nonlinear_arith)
        requires
            m > 0,
            q == (i - r) / m,
            (i - r) % m == 0,
    ;
    assert(i - min == q * m + (r - min)) by (nonlinear_arith)
        requires
            i - r == m * q,
    ;
    vstd::arithmetic::div_mod::lemma_fundamental_div_mod_converse(i - min, m, q, r - min);
}

/// Reads an unsigned word, or the default.
pub fn read_usize(lua: &LuaStack, index: i32, default: usize) -> (r: usize)
    requires
        lua.wf(),
        index > 0,
    ensures
        r == slot_usize(lua.slot(index as int), default as int),
{
    match lua.opt::<usize>(index) {
        Some(n) => {
            proof {
                let i = slot_integer(lua.slot(index as int))->0;
                lemma_wraps(i as int, n as int, 0, usize::MAX as int);
            }
            n
        },
        None => default,
    }
}

/// Reads a signed word, or the default.
pub fn read_isize(lua: &LuaStack, index: i32, default: isize) -> (r: isize)
    requires
        lua.wf(),
        index > 0,
    ensures
        r == slot_isize(lua.slot(index as int), default as int),
{
    match lua.opt::<isize>(index) {
        Some(n) => {
            proof {
                let i = slot_integer(lua.slot(index as int))->0;
                lemma_wraps(i as int, n as int, isize::MIN as int, isize::MAX as int);
            }
            n
        },
        None => default,
    }
}

} // verus!
