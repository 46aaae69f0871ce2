//! Random integers: from a range, several different ones from a range, and
//! weighted choices.
//!
//! What is drawn is up to the generator; what becomes of the draws is fixed.
use vstd::prelude::*;
use vstd::string::*;

use rand::RngExt;
use std::collections::HashSet;

use crate::laux::{slot_integer, slot_kind, type_error_text, LuaStack};
use crate::text::{decimal, push_i64, push_u64};
use crate::value::{lemma_list_push, view_list, LuaValue, Tab, TableValue, Val};

verus! {

/// An integer from `min` to `max`, from `rand`'s generator: any of them.
#[verifier::external_body]
pub(crate) fn random_between(min: i64, max: i64) -> (r: i64)
    requires
        min <= max,
    ensures
        min <= r <= max,
{
    rand::rng().random_range(min..=max)
}

/// The integers of a table's elements from a place on, after those in `done`.
pub open spec fn integers_of(items: Seq<Val>, i: nat, done: Seq<i64>) -> Result<Seq<i64>, Seq<char>>
    decreases items.len() - i,
{
    if i >= items.len() {
        Ok(done)
    } else {
        match slot_integer(Some(items[i as int])) {
            Some(n) => integers_of(items, i + 1, done.push(n)),
            None => Err(
                "table element #"@ + decimal(i as int + 1) + " must be an integer"@,
            ),
        }
    }
}

/// The integers in the table that an argument must be.
pub open spec fn integers_arg(v: Option<Val>, index: int) -> Result<Seq<i64>, Seq<char>> {
    match v {
        Some(Val::Table(t)) => integers_of(t.array, 0, Seq::empty()),
        _ => Err("argument #"@ + decimal(index) + " must be a table"@),
    }
}

/// Reads the integers in the table at an index.
pub fn table_to_i64_vec(lua: &LuaStack, index: i32) -> (r: Result<Vec<i64>, String>)
    requires
        lua.wf(),
        lua.acceptable(index as int),
    ensures
        match integers_arg(lua.slot(index as int), index as int) {
            Ok(vs) => r matches Ok(got) && got@ == vs,
            Err(e) => r matches Err(m) && m@ == e,
        },
{
    let t = match lua.at(index) {
        Some(LuaValue::Table(t)) => t,
        _ => {
            let mut m = "argument #".to_owned();
            push_i64(&mut m, index as i64);
            m.append(" must be a table");
            return Err(m);
        },
    };
    let ghost items = t@.array;
    let ghost want = integers_of(items, 0, Seq::empty());
    let mut values: Vec<i64> = Vec::new();
    let mut i: usize = 0;
    while i < t.array.len()
        invariant
            items == t@.array,
            i <= items.len(),
            want == integers_arg(lua.slot(index as int), index as int),
            want == integers_of(items, i as nat, values@),
        decreases items.len() - i,
    {
        assert(items[i as int] == t.array@[i as int]@);
        let n: Option<i64> = match &t.array[i] {
            LuaValue::Integer(n) => Some(*n),
            LuaValue::Number(x) => crate::number::number_to_integer(x.bits),
            LuaValue::String(s) => s.integer,
            _ => None,
        };
        match n {
            Some(n) => {
                values.push(n);
            },
            None => {
                let mut m = "table element #".to_owned();
                push_u64(&mut m, i as u64 + 1);
                m.append(" must be an integer");
                return Err(m);
            },
        }
        i = i + 1;
    }
    Ok(values)
}

/// The number of integers from `min` to `max`, if it can be said.
pub fn checked_range_len(min: i64, max: i64) -> (r: Option<i64>)
    ensures
        match r {
            Some(n) => n == max - min + 1 && max - min >= i64::MIN,
            None => max - min < i64::MIN || max - min + 1 > i64::MAX,
        },
{
    max.checked_sub(min)?.checked_add(1)
}

/// An integer argument, or the report that it is none.
pub open spec fn integer_arg(prefix: Seq<char>, v: Option<Val>) -> Result<i64, Seq<char>> {
    match slot_integer(v) {
        Some(n) => Ok(n),
        None => Err(prefix + type_error_text("integer"@, slot_kind(v))),
    }
}

/// Reads an integer argument.
pub fn read_integer(lua: &LuaStack, index: i32, prefix: &str) -> (r: Result<i64, String>)
    requires
        lua.wf(),
        index > 0,
    ensures
        match integer_arg(prefix@, lua.slot(index as int)) {
            Ok(n) => r matches Ok(got) && got == n,
            Err(e) => r matches Err(m) && m@ == e,
        },
{
    match lua.get::<i64>(index) {
        Ok(n) => Ok(n),
        Err(e) => {
            let mut m = prefix.to_owned();
            m.append(e.to_string().as_str());
            Err(m)
        },
    }
}

/// The report of bounds in the wrong order.
pub open spec fn bounds_text(prefix: Seq<char>, min: int, max: int) -> Seq<char> {
    prefix + "min value must be less than or equal to max value, got min="@ + decimal(min)
        + " and max="@ + decimal(max)
}

fn bounds_error(prefix: &str, min: i64, max: i64) -> (r: String)
    ensures
        r@ == bounds_text(prefix@, min as int, max as int),
{
    let mut m = prefix.to_owned();
    m.append("min value must be less than or equal to max value, got min=");
    push_i64(&mut m, min);
    m.append(" and max=");
    push_i64(&mut m, max);
    m
}

/// The bounds of a random integer.
pub open spec fn range_args(a: Option<Val>, b: Option<Val>) -> Result<(i64, i64), Seq<char>> {
    let prefix = "random.rand_range: "@;
    match integer_arg(prefix, a) {
        Err(e) => Err(e),
        Ok(min) => match integer_arg(prefix, b) {
            Err(e) => Err(e),
            Ok(max) => if min > max {
                Err(bounds_text(prefix, min as int, max as int))
            } else {
                Ok((min, max))
            },
        },
    }
}

/// Puts a random integer between two bounds on top.
pub fn rand_range(lua: &mut LuaStack) -> (r: Result<i32, String>)
    requires
        old(lua).wf(),
        old(lua).room() >= 1,
    ensures
        final(lua).wf(),
        final(lua).same_machine(*old(lua)),
        match range_args(old(lua).slot(1), old(lua).slot(2)) {
            Err(e) => r matches Err(m) && m@ == e && final(lua)@ == old(lua)@,
            Ok((min, max)) => r == Ok::<i32, String>(1) && exists|n: i64|
                min <= n <= max && final(lua)@ == #[trigger] old(lua)@.push(Val::Int(n)),
        },
{
    let min = read_integer(lua, 1, "random.rand_range: ")?;
    let max = read_integer(lua, 2, "random.rand_range: ")?;
    if min > max {
        return Err(bounds_error("random.rand_range: ", min, max));
    }
    let value = random_between(min, max);
    lua.push_value(LuaValue::Integer(value));
    Ok(1)
}

/// Different integers from `min` on, chosen by draws. The draw at place `i` is at
/// most `first + i`; a number that was drawn before gives way to the largest one
/// that this draw allows.
pub open spec fn chosen(min: int, first: int, draws: Seq<int>) -> Seq<int>
    decreases draws.len(),
{
    if draws.len() == 0 {
        Seq::empty()
    } else {
        let before = chosen(min, first, draws.drop_last());
        let largest = first + draws.len() - 1;
        before.push(
            if before.contains(min + draws.last()) {
                min + largest
            } else {
                min + draws.last()
            },
        )
    }
}

/// Draws that each lie in their range.
pub open spec fn fair(first: int, draws: Seq<int>) -> bool {
    forall|i: int| 0 <= i < draws.len() ==> 0 <= #[trigger] draws[i] <= first + i
}

/// What fair draws choose are as many different numbers in the range.
pub proof fn law_chosen_are_distinct(min: int, first: int, draws: Seq<int>)
    requires
        0 <= first,
        fair(first, draws),
    ensures
        chosen(min, first, draws).len() == draws.len(),
        chosen(min, first, draws).no_duplicates(),
        forall|i: int|
            0 <= i < draws.len() ==> min <= #[trigger] chosen(min, first, draws)[i] <= min + first
                + draws.len() - 1,
    decreases draws.len(),
{
    if draws.len() > 0 {
        let front = draws.drop_last();
        assert(fair(first, front)) by {
            assert forall|i: int| 0 <= i < front.len() implies 0 <= #[trigger] front[i] <= first
                + i by {
                assert(front[i] == draws[i]);
            }
        }
        law_chosen_are_distinct(min, first, front);
        let before = chosen(min, first, front);
        let all = chosen(min, first, draws);
        let largest = first + draws.len() - 1;
        assert(0 <= draws[draws.len() - 1] <= largest);
        assert(!before.contains(all.last())) by {
            if before.contains(min + draws.last()) && before.contains(min + largest) {
                let k = choose|k: int| 0 <= k < before.len() && before[k] == min + largest;
                assert(before[k] <= min + first + front.len() - 1);
            }
        }
        assert forall|i: int, j: int| 0 <= i < all.len() && 0 <= j < all.len() && i != j implies
            all[i] != all[j] by {
            if i < before.len() && j < before.len() {
                assert(before[i] != before[j]);
            } else if i < before.len() {
                assert(before.contains(before[i]));
            } else {
                assert(before.contains(before[j]));
            }
        }
        assert forall|i: int| 0 <= i < draws.len() implies min <= #[trigger] all[i] <= min + first
            + draws.len() - 1 by {
            if i < before.len() {
                assert(all[i] == before[i]);
            }
        }
    }
}

/// Whether fair draws choose the numbers of a set and no others.
pub open spec fn draws_choose(min: int, first: int, draws: Seq<int>, s: Set<int>) -> bool {
    &&& draws.len() == s.len()
    &&& fair(first, draws)
    &&& forall|n: int| #[trigger] chosen(min, first, draws).contains(n) <==> s.contains(n)
}

proof fn lemma_draws_go_on(min: int, first: int, draws: Seq<int>, s: Set<int>, n: int)
    requires
        0 <= first,
        s.finite(),
        s.contains(n),
        draws_choose(min, first, draws, s.remove(n)),
        min <= n <= min + first + s.len() - 1,
    ensures
        draws_choose(min, first, draws.push(n - min), s),
{
    let more = draws.push(n - min);
    assert(more.drop_last() =~= draws);
    assert(more.last() == n - min);
    let before = chosen(min, first, draws);
    assert(!before.contains(n));
    let all = chosen(min, first, more);
    assert(all == before.push(n));
    assert forall|x: int| #[trigger] all.contains(x) <==> s.contains(x) by {
        if s.contains(x) && x != n {
            assert(before.contains(x));
            let k = choose|k: int| 0 <= k < before.len() && before[k] == x;
            assert(all[k] == x);
        }
        if x == n {
            assert(all[before.len() as int] == n);
        }
        if all.contains(x) && x != n {
            let k = choose|k: int| 0 <= k < all.len() && all[k] == x;
            assert(before[k] == x);
            assert(before.contains(x));
        }
    }
    assert forall|i: int| 0 <= i < more.len() implies 0 <= #[trigger] more[i] <= first + i by {
        if i < draws.len() {
            assert(more[i] == draws[i]);
        }
    }
}

/// Every selection from the range can come up: whatever different numbers are asked
/// for, some fair draws choose just these.
pub proof fn law_every_selection_can_be_chosen(min: int, first: int, s: Set<int>)
    requires
        0 <= first,
        s.finite(),
        forall|n: int| #[trigger] s.contains(n) ==> min <= n <= min + first + s.len() - 1,
    ensures
        exists|draws: Seq<int>| draws_choose(min, first, draws, s),
    decreases s.len(),
{
    if s.len() == 0 {
        assert(s =~= Set::empty());
        assert(draws_choose(min, first, Seq::empty(), s));
    } else {
        let largest = min + first + s.len() - 1;
        let n = if s.contains(largest) {
            largest
        } else {
            s.choose()
        };
        assert(s.contains(n));
        let rest = s.remove(n);
        assert forall|x: int| #[trigger] rest.contains(x) implies min <= x <= min + first
            + rest.len() - 1 by {
            assert(s.contains(x));
        }
        law_every_selection_can_be_chosen(min, first, rest);
        let draws = choose|draws: Seq<int>| draws_choose(min, first, draws, rest);
        lemma_draws_go_on(min, first, draws, s, n);
    }
}

/// Integers of the machine as integers.
pub open spec fn as_ints(vs: Seq<i64>) -> Seq<int> {
    vs.map_values(|n: i64| n as int)
}

/// What a draw adds to the integers chosen so far: the one that it points to, or
/// the largest one that it could have, if that one was chosen before.
pub fn admitted(members: &HashSet<i64>, min: i64, largest: i64, draw: i64) -> (r: i64)
    requires
        0 <= draw <= largest,
        min + largest <= i64::MAX,
    ensures
        r == if members@.contains((min + draw) as i64) {
            min + largest
        } else {
            min + draw
        },
{
    broadcast use vstd::std_specs::hash::group_hash_axioms;

    let drawn: i64 = min + draw;
    if members.contains(&drawn) {
        min + largest
    } else {
        drawn
    }
}

/// Chooses `count` different integers between two bounds.
pub fn choose_some(min: i64, max: i64, count: i64) -> (r: Vec<i64>)
    requires
        min <= max,
        max - min + 1 <= i64::MAX,
        0 < count <= max - min + 1,
    ensures
        r@.len() == count,
        as_ints(r@).no_duplicates(),
        forall|i: int| 0 <= i < count ==> min <= #[trigger] r@[i] <= max,
        exists|draws: Seq<int>|
            draws.len() == count && fair(max - min + 1 - count, draws) && as_ints(r@)
                == #[trigger] chosen(min as int, max - min + 1 - count, draws),
{
    broadcast use vstd::std_specs::hash::group_hash_axioms;

    let range_len: i64 = max - min + 1;
    let first: i64 = range_len - count;
    let mut members: HashSet<i64> = HashSet::new();
    let mut values: Vec<i64> = Vec::new();
    let ghost mut draws: Seq<int> = Seq::empty();
    let mut j: i64 = first;
    assert(as_ints(values@) =~= Seq::empty());
    while j < range_len
        invariant
            first <= j <= range_len,
            range_len == max - min + 1,
            first == range_len - count,
            0 <= first,
            min <= max,
            draws.len() == j - first,
            fair(first as int, draws),
            as_ints(values@) == chosen(min as int, first as int, draws),
            forall|n: i64| members@.contains(n) <==> #[trigger] values@.contains(n),
        decreases range_len - j,
    {
        let t = random_between(0, j);
        let value = admitted(&members, min, j, t);
        let ghost before = values@;
        proof {
            let drawn = (min + t) as i64;
            let next = draws.push(t as int);
            assert(next.drop_last() =~= draws);
            assert(as_ints(before).contains(drawn as int) == before.contains(drawn)) by {
                if before.contains(drawn) {
                    let k = choose|k: int| 0 <= k < before.len() && before[k] == drawn;
                    assert(as_ints(before)[k] == drawn as int);
                }
                if as_ints(before).contains(drawn as int) {
                    let k = choose|k: int|
                        0 <= k < before.len() && as_ints(before)[k] == drawn as int;
                    assert(before[k] == drawn);
                }
            }
            assert(fair(first as int, next)) by {
                assert forall|i: int| 0 <= i < next.len() implies 0 <= #[trigger] next[i] <= first
                    + i by {
                    if i < draws.len() {
                        assert(next[i] == draws[i]);
                    }
                }
            }
            draws = next;
        }
        let _new = members.insert(value);
        values.push(value);
        proof {
            assert(as_ints(values@) =~= as_ints(before).push(value as int));
            assert forall|n: i64| members@.contains(n) <==> #[trigger] values@.contains(n) by {
                if before.contains(n) {
                    let k = choose|k: int| 0 <= k < before.len() && before[k] == n;
                    assert(values@[k] == n);
                }
                if n == value {
                    assert(values@[before.len() as int] == n);
                }
            }
        }
        j = j + 1;
    }
    proof {
        law_chosen_are_distinct(min as int, first as int, draws);
        assert forall|i: int| 0 <= i < count implies min <= #[trigger] values@[i] <= max by {
            assert(as_ints(values@)[i] == values@[i] as int);
            assert(chosen(min as int, first as int, draws)[i] <= min + first + draws.len() - 1);
        }
    }
    values
}

/// The bounds and the count of different random integers.
pub open spec fn some_args(a: Option<Val>, b: Option<Val>, c: Option<Val>) -> Result<
    (i64, i64, i64),
    Seq<char>,
> {
    let prefix = "random.rand_range_some: "@;
    match (integer_arg(prefix, a), integer_arg(prefix, b), integer_arg(prefix, c)) {
        (Err(e), _, _) => Err(e),
        (_, Err(e), _) => Err(e),
        (_, _, Err(e)) => Err(e),
        (Ok(min), Ok(max), Ok(count)) => if min > max {
            Err(bounds_text(prefix, min as int, max as int))
        } else if max - min + 1 > i64::MAX {
            Err("random.rand_range_some: range size overflow"@)
        } else if count <= 0 || max - min + 1 < count {
            Err(
                "random.rand_range_some: count must be in range [1, "@ + decimal(max - min + 1)
                    + "], got "@ + decimal(count as int),
            )
        } else if count > usize::MAX {
            Err("random.rand_range_some: count is too large"@)
        } else {
            Ok((min, max, count))
        },
    }
}

/// A sequence of integers as a table.
pub open spec fn integers_table(vs: Seq<i64>) -> Val {
    Val::Table(Tab { array: vs.map_values(|n: i64| Val::Int(n)), ..Tab::empty() })
}

/// Makes a table of a sequence of integers.
pub fn integers_value(values: &Vec<i64>) -> (r: LuaValue)
    ensures
        r@ == integers_table(values@),
{
    let mut array: Vec<LuaValue> = Vec::new();
    let mut i: usize = 0;
    assert(view_list(array) =~= values@.take(0).map_values(|n: i64| Val::Int(n)));
    while i < values.len()
        invariant
            i <= values@.len(),
            view_list(array) == values@.take(i as int).map_values(|n: i64| Val::Int(n)),
        decreases values@.len() - i,
    {
        let ghost before = array;
        let v = LuaValue::Integer(values[i]);
        array.push(v);
        proof {
            lemma_list_push(before, array, v);
            assert(view_list(array) =~= values@.take(i + 1).map_values(|n: i64| Val::Int(n)));
        }
        i = i + 1;
    }
    assert(values@.take(i as int) =~= values@);
    let t = TableValue { array, hash: Vec::new(), pairs: None, object: false, address: 0 };
    assert(t@.hash =~= Seq::empty());
    LuaValue::Table(t)
}

/// Puts a table of different random integers between two bounds on top, in no
/// particular order.
pub fn rand_range_some(lua: &mut LuaStack) -> (r: Result<i32, String>)
    requires
        old(lua).wf(),
        old(lua).room() >= 1,
    ensures
        final(lua).wf(),
        final(lua).same_machine(*old(lua)),
        match some_args(old(lua).slot(1), old(lua).slot(2), old(lua).slot(3)) {
            Err(e) => r matches Err(m) && m@ == e && final(lua)@ == old(lua)@,
            Ok((min, max, count)) => r == Ok::<i32, String>(1) && exists|vs: Seq<i64>|
                {
                    &&& vs.len() == count
                    &&& as_ints(vs).no_duplicates()
                    &&& forall|i: int| 0 <= i < count ==> min <= #[trigger] vs[i] <= max
                    &&& final(lua)@ == old(lua)@.push(#[trigger] integers_table(vs))
                },
        },
{
    let min = read_integer(lua, 1, "random.rand_range_some: ")?;
    let max = read_integer(lua, 2, "random.rand_range_some: ")?;
    let count = read_integer(lua, 3, "random.rand_range_some: ")?;
    if min > max {
        return Err(bounds_error("random.rand_range_some: ", min, max));
    }
    let range_len = match checked_range_len(min, max) {
        Some(n) => n,
        None => {
            return Err("random.rand_range_some: range size overflow".to_owned());
        },
    };
    if count <= 0 || range_len < count {
        let mut m = "random.rand_range_some: count must be in range [1, ".to_owned();
        push_i64(&mut m, range_len);
        m.append("], got ");
        push_i64(&mut m, count);
        return Err(m);
    }
    if count as u64 > usize::MAX as u64 {
        return Err("random.rand_range_some: count is too large".to_owned());
    }
    let values = choose_some(min, max, count);
    lua.push_value(integers_value(&values));
    Ok(1)
}

} // verus!
