//! Weighted choices.
use vstd::prelude::*;
use vstd::string::*;

use crate::laux::LuaStack;
use crate::random::{
    integer_arg, integers_arg, integers_table, integers_value, random_between, read_integer,
    table_to_i64_vec,
};
use crate::text::{decimal, push_i64, push_u64};
use crate::value::{LuaValue, Val};

verus! {

/// The sum of weights.
pub open spec fn total(ws: Seq<i64>) -> int
    decreases ws.len(),
{
    if ws.len() == 0 {
        0
    } else {
        ws[0] + total(ws.skip(1))
    }
}

/// Whether no weight is negative.
pub open spec fn weights_ok(ws: Seq<i64>) -> bool {
    forall|i: int| 0 <= i < ws.len() ==> 0 <= #[trigger] ws[i]
}

/// How many weights are positive.
pub open spec fn positives(ws: Seq<i64>) -> nat
    decreases ws.len(),
{
    if ws.len() == 0 {
        0
    } else {
        positives(ws.skip(1)) + if ws[0] > 0 {
            1nat
        } else {
            0
        }
    }
}

/// The place at which a draw lands when weights are laid end to end.
pub open spec fn landing(ws: Seq<i64>, draw: int) -> int
    decreases ws.len(),
{
    if ws.len() == 0 || draw < ws[0] {
        0
    } else {
        1 + landing(ws.skip(1), draw - ws[0])
    }
}

proof fn lemma_total(ws: Seq<i64>)
    requires
        weights_ok(ws),
    ensures
        0 <= total(ws),
        total(ws) == 0 <==> positives(ws) == 0,
        positives(ws) <= ws.len(),
    decreases ws.len(),
{
    if ws.len() > 0 {
        let rest = ws.skip(1);
        assert forall|i: int| 0 <= i < rest.len() implies 0 <= #[trigger] rest[i] by {
            assert(rest[i] == ws[i + 1]);
        }
        lemma_total(rest);
        assert(0 <= ws[0]);
    }
}

/// A draw below the sum lands on a weight, and on a positive one: where the
/// weights before it add up to no more than the draw and with it to more. So of
/// all draws as many choose a place as its weight says.
pub proof fn law_draws_land_by_weight(ws: Seq<i64>, draw: int)
    requires
        weights_ok(ws),
        0 <= draw < total(ws),
    ensures
        0 <= landing(ws, draw) < ws.len(),
        ws[landing(ws, draw)] > 0,
        total(ws.take(landing(ws, draw))) <= draw < total(ws.take(landing(ws, draw)))
            + ws[landing(ws, draw)],
    decreases ws.len(),
{
    let k = landing(ws, draw);
    if draw < ws[0] {
        assert(ws.take(0) =~= Seq::empty());
    } else {
        let rest = ws.skip(1);
        assert forall|i: int| 0 <= i < rest.len() implies 0 <= #[trigger] rest[i] by {
            assert(rest[i] == ws[i + 1]);
        }
        law_draws_land_by_weight(rest, draw - ws[0]);
        assert(rest[k - 1] == ws[k]);
        assert(ws.take(k).skip(1) =~= rest.take(k - 1));
        assert(ws.take(k)[0] == ws[0]);
    }
}

/// The sum of weights that fits an integer.
fn sum_of(ws: &Vec<i64>) -> (r: i64)
    requires
        weights_ok(ws@),
        total(ws@) <= i64::MAX,
    ensures
        r == total(ws@),
{
    let mut sum: i64 = 0;
    let mut i: usize = 0;
    assert(ws@.skip(0) =~= ws@);
    while i < ws.len()
        invariant
            i <= ws@.len(),
            weights_ok(ws@),
            total(ws@) <= i64::MAX,
            0 <= sum,
            sum + total(ws@.skip(i as int)) == total(ws@),
        decreases ws@.len() - i,
    {
        let ghost rest = ws@.skip(i as int);
        assert(rest[0] == ws@[i as int]);
        assert(rest.skip(1) =~= ws@.skip(i + 1));
        proof {
            assert forall|k: int| 0 <= k < ws@.skip(i + 1).len() implies 0
                <= #[trigger] ws@.skip(i + 1)[k] by {
                assert(ws@.skip(i + 1)[k] == ws@[i + 1 + k]);
            }
            lemma_total(ws@.skip(i + 1));
        }
        sum = sum + ws[i];
        i = i + 1;
    }
    assert(ws@.skip(i as int) =~= Seq::empty());
    sum
}

/// The place at which a draw lands.
pub fn land(ws: &Vec<i64>, draw: i64) -> (r: usize)
    requires
        weights_ok(ws@),
        0 <= draw < total(ws@),
    ensures
        r == landing(ws@, draw as int),
        r < ws@.len(),
        ws@[r as int] > 0,
{
    let mut cutoff = draw;
    let mut index: usize = 0;
    proof {
        law_draws_land_by_weight(ws@, draw as int);
    }
    assert(ws@.skip(0) =~= ws@);
    loop
        invariant
            weights_ok(ws@),
            index <= ws@.len(),
            0 <= cutoff,
            landing(ws@, draw as int) == index + landing(ws@.skip(index as int), cutoff as int),
            0 <= landing(ws@, draw as int) < ws@.len(),
            ws@[landing(ws@, draw as int)] > 0,
            cutoff < total(ws@.skip(index as int)),
        decreases ws@.len() - index,
    {
        let ghost rest = ws@.skip(index as int);
        if index == ws.len() {
            assert(rest =~= Seq::empty());
        }
        assert(rest[0] == ws@[index as int]);
        if cutoff < ws[index] {
            return index;
        }
        assert(rest.skip(1) =~= ws@.skip(index + 1));
        cutoff = cutoff - ws[index];
        index = index + 1;
    }
}

/// Whether some weight is negative.
fn any_negative(ws: &Vec<i64>) -> (r: bool)
    ensures
        r == !weights_ok(ws@),
{
    let mut i: usize = 0;
    while i < ws.len()
        invariant
            i <= ws@.len(),
            forall|k: int| 0 <= k < i ==> 0 <= #[trigger] ws@[k],
        decreases ws@.len() - i,
    {
        if ws[i] < 0 {
            return true;
        }
        i = i + 1;
    }
    false
}

/// The value at a place; the last one stands for all places behind it.
pub open spec fn value_for(values: Seq<i64>, place: int) -> i64 {
    if place < values.len() {
        values[place]
    } else {
        values.last()
    }
}

/// Chooses one of the values by weight. There is no choice where a weight is
/// negative, all are zero, or there is no value.
pub fn choose_weighted(values: &Vec<i64>, weights: &Vec<i64>) -> (r: Option<i64>)
    requires
        weights_ok(weights@) ==> total(weights@) <= i64::MAX,
    ensures
        match r {
            None => !weights_ok(weights@) || total(weights@) == 0 || values@.len() == 0,
            Some(v) => weights_ok(weights@) && values@.len() > 0 && exists|draw: int|
                0 <= draw < total(weights@) && v == value_for(
                    values@,
                    #[trigger] landing(weights@, draw),
                ),
        },
{
    if any_negative(weights) {
        return None;
    }
    proof {
        lemma_total(weights@);
    }
    let sum = sum_of(weights);
    if sum == 0 {
        return None;
    }
    let cutoff = random_between(0, sum - 1);
    let index = land(weights, cutoff);
    if index < values.len() {
        Some(values[index])
    } else if values.len() > 0 {
        Some(values[values.len() - 1])
    } else {
        None
    }
}

/// What is wrong with the tables of a weighted choice, or what is in them.
pub open spec fn weight_args(a: Option<Val>, b: Option<Val>) -> Result<
    (Seq<i64>, Seq<i64>),
    Seq<char>,
> {
    match (integers_arg(a, 1), integers_arg(b, 2)) {
        (Err(e), _) => Err(e),
        (_, Err(e)) => Err(e),
        (Ok(values), Ok(weights)) => if values.len() != weights.len() || values.len() == 0 {
            Err(
                "random.rand_weight: 'values' and 'weights' must be non-empty tables of equal length"@,
            )
        } else if !weights_ok(weights) {
            Err("random.rand_weight: weights must be non-negative"@)
        } else {
            Ok((values, weights))
        },
    }
}

/// Puts a value chosen by weight on top; nothing where all weights are zero. The
/// sum of the weights fits an integer.
pub fn rand_weight(lua: &mut LuaStack) -> (r: Result<i32, String>)
    requires
        old(lua).wf(),
        old(lua).room() >= 1,
        weight_args(old(lua).slot(1), old(lua).slot(2)) matches Ok((_, ws)) ==> total(ws)
            <= i64::MAX,
    ensures
        final(lua).wf(),
        final(lua).same_machine(*old(lua)),
        match weight_args(old(lua).slot(1), old(lua).slot(2)) {
            Err(e) => r matches Err(m) && m@ == e && final(lua)@ == old(lua)@,
            Ok((vs, ws)) => if total(ws) == 0 {
                r == Ok::<i32, String>(0) && final(lua)@ == old(lua)@
            } else {
                r == Ok::<i32, String>(1) && exists|draw: int|
                    0 <= draw < total(ws) && final(lua)@ == old(lua)@.push(
                        Val::Int(vs[#[trigger] landing(ws, draw)]),
                    )
            },
        },
{
    let values = table_to_i64_vec(lua, 1)?;
    let weights = table_to_i64_vec(lua, 2)?;
    if values.len() != weights.len() || values.len() == 0 {
        return Err(
            "random.rand_weight: 'values' and 'weights' must be non-empty tables of equal length".to_owned(),
        );
    }
    if any_negative(&weights) {
        return Err("random.rand_weight: weights must be non-negative".to_owned());
    }
    match choose_weighted(&values, &weights) {
        Some(value) => {
            proof {
                let draw = choose|draw: int|
                    0 <= draw < total(weights@) && value == value_for(
                        values@,
                        #[trigger] landing(weights@, draw),
                    );
                law_draws_land_by_weight(weights@, draw);
            }
            lua.push_value(LuaValue::Integer(value));
            Ok(1)
        },
        None => Ok(0),
    }
}

/// Values with their weights, and what was picked of them.
pub struct Pool {
    pub values: Seq<i64>,
    pub weights: Seq<i64>,
    pub picked: Seq<i64>,
}

/// A sequence without one element, whose place the last one takes.
pub open spec fn without(s: Seq<i64>, i: int) -> Seq<i64> {
    s.update(i, s.last()).drop_last()
}

/// The pool after draws, each of which takes out what it picks.
pub open spec fn drawn(values: Seq<i64>, weights: Seq<i64>, draws: Seq<int>) -> Pool
    decreases draws.len(),
{
    if draws.len() == 0 {
        Pool { values, weights, picked: Seq::empty() }
    } else {
        let p = drawn(values, weights, draws.drop_last());
        let i = landing(p.weights, draws.last());
        Pool {
            values: without(p.values, i),
            weights: without(p.weights, i),
            picked: p.picked.push(p.values[i]),
        }
    }
}

/// Draws that each lie below the sum of the weights that are left.
pub open spec fn fair_draws(values: Seq<i64>, weights: Seq<i64>, draws: Seq<int>) -> bool
    decreases draws.len(),
{
    draws.len() > 0 ==> {
        &&& fair_draws(values, weights, draws.drop_last())
        &&& 0 <= draws.last() < total(drawn(values, weights, draws.drop_last()).weights)
    }
}

proof fn lemma_skip_positives(ws: Seq<i64>, i: int)
    requires
        0 <= i < ws.len(),
    ensures
        positives(ws) == positives(ws.remove(i)) + if ws[i] > 0 {
            1nat
        } else {
            0
        },
        total(ws) == total(ws.remove(i)) + ws[i],
    decreases ws.len(),
{
    let less = ws.remove(i);
    if i == 0 {
        assert(less =~= ws.skip(1));
    } else {
        lemma_skip_positives(ws.skip(1), i - 1);
        assert(less.skip(1) =~= ws.skip(1).remove(i - 1));
        assert(less[0] == ws[0]);
    }
}

proof fn lemma_without(ws: Seq<i64>, i: int)
    requires
        0 <= i < ws.len(),
    ensures
        positives(ws) == positives(without(ws, i)) + if ws[i] > 0 {
            1nat
        } else {
            0
        },
        total(ws) == total(without(ws, i)) + ws[i],
        without(ws, i).to_multiset().insert(ws[i]) =~= ws.to_multiset(),
        weights_ok(ws) ==> weights_ok(without(ws, i)),
    decreases ws.len(),
{
    broadcast use vstd::seq_lib::group_to_multiset_ensures;

    let n = ws.len() - 1;
    let w = without(ws, i);
    lemma_skip_positives(ws, i);
    let less = ws.remove(i);
    if i == n {
        assert(w =~= less);
    } else {
        // Moving the last element to the place changes only the order.
        lemma_skip_positives(less, n - 1);
        lemma_skip_positives(w, i);
        assert(less.remove(n - 1) =~= w.remove(i));
        assert(less[n - 1] == ws[n]);
        assert(w[i] == ws[n]);
        assert(w.remove(i).to_multiset() =~= w.to_multiset().remove(w[i]));
        assert(less.remove(n - 1).to_multiset() =~= less.to_multiset().remove(less[n - 1]));
        assert(w.contains(w[i]));
        assert(less.contains(less[n - 1]));
        assert(w.to_multiset().count(w[i]) > 0);
        assert(less.to_multiset().count(less[n - 1]) > 0);
        let rest = w.remove(i).to_multiset();
        assert(w.to_multiset() =~= rest.insert(ws[n]));
        assert(less.to_multiset() =~= rest.insert(ws[n]));
    }
    assert(less.to_multiset() =~= ws.to_multiset().remove(ws[i]));
    assert(ws.contains(ws[i]));
    assert(ws.to_multiset().count(ws[i]) > 0);
    assert(w.to_multiset().insert(ws[i]) =~= ws.to_multiset());
    if weights_ok(ws) {
        assert forall|k: int| 0 <= k < w.len() implies 0 <= #[trigger] w[k] by {
            assert(0 <= ws[k] && 0 <= ws[n]);
        }
    }
}

/// However the draws fall, every one of them picks one value of positive weight
/// and takes it out: nothing is picked twice, and what was picked and what is
/// left together are the values there were.
pub proof fn law_picks_are_taken_out(values: Seq<i64>, weights: Seq<i64>, draws: Seq<int>)
    requires
        values.len() == weights.len(),
        weights_ok(weights),
        fair_draws(values, weights, draws),
    ensures
        ({
            let p = drawn(values, weights, draws);
            &&& p.picked.len() == draws.len()
            &&& p.values.len() == p.weights.len() == values.len() - draws.len()
            &&& weights_ok(p.weights)
            &&& positives(p.weights) + draws.len() == positives(weights)
            &&& total(p.weights) <= total(weights)
            &&& p.picked.to_multiset().add(p.values.to_multiset()) =~= values.to_multiset()
        }),
    decreases draws.len(),
{
    broadcast use vstd::seq_lib::group_to_multiset_ensures;

    if draws.len() > 0 {
        let front = draws.drop_last();
        law_picks_are_taken_out(values, weights, front);
        let p = drawn(values, weights, front);
        let i = landing(p.weights, draws.last());
        law_draws_land_by_weight(p.weights, draws.last());
        lemma_without(p.weights, i);
        lemma_without(p.values, i);
        let q = drawn(values, weights, draws);
        assert(q.picked.to_multiset() =~= p.picked.to_multiset().insert(p.values[i]));
        assert(q.picked.to_multiset().add(q.values.to_multiset())
            =~= p.picked.to_multiset().add(p.values.to_multiset()));
    } else {
        assert(drawn(values, weights, draws).picked.to_multiset() =~= Seq::<
            i64,
        >::empty().to_multiset());
        assert(Seq::<i64>::empty().to_multiset().add(values.to_multiset())
            =~= values.to_multiset()) by {
            assert(Seq::<i64>::empty().to_multiset().len() == 0);
            assert forall|x: i64| Seq::<i64>::empty().to_multiset().count(x) == 0 by {
                assert(!Seq::<i64>::empty().contains(x));
            }
        }
    }
}

/// Picks `count` of the values by weight, each at most once. There are enough to
/// pick exactly where that many weights are positive.
#[verifier::loop_isolation(false)]
pub fn pick_some(values: Vec<i64>, weights: Vec<i64>, count: usize) -> (r: Option<Vec<i64>>)
    requires
        values@.len() == weights@.len(),
        weights_ok(weights@),
        count > 0 ==> total(weights@) <= i64::MAX,
    ensures
        match r {
            None => positives(weights@) < count,
            Some(picked) => positives(weights@) >= count && exists|draws: Seq<int>|
                draws.len() == count && fair_draws(values@, weights@, draws) && picked@
                    == #[trigger] drawn(values@, weights@, draws).picked,
        },
{
    let ghost vs = values@;
    let ghost ws = weights@;
    let ghost mut draws: Seq<int> = Seq::empty();
    let mut values = values;
    let mut weights = weights;
    let mut picked: Vec<i64> = Vec::new();
    assert(picked@ =~= Seq::empty());
    while picked.len() < count
        invariant
            vs.len() == ws.len(),
            weights_ok(ws),
            count > 0 ==> total(ws) <= i64::MAX,
            picked@.len() == draws.len() <= count,
            fair_draws(vs, ws, draws),
            drawn(vs, ws, draws) == (Pool { values: values@, weights: weights@, picked: picked@ }),
        decreases count - picked@.len(),
    {
        proof {
            law_picks_are_taken_out(vs, ws, draws);
            lemma_total(weights@);
        }
        let sum = sum_of(&weights);
        if sum == 0 {
            return None;
        }
        let cutoff = random_between(0, sum - 1);
        let index = land(&weights, cutoff);
        proof {
            let next = draws.push(cutoff as int);
            assert(next.drop_last() =~= draws);
            draws = next;
        }
        picked.push(values[index]);
        let _value = values.swap_remove(index);
        let _weight = weights.swap_remove(index);
    }
    proof {
        law_picks_are_taken_out(vs, ws, draws);
    }
    Some(picked)
}

/// What is wrong with the arguments of a choice of several values, or what is in
/// them.
pub open spec fn some_weight_args(a: Option<Val>, b: Option<Val>, c: Option<Val>) -> Result<
    (Seq<i64>, Seq<i64>, i64),
    Seq<char>,
> {
    match (
        integer_arg("random.rand_weight_some: "@, c),
        integers_arg(a, 1),
        integers_arg(b, 2),
    ) {
        (Err(e), _, _) => Err(e),
        (_, Err(e), _) => Err(e),
        (_, _, Err(e)) => Err(e),
        (Ok(count), Ok(values), Ok(weights)) => if values.len() != weights.len() || values.len()
            == 0 || count < 0 || values.len() < count {
            Err(
                "random.rand_weight_some: 'values' and 'weights' must be non-empty tables of equal length, and 'count' must be in range [0, "@
                    + decimal(values.len() as int) + "], got "@ + decimal(count as int),
            )
        } else if !weights_ok(weights) {
            Err("random.rand_weight_some: weights must be non-negative"@)
        } else {
            Ok((values, weights, count))
        },
    }
}

/// On top of a stack came a table of `count` values, as some draws pick them.
pub open spec fn some_picked(
    before: Seq<Val>,
    now: Seq<Val>,
    vs: Seq<i64>,
    ws: Seq<i64>,
    count: i64,
) -> bool {
    exists|draws: Seq<int>|
        draws.len() == count && fair_draws(vs, ws, draws) && now == before.push(
            integers_table((#[trigger] drawn(vs, ws, draws)).picked),
        )
}

/// Puts a table of values picked by weight on top, each at most once; nothing
/// where too few weights are positive. Where any are to be picked, the sum of the
/// weights fits an integer.
pub fn rand_weight_some(lua: &mut LuaStack) -> (r: Result<i32, String>)
    requires
        old(lua).wf(),
        old(lua).room() >= 1,
        some_weight_args(old(lua).slot(1), old(lua).slot(2), old(lua).slot(3)) matches Ok(
            (_, ws, count),
        ) ==> count > 0 ==> total(ws) <= i64::MAX,
    ensures
        final(lua).wf(),
        final(lua).same_machine(*old(lua)),
        match some_weight_args(old(lua).slot(1), old(lua).slot(2), old(lua).slot(3)) {
            Err(e) => r matches Err(m) && m@ == e && final(lua)@ == old(lua)@,
            Ok((vs, ws, count)) => if positives(ws) < count {
                r == Ok::<i32, String>(0) && final(lua)@ == old(lua)@
            } else {
                r == Ok::<i32, String>(1) && some_picked(old(lua)@, final(lua)@, vs, ws, count)
            },
        },
{
    let count = read_integer(lua, 3, "random.rand_weight_some: ")?;
    let values = table_to_i64_vec(lua, 1)?;
    let weights = table_to_i64_vec(lua, 2)?;
    if values.len() != weights.len() || values.len() == 0 || count < 0 || (values.len() as u64)
        < count as u64 {
        let mut m =
            "random.rand_weight_some: 'values' and 'weights' must be non-empty tables of equal length, and 'count' must be in range [0, ".to_owned();
        push_u64(&mut m, values.len() as u64);
        m.append("], got ");
        push_i64(&mut m, count);
        return Err(m);
    }
    if any_negative(&weights) {
        return Err("random.rand_weight_some: weights must be non-negative".to_owned());
    }
    let ghost vs = values@;
    let ghost ws = weights@;
    assert(some_weight_args(lua.slot(1), lua.slot(2), lua.slot(3)) == Ok::<
        (Seq<i64>, Seq<i64>, i64),
        Seq<char>,
    >((vs, ws, count)));
    match pick_some(values, weights, count as usize) {
        Some(picked) => {
            let ghost draws = choose|draws: Seq<int>|
                draws.len() == count && fair_draws(vs, ws, draws) && picked@ == #[trigger] drawn(
                    vs,
                    ws,
                    draws,
                ).picked;
            lua.push_value(integers_value(&picked));
            assert(lua@ == old(lua)@.push(integers_table(drawn(vs, ws, draws).picked)));
            assert(some_picked(old(lua)@, lua@, vs, ws, count));
            Ok(1)
        },
        None => Ok(0),
    }
}

} // verus!
