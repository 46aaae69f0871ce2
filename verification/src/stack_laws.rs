//! What is read from slots, and what numbers on the stack stand for.
use vstd::arithmetic::mul::*;
use vstd::arithmetic::power2::*;
use vstd::prelude::*;
use vstd::string::*;

use crate::laux::{
    code_name, none_or_nil, resized, slot_integer, slot_kind, type_code, type_error_text,
    wraps_to, LuaStack,
};
use crate::number::{exact_integer, integer_magnitude, is_nan_spec, scale, significand};
use crate::random::{integer_arg, integers_arg, integers_of, integers_table, range_args, some_args};
use crate::seri::slot_address;
use crate::text::decimal;
use crate::uuid::{
    cap, fill, fullest, integer_or, moved_on, reported, resumed, resumed_from, resumed_upto,
    slot_is_number, stored_counters, UuidState, SEQUENCE_MAX, SERVERID_MAX, TYPES, TYPE_MAX,
    UID_CHANNEL_MAX, UID_SEQUENCE_MAX,
};
use crate::value::{kind_name, kind_of, stored_key, LuaType, Tab, Val};
use crate::weighted::{positives, some_weight_args, total, value_for, weight_args};

verus! {

/// A slot is found by its place from the bottom, counted from one, and by its
/// place from the top, counted down from minus one; there is nothing above.
pub proof fn law_slots_count_from_both_ends(lua: LuaStack, i: int)
    requires
        lua.wf(),
        1 <= i <= lua@.len(),
    ensures
        lua.slot(i) == Some(lua@[i - 1]),
        lua.slot(-i) == Some(lua@[lua@.len() - i]),
        lua.slot(i - lua@.len() - 1) == lua.slot(i),
        lua.slot(lua@.len() + i) is None,
{
}

/// Cutting a stack keeps what is below the cut, and filling it up adds nil.
pub proof fn law_resizing_keeps_what_is_below(s: Seq<Val>, n: int)
    requires
        0 <= n,
    ensures
        resized(s, n).len() == n,
        n <= s.len() ==> resized(s, n) == s.take(n),
        n >= s.len() ==> resized(s, n).take(s.len() as int) == s,
        forall|i: int| s.len() <= i < n ==> (#[trigger] resized(s, n)[i]) is Nil,
{
    if n <= s.len() {
        assert(resized(s, n) =~= s.take(n));
    } else {
        assert(resized(s, n).take(s.len() as int) =~= s);
    }
}

/// An integer in the range of a narrower type is read as it is, and only as
/// itself.
pub proof fn law_integers_in_range_are_kept(i: int, r: int, min: int, max: int)
    requires
        min <= i <= max,
    ensures
        wraps_to(i, r, min, max) <==> r == i,
{
    if wraps_to(i, r, min, max) && r != i {
        let m = max - min + 1;
        if i > r {
            vstd::arithmetic::div_mod::lemma_small_mod((i - r) as nat, m as nat);
        } else {
            let d = i - r;
            assert(-m < d < 0);
            vstd::arithmetic::div_mod::lemma_mod_add_multiples_vanish(d, m);
            vstd::arithmetic::div_mod::lemma_small_mod((d + m) as nat, m as nat);
        }
    }
    if r == i {
        vstd::arithmetic::div_mod::lemma_small_mod(0, (max - min + 1) as nat);
    }
}

/// A pattern is no number exactly where all bits of its exponent are set and not
/// all of its fraction are clear.
pub proof fn law_not_a_number(bits: u64)
    ensures
        is_nan_spec(bits) <==> bits as int % 0x8000_0000_0000_0000 > 0x7ff0_0000_0000_0000,
{
}

/// A float of the usual kind is the integer that it equals and no other: its
/// fraction with the hidden bit, at its exponent. Written without division: the
/// integer times two to the 1075 is the significand times two to the exponent.
pub proof fn law_floats_are_the_integers_they_equal(f: int, e: int, n: int, neg: bool)
    requires
        0 <= f < 0x10_0000_0000_0000,
        1 <= e <= 2046,
        0 <= n,
    ensures
        ({
            let bits = (f + e * 0x10_0000_0000_0000 + if neg {
                0x8000_0000_0000_0000int
            } else {
                0
            }) as u64;
            exact_integer(bits) == Some(
                if neg {
                    -n
                } else {
                    n
                },
            ) <==> n * pow2(1075) as int == (f + 0x10_0000_0000_0000) * pow2(e as nat) as int
        }),
{
    let bits = (f + e * 0x10_0000_0000_0000 + if neg {
        0x8000_0000_0000_0000int
    } else {
        0
    }) as u64;
    let sig = f + 0x10_0000_0000_0000;
    assert(significand(bits) == sig);
    assert(scale(bits) == e - 1075);
    lemma_pow2_pos(1075);
    lemma_pow2_pos(e as nat);
    if e >= 1075 {
        let k = (e - 1075) as nat;
        let m = sig * pow2(k) as int;
        lemma_pow2_pos(k);
        assert(m * pow2(1075) as int == sig * pow2(e as nat) as int) by {
            lemma_pow2_adds(k, 1075);
            lemma_mul_is_associative(sig, pow2(k) as int, pow2(1075) as int);
        }
        assert(integer_magnitude(bits) == Some(m));
        if n * pow2(1075) as int == sig * pow2(e as nat) as int {
            lemma_mul_equality_converse(pow2(1075) as int, n, m);
        }
    } else {
        let k = (1075 - e) as nat;
        lemma_pow2_pos(k);
        let p = pow2(k) as int;
        // Times two to the exponent, both sides are those that are stated.
        assert(n * p == sig <==> n * pow2(1075) as int == sig * pow2(e as nat) as int) by {
            lemma_pow2_adds(k, e as nat);
            lemma_mul_is_associative(n, p, pow2(e as nat) as int);
            assert(n * pow2(1075) as int == (n * p) * pow2(e as nat) as int);
            if n * p != sig {
                if (n * p) * pow2(e as nat) as int == sig * pow2(e as nat) as int {
                    lemma_mul_equality_converse(pow2(e as nat) as int, n * p, sig);
                }
            }
        }
        if n * p == sig {
            vstd::arithmetic::div_mod::lemma_mod_multiples_basic(n, p);
            vstd::arithmetic::div_mod::lemma_div_multiples_vanish(n, p);
            lemma_mul_is_commutative(n, p);
            assert(integer_magnitude(bits) == Some(n));
        }
        if sig % p == 0 {
            vstd::arithmetic::div_mod::lemma_fundamental_div_mod(sig, p);
            lemma_mul_is_commutative(sig / p, p);
            if sig / p == n {
                assert(n * p == sig);
            }
        }
    }
}

/// What the machine reads as an integer: an integer itself, a float that equals
/// one in range, and what the machine says of a string; nothing of any other kind.
/// As a key such a float is that integer.
pub proof fn law_integers_are_read_from_numbers(
    i: i64,
    bits: u64,
    text: Seq<char>,
    b: Seq<u8>,
    coerced: Option<i64>,
    v: Val,
)
    ensures
        slot_integer(Some(Val::Int(i))) == Some(i),
        slot_integer(Some(Val::Str(b, coerced))) == coerced,
        slot_integer(Some(Val::Num(bits, text))) == Some(i) <==> exact_integer(bits) == Some(
            i as int,
        ),
        slot_integer(None) is None,
        !(v is Int) && !(v is Num) && !(v is Str) ==> slot_integer(Some(v)) is None,
        exact_integer(bits) == Some(i as int) ==> stored_key(Val::Num(bits, text)) == Val::Int(i),
        stored_key(Val::Int(i)) == Val::Int(i),
        stored_key(Val::Str(b, coerced)) == Val::Str(b, coerced),
{
}

/// The kind of a slot: nothing where it is empty, and else the kind of its value;
/// empty and nil are the same to an optional argument.
pub proof fn law_slots_have_the_kind_of_their_values(v: Val)
    ensures
        slot_kind(None) == LuaType::Absent,
        slot_kind(Some(v)) == kind_of(v),
        none_or_nil(None),
        none_or_nil(Some(v)) <==> v is Nil,
        kind_of(v) is Integer <==> v is Int,
        kind_of(v) is Number <==> v is Num,
        kind_of(v) is String <==> v is Str,
        kind_of(v) is Table <==> v is Table,
        kind_of(v) is Nil <==> v is Nil,
        kind_of(v) is Boolean <==> v is Bool,
        kind_of(v) is LightUserData <==> v is Light,
        kind_of(v) is UserData <==> v is User,
        kind_of(v) is Function <==> v is Func,
        kind_of(v) is Thread <==> v is Thread,
{
}

proof fn lemma_integers(items: Seq<Val>, i: nat, done: Seq<i64>)
    requires
        i == done.len() <= items.len(),
    ensures
        integers_of(items, i, done) is Ok <==> forall|k: int|
            i <= k < items.len() ==> slot_integer(Some(#[trigger] items[k])) is Some,
        integers_of(items, i, done) matches Ok(vs) ==> {
            &&& vs.len() == items.len()
            &&& vs.take(i as int) == done
            &&& forall|k: int|
                i <= k < items.len() ==> slot_integer(Some(#[trigger] items[k])) == Some(vs[k])
        },
    decreases items.len() - i,
{
    if i < items.len() {
        if let Some(n) = slot_integer(Some(items[i as int])) {
            let next = done.push(n);
            lemma_integers(items, i + 1, next);
            if let Ok(vs) = integers_of(items, i, done) {
                assert(vs.take(i as int + 1)[i as int] == n);
                assert(vs.take(i as int) =~= done) by {
                    assert forall|k: int| 0 <= k < i implies vs[k] == done[k] by {
                        assert(vs.take(i as int + 1)[k] == next[k]);
                    }
                }
            }
        }
    } else {
        assert(done.take(i as int) =~= done);
    }
}

/// A table of integers is read element by element, all of them and in their order;
/// it is refused exactly where one of them is no integer.
pub proof fn law_integer_lists_are_read_whole(items: Seq<Val>)
    ensures
        integers_of(items, 0, Seq::empty()) is Ok <==> forall|k: int|
            0 <= k < items.len() ==> slot_integer(Some(#[trigger] items[k])) is Some,
        integers_of(items, 0, Seq::empty()) matches Ok(vs) ==> {
            &&& vs.len() == items.len()
            &&& forall|k: int|
                0 <= k < items.len() ==> slot_integer(Some(#[trigger] items[k])) == Some(vs[k])
        },
{
    lemma_integers(items, 0, Seq::empty());
}

/// The bounds of a random integer are the arguments, where they are in order.
pub proof fn law_ranges_are_the_bounds_given(a: i64, b: i64)
    ensures
        a <= b ==> range_args(Some(Val::Int(a)), Some(Val::Int(b))) == Ok::<
            (i64, i64),
            Seq<char>,
        >((a, b)),
        a > b ==> range_args(Some(Val::Int(a)), Some(Val::Int(b))) == Err::<
            (i64, i64),
            Seq<char>,
        >(
            "random.rand_range: "@
                + "min value must be less than or equal to max value, got min="@ + decimal(
                a as int,
            ) + " and max="@ + decimal(b as int),
        ),
{
}

/// Different random integers can be asked for as many as the range has, at least
/// one of them, and where the size of the range fits an integer.
pub proof fn law_counts_are_within_the_range(a: i64, b: i64, count: i64)
    requires
        count <= usize::MAX,
    ensures
        some_args(Some(Val::Int(a)), Some(Val::Int(b)), Some(Val::Int(count))) is Ok <==> a <= b
            && b - a + 1 <= i64::MAX && 1 <= count <= b - a + 1,
        some_args(Some(Val::Int(a)), Some(Val::Int(b)), Some(Val::Int(count))) matches Ok(x) ==> x
            == (a, b, count),
{
}

/// A weighted choice takes a value for every weight, at least one, and no weight
/// below zero; and it takes them as they are.
pub proof fn law_weights_belong_to_values(
    a: Option<Val>,
    b: Option<Val>,
    values: Seq<i64>,
    weights: Seq<i64>,
    count: i64,
)
    requires
        integers_arg(a, 1) == Ok::<Seq<i64>, Seq<char>>(values),
        integers_arg(b, 2) == Ok::<Seq<i64>, Seq<char>>(weights),
    ensures
        weight_args(a, b) is Ok <==> values.len() == weights.len() && values.len() > 0 && forall|
            i: int,
        |
            0 <= i < weights.len() ==> 0 <= #[trigger] weights[i],
        weight_args(a, b) matches Ok(x) ==> x == (values, weights),
        some_weight_args(a, b, Some(Val::Int(count))) is Ok <==> weight_args(a, b) is Ok && 0
            <= count <= values.len(),
        some_weight_args(a, b, Some(Val::Int(count))) matches Ok(x) ==> x == (
            values,
            weights,
            count,
        ),
{
}

/// The numbers of player ids end at two to the 24, those of every other type at
/// two to the 37; a periodic save goes 100000 or ten million numbers ahead, but
/// not past the end, and a clean one not at all; a restart adds what was drawn.
pub proof fn law_counters_have_their_limits(typ: int, counter: int, jitter: int)
    requires
        0 <= typ <= 1023,
        0 <= counter,
        0 <= jitter,
        counter + jitter + 10_000_000 <= i64::MAX,
    ensures
        cap(typ) == if typ == 0 {
            0x100_0000 - 1
        } else {
            0x20_0000_0000 - 1
        },
        reported(typ, counter, false) == counter,
        typ == 0 && counter + 100_000 < 0x100_0000 ==> reported(typ, counter, true) == counter
            + 100_000,
        typ > 0 && counter + 10_000_000 < 0x20_0000_0000 ==> reported(typ, counter, true) == counter
            + 10_000_000,
        reported(typ, counter, true) <= cap(typ),
        counter + jitter <= cap(typ) ==> resumed(typ, counter, jitter) == counter + jitter,
        resumed(typ, counter, jitter) <= cap(typ),
{
}

/// How full a counter is, measured against all that it can count: the share of its
/// own numbers that is used up is the share of two to the 37 that is stated.
pub proof fn law_fill_is_the_share_used(typ: int, value: int)
    requires
        0 <= typ <= 1023,
        0 <= value,
    ensures
        fill(typ, value) * (cap(typ) + 1) == value * 0x20_0000_0000,
{
    if typ == 0 {
        assert(value * 0x2000 * 0x100_0000 == value * 0x20_0000_0000) by (nonlinear_arith);
    }
}

/// The fullest counter is as full as any of them, and is one of them, unless all
/// are empty.
pub proof fn law_fullest_is_the_largest(counters: Seq<i64>, periodic: bool, n: int)
    requires
        0 <= n <= counters.len(),
    ensures
        fullest(counters, periodic, n) >= 0,
        forall|i: int|
            0 <= i < n ==> fill(i, reported(i, #[trigger] counters[i] as int, periodic))
                <= fullest(counters, periodic, n),
        fullest(counters, periodic, n) > 0 ==> exists|i: int|
            0 <= i < n && fill(i, reported(i, #[trigger] counters[i] as int, periodic)) == fullest(
                counters,
                periodic,
                n,
            ),
    decreases n,
{
    if n > 0 {
        law_fullest_is_the_largest(counters, periodic, n - 1);
        let this = fill(n - 1, reported(n - 1, counters[n - 1] as int, periodic));
        let before = fullest(counters, periodic, n - 1);
        if this <= before && before > 0 {
            let i = choose|i: int|
                0 <= i < n - 1 && fill(i, reported(i, #[trigger] counters[i] as int, periodic))
                    == before;
            assert(fill(i, reported(i, counters[i] as int, periodic)) == before);
        }
    }
}

/// A counter that is restored lies between 1000 and 10000 numbers above what was
/// stored for it, as far as there are so many; stored counters are the elements of
/// the table given, and none where that is empty or missing.
pub proof fn law_restored_counters_are_ahead(counter: i64, typ: int, n: i64, t: Tab)
    requires
        0 <= typ <= 1023,
        0 <= n <= cap(typ),
    ensures
        resumed_from(counter, typ, Val::Int(n)) && n + 10_000 <= cap(typ) ==> n + 1_000 <= counter
            <= n + 10_000,
        resumed_from(counter, typ, Val::Int(n)) ==> n <= counter <= cap(typ),
        !resumed_from(counter, typ, Val::Nil),
        stored_counters(None) is None,
        t.array.len() == 0 ==> stored_counters(Some(Val::Table(t))) is None,
        t.array.len() > 0 ==> stored_counters(Some(Val::Table(t))) == Some(t.array),
{
}

/// An optional integer is the default where it is missing or nil, and else what the
/// machine reads there.
pub proof fn law_missing_integers_have_defaults(v: Val, default: i64)
    ensures
        integer_or(None, default) == Some(default),
        integer_or(Some(Val::Nil), default) == Some(default),
        !(v is Nil) ==> integer_or(Some(v), default) == slot_integer(Some(v)),
        slot_is_number(Some(v)) <==> v is Int || v is Num,
        !slot_is_number(None),
{
}

/// A place among values is that value, and a place behind them the last.
pub proof fn law_places_behind_values_are_the_last(values: Seq<i64>, place: int)
    requires
        values.len() > 0,
        0 <= place,
    ensures
        place < values.len() ==> value_for(values, place) == values[place],
        place >= values.len() ==> value_for(values, place) == values[values.len() - 1],
{
}

/// The address that a value stands for: that of the memory for userdata of either
/// sort, and null for anything else.
pub proof fn law_userdata_stand_for_addresses(p: u64, n: usize, v: Val)
    ensures
        slot_address(Some(Val::Light(p))) == p,
        slot_address(Some(Val::User(p, n))) == p,
        slot_address(None) == 0,
        !(v is Light) && !(v is User) ==> slot_address(Some(v)) == 0,
{
}

/// The machine's name of a kind is the usual one, but that it calls a missing value
/// none and userdata of either sort the same.
pub proof fn law_codes_have_the_names_of_their_kinds(t: LuaType)
    ensures
        code_name(type_code(t) as int) == match t {
            LuaType::Absent => "no value"@,
            LuaType::LightUserData => "userdata"@,
            _ => kind_name(t),
        },
        kind_name(LuaType::Nil) == "nil"@,
        kind_name(LuaType::Boolean) == "boolean"@,
        kind_name(LuaType::Number) == "number"@,
        kind_name(LuaType::Integer) == "number"@,
        kind_name(LuaType::String) == "string"@,
        kind_name(LuaType::Table) == "table"@,
        kind_name(LuaType::Function) == "function"@,
        kind_name(LuaType::UserData) == "userdata"@,
        kind_name(LuaType::LightUserData) == "lightuserdata"@,
        kind_name(LuaType::Thread) == "thread"@,
        kind_name(LuaType::Absent) == "none"@,
{
}

/// An integer argument is the integer, and what is none is reported by its kind.
pub proof fn law_integer_arguments_are_read(prefix: Seq<char>, i: i64, v: Val)
    ensures
        integer_arg(prefix, Some(Val::Int(i))) == Ok::<i64, Seq<char>>(i),
        v is Nil || v is Bool || v is Table ==> integer_arg(prefix, Some(v)) == Err::<
            i64,
            Seq<char>,
        >(prefix + type_error_text("integer"@, kind_of(v))),
        integer_arg(prefix, None) == Err::<i64, Seq<char>>(
            prefix + type_error_text("integer"@, LuaType::Absent),
        ),
{
}

/// Integers as a table: a sequence of them in their order, and nothing else.
pub proof fn law_integer_tables_are_sequences(vs: Seq<i64>)
    ensures
        integers_table(vs) is Table,
        integers_table(vs)->Table_0.hash.len() == 0,
        integers_table(vs)->Table_0.array.len() == vs.len(),
        forall|i: int|
            0 <= i < vs.len() ==> #[trigger] integers_table(vs)->Table_0.array[i] == Val::Int(vs[i]),
{
}

/// An id that is issued moves the counter of its type on by one, and nothing else.
pub proof fn law_issuing_moves_one_counter(before: UuidState, now: UuidState, typ: int, i: int)
    requires
        moved_on(before, now, typ),
        0 <= typ < before.sequence@.len(),
        before.sequence@[typ] < i64::MAX,
    ensures
        now.serverid == before.serverid,
        now.channel == before.channel,
        now.sequence@.len() == before.sequence@.len(),
        now.sequence@[typ] == before.sequence@[typ] + 1,
        0 <= i < before.sequence@.len() && i != typ ==> now.sequence@[i] == before.sequence@[i],
{
}

/// Counters that were all resumed are each ahead of what was stored for them.
pub proof fn law_all_counters_are_resumed(
    before: Seq<i64>,
    now: Seq<i64>,
    stored: Seq<Val>,
    n: int,
    i: int,
)
    requires
        resumed_upto(before, now, stored, n),
    ensures
        now.len() == before.len(),
        0 <= i < n && i < now.len() ==> resumed_from(now[i], i, stored[i]),
        n <= i < now.len() && 0 <= i ==> now[i] == before[i],
{
}

/// The fields of ids have their widths: ten bits for the type, sixteen for the
/// server, and 37 for the number; in player ids eight for the channel and 24 for
/// the number. There is a counter for every type.
pub proof fn law_id_fields_have_their_widths()
    ensures
        TYPE_MAX + 1 == 0x400,
        SERVERID_MAX + 1 == 0x1_0000,
        SEQUENCE_MAX + 1 == 0x20_0000_0000,
        UID_CHANNEL_MAX + 1 == 0x100,
        UID_SEQUENCE_MAX + 1 == 0x100_0000,
        TYPES == TYPE_MAX + 1,
{
}

/// Weights add up part by part, and so do those that are positive.
pub proof fn law_weights_add_up(a: Seq<i64>, b: Seq<i64>, w: i64)
    ensures
        total(a + b) == total(a) + total(b),
        total(seq![w]) == w,
        positives(seq![w]) == if w > 0 {
            1nat
        } else {
            0
        },
        positives(a + b) == positives(a) + positives(b),
    decreases a.len(),
{
    assert(seq![w].skip(1) =~= Seq::empty());
    assert(total(seq![w].skip(1)) == 0);
    assert(positives(seq![w].skip(1)) == 0);
    if a.len() == 0 {
        assert(a + b =~= b);
    } else {
        assert((a + b)[0] == a[0]);
        assert((a + b).skip(1) =~= a.skip(1) + b);
        law_weights_add_up(a.skip(1), b, w);
    }
}

} // verus!
