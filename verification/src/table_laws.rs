//! What tables give back of what was set in them.
use vstd::prelude::*;

use crate::seri_laws::distinct_keys;
use crate::value::{find, is_key, lemma_find, raw_equal, stored_key, trimmed, Tab, Val};

verus! {

/// A table whose keys outside the sequence part are in stored form, pairwise
/// different, and not those of the sequence part.
pub open spec fn tidy(t: Tab) -> bool {
    &&& distinct_keys(t.hash)
    &&& forall|i: int|
        0 <= i < t.hash.len() ==> is_key(#[trigger] t.hash[i].0) && stored_key(t.hash[i].0)
            == t.hash[i].0 && !t.in_array(t.hash[i].0)
}

/// Whether a lookup can find a key again: a new table is found by none.
pub open spec fn found_again(key: Val) -> bool {
    key matches Val::Table(t) ==> t.address != 0
}

proof fn lemma_equal_keys(a: Val, b: Val, c: Val)
    ensures
        raw_equal(a, b) == raw_equal(b, a),
        raw_equal(a, b) && raw_equal(b, c) ==> raw_equal(a, c),
{
}

/// The entry of a key is the one that [`find`] names.
proof fn lemma_found(es: Seq<(Val, Val)>, k: Val, i: int)
    requires
        distinct_keys(es),
        0 <= i < es.len(),
        raw_equal(es[i].0, k),
    ensures
        find(es, k) == i,
{
    lemma_find(es, k);
    let j = find(es, k);
    if j != i && j >= 0 {
        lemma_equal_keys(es[i].0, k, es[j].0);
        lemma_equal_keys(es[j].0, k, es[i].0);
        if i < j {
            assert(!raw_equal(es[i].0, es[j].0));
        } else {
            assert(!raw_equal(es[j].0, es[i].0));
        }
    }
}

proof fn lemma_not_found(es: Seq<(Val, Val)>, k: Val)
    requires
        forall|i: int| 0 <= i < es.len() ==> !raw_equal(#[trigger] es[i].0, k),
    ensures
        find(es, k) < 0,
{
    lemma_find(es, k);
}

/// Setting a key raw: the key then has the value, every other key what it had.
pub proof fn lemma_set(t: Tab, key: Val, v: Val, other: Val)
    requires
        tidy(t),
        is_key(key),
        found_again(key),
    ensures
        tidy(t.set(key, v)),
        t.set(key, v).get(key) == v,
        !raw_equal(stored_key(key), stored_key(other)) ==> t.set(key, v).get(other) == t.get(other),
{
    let k = stored_key(key);
    let o = stored_key(other);
    let u = t.set(key, v);
    let j = find(t.hash, k);
    lemma_find(t.hash, k);
    lemma_find(t.hash, o);
    if t.in_array(k) {
        assert(u.hash == t.hash);
        assert forall|i: int| 0 <= i < u.hash.len() implies !u.in_array(#[trigger] u.hash[i].0) by {
            assert(!t.in_array(t.hash[i].0));
        }
    } else if j >= 0 {
        if v is Nil {
            let h = t.hash.remove(j);
            assert(u.hash == h);
            assert(distinct_keys(h)) by {
                assert forall|a: int, b: int| 0 <= a < b < h.len() implies !raw_equal(
                    (#[trigger] h[a]).0,
                    (#[trigger] h[b]).0,
                ) by {
                    let x = if a < j {
                        a
                    } else {
                        a + 1
                    };
                    let y = if b < j {
                        b
                    } else {
                        b + 1
                    };
                    assert(!raw_equal(t.hash[x].0, t.hash[y].0));
                }
            }
            assert forall|i: int| 0 <= i < h.len() implies is_key(#[trigger] h[i].0) && stored_key(
                h[i].0,
            ) == h[i].0 && !u.in_array(h[i].0) by {
                let x = if i < j {
                    i
                } else {
                    i + 1
                };
                assert(h[i] == t.hash[x]);
                assert(is_key(t.hash[x].0));
            }
            assert forall|i: int| 0 <= i < h.len() implies !raw_equal(#[trigger] h[i].0, k) by {
                let x = if i < j {
                    i
                } else {
                    i + 1
                };
                assert(h[i] == t.hash[x]);
                if raw_equal(t.hash[x].0, k) {
                    lemma_found(t.hash, k, x);
                }
            }
            lemma_not_found(h, k);
            if !raw_equal(k, o) {
                let f = find(t.hash, o);
                if f >= 0 {
                    assert(f != j) by {
                        lemma_equal_keys(k, t.hash[j].0, o);
                        lemma_equal_keys(t.hash[j].0, k, o);
                    }
                    let x = if f < j {
                        f
                    } else {
                        f - 1
                    };
                    assert(h[x] == t.hash[f]);
                    lemma_found(h, o, x);
                } else {
                    assert forall|i: int| 0 <= i < h.len() implies !raw_equal(
                        #[trigger] h[i].0,
                        o,
                    ) by {
                        let x = if i < j {
                            i
                        } else {
                            i + 1
                        };
                        assert(h[i] == t.hash[x]);
                        assert(!raw_equal(t.hash[x].0, o));
                    }
                    lemma_not_found(h, o);
                }
            }
        } else {
            let h = t.hash.update(j, (t.hash[j].0, v));
            assert(u.hash == h);
            assert forall|i: int| 0 <= i < h.len() implies (#[trigger] h[i]).0 == t.hash[i].0 by {}
            assert(distinct_keys(h)) by {
                assert forall|a: int, b: int| 0 <= a < b < h.len() implies !raw_equal(
                    (#[trigger] h[a]).0,
                    (#[trigger] h[b]).0,
                ) by {
                    assert(!raw_equal(t.hash[a].0, t.hash[b].0));
                }
            }
            assert forall|i: int| 0 <= i < h.len() implies is_key(#[trigger] h[i].0) && stored_key(
                h[i].0,
            ) == h[i].0 && !u.in_array(h[i].0) by {
                assert(is_key(t.hash[i].0));
            }
            lemma_found(h, k, j);
            if !raw_equal(k, o) {
                let f = find(t.hash, o);
                if f >= 0 {
                    assert(f != j) by {
                        lemma_equal_keys(k, t.hash[j].0, o);
                        lemma_equal_keys(t.hash[j].0, k, o);
                    }
                    assert(h[f] == t.hash[f]);
                    lemma_found(h, o, f);
                } else {
                    assert forall|i: int| 0 <= i < h.len() implies !raw_equal(
                        #[trigger] h[i].0,
                        o,
                    ) by {
                        assert(!raw_equal(t.hash[i].0, o));
                    }
                    lemma_not_found(h, o);
                }
            }
        }
    } else if !(v is Nil) {
        let h = t.hash.push((k, v));
        assert(u.hash == h);
        assert(distinct_keys(h)) by {
            assert forall|a: int, b: int| 0 <= a < b < h.len() implies !raw_equal(
                (#[trigger] h[a]).0,
                (#[trigger] h[b]).0,
            ) by {
                if b < t.hash.len() {
                    assert(!raw_equal(t.hash[a].0, t.hash[b].0));
                } else {
                    assert(!raw_equal(t.hash[a].0, k));
                }
            }
        }
        assert forall|i: int| 0 <= i < h.len() implies is_key(#[trigger] h[i].0) && stored_key(
            h[i].0,
        ) == h[i].0 && !u.in_array(h[i].0) by {
            if i < t.hash.len() {
                assert(h[i] == t.hash[i]);
                assert(is_key(t.hash[i].0));
            }
        }
        assert(h[t.hash.len() as int] == (k, v));
        lemma_found(h, k, t.hash.len() as int);
        if !raw_equal(k, o) {
            let f = find(t.hash, o);
            if f >= 0 {
                assert(h[f] == t.hash[f]);
                lemma_found(h, o, f);
            } else {
                assert forall|i: int| 0 <= i < h.len() implies !raw_equal(#[trigger] h[i].0, o) by {
                    if i < t.hash.len() {
                        assert(!raw_equal(t.hash[i].0, o));
                    }
                }
                lemma_not_found(h, o);
            }
        }
    }
}

/// Moving elements into the sequence part changes no lookup.
proof fn lemma_absorbed(t: Tab, key: Val)
    requires
        tidy(t),
        t.array.len() + t.hash.len() < i64::MAX,
    ensures
        t.absorbed().get(key) == t.get(key),
        tidy(t.absorbed()),
    decreases t.hash.len(),
{
    let next = Val::Int((t.array.len() + 1) as i64);
    let j = find(t.hash, next);
    lemma_find(t.hash, next);
    if 0 <= j < t.hash.len() {
        let u = Tab { array: t.array.push(t.hash[j].1), hash: t.hash.remove(j), ..t };
        let h = u.hash;
        let k = stored_key(key);
        assert(t.hash[j].0 == next);
        assert(distinct_keys(h)) by {
            assert forall|a: int, b: int| 0 <= a < b < h.len() implies !raw_equal(
                (#[trigger] h[a]).0,
                (#[trigger] h[b]).0,
            ) by {
                let x = if a < j {
                    a
                } else {
                    a + 1
                };
                let y = if b < j {
                    b
                } else {
                    b + 1
                };
                assert(!raw_equal(t.hash[x].0, t.hash[y].0));
            }
        }
        assert forall|i: int| 0 <= i < h.len() implies is_key(#[trigger] h[i].0) && stored_key(
            h[i].0,
        ) == h[i].0 && !u.in_array(h[i].0) && !raw_equal(h[i].0, next) by {
            let x = if i < j {
                i
            } else {
                i + 1
            };
            assert(h[i] == t.hash[x]);
            assert(is_key(t.hash[x].0));
            if raw_equal(t.hash[x].0, next) {
                lemma_found(t.hash, next, x);
            }
        }
        assert(tidy(u));
        assert(u.get(key) == t.get(key)) by {
            lemma_find(t.hash, k);
            let f = find(t.hash, k);
            if !u.in_array(k) {
                assert(k != next);
                if f >= 0 {
                    assert(f != j);
                    let x = if f < j {
                        f
                    } else {
                        f - 1
                    };
                    assert(h[x] == t.hash[f]);
                    lemma_found(h, k, x);
                } else {
                    assert forall|i: int| 0 <= i < h.len() implies !raw_equal(
                        #[trigger] h[i].0,
                        k,
                    ) by {
                        let x = if i < j {
                            i
                        } else {
                            i + 1
                        };
                        assert(h[i] == t.hash[x]);
                        assert(!raw_equal(t.hash[x].0, k));
                    }
                    lemma_not_found(h, k);
                }
            } else if !t.in_array(k) {
                assert(k == next);
            }
        }
        lemma_absorbed(u, key);
    }
}

/// Dropping holes at the end of the sequence part changes no lookup.
proof fn lemma_trimmed(t: Tab, key: Val)
    requires
        tidy(t),
    ensures
        ({
            let u = Tab { array: trimmed(t.array), ..t };
            &&& u.get(key) == t.get(key)
            &&& tidy(u)
            &&& u.array.len() <= t.array.len()
        }),
    decreases t.array.len(),
{
    if t.array.len() > 0 && t.array.last() is Nil {
        let u = Tab { array: t.array.drop_last(), ..t };
        let k = stored_key(key);
        let last = Val::Int(t.array.len() as i64);
        assert forall|i: int| 0 <= i < u.hash.len() implies !u.in_array(#[trigger] u.hash[i].0) by {
            assert(!t.in_array(t.hash[i].0));
        }
        assert(u.get(key) == t.get(key)) by {
            if t.in_array(k) && !u.in_array(k) {
                assert forall|i: int| 0 <= i < t.hash.len() implies !raw_equal(
                    #[trigger] t.hash[i].0,
                    k,
                ) by {
                    assert(!t.in_array(t.hash[i].0));
                }
                lemma_not_found(t.hash, k);
            }
        }
        lemma_trimmed(u, key);
    }
}

/// Bringing the sequence part to a border changes no lookup.
pub proof fn lemma_settled(t: Tab, key: Val)
    requires
        tidy(t),
        t.array.len() + t.hash.len() < i64::MAX,
    ensures
        tidy(t.settled()),
        t.settled().get(key) == t.get(key),
{
    lemma_trimmed(t, key);
    lemma_absorbed(Tab { array: trimmed(t.array), ..t }, key);
}

/// A table gives back what was set: the key has the value, every other key what
/// it had before, and the table stays tidy. Of a key that is a new table nobody
/// has another copy to look it up with.
pub proof fn law_set_then_get(t: Tab, key: Val, v: Val, other: Val)
    requires
        tidy(t),
        is_key(key),
        found_again(key),
        t.array.len() + t.hash.len() + 1 < i64::MAX,
    ensures
        tidy(t.set(key, v).settled()),
        t.set(key, v).settled().get(key) == v,
        !raw_equal(stored_key(key), stored_key(other)) ==> t.set(key, v).settled().get(other)
            == t.get(other),
{
    let u = t.set(key, v);
    lemma_find(t.hash, stored_key(key));
    lemma_set(t, key, v, other);
    lemma_trimmed(u, key);
    lemma_trimmed(u, other);
    let w = Tab { array: trimmed(u.array), ..u };
    lemma_absorbed(w, key);
    lemma_absorbed(w, other);
}

proof fn lemma_trimmed_end(array: Seq<Val>)
    ensures
        trimmed(array).len() > 0 ==> !(trimmed(array).last() is Nil),
    decreases array.len(),
{
    if array.len() > 0 && array.last() is Nil {
        lemma_trimmed_end(array.drop_last());
    }
}

proof fn lemma_absorbed_border(t: Tab)
    requires
        t.array.len() > 0 ==> !(t.array.last() is Nil),
        t.array.len() + t.hash.len() < i64::MAX,
        forall|i: int| 0 <= i < t.hash.len() ==> !((#[trigger] t.hash[i]).1 is Nil),
    ensures
        ({
            let u = t.absorbed();
            &&& u.array.len() > 0 ==> !(u.array.last() is Nil)
            &&& find(u.hash, Val::Int((u.array.len() + 1) as i64)) < 0
        }),
    decreases t.hash.len(),
{
    let next = Val::Int((t.array.len() + 1) as i64);
    let j = find(t.hash, next);
    lemma_find(t.hash, next);
    if j >= 0 {
        let u = Tab { array: t.array.push(t.hash[j].1), hash: t.hash.remove(j), ..t };
        assert(!(t.hash[j].1 is Nil));
        assert forall|i: int| 0 <= i < u.hash.len() implies !((#[trigger] u.hash[i]).1 is Nil) by {
            let x = if i < j {
                i
            } else {
                i + 1
            };
            assert(u.hash[i] == t.hash[x]);
        }
        lemma_absorbed_border(u);
    }
}

/// The length of a table is a border: there is something at it, unless it is zero,
/// and nothing right behind it.
pub proof fn law_tables_end_at_a_border(t: Tab)
    requires
        tidy(t),
        t.array.len() + t.hash.len() < i64::MAX,
        forall|i: int| 0 <= i < t.hash.len() ==> !((#[trigger] t.hash[i]).1 is Nil),
    ensures
        ({
            let u = t.settled();
            let n = u.array.len() as i64;
            &&& n > 0 ==> !(u.get(Val::Int(n)) is Nil)
            &&& u.get(Val::Int((n + 1) as i64)) is Nil
            &&& u.array.len() < i64::MAX
        }),
{
    lemma_trimmed_end(t.array);
    lemma_trimmed(t, Val::Nil);
    let w = Tab { array: trimmed(t.array), ..t };
    lemma_absorbed_border(w);
    lemma_absorbed_length(w);
    let u = t.settled();
    lemma_find(u.hash, Val::Int((u.array.len() + 1) as i64));
}

proof fn lemma_absorbed_length(t: Tab)
    ensures
        t.absorbed().array.len() + t.absorbed().hash.len() == t.array.len() + t.hash.len(),
    decreases t.hash.len(),
{
    let j = find(t.hash, Val::Int((t.array.len() + 1) as i64));
    if 0 <= j < t.hash.len() && t.array.len() < i64::MAX {
        lemma_absorbed_length(
            Tab { array: t.array.push(t.hash[j].1), hash: t.hash.remove(j), ..t },
        );
    }
}

} // verus!
