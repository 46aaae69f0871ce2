//! Why the choice of different integers favours none of them.
use vstd::prelude::*;

use crate::random::{chosen, fair, law_chosen_are_distinct};

verus! {

/// The product of the numbers from one to `n`.
pub open spec fn factorial(n: nat) -> nat
    decreases n,
{
    if n == 0 {
        1
    } else {
        n * factorial((n - 1) as nat)
    }
}

/// The fair draws that choose exactly the numbers of a set.
pub open spec fn ways(min: int, first: int, m: nat, s: Set<int>) -> Set<Seq<int>> {
    Set::new(
        |ds: Seq<int>|
            ds.len() == m && fair(first, ds) && chosen(min, first, ds).to_set() == s,
    )
}

/// The set lies in the range that `m` draws choose from.
pub open spec fn in_range(min: int, first: int, m: nat, s: Set<int>) -> bool {
    forall|x: int| s.contains(x) ==> min <= x < min + first + m
}

/// What the other draws must have chosen if the last one was `t`.
spec fn others(min: int, first: int, m: nat, s: Set<int>, t: int) -> Set<int> {
    let largest = min + first + m - 1;
    if s.contains(largest) {
        s.remove(largest)
    } else {
        s.remove(min + t)
    }
}

/// The ways whose last draw lies in `last`.
spec fn ways_ending(min: int, first: int, m: nat, s: Set<int>, last: Set<int>) -> Set<Seq<int>> {
    Set::new(
        |ds: Seq<int>|
            ds.len() == m && last.contains(min + ds.last()) && ways(
                min,
                first,
                (m - 1) as nat,
                others(min, first, m, s, ds.last()),
            ).contains(ds.drop_last()),
    )
}

/// The way `f` with a last draw.
spec fn ended(t: int) -> spec_fn(Seq<int>) -> Seq<int> {
    |f: Seq<int>| f.push(t)
}

/// A way to a set is a last draw from the set and a way to what the others must
/// be.
proof fn lemma_ways_by_last(min: int, first: int, m: nat, s: Set<int>)
    requires
        0 <= first,
        m > 0,
        in_range(min, first, m, s),
    ensures
        ways(min, first, m, s) == ways_ending(min, first, m, s, s),
{
    let all = ways(min, first, m, s);
    let ending = ways_ending(min, first, m, s, s);
    let largest = min + first + m - 1;
    assert forall|ds: Seq<int>| all.contains(ds) == ending.contains(ds) by {
        if ds.len() == m {
            let front = ds.drop_last();
            let t = ds.last();
            if fair(first, ds) || (fair(first, front) && s.contains(min + t)) {
                assert(fair(first, front)) by {
                    if fair(first, ds) {
                        assert forall|i: int| 0 <= i < front.len() implies 0 <= #[trigger] front[i]
                            <= first + i by {
                            assert(front[i] == ds[i]);
                        }
                    }
                }
                assert(fair(first, ds)) by {
                    if fair(first, front) && s.contains(min + t) {
                        assert forall|i: int| 0 <= i < ds.len() implies 0 <= #[trigger] ds[i]
                            <= first + i by {
                            if i < front.len() {
                                assert(front[i] == ds[i]);
                            }
                        }
                    }
                }
                assert(0 <= ds[m - 1] <= first + m - 1);
                law_chosen_are_distinct(min, first, front);
                law_chosen_are_distinct(min, first, ds);
                let before = chosen(min, first, front);
                let now = chosen(min, first, ds);
                let value = now.last();
                assert(now == before.push(value));
                let b = before.to_set();
                assert(now.to_set() =~= b.insert(value)) by {
                    assert forall|x: int| now.to_set().contains(x) == b.insert(value).contains(
                        x,
                    ) by {
                        if before.contains(x) {
                            let k = choose|k: int| 0 <= k < before.len() && before[k] == x;
                            assert(now[k] == x);
                        }
                        if x == value {
                            assert(now[before.len() as int] == x);
                        }
                    }
                }
                assert(!b.contains(value)) by {
                    if before.contains(value) {
                        let k = choose|k: int| 0 <= k < before.len() && before[k] == value;
                        assert(now[k] == now[before.len() as int]);
                    }
                }
                assert(!b.contains(largest)) by {
                    if before.contains(largest) {
                        let k = choose|k: int| 0 <= k < before.len() && before[k] == largest;
                        assert(before[k] <= min + first + front.len() - 1);
                    }
                }
                let o = others(min, first, m, s, t);
                if all.contains(ds) {
                    assert(b.insert(value) == s);
                    assert(b =~= s.remove(value));
                    assert(b == o);
                    assert(s.contains(min + t));
                }
                if ending.contains(ds) {
                    assert(b == o);
                    assert(b.contains(min + t) == before.contains(min + t));
                    if s.contains(largest) {
                        assert(value == largest);
                        assert(b.insert(largest) =~= s);
                    } else {
                        assert(value == min + t);
                        assert(b.insert(min + t) =~= s);
                    }
                }
            }
        }
    }
    assert(all =~= ending);
}

/// Ways with different last draws are different ways, and there are as many for
/// each.
proof fn lemma_ways_add_up(
    min: int,
    first: int,
    m: nat,
    s: Set<int>,
    last: Set<int>,
    each: nat,
)
    requires
        m > 0,
        last.finite(),
        last.subset_of(s),
        forall|x: int| #[trigger]
            s.contains(x) ==> {
                let w = ways(min, first, (m - 1) as nat, others(min, first, m, s, x - min));
                w.finite() && w.len() == each
            },
    ensures
        ways_ending(min, first, m, s, last).finite(),
        ways_ending(min, first, m, s, last).len() == last.len() * each,
    decreases last.len(),
{
    let u = ways_ending(min, first, m, s, last);
    if last.len() == 0 {
        assert(last =~= Set::empty());
        assert(u =~= Set::empty());
        assert(last.len() * each == 0) by (nonlinear_arith)
            requires
                last.len() == 0,
        ;
    } else {
        let x = last.choose();
        assert(last.contains(x));
        assert(s.contains(x));
        let rest = last.remove(x);
        lemma_ways_add_up(min, first, m, s, rest, each);
        let v = ways_ending(min, first, m, s, rest);
        let t = x - min;
        let w = ways(min, first, (m - 1) as nat, others(min, first, m, s, t));
        let f = ended(t);
        let image = w.map(f);
        w.lemma_map_finite(f);
        assert(vstd::relations::injective_on(f, w)) by {
            assert forall|a: Seq<int>, b: Seq<int>|
                w.contains(a) && w.contains(b) && #[trigger] f(a) == #[trigger] f(b) implies a
                == b by {
                assert(a.push(t).drop_last() =~= a);
                assert(b.push(t).drop_last() =~= b);
            }
        }
        vstd::set_lib::lemma_map_size(w, image, f);
        assert(u =~= v.union(image)) by {
            assert forall|ds: Seq<int>| u.contains(ds) == v.union(image).contains(ds) by {
                if u.contains(ds) && ds.last() == t {
                    let a = ds.drop_last();
                    assert(a.push(t) =~= ds);
                    assert(w.contains(a));
                    assert(f(a) == ds);
                }
                if image.contains(ds) {
                    let a = choose|a: Seq<int>| w.contains(a) && f(a) == ds;
                    assert(a.push(t) == ds);
                    assert(ds.drop_last() =~= a);
                    assert(ds.last() == t);
                    assert(a.len() == m - 1);
                }
            }
        }
        assert(v.disjoint(image)) by {
            assert forall|ds: Seq<int>| v.contains(ds) implies !image.contains(ds) by {
                if image.contains(ds) {
                    let a = choose|a: Seq<int>| w.contains(a) && f(a) == ds;
                    assert(ds.last() == t);
                }
            }
        }
        vstd::set_lib::lemma_set_disjoint_lens(v, image);
        assert(last.len() * each == rest.len() * each + each) by (nonlinear_arith)
            requires
                last.len() == rest.len() + 1,
        ;
    }
}

/// Every set of numbers is as likely as any other of its size: as many of the
/// equally likely fair draws choose it, namely the factorial of its size.
pub proof fn law_every_choice_is_equally_likely(min: int, first: int, m: nat, s: Set<int>)
    requires
        0 <= first,
        s.finite(),
        s.len() == m,
        in_range(min, first, m, s),
    ensures
        ways(min, first, m, s).finite(),
        ways(min, first, m, s).len() == factorial(m),
    decreases m,
{
    let all = ways(min, first, m, s);
    if m == 0 {
        assert(s =~= Set::empty());
        let none: Seq<int> = Seq::empty();
        assert(chosen(min, first, none).to_set() =~= s);
        assert forall|ds: Seq<int>| all.contains(ds) == (ds == none) by {
            if ds.len() == 0 {
                assert(ds =~= none);
            }
        }
        assert(all =~= Set::empty().insert(none));
    } else {
        let largest = min + first + m - 1;
        let n = (m - 1) as nat;
        assert forall|x: int| #[trigger] s.contains(x) implies {
            let w = ways(min, first, n, others(min, first, m, s, x - min));
            w.finite() && w.len() == factorial(n)
        } by {
            let o = others(min, first, m, s, x - min);
            assert(in_range(min, first, n, o)) by {
                assert forall|y: int| o.contains(y) implies min <= y < min + first + n by {
                    assert(s.contains(y));
                    assert(y != largest) by {
                        if !s.contains(largest) {
                        }
                    }
                }
            }
            law_every_choice_is_equally_likely(min, first, n, o);
        }
        lemma_ways_by_last(min, first, m, s);
        lemma_ways_add_up(min, first, m, s, s, factorial(n));
    }
}

} // verus!
