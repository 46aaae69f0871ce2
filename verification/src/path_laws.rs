//! What cleaning, joining, writing and splitting paths mean to each other.
use vstd::prelude::*;

use crate::fs::{
    all_pushed, cleaned, cleaned_from, cleaned_step, descends, extension, file_name,
    joined_parts, joined_text, last_dot, listed, lists, only_parts, parent, parts_from,
    path_parts, path_text, piece_part, pushed, split_all, stem, Component, Entry, Part,
};

verus! {

/// Cleaning goes on from what was cleaned before.
pub proof fn law_cleaning_goes_on(p: Seq<Part>, a: Seq<Part>, b: Seq<Part>)
    ensures
        cleaned_from(p, a + b) == cleaned_from(cleaned_from(p, a), b),
    decreases a.len(),
{
    if a.len() == 0 {
        assert(a + b =~= b);
    } else {
        assert((a + b)[0] == a[0]);
        assert((a + b).skip(1) =~= a.skip(1) + b);
        law_cleaning_goes_on(cleaned_step(p, a[0]), a.skip(1), b);
    }
}

/// A `..` takes away the one name before it and nothing else: whatever the path
/// had been cleaned to before the name, it is cleaned to after both.
pub proof fn law_up_takes_one_name(p: Seq<Part>, name: Seq<char>)
    ensures
        cleaned_from(p, seq![Part::Name(name), Part::Up]) == p,
{
    let cs = seq![Part::Name(name), Part::Up];
    let q = p.push(Part::Name(name));
    assert(cleaned_step(p, cs[0]) == q);
    assert(cs.skip(1)[0] == Part::Up);
    assert(cs.skip(1).skip(1) =~= Seq::empty());
    assert(q.drop_last() =~= p);
    assert(cleaned_from(q, cs.skip(1)) == cleaned_from(cleaned_step(q, Part::Up), cs.skip(1).skip(1)));
}

/// A name is added at the end, whatever the path is so far.
pub proof fn law_names_are_kept(p: Seq<Part>, name: Seq<char>)
    ensures
        cleaned_from(p, seq![Part::Name(name)]) == p.push(Part::Name(name)),
        cleaned_from(p, seq![Part::Here]) == p,
{
    assert(seq![Part::Name(name)].skip(1) =~= Seq::empty());
    assert(seq![Part::Here].skip(1) =~= Seq::empty());
    assert(cleaned_from(p, seq![Part::Name(name)]) == cleaned_from(
        cleaned_step(p, Part::Name(name)),
        seq![Part::Name(name)].skip(1),
    ));
    assert(cleaned_from(p, seq![Part::Here]) == cleaned_from(p, seq![Part::Here].skip(1)));
}

/// Names as a path.
pub open spec fn named(names: Seq<Seq<char>>) -> Seq<Part> {
    names.map_values(|n: Seq<char>| Part::Name(n))
}

/// Any number of `..`.
pub open spec fn ups(n: nat) -> Seq<Part> {
    Seq::new(n, |i: int| Part::Up)
}

proof fn lemma_names(p: Seq<Part>, names: Seq<Seq<char>>)
    ensures
        cleaned_from(p, named(names)) == p + named(names),
    decreases names.len(),
{
    if names.len() == 0 {
        assert(p + named(names) =~= p);
    } else {
        let less = names.drop_last();
        lemma_names(p, less);
        law_cleaning_goes_on(p, named(less), seq![Part::Name(names.last())]);
        law_names_are_kept(p + named(less), names.last());
        assert(named(names) =~= named(less) + seq![Part::Name(names.last())]);
        assert((p + named(less)).push(Part::Name(names.last())) =~= p + named(names));
    }
}

proof fn lemma_ups_after_names(p: Seq<Part>, names: Seq<Seq<char>>, n: nat)
    requires
        n <= names.len(),
    ensures
        cleaned_from(p + named(names), ups(n)) == p + named(names.take(names.len() - n)),
    decreases n,
{
    if n == 0 {
        assert(names.take(names.len() as int) =~= names);
        assert(ups(0) =~= Seq::empty());
    } else {
        let less = names.drop_last();
        lemma_ups_after_names(p, less, (n - 1) as nat);
        let q = p + named(names);
        assert(ups(n)[0] == Part::Up);
        assert(ups(n).skip(1) =~= ups((n - 1) as nat));
        assert(q.last() == Part::Name(names.last()));
        assert(q.drop_last() =~= p + named(less));
        assert(less.take(less.len() - (n - 1)) =~= names.take(names.len() - n));
    }
}

proof fn lemma_ups_alone(k: nat, n: nat)
    ensures
        cleaned_from(ups(k), ups(n)) == ups(k + n),
    decreases n,
{
    if n == 0 {
        assert(ups(0) =~= Seq::empty());
    } else {
        assert(ups(n)[0] == Part::Up);
        assert(ups(n).skip(1) =~= ups((n - 1) as nat));
        let p = ups(k);
        if k > 0 {
            assert(p[0] == Part::Up);
        }
        assert(cleaned_step(p, Part::Up) =~= ups(k + 1));
        lemma_ups_alone(k + 1, (n - 1) as nat);
    }
}

proof fn lemma_ups_at_root(n: nat)
    ensures
        cleaned_from(seq![Part::Root], ups(n)) == seq![Part::Root],
    decreases n,
{
    if n == 0 {
        assert(ups(0) =~= Seq::empty());
    } else {
        assert(ups(n)[0] == Part::Up);
        assert(ups(n).skip(1) =~= ups((n - 1) as nat));
        lemma_ups_at_root((n - 1) as nat);
    }
}

/// Names and then `n` times `..`: that many names are gone from the end; where
/// there are not so many, what is left of the `..` leads up from where the path
/// started, unless that is the root. A path that nothing is left of is `.`.
pub proof fn law_ups_take_names_from_the_end(names: Seq<Seq<char>>, n: nat)
    ensures
        cleaned(named(names) + ups(n)) == if n < names.len() {
            named(names.take(names.len() - n))
        } else if n == names.len() {
            seq![Part::Here]
        } else {
            ups((n - names.len()) as nat)
        },
        cleaned(seq![Part::Root] + named(names) + ups(n)) == if n < names.len() {
            seq![Part::Root] + named(names.take(names.len() - n))
        } else {
            seq![Part::Root]
        },
{
    let empty = Seq::<Part>::empty();
    let root = seq![Part::Root];
    let m = names.len();
    let common: nat = if n < m {
        n
    } else {
        m
    };
    let more = (n - common) as nat;
    assert(ups(n) =~= ups(common) + ups(more));
    // From where the path starts.
    lemma_names(empty, names);
    law_cleaning_goes_on(empty, named(names), ups(n));
    assert(empty + named(names) =~= named(names));
    law_cleaning_goes_on(named(names), ups(common), ups(more));
    lemma_ups_after_names(empty, names, common);
    let kept = names.take(m - common);
    assert(empty + named(kept) =~= named(kept));
    if n >= m {
        assert(named(kept) =~= ups(0));
        lemma_ups_alone(0, more);
        if more == 0 {
            assert(ups(more) =~= empty);
        }
    } else {
        assert(ups(more) =~= empty);
        assert(cleaned_from(named(kept), ups(more)) == named(kept));
    }
    // From the root.
    assert(root + named(names) + ups(n) =~= root + (named(names) + ups(n)));
    law_cleaning_goes_on(empty, root, named(names) + ups(n));
    assert(root.skip(1) =~= empty);
    assert(cleaned_step(empty, Part::Root) =~= root);
    assert(cleaned_from(empty, root) == cleaned_from(root, root.skip(1)));
    lemma_names(root, names);
    law_cleaning_goes_on(root, named(names), ups(n));
    law_cleaning_goes_on(root + named(names), ups(common), ups(more));
    lemma_ups_after_names(root, names, common);
    if n >= m {
        assert(root + named(kept) =~= root);
        lemma_ups_at_root(more);
    } else {
        assert(ups(more) =~= empty);
        assert(cleaned_from(root + named(kept), ups(more)) == root + named(kept));
    }
}

/// A `.` makes no difference, wherever it stands.
pub proof fn law_here_makes_no_difference(a: Seq<Part>, b: Seq<Part>)
    ensures
        cleaned(a + seq![Part::Here] + b) == cleaned(a + b),
{
    let empty = Seq::<Part>::empty();
    let here = seq![Part::Here];
    assert(a + here + b =~= a + (here + b));
    law_cleaning_goes_on(empty, a, here + b);
    law_cleaning_goes_on(cleaned_from(empty, a), here, b);
    law_names_are_kept(cleaned_from(empty, a), Seq::empty());
    law_cleaning_goes_on(empty, a, b);
}

/// Components that are neither prefixes nor roots.
pub open spec fn relative(cs: Seq<Part>) -> bool {
    forall|i: int| 0 <= i < cs.len() ==> !((#[trigger] cs[i]) is Prefix) && !(cs[i] is Root)
}

proof fn lemma_pushed_relative(p: Seq<Part>, cs: Seq<Part>)
    requires
        relative(cs),
    ensures
        all_pushed(p, cs) == p + cs,
    decreases cs.len(),
{
    if cs.len() == 0 {
        assert(p + cs =~= p);
    } else {
        assert(!(cs[0] is Prefix) && !(cs[0] is Root));
        let rest = cs.skip(1);
        assert forall|i: int| 0 <= i < rest.len() implies !((#[trigger] rest[i]) is Prefix) && !(
        rest[i] is Root) by {
            assert(rest[i] == cs[i + 1]);
        }
        lemma_pushed_relative(p.push(cs[0]), rest);
        assert(p.push(cs[0]) + rest =~= p + cs);
    }
}

/// A relative path is joined behind what is there; one from the root takes its
/// place. Here neither has a drive.
pub proof fn law_joining_two_paths(a: Seq<Part>, b: Seq<Part>)
    requires
        relative(a) || a.len() > 0 && a[0] is Root && relative(a.skip(1)),
        relative(b) || b.len() > 0 && b[0] is Root && relative(b.skip(1)),
    ensures
        joined_parts(Seq::empty(), seq![a, b]) == if b.len() > 0 && b[0] is Root {
            b
        } else {
            a + b
        },
{
    let empty = Seq::<Part>::empty();
    let both = seq![a, b];
    assert(both.skip(1)[0] == b);
    assert(both.skip(1).skip(1) =~= Seq::empty());
    assert(joined_parts(empty, both) == joined_parts(all_pushed(empty, a), both.skip(1)));
    assert(all_pushed(empty, a) == a) by {
        if relative(a) {
            lemma_pushed_relative(empty, a);
            assert(empty + a =~= a);
        } else {
            let root = seq![a[0]];
            assert(pushed(empty, a[0]) =~= root);
            lemma_pushed_relative(root, a.skip(1));
            assert(root + a.skip(1) =~= a);
        }
    }
    let q = all_pushed(a, b);
    assert(joined_parts(a, both.skip(1)) == joined_parts(q, both.skip(1).skip(1)));
    if b.len() > 0 && b[0] is Root {
        let root = seq![b[0]];
        assert(!(a.len() > 0 && a[0] is Prefix));
        assert(pushed(a, b[0]) =~= root);
        lemma_pushed_relative(root, b.skip(1));
        assert(root + b.skip(1) =~= b);
    } else {
        lemma_pushed_relative(a, b);
    }
}

/// A file name is its stem, a dot and its extension, and the extension has no dot
/// of its own. A name without an extension has no dot but one that it starts with.
pub proof fn law_names_are_stem_and_extension(name: Seq<char>)
    ensures
        match extension(name) {
            Some(e) => {
                &&& stem(name).len() > 0
                &&& stem(name) + seq!['.'] + e == name
                &&& forall|i: int| 0 <= i < e.len() ==> #[trigger] e[i] != '.'
            },
            None => {
                &&& stem(name) == name
                &&& forall|i: int| 0 < i < name.len() ==> #[trigger] name[i] != '.'
            },
        },
{
    lemma_last_dot(name);
    let d = last_dot(name);
    if d > 0 {
        assert(stem(name) + seq!['.'] + name.skip(d + 1) =~= name);
    }
}

proof fn lemma_last_dot(name: Seq<char>)
    ensures
        -1 <= last_dot(name) < name.len(),
        last_dot(name) >= 0 ==> name[last_dot(name)] == '.',
        forall|i: int| last_dot(name) < i < name.len() ==> #[trigger] name[i] != '.',
    decreases name.len(),
{
    if name.len() > 0 && name.last() != '.' {
        lemma_last_dot(name.drop_last());
        let front = name.drop_last();
        assert forall|i: int| last_dot(front) < i < name.len() implies #[trigger] name[i] != '.' by {
            if i < front.len() {
                assert(front[i] == name[i]);
            }
        }
    }
}

/// A directory tree is read down to the depth asked for and no deeper, all the
/// way where none is asked for, and never through a symbolic link.
pub proof fn law_trees_are_read_to_their_depth(e: Entry, depth: usize, max_depth: usize)
    ensures
        e.is_symlink || !e.is_dir ==> !descends(e, depth, max_depth),
        e.is_dir && !e.is_symlink ==> (descends(e, depth, max_depth) <==> (max_depth == 0 || depth
            < max_depth)),
{
}

/// With an ending asked for, exactly the paths that end so are listed; with none,
/// every path that is text.
pub proof fn law_listed_paths_end_as_asked(front: Seq<char>, ext: Seq<char>, path: Seq<char>)
    ensures
        listed(Some(front + ext), Some(ext)),
        listed(Some(path), None),
        listed(Some(path), Some(ext)) ==> exists|x: Seq<char>| #[trigger] (x + ext) == path,
        !listed(None, Some(ext)),
        !listed(None, None),
{
    let whole = front + ext;
    assert(whole.subrange(whole.len() - ext.len(), whole.len() as int) =~= ext);
    if listed(Some(path), Some(ext)) {
        let x = path.take(path.len() - ext.len());
        assert(x + ext =~= path);
    }
}

/// What reading a path has come to between two of its characters: the components
/// read, the piece begun, and whether nothing has been read yet.
struct Reading {
    done: Seq<(Part, int)>,
    piece: Seq<char>,
    at_start: bool,
}

/// The components with that of the piece begun.
spec fn with_piece(r: Reading, i: int) -> Seq<(Part, int)> {
    match piece_part(r.piece, r.at_start) {
        Some(p) => r.done.push((p, i)),
        None => r.done,
    }
}

/// What reading has come to at a place, from another on.
spec fn run(text: Seq<char>, i: int, n: int, r: Reading) -> Reading
    decreases n - i,
{
    if i >= n {
        r
    } else if text[i] == '/' {
        run(
            text,
            i + 1,
            n,
            Reading { done: with_piece(r, i), piece: Seq::empty(), at_start: false },
        )
    } else {
        run(text, i + 1, n, Reading { piece: r.piece.push(text[i]), ..r })
    }
}

proof fn lemma_run_goes_on(text: Seq<char>, i: int, n: int, r: Reading)
    requires
        0 <= i <= n <= text.len(),
    ensures
        ({
            let q = run(text, i, n, r);
            parts_from(text, i, r.done, r.piece, r.at_start) == parts_from(
                text,
                n,
                q.done,
                q.piece,
                q.at_start,
            )
        }),
    decreases n - i,
{
    if i < n {
        if text[i] == '/' {
            let next = Reading { done: with_piece(r, i), piece: Seq::empty(), at_start: false };
            lemma_run_goes_on(text, i + 1, n, next);
        } else {
            lemma_run_goes_on(text, i + 1, n, Reading { piece: r.piece.push(text[i]), ..r });
        }
    }
}

proof fn lemma_run_adds(text: Seq<char>, i: int, m: int, n: int, r: Reading)
    requires
        i <= m <= n,
    ensures
        run(text, i, n, r) == run(text, m, n, run(text, i, m, r)),
    decreases m - i,
{
    if i < m {
        if text[i] == '/' {
            let next = Reading { done: with_piece(r, i), piece: Seq::empty(), at_start: false };
            lemma_run_adds(text, i + 1, m, n, next);
        } else {
            lemma_run_adds(text, i + 1, m, n, Reading { piece: r.piece.push(text[i]), ..r });
        }
    }
}

proof fn lemma_run_same(text: Seq<char>, other: Seq<char>, i: int, n: int, r: Reading)
    requires
        0 <= i <= n <= text.len(),
        n <= other.len(),
        forall|k: int| 0 <= k < n ==> text[k] == other[k],
    ensures
        run(text, i, n, r) == run(other, i, n, r),
    decreases n - i,
{
    if i < n {
        if text[i] == '/' {
            let next = Reading { done: with_piece(r, i), piece: Seq::empty(), at_start: false };
            lemma_run_same(text, other, i + 1, n, next);
        } else {
            lemma_run_same(
                text,
                other,
                i + 1,
                n,
                Reading { piece: r.piece.push(text[i]), ..r },
            );
        }
    }
}

/// A text with no slash in it.
pub open spec fn slashless(x: Seq<char>) -> bool {
    forall|i: int| 0 <= i < x.len() ==> #[trigger] x[i] != '/'
}

proof fn lemma_run_piece(text: Seq<char>, i: int, n: int, r: Reading)
    requires
        0 <= i <= n <= text.len(),
        forall|k: int| i <= k < n ==> text[k] != '/',
    ensures
        run(text, i, n, r) == (Reading { piece: r.piece + text.subrange(i, n), ..r }),
    decreases n - i,
{
    if i < n {
        let next = r.piece.push(text[i]);
        lemma_run_piece(text, i + 1, n, Reading { piece: next, ..r });
        assert(next + text.subrange(i + 1, n) =~= r.piece + text.subrange(i, n));
    } else {
        assert(r.piece + text.subrange(i, n) =~= r.piece);
    }
}

/// The text of a component behind a separator, or of the first.
pub open spec fn piece_of(p: Part) -> Seq<char> {
    match p {
        Part::Name(s) => s,
        Part::Up => seq!['.', '.'],
        _ => seq!['.'],
    }
}

/// A path whose text says what it is: a root only at its start, a `.` only alone
/// there, and names that are no other component and have no slash.
pub open spec fn writable(p: Seq<Part>) -> bool {
    forall|i: int|
        0 <= i < p.len() ==> match #[trigger] p[i] {
            Part::Prefix(_) => false,
            Part::Root => i == 0,
            Part::Here => i == 0,
            Part::Up => true,
            Part::Name(s) => s.len() > 0 && slashless(s) && s != seq!['.'] && s != seq!['.', '.'],
        }
}

/// How reading a path starts.
spec fn start_of(p: Seq<Part>) -> (int, Reading) {
    if p.len() > 0 && p[0] is Root {
        (1, Reading { done: seq![(Part::Root, 1int)], piece: Seq::empty(), at_start: false })
    } else {
        (0, Reading { done: Seq::empty(), piece: Seq::empty(), at_start: true })
    }
}

proof fn lemma_piece(p: Part, at_start: bool)
    requires
        match p {
            Part::Prefix(_) => false,
            Part::Root => false,
            Part::Here => at_start,
            Part::Up => true,
            Part::Name(s) => s.len() > 0 && slashless(s) && s != seq!['.'] && s != seq!['.', '.'],
        },
    ensures
        piece_part(piece_of(p), at_start) == Some(p),
        slashless(piece_of(p)),
{
    let dot = seq!['.'];
    let dots = seq!['.', '.'];
    assert(dot.len() != dots.len());
    assert(slashless(dot)) by {
        assert(dot[0] == '.');
    }
    assert(slashless(dots)) by {
        assert(dots[0] == '.' && dots[1] == '.');
    }
}

proof fn lemma_text_read(p: Seq<Part>)
    requires
        writable(p),
        p.len() > 0,
        !(p.last() is Root),
    ensures
        ({
            let text = path_text(p, '/');
            let (a, r) = start_of(p);
            let q = run(text, a, text.len() as int, r);
            &&& a <= text.len()
            &&& p[0] is Root ==> text[0] == '/'
            &&& !(p[0] is Root) ==> text.len() > 0 && text[0] != '/'
            &&& piece_part(q.piece, q.at_start) == Some(p.last())
            &&& only_parts(q.done) == p.drop_last()
        }),
    decreases p.len(),
{
    let text = path_text(p, '/');
    let (a, r) = start_of(p);
    let front = p.drop_last();
    let before = path_text(front, '/');
    let x = piece_of(p.last());
    let n = text.len() as int;
    lemma_piece(p.last(), p.len() == 1);
    assert(p.len() > 1 ==> !(p.last() is Here)) by {
        assert(match p[p.len() - 1] {
            Part::Here => p.len() - 1 == 0,
            _ => true,
        });
    }
    if p.len() == 1 {
        assert(front =~= Seq::empty());
        assert(text =~= x);
        lemma_run_piece(text, 0, n, r);
        assert(text.subrange(0, n) =~= x);
        assert(Seq::<char>::empty() + x =~= x);
        assert(only_parts(r.done) =~= front);
        assert(x.len() > 0 && x[0] != '/');
    } else if p.len() == 2 && p[0] is Root {
        assert(front =~= seq![Part::Root]);
        assert(front.drop_last() =~= Seq::empty());
        assert(before =~= seq!['/']) by {
            assert(path_text(front.drop_last(), '/') =~= Seq::empty());
        }
        assert(text =~= seq!['/'] + x);
        assert forall|k: int| 1 <= k < n implies text[k] != '/' by {
            assert(text[k] == x[k - 1]);
        }
        lemma_run_piece(text, 1, n, r);
        assert(text.subrange(1, n) =~= x);
        assert(Seq::<char>::empty() + x =~= x);
        assert(only_parts(r.done) =~= front);
    } else {
        assert forall|i: int| 0 <= i < front.len() implies match #[trigger] front[i] {
            Part::Prefix(_) => false,
            Part::Root => i == 0,
            Part::Here => i == 0,
            Part::Up => true,
            Part::Name(s) => s.len() > 0 && slashless(s) && s != seq!['.'] && s != seq!['.', '.'],
        } by {
            assert(front[i] == p[i]);
        }
        assert(!(front.last() is Root)) by {
            assert(front.last() == p[p.len() - 2]);
            assert(match p[p.len() - 2] {
                Part::Root => p.len() - 2 == 0,
                _ => true,
            });
        }
        assert(!(front.last() is Prefix)) by {
            assert(front.last() == p[p.len() - 2]);
        }
        lemma_text_read(front);
        assert(start_of(front) == start_of(p));
        let m = before.len() as int;
        assert(text =~= before.push('/') + x);
        assert forall|k: int| 0 <= k < m implies text[k] == before[k] by {}
        lemma_run_same(text, before, a, m, r);
        let q = run(before, a, m, r);
        lemma_run_adds(text, a, m, n, r);
        let next = Reading { done: with_piece(q, m), piece: Seq::empty(), at_start: false };
        assert(text[m] == '/');
        assert(run(text, m, n, q) == run(text, m + 1, n, next));
        assert forall|k: int| m + 1 <= k < n implies text[k] != '/' by {
            assert(text[k] == x[k - m - 1]);
        }
        lemma_run_piece(text, m + 1, n, next);
        assert(text.subrange(m + 1, n) =~= x);
        assert(Seq::<char>::empty() + x =~= x);
        assert(next.done == q.done.push((front.last(), m)));
        assert(only_parts(next.done) =~= only_parts(q.done).push(front.last()));
        assert(front.drop_last().push(front.last()) =~= front);
        lemma_piece(p.last(), false);
    }
}

/// A path that is written down with slashes is read back as it was.
pub proof fn law_written_paths_are_read_back(p: Seq<Part>)
    requires
        writable(p),
    ensures
        only_parts(path_parts(path_text(p, '/'))) == p,
{
    let text = path_text(p, '/');
    if p.len() == 0 {
        assert(only_parts(path_parts(text)) =~= p);
    } else if p.last() is Root {
        assert(p.len() == 1) by {
            assert(match p[p.len() - 1] {
                Part::Root => p.len() - 1 == 0,
                _ => true,
            });
        }
        assert(p.drop_last() =~= Seq::empty());
        assert(path_text(p.drop_last(), '/') =~= Seq::empty());
        assert(text =~= seq!['/']);
        assert(only_parts(path_parts(text)) =~= p);
    } else {
        lemma_text_read(p);
        let (a, r) = start_of(p);
        let n = text.len() as int;
        let q = run(text, a, n, r);
        lemma_run_goes_on(text, a, n, r);
        assert(path_parts(text) == q.done.push((p.last(), n)));
        assert(only_parts(q.done.push((p.last(), n))) =~= only_parts(q.done).push(p.last()));
        assert(p.drop_last().push(p.last()) =~= p);
    }
}

proof fn lemma_done_stays(
    text: Seq<char>,
    i: int,
    done: Seq<(Part, int)>,
    piece: Seq<char>,
    at_start: bool,
)
    ensures
        ({
            let all = parts_from(text, i, done, piece, at_start);
            done.len() <= all.len() && all.take(done.len() as int) == done
        }),
    decreases text.len() - i,
{
    let w = with_piece(Reading { done, piece, at_start }, i);
    assert(w.take(done.len() as int) =~= done);
    if 0 <= i < text.len() {
        if text[i] == '/' {
            lemma_done_stays(text, i + 1, w, Seq::empty(), false);
            let all = parts_from(text, i, done, piece, at_start);
            assert(all.take(done.len() as int) =~= all.take(w.len() as int).take(done.len() as int));
        } else {
            lemma_done_stays(text, i + 1, done, piece.push(text[i]), at_start);
        }
    }
}

/// Reading a path only up to where one of its components ends gives the components
/// up to that one.
proof fn lemma_cut(
    text: Seq<char>,
    i: int,
    done: Seq<(Part, int)>,
    piece: Seq<char>,
    at_start: bool,
    k: int,
)
    requires
        0 <= i <= text.len(),
        done.len() <= k < parts_from(text, i, done, piece, at_start).len(),
    ensures
        ({
            let all = parts_from(text, i, done, piece, at_start);
            let e = all[k].1;
            &&& i <= e <= text.len()
            &&& parts_from(text.take(e), i, done, piece, at_start) == all.take(k + 1)
        }),
    decreases text.len() - i,
{
    let all = parts_from(text, i, done, piece, at_start);
    let w = with_piece(Reading { done, piece, at_start }, i);
    if i >= text.len() {
        assert(text.take(i) =~= text);
        assert(all.take(k + 1) =~= all);
    } else if text[i] == '/' {
        lemma_done_stays(text, i + 1, w, Seq::empty(), false);
        if k < w.len() {
            assert(all[k] == all.take(w.len() as int)[k]);
            assert(all.take(k + 1) =~= w);
            assert(parts_from(text.take(i), i, done, piece, at_start) == w);
        } else {
            lemma_cut(text, i + 1, w, Seq::empty(), false, k);
            let e = all[k].1;
            assert(text.take(e)[i] == '/');
        }
    } else {
        lemma_cut(text, i + 1, done, piece.push(text[i]), at_start, k);
        let e = all[k].1;
        assert(text.take(e)[i] == text[i]);
    }
}

/// The parent of a path is the text that it starts with and has all its components
/// but the last, and the file name is that last one where it is a name. A path
/// with nothing in it, and the root, have no parent.
pub proof fn law_paths_are_parent_and_name(text: Seq<char>)
    ensures
        match parent(text) {
            Some(p) => {
                &&& p.is_prefix_of(text)
                &&& path_parts(text).len() > 0
                &&& only_parts(path_parts(p)) == only_parts(path_parts(text)).drop_last()
            },
            None => only_parts(path_parts(text)).len() == 0 || only_parts(path_parts(text)).last()
                is Root,
        },
        match file_name(text) {
            Some(n) => path_parts(text).len() > 0 && only_parts(path_parts(text)).last()
                == Part::Name(n),
            None => path_parts(text).len() == 0 || !(only_parts(path_parts(text)).last() is Name),
        },
{
    let ps = path_parts(text);
    if ps.len() > 0 {
        assert(only_parts(ps).last() == ps.last().0);
    }
    if let Some(p) = parent(text) {
        if ps.len() == 1 {
            assert(only_parts(path_parts(p)) =~= only_parts(ps).drop_last());
        } else {
            let k = ps.len() - 2;
            let e = ps[k].1;
            if text[0] == '/' && text.len() > 0 {
                let root = seq![(Part::Root, 1int)];
                lemma_done_stays(text, 1, root, Seq::empty(), false);
                if k == 0 {
                    assert(ps[0] == ps.take(1)[0]);
                    assert(text.take(1) =~= seq!['/']);
                    assert(path_parts(seq!['/']) =~= root);
                    assert(ps.take(1) =~= root);
                } else {
                    lemma_cut(text, 1, root, Seq::empty(), false, k);
                    assert(text.take(e)[0] == '/');
                }
            } else {
                lemma_cut(text, 0, Seq::empty(), Seq::empty(), true, k);
                if e > 0 {
                    assert(text.take(e)[0] == text[0]);
                }
            }
            assert(path_parts(p) == ps.take(k + 1));
            assert(only_parts(ps.take(k + 1)) =~= only_parts(ps).drop_last());
        }
    }
}

/// The text of a path with a drive is the drive and the text of the rest, with
/// nothing between.
pub proof fn law_drives_are_written_in_front(s: Seq<char>, p: Seq<Part>, separator: char)
    ensures
        path_text(seq![Part::Prefix(s)] + p, separator) == s + path_text(p, separator),
    decreases p.len(),
{
    let all = seq![Part::Prefix(s)] + p;
    if p.len() == 0 {
        assert(all.drop_last() =~= Seq::empty());
        assert(path_text(all.drop_last(), separator) =~= Seq::empty());
        assert(all.last() == Part::Prefix(s));
        assert(path_text(all, separator) =~= s + path_text(p, separator));
    } else {
        let front = p.drop_last();
        law_drives_are_written_in_front(s, front, separator);
        assert(all.drop_last() =~= seq![Part::Prefix(s)] + front);
        assert(all.last() == p.last());
        if front.len() > 0 {
            assert(all.drop_last().last() == front.last());
        } else {
            assert(all.drop_last().last() == Part::Prefix(s));
        }
        assert(path_text(all, separator) =~= s + path_text(p, separator));
    }
}

/// A path with a drive takes the place of what it is joined to; one from the root
/// keeps the drive that is there.
pub proof fn law_joining_with_drives(a: Seq<Part>, s: Seq<char>, b: Seq<Part>)
    requires
        relative(b),
    ensures
        all_pushed(a, seq![Part::Prefix(s)] + b) == seq![Part::Prefix(s)] + b,
        a.len() > 0 && a[0] is Prefix ==> all_pushed(a, seq![Part::Root] + b) == seq![
            a[0],
            Part::Root,
        ] + b,
{
    let c = seq![Part::Prefix(s)] + b;
    assert(c[0] == Part::Prefix(s));
    assert(c.skip(1) =~= b);
    lemma_pushed_relative(seq![Part::Prefix(s)], b);
    if a.len() > 0 && a[0] is Prefix {
        let d = seq![Part::Root] + b;
        assert(d[0] == Part::Root);
        assert(d.skip(1) =~= b);
        lemma_pushed_relative(seq![a[0], Part::Root], b);
    }
}

proof fn lemma_named_text(names: Seq<Seq<char>>, name: Seq<char>, separator: char)
    requires
        names.len() > 0,
    ensures
        path_text(named(names.push(name)), separator) == path_text(named(names), separator)
            + seq![separator] + name,
{
    let all = named(names.push(name));
    assert(all.drop_last() =~= named(names));
    assert(all.last() == Part::Name(name));
    assert(named(names).last() == Part::Name(names.last()));
    assert(path_text(all, separator) =~= path_text(named(names), separator) + seq![separator]
        + name);
}

/// The text of names is the names with the separator between them, whatever that
/// is; from the root it starts with the separator.
pub proof fn law_names_are_written_with_separators(
    names: Seq<Seq<char>>,
    name: Seq<char>,
    separator: char,
)
    ensures
        path_text(named(seq![name]), separator) == name,
        names.len() > 0 ==> path_text(named(names.push(name)), separator) == path_text(
            named(names),
            separator,
        ) + seq![separator] + name,
        path_text(seq![Part::Root], separator) == seq![separator],
        path_text(seq![Part::Root, Part::Name(name)], separator) == seq![separator] + name,
{
    let empty = Seq::<Part>::empty();
    assert(path_text(empty, separator) =~= Seq::empty());
    let one = named(seq![name]);
    assert(one.drop_last() =~= empty);
    assert(one.last() == Part::Name(name));
    assert(path_text(one, separator) =~= name);
    if names.len() > 0 {
        lemma_named_text(names, name, separator);
    }
    let root = seq![Part::Root];
    assert(root.drop_last() =~= empty);
    assert(path_text(root, separator) =~= seq![separator]);
    let two = seq![Part::Root, Part::Name(name)];
    assert(two.drop_last() =~= root);
    assert(two.last() == Part::Name(name));
    assert(path_text(two, separator) =~= seq![separator] + name);
}

/// Joining goes on from what was joined before.
pub proof fn law_joining_goes_on(p: Seq<Part>, a: Seq<Seq<Part>>, b: Seq<Seq<Part>>)
    ensures
        joined_parts(p, a + b) == joined_parts(joined_parts(p, a), b),
    decreases a.len(),
{
    if a.len() == 0 {
        assert(a + b =~= b);
    } else {
        assert((a + b)[0] == a[0]);
        assert((a + b).skip(1) =~= a.skip(1) + b);
        law_joining_goes_on(all_pushed(p, a[0]), a.skip(1), b);
    }
}

/// On a drive a `..` leads up from where the drive stands, and at its root nowhere.
pub proof fn law_ups_on_drives(s: Seq<char>, n: nat)
    ensures
        cleaned_from(seq![Part::Prefix(s)] + ups(n), ups(1)) == seq![Part::Prefix(s)] + ups(n + 1),
        cleaned_from(seq![Part::Prefix(s), Part::Root], ups(n)) == seq![
            Part::Prefix(s),
            Part::Root,
        ],
    decreases n,
{
    let d = seq![Part::Prefix(s)] + ups(n);
    assert(ups(1)[0] == Part::Up);
    assert(ups(1).skip(1) =~= Seq::empty());
    assert(d[0] == Part::Prefix(s));
    if n > 0 {
        assert(d.last() == Part::Up);
        assert(d[1] == Part::Up);
    }
    assert(cleaned_step(d, Part::Up) =~= seq![Part::Prefix(s)] + ups(n + 1));
    assert(cleaned_from(d, ups(1)) == cleaned_from(cleaned_step(d, Part::Up), ups(1).skip(1)));
    let r = seq![Part::Prefix(s), Part::Root];
    if n == 0 {
        assert(ups(0) =~= Seq::empty());
    } else {
        law_ups_on_drives(s, (n - 1) as nat);
        assert(ups(n)[0] == Part::Up);
        assert(ups(n).skip(1) =~= ups((n - 1) as nat));
        assert(r.last() == Part::Root);
        assert(cleaned_step(r, Part::Up) == r);
    }
}

/// Paths given as components are joined, cleaned and written down; paths that are
/// written with slashes are read for that first.
pub proof fn law_joining_is_reading_cleaning_and_writing(
    paths: Seq<Vec<Component>>,
    texts: Seq<String>,
    separator: char,
    i: int,
)
    ensures
        joined_text(paths, separator) == path_text(
            cleaned(joined_parts(Seq::empty(), lists(paths))),
            separator,
        ),
        lists(paths).len() == paths.len(),
        split_all(texts).len() == texts.len(),
        0 <= i < texts.len() ==> split_all(texts)[i] == only_parts(path_parts(texts[i]@)),
{
}

} // verus!
