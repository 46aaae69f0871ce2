//! Paths as lists of components, and the walk of a directory tree.
use vstd::prelude::*;
use vstd::string::*;

use crate::text::{chars_text, push_char, text_chars};

verus! {

/// A part of a path.
#[derive(Debug, PartialEq)]
pub enum Component {
    /// A drive or share, where paths have one.
    Prefix(String),
    RootDir,
    CurDir,
    ParentDir,
    Normal(String),
}

/// Model of [`Component`].
pub enum Part {
    Prefix(Seq<char>),
    Root,
    Here,
    Up,
    Name(Seq<char>),
}

impl View for Component {
    type V = Part;

    open spec fn view(&self) -> Part {
        match *self {
            Component::Prefix(s) => Part::Prefix(s@),
            Component::RootDir => Part::Root,
            Component::CurDir => Part::Here,
            Component::ParentDir => Part::Up,
            Component::Normal(s) => Part::Name(s@),
        }
    }
}

pub open spec fn parts(cs: Seq<Component>) -> Seq<Part> {
    cs.map_values(|c: Component| c@)
}

/// The parts of a path after a component was pushed on it: a prefix replaces all
/// of it, a root all but its prefix.
pub open spec fn pushed(p: Seq<Part>, c: Part) -> Seq<Part> {
    match c {
        Part::Prefix(_) => seq![c],
        Part::Root => if p.len() > 0 && p[0] is Prefix {
            seq![p[0], c]
        } else {
            seq![c]
        },
        _ => p.push(c),
    }
}

/// Whether a path starts at a root.
pub open spec fn rooted(p: Seq<Part>) -> bool {
    (p.len() > 0 && p[0] is Root) || (p.len() > 1 && p[0] is Prefix && p[1] is Root)
}

/// The clean path after one more component.
pub open spec fn cleaned_step(p: Seq<Part>, c: Part) -> Seq<Part> {
    match c {
        Part::Here => p,
        Part::Up => if p.len() > 0 && p.last() is Name {
            p.drop_last()
        } else if !rooted(p) {
            p.push(c)
        } else {
            p
        },
        _ => pushed(p, c),
    }
}

/// The clean path of components, after those in `done`.
pub open spec fn cleaned_from(done: Seq<Part>, cs: Seq<Part>) -> Seq<Part>
    decreases cs.len(),
{
    if cs.len() == 0 {
        done
    } else {
        cleaned_from(cleaned_step(done, cs[0]), cs.skip(1))
    }
}

/// A path without `.` components, and without `..` ones that a name before them
/// takes away; one that nothing is left of is `.`.
pub open spec fn cleaned(cs: Seq<Part>) -> Seq<Part> {
    let p = cleaned_from(Seq::empty(), cs);
    if p.len() == 0 {
        seq![Part::Here]
    } else {
        p
    }
}

/// Paths one after another: an absolute one starts anew.
pub open spec fn joined_parts(done: Seq<Part>, paths: Seq<Seq<Part>>) -> Seq<Part>
    decreases paths.len(),
{
    if paths.len() == 0 {
        done
    } else {
        joined_parts(all_pushed(done, paths[0]), paths.skip(1))
    }
}

/// A path with the components of another pushed on it.
pub open spec fn all_pushed(p: Seq<Part>, cs: Seq<Part>) -> Seq<Part>
    decreases cs.len(),
{
    if cs.len() == 0 {
        p
    } else {
        all_pushed(pushed(p, cs[0]), cs.skip(1))
    }
}

/// The text of a path.
pub open spec fn path_text(p: Seq<Part>, separator: char) -> Seq<char>
    decreases p.len(),
{
    if p.len() == 0 {
        Seq::empty()
    } else {
        let front = path_text(p.drop_last(), separator);
        match p.last() {
            Part::Prefix(s) => front + s,
            Part::Root => front.push(separator),
            Part::Here => spaced(front, p.drop_last(), separator) + seq!['.'],
            Part::Up => spaced(front, p.drop_last(), separator) + seq!['.', '.'],
            Part::Name(s) => spaced(front, p.drop_last(), separator) + s,
        }
    }
}

/// A text with a separator behind it, where the path before asks for one.
pub open spec fn spaced(text: Seq<char>, before: Seq<Part>, separator: char) -> Seq<char> {
    if before.len() > 0 && (before.last() is Name || before.last() is Up || before.last() is Here) {
        text.push(separator)
    } else {
        text
    }
}

/// Pushes a component on a path.
fn push_component(out: &mut Vec<Component>, c: Component)
    ensures
        parts(final(out)@) == pushed(parts(old(out)@), c@),
{
    let keep: usize = match &c {
        Component::Prefix(_) => 0,
        Component::RootDir => if out.len() > 0 {
            match &out[0] {
                Component::Prefix(_) => 1,
                _ => 0,
            }
        } else {
            0
        },
        _ => out.len(),
    };
    let ghost before = parts(out@);
    if out.len() > 0 {
        assert(before[0] == out@[0]@);
    }
    out.truncate(keep);
    out.push(c);
    assert(parts(out@) =~= pushed(before, c@));
}

/// Whether a path starts at a root.
fn has_root(out: &Vec<Component>) -> (r: bool)
    ensures
        r == rooted(parts(out@)),
{
    if out.len() == 0 {
        return false;
    }
    assert(parts(out@)[0] == out@[0]@);
    match &out[0] {
        Component::RootDir => true,
        Component::Prefix(_) => if out.len() > 1 {
            assert(parts(out@)[1] == out@[1]@);
            match &out[1] {
                Component::RootDir => true,
                _ => false,
            }
        } else {
            false
        },
        _ => false,
    }
}

/// A copy of a component.
fn copy_component(c: &Component) -> (r: Component)
    ensures
        r@ == c@,
{
    match c {
        Component::Prefix(s) => Component::Prefix(s.clone()),
        Component::RootDir => Component::RootDir,
        Component::CurDir => Component::CurDir,
        Component::ParentDir => Component::ParentDir,
        Component::Normal(s) => Component::Normal(s.clone()),
    }
}

/// Cleans a path, by its components alone.
pub fn lexical_clean(path: &Vec<Component>) -> (r: Vec<Component>)
    ensures
        parts(r@) == cleaned(parts(path@)),
{
    let mut out: Vec<Component> = Vec::new();
    let ghost cs = parts(path@);
    let ghost want = cleaned_from(Seq::empty(), cs);
    let mut i: usize = 0;
    assert(parts(out@) =~= Seq::empty());
    assert(cs.skip(0) =~= cs);
    while i < path.len()
        invariant
            cs == parts(path@),
            i <= cs.len(),
            want == cleaned_from(Seq::empty(), cs),
            want == cleaned_from(parts(out@), cs.skip(i as int)),
        decreases cs.len() - i,
    {
        let ghost rest = cs.skip(i as int);
        let ghost before = parts(out@);
        assert(rest[0] == path@[i as int]@);
        assert(rest.skip(1) =~= cs.skip(i + 1));
        match &path[i] {
            Component::CurDir => {},
            Component::ParentDir => {
                let after_name: bool = if out.len() > 0 {
                    assert(before.last() == out@[out@.len() - 1]@);
                    match &out[out.len() - 1] {
                        Component::Normal(_) => true,
                        _ => false,
                    }
                } else {
                    false
                };
                if after_name {
                    let _name = out.pop();
                    assert(parts(out@) =~= before.drop_last());
                } else if !has_root(&out) {
                    out.push(Component::ParentDir);
                    assert(parts(out@) =~= before.push(Part::Up));
                }
            },
            c => {
                push_component(&mut out, copy_component(c));
            },
        }
        i = i + 1;
    }
    assert(cs.skip(i as int) =~= Seq::empty());
    if out.len() == 0 {
        out.push(Component::CurDir);
        assert(parts(out@) =~= seq![Part::Here]);
    }
    out
}

/// The text of a path.
pub fn render(path: &Vec<Component>, separator: char) -> (r: String)
    ensures
        r@ == path_text(parts(path@), separator),
{
    let mut s = String::new();
    let ghost cs = parts(path@);
    let mut i: usize = 0;
    assert(cs.take(0) =~= Seq::empty());
    assert(s@ =~= path_text(cs.take(0), separator));
    while i < path.len()
        invariant
            cs == parts(path@),
            i <= cs.len(),
            s@ == path_text(cs.take(i as int), separator),
        decreases cs.len() - i,
    {
        let ghost p = cs.take(i + 1);
        let ghost front = s@;
        assert(p.drop_last() =~= cs.take(i as int));
        assert(p.last() == path@[i as int]@);
        let space: bool = if i > 0 {
            assert(cs.take(i as int).last() == path@[i - 1]@);
            match &path[i - 1] {
                Component::Prefix(_) | Component::RootDir => false,
                _ => true,
            }
        } else {
            false
        };
        match &path[i] {
            Component::Prefix(text) => {
                s.append(text.as_str());
            },
            Component::RootDir => {
                push_char(&mut s, separator);
            },
            c => {
                if space {
                    push_char(&mut s, separator);
                }
                assert(s@ == spaced(front, cs.take(i as int), separator));
                let ghost mid = s@;
                match c {
                    Component::CurDir => {
                        push_char(&mut s, '.');
                        assert(s@ =~= mid + seq!['.']);
                    },
                    Component::ParentDir => {
                        push_char(&mut s, '.');
                        push_char(&mut s, '.');
                        assert(s@ =~= mid + seq!['.', '.']);
                    },
                    Component::Normal(text) => {
                        s.append(text.as_str());
                    },
                    _ => {},
                }
            },
        }
        i = i + 1;
    }
    assert(cs.take(i as int) =~= cs);
    s
}

/// Joins paths given as components, and cleans the result.
pub fn join_components(paths: &Vec<Vec<Component>>, separator: char) -> (r: String)
    ensures
        r@ == joined_text(paths@, separator),
{
    let mut all: Vec<Component> = Vec::new();
    let ghost ps = lists(paths@);
    let ghost want = joined_parts(Seq::empty(), ps);
    let mut i: usize = 0;
    assert(parts(all@) =~= Seq::empty());
    assert(ps.skip(0) =~= ps);
    while i < paths.len()
        invariant
            ps == lists(paths@),
            i <= ps.len(),
            want == joined_parts(Seq::empty(), ps),
            want == joined_parts(parts(all@), ps.skip(i as int)),
        decreases ps.len() - i,
    {
        assert(ps.skip(i as int)[0] == parts(paths@[i as int]@));
        assert(ps.skip(i as int).skip(1) =~= ps.skip(i + 1));
        push_all(&mut all, &paths[i]);
        i = i + 1;
    }
    assert(ps.skip(i as int) =~= Seq::empty());
    let clean = lexical_clean(&all);
    render(&clean, separator)
}

/// Pushes the components of a path on another.
fn push_all(out: &mut Vec<Component>, path: &Vec<Component>)
    ensures
        parts(final(out)@) == all_pushed(parts(old(out)@), parts(path@)),
{
    let ghost cs = parts(path@);
    let ghost want = all_pushed(parts(out@), cs);
    let mut i: usize = 0;
    assert(cs.skip(0) =~= cs);
    while i < path.len()
        invariant
            cs == parts(path@),
            i <= cs.len(),
            want == all_pushed(parts(out@), cs.skip(i as int)),
        decreases cs.len() - i,
    {
        assert(cs.skip(i as int)[0] == path@[i as int]@);
        assert(cs.skip(i as int).skip(1) =~= cs.skip(i + 1));
        push_component(out, copy_component(&path[i]));
        i = i + 1;
    }
    assert(cs.skip(i as int) =~= Seq::empty());
}

pub open spec fn lists(paths: Seq<Vec<Component>>) -> Seq<Seq<Part>> {
    paths.map_values(|p: Vec<Component>| parts(p@))
}

/// The text of paths given as components, joined and cleaned.
pub open spec fn joined_text(paths: Seq<Vec<Component>>, separator: char) -> Seq<char> {
    path_text(cleaned(joined_parts(Seq::empty(), lists(paths))), separator)
}

/// The component that a piece of text between separators stands for, if any. A
/// lone dot counts only at the start of a path.
pub open spec fn piece_part(piece: Seq<char>, at_start: bool) -> Option<Part> {
    if piece.len() == 0 {
        None
    } else if piece == seq!['.'] {
        if at_start {
            Some(Part::Here)
        } else {
            None
        }
    } else if piece == seq!['.', '.'] {
        Some(Part::Up)
    } else {
        Some(Part::Name(piece))
    }
}

/// The components of text from a place on, each with the place where it ends,
/// after those in `done` and with a piece begun.
pub open spec fn parts_from(
    text: Seq<char>,
    i: int,
    done: Seq<(Part, int)>,
    piece: Seq<char>,
    at_start: bool,
) -> Seq<(Part, int)>
    decreases text.len() - i,
{
    let with_piece = match piece_part(piece, at_start) {
        Some(p) => done.push((p, i)),
        None => done,
    };
    if i < 0 || i >= text.len() {
        with_piece
    } else if text[i] == '/' {
        parts_from(text, i + 1, with_piece, Seq::empty(), false)
    } else {
        parts_from(text, i + 1, done, piece.push(text[i]), at_start)
    }
}

/// The components of a path that is written with slashes, each with the place
/// where it ends.
pub open spec fn path_parts(text: Seq<char>) -> Seq<(Part, int)> {
    if text.len() > 0 && text[0] == '/' {
        parts_from(text, 1, seq![(Part::Root, 1int)], Seq::empty(), false)
    } else {
        parts_from(text, 0, Seq::empty(), Seq::empty(), true)
    }
}

/// Places left out.
pub open spec fn only_parts(ps: Seq<(Part, int)>) -> Seq<Part> {
    ps.map_values(|e: (Part, int)| e.0)
}

pub open spec fn view_placed(v: Seq<(Component, usize)>) -> Seq<(Part, int)> {
    v.map_values(|e: (Component, usize)| (e.0@, e.1 as int))
}

/// The component that a piece of text stands for, if any.
fn piece_component(piece: &Vec<char>, at_start: bool) -> (r: Option<Component>)
    ensures
        match r {
            Some(c) => piece_part(piece@, at_start) == Some(c@),
            None => piece_part(piece@, at_start) is None,
        },
{
    let n = piece.len();
    if n == 0 {
        None
    } else if n == 1 && piece[0] == '.' {
        assert(piece@ =~= seq!['.']);
        if at_start {
            Some(Component::CurDir)
        } else {
            None
        }
    } else if n == 2 && piece[0] == '.' && piece[1] == '.' {
        assert(piece@ =~= seq!['.', '.']);
        Some(Component::ParentDir)
    } else {
        assert(piece@ != seq!['.']);
        assert(piece@ != seq!['.', '.']);
        Some(Component::Normal(chars_text(piece.as_slice())))
    }
}

/// The components of a path that is written with slashes, each with the place
/// where it ends.
fn placed_components(text: &Vec<char>) -> (r: Vec<(Component, usize)>)
    ensures
        view_placed(r@) == path_parts(text@),
{
    let mut done: Vec<(Component, usize)> = Vec::new();
    let mut piece: Vec<char> = Vec::new();
    let mut at_start = true;
    let mut i: usize = 0;
    if text.len() > 0 && text[0] == '/' {
        done.push((Component::RootDir, 1));
        at_start = false;
        i = 1;
    }
    let ghost want = path_parts(text@);
    assert(view_placed(done@) =~= if text@.len() > 0 && text@[0] == '/' {
        seq![(Part::Root, 1int)]
    } else {
        Seq::empty()
    });
    assert(piece@ =~= Seq::empty());
    loop
        invariant
            i <= text@.len(),
            want == path_parts(text@),
            want == parts_from(text@, i as int, view_placed(done@), piece@, at_start),
        decreases text@.len() - i,
    {
        let ghost before = view_placed(done@);
        if i >= text.len() || text[i] == '/' {
            match piece_component(&piece, at_start) {
                Some(c) => {
                    done.push((c, i));
                    assert(view_placed(done@) =~= before.push((c@, i as int)));
                },
                None => {},
            }
            if i >= text.len() {
                return done;
            }
            piece = Vec::new();
            assert(piece@ =~= Seq::empty());
            at_start = false;
        } else {
            piece.push(text[i]);
        }
        i = i + 1;
    }
}

/// The components of a path that is written with slashes.
pub fn components_of(path: &str) -> (r: Vec<Component>)
    ensures
        parts(r@) == only_parts(path_parts(path@)),
{
    let text = text_chars(path);
    let placed = placed_components(&text);
    let mut out: Vec<Component> = Vec::new();
    let ghost ps = view_placed(placed@);
    let mut i: usize = 0;
    assert(parts(out@) =~= only_parts(ps.take(0)));
    while i < placed.len()
        invariant
            ps == view_placed(placed@),
            i <= ps.len(),
            parts(out@) == only_parts(ps.take(i as int)),
        decreases ps.len() - i,
    {
        let ghost before = parts(out@);
        let c = copy_component(&placed[i].0);
        out.push(c);
        assert(parts(out@) =~= before.push(c@));
        assert(only_parts(ps.take(i + 1)) =~= only_parts(ps.take(i as int)).push(ps[i as int].0));
        i = i + 1;
    }
    assert(ps.take(i as int) =~= ps);
    out
}

/// The components of paths that are written with slashes.
pub open spec fn split_all(paths: Seq<String>) -> Seq<Seq<Part>> {
    paths.map_values(|p: String| only_parts(path_parts(p@)))
}

/// Joins paths that are written with slashes, and cleans the result.
pub fn join(paths: &Vec<String>) -> (r: String)
    ensures
        r@ == path_text(cleaned(joined_parts(Seq::empty(), split_all(paths@))), '/'),
{
    let mut split: Vec<Vec<Component>> = Vec::new();
    let ghost all = split_all(paths@);
    let mut i: usize = 0;
    assert(lists(split@) =~= all.take(0));
    while i < paths.len()
        invariant
            all == split_all(paths@),
            i <= all.len(),
            lists(split@) == all.take(i as int),
        decreases all.len() - i,
    {
        let one = components_of(paths[i].as_str());
        let ghost before = lists(split@);
        split.push(one);
        assert(lists(split@) =~= before.push(parts(one@)));
        assert(all.take(i + 1) =~= all.take(i as int).push(all[i as int]));
        i = i + 1;
    }
    assert(all.take(i as int) =~= all);
    join_components(&split, '/')
}

/// The place of the last dot in a name, or -1.
pub open spec fn last_dot(name: Seq<char>) -> int
    decreases name.len(),
{
    if name.len() == 0 {
        -1
    } else if name.last() == '.' {
        name.len() - 1
    } else {
        last_dot(name.drop_last())
    }
}

/// The extension of a file name: what follows its last dot, unless the name
/// starts with that one.
pub open spec fn extension(name: Seq<char>) -> Option<Seq<char>> {
    if last_dot(name) <= 0 {
        None
    } else {
        Some(name.skip(last_dot(name) + 1))
    }
}

/// The extension of a file name that there may be.
pub open spec fn named_extension(name: Option<Seq<char>>) -> Option<Seq<char>> {
    match name {
        Some(n) => extension(n),
        None => None,
    }
}

/// A file name without its extension.
pub open spec fn stem(name: Seq<char>) -> Seq<char> {
    if last_dot(name) <= 0 {
        name
    } else {
        name.take(last_dot(name))
    }
}

/// The file name of a path, if it ends in one.
pub open spec fn file_name(text: Seq<char>) -> Option<Seq<char>> {
    let ps = path_parts(text);
    if ps.len() > 0 && ps.last().0 is Name {
        Some(ps.last().0->Name_0)
    } else {
        None
    }
}

/// A path without its last component, if it has one besides the root.
pub open spec fn parent(text: Seq<char>) -> Option<Seq<char>> {
    let ps = path_parts(text);
    if ps.len() == 0 || ps.last().0 is Root {
        None
    } else if ps.len() == 1 {
        Some(Seq::empty())
    } else {
        Some(text.take(ps[ps.len() - 2].1))
    }
}

fn find_last_dot(name: &Vec<char>) -> (r: Option<usize>)
    ensures
        match r {
            Some(i) => i == last_dot(name@) && i < name@.len(),
            None => last_dot(name@) < 0,
        },
{
    let mut i: usize = name.len();
    assert(name@.take(i as int) =~= name@);
    while i > 0
        invariant
            i <= name@.len(),
            last_dot(name@) == last_dot(name@.take(i as int)),
        decreases i,
    {
        i = i - 1;
        assert(name@.take(i + 1).drop_last() =~= name@.take(i as int));
        assert(name@.take(i + 1).last() == name@[i as int]);
        if name[i] == '.' {
            return Some(i);
        }
    }
    None
}

/// A text that may be missing, as its model.
pub open spec fn shown_text(s: Option<String>) -> Option<Seq<char>> {
    match s {
        Some(s) => Some(s@),
        None => None,
    }
}

/// The places where components end lie in a text of `n` characters.
spec fn ends_within(ps: Seq<(Part, int)>, n: nat) -> bool {
    forall|k: int| 0 <= k < ps.len() ==> 0 <= (#[trigger] ps[k]).1 <= n
}

proof fn lemma_ends(
    text: Seq<char>,
    i: int,
    done: Seq<(Part, int)>,
    piece: Seq<char>,
    at_start: bool,
)
    requires
        0 <= i <= text.len(),
        ends_within(done, text.len()),
    ensures
        ends_within(parts_from(text, i, done, piece, at_start), text.len()),
    decreases text.len() - i,
{
    let with_piece = match piece_part(piece, at_start) {
        Some(p) => done.push((p, i)),
        None => done,
    };
    assert(ends_within(with_piece, text.len()));
    if i < text.len() {
        if text[i] == '/' {
            lemma_ends(text, i + 1, with_piece, Seq::empty(), false);
        } else {
            lemma_ends(text, i + 1, done, piece.push(text[i]), at_start);
        }
    }
}

/// The parent, the file name and the extension of a path, of which the machine
/// that knows how it is written has told the first two.
pub fn split_named(above: Option<String>, name: Option<String>) -> (r: (
    Option<String>,
    Option<String>,
    Option<String>,
))
    ensures
        r.0 == above,
        r.1 == name,
        shown_text(r.2) == named_extension(shown_text(name)),
{
    let e = match &name {
        Some(n) => extension_of(n.as_str()),
        None => None,
    };
    (above, name, e)
}

/// The parent, the file name and the extension of a path that is written with
/// slashes.
pub fn split(path: &str) -> (r: (Option<String>, Option<String>, Option<String>))
    ensures
        shown_text(r.0) == parent(path@),
        shown_text(r.1) == file_name(path@),
        shown_text(r.2) == named_extension(file_name(path@)),
{
    let text = text_chars(path);
    let placed = placed_components(&text);
    let ghost ps = path_parts(path@);
    let n = placed.len();
    if n == 0 {
        return (None, None, None);
    }
    proof {
        assert(ps.len() == n);
        assert(ps.last() == (placed@[n - 1].0@, placed@[n - 1].1 as int));
        if path@.len() > 0 && path@[0] == '/' {
            lemma_ends(path@, 1, seq![(Part::Root, 1int)], Seq::empty(), false);
        } else {
            lemma_ends(path@, 0, Seq::empty(), Seq::empty(), true);
        }
    }
    let above: Option<String> = match &placed[n - 1].0 {
        Component::RootDir => None,
        _ => if n == 1 {
            Some(String::new())
        } else {
            let end = placed[n - 2].1;
            assert(ps[n - 2] == (placed@[n - 2].0@, end as int));
            let up = vstd::slice::slice_subrange(text.as_slice(), 0, end);
            assert(up@ =~= path@.take(end as int));
            Some(chars_text(up))
        },
    };
    match &placed[n - 1].0 {
        Component::Normal(name) => split_named(above, Some(name.clone())),
        _ => split_named(above, None),
    }
}

/// The extension of a file name.
fn extension_of(name: &str) -> (r: Option<String>)
    ensures
        shown_text(r) == extension(name@),
{
    let chars = text_chars(name);
    match find_last_dot(&chars) {
        Some(i) => if i == 0 {
            None
        } else {
            let n = chars.len();
            let rest = vstd::slice::slice_subrange(chars.as_slice(), i + 1, n);
            assert(rest@ =~= name@.skip(i + 1));
            Some(chars_text(rest))
        },
        None => None,
    }
}

/// The extension of a file name, if there is one, with its dot.
pub fn ext_named(name: Option<String>) -> (r: Option<String>)
    ensures
        shown_text(r) == match named_extension(shown_text(name)) {
            Some(e) => Some("."@ + e),
            None => None,
        },
{
    match split_named(None, name).2 {
        Some(e) => {
            let mut s = ".".to_owned();
            s.append(e.as_str());
            Some(s)
        },
        None => None,
    }
}

/// The extension of a path's file name, with its dot, where the path is written
/// with slashes.
pub fn ext(path: &str) -> (r: Option<String>)
    ensures
        shown_text(r) == match named_extension(file_name(path@)) {
            Some(e) => Some("."@ + e),
            None => None,
        },
{
    ext_named(split(path).1)
}

/// A file name, if there is one, without its extension.
pub fn stem_named(name: Option<String>) -> (r: Option<String>)
    ensures
        shown_text(r) == match shown_text(name) {
            Some(n) => Some(stem(n)),
            None => None,
        },
{
    match name {
        Some(name) => {
            let chars = text_chars(name.as_str());
            match find_last_dot(&chars) {
                Some(i) => if i == 0 {
                    Some(name)
                } else {
                    let front = vstd::slice::slice_subrange(chars.as_slice(), 0, i);
                    assert(front@ =~= name@.take(i as int));
                    Some(chars_text(front))
                },
                None => Some(name),
            }
        },
        None => None,
    }
}

/// A path's file name without its extension, where the path is written with
/// slashes.
pub fn stem_of(path: &str) -> (r: Option<String>)
    ensures
        shown_text(r) == match file_name(path@) {
            Some(name) => Some(stem(name)),
            None => None,
        },
{
    stem_named(split(path).1)
}

/// An entry of a directory: a number that the host knows it by, its path where
/// that is text, and what it is.
#[derive(Debug, PartialEq)]
pub struct Entry {
    pub id: u64,
    pub path: Option<String>,
    pub is_dir: bool,
    pub is_symlink: bool,
}

/// The listing of a directory tree: directories still to be read, with their
/// depth, and the paths found.
#[derive(Debug, PartialEq)]
pub struct Listing {
    pub stack: Vec<(u64, usize)>,
    /// How deep to go; zero means all the way.
    pub max_depth: usize,
    /// What paths must end with to be listed.
    pub ext: Option<String>,
    pub found: Vec<String>,
}

/// Whether a path is listed.
pub open spec fn listed(path: Option<Seq<char>>, ext: Option<Seq<char>>) -> bool {
    match path {
        None => false,
        Some(p) => match ext {
            None => true,
            Some(e) => e.is_suffix_of(p),
        },
    }
}

/// Whether an entry at a depth is a directory to be read: never a symbolic link,
/// which could lead back up.
pub open spec fn descends(e: Entry, depth: usize, max_depth: usize) -> bool {
    e.is_dir && !e.is_symlink && (max_depth == 0 || depth < max_depth)
}

/// Whether a text ends with another.
fn ends_with(s: &str, suffix: &str) -> (r: bool)
    ensures
        r == suffix@.is_suffix_of(s@),
{
    let a = text_chars(s);
    let b = text_chars(suffix);
    if b.len() > a.len() {
        return false;
    }
    let total = a.len();
    let d = total - b.len();
    let ghost tail = a@.subrange(d as int, a@.len() as int);
    let mut i: usize = 0;
    while i < b.len()
        invariant
            a@ == s@,
            b@ == suffix@,
            d + b@.len() == a@.len() == total,
            tail == a@.subrange(d as int, a@.len() as int),
            i <= b@.len(),
            forall|k: int| 0 <= k < i ==> #[trigger] tail[k] == b@[k],
        decreases b@.len() - i,
    {
        if a[d + i] != b[i] {
            assert(tail[i as int] != b@[i as int]);
            return false;
        }
        assert(tail[i as int] == b@[i as int]);
        i = i + 1;
    }
    assert(tail =~= b@);
    true
}

impl Listing {
    /// No directory on the list is deeper than asked for.
    pub open spec fn wf(self) -> bool {
        forall|i: int|
            0 <= i < self.stack@.len() ==> 1 <= (#[trigger] self.stack@[i]).1 && (self.max_depth
                == 0 || self.stack@[i].1 <= self.max_depth)
    }

    /// The listing of a tree from its root on.
    pub fn new(root: u64, max_depth: usize, ext: Option<String>) -> (r: Listing)
        ensures
            r.wf(),
            r.stack@ == seq![(root, 1usize)],
            r.max_depth == max_depth,
            r.ext == ext,
            r.found@.len() == 0,
    {
        let mut stack: Vec<(u64, usize)> = Vec::new();
        stack.push((root, 1));
        assert(stack@ =~= seq![(root, 1usize)]);
        Listing { stack, max_depth, ext, found: Vec::new() }
    }

    /// The directory to read next, with its depth.
    pub fn next_dir(&mut self) -> (r: Option<(u64, usize)>)
        requires
            old(self).wf(),
        ensures
            final(self).wf(),
            final(self).max_depth == old(self).max_depth,
            final(self).ext == old(self).ext,
            final(self).found@ == old(self).found@,
            if old(self).stack@.len() == 0 {
                r is None && final(self).stack@ == old(self).stack@
            } else {
                r == Some(old(self).stack@.last()) && final(self).stack@ == old(
                    self).stack@.drop_last()
            },
    {
        self.stack.pop()
    }

    /// Takes an entry of a directory at a depth in.
    pub fn take_in(&mut self, depth: usize, entry: Entry)
        requires
            old(self).wf(),
            1 <= depth < usize::MAX,
        ensures
            final(self).wf(),
            final(self).max_depth == old(self).max_depth,
            final(self).ext == old(self).ext,
            final(self).stack@ == if descends(entry, depth, old(self).max_depth) {
                old(self).stack@.push((entry.id, (depth + 1) as usize))
            } else {
                old(self).stack@
            },
            final(self).found@ == if listed(shown_text(entry.path), shown_text(old(self).ext)) {
                old(self).found@.push(entry.path->0)
            } else {
                old(self).found@
            },
    {
        let descend = entry.is_dir && !entry.is_symlink && (self.max_depth == 0 || depth
            < self.max_depth);
        if descend {
            self.stack.push((entry.id, depth + 1));
        }
        if let Some(path) = entry.path {
            let matches = match &self.ext {
                Some(e) => ends_with(path.as_str(), e.as_str()),
                None => true,
            };
            if matches {
                self.found.push(path);
            }
        }
    }
}

/// A path without `.` and without a `..` that could be taken away: every `..` of
/// it comes before every name, and there is none behind a root.
pub open spec fn clean(p: Seq<Part>) -> bool {
    &&& forall|i: int| 0 <= i < p.len() ==> !((#[trigger] p[i]) is Here)
    &&& forall|i: int, j: int|
        0 <= i < j < p.len() && (#[trigger] p[i]) is Name ==> (#[trigger] p[j]) is Name
    &&& rooted(p) ==> forall|i: int| 0 <= i < p.len() ==> !((#[trigger] p[i]) is Up)
}

proof fn lemma_clean_step(p: Seq<Part>, c: Part)
    requires
        clean(p),
    ensures
        clean(cleaned_step(p, c)),
{
    let q = cleaned_step(p, c);
    match c {
        Part::Up => {
            if p.len() > 0 && p.last() is Name {
                assert forall|i: int| 0 <= i < q.len() implies q[i] == p[i] by {}
                if rooted(q) {
                    assert(rooted(p));
                }
            } else if !rooted(p) {
                assert forall|i: int| 0 <= i < p.len() implies !((#[trigger] p[i]) is Name) by {
                    if p[i] is Name && i < p.len() - 1 {
                        assert(p[p.len() - 1] is Name);
                    }
                }
                if rooted(q) {
                    assert(q[0] == p[0] || p.len() == 0);
                }
            }
        },
        Part::Name(_) => {
            if rooted(q) {
                assert(rooted(p)) by {
                    if p.len() > 0 {
                        assert(q[0] == p[0]);
                    }
                    if p.len() > 1 {
                        assert(q[1] == p[1]);
                    }
                }
            }
        },
        _ => {},
    }
}

proof fn lemma_clean_from(p: Seq<Part>, cs: Seq<Part>)
    requires
        clean(p),
    ensures
        clean(cleaned_from(p, cs)),
    decreases cs.len(),
{
    if cs.len() > 0 {
        lemma_clean_step(p, cs[0]);
        lemma_clean_from(cleaned_step(p, cs[0]), cs.skip(1));
    }
}

/// A cleaned path is clean, or just `.`: it cannot lead out of its root, and it
/// leads out of a directory only by the `..` that it starts with.
pub proof fn law_cleaned_is_clean(cs: Seq<Part>)
    ensures
        clean(cleaned(cs)) || cleaned(cs) == seq![Part::Here],
        rooted(cleaned(cs)) ==> forall|i: int|
            0 <= i < cleaned(cs).len() ==> !((#[trigger] cleaned(cs)[i]) is Up),
{
    lemma_clean_from(Seq::empty(), cs);
}

/// What may stand where in a path: a prefix only first, a root only first or
/// behind the prefix.
pub open spec fn well_placed(p: Seq<Part>) -> bool {
    &&& forall|i: int| 0 < i < p.len() ==> !((#[trigger] p[i]) is Prefix)
    &&& forall|i: int|
        0 < i < p.len() && (#[trigger] p[i]) is Root ==> i == 1 && p[0] is Prefix
}

proof fn lemma_step_placed(p: Seq<Part>, c: Part)
    requires
        well_placed(p),
    ensures
        well_placed(cleaned_step(p, c)),
{
}

proof fn lemma_from_placed(p: Seq<Part>, cs: Seq<Part>)
    requires
        well_placed(p),
    ensures
        well_placed(cleaned_from(p, cs)),
    decreases cs.len(),
{
    if cs.len() > 0 {
        lemma_step_placed(p, cs[0]);
        lemma_from_placed(cleaned_step(p, cs[0]), cs.skip(1));
    }
}

proof fn lemma_clean_stays(p: Seq<Part>, i: int)
    requires
        clean(p),
        well_placed(p),
        0 <= i <= p.len(),
    ensures
        cleaned_from(p.take(i), p.skip(i)) == p,
    decreases p.len() - i,
{
    let done = p.take(i);
    let rest = p.skip(i);
    if i == p.len() {
        assert(done =~= p);
    } else {
        assert(rest[0] == p[i]);
        assert(rest.skip(1) =~= p.skip(i + 1));
        let next = cleaned_step(done, p[i]);
        assert(next =~= p.take(i + 1)) by {
            match p[i] {
                Part::Up => {
                    if i > 0 && done.last() is Name {
                        assert(p[i - 1] is Name);
                        assert(p[i] is Name);
                    }
                    if rooted(done) {
                        assert(rooted(p));
                    }
                },
                Part::Root => {
                    if i > 0 {
                        assert(i == 1 && p[0] is Prefix);
                        assert(done[0] == p[0]);
                    }
                },
                Part::Prefix(_) => {
                    assert(i == 0);
                },
                _ => {},
            }
        }
        lemma_clean_stays(p, i + 1);
    }
}

/// Components that are neither prefixes nor roots.
spec fn inner(cs: Seq<Part>) -> bool {
    forall|i: int| 0 <= i < cs.len() ==> !((#[trigger] cs[i]) is Prefix) && !(cs[i] is Root)
}

proof fn lemma_inner_keeps_root(p: Seq<Part>, cs: Seq<Part>)
    requires
        inner(cs),
    ensures
        rooted(cleaned_from(p, cs)) == rooted(p),
    decreases cs.len(),
{
    if cs.len() > 0 {
        assert(!(cs[0] is Prefix) && !(cs[0] is Root));
        let q = cleaned_step(p, cs[0]);
        assert(rooted(q) == rooted(p)) by {
            if p.len() > 0 && q.len() > 0 {
                assert(q[0] == p[0]);
            }
            if p.len() > 1 && q.len() > 1 {
                assert(q[1] == p[1]);
            }
        }
        let rest = cs.skip(1);
        assert forall|i: int| 0 <= i < rest.len() implies !((#[trigger] rest[i]) is Prefix)
            && !(rest[i] is Root) by {
            assert(rest[i] == cs[i + 1]);
        }
        lemma_inner_keeps_root(q, rest);
    }
}

/// A cleaned path starts at a root exactly where the path does. What may stand
/// where in a path is as paths are split into components and joined.
pub proof fn law_cleaning_keeps_the_root(cs: Seq<Part>)
    requires
        well_placed(cs),
    ensures
        rooted(cleaned(cs)) == rooted(cs),
{
    let empty = Seq::<Part>::empty();
    let head: int = if cs.len() > 1 && cs[0] is Prefix && cs[1] is Root {
        2
    } else if cs.len() > 0 && (cs[0] is Prefix || cs[0] is Root) {
        1
    } else {
        0
    };
    let rest = cs.skip(head);
    assert forall|i: int| 0 <= i < rest.len() implies !((#[trigger] rest[i]) is Prefix) && !(
    rest[i] is Root) by {
        assert(rest[i] == cs[i + head]);
    }
    let p = cs.take(head);
    assert(cleaned_from(empty, cs) == cleaned_from(p, rest)) by {
        if head == 0 {
            assert(p =~= empty);
            assert(rest =~= cs);
        } else {
            let one = seq![cs[0]];
            assert(cleaned_step(empty, cs[0]) =~= one);
            assert(cleaned_from(empty, cs) == cleaned_from(one, cs.skip(1)));
            if head == 1 {
                assert(p =~= one);
            } else {
                assert(cs.skip(1)[0] == cs[1]);
                assert(cs.skip(1).skip(1) =~= rest);
                assert(cleaned_step(one, cs[1]) =~= p);
                assert(cleaned_from(one, cs.skip(1)) == cleaned_from(p, rest));
            }
        }
    }
    lemma_inner_keeps_root(p, rest);
    assert(rooted(p) == rooted(cs));
}

proof fn lemma_pushed_placed(p: Seq<Part>, cs: Seq<Part>)
    requires
        well_placed(p),
    ensures
        well_placed(all_pushed(p, cs)),
    decreases cs.len(),
{
    if cs.len() > 0 {
        assert(well_placed(pushed(p, cs[0])));
        lemma_pushed_placed(pushed(p, cs[0]), cs.skip(1));
    }
}

proof fn lemma_joined_placed(done: Seq<Part>, paths: Seq<Seq<Part>>)
    requires
        well_placed(done),
    ensures
        well_placed(joined_parts(done, paths)),
    decreases paths.len(),
{
    if paths.len() > 0 {
        lemma_pushed_placed(done, paths[0]);
        lemma_joined_placed(all_pushed(done, paths[0]), paths.skip(1));
    }
}

/// Joining and cleaning paths gives one from a root exactly where joining them
/// does.
pub proof fn law_joined_paths_keep_the_root(paths: Seq<Seq<Part>>)
    ensures
        well_placed(joined_parts(Seq::empty(), paths)),
        rooted(cleaned(joined_parts(Seq::empty(), paths))) == rooted(
            joined_parts(Seq::empty(), paths),
        ),
{
    lemma_joined_placed(Seq::empty(), paths);
    law_cleaning_keeps_the_root(joined_parts(Seq::empty(), paths));
}

/// The components behind the first `n` are neither prefixes nor roots, and the
/// first `n` are those in `done`.
spec fn inner_behind(done: Seq<(Part, int)>, n: nat, ps: Seq<(Part, int)>) -> bool {
    &&& n <= done.len() <= ps.len()
    &&& forall|i: int| 0 <= i < n ==> #[trigger] ps[i] == done[i]
    &&& forall|i: int|
        n <= i < ps.len() ==> !((#[trigger] ps[i]).0 is Prefix) && !(ps[i].0 is Root)
}

proof fn lemma_split_inner(
    text: Seq<char>,
    i: int,
    done: Seq<(Part, int)>,
    piece: Seq<char>,
    at_start: bool,
    n: nat,
)
    requires
        inner_behind(done, n, done),
    ensures
        inner_behind(done, n, parts_from(text, i, done, piece, at_start)),
    decreases text.len() - i,
{
    let with_piece = match piece_part(piece, at_start) {
        Some(p) => done.push((p, i)),
        None => done,
    };
    if 0 <= i < text.len() {
        if text[i] == '/' {
            lemma_split_inner(text, i + 1, with_piece, Seq::empty(), false, n);
        } else {
            lemma_split_inner(text, i + 1, done, piece.push(text[i]), at_start, n);
        }
    }
}

/// A path that is written with slashes is cleaned to one from the root exactly
/// where it starts with a slash.
pub proof fn law_cleaned_text_keeps_the_root(text: Seq<char>)
    ensures
        well_placed(only_parts(path_parts(text))),
        rooted(cleaned(only_parts(path_parts(text)))) == (text.len() > 0 && text[0] == '/'),
{
    let ps = path_parts(text);
    let from_root = text.len() > 0 && text[0] == '/';
    if from_root {
        lemma_split_inner(text, 1, seq![(Part::Root, 1int)], Seq::empty(), false, 1);
    } else {
        lemma_split_inner(text, 0, Seq::empty(), Seq::empty(), true, 0);
    }
    let cs = only_parts(ps);
    assert forall|i: int| 0 <= i < cs.len() implies !((#[trigger] cs[i]) is Prefix) && (cs[i] is Root
        ==> i == 0 && from_root) by {
        assert(cs[i] == ps[i].0);
    }
    if from_root {
        assert(cs[0] == ps[0].0);
    }
    law_cleaning_keeps_the_root(cs);
}

/// Cleaning a path a second time changes nothing.
pub proof fn law_cleaning_twice_is_cleaning(cs: Seq<Part>)
    ensures
        cleaned(cleaned(cs)) == cleaned(cs),
{
    let p = cleaned_from(Seq::empty(), cs);
    if p.len() == 0 {
        let here = seq![Part::Here];
        assert(here.skip(1) =~= Seq::empty());
        assert(cleaned_from(Seq::empty(), here) == cleaned_from(Seq::empty(), here.skip(1)));
    } else {
        lemma_clean_from(Seq::empty(), cs);
        lemma_from_placed(Seq::empty(), cs);
        lemma_clean_stays(p, 0);
        assert(p.take(0) =~= Seq::empty());
        assert(p.skip(0) =~= p);
    }
}

} // verus!
