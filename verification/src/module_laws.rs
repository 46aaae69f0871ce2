//! What registries, chunk names, reports and messages say of what they are made
//! from.
use vstd::prelude::*;
use vstd::string::*;
use vstd::utf8::*;

use crate::error::{error_text, Error};
use crate::laux::{display_text, kind_label, type_error_text};
use crate::loader::{
    Chunk, Frame, LuaErrorContext, LuaErrorPhase, LuaErrorReporter, LuaModuleLoader, Traceback,
};
use crate::printing::law_integers_print_as_themselves;
use crate::registry::{closed, connected, looked_up};
use crate::rua::{
    all_entered, at_key, chunk_name, chunk_of, entered, first_stale, module_of, normalized,
    registers, registry_maps, root_place, stale_text, trimmed_marks, with_sources,
    GeneratedLuaModule, GeneratedLuaModules, LuaSourceMapping, ManifestFile, ReadFile,
    RuaRuntime,
};
use crate::text::{decimal, lossy_text, numeral};
use crate::value::{kind_name, LuaType, Val};

verus! {

/// A connection that was entered is found under its name, and every other name has
/// what it had. Closing it takes it out and nothing else.
pub proof fn law_connections_are_found_by_name(
    m: Map<Seq<char>, u64>,
    name: Seq<char>,
    id: u64,
    other: Seq<char>,
)
    ensures
        looked_up(connected(m, name, id), name) == Some(id),
        looked_up(closed(connected(m, name, id), name, id), name) is None,
        other != name ==> looked_up(connected(m, name, id), other) == looked_up(m, other),
        other != name ==> looked_up(closed(m, name, id), other) == looked_up(m, other),
        looked_up(m, name) == Some(id) ==> looked_up(closed(m, name, id), name) is None,
        looked_up(m, name) != Some(id) ==> looked_up(closed(m, name, id), name) == looked_up(
            m,
            name,
        ),
{
}

/// Marks in front of a text.
pub open spec fn marks(n: nat) -> Seq<char> {
    Seq::new(n, |i: int| '@')
}

/// A chunk name loses one mark in front of it, an entry's source all of them, and
/// nothing else.
pub proof fn law_marks_are_taken_off(n: nat, x: Seq<char>)
    requires
        x.len() > 0 ==> x[0] != '@',
    ensures
        normalized(seq!['@'] + x) == x,
        normalized(x) == x,
        trimmed_marks(marks(n) + x) == x,
    decreases n,
{
    assert((seq!['@'] + x).skip(1) =~= x);
    if n == 0 {
        assert(marks(n) + x =~= x);
    } else {
        law_marks_are_taken_off((n - 1) as nat, x);
        let all = marks(n) + x;
        assert(all[0] == '@');
        assert(all.skip(1) =~= marks((n - 1) as nat) + x);
    }
}

/// The chunk of a module is named by where it was written to, under the scheme of
/// such modules and behind a mark.
pub proof fn law_chunks_are_named_by_their_path(path: Seq<char>)
    ensures
        chunk_name(path) == seq!['@'] + "rua://"@ + path,
        normalized(chunk_name(path)) == "rua://"@ + path,
{
    reveal_strlit("@rua://");
    reveal_strlit("rua://");
    assert("@rua://"@ =~= seq!['@'] + "rua://"@);
    assert(chunk_name(path) =~= seq!['@'] + ("rua://"@ + path));
    assert(seq!['@'] + "rua://"@ + path =~= seq!['@'] + ("rua://"@ + path));
    assert((seq!['@'] + ("rua://"@ + path)).skip(1) =~= "rua://"@ + path);
}

/// No two modules have the same name, and none was written to the same place.
pub open spec fn modules_differ(ds: Seq<GeneratedLuaModule>) -> bool {
    forall|i: int, j: int|
        0 <= i < j < ds.len() ==> (#[trigger] ds[i]).module_name@ != (#[trigger] ds[j]).module_name@
            && ds[i].output_path@ != ds[j].output_path@
}

proof fn lemma_paths_tell_chunks_apart(a: Seq<char>, b: Seq<char>)
    requires
        a != b,
    ensures
        chunk_name(a) != chunk_name(b),
        normalized(chunk_name(a)) != normalized(chunk_name(b)),
        chunk_name(a) != normalized(chunk_name(b)),
{
    law_chunks_are_named_by_their_path(a);
    law_chunks_are_named_by_their_path(b);
    reveal_strlit("rua://");
    let r = "rua://"@;
    assert((r + a).skip(6) =~= a);
    assert((r + b).skip(6) =~= b);
    assert((seq!['@'] + r + a).skip(7) =~= a);
    assert((seq!['@'] + r + b).skip(7) =~= b);
    assert((seq!['@'] + r + a)[0] == '@');
    assert((r + b)[0] == 'r');
}

proof fn lemma_modules_found(ds: Seq<GeneratedLuaModule>, files: Seq<String>, n: nat, i: int)
    requires
        modules_differ(ds),
        0 <= i < n <= ds.len() < usize::MAX,
    ensures
        ({
            let m = all_entered(ds, files, n);
            &&& at_key(m.modules, ds[i].module_name@) == Some(i as usize)
            &&& at_key(m.chunks, chunk_name(ds[i].output_path@)) == Some(i as usize)
            &&& at_key(m.chunks, normalized(chunk_name(ds[i].output_path@))) == Some(i as usize)
        }),
    decreases n,
{
    let b = (n - 1) as nat;
    let before = all_entered(ds, files, b);
    let d = ds[n - 1];
    let name = chunk_name(d.output_path@);
    if i < n - 1 {
        lemma_modules_found(ds, files, b, i);
        assert(ds[i].module_name@ != d.module_name@);
        lemma_paths_tell_chunks_apart(ds[i].output_path@, d.output_path@);
        lemma_paths_tell_chunks_apart(d.output_path@, ds[i].output_path@);
    } else {
        law_chunks_are_named_by_their_path(d.output_path@);
    }
}

/// Where modules differ in name and place, each is found under its own name, and
/// its chunk under the name of the chunk, with the mark and without.
pub proof fn law_modules_are_found_by_name(a: GeneratedLuaModules, root_source: Seq<char>, i: int)
    requires
        modules_differ(a.modules@),
        0 <= i < a.modules@.len() < usize::MAX,
    ensures
        ({
            let m = registry_maps(a, root_source, false);
            let d = a.modules@[i];
            &&& at_key(m.modules, d.module_name@) == Some(i as usize)
            &&& at_key(m.chunks, seq!['@'] + "rua://"@ + d.output_path@) == Some(i as usize)
            &&& at_key(m.chunks, "rua://"@ + d.output_path@) == Some(i as usize)
        }),
{
    lemma_modules_found(a.modules@, a.source_files@, a.modules@.len(), i);
    law_chunks_are_named_by_their_path(a.modules@[i].output_path@);
}

/// The library that comes with a compilation is found under its own names, behind
/// all modules.
pub proof fn law_library_is_found(a: GeneratedLuaModules, root_source: Seq<char>)
    requires
        a.modules@.len() < usize::MAX,
    ensures
        ({
            let m = registry_maps(a, root_source, true);
            let k = Some(a.modules@.len() as usize);
            &&& at_key(m.modules, "rua_std"@) == k
            &&& at_key(m.chunks, "@rua://rua_std.lua"@) == k
            &&& at_key(m.chunks, "rua://rua_std.lua"@) == k
        }),
{
}

/// The root of a compilation is its first module that is marked as one, and is
/// found as the entry of the source asked for, with marks in front of it and
/// without.
pub proof fn law_roots_are_found_by_source(a: GeneratedLuaModules, root_source: Seq<char>)
    requires
        modules_differ(a.modules@),
        a.modules@.len() < usize::MAX,
        root_place(a.modules@, 0) >= 0,
    ensures
        ({
            let m = registry_maps(a, root_source, false);
            let k = root_place(a.modules@, 0);
            &&& 0 <= k < a.modules@.len()
            &&& a.modules@[k].is_root
            &&& forall|i: int| 0 <= i < k ==> !(#[trigger] a.modules@[i]).is_root
            &&& at_key(m.entries, root_source) == Some(k as usize)
            &&& at_key(m.entries, trimmed_marks(root_source)) == Some(k as usize)
        }),
{
    lemma_first_root(a.modules@, 0);
    lemma_modules_found(
        a.modules@,
        a.source_files@,
        a.modules@.len(),
        root_place(a.modules@, 0),
    );
}

proof fn lemma_first_root(ds: Seq<GeneratedLuaModule>, i: int)
    requires
        0 <= i,
    ensures
        root_place(ds, i) >= 0 ==> {
            &&& i <= root_place(ds, i) < ds.len()
            &&& ds[root_place(ds, i)].is_root
            &&& forall|j: int| i <= j < root_place(ds, i) ==> !(#[trigger] ds[j]).is_root
        },
        root_place(ds, i) < 0 ==> forall|j: int| i <= j < ds.len() ==> !(#[trigger] ds[j]).is_root,
    decreases ds.len() - i,
{
    if i < ds.len() && !ds[i].is_root {
        lemma_first_root(ds, i + 1);
    }
}

/// A compilation without a module that is marked as the root has none.
pub proof fn law_no_mark_means_no_root(ds: Seq<GeneratedLuaModule>)
    ensures
        root_place(ds, 0) < 0 <==> forall|j: int| 0 <= j < ds.len() ==> !(#[trigger] ds[j]).is_root,
{
    lemma_first_root(ds, 0);
}

proof fn lemma_sources_kept(
    m: Map<Seq<char>, usize>,
    map: Seq<LuaSourceMapping>,
    files: Seq<String>,
    k: usize,
    i: int,
    key: Seq<char>,
)
    ensures
        0 <= i < map.len() && (map[i].source.file as int) < files.len() ==> at_key(
            with_sources(m, map, files, k),
            files[map[i].source.file as int]@,
        ) == Some(k),
        at_key(m, key) is Some ==> at_key(with_sources(m, map, files, k), key) is Some,
        at_key(m, key) == Some(k) ==> at_key(with_sources(m, map, files, k), key) == Some(k),
    decreases map.len(),
{
    if map.len() > 0 {
        lemma_sources_kept(m, map.drop_last(), files, k, i, key);
        if 0 <= i < map.len() - 1 {
            assert(map.drop_last()[i] == map[i]);
        }
    }
}

/// A module that was just entered is found as an entry under its name, under where
/// it was written to, and under every source file that it was made from.
pub proof fn law_modules_are_entries_of_their_sources(
    m: crate::rua::Maps,
    d: GeneratedLuaModule,
    files: Seq<String>,
    k: usize,
    i: int,
)
    ensures
        at_key(entered(m, d, files, k).entries, "rua://"@ + d.module_name@) == Some(k),
        at_key(entered(m, d, files, k).entries, d.output_path@) == Some(k),
        0 <= i < d.source_map@.len() && (d.source_map@[i].source.file as int) < files.len()
            ==> at_key(
            entered(m, d, files, k).entries,
            files[d.source_map@[i].source.file as int]@,
        ) == Some(k),
{
    let e = m.entries.insert("rua://"@ + d.module_name@, k).insert(d.output_path@, k);
    lemma_sources_kept(e, d.source_map@, files, k, i, "rua://"@ + d.module_name@);
    lemma_sources_kept(e, d.source_map@, files, k, i, d.output_path@);
}

/// A precompiled artifact is taken exactly where every file has the hash that its
/// manifest says; else the first that has not is reported.
pub proof fn law_stale_files_are_found(files: Seq<ManifestFile>, read: Seq<ReadFile>, i: int)
    requires
        0 <= i,
    ensures
        first_stale(files, read, i) < 0 <==> forall|j: int|
            i <= j < files.len() ==> (#[trigger] files[j]).source_hash@ == read[j].hash@,
        first_stale(files, read, i) >= 0 ==> {
            let k = first_stale(files, read, i);
            &&& i <= k < files.len()
            &&& files[k].source_hash@ != read[k].hash@
            &&& forall|j: int|
                i <= j < k ==> (#[trigger] files[j]).source_hash@ == read[j].hash@
        },
    decreases files.len() - i,
{
    if i < files.len() {
        law_stale_files_are_found(files, read, i + 1);
    }
}

/// The lines of frames follow each other in their order, each behind a new line and
/// two spaces.
pub proof fn law_frames_are_listed_in_order(
    reg: RuaRuntime,
    a: Seq<Frame>,
    b: Seq<Frame>,
    f: Frame,
)
    ensures
        reg.frames_text(a + b) == reg.frames_text(a) + reg.frames_text(b),
        reg.frames_text(seq![f]) == "\n  "@ + reg.frame_text(f),
    decreases b.len(),
{
    let one = seq![f];
    assert(one.drop_last() =~= Seq::empty());
    assert(reg.frames_text(one.drop_last()) =~= Seq::empty());
    assert(reg.frames_text(one) =~= "\n  "@ + reg.frame_text(f));
    if b.len() == 0 {
        assert(a + b =~= a);
        assert(reg.frames_text(a) + reg.frames_text(b) =~= reg.frames_text(a));
    } else {
        law_frames_are_listed_in_order(reg, a, b.drop_last(), f);
        assert((a + b).drop_last() =~= a + b.drop_last());
        assert((a + b).last() == b.last());
        assert(reg.frames_text(a + b) =~= reg.frames_text(a) + reg.frames_text(b));
    }
}

/// A frame is shown as it is where its chunk is not one of the registry's or where
/// it lies in the source is not known; else by the file and the line there, with
/// its own text behind. A chunk is known by its name with the mark or without.
pub proof fn law_frames_are_shown_in_their_source(reg: RuaRuntime, f: Frame)
    ensures
        f.located is None ==> reg.frame_text(f) == f.raw@,
        at_key(reg.chunks@, f.source@) is None && at_key(reg.chunks@, normalized(f.source@)) is None
            ==> reg.frame_text(f) == f.raw@,
        (at_key(reg.chunks@, f.source@) is Some || at_key(reg.chunks@, normalized(f.source@))
            is Some) && f.located is Some ==> reg.frame_text(f) == (f.located->0).0@ + ":"@ + decimal(
            (f.located->0).1 as int,
        ) + " (Lua: "@ + f.raw@ + ")"@,
{
}

/// An error without frames is reported as it is; one with frames by its message,
/// the actor and the phase, and then the frames.
pub proof fn law_reports_name_the_actor(
    reg: RuaRuntime,
    context: LuaErrorContext,
    raw: Seq<char>,
    parsed: Traceback,
)
    ensures
        parsed.frames@.len() == 0 ==> reg.report(context, raw, parsed) == raw,
        parsed.frames@.len() > 0 && context.phase == LuaErrorPhase::Init ==> reg.report(
            context,
            raw,
            parsed,
        ) == parsed.message@ + "\nRua stack (actor '"@ + context.actor_name@ + "' phase "@
            + "Init"@ + "):"@ + reg.frames_text(parsed.frames@),
        parsed.frames@.len() > 0 && context.phase == LuaErrorPhase::Dispatch ==> reg.report(
            context,
            raw,
            parsed,
        ) == parsed.message@ + "\nRua stack (actor '"@ + context.actor_name@ + "' phase "@
            + "Dispatch"@ + "):"@ + reg.frames_text(parsed.frames@),
{
}

/// An error of the runtime is shown by its text; one that ends the process by the
/// code, one about a zero byte by the place of that.
pub proof fn law_errors_are_shown_by_their_text(e: Error)
    ensures
        match e {
            Error::Custom(m) => error_text(e) == m@,
            Error::Io(m) => error_text(e) == m@,
            Error::NulError(n) => error_text(e)
                == "nul byte found in provided data at position: "@ + decimal(n as int),
            Error::ExitCode(c) => error_text(e) == "exit code "@ + decimal(c as int),
        },
{
}

/// Values are shown in messages as what they are: an integer by its digits, a text
/// by itself, a switch by its name, an address in hexadecimal, a table as such.
pub proof fn law_values_are_shown_as_they_are(v: Val)
    ensures
        display_text(None) == "none"@,
        match v {
            Val::Nil => display_text(Some(v)) == "nil"@,
            Val::Bool(true) => display_text(Some(v)) == "true"@,
            Val::Bool(false) => display_text(Some(v)) == "false"@,
            Val::Int(i) => -0x20_0000_0000_0000 < i < 0x20_0000_0000_0000 ==> display_text(Some(v))
                == decimal(i as int),
            Val::Num(_, text) => display_text(Some(v)) == text,
            Val::Str(b, _) => display_text(Some(v)) == lossy_text(b),
            Val::Table(_) => display_text(Some(v)) == "table"@,
            Val::Light(p) => display_text(Some(v)) == "0x"@ + numeral(p as nat, 16),
            Val::Func(p) => display_text(Some(v)) == "0x"@ + numeral(p as nat, 16),
            Val::User(p, _) => display_text(Some(v)) == "0x"@ + numeral(p as nat, 16),
            Val::Thread(p) => display_text(Some(v)) == "0x"@ + numeral(p as nat, 16),
        },
{
    if let Val::Int(i) = v {
        if i < 0 {
            law_integers_print_as_themselves((-i) as nat);
        } else {
            law_integers_print_as_themselves(i as nat);
        }
    }
}

/// A type error says what was expected and what was there.
pub proof fn law_type_errors_say_both_types(expected: Seq<char>, actual: LuaType)
    ensures
        type_error_text(expected, actual) == "expected "@ + expected + ", got "@ + kind_label(
            actual,
        ),
        kind_name(LuaType::Integer) == kind_name(LuaType::Number),
        kind_label(LuaType::Integer) != kind_label(LuaType::Number),
{
    reveal_strlit("Integer");
    reveal_strlit("Number");
    assert("Integer"@.len() != "Number"@.len());
}

/// A module that is found is the chunk in its place, and so is an entry; what is
/// not found is none.
pub proof fn law_found_modules_are_their_chunks(
    reg: RuaRuntime,
    name: Seq<char>,
    k: usize,
)
    requires
        k < reg.store@.len(),
    ensures
        at_key(reg.modules@, name) == Some(k) ==> reg.module(name) == Some(
            Chunk { source: reg.store@[k as int].source@, name: reg.store@[k as int].name@ },
        ),
        at_key(reg.entries@, name) == Some(k) ==> reg.entry(name) == Some(
            Chunk { source: reg.store@[k as int].source@, name: reg.store@[k as int].name@ },
        ),
        at_key(reg.modules@, name) is None ==> reg.module(name) is None,
        at_key(reg.entries@, name) is None ==> reg.entry(name) is None,
{
}

/// The registry of a compilation keeps the text of every module under its chunk,
/// in their order.
pub proof fn law_registries_keep_the_texts(
    a: GeneratedLuaModules,
    root_source: Seq<char>,
    std_source: Option<&str>,
    r: Result<RuaRuntime, String>,
    i: int,
)
    requires
        registers(a, root_source, std_source, r),
        root_place(a.modules@, 0) >= 0,
        0 <= i < a.modules@.len(),
    ensures
        r is Ok,
        r->Ok_0.store@[i].source@ == encode_utf8(a.modules@[i].source@),
        r->Ok_0.store@[i].name@ == seq!['@'] + "rua://"@ + a.modules@[i].output_path@,
        std_source matches Some(text) ==> r->Ok_0.store@[a.modules@.len() as int].source@
            == encode_utf8(text@),
{
    law_chunks_are_named_by_their_path(a.modules@[i].output_path@);
    assert(chunk_of(r->Ok_0.store@[i], a.modules@[i]));
}

/// The module of a precompiled file has the file's names and map and the text that
/// was read; a file with another text is reported by both hashes.
pub proof fn law_precompiled_modules_have_the_text_read(
    d: GeneratedLuaModule,
    file: ManifestFile,
    read: ReadFile,
)
    ensures
        module_of(d, file, read) ==> {
            &&& d.source@ == read.source@
            &&& d.module_name@ == file.module_name@
            &&& d.output_path@ == file.output_path@
            &&& d.is_root == file.is_root
            &&& d.source_map@ == file.source_map@
        },
        stale_text(file, read) == "Rua artifact source hash mismatch for "@ + read.path@
            + ": manifest "@ + file.source_hash@ + ", actual "@ + read.hash@,
{
}

} // verus!
