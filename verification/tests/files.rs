use moon::error::Error;
use moon::fs::{
    components_of, ext, ext_named, join, join_components, lexical_clean, render, split,
    split_named, stem_named, stem_of, Component, Entry, Listing,
};
use moon::laux::{LuaStack, LuaState};
use moon::loader::{
    failure_message, install_module_searcher, module_loader, module_searcher, Frame, LuaChunk,
    LuaErrorContext, LuaErrorPhase, LuaErrorReporter, LuaModuleLoader, Searched, Traceback,
};
use moon::rua::{
    locate_manifest, manifest_module, normalize_chunk_name, render_frame, GeneratedLuaModule,
    GeneratedLuaModules, Located, LuaSourceMapping, Manifest, ManifestFile, ReadFile, RuaRuntime,
    SourceRange,
};
use moon::value::{LuaString, LuaValue, TableValue};
use std::path::{Path, PathBuf};

fn joined(parts: &[&str]) -> String {
    join(&parts.iter().map(|s| s.to_string()).collect())
}

#[test]
fn joined_paths_are_clean() {
    assert_eq!(joined(&["a", "b"]), "a/b");
    assert_eq!(joined(&["a/", "./b"]), "a/b");
    assert_eq!(joined(&["a", "../b"]), "b");
    assert_eq!(joined(&["base", "../../etc/passwd"]), "../etc/passwd");
    assert_eq!(joined(&["/base", "../../etc/passwd"]), "/etc/passwd");
    assert_eq!(joined(&["a", "/b"]), "/b");
    assert_eq!(joined(&["a", ".."]), ".");
    assert_eq!(joined(&[]), ".");
    assert_eq!(joined(&["/", ".."]), "/");
    assert_eq!(joined(&["a//b/./c"]), "a/b/c");
    assert_eq!(joined(&["..", ".."]), "../..");
}

#[test]
fn components_are_those_of_the_system() {
    for text in ["", ".", "..", "/", "//", "a", "./a", "a/.", "a//b", "/./a/../b/", ".../x", "/.."] {
        let ours = components_of(text);
        let theirs: Vec<Component> = Path::new(text)
            .components()
            .map(|c| match c {
                std::path::Component::Prefix(p) => {
                    Component::Prefix(p.as_os_str().to_string_lossy().into_owned())
                }
                std::path::Component::RootDir => Component::RootDir,
                std::path::Component::CurDir => Component::CurDir,
                std::path::Component::ParentDir => Component::ParentDir,
                std::path::Component::Normal(s) => {
                    Component::Normal(s.to_string_lossy().into_owned())
                }
            })
            .collect();
        assert_eq!(ours, theirs, "{:?}", text);
        let clean = lexical_clean(&ours);
        assert_eq!(lexical_clean(&clean), clean);
    }
}

#[test]
fn cleaning_keeps_the_root() {
    for text in ["", ".", "..", "/", "a/..", "/a/..", "/..", "../a", "/../../a", "./b", "//x/."] {
        let clean = lexical_clean(&components_of(text));
        assert_eq!(clean[0] == Component::RootDir, text.starts_with('/'), "{:?}", text);
    }
    let drive = || Component::Prefix("C:".to_string());
    let up = || Component::ParentDir;
    assert_eq!(
        lexical_clean(&vec![drive(), Component::RootDir, up()]),
        vec![drive(), Component::RootDir]
    );
    assert_eq!(lexical_clean(&vec![drive(), up()]), vec![drive(), up()]);
}

fn own<T: AsRef<Path> + ?Sized>(s: Option<&T>) -> Option<String> {
    s.map(|s| s.as_ref().to_string_lossy().into_owned())
}

#[test]
fn paths_split_like_the_systems() {
    for text in [
        "", ".", "..", "/", "a", "/a", "a/b", "a/b.txt", "a//b", "a/./b/", "./a", "a/..", ".hidden",
        "x.tar.gz", "dir.d/file", "a.", "..a", "/a/b/../c.x/.",
    ] {
        let path = Path::new(text);
        let (parent, name, extension) = split(text);
        assert_eq!(parent, own(path.parent().map(|p| p.as_os_str())), "parent of {:?}", text);
        assert_eq!(name, own(path.file_name()), "name of {:?}", text);
        assert_eq!(extension, own(path.extension()), "extension of {:?}", text);
        assert_eq!(stem_of(text), own(path.file_stem()), "stem of {:?}", text);
        let told = || own(path.file_name());
        assert_eq!(split_named(parent.clone(), told()), (parent, name, extension), "{:?}", text);
        assert_eq!(stem_named(told()), stem_of(text), "stem of {:?}", text);
        assert_eq!(ext_named(told()), ext(text), "ext of {:?}", text);
        assert_eq!(
            ext(text),
            path.extension().map(|e| format!(".{}", e.to_string_lossy())),
            "ext of {:?}",
            text
        );
    }
}

#[test]
fn joining_is_pushing_and_cleaning() {
    for parts in [
        vec!["a", "b"],
        vec!["/a", "../b", "c"],
        vec!["a", "", "b"],
        vec!["", "a"],
        vec![".", "a"],
        vec!["a", "/b", "c"],
    ] {
        let mut path = PathBuf::new();
        for p in &parts {
            path.push(p);
        }
        assert_eq!(joined(&parts), joined(&[path.to_str().unwrap()]), "{:?}", parts);
    }
    let drive = vec![
        Component::Prefix("C:".to_string()),
        Component::RootDir,
        Component::ParentDir,
        Component::Normal("x".to_string()),
    ];
    assert_eq!(render(&lexical_clean(&drive), '\\'), "C:\\x");
    let rooted = vec![Component::RootDir, Component::Normal("y".to_string())];
    assert_eq!(join_components(&vec![drive, rooted], '\\'), "C:\\y");
}

#[test]
fn listings_go_as_deep_as_asked_and_skip_links() {
    let entry = |id, path: &str, is_dir, is_symlink| Entry {
        id,
        path: Some(path.to_string()),
        is_dir,
        is_symlink,
    };
    let mut l = Listing::new(0, 2, Some(".lua".to_string()));
    assert_eq!(l.next_dir(), Some((0, 1)));
    l.take_in(1, entry(1, "r/a.lua", false, false));
    l.take_in(1, entry(2, "r/d", true, false));
    l.take_in(1, entry(3, "r/link.lua", true, true));
    l.take_in(1, Entry { id: 4, path: None, is_dir: false, is_symlink: false });
    assert_eq!(l.next_dir(), Some((2, 2)));
    l.take_in(2, entry(5, "r/d/deep", true, false));
    l.take_in(2, entry(6, "r/d/b.lua", false, false));
    assert_eq!(l.next_dir(), None);
    assert_eq!(l.found, vec!["r/a.lua", "r/link.lua", "r/d/b.lua"]);
    let mut all = Listing::new(0, 0, None);
    all.next_dir();
    all.take_in(9, entry(1, "x", true, false));
    assert_eq!(all.next_dir(), Some((1, 10)));
    assert_eq!(all.found, vec!["x"]);
}

#[test]
fn display_omits_variant_prefix_for_custom() {
    let error = Error::custom("bootstrap file not found: main.lua");
    assert_eq!(error.to_string(), "bootstrap file not found: main.lua");
}

#[test]
fn display_delegates_to_wrapped_io_error() {
    let inner = std::io::Error::new(std::io::ErrorKind::NotFound, "no such file");
    let error = Error::Io(inner.to_string());
    assert_eq!(error.to_string(), "no such file");
    assert!(!error.to_string().contains("Io"));
}

#[test]
fn display_delegates_to_wrapped_nul_error() {
    let error = Error::NulError("a\0b".find('\0').unwrap());
    assert_eq!(error.to_string(), "nul byte found in provided data at position: 1");
    assert!(!error.to_string().contains("NulError"));
}

#[test]
fn display_renders_exit_code() {
    let error = Error::ExitCode(-1);
    assert_eq!(error.to_string(), "exit code -1");
}

#[test]
fn only_exit_codes_end_the_process() {
    assert_eq!(Error::ExitCode(3).exit_code(), Some(3));
    assert_eq!(Error::custom("3").exit_code(), None);
    assert_eq!(Error::from("x"), Error::Custom("x".to_string()));
    assert_eq!(Error::from("y".to_string()), Error::from_err("y".to_string()));
}

fn artifact() -> GeneratedLuaModules {
    let source = "error(\"boom\")\n".to_string();
    GeneratedLuaModules {
        root_output_path: "main.lua".to_string(),
        modules: vec![GeneratedLuaModule {
            module_name: "main".to_string(),
            output_path: "main.lua".to_string(),
            source: source.clone(),
            source_map: vec![LuaSourceMapping {
                generated_start: 0,
                generated_end: source.len(),
                source: SourceRange { start: 0, len: 5, line: 4, file: 0 },
            }],
            is_root: true,
        }],
        source_files: vec!["main.rua".to_string()],
    }
}

fn runtime() -> RuaRuntime {
    RuaRuntime::from_modules(&artifact(), "main.rua", None).unwrap()
}

#[test]
fn resolves_entry_and_module_from_memory() {
    let runtime = runtime();
    assert_eq!(runtime.load_entry("rua://main").unwrap().name, "@rua://main.lua");
    assert!(runtime.load_entry("main.rua").is_some());
    assert_eq!(runtime.load_module("main").unwrap().source, b"error(\"boom\")\n");
}

#[test]
fn renders_mapped_and_unmapped_frames() {
    let runtime = runtime();
    let context = LuaErrorContext {
        actor_id: 1,
        actor_name: "bootstrap".to_string(),
        source: "rua://main".to_string(),
        phase: LuaErrorPhase::Init,
    };
    let parsed = Traceback {
        message: "lua: @rua://main.lua:1: boom".to_string(),
        frames: vec![
            Frame {
                source: "@rua://main.lua".to_string(),
                raw: "@rua://main.lua:1: in main chunk".to_string(),
                located: Some(("main.rua".to_string(), 4)),
            },
            Frame { source: "[C]".to_string(), raw: "[C]: in ?".to_string(), located: None },
        ],
    };
    let rendered = runtime.format_error(
        &context,
        "lua: @rua://main.lua:1: boom\nstack traceback:\n\t@rua://main.lua:1: in main chunk\n\t[C]: in ?\n",
        &parsed,
    );
    assert!(rendered.contains("main.rua:4"));
    assert!(rendered.contains("[C]: in ?"));
    assert_eq!(
        rendered,
        "lua: @rua://main.lua:1: boom\nRua stack (actor 'bootstrap' phase Init):\n  main.rua:4 (Lua: @rua://main.lua:1: in main chunk)\n  [C]: in ?"
    );
    let plain = Traceback { message: "m".to_string(), frames: vec![] };
    assert_eq!(runtime.format_error(&context, "raw", &plain), "raw");
}

#[test]
fn chunks_are_found_under_all_their_names() {
    let mut a = artifact();
    a.source_files = vec!["x.rua".to_string(), "lib.rua".to_string()];
    a.modules.push(GeneratedLuaModule {
        module_name: "lib".to_string(),
        output_path: "lib.lua".to_string(),
        source: "return 1".to_string(),
        source_map: vec![LuaSourceMapping {
            generated_start: 0,
            generated_end: 8,
            source: SourceRange { start: 0, len: 8, line: 1, file: 1 },
        }],
        is_root: false,
    });
    let r = RuaRuntime::from_modules(&a, "@@main.rua", Some("std text")).unwrap();
    for key in ["rua://lib", "lib.lua", "lib.rua"] {
        assert_eq!(r.load_entry(key).unwrap().source, b"return 1", "{}", key);
    }
    for key in ["@@main.rua", "main.rua", "x.rua", "rua://main"] {
        assert_eq!(r.load_entry(key).unwrap().name, "@rua://main.lua", "{}", key);
    }
    assert_eq!(r.load_module("rua_std").unwrap().source, b"std text");
    assert_eq!(r.chunk_for_frame("@rua://lib.lua"), Some(1));
    assert_eq!(r.chunk_for_frame("rua://lib.lua"), Some(1));
    assert_eq!(r.chunk_for_frame("rua://rua_std.lua"), Some(2));
    assert_eq!(r.chunk_for_frame("@@rua://lib.lua"), Some(1));
    assert_eq!(r.chunk_for_frame("other"), None);
    assert!(r.load_module("nobody").is_none());
    a.modules[0].is_root = false;
    match RuaRuntime::from_modules(&a, "x", None) {
        Err(e) => assert_eq!(e, "Rua modules artifact has no root module"),
        Ok(_) => panic!("no root"),
    }
    assert_eq!(normalize_chunk_name("@a"), "a");
    assert_eq!(normalize_chunk_name("a"), "a");
}

#[test]
fn loads_precompiled_modules_and_rejects_stale_lua() {
    let file = ManifestFile {
        module_name: "main".to_string(),
        output_path: "main.lua".to_string(),
        source_hash: "aa".to_string(),
        source_map: vec![],
        is_root: true,
    };
    let read = |source: &str, hash: &str| ReadFile {
        path: "dir/main.lua".to_string(),
        source: source.to_string(),
        hash: hash.to_string(),
    };
    let d = manifest_module(&file, &read("return 42", "aa")).unwrap();
    assert_eq!((d.source.as_str(), d.is_root), ("return 42", true));
    let manifest = Manifest {
        root_output_path: "main.lua".to_string(),
        source_files: vec!["main.rua".to_string()],
        files: vec![file],
    };
    let load = |r| RuaRuntime::from_manifest(&manifest, &vec![r], "dir/main.lua", None);
    let runtime = load(read("return { value = 42 }\n", "aa")).unwrap();
    assert_eq!(
        runtime.load_entry("main.lua").unwrap().source,
        b"return { value = 42 }\n"
    );
    match load(read("return { value = 7 }\n", "bb")) {
        Err(error) => assert_eq!(
            error,
            "Rua artifact source hash mismatch for dir/main.lua: manifest aa, actual bb"
        ),
        Ok(_) => panic!("stale artifact unexpectedly loaded"),
    }
    assert_eq!(locate_manifest(true, None, None), Located::Sidecar);
    assert_eq!(locate_manifest(false, Some("main.lua"), Some("main.lua")), Located::Directory);
    assert_eq!(locate_manifest(false, Some("main.lua"), Some("x.lua")), Located::Nothing);
    assert_eq!(locate_manifest(false, None, Some("main.lua")), Located::Nothing);
    let frame = Frame { source: "s".to_string(), raw: "r".to_string(), located: None };
    assert_eq!(render_frame(&frame), "r");
}

fn string(bytes: &[u8]) -> LuaValue {
    LuaValue::String(LuaString { bytes: bytes.to_vec(), integer: None })
}

#[test]
fn modules_are_searched_and_loaded() {
    let r = runtime();
    let search = |v: LuaValue, l: Option<&RuaRuntime>| {
        module_searcher(&LuaStack::new(LuaState(1), vec![v], 100), l)
    };
    assert_eq!(search(string(b"main"), Some(&r)), Ok(Searched::Found("main".to_string())));
    assert_eq!(
        search(string(b"zzz"), Some(&r)),
        Ok(Searched::Missing("\n\tno Rua module `zzz`".to_string()))
    );
    assert_eq!(
        search(string(b"main"), None),
        Ok(Searched::Missing("\n\tRua loader registry is unavailable".to_string()))
    );
    assert_eq!(
        search(string(b"\xff"), Some(&r)),
        Err("bad argument #1 (valid UTF-8 string expected)".to_string())
    );
    let load = |v: &LuaValue, l: Option<&RuaRuntime>| module_loader(l, v);
    let chunk: LuaChunk = load(&string(b"main"), Some(&r)).unwrap();
    assert_eq!(chunk.name, "@rua://main.lua");
    assert_eq!(load(&string(b"main"), None).unwrap_err(), "Lua module loader state is gone");
    assert_eq!(
        load(&LuaValue::Nil, Some(&r)).unwrap_err(),
        "Rua module name is not valid UTF-8"
    );
    assert_eq!(
        load(&string(b"zzz"), Some(&r)).unwrap_err(),
        "Rua module `zzz` disappeared from loader registry"
    );
    assert_eq!(failure_message(&string(b"boom"), "default"), "boom");
    assert_eq!(failure_message(&LuaValue::Nil, "default"), "default");
}

#[test]
fn searchers_go_in_second_place() {
    let f = |n| LuaValue::Function(n);
    let mut package = TableValue::new();
    assert_eq!(
        install_module_searcher(&LuaValue::Nil, f(9)).unwrap_err(),
        "Lua package table is unavailable"
    );
    assert_eq!(
        install_module_searcher(&LuaValue::Table(package.duplicate()), f(9)).unwrap_err(),
        "Lua package.searchers table is unavailable"
    );
    let list = TableValue {
        array: vec![f(1), f(2), f(3)],
        hash: vec![],
        pairs: None,
        object: false,
        address: 0,
    };
    package.set(string(b"searchers"), LuaValue::Table(list));
    let after = install_module_searcher(&LuaValue::Table(package), f(9)).unwrap();
    assert_eq!(after.array, vec![f(1), f(9), f(2), f(3)]);
    let mut empty = TableValue::new();
    empty.set(string(b"searchers"), LuaValue::Table(TableValue::new()));
    let after = install_module_searcher(&LuaValue::Table(empty), f(9)).unwrap();
    assert_eq!(after.get(&LuaValue::Integer(2)), Some(&f(9)));
}
