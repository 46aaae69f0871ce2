//! The registry of compiled modules, and reports in terms of their sources.
use vstd::prelude::*;
use vstd::string::*;
use vstd::utf8::*;

use crate::loader::{
    phase_name, view_chunk, Chunk, Frame, LuaChunk, LuaErrorContext, LuaErrorReporter,
    LuaModuleLoader, Traceback,
};
use crate::text::{chars_text, decimal, push_u64, same_text, text_chars};
use crate::value::copy_bytes;

verus! {

/// A stretch of a source file.
#[derive(Clone, Copy, Debug, PartialEq, Eq, Structural)]
pub struct SourceRange {
    pub start: usize,
    pub len: usize,
    pub line: u32,
    pub file: u32,
}

/// What stretch of a source file a stretch of generated text came from.
#[derive(Clone, Copy, Debug, PartialEq, Eq, Structural)]
pub struct LuaSourceMapping {
    pub generated_start: usize,
    pub generated_end: usize,
    pub source: SourceRange,
}

/// A compiled module.
#[derive(Debug, PartialEq)]
pub struct GeneratedLuaModule {
    pub module_name: String,
    pub output_path: String,
    pub source: String,
    pub source_map: Vec<LuaSourceMapping>,
    pub is_root: bool,
}

/// What a compilation yields.
#[derive(Debug, PartialEq)]
pub struct GeneratedLuaModules {
    pub root_output_path: String,
    pub modules: Vec<GeneratedLuaModule>,
    pub source_files: Vec<String>,
}

/// A chunk that can be loaded and looked up in tracebacks.
#[derive(Debug, PartialEq)]
pub struct RuntimeChunk {
    pub source: Vec<u8>,
    pub name: String,
    pub source_map: Vec<LuaSourceMapping>,
}

/// A map from texts to places; the last entry of a text counts.
#[derive(Debug, PartialEq)]
pub struct TextMap {
    pub entries: Vec<(String, usize)>,
}

/// The map that entries stand for.
pub open spec fn map_of(es: Seq<(String, usize)>) -> Map<Seq<char>, usize>
    decreases es.len(),
{
    if es.len() == 0 {
        Map::empty()
    } else {
        map_of(es.drop_last()).insert(es.last().0@, es.last().1)
    }
}

impl View for TextMap {
    type V = Map<Seq<char>, usize>;

    open spec fn view(&self) -> Map<Seq<char>, usize> {
        map_of(self.entries@)
    }
}

/// The value under a key.
pub open spec fn at_key(m: Map<Seq<char>, usize>, key: Seq<char>) -> Option<usize> {
    if m.dom().contains(key) {
        Some(m[key])
    } else {
        None
    }
}

impl TextMap {
    /// The empty map.
    pub fn new() -> (r: TextMap)
        ensures
            r@ == Map::<Seq<char>, usize>::empty(),
    {
        TextMap { entries: Vec::new() }
    }

    /// The value under a key.
    pub fn get(&self, key: &str) -> (r: Option<usize>)
        ensures
            r == at_key(self@, key@),
    {
        let ghost es = self.entries@;
        let mut i: usize = self.entries.len();
        assert(es.take(i as int) =~= es);
        while i > 0
            invariant
                es == self.entries@,
                i <= es.len(),
                at_key(map_of(es), key@) == at_key(map_of(es.take(i as int)), key@),
            decreases i,
        {
            i = i - 1;
            assert(es.take(i + 1).drop_last() =~= es.take(i as int));
            assert(es.take(i + 1).last() == es[i as int]);
            if same_text(self.entries[i].0.as_str(), key) {
                return Some(self.entries[i].1);
            }
        }
        None
    }

    /// Puts a value under a key.
    pub fn insert(&mut self, key: String, value: usize)
        ensures
            final(self)@ == old(self)@.insert(key@, value),
    {
        self.entries.push((key, value));
        assert(self.entries@.drop_last() =~= old(self).entries@);
    }
}

/// A chunk name without the mark in front of it.
pub open spec fn normalized(name: Seq<char>) -> Seq<char> {
    if name.len() > 0 && name[0] == '@' {
        name.skip(1)
    } else {
        name
    }
}

/// A text without the marks in front of it.
pub open spec fn trimmed_marks(name: Seq<char>) -> Seq<char>
    decreases name.len(),
{
    if name.len() > 0 && name[0] == '@' {
        trimmed_marks(name.skip(1))
    } else {
        name
    }
}

/// A chunk name without the mark in front of it.
pub fn normalize_chunk_name(source: &str) -> (r: String)
    ensures
        r@ == normalized(source@),
{
    let chars = text_chars(source);
    let n = chars.len();
    if n > 0 && chars[0] == '@' {
        let rest = vstd::slice::slice_subrange(chars.as_slice(), 1, n);
        assert(rest@ =~= source@.skip(1));
        chars_text(rest)
    } else {
        source.to_owned()
    }
}

/// A text without the marks in front of it.
fn trim_marks(source: &str) -> (r: String)
    ensures
        r@ == trimmed_marks(source@),
{
    let chars = text_chars(source);
    let n = chars.len();
    let mut i: usize = 0;
    assert(source@.skip(0) =~= source@);
    while i < n && chars[i] == '@'
        invariant
            chars@ == source@,
            n == chars@.len(),
            i <= n,
            trimmed_marks(source@) == trimmed_marks(source@.skip(i as int)),
        decreases n - i,
    {
        assert(source@.skip(i as int)[0] == chars@[i as int]);
        assert(source@.skip(i as int).skip(1) =~= source@.skip(i + 1));
        i = i + 1;
    }
    let rest = vstd::slice::slice_subrange(chars.as_slice(), i, n);
    assert(rest@ =~= source@.skip(i as int));
    if i < n {
        assert(source@.skip(i as int)[0] == chars@[i as int]);
    }
    chars_text(rest)
}

/// The maps of a registry.
pub struct Maps {
    pub modules: Map<Seq<char>, usize>,
    pub entries: Map<Seq<char>, usize>,
    pub chunks: Map<Seq<char>, usize>,
}

/// The name of the chunk of a module.
pub open spec fn chunk_name(output_path: Seq<char>) -> Seq<char> {
    "@rua://"@ + output_path
}

/// A map with every listed source file that occurs in a source map leading to a
/// chunk.
pub open spec fn with_sources(
    m: Map<Seq<char>, usize>,
    map: Seq<LuaSourceMapping>,
    files: Seq<String>,
    k: usize,
) -> Map<Seq<char>, usize>
    decreases map.len(),
{
    if map.len() == 0 {
        m
    } else {
        let before = with_sources(m, map.drop_last(), files, k);
        let f = map.last().source.file as int;
        if f < files.len() {
            before.insert(files[f]@, k)
        } else {
            before
        }
    }
}

/// Maps with a module entered under all its names.
pub open spec fn entered(m: Maps, d: GeneratedLuaModule, files: Seq<String>, k: usize) -> Maps {
    let name = chunk_name(d.output_path@);
    Maps {
        modules: m.modules.insert(d.module_name@, k),
        chunks: m.chunks.insert(name, k).insert(normalized(name), k),
        entries: with_sources(
            m.entries.insert("rua://"@ + d.module_name@, k).insert(d.output_path@, k),
            d.source_map@,
            files,
            k,
        ),
    }
}

/// Maps with the first `n` modules entered.
pub open spec fn all_entered(ds: Seq<GeneratedLuaModule>, files: Seq<String>, n: nat) -> Maps
    decreases n,
{
    if n == 0 {
        Maps { modules: Map::empty(), entries: Map::empty(), chunks: Map::empty() }
    } else {
        entered(
            all_entered(ds, files, (n - 1) as nat),
            ds[n - 1],
            files,
            (n - 1) as usize,
        )
    }
}

/// The place of the first root module from a place on, or -1.
pub open spec fn root_place(ds: Seq<GeneratedLuaModule>, i: int) -> int
    decreases ds.len() - i,
{
    if i < 0 || i >= ds.len() {
        -1
    } else if ds[i].is_root {
        i
    } else {
        root_place(ds, i + 1)
    }
}

/// The maps of the registry of a compilation that has a root module.
pub open spec fn registry_maps(a: GeneratedLuaModules, root_source: Seq<char>, std: bool) -> Maps {
    let ds = a.modules@;
    let m = all_entered(ds, a.source_files@, ds.len());
    let root = m.modules[ds[root_place(ds, 0)].module_name@];
    let entries = m.entries.insert(root_source, root).insert(trimmed_marks(root_source), root);
    if std {
        let k = ds.len() as usize;
        Maps {
            modules: m.modules.insert("rua_std"@, k),
            entries,
            chunks: m.chunks.insert("@rua://rua_std.lua"@, k).insert("rua://rua_std.lua"@, k),
        }
    } else {
        Maps { modules: m.modules, entries, chunks: m.chunks }
    }
}

/// The registry from which modules are loaded.
#[derive(Debug)]
pub struct RuaRuntime {
    pub store: Vec<RuntimeChunk>,
    pub modules: TextMap,
    pub entries: TextMap,
    pub chunks: TextMap,
    pub source_files: Vec<String>,
}

/// How the registry of a compilation turns out: there is one exactly where there
/// is a root module.
pub open spec fn registers(
    a: GeneratedLuaModules,
    root_source: Seq<char>,
    std_source: Option<&str>,
    r: Result<RuaRuntime, String>,
) -> bool {
    if root_place(a.modules@, 0) < 0 {
        r matches Err(m) && m@ == "Rua modules artifact has no root module"@
    } else {
        r matches Ok(reg) && {
            let n = a.modules@.len();
            &&& reg.wf()
            &&& reg.maps() == registry_maps(a, root_source, std_source is Some)
            &&& file_names(reg.source_files@) == file_names(a.source_files@)
            &&& forall|i: int| 0 <= i < n ==> chunk_of(#[trigger] reg.store@[i], a.modules@[i])
            &&& match std_source {
                None => reg.store@.len() == n,
                Some(text) => {
                    &&& reg.store@.len() == n + 1
                    &&& reg.store@[n as int].source@ == encode_utf8(text@)
                    &&& reg.store@[n as int].name@ == "@rua://rua_std.lua"@
                },
            }
        }
    }
}

/// The chunk of a module.
fn runtime_chunk(module: &GeneratedLuaModule) -> (r: RuntimeChunk)
    ensures
        r.source@ == encode_utf8(module.source@),
        r.name@ == chunk_name(module.output_path@),
        r.source_map@ == module.source_map@,
{
    let mut name = "@rua://".to_owned();
    name.append(module.output_path.as_str());
    RuntimeChunk {
        source: copy_bytes(module.source.as_str().as_bytes()),
        name,
        source_map: copy_map(&module.source_map),
    }
}

fn copy_map(map: &Vec<LuaSourceMapping>) -> (r: Vec<LuaSourceMapping>)
    ensures
        r@ == map@,
{
    let mut r: Vec<LuaSourceMapping> = Vec::new();
    while r.len() < map.len()
        invariant
            r@.len() <= map@.len(),
            r@ =~= map@.take(r@.len() as int),
        decreases map@.len() - r@.len(),
    {
        let m = map[r.len()];
        r.push(m);
    }
    assert(r@ =~= map@);
    r
}

/// The texts of names.
pub open spec fn file_names(files: Seq<String>) -> Seq<Seq<char>> {
    files.map_values(|s: String| s@)
}

/// The chunk at a place is the one of the module there.
pub open spec fn chunk_of(c: RuntimeChunk, d: GeneratedLuaModule) -> bool {
    &&& c.source@ == encode_utf8(d.source@)
    &&& c.name@ == chunk_name(d.output_path@)
    &&& c.source_map@ == d.source_map@
}

impl RuaRuntime {
    /// All places lead to chunks.
    pub open spec fn wf(self) -> bool {
        &&& forall|k: Seq<char>| #[trigger]
            self.modules@.dom().contains(k) ==> self.modules@[k] < self.store@.len()
        &&& forall|k: Seq<char>| #[trigger]
            self.entries@.dom().contains(k) ==> self.entries@[k] < self.store@.len()
        &&& forall|k: Seq<char>| #[trigger]
            self.chunks@.dom().contains(k) ==> self.chunks@[k] < self.store@.len()
    }

    /// The maps of the registry.
    pub open spec fn maps(self) -> Maps {
        Maps { modules: self.modules@, entries: self.entries@, chunks: self.chunks@ }
    }

    /// The chunk at a place.
    pub open spec fn chunk_at(self, k: Option<usize>) -> Option<Chunk> {
        match k {
            Some(i) => if i < self.store@.len() {
                Some(Chunk { source: self.store@[i as int].source@, name: self.store@[i as int].name@ })
            } else {
                None
            },
            None => None,
        }
    }

    /// Enters a module under all its names.
    fn enter(&mut self, module: &GeneratedLuaModule, source_files: &Vec<String>)
        requires
            old(self).store@.len() < usize::MAX,
        ensures
            final(self).store@.len() == old(self).store@.len() + 1,
            final(self).store@.drop_last() == old(self).store@,
            chunk_of(final(self).store@.last(), *module),
            final(self).maps() == entered(
                old(self).maps(),
                *module,
                source_files@,
                old(self).store@.len() as usize,
            ),
            final(self).source_files == old(self).source_files,
    {
        let k = self.store.len();
        let chunk = runtime_chunk(module);
        self.modules.insert(module.module_name.clone(), k);
        let short = normalize_chunk_name(chunk.name.as_str());
        self.chunks.insert(chunk.name.clone(), k);
        self.chunks.insert(short, k);
        let mut key = "rua://".to_owned();
        key.append(module.module_name.as_str());
        self.entries.insert(key, k);
        self.entries.insert(module.output_path.clone(), k);
        let ghost m = self.entries@;
        let ghost map = module.source_map@;
        let mut i: usize = 0;
        assert(map.take(0) =~= Seq::empty());
        let ghost store = self.store@;
        let ghost modules = self.modules@;
        let ghost chunks = self.chunks@;
        let ghost files = self.source_files;
        while i < module.source_map.len()
            invariant
                map == module.source_map@,
                i <= map.len(),
                self.entries@ == with_sources(m, map.take(i as int), source_files@, k),
                self.store@ == store,
                self.modules@ == modules,
                self.chunks@ == chunks,
                self.source_files == files,
            decreases map.len() - i,
        {
            assert(map.take(i + 1).drop_last() =~= map.take(i as int));
            let f = module.source_map[i].source.file as usize;
            if f < source_files.len() {
                self.entries.insert(source_files[f].clone(), k);
            }
            i = i + 1;
        }
        assert(map.take(i as int) =~= map);
        self.store.push(chunk);
        assert(self.store@.drop_last() =~= old(self).store@);
    }

    /// The registry of a compilation and the standard module's text, where there
    /// is one. The root module answers to the root source too, with and without
    /// its mark.
    pub fn from_modules(
        artifact: &GeneratedLuaModules,
        root_source: &str,
        std_source: Option<&str>,
    ) -> (r: Result<RuaRuntime, String>)
        requires
            artifact.modules@.len() < usize::MAX,
        ensures
            registers(*artifact, root_source@, std_source, r),
    {
        let ghost ds = artifact.modules@;
        let ghost files = artifact.source_files@;
        let mut reg = RuaRuntime {
            store: Vec::new(),
            modules: TextMap::new(),
            entries: TextMap::new(),
            chunks: TextMap::new(),
            source_files: copy_texts(&artifact.source_files),
        };
        let mut i: usize = 0;
        while i < artifact.modules.len()
            invariant
                ds == artifact.modules@,
                files == artifact.source_files@,
                i <= ds.len() < usize::MAX,
                reg.store@.len() == i,
                forall|k: int| 0 <= k < i ==> chunk_of(#[trigger] reg.store@[k], ds[k]),
                reg.maps() == all_entered(ds, files, i as nat),
                file_names(reg.source_files@) == file_names(files),
            decreases ds.len() - i,
        {
            let ghost before = reg.store@;
            reg.enter(&artifact.modules[i], &artifact.source_files);
            proof {
                assert forall|k: int| 0 <= k < i + 1 implies chunk_of(
                    #[trigger] reg.store@[k],
                    ds[k],
                ) by {
                    if k < i {
                        assert(reg.store@.drop_last()[k] == before[k]);
                    }
                }
            }
            i = i + 1;
        }
        let root_module = match find_root(&artifact.modules) {
            Some(k) => k,
            None => {
                return Err("Rua modules artifact has no root module".to_owned());
            },
        };
        proof {
            lemma_entered(ds, files, ds.len(), root_module as int);
        }
        let root = match reg.modules.get(artifact.modules[root_module].module_name.as_str()) {
            Some(k) => k,
            None => 0,
        };
        reg.entries.insert(root_source.to_owned(), root);
        reg.entries.insert(trim_marks(root_source), root);
        if let Some(text) = std_source {
            let k = reg.store.len();
            reg.store.push(
                RuntimeChunk {
                    source: copy_bytes(text.as_bytes()),
                    name: "@rua://rua_std.lua".to_owned(),
                    source_map: Vec::new(),
                },
            );
            reg.modules.insert("rua_std".to_owned(), k);
            reg.chunks.insert("@rua://rua_std.lua".to_owned(), k);
            reg.chunks.insert("rua://rua_std.lua".to_owned(), k);
        }
        Ok(reg)
    }

    /// The chunk that a frame's source names.
    pub open spec fn frame_place(self, source: Seq<char>) -> Option<usize> {
        match at_key(self.chunks@, source) {
            Some(k) => Some(k),
            None => at_key(self.chunks@, normalized(source)),
        }
    }

    /// The place of the chunk that a frame's source names.
    pub fn chunk_for_frame(&self, source: &str) -> (r: Option<usize>)
        ensures
            r == self.frame_place(source@),
    {
        match self.chunks.get(source) {
            Some(k) => Some(k),
            None => self.chunks.get(normalize_chunk_name(source).as_str()),
        }
    }

    /// The text of a frame in a report.
    pub open spec fn frame_text(self, f: Frame) -> Seq<char> {
        match self.frame_place(f.source@) {
            None => f.raw@,
            Some(_) => rendered(f),
        }
    }

    /// The text of a frame in a report.
    fn format_frame(&self, f: &Frame) -> (r: String)
        ensures
            r@ == self.frame_text(*f),
    {
        match self.chunk_for_frame(f.source.as_str()) {
            None => f.raw.clone(),
            Some(_) => render_frame(f),
        }
    }

    /// A copy of the chunk at a place.
    fn chunk(&self, k: Option<usize>) -> (r: Option<LuaChunk>)
        ensures
            view_chunk(r) == self.chunk_at(k),
    {
        match k {
            Some(i) => if i < self.store.len() {
                Some(
                    LuaChunk {
                        source: copy_bytes(self.store[i].source.as_slice()),
                        name: self.store[i].name.clone(),
                    },
                )
            } else {
                None
            },
            None => None,
        }
    }

    /// The lines of frames in a report.
    pub open spec fn frames_text(self, fs: Seq<Frame>) -> Seq<char>
        decreases fs.len(),
    {
        if fs.len() == 0 {
            Seq::empty()
        } else {
            self.frames_text(fs.drop_last()) + "\n  "@ + self.frame_text(fs.last())
        }
    }
}

fn copy_texts(v: &Vec<String>) -> (r: Vec<String>)
    ensures
        file_names(r@) == file_names(v@),
{
    let mut r: Vec<String> = Vec::new();
    while r.len() < v.len()
        invariant
            r@.len() <= v@.len(),
            file_names(r@) =~= file_names(v@.take(r@.len() as int)),
        decreases v@.len() - r@.len(),
    {
        let ghost before = r@;
        let s = v[r.len()].clone();
        r.push(s);
        assert(file_names(r@) =~= file_names(before).push(s@));
        assert(v@.take(r@.len() as int) =~= v@.take(before.len() as int).push(
            v@[before.len() as int],
        ));
        assert(file_names(v@.take(r@.len() as int)) =~= file_names(
            v@.take(before.len() as int),
        ).push(s@));
    }
    assert(v@.take(r@.len() as int) =~= v@);
    r
}

/// The place of the first root module.
fn find_root(ds: &Vec<GeneratedLuaModule>) -> (r: Option<usize>)
    ensures
        match r {
            Some(i) => i == root_place(ds@, 0) && i < ds@.len(),
            None => root_place(ds@, 0) < 0,
        },
{
    let mut i: usize = 0;
    while i < ds.len()
        invariant
            i <= ds@.len(),
            root_place(ds@, 0) == root_place(ds@, i as int),
        decreases ds@.len() - i,
    {
        if ds[i].is_root {
            return Some(i);
        }
        i = i + 1;
    }
    None
}

/// What a map that all places of modules were entered in leads to.
spec fn leads_below(m: Map<Seq<char>, usize>, n: nat) -> bool {
    forall|k: Seq<char>| #[trigger] m.dom().contains(k) ==> m[k] < n
}

proof fn lemma_sources(
    m: Map<Seq<char>, usize>,
    map: Seq<LuaSourceMapping>,
    files: Seq<String>,
    k: usize,
    n: nat,
)
    requires
        leads_below(m, n),
        k < n,
    ensures
        leads_below(with_sources(m, map, files, k), n),
    decreases map.len(),
{
    if map.len() > 0 {
        lemma_sources(m, map.drop_last(), files, k, n);
    }
}

proof fn lemma_entered(ds: Seq<GeneratedLuaModule>, files: Seq<String>, n: nat, root: int)
    requires
        n <= ds.len() < usize::MAX,
    ensures
        leads_below(all_entered(ds, files, n).modules, n),
        leads_below(all_entered(ds, files, n).entries, n),
        leads_below(all_entered(ds, files, n).chunks, n),
        0 <= root < n ==> all_entered(ds, files, n).modules.dom().contains(ds[root].module_name@),
    decreases n,
{
    if n > 0 {
        let m = (n - 1) as nat;
        lemma_entered(ds, files, m, root);
        let d = ds[n - 1];
        let e = all_entered(ds, files, m).entries.insert(
            "rua://"@ + d.module_name@,
            m as usize,
        ).insert(d.output_path@, m as usize);
        assert(leads_below(e, n));
        lemma_sources(e, d.source_map@, files, m as usize, n);
    }
}

/// The text of a frame whose chunk is known: where it lies in the source, if that
/// is known, and its own text.
pub open spec fn rendered(f: Frame) -> Seq<char> {
    match f.located {
        Some((file, line)) => file@ + ":"@ + decimal(line as int) + " (Lua: "@ + f.raw@ + ")"@,
        None => f.raw@,
    }
}

/// The text of a frame whose chunk is known.
pub fn render_frame(f: &Frame) -> (r: String)
    ensures
        r@ == rendered(*f),
{
    match &f.located {
        Some((file, line)) => {
            let mut s = file.clone();
            s.append(":");
            push_u64(&mut s, *line as u64);
            s.append(" (Lua: ");
            s.append(f.raw.as_str());
            s.append(")");
            s
        },
        None => f.raw.clone(),
    }
}

impl LuaModuleLoader for RuaRuntime {
    open spec fn entry(&self, source: Seq<char>) -> Option<Chunk> {
        self.chunk_at(at_key(self.entries@, source))
    }

    open spec fn module(&self, module: Seq<char>) -> Option<Chunk> {
        self.chunk_at(at_key(self.modules@, module))
    }

    fn load_entry(&self, source: &str) -> (r: Option<LuaChunk>) {
        self.chunk(self.entries.get(source))
    }

    fn load_module(&self, module: &str) -> (r: Option<LuaChunk>) {
        self.chunk(self.modules.get(module))
    }
}

impl LuaErrorReporter for RuaRuntime {
    open spec fn report(&self, context: LuaErrorContext, raw: Seq<char>, parsed: Traceback) -> Seq<
        char,
    > {
        if parsed.frames@.len() == 0 {
            raw
        } else {
            parsed.message@ + "\nRua stack (actor '"@ + context.actor_name@ + "' phase "@
                + phase_name(context.phase) + "):"@ + self.frames_text(parsed.frames@)
        }
    }

    fn format_error(&self, context: &LuaErrorContext, raw: &str, parsed: &Traceback) -> (r:
        String) {
        if parsed.frames.len() == 0 {
            return raw.to_owned();
        }
        let mut output = parsed.message.clone();
        output.append("\nRua stack (actor '");
        output.append(context.actor_name.as_str());
        output.append("' phase ");
        output.append(context.phase.name());
        output.append("):");
        let ghost head = output@;
        let ghost fs = parsed.frames@;
        let mut i: usize = 0;
        assert(fs.take(0) =~= Seq::empty());
        assert(output@ =~= head + self.frames_text(fs.take(0)));
        while i < parsed.frames.len()
            invariant
                fs == parsed.frames@,
                i <= fs.len(),
                output@ == head + self.frames_text(fs.take(i as int)),
            decreases fs.len() - i,
        {
            assert(fs.take(i + 1).drop_last() =~= fs.take(i as int));
            output.append("\n  ");
            let text = self.format_frame(&parsed.frames[i]);
            output.append(text.as_str());
            assert(output@ =~= head + self.frames_text(fs.take(i + 1)));
            i = i + 1;
        }
        assert(fs.take(i as int) =~= fs);
        output
    }
}

/// A file of a precompiled artifact, as its manifest describes it.
#[derive(Debug, PartialEq)]
pub struct ManifestFile {
    pub module_name: String,
    pub output_path: String,
    pub source_hash: String,
    pub source_map: Vec<LuaSourceMapping>,
    pub is_root: bool,
}

/// The description of a precompiled artifact.
#[derive(Debug, PartialEq)]
pub struct Manifest {
    pub root_output_path: String,
    pub source_files: Vec<String>,
    pub files: Vec<ManifestFile>,
}

/// A file of a precompiled artifact, as it was read: where, what was in it, and
/// the hash of that.
#[derive(Debug, PartialEq)]
pub struct ReadFile {
    pub path: String,
    pub source: String,
    pub hash: String,
}

/// The report of a file whose text is not the one that the manifest was made for.
pub open spec fn stale_text(file: ManifestFile, read: ReadFile) -> Seq<char> {
    "Rua artifact source hash mismatch for "@ + read.path@ + ": manifest "@ + file.source_hash@
        + ", actual "@ + read.hash@
}

/// The module of a precompiled file.
pub open spec fn module_of(d: GeneratedLuaModule, file: ManifestFile, read: ReadFile) -> bool {
    &&& d.module_name@ == file.module_name@
    &&& d.output_path@ == file.output_path@
    &&& d.source@ == read.source@
    &&& d.source_map@ == file.source_map@
    &&& d.is_root == file.is_root
}

/// The module of a precompiled file, unless its text is not the one that the
/// manifest was made for.
pub fn manifest_module(file: &ManifestFile, read: &ReadFile) -> (r: Result<
    GeneratedLuaModule,
    String,
>)
    ensures
        if read.hash@ != file.source_hash@ {
            r matches Err(m) && m@ == stale_text(*file, *read)
        } else {
            r matches Ok(d) && module_of(d, *file, *read)
        },
{
    if !same_text(read.hash.as_str(), file.source_hash.as_str()) {
        let mut m = "Rua artifact source hash mismatch for ".to_owned();
        m.append(read.path.as_str());
        m.append(": manifest ");
        m.append(file.source_hash.as_str());
        m.append(", actual ");
        m.append(read.hash.as_str());
        return Err(m);
    }
    Ok(
        GeneratedLuaModule {
            module_name: file.module_name.clone(),
            output_path: file.output_path.clone(),
            source: read.source.clone(),
            source_map: copy_map(&file.source_map),
            is_root: file.is_root,
        },
    )
}

/// The place of the first stale file from a place on, or -1.
pub open spec fn first_stale(files: Seq<ManifestFile>, read: Seq<ReadFile>, i: int) -> int
    decreases files.len() - i,
{
    if i < 0 || i >= files.len() {
        -1
    } else if read[i].hash@ != files[i].source_hash@ {
        i
    } else {
        first_stale(files, read, i + 1)
    }
}

/// The compilation that an artifact is the result of.
pub open spec fn made_from(a: GeneratedLuaModules, m: Manifest, read: Seq<ReadFile>) -> bool {
    &&& a.root_output_path@ == m.root_output_path@
    &&& file_names(a.source_files@) == file_names(m.source_files@)
    &&& a.modules@.len() == m.files@.len()
    &&& forall|i: int|
        0 <= i < a.modules@.len() ==> module_of(#[trigger] a.modules@[i], m.files@[i], read[i])
}

/// The compilation that an artifact is the result of, unless a file is stale.
pub fn manifest_artifact(manifest: &Manifest, read: &Vec<ReadFile>) -> (r: Result<
    GeneratedLuaModules,
    String,
>)
    requires
        read@.len() == manifest.files@.len(),
    ensures
        ({
            let i = first_stale(manifest.files@, read@, 0);
            if i >= 0 {
                r matches Err(m) && m@ == stale_text(manifest.files@[i], read@[i])
            } else {
                r matches Ok(a) && made_from(a, *manifest, read@)
            }
        }),
{
    let ghost files = manifest.files@;
    let mut modules: Vec<GeneratedLuaModule> = Vec::new();
    while modules.len() < manifest.files.len()
        invariant
            files == manifest.files@,
            read@.len() == files.len(),
            modules@.len() <= files.len(),
            first_stale(files, read@, 0) == first_stale(files, read@, modules@.len() as int),
            forall|i: int|
                0 <= i < modules@.len() ==> module_of(#[trigger] modules@[i], files[i], read@[i]),
        decreases files.len() - modules@.len(),
    {
        let i = modules.len();
        let d = manifest_module(&manifest.files[i], &read[i])?;
        modules.push(d);
    }
    Ok(
        GeneratedLuaModules {
            root_output_path: manifest.root_output_path.clone(),
            modules,
            source_files: copy_texts(&manifest.source_files),
        },
    )
}

impl RuaRuntime {
    /// The registry of a precompiled artifact whose files were read: none where a
    /// file is stale.
    pub fn from_manifest(
        manifest: &Manifest,
        read: &Vec<ReadFile>,
        root_source: &str,
        std_source: Option<&str>,
    ) -> (r: Result<RuaRuntime, String>)
        requires
            read@.len() == manifest.files@.len(),
            manifest.files@.len() < usize::MAX,
        ensures
            ({
                let i = first_stale(manifest.files@, read@, 0);
                if i >= 0 {
                    r matches Err(m) && m@ == stale_text(manifest.files@[i], read@[i])
                } else {
                    exists|a: GeneratedLuaModules| #[trigger]
                        made_from(a, *manifest, read@) && registers(
                            a,
                            root_source@,
                            std_source,
                            r,
                        )
                }
            }),
    {
        let artifact = manifest_artifact(manifest, read)?;
        let r = RuaRuntime::from_modules(&artifact, root_source, std_source);
        assert(made_from(artifact, *manifest, read@));
        r
    }
}

/// Which manifest belongs to an entry file.
#[derive(Clone, Copy, Debug, PartialEq, Eq, Structural)]
pub enum Located {
    /// The one beside the file.
    Sidecar,
    /// The one of its directory.
    Directory,
    /// None: the file is plain Lua.
    Nothing,
}

/// Finds the manifest of an entry file: the one beside it if there is one, else
/// the one of its directory if the file is the root that it names.
pub fn locate_manifest(sidecar: bool, directory_root: Option<&str>, file_name: Option<&str>) -> (r:
    Located)
    ensures
        r == if sidecar {
            Located::Sidecar
        } else if directory_root matches Some(root) && file_name matches Some(name) && root@
            == name@ {
            Located::Directory
        } else {
            Located::Nothing
        },
{
    if sidecar {
        return Located::Sidecar;
    }
    match (directory_root, file_name) {
        (Some(root), Some(name)) => if same_text(root, name) {
            Located::Directory
        } else {
            Located::Nothing
        },
        _ => Located::Nothing,
    }
}

proof fn lemma_names_lead_home(ds: Seq<GeneratedLuaModule>, files: Seq<String>, n: nat)
    requires
        n <= ds.len() < usize::MAX,
    ensures
        ({
            let m = all_entered(ds, files, n);
            &&& forall|i: int|
                0 <= i < n ==> m.modules.dom().contains((#[trigger] ds[i]).module_name@)
                    && m.chunks.dom().contains(chunk_name(ds[i].output_path@))
                    && m.chunks.dom().contains(normalized(chunk_name(ds[i].output_path@)))
            &&& forall|k: Seq<char>| #[trigger]
                m.modules.dom().contains(k) ==> m.modules[k] < n && ds[m.modules[k] as int].module_name@
                    == k
            &&& forall|k: Seq<char>| #[trigger]
                m.chunks.dom().contains(k) ==> m.chunks[k] < n && {
                    let name = chunk_name(ds[m.chunks[k] as int].output_path@);
                    k == name || k == normalized(name)
                }
        }),
    decreases n,
{
    if n > 0 {
        let b = (n - 1) as nat;
        lemma_names_lead_home(ds, files, b);
        let before = all_entered(ds, files, b);
        let m = all_entered(ds, files, n);
        let d = ds[n - 1];
        let name = chunk_name(d.output_path@);
        assert(m.modules == before.modules.insert(d.module_name@, b as usize));
        assert(m.chunks == before.chunks.insert(name, b as usize).insert(
            normalized(name),
            b as usize,
        ));
        assert forall|i: int| 0 <= i < n implies m.modules.dom().contains(
            (#[trigger] ds[i]).module_name@,
        ) && m.chunks.dom().contains(chunk_name(ds[i].output_path@)) && m.chunks.dom().contains(
            normalized(chunk_name(ds[i].output_path@)),
        ) by {
            if i < b {
                assert(before.modules.dom().contains(ds[i].module_name@));
            }
        }
        assert forall|k: Seq<char>| #[trigger] m.chunks.dom().contains(k) implies m.chunks[k] < n
            && {
            let name = chunk_name(ds[m.chunks[k] as int].output_path@);
            k == name || k == normalized(name)
        } by {
            if k != name && k != normalized(name) {
                assert(before.chunks.dom().contains(k));
            }
        }
        assert forall|k: Seq<char>| #[trigger] m.modules.dom().contains(k) implies m.modules[k] < n
            && ds[m.modules[k] as int].module_name@ == k by {
            if k != d.module_name@ {
                assert(before.modules.dom().contains(k));
            }
        }
    }
}

/// In the registry of a compilation every module is found under its name and its
/// chunk under the chunk's name, with and without the mark; where two modules
/// share a name, one of them is found. The root is found under its source.
pub proof fn law_registry_finds_its_modules(a: GeneratedLuaModules, root_source: Seq<char>)
    requires
        a.modules@.len() < usize::MAX,
        root_place(a.modules@, 0) >= 0,
    ensures
        ({
            let ds = a.modules@;
            let m = registry_maps(a, root_source, false);
            &&& forall|i: int|
                0 <= i < ds.len() ==> {
                    let name = (#[trigger] ds[i]).module_name@;
                    &&& at_key(m.modules, name) matches Some(k) && ds[k as int].module_name@ == name
                    &&& at_key(m.chunks, chunk_name(ds[i].output_path@)) is Some
                    &&& at_key(m.chunks, normalized(chunk_name(ds[i].output_path@))) is Some
                }
            &&& at_key(m.entries, root_source) matches Some(k) && ds[k as int].module_name@
                == ds[root_place(ds, 0)].module_name@
            &&& at_key(m.entries, trimmed_marks(root_source)) == at_key(m.entries, root_source)
        }),
{
    let ds = a.modules@;
    lemma_names_lead_home(ds, a.source_files@, ds.len());
    lemma_root_place(ds, 0);
}

proof fn lemma_root_place(ds: Seq<GeneratedLuaModule>, i: int)
    ensures
        root_place(ds, i) < ds.len(),
    decreases ds.len() - i,
{
    if 0 <= i < ds.len() && !ds[i].is_root {
        lemma_root_place(ds, i + 1);
    }
}

} // verus!
