//! Lua chunks from memory, and host-side error reports.
use vstd::prelude::*;
use vstd::string::*;
use vstd::utf8::*;

use crate::laux::{field_key, LuaStack};
use crate::value::{copy_bytes, LuaValue, Tab, TableValue, Val};

verus! {

/// A chunk that a loader owns: its source, and the name that reports give it.
#[derive(Clone, Debug, PartialEq)]
pub struct LuaChunk {
    pub source: Vec<u8>,
    pub name: String,
}

/// Model of [`LuaChunk`].
pub struct Chunk {
    pub source: Seq<u8>,
    pub name: Seq<char>,
}

impl View for LuaChunk {
    type V = Chunk;

    open spec fn view(&self) -> Chunk {
        Chunk { source: self.source@, name: self.name@ }
    }
}

pub open spec fn view_chunk(c: Option<LuaChunk>) -> Option<Chunk> {
    match c {
        Some(c) => Some(c@),
        None => None,
    }
}

/// Finds modules in memory.
pub trait LuaModuleLoader {
    /// The chunk that a source stands for.
    spec fn entry(&self, source: Seq<char>) -> Option<Chunk>;

    /// The chunk of a module.
    spec fn module(&self, module: Seq<char>) -> Option<Chunk>;

    fn load_entry(&self, source: &str) -> (r: Option<LuaChunk>)
        ensures
            view_chunk(r) == self.entry(source@),
    ;

    fn load_module(&self, module: &str) -> (r: Option<LuaChunk>)
        ensures
            view_chunk(r) == self.module(module@),
    ;
}

/// When a protected call failed.
#[derive(Clone, Copy, Debug, PartialEq, Eq, Structural)]
pub enum LuaErrorPhase {
    Init,
    Dispatch,
}

/// The name of a phase in reports.
pub open spec fn phase_name(p: LuaErrorPhase) -> Seq<char> {
    match p {
        LuaErrorPhase::Init => "Init"@,
        LuaErrorPhase::Dispatch => "Dispatch"@,
    }
}

impl LuaErrorPhase {
    /// The name of the phase in reports.
    pub fn name(self) -> (r: &'static str)
        ensures
            r@ == phase_name(self),
    {
        match self {
            LuaErrorPhase::Init => "Init",
            LuaErrorPhase::Dispatch => "Dispatch",
        }
    }
}

/// What an error report is about.
#[derive(Clone, Debug, PartialEq, Eq)]
pub struct LuaErrorContext {
    pub actor_id: u32,
    pub actor_name: String,
    pub source: String,
    pub phase: LuaErrorPhase,
}

/// A frame of a traceback: the chunk it is in, its text, and where it lies in the
/// source that the chunk was made from, as far as that is known.
#[derive(Clone, Debug, PartialEq)]
pub struct Frame {
    pub source: String,
    pub raw: String,
    pub located: Option<(String, u32)>,
}

/// A traceback in its parts.
#[derive(Clone, Debug, PartialEq)]
pub struct Traceback {
    pub message: String,
    pub frames: Vec<Frame>,
}

/// Makes reports of errors.
pub trait LuaErrorReporter {
    /// The report of an error.
    spec fn report(&self, context: LuaErrorContext, raw: Seq<char>, parsed: Traceback) -> Seq<
        char,
    >;

    fn format_error(&self, context: &LuaErrorContext, raw: &str, parsed: &Traceback) -> (r: String)
        ensures
            r@ == self.report(*context, raw@, *parsed),
    ;
}

/// What a search for a module comes to.
#[derive(Debug, PartialEq)]
pub enum Searched {
    /// It is not here; the text goes into the list of places searched.
    Missing(String),
    /// It is here, under this name.
    Found(String),
}

/// The text of a search that found nothing.
pub open spec fn missing_text(module: Seq<char>) -> Seq<char> {
    "\n\tno Rua module `"@ + module + "`"@
}

/// Searches the module that a callback names.
pub fn module_searcher<L: LuaModuleLoader>(lua: &LuaStack, loader: Option<&L>) -> (r: Result<
    Searched,
    String,
>)
    requires
        lua.wf(),
    ensures
        match lua.slot(1) {
            Some(Val::Str(b, _)) => if !valid_utf8(b) {
                r matches Err(m) && m@ == "bad argument #1 (valid UTF-8 string expected)"@
            } else {
                match loader {
                    None => r matches Ok(Searched::Missing(m)) && m@
                        == "\n\tRua loader registry is unavailable"@,
                    Some(l) => match l.module(decode_utf8(b)) {
                        None => r matches Ok(Searched::Missing(m)) && m@ == missing_text(
                            decode_utf8(b),
                        ),
                        Some(_) => r matches Ok(Searched::Found(name)) && name@ == decode_utf8(b),
                    },
                }
            },
            _ => r matches Err(m) && m@ == "bad argument #1 (valid UTF-8 string expected)"@,
        },
{
    let module = match lua.value(1).as_str() {
        Some(name) => name,
        None => {
            return Err("bad argument #1 (valid UTF-8 string expected)".to_owned());
        },
    };
    match loader {
        None => Ok(Searched::Missing("\n\tRua loader registry is unavailable".to_owned())),
        Some(l) => {
            if l.load_module(module).is_none() {
                let mut m = "\n\tno Rua module `".to_owned();
                m.append(module);
                m.append("`");
                Ok(Searched::Missing(m))
            } else {
                Ok(Searched::Found(module.to_owned()))
            }
        },
    }
}

/// The chunk of a module that a search had found, named by a value that the
/// machine kept.
pub fn module_loader<L: LuaModuleLoader>(loader: Option<&L>, kept: &LuaValue) -> (r: Result<
    LuaChunk,
    String,
>)
    ensures
        match loader {
            None => r matches Err(m) && m@ == "Lua module loader state is gone"@,
            Some(l) => match kept@ {
                Val::Str(b, _) => if !valid_utf8(b) {
                    r matches Err(m) && m@ == "Rua module name is not valid UTF-8"@
                } else {
                    match l.module(decode_utf8(b)) {
                        Some(c) => r matches Ok(got) && got@ == c,
                        None => r matches Err(m) && m@ == "Rua module `"@ + decode_utf8(b)
                            + "` disappeared from loader registry"@,
                    }
                },
                _ => r matches Err(m) && m@ == "Rua module name is not valid UTF-8"@,
            },
        },
{
    let loader = match loader {
        Some(l) => l,
        None => {
            return Err("Lua module loader state is gone".to_owned());
        },
    };
    let module = match kept {
        LuaValue::String(s) => match crate::text::from_utf8(s.bytes.as_slice()) {
            Ok(text) => text,
            Err(_) => {
                return Err("Rua module name is not valid UTF-8".to_owned());
            },
        },
        _ => {
            return Err("Rua module name is not valid UTF-8".to_owned());
        },
    };
    match loader.load_module(module) {
        Some(chunk) => Ok(chunk),
        None => {
            let mut m = "Rua module `".to_owned();
            m.append(module);
            m.append("` disappeared from loader registry");
            Err(m)
        },
    }
}

/// The message of a failed load or run: the error object's text, or a default
/// where that is no string.
pub fn failure_message(object: &LuaValue, default: &str) -> (r: String)
    ensures
        r@ == match object@ {
            Val::Str(b, _) => crate::text::lossy_text(b),
            _ => default@,
        },
{
    match object {
        LuaValue::String(s) => crate::text::from_utf8_lossy(s.bytes.as_slice()),
        _ => default.to_owned(),
    }
}

/// The list of searchers with one more in second place.
pub open spec fn with_searcher(t: Tab, searcher: Val) -> Tab {
    if t.array.len() == 0 {
        t.set(Val::Int(2), searcher).settled()
    } else {
        Tab { array: t.array.insert(1, searcher), ..t }.settled()
    }
}

/// The list of searchers in a package table with one more in second place, before
/// those that look at files.
pub fn install_module_searcher(package: &LuaValue, searcher: LuaValue) -> (r: Result<
    TableValue,
    String,
>)
    ensures
        match package@ {
            Val::Table(p) => match p.get(field_key("searchers")) {
                Val::Table(t) => r matches Ok(got) && got@ == with_searcher(t, searcher@),
                _ => r matches Err(m) && m@ == "Lua package.searchers table is unavailable"@,
            },
            _ => r matches Err(m) && m@ == "Lua package table is unavailable"@,
        },
{
    let p = match package {
        LuaValue::Table(p) => p,
        _ => {
            return Err("Lua package table is unavailable".to_owned());
        },
    };
    let key = LuaValue::from_bytes(copy_bytes("searchers".as_bytes()));
    match p.get(&key) {
        Some(LuaValue::Table(t)) => {
            let mut list = t.duplicate();
            if list.array.len() == 0 {
                list.set(LuaValue::Integer(2), searcher);
            } else {
                let ghost before = list@;
                list.array.insert(1, searcher);
                assert(list@.array =~= before.array.insert(1, searcher@));
            }
            list.settle();
            Ok(list)
        },
        _ => Err("Lua package.searchers table is unavailable".to_owned()),
    }
}

/// Installing a searcher keeps the others and their order: the first stays first,
/// and the rest follow the new one.
pub proof fn law_searchers_keep_their_order(t: Tab, searcher: Val)
    requires
        t.array.len() > 0,
        t.hash.len() == 0,
        !(searcher is Nil),
        !(t.array.last() is Nil),
    ensures
        with_searcher(t, searcher).array == seq![t.array[0], searcher] + t.array.skip(1),
{
    let list = Tab { array: t.array.insert(1, searcher), ..t };
    assert(list.array =~= seq![t.array[0], searcher] + t.array.skip(1));
    assert(!(list.array.last() is Nil)) by {
        if t.array.len() > 1 {
            assert(list.array.last() == t.array.last());
        }
    }
    assert(list.settled() == list);
}

} // verus!
