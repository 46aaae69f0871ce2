//! Options of database operations.
use vstd::prelude::*;
use vstd::string::*;

use crate::bson::{doc_of, document_of, Document, Item};
use crate::cursor::{entries_from, law_walk_meets_every_entry, walk, Place};
use crate::number::{bits64, unsigned64};
use crate::schema_load::view_text;
use crate::text::{from_utf8_lossy, lossy_text};
use crate::value::{kind_name, kind_of, same_bytes, LuaValue, TableValue, Val};

verus! {

/// How a cursor behaves at the end of its results.
#[derive(Clone, Copy, Debug, PartialEq, Eq, Structural)]
pub enum CursorType {
    NonTailable,
    Tailable,
    TailableAwait,
}

/// The cursor type of a name.
pub open spec fn cursor_type_of(name: Seq<u8>) -> Option<CursorType> {
    if name == "NonTailable".spec_bytes() {
        Some(CursorType::NonTailable)
    } else if name == "Tailable".spec_bytes() {
        Some(CursorType::Tailable)
    } else if name == "TailableAwait".spec_bytes() {
        Some(CursorType::TailableAwait)
    } else {
        None
    }
}

fn cursor_type(name: &[u8]) -> (r: Result<CursorType, String>)
    ensures
        match cursor_type_of(name@) {
            Some(c) => r matches Ok(got) && got == c,
            None => r matches Err(m) && m@ == "Invalid cursor type: "@ + lossy_text(name@),
        },
{
    if same_bytes(name, "NonTailable".as_bytes()) {
        Ok(CursorType::NonTailable)
    } else if same_bytes(name, "Tailable".as_bytes()) {
        Ok(CursorType::Tailable)
    } else if same_bytes(name, "TailableAwait".as_bytes()) {
        Ok(CursorType::TailableAwait)
    } else {
        let mut m = "Invalid cursor type: ".to_owned();
        m.append(from_utf8_lossy(name).as_str());
        Err(m)
    }
}

pub open spec fn view_doc(d: Option<Document>) -> Option<Seq<(Seq<char>, Item)>> {
    match d {
        Some(d) => Some(d@),
        None => None,
    }
}

/// An option that must be a table.
pub open spec fn option_doc(complaint: Seq<char>, v: Val) -> Result<
    Seq<(Seq<char>, Item)>,
    Seq<char>,
> {
    match v {
        Val::Table(t) => doc_of(t),
        _ => Err(complaint + kind_name(kind_of(v)) + "\""@),
    }
}

fn doc_option(complaint: &str, v: &LuaValue) -> (r: Result<Document, String>)
    ensures
        match option_doc(complaint@, v@) {
            Ok(d) => r matches Ok(got) && got@ == d,
            Err(e) => r matches Err(m) && m@ == e,
        },
{
    match v {
        LuaValue::Table(t) => document_of(t),
        _ => {
            let mut m = complaint.to_owned();
            m.append(v.kind().name());
            m.append("\"");
            Err(m)
        },
    }
}

/// The low 32 bits of an integer.
pub open spec fn low32(i: i64) -> u32 {
    (unsigned64(i as int) % 0x1_0000_0000) as u32
}

fn low_bits(i: i64) -> (r: u32)
    ensures
        r == low32(i),
{
    (bits64(i) % 0x1_0000_0000) as u32
}

/// Options of a query.
#[derive(Debug, PartialEq)]
pub struct FindOptions {
    pub limit: Option<i64>,
    pub skip: Option<u64>,
    pub sort: Option<Document>,
    pub projection: Option<Document>,
    /// In milliseconds.
    pub max_time: Option<u64>,
    pub batch_size: Option<u32>,
    pub allow_partial_results: Option<bool>,
    pub no_cursor_timeout: Option<bool>,
    pub cursor_type: Option<CursorType>,
    pub read_concern: Option<String>,
}

/// Model of [`FindOptions`].
pub struct FindSet {
    pub limit: Option<i64>,
    pub skip: Option<u64>,
    pub sort: Option<Seq<(Seq<char>, Item)>>,
    pub projection: Option<Seq<(Seq<char>, Item)>>,
    pub max_time: Option<u64>,
    pub batch_size: Option<u32>,
    pub allow_partial_results: Option<bool>,
    pub no_cursor_timeout: Option<bool>,
    pub cursor_type: Option<CursorType>,
    pub read_concern: Option<Seq<char>>,
}

impl View for FindOptions {
    type V = FindSet;

    open spec fn view(&self) -> FindSet {
        FindSet {
            limit: self.limit,
            skip: self.skip,
            sort: view_doc(self.sort),
            projection: view_doc(self.projection),
            max_time: self.max_time,
            batch_size: self.batch_size,
            allow_partial_results: self.allow_partial_results,
            no_cursor_timeout: self.no_cursor_timeout,
            cursor_type: self.cursor_type,
            read_concern: view_text(self.read_concern),
        }
    }
}

impl FindSet {
    /// No option set.
    pub open spec fn unset() -> FindSet {
        FindSet {
            limit: None,
            skip: None,
            sort: None,
            projection: None,
            max_time: None,
            batch_size: None,
            allow_partial_results: None,
            no_cursor_timeout: None,
            cursor_type: None,
            read_concern: None,
        }
    }
}

/// Query options with that of one key set. A value of the wrong type leaves a
/// simple option unset.
pub open spec fn set_find(o: FindSet, key: Seq<u8>, v: Val) -> Result<FindSet, Seq<char>> {
    if key == "limit".spec_bytes() {
        match v {
            Val::Int(i) => Ok(FindSet { limit: Some(i), ..o }),
            _ => Ok(o),
        }
    } else if key == "skip".spec_bytes() {
        match v {
            Val::Int(i) => Ok(FindSet { skip: Some(unsigned64(i as int) as u64), ..o }),
            _ => Ok(o),
        }
    } else if key == "sort".spec_bytes() {
        match option_doc("Invalid sort value type: \""@, v) {
            Ok(d) => Ok(FindSet { sort: Some(d), ..o }),
            Err(e) => Err(e),
        }
    } else if key == "projection".spec_bytes() {
        match option_doc("Invalid projection value type: \""@, v) {
            Ok(d) => Ok(FindSet { projection: Some(d), ..o }),
            Err(e) => Err(e),
        }
    } else if key == "max_time".spec_bytes() {
        match v {
            Val::Int(i) => Ok(FindSet { max_time: Some(unsigned64(i as int) as u64), ..o }),
            _ => Ok(o),
        }
    } else if key == "batch_size".spec_bytes() {
        match v {
            Val::Int(i) => Ok(FindSet { batch_size: Some(low32(i)), ..o }),
            _ => Ok(o),
        }
    } else if key == "allow_partial_results".spec_bytes() {
        match v {
            Val::Bool(b) => Ok(FindSet { allow_partial_results: Some(b), ..o }),
            _ => Ok(o),
        }
    } else if key == "no_cursor_timeout".spec_bytes() {
        match v {
            Val::Bool(b) => Ok(FindSet { no_cursor_timeout: Some(b), ..o }),
            _ => Ok(o),
        }
    } else if key == "cursor_type".spec_bytes() {
        match v {
            Val::Str(b, _) => match cursor_type_of(b) {
                Some(c) => Ok(FindSet { cursor_type: Some(c), ..o }),
                None => Err("Invalid cursor type: "@ + lossy_text(b)),
            },
            _ => Ok(o),
        }
    } else if key == "read_concern".spec_bytes() {
        match v {
            Val::Str(b, _) => Ok(FindSet { read_concern: Some(lossy_text(b)), ..o }),
            _ => Ok(o),
        }
    } else {
        Err("Invalid find_options key: '"@ + lossy_text(key) + "'"@)
    }
}

/// The options that entries set, after those in `done`. Keys that are no strings
/// are passed over.
pub open spec fn find_set(es: Seq<(Val, Val)>, done: FindSet) -> Result<FindSet, Seq<char>>
    decreases es.len(),
{
    if es.len() == 0 {
        Ok(done)
    } else {
        match es[0].0 {
            Val::Str(key, _) => match set_find(done, key, es[0].1) {
                Ok(o) => find_set(es.skip(1), o),
                Err(e) => Err(e),
            },
            _ => find_set(es.skip(1), done),
        }
    }
}

impl FindOptions {
    /// No option set.
    pub fn new() -> (r: FindOptions)
        ensures
            r@ == FindSet::unset(),
    {
        FindOptions {
            limit: None,
            skip: None,
            sort: None,
            projection: None,
            max_time: None,
            batch_size: None,
            allow_partial_results: None,
            no_cursor_timeout: None,
            cursor_type: None,
            read_concern: None,
        }
    }

    /// Sets the option of a key.
    fn put(&mut self, key: &[u8], v: &LuaValue) -> (r: Result<(), String>)
        ensures
            match set_find(old(self)@, key@, v@) {
                Ok(o) => r is Ok && final(self)@ == o,
                Err(e) => r matches Err(m) && m@ == e,
            },
    {
        if same_bytes(key, "limit".as_bytes()) {
            if let LuaValue::Integer(i) = v {
                self.limit = Some(*i);
            }
        } else if same_bytes(key, "skip".as_bytes()) {
            if let LuaValue::Integer(i) = v {
                self.skip = Some(bits64(*i));
            }
        } else if same_bytes(key, "sort".as_bytes()) {
            self.sort = Some(doc_option("Invalid sort value type: \"", v)?);
        } else if same_bytes(key, "projection".as_bytes()) {
            self.projection = Some(doc_option("Invalid projection value type: \"", v)?);
        } else if same_bytes(key, "max_time".as_bytes()) {
            if let LuaValue::Integer(i) = v {
                self.max_time = Some(bits64(*i));
            }
        } else if same_bytes(key, "batch_size".as_bytes()) {
            if let LuaValue::Integer(i) = v {
                self.batch_size = Some(low_bits(*i));
            }
        } else if same_bytes(key, "allow_partial_results".as_bytes()) {
            if let LuaValue::Boolean(b) = v {
                self.allow_partial_results = Some(*b);
            }
        } else if same_bytes(key, "no_cursor_timeout".as_bytes()) {
            if let LuaValue::Boolean(b) = v {
                self.no_cursor_timeout = Some(*b);
            }
        } else if same_bytes(key, "cursor_type".as_bytes()) {
            if let LuaValue::String(s) = v {
                self.cursor_type = Some(cursor_type(s.bytes.as_slice())?);
            }
        } else if same_bytes(key, "read_concern".as_bytes()) {
            if let LuaValue::String(s) = v {
                self.read_concern = Some(from_utf8_lossy(s.bytes.as_slice()));
            }
        } else {
            let mut m = "Invalid find_options key: '".to_owned();
            m.append(from_utf8_lossy(key).as_str());
            m.append("'");
            return Err(m);
        }
        Ok(())
    }
}

/// Reads the options in a table.
pub fn extract_find_options(t: &TableValue) -> (r: Result<FindOptions, String>)
    ensures
        match find_set(t@.entries(), FindSet::unset()) {
            Ok(o) => r matches Ok(got) && got@ == o,
            Err(e) => r matches Err(m) && m@ == e,
        },
{
    let mut options = FindOptions::new();
    let mut place = Place { elements: 0, others: 0 };
    proof {
        law_walk_meets_every_entry(t@);
    }
    let ghost want = find_set(t@.entries(), FindSet::unset());
    loop
        invariant
            place.within(t@),
            want == find_set(t@.entries(), FindSet::unset()),
            want == find_set(entries_from(t@, place.at()), options@),
        decreases t@.array.len() + t@.hash.len() - place.at(),
    {
        match walk(t, place) {
            None => {
                return Ok(options);
            },
            Some((key, value, next)) => {
                let ghost rest = entries_from(t@, place.at());
                if let LuaValue::String(s) = &key {
                    options.put(s.bytes.as_slice(), value)?;
                }
                place = next;
            },
        }
    }
}

/// Options of the creation of an index.
#[derive(Debug, PartialEq)]
pub struct CreateIndexOptions {
    /// In seconds.
    pub max_time: Option<u64>,
}

/// Model of [`CreateIndexOptions`].
pub struct CreateSet {
    pub max_time: Option<u64>,
}

impl View for CreateIndexOptions {
    type V = CreateSet;

    open spec fn view(&self) -> CreateSet {
        CreateSet {
            max_time: self.max_time,
        }
    }
}

impl CreateSet {
    /// No option set.
    pub open spec fn unset() -> CreateSet {
        CreateSet {
            max_time: None,
        }
    }
}

/// Creation options with that of one key set.
pub open spec fn set_create(o: CreateSet, key: Seq<u8>, v: Val) -> Result<CreateSet, Seq<char>> {
    if key == "max_time".spec_bytes() {
        match v {
            Val::Int(i) => Ok(CreateSet { max_time: Some(unsigned64(i as int) as u64), ..o }),
            _ => Ok(o),
        }
    } else {
        Err("Invalid key: "@ + lossy_text(key))
    }
}

/// The options that entries set, after those in `done`. Keys that are no strings
/// are passed over.
pub open spec fn create_set(es: Seq<(Val, Val)>, done: CreateSet) -> Result<CreateSet, Seq<char>>
    decreases es.len(),
{
    if es.len() == 0 {
        Ok(done)
    } else {
        match es[0].0 {
            Val::Str(key, _) => match set_create(done, key, es[0].1) {
                Ok(o) => create_set(es.skip(1), o),
                Err(e) => Err(e),
            },
            _ => create_set(es.skip(1), done),
        }
    }
}

impl CreateIndexOptions {
    /// No option set.
    pub fn new() -> (r: CreateIndexOptions)
        ensures
            r@ == CreateSet::unset(),
    {
        CreateIndexOptions {
            max_time: None,
        }
    }

    /// Sets the option of a key.
    fn put(&mut self, key: &[u8], v: &LuaValue) -> (r: Result<(), String>)
        ensures
            match set_create(old(self)@, key@, v@) {
                Ok(o) => r is Ok && final(self)@ == o,
                Err(e) => r matches Err(m) && m@ == e,
            },
    {
        if same_bytes(key, "max_time".as_bytes()) {
            if let LuaValue::Integer(i) = v {
                self.max_time = Some(bits64(*i));
            }
        } else {
            let mut m = "Invalid key: ".to_owned();
            m.append(from_utf8_lossy(key).as_str());
            return Err(m);
        }
        Ok(())
    }
}

/// Reads the options in a table.
pub fn extract_create_index_options(t: &TableValue) -> (r: Result<CreateIndexOptions, String>)
    ensures
        match create_set(t@.entries(), CreateSet::unset()) {
            Ok(o) => r matches Ok(got) && got@ == o,
            Err(e) => r matches Err(m) && m@ == e,
        },
{
    let mut options = CreateIndexOptions::new();
    let mut place = Place { elements: 0, others: 0 };
    proof {
        law_walk_meets_every_entry(t@);
    }
    let ghost want = create_set(t@.entries(), CreateSet::unset());
    loop
        invariant
            place.within(t@),
            want == create_set(t@.entries(), CreateSet::unset()),
            want == create_set(entries_from(t@, place.at()), options@),
        decreases t@.array.len() + t@.hash.len() - place.at(),
    {
        match walk(t, place) {
            None => {
                return Ok(options);
            },
            Some((key, value, next)) => {
                let ghost rest = entries_from(t@, place.at());
                if let LuaValue::String(s) = &key {
                    options.put(s.bytes.as_slice(), value)?;
                }
                place = next;
            },
        }
    }
}

/// Options of an index.
#[derive(Debug, PartialEq)]
pub struct IndexOptions {
    pub name: Option<String>,
    pub unique: Option<bool>,
    pub background: Option<bool>,
    pub sparse: Option<bool>,
    pub storage_engine: Option<Document>,
    pub partial_filter_expression: Option<Document>,
    pub wildcard_projection: Option<Document>,
    pub hidden: Option<bool>,
    pub default_language: Option<String>,
    pub language_override: Option<String>,
    pub weights: Option<Document>,
    pub bits: Option<u32>,
    /// As a bit pattern, like the next.
    pub max: Option<u64>,
    pub min: Option<u64>,
    pub bucket_size: Option<u32>,
}

/// Model of [`IndexOptions`].
pub struct IndexSet {
    pub name: Option<Seq<char>>,
    pub unique: Option<bool>,
    pub background: Option<bool>,
    pub sparse: Option<bool>,
    pub storage_engine: Option<Seq<(Seq<char>, Item)>>,
    pub partial_filter_expression: Option<Seq<(Seq<char>, Item)>>,
    pub wildcard_projection: Option<Seq<(Seq<char>, Item)>>,
    pub hidden: Option<bool>,
    pub default_language: Option<Seq<char>>,
    pub language_override: Option<Seq<char>>,
    pub weights: Option<Seq<(Seq<char>, Item)>>,
    pub bits: Option<u32>,
    pub max: Option<u64>,
    pub min: Option<u64>,
    pub bucket_size: Option<u32>,
}

impl View for IndexOptions {
    type V = IndexSet;

    open spec fn view(&self) -> IndexSet {
        IndexSet {
            name: view_text(self.name),
            unique: self.unique,
            background: self.background,
            sparse: self.sparse,
            storage_engine: view_doc(self.storage_engine),
            partial_filter_expression: view_doc(self.partial_filter_expression),
            wildcard_projection: view_doc(self.wildcard_projection),
            hidden: self.hidden,
            default_language: view_text(self.default_language),
            language_override: view_text(self.language_override),
            weights: view_doc(self.weights),
            bits: self.bits,
            max: self.max,
            min: self.min,
            bucket_size: self.bucket_size,
        }
    }
}

impl IndexSet {
    /// No option set.
    pub open spec fn unset() -> IndexSet {
        IndexSet {
            name: None,
            unique: None,
            background: None,
            sparse: None,
            storage_engine: None,
            partial_filter_expression: None,
            wildcard_projection: None,
            hidden: None,
            default_language: None,
            language_override: None,
            weights: None,
            bits: None,
            max: None,
            min: None,
            bucket_size: None,
        }
    }
}

/// Index options with that of one key set. A value of the wrong type leaves a
/// simple option unset.
pub open spec fn set_index(o: IndexSet, key: Seq<u8>, v: Val) -> Result<IndexSet, Seq<char>> {
    if key == "name".spec_bytes() {
        match v {
            Val::Str(b, _) => Ok(IndexSet { name: Some(lossy_text(b)), ..o }),
            _ => Ok(o),
        }
    } else if key == "unique".spec_bytes() {
        match v {
            Val::Bool(b) => Ok(IndexSet { unique: Some(b), ..o }),
            _ => Ok(o),
        }
    } else if key == "background".spec_bytes() {
        match v {
            Val::Bool(b) => Ok(IndexSet { background: Some(b), ..o }),
            _ => Ok(o),
        }
    } else if key == "sparse".spec_bytes() {
        match v {
            Val::Bool(b) => Ok(IndexSet { sparse: Some(b), ..o }),
            _ => Ok(o),
        }
    } else if key == "storage_engine".spec_bytes() {
        match option_doc("Invalid storage_engine value type: \""@, v) {
            Ok(d) => Ok(IndexSet { storage_engine: Some(d), ..o }),
            Err(e) => Err(e),
        }
    } else if key == "partial_filter_expression".spec_bytes() {
        match option_doc("Invalid partial_filter_expression value type: \""@, v) {
            Ok(d) => Ok(IndexSet { partial_filter_expression: Some(d), ..o }),
            Err(e) => Err(e),
        }
    } else if key == "wildcard_projection".spec_bytes() {
        match option_doc("Invalid wildcard_projection value type: \""@, v) {
            Ok(d) => Ok(IndexSet { wildcard_projection: Some(d), ..o }),
            Err(e) => Err(e),
        }
    } else if key == "hidden".spec_bytes() {
        match v {
            Val::Bool(b) => Ok(IndexSet { hidden: Some(b), ..o }),
            _ => Ok(o),
        }
    } else if key == "default_language".spec_bytes() {
        match v {
            Val::Str(b, _) => Ok(IndexSet { default_language: Some(lossy_text(b)), ..o }),
            _ => Ok(o),
        }
    } else if key == "language_override".spec_bytes() {
        match v {
            Val::Str(b, _) => Ok(IndexSet { language_override: Some(lossy_text(b)), ..o }),
            _ => Ok(o),
        }
    } else if key == "weights".spec_bytes() {
        match option_doc("Invalid weights value type: \""@, v) {
            Ok(d) => Ok(IndexSet { weights: Some(d), ..o }),
            Err(e) => Err(e),
        }
    } else if key == "bits".spec_bytes() {
        match v {
            Val::Int(i) => Ok(IndexSet { bits: Some(low32(i)), ..o }),
            _ => Ok(o),
        }
    } else if key == "max".spec_bytes() {
        match v {
            Val::Num(bits, _) => Ok(IndexSet { max: Some(bits), ..o }),
            _ => Ok(o),
        }
    } else if key == "min".spec_bytes() {
        match v {
            Val::Num(bits, _) => Ok(IndexSet { min: Some(bits), ..o }),
            _ => Ok(o),
        }
    } else if key == "bucket_size".spec_bytes() {
        match v {
            Val::Int(i) => Ok(IndexSet { bucket_size: Some(low32(i)), ..o }),
            _ => Ok(o),
        }
    } else {
        Err("Invalid key: "@ + lossy_text(key))
    }
}

/// The options that entries set, after those in `done`. Keys that are no strings
/// are passed over.
pub open spec fn index_set(es: Seq<(Val, Val)>, done: IndexSet) -> Result<IndexSet, Seq<char>>
    decreases es.len(),
{
    if es.len() == 0 {
        Ok(done)
    } else {
        match es[0].0 {
            Val::Str(key, _) => match set_index(done, key, es[0].1) {
                Ok(o) => index_set(es.skip(1), o),
                Err(e) => Err(e),
            },
            _ => index_set(es.skip(1), done),
        }
    }
}

impl IndexOptions {
    /// No option set.
    pub fn new() -> (r: IndexOptions)
        ensures
            r@ == IndexSet::unset(),
    {
        IndexOptions {
            name: None,
            unique: None,
            background: None,
            sparse: None,
            storage_engine: None,
            partial_filter_expression: None,
            wildcard_projection: None,
            hidden: None,
            default_language: None,
            language_override: None,
            weights: None,
            bits: None,
            max: None,
            min: None,
            bucket_size: None,
        }
    }

    /// Sets the option of a key.
    fn put(&mut self, key: &[u8], v: &LuaValue) -> (r: Result<(), String>)
        ensures
            match set_index(old(self)@, key@, v@) {
                Ok(o) => r is Ok && final(self)@ == o,
                Err(e) => r matches Err(m) && m@ == e,
            },
    {
        if same_bytes(key, "name".as_bytes()) {
            if let LuaValue::String(s) = v {
                self.name = Some(from_utf8_lossy(s.bytes.as_slice()));
            }
        } else if same_bytes(key, "unique".as_bytes()) {
            if let LuaValue::Boolean(b) = v {
                self.unique = Some(*b);
            }
        } else if same_bytes(key, "background".as_bytes()) {
            if let LuaValue::Boolean(b) = v {
                self.background = Some(*b);
            }
        } else if same_bytes(key, "sparse".as_bytes()) {
            if let LuaValue::Boolean(b) = v {
                self.sparse = Some(*b);
            }
        } else if same_bytes(key, "storage_engine".as_bytes()) {
            self.storage_engine = Some(doc_option("Invalid storage_engine value type: \"", v)?);
        } else if same_bytes(key, "partial_filter_expression".as_bytes()) {
            self.partial_filter_expression = Some(doc_option("Invalid partial_filter_expression value type: \"", v)?);
        } else if same_bytes(key, "wildcard_projection".as_bytes()) {
            self.wildcard_projection = Some(doc_option("Invalid wildcard_projection value type: \"", v)?);
        } else if same_bytes(key, "hidden".as_bytes()) {
            if let LuaValue::Boolean(b) = v {
                self.hidden = Some(*b);
            }
        } else if same_bytes(key, "default_language".as_bytes()) {
            if let LuaValue::String(s) = v {
                self.default_language = Some(from_utf8_lossy(s.bytes.as_slice()));
            }
        } else if same_bytes(key, "language_override".as_bytes()) {
            if let LuaValue::String(s) = v {
                self.language_override = Some(from_utf8_lossy(s.bytes.as_slice()));
            }
        } else if same_bytes(key, "weights".as_bytes()) {
            self.weights = Some(doc_option("Invalid weights value type: \"", v)?);
        } else if same_bytes(key, "bits".as_bytes()) {
            if let LuaValue::Integer(i) = v {
                self.bits = Some(low_bits(*i));
            }
        } else if same_bytes(key, "max".as_bytes()) {
            if let LuaValue::Number(n) = v {
                self.max = Some(n.bits);
            }
        } else if same_bytes(key, "min".as_bytes()) {
            if let LuaValue::Number(n) = v {
                self.min = Some(n.bits);
            }
        } else if same_bytes(key, "bucket_size".as_bytes()) {
            if let LuaValue::Integer(i) = v {
                self.bucket_size = Some(low_bits(*i));
            }
        } else {
            let mut m = "Invalid key: ".to_owned();
            m.append(from_utf8_lossy(key).as_str());
            return Err(m);
        }
        Ok(())
    }
}

/// Reads the options in a table.
pub fn extract_index_options(t: &TableValue) -> (r: Result<IndexOptions, String>)
    ensures
        match index_set(t@.entries(), IndexSet::unset()) {
            Ok(o) => r matches Ok(got) && got@ == o,
            Err(e) => r matches Err(m) && m@ == e,
        },
{
    let mut options = IndexOptions::new();
    let mut place = Place { elements: 0, others: 0 };
    proof {
        law_walk_meets_every_entry(t@);
    }
    let ghost want = index_set(t@.entries(), IndexSet::unset());
    loop
        invariant
            place.within(t@),
            want == index_set(t@.entries(), IndexSet::unset()),
            want == index_set(entries_from(t@, place.at()), options@),
        decreases t@.array.len() + t@.hash.len() - place.at(),
    {
        match walk(t, place) {
            None => {
                return Ok(options);
            },
            Some((key, value, next)) => {
                let ghost rest = entries_from(t@, place.at());
                if let LuaValue::String(s) = &key {
                    options.put(s.bytes.as_slice(), value)?;
                }
                place = next;
            },
        }
    }
}

} // verus!
