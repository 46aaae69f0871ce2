//! The named connections of a process.
use vstd::prelude::*;
use vstd::string::*;
use vstd::utf8::*;

use crate::laux::LuaStack;
use crate::value::Val;

verus! {

/// `dashmap::DashMap`, a map that can be shared between threads.
#[verifier::external_type_specification]
#[verifier::external_body]
#[verifier::reject_recursive_types(K)]
#[verifier::reject_recursive_types(V)]
#[verifier::reject_recursive_types(S)]
pub struct ExDashMap<K, V, S>(dashmap::DashMap<K, V, S>);

/// What a map from names to connection numbers holds.
pub uninterp spec fn registered(m: dashmap::DashMap<String, u64>) -> Map<Seq<char>, u64>;

/// The map without entries.
pub open spec fn no_connections() -> Map<Seq<char>, u64> {
    Map::empty()
}

/// `DashMap::new` makes an empty map.
#[verifier::external_body]
fn new_map() -> (r: dashmap::DashMap<String, u64>)
    ensures
        registered(r) == no_connections(),
{
    dashmap::DashMap::new()
}

/// `DashMap::insert` puts a value under a key and gives back the one that was
/// there. No reference into the map is held while it runs: it has the map for
/// itself.
#[verifier::external_body]
fn map_insert(m: &mut dashmap::DashMap<String, u64>, key: String, value: u64) -> (r: Option<u64>)
    ensures
        registered(*final(m)) == registered(*old(m)).insert(key@, value),
        r == if registered(*old(m)).dom().contains(key@) {
            Some(registered(*old(m))[key@])
        } else {
            None
        },
{
    m.insert(key, value)
}

/// `DashMap::get` gives the value under a key, if there is one.
#[verifier::external_body]
fn map_get(m: &dashmap::DashMap<String, u64>, key: &str) -> (r: Option<u64>)
    ensures
        r == if registered(*m).dom().contains(key@) {
            Some(registered(*m)[key@])
        } else {
            None
        },
{
    m.get(key).map(|v| *v)
}

/// Whether a number is the one looked for.
fn is_own(found: u64, own: u64) -> (r: bool)
    ensures
        r == (found == own),
{
    found == own
}

/// `DashMap::remove_if` removes a key whose value passes the test, which here is
/// [`is_own`], and nothing else.
#[verifier::external_body]
fn map_remove_if(m: &mut dashmap::DashMap<String, u64>, key: &str, own: u64) -> (r: bool)
    ensures
        r == (registered(*old(m)).dom().contains(key@) && registered(*old(m))[key@] == own),
        registered(*final(m)) == if r {
            registered(*old(m)).remove(key@)
        } else {
            registered(*old(m))
        },
{
    m.remove_if(key, |_, v| is_own(*v, own)).is_some()
}

/// `DashMap::iter` meets every entry once, in an order of its own.
#[verifier::external_body]
fn map_entries(m: &dashmap::DashMap<String, u64>) -> (r: Vec<(String, u64)>)
    ensures
        lists(r@, registered(*m)),
{
    m.iter().map(|e| (e.key().clone(), *e.value())).collect()
}

/// The list has every entry of the map once.
pub open spec fn lists(r: Seq<(String, u64)>, m: Map<Seq<char>, u64>) -> bool {
    &&& forall|i: int|
        0 <= i < r.len() ==> looked_up(m, (#[trigger] r[i]).0@) == Some(r[i].1)
    &&& forall|name: Seq<char>| #[trigger]
        m.dom().contains(name) ==> exists|i: int| 0 <= i < r.len() && (#[trigger] r[i]).0@ == name
    &&& forall|i: int, j: int|
        0 <= i < j < r.len() ==> (#[trigger] r[i]).0@ != (#[trigger] r[j]).0@
}

/// The connections after one was entered.
pub open spec fn connected(m: Map<Seq<char>, u64>, name: Seq<char>, id: u64) -> Map<
    Seq<char>,
    u64,
> {
    m.insert(name, id)
}

/// The connections after one was taken out, if it is still the one of its name.
pub open spec fn closed(m: Map<Seq<char>, u64>, name: Seq<char>, id: u64) -> Map<Seq<char>, u64> {
    if looked_up(m, name) == Some(id) {
        m.remove(name)
    } else {
        m
    }
}

/// The connection of a name.
pub open spec fn looked_up(m: Map<Seq<char>, u64>, name: Seq<char>) -> Option<u64> {
    if m.dom().contains(name) {
        Some(m[name])
    } else {
        None
    }
}

/// The connections by name. A connection is known by a number that the host
/// gives it; no two connections have the same.
pub struct Registry {
    map: dashmap::DashMap<String, u64>,
}

impl View for Registry {
    type V = Map<Seq<char>, u64>;

    closed spec fn view(&self) -> Map<Seq<char>, u64> {
        registered(self.map)
    }
}

impl Registry {
    /// No connections.
    pub fn new() -> (r: Registry)
        ensures
            r@ == no_connections(),
    {
        Registry { map: new_map() }
    }

    /// Enters a connection. One of the same name is replaced and given back, to
    /// be closed.
    pub fn connect(&mut self, name: String, id: u64) -> (replaced: Option<u64>)
        ensures
            final(self)@ == connected(old(self)@, name@, id),
            replaced == looked_up(old(self)@, name@),
    {
        map_insert(&mut self.map, name, id)
    }

    /// Takes a connection out. A later one of the same name stays.
    pub fn close(&mut self, name: &str, id: u64) -> (removed: bool)
        ensures
            removed == (looked_up(old(self)@, name@) == Some(id)),
            final(self)@ == closed(old(self)@, name@, id),
    {
        map_remove_if(&mut self.map, name, id)
    }

    /// The connection of a name.
    pub fn get(&self, name: &str) -> (r: Option<u64>)
        ensures
            r == looked_up(self@, name@),
    {
        map_get(&self.map, name)
    }

    /// All connections, in no particular order.
    pub fn connections(&self) -> (r: Vec<(String, u64)>)
        ensures
            lists(r@, self@),
    {
        map_entries(&self.map)
    }

    /// The connection that a callback asks for by name.
    pub fn find_connection(&self, lua: &LuaStack) -> (r: Result<Option<u64>, String>)
        requires
            lua.wf(),
        ensures
            match lua.slot(1) {
                Some(Val::Str(b, _)) => if valid_utf8(b) {
                    r == Ok::<Option<u64>, String>(looked_up(self@, decode_utf8(b)))
                } else {
                    r matches Err(m) && m@ == "mongodb.find_connection: UTF-8 string expected"@
                },
                _ => r matches Err(m) && m@ == "mongodb.find_connection: UTF-8 string expected"@,
            },
    {
        match lua.value(1).as_str() {
            Some(name) => Ok(self.get(name)),
            None => Err("mongodb.find_connection: UTF-8 string expected".to_owned()),
        }
    }
}

/// Closing through a handle whose connection was replaced since changes nothing:
/// the newer connection stays. Closing through the newer handle takes it out.
pub proof fn law_stale_close_keeps_the_newer(
    m: Map<Seq<char>, u64>,
    name: Seq<char>,
    older: u64,
    newer: u64,
)
    requires
        older != newer,
    ensures
        ({
            let now = connected(connected(m, name, older), name, newer);
            &&& closed(now, name, older) == now
            &&& looked_up(closed(now, name, older), name) == Some(newer)
            &&& looked_up(closed(now, name, newer), name) is None
        }),
{
}

} // verus!
