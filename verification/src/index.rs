//! The hierarchical device index: a flat map from canonical path string
//! to payload, plus one port trie per bus whose payloads are the keys of
//! the flat map.
//!
//! The double indirection lets the flat map stay the single owner of the
//! payloads while the per-bus tries provide a structure-only index.  Its
//! invariant — every key stored in a trie names its own location and is
//! present in the flat map — is maintained solely by the single insertion
//! entry point, [`UsbTree::insert_path`].

use vstd::prelude::*;
use vstd::slice::slice_to_vec;
use vstd::string::StrSliceExecFns;
use vstd::string::StringExecFns;

use crate::digits::dec_digits;
use crate::digits::parse_u8_range;
use crate::digits::spec_parse_u8;
use crate::digits::u8_to_decimal;
use crate::error::DevicePathError;
use crate::error::TreeErrView;
use crate::error::UsbTreeError;
use crate::path::spec_key;
use crate::path::spec_parse_path;
use crate::path::DevicePath;
use crate::path::PathView;
use crate::tree::lemma_desc_contains_value;
use crate::tree::lemma_desc_value_exists;
use crate::tree::lemma_spec_node_append;
use crate::tree::lemma_spec_node_wf;
use crate::tree::lemma_child_in_index;
use crate::tree::child_in;
use crate::tree::is_port_prefix;
use crate::tree::lemma_child_in_absent;
use crate::tree::lemma_child_in_insert;
use crate::tree::lemma_child_in_present;
use crate::tree::lemma_child_in_update;
use crate::tree::lemma_leaf_nodes;
use crate::tree::PortTree;

verus! {

/// The payload of the first entry of `s` keyed by the string `k`, if any.
pub open spec fn assoc_in<T>(s: Seq<(String, T)>, k: Seq<char>) -> Option<T>
    decreases s.len(),
{
    if s.len() == 0 {
        Option::None
    } else if s[0].0@ == k {
        Option::Some(s[0].1)
    } else {
        assoc_in(s.drop_first(), k)
    }
}

pub proof fn lemma_assoc_present<T>(s: Seq<(String, T)>, i: int)
    requires
        0 <= i < s.len(),
        forall|j: int| 0 <= j < i ==> (#[trigger] s[j].0)@ != s[i].0@,
    ensures
        assoc_in(s, s[i].0@) == Option::Some(s[i].1),
    decreases s.len(),
{
    if i > 0 {
        let rest = s.drop_first();
        assert(rest[i - 1] == s[i]);
        assert forall|j: int| 0 <= j < i - 1 implies (#[trigger] rest[j].0)@ != rest[i - 1].0@ by {
            assert(rest[j] == s[j + 1]);
        }
        lemma_assoc_present(rest, i - 1);
    }
}

pub proof fn lemma_assoc_absent<T>(s: Seq<(String, T)>, k: Seq<char>)
    requires
        forall|j: int| 0 <= j < s.len() ==> (#[trigger] s[j].0)@ != k,
    ensures
        assoc_in(s, k) == Option::None::<T>,
    decreases s.len(),
{
    if s.len() > 0 {
        let rest = s.drop_first();
        assert(forall|j: int| 0 <= j < rest.len() ==> rest[j] == s[j + 1]);
        lemma_assoc_absent(rest, k);
    }
}

/// Replacing the payload of one entry (key unchanged) leaves every other
/// key resolving as before.
pub proof fn lemma_assoc_update<T>(s: Seq<(String, T)>, i: int, e: (String, T), k: Seq<char>)
    requires
        0 <= i < s.len(),
        s[i].0@ == e.0@,
        k != e.0@,
    ensures
        assoc_in(s.update(i, e), k) == assoc_in(s, k),
    decreases s.len(),
{
    let t = s.update(i, e);
    if i == 0 {
        assert(t[0].0@ == s[0].0@);
        assert(t.drop_first() =~= s.drop_first());
    } else {
        assert(t[0] == s[0]);
        if s[0].0@ != k {
            assert(t.drop_first() =~= s.drop_first().update(i - 1, e));
            assert(s.drop_first()[i - 1] == s[i]);
            lemma_assoc_update(s.drop_first(), i - 1, e, k);
        }
    }
}

/// Appending an entry under a fresh key leaves every other key resolving
/// as before, and resolves the fresh key to the new payload.
pub proof fn lemma_assoc_push<T>(s: Seq<(String, T)>, e: (String, T), k: Seq<char>)
    requires
        forall|j: int| 0 <= j < s.len() ==> (#[trigger] s[j].0)@ != e.0@,
    ensures
        k == e.0@ ==> assoc_in(s.push(e), k) == Option::Some(e.1),
        k != e.0@ ==> assoc_in(s.push(e), k) == assoc_in(s, k),
    decreases s.len(),
{
    let t = s.push(e);
    if s.len() == 0 {
        assert(t[0] == e);
        assert(t.drop_first() =~= Seq::<(String, T)>::empty());
    } else {
        assert(t[0] == s[0]);
        assert(t.drop_first() =~= s.drop_first().push(e));
        assert(forall|j: int| 0 <= j < s.drop_first().len() ==> s.drop_first()[j] == s[j + 1]);
        lemma_assoc_push(s.drop_first(), e, k);
    }
}

/// Where a fresh bus number lands in the ascending bus list.
pub open spec fn spec_bus_insert_pos(buses: Seq<u8>, bus: u8) -> int
    decreases buses.len(),
{
    if buses.len() == 0 {
        0
    } else if buses[0] < bus {
        1 + spec_bus_insert_pos(buses.drop_first(), bus)
    } else {
        0
    }
}

proof fn lemma_bus_insert_pos(buses: Seq<u8>, bus: u8, pos: int)
    requires
        0 <= pos <= buses.len(),
        forall|j: int| 0 <= j < pos ==> (#[trigger] buses[j]) < bus,
        pos < buses.len() ==> buses[pos] >= bus,
    ensures
        spec_bus_insert_pos(buses, bus) == pos,
    decreases buses.len(),
{
    if buses.len() > 0 && buses[0] < bus {
        let rest = buses.drop_first();
        assert(forall|j: int| 0 <= j < rest.len() ==> rest[j] == buses[j + 1]);
        lemma_bus_insert_pos(rest, bus, pos - 1);
    }
}

/// A device index over payload type `T`: a flat map from canonical path
/// string to payload, and per-bus key tries.
#[derive(Debug)]
pub struct UsbTree<T> {
    /// Flat association of canonical path string to payload; keys unique.
    devices: Vec<(String, T)>,
    /// Per-bus tries of flat-map keys, sorted strictly by bus number.
    tree: Vec<(u8, PortTree<String>)>,
}

impl<T> UsbTree<T> {
    /// The payload stored under the exact key string `k`, if any.
    pub closed spec fn spec_get_key(self, k: Seq<char>) -> Option<T> {
        assoc_in(self.devices@, k)
    }

    /// The number of stored devices.
    pub closed spec fn spec_len(self) -> nat {
        self.devices@.len()
    }

    /// The structural trie of bus `bus`, if that bus is known.
    pub closed spec fn spec_bus_trie(self, bus: u8) -> Option<PortTree<String>> {
        child_in(self.tree@, bus)
    }

    /// The key string stored at port chain `q` of bus `bus`, if any.
    pub open spec fn loc_key(self, bus: u8, q: Seq<u8>) -> Option<String> {
        match self.spec_bus_trie(bus) {
            Option::Some(t) => t.value_at(q),
            Option::None => Option::None,
        }
    }

    /// Whether a trie node exists at port chain `q` of bus `bus`.
    pub open spec fn has_loc(self, bus: u8, q: Seq<u8>) -> bool {
        match self.spec_bus_trie(bus) {
            Option::Some(t) => t.has_node(q),
            Option::None => false,
        }
    }

    /// The bus numbers of the known buses, in ascending order.
    pub closed spec fn spec_buses(self) -> Seq<u8> {
        self.tree@.map_values(|e: (u8, PortTree<String>)| e.0)
    }

    /// The index invariant: flat-map keys are unique, buses are strictly
    /// sorted, every trie is well-formed, and every key stored in a trie
    /// names its own location and resolves in the flat map.
    pub closed spec fn wf(self) -> bool {
        &&& forall|i: int, j: int|
            0 <= i < j < self.devices@.len() ==> (#[trigger] self.devices@[i].0)@
                != (#[trigger] self.devices@[j].0)@
        &&& forall|i: int, j: int|
            0 <= i < j < self.tree@.len() ==> (#[trigger] self.tree@[i].0)
                < (#[trigger] self.tree@[j].0)
        &&& forall|i: int| 0 <= i < self.tree@.len() ==> (#[trigger] self.tree@[i].1).wf()
        &&& forall|i: int, q: Seq<u8>|
            0 <= i < self.tree@.len() && (#[trigger] self.tree@[i].1.value_at(q)) is Some ==> {
                let k = self.tree@[i].1.value_at(q)->0;
                k@ == spec_key(self.tree@[i].0, q) && assoc_in(self.devices@, k@) is Some
            }
    }
}

impl<T> Default for UsbTree<T> {
    /// An empty index.
    fn default() -> (r: Self)
        ensures
            r.wf(),
            r.spec_len() == 0,
            forall|k: Seq<char>| #[trigger] r.spec_get_key(k) is None,
            forall|b: u8| #[trigger] r.spec_bus_trie(b) is None,
    {
        Self::new()
    }
}

impl<T> UsbTree<T> {
    /// Create an empty index.
    pub fn new() -> (r: Self)
        ensures
            r.wf(),
            r.spec_len() == 0,
            forall|k: Seq<char>| #[trigger] r.spec_get_key(k) is None,
            forall|b: u8| #[trigger] r.spec_bus_trie(b) is None,
    {
        let r = UsbTree { devices: Vec::new(), tree: Vec::new() };
        proof {
            assert forall|k: Seq<char>| #[trigger] r.spec_get_key(k) is None by {
                lemma_assoc_absent::<T>(r.devices@, k);
            }
            assert forall|b: u8| #[trigger] r.spec_bus_trie(b) is None by {
                lemma_child_in_absent::<String>(r.tree@, b);
            }
        }
        r
    }

    /// The index of the flat-map entry with key `key`, if present.
    fn find_key_index(&self, key: &String) -> (r: Option<usize>)
        ensures
            match r {
                Option::Some(i) => i < self.devices@.len() && self.devices@[i as int].0@ == key@
                    && forall|j: int| 0 <= j < i ==> (#[trigger] self.devices@[j].0)@ != key@,
                Option::None => forall|j: int|
                    0 <= j < self.devices@.len() ==> (#[trigger] self.devices@[j].0)@ != key@,
            },
    {
        let n = self.devices.len();
        let mut i: usize = 0;
        while i < n
            invariant
                i <= n == self.devices@.len(),
                forall|j: int| 0 <= j < i ==> (#[trigger] self.devices@[j].0)@ != key@,
            decreases n - i,
        {
            if self.devices[i].0.eq(key) {
                return Option::Some(i);
            }
            i += 1;
        }
        Option::None
    }

    /// The index of the trie entry of bus `bus`, if present.
    fn find_bus_index(&self, bus: u8) -> (r: Option<usize>)
        ensures
            match r {
                Option::Some(i) => i < self.tree@.len() && self.tree@[i as int].0 == bus
                    && forall|j: int| 0 <= j < i ==> (#[trigger] self.tree@[j].0) != bus,
                Option::None => forall|j: int|
                    0 <= j < self.tree@.len() ==> (#[trigger] self.tree@[j].0) != bus,
            },
    {
        let n = self.tree.len();
        let mut i: usize = 0;
        while i < n
            invariant
                i <= n == self.tree@.len(),
                forall|j: int| 0 <= j < i ==> (#[trigger] self.tree@[j].0) != bus,
            decreases n - i,
        {
            if self.tree[i].0 == bus {
                return Option::Some(i);
            }
            i += 1;
        }
        Option::None
    }

    /// Insert `value` at `path`: store it in the flat map under the
    /// canonical key (overwriting any prior payload at that exact key),
    /// and record the key in the bus's trie at the path's port chain.
    ///
    /// This is the single mutation entry point of the index.
    #[verifier::loop_isolation(false)]
    #[verifier::rlimit(100)]
    pub fn insert_path(&mut self, path: &DevicePath, value: T)
        requires
            old(self).wf(),
        ensures
            final(self).wf(),
            forall|k: Seq<char>|
                #![trigger final(self).spec_get_key(k)]
                final(self).spec_get_key(k) == (if k == path@.key() {
                    Option::Some(value)
                } else {
                    old(self).spec_get_key(k)
                }),
            forall|b: u8, q: Seq<u8>|
                #![trigger final(self).loc_key(b, q)]
                (if b == path@.bus && q == path@.ports {
                    final(self).loc_key(b, q) is Some && final(self).loc_key(b, q)->0@
                        == path@.key()
                } else {
                    final(self).loc_key(b, q) == old(self).loc_key(b, q)
                }),
            forall|b: u8, q: Seq<u8>|
                #![trigger final(self).has_loc(b, q)]
                final(self).has_loc(b, q) == (old(self).has_loc(b, q) || (b == path@.bus
                    && is_port_prefix(q, path@.ports))),
            final(self).spec_buses() == (if old(self).spec_bus_trie(path@.bus) is Some {
                old(self).spec_buses()
            } else {
                old(self).spec_buses().insert(
                    spec_bus_insert_pos(old(self).spec_buses(), path@.bus),
                    path@.bus,
                )
            }),
    {
        let key = path.to_key();
        let ghost kview = path@.key();
        let ghost keyg = key;
        let ghost predev = self.devices@;
        match self.find_key_index(&key) {
            Option::Some(i) => {
                let mut e = self.devices.remove(i);
                e.1 = value;
                let ghost eg = e;
                self.devices.insert(i, e);
                proof {
                    let cur = self.devices@;
                    assert(cur =~= predev.update(i as int, eg));
                    assert(eg.0@ == kview);
                    assert forall|k: Seq<char>|
                        #![trigger assoc_in(cur, k)]
                        assoc_in(cur, k) == (if k == kview {
                            Option::Some(value)
                        } else {
                            assoc_in(predev, k)
                        }) by {
                        if k == kview {
                            assert forall|j: int| 0 <= j < i implies (#[trigger] cur[j].0)@
                                != cur[i as int].0@ by {
                                assert(cur[j] == predev[j]);
                            }
                            lemma_assoc_present(cur, i as int);
                        } else {
                            lemma_assoc_update(predev, i as int, eg, k);
                        }
                    }
                    assert forall|a: int, b: int|
                        0 <= a < b < cur.len() implies (#[trigger] cur[a].0)@
                        != (#[trigger] cur[b].0)@ by {
                        assert(cur[a].0@ == predev[a].0@);
                        assert(cur[b].0@ == predev[b].0@);
                    }
                }
            },
            Option::None => {
                let e = (key.clone(), value);
                let ghost eg = e;
                self.devices.push(e);
                proof {
                    let cur = self.devices@;
                    assert(cur =~= predev.push(eg));
                    assert(eg.0@ == kview);
                    assert forall|k: Seq<char>|
                        #![trigger assoc_in(cur, k)]
                        assoc_in(cur, k) == (if k == kview {
                            Option::Some(value)
                        } else {
                            assoc_in(predev, k)
                        }) by {
                        lemma_assoc_push(predev, eg, k);
                    }
                    assert forall|a: int, b: int|
                        0 <= a < b < cur.len() implies (#[trigger] cur[a].0)@
                        != (#[trigger] cur[b].0)@ by {
                        if b == predev.len() {
                            assert(cur[a] == predev[a]);
                            assert(cur[b] == eg);
                        } else {
                            assert(cur[a] == predev[a]);
                            assert(cur[b] == predev[b]);
                        }
                    }
                }
            },
        }
        let ghost middev = self.devices@;
        let bus = path.bus();
        let ghost pretree = self.tree@;
        match self.find_bus_index(bus) {
            Option::Some(bi) => {
                proof {
                    lemma_child_in_present(pretree, bi as int);
                }
                let ghost oldt = self.tree@[bi as int].1;
                let mut e = self.tree.remove(bi);
                e.1.insert(path.ports(), key);
                let ghost newt = e.1;
                self.tree.insert(bi, e);
                proof {
                    assert(self.tree@ =~= pretree.update(bi as int, (bus, newt)));
                    assert forall|j: int| 0 <= j < bi implies (#[trigger] self.tree@[j].0)
                        != bus by {
                        assert(self.tree@[j] == pretree[j]);
                        assert(pretree[j].0 < pretree[bi as int].0);
                    }
                    lemma_child_in_present(self.tree@, bi as int);
                    assert(child_in(self.tree@, bus) == Option::Some(newt));
                    assert forall|b: u8| b != bus implies #[trigger] child_in(self.tree@, b)
                        == child_in(pretree, b) by {
                        lemma_child_in_update(pretree, bi as int, (bus, newt), b);
                    }
                    assert(self.spec_buses() =~= old(self).spec_buses());
                    lemma_insert_tail(
                        *old(self),
                        *self,
                        path@,
                        value,
                        kview,
                        keyg,
                        middev,
                        bus,
                        newt,
                        oldt,
                        true,
                        bi as int,
                    );
                }
            },
            Option::None => {
                proof {
                    lemma_child_in_absent(pretree, bus);
                }
                let mut t: PortTree<String> = PortTree::new();
                let ghost tinit = t;
                t.insert(path.ports(), key);
                let ghost newt = t;
                let n = self.tree.len();
                let mut pos: usize = 0;
                while pos < n && self.tree[pos].0 < bus
                    invariant
                        pos <= n,
                        forall|j: int| 0 <= j < pos ==> (#[trigger] self.tree@[j].0) < bus,
                    decreases n - pos,
                {
                    pos += 1;
                }
                proof {
                    assert forall|j: int|
                        pos <= j < self.tree@.len() implies (#[trigger] self.tree@[j].0)
                        > bus by {
                        assert(self.tree@[pos as int].0 >= bus);
                        assert(self.tree@[pos as int].0 != bus);
                        if j > pos {
                            assert(self.tree@[pos as int].0 < self.tree@[j].0);
                        }
                    }
                    lemma_bus_insert_pos(self.spec_buses(), bus, pos as int);
                }
                self.tree.insert(pos, (bus, t));
                proof {
                    assert(self.tree@ =~= pretree.insert(pos as int, (bus, newt)));
                    assert forall|j: int| 0 <= j < pos implies (#[trigger] self.tree@[j].0)
                        != bus by {
                        assert(self.tree@[j] == pretree[j]);
                    }
                    assert(self.tree@[pos as int] == (bus, newt));
                    lemma_child_in_present(self.tree@, pos as int);
                    assert(child_in(self.tree@, bus) == Option::Some(newt));
                    assert forall|b: u8| b != bus implies #[trigger] child_in(self.tree@, b)
                        == child_in(pretree, b) by {
                        lemma_child_in_insert(pretree, pos as int, (bus, newt), b);
                    }
                    assert(self.spec_buses() =~= old(self).spec_buses().insert(pos as int, bus));
                    assert forall|q: Seq<u8>| #[trigger]
                        tinit.value_at(q) == Option::None::<String> && tinit.has_node(q) == (
                        q.len() == 0) by {
                        lemma_leaf_nodes(tinit, q);
                    }
                    assert(self.tree@.len() == pretree.len() + 1);
                    assert(forall|j: int| pos < j < self.tree@.len() ==> self.tree@[j] == pretree[j - 1]);
                    lemma_insert_tail(
                        *old(self),
                        *self,
                        path@,
                        value,
                        kview,
                        keyg,
                        middev,
                        bus,
                        newt,
                        tinit,
                        false,
                        pos as int,
                    );
                }
            },
        }
    }
}

impl<T> UsbTree<T> {
    /// What looking a string up yields: a literal match against the
    /// flat map first, then a parse of the string and a retry with its
    /// canonical form.
    pub open spec fn spec_get_str(self, s: Seq<char>) -> Option<T> {
        if self.spec_get_key(s) is Some {
            self.spec_get_key(s)
        } else {
            match spec_parse_path(s) {
                Result::Ok(pv) => self.spec_get_key(pv.key()),
                Result::Err(_) => Option::None,
            }
        }
    }

    /// The key strings of the subtree rooted at a location: the node's
    /// own key first, then each child subtree in ascending port order.
    pub open spec fn spec_subtree_keys(self, bus: u8, q: Seq<u8>) -> Seq<String> {
        match self.spec_bus_trie(bus) {
            Option::Some(t) => match t.spec_node(q) {
                Option::Some(n) => n.spec_descendants(),
                Option::None => Seq::empty(),
            },
            Option::None => Seq::empty(),
        }
    }

    /// The payload stored under the canonical key of `path`, if any.
    pub fn get_by_path(&self, path: &DevicePath) -> (r: Option<&T>)
        ensures
            match r {
                Option::Some(v) => self.spec_get_key(path@.key()) == Option::Some(*v),
                Option::None => self.spec_get_key(path@.key()) is None,
            },
    {
        let key = path.to_key();
        match self.find_key_index(&key) {
            Option::Some(i) => {
                proof {
                    lemma_assoc_present(self.devices@, i as int);
                }
                Option::Some(&self.devices[i].1)
            },
            Option::None => {
                proof {
                    lemma_assoc_absent(self.devices@, key@);
                }
                Option::None
            },
        }
    }

    /// The payload under a path string: a literal key match first, then
    /// a parse of the string and a retry with its canonical form.
    /// Absence is a normal outcome.
    pub fn get(&self, path: &str) -> (r: Option<&T>)
        ensures
            match r {
                Option::Some(v) => self.spec_get_str(path@) == Option::Some(*v),
                Option::None => self.spec_get_str(path@) is None,
            },
    {
        let literal = String::from_str(path);
        match self.find_key_index(&literal) {
            Option::Some(i) => {
                proof {
                    lemma_assoc_present(self.devices@, i as int);
                }
                return Option::Some(&self.devices[i].1);
            },
            Option::None => {
                proof {
                    lemma_assoc_absent(self.devices@, path@);
                }
            },
        }
        match DevicePath::parse(path) {
            Result::Ok(p) => self.get_by_path(&p),
            Result::Err(_) => Option::None,
        }
    }

    /// The payload under a path string, or `DeviceNotFound` carrying the
    /// original lookup string when absent.
    pub fn try_get(&self, path: &str) -> (r: Result<&T, UsbTreeError>)
        ensures
            match r {
                Result::Ok(v) => self.spec_get_str(path@) == Option::Some(*v),
                Result::Err(e) => self.spec_get_str(path@) is None && e@
                    == TreeErrView::DeviceNotFound(path@),
            },
    {
        match self.get(path) {
            Option::Some(v) => Result::Ok(v),
            Option::None => Result::Err(UsbTreeError::DeviceNotFound(String::from_str(path))),
        }
    }

    /// The payload under the canonical key of `path`, or `DeviceNotFound`
    /// carrying that key when absent.
    pub fn try_get_by_path(&self, path: &DevicePath) -> (r: Result<&T, UsbTreeError>)
        ensures
            match r {
                Result::Ok(v) => self.spec_get_key(path@.key()) == Option::Some(*v),
                Result::Err(e) => self.spec_get_key(path@.key()) is None && e@
                    == TreeErrView::DeviceNotFound(path@.key()),
            },
    {
        match self.get_by_path(path) {
            Option::Some(v) => Result::Ok(v),
            Option::None => Result::Err(UsbTreeError::DeviceNotFound(path.to_key())),
        }
    }

    /// Every payload stored at `path` or below it, resolved through the
    /// flat map, in the subtree's key order.  Empty when the bus is
    /// unknown or no node exists at the path.
    #[verifier::loop_isolation(false)]
    pub fn get_subtree_by_path(&self, path: &DevicePath) -> (r: Vec<&T>)
        requires
            self.wf(),
        ensures
            r@.len() == self.spec_subtree_keys(path@.bus, path@.ports).len(),
            forall|k: int|
                0 <= k < r@.len() ==> self.spec_get_key(
                    #[trigger] self.spec_subtree_keys(path@.bus, path@.ports)[k]@,
                ) == Option::Some(*r@[k]),
    {
        let bus = path.bus();
        let ghost keys = self.spec_subtree_keys(path@.bus, path@.ports);
        let bi = match self.find_bus_index(bus) {
            Option::None => {
                proof {
                    lemma_child_in_absent(self.tree@, bus);
                }
                return Vec::new();
            },
            Option::Some(bi) => bi,
        };
        proof {
            lemma_child_in_present(self.tree@, bi as int);
        }
        let trie = &self.tree[bi].1;
        let node = match trie.get(path.ports()) {
            Option::None => {
                return Vec::new();
            },
            Option::Some(node) => node,
        };
        let descs = node.descendants();
        proof {
            assert(keys == node.spec_descendants());
            assert(trie.wf());
            lemma_spec_node_wf(*trie, path@.ports);
        }
        let mut out: Vec<&T> = Vec::new();
        let n = descs.len();
        let mut k: usize = 0;
        while k < n
            invariant
                k <= n,
                out@.len() == k,
                forall|j: int|
                    0 <= j < k ==> assoc_in(self.devices@, #[trigger] keys[j]@) == Option::Some(
                        *out@[j],
                    ),
            decreases n - k,
        {
            match self.find_key_index(descs[k]) {
                Option::Some(di) => {
                    proof {
                        lemma_assoc_present(self.devices@, di as int);
                        assert(*descs@[k as int] == keys[k as int]);
                    }
                    out.push(&self.devices[di].1);
                },
                Option::None => {
                    proof {
                        let s = *descs@[k as int];
                        assert(s == keys[k as int]);
                        assert(node.spec_descendants().contains(s)) by {
                            assert(node.spec_descendants()[k as int] == s);
                        }
                        lemma_desc_value_exists(*node, s);
                        let rest = choose|rest: Seq<u8>|
                            #[trigger] node.value_at(rest) == Option::Some(s);
                        lemma_spec_node_append(*trie, path@.ports, rest);
                        assert(trie.value_at(path@.ports + rest) == Option::Some(s));
                        assert(self.tree@[bi as int].1.value_at(path@.ports + rest) is Some);
                        assert(assoc_in(self.devices@, s@) is Some);
                        lemma_assoc_absent(self.devices@, s@);
                        assert(false);
                    }
                },
            }
            k += 1;
        }
        out
    }

    /// Every payload stored at or below a path string.  A parseable
    /// string is resolved as a path; otherwise the text before the first
    /// colon (or the whole string) names the bus canonically and the
    /// remainder is read as a dot-separated port chain, ignoring
    /// unparseable port tokens.
    pub fn get_subtree(&self, path: &str) -> (r: Vec<&T>)
        requires
            self.wf(),
        ensures
            r@.len() == spec_subtree_query(*self, path@).len(),
            forall|k: int|
                0 <= k < r@.len() ==> self.spec_get_key(
                    #[trigger] spec_subtree_query(*self, path@)[k]@,
                ) == Option::Some(*r@[k]),
    {
        match DevicePath::parse(path) {
            Result::Ok(p) => {
                let r = self.get_subtree_by_path(&p);
                proof {
                    assert(spec_subtree_query(*self, path@) == self.spec_subtree_keys(
                        p@.bus,
                        p@.ports,
                    ));
                }
                r
            },
            Result::Err(_) => {
                let len = path.unicode_len();
                let colon = crate::path::find_char_in(path, 0, len, ':');
                let bus_end = match colon {
                    Option::Some(c) => c,
                    Option::None => len,
                };
                proof {
                    match colon {
                        Option::Some(c) => {
                            crate::path::lemma_find_char_at(path@, ':', c as int);
                        },
                        Option::None => {
                            crate::path::lemma_find_char_none(path@, ':');
                        },
                    }
                }
                let ports = match colon {
                    Option::Some(c) => crate::path::parse_port_path_range(path, c + 1, len),
                    Option::None => Vec::new(),
                };
                proof {
                    if colon is None {
                        assert(ports@ =~= crate::path::spec_port_path(Seq::<char>::empty()));
                    }
                }
                let b = match crate::digits::parse_canonical_u8(path, 0, bus_end) {
                    Option::None => {
                        let r: Vec<&T> = Vec::new();
                        proof {
                            let sbe: int = match crate::path::find_char(path@, ':') {
                                Option::Some(c) => c,
                                Option::None => path@.len() as int,
                            };
                            assert(sbe == bus_end as int);
                            assert(!(exists|bb: u8|
                                path@.subrange(0, sbe) == dec_digits(bb as nat)));
                            assert(spec_subtree_query(*self, path@) == Seq::<String>::empty());
                        }
                        return r;
                    },
                    Option::Some(b) => b,
                };
                let p2 = DevicePath::new(b, ports);
                let r = self.get_subtree_by_path(&p2);
                proof {
                    let ghost sbe: int = match crate::path::find_char(path@, ':') {
                        Option::Some(c) => c,
                        Option::None => path@.len() as int,
                    };
                    assert(sbe == bus_end as int);
                    assert(path@.subrange(0, bus_end as int) == dec_digits(b as nat));
                    let bq = choose|bb: u8|
                        path@.subrange(0, sbe) == dec_digits(bb as nat);
                    crate::digits::lemma_dec_digits_injective(b as nat, bq as nat);
                    match colon {
                        Option::Some(c) => {
                            assert(path@.skip(c + 1) =~= path@.subrange(c + 1, len as int));
                        },
                        Option::None => {},
                    }
                    assert(spec_subtree_query(*self, path@) == self.spec_subtree_keys(
                        p2@.bus,
                        p2@.ports,
                    ));
                }
                r
            },
        }
    }

    /// The known bus numbers, in ascending numeric order, each in its
    /// decimal string form.
    #[verifier::loop_isolation(false)]
    pub fn buses(&self) -> (r: Vec<String>)
        ensures
            r@.len() == self.spec_buses().len(),
            forall|i: int|
                0 <= i < r@.len() ==> (#[trigger] r@[i])@ == dec_digits(
                    self.spec_buses()[i] as nat,
                ),
    {
        let mut out: Vec<String> = Vec::new();
        let n = self.tree.len();
        let mut i: usize = 0;
        while i < n
            invariant
                i <= n,
                out@.len() == i,
                forall|j: int|
                    0 <= j < i ==> (#[trigger] out@[j])@ == dec_digits(self.spec_buses()[j] as nat),
        decreases n - i,
        {
            out.push(u8_to_decimal(self.tree[i].0));
            i += 1;
        }
        out
    }

    /// The structural trie of the bus named canonically by `bus`, for
    /// direct traversal.
    pub fn bus_tree(&self, bus: &str) -> (r: Option<&PortTree<String>>)
        ensures
            match r {
                Option::Some(t) => exists|b: u8|
                    bus@ == dec_digits(b as nat) && #[trigger] self.spec_bus_trie(b)
                        == Option::Some(*t),
                Option::None => forall|b: u8|
                    bus@ == dec_digits(b as nat) ==> #[trigger] self.spec_bus_trie(b) is None,
            },
    {
        let len = bus.unicode_len();
        match crate::digits::parse_canonical_u8(bus, 0, len) {
            Option::None => {
                proof {
                    assert forall|b: u8|
                        bus@ == dec_digits(b as nat) implies #[trigger] self.spec_bus_trie(
                        b,
                    ) is None by {
                        assert(bus@.subrange(0, len as int) =~= bus@);
                    }
                }
                Option::None
            },
            Option::Some(b) => {
                proof {
                    assert(bus@.subrange(0, len as int) =~= bus@);
                }
                match self.find_bus_index(b) {
                    Option::Some(i) => {
                        proof {
                            lemma_child_in_present(self.tree@, i as int);
                            assert(bus@ == dec_digits(b as nat));
                            assert(self.spec_bus_trie(b) == Option::Some(
                                self.tree@[i as int].1,
                            ));
                        }
                        Option::Some(&self.tree[i].1)
                    },
                    Option::None => {
                        proof {
                            lemma_child_in_absent(self.tree@, b);
                            assert forall|b2: u8|
                                bus@ == dec_digits(b2 as nat) implies #[trigger] self.spec_bus_trie(
                                b2,
                            ) is None by {
                                crate::digits::lemma_dec_digits_injective(b as nat, b2 as nat);
                            }
                        }
                        Option::None
                    },
                }
            },
        }
    }

    /// Insert under a textual bus number and a port chain.  The bus text
    /// must parse as an unsigned 8-bit decimal; a failure is surfaced as
    /// `InvalidPath` rather than silently remapped.
    pub fn insert(&mut self, bus: &str, ports: &[u8], value: T) -> (r: Result<(), UsbTreeError>)
        requires
            old(self).wf(),
        ensures
            final(self).wf(),
            match spec_parse_u8(bus@) {
                Option::Some(b) => {
                    let p = PathView { bus: b, ports: ports@ };
                    &&& r is Ok
                    &&& forall|k: Seq<char>|
                        #![trigger final(self).spec_get_key(k)]
                        final(self).spec_get_key(k) == (if k == p.key() {
                            Option::Some(value)
                        } else {
                            old(self).spec_get_key(k)
                        })
                    &&& forall|b2: u8, q: Seq<u8>|
                        #![trigger final(self).loc_key(b2, q)]
                        (if b2 == p.bus && q == p.ports {
                            final(self).loc_key(b2, q) is Some && final(self).loc_key(b2, q)->0@
                                == p.key()
                        } else {
                            final(self).loc_key(b2, q) == old(self).loc_key(b2, q)
                        })
                    &&& forall|b2: u8, q: Seq<u8>|
                        #![trigger final(self).has_loc(b2, q)]
                        final(self).has_loc(b2, q) == (old(self).has_loc(b2, q) || (b2 == p.bus
                            && is_port_prefix(q, p.ports)))
                },
                Option::None => r matches Result::Err(e) && e@ == TreeErrView::InvalidPath(
                    crate::error::PathErrView::InvalidBus(bus@),
                ) && *final(self) == *old(self),
            },
    {
        let len = bus.unicode_len();
        match parse_u8_range(bus, 0, len) {
            Option::None => {
                proof {
                    assert(bus@.subrange(0, len as int) =~= bus@);
                }
                Result::Err(
                    UsbTreeError::InvalidPath(DevicePathError::InvalidBus(String::from_str(bus))),
                )
            },
            Option::Some(b) => {
                proof {
                    assert(bus@.subrange(0, len as int) =~= bus@);
                }
                let pv = slice_to_vec(ports);
                let p = DevicePath::new(b, pv);
                self.insert_path(&p, value);
                Result::Ok(())
            },
        }
    }

    /// Every (key, payload) entry of the flat map.
    pub fn all_devices(&self) -> (r: Vec<(&String, &T)>)
        requires
            self.wf(),
        ensures
            r@.len() == self.spec_len(),
            forall|i: int|
                0 <= i < r@.len() ==> self.spec_get_key((#[trigger] r@[i].0)@) == Option::Some(
                    *r@[i].1,
                ),
    {
        let mut out: Vec<(&String, &T)> = Vec::new();
        let n = self.devices.len();
        let mut i: usize = 0;
        while i < n
            invariant
                self.wf(),
                i <= n == self.devices@.len(),
                out@.len() == i,
                forall|j: int|
                    0 <= j < i ==> self.spec_get_key((#[trigger] out@[j].0)@) == Option::Some(
                        *out@[j].1,
                    ),
            decreases n - i,
        {
            proof {
                assert forall|j: int| 0 <= j < i implies (#[trigger] self.devices@[j].0)@
                    != self.devices@[i as int].0@ by {}
                lemma_assoc_present(self.devices@, i as int);
            }
            out.push((&self.devices[i].0, &self.devices[i].1));
            i += 1;
        }
        out
    }

    /// The payload stored under the exact key string, if any.
    pub(crate) fn lookup_key(&self, key: &String) -> (r: Option<&T>)
        ensures
            match r {
                Option::Some(v) => self.spec_get_key(key@) == Option::Some(*v),
                Option::None => self.spec_get_key(key@) is None,
            },
    {
        match self.find_key_index(key) {
            Option::Some(i) => {
                proof {
                    lemma_assoc_present(self.devices@, i as int);
                }
                Option::Some(&self.devices[i].1)
            },
            Option::None => {
                proof {
                    lemma_assoc_absent(self.devices@, key@);
                }
                Option::None
            },
        }
    }

    /// The number of known buses.
    pub(crate) fn bus_count(&self) -> (r: usize)
        ensures
            r == self.spec_buses().len(),
    {
        self.tree.len()
    }

    /// The bus number and trie of the bus at position `i` of the
    /// ascending bus list.
    pub(crate) fn bus_entry(&self, i: usize) -> (r: (u8, &PortTree<String>))
        requires
            self.wf(),
            i < self.spec_buses().len(),
        ensures
            r.0 == self.spec_buses()[i as int],
            self.spec_bus_trie(r.0) == Option::Some(*r.1),
    {
        proof {
            lemma_child_in_present_wf(*self, i as int);
        }
        (self.tree[i].0, &self.tree[i].1)
    }

    /// The number of stored devices.
    pub fn len(&self) -> (r: usize)
        ensures
            r == self.spec_len(),
    {
        self.devices.len()
    }

    /// Whether the index holds no devices.
    pub fn is_empty(&self) -> (r: bool)
        ensures
            r == (self.spec_len() == 0),
    {
        self.devices.is_empty()
    }
}

/// What a subtree query for a string denotes: the subtree of the parsed
/// path, or — for unparseable strings — of the location named by the
/// canonical bus text before the first colon and the leniently parsed
/// port chain after it.
pub open spec fn spec_subtree_query<T>(t: UsbTree<T>, s: Seq<char>) -> Seq<String> {
    match spec_parse_path(s) {
        Result::Ok(pv) => t.spec_subtree_keys(pv.bus, pv.ports),
        Result::Err(_) => {
            let bus_end = match crate::path::find_char(s, ':') {
                Option::Some(c) => c,
                Option::None => s.len() as int,
            };
            let ports = match crate::path::find_char(s, ':') {
                Option::Some(c) => crate::path::spec_port_path(s.skip(c + 1)),
                Option::None => crate::path::spec_port_path(Seq::<char>::empty()),
            };
            if exists|b: u8| s.subrange(0, bus_end) == dec_digits(b as nat) {
                let b = choose|b: u8| s.subrange(0, bus_end) == dec_digits(b as nat);
                t.spec_subtree_keys(b, ports)
            } else {
                Seq::empty()
            }
        },
    }
}

/// Index consistency: a key reachable through any bus's trie names its
/// own location canonically and resolves in the flat map.
pub proof fn lemma_index_consistency<T>(t: UsbTree<T>, bus: u8, q: Seq<u8>)
    requires
        t.wf(),
        t.loc_key(bus, q) is Some,
    ensures
        t.loc_key(bus, q)->0@ == spec_key(bus, q),
        t.spec_get_key(t.loc_key(bus, q)->0@) is Some,
{
    lemma_child_in_index(t.tree@, bus);
    let trie = child_in(t.tree@, bus)->0;
    let i = choose|i: int| 0 <= i < t.tree@.len() && t.tree@[i] == (bus, trie);
    assert(t.tree@[i].1.value_at(q) is Some);
    assert(t.tree@[i].0 == bus);
}

/// Every key reachable by walking any bus's whole trie resolves in the
/// flat map.
pub proof fn lemma_descendant_keys_resolve<T>(t: UsbTree<T>, bus: u8, s: String)
    requires
        t.wf(),
        t.spec_bus_trie(bus) is Some,
        t.spec_subtree_keys(bus, Seq::<u8>::empty()).contains(s),
    ensures
        t.spec_get_key(s@) is Some,
{
    lemma_subtree_complete(t, bus, Seq::<u8>::empty(), s);
    let rest = choose|rest: Seq<u8>|
        #[trigger] t.loc_key(bus, Seq::<u8>::empty() + rest) == Option::Some(s);
    lemma_index_consistency(t, bus, Seq::<u8>::empty() + rest);
}

/// Subtree completeness: the keys of the subtree rooted at a location
/// are exactly the keys stored at that location and its descendants,
/// order aside.
pub proof fn lemma_subtree_complete<T>(t: UsbTree<T>, bus: u8, q: Seq<u8>, s: String)
    requires
        t.wf(),
        t.has_loc(bus, q),
    ensures
        t.spec_subtree_keys(bus, q).contains(s) == (exists|rest: Seq<u8>| #[trigger] t.loc_key(
            bus,
            q + rest,
        ) == Option::Some(s)),
{
    let trie = t.spec_bus_trie(bus)->0;
    let node = trie.spec_node(q)->0;
    lemma_child_in_index(t.tree@, bus);
    let i = choose|i: int| 0 <= i < t.tree@.len() && t.tree@[i] == (bus, t.spec_bus_trie(bus)->0);
    assert(t.tree@[i].1 == trie);
    assert(t.tree@[i].1.wf());
    lemma_spec_node_wf(trie, q);
    if t.spec_subtree_keys(bus, q).contains(s) {
        lemma_desc_value_exists(node, s);
        let rest = choose|rest: Seq<u8>| #[trigger] node.value_at(rest) == Option::Some(s);
        lemma_spec_node_append(trie, q, rest);
        assert(t.loc_key(bus, q + rest) == Option::Some(s));
    }
    if exists|rest: Seq<u8>| #[trigger] t.loc_key(bus, q + rest) == Option::Some(s) {
        let rest = choose|rest: Seq<u8>| #[trigger] t.loc_key(bus, q + rest) == Option::Some(s);
        lemma_spec_node_append(trie, q, rest);
        assert(node.value_at(rest) == Option::Some(s));
        lemma_desc_contains_value(node, rest, s);
    }
}

/// Assembles [`UsbTree::insert_path`]'s invariant and query laws from
/// the effects on the two fields.
#[verifier::rlimit(100)]
proof fn lemma_insert_tail<T>(
    pre: UsbTree<T>,
    cur: UsbTree<T>,
    p: crate::path::PathView,
    value: T,
    kview: Seq<char>,
    keyg: String,
    middev: Seq<(String, T)>,
    bus: u8,
    newt: PortTree<String>,
    base: PortTree<String>,
    existed: bool,
    at: int,
)
    requires
        pre.wf(),
        bus == p.bus,
        kview == p.key(),
        keyg@ == kview,
        cur.devices@ == middev,
        forall|k: Seq<char>|
            #![trigger assoc_in(middev, k)]
            assoc_in(middev, k) == (if k == kview {
                Option::Some(value)
            } else {
                assoc_in(pre.devices@, k)
            }),
        forall|i: int, j: int|
            0 <= i < j < middev.len() ==> (#[trigger] middev[i].0)@ != (#[trigger] middev[j].0)@,
        child_in(cur.tree@, bus) == Option::Some(newt),
        forall|b: u8| b != bus ==> #[trigger] child_in(cur.tree@, b) == child_in(pre.tree@, b),
        newt.wf(),
        forall|q: Seq<u8>|
            #![trigger newt.value_at(q)]
            newt.value_at(q) == (if q == p.ports {
                Option::Some(keyg)
            } else {
                base.value_at(q)
            }),
        forall|q: Seq<u8>|
            #![trigger newt.has_node(q)]
            newt.has_node(q) == (base.has_node(q) || is_port_prefix(q, p.ports)),
        existed ==> 0 <= at < pre.tree@.len() && pre.tree@[at] == (bus, base) && cur.tree@
            == pre.tree@.update(at, (bus, newt)),
        !existed ==> {
            &&& 0 <= at <= pre.tree@.len()
            &&& cur.tree@ == pre.tree@.insert(at, (bus, newt))
            &&& forall|j: int| 0 <= j < pre.tree@.len() ==> (#[trigger] pre.tree@[j].0) != bus
            &&& forall|j: int| 0 <= j < at ==> (#[trigger] pre.tree@[j].0) < bus
            &&& forall|j: int| at <= j < pre.tree@.len() ==> (#[trigger] pre.tree@[j].0) > bus
            &&& forall|q: Seq<u8>| #[trigger] base.value_at(q) == Option::None::<String>
            &&& forall|q: Seq<u8>| #[trigger] base.has_node(q) == (q.len() == 0)
        },
    ensures
        cur.wf(),
        forall|k: Seq<char>|
            #![trigger cur.spec_get_key(k)]
            cur.spec_get_key(k) == (if k == p.key() {
                Option::Some(value)
            } else {
                pre.spec_get_key(k)
            }),
        forall|b: u8, q: Seq<u8>|
            #![trigger cur.loc_key(b, q)]
            (if b == p.bus && q == p.ports {
                cur.loc_key(b, q) is Some && cur.loc_key(b, q)->0@ == p.key()
            } else {
                cur.loc_key(b, q) == pre.loc_key(b, q)
            }),
        forall|b: u8, q: Seq<u8>|
            #![trigger cur.has_loc(b, q)]
            cur.has_loc(b, q) == (pre.has_loc(b, q) || (b == p.bus && is_port_prefix(q, p.ports))),
{
    if existed {
        lemma_child_in_present_wf(pre, at);
    } else {
        lemma_child_in_absent(pre.tree@, bus);
    }
    assert forall|b: u8, q: Seq<u8>|
        #![trigger cur.loc_key(b, q)]
        #![trigger cur.has_loc(b, q)]
        {
            &&& (if b == p.bus && q == p.ports {
                cur.loc_key(b, q) is Some && cur.loc_key(b, q)->0@ == p.key()
            } else {
                cur.loc_key(b, q) == pre.loc_key(b, q)
            })
            &&& cur.has_loc(b, q) == (pre.has_loc(b, q) || (b == p.bus && is_port_prefix(
                q,
                p.ports,
            )))
        } by {
        if b == bus {
            assert(cur.spec_bus_trie(b) == Option::Some(newt));
            if q.len() == 0 {
                assert(q =~= p.ports.take(0));
                assert(is_port_prefix(q, p.ports));
            }
            if existed {
                assert(pre.spec_bus_trie(b) == Option::Some(base));
            } else {
                assert(pre.spec_bus_trie(b) is None);
            }
        }
    }
    assert(cur.wf()) by {
        assert forall|i: int, j: int|
            0 <= i < j < cur.tree@.len() implies (#[trigger] cur.tree@[i].0)
            < (#[trigger] cur.tree@[j].0) by {
            if existed {
                assert(cur.tree@[i].0 == pre.tree@[i].0);
                assert(cur.tree@[j].0 == pre.tree@[j].0);
            } else {
                if i < at {
                    assert(cur.tree@[i] == pre.tree@[i]);
                } else if i > at {
                    assert(cur.tree@[i] == pre.tree@[i - 1]);
                }
                if j < at {
                    assert(cur.tree@[j] == pre.tree@[j]);
                } else if j > at {
                    assert(cur.tree@[j] == pre.tree@[j - 1]);
                }
            }
        }
        assert forall|i: int| 0 <= i < cur.tree@.len() implies (#[trigger] cur.tree@[i].1).wf() by {
            if existed {
                if i != at {
                    assert(cur.tree@[i] == pre.tree@[i]);
                    assert(pre.tree@[i].1.wf());
                }
            } else {
                if i < at {
                    assert(cur.tree@[i] == pre.tree@[i]);
                    assert(pre.tree@[i].1.wf());
                } else if i > at {
                    assert(cur.tree@[i] == pre.tree@[i - 1]);
                    assert(pre.tree@[i - 1].1.wf());
                }
            }
        }
        assert forall|i: int, q: Seq<u8>|
            0 <= i < cur.tree@.len() && (#[trigger] cur.tree@[i].1.value_at(q)) is Some implies {
            let k = cur.tree@[i].1.value_at(q)->0;
            k@ == spec_key(cur.tree@[i].0, q) && assoc_in(cur.devices@, k@) is Some
        } by {
            let k = cur.tree@[i].1.value_at(q)->0;
            if i == at {
                assert(cur.tree@[i] == (bus, newt));
                if q == p.ports {
                    assert(k == keyg);
                    assert(k@ == spec_key(bus, q));
                    assert(assoc_in(middev, kview) == Option::Some(value));
                } else {
                    assert(newt.value_at(q) == base.value_at(q));
                    assert(existed);
                    assert(pre.tree@[at].1.value_at(q) is Some);
                    assert(k@ == spec_key(pre.tree@[at].0, q));
                    assert(assoc_in(pre.devices@, k@) is Some);
                    assert(assoc_in(middev, k@) is Some);
                }
            } else {
                let pi: int = if existed {
                    i
                } else if i < at {
                    i
                } else {
                    i - 1
                };
                assert(cur.tree@[i] == pre.tree@[pi]);
                assert(pre.tree@[pi].1.value_at(q) is Some);
                assert(k@ == spec_key(pre.tree@[pi].0, q));
                assert(assoc_in(pre.devices@, k@) is Some);
            }
        }
    }
}

/// The entry of a well-formed index's trie list is found by its bus.
proof fn lemma_child_in_present_wf<T>(t: UsbTree<T>, i: int)
    requires
        t.wf(),
        0 <= i < t.tree@.len(),
    ensures
        child_in(t.tree@, t.tree@[i].0) == Option::Some(t.tree@[i].1),
{
    assert forall|j: int| 0 <= j < i implies (#[trigger] t.tree@[j].0) != t.tree@[i].0 by {
        assert(t.tree@[j].0 < t.tree@[i].0);
    }
    lemma_child_in_present(t.tree@, i);
}

} // verus!
