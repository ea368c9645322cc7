//! A trie keyed by chains of single-byte port numbers.
//!
//! Each node holds an optional payload and a set of children keyed by
//! port number.  The children are kept sorted by port so that read-time
//! ordering (and with it deterministic rendering) comes from a maintained
//! invariant rather than from storage order.

use vstd::prelude::*;
use vstd::slice::slice_subrange;

verus! {

/// `a` is a (possibly equal) leading prefix of `b`.
pub open spec fn is_port_prefix(a: Seq<u8>, b: Seq<u8>) -> bool {
    a.len() <= b.len() && a == b.take(a.len() as int)
}

pub proof fn lemma_prefix_cons(a: Seq<u8>, b: Seq<u8>)
    requires
        a.len() > 0,
        b.len() > 0,
    ensures
        is_port_prefix(a, b) == (a[0] == b[0] && is_port_prefix(a.drop_first(), b.drop_first())),
{
    let ad = a.drop_first();
    let bd = b.drop_first();
    if is_port_prefix(a, b) {
        assert(a[0] == b.take(a.len() as int)[0]);
        assert(ad =~= bd.take(ad.len() as int)) by {
            assert(forall|i: int|
                0 <= i < ad.len() ==> ad[i] == a[i + 1] && a[i + 1] == b.take(a.len() as int)[i
                    + 1]);
        }
    }
    if a.len() <= b.len() && a[0] == b[0] && is_port_prefix(ad, bd) {
        assert(a =~= b.take(a.len() as int)) by {
            assert(forall|i: int|
                1 <= i < a.len() ==> a[i] == ad[i - 1] && ad[i - 1] == bd.take(ad.len() as int)[i
                    - 1]);
        }
    }
}

/// The subtree of the first entry of `s` keyed by `port`, if any.
pub open spec fn child_in<T>(s: Seq<(u8, PortTree<T>)>, port: u8) -> Option<PortTree<T>>
    decreases s.len(),
{
    if s.len() == 0 {
        Option::None
    } else if s[0].0 == port {
        Option::Some(s[0].1)
    } else {
        child_in(s.drop_first(), port)
    }
}

pub proof fn lemma_child_in_present<T>(s: Seq<(u8, PortTree<T>)>, i: int)
    requires
        0 <= i < s.len(),
        forall|j: int| 0 <= j < i ==> (#[trigger] s[j].0) != s[i].0,
    ensures
        child_in(s, s[i].0) == Option::Some(s[i].1),
    decreases s.len(),
{
    if i > 0 {
        let rest = s.drop_first();
        assert(rest[i - 1] == s[i]);
        assert forall|j: int| 0 <= j < i - 1 implies (#[trigger] rest[j].0) != rest[i - 1].0 by {
            assert(rest[j] == s[j + 1]);
        }
        lemma_child_in_present(rest, i - 1);
    }
}

pub proof fn lemma_child_in_absent<T>(s: Seq<(u8, PortTree<T>)>, port: u8)
    requires
        forall|j: int| 0 <= j < s.len() ==> (#[trigger] s[j].0) != port,
    ensures
        child_in(s, port) == Option::None::<PortTree<T>>,
    decreases s.len(),
{
    if s.len() > 0 {
        let rest = s.drop_first();
        assert(forall|j: int| 0 <= j < rest.len() ==> rest[j] == s[j + 1]);
        lemma_child_in_absent(rest, port);
    }
}

/// Replacing the subtree of one entry (key unchanged) leaves every other
/// key resolving as before.
pub proof fn lemma_child_in_update<T>(
    s: Seq<(u8, PortTree<T>)>,
    i: int,
    e: (u8, PortTree<T>),
    port: u8,
)
    requires
        0 <= i < s.len(),
        s[i].0 == e.0,
        port != e.0,
    ensures
        child_in(s.update(i, e), port) == child_in(s, port),
    decreases s.len(),
{
    let t = s.update(i, e);
    assert(t.len() == s.len());
    if i == 0 {
        assert(t[0].0 == s[0].0);
        assert(t.drop_first() =~= s.drop_first());
    } else {
        assert(t[0] == s[0]);
        if s[0].0 != port {
            assert(t.drop_first() =~= s.drop_first().update(i - 1, e));
            assert(s.drop_first()[i - 1] == s[i]);
            lemma_child_in_update(s.drop_first(), i - 1, e, port);
        }
    }
}

/// Inserting an entry under a fresh key leaves every other key resolving
/// as before.
pub proof fn lemma_child_in_insert<T>(
    s: Seq<(u8, PortTree<T>)>,
    pos: int,
    e: (u8, PortTree<T>),
    port: u8,
)
    requires
        0 <= pos <= s.len(),
        port != e.0,
    ensures
        child_in(s.insert(pos, e), port) == child_in(s, port),
    decreases s.len(),
{
    let t = s.insert(pos, e);
    assert(t.len() == s.len() + 1);
    if pos == 0 {
        assert(t[0] == e);
        assert(t.drop_first() =~= s);
    } else {
        assert(t[0] == s[0]);
        if s[0].0 != port {
            assert(t.drop_first() =~= s.drop_first().insert(pos - 1, e));
            lemma_child_in_insert(s.drop_first(), pos - 1, e, port);
        }
    }
}

/// A trie node: an optional payload and children keyed by port number.
///
/// Well-formed nodes ([`PortTree::wf`]) keep their children strictly
/// sorted by port, so keys are unique and iteration order is fixed.
#[derive(Debug)]
pub struct PortTree<T> {
    /// Payload stored at this node, if any.
    pub value: Option<T>,
    /// Children, as (port, subtree) pairs sorted strictly by port.
    pub children: Vec<(u8, PortTree<T>)>,
}

impl<T> PortTree<T> {
    /// Children are strictly sorted by port, recursively.
    pub open spec fn wf(self) -> bool
        decreases self,
    {
        &&& forall|i: int, j: int|
            0 <= i < j < self.children@.len() ==> (#[trigger] self.children@[i].0)
                < (#[trigger] self.children@[j].0)
        &&& forall|i: int| 0 <= i < self.children@.len() ==> (#[trigger] self.children@[i].1).wf()
    }

    /// The child reached through `port`, if any.
    pub open spec fn spec_child(self, port: u8) -> Option<PortTree<T>> {
        child_in(self.children@, port)
    }

    /// The node reached by descending one level per port, if every
    /// segment exists; the node itself for the empty chain.
    pub open spec fn spec_node(self, ports: Seq<u8>) -> Option<PortTree<T>>
        decreases ports.len(),
    {
        if ports.len() == 0 {
            Option::Some(self)
        } else {
            match self.spec_child(ports[0]) {
                Option::Some(c) => c.spec_node(ports.drop_first()),
                Option::None => Option::None,
            }
        }
    }

    /// Whether a node exists at `ports`.
    pub open spec fn has_node(self, ports: Seq<u8>) -> bool {
        self.spec_node(ports) is Some
    }

    /// The payload stored at `ports`, if a node exists there and holds one.
    pub open spec fn value_at(self, ports: Seq<u8>) -> Option<T> {
        match self.spec_node(ports) {
            Option::Some(n) => n.value,
            Option::None => Option::None,
        }
    }

    /// The ports of the immediate children, in stored (ascending) order.
    pub open spec fn spec_child_ports(self) -> Seq<u8> {
        self.children@.map_values(|c: (u8, PortTree<T>)| c.0)
    }

    /// Every payload in this subtree, own payload first, then each
    /// child's subtree in stored child order.
    pub open spec fn spec_descendants(self) -> Seq<T>
        decreases self, 1nat, 0nat,
    {
        let own: Seq<T> = match self.value {
            Option::Some(v) => seq![v],
            Option::None => Seq::empty(),
        };
        own + self.descendants_from(0)
    }

    /// The payloads of the subtrees of children `i..`, concatenated.
    pub open spec fn descendants_from(self, i: int) -> Seq<T>
        decreases self, 0nat, self.children@.len() - i,
    {
        if 0 <= i < self.children@.len() {
            self.children@[i].1.spec_descendants() + self.descendants_from(i + 1)
        } else {
            Seq::empty()
        }
    }

    /// The payload-bearing immediate children as (port, payload) pairs,
    /// in stored child order.
    pub open spec fn spec_direct_children(self) -> Seq<(u8, T)> {
        self.dc_from(0)
    }

    /// The payload-bearing children among `i..`, as (port, payload) pairs.
    pub open spec fn dc_from(self, i: int) -> Seq<(u8, T)>
        decreases self.children@.len() - i,
    {
        if 0 <= i < self.children@.len() {
            let rest = self.dc_from(i + 1);
            match self.children@[i].1.value {
                Option::Some(v) => seq![(self.children@[i].0, v)] + rest,
                Option::None => rest,
            }
        } else {
            Seq::empty()
        }
    }
}

/// Every node of a well-formed tree is well-formed.
pub proof fn lemma_spec_node_wf<T>(t: PortTree<T>, q: Seq<u8>)
    requires
        t.wf(),
        t.spec_node(q) is Some,
    ensures
        t.spec_node(q)->0.wf(),
    decreases q.len(),
{
    if q.len() > 0 {
        let c = t.spec_child(q[0])->0;
        lemma_child_in_index(t.children@, q[0]);
        let i = choose|i: int| 0 <= i < t.children@.len() && t.children@[i] == (q[0], c);
        assert(t.children@[i].1.wf());
        lemma_spec_node_wf(c, q.drop_first());
    }
}

/// Descending a concatenated chain is descending one part after the
/// other.
pub proof fn lemma_spec_node_append<T>(t: PortTree<T>, a: Seq<u8>, b: Seq<u8>)
    ensures
        t.spec_node(a + b) == match t.spec_node(a) {
            Option::Some(n) => n.spec_node(b),
            Option::None => Option::None::<PortTree<T>>,
        },
    decreases a.len(),
{
    if a.len() == 0 {
        assert(a + b =~= b);
    } else {
        assert((a + b)[0] == a[0]);
        assert((a + b).len() > 0);
        assert((a + b).drop_first() =~= a.drop_first() + b);
        match t.spec_child(a[0]) {
            Option::Some(c) => {
                lemma_spec_node_append(c, a.drop_first(), b);
            },
            Option::None => {},
        }
    }
}

/// A node with no children has exactly itself as a node, at the empty
/// chain.
pub proof fn lemma_leaf_nodes<T>(t: PortTree<T>, q: Seq<u8>)
    requires
        t.children@.len() == 0,
    ensures
        t.has_node(q) == (q.len() == 0),
        t.value_at(q) == if q.len() == 0 {
            t.value
        } else {
            Option::None::<T>
        },
{
    if q.len() > 0 {
        assert(t.spec_child(q[0]) is None);
    }
}

impl<T> Default for PortTree<T> {
    /// An empty node: no payload, no children.
    fn default() -> (r: Self)
        ensures
            r.wf(),
            r.value is None,
            r.children@.len() == 0,
    {
        PortTree { value: Option::None, children: Vec::new() }
    }
}

impl<T> PortTree<T> {
    /// Create a new empty node.
    pub fn new() -> (r: Self)
        ensures
            r.wf(),
            r.value is None,
            r.children@.len() == 0,
    {
        Self::default()
    }

    /// The index of the child keyed by `port` in the children list.
    fn find_child_index(&self, port: u8) -> (r: Option<usize>)
        ensures
            match r {
                Option::Some(i) => i < self.children@.len() && self.children@[i as int].0 == port
                    && forall|j: int| 0 <= j < i ==> (#[trigger] self.children@[j].0) != port,
                Option::None => forall|j: int|
                    0 <= j < self.children@.len() ==> (#[trigger] self.children@[j].0) != port,
            },
    {
        let mut i: usize = 0;
        let n = self.children.len();
        while i < n
            invariant
                i <= n == self.children@.len(),
                forall|j: int| 0 <= j < i ==> (#[trigger] self.children@[j].0) != port,
            decreases n - i,
        {
            if self.children[i].0 == port {
                return Option::Some(i);
            }
            i += 1;
        }
        Option::None
    }

    /// The immediate child reached through `port`, if any.
    pub fn child(&self, port: u8) -> (r: Option<&PortTree<T>>)
        ensures
            match r {
                Option::Some(c) => self.spec_child(port) == Option::Some(*c),
                Option::None => self.spec_child(port) is None,
            },
    {
        match self.find_child_index(port) {
            Option::Some(i) => {
                proof {
                    lemma_child_in_present(self.children@, i as int);
                }
                Option::Some(&self.children[i].1)
            },
            Option::None => {
                proof {
                    lemma_child_in_absent(self.children@, port);
                }
                Option::None
            },
        }
    }

    /// The node at the chain `ports`, or `None` if any segment is
    /// missing; the node itself for the empty chain.
    pub fn get(&self, ports: &[u8]) -> (r: Option<&PortTree<T>>)
        ensures
            match r {
                Option::Some(n) => self.spec_node(ports@) == Option::Some(*n),
                Option::None => self.spec_node(ports@) is None,
            },
        decreases ports@.len(),
    {
        if ports.len() == 0 {
            Option::Some(self)
        } else {
            match self.child(ports[0]) {
                Option::None => Option::None,
                Option::Some(sub) => {
                    let tail = slice_subrange(ports, 1, ports.len());
                    let r = sub.get(tail);
                    proof {
                        assert(tail@ =~= ports@.drop_first());
                    }
                    r
                },
            }
        }
    }

    /// The ports of the immediate children, sorted ascending whenever
    /// this node is well-formed.
    #[verifier::loop_isolation(false)]
    pub fn child_ports(&self) -> (r: Vec<u8>)
        ensures
            r@ == self.spec_child_ports(),
            self.wf() ==> forall|a: int, b: int| 0 <= a < b < r@.len() ==> r@[a] < r@[b],
    {
        let mut out: Vec<u8> = Vec::new();
        let n = self.children.len();
        let mut i: usize = 0;
        while i < n
            invariant
                i <= n,
                out@.len() == i,
                forall|j: int| 0 <= j < i ==> out@[j] == self.children@[j].0,
            decreases n - i,
        {
            out.push(self.children[i].0);
            i += 1;
        }
        proof {
            assert(out@ =~= self.spec_child_ports());
        }
        out
    }

    /// The payload-bearing immediate children, paired with their ports.
    #[verifier::loop_isolation(false)]
    pub fn direct_children(&self) -> (r: Vec<(u8, &T)>)
        ensures
            r@.len() == self.spec_direct_children().len(),
            forall|k: int|
                0 <= k < r@.len() ==> r@[k].0 == self.spec_direct_children()[k].0 && *r@[k].1
                    == self.spec_direct_children()[k].1,
    {
        let ghost dc = self.spec_direct_children();
        let mut out: Vec<(u8, &T)> = Vec::new();
        let n = self.children.len();
        let mut i: usize = 0;
        while i < n
            invariant
                i <= n,
                out@.len() <= dc.len(),
                forall|k: int|
                    0 <= k < out@.len() ==> out@[k].0 == dc[k].0 && *out@[k].1 == dc[k].1,
                self.dc_from(i as int) == dc.skip(out@.len() as int),
            decreases n - i,
        {
            let ghost cnt = out@.len() as int;
            match &self.children[i].1.value {
                Option::Some(v) => {
                    out.push((self.children[i].0, v));
                    proof {
                        assert(self.dc_from(i as int) == seq![
                            (self.children@[i as int].0, self.children@[i as int].1.value->0),
                        ] + self.dc_from(i as int + 1));
                        assert(dc.skip(cnt)[0] == dc[cnt]);
                        assert(dc.skip(cnt).drop_first() =~= dc.skip(cnt + 1));
                        assert(self.dc_from(i as int + 1) =~= dc.skip(cnt + 1));
                    }
                },
                Option::None => {},
            }
            i += 1;
        }
        proof {
            assert(self.dc_from(n as int) == Seq::<(u8, T)>::empty());
            assert(dc.skip(out@.len() as int).len() == 0);
        }
        out
    }

    /// Every payload in this subtree, depth first, own payload first,
    /// children in ascending-port order.
    #[verifier::loop_isolation(false)]
    pub fn descendants(&self) -> (r: Vec<&T>)
        ensures
            r@.len() == self.spec_descendants().len(),
            forall|k: int| 0 <= k < r@.len() ==> *r@[k] == self.spec_descendants()[k],
        decreases *self, 2nat, 0nat,
    {
        let ghost all = self.spec_descendants();
        let mut out: Vec<&T> = Vec::new();
        match &self.value {
            Option::Some(v) => {
                out.push(v);
                proof {
                    assert(all == seq![self.value->0] + self.descendants_from(0));
                    assert(all[0] == self.value->0);
                    assert(all.skip(1) =~= self.descendants_from(0));
                }
            },
            Option::None => {
                proof {
                    assert(all == Seq::<T>::empty() + self.descendants_from(0));
                    assert(all.skip(0) =~= self.descendants_from(0));
                }
            },
        }
        let n = self.children.len();
        let mut i: usize = 0;
        while i < n
            invariant
                i <= n,
                out@.len() <= all.len(),
                forall|k: int| 0 <= k < out@.len() ==> *out@[k] == all[k],
                self.descendants_from(i as int) == all.skip(out@.len() as int),
            decreases n - i,
        {
            let ghost cnt = out@.len() as int;
            let sub = &self.children[i].1;
            proof {
                assert(decreases_to!(*self, 2nat, 0nat => self.children@[i as int].1, 2nat, 0nat));
            }
            let mut subd = sub.descendants();
            let ghost subv = subd@;
            let ghost subseq = self.children@[i as int].1.spec_descendants();
            out.append(&mut subd);
            proof {
                assert(self.descendants_from(i as int) == subseq + self.descendants_from(
                    i as int + 1,
                ));
                assert forall|k: int| 0 <= k < out@.len() implies *out@[k] == all[k] by {
                    if k >= cnt {
                        assert(out@[k] == subv[k - cnt]);
                        assert(*subv[k - cnt] == subseq[k - cnt]);
                        assert(all.skip(cnt)[k - cnt] == all[k]);
                        assert(all.skip(cnt)[k - cnt] == subseq[k - cnt]);
                    }
                }
                assert((subseq + self.descendants_from(i as int + 1)).skip(subseq.len() as int)
                    =~= self.descendants_from(i as int + 1));
                assert(all.skip(cnt).skip(subseq.len() as int) =~= all.skip(
                    cnt + subseq.len() as int,
                ));
                assert(self.descendants_from(i as int + 1) == all.skip(cnt + subseq.len() as int));
            }
            i += 1;
        }
        proof {
            assert(self.descendants_from(n as int) == Seq::<T>::empty());
            assert(all.skip(out@.len() as int).len() == 0);
        }
        out
    }

    /// Insert `value` at the chain `ports`, creating any missing
    /// intermediate nodes; overwrites a payload already stored at that
    /// exact location and disturbs no other location.
    #[verifier::loop_isolation(false)]
    pub fn insert(&mut self, ports: &[u8], value: T)
        requires
            old(self).wf(),
        ensures
            final(self).wf(),
            forall|q: Seq<u8>|
                #![trigger final(self).value_at(q)]
                final(self).value_at(q) == (if q == ports@ {
                    Option::Some(value)
                } else {
                    old(self).value_at(q)
                }),
            forall|q: Seq<u8>|
                #![trigger final(self).has_node(q)]
                final(self).has_node(q) == (old(self).has_node(q) || is_port_prefix(q, ports@)),
        decreases ports@.len(),
    {
        if ports.len() == 0 {
            self.value = Option::Some(value);
            proof {
                let cur = *self;
                let pre = *old(self);
                assert(cur.children@ == pre.children@);
                assert forall|q: Seq<u8>|
                    #![trigger cur.value_at(q)]
                    #![trigger cur.has_node(q)]
                    cur.value_at(q) == (if q == ports@ {
                        Option::Some(value)
                    } else {
                        pre.value_at(q)
                    }) && cur.has_node(q) == (pre.has_node(q) || is_port_prefix(q, ports@)) by {
                    if q.len() == 0 {
                        assert(q =~= ports@);
                        assert(q =~= ports@.take(0));
                        assert(is_port_prefix(q, ports@));
                    } else {
                        assert(q != ports@);
                        assert(!is_port_prefix(q, ports@));
                        assert(cur.spec_child(q[0]) == pre.spec_child(q[0]));
                    }
                }
            }
            return ;
        }
        let port = ports[0];
        let tail = slice_subrange(ports, 1, ports.len());
        let ghost tailv = ports@.drop_first();
        proof {
            assert(tail@ =~= tailv);
            assert(seq![port] + tailv =~= ports@);
        }
        match self.find_child_index(port) {
            Option::Some(i) => {
                let ghost oldc = self.children@[i as int].1;
                let mut entry = self.children.remove(i);
                entry.1.insert(tail, value);
                let ghost newc = entry.1;
                self.children.insert(i, entry);
                proof {
                    let pre = *old(self);
                    let cur = *self;
                    assert(cur.children@ =~= pre.children@.update(i as int, (port, newc)));
                    assert(cur.value == pre.value);
                    lemma_insert_post_existing(cur, pre, i as int, port, tailv, value, oldc, newc);
                }
            },
            Option::None => {
                let mut sub = PortTree::new();
                let ghost subinit = sub;
                sub.insert(tail, value);
                let ghost subv = sub;
                let n = self.children.len();
                let mut pos: usize = 0;
                while pos < n && self.children[pos].0 < port
                    invariant
                        pos <= n,
                        forall|j: int| 0 <= j < pos ==> (#[trigger] self.children@[j].0) < port,
                    decreases n - pos,
                {
                    pos += 1;
                }
                proof {
                    assert forall|j: int|
                        pos <= j < self.children@.len() implies (#[trigger] self.children@[j].0)
                        > port by {
                        assert(self.children@[pos as int].0 >= port);
                        assert(self.children@[pos as int].0 != port);
                        if j > pos {
                            assert(self.children@[pos as int].0 < self.children@[j].0);
                        }
                    }
                }
                self.children.insert(pos, (port, sub));
                proof {
                    let pre = *old(self);
                    let cur = *self;
                    assert(cur.children@ =~= pre.children@.insert(pos as int, (port, subv)));
                    assert(cur.value == pre.value);
                    assert(cur.wf()) by {
                        assert(forall|j: int|
                            0 <= j < pos ==> cur.children@[j] == pre.children@[j]);
                        assert(forall|j: int|
                            pos < j < cur.children@.len() ==> cur.children@[j] == pre.children@[j
                                - 1]);
                        assert(cur.children@[pos as int] == (port, subv));
                        assert(forall|j: int|
                            0 <= j < pre.children@.len() ==> (#[trigger] pre.children@[j].1).wf());
                    }
                    lemma_insert_post_new(cur, pre, pos as int, port, tailv, value, subinit, subv);
                }
            },
        }
    }
}

/// A stored payload appears among the descendants of children `j..`
/// whenever it lies in the subtree of child `i >= j`.
proof fn lemma_from_contains<T>(t: PortTree<T>, j: int, i: int, v: T)
    requires
        0 <= j <= i < t.children@.len(),
        t.children@[i].1.spec_descendants().contains(v),
    ensures
        t.descendants_from(j).contains(v),
    decreases i - j,
{
    let cd = t.children@[j].1.spec_descendants();
    let rest = t.descendants_from(j + 1);
    if j == i {
        let idx = choose|idx: int| 0 <= idx < cd.len() && cd[idx] == v;
        assert((cd + rest)[idx] == v);
    } else {
        lemma_from_contains(t, j + 1, i, v);
        let idx = choose|idx: int| 0 <= idx < rest.len() && rest[idx] == v;
        assert((cd + rest)[cd.len() + idx] == v);
    }
}

/// Every payload stored anywhere in the subtree appears among its
/// descendants.
pub proof fn lemma_desc_contains_value<T>(t: PortTree<T>, q: Seq<u8>, v: T)
    requires
        t.value_at(q) == Option::Some(v),
    ensures
        t.spec_descendants().contains(v),
    decreases q.len(),
{
    let own: Seq<T> = match t.value {
        Option::Some(w) => seq![w],
        Option::None => Seq::empty(),
    };
    if q.len() == 0 {
        assert(t.spec_descendants()[0] == v);
    } else {
        let c = t.spec_child(q[0])->0;
        lemma_desc_contains_value(c, q.drop_first(), v);
        lemma_child_in_index(t.children@, q[0]);
        let i = choose|i: int|
            0 <= i < t.children@.len() && t.children@[i] == (q[0], t.spec_child(q[0])->0);
        lemma_from_contains(t, 0, i, v);
        let idx = choose|idx: int|
            0 <= idx < t.descendants_from(0).len() && t.descendants_from(0)[idx] == v;
        assert(t.spec_descendants()[own.len() + idx] == v);
    }
}

/// A present child is stored at some index.
pub proof fn lemma_child_in_index<T>(s: Seq<(u8, PortTree<T>)>, port: u8)
    requires
        child_in(s, port) is Some,
    ensures
        exists|i: int| 0 <= i < s.len() && s[i] == (port, child_in(s, port)->0),
    decreases s.len(),
{
    if s.len() > 0 && s[0].0 != port {
        lemma_child_in_index(s.drop_first(), port);
        let i = choose|i: int|
            0 <= i < s.drop_first().len() && s.drop_first()[i] == (
            port,
            child_in(s.drop_first(), port)->0,
            );
        assert(s[i + 1] == s.drop_first()[i]);
    } else if s.len() > 0 {
        assert(s[0] == (port, child_in(s, port)->0));
    }
}

/// Every descendant payload of a well-formed subtree is stored at some
/// chain within it.
pub proof fn lemma_desc_value_exists<T>(t: PortTree<T>, v: T)
    requires
        t.wf(),
        t.spec_descendants().contains(v),
    ensures
        exists|q: Seq<u8>| #[trigger] t.value_at(q) == Option::Some(v),
    decreases t, 1nat, 0nat,
{
    let own: Seq<T> = match t.value {
        Option::Some(w) => seq![w],
        Option::None => Seq::empty(),
    };
    let idx = choose|idx: int|
        0 <= idx < t.spec_descendants().len() && t.spec_descendants()[idx] == v;
    if idx < own.len() {
        assert(t.value_at(Seq::<u8>::empty()) == Option::Some(v));
    } else {
        assert(t.descendants_from(0)[idx - own.len()] == v);
        lemma_desc_value_exists_from(t, 0, v);
    }
}

/// Scanning helper for [`lemma_desc_value_exists`].
proof fn lemma_desc_value_exists_from<T>(t: PortTree<T>, j: int, v: T)
    requires
        t.wf(),
        0 <= j <= t.children@.len(),
        t.descendants_from(j).contains(v),
    ensures
        exists|q: Seq<u8>| #[trigger] t.value_at(q) == Option::Some(v),
    decreases t, 0nat, t.children@.len() - j,
{
    assert(j < t.children@.len());
    let c = t.children@[j].1;
    let port = t.children@[j].0;
    let cd = c.spec_descendants();
    let rest = t.descendants_from(j + 1);
    let idx = choose|idx: int|
        0 <= idx < t.descendants_from(j).len() && t.descendants_from(j)[idx] == v;
    if idx < cd.len() {
        assert(cd[idx] == v);
        assert(c.wf());
        lemma_desc_value_exists(c, v);
        let q = choose|q: Seq<u8>| #[trigger] c.value_at(q) == Option::Some(v);
        assert forall|k: int| 0 <= k < j implies (#[trigger] t.children@[k].0) != port by {
            assert(t.children@[k].0 < t.children@[j].0);
        }
        lemma_child_in_present(t.children@, j);
        assert(t.spec_child(port) == Option::Some(c));
        let fq = seq![port] + q;
        assert(fq[0] == port && fq.drop_first() =~= q);
        assert(t.value_at(fq) == c.value_at(q));
        assert(t.value_at(fq) == Option::Some(v));
    } else {
        assert(rest[idx - cd.len()] == v);
        lemma_desc_value_exists_from(t, j + 1, v);
    }
}

/// Helper: every chain query on a childless node.
proof fn lemma_leaf_nodes_all<T>(t: PortTree<T>)
    requires
        t.children@.len() == 0,
    ensures
        forall|q: Seq<u8>| #[trigger] t.has_node(q) == (q.len() == 0),
        forall|q: Seq<u8>|
            #![trigger t.value_at(q)]
            t.value_at(q) == (if q.len() == 0 {
                t.value
            } else {
                Option::None::<T>
            }),
{
    assert forall|q: Seq<u8>|
        #![trigger t.has_node(q)]
        #![trigger t.value_at(q)]
        t.has_node(q) == (q.len() == 0) && t.value_at(q) == (if q.len() == 0 {
            t.value
        } else {
            Option::None::<T>
        }) by {
        lemma_leaf_nodes(t, q);
    }
}

/// The effect on every query of replacing the child at index `i`
/// (key `port` unchanged) by an updated subtree.
proof fn lemma_insert_post_existing<T>(
    cur: PortTree<T>,
    pre: PortTree<T>,
    i: int,
    port: u8,
    tailv: Seq<u8>,
    value: T,
    oldc: PortTree<T>,
    newc: PortTree<T>,
)
    requires
        pre.wf(),
        0 <= i < pre.children@.len(),
        pre.children@[i] == (port, oldc),
        cur.children@ == pre.children@.update(i, (port, newc)),
        cur.value == pre.value,
        newc.wf(),
        forall|q: Seq<u8>|
            #![trigger newc.value_at(q)]
            newc.value_at(q) == (if q == tailv {
                Option::Some(value)
            } else {
                oldc.value_at(q)
            }),
        forall|q: Seq<u8>|
            #![trigger newc.has_node(q)]
            newc.has_node(q) == (oldc.has_node(q) || is_port_prefix(q, tailv)),
    ensures
        cur.wf(),
        forall|q: Seq<u8>|
            #![trigger cur.value_at(q)]
            cur.value_at(q) == (if q == seq![port] + tailv {
                Option::Some(value)
            } else {
                pre.value_at(q)
            }),
        forall|q: Seq<u8>|
            #![trigger cur.has_node(q)]
            cur.has_node(q) == (pre.has_node(q) || is_port_prefix(q, seq![port] + tailv)),
{
    let ports = seq![port] + tailv;
    assert(ports[0] == port && ports.drop_first() =~= tailv);
    assert(forall|j: int|
        0 <= j < cur.children@.len() && j != i ==> cur.children@[j] == pre.children@[j]);
    assert(cur.children@[i] == (port, newc));
    assert(cur.wf()) by {
        assert forall|a: int, b: int|
            0 <= a < b < cur.children@.len() implies (#[trigger] cur.children@[a].0)
            < (#[trigger] cur.children@[b].0) by {
            assert(cur.children@[a].0 == pre.children@[a].0);
            assert(cur.children@[b].0 == pre.children@[b].0);
        }
        assert forall|a: int| 0 <= a < cur.children@.len() implies (#[trigger] cur.children@[a].1).wf() by {
            if a != i {
                assert(cur.children@[a] == pre.children@[a]);
                assert(pre.children@[a].1.wf());
            }
        }
    }
    assert forall|j: int| 0 <= j < i implies (#[trigger] pre.children@[j].0) != port by {
        assert(pre.children@[j].0 < pre.children@[i].0);
    }
    lemma_child_in_present(pre.children@, i);
    assert(pre.spec_child(port) == Option::Some(oldc));
    assert(cur.children@[i] == (port, newc));
    assert(forall|j: int| 0 <= j < i ==> (#[trigger] cur.children@[j].0) != port);
    lemma_child_in_present(cur.children@, i);
    assert(cur.spec_child(port) == Option::Some(newc));
    assert forall|q: Seq<u8>|
        #![trigger cur.value_at(q)]
        #![trigger cur.has_node(q)]
        cur.value_at(q) == (if q == ports {
            Option::Some(value)
        } else {
            pre.value_at(q)
        }) && cur.has_node(q) == (pre.has_node(q) || is_port_prefix(q, ports)) by {
        if q.len() == 0 {
            assert(q != ports);
            assert(is_port_prefix(q, ports)) by {
                assert(q =~= ports.take(0));
            }
            assert(cur.value_at(q) == cur.value);
            assert(pre.value_at(q) == pre.value);
            assert(cur.has_node(q) && pre.has_node(q));
        } else {
            let qd = q.drop_first();
            lemma_prefix_cons(q, ports);
            if q[0] == port {
                assert(cur.spec_child(q[0]) == Option::Some(newc));
                assert(pre.spec_child(q[0]) == Option::Some(oldc));
                assert(cur.spec_node(q) == newc.spec_node(qd));
                assert(pre.spec_node(q) == oldc.spec_node(qd));
                assert(cur.value_at(q) == newc.value_at(qd));
                assert(pre.value_at(q) == oldc.value_at(qd));
                assert(cur.has_node(q) == newc.has_node(qd));
                assert(pre.has_node(q) == oldc.has_node(qd));
                assert((q == ports) == (qd == tailv)) by {
                    if qd == tailv {
                        assert(q =~= ports);
                    }
                }
                assert(is_port_prefix(q, ports) == is_port_prefix(qd, tailv));
                assert(newc.value_at(qd) == (if qd == tailv {
                    Option::Some(value)
                } else {
                    oldc.value_at(qd)
                }));
                assert(newc.has_node(qd) == (oldc.has_node(qd) || is_port_prefix(qd, tailv)));
            } else {
                lemma_child_in_update(pre.children@, i, (port, newc), q[0]);
                assert(cur.spec_child(q[0]) == pre.spec_child(q[0]));
                assert(cur.value_at(q) == pre.value_at(q));
                assert(cur.has_node(q) == pre.has_node(q));
                assert(q != ports);
                assert(!is_port_prefix(q, ports));
            }
        }
    }
}

/// The effect on every query of adding a fresh subtree at index `pos`
/// under a previously absent key `port`.
proof fn lemma_insert_post_new<T>(
    cur: PortTree<T>,
    pre: PortTree<T>,
    pos: int,
    port: u8,
    tailv: Seq<u8>,
    value: T,
    subinit: PortTree<T>,
    subv: PortTree<T>,
)
    requires
        pre.wf(),
        cur.wf(),
        0 <= pos <= pre.children@.len(),
        forall|j: int| 0 <= j < pre.children@.len() ==> (#[trigger] pre.children@[j].0) != port,
        cur.children@ == pre.children@.insert(pos, (port, subv)),
        cur.value == pre.value,
        subinit.value is None,
        subinit.children@.len() == 0,
        forall|q: Seq<u8>|
            #![trigger subv.value_at(q)]
            subv.value_at(q) == (if q == tailv {
                Option::Some(value)
            } else {
                subinit.value_at(q)
            }),
        forall|q: Seq<u8>|
            #![trigger subv.has_node(q)]
            subv.has_node(q) == (subinit.has_node(q) || is_port_prefix(q, tailv)),
    ensures
        forall|q: Seq<u8>|
            #![trigger cur.value_at(q)]
            cur.value_at(q) == (if q == seq![port] + tailv {
                Option::Some(value)
            } else {
                pre.value_at(q)
            }),
        forall|q: Seq<u8>|
            #![trigger cur.has_node(q)]
            cur.has_node(q) == (pre.has_node(q) || is_port_prefix(q, seq![port] + tailv)),
{
    let ports = seq![port] + tailv;
    assert(ports[0] == port && ports.drop_first() =~= tailv);
    lemma_child_in_absent(pre.children@, port);
    assert(cur.children@[pos] == (port, subv));
    assert forall|j: int| 0 <= j < pos implies (#[trigger] cur.children@[j].0) != port by {
        assert(cur.children@[j] == pre.children@[j]);
    }
    lemma_child_in_present(cur.children@, pos);
    assert(cur.spec_child(port) == Option::Some(subv));
    lemma_leaf_nodes_all(subinit);
    assert forall|q: Seq<u8>|
        #![trigger cur.value_at(q)]
        #![trigger cur.has_node(q)]
        cur.value_at(q) == (if q == ports {
            Option::Some(value)
        } else {
            pre.value_at(q)
        }) && cur.has_node(q) == (pre.has_node(q) || is_port_prefix(q, ports)) by {
        if q.len() == 0 {
            assert(q != ports);
            assert(is_port_prefix(q, ports)) by {
                assert(q =~= ports.take(0));
            }
        } else {
            let qd = q.drop_first();
            lemma_prefix_cons(q, ports);
            if q[0] == port {
                assert(cur.spec_node(q) == subv.spec_node(qd));
                assert(pre.spec_node(q) is None);
                assert((q == ports) == (qd == tailv)) by {
                    if qd == tailv {
                        assert(q =~= ports);
                    }
                }
                assert(subv.value_at(qd) == (if qd == tailv {
                    Option::Some(value)
                } else {
                    Option::None::<T>
                }));
                if qd.len() == 0 {
                    assert(qd =~= tailv.take(0));
                    assert(is_port_prefix(qd, tailv));
                }
                assert(subv.has_node(qd) == (qd.len() == 0 || is_port_prefix(qd, tailv)));
            } else {
                lemma_child_in_insert(pre.children@, pos, (port, subv), q[0]);
                assert(cur.spec_child(q[0]) == pre.spec_child(q[0]));
                assert(q != ports);
            }
        }
    }
}

} // verus!
