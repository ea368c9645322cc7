//! Device path: a bus number plus an ordered chain of port numbers, with a
//! canonical `bus:port.port` string form.

use vstd::prelude::*;
use vstd::string::StrSliceExecFns;
use vstd::string::StringExecFns;

use crate::digits::dec_digits;
use crate::digits::is_digit_char;
use crate::digits::lemma_dec_digits_wf;
use crate::digits::lemma_parse_u8_of_digits;
use crate::digits::parse_u8_range;
use crate::digits::push_u8_decimal;
use crate::digits::spec_parse_u8;
use crate::digits::u8_to_decimal;
use crate::error::DevicePathError;
use crate::error::PathErrView;

verus! {

/// Mathematical form of a device path.
#[verifier::ext_equal]
pub struct PathView {
    pub bus: u8,
    pub ports: Seq<u8>,
}

impl PathView {
    /// `self` addresses a strictly higher location on the same bus, and its
    /// port chain is a proper prefix of `other`'s.
    pub open spec fn is_ancestor_of(self, other: PathView) -> bool {
        &&& self.bus == other.bus
        &&& self.ports.len() < other.ports.len()
        &&& self.ports == other.ports.take(self.ports.len() as int)
    }

    /// The exact converse of [`PathView::is_ancestor_of`].
    pub open spec fn is_descendant_of(self, other: PathView) -> bool {
        other.is_ancestor_of(self)
    }

    /// The path one level down through `port`.
    pub open spec fn child(self, port: u8) -> PathView {
        PathView { bus: self.bus, ports: self.ports.push(port) }
    }

    /// The path one level up, absent for a bus root.
    pub open spec fn parent(self) -> Option<PathView> {
        if self.ports.len() == 0 {
            Option::None
        } else {
            Option::Some(PathView { bus: self.bus, ports: self.ports.drop_last() })
        }
    }

    /// The canonical string form of this path.
    pub open spec fn key(self) -> Seq<char> {
        spec_key(self.bus, self.ports)
    }
}

/// Taking a child and then its parent returns the original path, for
/// every path and every port.
pub proof fn lemma_child_parent_inverse(p: PathView, k: u8)
    ensures
        p.child(k).parent() == Option::Some(p),
{
    assert(p.child(k).ports.drop_last() =~= p.ports);
    assert(PathView { bus: p.bus, ports: p.child(k).ports.drop_last() } =~= p);
}

/// Ancestry and descendance are exact converses, and ancestry is never
/// reflexive.
pub proof fn lemma_ancestor_descendant_symmetry(a: PathView, b: PathView)
    ensures
        a.is_ancestor_of(b) == b.is_descendant_of(a),
        !a.is_ancestor_of(a),
{
}

/// The canonical string form of a port chain: decimal ports joined by dots.
pub open spec fn spec_ports_str(ports: Seq<u8>) -> Seq<char>
    decreases ports.len(),
{
    if ports.len() == 0 {
        Seq::<char>::empty()
    } else if ports.len() == 1 {
        dec_digits(ports[0] as nat)
    } else {
        dec_digits(ports[0] as nat) + seq!['.'] + spec_ports_str(ports.drop_first())
    }
}

/// The canonical string form of a path: `bus:` followed by the port chain.
pub open spec fn spec_key(bus: u8, ports: Seq<u8>) -> Seq<char> {
    dec_digits(bus as nat) + seq![':'] + spec_ports_str(ports)
}

/// Appending one port extends the joined form with a dot-separated decimal
/// (or just the decimal, when the chain was empty).
pub proof fn lemma_ports_str_push(ports: Seq<u8>, p: u8)
    ensures
        ports.len() == 0 ==> spec_ports_str(ports.push(p)) == dec_digits(p as nat),
        ports.len() > 0 ==> spec_ports_str(ports.push(p)) == spec_ports_str(ports) + seq!['.']
            + dec_digits(p as nat),
    decreases ports.len(),
{
    if ports.len() == 0 {
        assert(ports.push(p) =~= seq![p]);
        assert(spec_ports_str(seq![p]) == dec_digits(p as nat));
    } else {
        let rest = ports.drop_first();
        lemma_ports_str_push(rest, p);
        assert(ports.push(p).drop_first() =~= rest.push(p));
        assert(ports.push(p)[0] == ports[0]);
        if rest.len() == 0 {
            assert(spec_ports_str(ports) == dec_digits(ports[0] as nat));
            assert(spec_ports_str(ports.push(p)) == dec_digits(ports[0] as nat) + seq!['.']
                + dec_digits(p as nat));
        } else {
            assert(spec_ports_str(ports.push(p)) == dec_digits(ports[0] as nat) + seq!['.'] + (
            spec_ports_str(rest) + seq!['.'] + dec_digits(p as nat)));
            assert(dec_digits(ports[0] as nat) + seq!['.'] + (spec_ports_str(rest) + seq!['.']
                + dec_digits(p as nat)) =~= (dec_digits(ports[0] as nat) + seq!['.']
                + spec_ports_str(rest)) + seq!['.'] + dec_digits(p as nat));
        }
    }
}

/// The index of the first occurrence of `c` in `s`, if any.
pub open spec fn find_char(s: Seq<char>, c: char) -> Option<int>
    decreases s.len(),
{
    if s.len() == 0 {
        Option::None
    } else if s[0] == c {
        Option::Some(0)
    } else {
        match find_char(s.drop_first(), c) {
            Option::Some(i) => Option::Some(i + 1),
            Option::None => Option::None,
        }
    }
}

pub proof fn lemma_find_char_at(s: Seq<char>, c: char, i: int)
    requires
        0 <= i < s.len(),
        s[i] == c,
        forall|j: int| 0 <= j < i ==> s[j] != c,
    ensures
        find_char(s, c) == Option::Some(i),
    decreases s.len(),
{
    if i > 0 {
        let rest = s.drop_first();
        assert(rest[i - 1] == c);
        assert forall|j: int| 0 <= j < i - 1 implies rest[j] != c by {
            assert(rest[j] == s[j + 1]);
        }
        lemma_find_char_at(rest, c, i - 1);
    }
}

pub proof fn lemma_find_char_none(s: Seq<char>, c: char)
    requires
        forall|j: int| 0 <= j < s.len() ==> s[j] != c,
    ensures
        find_char(s, c) == Option::None::<int>,
    decreases s.len(),
{
    if s.len() > 0 {
        let rest = s.drop_first();
        assert forall|j: int| 0 <= j < rest.len() implies rest[j] != c by {
            assert(rest[j] == s[j + 1]);
        }
        lemma_find_char_none(rest, c);
    }
}

/// Split `s` at every occurrence of `sep`; splitting the empty sequence
/// yields one empty piece, as `str::split` does.
pub open spec fn split_char(s: Seq<char>, sep: char) -> Seq<Seq<char>>
    decreases s.len(),
{
    match find_char(s, sep) {
        Option::Some(i) => {
            if 0 <= i < s.len() {
                seq![s.take(i)] + split_char(s.skip(i + 1), sep)
            } else {
                seq![s]
            }
        },
        Option::None => seq![s],
    }
}

/// Parse a sequence of port tokens left to right; the error carries the
/// first token that is not an unsigned 8-bit decimal.
pub open spec fn spec_parse_ports(toks: Seq<Seq<char>>) -> Result<Seq<u8>, Seq<char>>
    decreases toks.len(),
{
    if toks.len() == 0 {
        Result::Ok(Seq::<u8>::empty())
    } else {
        match spec_parse_u8(toks[0]) {
            Option::None => Result::Err(toks[0]),
            Option::Some(p) => match spec_parse_ports(toks.drop_first()) {
                Result::Ok(ps) => Result::Ok(seq![p] + ps),
                Result::Err(t) => Result::Err(t),
            },
        }
    }
}

pub proof fn lemma_parse_ports_append(a: Seq<Seq<char>>, b: Seq<Seq<char>>)
    ensures
        match spec_parse_ports(a) {
            Result::Err(t) => spec_parse_ports(a + b) == Result::Err::<Seq<u8>, Seq<char>>(t),
            Result::Ok(pa) => spec_parse_ports(a + b) == (match spec_parse_ports(b) {
                Result::Ok(pb) => Result::Ok::<Seq<u8>, Seq<char>>(pa + pb),
                Result::Err(t) => Result::Err::<Seq<u8>, Seq<char>>(t),
            }),
        },
    decreases a.len(),
{
    if a.len() == 0 {
        assert(a + b =~= b);
        match spec_parse_ports(b) {
            Result::Ok(pb) => {
                assert(Seq::<u8>::empty() + pb =~= pb);
            },
            Result::Err(_) => {},
        }
    } else {
        let rest = a.drop_first();
        assert((a + b)[0] == a[0]);
        assert((a + b).drop_first() =~= rest + b);
        lemma_parse_ports_append(rest, b);
        match spec_parse_u8(a[0]) {
            Option::None => {},
            Option::Some(p) => {
                match spec_parse_ports(rest) {
                    Result::Err(_) => {},
                    Result::Ok(pr) => {
                        match spec_parse_ports(b) {
                            Result::Err(_) => {},
                            Result::Ok(pb) => {
                                assert(seq![p] + (pr + pb) =~= (seq![p] + pr) + pb);
                            },
                        }
                    },
                }
            },
        }
    }
}

/// What parsing a path string yields: the grammar is
/// `<bus> ':' (<port> ('.' <port>)*)?`, each number an unsigned 8-bit
/// decimal, with each failure mapped to its error.
pub open spec fn spec_parse_path(s: Seq<char>) -> Result<PathView, PathErrView> {
    match find_char(s, ':') {
        Option::None => Result::Err(PathErrView::InvalidFormat),
        Option::Some(ci) => {
            let bus_s = s.take(ci);
            let rest = s.skip(ci + 1);
            if bus_s.len() == 0 {
                Result::Err(PathErrView::MissingBus)
            } else {
                match spec_parse_u8(bus_s) {
                    Option::None => Result::Err(PathErrView::InvalidBus(bus_s)),
                    Option::Some(bus) => {
                        if rest.len() == 0 {
                            Result::Ok(PathView { bus, ports: Seq::<u8>::empty() })
                        } else {
                            match spec_parse_ports(split_char(rest, '.')) {
                                Result::Ok(ports) => Result::Ok(PathView { bus, ports }),
                                Result::Err(t) => Result::Err(PathErrView::InvalidPort(t)),
                            }
                        }
                    },
                }
            }
        },
    }
}

/// A rendered port chain is nonempty and parses back to the chain.
pub proof fn lemma_ports_str_parses(ports: Seq<u8>)
    requires
        ports.len() > 0,
    ensures
        spec_ports_str(ports).len() > 0,
        spec_parse_ports(split_char(spec_ports_str(ports), '.')) == Result::Ok::<
            Seq<u8>,
            Seq<char>,
        >(ports),
    decreases ports.len(),
{
    let p0 = ports[0];
    let d0 = dec_digits(p0 as nat);
    lemma_dec_digits_wf(p0 as nat);
    lemma_parse_u8_of_digits(p0);
    if ports.len() == 1 {
        let ps = spec_ports_str(ports);
        assert(ps == d0);
        assert forall|j: int| 0 <= j < ps.len() implies ps[j] != '.' by {
            assert(is_digit_char(ps[j]));
        }
        lemma_find_char_none(ps, '.');
        assert(split_char(ps, '.') == seq![ps]);
        assert(seq![ps][0] == ps);
        assert(seq![ps].drop_first() =~= Seq::<Seq<char>>::empty());
        assert(spec_parse_ports(Seq::<Seq<char>>::empty()) == Result::Ok::<Seq<u8>, Seq<char>>(
            Seq::<u8>::empty(),
        ));
        assert(seq![p0] + Seq::<u8>::empty() =~= seq![p0]);
        assert(seq![p0] =~= ports);
    } else {
        let rest = ports.drop_first();
        let ps = spec_ports_str(ports);
        let psr = spec_ports_str(rest);
        lemma_ports_str_parses(rest);
        assert(ps == d0 + seq!['.'] + psr);
        assert(ps[d0.len() as int] == '.');
        assert forall|j: int| 0 <= j < d0.len() implies ps[j] != '.' by {
            assert(ps[j] == d0[j]);
            assert(is_digit_char(d0[j]));
        }
        lemma_find_char_at(ps, '.', d0.len() as int);
        assert(ps.take(d0.len() as int) =~= d0);
        assert(ps.skip(d0.len() as int + 1) =~= psr);
        assert(split_char(ps, '.') == seq![d0] + split_char(psr, '.'));
        lemma_parse_ports_append(seq![d0], split_char(psr, '.'));
        assert(spec_parse_ports(seq![d0]) == Result::Ok::<Seq<u8>, Seq<char>>(seq![p0])) by {
            assert(seq![d0][0] == d0);
            assert(seq![d0].drop_first() =~= Seq::<Seq<char>>::empty());
            assert(spec_parse_ports(Seq::<Seq<char>>::empty()) == Result::Ok::<Seq<u8>, Seq<char>>(
                Seq::<u8>::empty(),
            ));
            assert(seq![p0] + Seq::<u8>::empty() =~= seq![p0]);
        }
        assert(seq![p0] + rest =~= ports);
    }
}

/// Round-trip law: the canonical string form of any path parses back to
/// exactly that path, for every bus value and every finite port chain.
pub proof fn lemma_parse_key_roundtrip(p: PathView)
    ensures
        spec_parse_path(p.key()) == Result::Ok::<PathView, PathErrView>(p),
{
    let bd = dec_digits(p.bus as nat);
    let key = p.key();
    lemma_dec_digits_wf(p.bus as nat);
    lemma_parse_u8_of_digits(p.bus);
    assert(key == (bd + seq![':']) + spec_ports_str(p.ports));
    assert(key[bd.len() as int] == ':');
    assert forall|j: int| 0 <= j < bd.len() implies key[j] != ':' by {
        assert(key[j] == bd[j]);
        assert(is_digit_char(bd[j]));
    }
    lemma_find_char_at(key, ':', bd.len() as int);
    assert(key.take(bd.len() as int) =~= bd);
    assert(key.skip(bd.len() as int + 1) =~= spec_ports_str(p.ports));
    if p.ports.len() == 0 {
        assert(PathView { bus: p.bus, ports: Seq::<u8>::empty() } =~= p);
    } else {
        lemma_ports_str_parses(p.ports);
        assert(PathView { bus: p.bus, ports: p.ports } =~= p);
    }
}

/// The index of the first occurrence of `c` in the range `[from, to)`
/// of `s`, if any.
pub fn find_char_in(s: &str, from: usize, to: usize, c: char) -> (r: Option<usize>)
    requires
        from <= to <= s@.len(),
    ensures
        match r {
            Option::Some(i) => from <= i < to && s@[i as int] == c && forall|j: int|
                from <= j < i ==> s@[j] != c,
            Option::None => forall|j: int| from <= j < to ==> s@[j] != c,
        },
{
    let mut i = from;
    while i < to
        invariant
            from <= i <= to <= s@.len(),
            forall|j: int| from <= j < i ==> s@[j] != c,
        decreases to - i,
    {
        if s.get_char(i) == c {
            return Option::Some(i);
        }
        i += 1;
    }
    Option::None
}

/// The values of the port tokens that parse, in token order.
pub open spec fn filter_ports(toks: Seq<Seq<char>>) -> Seq<u8>
    decreases toks.len(),
{
    if toks.len() == 0 {
        Seq::<u8>::empty()
    } else {
        let rest = filter_ports(toks.drop_first());
        match spec_parse_u8(toks[0]) {
            Option::Some(p) => seq![p] + rest,
            Option::None => rest,
        }
    }
}

/// What lenient port-path parsing yields: split on dots, keep the tokens
/// that are unsigned 8-bit decimals, drop the rest.  Empty input yields
/// an empty chain.
pub open spec fn spec_port_path(s: Seq<char>) -> Seq<u8> {
    if s.len() == 0 {
        Seq::<u8>::empty()
    } else {
        filter_ports(split_char(s, '.'))
    }
}

/// Leniently parse the character range `[from, to)` of `s` as a
/// dot-separated port chain, dropping unparseable tokens.
#[verifier::loop_isolation(false)]
pub fn parse_port_path_range(s: &str, from: usize, to: usize) -> (r: Vec<u8>)
    requires
        from <= to <= s@.len(),
    ensures
        r@ == spec_port_path(s@.subrange(from as int, to as int)),
{
    let ghost whole = s@.subrange(from as int, to as int);
    if from == to {
        let r = Vec::new();
        proof {
            assert(r@ =~= spec_port_path(whole));
        }
        return r;
    }
    let ghost toks = split_char(whole, '.');
    let mut out: Vec<u8> = Vec::new();
    let mut pos: usize = from;
    proof {
        assert(whole =~= s@.subrange(from as int, to as int));
    }
    loop
        invariant
            from <= pos <= to <= s@.len(),
            whole == s@.subrange(from as int, to as int),
            whole.len() > 0,
            toks == split_char(whole, '.'),
            filter_ports(toks) == out@ + filter_ports(
                split_char(s@.subrange(pos as int, to as int), '.'),
            ),
        decreases to - pos,
    {
        let ghost rem = s@.subrange(pos as int, to as int);
        let end = match find_char_in(s, pos, to, '.') {
            Option::Some(j) => {
                proof {
                    assert(rem[j - pos] == '.');
                    assert forall|k: int| 0 <= k < j - pos implies rem[k] != '.' by {
                        assert(rem[k] == s@[pos + k]);
                    }
                    lemma_find_char_at(rem, '.', j - pos);
                }
                j
            },
            Option::None => {
                proof {
                    assert forall|k: int| 0 <= k < rem.len() implies rem[k] != '.' by {
                        assert(rem[k] == s@[pos + k]);
                    }
                    lemma_find_char_none(rem, '.');
                }
                to
            },
        };
        let ghost token = s@.subrange(pos as int, end as int);
        let ghost tail = split_char(s@.subrange(end + 1, to as int), '.');
        proof {
            if end < to {
                assert(rem.take(end - pos) =~= token);
                assert(rem.skip(end - pos + 1) =~= s@.subrange(end + 1, to as int));
                assert(split_char(rem, '.') == seq![token] + tail);
                assert((seq![token] + tail)[0] == token);
                assert((seq![token] + tail).drop_first() =~= tail);
            } else {
                assert(rem =~= token);
                assert(split_char(rem, '.') == seq![token]);
                assert(seq![token][0] == token);
                assert(seq![token].drop_first() =~= Seq::<Seq<char>>::empty());
            }
        }
        let ghost prev = out@;
        match parse_u8_range(s, pos, end) {
            Option::Some(p) => {
                out.push(p);
                proof {
                    assert(out@ =~= prev + seq![p]);
                    let rest_toks: Seq<Seq<char>> = if end < to {
                        tail
                    } else {
                        Seq::<Seq<char>>::empty()
                    };
                    assert(filter_ports(split_char(rem, '.')) == seq![p] + filter_ports(
                        rest_toks,
                    ));
                    assert(prev + (seq![p] + filter_ports(rest_toks)) =~= (prev + seq![p])
                        + filter_ports(rest_toks));
                }
            },
            Option::None => {
                proof {
                    assert(filter_ports(split_char(rem, '.')) == filter_ports(
                        if end < to {
                            tail
                        } else {
                            Seq::<Seq<char>>::empty()
                        },
                    ));
                }
            },
        }
        if end == to {
            proof {
                assert(filter_ports(Seq::<Seq<char>>::empty()) == Seq::<u8>::empty());
                assert(out@ + Seq::<u8>::empty() =~= out@);
                assert(filter_ports(toks) == out@);
            }
            return out;
        }
        pos = end + 1;
        proof {
            assert(filter_ports(toks) == out@ + filter_ports(
                split_char(s@.subrange(pos as int, to as int), '.'),
            ));
        }
    }
}

/// Leniently parse a full string such as `1.2.3` as a port chain,
/// dropping unparseable tokens; empty input yields an empty chain.
pub fn parse_port_path(path: &str) -> (r: Vec<u8>)
    ensures
        r@ == spec_port_path(path@),
{
    let len = path.unicode_len();
    let r = parse_port_path_range(path, 0, len);
    proof {
        assert(path@.subrange(0, len as int) =~= path@);
    }
    r
}

/// A parsed device path: bus number plus port chain.
///
/// Immutable value type; two paths are equal exactly when bus and port
/// chain agree, and equality implies an identical canonical string form.
#[derive(Debug, PartialEq, Eq, Hash)]
pub struct DevicePath {
    bus: u8,
    ports: Vec<u8>,
}

impl View for DevicePath {
    type V = PathView;

    closed spec fn view(&self) -> PathView {
        PathView { bus: self.bus, ports: self.ports@ }
    }
}

impl Clone for DevicePath {
    fn clone(&self) -> (r: Self)
        ensures
            r@ == self@,
    {
        let ports = self.ports.clone();
        proof {
            assert(ports@ =~= self.ports@);
        }
        DevicePath { bus: self.bus, ports }
    }
}

impl DevicePath {
    /// Create a path from a bus number and a port chain.
    pub fn new(bus: u8, ports: Vec<u8>) -> (r: Self)
        ensures
            r@ == (PathView { bus, ports: ports@ }),
    {
        DevicePath { bus, ports }
    }

    /// Create a bus-root path (empty port chain).
    pub fn bus_only(bus: u8) -> (r: Self)
        ensures
            r@ == (PathView { bus, ports: Seq::<u8>::empty() }),
    {
        let r = DevicePath { bus, ports: Vec::new() };
        proof {
            assert(r@ =~= (PathView { bus, ports: Seq::<u8>::empty() }));
        }
        r
    }

    /// The bus number.
    pub fn bus(&self) -> (r: u8)
        ensures
            r == self@.bus,
    {
        self.bus
    }

    /// The port chain.
    pub fn ports(&self) -> (r: &[u8])
        ensures
            r@ == self@.ports,
    {
        self.ports.as_slice()
    }

    /// Whether this is a bus-root path (no ports).
    pub fn is_bus_only(&self) -> (r: bool)
        ensures
            r == (self@.ports.len() == 0),
    {
        self.ports.is_empty()
    }

    /// The parent path (one level up), or `None` for a bus-root path.
    pub fn parent(&self) -> (r: Option<DevicePath>)
        ensures
            match r {
                Option::None => self@.parent() is None,
                Option::Some(p) => self@.parent() == Option::Some(p@),
            },
    {
        if self.ports.is_empty() {
            Option::None
        } else {
            let mut ports = self.ports.clone();
            proof {
                assert(ports@ =~= self.ports@);
            }
            let n = ports.len();
            ports.truncate(n - 1);
            proof {
                assert(ports@ =~= self.ports@.drop_last());
            }
            Option::Some(DevicePath { bus: self.bus, ports })
        }
    }

    /// The depth: the number of ports in the chain.
    pub fn depth(&self) -> (r: usize)
        ensures
            r == self@.ports.len(),
    {
        self.ports.len()
    }

    /// Whether this path is a strict ancestor of `other`.
    pub fn is_ancestor_of(&self, other: &DevicePath) -> (r: bool)
        ensures
            r == self@.is_ancestor_of(other@),
    {
        if self.bus != other.bus {
            return false;
        }
        if self.ports.len() >= other.ports.len() {
            return false;
        }
        let n = self.ports.len();
        let mut i: usize = 0;
        while i < n
            invariant
                n == self@.ports.len() < other@.ports.len(),
                i <= n,
                self@.bus == other@.bus,
                forall|j: int| 0 <= j < i ==> self@.ports[j] == other@.ports[j],
            decreases n - i,
        {
            if self.ports[i] != other.ports[i] {
                proof {
                    assert(self@.ports[i as int] != other@.ports.take(n as int)[i as int]);
                }
                return false;
            }
            i += 1;
        }
        proof {
            assert(self@.ports =~= other@.ports.take(n as int));
        }
        true
    }

    /// Whether this path is a strict descendant of `other`.
    pub fn is_descendant_of(&self, other: &DevicePath) -> (r: bool)
        ensures
            r == self@.is_descendant_of(other@),
    {
        other.is_ancestor_of(self)
    }

    /// The child path obtained by appending one port; always succeeds.
    pub fn child(&self, port: u8) -> (r: DevicePath)
        ensures
            r@ == self@.child(port),
    {
        let mut ports = self.ports.clone();
        proof {
            assert(ports@ =~= self.ports@);
        }
        ports.push(port);
        DevicePath { bus: self.bus, ports }
    }

    /// The bus number in decimal string form (the per-bus index key).
    pub fn bus_str(&self) -> (r: String)
        ensures
            r@ == dec_digits(self@.bus as nat),
    {
        u8_to_decimal(self.bus)
    }

    /// The canonical string form: `"{bus}:"` for a bus root, otherwise
    /// `"{bus}:{port}.{port}..."`.
    pub fn to_key(&self) -> (r: String)
        ensures
            r@ == self@.key(),
    {
        let mut s = String::new();
        push_u8_decimal(&mut s, self.bus);
        s.append(":");
        proof {
            reveal_strlit(":");
            assert(s@ =~= dec_digits(self@.bus as nat) + seq![':'] + spec_ports_str(
                self@.ports.take(0),
            ));
        }
        let n = self.ports.len();
        let mut i: usize = 0;
        while i < n
            invariant
                n == self@.ports.len(),
                i <= n,
                s@ == dec_digits(self@.bus as nat) + seq![':'] + spec_ports_str(
                    self@.ports.take(i as int),
                ),
            decreases n - i,
        {
            let ghost done = self@.ports.take(i as int);
            if i > 0 {
                s.append(".");
            }
            push_u8_decimal(&mut s, self.ports[i]);
            proof {
                reveal_strlit(".");
                let p = self@.ports[i as int];
                lemma_ports_str_push(done, p);
                assert(self@.ports.take(i + 1) =~= done.push(p));
                if i == 0 {
                    assert(done.len() == 0);
                    assert(s@ =~= dec_digits(self@.bus as nat) + seq![':'] + spec_ports_str(
                        self@.ports.take(i + 1),
                    ));
                } else {
                    assert("."@ =~= seq!['.']);
                    assert(s@ =~= dec_digits(self@.bus as nat) + seq![':'] + (spec_ports_str(done)
                        + seq!['.'] + dec_digits(p as nat)));
                    assert(s@ =~= dec_digits(self@.bus as nat) + seq![':'] + spec_ports_str(
                        self@.ports.take(i + 1),
                    ));
                }
            }
            i += 1;
        }
        proof {
            assert(self@.ports.take(n as int) =~= self@.ports);
        }
        s
    }

    /// Parse a `bus:port.port` string; the exact inverse of [`Self::to_key`]
    /// on canonical strings.
    #[verifier::loop_isolation(false)]
    #[verifier::rlimit(80)]
    pub fn parse(s: &str) -> (r: Result<DevicePath, DevicePathError>)
        ensures
            match r {
                Result::Ok(p) => spec_parse_path(s@) == Result::Ok::<PathView, PathErrView>(p@),
                Result::Err(e) => spec_parse_path(s@) == Result::Err::<PathView, PathErrView>(e@),
            },
    {
        let len = s.unicode_len();
        let ci = match find_char_in(s, 0, len, ':') {
            Option::None => {
                proof {
                    lemma_find_char_none(s@, ':');
                }
                return Result::Err(DevicePathError::InvalidFormat);
            },
            Option::Some(ci) => ci,
        };
        proof {
            lemma_find_char_at(s@, ':', ci as int);
        }
        if ci == 0 {
            proof {
                assert(s@.take(0).len() == 0);
            }
            return Result::Err(DevicePathError::MissingBus);
        }
        let ghost bus_seq = s@.take(ci as int);
        let bus = match parse_u8_range(s, 0, ci) {
            Option::None => {
                let text = String::from_str(s.substring_char(0, ci));
                proof {
                    assert(s@.subrange(0, ci as int) =~= bus_seq);
                    assert(text@ == bus_seq);
                }
                return Result::Err(DevicePathError::InvalidBus(text));
            },
            Option::Some(bus) => {
                proof {
                    assert(s@.subrange(0, ci as int) =~= bus_seq);
                }
                bus
            },
        };
        let ghost rest = s@.skip(ci + 1);
        if ci + 1 == len {
            let r = DevicePath { bus, ports: Vec::new() };
            proof {
                assert(rest.len() == 0);
                assert(r@ =~= (PathView { bus, ports: Seq::<u8>::empty() }));
            }
            return Result::Ok(r);
        }
        let ghost toks = split_char(rest, '.');
        let mut ports: Vec<u8> = Vec::new();
        let ghost mut done: Seq<Seq<char>> = Seq::empty();
        let mut pos: usize = ci + 1;
        proof {
            assert(rest =~= s@.subrange(pos as int, len as int));
            assert(done + split_char(s@.subrange(pos as int, len as int), '.') =~= toks);
            assert(spec_parse_ports(done) == Result::Ok::<Seq<u8>, Seq<char>>(ports@));
        }
        loop
            invariant
                ci + 1 <= pos <= len == s@.len(),
                ci < s@.len(),
                s@[ci as int] == ':',
                forall|j: int| 0 <= j < ci ==> s@[j] != ':',
                bus_seq == s@.take(ci as int),
                bus_seq.len() > 0,
                spec_parse_u8(bus_seq) == Option::Some(bus),
                rest == s@.skip(ci + 1),
                rest.len() > 0,
                toks == split_char(rest, '.'),
                toks == done + split_char(s@.subrange(pos as int, len as int), '.'),
                spec_parse_ports(done) == Result::Ok::<Seq<u8>, Seq<char>>(ports@),
            decreases s@.len() - pos,
        {
            let ghost rem = s@.subrange(pos as int, len as int);
            let end = match find_char_in(s, pos, len, '.') {
                Option::Some(j) => {
                    proof {
                        assert(rem[j - pos] == '.');
                        assert forall|k: int| 0 <= k < j - pos implies rem[k] != '.' by {
                            assert(rem[k] == s@[pos + k]);
                        }
                        lemma_find_char_at(rem, '.', j - pos);
                    }
                    j
                },
                Option::None => {
                    proof {
                        assert forall|k: int| 0 <= k < rem.len() implies rem[k] != '.' by {
                            assert(rem[k] == s@[pos + k]);
                        }
                        lemma_find_char_none(rem, '.');
                    }
                    len
                },
            };
            let ghost token = s@.subrange(pos as int, end as int);
            let ghost tail = split_char(s@.subrange(end + 1, len as int), '.');
            proof {
                if end < len {
                    assert(rem.take(end - pos) =~= token);
                    assert(rem.skip(end - pos + 1) =~= s@.subrange(end + 1, len as int));
                    assert(split_char(rem, '.') == seq![token] + tail);
                } else {
                    assert(rem =~= token);
                    assert(split_char(rem, '.') == seq![token]);
                }
            }
            match parse_u8_range(s, pos, end) {
                Option::None => {
                    let text = String::from_str(s.substring_char(pos, end));
                    proof {
                        lemma_parse_ports_append(done, split_char(rem, '.'));
                        if end < len {
                            assert(split_char(rem, '.')[0] == token);
                            assert(split_char(rem, '.').drop_first() =~= tail);
                        } else {
                            assert(split_char(rem, '.')[0] == token);
                        }
                        assert(spec_parse_ports(split_char(rem, '.')) == Result::Err::<
                            Seq<u8>,
                            Seq<char>,
                        >(token));
                        assert(spec_parse_ports(toks) == Result::Err::<Seq<u8>, Seq<char>>(token));
                        assert(text@ == token);
                    }
                    return Result::Err(DevicePathError::InvalidPort(text));
                },
                Option::Some(p) => {
                    let ghost prev = ports@;
                    ports.push(p);
                    proof {
                        lemma_parse_ports_append(done, seq![token]);
                        assert(spec_parse_ports(seq![token]) == Result::Ok::<Seq<u8>, Seq<char>>(
                            seq![p],
                        )) by {
                            assert(seq![token][0] == token);
                            assert(spec_parse_u8(token) == Option::Some(p));
                            assert(seq![token].drop_first() =~= Seq::<Seq<char>>::empty());
                            assert(spec_parse_ports(Seq::<Seq<char>>::empty()) == Result::Ok::<
                                Seq<u8>,
                                Seq<char>,
                            >(Seq::<u8>::empty()));
                            assert(seq![p] + Seq::<u8>::empty() =~= seq![p]);
                        }
                        assert(spec_parse_ports(done) == Result::Ok::<Seq<u8>, Seq<char>>(prev));
                        assert(ports@ =~= prev + seq![p]);
                        assert(spec_parse_ports(done + seq![token]) == Result::Ok::<
                            Seq<u8>,
                            Seq<char>,
                        >(ports@));
                        done = done + seq![token];
                    }
                },
            }
            if end == len {
                let r = DevicePath { bus, ports };
                proof {
                    assert(done =~= toks);
                    assert(r@ =~= (PathView { bus, ports: r.ports@ }));
                    assert(spec_parse_path(s@) == Result::Ok::<PathView, PathErrView>(r@));
                }
                return Result::Ok(r);
            }
            pos = end + 1;
            proof {
                assert(toks =~= done + split_char(s@.subrange(pos as int, len as int), '.'));
            }
        }
    }
}

impl core::str::FromStr for DevicePath {
    type Err = DevicePathError;

    fn from_str(s: &str) -> Result<DevicePath, DevicePathError> {
        DevicePath::parse(s)
    }
}

} // verus!
