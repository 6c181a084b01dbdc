use vstd::prelude::*;

use crate::order::{key_views, push_text_key, sort_perm, sorted_perm, text_key};
use crate::text::{chars_of, str_eq};
use crate::types::{SignalLocate, SignalNode, SignalNodeKind};
use crate::coverage::statements::texts_of;
use super::clone_signals;
use crate::wave::utf8_len;
use crate::name_map::NameMap;

use super::elaborate::{full_views, FullSignal};

verus! {

/// The signals connected to one port of an instance.
#[derive(Debug)]
pub struct PortConnection {
    pub port: String,
    pub signals: Vec<SignalNode>,
}

/// An instance of a module inside a parent module: the module, the instance
/// name, the line it starts on, and what is connected to its ports.
#[derive(Debug)]
pub struct ModuleInstance {
    pub module_name: String,
    pub instance_name: String,
    pub line_start: usize,
    pub connections: Vec<PortConnection>,
}

/// The signals connected to `port` (the first connection for it), or none.
pub open spec fn connection_of(conns: Seq<PortConnection>, port: Seq<char>) -> Seq<SignalNode>
    decreases conns.len(),
{
    if conns.len() == 0 {
        Seq::<SignalNode>::empty()
    } else if conns[0].port@ == port {
        conns[0].signals@
    } else {
        connection_of(conns.drop_first(), port)
    }
}

/// The signals that `conns` connects to `port`.
pub(crate) fn connection_for(conns: &Vec<PortConnection>, port: &str) -> (r: Vec<SignalNode>)
    ensures
        r@ == connection_of(conns@, port@),
{
    let mut i: usize = 0;
    proof {
        assert(conns@.subrange(0, conns@.len() as int) =~= conns@);
    }
    while i < conns.len()
        invariant
            i <= conns@.len(),
            connection_of(conns@, port@) == connection_of(conns@.subrange(i as int, conns@.len() as int), port@),
        decreases conns@.len() - i,
    {
        proof {
            assert(conns@.subrange(i as int, conns@.len() as int).drop_first() =~= conns@.subrange(i + 1, conns@.len() as int));
            assert(conns@.subrange(i as int, conns@.len() as int)[0] == conns@[i as int]);
        }
        if str_eq(conns[i].port.as_str(), port) {
            let mut out: Vec<SignalNode> = Vec::new();
            let sigs = &conns[i].signals;
            let mut k: usize = 0;
            while k < sigs.len()
                invariant
                    k <= sigs@.len(),
                    out@ == sigs@.subrange(0, k as int),
                decreases sigs@.len() - k,
            {
                out.push(sigs[k].clone());
                proof {
                    assert(out@ =~= sigs@.subrange(0, k + 1));
                }
                k = k + 1;
            }
            proof {
                assert(sigs@.subrange(0, sigs@.len() as int) =~= sigs@);
            }
            return out;
        }
        i = i + 1;
    }
    proof {
        assert(conns@.subrange(conns@.len() as int, conns@.len() as int) =~= Seq::<PortConnection>::empty());
    }
    let out: Vec<SignalNode> = Vec::new();
    proof {
        assert(out@ =~= Seq::<SignalNode>::empty());
    }
    out
}

/// Some connection of `c` is for `port`.
pub open spec fn has_port(c: Seq<PortConnection>, port: Seq<char>) -> bool {
    exists|i: int| 0 <= i < c.len() && (#[trigger] c[i]).port@ == port
}

/// Each port is connected at most once.
pub open spec fn ports_distinct(c: Seq<PortConnection>) -> bool {
    forall|i: int, j: int| 0 <= i < j < c.len() ==> c[i].port@ != c[j].port@
}

/// In a list that connects each port once, a port's signals are those of its connection.
pub proof fn lemma_connection_at(c: Seq<PortConnection>, i: int)
    requires
        ports_distinct(c),
        0 <= i < c.len(),
    ensures
        connection_of(c, c[i].port@) == c[i].signals@,
    decreases c.len(),
{
    if i > 0 {
        let d = c.drop_first();
        assert(d[i - 1] == c[i]);
        assert(c[0].port@ != c[i].port@);
        lemma_connection_at(d, i - 1);
    }
}

/// A port without a connection has no signals.
pub proof fn lemma_connection_absent(c: Seq<PortConnection>, port: Seq<char>)
    requires
        !has_port(c, port),
    ensures
        connection_of(c, port) == Seq::<SignalNode>::empty(),
    decreases c.len(),
{
    if c.len() > 0 {
        let d = c.drop_first();
        assert(c[0].port@ != port);
        assert forall|i: int| 0 <= i < d.len() implies (#[trigger] d[i]).port@ != port by {
            assert(d[i] == c[i + 1]);
        }
        lemma_connection_absent(d, port);
    }
}

/// What a list that connects each port once gives for `port`.
proof fn lemma_connection_cases(c: Seq<PortConnection>, port: Seq<char>)
    requires
        ports_distinct(c),
    ensures
        has_port(c, port) ==> exists|i: int|
            0 <= i < c.len() && (#[trigger] c[i]).port@ == port && connection_of(c, port) == c[i].signals@,
        !has_port(c, port) ==> connection_of(c, port) == Seq::<SignalNode>::empty(),
{
    if has_port(c, port) {
        let i = choose|i: int| 0 <= i < c.len() && (#[trigger] c[i]).port@ == port;
        lemma_connection_at(c, i);
    } else {
        lemma_connection_absent(c, port);
    }
}

/// Connects `port` to `signals` in `conns`, in place of what it was connected to.
fn set_connection(conns: &mut Vec<PortConnection>, port: String, signals: Vec<SignalNode>)
    requires
        ports_distinct(old(conns)@),
    ensures
        ports_distinct(final(conns)@),
        forall|q: Seq<char>| #[trigger] has_port(final(conns)@, q) <==> has_port(old(conns)@, q) || q == port@,
        forall|q: Seq<char>|
            #[trigger] connection_of(final(conns)@, q) == if q == port@ {
                signals@
            } else {
                connection_of(old(conns)@, q)
            },
{
    let ghost c0 = conns@;
    let ghost p = port@;
    let ghost sv = signals@;
    let mut i: usize = 0;
    let mut found = false;
    while i < conns.len() && !found
        invariant
            i <= conns@.len(),
            conns@ == c0,
            p == port@,
            found ==> i < c0.len() && c0[i as int].port@ == p,
            forall|j: int| 0 <= j < i ==> (#[trigger] conns@[j]).port@ != p,
        decreases conns@.len() - i, if found { 0int } else { 1int },
    {
        if str_eq(conns[i].port.as_str(), port.as_str()) {
            found = true;
        } else {
            i = i + 1;
        }
    }
    let entry = PortConnection { port, signals };
    if i < conns.len() {
        let _old = conns.remove(i);
        conns.insert(i, entry);
        proof {
            assert(conns@ =~= c0.update(i as int, entry));
        }
    } else {
        conns.push(entry);
    }
    let ghost c1 = conns@;
    proof {
        assert forall|a: int, b: int| 0 <= a < b < c1.len() implies c1[a].port@ != c1[b].port@ by {
            if a != i && b != i {
                assert(c1[a] == c0[a]);
                assert(c1[b] == c0[b]);
            } else if a == i {
                assert(c1[b] == c0[b]);
                if i < c0.len() {
                    assert(c0[i as int].port@ == p);
                }
            } else {
                assert(c1[a] == c0[a]);
                if i < c0.len() {
                    assert(c0[i as int].port@ == p);
                }
            }
        }
        assert forall|q: Seq<char>| #[trigger] has_port(c1, q) <==> has_port(c0, q) || q == p by {
            if has_port(c1, q) {
                let j = choose|j: int| 0 <= j < c1.len() && (#[trigger] c1[j]).port@ == q;
                if j != i {
                    assert(c1[j] == c0[j]);
                }
            }
            if has_port(c0, q) {
                let j = choose|j: int| 0 <= j < c0.len() && (#[trigger] c0[j]).port@ == q;
                if j != i {
                    assert(c1[j] == c0[j]);
                } else {
                    assert(c1[j].port@ == q);
                }
            }
            if q == p {
                assert(c1[i as int].port@ == q);
            }
        }
        assert forall|q: Seq<char>|
            #[trigger] connection_of(c1, q) == if q == p {
                sv
            } else {
                connection_of(c0, q)
            } by {
            lemma_connection_cases(c0, q);
            lemma_connection_cases(c1, q);
            if q == p {
                lemma_connection_at(c1, i as int);
            } else if has_port(c0, q) {
                let j = choose|j: int| 0 <= j < c0.len() && (#[trigger] c0[j]).port@ == q && connection_of(c0, q) == c0[j].signals@;
                assert(j != i);
                assert(c1[j] == c0[j]);
                lemma_connection_at(c1, j);
            } else {
                assert(!has_port(c1, q));
            }
        }
    }
}

/// The default connection of `port`: the signal of the same name.
pub open spec fn port_default(port: Seq<char>) -> FullSignal {
    (SignalNodeKind::Variable, port, SignalLocate { offset: 0, line: 0, len: utf8_len(port) })
}

/// One named connection of an instance: `.port(expr)` connects the signals of
/// the expression; `.port` or `.port()` (no signals given) connects the
/// signal of the same name.
#[derive(Debug)]
pub struct NamedConnection {
    pub port: String,
    pub signals: Option<Vec<SignalNode>>,
}

/// What the last named connection of `port` connects, if one names it.
pub open spec fn last_named(entries: Seq<NamedConnection>, port: Seq<char>) -> Option<Seq<FullSignal>>
    decreases entries.len(),
{
    if entries.len() == 0 {
        None
    } else {
        let e = entries.last();
        if e.port@ == port {
            Some(
                match e.signals {
                    Some(v) => full_views(v@),
                    None => seq![port_default(port)],
                },
            )
        } else {
            last_named(entries.drop_last(), port)
        }
    }
}

/// What named connections connect to `port`: the last connection that names
/// it; else, with a wildcard `.*` and a port of the module, the signal of the
/// same name; else nothing.
pub open spec fn named_resolution(
    entries: Seq<NamedConnection>,
    wildcard: bool,
    port_order: Seq<Seq<char>>,
    port: Seq<char>,
) -> Seq<FullSignal> {
    match last_named(entries, port) {
        Some(s) => s,
        None => if wildcard && port_order.contains(port) {
            seq![port_default(port)]
        } else {
            Seq::empty()
        },
    }
}

/// The signal named by `port`, at no known place.
fn default_node(port: &str) -> (r: SignalNode)
    ensures
        full_views(seq![r]) == seq![port_default(port@)],
{
    let r = SignalNode::named(port);
    proof {
        assert(full_views(seq![r]) =~= seq![port_default(port@)]);
    }
    r
}

/// The connections that named port connections make, given the module's
/// ports in order (for a wildcard).
pub fn resolve_named_connections(entries: &Vec<NamedConnection>, wildcard: bool, port_order: &Vec<String>) -> (r: Vec<
    PortConnection,
>)
    ensures
        ports_distinct(r@),
        forall|p: Seq<char>|
            #[trigger] full_views(connection_of(r@, p)) == named_resolution(
                entries@,
                wildcard,
                texts_of(port_order@),
                p,
            ),
{
    let mut out: Vec<PortConnection> = Vec::new();
    let mut k: usize = 0;
    proof {
        assert(entries@.subrange(0, 0) =~= Seq::<NamedConnection>::empty());
    }
    while k < entries.len()
        invariant
            k <= entries@.len(),
            ports_distinct(out@),
            forall|q: Seq<char>| #[trigger] has_port(out@, q) <==> last_named(entries@.subrange(0, k as int), q) is Some,
            forall|q: Seq<char>|
                #[trigger] full_views(connection_of(out@, q)) == match last_named(entries@.subrange(0, k as int), q) {
                    Some(s) => s,
                    None => Seq::<FullSignal>::empty(),
                },
        decreases entries@.len() - k,
    {
        let e = &entries[k];
        let signals = match &e.signals {
            Some(v) => clone_signals(v),
            None => {
                let mut d: Vec<SignalNode> = Vec::new();
                d.push(default_node(e.port.as_str()));
                d
            },
        };
        let ghost sub = entries@.subrange(0, k as int);
        let ghost next = entries@.subrange(0, k + 1);
        proof {
            assert(next.drop_last() =~= sub);
            assert(next.last() == entries@[k as int]);
            assert(full_views(signals@) == match e.signals {
                Some(v) => full_views(v@),
                None => seq![port_default(e.port@)],
            }) by {
                if e.signals is None {
                    assert(signals@ =~= seq![signals@[0]]);
                }
            }
        }
        set_connection(&mut out, e.port.clone(), signals);
        k = k + 1;
    }
    proof {
        assert(entries@.subrange(0, entries@.len() as int) =~= entries@);
    }
    if wildcard {
        let ghost po = texts_of(port_order@);
        let mut j: usize = 0;
        while j < port_order.len()
            invariant
                j <= port_order@.len(),
                po == texts_of(port_order@),
                ports_distinct(out@),
                forall|q: Seq<char>|
                    #[trigger] has_port(out@, q) <==> last_named(entries@, q) is Some || po.subrange(0, j as int).contains(q),
                forall|q: Seq<char>|
                    #[trigger] full_views(connection_of(out@, q)) == match last_named(entries@, q) {
                        Some(s) => s,
                        None => if po.subrange(0, j as int).contains(q) {
                            seq![port_default(q)]
                        } else {
                            Seq::<FullSignal>::empty()
                        },
                    },
            decreases port_order@.len() - j,
        {
            let p = port_order[j].as_str();
            let ghost sub = po.subrange(0, j as int);
            let ghost next = po.subrange(0, j + 1);
            proof {
                assert(po[j as int] == p@);
                assert forall|q: Seq<char>| #[trigger] next.contains(q) <==> sub.contains(q) || q == p@ by {
                    if next.contains(q) {
                        let x = choose|x: int| 0 <= x < next.len() && next[x] == q;
                        if x < j {
                            assert(sub[x] == q);
                        }
                    }
                    if sub.contains(q) {
                        let x = choose|x: int| 0 <= x < sub.len() && sub[x] == q;
                        assert(next[x] == q);
                    }
                    if q == p@ {
                        assert(next[j as int] == q);
                    }
                }
            }
            let mut present = false;
            let mut a: usize = 0;
            while a < out.len()
                invariant
                    a <= out@.len(),
                    present == exists|x: int| 0 <= x < a && (#[trigger] out@[x]).port@ == p@,
                decreases out@.len() - a,
            {
                if str_eq(out[a].port.as_str(), p) {
                    present = true;
                }
                a = a + 1;
            }
            if !present {
                let mut d: Vec<SignalNode> = Vec::new();
                d.push(default_node(p));
                proof {
                    assert(d@ =~= seq![d@[0]]);
                    assert(!has_port(out@, p@));
                }
                set_connection(&mut out, p.to_string(), d);
            } else {
                proof {
                    assert(has_port(out@, p@));
                }
            }
            j = j + 1;
        }
        proof {
            assert(po.subrange(0, po.len() as int) =~= po);
        }
    }
    out
}

/// What ordered connections connect to `port`: the signals given at the
/// position of the last port of that name among the module's ports, if the
/// instance connects that position (none where the position is left empty).
pub open spec fn ordered_resolution(
    conns: Seq<Option<Vec<SignalNode>>>,
    port_order: Seq<Seq<char>>,
    port: Seq<char>,
) -> Seq<FullSignal>
    decreases conns.len(),
{
    if conns.len() == 0 {
        Seq::empty()
    } else {
        let i = conns.len() - 1;
        if i < port_order.len() && port_order[i] == port {
            match conns[i] {
                Some(v) => full_views(v@),
                None => Seq::empty(),
            }
        } else {
            ordered_resolution(conns.drop_last(), port_order, port)
        }
    }
}

/// The connections that ordered port connections make, position by
/// position, given the module's ports in order.
pub fn resolve_ordered_connections(conns: &Vec<Option<Vec<SignalNode>>>, port_order: &Vec<String>) -> (r: Vec<PortConnection>)
    ensures
        ports_distinct(r@),
        forall|p: Seq<char>|
            #[trigger] full_views(connection_of(r@, p)) == ordered_resolution(conns@, texts_of(port_order@), p),
{
    let ghost po = texts_of(port_order@);
    let mut out: Vec<PortConnection> = Vec::new();
    let mut k: usize = 0;
    proof {
        assert forall|q: Seq<char>| #[trigger] full_views(connection_of(out@, q)) == ordered_resolution(
            conns@.subrange(0, 0),
            po,
            q,
        ) by {
            assert(full_views(connection_of(out@, q)) =~= Seq::<FullSignal>::empty());
        }
    }
    while k < conns.len()
        invariant
            k <= conns@.len(),
            po == texts_of(port_order@),
            ports_distinct(out@),
            forall|q: Seq<char>|
                #[trigger] full_views(connection_of(out@, q)) == ordered_resolution(conns@.subrange(0, k as int), po, q),
        decreases conns@.len() - k,
    {
        let ghost sub = conns@.subrange(0, k as int);
        let ghost next = conns@.subrange(0, k + 1);
        proof {
            assert(next.drop_last() =~= sub);
            assert(next[k as int] == conns@[k as int]);
        }
        if k < port_order.len() {
            let signals = match &conns[k] {
                Some(v) => clone_signals(v),
                None => Vec::new(),
            };
            proof {
                assert(po[k as int] == port_order@[k as int]@);
                assert(full_views(signals@) == match conns@[k as int] {
                    Some(v) => full_views(v@),
                    None => Seq::<FullSignal>::empty(),
                }) by {
                    if conns@[k as int] is None {
                        assert(full_views(signals@) =~= Seq::<FullSignal>::empty());
                    }
                }
            }
            set_connection(&mut out, port_order[k].clone(), signals);
        }
        k = k + 1;
    }
    proof {
        assert(conns@.subrange(0, conns@.len() as int) =~= conns@);
    }
    out
}

/// The order of instances: by instance name, then module name, then line.
pub open spec fn instance_key(c: ModuleInstance) -> Seq<u64> {
    text_key(c.instance_name@) + text_key(c.module_name@) + seq![c.line_start as u64]
}

pub open spec fn instance_keys(s: Seq<ModuleInstance>) -> Seq<Seq<u64>> {
    s.map_values(|c: ModuleInstance| instance_key(c))
}

/// `r` holds the instances of `s` in the order that `perm` gives.
pub open spec fn arranged(r: Seq<ModuleInstance>, s: Seq<ModuleInstance>, perm: Seq<usize>) -> bool {
    &&& r.len() == s.len()
    &&& perm.len() == s.len()
    &&& forall|i: int| 0 <= i < r.len() ==> #[trigger] r[i] == s[perm[i] as int]
}

/// The instances, stably ordered by instance name, module name and line.
pub fn sort_module_instances(instances: Vec<ModuleInstance>) -> (r: Vec<ModuleInstance>)
    ensures
        exists|perm: Seq<usize>|
            sorted_perm(perm, instance_keys(instances@)) && (forall|k: usize| k < instances@.len() ==> perm.contains(k))
                && arranged(r@, instances@, perm),
{
    let ghost orig = instances@;
    let mut keys: Vec<Vec<u64>> = Vec::new();
    let mut k: usize = 0;
    while k < instances.len()
        invariant
            k <= instances@.len(),
            instances@ == orig,
            keys@.len() == k,
            forall|x: int| 0 <= x < k ==> #[trigger] keys@[x]@ == instance_key(orig[x]),
        decreases instances@.len() - k,
    {
        let c = &instances[k];
        let mut key: Vec<u64> = Vec::new();
        let a = chars_of(c.instance_name.as_str());
        push_text_key(&mut key, a.as_slice());
        let b = chars_of(c.module_name.as_str());
        push_text_key(&mut key, b.as_slice());
        key.push(c.line_start as u64);
        proof {
            assert(key@ =~= instance_key(orig[k as int]));
        }
        keys.push(key);
        k = k + 1;
    }
    let perm = sort_perm(&keys);
    proof {
        assert(key_views(keys@) =~= instance_keys(orig));
    }
    let mut source = instances;
    let mut slots: Vec<Option<ModuleInstance>> = Vec::new();
    while source.len() > 0
        invariant
            slots@.len() + source@.len() == orig.len(),
            forall|x: int| 0 <= x < slots@.len() ==> #[trigger] slots@[x] == Some(orig[x]),
            source@ == orig.subrange(slots@.len() as int, orig.len() as int),
        decreases source@.len(),
    {
        let x = source.remove(0);
        let ghost n: int = slots@.len() as int;
        slots.push(Some(x));
        proof {
            assert(source@ =~= orig.subrange(n + 1, orig.len() as int));
        }
    }
    let mut out: Vec<ModuleInstance> = Vec::new();
    let mut i: usize = 0;
    while i < perm.len()
        invariant
            perm@.len() == orig.len(),
            slots@.len() == orig.len(),
            forall|a: int| 0 <= a < perm@.len() ==> #[trigger] perm@[a] < orig.len(),
            forall|a: int, b: int| 0 <= a < b < perm@.len() ==> perm@[a] != perm@[b],
            i <= perm@.len(),
            out@.len() == i,
            forall|a: int| 0 <= a < i ==> #[trigger] out@[a] == orig[perm@[a] as int],
            forall|x: int|
                0 <= x < orig.len() ==> (#[trigger] slots@[x] is Some ==> slots@[x] == Some(orig[x])) && (slots@[x] is None
                    <==> exists|a: int| 0 <= a < i && perm@[a] == x),
        decreases perm@.len() - i,
    {
        let j = perm[i];
        proof {
            if slots@[j as int] is None {
                let a = choose|a: int| 0 <= a < i && perm@[a] == j;
                assert(perm@[a] != perm@[i as int]);
            }
        }
        let ghost before = slots@;
        let taken = slots.remove(j);
        slots.insert(j, None);
        proof {
            assert(slots@ =~= before.update(j as int, None));
        }
        match taken {
            Some(c) => {
                out.push(c);
            },
            None => {
                proof {
                    assert(false);
                }
            },
        }
        proof {
            assert forall|x: int|
                0 <= x < orig.len() implies (#[trigger] slots@[x] is Some ==> slots@[x] == Some(orig[x])) && (slots@[x] is None
                    <==> exists|a: int| 0 <= a < i + 1 && perm@[a] == x) by {
                if x == j {
                    assert(perm@[i as int] == x);
                } else {
                    assert(slots@[x] == before[x]);
                    if exists|a: int| 0 <= a < i + 1 && perm@[a] == x {
                        let a = choose|a: int| 0 <= a < i + 1 && perm@[a] == x;
                        assert(a != i);
                    }
                }
            }
        }
        i = i + 1;
    }
    proof {
        assert(arranged(out@, orig, perm@));
    }
    out
}

/// How an instantiation connects its ports, as written.
pub enum PortListModel {
    /// No port list: nothing is connected.
    Absent,
    /// Connections by name, and whether `.*` stands among them.
    Named { entries: Vec<NamedConnection>, wildcard: bool },
    /// Connections by position: the signals of each expression, none for an
    /// empty one.
    Ordered(Vec<Option<Vec<SignalNode>>>),
}

/// One instance of a module instantiation written inside module `parent`.
pub struct InstantiationModel {
    pub parent: String,
    pub module_name: String,
    pub instance_name: String,
    pub line_start: usize,
    pub ports: PortListModel,
}

/// What the port list `ports` connects to `port`, given the module's ports
/// in order.
pub open spec fn port_resolution(ports: PortListModel, port_order: Seq<Seq<char>>, port: Seq<char>) -> Seq<FullSignal> {
    match ports {
        PortListModel::Absent => Seq::<FullSignal>::empty(),
        PortListModel::Named { entries, wildcard } => named_resolution(entries@, wildcard, port_order, port),
        PortListModel::Ordered(c) => ordered_resolution(c@, port_order, port),
    }
}

/// The ports of module `m` in order, as `orders` gives them (none for a
/// module it does not know).
pub open spec fn port_order_in(orders: Map<Seq<char>, Vec<String>>, m: Seq<char>) -> Seq<Seq<char>> {
    if orders.contains_key(m) {
        texts_of(orders[m]@)
    } else {
        Seq::<Seq<char>>::empty()
    }
}

/// `mi` is the instance that `inst` describes, its ports resolved against
/// the ports of its module in `orders`.
pub open spec fn instance_of(mi: ModuleInstance, inst: InstantiationModel, orders: Map<Seq<char>, Vec<String>>) -> bool {
    &&& mi.module_name@ == inst.module_name@
    &&& mi.instance_name@ == inst.instance_name@
    &&& mi.line_start == inst.line_start
    &&& ports_distinct(mi.connections@)
    &&& forall|p: Seq<char>|
        #[trigger] full_views(connection_of(mi.connections@, p)) == port_resolution(
            inst.ports,
            port_order_in(orders, inst.module_name@),
            p,
        )
}

/// The instantiations of `insts` written inside module `parent`, in order.
pub open spec fn written_in(insts: Seq<InstantiationModel>, parent: Seq<char>) -> Seq<InstantiationModel>
    decreases insts.len(),
{
    if insts.len() == 0 {
        Seq::<InstantiationModel>::empty()
    } else if insts.last().parent@ == parent {
        written_in(insts.drop_last(), parent).push(insts.last())
    } else {
        written_in(insts.drop_last(), parent)
    }
}

/// `v` holds the instances that `insts` describes, in the order of `insts`.
pub open spec fn describes_all(v: Seq<ModuleInstance>, insts: Seq<InstantiationModel>, orders: Map<Seq<char>, Vec<String>>) -> bool {
    &&& v.len() == insts.len()
    &&& forall|k: int| 0 <= k < v.len() ==> instance_of(#[trigger] v[k], insts[k], orders)
}

/// `v` holds the instances that `insts` describes, ordered by instance
/// name, module name and line.
pub open spec fn sorted_instances_of(v: Seq<ModuleInstance>, insts: Seq<InstantiationModel>, orders: Map<Seq<char>, Vec<String>>) -> bool {
    exists|g: Seq<ModuleInstance>, perm: Seq<usize>|
        #![trigger arranged(v, g, perm)]
        describes_all(g, insts, orders) && sorted_perm(perm, instance_keys(g)) && (forall|k: usize|
            k < g.len() ==> perm.contains(k)) && arranged(v, g, perm)
}

/// The instance that `inst` describes.
fn instance_from(inst: &InstantiationModel, orders: &NameMap<Vec<String>>) -> (r: ModuleInstance)
    ensures
        instance_of(r, *inst, orders.map()),
{
    let empty: Vec<String> = Vec::new();
    let po: &Vec<String> = match orders.get(inst.module_name.as_str()) {
        Some(v) => v,
        None => &empty,
    };
    proof {
        assert(texts_of(po@) == port_order_in(orders.map(), inst.module_name@)) by {
            if !orders.map().contains_key(inst.module_name@) {
                assert(texts_of(po@) =~= Seq::<Seq<char>>::empty());
            }
        }
    }
    let connections = match &inst.ports {
        PortListModel::Absent => {
            let c: Vec<PortConnection> = Vec::new();
            proof {
                assert forall|p: Seq<char>| #[trigger] full_views(connection_of(c@, p)) == port_resolution(
                    inst.ports,
                    port_order_in(orders.map(), inst.module_name@),
                    p,
                ) by {
                    assert(full_views(connection_of(c@, p)) =~= Seq::<FullSignal>::empty());
                }
            }
            c
        },
        PortListModel::Named { entries, wildcard } => resolve_named_connections(entries, *wildcard, po),
        PortListModel::Ordered(c) => resolve_ordered_connections(c, po),
    };
    ModuleInstance {
        module_name: inst.module_name.clone(),
        instance_name: inst.instance_name.clone(),
        line_start: inst.line_start,
        connections,
    }
}

/// The instances written inside module `parent`, in order.
fn instances_written_in(insts: &Vec<InstantiationModel>, parent: &str, orders: &NameMap<Vec<String>>) -> (r: Vec<ModuleInstance>)
    ensures
        describes_all(r@, written_in(insts@, parent@), orders.map()),
{
    let mut out: Vec<ModuleInstance> = Vec::new();
    let mut i: usize = 0;
    proof {
        assert(insts@.subrange(0, 0) =~= Seq::<InstantiationModel>::empty());
    }
    while i < insts.len()
        invariant
            i <= insts@.len(),
            describes_all(out@, written_in(insts@.subrange(0, i as int), parent@), orders.map()),
        decreases insts@.len() - i,
    {
        let ghost before = out@;
        let ghost sub = insts@.subrange(0, i as int);
        let ghost next = insts@.subrange(0, i + 1);
        proof {
            assert(next.drop_last() =~= sub);
            assert(next.last() == insts@[i as int]);
        }
        if str_eq(insts[i].parent.as_str(), parent) {
            let mi = instance_from(&insts[i], orders);
            out.push(mi);
            proof {
                let w = written_in(sub, parent@);
                assert(written_in(next, parent@) == w.push(insts@[i as int]));
                assert forall|k: int| 0 <= k < out@.len() implies instance_of(#[trigger] out@[k], written_in(next, parent@)[k], orders.map()) by {
                    if k < before.len() {
                        assert(out@[k] == before[k]);
                    }
                }
            }
        }
        i = i + 1;
    }
    proof {
        assert(insts@.subrange(0, insts@.len() as int) =~= insts@);
    }
    out
}

/// The instances written inside each module: for each parent module that
/// holds any, the instances that `insts` describes there, their ports
/// resolved against the ports of their module in `orders`, ordered by
/// instance name, module name and line.
pub fn module_instances(insts: &Vec<InstantiationModel>, orders: &NameMap<Vec<String>>) -> (r: NameMap<Vec<ModuleInstance>>)
    ensures
        forall|p: Seq<char>| #[trigger] r.map().contains_key(p) <==> written_in(insts@, p).len() > 0,
        forall|p: Seq<char>|
            #[trigger] r.map().contains_key(p) ==> sorted_instances_of(r.map()[p]@, written_in(insts@, p), orders.map()),
{
    let mut out: NameMap<Vec<ModuleInstance>> = NameMap::new();
    let mut i: usize = 0;
    while i < insts.len()
        invariant
            i <= insts@.len(),
            forall|p: Seq<char>| #[trigger] out.map().contains_key(p) <==> exists|j: int| 0 <= j < i && insts@[j].parent@ == p,
            forall|p: Seq<char>|
                #[trigger] out.map().contains_key(p) ==> sorted_instances_of(out.map()[p]@, written_in(insts@, p), orders.map()),
        decreases insts@.len() - i,
    {
        let parent = insts[i].parent.as_str();
        let known = match out.get(parent) {
            Some(_) => true,
            None => false,
        };
        if !known {
            let group = instances_written_in(insts, parent, orders);
            let ghost g = group@;
            let sorted = sort_module_instances(group);
            proof {
                let perm = choose|perm: Seq<usize>|
                    sorted_perm(perm, instance_keys(g)) && (forall|k: usize| k < g.len() ==> perm.contains(k)) && arranged(
                        sorted@,
                        g,
                        perm,
                    );
                assert(arranged(sorted@, g, perm));
            }
            out.insert(insts[i].parent.clone(), sorted);
        }
        proof {
            assert forall|p: Seq<char>| #[trigger] out.map().contains_key(p) <==> exists|j: int| 0 <= j < i + 1 && insts@[j].parent@ == p by {
                if out.map().contains_key(p) && p != insts@[i as int].parent@ {
                }
            }
        }
        i = i + 1;
    }
    proof {
        assert forall|p: Seq<char>| #[trigger] out.map().contains_key(p) <==> written_in(insts@, p).len() > 0 by {
            lemma_written_in_nonempty(insts@, p);
        }
    }
    out
}

proof fn lemma_written_in_nonempty(insts: Seq<InstantiationModel>, p: Seq<char>)
    ensures
        written_in(insts, p).len() > 0 <==> exists|j: int| 0 <= j < insts.len() && insts[j].parent@ == p,
    decreases insts.len(),
{
    if insts.len() > 0 {
        let init = insts.drop_last();
        lemma_written_in_nonempty(init, p);
        if exists|j: int| 0 <= j < init.len() && init[j].parent@ == p {
            let j = choose|j: int| 0 <= j < init.len() && init[j].parent@ == p;
            assert(insts[j] == init[j]);
        }
        if exists|j: int| 0 <= j < insts.len() && insts[j].parent@ == p {
            let j = choose|j: int| 0 <= j < insts.len() && insts[j].parent@ == p;
            if j < init.len() {
                assert(init[j] == insts[j]);
            }
        }
    }
}

} // verus!
