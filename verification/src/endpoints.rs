//! Which peers a peer file or the endpoints of a service name.

use crate::config::EndpointSliceDiscoveryConfig;
use crate::discovery::{has_peer, Peer, PeerAddr, PeerIp, DEFAULT_GOSSIP_PORT_NAME};
use crate::seqs::{first_where, lemma_first_where_at, lemma_first_where_none};
use crate::text::{same_text, trim, trimmed};
use vstd::prelude::*;

verus! {

// -- peer files -------------------------------------------------------------

/// The lines of a text, without the line feeds between them.
pub open spec fn lines(text: Seq<char>) -> Seq<Seq<char>>
    decreases text.len(),
{
    if text.len() == 0 {
        seq![Seq::empty()]
    } else {
        let before = lines(text.drop_last());
        if text.last() == '\n' {
            before.push(Seq::empty())
        } else {
            before.drop_last().push(before.last().push(text.last()))
        }
    }
}

/// Whether a line names a peer: it is neither blank nor a comment.
pub open spec fn names_peer(line: Seq<char>) -> bool {
    trimmed(line).len() > 0 && trimmed(line)[0] != '#'
}

/// The lines that name peers, without the whitespace around them.
pub open spec fn naming(lines: Seq<Seq<char>>) -> Seq<Seq<char>>
    decreases lines.len(),
{
    if lines.len() == 0 {
        Seq::empty()
    } else if names_peer(lines.last()) {
        naming(lines.drop_last()).push(trimmed(lines.last()))
    } else {
        naming(lines.drop_last())
    }
}

pub open spec fn texts(strings: Seq<String>) -> Seq<Seq<char>> {
    Seq::new(strings.len(), |i: int| strings[i]@)
}

fn keep_line(kept: &mut Vec<String>, line: &str)
    ensures
        texts(final(kept)@) == if names_peer(line@) {
            texts(old(kept)@).push(trimmed(line@))
        } else {
            texts(old(kept)@)
        },
{
    let bare = trim(line);
    if bare.unicode_len() > 0 && bare.get_char(0) != '#' {
        kept.push(bare.to_owned());
        assert(texts(kept@) =~= texts(old(kept)@).push(trimmed(line@)));
    }
}

/// The addresses that a peer file spells out: one a line, with blank lines and
/// lines that start with `#` left out.
pub fn peer_lines(text: &str) -> (kept: Vec<String>)
    ensures
        texts(kept@) == naming(lines(text@)),
{
    let n: usize = text.unicode_len();
    let mut kept: Vec<String> = Vec::new();
    let mut start: usize = 0;
    let mut i: usize = 0;
    assert(text@.take(0) =~= Seq::<char>::empty());
    assert(text@.subrange(0, 0) =~= Seq::<char>::empty());
    assert(texts(kept@) =~= naming(lines(text@.take(0)).drop_last()));
    while i < n
        invariant
            start <= i <= n == text@.len(),
            lines(text@.take(i as int)).len() > 0,
            lines(text@.take(i as int)).last() == text@.subrange(start as int, i as int),
            texts(kept@) == naming(lines(text@.take(i as int)).drop_last()),
        decreases n - i,
    {
        let ghost before = lines(text@.take(i as int));
        assert(text@.take(i + 1).drop_last() =~= text@.take(i as int));
        if text.get_char(i) == '\n' {
            keep_line(&mut kept, text.substring_char(start, i));
            assert(lines(text@.take(i + 1)).drop_last() =~= before);
            start = i + 1;
            assert(text@.subrange(start as int, i + 1) =~= Seq::<char>::empty());
        } else {
            assert(lines(text@.take(i + 1)).drop_last() =~= before.drop_last());
            assert(text@.subrange(start as int, i + 1) =~= text@.subrange(
                start as int,
                i as int,
            ).push(text@[i as int]));
        }
        i = i + 1;
    }
    keep_line(&mut kept, text.substring_char(start, n));
    assert(text@.take(n as int) =~= text@);
    kept
}

// -- service endpoints ------------------------------------------------------

/// A port of a slice of a service's endpoints.
#[derive(Debug)]
pub struct SlicePort {
    pub name: Option<String>,
    pub port: Option<i32>,
}

/// An endpoint of a slice. An address that is no IP address is `None`.
#[derive(Debug)]
pub struct SliceEndpoint {
    pub ready: Option<bool>,
    pub addresses: Vec<Option<PeerIp>>,
}

pub open spec fn name_of(name: Option<String>) -> Option<Seq<char>> {
    match name {
        Some(name) => Some(name@),
        None => None,
    }
}

/// Whether a port will do: any if none is asked for by name.
pub open spec fn port_wanted(wanted: Option<Seq<char>>) -> spec_fn(SlicePort) -> bool {
    |port: SlicePort| wanted is None || name_of(port.name) == wanted
}

/// The port to use: the first that will do, if it is one.
pub open spec fn chosen_port(ports: Seq<SlicePort>, wanted: Option<Seq<char>>) -> Option<u16> {
    match first_where(ports, port_wanted(wanted)) {
        Some(i) => match ports[i].port {
            Some(port) => if 0 <= port <= u16::MAX {
                Some(port as u16)
            } else {
                None
            },
            None => None,
        },
        None => None,
    }
}

fn same_name(a: &Option<String>, b: &Option<String>) -> (same: bool)
    ensures
        same == (name_of(*a) == name_of(*b)),
{
    match (a, b) {
        (Some(a), Some(b)) => same_text(a.as_str(), b.as_str()),
        (None, None) => true,
        _ => false,
    }
}

fn choose_port(ports: &Vec<SlicePort>, wanted: &Option<String>) -> (port: Option<u16>)
    ensures
        port == chosen_port(ports@, name_of(*wanted)),
{
    let ghost will_do = port_wanted(name_of(*wanted));
    let mut i: usize = 0;
    while i < ports.len()
        invariant
            i <= ports@.len(),
            will_do == port_wanted(name_of(*wanted)),
            forall|j: int| 0 <= j < i ==> !will_do(#[trigger] ports@[j]),
        decreases ports@.len() - i,
    {
        if wanted.is_none() || same_name(&ports[i].name, wanted) {
            proof {
                lemma_first_where_at(ports@, will_do, i as int);
            }
            return match ports[i].port {
                Some(port) => if 0 <= port && port <= 65_535 {
                    Some(port as u16)
                } else {
                    None
                },
                None => None,
            };
        }
        i = i + 1;
    }
    proof {
        lemma_first_where_none(ports@, will_do);
    }
    None
}

/// The peers at these addresses, at one port.
pub open spec fn located(addresses: Seq<Option<PeerIp>>, port: u16) -> Seq<Peer>
    decreases addresses.len(),
{
    if addresses.len() == 0 {
        Seq::empty()
    } else {
        let before = located(addresses.drop_last(), port);
        match addresses.last() {
            Some(ip) => before.push(Peer { addr: PeerAddr { ip, port } }),
            None => before,
        }
    }
}

/// The peers of endpoints, but of those that are not ready. One that does not
/// say so is ready.
pub open spec fn ready_peers(endpoints: Seq<SliceEndpoint>, port: u16) -> Seq<Peer>
    decreases endpoints.len(),
{
    if endpoints.len() == 0 {
        Seq::empty()
    } else {
        let before = ready_peers(endpoints.drop_last(), port);
        if endpoints.last().ready == Some(false) {
            before
        } else {
            before + located(endpoints.last().addresses@, port)
        }
    }
}

/// The peers that a slice names: those ready, at the port asked for.
pub open spec fn peers_in(
    ports: Seq<SlicePort>,
    endpoints: Seq<SliceEndpoint>,
    wanted: Option<Seq<char>>,
) -> Seq<Peer> {
    match chosen_port(ports, wanted) {
        Some(port) => ready_peers(endpoints, port),
        None => Seq::empty(),
    }
}

fn push_located(peers: &mut Vec<Peer>, addresses: &Vec<Option<PeerIp>>, port: u16)
    ensures
        final(peers)@ == old(peers)@ + located(addresses@, port),
{
    let ghost before = peers@;
    let mut i: usize = 0;
    assert(addresses@.take(0) =~= Seq::<Option<PeerIp>>::empty());
    assert(peers@ =~= before + located(addresses@.take(0), port));
    while i < addresses.len()
        invariant
            i <= addresses@.len(),
            peers@ == before + located(addresses@.take(i as int), port),
        decreases addresses@.len() - i,
    {
        assert(addresses@.take(i + 1).drop_last() =~= addresses@.take(i as int));
        if let Some(ip) = addresses[i] {
            peers.push(Peer { addr: PeerAddr { ip, port } });
        }
        assert(peers@ =~= before + located(addresses@.take(i + 1), port));
        i = i + 1;
    }
    assert(addresses@.take(i as int) =~= addresses@);
}

/// The peers that a slice names: the ready endpoints, at the port of that name,
/// or at the first if no name is asked for.
pub fn slice_peers(
    ports: &Vec<SlicePort>,
    endpoints: &Vec<SliceEndpoint>,
    port_name: &Option<String>,
) -> (peers: Vec<Peer>)
    ensures
        peers@ == peers_in(ports@, endpoints@, name_of(*port_name)),
{
    let mut peers: Vec<Peer> = Vec::new();
    let port: u16 = match choose_port(ports, port_name) {
        Some(port) => port,
        None => {
            return peers;
        },
    };
    let mut i: usize = 0;
    assert(endpoints@.take(0) =~= Seq::<SliceEndpoint>::empty());
    while i < endpoints.len()
        invariant
            i <= endpoints@.len(),
            peers@ == ready_peers(endpoints@.take(i as int), port),
        decreases endpoints@.len() - i,
    {
        assert(endpoints@.take(i + 1).drop_last() =~= endpoints@.take(i as int));
        let ready: bool = match endpoints[i].ready {
            Some(ready) => ready,
            None => true,
        };
        if ready {
            push_located(&mut peers, &endpoints[i].addresses, port);
        }
        i = i + 1;
    }
    assert(endpoints@.take(i as int) =~= endpoints@);
    peers
}

/// Peers found, with more of them: each once, and never the node itself.
pub open spec fn found_too(
    found: Seq<Peer>,
    more: Seq<Peer>,
    self_addr: Option<PeerAddr>,
) -> Seq<Peer>
    decreases more.len(),
{
    if more.len() == 0 {
        found
    } else {
        let before = found_too(found, more.drop_last(), self_addr);
        if self_addr == Some(more.last().addr) || before.contains(more.last()) {
            before
        } else {
            before.push(more.last())
        }
    }
}

/// Adds peers to those found: each once, and never the node itself.
pub fn add_found(found: &mut Vec<Peer>, more: &Vec<Peer>, self_addr: Option<PeerAddr>)
    ensures
        final(found)@ == found_too(old(found)@, more@, self_addr),
{
    let ghost before = found@;
    let mut i: usize = 0;
    assert(more@.take(0) =~= Seq::<Peer>::empty());
    while i < more.len()
        invariant
            i <= more@.len(),
            found@ == found_too(before, more@.take(i as int), self_addr),
        decreases more@.len() - i,
    {
        assert(more@.take(i + 1).drop_last() =~= more@.take(i as int));
        let own: bool = match self_addr {
            Some(addr) => addr == more[i].addr,
            None => false,
        };
        if !own && !has_peer(found.as_slice(), more[i]) {
            found.push(more[i]);
        }
        i = i + 1;
    }
    assert(more@.take(i as int) =~= more@);
}

/// What is found never names the node itself, and nobody twice.
pub proof fn lemma_found_once(found: Seq<Peer>, more: Seq<Peer>, self_addr: Option<PeerAddr>)
    requires
        found.no_duplicates(),
        forall|i: int| 0 <= i < found.len() ==> self_addr != Some((#[trigger] found[i]).addr),
    ensures
        found_too(found, more, self_addr).no_duplicates(),
        forall|i: int|
            0 <= i < found_too(found, more, self_addr).len() ==> self_addr != Some(
                (#[trigger] found_too(found, more, self_addr)[i]).addr,
            ),
    decreases more.len(),
{
    if more.len() > 0 {
        lemma_found_once(found, more.drop_last(), self_addr);
        let before = found_too(found, more.drop_last(), self_addr);
        let all = found_too(found, more, self_addr);
        assert forall|i: int, j: int| 0 <= i < j < all.len() implies all[i] != all[j] by {
            assert(before.contains(before[i]));
        }
    }
}

/// The known peers that were not found again.
pub open spec fn lost(known: Seq<Peer>, found: Seq<Peer>) -> Seq<Peer>
    decreases known.len(),
{
    if known.len() == 0 {
        Seq::empty()
    } else if found.contains(known.last()) {
        lost(known.drop_last(), found)
    } else {
        lost(known.drop_last(), found).push(known.last())
    }
}

/// The known peers that were not found again.
pub fn lost_peers(known: &Vec<Peer>, found: &Vec<Peer>) -> (gone: Vec<Peer>)
    ensures
        gone@ == lost(known@, found@),
{
    let mut gone: Vec<Peer> = Vec::new();
    let mut i: usize = 0;
    assert(known@.take(0) =~= Seq::<Peer>::empty());
    while i < known.len()
        invariant
            i <= known@.len(),
            gone@ == lost(known@.take(i as int), found@),
        decreases known@.len() - i,
    {
        assert(known@.take(i + 1).drop_last() =~= known@.take(i as int));
        if !has_peer(found.as_slice(), known[i]) {
            gone.push(known[i]);
        }
        i = i + 1;
    }
    assert(known@.take(i as int) =~= known@);
    gone
}

/// Whether an endpoint is at an address.
pub open spec fn is_at(endpoint: SliceEndpoint, ip: PeerIp) -> bool {
    endpoint.addresses@.contains(Some(ip))
}

/// Whether endpoints are this node's own: one of them is at its address, or
/// there are any if it knows no address of its own.
pub open spec fn are_own(endpoints: Seq<SliceEndpoint>, own: Option<PeerIp>) -> bool {
    match own {
        Some(ip) => exists|i: int| 0 <= i < endpoints.len() && is_at(#[trigger] endpoints[i], ip),
        None => endpoints.len() > 0,
    }
}

/// Whether a slice has this node among its endpoints.
pub fn is_own_slice(endpoints: &Vec<SliceEndpoint>, own: Option<PeerIp>) -> (own_slice: bool)
    ensures
        own_slice == are_own(endpoints@, own),
{
    let ip = match own {
        Some(ip) => ip,
        None => {
            return endpoints.len() > 0;
        },
    };
    let mut i: usize = 0;
    while i < endpoints.len()
        invariant
            i <= endpoints@.len(),
            own == Some(ip),
            forall|j: int| 0 <= j < i ==> !is_at(#[trigger] endpoints@[j], ip),
        decreases endpoints@.len() - i,
    {
        let addresses = &endpoints[i].addresses;
        let mut k: usize = 0;
        while k < addresses.len()
            invariant
                k <= addresses@.len(),
                i < endpoints@.len(),
                *addresses == endpoints@[i as int].addresses,
                own == Some(ip),
                forall|j: int| 0 <= j < k ==> addresses@[j] != Some(ip),
            decreases addresses@.len() - k,
        {
            let here: bool = match addresses[k] {
                Some(address) => address == ip,
                None => false,
            };
            if here {
                assert(addresses@[k as int] == Some(ip));
                assert(is_at(endpoints@[i as int], ip));
                return true;
            }
            k = k + 1;
        }
        i = i + 1;
    }
    false
}

/// Whether a service is among those watched.
pub open spec fn watched(
    configs: Seq<EndpointSliceDiscoveryConfig>,
    service: Seq<char>,
) -> bool {
    exists|i: int| 0 <= i < configs.len() && (#[trigger] configs[i]).service_name@ == service
}

/// Adds a service to those watched, at the usual port, unless it is there.
pub fn watch_too(
    configs: &mut Vec<EndpointSliceDiscoveryConfig>,
    namespace: &str,
    service: &str,
    self_addr: Option<PeerAddr>,
)
    ensures
        if watched(old(configs)@, service@) {
            final(configs)@ == old(configs)@
        } else {
            &&& final(configs)@.len() == old(configs)@.len() + 1
            &&& final(configs)@.drop_last() == old(configs)@
            &&& final(configs)@.last().namespace@ == namespace@
            &&& final(configs)@.last().service_name@ == service@
            &&& name_of(final(configs)@.last().port_name) == Some(DEFAULT_GOSSIP_PORT_NAME@)
            &&& final(configs)@.last().self_addr == self_addr
        },
{
    let mut i: usize = 0;
    while i < configs.len()
        invariant
            i <= configs@.len(),
            configs@ == old(configs)@,
            forall|j: int| 0 <= j < i ==> (#[trigger] configs@[j]).service_name@ != service@,
        decreases configs@.len() - i,
    {
        if same_text(configs[i].service_name.as_str(), service) {
            assert(configs@[i as int].service_name@ == service@);
            return;
        }
        i = i + 1;
    }
    configs.push(
        EndpointSliceDiscoveryConfig {
            namespace: namespace.to_owned(),
            service_name: service.to_owned(),
            port_name: Some(DEFAULT_GOSSIP_PORT_NAME.to_owned()),
            self_addr,
        },
    );
    assert(configs@.drop_last() =~= old(configs)@);
}

// -- laws -------------------------------------------------------------------

/// A text is its lines, each but for the last with an end; no line holds one.
pub proof fn lemma_lines_join(text: Seq<char>)
    ensures
        lines(text).len() > 0,
        lines(text).map_values(|line: Seq<char>| line.push('\n')).flatten_alt() == text.push('\n'),
        forall|i: int| 0 <= i < lines(text).len() ==> !(#[trigger] lines(text)[i]).contains('\n'),
    decreases text.len(),
{
    let f = |line: Seq<char>| line.push('\n');
    let all = lines(text).map_values(f);
    if text.len() == 0 {
        assert(all.drop_last() =~= Seq::<Seq<char>>::empty());
        assert(all.drop_last().flatten_alt() =~= Seq::<char>::empty());
        assert(all.flatten_alt() =~= text.push('\n'));
    } else {
        let front = text.drop_last();
        let c = text.last();
        lemma_lines_join(front);
        let before = lines(front);
        let was = before.map_values(f);
        if c == '\n' {
            assert(all.drop_last() =~= was);
            assert(all.flatten_alt() =~= text.push('\n'));
            assert forall|i: int| 0 <= i < lines(text).len() implies !(
            #[trigger] lines(text)[i]).contains('\n') by {
                if i < before.len() {
                    assert(lines(text)[i] == before[i]);
                }
            }
        } else {
            assert(all.drop_last() =~= was.drop_last());
            let head = was.drop_last().flatten_alt();
            assert(was.flatten_alt() == head + before.last().push('\n'));
            assert(front =~= was.flatten_alt().drop_last());
            assert(front =~= head + before.last());
            assert(all.last() == before.last().push(c).push('\n'));
            assert(text =~= front.push(c));
            assert(head + before.last().push(c).push('\n') =~= (head + before.last()).push(c).push(
                '\n',
            ));
            assert(all.flatten_alt() =~= text.push('\n'));
            assert forall|i: int| 0 <= i < lines(text).len() implies !(
            #[trigger] lines(text)[i]).contains('\n') by {
                if i < before.len() - 1 {
                    assert(lines(text)[i] == before[i]);
                } else {
                    let old_last = before[before.len() - 1];
                    let line = lines(text)[i];
                    if line.contains('\n') {
                        let k = choose|k: int| 0 <= k < line.len() && line[k] == '\n';
                        assert(k < old_last.len());
                        assert(old_last[k] == '\n');
                    }
                }
            }
        }
    }
}

/// Every line names a peer but those that hold nothing, or only a remark; spaces
/// around a name are no part of it.
pub proof fn lemma_lines_named(lines: Seq<Seq<char>>)
    ensures
        naming(lines) == lines.map_values(|line: Seq<char>| trimmed(line)).filter(
            |name: Seq<char>| name.len() > 0 && name[0] != '#',
        ),
    decreases lines.len(),
{
    reveal(Seq::filter);
    let f = |line: Seq<char>| trimmed(line);
    if lines.len() > 0 {
        lemma_lines_named(lines.drop_last());
        assert(lines.map_values(f).drop_last() =~= lines.drop_last().map_values(f));
    }
}

/// The port is the first of the wanted name, or the first of all if none is
/// wanted, provided that it is a port number.
pub proof fn lemma_first_port(ports: Seq<SlicePort>, wanted: Option<Seq<char>>, i: int)
    requires
        0 <= i < ports.len(),
        wanted is None || name_of(ports[i].name) == wanted,
        forall|j: int|
            0 <= j < i ==> wanted is Some && name_of((#[trigger] ports[j]).name) != wanted,
    ensures
        match ports[i].port {
            Some(port) => if 0 <= port <= 65_535 {
                chosen_port(ports, wanted) is Some && chosen_port(ports, wanted)->0 == port
            } else {
                chosen_port(ports, wanted) is None
            },
            None => chosen_port(ports, wanted) is None,
        },
{
    lemma_first_where_at(ports, port_wanted(wanted), i);
}

/// If no port has the wanted name, there is none.
pub proof fn lemma_no_port(ports: Seq<SlicePort>, wanted: Option<Seq<char>>)
    requires
        wanted is Some || ports.len() == 0,
        forall|j: int| 0 <= j < ports.len() ==> name_of((#[trigger] ports[j]).name) != wanted,
    ensures
        chosen_port(ports, wanted) is None,
{
    lemma_first_where_none(ports, port_wanted(wanted));
}

/// There is a peer at every address that could be read.
pub proof fn lemma_all_located(addresses: Seq<Option<PeerIp>>, port: u16)
    ensures
        located(addresses, port) == addresses.filter_map(
            |address: Option<PeerIp>|
                match address {
                    Some(ip) => Some(Peer { addr: PeerAddr { ip, port } }),
                    None => None,
                },
        ),
    decreases addresses.len(),
{
    if addresses.len() > 0 {
        lemma_all_located(addresses.drop_last(), port);
    }
}

/// The peers are those of every endpoint but the ones that are said not to be
/// ready, in order.
pub proof fn lemma_all_ready(endpoints: Seq<SliceEndpoint>, port: u16)
    ensures
        ready_peers(endpoints, port) == endpoints.filter(
            |e: SliceEndpoint| e.ready != Some(false),
        ).map_values(|e: SliceEndpoint| located(e.addresses@, port)).flatten_alt(),
    decreases endpoints.len(),
{
    reveal(Seq::filter);
    let p = |e: SliceEndpoint| e.ready != Some(false);
    let f = |e: SliceEndpoint| located(e.addresses@, port);
    if endpoints.len() > 0 {
        lemma_all_ready(endpoints.drop_last(), port);
        if p(endpoints.last()) {
            let all = endpoints.filter(p).map_values(f);
            assert(all.drop_last() =~= endpoints.drop_last().filter(p).map_values(f));
        }
    }
}

/// What is found is all of it: every peer of the lists but this node itself, those
/// that were found first in front.
pub proof fn lemma_found_all(
    found: Seq<Peer>,
    more: Seq<Peer>,
    self_addr: Option<PeerAddr>,
)
    ensures
        found.is_prefix_of(found_too(found, more, self_addr)),
        forall|peer: Peer| #[trigger]
            found_too(found, more, self_addr).contains(peer) <==> found.contains(peer) || (
            more.contains(peer) && self_addr != Some(peer.addr)),
    decreases more.len(),
{
    if more.len() > 0 {
        let front = more.drop_last();
        let last = more.last();
        lemma_found_all(found, front, self_addr);
        let before = found_too(found, front, self_addr);
        let after = found_too(found, more, self_addr);
        assert forall|peer: Peer| #[trigger] after.contains(peer) <==> found.contains(peer) || (
        more.contains(peer) && self_addr != Some(peer.addr)) by {
            assert(before.contains(peer) <==> found.contains(peer) || (front.contains(peer)
                && self_addr != Some(peer.addr)));
            assert(more.contains(peer) <==> front.contains(peer) || peer == last) by {
                if front.contains(peer) {
                    let k = choose|k: int| 0 <= k < front.len() && front[k] == peer;
                    assert(more[k] == peer);
                }
                if more.contains(peer) {
                    let k = choose|k: int| 0 <= k < more.len() && more[k] == peer;
                    if k < front.len() {
                        assert(front[k] == peer);
                    }
                }
                assert(more[more.len() - 1] == last);
            }
            if after != before {
                assert(after[after.len() - 1] == last);
                if before.contains(peer) {
                    let k = choose|k: int| 0 <= k < before.len() && before[k] == peer;
                    assert(after[k] == peer);
                }
                if after.contains(peer) {
                    let k = choose|k: int| 0 <= k < after.len() && after[k] == peer;
                    if k < before.len() {
                        assert(before[k] == peer);
                    }
                }
            }
        }
    }
}

/// Lost are all peers that were known and are no longer found.
pub proof fn lemma_lost_all(known: Seq<Peer>, found: Seq<Peer>)
    ensures
        lost(known, found) == known.filter(|peer: Peer| !found.contains(peer)),
    decreases known.len(),
{
    reveal(Seq::filter);
    if known.len() > 0 {
        lemma_lost_all(known.drop_last(), found);
    }
}

} // verus!
