use vstd::prelude::*;
use crate::handshake::{
    build_handshake, build_periodic_handshake, connect_greeting, opt_view, periodic_greeting,
    HandshakeMessage, HandshakeView,
};
use crate::wire::{decode, encode, encoding, is_encoding};

verus! {

/// What the node learns from its network collaborators and timers, one at a time.
#[derive(Debug, Clone, PartialEq, Eq)]
pub enum Event {
    /// Local discovery found these (peer, address) pairs.
    LocalPeersFound { found: Vec<(String, String)> },
    /// Local discovery entries that expired; logged only.
    LocalPeersExpired { expired: Vec<(String, String)> },
    /// A peer identified itself with the addresses it listens on.
    IdentityReceived { peer: String, listen_addrs: Vec<String> },
    /// The routing table's bootstrap made progress; logged only.
    BootstrapProgress { remaining: u64 },
    /// A closest-peers lookup answered; each peer comes with whether it is connected now.
    ClosestPeersFound { peers: Vec<(String, bool)> },
    /// The node listens on a new address.
    NewListenAddr { address: String },
    /// A connection to `peer` was established; `now` is the wall clock in seconds.
    ConnectionEstablished { peer: String, now: u64 },
    /// A connection to `peer` was closed; logged only.
    ConnectionClosed { peer: String },
    /// A publish-subscribe message arrived from `source`.
    GossipMessage { source: String, on_handshake_topic: bool, data: Vec<u8> },
    /// The handshake timer fired; `connected` are the peers with a live connection.
    HandshakeTick { connected: Vec<String>, now: u64, clock: String },
    /// The re-bootstrap timer fired.
    RebootstrapTick,
    /// NAT status, connection upgrades, relay, ping and connection errors; logged only.
    Observed,
}

/// What the node asks of its collaborators; every command is fire-and-forget.
#[derive(Debug, Clone, PartialEq, Eq)]
pub enum Command {
    /// Record an address of a peer in the routing table.
    AddAddress { peer: String, address: String },
    /// Dial an address.
    DialAddress { address: String },
    /// Dial a peer through the routing table.
    DialPeer { peer: String },
    /// Publish a payload on the handshake topic.
    Publish { payload: Vec<u8> },
    /// Start a routing-table bootstrap.
    BootstrapRouting,
    /// Look up the peers closest to a freshly drawn random identifier.
    FindClosestToRandom,
    /// A handshake from `source` was read.
    Greeted { source: String, handshake: HandshakeMessage },
    /// A payload from `source` on the handshake topic was no handshake.
    RejectedPayload { source: String },
}

/// Why `connect_to_peer` refused an address.
#[derive(Debug, Clone, PartialEq, Eq)]
pub enum ConnectError {
    /// The address does not end with a peer identifier.
    MissingPeerId,
}

/// The decision-making core of a node: its name and its own peer identifier.
#[derive(Debug, Clone, PartialEq, Eq)]
pub struct Orchestrator {
    pub node_name: Option<String>,
    pub local_peer_id: String,
}

/// The greeting a node sends when a connection is established.
pub open spec fn connect_view(o: Orchestrator, now: u64) -> HandshakeView {
    HandshakeView {
        node_name: opt_view(o.node_name),
        peer_id: o.local_peer_id@,
        timestamp: now,
        message: connect_greeting(opt_view(o.node_name)),
    }
}

/// The greeting a node broadcasts on a periodic tick.
pub open spec fn periodic_view(o: Orchestrator, now: u64, clock: Seq<char>) -> HandshakeView {
    HandshakeView {
        node_name: opt_view(o.node_name),
        peer_id: o.local_peer_id@,
        timestamp: now,
        message: periodic_greeting(opt_view(o.node_name), clock),
    }
}

/// One publish of the wire form of `v`.
pub open spec fn publishes(cmds: Seq<Command>, v: HandshakeView) -> bool {
    &&& cmds.len() == 1
    &&& cmds[0] matches Command::Publish { payload } && payload@ == encoding(v)
}

/// Each found pair is recorded, then its address dialled.
pub open spec fn registers_and_dials(found: Seq<(String, String)>, cmds: Seq<Command>) -> bool {
    &&& cmds.len() == 2 * found.len()
    &&& forall|i: int|
        0 <= i < found.len() ==> #[trigger] cmds[2 * i] == (Command::AddAddress {
            peer: found[i].0,
            address: found[i].1,
        }) && cmds[2 * i + 1] == (Command::DialAddress { address: found[i].1 })
}

/// Each listen address of `peer` is recorded.
pub open spec fn registers(peer: String, addrs: Seq<String>, cmds: Seq<Command>) -> bool {
    &&& cmds.len() == addrs.len()
    &&& forall|i: int|
        0 <= i < addrs.len() ==> #[trigger] cmds[i] == (Command::AddAddress {
            peer: peer,
            address: addrs[i],
        })
}

/// A dial for each peer that is not connected, in the order of the answer.
pub open spec fn dials_unconnected(peers: Seq<(String, bool)>) -> Seq<Command>
    decreases peers.len(),
{
    if peers.len() == 0 {
        Seq::empty()
    } else {
        let rest = dials_unconnected(peers.drop_last());
        if peers.last().1 {
            rest
        } else {
            rest.push(Command::DialPeer { peer: peers.last().0 })
        }
    }
}

/// Re-seed discovery: bootstrap the routing table and walk towards a random identifier.
pub open spec fn rediscovers(cmds: Seq<Command>) -> bool {
    cmds == seq![Command::BootstrapRouting, Command::FindClosestToRandom]
}

/// What a gossip message on the handshake topic leads to.
pub open spec fn reads_handshake(source: String, data: Seq<u8>, cmds: Seq<Command>) -> bool {
    &&& cmds.len() == 1
    &&& is_encoding(data) ==> (cmds[0] matches Command::Greeted { source: s, handshake }
        && s == source && encoding(handshake@) == data)
    &&& !is_encoding(data) ==> cmds[0] == (Command::RejectedPayload { source })
}

/// The commands that handling `ev` issues.
pub open spec fn handled(o: Orchestrator, ev: Event, cmds: Seq<Command>) -> bool {
    match ev {
        Event::LocalPeersFound { found } => registers_and_dials(found@, cmds),
        Event::IdentityReceived { peer, listen_addrs } => registers(peer, listen_addrs@, cmds),
        Event::ClosestPeersFound { peers } => cmds == dials_unconnected(peers@),
        Event::NewListenAddr { .. } => rediscovers(cmds),
        Event::RebootstrapTick => rediscovers(cmds),
        Event::ConnectionEstablished { now, .. } => publishes(cmds, connect_view(o, now)),
        Event::GossipMessage { source, on_handshake_topic, data } => if on_handshake_topic {
            reads_handshake(source, data@, cmds)
        } else {
            cmds.len() == 0
        },
        Event::HandshakeTick { connected, now, clock } => if connected@.len() == 0 {
            cmds.len() == 0
        } else {
            publishes(cmds, periodic_view(o, now, clock@))
        },
        _ => cmds.len() == 0,
    }
}

fn register_and_dial(found: &Vec<(String, String)>) -> (r: Vec<Command>)
    ensures
        registers_and_dials(found@, r@),
{
    let mut cmds: Vec<Command> = Vec::new();
    let mut i: usize = 0;
    while i < found.len()
        invariant
            i <= found@.len(),
            cmds@.len() == 2 * i,
            forall|j: int|
                0 <= j < i ==> #[trigger] cmds@[2 * j] == (Command::AddAddress {
                    peer: found@[j].0,
                    address: found@[j].1,
                }) && cmds@[2 * j + 1] == (Command::DialAddress { address: found@[j].1 }),
        decreases found@.len() - i,
    {
        let (peer, address) = &found[i];
        cmds.push(Command::AddAddress { peer: peer.clone(), address: address.clone() });
        cmds.push(Command::DialAddress { address: address.clone() });
        i = i + 1;
    }
    cmds
}

fn register_all(peer: &String, addrs: &Vec<String>) -> (r: Vec<Command>)
    ensures
        registers(*peer, addrs@, r@),
{
    let mut cmds: Vec<Command> = Vec::new();
    let mut i: usize = 0;
    while i < addrs.len()
        invariant
            i <= addrs@.len(),
            cmds@.len() == i,
            forall|j: int|
                0 <= j < i ==> #[trigger] cmds@[j] == (Command::AddAddress {
                    peer: *peer,
                    address: addrs@[j],
                }),
        decreases addrs@.len() - i,
    {
        cmds.push(Command::AddAddress { peer: peer.clone(), address: addrs[i].clone() });
        i = i + 1;
    }
    cmds
}

fn dial_unconnected(peers: &Vec<(String, bool)>) -> (r: Vec<Command>)
    ensures
        r@ == dials_unconnected(peers@),
{
    let mut cmds: Vec<Command> = Vec::new();
    let mut i: usize = 0;
    while i < peers.len()
        invariant
            i <= peers@.len(),
            cmds@ == dials_unconnected(peers@.take(i as int)),
        decreases peers@.len() - i,
    {
        let (peer, connected) = &peers[i];
        proof {
            assert(peers@.take(i + 1).drop_last() =~= peers@.take(i as int));
        }
        if !*connected {
            cmds.push(Command::DialPeer { peer: peer.clone() });
        }
        i = i + 1;
    }
    assert(peers@.take(i as int) =~= peers@);
    cmds
}

fn rediscover() -> (r: Vec<Command>)
    ensures
        rediscovers(r@),
{
    let cmds = vec![Command::BootstrapRouting, Command::FindClosestToRandom];
    cmds
}

impl Orchestrator {
    /// Greets a newly connected peer: one publish of the connection greeting.
    pub fn send_handshake_message(&self, now: u64) -> (r: Vec<Command>)
        ensures
            publishes(r@, connect_view(*self, now)),
    {
        let m = build_handshake(&self.node_name, &self.local_peer_id, now);
        let payload = encode(&m);
        vec![Command::Publish { payload }]
    }

    /// The periodic broadcast: nothing when no peer is connected, else exactly one publish.
    pub fn broadcast_handshake(&self, connected: &Vec<String>, now: u64, clock: &String) -> (r:
        Vec<Command>)
        ensures
            connected@.len() == 0 ==> r@.len() == 0,
            connected@.len() > 0 ==> publishes(r@, periodic_view(*self, now, clock@)),
    {
        if connected.len() == 0 {
            return Vec::new();
        }
        let m = build_periodic_handshake(&self.node_name, &self.local_peer_id, now, clock.as_str());
        let payload = encode(&m);
        vec![Command::Publish { payload }]
    }

    /// Reads a payload from the handshake topic; a malformed one is reported, never fatal.
    pub fn handle_handshake_message(&self, source: &String, data: &Vec<u8>) -> (r: Vec<Command>)
        ensures
            reads_handshake(*source, data@, r@),
    {
        match decode(data.as_slice()) {
            Ok(handshake) => vec![Command::Greeted { source: source.clone(), handshake }],
            Err(_) => vec![Command::RejectedPayload { source: source.clone() }],
        }
    }

    /// Decides what to do with one event.
    pub fn handle_event(&self, ev: &Event) -> (r: Vec<Command>)
        ensures
            handled(*self, *ev, r@),
    {
        match ev {
            Event::LocalPeersFound { found } => register_and_dial(found),
            Event::IdentityReceived { peer, listen_addrs } => register_all(peer, listen_addrs),
            Event::ClosestPeersFound { peers } => dial_unconnected(peers),
            Event::NewListenAddr { .. } => rediscover(),
            Event::RebootstrapTick => rediscover(),
            Event::ConnectionEstablished { now, .. } => self.send_handshake_message(*now),
            Event::GossipMessage { source, on_handshake_topic, data } => {
                if *on_handshake_topic {
                    self.handle_handshake_message(source, data)
                } else {
                    Vec::new()
                }
            },
            Event::HandshakeTick { connected, now, clock } => self.broadcast_handshake(
                connected,
                *now,
                clock,
            ),
            _ => Vec::new(),
        }
    }
}

/// The public discovery network's entry points, as (peer identifier, address).
pub open spec fn bootstrap_nodes() -> Seq<(Seq<char>, Seq<char>)> {
    seq![
        (
            "QmNnooDu7bfjPFoTZYxMNLWUQJyrVwtbZg5gBMjTezGAJN"@,
            "/dnsaddr/bootstrap.libp2p.io/p2p/QmNnooDu7bfjPFoTZYxMNLWUQJyrVwtbZg5gBMjTezGAJN"@,
        ),
        (
            "QmQCU2EcMqAqQPR2i9bChDtGNJchTbq5TbXJJ16u19uLTa"@,
            "/dnsaddr/bootstrap.libp2p.io/p2p/QmQCU2EcMqAqQPR2i9bChDtGNJchTbq5TbXJJ16u19uLTa"@,
        ),
        (
            "QmbLHAnMoJPWSCR5Zp9Kky4f5RmvJw2e6GrmNw9hxKL1MH"@,
            "/dnsaddr/bootstrap.libp2p.io/p2p/QmbLHAnMoJPWSCR5Zp9Kky4f5RmvJw2e6GrmNw9hxKL1MH"@,
        ),
    ]
}

/// The bootstrap nodes as (peer identifier, address) pairs.
pub fn bootstrap_node_list() -> (r: Vec<(String, String)>)
    ensures
        r@.len() == bootstrap_nodes().len(),
        forall|i: int|
            0 <= i < r@.len() ==> (#[trigger] r@[i]).0@ == bootstrap_nodes()[i].0 && r@[i].1@
                == bootstrap_nodes()[i].1,
{
    let mut r: Vec<(String, String)> = Vec::new();
    r.push(
        (
            String::from_str("QmNnooDu7bfjPFoTZYxMNLWUQJyrVwtbZg5gBMjTezGAJN"),
            String::from_str(
                "/dnsaddr/bootstrap.libp2p.io/p2p/QmNnooDu7bfjPFoTZYxMNLWUQJyrVwtbZg5gBMjTezGAJN",
            ),
        ),
    );
    r.push(
        (
            String::from_str("QmQCU2EcMqAqQPR2i9bChDtGNJchTbq5TbXJJ16u19uLTa"),
            String::from_str(
                "/dnsaddr/bootstrap.libp2p.io/p2p/QmQCU2EcMqAqQPR2i9bChDtGNJchTbq5TbXJJ16u19uLTa",
            ),
        ),
    );
    r.push(
        (
            String::from_str("QmbLHAnMoJPWSCR5Zp9Kky4f5RmvJw2e6GrmNw9hxKL1MH"),
            String::from_str(
                "/dnsaddr/bootstrap.libp2p.io/p2p/QmbLHAnMoJPWSCR5Zp9Kky4f5RmvJw2e6GrmNw9hxKL1MH",
            ),
        ),
    );
    r
}

/// How many commands publish a payload.
pub open spec fn publish_count(cmds: Seq<Command>) -> nat
    decreases cmds.len(),
{
    if cmds.len() == 0 {
        0
    } else {
        publish_count(cmds.drop_last()) + if cmds.last() is Publish {
            1nat
        } else {
            0nat
        }
    }
}

/// The routing table after the collaborator carried out `cmds`: each recorded
/// (peer, address) pair is kept once, whatever the number of submissions.
pub open spec fn routing_after(table: Set<(Seq<char>, Seq<char>)>, cmds: Seq<Command>) -> Set<
    (Seq<char>, Seq<char>),
>
    decreases cmds.len(),
{
    if cmds.len() == 0 {
        table
    } else {
        let t = routing_after(table, cmds.drop_last());
        match cmds.last() {
            Command::AddAddress { peer, address } => t.insert((peer@, address@)),
            _ => t,
        }
    }
}

impl Orchestrator {
    pub fn new(node_name: Option<String>, local_peer_id: String) -> (r: Orchestrator)
        ensures
            r.node_name == node_name,
            r.local_peer_id == local_peer_id,
    {
        Orchestrator { node_name, local_peer_id }
    }

    /// Seeds the routing table with the bootstrap nodes when both the public network and the
    /// routing table are enabled.
    pub fn initial_routing(&self, use_bootstrap: bool, enable_dht: bool) -> (r: Vec<Command>)
        ensures
            !(use_bootstrap && enable_dht) ==> r@.len() == 0,
            use_bootstrap && enable_dht ==> r@.len() == bootstrap_nodes().len() && forall|i: int|
                0 <= i < r@.len() ==> (#[trigger] r@[i] matches Command::AddAddress {
                    peer,
                    address,
                } && peer@ == bootstrap_nodes()[i].0 && address@ == bootstrap_nodes()[i].1),
    {
        let mut cmds: Vec<Command> = Vec::new();
        if !(use_bootstrap && enable_dht) {
            return cmds;
        }
        let nodes = bootstrap_node_list();
        let mut i: usize = 0;
        while i < nodes.len()
            invariant
                i <= nodes@.len(),
                nodes@.len() == bootstrap_nodes().len(),
                forall|j: int|
                    0 <= j < nodes@.len() ==> (#[trigger] nodes@[j]).0@ == bootstrap_nodes()[j].0
                        && nodes@[j].1@ == bootstrap_nodes()[j].1,
                cmds@.len() == i,
                forall|j: int|
                    0 <= j < i ==> (#[trigger] cmds@[j] matches Command::AddAddress {
                        peer,
                        address,
                    } && peer@ == bootstrap_nodes()[j].0 && address@ == bootstrap_nodes()[j].1),
            decreases nodes@.len() - i,
        {
            let (peer, address) = &nodes[i];
            cmds.push(Command::AddAddress { peer: peer.clone(), address: address.clone() });
            i = i + 1;
        }
        cmds
    }

    /// Joins the public network: dials every bootstrap node, then bootstraps the routing table.
    pub fn bootstrap_global_network(&self) -> (r: Vec<Command>)
        ensures
            r@.len() == bootstrap_nodes().len() + 1,
            forall|i: int|
                0 <= i < bootstrap_nodes().len() ==> (#[trigger] r@[i] matches Command::DialAddress {
                    address,
                } && address@ == bootstrap_nodes()[i].1),
            r@.last() is BootstrapRouting,
    {
        let mut cmds: Vec<Command> = Vec::new();
        let nodes = bootstrap_node_list();
        let mut i: usize = 0;
        while i < nodes.len()
            invariant
                i <= nodes@.len(),
                nodes@.len() == bootstrap_nodes().len(),
                forall|j: int|
                    0 <= j < nodes@.len() ==> (#[trigger] nodes@[j]).0@ == bootstrap_nodes()[j].0
                        && nodes@[j].1@ == bootstrap_nodes()[j].1,
                cmds@.len() == i,
                forall|j: int|
                    0 <= j < i ==> (#[trigger] cmds@[j] matches Command::DialAddress { address }
                        && address@ == bootstrap_nodes()[j].1),
            decreases nodes@.len() - i,
        {
            let (_, address) = &nodes[i];
            cmds.push(Command::DialAddress { address: address.clone() });
            i = i + 1;
        }
        cmds.push(Command::BootstrapRouting);
        cmds
    }

    /// Dials the address given on the command line, which must end with the peer's identifier
    /// (`last_peer`, the identifier in its last component, if that component names one).
    pub fn connect_to_peer(&self, address: &String, last_peer: &Option<String>) -> (r: Result<
        Command,
        ConnectError,
    >)
        ensures
            r is Ok <==> last_peer is Some,
            r matches Ok(c) ==> c == (Command::DialAddress { address: *address }),
    {
        match last_peer {
            Some(_) => Ok(Command::DialAddress { address: address.clone() }),
            None => Err(ConnectError::MissingPeerId),
        }
    }
}

/// A handshake tick publishes nothing when no peer is connected, and exactly once otherwise,
/// whatever the number of connected peers.
pub proof fn lemma_tick_publish_count(
    o: Orchestrator,
    connected: Vec<String>,
    now: u64,
    clock: String,
    cmds: Seq<Command>,
)
    requires
        handled(o, Event::HandshakeTick { connected, now, clock }, cmds),
    ensures
        connected@.len() == 0 ==> publish_count(cmds) == 0,
        connected@.len() > 0 ==> publish_count(cmds) == 1,
{
    if cmds.len() == 1 {
        assert(cmds.drop_last() =~= Seq::<Command>::empty());
        assert(publish_count(cmds.drop_last()) == 0);
        assert(cmds.last() == cmds[0]);
    }
}

proof fn lemma_routing_unchanged(table: Set<(Seq<char>, Seq<char>)>, cmds: Seq<Command>)
    requires
        forall|i: int|
            0 <= i < cmds.len() ==> (#[trigger] cmds[i] matches Command::AddAddress {
                peer,
                address,
            } ==> table.contains((peer@, address@))),
    ensures
        routing_after(table, cmds) == table,
    decreases cmds.len(),
{
    if cmds.len() > 0 {
        let init = cmds.drop_last();
        assert forall|i: int| 0 <= i < init.len() implies (#[trigger] init[i] matches Command::AddAddress {
            peer,
            address,
        } ==> table.contains((peer@, address@))) by {
            assert(init[i] == cmds[i]);
        }
        lemma_routing_unchanged(table, init);
        assert(cmds[cmds.len() - 1] == cmds.last());
        if let Command::AddAddress { peer, address } = cmds.last() {
            assert(table.insert((peer@, address@)) =~= table);
        }
    }
}

proof fn lemma_routing_records(table: Set<(Seq<char>, Seq<char>)>, cmds: Seq<Command>)
    ensures
        table.subset_of(routing_after(table, cmds)),
        forall|i: int|
            0 <= i < cmds.len() ==> (#[trigger] cmds[i] matches Command::AddAddress {
                peer,
                address,
            } ==> routing_after(table, cmds).contains((peer@, address@))),
    decreases cmds.len(),
{
    if cmds.len() > 0 {
        let init = cmds.drop_last();
        lemma_routing_records(table, init);
        assert forall|i: int| 0 <= i < cmds.len() implies (#[trigger] cmds[i] matches Command::AddAddress {
            peer,
            address,
        } ==> routing_after(table, cmds).contains((peer@, address@))) by {
            if i < init.len() {
                assert(init[i] == cmds[i]);
            }
        }
    }
}

/// Finding again a (peer, address) pair that is already recorded raises no error and leaves the
/// routing table as it was: no entry is duplicated.
pub proof fn lemma_rediscovery_keeps_routing(
    o: Orchestrator,
    found: Vec<(String, String)>,
    cmds: Seq<Command>,
    table: Set<(Seq<char>, Seq<char>)>,
)
    requires
        handled(o, Event::LocalPeersFound { found }, cmds),
        forall|i: int|
            0 <= i < found@.len() ==> table.contains(((#[trigger] found@[i]).0@, found@[i].1@)),
    ensures
        routing_after(table, cmds) == table,
{
    assert forall|i: int| 0 <= i < cmds.len() implies (#[trigger] cmds[i] matches Command::AddAddress {
        peer,
        address,
    } ==> table.contains((peer@, address@))) by {
        let k = i / 2;
        assert(cmds[2 * k] == (Command::AddAddress { peer: found@[k].0, address: found@[k].1 }));
        if i % 2 == 1 {
            assert(i == 2 * k + 1);
        } else {
            assert(i == 2 * k);
        }
    }
    lemma_routing_unchanged(table, cmds);
}

/// Handling the same local discovery twice leaves the routing table as handling it once.
pub proof fn lemma_rediscovery_idempotent(
    o: Orchestrator,
    found: Vec<(String, String)>,
    cmds: Seq<Command>,
    table: Set<(Seq<char>, Seq<char>)>,
)
    requires
        handled(o, Event::LocalPeersFound { found }, cmds),
    ensures
        routing_after(routing_after(table, cmds), cmds) == routing_after(table, cmds),
{
    lemma_routing_records(table, cmds);
    lemma_routing_unchanged(routing_after(table, cmds), cmds);
}

} // verus!
