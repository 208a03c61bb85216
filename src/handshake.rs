use vstd::prelude::*;

verus! {

/// The identity/greeting message that a node broadcasts on the handshake topic.
#[derive(Debug, Clone, PartialEq, Eq)]
pub struct HandshakeMessage {
    pub node_name: Option<String>,
    pub peer_id: String,
    pub timestamp: u64,
    pub message: String,
}

/// The mathematical value of a handshake message: its fields as character sequences.
pub struct HandshakeView {
    pub node_name: Option<Seq<char>>,
    pub peer_id: Seq<char>,
    pub timestamp: u64,
    pub message: Seq<char>,
}

pub open spec fn opt_view(o: Option<String>) -> Option<Seq<char>> {
    match o {
        Some(s) => Some(s@),
        None => None,
    }
}

impl View for HandshakeMessage {
    type V = HandshakeView;

    open spec fn view(&self) -> HandshakeView {
        HandshakeView {
            node_name: opt_view(self.node_name),
            peer_id: self.peer_id@,
            timestamp: self.timestamp,
            message: self.message@,
        }
    }
}

/// The name a greeting uses: the node's own, or the anonymous default.
pub open spec fn shown_name(name: Option<Seq<char>>) -> Seq<char> {
    match name {
        Some(n) => n,
        None => "Anonymous Node"@,
    }
}

/// Text of the greeting sent when a connection is established.
pub open spec fn connect_greeting(name: Option<Seq<char>>) -> Seq<char> {
    "Hello from "@ + shown_name(name) + "! 👋"@
}

/// Text of the greeting sent on each periodic tick; `clock` is the current time of day.
pub open spec fn periodic_greeting(name: Option<Seq<char>>, clock: Seq<char>) -> Seq<char> {
    "Periodic handshake from "@ + shown_name(name) + "! Current time: "@ + clock
}

pub fn clone_name(name: &Option<String>) -> (r: Option<String>)
    ensures
        r == *name,
{
    match name {
        Some(n) => Some(n.clone()),
        None => None,
    }
}

/// The node's display name, "Anonymous Node" when it has none.
pub fn display_name(name: &Option<String>) -> (r: String)
    ensures
        r@ == shown_name(opt_view(*name)),
{
    match name {
        Some(n) => n.clone(),
        None => String::from_str("Anonymous Node"),
    }
}

/// Builds the greeting sent to a newly connected peer.
pub fn build_handshake(node_name: &Option<String>, peer_id: &String, timestamp: u64) -> (m:
    HandshakeMessage)
    ensures
        m.node_name == *node_name,
        m.peer_id == *peer_id,
        m.timestamp == timestamp,
        m.message@ == connect_greeting(opt_view(*node_name)),
{
    let mut text = String::from_str("Hello from ");
    let shown = display_name(node_name);
    text.append(shown.as_str());
    text.append("! 👋");
    HandshakeMessage {
        node_name: clone_name(node_name),
        peer_id: peer_id.clone(),
        timestamp,
        message: text,
    }
}

/// Builds the greeting broadcast on a periodic tick, `clock` being the time of day.
pub fn build_periodic_handshake(
    node_name: &Option<String>,
    peer_id: &String,
    timestamp: u64,
    clock: &str,
) -> (m: HandshakeMessage)
    ensures
        m.node_name == *node_name,
        m.peer_id == *peer_id,
        m.timestamp == timestamp,
        m.message@ == periodic_greeting(opt_view(*node_name), clock@),
{
    let mut text = String::from_str("Periodic handshake from ");
    let shown = display_name(node_name);
    text.append(shown.as_str());
    text.append("! Current time: ");
    text.append(clock);
    HandshakeMessage {
        node_name: clone_name(node_name),
        peer_id: peer_id.clone(),
        timestamp,
        message: text,
    }
}

} // verus!
