use vstd::prelude::*;

verus! {

/// What a peer advertises about itself.
#[derive(Clone, Debug)]
pub struct PeerMetadata {
    pub name: String,
    pub operating_system: Option<String>,
    pub device_model: Option<String>,
    pub version: Option<String>,
}

/// An event surfaced to the frontend. Identities are carried in their
/// textual form.
#[derive(Clone, Debug)]
pub enum P2PEvent {
    DiscoveredPeer { identity: String, metadata: PeerMetadata },
    ExpiredPeer { identity: String },
    ConnectedPeer { identity: String },
    DisconnectedPeer { identity: String },
    SpacedropRequest { id: u128, identity: String, peer_name: String, files: Vec<String> },
    SpacedropProgress { id: u128, percent: u8 },
    SpacedropTimedout { id: u128 },
    SpacedropRejected { id: u128 },
}

/// A hook notification from the networking layer, as the event pump
/// receives it.
pub enum HookEvent {
    PeerAvailable { identity: String, metadata: PeerMetadata },
    PeerUnavailable { identity: String },
    PeerConnectedWith { identity: String, first_connection: bool },
    PeerDisconnectedWith { identity: String, last_connection: bool },
    Shutdown,
    Other,
}

/// What the event pump does with one hook notification.
pub enum EventLoopStep {
    Emit(P2PEvent),
    Skip,
    Stop,
}

/// The event pump's decision for one hook notification: availability
/// changes always surface (an active connection counts as discovered),
/// connection changes surface only on the first connection or the last
/// disconnection, a shutdown stops the pump, and anything else is
/// ignored.
pub fn hook_event_to_p2p_event(event: HookEvent) -> (r: EventLoopStep)
    ensures
        match event {
            HookEvent::PeerAvailable { identity, metadata } => r == EventLoopStep::Emit(
                P2PEvent::DiscoveredPeer { identity, metadata },
            ),
            HookEvent::PeerUnavailable { identity } => r == EventLoopStep::Emit(
                P2PEvent::ExpiredPeer { identity },
            ),
            HookEvent::PeerConnectedWith { identity, first_connection } => if first_connection {
                r == EventLoopStep::Emit(P2PEvent::ConnectedPeer { identity })
            } else {
                r == EventLoopStep::Skip
            },
            HookEvent::PeerDisconnectedWith { identity, last_connection } => if last_connection {
                r == EventLoopStep::Emit(P2PEvent::DisconnectedPeer { identity })
            } else {
                r == EventLoopStep::Skip
            },
            HookEvent::Shutdown => r == EventLoopStep::Stop,
            HookEvent::Other => r == EventLoopStep::Skip,
        },
{
    match event {
        HookEvent::PeerAvailable { identity, metadata } => EventLoopStep::Emit(
            P2PEvent::DiscoveredPeer { identity, metadata },
        ),
        HookEvent::PeerUnavailable { identity } => EventLoopStep::Emit(
            P2PEvent::ExpiredPeer { identity },
        ),
        HookEvent::PeerConnectedWith { identity, first_connection } => {
            if first_connection {
                EventLoopStep::Emit(P2PEvent::ConnectedPeer { identity })
            } else {
                EventLoopStep::Skip
            }
        },
        HookEvent::PeerDisconnectedWith { identity, last_connection } => {
            if last_connection {
                EventLoopStep::Emit(P2PEvent::DisconnectedPeer { identity })
            } else {
                EventLoopStep::Skip
            }
        },
        HookEvent::Shutdown => EventLoopStep::Stop,
        HookEvent::Other => EventLoopStep::Skip,
    }
}

/// A port setting that distinguishes "absent" from "explicitly null".
#[derive(Clone, Copy, PartialEq, Eq, Structural, Debug)]
pub enum MaybePort {
    Undefined,
    Null,
    Value(u16),
}

/// How a configured port maps onto the transport: absent disables the
/// listener, null asks for a random port, a value is used as-is.
pub fn port_for_config(p: MaybePort) -> (r: Option<u16>)
    ensures
        r == match p {
            MaybePort::Undefined => None::<u16>,
            MaybePort::Null => Some(0u16),
            MaybePort::Value(port) => Some(port),
        },
{
    match p {
        MaybePort::Undefined => None,
        MaybePort::Null => Some(0),
        MaybePort::Value(port) => Some(port),
    }
}

/// Who may discover this node.
#[derive(Clone, Copy, PartialEq, Eq, Structural, Debug)]
pub enum P2PDiscoveryState {
    Everyone,
    ContactsOnly,
    Disabled,
}

/// What the discovery service should do after a configuration change.
#[derive(Clone, Copy, PartialEq, Eq, Structural, Debug)]
pub enum MdnsDirective {
    Spawn,
    Shutdown,
    Keep,
}

/// The discovery decision: discovery on (for everyone or contacts only)
/// spawns the responder when none runs; discovery off shuts a running
/// responder down; otherwise nothing changes.
pub fn mdns_directive(state: P2PDiscoveryState, mdns_running: bool) -> (r: MdnsDirective)
    ensures
        r == match state {
            P2PDiscoveryState::Everyone | P2PDiscoveryState::ContactsOnly => if mdns_running {
                MdnsDirective::Keep
            } else {
                MdnsDirective::Spawn
            },
            P2PDiscoveryState::Disabled => if mdns_running {
                MdnsDirective::Shutdown
            } else {
                MdnsDirective::Keep
            },
        },
{
    match state {
        P2PDiscoveryState::Everyone | P2PDiscoveryState::ContactsOnly => {
            if mdns_running {
                MdnsDirective::Keep
            } else {
                MdnsDirective::Spawn
            }
        },
        P2PDiscoveryState::Disabled => {
            if mdns_running {
                MdnsDirective::Shutdown
            } else {
                MdnsDirective::Keep
            }
        },
    }
}

/// A peer's identity text with the metadata keys it advertises.
pub struct PeerEntry {
    pub identity: String,
    pub metadata_keys: Vec<String>,
}

pub open spec fn has_key(keys: Seq<Seq<char>>, key: Seq<char>) -> bool {
    exists|i: int| 0 <= i < keys.len() && keys[i] == key
}

fn contains_string(keys: &Vec<String>, key: &String) -> (r: bool)
    ensures
        r == has_key(keys.deep_view(), key@),
{
    let mut i: usize = 0;
    while i < keys.len()
        invariant
            i <= keys@.len(),
            forall|j: int| 0 <= j < i ==> keys.deep_view()[j] != key@,
        decreases keys@.len() - i,
    {
        if keys[i].eq(key) {
            assert(keys.deep_view()[i as int] == key@);
            return true;
        }
        i = i + 1;
    }
    false
}

/// The identities of the peers that advertise the given library, in
/// order.
pub open spec fn instances_of(s: Seq<(Seq<char>, Seq<Seq<char>>)>, library_id: Seq<char>) -> Seq<
    Seq<char>,
>
    decreases s.len(),
{
    if s.len() == 0 {
        Seq::<Seq<char>>::empty()
    } else {
        let rest = instances_of(s.drop_last(), library_id);
        if has_key(s.last().1, library_id) {
            rest.push(s.last().0)
        } else {
            rest
        }
    }
}

pub open spec fn peer_views(s: Seq<PeerEntry>) -> Seq<(Seq<char>, Seq<Seq<char>>)> {
    Seq::new(s.len(), |i: int| (s[i].identity@, s[i].metadata_keys.deep_view()))
}

/// The peers on which a library is available: those whose advertised
/// metadata carries the library's identifier as a key.
pub fn get_library_instances(peers: &Vec<PeerEntry>, library_id: &String) -> (r: Vec<String>)
    ensures
        r.deep_view() == instances_of(peer_views(peers@), library_id@),
{
    let mut out: Vec<String> = Vec::new();
    let mut k: usize = 0;
    proof {
        assert(out.deep_view() =~= instances_of(peer_views(peers@.subrange(0, 0)), library_id@));
    }
    while k < peers.len()
        invariant
            k <= peers@.len(),
            out.deep_view() == instances_of(peer_views(peers@.subrange(0, k as int)), library_id@),
        decreases peers@.len() - k,
    {
        let ghost pre = peer_views(peers@.subrange(0, k as int));
        let ghost post = peer_views(peers@.subrange(0, (k + 1) as int));
        proof {
            assert(post.drop_last() =~= pre);
            assert(post.last() == (peers@[k as int].identity@,
            peers@[k as int].metadata_keys.deep_view()));
        }
        let p = &peers[k];
        if contains_string(&p.metadata_keys, library_id) {
            let ghost prev = out.deep_view();
            out.push(p.identity.clone());
            proof {
                assert(out.deep_view() =~= prev.push(p.identity@));
                assert(out.deep_view() =~= instances_of(post, library_id@));
            }
        } else {
            proof {
                assert(out.deep_view() =~= instances_of(post, library_id@));
            }
        }
        k = k + 1;
    }
    proof {
        assert(peers@.subrange(0, peers@.len() as int) =~= peers@);
    }
    out
}

/// Whether the identified peer advertises the given library: the lookup
/// behind fetching a single instance.
pub fn get_instance(peers: &Vec<PeerEntry>, library_id: &String, identity: &String) -> (r: Option<
    usize,
>)
    ensures
        match r {
            Some(i) => i < peers@.len() && peers@[i as int].identity@ == identity@ && has_key(
                peers@[i as int].metadata_keys.deep_view(),
                library_id@,
            ),
            None => forall|i: int|
                0 <= i < peers@.len() ==> !((#[trigger] peers@[i]).identity@ == identity@
                    && has_key(peers@[i].metadata_keys.deep_view(), library_id@)),
        },
{
    let mut k: usize = 0;
    while k < peers.len()
        invariant
            k <= peers@.len(),
            forall|i: int|
                0 <= i < k ==> !((#[trigger] peers@[i]).identity@ == identity@ && has_key(
                    peers@[i].metadata_keys.deep_view(),
                    library_id@,
                )),
        decreases peers@.len() - k,
    {
        let p = &peers[k];
        if p.identity.eq(identity) && contains_string(&p.metadata_keys, library_id) {
            return Some(k);
        }
        k = k + 1;
    }
    None
}

} // verus!
