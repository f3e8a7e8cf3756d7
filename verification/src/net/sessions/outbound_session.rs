use vstd::prelude::*;
use crate::net::p2p::{P2p, P2pView};

verus! {

/// What a connect slot makes of an address drawn from the host pool.
#[derive(Debug)]
pub enum AddressChoice {
    /// The host pool is empty: the slot closes.
    PoolEmpty,
    /// The address is unusable: the slot draws again.
    Skip,
    /// The address is now reserved for this slot.
    Take(String),
}

/// Why a connect slot stopped.
#[derive(Debug, Clone, Copy)]
pub enum StopReason {
    /// The host pool ran dry (the service is stopped).
    ServiceStopped,
    /// Registering a new channel with the interface failed.
    RegisterFailed,
    /// Attaching the protocols to a new channel failed.
    AttachFailed,
}

/// Where a connect slot is in its connection loop.
#[derive(Debug)]
pub enum SlotState {
    /// Waiting for an address from the host pool.
    Loading,
    /// Dialing the address.
    Connecting(String),
    /// Registering the new channel to the address.
    Registering(String),
    /// Attaching the protocols to the channel to the address.
    Attaching(String),
    /// Connected; waiting for the channel to stop.
    Connected(String),
    /// The slot has closed.
    Stopped(StopReason),
}

/// The outcome of the work a slot asked for.
#[derive(Debug)]
pub enum SlotEvent {
    /// The host pool handed out this address, or nothing.
    HostLoaded(Option<String>),
    ConnectFailed,
    ConnectSucceeded,
    RegisterFailed,
    Registered,
    AttachFailed,
    Attached,
    ChannelStopped,
}

/// The work a slot asks for next.
#[derive(Debug)]
pub enum SlotAction {
    /// Draw an address from the host pool.
    LoadHost,
    /// Dial this address.
    Connect(String),
    /// Register the new channel with the interface.
    Register,
    /// Attach the ping and address protocols to the new channel.
    AttachProtocols,
    /// Wait until the channel stops.
    WaitForStop,
    /// Close the slot.
    Exit(StopReason),
}

/// `addr` is the configured inbound (listening) address.
pub open spec fn is_inbound(addr: Seq<char>, inbound_addr: Option<String>) -> bool {
    match inbound_addr {
        Some(a) => a@ == addr,
        None => false,
    }
}

/// A slot may take `addr`: it is not our own inbound address, not already
/// connected, and not reserved by another slot.
pub open spec fn usable_address<C, S, E>(v: P2pView<C, S, E>, addr: Seq<char>, inbound_addr: Option<String>) -> bool {
    !is_inbound(addr, inbound_addr) && !v.is_connected(addr) && !v.pending.contains(addr)
}

/// The events a slot in `state` waits for.
pub open spec fn awaits(state: SlotState, event: SlotEvent) -> bool {
    match state {
        SlotState::Loading => event is HostLoaded,
        SlotState::Connecting(_) => event is ConnectFailed || event is ConnectSucceeded,
        SlotState::Registering(_) => event is RegisterFailed || event is Registered,
        SlotState::Attaching(_) => event is AttachFailed || event is Attached,
        SlotState::Connected(_) => event is ChannelStopped,
        SlotState::Stopped(_) => false,
    }
}

/// One step of a connect slot: the next state, the next action, and the
/// registry afterwards.
pub open spec fn connect_step<C, S, E>(
    state: SlotState,
    event: SlotEvent,
    inbound_addr: Option<String>,
    v: P2pView<C, S, E>,
) -> (SlotState, SlotAction, P2pView<C, S, E>) {
    match state {
        SlotState::Loading => match event {
            SlotEvent::HostLoaded(None) => (
                SlotState::Stopped(StopReason::ServiceStopped),
                SlotAction::Exit(StopReason::ServiceStopped),
                v,
            ),
            SlotEvent::HostLoaded(Some(a)) => if usable_address(v, a@, inbound_addr) {
                (SlotState::Connecting(a), SlotAction::Connect(a), v.with_pending(a@))
            } else {
                (SlotState::Loading, SlotAction::LoadHost, v)
            },
            _ => (state, SlotAction::LoadHost, v),
        },
        SlotState::Connecting(a) => match event {
            SlotEvent::ConnectSucceeded => (SlotState::Registering(a), SlotAction::Register, v),
            _ => (SlotState::Loading, SlotAction::LoadHost, v),
        },
        SlotState::Registering(a) => match event {
            SlotEvent::Registered => (
                SlotState::Attaching(a),
                SlotAction::AttachProtocols,
                v.without_pending(a@),
            ),
            _ => (
                SlotState::Stopped(StopReason::RegisterFailed),
                SlotAction::Exit(StopReason::RegisterFailed),
                v,
            ),
        },
        SlotState::Attaching(a) => match event {
            SlotEvent::Attached => (SlotState::Connected(a), SlotAction::WaitForStop, v),
            _ => (
                SlotState::Stopped(StopReason::AttachFailed),
                SlotAction::Exit(StopReason::AttachFailed),
                v,
            ),
        },
        SlotState::Connected(_) => (SlotState::Loading, SlotAction::LoadHost, v),
        SlotState::Stopped(r) => (state, SlotAction::Exit(r), v),
    }
}

/// No two slots take the same address: once a slot has taken an address,
/// the address is no longer usable for any slot, until the slot that took it
/// has registered its channel.
pub proof fn law_address_taken_once<C, S, E>(v: P2pView<C, S, E>, addr: String, inbound_addr: Option<String>)
    requires
        usable_address(v, addr@, inbound_addr),
    ensures
        !usable_address(v.with_pending(addr@), addr@, inbound_addr),
        connect_step(SlotState::Loading, SlotEvent::HostLoaded(Some(addr)), inbound_addr, v).0
            == SlotState::Connecting(addr),
        !usable_address(
            connect_step(SlotState::Loading, SlotEvent::HostLoaded(Some(addr)), inbound_addr, v).2,
            addr@,
            inbound_addr,
        ),
{
}

/// A slot only dials an address that was usable when it drew it, and it
/// never dials its own inbound address.
pub proof fn law_dials_only_usable<C, S, E>(v: P2pView<C, S, E>, candidate: Option<String>, inbound_addr: Option<String>)
    ensures
        connect_step(SlotState::Loading, SlotEvent::HostLoaded(candidate), inbound_addr, v).1 matches SlotAction::Connect(a)
            ==> candidate == Some(a) && usable_address(v, a@, inbound_addr) && !is_inbound(a@, inbound_addr),
{
}

/// Registering the new channel releases the slot's reservation of its
/// address; a failed dial does not release it.
pub proof fn law_reservation_released_on_register<C, S, E>(v: P2pView<C, S, E>, addr: String, inbound_addr: Option<String>)
    ensures
        !connect_step(SlotState::Registering(addr), SlotEvent::Registered, inbound_addr, v).2.pending.contains(addr@),
        connect_step(SlotState::Connecting(addr), SlotEvent::ConnectFailed, inbound_addr, v).2 == v,
{
}

/// An empty host pool closes the slot with `ServiceStopped`, and a closed slot
/// waits for nothing more.
pub proof fn law_empty_pool_stops<C, S, E>(v: P2pView<C, S, E>, inbound_addr: Option<String>, event: SlotEvent)
    ensures
        connect_step(SlotState::Loading, SlotEvent::HostLoaded(None), inbound_addr, v).0
            == SlotState::Stopped(StopReason::ServiceStopped),
        connect_step(SlotState::Loading, SlotEvent::HostLoaded(None), inbound_addr, v).2 == v,
        !awaits(SlotState::Stopped(StopReason::ServiceStopped), event),
{
}

/// A slot whose channel stops goes back to drawing addresses.
pub proof fn law_stopped_channel_reloads<C, S, E>(v: P2pView<C, S, E>, addr: String, inbound_addr: Option<String>)
    ensures
        connect_step(SlotState::Connected(addr), SlotEvent::ChannelStopped, inbound_addr, v)
            == (SlotState::Loading, SlotAction::LoadHost, v),
{
}

/// An address is usable exactly when it differs from the inbound address (if
/// one is configured), is not connected and is not reserved by any slot.
pub proof fn law_usable_address_exact<C, S, E>(v: P2pView<C, S, E>, addr: Seq<char>, inbound_addr: Option<String>)
    ensures
        usable_address(v, addr, inbound_addr) <==> (
            !(inbound_addr matches Some(b) && b@ == addr)
            && !v.channels.dom().contains(addr)
            && !v.pending.contains(addr)),
        is_inbound(addr, inbound_addr) <==> (inbound_addr matches Some(b) && b@ == addr),
{
}

/// A drawn address that is not the inbound address, not connected and not
/// reserved is taken: the slot dials it and reserves it, and nothing else in
/// the registry changes. Any other drawn address is skipped: the slot draws
/// again and the registry is left as it was. Only an empty pool stops a
/// loading slot.
pub proof fn law_drawn_address<C, S, E>(
    v: P2pView<C, S, E>,
    candidate: Option<String>,
    inbound_addr: Option<String>,
)
    ensures
        ({
            let (state, action, after) = connect_step(SlotState::Loading, SlotEvent::HostLoaded(candidate), inbound_addr, v);
            &&& (state is Stopped || action is Exit) <==> candidate is None
            &&& candidate is None ==> after == v
            &&& candidate matches Some(a) ==> {
                if !(inbound_addr matches Some(b) && b@ == a@) && !v.channels.dom().contains(a@)
                    && !v.pending.contains(a@) {
                    &&& state == SlotState::Connecting(a)
                    &&& action == SlotAction::Connect(a)
                    &&& after.pending == v.pending.insert(a@)
                    &&& after.channels == v.channels
                } else {
                    &&& state is Loading
                    &&& action is LoadHost
                    &&& after == v
                }
            }
        }),
{
}

/// No step of a connect slot touches the connected channels, the settings,
/// the executor or the switches; the only change to the pending set is the
/// reservation of a taken address or its release once its channel is
/// registered.
pub proof fn law_step_changes_only_reservations<C, S, E>(
    state: SlotState,
    event: SlotEvent,
    inbound_addr: Option<String>,
    v: P2pView<C, S, E>,
)
    ensures
        ({
            let (next, action, after) = connect_step(state, event, inbound_addr, v);
            &&& after.channels == v.channels
            &&& after.settings == v.settings
            &&& after.executor == v.executor
            &&& after.dnet_enabled == v.dnet_enabled
            &&& after.peer_discovery_running == v.peer_discovery_running
            &&& (after.pending == v.pending
                || (action matches SlotAction::Connect(a) && after.pending == v.pending.insert(a@)
                    && !v.pending.contains(a@))
                || (state matches SlotState::Registering(a) && event is Registered
                    && after.pending == v.pending.remove(a@)))
        }),
{
}

/// Each state waits for every outcome of the work it asked for: any draw from
/// the pool, a failed or a successful dial, a failed or a successful
/// registration, a failed or a successful protocol attachment, and the end of
/// the channel.
pub proof fn law_slot_awaits_outcomes(addr: String, candidate: Option<String>)
    ensures
        awaits(SlotState::Loading, SlotEvent::HostLoaded(candidate)),
        awaits(SlotState::Connecting(addr), SlotEvent::ConnectFailed),
        awaits(SlotState::Connecting(addr), SlotEvent::ConnectSucceeded),
        awaits(SlotState::Registering(addr), SlotEvent::RegisterFailed),
        awaits(SlotState::Registering(addr), SlotEvent::Registered),
        awaits(SlotState::Attaching(addr), SlotEvent::AttachFailed),
        awaits(SlotState::Attaching(addr), SlotEvent::Attached),
        awaits(SlotState::Connected(addr), SlotEvent::ChannelStopped),
{
}

/// A slot keeps the address it dialed through the connection: a successful
/// dial registers the channel to that address, a successful registration
/// attaches protocols to it, a successful attachment leaves the slot connected
/// to it. A failed dial makes the slot draw again; a failed registration or
/// attachment closes the slot with the matching reason; a closed slot keeps
/// asking to exit with its reason.
pub proof fn law_slot_follows_its_address<C, S, E>(
    addr: String,
    inbound_addr: Option<String>,
    v: P2pView<C, S, E>,
    r: StopReason,
    event: SlotEvent,
)
    ensures
        connect_step(SlotState::Connecting(addr), SlotEvent::ConnectSucceeded, inbound_addr, v).0
            == SlotState::Registering(addr),
        connect_step(SlotState::Connecting(addr), SlotEvent::ConnectSucceeded, inbound_addr, v).1 is Register,
        connect_step(SlotState::Connecting(addr), SlotEvent::ConnectFailed, inbound_addr, v).0 is Loading,
        connect_step(SlotState::Connecting(addr), SlotEvent::ConnectFailed, inbound_addr, v).1 is LoadHost,
        connect_step(SlotState::Registering(addr), SlotEvent::Registered, inbound_addr, v).0
            == SlotState::Attaching(addr),
        connect_step(SlotState::Registering(addr), SlotEvent::Registered, inbound_addr, v).1 is AttachProtocols,
        connect_step(SlotState::Registering(addr), SlotEvent::RegisterFailed, inbound_addr, v).0
            == SlotState::Stopped(StopReason::RegisterFailed),
        connect_step(SlotState::Registering(addr), SlotEvent::RegisterFailed, inbound_addr, v).1
            == SlotAction::Exit(StopReason::RegisterFailed),
        connect_step(SlotState::Attaching(addr), SlotEvent::Attached, inbound_addr, v).0
            == SlotState::Connected(addr),
        connect_step(SlotState::Attaching(addr), SlotEvent::Attached, inbound_addr, v).1 is WaitForStop,
        connect_step(SlotState::Attaching(addr), SlotEvent::AttachFailed, inbound_addr, v).0
            == SlotState::Stopped(StopReason::AttachFailed),
        connect_step(SlotState::Attaching(addr), SlotEvent::AttachFailed, inbound_addr, v).1
            == SlotAction::Exit(StopReason::AttachFailed),
        connect_step(SlotState::Stopped(r), event, inbound_addr, v).1 == SlotAction::Exit(r),
{
}

impl SlotState {
    /// Whether a slot in this state waits for `event`.
    pub fn awaits(&self, event: &SlotEvent) -> (res: bool)
        ensures
            res == awaits(*self, *event),
    {
        match self {
            SlotState::Loading => matches!(event, SlotEvent::HostLoaded(_)),
            SlotState::Connecting(_) => matches!(event, SlotEvent::ConnectFailed | SlotEvent::ConnectSucceeded),
            SlotState::Registering(_) => matches!(event, SlotEvent::RegisterFailed | SlotEvent::Registered),
            SlotState::Attaching(_) => matches!(event, SlotEvent::AttachFailed | SlotEvent::Attached),
            SlotState::Connected(_) => matches!(event, SlotEvent::ChannelStopped),
            SlotState::Stopped(_) => false,
        }
    }
}

/// The decisions of the outbound session's connect slots.
pub struct OutboundSession {
    /// The address this node listens on, if any; never dialed.
    pub inbound_addr: Option<String>,
}

impl OutboundSession {
    pub fn new(inbound_addr: Option<String>) -> (res: Self)
        ensures
            res.inbound_addr == inbound_addr,
    {
        OutboundSession { inbound_addr }
    }

    /// Whether `addr` is the configured inbound address.
    pub fn addr_is_inbound(addr: &String, inbound_addr: &Option<String>) -> (res: bool)
        ensures
            res == is_inbound(addr@, *inbound_addr),
            res == (*inbound_addr matches Some(b) && b@ == addr@),
    {
        match inbound_addr {
            Some(inbound_addr) => *inbound_addr == *addr,
            None => false,
        }
    }

    /// Judges one address drawn from the host pool, and reserves it in `p2p`
    /// when the slot takes it.
    pub fn load_address<C, S, E>(&self, p2p: &mut P2p<C, S, E>, candidate: Option<String>) -> (res: AddressChoice)
        ensures
            candidate is None ==> res is PoolEmpty && final(p2p)@ == old(p2p)@,
            candidate matches Some(a) ==> if usable_address(old(p2p)@, a@, self.inbound_addr) {
                res == AddressChoice::Take(a) && final(p2p)@ == old(p2p)@.with_pending(a@)
            } else {
                res is Skip && final(p2p)@ == old(p2p)@
            },
            candidate matches Some(a) ==> (res is Take <==> (!(self.inbound_addr matches Some(b) && b@ == a@)
                && !old(p2p)@.channels.dom().contains(a@) && !old(p2p)@.pending.contains(a@))),
            res matches AddressChoice::Take(t) ==> candidate == Some(t)
                && final(p2p)@.pending == old(p2p)@.pending.insert(t@)
                && final(p2p)@.channels == old(p2p)@.channels,
            !(res is Take) ==> final(p2p)@ == old(p2p)@,
    {
        match candidate {
            None => AddressChoice::PoolEmpty,
            Some(addr) => {
                if Self::addr_is_inbound(&addr, &self.inbound_addr) {
                    return AddressChoice::Skip;
                }
                if p2p.is_connected(&addr) {
                    return AddressChoice::Skip;
                }
                let ghost before = p2p@;
                if !p2p.add_pending(&addr) {
                    assert(before.pending.insert(addr@) =~= before.pending);
                    assert(before.with_pending(addr@) == before);
                    return AddressChoice::Skip;
                }
                AddressChoice::Take(addr)
            },
        }
    }

    /// One turn of a slot's connection loop: given the outcome of the work
    /// the slot asked for, updates `p2p` and says what the slot does next.
    pub fn channel_connect_step<C, S, E>(&self, p2p: &mut P2p<C, S, E>, state: SlotState, event: SlotEvent) -> (res: (
        SlotState,
        SlotAction,
    ))
        requires
            awaits(state, event),
        ensures
            (res.0, res.1, final(p2p)@) == connect_step(state, event, self.inbound_addr, old(p2p)@),
    {
        match state {
            SlotState::Loading => match event {
                SlotEvent::HostLoaded(candidate) => match self.load_address(p2p, candidate) {
                    AddressChoice::PoolEmpty => (
                        SlotState::Stopped(StopReason::ServiceStopped),
                        SlotAction::Exit(StopReason::ServiceStopped),
                    ),
                    AddressChoice::Skip => (SlotState::Loading, SlotAction::LoadHost),
                    AddressChoice::Take(addr) => {
                        let dial = addr.clone();
                        (SlotState::Connecting(addr), SlotAction::Connect(dial))
                    },
                },
                _ => (SlotState::Loading, SlotAction::LoadHost),
            },
            SlotState::Connecting(addr) => match event {
                SlotEvent::ConnectSucceeded => (SlotState::Registering(addr), SlotAction::Register),
                _ => (SlotState::Loading, SlotAction::LoadHost),
            },
            SlotState::Registering(addr) => match event {
                SlotEvent::Registered => {
                    p2p.remove_pending(&addr);
                    (SlotState::Attaching(addr), SlotAction::AttachProtocols)
                },
                _ => (
                    SlotState::Stopped(StopReason::RegisterFailed),
                    SlotAction::Exit(StopReason::RegisterFailed),
                ),
            },
            SlotState::Attaching(addr) => match event {
                SlotEvent::Attached => (SlotState::Connected(addr), SlotAction::WaitForStop),
                _ => (
                    SlotState::Stopped(StopReason::AttachFailed),
                    SlotAction::Exit(StopReason::AttachFailed),
                ),
            },
            SlotState::Connected(_) => (SlotState::Loading, SlotAction::LoadHost),
            SlotState::Stopped(r) => (SlotState::Stopped(r), SlotAction::Exit(r)),
        }
    }
}

} // verus!
