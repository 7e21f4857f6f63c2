//! The broadcast loop's decision core: one step of the event-driven loop.
//!
//! The transport layer owns the sockets. It turns each transport event into a
//! [`ServerEvent`], hands it to [`Server::handle_event`], and delivers the
//! returned [`Outbound`] frames, each to the one connection its identifier
//! names. The loop is serial: one event is processed at a time, so a
//! broadcast is a single atomic pass over the registry as it stands at that
//! instant, and all clients observe state changes in the same order.
//!
//! Delivery is fire-and-forget: a failed send is logged by the transport
//! layer and does not abort the pass or unregister the connection; the
//! registry converges through the eventual disconnect event.

use vstd::prelude::*;
use crate::codec;
use crate::registry::Registry;
use crate::state_machine::Counter;
use crate::state_machine::CounterTransition;
use crate::state_machine::spec_apply;

verus! {

/// One transport event, as the loop consumes it. Text and binary frames
/// carry their raw bytes.
pub enum ServerEvent {
    /// A new session opened under a fresh identifier.
    Connect(u64),
    /// The session with this identifier closed.
    Disconnect(u64),
    /// A text frame arrived from this session.
    Message(u64, Vec<u8>),
    /// A binary frame arrived from this session; the wire format is text
    /// only, so it is rejected.
    Binary(u64, Vec<u8>),
}

/// One frame to deliver, text or binary.
#[derive(Debug, PartialEq)]
pub enum Frame {
    Text(Vec<u8>),
    Binary(Vec<u8>),
}

/// A frame as contracts see it.
pub enum FrameModel {
    Text(Seq<u8>),
    Binary(Seq<u8>),
}

impl View for Frame {
    type V = FrameModel;

    open spec fn view(&self) -> FrameModel {
        match self {
            Frame::Text(b) => FrameModel::Text(b@),
            Frame::Binary(b) => FrameModel::Binary(b@),
        }
    }
}

/// One directed send: deliver `frame` to the connection named `dest`.
#[derive(Debug, PartialEq)]
pub struct Outbound {
    pub dest: u64,
    pub frame: Frame,
}

/// A directed send as contracts see it.
pub struct OutboundModel {
    pub dest: u64,
    pub frame: FrameModel,
}

impl View for Outbound {
    type V = OutboundModel;

    open spec fn view(&self) -> OutboundModel {
        OutboundModel { dest: self.dest, frame: self.frame@ }
    }
}

/// The error reply to a binary frame: the wire format is text only.
pub open spec fn error_text() -> Seq<u8> {
    seq![
        77u8, 101u8, 115u8, 115u8, 97u8, 103u8, 101u8, 32u8, 102u8, 111u8, 114u8, 109u8, 97u8,
        116u8, 32u8, 101u8, 120u8, 112u8, 101u8, 99u8, 116u8, 101u8, 100u8, 32u8, 119u8, 97u8,
        115u8, 32u8, 116u8, 101u8, 120u8, 116u8,
    ]
}

/// The counter value after one event: a text frame that decodes to a
/// transition is applied; every other event leaves the state unchanged.
pub open spec fn step_value(v: i64, e: ServerEvent) -> i64 {
    match e {
        ServerEvent::Message(_, msg) => match codec::spec_decode_transition(msg@) {
            Some(t) => spec_apply(v, t),
            None => v,
        },
        _ => v,
    }
}

/// The registered identifiers after one event: connect inserts, disconnect
/// removes, frames leave the registry unchanged.
pub open spec fn step_clients(c: Seq<u64>, e: ServerEvent) -> Seq<u64> {
    match e {
        ServerEvent::Connect(id) => if c.contains(id) {
            c
        } else {
            c.push(id)
        },
        ServerEvent::Disconnect(id) => c.remove_value(id),
        _ => c,
    }
}

/// The sends one event produces, given the counter value `v` and registered
/// identifiers `c` before the event:
/// - connect: exactly one snapshot of the state at that instant, to the new
///   connection, before it joins the fan-out set;
/// - disconnect: nothing;
/// - a text frame that decodes to a transition: the new state to every
///   registered connection, the sender included, then the verbatim echo to
///   the sender;
/// - any other text frame: only the verbatim echo to the sender;
/// - a binary frame: the error reply, then the verbatim echo, to the sender.
/// A directed reply to a sender no longer registered is dropped: sending to
/// a stale identifier is a no-op, not an error.
pub open spec fn step_out(v: i64, c: Seq<u64>, e: ServerEvent) -> Seq<OutboundModel> {
    match e {
        ServerEvent::Connect(id) => seq![
            OutboundModel { dest: id, frame: FrameModel::Text(codec::spec_encode_state(v)) },
        ],
        ServerEvent::Disconnect(_) => seq![],
        ServerEvent::Message(id, msg) => {
            let echo = if c.contains(id) {
                seq![OutboundModel { dest: id, frame: FrameModel::Text(msg@) }]
            } else {
                seq![]
            };
            match codec::spec_decode_transition(msg@) {
                Some(t) => c.map_values(
                    |d: u64| OutboundModel {
                        dest: d,
                        frame: FrameModel::Text(codec::spec_encode_state(spec_apply(v, t))),
                    },
                ) + echo,
                None => echo,
            }
        },
        ServerEvent::Binary(id, payload) => if c.contains(id) {
            seq![
                OutboundModel { dest: id, frame: FrameModel::Text(error_text()) },
                OutboundModel { dest: id, frame: FrameModel::Binary(payload@) },
            ]
        } else {
            seq![]
        },
    }
}

/// The server core: the single authoritative application state and the
/// connection registry. Only `handle_event` mutates either.
pub struct Server {
    counter: Counter,
    registry: Registry,
}

impl Server {
    /// The counter value, as contracts see it.
    pub closed spec fn state(&self) -> i64 {
        self.counter@
    }

    /// The registered connection identifiers, as contracts see them.
    pub closed spec fn clients(&self) -> Seq<u64> {
        self.registry@
    }

    /// Well-formed: no identifier is registered twice.
    pub open spec fn wf(&self) -> bool {
        self.clients().no_duplicates()
    }

    /// A fresh server: counter at zero, nobody connected.
    pub fn new() -> (s: Server)
        ensures
            s.state() == 0i64,
            s.clients() == Seq::<u64>::empty(),
            s.wf(),
    {
        Server { counter: Counter::new(), registry: Registry::new() }
    }

    /// The current counter value.
    pub fn value(&self) -> (v: i64)
        ensures
            v == self.state(),
    {
        self.counter.value()
    }

    /// The currently registered identifiers, in insertion order.
    pub fn client_ids(&self) -> (r: &Vec<u64>)
        ensures
            r@ == self.clients(),
    {
        self.registry.ids()
    }

    /// Processes one transport event and returns the frames to deliver, in
    /// order. The new state and registry and every returned frame are exactly
    /// the step functions' values on the state at entry.
    pub fn handle_event(&mut self, e: ServerEvent) -> (out: Vec<Outbound>)
        requires
            old(self).wf(),
        ensures
            final(self).wf(),
            final(self).state() == step_value(old(self).state(), e),
            final(self).clients() == step_clients(old(self).clients(), e),
            out@.map_values(|o: Outbound| o@) == step_out(old(self).state(), old(self).clients(), e),
    {
        match e {
            ServerEvent::Connect(id) => {
                let mut out: Vec<Outbound> = Vec::new();
                // the snapshot goes to the new connection before it joins the
                // fan-out set, so no broadcast can precede it
                let snapshot = codec::encode_state_value(self.counter.value());
                out.push(Outbound { dest: id, frame: Frame::Text(snapshot) });
                self.registry.register(id);
                proof {
                    assert(out@.map_values(|o: Outbound| o@) =~= step_out(
                        old(self).state(),
                        old(self).clients(),
                        e,
                    ));
                }
                out
            },
            ServerEvent::Disconnect(id) => {
                self.registry.unregister(id);
                let out: Vec<Outbound> = Vec::new();
                proof {
                    assert(out@.map_values(|o: Outbound| o@) =~= step_out(
                        old(self).state(),
                        old(self).clients(),
                        e,
                    ));
                }
                out
            },
            ServerEvent::Message(id, msg) => self.handle_text(id, msg),
            ServerEvent::Binary(id, payload) => {
                let mut out: Vec<Outbound> = Vec::new();
                if self.registry.contains(id) {
                    out.push(Outbound { dest: id, frame: Frame::Text(error_text_frame()) });
                    out.push(Outbound { dest: id, frame: Frame::Binary(payload) });
                }
                proof {
                    assert(out@.map_values(|o: Outbound| o@) =~= step_out(
                        old(self).state(),
                        old(self).clients(),
                        e,
                    ));
                }
                out
            },
        }
    }

    /// One text frame: apply it if it is a transition and broadcast the new
    /// state; either way echo the raw text back to the sender.
    fn handle_text(&mut self, id: u64, msg: Vec<u8>) -> (out: Vec<Outbound>)
        requires
            old(self).wf(),
        ensures
            final(self).wf(),
            final(self).state() == step_value(
                old(self).state(),
                ServerEvent::Message(id, msg),
            ),
            final(self).clients() == old(self).clients(),
            out@.map_values(|o: Outbound| o@) == step_out(
                old(self).state(),
                old(self).clients(),
                ServerEvent::Message(id, msg),
            ),
    {
        let mut out: Vec<Outbound> = Vec::new();
        match codec::decode_transition(msg.as_slice()) {
            Some(t) => {
                match self.counter.apply(t) {
                    Ok(()) => {
                        // broadcast the new state to every registered
                        // connection, the sender included
                        let ghost nv = self.counter@;
                        let ids = self.registry.ids();
                        let n: usize = ids.len();
                        let mut k: usize = 0;
                        while k < n
                            invariant
                                n == ids@.len(),
                                ids@ == self.registry@,
                                k <= n,
                                nv == self.counter@,
                                out@.len() == k,
                                forall|m: int| 0 <= m < k ==> #[trigger] out@[m]@
                                    == (OutboundModel {
                                    dest: ids@[m],
                                    frame: FrameModel::Text(codec::spec_encode_state(nv)),
                                }),
                            decreases n - k,
                        {
                            let text = codec::encode_state_value(self.counter.value());
                            out.push(Outbound { dest: ids[k], frame: Frame::Text(text) });
                            k = k + 1;
                        }
                    },
                    Err(_) => {
                        // structurally impossible for this transition set;
                        // the pathway is reserved: no broadcast, state as the
                        // state machine left it
                    },
                }
            },
            None => {
                // not a transition: an opaque informational message, no state
                // action
            },
        }
        // the verbatim echo to the sender, dropped if it is no longer
        // registered (a stale identifier is a no-op)
        if self.registry.contains(id) {
            out.push(Outbound { dest: id, frame: Frame::Text(msg) });
        }
        proof {
            assert(out@.map_values(|o: Outbound| o@) =~= step_out(
                old(self).state(),
                old(self).clients(),
                ServerEvent::Message(id, msg),
            ));
        }
        out
    }
}

/// The counter value after a whole sequence of events, in arrival order.
pub open spec fn run_value(v: i64, events: Seq<ServerEvent>) -> i64
    decreases events.len(),
{
    if events.len() == 0 {
        v
    } else {
        run_value(step_value(v, events[0]), events.drop_first())
    }
}

/// A sequence of transitions folded over an initial value, in order.
pub open spec fn fold_transitions(v: i64, ts: Seq<CounterTransition>) -> i64
    decreases ts.len(),
{
    if ts.len() == 0 {
        v
    } else {
        fold_transitions(spec_apply(v, ts[0]), ts.drop_first())
    }
}

/// The event is a text frame whose bytes decode to exactly the transition `t`.
pub open spec fn carries_transition(e: ServerEvent, t: CounterTransition) -> bool {
    e matches ServerEvent::Message(_, msg) && codec::spec_decode_transition(msg@) == Some(t)
}

/// Order-determinism: for any sequence of text frames that decode to the
/// valid transitions `ts`, sent from any mix of connections, the final state
/// equals `ts` folded in arrival order over the initial value.
pub proof fn lemma_order_determinism(v: i64, events: Seq<ServerEvent>, ts: Seq<CounterTransition>)
    requires
        events.len() == ts.len(),
        forall|i: int| 0 <= i < events.len() ==> carries_transition(#[trigger] events[i], ts[i]),
    ensures
        run_value(v, events) == fold_transitions(v, ts),
    decreases events.len(),
{
    if events.len() > 0 {
        assert(carries_transition(events[0], ts[0]));
        assert(step_value(v, events[0]) == spec_apply(v, ts[0]));
        let ev_tail = events.drop_first();
        let ts_tail = ts.drop_first();
        assert(forall|i: int|
            0 <= i < ev_tail.len() ==> carries_transition(#[trigger] ev_tail[i], ts_tail[i])) by {
            assert(forall|i: int| 0 <= i < ev_tail.len() ==> ev_tail[i] == events[i + 1]);
            assert(forall|i: int| 0 <= i < ts_tail.len() ==> ts_tail[i] == ts[i + 1]);
        }
        lemma_order_determinism(spec_apply(v, ts[0]), ev_tail, ts_tail);
    }
}

/// A newly connected client receives exactly one frame before it joins the
/// fan-out set: a snapshot equal to the state at the instant of connection
/// (it decodes back to that very value).
pub proof fn lemma_connect_snapshot(v: i64, c: Seq<u64>, id: u64)
    ensures
        step_out(v, c, ServerEvent::Connect(id)).len() == 1,
        step_out(v, c, ServerEvent::Connect(id))[0] == (OutboundModel {
            dest: id,
            frame: FrameModel::Text(codec::spec_encode_state(v)),
        }),
        codec::spec_decode_state(codec::spec_encode_state(v)) == Some(v),
        step_value(v, ServerEvent::Connect(id)) == v,
        step_clients(c, ServerEvent::Connect(id)).contains(id),
{
    codec::lemma_state_round_trip(v);
    if !c.contains(id) {
        assert(step_clients(c, ServerEvent::Connect(id))[c.len() as int] == id);
    }
}

/// A connection that is not registered receives nothing: once disconnected,
/// an identifier is excluded from every subsequent broadcast and from every
/// directed reply, whatever the event, until it reconnects.
pub proof fn lemma_stale_id_excluded(v: i64, c: Seq<u64>, id: u64, e: ServerEvent)
    requires
        !c.contains(id),
        !(e matches ServerEvent::Connect(cid) && cid == id),
    ensures
        forall|i: int|
            0 <= i < step_out(v, c, e).len() ==> #[trigger] step_out(v, c, e)[i].dest != id,
{
    let outs = step_out(v, c, e);
    match e {
        ServerEvent::Message(sender, msg) => {
            assert forall|i: int| 0 <= i < outs.len() implies #[trigger] outs[i].dest != id by {
                match codec::spec_decode_transition(msg@) {
                    Some(t) => {
                        if i < c.len() {
                            assert(outs[i].dest == c[i]);
                            assert(c.contains(c[i]));
                        } else {
                            assert(c.contains(sender));
                        }
                    },
                    None => {
                        assert(c.contains(sender));
                    },
                }
            }
        },
        ServerEvent::Binary(sender, _) => {
            if c.contains(sender) {
                assert(forall|i: int| 0 <= i < outs.len() ==> #[trigger] outs[i].dest == sender);
            }
        },
        _ => {},
    }
}

/// Disconnecting removes the identifier from the registry, and disconnecting
/// an identifier that is not registered changes nothing: a stale disconnect
/// is a no-op, not an error.
pub proof fn lemma_disconnect_unregisters(c: Seq<u64>, id: u64)
    requires
        c.no_duplicates(),
    ensures
        !step_clients(c, ServerEvent::Disconnect(id)).contains(id),
        !c.contains(id) ==> step_clients(c, ServerEvent::Disconnect(id)) == c,
{
    c.index_of_first_ensures(id);
    if c.contains(id) {
        let ix = c.index_of_first(id)->Some_0;
        let t = c.remove(ix);
        if t.contains(id) {
            let w = choose|w: int| 0 <= w < t.len() && t[w] == id;
            if w < ix {
                assert(c[w] == id);
            } else {
                assert(c[w + 1] == id);
            }
        }
    }
}

/// The error reply to a binary frame, as bytes.
fn error_text_frame() -> (out: Vec<u8>)
    ensures
        out@ == error_text(),
{
    let mut out: Vec<u8> = Vec::new();
    out.push(77);
    out.push(101);
    out.push(115);
    out.push(115);
    out.push(97);
    out.push(103);
    out.push(101);
    out.push(32);
    out.push(102);
    out.push(111);
    out.push(114);
    out.push(109);
    out.push(97);
    out.push(116);
    out.push(32);
    out.push(101);
    out.push(120);
    out.push(112);
    out.push(101);
    out.push(99);
    out.push(116);
    out.push(101);
    out.push(100);
    out.push(32);
    out.push(119);
    out.push(97);
    out.push(115);
    out.push(32);
    out.push(116);
    out.push(101);
    out.push(120);
    out.push(116);
    proof {
        assert(out@ =~= error_text());
    }
    out
}

} // verus!
