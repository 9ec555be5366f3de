//! The dispatcher and the inbound router, joined over the registry and the
//! correlation table. `invoke_begin` validates a call and prepares the
//! request envelope; the caller publishes it, waits, and settles the call
//! with `invoke_finish` (or `invoke_abort` when the publish itself failed).
//! `on_delivery` classifies each inbound delivery and feeds announcements
//! into the registry and replies into the correlation table.

use vstd::prelude::*;

use crate::codec::build_request;
use crate::codec::build_topic;
use crate::codec::bytes_eq;
use crate::codec::announce_topic;
use crate::codec::announce_topic_exec;
use crate::codec::encoded_request;
use crate::codec::hex_of_id;
use crate::codec::id_to_hex;
use crate::codec::is_self_topic;
use crate::codec::is_self_topic_exec;
use crate::codec::parse_hex_id;
use crate::codec::parse_hex32;
use crate::codec::request_topic;
use crate::correlation::CallOutcome;
use crate::correlation::CallState;
use crate::correlation::CorrelationTable;
use crate::correlation::resolve_hits;
use crate::correlation::resolved;
use crate::registry::Registry;
use crate::registry::ServiceDescriptor;
use crate::registry::caps_contain;
use crate::registry::distinct_names;
use crate::registry::has_capability;
use crate::wire::announcement_of;
use crate::wire::parse_announcement;
use crate::wire::parse_reply;
use crate::wire::reply_parts_of;

verus! {

/// Why a call failed. A malformed inbound delivery is handled locally by
/// the router and never surfaces here.
#[derive(Clone, Copy, PartialEq, Eq, Structural, Debug)]
pub enum DispatchError {
    UnknownService,
    UnsupportedAction,
    TransportError,
    Timeout,
}

/// How the router classified and handled one inbound delivery.
#[derive(Clone, Copy, PartialEq, Eq, Structural, Debug)]
pub enum Delivery {
    SelfOriginated,
    Registered,
    Matched(u128),
    Unmatched,
    Malformed,
}

/// A validated call, opened in the correlation table and ready to publish:
/// its fresh identifier, the topic to publish on, and the encoded envelope.
pub struct PreparedCall {
    pub id: u128,
    pub topic: Vec<u8>,
    pub envelope: Vec<u8>,
}

/// The bridge: the service registry and the correlation table, owned
/// together and constructed once at startup.
pub struct Bridge {
    registry: Registry,
    table: CorrelationTable,
}

impl Bridge {
    /// The registry as a map from service name to capability set.
    pub closed spec fn services(&self) -> Map<Seq<u8>, Seq<Seq<u8>>> {
        self.registry@
    }

    /// The correlation table as a map from identifier to call state.
    pub closed spec fn pending(&self) -> Map<u128, CallState> {
        self.table@
    }

    /// Internal well-formedness of both tables.
    pub closed spec fn wf(&self) -> bool {
        self.registry.wf() && self.table.wf()
    }

    /// A bridge with no known services and no pending calls.
    pub fn new() -> (r: Bridge)
        ensures
            r.wf(),
            r.services() == Map::<Seq<u8>, Seq<Seq<u8>>>::empty(),
            r.pending() == Map::<u128, CallState>::empty(),
    {
        Bridge { registry: Registry::new(), table: CorrelationTable::new() }
    }

    /// Inserts or atomically replaces the registry entry for the
    /// descriptor's name; the last announcement wins, whole.
    pub fn register(&mut self, descriptor: ServiceDescriptor)
        requires
            old(self).wf(),
        ensures
            final(self).wf(),
            final(self).services() == old(self).services().insert(
                descriptor.name@,
                descriptor.caps(),
            ),
            final(self).pending() == old(self).pending(),
    {
        self.registry.register(descriptor);
    }

    /// A point-in-time snapshot of the registry entry for `name`.
    pub fn lookup(&self, name: &Vec<u8>) -> (r: Option<ServiceDescriptor>)
        requires
            self.wf(),
        ensures
            match r {
                Some(d) => self.services().dom().contains(name@) && d.name@ == name@ && d.caps()
                    == self.services()[name@],
                None => !self.services().dom().contains(name@),
            },
    {
        self.registry.lookup(name)
    }

    /// A snapshot of all known services.
    pub fn list(&self) -> (r: Vec<ServiceDescriptor>)
        requires
            self.wf(),
        ensures
            forall|i: int|
                0 <= i < r@.len() ==> self.services().dom().contains(#[trigger] r@[i].name@)
                    && r@[i].caps() == self.services()[r@[i].name@],
            forall|n: Seq<u8>|
                self.services().dom().contains(n) ==> exists|i: int|
                    0 <= i < r@.len() && r@[i].name@ == n,
            distinct_names(r@),
    {
        self.registry.list()
    }

    /// The number of live pending calls.
    pub fn pending_len(&self) -> (r: usize)
        requires
            self.wf(),
        ensures
            r == self.pending().dom().len(),
    {
        self.table.len()
    }

    /// Whether a pending call for `id` is live.
    pub fn is_pending(&self, id: u128) -> (r: bool)
        ensures
            r == self.pending().dom().contains(id),
    {
        self.table.contains(id)
    }

    /// Validates a call and opens it: looks the service up, checks the
    /// action against its capabilities, mints a fresh correlation
    /// identifier, and builds the envelope and topic to publish. On a
    /// validation failure nothing changes and nothing is handed out to
    /// publish. Publishing, waiting, and settling are the caller's next
    /// steps (`invoke_finish`, or `invoke_abort` when the publish fails).
    pub fn invoke_begin(
        &mut self,
        service: &Vec<u8>,
        action: &Vec<u8>,
        payload: &Vec<u8>,
    ) -> (r: Result<PreparedCall, DispatchError>)
        requires
            old(self).wf(),
        ensures
            final(self).wf(),
            final(self).services() == old(self).services(),
            r is Err ==> final(self).pending() == old(self).pending(),
            (r == Err::<PreparedCall, DispatchError>(DispatchError::UnknownService)) <==> !old(
                self,
            ).services().dom().contains(service@),
            (r == Err::<PreparedCall, DispatchError>(DispatchError::UnsupportedAction)) <==> (old(
                self,
            ).services().dom().contains(service@) && !has_capability(
                old(self).services()[service@],
                action@,
            )),
            r is Ok <==> (old(self).services().dom().contains(service@) && has_capability(
                old(self).services()[service@],
                action@,
            )),
            r matches Ok(p) ==> !old(self).pending().dom().contains(p.id) && final(self).pending()
                == old(self).pending().insert(p.id, CallState::Unresolved) && p.topic@
                == request_topic(service@, action@) && p.envelope@ == encoded_request(
                hex_of_id(p.id),
                service@,
                action@,
                payload@,
            ),
    {
        match self.registry.lookup(service) {
            None => Err(DispatchError::UnknownService),
            Some(d) => {
                if !caps_contain(&d.capabilities, action) {
                    Err(DispatchError::UnsupportedAction)
                } else {
                    let id = self.table.begin();
                    let id_hex = id_to_hex(id);
                    let topic = build_topic(service, action);
                    let envelope = build_request(&id_hex, service, action, payload);
                    Ok(PreparedCall { id, topic, envelope })
                }
            },
        }
    }

    /// Aborts a call whose request could not be published: the pending
    /// entry is discarded without waiting, and no reply can reach it.
    pub fn invoke_abort(&mut self, id: u128)
        requires
            old(self).wf(),
            old(self).pending().dom().contains(id),
        ensures
            final(self).wf(),
            final(self).services() == old(self).services(),
            final(self).pending() == old(self).pending().remove(id),
    {
        let _ = self.table.consume(id);
    }

    /// Settles a call after the wait: consumes and removes the pending
    /// entry, exactly once, and returns the one outcome — the reply payload
    /// if a reply resolved the call, `Timeout` if none did within the
    /// caller's bound. Immediately afterwards the identifier is gone from
    /// the table; a late reply for it is a no-op.
    pub fn invoke_finish(&mut self, id: u128) -> (r: Result<Vec<u8>, DispatchError>)
        requires
            old(self).wf(),
            old(self).pending().dom().contains(id),
        ensures
            final(self).wf(),
            final(self).services() == old(self).services(),
            final(self).pending() == old(self).pending().remove(id),
            !final(self).pending().dom().contains(id),
            old(self).pending()[id] is Resolved ==> (r matches Ok(p) && p@ == old(
                self,
            ).pending()[id]->Resolved_0),
            old(self).pending()[id] is Unresolved ==> r == Err::<Vec<u8>, DispatchError>(
                DispatchError::Timeout,
            ),
            old(self).pending()[id] is Failed ==> r == Err::<Vec<u8>, DispatchError>(
                DispatchError::TransportError,
            ),
    {
        match self.table.consume(id) {
            CallOutcome::Resolved(p) => Ok(p),
            CallOutcome::Unresolved => Err(DispatchError::Timeout),
            CallOutcome::Failed(_) => Err(DispatchError::TransportError),
        }
    }

    /// Handles one inbound delivery. Deliveries on topics the bridge itself
    /// publishes on are ignored; a delivery on the announcement topic that
    /// decodes as an announcement replaces that service's registry entry;
    /// any other delivery that decodes as a reply envelope resolves the
    /// matching pending call, if one is live and unresolved. A delivery
    /// that decodes as neither is dropped where it is: nothing changes and
    /// no pending call is woken.
    pub fn on_delivery(&mut self, topic: &Vec<u8>, payload: &Vec<u8>) -> (r: Delivery)
        requires
            old(self).wf(),
        ensures
            final(self).wf(),
            is_self_topic(topic@) ==> r == Delivery::SelfOriginated && final(self).services()
                == old(self).services() && final(self).pending() == old(self).pending(),
            (!is_self_topic(topic@) && topic@ == announce_topic()) ==> match announcement_of(
                payload@,
            ) {
                Some(a) => r == Delivery::Registered && final(self).services() == old(
                    self,
                ).services().insert(a.0, a.1) && final(self).pending() == old(self).pending(),
                None => r == Delivery::Malformed && final(self).services() == old(self).services()
                    && final(self).pending() == old(self).pending(),
            },
            (!is_self_topic(topic@) && topic@ != announce_topic()) ==> final(self).services()
                == old(self).services() && match reply_parts_of(payload@) {
                Some(q) => match parse_hex32(q.0) {
                    Some(id) => (r == Delivery::Matched(id) <==> resolve_hits(
                        old(self).pending(),
                        id,
                    )) && (r == Delivery::Matched(id) || r == Delivery::Unmatched)
                        && final(self).pending() == resolved(old(self).pending(), id, q.1),
                    None => r == Delivery::Malformed && final(self).pending() == old(
                        self,
                    ).pending(),
                },
                None => r == Delivery::Malformed && final(self).pending() == old(self).pending(),
            },
    {
        if is_self_topic_exec(topic) {
            return Delivery::SelfOriginated;
        }
        let ann = announce_topic_exec();
        if bytes_eq(topic, &ann) {
            match parse_announcement(payload) {
                Some((name, capabilities)) => {
                    self.registry.register(ServiceDescriptor { name, capabilities });
                    Delivery::Registered
                },
                None => Delivery::Malformed,
            }
        } else {
            match parse_reply(payload) {
                Some((id_bytes, reply_payload)) => match parse_hex_id(&id_bytes) {
                    Some(id) => {
                        if self.table.resolve(id, reply_payload) {
                            Delivery::Matched(id)
                        } else {
                            Delivery::Unmatched
                        }
                    },
                    None => Delivery::Malformed,
                },
                None => Delivery::Malformed,
            }
        }
    }
}

} // verus!
