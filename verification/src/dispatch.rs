//! The connection handler as a state machine.
//!
//! One `Dispatcher` handles one client connection. It decides; the
//! caller reads, connects and writes, and reports what happened. The
//! registry is touched in `select` alone, so that the caller holds its
//! lock for the selection and never across network input or output.

use vstd::prelude::*;
use crate::framing::{
    lemma_line_end_is, spec_blank_line, spec_content_length_name, spec_content_length_of,
    spec_decimal, spec_frame, spec_line_end, spec_scan_head, spec_separator, spec_strip,
    spec_strip_from, spec_unsigned, FramingError, HeadScan,
};
use crate::registry::{lemma_first_healthy, HostRegistry, RegistryView, Selection};

verus! {

/// Where the handling of one connection stands.
#[derive(Clone, Copy, Debug, PartialEq, Eq, Structural)]
pub enum Phase {
    /// The client's request is being read.
    ReadRequest,
    /// A host is to be selected. `failed` is the host that was tried last
    /// and could not be reached: it is marked unhealthy first.
    SelectHost { failed: Option<usize> },
    /// A connection to `host` is being opened and the request written.
    Forward { host: usize },
    /// The response of `host` is being read.
    ReadResponse { host: usize },
    /// The response of `host` is being written to the client.
    RelayResponse { host: usize },
    /// The response of `host` was relayed.
    Done { host: usize },
    /// No healthy host could be reached within one rotation.
    NoHostsAvailable,
    /// A message could not be framed: both sides are closed.
    Aborted,
}

/// What the caller reports.
#[derive(Clone, Copy, Debug, PartialEq, Eq, Structural)]
pub enum Event {
    /// The client's request was read in full.
    RequestRead,
    /// The client's request is malformed or truncated.
    RequestInvalid,
    /// The connection to the host is open and the request is written.
    Connected,
    /// The host refused the connection, broke it, or ran out of time.
    BackendFailed,
    /// The host's response was read in full.
    ResponseRead,
    /// The host's response is malformed or truncated.
    ResponseInvalid,
    /// The response was written to the client.
    Relayed,
}

/// What the caller is to do next.
#[derive(Clone, Copy, Debug, PartialEq, Eq, Structural)]
pub enum Action {
    /// Read the client's request, then report `RequestRead` or
    /// `RequestInvalid`.
    ReadRequest,
    /// Take the registry and call `select`.
    SelectHost,
    /// Connect to `host` and write the request, then report `Connected`
    /// or `BackendFailed`.
    Forward { host: usize },
    /// Read the response of `host`, then report `ResponseRead`,
    /// `ResponseInvalid` or `BackendFailed`.
    ReadResponse { host: usize },
    /// Write the response to the client, then report `Relayed`.
    RelayResponse { host: usize },
    /// Tell the client that no backend is available, then close.
    RespondUnavailable,
    /// Close the connection.
    Close,
}

impl Phase {
    /// Whether the handling has ended.
    pub open spec fn spec_is_terminal(self) -> bool {
        self is Done || self is NoHostsAvailable || self is Aborted
    }

    /// What the caller is to do in this phase.
    pub open spec fn spec_action(self) -> Action {
        match self {
            Phase::ReadRequest => Action::ReadRequest,
            Phase::SelectHost { .. } => Action::SelectHost,
            Phase::Forward { host } => Action::Forward { host },
            Phase::ReadResponse { host } => Action::ReadResponse { host },
            Phase::RelayResponse { host } => Action::RelayResponse { host },
            Phase::Done { .. } => Action::Close,
            Phase::NoHostsAvailable => Action::RespondUnavailable,
            Phase::Aborted => Action::Close,
        }
    }

    /// The phase that follows when the caller reports `event`. A host
    /// that failed sends the handling back to the selection; a message
    /// that cannot be framed ends it; a phase that has ended stays; an
    /// event that the phase does not wait for ends the handling too.
    pub open spec fn spec_after(self, event: Event) -> Phase {
        match (self, event) {
            (Phase::ReadRequest, Event::RequestRead) => Phase::SelectHost { failed: None },
            (Phase::Forward { host }, Event::Connected) => Phase::ReadResponse { host },
            (Phase::Forward { host }, Event::BackendFailed) => Phase::SelectHost {
                failed: Some(host),
            },
            (Phase::ReadResponse { host }, Event::ResponseRead) => Phase::RelayResponse { host },
            (Phase::ReadResponse { host }, Event::BackendFailed) => Phase::SelectHost {
                failed: Some(host),
            },
            (Phase::RelayResponse { host }, Event::Relayed) => Phase::Done { host },
            (Phase::Done { host }, _) => Phase::Done { host },
            (Phase::NoHostsAvailable, _) => Phase::NoHostsAvailable,
            _ => Phase::Aborted,
        }
    }

    /// Tells whether the handling has ended.
    pub fn is_terminal(&self) -> (ended: bool)
        ensures
            ended == self.spec_is_terminal(),
    {
        match self {
            Phase::Done { .. } => true,
            Phase::NoHostsAvailable => true,
            Phase::Aborted => true,
            _ => false,
        }
    }

    /// What the caller is to do in this phase.
    pub fn action(&self) -> (action: Action)
        ensures
            action == self.spec_action(),
    {
        match *self {
            Phase::ReadRequest => Action::ReadRequest,
            Phase::SelectHost { .. } => Action::SelectHost,
            Phase::Forward { host } => Action::Forward { host },
            Phase::ReadResponse { host } => Action::ReadResponse { host },
            Phase::RelayResponse { host } => Action::RelayResponse { host },
            Phase::Done { .. } => Action::Close,
            Phase::NoHostsAvailable => Action::RespondUnavailable,
            Phase::Aborted => Action::Close,
        }
    }
}

/// The handler of one client connection.
#[derive(Clone, Copy, Debug, PartialEq, Eq, Structural)]
pub struct Dispatcher {
    /// Where the handling stands.
    pub phase: Phase,
    /// How many selection attempts this request has used. One request
    /// uses at most as many as there are hosts.
    pub attempts: usize,
}

/// The selection attempts that are left to a request that has used
/// `attempts`, with `hosts` hosts.
pub open spec fn spec_budget(hosts: nat, attempts: nat) -> nat {
    if attempts < hosts {
        (hosts - attempts) as nat
    } else {
        0
    }
}

/// The registry after the failure of host `failed` is recorded: the host
/// is marked unhealthy by its address.
pub open spec fn spec_report(r: RegistryView, failed: Option<usize>) -> RegistryView {
    match failed {
        Some(host) => if host < r.hosts.len() {
            r.mark(r.hosts[host as int].address, false)
        } else {
            r
        },
        None => r,
    }
}

impl Dispatcher {
    /// The dispatcher and the registry after a selection. In the phase
    /// `SelectHost` the host that failed, if any, is marked unhealthy;
    /// then the rotation goes on from where it stood, for as many
    /// attempts as the request has left, to the first healthy host. In
    /// every other phase nothing changes.
    pub open spec fn spec_select(self, r: RegistryView) -> (Dispatcher, RegistryView) {
        match self.phase {
            Phase::SelectHost { failed } => {
                let marked = spec_report(r, failed);
                let budget = spec_budget(r.hosts.len(), self.attempts as nat);
                let used = marked.search_attempts(budget);
                (
                    Dispatcher {
                        phase: match marked.search_host(budget) {
                            Some(host) => Phase::Forward { host: host as usize },
                            None => Phase::NoHostsAvailable,
                        },
                        attempts: (self.attempts + used) as usize,
                    },
                    marked.advance(used),
                )
            },
            _ => (self, r),
        }
    }

    /// A dispatcher for a connection that was just accepted.
    pub fn new() -> (dispatcher: Dispatcher)
        ensures
            dispatcher == (Dispatcher { phase: Phase::ReadRequest, attempts: 0 }),
    {
        Dispatcher { phase: Phase::ReadRequest, attempts: 0 }
    }

    /// Takes what the caller reports and says what to do next.
    pub fn on_event(&mut self, event: Event) -> (action: Action)
        ensures
            final(self).phase == old(self).phase.spec_after(event),
            final(self).attempts == old(self).attempts,
            action == final(self).phase.spec_action(),
    {
        let next: Phase = match (self.phase, event) {
            (Phase::ReadRequest, Event::RequestRead) => Phase::SelectHost { failed: None },
            (Phase::Forward { host }, Event::Connected) => Phase::ReadResponse { host },
            (Phase::Forward { host }, Event::BackendFailed) => Phase::SelectHost {
                failed: Some(host),
            },
            (Phase::ReadResponse { host }, Event::ResponseRead) => Phase::RelayResponse { host },
            (Phase::ReadResponse { host }, Event::BackendFailed) => Phase::SelectHost {
                failed: Some(host),
            },
            (Phase::RelayResponse { host }, Event::Relayed) => Phase::Done { host },
            (Phase::Done { host }, _) => Phase::Done { host },
            (Phase::NoHostsAvailable, _) => Phase::NoHostsAvailable,
            _ => Phase::Aborted,
        };
        self.phase = next;
        next.action()
    }

    /// Selects the host to forward to. To be called with the registry
    /// held, in the phase `SelectHost`; in any other phase it changes
    /// nothing and repeats what that phase waits for.
    pub fn select(&mut self, registry: &mut HostRegistry) -> (action: Action)
        ensures
            (*final(self), final(registry)@) == old(self).spec_select(old(registry)@),
            final(registry)@.wf(),
            action == final(self).phase.spec_action(),
    {
        let hosts: usize = registry.len();
        let failed: Option<usize> = match self.phase {
            Phase::SelectHost { failed } => failed,
            _ => {
                return self.phase.action();
            },
        };
        if let Some(host) = failed {
            let address: Option<String> = match registry.address(host) {
                Some(a) => Some(a.clone()),
                None => None,
            };
            if let Some(a) = address {
                registry.mark_unhealthy(a.as_str());
            }
        }
        let budget: usize = if self.attempts < hosts {
            hosts - self.attempts
        } else {
            0
        };
        let found: Selection = registry.select_healthy(budget);
        proof {
            let marked = spec_report(old(registry)@, failed);
            if marked.hosts.len() > 0 {
                lemma_first_healthy(marked, 0, budget as nat);
            }
        }
        self.attempts = self.attempts + found.attempts;
        self.phase = match found.host {
            Some(host) => Phase::Forward { host },
            None => Phase::NoHostsAvailable,
        };
        self.phase.action()
    }
}

/// No report of the caller leads to `Forward`: a request is forwarded
/// on a selection alone.
pub proof fn lemma_reports_forward_nothing(phase: Phase, event: Event)
    ensures
        !(phase.spec_after(event) is Forward),
{
}

/// A selection forwards to a healthy host or to none: it ends in
/// `Forward` with a host that is healthy in the registry it leaves, or in
/// `NoHostsAvailable`.
pub proof fn lemma_forward_only_to_healthy(d: Dispatcher, r: RegistryView)
    requires
        r.wf(),
        d.phase is SelectHost,
    ensures
        d.spec_select(r).1.wf(),
        d.spec_select(r).0.phase is Forward || d.spec_select(r).0.phase is NoHostsAvailable,
        d.spec_select(r).0.phase matches Phase::Forward { host } ==> host < r.hosts.len()
            && d.spec_select(r).1.hosts[host as int].healthy,
{
    let marked = spec_report(r, d.phase->failed);
    let budget = spec_budget(r.hosts.len(), d.attempts as nat);
    if marked.hosts.len() > 0 {
        lemma_first_healthy(marked, 0, budget);
        let used = marked.search_attempts(budget);
        vstd::arithmetic::div_mod::lemma_mod_bound(
            (marked.cursor + used) as int,
            marked.hosts.len() as int,
        );
    }
}

/// One request makes at most one rotation: its selection attempts never
/// come to more than there are hosts.
pub proof fn lemma_one_rotation(d: Dispatcher, r: RegistryView)
    requires
        r.wf(),
        d.attempts <= r.hosts.len(),
    ensures
        d.spec_select(r).0.attempts <= r.hosts.len(),
        d.attempts <= d.spec_select(r).0.attempts,
{
    if d.phase is SelectHost {
        let marked = spec_report(r, d.phase->failed);
        let budget = spec_budget(r.hosts.len(), d.attempts as nat);
        if marked.hosts.len() > 0 {
            lemma_first_healthy(marked, 0, budget);
        }
    }
}

/// Failover: when the host that was selected cannot be reached, it is
/// marked unhealthy and the handling goes back to the selection, not to
/// the client. The selection then either finds another host, which is
/// healthy and has another address, or ends in `NoHostsAvailable`.
pub proof fn lemma_failover(r: RegistryView, attempts: usize, failed: usize)
    requires
        r.wf(),
        failed < r.hosts.len(),
    ensures
        (Phase::Forward { host: failed }).spec_after(Event::BackendFailed) == (Phase::SelectHost {
            failed: Some(failed),
        }),
        ({
            let retry = Dispatcher { phase: Phase::SelectHost { failed: Some(failed) }, attempts };
            let (after, registry) = retry.spec_select(r);
            &&& registry.hosts.len() == r.hosts.len()
            &&& !registry.hosts[failed as int].healthy
            &&& after.phase is Forward || after.phase is NoHostsAvailable
            &&& after.phase matches Phase::Forward { host } ==> host != failed && host
                < r.hosts.len() && registry.hosts[host as int].healthy
                && registry.hosts[host as int].address != r.hosts[failed as int].address
        }),
{
    let retry = Dispatcher { phase: Phase::SelectHost { failed: Some(failed) }, attempts };
    lemma_forward_only_to_healthy(retry, r);
}

/// Exhaustion: when no host is healthy, the selection forwards nothing
/// and ends in `NoHostsAvailable`, whose action is to tell the client
/// that no backend is available. The pool stays exhausted.
pub proof fn lemma_exhausted_pool(d: Dispatcher, r: RegistryView)
    requires
        r.wf(),
        r.exhausted(),
        d.phase is SelectHost,
    ensures
        d.spec_select(r).0.phase == Phase::NoHostsAvailable,
        d.spec_select(r).0.phase.spec_action() == Action::RespondUnavailable,
        d.spec_select(r).1.exhausted(),
{
    let marked = spec_report(r, d.phase->failed);
    let budget = spec_budget(r.hosts.len(), d.attempts as nat);
    assert(marked.exhausted());
    if marked.hosts.len() > 0 {
        lemma_first_healthy(marked, 0, budget);
    }
}

/// The response that tells a client that no backend is available: status
/// 503, no body, and the notice that the connection is closed. In text:
/// `HTTP/1.1 503 Service Unavailable`, `Content-Length: 0`,
/// `Connection: close` and a blank line, each line closed by CRLF.
pub open spec fn spec_unavailable_response() -> Seq<u8> {
    seq![
        72u8, 84u8, 84u8, 80u8, 47u8, 49u8, 46u8, 49u8, 32u8, 53u8, 48u8, 51u8, 32u8, 83u8,
        101u8, 114u8, 118u8, 105u8, 99u8, 101u8, 32u8, 85u8, 110u8, 97u8, 118u8, 97u8,
        105u8, 108u8, 97u8, 98u8, 108u8, 101u8, 13u8, 10u8, 67u8, 111u8, 110u8, 116u8,
        101u8, 110u8, 116u8, 45u8, 76u8, 101u8, 110u8, 103u8, 116u8, 104u8, 58u8, 32u8,
        48u8, 13u8, 10u8, 67u8, 111u8, 110u8, 110u8, 101u8, 99u8, 116u8, 105u8, 111u8,
        110u8, 58u8, 32u8, 99u8, 108u8, 111u8, 115u8, 101u8, 13u8, 10u8, 13u8, 10u8,
    ]
}

/// Builds the response that tells a client that no backend is available.
pub fn unavailable_response() -> (response: Vec<u8>)
    ensures
        response@ == spec_unavailable_response(),
        spec_frame(response@) == Ok::<int, FramingError>(response@.len() as int),
{
    let response: Vec<u8> = vec![
        72u8, 84u8, 84u8, 80u8, 47u8, 49u8, 46u8, 49u8, 32u8, 53u8, 48u8, 51u8, 32u8, 83u8,
        101u8, 114u8, 118u8, 105u8, 99u8, 101u8, 32u8, 85u8, 110u8, 97u8, 118u8, 97u8,
        105u8, 108u8, 97u8, 98u8, 108u8, 101u8, 13u8, 10u8, 67u8, 111u8, 110u8, 116u8,
        101u8, 110u8, 116u8, 45u8, 76u8, 101u8, 110u8, 103u8, 116u8, 104u8, 58u8, 32u8,
        48u8, 13u8, 10u8, 67u8, 111u8, 110u8, 110u8, 101u8, 99u8, 116u8, 105u8, 111u8,
        110u8, 58u8, 32u8, 99u8, 108u8, 111u8, 115u8, 101u8, 13u8, 10u8, 13u8, 10u8,
    ];
    proof {
        assert(response@ =~= spec_unavailable_response());
        lemma_unavailable_response_is_a_message();
    }
    response
}

/// Where the lines of the response end.
#[verifier::rlimit(50)]
proof fn lemma_response_lines()
    ensures
        spec_unavailable_response().len() == 74,
        spec_line_end(spec_unavailable_response(), 0) == Some(34int),
        spec_line_end(spec_unavailable_response(), 34) == Some(53int),
        spec_line_end(spec_unavailable_response(), 53) == Some(72int),
        spec_line_end(spec_unavailable_response(), 72) == Some(74int),
{
    let s = spec_unavailable_response();
    lemma_line_end_is(s, 0, 33);
    lemma_line_end_is(s, 34, 52);
    lemma_line_end_is(s, 53, 71);
    lemma_line_end_is(s, 72, 73);
}

/// The second line of the response declares an empty body.
#[verifier::rlimit(50)]
proof fn lemma_response_declares_no_body()
    ensures
        spec_content_length_of(spec_unavailable_response().subrange(34, 53)) == Ok::<
            Option<usize>,
            FramingError,
        >(Some(0usize)),
        spec_unavailable_response().subrange(34, 53) != spec_blank_line(),
{
    let line = spec_unavailable_response().subrange(34, 53);
    assert(line.len() == 19);
    assert(spec_separator(line, 0) == Some(14int)) by {
        reveal_with_fuel(spec_separator, 16);
    }
    assert(line.take(14) =~= spec_content_length_name());
    let value = line.skip(16);
    assert(value.len() == 3 && value[0] == 48 && value[1] == 13 && value[2] == 10);
    assert(spec_strip(value) =~= seq![48u8]) by {
        reveal_with_fuel(spec_strip_from, 4);
    }
    assert(spec_decimal(seq![48u8]) == 0) by {
        reveal_with_fuel(spec_decimal, 2);
        assert(seq![48u8].drop_last() =~= Seq::<u8>::empty());
    }
    assert(spec_unsigned(seq![48u8]) == seq![48u8]);
    assert(line.len() != spec_blank_line().len());
}

/// The third line of the response says nothing of the body.
#[verifier::rlimit(50)]
proof fn lemma_response_closes_connection()
    ensures
        spec_content_length_of(spec_unavailable_response().subrange(53, 72)) == Ok::<
            Option<usize>,
            FramingError,
        >(None),
        spec_unavailable_response().subrange(53, 72) != spec_blank_line(),
{
    let line = spec_unavailable_response().subrange(53, 72);
    assert(line.len() == 19);
    assert(spec_separator(line, 0) == Some(10int)) by {
        reveal_with_fuel(spec_separator, 12);
    }
    assert(line.take(10).len() != spec_content_length_name().len());
    assert(line.len() != spec_blank_line().len());
}

/// The response that tells of no backend is itself one whole message,
/// with an empty body.
#[verifier::rlimit(50)]
pub proof fn lemma_unavailable_response_is_a_message()
    ensures
        spec_frame(spec_unavailable_response()) == Ok::<int, FramingError>(
            spec_unavailable_response().len() as int,
        ),
{
    let s = spec_unavailable_response();
    lemma_response_lines();
    lemma_response_declares_no_body();
    lemma_response_closes_connection();
    assert(s.subrange(72, 74) =~= spec_blank_line());
    assert(spec_scan_head(s, 72, 0) == (HeadScan::Closed { end: 74, declared: 0 }));
    assert(spec_scan_head(s, 53, 0) == spec_scan_head(s, 72, 0));
    assert(spec_scan_head(s, 34, 0) == spec_scan_head(s, 53, 0));
}

} // verus!
