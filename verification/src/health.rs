//! The health monitor's decisions: how a probe is read, how its result
//! reaches the registry, and which changes of health are reported.
//!
//! Probing itself, and the waiting between two cycles, is the caller's
//! part. Results reach the registry by the address of the host, the same
//! way by which the dispatcher reports a host that could not be reached.

use vstd::prelude::*;
use crate::registry::{HostRegistry, RegistryView};

verus! {

/// The time between two probe cycles unless the caller chooses another,
/// in milliseconds.
pub const DEFAULT_PROBE_PERIOD_MILLIS: u64 = 60000;

/// What one health probe of one backend produced.
#[derive(Clone, Copy, Debug, PartialEq, Eq, Structural)]
pub enum ProbeResult {
    /// The backend answered with this HTTP status code.
    Status(u16),
    /// The connection could not be opened or broke before a status arrived.
    Unreachable,
    /// No answer arrived within the probe's time limit.
    TimedOut,
}

/// Whether a status code is in the 2xx class.
pub open spec fn spec_status_is_success(code: u16) -> bool {
    200 <= code <= 299
}

impl ProbeResult {
    /// A probe counts as healthy exactly when it produced a 2xx status.
    pub open spec fn spec_is_healthy(self) -> bool {
        match self {
            ProbeResult::Status(code) => spec_status_is_success(code),
            ProbeResult::Unreachable => false,
            ProbeResult::TimedOut => false,
        }
    }

    /// Decides whether this probe result marks the backend healthy.
    pub fn is_healthy(&self) -> (healthy: bool)
        ensures
            healthy == self.spec_is_healthy(),
    {
        match self {
            ProbeResult::Status(code) => 200 <= *code && *code <= 299,
            ProbeResult::Unreachable => false,
            ProbeResult::TimedOut => false,
        }
    }
}

/// The result of probing the host at `address`.
#[derive(Debug)]
pub struct ProbeReport {
    pub address: String,
    pub result: ProbeResult,
}

/// What a `ProbeReport` stands for in contracts.
pub struct ReportView {
    pub address: Seq<char>,
    pub result: ProbeResult,
}

impl View for ProbeReport {
    type V = ReportView;

    open spec fn view(&self) -> ReportView {
        ReportView { address: self.address@, result: self.result }
    }
}

/// A change of health: the host at `address` went over to `healthy`.
#[derive(Debug)]
pub struct HealthTransition {
    pub address: String,
    pub healthy: bool,
}

/// What a `HealthTransition` stands for in contracts.
pub struct TransitionView {
    pub address: Seq<char>,
    pub healthy: bool,
}

impl View for HealthTransition {
    type V = TransitionView;

    open spec fn view(&self) -> TransitionView {
        TransitionView { address: self.address@, healthy: self.healthy }
    }
}

/// The views of a run of reports.
pub open spec fn spec_reports(reports: Seq<ProbeReport>) -> Seq<ReportView> {
    Seq::new(reports.len(), |i: int| reports[i]@)
}

/// The views of a run of transitions.
pub open spec fn spec_transitions(events: Seq<HealthTransition>) -> Seq<TransitionView> {
    Seq::new(events.len(), |i: int| events[i]@)
}

/// The registry after these reports were recorded, one after the other.
pub open spec fn spec_cycle_registry(r: RegistryView, reports: Seq<ReportView>) -> RegistryView
    decreases reports.len(),
{
    if reports.len() == 0 {
        r
    } else {
        spec_cycle_registry(r, reports.drop_last()).mark(
            reports.last().address,
            reports.last().result.spec_is_healthy(),
        )
    }
}

/// The transitions that recording these reports brings about, in the
/// order of the reports: one for each report that changes the health of
/// its host, none for a report that confirms it.
pub open spec fn spec_cycle_events(r: RegistryView, reports: Seq<ReportView>) -> Seq<
    TransitionView,
>
    decreases reports.len(),
{
    if reports.len() == 0 {
        Seq::empty()
    } else {
        let before = spec_cycle_registry(r, reports.drop_last());
        let earlier = spec_cycle_events(r, reports.drop_last());
        let healthy = reports.last().result.spec_is_healthy();
        if before.changes(reports.last().address, healthy) {
            earlier.push(TransitionView { address: reports.last().address, healthy })
        } else {
            earlier
        }
    }
}

/// Records the result of one probe: the host at `address` is marked
/// healthy or unhealthy as the result says. A transition is returned
/// when, and only when, that changed the host's health.
pub fn record_probe(registry: &mut HostRegistry, address: &str, result: ProbeResult) -> (event:
    Option<HealthTransition>)
    ensures
        final(registry)@ == old(registry)@.mark(address@, result.spec_is_healthy()),
        event is Some == old(registry)@.changes(address@, result.spec_is_healthy()),
        event matches Some(t) ==> t@ == (TransitionView {
            address: address@,
            healthy: result.spec_is_healthy(),
        }),
{
    let healthy: bool = result.is_healthy();
    if registry.mark_health(address, healthy) {
        Some(HealthTransition { address: address.to_owned(), healthy })
    } else {
        None
    }
}

/// Records the results of one probe cycle, in the order given, and
/// returns the transitions that they brought about.
pub fn record_cycle(registry: &mut HostRegistry, reports: &[ProbeReport]) -> (events: Vec<
    HealthTransition,
>)
    ensures
        final(registry)@ == spec_cycle_registry(old(registry)@, spec_reports(reports@)),
        spec_transitions(events@) == spec_cycle_events(old(registry)@, spec_reports(reports@)),
{
    let ghost start = registry@;
    let ghost all = spec_reports(reports@);
    let mut events: Vec<HealthTransition> = Vec::new();
    let mut i: usize = 0;
    proof {
        assert(all.take(0) =~= Seq::<ReportView>::empty());
        assert(spec_transitions(events@) =~= Seq::<TransitionView>::empty());
    }
    while i < reports.len()
        invariant
            i <= reports.len(),
            start == old(registry)@,
            all == spec_reports(reports@),
            registry@ == spec_cycle_registry(start, all.take(i as int)),
            spec_transitions(events@) == spec_cycle_events(start, all.take(i as int)),
        decreases reports.len() - i,
    {
        let ghost before = events@;
        proof {
            assert(all.take(i + 1).drop_last() =~= all.take(i as int));
            assert(all.take(i + 1).last() == reports@[i as int]@);
        }
        match record_probe(registry, reports[i].address.as_str(), reports[i].result) {
            Some(t) => {
                events.push(t);
                proof {
                    assert(spec_transitions(events@) =~= spec_transitions(before).push(t@));
                }
            },
            None => {},
        }
        i += 1;
    }
    proof {
        assert(all.take(i as int) =~= all);
    }
    events
}

/// Health idempotence, probe by probe: a probe result that repeats the
/// one before it leaves the registry as it is and brings about no
/// transition.
pub proof fn lemma_repeated_probe_is_silent(r: RegistryView, address: Seq<char>, healthy: bool)
    ensures
        !r.mark(address, healthy).changes(address, healthy),
        r.mark(address, healthy).mark(address, healthy) == r.mark(address, healthy),
{
    let once = r.mark(address, healthy);
    assert(once.mark(address, healthy).hosts =~= once.hosts);
}

/// A report that changes nothing leaves the registry as it is.
pub proof fn lemma_confirming_probe(r: RegistryView, address: Seq<char>, healthy: bool)
    requires
        !r.changes(address, healthy),
    ensures
        r.mark(address, healthy) == r,
{
    assert forall|i: int| 0 <= i < r.hosts.len() implies r.mark(address, healthy).hosts[i]
        == r.hosts[i] by {
        if r.hosts[i].address == address {
            assert(r.hosts[i].healthy == healthy);
        }
    }
    assert(r.mark(address, healthy).hosts =~= r.hosts);
}

/// Whether no two reports are about the same address.
pub open spec fn spec_one_report_each(reports: Seq<ReportView>) -> bool {
    forall|i: int, j: int|
        0 <= i < j < reports.len() ==> (#[trigger] reports[i]).address != (
        #[trigger] reports[j]).address
}

/// Whether every report says what the registry already holds.
pub open spec fn spec_confirmed(r: RegistryView, reports: Seq<ReportView>) -> bool {
    forall|i: int|
        0 <= i < reports.len() ==> !r.changes(
            (#[trigger] reports[i]).address,
            reports[i].result.spec_is_healthy(),
        )
}

/// Reports that say what the registry already holds change nothing and
/// bring about no transition.
pub proof fn lemma_confirming_cycle(r: RegistryView, reports: Seq<ReportView>)
    requires
        spec_confirmed(r, reports),
    ensures
        spec_cycle_registry(r, reports) == r,
        spec_cycle_events(r, reports) == Seq::<TransitionView>::empty(),
    decreases reports.len(),
{
    if reports.len() > 0 {
        let earlier = reports.drop_last();
        assert forall|i: int| 0 <= i < earlier.len() implies !r.changes(
            (#[trigger] earlier[i]).address,
            earlier[i].result.spec_is_healthy(),
        ) by {
            assert(earlier[i] == reports[i]);
        }
        lemma_confirming_cycle(r, earlier);
        let last = reports.last();
        assert(last == reports[reports.len() - 1]);
        lemma_confirming_probe(r, last.address, last.result.spec_is_healthy());
    }
}

/// After a cycle with one report for each address, the registry holds
/// what every report said.
pub proof fn lemma_cycle_is_recorded(r: RegistryView, reports: Seq<ReportView>)
    requires
        spec_one_report_each(reports),
    ensures
        spec_confirmed(spec_cycle_registry(r, reports), reports),
    decreases reports.len(),
{
    if reports.len() > 0 {
        let earlier = reports.drop_last();
        let last = reports.last();
        let healthy = last.result.spec_is_healthy();
        assert forall|i: int, j: int| 0 <= i < j < earlier.len() implies (
        #[trigger] earlier[i]).address != (#[trigger] earlier[j]).address by {
            assert(earlier[i] == reports[i] && earlier[j] == reports[j]);
        }
        lemma_cycle_is_recorded(r, earlier);
        let before = spec_cycle_registry(r, earlier);
        let after = before.mark(last.address, healthy);
        assert forall|i: int| 0 <= i < reports.len() implies !after.changes(
            (#[trigger] reports[i]).address,
            reports[i].result.spec_is_healthy(),
        ) by {
            if i < reports.len() - 1 {
                assert(earlier[i] == reports[i]);
                assert(reports[i].address != reports[reports.len() - 1].address);
                assert(!before.changes(earlier[i].address, earlier[i].result.spec_is_healthy()));
                if after.changes(reports[i].address, reports[i].result.spec_is_healthy()) {
                    let k = choose|k: int|
                        0 <= k < after.hosts.len() && #[trigger] after.hosts[k].address
                            == reports[i].address && after.hosts[k].healthy
                            != reports[i].result.spec_is_healthy();
                    assert(before.hosts[k].address == reports[i].address);
                    assert(after.hosts[k] == before.hosts[k]);
                }
            }
        }
    }
}

/// Health idempotence, cycle by cycle: a cycle that holds one report for
/// each address and repeats the cycle before it leaves the registry as it
/// is and brings about no transition.
pub proof fn lemma_repeated_cycle_is_silent(r: RegistryView, reports: Seq<ReportView>)
    requires
        spec_one_report_each(reports),
    ensures
        spec_cycle_registry(spec_cycle_registry(r, reports), reports) == spec_cycle_registry(
            r,
            reports,
        ),
        spec_cycle_events(spec_cycle_registry(r, reports), reports) == Seq::<
            TransitionView,
        >::empty(),
{
    lemma_cycle_is_recorded(r, reports);
    lemma_confirming_cycle(spec_cycle_registry(r, reports), reports);
}

} // verus!
