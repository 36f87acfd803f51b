use balancer::health::{
    record_cycle, record_probe, ProbeReport, ProbeResult, DEFAULT_PROBE_PERIOD_MILLIS,
};
use balancer::registry::HostRegistry;

fn registry(addresses: &[&str]) -> HostRegistry {
    let owned: Vec<String> = addresses.iter().map(|a| a.to_string()).collect();
    HostRegistry::new(&owned)
}

fn report(address: &str, result: ProbeResult) -> ProbeReport {
    ProbeReport { address: address.to_string(), result }
}

#[test]
fn default_period_is_one_minute() {
    assert_eq!(DEFAULT_PROBE_PERIOD_MILLIS, 60 * 1000);
}

#[test]
fn success_statuses_are_healthy() {
    assert!(ProbeResult::Status(200).is_healthy());
    assert!(ProbeResult::Status(204).is_healthy());
    assert!(ProbeResult::Status(299).is_healthy());
}

#[test]
fn other_statuses_are_unhealthy() {
    assert!(!ProbeResult::Status(0).is_healthy());
    assert!(!ProbeResult::Status(100).is_healthy());
    assert!(!ProbeResult::Status(199).is_healthy());
    assert!(!ProbeResult::Status(300).is_healthy());
    assert!(!ProbeResult::Status(301).is_healthy());
    assert!(!ProbeResult::Status(404).is_healthy());
    assert!(!ProbeResult::Status(500).is_healthy());
    assert!(!ProbeResult::Status(503).is_healthy());
    assert!(!ProbeResult::Status(u16::MAX).is_healthy());
}

#[test]
fn probe_errors_are_unhealthy() {
    assert!(!ProbeResult::Unreachable.is_healthy());
    assert!(!ProbeResult::TimedOut.is_healthy());
}

#[test]
fn first_success_is_a_transition() {
    let mut r = registry(&["a", "b"]);
    let event = record_probe(&mut r, "a", ProbeResult::Status(200)).unwrap();
    assert_eq!(event.address, "a");
    assert!(event.healthy);
    assert_eq!(r.is_healthy(0), Some(true));
    assert_eq!(r.is_healthy(1), Some(false));
}

#[test]
fn repeated_result_is_no_transition() {
    let mut r = registry(&["a"]);
    assert!(record_probe(&mut r, "a", ProbeResult::Status(200)).is_some());
    assert!(record_probe(&mut r, "a", ProbeResult::Status(200)).is_none());
    assert!(record_probe(&mut r, "a", ProbeResult::Status(204)).is_none());
    assert_eq!(r.is_healthy(0), Some(true));
    let down = record_probe(&mut r, "a", ProbeResult::Status(500)).unwrap();
    assert!(!down.healthy);
    assert!(record_probe(&mut r, "a", ProbeResult::Unreachable).is_none());
    assert!(record_probe(&mut r, "a", ProbeResult::TimedOut).is_none());
    assert_eq!(r.is_healthy(0), Some(false));
}

#[test]
fn failure_of_an_unhealthy_host_is_no_transition() {
    let mut r = registry(&["a"]);
    assert!(record_probe(&mut r, "a", ProbeResult::Unreachable).is_none());
    assert_eq!(r.is_healthy(0), Some(false));
}

#[test]
fn probe_of_an_unknown_address_is_ignored() {
    let mut r = registry(&["a"]);
    assert!(record_probe(&mut r, "b", ProbeResult::Status(200)).is_none());
    assert_eq!(r.healthy_count(), 0);
}

#[test]
fn cycle_reports_only_the_changes() {
    let mut r = registry(&["a", "b", "c"]);
    let first = vec![
        report("a", ProbeResult::Status(200)),
        report("b", ProbeResult::Unreachable),
        report("c", ProbeResult::Status(204)),
    ];
    let events = record_cycle(&mut r, &first);
    assert_eq!(events.len(), 2);
    assert_eq!(events[0].address, "a");
    assert!(events[0].healthy);
    assert_eq!(events[1].address, "c");
    assert!(events[1].healthy);
    assert_eq!(r.snapshot_healthy(), vec![0, 2]);
    assert!(record_cycle(&mut r, &first).is_empty());
    assert_eq!(r.snapshot_healthy(), vec![0, 2]);
    let second = vec![
        report("a", ProbeResult::TimedOut),
        report("b", ProbeResult::Status(200)),
        report("c", ProbeResult::Status(200)),
    ];
    let events = record_cycle(&mut r, &second);
    assert_eq!(events.len(), 2);
    assert_eq!(events[0].address, "a");
    assert!(!events[0].healthy);
    assert_eq!(events[1].address, "b");
    assert!(events[1].healthy);
    assert_eq!(r.snapshot_healthy(), vec![1, 2]);
}

#[test]
fn empty_cycle_changes_nothing() {
    let mut r = registry(&["a"]);
    assert!(record_cycle(&mut r, &[]).is_empty());
    assert_eq!(r.healthy_count(), 0);
}

#[test]
fn cycle_does_not_move_the_cursor() {
    let mut r = registry(&["a", "b"]);
    r.select_next();
    record_cycle(&mut r, &[report("a", ProbeResult::Status(200))]);
    assert_eq!(r.cursor(), 0);
}

#[test]
fn dispatcher_and_monitor_mark_the_same_hosts() {
    let mut r = registry(&["a", "b"]);
    record_cycle(
        &mut r,
        &[report("a", ProbeResult::Status(200)), report("b", ProbeResult::Status(200))],
    );
    assert!(r.mark_unhealthy("a"));
    let event = record_probe(&mut r, "a", ProbeResult::Status(200)).unwrap();
    assert!(event.healthy);
    assert!(record_probe(&mut r, "b", ProbeResult::Status(200)).is_none());
}

#[test]
fn success_is_what_the_http_client_calls_success() {
    for code in 0..=u16::MAX {
        let expected = match reqwest::StatusCode::from_u16(code) {
            Ok(status) => status.is_success(),
            Err(_) => false,
        };
        assert_eq!(ProbeResult::Status(code).is_healthy(), expected);
    }
}
