use balancer::dispatch::{Action, Dispatcher, Event, Phase};
use balancer::registry::HostRegistry;

fn all_healthy(addresses: &[&str]) -> HostRegistry {
    let owned: Vec<String> = addresses.iter().map(|a| a.to_string()).collect();
    let mut r = HostRegistry::new(&owned);
    for a in addresses {
        r.mark_health(a, true);
    }
    r
}

/// One request whose connections all succeed: the host it reaches.
fn serve(registry: &mut HostRegistry) -> Option<usize> {
    let mut d = Dispatcher::new();
    assert_eq!(d.on_event(Event::RequestRead), Action::SelectHost);
    match d.select(registry) {
        Action::Forward { host } => {
            assert_eq!(d.on_event(Event::Connected), Action::ReadResponse { host });
            assert_eq!(d.on_event(Event::ResponseRead), Action::RelayResponse { host });
            assert_eq!(d.on_event(Event::Relayed), Action::Close);
            assert_eq!(d.phase, Phase::Done { host });
            Some(host)
        }
        Action::RespondUnavailable => {
            assert_eq!(d.phase, Phase::NoHostsAvailable);
            None
        }
        other => panic!("unexpected action {:?}", other),
    }
}

#[test]
fn new_dispatcher_reads_the_request() {
    let d = Dispatcher::new();
    assert_eq!(d.phase, Phase::ReadRequest);
    assert_eq!(d.attempts, 0);
    assert_eq!(d.phase.action(), Action::ReadRequest);
    assert!(!d.phase.is_terminal());
}

#[test]
fn request_goes_through_all_phases() {
    let mut r = all_healthy(&["a", "b"]);
    let mut d = Dispatcher::new();
    assert_eq!(d.on_event(Event::RequestRead), Action::SelectHost);
    assert_eq!(d.phase, Phase::SelectHost { failed: None });
    assert_eq!(d.select(&mut r), Action::Forward { host: 0 });
    assert_eq!(d.phase, Phase::Forward { host: 0 });
    assert_eq!(d.attempts, 1);
    assert_eq!(d.on_event(Event::Connected), Action::ReadResponse { host: 0 });
    assert_eq!(d.phase, Phase::ReadResponse { host: 0 });
    assert_eq!(d.on_event(Event::ResponseRead), Action::RelayResponse { host: 0 });
    assert_eq!(d.phase, Phase::RelayResponse { host: 0 });
    assert_eq!(d.on_event(Event::Relayed), Action::Close);
    assert_eq!(d.phase, Phase::Done { host: 0 });
    assert!(d.phase.is_terminal());
}

#[test]
fn three_hosts_one_fails_and_recovers() {
    let mut r = all_healthy(&["A", "B", "C"]);
    assert_eq!(serve(&mut r), Some(0));
    r.mark_unhealthy("A");
    assert_eq!(serve(&mut r), Some(1));
    r.mark_health("A", true);
    assert_eq!(serve(&mut r), Some(2));
    assert_eq!(serve(&mut r), Some(0));
}

#[test]
fn requests_rotate_and_are_shared_fairly() {
    let mut r = all_healthy(&["a", "b", "c"]);
    r.select_next();
    r.select_next();
    let chosen: Vec<usize> = (0..7).map(|_| serve(&mut r).unwrap()).collect();
    assert_eq!(chosen, vec![2, 0, 1, 2, 0, 1, 2]);
    let share = |host: usize| chosen.iter().filter(|h| **h == host).count();
    assert_eq!(share(0), 2);
    assert_eq!(share(1), 2);
    assert_eq!(share(2), 3);
    for requests in 3usize..20 {
        let mut r = all_healthy(&["a", "b", "c", "d"]);
        let chosen: Vec<usize> = (0..requests).map(|_| serve(&mut r).unwrap()).collect();
        for host in 0usize..4 {
            let share = chosen.iter().filter(|h| **h == host).count();
            assert!(share == requests / 4 || share == (requests + 3) / 4);
        }
    }
}

#[test]
fn unhealthy_host_is_passed_over() {
    let mut r = all_healthy(&["a", "b", "c"]);
    r.mark_unhealthy("a");
    let mut d = Dispatcher::new();
    d.on_event(Event::RequestRead);
    assert_eq!(d.select(&mut r), Action::Forward { host: 1 });
    assert_eq!(d.attempts, 2);
    assert_eq!(r.cursor(), 1);
}

#[test]
fn failed_connect_marks_the_host_and_retries_the_next() {
    let mut r = all_healthy(&["a", "b", "c"]);
    let mut d = Dispatcher::new();
    d.on_event(Event::RequestRead);
    assert_eq!(d.select(&mut r), Action::Forward { host: 0 });
    assert_eq!(d.on_event(Event::BackendFailed), Action::SelectHost);
    assert_eq!(d.phase, Phase::SelectHost { failed: Some(0) });
    assert_eq!(r.is_healthy(0), Some(true));
    assert_eq!(d.select(&mut r), Action::Forward { host: 1 });
    assert_eq!(r.is_healthy(0), Some(false));
    assert_eq!(r.is_healthy(1), Some(true));
    assert_eq!(d.attempts, 2);
    assert_eq!(d.on_event(Event::Connected), Action::ReadResponse { host: 1 });
}

#[test]
fn response_timeout_marks_the_host_and_retries_the_next() {
    let mut r = all_healthy(&["a", "b"]);
    let mut d = Dispatcher::new();
    d.on_event(Event::RequestRead);
    d.select(&mut r);
    d.on_event(Event::Connected);
    assert_eq!(d.on_event(Event::BackendFailed), Action::SelectHost);
    assert_eq!(d.select(&mut r), Action::Forward { host: 1 });
    assert_eq!(r.snapshot_healthy(), vec![1]);
}

#[test]
fn every_host_is_tried_at_most_once_for_one_request() {
    let mut r = all_healthy(&["a", "b", "c"]);
    let mut d = Dispatcher::new();
    d.on_event(Event::RequestRead);
    assert_eq!(d.select(&mut r), Action::Forward { host: 0 });
    d.on_event(Event::BackendFailed);
    assert_eq!(d.select(&mut r), Action::Forward { host: 1 });
    d.on_event(Event::BackendFailed);
    r.mark_health("a", true);
    assert_eq!(d.select(&mut r), Action::Forward { host: 2 });
    d.on_event(Event::BackendFailed);
    assert_eq!(d.select(&mut r), Action::RespondUnavailable);
    assert_eq!(d.phase, Phase::NoHostsAvailable);
    assert_eq!(d.attempts, 3);
    assert_eq!(r.snapshot_healthy(), vec![0]);
    assert!(d.phase.is_terminal());
}

#[test]
fn skipped_hosts_count_toward_the_rotation() {
    let mut r = all_healthy(&["a", "b", "c"]);
    r.mark_unhealthy("a");
    r.mark_unhealthy("b");
    let mut d = Dispatcher::new();
    d.on_event(Event::RequestRead);
    assert_eq!(d.select(&mut r), Action::Forward { host: 2 });
    assert_eq!(d.attempts, 3);
    d.on_event(Event::BackendFailed);
    r.mark_health("a", true);
    assert_eq!(d.select(&mut r), Action::RespondUnavailable);
    assert_eq!(r.cursor(), 2);
}

#[test]
fn exhausted_pool_forwards_nothing() {
    let owned = vec!["a".to_string(), "b".to_string()];
    let mut r = HostRegistry::new(&owned);
    let mut d = Dispatcher::new();
    d.on_event(Event::RequestRead);
    assert_eq!(d.select(&mut r), Action::RespondUnavailable);
    assert_eq!(d.phase, Phase::NoHostsAvailable);
    assert_eq!(d.attempts, 2);
    assert_eq!(d.on_event(Event::Connected), Action::RespondUnavailable);
    assert_eq!(d.phase, Phase::NoHostsAvailable);
    assert_eq!(serve(&mut r), None);
}

#[test]
fn no_hosts_at_all_is_an_exhausted_pool() {
    let mut r = HostRegistry::new(&[]);
    assert_eq!(serve(&mut r), None);
}

#[test]
fn malformed_request_aborts() {
    let mut d = Dispatcher::new();
    assert_eq!(d.on_event(Event::RequestInvalid), Action::Close);
    assert_eq!(d.phase, Phase::Aborted);
    assert!(d.phase.is_terminal());
    assert_eq!(d.on_event(Event::RequestRead), Action::Close);
    assert_eq!(d.phase, Phase::Aborted);
}

#[test]
fn malformed_response_aborts_without_blaming_the_host() {
    let mut r = all_healthy(&["a", "b"]);
    let mut d = Dispatcher::new();
    d.on_event(Event::RequestRead);
    d.select(&mut r);
    d.on_event(Event::Connected);
    assert_eq!(d.on_event(Event::ResponseInvalid), Action::Close);
    assert_eq!(d.phase, Phase::Aborted);
    assert_eq!(d.select(&mut r), Action::Close);
    assert_eq!(r.healthy_count(), 2);
}

#[test]
fn event_out_of_turn_aborts() {
    let mut d = Dispatcher::new();
    assert_eq!(d.on_event(Event::Connected), Action::Close);
    assert_eq!(d.phase, Phase::Aborted);
    let mut r = all_healthy(&["a"]);
    let mut d = Dispatcher::new();
    d.on_event(Event::RequestRead);
    assert_eq!(d.on_event(Event::RequestRead), Action::Close);
    assert_eq!(d.phase, Phase::Aborted);
    let mut d = Dispatcher::new();
    d.on_event(Event::RequestRead);
    d.select(&mut r);
    assert_eq!(d.on_event(Event::ResponseRead), Action::Close);
    assert_eq!(d.phase, Phase::Aborted);
}

#[test]
fn finished_request_stays_finished() {
    let mut r = all_healthy(&["a"]);
    let mut d = Dispatcher::new();
    d.on_event(Event::RequestRead);
    d.select(&mut r);
    d.on_event(Event::Connected);
    d.on_event(Event::ResponseRead);
    d.on_event(Event::Relayed);
    assert_eq!(d.on_event(Event::BackendFailed), Action::Close);
    assert_eq!(d.phase, Phase::Done { host: 0 });
    assert_eq!(d.select(&mut r), Action::Close);
    assert_eq!(r.cursor(), 0);
}

#[test]
fn select_outside_the_selection_changes_nothing() {
    let mut r = all_healthy(&["a", "b"]);
    let mut d = Dispatcher::new();
    assert_eq!(d.select(&mut r), Action::ReadRequest);
    assert_eq!(d.phase, Phase::ReadRequest);
    assert_eq!(r.cursor(), 1);
    d.on_event(Event::RequestRead);
    d.select(&mut r);
    assert_eq!(d.select(&mut r), Action::Forward { host: 0 });
    assert_eq!(r.cursor(), 0);
    assert_eq!(d.attempts, 1);
}

#[test]
fn a_failed_host_that_is_not_in_the_registry_is_ignored() {
    let mut r = all_healthy(&["a", "b"]);
    let mut d = Dispatcher { phase: Phase::SelectHost { failed: Some(7) }, attempts: 0 };
    assert_eq!(d.select(&mut r), Action::Forward { host: 0 });
    assert_eq!(r.healthy_count(), 2);
}
