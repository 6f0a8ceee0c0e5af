use nis::reconcile::{apply_operations, group_services, reconcile, AppliedState, ServiceGroup, ServiceOperation};
use nis::service::ServiceConfiguration;
use nis::state_store::{append_state, previous_state};
use nis::sync::{plan_pass, PassOutcome};

fn svc(id: &str, name: &str, host: &str, port: i16) -> ServiceConfiguration {
    ServiceConfiguration {
        id: id.to_string(),
        state: "running".to_string(),
        name: name.to_string(),
        port: Some(port),
        path: Some(port.to_string()),
        host: host.to_string(),
    }
}

fn group(name: &str, services: Vec<ServiceConfiguration>) -> ServiceGroup {
    ServiceGroup { name: name.to_string(), services }
}

fn state(groups: Vec<ServiceGroup>) -> AppliedState {
    AppliedState { groups }
}

fn svc_a() -> ServiceConfiguration {
    svc("a1", "svcA", "10.0.0.1", 8000)
}

fn svc_b() -> ServiceConfiguration {
    svc("b1", "svcB", "10.0.0.2", 9000)
}

#[test]
fn new_service_re_adds_every_observed_group() {
    let previous = state(vec![group("svcA", vec![svc_a()])]);
    let observed = state(vec![group("svcA", vec![svc_a()]), group("svcB", vec![svc_b()])]);
    let ops = reconcile(&observed, &previous);
    assert_eq!(
        ops,
        vec![ServiceOperation::Add(group("svcA", vec![svc_a()])), ServiceOperation::Add(group("svcB", vec![svc_b()]))]
    );
}

#[test]
fn vanished_service_is_removed_before_adds() {
    let previous = state(vec![group("svcA", vec![svc_a()]), group("svcB", vec![svc_b()])]);
    let observed = state(vec![group("svcA", vec![svc_a()])]);
    let ops = reconcile(&observed, &previous);
    assert_eq!(
        ops,
        vec![ServiceOperation::Remove("svcB".to_string()), ServiceOperation::Add(group("svcA", vec![svc_a()]))]
    );
}

#[test]
fn identical_states_need_no_operation() {
    let s = state(vec![group("svcA", vec![svc_a()]), group("svcB", vec![svc_b()])]);
    assert_eq!(reconcile(&s, &s.clone()), vec![]);
    let empty = AppliedState::empty();
    assert_eq!(reconcile(&empty, &AppliedState::empty()), vec![]);
}

#[test]
fn replica_order_does_not_count_as_a_change() {
    let a2 = svc("a2", "svcA", "10.0.0.9", 8000);
    let previous = state(vec![group("svcA", vec![svc_a(), a2.clone()]), group("svcB", vec![svc_b()])]);
    let observed = state(vec![group("svcB", vec![svc_b()]), group("svcA", vec![a2, svc_a()])]);
    assert_eq!(reconcile(&observed, &previous), vec![]);
}

#[test]
fn changed_replicas_give_a_fresh_add() {
    let a2 = svc("a2", "svcA", "10.0.0.9", 8000);
    let previous = state(vec![group("svcA", vec![svc_a()])]);
    let observed = state(vec![group("svcA", vec![svc_a(), a2.clone()])]);
    assert_eq!(reconcile(&observed, &previous), vec![ServiceOperation::Add(group("svcA", vec![svc_a(), a2]))]);
}

#[test]
fn every_vanished_name_is_removed_once() {
    let c = svc("c1", "svcC", "10.0.0.3", 7000);
    let previous = state(vec![group("svcA", vec![svc_a()]), group("svcB", vec![svc_b()]), group("svcC", vec![c])]);
    let observed = state(vec![group("svcB", vec![svc_b()])]);
    let ops = reconcile(&observed, &previous);
    assert_eq!(
        ops,
        vec![
            ServiceOperation::Remove("svcA".to_string()),
            ServiceOperation::Remove("svcC".to_string()),
            ServiceOperation::Add(group("svcB", vec![svc_b()])),
        ]
    );
}

#[test]
fn grouping_collects_replicas_by_name() {
    let a2 = svc("a2", "svcA", "10.0.0.9", 8001);
    let grouped = group_services(&vec![svc_a(), svc_b(), a2.clone()]);
    assert_eq!(grouped, state(vec![group("svcA", vec![svc_a(), a2]), group("svcB", vec![svc_b()])]));
    assert_eq!(group_services(&vec![]), AppliedState::empty());
}

#[test]
fn applying_operations_replaces_and_drops_groups() {
    let a2 = svc("a2", "svcA", "10.0.0.9", 8001);
    let mut s = state(vec![group("svcA", vec![svc_a()]), group("svcB", vec![svc_b()])]);
    apply_operations(
        &mut s,
        vec![ServiceOperation::Remove("svcB".to_string()), ServiceOperation::Add(group("svcA", vec![svc_a(), a2.clone()]))],
    );
    assert_eq!(s, state(vec![group("svcA", vec![svc_a(), a2])]));
}

#[test]
fn applying_reconciliation_reaches_the_observed_state() {
    let previous = state(vec![group("svcA", vec![svc_a()]), group("svcB", vec![svc_b()])]);
    let observed = state(vec![group("svcB", vec![svc_b(), svc("b2", "svcB", "h", 1)])]);
    let mut s = previous.clone();
    apply_operations(&mut s, reconcile(&observed, &previous));
    assert_eq!(s, observed);
}

#[test]
fn first_run_adds_every_observed_service() {
    let previous = previous_state(None).unwrap();
    assert_eq!(previous, AppliedState::empty());
    let observed = state(vec![group("svcA", vec![svc_a()]), group("svcB", vec![svc_b()])]);
    let ops = reconcile(&observed, &previous);
    assert_eq!(
        ops,
        vec![ServiceOperation::Add(group("svcA", vec![svc_a()])), ServiceOperation::Add(group("svcB", vec![svc_b()]))]
    );
    match plan_pass(&observed, None) {
        PassOutcome::Write { state, operations } => {
            assert_eq!(state, observed);
            assert_eq!(operations, ops);
        }
        other => panic!("unexpected {:?}", other),
    }
}

#[test]
fn unchanged_pass_writes_nothing() {
    let observed = state(vec![group("svcA", vec![svc_a()])]);
    let text = append_state("upstream svcA {}\n", &observed).unwrap();
    assert_eq!(plan_pass(&observed, Some(text.as_str())), PassOutcome::Unchanged);
    assert_eq!(plan_pass(&AppliedState::empty(), None), PassOutcome::Unchanged);
}

#[test]
fn pass_over_a_malformed_file_is_skipped() {
    let observed = state(vec![group("svcA", vec![svc_a()])]);
    assert_eq!(
        plan_pass(&observed, Some("server {}\n")),
        PassOutcome::Skipped(nis::state_store::ReadError::MalformedPreamble)
    );
}
