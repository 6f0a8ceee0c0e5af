use nis::docker::{extract_services, find_container, process_event, ContainerChange, LookupError, RuntimeEvent};
use nis::service::{Config, ContainerRecord, ExtractError, ServiceConfiguration};
use nis::settings::{DockerSettings, NginxSettings};
use nis::text::parse_decimal;

fn nginx() -> NginxSettings {
    NginxSettings { pid_file_path: "/run/nginx.pid".to_string(), servers_path: "/etc/nginx/servers".to_string() }
}

fn config(prefix: Option<&str>) -> Config {
    Config::new(&nginx(), DockerSettings { label_prefix: prefix.map(|p| p.to_string()) })
}

fn container(id: Option<&str>, state: Option<&str>, labels: &[(&str, &str)]) -> ContainerRecord {
    ContainerRecord {
        id: id.map(|s| s.to_string()),
        state: state.map(|s| s.to_string()),
        labels: Some(labels.iter().map(|(k, v)| (k.to_string(), v.to_string())).collect()),
    }
}

#[test]
fn label_prefix_is_prepended() {
    assert_eq!(config(Some("nis.")).with_label_prefix("service"), "nis.service");
    assert_eq!(config(Some("")).with_label_prefix("service-host"), "service-host");
    assert_eq!(config(None).with_label_prefix("service-port"), "service-port");
}

#[test]
fn unmarked_container_yields_nothing() {
    let c = container(Some("c1"), Some("running"), &[("other", "x"), ("service-host", "10.0.0.1")]);
    assert_eq!(ServiceConfiguration::new(&config(None), &c), Ok(None));
}

#[test]
fn container_without_labels_yields_nothing() {
    let c = ContainerRecord { id: Some("c1".to_string()), state: Some("running".to_string()), labels: None };
    assert_eq!(ServiceConfiguration::new(&config(None), &c), Ok(None));
}

#[test]
fn marker_under_another_prefix_is_not_a_marker() {
    let c = container(Some("c1"), Some("running"), &[("service", "web"), ("service-host", "10.0.0.1")]);
    assert_eq!(ServiceConfiguration::new(&config(Some("nis.")), &c), Ok(None));
}

#[test]
fn marked_container_without_host_is_an_error() {
    let c = container(Some("c1"), Some("running"), &[("service", "web"), ("service-port", "80")]);
    assert_eq!(ServiceConfiguration::new(&config(None), &c), Err(ExtractError::MissingHost));
}

#[test]
fn marked_container_without_id_or_state_is_an_error() {
    let labels = [("service", "web"), ("service-host", "10.0.0.1")];
    assert_eq!(
        ServiceConfiguration::new(&config(None), &container(None, Some("running"), &labels)),
        Err(ExtractError::MissingId)
    );
    assert_eq!(
        ServiceConfiguration::new(&config(None), &container(Some("c1"), None, &labels)),
        Err(ExtractError::MissingState)
    );
}

#[test]
fn port_out_of_range_is_an_error() {
    let cfg = config(None);
    for bad in ["40000", "-32769", "80a", "", "+", " 80"] {
        let c = container(Some("c1"), Some("running"), &[("service", "web"), ("service-host", "h"), ("service-port", bad)]);
        assert_eq!(ServiceConfiguration::new(&cfg, &c), Err(ExtractError::InvalidPort), "port {:?}", bad);
    }
}

#[test]
fn marked_container_yields_descriptor() {
    let c = container(
        Some("c1"),
        Some("running"),
        &[("nis.service", "web"), ("nis.service-host", "10.0.0.1"), ("nis.service-port", "8000")],
    );
    let d = ServiceConfiguration::new(&config(Some("nis.")), &c).unwrap().unwrap();
    assert_eq!(d.id, "c1");
    assert_eq!(d.state, "running");
    assert_eq!(d.name, "web");
    assert_eq!(d.host, "10.0.0.1");
    assert_eq!(d.port, Some(8000));
    assert_eq!(d.path, Some("8000".to_string()));
}

#[test]
fn descriptor_without_port() {
    let c = container(Some("c2"), Some("exited"), &[("service", "api"), ("service-host", "api.local")]);
    let d = ServiceConfiguration::new(&config(None), &c).unwrap().unwrap();
    assert_eq!(d.port, None);
    assert_eq!(d.path, None);
    assert_eq!(d.state, "exited");
}

#[test]
fn first_label_of_a_name_wins() {
    let c = container(Some("c1"), Some("running"), &[("service", "web"), ("service-host", "a"), ("service-host", "b")]);
    assert_eq!(ServiceConfiguration::new(&config(None), &c).unwrap().unwrap().host, "a");
}

#[test]
fn decimal_parsing_follows_signed_integer_text() {
    assert_eq!(parse_decimal("32767", -32768, 32767), Some(32767));
    assert_eq!(parse_decimal("-32768", -32768, 32767), Some(-32768));
    assert_eq!(parse_decimal("+12", -32768, 32767), Some(12));
    assert_eq!(parse_decimal("0007", -32768, 32767), Some(7));
    assert_eq!(parse_decimal("32768", -32768, 32767), None);
    assert_eq!(parse_decimal("99999999999999999999", -32768, 32767), None);
    assert_eq!(parse_decimal("-", -32768, 32767), None);
    assert_eq!(parse_decimal("1_000", -32768, 32767), None);
}

#[test]
fn one_bad_container_does_not_stop_the_batch() {
    let cfg = config(None);
    let containers = vec![
        container(Some("a"), Some("running"), &[("service", "web"), ("service-host", "10.0.0.1")]),
        container(Some("b"), Some("running"), &[("service", "web")]),
        container(Some("c"), Some("running"), &[("unrelated", "1")]),
        container(Some("d"), Some("running"), &[("service", "api"), ("service-host", "10.0.0.2"), ("service-port", "x")]),
        container(Some("e"), Some("running"), &[("service", "api"), ("service-host", "10.0.0.3")]),
    ];
    let (services, errors) = extract_services(&cfg, &containers);
    let ids: Vec<&str> = services.iter().map(|s| s.id.as_str()).collect();
    assert_eq!(ids, vec!["a", "e"]);
    assert_eq!(errors, vec![ExtractError::MissingHost, ExtractError::InvalidPort]);
}

fn event(is_container: bool, action: Option<&str>, id: Option<&str>) -> RuntimeEvent {
    RuntimeEvent { is_container, action: action.map(|s| s.to_string()), actor_id: id.map(|s| s.to_string()) }
}

#[test]
fn start_and_stop_events_are_changes() {
    assert_eq!(process_event(&event(true, Some("start"), Some("c1"))), Some(ContainerChange::Started("c1".to_string())));
    assert_eq!(process_event(&event(true, Some("stop"), Some("c1"))), Some(ContainerChange::Stopped("c1".to_string())));
    assert_eq!(process_event(&event(true, Some("die"), Some("c1"))), None);
    assert_eq!(process_event(&event(false, Some("start"), Some("c1"))), None);
    assert_eq!(process_event(&event(true, Some("start"), None)), None);
    assert_eq!(process_event(&event(true, None, Some("c1"))), None);
}

#[test]
fn lookup_by_identifier() {
    let a = container(Some("a"), Some("running"), &[]);
    let b = container(Some("b"), Some("running"), &[]);
    assert_eq!(find_container(vec![]), Ok(None));
    assert_eq!(find_container(vec![a.clone()]), Ok(Some(a.clone())));
    assert_eq!(find_container(vec![a, b]), Err(LookupError::Ambiguous));
}
