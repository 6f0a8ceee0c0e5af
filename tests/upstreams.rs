use nis::reconcile::ServiceGroup;
use nis::service::ServiceConfiguration;
use nis::upstream::{upstreams_of, Upstream};

fn replica(host: &str, port: Option<i16>) -> ServiceConfiguration {
    ServiceConfiguration {
        id: host.to_string(),
        state: "running".to_string(),
        name: "web".to_string(),
        port,
        path: port.map(|p| p.to_string()),
        host: host.to_string(),
    }
}

#[test]
fn one_upstream_per_replica() {
    let group = ServiceGroup {
        name: "web".to_string(),
        services: vec![replica("10.0.0.1", Some(8000)), replica("10.0.0.2", None), replica("10.0.0.3", Some(-5)), replica("10.0.0.4", Some(0))],
    };
    assert_eq!(
        upstreams_of(&group, 3),
        vec![
            Upstream { address: "10.0.0.1".to_string(), port: 8000, weight: 3 },
            Upstream { address: "10.0.0.2".to_string(), port: 80, weight: 3 },
            Upstream { address: "10.0.0.3".to_string(), port: 80, weight: 3 },
            Upstream { address: "10.0.0.4".to_string(), port: 80, weight: 3 },
        ]
    );
}
