//! Service descriptors: which containers are proxied, and how, read from their labels.

use crate::settings::{DockerSettings, NginxSettings};
use crate::text::{copy_opt_string, decimal_in_range, opt_view, parse_decimal};
use vstd::prelude::*;

verus! {

/// Label whose presence marks a container as proxied; its value is the service name.
pub const SERVICE_MARKER_LABEL: &'static str = "service";

/// Label holding the address the proxy forwards to.
pub const SERVICE_HOST_LABEL: &'static str = "service-host";

/// Label holding the protocol the service speaks.
pub const SERVICE_PROTO_LABEL: &'static str = "service-protocol";

/// Label holding the port the service listens on.
pub const SERVICE_PORT_LABEL: &'static str = "service-port";

/// One container as the runtime lists it: the fields that extraction reads.
#[derive(Debug, Clone, PartialEq, Eq)]
pub struct ContainerRecord {
    pub id: Option<String>,
    pub state: Option<String>,
    pub labels: Option<Vec<(String, String)>>,
}

/// The labels of a container; a container listed without labels has none.
pub open spec fn labels_of(record: ContainerRecord) -> Seq<(String, String)> {
    match record.labels {
        Some(l) => l@,
        None => Seq::empty(),
    }
}

/// The value of the first label named `key`.
pub open spec fn label_value(labels: Seq<(String, String)>, key: Seq<char>) -> Option<Seq<char>>
    decreases labels.len(),
{
    if labels.len() == 0 {
        None
    } else if labels[0].0@ == key {
        Some(labels[0].1@)
    } else {
        label_value(labels.drop_first(), key)
    }
}

/// Looks up the first label named `key`.
pub fn find_label<'a>(labels: &'a Vec<(String, String)>, key: &String) -> (r: Option<&'a String>)
    ensures
        r matches Some(v) ==> label_value(labels@, key@) == Some(v@),
        r is None ==> label_value(labels@, key@) is None,
{
    let mut i: usize = 0;
    assert(labels@.subrange(0, labels@.len() as int) =~= labels@);
    while i < labels.len()
        invariant
            i <= labels@.len(),
            label_value(labels@, key@) == label_value(labels@.subrange(i as int, labels@.len() as int), key@),
        decreases labels.len() - i,
    {
        let ghost rest = labels@.subrange(i as int, labels@.len() as int);
        assert(rest.drop_first() =~= labels@.subrange(i + 1, labels@.len() as int));
        if labels[i].0 == *key {
            return Some(&labels[i].1);
        }
        i = i + 1;
    }
    None
}

/// How labels are named for one watcher: a prefix put before each well-known suffix.
#[derive(Debug, Clone)]
pub struct Config {
    pub nginx: NginxSettings,
    pub label_prefix: Option<String>,
}

impl Config {
    /// The full label name for `suffix`.
    pub open spec fn spec_label(&self, suffix: Seq<char>) -> Seq<char> {
        match self.label_prefix {
            Some(p) => p@ + suffix,
            None => suffix,
        }
    }

    pub fn new(nginx: &NginxSettings, docker: DockerSettings) -> (r: Self)
        ensures
            r.nginx.servers_path@ == nginx.servers_path@,
            r.nginx.pid_file_path@ == nginx.pid_file_path@,
            opt_view(r.label_prefix) == opt_view(docker.label_prefix),
    {
        Config {
            nginx: NginxSettings {
                pid_file_path: nginx.pid_file_path.clone(),
                servers_path: nginx.servers_path.clone(),
            },
            label_prefix: docker.label_prefix,
        }
    }

    /// The configured prefix followed by `label`.
    pub fn with_label_prefix(&self, label: &str) -> (r: String)
        ensures
            r@ == self.spec_label(label@),
    {
        match &self.label_prefix {
            Some(prefix) => {
                let mut full = prefix.clone();
                full.append(label);
                full
            },
            None => String::from_str(label),
        }
    }
}

/// A service descriptor, as values.
pub struct ServiceModel {
    pub id: Seq<char>,
    pub state: Seq<char>,
    pub name: Seq<char>,
    pub port: Option<i16>,
    pub path: Option<Seq<char>>,
    pub host: Seq<char>,
}

/// One proxied backend, read from one container.
#[derive(Debug, Clone, PartialEq, Eq)]
pub struct ServiceConfiguration {
    /// The runtime's identifier of the container.
    pub id: String,
    /// The container's lifecycle state when it was listed.
    pub state: String,
    /// The service name: the marker label's value.
    pub name: String,
    /// The port label, read as a number.
    pub port: Option<i16>,
    /// The port label's text as written, kept as the routing path.
    pub path: Option<String>,
    /// The host label: where the proxy forwards to.
    pub host: String,
}

impl View for ServiceConfiguration {
    type V = ServiceModel;

    open spec fn view(&self) -> ServiceModel {
        ServiceModel {
            id: self.id@,
            state: self.state@,
            name: self.name@,
            port: self.port,
            path: opt_view(self.path),
            host: self.host@,
        }
    }
}

/// Why a marked container yields no descriptor.
#[derive(Debug, Clone, Copy, PartialEq, Eq, Structural)]
pub enum ExtractError {
    /// The runtime gave the container no identifier.
    MissingId,
    /// The runtime gave the container no lifecycle state.
    MissingState,
    /// The host label is absent.
    MissingHost,
    /// The port label is not a decimal integer in `i16`'s range.
    InvalidPort,
}

/// The port a port label's text gives, when it is valid.
pub open spec fn port_of(text: Seq<char>) -> Option<i16> {
    match decimal_in_range(text, -32768, 32767) {
        Some(v) => Some(v as i16),
        None => None,
    }
}

/// What extraction yields for `record` under the label names of `config`.
pub open spec fn spec_extract(config: Config, record: ContainerRecord) -> Result<
    Option<ServiceModel>,
    ExtractError,
> {
    let labels = labels_of(record);
    match label_value(labels, config.spec_label(SERVICE_MARKER_LABEL@)) {
        None => Ok(None),
        Some(name) => {
            let host = label_value(labels, config.spec_label(SERVICE_HOST_LABEL@));
            let port_text = label_value(labels, config.spec_label(SERVICE_PORT_LABEL@));
            if record.id is None {
                Err(ExtractError::MissingId)
            } else if record.state is None {
                Err(ExtractError::MissingState)
            } else if host is None {
                Err(ExtractError::MissingHost)
            } else if port_text matches Some(t) && port_of(t) is None {
                Err(ExtractError::InvalidPort)
            } else {
                Ok(
                    Some(
                        ServiceModel {
                            id: record.id->Some_0@,
                            state: record.state->Some_0@,
                            name,
                            port: match port_text {
                                Some(t) => port_of(t),
                                None => None,
                            },
                            path: port_text,
                            host: host->Some_0,
                        },
                    ),
                )
            }
        },
    }
}

/// The value view of an extraction result.
pub open spec fn extraction_view(r: Result<Option<ServiceConfiguration>, ExtractError>) -> Result<
    Option<ServiceModel>,
    ExtractError,
> {
    match r {
        Ok(Some(d)) => Ok(Some(d@)),
        Ok(None) => Ok(None),
        Err(e) => Err(e),
    }
}

/// A container without the marker label is skipped: extraction yields no
/// descriptor and no error.
pub proof fn lemma_unmarked_container_skipped(config: Config, record: ContainerRecord)
    requires
        label_value(labels_of(record), config.spec_label(SERVICE_MARKER_LABEL@)) is None,
    ensures
        spec_extract(config, record) == Ok::<Option<ServiceModel>, ExtractError>(None),
{
}

/// A container with the marker label but without the host label yields an
/// error and no descriptor.
pub proof fn lemma_marked_without_host_rejected(config: Config, record: ContainerRecord)
    requires
        label_value(labels_of(record), config.spec_label(SERVICE_MARKER_LABEL@)) is Some,
        label_value(labels_of(record), config.spec_label(SERVICE_HOST_LABEL@)) is None,
    ensures
        spec_extract(config, record) is Err,
{
}

impl ServiceConfiguration {
    /// Reads the descriptor of `summary`: none for an unmarked container, an
    /// error for a marked one that lacks what a descriptor needs.
    pub fn new(config: &Config, summary: &ContainerRecord) -> (r: Result<Option<Self>, ExtractError>)
        ensures
            extraction_view(r) == spec_extract(*config, *summary),
    {
        let empty: Vec<(String, String)> = Vec::new();
        let labels = match &summary.labels {
            Some(l) => l,
            None => &empty,
        };
        assert(labels@ == labels_of(*summary));
        let marker = config.with_label_prefix(SERVICE_MARKER_LABEL);
        let name = match find_label(labels, &marker) {
            None => {
                return Ok(None);
            },
            Some(name) => name,
        };
        let id = match &summary.id {
            Some(id) => id,
            None => {
                return Err(ExtractError::MissingId);
            },
        };
        let state = match &summary.state {
            Some(state) => state,
            None => {
                return Err(ExtractError::MissingState);
            },
        };
        let host = match find_label(labels, &config.with_label_prefix(SERVICE_HOST_LABEL)) {
            Some(host) => host,
            None => {
                return Err(ExtractError::MissingHost);
            },
        };
        let port_text = find_label(labels, &config.with_label_prefix(SERVICE_PORT_LABEL));
        let port = match port_text {
            Some(text) => match parse_decimal(text.as_str(), -32768, 32767) {
                Some(v) => Some(v as i16),
                None => {
                    return Err(ExtractError::InvalidPort);
                },
            },
            None => None,
        };
        let path = match port_text {
            Some(text) => Some(text.clone()),
            None => None,
        };
        Ok(
            Some(
                ServiceConfiguration {
                    id: id.clone(),
                    state: state.clone(),
                    name: name.clone(),
                    port,
                    path,
                    host: host.clone(),
                },
            ),
        )
    }

    /// A copy with the same fields.
    pub fn duplicate(&self) -> (r: Self)
        ensures
            r@ == self@,
    {
        ServiceConfiguration {
            id: self.id.clone(),
            state: self.state.clone(),
            name: self.name.clone(),
            port: self.port,
            path: copy_opt_string(&self.path),
            host: self.host.clone(),
        }
    }
}

} // verus!
