//! The settings file's content, and the settings that the watchers read from it.

use crate::text::{copy_opt_string, opt_view};
use std::sync::Arc;
use vstd::prelude::*;

verus! {

/// The `docker` table of the settings file.
#[derive(Debug, Clone)]
pub struct DockerConfiguration {
    pub label_prefix: Option<String>,
}

/// The `acme` table of the settings file.
#[derive(Debug, Clone)]
pub struct AcmeConfiguration {
    pub email: String,
}

/// The settings file as read.
#[derive(Debug, Clone)]
pub struct Configuration {
    pub nginx_pid_file: String,
    pub servers_path: String,
    pub docker: Option<DockerConfiguration>,
    pub acme: Option<AcmeConfiguration>,
}

/// What the container-runtime watcher needs.
#[derive(Debug, Clone, PartialEq, Eq)]
pub struct DockerSettings {
    pub label_prefix: Option<String>,
}

impl DockerSettings {
    /// Present exactly when the file has a `docker` table; carries its label prefix.
    pub fn new(configuration: &Configuration) -> (r: Option<Self>)
        ensures
            r is Some <==> configuration.docker is Some,
            r matches Some(d) ==> opt_view(d.label_prefix) == opt_view(
                configuration.docker->Some_0.label_prefix,
            ),
    {
        match &configuration.docker {
            Some(docker) => Some(DockerSettings { label_prefix: copy_opt_string(&docker.label_prefix) }),
            None => None,
        }
    }
}

/// Where the proxy's files are.
#[derive(Debug, Clone, PartialEq, Eq)]
pub struct NginxSettings {
    pub pid_file_path: String,
    pub servers_path: String,
}

impl NginxSettings {
    pub fn new(configuration: &Configuration) -> (r: Self)
        ensures
            r.servers_path@ == configuration.servers_path@,
            r.pid_file_path@ == configuration.nginx_pid_file@,
    {
        NginxSettings {
            servers_path: configuration.servers_path.clone(),
            pid_file_path: configuration.nginx_pid_file.clone(),
        }
    }
}

/// The settings shared, read-only, by every watcher.
#[derive(Debug)]
pub struct Inner {
    pub nginx: NginxSettings,
    pub docker: Option<DockerSettings>,
}

/// A cheap handle on the shared settings.
#[derive(Debug, Clone)]
pub struct Settings {
    inner: Arc<Inner>,
}

impl Settings {
    /// The shared settings.
    pub closed spec fn spec_inner(&self) -> Inner {
        *self.inner
    }

    pub fn new(configuration: &Configuration) -> (r: Self)
        ensures
            r.spec_inner().nginx.servers_path@ == configuration.servers_path@,
            r.spec_inner().nginx.pid_file_path@ == configuration.nginx_pid_file@,
            r.spec_inner().docker is Some <==> configuration.docker is Some,
            r.spec_inner().docker matches Some(d) ==> opt_view(d.label_prefix) == opt_view(
                configuration.docker->Some_0.label_prefix,
            ),
    {
        Settings {
            inner: Arc::new(
                Inner {
                    nginx: NginxSettings::new(configuration),
                    docker: DockerSettings::new(configuration),
                },
            ),
        }
    }
}

impl std::ops::Deref for Settings {
    type Target = Inner;

    fn deref(&self) -> &Inner {
        &self.inner
    }
}

} // verus!
