//! What the container-runtime watcher decides from the runtime's listings and events.

use crate::service::{spec_extract, Config, ContainerRecord, ExtractError, ServiceConfiguration, ServiceModel};
use crate::reconcile::services_view;
use vstd::prelude::*;

verus! {

/// A lifecycle event as the runtime reports it.
#[derive(Debug, Clone)]
pub struct RuntimeEvent {
    /// The event concerns a container (not an image, network or volume).
    pub is_container: bool,
    /// The action tag, such as `start` or `stop`.
    pub action: Option<String>,
    /// The identifier of the object the event concerns.
    pub actor_id: Option<String>,
}

/// A container change that calls for a reconciliation pass.
#[derive(Debug, Clone, PartialEq, Eq)]
pub enum ContainerChange {
    Started(String),
    Stopped(String),
}

/// The change an event reports: a container that started or stopped, with its
/// identifier. Other events report none.
pub open spec fn spec_event_change(event: RuntimeEvent) -> Option<(bool, Seq<char>)> {
    if event.is_container && event.actor_id is Some && event.action is Some {
        let action = event.action->Some_0@;
        if action == "stop"@ {
            Some((false, event.actor_id->Some_0@))
        } else if action == "start"@ {
            Some((true, event.actor_id->Some_0@))
        } else {
            None
        }
    } else {
        None
    }
}

/// The value view of a change: whether it is a start, and the container's identifier.
pub open spec fn change_view(c: Option<ContainerChange>) -> Option<(bool, Seq<char>)> {
    match c {
        Some(ContainerChange::Started(id)) => Some((true, id@)),
        Some(ContainerChange::Stopped(id)) => Some((false, id@)),
        None => None,
    }
}

/// The container change that `event` reports, if any.
pub fn process_event(event: &RuntimeEvent) -> (r: Option<ContainerChange>)
    ensures
        change_view(r) == spec_event_change(*event),
{
    if !event.is_container {
        return None;
    }
    let id = match &event.actor_id {
        Some(id) => id,
        None => {
            return None;
        },
    };
    match &event.action {
        Some(action) => {
            if *action == String::from_str("stop") {
                Some(ContainerChange::Stopped(id.clone()))
            } else if *action == String::from_str("start") {
                Some(ContainerChange::Started(id.clone()))
            } else {
                None
            }
        },
        None => None,
    }
}

/// Why a lookup by identifier found no single container.
#[derive(Debug, Clone, Copy, PartialEq, Eq, Structural)]
pub enum LookupError {
    /// More than one container matched the identifier.
    Ambiguous,
}

/// The container that a listing filtered by one identifier yields: none when
/// the listing is empty, an error when it holds more than one.
pub fn find_container(listed: Vec<ContainerRecord>) -> (r: Result<Option<ContainerRecord>, LookupError>)
    ensures
        listed@.len() == 0 ==> r matches Ok(None),
        listed@.len() == 1 ==> r == Ok::<Option<ContainerRecord>, LookupError>(Some(listed@[0])),
        listed@.len() > 1 ==> r == Err::<Option<ContainerRecord>, LookupError>(LookupError::Ambiguous),
{
    let mut listed = listed;
    if listed.len() > 1 {
        return Err(LookupError::Ambiguous);
    }
    Ok(listed.pop())
}

/// The descriptors that the marked, well-labelled containers of `cs` yield, in order.
pub open spec fn extracted(config: Config, cs: Seq<ContainerRecord>) -> Seq<ServiceModel>
    decreases cs.len(),
{
    if cs.len() == 0 {
        Seq::empty()
    } else {
        match spec_extract(config, cs.last()) {
            Ok(Some(d)) => extracted(config, cs.drop_last()).push(d),
            _ => extracted(config, cs.drop_last()),
        }
    }
}

/// The extraction errors of the containers of `cs`, in order.
pub open spec fn extraction_errors(config: Config, cs: Seq<ContainerRecord>) -> Seq<ExtractError>
    decreases cs.len(),
{
    if cs.len() == 0 {
        Seq::empty()
    } else {
        match spec_extract(config, cs.last()) {
            Err(e) => extraction_errors(config, cs.drop_last()).push(e),
            _ => extraction_errors(config, cs.drop_last()),
        }
    }
}

/// Reads the descriptor of every container. A container whose labels are
/// wrong gives an error of its own and does not stop the others.
pub fn extract_services(config: &Config, containers: &Vec<ContainerRecord>) -> (r: (
    Vec<ServiceConfiguration>,
    Vec<ExtractError>,
))
    ensures
        services_view(r.0@) == extracted(*config, containers@),
        r.1@ == extraction_errors(*config, containers@),
{
    let ghost cs = containers@;
    let mut services: Vec<ServiceConfiguration> = Vec::new();
    let mut errors: Vec<ExtractError> = Vec::new();
    let mut i: usize = 0;
    while i < containers.len()
        invariant
            i <= cs.len(),
            cs == containers@,
            services_view(services@) == extracted(*config, cs.subrange(0, i as int)),
            errors@ == extraction_errors(*config, cs.subrange(0, i as int)),
        decreases containers.len() - i,
    {
        let ghost before = services@;
        assert(cs.subrange(0, i + 1).drop_last() =~= cs.subrange(0, i as int));
        assert(cs.subrange(0, i + 1).last() == cs[i as int]);
        match ServiceConfiguration::new(config, &containers[i]) {
            Ok(Some(d)) => {
                services.push(d);
                assert(services_view(services@) =~= services_view(before).push(services@.last()@));
            },
            Ok(None) => {},
            Err(e) => {
                errors.push(e);
            },
        }
        i = i + 1;
    }
    assert(cs.subrange(0, i as int) =~= cs);
    (services, errors)
}

} // verus!
