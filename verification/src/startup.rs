//! What to start a node with.

use crate::config::{
    endpoint_slice_configs_from_discovery, peer_provider_from_config, provides, watches,
    ConfigError, DiscoveryConfig, EndpointSliceDiscoveryConfig,
};
use crate::discovery::{DiscoveryMode, Membership, RuntimePeerHandler, SnapshotPeerHandler};
use vstd::prelude::*;

verus! {

/// The source of peers to start with, given whether there is a Kubernetes to
/// ask. `Auto` asks it if there is one.
pub fn choose_peers(discovery: &DiscoveryConfig, kubernetes: bool) -> (provider: Result<
    RuntimePeerHandler,
    ConfigError,
>)
    ensures
        if discovery.kind == DiscoveryMode::Auto && kubernetes {
            provider matches Ok(RuntimePeerHandler::Snapshot(handler)) && handler@ == (Membership {
                peers: Seq::empty(),
                stale: false,
                generation: 0,
                capacity: discovery.max_peers as nat,
            })
        } else {
            provides(*discovery, provider)
        },
{
    if discovery.kind == DiscoveryMode::Auto && kubernetes {
        return Ok(
            RuntimePeerHandler::Snapshot(SnapshotPeerHandler::with_capacity(discovery.max_peers)),
        );
    }
    peer_provider_from_config(discovery)
}

/// What keeps the peers up to date.
#[derive(Debug)]
pub enum DiscoveryTask {
    /// Nothing: they stay as they are.
    Idle,
    /// The peer file is read again and again.
    PollFile { every_millis: u64 },
    /// The services that this node itself runs behind are watched.
    WatchOwnServices,
    /// These services are watched.
    Watch(Vec<EndpointSliceDiscoveryConfig>),
}

/// Whether a configuration leaves open which services to watch.
pub open spec fn names_no_service(discovery: DiscoveryConfig) -> bool {
    discovery.endpoint_slices@.len() == 0 && discovery.namespace is None
        && discovery.service_name is None
}

/// What keeps a source of peers up to date.
pub fn discovery_task(
    discovery: &DiscoveryConfig,
    linger_ms: u64,
    peers: &RuntimePeerHandler,
) -> (task: Result<DiscoveryTask, ConfigError>)
    ensures
        match peers {
            RuntimePeerHandler::File(_) => task == Ok::<DiscoveryTask, ConfigError>(
                DiscoveryTask::PollFile {
                    every_millis: if linger_ms == 0 {
                        1
                    } else {
                        linger_ms
                    },
                },
            ),
            RuntimePeerHandler::Snapshot(_) if discovery.kind
                == DiscoveryMode::KubernetesEndpointSlice || discovery.kind
                == DiscoveryMode::Auto => if names_no_service(*discovery) {
                task == Ok::<DiscoveryTask, ConfigError>(DiscoveryTask::WatchOwnServices)
            } else {
                match watches(*discovery) {
                    Ok(configs) => task matches Ok(DiscoveryTask::Watch(found)) && found@
                        == configs,
                    Err(fault) => task matches Err(error) && error@ == fault,
                }
            },
            _ => task == Ok::<DiscoveryTask, ConfigError>(DiscoveryTask::Idle),
        },
{
    match peers {
        RuntimePeerHandler::File(_) => Ok(
            DiscoveryTask::PollFile { every_millis: if linger_ms == 0 { 1 } else { linger_ms } },
        ),
        RuntimePeerHandler::Snapshot(_) => {
            if discovery.kind != DiscoveryMode::KubernetesEndpointSlice && discovery.kind
                != DiscoveryMode::Auto {
                return Ok(DiscoveryTask::Idle);
            }
            if discovery.endpoint_slices.len() == 0 && discovery.namespace.is_none()
                && discovery.service_name.is_none() {
                return Ok(DiscoveryTask::WatchOwnServices);
            }
            match endpoint_slice_configs_from_discovery(discovery) {
                Ok(configs) => Ok(DiscoveryTask::Watch(configs)),
                Err(error) => Err(error),
            }
        },
        RuntimePeerHandler::Static(_) => Ok(DiscoveryTask::Idle),
    }
}

/// A node looks for its own services exactly if it is told of none: no selector, no
/// namespace and no name. What is told of is never looked for as its own.
pub proof fn lemma_own_services(discovery: DiscoveryConfig)
    ensures
        discovery.endpoint_slices@.len() > 0 ==> !names_no_service(discovery),
        discovery.namespace is Some ==> !names_no_service(discovery),
        discovery.service_name is Some ==> !names_no_service(discovery),
        watches(discovery) is Ok ==> !names_no_service(discovery),
        discovery.endpoint_slices@.len() == 0 && discovery.namespace is None
            && discovery.service_name is None ==> names_no_service(discovery),
{
}

} // verus!
