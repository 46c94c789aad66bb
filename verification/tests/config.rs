use gabion::config::{
    endpoint_slice_config_from_discovery, endpoint_slice_configs_from_discovery,
    parse_duration_millis, peer_provider_from_config, scaled_millis, Config, ConfigError,
    DescriptorConfig, DiscoveryConfig, EndpointSliceSelectorConfig, GossipConfig, LimitRuleConfig,
    RuntimeConfig, SafetyMarginConfig, ServerConfig, StorageConfig,
};
use gabion::crdt::NodeIdentity;
use gabion::discovery::{DiscoveryMode, PeerAddr, PeerIp, DEFAULT_GOSSIP_PORT_NAME};
use gabion::engine::OverflowPolicy;
use gabion::rules::EnforcementMode;

fn addr(a: u8, b: u8, c: u8, d: u8, port: u16) -> PeerAddr {
    PeerAddr {
        ip: PeerIp::V4(u32::from_be_bytes([a, b, c, d])),
        port,
    }
}

fn tenant_rule(limit: u64, local_fallback_limit: u64, local_absolute_limit: u64) -> LimitRuleConfig {
    LimitRuleConfig {
        name: "tenant_api_minute".to_string(),
        domain: "api".to_string(),
        descriptors: vec![DescriptorConfig {
            key: "tenant".to_string(),
            value: "*".to_string(),
        }],
        limit,
        window: "60s".to_string(),
        bucket: "1s".to_string(),
        local_fallback_limit,
        local_absolute_limit,
        stale_after: "2s".to_string(),
        safety_margin: SafetyMarginConfig::default(),
        overflow_policy: OverflowPolicy::UseOverflowKey,
        mode: EnforcementMode::Enforce,
    }
}

fn config(discovery: DiscoveryConfig, gossip: GossipConfig) -> Config {
    Config {
        storage: StorageConfig::with_max_keys(16),
        limits: vec![tenant_rule(10, 3, 6)],
        runtime: RuntimeConfig::default(),
        server: ServerConfig::default(),
        discovery,
        gossip,
    }
}

fn gossip_at(bind: PeerAddr) -> GossipConfig {
    GossipConfig {
        enabled: true,
        bind: Some(bind),
        ..Default::default()
    }
}

#[test]
fn parses_local_only_config_into_engine() {
    let config = config(
        DiscoveryConfig {
            kind: DiscoveryMode::Off,
            ..Default::default()
        },
        GossipConfig::default(),
    );

    let engine = config.into_engine().expect("local-only engine builds");

    assert_eq!(engine.rules().len(), 1);
    assert_eq!(engine.active_keys(), 0);
}

#[test]
fn parses_static_peer_config_without_boxed_provider() {
    let config = config(
        DiscoveryConfig {
            kind: DiscoveryMode::Static,
            self_addr: Some(addr(127, 0, 0, 1, 18080)),
            peers: vec![addr(127, 0, 0, 1, 18080), addr(127, 0, 0, 2, 18080)],
            ..Default::default()
        },
        gossip_at(addr(127, 0, 0, 1, 18080)),
    );
    let provider = peer_provider_from_config(&config.discovery).expect("provider");

    assert_eq!(provider.snapshot().peers().len(), 1);
}

#[test]
fn discovery_defaults_to_auto_and_sync_provider_is_local_only() {
    let config = config(DiscoveryConfig::default(), gossip_at(addr(0, 0, 0, 0, 18080)));
    let provider = peer_provider_from_config(&config.discovery).expect("provider");

    assert_eq!(config.discovery.kind, DiscoveryMode::Auto);
    assert!(provider.snapshot().local_only());
}

#[test]
fn discovery_section_without_kind_defaults_to_auto() {
    let config = config(
        DiscoveryConfig {
            self_addr: Some(addr(10, 0, 0, 1, 18080)),
            ..Default::default()
        },
        gossip_at(addr(0, 0, 0, 0, 18080)),
    );

    assert_eq!(config.discovery.kind, DiscoveryMode::Auto);
    assert_eq!(config.discovery.self_addr, Some(addr(10, 0, 0, 1, 18080)));
}

#[test]
fn kubernetes_endpoint_slice_config_uses_snapshot_provider() {
    let config = config(
        DiscoveryConfig {
            kind: DiscoveryMode::KubernetesEndpointSlice,
            namespace: Some("default".to_string()),
            service_name: Some("gabion".to_string()),
            port_name: Some("gossip".to_string()),
            self_addr: Some(addr(10, 0, 0, 1, 18080)),
            ..Default::default()
        },
        gossip_at(addr(0, 0, 0, 0, 18080)),
    );
    let endpoint_config =
        endpoint_slice_config_from_discovery(&config.discovery).expect("endpoint config");
    let provider = peer_provider_from_config(&config.discovery).expect("provider");

    assert_eq!(endpoint_config.namespace, "default");
    assert_eq!(endpoint_config.service_name, "gabion");
    assert_eq!(endpoint_config.port_name.as_deref(), Some("gossip"));
    assert!(provider.snapshot().local_only());
}

#[test]
fn kubernetes_endpoint_slice_config_accepts_multiple_selectors() {
    let config = config(
        DiscoveryConfig {
            kind: DiscoveryMode::KubernetesEndpointSlice,
            self_addr: Some(addr(10, 0, 0, 1, 18080)),
            endpoint_slices: vec![
                EndpointSliceSelectorConfig {
                    namespace: "default".to_string(),
                    service_name: "gabion-grpc".to_string(),
                    port_name: Some("gossip".to_string()),
                },
                EndpointSliceSelectorConfig {
                    namespace: "default".to_string(),
                    service_name: "gabion-nginx".to_string(),
                    port_name: Some("gossip".to_string()),
                },
            ],
            ..Default::default()
        },
        gossip_at(addr(0, 0, 0, 0, 18080)),
    );

    let configs =
        endpoint_slice_configs_from_discovery(&config.discovery).expect("endpoint configs");

    assert_eq!(configs.len(), 2);
    assert_eq!(configs[0].service_name, "gabion-grpc");
    assert_eq!(configs[1].service_name, "gabion-nginx");
    assert_eq!(configs[0].self_addr, Some(addr(10, 0, 0, 1, 18080)));
}

#[test]
fn kubernetes_endpoint_slice_config_defaults_port_name_to_gossip() {
    let config = config(
        DiscoveryConfig {
            kind: DiscoveryMode::KubernetesEndpointSlice,
            namespace: Some("default".to_string()),
            service_name: Some("gabion".to_string()),
            ..Default::default()
        },
        gossip_at(addr(0, 0, 0, 0, 18080)),
    );
    let endpoint_config =
        endpoint_slice_config_from_discovery(&config.discovery).expect("endpoint config");

    assert_eq!(endpoint_config.port_name.as_deref(), Some("gossip"));
}

#[test]
fn endpoint_slice_selector_defaults_port_name_to_gossip() {
    let config = config(
        DiscoveryConfig {
            kind: DiscoveryMode::KubernetesEndpointSlice,
            endpoint_slices: vec![EndpointSliceSelectorConfig {
                namespace: "default".to_string(),
                service_name: "gabion".to_string(),
                port_name: Some(DEFAULT_GOSSIP_PORT_NAME.to_string()),
            }],
            ..Default::default()
        },
        gossip_at(addr(0, 0, 0, 0, 18080)),
    );
    let configs =
        endpoint_slice_configs_from_discovery(&config.discovery).expect("endpoint configs");

    assert_eq!(configs[0].port_name.as_deref(), Some("gossip"));
}

#[test]
fn endpoint_slice_config_preserves_selector_shape() {
    for selectors in 0..8usize {
        for named in [false, true] {
            let mut discovery = DiscoveryConfig {
                kind: DiscoveryMode::KubernetesEndpointSlice,
                self_addr: Some(addr(10, 0, 0, 1, 18080)),
                ..Default::default()
            };
            if named {
                discovery.namespace = Some("default".to_string());
                discovery.service_name = Some("gabion".to_string());
                discovery.port_name = Some(DEFAULT_GOSSIP_PORT_NAME.to_string());
            }
            for index in 0..selectors {
                discovery.endpoint_slices.push(EndpointSliceSelectorConfig {
                    namespace: "default".to_string(),
                    service_name: format!("gabion-{index}"),
                    port_name: Some(DEFAULT_GOSSIP_PORT_NAME.to_string()),
                });
            }
            let configs = endpoint_slice_configs_from_discovery(&discovery);
            if selectors == 0 && !named {
                assert_eq!(configs, Err(ConfigError::MissingKubernetesNamespace));
                continue;
            }
            let configs = configs.expect("endpoint configs");
            assert_eq!(configs.len(), selectors.max(1));
            for config in &configs {
                assert_eq!(config.port_name.as_deref(), Some(DEFAULT_GOSSIP_PORT_NAME));
            }
        }
    }
}

#[test]
fn durations_have_units() {
    assert_eq!(parse_duration_millis("250ms"), Some(250));
    assert_eq!(parse_duration_millis("60s"), Some(60_000));
    assert_eq!(parse_duration_millis("2m"), Some(120_000));
    assert_eq!(parse_duration_millis("1h"), Some(3_600_000));
    assert_eq!(parse_duration_millis("fortnight"), None);
    assert_eq!(parse_duration_millis(""), None);
    assert_eq!(scaled_millis(Some(3), "s"), Some(3_000));
    assert_eq!(scaled_millis(None, "s"), None);
}

#[test]
fn faults_of_a_configuration_are_named() {
    let mut discovery = DiscoveryConfig {
        kind: DiscoveryMode::Static,
        ..Default::default()
    };
    assert_eq!(
        peer_provider_from_config(&discovery).err(),
        Some(ConfigError::MissingStaticPeers)
    );
    discovery.kind = DiscoveryMode::File;
    assert_eq!(
        peer_provider_from_config(&discovery).err(),
        Some(ConfigError::MissingPeerFile)
    );
    discovery.kind = DiscoveryMode::KubernetesEndpointSlice;
    assert_eq!(
        endpoint_slice_config_from_discovery(&discovery).err(),
        Some(ConfigError::MissingKubernetesNamespace)
    );
    discovery.namespace = Some("default".to_string());
    assert_eq!(
        endpoint_slice_config_from_discovery(&discovery).err(),
        Some(ConfigError::MissingKubernetesServiceName)
    );

    let mut rule = tenant_rule(10, 3, 6);
    rule.window = "soon".to_string();
    assert_eq!(
        rule.to_rule(1).err(),
        Some(ConfigError::InvalidDuration("soon".to_string()))
    );
    let mut rule = tenant_rule(10, 3, 6);
    rule.descriptors.clear();
    assert_eq!(
        rule.to_rule(1).err(),
        Some(ConfigError::EmptyDescriptorSet("tenant_api_minute".to_string()))
    );

    let mut many = config(DiscoveryConfig::default(), GossipConfig::default());
    many.storage.max_active_buckets = 10;
    assert_eq!(
        many.into_engine().err(),
        Some(ConfigError::TooManyBuckets {
            configured: 60,
            max: 10
        })
    );
}

#[test]
fn sixty_one_second_buckets_make_a_minute() {
    let rule = tenant_rule(10, 3, 6);
    assert!(!rule.has_zero_bucket());
    assert_eq!(rule.bucket_count(), 60);
    let rule = rule.to_rule(7).expect("rule");
    assert_eq!(rule.id, 7);
    assert_eq!(rule.window.size_millis, 60_000);
    assert_eq!(rule.window.bucket_count, 60);
    assert_eq!(rule.stale_after_millis, 2_000);
}

#[test]
fn a_zero_bucket_is_no_engine() {
    let mut zero = config(DiscoveryConfig::default(), GossipConfig::default());
    zero.limits[0].bucket = "0ms".to_string();
    assert!(zero.has_zero_bucket());
    assert!(zero.try_into_engine(NodeIdentity::default()).is_none());
}

#[test]
fn whitespace_around_durations_is_ignored() {
    assert_eq!(parse_duration_millis("\u{2003}10 s\t"), Some(10_000));
    assert_eq!(parse_duration_millis("\r\n5\u{a0}ms"), Some(5));
    assert_eq!(parse_duration_millis("   "), None);
    assert_eq!(parse_duration_millis("1 0s"), None);
}
