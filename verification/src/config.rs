//! Configuration of a limiter, and what it builds.
//!
//! Durations are written as a number and a unit: `250ms`, `30s`, `5m`, `1h`.

use crate::crdt::{KeyHash, NodeId, NodeIdentity};
use crate::discovery::{
    DiscoveryMode, FilePeerHandler, PeerAddr, RuntimePeerHandler, SnapshotPeerHandler,
    StaticPeerHandler, DEFAULT_GOSSIP_PORT_NAME, DEFAULT_MAX_PEERS,
    DEFAULT_RECENT_PEER_GRACE_MILLIS,
};
use crate::discovery::{first_n, others, Membership, Peer};
use crate::engine::{
    cells_for, default_cells, LocalEngine, LocalRule, OverflowPolicy, SafetyMargin, WindowSpec,
};
use crate::requests::CardinalityLimits;
use crate::rules::{
    domain_input, hash_domain, pattern_pairs, stable_hash, DescriptorPattern, EnforcementMode,
    RuleId,
};
use crate::seqs::{first_where, lemma_first_where, lemma_first_where_at, lemma_first_where_none};
use crate::standalone::DEFAULT_GOSSIP_LINGER_MS;
use crate::text::{decimal_u64, is_digit, parse_u64, same_text, trim, trimmed};
use vstd::prelude::*;

verus! {

// -- durations --------------------------------------------------------------

pub open spec fn no_digit() -> spec_fn(char) -> bool {
    |c: char| !is_digit(c)
}

/// What a number with a unit comes to in milliseconds.
pub open spec fn scaled(value: Option<u64>, unit: Seq<char>) -> Option<u64> {
    match value {
        None => None,
        Some(value) => if unit == "ms"@ {
            Some(value)
        } else if unit == "s"@ {
            if value * 1_000 <= u64::MAX {
                Some((value * 1_000) as u64)
            } else {
                None
            }
        } else if unit == "m"@ {
            if value * 60_000 <= u64::MAX {
                Some((value * 60_000) as u64)
            } else {
                None
            }
        } else if unit == "h"@ {
            if value * 3_600_000 <= u64::MAX {
                Some((value * 3_600_000) as u64)
            } else {
                None
            }
        } else {
            None
        },
    }
}

/// Milliseconds of a number and a unit without whitespace around them.
pub fn scaled_millis(value: Option<u64>, unit: &str) -> (millis: Option<u64>)
    ensures
        millis == scaled(value, unit@),
{
    let value: u64 = match value {
        Some(value) => value,
        None => {
            return None;
        },
    };
    if same_text(unit, "ms") {
        Some(value)
    } else if same_text(unit, "s") {
        value.checked_mul(1_000)
    } else if same_text(unit, "m") {
        value.checked_mul(60_000)
    } else if same_text(unit, "h") {
        value.checked_mul(3_600_000)
    } else {
        None
    }
}

/// What a duration comes to: digits up to the first other character, and a
/// unit behind them. Whitespace around the whole and around the unit is
/// ignored.
pub open spec fn duration_millis(text: Seq<char>) -> Option<u64> {
    let t = trimmed(text);
    match first_where(t, no_digit()) {
        None => None,
        Some(i) => scaled(decimal_u64(t.take(i)), trimmed(t.skip(i))),
    }
}

/// Reads a duration. `None` if the number or the unit is missing or unknown, or
/// the milliseconds do not fit.
pub fn parse_duration_millis(input: &str) -> (millis: Option<u64>)
    ensures
        millis == duration_millis(input@),
{
    let text = trim(input);
    let n: usize = text.unicode_len();
    let ghost p = no_digit();
    let mut i: usize = 0;
    while i < n
        invariant
            i <= n == text@.len(),
            p == no_digit(),
            text@ == trimmed(input@),
            forall|j: int| 0 <= j < i ==> !p(#[trigger] text@[j]),
        decreases n - i,
    {
        let c: char = text.get_char(i);
        if !(c >= '0' && c <= '9') {
            proof {
                lemma_first_where_at(text@, p, i as int);
                assert(text@.subrange(0, i as int) =~= text@.take(i as int));
                assert(text@.subrange(i as int, n as int) =~= text@.skip(i as int));
            }
            let value: Option<u64> = parse_u64(text.substring_char(0, i));
            let unit = trim(text.substring_char(i, n));
            return scaled_millis(value, unit);
        }
        i = i + 1;
    }
    proof {
        lemma_first_where_none(text@, p);
    }
    None
}

// -- errors -----------------------------------------------------------------

/// What is wrong with a configuration.
#[derive(Debug, PartialEq, Eq)]
pub enum ConfigError {
    InvalidDuration(String),
    MissingGossipBind,
    MissingStaticPeers,
    MissingPeerFile,
    MissingKubernetesNamespace,
    MissingKubernetesServiceName,
    MissingKubernetesEndpointSliceSelector,
    EmptyDescriptorSet(String),
    TooManyBuckets { configured: usize, max: usize },
}

/// What is wrong with a configuration, spelled out.
pub enum ConfigFault {
    InvalidDuration(Seq<char>),
    MissingGossipBind,
    MissingStaticPeers,
    MissingPeerFile,
    MissingKubernetesNamespace,
    MissingKubernetesServiceName,
    MissingKubernetesEndpointSliceSelector,
    EmptyDescriptorSet(Seq<char>),
    TooManyBuckets { configured: usize, max: usize },
}

impl ConfigError {
    pub open spec fn view(&self) -> ConfigFault {
        match self {
            ConfigError::InvalidDuration(text) => ConfigFault::InvalidDuration(text@),
            ConfigError::MissingGossipBind => ConfigFault::MissingGossipBind,
            ConfigError::MissingStaticPeers => ConfigFault::MissingStaticPeers,
            ConfigError::MissingPeerFile => ConfigFault::MissingPeerFile,
            ConfigError::MissingKubernetesNamespace => ConfigFault::MissingKubernetesNamespace,
            ConfigError::MissingKubernetesServiceName => ConfigFault::MissingKubernetesServiceName,
            ConfigError::MissingKubernetesEndpointSliceSelector =>
                ConfigFault::MissingKubernetesEndpointSliceSelector,
            ConfigError::EmptyDescriptorSet(name) => ConfigFault::EmptyDescriptorSet(name@),
            ConfigError::TooManyBuckets { configured, max } => ConfigFault::TooManyBuckets {
                configured: *configured,
                max: *max,
            },
        }
    }
}

// -- limits -----------------------------------------------------------------

/// A key and a value of a rule.
#[derive(Debug, PartialEq, Eq)]
pub struct DescriptorConfig {
    pub key: String,
    pub value: String,
}

/// Hits held back for what gossip has not told yet.
#[derive(Clone, Copy, Debug, PartialEq, Eq, Structural)]
pub struct SafetyMarginConfig {
    pub hits: u64,
}

impl Default for SafetyMarginConfig {
    fn default() -> (margin: SafetyMarginConfig)
        ensures
            margin.hits == 0,
    {
        SafetyMarginConfig { hits: 0 }
    }
}

/// One configured rule.
#[derive(Debug, PartialEq, Eq)]
pub struct LimitRuleConfig {
    pub name: String,
    pub domain: String,
    pub descriptors: Vec<DescriptorConfig>,
    pub limit: u64,
    pub window: String,
    pub bucket: String,
    pub local_fallback_limit: u64,
    pub local_absolute_limit: u64,
    pub stale_after: String,
    pub safety_margin: SafetyMarginConfig,
    pub overflow_policy: OverflowPolicy,
    pub mode: EnforcementMode,
}

pub open spec fn config_pairs(descriptors: Seq<DescriptorConfig>) -> Seq<(Seq<char>, Seq<char>)> {
    Seq::new(descriptors.len(), |i: int| (descriptors[i].key@, descriptors[i].value@))
}

/// How many buckets a window spans, rounded up and at least one.
pub open spec fn bucket_span(window: u64, bucket: u64) -> usize {
    let whole = window / bucket + if window % bucket == 0 {
        0int
    } else {
        1
    };
    if whole == 0 {
        1
    } else {
        whole as usize
    }
}

fn span_of(window: u64, bucket: u64) -> (span: usize)
    requires
        bucket > 0,
    ensures
        span == bucket_span(window, bucket),
{
    let whole: u64 = window / bucket;
    proof {
        assert(window % bucket != 0 ==> window / bucket < u64::MAX) by (nonlinear_arith)
            requires
                bucket > 0,
                window <= u64::MAX,
        ;
    }
    let count: u64 = if window % bucket == 0 { whole } else { whole + 1 };
    if count == 0 {
        1
    } else {
        #[verifier::truncate]
        let span: usize = count as usize;
        span
    }
}

/// A duration, or one millisecond where it cannot be read.
pub open spec fn millis_or_one(text: Seq<char>) -> u64 {
    match duration_millis(text) {
        Some(millis) => millis,
        None => 1,
    }
}

impl LimitRuleConfig {
    /// Whether the bucket is given as zero, which no window can be cut into.
    pub open spec fn spec_zero_bucket(&self) -> bool {
        duration_millis(self.bucket@) == Some(0u64)
    }

    pub open spec fn spec_bucket_count(&self) -> usize {
        bucket_span(millis_or_one(self.window@), millis_or_one(self.bucket@))
    }

    /// What is wrong with the rule.
    pub open spec fn fault(&self) -> Option<ConfigFault> {
        if self.descriptors@.len() == 0 {
            Some(ConfigFault::EmptyDescriptorSet(self.name@))
        } else if duration_millis(self.window@) is None {
            Some(ConfigFault::InvalidDuration(self.window@))
        } else if duration_millis(self.bucket@) is None {
            Some(ConfigFault::InvalidDuration(self.bucket@))
        } else if duration_millis(self.stale_after@) is None {
            Some(ConfigFault::InvalidDuration(self.stale_after@))
        } else {
            None
        }
    }

    /// Whether `rule` is what this configuration asks for under number `id`.
    pub open spec fn builds(&self, id: RuleId, rule: LocalRule) -> bool {
        &&& rule.id == id
        &&& rule.domain_hash == KeyHash(stable_hash(domain_input(self.domain@)))
        &&& pattern_pairs(rule.descriptors@) == config_pairs(self.descriptors@)
        &&& rule.limit == self.limit
        &&& duration_millis(self.window@) == Some(rule.window.size_millis)
        &&& rule.window.bucket_count == self.spec_bucket_count()
        &&& rule.local_fallback_limit == self.local_fallback_limit
        &&& rule.local_absolute_limit == self.local_absolute_limit
        &&& duration_millis(self.stale_after@) == Some(rule.stale_after_millis)
        &&& rule.safety_margin.hits == self.safety_margin.hits
        &&& rule.overflow_policy == self.overflow_policy
        &&& rule.mode == self.mode
    }

    pub fn has_zero_bucket(&self) -> (zero: bool)
        ensures
            zero == self.spec_zero_bucket(),
    {
        match parse_duration_millis(self.bucket.as_str()) {
            Some(millis) => millis == 0,
            None => false,
        }
    }

    /// How many buckets the window spans. Durations that cannot be read count
    /// as one millisecond.
    pub fn bucket_count(&self) -> (count: usize)
        requires
            !self.spec_zero_bucket(),
        ensures
            count == self.spec_bucket_count(),
    {
        let window: u64 = match parse_duration_millis(self.window.as_str()) {
            Some(millis) => millis,
            None => 1,
        };
        let bucket: u64 = match parse_duration_millis(self.bucket.as_str()) {
            Some(millis) => millis,
            None => 1,
        };
        span_of(window, bucket)
    }

    /// The rule this configuration asks for.
    pub fn to_rule(&self, id: RuleId) -> (rule: Result<LocalRule, ConfigError>)
        requires
            !self.spec_zero_bucket(),
        ensures
            match rule {
                Ok(rule) => self.fault() is None && self.builds(id, rule),
                Err(error) => self.fault() == Some(error@),
            },
    {
        if self.descriptors.len() == 0 {
            return Err(ConfigError::EmptyDescriptorSet(self.name.clone()));
        }
        let window: u64 = match parse_duration_millis(self.window.as_str()) {
            Some(millis) => millis,
            None => {
                return Err(ConfigError::InvalidDuration(self.window.clone()));
            },
        };
        let bucket: u64 = match parse_duration_millis(self.bucket.as_str()) {
            Some(millis) => millis,
            None => {
                return Err(ConfigError::InvalidDuration(self.bucket.clone()));
            },
        };
        let stale_after: u64 = match parse_duration_millis(self.stale_after.as_str()) {
            Some(millis) => millis,
            None => {
                return Err(ConfigError::InvalidDuration(self.stale_after.clone()));
            },
        };
        let mut patterns: Vec<DescriptorPattern> = Vec::new();
        let mut i: usize = 0;
        while i < self.descriptors.len()
            invariant
                i <= self.descriptors@.len(),
                patterns@.len() == i,
                forall|j: int|
                    0 <= j < i ==> (#[trigger] patterns@[j]).key@ == self.descriptors@[j].key@
                        && patterns@[j].value@ == self.descriptors@[j].value@,
            decreases self.descriptors@.len() - i,
        {
            patterns.push(
                DescriptorPattern {
                    key: self.descriptors[i].key.clone(),
                    value: self.descriptors[i].value.clone(),
                },
            );
            i = i + 1;
        }
        assert(pattern_pairs(patterns@) =~= config_pairs(self.descriptors@));
        Ok(
            LocalRule {
                id,
                domain_hash: hash_domain(self.domain.as_str()),
                descriptors: patterns,
                limit: self.limit,
                window: WindowSpec {
                    size_millis: window,
                    bucket_count: span_of(window, bucket),
                },
                local_fallback_limit: self.local_fallback_limit,
                local_absolute_limit: self.local_absolute_limit,
                stale_after_millis: stale_after,
                safety_margin: SafetyMargin { hits: self.safety_margin.hits },
                overflow_policy: self.overflow_policy,
                mode: self.mode,
            },
        )
    }
}

// -- sections ---------------------------------------------------------------

/// How much a limiter keeps.
#[derive(Clone, Copy, Debug, PartialEq, Eq, Structural)]
pub struct StorageConfig {
    pub max_keys: usize,
    pub max_cells: Option<usize>,
    pub dirty_ring_entries: Option<usize>,
    pub max_descriptor_count: usize,
    pub max_descriptor_bytes: usize,
    pub max_key_bytes: usize,
    pub max_active_buckets: usize,
}

impl StorageConfig {
    /// Room for `max_keys` keys, and defaults for the rest.
    pub fn with_max_keys(max_keys: usize) -> (storage: StorageConfig)
        ensures
            storage == (StorageConfig {
                max_keys,
                max_cells: None,
                dirty_ring_entries: None,
                max_descriptor_count: 16,
                max_descriptor_bytes: 512,
                max_key_bytes: 128,
                max_active_buckets: 64,
            }),
    {
        StorageConfig {
            max_keys,
            max_cells: None,
            dirty_ring_entries: None,
            max_descriptor_count: 16,
            max_descriptor_bytes: 512,
            max_key_bytes: 128,
            max_active_buckets: 64,
        }
    }

    /// Room for cells: as configured, or every key's whole window.
    pub open spec fn cells(self, bucket_count: usize) -> usize {
        match self.max_cells {
            Some(cells) => cells,
            None => default_cells(self.max_keys, bucket_count),
        }
    }

    pub fn cell_capacity(&self, bucket_count: usize) -> (cells: usize)
        ensures
            cells == self.cells(bucket_count),
    {
        match self.max_cells {
            Some(cells) => cells,
            None => cells_for(self.max_keys, bucket_count),
        }
    }
}

/// How counts are handed on.
#[derive(Clone, Copy, Debug, PartialEq, Eq, Structural)]
pub struct RuntimeConfig {
    pub count_update_batch_size: usize,
}

impl Default for RuntimeConfig {
    fn default() -> (config: RuntimeConfig)
        ensures
            config.count_update_batch_size == 64,
    {
        RuntimeConfig { count_update_batch_size: 64 }
    }
}

/// A listening socket.
#[derive(Clone, Copy, Debug, PartialEq, Eq, Structural)]
pub struct ListenerConfig {
    pub enabled: bool,
    pub bind: Option<PeerAddr>,
}

impl Default for ListenerConfig {
    fn default() -> (listener: ListenerConfig)
        ensures
            listener == (ListenerConfig { enabled: false, bind: None }),
    {
        ListenerConfig { enabled: false, bind: None }
    }
}

/// The servers in front of the limiter.
#[derive(Clone, Copy, Debug, PartialEq, Eq, Structural)]
pub struct ServerConfig {
    pub envoy_rls: ListenerConfig,
    pub admin: ListenerConfig,
}

impl Default for ServerConfig {
    fn default() -> (server: ServerConfig)
        ensures
            server == (ServerConfig {
                envoy_rls: ListenerConfig { enabled: false, bind: None },
                admin: ListenerConfig { enabled: false, bind: None },
            }),
    {
        ServerConfig { envoy_rls: ListenerConfig::default(), admin: ListenerConfig::default() }
    }
}

/// A Kubernetes service whose endpoints are peers.
#[derive(Debug, PartialEq, Eq)]
pub struct EndpointSliceSelectorConfig {
    pub namespace: String,
    pub service_name: String,
    pub port_name: Option<String>,
}

/// Where peers come from.
#[derive(Debug, PartialEq, Eq)]
pub struct DiscoveryConfig {
    pub kind: DiscoveryMode,
    pub peers: Vec<PeerAddr>,
    pub path: Option<String>,
    pub self_addr: Option<PeerAddr>,
    pub endpoint_slices: Vec<EndpointSliceSelectorConfig>,
    pub namespace: Option<String>,
    pub service_name: Option<String>,
    pub port_name: Option<String>,
    pub max_peers: usize,
    pub recent_peer_grace_millis: u64,
}

impl Default for DiscoveryConfig {
    fn default() -> (config: DiscoveryConfig)
        ensures
            config.kind == DiscoveryMode::Auto,
            config.peers@.len() == 0,
            config.path is None,
            config.self_addr is None,
            config.endpoint_slices@.len() == 0,
            config.namespace is None,
            config.service_name is None,
            config.port_name matches Some(name) && name@ == DEFAULT_GOSSIP_PORT_NAME@,
            config.max_peers == DEFAULT_MAX_PEERS,
            config.recent_peer_grace_millis == DEFAULT_RECENT_PEER_GRACE_MILLIS,
    {
        DiscoveryConfig {
            kind: DiscoveryMode::Auto,
            peers: Vec::new(),
            path: None,
            self_addr: None,
            endpoint_slices: Vec::new(),
            namespace: None,
            service_name: None,
            port_name: Some(DEFAULT_GOSSIP_PORT_NAME.to_owned()),
            max_peers: DEFAULT_MAX_PEERS,
            recent_peer_grace_millis: DEFAULT_RECENT_PEER_GRACE_MILLIS,
        }
    }
}

/// How counts are gossiped.
#[derive(Clone, Copy, Debug, PartialEq, Eq, Structural)]
pub struct GossipConfig {
    pub enabled: bool,
    pub bind: Option<PeerAddr>,
    pub linger_ms: u64,
    pub fanout: usize,
    pub max_payload_bytes: usize,
    pub max_cells_per_frame: usize,
    pub cluster_id_hash: u128,
}

impl Default for GossipConfig {
    fn default() -> (config: GossipConfig)
        ensures
            config == (GossipConfig {
                enabled: false,
                bind: None,
                linger_ms: DEFAULT_GOSSIP_LINGER_MS,
                fanout: 3,
                max_payload_bytes: 262144,
                max_cells_per_frame: 4096,
                cluster_id_hash: 1,
            }),
    {
        GossipConfig {
            enabled: false,
            bind: None,
            linger_ms: DEFAULT_GOSSIP_LINGER_MS,
            fanout: 3,
            max_payload_bytes: 256 * 1024,
            max_cells_per_frame: 4096,
            cluster_id_hash: 1,
        }
    }
}

/// A whole configuration.
#[derive(Debug, PartialEq, Eq)]
pub struct LocalOnlyConfig {
    pub storage: StorageConfig,
    pub limits: Vec<LimitRuleConfig>,
    pub runtime: RuntimeConfig,
    pub server: ServerConfig,
    pub discovery: DiscoveryConfig,
    pub gossip: GossipConfig,
}

pub type Config = LocalOnlyConfig;

/// The largest bucket count of some rules, one without any.
pub open spec fn most_buckets(limits: Seq<LimitRuleConfig>) -> usize
    decreases limits.len(),
{
    if limits.len() == 0 {
        1
    } else if limits.len() == 1 {
        limits[0].spec_bucket_count()
    } else {
        let before = most_buckets(limits.drop_last());
        let last = limits.last().spec_bucket_count();
        if before < last {
            last
        } else {
            before
        }
    }
}

/// What is wrong with the first rule that something is wrong with.
pub open spec fn first_fault(limits: Seq<LimitRuleConfig>) -> Option<ConfigFault>
    decreases limits.len(),
{
    if limits.len() == 0 {
        None
    } else {
        match first_fault(limits.drop_last()) {
            Some(fault) => Some(fault),
            None => limits.last().fault(),
        }
    }
}

proof fn lemma_first_fault_stays(limits: Seq<LimitRuleConfig>, n: int)
    requires
        0 <= n <= limits.len(),
        first_fault(limits.take(n)) is Some,
    ensures
        first_fault(limits) == first_fault(limits.take(n)),
    decreases limits.len() - n,
{
    if n == limits.len() {
        assert(limits.take(n) =~= limits);
    } else {
        assert(limits.take(n + 1).drop_last() =~= limits.take(n));
        lemma_first_fault_stays(limits, n + 1);
    }
}

impl LocalOnlyConfig {
    pub open spec fn zero_bucket(&self) -> bool {
        exists|i: int|
            0 <= i < self.limits@.len() && (#[trigger] self.limits@[i]).spec_zero_bucket()
    }

    /// What is wrong with the configuration of the limits.
    pub open spec fn fault(&self) -> Option<ConfigFault> {
        if most_buckets(self.limits@) > self.storage.max_active_buckets {
            Some(
                ConfigFault::TooManyBuckets {
                    configured: most_buckets(self.limits@),
                    max: self.storage.max_active_buckets,
                },
            )
        } else {
            first_fault(self.limits@)
        }
    }

    /// Whether `engine` is what this configuration asks for: its rules, numbered
    /// from one, with nothing counted yet.
    pub open spec fn builds(&self, identity: NodeIdentity, engine: LocalEngine) -> bool {
        &&& engine.wf()
        &&& engine.spec_rules().len() == self.limits@.len()
        &&& forall|i: int|
            0 <= i < self.limits@.len() ==> (#[trigger] self.limits@[i]).builds(
                (i + 1) as RuleId,
                engine.spec_rules()[i],
            )
        &&& engine@ == LocalEngine::empty_state(
            self.storage.max_keys,
            self.storage.cells(most_buckets(self.limits@)),
            match self.storage.dirty_ring_entries {
                Some(entries) => entries,
                None => self.storage.cells(most_buckets(self.limits@)),
            },
            identity,
        )
    }

    /// Whether some rule's bucket is given as zero.
    pub fn has_zero_bucket(&self) -> (zero: bool)
        ensures
            zero == self.zero_bucket(),
    {
        let mut i: usize = 0;
        while i < self.limits.len()
            invariant
                i <= self.limits@.len(),
                forall|j: int| 0 <= j < i ==> !(#[trigger] self.limits@[j]).spec_zero_bucket(),
            decreases self.limits@.len() - i,
        {
            if self.limits[i].has_zero_bucket() {
                assert(self.limits@[i as int].spec_zero_bucket());
                return true;
            }
            i = i + 1;
        }
        false
    }

    /// The largest bucket count of the rules, one without any.
    pub fn max_bucket_count(&self) -> (count: usize)
        requires
            !self.zero_bucket(),
        ensures
            count == most_buckets(self.limits@),
    {
        let n: usize = self.limits.len();
        if n == 0 {
            return 1;
        }
        assert(!self.limits@[0].spec_zero_bucket());
        let mut count: usize = self.limits[0].bucket_count();
        let mut i: usize = 1;
        assert(self.limits@.take(1)[0] == self.limits@[0]);
        while i < n
            invariant
                1 <= i <= n == self.limits@.len(),
                !self.zero_bucket(),
                count == most_buckets(self.limits@.take(i as int)),
            decreases n - i,
        {
            proof {
                assert(!self.limits@[i as int].spec_zero_bucket());
                assert(self.limits@.take(i + 1).drop_last() =~= self.limits@.take(i as int));
            }
            let next: usize = self.limits[i].bucket_count();
            if count < next {
                count = next;
            }
            i = i + 1;
        }
        assert(self.limits@.take(n as int) =~= self.limits@);
        count
    }

    /// The limiter this configuration asks for, for a node without an identity.
    pub fn into_engine(self) -> (engine: Result<LocalEngine, ConfigError>)
        requires
            !self.zero_bucket(),
            self.limits@.len() <= u32::MAX,
        ensures
            match engine {
                Ok(engine) => self.fault() is None && self.builds(
                    (NodeIdentity { node_id: NodeId(0), incarnation: 0 }),
                    engine,
                ),
                Err(error) => self.fault() == Some(error@),
            },
    {
        self.into_engine_with_identity(NodeIdentity::default())
    }

    /// The limiter this configuration asks for.
    pub fn into_engine_with_identity(self, identity: NodeIdentity) -> (engine: Result<
        LocalEngine,
        ConfigError,
    >)
        requires
            !self.zero_bucket(),
            self.limits@.len() <= u32::MAX,
        ensures
            match engine {
                Ok(engine) => self.fault() is None && self.builds(identity, engine),
                Err(error) => self.fault() == Some(error@),
            },
    {
        let bucket_count: usize = self.max_bucket_count();
        if bucket_count > self.storage.max_active_buckets {
            return Err(
                ConfigError::TooManyBuckets {
                    configured: bucket_count,
                    max: self.storage.max_active_buckets,
                },
            );
        }
        let mut rules: Vec<LocalRule> = Vec::new();
        let n: usize = self.limits.len();
        let mut i: usize = 0;
        assert(self.limits@.take(0) =~= Seq::<LimitRuleConfig>::empty());
        while i < n
            invariant
                i <= n == self.limits@.len(),
                n <= u32::MAX,
                !self.zero_bucket(),
                most_buckets(self.limits@) <= self.storage.max_active_buckets,
                rules@.len() == i,
                first_fault(self.limits@.take(i as int)) is None,
                forall|j: int|
                    0 <= j < i ==> (#[trigger] self.limits@[j]).builds(
                        (j + 1) as RuleId,
                        rules@[j],
                    ),
            decreases n - i,
        {
            proof {
                assert(!self.limits@[i as int].spec_zero_bucket());
                assert(self.limits@.take(i + 1).drop_last() =~= self.limits@.take(i as int));
            }
            match self.limits[i].to_rule(i as RuleId + 1) {
                Ok(rule) => {
                    rules.push(rule);
                },
                Err(error) => {
                    proof {
                        lemma_first_fault_stays(self.limits@, i + 1);
                    }
                    return Err(error);
                },
            }
            i = i + 1;
        }
        assert(self.limits@.take(n as int) =~= self.limits@);
        let max_cells: usize = self.storage.cell_capacity(bucket_count);
        let dirty: usize = match self.storage.dirty_ring_entries {
            Some(entries) => entries,
            None => max_cells,
        };
        Ok(LocalEngine::with_identity(rules, self.storage.max_keys, max_cells, dirty, identity))
    }

    /// The limiter this configuration asks for, or `None` where there are more
    /// rules than numbers for them, or a bucket is given as zero.
    pub fn try_into_engine(self, identity: NodeIdentity) -> (engine: Option<
        Result<LocalEngine, ConfigError>,
    >)
        ensures
            match engine {
                None => self.zero_bucket() || self.limits@.len() > u32::MAX,
                Some(Ok(engine)) => self.fault() is None && self.builds(identity, engine),
                Some(Err(error)) => self.fault() == Some(error@),
            },
            engine is None <==> self.zero_bucket() || self.limits@.len() > u32::MAX,
    {
        if self.limits.len() > u32::MAX as usize || self.has_zero_bucket() {
            return None;
        }
        Some(self.into_engine_with_identity(identity))
    }

    pub fn cardinality_limits(&self) -> (limits: CardinalityLimits)
        ensures
            limits == (CardinalityLimits {
                max_descriptor_count: self.storage.max_descriptor_count,
                max_descriptor_bytes: self.storage.max_descriptor_bytes,
                max_key_bytes: self.storage.max_key_bytes,
            }),
    {
        CardinalityLimits {
            max_descriptor_count: self.storage.max_descriptor_count,
            max_descriptor_bytes: self.storage.max_descriptor_bytes,
            max_key_bytes: self.storage.max_key_bytes,
        }
    }
}

// -- discovery --------------------------------------------------------------

fn copy_addrs(addrs: &Vec<PeerAddr>) -> (copy: Vec<PeerAddr>)
    ensures
        copy@ == addrs@,
{
    let mut out: Vec<PeerAddr> = Vec::new();
    let mut i: usize = 0;
    while i < addrs.len()
        invariant
            i <= addrs@.len(),
            out@ == addrs@.take(i as int),
        decreases addrs@.len() - i,
    {
        out.push(addrs[i]);
        assert(out@ =~= addrs@.take(i + 1));
        i = i + 1;
    }
    assert(addrs@.take(i as int) =~= addrs@);
    out
}

/// Whether this is the source of peers that a configuration asks for.
pub open spec fn provides(
    discovery: DiscoveryConfig,
    provider: Result<RuntimePeerHandler, ConfigError>,
) -> bool {
    match discovery.kind {
        DiscoveryMode::Auto | DiscoveryMode::Off => provider matches Ok(
            RuntimePeerHandler::Static(handler),
        ) && handler@ == Seq::<Peer>::empty(),
        DiscoveryMode::Static => if discovery.peers@.len() == 0 {
            provider == Err::<RuntimePeerHandler, ConfigError>(ConfigError::MissingStaticPeers)
        } else {
            provider matches Ok(RuntimePeerHandler::Static(handler)) && handler@ == others(
                discovery.peers@,
                discovery.self_addr,
            )
        },
        DiscoveryMode::File => match discovery.path {
            None => provider == Err::<RuntimePeerHandler, ConfigError>(
                ConfigError::MissingPeerFile,
            ),
            Some(path) => provider matches Ok(RuntimePeerHandler::File(handler))
                && handler.spec_path() == path@ && handler.spec_self_addr()
                == discovery.self_addr && handler@ == (Membership {
                peers: first_n(
                    others(discovery.peers@, discovery.self_addr),
                    discovery.max_peers as nat,
                ),
                stale: false,
                generation: 0,
                capacity: discovery.max_peers as nat,
            }),
        },
        DiscoveryMode::KubernetesEndpointSlice => provider matches Ok(
            RuntimePeerHandler::Snapshot(handler),
        ) && handler@ == (Membership {
            peers: Seq::empty(),
            stale: false,
            generation: 0,
            capacity: discovery.max_peers as nat,
        }),
    }
}

/// The source of peers that a configuration asks for. `Auto` starts without
/// peers: whether there is a Kubernetes to ask turns out later.
pub fn peer_provider_from_config(discovery: &DiscoveryConfig) -> (provider: Result<
    RuntimePeerHandler,
    ConfigError,
>)
    ensures
        provides(*discovery, provider),
{
    match discovery.kind {
        DiscoveryMode::Auto | DiscoveryMode::Off => Ok(
            RuntimePeerHandler::Static(StaticPeerHandler::new(Vec::new(), discovery.self_addr)),
        ),
        DiscoveryMode::Static => {
            if discovery.peers.len() == 0 {
                return Err(ConfigError::MissingStaticPeers);
            }
            Ok(
                RuntimePeerHandler::Static(
                    StaticPeerHandler::new(copy_addrs(&discovery.peers), discovery.self_addr),
                ),
            )
        },
        DiscoveryMode::File => match &discovery.path {
            None => Err(ConfigError::MissingPeerFile),
            Some(path) => Ok(
                RuntimePeerHandler::File(
                    FilePeerHandler::with_capacity(
                        path.clone(),
                        discovery.self_addr,
                        copy_addrs(&discovery.peers),
                        discovery.max_peers,
                    ),
                ),
            ),
        },
        DiscoveryMode::KubernetesEndpointSlice => Ok(
            RuntimePeerHandler::Snapshot(SnapshotPeerHandler::with_capacity(discovery.max_peers)),
        ),
    }
}

/// A watch on the endpoints of one Kubernetes service.
#[derive(Debug, PartialEq, Eq)]
pub struct EndpointSliceDiscoveryConfig {
    pub namespace: String,
    pub service_name: String,
    pub port_name: Option<String>,
    pub self_addr: Option<PeerAddr>,
}

fn copy_name(name: &Option<String>) -> (copy: Option<String>)
    ensures
        copy == *name,
{
    match name {
        Some(name) => Some(name.clone()),
        None => None,
    }
}

/// The watch that a selector asks for.
pub open spec fn watch_for(
    selector: EndpointSliceSelectorConfig,
    self_addr: Option<PeerAddr>,
) -> EndpointSliceDiscoveryConfig {
    EndpointSliceDiscoveryConfig {
        namespace: selector.namespace,
        service_name: selector.service_name,
        port_name: selector.port_name,
        self_addr,
    }
}

/// The watches that a configuration asks for: its selectors, or else the one
/// service it names.
pub open spec fn watches(discovery: DiscoveryConfig) -> Result<
    Seq<EndpointSliceDiscoveryConfig>,
    ConfigFault,
> {
    if discovery.endpoint_slices@.len() > 0 {
        Ok(
            Seq::new(
                discovery.endpoint_slices@.len(),
                |i: int| watch_for(discovery.endpoint_slices@[i], discovery.self_addr),
            ),
        )
    } else if discovery.namespace is None {
        Err(ConfigFault::MissingKubernetesNamespace)
    } else if discovery.service_name is None {
        Err(ConfigFault::MissingKubernetesServiceName)
    } else {
        Ok(
            seq![
                EndpointSliceDiscoveryConfig {
                    namespace: discovery.namespace->0,
                    service_name: discovery.service_name->0,
                    port_name: discovery.port_name,
                    self_addr: discovery.self_addr,
                },
            ],
        )
    }
}

/// The watches that a configuration asks for.
pub fn endpoint_slice_configs_from_discovery(discovery: &DiscoveryConfig) -> (configs: Result<
    Vec<EndpointSliceDiscoveryConfig>,
    ConfigError,
>)
    ensures
        match configs {
            Ok(configs) => watches(*discovery) == Ok::<
                Seq<EndpointSliceDiscoveryConfig>,
                ConfigFault,
            >(configs@) && configs@.len() > 0,
            Err(error) => watches(*discovery) == Err::<
                Seq<EndpointSliceDiscoveryConfig>,
                ConfigFault,
            >(error@),
        },
{
    let mut out: Vec<EndpointSliceDiscoveryConfig> = Vec::new();
    if discovery.endpoint_slices.len() > 0 {
        let mut i: usize = 0;
        while i < discovery.endpoint_slices.len()
            invariant
                i <= discovery.endpoint_slices@.len(),
                out@.len() == i,
                forall|j: int|
                    0 <= j < i ==> #[trigger] out@[j] == watch_for(
                        discovery.endpoint_slices@[j],
                        discovery.self_addr,
                    ),
            decreases discovery.endpoint_slices@.len() - i,
        {
            let selector = &discovery.endpoint_slices[i];
            out.push(
                EndpointSliceDiscoveryConfig {
                    namespace: selector.namespace.clone(),
                    service_name: selector.service_name.clone(),
                    port_name: copy_name(&selector.port_name),
                    self_addr: discovery.self_addr,
                },
            );
            i = i + 1;
        }
        assert(out@ =~= watches(*discovery)->Ok_0);
        return Ok(out);
    }
    let namespace = match &discovery.namespace {
        Some(namespace) => namespace.clone(),
        None => {
            return Err(ConfigError::MissingKubernetesNamespace);
        },
    };
    let service_name = match &discovery.service_name {
        Some(service_name) => service_name.clone(),
        None => {
            return Err(ConfigError::MissingKubernetesServiceName);
        },
    };
    out.push(
        EndpointSliceDiscoveryConfig {
            namespace,
            service_name,
            port_name: copy_name(&discovery.port_name),
            self_addr: discovery.self_addr,
        },
    );
    assert(out@ =~= watches(*discovery)->Ok_0);
    Ok(out)
}

/// The first watch that a configuration asks for.
pub fn endpoint_slice_config_from_discovery(discovery: &DiscoveryConfig) -> (config: Result<
    EndpointSliceDiscoveryConfig,
    ConfigError,
>)
    ensures
        match config {
            Ok(config) => watches(*discovery) matches Ok(configs) && configs[0] == config,
            Err(error) => watches(*discovery) == Err::<
                Seq<EndpointSliceDiscoveryConfig>,
                ConfigFault,
            >(error@),
        },
{
    match endpoint_slice_configs_from_discovery(discovery) {
        Ok(configs) => {
            let mut configs = configs;
            let first = configs.swap_remove(0);
            Ok(first)
        },
        Err(error) => Err(error),
    }
}

// -- laws -------------------------------------------------------------------

/// A duration is a number and a unit: milliseconds, seconds, minutes or hours, in
/// milliseconds, as far as 64 bits hold it.
pub proof fn lemma_duration_reads(digits: Seq<char>, unit: Seq<char>, per_unit: int)
    requires
        0 < digits.len(),
        forall|i: int| 0 <= i < digits.len() ==> '0' <= #[trigger] digits[i] <= '9',
        (unit == "ms"@ && per_unit == 1) || (unit == "s"@ && per_unit == 1_000) || (unit == "m"@
            && per_unit == 60_000) || (unit == "h"@ && per_unit == 3_600_000),
    ensures
        match duration_millis(digits + unit) {
            Some(millis) => decimal_u64(digits) is Some && millis == decimal_u64(digits)->0
                * per_unit,
            None => match decimal_u64(digits) {
                Some(n) => n * per_unit > u64::MAX,
                None => true,
            },
        },
{
    reveal_strlit("ms");
    reveal_strlit("s");
    reveal_strlit("m");
    reveal_strlit("h");
    let text = digits + unit;
    let n = digits.len() as int;
    assert(unit.len() > 0);
    assert(text[0] == digits[0]);
    assert(text.last() == unit.last());
    assert(trimmed(text) =~= text);
    assert(trimmed(unit) =~= unit);
    let p = no_digit();
    assert(text[n] == unit[0]);
    assert(p(text[n]));
    assert forall|j: int| 0 <= j < n implies !p(#[trigger] text[j]) by {
        assert(text[j] == digits[j]);
    }
    lemma_first_where_at(text, p, n);
    assert(text.take(n) =~= digits);
    assert(text.skip(n) =~= unit);
    assert("s"@.len() == 1 && "m"@.len() == 1 && "h"@.len() == 1 && "ms"@.len() == 2);
    assert("s"@[0] == 's' && "m"@[0] == 'm' && "h"@[0] == 'h');
}

/// A number without a unit is no duration, nor is a unit without a number.
pub proof fn lemma_no_duration(text: Seq<char>)
    requires
        (forall|i: int| 0 <= i < text.len() ==> '0' <= #[trigger] text[i] <= '9') || (text.len() > 0
            && !('0' <= text[0] <= '9') && trimmed(text) == text),
    ensures
        duration_millis(text) is None,
{
    if forall|i: int| 0 <= i < text.len() ==> '0' <= #[trigger] text[i] <= '9' {
        if text.len() > 0 {
            assert('0' <= text[0] <= '9');
            assert('0' <= text[text.len() - 1] <= '9');
        }
        assert(trimmed(text) =~= text);
        lemma_first_where_none(text, no_digit());
    } else {
        lemma_first_where_at(text, no_digit(), 0);
        assert(text.take(0) =~= Seq::<char>::empty());
    }
}

/// A window has as many buckets as cover it, one at least, and not one more.
pub proof fn lemma_span_covers(window: u64, bucket: u64)
    requires
        0 < bucket,
        window <= usize::MAX,
    ensures
        bucket_span(window, bucket) >= 1,
        bucket_span(window, bucket) * bucket >= window,
        window > 0 ==> (bucket_span(window, bucket) - 1) * bucket < window,
{
    let w = window as int;
    let b = bucket as int;
    let whole = w / b;
    vstd::arithmetic::div_mod::lemma_fundamental_div_mod(w, b);
    vstd::arithmetic::div_mod::lemma_mod_bound(w, b);
    assert(b * whole == whole * b) by (nonlinear_arith);
    assert(0 <= whole && whole <= whole * b) by (nonlinear_arith)
        requires
            whole == w / b,
            b >= 1,
            w >= 0,
    ;
    assert((whole + 1) * b == whole * b + b) by (nonlinear_arith);
    assert((whole - 1) * b == whole * b - b) by (nonlinear_arith);
}

/// The most buckets are those of some rule, and no rule has more.
pub proof fn lemma_most_buckets(limits: Seq<LimitRuleConfig>)
    requires
        limits.len() > 0,
    ensures
        forall|i: int|
            0 <= i < limits.len() ==> (#[trigger] limits[i]).spec_bucket_count() <= most_buckets(
                limits,
            ),
        exists|i: int|
            0 <= i < limits.len() && (#[trigger] limits[i]).spec_bucket_count() == most_buckets(
                limits,
            ),
    decreases limits.len(),
{
    if limits.len() == 1 {
        assert(limits[0].spec_bucket_count() == most_buckets(limits));
    } else {
        let front = limits.drop_last();
        lemma_most_buckets(front);
        let i = choose|i: int|
            0 <= i < front.len() && (#[trigger] front[i]).spec_bucket_count() == most_buckets(
                front,
            );
        assert(limits[i] == front[i]);
        assert(limits[limits.len() - 1] == limits.last());
        assert forall|j: int| 0 <= j < limits.len() implies (
        #[trigger] limits[j]).spec_bucket_count() <= most_buckets(limits) by {
            if j < front.len() {
                assert(front[j] == limits[j]);
            }
        }
    }
}

/// What is wrong with some rules is what is wrong with the first that has a fault,
/// and nothing is if none has one.
pub proof fn lemma_first_fault_found(limits: Seq<LimitRuleConfig>, i: int)
    requires
        0 <= i <= limits.len(),
        forall|j: int| 0 <= j < i ==> (#[trigger] limits[j]).fault() is None,
        i < limits.len() ==> limits[i].fault() is Some,
    ensures
        first_fault(limits) == if i < limits.len() {
            limits[i].fault()
        } else {
            None::<ConfigFault>
        },
    decreases limits.len(),
{
    if limits.len() > 0 {
        let front = limits.drop_last();
        let k = if i < front.len() {
            i
        } else {
            front.len() as int
        };
        assert forall|j: int| 0 <= j < k implies (#[trigger] front[j]).fault() is None by {
            assert(front[j] == limits[j]);
        }
        lemma_first_fault_found(front, k);
    }
}

/// A rule has no fault exactly if it has descriptors and all its durations can be
/// read.
pub proof fn lemma_rule_without_fault(limit: LimitRuleConfig)
    ensures
        limit.fault() is None <==> {
            &&& limit.descriptors@.len() > 0
            &&& duration_millis(limit.window@) is Some
            &&& duration_millis(limit.bucket@) is Some
            &&& duration_millis(limit.stale_after@) is Some
        },
{
}

/// A configuration has no fault exactly if none of its rules has one and none has
/// more buckets than may be live at once.
pub proof fn lemma_config_without_fault(config: Config)
    requires
        config.limits@.len() > 0,
    ensures
        config.fault() is None <==> forall|i: int|
            0 <= i < config.limits@.len() ==> (#[trigger] config.limits@[i]).fault() is None
                && config.limits@[i].spec_bucket_count() <= config.storage.max_active_buckets,
{
    let limits = config.limits@;
    lemma_most_buckets(limits);
    if forall|i: int| 0 <= i < limits.len() ==> (#[trigger] limits[i]).fault() is None {
        lemma_first_fault_found(limits, limits.len() as int);
    } else {
        let p = |limit: LimitRuleConfig| limit.fault() is Some;
        lemma_first_where(limits, p);
        assert(first_where(limits, p) is Some);
        lemma_first_fault_found(limits, first_where(limits, p)->0);
    }
}

/// A rule is built as it was configured: its limits, its window and when it goes
/// stale in milliseconds, with as many buckets as cover the window, its patterns, its
/// domain, and how it is enforced.
pub proof fn lemma_rule_as_configured(limit: LimitRuleConfig, id: RuleId, rule: LocalRule)
    requires
        limit.builds(id, rule),
    ensures
        rule.id == id,
        rule.limit == limit.limit,
        rule.local_absolute_limit == limit.local_absolute_limit,
        rule.local_fallback_limit == limit.local_fallback_limit,
        rule.safety_margin.hits == limit.safety_margin.hits,
        rule.overflow_policy == limit.overflow_policy,
        rule.mode == limit.mode,
        Some(rule.window.size_millis) == duration_millis(limit.window@),
        Some(rule.stale_after_millis) == duration_millis(limit.stale_after@),
        rule.domain_hash == KeyHash(stable_hash(domain_input(limit.domain@))),
        rule.descriptors@.len() == limit.descriptors@.len(),
        forall|i: int|
            0 <= i < rule.descriptors@.len() ==> (#[trigger] rule.descriptors@[i]).key@
                == limit.descriptors@[i].key@ && rule.descriptors@[i].value@
                == limit.descriptors@[i].value@,
        duration_millis(limit.bucket@) matches Some(bucket) ==> 0 < bucket
            && rule.window.size_millis <= usize::MAX ==> {
            &&& rule.window.bucket_count >= 1
            &&& rule.window.bucket_count * bucket >= rule.window.size_millis
            &&& rule.window.size_millis > 0 ==> (rule.window.bucket_count - 1) * bucket
                < rule.window.size_millis
        },
{
    if let Some(bucket) = duration_millis(limit.bucket@) {
        if 0 < bucket && rule.window.size_millis <= usize::MAX {
            lemma_span_covers(rule.window.size_millis, bucket);
        }
    }
    let patterns = pattern_pairs(rule.descriptors@);
    let pairs = config_pairs(limit.descriptors@);
    assert(patterns.len() == pairs.len());
    assert forall|i: int| 0 <= i < rule.descriptors@.len() implies (
    #[trigger] rule.descriptors@[i]).key@ == limit.descriptors@[i].key@
        && rule.descriptors@[i].value@ == limit.descriptors@[i].value@ by {
        assert(patterns[i] == pairs[i]);
    }
}

/// Rules are numbered from one, in the order in which they were configured, and a
/// limiter starts with nothing counted.
pub proof fn lemma_limiter_as_configured(
    config: Config,
    identity: NodeIdentity,
    engine: LocalEngine,
    i: int,
)
    requires
        config.builds(identity, engine),
        config.limits@.len() < u32::MAX,
        0 <= i < config.limits@.len(),
    ensures
        engine.spec_rules().len() == config.limits@.len(),
        engine.spec_rules()[i].id == i + 1,
        engine.spec_rules()[i].limit == config.limits@[i].limit,
        engine@.slots.len() == 0,
        engine@.estimates.len() == 0,
        engine@.dirty.len() == 0,
        !engine@.overflowed,
        engine@.identity == identity,
        engine@.max_keys == config.storage.max_keys,
        config.storage.max_cells matches Some(cells) ==> engine@.max_cells == cells,
        config.storage.dirty_ring_entries matches Some(entries) ==> engine@.dirty_capacity
            == entries,
        config.storage.dirty_ring_entries is None ==> engine@.dirty_capacity == engine@.max_cells,
{
    assert(config.limits@[i].builds((i + 1) as RuleId, engine.spec_rules()[i]));
}

/// Services are watched as they are selected, each of them; without any, the one
/// that is named is, and both its names are needed.
pub proof fn lemma_services_watched(discovery: DiscoveryConfig, i: int)
    ensures
        discovery.endpoint_slices@.len() > 0 ==> watches(discovery) is Ok,
        discovery.endpoint_slices@.len() > 0 && 0 <= i < discovery.endpoint_slices@.len() ==> {
            let all = watches(discovery)->Ok_0;
            let selector = discovery.endpoint_slices@[i];
            &&& all.len() == discovery.endpoint_slices@.len()
            &&& all[i].namespace == selector.namespace
            &&& all[i].service_name == selector.service_name
            &&& all[i].port_name == selector.port_name
            &&& all[i].self_addr == discovery.self_addr
        },
        discovery.endpoint_slices@.len() == 0 ==> {
            &&& watches(discovery) is Ok <==> discovery.namespace is Some
                && discovery.service_name is Some
            &&& watches(discovery) matches Ok(all) ==> all.len() == 1 && Some(all[0].namespace)
                == discovery.namespace && Some(all[0].service_name) == discovery.service_name
                && all[0].port_name == discovery.port_name && all[0].self_addr
                == discovery.self_addr
        },
{
}

/// There is room for as many cells as configured; without a number, for every key's
/// whole window, as far as the machine can count.
pub proof fn lemma_room_for_windows(storage: StorageConfig, bucket_count: usize)
    ensures
        storage.max_cells matches Some(cells) ==> storage.cells(bucket_count) == cells,
        storage.max_cells is None && bucket_count > 0 && 0 < storage.max_keys * bucket_count
            <= usize::MAX ==> storage.cells(bucket_count) == storage.max_keys * bucket_count,
        storage.max_cells is None && storage.max_keys * bucket_count > usize::MAX
            ==> storage.cells(bucket_count) == usize::MAX,
{
    if bucket_count == 0 {
        assert(storage.max_keys * bucket_count == 0) by (nonlinear_arith)
            requires
                bucket_count == 0,
        ;
    }
}

} // verus!
