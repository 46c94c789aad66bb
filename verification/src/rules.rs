//! Rate-limit rules and the stable hashes that identify them across nodes.
//!
//! Two nodes with identical rule text compute identical fingerprints, domain
//! hashes and key hashes without coordinating.

pub mod laws;

use crate::bytes::{le, push_le};
pub use crate::crdt::KeyHash;
use crate::period::{measure_period, period_nanos, SPAN_NANOS};
use crate::text::{decimal_u64, find_pair, pair_at, parse_u64, same_text, trim, trimmed};
use crate::time::Duration;
use twox_hash::xxhash3_128::{RawHasher, SecretBuffer};
use vstd::prelude::*;
use vstd::utf8::encode_utf8;

verus! {

/// Process-local rule number; gossip uses fingerprints instead.
pub type RuleId = u32;

/// How a rule is enforced. The mode is not part of a rule's fingerprint: nodes
/// that enforce the same rule differently still share its counters.
#[derive(Clone, Copy, Debug, PartialEq, Eq, Structural)]
pub enum EnforcementMode {
    /// Count, and reject what is over the limit.
    Enforce,
    /// Count, and reject nothing.
    DryRun,
    /// Leave the rule out altogether.
    Disabled,
}

impl Default for EnforcementMode {
    fn default() -> (mode: EnforcementMode)
        ensures
            mode == EnforcementMode::Enforce,
    {
        EnforcementMode::Enforce
    }
}

/// One key and value of a request.
#[derive(Clone, Copy, Debug, PartialEq, Eq)]
pub struct Descriptor<'a> {
    pub key: &'a str,
    pub value: &'a str,
}

/// One key and value of a rule. The value `*` matches any value.
#[derive(Clone, Debug, PartialEq, Eq)]
pub struct DescriptorPattern {
    pub key: String,
    pub value: String,
}

impl DescriptorPattern {
    pub open spec fn spec_matches(&self, descriptor: Descriptor<'_>) -> bool {
        self.key@ == descriptor.key@ && (self.value@ == "*"@ || self.value@ == descriptor.value@)
    }

    pub fn matches(&self, descriptor: Descriptor<'_>) -> (matched: bool)
        ensures
            matched == self.spec_matches(descriptor),
    {
        same_text(self.key.as_str(), descriptor.key) && (same_text(self.value.as_str(), "*")
            || same_text(self.value.as_str(), descriptor.value))
    }
}

// -- hashing ----------------------------------------------------------------

/// The XXH3 128-bit hash of `input` under `seed` and `secret`.
pub uninterp spec fn xxh3_128(seed: u64, secret: Seq<u8>, input: Seq<u8>) -> u128;

/// Hashes with `twox_hash::xxhash3_128`: `SecretBuffer::new`, which takes any
/// secret of at least 136 bytes, `RawHasher::new`, one `write` and
/// `finish_128`. Claims that the result depends on the seed, the secret and the
/// input alone, and names it [`xxh3_128`].
#[verifier::external_body]
pub(crate) fn xxh3(seed: u64, secret: [u8; 192], input: &[u8]) -> (hash: u128)
    ensures
        hash == xxh3_128(seed, secret@, input@),
{
    let secret = SecretBuffer::new(seed, secret).expect("the secret is long enough");
    let mut hasher = RawHasher::new(secret);
    hasher.write(input);
    hasher.finish_128()
}

/// The fixed secret of all identities.
pub open spec fn identity_secret() -> Seq<u8> {
    Seq::new(192, |i: int| 0x9du8)
}

/// The hash that identities are made with.
pub open spec fn stable_hash(input: Seq<u8>) -> u128 {
    xxh3_128(0, identity_secret(), input)
}

/// Hashes bytes into an identity.
pub fn stable_hash_of(input: &[u8]) -> (hash: u128)
    ensures
        hash == stable_hash(input@),
{
    let secret: [u8; 192] = [0x9d; 192];
    assert(secret@ =~= identity_secret());
    xxh3(0, secret, input)
}

/// What a domain hash covers.
pub open spec fn domain_input(domain: Seq<char>) -> Seq<u8> {
    encode_utf8("gabion.domain.v1"@) + seq![0u8] + encode_utf8(domain)
}

/// One descriptor as hashes see it.
pub open spec fn descriptor_input(key: Seq<char>, value: Seq<char>) -> Seq<u8> {
    encode_utf8(key) + seq![0u8] + encode_utf8(value) + seq![0xffu8]
}

/// Descriptors one after the other.
pub open spec fn descriptors_input(pairs: Seq<(Seq<char>, Seq<char>)>) -> Seq<u8>
    decreases pairs.len(),
{
    if pairs.len() == 0 {
        Seq::empty()
    } else {
        descriptors_input(pairs.drop_last()) + descriptor_input(pairs.last().0, pairs.last().1)
    }
}

/// What a key hash covers.
pub open spec fn key_input(
    rule_id: RuleId,
    domain: Seq<char>,
    pairs: Seq<(Seq<char>, Seq<char>)>,
) -> Seq<u8> {
    encode_utf8("gabion.key.v1"@) + seq![0u8] + le(rule_id as nat, 8) + encode_utf8(domain)
        + seq![0u8] + descriptors_input(pairs)
}

/// What a rule fingerprint covers.
pub open spec fn rule_input(domain: Seq<char>, pairs: Seq<(Seq<char>, Seq<char>)>) -> Seq<u8> {
    encode_utf8("gabion.rule.v1"@) + seq![0u8] + encode_utf8(domain) + seq![0u8]
        + descriptors_input(pairs)
}

/// Keys and values of a request.
pub open spec fn request_pairs(descriptors: Seq<Descriptor<'_>>) -> Seq<(Seq<char>, Seq<char>)> {
    Seq::new(descriptors.len(), |i: int| (descriptors[i].key@, descriptors[i].value@))
}

/// Keys and values of a rule.
pub open spec fn pattern_pairs(patterns: Seq<DescriptorPattern>) -> Seq<(Seq<char>, Seq<char>)> {
    Seq::new(patterns.len(), |i: int| (patterns[i].key@, patterns[i].value@))
}

fn push_bytes(out: &mut Vec<u8>, bytes: &[u8])
    ensures
        final(out)@ == old(out)@ + bytes@,
{
    let mut i: usize = 0;
    assert(out@ =~= old(out)@ + bytes@.take(0));
    while i < bytes.len()
        invariant
            i <= bytes@.len(),
            out@ == old(out)@ + bytes@.take(i as int),
        decreases bytes@.len() - i,
    {
        out.push(bytes[i]);
        assert(out@ =~= old(out)@ + bytes@.take(i + 1));
        i = i + 1;
    }
    assert(bytes@.take(i as int) =~= bytes@);
}

fn push_descriptor(out: &mut Vec<u8>, key: &str, value: &str)
    ensures
        final(out)@ == old(out)@ + descriptor_input(key@, value@),
{
    push_bytes(out, key.as_bytes());
    out.push(0);
    push_bytes(out, value.as_bytes());
    out.push(0xff);
    assert(out@ =~= old(out)@ + descriptor_input(key@, value@));
}

/// The hash of a domain.
pub fn hash_domain(domain: &str) -> (hash: KeyHash)
    ensures
        hash == KeyHash(stable_hash(domain_input(domain@))),
{
    let mut input: Vec<u8> = Vec::new();
    push_bytes(&mut input, "gabion.domain.v1".as_bytes());
    input.push(0);
    push_bytes(&mut input, domain.as_bytes());
    assert(input@ =~= domain_input(domain@));
    KeyHash(stable_hash_of(input.as_slice()))
}

/// The hash of a limiter key: a rule, a domain and the request's descriptors.
pub fn hash_key(rule_id: RuleId, domain: &str, descriptors: &[Descriptor<'_>]) -> (hash: KeyHash)
    ensures
        hash == KeyHash(stable_hash(key_input(rule_id, domain@, request_pairs(descriptors@)))),
{
    let mut input: Vec<u8> = Vec::new();
    push_bytes(&mut input, "gabion.key.v1".as_bytes());
    input.push(0);
    push_le(&mut input, rule_id as u128, 8);
    push_bytes(&mut input, domain.as_bytes());
    input.push(0);
    let ghost base = input@;
    let ghost pairs = request_pairs(descriptors@);
    let mut i: usize = 0;
    assert(pairs.take(0) =~= Seq::<(Seq<char>, Seq<char>)>::empty());
    assert(input@ =~= base + descriptors_input(pairs.take(0)));
    while i < descriptors.len()
        invariant
            i <= descriptors@.len(),
            pairs == request_pairs(descriptors@),
            input@ == base + descriptors_input(pairs.take(i as int)),
        decreases descriptors@.len() - i,
    {
        let d = descriptors[i];
        push_descriptor(&mut input, d.key, d.value);
        proof {
            assert(pairs.take(i + 1).drop_last() =~= pairs.take(i as int));
            assert(input@ =~= base + descriptors_input(pairs.take(i + 1)));
        }
        i = i + 1;
    }
    assert(pairs.take(i as int) =~= pairs);
    assert(input@ =~= key_input(rule_id, domain@, pairs));
    KeyHash(stable_hash_of(input.as_slice()))
}

/// The identity of a rule's shape that nodes share, independent of any
/// process-local rule number.
pub fn rule_fingerprint(domain: &str, descriptors: &[DescriptorPattern]) -> (fingerprint: u128)
    ensures
        fingerprint == stable_hash(rule_input(domain@, pattern_pairs(descriptors@))),
{
    let mut input: Vec<u8> = Vec::new();
    push_bytes(&mut input, "gabion.rule.v1".as_bytes());
    input.push(0);
    push_bytes(&mut input, domain.as_bytes());
    input.push(0);
    let ghost base = input@;
    let ghost pairs = pattern_pairs(descriptors@);
    let mut i: usize = 0;
    assert(pairs.take(0) =~= Seq::<(Seq<char>, Seq<char>)>::empty());
    assert(input@ =~= base + descriptors_input(pairs.take(0)));
    while i < descriptors.len()
        invariant
            i <= descriptors@.len(),
            pairs == pattern_pairs(descriptors@),
            input@ == base + descriptors_input(pairs.take(i as int)),
        decreases descriptors@.len() - i,
    {
        push_descriptor(&mut input, descriptors[i].key.as_str(), descriptors[i].value.as_str());
        proof {
            assert(pairs.take(i + 1).drop_last() =~= pairs.take(i as int));
            assert(input@ =~= base + descriptors_input(pairs.take(i + 1)));
        }
        i = i + 1;
    }
    assert(pairs.take(i as int) =~= pairs);
    assert(input@ =~= rule_input(domain@, pairs));
    stable_hash_of(input.as_slice())
}

// -- rules ------------------------------------------------------------------

/// One rate-limit rule.
#[derive(Clone, Debug, PartialEq, Eq)]
pub struct Rule {
    pub id: RuleId,
    /// Identity across nodes, from domain and descriptors.
    pub fingerprint: u128,
    pub domain: String,
    pub domain_hash: KeyHash,
    pub descriptors: Vec<DescriptorPattern>,
    pub limit: u64,
    pub window_millis: u64,
    pub bucket_millis: u64,
    pub live_buckets: u32,
    pub mode: EnforcementMode,
}

/// Zero counts as one.
pub open spec fn at_least_one(v: u64) -> u64 {
    if v == 0 {
        1
    } else {
        v
    }
}

/// How many buckets a window spans, rounded up.
pub open spec fn buckets_in(window_millis: u64, bucket_millis: u64) -> u64 {
    let window = at_least_one(window_millis);
    let bucket = at_least_one(bucket_millis);
    (window / bucket + if window % bucket == 0 {
        0int
    } else {
        1
    }) as u64
}

impl Rule {
    /// Builds a rule, deriving fingerprint and domain hash from domain and
    /// descriptors. Zero widths are read as one millisecond.
    pub fn new(
        id: RuleId,
        domain: String,
        descriptors: Vec<DescriptorPattern>,
        limit: u64,
        window_millis: u64,
        bucket_millis: u64,
        mode: EnforcementMode,
    ) -> (rule: Rule)
        ensures
            rule == (Rule {
                id,
                fingerprint: stable_hash(rule_input(domain@, pattern_pairs(descriptors@))),
                domain,
                domain_hash: KeyHash(stable_hash(domain_input(domain@))),
                descriptors,
                limit,
                window_millis: at_least_one(window_millis),
                bucket_millis: at_least_one(bucket_millis),
                live_buckets: buckets_in(window_millis, bucket_millis) as u32,
                mode,
            }),
    {
        let fingerprint: u128 = rule_fingerprint(domain.as_str(), descriptors.as_slice());
        let domain_hash = hash_domain(domain.as_str());
        let window: u64 = if window_millis == 0 { 1 } else { window_millis };
        let bucket: u64 = if bucket_millis == 0 { 1 } else { bucket_millis };
        let whole: u64 = window / bucket;
        proof {
            assert(window % bucket != 0 ==> window / bucket < window) by (nonlinear_arith)
                requires
                    window >= 1,
                    bucket >= 1,
            ;
        }
        let buckets: u64 = if window % bucket == 0 { whole } else { whole + 1 };
        Rule {
            id,
            fingerprint,
            domain,
            domain_hash,
            descriptors,
            limit,
            window_millis: window,
            bucket_millis: bucket,
            live_buckets: buckets as u32,
            mode,
        }
    }

    /// The rule's numbers, for the decision path.
    pub fn spec(&self) -> (spec: RuleSpec)
        ensures
            spec == (RuleSpec {
                id: self.id,
                fingerprint: self.fingerprint,
                limit: self.limit,
                bucket_millis: self.bucket_millis,
                window_millis: self.window_millis,
                live_buckets: self.live_buckets,
            }),
    {
        RuleSpec {
            id: self.id,
            fingerprint: self.fingerprint,
            limit: self.limit,
            bucket_millis: self.bucket_millis,
            window_millis: self.window_millis,
            live_buckets: self.live_buckets,
        }
    }
}

/// The numbers of a rule, by value.
#[derive(Clone, Copy, Debug, PartialEq, Eq, Structural)]
pub struct RuleSpec {
    pub id: RuleId,
    pub fingerprint: u128,
    pub limit: u64,
    pub bucket_millis: u64,
    pub window_millis: u64,
    pub live_buckets: u32,
}

/// The configured rules, in order.
#[derive(Clone, Debug, PartialEq, Eq)]
pub struct RuleTable {
    rules: Vec<Rule>,
}

impl Default for RuleTable {
    fn default() -> (table: RuleTable)
        ensures
            table@ == Seq::<Rule>::empty(),
    {
        RuleTable { rules: Vec::new() }
    }
}

/// Whether patterns and descriptors match one by one.
pub open spec fn shape_matches(
    patterns: Seq<DescriptorPattern>,
    descriptors: Seq<Descriptor<'_>>,
) -> bool {
    &&& patterns.len() == descriptors.len()
    &&& forall|i: int|
        0 <= i < patterns.len() ==> (#[trigger] patterns[i]).spec_matches(descriptors[i])
}

/// Whether a rule applies to a request: it is not disabled, and domain and
/// descriptors match.
pub open spec fn rule_applies(
    rule: Rule,
    domain: Seq<char>,
    descriptors: Seq<Descriptor<'_>>,
) -> bool {
    &&& rule.mode != EnforcementMode::Disabled
    &&& rule.domain_hash == KeyHash(stable_hash(domain_input(domain)))
    &&& shape_matches(rule.descriptors@, descriptors)
}

/// The rules that apply, in table order.
pub open spec fn applicable(
    rules: Seq<Rule>,
    domain: Seq<char>,
    descriptors: Seq<Descriptor<'_>>,
) -> Seq<Rule>
    decreases rules.len(),
{
    if rules.len() == 0 {
        Seq::empty()
    } else {
        let before = applicable(rules.drop_last(), domain, descriptors);
        if rule_applies(rules.last(), domain, descriptors) {
            before.push(rules.last())
        } else {
            before
        }
    }
}

impl RuleTable {
    pub closed spec fn view(&self) -> Seq<Rule> {
        self.rules@
    }

    pub fn new(rules: Vec<Rule>) -> (table: RuleTable)
        ensures
            table@ == rules@,
    {
        RuleTable { rules }
    }

    /// All rules, in order.
    pub fn iter(&self) -> (rules: &[Rule])
        ensures
            rules@ == self@,
    {
        self.rules.as_slice()
    }

    pub fn len(&self) -> (len: usize)
        ensures
            len == self@.len(),
    {
        self.rules.len()
    }

    pub fn is_empty(&self) -> (empty: bool)
        ensures
            empty == (self@.len() == 0),
    {
        self.rules.len() == 0
    }

    /// The first rule with this number.
    pub fn get(&self, id: RuleId) -> (rule: Option<&Rule>)
        ensures
            match rule {
                Some(r) => exists|i: int|
                    0 <= i < self@.len() && *r == #[trigger] self@[i] && self@[i].id == id
                        && forall|j: int| 0 <= j < i ==> (#[trigger] self@[j]).id != id,
                None => forall|j: int| 0 <= j < self@.len() ==> (#[trigger] self@[j]).id != id,
            },
    {
        let mut i: usize = 0;
        while i < self.rules.len()
            invariant
                i <= self.rules@.len(),
                self@ == self.rules@,
                forall|j: int| 0 <= j < i ==> (#[trigger] self@[j]).id != id,
            decreases self.rules@.len() - i,
        {
            if self.rules[i].id == id {
                assert(self@[i as int].id == id);
                return Some(&self.rules[i]);
            }
            i = i + 1;
        }
        None
    }

    /// The rules that apply to a request, disabled ones left out. Rules in
    /// dry-run mode are there too: their hits are counted, so callers look at
    /// the mode before they reject.
    pub fn matching<'a>(&'a self, domain: &str, descriptors: &[Descriptor<'_>]) -> (rules: Vec<
        &'a Rule,
    >)
        ensures
            Seq::new(rules@.len(), |i: int| *rules@[i]) == applicable(
                self@,
                domain@,
                descriptors@,
            ),
    {
        let domain_hash = hash_domain(domain);
        let mut out: Vec<&'a Rule> = Vec::new();
        let mut i: usize = 0;
        assert(self@.take(0) =~= Seq::<Rule>::empty());
        assert(Seq::new(out@.len(), |k: int| *out@[k]) =~= Seq::<Rule>::empty());
        while i < self.rules.len()
            invariant
                i <= self.rules@.len(),
                self@ == self.rules@,
                domain_hash == KeyHash(stable_hash(domain_input(domain@))),
                Seq::new(out@.len(), |k: int| *out@[k]) == applicable(
                    self@.take(i as int),
                    domain@,
                    descriptors@,
                ),
            decreases self.rules@.len() - i,
        {
            let rule = &self.rules[i];
            let ghost before = out@;
            if rule.mode != EnforcementMode::Disabled && rule.domain_hash == domain_hash
                && patterns_match(&rule.descriptors, descriptors) {
                out.push(rule);
                assert(Seq::new(out@.len(), |k: int| *out@[k]) =~= Seq::new(
                    before.len(),
                    |k: int| *before[k],
                ).push(*rule));
            }
            assert(self@.take(i + 1).drop_last() =~= self@.take(i as int));
            i = i + 1;
        }
        assert(self@.take(i as int) =~= self@);
        out
    }
}

pub(crate) fn patterns_match(patterns: &Vec<DescriptorPattern>, descriptors: &[Descriptor<'_>]) -> (matched:
    bool)
    ensures
        matched == shape_matches(patterns@, descriptors@),
{
    if patterns.len() != descriptors.len() {
        return false;
    }
    let mut i: usize = 0;
    while i < patterns.len()
        invariant
            i <= patterns@.len() == descriptors@.len(),
            forall|j: int|
                0 <= j < i ==> (#[trigger] patterns@[j]).spec_matches(descriptors@[j]),
        decreases patterns@.len() - i,
    {
        if !patterns[i].matches(descriptors[i]) {
            return false;
        }
        i = i + 1;
    }
    true
}

/// Disabled rules never apply, and every rule handed out is one of the table
/// that does apply.
pub proof fn lemma_matching_sound(
    rules: Seq<Rule>,
    domain: Seq<char>,
    descriptors: Seq<Descriptor<'_>>,
)
    ensures
        forall|i: int|
            0 <= i < applicable(rules, domain, descriptors).len() ==> {
                let rule = #[trigger] applicable(rules, domain, descriptors)[i];
                &&& rule.mode != EnforcementMode::Disabled
                &&& rules.contains(rule)
                &&& rule_applies(rule, domain, descriptors)
            },
    decreases rules.len(),
{
    if rules.len() > 0 {
        let prefix = rules.drop_last();
        lemma_matching_sound(prefix, domain, descriptors);
        assert forall|i: int| 0 <= i < applicable(rules, domain, descriptors).len() implies {
            let rule = #[trigger] applicable(rules, domain, descriptors)[i];
            rules.contains(rule) && rule_applies(rule, domain, descriptors)
        } by {
            let rule = applicable(rules, domain, descriptors)[i];
            if i < applicable(prefix, domain, descriptors).len() {
                assert(rule == applicable(prefix, domain, descriptors)[i]);
                let k = choose|k: int| 0 <= k < prefix.len() && prefix[k] == rule;
                assert(rules[k] == rule);
            } else {
                assert(rules[rules.len() - 1] == rule);
            }
        }
    }
}

/// Whether some patterns fit some descriptors, one by one: the same key, and the
/// same value or the one that stands for any.
pub open spec fn patterns_fit(
    patterns: Seq<DescriptorPattern>,
    descriptors: Seq<Descriptor<'_>>,
) -> bool {
    &&& patterns.len() == descriptors.len()
    &&& forall|i: int|
        0 <= i < patterns.len() ==> {
            &&& (#[trigger] patterns[i]).key@ == descriptors[i].key@
            &&& patterns[i].value@ == "*"@ || patterns[i].value@ == descriptors[i].value@
        }
}

pub proof fn lemma_patterns_fit(
    patterns: Seq<DescriptorPattern>,
    descriptors: Seq<Descriptor<'_>>,
)
    ensures
        shape_matches(patterns, descriptors) == patterns_fit(patterns, descriptors),
{
    if patterns_fit(patterns, descriptors) {
        assert forall|i: int| 0 <= i < patterns.len() implies (
        #[trigger] patterns[i]).spec_matches(descriptors[i]) by {}
    }
    if shape_matches(patterns, descriptors) {
        assert forall|i: int| 0 <= i < patterns.len() implies {
            &&& (#[trigger] patterns[i]).key@ == descriptors[i].key@
            &&& patterns[i].value@ == "*"@ || patterns[i].value@ == descriptors[i].value@
        } by {
            assert(patterns[i].spec_matches(descriptors[i]));
        }
    }
}

/// Matching is complete: handed out are all rules that are not disabled, are for
/// the domain, and fit the descriptors, as often and in the order in which they
/// stand in the table.
pub proof fn lemma_matching_complete(
    rules: Seq<Rule>,
    domain: Seq<char>,
    descriptors: Seq<Descriptor<'_>>,
)
    ensures
        applicable(rules, domain, descriptors) == rules.filter(
            |rule: Rule|
                {
                    &&& rule.mode != EnforcementMode::Disabled
                    &&& rule.domain_hash == KeyHash(stable_hash(domain_input(domain)))
                    &&& patterns_fit(rule.descriptors@, descriptors)
                },
        ),
    decreases rules.len(),
{
    reveal(Seq::filter);
    if rules.len() > 0 {
        lemma_matching_complete(rules.drop_last(), domain, descriptors);
        lemma_patterns_fit(rules.last().descriptors@, descriptors);
    }
}

/// A table that is extended hands out what it did, and then what of the rest
/// applies.
pub proof fn lemma_matching_extends(
    rules: Seq<Rule>,
    more: Seq<Rule>,
    domain: Seq<char>,
    descriptors: Seq<Descriptor<'_>>,
)
    ensures
        applicable(rules + more, domain, descriptors) == applicable(rules, domain, descriptors)
            + applicable(more, domain, descriptors),
    decreases more.len(),
{
    if more.len() == 0 {
        assert(rules + more =~= rules);
    } else {
        lemma_matching_extends(rules, more.drop_last(), domain, descriptors);
        assert((rules + more).drop_last() =~= rules + more.drop_last());
    }
}

// -- rates ------------------------------------------------------------------

/// A humantime duration, as whole seconds and the nanoseconds below one second.
pub uninterp spec fn humantime_duration(text: Seq<char>) -> Option<(u64, u32)>;

/// Whether a period comes to less than 2^64 seconds.
pub open spec fn readable(text: Seq<char>) -> bool {
    period_nanos(text) < SPAN_NANOS
}

/// `humantime::parse_duration`, with any error as `None`. Claims that the result
/// depends on the text alone, and names it [`humantime_duration`]; the
/// nanoseconds of a duration stay below one second. The parser adds up one
/// number after the other, each by its unit, and panics, in `Duration::new`,
/// where the seconds are the most that 64 bits hold and the nanoseconds are
/// exactly one more; on every other sum that large it fails. So it does not
/// panic on texts that come to less.
#[verifier::external_body]
fn parse_humantime(text: &str) -> (parsed: Option<(u64, u32)>)
    requires
        readable(text@),
    ensures
        parsed == humantime_duration(text@),
        parsed matches Some(p) ==> p.1 < 1_000_000_000,
{
    match humantime::parse_duration(text) {
        Ok(d) => Some((d.as_secs(), d.subsec_nanos())),
        Err(_) => None,
    }
}

/// Where the first `r/` stands.
pub open spec fn rate_mark(text: Seq<char>) -> Option<int> {
    if exists|i: int| pair_at(text, i, 'r', '/') {
        Some(
            choose|i: int|
                #![trigger pair_at(text, i, 'r', '/')]
                pair_at(text, i, 'r', '/') && forall|j: int|
                    0 <= j < i ==> !#[trigger] pair_at(text, j, 'r', '/'),
        )
    } else {
        None
    }
}

/// The period a rate names: one of the four unit letters, or a duration.
pub open spec fn period_of(text: Seq<char>) -> Option<Duration> {
    if text == "s"@ {
        Some(Duration { secs: 1, nanos: 0 })
    } else if text == "m"@ {
        Some(Duration { secs: 60, nanos: 0 })
    } else if text == "h"@ {
        Some(Duration { secs: 3600, nanos: 0 })
    } else if text == "d"@ {
        Some(Duration { secs: 86400, nanos: 0 })
    } else if !readable(text) {
        None
    } else {
        match humantime_duration(text) {
            Some((secs, nanos)) => Some(Duration { secs, nanos }),
            None => None,
        }
    }
}

/// What a rate comes to once its number and its period have been read.
pub open spec fn rate_outcome(count: Option<u64>, period: Option<Duration>) -> Result<
    (u64, Duration),
    Seq<char>,
> {
    match count {
        None => Err("rate count must be a non-negative integer (e.g. `rate=100r/s`)"@),
        Some(count) => if count == 0 {
            Err("`rate=` must be a positive integer; zero would deny all traffic"@)
        } else {
            match period {
                None => Err(
                    "rate period must be `s`, `m`, `h`, `d`, or a duration like `30s`, `5m`"@,
                ),
                Some(period) => if period.total_nanos() == 0 {
                    Err("rate period must be greater than zero"@)
                } else {
                    Ok((count, period))
                },
            }
        },
    }
}

/// What a rate without surrounding whitespace says.
pub open spec fn rate_of(text: Seq<char>) -> Result<(u64, Duration), Seq<char>> {
    match rate_mark(text) {
        None => Err(
            "expected `rate=Nr/<unit>` where unit is `s|m|h|d` or a duration (e.g. `rate=100r/s`, `rate=10r/5m`)"@,
        ),
        Some(i) => rate_outcome(
            decimal_u64(text.take(i)),
            period_of(text.skip(i + 2)),
        ),
    }
}

/// A result with its message spelled out.
pub open spec fn spelled<T>(outcome: Result<T, &str>) -> Result<T, Seq<char>> {
    match outcome {
        Ok(v) => Ok(v),
        Err(message) => Err(message@),
    }
}

/// Puts a rate together from its number and its period.
pub fn finish_rate(count: Option<u64>, period: Option<Duration>) -> (rate: Result<
    (u64, Duration),
    &'static str,
>)
    ensures
        spelled(rate) == rate_outcome(count, period),
{
    let count: u64 = match count {
        Some(count) => count,
        None => {
            return Err("rate count must be a non-negative integer (e.g. `rate=100r/s`)");
        },
    };
    if count == 0 {
        return Err("`rate=` must be a positive integer; zero would deny all traffic");
    }
    match period {
        Some(period) => if period.is_zero() {
            Err("rate period must be greater than zero")
        } else {
            Ok((count, period))
        },
        None => Err("rate period must be `s`, `m`, `h`, `d`, or a duration like `30s`, `5m`"),
    }
}

fn parse_period(text: &str) -> (period: Option<Duration>)
    ensures
        period == period_of(text@),
        period matches Some(p) ==> p.wf(),
{
    if same_text(text, "s") {
        return Some(Duration::from_secs(1));
    }
    if same_text(text, "m") {
        return Some(Duration::from_secs(60));
    }
    if same_text(text, "h") {
        return Some(Duration::from_secs(3600));
    }
    if same_text(text, "d") {
        return Some(Duration::from_secs(86400));
    }
    if measure_period(text) >= SPAN_NANOS {
        return None;
    }
    match parse_humantime(text) {
        Some((secs, nanos)) => Some(Duration { secs, nanos }),
        None => None,
    }
}

/// Reads a rate that has no whitespace around it.
pub fn parse_trimmed_rate(text: &str) -> (rate: Result<(u64, Duration), &'static str>)
    ensures
        spelled(rate) == rate_of(text@),
        rate matches Ok((count, period)) ==> count > 0 && period.wf() && period.total_nanos() > 0,
{
    let n: usize = text.unicode_len();
    match find_pair(text, 'r', '/') {
        None => {
            Err(
                "expected `rate=Nr/<unit>` where unit is `s|m|h|d` or a duration (e.g. `rate=100r/s`, `rate=10r/5m`)",
            )
        },
        Some(i) => {
            proof {
                let k = rate_mark(text@)->0;
                assert(pair_at(text@, i as int, 'r', '/'));
                assert(pair_at(text@, k, 'r', '/') && forall|j: int|
                    0 <= j < k ==> !#[trigger] pair_at(text@, j, 'r', '/'));
                assert(k == i) by {
                    if k < i {
                        assert(!pair_at(text@, k, 'r', '/'));
                    }
                    if i < k {
                        assert(!pair_at(text@, i as int, 'r', '/'));
                    }
                }
                assert(text@.subrange(0, i as int) =~= text@.take(i as int));
                assert(text@.subrange(i + 2, n as int) =~= text@.skip(i + 2));
            }
            let count: Option<u64> = parse_u64(text.substring_char(0, i));
            let period = parse_period(text.substring_char(i + 2, n));
            finish_rate(count, period)
        },
    }
}

/// Reads a rate like `100r/s`, `10r/5m` or `1r/2h30m`: a count, `r/`, and a
/// unit letter or a duration. A zero count and a zero period are refused, and so
/// is a period of 2^64 seconds or more.
pub fn parse_rate(input: &str) -> (rate: Result<(u64, Duration), &'static str>)
    ensures
        spelled(rate) == rate_of(trimmed(input@)),
        rate matches Ok((count, period)) ==> count > 0 && period.wf() && period.total_nanos() > 0,
{
    parse_trimmed_rate(trim(input))
}

/// A limit over a window, cut into buckets.
#[derive(Clone, Copy, Debug, PartialEq, Eq, Structural)]
pub struct ResolvedRate {
    pub limit: u64,
    pub window_millis: u64,
    pub bucket_millis: u64,
}

/// Why a rate, a window and a bucket do not go together.
#[derive(Clone, Copy, Debug, PartialEq, Eq, Structural)]
pub enum RateResolveError {
    /// The window is shorter than the rate's period.
    WindowShorterThanPeriod,
    /// The window is zero.
    ZeroWindow,
    /// The bucket is zero.
    ZeroBucket,
    /// Rate times window does not fit into 64 bits.
    LimitOverflow,
}

impl RateResolveError {
    /// What to tell the operator.
    pub fn message(self) -> (text: &'static str)
        ensures
            text@ == match self {
                RateResolveError::WindowShorterThanPeriod =>
                    "`window=` must be at least as long as the rate's period; a sub-period window would resolve to a zero limit. To enforce N requests in a shorter span, write the period into the rate itself (e.g. `rate=100r/500ms`)."@,
                RateResolveError::ZeroWindow => "`window=` must be greater than zero"@,
                RateResolveError::ZeroBucket => "`bucket=` must be greater than zero"@,
                RateResolveError::LimitOverflow =>
                    "rate × window would overflow a 64-bit limit; pick a smaller `rate=` count or a shorter `window=`"@,
            },
    {
        match self {
            RateResolveError::WindowShorterThanPeriod =>
                "`window=` must be at least as long as the rate's period; a sub-period window would resolve to a zero limit. To enforce N requests in a shorter span, write the period into the rate itself (e.g. `rate=100r/500ms`).",
            RateResolveError::ZeroWindow => "`window=` must be greater than zero",
            RateResolveError::ZeroBucket => "`bucket=` must be greater than zero",
            RateResolveError::LimitOverflow =>
                "rate × window would overflow a 64-bit limit; pick a smaller `rate=` count or a shorter `window=`",
        }
    }
}

/// What a rate over a window comes to. The window defaults to the rate's
/// period, the bucket to the window; the limit is the rate scaled to the window,
/// rounded down.
pub open spec fn resolved(
    rate_count: u64,
    period: Duration,
    window: Option<Duration>,
    bucket: Option<Duration>,
) -> Result<ResolvedRate, RateResolveError> {
    let window = match window {
        Some(w) => w,
        None => period,
    };
    let bucket = match bucket {
        Some(b) => b,
        None => window,
    };
    if window.total_nanos() == 0 {
        Err(RateResolveError::ZeroWindow)
    } else if window.total_nanos() < period.total_nanos() {
        Err(RateResolveError::WindowShorterThanPeriod)
    } else if bucket.total_nanos() == 0 {
        Err(RateResolveError::ZeroBucket)
    } else if rate_count * window.spec_millis() > u64::MAX {
        Err(RateResolveError::LimitOverflow)
    } else {
        Ok(
            ResolvedRate {
                limit: ((rate_count * window.spec_millis()) / at_least_one(
                    period.spec_millis(),
                ) as int) as u64,
                window_millis: window.spec_millis(),
                bucket_millis: bucket.spec_millis(),
            },
        )
    }
}

/// Scales a rate to a window.
pub fn resolve_rate(
    rate_count: u64,
    period: Duration,
    window: Option<Duration>,
    bucket: Option<Duration>,
) -> (rate: Result<ResolvedRate, RateResolveError>)
    requires
        period.wf(),
        window matches Some(w) ==> w.wf(),
        bucket matches Some(b) ==> b.wf(),
    ensures
        rate == resolved(rate_count, period, window, bucket),
{
    let window = match window {
        Some(w) => w,
        None => period,
    };
    if window.is_zero() {
        return Err(RateResolveError::ZeroWindow);
    }
    if window.shorter_than(&period) {
        return Err(RateResolveError::WindowShorterThanPeriod);
    }
    let bucket = match bucket {
        Some(b) => b,
        None => window,
    };
    if bucket.is_zero() {
        return Err(RateResolveError::ZeroBucket);
    }
    let window_millis: u64 = window.saturating_millis();
    let period_millis: u64 = period.saturating_millis();
    let period_millis: u64 = if period_millis == 0 { 1 } else { period_millis };
    let bucket_millis: u64 = bucket.saturating_millis();
    match rate_count.checked_mul(window_millis) {
        Some(product) => Ok(
            ResolvedRate { limit: product / period_millis, window_millis, bucket_millis },
        ),
        None => Err(RateResolveError::LimitOverflow),
    }
}

/// A positive rate never resolves to a zero limit, as long as its period is at
/// least a millisecond: a window shorter than the period is refused.
pub proof fn lemma_resolved_limit_positive(
    rate_count: u64,
    period: Duration,
    window: Option<Duration>,
    bucket: Option<Duration>,
)
    requires
        rate_count > 0,
        period.spec_millis() > 0,
    ensures
        resolved(rate_count, period, window, bucket) matches Ok(rate) ==> rate.limit > 0,
{
    let w = match window {
        Some(w) => w,
        None => period,
    };
    if resolved(rate_count, period, window, bucket) is Ok {
        vstd::arithmetic::div_mod::lemma_div_is_ordered(
            period.total_nanos() as int,
            w.total_nanos() as int,
            1_000_000,
        );
        let wm = w.spec_millis() as int;
        let pm = period.spec_millis() as int;
        assert(rate_count * wm >= pm) by (nonlinear_arith)
            requires
                rate_count >= 1,
                wm >= pm,
                pm >= 1,
        ;
        assert((rate_count * wm) / pm >= 1) by (nonlinear_arith)
            requires
                rate_count * wm >= pm,
                pm >= 1,
        ;
    }
}

/// Without a window of its own, a rate's limit is its count: the window is the
/// period.
pub proof fn lemma_default_window_keeps_count(rate_count: u64, period: Duration)
    requires
        period.spec_millis() > 0,
    ensures
        resolved(rate_count, period, None, None) matches Ok(rate) ==> rate.limit == rate_count
            && rate.window_millis == period.spec_millis() && rate.bucket_millis
            == period.spec_millis(),
{
    let pm = period.spec_millis() as int;
    assert((rate_count * pm) / pm == rate_count) by (nonlinear_arith)
        requires
            pm > 0,
    ;
}

} // verus!
