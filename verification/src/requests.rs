//! What a caller asks of a limiter, and what it is answered.

use crate::crdt::KeyHash;
use crate::rules::{Descriptor, RuleId};
use vstd::prelude::*;
use vstd::utf8::encode_utf8;

verus! {

/// The answer to a request.
#[derive(Clone, Copy, Debug, PartialEq, Eq, Structural)]
pub enum Decision {
    Allow,
    Reject(RejectReason),
}

/// Why a request was rejected.
#[derive(Clone, Copy, Debug, PartialEq, Eq, Structural)]
pub enum RejectReason {
    /// This node's own count would pass its hard cap.
    LocalAbsoluteLimit,
    /// The count of the whole cluster would pass the limit.
    GlobalLimit,
    /// Nothing fresh is known of the cluster, and this node's own count would
    /// pass the cap that holds meanwhile.
    LocalFallbackLimit,
}

/// A request as it comes in: a domain and its descriptors.
#[derive(Clone, Copy, Debug)]
pub struct LimitRequest<'a> {
    pub domain: &'a str,
    pub descriptors: &'a [Descriptor<'a>],
    pub hits: u64,
}

/// A request whose rule and key are known already.
#[derive(Clone, Copy, Debug, PartialEq, Eq, Structural)]
pub struct HashedLimitRequest {
    pub rule_id: RuleId,
    pub key_hash: KeyHash,
    pub hits: u64,
}

impl HashedLimitRequest {
    pub fn new(rule_id: RuleId, key_hash: u128, hits: u64) -> (request: HashedLimitRequest)
        ensures
            request == (HashedLimitRequest { rule_id, key_hash: KeyHash(key_hash), hits }),
    {
        HashedLimitRequest { rule_id, key_hash: KeyHash(key_hash), hits }
    }
}

/// A request with the time at which it was made.
#[derive(Clone, Copy, Debug, PartialEq, Eq, Structural)]
pub struct TimedHashedLimitRequest {
    pub request: HashedLimitRequest,
    pub now_millis: u64,
}

impl TimedHashedLimitRequest {
    pub fn new(request: HashedLimitRequest, now_millis: u64) -> (timed: TimedHashedLimitRequest)
        ensures
            timed == (TimedHashedLimitRequest { request, now_millis }),
    {
        TimedHashedLimitRequest { request, now_millis }
    }

    pub fn request(&self) -> (request: HashedLimitRequest)
        ensures
            request == self.request,
    {
        self.request
    }

    pub fn now_millis(&self) -> (now_millis: u64)
        ensures
            now_millis == self.now_millis,
    {
        self.now_millis
    }
}

/// How many descriptors a request may carry, and how long.
#[derive(Clone, Copy, Debug, PartialEq, Eq, Structural)]
pub struct CardinalityLimits {
    pub max_descriptor_count: usize,
    pub max_descriptor_bytes: usize,
    pub max_key_bytes: usize,
}

/// Which limit a request goes over.
#[derive(Clone, Copy, Debug, PartialEq, Eq, Structural)]
pub enum CardinalityError {
    TooManyDescriptors,
    KeyTooLong,
    DescriptorTooLong,
}

/// Bytes of a text.
pub open spec fn byte_len(text: Seq<char>) -> nat {
    encode_utf8(text).len()
}

/// What is wrong with one descriptor.
pub open spec fn descriptor_error(
    key: Seq<char>,
    value: Seq<char>,
    limits: CardinalityLimits,
) -> Option<CardinalityError> {
    if byte_len(key) > limits.max_key_bytes {
        Some(CardinalityError::KeyTooLong)
    } else if byte_len(key) + byte_len(value) > limits.max_descriptor_bytes {
        Some(CardinalityError::DescriptorTooLong)
    } else {
        None
    }
}

/// What is wrong with the first descriptor that something is wrong with.
pub open spec fn first_error(
    descriptors: Seq<Descriptor<'_>>,
    limits: CardinalityLimits,
) -> Option<CardinalityError>
    decreases descriptors.len(),
{
    if descriptors.len() == 0 {
        None
    } else {
        match first_error(descriptors.drop_last(), limits) {
            Some(error) => Some(error),
            None => descriptor_error(
                descriptors.last().key@,
                descriptors.last().value@,
                limits,
            ),
        }
    }
}

/// What is wrong with a request's descriptors.
pub open spec fn cardinality_error(
    descriptors: Seq<Descriptor<'_>>,
    limits: CardinalityLimits,
) -> Option<CardinalityError> {
    if descriptors.len() > limits.max_descriptor_count {
        Some(CardinalityError::TooManyDescriptors)
    } else {
        first_error(descriptors, limits)
    }
}

impl<'a> LimitRequest<'a> {
    /// Refuses a request with too many or too long descriptors.
    pub fn validate_cardinality(&self, limits: CardinalityLimits) -> (outcome: Result<
        (),
        CardinalityError,
    >)
        ensures
            outcome == match cardinality_error(self.descriptors@, limits) {
                Some(error) => Err(error),
                None => Ok(()),
            },
    {
        let descriptors = self.descriptors;
        let n: usize = descriptors.len();
        if n > limits.max_descriptor_count {
            return Err(CardinalityError::TooManyDescriptors);
        }
        let mut i: usize = 0;
        while i < n
            invariant
                i <= n == descriptors@.len(),
                first_error(descriptors@.take(i as int), limits) is None,
                descriptors@ == self.descriptors@,
                n <= limits.max_descriptor_count,
            decreases n - i,
        {
            proof {
                assert(descriptors@.take(i + 1).drop_last() =~= descriptors@.take(i as int));
                if descriptor_error(
                    descriptors@[i as int].key@,
                    descriptors@[i as int].value@,
                    limits,
                ) is Some {
                    lemma_first_error_stays(descriptors@, limits, i + 1);
                }
            }
            let key: usize = descriptors[i].key.as_bytes().len();
            let value: usize = descriptors[i].value.as_bytes().len();
            if key > limits.max_key_bytes {
                return Err(CardinalityError::KeyTooLong);
            }
            if key > limits.max_descriptor_bytes || value > limits.max_descriptor_bytes - key {
                return Err(CardinalityError::DescriptorTooLong);
            }
            i = i + 1;
        }
        assert(descriptors@.take(n as int) =~= descriptors@);
        Ok(())
    }
}

/// An error among the first `n` descriptors is the error of all of them.
proof fn lemma_first_error_stays(
    descriptors: Seq<Descriptor<'_>>,
    limits: CardinalityLimits,
    n: int,
)
    requires
        0 <= n <= descriptors.len(),
        first_error(descriptors.take(n), limits) is Some,
    ensures
        first_error(descriptors, limits) == first_error(descriptors.take(n), limits),
    decreases descriptors.len() - n,
{
    if n == descriptors.len() {
        assert(descriptors.take(n) =~= descriptors);
    } else {
        assert(descriptors.take(n + 1).drop_last() =~= descriptors.take(n));
        lemma_first_error_stays(descriptors, limits, n + 1);
    }
}

proof fn lemma_first_error(descriptors: Seq<Descriptor<'_>>, limits: CardinalityLimits, i: int)
    requires
        0 <= i <= descriptors.len(),
        forall|j: int|
            0 <= j < i ==> descriptor_error(
                (#[trigger] descriptors[j]).key@,
                descriptors[j].value@,
                limits,
            ) is None,
        i < descriptors.len() ==> descriptor_error(
            descriptors[i].key@,
            descriptors[i].value@,
            limits,
        ) is Some,
    ensures
        first_error(descriptors, limits) == if i < descriptors.len() {
            descriptor_error(descriptors[i].key@, descriptors[i].value@, limits)
        } else {
            None::<CardinalityError>
        },
    decreases descriptors.len(),
{
    if descriptors.len() > 0 {
        let front = descriptors.drop_last();
        let k = if i < front.len() {
            i
        } else {
            front.len() as int
        };
        assert forall|j: int| 0 <= j < k implies descriptor_error(
            (#[trigger] front[j]).key@,
            front[j].value@,
            limits,
        ) is None by {
            assert(front[j] == descriptors[j]);
        }
        lemma_first_error(front, limits, k);
    }
}

/// Whether a descriptor is small enough: its key, and its key and value together,
/// in bytes.
pub open spec fn small_enough(descriptor: Descriptor<'_>, limits: CardinalityLimits) -> bool {
    &&& encode_utf8(descriptor.key@).len() <= limits.max_key_bytes
    &&& encode_utf8(descriptor.key@).len() + encode_utf8(descriptor.value@).len()
        <= limits.max_descriptor_bytes
}

/// A request passes exactly if it has no more descriptors than it may and each of
/// them is small enough. If it has too many, that is what is said of it; else it is
/// what is wrong with the first that is too large, of its key first.
pub proof fn lemma_cardinality_checked(
    descriptors: Seq<Descriptor<'_>>,
    limits: CardinalityLimits,
    i: int,
)
    requires
        0 <= i <= descriptors.len(),
        forall|j: int| 0 <= j < i ==> small_enough(#[trigger] descriptors[j], limits),
        i < descriptors.len() ==> !small_enough(descriptors[i], limits),
    ensures
        cardinality_error(descriptors, limits) == if descriptors.len()
            > limits.max_descriptor_count {
            Some(CardinalityError::TooManyDescriptors)
        } else if i == descriptors.len() {
            None
        } else if encode_utf8(descriptors[i].key@).len() > limits.max_key_bytes {
            Some(CardinalityError::KeyTooLong)
        } else {
            Some(CardinalityError::DescriptorTooLong)
        },
{
    lemma_first_error(descriptors, limits, i);
}

} // verus!
