//! Who sends when, and what should be let through.
//!
//! Tenants send at a steady rate, and none at the same moment as another: the
//! first requests are spread over one interval.

use crate::loader::config::Config;
use vstd::prelude::*;

verus! {

/// A second, in nanoseconds.
pub const SECOND_NS: u128 = 1_000_000_000;

/// A millisecond, in nanoseconds.
pub const MILLI_NS: u128 = 1_000_000;

/// The most requests that a tenant can send in a second: one each nanosecond.
pub const MAX_RPS: u64 = 1_000_000_000;

/// A request to send.
#[derive(Clone, Copy, Debug, PartialEq, Eq, Structural)]
pub struct ScheduledRequest {
    /// When, from the start of the run.
    pub at_ns: u128,
    /// The window it falls into.
    pub window: u128,
}

// -- model ------------------------------------------------------------------

/// When a tenant begins: its share of one interval.
pub open spec fn phase(tenant: nat, tenants: nat, rps: nat) -> nat {
    (tenant * 1_000_000_000) / (tenants * rps)
}

/// When a tenant that began at `phase` sends its `k`th request.
pub open spec fn send_time(phase: nat, rps: nat, k: nat) -> nat {
    phase + (k * 1_000_000_000) / rps
}

/// How many requests a tenant sends before `end`.
pub open spec fn sent_before(phase: nat, rps: nat, end: nat) -> nat {
    if end <= phase {
        0
    } else {
        (((end - phase) * rps + 999_999_999) / 1_000_000_000) as nat
    }
}

/// The `k`th request.
pub open spec fn request_at(phase: nat, rps: nat, window_ns: nat, k: nat) -> ScheduledRequest {
    ScheduledRequest {
        at_ns: send_time(phase, rps, k) as u128,
        window: (send_time(phase, rps, k) / window_ns) as u128,
    }
}

/// A request is sent before `end` exactly if it is one of the first so many.
pub proof fn lemma_sent_before(phase: nat, rps: nat, end: nat, k: nat)
    requires
        rps > 0,
    ensures
        send_time(phase, rps, k) < end <==> k < sent_before(phase, rps, end),
{
    let t = (k * 1_000_000_000) / rps;
    assert(0 <= t && t * rps <= k * 1_000_000_000 && k * 1_000_000_000 < t * rps + rps)
        by (nonlinear_arith)
        requires
            t == (k * 1_000_000_000) / rps,
            rps > 0,
            k >= 0,
    ;
    if end > phase {
        let d = end - phase;
        let p = d * rps;
        let n = (p + 999_999_999) / 1_000_000_000;
        assert(0 <= p) by (nonlinear_arith)
            requires
                p == d * rps,
                d > 0,
                rps > 0,
        ;
        assert(t < d <==> k * 1_000_000_000 < p) by (nonlinear_arith)
            requires
                t * rps <= k * 1_000_000_000,
                k * 1_000_000_000 < t * rps + rps,
                p == d * rps,
                rps > 0,
        ;
    }
}

// -- code -------------------------------------------------------------------

/// When a tenant begins, in nanoseconds from the start of the run.
pub fn tenant_phase_ns(tenant: usize, tenants: usize, rps: u64) -> (phase_ns: u64)
    requires
        tenant < tenants,
        rps > 0,
    ensures
        phase_ns == phase(tenant as nat, tenants as nat, rps as nat),
        phase_ns < SECOND_NS,
{
    proof {
        let n = tenants as int;
        let r = rps as int;
        assert(0 < n * r <= u64::MAX * u64::MAX) by (nonlinear_arith)
            requires
                0 < n <= u64::MAX,
                0 < r <= u64::MAX,
        ;
    }
    let divisor: u128 = tenants as u128 * rps as u128;
    assert(tenants as u128 * rps as u128 > 0 && (tenant as u128 * SECOND_NS) / (tenants as u128
        * rps as u128) < SECOND_NS) by (nonlinear_arith)
        requires
            tenant < tenants,
            rps > 0,
            SECOND_NS == 1_000_000_000,
    ;
    ((tenant as u128 * SECOND_NS) / divisor) as u64
}

/// The requests of one tenant, one after the other.
#[derive(Debug)]
pub struct TenantSchedule {
    phase_ns: u64,
    rps: u64,
    window_ns: u128,
    end_ns: u128,
    next: u128,
}

/// The longest run, in nanoseconds: as many milliseconds as a machine word
/// counts.
pub open spec fn longest_run() -> int {
    u64::MAX * 1_000_000
}

impl TenantSchedule {
    pub closed spec fn spec_phase(&self) -> nat {
        self.phase_ns as nat
    }

    pub closed spec fn spec_rps(&self) -> nat {
        self.rps as nat
    }

    pub closed spec fn spec_window(&self) -> nat {
        self.window_ns as nat
    }

    pub closed spec fn spec_end(&self) -> nat {
        self.end_ns as nat
    }

    /// Number of requests handed out.
    pub closed spec fn spec_next(&self) -> nat {
        self.next as nat
    }

    pub open spec fn same_run(&self, other: &TenantSchedule) -> bool {
        &&& self.spec_phase() == other.spec_phase()
        &&& self.spec_rps() == other.spec_rps()
        &&& self.spec_window() == other.spec_window()
        &&& self.spec_end() == other.spec_end()
    }

    /// All requests of the tenant.
    pub open spec fn all(&self) -> Seq<ScheduledRequest> {
        Seq::new(
            sent_before(self.spec_phase(), self.spec_rps(), self.spec_end()),
            |k: int|
                request_at(self.spec_phase(), self.spec_rps(), self.spec_window(), k as nat),
        )
    }

    pub closed spec fn wf(&self) -> bool {
        &&& 0 < self.rps <= MAX_RPS
        &&& self.phase_ns < SECOND_NS
        &&& 0 < self.window_ns
        &&& self.end_ns <= longest_run()
        &&& self.next <= sent_before(self.phase_ns as nat, self.rps as nat, self.end_ns as nat)
    }

    /// The requests of a tenant in a run of `duration_ns`.
    pub fn new(config: &Config, tenant: usize, duration_ns: u128) -> (schedule: TenantSchedule)
        requires
            tenant < config.tenants,
            0 < config.rps_per_tenant <= MAX_RPS,
            0 < config.window_ms,
            duration_ns <= longest_run(),
        ensures
            schedule.wf(),
            schedule.spec_phase() == phase(
                tenant as nat,
                config.tenants as nat,
                config.rps_per_tenant as nat,
            ),
            schedule.spec_rps() == config.rps_per_tenant,
            schedule.spec_window() == config.window_ms * 1_000_000,
            schedule.spec_end() == duration_ns,
            schedule.spec_next() == 0,
    {
        TenantSchedule {
            phase_ns: tenant_phase_ns(tenant, config.tenants, config.rps_per_tenant),
            rps: config.rps_per_tenant,
            window_ns: config.window_ms as u128 * MILLI_NS,
            end_ns: duration_ns,
            next: 0,
        }
    }

    /// The next request, if the run is not over by then.
    pub fn next_request(&mut self) -> (request: Option<ScheduledRequest>)
        requires
            old(self).wf(),
        ensures
            final(self).wf(),
            final(self).same_run(old(self)),
            if old(self).spec_next() < old(self).all().len() {
                &&& request == Some(old(self).all()[old(self).spec_next() as int])
                &&& final(self).spec_next() == old(self).spec_next() + 1
            } else {
                &&& request is None
                &&& final(self).spec_next() == old(self).spec_next()
            },
    {
        proof {
            lemma_sent_before(
                self.phase_ns as nat,
                self.rps as nat,
                self.end_ns as nat,
                self.next as nat,
            );
            lemma_count_fits(self.phase_ns as nat, self.rps as nat, self.end_ns as nat);
        }
        let at_ns: u128 = self.phase_ns as u128 + (self.next * SECOND_NS) / self.rps as u128;
        proof {
            let a = self.next * SECOND_NS;
            let r = self.rps as int;
            assert(a / r >= 0) by (nonlinear_arith)
                requires
                    a >= 0,
                    r > 0,
            ;
        }
        if at_ns >= self.end_ns {
            return None;
        }
        self.next = self.next + 1;
        Some(ScheduledRequest { at_ns, window: at_ns / self.window_ns })
    }

    /// All requests of the tenant that were not handed out yet.
    pub fn collect(&mut self) -> (requests: Vec<ScheduledRequest>)
        requires
            old(self).wf(),
        ensures
            final(self).wf(),
            final(self).same_run(old(self)),
            requests@ == old(self).all().skip(old(self).spec_next() as int),
            final(self).spec_next() == old(self).all().len(),
    {
        let ghost all = self.all();
        let ghost from = self.spec_next() as int;
        let mut requests: Vec<ScheduledRequest> = Vec::new();
        loop
            invariant
                self.wf(),
                self.same_run(old(self)),
                all == old(self).all(),
                all == self.all(),
                0 <= from <= self.spec_next() <= all.len(),
                requests@ =~= all.subrange(from, self.spec_next() as int),
                from == old(self).spec_next(),
            decreases all.len() - self.spec_next(),
        {
            let ghost k = self.spec_next() as int;
            match self.next_request() {
                Some(request) => {
                    requests.push(request);
                    assert(self.all() =~= all);
                },
                None => {
                    assert(self.all() =~= all);
                    assert(all.subrange(from, all.len() as int) =~= all.skip(from));
                    return requests;
                },
            }
        }
    }
}

/// The count of requests, and the moments of all of them, fit.
proof fn lemma_count_fits(phase: nat, rps: nat, end: nat)
    requires
        0 < rps <= MAX_RPS,
        phase < SECOND_NS,
        end <= longest_run(),
    ensures
        sent_before(phase, rps, end) * 1_000_000_000 + 2_000_000_000 <= u128::MAX,
{
    if end > phase {
        let d = end - phase;
        let p = d * rps;
        assert(0 <= p <= longest_run() * 1_000_000_000) by (nonlinear_arith)
            requires
                p == d * rps,
                0 <= d <= longest_run(),
                0 < rps <= 1_000_000_000,
        ;
    }
}

// -- expectations -----------------------------------------------------------

pub open spec fn smaller(a: int, b: int) -> int {
    if a < b {
        a
    } else {
        b
    }
}

pub open spec fn capped(sum: int) -> u64 {
    if sum <= u64::MAX {
        sum as u64
    } else {
        u64::MAX
    }
}

/// How many requests a tenant sends before `end`.
pub open spec fn tenant_sent(config: &Config, tenant: nat, end: nat) -> nat {
    sent_before(
        phase(tenant, config.tenants as nat, config.rps_per_tenant as nat),
        config.rps_per_tenant as nat,
        end,
    )
}

/// Where a window begins.
pub open spec fn window_start(config: &Config, window: nat) -> nat {
    (window * (config.window_ms * 1_000_000)) as nat
}

/// What a tenant should be allowed in a window: what it sends, up to its
/// budget.
pub open spec fn tenant_allowed(config: &Config, tenant: nat, window: nat) -> int {
    smaller(
        tenant_sent(config, tenant, window_start(config, window + 1)) - tenant_sent(
            config,
            tenant,
            window_start(config, window),
        ),
        config.budget_per_tenant as int,
    )
}

/// What the first `tenants` tenants should be allowed in a window.
pub open spec fn allowed_in(config: &Config, window: nat, tenants: nat) -> int
    decreases tenants,
{
    if tenants == 0 {
        0
    } else {
        allowed_in(config, window, (tenants - 1) as nat) + tenant_allowed(
            config,
            (tenants - 1) as nat,
            window,
        )
    }
}

/// What all tenants should be allowed in the first `windows` windows.
pub open spec fn allowed_until(config: &Config, windows: nat) -> int
    decreases windows,
{
    if windows == 0 {
        0
    } else {
        allowed_until(config, (windows - 1) as nat) + capped(
            allowed_in(config, (windows - 1) as nat, config.tenants as nat),
        )
    }
}

/// What the first `tenants` tenants send in a number of windows.
pub open spec fn attempts_of(config: &Config, windows: nat, tenants: nat) -> int
    decreases tenants,
{
    if tenants == 0 {
        0
    } else {
        attempts_of(config, windows, (tenants - 1) as nat) + tenant_sent(
            config,
            (tenants - 1) as nat,
            window_start(config, windows),
        )
    }
}

/// Whether a run can be planned: a rate that can be kept, windows of some
/// length, and no more of them than a machine word counts milliseconds.
pub open spec fn plannable(config: &Config, windows: nat) -> bool {
    &&& 0 < config.rps_per_tenant <= MAX_RPS
    &&& 0 < config.window_ms
    &&& windows * config.window_ms <= u64::MAX
}

proof fn lemma_windows_grow(config: &Config, a: nat, b: nat)
    requires
        a <= b,
        plannable(config, b),
    ensures
        window_start(config, a) <= window_start(config, b) <= longest_run(),
        plannable(config, a),
{
    let w = config.window_ms as int;
    assert(a * w <= b * w) by (nonlinear_arith)
        requires
            a <= b,
            w > 0,
    ;
    assert(a * (w * 1_000_000) == a * w * 1_000_000 && b * (w * 1_000_000) == b * w * 1_000_000)
        by (nonlinear_arith);
}

proof fn lemma_sent_grows(phase: nat, rps: nat, a: nat, b: nat)
    requires
        a <= b,
        rps > 0,
    ensures
        sent_before(phase, rps, a) <= sent_before(phase, rps, b),
{
    if a > phase {
        assert((a - phase) * rps <= (b - phase) * rps) by (nonlinear_arith)
            requires
                a <= b,
                rps > 0,
        ;
        assert((a - phase) * rps >= 0) by (nonlinear_arith)
            requires
                a > phase,
                rps > 0,
        ;
    } else if b > phase {
        assert((b - phase) * rps >= 0) by (nonlinear_arith)
            requires
                b > phase,
                rps > 0,
        ;
    }
}

/// How many requests a tenant sends before the end of a number of windows.
fn count_sent(config: &Config, tenant: usize, windows: u64) -> (count: u128)
    requires
        tenant < config.tenants,
        plannable(config, windows as nat),
    ensures
        count == tenant_sent(config, tenant as nat, window_start(config, windows as nat)),
        count <= u128::MAX / 4,
{
    let phase_ns: u128 = tenant_phase_ns(tenant, config.tenants, config.rps_per_tenant) as u128;
    proof {
        lemma_windows_grow(config, windows as nat, windows as nat);
        let w = config.window_ms as int;
        assert(windows * (w * 1_000_000) == windows * w * 1_000_000) by (nonlinear_arith);
        assert(windows * w == w * windows) by (nonlinear_arith);
    }
    let end: u128 = windows as u128 * (config.window_ms as u128 * MILLI_NS);
    if end <= phase_ns {
        return 0;
    }
    let rps: u128 = config.rps_per_tenant as u128;
    proof {
        let d = end - phase_ns;
        let r = rps as int;
        assert(0 <= d * r <= longest_run() * 1_000_000_000) by (nonlinear_arith)
            requires
                0 <= d <= longest_run(),
                0 < r <= 1_000_000_000,
        ;
    }
    ((end - phase_ns) * rps + 999_999_999) / SECOND_NS
}

fn expected_in(config: &Config, window: u64) -> (allowed: u64)
    requires
        plannable(config, (window + 1) as nat),
        window < u64::MAX,
    ensures
        allowed == capped(allowed_in(config, window as nat, config.tenants as nat)),
        allowed_in(config, window as nat, config.tenants as nat) >= 0,
{
    let mut allowed: u64 = 0;
    let mut tenant: usize = 0;
    proof {
        lemma_windows_grow(config, window as nat, (window + 1) as nat);
    }
    while tenant < config.tenants
        invariant
            tenant <= config.tenants,
            window < u64::MAX,
            plannable(config, (window + 1) as nat),
            plannable(config, window as nat),
            window_start(config, window as nat) <= window_start(config, (window + 1) as nat),
            allowed == capped(allowed_in(config, window as nat, tenant as nat)),
            allowed_in(config, window as nat, tenant as nat) >= 0,
        decreases config.tenants - tenant,
    {
        let before: u128 = count_sent(config, tenant, window);
        let after: u128 = count_sent(config, tenant, window + 1);
        proof {
            lemma_sent_grows(
                phase(tenant as nat, config.tenants as nat, config.rps_per_tenant as nat),
                config.rps_per_tenant as nat,
                window_start(config, window as nat),
                window_start(config, (window + 1) as nat),
            );
        }
        let sent: u128 = after - before;
        let mine: u64 = if sent < config.budget_per_tenant as u128 {
            sent as u64
        } else {
            config.budget_per_tenant
        };
        allowed = allowed.saturating_add(mine);
        tenant = tenant + 1;
    }
    allowed
}

/// What should be let through in each window: of every tenant, what it sends,
/// up to its budget.
pub fn expected_allowed_per_window(config: &Config, windows: u64) -> (expected: Vec<u64>)
    requires
        plannable(config, windows as nat),
        windows <= usize::MAX,
    ensures
        expected@ == Seq::new(
            windows as nat,
            |w: int| capped(allowed_in(config, w as nat, config.tenants as nat)),
        ),
{
    let mut expected: Vec<u64> = Vec::new();
    let mut w: u64 = 0;
    while w < windows
        invariant
            w <= windows,
            plannable(config, windows as nat),
            expected@ =~= Seq::new(
                w as nat,
                |v: int| capped(allowed_in(config, v as nat, config.tenants as nat)),
            ),
        decreases windows - w,
    {
        proof {
            lemma_windows_grow(config, (w + 1) as nat, windows as nat);
        }
        expected.push(expected_in(config, w));
        w = w + 1;
    }
    expected
}

/// What should be let through altogether.
pub fn expected_allowed_total(config: &Config, windows: u64) -> (expected: u64)
    requires
        plannable(config, windows as nat),
    ensures
        expected == capped(allowed_until(config, windows as nat)),
{
    let mut expected: u64 = 0;
    let mut w: u64 = 0;
    while w < windows
        invariant
            w <= windows,
            plannable(config, windows as nat),
            expected == capped(allowed_until(config, w as nat)),
            allowed_until(config, w as nat) >= 0,
        decreases windows - w,
    {
        proof {
            lemma_windows_grow(config, (w + 1) as nat, windows as nat);
        }
        expected = expected.saturating_add(expected_in(config, w));
        w = w + 1;
    }
    expected
}

/// What is sent altogether.
pub fn expected_attempts_total(config: &Config, windows: u64) -> (expected: u64)
    requires
        plannable(config, windows as nat),
    ensures
        expected == capped(attempts_of(config, windows as nat, config.tenants as nat)),
{
    let mut expected: u64 = 0;
    let mut tenant: usize = 0;
    while tenant < config.tenants
        invariant
            tenant <= config.tenants,
            plannable(config, windows as nat),
            expected == capped(attempts_of(config, windows as nat, tenant as nat)),
            attempts_of(config, windows as nat, tenant as nat) >= 0,
        decreases config.tenants - tenant,
    {
        let sent: u128 = count_sent(config, tenant, windows);
        let sum: u128 = expected as u128 + sent;
        expected = if sum > u64::MAX as u128 { u64::MAX } else { sum as u64 };
        tenant = tenant + 1;
    }
    expected
}

// -- laws -------------------------------------------------------------------

/// A tenant never sends more in a second than its rate allows, whatever the
/// rate: where the interval is no whole number of nanoseconds, requests do not
/// pile up.
pub proof fn lemma_rate_kept(phase: nat, rps: nat)
    requires
        rps > 0,
    ensures
        sent_before(phase, rps, phase + 1_000_000_000) == rps,
{
    assert(1_000_000_000 * rps + 999_999_999 == rps * 1_000_000_000 + 999_999_999)
        by (nonlinear_arith);
}

/// Requests are sent in order.
pub proof fn lemma_sent_in_order(phase: nat, rps: nat, j: nat, k: nat)
    requires
        rps > 0,
        j <= k,
    ensures
        send_time(phase, rps, j) <= send_time(phase, rps, k),
{
    let a = (j * 1_000_000_000) / rps;
    let b = (k * 1_000_000_000) / rps;
    assert(a <= b) by (nonlinear_arith)
        requires
            a == (j * 1_000_000_000) / rps,
            b == (k * 1_000_000_000) / rps,
            j <= k,
            rps > 0,
    ;
}

/// No tenant is expected to be allowed more than its budget, nor more than it
/// sends.
pub proof fn lemma_allowed_bounded(config: &Config, tenant: nat, window: nat)
    ensures
        tenant_allowed(config, tenant, window) <= config.budget_per_tenant,
        tenant_allowed(config, tenant, window) <= tenant_sent(
            config,
            tenant,
            window_start(config, window + 1),
        ) - tenant_sent(config, tenant, window_start(config, window)),
{
}

} // verus!
