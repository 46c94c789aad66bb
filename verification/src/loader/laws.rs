//! What schedules, targets and totals of a load come to.

use super::config::{
    as_set, number_or, settings_fault, Backend, Config, Settings, SettingsError,
};
use super::http::{
    authority_of, cut_path, host_and_port, length_of, line_length, path_of, request_of, status_of,
    target_of, TargetView,
};
use super::schedule::{
    allowed_in, allowed_until, attempts_of, phase, request_at, send_time, sent_before, tenant_sent,
};
use super::summary::{added, Counters, Outcome};
use crate::seqs::{lemma_first_where_at, lemma_first_where_none};
use crate::text::{
    decimal_digits, decimal_u64, is_char, last_place, lemma_decimal_roundtrip, lemma_first_place,
    lemma_last_place, place_from, same_but_case, trimmed,
};
use vstd::prelude::*;

verus! {

// -- schedules --------------------------------------------------------------

/// A tenant's requests are as far apart as its rate makes them, to the nanosecond.
pub proof fn lemma_requests_spaced(phase_ns: nat, rps: nat, k: nat)
    requires
        rps > 0,
    ensures
        ({
            let since = send_time(phase_ns, rps, k) - phase_ns;
            &&& 0 <= since
            &&& since * rps <= k * 1_000_000_000 < (since + 1) * rps
        }),
{
    let total = k * 1_000_000_000;
    let since = total / rps;
    assert(since * rps <= total < (since + 1) * rps) by (nonlinear_arith)
        requires
            since == total / rps,
            rps > 0,
    ;
}

/// Tenants begin one after the other, evenly over the time between two requests of
/// one of them: the first at once, and one more than there are would begin with the
/// first one's second request.
pub proof fn lemma_tenants_spread(tenant: nat, tenants: nat, rps: nat)
    requires
        tenants > 0,
        rps > 0,
    ensures
        ({
            let begins = phase(tenant, tenants, rps);
            &&& begins * (tenants * rps) <= tenant * 1_000_000_000 < (begins + 1) * (tenants * rps)
        }),
        phase(0, tenants, rps) == 0,
        phase(tenants, tenants, rps) == send_time(0, rps, 1),
        phase(tenant, tenants, rps) <= phase(tenant + 1, tenants, rps),
{
    let d = tenants * rps;
    assert(d > 0) by (nonlinear_arith)
        requires
            d == tenants * rps,
            tenants > 0,
            rps > 0,
    ;
    let total = tenant * 1_000_000_000;
    let begins = total / d;
    assert(begins * d <= total < (begins + 1) * d) by (nonlinear_arith)
        requires
            begins == total / d,
            d > 0,
    ;
    assert(0nat / d == 0) by (nonlinear_arith)
        requires
            d > 0,
    ;
    let second = 1_000_000_000int;
    let n = tenants as int;
    let r = rps as int;
    assert(n * r > 0) by (nonlinear_arith)
        requires
            n > 0,
            r > 0,
    ;
    vstd::arithmetic::div_mod::lemma_div_multiples_vanish_quotient(n, second, r);
    assert(n * second == second * n) by (nonlinear_arith);
    vstd::arithmetic::div_mod::lemma_div_is_ordered(
        total as int,
        (tenant + 1) as int * 1_000_000_000,
        d as int,
    );
}

/// A request falls into the window that its time lies in.
pub proof fn lemma_request_in_window(phase_ns: nat, rps: nat, window_ns: nat, k: nat)
    requires
        window_ns > 0,
        send_time(phase_ns, rps, k) <= u128::MAX,
    ensures
        ({
            let request = request_at(phase_ns, rps, window_ns, k);
            &&& request.at_ns == send_time(phase_ns, rps, k)
            &&& request.window * window_ns <= request.at_ns < (request.window + 1) * window_ns
        }),
{
    let at = send_time(phase_ns, rps, k);
    let w = at / window_ns;
    assert(0 <= w <= at && w * window_ns <= at < (w + 1) * window_ns) by (nonlinear_arith)
        requires
            w == at / window_ns,
            window_ns > 0,
    ;
}

/// In a window a tenant is let through as often as it asks, up to its budget, and
/// all tenants together as often as each of them; what it asks is what it sends
/// from the start of the window to the start of the next.
pub proof fn lemma_allowed_is_a_sum(config: &Config, window: nat, tenants: nat)
    ensures
        allowed_in(config, window, tenants) == Seq::new(tenants, |t: int| t as nat).fold_left(
            0int,
            |sum: int, t: nat|
                sum + vstd::math::min(
                    tenant_sent(
                        config,
                        t,
                        ((window + 1) * (config.window_ms * 1_000_000)) as nat,
                    ) - tenant_sent(
                        config,
                        t,
                        (window * (config.window_ms * 1_000_000)) as nat,
                    ),
                    config.budget_per_tenant as int,
                ),
        ),
    decreases tenants,
{
    if tenants > 0 {
        lemma_allowed_is_a_sum(config, window, (tenants - 1) as nat);
        assert(Seq::new(tenants, |t: int| t as nat).drop_last() =~= Seq::new(
            (tenants - 1) as nat,
            |t: int| t as nat,
        ));
    }
}

/// Over a run, what is let through is the sum over its windows.
pub proof fn lemma_allowed_over_windows(config: &Config, windows: nat)
    requires
        forall|w: nat| w < windows ==> #[trigger] allowed_in(config, w, config.tenants as nat) >= 0,
    ensures
        allowed_until(config, windows) == Seq::new(windows, |w: int| w as nat).fold_left(
            0int,
            |sum: int, w: nat|
                sum + vstd::math::min(
                    allowed_in(config, w, config.tenants as nat),
                    u64::MAX as int,
                ),
        ),
    decreases windows,
{
    if windows > 0 {
        let last = (windows - 1) as nat;
        lemma_allowed_over_windows(config, last);
        assert(Seq::new(windows, |w: int| w as nat).drop_last() =~= Seq::new(
            last,
            |w: int| w as nat,
        ));
        assert(allowed_in(config, last, config.tenants as nat) >= 0);
    }
}

/// Attempts are all that all tenants send before the last window ends.
pub proof fn lemma_attempts_are_a_sum(config: &Config, windows: nat, tenants: nat)
    ensures
        attempts_of(config, windows, tenants) == Seq::new(tenants, |t: int| t as nat).fold_left(
            0int,
            |sum: int, t: nat|
                sum + sent_before(
                    phase(t, config.tenants as nat, config.rps_per_tenant as nat),
                    config.rps_per_tenant as nat,
                    (windows * (config.window_ms * 1_000_000)) as nat,
                ),
        ),
    decreases tenants,
{
    if tenants > 0 {
        lemma_attempts_are_a_sum(config, windows, (tenants - 1) as nat);
        assert(Seq::new(tenants, |t: int| t as nat).drop_last() =~= Seq::new(
            (tenants - 1) as nat,
            |t: int| t as nat,
        ));
    }
}

/// A run has as many windows as cover it, and not one more.
pub proof fn lemma_windows_cover(config: Config)
    requires
        0 < config.window_ms,
        0 < config.duration_s,
        config.duration_s * 1_000 <= u64::MAX,
    ensures
        config.spec_windows() * config.window_ms >= config.duration_s * 1_000,
        (config.spec_windows() - 1) * config.window_ms < config.duration_s * 1_000,
{
    let d = config.duration_s * 1_000;
    let w = config.window_ms as int;
    let n = (d + w - 1) / w;
    assert(n * w >= d && (n - 1) * w < d) by (nonlinear_arith)
        requires
            n == (d + w - 1) / w,
            w > 0,
            d > 0,
    ;
}

/// A setting that is left out has its default; one that is given must be a number
/// that is not too large.
pub proof fn lemma_numbers_set(text: String, n: u64, default: u64, most: u64)
    requires
        decimal_u64(text@) == Some(n),
    ensures
        number_or(None, default, most) == Some(default),
        n <= most ==> number_or(Some(text), default, most) == Some(n),
        n > most ==> number_or(Some(text), default, most) is None,
{
}

// -- targets ----------------------------------------------------------------

/// Where a target is ends at the first slash, and its path begins there; without
/// one, the path is a slash.
pub proof fn lemma_target_cut(authority: Seq<char>, path: Seq<char>)
    requires
        !authority.contains('/'),
    ensures
        authority_of(authority) == authority,
        path_of(authority) == seq!['/'],
        path.len() > 0 && path[0] == '/' ==> authority_of(authority + path) == authority
            && path_of(authority + path) == path,
{
    let p = is_char('/');
    assert forall|j: int| 0 <= j < authority.len() implies !p(#[trigger] authority[j]) by {
        if authority[j] == '/' {
            assert(authority.contains('/'));
        }
    }
    lemma_first_where_none(authority, p);
    if path.len() > 0 && path[0] == '/' {
        let whole = authority + path;
        let n = authority.len() as int;
        assert forall|j: int| 0 <= j < n implies !p(#[trigger] whole[j]) by {
            assert(whole[j] == authority[j]);
        }
        assert(p(whole[n]));
        lemma_first_where_at(whole, p, n);
        assert(whole.take(n) =~= authority);
        assert(whole.skip(n) =~= path);
    }
}

/// A port stands behind the last colon; without one it is that of the protocol.
pub proof fn lemma_port_read(host: Seq<char>, port: u16)
    ensures
        !host.contains(':') ==> host_and_port(host) == Some((host, 80u16)),
        host_and_port(host + seq![':'] + decimal_digits(port as nat)) == Some((host, port)),
{
    if !host.contains(':') {
        lemma_last_place(host, ':');
        if let Some(i) = last_place(host, ':') {
            assert(host[i] == ':');
        }
    }
    let digits = decimal_digits(port as nat);
    let whole = host + seq![':'] + digits;
    let n = host.len() as int;
    lemma_decimal_roundtrip(port as u64);
    lemma_last_place(whole, ':');
    assert(whole[n] == ':');
    let i = last_place(whole, ':')->0;
    assert(last_place(whole, ':') is Some);
    if i > n {
        assert(digits[i - n - 1] == ':');
        assert(crate::text::all_digits(digits)) by {
            if digits[0] == '+' {
                lemma_digits_only(port as nat);
            }
        }
        assert(crate::text::is_digit(digits[i - n - 1]));
    }
    if i < n {
        assert(whole[n] != ':');
    }
    assert(whole.skip(n + 1) =~= digits);
    assert(whole.take(n) =~= host);
}

proof fn lemma_digits_only(n: nat)
    ensures
        crate::text::all_digits(decimal_digits(n)),
    decreases n,
{
    if n >= 10 {
        lemma_digits_only(n / 10);
    }
}

/// A path is cut around the place that a tenant's number goes to, which is either
/// marked or stands behind `tenant=`; without any, the number goes last.
pub proof fn lemma_path_cut(path: Seq<char>)
    ensures
        ({
            let (before, after) = cut_path(path);
            let marked = place_from(path, "{tenant}"@, 0) is Some;
            let named = place_from(path, "TENANT"@, 0) is Some;
            &&& marked ==> before + "{tenant}"@ + after == path
            &&& !marked && named ==> before + "TENANT"@ + after == path
            &&& !marked && !named ==> before + after == path
            &&& !marked && !named && after.len() > 0 ==> before.len() >= 7 && before.skip(
                before.len() - 7,
            ) == "tenant="@
            &&& !marked && !named && place_from(path, "tenant="@, 0) is None ==> after.len() == 0
        }),
{
    reveal_strlit("{tenant}");
    reveal_strlit("TENANT");
    reveal_strlit("tenant=");
    lemma_first_place(path, "{tenant}"@, 0);
    lemma_first_place(path, "TENANT"@, 0);
    lemma_first_place(path, "tenant="@, 0);
    let (before, after) = cut_path(path);
    if let Some(i) = place_from(path, "{tenant}"@, 0) {
        assert(before + path.subrange(i, i + 8) + after =~= path);
    } else if let Some(i) = place_from(path, "TENANT"@, 0) {
        assert(before + path.subrange(i, i + 6) + after =~= path);
    } else if let Some(i) = place_from(path, "tenant="@, 0) {
        assert(before + after =~= path);
        assert(before.skip(before.len() - 7) =~= path.subrange(i, i + 7));
    } else {
        assert(before + after =~= path);
    }
}

/// A target is read back from its address: its host, its port, and where to send
/// to.
pub proof fn lemma_target_read(host: Seq<char>, port: u16, path: Seq<char>)
    requires
        !host.contains('/'),
        path.len() > 0 && path[0] == '/',
    ensures
        ({
            let authority = host + seq![':'] + decimal_digits(port as nat);
            target_of("http://"@ + authority + path) == Ok::<
                TargetView,
                super::http::TargetError,
            >(
                TargetView {
                    host,
                    port,
                    path_prefix: cut_path(path).0,
                    path_suffix: cut_path(path).1,
                    authority,
                },
            )
        }),
{
    reveal_strlit("http://");
    let authority = host + seq![':'] + decimal_digits(port as nat);
    let url = "http://"@ + authority + path;
    assert(url.subrange(0, 7) =~= "http://"@);
    assert(url.skip(7) =~= authority + path);
    lemma_port_read(host, port);
    lemma_digits_only(port as nat);
    let digits = decimal_digits(port as nat);
    if authority.contains('/') {
        let k = choose|k: int| 0 <= k < authority.len() && authority[k] == '/';
        if k < host.len() {
            assert(host[k] == '/');
        } else if k > host.len() {
            assert(digits[k - host.len() - 1] == '/');
            assert(crate::text::is_digit(digits[k - host.len() - 1]));
        }
    }
    lemma_target_cut(authority, path);
}

/// What does not begin as an address of the protocol is refused.
pub proof fn lemma_target_refused(url: Seq<char>)
    requires
        url.len() < 7 || url.take(7) != "http://"@,
    ensures
        target_of(url) is Err,
{
    reveal_strlit("http://");
    if url.len() >= 7 {
        assert(url.subrange(0, 7) =~= url.take(7));
    }
}

/// The length of a body is that of the first line that gives one.
pub proof fn lemma_length_by_lines(line: Seq<char>, rest: Seq<char>)
    requires
        !line.contains('\n'),
    ensures
        length_of(line) == line_length(line),
        length_of(line + seq!['\n'] + rest) == match line_length(line) {
            Some(n) => Some(n),
            None => length_of(rest),
        },
{
    let p = is_char('\n');
    assert forall|j: int| 0 <= j < line.len() implies !p(#[trigger] line[j]) by {
        if line[j] == '\n' {
            assert(line.contains('\n'));
        }
    }
    lemma_first_where_none(line, p);
    let whole = line + seq!['\n'] + rest;
    let n = line.len() as int;
    assert forall|j: int| 0 <= j < n implies !p(#[trigger] whole[j]) by {
        assert(whole[j] == line[j]);
    }
    assert(p(whole[n]));
    lemma_first_where_at(whole, p, n);
    assert(whole.take(n) =~= line);
    assert(whole.skip(n + 1) =~= rest);
}

/// A line gives a length if its name is that of the length, in any case, and its
/// value a number, with spaces around it or not; no other line does.
pub proof fn lemma_length_in_line(name: Seq<char>, value: Seq<char>)
    requires
        !name.contains(':'),
    ensures
        line_length(name) is None,
        same_but_case(name, "content-length"@) ==> line_length(name + seq![':'] + value)
            == decimal_u64(trimmed(value)),
        !same_but_case(name, "content-length"@) ==> line_length(name + seq![':'] + value) is None,
{
    let p = is_char(':');
    assert forall|j: int| 0 <= j < name.len() implies !p(#[trigger] name[j]) by {
        if name[j] == ':' {
            assert(name.contains(':'));
        }
    }
    lemma_first_where_none(name, p);
    let whole = name + seq![':'] + value;
    let n = name.len() as int;
    assert forall|j: int| 0 <= j < n implies !p(#[trigger] whole[j]) by {
        assert(whole[j] == name[j]);
    }
    assert(p(whole[n]));
    lemma_first_where_at(whole, p, n);
    assert(whole.take(n) =~= name);
    assert(whole.skip(n + 1) =~= value);
}

// -- totals -----------------------------------------------------------------

/// Totals are sums over all counters, each of its own kind.
pub proof fn lemma_totals_add_up(counters: Seq<Counters>)
    ensures
        added(counters).0 == counters.fold_left(0int, |sum: int, c: Counters| sum + c@.0),
        added(counters).1 == counters.fold_left(0int, |sum: int, c: Counters| sum + c@.1),
        added(counters).2 == counters.fold_left(0int, |sum: int, c: Counters| sum + c@.2),
    decreases counters.len(),
{
    if counters.len() > 0 {
        lemma_totals_add_up(counters.drop_last());
    }
}

/// A response that says so is over the limit, one of success was let through, and
/// any other failed.
pub proof fn lemma_status_read(response: Seq<char>)
    ensures
        response.len() >= 12 && (response.take(12) == "HTTP/1.1 429"@ || response.take(12)
            == "HTTP/1.0 429"@) ==> status_of(response) == Outcome::Over,
        response.len() >= 10 && (response.take(10) == "HTTP/1.1 2"@ || response.take(10)
            == "HTTP/1.0 2"@) ==> status_of(response) == Outcome::Allowed,
        status_of(response) == Outcome::Allowed ==> response.len() >= 10 && (response.take(10)
            == "HTTP/1.1 2"@ || response.take(10) == "HTTP/1.0 2"@),
        status_of(response) == Outcome::Over ==> response.len() >= 12 && (response.take(12)
            == "HTTP/1.1 429"@ || response.take(12) == "HTTP/1.0 429"@),
{
    reveal_strlit("HTTP/1.1 429");
    reveal_strlit("HTTP/1.0 429");
    reveal_strlit("HTTP/1.1 2");
    reveal_strlit("HTTP/1.0 2");
    if response.len() >= 12 {
        assert(response.subrange(0, 12) =~= response.take(12));
    }
    if response.len() >= 10 {
        assert(response.subrange(0, 10) =~= response.take(10));
        assert(response.take(10)[9] == response[9]);
    }
    if response.len() >= 12 {
        assert(response.take(12)[9] == response[9]);
    }
    assert("HTTP/1.1 429"@[9] == '4' && "HTTP/1.0 429"@[9] == '4');
    assert("HTTP/1.1 2"@[9] == '2' && "HTTP/1.0 2"@[9] == '2');
}

/// A request asks for the path of its tenant, at the target's own address.
pub proof fn lemma_request_asks(target: TargetView, tenant: u64)
    ensures
        ({
            let path = target.path_prefix + decimal_digits(tenant as nat) + target.path_suffix;
            let text = request_of(target, tenant as nat);
            let n = 4 + path.len() as int;
            &&& text.take(4) == "GET "@
            &&& text.subrange(4, n) == path
            &&& text.subrange(n, n + 17) == " HTTP/1.1\r\nHost: "@
            &&& text.subrange(n + 17, n + 17 + target.authority.len()) == target.authority
        }),
{
    reveal_strlit("GET ");
    reveal_strlit(" HTTP/1.1\r\nHost: ");
    let path = target.path_prefix + decimal_digits(tenant as nat) + target.path_suffix;
    let text = request_of(target, tenant as nat);
    let n = 4 + path.len() as int;
    assert(text =~= "GET "@ + path + " HTTP/1.1\r\nHost: "@ + target.authority
        + "\r\nConnection: close\r\n\r\n"@);
    assert(text.take(4) =~= "GET "@);
    assert(text.subrange(4, n) =~= path);
    assert(text.subrange(n, n + 17) =~= " HTTP/1.1\r\nHost: "@);
    assert(text.subrange(n + 17, n + 17 + target.authority.len()) =~= target.authority);
}

// -- settings ---------------------------------------------------------------

/// What is not set is as it is by default.
pub proof fn lemma_defaults_set(config: Config, s: Settings)
    requires
        as_set(config, s),
    ensures
        s.backend is None ==> config.backend == Backend::Http,
        s.target_url is None ==> config.target_url@ == "http://gabion-nginx:8080/tenant/index.html"@,
        s.grpc_addr is None ==> config.grpc_addr@ == "gabiond:8081"@,
        s.domain is None ==> config.domain@ == "nginx"@,
        s.descriptor_key is None ==> config.descriptor_key@ == "tenant"@,
        s.tenants is None ==> config.tenants == 20,
        s.budget_per_tenant is None ==> config.budget_per_tenant == 20,
        s.rps_per_tenant is None ==> config.rps_per_tenant == 100,
        s.duration_s is None ==> config.duration_s == 10,
        s.warmup_s is None ==> config.warmup_s == 0,
        s.window_ms is None ==> config.window_ms == 1_000,
        s.align_window is None ==> config.align_window,
        s.request_timeout_ms is None ==> config.request_timeout_ms == 2_000,
        s.http_connections is None ==> config.http_connections == 20,
{
}

/// What is set is taken as it is set.
pub proof fn lemma_settings_taken(config: Config, s: Settings)
    requires
        as_set(config, s),
    ensures
        s.target_url matches Some(text) ==> config.target_url@ == text@,
        s.grpc_addr matches Some(text) ==> config.grpc_addr@ == text@,
        s.domain matches Some(text) ==> config.domain@ == text@,
        s.descriptor_key matches Some(text) ==> config.descriptor_key@ == text@,
        s.backend matches Some(text) ==> (config.backend == Backend::Http <==> text@ == "http"@
            || text@ == "nginx"@),
        s.backend matches Some(text) ==> (config.backend == Backend::Grpc <==> text@ != "http"@
            && text@ != "nginx"@ && (text@ == "grpc"@ || text@ == "gabiond"@)),
        s.tenants matches Some(text) ==> Some(config.tenants as u64) == decimal_u64(text@),
        s.budget_per_tenant matches Some(text) ==> Some(config.budget_per_tenant) == decimal_u64(
            text@,
        ),
        s.rps_per_tenant matches Some(text) ==> Some(config.rps_per_tenant) == decimal_u64(text@),
        s.duration_s matches Some(text) ==> Some(config.duration_s) == decimal_u64(text@),
        s.warmup_s matches Some(text) ==> Some(config.warmup_s) == decimal_u64(text@),
        s.window_ms matches Some(text) ==> Some(config.window_ms) == decimal_u64(text@),
        s.request_timeout_ms matches Some(text) ==> Some(config.request_timeout_ms) == decimal_u64(
            text@,
        ),
        s.http_connections matches Some(text) ==> Some(config.http_connections as u64)
            == decimal_u64(text@),
        s.align_window matches Some(text) ==> (config.align_window <==> text@ == "1"@ || text@
            == "true"@ || text@ == "TRUE"@ || text@ == "yes"@ || text@ == "YES"@),
{
}

/// Whether a number is not set, or set to a text that spells one.
pub open spec fn spells(value: Option<String>) -> bool {
    value matches Some(text) ==> decimal_u64(text@) is Some
}

/// Whether a number is set to zero.
pub open spec fn zero_set(value: Option<String>) -> bool {
    value matches Some(text) && decimal_u64(text@) == Some(0u64)
}

/// Settings are turned away exactly if a number is none, if there are no tenants, no
/// requests or no window, or if a name or an answer is not known. Numbers of tenants
/// and connections must fit the machine.
pub proof fn lemma_settings_accepted(s: Settings)
    requires
        usize::MAX == u64::MAX,
    ensures
        settings_fault(s) is None <==> {
            &&& s.backend matches Some(text) ==> text@ == "http"@ || text@ == "nginx"@ || text@
                == "grpc"@ || text@ == "gabiond"@
            &&& s.align_window matches Some(text) ==> text@ == "1"@ || text@ == "true"@ || text@
                == "TRUE"@ || text@ == "yes"@ || text@ == "YES"@ || text@ == "0"@ || text@
                == "false"@ || text@ == "FALSE"@ || text@ == "no"@ || text@ == "NO"@
            &&& spells(s.tenants) && !zero_set(s.tenants)
            &&& spells(s.budget_per_tenant)
            &&& spells(s.rps_per_tenant) && !zero_set(s.rps_per_tenant)
            &&& spells(s.duration_s)
            &&& spells(s.warmup_s)
            &&& spells(s.window_ms) && !zero_set(s.window_ms)
            &&& spells(s.request_timeout_ms)
            &&& spells(s.http_connections)
        },
        s.backend is None && s.align_window is None && spells(s.tenants) && spells(
            s.budget_per_tenant,
        ) && spells(s.rps_per_tenant) && spells(s.duration_s) && spells(s.warmup_s) && spells(
            s.window_ms,
        ) && spells(s.request_timeout_ms) && spells(s.http_connections) ==> {
            &&& zero_set(s.tenants) ==> settings_fault(s) == Some(SettingsError::NoTenants)
            &&& !zero_set(s.tenants) && zero_set(s.rps_per_tenant) ==> settings_fault(s) == Some(
                SettingsError::NoRate,
            )
            &&& !zero_set(s.tenants) && !zero_set(s.rps_per_tenant) && zero_set(s.window_ms)
                ==> settings_fault(s) == Some(SettingsError::NoWindow)
        },
{
}

} // verus!
