use gabion::loader::config::{until_next_window, NumberSetting, Settings, SettingsError};
use gabion::loader::http::{classify_status, request_text, TargetError};
use gabion::loader::schedule::MAX_RPS;
use gabion::loader::summary::{classify_code, total};
use gabion::loader::{
    content_length, expected_allowed_per_window, expected_allowed_total, expected_attempts_total,
    find_header_end, parse_http_target, tenant_phase_ns, Backend, Config, Counters, Outcome,
    TenantSchedule,
};

fn config(tenants: usize, rps_per_tenant: u64, budget_per_tenant: u64) -> Config {
    Config {
        backend: Backend::Http,
        target_url: "http://gabion-nginx:8080/tenant/index.html?tenant={tenant}".to_string(),
        grpc_addr: "gabiond:8081".to_string(),
        domain: "nginx".to_string(),
        tenants,
        budget_per_tenant,
        rps_per_tenant,
        duration_s: 60,
        warmup_s: 0,
        window_ms: 1_000,
        align_window: true,
        descriptor_key: "tenant".to_string(),
        request_timeout_ms: 2_000,
        http_connections: 20,
    }
}

#[test]
fn expected_allowed_is_capped_by_offered_load() {
    let cfg = config(1_000, 1, 20);
    let expected = expected_allowed_per_window(&cfg, 60);
    assert_eq!(expected.iter().sum::<u64>(), 60_000);
    assert_eq!(expected_attempts_total(&cfg, 60), 60_000);
    assert_eq!(expected_allowed_total(&cfg, 60), 60_000);
    assert!(expected.iter().all(|v| *v == 1_000));
}

#[test]
fn expected_allowed_is_capped_by_budget_under_overload() {
    let cfg = config(100, 100, 20);
    let expected = expected_allowed_per_window(&cfg, 60);
    assert_eq!(expected.iter().sum::<u64>(), 120_000);
    assert_eq!(expected_attempts_total(&cfg, 60), 600_000);
    assert_eq!(expected_allowed_total(&cfg, 60), 120_000);
    assert!(expected.iter().all(|v| *v == 2_000));
}

#[test]
fn schedule_does_not_over_emit_for_non_divisor_rates() {
    let cfg = config(1, 3, 20);
    let requests = TenantSchedule::new(&cfg, 0, 1_000_000_000).collect();
    assert_eq!(requests.len(), 3);
    assert!(requests.iter().all(|r| r.window == 0));
}

#[test]
fn tenant_phase_spreads_tenants_across_one_interval() {
    assert_eq!(tenant_phase_ns(0, 1_000, 1), 0);
    assert_eq!(tenant_phase_ns(500, 1_000, 1), 500_000_000);
    assert_eq!(tenant_phase_ns(999, 1_000, 1), 999_000_000);
}

#[test]
fn finds_http_header_end() {
    assert_eq!(find_header_end(b"HTTP/1.1 200 OK\r\n\r\nbody"), Some(19));
    assert_eq!(find_header_end(b"HTTP/1.1 200 OK\r\n"), None);
}

#[test]
fn parses_content_length_case_insensitively() {
    assert_eq!(
        content_length("HTTP/1.1 200 OK\r\nContent-Length: 42\r\n"),
        Some(42)
    );
    assert_eq!(
        content_length("HTTP/1.1 200 OK\r\ncontent-length: 7\r\n"),
        Some(7)
    );
    assert_eq!(
        content_length("HTTP/1.1 200 OK\r\nConnection: close\r\n"),
        None
    );
}

#[test]
fn outcome_keeps_http_status_categories_distinct() {
    assert_ne!(Outcome::Allowed, Outcome::Over);
    assert_ne!(Outcome::Over, Outcome::Fail);
}

#[test]
fn requests_come_one_at_a_time() {
    let cfg = config(2, 2, 20);
    let mut schedule = TenantSchedule::new(&cfg, 1, 2_000_000_000);
    let mut times = Vec::new();
    while let Some(request) = schedule.next_request() {
        times.push((request.at_ns, request.window));
    }
    assert_eq!(
        times,
        vec![
            (250_000_000, 0),
            (750_000_000, 0),
            (1_250_000_000, 1),
            (1_750_000_000, 1)
        ]
    );
    assert_eq!(schedule.next_request(), None);
    assert_eq!(MAX_RPS, 1_000_000_000);
}

#[test]
fn urls_are_taken_apart() {
    let target = parse_http_target("http://host:8080/a/{tenant}/b").expect("target");
    assert_eq!(target.host, "host");
    assert_eq!(target.port, 8080);
    assert_eq!(target.authority, "host:8080");
    assert_eq!(target.path_prefix, "/a/");
    assert_eq!(target.path_suffix, "/b");
    let target = parse_http_target("http://host").expect("target");
    assert_eq!((target.port, target.path_prefix.as_str()), (80, "/"));
    let target = parse_http_target("http://host/x/TENANT").expect("target");
    assert_eq!((target.path_prefix.as_str(), target.path_suffix.as_str()), ("/x/", ""));
    let target = parse_http_target("http://host/x?tenant=&y=1").expect("target");
    assert_eq!(target.path_prefix, "/x?tenant=");
    assert_eq!(target.path_suffix, "&y=1");
    assert_eq!(parse_http_target("https://host").err(), Some(TargetError::NotHttp));
    assert_eq!(parse_http_target("http://host:web/").err(), Some(TargetError::BadPort));
    assert_eq!(parse_http_target("http://host:65536/").err(), Some(TargetError::BadPort));
}

#[test]
fn responses_are_told_apart() {
    assert_eq!(classify_status("HTTP/1.1 200 OK\r\n"), Outcome::Allowed);
    assert_eq!(classify_status("HTTP/1.0 204 No Content\r\n"), Outcome::Allowed);
    assert_eq!(classify_status("HTTP/1.1 429 Too Many Requests\r\n"), Outcome::Over);
    assert_eq!(classify_status("HTTP/1.0 429\r\n"), Outcome::Over);
    assert_eq!(classify_status("HTTP/1.1 503\r\n"), Outcome::Fail);
    assert_eq!(classify_status(""), Outcome::Fail);
    assert_eq!(classify_code(1), Outcome::Allowed);
    assert_eq!(classify_code(2), Outcome::Over);
    assert_eq!(classify_code(0), Outcome::Fail);
}

#[test]
fn white_space_around_a_length_does_not_count() {
    assert_eq!(content_length("content-length:\t 9 \r\n"), Some(9));
    assert_eq!(content_length("Content-Length: many\r\nCONTENT-LENGTH: 3\r\n"), Some(3));
}

#[test]
fn windows_add_up() {
    let mut first = Counters::new();
    first.add(Outcome::Allowed);
    first.add(Outcome::Allowed);
    first.add(Outcome::Over);
    let mut second = Counters::new();
    second.add(Outcome::Fail);
    assert_eq!(first.snapshot(), (2, 1, 0));
    let totals = total(&vec![first, second], 3);
    assert_eq!((totals.ok, totals.over, totals.fail, totals.attempts), (2, 1, 4, 7));
}

fn settings() -> Settings {
    Settings {
        backend: None,
        target_url: None,
        grpc_addr: None,
        domain: None,
        tenants: None,
        budget_per_tenant: None,
        rps_per_tenant: None,
        duration_s: None,
        warmup_s: None,
        window_ms: None,
        align_window: None,
        descriptor_key: None,
        request_timeout_ms: None,
        http_connections: None,
    }
}

#[test]
fn settings_have_defaults() {
    let config = Config::from_settings(&settings()).expect("config");
    assert_eq!(config.backend, Backend::Http);
    assert_eq!(config.target_url, "http://gabion-nginx:8080/tenant/index.html");
    assert_eq!(config.grpc_addr, "gabiond:8081");
    assert_eq!(config.domain, "nginx");
    assert_eq!(config.tenants, 20);
    assert_eq!(config.budget_per_tenant, 20);
    assert_eq!(config.rps_per_tenant, 100);
    assert_eq!(config.duration_s, 10);
    assert_eq!(config.warmup_s, 0);
    assert_eq!(config.window_ms, 1_000);
    assert!(config.align_window);
    assert_eq!(config.descriptor_key, "tenant");
    assert_eq!(config.request_timeout_ms, 2_000);
    assert_eq!(config.windows(), Ok(10));
}

#[test]
fn settings_are_checked() {
    let text = |s: &str| Some(s.to_string());
    let fault = |settings: Settings| Config::from_settings(&settings).err();
    let mut s = settings();
    s.backend = text("carrier pigeon");
    assert_eq!(fault(s), Some(SettingsError::UnsupportedBackend));
    let mut s = settings();
    s.tenants = text("x");
    assert_eq!(fault(s), Some(SettingsError::NotANumber(NumberSetting::Tenants)));
    let mut s = settings();
    s.window_ms = text("-1");
    assert_eq!(fault(s), Some(SettingsError::NotANumber(NumberSetting::WindowMs)));
    let mut s = settings();
    s.align_window = text("maybe");
    assert_eq!(fault(s), Some(SettingsError::NotBoolean));
    let mut s = settings();
    s.tenants = text("0");
    assert_eq!(fault(s), Some(SettingsError::NoTenants));
    let mut s = settings();
    s.rps_per_tenant = text("0");
    assert_eq!(fault(s), Some(SettingsError::NoRate));
    let mut s = settings();
    s.window_ms = text("0");
    assert_eq!(fault(s), Some(SettingsError::NoWindow));
    let mut s = settings();
    s.duration_s = text("0");
    let config = Config::from_settings(&s).expect("config");
    assert_eq!(config.windows(), Err(SettingsError::NoDuration));
    let mut s = settings();
    s.backend = text("gabiond");
    s.align_window = text("NO");
    s.duration_s = text("3");
    s.window_ms = text("700");
    let config = Config::from_settings(&s).expect("config");
    assert_eq!(config.backend, Backend::Grpc);
    assert!(!config.align_window);
    assert_eq!(config.windows(), Ok(5));
}

#[test]
fn the_next_window_is_never_now() {
    assert_eq!(until_next_window(0, 1_000), 1_000);
    assert_eq!(until_next_window(1_250, 1_000), 750);
}

#[test]
fn request_names_the_tenant() {
    let target = parse_http_target("http://gateway:8080/tenant/{tenant}/x").unwrap();
    assert_eq!(
        request_text(&target, 1234567890),
        "GET /tenant/1234567890/x HTTP/1.1\r\nHost: gateway:8080\r\nConnection: close\r\n\r\n",
    );
    assert!(request_text(&target, 0).starts_with("GET /tenant/0/x "));
}
