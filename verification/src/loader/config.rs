//! What to load, and how hard.

use crate::text::{decimal_u64, parse_u64, same_text};
use vstd::prelude::*;

verus! {

/// What is spoken.
#[derive(Clone, Copy, Debug, PartialEq, Eq, Structural)]
pub enum Backend {
    Http,
    Grpc,
}

/// A run of the loader.
#[derive(Debug)]
pub struct Config {
    pub backend: Backend,
    pub target_url: String,
    pub grpc_addr: String,
    pub domain: String,
    pub tenants: usize,
    pub budget_per_tenant: u64,
    pub rps_per_tenant: u64,
    pub duration_s: u64,
    pub warmup_s: u64,
    pub window_ms: u64,
    pub align_window: bool,
    pub descriptor_key: String,
    pub request_timeout_ms: u64,
    pub http_connections: usize,
}

/// Settings as they were given, if they were.
#[derive(Debug)]
pub struct Settings {
    pub backend: Option<String>,
    pub target_url: Option<String>,
    pub grpc_addr: Option<String>,
    pub domain: Option<String>,
    pub tenants: Option<String>,
    pub budget_per_tenant: Option<String>,
    pub rps_per_tenant: Option<String>,
    pub duration_s: Option<String>,
    pub warmup_s: Option<String>,
    pub window_ms: Option<String>,
    pub align_window: Option<String>,
    pub descriptor_key: Option<String>,
    pub request_timeout_ms: Option<String>,
    pub http_connections: Option<String>,
}

/// A setting that is a number.
#[derive(Clone, Copy, Debug, PartialEq, Eq, Structural)]
pub enum NumberSetting {
    Tenants,
    BudgetPerTenant,
    RpsPerTenant,
    DurationS,
    WarmupS,
    WindowMs,
    RequestTimeoutMs,
    HttpConnections,
}

/// What is wrong with the settings.
#[derive(Clone, Copy, Debug, PartialEq, Eq, Structural)]
pub enum SettingsError {
    UnsupportedBackend,
    NotANumber(NumberSetting),
    /// `ALIGN_WINDOW` is neither yes nor no.
    NotBoolean,
    NoTenants,
    NoRate,
    NoWindow,
    /// The run does not cover a window.
    NoDuration,
}

// -- model ------------------------------------------------------------------

/// The text of a setting, or what it is if it was not given.
pub open spec fn text_or(value: Option<String>, default: Seq<char>) -> Seq<char> {
    match value {
        Some(text) => text@,
        None => default,
    }
}

/// The number of a setting, or what it is if it was not given.
pub open spec fn number_or(value: Option<String>, default: u64, most: u64) -> Option<u64> {
    match value {
        Some(text) => match decimal_u64(text@) {
            Some(n) => if n <= most {
                Some(n)
            } else {
                None
            },
            None => None,
        },
        None => Some(default),
    }
}

/// What a text says of the backend.
pub open spec fn backend_named(text: Seq<char>) -> Option<Backend> {
    if text == "http"@ || text == "nginx"@ {
        Some(Backend::Http)
    } else if text == "grpc"@ || text == "gabiond"@ {
        Some(Backend::Grpc)
    } else {
        None
    }
}

/// What a text says: yes, no, or neither.
pub open spec fn yes_or_no(text: Seq<char>) -> Option<bool> {
    if text == "1"@ || text == "true"@ || text == "TRUE"@ || text == "yes"@ || text == "YES"@ {
        Some(true)
    } else if text == "0"@ || text == "false"@ || text == "FALSE"@ || text == "no"@ || text
        == "NO"@ {
        Some(false)
    } else {
        None
    }
}

pub open spec fn yes_no_or(value: Option<String>, default: bool) -> Option<bool> {
    match value {
        Some(text) => yes_or_no(text@),
        None => Some(default),
    }
}

/// The first thing that is wrong with the settings, if anything is.
pub open spec fn settings_fault(s: Settings) -> Option<SettingsError> {
    let most = usize::MAX as u64;
    if backend_named(text_or(s.backend, "http"@)) is None {
        Some(SettingsError::UnsupportedBackend)
    } else if number_or(s.tenants, 20, most) is None {
        Some(SettingsError::NotANumber(NumberSetting::Tenants))
    } else if number_or(s.budget_per_tenant, 20, u64::MAX) is None {
        Some(SettingsError::NotANumber(NumberSetting::BudgetPerTenant))
    } else if number_or(s.rps_per_tenant, 100, u64::MAX) is None {
        Some(SettingsError::NotANumber(NumberSetting::RpsPerTenant))
    } else if number_or(s.duration_s, 10, u64::MAX) is None {
        Some(SettingsError::NotANumber(NumberSetting::DurationS))
    } else if number_or(s.warmup_s, 0, u64::MAX) is None {
        Some(SettingsError::NotANumber(NumberSetting::WarmupS))
    } else if number_or(s.window_ms, 1_000, u64::MAX) is None {
        Some(SettingsError::NotANumber(NumberSetting::WindowMs))
    } else if yes_no_or(s.align_window, true) is None {
        Some(SettingsError::NotBoolean)
    } else if number_or(s.request_timeout_ms, 2_000, u64::MAX) is None {
        Some(SettingsError::NotANumber(NumberSetting::RequestTimeoutMs))
    } else if number_or(s.http_connections, 20, most) is None {
        Some(SettingsError::NotANumber(NumberSetting::HttpConnections))
    } else if number_or(s.tenants, 20, most) == Some(0u64) {
        Some(SettingsError::NoTenants)
    } else if number_or(s.rps_per_tenant, 100, u64::MAX) == Some(0u64) {
        Some(SettingsError::NoRate)
    } else if number_or(s.window_ms, 1_000, u64::MAX) == Some(0u64) {
        Some(SettingsError::NoWindow)
    } else {
        None
    }
}

/// Whether a run is what the settings ask for.
pub open spec fn as_set(config: Config, s: Settings) -> bool {
    let most = usize::MAX as u64;
    &&& Some(config.backend) == backend_named(text_or(s.backend, "http"@))
    &&& config.target_url@ == text_or(s.target_url, "http://gabion-nginx:8080/tenant/index.html"@)
    &&& config.grpc_addr@ == text_or(s.grpc_addr, "gabiond:8081"@)
    &&& config.domain@ == text_or(s.domain, "nginx"@)
    &&& Some(config.tenants as u64) == number_or(s.tenants, 20, most)
    &&& Some(config.budget_per_tenant) == number_or(s.budget_per_tenant, 20, u64::MAX)
    &&& Some(config.rps_per_tenant) == number_or(s.rps_per_tenant, 100, u64::MAX)
    &&& Some(config.duration_s) == number_or(s.duration_s, 10, u64::MAX)
    &&& Some(config.warmup_s) == number_or(s.warmup_s, 0, u64::MAX)
    &&& Some(config.window_ms) == number_or(s.window_ms, 1_000, u64::MAX)
    &&& Some(config.align_window) == yes_no_or(s.align_window, true)
    &&& config.descriptor_key@ == text_or(s.descriptor_key, "tenant"@)
    &&& Some(config.request_timeout_ms) == number_or(s.request_timeout_ms, 2_000, u64::MAX)
    &&& Some(config.http_connections as u64) == number_or(s.http_connections, 20, most)
}

// -- code -------------------------------------------------------------------

fn read_text(value: &Option<String>, default: &str) -> (text: String)
    ensures
        text@ == text_or(*value, default@),
{
    match value {
        Some(text) => text.as_str().to_owned(),
        None => default.to_owned(),
    }
}

fn read_number(value: &Option<String>, default: u64, most: u64) -> (number: Option<u64>)
    ensures
        number == number_or(*value, default, most),
{
    match value {
        Some(text) => match parse_u64(text.as_str()) {
            Some(n) => if n <= most {
                Some(n)
            } else {
                None
            },
            None => None,
        },
        None => Some(default),
    }
}

fn read_backend(text: &str) -> (backend: Option<Backend>)
    ensures
        backend == backend_named(text@),
{
    if same_text(text, "http") || same_text(text, "nginx") {
        Some(Backend::Http)
    } else if same_text(text, "grpc") || same_text(text, "gabiond") {
        Some(Backend::Grpc)
    } else {
        None
    }
}

fn read_yes_or_no(value: &Option<String>, default: bool) -> (answer: Option<bool>)
    ensures
        answer == yes_no_or(*value, default),
{
    match value {
        None => Some(default),
        Some(text) => {
            let text: &str = text.as_str();
            if same_text(text, "1") || same_text(text, "true") || same_text(text, "TRUE")
                || same_text(text, "yes") || same_text(text, "YES") {
                Some(true)
            } else if same_text(text, "0") || same_text(text, "false") || same_text(text, "FALSE")
                || same_text(text, "no") || same_text(text, "NO") {
                Some(false)
            } else {
                None
            }
        },
    }
}

impl Config {
    /// Reads the settings.
    pub fn from_settings(settings: &Settings) -> (config: Result<Config, SettingsError>)
        ensures
            match settings_fault(*settings) {
                Some(e) => config == Err::<Config, SettingsError>(e),
                None => config is Ok && as_set(config->Ok_0, *settings),
            },
    {
        proof {
            reveal_strlit("http");
            reveal_strlit("nginx");
            reveal_strlit("grpc");
            reveal_strlit("gabiond");
        }
        let name: String = read_text(&settings.backend, "http");
        let backend: Backend = match read_backend(name.as_str()) {
            Some(backend) => backend,
            None => {
                return Err(SettingsError::UnsupportedBackend);
            },
        };
        let most: u64 = usize::MAX as u64;
        let tenants: u64 = match read_number(&settings.tenants, 20, most) {
            Some(n) => n,
            None => {
                return Err(SettingsError::NotANumber(NumberSetting::Tenants));
            },
        };
        let budget_per_tenant: u64 = match read_number(&settings.budget_per_tenant, 20, u64::MAX) {
            Some(n) => n,
            None => {
                return Err(SettingsError::NotANumber(NumberSetting::BudgetPerTenant));
            },
        };
        let rps_per_tenant: u64 = match read_number(&settings.rps_per_tenant, 100, u64::MAX) {
            Some(n) => n,
            None => {
                return Err(SettingsError::NotANumber(NumberSetting::RpsPerTenant));
            },
        };
        let duration_s: u64 = match read_number(&settings.duration_s, 10, u64::MAX) {
            Some(n) => n,
            None => {
                return Err(SettingsError::NotANumber(NumberSetting::DurationS));
            },
        };
        let warmup_s: u64 = match read_number(&settings.warmup_s, 0, u64::MAX) {
            Some(n) => n,
            None => {
                return Err(SettingsError::NotANumber(NumberSetting::WarmupS));
            },
        };
        let window_ms: u64 = match read_number(&settings.window_ms, 1_000, u64::MAX) {
            Some(n) => n,
            None => {
                return Err(SettingsError::NotANumber(NumberSetting::WindowMs));
            },
        };
        let align_window: bool = match read_yes_or_no(&settings.align_window, true) {
            Some(answer) => answer,
            None => {
                return Err(SettingsError::NotBoolean);
            },
        };
        let timeout = read_number(&settings.request_timeout_ms, 2_000, u64::MAX);
        let request_timeout_ms: u64 = match timeout {
            Some(n) => n,
            None => {
                return Err(SettingsError::NotANumber(NumberSetting::RequestTimeoutMs));
            },
        };
        let http_connections: u64 = match read_number(&settings.http_connections, 20, most) {
            Some(n) => n,
            None => {
                return Err(SettingsError::NotANumber(NumberSetting::HttpConnections));
            },
        };
        if tenants == 0 {
            return Err(SettingsError::NoTenants);
        }
        if rps_per_tenant == 0 {
            return Err(SettingsError::NoRate);
        }
        if window_ms == 0 {
            return Err(SettingsError::NoWindow);
        }
        let target = "http://gabion-nginx:8080/tenant/index.html";
        Ok(
            Config {
                backend,
                target_url: read_text(&settings.target_url, target),
                grpc_addr: read_text(&settings.grpc_addr, "gabiond:8081"),
                domain: read_text(&settings.domain, "nginx"),
                tenants: tenants as usize,
                budget_per_tenant,
                rps_per_tenant,
                duration_s,
                warmup_s,
                window_ms,
                align_window,
                descriptor_key: read_text(&settings.descriptor_key, "tenant"),
                request_timeout_ms,
                http_connections: http_connections as usize,
            },
        )
    }

    /// Number of windows that the run covers, the last one perhaps in part.
    pub open spec fn spec_windows(&self) -> int {
        let millis = if self.duration_s * 1_000 <= u64::MAX {
            self.duration_s * 1_000
        } else {
            u64::MAX as int
        };
        (millis + self.window_ms - 1) / (self.window_ms as int)
    }

    /// Number of windows that the run covers. There must be one.
    pub fn windows(&self) -> (windows: Result<u64, SettingsError>)
        requires
            self.window_ms > 0,
        ensures
            if self.duration_s == 0 {
                windows == Err::<u64, SettingsError>(SettingsError::NoDuration)
            } else {
                windows is Ok && windows->Ok_0 == self.spec_windows() && windows->Ok_0 > 0
            },
    {
        if self.duration_s == 0 {
            return Err(SettingsError::NoDuration);
        }
        let millis: u64 = match self.duration_s.checked_mul(1_000) {
            Some(millis) => millis,
            None => u64::MAX,
        };
        let windows: u128 = (millis as u128 + self.window_ms as u128 - 1) / self.window_ms as u128;
        proof {
            let m = millis as int;
            let w = self.window_ms as int;
            let n = windows as int;
            assert(1 <= n <= m) by (nonlinear_arith)
                requires
                    n == (m + w - 1) / w,
                    m >= 1,
                    w >= 1,
            ;
        }
        Ok(windows as u64)
    }
}

/// Milliseconds until the next window begins.
pub fn until_next_window(now_ms: u64, window_ms: u64) -> (wait_ms: u64)
    requires
        window_ms > 0,
    ensures
        wait_ms == window_ms - now_ms % window_ms,
        (now_ms + wait_ms) % (window_ms as int) == 0,
        0 < wait_ms <= window_ms,
{
    let into: u64 = now_ms % window_ms;
    proof {
        let n = now_ms as int;
        let w = window_ms as int;
        vstd::arithmetic::div_mod::lemma_fundamental_div_mod(n, w);
        assert((n + (w - n % w)) == w * (n / w + 1)) by (nonlinear_arith)
            requires
                n == w * (n / w) + n % w,
        ;
        vstd::arithmetic::div_mod::lemma_mod_multiples_basic(n / w + 1, w);
        assert(w * (n / w + 1) == (n / w + 1) * w) by (nonlinear_arith);
    }
    window_ms - into
}

} // verus!
