//! Just enough HTTP to send a request and read what becomes of it.

use crate::loader::summary::Outcome;
use crate::seqs::first_where;
use crate::text::{
    alike, decimal_digits, decimal_text, decimal_u64, find_char, find_last_char, find_text, is_at, is_char, last_place,
    parse_u64, place_from, same_but_case, stands_at, trim, trimmed,
};
use vstd::prelude::*;

verus! {

/// Where requests go. The tenant's number stands between the two parts of the
/// path.
#[derive(Debug)]
pub struct HttpTarget {
    pub host: String,
    pub port: u16,
    pub path_prefix: String,
    pub path_suffix: String,
    pub authority: String,
}

/// A target as contracts speak of it.
#[verifier::ext_equal]
pub struct TargetView {
    pub host: Seq<char>,
    pub port: u16,
    pub path_prefix: Seq<char>,
    pub path_suffix: Seq<char>,
    pub authority: Seq<char>,
}

impl HttpTarget {
    pub open spec fn view(&self) -> TargetView {
        TargetView {
            host: self.host@,
            port: self.port,
            path_prefix: self.path_prefix@,
            path_suffix: self.path_suffix@,
            authority: self.authority@,
        }
    }
}

/// Why a URL is no target.
#[derive(Clone, Copy, Debug, PartialEq, Eq, Structural)]
pub enum TargetError {
    /// It does not start with `http://`.
    NotHttp,
    /// What follows the last colon of the authority is no port.
    BadPort,
}

/// What stands before the path.
pub open spec fn authority_of(rest: Seq<char>) -> Seq<char> {
    match first_where(rest, is_char('/')) {
        Some(i) => rest.take(i),
        None => rest,
    }
}

/// The path, which begins with a slash even if the URL has none.
pub open spec fn path_of(rest: Seq<char>) -> Seq<char> {
    match first_where(rest, is_char('/')) {
        Some(i) => rest.skip(i),
        None => seq!['/'],
    }
}

/// The host, and the port if one is named. What stands behind the last colon
/// must be a port.
pub open spec fn host_and_port(authority: Seq<char>) -> Option<(Seq<char>, u16)> {
    match last_place(authority, ':') {
        None => Some((authority, 80)),
        Some(i) => match decimal_u64(authority.skip(i + 1)) {
            Some(port) => if port <= u16::MAX {
                Some((authority.take(i), port as u16))
            } else {
                None
            },
            None => None,
        },
    }
}

/// A path cut in two where the tenant goes: at `{tenant}`, else at `TENANT`,
/// else behind `tenant=`, else at the end.
pub open spec fn cut_path(path: Seq<char>) -> (Seq<char>, Seq<char>) {
    match place_from(path, "{tenant}"@, 0) {
        Some(i) => (path.take(i), path.skip(i + 8)),
        None => match place_from(path, "TENANT"@, 0) {
            Some(i) => (path.take(i), path.skip(i + 6)),
            None => match place_from(path, "tenant="@, 0) {
                Some(i) => (path.take(i + 7), path.skip(i + 7)),
                None => (path, Seq::empty()),
            },
        },
    }
}

/// The target that a URL names.
pub open spec fn target_of(url: Seq<char>) -> Result<TargetView, TargetError> {
    if !stands_at(url, "http://"@, 0) {
        Err(TargetError::NotHttp)
    } else {
        let rest = url.skip(7);
        let authority = authority_of(rest);
        match host_and_port(authority) {
            None => Err(TargetError::BadPort),
            Some((host, port)) => {
                let (path_prefix, path_suffix) = cut_path(path_of(rest));
                Ok(TargetView { host, port, path_prefix, path_suffix, authority })
            },
        }
    }
}

/// The part of a text before a place.
fn head(text: &str, at: usize) -> (part: String)
    requires
        at <= text@.len(),
    ensures
        part@ == text@.take(at as int),
{
    assert(text@.subrange(0, at as int) =~= text@.take(at as int));
    text.substring_char(0, at).to_owned()
}

/// The part of a text from a place on.
fn tail(text: &str, at: usize) -> (part: String)
    requires
        at <= text@.len(),
    ensures
        part@ == text@.skip(at as int),
{
    let n: usize = text.unicode_len();
    assert(text@.subrange(at as int, n as int) =~= text@.skip(at as int));
    text.substring_char(at, n).to_owned()
}

fn split_path(path: &str) -> (parts: (String, String))
    ensures
        (parts.0@, parts.1@) == cut_path(path@),
{
    proof {
        reveal_strlit("{tenant}");
        reveal_strlit("TENANT");
        reveal_strlit("tenant=");
        reveal_strlit("");
    }
    if let Some(i) = find_text(path, "{tenant}") {
        return (head(path, i), tail(path, i + 8));
    }
    if let Some(i) = find_text(path, "TENANT") {
        return (head(path, i), tail(path, i + 6));
    }
    if let Some(i) = find_text(path, "tenant=") {
        return (head(path, i + 7), tail(path, i + 7));
    }
    assert(""@ =~= Seq::<char>::empty());
    (path.to_owned(), "".to_owned())
}

/// Reads a URL.
pub fn parse_http_target(url: &str) -> (target: Result<HttpTarget, TargetError>)
    ensures
        match target_of(url@) {
            Ok(view) => target is Ok && target->Ok_0@ == view,
            Err(e) => target == Err::<HttpTarget, TargetError>(e),
        },
{
    proof {
        reveal_strlit("http://");
        reveal_strlit("/");
    }
    if !is_at(url, "http://", 0) {
        return Err(TargetError::NotHttp);
    }
    let n: usize = url.unicode_len();
    let rest: &str = url.substring_char(7, n);
    assert(rest@ =~= url@.skip(7));
    let len: usize = rest.unicode_len();
    let slash: Option<usize> = find_char(rest, '/');
    let authority: &str = match slash {
        Some(i) => rest.substring_char(0, i),
        None => rest,
    };
    assert(authority@ =~= authority_of(rest@));
    let path: &str = match slash {
        Some(i) => rest.substring_char(i, len),
        None => "/",
    };
    assert(path@ =~= path_of(rest@));
    let (host, port) = match find_last_char(authority, ':') {
        None => (authority.to_owned(), 80u16),
        Some(i) => {
            let end: usize = authority.unicode_len();
            let digits: &str = authority.substring_char(i + 1, end);
            assert(digits@ =~= authority@.skip(i + 1));
            match parse_u64(digits) {
                Some(port) => {
                    if port > u16::MAX as u64 {
                        return Err(TargetError::BadPort);
                    }
                    (head(authority, i), port as u16)
                },
                None => {
                    return Err(TargetError::BadPort);
                },
            }
        },
    };
    let (path_prefix, path_suffix) = split_path(path);
    Ok(HttpTarget { host, port, path_prefix, path_suffix, authority: authority.to_owned() })
}

// -- requests ---------------------------------------------------------------

/// A tenant's request.
pub open spec fn request_of(target: TargetView, tenant: nat) -> Seq<char> {
    "GET "@ + target.path_prefix + decimal_digits(tenant) + target.path_suffix
        + " HTTP/1.1\r\nHost: "@ + target.authority + "\r\nConnection: close\r\n\r\n"@
}

/// What to send for a tenant.
pub fn request_text(target: &HttpTarget, tenant: usize) -> (text: String)
    ensures
        text@ == request_of(target@, tenant as nat),
{
    let number: String = decimal_text(tenant as u64);
    let mut text: String = "GET ".to_owned();
    text.append(target.path_prefix.as_str());
    text.append(number.as_str());
    text.append(target.path_suffix.as_str());
    text.append(" HTTP/1.1\r\nHost: ");
    text.append(target.authority.as_str());
    text.append("\r\nConnection: close\r\n\r\n");
    text
}

// -- responses --------------------------------------------------------------

/// What a response's first line says.
pub open spec fn status_of(response: Seq<char>) -> Outcome {
    if stands_at(response, "HTTP/1.1 429"@, 0) || stands_at(response, "HTTP/1.0 429"@, 0) {
        Outcome::Over
    } else if stands_at(response, "HTTP/1.1 2"@, 0) || stands_at(response, "HTTP/1.0 2"@, 0) {
        Outcome::Allowed
    } else {
        Outcome::Fail
    }
}

/// What became of a request.
pub fn classify_status(response: &str) -> (outcome: Outcome)
    ensures
        outcome == status_of(response@),
{
    if is_at(response, "HTTP/1.1 429", 0) || is_at(response, "HTTP/1.0 429", 0) {
        Outcome::Over
    } else if is_at(response, "HTTP/1.1 2", 0) || is_at(response, "HTTP/1.0 2", 0) {
        Outcome::Allowed
    } else {
        Outcome::Fail
    }
}

/// Whether an empty line begins at a place.
pub open spec fn blank_at(bytes: Seq<u8>, i: int) -> bool {
    0 <= i && i + 4 <= bytes.len() && bytes[i] == 13 && bytes[i + 1] == 10 && bytes[i + 2] == 13
        && bytes[i + 3] == 10
}

/// Where the headers of a response end: behind the first empty line.
pub fn find_header_end(bytes: &[u8]) -> (end: Option<usize>)
    ensures
        match end {
            Some(end) => {
                &&& end >= 4
                &&& blank_at(bytes@, end - 4)
                &&& forall|j: int| 0 <= j < end - 4 ==> !#[trigger] blank_at(bytes@, j)
            },
            None => forall|j: int| !#[trigger] blank_at(bytes@, j),
        },
{
    let n: usize = bytes.len();
    let mut i: usize = 0;
    while i < n && n - i >= 4
        invariant
            n == bytes@.len(),
            i <= n,
            forall|j: int| 0 <= j < i ==> !#[trigger] blank_at(bytes@, j),
        decreases n - i,
    {
        if bytes[i] == 13 && bytes[i + 1] == 10 && bytes[i + 2] == 13 && bytes[i + 3] == 10 {
            assert(blank_at(bytes@, i as int));
            return Some(i + 4);
        }
        i = i + 1;
    }
    None
}

/// The length that a header line names, if it names one.
pub open spec fn line_length(line: Seq<char>) -> Option<u64> {
    match first_where(line, is_char(':')) {
        None => None,
        Some(i) => if same_but_case(line.take(i), "content-length"@) {
            decimal_u64(trimmed(line.skip(i + 1)))
        } else {
            None
        },
    }
}

/// The length that the first line to name one names.
pub open spec fn length_of(headers: Seq<char>) -> Option<u64>
    decreases headers.len(),
{
    match first_where(headers, is_char('\n')) {
        None => line_length(headers),
        Some(i) => match line_length(headers.take(i)) {
            Some(n) => Some(n),
            None => if 0 <= i < headers.len() {
                length_of(headers.skip(i + 1))
            } else {
                None
            },
        },
    }
}

/// Reads the length that a header line names.
fn read_line_length(line: &str) -> (length: Option<u64>)
    ensures
        length == line_length(line@),
{
    match find_char(line, ':') {
        None => None,
        Some(i) => {
            let n: usize = line.unicode_len();
            let name: &str = line.substring_char(0, i);
            assert(name@ =~= line@.take(i as int));
            if alike(name, "content-length") {
                let value: &str = line.substring_char(i + 1, n);
                assert(value@ =~= line@.skip(i + 1));
                parse_u64(trim(value))
            } else {
                None
            }
        },
    }
}

/// The length of the body, as the headers of a response name it. Names may be
/// written in capitals.
pub fn content_length(headers: &str) -> (length: Option<u64>)
    ensures
        length == length_of(headers@),
{
    let mut rest: &str = headers;
    loop
        invariant
            length_of(headers@) == length_of(rest@),
        decreases rest@.len(),
    {
        match find_char(rest, '\n') {
            None => {
                return read_line_length(rest);
            },
            Some(i) => {
                let n: usize = rest.unicode_len();
                let line: &str = rest.substring_char(0, i);
                assert(line@ =~= rest@.take(i as int));
                let found = read_line_length(line);
                if found.is_some() {
                    return found;
                }
                let next: &str = rest.substring_char(i + 1, n);
                assert(next@ =~= rest@.skip(i + 1));
                rest = next;
            },
        }
    }
}

} // verus!
