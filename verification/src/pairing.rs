//! The pairing client: two stateless operations that exchange a certificate
//! signing request for a signed certificate and discover the broker endpoint.
//!
//! Each operation is one HTTP exchange.  This module builds the request
//! (URL, bearer authorization, JSON body) and interprets the response; the
//! transport itself is left to the caller, which also owns retry and backoff
//! policy.

use vstd::prelude::*;
use vstd::string::StringSliceAdditionalSpecFns;

verus! {

/// Errors of the pairing client.
#[derive(Clone, Debug, PartialEq)]
pub enum PairingError {
    /// The credentials secret was rejected before any request was sent.
    InvalidCredentials,
    /// The pairing base URL is malformed or cannot be used as a base.
    InvalidUrl,
    /// A transport-level failure, with the cause's text.
    RequestError(String),
    /// The response parsed as JSON but did not match the expected shape.
    UnexpectedResponse,
    /// A non-success HTTP status, with the literal response body.
    ApiError(u16, String),
    /// A failure in certificate or key material handling, with the cause's
    /// text.
    Crypto(String),
}

/// Read-only pairing configuration.
#[derive(Clone, Debug)]
pub struct PairingConfig {
    pub realm: String,
    pub device_id: String,
    pub credentials_secret: String,
    pub pairing_url: String,
}

/// The HTTP method of a pairing request.
#[derive(Clone, Copy, Debug, PartialEq, Eq, Structural)]
pub enum HttpMethod {
    Get,
    Post,
}

/// One fully-built pairing request, ready to be sent by the transport.
#[derive(Clone, Debug)]
pub struct HttpRequest {
    pub method: HttpMethod,
    pub url: String,
    pub bearer_token: String,
    pub body: Option<Vec<u8>>,
}

impl HttpRequest {
    /// The value of the `Authorization` header for this request.
    pub fn authorization_header(&self) -> (r: String)
        ensures
            r@ == "Bearer "@ + self.bearer_token@,
    {
        let mut s = String::from_str("Bearer ");
        s.append(self.bearer_token.as_str());
        s
    }
}

/// The character views of a sequence of strings.
pub open spec fn seq_views(ss: Seq<String>) -> Seq<Seq<char>> {
    ss.map_values(|s: String| s@)
}

/// What `url::Url::parse` on a base followed by percent-encoding
/// segment-appends and serialization yields: `None` when the base does not
/// parse as an absolute URL or cannot be a base.
pub uninterp spec fn url_join(base: Seq<char>, segments: Seq<Seq<char>>) -> Option<Seq<char>>;

/// Relies on url::Url::parse and url::PathSegmentsMut::extend: parse the
/// base, append each segment percent-encoded, and serialize the result.  The
/// outcome depends on the base text and the segments alone.
#[verifier::external_body]
fn join_url(base: &str, segments: &Vec<String>) -> (r: Option<String>)
    ensures
        match r {
            Some(u) => url_join(base@, seq_views(segments@)) == Some(u@),
            None => url_join(base@, seq_views(segments@)) is None,
        },
{
    let mut url = match url::Url::parse(base) {
        Ok(u) => u,
        Err(_) => return None,
    };
    match url.path_segments_mut() {
        Ok(mut p) => {
            p.extend(segments);
        },
        Err(()) => return None,
    }
    Some(String::from(url))
}

/// Whether the text holds a query or fragment delimiter.
pub open spec fn has_query_or_fragment(s: Seq<char>) -> bool {
    exists|i: int| 0 <= i < s.len() && (s[i] == '?' || s[i] == '#')
}

/// The base with its trailing slashes removed, so that a base URL written
/// with or without a trailing slash names the same endpoint.  A base with a
/// query or fragment is left alone: its trailing slash is not a path slash.
pub open spec fn normalized_base(s: Seq<char>) -> Seq<char>
    decreases s.len(),
{
    if s.len() > 0 && !has_query_or_fragment(s) && s.last() == '/' {
        normalized_base(s.drop_last())
    } else {
        s
    }
}

/// The URL of a pairing request: the normalized base with the operation's
/// path segments appended.
pub open spec fn pairing_request_url(base: Seq<char>, segments: Seq<Seq<char>>) -> Option<
    Seq<char>,
> {
    url_join(normalized_base(base), segments)
}

/// The path segments of the credential-exchange endpoint.
pub open spec fn credentials_segments(realm: Seq<char>, device_id: Seq<char>) -> Seq<Seq<char>> {
    seq!["v1"@, realm, "devices"@, device_id, "protocols"@, "astarte_mqtt_v1"@, "credentials"@]
}

/// The path segments of the device-status endpoint.
pub open spec fn info_segments(realm: Seq<char>, device_id: Seq<char>) -> Seq<Seq<char>> {
    seq!["v1"@, realm, "devices"@, device_id]
}

fn find_query_or_fragment(s: &str) -> (r: bool)
    ensures
        r == has_query_or_fragment(s@),
{
    let n = s.unicode_len();
    let mut i: usize = 0;
    while i < n
        invariant
            n == s@.len(),
            i <= n,
            forall|j: int| 0 <= j < i ==> s@[j] != '?' && s@[j] != '#',
        decreases n - i,
    {
        let c = s.get_char(i);
        if c == '?' || c == '#' {
            return true;
        }
        i = i + 1;
    }
    false
}

/// The index after which the text is all slashes.
fn trailing_slashes_start(s: &str) -> (end: usize)
    ensures
        end <= s@.len(),
        forall|j: int| end <= j < s@.len() ==> s@[j] == '/',
        end > 0 ==> s@[end - 1] != '/',
{
    let n = s.unicode_len();
    let mut end: usize = n;
    while end > 0
        invariant
            end <= n,
            n == s@.len(),
            forall|j: int| end <= j < n ==> s@[j] == '/',
        decreases end,
    {
        let c = s.get_char(end - 1);
        if c != '/' {
            return end;
        }
        end = end - 1;
    }
    0
}

proof fn lemma_normalized_strip(s: Seq<char>, end: int)
    requires
        !has_query_or_fragment(s),
        0 <= end <= s.len(),
        forall|j: int| end <= j < s.len() ==> s[j] == '/',
        end > 0 ==> s[end - 1] != '/',
    ensures
        normalized_base(s) == s.subrange(0, end),
    decreases s.len(),
{
    if s.len() == end {
        assert(s.subrange(0, end) =~= s);
    } else {
        assert(s[s.len() - 1] == '/');
        assert(!has_query_or_fragment(s.drop_last())) by {
            if exists|i: int|
                0 <= i < s.drop_last().len() && (s.drop_last()[i] == '?' || s.drop_last()[i]
                    == '#') {
                let i = choose|i: int|
                    0 <= i < s.drop_last().len() && (s.drop_last()[i] == '?' || s.drop_last()[i]
                        == '#');
                assert(s[i] == '?' || s[i] == '#');
            }
        }
        lemma_normalized_strip(s.drop_last(), end);
        assert(s.drop_last().subrange(0, end) =~= s.subrange(0, end));
    }
}

/// Strip trailing slashes from a base URL that has no query and no fragment;
/// leave any other base alone.
pub fn normalize_base(base: &str) -> (r: String)
    ensures
        r@ == normalized_base(base@),
{
    if find_query_or_fragment(base) {
        return String::from_str(base);
    }
    let end = trailing_slashes_start(base);
    proof {
        lemma_normalized_strip(base@, end as int);
    }
    let out = base.substring_char(0, end);
    String::from_str(out)
}

/// A base URL written with one more trailing slash yields the same request
/// URL: the normalization removes the slash before the segments are appended.
pub proof fn lemma_trailing_slash_url(base: Seq<char>, segments: Seq<Seq<char>>)
    requires
        !has_query_or_fragment(base),
    ensures
        pairing_request_url(base.push('/'), segments) == pairing_request_url(base, segments),
{
    let s = base.push('/');
    assert(!has_query_or_fragment(s)) by {
        if exists|i: int| 0 <= i < s.len() && (s[i] == '?' || s[i] == '#') {
            let i = choose|i: int| 0 <= i < s.len() && (s[i] == '?' || s[i] == '#');
            if i < base.len() {
                assert(base[i] == '?' || base[i] == '#');
            } else {
                assert(s[i] == '/');
            }
        }
    }
    assert(s.last() == '/');
    assert(s.drop_last() =~= base);
}

fn credentials_segments_exec(realm: &str, device_id: &str) -> (r: Vec<String>)
    ensures
        seq_views(r@) == credentials_segments(realm@, device_id@),
{
    let mut v: Vec<String> = Vec::new();
    v.push(String::from_str("v1"));
    v.push(String::from_str(realm));
    v.push(String::from_str("devices"));
    v.push(String::from_str(device_id));
    v.push(String::from_str("protocols"));
    v.push(String::from_str("astarte_mqtt_v1"));
    v.push(String::from_str("credentials"));
    proof {
        assert(seq_views(v@) =~= credentials_segments(realm@, device_id@));
    }
    v
}

fn info_segments_exec(realm: &str, device_id: &str) -> (r: Vec<String>)
    ensures
        seq_views(r@) == info_segments(realm@, device_id@),
{
    let mut v: Vec<String> = Vec::new();
    v.push(String::from_str("v1"));
    v.push(String::from_str(realm));
    v.push(String::from_str("devices"));
    v.push(String::from_str(device_id));
    proof {
        assert(seq_views(v@) =~= info_segments(realm@, device_id@));
    }
    v
}

/// The hexadecimal digit of a value below sixteen.
pub open spec fn hex_digit(n: u8) -> u8
    recommends
        n < 16,
{
    if n < 10 {
        (0x30 + n) as u8
    } else {
        (0x57 + n) as u8
    }
}

/// The JSON string escape of one byte of UTF-8 text.
pub open spec fn json_escape_byte(b: u8) -> Seq<u8> {
    if b == 0x22 {
        seq![0x5cu8, 0x22u8]
    } else if b == 0x5c {
        seq![0x5cu8, 0x5cu8]
    } else if b == 0x08 {
        seq![0x5cu8, 0x62u8]
    } else if b == 0x09 {
        seq![0x5cu8, 0x74u8]
    } else if b == 0x0a {
        seq![0x5cu8, 0x6eu8]
    } else if b == 0x0c {
        seq![0x5cu8, 0x66u8]
    } else if b == 0x0d {
        seq![0x5cu8, 0x72u8]
    } else if b < 0x20 {
        seq![0x5cu8, 0x75u8, 0x30u8, 0x30u8, hex_digit(b / 16), hex_digit(b % 16)]
    } else {
        seq![b]
    }
}

/// The JSON string escape of UTF-8 text.
pub open spec fn json_escape(s: Seq<u8>) -> Seq<u8>
    decreases s.len(),
{
    if s.len() == 0 {
        Seq::empty()
    } else {
        json_escape_byte(s[0]) + json_escape(s.drop_first())
    }
}

/// Escaping distributes over concatenation.
pub proof fn lemma_json_escape_concat(a: Seq<u8>, b: Seq<u8>)
    ensures
        json_escape(a + b) == json_escape(a) + json_escape(b),
    decreases a.len(),
{
    if a.len() == 0 {
        assert(a + b =~= b);
        assert(json_escape(a) + json_escape(b) =~= json_escape(b));
    } else {
        assert((a + b).drop_first() =~= a.drop_first() + b);
        assert((a + b)[0] == a[0]);
        lemma_json_escape_concat(a.drop_first(), b);
        assert(json_escape_byte(a[0]) + (json_escape(a.drop_first()) + json_escape(b)) =~= (
        json_escape_byte(a[0]) + json_escape(a.drop_first())) + json_escape(b));
    }
}

/// The bytes of `{"data":{"csr":"`.
pub open spec fn body_prefix() -> Seq<u8> {
    seq![
        0x7bu8,
        0x22u8,
        0x64u8,
        0x61u8,
        0x74u8,
        0x61u8,
        0x22u8,
        0x3au8,
        0x7bu8,
        0x22u8,
        0x63u8,
        0x73u8,
        0x72u8,
        0x22u8,
        0x3au8,
        0x22u8,
    ]
}

/// The bytes of `"}}`.
pub open spec fn body_suffix() -> Seq<u8> {
    seq![0x22u8, 0x7du8, 0x7du8]
}

/// The JSON body of a credential-exchange request, over the UTF-8 bytes of
/// the certificate signing request.
pub open spec fn credentials_body(csr: Seq<u8>) -> Seq<u8> {
    body_prefix() + json_escape(csr) + body_suffix()
}

fn exec_hex_digit(n: u8) -> (r: u8)
    requires
        n < 16,
    ensures
        r == hex_digit(n),
{
    if n < 10 {
        0x30 + n
    } else {
        0x57 + n
    }
}

/// Build the JSON body `{"data":{"csr":<csr>}}`, with the certificate
/// signing request escaped as a JSON string.
pub fn credentials_request_body(csr: &str) -> (r: Vec<u8>)
    ensures
        r@ == credentials_body(csr.spec_bytes()),
{
    let bytes = csr.as_bytes_vec();
    let mut out: Vec<u8> = Vec::new();
    out.push(0x7b);
    out.push(0x22);
    out.push(0x64);
    out.push(0x61);
    out.push(0x74);
    out.push(0x61);
    out.push(0x22);
    out.push(0x3a);
    out.push(0x7b);
    out.push(0x22);
    out.push(0x63);
    out.push(0x73);
    out.push(0x72);
    out.push(0x22);
    out.push(0x3a);
    out.push(0x22);
    proof {
        assert(out@ =~= body_prefix());
    }
    let n = bytes.len();
    let mut i: usize = 0;
    while i < n
        invariant
            n == bytes@.len(),
            i <= n,
            bytes@ == csr.spec_bytes(),
            out@ == body_prefix() + json_escape(bytes@.subrange(0, i as int)),
        decreases n - i,
    {
        let b = bytes[i];
        if b == 0x22 {
            out.push(0x5c);
            out.push(0x22);
        } else if b == 0x5c {
            out.push(0x5c);
            out.push(0x5c);
        } else if b == 0x08 {
            out.push(0x5c);
            out.push(0x62);
        } else if b == 0x09 {
            out.push(0x5c);
            out.push(0x74);
        } else if b == 0x0a {
            out.push(0x5c);
            out.push(0x6e);
        } else if b == 0x0c {
            out.push(0x5c);
            out.push(0x66);
        } else if b == 0x0d {
            out.push(0x5c);
            out.push(0x72);
        } else if b < 0x20 {
            out.push(0x5c);
            out.push(0x75);
            out.push(0x30);
            out.push(0x30);
            out.push(exec_hex_digit(b / 16));
            out.push(exec_hex_digit(b % 16));
        } else {
            out.push(b);
        }
        proof {
            let pre = bytes@.subrange(0, i as int);
            assert(bytes@.subrange(0, i as int + 1) =~= pre + seq![bytes@[i as int]]);
            lemma_json_escape_concat(pre, seq![bytes@[i as int]]);
            assert(seq![bytes@[i as int]].drop_first() =~= Seq::<u8>::empty());
            assert(json_escape(Seq::<u8>::empty()) =~= Seq::<u8>::empty());
            assert(json_escape(seq![bytes@[i as int]]) =~= json_escape_byte(bytes@[i as int]));
            assert(out@ =~= body_prefix() + json_escape(bytes@.subrange(0, i as int + 1)));
        }
        i = i + 1;
    }
    proof {
        assert(bytes@.subrange(0, n as int) =~= bytes@);
    }
    out.push(0x22);
    out.push(0x7d);
    out.push(0x7d);
    proof {
        assert(out@ =~= credentials_body(csr.spec_bytes()));
    }
    out
}

/// The certificate field of a response body of the credentials shape
/// (`{"data":{"clientCertificate":...}}`), `None` when the body is not JSON
/// or lacks that shape.
pub uninterp spec fn credentials_cert_of(body: Seq<char>) -> Option<Seq<char>>;

/// Relies on serde_json::from_str and serde_json::Value::{get, as_str}: the
/// string at `data.clientCertificate` of the parsed body, `None` when the
/// body is not JSON or the field is missing or not a string.  The result
/// depends on the body text alone.
#[verifier::external_body]
fn parse_credentials_body(body: &str) -> (r: Option<String>)
    ensures
        match r {
            Some(c) => credentials_cert_of(body@) == Some(c@),
            None => credentials_cert_of(body@) is None,
        },
{
    let v: serde_json::Value = serde_json::from_str(body).ok()?;
    let cert = v.get("data")?.get("clientCertificate")?.as_str()?;
    Some(cert.to_string())
}

/// The nested broker URL of a response body of the status shape
/// (`{"data":{"version":..,"status":..,"protocols":{"astarteMqttV1":
/// {"brokerUrl":...}}}}`), `None` when the body lacks that shape.
pub uninterp spec fn status_broker_url_of(body: Seq<char>) -> Option<Seq<char>>;

/// Relies on serde_json::from_str and serde_json::Value::{get, as_str}: the
/// string at `data.protocols.astarteMqttV1.brokerUrl` of the parsed body,
/// with `data.version` and `data.status` required to be present strings;
/// `None` otherwise.  The result depends on the body text alone.
#[verifier::external_body]
fn parse_status_body(body: &str) -> (r: Option<String>)
    ensures
        match r {
            Some(u) => status_broker_url_of(body@) == Some(u@),
            None => status_broker_url_of(body@) is None,
        },
{
    let v: serde_json::Value = serde_json::from_str(body).ok()?;
    let data = v.get("data")?;
    data.get("version")?.as_str()?;
    data.get("status")?.as_str()?;
    let b = data.get("protocols")?.get("astarteMqttV1")?.get("brokerUrl")?.as_str()?;
    Some(b.to_string())
}

/// Build the credential-exchange request: a POST to
/// `{base}/v1/{realm}/devices/{device_id}/protocols/astarte_mqtt_v1/credentials`
/// with bearer authorization and the JSON body `{"data":{"csr":..}}`.
pub fn credentials_request(cfg: &PairingConfig, csr: &str) -> (r: Result<
    HttpRequest,
    PairingError,
>)
    ensures
        ({
            match pairing_request_url(
                cfg.pairing_url@,
                credentials_segments(cfg.realm@, cfg.device_id@),
            ) {
                Some(u) => r matches Ok(req) && req.method == HttpMethod::Post && req.url@ == u
                    && req.bearer_token@ == cfg.credentials_secret@ && (req.body matches Some(b)
                    && b@ == credentials_body(csr.spec_bytes())),
                None => r matches Err(e) && e == PairingError::InvalidUrl,
            }
        }),
{
    let base = normalize_base(cfg.pairing_url.as_str());
    let segs = credentials_segments_exec(cfg.realm.as_str(), cfg.device_id.as_str());
    match join_url(base.as_str(), &segs) {
        None => Err(PairingError::InvalidUrl),
        Some(u) => Ok(
            HttpRequest {
                method: HttpMethod::Post,
                url: u,
                bearer_token: cfg.credentials_secret.clone(),
                body: Some(credentials_request_body(csr)),
            },
        ),
    }
}

/// Build the broker-discovery request: a GET to
/// `{base}/v1/{realm}/devices/{device_id}` with bearer authorization.
pub fn broker_url_request(cfg: &PairingConfig) -> (r: Result<HttpRequest, PairingError>)
    ensures
        ({
            match pairing_request_url(cfg.pairing_url@, info_segments(cfg.realm@, cfg.device_id@)) {
                Some(u) => r matches Ok(req) && req.method == HttpMethod::Get && req.url@ == u
                    && req.bearer_token@ == cfg.credentials_secret@ && req.body is None,
                None => r matches Err(e) && e == PairingError::InvalidUrl,
            }
        }),
{
    let base = normalize_base(cfg.pairing_url.as_str());
    let segs = info_segments_exec(cfg.realm.as_str(), cfg.device_id.as_str());
    match join_url(base.as_str(), &segs) {
        None => Err(PairingError::InvalidUrl),
        Some(u) => Ok(
            HttpRequest {
                method: HttpMethod::Get,
                url: u,
                bearer_token: cfg.credentials_secret.clone(),
                body: None,
            },
        ),
    }
}

/// Interpret the credential-exchange response: 201 with a body of the
/// credentials shape yields the certificate; 201 with any other body is an
/// unexpected response; any other status surfaces the status code and the
/// raw body verbatim.
pub fn interpret_credentials_response(status: u16, body: String) -> (r: Result<
    String,
    PairingError,
>)
    ensures
        status == 201 ==> (match credentials_cert_of(body@) {
            Some(c) => r matches Ok(s) && s@ == c,
            None => r matches Err(e) && e == PairingError::UnexpectedResponse,
        }),
        status != 201 ==> (r matches Err(e) && (e matches PairingError::ApiError(st, b) && st
            == status && b@ == body@)),
{
    if status == 201 {
        match parse_credentials_body(body.as_str()) {
            Some(c) => Ok(c),
            None => Err(PairingError::UnexpectedResponse),
        }
    } else {
        Err(PairingError::ApiError(status, body))
    }
}

/// Interpret the broker-discovery response: 200 with a body of the status
/// shape yields the nested broker URL; 200 with any other body is an
/// unexpected response; any other status surfaces the status code and the
/// raw body verbatim.
pub fn interpret_broker_url_response(status: u16, body: String) -> (r: Result<
    String,
    PairingError,
>)
    ensures
        status == 200 ==> (match status_broker_url_of(body@) {
            Some(u) => r matches Ok(s) && s@ == u,
            None => r matches Err(e) && e == PairingError::UnexpectedResponse,
        }),
        status != 200 ==> (r matches Err(e) && (e matches PairingError::ApiError(st, b) && st
            == status && b@ == body@)),
{
    if status == 200 {
        match parse_status_body(body.as_str()) {
            Some(u) => Ok(u),
            None => Err(PairingError::UnexpectedResponse),
        }
    } else {
        Err(PairingError::ApiError(status, body))
    }
}

} // verus!
