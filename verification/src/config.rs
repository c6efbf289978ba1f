//! Configuration, resolved once at startup: the URIs read, the credential encoded as a
//! header value, and the worker count sized to the machine. Every value is a constant
//! except the credential and the port, so there is next to no configuration to get wrong.

use hyper::header::HeaderValue;
use vstd::prelude::*;
use vstd::utf8::*;

use crate::egress::{V4_PROBE, V6_PROBE};
use crate::header;
use crate::text;

verus! {

/// The upstream chat-completions endpoint.
pub const UPSTREAM: &'static str = "https://opencode.ai/zen/v1/chat/completions";

/// Platforms assign the port they route to; this one is used where none is assigned.
pub const DEFAULT_PORT: u16 = 8787;

/// The relay must buffer a request body to be able to retry it, so an unbounded body is
/// an unbounded allocation.
pub const MAX_BODY: usize = 33_554_432;

pub const MAX_RETRIES: u32 = 1;

/// The credential in use where none is supplied; it only ever answers 401.
pub const PLACEHOLDER_KEY: &'static str = "public";

/// Beyond a few workers the tail latency grows faster than the throughput.
pub const WORKER_CEILING: usize = 4;

// ---------------------------------------------------------------------------
// Settings from the environment
// ---------------------------------------------------------------------------

/// A setting as it was found.
pub open spec fn setting(raw: Option<&str>) -> Option<Seq<char>> {
    match raw {
        Some(value) => Some(value@),
        None => None,
    }
}

/// The credential that a setting stands for: its text without the white space around it,
/// or the placeholder where that leaves nothing.
pub open spec fn key_of(raw: Option<Seq<char>>) -> Seq<char> {
    match raw {
        Some(value) => if text::trimmed(value).len() > 0 {
            text::trimmed(value)
        } else {
            PLACEHOLDER_KEY@
        },
        None => PLACEHOLDER_KEY@,
    }
}

/// The upstream credential, handed in so no credential is ever compiled into the binary.
/// Absent (or blank), it falls back to the placeholder, which keeps a public build
/// runnable without a real key.
pub fn upstream_key(raw: Option<&str>) -> (res: String)
    ensures
        res@ == key_of(setting(raw)),
{
    match raw {
        Some(value) => {
            let key = text::trim(value);
            if key.is_empty() {
                PLACEHOLDER_KEY.to_owned()
            } else {
                key.to_owned()
            }
        },
        None => PLACEHOLDER_KEY.to_owned(),
    }
}

/// The port that a setting stands for.
pub open spec fn port_of(raw: Option<Seq<char>>) -> u16 {
    match raw {
        Some(value) => match text::u16_value(encode_utf8(text::trimmed(value))) {
            Some(port) => port,
            None => DEFAULT_PORT,
        },
        None => DEFAULT_PORT,
    }
}

/// A platform tells a container where to listen; ignoring it would mean every deployment
/// needs its target port set by hand.
pub fn listen_port(raw: Option<&str>) -> (res: u16)
    ensures
        res == port_of(setting(raw)),
{
    match raw {
        Some(value) => match text::parse_u16(text::trim(value)) {
            Some(port) => port,
            None => DEFAULT_PORT,
        },
        None => DEFAULT_PORT,
    }
}

/// The number of workers for a machine with so many cores, if that is known.
pub open spec fn workers_of(cores: Option<usize>) -> usize {
    match cores {
        Some(n) => if n < 1 {
            1
        } else if n > WORKER_CEILING {
            WORKER_CEILING
        } else {
            n
        },
        None => 1,
    }
}

/// A container usually sees every core on the host, not its own share, so an unbounded
/// count would size the pool for hardware this process cannot use, and pay for it in
/// tail latency.
pub fn worker_threads(cores: Option<usize>) -> (res: usize)
    ensures
        res == workers_of(cores),
        1 <= res <= WORKER_CEILING,
{
    let n: usize = match cores {
        Some(n) => n,
        None => 1,
    };
    if n < 1 {
        1
    } else if n > WORKER_CEILING {
        WORKER_CEILING
    } else {
        n
    }
}

// ---------------------------------------------------------------------------
// The clock
// ---------------------------------------------------------------------------

/// `SystemTime::elapsed` since the Unix epoch, in milliseconds: `None` where the clock
/// stands before it. Nothing is stated of the result, which is the time of day.
#[verifier::external_body]
fn clock_reading() -> (res: Option<u128>) {
    std::time::UNIX_EPOCH.elapsed().ok().map(|d| d.as_millis())
}

/// A clock reading as the milliseconds that go into IDs: the low 64 bits, and zero where
/// there is no reading.
pub fn millis_of(reading: Option<u128>) -> (res: u64)
    ensures
        res == (match reading {
            Some(millis) => millis % 0x1_0000_0000_0000_0000,
            None => 0,
        }),
{
    match reading {
        Some(millis) => (millis % 0x1_0000_0000_0000_0000) as u64,
        None => 0,
    }
}

/// The milliseconds since the Unix epoch, as the clock has them now.
pub fn now_millis() -> u64 {
    millis_of(clock_reading())
}

// ---------------------------------------------------------------------------
// The configuration
// ---------------------------------------------------------------------------

/// A URI that was read: its own text, how it is displayed, and its host.
pub struct Endpoint {
    pub text: String,
    pub shown: String,
    pub host: Option<String>,
}

/// What an endpoint is made of.
pub struct EndpointView {
    pub text: Seq<char>,
    pub shown: Seq<char>,
    pub host: Option<Seq<char>>,
}

impl View for Endpoint {
    type V = EndpointView;

    open spec fn view(&self) -> EndpointView {
        EndpointView {
            text: self.text@,
            shown: self.shown@,
            host: match self.host {
                Some(host) => Some(host@),
                None => None,
            },
        }
    }
}

/// The outcome of reading a URI, in view.
pub open spec fn reading(res: Result<Endpoint, String>) -> Result<EndpointView, Seq<char>> {
    match res {
        Ok(endpoint) => Ok(endpoint@),
        Err(cause) => Err(cause@),
    }
}

/// What reading a text as a URI gives.
pub open spec fn endpoint_of(text: Seq<char>) -> Result<EndpointView, Seq<char>> {
    match header::uri_error(text) {
        None => Ok(
            EndpointView {
                text,
                shown: header::uri_shown(text),
                host: header::uri_host(text),
            },
        ),
        Some(cause) => Err(cause),
    }
}

/// Read a URI.
pub fn read_endpoint(text: &str) -> (res: Result<Endpoint, String>)
    ensures
        reading(res) == endpoint_of(text@),
{
    match header::read_uri(text) {
        Ok((shown, host)) => Ok(Endpoint { text: text.to_owned(), shown, host }),
        Err(cause) => Err(cause),
    }
}

/// Why there is no configuration.
pub enum ConfigError {
    /// The credential cannot stand in a header.
    Key,
    /// A URI could not be read, for this reason.
    Uri(String),
}

/// Why there is no configuration, in view.
pub enum ConfigErrorView {
    Key,
    Uri(Seq<char>),
}

impl View for ConfigError {
    type V = ConfigErrorView;

    open spec fn view(&self) -> ConfigErrorView {
        match self {
            ConfigError::Key => ConfigErrorView::Key,
            ConfigError::Uri(cause) => ConfigErrorView::Uri(cause@),
        }
    }
}

impl ConfigErrorView {
    /// The words that a configuration error is reported with.
    pub open spec fn words(self) -> Seq<char> {
        match self {
            ConfigErrorView::Key => "the upstream key contains bytes that cannot go in a header"@,
            ConfigErrorView::Uri(cause) => cause,
        }
    }
}

impl ConfigError {
    /// The words that a configuration error is reported with.
    pub fn message(&self) -> (res: String)
        ensures
            res@ == self@.words(),
    {
        match self {
            ConfigError::Key => {
                "the upstream key contains bytes that cannot go in a header".to_owned()
            },
            ConfigError::Uri(cause) => cause.clone(),
        }
    }
}

/// What the relay runs with.
pub struct Config {
    pub upstream: Endpoint,
    pub authorization: HeaderValue,
    pub max_retries: u32,
    pub max_body: usize,
    pub bind: [u8; 4],
    pub port: u16,
    pub egress_v4: Endpoint,
    pub egress_v6: Endpoint,
    pub worker_threads: usize,
}

/// What the relay runs with, in view.
pub struct ConfigView {
    pub upstream: EndpointView,
    pub authorization: (Seq<u8>, bool),
    pub max_retries: u32,
    pub max_body: usize,
    pub bind: Seq<u8>,
    pub port: u16,
    pub egress_v4: EndpointView,
    pub egress_v6: EndpointView,
    pub worker_threads: usize,
}

impl View for Config {
    type V = ConfigView;

    open spec fn view(&self) -> ConfigView {
        ConfigView {
            upstream: self.upstream@,
            authorization: header::value_view(self.authorization),
            max_retries: self.max_retries,
            max_body: self.max_body,
            bind: self.bind@,
            port: self.port,
            egress_v4: self.egress_v4@,
            egress_v6: self.egress_v6@,
            worker_threads: self.worker_threads,
        }
    }
}

/// The credential as it goes upstream.
pub open spec fn bearer(key: Seq<char>) -> Seq<u8> {
    encode_utf8("Bearer "@ + key)
}

/// The configuration that the settings and the three URIs make. The first thing that is
/// wrong is reported, in the order credential, upstream, IPv4 probe, IPv6 probe.
pub open spec fn resolved(
    key: Option<Seq<char>>,
    port: Option<Seq<char>>,
    cores: Option<usize>,
    upstream: Result<EndpointView, Seq<char>>,
    egress_v4: Result<EndpointView, Seq<char>>,
    egress_v6: Result<EndpointView, Seq<char>>,
) -> Result<ConfigView, ConfigErrorView> {
    if !header::is_value(bearer(key_of(key))) {
        Err(ConfigErrorView::Key)
    } else {
        match (upstream, egress_v4, egress_v6) {
            (Err(cause), _, _) => Err(ConfigErrorView::Uri(cause)),
            (_, Err(cause), _) => Err(ConfigErrorView::Uri(cause)),
            (_, _, Err(cause)) => Err(ConfigErrorView::Uri(cause)),
            (Ok(upstream), Ok(egress_v4), Ok(egress_v6)) => Ok(
                ConfigView {
                    upstream,
                    // Marked as a secret: kept out of HPACK's shared table and out of logs.
                    authorization: (bearer(key_of(key)), true),
                    max_retries: MAX_RETRIES,
                    max_body: MAX_BODY,
                    bind: seq![0u8, 0, 0, 0],
                    port: port_of(port),
                    egress_v4,
                    egress_v6,
                    worker_threads: workers_of(cores),
                },
            ),
        }
    }
}

/// A configuration or the reason there is none, in view.
pub open spec fn outcome(res: Result<Config, ConfigError>) -> Result<ConfigView, ConfigErrorView> {
    match res {
        Ok(config) => Ok(config@),
        Err(e) => Err(e@),
    }
}

impl Config {
    /// The configuration for the settings that were found: the credential, the port, and
    /// how many cores the machine has.
    pub fn new(key: Option<&str>, port: Option<&str>, cores: Option<usize>) -> (res: Result<
        Config,
        ConfigError,
    >)
        ensures
            outcome(res) == resolved(
                setting(key),
                setting(port),
                cores,
                endpoint_of(UPSTREAM@),
                endpoint_of(V4_PROBE@),
                endpoint_of(V6_PROBE@),
            ),
    {
        Config::assemble(
            key,
            port,
            cores,
            read_endpoint(UPSTREAM),
            read_endpoint(V4_PROBE),
            read_endpoint(V6_PROBE),
        )
    }

    /// The configuration for the settings that were found and the URIs that were read.
    pub fn assemble(
        key: Option<&str>,
        port: Option<&str>,
        cores: Option<usize>,
        upstream: Result<Endpoint, String>,
        egress_v4: Result<Endpoint, String>,
        egress_v6: Result<Endpoint, String>,
    ) -> (res: Result<Config, ConfigError>)
        ensures
            outcome(res) == resolved(
                setting(key),
                setting(port),
                cores,
                reading(upstream),
                reading(egress_v4),
                reading(egress_v6),
            ),
    {
        let mut credential = "Bearer ".to_owned();
        let key_text = upstream_key(key);
        credential.push_str(key_text.as_str());
        let mut authorization = match header::value_from_str(credential.as_str()) {
            Some(value) => value,
            None => {
                return Err(ConfigError::Key);
            },
        };
        authorization.set_sensitive(true);
        let upstream = match upstream {
            Ok(endpoint) => endpoint,
            Err(cause) => {
                return Err(ConfigError::Uri(cause));
            },
        };
        let egress_v4 = match egress_v4 {
            Ok(endpoint) => endpoint,
            Err(cause) => {
                return Err(ConfigError::Uri(cause));
            },
        };
        let egress_v6 = match egress_v6 {
            Ok(endpoint) => endpoint,
            Err(cause) => {
                return Err(ConfigError::Uri(cause));
            },
        };
        let bind: [u8; 4] = [0, 0, 0, 0];
        assert(bind@ =~= seq![0u8, 0, 0, 0]);
        Ok(
            Config {
                upstream,
                authorization,
                max_retries: MAX_RETRIES,
                max_body: MAX_BODY,
                bind,
                port: listen_port(port),
                egress_v4,
                egress_v6,
                worker_threads: worker_threads(cores),
            },
        )
    }
}

// ---------------------------------------------------------------------------
// What holds of settings
// ---------------------------------------------------------------------------

/// A credential is used as it was set, the white space around it apart; a blank one, or
/// none, is the placeholder.
pub proof fn law_keys_are_used_as_set(before: Seq<char>, key: Seq<char>, behind: Seq<char>)
    requires
        forall|i: int| 0 <= i < before.len() ==> text::is_white_space(#[trigger] before[i]),
        forall|i: int| 0 <= i < behind.len() ==> text::is_white_space(#[trigger] behind[i]),
        key.len() > 0 ==> !text::is_white_space(key.first()) && !text::is_white_space(key.last()),
    ensures
        key_of(Some(before + key + behind)) == (if key.len() > 0 {
            key
        } else {
            "public"@
        }),
        key_of(None) == "public"@,
{
    text::law_trimming_keeps_the_core(before, key, behind);
}

/// A port is used as it was set, the white space around it apart; what is not a port, or
/// none, is 8787.
pub proof fn law_ports_are_used_as_set(
    before: Seq<char>,
    raw: Seq<char>,
    behind: Seq<char>,
    n: nat,
)
    requires
        forall|i: int| 0 <= i < before.len() ==> text::is_white_space(#[trigger] before[i]),
        forall|i: int| 0 <= i < behind.len() ==> text::is_white_space(#[trigger] behind[i]),
        raw.len() > 0 ==> !text::is_white_space(raw.first()) && !text::is_white_space(raw.last()),
    ensures
        port_of(Some(before + raw + behind)) == text::u16_value(encode_utf8(raw)).unwrap_or(8787),
        raw == text::decimal(n) && n <= 65535 ==> port_of(Some(before + raw + behind)) == n,
        port_of(None) == 8787,
{
    text::law_trimming_keeps_the_core(before, raw, behind);
    text::law_written_numbers_are_read(n);
}

/// There are as many workers as cores, but at least one and at most four.
pub proof fn law_workers_are_counted(cores: usize)
    ensures
        1 <= cores <= 4 ==> workers_of(Some(cores)) == cores,
        cores == 0 ==> workers_of(Some(cores)) == 1,
        cores > 4 ==> workers_of(Some(cores)) == 4,
        workers_of(None) == 1,
{
}

/// The configuration is made of what was set and what was read: the credential as a
/// bearer token that is marked as a secret, the three endpoints, the port, the workers;
/// one retry, a cap of 32 MiB, and every local address.
pub proof fn law_configurations_are_what_was_set(
    key: Option<Seq<char>>,
    port: Option<Seq<char>>,
    cores: Option<usize>,
    upstream: EndpointView,
    egress_v4: EndpointView,
    egress_v6: EndpointView,
)
    requires
        header::is_value(encode_utf8("Bearer "@ + key_of(key))),
    ensures
        resolved(key, port, cores, Ok(upstream), Ok(egress_v4), Ok(egress_v6)) == Ok::<
            ConfigView,
            ConfigErrorView,
        >(
            ConfigView {
                upstream,
                authorization: (encode_utf8("Bearer "@ + key_of(key)), true),
                max_retries: 1,
                max_body: 33_554_432,
                bind: seq![0u8, 0, 0, 0],
                port: port_of(port),
                egress_v4,
                egress_v6,
                worker_threads: workers_of(cores),
            },
        ),
{
}

/// There is no configuration exactly where the credential cannot stand in a header or an
/// endpoint cannot be read, and the first of these is what is reported.
pub proof fn law_bad_settings_are_reported(
    key: Option<Seq<char>>,
    port: Option<Seq<char>>,
    cores: Option<usize>,
    upstream: Result<EndpointView, Seq<char>>,
    egress_v4: Result<EndpointView, Seq<char>>,
    egress_v6: Result<EndpointView, Seq<char>>,
)
    ensures
        ({
            let sound = header::is_value(encode_utf8("Bearer "@ + key_of(key)));
            let res = resolved(key, port, cores, upstream, egress_v4, egress_v6);
            &&& (res is Ok) == (sound && upstream is Ok && egress_v4 is Ok && egress_v6 is Ok)
            &&& !sound ==> res == Err::<ConfigView, ConfigErrorView>(ConfigErrorView::Key)
            &&& sound && upstream is Err ==> res == Err::<ConfigView, ConfigErrorView>(
                ConfigErrorView::Uri(upstream->Err_0),
            )
            &&& sound && upstream is Ok && egress_v4 is Err ==> res == Err::<
                ConfigView,
                ConfigErrorView,
            >(ConfigErrorView::Uri(egress_v4->Err_0))
            &&& sound && upstream is Ok && egress_v4 is Ok && egress_v6 is Err ==> res == Err::<
                ConfigView,
                ConfigErrorView,
            >(ConfigErrorView::Uri(egress_v6->Err_0))
        }),
        ConfigErrorView::Key.words()
            == "the upstream key contains bytes that cannot go in a header"@,
{
}

/// An error about an endpoint is reported in its own words.
pub proof fn law_endpoint_errors_speak_for_themselves(cause: Seq<char>)
    ensures
        ConfigErrorView::Uri(cause).words() == cause,
{
}

/// An endpoint keeps the text that it was read from.
pub proof fn law_endpoints_keep_their_text(text: Seq<char>)
    ensures
        (endpoint_of(text) is Ok) == (header::uri_error(text) is None),
        endpoint_of(text) matches Ok(endpoint) ==> endpoint.text == text && endpoint.shown
            == header::uri_shown(text) && endpoint.host == header::uri_host(text),
        endpoint_of(text) matches Err(cause) ==> header::uri_error(text) == Some(cause),
{
}

/// A setting is taken as it was found.
pub proof fn law_settings_are_taken_as_found(raw: &str)
    ensures
        setting(Some(raw)) == Some(raw@),
        setting(None) is None,
{
}

/// A configuration and an endpoint are seen as they are.
pub proof fn law_configurations_are_seen_as_they_are(cfg: Config, endpoint: Endpoint, e: ConfigError)
    ensures
        cfg@.upstream == cfg.upstream@,
        cfg@.authorization == header::value_view(cfg.authorization),
        cfg@.max_retries == cfg.max_retries,
        cfg@.max_body == cfg.max_body,
        cfg@.bind == cfg.bind@,
        cfg@.port == cfg.port,
        cfg@.egress_v4 == cfg.egress_v4@,
        cfg@.egress_v6 == cfg.egress_v6@,
        cfg@.worker_threads == cfg.worker_threads,
        endpoint@.text == endpoint.text@,
        endpoint@.shown == endpoint.shown@,
        endpoint.host matches Some(host) ==> endpoint@.host == Some(host@),
        endpoint.host is None ==> endpoint@.host is None,
        outcome(Ok::<Config, ConfigError>(cfg)) == Ok::<ConfigView, ConfigErrorView>(cfg@),
        outcome(Err::<Config, ConfigError>(e)) == Err::<ConfigView, ConfigErrorView>(e@),
        reading(Ok::<Endpoint, String>(endpoint)) == Ok::<EndpointView, Seq<char>>(endpoint@),
{
}

} // verus!
