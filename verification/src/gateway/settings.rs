//! What the gateway is told on its command line, made usable.

use vstd::prelude::*;
use vstd::string::*;

use crate::clock::{Span, NANOS_PER_MILLI};
use crate::text;
use crate::text::{chars_of, decimal};

verus! {

/// Autonomous system of the receiver.
pub const SERVER_AS: &'static str = "2-ff00:0:212";

/// Port of the receiver.
pub const SERVER_PORT: u16 = 60000;

/// Default port of the endhost API on the gateway's side.
pub const GATEWAY_ENDHOST_API_PORT: u16 = 31000;

/// Unit id for a directly addressed Modbus TCP device.
pub const DEFAULT_MODBUS_UNIT: u8 = 1;

pub const DEFAULT_TIMEOUT_SECS: u64 = 5;

/// Default interval in milliseconds at which meter values are read.
pub const DEFAULT_METER_INTERVAL_MS: u64 = 200;

/// Default number of unacknowledged readings held before shedding the oldest.
pub const DEFAULT_QUEUE_CAPACITY: usize = 5000;

/// Default time in milliseconds to wait for a batch to be acknowledged.
pub const DEFAULT_SEND_TIMEOUT_MS: u64 = 5000;

/// TLS name the receiver's certificate is issued for.
pub const SERVER_NAME: &'static str = "pq-meter-server";

/// The settings the gateway runs with.
#[derive(Clone, Copy, Debug, PartialEq, Eq, Structural)]
pub struct GatewaySettings {
    pub meter_interval: Span,
    pub batch_size: usize,
    pub batch_timeout: Span,
    pub send_timeout: Span,
    /// The longest gap between recorded readings, or none to record only
    /// changes.
    pub heartbeat: Option<Span>,
    pub queue_capacity: usize,
}

/// A number that is at least one.
pub open spec fn at_least_one(number: nat) -> nat {
    if number >= 1 {
        number
    } else {
        1
    }
}

/// Milliseconds, at least one of them.
pub open spec fn some_millis(millis: u64) -> Span {
    Span { nanos: (at_least_one(millis as nat) * NANOS_PER_MILLI) as u128 }
}

fn usable_millis(millis: u64) -> (span: Span)
    ensures
        span == some_millis(millis),
{
    Span::from_millis(
        if millis >= 1 {
            millis
        } else {
            1
        },
    )
}

impl GatewaySettings {
    /// Makes raw settings usable: no interval, timeout or batch is empty, and
    /// the queue holds at least one batch.  A heartbeat of zero means none.
    pub fn from_arguments(
        meter_interval_ms: u64,
        batch_size: usize,
        batch_timeout_ms: u64,
        send_timeout_ms: u64,
        heartbeat_ms: u64,
        queue_capacity: usize,
    ) -> (settings: GatewaySettings)
        ensures
            settings.meter_interval == some_millis(meter_interval_ms),
            settings.batch_size == at_least_one(batch_size as nat),
            settings.batch_timeout == some_millis(batch_timeout_ms),
            settings.send_timeout == some_millis(send_timeout_ms),
            settings.heartbeat == if heartbeat_ms > 0 {
                Some(Span { nanos: (heartbeat_ms * NANOS_PER_MILLI) as u128 })
            } else {
                None
            },
            settings.queue_capacity == if queue_capacity >= settings.batch_size {
                queue_capacity
            } else {
                settings.batch_size
            },
    {
        let batch_size: usize = if batch_size >= 1 {
            batch_size
        } else {
            1
        };
        GatewaySettings {
            meter_interval: usable_millis(meter_interval_ms),
            batch_size,
            batch_timeout: usable_millis(batch_timeout_ms),
            send_timeout: usable_millis(send_timeout_ms),
            heartbeat: if heartbeat_ms > 0 {
                Some(Span::from_millis(heartbeat_ms))
            } else {
                None
            },
            queue_capacity: if queue_capacity >= batch_size {
                queue_capacity
            } else {
                batch_size
            },
        }
    }
}

/// The address of a host inside the receiver's autonomous system.
pub open spec fn address_in_server_as(ip: Seq<char>) -> Seq<char> {
    "["@ + SERVER_AS@ + ","@ + ip + "]:"@ + text::decimal_digits(SERVER_PORT as nat)
}

/// The receiver's address inside its autonomous system.
pub fn server_address(ip: &str) -> (address: String)
    ensures
        address@ == address_in_server_as(ip@),
{
    let mut address: String = "[".to_owned();
    address.append(SERVER_AS);
    address.append(",");
    address.append(ip);
    address.append("]:");
    address.append(decimal(SERVER_PORT as u64).as_str());
    address
}

/// Where the last colon of a text stands.
pub open spec fn last_colon(text: Seq<char>) -> Option<nat>
    decreases text.len(),
{
    if text.len() == 0 {
        None
    } else if text.last() == ':' {
        Some((text.len() - 1) as nat)
    } else {
        last_colon(text.drop_last())
    }
}

/// A character that takes a single byte.
pub open spec fn is_ascii(c: char) -> bool {
    c <= '\u{7f}'
}

/// The part of an address in front of its port can lose its first and its last
/// byte, or is turned away before that.
pub open spec fn is_bracketable(head: Seq<char>) -> bool {
    ||| head.len() >= 1 && head[0] != '[' && head.last() == ']'
    ||| head.len() >= 2 && is_ascii(head[0]) && is_ascii(head.last())
}

/// A text that can be tried as a SCION address: it has no port, or something in
/// front of the port to take out of its brackets.
pub open spec fn is_readable(address: Seq<char>) -> bool {
    match last_colon(address) {
        Some(at) => is_bracketable(address.take(at as int)),
        None => true,
    }
}

/// Whether a text can be tried as a SCION address.
pub fn can_be_read(address: &str) -> (readable: bool)
    ensures
        readable == is_readable(address@),
{
    let chars: Vec<char> = chars_of(address);
    let mut at: usize = chars.len();
    assert(address@.take(at as int) =~= address@);
    while at > 0 && chars[at - 1] != ':'
        invariant
            at <= chars.len(),
            chars@ == address@,
            last_colon(address@) == last_colon(address@.take(at as int)),
        decreases at,
    {
        assert(address@.take(at as int).drop_last() =~= address@.take(at - 1));
        at = at - 1;
    }
    if at == 0 {
        return true;
    }
    let length: usize = at - 1;
    let ghost head = address@.take(length as int);
    if length == 0 {
        return false;
    }
    assert(head[0] == chars[0] && head.last() == chars[length - 1]);
    let first: char = chars[0];
    let last: char = chars[length - 1];
    (first != '[' && last == ']') || (length >= 2 && first <= '\u{7f}' && last <= '\u{7f}')
}

/// What a SCION address holds next to its autonomous system: the host's IP
/// address and the port.  Of a text that is no such address, nothing.
pub uninterp spec fn scion_address(text: Seq<char>) -> Option<(Seq<char>, u16)>;

/// Parses a `ScionSocketIpAddr` with `str::parse` and takes its `ip`, written
/// out, and its `port`.  The result depends on the text alone.  The parser cuts
/// one byte off either end of what precedes the port without looking, so a text
/// has to leave it something to cut.
#[verifier::external_body]
fn read_scion_address(text: &str) -> (parts: Option<(String, u16)>)
    requires
        is_readable(text@),
    ensures
        match parts {
            Some((host, port)) => scion_address(text@) == Some((host@, port)),
            None => scion_address(text@) is None,
        },
{
    let parsed: Option<sciparse::address::ip_socket_addr::ScionSocketIpAddr> = text.parse().ok();
    parsed.map(|address| (address.ip().to_string(), address.port()))
}

/// The receiver, as the gateway reaches it.
#[derive(Debug, PartialEq, Eq)]
pub struct Receiver {
    /// Its SCION address.
    pub address: String,
    /// Its IP address.
    pub host: String,
    pub port: u16,
}

impl Receiver {
    /// The receiver is reached at this address, host and port.
    pub open spec fn is_at(&self, address: Seq<char>, host: Seq<char>, port: u16) -> bool {
        &&& self.address@ == address
        &&& self.host@ == host
        &&& self.port == port
    }
}

/// Why a receiver cannot be reached.
#[derive(Clone, Copy, Debug, PartialEq, Eq, Structural)]
pub enum ReceiverError {
    /// The IP address does not go into a SCION address.
    Host,
    /// Neither an IP address nor a SCION address was given.
    Address,
}

impl ReceiverError {
    /// What is said of the address that was given.
    pub open spec fn text(&self, given: Seq<char>) -> Seq<char> {
        match *self {
            ReceiverError::Host => "constructing SCION address from server IP"@,
            ReceiverError::Address =>
                "invalid server address: expected an IP address (e.g. 192.168.1.42) or SCION address, got '"@
                + given + "'"@,
        }
    }

    pub fn message(&self, given: &str) -> (message: String)
        ensures
            message@ == self.text(given@),
    {
        match *self {
            ReceiverError::Host => "constructing SCION address from server IP".to_owned(),
            ReceiverError::Address => {
                let mut message: String =
                    "invalid server address: expected an IP address (e.g. 192.168.1.42) or SCION address, got '".to_owned();
                message.append(given);
                message.append("'");
                message
            },
        }
    }
}

/// What is tried as the SCION address of the receiver: the address given, or one
/// made of the IP address it was read as.
pub open spec fn tried_address(given: Seq<char>, ip: Option<Seq<char>>) -> Seq<char> {
    match ip {
        Some(ip) => address_in_server_as(ip),
        None => given,
    }
}

/// An optional text as its characters.
pub open spec fn optional_text(text: Option<&str>) -> Option<Seq<char>> {
    match text {
        Some(text) => Some(text@),
        None => None,
    }
}

/// The receiver behind an address that was given; `ip` is the IP address that it
/// was read as, if any.
///
/// A plain IP address stands for the usual port in the usual autonomous system,
/// anything else has to be a SCION address.
pub fn resolve_server(given: &str, ip: Option<&str>) -> (receiver: Result<Receiver, ReceiverError>)
    requires
        ip is None ==> is_readable(given@),
    ensures
        match scion_address(tried_address(given@, optional_text(ip))) {
            Some((host, port)) => receiver matches Ok(receiver) && receiver.is_at(
                tried_address(given@, optional_text(ip)),
                match ip {
                    Some(ip) => ip@,
                    None => host,
                },
                port,
            ),
            None => receiver == Err::<Receiver, ReceiverError>(
                if ip is Some {
                    ReceiverError::Host
                } else {
                    ReceiverError::Address
                },
            ),
        },
{
    let address: String = match ip {
        Some(ip) => {
            proof {
                lemma_server_addresses_are_readable(ip@);
            }
            server_address(ip)
        },
        None => given.to_owned(),
    };
    let parts: Option<(String, u16)> = read_scion_address(address.as_str());
    found_server(address, parts, ip)
}

/// The receiver at an address with the host and the port that were read from it;
/// `ip` is the IP address that the address was made of, if any.
pub fn found_server(address: String, parts: Option<(String, u16)>, ip: Option<&str>) -> (receiver:
    Result<Receiver, ReceiverError>)
    ensures
        match parts {
            Some((host, port)) => receiver matches Ok(receiver) && receiver.is_at(
                address@,
                match ip {
                    Some(ip) => ip@,
                    None => host@,
                },
                port,
            ),
            None => receiver == Err::<Receiver, ReceiverError>(
                if ip is Some {
                    ReceiverError::Host
                } else {
                    ReceiverError::Address
                },
            ),
        },
{
    match parts {
        Some((host, port)) => {
            let host: String = match ip {
                Some(ip) => ip.to_owned(),
                None => host,
            };
            Ok(Receiver { address, host, port })
        },
        None => {
            if ip.is_some() {
                Err(ReceiverError::Host)
            } else {
                Err(ReceiverError::Address)
            }
        },
    }
}

proof fn lemma_last_colon(head: Seq<char>, tail: Seq<char>)
    requires
        forall|i: int| 0 <= i < tail.len() ==> #[trigger] tail[i] != ':',
    ensures
        last_colon(head.push(':') + tail) == Some(head.len()),
    decreases tail.len(),
{
    let whole = head.push(':') + tail;
    if tail.len() == 0 {
        assert(whole =~= head.push(':'));
    } else {
        assert(whole.drop_last() =~= head.push(':') + tail.drop_last());
        lemma_last_colon(head, tail.drop_last());
    }
}

/// An address made of an IP address can always be tried, whatever stands in for
/// the IP address.
pub proof fn lemma_server_addresses_are_readable(ip: Seq<char>)
    ensures
        is_readable(address_in_server_as(ip)),
{
    let head = "["@ + SERVER_AS@ + ","@ + ip + seq![']'];
    let port = text::decimal_digits(SERVER_PORT as nat);
    reveal_strlit("[");
    reveal_strlit(",");
    reveal_strlit("]:");
    reveal_with_fuel(text::decimal_digits, 6);
    assert(address_in_server_as(ip) =~= head.push(':') + port);
    lemma_last_colon(head, port);
    assert((head.push(':') + port).take(head.len() as int) =~= head);
}

/// The endhost API that goes with a receiver's address.
pub fn endhost_api_url(ip: &str) -> (url: String)
    ensures
        url@ == "http://"@ + ip@ + ":"@ + text::decimal_digits(GATEWAY_ENDHOST_API_PORT as nat)
            + "/"@,
{
    let mut url: String = "http://".to_owned();
    url.append(ip);
    url.append(":");
    url.append(decimal(GATEWAY_ENDHOST_API_PORT as u64).as_str());
    url.append("/");
    url
}

/// Where batches are posted.
pub fn batch_url(port: u16, path: &str) -> (url: String)
    ensures
        url@ == "https://"@ + SERVER_NAME@ + ":"@ + text::decimal_digits(port as nat) + path@,
{
    let mut url: String = "https://".to_owned();
    url.append(SERVER_NAME);
    url.append(":");
    url.append(decimal(port as u64).as_str());
    url.append(path);
    url
}

/// An interval of no milliseconds at all is one of a single millisecond; any
/// other is what it says.
pub proof fn lemma_intervals_are_never_empty(millis: u64)
    ensures
        some_millis(0).nanos == 1_000_000,
        millis > 0 ==> some_millis(millis).nanos == millis * 1_000_000,
        at_least_one(0) == 1,
        millis > 0 ==> at_least_one(millis as nat) == millis,
{
}

/// The last colon is a colon, and none comes behind it.
pub proof fn lemma_the_last_colon_is_the_last(text: Seq<char>)
    ensures
        match last_colon(text) {
            Some(at) => at < text.len() && text[at as int] == ':' && forall|i: int|
                at < i < text.len() ==> #[trigger] text[i] != ':',
            None => forall|i: int| 0 <= i < text.len() ==> #[trigger] text[i] != ':',
        },
    decreases text.len(),
{
    if text.len() > 0 {
        let fewer = text.drop_last();
        lemma_the_last_colon_is_the_last(fewer);
        assert(forall|i: int| 0 <= i < fewer.len() ==> fewer[i] == #[trigger] text[i]);
        assert(text[text.len() - 1] == text.last());
    }
}

/// A receiver is reached at its address, its host and its port.
pub proof fn lemma_where_a_receiver_is(
    receiver: Receiver,
    address: Seq<char>,
    host: Seq<char>,
    port: u16,
)
    requires
        receiver.is_at(address, host, port),
    ensures
        receiver.address@ == address,
        receiver.host@ == host,
        receiver.port == port,
{
}

/// A plain IP address is tried inside the receiver's autonomous system, anything
/// else as it was given.
pub proof fn lemma_what_is_tried(given: Seq<char>, ip: Seq<char>)
    ensures
        tried_address(given, None) == given,
        tried_address(given, Some(ip)) == "["@ + "2-ff00:0:212"@ + ","@ + ip + "]:"@
            + text::decimal_digits(60000),
        ReceiverError::Host.text(given) == "constructing SCION address from server IP"@,
        ReceiverError::Address.text(given)
            == "invalid server address: expected an IP address (e.g. 192.168.1.42) or SCION address, got '"@
            + given + "'"@,
{
}

/// What the gateway goes by unless it is told otherwise.
pub proof fn lemma_defaults()
    ensures
        DEFAULT_METER_INTERVAL_MS == 200,
        DEFAULT_QUEUE_CAPACITY == 5000,
        DEFAULT_SEND_TIMEOUT_MS == 5000,
        DEFAULT_TIMEOUT_SECS == 5,
        DEFAULT_MODBUS_UNIT == 1,
        GATEWAY_ENDHOST_API_PORT == 31000,
        SERVER_NAME@ == "pq-meter-server"@,
{
}

} // verus!
