//! The decisions of the network links: the host's link to each client,
//! the client's link to the host, and how messages are framed as JSON.

use vstd::prelude::*;

verus! {

#[verifier::external_type_specification]
#[verifier::external_body]
pub struct ExUrl(url::Url);

#[verifier::external_type_specification]
#[verifier::external_body]
pub struct ExUrlParseError(url::ParseError);

/// Asks a running host to stop.
#[derive(Clone, Copy, PartialEq, Eq, Structural, Debug)]
pub enum ServerControl {
    CloseServer,
}

/// Why a host could not be made or run.
#[derive(Debug)]
pub enum ServerError {
    Generic(String),
    InvalidAddress,
    BindingError,
}

/// Asks a running client to disconnect.
#[derive(Clone, Copy, PartialEq, Eq, Structural, Debug)]
pub enum ClientControl {
    Disconnect,
}

/// Why a client could not be made or connected.
#[derive(Debug)]
pub enum ClientError {
    Generic(String),
    InvalidAddress,
    FailedToConnect,
}

/// Whether `url::Url::parse` accepts the text as an absolute URL.
pub uninterp spec fn url_parses(input: Seq<char>) -> bool;

/// The URL `url::Url::parse` makes of the text, where it accepts it.
pub uninterp spec fn parsed_url(input: Seq<char>) -> url::Url;

/// `url::Url::parse`: parses an absolute URL. Which texts it accepts is
/// given the name `url_parses`, and the URL it makes of an accepted text
/// the name `parsed_url`; parsing depends on the text alone. The `Url` is
/// opaque here, so nothing more is stated of its contents.
#[verifier::external_body]
fn parse_url(input: &str) -> (r: Result<url::Url, url::ParseError>)
    ensures
        r is Ok <==> url_parses(input@),
        r matches Ok(u) ==> u == parsed_url(input@),
{
    url::Url::parse(input)
}

/// The client's address check: a parse failure becomes `InvalidAddress`.
pub fn client_url_result(parsed: Result<url::Url, url::ParseError>) -> (r: Result<
    url::Url,
    ClientError,
>)
    ensures
        r is Ok <==> parsed is Ok,
        parsed matches Ok(u) ==> r == Ok::<url::Url, ClientError>(u),
        r matches Err(e) ==> e is InvalidAddress,
{
    match parsed {
        Ok(u) => Ok(u),
        Err(_) => Err(ClientError::InvalidAddress),
    }
}

/// Checks the address a client is made with: it must parse as an absolute
/// URL, giving the URL the client connects to, or the client is refused
/// with `InvalidAddress`.
pub fn parse_client_url(url: &str) -> (r: Result<url::Url, ClientError>)
    ensures
        r is Ok <==> url_parses(url@),
        r matches Ok(u) ==> u == parsed_url(url@),
        r matches Err(e) ==> e is InvalidAddress,
{
    client_url_result(parse_url(url))
}

/// The string a JSON text decodes to, if it is a JSON string.
pub uninterp spec fn json_string_value(text: Seq<char>) -> Option<Seq<char>>;

/// The (client id, string) pair a JSON text decodes to, if it is one.
pub uninterp spec fn json_tagged_value(text: Seq<char>) -> Option<(usize, Seq<char>)>;

/// The JSON text of a string.
pub uninterp spec fn json_string_text(value: Seq<char>) -> Option<Seq<char>>;

/// The JSON text of a (client id, string) pair.
pub uninterp spec fn json_tagged_text(id: usize, value: Seq<char>) -> Option<Seq<char>>;

/// `serde_json::from_str::<String>`: decodes a JSON string. Its result,
/// by the text alone, is named `json_string_value`.
#[verifier::external_body]
fn decode_json_string(text: &str) -> (r: Option<String>)
    ensures
        match r {
            Some(v) => json_string_value(text@) == Some(v@),
            None => json_string_value(text@) is None,
        },
{
    serde_json::from_str::<String>(text).ok()
}

/// `serde_json::from_str::<(usize, String)>`: decodes a tagged message.
/// Its result, by the text alone, is named `json_tagged_value`.
#[verifier::external_body]
fn decode_json_tagged(text: &str) -> (r: Option<(usize, String)>)
    ensures
        match r {
            Some((id, v)) => json_tagged_value(text@) == Some((id, v@)),
            None => json_tagged_value(text@) is None,
        },
{
    serde_json::from_str::<(usize, String)>(text).ok()
}

/// `serde_json::to_string` of a `String`. Its result, by the value alone,
/// is named `json_string_text`. It always succeeds: `to_string` fails only
/// when a `Serialize` impl fails or a map has non-string keys, and a
/// string written to a `Vec` does neither.
#[verifier::external_body]
fn encode_json_string(value: &String) -> (r: Option<String>)
    ensures
        r is Some,
        match r {
            Some(t) => json_string_text(value@) == Some(t@),
            None => json_string_text(value@) is None,
        },
{
    serde_json::to_string(value).ok()
}

/// `serde_json::to_string` of a `(usize, String)` pair. Its result, by the
/// pair alone, is named `json_tagged_text`. It always succeeds, for the
/// same reason as `encode_json_string`: a number and a string in a tuple
/// hold no map and no failing `Serialize` impl.
#[verifier::external_body]
fn encode_json_tagged(id: usize, value: &String) -> (r: Option<String>)
    ensures
        r is Some,
        match r {
            Some(t) => json_tagged_text(id, value@) == Some(t@),
            None => json_tagged_text(id, value@) is None,
        },
{
    serde_json::to_string(&(id, value)).ok()
}

/// What came in over a WebSocket.
pub enum SocketEvent {
    /// A text message.
    Text(String),
    /// A message of another kind (binary, ping, ...).
    Other,
    /// Reading failed.
    ReadError,
    /// The stream ended.
    Ended,
}

/// What the host's link to one client hears.
pub enum HostLinkEvent {
    FromClient(SocketEvent),
    /// The game's channel gave this (`None`: nothing came).
    FromGame(Option<(usize, String)>),
    /// Sending to the client failed.
    SendFailed,
}

/// What a link does next.
pub enum LinkAction {
    /// Hand this (client id, message) to the game.
    ForwardToGame(usize, String),
    /// Send this text over the WebSocket.
    Send(String),
    /// Go on listening.
    Keep,
    /// End the link.
    Close,
}

pub open spec fn is_forward(a: LinkAction, id: usize, v: Seq<char>) -> bool {
    a matches LinkAction::ForwardToGame(i, m) && i == id && m@ == v
}

pub open spec fn is_send(a: LinkAction, t: Seq<char>) -> bool {
    a matches LinkAction::Send(m) && m@ == t
}

/// A decoded client message goes to the game tagged with the client's id;
/// a text that did not decode is dropped.
pub fn forward_decoded(id: usize, decoded: Option<String>) -> (a: LinkAction)
    ensures
        match decoded {
            Some(v) => is_forward(a, id, v@),
            None => a is Keep,
        },
{
    match decoded {
        Some(v) => LinkAction::ForwardToGame(id, v),
        None => LinkAction::Keep,
    }
}

/// An encoded game message is sent; one that did not encode is dropped.
pub fn send_encoded(encoded: Option<String>) -> (a: LinkAction)
    ensures
        match encoded {
            Some(t) => is_send(a, t@),
            None => a is Keep,
        },
{
    match encoded {
        Some(t) => LinkAction::Send(t),
        None => LinkAction::Keep,
    }
}

/// One step of the host's link to client `id`: client texts are JSON
/// strings handed to the game tagged with `id`; game messages (id and text)
/// go out as JSON; the link ends when the stream ends or a send fails.
pub fn host_link_step(id: usize, event: HostLinkEvent) -> (a: LinkAction)
    ensures
        match event {
            HostLinkEvent::FromClient(SocketEvent::Text(t)) => match json_string_value(t@) {
                Some(v) => is_forward(a, id, v),
                None => a is Keep,
            },
            HostLinkEvent::FromClient(SocketEvent::Ended) => a is Close,
            HostLinkEvent::FromClient(_) => a is Keep,
            HostLinkEvent::FromGame(Some((gid, m))) => match json_tagged_text(gid, m@) {
                Some(t) => is_send(a, t),
                None => a is Keep,
            },
            HostLinkEvent::FromGame(None) => a is Keep,
            HostLinkEvent::SendFailed => a is Close,
        },
        event matches HostLinkEvent::FromGame(Some(_)) ==> a is Send,
{
    match event {
        HostLinkEvent::FromClient(SocketEvent::Text(t)) => forward_decoded(id, decode_json_string(t.as_str())),
        HostLinkEvent::FromClient(SocketEvent::Ended) => LinkAction::Close,
        HostLinkEvent::FromClient(_) => LinkAction::Keep,
        HostLinkEvent::FromGame(Some((gid, m))) => send_encoded(encode_json_tagged(gid, &m)),
        HostLinkEvent::FromGame(None) => LinkAction::Keep,
        HostLinkEvent::SendFailed => LinkAction::Close,
    }
}

/// What the client's link to the host hears.
pub enum ClientLinkEvent {
    FromServer(SocketEvent),
    /// The game asked for this to be sent (`None`: nothing came).
    FromGame(Option<String>),
    /// The game asked to disconnect.
    Disconnect,
}

/// A decoded host message goes to the game with the id it carries; a text
/// that did not decode is dropped.
pub fn forward_tagged(decoded: Option<(usize, String)>) -> (a: LinkAction)
    ensures
        match decoded {
            Some((i, v)) => is_forward(a, i, v@),
            None => a is Keep,
        },
{
    match decoded {
        Some((i, v)) => LinkAction::ForwardToGame(i, v),
        None => LinkAction::Keep,
    }
}

/// One step of the client's link: host texts are JSON (id, string) pairs
/// handed to the game; game messages go out as JSON strings; the link ends
/// when the stream ends or the game disconnects.
pub fn client_link_step(event: ClientLinkEvent) -> (a: LinkAction)
    ensures
        match event {
            ClientLinkEvent::FromServer(SocketEvent::Text(t)) => match json_tagged_value(t@) {
                Some((i, v)) => is_forward(a, i, v),
                None => a is Keep,
            },
            ClientLinkEvent::FromServer(SocketEvent::Ended) => a is Close,
            ClientLinkEvent::FromServer(_) => a is Keep,
            ClientLinkEvent::FromGame(Some(m)) => match json_string_text(m@) {
                Some(t) => is_send(a, t),
                None => a is Keep,
            },
            ClientLinkEvent::FromGame(None) => a is Keep,
            ClientLinkEvent::Disconnect => a is Close,
        },
        event matches ClientLinkEvent::FromGame(Some(_)) ==> a is Send,
{
    match event {
        ClientLinkEvent::FromServer(SocketEvent::Text(t)) => forward_tagged(decode_json_tagged(t.as_str())),
        ClientLinkEvent::FromServer(SocketEvent::Ended) => LinkAction::Close,
        ClientLinkEvent::FromServer(_) => LinkAction::Keep,
        ClientLinkEvent::FromGame(Some(m)) => send_encoded(encode_json_string(&m)),
        ClientLinkEvent::FromGame(None) => LinkAction::Keep,
        ClientLinkEvent::Disconnect => LinkAction::Close,
    }
}

/// What the in-game host's link to one client hears.
pub enum RelayEvent {
    /// A text or binary message, as text.
    ClientData(String),
    /// A message of another kind.
    ClientOther,
    /// Reading failed.
    ReadError,
    /// The stream ended.
    Ended,
    /// The game asked for this to be sent.
    FromGame(String),
    /// Sending to the client failed.
    SendFailed,
}

/// What the in-game host's link does next.
pub enum RelayAction {
    /// Hand this text to the game.
    Forward(String),
    /// Send this text to the client.
    Send(String),
    /// End the link.
    Close,
    /// End the link with the read error.
    Fail,
}

/// One step of the in-game host's link: client data goes to the game as
/// is, game text goes to the client; any other message, the end of the
/// stream or a failed send ends the link, and a read error ends it with
/// that error.
pub fn relay_step(event: RelayEvent) -> (a: RelayAction)
    ensures
        match event {
            RelayEvent::ClientData(m) => a matches RelayAction::Forward(f) && f@ == m@,
            RelayEvent::FromGame(m) => a matches RelayAction::Send(f) && f@ == m@,
            RelayEvent::ReadError => a is Fail,
            _ => a is Close,
        },
{
    match event {
        RelayEvent::ClientData(m) => RelayAction::Forward(m),
        RelayEvent::FromGame(m) => RelayAction::Send(m),
        RelayEvent::ReadError => RelayAction::Fail,
        RelayEvent::ClientOther => RelayAction::Close,
        RelayEvent::Ended => RelayAction::Close,
        RelayEvent::SendFailed => RelayAction::Close,
    }
}

/// What the in-game client's link to the host hears.
pub enum GameClientEvent {
    /// A text or binary message from the host, as text.
    ServerData(String),
    /// A message of another kind.
    ServerOther,
    /// Reading failed.
    ReadError,
    /// The stream ended.
    Ended,
    /// The game asked for this to be sent.
    FromGame(String),
    /// Sending to the host failed.
    SendFailed,
}

/// What the in-game client's link does next.
pub enum GameClientAction {
    /// Hand this text to the game.
    Forward(String),
    /// Send this text to the host.
    Send(String),
    /// Go on listening.
    Keep,
    /// End the link.
    Close,
    /// End the link with the error that came.
    Fail,
}

/// One step of the in-game client's link: host data goes to the game as
/// is and game text goes to the host; other messages are ignored; the end
/// of the stream ends the link, and a read error or a failed send ends it
/// with that error.
pub fn game_client_step(event: GameClientEvent) -> (a: GameClientAction)
    ensures
        match event {
            GameClientEvent::ServerData(m) => a matches GameClientAction::Forward(f) && f@ == m@,
            GameClientEvent::FromGame(m) => a matches GameClientAction::Send(f) && f@ == m@,
            GameClientEvent::ServerOther => a is Keep,
            GameClientEvent::Ended => a is Close,
            GameClientEvent::ReadError => a is Fail,
            GameClientEvent::SendFailed => a is Fail,
        },
{
    match event {
        GameClientEvent::ServerData(m) => GameClientAction::Forward(m),
        GameClientEvent::FromGame(m) => GameClientAction::Send(m),
        GameClientEvent::ServerOther => GameClientAction::Keep,
        GameClientEvent::Ended => GameClientAction::Close,
        GameClientEvent::ReadError => GameClientAction::Fail,
        GameClientEvent::SendFailed => GameClientAction::Fail,
    }
}

/// The clients a message from `sender` is passed on to: every other client,
/// in the order given.
pub fn broadcast_targets(client_ids: &Vec<usize>, sender: usize) -> (r: Vec<usize>)
    ensures
        r@ == client_ids@.filter(|i: usize| i != sender),
{
    let mut r: Vec<usize> = Vec::new();
    let mut k: usize = 0;
    while k < client_ids.len()
        invariant
            k <= client_ids.len(),
            r@ == client_ids@.take(k as int).filter(|i: usize| i != sender),
        decreases client_ids.len() - k,
    {
        proof {
            let t = client_ids@.take(k + 1);
            assert(t.drop_last() =~= client_ids@.take(k as int));
            reveal_with_fuel(Seq::filter, 1);
        }
        if client_ids[k] != sender {
            r.push(client_ids[k]);
        }
        k = k + 1;
    }
    proof {
        assert(client_ids@.take(k as int) =~= client_ids@);
    }
    r
}

} // verus!
