//! Who this game instance is on the network (nothing, the host, or a
//! client), and how the connection window changes that.

use vstd::prelude::*;
use crate::decimal::{decimal_digits, parse_port, parse_u16, u16_to_decimal};

verus! {

/// Port a new host listens on.
pub const DEFAULT_PORT: u16 = 4867;

/// The network role chosen in the connection window.
pub enum CommunicationState {
    Offline,
    Server { port: u16 },
    Client { url: String },
}

/// The network role as plain values.
pub enum CommunicationStateView {
    Offline,
    Server { port: u16 },
    Client { url: Seq<char> },
}

impl View for CommunicationState {
    type V = CommunicationStateView;

    open spec fn view(&self) -> CommunicationStateView {
        match self {
            CommunicationState::Offline => CommunicationStateView::Offline,
            CommunicationState::Server { port } => CommunicationStateView::Server { port: *port },
            CommunicationState::Client { url } => CommunicationStateView::Client { url: url@ },
        }
    }
}

impl Default for CommunicationState {
    fn default() -> (r: Self)
        ensures
            r@ == CommunicationStateView::Offline,
    {
        CommunicationState::Offline
    }
}

/// The chosen role, and whether it has been started.
pub struct CommunicationResource {
    pub state: CommunicationState,
    pub running: bool,
}

impl Default for CommunicationResource {
    fn default() -> (r: Self)
        ensures
            r.state@ == CommunicationStateView::Offline,
            !r.running,
    {
        CommunicationResource { state: CommunicationState::Offline, running: false }
    }
}

/// Whether the host's network task is running.
#[derive(Clone, Copy, PartialEq, Eq, Structural, Debug, Hash)]
pub enum ServerState {
    Closed,
    Open,
}

/// Where the client's connection stands.
#[derive(Clone, Copy, PartialEq, Eq, Structural, Debug, Hash)]
pub enum ClientState {
    Closed,
    Connecting,
    Open,
}

/// Asks the host to stop.
pub struct CloseServerEvent;

/// A message waiting to be sent.
pub struct PendingMessage {
    pub value: String,
}

impl Default for PendingMessage {
    fn default() -> (r: Self)
        ensures
            r.value@ == Seq::<char>::empty(),
    {
        PendingMessage { value: String::new() }
    }
}

/// Messages received so far, each with the id of the client that sent it.
pub struct ReceivedMessages {
    pub messages: Vec<(usize, String)>,
}

impl Default for ReceivedMessages {
    fn default() -> (r: Self)
        ensures
            r.messages@.len() == 0,
    {
        ReceivedMessages { messages: Vec::new() }
    }
}

/// Asks for a message to be sent.
pub struct SendMessageEvent {
    pub value: String,
}

/// What the user did in the connection window.
pub enum ConnectionUiEvent {
    /// Clicked the "Server" choice.
    ToggleServer,
    /// Clicked the "Client" choice.
    ToggleClient,
    /// Edited the port field to this text.
    PortEdited(String),
    /// Edited the server address field to this text.
    UrlEdited(String),
    /// Clicked "Start Host".
    StartHost,
    /// Clicked "Start Client".
    StartClient,
}

/// What the window asks of the game after an event.
#[derive(Clone, Copy, PartialEq, Eq, Structural, Debug)]
pub enum ConnectionUiAction {
    Nothing,
    /// Push `ServerState::Open` onto the game's server state.
    OpenServer,
}

/// The address a new client is offered: `localhost:` and the default port.
pub open spec fn default_client_url() -> Seq<char> {
    "localhost:"@ + decimal_digits(DEFAULT_PORT as nat)
}

/// The role after a window event, when the role has not been started yet
/// (once started, the choices and fields are no longer shown).
pub open spec fn next_state(state: CommunicationStateView, running: bool, event: ConnectionUiEvent) -> CommunicationStateView {
    if running {
        state
    } else {
        match event {
            ConnectionUiEvent::ToggleServer => match state {
                CommunicationStateView::Server { .. } => CommunicationStateView::Offline,
                _ => CommunicationStateView::Server { port: DEFAULT_PORT },
            },
            ConnectionUiEvent::ToggleClient => match state {
                CommunicationStateView::Client { .. } => CommunicationStateView::Offline,
                _ => CommunicationStateView::Client { url: default_client_url() },
            },
            ConnectionUiEvent::PortEdited(text) => match state {
                CommunicationStateView::Server { .. } => match parse_u16(text@) {
                    Some(p) => CommunicationStateView::Server { port: p },
                    None => state,
                },
                _ => state,
            },
            ConnectionUiEvent::UrlEdited(text) => match state {
                CommunicationStateView::Client { .. } => CommunicationStateView::Client { url: text@ },
                _ => state,
            },
            _ => state,
        }
    }
}

/// Whether the role is started by a window event.
pub open spec fn next_running(state: CommunicationStateView, running: bool, event: ConnectionUiEvent) -> bool {
    running || match event {
        ConnectionUiEvent::StartHost => state is Server,
        ConnectionUiEvent::StartClient => state is Client,
        _ => false,
    }
}

/// The action a window event asks for.
pub open spec fn next_action(state: CommunicationStateView, running: bool, event: ConnectionUiEvent) -> ConnectionUiAction {
    if !running && event is StartHost && state is Server {
        ConnectionUiAction::OpenServer
    } else {
        ConnectionUiAction::Nothing
    }
}

/// Why a network task could not be set up.
#[derive(Clone, Copy, PartialEq, Eq, Structural, Debug)]
pub enum SetupError {
    /// The role has not been started.
    NotRunning,
    /// The chosen role is not the one being set up.
    WrongRole,
}

impl CommunicationResource {
    /// Applies one event of the connection window.
    pub fn apply_ui_event(&mut self, event: ConnectionUiEvent) -> (action: ConnectionUiAction)
        ensures
            final(self).state@ == next_state(old(self).state@, old(self).running, event),
            final(self).running == next_running(old(self).state@, old(self).running, event),
            action == next_action(old(self).state@, old(self).running, event),
            old(self).running ==> final(self).state@ == old(self).state@ && final(self).running
                && action == ConnectionUiAction::Nothing,
            !old(self).running && !(event is StartHost) && !(event is StartClient) ==> !final(self).running
                && action == ConnectionUiAction::Nothing,
            !old(self).running && event is ToggleServer ==> if old(self).state@ is Server {
                final(self).state@ is Offline
            } else {
                final(self).state@ == (CommunicationStateView::Server { port: 4867 })
            },
            !old(self).running && event is ToggleClient ==> if old(self).state@ is Client {
                final(self).state@ is Offline
            } else {
                final(self).state@ == (CommunicationStateView::Client { url: "localhost:4867"@ })
            },
            !old(self).running ==> (event matches ConnectionUiEvent::PortEdited(t) ==> if old(
                self,
            ).state@ is Server && parse_u16(t@) is Some {
                final(self).state@ == (CommunicationStateView::Server { port: parse_u16(t@).unwrap() })
            } else {
                final(self).state@ == old(self).state@
            }),
            !old(self).running ==> (event matches ConnectionUiEvent::UrlEdited(t) ==> if old(
                self,
            ).state@ is Client {
                final(self).state@ == (CommunicationStateView::Client { url: t@ })
            } else {
                final(self).state@ == old(self).state@
            }),
            !old(self).running && event is StartHost ==> final(self).state@ == old(self).state@ && (
            final(self).running <==> old(self).state@ is Server) && (action
                == ConnectionUiAction::OpenServer <==> old(self).state@ is Server),
            !old(self).running && event is StartClient ==> final(self).state@ == old(self).state@ && (
            final(self).running <==> old(self).state@ is Client) && action
                == ConnectionUiAction::Nothing,
    {
        proof {
            lemma_default_client_url();
        }
        if self.running {
            return ConnectionUiAction::Nothing;
        }
        match event {
            ConnectionUiEvent::ToggleServer => {
                let is_server = match &self.state {
                    CommunicationState::Server { .. } => true,
                    _ => false,
                };
                if is_server {
                    self.state = CommunicationState::Offline;
                } else {
                    self.state = CommunicationState::Server { port: DEFAULT_PORT };
                }
                ConnectionUiAction::Nothing
            },
            ConnectionUiEvent::ToggleClient => {
                let is_client = match &self.state {
                    CommunicationState::Client { .. } => true,
                    _ => false,
                };
                if is_client {
                    self.state = CommunicationState::Offline;
                } else {
                    let url = String::from_str("localhost:").concat(u16_to_decimal(DEFAULT_PORT).as_str());
                    self.state = CommunicationState::Client { url };
                }
                ConnectionUiAction::Nothing
            },
            ConnectionUiEvent::PortEdited(text) => {
                let is_server = match &self.state {
                    CommunicationState::Server { .. } => true,
                    _ => false,
                };
                if is_server {
                    match parse_port(text.as_str()) {
                        Some(port) => {
                            self.state = CommunicationState::Server { port };
                        },
                        None => {},
                    }
                }
                ConnectionUiAction::Nothing
            },
            ConnectionUiEvent::UrlEdited(text) => {
                let is_client = match &self.state {
                    CommunicationState::Client { .. } => true,
                    _ => false,
                };
                if is_client {
                    self.state = CommunicationState::Client { url: text };
                }
                ConnectionUiAction::Nothing
            },
            ConnectionUiEvent::StartHost => {
                let is_server = match &self.state {
                    CommunicationState::Server { .. } => true,
                    _ => false,
                };
                if is_server {
                    self.running = true;
                    ConnectionUiAction::OpenServer
                } else {
                    ConnectionUiAction::Nothing
                }
            },
            ConnectionUiEvent::StartClient => {
                let is_client = match &self.state {
                    CommunicationState::Client { .. } => true,
                    _ => false,
                };
                if is_client {
                    self.running = true;
                }
                ConnectionUiAction::Nothing
            },
        }
    }

    /// The line naming the role: "Is Client", "Is Server", or "Isn't
    /// involved in the network".
    pub fn role_label(&self) -> (r: &'static str)
        ensures
            self.state@ is Client ==> r@ == "Is Client"@,
            self.state@ is Server ==> r@ == "Is Server"@,
            self.state@ is Offline ==> r@ == "Isn't involved in the network"@,
    {
        match &self.state {
            CommunicationState::Client { .. } => "Is Client",
            CommunicationState::Server { .. } => "Is Server",
            CommunicationState::Offline => "Isn't involved in the network",
        }
    }

    /// The line shown once a role is running: the host's port, or the
    /// address of the server a client connects to.
    pub fn running_label(&self) -> (r: Option<String>)
        ensures
            r is Some <==> self.running && !(self.state@ is Offline),
            r matches Some(text) ==> match self.state@ {
                CommunicationStateView::Server { port } => text@ == "Host Running on Port "@
                    + decimal_digits(port as nat),
                CommunicationStateView::Client { url } => text@ == "Connected to server at "@ + url,
                CommunicationStateView::Offline => false,
            },
    {
        if !self.running {
            return None;
        }
        match &self.state {
            CommunicationState::Server { port } => Some(
                String::from_str("Host Running on Port ").concat(u16_to_decimal(*port).as_str()),
            ),
            CommunicationState::Client { url } => Some(
                String::from_str("Connected to server at ").concat(url.as_str()),
            ),
            CommunicationState::Offline => None,
        }
    }

    /// The address the host binds: every interface, on the chosen port.
    pub fn server_address(&self) -> (r: Result<String, SetupError>)
        ensures
            !self.running ==> r == Err::<String, SetupError>(SetupError::NotRunning),
            self.running && !(self.state@ is Server) ==> r == Err::<String, SetupError>(
                SetupError::WrongRole,
            ),
            r matches Ok(addr) ==> self.running && match self.state@ {
                CommunicationStateView::Server { port } => addr@ == "0.0.0.0:"@ + decimal_digits(
                    port as nat,
                ),
                _ => false,
            },
            self.running && self.state@ is Server ==> r is Ok,
    {
        if !self.running {
            return Err(SetupError::NotRunning);
        }
        match &self.state {
            CommunicationState::Server { port } => Ok(
                String::from_str("0.0.0.0:").concat(u16_to_decimal(*port).as_str()),
            ),
            _ => Err(SetupError::WrongRole),
        }
    }

    /// The address a client connects to.
    pub fn client_address(&self) -> (r: Result<String, SetupError>)
        ensures
            !self.running ==> r == Err::<String, SetupError>(SetupError::NotRunning),
            self.running && !(self.state@ is Client) ==> r == Err::<String, SetupError>(
                SetupError::WrongRole,
            ),
            r matches Ok(addr) ==> self.running && self.state@ == (CommunicationStateView::Client {
                url: addr@,
            }),
            self.running && self.state@ is Client ==> r is Ok,
    {
        if !self.running {
            return Err(SetupError::NotRunning);
        }
        match &self.state {
            CommunicationState::Client { url } => Ok(url.clone()),
            _ => Err(SetupError::WrongRole),
        }
    }
}

proof fn lemma_default_client_url()
    ensures
        default_client_url() == "localhost:4867"@,
{
    reveal_strlit("localhost:");
    reveal_strlit("localhost:4867");
    reveal_with_fuel(decimal_digits, 5);
    assert(default_client_url() =~= "localhost:4867"@);
}

/// Clicking "Server" before anything is started switches the role to a
/// server on the default port from any other role, and back to nothing
/// from a server; clicking "Client" does the same for a client offered
/// `localhost:4867`. Once started, neither click changes anything.
pub proof fn lemma_toggles_switch_role(state: CommunicationStateView, running: bool)
    ensures
        running ==> next_state(state, running, ConnectionUiEvent::ToggleServer) == state,
        running ==> next_state(state, running, ConnectionUiEvent::ToggleClient) == state,
        !running ==> (next_state(state, running, ConnectionUiEvent::ToggleServer) is Server
            <==> !(state is Server)),
        !running && !(state is Server) ==> next_state(state, running, ConnectionUiEvent::ToggleServer)
            == (CommunicationStateView::Server { port: 4867 }),
        !running && state is Server ==> next_state(state, running, ConnectionUiEvent::ToggleServer) is Offline,
        !running ==> (next_state(state, running, ConnectionUiEvent::ToggleClient) is Client
            <==> !(state is Client)),
        !running && !(state is Client) ==> next_state(state, running, ConnectionUiEvent::ToggleClient)
            == (CommunicationStateView::Client { url: "localhost:4867"@ }),
        !running && state is Client ==> next_state(state, running, ConnectionUiEvent::ToggleClient) is Offline,
{
    lemma_default_client_url();
}

} // verus!
