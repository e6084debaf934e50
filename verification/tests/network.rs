use vtt::communication::{
    CommunicationResource, CommunicationState, ConnectionUiAction, ConnectionUiEvent, SetupError,
};
use vtt::connection::{
    broadcast_targets, client_link_step, game_client_step, host_link_step, parse_client_url,
    relay_step, GameClientAction, GameClientEvent,
    ClientError, ClientLinkEvent, HostLinkEvent, LinkAction, RelayAction, RelayEvent,
    SocketEvent,
};
use vtt::decimal::parse_port;

fn port_of(c: &CommunicationResource) -> Option<u16> {
    match c.state {
        CommunicationState::Server { port } => Some(port),
        _ => None,
    }
}

#[test]
fn toggling_server_picks_default_port_and_back() {
    let mut c = CommunicationResource::default();
    assert_eq!(c.apply_ui_event(ConnectionUiEvent::ToggleServer), ConnectionUiAction::Nothing);
    assert_eq!(port_of(&c), Some(4867));
    c.apply_ui_event(ConnectionUiEvent::ToggleServer);
    assert!(matches!(c.state, CommunicationState::Offline));
}

#[test]
fn toggling_client_offers_localhost() {
    let mut c = CommunicationResource::default();
    c.apply_ui_event(ConnectionUiEvent::ToggleClient);
    match &c.state {
        CommunicationState::Client { url } => assert_eq!(url, "localhost:4867"),
        _ => panic!("not a client"),
    }
    assert_eq!(c.role_label(), "Is Client");
}

#[test]
fn port_edits_that_do_not_parse_are_ignored() {
    let mut c = CommunicationResource::default();
    c.apply_ui_event(ConnectionUiEvent::ToggleServer);
    c.apply_ui_event(ConnectionUiEvent::PortEdited("80a".to_string()));
    assert_eq!(port_of(&c), Some(4867));
    c.apply_ui_event(ConnectionUiEvent::PortEdited("+8080".to_string()));
    assert_eq!(port_of(&c), Some(8080));
    c.apply_ui_event(ConnectionUiEvent::PortEdited("70000".to_string()));
    assert_eq!(port_of(&c), Some(8080));
}

#[test]
fn starting_host_opens_server_and_freezes_choices() {
    let mut c = CommunicationResource::default();
    assert_eq!(c.server_address(), Err(SetupError::NotRunning));
    c.apply_ui_event(ConnectionUiEvent::ToggleServer);
    assert_eq!(c.apply_ui_event(ConnectionUiEvent::StartHost), ConnectionUiAction::OpenServer);
    assert!(c.running);
    assert_eq!(c.apply_ui_event(ConnectionUiEvent::ToggleServer), ConnectionUiAction::Nothing);
    assert_eq!(port_of(&c), Some(4867));
    assert_eq!(c.server_address(), Ok("0.0.0.0:4867".to_string()));
    assert_eq!(c.client_address(), Err(SetupError::WrongRole));
    assert_eq!(c.running_label(), Some("Host Running on Port 4867".to_string()));
}

#[test]
fn starting_client_keeps_edited_address() {
    let mut c = CommunicationResource::default();
    assert_eq!(c.role_label(), "Isn't involved in the network");
    c.apply_ui_event(ConnectionUiEvent::ToggleClient);
    c.apply_ui_event(ConnectionUiEvent::UrlEdited("ws://example.org:1".to_string()));
    assert_eq!(c.running_label(), None);
    c.apply_ui_event(ConnectionUiEvent::StartClient);
    assert_eq!(c.client_address(), Ok("ws://example.org:1".to_string()));
    assert_eq!(c.running_label(), Some("Connected to server at ws://example.org:1".to_string()));
}

#[test]
fn ports_parse_like_u16() {
    assert_eq!(parse_port("0"), Some(0));
    assert_eq!(parse_port("065535"), Some(65535));
    assert_eq!(parse_port("65536"), None);
    assert_eq!(parse_port(""), None);
    assert_eq!(parse_port("+"), None);
    assert_eq!(parse_port("-1"), None);
    assert_eq!(parse_port(" 1"), None);
}

#[test]
fn client_urls_must_be_absolute() {
    assert!(parse_client_url("ws://localhost:4867").is_ok());
    assert!(matches!(parse_client_url("localhost 4867"), Err(ClientError::InvalidAddress)));
}

#[test]
fn host_link_decodes_client_json_and_encodes_game_messages() {
    match host_link_step(7, HostLinkEvent::FromClient(SocketEvent::Text("\"hi\"".to_string()))) {
        LinkAction::ForwardToGame(id, m) => {
            assert_eq!(id, 7);
            assert_eq!(m, "hi");
        }
        _ => panic!("expected a forward"),
    }
    assert!(matches!(
        host_link_step(7, HostLinkEvent::FromClient(SocketEvent::Text("hi".to_string()))),
        LinkAction::Keep
    ));
    match host_link_step(7, HostLinkEvent::FromGame(Some((3, "yo".to_string())))) {
        LinkAction::Send(t) => assert_eq!(t, "[3,\"yo\"]"),
        _ => panic!("expected a send"),
    }
    assert!(matches!(host_link_step(7, HostLinkEvent::FromClient(SocketEvent::Ended)), LinkAction::Close));
    assert!(matches!(host_link_step(7, HostLinkEvent::SendFailed), LinkAction::Close));
    assert!(matches!(host_link_step(7, HostLinkEvent::FromClient(SocketEvent::Other)), LinkAction::Keep));
}

#[test]
fn client_link_decodes_tagged_json_and_encodes_strings() {
    match client_link_step(ClientLinkEvent::FromServer(SocketEvent::Text("[2,\"a\"]".to_string()))) {
        LinkAction::ForwardToGame(id, m) => {
            assert_eq!(id, 2);
            assert_eq!(m, "a");
        }
        _ => panic!("expected a forward"),
    }
    match client_link_step(ClientLinkEvent::FromGame(Some("b".to_string()))) {
        LinkAction::Send(t) => assert_eq!(t, "\"b\""),
        _ => panic!("expected a send"),
    }
    assert!(matches!(client_link_step(ClientLinkEvent::Disconnect), LinkAction::Close));
    assert!(matches!(client_link_step(ClientLinkEvent::FromServer(SocketEvent::ReadError)), LinkAction::Keep));
}

#[test]
fn relay_passes_text_both_ways() {
    assert!(matches!(relay_step(RelayEvent::ClientData("x".to_string())), RelayAction::Forward(m) if m == "x"));
    assert!(matches!(relay_step(RelayEvent::FromGame("y".to_string())), RelayAction::Send(m) if m == "y"));
    assert!(matches!(relay_step(RelayEvent::ReadError), RelayAction::Fail));
    assert!(matches!(relay_step(RelayEvent::ClientOther), RelayAction::Close));
}

#[test]
fn broadcast_skips_the_sender() {
    assert_eq!(broadcast_targets(&vec![1, 2, 3, 2], 2), vec![1, 3]);
}

#[test]
fn host_address_spells_every_port_in_decimal() {
    for (text, port) in [("0", "0"), ("7", "7"), ("10", "10"), ("65535", "65535"), ("+0900", "900")] {
        let mut c = CommunicationResource::default();
        c.apply_ui_event(ConnectionUiEvent::ToggleServer);
        c.apply_ui_event(ConnectionUiEvent::PortEdited(text.to_string()));
        c.apply_ui_event(ConnectionUiEvent::StartHost);
        assert_eq!(c.server_address(), Ok(format!("0.0.0.0:{}", port)));
        assert_eq!(c.running_label(), Some(format!("Host Running on Port {}", port)));
    }
}

#[test]
fn game_client_passes_data_ignores_other_frames_and_fails_on_errors() {
    match game_client_step(GameClientEvent::ServerData("hi".to_string())) {
        GameClientAction::Forward(m) => assert_eq!(m, "hi"),
        _ => panic!("host data should reach the game"),
    }
    match game_client_step(GameClientEvent::FromGame("yo".to_string())) {
        GameClientAction::Send(m) => assert_eq!(m, "yo"),
        _ => panic!("game text should go to the host"),
    }
    assert!(matches!(game_client_step(GameClientEvent::ServerOther), GameClientAction::Keep));
    assert!(matches!(game_client_step(GameClientEvent::Ended), GameClientAction::Close));
    assert!(matches!(game_client_step(GameClientEvent::ReadError), GameClientAction::Fail));
    assert!(matches!(game_client_step(GameClientEvent::SendFailed), GameClientAction::Fail));
}

#[test]
fn client_url_is_the_address_given() {
    let u = parse_client_url("ws://example.com:4000/table").unwrap();
    assert_eq!(u.as_str(), "ws://example.com:4000/table");
    assert_eq!(u.port(), Some(4000));
    assert_eq!(u, url::Url::parse("ws://example.com:4000/table").unwrap());
}
