use minx::config::ParamMap;
use minx::services::http::{
    ChatOp, CloseReason, HeartbeatAction, Http, SessionAction, WsChatServer, WsChatSession, WsEvent,
    CLIENT_TIMEOUT_NANOS, DEFAULT_PORT,
};
use minx::services::ServiceModule;

fn port_params(text: &str) -> ParamMap {
    let mut m = ParamMap::new();
    m.insert("port".to_string(), text.to_string());
    m
}

#[test]
fn http_port_parses_or_defaults() {
    let h: Http<u32> = Http::new(&port_params("8080"));
    assert_eq!(h.listen_port(), 8080);
    let h: Http<u32> = Http::new(&port_params("not a port"));
    assert_eq!(h.listen_port(), DEFAULT_PORT);
    assert_eq!(DEFAULT_PORT, 80);
    let h: Http<u32> = Http::new(&port_params("99999999999"));
    assert_eq!(h.listen_port(), 80);
    let h: Http<u32> = Http::new(&port_params("-1"));
    assert_eq!(h.listen_port(), -1);
}

#[test]
fn http_bind_address() {
    let h: Http<u32> = Http::new(&port_params("8080"));
    assert_eq!(h.bind_address(), "0.0.0.0:8080");
    let h: Http<u32> = Http::new(&port_params("x"));
    assert_eq!(h.bind_address(), "0.0.0.0:80");
    assert_eq!(h.get_name(), "http");
}

#[test]
fn http_port_text_round_trip() {
    for p in [1i32, 80, 443, 65535, i32::MAX, i32::MIN] {
        let h: Http<u32> = Http::new(&port_params(&p.to_string()));
        assert_eq!(h.listen_port(), p);
        assert_eq!(h.bind_address(), format!("0.0.0.0:{}", p));
    }
}

#[test]
fn chat_server_hands_out_fresh_ids() {
    let mut s: WsChatServer<&str> = WsChatServer::new();
    assert_eq!(s.connect("a"), 0);
    assert_eq!(s.connect("b"), 1);
    assert_eq!(s.connect("c"), 2);
    assert_eq!(s.recipient(1), Some(&"b"));
    s.disconnect(1);
    assert_eq!(s.recipient(1), None);
    assert_eq!(s.recipient(0), Some(&"a"));
    assert_eq!(s.recipient(2), Some(&"c"));
    assert_eq!(s.connect("d"), 3);
    assert_eq!(s.recipient(3), Some(&"d"));
    s.disconnect(42);
    assert_eq!(s.recipient(42), None);
    assert_eq!(s.recipient(0), Some(&"a"));
}

#[test]
fn session_reacts_to_frames() {
    let mut s = WsChatSession::new(100);
    assert!(s.on_connected(Some(7)));
    assert_eq!(s.session_id(), 7);

    assert!(matches!(s.handle(WsEvent::Ping(vec![1, 2]), 200), SessionAction::Pong(b) if b == vec![1, 2]));
    assert!(matches!(s.handle(WsEvent::Pong(vec![]), 210), SessionAction::Ignore));
    match s.handle(WsEvent::Text("hi".to_string()), 220) {
        SessionAction::ForwardText(m) => {
            assert_eq!(m.id, 7);
            assert_eq!(m.msg, "hi");
        }
        _ => panic!("text not forwarded"),
    }
    match s.handle(WsEvent::Binary(vec![9]), 230) {
        SessionAction::ForwardBinary(m) => {
            assert_eq!(m.id, 7);
            assert_eq!(m.msg, vec![9]);
        }
        _ => panic!("binary not forwarded"),
    }
    match s.handle(WsEvent::Close(Some(CloseReason { code: 1000, description: None })), 240) {
        SessionAction::CloseAndStop(Some(r)) => assert_eq!(r.code, 1000),
        _ => panic!("close not handled"),
    }
    assert!(matches!(s.handle(WsEvent::Continuation, 250), SessionAction::Stop));
    assert!(matches!(s.handle(WsEvent::Nop, 260), SessionAction::Ignore));
    assert!(matches!(s.handle(WsEvent::ProtocolError, 270), SessionAction::Stop));
    assert_eq!(s.stopping().id, 7);
}

#[test]
fn protocol_error_does_not_refresh_heartbeat() {
    let mut s = WsChatSession::new(0);
    s.handle(WsEvent::ProtocolError, 5_000_000_000);
    assert!(matches!(s.check_heartbeat(CLIENT_TIMEOUT_NANOS + 1), HeartbeatAction::Disconnect(_)));
    s.handle(WsEvent::Nop, 5_000_000_000);
    assert!(matches!(s.check_heartbeat(CLIENT_TIMEOUT_NANOS + 1), HeartbeatAction::Ping));
}

#[test]
fn heartbeat_times_out_strictly_after_ten_seconds() {
    let s = WsChatSession::new(1_000);
    assert!(matches!(s.check_heartbeat(1_000 + CLIENT_TIMEOUT_NANOS), HeartbeatAction::Ping));
    match s.check_heartbeat(1_001 + CLIENT_TIMEOUT_NANOS) {
        HeartbeatAction::Disconnect(d) => assert_eq!(d.id, 0),
        HeartbeatAction::Ping => panic!("should time out"),
    }
    assert!(matches!(s.check_heartbeat(0), HeartbeatAction::Ping));
    assert_eq!(CLIENT_TIMEOUT_NANOS, 10_000_000_000);
}

#[test]
fn failed_connect_stops_session() {
    let mut s = WsChatSession::new(0);
    assert!(!s.on_connected(None));
    assert_eq!(s.session_id(), 0);
}

#[test]
fn ids_count_connects_across_a_run() {
    let mut s: WsChatServer<u8> = WsChatServer::new();
    let mut ids = Vec::new();
    for round in 0..5u8 {
        ids.push(s.connect(round));
        s.disconnect(ids[ids.len() - 1]);
        ids.push(s.connect(round));
    }
    assert_eq!(ids, (0..10).collect::<Vec<i64>>());
}

#[test]
fn handle_hands_out_ids_in_order_across_messages() {
    let mut s: WsChatServer<u8> = WsChatServer::new();
    assert_eq!(s.handle(ChatOp::Connect(1)), Some(0));
    assert_eq!(s.handle(ChatOp::Forward), None);
    assert_eq!(s.handle(ChatOp::Disconnect(0)), None);
    assert!(s.recipient(0).is_none());
    assert_eq!(s.handle(ChatOp::Connect(2)), Some(1));
    assert_eq!(s.handle(ChatOp::Connect(3)), Some(2));
    assert_eq!(s.recipient(2), Some(&3));
}
