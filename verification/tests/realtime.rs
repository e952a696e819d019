use eve_market_analysis::logging::Logger;
use eve_market_analysis::protocol::{welcome_text, ConnState, SocketHandler};
use eve_market_analysis::registry::{Client, ClientRegistry};
use eve_market_analysis::text::{contains_sub, parse_i32, slice_eq, tokenize};

#[test]
fn register_then_deregister_leaves_registry_empty() {
    let mut reg = ClientRegistry::new();
    let mut c = Client::new();
    c.subscribe(10000030);
    reg.register(7, c);
    assert_eq!(reg.len(), 1);
    reg.deregister(7);
    assert_eq!(reg.len(), 0);
    // broadcasting over an empty registry is a no-op, not an error
    assert!(reg.broadcast_targets().is_empty());
}

#[test]
fn deregistering_an_absent_token_is_a_no_op() {
    let mut reg = ClientRegistry::new();
    reg.register(1, Client::new());
    reg.deregister(2);
    assert_eq!(reg.len(), 1);
}

#[test]
fn reconnect_with_reused_token_supersedes() {
    let mut reg = ClientRegistry::new();
    let mut first = Client::new();
    first.subscribe(34);
    reg.register(5, first);
    assert!(reg.is_subscribed(5, 34));
    reg.register(5, Client::new());
    assert_eq!(reg.len(), 1);
    assert!(!reg.is_subscribed(5, 34));
}

#[test]
fn broadcast_targets_every_registered_client() {
    let mut reg = ClientRegistry::new();
    reg.register(1, Client::new());
    let mut subscribed = Client::new();
    subscribed.subscribe(10000030);
    reg.register(2, subscribed);
    let mut targets = reg.broadcast_targets();
    targets.sort();
    // unfiltered policy: subscription state does not narrow delivery
    assert_eq!(targets, vec![1, 2]);
}

#[test]
fn client_subscription_set_is_a_set() {
    let mut c = Client::new();
    c.subscribe(34);
    c.subscribe(34);
    assert!(c.in_channel(34));
    c.unsubscribe(34);
    assert!(!c.in_channel(34));
    c.unsubscribe(34);
    assert!(!c.in_channel(34));
}

#[test]
fn subscribe_command_round_trip() {
    let mut reg = ClientRegistry::new();
    let mut conn = SocketHandler::new(11);
    assert_eq!(conn.state, ConnState::Connecting);
    conn.on_open(&mut reg);
    assert_eq!(conn.state, ConnState::Open);

    conn.on_message(&mut reg, b"subscribe 30000142");
    assert!(reg.is_subscribed(11, 30000142));

    conn.on_message(&mut reg, b"unsubscribe 30000142");
    assert!(!reg.is_subscribed(11, 30000142));
}

#[test]
fn malformed_input_is_silently_dropped() {
    let mut reg = ClientRegistry::new();
    let mut conn = SocketHandler::new(3);
    conn.on_open(&mut reg);
    conn.on_message(&mut reg, b"subscribe abc");
    conn.on_message(&mut reg, b"ping");
    conn.on_message(&mut reg, b"subscribe");
    conn.on_message(&mut reg, b"");
    conn.on_message(&mut reg, b"SUBSCRIBE 7");  // case-sensitive
    assert_eq!(conn.state, ConnState::Open);
    assert_eq!(reg.len(), 1);
    assert!(!reg.is_subscribed(3, 7));
}

#[test]
fn extra_tokens_are_ignored() {
    let mut reg = ClientRegistry::new();
    let mut conn = SocketHandler::new(4);
    conn.on_open(&mut reg);
    conn.on_message(&mut reg, b"subscribe 42 and then some");
    assert!(reg.is_subscribed(4, 42));
}

#[test]
fn close_deregisters_the_connection() {
    let mut reg = ClientRegistry::new();
    let mut conn = SocketHandler::new(8);
    conn.on_open(&mut reg);
    assert_eq!(reg.len(), 1);
    conn.on_close(&mut reg);
    assert_eq!(conn.state, ConnState::Closed);
    assert_eq!(reg.len(), 0);
    // a message after close changes nothing
    conn.on_message(&mut reg, b"subscribe 1");
    assert_eq!(reg.len(), 0);
}

#[test]
fn welcome_text_matches_the_greeting() {
    assert_eq!(welcome_text(), "Welcome to EveMarketAnalysis v0.1.0");
}

#[test]
fn tokenize_splits_on_whitespace_runs() {
    let toks = tokenize(b"  subscribe \t 30000142  extra ");
    assert_eq!(toks.len(), 3);
    assert_eq!(toks[0], b"subscribe".to_vec());
    assert_eq!(toks[1], b"30000142".to_vec());
    assert_eq!(toks[2], b"extra".to_vec());
    assert!(tokenize(b"   \t\r\n ").is_empty());
    assert!(tokenize(b"").is_empty());
}

#[test]
fn parse_i32_exact_values() {
    assert_eq!(parse_i32(b"30000142"), Some(30000142));
    assert_eq!(parse_i32(b"+17"), Some(17));
    assert_eq!(parse_i32(b"-300"), Some(-300));
    assert_eq!(parse_i32(b"0"), Some(0));
    assert_eq!(parse_i32(b"0000000000001"), Some(1));
    assert_eq!(parse_i32(b"2147483647"), Some(i32::MAX));
    assert_eq!(parse_i32(b"-2147483648"), Some(i32::MIN));
    assert_eq!(parse_i32(b"2147483648"), None);
    assert_eq!(parse_i32(b"-2147483649"), None);
    assert_eq!(parse_i32(b"99999999999999999999"), None);
    assert_eq!(parse_i32(b""), None);
    assert_eq!(parse_i32(b"+"), None);
    assert_eq!(parse_i32(b"-"), None);
    assert_eq!(parse_i32(b"1 2"), None);
    assert_eq!(parse_i32(b"12a"), None);
    assert_eq!(parse_i32(b"+-3"), None);
}

#[test]
fn slice_eq_compares_bytewise() {
    assert!(slice_eq(b"subscribe", b"subscribe"));
    assert!(!slice_eq(b"subscribe", b"unsubscribe"));
    assert!(!slice_eq(b"a", b"b"));
    assert!(slice_eq(b"", b""));
}

#[test]
fn logger_enabled_requires_the_scope_in_the_target() {
    let logger = Logger;
    assert!(logger.enabled(b"eve_market_analysis::worker", b"eve_market_analysis"));
    assert!(!logger.enabled(b"hyper::client", b"eve_market_analysis"));
    assert!(logger.enabled(b"anything", b""));
}

#[test]
fn contains_sub_finds_substrings() {
    assert!(contains_sub(b"abcde", b"cd"));
    assert!(!contains_sub(b"abcde", b"ce"));
    assert!(!contains_sub(b"ab", b"abc"));
}

#[test]
fn log_line_layout_is_exact() {
    let logger = Logger;
    let line = logger.log_line(
        b"2020-01-01 00:00:00".to_vec(),
        b"INFO".to_vec(),
        b"[worker `10000030`] sent data".to_vec(),
    );
    assert_eq!(
        line,
        b"2020-01-01 00:00:00 [INFO]: [worker `10000030`] sent data".to_vec()
    );
}
