use udp::command::{exit_status, listen_address, plan, send_address, Action, Invocation, ListenArgs};
use udp::port::{parse_port, PortError, MAX_PORT};

#[test]
fn largest_port_parses() {
    assert_eq!(parse_port("65535").unwrap(), 65535);
    assert_eq!(parse_port("65535").unwrap(), MAX_PORT);
}

#[test]
fn out_of_range_and_malformed_ports_fail() {
    for text in ["65536", "-1", "abc", "", "+", "99999a", "1 ", " 1", "70000", "1.5"] {
        let err = parse_port(text).unwrap_err();
        assert_eq!(err.text(), text);
    }
}

#[test]
fn ports_parse_like_std() {
    let cases = [
        "0", "1", "80", "+80", "00080", "65534", "65535", "65536", "-0", "++1", "+", "", "a1",
        "1a", "123456", "0000000000065535", "4294967296", "٣",
    ];
    for text in cases {
        let ours = parse_port(text).ok();
        let std_result = text.parse::<u16>().ok();
        assert_eq!(ours, std_result, "input {:?}", text);
    }
}

#[test]
fn port_error_describes_the_argument() {
    let err = parse_port("abc").unwrap_err();
    assert_eq!(err.description(), "The argument 'abc' isn't a valid value");
    let err = PortError { text: "-1".to_string() };
    assert_eq!(err.description(), "The argument '-1' isn't a valid value");
}

#[test]
fn send_with_bad_port_is_refused_with_status_one() {
    for text in ["65536", "-1", "abc"] {
        let action = plan(Invocation::Send { host: "localhost".to_string(), port: text.to_string() });
        match &action {
            Action::Refuse(e) => assert_eq!(e.text(), text),
            other => panic!("expected a refusal, got {:?}", other),
        }
        assert_eq!(exit_status(&action), 1);
    }
}

#[test]
fn listen_with_bad_port_is_refused_with_status_one() {
    let action = plan(Invocation::Listen { port: "65536".to_string() });
    assert!(matches!(action, Action::Refuse(_)));
    assert_eq!(exit_status(&action), 1);
}

#[test]
fn send_with_good_port_keeps_host_and_port() {
    let action = plan(Invocation::Send { host: "example.org".to_string(), port: "65535".to_string() });
    match &action {
        Action::Send(args) => {
            assert_eq!(args.host, "example.org");
            assert_eq!(args.port, 65535);
        }
        other => panic!("expected a send, got {:?}", other),
    }
    assert_eq!(exit_status(&action), 0);
}

#[test]
fn listen_with_good_port() {
    let action = plan(Invocation::Listen { port: "8080".to_string() });
    match &action {
        Action::Listen(args) => assert_eq!(*args, ListenArgs { port: 8080 }),
        other => panic!("expected a listen, got {:?}", other),
    }
    assert_eq!(exit_status(&action), 0);
}

#[test]
fn no_subcommand_shows_help_with_status_zero() {
    let action = plan(Invocation::Bare);
    assert!(matches!(action, Action::ShowHelp));
    assert_eq!(exit_status(&action), 0);
}

#[test]
fn listener_binds_all_interfaces() {
    let a = listen_address(&ListenArgs { port: 4000 });
    assert_eq!(a.ip, [0, 0, 0, 0]);
    assert_eq!(a.port, 4000);
}

#[test]
fn sender_binds_an_ephemeral_port() {
    let a = send_address();
    assert_eq!(a.ip, [0, 0, 0, 0]);
    assert_eq!(a.port, 0);
}
