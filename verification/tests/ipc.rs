use iwwc::ipc::{Command, IpcError, ParseError, Response};

#[test]
fn wire_roundtrip_commands() {
    let cases = [
        Command::Update { name: "h".into(), value: "80".into() },
        Command::Update { name: "x".into(), value: "container c1 child=t1".into() },
        Command::Open { window: "bar".into() },
        Command::Close { window: "bar".into() },
        Command::Toggle { window: "bar".into() },
    ];
    for c in cases {
        let wire = c.to_wire();
        assert_eq!(Command::parse_wire(&wire), Ok(c.clone()), "roundtrip failed for {:?}", c);
    }
}

#[test]
fn wire_roundtrip_response() {
    assert_eq!(Response::parse_wire(&Response::Okay.to_wire()), Response::Okay);
    let e = Response::Error("line1\nline2".into());
    assert_eq!(Response::parse_wire(&e.to_wire()), e);
    let e2 = Response::Error("single".into());
    assert_eq!(Response::parse_wire(&e2.to_wire()), e2);
}

#[test]
fn wire_roundtrip_note() {
    let n = Response::Note("warn1\nwarn2".into());
    assert_eq!(Response::parse_wire(&n.to_wire()), n);
    let n2 = Response::Note("single warning".into());
    assert_eq!(Response::parse_wire(&n2.to_wire()), n2);
    assert_eq!(Response::parse_wire(&Response::Okay.to_wire()), Response::Okay);
}

#[test]
fn wire_roundtrip_reload() {
    let c = Command::Reload;
    assert_eq!(Command::parse_wire(&c.to_wire()), Ok(c));
    assert_eq!(Command::parse_wire("reload"), Ok(Command::Reload));
}

#[test]
fn parse_errors() {
    assert_eq!(
        Command::parse_wire("frobnicate x"),
        Err(ParseError::UnknownCommand("frobnicate".into()))
    );
    assert!(matches!(Command::parse_wire("update x"), Err(ParseError::MissingArgument(_))));
    assert!(matches!(Command::parse_wire("open"), Err(ParseError::MissingArgument(_))));
}

#[test]
fn wire_text_and_details() {
    assert_eq!(
        Command::Update { name: "a".into(), value: "b c".into() }.to_wire(),
        "update a b c"
    );
    assert_eq!(Command::Reload.to_wire(), "reload");
    assert_eq!(Response::Note("n".into()).to_wire(), "OK\nn");
    assert_eq!(Response::Error("e".into()).to_wire(), "ERROR\ne");
    assert_eq!(Command::parse_wire("open  bar \n"), Ok(Command::Open { window: "bar".into() }));
    assert_eq!(Command::parse_wire("reload now"), Ok(Command::Reload));
    assert_eq!(
        Command::parse_wire("update x "),
        Err(ParseError::MissingArgument("update requires <name> <value>"))
    );
    assert_eq!(Command::parse_wire("toggle  "), Err(ParseError::MissingArgument("window name")));
    assert_eq!(Command::parse_wire(""), Err(ParseError::UnknownCommand("".into())));
    assert_eq!(Response::parse_wire("OK\n"), Response::Okay);
    assert_eq!(Response::parse_wire("ERROR"), Response::Error(String::new()));
    assert_eq!(Response::parse_wire("garbage"), Response::Error("garbage".into()));
    assert_eq!(Response::parse_wire("WHAT\nx"), Response::Error("WHAT\nx".into()));
}

#[test]
fn roundtrip_limits() {
    // An empty note reads back as a plain OK, and a message with a final
    // newline loses it: both are outside the roundtrip law.
    assert_eq!(Response::parse_wire(&Response::Note(String::new()).to_wire()), Response::Okay);
    assert_eq!(
        Response::parse_wire(&Response::Error("x\n".into()).to_wire()),
        Response::Error("x".into())
    );
}

#[test]
fn connection_errors() {
    let e = IpcError::from_connect(true, "No such file or directory (os error 2)".to_string());
    assert_eq!(e, IpcError::NotRunning);
    assert_eq!(e.render(), "daemon is not running");
    let e = IpcError::from_connect(false, "Permission denied (os error 13)".to_string());
    assert_eq!(e, IpcError::Io("Permission denied (os error 13)".to_string()));
    assert_eq!(e.render(), "Permission denied (os error 13)");
}
