use fractonkv::codec::Frame;
use fractonkv::commands::CommandKind;
use fractonkv::errors::CommandExecutionError;
use fractonkv::errors::ExecutionError;
use fractonkv::errors::FrameError;
use fractonkv::handlers::handle_get;
use fractonkv::handlers::handle_set;
use fractonkv::shard::handle_frame;
use fractonkv::store::Store;

fn b(s: &str) -> Vec<u8> {
    s.as_bytes().to_vec()
}

fn bulk(s: &str) -> Frame {
    Frame::Bulk(b(s))
}

fn cmd(parts: &[&str]) -> Frame {
    Frame::Array(parts.iter().map(|p| bulk(p)).collect())
}

fn err_text(f: &Frame) -> String {
    match f {
        Frame::Error(d) => String::from_utf8(d.clone()).unwrap(),
        other => panic!("expected an error frame, got {:?}", other),
    }
}

#[test]
fn get_of_never_written_key_is_null() {
    let mut db = Store::new();
    let r = handle_get(&[bulk("missing")], &mut db, 0).unwrap();
    assert_eq!(r, Frame::Null);
}

#[test]
fn set_then_get_returns_same_bytes() {
    let mut db = Store::new();
    let value = vec![0u8, 1, 2, 254, 255, 13, 10];
    let ok = handle_set(&[bulk("k"), Frame::Bulk(value.clone())], &mut db, 0).unwrap();
    assert_eq!(ok, Frame::Simple(b("OK")));
    let r = handle_get(&[bulk("k")], &mut db, 1).unwrap();
    assert_eq!(r, Frame::Bulk(value));
}

#[test]
fn set_nx_on_existing_key_changes_nothing() {
    let mut db = Store::new();
    handle_set(&[bulk("a"), bulk("1")], &mut db, 0).unwrap();
    let r = handle_set(&[bulk("a"), bulk("2"), bulk("NX")], &mut db, 1).unwrap();
    assert_eq!(r, Frame::Null);
    let g = handle_get(&[bulk("a")], &mut db, 2).unwrap();
    assert_eq!(g, Frame::Bulk(b("1")));
}

#[test]
fn set_nx_with_get_flag_returns_prior_value() {
    let mut db = Store::new();
    handle_set(&[bulk("a"), bulk("1")], &mut db, 0).unwrap();
    let r = handle_set(&[bulk("a"), bulk("2"), bulk("NX"), bulk("GET")], &mut db, 1).unwrap();
    assert_eq!(r, Frame::Bulk(b("1")));
    let g = handle_get(&[bulk("a")], &mut db, 2).unwrap();
    assert_eq!(g, Frame::Bulk(b("1")));
}

#[test]
fn set_xx_on_absent_key_changes_nothing() {
    let mut db = Store::new();
    let r = handle_set(&[bulk("a"), bulk("1"), bulk("XX")], &mut db, 0).unwrap();
    assert_eq!(r, Frame::Null);
    let g = handle_get(&[bulk("a")], &mut db, 1).unwrap();
    assert_eq!(g, Frame::Null);
}

#[test]
fn expired_read_is_null_and_does_not_touch_access_time() {
    let mut db = Store::new();
    handle_set(&[bulk("k"), bulk("v"), bulk("EX"), bulk("1")], &mut db, 100).unwrap();
    let live = handle_get(&[bulk("k")], &mut db, 500).unwrap();
    assert_eq!(live, Frame::Bulk(b("v")));
    assert_eq!(db.get(&b("k")).unwrap().last_accessed, 500);
    assert_eq!(db.get(&b("k")).unwrap().created_at, 100);
    // Absolute expiry is created_at + ttl = 100 + 1000.
    let gone = handle_get(&[bulk("k")], &mut db, 1100).unwrap();
    assert_eq!(gone, Frame::Null);
    assert_eq!(db.get(&b("k")).unwrap().last_accessed, 500);
}

#[test]
fn px_sets_millisecond_ttl() {
    let mut db = Store::new();
    handle_set(&[bulk("k"), bulk("v"), bulk("PX"), bulk("250")], &mut db, 0).unwrap();
    assert_eq!(handle_get(&[bulk("k")], &mut db, 249).unwrap(), Frame::Bulk(b("v")));
    assert_eq!(handle_get(&[bulk("k")], &mut db, 250).unwrap(), Frame::Null);
}

#[test]
fn overwrite_without_ttl_flag_clears_ttl() {
    let mut db = Store::new();
    handle_set(&[bulk("k"), bulk("v"), bulk("EX"), bulk("1")], &mut db, 0).unwrap();
    handle_set(&[bulk("k"), bulk("w")], &mut db, 500).unwrap();
    // Long after the first write's expiry the key still lives: no TTL remains.
    assert_eq!(handle_get(&[bulk("k")], &mut db, 10_000).unwrap(), Frame::Bulk(b("w")));
}

#[test]
fn keepttl_preserves_relative_ttl_on_overwrite() {
    let mut db = Store::new();
    handle_set(&[bulk("k"), bulk("v"), bulk("EX"), bulk("10")], &mut db, 0).unwrap();
    handle_set(&[bulk("k"), bulk("w"), bulk("KEEPTTL")], &mut db, 1000).unwrap();
    // The kept TTL is relative to the new write: expiry at 1000 + 10000.
    assert_eq!(handle_get(&[bulk("k")], &mut db, 10_999).unwrap(), Frame::Bulk(b("w")));
    assert_eq!(handle_get(&[bulk("k")], &mut db, 11_000).unwrap(), Frame::Null);
}

#[test]
fn set_flag_errors_leave_store_unchanged() {
    let mut db = Store::new();
    handle_set(&[bulk("k"), bulk("v")], &mut db, 0).unwrap();

    let e = handle_set(&[bulk("k"), bulk("w"), bulk("EX"), bulk("0")], &mut db, 1).unwrap_err();
    assert_eq!(e, CommandExecutionError::InvalidExpire);
    let e = handle_set(&[bulk("k"), bulk("w"), bulk("EX"), bulk("abc")], &mut db, 1).unwrap_err();
    assert_eq!(e, CommandExecutionError::InvalidExpire);
    let e = handle_set(&[bulk("k"), bulk("w"), bulk("EX"), bulk("-1")], &mut db, 1).unwrap_err();
    assert_eq!(e, CommandExecutionError::InvalidExpire);
    let e = handle_set(&[bulk("k"), bulk("w"), bulk("EX")], &mut db, 1).unwrap_err();
    assert_eq!(e, CommandExecutionError::MissingExpire);
    let e = handle_set(
        &[bulk("k"), bulk("w"), bulk("EX"), bulk("1"), bulk("PX"), bulk("5")],
        &mut db,
        1,
    )
    .unwrap_err();
    assert_eq!(e, CommandExecutionError::SyntaxError(b("PX")));
    let e = handle_set(&[bulk("k"), bulk("w"), bulk("NX"), bulk("XX")], &mut db, 1).unwrap_err();
    assert_eq!(e, CommandExecutionError::InvalidParams(CommandKind::SetCmd));
    let e = handle_set(&[bulk("k"), bulk("w"), bulk("BOGUS")], &mut db, 1).unwrap_err();
    assert_eq!(e, CommandExecutionError::SyntaxError(b("BOGUS")));
    let e = handle_set(&[bulk("k")], &mut db, 1).unwrap_err();
    assert_eq!(e, CommandExecutionError::WrongArity(CommandKind::SetCmd));

    // None of the failures wrote anything.
    assert_eq!(handle_get(&[bulk("k")], &mut db, 2).unwrap(), Frame::Bulk(b("v")));
}

#[test]
fn set_flags_match_case_insensitively() {
    let mut db = Store::new();
    handle_set(&[bulk("k"), bulk("v"), bulk("ex"), bulk("1"), bulk("nx")], &mut db, 0).unwrap();
    assert_eq!(handle_get(&[bulk("k")], &mut db, 0).unwrap(), Frame::Bulk(b("v")));
    assert_eq!(handle_get(&[bulk("k")], &mut db, 1000).unwrap(), Frame::Null);
}

#[test]
fn get_without_key_is_wrong_arity() {
    let mut db = Store::new();
    let e = handle_get(&[], &mut db, 0).unwrap_err();
    assert_eq!(e, CommandExecutionError::WrongArity(CommandKind::Get));
    let e = handle_get(&[Frame::Integer(1)], &mut db, 0).unwrap_err();
    assert_eq!(e, CommandExecutionError::WrongArity(CommandKind::Get));
}

#[test]
fn end_to_end_set_with_expiry_then_get() {
    // SET "a" "1" EX 10 -> OK; GET right away -> "1"; after 11 seconds -> null.
    let mut db = Store::new();
    let ok = handle_frame(&cmd(&["SET", "a", "1", "EX", "10"]), &mut db, 0);
    assert_eq!(ok, Frame::Simple(b("OK")));
    let g = handle_frame(&cmd(&["GET", "a"]), &mut db, 1);
    assert_eq!(g, Frame::Bulk(b("1")));
    let gone = handle_frame(&cmd(&["GET", "a"]), &mut db, 11_000);
    assert_eq!(gone, Frame::Null);
}

#[test]
fn end_to_end_nx_keeps_first_write() {
    // SET a 1 NX -> OK; SET a 2 NX -> null; GET a -> "1".
    let mut db = Store::new();
    let first = handle_frame(&cmd(&["SET", "a", "1", "NX"]), &mut db, 0);
    assert_eq!(first, Frame::Simple(b("OK")));
    let second = handle_frame(&cmd(&["SET", "a", "2", "NX"]), &mut db, 1);
    assert_eq!(second, Frame::Null);
    let g = handle_frame(&cmd(&["GET", "a"]), &mut db, 2);
    assert_eq!(g, Frame::Bulk(b("1")));
}

#[test]
fn end_to_end_malformed_top_level_frame() {
    // A bulk string instead of an array earns an error reply, and the
    // connection's store keeps serving the next request.
    let mut db = Store::new();
    let r = handle_frame(&Frame::Bulk(b("oops")), &mut db, 0);
    assert_eq!(err_text(&r), "ERR invalid frame");
    let r = handle_frame(&Frame::Array(Vec::new()), &mut db, 0);
    assert_eq!(err_text(&r), "ERR invalid frame");
    let ok = handle_frame(&cmd(&["SET", "a", "1"]), &mut db, 1);
    assert_eq!(ok, Frame::Simple(b("OK")));
}

#[test]
fn unknown_and_invalid_commands_get_error_replies() {
    let mut db = Store::new();
    let r = handle_frame(&cmd(&["DEL", "a"]), &mut db, 0);
    assert_eq!(err_text(&r), "ERR unknown command");
    let r = handle_frame(&Frame::Array(vec![Frame::Integer(1)]), &mut db, 0);
    assert_eq!(err_text(&r), "ERR invalid frame type");
    let r = handle_frame(&Frame::Array(vec![Frame::Bulk(vec![0xff, 0xfe])]), &mut db, 0);
    assert_eq!(err_text(&r), "ERR invalid UTF-8 in command");
    let r = handle_frame(&cmd(&["GET"]), &mut db, 0);
    assert_eq!(err_text(&r), "ERR wrong number of arguments for 'GET' command");
}

#[test]
fn registry_resolves_names_case_insensitively() {
    assert_eq!(CommandKind::from_name(&b("get")), Some(CommandKind::Get));
    assert_eq!(CommandKind::from_name(&b("GeT")), Some(CommandKind::Get));
    assert_eq!(CommandKind::from_name(&b("sEt")), Some(CommandKind::SetCmd));
    assert_eq!(CommandKind::from_name(&b("DEL")), None);
    assert_eq!(CommandKind::from_name(&b("")), None);
}

#[test]
fn registry_reports_arity_and_description() {
    assert_eq!(CommandKind::Get.arity(), 2);
    assert_eq!(CommandKind::SetCmd.arity(), -3);
    assert!(!CommandKind::Get.desc().is_empty());
    assert!(!CommandKind::SetCmd.desc().is_empty());
    assert_eq!(CommandKind::Get.name_bytes(), b("GET"));
    assert_eq!(CommandKind::SetCmd.name_bytes(), b("SET"));
}

#[test]
fn frame_resolution_error_cases() {
    assert_eq!(CommandKind::from_frame(&Frame::Bulk(b("GET"))), Err(FrameError::InvalidFrame));
    assert_eq!(
        CommandKind::from_frame(&Frame::Array(Vec::new())),
        Err(FrameError::MissingCommand)
    );
    assert_eq!(
        CommandKind::from_frame(&Frame::Array(vec![Frame::Integer(3)])),
        Err(FrameError::InvalidFrame)
    );
    // Invalid UTF-8: a lone continuation byte, a truncated sequence, an
    // overlong encoding, a surrogate.
    assert_eq!(
        CommandKind::from_frame(&Frame::Array(vec![Frame::Bulk(vec![0x80])])),
        Err(FrameError::Utf8Error)
    );
    assert_eq!(
        CommandKind::from_frame(&Frame::Array(vec![Frame::Bulk(vec![0xc3])])),
        Err(FrameError::Utf8Error)
    );
    assert_eq!(
        CommandKind::from_frame(&Frame::Array(vec![Frame::Bulk(vec![0xc0, 0x80])])),
        Err(FrameError::Utf8Error)
    );
    assert_eq!(
        CommandKind::from_frame(&Frame::Array(vec![Frame::Bulk(vec![0xed, 0xa0, 0x80])])),
        Err(FrameError::Utf8Error)
    );
    // Valid UTF-8 that matches no registered name is an unknown command,
    // even when it is not ASCII.
    assert_eq!(
        CommandKind::from_frame(&Frame::Array(vec![Frame::Bulk(vec![0xc3, 0xa9])])),
        Err(FrameError::UnknownCommand)
    );
    assert_eq!(
        CommandKind::from_frame(&Frame::Array(vec![Frame::Bulk(vec![0xe2, 0x82, 0xac])])),
        Err(FrameError::UnknownCommand)
    );
    assert_eq!(
        CommandKind::from_frame(&Frame::Array(vec![Frame::Bulk(b("PING"))])),
        Err(FrameError::UnknownCommand)
    );
    assert_eq!(
        CommandKind::from_frame(&cmd(&["set", "k", "v"])),
        Ok(CommandKind::SetCmd)
    );
    assert_eq!(
        CommandKind::from_frame(&Frame::Array(vec![Frame::Simple(b("GET")), bulk("k")])),
        Ok(CommandKind::Get)
    );
}

#[test]
fn error_frames_carry_exact_messages() {
    let cases: Vec<(Frame, &str)> = vec![
        (FrameError::InvalidFrame.to_frame(), "ERR invalid frame type"),
        (FrameError::MissingCommand.to_frame(), "ERR missing command in array"),
        (FrameError::Utf8Error.to_frame(), "ERR invalid UTF-8 in command"),
        (FrameError::UnknownCommand.to_frame(), "ERR unknown command"),
        (ExecutionError::KeyExpired.to_frame(), "ERR key has expired"),
        (ExecutionError::KeyNotFound.to_frame(), "ERR key not found"),
        (
            CommandExecutionError::WrongArity(CommandKind::SetCmd).to_frame(),
            "ERR wrong number of arguments for 'SET' command",
        ),
        (CommandExecutionError::InvalidExpire.to_frame(), "ERR invalid expire time"),
        (CommandExecutionError::MissingExpire.to_frame(), "ERR missing expire time"),
        (
            CommandExecutionError::SyntaxError(b("ZZ")).to_frame(),
            "ERR syntax error near 'ZZ'",
        ),
        (
            CommandExecutionError::InvalidParams(CommandKind::Get).to_frame(),
            "ERR invalid parameters for command 'GET'",
        ),
        (CommandExecutionError::UnknownCommand.to_frame(), "ERR unknown command"),
    ];
    for (frame, want) in cases {
        assert_eq!(err_text(&frame), want);
    }
}
