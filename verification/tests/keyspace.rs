use resp_kv::cmd::{CommandParser, ExpireBehaviour, RedisCommand, SetBehaviour};
use resp_kv::db::{Db, ExpirationUpdate};
use resp_kv::proto::{ParseError, Value};

fn set_cmd(key: &[u8], value: &[u8]) -> RedisCommand {
    RedisCommand::SetValue {
        key: key.to_vec(),
        value: Value::BulkString(value.to_vec()),
        expiry: None,
        behaviour: SetBehaviour::Force,
        return_old: false,
        keep_ttl: false,
    }
}

#[test]
fn set_then_get_answers_value() {
    let mut db = Db::new();
    let r = set_cmd(b"k", b"v").apply(&mut db, 0);
    assert_eq!(r, Value::SimpleString(b"OK".to_vec()));
    let g = RedisCommand::Get(b"k".to_vec()).apply(&mut db, 1);
    assert_eq!(g, Value::BulkString(b"v".to_vec()));
}

#[test]
fn set_xx_replaces_existing() {
    let mut db = Db::new();
    set_cmd(b"k", b"v1").apply(&mut db, 0);
    let r = RedisCommand::SetValue {
        key: b"k".to_vec(),
        value: Value::BulkString(b"v2".to_vec()),
        expiry: None,
        behaviour: SetBehaviour::OnlyIfExists,
        return_old: false,
        keep_ttl: false,
    }
    .apply(&mut db, 1);
    assert_eq!(r, Value::SimpleString(b"OK".to_vec()));
    let g = RedisCommand::Get(b"k".to_vec()).apply(&mut db, 2);
    assert_eq!(g, Value::BulkString(b"v2".to_vec()));
}

#[test]
fn set_nx_on_existing_is_skipped() {
    let mut db = Db::new();
    set_cmd(b"k", b"v").apply(&mut db, 0);
    let r = RedisCommand::SetValue {
        key: b"k".to_vec(),
        value: Value::BulkString(b"other".to_vec()),
        expiry: None,
        behaviour: SetBehaviour::OnlyIfNotExists,
        return_old: false,
        keep_ttl: false,
    }
    .apply(&mut db, 1);
    assert_eq!(r, Value::NullString);
    let g = RedisCommand::Get(b"k".to_vec()).apply(&mut db, 2);
    assert_eq!(g, Value::BulkString(b"v".to_vec()));
}

#[test]
fn set_xx_on_absent_is_skipped() {
    let mut db = Db::new();
    let r = RedisCommand::SetValue {
        key: b"k".to_vec(),
        value: Value::BulkString(b"v".to_vec()),
        expiry: None,
        behaviour: SetBehaviour::OnlyIfExists,
        return_old: false,
        keep_ttl: false,
    }
    .apply(&mut db, 0);
    assert_eq!(r, Value::NullString);
    assert_eq!(RedisCommand::Get(b"k".to_vec()).apply(&mut db, 1), Value::NullString);
}

#[test]
fn expired_key_is_gone() {
    let mut db = Db::new();
    let r = RedisCommand::SetValue {
        key: b"k".to_vec(),
        value: Value::BulkString(b"v".to_vec()),
        expiry: Some(1000),
        behaviour: SetBehaviour::Force,
        return_old: false,
        keep_ttl: false,
    }
    .apply(&mut db, 0);
    assert_eq!(r, Value::SimpleString(b"OK".to_vec()));
    // Within the deadline the key answers.
    assert_eq!(
        RedisCommand::Get(b"k".to_vec()).apply(&mut db, 500),
        Value::BulkString(b"v".to_vec())
    );
    // More than a second later it is gone.
    assert_eq!(RedisCommand::Get(b"k".to_vec()).apply(&mut db, 1500), Value::NullString);
    assert_eq!(RedisCommand::Ttl(b"k".to_vec()).apply(&mut db, 1500), Value::Integer(-2));
}

#[test]
fn ttl_sentinels() {
    let mut db = Db::new();
    assert_eq!(db.ttl(b"never", 0), -2);
    set_cmd(b"plain", b"v").apply(&mut db, 0);
    assert_eq!(db.ttl(b"plain", 5), -1);
    RedisCommand::SetValue {
        key: b"timed".to_vec(),
        value: Value::BulkString(b"v".to_vec()),
        expiry: Some(10_000),
        behaviour: SetBehaviour::Force,
        return_old: false,
        keep_ttl: false,
    }
    .apply(&mut db, 0);
    let t1 = db.ttl(b"timed", 1000);
    let t2 = db.ttl(b"timed", 4000);
    assert!(t1 >= 0 && t2 >= 0);
    assert!(t2 <= t1, "remaining TTL must not grow over time");
    assert_eq!(db.ttl(b"timed", 1000), 9);
    assert_eq!(db.pttl(b"timed", 1000), 9000);
}

#[test]
fn del_counts_keys_that_existed() {
    let mut db = Db::new();
    set_cmd(b"a", b"1").apply(&mut db, 0);
    set_cmd(b"b", b"2").apply(&mut db, 0);
    let r = RedisCommand::Del(vec![b"a".to_vec(), b"b".to_vec(), b"c".to_vec()])
        .apply(&mut db, 1);
    assert_eq!(r, Value::Integer(2));
    assert_eq!(RedisCommand::Get(b"a".to_vec()).apply(&mut db, 2), Value::NullString);
    assert_eq!(RedisCommand::Get(b"b".to_vec()).apply(&mut db, 2), Value::NullString);
}

#[test]
fn keep_ttl_retains_deadline_and_plain_set_clears_it() {
    let mut db = Db::new();
    RedisCommand::SetValue {
        key: b"k".to_vec(),
        value: Value::BulkString(b"v".to_vec()),
        expiry: Some(10_000),
        behaviour: SetBehaviour::Force,
        return_old: false,
        keep_ttl: false,
    }
    .apply(&mut db, 0);
    RedisCommand::SetValue {
        key: b"k".to_vec(),
        value: Value::BulkString(b"v2".to_vec()),
        expiry: None,
        behaviour: SetBehaviour::Force,
        return_old: false,
        keep_ttl: true,
    }
    .apply(&mut db, 3000);
    // The original deadline still stands: about seven seconds remain.
    assert_eq!(db.ttl(b"k", 3000), 7);
    assert_eq!(
        RedisCommand::Get(b"k".to_vec()).apply(&mut db, 3000),
        Value::BulkString(b"v2".to_vec())
    );
    // A plain SET with neither KEEPTTL nor an expiry clears the TTL.
    set_cmd(b"k", b"v3").apply(&mut db, 4000);
    assert_eq!(db.ttl(b"k", 4000), -1);
}

#[test]
fn set_get_flag_answers_prior_value() {
    let mut db = Db::new();
    let first = RedisCommand::SetValue {
        key: b"k".to_vec(),
        value: Value::BulkString(b"v1".to_vec()),
        expiry: None,
        behaviour: SetBehaviour::Force,
        return_old: true,
        keep_ttl: false,
    }
    .apply(&mut db, 0);
    assert_eq!(first, Value::NullString);
    let second = RedisCommand::SetValue {
        key: b"k".to_vec(),
        value: Value::BulkString(b"v2".to_vec()),
        expiry: None,
        behaviour: SetBehaviour::Force,
        return_old: true,
        keep_ttl: false,
    }
    .apply(&mut db, 1);
    assert_eq!(second, Value::BulkString(b"v1".to_vec()));
}

#[test]
fn expire_installs_and_gates() {
    let mut db = Db::new();
    set_cmd(b"k", b"v").apply(&mut db, 0);
    // NX installs on a key without a TTL.
    let r = RedisCommand::Expire {
        key: b"k".to_vec(),
        seconds: 10,
        behaviour: ExpireBehaviour::OnlyIfNoExpiry,
    }
    .apply(&mut db, 0);
    assert_eq!(r, Value::Integer(1));
    assert_eq!(db.ttl(b"k", 0), 10);
    // NX again is refused now that a TTL exists.
    let r2 = RedisCommand::Expire {
        key: b"k".to_vec(),
        seconds: 99,
        behaviour: ExpireBehaviour::OnlyIfNoExpiry,
    }
    .apply(&mut db, 0);
    assert_eq!(r2, Value::Integer(0));
    // GT refuses a smaller deadline, accepts a larger one.
    assert!(!db.set_expire(b"k", 5, ExpireBehaviour::OnlyIfGreater, 0));
    assert!(db.set_expire(b"k", 20, ExpireBehaviour::OnlyIfGreater, 0));
    assert_eq!(db.ttl(b"k", 0), 20);
    // An absent key never gets a TTL.
    let r3 = RedisCommand::Expire {
        key: b"none".to_vec(),
        seconds: 10,
        behaviour: ExpireBehaviour::Force,
    }
    .apply(&mut db, 0);
    assert_eq!(r3, Value::Integer(0));
}

#[test]
fn stub_commands_answer_empty_array() {
    let mut db = Db::new();
    assert_eq!(RedisCommand::Command.apply(&mut db, 0), Value::Array(Vec::new()));
    assert_eq!(
        RedisCommand::CommandDocs(vec![b"get".to_vec()]).apply(&mut db, 0),
        Value::Array(Vec::new())
    );
    assert_eq!(
        RedisCommand::ConfigGet(vec![b"save".to_vec()]).apply(&mut db, 0),
        Value::Array(Vec::new())
    );
}

#[test]
fn expiration_messages_follow_the_writes() {
    let mut db = Db::new();
    RedisCommand::SetValue {
        key: b"k".to_vec(),
        value: Value::BulkString(b"v".to_vec()),
        expiry: Some(5000),
        behaviour: SetBehaviour::Force,
        return_old: false,
        keep_ttl: false,
    }
    .apply(&mut db, 0);
    let ups = db.take_updates();
    assert_eq!(ups.len(), 1);
    match &ups[0] {
        ExpirationUpdate::Insert { handle, key, timeout } => {
            assert_eq!(*handle, 0);
            assert_eq!(key, &b"k".to_vec());
            assert_eq!(*timeout, 5000);
        }
        other => panic!("expected an insert message, got {:?}", other),
    }
    // Clearing the TTL cancels the handle.
    set_cmd(b"k", b"v2").apply(&mut db, 1);
    let ups2 = db.take_updates();
    assert_eq!(ups2.len(), 1);
    assert!(matches!(ups2[0], ExpirationUpdate::Remove { handle: 0 }));
    // A fresh deadline mints a fresh handle: stale handles are not reused.
    db.set_expire(b"k", 1, ExpireBehaviour::Force, 2);
    let ups3 = db.take_updates();
    assert_eq!(ups3.len(), 1);
    assert!(matches!(ups3[0], ExpirationUpdate::Insert { handle: 1, .. }));
}

#[test]
fn remove_raw_drops_the_key() {
    let mut db = Db::new();
    set_cmd(b"k", b"v").apply(&mut db, 0);
    db.remove_raw(b"k");
    assert_eq!(db.get(b"k", 1), None);
}

fn parse_frame(bytes: &[u8], now: u64) -> Result<RedisCommand, ParseError> {
    let mut input: Vec<u8> = bytes.to_vec();
    let v = resp_kv::codec::RedisProtocol::decode(&mut input).unwrap().unwrap();
    match v {
        Value::Array(items) => CommandParser::new(items).parse(now),
        other => panic!("expected an array frame, got {:?}", other),
    }
}

#[test]
fn parse_and_run_set_get_pipeline() {
    let mut db = Db::new();
    let set = parse_frame(b"*3\r\n$3\r\nSET\r\n$1\r\nk\r\n$1\r\nv\r\n", 0).unwrap();
    assert_eq!(set.apply(&mut db, 0), Value::SimpleString(b"OK".to_vec()));
    let get = parse_frame(b"*2\r\n$3\r\nget\r\n$1\r\nk\r\n", 0).unwrap();
    assert_eq!(get.apply(&mut db, 1), Value::BulkString(b"v".to_vec()));
}

#[test]
fn parse_set_with_flags() {
    let cmd = parse_frame(
        b"*6\r\n$3\r\nSET\r\n$1\r\nk\r\n$1\r\nv\r\n$2\r\nNX\r\n$3\r\nGET\r\n$2\r\nEX\r\n",
        0,
    );
    // EX without its integer argument is an error.
    assert!(matches!(cmd, Err(ParseError::ExpectedInteger)));
    let ok = parse_frame(
        b"*5\r\n$3\r\nSET\r\n$1\r\nk\r\n$1\r\nv\r\n$2\r\nEX\r\n:2\r\n",
        0,
    )
    .unwrap();
    match ok {
        RedisCommand::SetValue { expiry, behaviour, return_old, keep_ttl, .. } => {
            assert_eq!(expiry, Some(2000));
            assert!(matches!(behaviour, SetBehaviour::Force));
            assert!(!return_old);
            assert!(!keep_ttl);
        }
        other => panic!("expected a SET, got {:?}", other),
    }
}

#[test]
fn parse_error_variants() {
    // A key must be a string.
    assert!(matches!(
        parse_frame(b"*2\r\n$3\r\nGET\r\n:5\r\n", 0),
        Err(ParseError::ExpectedString)
    ));
    // SET needs a value.
    assert!(matches!(
        parse_frame(b"*2\r\n$3\r\nSET\r\n$1\r\nk\r\n", 0),
        Err(ParseError::ExpectedAny)
    ));
    // An unknown verb is a recoverable parse error.
    assert!(matches!(
        parse_frame(b"*1\r\n$4\r\nBLUB\r\n", 0),
        Err(ParseError::UnknownCommand)
    ));
}

#[test]
fn parse_command_stub_forms() {
    assert!(matches!(
        parse_frame(b"*1\r\n$7\r\nCOMMAND\r\n", 0),
        Ok(RedisCommand::Command)
    ));
    match parse_frame(b"*3\r\n$7\r\ncommand\r\n$4\r\ndocs\r\n$3\r\nget\r\n", 0) {
        Ok(RedisCommand::CommandDocs(names)) => assert_eq!(names, vec![b"get".to_vec()]),
        other => panic!("expected COMMAND DOCS, got {:?}", other),
    }
    match parse_frame(b"*3\r\n$6\r\nCONFIG\r\n$3\r\nGET\r\n$4\r\nsave\r\n", 0) {
        Ok(RedisCommand::ConfigGet(globs)) => assert_eq!(globs, vec![b"save".to_vec()]),
        other => panic!("expected CONFIG GET, got {:?}", other),
    }
}

#[test]
fn parse_exat_resolves_against_the_clock() {
    // An absolute deadline two seconds from now becomes a relative expiry.
    let now: u64 = 1_000_000;
    let cmd = parse_frame(
        b"*5\r\n$3\r\nSET\r\n$1\r\nk\r\n$1\r\nv\r\n$4\r\nEXAT\r\n:1002\r\n",
        now,
    )
    .unwrap();
    match cmd {
        RedisCommand::SetValue { expiry, .. } => assert_eq!(expiry, Some(2000)),
        other => panic!("expected a SET, got {:?}", other),
    }
    // One already in the past yields no expiry at all.
    let past = parse_frame(
        b"*5\r\n$3\r\nSET\r\n$1\r\nk\r\n$1\r\nv\r\n$4\r\nEXAT\r\n:999\r\n",
        now,
    )
    .unwrap();
    match past {
        RedisCommand::SetValue { expiry, .. } => assert_eq!(expiry, None),
        other => panic!("expected a SET, got {:?}", other),
    }
}

#[test]
fn parse_expire_flags() {
    match parse_frame(b"*4\r\n$6\r\nEXPIRE\r\n$1\r\nk\r\n:10\r\n$2\r\nGT\r\n", 0) {
        Ok(RedisCommand::Expire { seconds, behaviour, .. }) => {
            assert_eq!(seconds, 10);
            assert!(matches!(behaviour, ExpireBehaviour::OnlyIfGreater));
        }
        other => panic!("expected an EXPIRE, got {:?}", other),
    }
}

#[test]
fn del_counts_duplicate_keys_once() {
    let mut db = Db::new();
    set_cmd(b"a", b"1").apply(&mut db, 0);
    let r = RedisCommand::Del(vec![b"a".to_vec(), b"a".to_vec()]).apply(&mut db, 1);
    assert_eq!(r, Value::Integer(1));
}

#[test]
fn set_get_flag_answers_prior_even_when_skipped() {
    let mut db = Db::new();
    set_cmd(b"k", b"v").apply(&mut db, 0);
    let r = RedisCommand::SetValue {
        key: b"k".to_vec(),
        value: Value::BulkString(b"other".to_vec()),
        expiry: None,
        behaviour: SetBehaviour::OnlyIfNotExists,
        return_old: true,
        keep_ttl: false,
    }
    .apply(&mut db, 1);
    assert_eq!(r, Value::BulkString(b"v".to_vec()));
    assert_eq!(
        RedisCommand::Get(b"k".to_vec()).apply(&mut db, 2),
        Value::BulkString(b"v".to_vec())
    );
}

#[test]
fn set_flags_parse_in_any_order() {
    // GET before NX: both flags take effect.
    match parse_frame(
        b"*5\r\n$3\r\nSET\r\n$1\r\nk\r\n$1\r\nv\r\n$3\r\nGET\r\n$2\r\nNX\r\n",
        0,
    ) {
        Ok(RedisCommand::SetValue { behaviour, return_old, expiry, keep_ttl, .. }) => {
            assert!(matches!(behaviour, SetBehaviour::OnlyIfNotExists));
            assert!(return_old);
            assert_eq!(expiry, None);
            assert!(!keep_ttl);
        }
        other => panic!("expected a SET, got {:?}", other),
    }
    // KEEPTTL before XX.
    match parse_frame(
        b"*5\r\n$3\r\nSET\r\n$1\r\nk\r\n$1\r\nv\r\n$7\r\nKEEPTTL\r\n$2\r\nXX\r\n",
        0,
    ) {
        Ok(RedisCommand::SetValue { behaviour, return_old, expiry, keep_ttl, .. }) => {
            assert!(matches!(behaviour, SetBehaviour::OnlyIfExists));
            assert!(!return_old);
            assert_eq!(expiry, None);
            assert!(keep_ttl);
        }
        other => panic!("expected a SET, got {:?}", other),
    }
    // The expiry pair before GET.
    match parse_frame(
        b"*6\r\n$3\r\nSET\r\n$1\r\nk\r\n$1\r\nv\r\n$2\r\nEX\r\n:2\r\n$3\r\nGET\r\n",
        0,
    ) {
        Ok(RedisCommand::SetValue { behaviour, return_old, expiry, keep_ttl, .. }) => {
            assert!(matches!(behaviour, SetBehaviour::Force));
            assert!(return_old);
            assert_eq!(expiry, Some(2000));
            assert!(!keep_ttl);
        }
        other => panic!("expected a SET, got {:?}", other),
    }
}

#[test]
fn set_flag_conflicts_are_parse_errors() {
    // Two flags of the existence group.
    assert!(matches!(
        parse_frame(b"*5\r\n$3\r\nSET\r\n$1\r\nk\r\n$1\r\nv\r\n$2\r\nNX\r\n$2\r\nXX\r\n", 0),
        Err(ParseError::UnknownCommand)
    ));
    // Two flags of the expiry group.
    assert!(matches!(
        parse_frame(
            b"*6\r\n$3\r\nSET\r\n$1\r\nk\r\n$1\r\nv\r\n$2\r\nEX\r\n:1\r\n$7\r\nKEEPTTL\r\n",
            0,
        ),
        Err(ParseError::UnknownCommand)
    ));
    // An unknown flag word.
    assert!(matches!(
        parse_frame(b"*4\r\n$3\r\nSET\r\n$1\r\nk\r\n$1\r\nv\r\n$3\r\nFOO\r\n", 0),
        Err(ParseError::UnknownCommand)
    ));
    // A flag position holding a non-string value.
    assert!(matches!(
        parse_frame(b"*4\r\n$3\r\nSET\r\n$1\r\nk\r\n$1\r\nv\r\n:1\r\n", 0),
        Err(ParseError::ExpectedString)
    ));
}
