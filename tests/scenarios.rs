use redis_core::decode::{decode, Decoded};
use redis_core::glob::glob_match;
use redis_core::command::{get_raw_array_command, Command};
use redis_core::context::{wait_count, ServerContext, Session};
use redis_core::number::{parse_i64, parse_u64};
use redis_core::resp::Data;

fn req(parts: &[&str]) -> Vec<Data> {
    parts.iter().map(|p| Data::BStr(p.to_string())).collect()
}

fn run(ctx: &mut ServerContext, parts: &[&str]) -> String {
    let cmd = Command::from_args(&req(parts));
    ctx.execute_command(cmd, 1000).encode()
}

fn run_session(s: &mut Session, ctx: &mut ServerContext, parts: &[&str]) -> String {
    let cmd = Command::from_args(&req(parts));
    s.handle(ctx, cmd, 1000).encode()
}

#[test]
fn set_get_type() {
    let mut ctx = ServerContext::new();
    assert_eq!(run(&mut ctx, &["SET", "foo", "bar"]), "+OK\r\n");
    assert_eq!(run(&mut ctx, &["GET", "foo"]), "$3\r\nbar\r\n");
    assert_eq!(run(&mut ctx, &["TYPE", "foo"]), "+string\r\n");
    assert_eq!(run(&mut ctx, &["TYPE", "nope"]), "+none\r\n");
}

#[test]
fn last_set_wins() {
    let mut ctx = ServerContext::new();
    run(&mut ctx, &["SET", "k", "one"]);
    run(&mut ctx, &["set", "k", "two"]);
    assert_eq!(run(&mut ctx, &["GET", "k"]), "$3\r\ntwo\r\n");
    assert_eq!(run(&mut ctx, &["GET", "missing"]), "$-1\r\n");
}

#[test]
fn set_with_expiry() {
    let mut ctx = ServerContext::new();
    let cmd = Command::from_args(&req(&["SET", "k", "v", "PX", "100"]));
    assert_eq!(ctx.execute_command(cmd, 1000).encode(), "+OK\r\n");
    let get = |ctx: &mut ServerContext, now: u64| {
        ctx.execute_command(Command::from_args(&req(&["GET", "k"])), now).encode()
    };
    assert_eq!(get(&mut ctx, 1099), "$1\r\nv\r\n");
    assert_eq!(get(&mut ctx, 1100), "$-1\r\n");
}

#[test]
fn list_push_range_pop() {
    let mut ctx = ServerContext::new();
    assert_eq!(run(&mut ctx, &["RPUSH", "l", "a", "b", "c"]), ":3\r\n");
    assert_eq!(run(&mut ctx, &["LRANGE", "l", "0", "-1"]), "*3\r\n$1\r\na\r\n$1\r\nb\r\n$1\r\nc\r\n");
    assert_eq!(run(&mut ctx, &["LPOP", "l", "2"]), "*2\r\n$1\r\na\r\n$1\r\nb\r\n");
    assert_eq!(run(&mut ctx, &["LLEN", "l"]), ":1\r\n");
    assert_eq!(run(&mut ctx, &["LPOP", "l"]), "$1\r\nc\r\n");
    assert_eq!(run(&mut ctx, &["LPOP", "none"]), "$-1\r\n");
}

#[test]
fn lpush_reverses() {
    let mut ctx = ServerContext::new();
    assert_eq!(run(&mut ctx, &["LPUSH", "l", "a", "b", "c"]), ":3\r\n");
    assert_eq!(run(&mut ctx, &["LRANGE", "l", "0", "-1"]), "*3\r\n$1\r\nc\r\n$1\r\nb\r\n$1\r\na\r\n");
}

#[test]
fn lrange_clamps_bounds() {
    let mut ctx = ServerContext::new();
    run(&mut ctx, &["RPUSH", "l", "a", "b", "c"]);
    assert_eq!(run(&mut ctx, &["LRANGE", "l", "-2", "10"]), "*2\r\n$1\r\nb\r\n$1\r\nc\r\n");
    assert_eq!(run(&mut ctx, &["LRANGE", "l", "2", "1"]), "*0\r\n");
    assert_eq!(run(&mut ctx, &["LRANGE", "l", "0", "-10"]), "*0\r\n");
    assert_eq!(run(&mut ctx, &["LRANGE", "missing", "0", "-1"]), "*0\r\n");
}

#[test]
fn wrong_type_errors() {
    let mut ctx = ServerContext::new();
    run(&mut ctx, &["SET", "s", "x"]);
    assert_eq!(
        run(&mut ctx, &["RPUSH", "s", "a"]),
        "-WRONGTYPE Operation against a key holding the wrong kind of value\r\n"
    );
    run(&mut ctx, &["RPUSH", "l", "a"]);
    assert!(run(&mut ctx, &["GET", "l"]).starts_with("-WRONGTYPE"));
}

#[test]
fn incr_counts() {
    let mut ctx = ServerContext::new();
    assert_eq!(run(&mut ctx, &["INCR", "n"]), ":1\r\n");
    assert_eq!(run(&mut ctx, &["INCR", "n"]), ":2\r\n");
    run(&mut ctx, &["SET", "m", "-1"]);
    assert_eq!(run(&mut ctx, &["INCR", "m"]), ":0\r\n");
    run(&mut ctx, &["SET", "t", "abc"]);
    assert_eq!(run(&mut ctx, &["INCR", "t"]), "-ERR value is not an integer or out of range\r\n");
    run(&mut ctx, &["SET", "big", "9223372036854775807"]);
    assert_eq!(run(&mut ctx, &["INCR", "big"]), "-ERR value is not an integer or out of range\r\n");
}

#[test]
fn transaction_runs_queued() {
    let mut ctx = ServerContext::new();
    let mut s = Session::new();
    assert_eq!(run_session(&mut s, &mut ctx, &["MULTI"]), "+OK\r\n");
    assert_eq!(run_session(&mut s, &mut ctx, &["SET", "a", "1"]), "+QUEUED\r\n");
    assert_eq!(run_session(&mut s, &mut ctx, &["INCR", "a"]), "+QUEUED\r\n");
    assert_eq!(run_session(&mut s, &mut ctx, &["EXEC"]), "*2\r\n+OK\r\n:2\r\n");
    assert_eq!(run_session(&mut s, &mut ctx, &["GET", "a"]), "$1\r\n2\r\n");
}

#[test]
fn transaction_discard_and_abort() {
    let mut ctx = ServerContext::new();
    let mut s = Session::new();
    run_session(&mut s, &mut ctx, &["MULTI"]);
    run_session(&mut s, &mut ctx, &["SET", "a", "1"]);
    assert_eq!(run_session(&mut s, &mut ctx, &["DISCARD"]), "+OK\r\n");
    assert_eq!(run_session(&mut s, &mut ctx, &["GET", "a"]), "$-1\r\n");
    run_session(&mut s, &mut ctx, &["MULTI"]);
    run_session(&mut s, &mut ctx, &["SET", "a", "1"]);
    run_session(&mut s, &mut ctx, &["NOSUCH"]);
    assert!(run_session(&mut s, &mut ctx, &["EXEC"]).starts_with("-EXECABORT"));
    assert_eq!(run_session(&mut s, &mut ctx, &["GET", "a"]), "$-1\r\n");
    assert_eq!(run_session(&mut s, &mut ctx, &["EXEC"]), "-ERR EXEC without MULTI\r\n");
}

#[test]
fn writes_reach_outbox_in_order() {
    let mut ctx = ServerContext::new();
    run(&mut ctx, &["SET", "k", "v"]);
    run(&mut ctx, &["GET", "k"]);
    run(&mut ctx, &["RPUSH", "l", "x"]);
    assert_eq!(ctx.outbox.len(), 2);
    assert_eq!(ctx.outbox[0], "*3\r\n$3\r\nSET\r\n$1\r\nk\r\n$1\r\nv\r\n");
    assert_eq!(ctx.outbox[1], "*3\r\n$5\r\nRPUSH\r\n$1\r\nl\r\n$1\r\nx\r\n");
}

#[test]
fn wait_is_bounded() {
    let acks = vec![10u64, 5, 20];
    assert_eq!(wait_count(&acks, 10, 5), 2);
    assert_eq!(wait_count(&acks, 10, 1), 1);
    assert_eq!(wait_count(&acks, 0, 3), 3);
    assert_eq!(wait_count(&acks, 0, 0), 0);
    assert_eq!(wait_count(&vec![], 0, 2), 0);
}

#[test]
fn parser_shapes() {
    assert!(matches!(Command::from_args(&req(&["ping"])), Command::Ping));
    assert!(matches!(Command::from_args(&req(&["GET"])), Command::Invalid));
    assert!(matches!(Command::from_args(&vec![]), Command::Invalid));
    assert!(matches!(Command::from_args(&vec![Data::Int(3)]), Command::Invalid));
    assert!(matches!(Command::from_data(Data::Int(3)), Command::Invalid));
    let c = Command::from_args(&req(&["BLPOP", "a", "b", "2"]));
    assert!(c.is_blocking());
    match c {
        Command::BLPop(keys, ms) => {
            assert_eq!(keys, vec!["a".to_string(), "b".to_string()]);
            assert_eq!(ms, 2000);
        }
        _ => panic!("expected BLPOP"),
    }
    let x = Command::from_args(&req(&["XREAD", "BLOCK", "50", "STREAMS", "s1", "s2", "0-0", "1-1"]));
    assert!(x.is_blocking());
    match x {
        Command::XRead { streams, block } => {
            assert_eq!(block, Some(50));
            assert_eq!(streams, vec![("s1".to_string(), "0-0".to_string()), ("s2".to_string(), "1-1".to_string())]);
        }
        _ => panic!("expected XREAD"),
    }
    assert!(matches!(Command::from_args(&req(&["XREAD", "STREAMS", "s1", "s2", "0-0"])), Command::Invalid));
    assert!(!Command::from_args(&req(&["XREAD", "STREAMS", "s", "0-0"])).is_blocking());
    assert!(matches!(Command::from_args(&req(&["LRANGE", "l", "x", "1"])), Command::Invalid));
}

#[test]
fn raw_command_form() {
    assert_eq!(get_raw_array_command(&req(&["ECHO", "héllo"])), "*2\r\n$4\r\nECHO\r\n$6\r\nhéllo\r\n");
}

#[test]
fn encodes_every_kind() {
    assert_eq!(Data::Int(-42).encode(), ":-42\r\n");
    assert_eq!(Data::NullArray.encode(), "*-1\r\n");
    assert_eq!(Data::Error("ERR x".to_string()).encode(), "-ERR x\r\n");
    let nested = Data::Array(vec![Data::SStr("a".to_string()), Data::Array(vec![Data::Int(1)])]);
    assert_eq!(nested.encode(), "*2\r\n+a\r\n*1\r\n:1\r\n");
}

#[test]
fn numbers_parse() {
    assert_eq!(parse_u64("18446744073709551615"), Some(u64::MAX));
    assert_eq!(parse_u64("18446744073709551616"), None);
    assert_eq!(parse_u64(""), None);
    assert_eq!(parse_u64("1a"), None);
    assert_eq!(parse_i64("-9223372036854775808"), Some(i64::MIN));
    assert_eq!(parse_i64("-12"), Some(-12));
    assert_eq!(parse_i64("9223372036854775808"), None);
    assert_eq!(parse_i64("-"), None);
}

#[test]
fn stream_ids_increase() {
    let mut ctx = ServerContext::new();
    assert_eq!(run(&mut ctx, &["XADD", "s", "1-1", "k", "v"]), "$3\r\n1-1\r\n");
    assert_eq!(
        run(&mut ctx, &["XADD", "s", "1-1", "k", "v"]),
        "-ERR The ID specified in XADD is equal or smaller than the target stream top item\r\n"
    );
    assert_eq!(
        run(&mut ctx, &["XADD", "t", "0-0", "k", "v"]),
        "-ERR The ID specified in XADD must be greater than 0-0\r\n"
    );
    assert_eq!(run(&mut ctx, &["XADD", "s", "1-*", "k", "v"]), "$3\r\n1-2\r\n");
    assert_eq!(run(&mut ctx, &["XADD", "s", "5-*", "k", "v"]), "$3\r\n5-0\r\n");
    assert_eq!(run(&mut ctx, &["XADD", "n", "0-*", "k", "v"]), "$3\r\n0-1\r\n");
    assert_eq!(run(&mut ctx, &["XADD", "s", "*", "k", "v"]), "$6\r\n1000-0\r\n");
    assert_eq!(run(&mut ctx, &["XADD", "s", "*", "k", "v"]), "$6\r\n1000-1\r\n");
    assert_eq!(run(&mut ctx, &["TYPE", "s"]), "+stream\r\n");
    assert!(run(&mut ctx, &["XADD", "s", "abc", "k", "v"]).starts_with("-ERR"));
}

#[test]
fn sorted_set_order_and_rank() {
    let mut ctx = ServerContext::new();
    assert_eq!(run(&mut ctx, &["ZADD", "z", "1", "a"]), ":1\r\n");
    assert_eq!(run(&mut ctx, &["ZADD", "z", "2", "b"]), ":1\r\n");
    assert_eq!(run(&mut ctx, &["ZADD", "z", "3", "c"]), ":1\r\n");
    assert_eq!(run(&mut ctx, &["ZRANGE", "z", "0", "-1"]), "*3\r\n$1\r\na\r\n$1\r\nb\r\n$1\r\nc\r\n");
    assert_eq!(run(&mut ctx, &["ZRANK", "z", "b"]), ":1\r\n");
    assert_eq!(run(&mut ctx, &["TYPE", "z"]), "+zset\r\n");
}

#[test]
fn sorted_set_ties_and_updates() {
    let mut ctx = ServerContext::new();
    run(&mut ctx, &["ZADD", "z", "2.5", "m"]);
    run(&mut ctx, &["ZADD", "z", "2.50", "b"]);
    run(&mut ctx, &["ZADD", "z", "-1", "x"]);
    assert_eq!(run(&mut ctx, &["ZRANGE", "z", "0", "-1"]), "*3\r\n$1\r\nx\r\n$1\r\nb\r\n$1\r\nm\r\n");
    assert_eq!(run(&mut ctx, &["ZADD", "z", "10", "x"]), ":0\r\n");
    assert_eq!(run(&mut ctx, &["ZRANGE", "z", "0", "-1"]), "*3\r\n$1\r\nb\r\n$1\r\nm\r\n$1\r\nx\r\n");
    assert_eq!(run(&mut ctx, &["ZCARD", "z"]), ":3\r\n");
    assert_eq!(run(&mut ctx, &["ZSCORE", "z", "b"]), "$4\r\n2.50\r\n");
    assert_eq!(run(&mut ctx, &["ZSCORE", "z", "nope"]), "$-1\r\n");
    assert_eq!(run(&mut ctx, &["ZREM", "z", "m"]), ":1\r\n");
    assert_eq!(run(&mut ctx, &["ZREM", "z", "m"]), ":0\r\n");
    assert_eq!(run(&mut ctx, &["ZRANGE", "z", "0", "-1"]), "*2\r\n$1\r\nb\r\n$1\r\nx\r\n");
    assert_eq!(run(&mut ctx, &["ZRANK", "z", "m"]), "$-1\r\n");
    assert_eq!(run(&mut ctx, &["ZADD", "z", "abc", "q"]), "-ERR value is not a valid float\r\n");
}

#[test]
fn keys_match_globs() {
    let mut ctx = ServerContext::new();
    run(&mut ctx, &["SET", "hello", "1"]);
    run(&mut ctx, &["SET", "hallo", "1"]);
    run(&mut ctx, &["SET", "hxllo", "1"]);
    run(&mut ctx, &["SET", "world", "1"]);
    assert_eq!(run(&mut ctx, &["KEYS", "h[ae]llo"]), "*2\r\n$5\r\nhello\r\n$5\r\nhallo\r\n");
    assert_eq!(run(&mut ctx, &["KEYS", "h?llo"]), "*3\r\n$5\r\nhello\r\n$5\r\nhallo\r\n$5\r\nhxllo\r\n");
    assert_eq!(run(&mut ctx, &["KEYS", "*"]).lines().next(), Some("*4"));
    assert_eq!(run(&mut ctx, &["KEYS", "w*d"]), "*1\r\n$5\r\nworld\r\n");
    assert_eq!(run(&mut ctx, &["KEYS", "nothing*"]), "*0\r\n");
}

#[test]
fn glob_edge_cases() {
    assert!(glob_match("", ""));
    assert!(!glob_match("", "a"));
    assert!(glob_match("*", ""));
    assert!(glob_match("a*b*c", "axxbyyc"));
    assert!(!glob_match("a*b*c", "axxbyy"));
    assert!(glob_match("[abc]", "b"));
    assert!(!glob_match("[abc]", "d"));
    assert!(glob_match("[ab", "[ab"));
}

#[test]
fn xrange_bounds() {
    let mut ctx = ServerContext::new();
    run(&mut ctx, &["XADD", "s", "1-1", "a", "1"]);
    run(&mut ctx, &["XADD", "s", "2-0", "b", "2"]);
    run(&mut ctx, &["XADD", "s", "2-5", "c", "3"]);
    assert_eq!(
        run(&mut ctx, &["XRANGE", "s", "-", "+"]),
        "*3\r\n*2\r\n$3\r\n1-1\r\n*2\r\n$1\r\na\r\n$1\r\n1\r\n*2\r\n$3\r\n2-0\r\n*2\r\n$1\r\nb\r\n$1\r\n2\r\n*2\r\n$3\r\n2-5\r\n*2\r\n$1\r\nc\r\n$1\r\n3\r\n"
    );
    assert_eq!(
        run(&mut ctx, &["XRANGE", "s", "2", "2"]),
        "*2\r\n*2\r\n$3\r\n2-0\r\n*2\r\n$1\r\nb\r\n$1\r\n2\r\n*2\r\n$3\r\n2-5\r\n*2\r\n$1\r\nc\r\n$1\r\n3\r\n"
    );
    assert_eq!(run(&mut ctx, &["XRANGE", "s", "1-2", "1-9"]), "*0\r\n");
    assert!(run(&mut ctx, &["XRANGE", "s", "x", "+"]).starts_with("-ERR"));
}

#[test]
fn decode_frames() {
    let bytes = b"*2\r\n$4\r\nECHO\r\n$2\r\nhi\r\n".to_vec();
    match decode(&bytes, 0, 8) {
        Decoded::Frame(d, end) => {
            assert_eq!(end, bytes.len());
            assert_eq!(d.encode(), "*2\r\n$4\r\nECHO\r\n$2\r\nhi\r\n");
        }
        _ => panic!("expected a frame"),
    }
    assert!(matches!(decode(&b"*2\r\n$4\r\nEC".to_vec(), 0, 8), Decoded::Incomplete));
    assert!(matches!(decode(&b"$x\r\n".to_vec(), 0, 8), Decoded::Malformed));
    assert!(matches!(decode(&b":-7\r\n".to_vec(), 0, 8), Decoded::Frame(Data::Int(-7), 5)));
}

#[test]
fn xread_after_id() {
    let mut ctx = ServerContext::new();
    run(&mut ctx, &["XADD", "s", "1-1", "a", "1"]);
    run(&mut ctx, &["XADD", "s", "2-0", "b", "2"]);
    assert_eq!(
        run(&mut ctx, &["XREAD", "STREAMS", "s", "1-1"]),
        "*1\r\n*2\r\n$1\r\ns\r\n*1\r\n*2\r\n$3\r\n2-0\r\n*2\r\n$1\r\nb\r\n$1\r\n2\r\n"
    );
    assert_eq!(run(&mut ctx, &["XREAD", "STREAMS", "s", "2-0"]), "*-1\r\n");
    assert_eq!(run(&mut ctx, &["XREAD", "STREAMS", "s", "$"]), "*-1\r\n");
}

#[test]
fn numeric_text() {
    assert!(redis_core::number::is_number("-1.5"));
    assert!(!redis_core::number::is_number(""));
    assert!(!redis_core::number::is_number("1e5"));
}

#[test]
fn blpop_fractional_timeout() {
    match Command::from_args(&req(&["BLPOP", "k", "0.25"])) {
        Command::BLPop(keys, ms) => {
            assert_eq!(keys, vec!["k".to_string()]);
            assert_eq!(ms, 250);
        }
        _ => panic!("expected BLPOP"),
    }
    match Command::from_args(&req(&["BLPOP", "k", "1.5"])) {
        Command::BLPop(_, ms) => assert_eq!(ms, 1500),
        _ => panic!("expected BLPOP"),
    }
    assert!(matches!(Command::from_args(&req(&["BLPOP", "k"])), Command::Invalid));
    assert!(matches!(Command::from_args(&req(&["BLPOP", "k", "x"])), Command::Invalid));
}

#[test]
fn xread_needs_streams_keyword() {
    assert!(matches!(Command::from_args(&req(&["XREAD", "STREAMS"])), Command::Invalid));
    assert!(matches!(Command::from_args(&req(&["XREAD", "s", "0-0"])), Command::Invalid));
    assert!(matches!(Command::from_args(&req(&["FROB", "x"])), Command::Invalid));
}

#[test]
fn numbers_follow_grammar() {
    assert!(redis_core::number::is_number("-12.5"));
    assert!(!redis_core::number::is_number("1-2"));
    assert!(!redis_core::number::is_number("1.2.3"));
    assert!(!redis_core::number::is_number("-"));
}

#[test]
fn zrem_is_propagated() {
    let mut ctx = ServerContext::new();
    run(&mut ctx, &["ZADD", "z", "1", "a"]);
    run(&mut ctx, &["ZREM", "z", "a"]);
    assert_eq!(ctx.outbox.len(), 2);
    assert_eq!(ctx.outbox[1], "*3\r\n$4\r\nZREM\r\n$1\r\nz\r\n$1\r\na\r\n");
}

#[test]
fn blpop_step_takes_first_nonempty() {
    let mut ctx = ServerContext::new();
    run(&mut ctx, &["RPUSH", "b", "x", "y"]);
    let keys = vec!["a".to_string(), "b".to_string()];
    assert_eq!(ctx.blpop_step(&keys, 1000), Some(("b".to_string(), "x".to_string())));
    assert_eq!(run(&mut ctx, &["LRANGE", "b", "0", "-1"]), "*1\r\n$1\r\ny\r\n");
    assert_eq!(ctx.outbox.last().map(|s| s.as_str()), Some("*2\r\n$4\r\nLPOP\r\n$1\r\nb\r\n"));
    assert_eq!(ctx.blpop_step(&vec!["a".to_string()], 1000), None);
}
