use vstd::prelude::*;
use crate::number::{digits_value, is_digits, is_signed_digits, parse_i64, parse_seconds_ms, parse_u64, seconds_ms, signed_value};
use crate::resp::{crlf, encode, encode_items, int_chars, Data};

verus! {

/// A request decoded into its operands.
pub enum Command {
    Ping,
    Echo(String),
    Get(String),
    SetKey { key: String, value: String, expiry_ms: Option<u64>, raw_command: String },
    ConfigGet(String),
    Keys(String),
    Info,
    Psync(String, String),
    Replconf,
    ReplconfGetAck(String),
    ReplconfAck(u64),
    Wait { num_replicas: i64, timeout: u64 },
    Type(String),
    XAdd { key: String, id: String, entry: (String, String), raw_command: String },
    XRange { key: String, start: String, end: String },
    XRead { streams: Vec<(String, String)>, block: Option<u64> },
    Incr { key: String, raw_command: String },
    Multi,
    Exec,
    Invalid,
    Discard,
    ListPush { key: String, values: Vec<String>, is_left: bool, raw_command: String },
    LRange { key: String, start: i64, end: i64 },
    LLen(String),
    LPop(String, u64),
    BLPop(Vec<String>, u64),
    Subscribe(String),
    Publish(String, String),
    ZAdd { key: String, score: String, member: String, raw_command: String },
    ZRank { key: String, member: String },
    ZRange { key: String, start: i64, end: i64 },
    ZCard(String),
    ZScore(String, String),
    ZRem { key: String, member: String, raw_command: String },
    Geoadd { key: String, longitude: String, latitude: String, member: String },
    Geopos { key: String, members: Vec<String> },
    Geodist { key: String, from: String, to: String },
    Geosearch { key: String, longitude: String, latitude: String, radius: String, unit: String },
    Acl(String, Vec<String>),
}

pub open spec fn upper_char(c: char) -> char {
    if 'a' <= c && c <= 'z' {
        ((c as u32) - 32) as char
    } else {
        c
    }
}

/// ASCII upper case of a text.
pub open spec fn upper(s: Seq<char>) -> Seq<char> {
    s.map_values(|c: char| upper_char(c))
}

pub open spec fn is_bulk(d: Data) -> bool {
    d is BStr
}

pub open spec fn bulk(d: Data) -> Seq<char> {
    d->BStr_0@
}

/// Every datum from index `from` on is a bulk string.
pub open spec fn all_bulk_from(a: Seq<Data>, from: int) -> bool {
    forall|i: int| from <= i < a.len() ==> is_bulk(#[trigger] a[i])
}

/// The request's first datum is a bulk string naming `name`, in any letter case,
/// and the request has exactly `n` datums, all bulk strings.
pub open spec fn shape(a: Seq<Data>, name: Seq<char>, n: int) -> bool {
    &&& a.len() == n
    &&& all_bulk_from(a, 0)
    &&& upper(bulk(a[0])) == name
}

/// Canonical wire form of a request: an array of its bulk strings.
pub open spec fn raw_form(a: Seq<Data>) -> Seq<char> {
    seq!['*'] + int_chars(a.len() as int) + crlf() + encode_items(a)
}

/// The texts of a sequence of strings.
pub open spec fn texts(v: Seq<String>) -> Seq<Seq<char>> {
    v.map_values(|s: String| s@)
}

/// The texts of the bulk strings of `a` from index `from` on, in order.
pub open spec fn bulks_from(a: Seq<Data>, from: int) -> Seq<Seq<char>> {
    a.subrange(from, a.len() as int).map_values(|d: Data| bulk(d))
}

/// The name of a command this parser knows, in upper case.
pub open spec fn known_name(n: Seq<char>) -> bool {
    n == "PING"@
    || n == "ECHO"@
    || n == "GET"@
    || n == "SET"@
    || n == "TYPE"@
    || n == "INCR"@
    || n == "RPUSH"@
    || n == "LPUSH"@
    || n == "LRANGE"@
    || n == "LLEN"@
    || n == "LPOP"@
    || n == "XADD"@
    || n == "ZADD"@
    || n == "ZRANK"@
    || n == "ZRANGE"@
    || n == "ZCARD"@
    || n == "ZSCORE"@
    || n == "ZREM"@
    || n == "MULTI"@
    || n == "EXEC"@
    || n == "DISCARD"@
    || n == "WAIT"@
    || n == "CONFIG"@
    || n == "KEYS"@
    || n == "INFO"@
    || n == "PSYNC"@
    || n == "REPLCONF"@
    || n == "XRANGE"@
    || n == "XREAD"@
    || n == "BLPOP"@
    || n == "SUBSCRIBE"@
    || n == "PUBLISH"@
    || n == "GEOADD"@
    || n == "GEOPOS"@
    || n == "GEODIST"@
    || n == "GEOSEARCH"@
    || n == "ACL"@
}

/// The texts of the bulk strings of `a` from index `from` up to `to`, excluded.
pub open spec fn bulks_between(a: Seq<Data>, from: int, to: int) -> Seq<Seq<char>> {
    a.subrange(from, to).map_values(|d: Data| bulk(d))
}

/// What `XREAD [BLOCK ms] STREAMS key.. id..` decodes to: the keys and the ids
/// are the two equal halves of what follows `STREAMS`, paired in order.
pub open spec fn xread_decoded(a: Seq<Data>, r: Command) -> bool {
    let has_block = a.len() >= 3 && upper(bulk(a[1])) == "BLOCK"@;
    let s: int = if has_block { 3 } else { 1 };
    let m: int = (a.len() - s - 1) / 2;
    if has_block && !(is_digits(bulk(a[2])) && digits_value(bulk(a[2])) <= u64::MAX) {
        r is Invalid
    } else if s < a.len() && upper(bulk(a[s])) == "STREAMS"@ && (a.len() - s - 1) % 2 == 0 && a.len() - s - 1 >= 2 {
        r matches Command::XRead { streams, block }
            && block == (if has_block { Some(digits_value(bulk(a[2])) as u64) } else { None })
            && streams@.len() == m
            && forall|i: int| 0 <= i < m ==> (#[trigger] streams@[i]).0@ == bulk(a[s + 1 + i])
                && streams@[i].1@ == bulk(a[s + 1 + m + i])
    } else {
        r is Invalid
    }
}

/// What `BLPOP key.. timeout` decodes to: at least one key, and the timeout in
/// seconds, possibly fractional, as milliseconds.
pub open spec fn blpop_decoded(a: Seq<Data>, r: Command) -> bool {
    if a.len() >= 3 && (seconds_ms(bulk(a[a.len() - 1])) matches Some(v) && v <= u64::MAX) {
        r matches Command::BLPop(keys, t) && texts(keys@) == bulks_between(a, 1, a.len() - 1)
            && t == seconds_ms(bulk(a[a.len() - 1]))->Some_0
    } else {
        r is Invalid
    }
}

/// What a request of one of the data commands decodes to.
pub open spec fn decodes_to(a: Seq<Data>, r: Command) -> bool {
    &&& (a.len() == 0 || !is_bulk(a[0])) ==> r is Invalid
    &&& shape(a, "PING"@, 1) ==> r is Ping
    &&& shape(a, "ECHO"@, 2) ==> (r matches Command::Echo(v) && v@ == bulk(a[1]))
    &&& shape(a, "GET"@, 2) ==> (r matches Command::Get(k) && k@ == bulk(a[1]))
    &&& shape(a, "SET"@, 3) ==> (r matches Command::SetKey { key, value, expiry_ms, raw_command }
        && key@ == bulk(a[1]) && value@ == bulk(a[2]) && expiry_ms is None
        && raw_command@ == raw_form(a))
    &&& (shape(a, "SET"@, 5) && upper(bulk(a[3])) == "PX"@) ==> (
        if is_digits(bulk(a[4])) && digits_value(bulk(a[4])) <= u64::MAX {
            r matches Command::SetKey { key, value, expiry_ms, raw_command }
            && key@ == bulk(a[1]) && value@ == bulk(a[2])
            && expiry_ms == Some(digits_value(bulk(a[4])) as u64)
            && raw_command@ == raw_form(a)
        } else {
            r is Invalid
        })
    &&& shape(a, "TYPE"@, 2) ==> (r matches Command::Type(k) && k@ == bulk(a[1]))
    &&& shape(a, "INCR"@, 2) ==> (r matches Command::Incr { key, raw_command }
        && key@ == bulk(a[1]) && raw_command@ == raw_form(a))
    &&& (a.len() >= 2 && all_bulk_from(a, 0) && (upper(bulk(a[0])) == "RPUSH"@
        || upper(bulk(a[0])) == "LPUSH"@)) ==> (
        r matches Command::ListPush { key, values, is_left, raw_command }
        && key@ == bulk(a[1]) && texts(values@) == bulks_from(a, 2)
        && is_left == (upper(bulk(a[0])) == "LPUSH"@) && raw_command@ == raw_form(a))
    &&& shape(a, "LRANGE"@, 4) ==> (
        if is_signed_digits(bulk(a[2])) && is_signed_digits(bulk(a[3]))
            && i64::MIN <= signed_value(bulk(a[2])) <= i64::MAX
            && i64::MIN <= signed_value(bulk(a[3])) <= i64::MAX {
            r matches Command::LRange { key, start, end } && key@ == bulk(a[1])
            && start == signed_value(bulk(a[2])) && end == signed_value(bulk(a[3]))
        } else {
            r is Invalid
        })
    &&& shape(a, "LLEN"@, 2) ==> (r matches Command::LLen(k) && k@ == bulk(a[1]))
    &&& shape(a, "LPOP"@, 2) ==> (r matches Command::LPop(k, c) && k@ == bulk(a[1]) && c == 1)
    &&& shape(a, "LPOP"@, 3) ==> (
        if is_digits(bulk(a[2])) && digits_value(bulk(a[2])) <= u64::MAX {
            r matches Command::LPop(k, c) && k@ == bulk(a[1]) && c == digits_value(bulk(a[2]))
        } else {
            r is Invalid
        })
    &&& shape(a, "XADD"@, 5) ==> (r matches Command::XAdd { key, id, entry, raw_command }
        && key@ == bulk(a[1]) && id@ == bulk(a[2]) && entry.0@ == bulk(a[3])
        && entry.1@ == bulk(a[4]) && raw_command@ == raw_form(a))
    &&& shape(a, "ZADD"@, 4) ==> (r matches Command::ZAdd { key, score, member, raw_command }
        && key@ == bulk(a[1]) && score@ == bulk(a[2]) && member@ == bulk(a[3])
        && raw_command@ == raw_form(a))
    &&& shape(a, "ZRANK"@, 3) ==> (r matches Command::ZRank { key, member }
        && key@ == bulk(a[1]) && member@ == bulk(a[2]))
    &&& shape(a, "ZRANGE"@, 4) ==> (
        if is_signed_digits(bulk(a[2])) && is_signed_digits(bulk(a[3]))
            && i64::MIN <= signed_value(bulk(a[2])) <= i64::MAX
            && i64::MIN <= signed_value(bulk(a[3])) <= i64::MAX {
            r matches Command::ZRange { key, start, end } && key@ == bulk(a[1])
            && start == signed_value(bulk(a[2])) && end == signed_value(bulk(a[3]))
        } else {
            r is Invalid
        })
    &&& shape(a, "ZCARD"@, 2) ==> (r matches Command::ZCard(k) && k@ == bulk(a[1]))
    &&& shape(a, "ZSCORE"@, 3) ==> (r matches Command::ZScore(k, m) && k@ == bulk(a[1])
        && m@ == bulk(a[2]))
    &&& shape(a, "ZREM"@, 3) ==> (r matches Command::ZRem { key, member, raw_command } && key@ == bulk(a[1])
        && member@ == bulk(a[2]) && raw_command@ == raw_form(a))
    &&& (a.len() >= 1 && all_bulk_from(a, 0) && !known_name(upper(bulk(a[0])))) ==> r is Invalid
    &&& (a.len() >= 1 && all_bulk_from(a, 0) && upper(bulk(a[0])) == "XREAD"@) ==> xread_decoded(a, r)
    &&& (a.len() >= 1 && all_bulk_from(a, 0) && upper(bulk(a[0])) == "BLPOP"@) ==> blpop_decoded(a, r)
    &&& shape(a, "GEOADD"@, 5) ==> (r matches Command::Geoadd { key, longitude, latitude, member }
        && key@ == bulk(a[1]) && longitude@ == bulk(a[2]) && latitude@ == bulk(a[3]) && member@ == bulk(a[4]))
    &&& (a.len() >= 2 && all_bulk_from(a, 0) && upper(bulk(a[0])) == "GEOPOS"@) ==> (
        r matches Command::Geopos { key, members } && key@ == bulk(a[1]) && texts(members@) == bulks_from(a, 2))
    &&& shape(a, "GEODIST"@, 4) ==> (r matches Command::Geodist { key, from, to }
        && key@ == bulk(a[1]) && from@ == bulk(a[2]) && to@ == bulk(a[3]))
    &&& shape(a, "GEOSEARCH"@, 8) ==> (r matches Command::Geosearch { key, longitude, latitude, radius, unit }
        && key@ == bulk(a[1]) && longitude@ == bulk(a[3]) && latitude@ == bulk(a[4])
        && radius@ == bulk(a[6]) && unit@ == bulk(a[7]))
    &&& shape(a, "KEYS"@, 2) ==> (r matches Command::Keys(p) && p@ == bulk(a[1]))
    &&& shape(a, "XRANGE"@, 4) ==> (r matches Command::XRange { key, start, end }
        && key@ == bulk(a[1]) && start@ == bulk(a[2]) && end@ == bulk(a[3]))
    &&& shape(a, "SUBSCRIBE"@, 2) ==> (r matches Command::Subscribe(c) && c@ == bulk(a[1]))
    &&& shape(a, "PUBLISH"@, 3) ==> (r matches Command::Publish(c, m) && c@ == bulk(a[1]) && m@ == bulk(a[2]))
    &&& shape(a, "PSYNC"@, 3) ==> (r matches Command::Psync(i, o) && i@ == bulk(a[1]) && o@ == bulk(a[2]))
    &&& (a.len() >= 2 && all_bulk_from(a, 0) && upper(bulk(a[0])) == "ACL"@) ==> (
        r matches Command::Acl(c, args) && c@ == bulk(a[1]) && texts(args@) == bulks_from(a, 2))
    &&& shape(a, "CONFIG"@, 3) ==> (if upper(bulk(a[1])) == "GET"@ {
            r matches Command::ConfigGet(k) && k@ == bulk(a[2])
        } else {
            r is Invalid
        })
    &&& shape(a, "INFO"@, 2) ==> (if upper(bulk(a[1])) == "REPLICATION"@ { r is Info } else { r is Invalid })
    &&& (a.len() >= 1 && all_bulk_from(a, 0) && upper(bulk(a[0])) == "REPLCONF"@) ==> (
        if a.len() >= 3 && upper(bulk(a[1])) == "GETACK"@ && bulk(a[2]) == seq!['*'] {
            r matches Command::ReplconfGetAck(x) && x@ == seq!['*']
        } else if a.len() >= 3 && upper(bulk(a[1])) == "ACK"@ && is_digits(bulk(a[2]))
            && digits_value(bulk(a[2])) <= u64::MAX {
            r matches Command::ReplconfAck(o) && o == digits_value(bulk(a[2]))
        } else {
            r is Replconf
        })
    &&& (a.len() >= 1 && all_bulk_from(a, 0) && upper(bulk(a[0])) == "MULTI"@) ==> r is Multi
    &&& (a.len() >= 1 && all_bulk_from(a, 0) && upper(bulk(a[0])) == "EXEC"@) ==> r is Exec
    &&& (a.len() >= 1 && all_bulk_from(a, 0) && upper(bulk(a[0])) == "DISCARD"@) ==> r is Discard
    &&& shape(a, "WAIT"@, 3) ==> (
        if is_signed_digits(bulk(a[1])) && i64::MIN <= signed_value(bulk(a[1])) <= i64::MAX
            && is_digits(bulk(a[2])) && digits_value(bulk(a[2])) <= u64::MAX {
            r matches Command::Wait { num_replicas, timeout }
            && num_replicas == signed_value(bulk(a[1])) && timeout == digits_value(bulk(a[2]))
        } else {
            r is Invalid
        })
}

/// Compares a command name with an upper-case literal, ignoring ASCII letter case.
fn name_is(name: &str, lit: &str) -> (r: bool)
    ensures
        r == (upper(name@) == lit@),
{
    let n = name.unicode_len();
    let m = lit.unicode_len();
    if n != m {
        proof {
            assert(upper(name@).len() == n);
        }
        return false;
    }
    let mut i: usize = 0;
    while i < n
        invariant
            n == name@.len(),
            m == lit@.len(),
            n == m,
            0 <= i <= n,
            forall|j: int| 0 <= j < i ==> upper_char(#[trigger] name@[j]) == lit@[j],
        decreases n - i,
    {
        let c = name.get_char(i);
        let u = if 'a' <= c && c <= 'z' {
            ((c as u32) - 32) as u8 as char
        } else {
            c
        };
        proof {
            if 'a' <= c && c <= 'z' {
                assert(((c as u32) - 32) as u8 as char == ((c as u32) - 32) as char);
            }
        }
        if u != lit.get_char(i) {
            proof {
                assert(upper(name@)[i as int] != lit@[i as int]);
            }
            return false;
        }
        i = i + 1;
    }
    proof {
        assert(upper(name@) =~= lit@);
    }
    true
}

/// Checks that every datum is a bulk string.
fn all_bulk(val: &Vec<Data>) -> (r: bool)
    ensures
        r == all_bulk_from(val@, 0),
{
    let mut i: usize = 0;
    while i < val.len()
        invariant
            0 <= i <= val@.len(),
            forall|j: int| 0 <= j < i ==> is_bulk(#[trigger] val@[j]),
        decreases val@.len() - i,
    {
        match &val[i] {
            Data::BStr(_) => {},
            _ => {
                return false;
            },
        }
        i = i + 1;
    }
    true
}

/// The text of the bulk string at index `i`.
fn arg(val: &Vec<Data>, i: usize) -> (r: String)
    requires
        i < val@.len(),
        all_bulk_from(val@, 0),
    ensures
        r@ == bulk(val@[i as int]),
{
    match &val[i] {
        Data::BStr(s) => s.clone(),
        _ => {
            proof {
                assert(is_bulk(val@[i as int]));
            }
            String::new()
        },
    }
}

/// The texts of the bulk strings from index `from` on.
pub fn parse_string_args(val: &Vec<Data>, from: usize) -> (r: Vec<String>)
    requires
        from <= val@.len(),
        all_bulk_from(val@, 0),
    ensures
        texts(r@) == bulks_from(val@, from as int),
{
    let mut out: Vec<String> = Vec::new();
    let mut i: usize = from;
    while i < val.len()
        invariant
            from <= i <= val@.len(),
            all_bulk_from(val@, 0),
            out@.len() == i - from,
            forall|j: int| 0 <= j < out@.len() ==> (#[trigger] out@[j])@ == bulk(val@[from + j]),
        decreases val@.len() - i,
    {
        let a = arg(val, i);
        out.push(a);
        i = i + 1;
    }
    proof {
        assert(texts(out@) =~= bulks_from(val@, from as int));
    }
    out
}

/// Canonical wire form of a request: the array of its datums.
pub fn get_raw_array_command(val: &Vec<Data>) -> (r: String)
    ensures
        r@ == raw_form(val@),
{
    let mut out = String::new();
    proof {
        reveal_strlit("*");
        reveal_strlit("\r\n");
    }
    out.append("*");
    let t = crate::resp::count_text(val.len());
    out.append(t.as_str());
    out.append("\r\n");
    proof {
        assert(val@.subrange(0, 0) =~= Seq::<Data>::empty());
        assert(out@ =~= seq!['*'] + int_chars(val@.len() as int) + crlf() + encode_items(val@.subrange(0, 0)));
    }
    let mut i: usize = 0;
    while i < val.len()
        invariant
            0 <= i <= val@.len(),
            out@ == seq!['*'] + int_chars(val@.len() as int) + crlf() + encode_items(val@.subrange(0, i as int)),
        decreases val@.len() - i,
    {
        let e = val[i].encode();
        out.append(e.as_str());
        proof {
            let s = val@.subrange(0, i + 1);
            assert(s.drop_last() =~= val@.subrange(0, i as int));
            assert(s.last() == val@[i as int]);
        }
        i = i + 1;
    }
    proof {
        assert(val@.subrange(0, val@.len() as int) =~= val@);
    }
    out
}

/// Reads `XREAD [BLOCK ms] STREAMS key.. id..`: the keys and the ids are the two
/// halves of what follows `STREAMS`, paired in order.
fn parse_xread(val: &Vec<Data>) -> (r: Command)
    requires
        val@.len() >= 1,
        all_bulk_from(val@, 0),
        upper(bulk(val@[0])) == "XREAD"@,
    ensures
        r is XRead || r is Invalid,
        decodes_to(val@, r),
{
    proof {
        lemma_names_distinct();
        reveal_strlit("BLOCK");
        reveal_strlit("STREAMS");
    }
    let n = val.len();
    let mut start: usize = 1;
    let mut block: Option<u64> = None;
    if n >= 3 && name_is(arg(val, 1).as_str(), "BLOCK") {
        match parse_u64(arg(val, 2).as_str()) {
            Some(v) => {
                block = Some(v);
                start = 3;
            },
            None => {
                return Command::Invalid;
            },
        }
    }
    if start >= n || !name_is(arg(val, start).as_str(), "STREAMS") {
        return Command::Invalid;
    }
    let rest = n - start - 1;
    if rest % 2 != 0 || rest < 2 {
        return Command::Invalid;
    }
    let mid = rest / 2;
    let ghost s0 = start as int;
    let mut streams: Vec<(String, String)> = Vec::new();
    let mut i: usize = 0;
    while i < mid
        invariant
            start + 1 + 2 * mid == n,
            n == val@.len(),
            all_bulk_from(val@, 0),
            0 <= i <= mid,
            streams@.len() == i,
            forall|j: int| 0 <= j < i ==> (#[trigger] streams@[j]).0@ == bulk(val@[start + 1 + j])
                && streams@[j].1@ == bulk(val@[start + 1 + mid + j]),
        decreases mid - i,
    {
        let k = arg(val, start + 1 + i);
        let id = arg(val, start + 1 + mid + i);
        streams.push((k, id));
        i = i + 1;
    }
    Command::XRead { streams, block }
}

/// Reads `BLPOP key.. timeout`, the timeout in seconds, possibly fractional, to
/// milliseconds.
fn parse_blpop(val: &Vec<Data>) -> (r: Command)
    requires
        val@.len() >= 1,
        all_bulk_from(val@, 0),
        upper(bulk(val@[0])) == "BLPOP"@,
    ensures
        r is BLPop || r is Invalid,
        decodes_to(val@, r),
{
    proof {
        lemma_names_distinct();
    }
    let n = val.len();
    if n < 3 {
        return Command::Invalid;
    }
    let t = arg(val, n - 1);
    let ms = match parse_seconds_ms(t.as_str()) {
        Some(ms) => ms,
        None => {
            return Command::Invalid;
        },
    };
    let mut keys: Vec<String> = Vec::new();
    let mut i: usize = 1;
    while i < n - 1
        invariant
            n == val@.len(),
            n >= 3,
            all_bulk_from(val@, 0),
            1 <= i <= n - 1,
            keys@.len() == i - 1,
            forall|j: int| 0 <= j < keys@.len() ==> (#[trigger] keys@[j])@ == bulk(val@[1 + j]),
        decreases n - 1 - i,
    {
        keys.push(arg(val, i));
        i = i + 1;
    }
    proof {
        assert(texts(keys@) =~= bulks_between(val@, 1, n - 1));
    }
    Command::BLPop(keys, ms)
}

/// The command names are distinct texts.
proof fn lemma_names_distinct()
    ensures
        "PING"@ != "ECHO"@,
        "PING"@ != "TYPE"@,
        "PING"@ != "INCR"@,
        "PING"@ != "LLEN"@,
        "PING"@ != "LPOP"@,
        "PING"@ != "XADD"@,
        "PING"@ != "ZADD"@,
        "PING"@ != "ZREM"@,
        "PING"@ != "EXEC"@,
        "PING"@ != "WAIT"@,
        "PING"@ != "KEYS"@,
        "PING"@ != "INFO"@,
        "ECHO"@ != "TYPE"@,
        "ECHO"@ != "INCR"@,
        "ECHO"@ != "LLEN"@,
        "ECHO"@ != "LPOP"@,
        "ECHO"@ != "XADD"@,
        "ECHO"@ != "ZADD"@,
        "ECHO"@ != "ZREM"@,
        "ECHO"@ != "EXEC"@,
        "ECHO"@ != "WAIT"@,
        "ECHO"@ != "KEYS"@,
        "ECHO"@ != "INFO"@,
        "GET"@ != "SET"@,
        "GET"@ != "ACL"@,
        "SET"@ != "ACL"@,
        "TYPE"@ != "INCR"@,
        "TYPE"@ != "LLEN"@,
        "TYPE"@ != "LPOP"@,
        "TYPE"@ != "XADD"@,
        "TYPE"@ != "ZADD"@,
        "TYPE"@ != "ZREM"@,
        "TYPE"@ != "EXEC"@,
        "TYPE"@ != "WAIT"@,
        "TYPE"@ != "KEYS"@,
        "TYPE"@ != "INFO"@,
        "INCR"@ != "LLEN"@,
        "INCR"@ != "LPOP"@,
        "INCR"@ != "XADD"@,
        "INCR"@ != "ZADD"@,
        "INCR"@ != "ZREM"@,
        "INCR"@ != "EXEC"@,
        "INCR"@ != "WAIT"@,
        "INCR"@ != "KEYS"@,
        "INCR"@ != "INFO"@,
        "RPUSH"@ != "LPUSH"@,
        "RPUSH"@ != "ZRANK"@,
        "RPUSH"@ != "ZCARD"@,
        "RPUSH"@ != "MULTI"@,
        "RPUSH"@ != "PSYNC"@,
        "RPUSH"@ != "XREAD"@,
        "RPUSH"@ != "BLPOP"@,
        "LPUSH"@ != "ZRANK"@,
        "LPUSH"@ != "ZCARD"@,
        "LPUSH"@ != "MULTI"@,
        "LPUSH"@ != "PSYNC"@,
        "LPUSH"@ != "XREAD"@,
        "LPUSH"@ != "BLPOP"@,
        "LRANGE"@ != "ZRANGE"@,
        "LRANGE"@ != "ZSCORE"@,
        "LRANGE"@ != "CONFIG"@,
        "LRANGE"@ != "XRANGE"@,
        "LRANGE"@ != "GEOADD"@,
        "LRANGE"@ != "GEOPOS"@,
        "LLEN"@ != "LPOP"@,
        "LLEN"@ != "XADD"@,
        "LLEN"@ != "ZADD"@,
        "LLEN"@ != "ZREM"@,
        "LLEN"@ != "EXEC"@,
        "LLEN"@ != "WAIT"@,
        "LLEN"@ != "KEYS"@,
        "LLEN"@ != "INFO"@,
        "LPOP"@ != "XADD"@,
        "LPOP"@ != "ZADD"@,
        "LPOP"@ != "ZREM"@,
        "LPOP"@ != "EXEC"@,
        "LPOP"@ != "WAIT"@,
        "LPOP"@ != "KEYS"@,
        "LPOP"@ != "INFO"@,
        "XADD"@ != "ZADD"@,
        "XADD"@ != "ZREM"@,
        "XADD"@ != "EXEC"@,
        "XADD"@ != "WAIT"@,
        "XADD"@ != "KEYS"@,
        "XADD"@ != "INFO"@,
        "ZADD"@ != "ZREM"@,
        "ZADD"@ != "EXEC"@,
        "ZADD"@ != "WAIT"@,
        "ZADD"@ != "KEYS"@,
        "ZADD"@ != "INFO"@,
        "ZRANK"@ != "ZCARD"@,
        "ZRANK"@ != "MULTI"@,
        "ZRANK"@ != "PSYNC"@,
        "ZRANK"@ != "XREAD"@,
        "ZRANK"@ != "BLPOP"@,
        "ZRANGE"@ != "ZSCORE"@,
        "ZRANGE"@ != "CONFIG"@,
        "ZRANGE"@ != "XRANGE"@,
        "ZRANGE"@ != "GEOADD"@,
        "ZRANGE"@ != "GEOPOS"@,
        "ZCARD"@ != "MULTI"@,
        "ZCARD"@ != "PSYNC"@,
        "ZCARD"@ != "XREAD"@,
        "ZCARD"@ != "BLPOP"@,
        "ZSCORE"@ != "CONFIG"@,
        "ZSCORE"@ != "XRANGE"@,
        "ZSCORE"@ != "GEOADD"@,
        "ZSCORE"@ != "GEOPOS"@,
        "ZREM"@ != "EXEC"@,
        "ZREM"@ != "WAIT"@,
        "ZREM"@ != "KEYS"@,
        "ZREM"@ != "INFO"@,
        "MULTI"@ != "PSYNC"@,
        "MULTI"@ != "XREAD"@,
        "MULTI"@ != "BLPOP"@,
        "EXEC"@ != "WAIT"@,
        "EXEC"@ != "KEYS"@,
        "EXEC"@ != "INFO"@,
        "DISCARD"@ != "PUBLISH"@,
        "DISCARD"@ != "GEODIST"@,
        "WAIT"@ != "KEYS"@,
        "WAIT"@ != "INFO"@,
        "CONFIG"@ != "XRANGE"@,
        "CONFIG"@ != "GEOADD"@,
        "CONFIG"@ != "GEOPOS"@,
        "KEYS"@ != "INFO"@,
        "PSYNC"@ != "XREAD"@,
        "PSYNC"@ != "BLPOP"@,
        "XRANGE"@ != "GEOADD"@,
        "XRANGE"@ != "GEOPOS"@,
        "XREAD"@ != "BLPOP"@,
        "SUBSCRIBE"@ != "GEOSEARCH"@,
        "PUBLISH"@ != "GEODIST"@,
        "GEOADD"@ != "GEOPOS"@,
        "PING"@.len() == 4,
        "ECHO"@.len() == 4,
        "GET"@.len() == 3,
        "SET"@.len() == 3,
        "TYPE"@.len() == 4,
        "INCR"@.len() == 4,
        "RPUSH"@.len() == 5,
        "LPUSH"@.len() == 5,
        "LRANGE"@.len() == 6,
        "LLEN"@.len() == 4,
        "LPOP"@.len() == 4,
        "XADD"@.len() == 4,
        "ZADD"@.len() == 4,
        "ZRANK"@.len() == 5,
        "ZRANGE"@.len() == 6,
        "ZCARD"@.len() == 5,
        "ZSCORE"@.len() == 6,
        "ZREM"@.len() == 4,
        "MULTI"@.len() == 5,
        "EXEC"@.len() == 4,
        "DISCARD"@.len() == 7,
        "WAIT"@.len() == 4,
        "CONFIG"@.len() == 6,
        "KEYS"@.len() == 4,
        "INFO"@.len() == 4,
        "PSYNC"@.len() == 5,
        "REPLCONF"@.len() == 8,
        "XRANGE"@.len() == 6,
        "XREAD"@.len() == 5,
        "BLPOP"@.len() == 5,
        "SUBSCRIBE"@.len() == 9,
        "PUBLISH"@.len() == 7,
        "GEOADD"@.len() == 6,
        "GEOPOS"@.len() == 6,
        "GEODIST"@.len() == 7,
        "GEOSEARCH"@.len() == 9,
        "ACL"@.len() == 3,
{
    reveal_strlit("PING");
    reveal_strlit("ECHO");
    reveal_strlit("GET");
    reveal_strlit("SET");
    reveal_strlit("TYPE");
    reveal_strlit("INCR");
    reveal_strlit("RPUSH");
    reveal_strlit("LPUSH");
    reveal_strlit("LRANGE");
    reveal_strlit("LLEN");
    reveal_strlit("LPOP");
    reveal_strlit("XADD");
    reveal_strlit("ZADD");
    reveal_strlit("ZRANK");
    reveal_strlit("ZRANGE");
    reveal_strlit("ZCARD");
    reveal_strlit("ZSCORE");
    reveal_strlit("ZREM");
    reveal_strlit("MULTI");
    reveal_strlit("EXEC");
    reveal_strlit("DISCARD");
    reveal_strlit("WAIT");
    reveal_strlit("CONFIG");
    reveal_strlit("KEYS");
    reveal_strlit("INFO");
    reveal_strlit("PSYNC");
    reveal_strlit("REPLCONF");
    reveal_strlit("XRANGE");
    reveal_strlit("XREAD");
    reveal_strlit("BLPOP");
    reveal_strlit("SUBSCRIBE");
    reveal_strlit("PUBLISH");
    reveal_strlit("GEOADD");
    reveal_strlit("GEOPOS");
    reveal_strlit("GEODIST");
    reveal_strlit("GEOSEARCH");
    reveal_strlit("ACL");
    assert("PING"@[0] != "ECHO"@[0]);
    assert("PING"@[0] != "TYPE"@[0]);
    assert("PING"@[0] != "INCR"@[0]);
    assert("PING"@[0] != "LLEN"@[0]);
    assert("PING"@[0] != "LPOP"@[0]);
    assert("PING"@[0] != "XADD"@[0]);
    assert("PING"@[0] != "ZADD"@[0]);
    assert("PING"@[0] != "ZREM"@[0]);
    assert("PING"@[0] != "EXEC"@[0]);
    assert("PING"@[0] != "WAIT"@[0]);
    assert("PING"@[0] != "KEYS"@[0]);
    assert("PING"@[0] != "INFO"@[0]);
    assert("ECHO"@[0] != "TYPE"@[0]);
    assert("ECHO"@[0] != "INCR"@[0]);
    assert("ECHO"@[0] != "LLEN"@[0]);
    assert("ECHO"@[0] != "LPOP"@[0]);
    assert("ECHO"@[0] != "XADD"@[0]);
    assert("ECHO"@[0] != "ZADD"@[0]);
    assert("ECHO"@[0] != "ZREM"@[0]);
    assert("ECHO"@[1] != "EXEC"@[1]);
    assert("ECHO"@[0] != "WAIT"@[0]);
    assert("ECHO"@[0] != "KEYS"@[0]);
    assert("ECHO"@[0] != "INFO"@[0]);
    assert("GET"@[0] != "SET"@[0]);
    assert("GET"@[0] != "ACL"@[0]);
    assert("SET"@[0] != "ACL"@[0]);
    assert("TYPE"@[0] != "INCR"@[0]);
    assert("TYPE"@[0] != "LLEN"@[0]);
    assert("TYPE"@[0] != "LPOP"@[0]);
    assert("TYPE"@[0] != "XADD"@[0]);
    assert("TYPE"@[0] != "ZADD"@[0]);
    assert("TYPE"@[0] != "ZREM"@[0]);
    assert("TYPE"@[0] != "EXEC"@[0]);
    assert("TYPE"@[0] != "WAIT"@[0]);
    assert("TYPE"@[0] != "KEYS"@[0]);
    assert("TYPE"@[0] != "INFO"@[0]);
    assert("INCR"@[0] != "LLEN"@[0]);
    assert("INCR"@[0] != "LPOP"@[0]);
    assert("INCR"@[0] != "XADD"@[0]);
    assert("INCR"@[0] != "ZADD"@[0]);
    assert("INCR"@[0] != "ZREM"@[0]);
    assert("INCR"@[0] != "EXEC"@[0]);
    assert("INCR"@[0] != "WAIT"@[0]);
    assert("INCR"@[0] != "KEYS"@[0]);
    assert("INCR"@[2] != "INFO"@[2]);
    assert("RPUSH"@[0] != "LPUSH"@[0]);
    assert("RPUSH"@[0] != "ZRANK"@[0]);
    assert("RPUSH"@[0] != "ZCARD"@[0]);
    assert("RPUSH"@[0] != "MULTI"@[0]);
    assert("RPUSH"@[0] != "PSYNC"@[0]);
    assert("RPUSH"@[0] != "XREAD"@[0]);
    assert("RPUSH"@[0] != "BLPOP"@[0]);
    assert("LPUSH"@[0] != "ZRANK"@[0]);
    assert("LPUSH"@[0] != "ZCARD"@[0]);
    assert("LPUSH"@[0] != "MULTI"@[0]);
    assert("LPUSH"@[0] != "PSYNC"@[0]);
    assert("LPUSH"@[0] != "XREAD"@[0]);
    assert("LPUSH"@[0] != "BLPOP"@[0]);
    assert("LRANGE"@[0] != "ZRANGE"@[0]);
    assert("LRANGE"@[0] != "ZSCORE"@[0]);
    assert("LRANGE"@[0] != "CONFIG"@[0]);
    assert("LRANGE"@[0] != "XRANGE"@[0]);
    assert("LRANGE"@[0] != "GEOADD"@[0]);
    assert("LRANGE"@[0] != "GEOPOS"@[0]);
    assert("LLEN"@[1] != "LPOP"@[1]);
    assert("LLEN"@[0] != "XADD"@[0]);
    assert("LLEN"@[0] != "ZADD"@[0]);
    assert("LLEN"@[0] != "ZREM"@[0]);
    assert("LLEN"@[0] != "EXEC"@[0]);
    assert("LLEN"@[0] != "WAIT"@[0]);
    assert("LLEN"@[0] != "KEYS"@[0]);
    assert("LLEN"@[0] != "INFO"@[0]);
    assert("LPOP"@[0] != "XADD"@[0]);
    assert("LPOP"@[0] != "ZADD"@[0]);
    assert("LPOP"@[0] != "ZREM"@[0]);
    assert("LPOP"@[0] != "EXEC"@[0]);
    assert("LPOP"@[0] != "WAIT"@[0]);
    assert("LPOP"@[0] != "KEYS"@[0]);
    assert("LPOP"@[0] != "INFO"@[0]);
    assert("XADD"@[0] != "ZADD"@[0]);
    assert("XADD"@[0] != "ZREM"@[0]);
    assert("XADD"@[0] != "EXEC"@[0]);
    assert("XADD"@[0] != "WAIT"@[0]);
    assert("XADD"@[0] != "KEYS"@[0]);
    assert("XADD"@[0] != "INFO"@[0]);
    assert("ZADD"@[1] != "ZREM"@[1]);
    assert("ZADD"@[0] != "EXEC"@[0]);
    assert("ZADD"@[0] != "WAIT"@[0]);
    assert("ZADD"@[0] != "KEYS"@[0]);
    assert("ZADD"@[0] != "INFO"@[0]);
    assert("ZRANK"@[1] != "ZCARD"@[1]);
    assert("ZRANK"@[0] != "MULTI"@[0]);
    assert("ZRANK"@[0] != "PSYNC"@[0]);
    assert("ZRANK"@[0] != "XREAD"@[0]);
    assert("ZRANK"@[0] != "BLPOP"@[0]);
    assert("ZRANGE"@[1] != "ZSCORE"@[1]);
    assert("ZRANGE"@[0] != "CONFIG"@[0]);
    assert("ZRANGE"@[0] != "XRANGE"@[0]);
    assert("ZRANGE"@[0] != "GEOADD"@[0]);
    assert("ZRANGE"@[0] != "GEOPOS"@[0]);
    assert("ZCARD"@[0] != "MULTI"@[0]);
    assert("ZCARD"@[0] != "PSYNC"@[0]);
    assert("ZCARD"@[0] != "XREAD"@[0]);
    assert("ZCARD"@[0] != "BLPOP"@[0]);
    assert("ZSCORE"@[0] != "CONFIG"@[0]);
    assert("ZSCORE"@[0] != "XRANGE"@[0]);
    assert("ZSCORE"@[0] != "GEOADD"@[0]);
    assert("ZSCORE"@[0] != "GEOPOS"@[0]);
    assert("ZREM"@[0] != "EXEC"@[0]);
    assert("ZREM"@[0] != "WAIT"@[0]);
    assert("ZREM"@[0] != "KEYS"@[0]);
    assert("ZREM"@[0] != "INFO"@[0]);
    assert("MULTI"@[0] != "PSYNC"@[0]);
    assert("MULTI"@[0] != "XREAD"@[0]);
    assert("MULTI"@[0] != "BLPOP"@[0]);
    assert("EXEC"@[0] != "WAIT"@[0]);
    assert("EXEC"@[0] != "KEYS"@[0]);
    assert("EXEC"@[0] != "INFO"@[0]);
    assert("DISCARD"@[0] != "PUBLISH"@[0]);
    assert("DISCARD"@[0] != "GEODIST"@[0]);
    assert("WAIT"@[0] != "KEYS"@[0]);
    assert("WAIT"@[0] != "INFO"@[0]);
    assert("CONFIG"@[0] != "XRANGE"@[0]);
    assert("CONFIG"@[0] != "GEOADD"@[0]);
    assert("CONFIG"@[0] != "GEOPOS"@[0]);
    assert("KEYS"@[0] != "INFO"@[0]);
    assert("PSYNC"@[0] != "XREAD"@[0]);
    assert("PSYNC"@[0] != "BLPOP"@[0]);
    assert("XRANGE"@[0] != "GEOADD"@[0]);
    assert("XRANGE"@[0] != "GEOPOS"@[0]);
    assert("XREAD"@[0] != "BLPOP"@[0]);
    assert("SUBSCRIBE"@[0] != "GEOSEARCH"@[0]);
    assert("PUBLISH"@[0] != "GEODIST"@[0]);
    assert("GEOADD"@[3] != "GEOPOS"@[3]);
}

fn parse_ping(val: &Vec<Data>) -> (r: Command)
    requires
        val@.len() >= 1,
        all_bulk_from(val@, 0),
        upper(bulk(val@[0])) == "PING"@,
    ensures
        decodes_to(val@, r),
{
    proof {
        lemma_names_distinct();
    }
    let n = val.len();
    if n == 1 { Command::Ping } else { Command::Invalid }
}

fn parse_echo(val: &Vec<Data>) -> (r: Command)
    requires
        val@.len() >= 1,
        all_bulk_from(val@, 0),
        upper(bulk(val@[0])) == "ECHO"@,
    ensures
        decodes_to(val@, r),
{
    proof {
        lemma_names_distinct();
    }
    let n = val.len();
    if n == 2 { Command::Echo(arg(val, 1)) } else { Command::Invalid }
}

fn parse_get(val: &Vec<Data>) -> (r: Command)
    requires
        val@.len() >= 1,
        all_bulk_from(val@, 0),
        upper(bulk(val@[0])) == "GET"@,
    ensures
        decodes_to(val@, r),
{
    proof {
        lemma_names_distinct();
    }
    let n = val.len();
    if n == 2 { Command::Get(arg(val, 1)) } else { Command::Invalid }
}

fn parse_set(val: &Vec<Data>) -> (r: Command)
    requires
        val@.len() >= 1,
        all_bulk_from(val@, 0),
        upper(bulk(val@[0])) == "SET"@,
    ensures
        decodes_to(val@, r),
{
    proof {
        lemma_names_distinct();
    }
    let n = val.len();
    if n == 3 {
            Command::SetKey {
                key: arg(val, 1),
                value: arg(val, 2),
                expiry_ms: None,
                raw_command: get_raw_array_command(val),
            }
        } else if n == 5 && name_is(arg(val, 3).as_str(), "PX") {
            match parse_u64(arg(val, 4).as_str()) {
                Some(ms) => Command::SetKey {
                    key: arg(val, 1),
                    value: arg(val, 2),
                    expiry_ms: Some(ms),
                    raw_command: get_raw_array_command(val),
                },
                None => Command::Invalid,
            }
        } else {
            Command::Invalid
        }
}

fn parse_config(val: &Vec<Data>) -> (r: Command)
    requires
        val@.len() >= 1,
        all_bulk_from(val@, 0),
        upper(bulk(val@[0])) == "CONFIG"@,
    ensures
        decodes_to(val@, r),
{
    proof {
        lemma_names_distinct();
    }
    let n = val.len();
    if n == 3 && name_is(arg(val, 1).as_str(), "GET") {
            Command::ConfigGet(arg(val, 2))
        } else {
            Command::Invalid
        }
}

fn parse_keys(val: &Vec<Data>) -> (r: Command)
    requires
        val@.len() >= 1,
        all_bulk_from(val@, 0),
        upper(bulk(val@[0])) == "KEYS"@,
    ensures
        decodes_to(val@, r),
{
    proof {
        lemma_names_distinct();
    }
    let n = val.len();
    if n == 2 { Command::Keys(arg(val, 1)) } else { Command::Invalid }
}

fn parse_info(val: &Vec<Data>) -> (r: Command)
    requires
        val@.len() >= 1,
        all_bulk_from(val@, 0),
        upper(bulk(val@[0])) == "INFO"@,
    ensures
        decodes_to(val@, r),
{
    proof {
        lemma_names_distinct();
    }
    let n = val.len();
    if n == 2 && name_is(arg(val, 1).as_str(), "REPLICATION") {
            Command::Info
        } else {
            Command::Invalid
        }
}

fn parse_psync(val: &Vec<Data>) -> (r: Command)
    requires
        val@.len() >= 1,
        all_bulk_from(val@, 0),
        upper(bulk(val@[0])) == "PSYNC"@,
    ensures
        decodes_to(val@, r),
{
    proof {
        lemma_names_distinct();
    }
    let n = val.len();
    if n == 3 { Command::Psync(arg(val, 1), arg(val, 2)) } else { Command::Invalid }
}

fn parse_replconf(val: &Vec<Data>) -> (r: Command)
    requires
        val@.len() >= 1,
        all_bulk_from(val@, 0),
        upper(bulk(val@[0])) == "REPLCONF"@,
    ensures
        decodes_to(val@, r),
{
    proof {
        lemma_names_distinct();
    }
    proof {
        reveal_strlit("GETACK");
        reveal_strlit("ACK");
    }
    let n = val.len();
    if n < 3 {
        return Command::Replconf;
    }
    let sub = arg(val, 1);
    let a2 = arg(val, 2);
    let star = a2.as_str().unicode_len() == 1 && a2.as_str().get_char(0) == '*';
    proof {
        if star {
            assert(a2@ =~= seq!['*']);
        }
        if a2@ == seq!['*'] {
            assert(a2@[0] == '*');
        }
    }
    if name_is(sub.as_str(), "GETACK") && star {
        Command::ReplconfGetAck(a2)
    } else if name_is(sub.as_str(), "ACK") {
        match parse_u64(a2.as_str()) {
            Some(o) => Command::ReplconfAck(o),
            None => Command::Replconf,
        }
    } else {
        Command::Replconf
    }
}

fn parse_wait(val: &Vec<Data>) -> (r: Command)
    requires
        val@.len() >= 1,
        all_bulk_from(val@, 0),
        upper(bulk(val@[0])) == "WAIT"@,
    ensures
        decodes_to(val@, r),
{
    proof {
        lemma_names_distinct();
    }
    let n = val.len();
    if n == 3 {
            match (parse_i64(arg(val, 1).as_str()), parse_u64(arg(val, 2).as_str())) {
                (Some(num_replicas), Some(timeout)) => Command::Wait { num_replicas, timeout },
                _ => Command::Invalid,
            }
        } else {
            Command::Invalid
        }
}

fn parse_type(val: &Vec<Data>) -> (r: Command)
    requires
        val@.len() >= 1,
        all_bulk_from(val@, 0),
        upper(bulk(val@[0])) == "TYPE"@,
    ensures
        decodes_to(val@, r),
{
    proof {
        lemma_names_distinct();
    }
    let n = val.len();
    if n == 2 { Command::Type(arg(val, 1)) } else { Command::Invalid }
}

fn parse_xadd(val: &Vec<Data>) -> (r: Command)
    requires
        val@.len() >= 1,
        all_bulk_from(val@, 0),
        upper(bulk(val@[0])) == "XADD"@,
    ensures
        decodes_to(val@, r),
{
    proof {
        lemma_names_distinct();
    }
    let n = val.len();
    if n == 5 {
            Command::XAdd {
                key: arg(val, 1),
                id: arg(val, 2),
                entry: (arg(val, 3), arg(val, 4)),
                raw_command: get_raw_array_command(val),
            }
        } else {
            Command::Invalid
        }
}

fn parse_xrange(val: &Vec<Data>) -> (r: Command)
    requires
        val@.len() >= 1,
        all_bulk_from(val@, 0),
        upper(bulk(val@[0])) == "XRANGE"@,
    ensures
        decodes_to(val@, r),
{
    proof {
        lemma_names_distinct();
    }
    let n = val.len();
    if n == 4 {
            Command::XRange { key: arg(val, 1), start: arg(val, 2), end: arg(val, 3) }
        } else {
            Command::Invalid
        }
}


fn parse_incr(val: &Vec<Data>) -> (r: Command)
    requires
        val@.len() >= 1,
        all_bulk_from(val@, 0),
        upper(bulk(val@[0])) == "INCR"@,
    ensures
        decodes_to(val@, r),
{
    proof {
        lemma_names_distinct();
    }
    let n = val.len();
    if n == 2 {
            Command::Incr { key: arg(val, 1), raw_command: get_raw_array_command(val) }
        } else {
            Command::Invalid
        }
}

fn parse_multi(val: &Vec<Data>) -> (r: Command)
    requires
        val@.len() >= 1,
        all_bulk_from(val@, 0),
        upper(bulk(val@[0])) == "MULTI"@,
    ensures
        decodes_to(val@, r),
{
    proof {
        lemma_names_distinct();
    }
    let n = val.len();
    Command::Multi
}

fn parse_exec(val: &Vec<Data>) -> (r: Command)
    requires
        val@.len() >= 1,
        all_bulk_from(val@, 0),
        upper(bulk(val@[0])) == "EXEC"@,
    ensures
        decodes_to(val@, r),
{
    proof {
        lemma_names_distinct();
    }
    let n = val.len();
    Command::Exec
}

fn parse_discard(val: &Vec<Data>) -> (r: Command)
    requires
        val@.len() >= 1,
        all_bulk_from(val@, 0),
        upper(bulk(val@[0])) == "DISCARD"@,
    ensures
        decodes_to(val@, r),
{
    proof {
        lemma_names_distinct();
    }
    let n = val.len();
    Command::Discard
}

fn parse_push(val: &Vec<Data>) -> (r: Command)
    requires
        val@.len() >= 1,
        all_bulk_from(val@, 0),
        (upper(bulk(val@[0])) == "RPUSH"@ || upper(bulk(val@[0])) == "LPUSH"@),
    ensures
        decodes_to(val@, r),
{
    proof {
        lemma_names_distinct();
    }
    let n = val.len();
    let c = arg(val, 0);
    let c = c.as_str();
    if n >= 2 {
            Command::ListPush {
                key: arg(val, 1),
                values: parse_string_args(val, 2),
                is_left: name_is(c, "LPUSH"),
                raw_command: get_raw_array_command(val),
            }
        } else {
            Command::Invalid
        }
}

fn parse_lrange(val: &Vec<Data>) -> (r: Command)
    requires
        val@.len() >= 1,
        all_bulk_from(val@, 0),
        upper(bulk(val@[0])) == "LRANGE"@,
    ensures
        decodes_to(val@, r),
{
    proof {
        lemma_names_distinct();
    }
    let n = val.len();
    if n == 4 {
            match (parse_i64(arg(val, 2).as_str()), parse_i64(arg(val, 3).as_str())) {
                (Some(start), Some(end)) => Command::LRange { key: arg(val, 1), start, end },
                _ => Command::Invalid,
            }
        } else {
            Command::Invalid
        }
}

fn parse_llen(val: &Vec<Data>) -> (r: Command)
    requires
        val@.len() >= 1,
        all_bulk_from(val@, 0),
        upper(bulk(val@[0])) == "LLEN"@,
    ensures
        decodes_to(val@, r),
{
    proof {
        lemma_names_distinct();
    }
    let n = val.len();
    if n == 2 { Command::LLen(arg(val, 1)) } else { Command::Invalid }
}

fn parse_lpop(val: &Vec<Data>) -> (r: Command)
    requires
        val@.len() >= 1,
        all_bulk_from(val@, 0),
        upper(bulk(val@[0])) == "LPOP"@,
    ensures
        decodes_to(val@, r),
{
    proof {
        lemma_names_distinct();
    }
    let n = val.len();
    if n == 2 {
            Command::LPop(arg(val, 1), 1)
        } else if n == 3 {
            match parse_u64(arg(val, 2).as_str()) {
                Some(count) => Command::LPop(arg(val, 1), count),
                None => Command::Invalid,
            }
        } else {
            Command::Invalid
        }
}


fn parse_subscribe(val: &Vec<Data>) -> (r: Command)
    requires
        val@.len() >= 1,
        all_bulk_from(val@, 0),
        upper(bulk(val@[0])) == "SUBSCRIBE"@,
    ensures
        decodes_to(val@, r),
{
    proof {
        lemma_names_distinct();
    }
    let n = val.len();
    if n == 2 { Command::Subscribe(arg(val, 1)) } else { Command::Invalid }
}

fn parse_publish(val: &Vec<Data>) -> (r: Command)
    requires
        val@.len() >= 1,
        all_bulk_from(val@, 0),
        upper(bulk(val@[0])) == "PUBLISH"@,
    ensures
        decodes_to(val@, r),
{
    proof {
        lemma_names_distinct();
    }
    let n = val.len();
    if n == 3 { Command::Publish(arg(val, 1), arg(val, 2)) } else { Command::Invalid }
}

fn parse_zadd(val: &Vec<Data>) -> (r: Command)
    requires
        val@.len() >= 1,
        all_bulk_from(val@, 0),
        upper(bulk(val@[0])) == "ZADD"@,
    ensures
        decodes_to(val@, r),
{
    proof {
        lemma_names_distinct();
    }
    let n = val.len();
    if n == 4 {
            Command::ZAdd {
                key: arg(val, 1),
                score: arg(val, 2),
                member: arg(val, 3),
                raw_command: get_raw_array_command(val),
            }
        } else {
            Command::Invalid
        }
}

fn parse_zrank(val: &Vec<Data>) -> (r: Command)
    requires
        val@.len() >= 1,
        all_bulk_from(val@, 0),
        upper(bulk(val@[0])) == "ZRANK"@,
    ensures
        decodes_to(val@, r),
{
    proof {
        lemma_names_distinct();
    }
    let n = val.len();
    if n == 3 { Command::ZRank { key: arg(val, 1), member: arg(val, 2) } } else { Command::Invalid }
}

fn parse_zrange(val: &Vec<Data>) -> (r: Command)
    requires
        val@.len() >= 1,
        all_bulk_from(val@, 0),
        upper(bulk(val@[0])) == "ZRANGE"@,
    ensures
        decodes_to(val@, r),
{
    proof {
        lemma_names_distinct();
    }
    let n = val.len();
    if n == 4 {
            match (parse_i64(arg(val, 2).as_str()), parse_i64(arg(val, 3).as_str())) {
                (Some(start), Some(end)) => Command::ZRange { key: arg(val, 1), start, end },
                _ => Command::Invalid,
            }
        } else {
            Command::Invalid
        }
}

fn parse_zcard(val: &Vec<Data>) -> (r: Command)
    requires
        val@.len() >= 1,
        all_bulk_from(val@, 0),
        upper(bulk(val@[0])) == "ZCARD"@,
    ensures
        decodes_to(val@, r),
{
    proof {
        lemma_names_distinct();
    }
    let n = val.len();
    if n == 2 { Command::ZCard(arg(val, 1)) } else { Command::Invalid }
}

fn parse_zscore(val: &Vec<Data>) -> (r: Command)
    requires
        val@.len() >= 1,
        all_bulk_from(val@, 0),
        upper(bulk(val@[0])) == "ZSCORE"@,
    ensures
        decodes_to(val@, r),
{
    proof {
        lemma_names_distinct();
    }
    let n = val.len();
    if n == 3 { Command::ZScore(arg(val, 1), arg(val, 2)) } else { Command::Invalid }
}

fn parse_zrem(val: &Vec<Data>) -> (r: Command)
    requires
        val@.len() >= 1,
        all_bulk_from(val@, 0),
        upper(bulk(val@[0])) == "ZREM"@,
    ensures
        decodes_to(val@, r),
{
    proof {
        lemma_names_distinct();
    }
    let n = val.len();
    if n == 3 { Command::ZRem { key: arg(val, 1), member: arg(val, 2), raw_command: get_raw_array_command(val) } } else { Command::Invalid }
}

fn parse_geoadd(val: &Vec<Data>) -> (r: Command)
    requires
        val@.len() >= 1,
        all_bulk_from(val@, 0),
        upper(bulk(val@[0])) == "GEOADD"@,
    ensures
        decodes_to(val@, r),
{
    proof {
        lemma_names_distinct();
    }
    let n = val.len();
    if n == 5 {
            Command::Geoadd { key: arg(val, 1), longitude: arg(val, 2), latitude: arg(val, 3), member: arg(val, 4) }
        } else {
            Command::Invalid
        }
}

fn parse_geopos(val: &Vec<Data>) -> (r: Command)
    requires
        val@.len() >= 1,
        all_bulk_from(val@, 0),
        upper(bulk(val@[0])) == "GEOPOS"@,
    ensures
        decodes_to(val@, r),
{
    proof {
        lemma_names_distinct();
    }
    let n = val.len();
    if n >= 2 {
            Command::Geopos { key: arg(val, 1), members: parse_string_args(val, 2) }
        } else {
            Command::Invalid
        }
}

fn parse_geodist(val: &Vec<Data>) -> (r: Command)
    requires
        val@.len() >= 1,
        all_bulk_from(val@, 0),
        upper(bulk(val@[0])) == "GEODIST"@,
    ensures
        decodes_to(val@, r),
{
    proof {
        lemma_names_distinct();
    }
    let n = val.len();
    if n == 4 {
            Command::Geodist { key: arg(val, 1), from: arg(val, 2), to: arg(val, 3) }
        } else {
            Command::Invalid
        }
}

fn parse_geosearch(val: &Vec<Data>) -> (r: Command)
    requires
        val@.len() >= 1,
        all_bulk_from(val@, 0),
        upper(bulk(val@[0])) == "GEOSEARCH"@,
    ensures
        decodes_to(val@, r),
{
    proof {
        lemma_names_distinct();
    }
    let n = val.len();
    if n == 8 {
            Command::Geosearch {
                key: arg(val, 1),
                longitude: arg(val, 3),
                latitude: arg(val, 4),
                radius: arg(val, 6),
                unit: arg(val, 7),
            }
        } else {
            Command::Invalid
        }
}

fn parse_acl(val: &Vec<Data>) -> (r: Command)
    requires
        val@.len() >= 1,
        all_bulk_from(val@, 0),
        upper(bulk(val@[0])) == "ACL"@,
    ensures
        decodes_to(val@, r),
{
    proof {
        lemma_names_distinct();
    }
    let n = val.len();
    if n >= 2 { Command::Acl(arg(val, 1), parse_string_args(val, 2)) } else { Command::Invalid }
}

impl Command {
    /// Decodes one request datum: an array whose first item is a bulk string
    /// naming the command.
    pub fn from_data(val: Data) -> (r: Command)
        ensures
            val matches Data::Array(v) ==> decodes_to(v@, r),
            !(val is Array) ==> r is Invalid,
    {
        match val {
            Data::Array(v) => Command::from_args(&v),
            _ => Command::Invalid,
        }
    }

    /// Decodes the items of a request array.
    #[verifier::rlimit(50)]
    pub fn from_args(val: &Vec<Data>) -> (r: Command)
        ensures
            decodes_to(val@, r),
    {
        let n = val.len();
        if n == 0 {
            return Command::Invalid;
        }
        match &val[0] {
            Data::BStr(_) => {},
            _ => {
                return Command::Invalid;
            },
        }
        if !all_bulk(val) {
            return Command::Invalid;
        }
        let c = arg(val, 0);
        let c = c.as_str();
        if name_is(c, "PING") {
            parse_ping(val)
        } else if name_is(c, "ECHO") {
            parse_echo(val)
        } else if name_is(c, "GET") {
            parse_get(val)
        } else if name_is(c, "SET") {
            parse_set(val)
        } else if name_is(c, "CONFIG") {
            parse_config(val)
        } else if name_is(c, "KEYS") {
            parse_keys(val)
        } else if name_is(c, "INFO") {
            parse_info(val)
        } else if name_is(c, "PSYNC") {
            parse_psync(val)
        } else if name_is(c, "REPLCONF") {
            parse_replconf(val)
        } else if name_is(c, "WAIT") {
            parse_wait(val)
        } else if name_is(c, "TYPE") {
            parse_type(val)
        } else if name_is(c, "XADD") {
            parse_xadd(val)
        } else if name_is(c, "XRANGE") {
            parse_xrange(val)
        } else if name_is(c, "XREAD") {
            parse_xread(val)
        } else if name_is(c, "INCR") {
            parse_incr(val)
        } else if name_is(c, "MULTI") {
            parse_multi(val)
        } else if name_is(c, "EXEC") {
            parse_exec(val)
        } else if name_is(c, "DISCARD") {
            parse_discard(val)
        } else if name_is(c, "RPUSH") || name_is(c, "LPUSH") {
            parse_push(val)
        } else if name_is(c, "LRANGE") {
            parse_lrange(val)
        } else if name_is(c, "LLEN") {
            parse_llen(val)
        } else if name_is(c, "LPOP") {
            parse_lpop(val)
        } else if name_is(c, "BLPOP") {
            parse_blpop(val)
        } else if name_is(c, "SUBSCRIBE") {
            parse_subscribe(val)
        } else if name_is(c, "PUBLISH") {
            parse_publish(val)
        } else if name_is(c, "ZADD") {
            parse_zadd(val)
        } else if name_is(c, "ZRANK") {
            parse_zrank(val)
        } else if name_is(c, "ZRANGE") {
            parse_zrange(val)
        } else if name_is(c, "ZCARD") {
            parse_zcard(val)
        } else if name_is(c, "ZSCORE") {
            parse_zscore(val)
        } else if name_is(c, "ZREM") {
            parse_zrem(val)
        } else if name_is(c, "GEOADD") {
            parse_geoadd(val)
        } else if name_is(c, "GEOPOS") {
            parse_geopos(val)
        } else if name_is(c, "GEODIST") {
            parse_geodist(val)
        } else if name_is(c, "GEOSEARCH") {
            parse_geosearch(val)
        } else if name_is(c, "ACL") {
            parse_acl(val)
        } else {
            Command::Invalid
        }
    }

    /// Whether the command may wait for data: `BLPOP`, and `XREAD` with `BLOCK`.
    pub fn is_blocking(&self) -> (r: bool)
        ensures
            r == (self matches Command::XRead { block: Some(_), .. } || self is BLPop),
    {
        match self {
            Command::XRead { block: Some(_), .. } => true,
            Command::BLPop(..) => true,
            _ => false,
        }
    }
}

} // verus!
