use vstd::prelude::*;
use crate::command::{texts, Command};
use crate::resp::Data;
use crate::score::{decimal_parse, decimal_text, parse_decimal, score_text, Score};
use crate::number::{digits_value, is_signed_digits, signed_value};
use crate::store::{id_lt, id_split, bound_of, parse_bound, pushed, range_of, select, stream_of, type_text, Kind, Store, StoreError};

verus! {

/// Process-wide state: the store, the writes waiting to be sent to replicas, and
/// what replicas have acknowledged.
pub struct ServerContext {
    pub store: Store,
    /// Raw forms of the writes, in the order they took effect, not yet handed to replicas.
    pub outbox: Vec<String>,
    /// Bytes of writes propagated so far.
    pub master_offset: u64,
    /// The last offset each connected replica acknowledged.
    pub replica_acks: Vec<u64>,
}

/// Number of replicas whose acknowledged offset reaches `offset`.
pub open spec fn acked(acks: Seq<u64>, offset: u64) -> nat
    decreases acks.len(),
{
    if acks.len() == 0 {
        0
    } else {
        acked(acks.drop_last(), offset) + (if acks.last() >= offset { 1nat } else { 0nat })
    }
}

/// What `WAIT n` reports: the replicas that reached `offset`, at most `n`.
pub open spec fn wait_value(acks: Seq<u64>, offset: u64, n: i64) -> int {
    if n <= 0 {
        0
    } else if acked(acks, offset) < n {
        acked(acks, offset) as int
    } else {
        n as int
    }
}

proof fn lemma_acked_le(acks: Seq<u64>, offset: u64)
    ensures
        acked(acks, offset) <= acks.len(),
    decreases acks.len(),
{
    if acks.len() > 0 {
        lemma_acked_le(acks.drop_last(), offset);
    }
}

/// How many replicas have acknowledged `offset`, capped at `n`.
pub fn wait_count(acks: &Vec<u64>, offset: u64, n: i64) -> (r: i64)
    ensures
        r == wait_value(acks@, offset, n),
        0 <= r,
        r <= acks@.len(),
        n >= 0 ==> r <= n,
{
    let mut c: u64 = 0;
    let mut i: usize = 0;
    while i < acks.len()
        invariant
            0 <= i <= acks@.len(),
            c == acked(acks@.subrange(0, i as int), offset),
            c <= i,
        decreases acks@.len() - i,
    {
        proof {
            assert(acks@.subrange(0, i + 1).drop_last() =~= acks@.subrange(0, i as int));
        }
        if acks[i] >= offset {
            c = c + 1;
        }
        i = i + 1;
    }
    proof {
        assert(acks@.subrange(0, acks@.len() as int) =~= acks@);
        lemma_acked_le(acks@, offset);
    }
    if n <= 0 {
        0
    } else if c < n as u64 {
        c as i64
    } else {
        n
    }
}

pub open spec fn err_text(e: StoreError) -> Seq<char> {
    match e {
        StoreError::WrongType => "WRONGTYPE Operation against a key holding the wrong kind of value"@,
        StoreError::NotInteger => "ERR value is not an integer or out of range"@,
        StoreError::IdZero => "ERR The ID specified in XADD must be greater than 0-0"@,
        StoreError::IdNotGreater => "ERR The ID specified in XADD is equal or smaller than the target stream top item"@,
        StoreError::BadId => "ERR Invalid stream ID specified as stream command argument"@,
    }
}

proof fn lemma_wrongtype_text(e: StoreError)
    ensures
        err_text(e) == err_text(StoreError::WrongType) ==> e is WrongType,
{
    reveal_strlit("WRONGTYPE Operation against a key holding the wrong kind of value");
    reveal_strlit("ERR value is not an integer or out of range");
    reveal_strlit("ERR The ID specified in XADD must be greater than 0-0");
    reveal_strlit("ERR The ID specified in XADD is equal or smaller than the target stream top item");
    reveal_strlit("ERR Invalid stream ID specified as stream command argument");
    if !(e is WrongType) {
        assert(err_text(e)[0] != err_text(StoreError::WrongType)[0]);
    }
}

/// The error reply for a store error.
pub fn error_reply(e: StoreError) -> (r: Data)
    ensures
        r matches Data::Error(s) && s@ == err_text(e),
{
    proof {
        reveal_strlit("WRONGTYPE Operation against a key holding the wrong kind of value");
        reveal_strlit("ERR value is not an integer or out of range");
        reveal_strlit("ERR The ID specified in XADD must be greater than 0-0");
        reveal_strlit("ERR The ID specified in XADD is equal or smaller than the target stream top item");
        reveal_strlit("ERR Invalid stream ID specified as stream command argument");
    }
    let s = match e {
        StoreError::WrongType => "WRONGTYPE Operation against a key holding the wrong kind of value",
        StoreError::NotInteger => "ERR value is not an integer or out of range",
        StoreError::IdZero => "ERR The ID specified in XADD must be greater than 0-0",
        StoreError::IdNotGreater => "ERR The ID specified in XADD is equal or smaller than the target stream top item",
        StoreError::BadId => "ERR Invalid stream ID specified as stream command argument",
    };
    Data::Error(String::from_str(s))
}

/// Bulk strings of the texts, as one array.
pub fn array_reply(v: Vec<String>) -> (r: Data)
    ensures
        bulks_are(r, texts(v@)),
{
    let mut items: Vec<Data> = Vec::new();
    let mut i: usize = 0;
    while i < v.len()
        invariant
            0 <= i <= v@.len(),
            items@.len() == i,
            forall|j: int| 0 <= j < i ==> ((#[trigger] items@[j]) matches Data::BStr(s) && s@ == v@[j]@),
        decreases v@.len() - i,
    {
        items.push(Data::BStr(v[i].clone()));
        i = i + 1;
    }
    proof {
        assert forall|i: int| 0 <= i < v@.len() implies texts(v@)[i] == v@[i]@ by {}
    }
    Data::Array(items)
}

/// The reply holds, as bulk strings, exactly the texts `t`.
pub open spec fn bulks_are(r: Data, t: Seq<Seq<char>>) -> bool {
    r matches Data::Array(items) && items@.len() == t.len()
        && forall|i: int| 0 <= i < t.len() ==> ((#[trigger] items@[i]) matches Data::BStr(s) && s@ == t[i])
}

/// The text `ms-seq` of a stream id.
pub open spec fn id_text(ms: u64, seq: u64) -> Seq<char> {
    crate::resp::nat_chars(ms as nat) + seq!['-'] + crate::resp::nat_chars(seq as nat)
}

pub fn stream_id_text(ms: u64, seq: u64) -> (r: String)
    ensures
        r@ == id_text(ms, seq),
{
    proof {
        reveal_strlit("-");
    }
    let mut t = crate::resp::u64_text(ms);
    t.append("-");
    let s = crate::resp::u64_text(seq);
    t.append(s.as_str());
    t
}

/// One stream entry as a reply: its id, then its field and value.
pub open spec fn entry_reply_is(d: Data, e: (u64, u64, Seq<char>, Seq<char>)) -> bool {
    d matches Data::Array(parts) && parts@.len() == 2
        && (parts@[0] matches Data::BStr(id) && id@ == id_text(e.0, e.1))
        && (parts@[1] matches Data::Array(fv) && fv@.len() == 2
            && (fv@[0] matches Data::BStr(f) && f@ == e.2)
            && (fv@[1] matches Data::BStr(v) && v@ == e.3))
}

/// Stream entries as a reply array, one item per entry.
pub fn entries_reply(entries: Vec<crate::store::StreamEntry>) -> (r: Data)
    ensures
        r matches Data::Array(items) && items@.len() == entries@.len()
            && forall|i: int| 0 <= i < items@.len() ==> entry_reply_is(#[trigger] items@[i],
                crate::store::stream_view(entries@)[i]),
{
    let mut items: Vec<Data> = Vec::new();
    let mut i: usize = 0;
    while i < entries.len()
        invariant
            0 <= i <= entries@.len(),
            items@.len() == i,
            forall|j: int| 0 <= j < i ==> entry_reply_is(#[trigger] items@[j], crate::store::stream_view(entries@)[j]),
        decreases entries@.len() - i,
    {
        let e = &entries[i];
        let id = Data::BStr(stream_id_text(e.ms, e.seq));
        let fv = Data::Array(vec![Data::BStr(e.field.clone()), Data::BStr(e.value.clone())]);
        items.push(Data::Array(vec![id, fv]));
        i = i + 1;
    }
    Data::Array(items)
}

/// The live keys matching `pattern`, as a reply array.
pub fn keys_reply(store: &Store, pattern: &str, now: u64) -> (r: Data)
    requires
        store.wf(),
    ensures
        exists|ks: Seq<Seq<char>>| bulks_are(r, ks) && forall|k: Seq<char>| #![trigger ks.contains(k)] ks.contains(k)
            <==> (store.at(k, now) is Some && crate::glob::glob(pattern@, k)),
{
    let v = store.keys(pattern, now);
    let ghost gv = texts(v@);
    let r = array_reply(v);
    proof {
        assert(bulks_are(r, gv) && forall|k: Seq<char>| #![trigger gv.contains(k)] gv.contains(k)
            <==> (store.at(k, now) is Some && crate::glob::glob(pattern@, k)));
    }
    r
}

/// The id right after `(ms, seq)`, if there is one.
pub open spec fn next_id(id: (u64, u64)) -> Option<(u64, u64)> {
    if id.1 < u64::MAX {
        Some((id.0, (id.1 + 1) as u64))
    } else if id.0 < u64::MAX {
        Some(((id.0 + 1) as u64, 0))
    } else {
        None
    }
}

fn next_after(id: (u64, u64)) -> (r: Option<(u64, u64)>)
    ensures
        r == next_id(id),
{
    if id.1 < u64::MAX {
        Some((id.0, id.1 + 1))
    } else if id.0 < u64::MAX {
        Some((id.0 + 1, 0))
    } else {
        None
    }
}

pub type EntryView = (u64, u64, Seq<char>, Seq<char>);

/// The entries of stream `key` after `id` at time `now`: `$` asks only for later
/// entries, so none now; an id that does not parse is an error, and so is a key
/// holding another kind.
pub open spec fn read_after(st: Store, key: Seq<char>, id: Seq<char>, now: u64) -> Result<Seq<EntryView>, StoreError> {
    if id == seq!['$'] {
        Ok(Seq::empty())
    } else {
        match bound_of(id, true) {
            None => Err(StoreError::BadId),
            Some(b) => match next_id(b) {
                None => Ok(Seq::empty()),
                Some(lo) => match st.at(key, now) {
                    None => Ok(Seq::empty()),
                    Some(Kind::Stream(e)) => Ok(select(e, lo, (u64::MAX, u64::MAX))),
                    Some(_) => Err(StoreError::WrongType),
                },
            },
        }
    }
}

/// The streams that have entries after their ids, each with those entries, in the
/// order asked; or the first error met.
pub open spec fn xread_items(st: Store, streams: Seq<(String, String)>, now: u64) -> Result<Seq<(Seq<char>, Seq<EntryView>)>, StoreError>
    decreases streams.len(),
{
    if streams.len() == 0 {
        Ok(Seq::empty())
    } else {
        match xread_items(st, streams.drop_last(), now) {
            Err(e) => Err(e),
            Ok(prev) => match read_after(st, streams.last().0@, streams.last().1@, now) {
                Err(e) => Err(e),
                Ok(es) => Ok(if es.len() > 0 { prev.push((streams.last().0@, es)) } else { prev }),
            },
        }
    }
}

/// One stream of an `XREAD` reply: its key, then its entries.
pub open spec fn stream_reply_is(d: Data, item: (Seq<char>, Seq<EntryView>)) -> bool {
    d matches Data::Array(pair) && pair@.len() == 2
        && (pair@[0] matches Data::BStr(k) && k@ == item.0)
        && (pair@[1] matches Data::Array(es) && es@.len() == item.1.len()
            && forall|j: int| 0 <= j < es@.len() ==> entry_reply_is(#[trigger] es@[j], item.1[j]))
}

/// The reply to `XREAD` over `streams`.
pub open spec fn xread_reply_is(r: Data, st: Store, streams: Seq<(String, String)>, now: u64) -> bool {
    match xread_items(st, streams, now) {
        Err(e) => r matches Data::Error(s) && s@ == err_text(e),
        Ok(items) => if items.len() == 0 {
            r is NullArray
        } else {
            r matches Data::Array(out) && out@.len() == items.len()
                && forall|i: int| 0 <= i < out@.len() ==> stream_reply_is(#[trigger] out@[i], items[i])
        },
    }
}

proof fn lemma_err_prefix(st: Store, streams: Seq<(String, String)>, k: int, now: u64)
    requires
        0 <= k <= streams.len(),
        xread_items(st, streams.take(k), now) is Err,
    ensures
        xread_items(st, streams, now) == xread_items(st, streams.take(k), now),
    decreases streams.len() - k,
{
    if k < streams.len() {
        assert(streams.take(k + 1).drop_last() =~= streams.take(k));
        lemma_err_prefix(st, streams, k + 1, now);
    } else {
        assert(streams.take(k) =~= streams);
    }
}

/// For each `(key, id)`, the entries of that stream after `id`, as `[key, entries]`
/// pairs; streams with no such entry are left out, and when none has any the
/// reply is the null array. The id `$` asks only for entries that arrive later.
pub fn xread_reply(store: &Store, streams: &Vec<(String, String)>, now: u64) -> (r: Data)
    requires
        store.wf(),
    ensures
        xread_reply_is(r, *store, streams@, now),
{
    let mut out: Vec<Data> = Vec::new();
    let mut i: usize = 0;
    proof {
        assert(streams@.take(0) =~= Seq::<(String, String)>::empty());
    }
    while i < streams.len()
        invariant
            0 <= i <= streams@.len(),
            store.wf(),
            xread_items(*store, streams@.take(i as int), now) matches Ok(items) && out@.len() == items.len()
                && forall|j: int| 0 <= j < out@.len() ==> stream_reply_is(#[trigger] out@[j], items[j]),
        decreases streams@.len() - i,
    {
        let key = &streams[i].0;
        let id = &streams[i].1;
        proof {
            assert(streams@.take(i + 1).drop_last() =~= streams@.take(i as int));
            assert(streams@.take(i + 1).last() == streams@[i as int]);
        }
        let is_dollar = id.as_str().unicode_len() == 1 && id.as_str().get_char(0) == '$';
        proof {
            if is_dollar {
                assert(id@ =~= seq!['$']);
            }
            if id@ == seq!['$'] {
                assert(id@[0] == '$');
            }
        }
        if !is_dollar {
            let from = match parse_bound(id.as_str(), true) {
                Some(b) => next_after(b),
                None => {
                    proof {
                        lemma_err_prefix(*store, streams@, i + 1, now);
                    }
                    return error_reply(StoreError::BadId);
                },
            };
            match from {
                Some(lo) => match store.xrange(key.as_str(), lo, (u64::MAX, u64::MAX), now) {
                    Ok(v) => {
                        if v.len() > 0 {
                            let ghost gv = crate::store::stream_view(v@);
                            let ghost before = out@;
                            let entries = entries_reply(v);
                            let pair = Data::Array(vec![Data::BStr(key.clone()), entries]);
                            proof {
                                assert(stream_reply_is(pair, (key@, gv)));
                            }
                            out.push(pair);
                            proof {
                                assert forall|j: int| 0 <= j < out@.len() implies stream_reply_is(#[trigger] out@[j],
                                    xread_items(*store, streams@.take(i + 1), now)->Ok_0[j]) by {
                                    if j < before.len() {
                                        assert(out@[j] == before[j]);
                                    }
                                }
                            }
                        }
                    },
                    Err(e) => {
                        proof {
                            lemma_err_prefix(*store, streams@, i + 1, now);
                        }
                        return error_reply(e);
                    },
                },
                None => {},
            }
        }
        i = i + 1;
    }
    proof {
        assert(streams@.take(streams@.len() as int) =~= streams@);
    }
    if out.len() == 0 {
        Data::NullArray
    } else {
        Data::Array(out)
    }
}

/// When a key set at `now` to expire after `ms` milliseconds expires.
pub open spec fn expiry_time(now: u64, ms: u64) -> u64 {
    if ms <= u64::MAX - now { (now + ms) as u64 } else { u64::MAX }
}

/// A key holds a list with at least one element.
pub open spec fn has_items(k: Option<Kind>) -> bool {
    k matches Some(Kind::List(l)) && l.len() > 0
}

/// A count as a reply integer, saturated at the largest one.
pub open spec fn count_int(n: int) -> i64 {
    if n <= i64::MAX {
        n as i64
    } else {
        i64::MAX
    }
}

/// The store and the outbox are those of `old` but for `key`.
pub open spec fn others_kept(old: ServerContext, new: ServerContext, key: Seq<char>) -> bool {
    forall|k: Seq<char>, t: u64| k != key ==> new.store.at(k, t) == old.store.at(k, t)
}

/// What running `request` at time `now` on `pre` does: the state it leaves is
/// `post` and its reply is `r`. Commands that wait, subscribe, hand over a
/// replica, read the configuration or work on coordinates are served by the
/// connection layer; here they leave the state as it is and reply null.
pub open spec fn executes(pre: ServerContext, post: ServerContext, request: Command, now: u64, r: Data) -> bool {
    &&& (post.wf())
    &&& (post.replica_acks == pre.replica_acks)
    &&& (match request {
            Command::Ping => post == pre && (r matches Data::SStr(s) && s@ == "PONG"@),
            Command::Echo(v) => r matches Data::BStr(s) && s@ == v@,
            Command::Get(k) => post == pre && match pre.store.at(k@, now) {
                None => r is Null,
                Some(Kind::Str(v)) => r matches Data::BStr(s) && s@ == v,
                Some(_) => r matches Data::Error(s) && s@ == err_text(StoreError::WrongType),
            },
            Command::SetKey { key, value, expiry_ms, raw_command } => {
                &&& r matches Data::SStr(s) && s@ == "OK"@
                &&& post.outbox@ == pre.outbox@.push(raw_command)
                &&& others_kept(pre, post, key@)
                &&& (expiry_ms is None ==> forall|t: u64| post.store.at(key@, t) == Some(Kind::Str(value@)))
                &&& (expiry_ms matches Some(ms) ==> forall|t: u64| post.store.at(key@, t) == (
                    if t < expiry_time(now, ms) { Some(Kind::Str(value@)) } else { None }))
            },
            Command::Type(k) => post == pre && (r matches Data::SStr(s) && s@ == type_text(pre.store.at(k@, now))),
            Command::Incr { key, raw_command } => {
                &&& others_kept(pre, post, key@)
                &&& match pre.store.at(key@, now) {
                    None => r == Data::Int(1),
                    Some(Kind::Str(v)) => if is_signed_digits(v) && i64::MIN <= signed_value(v) < i64::MAX {
                        r == Data::Int((signed_value(v) + 1) as i64)
                    } else {
                        r matches Data::Error(e) && e@ == err_text(StoreError::NotInteger)
                    },
                    Some(_) => r matches Data::Error(e) && e@ == err_text(StoreError::WrongType),
                }
                &&& match r {
                    Data::Int(n) => post.store.at(key@, now) == Some(Kind::Str(crate::resp::int_chars(n as int)))
                        && post.outbox@ == pre.outbox@.push(raw_command),
                    Data::Error(_) => post.outbox@ == pre.outbox@
                        && post.store.at(key@, now) == pre.store.at(key@, now),
                    _ => false,
                }
            },
            Command::ListPush { key, values, is_left, raw_command } => {
                &&& others_kept(pre, post, key@)
                &&& match pre.store.at(key@, now) {
                    None => r == Data::Int(count_int(values@.len() as int))
                        && post.store.at(key@, now) == Some(Kind::List(crate::store::pushed(Seq::empty(), texts(values@), is_left)))
                        && post.outbox@ == pre.outbox@.push(raw_command),
                    Some(Kind::List(l)) => r == Data::Int(count_int((l.len() + values@.len()) as int))
                        && post.store.at(key@, now) == Some(Kind::List(crate::store::pushed(l, texts(values@), is_left)))
                        && post.outbox@ == pre.outbox@.push(raw_command),
                    Some(_) => r matches Data::Error(s) && s@ == err_text(StoreError::WrongType)
                        && post.outbox@ == pre.outbox@,
                }
            },
            Command::LRange { key, start, end } => post == pre && match pre.store.at(key@, now) {
                None => bulks_are(r, Seq::empty()),
                Some(Kind::List(l)) => bulks_are(r, range_of(l, start as int, end as int)),
                Some(_) => r matches Data::Error(s) && s@ == err_text(StoreError::WrongType),
            },
            Command::LLen(k) => post == pre && match pre.store.at(k@, now) {
                None => r == Data::Int(0),
                Some(Kind::List(l)) => r == Data::Int(count_int(l.len() as int)),
                Some(_) => r matches Data::Error(s) && s@ == err_text(StoreError::WrongType),
            },
            Command::LPop(key, count) => {
                &&& post.outbox@ == pre.outbox@
                &&& others_kept(pre, post, key@)
                &&& match pre.store.at(key@, now) {
                    None => r is Null,
                    Some(Kind::List(l)) => {
                        let m = if count < l.len() { count as int } else { l.len() as int };
                        &&& post.store.at(key@, now) == Some(Kind::List(l.subrange(m, l.len() as int)))
                        &&& if m == 1 {
                            r matches Data::BStr(s) && s@ == l[0]
                        } else {
                            bulks_are(r, l.subrange(0, m))
                        }
                    },
                    Some(_) => r matches Data::Error(s) && s@ == err_text(StoreError::WrongType),
                }
            },
            Command::XAdd { key, id, entry, raw_command } => {
                &&& others_kept(pre, post, key@)
                &&& match r {
                    Data::BStr(s) => exists|ms: u64, seq: u64| s@ == id_text(ms, seq)
                        && post.store.at(key@, now) == Some(Kind::Stream(
                            crate::store::stream_of(pre.store.at(key@, now)).push((ms, seq, entry.0@, entry.1@))))
                        && post.outbox@ == pre.outbox@.push(raw_command),
                    Data::Error(e) => post.outbox@ == pre.outbox@
                        && post.store.at(key@, now) == pre.store.at(key@, now)
                        && (e@ == err_text(StoreError::WrongType) <==> (pre.store.at(key@, now) matches Some(k) && !(k is Stream))),
                    _ => false,
                }
                &&& match pre.store.at(key@, now) {
                    Some(k) if !(k is Stream) => true,
                    _ => forall|d: int| #![trigger id_split(id@, d)] id_split(id@, d)
                        && digits_value(id@.subrange(0, d)) <= u64::MAX
                        && digits_value(id@.subrange(d + 1, id@.len() as int)) <= u64::MAX ==> {
                            let a = digits_value(id@.subrange(0, d)) as u64;
                            let b = digits_value(id@.subrange(d + 1, id@.len() as int)) as u64;
                            let st = stream_of(pre.store.at(key@, now));
                            if a == 0 && b == 0 {
                                r matches Data::Error(e) && e@ == err_text(StoreError::IdZero)
                            } else if st.len() > 0 && !id_lt(st.last().0, st.last().1, a, b) {
                                r matches Data::Error(e) && e@ == err_text(StoreError::IdNotGreater)
                            } else {
                                r matches Data::BStr(t) && t@ == id_text(a, b)
                            }
                        },
                }
            },
            Command::ZRange { key, start, end } => post == pre && match pre.store.at(key@, now) {
                None => bulks_are(r, Seq::empty()),
                Some(Kind::ZSet(z)) => bulks_are(r, range_of(z, start as int, end as int).map_values(|p: (Seq<char>, Score)| p.0)),
                Some(_) => r matches Data::Error(s) && s@ == err_text(StoreError::WrongType),
            },
            Command::ZRank { key, member } => post == pre && match pre.store.at(key@, now) {
                None => r is Null,
                Some(Kind::ZSet(z)) => match r {
                    Data::Int(i) => exists|idx: int| 0 <= idx < z.len() && z[idx].0 == member@ && i == count_int(idx),
                    Data::Null => !crate::store::z_has(z, member@),
                    _ => false,
                },
                Some(_) => r matches Data::Error(s) && s@ == err_text(StoreError::WrongType),
            },
            Command::ZCard(key) => post == pre && match pre.store.at(key@, now) {
                None => r == Data::Int(0),
                Some(Kind::ZSet(z)) => r == Data::Int(count_int(z.len() as int)),
                Some(_) => r matches Data::Error(s) && s@ == err_text(StoreError::WrongType),
            },
            Command::ZScore(key, member) => post == pre && match pre.store.at(key@, now) {
                None => r is Null,
                Some(Kind::ZSet(z)) => match r {
                    Data::BStr(t) => exists|sc: Score| z.contains((member@, sc)) && t@ == decimal_text(sc.mantissa as int, sc.scale as int),
                    Data::Null => !crate::store::z_has(z, member@),
                    _ => false,
                },
                Some(_) => r matches Data::Error(s) && s@ == err_text(StoreError::WrongType),
            },
            Command::ZAdd { key, score, member, raw_command } => {
                &&& others_kept(pre, post, key@)
                &&& match decimal_parse(score@) {
                    None => r is Error && post == pre,
                    Some(v) => match pre.store.at(key@, now) {
                        Some(k) if !(k is ZSet) => r matches Data::Error(s) && s@ == err_text(StoreError::WrongType)
                            && post.outbox@ == pre.outbox@,
                        _ => {
                            let z = crate::store::zset_of(pre.store.at(key@, now));
                            &&& r == Data::Int(if crate::store::z_has(z, member@) { 0 } else { 1 })
                            &&& post.outbox@ == pre.outbox@.push(raw_command)
                            &&& post.store.at(key@, now) matches Some(Kind::ZSet(nz))
                            &&& nz.contains((member@, Score { mantissa: v.0 as i128, scale: v.1 as u32 }))
                            &&& forall|p: (Seq<char>, Score)| p.0 != member@ ==> (nz.contains(p) == z.contains(p))
                        },
                    },
                }
            },
            Command::XRange { key, start, end } => post == pre && match (bound_of(start@, true), bound_of(end@, false)) {
                (Some(lo), Some(hi)) => match pre.store.at(key@, now) {
                    None => r matches Data::Array(items) && items@.len() == 0,
                    Some(Kind::Stream(st)) => r matches Data::Array(items) && items@.len() == select(st, lo, hi).len()
                        && forall|i: int| 0 <= i < items@.len() ==> entry_reply_is(#[trigger] items@[i], select(st, lo, hi)[i]),
                    Some(_) => r matches Data::Error(s) && s@ == err_text(StoreError::WrongType),
                },
                _ => r matches Data::Error(s) && s@ == err_text(StoreError::BadId),
            },
            Command::Keys(pattern) => post == pre && exists|ks: Seq<Seq<char>>| bulks_are(r, ks)
                && forall|k: Seq<char>| #![trigger ks.contains(k)] ks.contains(k)
                    <==> (pre.store.at(k, now) is Some && crate::glob::glob(pattern@, k)),
            Command::Replconf => post == pre && (r matches Data::SStr(s) && s@ == "OK"@),
            Command::XRead { streams, block } => post == pre
                && xread_reply_is(r, pre.store, streams@, now),
            Command::ZRem { key, member, raw_command } => {
                &&& others_kept(pre, post, key@)
                &&& match pre.store.at(key@, now) {
                    None => r == Data::Int(0) && post.outbox@ == pre.outbox@.push(raw_command),
                    Some(Kind::ZSet(z)) => {
                        &&& r == Data::Int(if crate::store::z_has(z, member@) { 1 } else { 0 })
                        &&& post.outbox@ == pre.outbox@.push(raw_command)
                        &&& post.store.at(key@, now) matches Some(Kind::ZSet(nz))
                        &&& forall|p: (Seq<char>, Score)| nz.contains(p) == (p.0 != member@ && z.contains(p))
                    },
                    Some(_) => r matches Data::Error(e) && e@ == err_text(StoreError::WrongType)
                        && post.outbox@ == pre.outbox@,
                }
            },
            Command::Wait { num_replicas, timeout } => post == pre
                && r == Data::Int(wait_value(pre.replica_acks@, pre.master_offset, num_replicas) as i64),
            Command::Invalid => post == pre && r is Error,
            _ => post == pre && r is Null,
        })
}

/// Running `cmds` one after another from `pre` leaves `post`, with `replies[i]`
/// the reply of `cmds[i]` on the state the earlier ones left.
pub open spec fn runs(pre: ServerContext, post: ServerContext, cmds: Seq<Command>, now: u64, replies: Seq<Data>) -> bool {
    &&& replies.len() == cmds.len()
    &&& exists|states: Seq<ServerContext>| #![trigger states.len()]
        states.len() == cmds.len() + 1 && states[0] == pre && states[cmds.len() as int] == post
        && forall|k: int| 0 <= k < cmds.len() ==> executes(states[k], #[trigger] states[k + 1], cmds[k], now, replies[k])
}

impl ServerContext {
    pub open spec fn wf(&self) -> bool {
        self.store.wf()
    }

    pub fn new() -> (r: ServerContext)
        ensures
            r.wf(),
            r.outbox@.len() == 0,
            r.replica_acks@.len() == 0,
            forall|k: Seq<char>, t: u64| r.store.at(k, t) is None,
    {
        ServerContext { store: Store::new(), outbox: Vec::new(), master_offset: 0, replica_acks: Vec::new() }
    }

    /// Queues the raw form of a write for the replicas, after those queued before.
    fn propagate(&mut self, command: String)
        ensures
            final(self).outbox@ == old(self).outbox@.push(command),
            final(self).store == old(self).store,
            final(self).replica_acks == old(self).replica_acks,
    {
        let n = command.as_str().len();
        self.master_offset = if n as u64 <= u64::MAX - self.master_offset {
            self.master_offset + n as u64
        } else {
            u64::MAX
        };
        self.outbox.push(command);
    }

    /// Runs one command against the shared state at time `now` (milliseconds) and
    /// returns its reply. Writes that take effect are queued for the replicas.
    #[verifier::rlimit(100)]
    #[verifier::spinoff_prover]
    pub fn execute_command(&mut self, request: Command, now: u64) -> (r: Data)
        requires
            old(self).wf(),
        ensures
            executes(*old(self), *final(self), request, now, r),
    {
        proof {
            reveal_strlit("PONG");
            reveal_strlit("OK");
        }
        match request {
            Command::Ping => Data::SStr(String::from_str("PONG")),
            Command::Echo(v) => Data::BStr(v),
            Command::Get(k) => match self.store.get(k.as_str(), now) {
                Ok(Some(v)) => Data::BStr(v),
                Ok(None) => Data::Null,
                Err(e) => error_reply(e),
            },
            Command::SetKey { key, value, expiry_ms, raw_command } => {
                let expires_at = match expiry_ms {
                    Some(ms) => Some(if ms <= u64::MAX - now { now + ms } else { u64::MAX }),
                    None => None,
                };
                self.store.set(key, value, expires_at);
                self.propagate(raw_command);
                Data::SStr(String::from_str("OK"))
            },
            Command::Type(k) => Data::SStr(self.store.kind_name(k.as_str(), now)),
            Command::Incr { key, raw_command } => match self.store.incr(key.as_str(), now) {
                Ok(n) => {
                    self.propagate(raw_command);
                    Data::Int(n)
                },
                Err(e) => error_reply(e),
            },
            Command::ListPush { key, values, is_left, raw_command } => {
                match self.store.list_push(key.as_str(), &values, is_left, now) {
                    Ok(n) => {
                        self.propagate(raw_command);
                        if n as u64 <= i64::MAX as u64 {
                            Data::Int(n as i64)
                        } else {
                            Data::Int(i64::MAX)
                        }
                    },
                    Err(e) => error_reply(e),
                }
            },
            Command::LRange { key, start, end } => match self.store.list_range(key.as_str(), start, end, now) {
                Ok(v) => array_reply(v),
                Err(e) => error_reply(e),
            },
            Command::LLen(k) => match self.store.list_len(k.as_str(), now) {
                Ok(n) => if n as u64 <= i64::MAX as u64 { Data::Int(n as i64) } else { Data::Int(i64::MAX) },
                Err(e) => error_reply(e),
            },
            Command::LPop(key, count) => match self.store.list_pop(key.as_str(), count, now) {
                Ok(Some(values)) => {
                    if values.len() == 1 {
                        proof {
                            assert(texts(values@)[0] == values@[0]@);
                            assert(texts(values@).len() == 1);
                        }
                        Data::BStr(values[0].clone())
                    } else {
                        array_reply(values)
                    }
                },
                Ok(None) => Data::Null,
                Err(e) => error_reply(e),
            },
            Command::XAdd { key, id, entry, raw_command } => {
                let (field, value) = entry;
                match self.store.add_stream(key.as_str(), id.as_str(), field, value, now) {
                    Err(e) => {
                        proof {
                            lemma_wrongtype_text(e);
                        }
                        error_reply(e)
                    },
                    Ok((ms, seq)) => {
                        self.propagate(raw_command);
                        Data::BStr(stream_id_text(ms, seq))
                    },
                }
            },
            Command::ZAdd { key, score, member, raw_command } => match parse_decimal(score.as_str()) {
                Some(sc) => match self.store.zadd(key.as_str(), sc, member, now) {
                    Ok(n) => {
                        self.propagate(raw_command);
                        Data::Int(n)
                    },
                    Err(e) => error_reply(e),
                },
                None => Data::Error(String::from_str("ERR value is not a valid float")),
            },
            Command::ZRank { key, member } => match self.store.zrank(key.as_str(), member.as_str(), now) {
                Ok(Some(i)) => {
                    proof {
                        let z = crate::store::zset_of(old(self).store.at(key@, now));
                        assert(z[i as int].0 == member@);
                        assert(count_int(i as int) == (if i as u64 <= i64::MAX as u64 { i as i64 } else { i64::MAX }));
                    }
                    if i as u64 <= i64::MAX as u64 { Data::Int(i as i64) } else { Data::Int(i64::MAX) }
                },
                Ok(None) => Data::Null,
                Err(e) => error_reply(e),
            },
            Command::ZRange { key, start, end } => match self.store.zrange(key.as_str(), start, end, now) {
                Ok(v) => array_reply(v),
                Err(e) => error_reply(e),
            },
            Command::ZCard(key) => match self.store.zcard(key.as_str(), now) {
                Ok(n) => if n as u64 <= i64::MAX as u64 { Data::Int(n as i64) } else { Data::Int(i64::MAX) },
                Err(e) => error_reply(e),
            },
            Command::ZScore(key, member) => match self.store.zscore(key.as_str(), member.as_str(), now) {
                Ok(Some(sc)) => Data::BStr(score_text(&sc)),
                Ok(None) => Data::Null,
                Err(e) => error_reply(e),
            },
            Command::ZRem { key, member, raw_command } => match self.store.zrem(key.as_str(), member.as_str(), now) {
                Ok(n) => {
                    self.propagate(raw_command);
                    Data::Int(n)
                },
                Err(e) => error_reply(e),
            },
            Command::XRange { key, start, end } => {
                match (parse_bound(start.as_str(), true), parse_bound(end.as_str(), false)) {
                    (Some(lo), Some(hi)) => match self.store.xrange(key.as_str(), lo, hi, now) {
                        Ok(v) => entries_reply(v),
                        Err(e) => error_reply(e),
                    },
                    _ => error_reply(StoreError::BadId),
                }
            },
            Command::Keys(pattern) => keys_reply(&self.store, pattern.as_str(), now),
            Command::Replconf => Data::SStr(String::from_str("OK")),
            Command::XRead { streams, block } => xread_reply(&self.store, &streams, now),
            Command::Wait { num_replicas, timeout } => Data::Int(wait_count(&self.replica_acks, self.master_offset, num_replicas)),
            Command::Invalid => Data::Error(String::from_str("ERR unknown command")),
            _ => Data::Null,
        }
    }

    /// One try of `BLPOP`: pops the head of the first list among `keys`, in order,
    /// that holds elements at `now`, and queues that pop for the replicas as an
    /// `LPOP`. `None` when every one of them is empty or absent; the caller waits
    /// and tries again until its deadline.
    pub fn blpop_step(&mut self, keys: &Vec<String>, now: u64) -> (r: Option<(String, String)>)
        requires
            old(self).wf(),
        ensures
            final(self).wf(),
            r is None ==> *final(self) == *old(self)
                && forall|i: int| 0 <= i < keys@.len() ==> !has_items(old(self).store.at(keys@[i]@, now)),
            r matches Some((k, v)) ==> exists|i: int| 0 <= i < keys@.len() && keys@[i]@ == k@
                && (forall|j: int| 0 <= j < i ==> !has_items(old(self).store.at(keys@[j]@, now)))
                && (old(self).store.at(k@, now) matches Some(Kind::List(l)) && l.len() > 0 && v@ == l[0]
                    && final(self).store.at(k@, now) == Some(Kind::List(l.subrange(1, l.len() as int))))
                && others_kept(*old(self), *final(self), k@),
    {
        let mut i: usize = 0;
        while i < keys.len()
            invariant
                0 <= i <= keys@.len(),
                *self == *old(self),
                self.wf(),
                forall|j: int| 0 <= j < i ==> !has_items(old(self).store.at(keys@[j]@, now)),
            decreases keys@.len() - i,
        {
            let key = &keys[i];
            match self.store.list_len(key.as_str(), now) {
                Ok(n) => {
                    if n > 0 {
                        let popped = self.store.list_pop(key.as_str(), 1, now);
                        match popped {
                            Ok(Some(values)) => {
                                proof {
                                    assert(texts(values@).len() == values@.len());
                                    assert(texts(values@).len() == 1);
                                    assert(texts(values@)[0] == values@[0]@);
                                }
                                let v = values[0].clone();
                                let raw = crate::command::get_raw_array_command(
                                    &vec![Data::BStr(String::from_str("LPOP")), Data::BStr(key.clone())]);
                                self.propagate(raw);
                                return Some((key.clone(), v));
                            },
                            _ => {
                                return None;
                            },
                        }
                    }
                },
                Err(_) => {},
            }
            i = i + 1;
        }
        None
    }

    /// Runs the queued commands of a transaction in order and returns their replies
    /// as one array; when any of them failed to decode, runs none and returns an error.
    pub fn process_transaction(&mut self, commands: Vec<Command>, now: u64) -> (r: Data)
        requires
            old(self).wf(),
        ensures
            final(self).wf(),
            (exists|i: int| 0 <= i < commands@.len() && commands@[i] is Invalid) ==> (r is Error && *final(self) == *old(self)),
            (forall|i: int| 0 <= i < commands@.len() ==> !(commands@[i] is Invalid)) ==> (
                r matches Data::Array(items) && runs(*old(self), *final(self), commands@, now, items@)),
    {
        let mut i: usize = 0;
        while i < commands.len()
            invariant
                0 <= i <= commands@.len(),
                forall|j: int| 0 <= j < i ==> !(commands@[j] is Invalid),
                *self == *old(self),
                self.wf(),
            decreases commands@.len() - i,
        {
            if let Command::Invalid = commands[i] {
                return Data::Error(String::from_str("EXECABORT Transaction discarded because of previous errors."));
            }
            i = i + 1;
        }
        let ghost n = commands@.len();
        let ghost cmds = commands@;
        let ghost mut states: Seq<ServerContext> = seq![*self];
        let mut rest = commands;
        let mut responses: Vec<Data> = Vec::new();
        while rest.len() > 0
            invariant
                self.wf(),
                responses@.len() + rest@.len() == n,
                n == cmds.len(),
                rest@ == cmds.subrange(responses@.len() as int, n as int),
                states.len() == responses@.len() + 1,
                states[0] == *old(self),
                states.last() == *self,
                forall|k: int| 0 <= k < responses@.len() ==> executes(states[k], #[trigger] states[k + 1], cmds[k], now, responses@[k]),
            decreases rest@.len(),
        {
            let ghost before = *self;
            let ghost k = responses@.len() as int;
            let c = rest.remove(0);
            proof {
                assert(c == cmds[k]);
                assert(rest@ =~= cmds.subrange(k + 1, n as int));
            }
            let reply = self.execute_command(c, now);
            proof {
                states = states.push(*self);
            }
            responses.push(reply);
            proof {
                assert forall|j: int| 0 <= j < responses@.len() implies executes(states[j], #[trigger] states[j + 1], cmds[j], now, responses@[j]) by {
                    if j == k {
                        assert(states[k] == before);
                    }
                }
            }
        }
        proof {
            assert(runs(*old(self), *self, cmds, now, responses@)) by {
                assert(states.len() == n + 1);
            }
        }
        Data::Array(responses)
    }
}

/// A client's session: whether a transaction is open, and the commands it holds.
pub struct Session {
    pub transacting: bool,
    pub queued: Vec<Command>,
}

impl Session {
    pub fn new() -> (r: Session)
        ensures
            !r.transacting,
            r.queued@.len() == 0,
    {
        Session { transacting: false, queued: Vec::new() }
    }

    /// Handles one command of this client: `MULTI` opens a transaction, commands
    /// inside one are queued, `EXEC` runs them, `DISCARD` drops them; outside a
    /// transaction commands run at once.
    pub fn handle(&mut self, ctx: &mut ServerContext, cmd: Command, now: u64) -> (r: Data)
        requires
            old(ctx).wf(),
        ensures
            final(ctx).wf(),
            old(self).transacting && !(cmd is Exec || cmd is Discard || cmd is Multi) ==> (
                final(self).transacting && final(self).queued@ == old(self).queued@.push(cmd)
                && *final(ctx) == *old(ctx) && (r matches Data::SStr(s) && s@ == "QUEUED"@)),
            old(self).transacting && (cmd is Exec || cmd is Discard) ==> (
                !final(self).transacting && final(self).queued@.len() == 0),
            old(self).transacting && cmd is Exec && (forall|i: int| 0 <= i < old(self).queued@.len() ==> !(old(self).queued@[i] is Invalid)) ==> (
                r matches Data::Array(items) && runs(*old(ctx), *final(ctx), old(self).queued@, now, items@)),
            old(self).transacting && cmd is Exec && (exists|i: int| 0 <= i < old(self).queued@.len() && old(self).queued@[i] is Invalid) ==> (
                r is Error && *final(ctx) == *old(ctx)),
            !old(self).transacting && cmd is Multi ==> (
                final(self).transacting && final(self).queued@.len() == 0 && *final(ctx) == *old(ctx)
                && (r matches Data::SStr(s) && s@ == "OK"@)),
            !old(self).transacting && !(cmd is Exec || cmd is Discard || cmd is Multi) ==> (
                !final(self).transacting && final(self).queued@ == old(self).queued@),
    {
        proof {
            reveal_strlit("QUEUED");
            reveal_strlit("OK");
        }
        if self.transacting {
            match cmd {
                Command::Exec => {
                    let mut q: Vec<Command> = Vec::new();
                    std::mem::swap(&mut q, &mut self.queued);
                    self.transacting = false;
                    ctx.process_transaction(q, now)
                },
                Command::Discard => {
                    self.queued = Vec::new();
                    self.transacting = false;
                    Data::SStr(String::from_str("OK"))
                },
                Command::Multi => Data::Error(String::from_str("ERR MULTI calls can not be nested")),
                other => {
                    self.queued.push(other);
                    Data::SStr(String::from_str("QUEUED"))
                },
            }
        } else {
            match cmd {
                Command::Multi => {
                    self.queued = Vec::new();
                    self.transacting = true;
                    Data::SStr(String::from_str("OK"))
                },
                Command::Exec => Data::Error(String::from_str("ERR EXEC without MULTI")),
                Command::Discard => Data::Error(String::from_str("ERR DISCARD without MULTI")),
                other => ctx.execute_command(other, now),
            }
        }
    }
}

} // verus!
