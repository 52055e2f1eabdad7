use vstd::prelude::*;
use crate::command::texts;
use crate::number::{digits_value, is_digits, is_signed_digits, parse_i64, parse_u64, signed_value};
use crate::score::{compare_scores, lemma_score_equiv, lemma_score_trans, score_before, Score};

verus! {

/// One entry of a stream: its id `(ms, seq)` and one field-value pair.
pub struct StreamEntry {
    pub ms: u64,
    pub seq: u64,
    pub field: String,
    pub value: String,
}

/// The value held under a key.
pub enum Value {
    Str(String),
    List(Vec<String>),
    Stream(Vec<StreamEntry>),
    /// Members with their scores, kept in ascending (score, member) order.
    ZSet(Vec<(String, Score)>),
}

/// A key, its value and its optional absolute expiry time in milliseconds.
pub struct Entry {
    pub key: String,
    pub value: Value,
    pub expires_at: Option<u64>,
}

/// What a value is, as plain mathematical data.
pub enum Kind {
    Str(Seq<char>),
    List(Seq<Seq<char>>),
    Stream(Seq<(u64, u64, Seq<char>, Seq<char>)>),
    ZSet(Seq<(Seq<char>, Score)>),
}

/// Errors of the store's operations.
pub enum StoreError {
    /// The key holds a value of another kind.
    WrongType,
    /// The stored text is not a signed 64-bit integer, or the result overflows.
    NotInteger,
    /// The stream id was given as `0-0`.
    IdZero,
    /// The stream id is not greater than the stream's last id.
    IdNotGreater,
    /// The stream id is not of the form `*`, `ms-*` or `ms-seq`.
    BadId,
}

/// The key-value store: entries with distinct keys.
pub struct Store {
    pub entries: Vec<Entry>,
}

pub open spec fn stream_view(v: Seq<StreamEntry>) -> Seq<(u64, u64, Seq<char>, Seq<char>)> {
    v.map_values(|e: StreamEntry| (e.ms, e.seq, e.field@, e.value@))
}

pub open spec fn zset_view(v: Seq<(String, Score)>) -> Seq<(Seq<char>, Score)> {
    v.map_values(|p: (String, Score)| (p.0@, p.1))
}

pub open spec fn kind_of(v: Value) -> Kind {
    match v {
        Value::Str(s) => Kind::Str(s@),
        Value::List(l) => Kind::List(texts(l@)),
        Value::Stream(s) => Kind::Stream(stream_view(s@)),
        Value::ZSet(z) => Kind::ZSet(zset_view(z@)),
    }
}

/// `(a, b)` comes strictly before `(c, d)` in lexicographic order.
pub open spec fn id_lt(a: u64, b: u64, c: u64, d: u64) -> bool {
    a < c || (a == c && b < d)
}

/// Stream ids strictly increase along the stream.
pub open spec fn stream_ordered(s: Seq<(u64, u64, Seq<char>, Seq<char>)>) -> bool {
    forall|i: int, j: int| 0 <= i < j < s.len() ==> id_lt(s[i].0, s[i].1, s[j].0, s[j].1)
}

/// Text order: by the first differing character, a proper prefix first.
pub open spec fn text_lt(a: Seq<char>, b: Seq<char>) -> bool
    decreases a.len(),
{
    if b.len() == 0 {
        false
    } else if a.len() == 0 {
        true
    } else if a[0] != b[0] {
        (a[0] as int) < (b[0] as int)
    } else {
        text_lt(a.drop_first(), b.drop_first())
    }
}

proof fn lemma_text_trans(a: Seq<char>, b: Seq<char>, c: Seq<char>)
    requires
        text_lt(a, b),
        text_lt(b, c),
    ensures
        text_lt(a, c),
    decreases a.len(),
{
    if a.len() > 0 && b.len() > 0 && c.len() > 0 && a[0] == b[0] && b[0] == c[0] {
        lemma_text_trans(a.drop_first(), b.drop_first(), c.drop_first());
    }
}

proof fn lemma_text_total(a: Seq<char>, b: Seq<char>)
    ensures
        a != b ==> (text_lt(a, b) || text_lt(b, a)),
        !(text_lt(a, b) && text_lt(b, a)),
        !text_lt(a, a),
    decreases a.len(),
{
    if a.len() > 0 && b.len() > 0 && a[0] == b[0] {
        lemma_text_total(a.drop_first(), b.drop_first());
        if a != b {
            assert(a =~= seq![a[0]] + a.drop_first());
            assert(b =~= seq![b[0]] + b.drop_first());
        }
    } else if a.len() == 0 && b.len() == 0 {
        assert(a =~= b);
    } else if a.len() > 0 && b.len() > 0 {
        assert((a[0] as int) != (b[0] as int));
    }
    if a.len() > 0 {
        lemma_text_total(a.drop_first(), a.drop_first());
    }
}

/// Compares two texts in text order.
fn text_less(a: &str, b: &str) -> (r: bool)
    ensures
        r == text_lt(a@, b@),
{
    let n = a.unicode_len();
    let m = b.unicode_len();
    let mut i: usize = 0;
    proof {
        assert(a@.subrange(0, n as int) =~= a@);
        assert(b@.subrange(0, m as int) =~= b@);
    }
    while i < n && i < m
        invariant
            n == a@.len(),
            m == b@.len(),
            0 <= i <= n,
            i <= m,
            text_lt(a@, b@) == text_lt(a@.subrange(i as int, n as int), b@.subrange(i as int, m as int)),
        decreases n - i,
    {
        let x = a.get_char(i);
        let y = b.get_char(i);
        if x != y {
            return (x as u32) < (y as u32);
        }
        proof {
            assert(a@.subrange(i as int, n as int).drop_first() =~= a@.subrange(i + 1, n as int));
            assert(b@.subrange(i as int, m as int).drop_first() =~= b@.subrange(i + 1, m as int));
        }
        i = i + 1;
    }
    i < m
}

/// `(s1, m1)` comes strictly before `(s2, m2)`: by score, then by member text.
pub open spec fn pair_before(p: (Seq<char>, Score), q: (Seq<char>, Score)) -> bool {
    score_before(p.1, q.1) || (!score_before(q.1, p.1) && text_lt(p.0, q.0))
}

/// Members are distinct and in strictly ascending (score, member) order, and every
/// score is valid.
pub open spec fn zset_ordered(z: Seq<(Seq<char>, Score)>) -> bool {
    &&& forall|i: int, j: int| 0 <= i < j < z.len() ==> pair_before(z[i], z[j])
    &&& forall|i: int, j: int| 0 <= i < z.len() && 0 <= j < z.len() && z[i].0 == z[j].0 ==> i == j
    &&& forall|i: int| 0 <= i < z.len() ==> (#[trigger] z[i]).1.wf()
}

/// The sorted set's pairs, nothing when the key is absent.
pub open spec fn zset_of(k: Option<Kind>) -> Seq<(Seq<char>, Score)> {
    match k {
        Some(Kind::ZSet(z)) => z,
        _ => Seq::empty(),
    }
}

/// `m` is a member of `z`.
pub open spec fn z_has(z: Seq<(Seq<char>, Score)>, m: Seq<char>) -> bool {
    exists|i: int| 0 <= i < z.len() && z[i].0 == m
}

proof fn lemma_pair_trans(p: (Seq<char>, Score), q: (Seq<char>, Score), r: (Seq<char>, Score))
    requires
        pair_before(p, q),
        pair_before(q, r),
    ensures
        pair_before(p, r),
{
    if score_before(p.1, q.1) {
        if score_before(q.1, r.1) {
            lemma_score_trans(p.1, q.1, r.1);
        } else {
            lemma_score_equiv(q.1, r.1, p.1);
        }
    } else {
        lemma_score_equiv(p.1, q.1, r.1);
        if !score_before(q.1, r.1) {
            lemma_score_equiv(q.1, r.1, p.1);
            lemma_text_trans(p.0, q.0, r.0);
        }
    }
}

proof fn lemma_pair_total(p: (Seq<char>, Score), q: (Seq<char>, Score))
    ensures
        p.0 != q.0 ==> (pair_before(p, q) || pair_before(q, p)),
        !(pair_before(p, q) && pair_before(q, p)),
{
    lemma_text_total(p.0, q.0);
}

pub open spec fn kind_wf(k: Kind) -> bool {
    match k {
        Kind::Stream(s) => stream_ordered(s),
        Kind::ZSet(z) => zset_ordered(z),
        _ => true,
    }
}

pub open spec fn alive(e: Entry, now: u64) -> bool {
    e.expires_at matches Some(t) ==> now < t
}

pub open spec fn has_at(s: Seq<Entry>, k: Seq<char>, i: int) -> bool {
    0 <= i < s.len() && s[i].key@ == k
}

pub open spec fn unique(s: Seq<Entry>) -> bool {
    forall|i: int, j: int| 0 <= i < s.len() && 0 <= j < s.len() && s[i].key@ == s[j].key@ ==> i == j
}

/// What key `k` holds at time `now`: nothing once its entry has expired.
pub open spec fn lookup(s: Seq<Entry>, k: Seq<char>, now: u64) -> Option<Kind> {
    if exists|i: int| has_at(s, k, i) {
        let i = choose|i: int| has_at(s, k, i);
        if alive(s[i], now) {
            Some(kind_of(s[i].value))
        } else {
            None
        }
    } else {
        None
    }
}

pub open spec fn entry_lookup(e: Entry, now: u64) -> Option<Kind> {
    if alive(e, now) {
        Some(kind_of(e.value))
    } else {
        None
    }
}

proof fn lemma_lookup_at(s: Seq<Entry>, k: Seq<char>, i: int, now: u64)
    requires
        unique(s),
        has_at(s, k, i),
    ensures
        lookup(s, k, now) == entry_lookup(s[i], now),
{
    let j = choose|j: int| has_at(s, k, j);
    assert(has_at(s, k, j));
}

proof fn lemma_replace(s: Seq<Entry>, i: int, e: Entry)
    requires
        unique(s),
        0 <= i < s.len(),
        s[i].key@ == e.key@,
    ensures
        unique(s.update(i, e)),
        forall|k: Seq<char>, t: u64| k != e.key@ ==> lookup(s.update(i, e), k, t) == lookup(s, k, t),
        forall|t: u64| lookup(s.update(i, e), e.key@, t) == entry_lookup(e, t),
{
    let n = s.update(i, e);
    assert(unique(n));
    assert forall|k: Seq<char>, t: u64| k != e.key@ implies lookup(n, k, t) == lookup(s, k, t) by {
        if exists|j: int| has_at(s, k, j) {
            let j = choose|j: int| has_at(s, k, j);
            assert(has_at(n, k, j));
            lemma_lookup_at(s, k, j, t);
            lemma_lookup_at(n, k, j, t);
        } else {
            assert forall|j: int| !has_at(n, k, j) by {
                if 0 <= j < s.len() && j != i {
                    assert(!has_at(s, k, j));
                }
            }
        }
    }
    assert forall|t: u64| lookup(n, e.key@, t) == entry_lookup(e, t) by {
        assert(has_at(n, e.key@, i));
        lemma_lookup_at(n, e.key@, i, t);
    }
}

proof fn lemma_push(s: Seq<Entry>, e: Entry)
    requires
        unique(s),
        forall|j: int| 0 <= j < s.len() ==> s[j].key@ != e.key@,
    ensures
        unique(s.push(e)),
        forall|k: Seq<char>, t: u64| k != e.key@ ==> lookup(s.push(e), k, t) == lookup(s, k, t),
        forall|t: u64| lookup(s.push(e), e.key@, t) == entry_lookup(e, t),
{
    let n = s.push(e);
    assert(unique(n));
    assert forall|k: Seq<char>, t: u64| k != e.key@ implies lookup(n, k, t) == lookup(s, k, t) by {
        if exists|j: int| has_at(s, k, j) {
            let j = choose|j: int| has_at(s, k, j);
            assert(has_at(n, k, j));
            lemma_lookup_at(s, k, j, t);
            lemma_lookup_at(n, k, j, t);
        } else {
            assert forall|j: int| !has_at(n, k, j) by {
                if 0 <= j < s.len() {
                    assert(!has_at(s, k, j));
                }
            }
        }
    }
    assert forall|t: u64| lookup(n, e.key@, t) == entry_lookup(e, t) by {
        assert(has_at(n, e.key@, s.len() as int));
        lemma_lookup_at(n, e.key@, s.len() as int, t);
    }
}

fn same_text(a: &str, b: &str) -> (r: bool)
    ensures
        r == (a@ == b@),
{
    let n = a.unicode_len();
    if n != b.unicode_len() {
        return false;
    }
    let mut i: usize = 0;
    while i < n
        invariant
            n == a@.len(),
            n == b@.len(),
            0 <= i <= n,
            forall|j: int| 0 <= j < i ==> a@[j] == b@[j],
        decreases n - i,
    {
        if a.get_char(i) != b.get_char(i) {
            return false;
        }
        i = i + 1;
    }
    proof {
        assert(a@ =~= b@);
    }
    true
}


/// The list after pushing `vals`: at the tail in order, or one by one at the head.
pub open spec fn pushed(l: Seq<Seq<char>>, vals: Seq<Seq<char>>, left: bool) -> Seq<Seq<char>> {
    if left {
        vals.reverse() + l
    } else {
        l + vals
    }
}

/// The inclusive range `[start, end]` of a sequence of length `len` as a half-open
/// pair of indices: negative indices count from the tail, bounds are clamped, and
/// an empty range is `(0, 0)`.
pub open spec fn range_bounds(len: int, start: int, end: int) -> (int, int) {
    let lo = if start < 0 {
        if len + start < 0 { 0 } else { len + start }
    } else {
        start
    };
    let hi = if end < 0 { len + end } else if end >= len { len - 1 } else { end };
    if lo > hi || lo >= len {
        (0, 0)
    } else {
        (lo, hi + 1)
    }
}

pub open spec fn range_of<A>(s: Seq<A>, start: int, end: int) -> Seq<A> {
    let b = range_bounds(s.len() as int, start, end);
    s.subrange(b.0, b.1)
}


/// `s` is `ms-seq` written in decimal, split at index `d`.
pub open spec fn id_split(s: Seq<char>, d: int) -> bool {
    &&& 0 <= d < s.len()
    &&& s[d] == '-'
    &&& is_digits(s.subrange(0, d))
    &&& is_digits(s.subrange(d + 1, s.len() as int))
}

/// The stream's entries, nothing when the key is absent.
pub open spec fn stream_of(k: Option<Kind>) -> Seq<(u64, u64, Seq<char>, Seq<char>)> {
    match k {
        Some(Kind::Stream(s)) => s,
        _ => Seq::empty(),
    }
}

fn clone_stream(v: &Vec<StreamEntry>) -> (r: Vec<StreamEntry>)
    ensures
        stream_view(r@) == stream_view(v@),
{
    let mut out: Vec<StreamEntry> = Vec::new();
    let mut i: usize = 0;
    while i < v.len()
        invariant
            0 <= i <= v@.len(),
            stream_view(out@) == stream_view(v@.subrange(0, i as int)),
        decreases v@.len() - i,
    {
        let e = &v[i];
        out.push(StreamEntry { ms: e.ms, seq: e.seq, field: e.field.clone(), value: e.value.clone() });
        proof {
            assert(stream_view(v@.subrange(0, i + 1)) =~= stream_view(v@.subrange(0, i as int)).push(
                (v@[i as int].ms, v@[i as int].seq, v@[i as int].field@, v@[i as int].value@)));
            assert(stream_view(out@) =~= stream_view(v@.subrange(0, i + 1)));
        }
        i = i + 1;
    }
    proof {
        assert(v@.subrange(0, v@.len() as int) =~= v@);
    }
    out
}

/// The index of the first `-` in `s`.
fn dash_index(s: &str) -> (r: Option<usize>)
    ensures
        r matches Some(d) ==> d < s@.len() && s@[d as int] == '-' && forall|j: int| 0 <= j < d ==> s@[j] != '-',
        r is None ==> forall|j: int| 0 <= j < s@.len() ==> s@[j] != '-',
{
    let n = s.unicode_len();
    let mut i: usize = 0;
    while i < n
        invariant
            n == s@.len(),
            0 <= i <= n,
            forall|j: int| 0 <= j < i ==> s@[j] != '-',
        decreases n - i,
    {
        if s.get_char(i) == '-' {
            return Some(i);
        }
        i = i + 1;
    }
    None
}


proof fn lemma_push_contains<A>(s: Seq<A>, x: A, p: A)
    ensures
        s.push(x).contains(p) == (s.contains(p) || p == x),
{
    if s.push(x).contains(p) {
        let k = choose|k: int| 0 <= k < s.push(x).len() && s.push(x)[k] == p;
        if k < s.len() {
            assert(s[k] == p);
        }
    }
    if s.contains(p) {
        let k = choose|k: int| 0 <= k < s.len() && s[k] == p;
        assert(s.push(x)[k] == p);
    }
    if p == x {
        assert(s.push(x)[s.len() as int] == p);
    }
}

/// `(member, score)` comes strictly before `(m2, s2)` in sorted-set order.
fn pair_less(a: &(String, Score), b: &(String, Score)) -> (r: bool)
    requires
        a.1.wf(),
        b.1.wf(),
    ensures
        r == pair_before((a.0@, a.1), (b.0@, b.1)),
{
    let c = compare_scores(&a.1, &b.1);
    if c == -1 {
        true
    } else if c == 1 {
        false
    } else {
        text_less(a.0.as_str(), b.0.as_str())
    }
}

/// The sorted set `z` with `member` given `score`: its old pair, if any, replaced,
/// and the order kept.
fn zset_insert(z: &Vec<(String, Score)>, member: String, score: Score) -> (r: (Vec<(String, Score)>, bool))
    requires
        zset_ordered(zset_view(z@)),
        score.wf(),
    ensures
        zset_ordered(zset_view(r.0@)),
        r.1 == !z_has(zset_view(z@), member@),
        zset_view(r.0@).contains((member@, score)),
        forall|p: (Seq<char>, Score)| p.0 != member@ ==> (zset_view(r.0@).contains(p) == zset_view(z@).contains(p)),
{
    let ghost old_z = zset_view(z@);
    let ghost nw = (member@, score);
    let mut out: Vec<(String, Score)> = Vec::new();
    let mut inserted = false;
    let mut found = false;
    let mut i: usize = 0;
    let item = (member, score);
    while i < z.len()
        invariant
            0 <= i <= z@.len(),
            old_z == zset_view(z@),
            zset_ordered(old_z),
            nw == (item.0@, item.1),
            score.wf(),
            item.1 == score,
            zset_ordered(zset_view(out@)),
            forall|x: int, j: int| 0 <= x < out@.len() && i <= j < old_z.len() ==> #[trigger] pair_before(zset_view(out@)[x], old_z[j]),
            !inserted ==> forall|x: int| 0 <= x < out@.len() ==> pair_before(#[trigger] zset_view(out@)[x], nw),
            inserted ==> pair_before(nw, old_z[i as int]) || i == 0 || true,
            found == exists|j: int| 0 <= j < i && old_z[j].0 == nw.0,
            forall|p: (Seq<char>, Score)| #![trigger zset_view(out@).contains(p)] zset_view(out@).contains(p) == (
                (p.0 != nw.0 && exists|j: int| 0 <= j < i && old_z[j] == p) || (inserted && p == nw)),
        decreases z@.len() - i,
    {
        let e = &z[i];
        proof {
            assert(old_z[i as int] == (z@[i as int].0@, z@[i as int].1));
            assert(old_z[i as int].1.wf());
        }
        let same = same_text(e.0.as_str(), item.0.as_str());
        if !same {
            proof {
                assert(old_z[i as int].0 != nw.0);
                if exists|j: int| 0 <= j < i + 1 && old_z[j].0 == nw.0 {
                    let j = choose|j: int| 0 <= j < i + 1 && old_z[j].0 == nw.0;
                    assert(j < i);
                }
            }
            if !inserted && pair_less(&item, e) {
                proof {
                    assert forall|j: int| i <= j < old_z.len() implies pair_before(nw, #[trigger] old_z[j]) by {
                        if j > i {
                            lemma_pair_trans(nw, old_z[i as int], old_z[j]);
                        }
                    }
                }
                let ghost before = zset_view(out@);
                out.push((item.0.clone(), item.1));
                inserted = true;
                proof {
                    assert(zset_view(out@) =~= before.push(nw));
                    assert forall|p: (Seq<char>, Score)| #![trigger zset_view(out@).contains(p)] zset_view(out@).contains(p) == (
                        (p.0 != nw.0 && exists|j: int| 0 <= j < i && old_z[j] == p) || (inserted && p == nw)) by {
                        lemma_push_contains(before, nw, p);
                    }
                    assert forall|x: int| 0 <= x < before.len() implies before[x].0 != nw.0 by {
                        assert(before.contains(before[x]));
                    }
                    assert forall|a: int, b: int| 0 <= a < b < zset_view(out@).len() implies
                        pair_before(zset_view(out@)[a], zset_view(out@)[b]) by {
                        assert(zset_view(out@)[a] == before[a]);
                        if b < before.len() {
                            assert(zset_view(out@)[b] == before[b]);
                        }
                    }
                    assert forall|a: int, b: int| 0 <= a < zset_view(out@).len() && 0 <= b < zset_view(out@).len()
                        && zset_view(out@)[a].0 == zset_view(out@)[b].0 implies a == b by {
                        if a < before.len() {
                            assert(zset_view(out@)[a] == before[a]);
                        }
                        if b < before.len() {
                            assert(zset_view(out@)[b] == before[b]);
                        }
                    }
                }
            }
            let ghost before = zset_view(out@);
            proof {
                lemma_pair_total(old_z[i as int], nw);
            }
            out.push((e.0.clone(), e.1));
            proof {
                assert(zset_view(out@) =~= before.push(old_z[i as int]));
                assert forall|x: int, j: int| 0 <= x < zset_view(out@).len() && i + 1 <= j < old_z.len() implies
                    #[trigger] pair_before(zset_view(out@)[x], old_z[j]) by {
                    if x == before.len() {
                    }
                }
                assert forall|p: (Seq<char>, Score)| #![trigger zset_view(out@).contains(p)] zset_view(out@).contains(p) == (
                    (p.0 != nw.0 && exists|j: int| 0 <= j < i + 1 && old_z[j] == p) || (inserted && p == nw)) by {
                    lemma_push_contains(before, old_z[i as int], p);
                    if exists|j: int| 0 <= j < i + 1 && old_z[j] == p {
                        let j = choose|j: int| 0 <= j < i + 1 && old_z[j] == p;
                        if j < i {
                            assert(exists|j2: int| 0 <= j2 < i && old_z[j2] == p);
                        }
                    }
                }
                assert forall|a: int, b: int| 0 <= a < zset_view(out@).len() && 0 <= b < zset_view(out@).len()
                    && zset_view(out@)[a].0 == zset_view(out@)[b].0 implies a == b by {
                    if a != b && a < before.len() && b < before.len() {
                        assert(zset_view(out@)[a] == before[a]);
                        assert(zset_view(out@)[b] == before[b]);
                    }
                    if a != b && (a == before.len() || b == before.len()) {
                        let o = if a == before.len() { b } else { a };
                        assert(zset_view(out@)[before.len() as int] == old_z[i as int]);
                        assert(zset_view(out@)[o] == before[o]);
                        assert(pair_before(before[o], old_z[i as int]));
                        if before[o] == nw {
                            assert(before[o].0 != old_z[i as int].0);
                        } else {
                            assert(before.contains(before[o]));
                            assert(exists|j: int| 0 <= j < i && old_z[j] == before[o]);
                            let j = choose|j: int| 0 <= j < i && old_z[j] == before[o];
                            assert(old_z[j].0 != old_z[i as int].0);
                            assert(before[o].0 != old_z[i as int].0);
                        }
                    }
                }
            }
        } else {
            proof {
                assert(old_z[i as int].0 == nw.0);
                assert forall|p: (Seq<char>, Score)| #![trigger zset_view(out@).contains(p)] zset_view(out@).contains(p) == (
                    (p.0 != nw.0 && exists|j: int| 0 <= j < i + 1 && old_z[j] == p) || (inserted && p == nw)) by {
                    if p.0 != nw.0 && exists|j: int| 0 <= j < i + 1 && old_z[j] == p {
                        let j = choose|j: int| 0 <= j < i + 1 && old_z[j] == p;
                        assert(j < i);
                    }
                }
                assert forall|x: int, j: int| 0 <= x < zset_view(out@).len() && i + 1 <= j < old_z.len() implies
                    #[trigger] pair_before(zset_view(out@)[x], old_z[j]) by {
                }
            }
            found = true;
        }
        i = i + 1;
    }
    if !inserted {
        let ghost before = zset_view(out@);
        proof {
            assert forall|x: int| 0 <= x < before.len() implies before[x].0 != nw.0 by {
                assert(before.contains(before[x]));
            }
        }
        out.push(item);
        proof {
            assert(zset_view(out@) =~= before.push(nw));
            assert(zset_view(out@)[before.len() as int] == nw);
            assert forall|p: (Seq<char>, Score)| #![trigger zset_view(out@).contains(p)] zset_view(out@).contains(p) == (
                (p.0 != nw.0 && exists|j: int| 0 <= j < z@.len() && old_z[j] == p) || p == nw) by {
                lemma_push_contains(before, nw, p);
            }
        }
    }
    proof {
        assert(zset_view(out@).contains(nw));
        assert forall|p: (Seq<char>, Score)| p.0 != nw.0 implies (zset_view(out@).contains(p) == old_z.contains(p)) by {
            if old_z.contains(p) {
                let j = choose|j: int| 0 <= j < old_z.len() && old_z[j] == p;
                assert(exists|j2: int| 0 <= j2 < z@.len() && old_z[j2] == p);
            }
        }
    }
    (out, !found)
}


/// The sorted set `z` without `member`, in the same order.
fn zset_remove(z: &Vec<(String, Score)>, member: &str) -> (r: (Vec<(String, Score)>, bool))
    requires
        zset_ordered(zset_view(z@)),
    ensures
        zset_ordered(zset_view(r.0@)),
        r.1 == z_has(zset_view(z@), member@),
        forall|p: (Seq<char>, Score)| #![trigger zset_view(r.0@).contains(p)] zset_view(r.0@).contains(p) == (p.0 != member@ && zset_view(z@).contains(p)),
{
    let ghost old_z = zset_view(z@);
    let mut out: Vec<(String, Score)> = Vec::new();
    let mut found = false;
    let mut i: usize = 0;
    while i < z.len()
        invariant
            0 <= i <= z@.len(),
            old_z == zset_view(z@),
            zset_ordered(old_z),
            zset_ordered(zset_view(out@)),
            forall|x: int, j: int| 0 <= x < out@.len() && i <= j < old_z.len() ==> #[trigger] pair_before(zset_view(out@)[x], old_z[j]),
            found == exists|j: int| 0 <= j < i && old_z[j].0 == member@,
            forall|p: (Seq<char>, Score)| #![trigger zset_view(out@).contains(p)] zset_view(out@).contains(p) == (
                p.0 != member@ && exists|j: int| 0 <= j < i && old_z[j] == p),
        decreases z@.len() - i,
    {
        let e = &z[i];
        proof {
            assert(old_z[i as int] == (z@[i as int].0@, z@[i as int].1));
        }
        if same_text(e.0.as_str(), member) {
            proof {
                assert forall|p: (Seq<char>, Score)| #![trigger zset_view(out@).contains(p)] zset_view(out@).contains(p) == (
                    p.0 != member@ && exists|j: int| 0 <= j < i + 1 && old_z[j] == p) by {
                    if p.0 != member@ && exists|j: int| 0 <= j < i + 1 && old_z[j] == p {
                        let j = choose|j: int| 0 <= j < i + 1 && old_z[j] == p;
                        assert(j < i);
                    }
                }
            }
            found = true;
        } else {
            let ghost before = zset_view(out@);
            out.push((e.0.clone(), e.1));
            proof {
                assert(zset_view(out@) =~= before.push(old_z[i as int]));
                if exists|j: int| 0 <= j < i + 1 && old_z[j].0 == member@ {
                    let j = choose|j: int| 0 <= j < i + 1 && old_z[j].0 == member@;
                    assert(j < i);
                }
                assert forall|p: (Seq<char>, Score)| #![trigger zset_view(out@).contains(p)] zset_view(out@).contains(p) == (
                    p.0 != member@ && exists|j: int| 0 <= j < i + 1 && old_z[j] == p) by {
                    lemma_push_contains(before, old_z[i as int], p);
                    if exists|j: int| 0 <= j < i + 1 && old_z[j] == p {
                        let j = choose|j: int| 0 <= j < i + 1 && old_z[j] == p;
                        if j < i {
                            assert(exists|j2: int| 0 <= j2 < i && old_z[j2] == p);
                        }
                    }
                }
                assert forall|x: int, j: int| 0 <= x < zset_view(out@).len() && i + 1 <= j < old_z.len() implies
                    #[trigger] pair_before(zset_view(out@)[x], old_z[j]) by {
                    if x < before.len() {
                        assert(zset_view(out@)[x] == before[x]);
                    }
                }
                assert forall|a: int, b: int| 0 <= a < b < zset_view(out@).len() implies
                    pair_before(zset_view(out@)[a], zset_view(out@)[b]) by {
                    assert(zset_view(out@)[a] == before[a]);
                    if b < before.len() {
                        assert(zset_view(out@)[b] == before[b]);
                    }
                }
                assert forall|a: int, b: int| 0 <= a < zset_view(out@).len() && 0 <= b < zset_view(out@).len()
                    && zset_view(out@)[a].0 == zset_view(out@)[b].0 implies a == b by {
                    if a < before.len() {
                        assert(zset_view(out@)[a] == before[a]);
                    }
                    if b < before.len() {
                        assert(zset_view(out@)[b] == before[b]);
                    }
                    if a != b && (a == before.len() || b == before.len()) {
                        let o = if a == before.len() { b } else { a };
                        assert(before.contains(before[o]));
                        let j = choose|j: int| 0 <= j < i && old_z[j] == before[o];
                        assert(old_z[j].0 != old_z[i as int].0);
                    }
                }
            }
        }
        i = i + 1;
    }
    proof {
        assert forall|p: (Seq<char>, Score)| zset_view(out@).contains(p) == (p.0 != member@ && old_z.contains(p)) by {
            if old_z.contains(p) {
                let j = choose|j: int| 0 <= j < old_z.len() && old_z[j] == p;
                assert(exists|j2: int| 0 <= j2 < z@.len() && old_z[j2] == p);
            }
        }
    }
    (out, found)
}


/// `(a, b)` is at most `(c, d)` in lexicographic order.
pub open spec fn id_le(a: u64, b: u64, c: u64, d: u64) -> bool {
    a < c || (a == c && b <= d)
}

/// The entries of `s` whose ids lie between `lo` and `hi`, both included, in order.
pub open spec fn select(s: Seq<(u64, u64, Seq<char>, Seq<char>)>, lo: (u64, u64), hi: (u64, u64)) -> Seq<(u64, u64, Seq<char>, Seq<char>)>
    decreases s.len(),
{
    if s.len() == 0 {
        Seq::empty()
    } else {
        let e = s.last();
        let rest = select(s.drop_last(), lo, hi);
        if id_le(lo.0, lo.1, e.0, e.1) && id_le(e.0, e.1, hi.0, hi.1) {
            rest.push(e)
        } else {
            rest
        }
    }
}

/// What a range bound reads as: `-` the least id, `+` the greatest, `ms` the first
/// (for a start) or last (for an end) id of that millisecond, `ms-seq` itself.
pub open spec fn bound_of(s: Seq<char>, is_start: bool) -> Option<(u64, u64)> {
    if s == seq!['-'] {
        Some((0, 0))
    } else if s == seq!['+'] {
        Some((u64::MAX, u64::MAX))
    } else if is_digits(s) && digits_value(s) <= u64::MAX {
        Some((digits_value(s) as u64, if is_start { 0 } else { u64::MAX }))
    } else if exists|d: int| id_split(s, d) && digits_value(s.subrange(0, d)) <= u64::MAX
        && digits_value(s.subrange(d + 1, s.len() as int)) <= u64::MAX {
        let d = choose|d: int| id_split(s, d) && digits_value(s.subrange(0, d)) <= u64::MAX
            && digits_value(s.subrange(d + 1, s.len() as int)) <= u64::MAX;
        Some((digits_value(s.subrange(0, d)) as u64, digits_value(s.subrange(d + 1, s.len() as int)) as u64))
    } else {
        None
    }
}

/// Reads a range bound of a stream id.
pub fn parse_bound(s: &str, is_start: bool) -> (r: Option<(u64, u64)>)
    ensures
        r == bound_of(s@, is_start),
{
    let n = s.unicode_len();
    if n == 1 && s.get_char(0) == '-' {
        proof {
            assert(s@ =~= seq!['-']);
        }
        return Some((0, 0));
    }
    if n == 1 && s.get_char(0) == '+' {
        proof {
            assert(s@ =~= seq!['+']);
        }
        return Some((u64::MAX, u64::MAX));
    }
    proof {
        if n == 1 {
            assert(s@ != seq!['-'] && s@ != seq!['+']) by {
                if s@ == seq!['-'] {
                    assert(s@[0] == '-');
                }
                if s@ == seq!['+'] {
                    assert(s@[0] == '+');
                }
            }
        } else {
            assert(s@.len() != seq!['-'].len());
        }
    }
    match parse_u64(s) {
        Some(v) => {
            return Some((v, if is_start { 0 } else { u64::MAX }));
        },
        None => {},
    }
    let d = match dash_index(s) {
        Some(d) => d,
        None => {
            proof {
                assert forall|d2: int| !id_split(s@, d2) by {}
            }
            return None;
        },
    };
    let left = s.substring_char(0, d);
    let right = s.substring_char(d + 1, n);
    proof {
        assert forall|d2: int| id_split(s@, d2) implies d2 == d by {
            if d2 > d {
                assert(s@.subrange(0, d2)[d as int] == s@[d as int]);
            }
        }
    }
    match (parse_u64(left), parse_u64(right)) {
        (Some(a), Some(b)) => {
            proof {
                assert(id_split(s@, d as int));
            }
            Some((a, b))
        },
        _ => None,
    }
}

/// In a well-formed store, a sorted set read whole with the range `0 .. -1` comes
/// out in strictly ascending (score, member) order, and the ids of every stream
/// strictly increase, so an id not above the last one is never stored.
pub proof fn lemma_store_orders(st: Store, k: Seq<char>, now: u64)
    requires
        st.wf(),
    ensures
        st.at(k, now) matches Some(Kind::ZSet(z)) ==> forall|i: int, j: int| 0 <= i < j < range_of(z, 0, -1).len()
            ==> #[trigger] pair_before(range_of(z, 0, -1)[i], range_of(z, 0, -1)[j]),
        st.at(k, now) matches Some(Kind::Stream(s)) ==> stream_ordered(s),
{
    if exists|i: int| has_at(st.entries@, k, i) {
        let i = choose|i: int| has_at(st.entries@, k, i);
        lemma_lookup_at(st.entries@, k, i, now);
        assert(kind_wf(kind_of(st.entries@[i].value)));
        match st.at(k, now) {
            Some(Kind::ZSet(z)) => {
                lemma_full_range(z);
            },
            _ => {},
        }
    }
}

/// Reading a whole sequence with the range `0 .. -1` gives it back unchanged.
pub proof fn lemma_full_range<A>(s: Seq<A>)
    ensures
        range_of(s, 0, -1) == s,
{
    if s.len() == 0 {
        assert(range_of(s, 0, -1) =~= s);
    } else {
        assert(s.subrange(0, s.len() as int) =~= s);
    }
}

/// After pushing `vals` onto a list `l`, the whole list reads back as `l` followed by
/// `vals` in order when pushed at the tail, and as `vals` reversed followed by `l`
/// when pushed at the head. From an empty list, tail pushes read back as `vals`.
pub proof fn lemma_push_then_full_range(l: Seq<Seq<char>>, vals: Seq<Seq<char>>)
    ensures
        range_of(pushed(l, vals, false), 0, -1) == l + vals,
        range_of(pushed(l, vals, true), 0, -1) == vals.reverse() + l,
        range_of(pushed(Seq::empty(), vals, false), 0, -1) == vals,
{
    lemma_full_range(pushed(l, vals, false));
    lemma_full_range(pushed(l, vals, true));
    lemma_full_range(pushed(Seq::empty(), vals, false));
    assert(Seq::<Seq<char>>::empty() + vals =~= vals);
}

/// The name of the kind a key holds, `none` for nothing.
pub open spec fn type_text(k: Option<Kind>) -> Seq<char> {
    match k {
        None => "none"@,
        Some(Kind::Str(_)) => "string"@,
        Some(Kind::List(_)) => "list"@,
        Some(Kind::Stream(_)) => "stream"@,
        Some(Kind::ZSet(_)) => "zset"@,
    }
}

fn clone_texts(v: &Vec<String>, from: usize, to: usize) -> (r: Vec<String>)
    requires
        from <= to <= v@.len(),
    ensures
        texts(r@) == texts(v@.subrange(from as int, to as int)),
{
    let mut out: Vec<String> = Vec::new();
    let mut i: usize = from;
    while i < to
        invariant
            from <= i <= to <= v@.len(),
            out@.len() == i - from,
            forall|j: int| 0 <= j < out@.len() ==> (#[trigger] out@[j])@ == v@[from + j]@,
        decreases to - i,
    {
        out.push(v[i].clone());
        i = i + 1;
    }
    proof {
        assert(texts(out@) =~= texts(v@.subrange(from as int, to as int)));
    }
    out
}

fn pushed_list(l: &Vec<String>, values: &Vec<String>, is_left: bool) -> (r: Vec<String>)
    ensures
        texts(r@) == pushed(texts(l@), texts(values@), is_left),
{
    let mut out: Vec<String> = Vec::new();
    if is_left {
        let mut i: usize = values.len();
        while i > 0
            invariant
                0 <= i <= values@.len(),
                out@.len() == values@.len() - i,
                forall|j: int| 0 <= j < out@.len() ==> (#[trigger] out@[j])@ == values@[values@.len() - 1 - j]@,
            decreases i,
        {
            i = i - 1;
            out.push(values[i].clone());
        }
        let mut k: usize = 0;
        while k < l.len()
            invariant
                0 <= k <= l@.len(),
                out@.len() == values@.len() + k,
                forall|j: int| 0 <= j < values@.len() ==> (#[trigger] out@[j])@ == values@[values@.len() - 1 - j]@,
                forall|j: int| 0 <= j < k ==> (#[trigger] out@[values@.len() + j])@ == l@[j]@,
            decreases l@.len() - k,
        {
            out.push(l[k].clone());
            k = k + 1;
        }
        proof {
            let want = pushed(texts(l@), texts(values@), is_left);
            assert forall|j: int| 0 <= j < out@.len() implies texts(out@)[j] == want[j] by {
                if j >= values@.len() {
                    assert(out@[values@.len() + (j - values@.len())] == out@[j]);
                }
            }
            assert(texts(out@) =~= want);
        }
    } else {
        let mut k: usize = 0;
        while k < l.len()
            invariant
                0 <= k <= l@.len(),
                out@.len() == k,
                forall|j: int| 0 <= j < k ==> (#[trigger] out@[j])@ == l@[j]@,
            decreases l@.len() - k,
        {
            out.push(l[k].clone());
            k = k + 1;
        }
        let mut i: usize = 0;
        while i < values.len()
            invariant
                0 <= i <= values@.len(),
                out@.len() == l@.len() + i,
                forall|j: int| 0 <= j < l@.len() ==> (#[trigger] out@[j])@ == l@[j]@,
                forall|j: int| 0 <= j < i ==> (#[trigger] out@[l@.len() + j])@ == values@[j]@,
            decreases values@.len() - i,
        {
            out.push(values[i].clone());
            i = i + 1;
        }
        proof {
            let want = pushed(texts(l@), texts(values@), is_left);
            assert forall|j: int| 0 <= j < out@.len() implies texts(out@)[j] == want[j] by {
                if j >= l@.len() {
                    assert(out@[l@.len() + (j - l@.len())] == out@[j]);
                }
            }
            assert(texts(out@) =~= want);
        }
    }
    out
}


impl Store {
    pub open spec fn wf(&self) -> bool {
        &&& unique(self.entries@)
        &&& forall|i: int| 0 <= i < self.entries@.len() ==> kind_wf(kind_of(#[trigger] self.entries@[i].value))
    }

    /// What key `k` holds at time `now`.
    pub open spec fn at(&self, k: Seq<char>, now: u64) -> Option<Kind> {
        lookup(self.entries@, k, now)
    }

    pub fn new() -> (r: Store)
        ensures
            r.wf(),
            forall|k: Seq<char>, t: u64| r.at(k, t) is None,
    {
        Store { entries: Vec::new() }
    }

    /// The index of the entry of `key`, expired or not.
    fn find(&self, key: &str) -> (r: Option<usize>)
        ensures
            r matches Some(i) ==> has_at(self.entries@, key@, i as int),
            r is None ==> forall|i: int| !has_at(self.entries@, key@, i),
    {
        let mut i: usize = 0;
        while i < self.entries.len()
            invariant
                0 <= i <= self.entries@.len(),
                forall|j: int| 0 <= j < i ==> !has_at(self.entries@, key@, j),
            decreases self.entries@.len() - i,
        {
            if same_text(self.entries[i].key.as_str(), key) {
                return Some(i);
            }
            i = i + 1;
        }
        None
    }

    /// The index of the live entry of `key` at time `now`.
    fn find_live(&self, key: &str, now: u64) -> (r: Option<usize>)
        requires
            self.wf(),
        ensures
            r matches Some(i) ==> has_at(self.entries@, key@, i as int) && alive(self.entries@[i as int], now)
                && self.at(key@, now) == Some(kind_of(self.entries@[i as int].value)),
            r is None ==> self.at(key@, now) is None,
    {
        match self.find(key) {
            Some(i) => {
                proof {
                    lemma_lookup_at(self.entries@, key@, i as int, now);
                }
                let live = match self.entries[i].expires_at {
                    Some(t) => now < t,
                    None => true,
                };
                if live {
                    Some(i)
                } else {
                    None
                }
            },
            None => None,
        }
    }

    /// Puts `e` in place of the entry with the same key, or adds it.
    fn put(&mut self, e: Entry)
        requires
            old(self).wf(),
            kind_wf(kind_of(e.value)),
        ensures
            final(self).wf(),
            forall|k: Seq<char>, t: u64| k != e.key@ ==> final(self).at(k, t) == old(self).at(k, t),
            forall|t: u64| final(self).at(e.key@, t) == entry_lookup(e, t),
    {
        let ghost ek = e.key@;
        let ghost ge = e;
        match self.find(e.key.as_str()) {
            Some(i) => {
                proof {
                    lemma_replace(self.entries@, i as int, e);
                }
                self.entries.set(i, e);
            },
            None => {
                proof {
                    assert forall|j: int| 0 <= j < self.entries@.len() implies self.entries@[j].key@ != ek by {
                        assert(!has_at(self.entries@, ek, j));
                    }
                    lemma_push(self.entries@, e);
                }
                self.entries.push(e);
            },
        }
        proof {
            assert forall|i: int| 0 <= i < self.entries@.len() implies kind_wf(kind_of(#[trigger] self.entries@[i].value)) by {
                if self.entries@[i] != ge {
                }
            }
        }
    }

    /// Replaces whatever `key` held with the text `value`, expiring at `expires_at`.
    pub fn set(&mut self, key: String, value: String, expires_at: Option<u64>)
        requires
            old(self).wf(),
        ensures
            final(self).wf(),
            forall|k: Seq<char>, t: u64| k != key@ ==> final(self).at(k, t) == old(self).at(k, t),
            forall|t: u64| final(self).at(key@, t) == (if (expires_at matches Some(x) ==> t < x) {
                Some(Kind::Str(value@))
            } else {
                None
            }),
    {
        let e = Entry { key, value: Value::Str(value), expires_at };
        let ghost ge = e;
        self.put(e);
        proof {
            assert forall|t: u64| final(self).at(key@, t) == (if (expires_at matches Some(x) ==> t < x) {
                Some(Kind::Str(value@))
            } else {
                None
            }) by {
                assert(final(self).at(ge.key@, t) == entry_lookup(ge, t));
            }
        }
    }

    /// The text held under `key` at time `now`; `None` when absent or expired.
    pub fn get(&self, key: &str, now: u64) -> (r: Result<Option<String>, StoreError>)
        requires
            self.wf(),
        ensures
            match self.at(key@, now) {
                None => r matches Ok(None),
                Some(Kind::Str(s)) => r matches Ok(Some(v)) && v@ == s,
                Some(_) => r matches Err(StoreError::WrongType),
            },
    {
        match self.find_live(key, now) {
            Some(i) => match &self.entries[i].value {
                Value::Str(s) => Ok(Some(s.clone())),
                _ => Err(StoreError::WrongType),
            },
            None => Ok(None),
        }
    }

    /// Appends `(field, value)` to the stream under `key` with the id that `id`
    /// gives: `*` for the clock's millisecond and the next sequence number,
    /// `ms-*` for the next sequence number in `ms`, or `ms-seq` as it stands. The id
    /// must be greater than the stream's last one and than `0-0`.
    pub fn add_stream(&mut self, key: &str, id: &str, field: String, value: String, now: u64) -> (r: Result<(u64, u64), StoreError>)
        requires
            old(self).wf(),
        ensures
            final(self).wf(),
            forall|k: Seq<char>, t: u64| k != key@ ==> final(self).at(k, t) == old(self).at(k, t),
            r is Err ==> final(self).at(key@, now) == old(self).at(key@, now),
            (r matches Err(StoreError::WrongType)) <==> (old(self).at(key@, now) matches Some(k) && !(k is Stream)),
            r matches Ok(ident) ==> {
                let s = stream_of(old(self).at(key@, now));
                &&& final(self).at(key@, now) == Some(Kind::Stream(s.push((ident.0, ident.1, field@, value@))))
                &&& (s.len() > 0 ==> id_lt(s.last().0, s.last().1, ident.0, ident.1))
                &&& id_lt(0, 0, ident.0, ident.1)
            },
            forall|d: int| #![trigger id_split(id@, d)] id_split(id@, d)
                && digits_value(id@.subrange(0, d)) <= u64::MAX
                && digits_value(id@.subrange(d + 1, id@.len() as int)) <= u64::MAX
                && !(old(self).at(key@, now) matches Some(k) && !(k is Stream)) ==> {
                    let a = digits_value(id@.subrange(0, d));
                    let b = digits_value(id@.subrange(d + 1, id@.len() as int));
                    let s = stream_of(old(self).at(key@, now));
                    if a == 0 && b == 0 {
                        r matches Err(StoreError::IdZero)
                    } else if s.len() > 0 && !id_lt(s.last().0, s.last().1, a as u64, b as u64) {
                        r matches Err(StoreError::IdNotGreater)
                    } else {
                        r == Ok::<(u64, u64), StoreError>((a as u64, b as u64))
                    }
                },
    {
        let (base, exp) = match self.find_live(key, now) {
            None => (Vec::new(), None),
            Some(i) => match &self.entries[i].value {
                Value::Stream(v) => (clone_stream(v), self.entries[i].expires_at),
                _ => {
                    return Err(StoreError::WrongType);
                },
            },
        };
        proof {
            assert(stream_view(Seq::<StreamEntry>::empty()) =~= Seq::empty());
        }
        let last: Option<(u64, u64)> = if base.len() > 0 {
            Some((base[base.len() - 1].ms, base[base.len() - 1].seq))
        } else {
            None
        };
        let n = id.unicode_len();
        let ms_seq: (u64, u64) = if n == 1 && id.get_char(0) == '*' {
            match last {
                Some((lm, ls)) => {
                    if now > lm {
                        (now, 0)
                    } else if ls < u64::MAX {
                        (lm, ls + 1)
                    } else if lm < u64::MAX {
                        (lm + 1, 0)
                    } else {
                        return Err(StoreError::IdNotGreater);
                    }
                },
                None => if now == 0 { (0, 1) } else { (now, 0) },
            }
        } else {
            let d = match dash_index(id) {
                Some(d) => d,
                None => {
                    return Err(StoreError::BadId);
                },
            };
            let left = id.substring_char(0, d);
            let right = id.substring_char(d + 1, n);
            proof {
                assert forall|d2: int| id_split(id@, d2) implies d2 == d by {
                    if d2 > d {
                        assert(id@.subrange(0, d2)[d as int] == id@[d as int]);
                    }
                }
            }
            let ms = match parse_u64(left) {
                Some(v) => v,
                None => {
                    return Err(StoreError::BadId);
                },
            };
            if right.unicode_len() == 1 && right.get_char(0) == '*' {
                proof {
                    assert(!is_digits(right@) ==> true);
                    assert(right@[0] == '*');
                }
                match last {
                    Some((lm, ls)) => {
                        if ms == lm && ls < u64::MAX {
                            (ms, ls + 1)
                        } else if ms > lm {
                            (ms, 0)
                        } else {
                            return Err(StoreError::IdNotGreater);
                        }
                    },
                    None => if ms == 0 { (0, 1) } else { (ms, 0) },
                }
            } else {
                let seq = match parse_u64(right) {
                    Some(v) => v,
                    None => {
                        return Err(StoreError::BadId);
                    },
                };
                if ms == 0 && seq == 0 {
                    return Err(StoreError::IdZero);
                }
                (ms, seq)
            }
        };
        match last {
            Some((lm, ls)) => {
                if !(lm < ms_seq.0 || (lm == ms_seq.0 && ls < ms_seq.1)) {
                    return Err(StoreError::IdNotGreater);
                }
            },
            None => {},
        }
        if ms_seq.0 == 0 && ms_seq.1 == 0 {
            return Err(StoreError::IdZero);
        }
        let mut entries = base;
        let ghost before = stream_view(entries@);
        entries.push(StreamEntry { ms: ms_seq.0, seq: ms_seq.1, field, value });
        proof {
            assert(stream_view(entries@) =~= before.push((ms_seq.0, ms_seq.1, field@, value@)));
            assert(stream_ordered(stream_view(entries@))) by {
                assert forall|i: int, j: int| 0 <= i < j < stream_view(entries@).len() implies
                    id_lt(stream_view(entries@)[i].0, stream_view(entries@)[i].1, stream_view(entries@)[j].0, stream_view(entries@)[j].1) by {
                    if j == before.len() && i < before.len() - 1 {
                        assert(id_lt(before[i].0, before[i].1, before.last().0, before.last().1));
                    }
                }
            }
        }
        let e = Entry { key: String::from_str(key), value: Value::Stream(entries), expires_at: exp };
        let ghost ge = e;
        self.put(e);
        proof {
            assert(final(self).at(ge.key@, now) == entry_lookup(ge, now));
        }
        Ok(ms_seq)
    }

    /// The index of the live sorted set under `key`, or what the key holds otherwise.
    fn zset_index(&self, key: &str, now: u64) -> (r: Result<Option<usize>, StoreError>)
        requires
            self.wf(),
        ensures
            match self.at(key@, now) {
                None => r matches Ok(None),
                Some(Kind::ZSet(z)) => r matches Ok(Some(i)) && i < self.entries@.len()
                    && self.entries@[i as int].value is ZSet && kind_of(self.entries@[i as int].value) == Kind::ZSet(z)
                    && zset_ordered(z) && alive(self.entries@[i as int], now),
                Some(_) => r matches Err(StoreError::WrongType),
            },
    {
        match self.find_live(key, now) {
            None => Ok(None),
            Some(i) => match &self.entries[i].value {
                Value::ZSet(_) => {
                    proof {
                        assert(kind_wf(kind_of(self.entries@[i as int].value)));
                    }
                    Ok(Some(i))
                },
                _ => Err(StoreError::WrongType),
            },
        }
    }

    /// Gives `member` the score `score` in the sorted set under `key`, creating the
    /// set when absent; returns 1 when the member is new and 0 when its score changed.
    pub fn zadd(&mut self, key: &str, score: Score, member: String, now: u64) -> (r: Result<i64, StoreError>)
        requires
            old(self).wf(),
            score.wf(),
        ensures
            final(self).wf(),
            forall|k: Seq<char>, t: u64| k != key@ ==> final(self).at(k, t) == old(self).at(k, t),
            match old(self).at(key@, now) {
                Some(k) if !(k is ZSet) => r matches Err(StoreError::WrongType)
                    && final(self).at(key@, now) == old(self).at(key@, now),
                _ => {
                    let z = zset_of(old(self).at(key@, now));
                    &&& r == Ok::<i64, StoreError>(if z_has(z, member@) { 0 } else { 1 })
                    &&& final(self).at(key@, now) matches Some(Kind::ZSet(nz))
                    &&& nz.contains((member@, score))
                    &&& forall|p: (Seq<char>, Score)| p.0 != member@ ==> (nz.contains(p) == z.contains(p))
                },
            },
    {
        let ghost m = member@;
        let (merged, added, exp) = match self.zset_index(key, now) {
            Err(e) => {
                return Err(e);
            },
            Ok(None) => {
                let empty: Vec<(String, Score)> = Vec::new();
                proof {
                    assert(zset_view(empty@) =~= Seq::empty());
                }
                let (v, a) = zset_insert(&empty, member, score);
                (v, a, None)
            },
            Ok(Some(i)) => match &self.entries[i].value {
                Value::ZSet(z) => {
                    let (v, a) = zset_insert(z, member, score);
                    (v, a, self.entries[i].expires_at)
                },
                _ => {
                    return Err(StoreError::WrongType);
                },
            },
        };
        let e = Entry { key: String::from_str(key), value: Value::ZSet(merged), expires_at: exp };
        let ghost ge = e;
        self.put(e);
        proof {
            assert(final(self).at(ge.key@, now) == entry_lookup(ge, now));
        }
        if added {
            Ok(1)
        } else {
            Ok(0)
        }
    }

    /// Removes `member` from the sorted set under `key`; returns how many were removed.
    pub fn zrem(&mut self, key: &str, member: &str, now: u64) -> (r: Result<i64, StoreError>)
        requires
            old(self).wf(),
        ensures
            final(self).wf(),
            forall|k: Seq<char>, t: u64| k != key@ ==> final(self).at(k, t) == old(self).at(k, t),
            match old(self).at(key@, now) {
                None => r == Ok::<i64, StoreError>(0) && final(self).at(key@, now) is None,
                Some(Kind::ZSet(z)) => {
                    &&& r == Ok::<i64, StoreError>(if z_has(z, member@) { 1 } else { 0 })
                    &&& final(self).at(key@, now) matches Some(Kind::ZSet(nz))
                    &&& forall|p: (Seq<char>, Score)| nz.contains(p) == (p.0 != member@ && z.contains(p))
                },
                Some(_) => r matches Err(StoreError::WrongType) && final(self).at(key@, now) == old(self).at(key@, now),
            },
    {
        match self.zset_index(key, now) {
            Err(e) => Err(e),
            Ok(None) => Ok(0),
            Ok(Some(i)) => {
                let ghost mut gz: Seq<(Seq<char>, Score)> = Seq::empty();
                let (rest, removed, exp) = match &self.entries[i].value {
                    Value::ZSet(z) => {
                        proof {
                            assert(old(self).at(key@, now) == Some(Kind::ZSet(zset_view(z@))));
                            gz = zset_view(z@);
                        }
                        let (v, f) = zset_remove(z, member);
                        (v, f, self.entries[i].expires_at)
                    },
                    _ => {
                        return Err(StoreError::WrongType);
                    },
                };
                let ghost gr = zset_view(rest@);
                let e = Entry { key: String::from_str(key), value: Value::ZSet(rest), expires_at: exp };
                let ghost ge = e;
                self.put(e);
                proof {
                    assert(final(self).at(ge.key@, now) == entry_lookup(ge, now));
                    assert(final(self).at(key@, now) == Some(Kind::ZSet(gr)));
                    assert(old(self).at(key@, now) == Some(Kind::ZSet(gz)));
                }
                if removed {
                    Ok(1)
                } else {
                    Ok(0)
                }
            },
        }
    }

    /// The 0-based position of `member` in the sorted set under `key`.
    pub fn zrank(&self, key: &str, member: &str, now: u64) -> (r: Result<Option<usize>, StoreError>)
        requires
            self.wf(),
        ensures
            match self.at(key@, now) {
                None => r matches Ok(None),
                Some(Kind::ZSet(z)) => match r {
                    Ok(Some(i)) => i < z.len() && z[i as int].0 == member@,
                    Ok(None) => !z_has(z, member@),
                    Err(_) => false,
                },
                Some(_) => r matches Err(StoreError::WrongType),
            },
    {
        match self.zset_index(key, now) {
            Err(e) => Err(e),
            Ok(None) => Ok(None),
            Ok(Some(i)) => match &self.entries[i].value {
                Value::ZSet(z) => {
                    proof {
                        assert(self.at(key@, now) == Some(Kind::ZSet(zset_view(z@))));
                    }
                    let mut k: usize = 0;
                    while k < z.len()
                        invariant
                            0 <= k <= z@.len(),
                            self.at(key@, now) == Some(Kind::ZSet(zset_view(z@))),
                            forall|j: int| 0 <= j < k ==> zset_view(z@)[j].0 != member@,
                        decreases z@.len() - k,
                    {
                        proof {
                            assert(zset_view(z@)[k as int] == (z@[k as int].0@, z@[k as int].1));
                        }
                        if same_text(z[k].0.as_str(), member) {
                            return Ok(Some(k));
                        }
                        k = k + 1;
                    }
                    Ok(None)
                },
                _ => Err(StoreError::WrongType),
            },
        }
    }

    /// The score of `member` in the sorted set under `key`.
    pub fn zscore(&self, key: &str, member: &str, now: u64) -> (r: Result<Option<Score>, StoreError>)
        requires
            self.wf(),
        ensures
            match self.at(key@, now) {
                None => r matches Ok(None),
                Some(Kind::ZSet(z)) => match r {
                    Ok(Some(sc)) => z.contains((member@, sc)) && sc.wf(),
                    Ok(None) => !z_has(z, member@),
                    Err(_) => false,
                },
                Some(_) => r matches Err(StoreError::WrongType),
            },
    {
        match self.zrank(key, member, now) {
            Ok(Some(k)) => {
                match self.zset_index(key, now) {
                    Ok(Some(i)) => match &self.entries[i].value {
                        Value::ZSet(z) => {
                            proof {
                                assert(zset_view(z@)[k as int] == (member@, z@[k as int].1));
                            }
                            Ok(Some(z[k].1))
                        },
                        _ => Err(StoreError::WrongType),
                    },
                    Ok(None) => Ok(None),
                    Err(e) => Err(e),
                }
            },
            Ok(None) => Ok(None),
            Err(e) => Err(e),
        }
    }

    /// The number of members of the sorted set under `key`.
    pub fn zcard(&self, key: &str, now: u64) -> (r: Result<usize, StoreError>)
        requires
            self.wf(),
        ensures
            match self.at(key@, now) {
                None => r == Ok::<usize, StoreError>(0),
                Some(Kind::ZSet(z)) => (r matches Ok(n) && n == z.len()),
                Some(_) => r matches Err(StoreError::WrongType),
            },
    {
        match self.zset_index(key, now) {
            Err(e) => Err(e),
            Ok(None) => Ok(0),
            Ok(Some(i)) => match &self.entries[i].value {
                Value::ZSet(z) => Ok(z.len()),
                _ => Err(StoreError::WrongType),
            },
        }
    }

    /// The members of the sorted set under `key` from rank `start` to rank `end`,
    /// both included, in ascending order.
    pub fn zrange(&self, key: &str, start: i64, end: i64, now: u64) -> (r: Result<Vec<String>, StoreError>)
        requires
            self.wf(),
        ensures
            match self.at(key@, now) {
                None => r matches Ok(v) && v@.len() == 0,
                Some(Kind::ZSet(z)) => r matches Ok(v)
                    && texts(v@) == range_of(z, start as int, end as int).map_values(|p: (Seq<char>, Score)| p.0),
                Some(_) => r matches Err(StoreError::WrongType),
            },
    {
        match self.zset_index(key, now) {
            Err(e) => Err(e),
            Ok(None) => Ok(Vec::new()),
            Ok(Some(i)) => match &self.entries[i].value {
                Value::ZSet(z) => {
                    let (lo, hi) = bounds(z.len(), start, end);
                    let mut out: Vec<String> = Vec::new();
                    let mut k = lo;
                    while k < hi
                        invariant
                            lo <= k <= hi <= z@.len(),
                            out@.len() == k - lo,
                            forall|j: int| 0 <= j < out@.len() ==> (#[trigger] out@[j])@ == z@[lo + j].0@,
                        decreases hi - k,
                    {
                        out.push(z[k].0.clone());
                        k = k + 1;
                    }
                    proof {
                        assert(texts(out@) =~= range_of(zset_view(z@), start as int, end as int).map_values(|p: (Seq<char>, Score)| p.0));
                    }
                    Ok(out)
                },
                _ => Err(StoreError::WrongType),
            },
        }
    }

    /// The entries of the stream under `key` whose ids lie between `lo` and `hi`,
    /// both included, in order.
    pub fn xrange(&self, key: &str, lo: (u64, u64), hi: (u64, u64), now: u64) -> (r: Result<Vec<StreamEntry>, StoreError>)
        requires
            self.wf(),
        ensures
            match self.at(key@, now) {
                None => r matches Ok(v) && v@.len() == 0,
                Some(Kind::Stream(s)) => r matches Ok(v) && stream_view(v@) == select(s, lo, hi),
                Some(_) => r matches Err(StoreError::WrongType),
            },
    {
        match self.find_live(key, now) {
            None => Ok(Vec::new()),
            Some(i) => match &self.entries[i].value {
                Value::Stream(v) => {
                    let mut out: Vec<StreamEntry> = Vec::new();
                    let mut k: usize = 0;
                    while k < v.len()
                        invariant
                            0 <= k <= v@.len(),
                            stream_view(out@) == select(stream_view(v@).take(k as int), lo, hi),
                        decreases v@.len() - k,
                    {
                        let e = &v[k];
                        let ghost before = stream_view(out@);
                        proof {
                            assert(stream_view(v@).take(k + 1).drop_last() =~= stream_view(v@).take(k as int));
                            assert(stream_view(v@).take(k + 1).last() == (e.ms, e.seq, e.field@, e.value@));
                        }
                        if (lo.0 < e.ms || (lo.0 == e.ms && lo.1 <= e.seq)) && (e.ms < hi.0 || (e.ms == hi.0 && e.seq <= hi.1)) {
                            out.push(StreamEntry { ms: e.ms, seq: e.seq, field: e.field.clone(), value: e.value.clone() });
                            proof {
                                assert(stream_view(out@) =~= before.push((e.ms, e.seq, e.field@, e.value@)));
                            }
                        }
                        k = k + 1;
                    }
                    proof {
                        assert(stream_view(v@).take(v@.len() as int) =~= stream_view(v@));
                    }
                    Ok(out)
                },
                _ => Err(StoreError::WrongType),
            },
        }
    }

    /// The live keys at time `now` that match the glob `pattern`, in the store's order.
    pub fn keys(&self, pattern: &str, now: u64) -> (r: Vec<String>)
        requires
            self.wf(),
        ensures
            forall|k: Seq<char>| #![trigger texts(r@).contains(k)] texts(r@).contains(k) <==> (self.at(k, now) is Some && crate::glob::glob(pattern@, k)),
    {
        let mut out: Vec<String> = Vec::new();
        let mut i: usize = 0;
        while i < self.entries.len()
            invariant
                self.wf(),
                0 <= i <= self.entries@.len(),
                forall|k: Seq<char>| texts(out@).contains(k) <==> (exists|j: int| 0 <= j < i && self.entries@[j].key@ == k
                    && alive(self.entries@[j], now) && crate::glob::glob(pattern@, k)),
            decreases self.entries@.len() - i,
        {
            let e = &self.entries[i];
            let live = match e.expires_at {
                Some(t) => now < t,
                None => true,
            };
            let ghost before = texts(out@);
            if live && crate::glob::glob_match(pattern, e.key.as_str()) {
                out.push(e.key.clone());
                proof {
                    assert(texts(out@) =~= before.push(e.key@));
                }
            }
            proof {
                assert forall|k: Seq<char>| texts(out@).contains(k) <==> (exists|j: int| 0 <= j < i + 1 && self.entries@[j].key@ == k
                    && alive(self.entries@[j], now) && crate::glob::glob(pattern@, k)) by {
                    lemma_push_contains(before, e.key@, k);
                    if exists|j: int| 0 <= j < i + 1 && self.entries@[j].key@ == k && alive(self.entries@[j], now) && crate::glob::glob(pattern@, k) {
                        let j = choose|j: int| 0 <= j < i + 1 && self.entries@[j].key@ == k && alive(self.entries@[j], now) && crate::glob::glob(pattern@, k);
                        if j < i {
                            assert(exists|j2: int| 0 <= j2 < i && self.entries@[j2].key@ == k && alive(self.entries@[j2], now) && crate::glob::glob(pattern@, k));
                        }
                    }
                }
            }
            i = i + 1;
        }
        proof {
            assert forall|k: Seq<char>| texts(out@).contains(k) <==> (self.at(k, now) is Some && crate::glob::glob(pattern@, k)) by {
                if exists|j: int| 0 <= j < self.entries@.len() && self.entries@[j].key@ == k && alive(self.entries@[j], now) && crate::glob::glob(pattern@, k) {
                    let j = choose|j: int| 0 <= j < self.entries@.len() && self.entries@[j].key@ == k && alive(self.entries@[j], now) && crate::glob::glob(pattern@, k);
                    lemma_lookup_at(self.entries@, k, j, now);
                }
                if self.at(k, now) is Some {
                    let j = choose|j: int| has_at(self.entries@, k, j);
                    lemma_lookup_at(self.entries@, k, j, now);
                }
            }
        }
        out
    }

    /// The kind of value `key` holds at time `now`, by name.
    pub fn kind_name(&self, key: &str, now: u64) -> (r: String)
        requires
            self.wf(),
        ensures
            r@ == type_text(self.at(key@, now)),
    {
        proof {
            reveal_strlit("none");
            reveal_strlit("string");
            reveal_strlit("list");
            reveal_strlit("stream");
            reveal_strlit("zset");
        }
        match self.find_live(key, now) {
            None => String::from_str("none"),
            Some(i) => match &self.entries[i].value {
                Value::Str(_) => String::from_str("string"),
                Value::List(_) => String::from_str("list"),
                Value::Stream(_) => String::from_str("stream"),
                Value::ZSet(_) => String::from_str("zset"),
            },
        }
    }

    /// Adds one to the integer that `key` holds as text; an absent key counts as zero.
    pub fn incr(&mut self, key: &str, now: u64) -> (r: Result<i64, StoreError>)
        requires
            old(self).wf(),
        ensures
            final(self).wf(),
            match old(self).at(key@, now) {
                None => r == Ok::<i64, StoreError>(1) && final(self).at(key@, now) == Some(Kind::Str(crate::resp::int_chars(1))),
                Some(Kind::Str(s)) => if is_signed_digits(s) && i64::MIN <= signed_value(s) < i64::MAX {
                    r == Ok::<i64, StoreError>((signed_value(s) + 1) as i64)
                        && final(self).at(key@, now) == Some(Kind::Str(crate::resp::int_chars(signed_value(s) + 1)))
                } else {
                    r matches Err(StoreError::NotInteger) && final(self).at(key@, now) == old(self).at(key@, now)
                },
                Some(_) => r matches Err(StoreError::WrongType) && final(self).at(key@, now) == old(self).at(key@, now),
            },
            forall|k: Seq<char>, t: u64| k != key@ ==> final(self).at(k, t) == old(self).at(k, t),
    {
        match self.find_live(key, now) {
            None => {
                let e = Entry { key: String::from_str(key), value: Value::Str(crate::resp::int_text(1)), expires_at: None };
                let ghost ge = e;
                self.put(e);
                proof {
                    assert(final(self).at(ge.key@, now) == entry_lookup(ge, now));
                }
                Ok(1)
            },
            Some(i) => {
                let exp = self.entries[i].expires_at;
                let next = match &self.entries[i].value {
                    Value::Str(s) => match parse_i64(s.as_str()) {
                        Some(v) => if v < i64::MAX { Some(v + 1) } else { None },
                        None => None,
                    },
                    _ => {
                        return Err(StoreError::WrongType);
                    },
                };
                match next {
                    Some(n) => {
                        let e = Entry { key: String::from_str(key), value: Value::Str(crate::resp::int_text(n)), expires_at: exp };
                        let ghost ge = e;
                        self.put(e);
                        proof {
                            assert(final(self).at(ge.key@, now) == entry_lookup(ge, now));
                        }
                        Ok(n)
                    },
                    None => Err(StoreError::NotInteger),
                }
            },
        }
    }

    /// Pushes `values` onto the list under `key`, creating it when absent; returns the new length.
    pub fn list_push(&mut self, key: &str, values: &Vec<String>, is_left: bool, now: u64) -> (r: Result<usize, StoreError>)
        requires
            old(self).wf(),
        ensures
            final(self).wf(),
            match old(self).at(key@, now) {
                None => (r matches Ok(n) && n == values@.len())
                    && final(self).at(key@, now) == Some(Kind::List(pushed(Seq::empty(), texts(values@), is_left))),
                Some(Kind::List(l)) => (r matches Ok(n) && n == l.len() + values@.len())
                    && final(self).at(key@, now) == Some(Kind::List(pushed(l, texts(values@), is_left))),
                Some(_) => r matches Err(StoreError::WrongType) && final(self).at(key@, now) == old(self).at(key@, now),
            },
            forall|k: Seq<char>, t: u64| k != key@ ==> final(self).at(k, t) == old(self).at(k, t),
    {
        let (base, exp) = match self.find_live(key, now) {
            None => (Vec::new(), None),
            Some(i) => match &self.entries[i].value {
                Value::List(l) => {
                    proof {
                        assert(l@.subrange(0, l@.len() as int) =~= l@);
                    }
                    (clone_texts(l, 0, l.len()), self.entries[i].expires_at)
                },
                _ => {
                    return Err(StoreError::WrongType);
                },
            },
        };
        proof {
            assert(base@.subrange(0, base@.len() as int) =~= base@);
            assert(texts(Seq::<String>::empty()) =~= Seq::<Seq<char>>::empty());
        }
        let list = pushed_list(&base, values, is_left);
        let n = list.len();
        proof {
            assert(texts(list@).len() == list@.len());
            assert(pushed(texts(base@), texts(values@), is_left).len() == base@.len() + values@.len());
        }
        let e = Entry { key: String::from_str(key), value: Value::List(list), expires_at: exp };
        let ghost ge = e;
        self.put(e);
        proof {
            assert(final(self).at(ge.key@, now) == entry_lookup(ge, now));
        }
        Ok(n)
    }

    /// The elements of the list under `key` from `start` to `end`, both included.
    pub fn list_range(&self, key: &str, start: i64, end: i64, now: u64) -> (r: Result<Vec<String>, StoreError>)
        requires
            self.wf(),
        ensures
            match self.at(key@, now) {
                None => r matches Ok(v) && v@.len() == 0,
                Some(Kind::List(l)) => r matches Ok(v) && texts(v@) == range_of(l, start as int, end as int),
                Some(_) => r matches Err(StoreError::WrongType),
            },
    {
        match self.find_live(key, now) {
            None => Ok(Vec::new()),
            Some(i) => match &self.entries[i].value {
                Value::List(l) => {
                    let (lo, hi) = bounds(l.len(), start, end);
                    Ok(clone_texts(l, lo, hi))
                },
                _ => Err(StoreError::WrongType),
            },
        }
    }

    /// The length of the list under `key`, zero when absent.
    pub fn list_len(&self, key: &str, now: u64) -> (r: Result<usize, StoreError>)
        requires
            self.wf(),
        ensures
            match self.at(key@, now) {
                None => r == Ok::<usize, StoreError>(0),
                Some(Kind::List(l)) => (r matches Ok(n) && n == l.len()),
                Some(_) => r matches Err(StoreError::WrongType),
            },
    {
        match self.find_live(key, now) {
            None => Ok(0),
            Some(i) => match &self.entries[i].value {
                Value::List(l) => Ok(l.len()),
                _ => Err(StoreError::WrongType),
            },
        }
    }

    /// Removes and returns up to `count` elements from the head of the list under `key`.
    pub fn list_pop(&mut self, key: &str, count: u64, now: u64) -> (r: Result<Option<Vec<String>>, StoreError>)
        requires
            old(self).wf(),
        ensures
            final(self).wf(),
            match old(self).at(key@, now) {
                None => r matches Ok(None) && final(self).at(key@, now) is None,
                Some(Kind::List(l)) => {
                    let m = if count < l.len() { count as int } else { l.len() as int };
                    r matches Ok(Some(v)) && texts(v@) == l.subrange(0, m)
                        && final(self).at(key@, now) == Some(Kind::List(l.subrange(m, l.len() as int)))
                },
                Some(_) => r matches Err(StoreError::WrongType) && final(self).at(key@, now) == old(self).at(key@, now),
            },
            forall|k: Seq<char>, t: u64| k != key@ ==> final(self).at(k, t) == old(self).at(k, t),
    {
        match self.find_live(key, now) {
            None => Ok(None),
            Some(i) => {
                let exp = self.entries[i].expires_at;
                let (taken, rest) = match &self.entries[i].value {
                    Value::List(l) => {
                        let m: usize = if count < l.len() as u64 { count as usize } else { l.len() };
                        proof {
                            assert(texts(l@.subrange(0, m as int)) =~= texts(l@).subrange(0, m as int));
                            assert(texts(l@.subrange(m as int, l@.len() as int)) =~= texts(l@).subrange(m as int, l@.len() as int));
                        }
                        (clone_texts(l, 0, m), clone_texts(l, m, l.len()))
                    },
                    _ => {
                        return Err(StoreError::WrongType);
                    },
                };
                let e = Entry { key: String::from_str(key), value: Value::List(rest), expires_at: exp };
                let ghost ge = e;
                self.put(e);
                proof {
                    assert(final(self).at(ge.key@, now) == entry_lookup(ge, now));
                }
                Ok(Some(taken))
            },
        }
    }
}

/// `range_bounds` computed on machine integers.
fn bounds(len: usize, start: i64, end: i64) -> (r: (usize, usize))
    ensures
        r.0 == range_bounds(len as int, start as int, end as int).0,
        r.1 == range_bounds(len as int, start as int, end as int).1,
        r.0 <= r.1 <= len,
{
    let n = len as i128;
    let s = start as i128;
    let e = end as i128;
    let lo: i128 = if s < 0 {
        if n + s < 0 { 0 } else { n + s }
    } else {
        s
    };
    let hi: i128 = if e < 0 { n + e } else if e >= n { n - 1 } else { e };
    if lo > hi || lo >= n {
        (0, 0)
    } else {
        (lo as usize, (hi + 1) as usize)
    }
}

} // verus!
