use vstd::prelude::*;
use crate::resp::Data;

verus! {

/// Outcome of reading one frame from a buffer.
pub enum Decoded {
    /// A whole datum, and the index just after it.
    Frame(Data, usize),
    /// The buffer ends inside the frame: wait for more bytes.
    Incomplete,
    /// The bytes are not a frame of the wire format.
    Malformed,
}

/// The text that UTF-8 decoding of bytes gives, with invalid sequences replaced.
pub uninterp spec fn lossy_text(b: Seq<u8>) -> Seq<char>;

/// Relies on `String::from_utf8_lossy`: decodes bytes as UTF-8 text; ASCII bytes
/// come out as the same characters.
#[verifier::external_body]
fn text_of(b: &[u8]) -> (r: String)
    ensures
        r@ == lossy_text(b@),
        (forall|i: int| 0 <= i < b@.len() ==> b@[i] < 128u8) ==> r@ == b@.map_values(|c: u8| c as char),
{
    String::from_utf8_lossy(b).into_owned()
}


/// `\r\n` stands at index `i`.
pub open spec fn is_crlf(b: Seq<u8>, i: int) -> bool {
    0 <= i && i + 1 < b.len() && b[i] == 13u8 && b[i + 1] == 10u8
}

/// The index of the first `\r\n` at or after `from`, or -1 when there is none.
pub open spec fn crlf_from(b: Seq<u8>, from: int) -> int
    decreases b.len() - from,
{
    if from < 0 || from + 1 >= b.len() {
        -1
    } else if is_crlf(b, from) {
        from
    } else {
        crlf_from(b, from + 1)
    }
}

pub open spec fn byte_digits(b: Seq<u8>) -> bool {
    b.len() > 0 && forall|i: int| 0 <= i < b.len() ==> 48u8 <= #[trigger] b[i] <= 57u8
}

/// The number that ASCII digit bytes write in base ten.
pub open spec fn bytes_value(b: Seq<u8>) -> nat
    decreases b.len(),
{
    if b.len() == 0 {
        0
    } else {
        bytes_value(b.drop_last()) * 10 + ((b.last() - 48u8) as nat)
    }
}

/// The signed integer that `b[from..to]` writes: an optional minus, then digits.
pub open spec fn int_line(b: Seq<u8>, from: int, to: int) -> Option<int> {
    let s = b.subrange(from, to);
    let neg = s.len() > 0 && s[0] == 45u8;
    let digs = if neg { s.drop_first() } else { s };
    if byte_digits(digs) && bytes_value(digs) <= i64::MAX {
        Some(if neg { -(bytes_value(digs) as int) } else { bytes_value(digs) as int })
    } else {
        None
    }
}

/// `r` is what reading one frame at `pos` gives, arrays nested at most `depth`
/// deep: a whole datum and the index after it, `Incomplete` when the bytes stop
/// inside it, or `Malformed`.
pub open spec fn frame_ok(b: Seq<u8>, pos: int, depth: nat, r: Decoded) -> bool
    decreases depth,
{
    if pos < 0 || pos >= b.len() {
        r is Incomplete
    } else if crlf_from(b, pos + 1) < 0 {
        r is Incomplete
    } else {
        let le = crlf_from(b, pos + 1);
        let next = le + 2;
        let k = b[pos];
        if k == 43u8 {
            r matches Decoded::Frame(Data::SStr(t), e) && t@ == lossy_text(b.subrange(pos + 1, le)) && e == next
        } else if k == 45u8 {
            r matches Decoded::Frame(Data::Error(t), e) && t@ == lossy_text(b.subrange(pos + 1, le)) && e == next
        } else if k == 58u8 {
            match int_line(b, pos + 1, le) {
                Some(n) => r matches Decoded::Frame(Data::Int(v), e) && v == n && e == next,
                None => r is Malformed,
            }
        } else if k == 36u8 {
            match int_line(b, pos + 1, le) {
                Some(n) => if n == -1 {
                    r matches Decoded::Frame(Data::Null, e) && e == next
                } else if n < 0 {
                    r is Malformed
                } else if next + n + 2 > b.len() {
                    r is Incomplete
                } else if !is_crlf(b, next + n) {
                    r is Malformed
                } else {
                    r matches Decoded::Frame(Data::BStr(t), e) && t@ == lossy_text(b.subrange(next, next + n))
                        && e == next + n + 2
                },
                None => r is Malformed,
            }
        } else if k == 42u8 {
            match int_line(b, pos + 1, le) {
                Some(n) => if n == -1 {
                    r matches Decoded::Frame(Data::NullArray, e) && e == next
                } else if n < 0 || depth == 0 {
                    r is Malformed
                } else {
                    match r {
                        Decoded::Frame(Data::Array(items), e) => items@.len() == n
                            && exists|st: Seq<int>| #![trigger st.len()] st.len() == n + 1 && st[0] == next && st[n] == e
                                && forall|i: int| 0 <= i < n ==> frame_ok(b, st[i], (depth - 1) as nat,
                                    Decoded::Frame(#[trigger] items@[i], st[i + 1] as usize)),
                        Decoded::Incomplete => exists|its: Seq<Data>, st: Seq<int>| #![trigger its.len(), st.len()] its.len() < n
                            && st.len() == its.len() + 1 && st[0] == next
                            && (forall|i: int| 0 <= i < its.len() ==> frame_ok(b, st[i], (depth - 1) as nat,
                                Decoded::Frame(#[trigger] its[i], st[i + 1] as usize)))
                            && frame_ok(b, st[its.len() as int], (depth - 1) as nat, Decoded::Incomplete),
                        Decoded::Malformed => exists|its: Seq<Data>, st: Seq<int>| #![trigger its.len(), st.len()] its.len() < n
                            && st.len() == its.len() + 1 && st[0] == next
                            && (forall|i: int| 0 <= i < its.len() ==> frame_ok(b, st[i], (depth - 1) as nat,
                                Decoded::Frame(#[trigger] its[i], st[i + 1] as usize)))
                            && frame_ok(b, st[its.len() as int], (depth - 1) as nat, Decoded::Malformed),
                        _ => false,
                    }
                },
                None => r is Malformed,
            }
        } else {
            r is Malformed
        }
    }
}



/// The index of the first `\r\n` at or after `pos`.
fn find_crlf(buf: &Vec<u8>, pos: usize) -> (r: Option<usize>)
    ensures
        r matches Some(i) ==> pos <= i && i + 1 < buf@.len() && i == crlf_from(buf@, pos as int),
        r is None ==> crlf_from(buf@, pos as int) < 0,
{
    let mut i = pos;
    while i < buf.len() && i + 1 < buf.len()
        invariant
            pos <= i,
            crlf_from(buf@, pos as int) == crlf_from(buf@, i as int),
        decreases buf@.len() - i,
    {
        if buf[i] == 13u8 && buf[i + 1] == 10u8 {
            return Some(i);
        }
        i = i + 1;
    }
    None
}

proof fn lemma_bytes_prefix_le(d: Seq<u8>, i: int)
    requires
        0 <= i <= d.len(),
        forall|j: int| 0 <= j < d.len() ==> 48u8 <= #[trigger] d[j] <= 57u8,
    ensures
        bytes_value(d.take(i)) <= bytes_value(d),
    decreases d.len() - i,
{
    if i < d.len() {
        lemma_bytes_prefix_le(d, i + 1);
        assert(d.take(i + 1).drop_last() =~= d.take(i));
    } else {
        assert(d.take(i) =~= d);
    }
}

/// Reads an optional minus sign and decimal digits in `buf[from..to]`.
fn read_int(buf: &Vec<u8>, from: usize, to: usize) -> (r: Option<i64>)
    requires
        from <= to <= buf@.len(),
    ensures
        match int_line(buf@, from as int, to as int) {
            Some(n) => r == Some(n as i64),
            None => r is None,
        },
{
    let ghost s = buf@.subrange(from as int, to as int);
    let mut neg = false;
    let mut i = from;
    if i < to && buf[i] == 45u8 {
        neg = true;
        i = i + 1;
    }
    let ghost digs = buf@.subrange(i as int, to as int);
    proof {
        if neg {
            assert(digs =~= s.drop_first());
        } else {
            assert(digs =~= s);
        }
        assert(int_line(buf@, from as int, to as int) == (if byte_digits(digs) && bytes_value(digs) <= i64::MAX {
            Some(if neg { -(bytes_value(digs) as int) } else { bytes_value(digs) as int })
        } else {
            None::<int>
        }));
    }
    if i >= to {
        return None;
    }
    let start = i;
    let mut v: i64 = 0;
    proof {
        assert(digs.take(0) =~= Seq::<u8>::empty());
    }
    while i < to
        invariant
            from <= start <= i <= to <= buf@.len(),
            digs == buf@.subrange(start as int, to as int),
            int_line(buf@, from as int, to as int) == (if byte_digits(digs) && bytes_value(digs) <= i64::MAX {
                Some(if neg { -(bytes_value(digs) as int) } else { bytes_value(digs) as int })
            } else {
                None::<int>
            }),
            forall|j: int| 0 <= j < i - start ==> 48u8 <= #[trigger] digs[j] <= 57u8,
            0 <= v,
            v == bytes_value(digs.take(i - start)),
        decreases to - i,
    {
        let b = buf[i];
        proof {
            assert(digs[i - start] == b);
        }
        if b < 48u8 || b > 57u8 {
            proof {
                assert(!(48u8 <= digs[i - start] <= 57u8));
            }
            return None;
        }
        let d = (b - 48u8) as i64;
        proof {
            assert(digs.take(i - start + 1).drop_last() =~= digs.take(i - start));
        }
        if v > (i64::MAX - d) / 10 {
            proof {
                if byte_digits(digs) {
                    lemma_bytes_prefix_le(digs, i - start + 1);
                }
            }
            return None;
        }
        v = v * 10 + d;
        i = i + 1;
    }
    proof {
        assert(digs.take(to - start) =~= digs);
    }
    if neg {
        Some(-v)
    } else {
        Some(v)
    }
}

/// Copies `buf[from..to]`.
fn slice_of(buf: &Vec<u8>, from: usize, to: usize) -> (r: Vec<u8>)
    requires
        from <= to <= buf@.len(),
    ensures
        r@ == buf@.subrange(from as int, to as int),
{
    let mut out: Vec<u8> = Vec::new();
    let mut i = from;
    while i < to
        invariant
            from <= i <= to <= buf@.len(),
            out@ == buf@.subrange(from as int, i as int),
        decreases to - i,
    {
        out.push(buf[i]);
        proof {
            assert(buf@.subrange(from as int, i + 1) =~= buf@.subrange(from as int, i as int).push(buf@[i as int]));
        }
        i = i + 1;
    }
    out
}

/// Reads one frame starting at `pos`, with arrays nested at most `depth` deep.
/// A frame that is returned ends after `pos` and within the buffer.
pub fn decode(buf: &Vec<u8>, pos: usize, depth: usize) -> (r: Decoded)
    ensures
        r matches Decoded::Frame(_, end) ==> pos < end <= buf@.len(),
        frame_ok(buf@, pos as int, depth as nat, r),
    decreases depth,
{
    if pos >= buf.len() {
        return Decoded::Incomplete;
    }
    let line_end = match find_crlf(buf, pos + 1) {
        Some(i) => i,
        None => {
            return Decoded::Incomplete;
        },
    };
    let kind = buf[pos];
    let next = line_end + 2;
    if kind == 43u8 || kind == 45u8 {
        let t = text_of(slice_of(buf, pos + 1, line_end).as_slice());
        if kind == 43u8 {
            Decoded::Frame(Data::SStr(t), next)
        } else {
            Decoded::Frame(Data::Error(t), next)
        }
    } else if kind == 58u8 {
        match read_int(buf, pos + 1, line_end) {
            Some(n) => Decoded::Frame(Data::Int(n), next),
            None => Decoded::Malformed,
        }
    } else if kind == 36u8 {
        match read_int(buf, pos + 1, line_end) {
            Some(-1) => Decoded::Frame(Data::Null, next),
            Some(n) => {
                if n < 0 {
                    return Decoded::Malformed;
                }
                if n as u64 > (buf.len() - next) as u64 {
                    return Decoded::Incomplete;
                }
                let stop = next + n as usize;
                if buf.len() - stop < 2 {
                    return Decoded::Incomplete;
                }
                if buf[stop] != 13u8 || buf[stop + 1] != 10u8 {
                    return Decoded::Malformed;
                }
                let t = text_of(slice_of(buf, next, stop).as_slice());
                Decoded::Frame(Data::BStr(t), stop + 2)
            },
            None => Decoded::Malformed,
        }
    } else if kind == 42u8 {
        match read_int(buf, pos + 1, line_end) {
            Some(-1) => Decoded::Frame(Data::NullArray, next),
            Some(n) => {
                if n < 0 || depth == 0 {
                    return Decoded::Malformed;
                }
                let mut items: Vec<Data> = Vec::new();
                let mut at = next;
                let mut k: i64 = 0;
                let ghost d1 = (depth - 1) as nat;
                let ghost mut st: Seq<int> = seq![next as int];
                while k < n
                    invariant
                        pos < at <= buf@.len(),
                        pos < next <= at,
                        0 <= k <= n,
                        depth > 0,
                        d1 == (depth - 1) as nat,
                        items@.len() == k,
                        st.len() == k + 1,
                        st[0] == next as int,
                        st[k as int] == at as int,
                        forall|i: int| 0 <= i < k ==> frame_ok(buf@, st[i], d1,
                            Decoded::Frame(#[trigger] items@[i], st[i + 1] as usize)),
                        pos < buf@.len(),
                        line_end as int == crlf_from(buf@, pos + 1),
                        next == line_end + 2,
                        buf@[pos as int] == 42u8,
                        int_line(buf@, pos + 1, line_end as int) == Some(n as int),
                        n != -1,
                    decreases n - k,
                {
                    let ghost before = items@;
                    let ghost at0 = at as int;
                    match decode(buf, at, depth - 1) {
                        Decoded::Frame(d, end) => {
                            items.push(d);
                            at = end;
                            proof {
                                st = st.push(at as int);
                                assert forall|i: int| 0 <= i < k + 1 implies frame_ok(buf@, st[i], d1,
                                    Decoded::Frame(#[trigger] items@[i], st[i + 1] as usize)) by {
                                    if i < k {
                                        assert(items@[i] == before[i]);
                                    } else {
                                        assert(items@[i] == d);
                                    }
                                }
                            }
                        },
                        Decoded::Incomplete => {
                            proof {
                                assert(before.len() < n);
                                assert(frame_ok(buf@, st[before.len() as int], d1, Decoded::Incomplete));
                            }
                            return Decoded::Incomplete;
                        },
                        Decoded::Malformed => {
                            proof {
                                assert(before.len() < n);
                                assert(frame_ok(buf@, st[before.len() as int], d1, Decoded::Malformed));
                            }
                            return Decoded::Malformed;
                        },
                    }
                    k = k + 1;
                }
                Decoded::Frame(Data::Array(items), at)
            },
            None => Decoded::Malformed,
        }
    } else {
        Decoded::Malformed
    }
}

} // verus!
