use vstd::prelude::*;
use vstd::utf8::encode_utf8;

verus! {

/// One datum of the wire format.
pub enum Data {
    /// `+` simple string.
    SStr(String),
    /// `-` error string.
    Error(String),
    /// `:` signed integer.
    Int(i64),
    /// `$` bulk string.
    BStr(String),
    /// `$-1`, the null bulk string.
    Null,
    /// `*-1`, the null array.
    NullArray,
    /// `*` array of datums.
    Array(Vec<Data>),
}

pub open spec fn crlf() -> Seq<char> {
    seq!['\r', '\n']
}

pub open spec fn digit_char(d: int) -> char {
    ((d + 48) as u8) as char
}

/// Decimal digits of a natural number, most significant first.
pub open spec fn nat_chars(n: nat) -> Seq<char>
    decreases n,
{
    if n < 10 {
        seq![digit_char(n as int)]
    } else {
        nat_chars(n / 10) + seq![digit_char((n % 10) as int)]
    }
}

/// Decimal text of an integer, with a leading minus when negative.
pub open spec fn int_chars(n: int) -> Seq<char> {
    if n < 0 {
        seq!['-'] + nat_chars((-n) as nat)
    } else {
        nat_chars(n as nat)
    }
}

/// Number of bytes of the UTF-8 form of a text.
pub open spec fn byte_len(s: Seq<char>) -> nat {
    encode_utf8(s).len()
}

/// Bulk-string framing of a text.
pub open spec fn bulk_chars(s: Seq<char>) -> Seq<char> {
    seq!['$'] + int_chars(byte_len(s) as int) + crlf() + s + crlf()
}

/// Wire form of a datum.
pub open spec fn encode(d: Data) -> Seq<char>
    decreases d,
{
    match d {
        Data::SStr(s) => seq!['+'] + s@ + crlf(),
        Data::Error(s) => seq!['-'] + s@ + crlf(),
        Data::Int(n) => seq![':'] + int_chars(n as int) + crlf(),
        Data::BStr(s) => bulk_chars(s@),
        Data::Null => seq!['$', '-', '1'] + crlf(),
        Data::NullArray => seq!['*', '-', '1'] + crlf(),
        Data::Array(v) => seq!['*'] + int_chars(v@.len() as int) + crlf() + encode_items(v@),
    }
}

/// Wire forms of a sequence of datums, one after another.
pub open spec fn encode_items(s: Seq<Data>) -> Seq<char>
    decreases s,
{
    if s.len() == 0 {
        Seq::empty()
    } else {
        encode_items(s.drop_last()) + encode(s.last())
    }
}

/// Relies on std's `Display` for `i64`: the decimal digits with a leading minus.
#[verifier::external_body]
pub(crate) fn int_text(n: i64) -> (r: String)
    ensures
        r@ == int_chars(n as int),
{
    n.to_string()
}

/// Relies on std's `Display` for `usize`: the decimal digits.
#[verifier::external_body]
pub(crate) fn count_text(n: usize) -> (r: String)
    ensures
        r@ == nat_chars(n as nat),
{
    n.to_string()
}

/// Relies on std's `Display` for `u64`: the decimal digits.
#[verifier::external_body]
pub(crate) fn u64_text(n: u64) -> (r: String)
    ensures
        r@ == nat_chars(n as nat),
{
    n.to_string()
}

/// Relies on `str::len`: the number of bytes of the UTF-8 form.
#[verifier::external_body]
fn text_byte_len(s: &str) -> (r: usize)
    ensures
        r == byte_len(s@),
{
    s.len()
}

fn push_text(out: &mut String, s: &str)
    ensures
        final(out)@ == old(out)@ + s@,
{
    out.append(s);
}

impl Data {
    /// Writes the wire form of this datum.
    pub fn encode(&self) -> (r: String)
        ensures
            r@ == encode(*self),
        decreases *self,
    {
        let mut out = String::new();
        proof {
            reveal_strlit("+");
            reveal_strlit("-");
            reveal_strlit(":");
            reveal_strlit("$");
            reveal_strlit("*");
            reveal_strlit("\r\n");
            reveal_strlit("$-1\r\n");
            reveal_strlit("*-1\r\n");
        }
        match self {
            Data::SStr(s) => {
                push_text(&mut out, "+");
                push_text(&mut out, s.as_str());
                push_text(&mut out, "\r\n");
            },
            Data::Error(s) => {
                push_text(&mut out, "-");
                push_text(&mut out, s.as_str());
                push_text(&mut out, "\r\n");
            },
            Data::Int(n) => {
                push_text(&mut out, ":");
                let t = int_text(*n);
                push_text(&mut out, t.as_str());
                push_text(&mut out, "\r\n");
            },
            Data::BStr(s) => {
                let len = text_byte_len(s.as_str());
                push_text(&mut out, "$");
                let t = count_text(len);
                push_text(&mut out, t.as_str());
                push_text(&mut out, "\r\n");
                push_text(&mut out, s.as_str());
                push_text(&mut out, "\r\n");
            },
            Data::Null => {
                push_text(&mut out, "$-1\r\n");
            },
            Data::NullArray => {
                push_text(&mut out, "*-1\r\n");
            },
            Data::Array(v) => {
                push_text(&mut out, "*");
                let t = count_text(v.len());
                push_text(&mut out, t.as_str());
                push_text(&mut out, "\r\n");
                let mut i: usize = 0;
                proof {
                    assert(v@.subrange(0, 0) =~= Seq::<Data>::empty());
                    assert(out@ =~= seq!['*'] + int_chars(v@.len() as int) + crlf() + encode_items(v@.subrange(0, 0)));
                }
                while i < v.len()
                    invariant
                        0 <= i <= v@.len(),
                        *self == Data::Array(*v),
                        out@ == seq!['*'] + int_chars(v@.len() as int) + crlf() + encode_items(v@.subrange(0, i as int)),
                    decreases v@.len() - i,
                {
                    proof {
                        assert(decreases_to!(*self => self->Array_0));
                        assert(decreases_to!(self->Array_0 => self->Array_0@));
                        assert(decreases_to!(self->Array_0@ => v@[i as int]));
                    }
                    let e = v[i].encode();
                    push_text(&mut out, e.as_str());
                    proof {
                        let s = v@.subrange(0, i + 1);
                        assert(s.drop_last() =~= v@.subrange(0, i as int));
                        assert(s.last() == v@[i as int]);
                    }
                    i = i + 1;
                }
                proof {
                    assert(v@.subrange(0, v@.len() as int) =~= v@);
                }
            },
        }
        out
    }
}

} // verus!
