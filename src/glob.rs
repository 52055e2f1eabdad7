use vstd::prelude::*;

verus! {

/// Whether text `t` matches pattern `p`: `*` matches any run, `?` any one
/// character, `[abc]` one character of the class, any other character itself.
pub open spec fn glob(p: Seq<char>, t: Seq<char>) -> bool
    decreases p.len() + t.len(),
{
    if p.len() == 0 {
        t.len() == 0
    } else if p[0] == '*' {
        glob(p.drop_first(), t) || (t.len() > 0 && glob(p, t.drop_first()))
    } else if t.len() == 0 {
        false
    } else if p[0] == '?' {
        glob(p.drop_first(), t.drop_first())
    } else if p[0] == '[' && 1 <= first_close(p, 1) < p.len() {
        let c = first_close(p, 1);
        p.subrange(1, c).contains(t[0]) && glob(p.subrange(c + 1, p.len() as int), t.drop_first())
    } else {
        p[0] == t[0] && glob(p.drop_first(), t.drop_first())
    }
}

/// The index of the first `]` in `p` at or after `k`, or `p.len()` when there is none.
pub open spec fn first_close(p: Seq<char>, k: int) -> int
    decreases p.len() - k,
{
    if k >= p.len() || k < 0 {
        p.len() as int
    } else if p[k] == ']' {
        k
    } else {
        first_close(p, k + 1)
    }
}

proof fn lemma_first_close_bounds(p: Seq<char>, k: int)
    requires
        0 <= k,
    ensures
        k <= first_close(p, k) || first_close(p, k) == p.len(),
        first_close(p, k) <= p.len(),
    decreases p.len() - k,
{
    if k < p.len() && p[k] != ']' {
        lemma_first_close_bounds(p, k + 1);
    }
}

fn find_close(p: &Vec<char>, k: usize) -> (r: usize)
    requires
        k <= p@.len(),
    ensures
        r == first_close(p@, k as int),
        k <= r <= p@.len(),
    decreases p@.len() - k,
{
    if k >= p.len() {
        p.len()
    } else if p[k] == ']' {
        k
    } else {
        find_close(p, k + 1)
    }
}

fn class_has(p: &Vec<char>, from: usize, to: usize, c: char) -> (r: bool)
    requires
        from <= to <= p@.len(),
    ensures
        r == p@.subrange(from as int, to as int).contains(c),
{
    let mut i = from;
    while i < to
        invariant
            from <= i <= to <= p@.len(),
            forall|j: int| from <= j < i ==> p@[j] != c,
        decreases to - i,
    {
        if p[i] == c {
            proof {
                assert(p@.subrange(from as int, to as int)[i - from] == c);
            }
            return true;
        }
        i = i + 1;
    }
    proof {
        if p@.subrange(from as int, to as int).contains(c) {
            let k = choose|k: int| 0 <= k < to - from && p@.subrange(from as int, to as int)[k] == c;
            assert(p@[from + k] == c);
        }
    }
    false
}

fn glob_from(p: &Vec<char>, i: usize, t: &Vec<char>, j: usize) -> (r: bool)
    requires
        i <= p@.len(),
        j <= t@.len(),
    ensures
        r == glob(p@.subrange(i as int, p@.len() as int), t@.subrange(j as int, t@.len() as int)),
    decreases p@.len() - i + t@.len() - j,
{
    let ghost ps = p@.subrange(i as int, p@.len() as int);
    let ghost ts = t@.subrange(j as int, t@.len() as int);
    proof {
        if i < p@.len() {
            assert(ps.drop_first() =~= p@.subrange(i + 1, p@.len() as int));
        }
        if j < t@.len() {
            assert(ts.drop_first() =~= t@.subrange(j + 1, t@.len() as int));
        }
    }
    if i == p.len() {
        return j == t.len();
    }
    if p[i] == '*' {
        if glob_from(p, i + 1, t, j) {
            return true;
        }
        if j < t.len() {
            return glob_from(p, i, t, j + 1);
        }
        return false;
    }
    if j == t.len() {
        return false;
    }
    if p[i] == '?' {
        return glob_from(p, i + 1, t, j + 1);
    }
    if p[i] == '[' {
        let c = find_close(p, i + 1);
        proof {
            lemma_close_shift(p@, i as int, 1);
            lemma_first_close_bounds(ps, 1);
        }
        if c < p.len() {
            proof {
                assert(ps.subrange(1, c - i) =~= p@.subrange(i + 1, c as int));
                assert(ps.subrange(c - i + 1, ps.len() as int) =~= p@.subrange(c + 1, p@.len() as int));
            }
            return class_has(p, i + 1, c, t[j]) && glob_from(p, c + 1, t, j + 1);
        }
    }
    p[i] == t[j] && glob_from(p, i + 1, t, j + 1)
}

/// Finding the first `]` in a suffix of `p` is finding it in `p`, shifted.
proof fn lemma_close_shift(p: Seq<char>, i: int, k: int)
    requires
        0 <= i <= p.len(),
        0 <= k,
    ensures
        first_close(p.subrange(i, p.len() as int), k) + i == first_close(p, i + k),
    decreases p.len() - i - k,
{
    if i + k < p.len() && p[i + k] != ']' {
        lemma_close_shift(p, i, k + 1);
    }
}

fn chars_of(s: &str) -> (r: Vec<char>)
    ensures
        r@ == s@,
{
    let n = s.unicode_len();
    let mut out: Vec<char> = Vec::new();
    let mut i: usize = 0;
    while i < n
        invariant
            n == s@.len(),
            0 <= i <= n,
            out@ == s@.subrange(0, i as int),
        decreases n - i,
    {
        out.push(s.get_char(i));
        proof {
            assert(s@.subrange(0, i + 1) =~= s@.subrange(0, i as int).push(s@[i as int]));
        }
        i = i + 1;
    }
    proof {
        assert(s@.subrange(0, n as int) =~= s@);
    }
    out
}

/// Whether `text` matches the glob `pattern`.
pub fn glob_match(pattern: &str, text: &str) -> (r: bool)
    ensures
        r == glob(pattern@, text@),
{
    let p = chars_of(pattern);
    let t = chars_of(text);
    proof {
        assert(p@.subrange(0, p@.len() as int) =~= p@);
        assert(t@.subrange(0, t@.len() as int) =~= t@);
    }
    glob_from(&p, 0, &t, 0)
}

} // verus!
