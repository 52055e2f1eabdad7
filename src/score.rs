use vstd::prelude::*;

verus! {

/// A decimal number `mantissa / 10^scale`, as the decimal library holds it.
#[derive(Clone, Copy, PartialEq, Eq, Structural)]
pub struct Score {
    pub mantissa: i128,
    pub scale: u32,
}

pub open spec fn pow10(n: nat) -> int
    decreases n,
{
    if n == 0 {
        1
    } else {
        10 * pow10((n - 1) as nat)
    }
}

/// The largest magnitude of a mantissa: 96 bits.
pub const MAX_MANTISSA: i128 = 79228162514264337593543950335;

/// `a` is strictly less than `b` as a number.
pub open spec fn score_before(a: Score, b: Score) -> bool {
    a.mantissa * pow10(b.scale as nat) < b.mantissa * pow10(a.scale as nat)
}

impl Score {
    pub open spec fn wf(&self) -> bool {
        -MAX_MANTISSA <= self.mantissa <= MAX_MANTISSA && self.scale <= 28
    }
}

} // verus!

verus! {

/// What `Decimal::from_str_exact` reads from a text, as `(mantissa, scale)`.
pub uninterp spec fn decimal_parse(s: Seq<char>) -> Option<(int, int)>;

/// The text that `Decimal`'s `Display` writes for `mantissa / 10^scale`.
pub uninterp spec fn decimal_text(mantissa: int, scale: int) -> Seq<char>;

/// Relies on `rust_decimal::Decimal::from_str_exact`: reads a decimal text into a
/// mantissa of at most 96 bits and a scale of at most 28.
#[verifier::external_body]
pub(crate) fn parse_decimal(s: &str) -> (r: Option<Score>)
    ensures
        match r {
            Some(sc) => decimal_parse(s@) == Some((sc.mantissa as int, sc.scale as int)) && sc.wf(),
            None => decimal_parse(s@) is None,
        },
{
    rust_decimal::Decimal::from_str_exact(s).ok().map(|d| Score { mantissa: d.mantissa(), scale: d.scale() })
}

/// Relies on `Decimal::from_i128_with_scale` and `Decimal`'s `Ord`, which orders
/// decimals by their numeric value.
#[verifier::external_body]
pub(crate) fn compare_scores(a: &Score, b: &Score) -> (r: i8)
    requires
        a.wf(),
        b.wf(),
    ensures
        r == -1 <==> score_before(*a, *b),
        r == 1 <==> score_before(*b, *a),
        -1 <= r <= 1,
{
    let x = rust_decimal::Decimal::from_i128_with_scale(a.mantissa, a.scale);
    let y = rust_decimal::Decimal::from_i128_with_scale(b.mantissa, b.scale);
    match x.cmp(&y) {
        std::cmp::Ordering::Less => -1,
        std::cmp::Ordering::Equal => 0,
        std::cmp::Ordering::Greater => 1,
    }
}

/// Relies on `Decimal::from_i128_with_scale` and `Decimal`'s `Display`.
#[verifier::external_body]
pub(crate) fn score_text(a: &Score) -> (r: String)
    requires
        a.wf(),
    ensures
        r@ == decimal_text(a.mantissa as int, a.scale as int),
{
    rust_decimal::Decimal::from_i128_with_scale(a.mantissa, a.scale).to_string()
}

proof fn lemma_pow10_pos(n: nat)
    ensures
        pow10(n) > 0,
    decreases n,
{
    if n > 0 {
        lemma_pow10_pos((n - 1) as nat);
    }
}

/// Numeric order of scores is transitive.
pub proof fn lemma_score_trans(a: Score, b: Score, c: Score)
    requires
        score_before(a, b),
        score_before(b, c),
    ensures
        score_before(a, c),
{
    let pa = pow10(a.scale as nat);
    let pb = pow10(b.scale as nat);
    let pc = pow10(c.scale as nat);
    lemma_pow10_pos(a.scale as nat);
    lemma_pow10_pos(b.scale as nat);
    lemma_pow10_pos(c.scale as nat);
    let am = a.mantissa as int;
    let bm = b.mantissa as int;
    let cm = c.mantissa as int;
    assert(am * pb * pc < bm * pa * pc) by (nonlinear_arith)
        requires am * pb < bm * pa, pc > 0;
    assert(bm * pc * pa < cm * pb * pa) by (nonlinear_arith)
        requires bm * pc < cm * pb, pa > 0;
    assert(am * pc * pb < cm * pa * pb) by (nonlinear_arith)
        requires am * pb * pc < bm * pa * pc, bm * pc * pa < cm * pb * pa;
    assert(am * pc < cm * pa) by (nonlinear_arith)
        requires am * pc * pb < cm * pa * pb, pb > 0;
}

/// Equal-valued scores order the same against any third score.
pub proof fn lemma_score_equiv(a: Score, b: Score, c: Score)
    requires
        !score_before(a, b),
        !score_before(b, a),
    ensures
        score_before(a, c) == score_before(b, c),
        score_before(c, a) == score_before(c, b),
{
    let pa = pow10(a.scale as nat);
    let pb = pow10(b.scale as nat);
    let pc = pow10(c.scale as nat);
    lemma_pow10_pos(a.scale as nat);
    lemma_pow10_pos(b.scale as nat);
    lemma_pow10_pos(c.scale as nat);
    let am = a.mantissa as int;
    let bm = b.mantissa as int;
    let cm = c.mantissa as int;
    assert(am * pb == bm * pa);
    assert((am * pc < cm * pa) == (bm * pc < cm * pb)) by (nonlinear_arith)
        requires am * pb == bm * pa, pa > 0, pb > 0, pc > 0;
    assert((cm * pa < am * pc) == (cm * pb < bm * pc)) by (nonlinear_arith)
        requires am * pb == bm * pa, pa > 0, pb > 0, pc > 0;
}

} // verus!
