use vstd::arithmetic::div_mod::{lemma_fundamental_div_mod, lemma_mod_bound};
use vstd::prelude::*;

verus! {

/// Two to the power 64: the base in which a sort key writes its two digits.
pub const RADIX: u128 = 0x1_0000_0000_0000_0000;

/// How often a token stands in a document, and among how many tokens: the
/// fraction `count / total`, kept exact. For a document without tokens the
/// fraction is zero.
#[derive(Clone, Copy, Debug, PartialEq, Eq, Structural)]
pub struct TermFrequency {
    pub count: usize,
    pub total: usize,
}

impl TermFrequency {
    /// The token stands in the document no more often than the document has
    /// tokens, so the fraction lies between zero and one.
    pub open spec fn wf(&self) -> bool {
        self.count <= self.total
    }

    /// The fraction's denominator: the number of tokens, or one where there
    /// are none.
    pub open spec fn denominator(&self) -> int {
        if self.total == 0 {
            1
        } else {
            self.total as int
        }
    }

    /// The fraction is zero.
    pub open spec fn is_zero(&self) -> bool {
        self.count == 0
    }

    /// The fraction is strictly less than `other`.
    pub open spec fn lt(&self, other: TermFrequency) -> bool {
        self.count * other.denominator() < other.count * self.denominator()
    }

    /// The two fractions have one value.
    pub open spec fn same(&self, other: TermFrequency) -> bool {
        self.count * other.denominator() == other.count * self.denominator()
    }

    /// What is missing from one, `1 - count / total`, as a numerator over
    /// `denominator()`.
    pub open spec fn rest(&self) -> int {
        self.denominator() - self.count
    }

    /// The key by which fractions are sorted, largest first: the first two
    /// digits in base 2^64 of `1 - count / total`. The first digit is at most
    /// 2^64, the second less than that.
    pub open spec fn key(&self) -> (int, int) {
        (high_digit(self.rest(), self.denominator()), low_digit(self.rest(), self.denominator()))
    }

    /// Decides whether the fraction is zero.
    pub fn zero(&self) -> (r: bool)
        ensures
            r == self.is_zero(),
    {
        self.count == 0
    }

    /// Decides whether the fraction is strictly less than `other`.
    pub fn less_than(&self, other: &TermFrequency) -> (r: bool)
        ensures
            r == self.lt(*other),
    {
        let mine: u128 = if self.total == 0 {
            1
        } else {
            self.total as u128
        };
        let theirs: u128 = if other.total == 0 {
            1
        } else {
            other.total as u128
        };
        proof {
            lemma_product_fits(self.count as int, theirs as int);
            lemma_product_fits(other.count as int, mine as int);
        }
        (self.count as u128) * theirs < (other.count as u128) * mine
    }

    /// Decides whether the two fractions have one value.
    pub fn same_as(&self, other: &TermFrequency) -> (r: bool)
        ensures
            r == self.same(*other),
    {
        !self.less_than(other) && !other.less_than(self)
    }

    /// Computes the sort key.
    pub fn sort_key(&self) -> (key: (u128, u128))
        requires
            self.wf(),
        ensures
            key.0 == self.key().0,
            key.1 == self.key().1,
    {
        let whole: u128 = if self.total == 0 {
            1
        } else {
            self.total as u128
        };
        let rest: u128 = whole - self.count as u128;
        proof {
            lemma_product_fits(rest as int, RADIX as int);
        }
        let scaled: u128 = rest * RADIX;
        let high: u128 = scaled / whole;
        let carried: u128 = scaled % whole;
        proof {
            lemma_product_fits(carried as int, RADIX as int);
        }
        let low: u128 = (carried * RADIX) / whole;
        (high, low)
    }
}

/// The product of a number below 2^64 and one of at most 2^64 has room in
/// 128 bits.
proof fn lemma_product_fits(a: int, b: int)
    requires
        0 <= a < RADIX,
        0 <= b <= RADIX,
    ensures
        0 <= a * b <= u128::MAX,
{
    assert(0 <= a * b <= (RADIX - 1) * RADIX) by (nonlinear_arith)
        requires
            0 <= a <= RADIX - 1,
            0 <= b <= RADIX,
    ;
}

/// The first digit in base 2^64 behind the point of `part / whole`; for
/// `part == whole` it is 2^64 itself.
pub open spec fn high_digit(part: int, whole: int) -> int {
    (part * RADIX) / whole
}

/// The second digit in base 2^64 behind the point of `part / whole`.
pub open spec fn low_digit(part: int, whole: int) -> int {
    (((part * RADIX) % whole) * RADIX) / whole
}

/// `part / whole` times 2^128, rounded down: the two digits as one number.
pub open spec fn scaled(part: int, whole: int) -> int {
    high_digit(part, whole) * RADIX + low_digit(part, whole)
}

/// One key stands before another: the order of pairs, first digit first.
pub open spec fn key_lt(a: (int, int), b: (int, int)) -> bool {
    a.0 < b.0 || (a.0 == b.0 && a.1 < b.1)
}

/// The two digits are digits, and together they are the floor of
/// `part / whole` times 2^128.
pub proof fn lemma_digits(part: int, whole: int)
    requires
        0 <= part <= whole,
        0 < whole < RADIX,
    ensures
        0 <= high_digit(part, whole) <= RADIX,
        0 <= low_digit(part, whole) < RADIX,
        scaled(part, whole) * whole <= part * RADIX * RADIX,
        part * RADIX * RADIX < (scaled(part, whole) + 1) * whole,
{
    let b = RADIX as int;
    let x = part * b;
    let high = x / whole;
    let carried = x % whole;
    lemma_fundamental_div_mod(x, whole);
    lemma_mod_bound(x, whole);
    let y = carried * b;
    let low = y / whole;
    let left = y % whole;
    lemma_fundamental_div_mod(y, whole);
    lemma_mod_bound(y, whole);
    assert(0 <= high <= b) by (nonlinear_arith)
        requires
            x == whole * high + carried,
            0 <= carried < whole,
            0 <= part <= whole,
            x == part * b,
            b > 0,
    ;
    assert(0 <= low < b) by (nonlinear_arith)
        requires
            y == whole * low + left,
            0 <= left < whole,
            0 <= carried < whole,
            y == carried * b,
            b > 0,
    ;
    assert(part * b * b == (high * b + low) * whole + left) by (nonlinear_arith)
        requires
            x == part * b,
            x == whole * high + carried,
            y == carried * b,
            y == whole * low + left,
    ;
    assert((high * b + low + 1) * whole == (high * b + low) * whole + whole) by (nonlinear_arith);
}

/// A smaller fraction has a smaller floor of its 2^128-fold: fractions with
/// denominators below 2^64 that differ, differ by more than 2^-128.
pub proof fn lemma_scaled_strict(part: int, whole: int, more: int, other: int)
    requires
        0 <= part <= whole,
        0 < whole < RADIX,
        0 <= more <= other,
        0 < other < RADIX,
        part * other < more * whole,
    ensures
        scaled(part, whole) < scaled(more, other),
{
    lemma_digits(part, whole);
    lemma_digits(more, other);
    let low = scaled(part, whole);
    let high = scaled(more, other);
    let unit = RADIX * RADIX;
    let both = whole * other;
    assert(part * RADIX * RADIX == part * unit) by (nonlinear_arith)
        requires
            unit == RADIX * RADIX,
    ;
    assert(more * RADIX * RADIX == more * unit) by (nonlinear_arith)
        requires
            unit == RADIX * RADIX,
    ;
    assert(both <= unit) by (nonlinear_arith)
        requires
            0 < whole < RADIX,
            0 < other < RADIX,
            both == whole * other,
            unit == RADIX * RADIX,
    ;
    assert(0 < both) by (nonlinear_arith)
        requires
            0 < whole,
            0 < other,
            both == whole * other,
    ;
    assert(low * both <= part * other * unit) by (nonlinear_arith)
        requires
            low * whole <= part * unit,
            0 < other,
            both == whole * other,
    ;
    assert(part * other * unit + unit <= more * whole * unit) by (nonlinear_arith)
        requires
            part * other + 1 <= more * whole,
            unit > 0,
    ;
    assert(more * whole * unit < (high + 1) * both) by (nonlinear_arith)
        requires
            more * unit < (high + 1) * other,
            0 < whole,
            both == whole * other,
    ;
    assert(low < high) by (nonlinear_arith)
        requires
            low * both + both < (high + 1) * both,
            0 < both,
    ;
}

/// Fractions of one value have the same floor of their 2^128-fold.
pub proof fn lemma_scaled_same(part: int, whole: int, more: int, other: int)
    requires
        0 <= part <= whole,
        0 < whole < RADIX,
        0 <= more <= other,
        0 < other < RADIX,
        part * other == more * whole,
    ensures
        scaled(part, whole) == scaled(more, other),
{
    lemma_scaled_le(part, whole, more, other);
    lemma_scaled_le(more, other, part, whole);
}

proof fn lemma_scaled_le(part: int, whole: int, more: int, other: int)
    requires
        0 <= part <= whole,
        0 < whole < RADIX,
        0 <= more <= other,
        0 < other < RADIX,
        part * other == more * whole,
    ensures
        scaled(part, whole) <= scaled(more, other),
{
    lemma_digits(part, whole);
    lemma_digits(more, other);
    let low = scaled(part, whole);
    let high = scaled(more, other);
    let unit = RADIX * RADIX;
    let both = whole * other;
    assert(part * RADIX * RADIX == part * unit) by (nonlinear_arith)
        requires
            unit == RADIX * RADIX,
    ;
    assert(more * RADIX * RADIX == more * unit) by (nonlinear_arith)
        requires
            unit == RADIX * RADIX,
    ;
    assert(0 < both) by (nonlinear_arith)
        requires
            0 < whole,
            0 < other,
            both == whole * other,
    ;
    assert(low * both <= part * other * unit) by (nonlinear_arith)
        requires
            low * whole <= part * unit,
            0 < other,
            both == whole * other,
    ;
    assert(more * whole * unit < (high + 1) * both) by (nonlinear_arith)
        requires
            more * unit < (high + 1) * other,
            0 < whole,
            both == whole * other,
    ;
    assert(low < high + 1) by (nonlinear_arith)
        requires
            low * both < (high + 1) * both,
            0 < both,
    ;
}

/// Two digits compare as the numbers that they write.
pub proof fn lemma_digits_compare(a: (int, int), b: (int, int))
    requires
        0 <= a.1 < RADIX,
        0 <= b.1 < RADIX,
    ensures
        key_lt(a, b) <==> a.0 * RADIX + a.1 < b.0 * RADIX + b.1,
        a == b <==> a.0 * RADIX + a.1 == b.0 * RADIX + b.1,
{
    let r = RADIX as int;
    if a.0 < b.0 {
        assert(a.0 * r + r <= b.0 * r) by (nonlinear_arith)
            requires
                a.0 + 1 <= b.0,
                r > 0,
        ;
    } else if b.0 < a.0 {
        assert(b.0 * r + r <= a.0 * r) by (nonlinear_arith)
            requires
                b.0 + 1 <= a.0,
                r > 0,
        ;
    }
}

/// The sort key puts fractions in order, largest first: a key stands before
/// another exactly when its fraction is the greater one, and two fractions
/// have one key exactly when they have one value.
pub proof fn lemma_key_order(a: TermFrequency, b: TermFrequency)
    requires
        a.wf(),
        b.wf(),
    ensures
        key_lt(a.key(), b.key()) <==> b.lt(a),
        a.key() == b.key() <==> a.same(b),
{
    let (p, w) = (a.rest(), a.denominator());
    let (q, v) = (b.rest(), b.denominator());
    assert(w < RADIX && v < RADIX);
    lemma_digits(p, w);
    lemma_digits(q, v);
    lemma_digits_compare(a.key(), b.key());
    assert(p * v == w * v - a.count * v) by (nonlinear_arith)
        requires
            p == w - a.count,
    ;
    assert(q * w == w * v - b.count * w) by (nonlinear_arith)
        requires
            q == v - b.count,
    ;
    if p * v < q * w {
        lemma_scaled_strict(p, w, q, v);
    } else if q * w < p * v {
        lemma_scaled_strict(q, v, p, w);
    } else {
        lemma_scaled_same(p, w, q, v);
    }
}

/// Term frequencies are ordered as fractions are: of two, one is less, or
/// they have one value, and never both; and what is less than something less
/// than a third is less than the third, as are values equal to it.
pub proof fn lemma_frequency_order(a: TermFrequency, b: TermFrequency, c: TermFrequency)
    ensures
        a.same(a),
        a.same(b) <==> b.same(a),
        a.lt(b) || b.lt(a) || a.same(b),
        !(a.lt(b) && b.lt(a)),
        !(a.lt(b) && a.same(b)),
        a.lt(b) && b.lt(c) ==> a.lt(c),
        a.same(b) && b.same(c) ==> a.same(c),
        a.same(b) && b.lt(c) ==> a.lt(c),
        a.lt(b) && b.same(c) ==> a.lt(c),
{
    let (x, u) = (a.count as int, a.denominator());
    let (y, v) = (b.count as int, b.denominator());
    let (z, w) = (c.count as int, c.denominator());
    assert((x * v) * w == (x * w) * v && (y * u) * w == (y * w) * u && (z * v) * u == (z * u) * v)
        by (nonlinear_arith);
    if x * v < y * u {
        assert((x * v) * w < (y * u) * w) by (nonlinear_arith)
            requires
                x * v < y * u,
                w > 0,
        ;
    }
    if x * v == y * u {
        assert((x * v) * w == (y * u) * w) by (nonlinear_arith)
            requires
                x * v == y * u,
        ;
    }
    if y * w < z * v {
        assert((y * w) * u < (z * v) * u) by (nonlinear_arith)
            requires
                y * w < z * v,
                u > 0,
        ;
    }
    if y * w == z * v {
        assert((y * w) * u == (z * v) * u) by (nonlinear_arith)
            requires
                y * w == z * v,
        ;
    }
    if (x * w) * v < (z * u) * v {
        assert(x * w < z * u) by (nonlinear_arith)
            requires
                (x * w) * v < (z * u) * v,
                v > 0,
        ;
    }
    if (x * w) * v == (z * u) * v {
        assert(x * w == z * u) by (nonlinear_arith)
            requires
                (x * w) * v == (z * u) * v,
                v > 0,
        ;
    }
}

/// How rare a token is in a corpus: of `documents` documents, `containing`
/// hold it. It stands for the inverse document frequency, the logarithm to
/// base two of `(1 + documents) / (1 + containing)`; the logarithm itself
/// is left to the caller, and the fraction under it is kept exact.
#[derive(Clone, Copy, Debug, PartialEq, Eq, Structural)]
pub struct InverseFrequency {
    pub documents: usize,
    pub containing: usize,
}

impl InverseFrequency {
    /// No more documents hold the token than there are documents.
    pub open spec fn wf(&self) -> bool {
        self.containing <= self.documents
    }

    /// The numerator of the fraction under the logarithm.
    pub open spec fn numerator(&self) -> int {
        1 + self.documents
    }

    /// The denominator of the fraction under the logarithm.
    pub open spec fn denominator(&self) -> int {
        1 + self.containing
    }

    /// The inverse document frequency is zero: the fraction under the
    /// logarithm is one.
    pub open spec fn is_zero(&self) -> bool {
        self.numerator() == self.denominator()
    }

    /// The inverse document frequency is strictly greater than `other`: so is
    /// the fraction under the logarithm, which grows with it.
    pub open spec fn gt(&self, other: InverseFrequency) -> bool {
        self.numerator() * other.denominator() > other.numerator() * self.denominator()
    }

    /// Decides whether the inverse document frequency is zero.
    pub fn zero(&self) -> (r: bool)
        ensures
            r == self.is_zero(),
    {
        self.documents == self.containing
    }

    /// The fraction under the logarithm, numerator first.
    pub fn fraction(&self) -> (r: (u128, u128))
        ensures
            r.0 == self.numerator(),
            r.1 == self.denominator(),
    {
        (self.documents as u128 + 1, self.containing as u128 + 1)
    }
}

/// An inverse document frequency is not negative: the fraction under the
/// logarithm is at least one.
pub proof fn lemma_idf_not_negative(idf: InverseFrequency)
    requires
        idf.wf(),
    ensures
        idf.numerator() >= idf.denominator() >= 1,
        idf.is_zero() <==> idf.containing == idf.documents,
{
}

/// Among the same number of documents, the inverse document frequency of a
/// token that stands in more of them is strictly less.
pub proof fn lemma_idf_falls(fewer: InverseFrequency, more: InverseFrequency)
    requires
        fewer.documents == more.documents,
        fewer.containing < more.containing,
    ensures
        fewer.gt(more),
{
    assert(fewer.numerator() * more.denominator() > more.numerator() * fewer.denominator())
        by (nonlinear_arith)
        requires
            fewer.numerator() == more.numerator(),
            fewer.numerator() > 0,
            fewer.denominator() < more.denominator(),
    ;
}

/// The inverse document frequency of a token that stands in no document is
/// the logarithm of one more than the number of documents, and no token of
/// the same corpus has a greater one.
pub proof fn lemma_idf_of_unknown(unknown: InverseFrequency, other: InverseFrequency)
    requires
        unknown.containing == 0,
        other.documents == unknown.documents,
    ensures
        unknown.numerator() == 1 + unknown.documents,
        unknown.denominator() == 1,
        !other.gt(unknown),
{
    assert(other.numerator() * unknown.denominator() <= unknown.numerator() * other.denominator())
        by (nonlinear_arith)
        requires
            other.numerator() == unknown.numerator(),
            other.numerator() > 0,
            unknown.denominator() == 1,
            other.denominator() >= 1,
    ;
}

/// A relevance score: the product of a term frequency and an inverse
/// document frequency, kept as its two exact factors.
#[derive(Clone, Copy, Debug, PartialEq, Eq, Structural)]
pub struct Score {
    pub tf: TermFrequency,
    pub idf: InverseFrequency,
}

impl Score {
    /// Both factors are well formed.
    pub open spec fn wf(&self) -> bool {
        self.tf.wf() && self.idf.wf()
    }

    /// The score is zero: one of its factors is.
    pub open spec fn is_zero(&self) -> bool {
        self.tf.is_zero() || self.idf.is_zero()
    }

    /// The two scores were computed for one token in one corpus, so that
    /// they share their second factor and can be compared exactly.
    pub open spec fn comparable(&self, other: Score) -> bool {
        self.idf == other.idf
    }

    /// The score is strictly less than `other`, a score with the same second
    /// factor: that factor is above zero and the first factor is less, or it
    /// is below zero and the first factor is greater.
    pub open spec fn lt(&self, other: Score) -> bool {
        &&& self.comparable(other)
        &&& if self.idf.numerator() > self.idf.denominator() {
            self.tf.lt(other.tf)
        } else {
            self.idf.numerator() < self.idf.denominator() && other.tf.lt(self.tf)
        }
    }

    /// The score has the value of `other`, a score with the same second
    /// factor: that factor is zero, or the first factors are of one value.
    pub open spec fn same(&self, other: Score) -> bool {
        self.comparable(other) && (self.idf.is_zero() || self.tf.same(other.tf))
    }

    /// Decides whether the two scores can be compared.
    pub fn comparable_with(&self, other: &Score) -> (r: bool)
        ensures
            r == self.comparable(*other),
    {
        self.idf == other.idf
    }

    /// Decides whether the score is strictly less than `other`.
    pub fn less_than(&self, other: &Score) -> (r: bool)
        ensures
            r == self.lt(*other),
    {
        if !(self.idf == other.idf) {
            false
        } else if self.idf.documents > self.idf.containing {
            self.tf.less_than(&other.tf)
        } else {
            self.idf.documents < self.idf.containing && other.tf.less_than(&self.tf)
        }
    }

    /// Decides whether the score has the value of `other`.
    pub fn same_as(&self, other: &Score) -> (r: bool)
        ensures
            r == self.same(*other),
    {
        self.idf == other.idf && (self.idf.zero() || self.tf.same_as(&other.tf))
    }

    /// Decides whether the score is zero.
    pub fn zero(&self) -> (r: bool)
        ensures
            r == self.is_zero(),
    {
        self.tf.zero() || self.idf.zero()
    }
}

/// Scores with one second factor are ordered as numbers are: of two, one is
/// less, or they have one value, and never both; and what is less than
/// something less than a third is less than the third, as are values equal
/// to it.
pub proof fn lemma_score_order(a: Score, b: Score, c: Score)
    ensures
        a.same(a),
        a.same(b) <==> b.same(a),
        a.comparable(b) <==> a.lt(b) || b.lt(a) || a.same(b),
        !(a.lt(b) && b.lt(a)),
        !(a.lt(b) && a.same(b)),
        a.lt(b) && b.lt(c) ==> a.lt(c),
        a.same(b) && b.same(c) ==> a.same(c),
        a.same(b) && b.lt(c) ==> a.lt(c),
        a.lt(b) && b.same(c) ==> a.lt(c),
{
    lemma_frequency_order(a.tf, b.tf, c.tf);
    lemma_frequency_order(c.tf, b.tf, a.tf);
}

} // verus!
