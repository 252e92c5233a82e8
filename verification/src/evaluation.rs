//! The expected percentile rank: how it is counted over the interactions of
//! a training matrix.

use vstd::prelude::*;
use crate::matrix::{count_entries, RowModel};
use crate::ranking::rank;

verus! {

/// An expected percentile rank as an exact fraction: the sum of the ranks
/// over the number of interactions counted times the number of products.
/// Zero is best; a model that ranks at random is near one half.
#[derive(Clone, Copy, Debug, PartialEq, Eq, Structural)]
pub struct Epr {
    /// Sum of the ranks of the products of all interactions counted.
    pub rank_sum: u128,
    /// Number of interactions counted.
    pub pairs: u64,
    /// Number of products ranked.
    pub products: u64,
}

impl Epr {
    /// The fraction is at least zero and below one.
    pub open spec fn below_one(self) -> bool {
        &&& self.pairs >= 1
        &&& self.products >= 1
        &&& self.rank_sum < self.pairs * self.products
    }

    /// The fraction is a number: neither count in its denominator is zero.
    pub open spec fn valid(self) -> bool {
        self.pairs >= 1 && self.products >= 1
    }

    /// The denominator of the fraction.
    pub open spec fn denominator(self) -> int {
        self.pairs as int * self.products as int
    }

    /// This fraction is lower than `other`, by cross-multiplication.
    pub open spec fn lower(self, other: Epr) -> bool {
        self.rank_sum as int * other.denominator() < other.rank_sum as int * self.denominator()
    }

    /// Tells whether both counts in the denominator are at least one.
    pub fn is_valid(&self) -> (v: bool)
        ensures
            v == self.valid(),
    {
        self.pairs >= 1 && self.products >= 1
    }

    /// Tells whether this fraction is lower than `other`. The comparison is
    /// exact: both cross products are computed in 256 bits.
    pub fn lower_than(&self, other: &Epr) -> (l: bool)
        ensures
            l == self.lower(*other),
    {
        proof {
            lemma_product_fits(self.pairs as int, self.products as int);
            lemma_product_fits(other.pairs as int, other.products as int);
        }
        let mine: u128 = (self.pairs as u128) * (self.products as u128);
        let theirs: u128 = (other.pairs as u128) * (other.products as u128);
        let (left_high, left_low) = mul_wide(self.rank_sum, theirs);
        let (right_high, right_low) = mul_wide(other.rank_sum, mine);
        left_high < right_high || (left_high == right_high && left_low < right_low)
    }

    /// The fraction zero.
    pub fn zero() -> (e: Epr)
        ensures
            e == (Epr { rank_sum: 0, pairs: 1, products: 1 }),
            e.below_one(),
    {
        Epr { rank_sum: 0, pairs: 1, products: 1 }
    }
}

/// The product of two numbers below 2^64 is below 2^128.
pub proof fn lemma_product_fits(a: int, b: int)
    requires
        0 <= a <= 0xFFFF_FFFF_FFFF_FFFF,
        0 <= b <= 0xFFFF_FFFF_FFFF_FFFF,
    ensures
        0 <= a * b <= 0xFFFF_FFFF_FFFF_FFFE_0000_0000_0000_0001,
{
    assert(0 <= a * b <= 0xFFFF_FFFF_FFFF_FFFF * 0xFFFF_FFFF_FFFF_FFFF) by (nonlinear_arith)
        requires
            0 <= a <= 0xFFFF_FFFF_FFFF_FFFF,
            0 <= b <= 0xFFFF_FFFF_FFFF_FFFF,
    ;
}

/// The product of two numbers written in two places to the base `w`.
pub proof fn lemma_split_product(x1: int, x0: int, y1: int, y0: int, w: int)
    ensures
        (x1 * w + x0) * (y1 * w + y0) == (x1 * y1) * (w * w) + (x0 * y1 + x1 * y0) * w + x0 * y0,
{
    let a = x1 * w;
    let c = y1 * w;
    assert((a + x0) * (c + y0) == a * c + a * y0 + x0 * c + x0 * y0) by (nonlinear_arith);
    assert(a * c == (x1 * y1) * (w * w)) by (nonlinear_arith)
        requires
            a == x1 * w,
            c == y1 * w,
    ;
    assert(a * y0 == (x1 * y0) * w) by (nonlinear_arith)
        requires
            a == x1 * w,
    ;
    assert(x0 * c == (x0 * y1) * w) by (nonlinear_arith)
        requires
            c == y1 * w,
    ;
    assert((x0 * y1 + x1 * y0) * w == (x0 * y1) * w + (x1 * y0) * w) by (nonlinear_arith);
}

/// Multiplies two 128-bit numbers exactly: the high and the low 128 bits of
/// the product.
pub fn mul_wide(x: u128, y: u128) -> (r: (u128, u128))
    ensures
        r.0 as int * 0x1_0000_0000_0000_0000_0000_0000_0000_0000 + r.1 as int == x as int * y as int,
{
    let x1: u128 = x / 0x1_0000_0000_0000_0000;
    let x0: u128 = x % 0x1_0000_0000_0000_0000;
    let y1: u128 = y / 0x1_0000_0000_0000_0000;
    let y0: u128 = y % 0x1_0000_0000_0000_0000;
    proof {
        lemma_product_fits(x0 as int, y0 as int);
        lemma_product_fits(x0 as int, y1 as int);
        lemma_product_fits(x1 as int, y0 as int);
        lemma_product_fits(x1 as int, y1 as int);
    }
    let p00: u128 = x0 * y0;
    let p01: u128 = x0 * y1;
    let p10: u128 = x1 * y0;
    let p11: u128 = x1 * y1;
    let t: u128 = p01 + p00 / 0x1_0000_0000_0000_0000;
    let u: u128 = p10 + t % 0x1_0000_0000_0000_0000;
    let low: u128 = (u % 0x1_0000_0000_0000_0000) * 0x1_0000_0000_0000_0000 + p00
        % 0x1_0000_0000_0000_0000;
    let high: u128 = p11 + t / 0x1_0000_0000_0000_0000 + u / 0x1_0000_0000_0000_0000;
    proof {
        let w: int = 0x1_0000_0000_0000_0000;
        lemma_split_product(x1 as int, x0 as int, y1 as int, y0 as int, w);
        assert(w * w == 0x1_0000_0000_0000_0000_0000_0000_0000_0000) by (nonlinear_arith)
            requires
                w == 0x1_0000_0000_0000_0000,
        ;
    }
    (high, low)
}

/// Of three valid fractions, one that is lower than a second which a third
/// is not lower than, is lower than the third.
pub proof fn lemma_lower_transitive(a: Epr, b: Epr, c: Epr)
    requires
        a.valid(),
        b.valid(),
        c.valid(),
        a.lower(b),
        !c.lower(b),
    ensures
        a.lower(c),
{
    let (an, ad) = (a.rank_sum as int, a.denominator());
    let (bn, bd) = (b.rank_sum as int, b.denominator());
    let (cn, cd) = (c.rank_sum as int, c.denominator());
    lemma_denominator_positive(a);
    lemma_denominator_positive(b);
    lemma_denominator_positive(c);
    assert(an * cd < cn * ad) by (nonlinear_arith)
        requires
            an * bd < bn * ad,
            cn * bd >= bn * cd,
            ad > 0,
            bd > 0,
            cd > 0,
            an >= 0,
            bn >= 0,
            cn >= 0,
    ;
}

/// No fraction is lower than itself.
pub proof fn lemma_lower_irreflexive(a: Epr)
    ensures
        !a.lower(a),
{
}

/// Of two fractions at most one is lower than the other.
pub proof fn lemma_lower_asymmetric(a: Epr, b: Epr)
    requires
        a.lower(b),
    ensures
        !b.lower(a),
{
}

/// The denominator of a valid fraction is positive.
pub proof fn lemma_denominator_positive(a: Epr)
    requires
        a.valid(),
    ensures
        a.denominator() > 0,
{
    assert(a.pairs as int * a.products as int > 0) by (nonlinear_arith)
        requires
            a.pairs as int >= 1,
            a.products as int >= 1,
    ;
}

/// The data of a trained model from which its evaluation is computed.
pub ghost struct Fitted {
    pub matrix: Seq<RowModel>,
    pub clients: Seq<Seq<char>>,
    pub products: Seq<Seq<char>>,
    pub scores: Seq<Seq<i64>>,
}

/// The interaction at place `k` of row `i` counts: the index maps hold its
/// client and its product.
pub open spec fn counted(f: Fitted, i: int, k: int) -> bool {
    f.clients.contains(f.matrix[i].client) && f.products.contains(f.matrix[i].products[k])
}

/// The rank of the product of the interaction at place `k` of row `i` among
/// all products, by the scores of the row's client.
pub open spec fn entry_rank(f: Fitted, i: int, k: int) -> nat {
    rank(
        f.scores[f.clients.index_of(f.matrix[i].client)],
        f.products,
        f.products.index_of(f.matrix[i].products[k]),
    )
}

/// Number of interactions that count among the first `upto` of row `i`.
pub open spec fn row_pairs(f: Fitted, i: int, upto: int) -> nat
    decreases upto,
{
    if upto <= 0 {
        0
    } else {
        row_pairs(f, i, upto - 1) + if counted(f, i, upto - 1) {
            1nat
        } else {
            0nat
        }
    }
}

/// Sum of the ranks of the interactions that count among the first `upto` of
/// row `i`.
pub open spec fn row_rank_sum(f: Fitted, i: int, upto: int) -> nat
    decreases upto,
{
    if upto <= 0 {
        0
    } else {
        row_rank_sum(f, i, upto - 1) + if counted(f, i, upto - 1) {
            entry_rank(f, i, upto - 1)
        } else {
            0nat
        }
    }
}

/// Number of interactions that count in the first `upto` rows.
pub open spec fn pairs_upto(f: Fitted, upto: int) -> nat
    decreases upto,
{
    if upto <= 0 {
        0
    } else {
        pairs_upto(f, upto - 1) + row_pairs(f, upto - 1, f.matrix[upto - 1].products.len() as int)
    }
}

/// Sum of the ranks of the interactions that count in the first `upto` rows.
pub open spec fn rank_sum_upto(f: Fitted, upto: int) -> nat
    decreases upto,
{
    if upto <= 0 {
        0
    } else {
        rank_sum_upto(f, upto - 1) + row_rank_sum(
            f,
            upto - 1,
            f.matrix[upto - 1].products.len() as int,
        )
    }
}

/// Where every interaction counts, as many count as there are.
pub proof fn lemma_all_counted(f: Fitted, upto: int)
    requires
        0 <= upto <= f.matrix.len(),
        forall|i: int, k: int|
            0 <= i < f.matrix.len() && 0 <= k < f.matrix[i].products.len() ==> #[trigger] counted(
                f,
                i,
                k,
            ),
    ensures
        pairs_upto(f, upto) == count_entries(f.matrix.take(upto)),
    decreases upto,
{
    if upto > 0 {
        lemma_all_counted(f, upto - 1);
        lemma_row_all_counted(f, upto - 1, f.matrix[upto - 1].products.len() as int);
        assert(f.matrix.take(upto).drop_last() =~= f.matrix.take(upto - 1));
    }
}

proof fn lemma_row_all_counted(f: Fitted, i: int, upto: int)
    requires
        0 <= i < f.matrix.len(),
        0 <= upto <= f.matrix[i].products.len(),
        forall|k: int| 0 <= k < f.matrix[i].products.len() ==> #[trigger] counted(f, i, k),
    ensures
        row_pairs(f, i, upto) == upto,
    decreases upto,
{
    if upto > 0 {
        lemma_row_all_counted(f, i, upto - 1);
    }
}

/// A row whose client the index does not hold counts nothing.
pub proof fn lemma_row_uncounted(f: Fitted, i: int, upto: int)
    requires
        !f.clients.contains(f.matrix[i].client),
    ensures
        row_pairs(f, i, upto) == 0,
        row_rank_sum(f, i, upto) == 0,
    decreases upto,
{
    if upto > 0 {
        lemma_row_uncounted(f, i, upto - 1);
    }
}

/// Adding a rank below the number of products keeps the sum within the
/// number of interactions times the highest rank, and within 128 bits.
pub proof fn lemma_sum_step(sum: int, pairs: int, r: int, p: int)
    requires
        0 <= r < p,
        0 <= pairs < usize::MAX,
        p <= usize::MAX,
        0 <= sum <= pairs * (p - 1),
    ensures
        sum + r <= (pairs + 1) * (p - 1),
        sum + r <= u128::MAX,
{
    assert((pairs + 1) * (p - 1) == pairs * (p - 1) + (p - 1)) by (nonlinear_arith);
    assert((pairs + 1) * (p - 1) <= 0xFFFF_FFFF_FFFF_FFFF * 0xFFFF_FFFF_FFFF_FFFF)
        by (nonlinear_arith)
        requires
            0 <= pairs + 1 <= 0xFFFF_FFFF_FFFF_FFFF,
            0 <= p - 1 <= 0xFFFF_FFFF_FFFF_FFFF,
    ;
}

/// A sum of ranks within the number of interactions times the highest rank
/// is below the number of interactions times the number of products.
pub proof fn lemma_mean_below_one(sum: int, pairs: int, p: int)
    requires
        pairs >= 1,
        p >= 1,
        0 <= sum <= pairs * (p - 1),
    ensures
        sum < pairs * p,
{
    assert(pairs * p == pairs * (p - 1) + pairs) by (nonlinear_arith);
}


} // verus!
