//! The distribution engine: an immutable cumulative distribution function
//! (CDF) discretized into fixed-width time bins, each bin holding a 16-bit
//! fixed-point cumulative probability, together with the four combinators of
//! the outcome algebra and a stochastic-dominance comparison.

use crate::frac::{frac_le, frac_le_one, frac_valid, quant_floor, quant_scale_int, Frac};
use crate::text::dec_str;
use vstd::prelude::*;
use vstd::string::StringExecFns;

verus! {

/// Everything that can go wrong in the algebra. Out-of-range inputs,
/// non-monotone inputs, mismatched operands, zero choice weights and
/// unresolved names are user errors; an overflowing mixture bin is reported
/// rather than masked.
#[derive(Clone, Copy, Debug, PartialEq, Eq, Structural)]
pub enum CDFError {
    /// A probability or fraction left the closed interval [0, 1].
    InvalidRange,
    /// A bin sequence decreased somewhere although a CDF must be cumulative.
    NotMonotone,
    /// Two operands with different bin sizes or bin counts were combined.
    Incompatible,
    /// A fixed-point sum left the 16-bit range while mixing two operands.
    Overflow,
    /// A name, or an editing placeholder, reached evaluation.
    UnresolvedName,
    /// The weights of a probabilistic choice sum to zero.
    ZeroWeightSum,
}

/// The description of each error.
pub open spec fn error_message(e: CDFError) -> Seq<char> {
    match e {
        CDFError::InvalidRange => "Data vector must contain values between 0 and 1"@,
        CDFError::NotMonotone => "Data vector must contain monotonically increasing values"@,
        CDFError::Incompatible => "CDFs must have the same bin size and length"@,
        CDFError::Overflow => "Addition overflow during choice"@,
        CDFError::UnresolvedName => "Cannot evaluate a name"@,
        CDFError::ZeroWeightSum => "Choice weights must not sum to zero"@,
    }
}

impl CDFError {
    /// A human-readable description of the error.
    pub fn message(&self) -> (r: &'static str)
        ensures
            r@ == error_message(*self),
    {
        match self {
            CDFError::InvalidRange => "Data vector must contain values between 0 and 1",
            CDFError::NotMonotone => "Data vector must contain monotonically increasing values",
            CDFError::Incompatible => "CDFs must have the same bin size and length",
            CDFError::Overflow => "Addition overflow during choice",
            CDFError::UnresolvedName => "Cannot evaluate a name",
            CDFError::ZeroWeightSum => "Choice weights must not sum to zero",
        }
    }
}

/// The fixed-point primitive shared by all combinators: multiply two 16-bit
/// fractions of one, biasing by 65535 before the shift down so that the
/// result rounds upward.
pub open spec fn fixed_mul(x: int, y: int) -> int {
    (x * y + 65535) / 65536
}

/// The bin sequence never decreases.
pub open spec fn sorted(s: Seq<u16>) -> bool {
    forall|i: int, j: int| 0 <= i <= j < s.len() ==> s[i] <= s[j]
}

/// The fixed-point product stays within the bin range and never exceeds
/// either factor.
pub proof fn lemma_fixed_mul_bounds(x: int, y: int)
    requires
        0 <= x <= 65535,
        0 <= y <= 65535,
    ensures
        0 <= fixed_mul(x, y) <= x,
        fixed_mul(x, y) <= y,
        0 <= x * y <= 65535 * 65535,
{
    assert(0 <= x * y && x * y <= 65535 * x && x * y <= 65535 * y) by (nonlinear_arith)
        requires
            0 <= x <= 65535,
            0 <= y <= 65535,
    ;
    crate::frac::lemma_div_bound(x * y + 65535, x, 65536);
    crate::frac::lemma_div_bound(x * y + 65535, y, 65536);
}

/// The fixed-point product is monotone in both factors.
pub proof fn lemma_fixed_mul_mono(x1: int, y1: int, x2: int, y2: int)
    requires
        0 <= x1 <= x2,
        0 <= y1 <= y2,
    ensures
        fixed_mul(x1, y1) <= fixed_mul(x2, y2),
{
    assert(x1 * y1 <= x2 * y2) by (nonlinear_arith)
        requires
            0 <= x1 <= x2,
            0 <= y1 <= y2,
    ;
    vstd::arithmetic::div_mod::lemma_div_is_ordered(x1 * y1 + 65535, x2 * y2 + 65535, 65536);
}

/// Multiplying by the fixed-point one is the identity.
pub proof fn lemma_fixed_mul_one(x: int)
    requires
        0 <= x <= 65535,
    ensures
        fixed_mul(x, 65535) == x,
{
    assert(x * 65535 + 65535 == 65536 * x + (65535 - x));
    vstd::arithmetic::div_mod::lemma_div_multiples_vanish_fancy(x, 65535 - x, 65536);
}

/// Multiplying by the fixed-point zero gives zero.
pub proof fn lemma_fixed_mul_zero(x: int)
    requires
        0 <= x <= 65535,
    ensures
        fixed_mul(x, 0) == 0,
{
    assert(x * 0 == 0);
}

/// Inclusion–exclusion stays inside the bin range: the product never exceeds
/// the sum, and the sum minus the product never exceeds the fixed-point one.
pub proof fn lemma_incl_excl_bounds(x: int, y: int)
    requires
        0 <= x <= 65535,
        0 <= y <= 65535,
    ensures
        0 <= fixed_mul(x, y) <= x + y,
        x + y - fixed_mul(x, y) <= 65535,
{
    lemma_fixed_mul_bounds(x, y);
    if x + y >= 65536 {
        assert((x + y - 65535) * 65536 <= x * y + 65535) by (nonlinear_arith)
            requires
                x <= 65535,
                y <= 65535,
                x + y >= 65536,
        ;
        vstd::arithmetic::div_mod::lemma_div_is_ordered(
            (x + y - 65535) * 65536,
            x * y + 65535,
            65536,
        );
        vstd::arithmetic::div_mod::lemma_div_by_multiple(x + y - 65535, 65536);
    }
}

/// Inclusion–exclusion is monotone in both operands.
pub proof fn lemma_incl_excl_mono(x1: int, y1: int, x2: int, y2: int)
    requires
        0 <= x1 <= x2 <= 65535,
        0 <= y1 <= y2 <= 65535,
    ensures
        x1 + y1 - fixed_mul(x1, y1) <= x2 + y2 - fixed_mul(x2, y2),
{
    let k = (x2 - x1) + (y2 - y1);
    assert(x2 * y2 <= x1 * y1 + 65535 * k) by (nonlinear_arith)
        requires
            0 <= x1 <= x2 <= 65535,
            0 <= y1 <= y2 <= 65535,
            k == (x2 - x1) + (y2 - y1),
    ;
    vstd::arithmetic::div_mod::lemma_div_is_ordered(
        x2 * y2 + 65535,
        x1 * y1 + 65535 + k * 65536,
        65536,
    );
    crate::frac::lemma_div_add_multiple(x1 * y1 + 65535, k, 65536);
}

/// `fixed_mul`, executably. This is the rounding that gives the algebra its
/// bit-exact behaviour, so it is shared by every combinator.
pub fn mul(x: u16, y: u16) -> (r: u16)
    ensures
        r == fixed_mul(x as int, y as int),
{
    proof {
        lemma_fixed_mul_bounds(x as int, y as int);
    }
    ((x as u32 * y as u32 + 65535) / 65536) as u16
}

/// The mathematical model of a CDF: its bin sequence and its exact bin size
/// as a rational number.
#[verifier::ext_equal]
pub ghost struct CdfModel {
    pub data: Seq<u16>,
    pub bin_num: int,
    pub bin_den: int,
}

impl CdfModel {
    /// Two distributions may be combined only when they share the bin size
    /// (as a value) and the bin count.
    pub open spec fn compatible(self, other: CdfModel) -> bool {
        &&& self.bin_num * other.bin_den == other.bin_num * self.bin_den
        &&& self.data.len() == other.data.len()
    }
}

/// The model of a combinator result: the new distribution, or the error.
pub open spec fn res_model(r: Result<CDF, CDFError>) -> Result<CdfModel, CDFError> {
    match r {
        Ok(c) => Ok(c@),
        Err(e) => Err(e),
    }
}

/// What validated construction returns: the two validation errors in order,
/// or every bin value quantized by truncation.
pub open spec fn spec_new(data: Seq<Frac>, bin_size: Frac) -> Result<CdfModel, CDFError> {
    if exists|i: int| 0 <= i < data.len() && !frac_le_one(data[i]) {
        Err(CDFError::InvalidRange)
    } else if exists|i: int| 0 <= i < data.len() - 1 && !frac_le(#[trigger] data[i], data[i + 1]) {
        Err(CDFError::NotMonotone)
    } else {
        Ok(
            CdfModel {
                data: Seq::new(data.len(), |i: int| quant_floor(data[i]) as u16),
                bin_num: bin_size.num(),
                bin_den: bin_size.den(),
            },
        )
    }
}

/// The bins of a distribution as text, comma-separated.
pub open spec fn bins_str(s: Seq<u16>) -> Seq<char>
    decreases s.len(),
{
    if s.len() == 0 {
        Seq::empty()
    } else if s.len() == 1 {
        dec_str(s[0] as int)
    } else {
        bins_str(s.drop_last()) + ", "@ + dec_str(s.last() as int)
    }
}

/// The display form of a distribution: its quantized bins and its exact bin
/// size as a fraction.
pub open spec fn cdf_str(m: CdfModel) -> Seq<char> {
    "CDF { data: ["@ + bins_str(m.data) + "], bin_size: "@ + dec_str(m.bin_num) + "/"@ + dec_str(
        m.bin_den,
    ) + " }"@
}

/// One bin of a mixture: each operand bin scaled by its quantized fraction.
pub open spec fn mix_bin(x: int, y: int, qf: int, qc: int) -> int {
    fixed_mul(x, qf) + fixed_mul(y, qc)
}

/// What the weighted mixture "self with probability `fnum/fden`, other
/// otherwise" returns: compatibility and range checks in order, then the
/// per-bin convex combination with both fractions quantized by
/// `quant_scale_int`; a bin sum beyond the 16-bit range is reported as
/// `Overflow`.
pub open spec fn spec_choice(a: CdfModel, fnum: int, fden: int, b: CdfModel) -> Result<
    CdfModel,
    CDFError,
> {
    if !a.compatible(b) {
        Err(CDFError::Incompatible)
    } else if fnum > fden {
        Err(CDFError::InvalidRange)
    } else {
        let qf = quant_scale_int(fnum, fden);
        let qc = quant_scale_int(fden - fnum, fden);
        if exists|i: int|
            0 <= i < a.data.len() && mix_bin(#[trigger] a.data[i] as int, b.data[i] as int, qf, qc)
                > 65535 {
            Err(CDFError::Overflow)
        } else {
            Ok(
                CdfModel {
                    data: Seq::new(
                        a.data.len(),
                        |i: int| mix_bin(a.data[i] as int, b.data[i] as int, qf, qc) as u16,
                    ),
                    bin_num: a.bin_num,
                    bin_den: a.bin_den,
                },
            )
        }
    }
}

/// What "both outcomes occur" returns: the pointwise fixed-point product of
/// the two CDFs, under the independence assumption.
pub open spec fn spec_for_all(a: CdfModel, b: CdfModel) -> Result<CdfModel, CDFError> {
    if !a.compatible(b) {
        Err(CDFError::Incompatible)
    } else {
        Ok(
            CdfModel {
                data: Seq::new(
                    a.data.len(),
                    |i: int| fixed_mul(a.data[i] as int, b.data[i] as int) as u16,
                ),
                bin_num: a.bin_num,
                bin_den: a.bin_den,
            },
        )
    }
}

/// What "at least one outcome occurs" returns: pointwise inclusion–exclusion,
/// `a + b - a*b` in fixed point.
pub open spec fn spec_for_some(a: CdfModel, b: CdfModel) -> Result<CdfModel, CDFError> {
    if !a.compatible(b) {
        Err(CDFError::Incompatible)
    } else {
        Ok(
            CdfModel {
                data: Seq::new(
                    a.data.len(),
                    |i: int|
                        (a.data[i] + b.data[i] - fixed_mul(a.data[i] as int, b.data[i] as int)) as u16,
                ),
                bin_num: a.bin_num,
                bin_den: a.bin_den,
            },
        )
    }
}

/// The probability mass of one bin: the discrete derivative of a CDF.
pub open spec fn pmf(b: Seq<u16>, j: int) -> int {
    if j == 0 {
        b[0] as int
    } else {
        b[j] - b[j - 1]
    }
}

/// The first `m` terms of the convolution sum at output bin `k`: the sum over
/// `i` in `[0, m)` of `fixed_mul(a[i], pmf(b, k - i))`.
pub open spec fn conv_prefix(a: Seq<u16>, b: Seq<u16>, k: int, m: int) -> int
    decreases m,
{
    if m <= 0 {
        0
    } else {
        conv_prefix(a, b, k, m - 1) + fixed_mul(a[m - 1] as int, pmf(b, k - (m - 1)))
    }
}

/// Output bin `k` of the convolution: all pairs of input bins `i + j == k`.
pub open spec fn conv_bin(a: Seq<u16>, b: Seq<u16>, k: int) -> int {
    conv_prefix(a, b, k, k + 1)
}

/// The first `m` probability masses that can land in output bin `k`.
pub open spec fn pmf_sum(b: Seq<u16>, k: int, m: int) -> int
    decreases m,
{
    if m <= 0 {
        0
    } else {
        pmf_sum(b, k, m - 1) + pmf(b, k - (m - 1))
    }
}

/// What sequential composition returns: the discrete convolution of `a` with
/// the probability masses of `b`.
pub open spec fn spec_convolve(a: CdfModel, b: CdfModel) -> Result<CdfModel, CDFError> {
    if !a.compatible(b) {
        Err(CDFError::Incompatible)
    } else {
        Ok(
            CdfModel {
                data: Seq::new(a.data.len(), |k: int| conv_bin(a.data, b.data, k) as u16),
                bin_num: a.bin_num,
                bin_den: a.bin_den,
            },
        )
    }
}

/// Each probability mass of a sorted CDF lies within the bin range.
pub proof fn lemma_pmf_bounds(b: Seq<u16>, j: int)
    requires
        sorted(b),
        0 <= j < b.len(),
    ensures
        0 <= pmf(b, j) <= 65535,
{
    if j > 0 {
        assert(b[j - 1] <= b[j]);
    }
}

/// The probability masses that can land in bin `k` telescope back to the CDF.
pub proof fn lemma_pmf_sum_value(b: Seq<u16>, k: int, m: int)
    requires
        sorted(b),
        0 <= k < b.len(),
        0 <= m <= k + 1,
    ensures
        pmf_sum(b, k, m) == b[k] - (if m <= k {
            b[k - m] as int
        } else {
            0
        }),
    decreases m,
{
    if m > 0 {
        lemma_pmf_sum_value(b, k, m - 1);
    }
}

/// A partial convolution sum never exceeds the matching partial mass sum,
/// because each term is a fixed-point product with a mass.
pub proof fn lemma_conv_prefix_bounds(a: Seq<u16>, b: Seq<u16>, k: int, m: int)
    requires
        sorted(b),
        0 <= k < b.len(),
        k < a.len(),
        0 <= m <= k + 1,
    ensures
        0 <= conv_prefix(a, b, k, m) <= pmf_sum(b, k, m),
    decreases m,
{
    if m > 0 {
        lemma_conv_prefix_bounds(a, b, k, m - 1);
        lemma_pmf_bounds(b, k - (m - 1));
        lemma_fixed_mul_bounds(a[m - 1] as int, pmf(b, k - (m - 1)));
    }
}

/// Every output bin of the convolution stays within the bin range: the masses
/// telescope to `b[k]`, which is itself a bin value.
pub proof fn lemma_conv_bin_bounds(a: Seq<u16>, b: Seq<u16>, k: int, m: int)
    requires
        sorted(b),
        0 <= k < b.len(),
        k < a.len(),
        0 <= m <= k + 1,
    ensures
        0 <= conv_prefix(a, b, k, m) <= b[k],
{
    lemma_conv_prefix_bounds(a, b, k, m);
    lemma_pmf_sum_value(b, k, m);
}

/// Moving every term of a partial convolution sum one output bin to the right
/// never decreases it, so the convolution is again a CDF.
pub proof fn lemma_conv_prefix_shift(a: Seq<u16>, b: Seq<u16>, k: int, m: int)
    requires
        sorted(a),
        sorted(b),
        0 <= k,
        k + 1 < b.len(),
        k + 1 < a.len(),
        0 <= m <= k + 1,
    ensures
        conv_prefix(a, b, k, m) <= conv_prefix(a, b, k + 1, m + 1),
    decreases m,
{
    if m == 0 {
        lemma_pmf_bounds(b, k + 1);
        lemma_fixed_mul_bounds(a[0] as int, pmf(b, k + 1));
        assert(conv_prefix(a, b, k, 0) == 0);
        assert(conv_prefix(a, b, k + 1, 0) == 0);
        assert(conv_prefix(a, b, k + 1, 1) == conv_prefix(a, b, k + 1, 0) + fixed_mul(
            a[0] as int,
            pmf(b, k + 1),
        ));
    } else {
        lemma_conv_prefix_shift(a, b, k, m - 1);
        lemma_pmf_bounds(b, k - (m - 1));
        assert(a[m - 1] <= a[m]);
        lemma_fixed_mul_mono(
            a[m - 1] as int,
            pmf(b, k - (m - 1)),
            a[m] as int,
            pmf(b, k - (m - 1)),
        );
        assert(conv_prefix(a, b, k, m) == conv_prefix(a, b, k, m - 1) + fixed_mul(
            a[m - 1] as int,
            pmf(b, k - (m - 1)),
        ));
        assert(conv_prefix(a, b, k + 1, m + 1) == conv_prefix(a, b, k + 1, m) + fixed_mul(
            a[m] as int,
            pmf(b, (k + 1) - m),
        ));
        assert(pmf(b, (k + 1) - m) == pmf(b, k - (m - 1)));
    }
}

/// How many convolution terms output bin `k` has accumulated while the outer
/// loop stands at `i` and the inner loop at `j`.
pub open spec fn conv_terms(i: int, j: int, k: int) -> int {
    if k < i {
        k + 1
    } else if k < i + j {
        i + 1
    } else {
        i
    }
}

/// A discretized CDF: one 16-bit cumulative probability per time bin, plus
/// the width of a bin. Validated at construction and immutable afterwards.
#[derive(Debug)]
pub struct CDF {
    data: Vec<u16>,
    bin_size: Frac,
}

impl View for CDF {
    type V = CdfModel;

    closed spec fn view(&self) -> CdfModel {
        CdfModel { data: self.data@, bin_num: self.bin_size.num(), bin_den: self.bin_size.den() }
    }
}

impl CDF {
    /// Bin values are cumulative probabilities, so they never decrease.
    #[verifier::type_invariant]
    pub closed spec fn wf(self) -> bool {
        sorted(self.data@)
    }

    /// The model of every reachable CDF is monotone with a valid bin size.
    pub fn check_wf(&self)
        ensures
            sorted(self@.data),
            1 <= self@.bin_den <= u64::MAX,
            0 <= self@.bin_num <= u64::MAX,
    {
        proof {
            use_type_invariant(self);
        }
        self.bin_size.check_valid();
    }

    /// The quantized bin values.
    pub fn data(&self) -> (r: &Vec<u16>)
        ensures
            r@ == self@.data,
    {
        &self.data
    }

    /// The width of one time bin.
    pub fn bin_size(&self) -> (r: Frac)
        ensures
            r.num() == self@.bin_num,
            r.den() == self@.bin_den,
    {
        self.bin_size
    }

    /// The textual form of the distribution, for example
    /// `CDF { data: [0, 32767, 65535], bin_size: 1/4 }`.
    pub fn to_string(&self) -> (r: String)
        ensures
            r@ == cdf_str(self@),
    {
        let mut s = "CDF { data: [".to_owned();
        proof {
            reveal_strlit("CDF { data: [");
            assert(self@.data.take(0) =~= Seq::<u16>::empty());
        }
        let n = self.data.len();
        let mut i: usize = 0;
        while i < n
            invariant
                0 <= i <= n,
                n == self@.data.len(),
                s@ == "CDF { data: ["@ + bins_str(self@.data.take(i as int)),
            decreases n - i,
        {
            if i > 0 {
                s.append(", ");
            }
            let d = crate::text::u64_to_string(self.data[i] as u64);
            s.append(d.as_str());
            proof {
                reveal_strlit(", ");
                assert(self@.data.take(i as int + 1).drop_last() =~= self@.data.take(i as int));
                assert(self@.data.take(i as int + 1).last() == self@.data[i as int]);
                assert(s@ =~= "CDF { data: ["@ + bins_str(self@.data.take(i as int + 1)));
            }
            i += 1;
        }
        proof {
            assert(self@.data.take(n as int) =~= self@.data);
        }
        s.append("], bin_size: ");
        let num = crate::text::u64_to_string(self.bin_size.num_val());
        s.append(num.as_str());
        s.append("/");
        let den = crate::text::u64_to_string(self.bin_size.den_val());
        s.append(den.as_str());
        s.append(" }");
        proof {
            reveal_strlit("], bin_size: ");
            reveal_strlit("/");
            reveal_strlit(" }");
            assert(s@ =~= cdf_str(self@));
        }
        s
    }

    /// Construct a CDF from exact probabilities, one per bin. Fails with
    /// `InvalidRange` when a value leaves [0, 1], and with `NotMonotone` when
    /// the sequence decreases somewhere; otherwise each value is quantized to
    /// `floor(value * 65535)`.
    pub fn new(data: Vec<Frac>, bin_size: Frac) -> (r: Result<CDF, CDFError>)
        ensures
            res_model(r) == spec_new(data@, bin_size),
    {
        let n = data.len();
        let mut i: usize = 0;
        while i < n
            invariant
                0 <= i <= n,
                n == data@.len(),
                forall|k: int| 0 <= k < i ==> frac_le_one(data@[k]) && frac_valid(data@[k]),
            decreases n - i,
        {
            if !data[i].at_most_one() {
                return Err(CDFError::InvalidRange);
            }
            i += 1;
        }
        if n > 0 {
            let mut i: usize = 0;
            while i < n - 1
                invariant
                    0 <= i < n,
                    n == data@.len(),
                    forall|k: int| 0 <= k < n ==> frac_le_one(#[trigger] data@[k]) && frac_valid(data@[k]),
                    forall|k: int| 0 <= k < i ==> frac_le(#[trigger] data@[k], data@[k + 1]),
                decreases n - i,
            {
                if !data[i].le(&data[i + 1]) {
                    return Err(CDFError::NotMonotone);
                }
                i += 1;
            }
        }
        let mut out: Vec<u16> = Vec::new();
        let mut i: usize = 0;
        while i < n
            invariant
                0 <= i <= n,
                n == data@.len(),
                out@.len() == i,
                forall|k: int| 0 <= k < n ==> frac_le_one(data@[k]) && frac_valid(data@[k]),
                forall|k: int| 0 <= k < n - 1 ==> frac_le(#[trigger] data@[k], data@[k + 1]),
                forall|k: int| 0 <= k < i ==> #[trigger] out@[k] as int == quant_floor(data@[k]),
            decreases n - i,
        {
            let q = data[i].quantize_floor();
            out.push(q);
            i += 1;
        }
        proof {
            assert forall|k: int| 0 <= k < n - 1 implies #[trigger] out@[k] <= out@[k + 1] by {
                let a = data@[k];
                let b = data@[k + 1];
                crate::frac::lemma_quant_floor_bounds(a);
                crate::frac::lemma_quant_floor_bounds(b);
                assert((a.num() * 65535) * b.den() <= (b.num() * 65535) * a.den())
                    by (nonlinear_arith)
                    requires
                        a.num() * b.den() <= b.num() * a.den(),
                ;
                crate::frac::lemma_div_cross_mono(
                    a.num() * 65535,
                    a.den(),
                    b.num() * 65535,
                    b.den(),
                );
                assert(quant_floor(a) <= quant_floor(b));
            }
            lemma_sorted_from_adjacent(out@);
            assert forall|k: int| 0 <= k < n implies #[trigger] out@[k] == quant_floor(
                data@[k],
            ) as u16 by {
                crate::frac::lemma_quant_floor_bounds(data@[k]);
            }
            assert(out@ =~= Seq::new(data@.len(), |i: int| quant_floor(data@[i]) as u16));
        }
        Ok(CDF { data: out, bin_size })
    }

    /// The probabilistic choice "self with probability `fraction`, other
    /// otherwise": per bin, `self` scaled by the quantized fraction plus
    /// `other` scaled by the quantized complement. Fails with `Incompatible`
    /// on mismatched bin sizes or counts, with `InvalidRange` on a fraction
    /// above one, and with `Overflow` when a mixed bin leaves the 16-bit
    /// range.
    pub fn choice(&self, fraction: Frac, other: &CDF) -> (r: Result<CDF, CDFError>)
        ensures
            res_model(r) == spec_choice(self@, fraction.num(), fraction.den(), other@),
    {
        if !self.bin_size.same_value(&other.bin_size) {
            return Err(CDFError::Incompatible);
        }
        if self.data.len() != other.data.len() {
            return Err(CDFError::Incompatible);
        }
        if !fraction.at_most_one() {
            return Err(CDFError::InvalidRange);
        }
        proof {
            use_type_invariant(self);
            use_type_invariant(other);
        }
        let qf = fraction.quantize_scale();
        let qc = fraction.complement().quantize_scale();
        let n = self.data.len();
        let mut out: Vec<u16> = Vec::new();
        let mut i: usize = 0;
        while i < n
            invariant
                0 <= i <= n,
                n == self@.data.len(),
                n == other@.data.len(),
                sorted(self@.data),
                sorted(other@.data),
                self@.compatible(other@),
                fraction.num() <= fraction.den(),
                qf == quant_scale_int(fraction.num(), fraction.den()),
                qc == quant_scale_int(fraction.den() - fraction.num(), fraction.den()),
                out@.len() == i,
                forall|k: int|
                    0 <= k < i ==> #[trigger] out@[k] as int == mix_bin(
                        self@.data[k] as int,
                        other@.data[k] as int,
                        qf as int,
                        qc as int,
                    ),
                forall|k: int|
                    0 <= k < i ==> mix_bin(
                        #[trigger] self@.data[k] as int,
                        other@.data[k] as int,
                        qf as int,
                        qc as int,
                    ) <= 65535,
            decreases n - i,
        {
            let va = crate::cdf::mul(self.data[i], qf);
            let vb = crate::cdf::mul(other.data[i], qc);
            let s = va as u32 + vb as u32;
            if s > 65535 {
                proof {
                    assert(mix_bin(self@.data[i as int] as int, other@.data[i as int] as int, qf as int, qc as int)
                        > 65535);
                    assert(exists|j: int|
                        0 <= j < self@.data.len() && mix_bin(
                            #[trigger] self@.data[j] as int,
                            other@.data[j] as int,
                            qf as int,
                            qc as int,
                        ) > 65535);
                }
                return Err(CDFError::Overflow);
            }
            out.push(s as u16);
            i += 1;
        }
        proof {
            assert forall|k: int| 0 <= k < n - 1 implies #[trigger] out@[k] <= out@[k + 1] by {
                lemma_fixed_mul_mono(
                    self@.data[k] as int,
                    qf as int,
                    self@.data[k + 1] as int,
                    qf as int,
                );
                lemma_fixed_mul_mono(
                    other@.data[k] as int,
                    qc as int,
                    other@.data[k + 1] as int,
                    qc as int,
                );
            }
            lemma_sorted_from_adjacent(out@);
            assert(
                out@ =~= Seq::new(
                    self@.data.len(),
                    |k: int| mix_bin(self@.data[k] as int, other@.data[k] as int, qf as int, qc as int) as u16,
                ));
        }
        Ok(CDF { data: out, bin_size: self.bin_size })
    }

    /// Sequential composition "self's outcome, then other's outcome": the
    /// discrete convolution of `self` with the probability masses of `other`,
    /// an O(n²) double loop over the bins. Fails only with `Incompatible`;
    /// the accumulating sums provably stay inside the bin range.
    pub fn convolve(&self, other: &CDF) -> (r: Result<CDF, CDFError>)
        ensures
            res_model(r) == spec_convolve(self@, other@),
    {
        if !self.bin_size.same_value(&other.bin_size) {
            return Err(CDFError::Incompatible);
        }
        if self.data.len() != other.data.len() {
            return Err(CDFError::Incompatible);
        }
        proof {
            use_type_invariant(self);
            use_type_invariant(other);
        }
        let n = self.data.len();
        let mut out: Vec<u16> = Vec::new();
        let mut i: usize = 0;
        while i < n
            invariant
                0 <= i <= n,
                out@.len() == i,
                forall|k: int| 0 <= k < i ==> out@[k] == 0u16,
            decreases n - i,
        {
            out.push(0);
            i += 1;
        }
        let mut i: usize = 0;
        while i < n
            invariant
                0 <= i <= n,
                n == self@.data.len(),
                n == other@.data.len(),
                sorted(self@.data),
                sorted(other@.data),
                out@.len() == n,
                forall|k: int|
                    0 <= k < n ==> #[trigger] out@[k] as int == conv_prefix(
                        self@.data,
                        other@.data,
                        k,
                        conv_terms(i as int, 0, k),
                    ),
            decreases n - i,
        {
            let mut j: usize = 0;
            while j < n - i
                invariant
                    0 <= i < n,
                    0 <= j <= n - i,
                    n == self@.data.len(),
                    n == other@.data.len(),
                    sorted(self@.data),
                    sorted(other@.data),
                    out@.len() == n,
                    forall|k: int|
                        0 <= k < n ==> #[trigger] out@[k] as int == conv_prefix(
                            self@.data,
                            other@.data,
                            k,
                            conv_terms(i as int, j as int, k),
                        ),
                decreases n - i - j,
            {
                let p: u16 = if j == 0 {
                    other.data[0]
                } else {
                    assert(other@.data[j - 1] <= other@.data[j as int]);
                    other.data[j] - other.data[j - 1]
                };
                proof {
                    lemma_pmf_bounds(other@.data, j as int);
                }
                let m = crate::cdf::mul(self.data[i], p);
                let k = i + j;
                let cur = out[k];
                proof {
                    lemma_conv_bin_bounds(self@.data, other@.data, k as int, i as int + 1);
                    lemma_conv_prefix_bounds(self@.data, other@.data, k as int, i as int);
                }
                let v = ((cur as u32 + m as u32) as u16);
                out.set(k, v);
                proof {
                    assert forall|kk: int| 0 <= kk < n implies #[trigger] out@[kk] as int
                        == conv_prefix(
                        self@.data,
                        other@.data,
                        kk,
                        conv_terms(i as int, j as int + 1, kk),
                    ) by {
                        if kk != k as int {
                            assert(conv_terms(i as int, j as int + 1, kk) == conv_terms(
                                i as int,
                                j as int,
                                kk,
                            ));
                        }
                    }
                }
                j += 1;
            }
            i += 1;
        }
        proof {
            assert forall|k: int| 0 <= k < n - 1 implies #[trigger] out@[k] <= out@[k + 1] by {
                lemma_conv_prefix_shift(self@.data, other@.data, k, k + 1);
                lemma_conv_bin_bounds(self@.data, other@.data, k, k + 1);
                lemma_conv_bin_bounds(self@.data, other@.data, k + 1, k + 2);
            }
            lemma_sorted_from_adjacent(out@);
            assert forall|k: int| 0 <= k < n implies #[trigger] out@[k] == conv_bin(
                self@.data,
                other@.data,
                k,
            ) as u16 by {
                lemma_conv_bin_bounds(self@.data, other@.data, k, k + 1);
            }
            assert(
                out@ =~= Seq::new(
                    self@.data.len(),
                    |k: int| conv_bin(self@.data, other@.data, k) as u16,
                ));
        }
        Ok(CDF { data: out, bin_size: self.bin_size })
    }

    /// "Both outcomes must occur": the pointwise fixed-point product of the
    /// two CDFs, assuming independence. Fails only with `Incompatible`.
    pub fn for_all(&self, other: &CDF) -> (r: Result<CDF, CDFError>)
        ensures
            res_model(r) == spec_for_all(self@, other@),
    {
        if !self.bin_size.same_value(&other.bin_size) {
            return Err(CDFError::Incompatible);
        }
        if self.data.len() != other.data.len() {
            return Err(CDFError::Incompatible);
        }
        proof {
            use_type_invariant(self);
            use_type_invariant(other);
        }
        let n = self.data.len();
        let mut out: Vec<u16> = Vec::new();
        let mut i: usize = 0;
        while i < n
            invariant
                0 <= i <= n,
                n == self@.data.len(),
                n == other@.data.len(),
                sorted(self@.data),
                sorted(other@.data),
                out@.len() == i,
                forall|k: int|
                    0 <= k < i ==> #[trigger] out@[k] as int == fixed_mul(
                        self@.data[k] as int,
                        other@.data[k] as int,
                    ),
            decreases n - i,
        {
            let v = crate::cdf::mul(self.data[i], other.data[i]);
            out.push(v);
            i += 1;
        }
        proof {
            assert forall|k: int| 0 <= k < n - 1 implies #[trigger] out@[k] <= out@[k + 1] by {
                lemma_fixed_mul_mono(
                    self@.data[k] as int,
                    other@.data[k] as int,
                    self@.data[k + 1] as int,
                    other@.data[k + 1] as int,
                );
            }
            lemma_sorted_from_adjacent(out@);
            assert(
                out@ =~= Seq::new(
                    self@.data.len(),
                    |k: int| fixed_mul(self@.data[k] as int, other@.data[k] as int) as u16,
                ));
        }
        Ok(CDF { data: out, bin_size: self.bin_size })
    }

    /// "At least one outcome must occur": pointwise inclusion–exclusion,
    /// `a + b - a*b` in fixed point, assuming independence. Fails only with
    /// `Incompatible`; the arithmetic provably stays inside the bin range.
    pub fn for_some(&self, other: &CDF) -> (r: Result<CDF, CDFError>)
        ensures
            res_model(r) == spec_for_some(self@, other@),
    {
        if !self.bin_size.same_value(&other.bin_size) {
            return Err(CDFError::Incompatible);
        }
        if self.data.len() != other.data.len() {
            return Err(CDFError::Incompatible);
        }
        proof {
            use_type_invariant(self);
            use_type_invariant(other);
        }
        let n = self.data.len();
        let mut out: Vec<u16> = Vec::new();
        let mut i: usize = 0;
        while i < n
            invariant
                0 <= i <= n,
                n == self@.data.len(),
                n == other@.data.len(),
                sorted(self@.data),
                sorted(other@.data),
                out@.len() == i,
                forall|k: int|
                    0 <= k < i ==> #[trigger] out@[k] as int == self@.data[k] + other@.data[k]
                        - fixed_mul(self@.data[k] as int, other@.data[k] as int),
            decreases n - i,
        {
            let x = self.data[i];
            let y = other.data[i];
            let m = crate::cdf::mul(x, y);
            proof {
                lemma_incl_excl_bounds(x as int, y as int);
            }
            let v = ((x as u32 + y as u32) - m as u32) as u16;
            out.push(v);
            i += 1;
        }
        proof {
            assert forall|k: int| 0 <= k < n - 1 implies #[trigger] out@[k] <= out@[k + 1] by {
                lemma_incl_excl_mono(
                    self@.data[k] as int,
                    other@.data[k] as int,
                    self@.data[k + 1] as int,
                    other@.data[k + 1] as int,
                );
            }
            lemma_sorted_from_adjacent(out@);
            assert forall|k: int| 0 <= k < n implies #[trigger] out@[k] == (self@.data[k]
                + other@.data[k] - fixed_mul(self@.data[k] as int, other@.data[k] as int)) as u16 by {
                lemma_incl_excl_bounds(self@.data[k] as int, other@.data[k] as int);
            }
            assert(
                out@ =~= Seq::new(
                    self@.data.len(),
                    |k: int|
                        (self@.data[k] + other@.data[k] - fixed_mul(
                            self@.data[k] as int,
                            other@.data[k] as int,
                        )) as u16,
                ));
        }
        Ok(CDF { data: out, bin_size: self.bin_size })
    }
}

/// What the stochastic-dominance comparison returns. Distributions with
/// different bin sizes are incomparable; over paired bins, a strictly smaller
/// bin on one side and a strictly larger one on the other make the pair
/// incomparable, one-sided differences give the consistent ordering, and
/// equal bins everywhere give equality.
pub open spec fn spec_compare(a: CdfModel, b: CdfModel) -> Option<core::cmp::Ordering> {
    if a.bin_num * b.bin_den != b.bin_num * a.bin_den {
        None
    } else {
        let n = if a.data.len() <= b.data.len() {
            a.data.len() as int
        } else {
            b.data.len() as int
        };
        let lt = exists|i: int| 0 <= i < n && #[trigger] a.data[i] < b.data[i];
        let gt = exists|i: int| 0 <= i < n && #[trigger] a.data[i] > b.data[i];
        if lt && gt {
            None
        } else if lt {
            Some(core::cmp::Ordering::Less)
        } else if gt {
            Some(core::cmp::Ordering::Greater)
        } else {
            Some(core::cmp::Ordering::Equal)
        }
    }
}

impl CDF {
    /// First-order stochastic dominance: a partial order over distributions
    /// of equal bin size, where larger cumulative probability at every time
    /// point is larger. Returns `None` for incomparable pairs.
    pub fn compare(&self, other: &CDF) -> (r: Option<core::cmp::Ordering>)
        ensures
            r == spec_compare(self@, other@),
    {
        if !self.bin_size.same_value(&other.bin_size) {
            return None;
        }
        let n = if self.data.len() <= other.data.len() {
            self.data.len()
        } else {
            other.data.len()
        };
        let mut seen_lt = false;
        let mut seen_gt = false;
        let mut i: usize = 0;
        while i < n
            invariant
                0 <= i <= n,
                n <= self@.data.len(),
                n <= other@.data.len(),
                n == if self@.data.len() <= other@.data.len() {
                    self@.data.len() as int
                } else {
                    other@.data.len() as int
                },
                seen_lt == exists|k: int| 0 <= k < i && #[trigger] self@.data[k] < other@.data[k],
                seen_gt == exists|k: int| 0 <= k < i && #[trigger] self@.data[k] > other@.data[k],
                !(seen_lt && seen_gt),
            decreases n - i,
        {
            if self.data[i] < other.data[i] {
                seen_lt = true;
            } else if self.data[i] > other.data[i] {
                seen_gt = true;
            }
            if seen_lt && seen_gt {
                return None;
            }
            i += 1;
        }
        if seen_lt {
            Some(core::cmp::Ordering::Less)
        } else if seen_gt {
            Some(core::cmp::Ordering::Greater)
        } else {
            Some(core::cmp::Ordering::Equal)
        }
    }
}

impl Clone for CDF {
    /// A clone denotes the same distribution.
    fn clone(&self) -> (r: Self)
        ensures
            r@ == self@,
    {
        proof {
            use_type_invariant(self);
        }
        let data = self.data.clone();
        proof {
            assert(data@ =~= self.data@);
        }
        CDF { data, bin_size: self.bin_size }
    }
}

impl PartialEq for CDF {
    /// Two CDFs are equal when their quantized bins and bin sizes agree.
    fn eq(&self, other: &Self) -> (r: bool) {
        if !self.bin_size.same_value(&other.bin_size) {
            return false;
        }
        if self.data.len() != other.data.len() {
            return false;
        }
        let n = self.data.len();
        let mut i: usize = 0;
        while i < n
            invariant
                0 <= i <= n,
                n == self@.data.len(),
                n == other@.data.len(),
                forall|k: int| 0 <= k < i ==> self@.data[k] == other@.data[k],
            decreases n - i,
        {
            if self.data[i] != other.data[i] {
                return false;
            }
            i += 1;
        }
        proof {
            assert(self@.data =~= other@.data);
        }
        true
    }
}

impl vstd::std_specs::cmp::PartialEqSpecImpl for CDF {
    open spec fn obeys_eq_spec() -> bool {
        true
    }

    open spec fn eq_spec(&self, other: &Self) -> bool {
        self@.data == other@.data && self@.bin_num * other@.bin_den == other@.bin_num
            * self@.bin_den
    }
}

impl PartialOrd for CDF {
    /// The partial order of stochastic dominance; see `compare`.
    fn partial_cmp(&self, other: &Self) -> (r: Option<core::cmp::Ordering>) {
        self.compare(other)
    }
}

impl vstd::std_specs::cmp::PartialOrdSpecImpl for CDF {
    open spec fn obeys_partial_cmp_spec() -> bool {
        true
    }

    open spec fn partial_cmp_spec(&self, other: &Self) -> Option<core::cmp::Ordering> {
        spec_compare(self@, other@)
    }
}

/// The bins of a successful result, for stating pointwise laws.
pub open spec fn ok_data(r: Result<CdfModel, CDFError>) -> Seq<u16> {
    match r {
        Ok(m) => m.data,
        Err(_) => Seq::empty(),
    }
}

/// Validated construction only returns proper CDFs: every bin lies within the
/// 16-bit range and the sequence never decreases. Construction from a
/// sequence with a value beyond one fails with `InvalidRange`, and from a
/// decreasing sequence with `NotMonotone`, always.
pub proof fn lemma_new_proper(data: Seq<Frac>, bin_size: Frac)
    requires
        forall|i: int| 0 <= i < data.len() ==> frac_valid(#[trigger] data[i]),
    ensures
        spec_new(data, bin_size) is Ok ==> sorted(ok_data(spec_new(data, bin_size))),
        spec_new(data, bin_size) is Ok ==> forall|i: int|
            0 <= i < data.len() ==> 0 <= #[trigger] ok_data(spec_new(data, bin_size))[i] <= 65535,
        (exists|i: int| 0 <= i < data.len() && !frac_le_one(#[trigger] data[i])) <==> spec_new(
            data,
            bin_size,
        ) == Err::<CdfModel, CDFError>(CDFError::InvalidRange),
        ((forall|i: int| 0 <= i < data.len() ==> frac_le_one(#[trigger] data[i])) && (exists|i: int|
            0 <= i < data.len() - 1 && !frac_le(#[trigger] data[i], data[i + 1]))) <==> spec_new(
            data,
            bin_size,
        ) == Err::<CdfModel, CDFError>(CDFError::NotMonotone),
{
    if spec_new(data, bin_size) is Ok {
        let out = ok_data(spec_new(data, bin_size));
        assert forall|k: int| 0 <= k < data.len() - 1 implies #[trigger] out[k] <= out[k + 1] by {
            let a = data[k];
            let b = data[k + 1];
            crate::frac::lemma_quant_floor_bounds(a);
            crate::frac::lemma_quant_floor_bounds(b);
            assert((a.num() * 65535) * b.den() <= (b.num() * 65535) * a.den()) by (nonlinear_arith)
                requires
                    a.num() * b.den() <= b.num() * a.den(),
            ;
            crate::frac::lemma_div_cross_mono(a.num() * 65535, a.den(), b.num() * 65535, b.den());
        }
        lemma_sorted_from_adjacent(out);
    }
}

/// Boundary behaviour of the mixture: with fraction one it returns the first
/// operand unchanged, with fraction zero the second operand's bins under the
/// first operand's bin size.
pub proof fn lemma_choice_boundary(a: CdfModel, fnum: int, fden: int, b: CdfModel)
    requires
        a.compatible(b),
        fden >= 1,
        0 <= fnum <= fden,
    ensures
        fnum == fden ==> spec_choice(a, fnum, fden, b) == Ok::<CdfModel, CDFError>(a),
        fnum == 0 && fden > 0 ==> spec_choice(a, fnum, fden, b) == Ok::<CdfModel, CDFError>(
            CdfModel { data: b.data, bin_num: a.bin_num, bin_den: a.bin_den },
        ),
{
    if fnum == fden {
        let qf = quant_scale_int(fnum, fden);
        let qc = quant_scale_int(fden - fnum, fden);
        assert(qf == 65535);
        assert(65536 * 0 == 0);
        assert(qc == 0);
        assert forall|i: int| 0 <= i < a.data.len() implies mix_bin(
            #[trigger] a.data[i] as int,
            b.data[i] as int,
            qf,
            qc,
        ) == a.data[i] as int by {
            lemma_fixed_mul_one(a.data[i] as int);
            lemma_fixed_mul_zero(b.data[i] as int);
        }
        assert(Seq::new(a.data.len(), |i: int| mix_bin(a.data[i] as int, b.data[i] as int, qf, qc) as u16)
            =~= a.data);
    } else if fnum == 0 {
        let qf = quant_scale_int(fnum, fden);
        let qc = quant_scale_int(fden, fden);
        assert(65536 * 0 == 0);
        assert(qf == 0);
        assert(qc == 65535);
        assert forall|i: int| 0 <= i < a.data.len() implies mix_bin(
            #[trigger] a.data[i] as int,
            b.data[i] as int,
            qf,
            qc,
        ) == b.data[i] as int by {
            lemma_fixed_mul_zero(a.data[i] as int);
            lemma_fixed_mul_one(b.data[i] as int);
        }
        assert(Seq::new(a.data.len(), |i: int| mix_bin(a.data[i] as int, b.data[i] as int, qf, qc) as u16)
            =~= b.data);
    }
}

/// Dominance: when every bin of `a` is at most the matching bin of `b`, the
/// comparison is less-than or equality, and it is equality exactly when the
/// bins agree everywhere.
pub proof fn lemma_compare_dominance(a: CdfModel, b: CdfModel)
    requires
        a.bin_num * b.bin_den == b.bin_num * a.bin_den,
        a.data.len() == b.data.len(),
        forall|i: int| 0 <= i < a.data.len() ==> #[trigger] a.data[i] <= b.data[i],
    ensures
        spec_compare(a, b) == Some(core::cmp::Ordering::Less) || spec_compare(a, b) == Some(
            core::cmp::Ordering::Equal,
        ),
        spec_compare(a, b) == Some(core::cmp::Ordering::Equal) <==> a.data =~= b.data,
{
}

/// Incomparability: bins favouring each side make the pair incomparable.
pub proof fn lemma_compare_incomparable(a: CdfModel, b: CdfModel, i: int, j: int)
    requires
        a.data.len() == b.data.len(),
        0 <= i < a.data.len(),
        0 <= j < a.data.len(),
        a.data[i] < b.data[i],
        a.data[j] > b.data[j],
    ensures
        spec_compare(a, b) is None,
{
}

/// The dominance comparison is reflexive: every distribution equals itself.
pub proof fn lemma_compare_reflexive(a: CdfModel)
    ensures
        spec_compare(a, a) == Some(core::cmp::Ordering::Equal),
{
}

/// The dominance comparison is antisymmetric: the operands swapped compare
/// the opposite way.
pub proof fn lemma_compare_antisymmetric(a: CdfModel, b: CdfModel)
    ensures
        spec_compare(a, b) == Some(core::cmp::Ordering::Less) <==> spec_compare(b, a) == Some(
            core::cmp::Ordering::Greater,
        ),
        spec_compare(a, b) == Some(core::cmp::Ordering::Equal) <==> spec_compare(b, a) == Some(
            core::cmp::Ordering::Equal,
        ),
        spec_compare(a, b) is None <==> spec_compare(b, a) is None,
{
}

/// The dominance comparison is transitive over distributions of one family:
/// equal bin counts and valid bin sizes.
pub proof fn lemma_compare_transitive(a: CdfModel, b: CdfModel, c: CdfModel)
    requires
        a.data.len() == b.data.len(),
        b.data.len() == c.data.len(),
        a.bin_den >= 1,
        b.bin_den >= 1,
        c.bin_den >= 1,
        spec_compare(a, b) == Some(core::cmp::Ordering::Less),
        spec_compare(b, c) == Some(core::cmp::Ordering::Less),
    ensures
        spec_compare(a, c) == Some(core::cmp::Ordering::Less),
{
    assert(a.bin_num * c.bin_den == c.bin_num * a.bin_den) by (nonlinear_arith)
        requires
            a.bin_num * b.bin_den == b.bin_num * a.bin_den,
            b.bin_num * c.bin_den == c.bin_num * b.bin_den,
            b.bin_den >= 1,
    ;
    let n = a.data.len() as int;
    assert forall|i: int| 0 <= i < n implies !(#[trigger] a.data[i] > c.data[i]) by {
        assert(!(a.data[i] > b.data[i]));
        assert(!(b.data[i] > c.data[i]));
    }
    let w = choose|i: int| 0 <= i < n && #[trigger] a.data[i] < b.data[i];
    assert(a.data[w] < c.data[w]);
}

/// The pointwise inclusion–exclusion identity: for compatible operands, each
/// bin of "both" plus the same bin of "either" equals the sum of the operand
/// bins — exactly, under the fixed-point rounding used.
pub proof fn lemma_inclusion_exclusion(a: CdfModel, b: CdfModel)
    requires
        a.compatible(b),
    ensures
        spec_for_all(a, b) is Ok,
        spec_for_some(a, b) is Ok,
        forall|i: int|
            0 <= i < a.data.len() ==> #[trigger] ok_data(spec_for_all(a, b))[i] + ok_data(
                spec_for_some(a, b),
            )[i] == a.data[i] + b.data[i],
{
    assert forall|i: int| 0 <= i < a.data.len() implies #[trigger] ok_data(spec_for_all(a, b))[i]
        + ok_data(spec_for_some(a, b))[i] == a.data[i] + b.data[i] by {
        lemma_fixed_mul_bounds(a.data[i] as int, b.data[i] as int);
        lemma_incl_excl_bounds(a.data[i] as int, b.data[i] as int);
    }
}

/// A sequence whose adjacent elements never decrease is sorted.
proof fn lemma_sorted_from_adjacent(s: Seq<u16>)
    requires
        forall|k: int| 0 <= k < s.len() - 1 ==> #[trigger] s[k] <= s[k + 1],
    ensures
        sorted(s),
{
    assert forall|i: int, j: int| 0 <= i <= j < s.len() implies s[i] <= s[j] by {
        lemma_le_chain(s, i, j);
    }
}

proof fn lemma_le_chain(s: Seq<u16>, i: int, j: int)
    requires
        forall|k: int| 0 <= k < s.len() - 1 ==> #[trigger] s[k] <= s[k + 1],
        0 <= i <= j < s.len(),
    ensures
        s[i] <= s[j],
    decreases j - i,
{
    if i < j {
        lemma_le_chain(s, i, j - 1);
    }
}

} // verus!
