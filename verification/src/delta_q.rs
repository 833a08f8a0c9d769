//! The expression model: a tree of named references, literal distributions
//! and four composition operators, with a recursive evaluator that lowers a
//! closed expression to a single distribution, and a display form using the
//! algebra's customary symbolic notation.

use crate::cdf::{cdf_str, res_model, spec_choice, spec_convolve, spec_for_all, spec_for_some,
    CDFError, CdfModel, CDF};
use crate::frac::{pow10, pow10_spec, weight_str, Frac, Weight};
use vstd::prelude::*;
use vstd::string::StringExecFns;

verus! {

/// An outcome expression: a pure term built from named references, literal
/// distributions, sequential composition, probabilistic choice, and
/// universal or existential composition. Each node exclusively owns its
/// children; the placeholder stands for a hole in a term under edit.
#[derive(Debug)]
pub enum DeltaQ {
    /// A named reference into an external binding store.
    Name(String),
    /// A literal distribution used as an outcome.
    CDF(CDF),
    /// The convolution of two outcomes: the first, then the second.
    Sequence(Box<DeltaQ>, Box<DeltaQ>),
    /// A probabilistic branch between two outcomes, with a weight for each.
    Choice(Box<DeltaQ>, Weight, Box<DeltaQ>, Weight),
    /// Universal composition: both outcomes must occur.
    ForAll(Box<DeltaQ>, Box<DeltaQ>),
    /// Existential composition: at least one of the outcomes must occur.
    ForSome(Box<DeltaQ>, Box<DeltaQ>),
    /// The hole in an expression that is still being edited; it never
    /// evaluates.
    BlackBox,
}

/// The numerators of two choice weights brought to their common decimal
/// scale; their ratio is the mixture fraction of the choice.
pub open spec fn scaled_weights(wa: Weight, wb: Weight) -> (int, int) {
    let s = if wa.scale() >= wb.scale() {
        wa.scale()
    } else {
        wb.scale()
    };
    (wa.units() * pow10_spec(s - wa.scale()), wb.units() * pow10_spec(s - wb.scale()))
}

/// What evaluation returns, by structural recursion: a literal evaluates to
/// its distribution; a name or a placeholder fails with `UnresolvedName`;
/// each operator evaluates its children depth-first, left then right,
/// short-circuiting on the first error, and combines the results with the
/// matching combinator of the distribution engine. A choice first normalizes
/// its two weights into the fraction `wa / (wa + wb)`, failing with
/// `ZeroWeightSum` when the weights sum to zero.
pub open spec fn spec_eval(dq: DeltaQ) -> Result<CdfModel, CDFError>
    decreases dq,
{
    match dq {
        DeltaQ::Name(_) => Err(CDFError::UnresolvedName),
        DeltaQ::BlackBox => Err(CDFError::UnresolvedName),
        DeltaQ::CDF(c) => Ok(c@),
        DeltaQ::Sequence(a, b) => match (spec_eval(*a), spec_eval(*b)) {
            (Err(e), _) => Err(e),
            (Ok(_), Err(e)) => Err(e),
            (Ok(ca), Ok(cb)) => spec_convolve(ca, cb),
        },
        DeltaQ::Choice(a, wa, b, wb) => match (spec_eval(*a), spec_eval(*b)) {
            (Err(e), _) => Err(e),
            (Ok(_), Err(e)) => Err(e),
            (Ok(ca), Ok(cb)) => {
                let (na, nb) = scaled_weights(wa, wb);
                if na + nb == 0 {
                    Err(CDFError::ZeroWeightSum)
                } else {
                    spec_choice(ca, na, na + nb, cb)
                }
            },
        },
        DeltaQ::ForAll(a, b) => match (spec_eval(*a), spec_eval(*b)) {
            (Err(e), _) => Err(e),
            (Ok(_), Err(e)) => Err(e),
            (Ok(ca), Ok(cb)) => spec_for_all(ca, cb),
        },
        DeltaQ::ForSome(a, b) => match (spec_eval(*a), spec_eval(*b)) {
            (Err(e), _) => Err(e),
            (Ok(_), Err(e)) => Err(e),
            (Ok(ca), Ok(cb)) => spec_for_some(ca, cb),
        },
    }
}

/// The display form of an expression, using the algebra's notation: a
/// sequence prints as `A •->-• B`, a choice as `A wa⇌wb B`, the universal and
/// existential forms as `∀(A | B)` and `∃(A | B)`, names and literals as
/// themselves, and the placeholder as `■`. A sequence or choice standing as a
/// child of another sequence or choice is parenthesized, so nested trees
/// reproduce their shape exactly.
pub open spec fn spec_display(dq: DeltaQ, parens: bool) -> Seq<char>
    decreases dq,
{
    match dq {
        DeltaQ::Name(n) => n@,
        DeltaQ::CDF(c) => cdf_str(c@),
        DeltaQ::BlackBox => "\u{25a0}"@,
        DeltaQ::Sequence(a, b) => {
            let inner = spec_display(*a, true) + " \u{2022}->-\u{2022} "@ + spec_display(*b, true);
            if parens {
                "("@ + inner + ")"@
            } else {
                inner
            }
        },
        DeltaQ::Choice(a, wa, b, wb) => {
            let inner = spec_display(*a, true) + " "@ + weight_str(wa) + "\u{21cc}"@ + weight_str(
                wb,
            ) + " "@ + spec_display(*b, true);
            if parens {
                "("@ + inner + ")"@
            } else {
                inner
            }
        },
        DeltaQ::ForAll(a, b) => "\u{2200}("@ + spec_display(*a, false) + " | "@ + spec_display(
            *b,
            false,
        ) + ")"@,
        DeltaQ::ForSome(a, b) => "\u{2203}("@ + spec_display(*a, false) + " | "@ + spec_display(
            *b,
            false,
        ) + ")"@,
    }
}

impl Clone for DeltaQ {
    /// A deep copy of the term: every node is rebuilt over cloned children,
    /// so the copy evaluates and displays exactly as the term itself.
    fn clone(&self) -> (r: Self)
        ensures
            spec_eval(r) == spec_eval(*self),
            spec_display(r, false) == spec_display(*self, false),
            spec_display(r, true) == spec_display(*self, true),
        decreases *self,
    {
        match self {
            DeltaQ::Name(n) => DeltaQ::Name(n.clone()),
            DeltaQ::CDF(c) => DeltaQ::CDF(c.clone()),
            DeltaQ::Sequence(a, b) => DeltaQ::Sequence(
                Box::new((**a).clone()),
                Box::new((**b).clone()),
            ),
            DeltaQ::Choice(a, wa, b, wb) => DeltaQ::Choice(
                Box::new((**a).clone()),
                *wa,
                Box::new((**b).clone()),
                *wb,
            ),
            DeltaQ::ForAll(a, b) => DeltaQ::ForAll(
                Box::new((**a).clone()),
                Box::new((**b).clone()),
            ),
            DeltaQ::ForSome(a, b) => DeltaQ::ForSome(
                Box::new((**a).clone()),
                Box::new((**b).clone()),
            ),
            DeltaQ::BlackBox => DeltaQ::BlackBox,
        }
    }
}

/// True when the term contains a named reference or an editing placeholder
/// anywhere, so that it is not closed.
pub open spec fn has_unresolved(dq: DeltaQ) -> bool
    decreases dq,
{
    match dq {
        DeltaQ::Name(_) => true,
        DeltaQ::BlackBox => true,
        DeltaQ::CDF(_) => false,
        DeltaQ::Sequence(a, b) => has_unresolved(*a) || has_unresolved(*b),
        DeltaQ::Choice(a, _, b, _) => has_unresolved(*a) || has_unresolved(*b),
        DeltaQ::ForAll(a, b) => has_unresolved(*a) || has_unresolved(*b),
        DeltaQ::ForSome(a, b) => has_unresolved(*a) || has_unresolved(*b),
    }
}

/// A term containing an unresolved name or placeholder, wherever it stands,
/// never evaluates. The error reported is `UnresolvedName` unless an operator
/// on the way fails for a reason of its own first, depth-first and left to
/// right.
pub proof fn lemma_eval_unresolved(dq: DeltaQ)
    requires
        has_unresolved(dq),
    ensures
        spec_eval(dq) is Err,
    decreases dq,
{
    match dq {
        DeltaQ::Name(_) => {},
        DeltaQ::BlackBox => {},
        DeltaQ::CDF(_) => {},
        DeltaQ::Sequence(a, b) => {
            if has_unresolved(*a) {
                lemma_eval_unresolved(*a);
            } else {
                lemma_eval_unresolved(*b);
            }
        },
        DeltaQ::Choice(a, _, b, _) => {
            if has_unresolved(*a) {
                lemma_eval_unresolved(*a);
            } else {
                lemma_eval_unresolved(*b);
            }
        },
        DeltaQ::ForAll(a, b) => {
            if has_unresolved(*a) {
                lemma_eval_unresolved(*a);
            } else {
                lemma_eval_unresolved(*b);
            }
        },
        DeltaQ::ForSome(a, b) => {
            if has_unresolved(*a) {
                lemma_eval_unresolved(*a);
            } else {
                lemma_eval_unresolved(*b);
            }
        },
    }
}

/// Conversely, only an unresolved name or placeholder ever produces the
/// `UnresolvedName` error: a closed term may fail, but never with it.
pub proof fn lemma_unresolved_error_source(dq: DeltaQ)
    requires
        spec_eval(dq) == Err::<CdfModel, CDFError>(CDFError::UnresolvedName),
    ensures
        has_unresolved(dq),
    decreases dq,
{
    match dq {
        DeltaQ::Name(_) => {},
        DeltaQ::BlackBox => {},
        DeltaQ::CDF(_) => {},
        DeltaQ::Sequence(a, b) => {
            if spec_eval(*a) == Err::<CdfModel, CDFError>(CDFError::UnresolvedName) {
                lemma_unresolved_error_source(*a);
            } else {
                lemma_unresolved_error_source(*b);
            }
        },
        DeltaQ::Choice(a, _, b, _) => {
            if spec_eval(*a) == Err::<CdfModel, CDFError>(CDFError::UnresolvedName) {
                lemma_unresolved_error_source(*a);
            } else {
                lemma_unresolved_error_source(*b);
            }
        },
        DeltaQ::ForAll(a, b) => {
            if spec_eval(*a) == Err::<CdfModel, CDFError>(CDFError::UnresolvedName) {
                lemma_unresolved_error_source(*a);
            } else {
                lemma_unresolved_error_source(*b);
            }
        },
        DeltaQ::ForSome(a, b) => {
            if spec_eval(*a) == Err::<CdfModel, CDFError>(CDFError::UnresolvedName) {
                lemma_unresolved_error_source(*a);
            } else {
                lemma_unresolved_error_source(*b);
            }
        },
    }
}

impl DeltaQ {
    /// A named reference to an expression bound elsewhere.
    pub fn name(name: &str) -> (r: DeltaQ)
        ensures
            r matches DeltaQ::Name(n) && n@ == name@,
    {
        DeltaQ::Name(name.to_owned())
    }

    /// A literal distribution as an expression.
    pub fn cdf(cdf: CDF) -> (r: DeltaQ)
        ensures
            r == DeltaQ::CDF(cdf),
    {
        DeltaQ::CDF(cdf)
    }

    /// The sequential composition of two expressions.
    pub fn seq(first: DeltaQ, second: DeltaQ) -> (r: DeltaQ)
        ensures
            r matches DeltaQ::Sequence(a, b) && *a == first && *b == second,
    {
        DeltaQ::Sequence(Box::new(first), Box::new(second))
    }

    /// A probabilistic choice between two expressions with the given weights.
    pub fn choice(first: DeltaQ, first_weight: Weight, second: DeltaQ, second_weight: Weight) -> (r:
        DeltaQ)
        ensures
            r matches DeltaQ::Choice(a, wa, b, wb) && *a == first && wa == first_weight && *b
                == second && wb == second_weight,
    {
        DeltaQ::Choice(Box::new(first), first_weight, Box::new(second), second_weight)
    }

    /// The universal composition of two expressions.
    pub fn for_all(first: DeltaQ, second: DeltaQ) -> (r: DeltaQ)
        ensures
            r matches DeltaQ::ForAll(a, b) && *a == first && *b == second,
    {
        DeltaQ::ForAll(Box::new(first), Box::new(second))
    }

    /// The existential composition of two expressions.
    pub fn for_some(first: DeltaQ, second: DeltaQ) -> (r: DeltaQ)
        ensures
            r matches DeltaQ::ForSome(a, b) && *a == first && *b == second,
    {
        DeltaQ::ForSome(Box::new(first), Box::new(second))
    }

    /// The textual form of the expression; see `spec_display`.
    pub fn to_string(&self) -> (r: String)
        ensures
            r@ == spec_display(*self, false),
    {
        self.display(false)
    }

    /// Render the expression, parenthesized when it is a sequence or choice
    /// standing inside another one.
    fn display(&self, parens: bool) -> (r: String)
        ensures
            r@ == spec_display(*self, parens),
        decreases *self,
    {
        match self {
            DeltaQ::Name(n) => n.clone(),
            DeltaQ::CDF(c) => c.to_string(),
            DeltaQ::BlackBox => "\u{25a0}".to_owned(),
            DeltaQ::Sequence(a, b) => {
                let mut s = String::new();
                if parens {
                    s.append("(");
                }
                let da = a.display(true);
                s.append(da.as_str());
                s.append(" \u{2022}->-\u{2022} ");
                let db = b.display(true);
                s.append(db.as_str());
                if parens {
                    s.append(")");
                }
                proof {
                    assert(s@ =~= spec_display(*self, parens));
                }
                s
            },
            DeltaQ::Choice(a, wa, b, wb) => {
                let mut s = String::new();
                if parens {
                    s.append("(");
                }
                let da = a.display(true);
                s.append(da.as_str());
                s.append(" ");
                let ta = wa.to_string();
                s.append(ta.as_str());
                s.append("\u{21cc}");
                let tb = wb.to_string();
                s.append(tb.as_str());
                s.append(" ");
                let db = b.display(true);
                s.append(db.as_str());
                if parens {
                    s.append(")");
                }
                proof {
                    assert(s@ =~= spec_display(*self, parens));
                }
                s
            },
            DeltaQ::ForAll(a, b) => {
                let mut s = "\u{2200}(".to_owned();
                let da = a.display(false);
                s.append(da.as_str());
                s.append(" | ");
                let db = b.display(false);
                s.append(db.as_str());
                s.append(")");
                proof {
                    assert(s@ =~= spec_display(*self, parens));
                }
                s
            },
            DeltaQ::ForSome(a, b) => {
                let mut s = "\u{2203}(".to_owned();
                let da = a.display(false);
                s.append(da.as_str());
                s.append(" | ");
                let db = b.display(false);
                s.append(db.as_str());
                s.append(")");
                proof {
                    assert(s@ =~= spec_display(*self, parens));
                }
                s
            },
        }
    }

    /// Evaluate a closed expression to a single distribution, or report the
    /// first error found depth-first, left then right; see `spec_eval`.
    pub fn eval(&self) -> (r: Result<CDF, CDFError>)
        ensures
            res_model(r) == spec_eval(*self),
        decreases *self,
    {
        match self {
            DeltaQ::Name(_) => Err(CDFError::UnresolvedName),
            DeltaQ::BlackBox => Err(CDFError::UnresolvedName),
            DeltaQ::CDF(c) => Ok(c.clone()),
            DeltaQ::Sequence(a, b) => {
                let ca = match a.eval() {
                    Ok(c) => c,
                    Err(e) => {
                        return Err(e);
                    },
                };
                let cb = match b.eval() {
                    Ok(c) => c,
                    Err(e) => {
                        return Err(e);
                    },
                };
                ca.convolve(&cb)
            },
            DeltaQ::Choice(a, wa, b, wb) => {
                let ca = match a.eval() {
                    Ok(c) => c,
                    Err(e) => {
                        return Err(e);
                    },
                };
                let cb = match b.eval() {
                    Ok(c) => c,
                    Err(e) => {
                        return Err(e);
                    },
                };
                let sa = wa.scale_val();
                let sb = wb.scale_val();
                let s = if sa >= sb {
                    sa
                } else {
                    sb
                };
                let ua = wa.units_val();
                let ub = wb.units_val();
                let pa = pow10(s - sa);
                let pb = pow10(s - sb);
                proof {
                    assert(ua * pa <= 1_000_000_000i64 * 1_000_000_000i64) by (nonlinear_arith)
                        requires
                            ua <= 1_000_000_000,
                            pa <= 1_000_000_000,
                    ;
                    assert(ub * pb <= 1_000_000_000i64 * 1_000_000_000i64) by (nonlinear_arith)
                        requires
                            ub <= 1_000_000_000,
                            pb <= 1_000_000_000,
                    ;
                }
                let na = ua * pa;
                let nb = ub * pb;
                let total = na + nb;
                if total == 0 {
                    return Err(CDFError::ZeroWeightSum);
                }
                let fraction = Frac::new(na, total);
                ca.choice(fraction, &cb)
            },
            DeltaQ::ForAll(a, b) => {
                let ca = match a.eval() {
                    Ok(c) => c,
                    Err(e) => {
                        return Err(e);
                    },
                };
                let cb = match b.eval() {
                    Ok(c) => c,
                    Err(e) => {
                        return Err(e);
                    },
                };
                ca.for_all(&cb)
            },
            DeltaQ::ForSome(a, b) => {
                let ca = match a.eval() {
                    Ok(c) => c,
                    Err(e) => {
                        return Err(e);
                    },
                };
                let cb = match b.eval() {
                    Ok(c) => c,
                    Err(e) => {
                        return Err(e);
                    },
                };
                ca.for_some(&cb)
            },
        }
    }
}

} // verus!
