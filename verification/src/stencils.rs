//! Fixed-iteration numeric stencils over exact rationals: derivative
//! estimation by forward and central differences, explicit Euler stepping
//! into a caller-owned buffer, and composite Simpson quadrature.  Each
//! routine takes the target function as a closure over rationals; a result
//! of `None` (or `false`) reports only that an exact intermediate value
//! did not fit the rational representation.

use vstd::prelude::*;
use vstd::pervasive::VecAdditionalExecFns;
use crate::rational::{
    Q, Rat, q_add, q_div, q_eq, q_fits, q_floor, q_mul, q_norm, q_one, q_pow, q_sub, q_wf,
    q_zero, lemma_q_add_congr_r, lemma_q_div_congr_l, lemma_q_div_congr_r, lemma_q_div_nz,
    lemma_q_div_wf, lemma_q_eq_nonzero, lemma_q_eq_trans, lemma_q_floor_congr, lemma_q_floor_neg,
    lemma_q_mul_assoc, lemma_q_mul_congr_l, lemma_q_norm_div, lemma_q_ops_wf, lemma_q_pow_wf,
    q_round, lemma_q_round_congr, rat_add, rat_div, rat_mul, rat_round, rat_sub,
};
use crate::vector_ops::all_wf;

verus! {

/// Repeatedly evaluates the forward difference quotient
/// `(f(x + h) - f(x)) / h`, shrinking `h` by `step_reduction_factor` after
/// every pass, and returns the value of the final pass (zero when no pass
/// was asked for).  No convergence check is performed.
#[verifier::loop_isolation(false)]
pub fn forward_difference_formula<F: Fn(Rat) -> Rat>(
    function: F,
    x_value: Rat,
    step_size: Rat,
    step_reduction_factor: Rat,
    iterations: usize,
) -> (r: Option<Rat>)
    requires
        x_value.wf(),
        step_size.wf(),
        step_reduction_factor.wf(),
        forall|a: Rat| a.wf() ==> #[trigger] call_requires(function, (a,)),
        forall|a: Rat, o: Rat| #[trigger] call_ensures(function, (a,), o) ==> o.wf(),
    ensures
        r matches Some(v) ==> v.wf(),
        iterations == 0 ==> (r matches Some(v) && v@ == q_zero()),
        iterations > 0 ==> (r matches Some(v) ==> exists|h: Rat, xh: Rat, fx: Rat, fxh: Rat|
            #![trigger call_ensures(function, (xh,), fxh), call_ensures(function, (x_value,), fx), q_eq(h@, q_mul(step_size@, q_pow(step_reduction_factor@, (iterations - 1) as nat)))]
        {
            &&& h.wf() && xh.wf() && fx.wf() && fxh.wf()
            &&& q_eq(h@, q_mul(step_size@, q_pow(step_reduction_factor@, (iterations - 1) as nat)))
            &&& q_eq(xh@, q_add(x_value@, h@))
            &&& call_ensures(function, (xh,), fxh)
            &&& call_ensures(function, (x_value,), fx)
            &&& q_eq(v@, q_div(q_sub(fxh@, fx@), h@))
        }),
{
    let mut result = Rat::zero();
    let mut h = step_size;
    let mut k: usize = 0;
    let ghost mut wh = h;
    let ghost mut wxh = h;
    let ghost mut wfx = h;
    let ghost mut wfxh = h;
    while k < iterations
        invariant
            k <= iterations,
            h.wf(),
            result.wf(),
            x_value.wf(),
            step_size.wf(),
            step_reduction_factor.wf(),
            forall|a: Rat| a.wf() ==> #[trigger] call_requires(function, (a,)),
            forall|a: Rat, o: Rat| #[trigger] call_ensures(function, (a,), o) ==> o.wf(),
            q_eq(h@, q_mul(step_size@, q_pow(step_reduction_factor@, k as nat))),
            k == 0 ==> result@ == q_zero(),
            k > 0 ==> {
                &&& wh.wf() && wxh.wf() && wfx.wf() && wfxh.wf()
                &&& q_eq(wh@, q_mul(step_size@, q_pow(step_reduction_factor@, (k - 1) as nat)))
                &&& q_eq(wxh@, q_add(x_value@, wh@))
                &&& call_ensures(function, (wxh,), wfxh)
                &&& call_ensures(function, (x_value,), wfx)
                &&& q_eq(result@, q_div(q_sub(wfxh@, wfx@), wh@))
            },
        decreases iterations - k,
    {
        let xh = match rat_add(&x_value, &h) {
            Some(v) => v,
            None => {
                return None;
            },
        };
        let fxh = function(xh);
        let fx = function(x_value);
        let num = match rat_sub(&fxh, &fx) {
            Some(v) => v,
            None => {
                return None;
            },
        };
        let res = match rat_div(&num, &h) {
            Some(v) => v,
            None => {
                return None;
            },
        };
        proof {
            lemma_q_ops_wf(fxh@, fx@);
            lemma_q_div_congr_l(num@, q_sub(fxh@, fx@), h@);
            lemma_q_div_nz(num@, h@);
            lemma_q_eq_trans(res@, q_div(num@, h@), q_div(q_sub(fxh@, fx@), h@));
            wh = h;
            wxh = xh;
            wfx = fx;
            wfxh = fxh;
        }
        result = res;
        let nh = match rat_mul(&h, &step_reduction_factor) {
            Some(v) => v,
            None => {
                return None;
            },
        };
        proof {
            let powk = q_pow(step_reduction_factor@, k as nat);
            lemma_q_pow_wf(step_reduction_factor@, k as nat);
            lemma_q_ops_wf(step_size@, powk);
            lemma_q_ops_wf(h@, step_reduction_factor@);
            lemma_q_mul_congr_l(h@, q_mul(step_size@, powk), step_reduction_factor@);
            lemma_q_ops_wf(q_mul(step_size@, powk), step_reduction_factor@);
            lemma_q_mul_assoc(step_size@, powk, step_reduction_factor@);
            lemma_q_eq_trans(
                nh@,
                q_mul(h@, step_reduction_factor@),
                q_mul(q_mul(step_size@, powk), step_reduction_factor@),
            );
            lemma_q_eq_trans(
                nh@,
                q_mul(q_mul(step_size@, powk), step_reduction_factor@),
                q_mul(step_size@, q_mul(powk, step_reduction_factor@)),
            );
        }
        h = nh;
        k += 1;
    }
    proof {
        if iterations > 0 {
            assert(exists|h: Rat, xh: Rat, fx: Rat, fxh: Rat|
                #![trigger call_ensures(function, (xh,), fxh), call_ensures(function, (x_value,), fx), q_eq(h@, q_mul(step_size@, q_pow(step_reduction_factor@, (iterations - 1) as nat)))]
            {
                &&& h.wf() && xh.wf() && fx.wf() && fxh.wf()
                &&& q_eq(
                    h@,
                    q_mul(step_size@, q_pow(step_reduction_factor@, (iterations - 1) as nat)),
                )
                &&& q_eq(xh@, q_add(x_value@, h@))
                &&& call_ensures(function, (xh,), fxh)
                &&& call_ensures(function, (x_value,), fx)
                &&& q_eq(result@, q_div(q_sub(fxh@, fx@), h@))
            }) by {
                assert(call_ensures(function, (wxh,), wfxh));
            }
        }
    }
    Some(result)
}

/// Repeatedly evaluates the central difference quotient
/// `(f(x + h) - f(x - h)) / (2 h)`, shrinking `h` by
/// `step_reduction_factor` after every pass, and returns the value of the
/// final pass (zero when no pass was asked for).
#[verifier::loop_isolation(false)]
pub fn central_difference_formula<F: Fn(Rat) -> Rat>(
    function: F,
    x_value: Rat,
    step_size: Rat,
    step_reduction_factor: Rat,
    iterations: usize,
) -> (r: Option<Rat>)
    requires
        x_value.wf(),
        step_size.wf(),
        step_reduction_factor.wf(),
        forall|a: Rat| a.wf() ==> #[trigger] call_requires(function, (a,)),
        forall|a: Rat, o: Rat| #[trigger] call_ensures(function, (a,), o) ==> o.wf(),
    ensures
        r matches Some(v) ==> v.wf(),
        iterations == 0 ==> (r matches Some(v) && v@ == q_zero()),
        iterations > 0 ==> (r matches Some(v) ==> exists|h: Rat, xh: Rat, xl: Rat, fxh: Rat, fxl: Rat|
            #![trigger call_ensures(function, (xh,), fxh), call_ensures(function, (xl,), fxl), q_eq(h@, q_mul(step_size@, q_pow(step_reduction_factor@, (iterations - 1) as nat)))]
        {
            &&& h.wf() && xh.wf() && xl.wf() && fxh.wf() && fxl.wf()
            &&& q_eq(h@, q_mul(step_size@, q_pow(step_reduction_factor@, (iterations - 1) as nat)))
            &&& q_eq(xh@, q_add(x_value@, h@))
            &&& q_eq(xl@, q_sub(x_value@, h@))
            &&& call_ensures(function, (xh,), fxh)
            &&& call_ensures(function, (xl,), fxl)
            &&& q_eq(v@, q_div(q_sub(fxh@, fxl@), q_add(h@, h@)))
        }),
{
    let mut result = Rat::zero();
    let mut h = step_size;
    let mut k: usize = 0;
    let ghost mut wh = h;
    let ghost mut wxh = h;
    let ghost mut wxl = h;
    let ghost mut wfxh = h;
    let ghost mut wfxl = h;
    while k < iterations
        invariant
            k <= iterations,
            h.wf(),
            result.wf(),
            x_value.wf(),
            step_size.wf(),
            step_reduction_factor.wf(),
            forall|a: Rat| a.wf() ==> #[trigger] call_requires(function, (a,)),
            forall|a: Rat, o: Rat| #[trigger] call_ensures(function, (a,), o) ==> o.wf(),
            q_eq(h@, q_mul(step_size@, q_pow(step_reduction_factor@, k as nat))),
            k == 0 ==> result@ == q_zero(),
            k > 0 ==> {
                &&& wh.wf() && wxh.wf() && wxl.wf() && wfxh.wf() && wfxl.wf()
                &&& q_eq(wh@, q_mul(step_size@, q_pow(step_reduction_factor@, (k - 1) as nat)))
                &&& q_eq(wxh@, q_add(x_value@, wh@))
                &&& q_eq(wxl@, q_sub(x_value@, wh@))
                &&& call_ensures(function, (wxh,), wfxh)
                &&& call_ensures(function, (wxl,), wfxl)
                &&& q_eq(result@, q_div(q_sub(wfxh@, wfxl@), q_add(wh@, wh@)))
            },
        decreases iterations - k,
    {
        let xh = match rat_add(&x_value, &h) {
            Some(v) => v,
            None => {
                return None;
            },
        };
        let xl = match rat_sub(&x_value, &h) {
            Some(v) => v,
            None => {
                return None;
            },
        };
        let fxh = function(xh);
        let fxl = function(xl);
        let num = match rat_sub(&fxh, &fxl) {
            Some(v) => v,
            None => {
                return None;
            },
        };
        let dd = match rat_add(&h, &h) {
            Some(v) => v,
            None => {
                return None;
            },
        };
        let res = match rat_div(&num, &dd) {
            Some(v) => v,
            None => {
                return None;
            },
        };
        proof {
            lemma_q_ops_wf(fxh@, fxl@);
            lemma_q_ops_wf(h@, h@);
            lemma_q_div_nz(num@, dd@);
            lemma_q_div_congr_r(num@, dd@, q_add(h@, h@));
            lemma_q_eq_trans(res@, q_div(num@, dd@), q_div(num@, q_add(h@, h@)));
            lemma_q_eq_nonzero(dd@, q_add(h@, h@));
            lemma_q_div_nz(num@, q_add(h@, h@));
            lemma_q_div_congr_l(num@, q_sub(fxh@, fxl@), q_add(h@, h@));
            lemma_q_eq_trans(
                res@,
                q_div(num@, q_add(h@, h@)),
                q_div(q_sub(fxh@, fxl@), q_add(h@, h@)),
            );
            wh = h;
            wxh = xh;
            wxl = xl;
            wfxh = fxh;
            wfxl = fxl;
        }
        result = res;
        let nh = match rat_mul(&h, &step_reduction_factor) {
            Some(v) => v,
            None => {
                return None;
            },
        };
        proof {
            let powk = q_pow(step_reduction_factor@, k as nat);
            lemma_q_pow_wf(step_reduction_factor@, k as nat);
            lemma_q_ops_wf(step_size@, powk);
            lemma_q_ops_wf(h@, step_reduction_factor@);
            lemma_q_mul_congr_l(h@, q_mul(step_size@, powk), step_reduction_factor@);
            lemma_q_ops_wf(q_mul(step_size@, powk), step_reduction_factor@);
            lemma_q_mul_assoc(step_size@, powk, step_reduction_factor@);
            lemma_q_eq_trans(
                nh@,
                q_mul(h@, step_reduction_factor@),
                q_mul(q_mul(step_size@, powk), step_reduction_factor@),
            );
            lemma_q_eq_trans(
                nh@,
                q_mul(q_mul(step_size@, powk), step_reduction_factor@),
                q_mul(step_size@, q_mul(powk, step_reduction_factor@)),
            );
        }
        h = nh;
        k += 1;
    }
    proof {
        if iterations > 0 {
            assert(exists|h: Rat, xh: Rat, xl: Rat, fxh: Rat, fxl: Rat|
                #![trigger call_ensures(function, (xh,), fxh), call_ensures(function, (xl,), fxl), q_eq(h@, q_mul(step_size@, q_pow(step_reduction_factor@, (iterations - 1) as nat)))]
            {
                &&& h.wf() && xh.wf() && xl.wf() && fxh.wf() && fxl.wf()
                &&& q_eq(
                    h@,
                    q_mul(step_size@, q_pow(step_reduction_factor@, (iterations - 1) as nat)),
                )
                &&& q_eq(xh@, q_add(x_value@, h@))
                &&& q_eq(xl@, q_sub(x_value@, h@))
                &&& call_ensures(function, (xh,), fxh)
                &&& call_ensures(function, (xl,), fxl)
                &&& q_eq(result@, q_div(q_sub(fxh@, fxl@), q_add(h@, h@)))
            }) by {
                assert(call_ensures(function, (wxh,), wfxh));
            }
        }
    }
    Some(result)
}

/// Weight of sample `i` in the composite Simpson rule over `n`
/// subintervals: one at the endpoints, otherwise four at odd and two at
/// even positions.  For an odd `n` this alternation still defines a
/// quadrature rule, just not the textbook one.
pub open spec fn simpson_weight(i: int, n: int) -> Q {
    if i == 0 || i == n {
        q_one()
    } else if i % 2 == 1 {
        Q { n: 4, d: 1 }
    } else {
        Q { n: 2, d: 1 }
    }
}

/// Weighted sum of the first `upto` samples under the Simpson weights.
pub open spec fn simpson_sum(samples: Seq<Rat>, n: int, upto: int) -> Q
    decreases upto,
{
    if upto <= 0 {
        q_zero()
    } else {
        q_add(
            simpson_sum(samples, n, upto - 1),
            q_mul(simpson_weight(upto - 1, n), samples[upto - 1]@),
        )
    }
}

/// The weighted sum of well-formed samples is well formed.
pub proof fn lemma_simpson_sum_wf(samples: Seq<Rat>, n: int, upto: int)
    requires
        all_wf(samples, samples.len() as int),
        upto <= samples.len(),
    ensures
        q_wf(simpson_sum(samples, n, upto)),
    decreases upto,
{
    if upto > 0 {
        lemma_simpson_sum_wf(samples, n, upto - 1);
        lemma_q_ops_wf(simpson_weight(upto - 1, n), samples[upto - 1]@);
        lemma_q_ops_wf(
            simpson_sum(samples, n, upto - 1),
            q_mul(simpson_weight(upto - 1, n), samples[upto - 1]@),
        );
    }
}

/// Computes `step_size / 3` times the Simpson-weighted sum of the given
/// `n_steps + 1` samples: the composite rule as an exact rational.
#[verifier::loop_isolation(false)]
pub fn simpson_weighted_sum(samples: &Vec<Rat>, n_steps: usize, step_size: Rat) -> (r: Option<
    Rat,
>)
    requires
        samples@.len() == n_steps + 1,
        all_wf(samples@, samples@.len() as int),
        step_size.wf(),
    ensures
        r matches Some(v) ==> v.wf() && q_eq(
            v@,
            q_mul(
                q_div(step_size@, (Q { n: 3, d: 1 })),
                simpson_sum(samples@, n_steps as int, n_steps as int + 1),
            ),
        ),
{
    let _slen = samples.len();
    let mut acc = Rat::zero();
    let mut i: usize = 0;
    while i <= n_steps
        invariant
            i <= n_steps + 1,
            samples@.len() == n_steps + 1,
            all_wf(samples@, samples@.len() as int),
            step_size.wf(),
            acc.wf(),
            q_eq(acc@, simpson_sum(samples@, n_steps as int, i as int)),
        decreases n_steps + 1 - i,
    {
        let w: Rat = if i == 0 || i == n_steps {
            Rat::one()
        } else if i % 2 == 1 {
            Rat::new(4, 1)
        } else {
            Rat::new(2, 1)
        };
        let s = samples[i];
        let m = match rat_mul(&w, &s) {
            Some(v) => v,
            None => {
                return None;
            },
        };
        let na = match rat_add(&acc, &m) {
            Some(v) => v,
            None => {
                return None;
            },
        };
        proof {
            lemma_simpson_sum_wf(samples@, n_steps as int, i as int);
            lemma_q_ops_wf(w@, s@);
            crate::rational::lemma_q_add_congr2(
                acc@,
                simpson_sum(samples@, n_steps as int, i as int),
                m@,
                q_mul(simpson_weight(i as int, n_steps as int), samples@[i as int]@),
            );
            lemma_q_ops_wf(acc@, m@);
            lemma_q_eq_trans(
                na@,
                q_add(acc@, m@),
                q_add(
                    simpson_sum(samples@, n_steps as int, i as int),
                    q_mul(simpson_weight(i as int, n_steps as int), samples@[i as int]@),
                ),
            );
        }
        acc = na;
        i += 1;
    }
    let third = Rat::new(3, 1);
    let h3 = match rat_div(&step_size, &third) {
        Some(v) => v,
        None => {
            return None;
        },
    };
    let res = match rat_mul(&h3, &acc) {
        Some(v) => v,
        None => {
            return None;
        },
    };
    proof {
        lemma_q_div_wf(step_size@, third@);
        lemma_simpson_sum_wf(samples@, n_steps as int, n_steps as int + 1);
        crate::rational::lemma_q_mul_congr2(
            h3@,
            q_div(step_size@, (Q { n: 3, d: 1 })),
            acc@,
            simpson_sum(samples@, n_steps as int, n_steps as int + 1),
        );
        lemma_q_ops_wf(h3@, acc@);
        lemma_q_eq_trans(
            res@,
            q_mul(h3@, acc@),
            q_mul(
                q_div(step_size@, (Q { n: 3, d: 1 })),
                simpson_sum(samples@, n_steps as int, n_steps as int + 1),
            ),
        );
    }
    Some(res)
}

/// Composite Simpson quadrature of `function` over `n_steps` equal
/// subintervals between `lo` and `hi`: samples the function at the
/// `n_steps + 1` equally spaced points and returns `step / 3` times the
/// alternating-weight sum of the samples.  Note the parameter order: the
/// upper end of the range comes first, and the rule integrates from `lo`
/// to `hi` with step `(hi - lo) / n_steps`.
#[verifier::loop_isolation(false)]
#[verifier::rlimit(60)]
pub fn simpsons_method<F: Fn(Rat) -> Rat>(function: F, hi: Rat, lo: Rat, n_steps: usize) -> (r:
    Option<Rat>)
    requires
        hi.wf(),
        lo.wf(),
        1 <= n_steps <= 0x7fffffffffffffff,
        n_steps < usize::MAX,
        forall|a: Rat| a.wf() ==> #[trigger] call_requires(function, (a,)),
        forall|a: Rat, o: Rat| #[trigger] call_ensures(function, (a,), o) ==> o.wf(),
    ensures
        r matches Some(v) ==> v.wf() && (exists|samples: Seq<Rat>, h: Rat, xs: Seq<Rat>|
            #![trigger simpson_sum(samples, n_steps as int, n_steps as int + 1), h.wf(), xs.len()]
        {
            &&& h.wf()
            &&& q_eq(h@, q_div(q_sub(hi@, lo@), (Q { n: n_steps as int, d: 1 })))
            &&& samples.len() == n_steps + 1
            &&& xs.len() == n_steps + 1
            &&& all_wf(samples, samples.len() as int)
            &&& forall|i: int| 0 <= i <= n_steps ==> {
                &&& (#[trigger] xs[i]).wf()
                &&& q_eq(xs[i]@, q_add(lo@, q_mul((Q { n: i, d: 1 }), h@)))
                &&& call_ensures(function, (xs[i],), samples[i])
            }
            &&& q_eq(
                v@,
                q_mul(
                    q_div(h@, (Q { n: 3, d: 1 })),
                    simpson_sum(samples, n_steps as int, n_steps as int + 1),
                ),
            )
        }),
{
    let diff = match rat_sub(&hi, &lo) {
        Some(v) => v,
        None => {
            return None;
        },
    };
    let nrat = Rat::from_int(n_steps as i64);
    let h = match rat_div(&diff, &nrat) {
        Some(v) => v,
        None => {
            return None;
        },
    };
    proof {
        lemma_q_ops_wf(hi@, lo@);
        lemma_q_div_congr_l(diff@, q_sub(hi@, lo@), nrat@);
        lemma_q_div_nz(diff@, nrat@);
        lemma_q_eq_trans(
            h@,
            q_div(diff@, nrat@),
            q_div(q_sub(hi@, lo@), (Q { n: n_steps as int, d: 1 })),
        );
    }
    let mut samples: Vec<Rat> = Vec::new();
    let ghost mut wxs: Seq<Rat> = Seq::empty();
    let mut i: usize = 0;
    while i <= n_steps
        invariant
            i <= n_steps + 1,
            samples@.len() == i,
            wxs.len() == i,
            all_wf(samples@, i as int),
            h.wf(),
            forall|ii: int| 0 <= ii < i ==> {
                &&& (#[trigger] wxs[ii]).wf()
                &&& q_eq(wxs[ii]@, q_add(lo@, q_mul((Q { n: ii, d: 1 }), h@)))
                &&& call_ensures(function, (wxs[ii],), samples@[ii])
            },
        decreases n_steps + 1 - i,
    {
        let irat = Rat::from_int(i as i64);
        let m = match rat_mul(&irat, &h) {
            Some(v) => v,
            None => {
                return None;
            },
        };
        let x = match rat_add(&lo, &m) {
            Some(v) => v,
            None => {
                return None;
            },
        };
        proof {
            lemma_q_add_congr_r(lo@, m@, q_mul((Q { n: i as int, d: 1 }), h@));
            lemma_q_ops_wf(lo@, m@);
            lemma_q_eq_trans(
                x@,
                q_add(lo@, m@),
                q_add(lo@, q_mul((Q { n: i as int, d: 1 }), h@)),
            );
        }
        let fx = function(x);
        let ghost spre = samples@;
        let ghost wpre = wxs;
        samples.push(fx);
        proof {
            wxs = wxs.push(x);
            assert forall|ii: int| 0 <= ii < i + 1 implies {
                &&& (#[trigger] wxs[ii]).wf()
                &&& q_eq(wxs[ii]@, q_add(lo@, q_mul((Q { n: ii, d: 1 }), h@)))
                &&& call_ensures(function, (wxs[ii],), samples@[ii])
            } by {
                if ii < i {
                    assert(wxs[ii] == wpre[ii]);
                    assert(samples@[ii] == spre[ii]);
                } else {
                    assert(wxs[ii] == x);
                    assert(samples@[ii] == fx);
                }
            }
        }
        i += 1;
    }
    let res = match simpson_weighted_sum(&samples, n_steps, h) {
        Some(v) => v,
        None => {
            return None;
        },
    };
    proof {
        assert(exists|sam: Seq<Rat>, hh: Rat, xs: Seq<Rat>|
            #![trigger simpson_sum(sam, n_steps as int, n_steps as int + 1), hh.wf(), xs.len()]
        {
            &&& hh.wf()
            &&& q_eq(hh@, q_div(q_sub(hi@, lo@), (Q { n: n_steps as int, d: 1 })))
            &&& sam.len() == n_steps + 1
            &&& xs.len() == n_steps + 1
            &&& all_wf(sam, sam.len() as int)
            &&& forall|ix: int| 0 <= ix <= n_steps ==> {
                &&& (#[trigger] xs[ix]).wf()
                &&& q_eq(xs[ix]@, q_add(lo@, q_mul((Q { n: ix, d: 1 }), hh@)))
                &&& call_ensures(function, (xs[ix],), sam[ix])
            }
            &&& q_eq(
                res@,
                q_mul(
                    q_div(hh@, (Q { n: 3, d: 1 })),
                    simpson_sum(sam, n_steps as int, n_steps as int + 1),
                ),
            )
        }) by {
            assert(simpson_sum(samples@, n_steps as int, n_steps as int + 1)
                == simpson_sum(samples@, n_steps as int, n_steps as int + 1));
            assert(h.wf());
            assert(wxs.len() == n_steps + 1);
        }
    }
    Some(res)
}

/// The number of Euler steps for the given range and step width, as the
/// call surface defines it: the floor of `(hi + lo) / h`.
pub open spec fn euler_steps(lo: Q, hi: Q, h: Q) -> int {
    if q_floor(q_norm(q_div(q_add(hi, lo), h))) < 0 {
        0
    } else {
        q_floor(q_norm(q_div(q_add(hi, lo), h)))
    }
}

/// Fills the caller's buffer with `y0, y1, ..., yN` for
/// `N = floor((hi + lo) / h)` by explicit Euler updates
/// `y_{i+1} = y_i + h * f(x_i, y_i)` at `x_i = lo + i * h`.  Any nonzero
/// step is accepted; a negative step count clamps to zero, so only
/// `buffer[0]` is written then.  The buffer must be pre-sized to at least
/// `N + 1` elements; entries past `N` are left as they were.  Returns
/// `false` when an exact value does not fit, with the buffer partially
/// filled but well formed.  Exact arithmetic makes fine steps expensive:
/// a trajectory such as repeated growth by `101/100` leaves the `i64`
/// fraction range after a few steps and is then reported as a failure
/// rather than rounded.
#[verifier::loop_isolation(false)]
#[verifier::rlimit(60)]
pub fn eulers_method<F: Fn(Rat, Rat) -> Rat>(
    function: F,
    buffer: &mut Vec<Rat>,
    range_low: Rat,
    range_hi: Rat,
    y_zero: Rat,
    step_size: Rat,
) -> (ok: bool)
    requires
        range_low.wf(),
        range_hi.wf(),
        y_zero.wf(),
        step_size.wf(),
        step_size.num != 0,
        euler_steps(range_low@, range_hi@, step_size@) <= 0x7fffffffffffffff,
        old(buffer)@.len() >= euler_steps(range_low@, range_hi@, step_size@) + 1,
        all_wf(old(buffer)@, old(buffer)@.len() as int),
        forall|a: Rat, b: Rat| a.wf() && b.wf() ==> #[trigger] call_requires(function, (a, b)),
        forall|a: Rat, b: Rat, o: Rat| #[trigger] call_ensures(function, (a, b), o) ==> o.wf(),
    ensures
        final(buffer)@.len() == old(buffer)@.len(),
        all_wf(final(buffer)@, final(buffer)@.len() as int),
        ok ==> final(buffer)@[0] == y_zero,
        ok ==> (exists|xs: Seq<Rat>, ss: Seq<Rat>| #![trigger xs.len(), ss.len()] {
            &&& xs.len() == euler_steps(range_low@, range_hi@, step_size@)
            &&& ss.len() == euler_steps(range_low@, range_hi@, step_size@)
            &&& forall|i: int| 0 <= i < euler_steps(range_low@, range_hi@, step_size@) ==> {
                &&& (#[trigger] xs[i]).wf()
                &&& ss[i].wf()
                &&& q_eq(xs[i]@, q_add(range_low@, q_mul((Q { n: i, d: 1 }), step_size@)))
                &&& call_ensures(function, (xs[i], final(buffer)@[i]), ss[i])
                &&& q_eq(
                    final(buffer)@[i + 1]@,
                    q_add(final(buffer)@[i]@, q_mul(step_size@, ss[i]@)),
                )
            }
        }),
        forall|i: int|
            euler_steps(range_low@, range_hi@, step_size@) < i < final(buffer)@.len()
                ==> final(buffer)@[i] == old(buffer)@[i],
        ({
            &&& euler_steps(range_low@, range_hi@, step_size@) == 0
            &&& q_fits(q_add(range_hi@, range_low@))
            &&& q_fits(q_norm(q_div(q_add(range_hi@, range_low@), step_size@)))
        }) ==> ok,
{
    proof {
        lemma_q_ops_wf(range_hi@, range_low@);
        crate::rational::lemma_mul_den_fits(range_hi.num as int, range_low.den as int);
        crate::rational::lemma_mul_den_fits(range_low.num as int, range_hi.den as int);
        crate::rational::lemma_mul_den_fits(range_hi.den as int, range_low.den as int);
    }
    let sn = (range_hi.num as i128) * (range_low.den as i128) + (range_low.num as i128)
        * (range_hi.den as i128);
    let sd = (range_hi.den as i128) * (range_low.den as i128);
    let sum: Rat;
    if -0x8000000000000000i128 <= sn && sn <= 0x7fffffffffffffffi128
        && sd <= 0x7fffffffffffffffi128 {
        // the textbook pair of hi + lo fits the representation as it
        // stands: keep it unreduced, so that a refused ratio below can
        // only mean that the exact step count itself is unrepresentable
        sum = Rat { num: sn as i64, den: sd as i64 };
    } else {
        sum = match rat_add(&range_hi, &range_low) {
            Some(v) => v,
            None => {
                return false;
            },
        };
    }
    let ratio = match rat_div(&sum, &step_size) {
        Some(v) => v,
        None => {
            return false;
        },
    };
    proof {
        lemma_q_div_congr_l(sum@, q_add(range_hi@, range_low@), step_size@);
        lemma_q_div_nz(sum@, step_size@);
        lemma_q_eq_trans(
            ratio@,
            q_div(sum@, step_size@),
            q_div(q_add(range_hi@, range_low@), step_size@),
        );
        lemma_q_norm_div(q_add(range_hi@, range_low@), step_size@);
        lemma_q_eq_trans(
            ratio@,
            q_div(q_add(range_hi@, range_low@), step_size@),
            q_norm(q_div(q_add(range_hi@, range_low@), step_size@)),
        );
        lemma_q_floor_congr(ratio@, q_norm(q_div(q_add(range_hi@, range_low@), step_size@)));
    }
    let _blen = buffer.len();
    let n: usize;
    if ratio.num < 0 {
        proof {
            lemma_q_floor_neg(ratio@);
        }
        n = 0;
    } else {
        let n128 = (ratio.num as u128) / (ratio.den as u128);
        proof {
            assert(n128 as int == q_floor(ratio@));
            assert(n128 as int == euler_steps(range_low@, range_hi@, step_size@));
            assert(n128 as int + 1 <= _blen as int);
        }
        n = n128 as usize;
    }
    let ghost len0 = buffer@.len();
    buffer.set(0, y_zero);
    let mut y = y_zero;
    let ghost mut wxs: Seq<Rat> = Seq::empty();
    let ghost mut wss: Seq<Rat> = Seq::empty();
    let mut i: usize = 0;
    while i < n
        invariant
            i <= n,
            n as int == euler_steps(range_low@, range_hi@, step_size@),
            buffer@.len() == len0,
            n + 1 <= len0,
            all_wf(buffer@, buffer@.len() as int),
            y.wf(),
            y == buffer@[i as int],
            buffer@[0] == y_zero,
            wxs.len() == i,
            wss.len() == i,
            forall|ii: int| n < ii < buffer@.len() ==> buffer@[ii] == old(buffer)@[ii],
            forall|ii: int| 0 <= ii < i ==> {
                &&& (#[trigger] wxs[ii]).wf()
                &&& wss[ii].wf()
                &&& q_eq(wxs[ii]@, q_add(range_low@, q_mul((Q { n: ii, d: 1 }), step_size@)))
                &&& call_ensures(function, (wxs[ii], buffer@[ii]), wss[ii])
                &&& q_eq(buffer@[ii + 1]@, q_add(buffer@[ii]@, q_mul(step_size@, wss[ii]@)))
            },
        decreases n - i,
    {
        let irat = Rat::from_int(i as i64);
        let m = match rat_mul(&irat, &step_size) {
            Some(v) => v,
            None => {
                return false;
            },
        };
        let x = match rat_add(&range_low, &m) {
            Some(v) => v,
            None => {
                return false;
            },
        };
        proof {
            lemma_q_add_congr_r(range_low@, m@, q_mul((Q { n: i as int, d: 1 }), step_size@));
            lemma_q_ops_wf(range_low@, m@);
            lemma_q_eq_trans(
                x@,
                q_add(range_low@, m@),
                q_add(range_low@, q_mul((Q { n: i as int, d: 1 }), step_size@)),
            );
        }
        let s = function(x, y);
        let hm = match rat_mul(&step_size, &s) {
            Some(v) => v,
            None => {
                return false;
            },
        };
        let ny = match rat_add(&y, &hm) {
            Some(v) => v,
            None => {
                return false;
            },
        };
        proof {
            lemma_q_ops_wf(step_size@, s@);
            lemma_q_add_congr_r(y@, hm@, q_mul(step_size@, s@));
            lemma_q_ops_wf(y@, hm@);
            lemma_q_eq_trans(ny@, q_add(y@, hm@), q_add(y@, q_mul(step_size@, s@)));
        }
        let ghost bpre = buffer@;
        let ghost wxpre = wxs;
        let ghost wspre = wss;
        buffer.set(i + 1, ny);
        proof {
            wxs = wxs.push(x);
            wss = wss.push(s);
            assert forall|ii: int| 0 <= ii < i + 1 implies {
                &&& (#[trigger] wxs[ii]).wf()
                &&& wss[ii].wf()
                &&& q_eq(wxs[ii]@, q_add(range_low@, q_mul((Q { n: ii, d: 1 }), step_size@)))
                &&& call_ensures(function, (wxs[ii], buffer@[ii]), wss[ii])
                &&& q_eq(buffer@[ii + 1]@, q_add(buffer@[ii]@, q_mul(step_size@, wss[ii]@)))
            } by {
                if ii < i {
                    assert(wxs[ii] == wxpre[ii]);
                    assert(wss[ii] == wspre[ii]);
                    assert(buffer@[ii] == bpre[ii]);
                    assert(buffer@[ii + 1] == bpre[ii + 1]);
                } else {
                    assert(wxs[ii] == x);
                    assert(wss[ii] == s);
                    assert(buffer@[ii] == y);
                    assert(buffer@[ii + 1] == ny);
                }
            }
        }
        y = ny;
        i += 1;
    }
    proof {
        assert(exists|xs: Seq<Rat>, ss: Seq<Rat>| #![trigger xs.len(), ss.len()] {
            &&& xs.len() == euler_steps(range_low@, range_hi@, step_size@)
            &&& ss.len() == euler_steps(range_low@, range_hi@, step_size@)
            &&& forall|ix: int| 0 <= ix < euler_steps(range_low@, range_hi@, step_size@) ==> {
                &&& (#[trigger] xs[ix]).wf()
                &&& ss[ix].wf()
                &&& q_eq(xs[ix]@, q_add(range_low@, q_mul((Q { n: ix, d: 1 }), step_size@)))
                &&& call_ensures(function, (xs[ix], buffer@[ix]), ss[ix])
                &&& q_eq(buffer@[ix + 1]@, q_add(buffer@[ix]@, q_mul(step_size@, ss[ix]@)))
            }
        }) by {
            assert(wxs.len() == euler_steps(range_low@, range_hi@, step_size@));
            assert(wss.len() == euler_steps(range_low@, range_hi@, step_size@));
        }
    }
    true
}

/// Explicit Euler stepping with a denominator-bounded trajectory: as
/// `eulers_method`, but every updated value is rounded to the nearest
/// fraction with denominator `round_den` before it is stored.  This is
/// the deliverable path for fine steps: the exact trajectory of
/// `eulers_method` can leave the `i64` fraction range after a few steps,
/// while the rounded one stays bounded, at the price of a stated rounding
/// of at most `1 / (2 round_den)` per step.
#[verifier::loop_isolation(false)]
#[verifier::rlimit(60)]
pub fn eulers_method_rounded<F: Fn(Rat, Rat) -> Rat>(
    function: F,
    buffer: &mut Vec<Rat>,
    range_low: Rat,
    range_hi: Rat,
    y_zero: Rat,
    step_size: Rat,
    round_den: i64,
) -> (ok: bool)
    requires
        range_low.wf(),
        range_hi.wf(),
        y_zero.wf(),
        step_size.wf(),
        step_size.num != 0,
        1 <= round_den <= 0x7fffffff,
        euler_steps(range_low@, range_hi@, step_size@) <= 0x7fffffffffffffff,
        old(buffer)@.len() >= euler_steps(range_low@, range_hi@, step_size@) + 1,
        all_wf(old(buffer)@, old(buffer)@.len() as int),
        forall|a: Rat, b: Rat| a.wf() && b.wf() ==> #[trigger] call_requires(function, (a, b)),
        forall|a: Rat, b: Rat, o: Rat| #[trigger] call_ensures(function, (a, b), o) ==> o.wf(),
    ensures
        final(buffer)@.len() == old(buffer)@.len(),
        all_wf(final(buffer)@, final(buffer)@.len() as int),
        ok ==> final(buffer)@[0] == y_zero,
        ok ==> (exists|xs: Seq<Rat>, ss: Seq<Rat>| #![trigger xs.len(), ss.len()] {
            &&& xs.len() == euler_steps(range_low@, range_hi@, step_size@)
            &&& ss.len() == euler_steps(range_low@, range_hi@, step_size@)
            &&& forall|i: int| 0 <= i < euler_steps(range_low@, range_hi@, step_size@) ==> {
                &&& (#[trigger] xs[i]).wf()
                &&& ss[i].wf()
                &&& q_eq(xs[i]@, q_add(range_low@, q_mul((Q { n: i, d: 1 }), step_size@)))
                &&& call_ensures(function, (xs[i], final(buffer)@[i]), ss[i])
                &&& final(buffer)@[i + 1]@ == q_round(
                    q_add(final(buffer)@[i]@, q_mul(step_size@, ss[i]@)),
                    round_den as int,
                )
            }
        }),
        ok ==> forall|i: int|
            euler_steps(range_low@, range_hi@, step_size@) < i < final(buffer)@.len()
                ==> final(buffer)@[i] == old(buffer)@[i],
        ({
            &&& euler_steps(range_low@, range_hi@, step_size@) == 0
            &&& q_fits(q_add(range_hi@, range_low@))
            &&& q_fits(q_norm(q_div(q_add(range_hi@, range_low@), step_size@)))
        }) ==> ok,
{
    proof {
        lemma_q_ops_wf(range_hi@, range_low@);
        crate::rational::lemma_mul_den_fits(range_hi.num as int, range_low.den as int);
        crate::rational::lemma_mul_den_fits(range_low.num as int, range_hi.den as int);
        crate::rational::lemma_mul_den_fits(range_hi.den as int, range_low.den as int);
    }
    let sn = (range_hi.num as i128) * (range_low.den as i128) + (range_low.num as i128)
        * (range_hi.den as i128);
    let sd = (range_hi.den as i128) * (range_low.den as i128);
    let sum: Rat;
    if -0x8000000000000000i128 <= sn && sn <= 0x7fffffffffffffffi128
        && sd <= 0x7fffffffffffffffi128 {
        // the textbook pair of hi + lo fits the representation as it
        // stands: keep it unreduced, so that a refused ratio below can
        // only mean that the exact step count itself is unrepresentable
        sum = Rat { num: sn as i64, den: sd as i64 };
    } else {
        sum = match rat_add(&range_hi, &range_low) {
            Some(v) => v,
            None => {
                return false;
            },
        };
    }
    let ratio = match rat_div(&sum, &step_size) {
        Some(v) => v,
        None => {
            return false;
        },
    };
    proof {
        lemma_q_div_congr_l(sum@, q_add(range_hi@, range_low@), step_size@);
        lemma_q_div_nz(sum@, step_size@);
        lemma_q_eq_trans(
            ratio@,
            q_div(sum@, step_size@),
            q_div(q_add(range_hi@, range_low@), step_size@),
        );
        lemma_q_norm_div(q_add(range_hi@, range_low@), step_size@);
        lemma_q_eq_trans(
            ratio@,
            q_div(q_add(range_hi@, range_low@), step_size@),
            q_norm(q_div(q_add(range_hi@, range_low@), step_size@)),
        );
        lemma_q_floor_congr(ratio@, q_norm(q_div(q_add(range_hi@, range_low@), step_size@)));
    }
    let _blen = buffer.len();
    let n: usize;
    if ratio.num < 0 {
        proof {
            lemma_q_floor_neg(ratio@);
        }
        n = 0;
    } else {
        let n128 = (ratio.num as u128) / (ratio.den as u128);
        proof {
            assert(n128 as int == q_floor(ratio@));
            assert(n128 as int == euler_steps(range_low@, range_hi@, step_size@));
            assert(n128 as int + 1 <= _blen as int);
        }
        n = n128 as usize;
    }
    let ghost len0 = buffer@.len();
    buffer.set(0, y_zero);
    let mut y = y_zero;
    let ghost mut wxs: Seq<Rat> = Seq::empty();
    let ghost mut wss: Seq<Rat> = Seq::empty();
    let mut i: usize = 0;
    while i < n
        invariant
            i <= n,
            n as int == euler_steps(range_low@, range_hi@, step_size@),
            buffer@.len() == len0,
            n + 1 <= len0,
            all_wf(buffer@, buffer@.len() as int),
            y.wf(),
            y == buffer@[i as int],
            buffer@[0] == y_zero,
            wxs.len() == i,
            wss.len() == i,
            forall|ii: int| n < ii < buffer@.len() ==> buffer@[ii] == old(buffer)@[ii],
            forall|ii: int| 0 <= ii < i ==> {
                &&& (#[trigger] wxs[ii]).wf()
                &&& wss[ii].wf()
                &&& q_eq(wxs[ii]@, q_add(range_low@, q_mul((Q { n: ii, d: 1 }), step_size@)))
                &&& call_ensures(function, (wxs[ii], buffer@[ii]), wss[ii])
                &&& buffer@[ii + 1]@ == q_round(q_add(buffer@[ii]@, q_mul(step_size@, wss[ii]@)), round_den as int)
            },
        decreases n - i,
    {
        let irat = Rat::from_int(i as i64);
        let m = match rat_mul(&irat, &step_size) {
            Some(v) => v,
            None => {
                return false;
            },
        };
        let x = match rat_add(&range_low, &m) {
            Some(v) => v,
            None => {
                return false;
            },
        };
        proof {
            lemma_q_add_congr_r(range_low@, m@, q_mul((Q { n: i as int, d: 1 }), step_size@));
            lemma_q_ops_wf(range_low@, m@);
            lemma_q_eq_trans(
                x@,
                q_add(range_low@, m@),
                q_add(range_low@, q_mul((Q { n: i as int, d: 1 }), step_size@)),
            );
        }
        let s = function(x, y);
        let hm = match rat_mul(&step_size, &s) {
            Some(v) => v,
            None => {
                return false;
            },
        };
        let ny = match rat_add(&y, &hm) {
            Some(v) => v,
            None => {
                return false;
            },
        };
        proof {
            lemma_q_ops_wf(step_size@, s@);
            lemma_q_add_congr_r(y@, hm@, q_mul(step_size@, s@));
            lemma_q_ops_wf(y@, hm@);
            lemma_q_eq_trans(ny@, q_add(y@, hm@), q_add(y@, q_mul(step_size@, s@)));
        }
        let ghost ny_exact = ny@;
        let ny = match rat_round(&ny, round_den) {
            Some(v) => v,
            None => {
                return false;
            },
        };
        proof {
            lemma_q_ops_wf(y@, q_mul(step_size@, s@));
            lemma_q_round_congr(ny_exact, q_add(y@, q_mul(step_size@, s@)), round_den as int);
        }
        let ghost bpre = buffer@;
        let ghost wxpre = wxs;
        let ghost wspre = wss;
        buffer.set(i + 1, ny);
        proof {
            wxs = wxs.push(x);
            wss = wss.push(s);
            assert forall|ii: int| 0 <= ii < i + 1 implies {
                &&& (#[trigger] wxs[ii]).wf()
                &&& wss[ii].wf()
                &&& q_eq(wxs[ii]@, q_add(range_low@, q_mul((Q { n: ii, d: 1 }), step_size@)))
                &&& call_ensures(function, (wxs[ii], buffer@[ii]), wss[ii])
                &&& buffer@[ii + 1]@ == q_round(
                    q_add(buffer@[ii]@, q_mul(step_size@, wss[ii]@)),
                    round_den as int,
                )
            } by {
                if ii < i {
                    assert(wxs[ii] == wxpre[ii]);
                    assert(wss[ii] == wspre[ii]);
                    assert(buffer@[ii] == bpre[ii]);
                    assert(buffer@[ii + 1] == bpre[ii + 1]);
                    assert(bpre[ii + 1]@ == q_round(
                        q_add(bpre[ii]@, q_mul(step_size@, wspre[ii]@)),
                        round_den as int,
                    ));
                } else {
                    assert(wxs[ii] == x);
                    assert(wss[ii] == s);
                    assert(buffer@[ii] == y);
                    assert(buffer@[ii + 1] == ny);
                    assert(ny@ == q_round(ny_exact, round_den as int));
                    assert(q_round(ny_exact, round_den as int) == q_round(
                        q_add(y@, q_mul(step_size@, s@)),
                        round_den as int,
                    ));
                    assert(q_add(buffer@[ii]@, q_mul(step_size@, wss[ii]@)) == q_add(
                        y@,
                        q_mul(step_size@, s@),
                    ));
                }
            }
        }
        y = ny;
        i += 1;
    }
    proof {
        assert(exists|xs: Seq<Rat>, ss: Seq<Rat>| #![trigger xs.len(), ss.len()] {
            &&& xs.len() == euler_steps(range_low@, range_hi@, step_size@)
            &&& ss.len() == euler_steps(range_low@, range_hi@, step_size@)
            &&& forall|ix: int| 0 <= ix < euler_steps(range_low@, range_hi@, step_size@) ==> {
                &&& (#[trigger] xs[ix]).wf()
                &&& ss[ix].wf()
                &&& q_eq(xs[ix]@, q_add(range_low@, q_mul((Q { n: ix, d: 1 }), step_size@)))
                &&& call_ensures(function, (xs[ix], buffer@[ix]), ss[ix])
                &&& buffer@[ix + 1]@ == q_round(
                    q_add(buffer@[ix]@, q_mul(step_size@, ss[ix]@)),
                    round_den as int,
                )
            }
        }) by {
            assert(wxs.len() == euler_steps(range_low@, range_hi@, step_size@));
            assert(wss.len() == euler_steps(range_low@, range_hi@, step_size@));
        }
    }
    true
}


} // verus!
