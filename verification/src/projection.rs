//! The decrement projection and its net present value.
//!
//! The model is a fold over policy years.  Each year a mortality rate and
//! a lapse rate are applied to the in-force count (while the year is
//! inside the projection term), premium income and death claims make the
//! year's net cash flow, and the cash flow is discounted back to the
//! start of the projection.
//!
//! Two spec layers describe the executable code.  `proj` and `spec_npv`
//! are the mathematics: the fold over exact rationals, to which every
//! returned value is tied by the rational equality `q_eq`.  `run_proj`
//! and `npv_run` mirror the machine: the same checked, reducing
//! operations over representations, so `npv` returns `Some` exactly when
//! `npv_run` does and returns exactly the representation `npv_run`
//! names.  Together they say both what the value means and precisely
//! when and how it is delivered.

use crate::rational::{
    lemma_q_add_congruence, lemma_q_add_wf, lemma_q_decrement_nonneg, lemma_q_distrib,
    lemma_q_eq_trans, lemma_q_inv_congruence, lemma_q_le_trans, lemma_q_mul_congruence,
    lemma_q_mul_nonneg, lemma_q_mul_wf, lemma_q_sub_congruence, lemma_q_sub_le, lemma_q_sub_wf,
    lemma_q_sub_zero, lemma_q_sub_zero_value, q_add, q_eq, q_inv, q_le, q_mul, q_one, q_sub,
    q_wf, q_zero, spec_checked_add, spec_checked_mul, spec_checked_sub, Q, Rat,
};
use vstd::prelude::*;

verus! {

/// The projection state carried from one policy year to the next.
pub struct ProjState {
    /// Policies still active at the start of the year.
    pub inforce: Q,
    /// Present-value factor for cash flows of this year.
    pub discount: Q,
    /// Net present value accumulated over the years already projected.
    pub result: Q,
}

/// How many years are projected: the schedules are paired by index, so
/// iteration stops at the shorter one.
pub open spec fn horizon(m: Seq<Q>, l: Seq<Q>) -> nat {
    if m.len() <= l.len() {
        m.len()
    } else {
        l.len()
    }
}

/// An absent term defaults to the length of the mortality schedule, which
/// makes the cutoff a no-op.
pub open spec fn resolved_term(term: Option<usize>, schedule_len: nat) -> nat {
    match term {
        Option::Some(k) => k as nat,
        Option::None => schedule_len,
    }
}

/// Every entry of the schedule is a well-formed fraction.
pub open spec fn all_wf(s: Seq<Q>) -> bool {
    forall|j: int| 0 <= j < s.len() ==> q_wf(#[trigger] s[j])
}

pub open spec fn initial_state(init: Q) -> ProjState {
    ProjState { inforce: init, discount: q_one(), result: q_zero() }
}

/// One policy year: decrements apply only while the year lies inside the
/// term; premiums are collected on the in-force count at the start of the
/// year; lapses generate no cash flow.
pub open spec fn step(st: ProjState, qq: Q, ww: Q, v: Q, sa: Q, prem: Q, active: bool) -> ProjState {
    let nd = if active {
        q_mul(st.inforce, qq)
    } else {
        q_zero()
    };
    let nl = if active {
        q_mul(st.inforce, ww)
    } else {
        q_zero()
    };
    let net = q_sub(q_mul(st.inforce, prem), q_mul(nd, sa));
    ProjState {
        inforce: if active {
            q_sub(q_sub(st.inforce, nd), nl)
        } else {
            st.inforce
        },
        discount: q_mul(st.discount, v),
        result: q_add(st.result, q_mul(net, st.discount)),
    }
}

/// The projection state after `t` policy years.
pub open spec fn proj(
    m: Seq<Q>,
    l: Seq<Q>,
    v: Q,
    sa: Q,
    prem: Q,
    init: Q,
    term: nat,
    t: nat,
) -> ProjState
    decreases t,
{
    if t == 0 {
        initial_state(init)
    } else {
        step(
            proj(m, l, v, sa, prem, init, term, (t - 1) as nat),
            m[t - 1],
            l[t - 1],
            v,
            sa,
            prem,
            (t - 1) < term,
        )
    }
}

/// The net present value of the whole projection, with the per-year
/// discount factor `1 / (1 + interest)` derived from the interest rate.
pub open spec fn spec_npv(
    m: Seq<Q>,
    l: Seq<Q>,
    interest: Q,
    sa: Q,
    prem: Q,
    init: Q,
    term: nat,
) -> Q {
    proj(m, l, q_inv(q_add(q_one(), interest)), sa, prem, init, term, horizon(m, l)).result
}

/// One policy year exactly as the machine performs it: the same checked
/// operations in the same order, over exact representations.  `None`
/// wherever any machine word would leave the representable range.
pub open spec fn run_step(
    inf: Q,
    disc: Q,
    res: Q,
    qq: Q,
    ww: Q,
    v: Q,
    sa: Q,
    prem: Q,
    active: bool,
) -> Option<(Q, Q, Q)> {
    let nd_o = if active {
        spec_checked_mul(inf, qq)
    } else {
        Option::Some(q_zero())
    };
    let nl_o = if active {
        spec_checked_mul(inf, ww)
    } else {
        Option::Some(q_zero())
    };
    match (nd_o, nl_o) {
        (Option::Some(nd), Option::Some(nl)) => match spec_checked_mul(inf, prem) {
            Option::Some(prems) => match spec_checked_mul(nd, sa) {
                Option::Some(claims) => match spec_checked_sub(prems, claims) {
                    Option::Some(net) => match spec_checked_mul(net, disc) {
                        Option::Some(inc) => match spec_checked_add(res, inc) {
                            Option::Some(res2) => match spec_checked_mul(disc, v) {
                                Option::Some(disc2) => match spec_checked_sub(inf, nd) {
                                    Option::Some(a1) => match spec_checked_sub(a1, nl) {
                                        Option::Some(inf2) => Option::Some((inf2, disc2, res2)),
                                        Option::None => Option::None,
                                    },
                                    Option::None => Option::None,
                                },
                                Option::None => Option::None,
                            },
                            Option::None => Option::None,
                        },
                        Option::None => Option::None,
                    },
                    Option::None => Option::None,
                },
                Option::None => Option::None,
            },
            Option::None => Option::None,
        },
        _ => Option::None,
    }
}

/// The machine projection state after `t` years: in-force count,
/// discount factor and accumulated value, each in lowest terms, or
/// `None` once any year has failed.
pub open spec fn run_proj(
    m: Seq<Q>,
    l: Seq<Q>,
    v: Q,
    sa: Q,
    prem: Q,
    init: Q,
    term: nat,
    t: nat,
) -> Option<(Q, Q, Q)>
    decreases t,
{
    if t == 0 {
        Option::Some((init, q_one(), q_zero()))
    } else {
        match run_proj(m, l, v, sa, prem, init, term, (t - 1) as nat) {
            Option::Some(st) => run_step(st.0, st.1, st.2, m[t - 1], l[t - 1], v, sa, prem, (t - 1) < term),
            Option::None => Option::None,
        }
    }
}

/// Exactly what `npv` returns, at the level of representations: the
/// representation of the result when every machine word along the way
/// fits, and `None` otherwise (or when `1 + interest` is zero).
pub open spec fn npv_run(
    m: Seq<Q>,
    l: Seq<Q>,
    interest: Q,
    sa: Q,
    prem: Q,
    init: Q,
    term: nat,
) -> Option<Q> {
    if horizon(m, l) == 0 {
        Option::Some(q_zero())
    } else {
        match spec_checked_add(q_one(), interest) {
            Option::Some(op) => if op.n == 0 {
                Option::None
            } else {
                match run_proj(m, l, q_inv(op), sa, prem, init, term, horizon(m, l)) {
                    Option::Some(st) => Option::Some(st.2),
                    Option::None => Option::None,
                }
            },
            Option::None => Option::None,
        }
    }
}

/// Once a year has failed, every later state is `None` too.
proof fn lemma_run_proj_none(
    m: Seq<Q>,
    l: Seq<Q>,
    v: Q,
    sa: Q,
    prem: Q,
    init: Q,
    term: nat,
    t1: nat,
    t2: nat,
)
    requires
        t1 <= t2,
        run_proj(m, l, v, sa, prem, init, term, t1) is None,
    ensures
        run_proj(m, l, v, sa, prem, init, term, t2) is None,
    decreases t2,
{
    if t2 > t1 {
        lemma_run_proj_none(m, l, v, sa, prem, init, term, t1, (t2 - 1) as nat);
    }
}

/// The machine in-force trajectory after `t` years, in lowest terms, or
/// `None` once any year has failed.
pub open spec fn run_inforce(m: Seq<Q>, l: Seq<Q>, init: Q, term: nat, t: nat) -> Option<Q>
    decreases t,
{
    if t == 0 {
        Option::Some(init)
    } else {
        match run_inforce(m, l, init, term, (t - 1) as nat) {
            Option::Some(inf) => {
                let active = (t - 1) < term;
                let nd_o = if active {
                    spec_checked_mul(inf, m[t - 1])
                } else {
                    Option::Some(q_zero())
                };
                let nl_o = if active {
                    spec_checked_mul(inf, l[t - 1])
                } else {
                    Option::Some(q_zero())
                };
                match (nd_o, nl_o) {
                    (Option::Some(nd), Option::Some(nl)) => match spec_checked_sub(inf, nd) {
                        Option::Some(a1) => spec_checked_sub(a1, nl),
                        Option::None => Option::None,
                    },
                    _ => Option::None,
                }
            },
            Option::None => Option::None,
        }
    }
}

/// Once a year of the trajectory has failed, every later one is `None`.
proof fn lemma_run_inforce_none(m: Seq<Q>, l: Seq<Q>, init: Q, term: nat, t1: nat, t2: nat)
    requires
        t1 <= t2,
        run_inforce(m, l, init, term, t1) is None,
    ensures
        run_inforce(m, l, init, term, t2) is None,
    decreases t2,
{
    if t2 > t1 {
        lemma_run_inforce_none(m, l, init, term, t1, (t2 - 1) as nat);
    }
}

/// The projection preserves well-formedness of every state component.
pub proof fn lemma_proj_wf(m: Seq<Q>, l: Seq<Q>, v: Q, sa: Q, prem: Q, init: Q, term: nat, t: nat)
    requires
        q_wf(v),
        q_wf(sa),
        q_wf(prem),
        q_wf(init),
        all_wf(m),
        all_wf(l),
        t <= horizon(m, l),
    ensures
        q_wf(proj(m, l, v, sa, prem, init, term, t).inforce),
        q_wf(proj(m, l, v, sa, prem, init, term, t).discount),
        q_wf(proj(m, l, v, sa, prem, init, term, t).result),
    decreases t,
{
    if t > 0 {
        lemma_proj_wf(m, l, v, sa, prem, init, term, (t - 1) as nat);
        let st = proj(m, l, v, sa, prem, init, term, (t - 1) as nat);
        let qq = m[t - 1];
        let ww = l[t - 1];
        let active = (t - 1) < term;
        let nd = if active {
            q_mul(st.inforce, qq)
        } else {
            q_zero()
        };
        let nl = if active {
            q_mul(st.inforce, ww)
        } else {
            q_zero()
        };
        if active {
            lemma_q_mul_wf(st.inforce, qq);
            lemma_q_mul_wf(st.inforce, ww);
        }
        lemma_q_mul_wf(st.inforce, prem);
        lemma_q_mul_wf(nd, sa);
        lemma_q_sub_wf(q_mul(st.inforce, prem), q_mul(nd, sa));
        lemma_q_mul_wf(q_sub(q_mul(st.inforce, prem), q_mul(nd, sa)), st.discount);
        lemma_q_add_wf(st.result, q_mul(q_sub(q_mul(st.inforce, prem), q_mul(nd, sa)), st.discount));
        lemma_q_mul_wf(st.discount, v);
        if active {
            lemma_q_sub_wf(st.inforce, nd);
            lemma_q_sub_wf(q_sub(st.inforce, nd), nl);
        }
    }
}

/// Carries rational equalities of the executable per-year values through
/// one `step` of the model: if the machine state is `q_eq` to the model
/// state and each machine operation returned a value `q_eq` to the exact
/// operation on its own inputs, the next machine state is `q_eq` to the
/// next model state.
proof fn lemma_step_ops(
    inf_e: Q,
    disc_e: Q,
    res_e: Q,
    st: ProjState,
    qq: Q,
    ww: Q,
    v: Q,
    vv: Q,
    sa: Q,
    prem: Q,
    active: bool,
    nd: Q,
    nl: Q,
    prems: Q,
    claims: Q,
    net: Q,
    inc: Q,
    res2: Q,
    disc2: Q,
    inf2: Q,
)
    requires
        q_wf(inf_e),
        q_wf(disc_e),
        q_wf(res_e),
        q_wf(st.inforce),
        q_wf(st.discount),
        q_wf(st.result),
        q_wf(qq),
        q_wf(ww),
        q_wf(v),
        q_wf(vv),
        q_wf(sa),
        q_wf(prem),
        q_wf(nd),
        q_wf(nl),
        q_wf(prems),
        q_wf(claims),
        q_wf(net),
        q_wf(inc),
        q_wf(res2),
        q_wf(disc2),
        q_wf(inf2),
        q_eq(inf_e, st.inforce),
        q_eq(disc_e, st.discount),
        q_eq(res_e, st.result),
        q_eq(vv, v),
        active ==> q_eq(nd, q_mul(inf_e, qq)) && q_eq(nl, q_mul(inf_e, ww)),
        !active ==> nd == q_zero() && nl == q_zero(),
        q_eq(prems, q_mul(inf_e, prem)),
        q_eq(claims, q_mul(nd, sa)),
        q_eq(net, q_sub(prems, claims)),
        q_eq(inc, q_mul(net, disc_e)),
        q_eq(res2, q_add(res_e, inc)),
        q_eq(disc2, q_mul(disc_e, vv)),
        q_eq(inf2, q_sub(q_sub(inf_e, nd), nl)),
    ensures
        q_eq(inf2, step(st, qq, ww, v, sa, prem, active).inforce),
        q_eq(disc2, step(st, qq, ww, v, sa, prem, active).discount),
        q_eq(res2, step(st, qq, ww, v, sa, prem, active).result),
{
    let nd_s = if active {
        q_mul(st.inforce, qq)
    } else {
        q_zero()
    };
    let nl_s = if active {
        q_mul(st.inforce, ww)
    } else {
        q_zero()
    };
    let prems_s = q_mul(st.inforce, prem);
    let claims_s = q_mul(nd_s, sa);
    let net_s = q_sub(prems_s, claims_s);
    let inc_s = q_mul(net_s, st.discount);
    if active {
        lemma_q_mul_wf(st.inforce, qq);
        lemma_q_mul_congruence(inf_e, st.inforce, qq, qq);
        lemma_q_eq_trans(nd, q_mul(inf_e, qq), nd_s);
        lemma_q_mul_wf(st.inforce, ww);
        lemma_q_mul_congruence(inf_e, st.inforce, ww, ww);
        lemma_q_eq_trans(nl, q_mul(inf_e, ww), nl_s);
    }
    lemma_q_mul_wf(st.inforce, prem);
    lemma_q_mul_congruence(inf_e, st.inforce, prem, prem);
    lemma_q_eq_trans(prems, q_mul(inf_e, prem), prems_s);
    lemma_q_mul_wf(nd_s, sa);
    lemma_q_mul_congruence(nd, nd_s, sa, sa);
    lemma_q_eq_trans(claims, q_mul(nd, sa), claims_s);
    lemma_q_sub_wf(prems_s, claims_s);
    lemma_q_sub_congruence(prems, prems_s, claims, claims_s);
    lemma_q_eq_trans(net, q_sub(prems, claims), net_s);
    lemma_q_mul_wf(net_s, st.discount);
    lemma_q_mul_congruence(net, net_s, disc_e, st.discount);
    lemma_q_eq_trans(inc, q_mul(net, disc_e), inc_s);
    lemma_q_add_wf(st.result, inc_s);
    lemma_q_add_congruence(res_e, st.result, inc, inc_s);
    lemma_q_eq_trans(res2, q_add(res_e, inc), q_add(st.result, inc_s));
    lemma_q_mul_wf(st.discount, v);
    lemma_q_mul_congruence(disc_e, st.discount, vv, v);
    lemma_q_eq_trans(disc2, q_mul(disc_e, vv), q_mul(st.discount, v));
    if active {
        lemma_q_sub_wf(st.inforce, nd_s);
        lemma_q_sub_congruence(inf_e, st.inforce, nd, nd_s);
        lemma_q_sub_wf(q_sub(st.inforce, nd_s), nl_s);
        lemma_q_sub_congruence(q_sub(inf_e, nd), q_sub(st.inforce, nd_s), nl, nl_s);
        lemma_q_eq_trans(
            inf2,
            q_sub(q_sub(inf_e, nd), nl),
            q_sub(q_sub(st.inforce, nd_s), nl_s),
        );
    } else {
        crate::rational::lemma_q_sub_zero(inf_e);
        assert(q_sub(inf_e, nd) == inf_e);
        assert(q_sub(q_sub(inf_e, nd), nl) == inf_e);
        lemma_q_eq_trans(inf2, inf_e, st.inforce);
    }
}

/// The net present value of the block.
///
/// `mortality_rates` and `lapse_rates` are paired by index and iteration
/// stops at the shorter schedule.  While `t < term` the decrements apply;
/// afterwards the in-force count is frozen, though discounting continues.
/// An absent `term` defaults to the length of `mortality_rates`.
///
/// Returns the exact discounted net cash flow.  The result is `None`
/// exactly when `npv_run` says so: when some machine word formed along
/// the way would leave the representable range of `Rat`, or when
/// `1 + interest_rate` is zero so that no per-year discount factor
/// exists (where the double-precision formula would silently produce
/// infinities, exact arithmetic has no such value to return).  When a
/// result comes back it is exactly the representation `npv_run` gives,
/// so equal calls return equal results.
#[verifier::loop_isolation(false)]
#[verifier::rlimit(100)]
pub fn npv(
    mortality_rates: &Vec<Rat>,
    lapse_rates: &Vec<Rat>,
    interest_rate: Rat,
    sum_assured: Rat,
    premium: Rat,
    init_pols: Rat,
    term: Option<usize>,
) -> (r: Option<Rat>)
    requires
        forall|i: int|
            0 <= i < mortality_rates.len() ==> (#[trigger] mortality_rates[i]).wf(),
        forall|i: int| 0 <= i < lapse_rates.len() ==> (#[trigger] lapse_rates[i]).wf(),
        interest_rate.wf(),
        sum_assured.wf(),
        premium.wf(),
        init_pols.wf(),
    ensures
        r matches Some(x) ==> x.wf() && q_eq(
            x@,
            spec_npv(
                mortality_rates.deep_view(),
                lapse_rates.deep_view(),
                interest_rate@,
                sum_assured@,
                premium@,
                init_pols@,
                resolved_term(term, mortality_rates@.len() as nat),
            ),
        ),
        mortality_rates@.len() == 0 || lapse_rates@.len() == 0 ==> (r matches Some(x) && x@
            == q_zero()),
        q_eq(q_add(q_one(), interest_rate@), q_zero()) && mortality_rates@.len() > 0
            && lapse_rates@.len() > 0 ==> r is None,
        r is Some <==> npv_run(
            mortality_rates.deep_view(),
            lapse_rates.deep_view(),
            interest_rate@,
            sum_assured@,
            premium@,
            init_pols@,
            resolved_term(term, mortality_rates@.len() as nat),
        ) is Some,
        r matches Some(x) ==> Some(x@) == npv_run(
            mortality_rates.deep_view(),
            lapse_rates.deep_view(),
            interest_rate@,
            sum_assured@,
            premium@,
            init_pols@,
            resolved_term(term, mortality_rates@.len() as nat),
        ),
{
    let ghost ms = mortality_rates.deep_view();
    let ghost ls = lapse_rates.deep_view();
    let ghost iq = interest_rate@;
    let ghost saq = sum_assured@;
    let ghost prq = premium@;
    let ghost inq = init_pols@;
    let ghost vq = q_inv(q_add(q_one(), iq));
    let ghost tmq = resolved_term(term, mortality_rates@.len() as nat);
    proof {
        assert forall|j: int| 0 <= j < ms.len() implies q_wf(#[trigger] ms[j]) by {
            assert(mortality_rates[j].wf());
        }
        assert forall|j: int| 0 <= j < ls.len() implies q_wf(#[trigger] ls[j]) by {
            assert(lapse_rates[j].wf());
        }
    }
    let n_m: usize = mortality_rates.len();
    let n_l: usize = lapse_rates.len();
    let n: usize = if n_m < n_l {
        n_m
    } else {
        n_l
    };
    if n == 0 {
        return Some(Rat::zero());
    }
    let term_k: usize = match term {
        Some(k) => k,
        None => n_m,
    };
    let one_plus: Rat = match Rat::one().checked_add(interest_rate) {
        Some(v) => v,
        None => return None,
    };
    proof {
        lemma_q_add_wf(q_one(), iq);
    }
    if one_plus.num == 0 {
        return None;
    }
    let v: Rat = match one_plus.recip() {
        Some(v) => v,
        None => return None,
    };
    proof {
        lemma_q_inv_congruence(one_plus@, q_add(q_one(), iq));
        assert(q_eq(v@, vq));
        if q_eq(q_add(q_one(), iq), q_zero()) {
            lemma_q_eq_trans(one_plus@, q_add(q_one(), iq), q_zero());
            assert(false);
        }
        assert(Some(one_plus@) == spec_checked_add(q_one(), iq));
        assert(v@ == q_inv(one_plus@));
    }
    let mut result: Rat = Rat::zero();
    let mut inforce: Rat = init_pols;
    let mut discount: Rat = Rat::one();
    let mut t: usize = 0;
    while t < n
        invariant
            t <= n,
            inforce.wf(),
            discount.wf(),
            result.wf(),
            q_eq(inforce@, proj(ms, ls, vq, saq, prq, inq, tmq, t as nat).inforce),
            q_eq(discount@, proj(ms, ls, vq, saq, prq, inq, tmq, t as nat).discount),
            q_eq(result@, proj(ms, ls, vq, saq, prq, inq, tmq, t as nat).result),
            run_proj(ms, ls, v@, saq, prq, inq, tmq, t as nat) == Some(
                (inforce@, discount@, result@),
            ),
        decreases n - t,
    {
        proof {
            lemma_proj_wf(ms, ls, vq, saq, prq, inq, tmq, t as nat);
            assert(ms[t as int] == mortality_rates[t as int]@);
            assert(ls[t as int] == lapse_rates[t as int]@);
        }
        let active: bool = t < term_k;
        let no_deaths: Rat;
        let no_lapses: Rat;
        if active {
            no_deaths = match inforce.checked_mul(mortality_rates[t]) {
                Some(x) => x,
                None => {
                    proof {
                        assert(run_proj(ms, ls, v@, saq, prq, inq, tmq, (t + 1) as nat) is None);
                        lemma_run_proj_none(ms, ls, v@, saq, prq, inq, tmq, (t + 1) as nat, n as nat);
                    }
                    return None;
                },
            };
            no_lapses = match inforce.checked_mul(lapse_rates[t]) {
                Some(x) => x,
                None => {
                    proof {
                        assert(run_proj(ms, ls, v@, saq, prq, inq, tmq, (t + 1) as nat) is None);
                        lemma_run_proj_none(ms, ls, v@, saq, prq, inq, tmq, (t + 1) as nat, n as nat);
                    }
                    return None;
                },
            };
        } else {
            no_deaths = Rat::zero();
            no_lapses = Rat::zero();
        }
        let premiums: Rat = match inforce.checked_mul(premium) {
            Some(x) => x,
            None => {
                    proof {
                        assert(run_proj(ms, ls, v@, saq, prq, inq, tmq, (t + 1) as nat) is None);
                        lemma_run_proj_none(ms, ls, v@, saq, prq, inq, tmq, (t + 1) as nat, n as nat);
                    }
                    return None;
                },
        };
        let claims: Rat = match no_deaths.checked_mul(sum_assured) {
            Some(x) => x,
            None => {
                    proof {
                        assert(run_proj(ms, ls, v@, saq, prq, inq, tmq, (t + 1) as nat) is None);
                        lemma_run_proj_none(ms, ls, v@, saq, prq, inq, tmq, (t + 1) as nat, n as nat);
                    }
                    return None;
                },
        };
        let net_cashflow: Rat = match premiums.checked_sub(claims) {
            Some(x) => x,
            None => {
                    proof {
                        assert(run_proj(ms, ls, v@, saq, prq, inq, tmq, (t + 1) as nat) is None);
                        lemma_run_proj_none(ms, ls, v@, saq, prq, inq, tmq, (t + 1) as nat, n as nat);
                    }
                    return None;
                },
        };
        let increment: Rat = match net_cashflow.checked_mul(discount) {
            Some(x) => x,
            None => {
                    proof {
                        assert(run_proj(ms, ls, v@, saq, prq, inq, tmq, (t + 1) as nat) is None);
                        lemma_run_proj_none(ms, ls, v@, saq, prq, inq, tmq, (t + 1) as nat, n as nat);
                    }
                    return None;
                },
        };
        let new_result: Rat = match result.checked_add(increment) {
            Some(x) => x,
            None => {
                    proof {
                        assert(run_proj(ms, ls, v@, saq, prq, inq, tmq, (t + 1) as nat) is None);
                        lemma_run_proj_none(ms, ls, v@, saq, prq, inq, tmq, (t + 1) as nat, n as nat);
                    }
                    return None;
                },
        };
        let new_discount: Rat = match discount.checked_mul(v) {
            Some(x) => x,
            None => {
                    proof {
                        assert(run_proj(ms, ls, v@, saq, prq, inq, tmq, (t + 1) as nat) is None);
                        lemma_run_proj_none(ms, ls, v@, saq, prq, inq, tmq, (t + 1) as nat, n as nat);
                    }
                    return None;
                },
        };
        let after_deaths: Rat = match inforce.checked_sub(no_deaths) {
            Some(x) => x,
            None => {
                    proof {
                        assert(run_proj(ms, ls, v@, saq, prq, inq, tmq, (t + 1) as nat) is None);
                        lemma_run_proj_none(ms, ls, v@, saq, prq, inq, tmq, (t + 1) as nat, n as nat);
                    }
                    return None;
                },
        };
        let new_inforce: Rat = match after_deaths.checked_sub(no_lapses) {
            Some(x) => x,
            None => {
                    proof {
                        assert(run_proj(ms, ls, v@, saq, prq, inq, tmq, (t + 1) as nat) is None);
                        lemma_run_proj_none(ms, ls, v@, saq, prq, inq, tmq, (t + 1) as nat, n as nat);
                    }
                    return None;
                },
        };
        proof {
            let st = proj(ms, ls, vq, saq, prq, inq, tmq, t as nat);
            lemma_q_sub_wf(inforce@, no_deaths@);
            lemma_q_sub_congruence(
                after_deaths@,
                q_sub(inforce@, no_deaths@),
                no_lapses@,
                no_lapses@,
            );
            lemma_q_sub_wf(q_sub(inforce@, no_deaths@), no_lapses@);
            lemma_q_eq_trans(
                new_inforce@,
                q_sub(after_deaths@, no_lapses@),
                q_sub(q_sub(inforce@, no_deaths@), no_lapses@),
            );
            lemma_step_ops(
                inforce@,
                discount@,
                result@,
                st,
                ms[t as int],
                ls[t as int],
                vq,
                v@,
                saq,
                prq,
                active,
                no_deaths@,
                no_lapses@,
                premiums@,
                claims@,
                net_cashflow@,
                increment@,
                new_result@,
                new_discount@,
                new_inforce@,
            );
            assert(proj(ms, ls, vq, saq, prq, inq, tmq, (t + 1) as nat) == step(
                st,
                ms[t as int],
                ls[t as int],
                vq,
                saq,
                prq,
                active,
            ));
            assert(run_step(
                inforce@,
                discount@,
                result@,
                ms[t as int],
                ls[t as int],
                v@,
                saq,
                prq,
                active,
            ) == Some((new_inforce@, new_discount@, new_result@)));
            assert(run_proj(ms, ls, v@, saq, prq, inq, tmq, (t + 1) as nat) == Some(
                (new_inforce@, new_discount@, new_result@),
            ));
        }
        result = new_result;
        discount = new_discount;
        inforce = new_inforce;
        t = t + 1;
    }
    Some(result)
}

/// The in-force count after `t` policy years.  It depends only on the
/// rates, the starting count and the term, so it has a recursion of its
/// own beside `proj`.
pub open spec fn spec_inforce(m: Seq<Q>, l: Seq<Q>, init: Q, term: nat, t: nat) -> Q
    decreases t,
{
    if t == 0 {
        init
    } else {
        let prev = spec_inforce(m, l, init, term, (t - 1) as nat);
        if (t - 1) < term {
            q_sub(q_sub(prev, q_mul(prev, m[t - 1])), q_mul(prev, l[t - 1]))
        } else {
            prev
        }
    }
}

/// The projection carries exactly the in-force count of `spec_inforce`.
pub proof fn lemma_proj_inforce(
    m: Seq<Q>,
    l: Seq<Q>,
    v: Q,
    sa: Q,
    prem: Q,
    init: Q,
    term: nat,
    t: nat,
)
    ensures
        proj(m, l, v, sa, prem, init, term, t).inforce == spec_inforce(m, l, init, term, t),
    decreases t,
{
    if t > 0 {
        lemma_proj_inforce(m, l, v, sa, prem, init, term, (t - 1) as nat);
    }
}

/// The per-year discount factor raised to the `k`-th power.
pub open spec fn q_pow(v: Q, k: nat) -> Q
    decreases k,
{
    if k == 0 {
        q_one()
    } else {
        q_mul(q_pow(v, (k - 1) as nat), v)
    }
}

/// The discounted annuity-certain over `k` years: `1 + v + ... + v^(k-1)`.
pub open spec fn annuity(v: Q, k: nat) -> Q
    decreases k,
{
    if k == 0 {
        q_zero()
    } else {
        q_add(annuity(v, (k - 1) as nat), q_pow(v, (k - 1) as nat))
    }
}

pub proof fn lemma_q_pow_wf(v: Q, k: nat)
    requires
        q_wf(v),
    ensures
        q_wf(q_pow(v, k)),
    decreases k,
{
    if k > 0 {
        lemma_q_pow_wf(v, (k - 1) as nat);
        lemma_q_mul_wf(q_pow(v, (k - 1) as nat), v);
    }
}

pub proof fn lemma_annuity_wf(v: Q, k: nat)
    requires
        q_wf(v),
    ensures
        q_wf(annuity(v, k)),
    decreases k,
{
    if k > 0 {
        lemma_annuity_wf(v, (k - 1) as nat);
        lemma_q_pow_wf(v, (k - 1) as nat);
        lemma_q_add_wf(annuity(v, (k - 1) as nat), q_pow(v, (k - 1) as nat));
    }
}

/// With every mortality and lapse rate equal to zero, the in-force count
/// never moves from its start, the discount factor is the plain power of
/// the per-year factor, and the accumulated value is the start count
/// times the premium times a discounted annuity-certain.
pub proof fn lemma_zero_rates(
    m: Seq<Q>,
    l: Seq<Q>,
    v: Q,
    sa: Q,
    prem: Q,
    init: Q,
    term: nat,
    t: nat,
)
    requires
        q_wf(v),
        q_wf(sa),
        q_wf(prem),
        q_wf(init),
        all_wf(m),
        all_wf(l),
        forall|j: int| 0 <= j < m.len() ==> q_eq(#[trigger] m[j], q_zero()),
        forall|j: int| 0 <= j < l.len() ==> q_eq(#[trigger] l[j], q_zero()),
        t <= horizon(m, l),
    ensures
        q_eq(proj(m, l, v, sa, prem, init, term, t).inforce, init),
        q_eq(proj(m, l, v, sa, prem, init, term, t).discount, q_pow(v, t)),
        q_eq(
            proj(m, l, v, sa, prem, init, term, t).result,
            q_mul(q_mul(init, prem), annuity(v, t)),
        ),
    decreases t,
{
    let x = q_mul(init, prem);
    lemma_q_mul_wf(init, prem);
    if t == 0 {
        assert(q_mul(x, annuity(v, 0)).n == 0);
    } else {
        let t1 = (t - 1) as nat;
        lemma_zero_rates(m, l, v, sa, prem, init, term, t1);
        lemma_proj_wf(m, l, v, sa, prem, init, term, t1);
        lemma_q_pow_wf(v, t1);
        lemma_annuity_wf(v, t1);
        let st = proj(m, l, v, sa, prem, init, term, t1);
        let qq = m[t - 1];
        let ww = l[t - 1];
        let active = t1 < term;
        let nd_s = if active {
            q_mul(st.inforce, qq)
        } else {
            q_zero()
        };
        let nl_s = if active {
            q_mul(st.inforce, ww)
        } else {
            q_zero()
        };
        if active {
            lemma_q_mul_wf(st.inforce, qq);
            lemma_q_mul_congruence(st.inforce, st.inforce, qq, q_zero());
            assert(q_eq(q_mul(st.inforce, q_zero()), q_zero()));
            lemma_q_eq_trans(nd_s, q_mul(st.inforce, q_zero()), q_zero());
            lemma_q_mul_wf(st.inforce, ww);
            lemma_q_mul_congruence(st.inforce, st.inforce, ww, q_zero());
            lemma_q_eq_trans(nl_s, q_mul(st.inforce, q_zero()), q_zero());
        }
        assert(q_eq(nd_s, q_zero()));
        assert(q_eq(nl_s, q_zero()));
        assert(q_wf(nd_s));
        assert(q_wf(nl_s));
        // The in-force count stays at `init`.
        if active {
            lemma_q_sub_wf(st.inforce, nd_s);
            lemma_q_sub_congruence(st.inforce, init, nd_s, q_zero());
            lemma_q_sub_zero(init);
            lemma_q_sub_wf(q_sub(st.inforce, nd_s), nl_s);
            lemma_q_sub_congruence(q_sub(st.inforce, nd_s), init, nl_s, q_zero());
        }
        // The discount factor is the next power.
        lemma_q_mul_wf(st.discount, v);
        lemma_q_mul_congruence(st.discount, q_pow(v, t1), v, v);
        // The accumulated value gains one more annuity payment.
        let prems_s = q_mul(st.inforce, prem);
        let claims_s = q_mul(nd_s, sa);
        let net_s = q_sub(prems_s, claims_s);
        let inc_s = q_mul(net_s, st.discount);
        lemma_q_mul_wf(st.inforce, prem);
        lemma_q_mul_congruence(st.inforce, init, prem, prem);
        lemma_q_mul_wf(nd_s, sa);
        lemma_q_mul_congruence(nd_s, q_zero(), sa, sa);
        lemma_q_mul_wf(q_zero(), sa);
        assert(q_eq(q_mul(q_zero(), sa), q_zero()));
        lemma_q_eq_trans(claims_s, q_mul(q_zero(), sa), q_zero());
        lemma_q_sub_wf(prems_s, claims_s);
        lemma_q_sub_congruence(prems_s, x, claims_s, q_zero());
        lemma_q_sub_zero(x);
        lemma_q_eq_trans(net_s, q_sub(x, q_zero()), x);
        lemma_q_mul_wf(net_s, st.discount);
        lemma_q_mul_congruence(net_s, x, st.discount, q_pow(v, t1));
        lemma_q_mul_wf(x, q_pow(v, t1));
        lemma_q_mul_wf(x, annuity(v, t1));
        lemma_q_add_wf(st.result, inc_s);
        lemma_q_add_congruence(
            st.result,
            q_mul(x, annuity(v, t1)),
            inc_s,
            q_mul(x, q_pow(v, t1)),
        );
        lemma_q_distrib(x, annuity(v, t1), q_pow(v, t1));
        lemma_q_add_wf(annuity(v, t1), q_pow(v, t1));
        lemma_q_mul_wf(x, annuity(v, t));
        lemma_q_add_wf(q_mul(x, annuity(v, t1)), q_mul(x, q_pow(v, t1)));
        lemma_q_eq_trans(
            proj(m, l, v, sa, prem, init, term, t).result,
            q_add(q_mul(x, annuity(v, t1)), q_mul(x, q_pow(v, t1))),
            q_mul(x, annuity(v, t)),
        );
    }
}

/// With non-negative rates, a non-negative starting count, and the two
/// rates of each year summing to at most one, the in-force count stays
/// non-negative.
pub proof fn lemma_inforce_nonneg(m: Seq<Q>, l: Seq<Q>, init: Q, term: nat, t: nat)
    requires
        q_wf(init),
        all_wf(m),
        all_wf(l),
        q_le(q_zero(), init),
        forall|j: int| 0 <= j < m.len() ==> q_le(q_zero(), #[trigger] m[j]),
        forall|j: int| 0 <= j < l.len() ==> q_le(q_zero(), #[trigger] l[j]),
        forall|j: int|
            0 <= j < horizon(m, l) ==> q_le(q_add(#[trigger] m[j], #[trigger] l[j]), q_one()),
        t <= horizon(m, l),
    ensures
        q_wf(spec_inforce(m, l, init, term, t)),
        q_le(q_zero(), spec_inforce(m, l, init, term, t)),
    decreases t,
{
    if t > 0 {
        let t1 = (t - 1) as nat;
        lemma_inforce_nonneg(m, l, init, term, t1);
        let prev = spec_inforce(m, l, init, term, t1);
        if t1 < term {
            lemma_q_mul_wf(prev, m[t - 1]);
            lemma_q_mul_wf(prev, l[t - 1]);
            lemma_q_sub_wf(prev, q_mul(prev, m[t - 1]));
            lemma_q_sub_wf(q_sub(prev, q_mul(prev, m[t - 1])), q_mul(prev, l[t - 1]));
            lemma_q_decrement_nonneg(prev, m[t - 1], l[t - 1]);
        }
    }
}

/// With the same assumptions, the in-force count never increases from
/// one year to the next.
pub proof fn lemma_inforce_monotonic(m: Seq<Q>, l: Seq<Q>, init: Q, term: nat, t: nat)
    requires
        q_wf(init),
        all_wf(m),
        all_wf(l),
        q_le(q_zero(), init),
        forall|j: int| 0 <= j < m.len() ==> q_le(q_zero(), #[trigger] m[j]),
        forall|j: int| 0 <= j < l.len() ==> q_le(q_zero(), #[trigger] l[j]),
        forall|j: int|
            0 <= j < horizon(m, l) ==> q_le(q_add(#[trigger] m[j], #[trigger] l[j]), q_one()),
        t < horizon(m, l),
    ensures
        q_le(
            spec_inforce(m, l, init, term, (t + 1) as nat),
            spec_inforce(m, l, init, term, t),
        ),
{
    lemma_inforce_nonneg(m, l, init, term, t);
    let prev = spec_inforce(m, l, init, term, t);
    if t < term {
        let nd = q_mul(prev, m[t as int]);
        let nl = q_mul(prev, l[t as int]);
        lemma_q_mul_wf(prev, m[t as int]);
        lemma_q_mul_wf(prev, l[t as int]);
        lemma_q_mul_nonneg(prev, m[t as int]);
        lemma_q_mul_nonneg(prev, l[t as int]);
        lemma_q_sub_wf(prev, nd);
        lemma_q_sub_le(prev, nd);
        lemma_q_sub_wf(q_sub(prev, nd), nl);
        lemma_q_sub_le(q_sub(prev, nd), nl);
        lemma_q_le_trans(q_sub(q_sub(prev, nd), nl), q_sub(prev, nd), prev);
    }
}

/// The discount factor after `t` years is the `t`-th power of the
/// per-year factor, whatever the rates and the term do.
pub proof fn lemma_discount_pow(
    m: Seq<Q>,
    l: Seq<Q>,
    v: Q,
    sa: Q,
    prem: Q,
    init: Q,
    term: nat,
    t: nat,
)
    ensures
        proj(m, l, v, sa, prem, init, term, t).discount == q_pow(v, t),
    decreases t,
{
    if t > 0 {
        lemma_discount_pow(m, l, v, sa, prem, init, term, (t - 1) as nat);
    }
}

/// Past the term a year changes nothing but the accumulated value, and
/// what it adds is exactly the frozen in-force count times the premium,
/// discounted by the year's power of the per-year factor.  This is the
/// year-by-year content of the cutoff: the remaining horizon contributes
/// a discounted premium annuity on the frozen count.
pub proof fn lemma_frozen_step(
    m: Seq<Q>,
    l: Seq<Q>,
    v: Q,
    sa: Q,
    prem: Q,
    init: Q,
    term: nat,
    t: nat,
)
    requires
        q_wf(v),
        q_wf(sa),
        q_wf(prem),
        q_wf(init),
        all_wf(m),
        all_wf(l),
        term <= t,
        t < horizon(m, l),
    ensures
        proj(m, l, v, sa, prem, init, term, (t + 1) as nat).inforce == proj(
            m,
            l,
            v,
            sa,
            prem,
            init,
            term,
            t,
        ).inforce,
        q_eq(
            proj(m, l, v, sa, prem, init, term, (t + 1) as nat).result,
            q_add(
                proj(m, l, v, sa, prem, init, term, t).result,
                q_mul(
                    q_mul(proj(m, l, v, sa, prem, init, term, term).inforce, prem),
                    q_pow(v, t),
                ),
            ),
        ),
{
    let st = proj(m, l, v, sa, prem, init, term, t);
    let base = proj(m, l, v, sa, prem, init, term, term);
    lemma_proj_wf(m, l, v, sa, prem, init, term, t);
    lemma_proj_wf(m, l, v, sa, prem, init, term, term);
    lemma_q_pow_wf(v, t);
    let prems = q_mul(st.inforce, prem);
    let claims = q_mul(q_zero(), sa);
    let net = q_sub(prems, claims);
    lemma_q_mul_wf(st.inforce, prem);
    lemma_q_mul_wf(q_zero(), sa);
    assert(claims.n == 0);
    lemma_q_sub_zero_value(prems, claims);
    // The in-force count is frozen at its value at the term.
    lemma_proj_inforce(m, l, v, sa, prem, init, term, t);
    lemma_proj_inforce(m, l, v, sa, prem, init, term, term);
    lemma_term_freezes_inforce(m, l, init, term, t);
    assert(st.inforce == base.inforce);
    let x = q_mul(base.inforce, prem);
    lemma_q_mul_wf(base.inforce, prem);
    assert(prems == x);
    // The year's discount factor is the plain power.
    lemma_discount_pow(m, l, v, sa, prem, init, term, t);
    assert(st.discount == q_pow(v, t));
    lemma_q_mul_wf(x, q_pow(v, t));
    lemma_q_mul_congruence(net, x, st.discount, q_pow(v, t));
    lemma_q_mul_wf(net, st.discount);
    lemma_q_add_wf(st.result, q_mul(x, q_pow(v, t)));
    lemma_q_add_congruence(st.result, st.result, q_mul(net, st.discount), q_mul(x, q_pow(v, t)));
}

/// A term of `k` freezes the in-force count from year `k` on: every
/// later year carries exactly the same count.
pub proof fn lemma_term_freezes_inforce(m: Seq<Q>, l: Seq<Q>, init: Q, term: nat, t: nat)
    requires
        term <= t,
    ensures
        spec_inforce(m, l, init, term, t) == spec_inforce(m, l, init, term, term),
    decreases t,
{
    if t > term {
        lemma_term_freezes_inforce(m, l, init, term, (t - 1) as nat);
    }
}

/// Terms at or beyond the projected years are interchangeable: every
/// decrement is applied under either one.
pub proof fn lemma_term_beyond_horizon(
    m: Seq<Q>,
    l: Seq<Q>,
    v: Q,
    sa: Q,
    prem: Q,
    init: Q,
    ta: nat,
    tb: nat,
    t: nat,
)
    requires
        t <= ta,
        t <= tb,
    ensures
        proj(m, l, v, sa, prem, init, ta, t) == proj(m, l, v, sa, prem, init, tb, t),
    decreases t,
{
    if t > 0 {
        lemma_term_beyond_horizon(m, l, v, sa, prem, init, ta, tb, (t - 1) as nat);
    }
}

/// A rate is read only in a year both before `t` and before the term,
/// so schedules that agree on those years drive the model through
/// identical states.
pub proof fn lemma_proj_rates(
    m1: Seq<Q>,
    l1: Seq<Q>,
    m2: Seq<Q>,
    l2: Seq<Q>,
    v: Q,
    sa: Q,
    prem: Q,
    init: Q,
    term: nat,
    t: nat,
)
    requires
        forall|j: int| 0 <= j < t && j < term ==> #[trigger] m1[j] == m2[j],
        forall|j: int| 0 <= j < t && j < term ==> #[trigger] l1[j] == l2[j],
    ensures
        proj(m1, l1, v, sa, prem, init, term, t) == proj(m2, l2, v, sa, prem, init, term, t),
    decreases t,
{
    if t > 0 {
        assert forall|j: int| 0 <= j < (t - 1) as nat && j < term implies #[trigger] m1[j]
            == m2[j] by {
            assert(m1[j] == m2[j]);
        }
        assert forall|j: int| 0 <= j < (t - 1) as nat && j < term implies #[trigger] l1[j]
            == l2[j] by {
            assert(l1[j] == l2[j]);
        }
        lemma_proj_rates(m1, l1, m2, l2, v, sa, prem, init, term, (t - 1) as nat);
        if (t - 1) < term {
            assert(m1[t - 1] == m2[t - 1] && l1[t - 1] == l2[t - 1]);
        }
    }
}

/// The same, for the machine run: entries at or beyond the term are
/// never touched, so they cannot even change which calls overflow.
pub proof fn lemma_run_proj_rates(
    m1: Seq<Q>,
    l1: Seq<Q>,
    m2: Seq<Q>,
    l2: Seq<Q>,
    v: Q,
    sa: Q,
    prem: Q,
    init: Q,
    term: nat,
    t: nat,
)
    requires
        forall|j: int| 0 <= j < t && j < term ==> #[trigger] m1[j] == m2[j],
        forall|j: int| 0 <= j < t && j < term ==> #[trigger] l1[j] == l2[j],
    ensures
        run_proj(m1, l1, v, sa, prem, init, term, t) == run_proj(m2, l2, v, sa, prem, init, term, t),
    decreases t,
{
    if t > 0 {
        assert forall|j: int| 0 <= j < (t - 1) as nat && j < term implies #[trigger] m1[j]
            == m2[j] by {
            assert(m1[j] == m2[j]);
        }
        assert forall|j: int| 0 <= j < (t - 1) as nat && j < term implies #[trigger] l1[j]
            == l2[j] by {
            assert(l1[j] == l2[j]);
        }
        lemma_run_proj_rates(m1, l1, m2, l2, v, sa, prem, init, term, (t - 1) as nat);
        if (t - 1) < term {
            assert(m1[t - 1] == m2[t - 1] && l1[t - 1] == l2[t - 1]);
        }
    }
}

/// Two schedules of the same lengths that agree on every year before
/// the term give observationally identical projections: the same value,
/// and the same success or failure of the machine computation.
pub proof fn lemma_npv_insensitive_beyond_term(
    m1: Seq<Q>,
    l1: Seq<Q>,
    m2: Seq<Q>,
    l2: Seq<Q>,
    interest: Q,
    sa: Q,
    prem: Q,
    init: Q,
    term: nat,
)
    requires
        m1.len() == m2.len(),
        l1.len() == l2.len(),
        forall|j: int| 0 <= j < horizon(m1, l1) && j < term ==> #[trigger] m1[j] == m2[j],
        forall|j: int| 0 <= j < horizon(m1, l1) && j < term ==> #[trigger] l1[j] == l2[j],
    ensures
        spec_npv(m1, l1, interest, sa, prem, init, term) == spec_npv(
            m2,
            l2,
            interest,
            sa,
            prem,
            init,
            term,
        ),
        npv_run(m1, l1, interest, sa, prem, init, term) == npv_run(
            m2,
            l2,
            interest,
            sa,
            prem,
            init,
            term,
        ),
{
    let v = q_inv(q_add(q_one(), interest));
    lemma_proj_rates(m1, l1, m2, l2, v, sa, prem, init, term, horizon(m1, l1));
    match spec_checked_add(q_one(), interest) {
        Option::Some(op) => {
            lemma_run_proj_rates(m1, l1, m2, l2, q_inv(op), sa, prem, init, term, horizon(m1, l1));
        },
        Option::None => {},
    }
}

/// Entries past the shorter schedule are never read: trimming both
/// schedules to the projected years changes neither the value nor the
/// success of the machine computation.
pub proof fn lemma_npv_truncation(
    m: Seq<Q>,
    l: Seq<Q>,
    interest: Q,
    sa: Q,
    prem: Q,
    init: Q,
    term: nat,
)
    ensures
        spec_npv(
            m.take(horizon(m, l) as int),
            l.take(horizon(m, l) as int),
            interest,
            sa,
            prem,
            init,
            term,
        ) == spec_npv(m, l, interest, sa, prem, init, term),
        npv_run(
            m.take(horizon(m, l) as int),
            l.take(horizon(m, l) as int),
            interest,
            sa,
            prem,
            init,
            term,
        ) == npv_run(m, l, interest, sa, prem, init, term),
{
    let n = horizon(m, l) as int;
    let mt = m.take(n);
    let lt = l.take(n);
    assert(horizon(mt, lt) == horizon(m, l));
    assert forall|j: int| 0 <= j < horizon(mt, lt) && j < term implies #[trigger] mt[j]
        == m[j] by {
        assert(mt[j] == m[j]);
    }
    assert forall|j: int| 0 <= j < horizon(mt, lt) && j < term implies #[trigger] lt[j]
        == l[j] by {
        assert(lt[j] == l[j]);
    }
    let v = q_inv(q_add(q_one(), interest));
    lemma_proj_rates(mt, lt, m, l, v, sa, prem, init, term, horizon(m, l));
    match spec_checked_add(q_one(), interest) {
        Option::Some(op) => {
            lemma_run_proj_rates(mt, lt, m, l, q_inv(op), sa, prem, init, term, horizon(m, l));
        },
        Option::None => {},
    }
}

/// Terms at or beyond the projected years drive the machine run
/// identically too.
pub proof fn lemma_run_proj_term_beyond(
    m: Seq<Q>,
    l: Seq<Q>,
    v: Q,
    sa: Q,
    prem: Q,
    init: Q,
    ta: nat,
    tb: nat,
    t: nat,
)
    requires
        t <= ta,
        t <= tb,
    ensures
        run_proj(m, l, v, sa, prem, init, ta, t) == run_proj(m, l, v, sa, prem, init, tb, t),
    decreases t,
{
    if t > 0 {
        lemma_run_proj_term_beyond(m, l, v, sa, prem, init, ta, tb, (t - 1) as nat);
    }
}

/// An absent term and an explicit term equal to the length of the
/// mortality schedule resolve to the same projection, so the two calls
/// are interchangeable.
pub proof fn lemma_none_term_equivalence(
    m: Seq<Q>,
    l: Seq<Q>,
    interest: Q,
    sa: Q,
    prem: Q,
    init: Q,
    k: usize,
)
    requires
        k as nat == m.len(),
    ensures
        spec_npv(m, l, interest, sa, prem, init, resolved_term(Option::None, m.len())) == spec_npv(
            m,
            l,
            interest,
            sa,
            prem,
            init,
            resolved_term(Option::Some(k), m.len()),
        ),
        npv_run(m, l, interest, sa, prem, init, resolved_term(Option::None, m.len())) == npv_run(
            m,
            l,
            interest,
            sa,
            prem,
            init,
            resolved_term(Option::Some(k), m.len()),
        ),
{
}

/// The in-force count is well formed after any number of years.
pub proof fn lemma_spec_inforce_wf(m: Seq<Q>, l: Seq<Q>, init: Q, term: nat, t: nat)
    requires
        q_wf(init),
        all_wf(m),
        all_wf(l),
        t <= horizon(m, l),
    ensures
        q_wf(spec_inforce(m, l, init, term, t)),
    decreases t,
{
    if t > 0 {
        let t1 = (t - 1) as nat;
        lemma_spec_inforce_wf(m, l, init, term, t1);
        let prev = spec_inforce(m, l, init, term, t1);
        if t1 < term {
            lemma_q_mul_wf(prev, m[t - 1]);
            lemma_q_mul_wf(prev, l[t - 1]);
            lemma_q_sub_wf(prev, q_mul(prev, m[t - 1]));
            lemma_q_sub_wf(q_sub(prev, q_mul(prev, m[t - 1])), q_mul(prev, l[t - 1]));
        }
    }
}

/// The in-force trajectory: entry `t` is the count after `t` policy
/// years, so the vector has one entry more than the projected years.
/// Decrements apply only while `t < term`, exactly as in `npv`.  The
/// result is `None` exactly when `run_inforce` fails at the horizon;
/// each returned entry is exactly the representation `run_inforce`
/// gives, so equal calls return equal trajectories.
#[verifier::loop_isolation(false)]
#[verifier::rlimit(100)]
pub fn inforce_path(
    mortality_rates: &Vec<Rat>,
    lapse_rates: &Vec<Rat>,
    init_pols: Rat,
    term: Option<usize>,
) -> (r: Option<Vec<Rat>>)
    requires
        forall|i: int|
            0 <= i < mortality_rates.len() ==> (#[trigger] mortality_rates[i]).wf(),
        forall|i: int| 0 <= i < lapse_rates.len() ==> (#[trigger] lapse_rates[i]).wf(),
        init_pols.wf(),
    ensures
        r matches Some(p) ==> {
            &&& p@.len() == horizon(mortality_rates.deep_view(), lapse_rates.deep_view()) + 1
            &&& forall|j: int|
                0 <= j < p@.len() ==> (#[trigger] p@[j]).wf() && q_eq(
                    p@[j]@,
                    spec_inforce(
                        mortality_rates.deep_view(),
                        lapse_rates.deep_view(),
                        init_pols@,
                        resolved_term(term, mortality_rates@.len() as nat),
                        j as nat,
                    ),
                )
        },
        r is Some <==> run_inforce(
            mortality_rates.deep_view(),
            lapse_rates.deep_view(),
            init_pols@,
            resolved_term(term, mortality_rates@.len() as nat),
            horizon(mortality_rates.deep_view(), lapse_rates.deep_view()),
        ) is Some,
        r matches Some(p) ==> forall|j: int|
            0 <= j < p@.len() ==> Some((#[trigger] p@[j])@) == run_inforce(
                mortality_rates.deep_view(),
                lapse_rates.deep_view(),
                init_pols@,
                resolved_term(term, mortality_rates@.len() as nat),
                j as nat,
            ),
{
    let ghost ms = mortality_rates.deep_view();
    let ghost ls = lapse_rates.deep_view();
    let ghost inq = init_pols@;
    let ghost tmq = resolved_term(term, mortality_rates@.len() as nat);
    proof {
        assert forall|j: int| 0 <= j < ms.len() implies q_wf(#[trigger] ms[j]) by {
            assert(mortality_rates[j].wf());
        }
        assert forall|j: int| 0 <= j < ls.len() implies q_wf(#[trigger] ls[j]) by {
            assert(lapse_rates[j].wf());
        }
    }
    let n_m: usize = mortality_rates.len();
    let n_l: usize = lapse_rates.len();
    let n: usize = if n_m < n_l {
        n_m
    } else {
        n_l
    };
    let term_k: usize = match term {
        Some(k) => k,
        None => n_m,
    };
    let mut path: Vec<Rat> = Vec::new();
    let mut inforce: Rat = init_pols;
    path.push(inforce);
    let mut t: usize = 0;
    while t < n
        invariant
            t <= n,
            inforce.wf(),
            path@.len() == t + 1,
            q_eq(inforce@, spec_inforce(ms, ls, inq, tmq, t as nat)),
            run_inforce(ms, ls, inq, tmq, t as nat) == Some(inforce@),
            forall|j: int|
                0 <= j < path@.len() ==> (#[trigger] path@[j]).wf() && q_eq(
                    path@[j]@,
                    spec_inforce(ms, ls, inq, tmq, j as nat),
                ) && Some(path@[j]@) == run_inforce(ms, ls, inq, tmq, j as nat),
        decreases n - t,
    {
        proof {
            lemma_spec_inforce_wf(ms, ls, inq, tmq, t as nat);
            assert(ms[t as int] == mortality_rates[t as int]@);
            assert(ls[t as int] == lapse_rates[t as int]@);
        }
        let active: bool = t < term_k;
        let no_deaths: Rat;
        let no_lapses: Rat;
        if active {
            no_deaths = match inforce.checked_mul(mortality_rates[t]) {
                Some(x) => x,
                None => {
                    proof {
                        assert(run_inforce(ms, ls, inq, tmq, (t + 1) as nat) is None);
                        lemma_run_inforce_none(ms, ls, inq, tmq, (t + 1) as nat, n as nat);
                    }
                    return None;
                },
            };
            no_lapses = match inforce.checked_mul(lapse_rates[t]) {
                Some(x) => x,
                None => {
                    proof {
                        assert(run_inforce(ms, ls, inq, tmq, (t + 1) as nat) is None);
                        lemma_run_inforce_none(ms, ls, inq, tmq, (t + 1) as nat, n as nat);
                    }
                    return None;
                },
            };
        } else {
            no_deaths = Rat::zero();
            no_lapses = Rat::zero();
        }
        let after_deaths: Rat = match inforce.checked_sub(no_deaths) {
            Some(x) => x,
            None => {
                    proof {
                        assert(run_inforce(ms, ls, inq, tmq, (t + 1) as nat) is None);
                        lemma_run_inforce_none(ms, ls, inq, tmq, (t + 1) as nat, n as nat);
                    }
                    return None;
                },
        };
        let new_inforce: Rat = match after_deaths.checked_sub(no_lapses) {
            Some(x) => x,
            None => {
                    proof {
                        assert(run_inforce(ms, ls, inq, tmq, (t + 1) as nat) is None);
                        lemma_run_inforce_none(ms, ls, inq, tmq, (t + 1) as nat, n as nat);
                    }
                    return None;
                },
        };
        proof {
            let prev = spec_inforce(ms, ls, inq, tmq, t as nat);
            // The two machine subtractions compose to the nested model
            // subtraction.
            lemma_q_sub_wf(inforce@, no_deaths@);
            lemma_q_sub_congruence(
                after_deaths@,
                q_sub(inforce@, no_deaths@),
                no_lapses@,
                no_lapses@,
            );
            lemma_q_sub_wf(q_sub(inforce@, no_deaths@), no_lapses@);
            lemma_q_eq_trans(
                new_inforce@,
                q_sub(after_deaths@, no_lapses@),
                q_sub(q_sub(inforce@, no_deaths@), no_lapses@),
            );
            if active {
                let nd_s = q_mul(prev, ms[t as int]);
                let nl_s = q_mul(prev, ls[t as int]);
                lemma_q_mul_wf(prev, ms[t as int]);
                lemma_q_mul_wf(prev, ls[t as int]);
                lemma_q_mul_congruence(inforce@, prev, ms[t as int], ms[t as int]);
                lemma_q_eq_trans(no_deaths@, q_mul(inforce@, ms[t as int]), nd_s);
                lemma_q_mul_congruence(inforce@, prev, ls[t as int], ls[t as int]);
                lemma_q_eq_trans(no_lapses@, q_mul(inforce@, ls[t as int]), nl_s);
                lemma_q_sub_wf(prev, nd_s);
                lemma_q_sub_congruence(inforce@, prev, no_deaths@, nd_s);
                lemma_q_sub_wf(q_sub(prev, nd_s), nl_s);
                lemma_q_sub_congruence(
                    q_sub(inforce@, no_deaths@),
                    q_sub(prev, nd_s),
                    no_lapses@,
                    nl_s,
                );
                lemma_q_eq_trans(
                    new_inforce@,
                    q_sub(q_sub(inforce@, no_deaths@), no_lapses@),
                    q_sub(q_sub(prev, nd_s), nl_s),
                );
            } else {
                lemma_q_sub_zero(inforce@);
                assert(q_sub(inforce@, no_deaths@) == inforce@);
                assert(q_sub(q_sub(inforce@, no_deaths@), no_lapses@) == inforce@);
                lemma_q_eq_trans(new_inforce@, inforce@, prev);
            }
            assert(run_inforce(ms, ls, inq, tmq, (t + 1) as nat) == Some(new_inforce@));
        }
        path.push(new_inforce);
        inforce = new_inforce;
        t = t + 1;
    }
    Some(path)
}

} // verus!
