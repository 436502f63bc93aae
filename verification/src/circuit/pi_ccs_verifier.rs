//! The in-circuit Π_CCS verifier: the final `Q(r')` reconstruction.
//!
//! The native verifier accepts iff the sum-check's reduced claim equals the combined
//! oracle rebuilt from the claimed evaluations:
//!
//! ```text
//! Q(r') = eq(r', alpha) (F + gamma^K NC) + gamma^(2K+k) Eval
//! F     = sum_{i<K}   gamma^i f(ct(y'_{i,0}), ..., ct(y'_{i,t-1}))
//! NC    = sum_{i<K+k} gamma^i prod_{|j|<b} (ct(y'_{i,0}) - j)
//! Eval  = eq(r', r) sum_{ci,j,l} gamma^(ci + k j + k t l) cf(y'_{K+ci,j})_l
//! ```
//!
//! This module synthesizes that reconstruction over `K` wires and ties it to the wire
//! the sum-check chain reduces to. The sum-check point `r'` is the same set of
//! challenge wires the chain consumes. The challenges `alpha, gamma, r'` are advice.

use vstd::prelude::*;

use crate::circuit::cs::{
    cs_extends, cs_satisfied, cs_wf, lemma_extends_refl, lemma_extends_trans, lemma_lc_value_lt, ConstraintSystem,
    CsView,
};
use crate::circuit::gadgets::{kv_valid, kv_value, KVar};
use crate::circuit::sumcheck_verifier::{
    chain_claim, chain_ok, law_sumcheck_circuit_matches_verifier, kvs_valid, kvs_value, lemma_kv_stable, lemma_kvs_stable, rounds_view, synthesize_sumcheck_verifier,
};
use crate::ext2::{
    e2_add, e2_base, e2_canon, e2_mul, e2_one, e2_pow, e2_scale, e2_seq, e2_sub, e2_zero, lemma_e2_mul_assoc,
    lemma_e2_mul_comm, lemma_e2_mul_one, lemma_e2_pow_canon, Ext2, E2,
};
use crate::fp::{fmod, fmul, lemma_fp_lt_q, Fp};
use crate::multilinear::{eq_factor, eq_spec};
use crate::pi_ccs::{
    dims_ok, lemma_dims, max_gamma_spec, piccs_alpha, piccs_bound, piccs_claimed, piccs_degree, piccs_final_claim,
    piccs_gamma, piccs_gpow, piccs_gpow_of, piccs_q, piccs_rprime, piccs_sc_ok, piccs_shape_ok, piccs_t2, PiCcsTrace, q_from_evals, range_poly, range_prod, rows_views,
};
use crate::ring_k::{lemma_rk_wf, RingK};
use crate::sumcheck::{sc_point, sc_round_ok, sc_round_shaped};
use crate::transcript::TrView;
use crate::types::{term_eval, CcsInstance, CcsStructure, CeInstance, GlobalParams, PiCcsProof, SparsePoly};

verus! {

broadcast use {lemma_fp_lt_q, lemma_rk_wf};

/// The value of a `K` wire is a canonical pair.
pub proof fn lemma_kv_canon(k: KVar, w: Seq<nat>)
    ensures
        e2_canon(kv_value(k, w)),
{
    lemma_lc_value_lt(k.c0@, w);
    lemma_lc_value_lt(k.c1@, w);
}

/// The chain `gamma^0, ..., gamma^hi` as wires: `gamma^0 = 1` is a constant and each
/// further power is one multiplication by `gamma`.
fn gamma_power_chain(cs: &mut ConstraintSystem, gamma: &KVar, hi: usize) -> (p: Vec<KVar>)
    requires
        cs_wf(old(cs)@),
        kv_valid(*gamma, old(cs)@.0.len()),
        hi < usize::MAX,
    ensures
        cs_wf(final(cs)@),
        cs_extends(old(cs)@, final(cs)@),
        cs_satisfied(final(cs)@) <==> cs_satisfied(old(cs)@),
        p@.len() == hi + 1,
        kvs_valid(p@, final(cs)@.0.len()),
        forall|i: int| 0 <= i <= hi ==> #[trigger] kvs_value(p@, final(cs)@.0)[i] == e2_pow(
            kv_value(*gamma, old(cs)@.0),
            i as nat,
        ),
{
    let ghost s0 = cs@;
    let ghost gv = kv_value(*gamma, s0.0);
    proof {
        lemma_extends_refl(s0);
    }
    let mut p: Vec<KVar> = Vec::new();
    p.push(KVar::constant(cs, Ext2::one()));
    let mut i: usize = 1;
    while i <= hi
        invariant
            1 <= i <= hi + 1,
            hi < usize::MAX,
            cs_wf(s0),
            cs_wf(cs@),
            cs_extends(s0, cs@),
            cs_satisfied(cs@) <==> cs_satisfied(s0),
            kv_valid(*gamma, s0.0.len()),
            gv == kv_value(*gamma, s0.0),
            p@.len() == i,
            kvs_valid(p@, cs@.0.len()),
            forall|t: int| 0 <= t < i ==> #[trigger] kvs_value(p@, cs@.0)[t] == e2_pow(gv, t as nat),
        decreases hi + 1 - i,
    {
        let ghost s1 = cs@;
        proof {
            lemma_kv_stable(*gamma, s0, s1);
            assert(kv_valid(p@[i - 1], s1.0.len()));
            assert(kvs_value(p@, s1.0)[i - 1] == e2_pow(gv, (i - 1) as nat));
        }
        let next = p[i - 1].mul(cs, gamma);
        let ghost old_p = p@;
        proof {
            lemma_extends_trans(s0, s1, cs@);
            lemma_kvs_stable(p@, s1, cs@);
        }
        p.push(next);
        proof {
            assert forall|t: int| 0 <= t < i + 1 implies #[trigger] kvs_value(p@, cs@.0)[t] == e2_pow(
                gv,
                t as nat,
            ) by {
                if t < i {
                    assert(p@[t] == old_p[t]);
                    assert(kvs_value(old_p, cs@.0)[t] == kvs_value(old_p, s1.0)[t]);
                }
            }
            assert forall|t: int| 0 <= t < p@.len() implies kv_valid(#[trigger] p@[t], cs@.0.len()) by {
                if t < i {
                    assert(p@[t] == old_p[t]);
                }
            }
        }
        i = i + 1;
    }
    p
}

/// Multiply a running product by one more factor; with no product yet, the factor
/// itself starts it.
fn mul_acc(cs: &mut ConstraintSystem, acc: Option<KVar>, factor: KVar) -> (r: KVar)
    requires
        cs_wf(old(cs)@),
        kv_valid(factor, old(cs)@.0.len()),
        acc matches Some(x) ==> kv_valid(x, old(cs)@.0.len()),
    ensures
        cs_wf(final(cs)@),
        cs_extends(old(cs)@, final(cs)@),
        cs_satisfied(final(cs)@) <==> cs_satisfied(old(cs)@),
        kv_valid(r, final(cs)@.0.len()),
        kv_value(r, final(cs)@.0) == match acc {
            None => kv_value(factor, old(cs)@.0),
            Some(x) => e2_mul(kv_value(x, old(cs)@.0), kv_value(factor, old(cs)@.0)),
        },
{
    proof {
        lemma_extends_refl(cs@);
    }
    match acc {
        None => factor,
        Some(prev) => prev.mul(cs, &factor),
    }
}

/// One factor `a b + (1 - a)(1 - b)` of `eq`.
fn eq_factor_circuit(cs: &mut ConstraintSystem, a: &KVar, b: &KVar, one: &KVar) -> (r: KVar)
    requires
        cs_wf(old(cs)@),
        kv_valid(*a, old(cs)@.0.len()),
        kv_valid(*b, old(cs)@.0.len()),
        kv_valid(*one, old(cs)@.0.len()),
        kv_value(*one, old(cs)@.0) == e2_one(),
    ensures
        cs_wf(final(cs)@),
        cs_extends(old(cs)@, final(cs)@),
        cs_satisfied(final(cs)@) <==> cs_satisfied(old(cs)@),
        kv_valid(r, final(cs)@.0.len()),
        kv_value(r, final(cs)@.0) == eq_factor(kv_value(*a, old(cs)@.0), kv_value(*b, old(cs)@.0)),
{
    let ghost s0 = cs@;
    let ab = a.mul(cs, b);
    let ghost s1 = cs@;
    let lo = one.sub(a);
    let hi = one.sub(b);
    proof {
        lemma_kv_stable(*a, s0, s1);
        lemma_kv_stable(*b, s0, s1);
        lemma_kv_stable(*one, s0, s1);
    }
    let comp = lo.mul(cs, &hi);
    proof {
        lemma_extends_trans(s0, s1, cs@);
        lemma_kv_stable(ab, s1, cs@);
    }
    ab.add(&comp)
}

/// In-circuit `eq(a, b) = prod_i (a_i b_i + (1 - a_i)(1 - b_i))`; the empty product is
/// the constant one.
fn eq_circuit(cs: &mut ConstraintSystem, a: &[KVar], b: &[KVar]) -> (out: KVar)
    requires
        cs_wf(old(cs)@),
        a@.len() == b@.len(),
        kvs_valid(a@, old(cs)@.0.len()),
        kvs_valid(b@, old(cs)@.0.len()),
    ensures
        cs_wf(final(cs)@),
        cs_extends(old(cs)@, final(cs)@),
        cs_satisfied(final(cs)@) <==> cs_satisfied(old(cs)@),
        kv_valid(out, final(cs)@.0.len()),
        kv_value(out, final(cs)@.0) == eq_spec(
            kvs_value(a@, old(cs)@.0),
            kvs_value(b@, old(cs)@.0),
            a@.len() as int,
        ),
{
    let ghost s0 = cs@;
    let ghost av = kvs_value(a@, s0.0);
    let ghost bv = kvs_value(b@, s0.0);
    proof {
        lemma_extends_refl(s0);
    }
    let one = KVar::constant(cs, Ext2::one());
    let mut acc: Option<KVar> = None;
    let mut i: usize = 0;
    while i < a.len()
        invariant
            i <= a@.len(),
            a@.len() == b@.len(),
            cs_wf(s0),
            cs_wf(cs@),
            cs_extends(s0, cs@),
            cs_satisfied(cs@) <==> cs_satisfied(s0),
            kvs_valid(a@, s0.0.len()),
            kvs_valid(b@, s0.0.len()),
            av == kvs_value(a@, s0.0),
            bv == kvs_value(b@, s0.0),
            kv_valid(one, s0.0.len()),
            kv_value(one, s0.0) == e2_one(),
            i == 0 <==> acc is None,
            acc matches Some(x) ==> kv_valid(x, cs@.0.len()) && kv_value(x, cs@.0) == eq_spec(av, bv, i as int),
        decreases a@.len() - i,
    {
        let ghost s1 = cs@;
        proof {
            lemma_kv_stable(a@[i as int], s0, s1);
            lemma_kv_stable(b@[i as int], s0, s1);
            lemma_kv_stable(one, s0, s1);
        }
        let factor = eq_factor_circuit(cs, &a[i], &b[i], &one);
        let ghost s2 = cs@;
        proof {
            lemma_extends_trans(s0, s1, s2);
            if i > 0 {
                lemma_kv_stable(acc->0, s1, s2);
            } else {
                lemma_kv_canon(factor, s2.0);
                lemma_e2_mul_one(kv_value(factor, s2.0));
            }
        }
        let next = mul_acc(cs, acc, factor);
        proof {
            lemma_extends_trans(s0, s2, cs@);
        }
        acc = Some(next);
        i = i + 1;
    }
    match acc {
        Some(x) => x,
        None => {
            proof {
                lemma_kv_stable(one, s0, cs@);
            }
            one
        },
    }
}

/// In-circuit `prod_{j = -(b-1)}^{b-1} (z - j)`; the empty product is the constant one.
fn range_product_circuit(cs: &mut ConstraintSystem, z: &KVar, b: u64) -> (out: KVar)
    requires
        cs_wf(old(cs)@),
        kv_valid(*z, old(cs)@.0.len()),
        1 <= b <= 0x3FFF_FFFF_FFFF_FFFF,
    ensures
        cs_wf(final(cs)@),
        cs_extends(old(cs)@, final(cs)@),
        cs_satisfied(final(cs)@) <==> cs_satisfied(old(cs)@),
        kv_valid(out, final(cs)@.0.len()),
        kv_value(out, final(cs)@.0) == range_poly(kv_value(*z, old(cs)@.0), b as int),
{
    let ghost s0 = cs@;
    let ghost zv = kv_value(*z, s0.0);
    proof {
        lemma_extends_refl(s0);
    }
    let bi = b as i64;
    let mut acc: Option<KVar> = None;
    let mut idx: i64 = 0;
    while idx < 2 * bi - 1
        invariant
            1 <= b <= 0x3FFF_FFFF_FFFF_FFFF,
            bi == b,
            0 <= idx <= 2 * bi - 1,
            cs_wf(s0),
            cs_wf(cs@),
            cs_extends(s0, cs@),
            cs_satisfied(cs@) <==> cs_satisfied(s0),
            kv_valid(*z, s0.0.len()),
            zv == kv_value(*z, s0.0),
            idx == 0 <==> acc is None,
            acc matches Some(x) ==> kv_valid(x, cs@.0.len()) && kv_value(x, cs@.0) == range_prod(
                zv,
                b as int,
                idx as int,
            ),
        decreases 2 * bi - 1 - idx,
    {
        let ghost s1 = cs@;
        let j = idx - (bi - 1);
        let cj = KVar::constant(cs, Ext2::from_base(Fp::from_i64(j)));
        let factor = z.sub(&cj);
        let ghost fv = e2_sub(zv, e2_base(fmod(idx - (b - 1))));
        proof {
            lemma_kv_stable(*z, s0, s1);
            assert(kv_value(factor, s1.0) == fv);
            if idx == 0 {
                lemma_kv_canon(factor, s1.0);
                lemma_e2_mul_one(fv);
            }
        }
        let ghost prev_acc = acc;
        let next = mul_acc(cs, acc, factor);
        proof {
            lemma_extends_trans(s0, s1, cs@);
            assert(range_prod(zv, b as int, idx + 1) == e2_mul(range_prod(zv, b as int, idx as int), fv));
            if idx == 0 {
                assert(range_prod(zv, b as int, 0) == e2_one());
            } else {
                assert(kv_value(prev_acc->0, s1.0) == range_prod(zv, b as int, idx as int));
            }
            assert(kv_value(next, cs@.0) == range_prod(zv, b as int, idx + 1));
        }
        acc = Some(next);
        idx = idx + 1;
    }
    match acc {
        Some(x) => x,
        None => KVar::constant(cs, Ext2::one()),
    }
}

/// The value of a running product: one while it is empty.
pub open spec fn opt_value(acc: Option<KVar>, w: Seq<nat>) -> E2 {
    match acc {
        None => e2_one(),
        Some(x) => kv_value(x, w),
    }
}

/// `prod_{v < n} args[v]^exps[v]`.
pub open spec fn monomial(args: Seq<E2>, exps: Seq<u32>, n: int) -> E2
    decreases n,
{
    if n <= 0 {
        e2_one()
    } else {
        e2_mul(monomial(args, exps, n - 1), e2_pow(args[n - 1], exps[n - 1] as nat))
    }
}

/// A term is its coefficient times its monomial.
pub proof fn lemma_term_monomial(coeff: nat, args: Seq<E2>, exps: Seq<u32>, n: int)
    requires
        coeff < crate::Q,
    ensures
        term_eval(coeff, args, exps, n) == e2_mul(e2_base(coeff), monomial(args, exps, n)),
    decreases n,
{
    if n <= 0 {
        lemma_e2_mul_one(e2_base(coeff));
    } else {
        lemma_term_monomial(coeff, args, exps, n - 1);
        lemma_e2_mul_assoc(
            e2_base(coeff),
            monomial(args, exps, n - 1),
            e2_pow(args[n - 1], exps[n - 1] as nat),
        );
    }
}

/// Scaling by a base element is multiplying by its embedding.
pub proof fn lemma_scale_is_mul(a: E2, c: nat)
    ensures
        e2_scale(a, c) == e2_mul(e2_base(c), a),
{
    lemma_e2_mul_comm(a, e2_base(c));
    assert(a.1 * 0 == 0);
    assert(a.0 * 0 == 0);
}

/// Multiply a running product by `a^e`, one multiplication per factor.
fn pow_acc(cs: &mut ConstraintSystem, prod: Option<KVar>, a: &KVar, e: u32) -> (r: Option<KVar>)
    requires
        cs_wf(old(cs)@),
        kv_valid(*a, old(cs)@.0.len()),
        prod matches Some(x) ==> kv_valid(x, old(cs)@.0.len()),
    ensures
        cs_wf(final(cs)@),
        cs_extends(old(cs)@, final(cs)@),
        cs_satisfied(final(cs)@) <==> cs_satisfied(old(cs)@),
        r is None <==> (prod is None && e == 0),
        r matches Some(x) ==> kv_valid(x, final(cs)@.0.len()),
        opt_value(r, final(cs)@.0) == e2_mul(
            opt_value(prod, old(cs)@.0),
            e2_pow(kv_value(*a, old(cs)@.0), e as nat),
        ),
{
    let ghost s0 = cs@;
    let ghost av = kv_value(*a, s0.0);
    let ghost pv0 = opt_value(prod, s0.0);
    proof {
        lemma_extends_refl(s0);
        if prod is Some {
            lemma_kv_canon(prod->0, s0.0);
        }
        lemma_e2_mul_one(pv0);
        lemma_kv_canon(*a, s0.0);
    }
    let ghost was_none = prod is None;
    let mut prod = prod;
    let mut r: u32 = 0;
    while r < e
        invariant
            r <= e,
            cs_wf(s0),
            cs_wf(cs@),
            cs_extends(s0, cs@),
            cs_satisfied(cs@) <==> cs_satisfied(s0),
            kv_valid(*a, s0.0.len()),
            av == kv_value(*a, s0.0),
            e2_canon(av),
            e2_canon(pv0),
            was_none ==> pv0 == e2_one(),
            prod is None <==> (was_none && r == 0),
            prod matches Some(x) ==> kv_valid(x, cs@.0.len()),
            opt_value(prod, cs@.0) == e2_mul(pv0, e2_pow(av, r as nat)),
        decreases e - r,
    {
        let ghost s1 = cs@;
        let ghost before = opt_value(prod, s1.0);
        proof {
            lemma_kv_stable(*a, s0, s1);
            lemma_e2_pow_canon(av, r as nat);
            lemma_e2_mul_assoc(pv0, e2_pow(av, r as nat), av);
            if prod is None {
                lemma_e2_mul_one(av);
                lemma_e2_mul_one(e2_pow(av, 1));
            }
        }
        let next = mul_acc(cs, prod, a.duplicate());
        proof {
            lemma_extends_trans(s0, s1, cs@);
            assert(kv_value(next, cs@.0) == e2_mul(before, av));
        }
        prod = Some(next);
        r = r + 1;
    }
    prod
}


/// In-circuit `f(args) = sum_terms coeff prod_v args[v]^(exp_v)`; a term with an empty
/// monomial is its constant coefficient.
fn eval_f_circuit(cs: &mut ConstraintSystem, f: &SparsePoly, args: &Vec<KVar>) -> (out: KVar)
    requires
        cs_wf(old(cs)@),
        f.wf(),
        args@.len() == f.t,
        kvs_valid(args@, old(cs)@.0.len()),
    ensures
        cs_wf(final(cs)@),
        cs_extends(old(cs)@, final(cs)@),
        cs_satisfied(final(cs)@) <==> cs_satisfied(old(cs)@),
        kv_valid(out, final(cs)@.0.len()),
        kv_value(out, final(cs)@.0) == f.eval_spec(kvs_value(args@, old(cs)@.0)),
{
    let ghost s0 = cs@;
    let ghost av = kvs_value(args@, s0.0);
    proof {
        lemma_extends_refl(s0);
    }
    let mut acc = KVar::constant(cs, Ext2::zero());
    let mut i: usize = 0;
    while i < f.terms.len()
        invariant
            i <= f.terms@.len(),
            f.wf(),
            args@.len() == f.t,
            cs_wf(s0),
            cs_wf(cs@),
            cs_extends(s0, cs@),
            cs_satisfied(cs@) <==> cs_satisfied(s0),
            kvs_valid(args@, s0.0.len()),
            av == kvs_value(args@, s0.0),
            kv_valid(acc, cs@.0.len()),
            kv_value(acc, cs@.0) == crate::types::poly_eval(f.terms@, av, i as int),
        decreases f.terms@.len() - i,
    {
        let coeff = f.terms[i].0;
        let exps = &f.terms[i].1;
        let ghost s1 = cs@;
        proof {
            lemma_extends_refl(s1);
        }
        let mut prod: Option<KVar> = None;
        let mut v: usize = 0;
        while v < exps.len()
            invariant
                v <= exps@.len(),
                exps@.len() == args@.len(),
                cs_wf(s0),
                cs_wf(s1),
                cs_wf(cs@),
                cs_extends(s0, s1),
                cs_extends(s1, cs@),
                cs_satisfied(cs@) <==> cs_satisfied(s1),
                kvs_valid(args@, s0.0.len()),
                av == kvs_value(args@, s0.0),
                prod matches Some(x) ==> kv_valid(x, cs@.0.len()),
                opt_value(prod, cs@.0) == monomial(av, exps@, v as int),
            decreases exps@.len() - v,
        {
            let ghost s2 = cs@;
            proof {
                lemma_extends_trans(s0, s1, s2);
                lemma_kv_stable(args@[v as int], s0, s2);
            }
            prod = pow_acc(cs, prod, &args[v], exps[v]);
            proof {
                lemma_extends_trans(s1, s2, cs@);
            }
            v = v + 1;
        }
        let ghost mono = monomial(av, exps@, exps@.len() as int);
        let ghost s3 = cs@;
        proof {
            lemma_term_monomial(coeff@, av, exps@, exps@.len() as int);
            lemma_extends_trans(s0, s1, s3);
        }
        let term = match prod {
            None => {
                proof {
                    lemma_e2_mul_one(e2_base(coeff@));
                }
                KVar::constant(cs, Ext2::from_base(coeff))
            },
            Some(p) => {
                proof {
                    lemma_scale_is_mul(mono, coeff@);
                }
                p.scale(coeff)
            },
        };
        proof {
            lemma_kv_stable(acc, s1, s3);
            assert(kv_value(term, s3.0) == term_eval(coeff@, av, exps@, exps@.len() as int));
        }
        acc = acc.add(&term);
        i = i + 1;
    }
    acc
}

/// Every wire of a table of `K` wires only uses variables below `n`.
pub open spec fn kvss_valid(v: Seq<Vec<KVar>>, n: nat) -> bool {
    forall|i: int| 0 <= i < v.len() ==> kvs_valid(#[trigger] v[i]@, n)
}

/// A table of `K` wires keeps its values and validity when the system grows.
pub proof fn lemma_kvss_stable(v: Seq<Vec<KVar>>, old: CsView, new: CsView)
    requires
        cs_extends(old, new),
        kvss_valid(v, old.0.len()),
    ensures
        kvss_valid(v, new.0.len()),
        forall|i: int| 0 <= i < v.len() ==> #[trigger] kvs_value(v[i]@, new.0) == kvs_value(v[i]@, old.0),
{
    assert forall|i: int| 0 <= i < v.len() implies kvs_valid(#[trigger] v[i]@, new.0.len()) && kvs_value(
        v[i]@,
        new.0,
    ) == kvs_value(v[i]@, old.0) by {
        lemma_kvs_stable(v[i]@, old, new);
    }
}

/// Allocate the constant terms `ct(evals[i][j])` of the claimed evaluations, row by row.
fn alloc_constant_terms(cs: &mut ConstraintSystem, evals: &Vec<Vec<RingK>>, t: usize) -> (ct: Vec<Vec<KVar>>)
    requires
        cs_wf(old(cs)@),
        forall|i: int| 0 <= i < evals@.len() ==> (#[trigger] evals@[i])@.len() == t,
    ensures
        cs_wf(final(cs)@),
        cs_extends(old(cs)@, final(cs)@),
        cs_satisfied(final(cs)@) <==> cs_satisfied(old(cs)@),
        ct@.len() == evals@.len(),
        kvss_valid(ct@, final(cs)@.0.len()),
        forall|i: int| 0 <= i < evals@.len() ==> (#[trigger] ct@[i])@.len() == t,
        forall|i: int, j: int|
            0 <= i < evals@.len() && 0 <= j < t ==> #[trigger] kvs_value(ct@[i]@, final(cs)@.0)[j]
                == rows_views(evals@)[i][j][0],
{
    let ghost s0 = cs@;
    let ghost ev = rows_views(evals@);
    proof {
        lemma_extends_refl(s0);
    }
    let mut ct: Vec<Vec<KVar>> = Vec::new();
    let mut i: usize = 0;
    while i < evals.len()
        invariant
            i <= evals@.len(),
            ev == rows_views(evals@),
            forall|i2: int| 0 <= i2 < evals@.len() ==> (#[trigger] evals@[i2])@.len() == t,
            cs_wf(s0),
            cs_wf(cs@),
            cs_extends(s0, cs@),
            cs_satisfied(cs@) <==> cs_satisfied(s0),
            ct@.len() == i,
            kvss_valid(ct@, cs@.0.len()),
            forall|i2: int| 0 <= i2 < i ==> (#[trigger] ct@[i2])@.len() == t,
            forall|i2: int, j: int|
                0 <= i2 < i && 0 <= j < t ==> #[trigger] kvs_value(ct@[i2]@, cs@.0)[j] == ev[i2][j][0],
        decreases evals@.len() - i,
    {
        let ghost s1 = cs@;
        let row = &evals[i];
        let mut vals: Vec<Ext2> = Vec::new();
        let mut j: usize = 0;
        while j < t
            invariant
                j <= t,
                row@.len() == t,
                vals@.len() == j,
                forall|j2: int| 0 <= j2 < j ==> (#[trigger] vals@[j2])@ == row@[j2]@[0],
            decreases t - j,
        {
            vals.push(row[j].ct());
            j = j + 1;
        }
        let w = crate::circuit::sumcheck_verifier::alloc_k_wires(cs, &vals);
        let ghost old_ct = ct@;
        proof {
            lemma_extends_trans(s0, s1, cs@);
            lemma_kvss_stable(ct@, s1, cs@);
        }
        ct.push(w);
        proof {
            assert forall|i2: int| 0 <= i2 < ct@.len() implies kvs_valid(#[trigger] ct@[i2]@, cs@.0.len()) by {
                if i2 < i {
                    assert(ct@[i2] == old_ct[i2]);
                }
            }
            assert forall|i2: int, j2: int|
                0 <= i2 < i + 1 && 0 <= j2 < t implies #[trigger] kvs_value(ct@[i2]@, cs@.0)[j2]
                == ev[i2][j2][0] by {
                if i2 < i {
                    assert(ct@[i2] == old_ct[i2]);
                    assert(kvs_value(old_ct[i2]@, cs@.0) == kvs_value(old_ct[i2]@, s1.0));
                } else {
                    assert(e2_seq(vals@)[j2] == vals@[j2]@);
                }
            }
        }
        i = i + 1;
    }
    ct
}

/// The coefficient wires of one carried claim `y`: coefficient 0 reuses the wire of its
/// constant term, the others are allocated.
fn carried_coeffs(cs: &mut ConstraintSystem, y: &RingK, c0: &KVar) -> (v: Vec<KVar>)
    requires
        cs_wf(old(cs)@),
        kv_valid(*c0, old(cs)@.0.len()),
        kv_value(*c0, old(cs)@.0) == y@[0],
    ensures
        cs_wf(final(cs)@),
        cs_extends(old(cs)@, final(cs)@),
        cs_satisfied(final(cs)@) <==> cs_satisfied(old(cs)@),
        kvs_valid(v@, final(cs)@.0.len()),
        kvs_value(v@, final(cs)@.0) == y@,
{
    let ghost s0 = cs@;
    assert(crate::ring_k::rk_wf(y@));
    let mut vals: Vec<Ext2> = Vec::new();
    let mut l: usize = 1;
    while l < 54
        invariant
            1 <= l <= 54,
            y@.len() == 54,
            vals@.len() == l - 1,
            forall|l2: int| 0 <= l2 < l - 1 ==> (#[trigger] vals@[l2])@ == y@[l2 + 1],
        decreases 54 - l,
    {
        vals.push(y.coeff(l));
        l = l + 1;
    }
    let rest = crate::circuit::sumcheck_verifier::alloc_k_wires(cs, &vals);
    let mut v: Vec<KVar> = Vec::new();
    v.push(c0.duplicate());
    let mut l: usize = 0;
    while l < rest.len()
        invariant
            l <= rest@.len(),
            rest@.len() == 53,
            v@.len() == l + 1,
            v@[0].c0@ == c0.c0@,
            v@[0].c1@ == c0.c1@,
            forall|l2: int| 0 < l2 <= l ==> (#[trigger] v@[l2]).c0@ == rest@[l2 - 1].c0@ && v@[l2].c1@ == rest@[l2
                - 1].c1@,
        decreases rest@.len() - l,
    {
        v.push(rest[l].duplicate());
        l = l + 1;
    }
    proof {
        lemma_kv_stable(*c0, s0, cs@);
        assert forall|l2: int| 0 <= l2 < v@.len() implies kv_valid(#[trigger] v@[l2], cs@.0.len()) && kv_value(
            v@[l2],
            cs@.0,
        ) == y@[l2] by {
            if l2 > 0 {
                assert(kvs_value(rest@, cs@.0)[l2 - 1] == e2_seq(vals@)[l2 - 1]);
            }
        }
        assert(kvs_value(v@, cs@.0) =~= y@);
    }
    v
}

/// The coefficient wires of one carried instance's `t` claims.
fn carried_row(cs: &mut ConstraintSystem, row: &Vec<RingK>, ct_row: &Vec<KVar>) -> (out: Vec<Vec<KVar>>)
    requires
        cs_wf(old(cs)@),
        ct_row@.len() == row@.len(),
        kvs_valid(ct_row@, old(cs)@.0.len()),
        forall|j: int| 0 <= j < row@.len() ==> #[trigger] kvs_value(ct_row@, old(cs)@.0)[j] == row@[j]@[0],
    ensures
        cs_wf(final(cs)@),
        cs_extends(old(cs)@, final(cs)@),
        cs_satisfied(final(cs)@) <==> cs_satisfied(old(cs)@),
        out@.len() == row@.len(),
        kvss_valid(out@, final(cs)@.0.len()),
        forall|j: int| 0 <= j < row@.len() ==> #[trigger] kvs_value(out@[j]@, final(cs)@.0) == row@[j]@,
{
    let ghost s0 = cs@;
    proof {
        lemma_extends_refl(s0);
    }
    let mut out: Vec<Vec<KVar>> = Vec::new();
    let mut j: usize = 0;
    while j < row.len()
        invariant
            j <= row@.len(),
            ct_row@.len() == row@.len(),
            kvs_valid(ct_row@, s0.0.len()),
            forall|j2: int| 0 <= j2 < row@.len() ==> #[trigger] kvs_value(ct_row@, s0.0)[j2] == row@[j2]@[0],
            cs_wf(s0),
            cs_wf(cs@),
            cs_extends(s0, cs@),
            cs_satisfied(cs@) <==> cs_satisfied(s0),
            out@.len() == j,
            kvss_valid(out@, cs@.0.len()),
            forall|j2: int| 0 <= j2 < j ==> #[trigger] kvs_value(out@[j2]@, cs@.0) == row@[j2]@,
        decreases row@.len() - j,
    {
        let ghost s1 = cs@;
        proof {
            lemma_kv_stable(ct_row@[j as int], s0, s1);
            assert(kvs_value(ct_row@, s0.0)[j as int] == row@[j as int]@[0]);
        }
        let v = carried_coeffs(cs, &row[j], &ct_row[j]);
        let ghost old_out = out@;
        proof {
            lemma_extends_trans(s0, s1, cs@);
            lemma_kvss_stable(out@, s1, cs@);
        }
        out.push(v);
        proof {
            assert forall|j2: int| 0 <= j2 < out@.len() implies kvs_valid(#[trigger] out@[j2]@, cs@.0.len()) by {
                if j2 < j {
                    assert(out@[j2] == old_out[j2]);
                }
            }
            assert forall|j2: int| 0 <= j2 < j + 1 implies #[trigger] kvs_value(out@[j2]@, cs@.0) == row@[j2]@ by {
                if j2 < j {
                    assert(out@[j2] == old_out[j2]);
                }
            }
        }
        j = j + 1;
    }
    out
}

/// `F = sum_{i<K} gamma^i f(ct[i][0], ..., ct[i][t-1])` over the constant-term wires.
fn f_part_circuit(
    cs: &mut ConstraintSystem,
    f: &SparsePoly,
    ct: &Vec<Vec<KVar>>,
    gpow: &Vec<KVar>,
    cap_k: usize,
    t: usize,
    Ghost(ev): Ghost<Seq<Seq<Seq<E2>>>>,
) -> (out: KVar)
    requires
        cs_wf(old(cs)@),
        f.wf(),
        f.t == t,
        cap_k <= ct@.len(),
        cap_k <= gpow@.len(),
        forall|i: int| 0 <= i < ct@.len() ==> (#[trigger] ct@[i])@.len() == t,
        kvss_valid(ct@, old(cs)@.0.len()),
        kvs_valid(gpow@, old(cs)@.0.len()),
        forall|i: int, j: int|
            0 <= i < cap_k && 0 <= j < t ==> #[trigger] kvs_value(ct@[i]@, old(cs)@.0)[j] == ev[i][j][0],
    ensures
        cs_wf(final(cs)@),
        cs_extends(old(cs)@, final(cs)@),
        cs_satisfied(final(cs)@) <==> cs_satisfied(old(cs)@),
        kv_valid(out, final(cs)@.0.len()),
        kv_value(out, final(cs)@.0) == crate::pi_ccs::fv_part(
            ev,
            kvs_value(gpow@, old(cs)@.0),
            *f,
            t as int,
            cap_k as int,
        ),
{
    let ghost s0 = cs@;
    let ghost gv = kvs_value(gpow@, s0.0);
    proof {
        lemma_extends_refl(s0);
    }
    let mut f_val = KVar::constant(cs, Ext2::zero());
    let mut i: usize = 0;
    while i < cap_k
        invariant
            i <= cap_k,
            f.wf(),
            f.t == t,
            cap_k <= ct@.len(),
            cap_k <= gpow@.len(),
            forall|i2: int| 0 <= i2 < ct@.len() ==> (#[trigger] ct@[i2])@.len() == t,
            kvss_valid(ct@, s0.0.len()),
            kvs_valid(gpow@, s0.0.len()),
            forall|i2: int, j: int|
                0 <= i2 < cap_k && 0 <= j < t ==> #[trigger] kvs_value(ct@[i2]@, s0.0)[j] == ev[i2][j][0],
            gv == kvs_value(gpow@, s0.0),
            cs_wf(s0),
            cs_wf(cs@),
            cs_extends(s0, cs@),
            cs_satisfied(cs@) <==> cs_satisfied(s0),
            kv_valid(f_val, cs@.0.len()),
            kv_value(f_val, cs@.0) == crate::pi_ccs::fv_part(ev, gv, *f, t as int, i as int),
        decreases cap_k - i,
    {
        let ghost s1 = cs@;
        proof {
            lemma_kvss_stable(ct@, s0, s1);
            assert(kvs_valid(ct@[i as int]@, s0.0.len()));
        }
        let fi = eval_f_circuit(cs, f, &ct[i]);
        let ghost s2 = cs@;
        proof {
            lemma_extends_trans(s0, s1, s2);
            lemma_kv_stable(gpow@[i as int], s0, s2);
            assert(kvs_value(ct@[i as int]@, s1.0) =~= Seq::new(t as nat, |j: int| ev[i as int][j][0]));
        }
        let scaled = gpow[i].mul(cs, &fi);
        proof {
            lemma_extends_trans(s0, s2, cs@);
            lemma_extends_trans(s1, s2, cs@);
            lemma_kv_stable(f_val, s1, cs@);
            assert(kvs_value(gpow@, s0.0)[i as int] == kv_value(gpow@[i as int], s0.0));
        }
        f_val = f_val.add(&scaled);
        i = i + 1;
    }
    f_val
}

/// `NC = sum_{i<n} gamma^i range_poly(ct[i][0])` over the constant-term wires.
fn nc_part_circuit(
    cs: &mut ConstraintSystem,
    ct: &Vec<Vec<KVar>>,
    gpow: &Vec<KVar>,
    n: usize,
    b: u64,
    Ghost(ev): Ghost<Seq<Seq<Seq<E2>>>>,
) -> (out: KVar)
    requires
        cs_wf(old(cs)@),
        1 <= b <= 0x3FFF_FFFF_FFFF_FFFF,
        n <= ct@.len(),
        n <= gpow@.len(),
        forall|i: int| 0 <= i < ct@.len() ==> (#[trigger] ct@[i])@.len() >= 1,
        kvss_valid(ct@, old(cs)@.0.len()),
        kvs_valid(gpow@, old(cs)@.0.len()),
        forall|i: int| 0 <= i < n ==> #[trigger] kvs_value(ct@[i]@, old(cs)@.0)[0] == ev[i][0][0],
    ensures
        cs_wf(final(cs)@),
        cs_extends(old(cs)@, final(cs)@),
        cs_satisfied(final(cs)@) <==> cs_satisfied(old(cs)@),
        kv_valid(out, final(cs)@.0.len()),
        kv_value(out, final(cs)@.0) == crate::pi_ccs::nv_part(ev, kvs_value(gpow@, old(cs)@.0), b as int, n as int),
{
    let ghost s0 = cs@;
    let ghost gv = kvs_value(gpow@, s0.0);
    proof {
        lemma_extends_refl(s0);
    }
    let mut n_val = KVar::constant(cs, Ext2::zero());
    let mut i: usize = 0;
    while i < n
        invariant
            i <= n,
            1 <= b <= 0x3FFF_FFFF_FFFF_FFFF,
            n <= ct@.len(),
            n <= gpow@.len(),
            forall|i2: int| 0 <= i2 < ct@.len() ==> (#[trigger] ct@[i2])@.len() >= 1,
            kvss_valid(ct@, s0.0.len()),
            kvs_valid(gpow@, s0.0.len()),
            forall|i2: int| 0 <= i2 < n ==> #[trigger] kvs_value(ct@[i2]@, s0.0)[0] == ev[i2][0][0],
            gv == kvs_value(gpow@, s0.0),
            cs_wf(s0),
            cs_wf(cs@),
            cs_extends(s0, cs@),
            cs_satisfied(cs@) <==> cs_satisfied(s0),
            kv_valid(n_val, cs@.0.len()),
            kv_value(n_val, cs@.0) == crate::pi_ccs::nv_part(ev, gv, b as int, i as int),
        decreases n - i,
    {
        let ghost s1 = cs@;
        proof {
            assert(kvs_valid(ct@[i as int]@, s0.0.len()));
            assert(ct@[i as int]@.len() >= 1);
            lemma_kv_stable(ct@[i as int]@[0], s0, s1);
            assert(kvs_value(ct@[i as int]@, s0.0)[0] == kv_value(ct@[i as int]@[0], s0.0));
        }
        let rp = range_product_circuit(cs, &ct[i][0], b);
        let ghost s2 = cs@;
        proof {
            lemma_extends_trans(s0, s1, s2);
            lemma_kv_stable(gpow@[i as int], s0, s2);
        }
        let scaled = gpow[i].mul(cs, &rp);
        proof {
            lemma_extends_trans(s0, s2, cs@);
            lemma_extends_trans(s1, s2, cs@);
            lemma_kv_stable(n_val, s1, cs@);
            assert(kvs_value(gpow@, s0.0)[i as int] == kv_value(gpow@[i as int], s0.0));
        }
        n_val = n_val.add(&scaled);
        i = i + 1;
    }
    n_val
}

/// `sum_{l<54} gamma^(base + kt l) y[l]` over one claim's coefficient wires.
fn ev_l_circuit(cs: &mut ConstraintSystem, y: &Vec<KVar>, gpow: &Vec<KVar>, base: usize, kt: usize) -> (out: KVar)
    requires
        cs_wf(old(cs)@),
        y@.len() == 54,
        kvs_valid(y@, old(cs)@.0.len()),
        kvs_valid(gpow@, old(cs)@.0.len()),
        forall|l: int| 0 <= l < 54 ==> #[trigger] (base + kt * l) < gpow@.len(),
    ensures
        cs_wf(final(cs)@),
        cs_extends(old(cs)@, final(cs)@),
        cs_satisfied(final(cs)@) <==> cs_satisfied(old(cs)@),
        kv_valid(out, final(cs)@.0.len()),
        kv_value(out, final(cs)@.0) == crate::pi_ccs::ev_l(
            kvs_value(y@, old(cs)@.0),
            kvs_value(gpow@, old(cs)@.0),
            base as int,
            kt as int,
            54,
        ),
{
    let ghost s0 = cs@;
    let ghost yv = kvs_value(y@, s0.0);
    let ghost gv = kvs_value(gpow@, s0.0);
    proof {
        lemma_extends_refl(s0);
    }
    let mut acc = KVar::constant(cs, Ext2::zero());
    let mut l: usize = 0;
    while l < 54
        invariant
            l <= 54,
            y@.len() == 54,
            kvs_valid(y@, s0.0.len()),
            kvs_valid(gpow@, s0.0.len()),
            forall|l2: int| 0 <= l2 < 54 ==> #[trigger] (base + kt * l2) < gpow@.len(),
            yv == kvs_value(y@, s0.0),
            gv == kvs_value(gpow@, s0.0),
            cs_wf(s0),
            cs_wf(cs@),
            cs_extends(s0, cs@),
            cs_satisfied(cs@) <==> cs_satisfied(s0),
            kv_valid(acc, cs@.0.len()),
            kv_value(acc, cs@.0) == crate::pi_ccs::ev_l(yv, gv, base as int, kt as int, l as int),
        decreases 54 - l,
    {
        let ghost s1 = cs@;
        let glen = gpow.len();
        assert(base + kt * l < glen);
        assert(0 <= kt * l) by (nonlinear_arith);
        let idx = base + kt * l;
        proof {
            lemma_kv_stable(gpow@[idx as int], s0, s1);
            lemma_kv_stable(y@[l as int], s0, s1);
        }
        let scaled = gpow[idx].mul(cs, &y[l]);
        proof {
            lemma_extends_trans(s0, s1, cs@);
            lemma_kv_stable(acc, s1, cs@);
            assert(gv[idx as int] == kv_value(gpow@[idx as int], s0.0));
            assert(yv[l as int] == kv_value(y@[l as int], s0.0));
        }
        acc = acc.add(&scaled);
        l = l + 1;
    }
    acc
}

/// `sum_{j<t} sum_{l<54} gamma^(ci + k j + k t l) ys[j][l]` over one carried instance.
fn ev_j_circuit(
    cs: &mut ConstraintSystem,
    ys: &Vec<Vec<KVar>>,
    gpow: &Vec<KVar>,
    ci: usize,
    k: usize,
    t: usize,
) -> (out: KVar)
    requires
        cs_wf(old(cs)@),
        ys@.len() == t,
        forall|j: int| 0 <= j < t ==> (#[trigger] ys@[j])@.len() == 54,
        kvss_valid(ys@, old(cs)@.0.len()),
        kvs_valid(gpow@, old(cs)@.0.len()),
        forall|j: int, l: int| 0 <= j < t && 0 <= l < 54 ==> #[trigger] (ci + k * j + k * t * l) < gpow@.len(),
        ci + k * t <= usize::MAX,
    ensures
        cs_wf(final(cs)@),
        cs_extends(old(cs)@, final(cs)@),
        cs_satisfied(final(cs)@) <==> cs_satisfied(old(cs)@),
        kv_valid(out, final(cs)@.0.len()),
        kv_value(out, final(cs)@.0) == crate::pi_ccs::ev_j(
            Seq::new(t as nat, |j: int| kvs_value(ys@[j]@, old(cs)@.0)),
            kvs_value(gpow@, old(cs)@.0),
            ci as int,
            k as int,
            t as int,
            t as int,
        ),
{
    let ghost s0 = cs@;
    let ghost yv = Seq::new(t as nat, |j: int| kvs_value(ys@[j]@, s0.0));
    let ghost gv = kvs_value(gpow@, s0.0);
    proof {
        lemma_extends_refl(s0);
    }
    let mut acc = KVar::constant(cs, Ext2::zero());
    let mut j: usize = 0;
    while j < t
        invariant
            j <= t,
            ys@.len() == t,
            forall|j2: int| 0 <= j2 < t ==> (#[trigger] ys@[j2])@.len() == 54,
            kvss_valid(ys@, s0.0.len()),
            kvs_valid(gpow@, s0.0.len()),
            forall|j2: int, l: int|
                0 <= j2 < t && 0 <= l < 54 ==> #[trigger] (ci + k * j2 + k * t * l) < gpow@.len(),
            ci + k * t <= usize::MAX,
            yv == Seq::new(t as nat, |j2: int| kvs_value(ys@[j2]@, s0.0)),
            gv == kvs_value(gpow@, s0.0),
            cs_wf(s0),
            cs_wf(cs@),
            cs_extends(s0, cs@),
            cs_satisfied(cs@) <==> cs_satisfied(s0),
            kv_valid(acc, cs@.0.len()),
            kv_value(acc, cs@.0) == crate::pi_ccs::ev_j(yv, gv, ci as int, k as int, t as int, j as int),
        decreases t - j,
    {
        let ghost s1 = cs@;
        proof {
            lemma_kvss_stable(ys@, s0, s1);
            assert(kvs_valid(ys@[j as int]@, s0.0.len()));
            assert(k * j <= k * t) by (nonlinear_arith)
                requires
                    j < t,
            ;
            assert forall|l: int| 0 <= l < 54 implies #[trigger] (ci + k * j + (k * t) * l) < gpow@.len() by {
                assert(ci + k * j + k * t * l < gpow@.len());
            }
        }
        let base = ci + k * j;
        let kt = k * t;
        let inner = ev_l_circuit(cs, &ys[j], gpow, base, kt);
        proof {
            lemma_extends_trans(s0, s1, cs@);
            lemma_kv_stable(acc, s1, cs@);
            lemma_kvs_stable(gpow@, s0, s1);
            assert(kvs_value(ys@[j as int]@, s1.0) == yv[j as int]);
        }
        acc = acc.add(&inner);
        j = j + 1;
    }
    acc
}

/// A three-level table of `K` wires only uses variables below `n`.
pub open spec fn kvsss_valid(v: Seq<Vec<Vec<KVar>>>, n: nat) -> bool {
    forall|i: int| 0 <= i < v.len() ==> kvss_valid(#[trigger] v[i]@, n)
}

/// The coefficient wires of every carried instance's claims: row `K + ci` of the
/// evaluations, with each coefficient 0 reusing its constant-term wire.
fn alloc_carried(
    cs: &mut ConstraintSystem,
    evals: &Vec<Vec<RingK>>,
    ct: &Vec<Vec<KVar>>,
    cap_k: usize,
    k: usize,
    t: usize,
) -> (carr: Vec<Vec<Vec<KVar>>>)
    requires
        cs_wf(old(cs)@),
        cap_k + k <= usize::MAX,
        evals@.len() == cap_k + k,
        ct@.len() == cap_k + k,
        forall|i: int| 0 <= i < evals@.len() ==> (#[trigger] evals@[i])@.len() == t,
        forall|i: int| 0 <= i < ct@.len() ==> (#[trigger] ct@[i])@.len() == t,
        kvss_valid(ct@, old(cs)@.0.len()),
        forall|i: int, j: int|
            0 <= i < evals@.len() && 0 <= j < t ==> #[trigger] kvs_value(ct@[i]@, old(cs)@.0)[j]
                == rows_views(evals@)[i][j][0],
    ensures
        cs_wf(final(cs)@),
        cs_extends(old(cs)@, final(cs)@),
        cs_satisfied(final(cs)@) <==> cs_satisfied(old(cs)@),
        carr@.len() == k,
        kvsss_valid(carr@, final(cs)@.0.len()),
        forall|ci: int| 0 <= ci < k ==> (#[trigger] carr@[ci])@.len() == t,
        forall|ci: int, j: int|
            0 <= ci < k && 0 <= j < t ==> #[trigger] kvs_value(carr@[ci]@[j]@, final(cs)@.0)
                == rows_views(evals@)[cap_k + ci][j],
{
    let ghost s0 = cs@;
    let ghost ev = rows_views(evals@);
    proof {
        lemma_extends_refl(s0);
    }
    let mut carr: Vec<Vec<Vec<KVar>>> = Vec::new();
    let mut ci: usize = 0;
    while ci < k
        invariant
            ci <= k,
            cap_k + k <= usize::MAX,
            evals@.len() == cap_k + k,
            ct@.len() == cap_k + k,
            forall|i: int| 0 <= i < evals@.len() ==> (#[trigger] evals@[i])@.len() == t,
            forall|i: int| 0 <= i < ct@.len() ==> (#[trigger] ct@[i])@.len() == t,
            kvss_valid(ct@, s0.0.len()),
            forall|i: int, j: int|
                0 <= i < evals@.len() && 0 <= j < t ==> #[trigger] kvs_value(ct@[i]@, s0.0)[j] == ev[i][j][0],
            ev == rows_views(evals@),
            cs_wf(s0),
            cs_wf(cs@),
            cs_extends(s0, cs@),
            cs_satisfied(cs@) <==> cs_satisfied(s0),
            carr@.len() == ci,
            kvsss_valid(carr@, cs@.0.len()),
            forall|c2: int| 0 <= c2 < ci ==> (#[trigger] carr@[c2])@.len() == t,
            forall|c2: int, j: int|
                0 <= c2 < ci && 0 <= j < t ==> #[trigger] kvs_value(carr@[c2]@[j]@, cs@.0) == ev[cap_k + c2][j],
        decreases k - ci,
    {
        let ghost s1 = cs@;
        let ghost i = cap_k + ci;
        proof {
            lemma_kvss_stable(ct@, s0, s1);
            assert(kvs_valid(ct@[i]@, s0.0.len()));
            assert forall|j: int| 0 <= j < evals@[i]@.len() implies #[trigger] kvs_value(ct@[i]@, s1.0)[j]
                == evals@[i]@[j]@[0] by {
                assert(kvs_value(ct@[i]@, s0.0)[j] == ev[i][j][0]);
            }
        }
        let row = carried_row(cs, &evals[cap_k + ci], &ct[cap_k + ci]);
        let ghost old_carr = carr@;
        proof {
            lemma_extends_trans(s0, s1, cs@);
            assert forall|c2: int| 0 <= c2 < ci implies kvss_valid(#[trigger] old_carr[c2]@, cs@.0.len())
                && forall|j: int| 0 <= j < t ==> #[trigger] kvs_value(old_carr[c2]@[j]@, cs@.0) == ev[cap_k + c2][j] by {
                lemma_kvss_stable(old_carr[c2]@, s1, cs@);
                assert forall|j: int| 0 <= j < t implies #[trigger] kvs_value(old_carr[c2]@[j]@, cs@.0)
                    == ev[cap_k + c2][j] by {
                    assert(kvs_value(old_carr[c2]@[j]@, s1.0) == ev[cap_k + c2][j]);
                }
            }
        }
        carr.push(row);
        proof {
            assert forall|c2: int| 0 <= c2 < carr@.len() implies kvss_valid(#[trigger] carr@[c2]@, cs@.0.len()) by {
                if c2 < ci {
                    assert(carr@[c2] == old_carr[c2]);
                }
            }
            assert forall|c2: int, j: int| 0 <= c2 < ci + 1 && 0 <= j < t implies #[trigger] kvs_value(
                carr@[c2]@[j]@,
                cs@.0,
            ) == ev[cap_k + c2][j] by {
                if c2 < ci {
                    assert(carr@[c2] == old_carr[c2]);
                } else {
                    assert(ev[i][j] == evals@[i]@[j]@);
                }
            }
        }
        ci = ci + 1;
    }
    carr
}

/// `Eval`'s inner sum `sum_{ci<k} sum_{j<t} sum_{l<54} gamma^(ci + k j + k t l) ys[ci][j][l]`.
fn eval_sum_circuit(
    cs: &mut ConstraintSystem,
    carr: &Vec<Vec<Vec<KVar>>>,
    gpow: &Vec<KVar>,
    k: usize,
    t: usize,
    Ghost(ys): Ghost<Seq<Seq<Seq<E2>>>>,
) -> (out: KVar)
    requires
        cs_wf(old(cs)@),
        carr@.len() == k,
        forall|ci: int| 0 <= ci < k ==> (#[trigger] carr@[ci])@.len() == t,
        forall|ci: int| 0 <= ci < k ==> (#[trigger] ys[ci]).len() == t,
        forall|ci: int, j: int| 0 <= ci < k && 0 <= j < t ==> (#[trigger] ys[ci][j]).len() == 54,
        kvsss_valid(carr@, old(cs)@.0.len()),
        kvs_valid(gpow@, old(cs)@.0.len()),
        k * t * 54 <= gpow@.len(),
        k * t * 54 <= usize::MAX,
        forall|ci: int, j: int|
            0 <= ci < k && 0 <= j < t ==> #[trigger] kvs_value(carr@[ci]@[j]@, old(cs)@.0) == ys[ci][j],
    ensures
        cs_wf(final(cs)@),
        cs_extends(old(cs)@, final(cs)@),
        cs_satisfied(final(cs)@) <==> cs_satisfied(old(cs)@),
        kv_valid(out, final(cs)@.0.len()),
        kv_value(out, final(cs)@.0) == crate::pi_ccs::ev_sum(
            ys,
            kvs_value(gpow@, old(cs)@.0),
            k as int,
            t as int,
            k as int,
        ),
{
    let ghost s0 = cs@;
    let ghost gv = kvs_value(gpow@, s0.0);
    proof {
        lemma_extends_refl(s0);
    }
    let mut acc = KVar::constant(cs, Ext2::zero());
    let mut ci: usize = 0;
    while ci < k
        invariant
            ci <= k,
            carr@.len() == k,
            forall|c2: int| 0 <= c2 < k ==> (#[trigger] carr@[c2])@.len() == t,
            forall|c2: int| 0 <= c2 < k ==> (#[trigger] ys[c2]).len() == t,
            forall|c2: int, j: int| 0 <= c2 < k && 0 <= j < t ==> (#[trigger] ys[c2][j]).len() == 54,
            kvsss_valid(carr@, s0.0.len()),
            kvs_valid(gpow@, s0.0.len()),
            k * t * 54 <= gpow@.len(),
            k * t * 54 <= usize::MAX,
            forall|c2: int, j: int|
                0 <= c2 < k && 0 <= j < t ==> #[trigger] kvs_value(carr@[c2]@[j]@, s0.0) == ys[c2][j],
            gv == kvs_value(gpow@, s0.0),
            cs_wf(s0),
            cs_wf(cs@),
            cs_extends(s0, cs@),
            cs_satisfied(cs@) <==> cs_satisfied(s0),
            kv_valid(acc, cs@.0.len()),
            kv_value(acc, cs@.0) == crate::pi_ccs::ev_sum(ys, gv, k as int, t as int, ci as int),
        decreases k - ci,
    {
        let ghost s1 = cs@;
        let ghost row = carr@[ci as int]@;
        proof {
            assert(kvss_valid(row, s0.0.len()));
            lemma_kvss_stable(row, s0, s1);
            lemma_kvs_stable(gpow@, s0, s1);
            assert forall|j: int| 0 <= j < t implies (#[trigger] row[j])@.len() == 54 by {
                assert(kvs_value(row[j]@, s0.0) == ys[ci as int][j]);
            }
            assert forall|j: int, l: int| 0 <= j < t && 0 <= l < 54 implies #[trigger] (ci + k * j + k * t * l)
                < gpow@.len() by {
                crate::pi_ccs::lemma_ev_index(ci as int, j, l, k as int, t as int);
            }
            assert(ci + k * t <= usize::MAX) by (nonlinear_arith)
                requires
                    ci < k,
                    k * t * 54 <= usize::MAX,
            ;
        }
        let inner = ev_j_circuit(cs, &carr[ci], gpow, ci, k, t);
        proof {
            lemma_extends_trans(s0, s1, cs@);
            lemma_kv_stable(acc, s1, cs@);
            assert(Seq::new(t as nat, |j: int| kvs_value(row[j]@, s1.0)) =~= ys[ci as int]) by {
                assert forall|j: int| 0 <= j < t implies kvs_value(row[j]@, s1.0) == ys[ci as int][j] by {
                    assert(kvs_value(row[j]@, s0.0) == ys[ci as int][j]);
                }
            }
        }
        acc = acc.add(&inner);
        ci = ci + 1;
    }
    acc
}

/// Constant wires for a list of public values.
fn const_k_wires(cs: &ConstraintSystem, vals: &[Ext2]) -> (v: Vec<KVar>)
    requires
        cs_wf(cs@),
    ensures
        v@.len() == vals@.len(),
        kvs_valid(v@, cs@.0.len()),
        kvs_value(v@, cs@.0) == e2_seq(vals@),
{
    let mut v: Vec<KVar> = Vec::new();
    let mut i: usize = 0;
    while i < vals.len()
        invariant
            i <= vals@.len(),
            cs_wf(cs@),
            v@.len() == i,
            kvs_valid(v@, cs@.0.len()),
            kvs_value(v@, cs@.0) == e2_seq(vals@).take(i as int),
        decreases vals@.len() - i,
    {
        v.push(KVar::constant(cs, vals[i]));
        proof {
            assert(kvs_value(v@, cs@.0) =~= e2_seq(vals@).take(i + 1));
        }
        i = i + 1;
    }
    proof {
        assert(e2_seq(vals@).take(i as int) =~= e2_seq(vals@));
    }
    v
}

/// `Eval = eq(r', r) sum_{ci,j,l} gamma^(ci + k j + k t l) cf(y'_{K+ci,j})_l`, zero when
/// nothing is carried.
fn eval_part_circuit(
    cs: &mut ConstraintSystem,
    carr: &Vec<Vec<Vec<KVar>>>,
    gpow: &Vec<KVar>,
    r_wires: &Vec<KVar>,
    r0: &[Ext2],
    k: usize,
    t: usize,
    Ghost(ys): Ghost<Seq<Seq<Seq<E2>>>>,
) -> (out: KVar)
    requires
        cs_wf(old(cs)@),
        carr@.len() == k,
        forall|ci: int| 0 <= ci < k ==> (#[trigger] carr@[ci])@.len() == t,
        forall|ci: int| 0 <= ci < k ==> (#[trigger] ys[ci]).len() == t,
        forall|ci: int, j: int| 0 <= ci < k && 0 <= j < t ==> (#[trigger] ys[ci][j]).len() == 54,
        kvsss_valid(carr@, old(cs)@.0.len()),
        kvs_valid(gpow@, old(cs)@.0.len()),
        kvs_valid(r_wires@, old(cs)@.0.len()),
        k > 0 ==> r0@.len() == r_wires@.len(),
        k * t * 54 <= gpow@.len(),
        k * t * 54 <= usize::MAX,
        forall|ci: int, j: int|
            0 <= ci < k && 0 <= j < t ==> #[trigger] kvs_value(carr@[ci]@[j]@, old(cs)@.0) == ys[ci][j],
    ensures
        cs_wf(final(cs)@),
        cs_extends(old(cs)@, final(cs)@),
        cs_satisfied(final(cs)@) <==> cs_satisfied(old(cs)@),
        kv_valid(out, final(cs)@.0.len()),
        kv_value(out, final(cs)@.0) == (if k > 0 {
            e2_mul(
                eq_spec(kvs_value(r_wires@, old(cs)@.0), e2_seq(r0@), r_wires@.len() as int),
                crate::pi_ccs::ev_sum(ys, kvs_value(gpow@, old(cs)@.0), k as int, t as int, k as int),
            )
        } else {
            e2_zero()
        }),
{
    let ghost s0 = cs@;
    proof {
        lemma_extends_refl(s0);
    }
    if k > 0 {
        let inner = eval_sum_circuit(cs, carr, gpow, k, t, Ghost(ys));
        let ghost s1 = cs@;
        let cr = const_k_wires(cs, r0);
        proof {
            lemma_kvs_stable(r_wires@, s0, s1);
        }
        let eq_cr = eq_circuit(cs, r_wires.as_slice(), cr.as_slice());
        let ghost s2 = cs@;
        proof {
            lemma_extends_trans(s0, s1, s2);
            lemma_kv_stable(inner, s1, s2);
        }
        let e = eq_cr.mul(cs, &inner);
        proof {
            lemma_extends_trans(s0, s2, cs@);
        }
        e
    } else {
        KVar::constant(cs, Ext2::zero())
    }
}

/// The shape a Π_CCS reconstruction needs: sizes that fit the machine and one row of
/// `t` claims per instance.
pub open spec fn q_inputs_ok(gp: GlobalParams, s: CcsStructure, evals: Seq<Vec<RingK>>, cap_k: int, k: int) -> bool {
    &&& gp.wf()
    &&& s.wf()
    &&& dims_ok(cap_k, k, s.matrices@.len() as int)
    &&& piccs_shape_ok(evals, (cap_k + k) as nat, s.matrices@.len())
}

/// In-circuit `Q(r')` from the claimed evaluations: allocates their coefficient wires
/// and rebuilds the combined oracle over them.
#[verifier::rlimit(40)]
#[verifier::spinoff_prover]
fn q_circuit(
    cs: &mut ConstraintSystem,
    gp: &GlobalParams,
    s: &CcsStructure,
    evals: &Vec<Vec<RingK>>,
    r0: &[Ext2],
    r_wires: &Vec<KVar>,
    alpha: &Vec<KVar>,
    gpow: &Vec<KVar>,
    cap_k: usize,
    k: usize,
) -> (q: KVar)
    requires
        cs_wf(old(cs)@),
        q_inputs_ok(*gp, *s, evals@, cap_k as int, k as int),
        kvs_valid(r_wires@, old(cs)@.0.len()),
        kvs_valid(alpha@, old(cs)@.0.len()),
        kvs_valid(gpow@, old(cs)@.0.len()),
        alpha@.len() == r_wires@.len(),
        k > 0 ==> r0@.len() == r_wires@.len(),
        gpow@.len() == max_gamma_spec(cap_k as int, k as int, s.matrices@.len() as int, 54) + 1,
    ensures
        cs_wf(final(cs)@),
        cs_extends(old(cs)@, final(cs)@),
        cs_satisfied(final(cs)@) <==> cs_satisfied(old(cs)@),
        kv_valid(q, final(cs)@.0.len()),
        kv_value(q, final(cs)@.0) == q_from_evals(
            rows_views(evals@),
            kvs_value(alpha@, old(cs)@.0),
            kvs_value(gpow@, old(cs)@.0),
            kvs_value(r_wires@, old(cs)@.0),
            e2_seq(r0@),
            s.f,
            cap_k as int,
            k as int,
            s.matrices@.len() as int,
            gp.b as int,
        ),
{
    let t = s.t();
    let ghost s0 = cs@;
    let ghost ev = rows_views(evals@);
    let ghost gv = kvs_value(gpow@, s0.0);
    proof {
        lemma_dims(cap_k as int, k as int, t as int);
        assert forall|i: int, j: int| 0 <= i < cap_k + k && 0 <= j < t implies (#[trigger] ev[i][j]).len() == 54 by {
            assert(ev[i][j] == evals@[i]@[j]@);
            assert(crate::ring_k::rk_wf(evals@[i]@[j]@));
        }
    }
    let ct = alloc_constant_terms(cs, evals, t);
    let ghost s1 = cs@;
    let carr = alloc_carried(cs, evals, &ct, cap_k, k, t);
    let ghost s2 = cs@;
    proof {
        lemma_extends_trans(s0, s1, s2);
        lemma_kvss_stable(ct@, s1, s2);
        lemma_kvs_stable(gpow@, s0, s2);
        assert forall|i: int, j: int| 0 <= i < cap_k + k && 0 <= j < t implies #[trigger] kvs_value(ct@[i]@, s2.0)[j]
            == ev[i][j][0] by {
            assert(kvs_value(ct@[i]@, s1.0)[j] == ev[i][j][0]);
        }
    }
    let f_val = f_part_circuit(cs, &s.f, &ct, gpow, cap_k, t, Ghost(ev));
    let ghost s3 = cs@;
    proof {
        lemma_extends_trans(s0, s2, s3);
        lemma_kvss_stable(ct@, s2, s3);
        lemma_kvs_stable(gpow@, s0, s3);
        assert forall|i: int| 0 <= i < cap_k + k implies #[trigger] kvs_value(ct@[i]@, s3.0)[0] == ev[i][0][0] by {
            assert(kvs_value(ct@[i]@, s2.0)[0] == ev[i][0][0]);
        }
    }
    let n_val = nc_part_circuit(cs, &ct, gpow, cap_k + k, gp.b, Ghost(ev));
    let ghost s4 = cs@;
    let ghost ys = ev.subrange(cap_k as int, cap_k + k);
    proof {
        lemma_extends_trans(s0, s3, s4);
        lemma_extends_trans(s2, s3, s4);
        lemma_kvs_stable(gpow@, s0, s4);
        lemma_kvs_stable(r_wires@, s0, s4);
        assert forall|ci: int| 0 <= ci < k implies kvss_valid(#[trigger] carr@[ci]@, s4.0.len()) && forall|j: int|
            0 <= j < t ==> #[trigger] kvs_value(carr@[ci]@[j]@, s4.0) == ys[ci][j] by {
            lemma_kvss_stable(carr@[ci]@, s2, s4);
            assert forall|j: int| 0 <= j < t implies #[trigger] kvs_value(carr@[ci]@[j]@, s4.0) == ys[ci][j] by {
                assert(kvs_value(carr@[ci]@[j]@, s2.0) == ev[cap_k + ci][j]);
            }
        }
        assert(k * t * 54 <= gpow@.len());
    }
    let e_val = eval_part_circuit(cs, &carr, gpow, r_wires, r0, k, t, Ghost(ys));
    let ghost s5 = cs@;
    proof {
        lemma_extends_trans(s0, s4, s5);
        lemma_kvs_stable(r_wires@, s0, s5);
        lemma_kvs_stable(alpha@, s0, s5);
    }
    proof {
        lemma_extends_trans(s3, s4, s5);
        lemma_kv_stable(f_val, s3, s5);
        lemma_kv_stable(n_val, s4, s5);
    }
    proof {
        lemma_kvs_stable(gpow@, s0, s5);
        lemma_kvs_stable(r_wires@, s0, s5);
        lemma_kvs_stable(alpha@, s0, s5);
        assert(kv_valid(gpow@[cap_k as int], s5.0.len()));
        assert(kv_valid(gpow@[2 * cap_k + k], s5.0.len()));
        assert(gv[cap_k as int] == kv_value(gpow@[cap_k as int], s5.0));
        assert(gv[2 * cap_k + k] == kv_value(gpow@[2 * cap_k + k], s5.0));
    }
    let q = q_combine(cs, r_wires, alpha, &gpow[cap_k], &gpow[2 * cap_k + k], &f_val, &n_val, &e_val);
    proof {
        lemma_extends_trans(s0, s5, cs@);
    }
    q
}

/// `Q(r') = eq(r', alpha) (F + gamma^K NC) + gamma^(2K+k) Eval` from its parts, with
/// `g_k = gamma^K` and `g_2k = gamma^(2K+k)`.
fn q_combine(
    cs: &mut ConstraintSystem,
    r_wires: &Vec<KVar>,
    alpha: &Vec<KVar>,
    g_k: &KVar,
    g_2k: &KVar,
    f_val: &KVar,
    n_val: &KVar,
    e_val: &KVar,
) -> (q: KVar)
    requires
        cs_wf(old(cs)@),
        kvs_valid(r_wires@, old(cs)@.0.len()),
        kvs_valid(alpha@, old(cs)@.0.len()),
        kv_valid(*g_k, old(cs)@.0.len()),
        kv_valid(*g_2k, old(cs)@.0.len()),
        kv_valid(*f_val, old(cs)@.0.len()),
        kv_valid(*n_val, old(cs)@.0.len()),
        kv_valid(*e_val, old(cs)@.0.len()),
        alpha@.len() == r_wires@.len(),
    ensures
        cs_wf(final(cs)@),
        cs_extends(old(cs)@, final(cs)@),
        cs_satisfied(final(cs)@) <==> cs_satisfied(old(cs)@),
        kv_valid(q, final(cs)@.0.len()),
        kv_value(q, final(cs)@.0) == e2_add(
            e2_mul(
                eq_spec(kvs_value(r_wires@, old(cs)@.0), kvs_value(alpha@, old(cs)@.0), r_wires@.len() as int),
                e2_add(kv_value(*f_val, old(cs)@.0), e2_mul(kv_value(*g_k, old(cs)@.0), kv_value(*n_val, old(cs)@.0))),
            ),
            e2_mul(kv_value(*g_2k, old(cs)@.0), kv_value(*e_val, old(cs)@.0)),
        ),
{
    let ghost s0 = cs@;
    let eq_a = eq_circuit(cs, r_wires.as_slice(), alpha.as_slice());
    let ghost s1 = cs@;
    proof {
        lemma_kv_stable(*g_k, s0, s1);
        lemma_kv_stable(*n_val, s0, s1);
    }
    let nc_scaled = g_k.mul(cs, n_val);
    let ghost s2 = cs@;
    proof {
        lemma_extends_trans(s0, s1, s2);
        lemma_kv_stable(*f_val, s0, s2);
        lemma_kv_stable(eq_a, s1, s2);
    }
    let bracket = f_val.add(&nc_scaled);
    let lhs = eq_a.mul(cs, &bracket);
    let ghost s3 = cs@;
    proof {
        lemma_extends_trans(s0, s2, s3);
        lemma_kv_stable(*g_2k, s0, s3);
        lemma_kv_stable(*e_val, s0, s3);
    }
    let eval_scaled = g_2k.mul(cs, e_val);
    proof {
        lemma_extends_trans(s0, s3, cs@);
        lemma_kv_stable(lhs, s3, cs@);
    }
    lhs.add(&eval_scaled)
}

/// What the in-circuit Π_CCS verifier checks, given the advice of `trace`: the
/// sum-check chain from the claimed sum holds round by round, and `Q(r')` rebuilt from
/// the claimed evaluations equals the reduced claim.
pub open spec fn piccs_circuit_ok(
    gp: GlobalParams,
    s: CcsStructure,
    fresh: Seq<CcsInstance>,
    carried: Seq<CeInstance>,
    proof: PiCcsProof,
    trace: PiCcsTrace,
) -> bool {
    let n = proof.sumcheck@.len() as int;
    let rp = e2_seq(trace.r_prime@);
    let cap_k = fresh.len() as int;
    let k = carried.len() as int;
    let t = s.matrices@.len() as int;
    &&& chain_ok(proof.sumcheck@, rp, trace.claimed_sum@, n)
    &&& q_from_evals(
        rows_views(proof.evals@),
        e2_seq(trace.alpha@),
        piccs_gpow(trace.gamma@, cap_k, k, t),
        rp,
        if k > 0 { carried[0]@.1 } else { Seq::empty() },
        s.f,
        cap_k,
        k,
        t,
        gp.b as int,
    ) == chain_claim(proof.sumcheck@, rp, trace.claimed_sum@, n)
}

/// The inputs on which the in-circuit Π_CCS verifier can be built: the reconstruction's
/// shape, one advice challenge per round, round polynomials of at least two and fewer
/// than `q` evaluations, and points of matching dimension.
pub open spec fn piccs_circuit_inputs_ok(
    gp: GlobalParams,
    s: CcsStructure,
    fresh: Seq<CcsInstance>,
    carried: Seq<CeInstance>,
    proof: PiCcsProof,
    trace: PiCcsTrace,
) -> bool {
    &&& q_inputs_ok(gp, s, proof.evals@, fresh.len() as int, carried.len() as int)
    &&& proof.sumcheck.rounds@.len() == trace.r_prime@.len()
    &&& forall|i: int|
        0 <= i < proof.sumcheck.rounds@.len() ==> 2 <= (#[trigger] proof.sumcheck.rounds@[i]).0@.len() < crate::Q
    &&& trace.alpha@.len() == trace.r_prime@.len()
    &&& carried.len() > 0 ==> carried[0].r@.len() == trace.r_prime@.len()
}

/// Build the in-circuit Π_CCS verifier from a proof and the values its verification
/// derived.
///
/// Synthesizes the sum-check chain from the claimed sum `T` to the reduced claim, then
/// the `Q(r')` reconstruction over the claimed evaluations, and asserts the two equal.
/// The challenges `alpha, gamma, r'` of `trace` are advice; the claimed sum and the
/// carried evaluation point enter as constants.
#[verifier::rlimit(40)]
#[verifier::spinoff_prover]
pub fn build_pi_ccs_verifier_circuit(
    gp: &GlobalParams,
    s: &CcsStructure,
    fresh: &[CcsInstance],
    carried: &[CeInstance],
    proof: &PiCcsProof,
    trace: &PiCcsTrace,
) -> (cs: ConstraintSystem)
    requires
        piccs_circuit_inputs_ok(*gp, *s, fresh@, carried@, *proof, *trace),
    ensures
        cs_wf(cs@),
        cs_satisfied(cs@) <==> piccs_circuit_ok(*gp, *s, fresh@, carried@, *proof, *trace),
{
    let cap_k = fresh.len();
    let k = carried.len();
    let t = s.t();
    proof {
        lemma_dims(cap_k as int, k as int, t as int);
    }
    let mut cs = ConstraintSystem::new();
    let ghost s0 = cs@;
    assert(cs_satisfied(s0));
    // The sum-check chain: the public claimed sum to the reduced claim, exposing the
    // challenge wires the reconstruction reuses.
    let mut round_evals: Vec<Vec<Ext2>> = Vec::new();
    let mut i: usize = 0;
    while i < proof.sumcheck.rounds.len()
        invariant
            i <= proof.sumcheck.rounds@.len(),
            round_evals@.len() == i,
            forall|i2: int| 0 <= i2 < i ==> (#[trigger] round_evals@[i2])@ == proof.sumcheck.rounds@[i2].0@,
        decreases proof.sumcheck.rounds@.len() - i,
    {
        round_evals.push(vstd::slice::slice_to_vec(proof.sumcheck.rounds[i].0.as_slice()));
        i = i + 1;
    }
    proof {
        assert(rounds_view(round_evals@) =~= proof.sumcheck@);
    }
    let (claim, r_wires) = synthesize_sumcheck_verifier(
        &mut cs,
        trace.claimed_sum,
        round_evals.as_slice(),
        trace.r_prime.as_slice(),
    );
    let ghost s1 = cs@;
    // Challenge advice and the gamma-power chain.
    let alpha = crate::circuit::sumcheck_verifier::alloc_k_wires(&mut cs, &trace.alpha);
    let ghost s2 = cs@;
    let gamma = KVar::allocate(&mut cs, trace.gamma);
    let ghost s3 = cs@;
    let hi = crate::pi_ccs::max_gamma_index(cap_k, k, t, gp.d);
    let gpow = gamma_power_chain(&mut cs, &gamma, hi);
    let ghost s4 = cs@;
    proof {
        lemma_extends_trans(s1, s2, s3);
        lemma_extends_trans(s1, s3, s4);
        lemma_extends_trans(s2, s3, s4);
        lemma_kvs_stable(r_wires@, s1, s4);
        lemma_kvs_stable(alpha@, s2, s4);
        lemma_kv_stable(claim, s1, s4);
        assert(kvs_value(r_wires@, s1.0).len() == r_wires@.len());
        assert(r_wires@.len() == trace.r_prime@.len());
        assert(kvs_value(gpow@, s4.0) =~= piccs_gpow(trace.gamma@, cap_k as int, k as int, t as int));
    }
    let r0: &[Ext2] = if k > 0 {
        carried[0].r.as_slice()
    } else {
        &[]
    };
    let q = q_circuit(&mut cs, gp, s, &proof.evals, r0, &r_wires, &alpha, &gpow, cap_k, k);
    let ghost s5 = cs@;
    proof {
        lemma_extends_trans(s1, s4, s5);
        lemma_kv_stable(claim, s4, s5);
        if k > 0 {
            assert(e2_seq(r0@) == carried@[0]@.1);
        } else {
            assert(e2_seq(r0@) =~= Seq::<E2>::empty());
        }
    }
    // Tie the reconstructed Q(r') to the reduced claim.
    q.assert_eq(&mut cs, &claim);
    cs
}

/// The in-circuit Π_CCS verifier decides as the native one: fed the values the native
/// verifier derives from the transcript, and on well-shaped round polynomials, the
/// circuit's checks hold iff every sum-check round passes and `Q(r')` matches the
/// reduced claim.
pub proof fn law_pi_ccs_circuit_matches_verifier(
    t0: TrView,
    gp: GlobalParams,
    s: CcsStructure,
    fresh: Seq<CcsInstance>,
    carried: Seq<CeInstance>,
    proof: PiCcsProof,
    trace: PiCcsTrace,
)
    requires
        proof.sumcheck@.len() == gp.log_m,
        forall|i: int|
            0 <= i < gp.log_m ==> #[trigger] sc_round_shaped(
                proof.sumcheck@,
                piccs_degree(gp, s, fresh.len() as int) as nat,
                i,
            ),
        trace.claimed_sum@ == piccs_claimed(t0, gp, s, fresh, carried),
        e2_seq(trace.alpha@) == piccs_alpha(piccs_bound(t0, s, fresh, carried), gp.log_m as nat),
        trace.gamma@ == piccs_gamma(piccs_bound(t0, s, fresh, carried), gp.log_m as nat),
        e2_seq(trace.r_prime@) == piccs_rprime(t0, gp, s, fresh, carried, proof),
    ensures
        piccs_circuit_ok(gp, s, fresh, carried, proof, trace) <==> (piccs_sc_ok(t0, gp, s, fresh, carried, proof)
            && piccs_q(t0, gp, s, fresh, carried, proof) == piccs_final_claim(t0, gp, s, fresh, carried, proof)),
{
    reveal(piccs_sc_ok);
    reveal(piccs_q);
    reveal(piccs_final_claim);
    reveal(piccs_rprime);
    reveal(piccs_gpow_of);
    let t2 = piccs_t2(t0, gp, s, fresh, carried);
    let claimed = piccs_claimed(t0, gp, s, fresh, carried);
    let deg = piccs_degree(gp, s, fresh.len() as int) as nat;
    law_sumcheck_circuit_matches_verifier(t2, proof.sumcheck@, claimed, deg);
    let n = proof.sumcheck@.len() as int;
    if piccs_sc_ok(t0, gp, s, fresh, carried, proof) {
        assert forall|i: int| 0 <= i < proof.sumcheck@.len() implies #[trigger] sc_round_ok(
            t2,
            proof.sumcheck@,
            claimed,
            deg,
            i,
        ) by {
            assert(sc_round_ok(t2, proof.sumcheck@, claimed, deg, i));
        }
    }
    if chain_ok(proof.sumcheck@, sc_point(t2, proof.sumcheck@), claimed, n) {
        assert forall|i: int| 0 <= i < gp.log_m implies #[trigger] sc_round_ok(
            t2,
            proof.sumcheck@,
            claimed,
            deg,
            i,
        ) by {
            assert(sc_round_ok(t2, proof.sumcheck@, claimed, deg, i));
        }
    }
}

} // verus!
