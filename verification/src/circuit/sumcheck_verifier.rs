//! The in-circuit sum-check verifier: the dominant component of `verify_fold`.
//!
//! Given a sum-check transcript (round polynomials and challenges, supplied as
//! advice), the gadget enforces the verifier's chain over `K`: each round's
//! `g(0) + g(1)` equals the running claim, and the next claim is `g` interpolated at
//! the round's challenge. The challenges are advice; deriving them in-circuit would
//! need the transcript hash in-circuit.

use vstd::arithmetic::power::*;
use vstd::prelude::*;

use crate::circuit::cs::{
    cs_extends, cs_satisfied, cs_wf, lemma_extends_refl, lemma_extends_trans, lemma_value_stable, ConstraintSystem, CsView,
};
use crate::circuit::gadgets::{kv_valid, kv_value, KVar};
use crate::ext2::{e2_add, e2_base, e2_mul, e2_one, e2_scale, e2_seq, e2_sub, e2_zero, lemma_e2_mul_one, Ext2, E2};
use crate::fp::{fmod, fmul, fpow, fsub, lemma_fmod_sub, lemma_fp_lt_q, Fp};
use crate::sumcheck::{
    interpolate, lag_den, lag_num, lagrange_spec, lemma_sc_prefix, sc_claim, sc_point, sc_round_ok, sc_round_shaped,
};
use crate::transcript::TrView;
use crate::Q;

verus! {

broadcast use lemma_fp_lt_q;

/// The values of a list of `K` wires.
pub open spec fn kvs_value(v: Seq<KVar>, w: Seq<nat>) -> Seq<E2> {
    Seq::new(v.len(), |i: int| kv_value(v[i], w))
}

/// Every wire of the list only uses variables below `n`.
pub open spec fn kvs_valid(v: Seq<KVar>, n: nat) -> bool {
    forall|i: int| 0 <= i < v.len() ==> kv_valid(#[trigger] v[i], n)
}

/// The running claim of the sum-check chain before round `i`.
pub open spec fn chain_claim(evals: Seq<Seq<E2>>, chs: Seq<E2>, init: E2, i: int) -> E2
    decreases i,
{
    if i <= 0 {
        init
    } else {
        interpolate(evals[i - 1], chs[i - 1])
    }
}

/// Every round's `g(0) + g(1)` equals the running claim.
pub open spec fn chain_ok(evals: Seq<Seq<E2>>, chs: Seq<E2>, init: E2, n: int) -> bool {
    forall|i: int| 0 <= i < n ==> #[trigger] e2_add(evals[i][0], evals[i][1]) == chain_claim(evals, chs, init, i)
}

/// A `K` wire keeps its value and validity when the system grows.
pub proof fn lemma_kv_stable(k: KVar, old: CsView, new: CsView)
    requires
        cs_extends(old, new),
        kv_valid(k, old.0.len()),
    ensures
        kv_value(k, new.0) == kv_value(k, old.0),
        kv_valid(k, new.0.len()),
{
    lemma_value_stable(k.c0@, old, new);
    lemma_value_stable(k.c1@, old, new);
}

/// A list of `K` wires keeps its values and validity when the system grows.
pub proof fn lemma_kvs_stable(v: Seq<KVar>, old: CsView, new: CsView)
    requires
        cs_extends(old, new),
        kvs_valid(v, old.0.len()),
    ensures
        kvs_value(v, new.0) == kvs_value(v, old.0),
        kvs_valid(v, new.0.len()),
{
    assert forall|i: int| 0 <= i < v.len() implies kv_value(#[trigger] v[i], new.0) == kv_value(v[i], old.0)
        && kv_valid(v[i], new.0.len()) by {
        lemma_kv_stable(v[i], old, new);
    }
    assert(kvs_value(v, new.0) =~= kvs_value(v, old.0));
}

/// Allocate one `K` witness per value.
pub(crate) fn alloc_k_wires(cs: &mut ConstraintSystem, vals: &Vec<Ext2>) -> (g: Vec<KVar>)
    requires
        cs_wf(old(cs)@),
    ensures
        cs_wf(final(cs)@),
        cs_extends(old(cs)@, final(cs)@),
        cs_satisfied(final(cs)@) <==> cs_satisfied(old(cs)@),
        g@.len() == vals@.len(),
        kvs_valid(g@, final(cs)@.0.len()),
        kvs_value(g@, final(cs)@.0) == e2_seq(vals@),
        final(cs)@.1.len() == old(cs)@.1.len(),
{
    let ghost s1 = cs@;
    proof {
        lemma_extends_refl(s1);
    }
    let mut g: Vec<KVar> = Vec::new();
    let mut e: usize = 0;
    while e < vals.len()
        invariant
            e <= vals@.len(),
            cs_wf(s1),
            cs_wf(cs@),
            cs_extends(s1, cs@),
            cs_satisfied(cs@) <==> cs_satisfied(s1),
            g@.len() == e,
            kvs_valid(g@, cs@.0.len()),
            kvs_value(g@, cs@.0) == e2_seq(vals@).take(e as int),
            cs@.1.len() == s1.1.len(),
        decreases vals@.len() - e,
    {
        let ghost s2 = cs@;
        let kv = KVar::allocate(cs, vals[e]);
        proof {
            lemma_extends_trans(s1, s2, cs@);
            lemma_kvs_stable(g@, s2, cs@);
        }
        g.push(kv);
        proof {
            assert(kvs_valid(g@, cs@.0.len()));
            assert(kvs_value(g@, cs@.0) =~= e2_seq(vals@).take(e + 1));
        }
        e = e + 1;
    }
    proof {
        assert(e2_seq(vals@).take(e as int) =~= e2_seq(vals@));
    }
    g
}

/// One round of the chain: enforce `g(0) + g(1) == claim` and return `g(r)`.
fn sumcheck_round(cs: &mut ConstraintSystem, g: &Vec<KVar>, claim: &KVar, rk: &KVar) -> (next: KVar)
    requires
        cs_wf(old(cs)@),
        2 <= g@.len() < Q,
        kvs_valid(g@, old(cs)@.0.len()),
        kv_valid(*claim, old(cs)@.0.len()),
        kv_valid(*rk, old(cs)@.0.len()),
    ensures
        cs_wf(final(cs)@),
        cs_extends(old(cs)@, final(cs)@),
        kv_valid(next, final(cs)@.0.len()),
        kv_value(next, final(cs)@.0) == interpolate(kvs_value(g@, old(cs)@.0), kv_value(*rk, old(cs)@.0)),
        final(cs)@.1.len() == old(cs)@.1.len() + 2 + 3 * (g@.len() * (g@.len() - 1)),
        cs_satisfied(final(cs)@) <==> (cs_satisfied(old(cs)@) && e2_add(
            kvs_value(g@, old(cs)@.0)[0],
            kvs_value(g@, old(cs)@.0)[1],
        ) == kv_value(*claim, old(cs)@.0)),
{
    let ghost s0 = cs@;
    assert(kv_valid(g@[0], s0.0.len()));
    assert(kv_valid(g@[1], s0.0.len()));
    let sum01 = g[0].add(&g[1]);
    sum01.assert_eq(cs, claim);
    let ghost s1 = cs@;
    proof {
        lemma_kvs_stable(g@, s0, s1);
        lemma_kv_stable(*rk, s0, s1);
    }
    let next = k_lagrange(cs, g, rk);
    proof {
        lemma_extends_trans(s0, s1, cs@);
    }
    next
}

/// In-circuit Lagrange interpolation of `g` (values at `0 .. len`) at `r`.
fn k_lagrange(cs: &mut ConstraintSystem, g: &Vec<KVar>, r: &KVar) -> (out: KVar)
    requires
        cs_wf(old(cs)@),
        2 <= g@.len() < Q,
        kvs_valid(g@, old(cs)@.0.len()),
        kv_valid(*r, old(cs)@.0.len()),
    ensures
        cs_wf(final(cs)@),
        cs_extends(old(cs)@, final(cs)@),
        cs_satisfied(final(cs)@) <==> cs_satisfied(old(cs)@),
        kv_valid(out, final(cs)@.0.len()),
        kv_value(out, final(cs)@.0) == interpolate(kvs_value(g@, old(cs)@.0), kv_value(*r, old(cs)@.0)),
        final(cs)@.1.len() == old(cs)@.1.len() + 3 * (g@.len() * (g@.len() - 1)),
{
    let ghost s0 = cs@;
    let ghost gv = kvs_value(g@, s0.0);
    let ghost rv = kv_value(*r, s0.0);
    let n = g.len();
    proof {
        lemma_extends_refl(s0);
    }
    let mut acc = KVar::constant(cs, Ext2::zero());
    let mut j: usize = 0;
    while j < n
        invariant
            j <= n,
            n == g@.len(),
            2 <= n < Q,
            cs_wf(s0),
            cs_wf(cs@),
            cs_extends(s0, cs@),
            cs_satisfied(cs@) <==> cs_satisfied(s0),
            kvs_valid(g@, s0.0.len()),
            kv_valid(*r, s0.0.len()),
            gv == kvs_value(g@, s0.0),
            rv == kv_value(*r, s0.0),
            kv_valid(acc, cs@.0.len()),
            kv_value(acc, cs@.0) == lagrange_spec(gv, rv, j as int),
            cs@.1.len() == s0.1.len() + 3 * (j * (n - 1)),
        decreases n - j,
    {
        let ghost cj = cs@.1.len();
        // The factors r - l for l != j, multiplied in order of l.
        let first: usize = if j == 0 {
            1
        } else {
            0
        };
        let c_first = KVar::constant(cs, Ext2::from_base(Fp::new(first as u64)));
        let mut num = r.sub(&c_first);
        let ghost s_num0 = cs@;
        proof {
            lemma_value_stable(r.c0@, s0, cs@);
            lemma_value_stable(r.c1@, s0, cs@);
            lemma_e2_mul_one(e2_sub(rv, e2_base(fmod(first as int))));
            assert(lag_num(rv, j as int, first as int) == e2_one()) by {
                if first == 1 {
                    assert(lag_num(rv, j as int, 0) == e2_one());
                }
            }
            assert(lag_num(rv, j as int, first + 1) == e2_sub(rv, e2_base(fmod(first as int))));
        }
        let mut l: usize = first + 1;
        while l < n
            invariant
                first < l <= n,
                n == g@.len(),
                2 <= n < Q,
                j < n,
                first == (if j == 0 { 1usize } else { 0usize }),
                cs_wf(s0),
                cs_wf(cs@),
                cs_extends(s0, cs@),
                cs_satisfied(cs@) <==> cs_satisfied(s0),
                kv_valid(*r, s0.0.len()),
                rv == kv_value(*r, s0.0),
                kv_valid(num, cs@.0.len()),
                kv_value(num, cs@.0) == lag_num(rv, j as int, l as int),
                kv_valid(acc, cs@.0.len()),
                kv_value(acc, cs@.0) == lagrange_spec(gv, rv, j as int),
                cs@.1.len() == cj + 3 * ((l - first - 1) - (if first + 1 <= j < l { 1int } else { 0int })),
            decreases n - l,
        {
            if l != j {
                let ghost s1 = cs@;
                let cl = KVar::constant(cs, Ext2::from_base(Fp::new(l as u64)));
                let f = r.sub(&cl);
                proof {
                    lemma_value_stable(r.c0@, s0, s1);
                    lemma_value_stable(r.c1@, s0, s1);
                }
                let next = num.mul(cs, &f);
                proof {
                    lemma_extends_trans(s0, s1, cs@);
                    lemma_value_stable(acc.c0@, s1, cs@);
                    lemma_value_stable(acc.c1@, s1, cs@);
                }
                num = next;
            }
            l = l + 1;
        }
        let mut den = Fp::one();
        let mut l2: usize = 0;
        while l2 < n
            invariant
                l2 <= n,
                j < n,
                n < Q,
                den@ == lag_den(j as int, l2 as int),
            decreases n - l2,
        {
            if l2 != j {
                let d = Fp::new(j as u64) - Fp::new(l2 as u64);
                den = den * d;
            }
            l2 = l2 + 1;
        }
        let inv_den = match den.inv() {
            Ok(v) => v,
            Err(_) => {
                proof {
                    lemma0_pow((Q - 2) as nat);
                }
                Fp::zero()
            },
        };
        let ghost s2 = cs@;
        proof {
            lemma_value_stable(g@[j as int].c0@, s0, s2);
            lemma_value_stable(g@[j as int].c1@, s0, s2);
            assert(kv_valid(g@[j as int], s0.0.len()));
        }
        let prod = g[j].mul(cs, &num);
        let term = prod.scale(inv_den);
        proof {
            lemma_extends_trans(s0, s2, cs@);
            lemma_value_stable(acc.c0@, s2, cs@);
            lemma_value_stable(acc.c1@, s2, cs@);
            assert(gv[j as int] == kv_value(g@[j as int], s0.0));
        }
        acc = acc.add(&term);
        proof {
            assert(cs@.1.len() == cj + 3 * (n - 2) + 3);
            assert(3 * (j * (n - 1)) + 3 * (n - 1) == 3 * ((j + 1) * (n - 1))) by (nonlinear_arith);
        }
        j = j + 1;
    }
    acc
}

/// Synthesize the sum-check verifier into `cs`, returning the final reduced claim and
/// the challenge wires.
///
/// `init_claim` is the claimed sum; `round_evals[i]` are round `i`'s evaluations at
/// `0 ..= degree`; `challenges[i]` is round `i`'s challenge. The system stays
/// satisfied exactly when every round's `g(0) + g(1)` equals the running claim.
pub fn synthesize_sumcheck_verifier(
    cs: &mut ConstraintSystem,
    init_claim: Ext2,
    round_evals: &[Vec<Ext2>],
    challenges: &[Ext2],
) -> (res: (KVar, Vec<KVar>))
    requires
        cs_wf(old(cs)@),
        round_evals@.len() == challenges@.len(),
        forall|i: int| 0 <= i < round_evals@.len() ==> 2 <= (#[trigger] round_evals@[i])@.len() < Q,
    ensures
        cs_wf(final(cs)@),
        cs_extends(old(cs)@, final(cs)@),
        kv_valid(res.0, final(cs)@.0.len()),
        kvs_valid(res.1@, final(cs)@.0.len()),
        kv_value(res.0, final(cs)@.0) == chain_claim(
            rounds_view(round_evals@),
            e2_seq(challenges@),
            init_claim@,
            round_evals@.len() as int,
        ),
        kvs_value(res.1@, final(cs)@.0) == e2_seq(challenges@),
        final(cs)@.1.len() == old(cs)@.1.len() + chain_constraints(rounds_view(round_evals@), round_evals@.len() as int),
        cs_satisfied(final(cs)@) <==> (cs_satisfied(old(cs)@) && chain_ok(
            rounds_view(round_evals@),
            e2_seq(challenges@),
            init_claim@,
            round_evals@.len() as int,
        )),
{
    let ghost s0 = cs@;
    let ghost evals = rounds_view(round_evals@);
    let ghost chs = e2_seq(challenges@);
    proof {
        lemma_extends_refl(s0);
    }
    let mut claim = KVar::allocate(cs, init_claim);
    let mut r_wires: Vec<KVar> = Vec::new();
    let mut i: usize = 0;
    while i < round_evals.len()
        invariant
            i <= round_evals@.len(),
            round_evals@.len() == challenges@.len(),
            forall|i2: int| 0 <= i2 < round_evals@.len() ==> 2 <= (#[trigger] round_evals@[i2])@.len() < Q,
            evals == rounds_view(round_evals@),
            chs == e2_seq(challenges@),
            cs_wf(s0),
            cs_wf(cs@),
            cs_extends(s0, cs@),
            kv_valid(claim, cs@.0.len()),
            kv_value(claim, cs@.0) == chain_claim(evals, chs, init_claim@, i as int),
            r_wires@.len() == i,
            kvs_valid(r_wires@, cs@.0.len()),
            kvs_value(r_wires@, cs@.0) == chs.take(i as int),
            cs_satisfied(cs@) <==> (cs_satisfied(s0) && chain_ok(evals, chs, init_claim@, i as int)),
            cs@.1.len() == s0.1.len() + chain_constraints(evals, i as int),
        decreases round_evals@.len() - i,
    {
        let ghost s1 = cs@;
        let g = alloc_k_wires(cs, &round_evals[i]);
        let ghost s2 = cs@;
        let rk = KVar::allocate(cs, challenges[i]);
        let ghost s3 = cs@;
        proof {
            lemma_extends_trans(s1, s2, s3);
            lemma_kvs_stable(g@, s2, s3);
            lemma_kv_stable(claim, s1, s3);
            assert(round_evals@[i as int]@.len() >= 2);
        }
        let next = sumcheck_round(cs, &g, &claim, &rk);
        proof {
            lemma_extends_trans(s1, s3, cs@);
            lemma_extends_trans(s0, s1, cs@);
            lemma_kvs_stable(r_wires@, s1, cs@);
            lemma_kv_stable(rk, s3, cs@);
            assert(kvs_value(g@, s3.0) == evals[i as int]);
            assert(evals[i as int].len() == g@.len());
            assert(kv_value(rk, cs@.0) == chs[i as int]);
            lemma_chain_step(evals, chs, init_claim@, i as int);
        }
        let ghost old_wires = r_wires@;
        r_wires.push(rk);
        proof {
            assert forall|k: int| 0 <= k < i + 1 implies #[trigger] kvs_value(r_wires@, cs@.0)[k] == chs.take(
                i + 1,
            )[k] by {
                if k < i {
                    assert(r_wires@[k] == old_wires[k]);
                    assert(kvs_value(old_wires, cs@.0)[k] == chs.take(i as int)[k]);
                }
            }
            assert(kvs_value(r_wires@, cs@.0) =~= chs.take(i + 1));
        }
        claim = next;
        i = i + 1;
    }
    proof {
        assert(chs.take(i as int) =~= chs);
    }
    (claim, r_wires)
}

/// The number of constraints the verifier chain adds for its first `i` rounds: two for
/// each round check, and three per product of the in-circuit interpolation, `3 n (n - 1)`
/// for a round of `n` evaluations.
pub open spec fn chain_constraints(rounds: Seq<Seq<E2>>, i: int) -> int
    decreases i,
{
    if i <= 0 {
        0
    } else {
        chain_constraints(rounds, i - 1) + 2 + 3 * (rounds[i - 1].len() * (rounds[i - 1].len() - 1))
    }
}

/// The views of the rounds' evaluations.
pub open spec fn rounds_view(r: Seq<Vec<Ext2>>) -> Seq<Seq<E2>> {
    Seq::new(r.len(), |i: int| e2_seq(r[i]@))
}

/// The chain holds for one more round exactly when it held before and the round's
/// check holds.
pub proof fn lemma_chain_step(evals: Seq<Seq<E2>>, chs: Seq<E2>, init: E2, i: int)
    requires
        0 <= i,
    ensures
        chain_ok(evals, chs, init, i + 1) <==> (chain_ok(evals, chs, init, i) && e2_add(evals[i][0], evals[i][1])
            == chain_claim(evals, chs, init, i)),
        chain_claim(evals, chs, init, i + 1) == interpolate(evals[i], chs[i]),
{
    if chain_ok(evals, chs, init, i + 1) {
        assert(e2_add(evals[i][0], evals[i][1]) == chain_claim(evals, chs, init, i));
    }
}

/// The in-circuit chain checks exactly what the native sum-check verifier checks: on
/// well-shaped rounds and the challenges the transcript derives, every round passes
/// natively iff the chain holds, and both end at the same reduced claim.
pub proof fn law_sumcheck_circuit_matches_verifier(t: TrView, rounds: Seq<Seq<E2>>, claim0: E2, degree: nat)
    requires
        forall|i: int| 0 <= i < rounds.len() ==> #[trigger] sc_round_shaped(rounds, degree, i),
    ensures
        (forall|i: int| 0 <= i < rounds.len() ==> #[trigger] sc_round_ok(t, rounds, claim0, degree, i))
            <==> chain_ok(rounds, sc_point(t, rounds), claim0, rounds.len() as int),
        chain_claim(rounds, sc_point(t, rounds), claim0, rounds.len() as int) == sc_claim(
            t,
            rounds,
            claim0,
            rounds.len() as int,
        ),
{
    let pts = sc_point(t, rounds);
    assert forall|i: int| 0 <= i <= rounds.len() implies #[trigger] chain_claim(rounds, pts, claim0, i) == sc_claim(
        t,
        rounds,
        claim0,
        i,
    ) by {
        if i > 0 {
            lemma_sc_prefix(t, rounds, i);
        }
    }
    if forall|i: int| 0 <= i < rounds.len() ==> #[trigger] sc_round_ok(t, rounds, claim0, degree, i) {
        assert forall|i: int| 0 <= i < rounds.len() implies #[trigger] e2_add(rounds[i][0], rounds[i][1])
            == chain_claim(rounds, pts, claim0, i) by {
            assert(sc_round_ok(t, rounds, claim0, degree, i));
            assert(chain_claim(rounds, pts, claim0, i) == sc_claim(t, rounds, claim0, i));
        }
    }
    if chain_ok(rounds, pts, claim0, rounds.len() as int) {
        assert forall|i: int| 0 <= i < rounds.len() implies #[trigger] sc_round_ok(t, rounds, claim0, degree, i) by {
            assert(e2_add(rounds[i][0], rounds[i][1]) == chain_claim(rounds, pts, claim0, i));
            assert(chain_claim(rounds, pts, claim0, i) == sc_claim(t, rounds, claim0, i));
        }
    }
}

} // verus!
