//! The sum-check protocol over the extension field `K`.
//!
//! The prover is given multilinear tables (each of length `2^l`) and a `combine`
//! closure that forms the summand from one value per table at a point. Each round sends
//! the round polynomial's evaluations at `0, 1, ..., degree`. The verifier is stateless
//! given the proof, the claimed sum, and the degree.

use vstd::arithmetic::power::*;
use vstd::arithmetic::power2::*;
use vstd::prelude::*;

use crate::error::FoldError;
use crate::ext2::{e2_add, e2_base, e2_mul, e2_one, e2_scale, e2_seq, e2_sub, e2_zero, Ext2, E2};
use crate::fp::{fmod, fmul, fpow, fsub, lemma_fp_lt_q, Fp};
use crate::multilinear::{fold1, mle};
use crate::sc_complete::{computes, hyper_sum, law_sumcheck_complete, low_degree, seq_canon};
use crate::ext2::e2_canon;
use crate::transcript::{absorb_spec, after_ext, challenge_ext_spec, ext_bytes, Transcript, TrView};
use crate::Q;

verus! {

broadcast use lemma_fp_lt_q;

/// `prod_{j' < j, j' != i} (r - j')`.
pub open spec fn lag_num(r: E2, i: int, j: int) -> E2
    decreases j,
{
    if j <= 0 {
        e2_one()
    } else if j - 1 == i {
        lag_num(r, i, j - 1)
    } else {
        e2_mul(lag_num(r, i, j - 1), e2_sub(r, e2_base(fmod(j - 1))))
    }
}

/// `prod_{j' < j, j' != i} (i - j')` in `F`.
pub open spec fn lag_den(i: int, j: int) -> nat
    decreases j,
{
    if j <= 0 {
        1
    } else if j - 1 == i {
        lag_den(i, j - 1)
    } else {
        fmul(lag_den(i, j - 1), fsub(fmod(i), fmod(j - 1)))
    }
}

/// The first `n` terms of the Lagrange interpolation through `(i, evals[i])` at `r`;
/// each denominator is inverted as `den^(q-2)`.
pub open spec fn lagrange_spec(evals: Seq<E2>, r: E2, n: int) -> E2
    decreases n,
{
    if n <= 0 {
        e2_zero()
    } else {
        e2_add(
            lagrange_spec(evals, r, n - 1),
            e2_scale(
                e2_mul(evals[n - 1], lag_num(r, n - 1, evals.len() as int)),
                fpow(lag_den(n - 1, evals.len() as int), (Q - 2) as nat),
            ),
        )
    }
}

/// The interpolating polynomial through `(i, evals[i])`, evaluated at `r`.
pub open spec fn interpolate(evals: Seq<E2>, r: E2) -> E2 {
    lagrange_spec(evals, r, evals.len() as int)
}

/// Lagrange interpolation: evaluate at `r` given values at the points `0 .. len`.
pub fn lagrange_eval(evals: &[Ext2], r: Ext2) -> (out: Ext2)
    requires
        evals.len() < Q,
    ensures
        out@ == interpolate(e2_seq(evals@), r@),
{
    let n = evals.len();
    let ghost ev = e2_seq(evals@);
    let mut acc = Ext2::zero();
    let mut i: usize = 0;
    while i < n
        invariant
            i <= n,
            n == evals.len(),
            n < Q,
            ev == e2_seq(evals@),
            acc@ == lagrange_spec(ev, r@, i as int),
        decreases n - i,
    {
        let mut num = Ext2::one();
        let mut den = Fp::one();
        let pi = Fp::new(i as u64);
        let mut j: usize = 0;
        while j < n
            invariant
                j <= n,
                i < n,
                n < Q,
                pi@ == fmod(i as int),
                num@ == lag_num(r@, i as int, j as int),
                den@ == lag_den(i as int, j as int),
            decreases n - j,
        {
            if i != j {
                let pj = Fp::new(j as u64);
                num = num * (r - Ext2::from_base(pj));
                den = den * (pi - pj);
            }
            j = j + 1;
        }
        let inv = match den.inv() {
            Ok(v) => v,
            Err(_) => {
                proof {
                    lemma0_pow((Q - 2) as nat);
                }
                Fp::zero()
            },
        };
        acc = acc + (evals[i] * num).mul_base(inv);
        i = i + 1;
    }
    acc
}

/// A round polynomial, by its evaluations at `0, 1, ..., degree`.
#[derive(Clone, Debug, PartialEq, Eq)]
pub struct RoundPoly(pub Vec<Ext2>);

impl View for RoundPoly {
    type V = Seq<E2>;

    open spec fn view(&self) -> Seq<E2> {
        e2_seq(self.0@)
    }
}

impl RoundPoly {
    /// `g(0) + g(1)`, the sum-check round invariant.
    pub fn sum_over_bit(&self) -> (r: Ext2)
        requires
            self.0@.len() >= 2,
        ensures
            r@ == e2_add(self@[0], self@[1]),
    {
        self.0[0] + self.0[1]
    }

    /// Evaluate at an arbitrary `r` by Lagrange interpolation through `0 ..= degree`.
    pub fn eval_at(&self, r: Ext2) -> (out: Ext2)
        requires
            self.0@.len() < Q,
        ensures
            out@ == interpolate(self@, r@),
    {
        lagrange_eval(&self.0, r)
    }
}

/// A sum-check proof: one round polynomial per variable.
#[derive(Clone, Debug, PartialEq, Eq)]
pub struct SumCheckProof {
    /// One round polynomial per variable.
    pub rounds: Vec<RoundPoly>,
}

impl View for SumCheckProof {
    type V = Seq<Seq<E2>>;

    open spec fn view(&self) -> Seq<Seq<E2>> {
        self.rounds@.map_values(|g: RoundPoly| g@)
    }
}

/// The ASCII bytes of "sc/g", the label of round evaluations.
pub open spec fn sc_g_tag() -> Seq<u8> {
    seq![115u8, 99, 47, 103]
}

/// The ASCII bytes of "sc/r", the label of round challenges.
pub open spec fn sc_r_tag() -> Seq<u8> {
    seq![115u8, 99, 47, 114]
}

/// The transcript after absorbing each extension element of `v` under `label`.
pub open spec fn absorb_exts(t: TrView, label: Seq<u8>, v: Seq<E2>) -> TrView
    decreases v.len(),
{
    if v.len() == 0 {
        t
    } else {
        absorb_spec(absorb_exts(t, label, v.drop_last()), label, ext_bytes(v.last()))
    }
}

/// The transcript after the rounds `rounds`.
pub open spec fn sc_state(t: TrView, rounds: Seq<Seq<E2>>) -> TrView
    decreases rounds.len(),
{
    if rounds.len() == 0 {
        t
    } else {
        after_ext(absorb_exts(sc_state(t, rounds.drop_last()), sc_g_tag(), rounds.last()))
    }
}

/// The challenges drawn over the rounds `rounds`.
pub open spec fn sc_point(t: TrView, rounds: Seq<Seq<E2>>) -> Seq<E2>
    decreases rounds.len(),
{
    if rounds.len() == 0 {
        Seq::empty()
    } else {
        sc_point(t, rounds.drop_last()).push(
            challenge_ext_spec(
                absorb_exts(sc_state(t, rounds.drop_last()), sc_g_tag(), rounds.last()),
                sc_r_tag(),
            ),
        )
    }
}

/// The running claim before round `i`: the claimed sum, then each round polynomial
/// evaluated at its challenge.
pub open spec fn sc_claim(t: TrView, rounds: Seq<Seq<E2>>, claim0: E2, i: int) -> E2 {
    if i <= 0 {
        claim0
    } else {
        interpolate(rounds[i - 1], sc_point(t, rounds.take(i))[i - 1])
    }
}

/// Round `i` has `degree + 1` evaluations.
pub open spec fn sc_round_shaped(rounds: Seq<Seq<E2>>, degree: nat, i: int) -> bool {
    rounds[i].len() == degree + 1
}

/// Round `i` is well shaped and `g_i(0) + g_i(1)` equals the running claim.
pub open spec fn sc_round_ok(t: TrView, rounds: Seq<Seq<E2>>, claim0: E2, degree: nat, i: int) -> bool {
    &&& sc_round_shaped(rounds, degree, i)
    &&& e2_add(rounds[i][0], rounds[i][1]) == sc_claim(t, rounds, claim0, i)
}

/// Transcript states and points only depend on the rounds so far.
pub proof fn lemma_sc_prefix(t: TrView, rounds: Seq<Seq<E2>>, i: int)
    requires
        0 <= i <= rounds.len(),
    ensures
        sc_point(t, rounds.take(i)) == sc_point(t, rounds).take(i),
        sc_point(t, rounds).len() == rounds.len(),
    decreases rounds.len(),
{
    if rounds.len() > 0 {
        if i == rounds.len() {
            assert(rounds.take(i) =~= rounds);
            lemma_sc_prefix(t, rounds.drop_last(), 0);
            assert(sc_point(t, rounds).take(i) =~= sc_point(t, rounds));
        } else {
            lemma_sc_prefix(t, rounds.drop_last(), i);
            assert(rounds.drop_last().take(i) =~= rounds.take(i));
            assert(sc_point(t, rounds).take(i) =~= sc_point(t, rounds.drop_last()).take(i));
        }
    }
}

/// The residues of a list of tables.
pub open spec fn tables_view(t: Seq<Vec<Ext2>>) -> Seq<Seq<E2>> {
    t.map_values(|row: Vec<Ext2>| e2_seq(row@))
}

/// Every table with its leading variable fixed to `p`.
pub open spec fn fold_all(tabs: Seq<Seq<E2>>, p: E2) -> Seq<Seq<E2>> {
    tabs.map_values(|t: Seq<E2>| fold1(t, p))
}

/// The tables after fixing their first `i` variables to `point[0..i]`.
pub open spec fn tables_at(tabs: Seq<Seq<E2>>, point: Seq<E2>, i: nat) -> Seq<Seq<E2>>
    decreases i,
{
    if i == 0 {
        tabs
    } else {
        fold_all(tables_at(tabs, point, (i - 1) as nat), point[i - 1])
    }
}

/// One value per table at hypercube index `x` of the remaining variables, with the
/// leading variable set to the integer `c`.
pub open spec fn point_vals(tabs: Seq<Seq<E2>>, x: int, c: int) -> Seq<E2> {
    Seq::new(
        tabs.len(),
        |ti: int|
            e2_add(
                e2_mul(tabs[ti][x], e2_sub(e2_one(), e2_base(fmod(c)))),
                e2_mul(tabs[ti][tabs[ti].len() / 2 + x], e2_base(fmod(c))),
            ),
    )
}

/// The sum of a sequence of extension elements, accumulated left to right.
pub open spec fn e2_sum(s: Seq<E2>) -> E2
    decreases s.len(),
{
    if s.len() == 0 {
        e2_zero()
    } else {
        e2_add(e2_sum(s.drop_last()), s.last())
    }
}

/// `combine` can return `out` on arguments whose residues are `vals`.
pub open spec fn combine_gives<F: Fn(&[Ext2]) -> Ext2>(combine: F, vals: Seq<E2>, out: E2) -> bool {
    exists|v: &[Ext2], o: Ext2| #[trigger] call_ensures(combine, (v,), o) && e2_seq(v@) == vals && o@ == out
}

/// `v` is the sum, over the `half` points of the remaining hypercube, of what `combine`
/// returns on the tables at that point with the round's variable set to `c`.
pub open spec fn round_value_ok<F: Fn(&[Ext2]) -> Ext2>(
    combine: F,
    tabs: Seq<Seq<E2>>,
    half: nat,
    c: int,
    v: E2,
) -> bool {
    exists|outs: Seq<E2>|
        #![trigger e2_sum(outs)]
        outs.len() == half && (forall|x: int|
            0 <= x < half ==> combine_gives(combine, point_vals(tabs, x, c), #[trigger] outs[x]))
            && v == e2_sum(outs)
}

/// Every value `g[c]` of a round polynomial is the sum of `combine` at the points of the
/// remaining hypercube, with the round's variable set to `c`.
pub open spec fn round_values_ok<F: Fn(&[Ext2]) -> Ext2>(
    combine: F,
    tabs: Seq<Seq<E2>>,
    half: nat,
    g: Seq<E2>,
) -> bool {
    forall|c: int| 0 <= c < g.len() ==> #[trigger] round_value_ok(combine, tabs, half, c, g[c])
}

/// Prove `sum_{x in {0,1}^ell} combine(tables(x)) = T`.
///
/// Returns the proof and the point `r'` fixed by the transcript. Round `i` sends, for
/// each `c` in `0 ..= degree`, the sum of `combine` over the tables folded at the
/// earlier challenges with the round's variable set to `c`; its challenge is drawn from
/// the transcript after its evaluations are absorbed, exactly as the verifier does.
pub fn sumcheck_prove<F: Fn(&[Ext2]) -> Ext2>(
    tables: Vec<Vec<Ext2>>,
    combine: F,
    degree: usize,
    ell: usize,
    tr: &mut Transcript,
) -> (res: (SumCheckProof, Vec<Ext2>))
    requires
        ell < 64,
        pow2(ell as nat) <= usize::MAX,
        degree + 1 < Q,
        degree < usize::MAX,
        forall|i: int| 0 <= i < tables@.len() ==> (#[trigger] tables@[i])@.len() == pow2(ell as nat),
        forall|v: &[Ext2]| v@.len() == tables@.len() ==> #[trigger] call_requires(combine, (v,)),
    ensures
        res.0@.len() == ell,
        forall|i: int| 0 <= i < ell ==> (#[trigger] res.0@[i]).len() == degree + 1,
        e2_seq(res.1@) == sc_point(old(tr)@, res.0@),
        final(tr)@ == sc_state(old(tr)@, res.0@),
        forall|i: int|
            0 <= i < ell ==> round_values_ok(
                combine,
                tables_at(tables_view(tables@), e2_seq(res.1@), i as nat),
                pow2((ell - i - 1) as nat),
                #[trigger] res.0@[i],
            ),
        forall|f: spec_fn(Seq<E2>) -> E2|
            #[trigger] computes(combine, f, tables@.len()) && low_degree(f, tables@.len(), degree as nat) && degree >= 1
                ==> {
                let sum = hyper_sum(f, tables_view(tables@), pow2(ell as nat));
                &&& forall|i: int| 0 <= i < ell ==> #[trigger] sc_round_ok(old(tr)@, res.0@, sum, degree as nat, i)
                &&& sc_claim(old(tr)@, res.0@, sum, ell as int) == f(
                    Seq::new(tables@.len(), |ti: int| mle(tables_view(tables@)[ti], e2_seq(res.1@))),
                )
            },
{
    let ghost t0 = tr@;
    let ghost tables_in = tables@;
    let ghost tabs0 = tables_view(tables@);
    let n_tables = tables.len();
    let mut tables = tables;
    let mut size: usize = 1;
    let mut e: usize = 0;
    proof {
        lemma2_to64();
    }
    while e < ell
        invariant
            e <= ell,
            ell < 64,
            pow2(ell as nat) <= usize::MAX,
            size == pow2(e as nat),
        decreases ell - e,
    {
        proof {
            lemma_pow2_unfold((e + 1) as nat);
            if e + 1 < ell {
                lemma_pow2_strictly_increases((e + 1) as nat, ell as nat);
            }
        }
        size = size * 2;
        e = e + 1;
    }
    let mut rounds: Vec<RoundPoly> = Vec::new();
    let mut r_prime: Vec<Ext2> = Vec::new();
    let g_lbl: [u8; 4] = [115u8, 99, 47, 103];
    let r_lbl: [u8; 4] = [115u8, 99, 47, 114];
    assert(g_lbl@ =~= sc_g_tag());
    assert(r_lbl@ =~= sc_r_tag());
    let mut round: usize = 0;
    while round < ell
        invariant
            round <= ell,
            ell < 64,
            degree + 1 < Q,
            degree < usize::MAX,
            size == pow2((ell - round) as nat),
            r_prime@.len() == round,
            tables@.len() == n_tables,
            tabs0.len() == n_tables,
            forall|i: int| 0 <= i < n_tables ==> (#[trigger] tables@[i])@.len() == size,
            forall|v: &[Ext2]| v@.len() == n_tables ==> #[trigger] call_requires(combine, (v,)),
            g_lbl@ == sc_g_tag(),
            r_lbl@ == sc_r_tag(),
            t0 == old(tr)@,
            rounds@.len() == round,
            forall|i: int| 0 <= i < round ==> (#[trigger] rounds@[i])@.len() == degree + 1,
            e2_seq(r_prime@) == sc_point(t0, rounds@.map_values(|g: RoundPoly| g@)),
            tr@ == sc_state(t0, rounds@.map_values(|g: RoundPoly| g@)),
            tables_view(tables@) == tables_at(tabs0, e2_seq(r_prime@), round as nat),
            forall|i: int|
                0 <= i < round ==> round_values_ok(
                    combine,
                    tables_at(tabs0, e2_seq(r_prime@), i as nat),
                    pow2((ell - i - 1) as nat),
                    #[trigger] rounds@[i]@,
                ),
        decreases ell - round,
    {
        proof {
            lemma_pow2_unfold((ell - round) as nat);
        }
        let half = size / 2;
        let ghost tabs = tables_view(tables@);
        let mut g: Vec<Ext2> = Vec::new();
        let mut c: usize = 0;
        while c <= degree
            invariant
                c <= degree + 1,
                degree + 1 < Q,
                degree < usize::MAX,
                half * 2 == size,
                tables@.len() == n_tables,
                tabs == tables_view(tables@),
                forall|i: int| 0 <= i < n_tables ==> (#[trigger] tables@[i])@.len() == size,
                forall|v: &[Ext2]| v@.len() == n_tables ==> #[trigger] call_requires(combine, (v,)),
                g@.len() == c,
                round_values_ok(combine, tabs, half as nat, e2_seq(g@)),
            decreases degree + 1 - c,
        {
            let pt = Ext2::from_base(Fp::new(c as u64));
            let one_minus = Ext2::one() - pt;
            let mut acc = Ext2::zero();
            let ghost mut outs: Seq<E2> = Seq::empty();
            let mut x: usize = 0;
            while x < half
                invariant
                    x <= half,
                    half * 2 == size,
                    c <= degree,
                    pt@ == e2_base(fmod(c as int)),
                    one_minus@ == e2_sub(e2_one(), e2_base(fmod(c as int))),
                    tables@.len() == n_tables,
                    tabs == tables_view(tables@),
                    forall|i: int| 0 <= i < n_tables ==> (#[trigger] tables@[i])@.len() == size,
                    forall|v: &[Ext2]| v@.len() == n_tables ==> #[trigger] call_requires(combine, (v,)),
                    outs.len() == x,
                    acc@ == e2_sum(outs),
                    forall|x2: int|
                        0 <= x2 < x ==> combine_gives(combine, point_vals(tabs, x2, c as int), #[trigger] outs[x2]),
                decreases half - x,
            {
                let mut vals: Vec<Ext2> = Vec::new();
                let mut ti: usize = 0;
                while ti < n_tables
                    invariant
                        ti <= n_tables,
                        x < half,
                        half * 2 == size,
                        tables@.len() == n_tables,
                        tabs == tables_view(tables@),
                        forall|i: int| 0 <= i < n_tables ==> (#[trigger] tables@[i])@.len() == size,
                        pt@ == e2_base(fmod(c as int)),
                        one_minus@ == e2_sub(e2_one(), e2_base(fmod(c as int))),
                        vals@.len() == ti,
                        forall|t2: int| 0 <= t2 < ti ==> (#[trigger] vals@[t2])@ == point_vals(tabs, x as int, c as int)[t2],
                    decreases n_tables - ti,
                {
                    let t = &tables[ti];
                    vals.push(t[x] * one_minus + t[half + x] * pt);
                    ti = ti + 1;
                }
                let sl = vals.as_slice();
                let o = combine(sl);
                proof {
                    assert(e2_seq(sl@) =~= point_vals(tabs, x as int, c as int));
                    assert(combine_gives(combine, point_vals(tabs, x as int, c as int), o@));
                    let outs2 = outs.push(o@);
                    assert(outs2.drop_last() =~= outs);
                    outs = outs2;
                }
                acc = acc + o;
                x = x + 1;
            }
            let ghost g_before = e2_seq(g@);
            g.push(acc);
            proof {
                let gv = e2_seq(g@);
                assert(round_value_ok(combine, tabs, half as nat, c as int, acc@));
                assert forall|c2: int| 0 <= c2 < gv.len() implies #[trigger] round_value_ok(
                    combine,
                    tabs,
                    half as nat,
                    c2,
                    gv[c2],
                ) by {
                    if c2 < c {
                        assert(gv[c2] == g_before[c2]);
                        assert(round_value_ok(combine, tabs, half as nat, c2, g_before[c2]));
                    }
                }
            }
            c = c + 1;
        }
        let ghost before = tr@;
        let mut ei: usize = 0;
        while ei < g.len()
            invariant
                ei <= g@.len(),
                g_lbl@ == sc_g_tag(),
                tr@ == absorb_exts(before, sc_g_tag(), e2_seq(g@).take(ei as int)),
            decreases g@.len() - ei,
        {
            tr.absorb_ext(g_lbl.as_slice(), g[ei]);
            proof {
                assert(e2_seq(g@).take(ei + 1).drop_last() =~= e2_seq(g@).take(ei as int));
            }
            ei = ei + 1;
        }
        assert(e2_seq(g@).take(g@.len() as int) =~= e2_seq(g@));
        let r = tr.challenge_ext(r_lbl.as_slice());
        let mut next: Vec<Vec<Ext2>> = Vec::new();
        let mut ti: usize = 0;
        while ti < n_tables
            invariant
                ti <= n_tables,
                half * 2 == size,
                tables@.len() == n_tables,
                tabs == tables_view(tables@),
                forall|i: int| 0 <= i < n_tables ==> (#[trigger] tables@[i])@.len() == size,
                next@.len() == ti,
                forall|t2: int| 0 <= t2 < ti ==> (#[trigger] next@[t2])@.len() == half,
                forall|t2: int| 0 <= t2 < ti ==> e2_seq((#[trigger] next@[t2])@) == fold1(tabs[t2], r@),
            decreases n_tables - ti,
        {
            let t = &tables[ti];
            let mut folded: Vec<Ext2> = Vec::new();
            let mut xx: usize = 0;
            while xx < half
                invariant
                    xx <= half,
                    half * 2 == size,
                    ti < n_tables,
                    t@.len() == size,
                    e2_seq(t@) == tabs[ti as int],
                    folded@.len() == xx,
                    forall|x2: int| 0 <= x2 < xx ==> (#[trigger] folded@[x2])@ == fold1(tabs[ti as int], r@)[x2],
                decreases half - xx,
            {
                folded.push(t[xx] * (Ext2::one() - r) + t[half + xx] * r);
                xx = xx + 1;
            }
            assert(e2_seq(folded@) =~= fold1(tabs[ti as int], r@));
            next.push(folded);
            ti = ti + 1;
        }
        let ghost old_rounds = rounds@.map_values(|gg: RoundPoly| gg@);
        let ghost old_point = e2_seq(r_prime@);
        let poly = RoundPoly(g);
        rounds.push(poly);
        r_prime.push(r);
        proof {
            let rv = rounds@.map_values(|gg: RoundPoly| gg@);
            assert(rv.drop_last() =~= old_rounds);
            assert(e2_seq(r_prime@) =~= sc_point(t0, rv));
            assert(e2_seq(r_prime@).take(round as int) =~= old_point);
            assert(tables_view(next@) =~= fold_all(tabs, r@));
            lemma_tables_at_prefix(tabs0, e2_seq(r_prime@), old_point, round as nat);
            assert forall|i: int| 0 <= i <= round implies #[trigger] tables_at(tabs0, e2_seq(r_prime@), i as nat)
                == tables_at(tabs0, old_point, i as nat) by {
                lemma_tables_at_prefix(tabs0, e2_seq(r_prime@), old_point, i as nat);
            }
        }
        tables = next;
        size = half;
        round = round + 1;
    }
    proof {
        assert(rounds@.map_values(|g: RoundPoly| g@) =~= SumCheckProof { rounds }@);
        let rv = SumCheckProof { rounds }@;
        let n = tables_in.len();
        assert forall|ti: int| 0 <= ti < n implies (#[trigger] tabs0[ti]).len() == pow2(ell as nat) && seq_canon(
            tabs0[ti],
        ) by {
            assert(tabs0[ti] == e2_seq(tables_in[ti]@));
            assert forall|x: int| 0 <= x < tabs0[ti].len() implies e2_canon(#[trigger] tabs0[ti][x]) by {
                assert(tabs0[ti][x] == tables_in[ti]@[x]@);
            }
        }
        assert forall|f: spec_fn(Seq<E2>) -> E2|
            #[trigger] computes(combine, f, n) && low_degree(f, n, degree as nat) && degree >= 1 implies {
            let sum = hyper_sum(f, tabs0, pow2(ell as nat));
            &&& forall|i: int| 0 <= i < ell ==> #[trigger] sc_round_ok(t0, rv, sum, degree as nat, i)
            &&& sc_claim(t0, rv, sum, ell as int) == f(Seq::new(n, |ti: int| mle(tabs0[ti], e2_seq(r_prime@))))
        } by {
            law_sumcheck_complete(combine, f, degree as nat, ell as nat, tabs0, t0, rv, e2_seq(r_prime@));
        }
    }
    (SumCheckProof { rounds }, r_prime)
}

/// Folding only reads the point's first `i` entries.
proof fn lemma_tables_at_prefix(tabs: Seq<Seq<E2>>, p1: Seq<E2>, p2: Seq<E2>, i: nat)
    requires
        i <= p1.len(),
        i <= p2.len(),
        forall|j: int| 0 <= j < i ==> p1[j] == p2[j],
    ensures
        tables_at(tabs, p1, i) == tables_at(tabs, p2, i),
    decreases i,
{
    if i > 0 {
        lemma_tables_at_prefix(tabs, p1, p2, (i - 1) as nat);
    }
}

/// Verify a sum-check proof against the claimed sum.
///
/// Rejects with `Malformed` when the proof does not have `ell` rounds or, at the first
/// bad round, when that round has not `degree + 1` evaluations; with `SumCheck` when
/// `g(0) + g(1)` differs from the running claim. On success returns the challenges
/// and the final reduced claim `g_last(r_last)`.
pub fn sumcheck_verify(
    proof: &SumCheckProof,
    claimed_sum: Ext2,
    degree: usize,
    ell: usize,
    tr: &mut Transcript,
) -> (res: Result<(Vec<Ext2>, Ext2), FoldError>)
    requires
        degree + 1 < Q,
        degree >= 1,
    ensures
        proof@.len() != ell ==> res matches Err(FoldError::Malformed(_)),
        res matches Err(e) ==> (e is Malformed || e is SumCheck),
        proof@.len() == ell ==> (res is Ok <==> forall|i: int|
            0 <= i < ell ==> #[trigger] sc_round_ok(
                old(tr)@,
                proof@,
                claimed_sum@,
                degree as nat,
                i,
            )),
        res matches Err(FoldError::SumCheck { round }) ==> round < ell && !sc_round_ok(
            old(tr)@,
            proof@,
            claimed_sum@,
            degree as nat,
            round as int,
        ) && sc_round_shaped(proof@, degree as nat, round as int) && forall|i: int|
            0 <= i < round ==> #[trigger] sc_round_ok(
                old(tr)@,
                proof@,
                claimed_sum@,
                degree as nat,
                i,
            ),
        res matches Err(FoldError::Malformed(_)) ==> proof@.len() != ell || exists|round: int|
            0 <= round < ell && !sc_round_shaped(proof@, degree as nat, round) && forall|i: int|
                0 <= i < round ==> #[trigger] sc_round_ok(old(tr)@, proof@, claimed_sum@, degree as nat, i),
        res matches Ok((r, claim)) ==> {
            &&& e2_seq(r@) == sc_point(old(tr)@, proof@)
            &&& claim@ == sc_claim(old(tr)@, proof@, claimed_sum@, ell as int)
            &&& final(tr)@ == sc_state(old(tr)@, proof@)
        },
{
    if proof.rounds.len() != ell {
        return Err(FoldError::Malformed(crate::error::msg_round_count(proof.rounds.len(), ell)));
    }
    let ghost t0 = tr@;
    let ghost rs = proof@;
    let mut claim = claimed_sum;
    let mut r_prime: Vec<Ext2> = Vec::new();
    let g_lbl: [u8; 4] = [115u8, 99, 47, 103];
    let r_lbl: [u8; 4] = [115u8, 99, 47, 114];
    assert(g_lbl@ =~= sc_g_tag());
    assert(r_lbl@ =~= sc_r_tag());
    let mut round: usize = 0;
    while round < proof.rounds.len()
        invariant
            round <= ell,
            ell == proof.rounds@.len(),
            rs == proof@,
            rs.len() == ell,
            t0 == old(tr)@,
            degree + 1 < Q,
            degree >= 1,
            g_lbl@ == sc_g_tag(),
            r_lbl@ == sc_r_tag(),
            e2_seq(r_prime@) == sc_point(t0, rs.take(round as int)),
            tr@ == sc_state(t0, rs.take(round as int)),
            claim@ == sc_claim(t0, rs, claimed_sum@, round as int),
            forall|i: int| 0 <= i < round ==> #[trigger] sc_round_ok(t0, rs, claimed_sum@, degree as nat, i),
        decreases ell - round,
    {
        let poly = &proof.rounds[round];
        assert(poly@ == rs[round as int]);
        if poly.0.len() == 0 || poly.0.len() - 1 != degree {
            assert(!sc_round_ok(t0, rs, claimed_sum@, degree as nat, round as int));
            assert(!sc_round_shaped(rs, degree as nat, round as int));
            let want = if degree < usize::MAX { degree + 1 } else { degree };
            return Err(FoldError::Malformed(crate::error::msg_round_evals(round, poly.0.len(), want)));
        }
        let s = poly.sum_over_bit();
        if !s.equals(claim) {
            assert(!sc_round_ok(t0, rs, claimed_sum@, degree as nat, round as int));
            return Err(FoldError::SumCheck { round });
        }
        let ghost before = tr@;
        let mut e: usize = 0;
        while e < poly.0.len()
            invariant
                e <= poly.0@.len(),
                g_lbl@ == sc_g_tag(),
                tr@ == absorb_exts(before, sc_g_tag(), poly@.take(e as int)),
            decreases poly.0@.len() - e,
        {
            tr.absorb_ext(g_lbl.as_slice(), poly.0[e]);
            proof {
                assert(poly@.take(e + 1).drop_last() =~= poly@.take(e as int));
            }
            e = e + 1;
        }
        assert(poly@.take(poly.0@.len() as int) =~= poly@);
        let r = tr.challenge_ext(r_lbl.as_slice());
        let next = poly.eval_at(r);
        r_prime.push(r);
        proof {
            let tk = rs.take(round + 1);
            assert(tk.drop_last() =~= rs.take(round as int));
            assert(tk.last() == poly@);
            assert(e2_seq(r_prime@) =~= sc_point(t0, tk));
            lemma_sc_prefix(t0, rs, round + 1);
            lemma_sc_prefix(t0, tk, round + 1);
            assert(tk.take(round + 1) =~= tk);
        }
        claim = next;
        round = round + 1;
    }
    proof {
        assert(rs.take(ell as int) =~= rs);
    }
    Ok((r_prime, claim))
}

} // verus!
