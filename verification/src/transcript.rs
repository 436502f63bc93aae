//! Fiat–Shamir transcript: a length-framed Blake3 sponge.
//!
//! `absorb` folds `(label, data)` into a 32-byte state; `squeeze` derives output from
//! `(state, label, counter)` without touching the state, and the counter is reset by
//! the next absorb. Prover and verifier must absorb identical bytes in identical order.

use vstd::bytes::{spec_u128_from_le_bytes, spec_u64_to_le_bytes, u128_from_le_bytes, u64_to_le_bytes};
use vstd::prelude::*;

use crate::challenge::{challenge_coeff, challenge_from_words};
use crate::commit::Commitment;
use crate::ext2::{Ext2, E2};
use crate::fp::{fmod, lemma_fp_lt_q, Fp};
use crate::pp::PublicParams;
use crate::types::{mat_seq, CcsStructure};
use crate::ring::{lemma_ring_wf, RingElem, D};

verus! {

broadcast use {lemma_fp_lt_q, lemma_ring_wf};

/// What `blake3::hash` returns on `input`: its 32-byte digest.
pub uninterp spec fn blake3_hash_spec(input: Seq<u8>) -> Seq<u8>;

/// The first `n` bytes of the Blake3 extendable output of `input`.
pub uninterp spec fn blake3_xof_spec(input: Seq<u8>, n: nat) -> Seq<u8>;

/// `blake3::hash`: the Blake3 digest of `input`. The contract names the digest as a
/// function of the input bytes alone; nothing else is claimed of it.
#[verifier::external_body]
pub(crate) fn blake3_hash(input: &[u8]) -> (r: [u8; 32])
    ensures
        r@ == blake3_hash_spec(input@),
{
    *blake3::hash(input).as_bytes()
}

/// `blake3::Hasher::finalize_xof` followed by `OutputReader::fill`: the first `n` bytes
/// of the extendable output of `input`. Claimed: the result has `n` bytes and is a
/// function of `(input, n)` alone.
#[verifier::external_body]
pub(crate) fn blake3_xof(input: &[u8], n: usize) -> (r: Vec<u8>)
    ensures
        r@ == blake3_xof_spec(input@, n as nat),
        r@.len() == n,
{
    let mut h = blake3::Hasher::new();
    h.update(input);
    let mut out = vec![0u8; n];
    h.finalize_xof().fill(&mut out);
    out
}

/// The little-endian bytes of a 64-bit value.
pub open spec fn le64(x: nat) -> Seq<u8> {
    spec_u64_to_le_bytes(x as u64)
}

/// `label` and `data`, each preceded by its length as 8 little-endian bytes.
pub open spec fn frame(label: Seq<u8>, data: Seq<u8>) -> Seq<u8> {
    le64(label.len()) + label + le64(data.len()) + data
}

/// The abstract transcript: its 32-byte state and its squeeze counter.
pub type TrView = (Seq<u8>, u64);

/// The transcript after absorbing `data` under `label`.
pub open spec fn absorb_spec(t: TrView, label: Seq<u8>, data: Seq<u8>) -> TrView {
    (blake3_hash_spec(t.0 + frame(label, data)), 0)
}

/// The bytes `squeeze` hashes: state, the word "squeeze", the framed label, the counter.
pub open spec fn squeeze_input(t: TrView, label: Seq<u8>) -> Seq<u8> {
    t.0 + squeeze_tag() + le64(label.len()) + label + le64(t.1 as nat)
}

/// The ASCII bytes of "squeeze".
pub open spec fn squeeze_tag() -> Seq<u8> {
    seq![115u8, 113, 117, 101, 101, 122, 101]
}

/// The `n` bytes a squeeze under `label` produces.
pub open spec fn squeeze_spec(t: TrView, label: Seq<u8>, n: nat) -> Seq<u8> {
    blake3_xof_spec(squeeze_input(t, label), n)
}

/// The transcript after one squeeze (the counter advances, wrapping).
pub open spec fn after_squeeze(t: TrView) -> TrView {
    (t.0, if t.1 == u64::MAX { 0 } else { (t.1 + 1) as u64 })
}

/// The field element a 16-byte squeeze yields: the little-endian integer mod `q`.
pub open spec fn challenge_fp_spec(t: TrView, label: Seq<u8>) -> nat {
    fmod(spec_u128_from_le_bytes(squeeze_spec(t, label, 16)) as int)
}

/// The extension element of two successive field challenges.
pub open spec fn challenge_ext_spec(t: TrView, label: Seq<u8>) -> E2 {
    (challenge_fp_spec(t, label), challenge_fp_spec(after_squeeze(t), label))
}

/// The transcript after one extension challenge (two squeezes).
pub open spec fn after_ext(t: TrView) -> TrView {
    after_squeeze(after_squeeze(t))
}

/// The initial transcript for a domain label.
pub open spec fn transcript_init(domain: Seq<u8>) -> TrView {
    absorb_spec((Seq::new(32, |i: int| 0u8), 0), dom_tag(), domain)
}

/// The ASCII bytes of "dom".
pub open spec fn dom_tag() -> Seq<u8> {
    seq![100u8, 111, 109]
}

/// The bytes of a field element (its canonical value, little-endian).
pub open spec fn fp_bytes(x: nat) -> Seq<u8> {
    le64(x)
}

/// The bytes of an extension element: both components.
pub open spec fn ext_bytes(x: E2) -> Seq<u8> {
    le64(x.0) + le64(x.1)
}

/// The bytes of a sequence of field elements, each as 8 little-endian bytes.
pub open spec fn fps_bytes(v: Seq<nat>) -> Seq<u8>
    decreases v.len(),
{
    if v.len() == 0 {
        Seq::empty()
    } else {
        fps_bytes(v.drop_last()) + le64(v.last())
    }
}

/// The bytes of a sequence of coefficient vectors, one after the other.
pub open spec fn rows_bytes(m: Seq<Seq<nat>>) -> Seq<u8>
    decreases m.len(),
{
    if m.len() == 0 {
        Seq::empty()
    } else {
        rows_bytes(m.drop_last()) + fps_bytes(m.last())
    }
}

/// The bytes of a sequence of matrices, one after the other.
pub open spec fn mats_bytes(ms: Seq<Seq<Seq<nat>>>) -> Seq<u8>
    decreases ms.len(),
{
    if ms.len() == 0 {
        Seq::empty()
    } else {
        mats_bytes(ms.drop_last()) + rows_bytes(ms.last())
    }
}

/// The transcript after absorbing each ring element of `v` under `label`, in order.
pub open spec fn absorb_rings(t: TrView, label: Seq<u8>, v: Seq<Seq<nat>>) -> TrView
    decreases v.len(),
{
    if v.len() == 0 {
        t
    } else {
        absorb_spec(absorb_rings(t, label, v.drop_last()), label, fps_bytes(v.last()))
    }
}

/// The transcript after `n` extension challenges.
pub open spec fn after_exts(t: TrView, n: nat) -> TrView
    decreases n,
{
    if n == 0 {
        t
    } else {
        after_ext(after_exts(t, (n - 1) as nat))
    }
}

/// The 64-bit word at index `w` of a byte string (bytes `8w .. 8w + 8`, little-endian).
pub open spec fn word_at(bytes: Seq<u8>, w: int) -> u64 {
    vstd::bytes::spec_u64_from_le_bytes(bytes.subrange(8 * w, 8 * w + 8))
}

/// The ASCII bytes of "superneo/vk/pp/v1".
pub open spec fn pp_tag() -> Seq<u8> {
    seq![115u8, 117, 112, 101, 114, 110, 101, 111, 47, 118, 107, 47, 112, 112, 47, 118, 49]
}

/// The bytes hashed into the digest of the commitment key.
pub open spec fn pp_digest_input(pp: PublicParams) -> Seq<u8> {
    pp_tag() + le64(pp.kappa as nat) + le64(pp.n_cols as nat) + mats_bytes(pp.matrix())
}

/// The ASCII bytes of "superneo/vk/s/v1".
pub open spec fn s_tag() -> Seq<u8> {
    seq![115u8, 117, 112, 101, 114, 110, 101, 111, 47, 118, 107, 47, 115, 47, 118, 49]
}

/// The ASCII bytes of "superneo/vk/v1".
pub open spec fn vk_tag() -> Seq<u8> {
    seq![115u8, 117, 112, 101, 114, 110, 101, 111, 47, 118, 107, 47, 118, 49]
}

/// The ASCII bytes of "vk".
pub open spec fn vk_label() -> Seq<u8> {
    seq![118u8, 107]
}

/// The ASCII bytes of "structure".
pub open spec fn structure_label() -> Seq<u8> {
    seq![115u8, 116, 114, 117, 99, 116, 117, 114, 101]
}

/// The bytes of an exponent vector, each exponent as 8 little-endian bytes.
pub open spec fn u32s_bytes(e: Seq<u32>) -> Seq<u8>
    decreases e.len(),
{
    if e.len() == 0 {
        Seq::empty()
    } else {
        u32s_bytes(e.drop_last()) + le64(e.last() as nat)
    }
}

/// The bytes of the terms of a polynomial: coefficient, exponent count, exponents.
pub open spec fn terms_bytes(terms: Seq<(Fp, Vec<u32>)>) -> Seq<u8>
    decreases terms.len(),
{
    if terms.len() == 0 {
        Seq::empty()
    } else {
        terms_bytes(terms.drop_last()) + le64(terms.last().0@) + le64(terms.last().1@.len())
            + u32s_bytes(terms.last().1@)
    }
}

/// The matrices of a structure, as residues.
pub open spec fn ccs_mats(s: CcsStructure) -> Seq<Seq<Seq<nat>>> {
    s.matrices@.map_values(|m: Vec<Vec<Fp>>| mat_seq(m@))
}

/// The bytes hashed into the digest of a CCS structure.
pub open spec fn structure_digest_input(s: CcsStructure) -> Seq<u8> {
    s_tag() + le64(s.matrices@.len()) + le64(s.m as nat) + mats_bytes(ccs_mats(s)) + le64(
        s.f.t as nat,
    ) + le64(s.f.terms@.len()) + terms_bytes(s.f.terms@)
}

/// The bytes hashed into the verifier-key digest.
pub open spec fn vk_digest_input(pp: PublicParams, s: CcsStructure) -> Seq<u8> {
    vk_tag() + blake3_hash_spec(pp_digest_input(pp)) + blake3_hash_spec(structure_digest_input(s))
}

/// Append the bytes of the field elements `v` to `buf`.
fn append_fps(buf: &mut Vec<u8>, v: &[Fp])
    ensures
        final(buf)@ == old(buf)@ + fps_bytes(crate::fp::fp_seq(v@)),
{
    let ghost fv = crate::fp::fp_seq(v@);
    let mut i: usize = 0;
    while i < v.len()
        invariant
            i <= v.len(),
            fv == crate::fp::fp_seq(v@),
            buf@ == old(buf)@ + fps_bytes(fv.take(i as int)),
        decreases v.len() - i,
    {
        let b = u64_to_le_bytes(v[i].to_u64());
        append_bytes(buf, b.as_slice());
        proof {
            assert(fv.take(i + 1).drop_last() =~= fv.take(i as int));
            assert(fv.take(i + 1).last() == v@[i as int]@);
        }
        i = i + 1;
    }
    assert(fv.take(v.len() as int) =~= fv);
}

/// Append `data` to `buf`.
pub fn append_bytes(buf: &mut Vec<u8>, data: &[u8])
    ensures
        final(buf)@ == old(buf)@ + data@,
{
    buf.extend_from_slice(data);
    assert(final(buf)@ =~= old(buf)@ + data@) by {
        assert forall|i: int| 0 <= i < final(buf)@.len() implies final(buf)@[i] == (old(buf)@ + data@)[i] by {}
    }
}

/// A Blake3 Fiat–Shamir transcript.
#[derive(Clone, Debug)]
pub struct Transcript {
    state: [u8; 32],
    squeeze_ctr: u64,
}

impl View for Transcript {
    type V = TrView;

    closed spec fn view(&self) -> TrView {
        (self.state@, self.squeeze_ctr)
    }
}

impl Transcript {
    /// Start a transcript bound to a domain-separation label.
    pub fn new(domain: &[u8]) -> (r: Transcript)
        ensures
            r@ == transcript_init(domain@),
    {
        let mut t = Transcript { state: [0u8;32], squeeze_ctr: 0 };
        assert(t@.0 =~= Seq::new(32, |i: int| 0u8));
        let tag: [u8; 3] = [100u8, 111, 109];
        assert(tag@ =~= dom_tag());
        t.absorb_bytes(tag.as_slice(), domain);
        t
    }

    /// Absorb raw bytes under a label (both length-framed).
    pub fn absorb_bytes(&mut self, label: &[u8], data: &[u8])
        ensures
            final(self)@ == absorb_spec(old(self)@, label@, data@),
    {
        let mut buf: Vec<u8> = Vec::new();
        append_bytes(&mut buf, self.state.as_slice());
        let ll = u64_to_le_bytes(label.len() as u64);
        append_bytes(&mut buf, ll.as_slice());
        append_bytes(&mut buf, label);
        let dl = u64_to_le_bytes(data.len() as u64);
        append_bytes(&mut buf, dl.as_slice());
        append_bytes(&mut buf, data);
        assert(buf@ =~= old(self)@.0 + frame(label@, data@));
        self.state = blake3_hash(buf.as_slice());
        self.squeeze_ctr = 0;
    }

    /// Absorb a field element.
    pub fn absorb_fp(&mut self, label: &[u8], x: Fp)
        ensures
            final(self)@ == absorb_spec(old(self)@, label@, fp_bytes(x@)),
    {
        let b = u64_to_le_bytes(x.to_u64());
        self.absorb_bytes(label, b.as_slice());
    }

    /// Absorb an extension element.
    pub fn absorb_ext(&mut self, label: &[u8], x: Ext2)
        ensures
            final(self)@ == absorb_spec(old(self)@, label@, ext_bytes(x@)),
    {
        let mut buf = u64_to_le_bytes(x.c0.to_u64());
        let b1 = u64_to_le_bytes(x.c1.to_u64());
        append_bytes(&mut buf, b1.as_slice());
        self.absorb_bytes(label, buf.as_slice());
    }

    /// Squeeze `n` bytes under `label`; advances the counter, keeps the state.
    fn squeeze_bytes(&mut self, label: &[u8], n: usize) -> (r: Vec<u8>)
        ensures
            r@ == squeeze_spec(old(self)@, label@, n as nat),
            r@.len() == n,
            final(self)@ == after_squeeze(old(self)@),
    {
        let mut buf: Vec<u8> = Vec::new();
        append_bytes(&mut buf, self.state.as_slice());
        let tag: [u8; 7] = [115u8, 113, 117, 101, 101, 122, 101];
        assert(tag@ =~= squeeze_tag());
        append_bytes(&mut buf, tag.as_slice());
        let ll = u64_to_le_bytes(label.len() as u64);
        append_bytes(&mut buf, ll.as_slice());
        append_bytes(&mut buf, label);
        let cb = u64_to_le_bytes(self.squeeze_ctr);
        append_bytes(&mut buf, cb.as_slice());
        assert(buf@ =~= squeeze_input(old(self)@, label@));
        self.squeeze_ctr = self.squeeze_ctr.wrapping_add(1);
        blake3_xof(buf.as_slice(), n)
    }

    /// Squeeze a field element: 16 bytes read as a little-endian integer, reduced mod `q`.
    pub fn challenge_fp(&mut self, label: &[u8]) -> (r: Fp)
        ensures
            r@ == challenge_fp_spec(old(self)@, label@),
            final(self)@ == after_squeeze(old(self)@),
    {
        let b = self.squeeze_bytes(label, 16);
        let x = u128_from_le_bytes(b.as_slice());
        Fp::reduce128(x)
    }

    /// Squeeze an extension element (two field elements).
    pub fn challenge_ext(&mut self, label: &[u8]) -> (r: Ext2)
        ensures
            r@ == challenge_ext_spec(old(self)@, label@),
            final(self)@ == after_ext(old(self)@),
    {
        let c0 = self.challenge_fp(label);
        let c1 = self.challenge_fp(label);
        Ext2::new(c0, c1)
    }

    /// Absorb a ring element (all 54 coefficients).
    pub fn absorb_ring(&mut self, label: &[u8], a: &RingElem)
        ensures
            final(self)@ == absorb_spec(old(self)@, label@, fps_bytes(a@)),
    {
        let mut buf: Vec<u8> = Vec::new();
        let cs = a.coeffs();
        append_fps(&mut buf, cs.as_slice());
        assert(crate::fp::fp_seq(cs@) =~= a@);
        assert(buf@ =~= fps_bytes(a@));
        self.absorb_bytes(label, buf.as_slice());
    }

    /// Absorb a commitment: each of its ring slots in turn.
    pub fn absorb_commitment(&mut self, label: &[u8], c: &Commitment)
        ensures
            final(self)@ == absorb_rings(old(self)@, label@, c@),
    {
        let mut i: usize = 0;
        while i < c.0.len()
            invariant
                i <= c.0@.len(),
                c@ == crate::ring::ring_seq(c.0@),
                self@ == absorb_rings(old(self)@, label@, c@.take(i as int)),
            decreases c.0@.len() - i,
        {
            self.absorb_ring(label, &c.0[i]);
            proof {
                assert(c@.take(i + 1).drop_last() =~= c@.take(i as int));
            }
            i = i + 1;
        }
        assert(c@.take(c.0@.len() as int) =~= c@);
    }

    /// A 32-byte digest of the commitment key: its shape and every matrix coefficient.
    pub fn pp_digest(pp: &PublicParams) -> (r: [u8; 32])
        requires
            pp.wf(),
        ensures
            r@ == blake3_hash_spec(pp_digest_input(*pp)),
    {
        let mut buf: Vec<u8> = Vec::new();
        let tag: [u8; 17] = [115u8, 117, 112, 101, 114, 110, 101, 111, 47, 118, 107, 47, 112, 112, 47, 118, 49];
        assert(tag@ =~= pp_tag());
        append_bytes(&mut buf, tag.as_slice());
        let kb = u64_to_le_bytes(pp.kappa as u64);
        append_bytes(&mut buf, kb.as_slice());
        let nb = u64_to_le_bytes(pp.n_cols as u64);
        append_bytes(&mut buf, nb.as_slice());
        let ghost head = buf@;
        let ghost mx = pp.matrix();
        let mut i: usize = 0;
        while i < pp.kappa
            invariant
                pp.wf(),
                i <= pp.kappa,
                mx == pp.matrix(),
                buf@ == head + mats_bytes(mx.take(i as int)),
            decreases pp.kappa - i,
        {
            let ghost before = buf@;
            let mut j: usize = 0;
            while j < pp.n_cols
                invariant
                    pp.wf(),
                    i < pp.kappa,
                    j <= pp.n_cols,
                    mx == pp.matrix(),
                    buf@ == before + rows_bytes(mx[i as int].take(j as int)),
                decreases pp.n_cols - j,
            {
                let e = pp.entry(i, j);
                let cs = e.coeffs();
                append_fps(&mut buf, cs.as_slice());
                proof {
                    assert(crate::fp::fp_seq(cs@) =~= e@);
                    assert(mx[i as int].take(j + 1).drop_last() =~= mx[i as int].take(j as int));
                }
                j = j + 1;
            }
            proof {
                assert(mx[i as int].take(pp.n_cols as int) =~= mx[i as int]);
                assert(mx.take(i + 1).drop_last() =~= mx.take(i as int));
            }
            i = i + 1;
        }
        assert(mx.take(pp.kappa as int) =~= mx);
        assert(buf@ =~= pp_digest_input(*pp));
        blake3_hash(buf.as_slice())
    }

    /// A 32-byte digest of a CCS structure: its shape, every matrix entry, and the
    /// terms of its polynomial.
    pub fn structure_digest(s: &CcsStructure) -> (r: [u8; 32])
        ensures
            r@ == blake3_hash_spec(structure_digest_input(*s)),
    {
        let mut buf: Vec<u8> = Vec::new();
        let tag: [u8; 16] = [115u8, 117, 112, 101, 114, 110, 101, 111, 47, 118, 107, 47, 115, 47, 118, 49];
        assert(tag@ =~= s_tag());
        append_bytes(&mut buf, tag.as_slice());
        let tb = u64_to_le_bytes(s.t() as u64);
        append_bytes(&mut buf, tb.as_slice());
        let mb = u64_to_le_bytes(s.m as u64);
        append_bytes(&mut buf, mb.as_slice());
        let ghost head = buf@;
        let ghost ms = ccs_mats(*s);
        let mut j: usize = 0;
        while j < s.matrices.len()
            invariant
                j <= s.matrices@.len(),
                ms == ccs_mats(*s),
                buf@ == head + mats_bytes(ms.take(j as int)),
            decreases s.matrices@.len() - j,
        {
            let mat = &s.matrices[j];
            let ghost before = buf@;
            let ghost mv = mat_seq(mat@);
            let mut i: usize = 0;
            while i < mat.len()
                invariant
                    i <= mat@.len(),
                    mv == mat_seq(mat@),
                    buf@ == before + rows_bytes(mv.take(i as int)),
                decreases mat@.len() - i,
            {
                append_fps(&mut buf, mat[i].as_slice());
                proof {
                    assert(mv.take(i + 1).drop_last() =~= mv.take(i as int));
                }
                i = i + 1;
            }
            proof {
                assert(mv.take(mat@.len() as int) =~= mv);
                assert(ms.take(j + 1).drop_last() =~= ms.take(j as int));
                assert(ms[j as int] == mv);
            }
            j = j + 1;
        }
        assert(ms.take(s.matrices@.len() as int) =~= ms);
        let ft = u64_to_le_bytes(s.f.t as u64);
        append_bytes(&mut buf, ft.as_slice());
        let nt = u64_to_le_bytes(s.f.terms.len() as u64);
        append_bytes(&mut buf, nt.as_slice());
        let ghost head2 = buf@;
        let ghost ts = s.f.terms@;
        let mut k: usize = 0;
        while k < s.f.terms.len()
            invariant
                k <= ts.len(),
                ts == s.f.terms@,
                buf@ == head2 + terms_bytes(ts.take(k as int)),
            decreases ts.len() - k,
        {
            let coeff = s.f.terms[k].0;
            let exps = &s.f.terms[k].1;
            let cb = u64_to_le_bytes(coeff.to_u64());
            append_bytes(&mut buf, cb.as_slice());
            let lb = u64_to_le_bytes(exps.len() as u64);
            append_bytes(&mut buf, lb.as_slice());
            let ghost before = buf@;
            let mut v: usize = 0;
            while v < exps.len()
                invariant
                    v <= exps@.len(),
                    buf@ == before + u32s_bytes(exps@.take(v as int)),
                decreases exps@.len() - v,
            {
                let eb = u64_to_le_bytes(exps[v] as u64);
                append_bytes(&mut buf, eb.as_slice());
                proof {
                    assert(exps@.take(v + 1).drop_last() =~= exps@.take(v as int));
                }
                v = v + 1;
            }
            proof {
                assert(exps@.take(exps@.len() as int) =~= exps@);
                assert(ts.take(k + 1).drop_last() =~= ts.take(k as int));
            }
            k = k + 1;
        }
        assert(ts.take(ts.len() as int) =~= ts);
        assert(buf@ =~= structure_digest_input(*s));
        blake3_hash(buf.as_slice())
    }

    /// Bind the verifier key (the commitment key and the relation) into the transcript:
    /// absorb, under "vk", the digest of the key digest and the structure digest.
    pub fn absorb_vk(&mut self, pp: &PublicParams, s: &CcsStructure)
        requires
            pp.wf(),
        ensures
            final(self)@ == absorb_spec(old(self)@, vk_label(), blake3_hash_spec(vk_digest_input(*pp, *s))),
    {
        let pp_d = Transcript::pp_digest(pp);
        let s_d = Transcript::structure_digest(s);
        let mut buf: Vec<u8> = Vec::new();
        let tag: [u8; 14] = [115u8, 117, 112, 101, 114, 110, 101, 111, 47, 118, 107, 47, 118, 49];
        assert(tag@ =~= vk_tag());
        append_bytes(&mut buf, tag.as_slice());
        append_bytes(&mut buf, pp_d.as_slice());
        append_bytes(&mut buf, s_d.as_slice());
        assert(buf@ =~= vk_digest_input(*pp, *s));
        let h = blake3_hash(buf.as_slice());
        let lbl: [u8; 2] = [118u8, 107];
        assert(lbl@ =~= vk_label());
        self.absorb_bytes(lbl.as_slice(), h.as_slice());
    }

    /// Bind only the relation structure, under "structure".
    pub fn absorb_structure(&mut self, s: &CcsStructure)
        ensures
            final(self)@ == absorb_spec(old(self)@, structure_label(), blake3_hash_spec(structure_digest_input(*s))),
    {
        let s_d = Transcript::structure_digest(s);
        let lbl: [u8; 9] = [115u8, 116, 114, 117, 99, 116, 117, 114, 101];
        assert(lbl@ =~= structure_label());
        self.absorb_bytes(lbl.as_slice(), s_d.as_slice());
    }

    /// Squeeze `n` extension elements.
    pub fn challenge_ext_vec(&mut self, label: &[u8], n: usize) -> (r: Vec<Ext2>)
        ensures
            r@.len() == n,
            forall|i: int|
                0 <= i < n ==> (#[trigger] r@[i])@ == challenge_ext_spec(
                    after_exts(old(self)@, i as nat),
                    label@,
                ),
            final(self)@ == after_exts(old(self)@, n as nat),
    {
        let mut out: Vec<Ext2> = Vec::new();
        let mut i: usize = 0;
        while i < n
            invariant
                i <= n,
                out@.len() == i,
                self@ == after_exts(old(self)@, i as nat),
                forall|t: int|
                    0 <= t < i ==> (#[trigger] out@[t])@ == challenge_ext_spec(
                        after_exts(old(self)@, t as nat),
                        label@,
                    ),
            decreases n - i,
        {
            out.push(self.challenge_ext(label));
            i = i + 1;
        }
        out
    }

    /// Squeeze `n` challenges from the strong sampling set: ring elements whose
    /// coefficients are `w mod (2 bound + 1) - bound` for successive 64-bit words `w`
    /// of one squeeze of `8 * 54 * n` bytes.
    pub fn challenge_ring_set(&mut self, label: &[u8], n: usize, bound: i64) -> (r: Vec<RingElem>)
        requires
            0 <= bound <= 0x3FFF_FFFF_FFFF_FFFF,
            8 * 54 * n <= usize::MAX,
        ensures
            r@.len() == n,
            forall|i: int, l: int|
                0 <= i < n && 0 <= l < 54 ==> (#[trigger] r@[i]@[l]) == challenge_coeff(
                    word_at(squeeze_spec(old(self)@, label@, (8 * 54 * n) as nat), i * 54 + l),
                    bound as int,
                ),
            final(self)@ == after_squeeze(old(self)@),
    {
        let bytes = self.squeeze_bytes(label, 8 * D * n);
        let mut out: Vec<RingElem> = Vec::new();
        let mut i: usize = 0;
        while i < n
            invariant
                i <= n,
                0 <= bound <= 0x3FFF_FFFF_FFFF_FFFF,
                8 * 54 * n <= usize::MAX,
                bytes@.len() == 8 * 54 * n,
                out@.len() == i,
                forall|t: int, l: int|
                    0 <= t < i && 0 <= l < 54 ==> (#[trigger] out@[t]@[l]) == challenge_coeff(
                        word_at(bytes@, t * 54 + l),
                        bound as int,
                    ),
            decreases n - i,
        {
            let mut words = [0u64;D];
            let mut l: usize = 0;
            while l < D
                invariant
                    l <= D,
                    i < n,
                    8 * 54 * n <= usize::MAX,
                    bytes@.len() == 8 * 54 * n,
                    forall|t: int| 0 <= t < l ==> (#[trigger] words@[t]) == word_at(bytes@, i * 54 + t),
                decreases D - l,
            {
                proof {
                    assert(i * 54 + l < 54 * n) by (nonlinear_arith)
                        requires i < n, l < 54;
                    assert(8 * (i * 54 + l) + 8 <= 8 * 54 * n) by (nonlinear_arith)
                        requires i * 54 + l < 54 * n;
                }
                let off = 8 * (i * D + l);
                let w = vstd::bytes::u64_from_le_bytes(vstd::slice::slice_subrange(bytes.as_slice(), off, off + 8));
                words[l] = w;
                l = l + 1;
            }
            out.push(challenge_from_words(&words, bound));
            i = i + 1;
        }
        out
    }
}

} // verus!
