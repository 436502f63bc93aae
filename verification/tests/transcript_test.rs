//! The Fiat-Shamir transcript: label separation and determinism.

use superneo::fp::Fp;
use superneo::transcript::Transcript;

#[test]
fn squeeze_is_label_separated() {
    let mut t1 = Transcript::new(b"dom");
    let mut t2 = Transcript::new(b"dom");
    assert_ne!(t1.challenge_fp(b"alpha"), t2.challenge_fp(b"beta"));
}

#[test]
fn successive_challenges_differ() {
    let mut t = Transcript::new(b"dom");
    let a = t.challenge_fp(b"c");
    let b = t.challenge_fp(b"c");
    assert_ne!(a, b);
    let mut u = Transcript::new(b"other");
    assert_ne!(u.challenge_fp(b"c"), a);
}

#[test]
fn challenge_vectors_and_ring_sets_have_the_asked_shape() {
    let mut t = Transcript::new(b"dom");
    t.absorb_bytes(b"m", b"payload");
    t.absorb_fp(b"x", Fp::new(9));
    let v = t.challenge_ext_vec(b"v", 5);
    assert_eq!(v.len(), 5);
    let rs = t.challenge_ring_set(b"r", 3, 2);
    assert_eq!(rs.len(), 3);
    for r in &rs {
        for c in r.coeffs() {
            assert!(c.abs_balanced() <= 2);
        }
    }
}

#[test]
fn challenge_ring_set_accepts_a_wide_bound() {
    let mut t = Transcript::new(b"dom");
    let bound: i64 = 5000;
    let set = t.challenge_ring_set(b"c", 3, bound);
    assert_eq!(set.len(), 3);
    let mut wide = false;
    for e in &set {
        for c in e.coeffs().iter() {
            let v = c.balanced();
            assert!(-bound <= v && v <= bound);
            if v.abs() > 1000 {
                wide = true;
            }
        }
    }
    assert!(wide, "some coefficient uses the range beyond 1000");
}
