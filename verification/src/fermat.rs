//! Fermat's little theorem for the Goldilocks prime `q`, and what follows from it: every
//! nonzero residue has the inverse `a^(q-2)`, products of nonzero residues are nonzero,
//! and `7` is not a square modulo `q`.
//!
//! The proof is Lucas's: `7^(q-1) = 1` while `7^((q-1)/p) != 1` for every prime `p` of
//! `q - 1 = 2^32 * 3 * 5 * 17 * 257 * 65537`, so the powers of `7` are `q - 1` distinct
//! nonzero residues, i.e. all of them.

use vstd::arithmetic::div_mod::*;
use vstd::arithmetic::power::*;
use vstd::prelude::*;

use crate::Q;

verus! {

/// `a^e mod q`, by squaring on even exponents.
pub open spec fn pow_mod(a: nat, e: nat) -> nat
    decreases e,
{
    if e == 0 {
        1
    } else if e % 2 == 0 {
        let h = pow_mod(a, e / 2);
        (h * h) % (Q as nat)
    } else {
        (a * pow_mod(a, (e - 1) as nat)) % (Q as nat)
    }
}

/// One squaring step of `pow_mod`.
proof fn lemma_pow_mod_even(a: nat, e: nat, v: nat)
    requires
        e > 0,
        e % 2 == 0,
        pow_mod(a, e / 2) == v,
    ensures
        pow_mod(a, e) == (v * v) % (Q as nat),
{
}

/// `pow_mod` is the power reduced modulo `q`.
pub proof fn lemma_pow_mod(a: nat, e: nat)
    ensures
        pow_mod(a, e) == pow(a as int, e) % (Q as int),
    decreases e,
{
    let m = Q as int;
    if e == 0 {
        lemma_pow0(a as int);
        lemma_small_mod(1, Q as nat);
    } else if e % 2 == 0 {
        let h = (e / 2) as nat;
        lemma_pow_mod(a, h);
        assert(h + h == e);
        lemma_pow_adds(a as int, h, h);
        lemma_mul_mod_noop(pow(a as int, h), pow(a as int, h), m);
    } else {
        let e1 = (e - 1) as nat;
        lemma_pow_mod(a, e1);
        assert(1 + e1 == e);
        lemma_pow_adds(a as int, 1, e1);
        lemma_pow1(a as int);
        lemma_mul_mod_noop_right(a as int, pow(a as int, e1), m);
    }
}

/// `7^18446744069414584320 mod q`, step by step.
proof fn lemma_pow7_q1()
    ensures
        pow_mod(7, 18446744069414584320) == 1,
{
    assert(pow_mod(7, 0) == 1);
    assert(pow_mod(7, 1) == 7);
    lemma_pow_mod_even(7, 2, 7);
    assert(pow_mod(7, 2) == 49);
    assert(pow_mod(7, 3) == 343);
    lemma_pow_mod_even(7, 6, 343);
    assert(pow_mod(7, 6) == 117649);
    assert(pow_mod(7, 7) == 823543);
    lemma_pow_mod_even(7, 14, 823543);
    assert(pow_mod(7, 14) == 678223072849);
    assert(pow_mod(7, 15) == 4747561509943);
    lemma_pow_mod_even(7, 30, 4747561509943);
    assert(pow_mod(7, 30) == 1582037354089406189);
    assert(pow_mod(7, 31) == 11074261478625843323);
    lemma_pow_mod_even(7, 62, 11074261478625843323);
    assert(pow_mod(7, 62) == 14911712358349047125);
    assert(pow_mod(7, 63) == 12148266161370408270);
    lemma_pow_mod_even(7, 126, 12148266161370408270);
    assert(pow_mod(7, 126) == 14177331716484271384);
    assert(pow_mod(7, 127) == 7007601668316978083);
    lemma_pow_mod_even(7, 254, 7007601668316978083);
    assert(pow_mod(7, 254) == 1160753142525841411);
    assert(pow_mod(7, 255) == 8125271997680889877);
    lemma_pow_mod_even(7, 510, 8125271997680889877);
    assert(pow_mod(7, 510) == 10915923311382173605);
    assert(pow_mod(7, 511) == 2624486902016877951);
    lemma_pow_mod_even(7, 1022, 2624486902016877951);
    assert(pow_mod(7, 1022) == 1179017105118043277);
    assert(pow_mod(7, 1023) == 8253119735826302939);
    lemma_pow_mod_even(7, 2046, 8253119735826302939);
    assert(pow_mod(7, 2046) == 13682469552810377440);
    assert(pow_mod(7, 2047) == 3543566522599720475);
    lemma_pow_mod_even(7, 4094, 3543566522599720475);
    assert(pow_mod(7, 4094) == 12252646851770615269);
    assert(pow_mod(7, 4095) == 11981551684735969599);
    lemma_pow_mod_even(7, 8190, 11981551684735969599);
    assert(pow_mod(7, 8190) == 9343193256669382154);
    assert(pow_mod(7, 8191) == 10062120588441922115);
    lemma_pow_mod_even(7, 16382, 10062120588441922115);
    assert(pow_mod(7, 16382) == 4133221502128927102);
    assert(pow_mod(7, 16383) == 10485806445487905393);
    lemma_pow_mod_even(7, 32766, 10485806445487905393);
    assert(pow_mod(7, 32766) == 5861853314594190514);
    assert(pow_mod(7, 32767) == 4139485063330164956);
    lemma_pow_mod_even(7, 65534, 4139485063330164956);
    assert(pow_mod(7, 65534) == 7004045467739516513);
    assert(pow_mod(7, 65535) == 12134830135347446949);
    lemma_pow_mod_even(7, 131070, 12134830135347446949);
    assert(pow_mod(7, 131070) == 618113109518621269);
    assert(pow_mod(7, 131071) == 4326791766630348883);
    lemma_pow_mod_even(7, 262142, 4326791766630348883);
    assert(pow_mod(7, 262142) == 13205783127219969319);
    assert(pow_mod(7, 262143) == 206761543466863628);
    lemma_pow_mod_even(7, 524286, 206761543466863628);
    assert(pow_mod(7, 524286) == 14617186517222294718);
    assert(pow_mod(7, 524287) == 10086585273483141421);
    lemma_pow_mod_even(7, 1048574, 10086585273483141421);
    assert(pow_mod(7, 1048574) == 5535602650859329748);
    assert(pow_mod(7, 1048575) == 1855730417186139594);
    lemma_pow_mod_even(7, 2097150, 1855730417186139594);
    assert(pow_mod(7, 2097150) == 3724741596018185032);
    assert(pow_mod(7, 2097151) == 7626447102712710903);
    lemma_pow_mod_even(7, 4194302, 7626447102712710903);
    assert(pow_mod(7, 4194302) == 11653985196031332500);
    assert(pow_mod(7, 4194303) == 7790920094560990216);
    lemma_pow_mod_even(7, 8388606, 7790920094560990216);
    assert(pow_mod(7, 8388606) == 16654626667483233145);
    assert(pow_mod(7, 8388607) == 5901922255895126089);
    lemma_pow_mod_even(7, 16777214, 5901922255895126089);
    assert(pow_mod(7, 16777214) == 9182212999444825067);
    assert(pow_mod(7, 16777215) == 8935258787870022506);
    lemma_pow_mod_even(7, 33554430, 8935258787870022506);
    assert(pow_mod(7, 33554430) == 17682034324931514088);
    assert(pow_mod(7, 33554431) == 13093775858033092690);
    lemma_pow_mod_even(7, 67108862, 13093775858033092690);
    assert(pow_mod(7, 67108862) == 9511995656157268947);
    assert(pow_mod(7, 67108863) == 11243737384857129666);
    lemma_pow_mod_even(7, 134217726, 11243737384857129666);
    assert(pow_mod(7, 134217726) == 16106297366990222687);
    assert(pow_mod(7, 134217727) == 2063617152444052883);
    lemma_pow_mod_even(7, 268435454, 2063617152444052883);
    assert(pow_mod(7, 268435454) == 4501656151559876649);
    assert(pow_mod(7, 268435455) == 13064848991504552222);
    lemma_pow_mod_even(7, 536870910, 13064848991504552222);
    assert(pow_mod(7, 536870910) == 2370486178716065012);
    assert(pow_mod(7, 536870911) == 16593403251012455084);
    lemma_pow_mod_even(7, 1073741822, 16593403251012455084);
    assert(pow_mod(7, 1073741822) == 14013264900002007546);
    assert(pow_mod(7, 1073741823) == 5859133952941131217);
    lemma_pow_mod_even(7, 2147483646, 5859133952941131217);
    assert(pow_mod(7, 2147483646) == 10142762553374040318);
    assert(pow_mod(7, 2147483647) == 15659105665374529263);
    lemma_pow_mod_even(7, 4294967294, 15659105665374529263);
    assert(pow_mod(7, 4294967294) == 16062014221418238814);
    assert(pow_mod(7, 4294967295) == 1753635133440165772);
    lemma_pow_mod_even(7, 8589934590, 1753635133440165772);
    assert(pow_mod(7, 8589934590) == 4614640910117430873);
    lemma_pow_mod_even(7, 17179869180, 4614640910117430873);
    assert(pow_mod(7, 17179869180) == 9123114210336311365);
    lemma_pow_mod_even(7, 34359738360, 9123114210336311365);
    assert(pow_mod(7, 34359738360) == 16116352524544190054);
    lemma_pow_mod_even(7, 68719476720, 16116352524544190054);
    assert(pow_mod(7, 68719476720) == 6414415596519834757);
    lemma_pow_mod_even(7, 137438953440, 6414415596519834757);
    assert(pow_mod(7, 137438953440) == 1213594585890690845);
    lemma_pow_mod_even(7, 274877906880, 1213594585890690845);
    assert(pow_mod(7, 274877906880) == 17096174751763063430);
    lemma_pow_mod_even(7, 549755813760, 17096174751763063430);
    assert(pow_mod(7, 549755813760) == 5456943929260765144);
    lemma_pow_mod_even(7, 1099511627520, 5456943929260765144);
    assert(pow_mod(7, 1099511627520) == 9713644485405565297);
    lemma_pow_mod_even(7, 2199023255040, 9713644485405565297);
    assert(pow_mod(7, 2199023255040) == 16905767614792059275);
    lemma_pow_mod_even(7, 4398046510080, 16905767614792059275);
    assert(pow_mod(7, 4398046510080) == 5416168637041100469);
    lemma_pow_mod_even(7, 8796093020160, 5416168637041100469);
    assert(pow_mod(7, 8796093020160) == 17654865857378133588);
    lemma_pow_mod_even(7, 17592186040320, 17654865857378133588);
    assert(pow_mod(7, 17592186040320) == 3511170319078647661);
    lemma_pow_mod_even(7, 35184372080640, 3511170319078647661);
    assert(pow_mod(7, 35184372080640) == 18146160046829613826);
    lemma_pow_mod_even(7, 70368744161280, 18146160046829613826);
    assert(pow_mod(7, 70368744161280) == 9306717745644682924);
    lemma_pow_mod_even(7, 140737488322560, 9306717745644682924);
    assert(pow_mod(7, 140737488322560) == 12380578893860276750);
    lemma_pow_mod_even(7, 281474976645120, 12380578893860276750);
    assert(pow_mod(7, 281474976645120) == 6115771955107415310);
    lemma_pow_mod_even(7, 562949953290240, 6115771955107415310);
    assert(pow_mod(7, 562949953290240) == 17776499369601055404);
    lemma_pow_mod_even(7, 1125899906580480, 17776499369601055404);
    assert(pow_mod(7, 1125899906580480) == 16207902636198568418);
    lemma_pow_mod_even(7, 2251799813160960, 16207902636198568418);
    assert(pow_mod(7, 2251799813160960) == 1532612707718625687);
    lemma_pow_mod_even(7, 4503599626321920, 1532612707718625687);
    assert(pow_mod(7, 4503599626321920) == 17492915097719143606);
    lemma_pow_mod_even(7, 9007199252643840, 17492915097719143606);
    assert(pow_mod(7, 9007199252643840) == 455906449640507599);
    lemma_pow_mod_even(7, 18014398505287680, 455906449640507599);
    assert(pow_mod(7, 18014398505287680) == 11353340290879379826);
    lemma_pow_mod_even(7, 36028797010575360, 11353340290879379826);
    assert(pow_mod(7, 36028797010575360) == 1803076106186727246);
    lemma_pow_mod_even(7, 72057594021150720, 1803076106186727246);
    assert(pow_mod(7, 72057594021150720) == 13797081185216407910);
    lemma_pow_mod_even(7, 144115188042301440, 13797081185216407910);
    assert(pow_mod(7, 144115188042301440) == 17870292113338400769);
    lemma_pow_mod_even(7, 288230376084602880, 17870292113338400769);
    assert(pow_mod(7, 288230376084602880) == 549755813888);
    lemma_pow_mod_even(7, 576460752169205760, 549755813888);
    assert(pow_mod(7, 576460752169205760) == 70368744161280);
    lemma_pow_mod_even(7, 1152921504338411520, 70368744161280);
    assert(pow_mod(7, 1152921504338411520) == 17293822564807737345);
    lemma_pow_mod_even(7, 2305843008676823040, 17293822564807737345);
    assert(pow_mod(7, 2305843008676823040) == 18446744069397807105);
    lemma_pow_mod_even(7, 4611686017353646080, 18446744069397807105);
    assert(pow_mod(7, 4611686017353646080) == 281474976710656);
    lemma_pow_mod_even(7, 9223372034707292160, 281474976710656);
    assert(pow_mod(7, 9223372034707292160) == 18446744069414584320);
    lemma_pow_mod_even(7, 18446744069414584320, 18446744069414584320);
    assert(pow_mod(7, 18446744069414584320) == 1);
}

/// `7^9223372034707292160 mod q`, step by step.
proof fn lemma_pow7_half()
    ensures
        pow_mod(7, 9223372034707292160) == 18446744069414584320,
{
    assert(pow_mod(7, 0) == 1);
    assert(pow_mod(7, 1) == 7);
    lemma_pow_mod_even(7, 2, 7);
    assert(pow_mod(7, 2) == 49);
    assert(pow_mod(7, 3) == 343);
    lemma_pow_mod_even(7, 6, 343);
    assert(pow_mod(7, 6) == 117649);
    assert(pow_mod(7, 7) == 823543);
    lemma_pow_mod_even(7, 14, 823543);
    assert(pow_mod(7, 14) == 678223072849);
    assert(pow_mod(7, 15) == 4747561509943);
    lemma_pow_mod_even(7, 30, 4747561509943);
    assert(pow_mod(7, 30) == 1582037354089406189);
    assert(pow_mod(7, 31) == 11074261478625843323);
    lemma_pow_mod_even(7, 62, 11074261478625843323);
    assert(pow_mod(7, 62) == 14911712358349047125);
    assert(pow_mod(7, 63) == 12148266161370408270);
    lemma_pow_mod_even(7, 126, 12148266161370408270);
    assert(pow_mod(7, 126) == 14177331716484271384);
    assert(pow_mod(7, 127) == 7007601668316978083);
    lemma_pow_mod_even(7, 254, 7007601668316978083);
    assert(pow_mod(7, 254) == 1160753142525841411);
    assert(pow_mod(7, 255) == 8125271997680889877);
    lemma_pow_mod_even(7, 510, 8125271997680889877);
    assert(pow_mod(7, 510) == 10915923311382173605);
    assert(pow_mod(7, 511) == 2624486902016877951);
    lemma_pow_mod_even(7, 1022, 2624486902016877951);
    assert(pow_mod(7, 1022) == 1179017105118043277);
    assert(pow_mod(7, 1023) == 8253119735826302939);
    lemma_pow_mod_even(7, 2046, 8253119735826302939);
    assert(pow_mod(7, 2046) == 13682469552810377440);
    assert(pow_mod(7, 2047) == 3543566522599720475);
    lemma_pow_mod_even(7, 4094, 3543566522599720475);
    assert(pow_mod(7, 4094) == 12252646851770615269);
    assert(pow_mod(7, 4095) == 11981551684735969599);
    lemma_pow_mod_even(7, 8190, 11981551684735969599);
    assert(pow_mod(7, 8190) == 9343193256669382154);
    assert(pow_mod(7, 8191) == 10062120588441922115);
    lemma_pow_mod_even(7, 16382, 10062120588441922115);
    assert(pow_mod(7, 16382) == 4133221502128927102);
    assert(pow_mod(7, 16383) == 10485806445487905393);
    lemma_pow_mod_even(7, 32766, 10485806445487905393);
    assert(pow_mod(7, 32766) == 5861853314594190514);
    assert(pow_mod(7, 32767) == 4139485063330164956);
    lemma_pow_mod_even(7, 65534, 4139485063330164956);
    assert(pow_mod(7, 65534) == 7004045467739516513);
    assert(pow_mod(7, 65535) == 12134830135347446949);
    lemma_pow_mod_even(7, 131070, 12134830135347446949);
    assert(pow_mod(7, 131070) == 618113109518621269);
    assert(pow_mod(7, 131071) == 4326791766630348883);
    lemma_pow_mod_even(7, 262142, 4326791766630348883);
    assert(pow_mod(7, 262142) == 13205783127219969319);
    assert(pow_mod(7, 262143) == 206761543466863628);
    lemma_pow_mod_even(7, 524286, 206761543466863628);
    assert(pow_mod(7, 524286) == 14617186517222294718);
    assert(pow_mod(7, 524287) == 10086585273483141421);
    lemma_pow_mod_even(7, 1048574, 10086585273483141421);
    assert(pow_mod(7, 1048574) == 5535602650859329748);
    assert(pow_mod(7, 1048575) == 1855730417186139594);
    lemma_pow_mod_even(7, 2097150, 1855730417186139594);
    assert(pow_mod(7, 2097150) == 3724741596018185032);
    assert(pow_mod(7, 2097151) == 7626447102712710903);
    lemma_pow_mod_even(7, 4194302, 7626447102712710903);
    assert(pow_mod(7, 4194302) == 11653985196031332500);
    assert(pow_mod(7, 4194303) == 7790920094560990216);
    lemma_pow_mod_even(7, 8388606, 7790920094560990216);
    assert(pow_mod(7, 8388606) == 16654626667483233145);
    assert(pow_mod(7, 8388607) == 5901922255895126089);
    lemma_pow_mod_even(7, 16777214, 5901922255895126089);
    assert(pow_mod(7, 16777214) == 9182212999444825067);
    assert(pow_mod(7, 16777215) == 8935258787870022506);
    lemma_pow_mod_even(7, 33554430, 8935258787870022506);
    assert(pow_mod(7, 33554430) == 17682034324931514088);
    assert(pow_mod(7, 33554431) == 13093775858033092690);
    lemma_pow_mod_even(7, 67108862, 13093775858033092690);
    assert(pow_mod(7, 67108862) == 9511995656157268947);
    assert(pow_mod(7, 67108863) == 11243737384857129666);
    lemma_pow_mod_even(7, 134217726, 11243737384857129666);
    assert(pow_mod(7, 134217726) == 16106297366990222687);
    assert(pow_mod(7, 134217727) == 2063617152444052883);
    lemma_pow_mod_even(7, 268435454, 2063617152444052883);
    assert(pow_mod(7, 268435454) == 4501656151559876649);
    assert(pow_mod(7, 268435455) == 13064848991504552222);
    lemma_pow_mod_even(7, 536870910, 13064848991504552222);
    assert(pow_mod(7, 536870910) == 2370486178716065012);
    assert(pow_mod(7, 536870911) == 16593403251012455084);
    lemma_pow_mod_even(7, 1073741822, 16593403251012455084);
    assert(pow_mod(7, 1073741822) == 14013264900002007546);
    assert(pow_mod(7, 1073741823) == 5859133952941131217);
    lemma_pow_mod_even(7, 2147483646, 5859133952941131217);
    assert(pow_mod(7, 2147483646) == 10142762553374040318);
    assert(pow_mod(7, 2147483647) == 15659105665374529263);
    lemma_pow_mod_even(7, 4294967294, 15659105665374529263);
    assert(pow_mod(7, 4294967294) == 16062014221418238814);
    assert(pow_mod(7, 4294967295) == 1753635133440165772);
    lemma_pow_mod_even(7, 8589934590, 1753635133440165772);
    assert(pow_mod(7, 8589934590) == 4614640910117430873);
    lemma_pow_mod_even(7, 17179869180, 4614640910117430873);
    assert(pow_mod(7, 17179869180) == 9123114210336311365);
    lemma_pow_mod_even(7, 34359738360, 9123114210336311365);
    assert(pow_mod(7, 34359738360) == 16116352524544190054);
    lemma_pow_mod_even(7, 68719476720, 16116352524544190054);
    assert(pow_mod(7, 68719476720) == 6414415596519834757);
    lemma_pow_mod_even(7, 137438953440, 6414415596519834757);
    assert(pow_mod(7, 137438953440) == 1213594585890690845);
    lemma_pow_mod_even(7, 274877906880, 1213594585890690845);
    assert(pow_mod(7, 274877906880) == 17096174751763063430);
    lemma_pow_mod_even(7, 549755813760, 17096174751763063430);
    assert(pow_mod(7, 549755813760) == 5456943929260765144);
    lemma_pow_mod_even(7, 1099511627520, 5456943929260765144);
    assert(pow_mod(7, 1099511627520) == 9713644485405565297);
    lemma_pow_mod_even(7, 2199023255040, 9713644485405565297);
    assert(pow_mod(7, 2199023255040) == 16905767614792059275);
    lemma_pow_mod_even(7, 4398046510080, 16905767614792059275);
    assert(pow_mod(7, 4398046510080) == 5416168637041100469);
    lemma_pow_mod_even(7, 8796093020160, 5416168637041100469);
    assert(pow_mod(7, 8796093020160) == 17654865857378133588);
    lemma_pow_mod_even(7, 17592186040320, 17654865857378133588);
    assert(pow_mod(7, 17592186040320) == 3511170319078647661);
    lemma_pow_mod_even(7, 35184372080640, 3511170319078647661);
    assert(pow_mod(7, 35184372080640) == 18146160046829613826);
    lemma_pow_mod_even(7, 70368744161280, 18146160046829613826);
    assert(pow_mod(7, 70368744161280) == 9306717745644682924);
    lemma_pow_mod_even(7, 140737488322560, 9306717745644682924);
    assert(pow_mod(7, 140737488322560) == 12380578893860276750);
    lemma_pow_mod_even(7, 281474976645120, 12380578893860276750);
    assert(pow_mod(7, 281474976645120) == 6115771955107415310);
    lemma_pow_mod_even(7, 562949953290240, 6115771955107415310);
    assert(pow_mod(7, 562949953290240) == 17776499369601055404);
    lemma_pow_mod_even(7, 1125899906580480, 17776499369601055404);
    assert(pow_mod(7, 1125899906580480) == 16207902636198568418);
    lemma_pow_mod_even(7, 2251799813160960, 16207902636198568418);
    assert(pow_mod(7, 2251799813160960) == 1532612707718625687);
    lemma_pow_mod_even(7, 4503599626321920, 1532612707718625687);
    assert(pow_mod(7, 4503599626321920) == 17492915097719143606);
    lemma_pow_mod_even(7, 9007199252643840, 17492915097719143606);
    assert(pow_mod(7, 9007199252643840) == 455906449640507599);
    lemma_pow_mod_even(7, 18014398505287680, 455906449640507599);
    assert(pow_mod(7, 18014398505287680) == 11353340290879379826);
    lemma_pow_mod_even(7, 36028797010575360, 11353340290879379826);
    assert(pow_mod(7, 36028797010575360) == 1803076106186727246);
    lemma_pow_mod_even(7, 72057594021150720, 1803076106186727246);
    assert(pow_mod(7, 72057594021150720) == 13797081185216407910);
    lemma_pow_mod_even(7, 144115188042301440, 13797081185216407910);
    assert(pow_mod(7, 144115188042301440) == 17870292113338400769);
    lemma_pow_mod_even(7, 288230376084602880, 17870292113338400769);
    assert(pow_mod(7, 288230376084602880) == 549755813888);
    lemma_pow_mod_even(7, 576460752169205760, 549755813888);
    assert(pow_mod(7, 576460752169205760) == 70368744161280);
    lemma_pow_mod_even(7, 1152921504338411520, 70368744161280);
    assert(pow_mod(7, 1152921504338411520) == 17293822564807737345);
    lemma_pow_mod_even(7, 2305843008676823040, 17293822564807737345);
    assert(pow_mod(7, 2305843008676823040) == 18446744069397807105);
    lemma_pow_mod_even(7, 4611686017353646080, 18446744069397807105);
    assert(pow_mod(7, 4611686017353646080) == 281474976710656);
    lemma_pow_mod_even(7, 9223372034707292160, 281474976710656);
    assert(pow_mod(7, 9223372034707292160) == 18446744069414584320);
}

/// `7^6148914689804861440 mod q`, step by step.
proof fn lemma_pow7_third()
    ensures
        pow_mod(7, 6148914689804861440) == 18446744065119617025,
{
    assert(pow_mod(7, 0) == 1);
    assert(pow_mod(7, 1) == 7);
    lemma_pow_mod_even(7, 2, 7);
    assert(pow_mod(7, 2) == 49);
    lemma_pow_mod_even(7, 4, 49);
    assert(pow_mod(7, 4) == 2401);
    assert(pow_mod(7, 5) == 16807);
    lemma_pow_mod_even(7, 10, 16807);
    assert(pow_mod(7, 10) == 282475249);
    lemma_pow_mod_even(7, 20, 282475249);
    assert(pow_mod(7, 20) == 79792266297612001);
    assert(pow_mod(7, 21) == 558545864083284007);
    lemma_pow_mod_even(7, 42, 558545864083284007);
    assert(pow_mod(7, 42) == 8022122801911579307);
    lemma_pow_mod_even(7, 84, 8022122801911579307);
    assert(pow_mod(7, 84) == 4463956420510902100);
    assert(pow_mod(7, 85) == 12800950874161730379);
    lemma_pow_mod_even(7, 170, 12800950874161730379);
    assert(pow_mod(7, 170) == 14271156885488964304);
    lemma_pow_mod_even(7, 340, 14271156885488964304);
    assert(pow_mod(7, 340) == 6640181542876171230);
    assert(pow_mod(7, 341) == 9587782661304029968);
    lemma_pow_mod_even(7, 682, 9587782661304029968);
    assert(pow_mod(7, 682) == 10276868313419320864);
    lemma_pow_mod_even(7, 1364, 10276868313419320864);
    assert(pow_mod(7, 1364) == 12692611838971331761);
    assert(pow_mod(7, 1365) == 15061306595140985043);
    lemma_pow_mod_even(7, 2730, 15061306595140985043);
    assert(pow_mod(7, 2730) == 10087193495066827832);
    lemma_pow_mod_even(7, 5460, 10087193495066827832);
    assert(pow_mod(7, 5460) == 17666492521142301186);
    assert(pow_mod(7, 5461) == 12984983231508602376);
    lemma_pow_mod_even(7, 10922, 12984983231508602376);
    assert(pow_mod(7, 10922) == 1362657970957379548);
    lemma_pow_mod_even(7, 21844, 1362657970957379548);
    assert(pow_mod(7, 21844) == 14866894507972756995);
    assert(pow_mod(7, 21845) == 11834541208736377360);
    lemma_pow_mod_even(7, 43690, 11834541208736377360);
    assert(pow_mod(7, 43690) == 15486580570079272365);
    lemma_pow_mod_even(7, 87380, 15486580570079272365);
    assert(pow_mod(7, 87380) == 8219357140934485557);
    assert(pow_mod(7, 87381) == 2195267778297645936);
    lemma_pow_mod_even(7, 174762, 2195267778297645936);
    assert(pow_mod(7, 174762) == 12545318111885672966);
    lemma_pow_mod_even(7, 349524, 12545318111885672966);
    assert(pow_mod(7, 349524) == 16274283408395477026);
    assert(pow_mod(7, 349525) == 3239519442280833256);
    lemma_pow_mod_even(7, 699050, 3239519442280833256);
    assert(pow_mod(7, 699050) == 11109814195885452171);
    lemma_pow_mod_even(7, 1398100, 11109814195885452171);
    assert(pow_mod(7, 1398100) == 8592128779201082244);
    assert(pow_mod(7, 1398101) == 4804669246163822745);
    lemma_pow_mod_even(7, 2796202, 4804669246163822745);
    assert(pow_mod(7, 2796202) == 438903447396483212);
    lemma_pow_mod_even(7, 5592404, 438903447396483212);
    assert(pow_mod(7, 5592404) == 16528309341332431468);
    assert(pow_mod(7, 5592405) == 5017700972839514350);
    lemma_pow_mod_even(7, 11184810, 5017700972839514350);
    assert(pow_mod(7, 11184810) == 7499557959359525151);
    lemma_pow_mod_even(7, 22369620, 7499557959359525151);
    assert(pow_mod(7, 22369620) == 6501481669499740747);
    assert(pow_mod(7, 22369621) == 8616883547669016587);
    lemma_pow_mod_even(7, 44739242, 8616883547669016587);
    assert(pow_mod(7, 44739242) == 458110968676413213);
    lemma_pow_mod_even(7, 89478484, 458110968676413213);
    assert(pow_mod(7, 89478484) == 1678842135369159008);
    assert(pow_mod(7, 89478485) == 11751894947584113056);
    lemma_pow_mod_even(7, 178956970, 11751894947584113056);
    assert(pow_mod(7, 178956970) == 525895266577965633);
    lemma_pow_mod_even(7, 357913940, 525895266577965633);
    assert(pow_mod(7, 357913940) == 8359630718448719682);
    assert(pow_mod(7, 357913941) == 3177182820897284811);
    lemma_pow_mod_even(7, 715827882, 3177182820897284811);
    assert(pow_mod(7, 715827882) == 7964267603545906836);
    lemma_pow_mod_even(7, 1431655764, 7964267603545906836);
    assert(pow_mod(7, 1431655764) == 17834245605091780246);
    assert(pow_mod(7, 1431655765) == 14159254819154955796);
    lemma_pow_mod_even(7, 2863311530, 14159254819154955796);
    assert(pow_mod(7, 2863311530) == 998724450546658713);
    lemma_pow_mod_even(7, 5726623060, 998724450546658713);
    assert(pow_mod(7, 5726623060) == 1811047956385014016);
    lemma_pow_mod_even(7, 11453246120, 1811047956385014016);
    assert(pow_mod(7, 11453246120) == 2957134717709447844);
    lemma_pow_mod_even(7, 22906492240, 2957134717709447844);
    assert(pow_mod(7, 22906492240) == 8418656202527058970);
    lemma_pow_mod_even(7, 45812984480, 8418656202527058970);
    assert(pow_mod(7, 45812984480) == 9344165103595421707);
    lemma_pow_mod_even(7, 91625968960, 9344165103595421707);
    assert(pow_mod(7, 91625968960) == 12398472707942400981);
    lemma_pow_mod_even(7, 183251937920, 12398472707942400981);
    assert(pow_mod(7, 183251937920) == 10977358340789161543);
    lemma_pow_mod_even(7, 366503875840, 10977358340789161543);
    assert(pow_mod(7, 366503875840) == 14519574879452399500);
    lemma_pow_mod_even(7, 733007751680, 14519574879452399500);
    assert(pow_mod(7, 733007751680) == 3056692624244734627);
    lemma_pow_mod_even(7, 1466015503360, 3056692624244734627);
    assert(pow_mod(7, 1466015503360) == 17973258314804772181);
    lemma_pow_mod_even(7, 2932031006720, 17973258314804772181);
    assert(pow_mod(7, 2932031006720) == 15462695660743809749);
    lemma_pow_mod_even(7, 5864062013440, 15462695660743809749);
    assert(pow_mod(7, 5864062013440) == 18046908317468628738);
    lemma_pow_mod_even(7, 11728124026880, 18046908317468628738);
    assert(pow_mod(7, 11728124026880) == 9144605907772536802);
    lemma_pow_mod_even(7, 23456248053760, 9144605907772536802);
    assert(pow_mod(7, 23456248053760) == 8796482344486648840);
    lemma_pow_mod_even(7, 46912496107520, 8796482344486648840);
    assert(pow_mod(7, 46912496107520) == 3596945015050375886);
    lemma_pow_mod_even(7, 93824992215040, 3596945015050375886);
    assert(pow_mod(7, 93824992215040) == 4201997653601256896);
    lemma_pow_mod_even(7, 187649984430080, 4201997653601256896);
    assert(pow_mod(7, 187649984430080) == 6905479200839918232);
    lemma_pow_mod_even(7, 375299968860160, 6905479200839918232);
    assert(pow_mod(7, 375299968860160) == 1725491680989254570);
    lemma_pow_mod_even(7, 750599937720320, 1725491680989254570);
    assert(pow_mod(7, 750599937720320) == 12370230134295797906);
    lemma_pow_mod_even(7, 1501199875440640, 12370230134295797906);
    assert(pow_mod(7, 1501199875440640) == 3734230229149707555);
    lemma_pow_mod_even(7, 3002399750881280, 3734230229149707555);
    assert(pow_mod(7, 3002399750881280) == 16496341184493220914);
    lemma_pow_mod_even(7, 6004799501762560, 16496341184493220914);
    assert(pow_mod(7, 6004799501762560) == 15331777707844533717);
    lemma_pow_mod_even(7, 12009599003525120, 15331777707844533717);
    assert(pow_mod(7, 12009599003525120) == 11895029263313522992);
    lemma_pow_mod_even(7, 24019198007050240, 11895029263313522992);
    assert(pow_mod(7, 24019198007050240) == 11373273867503537004);
    lemma_pow_mod_even(7, 48038396014100480, 11373273867503537004);
    assert(pow_mod(7, 48038396014100480) == 13835058050987180033);
    lemma_pow_mod_even(7, 96076792028200960, 13835058050987180033);
    assert(pow_mod(7, 96076792028200960) == 35184372080640);
    lemma_pow_mod_even(7, 192153584056401920, 35184372080640);
    assert(pow_mod(7, 192153584056401920) == 18158513693262872577);
    lemma_pow_mod_even(7, 384307168112803840, 18158513693262872577);
    assert(pow_mod(7, 384307168112803840) == 18446744069413535745);
    lemma_pow_mod_even(7, 768614336225607680, 18446744069413535745);
    assert(pow_mod(7, 768614336225607680) == 1099511627776);
    lemma_pow_mod_even(7, 1537228672451215360, 1099511627776);
    assert(pow_mod(7, 1537228672451215360) == 281474976645120);
    lemma_pow_mod_even(7, 3074457344902430720, 281474976645120);
    assert(pow_mod(7, 3074457344902430720) == 18446744065119617026);
    lemma_pow_mod_even(7, 6148914689804861440, 18446744065119617026);
    assert(pow_mod(7, 6148914689804861440) == 18446744065119617025);
}

/// `7^3689348813882916864 mod q`, step by step.
proof fn lemma_pow7_fifth()
    ensures
        pow_mod(7, 3689348813882916864) == 1373043270956696022,
{
    assert(pow_mod(7, 0) == 1);
    assert(pow_mod(7, 1) == 7);
    lemma_pow_mod_even(7, 2, 7);
    assert(pow_mod(7, 2) == 49);
    assert(pow_mod(7, 3) == 343);
    lemma_pow_mod_even(7, 6, 343);
    assert(pow_mod(7, 6) == 117649);
    lemma_pow_mod_even(7, 12, 117649);
    assert(pow_mod(7, 12) == 13841287201);
    lemma_pow_mod_even(7, 24, 13841287201);
    assert(pow_mod(7, 24) == 7113790686420571191);
    assert(pow_mod(7, 25) == 12903046666114829695);
    lemma_pow_mod_even(7, 50, 12903046666114829695);
    assert(pow_mod(7, 50) == 9508792519651578870);
    assert(pow_mod(7, 51) == 11221315429317299127);
    lemma_pow_mod_even(7, 102, 11221315429317299127);
    assert(pow_mod(7, 102) == 3745031562215636174);
    lemma_pow_mod_even(7, 204, 3745031562215636174);
    assert(pow_mod(7, 204) == 14721374862152863140);
    lemma_pow_mod_even(7, 408, 14721374862152863140);
    assert(pow_mod(7, 408) == 8580336748508171574);
    assert(pow_mod(7, 409) == 4722125031313448055);
    lemma_pow_mod_even(7, 818, 4722125031313448055);
    assert(pow_mod(7, 818) == 1883594833244407474);
    assert(pow_mod(7, 819) == 13185163832710852318);
    lemma_pow_mod_even(7, 1638, 13185163832710852318);
    assert(pow_mod(7, 1638) == 2814030611640221029);
    lemma_pow_mod_even(7, 3276, 2814030611640221029);
    assert(pow_mod(7, 3276) == 15305242945550478579);
    lemma_pow_mod_even(7, 6552, 15305242945550478579);
    assert(pow_mod(7, 6552) == 16390917471927504135);
    assert(pow_mod(7, 6553) == 4055957887005023019);
    lemma_pow_mod_even(7, 13106, 4055957887005023019);
    assert(pow_mod(7, 13106) == 2270837492942628639);
    assert(pow_mod(7, 13107) == 15895862450598400473);
    lemma_pow_mod_even(7, 26214, 15895862450598400473);
    assert(pow_mod(7, 26214) == 15907429390595540903);
    lemma_pow_mod_even(7, 52428, 15907429390595540903);
    assert(pow_mod(7, 52428) == 9571849187322067488);
    lemma_pow_mod_even(7, 104856, 9571849187322067488);
    assert(pow_mod(7, 104856) == 4541341506473167947);
    assert(pow_mod(7, 104857) == 13342646475897591308);
    lemma_pow_mod_even(7, 209714, 13342646475897591308);
    assert(pow_mod(7, 209714) == 6980271831054868468);
    assert(pow_mod(7, 209715) == 11968414678554910634);
    lemma_pow_mod_even(7, 419430, 11968414678554910634);
    assert(pow_mod(7, 419430) == 9815939365277946145);
    lemma_pow_mod_even(7, 838860, 9815939365277946145);
    assert(pow_mod(7, 838860) == 15620185229717233314);
    lemma_pow_mod_even(7, 1677720, 15620185229717233314);
    assert(pow_mod(7, 1677720) == 10616950601403447294);
    assert(pow_mod(7, 1677721) == 531677932165793774);
    lemma_pow_mod_even(7, 3355442, 531677932165793774);
    assert(pow_mod(7, 3355442) == 16662824208101097746);
    assert(pow_mod(7, 3355443) == 5959305040220178296);
    lemma_pow_mod_even(7, 6710886, 5959305040220178296);
    assert(pow_mod(7, 6710886) == 6422988881738978288);
    lemma_pow_mod_even(7, 13421772, 6422988881738978288);
    assert(pow_mod(7, 13421772) == 6417963550187649822);
    lemma_pow_mod_even(7, 26843544, 6417963550187649822);
    assert(pow_mod(7, 26843544) == 14252887398442191467);
    assert(pow_mod(7, 26843545) == 7536491442022418664);
    lemma_pow_mod_even(7, 53687090, 7536491442022418664);
    assert(pow_mod(7, 53687090) == 11420510904403074233);
    assert(pow_mod(7, 53687091) == 6156600053163182347);
    lemma_pow_mod_even(7, 107374182, 6156600053163182347);
    assert(pow_mod(7, 107374182) == 774671493430776042);
    lemma_pow_mod_even(7, 214748364, 774671493430776042);
    assert(pow_mod(7, 214748364) == 5396215078887381364);
    lemma_pow_mod_even(7, 429496728, 5396215078887381364);
    assert(pow_mod(7, 429496728) == 12728759107003177926);
    assert(pow_mod(7, 429496729) == 15314337471363908198);
    lemma_pow_mod_even(7, 858993458, 15314337471363908198);
    assert(pow_mod(7, 858993458) == 5793645042898913638);
    assert(pow_mod(7, 858993459) == 3662027161463226824);
    lemma_pow_mod_even(7, 1717986918, 3662027161463226824);
    assert(pow_mod(7, 1717986918) == 11820361339200135398);
    lemma_pow_mod_even(7, 3435973836, 11820361339200135398);
    assert(pow_mod(7, 3435973836) == 10563623981652513853);
    lemma_pow_mod_even(7, 6871947672, 10563623981652513853);
    assert(pow_mod(7, 6871947672) == 11556889392494533434);
    lemma_pow_mod_even(7, 13743895344, 11556889392494533434);
    assert(pow_mod(7, 13743895344) == 5123117391711505057);
    lemma_pow_mod_even(7, 27487790688, 5123117391711505057);
    assert(pow_mod(7, 27487790688) == 18163573378392062736);
    lemma_pow_mod_even(7, 54975581376, 18163573378392062736);
    assert(pow_mod(7, 54975581376) == 17372647198866510400);
    lemma_pow_mod_even(7, 109951162752, 17372647198866510400);
    assert(pow_mod(7, 109951162752) == 1220884775256242639);
    lemma_pow_mod_even(7, 219902325504, 1220884775256242639);
    assert(pow_mod(7, 219902325504) == 1436240010618898855);
    lemma_pow_mod_even(7, 439804651008, 1436240010618898855);
    assert(pow_mod(7, 439804651008) == 968157462317130011);
    lemma_pow_mod_even(7, 879609302016, 968157462317130011);
    assert(pow_mod(7, 879609302016) == 993397133647309316);
    lemma_pow_mod_even(7, 1759218604032, 993397133647309316);
    assert(pow_mod(7, 1759218604032) == 14359758886168776598);
    lemma_pow_mod_even(7, 3518437208064, 14359758886168776598);
    assert(pow_mod(7, 3518437208064) == 11469785989846425790);
    lemma_pow_mod_even(7, 7036874416128, 11469785989846425790);
    assert(pow_mod(7, 7036874416128) == 7202858824453247222);
    lemma_pow_mod_even(7, 14073748832256, 7202858824453247222);
    assert(pow_mod(7, 14073748832256) == 8980223327998268287);
    lemma_pow_mod_even(7, 28147497664512, 8980223327998268287);
    assert(pow_mod(7, 28147497664512) == 2898061628613144896);
    lemma_pow_mod_even(7, 56294995329024, 2898061628613144896);
    assert(pow_mod(7, 56294995329024) == 5148563552100513047);
    lemma_pow_mod_even(7, 112589990658048, 5148563552100513047);
    assert(pow_mod(7, 112589990658048) == 10405746850183322052);
    lemma_pow_mod_even(7, 225179981316096, 10405746850183322052);
    assert(pow_mod(7, 225179981316096) == 8376609452955824527);
    lemma_pow_mod_even(7, 450359962632192, 8376609452955824527);
    assert(pow_mod(7, 450359962632192) == 17819501121686609562);
    lemma_pow_mod_even(7, 900719925264384, 17819501121686609562);
    assert(pow_mod(7, 900719925264384) == 12701195747762323519);
    lemma_pow_mod_even(7, 1801439850528768, 12701195747762323519);
    assert(pow_mod(7, 1801439850528768) == 16093963071722629223);
    lemma_pow_mod_even(7, 3602879701057536, 16093963071722629223);
    assert(pow_mod(7, 3602879701057536) == 18098504255140688579);
    lemma_pow_mod_even(7, 7205759402115072, 18098504255140688579);
    assert(pow_mod(7, 7205759402115072) == 3705545293506004500);
    lemma_pow_mod_even(7, 14411518804230144, 3705545293506004500);
    assert(pow_mod(7, 14411518804230144) == 12143967077249500439);
    lemma_pow_mod_even(7, 28823037608460288, 12143967077249500439);
    assert(pow_mod(7, 28823037608460288) == 8898934198923663040);
    lemma_pow_mod_even(7, 57646075216920576, 8898934198923663040);
    assert(pow_mod(7, 57646075216920576) == 14017153681711143730);
    lemma_pow_mod_even(7, 115292150433841152, 14017153681711143730);
    assert(pow_mod(7, 115292150433841152) == 13369903252519103517);
    lemma_pow_mod_even(7, 230584300867682304, 13369903252519103517);
    assert(pow_mod(7, 230584300867682304) == 2271703332821311793);
    lemma_pow_mod_even(7, 461168601735364608, 2271703332821311793);
    assert(pow_mod(7, 461168601735364608) == 14026992134716723275);
    lemma_pow_mod_even(7, 922337203470729216, 14026992134716723275);
    assert(pow_mod(7, 922337203470729216) == 2281812832982421726);
    lemma_pow_mod_even(7, 1844674406941458432, 2281812832982421726);
    assert(pow_mod(7, 1844674406941458432) == 2625919085333925275);
    lemma_pow_mod_even(7, 3689348813882916864, 2625919085333925275);
    assert(pow_mod(7, 3689348813882916864) == 1373043270956696022);
}

/// `7^1085102592318504960 mod q`, step by step.
proof fn lemma_pow7_p17()
    ensures
        pow_mod(7, 1085102592318504960) == 16301593560560007290,
{
    assert(pow_mod(7, 0) == 1);
    assert(pow_mod(7, 1) == 7);
    lemma_pow_mod_even(7, 2, 7);
    assert(pow_mod(7, 2) == 49);
    assert(pow_mod(7, 3) == 343);
    lemma_pow_mod_even(7, 6, 343);
    assert(pow_mod(7, 6) == 117649);
    assert(pow_mod(7, 7) == 823543);
    lemma_pow_mod_even(7, 14, 823543);
    assert(pow_mod(7, 14) == 678223072849);
    assert(pow_mod(7, 15) == 4747561509943);
    lemma_pow_mod_even(7, 30, 4747561509943);
    assert(pow_mod(7, 30) == 1582037354089406189);
    lemma_pow_mod_even(7, 60, 1582037354089406189);
    assert(pow_mod(7, 60) == 6704211459967285318);
    lemma_pow_mod_even(7, 120, 6704211459967285318);
    assert(pow_mod(7, 120) == 12536486945555764682);
    lemma_pow_mod_even(7, 240, 12536486945555764682);
    assert(pow_mod(7, 240) == 8329639379454877396);
    lemma_pow_mod_even(7, 480, 8329639379454877396);
    assert(pow_mod(7, 480) == 9634757967695347772);
    assert(pow_mod(7, 481) == 12103073565623681441);
    lemma_pow_mod_even(7, 962, 12103073565623681441);
    assert(pow_mod(7, 962) == 7391097021356298215);
    assert(pow_mod(7, 963) == 14844191010664918863);
    lemma_pow_mod_even(7, 1926, 14844191010664918863);
    assert(pow_mod(7, 1926) == 12415576456582165859);
    assert(pow_mod(7, 1927) == 13122058918416823729);
    lemma_pow_mod_even(7, 3854, 13122058918416823729);
    assert(pow_mod(7, 3854) == 7897896591338819743);
    assert(pow_mod(7, 3855) == 18391788000542569559);
    lemma_pow_mod_even(7, 7710, 18391788000542569559);
    assert(pow_mod(7, 7710) == 5815952681263863745);
    lemma_pow_mod_even(7, 15420, 5815952681263863745);
    assert(pow_mod(7, 15420) == 15534263258852221519);
    lemma_pow_mod_even(7, 30840, 15534263258852221519);
    assert(pow_mod(7, 30840) == 9621442331152125603);
    lemma_pow_mod_even(7, 61680, 9621442331152125603);
    assert(pow_mod(7, 61680) == 13847347385863248794);
    lemma_pow_mod_even(7, 123360, 13847347385863248794);
    assert(pow_mod(7, 123360) == 17205675455212639060);
    assert(pow_mod(7, 123361) == 9759263770000967494);
    lemma_pow_mod_even(7, 246722, 9759263770000967494);
    assert(pow_mod(7, 246722) == 14407346328610363633);
    assert(pow_mod(7, 246723) == 8617703953199623826);
    lemma_pow_mod_even(7, 493446, 8617703953199623826);
    assert(pow_mod(7, 493446) == 18431779654498809450);
    assert(pow_mod(7, 493447) == 18341993165004160224);
    lemma_pow_mod_even(7, 986894, 18341993165004160224);
    assert(pow_mod(7, 986894) == 18143715114932847758);
    assert(pow_mod(7, 986895) == 16325541388042428380);
    lemma_pow_mod_even(7, 1973790, 16325541388042428380);
    assert(pow_mod(7, 1973790) == 87681681590930466);
    lemma_pow_mod_even(7, 3947580, 87681681590930466);
    assert(pow_mod(7, 3947580) == 1247600097974775228);
    lemma_pow_mod_even(7, 7895160, 1247600097974775228);
    assert(pow_mod(7, 7895160) == 263672500424845310);
    lemma_pow_mod_even(7, 15790320, 263672500424845310);
    assert(pow_mod(7, 15790320) == 14075661776324224620);
    lemma_pow_mod_even(7, 31580640, 14075661776324224620);
    assert(pow_mod(7, 31580640) == 1097754007496414739);
    assert(pow_mod(7, 31580641) == 7684278052474903173);
    lemma_pow_mod_even(7, 63161282, 7684278052474903173);
    assert(pow_mod(7, 63161282) == 16912746553351552869);
    assert(pow_mod(7, 63161283) == 7708761456973364157);
    lemma_pow_mod_even(7, 126322566, 7708761456973364157);
    assert(pow_mod(7, 126322566) == 7915739019813757092);
    assert(pow_mod(7, 126322567) == 69940930452546681);
    lemma_pow_mod_even(7, 252645134, 69940930452546681);
    assert(pow_mod(7, 252645134) == 10242565372168891076);
    assert(pow_mod(7, 252645135) == 16357725396938484569);
    lemma_pow_mod_even(7, 505290270, 16357725396938484569);
    assert(pow_mod(7, 505290270) == 9635924811972810304);
    lemma_pow_mod_even(7, 1010580540, 9635924811972810304);
    assert(pow_mod(7, 1010580540) == 17792655913659759447);
    lemma_pow_mod_even(7, 2021161080, 17792655913659759447);
    assert(pow_mod(7, 2021161080) == 757864979510442991);
    lemma_pow_mod_even(7, 4042322160, 757864979510442991);
    assert(pow_mod(7, 4042322160) == 5359388630104522475);
    lemma_pow_mod_even(7, 8084644320, 5359388630104522475);
    assert(pow_mod(7, 8084644320) == 16844089689671372755);
    lemma_pow_mod_even(7, 16169288640, 16844089689671372755);
    assert(pow_mod(7, 16169288640) == 3416859319420511225);
    lemma_pow_mod_even(7, 32338577280, 3416859319420511225);
    assert(pow_mod(7, 32338577280) == 13225002848613916298);
    lemma_pow_mod_even(7, 64677154560, 13225002848613916298);
    assert(pow_mod(7, 64677154560) == 3046446182183887513);
    lemma_pow_mod_even(7, 129354309120, 3046446182183887513);
    assert(pow_mod(7, 129354309120) == 8471950025145571556);
    lemma_pow_mod_even(7, 258708618240, 8471950025145571556);
    assert(pow_mod(7, 258708618240) == 14240312891968862088);
    lemma_pow_mod_even(7, 517417236480, 14240312891968862088);
    assert(pow_mod(7, 517417236480) == 14284159170854690980);
    lemma_pow_mod_even(7, 1034834472960, 14284159170854690980);
    assert(pow_mod(7, 1034834472960) == 2140736107784648890);
    lemma_pow_mod_even(7, 2069668945920, 2140736107784648890);
    assert(pow_mod(7, 2069668945920) == 720221585272617730);
    lemma_pow_mod_even(7, 4139337891840, 720221585272617730);
    assert(pow_mod(7, 4139337891840) == 14933742682021830494);
    lemma_pow_mod_even(7, 8278675783680, 14933742682021830494);
    assert(pow_mod(7, 8278675783680) == 16866753830962059859);
    lemma_pow_mod_even(7, 16557351567360, 16866753830962059859);
    assert(pow_mod(7, 16557351567360) == 4185523320037657098);
    lemma_pow_mod_even(7, 33114703134720, 4185523320037657098);
    assert(pow_mod(7, 33114703134720) == 17086191566025186696);
    lemma_pow_mod_even(7, 66229406269440, 17086191566025186696);
    assert(pow_mod(7, 66229406269440) == 1098680059505421076);
    lemma_pow_mod_even(7, 132458812538880, 1098680059505421076);
    assert(pow_mod(7, 132458812538880) == 16940429312545755789);
    lemma_pow_mod_even(7, 264917625077760, 16940429312545755789);
    assert(pow_mod(7, 264917625077760) == 16945016486212160087);
    lemma_pow_mod_even(7, 529835250155520, 16945016486212160087);
    assert(pow_mod(7, 529835250155520) == 18171560771947831624);
    lemma_pow_mod_even(7, 1059670500311040, 18171560771947831624);
    assert(pow_mod(7, 1059670500311040) == 14884189242943664099);
    lemma_pow_mod_even(7, 2119341000622080, 14884189242943664099);
    assert(pow_mod(7, 2119341000622080) == 7182983899389742773);
    lemma_pow_mod_even(7, 4238682001244160, 7182983899389742773);
    assert(pow_mod(7, 4238682001244160) == 7794706010606133772);
    lemma_pow_mod_even(7, 8477364002488320, 7794706010606133772);
    assert(pow_mod(7, 8477364002488320) == 5944394147430185930);
    lemma_pow_mod_even(7, 16954728004976640, 5944394147430185930);
    assert(pow_mod(7, 16954728004976640) == 11638363544692747458);
    lemma_pow_mod_even(7, 33909456009953280, 11638363544692747458);
    assert(pow_mod(7, 33909456009953280) == 8942909788274506390);
    lemma_pow_mod_even(7, 67818912019906560, 8942909788274506390);
    assert(pow_mod(7, 67818912019906560) == 10254463118692560346);
    lemma_pow_mod_even(7, 135637824039813120, 10254463118692560346);
    assert(pow_mod(7, 135637824039813120) == 6509392022269312871);
    lemma_pow_mod_even(7, 271275648079626240, 6509392022269312871);
    assert(pow_mod(7, 271275648079626240) == 3060481852759670200);
    lemma_pow_mod_even(7, 542551296159252480, 3060481852759670200);
    assert(pow_mod(7, 542551296159252480) == 9492362781570530732);
    lemma_pow_mod_even(7, 1085102592318504960, 9492362781570530732);
    assert(pow_mod(7, 1085102592318504960) == 16301593560560007290);
}

/// `7^71777214277877760 mod q`, step by step.
proof fn lemma_pow7_p257()
    ensures
        pow_mod(7, 71777214277877760) == 995085315851368103,
{
    assert(pow_mod(7, 0) == 1);
    assert(pow_mod(7, 1) == 7);
    lemma_pow_mod_even(7, 2, 7);
    assert(pow_mod(7, 2) == 49);
    assert(pow_mod(7, 3) == 343);
    lemma_pow_mod_even(7, 6, 343);
    assert(pow_mod(7, 6) == 117649);
    assert(pow_mod(7, 7) == 823543);
    lemma_pow_mod_even(7, 14, 823543);
    assert(pow_mod(7, 14) == 678223072849);
    assert(pow_mod(7, 15) == 4747561509943);
    lemma_pow_mod_even(7, 30, 4747561509943);
    assert(pow_mod(7, 30) == 1582037354089406189);
    assert(pow_mod(7, 31) == 11074261478625843323);
    lemma_pow_mod_even(7, 62, 11074261478625843323);
    assert(pow_mod(7, 62) == 14911712358349047125);
    assert(pow_mod(7, 63) == 12148266161370408270);
    lemma_pow_mod_even(7, 126, 12148266161370408270);
    assert(pow_mod(7, 126) == 14177331716484271384);
    assert(pow_mod(7, 127) == 7007601668316978083);
    lemma_pow_mod_even(7, 254, 7007601668316978083);
    assert(pow_mod(7, 254) == 1160753142525841411);
    assert(pow_mod(7, 255) == 8125271997680889877);
    lemma_pow_mod_even(7, 510, 8125271997680889877);
    assert(pow_mod(7, 510) == 10915923311382173605);
    lemma_pow_mod_even(7, 1020, 10915923311382173605);
    assert(pow_mod(7, 1020) == 8682737361258234340);
    lemma_pow_mod_even(7, 2040, 8682737361258234340);
    assert(pow_mod(7, 2040) == 13168992710278412212);
    lemma_pow_mod_even(7, 4080, 13168992710278412212);
    assert(pow_mod(7, 4080) == 3615243740316660512);
    lemma_pow_mod_even(7, 8160, 3615243740316660512);
    assert(pow_mod(7, 8160) == 9701552052102210316);
    lemma_pow_mod_even(7, 16320, 9701552052102210316);
    assert(pow_mod(7, 16320) == 12082995573853045936);
    lemma_pow_mod_even(7, 32640, 12082995573853045936);
    assert(pow_mod(7, 32640) == 2592469405483382171);
    lemma_pow_mod_even(7, 65280, 2592469405483382171);
    assert(pow_mod(7, 65280) == 8929377406043347353);
    lemma_pow_mod_even(7, 130560, 8929377406043347353);
    assert(pow_mod(7, 130560) == 9795840452586307152);
    assert(pow_mod(7, 130561) == 13230650959860397101);
    lemma_pow_mod_even(7, 261122, 13230650959860397101);
    assert(pow_mod(7, 261122) == 13828748494014249279);
    assert(pow_mod(7, 261123) == 4567519111026823348);
    lemma_pow_mod_even(7, 522246, 4567519111026823348);
    assert(pow_mod(7, 522246) == 9911383694283361932);
    assert(pow_mod(7, 522247) == 14039453651739780561);
    lemma_pow_mod_even(7, 1044494, 14039453651739780561);
    assert(pow_mod(7, 1044494) == 6677584045842437523);
    assert(pow_mod(7, 1044495) == 9849600182067894019);
    lemma_pow_mod_even(7, 2088990, 9849600182067894019);
    assert(pow_mod(7, 2088990) == 10583023550344909108);
    assert(pow_mod(7, 2088991) == 294188574756026472);
    lemma_pow_mod_even(7, 4177982, 294188574756026472);
    assert(pow_mod(7, 4177982) == 7184320642221521177);
    assert(pow_mod(7, 4177983) == 13396756356721479597);
    lemma_pow_mod_even(7, 8355966, 13396756356721479597);
    assert(pow_mod(7, 8355966) == 5302980850127352725);
    assert(pow_mod(7, 8355967) == 227377812062300433);
    lemma_pow_mod_even(7, 16711934, 227377812062300433);
    assert(pow_mod(7, 16711934) == 8373948673660040785);
    assert(pow_mod(7, 16711935) == 3277408507376532532);
    lemma_pow_mod_even(7, 33423870, 3277408507376532532);
    assert(pow_mod(7, 33423870) == 10187910960120918295);
    lemma_pow_mod_even(7, 66847740, 10187910960120918295);
    assert(pow_mod(7, 66847740) == 1234511965033452377);
    lemma_pow_mod_even(7, 133695480, 1234511965033452377);
    assert(pow_mod(7, 133695480) == 15363200638052948867);
    lemma_pow_mod_even(7, 267390960, 15363200638052948867);
    assert(pow_mod(7, 267390960) == 1236027695563809108);
    lemma_pow_mod_even(7, 534781920, 1236027695563809108);
    assert(pow_mod(7, 534781920) == 12002353154524589429);
    lemma_pow_mod_even(7, 1069563840, 12002353154524589429);
    assert(pow_mod(7, 1069563840) == 14027517171084490203);
    lemma_pow_mod_even(7, 2139127680, 14027517171084490203);
    assert(pow_mod(7, 2139127680) == 2711851439569513933);
    lemma_pow_mod_even(7, 4278255360, 2711851439569513933);
    assert(pow_mod(7, 4278255360) == 80652374890911913);
    lemma_pow_mod_even(7, 8556510720, 80652374890911913);
    assert(pow_mod(7, 8556510720) == 5283607704788425345);
    lemma_pow_mod_even(7, 17113021440, 5283607704788425345);
    assert(pow_mod(7, 17113021440) == 15514810852250684057);
    lemma_pow_mod_even(7, 34226042880, 15514810852250684057);
    assert(pow_mod(7, 34226042880) == 13397417830393806946);
    lemma_pow_mod_even(7, 68452085760, 13397417830393806946);
    assert(pow_mod(7, 68452085760) == 16359729400225625612);
    lemma_pow_mod_even(7, 136904171520, 16359729400225625612);
    assert(pow_mod(7, 136904171520) == 8019533974815212444);
    lemma_pow_mod_even(7, 273808343040, 8019533974815212444);
    assert(pow_mod(7, 273808343040) == 9655755660440986855);
    lemma_pow_mod_even(7, 547616686080, 9655755660440986855);
    assert(pow_mod(7, 547616686080) == 3604536941271117731);
    lemma_pow_mod_even(7, 1095233372160, 3604536941271117731);
    assert(pow_mod(7, 1095233372160) == 17307879323250707139);
    lemma_pow_mod_even(7, 2190466744320, 17307879323250707139);
    assert(pow_mod(7, 2190466744320) == 16869139653157226251);
    lemma_pow_mod_even(7, 4380933488640, 16869139653157226251);
    assert(pow_mod(7, 4380933488640) == 6953284473670099805);
    lemma_pow_mod_even(7, 8761866977280, 6953284473670099805);
    assert(pow_mod(7, 8761866977280) == 18224581395058808609);
    lemma_pow_mod_even(7, 17523733954560, 18224581395058808609);
    assert(pow_mod(7, 17523733954560) == 12317229062629230801);
    lemma_pow_mod_even(7, 35047467909120, 12317229062629230801);
    assert(pow_mod(7, 35047467909120) == 8521080430804482018);
    lemma_pow_mod_even(7, 70094935818240, 8521080430804482018);
    assert(pow_mod(7, 70094935818240) == 1553296775282575040);
    lemma_pow_mod_even(7, 140189871636480, 1553296775282575040);
    assert(pow_mod(7, 140189871636480) == 13200482976866298980);
    lemma_pow_mod_even(7, 280379743272960, 13200482976866298980);
    assert(pow_mod(7, 280379743272960) == 14925891398157497804);
    lemma_pow_mod_even(7, 560759486545920, 14925891398157497804);
    assert(pow_mod(7, 560759486545920) == 15678887058344505597);
    lemma_pow_mod_even(7, 1121518973091840, 15678887058344505597);
    assert(pow_mod(7, 1121518973091840) == 14658776698600081839);
    lemma_pow_mod_even(7, 2243037946183680, 14658776698600081839);
    assert(pow_mod(7, 2243037946183680) == 16565152875265738852);
    lemma_pow_mod_even(7, 4486075892367360, 16565152875265738852);
    assert(pow_mod(7, 4486075892367360) == 5984943436188102888);
    lemma_pow_mod_even(7, 8972151784734720, 5984943436188102888);
    assert(pow_mod(7, 8972151784734720) == 14921717924877542342);
    lemma_pow_mod_even(7, 17944303569469440, 14921717924877542342);
    assert(pow_mod(7, 17944303569469440) == 1654982787239893223);
    lemma_pow_mod_even(7, 35888607138938880, 1654982787239893223);
    assert(pow_mod(7, 35888607138938880) == 18353445258623017512);
    lemma_pow_mod_even(7, 71777214277877760, 18353445258623017512);
    assert(pow_mod(7, 71777214277877760) == 995085315851368103);
}

/// `7^281470681743360 mod q`, step by step.
proof fn lemma_pow7_p65537()
    ensures
        pow_mod(7, 281470681743360) == 8478886009461009681,
{
    assert(pow_mod(7, 0) == 1);
    assert(pow_mod(7, 1) == 7);
    lemma_pow_mod_even(7, 2, 7);
    assert(pow_mod(7, 2) == 49);
    assert(pow_mod(7, 3) == 343);
    lemma_pow_mod_even(7, 6, 343);
    assert(pow_mod(7, 6) == 117649);
    assert(pow_mod(7, 7) == 823543);
    lemma_pow_mod_even(7, 14, 823543);
    assert(pow_mod(7, 14) == 678223072849);
    assert(pow_mod(7, 15) == 4747561509943);
    lemma_pow_mod_even(7, 30, 4747561509943);
    assert(pow_mod(7, 30) == 1582037354089406189);
    assert(pow_mod(7, 31) == 11074261478625843323);
    lemma_pow_mod_even(7, 62, 11074261478625843323);
    assert(pow_mod(7, 62) == 14911712358349047125);
    assert(pow_mod(7, 63) == 12148266161370408270);
    lemma_pow_mod_even(7, 126, 12148266161370408270);
    assert(pow_mod(7, 126) == 14177331716484271384);
    assert(pow_mod(7, 127) == 7007601668316978083);
    lemma_pow_mod_even(7, 254, 7007601668316978083);
    assert(pow_mod(7, 254) == 1160753142525841411);
    assert(pow_mod(7, 255) == 8125271997680889877);
    lemma_pow_mod_even(7, 510, 8125271997680889877);
    assert(pow_mod(7, 510) == 10915923311382173605);
    assert(pow_mod(7, 511) == 2624486902016877951);
    lemma_pow_mod_even(7, 1022, 2624486902016877951);
    assert(pow_mod(7, 1022) == 1179017105118043277);
    assert(pow_mod(7, 1023) == 8253119735826302939);
    lemma_pow_mod_even(7, 2046, 8253119735826302939);
    assert(pow_mod(7, 2046) == 13682469552810377440);
    assert(pow_mod(7, 2047) == 3543566522599720475);
    lemma_pow_mod_even(7, 4094, 3543566522599720475);
    assert(pow_mod(7, 4094) == 12252646851770615269);
    assert(pow_mod(7, 4095) == 11981551684735969599);
    lemma_pow_mod_even(7, 8190, 11981551684735969599);
    assert(pow_mod(7, 8190) == 9343193256669382154);
    assert(pow_mod(7, 8191) == 10062120588441922115);
    lemma_pow_mod_even(7, 16382, 10062120588441922115);
    assert(pow_mod(7, 16382) == 4133221502128927102);
    assert(pow_mod(7, 16383) == 10485806445487905393);
    lemma_pow_mod_even(7, 32766, 10485806445487905393);
    assert(pow_mod(7, 32766) == 5861853314594190514);
    assert(pow_mod(7, 32767) == 4139485063330164956);
    lemma_pow_mod_even(7, 65534, 4139485063330164956);
    assert(pow_mod(7, 65534) == 7004045467739516513);
    assert(pow_mod(7, 65535) == 12134830135347446949);
    lemma_pow_mod_even(7, 131070, 12134830135347446949);
    assert(pow_mod(7, 131070) == 618113109518621269);
    lemma_pow_mod_even(7, 262140, 618113109518621269);
    assert(pow_mod(7, 262140) == 10057574059836717585);
    lemma_pow_mod_even(7, 524280, 10057574059836717585);
    assert(pow_mod(7, 524280) == 11436575600859740313);
    lemma_pow_mod_even(7, 1048560, 11436575600859740313);
    assert(pow_mod(7, 1048560) == 2460531272136303351);
    lemma_pow_mod_even(7, 2097120, 2460531272136303351);
    assert(pow_mod(7, 2097120) == 5287351674330089703);
    lemma_pow_mod_even(7, 4194240, 5287351674330089703);
    assert(pow_mod(7, 4194240) == 2729558173611838869);
    lemma_pow_mod_even(7, 8388480, 2729558173611838869);
    assert(pow_mod(7, 8388480) == 5809869834850305452);
    lemma_pow_mod_even(7, 16776960, 5809869834850305452);
    assert(pow_mod(7, 16776960) == 4380238239217790048);
    lemma_pow_mod_even(7, 33553920, 4380238239217790048);
    assert(pow_mod(7, 33553920) == 10313688370767105378);
    lemma_pow_mod_even(7, 67107840, 10313688370767105378);
    assert(pow_mod(7, 67107840) == 1116132233887293652);
    lemma_pow_mod_even(7, 134215680, 1116132233887293652);
    assert(pow_mod(7, 134215680) == 8201916556687100419);
    lemma_pow_mod_even(7, 268431360, 8201916556687100419);
    assert(pow_mod(7, 268431360) == 9569002298025400893);
    lemma_pow_mod_even(7, 536862720, 9569002298025400893);
    assert(pow_mod(7, 536862720) == 3860342023949954178);
    lemma_pow_mod_even(7, 1073725440, 3860342023949954178);
    assert(pow_mod(7, 1073725440) == 2518827640559301834);
    lemma_pow_mod_even(7, 2147450880, 2518827640559301834);
    assert(pow_mod(7, 2147450880) == 4408381949760333744);
    lemma_pow_mod_even(7, 4294901760, 4408381949760333744);
    assert(pow_mod(7, 4294901760) == 5214785644524920463);
    lemma_pow_mod_even(7, 8589803520, 5214785644524920463);
    assert(pow_mod(7, 8589803520) == 16359673064222316581);
    lemma_pow_mod_even(7, 17179607040, 16359673064222316581);
    assert(pow_mod(7, 17179607040) == 7241809583754189836);
    lemma_pow_mod_even(7, 34359214080, 7241809583754189836);
    assert(pow_mod(7, 34359214080) == 12639803007403283714);
    lemma_pow_mod_even(7, 68718428160, 12639803007403283714);
    assert(pow_mod(7, 68718428160) == 12324653451830581392);
    lemma_pow_mod_even(7, 137436856320, 12324653451830581392);
    assert(pow_mod(7, 137436856320) == 3248773168955372845);
    lemma_pow_mod_even(7, 274873712640, 3248773168955372845);
    assert(pow_mod(7, 274873712640) == 11622038198969340988);
    lemma_pow_mod_even(7, 549747425280, 11622038198969340988);
    assert(pow_mod(7, 549747425280) == 13512512774593501075);
    lemma_pow_mod_even(7, 1099494850560, 13512512774593501075);
    assert(pow_mod(7, 1099494850560) == 7628844061018354094);
    lemma_pow_mod_even(7, 2198989701120, 7628844061018354094);
    assert(pow_mod(7, 2198989701120) == 10832619856158324041);
    lemma_pow_mod_even(7, 4397979402240, 10832619856158324041);
    assert(pow_mod(7, 4397979402240) == 6522121551337605094);
    lemma_pow_mod_even(7, 8795958804480, 6522121551337605094);
    assert(pow_mod(7, 8795958804480) == 4924686556790045269);
    lemma_pow_mod_even(7, 17591917608960, 4924686556790045269);
    assert(pow_mod(7, 17591917608960) == 8233486007872169718);
    lemma_pow_mod_even(7, 35183835217920, 8233486007872169718);
    assert(pow_mod(7, 35183835217920) == 6861851865518519982);
    lemma_pow_mod_even(7, 70367670435840, 6861851865518519982);
    assert(pow_mod(7, 70367670435840) == 16452032933035937120);
    lemma_pow_mod_even(7, 140735340871680, 16452032933035937120);
    assert(pow_mod(7, 140735340871680) == 7318164361609642178);
    lemma_pow_mod_even(7, 281470681743360, 7318164361609642178);
    assert(pow_mod(7, 281470681743360) == 8478886009461009681);
}


/// `7^e = 1` modulo `q`.
pub open spec fn unit_at(e: nat) -> bool {
    pow(7, e) % (Q as int) == 1
}

/// What the computations give: `7^(q-1) = 1`, and `7^((q-1)/p) != 1` for every prime
/// `p` of `q - 1`; in particular `7^((q-1)/2) = -1`.
proof fn lemma_seven_facts()
    ensures
        unit_at(18446744069414584320),
        pow(7, 9223372034707292160) % (Q as int) == 18446744069414584320,
        !unit_at(9223372034707292160),
        !unit_at(6148914689804861440),
        !unit_at(3689348813882916864),
        !unit_at(1085102592318504960),
        !unit_at(71777214277877760),
        !unit_at(281470681743360),
{
    lemma_pow7_q1();
    lemma_pow7_half();
    lemma_pow7_third();
    lemma_pow7_fifth();
    lemma_pow7_p17();
    lemma_pow7_p257();
    lemma_pow7_p65537();
    lemma_pow_mod(7, 18446744069414584320);
    lemma_pow_mod(7, 9223372034707292160);
    lemma_pow_mod(7, 6148914689804861440);
    lemma_pow_mod(7, 3689348813882916864);
    lemma_pow_mod(7, 1085102592318504960);
    lemma_pow_mod(7, 71777214277877760);
    lemma_pow_mod(7, 281470681743360);
}

/// If `7^e1 = 7^e2 = 1` with `e2 <= e1`, then `7^(e1 - e2) = 1`.
proof fn lemma_unit_sub(e1: nat, e2: nat)
    requires
        e2 <= e1,
        unit_at(e1),
        unit_at(e2),
    ensures
        unit_at((e1 - e2) as nat),
{
    let m = Q as int;
    let d = (e1 - e2) as nat;
    assert(d + e2 == e1);
    lemma_pow_adds(7, d, e2);
    lemma_mul_mod_noop(pow(7, d), pow(7, e2), m);
    lemma_mod_twice(pow(7, d), m);
}

/// If `7^e = 1`, then `7^(e k) = 1`.
proof fn lemma_unit_mul(e: nat, k: nat)
    requires
        unit_at(e),
    ensures
        unit_at(e * k),
{
    let m = Q as int;
    lemma_pow_multiplies(7, e, k);
    lemma_pow_mod_noop(pow(7, e), k, m);
    lemma1_pow(k);
    lemma_small_mod(1, Q as nat);
}

/// If `g` divides `a` and `b`, it divides `k a + b`.
proof fn lemma_div_comb(a: int, b: int, k: int, g: int)
    requires
        g > 0,
        a % g == 0,
        b % g == 0,
    ensures
        (k * a + b) % g == 0,
{
    lemma_fundamental_div_mod(a, g);
    let t = a / g;
    assert(k * a == g * (k * t)) by (nonlinear_arith)
        requires
            a == g * t,
    ;
    lemma_mod_multiples_vanish(k * t, b, g);
}

/// The greatest common divisor, by Euclid's algorithm.
pub open spec fn gcd(x: nat, y: nat) -> nat
    decreases y,
{
    if y == 0 {
        x
    } else {
        gcd(y, x % y)
    }
}

/// The exponents `e` with `7^e = 1` are closed under the greatest common divisor.
proof fn lemma_gcd_unit(x: nat, y: nat)
    requires
        unit_at(x),
        unit_at(y),
    ensures
        unit_at(gcd(x, y)),
        y > 0 ==> gcd(x, y) > 0,
        gcd(x, y) > 0 ==> x % gcd(x, y) == 0 && y % gcd(x, y) == 0,
    decreases y,
{
    if y > 0 {
        let r = x % y;
        let k = x / y;
        lemma_fundamental_div_mod(x as int, y as int);
        lemma_mod_pos_bound(x as int, y as int);
        lemma_unit_mul(y, k);
        assert(y * k <= x);
        lemma_unit_sub(x, y * k);
        assert((x - y * k) as nat == r);
        lemma_gcd_unit(y, r);
        let g = gcd(y, r);
        if g > 0 {
            lemma_div_comb(y as int, r as int, k as int, g as int);
            assert(k * y + r == x);
        }
    }
}

/// `p` is prime: it is at least two and has no divisor strictly between one and itself.
pub open spec fn is_prime(p: nat) -> bool {
    p >= 2 && forall|d: nat| 2 <= d < p ==> #[trigger] (p % d) != 0
}

/// A prime that divides `r b` with `0 < r < p` divides `b`.
proof fn lemma_euclid_descent(p: nat, r: nat, b: int)
    requires
        is_prime(p),
        0 < r < p,
        (r * b) % (p as int) == 0,
    ensures
        b % (p as int) == 0,
    decreases r,
{
    if r > 1 {
        assert(p % r != 0);
        let c = p % r;
        let a = p / r;
        lemma_fundamental_div_mod(p as int, r as int);
        lemma_mod_pos_bound(p as int, r as int);
        lemma_fundamental_div_mod(r * b, p as int);
        let k = (r * b) / (p as int);
        assert(c * b == (p as int) * (b - a * k)) by (nonlinear_arith)
            requires
                p == r * a + c,
                r * b == p * k + 0,
        ;
        lemma_mod_multiples_vanish(b - a * k, 0, p as int);
        lemma_euclid_descent(p, c, b);
    } else {
        assert(r * b == b) by (nonlinear_arith)
            requires
                r == 1,
        ;
    }
}

/// Euclid's lemma: a prime that divides a product divides a factor.
proof fn lemma_euclid(p: nat, x: int, y: int)
    requires
        is_prime(p),
        (x * y) % (p as int) == 0,
    ensures
        x % (p as int) == 0 || y % (p as int) == 0,
{
    let pi = p as int;
    let r = x % pi;
    lemma_mod_bound(x, pi);
    if r != 0 {
        lemma_fundamental_div_mod(x, pi);
        let qx = x / pi;
        assert(x * y == pi * (qx * y) + r * y) by (nonlinear_arith)
            requires
                x == pi * qx + r,
        ;
        lemma_mod_multiples_vanish(qx * y, r * y, pi);
        lemma_euclid_descent(p, r as nat, y);
    }
}

/// If `s` divides `p m` and the prime `p` does not divide `s`, then `s` divides `m`.
proof fn lemma_peel(s: nat, p: nat, m: nat)
    requires
        is_prime(p),
        s > 0,
        s % p != 0,
        (p * m) % s == 0,
    ensures
        m % s == 0,
{
    let pm = (p * m) as int;
    lemma_fundamental_div_mod(pm, s as int);
    let k = pm / (s as int);
    assert(pm == (s as int) * k);
    lemma_mod_multiples_vanish(m as int, 0, p as int);
    assert(((s as int) * k) % (p as int) == 0);
    lemma_euclid(p, s as int, k);
    lemma_fundamental_div_mod(k, p as int);
    let k2 = k / (p as int);
    assert(m == (s as int) * k2) by (nonlinear_arith)
        requires
            (p as int) * m == (s as int) * k,
            k == (p as int) * k2 + 0,
            p >= 2,
    ;
    lemma_mod_multiples_vanish(k2, 0, s as int);
}

/// A number with no divisor in `2 ..= k`, with `(k + 1)^2 > p`, is prime.
proof fn lemma_prime_by_trial(p: nat, k: nat)
    requires
        p >= 2,
        (k + 1) * (k + 1) > p,
        forall|d: nat| 2 <= d <= k ==> #[trigger] (p % d) != 0,
    ensures
        is_prime(p),
{
    assert forall|d: nat| 2 <= d < p implies #[trigger] (p % d) != 0 by {
        if d > k && p % d == 0 {
            lemma_fundamental_div_mod(p as int, d as int);
            let e = p / d;
            assert(2 <= e <= k) by (nonlinear_arith)
                requires
                    p == d * e + 0,
                    k + 1 <= d < p,
                    (k + 1) * (k + 1) > p,
                    p >= 2,
            ;
            lemma_fundamental_div_mod_converse(p as int, e as int, d as int, 0);
            assert(p % e == 0);
        }
    }
}

/// The primes of `q - 1`.
proof fn lemma_small_primes()
    ensures
        is_prime(2),
        is_prime(3),
        is_prime(5),
        is_prime(17),
        is_prime(257),
        is_prime(65537),
{
    assert forall|d: nat| 2 <= d < 3 implies #[trigger] (3nat % d) != 0 by {}
    assert forall|d: nat| 2 <= d <= 2 implies #[trigger] (5nat % d) != 0 by {}
    assert((2nat + 1) * (2nat + 1) > 5nat) by (nonlinear_arith);
    lemma_prime_by_trial(5, 2);
    assert forall|d: nat| 2 <= d <= 4 implies #[trigger] (17nat % d) != 0 by {
        assert(d == 2 || d == 3 || d == 4);
    }
    assert((4nat + 1) * (4nat + 1) > 17nat) by (nonlinear_arith);
    lemma_prime_by_trial(17, 4);
    assert forall|d: nat| 2 <= d <= 16 implies #[trigger] (257nat % d) != 0 by {
        assert(d == 2 || d == 3 || d == 4 || d == 5 || d == 6 || d == 7 || d == 8 || d == 9 || d == 10 || d == 11 || d == 12 || d == 13 || d == 14 || d == 15 || d == 16);
    }
    assert((16nat + 1) * (16nat + 1) > 257nat) by (nonlinear_arith);
    lemma_prime_by_trial(257, 16);
    assert forall|d: nat| 2 <= d <= 256 implies #[trigger] (65537nat % d) != 0 by {
        assert(d == 2 || d == 3 || d == 4 || d == 5 || d == 6 || d == 7 || d == 8 || d == 9 || d == 10 || d == 11 || d == 12 || d == 13 || d == 14 || d == 15 || d == 16 || d == 17 || d == 18 || d == 19 || d == 20 || d == 21 || d == 22 || d == 23 || d == 24 || d == 25 || d == 26 || d == 27 || d == 28 || d == 29 || d == 30 || d == 31 || d == 32 || d == 33 || d == 34 || d == 35 || d == 36 || d == 37 || d == 38 || d == 39 || d == 40 || d == 41 || d == 42 || d == 43 || d == 44 || d == 45 || d == 46 || d == 47 || d == 48 || d == 49 || d == 50 || d == 51 || d == 52 || d == 53 || d == 54 || d == 55 || d == 56 || d == 57 || d == 58 || d == 59 || d == 60 || d == 61 || d == 62 || d == 63 || d == 64 || d == 65 || d == 66 || d == 67 || d == 68 || d == 69 || d == 70 || d == 71 || d == 72 || d == 73 || d == 74 || d == 75 || d == 76 || d == 77 || d == 78 || d == 79 || d == 80 || d == 81 || d == 82 || d == 83 || d == 84 || d == 85 || d == 86 || d == 87 || d == 88 || d == 89 || d == 90 || d == 91 || d == 92 || d == 93 || d == 94 || d == 95 || d == 96 || d == 97 || d == 98 || d == 99 || d == 100 || d == 101 || d == 102 || d == 103 || d == 104 || d == 105 || d == 106 || d == 107 || d == 108 || d == 109 || d == 110 || d == 111 || d == 112 || d == 113 || d == 114 || d == 115 || d == 116 || d == 117 || d == 118 || d == 119 || d == 120 || d == 121 || d == 122 || d == 123 || d == 124 || d == 125 || d == 126 || d == 127 || d == 128 || d == 129 || d == 130 || d == 131 || d == 132 || d == 133 || d == 134 || d == 135 || d == 136 || d == 137 || d == 138 || d == 139 || d == 140 || d == 141 || d == 142 || d == 143 || d == 144 || d == 145 || d == 146 || d == 147 || d == 148 || d == 149 || d == 150 || d == 151 || d == 152 || d == 153 || d == 154 || d == 155 || d == 156 || d == 157 || d == 158 || d == 159 || d == 160 || d == 161 || d == 162 || d == 163 || d == 164 || d == 165 || d == 166 || d == 167 || d == 168 || d == 169 || d == 170 || d == 171 || d == 172 || d == 173 || d == 174 || d == 175 || d == 176 || d == 177 || d == 178 || d == 179 || d == 180 || d == 181 || d == 182 || d == 183 || d == 184 || d == 185 || d == 186 || d == 187 || d == 188 || d == 189 || d == 190 || d == 191 || d == 192 || d == 193 || d == 194 || d == 195 || d == 196 || d == 197 || d == 198 || d == 199 || d == 200 || d == 201 || d == 202 || d == 203 || d == 204 || d == 205 || d == 206 || d == 207 || d == 208 || d == 209 || d == 210 || d == 211 || d == 212 || d == 213 || d == 214 || d == 215 || d == 216 || d == 217 || d == 218 || d == 219 || d == 220 || d == 221 || d == 222 || d == 223 || d == 224 || d == 225 || d == 226 || d == 227 || d == 228 || d == 229 || d == 230 || d == 231 || d == 232 || d == 233 || d == 234 || d == 235 || d == 236 || d == 237 || d == 238 || d == 239 || d == 240 || d == 241 || d == 242 || d == 243 || d == 244 || d == 245 || d == 246 || d == 247 || d == 248 || d == 249 || d == 250 || d == 251 || d == 252 || d == 253 || d == 254 || d == 255 || d == 256);
    }
    assert((256nat + 1) * (256nat + 1) > 65537nat) by (nonlinear_arith);
    lemma_prime_by_trial(65537, 256);
}

/// A divisor of `q - 1` other than one is divisible by one of its primes.
proof fn lemma_divisor_of_order(s: nat)
    requires
        s > 0,
        18446744069414584320nat % s == 0,
    ensures
        s == 1 || s % 2 == 0 || s % 3 == 0 || s % 5 == 0 || s % 17 == 0 || s % 257 == 0 || s % 65537 == 0,
{
    if !(s % 2 == 0 || s % 3 == 0 || s % 5 == 0 || s % 17 == 0 || s % 257 == 0 || s % 65537 == 0) {
        lemma_small_primes();
        assert(18446744069414584320 == 65537 * 281470681743360);
        lemma_peel(s, 65537, 281470681743360);
        assert(281470681743360 == 257 * 1095216660480);
        lemma_peel(s, 257, 1095216660480);
        assert(1095216660480 == 17 * 64424509440);
        lemma_peel(s, 17, 64424509440);
        assert(64424509440 == 5 * 12884901888);
        lemma_peel(s, 5, 12884901888);
        assert(12884901888 == 3 * 4294967296);
        lemma_peel(s, 3, 4294967296);
        lemma_peel(s, 2, 2147483648);
        lemma_peel(s, 2, 1073741824);
        lemma_peel(s, 2, 536870912);
        lemma_peel(s, 2, 268435456);
        lemma_peel(s, 2, 134217728);
        lemma_peel(s, 2, 67108864);
        lemma_peel(s, 2, 33554432);
        lemma_peel(s, 2, 16777216);
        lemma_peel(s, 2, 8388608);
        lemma_peel(s, 2, 4194304);
        lemma_peel(s, 2, 2097152);
        lemma_peel(s, 2, 1048576);
        lemma_peel(s, 2, 524288);
        lemma_peel(s, 2, 262144);
        lemma_peel(s, 2, 131072);
        lemma_peel(s, 2, 65536);
        lemma_peel(s, 2, 32768);
        lemma_peel(s, 2, 16384);
        lemma_peel(s, 2, 8192);
        lemma_peel(s, 2, 4096);
        lemma_peel(s, 2, 2048);
        lemma_peel(s, 2, 1024);
        lemma_peel(s, 2, 512);
        lemma_peel(s, 2, 256);
        lemma_peel(s, 2, 128);
        lemma_peel(s, 2, 64);
        lemma_peel(s, 2, 32);
        lemma_peel(s, 2, 16);
        lemma_peel(s, 2, 8);
        lemma_peel(s, 2, 4);
        lemma_peel(s, 2, 2);
        lemma_peel(s, 2, 1);
        assert(1nat % s == 0);
        if s > 1 {
            lemma_small_mod(1, s);
        }
    }
}

/// `7` has order exactly `q - 1`: no smaller positive power is one.
proof fn lemma_no_small_unit(d: nat)
    requires
        0 < d < 18446744069414584320,
    ensures
        !unit_at(d),
{
    if unit_at(d) {
        lemma_seven_facts();
        lemma_gcd_unit(18446744069414584320, d);
        let g = gcd(18446744069414584320, d);
        lemma_fundamental_div_mod(d as int, g as int);
        assert(g <= d) by (nonlinear_arith)
            requires
                d == g * (d / g) + 0,
                g > 0,
                d > 0,
        ;
        lemma_fundamental_div_mod(18446744069414584320, g as int);
        let s = 18446744069414584320nat / g;
        assert(18446744069414584320 == g * s);
        assert(s >= 2) by (nonlinear_arith)
            requires
                18446744069414584320 == g * s,
                0 < g < 18446744069414584320,
        ;
        lemma_mod_multiples_vanish(g as int, 0, s as int);
        assert(18446744069414584320nat % s == 0);
        lemma_divisor_of_order(s);
        if s % 2 == 0 {
            lemma_fundamental_div_mod(s as int, 2);
            let t = s / 2;
            assert(g * t == 9223372034707292160) by (nonlinear_arith)
                requires
                    18446744069414584320 == g * s,
                    s == 2 * t + 0,
            ;
            lemma_unit_mul(g, t);
        }
        if s % 3 == 0 {
            lemma_fundamental_div_mod(s as int, 3);
            let t = s / 3;
            assert(g * t == 6148914689804861440) by (nonlinear_arith)
                requires
                    18446744069414584320 == g * s,
                    s == 3 * t + 0,
            ;
            lemma_unit_mul(g, t);
        }
        if s % 5 == 0 {
            lemma_fundamental_div_mod(s as int, 5);
            let t = s / 5;
            assert(g * t == 3689348813882916864) by (nonlinear_arith)
                requires
                    18446744069414584320 == g * s,
                    s == 5 * t + 0,
            ;
            lemma_unit_mul(g, t);
        }
        if s % 17 == 0 {
            lemma_fundamental_div_mod(s as int, 17);
            let t = s / 17;
            assert(g * t == 1085102592318504960) by (nonlinear_arith)
                requires
                    18446744069414584320 == g * s,
                    s == 17 * t + 0,
            ;
            lemma_unit_mul(g, t);
        }
        if s % 257 == 0 {
            lemma_fundamental_div_mod(s as int, 257);
            let t = s / 257;
            assert(g * t == 71777214277877760) by (nonlinear_arith)
                requires
                    18446744069414584320 == g * s,
                    s == 257 * t + 0,
            ;
            lemma_unit_mul(g, t);
        }
        if s % 65537 == 0 {
            lemma_fundamental_div_mod(s as int, 65537);
            let t = s / 65537;
            assert(g * t == 281470681743360) by (nonlinear_arith)
                requires
                    18446744069414584320 == g * s,
                    s == 65537 * t + 0,
            ;
            lemma_unit_mul(g, t);
        }
    }
}


/// Distinct exponents below `q - 1` give distinct nonzero powers of `7`.
proof fn lemma_powers_distinct(i: nat, j: nat)
    requires
        i < j < 18446744069414584320,
    ensures
        pow(7, i) % (Q as int) != pow(7, j) % (Q as int),
        pow(7, i) % (Q as int) != 0,
{
    let m = Q as int;
    let n: nat = 18446744069414584320;
    lemma_seven_facts();
    let w = pow(7, (n - i) as nat);
    let d = (j - i) as nat;
    assert(i + (n - i) == n);
    lemma_pow_adds(7, i, (n - i) as nat);
    lemma_mul_mod_noop(pow(7, i), w, m);
    if pow(7, i) % m == 0 {
        assert(pow(7, n) % m == 0);
    }
    if pow(7, i) % m == pow(7, j) % m {
        assert(j + (n - i) == n + d);
        lemma_pow_adds(7, j, (n - i) as nat);
        lemma_pow_adds(7, n, d);
        lemma_mul_mod_noop(pow(7, j), w, m);
        lemma_mul_mod_noop(pow(7, n), pow(7, d), m);
        lemma_mod_twice(pow(7, d), m);
        assert(unit_at(d));
        lemma_no_small_unit(d);
    }
}

/// Powers of `7` below `q - 1` are nonzero modulo `q`.
proof fn lemma_pow_nonzero(e: nat)
    requires
        e < 18446744069414584320,
    ensures
        pow(7, e) % (Q as int) != 0,
{
    if e + 1 < 18446744069414584320 {
        lemma_powers_distinct(e, e + 1);
    } else {
        let m = Q as int;
        lemma_seven_facts();
        assert(e + 1 == 18446744069414584320);
        lemma_pow_adds(7, e, 1);
        lemma_pow1(7);
        lemma_mul_mod_noop(pow(7, e), 7, m);
    }
}

/// Every nonzero residue is a power of `7`.
proof fn lemma_every_residue_a_power(x: nat)
    requires
        0 < x < Q,
    ensures
        exists|e: nat| e < 18446744069414584320 && #[trigger] pow(7, e) % (Q as int) == x,
{
    let n: int = 18446744069414584320;
    let m = Q as int;
    let dom = vstd::set_lib::set_int_range(0, n);
    let f = |e: int| pow(7, e as nat) % m;
    let img = dom.map(f);
    vstd::set_lib::lemma_int_range(0, n);
    assert(vstd::relations::injective_on(f, dom)) by {
        assert forall|e1: int, e2: int|
            dom.contains(e1) && dom.contains(e2) && #[trigger] f(e1) == #[trigger] f(e2) implies e1 == e2 by {
            if e1 < e2 {
                lemma_powers_distinct(e1 as nat, e2 as nat);
            } else if e2 < e1 {
                lemma_powers_distinct(e2 as nat, e1 as nat);
            }
        }
    }
    vstd::set_lib::lemma_map_size(dom, img, f);
    let rng = vstd::set_lib::set_int_range(1, m);
    vstd::set_lib::lemma_int_range(1, m);
    if !img.contains(x as int) {
        let smaller = rng.remove(x as int);
        assert forall|v: int| img.contains(v) implies smaller.contains(v) by {
            let e = choose|e: int| dom.contains(e) && v == f(e);
            lemma_mod_bound(pow(7, e as nat), m);
            lemma_pow_nonzero(e as nat);
        }
        vstd::set_lib::lemma_len_subset(img, smaller);
        assert(false);
    }
    let e = choose|e: int| dom.contains(e) && x as int == f(e);
    assert(pow(7, e as nat) % m == x);
}

/// Fermat's little theorem for `q`: `x^(q-1) = 1` for every nonzero residue `x`.
pub proof fn law_fermat(x: nat)
    requires
        0 < x < Q,
    ensures
        pow(x as int, (Q - 1) as nat) % (Q as int) == 1,
{
    let m = Q as int;
    let n: nat = 18446744069414584320;
    lemma_seven_facts();
    lemma_every_residue_a_power(x);
    let e = choose|e: nat| e < 18446744069414584320 && #[trigger] pow(7, e) % (Q as int) == x;
    lemma_pow_mod_noop(pow(7, e), n, m);
    lemma_pow_multiplies(7, e, n);
    lemma_pow_multiplies(7, n, e);
    assert(e * n == n * e) by (nonlinear_arith);
    lemma_pow_mod_noop(pow(7, n), e, m);
    lemma1_pow(e);
    lemma_small_mod(1, Q as nat);
}

/// `7` is not a square modulo `q`.
pub proof fn law_seven_not_square(c: nat)
    requires
        c < Q,
    ensures
        (c * c) % (Q as nat) != 7,
{
    let m = Q as int;
    let h: nat = 9223372034707292160;
    if (c * c) % (Q as nat) == 7 {
        lemma_seven_facts();
        if c == 0 {
            assert(c * c == 0);
        } else {
            law_fermat(c);
            lemma_pow_mod_noop((c * c) as int, h, m);
            lemma_pow_multiplies(c as int, 2, h);
            assert(2 * h == 18446744069414584320);
            lemma_pow_adds(c as int, 1, 1);
            lemma_pow1(c as int);
            assert(pow(c as int, 2) == c * c);
        }
    }
}

} // verus!
