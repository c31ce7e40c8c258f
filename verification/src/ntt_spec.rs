//! The transform as the layered butterfly network of ML-KEM, over sequences of
//! integers modulo 3329, and the proof that the inverse transform undoes it.
use vstd::prelude::*;
use vstd::arithmetic::div_mod::*;
use vstd::arithmetic::mul::*;
use crate::ntt::{ZETA_TABLE, ZETA_INV_TABLE};
use crate::arith::lemma_mod_add_multiple;

verus! {

/// The sequence reduced modulo 3329 into `[0, 3329)`.
pub open spec fn norm(s: Seq<int>) -> Seq<int> {
    Seq::new(s.len(), |i: int| s[i] % 3329)
}

/// A polynomial of 256 coefficients, each in `[0, 3329)`.
pub open spec fn is_reduced_poly(s: Seq<int>) -> bool {
    &&& s.len() == 256
    &&& forall|i: int| 0 <= i < 256 ==> 0 <= #[trigger] s[i] < 3329
}

/// Every coefficient multiplied by `c` modulo 3329.
pub open spec fn scale(s: Seq<int>, c: int) -> Seq<int> {
    Seq::new(s.len(), |i: int| (c * s[i]) % 3329)
}

/// Half the width of the butterflies of a layer: 128, 64, ..., 2.
pub open spec fn is_layer_len(len: int) -> bool {
    len == 2 || len == 4 || len == 8 || len == 16 || len == 32 || len == 64 || len == 128
}

/// Index in the tables of the twiddle factor used for coefficient `i` in the layer
/// of half-width `len`: the chunks of width `2 * len` use `128 / len, 128 / len + 1, ...`.
pub open spec fn layer_k(len: int, i: int) -> int {
    128int / len + i / (2 * len)
}

/// One layer of Cooley-Tukey butterflies: `(a, b) -> (a + z*b, a - z*b)` on the
/// coefficients `i` and `i + len` of every chunk of width `2 * len`.
pub open spec fn ntt_layer(s: Seq<int>, len: int) -> Seq<int> {
    Seq::new(
        256,
        |i: int|
            {
                let z = ZETA_TABLE[layer_k(len, i)] as int;
                if i % (2 * len) < len {
                    (s[i] + z * s[i + len]) % 3329
                } else {
                    (s[i - len] - z * s[i]) % 3329
                }
            },
    )
}

/// One layer of Gentleman-Sande butterflies: `(a, b) -> (a + b, (a - b) / z)`.
pub open spec fn intt_layer(s: Seq<int>, len: int) -> Seq<int> {
    Seq::new(
        256,
        |i: int|
            {
                let zi = ZETA_INV_TABLE[layer_k(len, i)] as int;
                if i % (2 * len) < len {
                    (s[i] + s[i + len]) % 3329
                } else {
                    ((s[i - len] - s[i]) * zi) % 3329
                }
            },
    )
}

/// The layers of half-width `len`, `len / 2`, ..., 2, in this order.
pub open spec fn ntt_from(s: Seq<int>, len: nat) -> Seq<int>
    decreases len,
{
    if len <= 1 {
        s
    } else {
        ntt_from(ntt_layer(s, len as int), len / 2)
    }
}

/// The inverse layers of half-width 2, 4, ..., `len`, in this order.
pub open spec fn intt_to(s: Seq<int>, len: nat) -> Seq<int>
    decreases len,
{
    if len <= 1 {
        s
    } else {
        intt_layer(intt_to(s, len / 2), len as int)
    }
}

/// The forward transform of a polynomial of 256 coefficients (in the order of the
/// butterfly network: 128 polynomials of degree 1, `(s[2i], s[2i+1])`).
pub open spec fn ntt_spec(s: Seq<int>) -> Seq<int> {
    ntt_from(norm(s), 128)
}

/// The inverse transform: the inverse layers, then a division by 128
/// (`128^-1 = 3303 mod 3329`).
pub open spec fn intt_spec(s: Seq<int>) -> Seq<int> {
    scale(intt_to(norm(s), 128), 3303)
}

/// Every entry of the two tables is reduced, and the entries at the same index
/// are inverse to each other modulo 3329.
pub proof fn lemma_zeta_inverse(k: int)
    requires
        0 <= k < 128,
    ensures
        0 <= ZETA_TABLE[k] < 3329,
        0 <= ZETA_INV_TABLE[k] < 3329,
        (ZETA_TABLE[k] * ZETA_INV_TABLE[k]) % 3329 == 1,
{
    if k == 0 {
        assert(ZETA_TABLE[0] == 1 && ZETA_INV_TABLE[0] == 1);
        assert(1int * 1int == 1int);
        assert(1int % 3329 == 1);
    } else if k == 1 {
        assert(ZETA_TABLE[1] == 1729 && ZETA_INV_TABLE[1] == 1600);
        assert(1729int * 1600int == 2766400int);
        assert(2766400int % 3329 == 1);
    } else if k == 2 {
        assert(ZETA_TABLE[2] == 2580 && ZETA_INV_TABLE[2] == 40);
        assert(2580int * 40int == 103200int);
        assert(103200int % 3329 == 1);
    } else if k == 3 {
        assert(ZETA_TABLE[3] == 3289 && ZETA_INV_TABLE[3] == 749);
        assert(3289int * 749int == 2463461int);
        assert(2463461int % 3329 == 1);
    } else if k == 4 {
        assert(ZETA_TABLE[4] == 2642 && ZETA_INV_TABLE[4] == 2481);
        assert(2642int * 2481int == 6554802int);
        assert(6554802int % 3329 == 1);
    } else if k == 5 {
        assert(ZETA_TABLE[5] == 630 && ZETA_INV_TABLE[5] == 1432);
        assert(630int * 1432int == 902160int);
        assert(902160int % 3329 == 1);
    } else if k == 6 {
        assert(ZETA_TABLE[6] == 1897 && ZETA_INV_TABLE[6] == 2699);
        assert(1897int * 2699int == 5120003int);
        assert(5120003int % 3329 == 1);
    } else if k == 7 {
        assert(ZETA_TABLE[7] == 848 && ZETA_INV_TABLE[7] == 687);
        assert(848int * 687int == 582576int);
        assert(582576int % 3329 == 1);
    } else if k == 8 {
        assert(ZETA_TABLE[8] == 1062 && ZETA_INV_TABLE[8] == 1583);
        assert(1062int * 1583int == 1681146int);
        assert(1681146int % 3329 == 1);
    } else if k == 9 {
        assert(ZETA_TABLE[9] == 1919 && ZETA_INV_TABLE[9] == 2760);
        assert(1919int * 2760int == 5296440int);
        assert(5296440int % 3329 == 1);
    } else if k == 10 {
        assert(ZETA_TABLE[10] == 193 && ZETA_INV_TABLE[10] == 69);
        assert(193int * 69int == 13317int);
        assert(13317int % 3329 == 1);
    } else if k == 11 {
        assert(ZETA_TABLE[11] == 797 && ZETA_INV_TABLE[11] == 543);
        assert(797int * 543int == 432771int);
        assert(432771int % 3329 == 1);
    } else if k == 12 {
        assert(ZETA_TABLE[12] == 2786 && ZETA_INV_TABLE[12] == 2532);
        assert(2786int * 2532int == 7054152int);
        assert(7054152int % 3329 == 1);
    } else if k == 13 {
        assert(ZETA_TABLE[13] == 3260 && ZETA_INV_TABLE[13] == 3136);
        assert(3260int * 3136int == 10223360int);
        assert(10223360int % 3329 == 1);
    } else if k == 14 {
        assert(ZETA_TABLE[14] == 569 && ZETA_INV_TABLE[14] == 1410);
        assert(569int * 1410int == 802290int);
        assert(802290int % 3329 == 1);
    } else if k == 15 {
        assert(ZETA_TABLE[15] == 1746 && ZETA_INV_TABLE[15] == 2267);
        assert(1746int * 2267int == 3958182int);
        assert(3958182int % 3329 == 1);
    } else if k == 16 {
        assert(ZETA_TABLE[16] == 296 && ZETA_INV_TABLE[16] == 2508);
        assert(296int * 2508int == 742368int);
        assert(742368int % 3329 == 1);
    } else if k == 17 {
        assert(ZETA_TABLE[17] == 2447 && ZETA_INV_TABLE[17] == 1355);
        assert(2447int * 1355int == 3315685int);
        assert(3315685int % 3329 == 1);
    } else if k == 18 {
        assert(ZETA_TABLE[18] == 1339 && ZETA_INV_TABLE[18] == 450);
        assert(1339int * 450int == 602550int);
        assert(602550int % 3329 == 1);
    } else if k == 19 {
        assert(ZETA_TABLE[19] == 1476 && ZETA_INV_TABLE[19] == 936);
        assert(1476int * 936int == 1381536int);
        assert(1381536int % 3329 == 1);
    } else if k == 20 {
        assert(ZETA_TABLE[20] == 3046 && ZETA_INV_TABLE[20] == 447);
        assert(3046int * 447int == 1361562int);
        assert(1361562int % 3329 == 1);
    } else if k == 21 {
        assert(ZETA_TABLE[21] == 56 && ZETA_INV_TABLE[21] == 2794);
        assert(56int * 2794int == 156464int);
        assert(156464int % 3329 == 1);
    } else if k == 22 {
        assert(ZETA_TABLE[22] == 2240 && ZETA_INV_TABLE[22] == 1235);
        assert(2240int * 1235int == 2766400int);
        assert(2766400int % 3329 == 1);
    } else if k == 23 {
        assert(ZETA_TABLE[23] == 1333 && ZETA_INV_TABLE[23] == 1903);
        assert(1333int * 1903int == 2536699int);
        assert(2536699int % 3329 == 1);
    } else if k == 24 {
        assert(ZETA_TABLE[24] == 1426 && ZETA_INV_TABLE[24] == 1996);
        assert(1426int * 1996int == 2846296int);
        assert(2846296int % 3329 == 1);
    } else if k == 25 {
        assert(ZETA_TABLE[25] == 2094 && ZETA_INV_TABLE[25] == 1089);
        assert(2094int * 1089int == 2280366int);
        assert(2280366int % 3329 == 1);
    } else if k == 26 {
        assert(ZETA_TABLE[26] == 535 && ZETA_INV_TABLE[26] == 3273);
        assert(535int * 3273int == 1751055int);
        assert(1751055int % 3329 == 1);
    } else if k == 27 {
        assert(ZETA_TABLE[27] == 2882 && ZETA_INV_TABLE[27] == 283);
        assert(2882int * 283int == 815606int);
        assert(815606int % 3329 == 1);
    } else if k == 28 {
        assert(ZETA_TABLE[28] == 2393 && ZETA_INV_TABLE[28] == 1853);
        assert(2393int * 1853int == 4434229int);
        assert(4434229int % 3329 == 1);
    } else if k == 29 {
        assert(ZETA_TABLE[29] == 2879 && ZETA_INV_TABLE[29] == 1990);
        assert(2879int * 1990int == 5729210int);
        assert(5729210int % 3329 == 1);
    } else if k == 30 {
        assert(ZETA_TABLE[30] == 1974 && ZETA_INV_TABLE[30] == 882);
        assert(1974int * 882int == 1741068int);
        assert(1741068int % 3329 == 1);
    } else if k == 31 {
        assert(ZETA_TABLE[31] == 821 && ZETA_INV_TABLE[31] == 3033);
        assert(821int * 3033int == 2490093int);
        assert(2490093int % 3329 == 1);
    } else if k == 32 {
        assert(ZETA_TABLE[32] == 289 && ZETA_INV_TABLE[32] == 2419);
        assert(289int * 2419int == 699091int);
        assert(699091int % 3329 == 1);
    } else if k == 33 {
        assert(ZETA_TABLE[33] == 331 && ZETA_INV_TABLE[33] == 2102);
        assert(331int * 2102int == 695762int);
        assert(695762int % 3329 == 1);
    } else if k == 34 {
        assert(ZETA_TABLE[34] == 3253 && ZETA_INV_TABLE[34] == 219);
        assert(3253int * 219int == 712407int);
        assert(712407int % 3329 == 1);
    } else if k == 35 {
        assert(ZETA_TABLE[35] == 1756 && ZETA_INV_TABLE[35] == 855);
        assert(1756int * 855int == 1501380int);
        assert(1501380int % 3329 == 1);
    } else if k == 36 {
        assert(ZETA_TABLE[36] == 1197 && ZETA_INV_TABLE[36] == 2681);
        assert(1197int * 2681int == 3209157int);
        assert(3209157int % 3329 == 1);
    } else if k == 37 {
        assert(ZETA_TABLE[37] == 2304 && ZETA_INV_TABLE[37] == 1848);
        assert(2304int * 1848int == 4257792int);
        assert(4257792int % 3329 == 1);
    } else if k == 38 {
        assert(ZETA_TABLE[38] == 2277 && ZETA_INV_TABLE[38] == 712);
        assert(2277int * 712int == 1621224int);
        assert(1621224int % 3329 == 1);
    } else if k == 39 {
        assert(ZETA_TABLE[39] == 2055 && ZETA_INV_TABLE[39] == 682);
        assert(2055int * 682int == 1401510int);
        assert(1401510int % 3329 == 1);
    } else if k == 40 {
        assert(ZETA_TABLE[40] == 650 && ZETA_INV_TABLE[40] == 927);
        assert(650int * 927int == 602550int);
        assert(602550int % 3329 == 1);
    } else if k == 41 {
        assert(ZETA_TABLE[41] == 1977 && ZETA_INV_TABLE[41] == 1795);
        assert(1977int * 1795int == 3548715int);
        assert(3548715int % 3329 == 1);
    } else if k == 42 {
        assert(ZETA_TABLE[42] == 2513 && ZETA_INV_TABLE[42] == 461);
        assert(2513int * 461int == 1158493int);
        assert(1158493int % 3329 == 1);
    } else if k == 43 {
        assert(ZETA_TABLE[43] == 632 && ZETA_INV_TABLE[43] == 1891);
        assert(632int * 1891int == 1195112int);
        assert(1195112int % 3329 == 1);
    } else if k == 44 {
        assert(ZETA_TABLE[44] == 2865 && ZETA_INV_TABLE[44] == 2877);
        assert(2865int * 2877int == 8242605int);
        assert(8242605int % 3329 == 1);
    } else if k == 45 {
        assert(ZETA_TABLE[45] == 33 && ZETA_INV_TABLE[45] == 2522);
        assert(33int * 2522int == 83226int);
        assert(83226int % 3329 == 1);
    } else if k == 46 {
        assert(ZETA_TABLE[46] == 1320 && ZETA_INV_TABLE[46] == 1894);
        assert(1320int * 1894int == 2500080int);
        assert(2500080int % 3329 == 1);
    } else if k == 47 {
        assert(ZETA_TABLE[47] == 1915 && ZETA_INV_TABLE[47] == 1010);
        assert(1915int * 1010int == 1934150int);
        assert(1934150int % 3329 == 1);
    } else if k == 48 {
        assert(ZETA_TABLE[48] == 2319 && ZETA_INV_TABLE[48] == 1414);
        assert(2319int * 1414int == 3279066int);
        assert(3279066int % 3329 == 1);
    } else if k == 49 {
        assert(ZETA_TABLE[49] == 1435 && ZETA_INV_TABLE[49] == 2009);
        assert(1435int * 2009int == 2882915int);
        assert(2882915int % 3329 == 1);
    } else if k == 50 {
        assert(ZETA_TABLE[50] == 807 && ZETA_INV_TABLE[50] == 3296);
        assert(807int * 3296int == 2659872int);
        assert(2659872int % 3329 == 1);
    } else if k == 51 {
        assert(ZETA_TABLE[51] == 452 && ZETA_INV_TABLE[51] == 464);
        assert(452int * 464int == 209728int);
        assert(209728int % 3329 == 1);
    } else if k == 52 {
        assert(ZETA_TABLE[52] == 1438 && ZETA_INV_TABLE[52] == 2697);
        assert(1438int * 2697int == 3878286int);
        assert(3878286int % 3329 == 1);
    } else if k == 53 {
        assert(ZETA_TABLE[53] == 2868 && ZETA_INV_TABLE[53] == 816);
        assert(2868int * 816int == 2340288int);
        assert(2340288int % 3329 == 1);
    } else if k == 54 {
        assert(ZETA_TABLE[54] == 1534 && ZETA_INV_TABLE[54] == 1352);
        assert(1534int * 1352int == 2073968int);
        assert(2073968int % 3329 == 1);
    } else if k == 55 {
        assert(ZETA_TABLE[55] == 2402 && ZETA_INV_TABLE[55] == 2679);
        assert(2402int * 2679int == 6434958int);
        assert(6434958int % 3329 == 1);
    } else if k == 56 {
        assert(ZETA_TABLE[56] == 2647 && ZETA_INV_TABLE[56] == 1274);
        assert(2647int * 1274int == 3372278int);
        assert(3372278int % 3329 == 1);
    } else if k == 57 {
        assert(ZETA_TABLE[57] == 2617 && ZETA_INV_TABLE[57] == 1052);
        assert(2617int * 1052int == 2753084int);
        assert(2753084int % 3329 == 1);
    } else if k == 58 {
        assert(ZETA_TABLE[58] == 1481 && ZETA_INV_TABLE[58] == 1025);
        assert(1481int * 1025int == 1518025int);
        assert(1518025int % 3329 == 1);
    } else if k == 59 {
        assert(ZETA_TABLE[59] == 648 && ZETA_INV_TABLE[59] == 2132);
        assert(648int * 2132int == 1381536int);
        assert(1381536int % 3329 == 1);
    } else if k == 60 {
        assert(ZETA_TABLE[60] == 2474 && ZETA_INV_TABLE[60] == 1573);
        assert(2474int * 1573int == 3891602int);
        assert(3891602int % 3329 == 1);
    } else if k == 61 {
        assert(ZETA_TABLE[61] == 3110 && ZETA_INV_TABLE[61] == 76);
        assert(3110int * 76int == 236360int);
        assert(236360int % 3329 == 1);
    } else if k == 62 {
        assert(ZETA_TABLE[62] == 1227 && ZETA_INV_TABLE[62] == 2998);
        assert(1227int * 2998int == 3678546int);
        assert(3678546int % 3329 == 1);
    } else if k == 63 {
        assert(ZETA_TABLE[63] == 910 && ZETA_INV_TABLE[63] == 3040);
        assert(910int * 3040int == 2766400int);
        assert(2766400int % 3329 == 1);
    } else if k == 64 {
        assert(ZETA_TABLE[64] == 17 && ZETA_INV_TABLE[64] == 1175);
        assert(17int * 1175int == 19975int);
        assert(19975int % 3329 == 1);
    } else if k == 65 {
        assert(ZETA_TABLE[65] == 2761 && ZETA_INV_TABLE[65] == 2444);
        assert(2761int * 2444int == 6747884int);
        assert(6747884int % 3329 == 1);
    } else if k == 66 {
        assert(ZETA_TABLE[66] == 583 && ZETA_INV_TABLE[66] == 394);
        assert(583int * 394int == 229702int);
        assert(229702int % 3329 == 1);
    } else if k == 67 {
        assert(ZETA_TABLE[67] == 2649 && ZETA_INV_TABLE[67] == 1219);
        assert(2649int * 1219int == 3229131int);
        assert(3229131int % 3329 == 1);
    } else if k == 68 {
        assert(ZETA_TABLE[68] == 1637 && ZETA_INV_TABLE[68] == 2300);
        assert(1637int * 2300int == 3765100int);
        assert(3765100int % 3329 == 1);
    } else if k == 69 {
        assert(ZETA_TABLE[69] == 723 && ZETA_INV_TABLE[69] == 1455);
        assert(723int * 1455int == 1051965int);
        assert(1051965int % 3329 == 1);
    } else if k == 70 {
        assert(ZETA_TABLE[70] == 2288 && ZETA_INV_TABLE[70] == 2117);
        assert(2288int * 2117int == 4843696int);
        assert(4843696int % 3329 == 1);
    } else if k == 71 {
        assert(ZETA_TABLE[71] == 1100 && ZETA_INV_TABLE[71] == 1607);
        assert(1100int * 1607int == 1767700int);
        assert(1767700int % 3329 == 1);
    } else if k == 72 {
        assert(ZETA_TABLE[72] == 1409 && ZETA_INV_TABLE[72] == 2443);
        assert(1409int * 2443int == 3442187int);
        assert(3442187int % 3329 == 1);
    } else if k == 73 {
        assert(ZETA_TABLE[73] == 2662 && ZETA_INV_TABLE[73] == 554);
        assert(2662int * 554int == 1474748int);
        assert(1474748int % 3329 == 1);
    } else if k == 74 {
        assert(ZETA_TABLE[74] == 3281 && ZETA_INV_TABLE[74] == 1179);
        assert(3281int * 1179int == 3868299int);
        assert(3868299int % 3329 == 1);
    } else if k == 75 {
        assert(ZETA_TABLE[75] == 233 && ZETA_INV_TABLE[75] == 2186);
        assert(233int * 2186int == 509338int);
        assert(509338int % 3329 == 1);
    } else if k == 76 {
        assert(ZETA_TABLE[76] == 756 && ZETA_INV_TABLE[76] == 2303);
        assert(756int * 2303int == 1741068int);
        assert(1741068int % 3329 == 1);
    } else if k == 77 {
        assert(ZETA_TABLE[77] == 2156 && ZETA_INV_TABLE[77] == 2926);
        assert(2156int * 2926int == 6308456int);
        assert(6308456int % 3329 == 1);
    } else if k == 78 {
        assert(ZETA_TABLE[78] == 3015 && ZETA_INV_TABLE[78] == 2237);
        assert(3015int * 2237int == 6744555int);
        assert(6744555int % 3329 == 1);
    } else if k == 79 {
        assert(ZETA_TABLE[79] == 3050 && ZETA_INV_TABLE[79] == 525);
        assert(3050int * 525int == 1601250int);
        assert(1601250int % 3329 == 1);
    } else if k == 80 {
        assert(ZETA_TABLE[80] == 1703 && ZETA_INV_TABLE[80] == 735);
        assert(1703int * 735int == 1251705int);
        assert(1251705int % 3329 == 1);
    } else if k == 81 {
        assert(ZETA_TABLE[81] == 1651 && ZETA_INV_TABLE[81] == 863);
        assert(1651int * 863int == 1424813int);
        assert(1424813int % 3329 == 1);
    } else if k == 82 {
        assert(ZETA_TABLE[82] == 2789 && ZETA_INV_TABLE[82] == 2768);
        assert(2789int * 2768int == 7719952int);
        assert(7719952int % 3329 == 1);
    } else if k == 83 {
        assert(ZETA_TABLE[83] == 1789 && ZETA_INV_TABLE[83] == 1230);
        assert(1789int * 1230int == 2200470int);
        assert(2200470int % 3329 == 1);
    } else if k == 84 {
        assert(ZETA_TABLE[84] == 1847 && ZETA_INV_TABLE[84] == 2572);
        assert(1847int * 2572int == 4750484int);
        assert(4750484int % 3329 == 1);
    } else if k == 85 {
        assert(ZETA_TABLE[85] == 952 && ZETA_INV_TABLE[85] == 556);
        assert(952int * 556int == 529312int);
        assert(529312int % 3329 == 1);
    } else if k == 86 {
        assert(ZETA_TABLE[86] == 1461 && ZETA_INV_TABLE[86] == 3010);
        assert(1461int * 3010int == 4397610int);
        assert(4397610int % 3329 == 1);
    } else if k == 87 {
        assert(ZETA_TABLE[87] == 2687 && ZETA_INV_TABLE[87] == 2266);
        assert(2687int * 2266int == 6088742int);
        assert(6088742int % 3329 == 1);
    } else if k == 88 {
        assert(ZETA_TABLE[88] == 939 && ZETA_INV_TABLE[88] == 1684);
        assert(939int * 1684int == 1581276int);
        assert(1581276int % 3329 == 1);
    } else if k == 89 {
        assert(ZETA_TABLE[89] == 2308 && ZETA_INV_TABLE[89] == 1239);
        assert(2308int * 1239int == 2859612int);
        assert(2859612int % 3329 == 1);
    } else if k == 90 {
        assert(ZETA_TABLE[90] == 2437 && ZETA_INV_TABLE[90] == 780);
        assert(2437int * 780int == 1900860int);
        assert(1900860int % 3329 == 1);
    } else if k == 91 {
        assert(ZETA_TABLE[91] == 2388 && ZETA_INV_TABLE[91] == 2954);
        assert(2388int * 2954int == 7054152int);
        assert(7054152int % 3329 == 1);
    } else if k == 92 {
        assert(ZETA_TABLE[92] == 733 && ZETA_INV_TABLE[92] == 109);
        assert(733int * 109int == 79897int);
        assert(79897int % 3329 == 1);
    } else if k == 93 {
        assert(ZETA_TABLE[93] == 2337 && ZETA_INV_TABLE[93] == 1292);
        assert(2337int * 1292int == 3019404int);
        assert(3019404int % 3329 == 1);
    } else if k == 94 {
        assert(ZETA_TABLE[94] == 268 && ZETA_INV_TABLE[94] == 1031);
        assert(268int * 1031int == 276308int);
        assert(276308int % 3329 == 1);
    } else if k == 95 {
        assert(ZETA_TABLE[95] == 641 && ZETA_INV_TABLE[95] == 1745);
        assert(641int * 1745int == 1118545int);
        assert(1118545int % 3329 == 1);
    } else if k == 96 {
        assert(ZETA_TABLE[96] == 1584 && ZETA_INV_TABLE[96] == 2688);
        assert(1584int * 2688int == 4257792int);
        assert(4257792int % 3329 == 1);
    } else if k == 97 {
        assert(ZETA_TABLE[97] == 2298 && ZETA_INV_TABLE[97] == 3061);
        assert(2298int * 3061int == 7034178int);
        assert(7034178int % 3329 == 1);
    } else if k == 98 {
        assert(ZETA_TABLE[98] == 2037 && ZETA_INV_TABLE[98] == 992);
        assert(2037int * 992int == 2020704int);
        assert(2020704int % 3329 == 1);
    } else if k == 99 {
        assert(ZETA_TABLE[99] == 3220 && ZETA_INV_TABLE[99] == 2596);
        assert(3220int * 2596int == 8359120int);
        assert(8359120int % 3329 == 1);
    } else if k == 100 {
        assert(ZETA_TABLE[100] == 375 && ZETA_INV_TABLE[100] == 941);
        assert(375int * 941int == 352875int);
        assert(352875int % 3329 == 1);
    } else if k == 101 {
        assert(ZETA_TABLE[101] == 2549 && ZETA_INV_TABLE[101] == 892);
        assert(2549int * 892int == 2273708int);
        assert(2273708int % 3329 == 1);
    } else if k == 102 {
        assert(ZETA_TABLE[102] == 2090 && ZETA_INV_TABLE[102] == 1021);
        assert(2090int * 1021int == 2133890int);
        assert(2133890int % 3329 == 1);
    } else if k == 103 {
        assert(ZETA_TABLE[103] == 1645 && ZETA_INV_TABLE[103] == 2390);
        assert(1645int * 2390int == 3931550int);
        assert(3931550int % 3329 == 1);
    } else if k == 104 {
        assert(ZETA_TABLE[104] == 1063 && ZETA_INV_TABLE[104] == 642);
        assert(1063int * 642int == 682446int);
        assert(682446int % 3329 == 1);
    } else if k == 105 {
        assert(ZETA_TABLE[105] == 319 && ZETA_INV_TABLE[105] == 1868);
        assert(319int * 1868int == 595892int);
        assert(595892int % 3329 == 1);
    } else if k == 106 {
        assert(ZETA_TABLE[106] == 2773 && ZETA_INV_TABLE[106] == 2377);
        assert(2773int * 2377int == 6591421int);
        assert(6591421int % 3329 == 1);
    } else if k == 107 {
        assert(ZETA_TABLE[107] == 757 && ZETA_INV_TABLE[107] == 1482);
        assert(757int * 1482int == 1121874int);
        assert(1121874int % 3329 == 1);
    } else if k == 108 {
        assert(ZETA_TABLE[108] == 2099 && ZETA_INV_TABLE[108] == 1540);
        assert(2099int * 1540int == 3232460int);
        assert(3232460int % 3329 == 1);
    } else if k == 109 {
        assert(ZETA_TABLE[109] == 561 && ZETA_INV_TABLE[109] == 540);
        assert(561int * 540int == 302940int);
        assert(302940int % 3329 == 1);
    } else if k == 110 {
        assert(ZETA_TABLE[110] == 2466 && ZETA_INV_TABLE[110] == 1678);
        assert(2466int * 1678int == 4137948int);
        assert(4137948int % 3329 == 1);
    } else if k == 111 {
        assert(ZETA_TABLE[111] == 2594 && ZETA_INV_TABLE[111] == 1626);
        assert(2594int * 1626int == 4217844int);
        assert(4217844int % 3329 == 1);
    } else if k == 112 {
        assert(ZETA_TABLE[112] == 2804 && ZETA_INV_TABLE[112] == 279);
        assert(2804int * 279int == 782316int);
        assert(782316int % 3329 == 1);
    } else if k == 113 {
        assert(ZETA_TABLE[113] == 1092 && ZETA_INV_TABLE[113] == 314);
        assert(1092int * 314int == 342888int);
        assert(342888int % 3329 == 1);
    } else if k == 114 {
        assert(ZETA_TABLE[114] == 403 && ZETA_INV_TABLE[114] == 1173);
        assert(403int * 1173int == 472719int);
        assert(472719int % 3329 == 1);
    } else if k == 115 {
        assert(ZETA_TABLE[115] == 1026 && ZETA_INV_TABLE[115] == 2573);
        assert(1026int * 2573int == 2639898int);
        assert(2639898int % 3329 == 1);
    } else if k == 116 {
        assert(ZETA_TABLE[116] == 1143 && ZETA_INV_TABLE[116] == 3096);
        assert(1143int * 3096int == 3538728int);
        assert(3538728int % 3329 == 1);
    } else if k == 117 {
        assert(ZETA_TABLE[117] == 2150 && ZETA_INV_TABLE[117] == 48);
        assert(2150int * 48int == 103200int);
        assert(103200int % 3329 == 1);
    } else if k == 118 {
        assert(ZETA_TABLE[118] == 2775 && ZETA_INV_TABLE[118] == 667);
        assert(2775int * 667int == 1850925int);
        assert(1850925int % 3329 == 1);
    } else if k == 119 {
        assert(ZETA_TABLE[119] == 886 && ZETA_INV_TABLE[119] == 1920);
        assert(886int * 1920int == 1701120int);
        assert(1701120int % 3329 == 1);
    } else if k == 120 {
        assert(ZETA_TABLE[120] == 1722 && ZETA_INV_TABLE[120] == 2229);
        assert(1722int * 2229int == 3838338int);
        assert(3838338int % 3329 == 1);
    } else if k == 121 {
        assert(ZETA_TABLE[121] == 1212 && ZETA_INV_TABLE[121] == 1041);
        assert(1212int * 1041int == 1261692int);
        assert(1261692int % 3329 == 1);
    } else if k == 122 {
        assert(ZETA_TABLE[122] == 1874 && ZETA_INV_TABLE[122] == 2606);
        assert(1874int * 2606int == 4883644int);
        assert(4883644int % 3329 == 1);
    } else if k == 123 {
        assert(ZETA_TABLE[123] == 1029 && ZETA_INV_TABLE[123] == 1692);
        assert(1029int * 1692int == 1741068int);
        assert(1741068int % 3329 == 1);
    } else if k == 124 {
        assert(ZETA_TABLE[124] == 2110 && ZETA_INV_TABLE[124] == 680);
        assert(2110int * 680int == 1434800int);
        assert(1434800int % 3329 == 1);
    } else if k == 125 {
        assert(ZETA_TABLE[125] == 2935 && ZETA_INV_TABLE[125] == 2746);
        assert(2935int * 2746int == 8059510int);
        assert(8059510int % 3329 == 1);
    } else if k == 126 {
        assert(ZETA_TABLE[126] == 885 && ZETA_INV_TABLE[126] == 568);
        assert(885int * 568int == 502680int);
        assert(502680int % 3329 == 1);
    } else {
        assert(ZETA_TABLE[127] == 2154 && ZETA_INV_TABLE[127] == 3312);
        assert(2154int * 3312int == 7134048int);
        assert(7134048int % 3329 == 1);
    }
}


/// In a layer of half-width `len`, coefficient `i` is paired with `i + len` or
/// `i - len` in the same chunk, and the chunk's twiddle factor is a valid index.
pub proof fn lemma_pair_index(len: int, i: int)
    requires
        is_layer_len(len),
        0 <= i < 256,
    ensures
        1 <= layer_k(len, i) < 128,
        i % (2 * len) < len ==> i + len < 256 && (i + len) % (2 * len) == i % (2 * len) + len
            && layer_k(len, i + len) == layer_k(len, i),
        i % (2 * len) >= len ==> i - len >= 0 && (i - len) % (2 * len) == i % (2 * len) - len
            && layer_k(len, i - len) == layer_k(len, i),
{
    let d = 2 * len;
    let c = i / d;
    let p = i % d;
    lemma_fundamental_div_mod(i, d);
    lemma_mod_bound(i, d);
    assert(i == d * c + p);
    if p < len {
        lemma_fundamental_div_mod_converse(i + len, d, c, p + len);
    } else {
        lemma_fundamental_div_mod_converse(i - len, d, c, p - len);
    }
    if len == 2 {
        assert(d * c == 4 * c);
    } else if len == 4 {
        assert(d * c == 8 * c);
    } else if len == 8 {
        assert(d * c == 16 * c);
    } else if len == 16 {
        assert(d * c == 32 * c);
    } else if len == 32 {
        assert(d * c == 64 * c);
    } else if len == 64 {
        assert(d * c == 128 * c);
    } else {
        assert(d * c == 256 * c);
    }
}

pub proof fn lemma_norm_reduced(s: Seq<int>)
    requires
        s.len() == 256,
    ensures
        is_reduced_poly(norm(s)),
        forall|i: int| 0 <= i < 256 ==> #[trigger] norm(s)[i] == s[i] % 3329,
{
    assert forall|i: int| 0 <= i < 256 implies 0 <= #[trigger] norm(s)[i] < 3329 by {
        lemma_mod_bound(s[i], 3329);
    }
}

pub proof fn lemma_layers_reduced(s: Seq<int>, len: int)
    requires
        is_layer_len(len),
    ensures
        is_reduced_poly(ntt_layer(s, len)),
        is_reduced_poly(intt_layer(s, len)),
{
    assert forall|i: int| 0 <= i < 256 implies 0 <= #[trigger] ntt_layer(s, len)[i] < 3329 by {
        let z = ZETA_TABLE[layer_k(len, i)] as int;
        lemma_mod_bound(s[i] + z * s[i + len], 3329);
        lemma_mod_bound(s[i - len] - z * s[i], 3329);
    }
    assert forall|i: int| 0 <= i < 256 implies 0 <= #[trigger] intt_layer(s, len)[i] < 3329 by {
        let zi = ZETA_INV_TABLE[layer_k(len, i)] as int;
        lemma_mod_bound(s[i] + s[i + len], 3329);
        lemma_mod_bound((s[i - len] - s[i]) * zi, 3329);
    }
}

pub proof fn lemma_scale_reduced(s: Seq<int>, c: int)
    requires
        s.len() == 256,
    ensures
        is_reduced_poly(scale(s, c)),
{
    assert forall|i: int| 0 <= i < 256 implies 0 <= #[trigger] scale(s, c)[i] < 3329 by {
        lemma_mod_bound(c * s[i], 3329);
    }
}

/// `((a + z*b) % q + (a - z*b) % q) % q == 2*a % q` and
/// `(((a + z*b) % q - (a - z*b) % q) * zi) % q == 2*b % q` when `z * zi = 1 mod q`.
pub proof fn lemma_butterfly_inverse(a: int, b: int, z: int, zi: int)
    requires
        (z * zi) % 3329 == 1,
    ensures
        ((a + z * b) % 3329 + (a - z * b) % 3329) % 3329 == (2 * a) % 3329,
        ((((a + z * b) % 3329) - ((a - z * b) % 3329)) * zi) % 3329 == (2 * b) % 3329,
{
    lemma_add_mod_noop(a + z * b, a - z * b, 3329);
    assert((a + z * b) + (a - z * b) == 2 * a);
    lemma_sub_mod_noop(a + z * b, a - z * b, 3329);
    assert((a + z * b) - (a - z * b) == 2 * (z * b)) by (nonlinear_arith);
    let d = (a + z * b) % 3329 - (a - z * b) % 3329;
    assert(d % 3329 == (2 * (z * b)) % 3329);
    lemma_mul_mod_noop_left(d, zi, 3329);
    lemma_mul_mod_noop_left(2 * (z * b), zi, 3329);
    assert((2 * (z * b)) * zi == (2 * b) * (z * zi)) by (nonlinear_arith);
    lemma_mul_mod_noop_right(2 * b, z * zi, 3329);
}

/// An inverse layer undoes the forward layer of the same half-width, up to a factor 2.
pub proof fn lemma_layer_inverse(t: Seq<int>, len: int)
    requires
        is_layer_len(len),
        t.len() == 256,
    ensures
        intt_layer(ntt_layer(t, len), len) =~= scale(t, 2),
{
    let l = ntt_layer(t, len);
    assert forall|i: int| 0 <= i < 256 implies #[trigger] intt_layer(l, len)[i] == scale(t, 2)[i] by {
        lemma_pair_index(len, i);
        let k = layer_k(len, i);
        lemma_zeta_inverse(k);
        let z = ZETA_TABLE[k] as int;
        let zi = ZETA_INV_TABLE[k] as int;
        if i % (2 * len) < len {
            lemma_butterfly_inverse(t[i], t[i + len], z, zi);
        } else {
            lemma_butterfly_inverse(t[i - len], t[i], z, zi);
        }
    }
}

/// `((c*a) % q + (c*b) % q) % q == (c * ((a + b) % q)) % q` and
/// `((((c*a) % q) - ((c*b) % q)) * zi) % q == (c * (((a - b) * zi) % q)) % q`.
pub proof fn lemma_butterfly_linear(a: int, b: int, c: int, zi: int)
    ensures
        ((c * a) % 3329 + (c * b) % 3329) % 3329 == (c * ((a + b) % 3329)) % 3329,
        ((((c * a) % 3329) - ((c * b) % 3329)) * zi) % 3329 == (c * (((a - b) * zi) % 3329)) % 3329,
{
    lemma_add_mod_noop(c * a, c * b, 3329);
    lemma_mul_is_distributive_add(c, a, b);
    lemma_mul_mod_noop_right(c, a + b, 3329);
    lemma_sub_mod_noop(c * a, c * b, 3329);
    lemma_mul_is_distributive_sub(c, a, b);
    let d = (c * a) % 3329 - (c * b) % 3329;
    lemma_mul_mod_noop_left(d, zi, 3329);
    lemma_mul_mod_noop_left(c * (a - b), zi, 3329);
    lemma_mul_is_associative(c, a - b, zi);
    lemma_mul_mod_noop_right(c, (a - b) * zi, 3329);
}

/// An inverse layer commutes with multiplication by a constant.
pub proof fn lemma_layer_linear(x: Seq<int>, c: int, len: int)
    requires
        is_layer_len(len),
        x.len() == 256,
    ensures
        intt_layer(scale(x, c), len) =~= scale(intt_layer(x, len), c),
{
    let sx = scale(x, c);
    assert forall|i: int| 0 <= i < 256 implies #[trigger] intt_layer(sx, len)[i] == scale(
        intt_layer(x, len),
        c,
    )[i] by {
        lemma_pair_index(len, i);
        let k = layer_k(len, i);
        let zi = ZETA_INV_TABLE[k] as int;
        if i % (2 * len) < len {
            lemma_butterfly_linear(x[i], x[i + len], c, zi);
        } else {
            lemma_butterfly_linear(x[i - len], x[i], c, zi);
        }
    }
}

/// Scaling twice is scaling by the product.
pub proof fn lemma_scale_scale(t: Seq<int>, a: int, b: int)
    ensures
        scale(scale(t, a), b) =~= scale(t, a * b),
{
    assert forall|i: int| 0 <= i < t.len() implies #[trigger] scale(scale(t, a), b)[i] == scale(
        t,
        a * b,
    )[i] by {
        lemma_mul_mod_noop_right(b, a * t[i], 3329);
        lemma_mul_is_associative(b, a, t[i]);
        lemma_mul_is_commutative(a, b);
    }
}

/// Scaling a reduced polynomial by one leaves it unchanged.
pub proof fn lemma_scale_one(t: Seq<int>)
    requires
        is_reduced_poly(t),
    ensures
        scale(t, 1) =~= t,
{
    assert forall|i: int| 0 <= i < 256 implies #[trigger] scale(t, 1)[i] == t[i] by {
        lemma_small_mod(t[i] as nat, 3329);
    }
}

/// The inverse layers of half-width up to `len` undo the forward layers of
/// half-width from `len` down, up to a factor `len`.
pub proof fn lemma_roundtrip_layers(t: Seq<int>, len: nat)
    requires
        len == 1 || is_layer_len(len as int),
        is_reduced_poly(t),
    ensures
        intt_to(ntt_from(t, len), len) =~= scale(t, len as int),
    decreases len,
{
    if len <= 1 {
        lemma_scale_one(t);
    } else {
        let half = len / 2;
        let l = ntt_layer(t, len as int);
        lemma_layers_reduced(t, len as int);
        lemma_roundtrip_layers(l, half);
        // intt_to(ntt_from(l, half), half) == scale(l, half)
        assert(ntt_from(t, len) == ntt_from(l, half));
        assert(intt_to(ntt_from(t, len), len) == intt_layer(intt_to(ntt_from(l, half), half), len as int));
        lemma_layer_linear(l, half as int, len as int);
        lemma_layer_inverse(t, len as int);
        lemma_scale_scale(t, 2, half as int);
        assert(2 * half == len);
    }
}

/// Reducing a reduced polynomial changes nothing.
pub proof fn lemma_norm_of_reduced(t: Seq<int>)
    requires
        is_reduced_poly(t),
    ensures
        norm(t) =~= t,
{
    assert forall|i: int| 0 <= i < 256 implies #[trigger] norm(t)[i] == t[i] by {
        lemma_small_mod(t[i] as nat, 3329);
    }
}

/// The forward layers keep a polynomial reduced.
pub proof fn lemma_ntt_from_reduced(t: Seq<int>, len: nat)
    requires
        len == 1 || is_layer_len(len as int),
        is_reduced_poly(t),
    ensures
        is_reduced_poly(ntt_from(t, len)),
    decreases len,
{
    if len > 1 {
        lemma_layers_reduced(t, len as int);
        lemma_ntt_from_reduced(ntt_layer(t, len as int), len / 2);
    }
}

/// The transform of any polynomial of 256 coefficients is reduced.
pub proof fn lemma_ntt_spec_reduced(s: Seq<int>)
    requires
        s.len() == 256,
    ensures
        is_reduced_poly(ntt_spec(s)),
{
    lemma_norm_reduced(s);
    lemma_ntt_from_reduced(norm(s), 128);
}

/// The inverse transform of any polynomial of 256 coefficients is reduced.
pub proof fn lemma_intt_spec_reduced(s: Seq<int>)
    requires
        s.len() == 256,
    ensures
        is_reduced_poly(intt_spec(s)),
{
    lemma_intt_to_len(norm(s), 128);
    lemma_scale_reduced(intt_to(norm(s), 128), 3303);
}

/// The inverse layers keep 256 coefficients.
pub proof fn lemma_intt_to_len(t: Seq<int>, len: nat)
    requires
        len == 1 || is_layer_len(len as int),
        t.len() == 256,
    ensures
        intt_to(t, len).len() == 256,
    decreases len,
{
    if len > 1 {
        lemma_intt_to_len(t, len / 2);
    }
}

/// The inverse transform undoes the transform: for every polynomial `s` of 256
/// coefficients, `intt(ntt(s))` is `s` with each coefficient reduced modulo 3329.
pub proof fn lemma_intt_ntt_roundtrip(s: Seq<int>)
    requires
        s.len() == 256,
    ensures
        intt_spec(ntt_spec(s)) =~= norm(s),
{
    let t = norm(s);
    lemma_norm_reduced(s);
    lemma_ntt_spec_reduced(s);
    lemma_norm_of_reduced(ntt_spec(s));
    lemma_roundtrip_layers(t, 128);
    lemma_scale_scale(t, 128, 3303);
    assert forall|i: int| 0 <= i < 256 implies #[trigger] scale(t, 128int * 3303)[i] == t[i] by {
        assert(128 * 3303 * t[i] == t[i] + 3329 * (127 * t[i]));
        lemma_mod_add_multiple(t[i], 127 * t[i], 3329);
        lemma_small_mod(t[i] as nat, 3329);
    }
}

} // verus!
