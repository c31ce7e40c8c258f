//! Multiplication in `Z_q[X]/(X^256 + 1)` and the transform: the product of two
//! polynomials is, after the transform, the pairwise product of degree-1 remainders
//! that `poly_mult` computes.
use vstd::prelude::*;
use vstd::arithmetic::div_mod::*;
use crate::ntt::{ZETA_TABLE, ZETA_INV_TABLE, basemul_spec, basemul_coef, gamma};
use crate::ntt_spec::{
    norm, is_layer_len, layer_k, ntt_layer, ntt_from, ntt_spec, intt_spec, is_reduced_poly,
    lemma_pair_index, lemma_norm_reduced, lemma_norm_of_reduced, lemma_intt_ntt_roundtrip,
};
use crate::correctness::{pcomb, lemma_ntt_linear, lemma_bm_comb_left, lemma_mod_in, lemma_mod_add_multiple_int};

verus! {

/// The twiddle factors of the two halves of the chunk with factor `ZETA_TABLE[k]`
/// square to `ZETA_TABLE[k]` and to its opposite: `X^(2n) - z^2` splits into
/// `X^n - z` and `X^n + z`.
pub proof fn lemma_zeta_square(k: int)
    requires
        1 <= k < 64,
    ensures
        (ZETA_TABLE[2 * k] as int * ZETA_TABLE[2 * k] as int) % 3329 == ZETA_TABLE[k] as int,
        (ZETA_TABLE[2 * k + 1] as int * ZETA_TABLE[2 * k + 1] as int) % 3329 == 3329 - ZETA_TABLE[k] as int,
{
    if k == 1 {
        assert(ZETA_TABLE[2] == 2580 && ZETA_TABLE[3] == 3289 && ZETA_TABLE[1] == 1729);
        assert(2580int * 2580int == 6656400int && 3289int * 3289int == 10817521int);
        assert(6656400int % 3329 == 1729 && 10817521int % 3329 == 1600);
    } else if k == 2 {
        assert(ZETA_TABLE[4] == 2642 && ZETA_TABLE[5] == 630 && ZETA_TABLE[2] == 2580);
        assert(2642int * 2642int == 6980164int && 630int * 630int == 396900int);
        assert(6980164int % 3329 == 2580 && 396900int % 3329 == 749);
    } else if k == 3 {
        assert(ZETA_TABLE[6] == 1897 && ZETA_TABLE[7] == 848 && ZETA_TABLE[3] == 3289);
        assert(1897int * 1897int == 3598609int && 848int * 848int == 719104int);
        assert(3598609int % 3329 == 3289 && 719104int % 3329 == 40);
    } else if k == 4 {
        assert(ZETA_TABLE[8] == 1062 && ZETA_TABLE[9] == 1919 && ZETA_TABLE[4] == 2642);
        assert(1062int * 1062int == 1127844int && 1919int * 1919int == 3682561int);
        assert(1127844int % 3329 == 2642 && 3682561int % 3329 == 687);
    } else if k == 5 {
        assert(ZETA_TABLE[10] == 193 && ZETA_TABLE[11] == 797 && ZETA_TABLE[5] == 630);
        assert(193int * 193int == 37249int && 797int * 797int == 635209int);
        assert(37249int % 3329 == 630 && 635209int % 3329 == 2699);
    } else if k == 6 {
        assert(ZETA_TABLE[12] == 2786 && ZETA_TABLE[13] == 3260 && ZETA_TABLE[6] == 1897);
        assert(2786int * 2786int == 7761796int && 3260int * 3260int == 10627600int);
        assert(7761796int % 3329 == 1897 && 10627600int % 3329 == 1432);
    } else if k == 7 {
        assert(ZETA_TABLE[14] == 569 && ZETA_TABLE[15] == 1746 && ZETA_TABLE[7] == 848);
        assert(569int * 569int == 323761int && 1746int * 1746int == 3048516int);
        assert(323761int % 3329 == 848 && 3048516int % 3329 == 2481);
    } else if k == 8 {
        assert(ZETA_TABLE[16] == 296 && ZETA_TABLE[17] == 2447 && ZETA_TABLE[8] == 1062);
        assert(296int * 296int == 87616int && 2447int * 2447int == 5987809int);
        assert(87616int % 3329 == 1062 && 5987809int % 3329 == 2267);
    } else if k == 9 {
        assert(ZETA_TABLE[18] == 1339 && ZETA_TABLE[19] == 1476 && ZETA_TABLE[9] == 1919);
        assert(1339int * 1339int == 1792921int && 1476int * 1476int == 2178576int);
        assert(1792921int % 3329 == 1919 && 2178576int % 3329 == 1410);
    } else if k == 10 {
        assert(ZETA_TABLE[20] == 3046 && ZETA_TABLE[21] == 56 && ZETA_TABLE[10] == 193);
        assert(3046int * 3046int == 9278116int && 56int * 56int == 3136int);
        assert(9278116int % 3329 == 193 && 3136int % 3329 == 3136);
    } else if k == 11 {
        assert(ZETA_TABLE[22] == 2240 && ZETA_TABLE[23] == 1333 && ZETA_TABLE[11] == 797);
        assert(2240int * 2240int == 5017600int && 1333int * 1333int == 1776889int);
        assert(5017600int % 3329 == 797 && 1776889int % 3329 == 2532);
    } else if k == 12 {
        assert(ZETA_TABLE[24] == 1426 && ZETA_TABLE[25] == 2094 && ZETA_TABLE[12] == 2786);
        assert(1426int * 1426int == 2033476int && 2094int * 2094int == 4384836int);
        assert(2033476int % 3329 == 2786 && 4384836int % 3329 == 543);
    } else if k == 13 {
        assert(ZETA_TABLE[26] == 535 && ZETA_TABLE[27] == 2882 && ZETA_TABLE[13] == 3260);
        assert(535int * 535int == 286225int && 2882int * 2882int == 8305924int);
        assert(286225int % 3329 == 3260 && 8305924int % 3329 == 69);
    } else if k == 14 {
        assert(ZETA_TABLE[28] == 2393 && ZETA_TABLE[29] == 2879 && ZETA_TABLE[14] == 569);
        assert(2393int * 2393int == 5726449int && 2879int * 2879int == 8288641int);
        assert(5726449int % 3329 == 569 && 8288641int % 3329 == 2760);
    } else if k == 15 {
        assert(ZETA_TABLE[30] == 1974 && ZETA_TABLE[31] == 821 && ZETA_TABLE[15] == 1746);
        assert(1974int * 1974int == 3896676int && 821int * 821int == 674041int);
        assert(3896676int % 3329 == 1746 && 674041int % 3329 == 1583);
    } else if k == 16 {
        assert(ZETA_TABLE[32] == 289 && ZETA_TABLE[33] == 331 && ZETA_TABLE[16] == 296);
        assert(289int * 289int == 83521int && 331int * 331int == 109561int);
        assert(83521int % 3329 == 296 && 109561int % 3329 == 3033);
    } else if k == 17 {
        assert(ZETA_TABLE[34] == 3253 && ZETA_TABLE[35] == 1756 && ZETA_TABLE[17] == 2447);
        assert(3253int * 3253int == 10582009int && 1756int * 1756int == 3083536int);
        assert(10582009int % 3329 == 2447 && 3083536int % 3329 == 882);
    } else if k == 18 {
        assert(ZETA_TABLE[36] == 1197 && ZETA_TABLE[37] == 2304 && ZETA_TABLE[18] == 1339);
        assert(1197int * 1197int == 1432809int && 2304int * 2304int == 5308416int);
        assert(1432809int % 3329 == 1339 && 5308416int % 3329 == 1990);
    } else if k == 19 {
        assert(ZETA_TABLE[38] == 2277 && ZETA_TABLE[39] == 2055 && ZETA_TABLE[19] == 1476);
        assert(2277int * 2277int == 5184729int && 2055int * 2055int == 4223025int);
        assert(5184729int % 3329 == 1476 && 4223025int % 3329 == 1853);
    } else if k == 20 {
        assert(ZETA_TABLE[40] == 650 && ZETA_TABLE[41] == 1977 && ZETA_TABLE[20] == 3046);
        assert(650int * 650int == 422500int && 1977int * 1977int == 3908529int);
        assert(422500int % 3329 == 3046 && 3908529int % 3329 == 283);
    } else if k == 21 {
        assert(ZETA_TABLE[42] == 2513 && ZETA_TABLE[43] == 632 && ZETA_TABLE[21] == 56);
        assert(2513int * 2513int == 6315169int && 632int * 632int == 399424int);
        assert(6315169int % 3329 == 56 && 399424int % 3329 == 3273);
    } else if k == 22 {
        assert(ZETA_TABLE[44] == 2865 && ZETA_TABLE[45] == 33 && ZETA_TABLE[22] == 2240);
        assert(2865int * 2865int == 8208225int && 33int * 33int == 1089int);
        assert(8208225int % 3329 == 2240 && 1089int % 3329 == 1089);
    } else if k == 23 {
        assert(ZETA_TABLE[46] == 1320 && ZETA_TABLE[47] == 1915 && ZETA_TABLE[23] == 1333);
        assert(1320int * 1320int == 1742400int && 1915int * 1915int == 3667225int);
        assert(1742400int % 3329 == 1333 && 3667225int % 3329 == 1996);
    } else if k == 24 {
        assert(ZETA_TABLE[48] == 2319 && ZETA_TABLE[49] == 1435 && ZETA_TABLE[24] == 1426);
        assert(2319int * 2319int == 5377761int && 1435int * 1435int == 2059225int);
        assert(5377761int % 3329 == 1426 && 2059225int % 3329 == 1903);
    } else if k == 25 {
        assert(ZETA_TABLE[50] == 807 && ZETA_TABLE[51] == 452 && ZETA_TABLE[25] == 2094);
        assert(807int * 807int == 651249int && 452int * 452int == 204304int);
        assert(651249int % 3329 == 2094 && 204304int % 3329 == 1235);
    } else if k == 26 {
        assert(ZETA_TABLE[52] == 1438 && ZETA_TABLE[53] == 2868 && ZETA_TABLE[26] == 535);
        assert(1438int * 1438int == 2067844int && 2868int * 2868int == 8225424int);
        assert(2067844int % 3329 == 535 && 8225424int % 3329 == 2794);
    } else if k == 27 {
        assert(ZETA_TABLE[54] == 1534 && ZETA_TABLE[55] == 2402 && ZETA_TABLE[27] == 2882);
        assert(1534int * 1534int == 2353156int && 2402int * 2402int == 5769604int);
        assert(2353156int % 3329 == 2882 && 5769604int % 3329 == 447);
    } else if k == 28 {
        assert(ZETA_TABLE[56] == 2647 && ZETA_TABLE[57] == 2617 && ZETA_TABLE[28] == 2393);
        assert(2647int * 2647int == 7006609int && 2617int * 2617int == 6848689int);
        assert(7006609int % 3329 == 2393 && 6848689int % 3329 == 936);
    } else if k == 29 {
        assert(ZETA_TABLE[58] == 1481 && ZETA_TABLE[59] == 648 && ZETA_TABLE[29] == 2879);
        assert(1481int * 1481int == 2193361int && 648int * 648int == 419904int);
        assert(2193361int % 3329 == 2879 && 419904int % 3329 == 450);
    } else if k == 30 {
        assert(ZETA_TABLE[60] == 2474 && ZETA_TABLE[61] == 3110 && ZETA_TABLE[30] == 1974);
        assert(2474int * 2474int == 6120676int && 3110int * 3110int == 9672100int);
        assert(6120676int % 3329 == 1974 && 9672100int % 3329 == 1355);
    } else if k == 31 {
        assert(ZETA_TABLE[62] == 1227 && ZETA_TABLE[63] == 910 && ZETA_TABLE[31] == 821);
        assert(1227int * 1227int == 1505529int && 910int * 910int == 828100int);
        assert(1505529int % 3329 == 821 && 828100int % 3329 == 2508);
    } else if k == 32 {
        assert(ZETA_TABLE[64] == 17 && ZETA_TABLE[65] == 2761 && ZETA_TABLE[32] == 289);
        assert(17int * 17int == 289int && 2761int * 2761int == 7623121int);
        assert(289int % 3329 == 289 && 7623121int % 3329 == 3040);
    } else if k == 33 {
        assert(ZETA_TABLE[66] == 583 && ZETA_TABLE[67] == 2649 && ZETA_TABLE[33] == 331);
        assert(583int * 583int == 339889int && 2649int * 2649int == 7017201int);
        assert(339889int % 3329 == 331 && 7017201int % 3329 == 2998);
    } else if k == 34 {
        assert(ZETA_TABLE[68] == 1637 && ZETA_TABLE[69] == 723 && ZETA_TABLE[34] == 3253);
        assert(1637int * 1637int == 2679769int && 723int * 723int == 522729int);
        assert(2679769int % 3329 == 3253 && 522729int % 3329 == 76);
    } else if k == 35 {
        assert(ZETA_TABLE[70] == 2288 && ZETA_TABLE[71] == 1100 && ZETA_TABLE[35] == 1756);
        assert(2288int * 2288int == 5234944int && 1100int * 1100int == 1210000int);
        assert(5234944int % 3329 == 1756 && 1210000int % 3329 == 1573);
    } else if k == 36 {
        assert(ZETA_TABLE[72] == 1409 && ZETA_TABLE[73] == 2662 && ZETA_TABLE[36] == 1197);
        assert(1409int * 1409int == 1985281int && 2662int * 2662int == 7086244int);
        assert(1985281int % 3329 == 1197 && 7086244int % 3329 == 2132);
    } else if k == 37 {
        assert(ZETA_TABLE[74] == 3281 && ZETA_TABLE[75] == 233 && ZETA_TABLE[37] == 2304);
        assert(3281int * 3281int == 10764961int && 233int * 233int == 54289int);
        assert(10764961int % 3329 == 2304 && 54289int % 3329 == 1025);
    } else if k == 38 {
        assert(ZETA_TABLE[76] == 756 && ZETA_TABLE[77] == 2156 && ZETA_TABLE[38] == 2277);
        assert(756int * 756int == 571536int && 2156int * 2156int == 4648336int);
        assert(571536int % 3329 == 2277 && 4648336int % 3329 == 1052);
    } else if k == 39 {
        assert(ZETA_TABLE[78] == 3015 && ZETA_TABLE[79] == 3050 && ZETA_TABLE[39] == 2055);
        assert(3015int * 3015int == 9090225int && 3050int * 3050int == 9302500int);
        assert(9090225int % 3329 == 2055 && 9302500int % 3329 == 1274);
    } else if k == 40 {
        assert(ZETA_TABLE[80] == 1703 && ZETA_TABLE[81] == 1651 && ZETA_TABLE[40] == 650);
        assert(1703int * 1703int == 2900209int && 1651int * 1651int == 2725801int);
        assert(2900209int % 3329 == 650 && 2725801int % 3329 == 2679);
    } else if k == 41 {
        assert(ZETA_TABLE[82] == 2789 && ZETA_TABLE[83] == 1789 && ZETA_TABLE[41] == 1977);
        assert(2789int * 2789int == 7778521int && 1789int * 1789int == 3200521int);
        assert(7778521int % 3329 == 1977 && 3200521int % 3329 == 1352);
    } else if k == 42 {
        assert(ZETA_TABLE[84] == 1847 && ZETA_TABLE[85] == 952 && ZETA_TABLE[42] == 2513);
        assert(1847int * 1847int == 3411409int && 952int * 952int == 906304int);
        assert(3411409int % 3329 == 2513 && 906304int % 3329 == 816);
    } else if k == 43 {
        assert(ZETA_TABLE[86] == 1461 && ZETA_TABLE[87] == 2687 && ZETA_TABLE[43] == 632);
        assert(1461int * 1461int == 2134521int && 2687int * 2687int == 7219969int);
        assert(2134521int % 3329 == 632 && 7219969int % 3329 == 2697);
    } else if k == 44 {
        assert(ZETA_TABLE[88] == 939 && ZETA_TABLE[89] == 2308 && ZETA_TABLE[44] == 2865);
        assert(939int * 939int == 881721int && 2308int * 2308int == 5326864int);
        assert(881721int % 3329 == 2865 && 5326864int % 3329 == 464);
    } else if k == 45 {
        assert(ZETA_TABLE[90] == 2437 && ZETA_TABLE[91] == 2388 && ZETA_TABLE[45] == 33);
        assert(2437int * 2437int == 5938969int && 2388int * 2388int == 5702544int);
        assert(5938969int % 3329 == 33 && 5702544int % 3329 == 3296);
    } else if k == 46 {
        assert(ZETA_TABLE[92] == 733 && ZETA_TABLE[93] == 2337 && ZETA_TABLE[46] == 1320);
        assert(733int * 733int == 537289int && 2337int * 2337int == 5461569int);
        assert(537289int % 3329 == 1320 && 5461569int % 3329 == 2009);
    } else if k == 47 {
        assert(ZETA_TABLE[94] == 268 && ZETA_TABLE[95] == 641 && ZETA_TABLE[47] == 1915);
        assert(268int * 268int == 71824int && 641int * 641int == 410881int);
        assert(71824int % 3329 == 1915 && 410881int % 3329 == 1414);
    } else if k == 48 {
        assert(ZETA_TABLE[96] == 1584 && ZETA_TABLE[97] == 2298 && ZETA_TABLE[48] == 2319);
        assert(1584int * 1584int == 2509056int && 2298int * 2298int == 5280804int);
        assert(2509056int % 3329 == 2319 && 5280804int % 3329 == 1010);
    } else if k == 49 {
        assert(ZETA_TABLE[98] == 2037 && ZETA_TABLE[99] == 3220 && ZETA_TABLE[49] == 1435);
        assert(2037int * 2037int == 4149369int && 3220int * 3220int == 10368400int);
        assert(4149369int % 3329 == 1435 && 10368400int % 3329 == 1894);
    } else if k == 50 {
        assert(ZETA_TABLE[100] == 375 && ZETA_TABLE[101] == 2549 && ZETA_TABLE[50] == 807);
        assert(375int * 375int == 140625int && 2549int * 2549int == 6497401int);
        assert(140625int % 3329 == 807 && 6497401int % 3329 == 2522);
    } else if k == 51 {
        assert(ZETA_TABLE[102] == 2090 && ZETA_TABLE[103] == 1645 && ZETA_TABLE[51] == 452);
        assert(2090int * 2090int == 4368100int && 1645int * 1645int == 2706025int);
        assert(4368100int % 3329 == 452 && 2706025int % 3329 == 2877);
    } else if k == 52 {
        assert(ZETA_TABLE[104] == 1063 && ZETA_TABLE[105] == 319 && ZETA_TABLE[52] == 1438);
        assert(1063int * 1063int == 1129969int && 319int * 319int == 101761int);
        assert(1129969int % 3329 == 1438 && 101761int % 3329 == 1891);
    } else if k == 53 {
        assert(ZETA_TABLE[106] == 2773 && ZETA_TABLE[107] == 757 && ZETA_TABLE[53] == 2868);
        assert(2773int * 2773int == 7689529int && 757int * 757int == 573049int);
        assert(7689529int % 3329 == 2868 && 573049int % 3329 == 461);
    } else if k == 54 {
        assert(ZETA_TABLE[108] == 2099 && ZETA_TABLE[109] == 561 && ZETA_TABLE[54] == 1534);
        assert(2099int * 2099int == 4405801int && 561int * 561int == 314721int);
        assert(4405801int % 3329 == 1534 && 314721int % 3329 == 1795);
    } else if k == 55 {
        assert(ZETA_TABLE[110] == 2466 && ZETA_TABLE[111] == 2594 && ZETA_TABLE[55] == 2402);
        assert(2466int * 2466int == 6081156int && 2594int * 2594int == 6728836int);
        assert(6081156int % 3329 == 2402 && 6728836int % 3329 == 927);
    } else if k == 56 {
        assert(ZETA_TABLE[112] == 2804 && ZETA_TABLE[113] == 1092 && ZETA_TABLE[56] == 2647);
        assert(2804int * 2804int == 7862416int && 1092int * 1092int == 1192464int);
        assert(7862416int % 3329 == 2647 && 1192464int % 3329 == 682);
    } else if k == 57 {
        assert(ZETA_TABLE[114] == 403 && ZETA_TABLE[115] == 1026 && ZETA_TABLE[57] == 2617);
        assert(403int * 403int == 162409int && 1026int * 1026int == 1052676int);
        assert(162409int % 3329 == 2617 && 1052676int % 3329 == 712);
    } else if k == 58 {
        assert(ZETA_TABLE[116] == 1143 && ZETA_TABLE[117] == 2150 && ZETA_TABLE[58] == 1481);
        assert(1143int * 1143int == 1306449int && 2150int * 2150int == 4622500int);
        assert(1306449int % 3329 == 1481 && 4622500int % 3329 == 1848);
    } else if k == 59 {
        assert(ZETA_TABLE[118] == 2775 && ZETA_TABLE[119] == 886 && ZETA_TABLE[59] == 648);
        assert(2775int * 2775int == 7700625int && 886int * 886int == 784996int);
        assert(7700625int % 3329 == 648 && 784996int % 3329 == 2681);
    } else if k == 60 {
        assert(ZETA_TABLE[120] == 1722 && ZETA_TABLE[121] == 1212 && ZETA_TABLE[60] == 2474);
        assert(1722int * 1722int == 2965284int && 1212int * 1212int == 1468944int);
        assert(2965284int % 3329 == 2474 && 1468944int % 3329 == 855);
    } else if k == 61 {
        assert(ZETA_TABLE[122] == 1874 && ZETA_TABLE[123] == 1029 && ZETA_TABLE[61] == 3110);
        assert(1874int * 1874int == 3511876int && 1029int * 1029int == 1058841int);
        assert(3511876int % 3329 == 3110 && 1058841int % 3329 == 219);
    } else if k == 62 {
        assert(ZETA_TABLE[124] == 2110 && ZETA_TABLE[125] == 2935 && ZETA_TABLE[62] == 1227);
        assert(2110int * 2110int == 4452100int && 2935int * 2935int == 8614225int);
        assert(4452100int % 3329 == 1227 && 8614225int % 3329 == 2102);
    } else if k == 63 {
        assert(ZETA_TABLE[126] == 885 && ZETA_TABLE[127] == 2154 && ZETA_TABLE[63] == 910);
        assert(885int * 885int == 783225int && 2154int * 2154int == 4639716int);
        assert(783225int % 3329 == 910 && 4639716int % 3329 == 2419);
    }
}

/// `i + d` lies in the chunk of width `2 * len` of `i` when the offset stays inside it.
pub proof fn lemma_same_chunk(len: int, i: int, d: int)
    requires
        is_layer_len(len),
        0 <= i < 256,
        0 <= i % (2 * len) + d < 2 * len,
    ensures
        0 <= i + d < 256,
        (i + d) % (2 * len) == i % (2 * len) + d,
        layer_k(len, i + d) == layer_k(len, i),
{
    let w = 2 * len;
    let c = i / w;
    let o = i % w;
    lemma_fundamental_div_mod(i, w);
    lemma_mod_bound(i, w);
    lemma_fundamental_div_mod_converse(i + d, w, c, o + d);
    if len == 2 {
        assert(w * c == 4 * c);
    } else if len == 4 {
        assert(w * c == 8 * c);
    } else if len == 8 {
        assert(w * c == 16 * c);
    } else if len == 16 {
        assert(w * c == 32 * c);
    } else if len == 32 {
        assert(w * c == 64 * c);
    } else if len == 64 {
        assert(w * c == 128 * c);
    } else {
        assert(w * c == 256 * c);
    }
}

/// Where `i` falls in the chunks of width `len`, the halves of the chunks of width
/// `2 * len`, and the twiddle factor of that half.
pub proof fn lemma_half_chunk(len: int, i: int)
    requires
        is_layer_len(len),
        0 <= i < 256,
    ensures
        i % len == (if i % (2 * len) < len { i % (2 * len) } else { i % (2 * len) - len }),
        len > 2 ==> layer_k(len / 2, i) == 2 * layer_k(len, i) + (if i % (2 * len) < len { 0int } else { 1 }),
        len == 2 ==> i / 2 / 2 == layer_k(2, i) - 64 && ((i / 2) % 2 == 0 <==> i % 4 < 2),
{
    let w = 2 * len;
    let c = i / w;
    let o = i % w;
    lemma_fundamental_div_mod(i, w);
    lemma_mod_bound(i, w);
    assert(w * c == len * (2 * c)) by (nonlinear_arith)
        requires w == 2 * len;
    if o < len {
        lemma_fundamental_div_mod_converse(i, len, 2 * c, o);
    } else {
        assert(len * (2 * c) + len == len * (2 * c + 1)) by (nonlinear_arith);
        lemma_fundamental_div_mod_converse(i, len, 2 * c + 1, o - len);
    }
    if len == 2 {
        assert(i / 2 / 2 == i / 4);
    } else {
        assert(128int / (len / 2) == 2 * (128int / len)) by {
            if len == 4 {
                assert(len / 2 == 2);
                assert(128int / 2 == 64 && 128int / 4 == 32);
            } else if len == 8 {
                assert(len / 2 == 4);
                assert(128int / 4 == 32 && 128int / 8 == 16);
            } else if len == 16 {
                assert(len / 2 == 8);
                assert(128int / 8 == 16 && 128int / 16 == 8);
            } else if len == 32 {
                assert(len / 2 == 16);
                assert(128int / 16 == 8 && 128int / 32 == 4);
            } else if len == 64 {
                assert(len / 2 == 32);
                assert(128int / 32 == 4 && 128int / 64 == 2);
            } else if len == 128 {
                assert(len / 2 == 64);
                assert(128int / 64 == 2 && 128int / 128 == 1);
            }
        }
    }
}

/// Multiplication by `X` in every chunk of width `2 * len`: the chunk that the layer of
/// half-width `len` splits with the twiddle factor `z` stands for
/// `Z_q[X]/(X^(2 len) - z^2)`, so its top coefficient comes back multiplied by `z^2`.
pub open spec fn mul_x_chunks(s: Seq<int>, len: int) -> Seq<int> {
    Seq::new(
        256,
        |i: int|
            {
                let z = ZETA_TABLE[layer_k(len, i)] as int;
                if i % (2 * len) == 0 {
                    (z * z * s[i + 2 * len - 1]) % 3329
                } else {
                    s[i - 1] % 3329
                }
            },
    )
}

/// Multiplication by `X` in every pair: pair `j` of a transformed polynomial stands for
/// `Z_q[X]/(X^2 - gamma_j)`.
pub open spec fn mul_x_pairs(s: Seq<int>) -> Seq<int> {
    Seq::new(256, |i: int| if i % 2 == 0 { (gamma(i / 2) * s[i + 1]) % 3329 } else { s[i - 1] % 3329 })
}

/// Multiplication by `X` after the layer of half-width `len`: in the chunks of width
/// `len`, or in the pairs after the last layer.
pub open spec fn mul_x_next(s: Seq<int>, len: int) -> Seq<int> {
    if len == 2 {
        mul_x_pairs(s)
    } else {
        mul_x_chunks(s, len / 2)
    }
}

/// `z (a + z b) = z^2 b + z a`, modulo 3329, with `zz = z` modulo 3329.
proof fn lemma_split_low_first(z: int, zz: int, a: int, b: int)
    requires
        zz % 3329 == z % 3329,
    ensures
        ((z * z * b) % 3329 + z * (a % 3329)) % 3329 == (zz * ((a + z * b) % 3329)) % 3329,
{
    let x = a + z * b;
    lemma_mul_mod_noop_right(zz, x, 3329);
    lemma_mul_mod_noop_left(zz, x, 3329);
    lemma_mul_mod_noop_left(z, x, 3329);
    lemma_mod_in(z * z * b, 1, z * (a % 3329));
    lemma_mod_in(a, z, z * z * b);
    assert(z * x == z * a + z * z * b) by (nonlinear_arith)
        requires x == a + z * b;
}

/// `-z (a - z b) = z^2 b - z a`, modulo 3329, with `zz = -z` modulo 3329.
proof fn lemma_split_high_first(z: int, zz: int, a: int, b: int)
    requires
        zz % 3329 == (-z) % 3329,
    ensures
        ((z * z * b) % 3329 - z * (a % 3329)) % 3329 == (zz * ((a - z * b) % 3329)) % 3329,
{
    let x = a - z * b;
    lemma_mul_mod_noop_right(zz, x, 3329);
    lemma_mul_mod_noop_left(zz, x, 3329);
    lemma_mul_mod_noop_left(-z, x, 3329);
    lemma_mod_in(z * z * b, 1, -z * (a % 3329));
    lemma_mod_in(a, -z, z * z * b);
    assert(-z * (a % 3329) == -(z * (a % 3329))) by (nonlinear_arith);
    assert((-z) * x == -z * a + z * z * b) by (nonlinear_arith)
        requires x == a - z * b;
}

/// `(a % q + c (b % q)) % q` is `((a + c b) % q) % q`.
proof fn lemma_split_rest(a: int, b: int, c: int)
    ensures
        ((a % 3329) + c * (b % 3329)) % 3329 == ((a + c * b) % 3329) % 3329,
{
    lemma_mod_in(a, 1, c * (b % 3329));
    lemma_mod_in(b, c, a);
    lemma_mod_twice(a + c * b, 3329);
}

/// A twiddle factor is not zero, so its opposite modulo 3329 is `3329 - z`.
proof fn lemma_zeta_opposite(k: int)
    requires
        1 <= k < 128,
    ensures
        0 < ZETA_TABLE[k] < 3329,
        (-(ZETA_TABLE[k] as int)) % 3329 == 3329 - ZETA_TABLE[k] as int,
{
    crate::ntt_spec::lemma_zeta_inverse(k);
    let z = ZETA_TABLE[k] as int;
    if z == 0 {
        assert(z * (ZETA_INV_TABLE[k] as int) == 0);
    }
    lemma_fundamental_div_mod_converse(-z, 3329, -1, 3329 - z);
}

/// Coefficient `i` of a layer applied to a polynomial multiplied by `X` in the chunks.
proof fn lemma_layer_mul_x_at(s: Seq<int>, len: int, i: int)
    requires
        is_layer_len(len),
        s.len() == 256,
        0 <= i < 256,
    ensures
        ntt_layer(mul_x_chunks(s, len), len)[i] == mul_x_next(ntt_layer(s, len), len)[i],
{
    let m = mul_x_chunks(s, len);
    let t = ntt_layer(s, len);
    let w = 2 * len;
    let o = i % w;
    let k = layer_k(len, i);
    let z = ZETA_TABLE[k] as int;
    lemma_pair_index(len, i);
    lemma_half_chunk(len, i);
    lemma_mod_bound(i, w);
    lemma_zeta_opposite(k);
    assert(2 * (len / 2) == len);
    if len > 2 {
        assert(is_layer_len(len / 2));
        lemma_pair_index(len / 2, i);
        assert(k < 64);
    }
    if o == 0 {
        lemma_same_chunk(len, i, w - 1);
        lemma_same_chunk(len, i, len - 1);
        lemma_same_chunk(len, i, len);
        let a = s[i + len - 1];
        let b = s[i + w - 1];
        assert(m[i] == (z * z * b) % 3329);
        assert(m[i + len] == a % 3329);
        assert(ntt_layer(m, len)[i] == (m[i] + z * m[i + len]) % 3329);
        assert(t[i + len - 1] == (a + z * b) % 3329);
        if len == 2 {
            assert(gamma(i / 2) == z);
            lemma_split_low_first(z, z, a, b);
        } else {
            let z2 = ZETA_TABLE[layer_k(len / 2, i)] as int;
            lemma_zeta_square(k);
            lemma_split_low_first(z, z2 * z2, a, b);
        }
    } else if o < len {
        lemma_same_chunk(len, i, -1);
        lemma_same_chunk(len, i, len - 1);
        let a = s[i - 1];
        let b = s[i + len - 1];
        assert(m[i] == a % 3329);
        assert(m[i + len] == b % 3329);
        assert(t[i - 1] == (a + z * b) % 3329);
        lemma_split_rest(a, b, z);
    } else if o == len {
        lemma_same_chunk(len, i, -1);
        lemma_same_chunk(len, i, len - 1);
        lemma_same_chunk(len, i, -len);
        let a = s[i - 1];
        let b = s[i + len - 1];
        assert(m[i - len] == (z * z * b) % 3329);
        assert(m[i] == a % 3329);
        assert(ntt_layer(m, len)[i] == (m[i - len] - z * m[i]) % 3329);
        assert(t[i + len - 1] == (a - z * b) % 3329);
        if len == 2 {
            assert(gamma(i / 2) == 3329 - z);
            lemma_small_mod((3329 - z) as nat, 3329);
            lemma_split_high_first(z, 3329 - z, a, b);
        } else {
            let z2 = ZETA_TABLE[layer_k(len / 2, i)] as int;
            lemma_zeta_square(k);
            lemma_split_high_first(z, z2 * z2, a, b);
        }
    } else {
        lemma_same_chunk(len, i, -1);
        lemma_same_chunk(len, i, -len - 1);
        lemma_same_chunk(len, i, -len);
        let a = s[i - len - 1];
        let b = s[i - 1];
        assert(m[i - len] == a % 3329);
        assert(m[i] == b % 3329);
        assert(t[i - 1] == (a - z * b) % 3329);
        lemma_split_rest(a, b, -z);
        assert(-z * (b % 3329) == -(z * (b % 3329))) by (nonlinear_arith);
        assert(-z * b == -(z * b)) by (nonlinear_arith);
    }
}

/// A layer turns multiplication by `X` in its chunks into multiplication by `X` in
/// the halves: `X^(2n) - z^2 = (X^n - z)(X^n + z)`.
pub proof fn lemma_layer_mul_x(s: Seq<int>, len: int)
    requires
        is_layer_len(len),
        s.len() == 256,
    ensures
        ntt_layer(mul_x_chunks(s, len), len) =~= mul_x_next(ntt_layer(s, len), len),
{
    assert forall|i: int| 0 <= i < 256 implies #[trigger] ntt_layer(mul_x_chunks(s, len), len)[i]
        == mul_x_next(ntt_layer(s, len), len)[i] by {
        lemma_layer_mul_x_at(s, len, i);
    }
}

/// The layers from half-width `len` down turn multiplication by `X` in the chunks of
/// width `2 * len` into multiplication by `X` in every pair.
pub proof fn lemma_ntt_from_mul_x(s: Seq<int>, len: nat)
    requires
        is_layer_len(len as int),
        s.len() == 256,
    ensures
        ntt_from(mul_x_chunks(s, len as int), len) =~= mul_x_pairs(ntt_from(s, len)),
    decreases len,
{
    lemma_layer_mul_x(s, len as int);
    let t = ntt_layer(s, len as int);
    let m = mul_x_chunks(s, len as int);
    assert(ntt_from(s, len) == ntt_from(t, len / 2));
    assert(ntt_from(m, len) == ntt_from(ntt_layer(m, len as int), len / 2));
    if len == 2 {
        assert(ntt_from(t, 1) == t);
        assert(ntt_from(ntt_layer(m, 2), 1) == ntt_layer(m, 2));
    } else {
        assert(is_layer_len((len / 2) as int));
        lemma_ntt_from_mul_x(t, len / 2);
    }
}

/// `X * p` in `Z[X]/(X^256 + 1)`: the coefficients move up by one and the top one comes
/// back negated.
pub open spec fn mul_x(p: Seq<int>) -> Seq<int> {
    Seq::new(256, |k: int| if k == 0 { -p[255] } else { p[k - 1] })
}

/// The transform turns multiplication by `X` into multiplication by `X` in every pair.
pub proof fn lemma_ntt_mul_x(p: Seq<int>)
    requires
        p.len() == 256,
    ensures
        ntt_spec(mul_x(p)) == mul_x_pairs(ntt_spec(p)),
{
    let n = norm(p);
    lemma_norm_reduced(p);
    assert(norm(mul_x(p)) =~= mul_x_chunks(n, 128)) by {
        assert forall|i: int| 0 <= i < 256 implies #[trigger] norm(mul_x(p))[i] == mul_x_chunks(n, 128)[i] by {
            assert(layer_k(128, i) == 1);
            assert(ZETA_TABLE[1] == 1729);
            if i == 0 {
                let y = p[255] % 3329;
                assert(1729 * 1729 * y == -y + 3329 * (898 * y)) by (nonlinear_arith);
                lemma_mod_add_multiple_int(-y, 898 * y);
                lemma_mod_in(p[255], -1, 0);
                assert(-1 * y + 0 == -y);
            } else {
                lemma_mod_twice(p[i - 1], 3329);
            }
        }
    }
    lemma_ntt_from_mul_x(n, 128);
}

/// `X^i * p`.
pub open spec fn mul_x_pow(p: Seq<int>, i: nat) -> Seq<int>
    decreases i,
{
    if i == 0 {
        p
    } else {
        mul_x(mul_x_pow(p, (i - 1) as nat))
    }
}

/// Multiplication by `X` in every pair, `i` times.
pub open spec fn mul_x_pairs_pow(s: Seq<int>, i: nat) -> Seq<int>
    decreases i,
{
    if i == 0 {
        s
    } else {
        mul_x_pairs(mul_x_pairs_pow(s, (i - 1) as nat))
    }
}

/// The transform of `X^i p` is `ntt(p)` multiplied `i` times by `X` in every pair.
pub proof fn lemma_ntt_mul_x_pow(p: Seq<int>, i: nat)
    requires
        p.len() == 256,
    ensures
        ntt_spec(mul_x_pow(p, i)) == mul_x_pairs_pow(ntt_spec(p), i),
        mul_x_pow(p, i).len() == 256,
    decreases i,
{
    if i > 0 {
        lemma_ntt_mul_x_pow(p, (i - 1) as nat);
        lemma_ntt_mul_x(mul_x_pow(p, (i - 1) as nat));
    }
}

/// Multiplying by `X` in every pair commutes with the pairwise product.
pub proof fn lemma_mul_x_pairs_basemul(u: Seq<int>, b: Seq<int>)
    ensures
        basemul_spec(mul_x_pairs(u), b) =~= mul_x_pairs(basemul_spec(u, b)),
{
    reveal(basemul_coef);
    let mu = mul_x_pairs(u);
    assert forall|i: int| 0 <= i < 256 implies #[trigger] basemul_spec(mu, b)[i] == mul_x_pairs(
        basemul_spec(u, b),
    )[i] by {
        if i % 2 == 0 {
            let g = gamma(i / 2);
            assert((i + 1) % 2 == 1 && (i + 1) / 2 == i / 2);
            let u0 = u[i];
            let u1 = u[i + 1];
            let b0 = b[i];
            let b1 = b[i + 1];
            // (g u1 % q) b0 + g ((u0 % q) b1)  ==  g (u0 b1 + u1 b0)
            lemma_mod_in(g * u1, b0, g * ((u0 % 3329) * b1));
            assert(g * ((u0 % 3329) * b1) == (u0 % 3329) * (g * b1)) by (nonlinear_arith);
            lemma_mod_in(u0, g * b1, (g * u1) * b0);
            lemma_mul_mod_noop_right(g, u0 * b1 + u1 * b0, 3329);
            assert((g * u1) * b0 + u0 * (g * b1) == g * (u0 * b1 + u1 * b0)) by (nonlinear_arith);
        } else {
            let g = gamma((i - 1) / 2);
            assert((i - 1) % 2 == 0);
            let u0 = u[i - 1];
            let u1 = u[i];
            let b0 = b[i - 1];
            let b1 = b[i];
            // (g u1 % q) b1 + (u0 % q) b0  ==  u0 b0 + g u1 b1
            lemma_mod_in(g * u1, b1, (u0 % 3329) * b0);
            lemma_mod_in(u0, b0, (g * u1) * b1);
            lemma_mod_twice(u0 * b0 + g * (u1 * b1), 3329);
            assert((g * u1) * b1 + u0 * b0 == u0 * b0 + g * (u1 * b1)) by (nonlinear_arith);
        }
    }
}

/// Multiplying by `X` `i` times in every pair commutes with the pairwise product.
pub proof fn lemma_mul_x_pairs_pow_basemul(u: Seq<int>, b: Seq<int>, i: nat)
    ensures
        basemul_spec(mul_x_pairs_pow(u, i), b) == mul_x_pairs_pow(basemul_spec(u, b), i),
    decreases i,
{
    if i > 0 {
        lemma_mul_x_pairs_pow_basemul(u, b, (i - 1) as nat);
        lemma_mul_x_pairs_basemul(mul_x_pairs_pow(u, (i - 1) as nat), b);
    }
}

/// `sum_{i < n} a_i f(i)`, coefficient by coefficient, modulo 3329.
pub open spec fn lin_sum(a: Seq<int>, f: spec_fn(int) -> Seq<int>, n: nat) -> Seq<int>
    decreases n,
{
    if n == 0 {
        Seq::new(256, |k: int| 0int)
    } else {
        pcomb(lin_sum(a, f, (n - 1) as nat), f(n - 1), 1, a[n - 1])
    }
}

/// The product of `a` and `b` in `Z_q[X]/(X^256 + 1)`: `sum_{i < 256} a_i X^i b`.
pub open spec fn poly_product(a: Seq<int>, b: Seq<int>) -> Seq<int> {
    lin_sum(a, |i: int| mul_x_pow(b, i as nat), 256)
}

/// A sum only depends on the terms it adds.
proof fn lemma_lin_sum_ext(a: Seq<int>, f: spec_fn(int) -> Seq<int>, g: spec_fn(int) -> Seq<int>, n: nat)
    requires
        forall|i: int| 0 <= i < n ==> #[trigger] f(i) == g(i),
    ensures
        lin_sum(a, f, n) == lin_sum(a, g, n),
    decreases n,
{
    if n > 0 {
        lemma_lin_sum_ext(a, f, g, (n - 1) as nat);
    }
}

/// The transform of a sum is the sum of the transforms.
proof fn lemma_ntt_lin_sum(a: Seq<int>, f: spec_fn(int) -> Seq<int>, n: nat)
    requires
        forall|i: int| 0 <= i < n ==> (#[trigger] f(i)).len() == 256,
    ensures
        ntt_spec(lin_sum(a, f, n)) == lin_sum(a, |i: int| ntt_spec(f(i)), n),
    decreases n,
{
    let g = |i: int| ntt_spec(f(i));
    if n == 0 {
        let z = lin_sum(a, f, 0);
        assert(z =~= pcomb(z, z, 0, 0));
        lemma_ntt_linear(z, z, 0, 0);
        assert(pcomb(ntt_spec(z), ntt_spec(z), 0, 0) =~= lin_sum(a, g, 0));
    } else {
        lemma_ntt_lin_sum(a, f, (n - 1) as nat);
        lemma_ntt_linear(lin_sum(a, f, (n - 1) as nat), f(n - 1), 1, a[n - 1]);
    }
}

/// The pairwise product distributes over a sum in its first operand.
proof fn lemma_basemul_lin_sum(a: Seq<int>, f: spec_fn(int) -> Seq<int>, n: nat, b: Seq<int>)
    ensures
        basemul_spec(lin_sum(a, f, n), b) == lin_sum(a, |i: int| basemul_spec(f(i), b), n),
    decreases n,
{
    let g = |i: int| basemul_spec(f(i), b);
    if n == 0 {
        reveal(basemul_coef);
        assert forall|k: int| 0 <= k < 256 implies #[trigger] basemul_spec(lin_sum(a, f, 0), b)[k] == 0 by {
            let z = lin_sum(a, f, 0);
            if k % 2 == 0 {
                assert(z[k] * b[k] + gamma(k / 2) * (z[k + 1] * b[k + 1]) == 0) by (nonlinear_arith)
                    requires z[k] == 0, z[k + 1] == 0;
            } else {
                assert(z[k - 1] * b[k] + z[k] * b[k - 1] == 0) by (nonlinear_arith)
                    requires z[k] == 0, z[k - 1] == 0;
            }
        }
        assert(basemul_spec(lin_sum(a, f, 0), b) =~= lin_sum(a, g, 0));
    } else {
        lemma_basemul_lin_sum(a, f, (n - 1) as nat, b);
        lemma_bm_comb_left(lin_sum(a, f, (n - 1) as nat), f(n - 1), 1, a[n - 1], b);
    }
}

/// The polynomial 1.
pub open spec fn poly_one() -> Seq<int> {
    Seq::new(256, |k: int| if k == 0 { 1int } else { 0 })
}

/// `X^i`, for `i < 256`.
pub open spec fn monomial(i: int) -> Seq<int> {
    Seq::new(256, |k: int| if k == i { 1int } else { 0 })
}

/// `i -> X^i`.
pub open spec fn monomials() -> spec_fn(int) -> Seq<int> {
    |i: int| monomial(i)
}

/// The transform of 1: every pair is `1 + 0 X`.
pub open spec fn pairs_one() -> Seq<int> {
    Seq::new(256, |k: int| if k % 2 == 0 { 1int } else { 0 })
}

/// 1 in every chunk of width `2 * len`.
spec fn chunk_ones(len: int) -> Seq<int> {
    Seq::new(256, |i: int| if i % (2 * len) == 0 { 1int } else { 0 })
}

/// A layer splits 1 into 1 in both halves.
proof fn lemma_layer_one(len: int)
    requires
        is_layer_len(len),
    ensures
        ntt_layer(chunk_ones(len), len) =~= chunk_ones(len / 2),
{
    assert forall|i: int| 0 <= i < 256 implies #[trigger] ntt_layer(chunk_ones(len), len)[i] == chunk_ones(len / 2)[i] by {
        lemma_pair_index(len, i);
        lemma_half_chunk(len, i);
        lemma_mod_bound(i, 2 * len);
        assert(2 * (len / 2) == len);
        let z = ZETA_TABLE[layer_k(len, i)] as int;
        if i % (2 * len) < len {
            assert(chunk_ones(len)[i + len] == 0);
            assert(z * 0 == 0);
        } else {
            assert(z * chunk_ones(len)[i] == 0) by (nonlinear_arith)
                requires chunk_ones(len)[i] == 0;
        }
    }
}

/// The layers from half-width `len` down turn 1 in every chunk of width `2 * len` into
/// 1 in every pair.
proof fn lemma_ntt_from_one(len: nat)
    requires
        is_layer_len(len as int),
    ensures
        ntt_from(chunk_ones(len as int), len) =~= pairs_one(),
    decreases len,
{
    lemma_layer_one(len as int);
    let t = ntt_layer(chunk_ones(len as int), len as int);
    assert(ntt_from(chunk_ones(len as int), len) == ntt_from(t, len / 2));
    if len == 2 {
        assert(ntt_from(t, 1) == t);
        assert(chunk_ones(1) =~= pairs_one());
    } else {
        assert(is_layer_len((len / 2) as int));
        lemma_ntt_from_one(len / 2);
    }
}

/// The transform of 1 is 1 in every pair, and 1 times `b` in every pair is `b`.
pub proof fn lemma_one(b: Seq<int>)
    requires
        is_reduced_poly(b),
    ensures
        ntt_spec(poly_one()) == pairs_one(),
        basemul_spec(pairs_one(), b) == b,
{
    assert(norm(poly_one()) =~= chunk_ones(128));
    lemma_ntt_from_one(128);
    reveal(basemul_coef);
    assert forall|k: int| 0 <= k < 256 implies #[trigger] basemul_spec(pairs_one(), b)[k] == b[k] by {
        let o = pairs_one();
        if k % 2 == 0 {
            assert(o[k] == 1 && o[k + 1] == 0);
            assert(o[k] * b[k] + gamma(k / 2) * (o[k + 1] * b[k + 1]) == b[k]) by (nonlinear_arith)
                requires o[k] == 1, o[k + 1] == 0;
        } else {
            assert(o[k - 1] == 1 && o[k] == 0);
            assert(o[k - 1] * b[k] + o[k] * b[k - 1] == b[k]) by (nonlinear_arith)
                requires o[k - 1] == 1, o[k] == 0;
        }
        lemma_small_mod(b[k] as nat, 3329);
    }
    assert(basemul_spec(pairs_one(), b) =~= b);
}

/// `X^i * 1 = X^i` below the degree bound.
proof fn lemma_mul_x_pow_one(i: nat)
    requires
        i < 256,
    ensures
        mul_x_pow(poly_one(), i) =~= monomial(i as int),
    decreases i,
{
    if i > 0 {
        lemma_mul_x_pow_one((i - 1) as nat);
    }
}

/// Summing `a_i X^i` gives back `a`, reduced.
proof fn lemma_lin_sum_monomials(a: Seq<int>, n: nat)
    requires
        n <= 256,
    ensures
        forall|k: int| 0 <= k < 256 ==> #[trigger] lin_sum(a, monomials(), n)[k] == if k < n {
            a[k] % 3329
        } else {
            0
        },
    decreases n,
{
    if n > 0 {
        lemma_lin_sum_monomials(a, (n - 1) as nat);
        let prev = lin_sum(a, monomials(), (n - 1) as nat);
        assert forall|k: int| 0 <= k < 256 implies #[trigger] lin_sum(a, monomials(), n)[k] == if k < n {
            a[k] % 3329
        } else {
            0
        } by {
            let e = monomial(n - 1);
            assert(monomials()(n - 1) == e);
            assert(lin_sum(a, monomials(), n)[k] == (1 * prev[k] + a[n - 1] * e[k]) % 3329);
            if k < n - 1 {
                assert(a[n - 1] * e[k] == 0) by (nonlinear_arith)
                    requires e[k] == 0;
                lemma_mod_twice(a[k], 3329);
            } else if k == n - 1 {
                assert(a[n - 1] * e[k] == a[k]) by (nonlinear_arith)
                    requires e[k] == 1, k == n - 1;
            } else {
                assert(a[n - 1] * e[k] == 0) by (nonlinear_arith)
                    requires e[k] == 0;
            }
        }
    }
}

/// The convolution theorem of the transform: the transform of the product of two
/// polynomials in `Z_q[X]/(X^256 + 1)` is the pairwise product of their transforms (what
/// `poly_mult` computes), and the inverse transform of that pairwise product is the
/// product itself.
pub proof fn lemma_ntt_product(a: Seq<int>, b: Seq<int>)
    requires
        a.len() == 256,
        b.len() == 256,
    ensures
        ntt_spec(poly_product(a, b)) == basemul_spec(ntt_spec(a), ntt_spec(b)),
        intt_spec(basemul_spec(ntt_spec(a), ntt_spec(b))) == poly_product(a, b),
{
    let bh = ntt_spec(b);
    crate::ntt_spec::lemma_ntt_spec_reduced(b);
    lemma_one(bh);
    // the transform of the product: sum_i a_i (X^i in every pair) ntt(b)
    let f = |i: int| mul_x_pow(b, i as nat);
    let h = |i: int| mul_x_pairs_pow(bh, i as nat);
    assert forall|i: int| 0 <= i < 256 implies (#[trigger] f(i)).len() == 256 by {
        lemma_ntt_mul_x_pow(b, i as nat);
    }
    lemma_ntt_lin_sum(a, f, 256);
    let g = |i: int| ntt_spec(f(i));
    assert forall|i: int| 0 <= i < 256 implies #[trigger] g(i) == h(i) by {
        lemma_ntt_mul_x_pow(b, i as nat);
    }
    lemma_lin_sum_ext(a, g, h, 256);
    assert(ntt_spec(poly_product(a, b)) == lin_sum(a, h, 256));
    // the transform of a: sum_i a_i (X^i in every pair) 1
    lemma_lin_sum_monomials(a, 256);
    lemma_norm_reduced(a);
    assert(lin_sum(a, monomials(), 256) =~= norm(a));
    let e = |i: int| mul_x_pow(poly_one(), i as nat);
    assert forall|i: int| 0 <= i < 256 implies #[trigger] e(i) == monomials()(i) by {
        lemma_mul_x_pow_one(i as nat);
    }
    lemma_lin_sum_ext(a, e, monomials(), 256);
    lemma_norm_of_reduced(norm(a));
    assert(ntt_spec(a) == ntt_spec(lin_sum(a, e, 256)));
    assert forall|i: int| 0 <= i < 256 implies (#[trigger] e(i)).len() == 256 by {
        lemma_ntt_mul_x_pow(poly_one(), i as nat);
    }
    lemma_ntt_lin_sum(a, e, 256);
    let ge = |i: int| ntt_spec(e(i));
    let p1 = |i: int| mul_x_pairs_pow(pairs_one(), i as nat);
    assert forall|i: int| 0 <= i < 256 implies #[trigger] ge(i) == p1(i) by {
        lemma_ntt_mul_x_pow(poly_one(), i as nat);
    }
    lemma_lin_sum_ext(a, ge, p1, 256);
    assert(ntt_spec(a) == lin_sum(a, p1, 256));
    // the pairwise product distributes over the sum
    lemma_basemul_lin_sum(a, p1, 256, bh);
    let gb = |i: int| basemul_spec(p1(i), bh);
    assert forall|i: int| 0 <= i < 256 implies #[trigger] gb(i) == h(i) by {
        lemma_mul_x_pairs_pow_basemul(pairs_one(), bh, i as nat);
    }
    lemma_lin_sum_ext(a, gb, h, 256);
    // back through the inverse transform: the product is reduced
    let pp = poly_product(a, b);
    assert(pp == pcomb(lin_sum(a, f, 255), f(255), 1, a[255]));
    crate::correctness::lemma_norm_pcomb(lin_sum(a, f, 255), f(255), 1, a[255]);
    lemma_intt_ntt_roundtrip(pp);
}

/// Term `i` of coefficient `k` of the product in `Z[X]/(X^256 + 1)`: `a_i b_(k-i)`, or
/// `-a_i b_(k+256-i)` when `X^i` times the coefficient wraps around `X^256 = -1`.
pub open spec fn wrap_term(a: Seq<int>, b: Seq<int>, i: int, k: int) -> int {
    if i <= k {
        a[i] * b[k - i]
    } else {
        -(a[i] * b[k + 256 - i])
    }
}

/// `sum_{i < n} wrap_term(a, b, i, k)`.
pub open spec fn wrap_sum(a: Seq<int>, b: Seq<int>, k: int, n: nat) -> int
    decreases n,
{
    if n == 0 {
        0
    } else {
        wrap_sum(a, b, k, (n - 1) as nat) + wrap_term(a, b, n - 1, k)
    }
}

/// Coefficient `k` of `X^i b`.
proof fn lemma_mul_x_pow_coef(b: Seq<int>, i: nat, k: int)
    requires
        b.len() == 256,
        i < 256,
        0 <= k < 256,
    ensures
        mul_x_pow(b, i)[k] == if k >= i { b[k - i] } else { -b[k + 256 - i] },
    decreases i,
{
    if i > 0 {
        lemma_mul_x_pow_coef(b, (i - 1) as nat, 255);
        if k > 0 {
            lemma_mul_x_pow_coef(b, (i - 1) as nat, k - 1);
        }
    }
}

/// The product coefficient by coefficient: coefficient `k` is
/// `sum_{i <= k} a_i b_(k-i) - sum_{i > k} a_i b_(k+256-i)` modulo 3329.
pub proof fn lemma_poly_product_coef(a: Seq<int>, b: Seq<int>, k: int)
    requires
        b.len() == 256,
        0 <= k < 256,
    ensures
        poly_product(a, b)[k] == wrap_sum(a, b, k, 256) % 3329,
{
    lemma_lin_sum_coef(a, b, k, 256);
}

/// Coefficient `k` of the first `n` terms of the product.
proof fn lemma_lin_sum_coef(a: Seq<int>, b: Seq<int>, k: int, n: nat)
    requires
        b.len() == 256,
        0 <= k < 256,
        n <= 256,
    ensures
        lin_sum(a, |i: int| mul_x_pow(b, i as nat), n)[k] == wrap_sum(a, b, k, n) % 3329,
    decreases n,
{
    let f = |i: int| mul_x_pow(b, i as nat);
    if n > 0 {
        lemma_lin_sum_coef(a, b, k, (n - 1) as nat);
        let m = n - 1;
        lemma_mul_x_pow_coef(b, m as nat, k);
        let prev = wrap_sum(a, b, k, m as nat);
        let c = f(m)[k];
        assert(lin_sum(a, f, n)[k] == (1 * (prev % 3329) + a[m] * c) % 3329);
        lemma_mod_in(prev, 1, a[m] * c);
        if m <= k {
            assert(a[m] * c == wrap_term(a, b, m, k));
        } else {
            assert(a[m] * c == wrap_term(a, b, m, k)) by (nonlinear_arith)
                requires c == -b[k + 256 - m], wrap_term(a, b, m, k) == -(a[m] * b[k + 256 - m]);
        }
    }
}

} // verus!
