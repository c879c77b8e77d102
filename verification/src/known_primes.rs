//! Numbers that are known to be prime, each with a certificate.
//!
//! A certificate spells exponents digit by digit in base 16: each step squares a power modulo the
//! number four times and multiplies it by a small power of the base.

use vstd::arithmetic::power::pow;
use vstd::arithmetic::power2::{lemma2_to64, pow2};
use vstd::prelude::*;

use crate::certificates::{
    lemma_digit, lemma_inverse, lemma_pocklington, lemma_pocklington_pair, lemma_prime_by_trial,
    lemma_proth,
};
use crate::number_theory::is_prime;

verus! {

/// The first powers of 2.
proof fn lemma_powers_of_2()
    ensures
        pow(2, 0) == 1,
        pow(2, 1) == 2,
        pow(2, 2) == 4,
        pow(2, 3) == 8,
        pow(2, 4) == 16,
        pow(2, 5) == 32,
        pow(2, 6) == 64,
        pow(2, 7) == 128,
        pow(2, 8) == 256,
        pow(2, 9) == 512,
        pow(2, 10) == 1024,
        pow(2, 11) == 2048,
        pow(2, 12) == 4096,
        pow(2, 13) == 8192,
        pow(2, 14) == 16_384,
        pow(2, 15) == 32_768,
{
    reveal(pow);
    reveal_with_fuel(pow, 17);
}

/// The first powers of 3.
proof fn lemma_powers_of_3()
    ensures
        pow(3, 0) == 1,
        pow(3, 1) == 3,
        pow(3, 2) == 9,
        pow(3, 3) == 27,
        pow(3, 4) == 81,
        pow(3, 5) == 243,
        pow(3, 6) == 729,
        pow(3, 7) == 2187,
        pow(3, 8) == 6561,
        pow(3, 9) == 19_683,
        pow(3, 10) == 59_049,
        pow(3, 11) == 177_147,
        pow(3, 12) == 531_441,
        pow(3, 13) == 1_594_323,
        pow(3, 14) == 4_782_969,
        pow(3, 15) == 14_348_907,
{
    reveal(pow);
    reveal_with_fuel(pow, 17);
}

/// The first powers of 7.
proof fn lemma_powers_of_7()
    ensures
        pow(7, 0) == 1,
        pow(7, 1) == 7,
        pow(7, 2) == 49,
        pow(7, 3) == 343,
        pow(7, 4) == 2401,
        pow(7, 5) == 16_807,
        pow(7, 6) == 117_649,
        pow(7, 7) == 823_543,
        pow(7, 8) == 5_764_801,
        pow(7, 9) == 40_353_607,
        pow(7, 10) == 282_475_249,
        pow(7, 11) == 1_977_326_743,
        pow(7, 12) == 13_841_287_201,
        pow(7, 13) == 96_889_010_407,
        pow(7, 14) == 678_223_072_849,
        pow(7, 15) == 4_747_561_509_943,
{
    reveal(pow);
    reveal_with_fuel(pow, 17);
}

/// The first powers of 11.
proof fn lemma_powers_of_11()
    ensures
        pow(11, 0) == 1,
        pow(11, 1) == 11,
        pow(11, 2) == 121,
        pow(11, 3) == 1331,
        pow(11, 4) == 14_641,
        pow(11, 5) == 161_051,
        pow(11, 6) == 1_771_561,
        pow(11, 7) == 19_487_171,
        pow(11, 8) == 214_358_881,
        pow(11, 9) == 2_357_947_691,
        pow(11, 10) == 25_937_424_601,
        pow(11, 11) == 285_311_670_611,
        pow(11, 12) == 3_138_428_376_721,
        pow(11, 13) == 34_522_712_143_931,
        pow(11, 14) == 379_749_833_583_241,
        pow(11, 15) == 4_177_248_169_415_651,
{
    reveal(pow);
    reveal_with_fuel(pow, 17);
}

/// 7 is a prime.
proof fn lemma_prime_7()
    ensures
        is_prime(7),
{
    lemma_prime_by_trial(7);
}

/// 53 is a prime.
proof fn lemma_prime_53()
    ensures
        is_prime(53),
{
    lemma_prime_by_trial(53);
}

/// 71 is a prime.
proof fn lemma_prime_71()
    ensures
        is_prime(71),
{
    lemma_prime_by_trial(71);
}

/// 73 is a prime.
proof fn lemma_prime_73()
    ensures
        is_prime(73),
{
    lemma_prime_by_trial(73);
}

/// 293 is a prime.
proof fn lemma_prime_293()
    ensures
        is_prime(293),
{
    lemma_prime_by_trial(293);
}

/// 593 is a prime.
proof fn lemma_prime_593()
    ensures
        is_prime(593),
{
    lemma_prime_by_trial(593);
}

/// 2131 is a prime.
proof fn lemma_prime_2131()
    ensures
        is_prime(2131),
{
    lemma_powers_of_2();
    lemma_prime_71();
    lemma_digit(2131, 2, 0, 1, (1, 1, 1, 1), 8, 256, 256);
    lemma_digit(2131, 2, 8, 256, (1606, 726, 719, 1259), 5, 32, 1930);
    lemma_digit(2131, 2, 133, 1930, (2043, 1351, 1065, 533), 2, 4, 1);
    lemma_digit(2131, 2, 0, 1, (1, 1, 1, 1), 1, 2, 2);
    lemma_digit(2131, 2, 1, 2, (4, 16, 256, 1606), 14, 16_384, 1247);
    lemma_inverse(2131, pow(2, 30), 1247, 183);
    lemma_pocklington(2131, 2, 71, 183);
}

/// 2753 is a prime.
proof fn lemma_prime_2753()
    ensures
        is_prime(2753),
{
    lemma_powers_of_3();
    lemma2_to64();
    lemma_digit(2753, 3, 0, 1, (1, 1, 1, 1), 5, 243, 243);
    lemma_digit(2753, 3, 5, 243, (1236, 2534, 1160, 2136), 6, 729, 1699);
    lemma_digit(2753, 3, 86, 1699, (1457, 286, 1959, 2752), 0, 1, 2752);
    assert(43 * pow2(5) == 1376);
    assert(43 * pow2(6) + 1 == 2753);
    lemma_proth(2753, 43, 6, 3);
}

/// 15_331 is a prime.
proof fn lemma_prime_15331()
    ensures
        is_prime(15_331),
{
    lemma_powers_of_2();
    lemma_prime_73();
    lemma_prime_7();
    lemma_digit(15_331, 2, 0, 1, (1, 1, 1, 1), 3, 8, 8);
    lemma_digit(15_331, 2, 3, 8, (64, 4096, 5102, 13_697), 11, 2048, 11_057);
    lemma_digit(15_331, 2, 59, 11_057, (7855, 9081, 14_443, 6663), 14, 16_384, 9872);
    lemma_digit(15_331, 2, 958, 9872, (12_548, 2934, 7665, 3833), 2, 4, 1);
    lemma_digit(15_331, 2, 0, 1, (1, 1, 1, 1), 13, 8192, 8192);
    lemma_digit(15_331, 2, 13, 8192, (5077, 4518, 6763, 5796), 2, 4, 7853);
    lemma_inverse(15_331, pow(2, 210), 7853, 6453);
    lemma_digit(15_331, 2, 0, 1, (1, 1, 1, 1), 8, 256, 256);
    lemma_digit(15_331, 2, 8, 256, (4212, 2977, 1211, 10_076), 8, 256, 3848);
    lemma_digit(15_331, 2, 136, 3848, (12_689, 4559, 10_976, 1578), 14, 16_384, 5886);
    lemma_inverse(15_331, pow(2, 2190), 5886, 7461);
    lemma_pocklington_pair(15_331, 2, 73, 6453, 7, 7461);
}

/// 71_161 is a prime.
proof fn lemma_prime_71161()
    ensures
        is_prime(71_161),
{
    lemma_powers_of_2();
    lemma_prime_593();
    lemma_digit(71_161, 2, 0, 1, (1, 1, 1, 1), 1, 2, 2);
    lemma_digit(71_161, 2, 1, 2, (4, 16, 256, 65_536), 1, 2, 59_911);
    lemma_digit(71_161, 2, 17, 59_911, (38_242, 20_853, 53_899, 25_537), 5, 32, 34_413);
    lemma_digit(71_161, 2, 277, 34_413, (64_368, 32_521, 20_659, 41_764), 15, 32_768, 25_561);
    lemma_digit(71_161, 2, 4447, 25_561, (35_580, 53_371, 31_133, 50_869), 8, 256, 1);
    lemma_digit(71_161, 2, 0, 1, (1, 1, 1, 1), 7, 128, 128);
    lemma_digit(71_161, 2, 7, 128, (16_384, 16_164, 42_865, 31_205), 8, 256, 18_448);
    lemma_inverse(71_161, pow(2, 120), 18_448, 50_303);
    lemma_pocklington(71_161, 2, 593, 50_303);
}

/// 809_383 is a prime.
proof fn lemma_prime_809383()
    ensures
        is_prime(809_383),
{
    lemma_powers_of_2();
    lemma_prime_2753();
    lemma_digit(809_383, 2, 0, 1, (1, 1, 1, 1), 12, 4096, 4096);
    lemma_digit(809_383, 2, 12, 4096, (589_556, 507_297, 446_295, 592_704), 5, 32, 350_719);
    lemma_digit(809_383, 2, 197, 350_719, (263_685, 541_993, 564_795, 173_448), 9, 512, 582_629);
    lemma_digit(809_383, 2, 3161, 582_629, (512_058, 534_982, 627_077, 592_890), 10, 1024, 82_110);
    lemma_digit(809_383, 2, 50_586, 82_110, (701_093, 383_196, 101_173, 518_511), 6, 64, 1);
    lemma_digit(809_383, 2, 0, 1, (1, 1, 1, 1), 1, 2, 2);
    lemma_digit(809_383, 2, 1, 2, (4, 16, 256, 65_536), 2, 4, 262_144);
    lemma_digit(809_383, 2, 18, 262_144, (431_887, 21_504, 264_323, 707_769), 6, 64, 781_151);
    lemma_inverse(809_383, pow(2, 294), 781_151, 663_549);
    lemma_pocklington(809_383, 2, 2753, 663_549);
}

/// 853_933 is a prime.
proof fn lemma_prime_853933()
    ensures
        is_prime(853_933),
{
    lemma_powers_of_2();
    lemma_prime_71161();
    lemma_digit(853_933, 2, 0, 1, (1, 1, 1, 1), 13, 8192, 8192);
    lemma_digit(853_933, 2, 13, 8192, (502_090, 537_505, 473_135, 754_074), 0, 1, 754_074);
    lemma_digit(853_933, 2, 208, 754_074, (444_240, 137_702, 258_539, 808_946), 7, 128, 219_195);
    lemma_digit(853_933, 2, 3335, 219_195, (761_713, 209_653, 741_033, 606_042), 10, 1024, 631_650);
    lemma_digit(853_933, 2, 53_370, 631_650, (314_776, 376_320, 493_680, 632_736), 12, 4096, 1);
    lemma_digit(853_933, 2, 0, 1, (1, 1, 1, 1), 12, 4096, 4096);
    lemma_inverse(853_933, pow(2, 12), 4096, 486_502);
    lemma_pocklington(853_933, 2, 71_161, 486_502);
}

/// 10_247_197 is a prime.
proof fn lemma_prime_10247197()
    ensures
        is_prime(10_247_197),
{
    lemma_powers_of_2();
    lemma_prime_853933();
    lemma_digit(10_247_197, 2, 0, 1, (1, 1, 1, 1), 9, 512, 512);
    lemma_digit(
        10_247_197, 2, 9, 512,
        (262_144, 1_773_654, 21_504, 1_298_151),
        12, 4096, 9_178_450,
    );
    lemma_digit(
        10_247_197, 2, 156, 9_178_450,
        (6_089_207, 4_758_443, 9_697_214, 4_539_243),
        5, 32, 1_795_018,
    );
    lemma_digit(
        10_247_197, 2, 2501, 1_795_018,
        (1_984_432, 3_297_115, 2_947_441, 9_034_230),
        12, 4096, 1_577_713,
    );
    lemma_digit(
        10_247_197, 2, 40_028, 1_577_713,
        (945_508, 9_664_587, 6_258_672, 9_209_793),
        1, 2, 8_172_389,
    );
    lemma_digit(
        10_247_197, 2, 640_449, 8_172_389,
        (1_271_558, 5_768_719, 8_485_960, 6_271_905),
        12, 4096, 1,
    );
    lemma_digit(10_247_197, 2, 0, 1, (1, 1, 1, 1), 12, 4096, 4096);
    lemma_inverse(10_247_197, pow(2, 12), 4096, 6_085_759);
    lemma_pocklington(10_247_197, 2, 853_933, 6_085_759);
}

/// 41_369_257 is a prime.
proof fn lemma_prime_41369257()
    ensures
        is_prime(41_369_257),
{
    lemma_powers_of_2();
    lemma_prime_293();
    lemma_prime_53();
    lemma_digit(41_369_257, 2, 0, 1, (1, 1, 1, 1), 2, 4, 4);
    lemma_digit(41_369_257, 2, 2, 4, (16, 256, 65_536, 33_933_825), 7, 128, 41_126_872);
    lemma_digit(
        41_369_257, 2, 39, 41_126_872,
        (6_143_285, 18_507_835, 26_271_805, 34_214_264),
        7, 128, 35_653_807,
    );
    lemma_digit(
        41_369_257, 2, 631, 35_653_807,
        (3_666_847, 13_749_783, 20_919_257, 19_078_888),
        3, 8, 28_523_333,
    );
    lemma_digit(
        41_369_257, 2, 10_099, 28_523_333,
        (16_904_990, 25_021_128, 35_785_953, 17_744_407),
        14, 16_384, 22_595_349,
    );
    lemma_digit(
        41_369_257, 2, 161_598, 22_595_349,
        (5_556_556, 31_527_298, 27_416_517, 28_899_412),
        10, 1024, 13_979_133,
    );
    lemma_digit(
        41_369_257, 2, 2_585_578, 13_979_133,
        (34_663_761, 10_342_314, 18_099_050, 16_644_662),
        8, 256, 1,
    );
    lemma_digit(41_369_257, 2, 0, 1, (1, 1, 1, 1), 2, 4, 4);
    lemma_digit(41_369_257, 2, 2, 4, (16, 256, 65_536, 33_933_825), 2, 4, 11_627_529);
    lemma_digit(
        41_369_257, 2, 34, 11_627_529,
        (24_043_800, 20_177_007, 21_512_352, 40_954_218),
        7, 128, 29_613_522,
    );
    lemma_digit(
        41_369_257, 2, 551, 29_613_522,
        (34_210_422, 21_077_513, 40_559_416, 15_614_060),
        8, 256, 25_750_688,
    );
    lemma_digit(
        41_369_257, 2, 8824, 25_750_688,
        (40_642_024, 3_254_801, 14_324_812, 36_571_374),
        8, 256, 12_819_662,
    );
    lemma_inverse(41_369_257, pow(2, 141_192), 12_819_662, 36_569_354);
    lemma_digit(41_369_257, 2, 0, 1, (1, 1, 1, 1), 11, 2048, 2048);
    lemma_digit(
        41_369_257, 2, 11, 2048,
        (4_194_304, 33_612_937, 2_596_776, 15_333_919),
        14, 16_384, 36_800_392,
    );
    lemma_digit(
        41_369_257, 2, 190, 36_800_392,
        (13_998_595, 35_045_463, 33_628_760, 33_416_881),
        9, 512, 23_939_931,
    );
    lemma_digit(
        41_369_257, 2, 3049, 23_939_931,
        (628_100, 12_375_248, 7_587_382, 24_542_663),
        0, 1, 24_542_663,
    );
    lemma_digit(
        41_369_257, 2, 48_784, 24_542_663,
        (9_407_818, 37_694_301, 18_069_487, 37_371_010),
        8, 256, 10_680_193,
    );
    lemma_inverse(41_369_257, pow(2, 780_552), 10_680_193, 27_408_356);
    lemma_pocklington_pair(41_369_257, 2, 293, 36_569_354, 53, 27_408_356);
}

/// 2_013_265_921 is a prime.
pub proof fn lemma_prime_2013265921()
    ensures
        is_prime(2_013_265_921),
{
    lemma_powers_of_11();
    lemma2_to64();
    lemma_digit(2_013_265_921, 11, 0, 1, (1, 1, 1, 1), 3, 1331, 1331);
    lemma_digit(
        2_013_265_921, 11, 3, 1331,
        (1_771_561, 1_760_071_803, 348_363_183, 1_766_121_022),
        12, 3_138_428_376_721, 1_967_256_669,
    );
    lemma_digit(
        2_013_265_921, 11, 60, 1_967_256_669,
        (803_698_133, 1_468_189_886, 551_940_703, 845_732_530),
        0, 1, 845_732_530,
    );
    lemma_digit(
        2_013_265_921, 11, 960, 845_732_530,
        (1_179_029_991, 139_700_921, 1_161_580_287, 234_232_845),
        0, 1, 234_232_845,
    );
    lemma_digit(
        2_013_265_921, 11, 15_360, 234_232_845,
        (74_384_512, 921_325_686, 400_588_301, 772_837_880),
        0, 1, 772_837_880,
    );
    lemma_digit(
        2_013_265_921, 11, 245_760, 772_837_880,
        (1_619_789_736, 709_697_997, 1_054_808_915, 949_217_896),
        0, 1, 949_217_896,
    );
    lemma_digit(
        2_013_265_921, 11, 3_932_160, 949_217_896,
        (1_734_697_937, 784_229_619, 1_917_679_203, 1_835_875_777),
        0, 1, 1_835_875_777,
    );
    lemma_digit(
        2_013_265_921, 11, 62_914_560, 1_835_875_777,
        (1_400_279_418, 420_899_707, 1_728_404_513, 2_013_265_920),
        0, 1, 2_013_265_920,
    );
    assert(15 * pow2(26) == 1_006_632_960);
    assert(15 * pow2(27) + 1 == 2_013_265_921);
    lemma_proth(2_013_265_921, 15, 27, 11);
}

/// 42_362_119_169 is a prime.
proof fn lemma_prime_42362119169()
    ensures
        is_prime(42_362_119_169),
{
    lemma_powers_of_2();
    lemma_prime_41369257();
    lemma_digit(42_362_119_169, 2, 0, 1, (1, 1, 1, 1), 9, 512, 512);
    lemma_digit(
        42_362_119_169, 2, 9, 512,
        (262_144, 26_357_357_567, 109_101_056, 5_089_852_009),
        13, 8192, 11_742_395_432,
    );
    lemma_digit(
        42_362_119_169, 2, 157, 11_742_395_432,
        (41_293_856_125, 4_442_713_666, 13_966_949_657, 39_099_055_152),
        12, 4096, 20_919_443_772,
    );
    lemma_digit(
        42_362_119_169, 2, 2524, 20_919_443_772,
        (41_302_918_824, 11_946_907_908, 2_551_242_674, 11_906_369_975),
        15, 32_768, 35_175_913_479,
    );
    lemma_digit(
        42_362_119_169, 2, 40_399, 35_175_913_479,
        (1_316_418_836, 40_879_068, 39_685_689_081, 23_055_640_523),
        10, 1024, 13_275_518_419,
    );
    lemma_digit(
        42_362_119_169, 2, 646_394, 13_275_518_419,
        (24_086_395_804, 20_282_932_750, 31_868_299_124, 352_215_861),
        10, 1024, 21_772_088_312,
    );
    lemma_digit(
        42_362_119_169, 2, 10_342_314, 21_772_088_312,
        (3_906_864_801, 24_998_410_070, 28_485_904_854, 11_923_307_739),
        4, 16, 21_324_447_148,
    );
    lemma_digit(
        42_362_119_169, 2, 165_477_028, 21_324_447_148,
        (36_582_692_618, 15_892_432_447, 7_868_984_786, 35_289_963_289),
        0, 1, 35_289_963_289,
    );
    lemma_digit(
        42_362_119_169, 2, 2_647_632_448, 35_289_963_289,
        (10_845_688_119, 42_362_119_168, 1, 1),
        0, 1, 1,
    );
    lemma_digit(42_362_119_169, 2, 0, 1, (1, 1, 1, 1), 4, 16, 16);
    lemma_digit(42_362_119_169, 2, 4, 16, (256, 65_536, 4_294_967_296, 426_176), 0, 1, 426_176);
    lemma_digit(
        42_362_119_169, 2, 64, 426_176,
        (12_177_506_300, 25_102_846_370, 23_715_643_386, 20_117_122_971),
        0, 1, 20_117_122_971,
    );
    lemma_inverse(42_362_119_169, pow(2, 1024), 20_117_122_971, 22_033_958_323);
    lemma_pocklington(42_362_119_169, 2, 41_369_257, 22_033_958_323);
}

/// 5_594_472_617_641 is a prime.
proof fn lemma_prime_5594472617641()
    ensures
        is_prime(5_594_472_617_641),
{
    lemma_powers_of_2();
    lemma_prime_15331();
    lemma_prime_2131();
    lemma_digit(5_594_472_617_641, 2, 0, 1, (1, 1, 1, 1), 5, 32, 32);
    lemma_digit(
        5_594_472_617_641, 2, 5, 32,
        (1024, 1_048_576, 1_099_511_627_776, 3_932_160),
        1, 2, 7_864_320,
    );
    lemma_digit(
        5_594_472_617_641, 2, 81, 7_864_320,
        (308_330_268_349, 12_441_600_000, 3_647_217_347_410, 1_759_861_218_639),
        6, 64, 741_665_640_076,
    );
    lemma_digit(
        5_594_472_617_641, 2, 1302, 741_665_640_076,
        (3_642_443_944_213, 257_974_008_869, 3_349_067_180_169, 3_323_836_328_533),
        9, 512, 1_084_524_446_032,
    );
    lemma_digit(
        5_594_472_617_641, 2, 20_841, 1_084_524_446_032,
        (2_955_077_838_074, 390_648_079_696, 3_885_427_165_590, 3_407_945_261_164),
        0, 1, 3_407_945_261_164,
    );
    lemma_digit(
        5_594_472_617_641, 2, 333_456, 3_407_945_261_164,
        (2_261_184_629_093, 3_998_483_710_615, 1_866_107_242_727, 1_901_258_587_113),
        8, 256, 3_080_566_161,
    );
    lemma_digit(
        5_594_472_617_641, 2, 5_335_304, 3_080_566_161,
        (754_411_702_544, 2_934_934_975_910, 603_180_988_353, 1_232_659_635_778),
        13, 8192, 5_519_134_069_012,
    );
    lemma_digit(
        5_594_472_617_641, 2, 85_364_877, 5_519_134_069_012,
        (4_510_969_109_344, 3_378_788_523_301, 636_760_876_575, 3_907_287_686_925),
        9, 512, 3_304_571_207_763,
    );
    lemma_digit(
        5_594_472_617_641, 2, 1_365_838_041, 3_304_571_207_763,
        (5_001_336_194_739, 589_264_706_886, 4_789_188_231_364, 2_778_540_364_455),
        6, 64, 4_397_932_178_249,
    );
    lemma_digit(
        5_594_472_617_641, 2, 21_853_408_662, 4_397_932_178_249,
        (1_198_258_827_149, 3_841_152_904_098, 4_051_158_302_632, 5_279_046_910_159),
        10, 1024, 1_483_487_361_610,
    );
    lemma_digit(
        5_594_472_617_641, 2, 349_654_538_602, 1_483_487_361_610,
        (2_797_236_308_821, 4_195_854_463_231, 2_447_581_770_218, 2_250_901_092_254),
        8, 256, 1,
    );
    lemma_digit(5_594_472_617_641, 2, 0, 1, (1, 1, 1, 1), 1, 2, 2);
    lemma_digit(5_594_472_617_641, 2, 1, 2, (4, 16, 256, 65_536), 5, 32, 2_097_152);
    lemma_digit(
        5_594_472_617_641, 2, 21, 2_097_152,
        (4_398_046_511_104, 62_914_560, 2_949_719_321_413, 610_540_041_231),
        12, 4096, 42_748_796_649,
    );
    lemma_digit(
        5_594_472_617_641, 2, 348, 42_748_796_649,
        (4_014_122_535_829, 204_240_466_864, 4_404_931_275_682, 2_976_073_519_676),
        0, 1, 2_976_073_519_676,
    );
    lemma_digit(
        5_594_472_617_641, 2, 5568, 2_976_073_519_676,
        (1_168_347_200_078, 3_660_300_668_936, 2_624_682_327_876, 2_467_396_406_167),
        1, 2, 4_934_792_812_334,
    );
    lemma_digit(
        5_594_472_617_641, 2, 89_089, 4_934_792_812_334,
        (2_213_538_232_261, 3_339_150_593_479, 3_614_120_755_181, 430_774_753_076),
        15, 32_768, 772_694_486_125,
    );
    lemma_digit(
        5_594_472_617_641, 2, 1_425_439, 772_694_486_125,
        (3_959_807_441_647, 4_216_798_237_515, 3_501_079_919_715, 2_501_495_916_835),
        3, 8, 3_228_549_481_757,
    );
    lemma_digit(
        5_594_472_617_641, 2, 22_807_027, 3_228_549_481_757,
        (4_846_908_037_093, 1_434_688_708_858, 4_189_688_419_599, 4_662_012_087_416),
        8, 256, 1_852_426_820_963,
    );
    lemma_inverse(5_594_472_617_641, pow(2, 364_912_440), 1_852_426_820_963, 3_161_697_676_777);
    lemma_digit(5_594_472_617_641, 2, 0, 1, (1, 1, 1, 1), 9, 512, 512);
    lemma_digit(
        5_594_472_617_641, 2, 9, 512,
        (262_144, 68_719_476_736, 15_360, 235_929_600),
        12, 4096, 966_367_641_600,
    );
    lemma_digit(
        5_594_472_617_641, 2, 156, 966_367_641_600,
        (3_037_500, 3_631_933_632_359, 1_095_850_180_839, 5_497_922_908_080),
        7, 128, 4_425_055_029_115,
    );
    lemma_digit(
        5_594_472_617_641, 2, 2503, 4_425_055_029_115,
        (4_367_087_328_546, 1_879_612_541_108, 1_333_199_935_408, 3_538_742_861_549),
        10, 1024, 4_048_906_612_449,
    );
    lemma_digit(
        5_594_472_617_641, 2, 40_058, 4_048_906_612_449,
        (2_987_281_309_849, 4_771_323_729_010, 923_891_793_189, 1_858_555_477_573),
        9, 512, 520_059_518_406,
    );
    lemma_digit(
        5_594_472_617_641, 2, 640_937, 520_059_518_406,
        (2_498_729_901_398, 3_111_288_619_920, 2_746_041_493_630, 1_119_600_993_031),
        9, 512, 2_599_501_432_490,
    );
    lemma_digit(
        5_594_472_617_641, 2, 10_255_001, 2_599_501_432_490,
        (3_782_537_863_565, 4_359_353_365_274, 713_135_023_403, 3_665_585_046_103),
        11, 2048, 4_930_394_162_363,
    );
    lemma_digit(
        5_594_472_617_641, 2, 164_080_027, 4_930_394_162_363,
        (4_572_330_737_500, 1_221_241_726_119, 4_898_023_657_561, 551_596_515_825),
        8, 256, 1_346_892_610_175,
    );
    lemma_inverse(5_594_472_617_641, pow(2, 2_625_280_440), 1_346_892_610_175, 1_933_328_135_809);
    lemma_pocklington_pair(
        5_594_472_617_641,
        2,
        15_331,
        3_161_697_676_777,
        2131,
        1_933_328_135_809,
    );
}

/// 43_294_085_790_719 is a prime.
proof fn lemma_prime_43294085790719()
    ensures
        is_prime(43_294_085_790_719),
{
    lemma_powers_of_2();
    lemma_prime_42362119169();
    lemma_digit(43_294_085_790_719, 2, 0, 1, (1, 1, 1, 1), 2, 4, 4);
    lemma_digit(
        43_294_085_790_719, 2, 2, 4,
        (16, 256, 65_536, 4_294_967_296),
        7, 128, 549_755_813_888,
    );
    lemma_digit(
        43_294_085_790_719, 2, 39, 549_755_813_888,
        (1_572_864, 2_473_901_162_496, 31_850_496, 18_690_122_259_479),
        6, 64, 27_227_508_257_243,
    );
    lemma_digit(
        43_294_085_790_719, 2, 630, 27_227_508_257_243,
        (30_143_230_274_042, 32_536_270_351_766, 39_391_383_504_171, 20_981_141_763_746),
        0, 1, 20_981_141_763_746,
    );
    lemma_digit(
        43_294_085_790_719, 2, 10_080, 20_981_141_763_746,
        (12_224_410_043_957, 13_239_663_486_748, 17_244_347_282_903, 23_355_421_992_203),
        3, 8, 13_667_032_774_748,
    );
    lemma_digit(
        43_294_085_790_719, 2, 161_283, 13_667_032_774_748,
        (42_092_022_575_451, 9_689_168_685_521, 3_721_953_281_221, 26_473_929_981_099),
        0, 1, 26_473_929_981_099,
    );
    lemma_digit(
        43_294_085_790_719, 2, 2_580_528, 26_473_929_981_099,
        (31_597_723_733_588, 4_701_081_627_849, 1_121_970_089_780, 23_379_812_714_258),
        9, 512, 21_296_431_461_652,
    );
    lemma_digit(
        43_294_085_790_719, 2, 41_288_457, 21_296_431_461_652,
        (39_400_560_275_768, 26_955_335_001_655, 42_180_765_901_578, 38_495_933_198_457),
        10, 1024, 22_217_525_665_678,
    );
    lemma_digit(
        43_294_085_790_719, 2, 660_615_322, 22_217_525_665_678,
        (27_549_396_701_169, 14_874_763_921_087, 18_539_112_761_304, 27_449_416_710_209),
        11, 2048, 20_682_066_154_770,
    );
    lemma_digit(
        43_294_085_790_719, 2, 10_569_845_163, 20_682_066_154_770,
        (38_804_123_414_769, 39_412_402_203_173, 1_547_000_990_119, 23_676_591_083_985),
        11, 2048, 282_454_396_000,
    );
    lemma_digit(
        43_294_085_790_719, 2, 169_117_522_619, 282_454_396_000,
        (22_516_661_434_902, 22_292_533_530_786, 34_865_192_407_630, 20_632_948_280_390),
        15, 32_768, 20_005_543_951_616,
    );
    lemma_digit(
        43_294_085_790_719, 2, 2_705_880_361_919, 20_005_543_951_616,
        (11_799_546_531_249, 180_019_469_155, 338_235_045_240, 40_590_847_890_090),
        14, 16_384, 1,
    );
    lemma_digit(43_294_085_790_719, 2, 0, 1, (1, 1, 1, 1), 3, 8, 8);
    lemma_digit(
        43_294_085_790_719, 2, 3, 8,
        (64, 4096, 16_777_216, 21_710_461_966_342),
        15, 32_768, 48,
    );
    lemma_digit(
        43_294_085_790_719, 2, 63, 48,
        (2304, 5_308_416, 28_179_280_429_056, 4_132_485_216),
        14, 16_384, 24_412_551_988_225,
    );
    lemma_inverse(43_294_085_790_719, pow(2, 1022), 24_412_551_988_225, 24_171_553_234_324);
    lemma_pocklington(43_294_085_790_719, 2, 42_362_119_169, 24_171_553_234_324);
}

/// 18_446_744_069_414_584_321 is a prime.
pub proof fn lemma_prime_18446744069414584321()
    ensures
        is_prime(18_446_744_069_414_584_321),
{
    lemma_powers_of_7();
    lemma2_to64();
    lemma_digit(18_446_744_069_414_584_321, 7, 0, 1, (1, 1, 1, 1), 7, 823_543, 823_543);
    lemma_digit(
        18_446_744_069_414_584_321, 7, 7, 823_543,
        (
            678_223_072_849,
            16_973_173_887_300_932_666,
            15_583_798_910_550_913_906,
            9_245_272_674_386_959_206,
        ),
        15, 4_747_561_509_943, 7_007_601_668_316_978_083,
    );
    lemma_digit(
        18_446_744_069_414_584_321, 7, 127, 7_007_601_668_316_978_083,
        (
            1_160_753_142_525_841_411,
            14_528_412_203_043_599_547,
            8_255_096_154_899_009_494,
            8_141_396_233_664_652_803,
        ),
        15, 4_747_561_509_943, 3_543_566_522_599_720_475,
    );
    lemma_digit(
        18_446_744_069_414_584_321, 7, 2047, 3_543_566_522_599_720_475,
        (
            12_252_646_851_770_615_269,
            16_755_100_659_406_348_822,
            1_336_710_268_793_287_323,
            13_305_315_955_939_708_178,
        ),
        15, 4_747_561_509_943, 4_139_485_063_330_164_956,
    );
    lemma_digit(
        18_446_744_069_414_584_321, 7, 32_767, 4_139_485_063_330_164_956,
        (
            7_004_045_467_739_516_513,
            13_188_860_317_123_042_296,
            14_978_243_134_256_085_614,
            504_106_664_528_929_211,
        ),
        15, 4_747_561_509_943, 10_086_585_273_483_141_421,
    );
    lemma_digit(
        18_446_744_069_414_584_321, 7, 524_287, 10_086_585_273_483_141_421,
        (
            5_535_602_650_859_329_748,
            17_016_902_545_299_479_173,
            3_941_918_757_407_871_560,
            16_988_070_317_077_817_661,
        ),
        15, 4_747_561_509_943, 5_901_922_255_895_126_089,
    );
    lemma_digit(
        18_446_744_069_414_584_321, 7, 8_388_607, 5_901_922_255_895_126_089,
        (
            9_182_212_999_444_825_067,
            10_148_926_125_096_136_866,
            9_234_036_530_116_021_871,
            15_148_944_764_067_927_138,
        ),
        15, 4_747_561_509_943, 2_063_617_152_444_052_883,
    );
    lemma_digit(
        18_446_744_069_414_584_321, 7, 134_217_727, 2_063_617_152_444_052_883,
        (
            4_501_656_151_559_876_649,
            3_060_090_586_408_831_420,
            12_661_137_367_304_934_775,
            11_672_011_831_892_705_463,
        ),
        15, 4_747_561_509_943, 15_659_105_665_374_529_263,
    );
    lemma_digit(
        18_446_744_069_414_584_321, 7, 2_147_483_647, 15_659_105_665_374_529_263,
        (
            16_062_014_221_418_238_814,
            6_117_602_980_015_322_041,
            12_573_093_049_467_970_121,
            11_036_547_574_591_026_610,
        ),
        8, 5_764_801, 16_116_352_524_544_190_054,
    );
    lemma_digit(
        18_446_744_069_414_584_321, 7, 34_359_738_360, 16_116_352_524_544_190_054,
        (
            6_414_415_596_519_834_757,
            1_213_594_585_890_690_845,
            17_096_174_751_763_063_430,
            5_456_943_929_260_765_144,
        ),
        0, 1, 5_456_943_929_260_765_144,
    );
    lemma_digit(
        18_446_744_069_414_584_321, 7, 549_755_813_760, 5_456_943_929_260_765_144,
        (
            9_713_644_485_405_565_297,
            16_905_767_614_792_059_275,
            5_416_168_637_041_100_469,
            17_654_865_857_378_133_588,
        ),
        0, 1, 17_654_865_857_378_133_588,
    );
    lemma_digit(
        18_446_744_069_414_584_321, 7, 8_796_093_020_160, 17_654_865_857_378_133_588,
        (
            3_511_170_319_078_647_661,
            18_146_160_046_829_613_826,
            9_306_717_745_644_682_924,
            12_380_578_893_860_276_750,
        ),
        0, 1, 12_380_578_893_860_276_750,
    );
    lemma_digit(
        18_446_744_069_414_584_321, 7, 140_737_488_322_560, 12_380_578_893_860_276_750,
        (
            6_115_771_955_107_415_310,
            17_776_499_369_601_055_404,
            16_207_902_636_198_568_418,
            1_532_612_707_718_625_687,
        ),
        0, 1, 1_532_612_707_718_625_687,
    );
    lemma_digit(
        18_446_744_069_414_584_321, 7, 2_251_799_813_160_960, 1_532_612_707_718_625_687,
        (
            17_492_915_097_719_143_606,
            455_906_449_640_507_599,
            11_353_340_290_879_379_826,
            1_803_076_106_186_727_246,
        ),
        0, 1, 1_803_076_106_186_727_246,
    );
    lemma_digit(
        18_446_744_069_414_584_321, 7, 36_028_797_010_575_360, 1_803_076_106_186_727_246,
        (
            13_797_081_185_216_407_910,
            17_870_292_113_338_400_769,
            549_755_813_888,
            70_368_744_161_280,
        ),
        0, 1, 70_368_744_161_280,
    );
    lemma_digit(
        18_446_744_069_414_584_321, 7, 576_460_752_169_205_760, 70_368_744_161_280,
        (
            17_293_822_564_807_737_345,
            18_446_744_069_397_807_105,
            281_474_976_710_656,
            18_446_744_069_414_584_320,
        ),
        0, 1, 18_446_744_069_414_584_320,
    );
    assert(4_294_967_295 * pow2(31) == 9_223_372_034_707_292_160);
    assert(4_294_967_295 * pow2(32) + 1 == 18_446_744_069_414_584_321);
    lemma_proth(18_446_744_069_414_584_321, 4_294_967_295, 32, 7);
}

/// 18_446_744_073_709_551_521 is a prime.
pub proof fn lemma_prime_18446744073709551521()
    ensures
        is_prime(18_446_744_073_709_551_521),
{
    lemma_powers_of_2();
    lemma_prime_43294085790719();
    lemma_digit(18_446_744_073_709_551_521, 2, 0, 1, (1, 1, 1, 1), 15, 32_768, 32_768);
    lemma_digit(
        18_446_744_073_709_551_521, 2, 15, 32_768,
        (
            1_073_741_824,
            1_152_921_504_606_846_976,
            6_845_471_433_603_153_920,
            1_521_935_199_074_518_227,
        ),
        15, 32_768, 9_223_372_036_895_501_073,
    );
    lemma_digit(
        18_446_744_073_709_551_521, 2, 255, 9_223_372_036_895_501_073,
        (
            13_836_716_606_360_386_297,
            4_912_210_886_561_590_969,
            10_133_076_540_292_500_765,
            18_173_815_988_732_172_160,
        ),
        15, 32_768, 3_363_387_210_365_586_437,
    );
    lemma_digit(
        18_446_744_073_709_551_521, 2, 4095, 3_363_387_210_365_586_437,
        (
            15_219_555_407_740_828_661,
            13_551_753_055_793_569_638,
            14_615_711_101_413_779_398,
            8_708_501_413_774_918_362,
        ),
        15, 32_768, 7_490_250_363_472_407_667,
    );
    lemma_digit(
        18_446_744_073_709_551_521, 2, 65_535, 7_490_250_363_472_407_667,
        (
            13_987_467_328_224_211_159,
            11_122_106_727_771_828_180,
            12_171_654_593_416_156_432,
            5_590_304_131_992_393_594,
        ),
        15, 32_768, 6_917_145_190_906_684_662,
    );
    lemma_digit(
        18_446_744_073_709_551_521, 2, 1_048_575, 6_917_145_190_906_684_662,
        (
            18_242_252_198_642_223_225,
            4_857_910_839_964_777_999,
            614_638_916_753_085_618,
            993_630_312_455_760_398,
        ),
        15, 32_768, 774_788_452_998_287_099,
    );
    lemma_digit(
        18_446_744_073_709_551_521, 2, 16_777_215, 774_788_452_998_287_099,
        (
            17_745_293_486_832_829_509,
            14_961_060_590_898_772_437,
            9_686_609_753_773_998_941,
            18_397_339_293_320_296_728,
        ),
        15, 32_768, 4_417_634_691_339_476_824,
    );
    lemma_digit(
        18_446_744_073_709_551_521, 2, 268_435_455, 4_417_634_691_339_476_824,
        (
            12_080_428_692_918_234_252,
            16_313_387_299_568_812_488,
            12_172_989_675_961_147_121,
            2_568_325_335_769_757_383,
        ),
        15, 32_768, 4_838_138_240_435_887_342,
    );
    lemma_digit(
        18_446_744_073_709_551_521, 2, 4_294_967_295, 4_838_138_240_435_887_342,
        (
            301_553_139_819_277_127,
            672_880_869_323_598_314,
            3_256_904_390_445_660_925,
            17_639_116_335_626_226_354,
        ),
        15, 32_768, 6_732_024_258_807_360_379,
    );
    lemma_digit(
        18_446_744_073_709_551_521, 2, 68_719_476_735, 6_732_024_258_807_360_379,
        (
            16_187_526_840_891_446_067,
            10_411_398_717_449_592_498,
            2_601_112_477_456_992_982,
            12_740_993_018_195_280_001,
        ),
        15, 32_768, 10_147_344_028_365_049_496,
    );
    lemma_digit(
        18_446_744_073_709_551_521, 2, 1_099_511_627_775, 10_147_344_028_365_049_496,
        (
            9_258_879_567_896_304_432,
            15_895_750_013_341_260_826,
            2_063_384_911_085_281_879,
            1_873_595_412_647_908_694,
        ),
        15, 32_768, 3_210_204_341_284_623_104,
    );
    lemma_digit(
        18_446_744_073_709_551_521, 2, 17_592_186_044_415, 3_210_204_341_284_623_104,
        (
            16_737_595_720_719_658_640,
            895_015_651_716_942_822,
            7_319_585_033_994_897_664,
            14_181_006_894_851_086_297,
        ),
        15, 32_768, 9_750_713_736_792_966_106,
    );
    lemma_digit(
        18_446_744_073_709_551_521, 2, 281_474_976_710_655, 9_750_713_736_792_966_106,
        (
            12_453_749_644_821_157_076,
            11_760_692_083_720_748_776,
            5_487_303_154_701_807_877,
            12_522_756_672_546_347_216,
        ),
        15, 32_768, 16_315_470_403_441_540_764,
    );
    lemma_digit(
        18_446_744_073_709_551_521, 2, 4_503_599_627_370_495, 16_315_470_403_441_540_764,
        (
            4_849_538_745_335_732_375,
            14_965_451_955_962_493_503,
            110_077_525_685_341_313,
            17_395_248_986_945_967_181,
        ),
        15, 32_768, 3_126_926_620_310_588_108,
    );
    lemma_digit(
        18_446_744_073_709_551_521, 2, 72_057_594_037_927_935, 3_126_926_620_310_588_108,
        (
            5_338_782_328_537_052_009,
            13_245_802_601_481_301_084,
            3_887_911_402_673_748_756,
            1_747_396_655_419_752_439,
        ),
        10, 1024, 18_446_744_073_709_551_520,
    );
    lemma_digit(
        18_446_744_073_709_551_521, 2, 1_152_921_504_606_846_970, 18_446_744_073_709_551_520,
        (1, 1, 1, 1),
        0, 1, 1,
    );
    lemma_digit(18_446_744_073_709_551_521, 2, 0, 1, (1, 1, 1, 1), 6, 64, 64);
    lemma_digit(
        18_446_744_073_709_551_521, 2, 6, 64,
        (4096, 16_777_216, 281_474_976_710_656, 408_021_893_120),
        8, 256, 104_453_604_638_720,
    );
    lemma_digit(
        18_446_744_073_709_551_521, 2, 104, 104_453_604_638_720,
        (
            56_188_928_000,
            2_802_393_184_850_689_909,
            177_077_139_086_770_382,
            1_269_118_172_701_160_155,
        ),
        0, 1, 1_269_118_172_701_160_155,
    );
    lemma_digit(
        18_446_744_073_709_551_521, 2, 1664, 1_269_118_172_701_160_155,
        (
            3_942_214_999_501_542_568,
            4_157_017_356_492_149_164,
            1_920_619_465_155_290_279,
            4_413_798_020_843_085_788,
        ),
        6, 64, 5_781_912_228_314_217_617,
    );
    lemma_digit(
        18_446_744_073_709_551_521, 2, 26_630, 5_781_912_228_314_217_617,
        (
            1_321_453_689_917_261_028,
            4_685_646_562_263_193_975,
            16_849_132_400_703_330_836,
            4_128_242_704_871_185_060,
        ),
        0, 1, 4_128_242_704_871_185_060,
    );
    lemma_inverse(18_446_744_073_709_551_521, pow(2, 426_080), 4_128_242_704_871_185_060, 6_605_548_094_294_086_161);
    lemma_pocklington(18_446_744_073_709_551_521, 2, 43_294_085_790_719, 6_605_548_094_294_086_161);
}

/// 18_446_744_073_709_551_533 is a prime.
pub proof fn lemma_prime_18446744073709551533()
    ensures
        is_prime(18_446_744_073_709_551_533),
{
    lemma_powers_of_2();
    lemma_prime_10247197();
    lemma_prime_809383();
    lemma_digit(18_446_744_073_709_551_533, 2, 0, 1, (1, 1, 1, 1), 15, 32_768, 32_768);
    lemma_digit(
        18_446_744_073_709_551_533, 2, 15, 32_768,
        (
            1_073_741_824,
            1_152_921_504_606_846_976,
            5_980_780_305_148_018_688,
            13_369_779_918_779_450_008,
        ),
        15, 32_768, 9_223_372_036_878_504_927,
    );
    lemma_digit(
        18_446_744_073_709_551_533, 2, 255, 9_223_372_036_878_504_927,
        (
            13_835_621_128_340_198_410,
            10_050_315_422_335_106_564,
            10_074_246_884_696_864_962,
            5_936_240_653_271_720_395,
        ),
        15, 32_768, 16_264_213_214_222_539_408,
    );
    lemma_digit(
        18_446_744_073_709_551_533, 2, 4095, 16_264_213_214_222_539_408,
        (
            2_398_173_637_699_113_442,
            15_143_259_353_180_113_074,
            7_816_663_738_459_831_474,
            17_755_924_534_724_729_926,
        ),
        15, 32_768, 15_827_069_060_694_864_348,
    );
    lemma_digit(
        18_446_744_073_709_551_533, 2, 65_535, 15_827_069_060_694_864_348,
        (
            18_081_519_310_965_739_654,
            15_108_863_937_835_919_882,
            8_147_643_349_539_706_998,
            10_033_174_393_287_797_130,
        ),
        15, 32_768, 9_185_637_602_908_934_714,
    );
    lemma_digit(
        18_446_744_073_709_551_533, 2, 1_048_575, 9_185_637_602_908_934_714,
        (
            18_140_474_241_694_331_455,
            14_547_512_930_275_574_312,
            333_797_697_851_748_547,
            4_746_346_213_765_087_692,
        ),
        15, 32_768, 3_773_447_209_164_516_733,
    );
    lemma_digit(
        18_446_744_073_709_551_533, 2, 16_777_215, 3_773_447_209_164_516_733,
        (
            1_606_581_821_148_929_272,
            1_610_433_420_394_239_461,
            8_762_419_076_814_509_492,
            14_478_828_419_832_425_761,
        ),
        15, 32_768, 10_438_829_332_971_459_221,
    );
    lemma_digit(
        18_446_744_073_709_551_533, 2, 268_435_455, 10_438_829_332_971_459_221,
        (
            4_231_651_117_872_882_111,
            7_396_777_548_354_572_318,
            1_726_299_956_537_770_113,
            4_266_766_672_258_738_025,
        ),
        15, 32_768, 5_536_981_929_636_534_593,
    );
    lemma_digit(
        18_446_744_073_709_551_533, 2, 4_294_967_295, 5_536_981_929_636_534_593,
        (
            15_465_983_681_341_440_091,
            11_130_587_185_902_939_998,
            15_735_416_763_502_027_106,
            12_558_328_149_802_970_706,
        ),
        15, 32_768, 1_330_016_431_068_496_044,
    );
    lemma_digit(
        18_446_744_073_709_551_533, 2, 68_719_476_735, 1_330_016_431_068_496_044,
        (
            15_708_323_017_458_186_843,
            13_654_547_903_656_277_204,
            18_394_978_351_195_434_359,
            782_547_531_000_285_478,
        ),
        15, 32_768, 1_543_233_361_077_912_234,
    );
    lemma_digit(
        18_446_744_073_709_551_533, 2, 1_099_511_627_775, 1_543_233_361_077_912_234,
        (
            18_327_063_615_407_693_152,
            10_729_779_873_461_194_239,
            5_318_493_042_659_921_833,
            14_163_631_354_605_644_856,
        ),
        15, 32_768, 12_238_077_259_163_622_661,
    );
    lemma_digit(
        18_446_744_073_709_551_533, 2, 17_592_186_044_415, 12_238_077_259_163_622_661,
        (
            548_608_255_875_960_658,
            12_675_546_310_701_727_755,
            4_208_711_334_301_211_378,
            14_346_060_864_938_897_219,
        ),
        15, 32_768, 13_343_191_977_282_356_753,
    );
    lemma_digit(
        18_446_744_073_709_551_533, 2, 281_474_976_710_655, 13_343_191_977_282_356_753,
        (
            9_519_942_643_880_984_735,
            16_186_696_954_122_324_793,
            17_444_701_423_657_433_723,
            13_951_181_257_403_460_625,
        ),
        15, 32_768, 5_095_807_926_491_669_194,
    );
    lemma_digit(
        18_446_744_073_709_551_533, 2, 4_503_599_627_370_495, 5_095_807_926_491_669_194,
        (
            10_821_297_726_405_465_284,
            1_655_582_517_287_043_535,
            1_888_111_779_232_225_970,
            8_258_832_671_526_119_064,
        ),
        15, 32_768, 11_693_419_248_748_500_042,
    );
    lemma_digit(
        18_446_744_073_709_551_533, 2, 72_057_594_037_927_935, 11_693_419_248_748_500_042,
        (
            4_571_553_282_768_388_466,
            18_197_049_393_918_897_805,
            9_189_777_539_117_661_426,
            10_667_764_019_044_456_260,
        ),
        10, 1024, 3_317_863_865_468_702_704,
    );
    lemma_digit(
        18_446_744_073_709_551_533, 2, 1_152_921_504_606_846_970, 3_317_863_865_468_702_704,
        (
            14_362_917_320_941_843_943,
            13_571_128_422_452_323_503,
            10_664_523_917_613_334_480,
            4_445_052_832_214_679_532,
        ),
        12, 4096, 1,
    );
    lemma_digit(18_446_744_073_709_551_533, 2, 0, 1, (1, 1, 1, 1), 1, 2, 2);
    lemma_digit(18_446_744_073_709_551_533, 2, 1, 2, (4, 16, 256, 65_536), 10, 1024, 67_108_864);
    lemma_digit(
        18_446_744_073_709_551_533, 2, 26, 67_108_864,
        (4_503_599_627_370_496, 91_259_465_105_408, 37_472_632_832, 2_245_661_759_958_423_716),
        3, 8, 17_965_294_079_667_389_728,
    );
    lemma_digit(
        18_446_744_073_709_551_533, 2, 419, 17_965_294_079_667_389_728,
        (
            10_294_856_221_258_093_260,
            7_702_814_657_795_546_299,
            12_032_232_699_609_210_629,
            10_418_519_662_518_460_957,
        ),
        2, 4, 4_780_590_502_654_740_762,
    );
    lemma_digit(
        18_446_744_073_709_551_533, 2, 6706, 4_780_590_502_654_740_762,
        (
            12_844_229_533_626_509_925,
            12_078_715_160_935_705_989,
            12_858_785_856_863_836_194,
            130_481_692_466_827_354,
        ),
        2, 4, 521_926_769_867_309_416,
    );
    lemma_digit(
        18_446_744_073_709_551_533, 2, 107_298, 521_926_769_867_309_416,
        (
            9_060_010_813_180_569_972,
            5_120_348_574_102_567_920,
            5_099_020_856_875_260_381,
            2_804_714_926_390_592_514,
        ),
        12, 4096, 14_237_524_648_525_883_818,
    );
    lemma_digit(
        18_446_744_073_709_551_533, 2, 1_716_780, 14_237_524_648_525_883_818,
        (
            11_563_874_305_665_656_247,
            14_708_761_511_801_261_437,
            2_580_726_369_926_311_506,
            13_367_431_004_428_760_071,
        ),
        4, 16, 10_964_711_260_055_094_273,
    );
    lemma_digit(
        18_446_744_073_709_551_533, 2, 27_468_484, 10_964_711_260_055_094_273,
        (
            11_884_827_536_481_619_221,
            12_119_732_074_303_446_764,
            8_966_057_828_041_138_773,
            13_597_566_309_000_619_313,
        ),
        15, 32_768, 2_396_456_951_785_920_302,
    );
    lemma_digit(
        18_446_744_073_709_551_533, 2, 439_495_759, 2_396_456_951_785_920_302,
        (
            10_360_254_362_297_249_866,
            12_296_707_957_403_337_630,
            5_269_251_593_911_366_683,
            8_603_023_852_996_022_698,
        ),
        6, 64, 15_637_948_454_168_458_215,
    );
    lemma_digit(
        18_446_744_073_709_551_533, 2, 7_031_932_150, 15_637_948_454_168_458_215,
        (
            7_292_111_017_704_127_633,
            9_934_371_526_095_168_913,
            11_275_420_731_174_957_098,
            7_523_798_370_629_993_011,
        ),
        9, 512, 15_261_998_430_969_702_768,
    );
    lemma_digit(
        18_446_744_073_709_551_533, 2, 112_510_914_409, 15_261_998_430_969_702_768,
        (
            14_613_791_108_070_726_645,
            2_134_105_130_735_778_152,
            5_639_655_292_609_342_103,
            2_605_644_540_747_750_291,
        ),
        12, 4096, 10_501_964_298_664_405_862,
    );
    lemma_inverse(18_446_744_073_709_551_533, pow(2, 1_800_174_630_556), 10_501_964_298_664_405_862, 12_020_330_692_552_867_682);
    lemma_digit(18_446_744_073_709_551_533, 2, 0, 1, (1, 1, 1, 1), 1, 2, 2);
    lemma_digit(18_446_744_073_709_551_533, 2, 1, 2, (4, 16, 256, 65_536), 4, 16, 1_048_576);
    lemma_digit(
        18_446_744_073_709_551_533, 2, 20, 1_048_576,
        (1_099_511_627_776, 5_439_488, 29_588_029_702_144, 3_939_040_643),
        11, 2048, 8_067_155_236_864,
    );
    lemma_digit(
        18_446_744_073_709_551_533, 2, 331, 8_067_155_236_864,
        (
            5_775_003_458_418_774_009,
            7_680_987_287_474_104_303,
            11_629_206_644_834_353_548,
            17_217_501_852_878_482_139,
        ),
        10, 1024, 14_081_306_954_943_996_321,
    );
    lemma_digit(
        18_446_744_073_709_551_533, 2, 5306, 14_081_306_954_943_996_321,
        (
            11_070_502_640_891_701_205,
            11_240_033_437_222_460_355,
            7_862_111_296_687_658_263,
            3_861_754_433_861_503_203,
        ),
        7, 128, 14_689_221_617_824_070_126,
    );
    lemma_digit(
        18_446_744_073_709_551_533, 2, 84_903, 14_689_221_617_824_070_126,
        (
            2_324_212_530_195_035_496,
            11_196_915_089_015_400_813,
            8_655_546_676_698_031_275,
            1_879_185_301_170_806_620,
        ),
        8, 256, 1_456_091_183_278_154_862,
    );
    lemma_digit(
        18_446_744_073_709_551_533, 2, 1_358_456, 1_456_091_183_278_154_862,
        (
            18_035_191_024_714_397_645,
            9_634_564_434_028_449_916,
            17_934_267_030_097_531_659,
            6_258_934_540_897_395_713,
        ),
        8, 256, 15_867_252_130_711_870_690,
    );
    lemma_digit(
        18_446_744_073_709_551_533, 2, 21_735_304, 15_867_252_130_711_870_690,
        (
            1_500_477_907_883_076_871,
            1_529_596_019_687_336_376,
            2_746_792_007_660_789_660,
            1_709_665_406_004_800_327,
        ),
        9, 512, 8_351_716_410_108_845_373,
    );
    lemma_digit(
        18_446_744_073_709_551_533, 2, 347_764_873, 8_351_716_410_108_845_373,
        (
            3_108_771_088_019_482_224,
            3_810_278_590_175_507_171,
            2_925_277_565_510_685_306,
            15_740_618_173_462_869_778,
        ),
        10, 1024, 14_385_433_277_540_164_363,
    );
    lemma_digit(
        18_446_744_073_709_551_533, 2, 5_564_237_978, 14_385_433_277_540_164_363,
        (
            13_398_454_845_278_903_385,
            7_241_125_059_989_793_690,
            1_248_914_400_233_921_221,
            15_862_566_162_624_771_660,
        ),
        0, 1, 15_862_566_162_624_771_660,
    );
    lemma_digit(
        18_446_744_073_709_551_533, 2, 89_027_807_648, 15_862_566_162_624_771_660,
        (
            3_081_767_526_470_977_642,
            14_423_361_235_083_022_439,
            15_808_679_564_171_845_001,
            8_000_371_733_094_712_660,
        ),
        7, 128, 9_476_657_782_097_886_165,
    );
    lemma_digit(
        18_446_744_073_709_551_533, 2, 1_424_444_922_375, 9_476_657_782_097_886_165,
        (
            6_439_200_932_574_929_918,
            2_826_079_322_315_707_548,
            7_060_595_874_835_343_224,
            3_414_990_070_381_909_692,
        ),
        4, 16, 17_746_352_978_691_452_006,
    );
    lemma_inverse(18_446_744_073_709_551_533, pow(2, 22_791_118_758_004), 17_746_352_978_691_452_006, 5_937_395_809_906_474_298);
    lemma_pocklington_pair(
        18_446_744_073_709_551_533,
        2,
        10_247_197,
        12_020_330_692_552_867_682,
        809_383,
        5_937_395_809_906_474_298,
    );
}

/// 18_446_744_073_709_551_557 is a prime.
pub proof fn lemma_prime_18446744073709551557()
    ensures
        is_prime(18_446_744_073_709_551_557),
{
    lemma_powers_of_2();
    lemma_prime_5594472617641();
    lemma_digit(18_446_744_073_709_551_557, 2, 0, 1, (1, 1, 1, 1), 15, 32_768, 32_768);
    lemma_digit(
        18_446_744_073_709_551_557, 2, 15, 32_768,
        (
            1_073_741_824,
            1_152_921_504_606_846_976,
            4_251_398_048_237_748_224,
            2_468_817_020_729_163_953,
        ),
        15, 32_768, 9_223_372_036_860_834_459,
    );
    lemma_digit(
        18_446_744_073_709_551_557, 2, 255, 9_223_372_036_860_834_459,
        (
            13_835_094_762_891_564_748,
            9_324_404_851_459_122_819,
            3_924_159_923_041_813_042,
            2_671_299_550_264_515_525,
        ),
        15, 32_768, 3_343_033_315_822_585_235,
    );
    lemma_digit(
        18_446_744_073_709_551_557, 2, 4095, 3_343_033_315_822_585_235,
        (
            1_769_877_772_898_103_708,
            4_366_105_073_903_396_208,
            18_273_405_422_850_166_303,
            11_206_251_183_038_943_832,
        ),
        15, 32_768, 5_551_234_557_778_193_334,
    );
    lemma_digit(
        18_446_744_073_709_551_557, 2, 65_535, 5_551_234_557_778_193_334,
        (
            17_918_740_325_367_301_161,
            4_773_837_869_465_431_091,
            10_208_600_086_332_917_145,
            8_990_114_436_581_155_560,
        ),
        15, 32_768, 12_013_744_823_476_576_347,
    );
    lemma_digit(
        18_446_744_073_709_551_557, 2, 1_048_575, 12_013_744_823_476_576_347,
        (
            8_932_770_450_280_467_366,
            9_841_943_747_353_962_516,
            955_023_972_884_202_594,
            4_492_261_434_741_577_798,
        ),
        15, 32_768, 15_851_729_483_509_411_561,
    );
    lemma_digit(
        18_446_744_073_709_551_557, 2, 16_777_215, 15_851_729_483_509_411_561,
        (
            5_869_667_817_449_081_803,
            1_894_371_363_447_459_956,
            16_169_431_098_683_173_581,
            7_130_426_083_697_226_807,
        ),
        15, 32_768, 3_341_472_985_547_990_814,
    );
    lemma_digit(
        18_446_744_073_709_551_557, 2, 268_435_455, 3_341_472_985_547_990_814,
        (
            11_485_852_074_649_910_077,
            354_442_137_573_473_752,
            12_069_008_065_566_212_721,
            11_699_641_831_755_983_421,
        ),
        15, 32_768, 13_628_203_148_164_281_754,
    );
    lemma_digit(
        18_446_744_073_709_551_557, 2, 4_294_967_295, 13_628_203_148_164_281_754,
        (
            11_281_956_556_071_968_480,
            16_822_887_528_341_493_840,
            12_041_565_128_507_567_820,
            9_113_059_142_620_474_183,
        ),
        15, 32_768, 828_920_177_477_423_828,
    );
    lemma_digit(
        18_446_744_073_709_551_557, 2, 68_719_476_735, 828_920_177_477_423_828,
        (
            8_350_390_225_731_980_898,
            1_269_209_050_074_312_059,
            6_304_619_458_608_696_787,
            11_910_780_085_353_522_045,
        ),
        15, 32_768, 14_677_469_391_228_079_111,
    );
    lemma_digit(
        18_446_744_073_709_551_557, 2, 1_099_511_627_775, 14_677_469_391_228_079_111,
        (
            16_518_100_287_980_948_598,
            16_579_350_095_978_193_623,
            6_102_394_859_171_343_025,
            6_948_883_135_166_866_077,
        ),
        15, 32_768, 12_840_471_350_872_743_085,
    );
    lemma_digit(
        18_446_744_073_709_551_557, 2, 17_592_186_044_415, 12_840_471_350_872_743_085,
        (
            11_675_204_646_244_283_644,
            17_999_831_914_585_743_571,
            5_126_433_154_358_762_094,
            11_618_580_768_940_233_932,
        ),
        15, 32_768, 13_750_443_415_860_450_410,
    );
    lemma_digit(
        18_446_744_073_709_551_557, 2, 281_474_976_710_655, 13_750_443_415_860_450_410,
        (
            2_227_468_768_633_979_414,
            2_363_643_984_063_902_104,
            8_003_735_663_451_251_540,
            5_001_498_613_042_639_314,
        ),
        15, 32_768, 8_232_201_345_549_008_764,
    );
    lemma_digit(
        18_446_744_073_709_551_557, 2, 4_503_599_627_370_495, 8_232_201_345_549_008_764,
        (
            3_631_281_814_852_421_843,
            14_540_684_570_057_230_292,
            2_027_484_197_132_423_609,
            8_930_946_121_162_169_866,
        ),
        15, 32_768, 10_094_512_913_656_268_840,
    );
    lemma_digit(
        18_446_744_073_709_551_557, 2, 72_057_594_037_927_935, 10_094_512_913_656_268_840,
        (
            7_860_816_477_920_010_818,
            17_787_426_740_110_265_588,
            5_603_525_213_613_496_986,
            694_751_721_844_432_449,
        ),
        12, 4096, 4_904_465_323_524_371_326,
    );
    lemma_digit(
        18_446_744_073_709_551_557, 2, 1_152_921_504_606_846_972, 4_904_465_323_524_371_326,
        (
            17_298_733_141_679_259_386,
            10_371_382_968_885_067_949,
            4_611_686_018_427_387_889,
            3_458_764_513_820_540_917,
        ),
        4, 16, 1,
    );
    lemma_digit(18_446_744_073_709_551_557, 2, 0, 1, (1, 1, 1, 1), 3, 8, 8);
    lemma_digit(
        18_446_744_073_709_551_557, 2, 3, 8,
        (64, 4096, 16_777_216, 281_474_976_710_656),
        2, 4, 1_125_899_906_842_624,
    );
    lemma_digit(
        18_446_744_073_709_551_557, 2, 50, 1_125_899_906_842_624,
        (4_054_449_127_424, 52_577_024, 2_764_343_452_696_576, 248_799_190_130_445_444),
        5, 32, 7_961_574_084_174_254_208,
    );
    lemma_digit(
        18_446_744_073_709_551_557, 2, 805, 7_961_574_084_174_254_208,
        (
            18_236_870_514_628_348_699,
            15_207_024_341_622_358_901,
            10_692_998_876_667_082_725,
            3_199_590_993_540_181_000,
        ),
        0, 1, 3_199_590_993_540_181_000,
    );
    lemma_digit(
        18_446_744_073_709_551_557, 2, 12_880, 3_199_590_993_540_181_000,
        (
            11_075_302_503_556_232_453,
            15_945_028_504_836_738_021,
            17_085_842_822_743_485_717,
            14_317_407_125_556_647_726,
        ),
        2, 4, 1_929_396_281_097_936_233,
    );
    lemma_digit(
        18_446_744_073_709_551_557, 2, 206_082, 1_929_396_281_097_936_233,
        (
            12_498_645_655_068_347_334,
            3_693_579_951_573_680_582,
            3_379_716_844_818_882_124,
            9_941_685_627_233_493_717,
        ),
        4, 16, 11_493_017_446_059_487_016,
    );
    lemma_inverse(18_446_744_073_709_551_557, pow(2, 3_297_316), 11_493_017_446_059_487_016, 1_898_613_474_652_435_203);
    lemma_pocklington(18_446_744_073_709_551_557, 2, 5_594_472_617_641, 1_898_613_474_652_435_203);
}

} // verus!
