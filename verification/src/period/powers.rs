//! Powers of the multiplier, computed by squaring and multiplying.
//!
//! These are the powers that decide the order of the multiplier: the ones
//! whose exponent is the period divided by one of its prime factors.

use super::{lemma_power_add, power, state_after};
use vstd::prelude::*;

verus! {

/// The powers whose exponents are the powers of two, each the square of the
/// one before it.
proof fn lemma_power_of_two_powers()
    ensures
        power(1) == 16807,
        power(2) == 282475249,
        power(4) == 984943658,
        power(8) == 1457850878,
        power(16) == 1137522503,
        power(32) == 1636807826,
        power(64) == 685118024,
        power(128) == 515204530,
        power(256) == 897054849,
        power(512) == 2038299453,
        power(1024) == 1836275591,
        power(2048) == 349037107,
        power(4096) == 149796865,
        power(8192) == 1186652285,
        power(16384) == 2106880871,
        power(32768) == 877809922,
        power(65536) == 1682791109,
        power(131072) == 1900685356,
        power(262144) == 2080563572,
        power(524288) == 612544882,
        power(1048576) == 1295048709,
        power(2097152) == 1987420232,
        power(4194304) == 868966365,
        power(8388608) == 1331238991,
        power(16777216) == 1550655590,
        power(33554432) == 766698560,
        power(67108864) == 1154667137,
        power(134217728) == 901595110,
        power(268435456) == 1008653149,
        power(536870912) == 1821072732,
        power(1073741824) == 2147466840,
{
    assert(power(1) == 16807) by {
        reveal_with_fuel(state_after, 2);
    }
    lemma_power_add(1, 1);
    assert(power(2) == 282475249);
    lemma_power_add(2, 2);
    assert(power(4) == 984943658);
    lemma_power_add(4, 4);
    assert(power(8) == 1457850878);
    lemma_power_add(8, 8);
    assert(power(16) == 1137522503);
    lemma_power_add(16, 16);
    assert(power(32) == 1636807826);
    lemma_power_add(32, 32);
    assert(power(64) == 685118024);
    lemma_power_add(64, 64);
    assert(power(128) == 515204530);
    lemma_power_add(128, 128);
    assert(power(256) == 897054849);
    lemma_power_add(256, 256);
    assert(power(512) == 2038299453);
    lemma_power_add(512, 512);
    assert(power(1024) == 1836275591);
    lemma_power_add(1024, 1024);
    assert(power(2048) == 349037107);
    lemma_power_add(2048, 2048);
    assert(power(4096) == 149796865);
    lemma_power_add(4096, 4096);
    assert(power(8192) == 1186652285);
    lemma_power_add(8192, 8192);
    assert(power(16384) == 2106880871);
    lemma_power_add(16384, 16384);
    assert(power(32768) == 877809922);
    lemma_power_add(32768, 32768);
    assert(power(65536) == 1682791109);
    lemma_power_add(65536, 65536);
    assert(power(131072) == 1900685356);
    lemma_power_add(131072, 131072);
    assert(power(262144) == 2080563572);
    lemma_power_add(262144, 262144);
    assert(power(524288) == 612544882);
    lemma_power_add(524288, 524288);
    assert(power(1048576) == 1295048709);
    lemma_power_add(1048576, 1048576);
    assert(power(2097152) == 1987420232);
    lemma_power_add(2097152, 2097152);
    assert(power(4194304) == 868966365);
    lemma_power_add(4194304, 4194304);
    assert(power(8388608) == 1331238991);
    lemma_power_add(8388608, 8388608);
    assert(power(16777216) == 1550655590);
    lemma_power_add(16777216, 16777216);
    assert(power(33554432) == 766698560);
    lemma_power_add(33554432, 33554432);
    assert(power(67108864) == 1154667137);
    lemma_power_add(67108864, 67108864);
    assert(power(134217728) == 901595110);
    lemma_power_add(134217728, 134217728);
    assert(power(268435456) == 1008653149);
    lemma_power_add(268435456, 268435456);
    assert(power(536870912) == 1821072732);
    lemma_power_add(536870912, 536870912);
    assert(power(1073741824) == 2147466840);
}

/// The power whose exponent is the period divided by 2.
pub(super) proof fn lemma_power_of_period_over_2()
    ensures
        power(1073741823) == 2147483646,
{
    lemma_power_of_two_powers();
    lemma_power_add(1, 2);
    assert(power(3) == 1622650073);
    lemma_power_add(3, 4);
    assert(power(7) == 101027544);
    lemma_power_add(7, 8);
    assert(power(15) == 114807987);
    lemma_power_add(15, 16);
    assert(power(31) == 1954899097);
    lemma_power_add(31, 32);
    assert(power(63) == 1108728549);
    lemma_power_add(63, 64);
    assert(power(127) == 2014119113);
    lemma_power_add(127, 128);
    assert(power(255) == 685428651);
    lemma_power_add(255, 256);
    assert(power(511) == 268317158);
    lemma_power_add(511, 512);
    assert(power(1023) == 754609818);
    lemma_power_add(1023, 1024);
    assert(power(2047) == 994734886);
    lemma_power_add(2047, 2048);
    assert(power(4095) == 1083014291);
    lemma_power_add(4095, 4096);
    assert(power(8191) == 1655627552);
    lemma_power_add(8191, 8192);
    assert(power(16383) == 1181132756);
    lemma_power_add(16383, 16384);
    assert(power(32767) == 1079224412);
    lemma_power_add(32767, 32768);
    assert(power(65535) == 816826219);
    lemma_power_add(65535, 65536);
    assert(power(131071) == 817222503);
    lemma_power_add(131071, 131072);
    assert(power(262143) == 103492285);
    lemma_power_add(262143, 262144);
    assert(power(524287) == 596864917);
    lemma_power_add(524287, 524288);
    assert(power(1048575) == 1872592842);
    lemma_power_add(1048575, 1048576);
    assert(power(2097151) == 2031328313);
    lemma_power_add(2097151, 2097152);
    assert(power(4194303) == 1799481238);
    lemma_power_add(4194303, 4194304);
    assert(power(8388607) == 1043219357);
    lemma_power_add(8388607, 8388608);
    assert(power(16777215) == 566127400);
    lemma_power_add(16777215, 16777216);
    assert(power(33554431) == 1470714790);
    lemma_power_add(33554431, 33554432);
    assert(power(67108863) == 797756594);
    lemma_power_add(67108863, 67108864);
    assert(power(134217727) == 1098008483);
    lemma_power_add(134217727, 134217728);
    assert(power(268435455) == 706645637);
    lemma_power_add(268435455, 268435456);
    assert(power(536870911) == 1877990613);
    lemma_power_add(536870911, 536870912);
    assert(power(1073741823) == 2147483646);
}

/// The power whose exponent is the period divided by 3.
pub(super) proof fn lemma_power_of_period_over_3()
    ensures
        power(715827882) == 634005911,
{
    lemma_power_of_two_powers();
    lemma_power_add(2, 8);
    assert(power(10) == 2007237709);
    lemma_power_add(10, 32);
    assert(power(42) == 2110010672);
    lemma_power_add(42, 128);
    assert(power(170) == 881140534);
    lemma_power_add(170, 512);
    assert(power(682) == 1987502657);
    lemma_power_add(682, 2048);
    assert(power(2730) == 1656394764);
    lemma_power_add(2730, 8192);
    assert(power(10922) == 99284761);
    lemma_power_add(10922, 32768);
    assert(power(43690) == 544348633);
    lemma_power_add(43690, 131072);
    assert(power(174762) == 1175969859);
    lemma_power_add(174762, 524288);
    assert(power(699050) == 448035156);
    lemma_power_add(699050, 2097152);
    assert(power(2796202) == 313625057);
    lemma_power_add(2796202, 8388608);
    assert(power(11184810) == 1401305734);
    lemma_power_add(11184810, 33554432);
    assert(power(44739242) == 1252779437);
    lemma_power_add(44739242, 134217728);
    assert(power(178956970) == 1695056031);
    lemma_power_add(178956970, 536870912);
    assert(power(715827882) == 634005911);
}

/// The power whose exponent is the period divided by 7.
pub(super) proof fn lemma_power_of_period_over_7()
    ensures
        power(306783378) == 1600955193,
{
    lemma_power_of_two_powers();
    lemma_power_add(2, 16);
    assert(power(18) == 16531729);
    lemma_power_add(18, 128);
    assert(power(146) == 877819790);
    lemma_power_add(146, 1024);
    assert(power(1170) == 1973792143);
    lemma_power_add(1170, 8192);
    assert(power(9362) == 1588280530);
    lemma_power_add(9362, 65536);
    assert(power(74898) == 713072451);
    lemma_power_add(74898, 524288);
    assert(power(599186) == 864669998);
    lemma_power_add(599186, 4194304);
    assert(power(4793490) == 1089368889);
    lemma_power_add(4793490, 33554432);
    assert(power(38347922) == 1410082339);
    lemma_power_add(38347922, 268435456);
    assert(power(306783378) == 1600955193);
}

/// The power whose exponent is the period divided by 11.
pub(super) proof fn lemma_power_of_period_over_11()
    ensures
        power(195225786) == 298192073,
{
    lemma_power_of_two_powers();
    lemma_power_add(2, 8);
    assert(power(10) == 2007237709);
    lemma_power_add(10, 16);
    assert(power(26) == 1131570933);
    lemma_power_add(26, 32);
    assert(power(58) == 1927702196);
    lemma_power_add(58, 128);
    assert(power(186) == 462242385);
    lemma_power_add(186, 2048);
    assert(power(2234) == 621222764);
    lemma_power_add(2234, 8192);
    assert(power(10426) == 1432671743);
    lemma_power_add(10426, 16384);
    assert(power(26810) == 904341801);
    lemma_power_add(26810, 32768);
    assert(power(59578) == 687791678);
    lemma_power_add(59578, 131072);
    assert(power(190650) == 515678993);
    lemma_power_add(190650, 2097152);
    assert(power(2287802) == 70230534);
    lemma_power_add(2287802, 8388608);
    assert(power(10676410) == 1922162627);
    lemma_power_add(10676410, 16777216);
    assert(power(27453626) == 249105855);
    lemma_power_add(27453626, 33554432);
    assert(power(61008058) == 765237990);
    lemma_power_add(61008058, 134217728);
    assert(power(195225786) == 298192073);
}

/// The power whose exponent is the period divided by 31.
pub(super) proof fn lemma_power_of_period_over_31()
    ensures
        power(69273666) == 16384,
{
    lemma_power_of_two_powers();
    lemma_power_add(2, 64);
    assert(power(66) == 1060806853);
    lemma_power_add(66, 2048);
    assert(power(2114) == 111398400);
    lemma_power_add(2114, 65536);
    assert(power(67650) == 766345775);
    lemma_power_add(67650, 2097152);
    assert(power(2164802) == 501934855);
    lemma_power_add(2164802, 67108864);
    assert(power(69273666) == 16384);
}

/// The power whose exponent is the period divided by 151.
pub(super) proof fn lemma_power_of_period_over_151()
    ensures
        power(14221746) == 1013763951,
{
    lemma_power_of_two_powers();
    lemma_power_add(2, 16);
    assert(power(18) == 16531729);
    lemma_power_add(18, 32);
    assert(power(50) == 937186357);
    lemma_power_add(50, 128);
    assert(power(178) == 290145159);
    lemma_power_add(178, 256);
    assert(power(434) == 2119315080);
    lemma_power_add(434, 65536);
    assert(power(65970) == 461253127);
    lemma_power_add(65970, 524288);
    assert(power(590258) == 1419975727);
    lemma_power_add(590258, 1048576);
    assert(power(1638834) == 2125667626);
    lemma_power_add(1638834, 4194304);
    assert(power(5833138) == 168128469);
    lemma_power_add(5833138, 8388608);
    assert(power(14221746) == 1013763951);
}

/// The power whose exponent is the period divided by 331.
pub(super) proof fn lemma_power_of_period_over_331()
    ensures
        power(6487866) == 759513457,
{
    lemma_power_of_two_powers();
    lemma_power_add(2, 8);
    assert(power(10) == 2007237709);
    lemma_power_add(10, 16);
    assert(power(26) == 1131570933);
    lemma_power_add(26, 32);
    assert(power(58) == 1927702196);
    lemma_power_add(58, 256);
    assert(power(314) == 1262696576);
    lemma_power_add(314, 512);
    assert(power(826) == 895063368);
    lemma_power_add(826, 1024);
    assert(power(1850) == 2028965134);
    lemma_power_add(1850, 2048);
    assert(power(3898) == 840788275);
    lemma_power_add(3898, 4096);
    assert(power(7994) == 1433401925);
    lemma_power_add(7994, 8192);
    assert(power(16186) == 369200414);
    lemma_power_add(16186, 16384);
    assert(power(32570) == 1576225411);
    lemma_power_add(32570, 32768);
    assert(power(65338) == 1456949660);
    lemma_power_add(65338, 131072);
    assert(power(196410) == 7693700);
    lemma_power_add(196410, 2097152);
    assert(power(2293562) == 1043837591);
    lemma_power_add(2293562, 4194304);
    assert(power(6487866) == 759513457);
}

} // verus!
