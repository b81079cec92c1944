//! The integer definitions behind the `ln`/`exp` pipeline at the internal
//! 62-bit scale, and the interval bounds that keep every intermediate of
//! the pipeline inside `i128`.
//!
//! The pipeline is specified bit-exactly: what the kernel returns is
//! exactly these definitions, so host and guest builds agree to the bit.

use vstd::prelude::*;
use vstd::arithmetic::power2::pow2;

verus! {

/// `2^62`, the unit of the internal scale.
pub open spec fn one_62() -> int {
    0x4000_0000_0000_0000
}

/// `round(ln(2) · 2^62)`.
pub open spec fn ln2_62() -> int {
    3_196_577_161_300_663_915
}

/// `round(2^62 / sqrt(2))`.
pub open spec fn sqrt2_half_62() -> int {
    3_260_954_456_333_195_553
}

/// Taylor coefficients of `exp(-s)`: `(-1)^i · round(2^62 / i!)`.
pub open spec fn exp_coeff(i: int) -> int {
    if i == 0 { 4_611_686_018_427_387_904 }
    else if i == 1 { -4_611_686_018_427_387_904 }
    else if i == 2 { 2_305_843_009_213_693_952 }
    else if i == 3 { -768_614_336_404_564_651 }
    else if i == 4 { 192_153_584_101_141_163 }
    else if i == 5 { -38_430_716_820_228_233 }
    else if i == 6 { 6_405_119_470_038_039 }
    else if i == 7 { -915_017_067_148_291 }
    else if i == 8 { 114_377_133_393_536 }
    else if i == 9 { -12_708_570_377_060 }
    else if i == 10 { 1_270_857_037_706 }
    else if i == 11 { -115_532_457_973 }
    else if i == 12 { 9_627_704_831 }
    else if i == 13 { -740_592_679 }
    else if i == 14 { 52_899_477 }
    else if i == 15 { -3_526_632 }
    else if i == 16 { 220_414 }
    else if i == 17 { -12_966 }
    else if i == 18 { 720 }
    else { -38 }
}

/// Index of the last `exp` coefficient.
pub open spec fn exp_last() -> int {
    19
}

/// atanh series coefficients: `round(2^62 / (2i + 1))`.
pub open spec fn atanh_coeff(i: int) -> int {
    if i == 0 { 4_611_686_018_427_387_904 }
    else if i == 1 { 1_537_228_672_809_129_301 }
    else if i == 2 { 922_337_203_685_477_581 }
    else if i == 3 { 658_812_288_346_769_701 }
    else if i == 4 { 512_409_557_603_043_100 }
    else if i == 5 { 419_244_183_493_398_900 }
    else if i == 6 { 354_745_078_340_568_300 }
    else if i == 7 { 307_445_734_561_825_860 }
    else if i == 8 { 271_275_648_142_787_524 }
    else if i == 9 { 242_720_316_759_336_205 }
    else if i == 10 { 219_604_096_115_589_900 }
    else if i == 11 { 200_508_087_757_712_518 }
    else { 184_467_440_737_095_516 }
}

/// Index of the last atanh coefficient.
pub open spec fn atanh_last() -> int {
    12
}

/// Horner evaluation of the `exp` series from coefficient `i` on, each
/// step floored at the 62-bit scale: from `i = 0` it approximates
/// `2^62 · exp(-s / 2^62)` by the Taylor polynomial of degree 19.
pub open spec fn exp_horner(i: int, s: int) -> int
    decreases exp_last() - i,
{
    if i >= exp_last() {
        exp_coeff(exp_last())
    } else {
        exp_coeff(i) + exp_horner(i + 1, s) * s / one_62()
    }
}

/// Horner evaluation of the atanh series from coefficient `i` on: from
/// `i = 0` it approximates `2^62 · atanh(t) / t` by `Σ t^(2j) / (2j + 1)`
/// truncated after thirteen terms, with `u = t²` at the 62-bit scale.
pub open spec fn atanh_horner(i: int, u: int) -> int
    decreases atanh_last() - i,
{
    if i >= atanh_last() {
        atanh_coeff(atanh_last())
    } else {
        atanh_coeff(i) + atanh_horner(i + 1, u) * u / one_62()
    }
}

pub open spec fn min0(v: int) -> int {
    if v < 0 { v } else { 0 }
}

pub open spec fn max0(v: int) -> int {
    if v > 0 { v } else { 0 }
}

/// Largest reduced `exp` argument: `s < ln2`.
pub open spec fn s_max() -> int {
    ln2_62() - 1
}

/// Interval lower bound of [`exp_horner`] over `s in [0, s_max]`.
pub open spec fn exp_lo(i: int) -> int
    decreases exp_last() - i,
{
    if i >= exp_last() {
        exp_coeff(exp_last())
    } else {
        exp_coeff(i) + min0(exp_lo(i + 1) * s_max()) / one_62()
    }
}

/// Interval upper bound of [`exp_horner`] over `s in [0, s_max]`.
pub open spec fn exp_hi(i: int) -> int
    decreases exp_last() - i,
{
    if i >= exp_last() {
        exp_coeff(exp_last())
    } else {
        exp_coeff(i) + max0(exp_hi(i + 1) * s_max()) / one_62()
    }
}

/// Bound on `|t|` for the normalised mantissa, `|t| <= 0.1716 · 2^62`.
pub open spec fn t_max() -> int {
    791_240_229_949_381_499
}

/// Bound on `u = t² / 2^62`.
pub open spec fn u_max() -> int {
    135_755_361_268_901_093
}

/// Interval lower bound of [`atanh_horner`] over `u in [0, u_max]`.
pub open spec fn atanh_lo(i: int) -> int
    decreases atanh_last() - i,
{
    if i >= atanh_last() {
        atanh_coeff(atanh_last())
    } else {
        atanh_coeff(i) + min0(atanh_lo(i + 1) * u_max()) / one_62()
    }
}

/// Interval upper bound of [`atanh_horner`] over `u in [0, u_max]`.
pub open spec fn atanh_hi(i: int) -> int
    decreases atanh_last() - i,
{
    if i >= atanh_last() {
        atanh_coeff(atanh_last())
    } else {
        atanh_coeff(i) + max0(atanh_hi(i + 1) * u_max()) / one_62()
    }
}

/// Every Horner intermediate stays within `2^63` in magnitude.
pub open spec fn horner_magnitude() -> int {
    0x8000_0000_0000_0000
}

pub open spec fn exp_table_ok(i: int) -> bool {
    -horner_magnitude() <= exp_lo(i) && exp_hi(i) <= horner_magnitude()
}

pub open spec fn atanh_table_ok(i: int) -> bool {
    0 <= atanh_lo(i) && atanh_hi(i) <= horner_magnitude()
}

/// One Horner step moves an interval by the floored product bounds.
pub proof fn lemma_horner_step(acc: int, x: int, lo: int, hi: int, xmax: int)
    requires
        lo <= acc <= hi,
        0 <= x <= xmax,
    ensures
        min0(lo * xmax) <= acc * x <= max0(hi * xmax),
        min0(lo * xmax) / one_62() <= acc * x / one_62() <= max0(hi * xmax) / one_62(),
{
    assert(min0(lo * xmax) <= acc * x <= max0(hi * xmax)) by (nonlinear_arith)
        requires
            lo <= acc <= hi,
            0 <= x <= xmax,
            min0(lo * xmax) == (if lo * xmax < 0 { lo * xmax } else { 0 }),
            max0(hi * xmax) == (if hi * xmax > 0 { hi * xmax } else { 0 }),
    ;
    vstd::arithmetic::div_mod::lemma_div_is_ordered(min0(lo * xmax), acc * x, one_62());
    vstd::arithmetic::div_mod::lemma_div_is_ordered(acc * x, max0(hi * xmax), one_62());
}

/// The exp series stays inside its interval table.
pub proof fn lemma_exp_horner_bounds(i: int, s: int)
    requires
        0 <= i <= exp_last(),
        0 <= s <= s_max(),
    ensures
        exp_lo(i) <= exp_horner(i, s) <= exp_hi(i),
    decreases exp_last() - i,
{
    if i < exp_last() {
        lemma_exp_horner_bounds(i + 1, s);
        lemma_horner_step(exp_horner(i + 1, s), s, exp_lo(i + 1), exp_hi(i + 1), s_max());
    }
}

/// The atanh series stays inside its interval table.
pub proof fn lemma_atanh_horner_bounds(i: int, u: int)
    requires
        0 <= i <= atanh_last(),
        0 <= u <= u_max(),
    ensures
        atanh_lo(i) <= atanh_horner(i, u) <= atanh_hi(i),
    decreases atanh_last() - i,
{
    if i < atanh_last() {
        lemma_atanh_horner_bounds(i + 1, u);
        lemma_horner_step(atanh_horner(i + 1, u), u, atanh_lo(i + 1), atanh_hi(i + 1), u_max());
    }
}

/// The interval tables, evaluated.
pub proof fn lemma_tables()
    ensures
        forall|i: int| 0 <= i <= exp_last() ==> #[trigger] exp_table_ok(i),
        forall|i: int| 0 <= i <= atanh_last() ==> #[trigger] atanh_table_ok(i),
        0 <= exp_lo(0),
        exp_lo(0) == 1_415_108_857_126_723_990,
        exp_hi(0) <= one_62(),
        exp_hi(1) == -3_013_397_437_777_055_947,
        atanh_lo(0) == one_62(),
        atanh_hi(0) == 4_657_754_258_317_241_725,
        exp_lo(4) == 165_515_441_090_302_296,
        exp_hi(3) == -635_423_621_350_370_322,
        atanh_hi(1) == 1_564_964_033_890_176_904,
{
    assert(exp_lo(19) == -38) by { assert(exp_coeff(19) == -38); }
    assert(exp_hi(19) == -38) by { assert(exp_coeff(19) == -38); }
    assert(exp_lo(18) == 693) by {
        assert(exp_coeff(18) == 720);
        assert(exp_lo(19) * s_max() == -121469932129425228732);
        assert(min0(-121469932129425228732) / one_62() == -27);
    }
    assert(exp_hi(18) == 720) by {
        assert(exp_coeff(18) == 720);
        assert(exp_hi(19) * s_max() == -121469932129425228732);
        assert(max0(-121469932129425228732) / one_62() == 0);
    }
    assert(exp_lo(17) == -12966) by {
        assert(exp_coeff(17) == -12966);
        assert(exp_lo(18) * s_max() == 2215227972781360092402);
        assert(min0(2215227972781360092402) / one_62() == 0);
    }
    assert(exp_hi(17) == -12467) by {
        assert(exp_coeff(17) == -12966);
        assert(exp_hi(18) * s_max() == 2301535556136478018080);
        assert(max0(2301535556136478018080) / one_62() == 499);
    }
    assert(exp_lo(16) == 211426) by {
        assert(exp_coeff(16) == 220414);
        assert(exp_lo(17) * s_max() == -41446819473424408308924);
        assert(min0(-41446819473424408308924) / one_62() == -8988);
    }
    assert(exp_hi(16) == 220414) by {
        assert(exp_coeff(16) == 220414);
        assert(exp_hi(17) * s_max() == -39851727469935377015838);
        assert(max0(-39851727469935377015838) / one_62() == 0);
    }
    assert(exp_lo(15) == -3526632) by {
        assert(exp_coeff(15) == -3526632);
        assert(exp_lo(16) * s_max() == 675839522905154168681364);
        assert(min0(675839522905154168681364) / one_62() == 0);
    }
    assert(exp_hi(15) == -3373853) by {
        assert(exp_coeff(15) == -3526632);
        assert(exp_hi(16) * s_max() == 704570358430924535940396);
        assert(max0(704570358430924535940396) / one_62() == 152779);
    }
    assert(exp_lo(14) == 50455001) by {
        assert(exp_coeff(14) == 52899477);
        assert(exp_lo(15) * s_max() == -11273151307512082980357648);
        assert(min0(-11273151307512082980357648) / one_62() == -2444476);
    }
    assert(exp_hi(14) == 52899477) by {
        assert(exp_coeff(14) == 52899477);
        assert(exp_hi(15) * s_max() == -10784781445385728848240642);
        assert(max0(-10784781445385728848240642) / one_62() == 0);
    }
    assert(exp_lo(13) == -740592679) by {
        assert(exp_coeff(13) == -740592679);
        assert(exp_lo(14) * s_max() == 161283303870002159081533914);
        assert(min0(161283303870002159081533914) / one_62() == 0);
    }
    assert(exp_hi(13) == -703925556) by {
        assert(exp_coeff(13) == -740592679);
        assert(exp_hi(14) * s_max() == 169097260022949760803372978);
        assert(max0(169097260022949760803372978) / one_62() == 36667123);
    }
    assert(exp_lo(12) == 9114365103) by {
        assert(exp_coeff(12) == 9627704831);
        assert(exp_lo(13) * s_max() == -2367361643517873812547885606);
        assert(min0(-2367361643517873812547885606) / one_62() == -513339728);
    }
    assert(exp_hi(12) == 9627704831) by {
        assert(exp_coeff(12) == 9627704831);
        assert(exp_hi(13) * s_max() == -2250152355565471528831586184);
        assert(max0(-2250152355565471528831586184) / one_62() == 0);
    }
    assert(exp_lo(11) == -115532457973) by {
        assert(exp_coeff(11) == -115532457973);
        assert(exp_lo(12) * s_max() == 29134771328005573268492993142);
        assert(min0(29134771328005573268492993142) / one_62() == 0);
    }
    assert(exp_hi(11) == -108859041515) by {
        assert(exp_coeff(11) == -115532457973);
        assert(exp_hi(12) * s_max() == 30775701378518668208325168534);
        assert(max0(30775701378518668208325168534) / one_62() == 6673416458);
    }
    assert(exp_lo(10) == 1190776040198) by {
        assert(exp_coeff(10) == 1270857037706);
        assert(exp_lo(11) * s_max() == -369308416545420595661202686322);
        assert(min0(-369308416545420595661202686322) / one_62() == -80080997508);
    }
    assert(exp_hi(10) == 1270857037706) by {
        assert(exp_coeff(10) == 1270857037706);
        assert(exp_hi(11) * s_max() == -347976325907929824411188389710);
        assert(max0(-347976325907929824411188389710) / one_62() == 0);
    }
    assert(exp_lo(9) == -12708570377060) by {
        assert(exp_coeff(9) == -12708570377060);
        assert(exp_lo(10) * s_max() == 3806407494320968102821352014972);
        assert(min0(3806407494320968102821352014972) / one_62() == 0);
    }
    assert(exp_hi(9) == -11827679404480) by {
        assert(exp_coeff(9) == -12708570377060);
        assert(exp_hi(10) * s_max() == 4062392582009216283757131541284);
        assert(max0(4062392582009216283757131541284) / one_62() == 880890972580);
    }
    assert(exp_lo(8) == 105568223667729) by {
        assert(exp_coeff(8) == 114377133393536);
        assert(exp_lo(9) * s_max() == -40623925820092162837571315412840);
        assert(min0(-40623925820092162837571315412840) / one_62() == -8808909725807);
    }
    assert(exp_hi(8) == 114377133393536) by {
        assert(exp_coeff(8) == 114377133393536);
        assert(exp_hi(9) * s_max() == -37808089855547005464568145934720);
        assert(max0(-37808089855547005464568145934720) / one_62() == 0);
    }
    assert(exp_lo(7) == -915017067148291) by {
        assert(exp_coeff(7) == -915017067148291);
        assert(exp_lo(8) * s_max() == 337456972735342729459335836631306);
        assert(min0(337456972735342729459335836631306) / one_62() == 0);
    }
    assert(exp_hi(7) == -835736879616033) by {
        assert(exp_coeff(7) == -915017067148291);
        assert(exp_hi(8) * s_max() == 365615332380816679229496636059904);
        assert(max0(365615332380816679229496636059904) / one_62() == 79280187532258);
    }
    assert(exp_lo(6) == 5770877969779970) by {
        assert(exp_coeff(6) == 6405119470038039);
        assert(exp_lo(7) * s_max() == -2924922659046543023567456990470974);
        assert(min0(-2924922659046543023567456990470974) / one_62() == -634241500258069);
    }
    assert(exp_hi(6) == 6405119470038039) by {
        assert(exp_coeff(6) == 6405119470038039);
        assert(exp_hi(7) * s_max() == -2671497422237293458521816298933162);
        assert(max0(-2671497422237293458521816298933162) / one_62() == 0);
    }
    assert(exp_lo(5) == -38430716820228233) by {
        assert(exp_coeff(5) == -38430716820228233);
        assert(exp_lo(6) * s_max() == 18447056718851795054875589499002580);
        assert(min0(18447056718851795054875589499002580) / one_62() == 0);
    }
    assert(exp_hi(5) == -33991026318421756) by {
        assert(exp_coeff(5) == -38430716820228233);
        assert(exp_hi(6) * s_max() == 20474458613325807558126521534624646);
        assert(max0(20474458613325807558126521534624646) / one_62() == 4439690501806477);
    }
    assert(exp_lo(4) == 165515441090302296) by {
        assert(exp_coeff(4) == 192153584101141163);
        assert(exp_lo(5) * s_max() == -122846751679954842152181967907083962);
        assert(min0(-122846751679954842152181967907083962) / one_62() == -26638143010838867);
    }
    assert(exp_hi(4) == 192153584101141163) by {
        assert(exp_coeff(4) == 192153584101141163);
        assert(exp_hi(5) * s_max() == -108654938418636773808888411461712984);
        assert(max0(-108654938418636773808888411461712984) / one_62() == 0);
    }
    assert(exp_lo(3) == -768614336404564651) by {
        assert(exp_coeff(3) == -768614336404564651);
        assert(exp_lo(4) * s_max() == 529082878831865778325108371758546544);
        assert(min0(529082878831865778325108371758546544) / one_62() == 0);
    }
    assert(exp_hi(3) == -635423621350370322) by {
        assert(exp_coeff(3) == -768614336404564651);
        assert(exp_hi(4) * s_max() == 614233758399774204367755516934091982);
        assert(max0(614233758399774204367755516934091982) / one_62() == 133190715054194329);
    }
    assert(exp_lo(2) == 1773080148996916632) by {
        assert(exp_coeff(2) == 2305843009213693952);
        assert(exp_lo(3) * s_max() == -2456935033599096814274444906435704014);
        assert(min0(-2456935033599096814274444906435704014) / one_62() == -532762860216777320);
    }
    assert(exp_hi(2) == 2305843009213693952) by {
        assert(exp_coeff(2) == 2305843009213693952);
        assert(exp_hi(3) * s_max() == -2031180635759554703240672148361960308);
        assert(max0(-2031180635759554703240672148361960308) / one_62() == 0);
    }
    assert(exp_lo(1) == -4611686018427387904) by {
        assert(exp_coeff(1) == -4611686018427387904);
        assert(exp_lo(2) * s_max() == 5667787509439121982705357880508817648);
        assert(min0(5667787509439121982705357880508817648) / one_62() == 0);
    }
    assert(exp_hi(1) == -3013397437777055947) by {
        assert(exp_coeff(1) == -4611686018427387904);
        assert(exp_hi(2) * s_max() == 7370805100797290439626757558006448128);
        assert(max0(7370805100797290439626757558006448128) / one_62() == 1598288580650331957);
    }
    assert(exp_lo(0) == 1415108857126723990) by {
        assert(exp_coeff(0) == 4611686018427387904);
        assert(exp_lo(1) * s_max() == -14741610201594580879253515116012896256);
        assert(min0(-14741610201594580879253515116012896256) / one_62() == -3196577161300663914);
    }
    assert(exp_hi(0) == 4611686018427387904) by {
        assert(exp_coeff(0) == 4611686018427387904);
        assert(exp_hi(1) * s_max() == -9632557427520075518079047567421996558);
        assert(max0(-9632557427520075518079047567421996558) / one_62() == 0);
    }
    assert(atanh_lo(12) == 184467440737095516) by { assert(atanh_coeff(12) == 184467440737095516); }
    assert(atanh_hi(12) == 184467440737095516) by { assert(atanh_coeff(12) == 184467440737095516); }
    assert(atanh_lo(11) == 200508087757712518) by {
        assert(atanh_coeff(11) == 200508087757712518);
        assert(atanh_lo(12) * u_max() == 25042444059614004303178985897798988);
        assert(min0(25042444059614004303178985897798988) / one_62() == 0);
    }
    assert(atanh_hi(11) == 205938302208468561) by {
        assert(atanh_coeff(11) == 200508087757712518);
        assert(atanh_hi(12) * u_max() == 25042444059614004303178985897798988);
        assert(max0(25042444059614004303178985897798988) / one_62() == 5430214450756043);
    }
    assert(atanh_lo(10) == 219604096115589900) by {
        assert(atanh_coeff(10) == 219604096115589900);
        assert(atanh_lo(11) * u_max() == 27220047890884787368697813269982174);
        assert(min0(27220047890884787368697813269982174) / one_62() == 0);
    }
    assert(atanh_hi(10) == 225666353715891223) by {
        assert(atanh_coeff(10) == 219604096115589900);
        assert(atanh_hi(11) * u_max() == 27957228615414781310127030909037173);
        assert(max0(27957228615414781310127030909037173) / one_62() == 6062257600301323);
    }
    assert(atanh_lo(9) == 242720316759336205) by {
        assert(atanh_coeff(9) == 242720316759336205);
        assert(atanh_lo(10) * u_max() == 29812433404302386075213078449760700);
        assert(min0(29812433404302386075213078449760700) / one_62() == 0);
    }
    assert(atanh_hi(9) == 249363313973917455) by {
        assert(atanh_coeff(9) == 242720316759336205);
        assert(atanh_hi(10) * u_max() == 30635417374936433582624264333806739);
        assert(max0(30635417374936433582624264333806739) / one_62() == 6642997214581250);
    }
    assert(atanh_lo(8) == 271275648142787524) by {
        assert(atanh_coeff(8) == 271275648142787524);
        assert(atanh_lo(9) * u_max() == 32950584288965795100036728478972065);
        assert(min0(32950584288965795100036728478972065) / one_62() == 0);
    }
    assert(atanh_hi(8) == 278616218736811495) by {
        assert(atanh_coeff(8) == 271275648142787524);
        assert(atanh_hi(9) * u_max() == 33852406775739576369414832141278315);
        assert(max0(33852406775739576369414832141278315) / one_62() == 7340570594023971);
    }
    assert(atanh_lo(7) == 307445734561825860) by {
        assert(atanh_coeff(7) == 307445734561825860);
        assert(atanh_lo(8) * u_max() == 36827123617079418156795149270363732);
        assert(min0(36827123617079418156795149270363732) / one_62() == 0);
    }
    assert(atanh_hi(7) == 315647430271129395) by {
        assert(atanh_coeff(7) == 307445734561825860);
        assert(atanh_hi(8) * u_max() == 37823645429991014238530385340464035);
        assert(max0(37823645429991014238530385340464035) / one_62() == 8201695709303535);
    }
    assert(atanh_lo(6) == 354745078340568300) by {
        assert(atanh_coeff(6) == 354745078340568300);
        assert(atanh_lo(7) * u_max() == 41737406766023340505298309829664980);
        assert(min0(41737406766023340505298309829664980) / one_62() == 0);
    }
    assert(atanh_hi(6) == 364036871138003764) by {
        assert(atanh_coeff(6) == 354745078340568300);
        assert(atanh_hi(7) * u_max() == 42850830930057437898484575659928735);
        assert(max0(42850830930057437898484575659928735) / one_62() == 9291792797435464);
    }
    assert(atanh_lo(5) == 419244183493398900) by {
        assert(atanh_coeff(5) == 419244183493398900);
        assert(atanh_lo(6) * u_max() == 48158546268488469813805742111151900);
        assert(min0(48158546268488469813805742111151900) / one_62() == 0);
    }
    assert(atanh_hi(5) == 429960428432683077) by {
        assert(atanh_coeff(5) == 419244183493398900);
        assert(atanh_hi(6) * u_max() == 49419956956540094342488169977714052);
        assert(max0(49419956956540094342488169977714052) / one_62() == 10716244939284177);
    }
    assert(atanh_lo(4) == 512409557603043100) by {
        assert(atanh_coeff(4) == 512409557603043100);
        assert(atanh_lo(5) * u_max() == 56914645590031827961770422494997700);
        assert(min0(56914645590031827961770422494997700) / one_62() == 0);
    }
    assert(atanh_hi(4) == 525066410879692386) by {
        assert(atanh_coeff(4) == 512409557603043100);
        assert(atanh_hi(5) * u_max() == 58369433293210384469022553327903161);
        assert(max0(58369433293210384469022553327903161) / one_62() == 12656853276649286);
    }
    assert(atanh_lo(3) == 658812288346769701) by {
        assert(atanh_coeff(3) == 658812288346769701);
        assert(atanh_lo(4) * u_max() == 69562344610038900842163849716108300);
        assert(min0(69562344610038900842163849716108300) / one_62() == 0);
    }
    assert(atanh_hi(3) == 674268800350040252) by {
        assert(atanh_coeff(3) == 658812288346769701);
        assert(atanh_hi(4) * u_max() == 71280580299137899213517720099177898);
        assert(max0(71280580299137899213517720099177898) / one_62() == 15456512003270551);
    }
    assert(atanh_lo(2) == 922337203685477581) by {
        assert(atanh_coeff(2) == 922337203685477581);
        assert(atanh_lo(3) * u_max() == 89437300212907158361394596618183193);
        assert(min0(89437300212907158361394596618183193) / one_62() == 0);
    }
    assert(atanh_hi(2) == 942185823955398393) by {
        assert(atanh_coeff(2) == 922337203685477581);
        assert(atanh_hi(3) * u_max() == 91535604583868258164715578356795436);
        assert(max0(91535604583868258164715578356795436) / one_62() == 19848620269920812);
    }
    assert(atanh_lo(1) == 1537228672809129301) by {
        assert(atanh_coeff(1) == 1537228672809129301);
        assert(atanh_lo(2) * u_max() == 125212220298070021651650290757896033);
        assert(min0(125212220298070021651650290757896033) / one_62() == 0);
    }
    assert(atanh_hi(1) == 1564964033890176904) by {
        assert(atanh_coeff(1) == 1537228672809129301);
        assert(atanh_hi(2) * u_max() == 127906776913502354611247084128143549);
        assert(max0(127906776913502354611247084128143549) / one_62() == 27735361081047603);
    }
    assert(atanh_lo(0) == 4611686018427387904) by {
        assert(atanh_coeff(0) == 4611686018427387904);
        assert(atanh_lo(1) * u_max() == 208687033830116702662246910417225993);
        assert(min0(208687033830116702662246910417225993) / one_62() == 0);
    }
    assert(atanh_hi(0) == 4657754258317241725) by {
        assert(atanh_coeff(0) == 4611686018427387904);
        assert(atanh_hi(1) * u_max() == 212452257793597739175139955448956072);
        assert(max0(212452257793597739175139955448956072) / one_62() == 46068239889853821);
    }
    assert forall|i: int| 0 <= i <= exp_last() implies #[trigger] exp_table_ok(i) by {
        assert(i == 0 || i == 1 || i == 2 || i == 3 || i == 4 || i == 5 || i == 6 || i == 7 || i == 8 || i == 9 || i == 10 || i == 11 || i == 12 || i == 13 || i == 14 || i == 15 || i == 16 || i == 17 || i == 18 || i == 19);
    }
    assert forall|i: int| 0 <= i <= atanh_last() implies #[trigger] atanh_table_ok(i) by {
        assert(i == 0 || i == 1 || i == 2 || i == 3 || i == 4 || i == 5 || i == 6 || i == 7 || i == 8 || i == 9 || i == 10 || i == 11 || i == 12);
    }
}

/// Distance of a mantissa from the normalisation window.
pub open spec fn norm_measure(m: int) -> int {
    if m < sqrt2_half_62() { sqrt2_half_62() - m } else { 0 }
}

/// Shift-normalisation of a positive mantissa into `[√2/2, √2)` at the
/// 62-bit scale: the number of doublings and the normalised value.
pub open spec fn normalize(m: int) -> (int, int)
    decreases norm_measure(m),
{
    if m <= 0 || m >= sqrt2_half_62() {
        (0, m)
    } else {
        let r = normalize(2 * m);
        (r.0 + 1, r.1)
    }
}

/// `t = (m - 1) / (m + 1)` at the 62-bit scale, truncated toward zero
/// (the rounding of integer division).
pub open spec fn atanh_arg(m: int) -> int {
    if m >= one_62() {
        (m - one_62()) * one_62() / (m + one_62())
    } else {
        -((one_62() - m) * one_62() / (m + one_62()))
    }
}

/// `-ln(x / 2^52)` at the 62-bit scale, as the kernel defines it:
/// `k·ln2 - 2t·P(t²)` with `(k, m)` the normalisation of `x · 2^10`,
/// `t = atanh_arg(m)` and `P` the atanh series.
pub open spec fn ln_approx(x: int) -> int {
    let n = normalize(x * 0x400);
    let t = atanh_arg(n.1);
    let u = t * t / one_62();
    let p = atanh_horner(0, u);
    n.0 * ln2_62() - t * p / 0x2000_0000_0000_0000
}

/// Normalisation facts: the doubling count is at most `j` when
/// `m >= 2^(62 - j)`, and the mantissa lands in `[√2/2, √2)`.
pub proof fn lemma_normalize(m: int, j: nat)
    requires
        0 < m < 2 * sqrt2_half_62(),
        j <= 62,
        m >= pow2((62 - j) as nat),
    ensures
        0 <= normalize(m).0 <= j,
        sqrt2_half_62() <= normalize(m).1 < 2 * sqrt2_half_62(),
        normalize(m).0 == 0 ==> normalize(m).1 == m,
        normalize(m).1 == m * pow2(normalize(m).0 as nat),
    decreases norm_measure(m),
{
    vstd::arithmetic::power2::lemma2_to64();
    vstd::arithmetic::power2::lemma2_to64_rest();
    if m >= sqrt2_half_62() {
        assert(pow2(0) == 1);
        assert(m * pow2(0) == m);
    } else {
        if j == 0 {
            assert(pow2(62) == one_62());
        }
        assert(j > 0);
        vstd::arithmetic::power2::lemma_pow2_unfold((62 - j + 1) as nat);
        lemma_normalize(2 * m, (j - 1) as nat);
        let r = normalize(2 * m);
        let e = (r.0 + 1) as nat;
        vstd::arithmetic::power2::lemma_pow2_unfold(e);
        assert((e - 1) as nat == r.0 as nat);
        assert(pow2(e) == 2 * pow2(r.0 as nat));
        assert(m * pow2(e) == (2 * m) * pow2(r.0 as nat)) by (nonlinear_arith)
            requires pow2(e) == 2 * pow2(r.0 as nat);
        assert(normalize(m) == (r.0 + 1, r.1));
        assert(normalize(m).0 as nat == e);
        assert(r.1 == (2 * m) * pow2(r.0 as nat));
        assert(normalize(m).1 == m * pow2(e));
    }
}

/// `t` stays within `±t_max`, and is nonpositive for mantissas at or
/// below one.
pub proof fn lemma_atanh_arg_bounds(m: int)
    requires
        sqrt2_half_62() <= m < 2 * sqrt2_half_62(),
    ensures
        -t_max() <= atanh_arg(m) <= t_max(),
        m <= one_62() ==> atanh_arg(m) <= 0,
        m >= one_62() ==> atanh_arg(m) >= 0,
{
    let one = one_62();
    let d = m + one;
    if m >= one {
        let n = (m - one) * one;
        crate::arith::lemma_floor_bounds(n, d);
        assert(n < (t_max() + 1) * d) by (nonlinear_arith)
            requires
                n == (m - one) * one,
                d == m + one,
                one == 0x4000_0000_0000_0000,
                t_max() == 791_240_229_949_381_499,
                m < 2 * 3_260_954_456_333_195_553,
        ;
        let q = n / d;
        assert(q <= t_max()) by (nonlinear_arith)
            requires q * d <= n, n < (t_max() + 1) * d, d > 0;
        assert(q >= 0) by (nonlinear_arith)
            requires n < (q + 1) * d, n >= 0, d > 0;
        if m == one {
            assert(q == 0) by (nonlinear_arith)
                requires q * d <= n, n < (q + 1) * d, n == 0, d > 0;
        }
    } else {
        let n = (one - m) * one;
        crate::arith::lemma_floor_bounds(n, d);
        assert(n < (t_max() + 1) * d) by (nonlinear_arith)
            requires
                n == (one - m) * one,
                d == m + one,
                one == 0x4000_0000_0000_0000,
                t_max() == 791_240_229_949_381_499,
                m >= 3_260_954_456_333_195_553,
        ;
        let q = n / d;
        assert(q <= t_max()) by (nonlinear_arith)
            requires q * d <= n, n < (t_max() + 1) * d, d > 0;
        assert(q >= 0) by (nonlinear_arith)
            requires n < (q + 1) * d, n >= 0, d > 0;
    }
}

/// Upper bound of the atanh series over `u in [0, u_max]`.
pub open spec fn p_max() -> int {
    4_657_754_258_317_241_725
}

/// The internal `-ln` is nonnegative, below `2^68`, and zero at one.
pub proof fn lemma_ln_approx_range(x: int)
    requires
        0 < x <= unit_52(),
    ensures
        0 <= ln_approx(x) < ln_bound(),
        x == unit_52() ==> ln_approx(x) == 0,
{
    vstd::arithmetic::power2::lemma2_to64();
    lemma_normalize(x * 0x400, 52);
    let n = normalize(x * 0x400);
    lemma_atanh_arg_bounds(n.1);
    lemma_tables();
    let t = atanh_arg(n.1);
    assert(t * t <= t_max() * t_max()) by (nonlinear_arith)
        requires -t_max() <= t <= t_max();
    assert(t * t >= 0) by (nonlinear_arith);
    let u = t * t / one_62();
    vstd::arithmetic::div_mod::lemma_div_is_ordered(t * t, t_max() * t_max(), one_62());
    vstd::arithmetic::div_mod::lemma_div_pos_is_pos(t * t, one_62());
    lemma_atanh_horner_bounds(0, u);
    let p = atanh_horner(0, u);
    assert(-t_max() * p_max() <= t * p <= t_max() * p_max()) by (nonlinear_arith)
        requires
            -t_max() <= t <= t_max(),
            0 <= p <= p_max(),
            t_max() > 0,
    ;
    vstd::arithmetic::div_mod::lemma_div_is_ordered(t * p, t_max() * p_max(), 0x2000_0000_0000_0000);
    vstd::arithmetic::div_mod::lemma_div_is_ordered(-t_max() * p_max(), t * p, 0x2000_0000_0000_0000);
    if n.0 == 0 {
        assert(t * p <= 0) by (nonlinear_arith)
            requires t <= 0, p >= 0;
        vstd::arithmetic::div_mod::lemma_div_is_ordered(t * p, 0, 0x2000_0000_0000_0000);
    }
    if x == unit_52() {
        assert(n.1 == one_62());
        assert(t == 0);
        assert(t * p == 0);
    }
}

/// Smallest base of the exact-out path: just under `0.7` at `SCALE`.
pub open spec fn base_floor_70() -> int {
    3_152_519_739_159_000
}

/// Upper bound of the internal `-ln` over `[base_floor_70, 1]`, about
/// `0.3598 · 2^62`.
pub open spec fn ln_upper_70() -> int {
    1_659_348_488_492_028_411
}

/// For mantissas at or above `m1`, `t` is at least `t1`.
proof fn lemma_atanh_arg_lower(m: int, m1: int, t1: int)
    requires
        one_62() <= m1 <= m,
        t1 >= 0,
        t1 * (m1 + one_62()) <= (m1 - one_62()) * one_62(),
        t1 <= one_62(),
    ensures
        atanh_arg(m) >= t1,
{
    let one = one_62();
    let n = (m - one) * one;
    let d = m + one;
    assert(t1 * d <= n) by (nonlinear_arith)
        requires
            t1 * (m1 + one) <= (m1 - one) * one,
            m1 <= m,
            t1 <= one,
            n == (m - one) * one,
            d == m + one,
    ;
    crate::arith::lemma_floor_bounds(n, d);
    let q = n / d;
    assert(q >= t1) by (nonlinear_arith)
        requires t1 * d <= n, n < (q + 1) * d, d > 0;
}

/// On bases of at least about `0.7`, the internal `-ln` stays below
/// `ln_upper_70`.
pub proof fn lemma_ln_approx_upper_70(x: int)
    requires
        base_floor_70() <= x <= unit_52(),
    ensures
        ln_approx(x) <= ln_upper_70(),
{
    vstd::arithmetic::power2::lemma2_to64();
    lemma_normalize(x * 0x400, 52);
    lemma_tables();
    let n = normalize(x * 0x400);
    lemma_atanh_arg_bounds(n.1);
    let t = atanh_arg(n.1);
    assert(t * t >= 0) by (nonlinear_arith);
    assert(t * t <= t_max() * t_max()) by (nonlinear_arith)
        requires -t_max() <= t <= t_max();
    let u = t * t / one_62();
    vstd::arithmetic::div_mod::lemma_div_is_ordered(t * t, t_max() * t_max(), one_62());
    vstd::arithmetic::div_mod::lemma_div_pos_is_pos(t * t, one_62());
    lemma_atanh_horner_bounds(0, u);
    let p = atanh_horner(0, u);
    if x * 0x400 >= sqrt2_half_62() {
        assert(n.0 == 0);
        assert(t * p >= -t_max() * p_max()) by (nonlinear_arith)
            requires -t_max() <= t <= t_max(), 0 <= p <= p_max(), t_max() > 0;
        vstd::arithmetic::div_mod::lemma_div_is_ordered(-t_max() * p_max(), t * p, 0x2000_0000_0000_0000);
        assert(-t_max() * p_max() / 0x2000_0000_0000_0000 == -1_598_288_580_650_331_956);
    } else {
        let m = 2 * (x * 0x400);
        assert(m >= sqrt2_half_62());
        assert(normalize(m) == (0int, m));
        assert(n == (1int, m));
        lemma_atanh_arg_lower(m, 2048 * base_floor_70(), 768_614_336_404_317_752);
        assert(t * p >= 768_614_336_404_317_752 * one_62()) by (nonlinear_arith)
            requires t >= 768_614_336_404_317_752, p >= one_62(), one_62() > 0;
        vstd::arithmetic::div_mod::lemma_div_is_ordered(768_614_336_404_317_752 * one_62(), t * p, 0x2000_0000_0000_0000);
    }
}

/// Lower bound of the internal `-ln` on bases of at most one half (plus
/// two ulps of rounding): `ln 2` less 4137 units.
pub open spec fn ln_lower_half() -> int {
    ln2_62() - 4137
}

/// On bases of at most about one half, the internal `-ln` is at least
/// [`ln_lower_half`].
pub proof fn lemma_ln_approx_lower_half(x: int)
    requires
        1 <= x <= unit_52() / 2 + 2,
    ensures
        ln_approx(x) >= ln_lower_half(),
{
    vstd::arithmetic::power2::lemma2_to64();
    let m0 = x * 0x400;
    assert(0 < m0 < sqrt2_half_62());
    lemma_normalize(2 * m0, 62);
    let n2 = normalize(2 * m0);
    assert(normalize(m0) == (n2.0 + 1, n2.1));
    lemma_atanh_arg_bounds(n2.1);
    lemma_tables();
    let m = n2.1;
    let t = atanh_arg(m);
    assert(t * t >= 0) by (nonlinear_arith);
    assert(t * t <= t_max() * t_max()) by (nonlinear_arith)
        requires -t_max() <= t <= t_max();
    let u = t * t / one_62();
    vstd::arithmetic::div_mod::lemma_div_is_ordered(t * t, t_max() * t_max(), one_62());
    vstd::arithmetic::div_mod::lemma_div_pos_is_pos(t * t, one_62());
    lemma_atanh_horner_bounds(0, u);
    let p = atanh_horner(0, u);
    if n2.0 == 0 {
        assert(m == 2 * m0);
        if m <= one_62() {
            assert(t * p <= 0) by (nonlinear_arith)
                requires t <= 0, p >= 0;
            vstd::arithmetic::div_mod::lemma_div_is_ordered(t * p, 0, 0x2000_0000_0000_0000);
        } else {
            let n = (m - one_62()) * one_62();
            let d = m + one_62();
            crate::arith::lemma_floor_bounds(n, d);
            assert(n < 2048 * d) by (nonlinear_arith)
                requires
                    n == (m - one_62()) * one_62(),
                    d == m + one_62(),
                    one_62() < m <= one_62() + 4096,
                    one_62() == 0x4000_0000_0000_0000,
            ;
            assert(t <= 2047) by (nonlinear_arith)
                requires t * d <= n, n < 2048 * d, d > 0;
            assert(t * p <= 2047 * p_max()) by (nonlinear_arith)
                requires 0 <= t <= 2047, 0 <= p <= p_max();
            vstd::arithmetic::div_mod::lemma_div_is_ordered(t * p, 2047 * p_max(), 0x2000_0000_0000_0000);
        }
    } else {
        assert(t * p <= t_max() * p_max()) by (nonlinear_arith)
            requires -t_max() <= t <= t_max(), 0 <= p <= p_max(), t_max() > 0;
        vstd::arithmetic::div_mod::lemma_div_is_ordered(t * p, t_max() * p_max(), 0x2000_0000_0000_0000);
    }
}

/// `2^52`, the unit of the public scale.
pub open spec fn unit_52() -> int {
    0x10_0000_0000_0000
}

/// `exp(-a)` at 62 bits, as the kernel defines it: the argument reduced
/// to `a = k·ln2 + s`, the series at `s`, shifted down by `k`; it
/// approximates `2^62 · exp(-a / 2^62)`.
pub open spec fn exp_approx(a: int) -> int {
    let k = a / ln2_62();
    let s = a % ln2_62();
    if k > 62 {
        0
    } else {
        exp_horner(0, s) / (pow2(k as nat) as int)
    }
}

/// The internal `exp` lies in `[0, 1]` at 62 bits for nonnegative
/// arguments.
pub proof fn lemma_exp_approx_range(a: int)
    requires
        0 <= a,
    ensures
        0 <= exp_approx(a) <= one_62(),
{
    let k = a / ln2_62();
    let s = a % ln2_62();
    vstd::arithmetic::div_mod::lemma_mod_bound(a, ln2_62());
    vstd::arithmetic::div_mod::lemma_div_pos_is_pos(a, ln2_62());
    lemma_tables();
    lemma_exp_horner_bounds(0, s);
    if k <= 62 {
        let h = exp_horner(0, s);
        vstd::arithmetic::power2::lemma_pow2_pos(k as nat);
        vstd::arithmetic::div_mod::lemma_div_is_ordered_by_denominator(h, 1, pow2(k as nat) as int);
        vstd::arithmetic::div_mod::lemma_div_basics(h);
        vstd::arithmetic::div_mod::lemma_div_pos_is_pos(h, pow2(k as nat) as int);
    }
}

/// Largest value of the internal `-ln`, below `2^68`.
pub open spec fn ln_bound() -> int {
    0x10_0000_0000_0000_0000
}

} // verus!
