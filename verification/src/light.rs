//! How bright a colour is: sRGB made linear, weighted by Rec. 709's primaries.
use vstd::prelude::*;

verus! {

/// What white is, in the units of [`LINEAR`].
pub const WHITE: u64 = 10_000_000_000;

/// How much light each value of an sRGB channel is, from nothing to [`WHITE`].
pub const LINEAR: [u64; 256] = [
    0, 3035269, 6070539, 9105809, 12141079, 15176349, 18211619, 21246888,
    24282158, 27317428, 30352698, 33465357, 36765073, 40247170, 43914420, 47769534,
    51815167, 56053916, 60488330, 65120907, 69954101, 74990320, 80231929, 85681256,
    91340587, 97212173, 103298230, 109600940, 116122451, 122864883, 129830323, 137020830,
    144438435, 152085144, 159962933, 168073757, 176419544, 185002201, 193823609, 202885630,
    212190103, 221738847, 231533661, 241576324, 251868596, 262412218, 273208916, 284260395,
    295568344, 307134437, 318960330, 331047665, 343398068, 356013148, 368894504, 382043715,
    395462352, 409151969, 423114106, 437350292, 451862043, 466650863, 481718242, 497065659,
    512694583, 528606470, 544802764, 561284900, 578054301, 595112381, 612460542, 630100176,
    648032666, 666259386, 684781698, 703600956, 722718506, 742135683, 761853814, 781874218,
    802198203, 822827071, 843762115, 865004620, 886555862, 908417111, 930589628, 953074666,
    975873471, 998987282, 1022417330, 1046164840, 1070231029, 1094617107, 1119324278, 1144353738,
    1169706677, 1195384279, 1221387722, 1247718175, 1274376804, 1301364766, 1328683215, 1356333296,
    1384316150, 1412632911, 1441284708, 1470272664, 1499597898, 1529261519, 1559264637, 1589608350,
    1620293756, 1651321945, 1682694001, 1714411007, 1746474036, 1778884159, 1811642442, 1844749945,
    1878207723, 1912016827, 1946178304, 1980693195, 2015562537, 2050787363, 2086368701, 2122307574,
    2158605001, 2195261997, 2232279573, 2269658735, 2307400485, 2345505821, 2383975738, 2422811224,
    2462013267, 2501582847, 2541520943, 2581828529, 2622506575, 2663556048, 2704977910, 2746773120,
    2788942634, 2831487404, 2874408377, 2917706498, 2961382707, 3005437944, 3049873140, 3094689228,
    3139887133, 3185467781, 3231432091, 3277780980, 3324515363, 3371636150, 3419144249, 3467040563,
    3515325995, 3564001441, 3613067797, 3662525955, 3712376804, 3762621229, 3813260114, 3864294337,
    3915724777, 3967552307, 4019777798, 4072402119, 4125426134, 4178850708, 4232676699, 4286904966,
    4341536361, 4396571738, 4452011945, 4507857828, 4564110231, 4620769996, 4677837961, 4735314961,
    4793201831, 4851499400, 4910208498, 4969329950, 5028864580, 5088813208, 5149176653, 5209955732,
    5271151257, 5332764040, 5394794890, 5457244613, 5520114015, 5583403896, 5647115057, 5711248294,
    5775804404, 5840784178, 5906188409, 5972017883, 6038273388, 6104955708, 6172065624, 6239603916,
    6307571363, 6375968739, 6444796819, 6514056374, 6583748172, 6653872982, 6724431569, 6795424696,
    6866853124, 6938717612, 7011018919, 7083757798, 7156935005, 7230551289, 7304607400, 7379104087,
    7454042095, 7529422167, 7605245046, 7681511472, 7758222183, 7835377915, 7912979403, 7991027380,
    8069522576, 8148465722, 8227857543, 8307698767, 8387990117, 8468732315, 8549926081, 8631572134,
    8713671191, 8796223968, 8879231178, 8962693533, 9046611743, 9130986517, 9215818562, 9301108583,
    9386857284, 9473065367, 9559733532, 9646862478, 9734452903, 9822505503, 9911020971, 10000000000,
];

/// A number to the fifth.
pub open spec fn fifth(x: int) -> int {
    x * x * x * x * x
}

/// A number to the twelfth.
pub open spec fn twelfth(x: int) -> int {
    let cubed = x * x * x;
    cubed * cubed * cubed * cubed
}

/// `t` is how much light a channel of `c` is, rounded down: with `u` for
/// `c / 255`, that is `u / 12.92` up to 0.04045 and `((u + 0.055) / 1.055)` to
/// the 2.4 above it. The first is `5c / 16473`; the base of the second is
/// `(40c + 561) / 10761`, and to the 2.4 is to the twelfth and then the fifth
/// root.
pub open spec fn is_linear(c: int, t: int) -> bool {
    if c <= 10 {
        t * 16473 <= 5 * c * WHITE < (t + 1) * 16473
    } else {
        fifth(t) * twelfth(10761) <= fifth(WHITE as int) * twelfth(40 * c + 561) < fifth(t + 1)
            * twelfth(10761)
    }
}

// The table against the curve, sixteen entries at a time.
proof fn lemma_values_a()
    by (nonlinear_arith)
    ensures
        is_linear(0, 0),
        is_linear(1, 3035269),
        is_linear(2, 6070539),
        is_linear(3, 9105809),
        is_linear(4, 12141079),
        is_linear(5, 15176349),
        is_linear(6, 18211619),
        is_linear(7, 21246888),
        is_linear(8, 24282158),
        is_linear(9, 27317428),
        is_linear(10, 30352698),
        is_linear(11, 33465357),
        is_linear(12, 36765073),
        is_linear(13, 40247170),
        is_linear(14, 43914420),
        is_linear(15, 47769534),
{
}

proof fn lemma_linear_a()
    ensures
        forall|c: int| 0 <= c < 16 ==> #[trigger] is_linear(c, LINEAR@[c] as int),
{
    lemma_values_a();
}

proof fn lemma_values_b()
    by (nonlinear_arith)
    ensures
        is_linear(16, 51815167),
        is_linear(17, 56053916),
        is_linear(18, 60488330),
        is_linear(19, 65120907),
        is_linear(20, 69954101),
        is_linear(21, 74990320),
        is_linear(22, 80231929),
        is_linear(23, 85681256),
        is_linear(24, 91340587),
        is_linear(25, 97212173),
        is_linear(26, 103298230),
        is_linear(27, 109600940),
        is_linear(28, 116122451),
        is_linear(29, 122864883),
        is_linear(30, 129830323),
        is_linear(31, 137020830),
{
}

proof fn lemma_linear_b()
    ensures
        forall|c: int| 16 <= c < 32 ==> #[trigger] is_linear(c, LINEAR@[c] as int),
{
    lemma_values_b();
}

proof fn lemma_values_c()
    by (nonlinear_arith)
    ensures
        is_linear(32, 144438435),
        is_linear(33, 152085144),
        is_linear(34, 159962933),
        is_linear(35, 168073757),
        is_linear(36, 176419544),
        is_linear(37, 185002201),
        is_linear(38, 193823609),
        is_linear(39, 202885630),
        is_linear(40, 212190103),
        is_linear(41, 221738847),
        is_linear(42, 231533661),
        is_linear(43, 241576324),
        is_linear(44, 251868596),
        is_linear(45, 262412218),
        is_linear(46, 273208916),
        is_linear(47, 284260395),
{
}

proof fn lemma_linear_c()
    ensures
        forall|c: int| 32 <= c < 48 ==> #[trigger] is_linear(c, LINEAR@[c] as int),
{
    lemma_values_c();
}

proof fn lemma_values_d()
    by (nonlinear_arith)
    ensures
        is_linear(48, 295568344),
        is_linear(49, 307134437),
        is_linear(50, 318960330),
        is_linear(51, 331047665),
        is_linear(52, 343398068),
        is_linear(53, 356013148),
        is_linear(54, 368894504),
        is_linear(55, 382043715),
        is_linear(56, 395462352),
        is_linear(57, 409151969),
        is_linear(58, 423114106),
        is_linear(59, 437350292),
        is_linear(60, 451862043),
        is_linear(61, 466650863),
        is_linear(62, 481718242),
        is_linear(63, 497065659),
{
}

proof fn lemma_linear_d()
    ensures
        forall|c: int| 48 <= c < 64 ==> #[trigger] is_linear(c, LINEAR@[c] as int),
{
    lemma_values_d();
}

proof fn lemma_values_e()
    by (nonlinear_arith)
    ensures
        is_linear(64, 512694583),
        is_linear(65, 528606470),
        is_linear(66, 544802764),
        is_linear(67, 561284900),
        is_linear(68, 578054301),
        is_linear(69, 595112381),
        is_linear(70, 612460542),
        is_linear(71, 630100176),
        is_linear(72, 648032666),
        is_linear(73, 666259386),
        is_linear(74, 684781698),
        is_linear(75, 703600956),
        is_linear(76, 722718506),
        is_linear(77, 742135683),
        is_linear(78, 761853814),
        is_linear(79, 781874218),
{
}

proof fn lemma_linear_e()
    ensures
        forall|c: int| 64 <= c < 80 ==> #[trigger] is_linear(c, LINEAR@[c] as int),
{
    lemma_values_e();
}

proof fn lemma_values_f()
    by (nonlinear_arith)
    ensures
        is_linear(80, 802198203),
        is_linear(81, 822827071),
        is_linear(82, 843762115),
        is_linear(83, 865004620),
        is_linear(84, 886555862),
        is_linear(85, 908417111),
        is_linear(86, 930589628),
        is_linear(87, 953074666),
        is_linear(88, 975873471),
        is_linear(89, 998987282),
        is_linear(90, 1022417330),
        is_linear(91, 1046164840),
        is_linear(92, 1070231029),
        is_linear(93, 1094617107),
        is_linear(94, 1119324278),
        is_linear(95, 1144353738),
{
}

proof fn lemma_linear_f()
    ensures
        forall|c: int| 80 <= c < 96 ==> #[trigger] is_linear(c, LINEAR@[c] as int),
{
    lemma_values_f();
}

proof fn lemma_values_g()
    by (nonlinear_arith)
    ensures
        is_linear(96, 1169706677),
        is_linear(97, 1195384279),
        is_linear(98, 1221387722),
        is_linear(99, 1247718175),
        is_linear(100, 1274376804),
        is_linear(101, 1301364766),
        is_linear(102, 1328683215),
        is_linear(103, 1356333296),
        is_linear(104, 1384316150),
        is_linear(105, 1412632911),
        is_linear(106, 1441284708),
        is_linear(107, 1470272664),
        is_linear(108, 1499597898),
        is_linear(109, 1529261519),
        is_linear(110, 1559264637),
        is_linear(111, 1589608350),
{
}

proof fn lemma_linear_g()
    ensures
        forall|c: int| 96 <= c < 112 ==> #[trigger] is_linear(c, LINEAR@[c] as int),
{
    lemma_values_g();
}

proof fn lemma_values_h()
    by (nonlinear_arith)
    ensures
        is_linear(112, 1620293756),
        is_linear(113, 1651321945),
        is_linear(114, 1682694001),
        is_linear(115, 1714411007),
        is_linear(116, 1746474036),
        is_linear(117, 1778884159),
        is_linear(118, 1811642442),
        is_linear(119, 1844749945),
        is_linear(120, 1878207723),
        is_linear(121, 1912016827),
        is_linear(122, 1946178304),
        is_linear(123, 1980693195),
        is_linear(124, 2015562537),
        is_linear(125, 2050787363),
        is_linear(126, 2086368701),
        is_linear(127, 2122307574),
{
}

proof fn lemma_linear_h()
    ensures
        forall|c: int| 112 <= c < 128 ==> #[trigger] is_linear(c, LINEAR@[c] as int),
{
    lemma_values_h();
}

proof fn lemma_values_i()
    by (nonlinear_arith)
    ensures
        is_linear(128, 2158605001),
        is_linear(129, 2195261997),
        is_linear(130, 2232279573),
        is_linear(131, 2269658735),
        is_linear(132, 2307400485),
        is_linear(133, 2345505821),
        is_linear(134, 2383975738),
        is_linear(135, 2422811224),
        is_linear(136, 2462013267),
        is_linear(137, 2501582847),
        is_linear(138, 2541520943),
        is_linear(139, 2581828529),
        is_linear(140, 2622506575),
        is_linear(141, 2663556048),
        is_linear(142, 2704977910),
        is_linear(143, 2746773120),
{
}

proof fn lemma_linear_i()
    ensures
        forall|c: int| 128 <= c < 144 ==> #[trigger] is_linear(c, LINEAR@[c] as int),
{
    lemma_values_i();
}

proof fn lemma_values_j()
    by (nonlinear_arith)
    ensures
        is_linear(144, 2788942634),
        is_linear(145, 2831487404),
        is_linear(146, 2874408377),
        is_linear(147, 2917706498),
        is_linear(148, 2961382707),
        is_linear(149, 3005437944),
        is_linear(150, 3049873140),
        is_linear(151, 3094689228),
        is_linear(152, 3139887133),
        is_linear(153, 3185467781),
        is_linear(154, 3231432091),
        is_linear(155, 3277780980),
        is_linear(156, 3324515363),
        is_linear(157, 3371636150),
        is_linear(158, 3419144249),
        is_linear(159, 3467040563),
{
}

proof fn lemma_linear_j()
    ensures
        forall|c: int| 144 <= c < 160 ==> #[trigger] is_linear(c, LINEAR@[c] as int),
{
    lemma_values_j();
}

proof fn lemma_values_k()
    by (nonlinear_arith)
    ensures
        is_linear(160, 3515325995),
        is_linear(161, 3564001441),
        is_linear(162, 3613067797),
        is_linear(163, 3662525955),
        is_linear(164, 3712376804),
        is_linear(165, 3762621229),
        is_linear(166, 3813260114),
        is_linear(167, 3864294337),
        is_linear(168, 3915724777),
        is_linear(169, 3967552307),
        is_linear(170, 4019777798),
        is_linear(171, 4072402119),
        is_linear(172, 4125426134),
        is_linear(173, 4178850708),
        is_linear(174, 4232676699),
        is_linear(175, 4286904966),
{
}

proof fn lemma_linear_k()
    ensures
        forall|c: int| 160 <= c < 176 ==> #[trigger] is_linear(c, LINEAR@[c] as int),
{
    lemma_values_k();
}

proof fn lemma_values_l()
    by (nonlinear_arith)
    ensures
        is_linear(176, 4341536361),
        is_linear(177, 4396571738),
        is_linear(178, 4452011945),
        is_linear(179, 4507857828),
        is_linear(180, 4564110231),
        is_linear(181, 4620769996),
        is_linear(182, 4677837961),
        is_linear(183, 4735314961),
        is_linear(184, 4793201831),
        is_linear(185, 4851499400),
        is_linear(186, 4910208498),
        is_linear(187, 4969329950),
        is_linear(188, 5028864580),
        is_linear(189, 5088813208),
        is_linear(190, 5149176653),
        is_linear(191, 5209955732),
{
}

proof fn lemma_linear_l()
    ensures
        forall|c: int| 176 <= c < 192 ==> #[trigger] is_linear(c, LINEAR@[c] as int),
{
    lemma_values_l();
}

proof fn lemma_values_m()
    by (nonlinear_arith)
    ensures
        is_linear(192, 5271151257),
        is_linear(193, 5332764040),
        is_linear(194, 5394794890),
        is_linear(195, 5457244613),
        is_linear(196, 5520114015),
        is_linear(197, 5583403896),
        is_linear(198, 5647115057),
        is_linear(199, 5711248294),
        is_linear(200, 5775804404),
        is_linear(201, 5840784178),
        is_linear(202, 5906188409),
        is_linear(203, 5972017883),
        is_linear(204, 6038273388),
        is_linear(205, 6104955708),
        is_linear(206, 6172065624),
        is_linear(207, 6239603916),
{
}

proof fn lemma_linear_m()
    ensures
        forall|c: int| 192 <= c < 208 ==> #[trigger] is_linear(c, LINEAR@[c] as int),
{
    lemma_values_m();
}

proof fn lemma_values_n()
    by (nonlinear_arith)
    ensures
        is_linear(208, 6307571363),
        is_linear(209, 6375968739),
        is_linear(210, 6444796819),
        is_linear(211, 6514056374),
        is_linear(212, 6583748172),
        is_linear(213, 6653872982),
        is_linear(214, 6724431569),
        is_linear(215, 6795424696),
        is_linear(216, 6866853124),
        is_linear(217, 6938717612),
        is_linear(218, 7011018919),
        is_linear(219, 7083757798),
        is_linear(220, 7156935005),
        is_linear(221, 7230551289),
        is_linear(222, 7304607400),
        is_linear(223, 7379104087),
{
}

proof fn lemma_linear_n()
    ensures
        forall|c: int| 208 <= c < 224 ==> #[trigger] is_linear(c, LINEAR@[c] as int),
{
    lemma_values_n();
}

proof fn lemma_values_o()
    by (nonlinear_arith)
    ensures
        is_linear(224, 7454042095),
        is_linear(225, 7529422167),
        is_linear(226, 7605245046),
        is_linear(227, 7681511472),
        is_linear(228, 7758222183),
        is_linear(229, 7835377915),
        is_linear(230, 7912979403),
        is_linear(231, 7991027380),
        is_linear(232, 8069522576),
        is_linear(233, 8148465722),
        is_linear(234, 8227857543),
        is_linear(235, 8307698767),
        is_linear(236, 8387990117),
        is_linear(237, 8468732315),
        is_linear(238, 8549926081),
        is_linear(239, 8631572134),
{
}

proof fn lemma_linear_o()
    ensures
        forall|c: int| 224 <= c < 240 ==> #[trigger] is_linear(c, LINEAR@[c] as int),
{
    lemma_values_o();
}

proof fn lemma_values_p()
    by (nonlinear_arith)
    ensures
        is_linear(240, 8713671191),
        is_linear(241, 8796223968),
        is_linear(242, 8879231178),
        is_linear(243, 8962693533),
        is_linear(244, 9046611743),
        is_linear(245, 9130986517),
        is_linear(246, 9215818562),
        is_linear(247, 9301108583),
        is_linear(248, 9386857284),
        is_linear(249, 9473065367),
        is_linear(250, 9559733532),
        is_linear(251, 9646862478),
        is_linear(252, 9734452903),
        is_linear(253, 9822505503),
        is_linear(254, 9911020971),
        is_linear(255, 10000000000),
{
}

proof fn lemma_linear_p()
    ensures
        forall|c: int| 240 <= c < 256 ==> #[trigger] is_linear(c, LINEAR@[c] as int),
{
    lemma_values_p();
}

/// The table is the curve.
pub proof fn law_the_table_is_the_curve(c: int)
    requires
        0 <= c < 256,
    ensures
        is_linear(c, LINEAR@[c] as int),
{
    lemma_linear_a();
    lemma_linear_b();
    lemma_linear_c();
    lemma_linear_d();
    lemma_linear_e();
    lemma_linear_f();
    lemma_linear_g();
    lemma_linear_h();
    lemma_linear_i();
    lemma_linear_j();
    lemma_linear_k();
    lemma_linear_l();
    lemma_linear_m();
    lemma_linear_n();
    lemma_linear_o();
    lemma_linear_p();
}

/// How bright a colour is, in ten-thousandths of the units of [`LINEAR`]: the
/// three channels' light, weighted by Rec. 709's primaries.
pub open spec fn brightness(rgb: (u8, u8, u8)) -> int {
    2126 * LINEAR@[rgb.0 as int] + 7152 * LINEAR@[rgb.1 as int] + 722 * LINEAR@[rgb.2 as int]
}

/// A dark colour: one with less than 0.184 of white's light, which is L* 50,
/// the middle of perceptual lightness.
pub open spec fn dark(rgb: (u8, u8, u8)) -> bool {
    brightness(rgb) < 1840 * WHITE
}

/// No channel has more light than white.
pub proof fn lemma_linear_bound(c: int)
    requires
        0 <= c < 256,
    ensures
        LINEAR@[c] <= WHITE,
{
    law_the_table_is_the_curve(c);
    let t = LINEAR@[c] as int;
    if t > WHITE {
        if c > 10 {
            let w = WHITE as int;
            assert(fifth(t) >= fifth(w + 1)) by (nonlinear_arith)
                requires
                    t >= w + 1,
                    w >= 0,
            ;
            assert(twelfth(40 * c + 561) <= twelfth(10761)) by (nonlinear_arith)
                requires
                    0 <= 40 * c + 561 <= 10761,
            ;
        }
    }
}

/// What makes a background dark: its light, as the eye weighs the three colours,
/// is under eighteen and four tenths per cent of white.
pub proof fn law_dark_is_little_light(r: u8, g: u8, b: u8)
    ensures
        dark((r, g, b)) <==> 2126 * LINEAR@[r as int] + 7152 * LINEAR@[g as int] + 722
            * LINEAR@[b as int] < 1840 * 10_000_000_000,
        dark((0, 0, 0)),
        !dark((255, 255, 255)),
        2126 + 7152 + 722 == 10_000,
{
    law_the_table_is_the_curve(0);
    assert(LINEAR@[0] == 0);
    assert(LINEAR@[255] == 10_000_000_000);
}

}
