//! Display colours of CIE L*a*b* samples.
//!
//! A sample goes from L*a*b* to tristimulus values under D65, to linear RGB by
//! the NTSC matrix, and to a byte by the sRGB transfer curve. All steps are in
//! fixed point: tristimulus values with fifteen decimals, linear light with
//! thirty.
use vstd::prelude::*;

verus! {

/// Linear light, with thirty decimals, from which on the byte of the sRGB
/// transfer curve is one more than the place in this list.
pub const SRGB_STEPS: [i128; 255] = [
    151763491774418745826503977, 455290475323256237479511929, 758817458872093729132519882,
    1062344442420931220785527834, 1365871425969768712438535786, 1669398409518606204091543739,
    1972925393067443695744551691, 2276452376616281187397559644, 2579979360165118679050567596,
    2883506343713956170703575548, 3188300904430530895146083892, 3509259349581228973365792664,
    3848314933096425465844545409, 4205748030104945780196970950, 4581832740528378048865155615,
    4976837250274021644171870146, 5391024159806377694037885874, 5824650784040895893195900081,
    6277969426914104695330668139, 6751227633498621496902842669, 7244668422128916632316838167,
    7758530498667859208662677934, 8293048454762323486545724009, 8848452951698496974844419919,
    9424970891266085784260235932, 10022825574869033549048384887, 10642236851973572309072860470,
    11283421258858294144830191403, 11946592148522124996610512825, 12631959812511859847889474682,
    13339731595349030645620764826, 14070112002164465148821345079, 14823302800086412273154605962,
    15599503113873269771507592430, 16398909516233674847074250659, 17221716113234100697062709200,
    18068114625156376506624440312, 18938294463134066421888791368, 19832442801866852987025936216,
    20750744648685501853556366970, 21693382909216234447999477704, 22660538449872057831872021633,
    23652390157379498310903016805, 24669114995532000142519772836, 25710888059345760087565470643,
    26777882626779779003466590530, 27870270208169254656277938379, 28988220593509968337398179731,
    30131901897720902999465174026, 31301480604002859599724091599, 32497121605402211946355497722,
    33718988244681071193419257615, 34967242352587942084646776243, 36242044284616375878298489094,
    37543552956333099131644684027, 38871925877351569500156022069, 40227319184021831660344674994,
    41609887670902875843860322269, 43019784821079400289920625822, 44457162835380913220645765830,
    45922172660557449302644821411, 47414964016462792694305694196, 48935685422292969180221465223,
    50484484221924871508496212058, 52061506608397195002385515691, 53666897647573366885231711633,
    55300801301023836336758637534, 56963360448162938432315050103, 58654716907673540526179396941,
    60375011458250812280927003397, 62124383858694719478104249442, 63902972867379217024190184602,
    65710916261124599134709271790, 67548350853498046285194019581, 69415412512566081629954095149,
    71312236178121407329635295016, 73238955878405427306431731687, 75195704746346671603983288699,
    77182615035334313491810065734, 79199818134545008882744357259, 81247444583840384083653186499,
    83325624088251648292195078676, 85434485532067007830121803539, 87574156992536806409337496825,
    89744765753210606574632868002, 91946438316919758918369933103, 94179300418418375005080221884,
    96443477036695024672184481841, 98739092406966916169999840557, 101066270032367786325993079498,
    103425132695340225579484249848, 105815802468742687493685732968, 108238400726680982505495713248,
    110693048155073629635858346247, 113179864761960036183479361515, 115698969887560092694693971580,
    118250482214093407470298226235, 120834519775366060352193691443, 123451199966132428425986994362,
    126100639551239325552421973023, 128782954674559402342142396046, 131498260867720472420241714830,
    134246673058637163754026549270, 137028305579851039658897339266, 139843272176685092123512378521,
    142691686015218279623807136606, 145573659690085561987015597434, 148489305232108675523145074106,
    151438734115762692001600229394, 154422057266483214589036063830, 157439385067818882087783812114,
    160490827368433679259358130578, 163576493488963385249831971511, 166696492228730333744736305959,
    169850931872320507086569030958, 173039920196026841826781522627, 176263564474162484716365017025,
    179521971485247605644895047325, 182815247518073247215714976666, 186143498377645569210832303468,
    189506829391013729885300176467, 192905345412984534584806324668, 196339150831726875363575604019,
    199808349574268882867530483367, 203313045111890613527464217361, 206853340465415000878000665601,
    210429338210399709390571462579, 214041140482232442403080352478, 217688848981132172375576812014,
    221372564977058681639456010059, 225092389314532724885319760001, 228848422417369050707592768899,
    232640764293324448455771376300, 236469514538662918303385128739, 240334772342639996713670950633,
    244236636491908206239200543722, 248175205374845537730813739256, 252150576985808814444346909651,
    256162848929313731122243056983, 260212118424143306796610108793, 264298482307386437720781452982,
    268422037038408186402493914165, 272582878702753394102193485027, 276781103015985157297431134567,
    281016805327459663425288231750, 285290080624038837629283103200, 289601023533742210188616015436,
    293949728329339373732437685847, 298336288931884360179604264149, 302760798914193229537477866773,
    307223351504266126186804734454, 311724039588655023021160486325, 316262955715778339748917341348,
    320840192099183588755475848837, 325455840620759170118100492940, 330109992833896406621652646107,
    334802739966602879899330124183, 339534172924568100078561591026, 344304382294182513510591488668,
    349113458345510826266827627501, 353961491035220595061101663556, 358848570009467012071518254257,
    363774784606734785756886345880, 368740223860637996160548838518, 373744976502678780339769678924,
    378789130964965681423954011819, 383872775382892473363300436875, 388995997597778252655570625725,
    394158885159469568208135989242, 399361525328905340981968083449, 404604005080645306151394298966,
    409886411105362692176783924283, 415208829812301833406285202292, 420571347331701395577566428722,
    425974049517183876862291262561, 431417021948112030866614136160, 436900349931912842252881086936,
    442424118506369670364227690233, 447988412441883161398808883490, 453593316243701515278541899445,
    459238914154120679373668168235, 464925290154655027664899142694, 470652527968179070735716462128,
    476420711061040729175391882903, 482229922645146690525828211191, 488080245680020357810236284453,
    493971762874832885927257020303, 499904556690407790769158776365, 505878709341199604816361714193,
    511894302797247042162343238101, 517951418786101125422933031284, 524050138794728716772457849826,
    530190544071391885416848437256, 536372715627503534151720359102, 542596734239459698252962918163,
    548862680450448920800206688891, 555170634572239099631684107948, 561520676686942192464732499227,
    567912886648757158282076602543, 574347344085691504872896713943, 580824128401261804422623635638,
    587343318776173531259733282760, 593904994169980568285108473817, 600509233322724721223586173759,
    607156114756555572642125868606, 613845716777331000668838417665, 620578117476198680516325011870,
    627353394731158880256006037935, 634171626208608855802168381944, 641032889364869143740303889951,
    647937261447692044469099558375, 654884819497752582114484525763, 661875640350122221812911500324,
    668909800635725619245174719045, 675987376782780671727313363580, 683108445018222134727430124195,
    690273081369109062372616670810, 697481361664016325334799238842, 704733361534410454434502290491,
    712029156416010053373701367982, 719368821550131019199639611983, 726752431985016804407370180673,
    734180062577153950006621467403, 741651787992573114405230412876, 749167682708135818593818728128,
    756727821012807123851661789309, 764332277008914454028978061587, 771981124613392770393395959650,
    779674437559016303055469716243, 787412289395617039107234537384, 795194753491290163816413304400,
    803021903033586647514589522075, 810893811030693167198096505728, 818810550312599548323265926973,
    826772193532253908820824830307, 834778813166705683975491744767, 842830481518236707514127485481,
    850927270715480521017135645265, 859069252714530080611233468493, 867256499300034026815336427063,
    875489082086281680393286826893, 883767072518276924115730480895, 892090541872801127446881228602,
    900459561259465268348537439764, 908874201621751403631903707065, 917334533738043636585948679788,
    925840628222648727967666663411, 934392555526806493853221204783, 942990385939690131318091666145,
    951634189589396610437618881620, 960324036443927268675393986351, 969059996312158741354435171858,
    977842138844804359583768102268, 986670533535366144739621339331, 995545249721077526374758166466,
];

/// Number of steps of the transfer curve up to `v`, of which `k` are known.
pub open spec fn srgb_level(v: int, k: int) -> int
    decreases 255 - k,
{
    if 0 <= k < 255 && SRGB_STEPS[k] <= v {
        srgb_level(v, k + 1)
    } else {
        k
    }
}

/// The byte for linear light `v`.
pub fn linear_to_srgb_byte(v: i128) -> (b: u8)
    ensures
        b == srgb_level(v as int, 0),
{
    let mut k: usize = 0;
    while k < 255 && SRGB_STEPS[k] <= v
        invariant
            k <= 255,
            srgb_level(v as int, 0) == srgb_level(v as int, k as int),
        decreases 255 - k,
    {
        k = k + 1;
    }
    k as u8
}

/// Unit of the inner values: they are counted in parts of this.
pub const LAB_UNIT: i128 = 1479000;

pub const LAB_UNIT_CUBED: i128 = 3235225239000000000;

/// Fifteen decimals.
pub const FIXED_ONE: i128 = 1000000000000000;

/// Lightness of byte `l` as an inner value.
pub open spec fn lab_fy(l: int) -> int {
    1000 * (5 * l + 204)
}

/// Relative tristimulus value for an inner value: its cube, but a straight line
/// near black.
pub open spec fn lab_tristimulus(n: int) -> int {
    if n * n * n * 1000000 > 8856 * LAB_UNIT_CUBED {
        n * n * n * FIXED_ONE / (LAB_UNIT_CUBED as int)
    } else {
        (n - 204000) * 1000 * FIXED_ONE / (7787 * LAB_UNIT as int)
    }
}

/// Relative luminance of lightness byte `l`.
pub open spec fn lab_luminance(l: int) -> int {
    if l >= 21 {
        lab_fy(l) * lab_fy(l) * lab_fy(l) * FIXED_ONE / (LAB_UNIT_CUBED as int)
    } else {
        1000 * l * FIXED_ONE / 2303415
    }
}

/// A byte as a number in two's complement.
pub open spec fn signed_byte(b: u8) -> int {
    if b < 128 { b as int } else { b - 256 }
}

/// Display colour of an L*a*b* triple: red, green or blue byte for `c` of 0, 1
/// or 2.
pub open spec fn lab_rgb(l: u8, a: u8, b: u8, c: int) -> int {
    let x = lab_tristimulus(lab_fy(l as int) + 2958 * signed_byte(a));
    let y = lab_luminance(l as int);
    let z = lab_tristimulus(lab_fy(l as int) - 7395 * signed_byte(b));
    srgb_level(
        if c == 0 {
            1815753010113079 * x - 533768937100000 * y - 314815060726704 * z
        } else if c == 1 {
            1998520351000000 * y - 935684609199596 * x - 30325037321549 * z
        } else {
            55585224294771 * x - 118723981200000 * y + 981846491917931 * z
        },
        0,
    )
}

/// Display gray of a lightness byte.
pub open spec fn lab_gray(l: u8) -> int {
    srgb_level(lab_luminance(l as int) * FIXED_ONE, 0)
}

proof fn lemma_cube_bounds(n: int)
    by (nonlinear_arith)
    requires
        -2500000 <= n <= 2500000,
    ensures
        -15625000000000000000 <= n * n * n <= 15625000000000000000,
        0 <= n * n <= 6250000000000,
{
}

/// Quotient rounded down.
fn div_floor(a: i128, d: u64) -> (q: i128)
    requires
        d > 0,
        -0x7fff_ffff_ffff_ffff_0000_0000_0000_0000 <= a,
    ensures
        q == a as int / (d as int),
{
    if a >= 0 {
        let q: u128 = a as u128 / d as u128;
        proof {
            assert(q <= a) by (nonlinear_arith)
                requires
                    q == a as int / (d as int),
                    d >= 1,
                    a >= 0,
            ;
        }
        q as i128
    } else {
        let m: u128 = (-(a + 1)) as u128 / d as u128;
        proof {
            let p = -(a + 1) as int;
            assert(m <= p) by (nonlinear_arith)
                requires
                    m == p / (d as int),
                    d >= 1,
                    p >= 0,
            ;
            vstd::arithmetic::div_mod::lemma_fundamental_div_mod(p, d as int);
            vstd::arithmetic::div_mod::lemma_mod_bound(p, d as int);
            let r = p % (d as int);
            // a == -p - 1 == (-m - 1) * d + (d - 1 - r)
            assert(a as int == (-m - 1) * d + (d - 1 - r)) by (nonlinear_arith)
                requires
                    p == d * m + r,
                    p == -(a + 1),
            ;
            vstd::arithmetic::div_mod::lemma_fundamental_div_mod_converse(a as int, d as int, -m - 1, d - 1 - r);
        }
        -(m as i128) - 1
    }
}

fn tristimulus(n: i128) -> (v: i128)
    requires
        -2500000 <= n <= 2500000,
    ensures
        v == lab_tristimulus(n as int),
        -1000000000000000000 <= v <= 1000000000000000000,
{
    proof {
        lemma_cube_bounds(n as int);
    }
    let square: i128 = n * n;
    let cube: i128 = square * n;
    if cube * 1000000 > 8856 * LAB_UNIT_CUBED {
        div_floor(cube * FIXED_ONE, 3235225239000000000)
    } else {
        div_floor((n - 204000) * 1000 * FIXED_ONE, 11516973000)
    }
}

/// Relative luminance of a lightness byte.
pub fn lab_l_to_y_linear(l: u8) -> (v: i128)
    ensures
        v == lab_luminance(l as int),
        0 <= v <= 1000000000000000000,
{
    let n: i128 = 1000 * (5 * (l as i128) + 204);
    proof {
        lemma_cube_bounds(n as int);
        assert(n * n * n >= 0) by (nonlinear_arith)
            requires
                n >= 0,
        ;
    }
    if l >= 21 {
        let square: i128 = n * n;
        let cube: i128 = square * n;
        div_floor(cube * FIXED_ONE, 3235225239000000000)
    } else {
        div_floor(1000 * (l as i128) * FIXED_ONE, 2303415)
    }
}

/// A byte read in two's complement.
fn as_signed(b: u8) -> (v: i128)
    ensures
        v == signed_byte(b),
{
    if b < 128 {
        b as i128
    } else {
        b as i128 - 256
    }
}

/// Display colour of an L*a*b* triple.
pub fn cielab_to_rgb_byte(l: u8, a: u8, b: u8) -> (rgb: (u8, u8, u8))
    ensures
        rgb.0 == lab_rgb(l, a, b, 0),
        rgb.1 == lab_rgb(l, a, b, 1),
        rgb.2 == lab_rgb(l, a, b, 2),
{
    let fy: i128 = 1000 * (5 * (l as i128) + 204);
    let x: i128 = tristimulus(fy + 2958 * as_signed(a));
    let y: i128 = lab_l_to_y_linear(l);
    let z: i128 = tristimulus(fy - 7395 * as_signed(b));
    let red: i128 = 1815753010113079 * x - 533768937100000 * y - 314815060726704 * z;
    let green: i128 = 1998520351000000 * y - 935684609199596 * x - 30325037321549 * z;
    let blue: i128 = 55585224294771 * x - 118723981200000 * y + 981846491917931 * z;
    (linear_to_srgb_byte(red), linear_to_srgb_byte(green), linear_to_srgb_byte(blue))
}

/// Display gray of a lightness byte.
pub fn lightness_to_gray(l: u8) -> (g: u8)
    ensures
        g == lab_gray(l),
{
    linear_to_srgb_byte(lab_l_to_y_linear(l) * FIXED_ONE)
}

// ----------------------------------------------------------------------
// What the values mean
// ----------------------------------------------------------------------

/// More light is not shown darker.
proof fn lemma_level_mono(v: int, w: int, k: int)
    requires
        v <= w,
        0 <= k <= 255,
    ensures
        k <= srgb_level(v, k) <= srgb_level(w, k) <= 255,
    decreases 255 - k,
{
    if k < 255 && SRGB_STEPS[k] <= w {
        lemma_level_mono(v, w, k + 1);
    }
}

proof fn lemma_level_top(v: int, k: int)
    requires
        v >= 1000000000000000000000000000000,
        0 <= k <= 255,
    ensures
        srgb_level(v, k) == 255,
    decreases 255 - k,
{
    if k < 255 {
        assert(SRGB_STEPS[k] <= 1000000000000000000000000000000);
        lemma_level_top(v, k + 1);
    }
}

proof fn lemma_cube_mono(a: int, b: int)
    by (nonlinear_arith)
    requires
        0 <= a <= b,
    ensures
        0 <= a * a * a <= b * b * b,
{
}

proof fn lemma_div_mono(a: int, b: int, d: int)
    requires
        a <= b,
        0 < d,
    ensures
        a / d <= b / d,
{
    vstd::arithmetic::div_mod::lemma_div_is_ordered(a, b, d);
}

proof fn lemma_luminance_mono(l: int, m: int)
    requires
        0 <= l <= m <= 255,
    ensures
        0 <= lab_luminance(l) <= lab_luminance(m),
{
    let u = LAB_UNIT_CUBED as int;
    let one = FIXED_ONE as int;
    let a = lab_fy(l);
    let b = lab_fy(m);
    lemma_cube_mono(a, b);
    if l >= 21 {
        assert(a * a * a * one <= b * b * b * one) by (nonlinear_arith)
            requires
                a * a * a <= b * b * b,
                0 < one,
        ;
        assert(0 <= a * a * a * one) by (nonlinear_arith)
            requires
                0 <= a * a * a,
                0 < one,
        ;
        lemma_div_mono(a * a * a * one, b * b * b * one, u);
        lemma_div_mono(0, a * a * a * one, u);
    } else if m < 21 {
        lemma_div_mono(1000 * l * one, 1000 * m * one, 2303415);
        lemma_div_mono(0, 1000 * l * one, 2303415);
    } else {
        lemma_div_mono(0, 1000 * l * one, 2303415);
        lemma_div_mono(1000 * l * one, 20000 * one, 2303415);
        let c = lab_fy(21);
        assert(c == 309000);
        assert(c * c * c == 29503629000000000) by (nonlinear_arith)
            requires
                c == 309000,
        ;
        lemma_cube_mono(c, b);
        assert(29503629000000000 * one <= b * b * b * one) by (nonlinear_arith)
            requires
                29503629000000000 <= b * b * b,
                0 < one,
        ;
        lemma_div_mono(29503629000000000 * one, b * b * b * one, u);
        assert(20000 * one / 2303415 <= 29503629000000000 * one / u);
    }
}

/// Lightness: from black for 0 to white for 255, and greater values are not shown darker.
pub proof fn law_lightness(l: u8, m: u8)
    requires
        l <= m,
    ensures
        0 <= lab_gray(l) <= lab_gray(m) <= 255,
        lab_gray(0) == 0,
        lab_gray(255) == 255,
{
    let one = FIXED_ONE as int;
    lemma_luminance_mono(l as int, m as int);
    let a = lab_luminance(l as int);
    let b = lab_luminance(m as int);
    assert(a * one <= b * one) by (nonlinear_arith)
        requires
            a <= b,
            0 < one,
    ;
    lemma_level_mono(a * one, b * one, 0);
    assert(lab_luminance(0) == 0);
    assert(SRGB_STEPS[0] > 0);
    let u = lab_fy(255);
    assert(u == 1479000);
    assert(u * u * u == 3235225239000000000) by (nonlinear_arith)
        requires
            u == 1479000,
    ;
    assert(lab_luminance(255) == one);
    assert(one * one == 1000000000000000000000000000000) by (nonlinear_arith)
        requires
            one == 1000000000000000,
    ;
    lemma_level_top(one * one, 0);
}

proof fn lemma_tristimulus_mono(n: int, m: int)
    requires
        -2500000 <= n <= m <= 2500000,
    ensures
        lab_tristimulus(n) <= lab_tristimulus(m),
{
    let u = LAB_UNIT_CUBED as int;
    let one = FIXED_ONE as int;
    let far = 8856 * u;
    let top = 305994int;
    assert(top * top * top * 1000000 <= far && (top + 1) * (top + 1) * (top + 1) * 1000000 > far);
    assert(m * m * m * 1000000 > far ==> m > top) by {
        if m <= top && m * m * m * 1000000 > far {
            if m < 0 {
                assert(m * m * m <= 0) by (nonlinear_arith)
                    requires
                        m < 0,
                ;
            } else {
                lemma_cube_mono(m, top);
            }
        }
    }
    assert(n * n * n * 1000000 <= far ==> n <= top) by {
        if n > top {
            lemma_cube_mono(top + 1, n);
        }
    }
    if n * n * n * 1000000 > far {
        assert(n > 0) by {
            if n <= 0 {
                assert(n * n * n <= 0) by (nonlinear_arith)
                    requires
                        n <= 0,
                ;
            }
        }
        lemma_cube_mono(n, m);
        assert(n * n * n * one <= m * m * m * one) by (nonlinear_arith)
            requires
                n * n * n <= m * m * m,
                0 < one,
        ;
        lemma_div_mono(n * n * n * one, m * m * m * one, u);
    } else if m * m * m * 1000000 > far {
        let d = 7787 * LAB_UNIT as int;
        lemma_div_mono((n - 204000) * 1000 * one, (top - 204000) * 1000 * one, d);
        lemma_cube_mono(top + 1, m);
        let c = (top + 1) * (top + 1) * (top + 1);
        assert(c * one <= m * m * m * one) by (nonlinear_arith)
            requires
                c <= m * m * m,
                0 < one,
        ;
        lemma_div_mono(c * one, m * m * m * one, u);
        assert((top - 204000) * 1000 * one / d <= c * one / u);
    } else {
        lemma_div_mono((n - 204000) * 1000 * one, (m - 204000) * 1000 * one, 7787 * LAB_UNIT as int);
    }
}

/// The two colour axes, whose bytes are numbers in two's complement: with a greater a* a
/// colour has no less red and blue and no more green, with a greater b* no less red and
/// green and no more blue.
pub proof fn law_colour_axes(l: u8, a: u8, b: u8, more: u8)
    ensures
        signed_byte(a) <= signed_byte(more) ==> {
            &&& lab_rgb(l, a, b, 0) <= lab_rgb(l, more, b, 0)
            &&& lab_rgb(l, a, b, 1) >= lab_rgb(l, more, b, 1)
            &&& lab_rgb(l, a, b, 2) <= lab_rgb(l, more, b, 2)
        },
        signed_byte(b) <= signed_byte(more) ==> {
            &&& lab_rgb(l, a, b, 0) <= lab_rgb(l, a, more, 0)
            &&& lab_rgb(l, a, b, 1) <= lab_rgb(l, a, more, 1)
            &&& lab_rgb(l, a, b, 2) >= lab_rgb(l, a, more, 2)
        },
        signed_byte(a) == (if a >= 128 { a - 256 } else { a as int }),
{
    let f = lab_fy(l as int);
    let y = lab_luminance(l as int);
    let x = lab_tristimulus(f + 2958 * signed_byte(a));
    let z = lab_tristimulus(f - 7395 * signed_byte(b));
    if signed_byte(a) <= signed_byte(more) {
        lemma_tristimulus_mono(f + 2958 * signed_byte(a), f + 2958 * signed_byte(more));
        let w = lab_tristimulus(f + 2958 * signed_byte(more));
        lemma_level_mono(
            1815753010113079 * x - 533768937100000 * y - 314815060726704 * z,
            1815753010113079 * w - 533768937100000 * y - 314815060726704 * z,
            0,
        );
        lemma_level_mono(
            1998520351000000 * y - 935684609199596 * w - 30325037321549 * z,
            1998520351000000 * y - 935684609199596 * x - 30325037321549 * z,
            0,
        );
        lemma_level_mono(
            55585224294771 * x - 118723981200000 * y + 981846491917931 * z,
            55585224294771 * w - 118723981200000 * y + 981846491917931 * z,
            0,
        );
    }
    if signed_byte(b) <= signed_byte(more) {
        lemma_tristimulus_mono(f - 7395 * signed_byte(more), f - 7395 * signed_byte(b));
        let w = lab_tristimulus(f - 7395 * signed_byte(more));
        lemma_level_mono(
            1815753010113079 * x - 533768937100000 * y - 314815060726704 * z,
            1815753010113079 * x - 533768937100000 * y - 314815060726704 * w,
            0,
        );
        lemma_level_mono(
            1998520351000000 * y - 935684609199596 * x - 30325037321549 * z,
            1998520351000000 * y - 935684609199596 * x - 30325037321549 * w,
            0,
        );
        lemma_level_mono(
            55585224294771 * x - 118723981200000 * y + 981846491917931 * w,
            55585224294771 * x - 118723981200000 * y + 981846491917931 * z,
            0,
        );
    }
}

/// Colours are bytes.
pub proof fn lemma_lab_range(l: u8, a: u8, b: u8, c: int)
    ensures
        0 <= lab_rgb(l, a, b, c) <= 255,
{
    let x = lab_tristimulus(lab_fy(l as int) + 2958 * signed_byte(a));
    let y = lab_luminance(l as int);
    let z = lab_tristimulus(lab_fy(l as int) - 7395 * signed_byte(b));
    let v = if c == 0 {
        1815753010113079 * x - 533768937100000 * y - 314815060726704 * z
    } else if c == 1 {
        1998520351000000 * y - 935684609199596 * x - 30325037321549 * z
    } else {
        55585224294771 * x - 118723981200000 * y + 981846491917931 * z
    };
    lemma_level_mono(v, v, 0);
}

} // verus!
