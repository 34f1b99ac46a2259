use snowchains::config::{effective_jobs, parse_size, Console};

#[test]
fn test_parse_size() {
    assert_eq!(parse_size("0"), Ok(0));
    assert_eq!(parse_size("1B"), Ok(1));
    assert_eq!(parse_size("1KB"), Ok(10usize.pow(3)));
    assert_eq!(parse_size("1KiB"), Ok(2usize.pow(10)));
    assert_eq!(parse_size("1MB"), Ok(10usize.pow(6)));
    assert_eq!(parse_size("1MiB"), Ok(2usize.pow(20)));
    assert_eq!(parse_size("1GB"), Ok(10usize.pow(9)));
    assert_eq!(parse_size("1GiB"), Ok(2usize.pow(30)));
    assert_eq!(parse_size("4.2KB"), Ok(4200));
    assert_eq!(parse_size("4.2KiB"), Ok(4300));
    assert_eq!(parse_size("1b"), Err("invalid format"));
    assert_eq!(parse_size("B"), Err("invalid format"));
    assert_eq!(parse_size("-0B"), Err("invalid format"));
    assert_eq!(parse_size("infB"), Err("invalid format"));
    assert_eq!(parse_size("NaNB"), Err("invalid format"));
}


#[test]
fn parse_size_disregards_white_space_around_the_text() {
    assert_eq!(parse_size("  1KiB\x0a"), Ok(1_024));
    assert_eq!(parse_size("\x0910 "), Ok(10));
    assert_eq!(parse_size("1 KiB"), Err("invalid format"));
    assert_eq!(parse_size("   "), Err("invalid format"));
    assert_eq!(parse_size(""), Err("invalid format"));
    assert_eq!(parse_size("\u{a0}1KB\u{3000}"), Ok(1_000));
    assert_eq!(parse_size("\u{2003}\u{85}7\u{1680}\u{2028}\u{2029}\u{202f}\u{205f}"), Ok(7));
    assert_eq!(parse_size("\x0b\x0c 3 \x0d\x0a\x09"), Ok(3));
    assert_eq!(parse_size("\u{2000}\u{200a}5"), Ok(5));
    assert_eq!(parse_size("\u{feff}1"), Err("invalid format"));
    assert_eq!(parse_size("1\u{200b}"), Err("invalid format"));
    assert_eq!(parse_size("1\u{a0}KB"), Err("invalid format"));
    assert_eq!(parse_size("\u{3000}"), Err("invalid format"));
}

#[test]
fn parse_size_rounds_the_number_as_binary_floating_point_does() {
    assert_eq!(parse_size("1.001KB"), Ok(1_000));
    assert_eq!(parse_size("1.005KB"), Ok(1_004));
    assert_eq!(parse_size("9007199254740992"), Ok(9_007_199_254_740_992));
    assert_eq!(parse_size("9007199254740993"), Ok(9_007_199_254_740_992));
    assert_eq!(parse_size("9007199254740994"), Ok(9_007_199_254_740_994));
    assert_eq!(parse_size("9007199254740995"), Ok(9_007_199_254_740_996));
    assert_eq!(parse_size("0.4999999999999999999999999999MB"), Ok(500_000));
    assert_eq!(parse_size("0.3KB"), Ok(300));
    assert_eq!(parse_size("0.29KB"), Ok(290));
    assert_eq!(parse_size("1.15KB"), Ok(1_150));
    assert_eq!(parse_size("0.7MiB"), Ok(734_003));
    assert_eq!(parse_size("33.3333GiB"), Ok(35_791_358_341));
    assert_eq!(parse_size("0.1"), Ok(0));
    assert_eq!(parse_size("8.5"), Ok(8));
}

#[test]
fn parse_size_reads_fractions() {
    assert_eq!(parse_size("0.5KiB"), Ok(512));
    assert_eq!(parse_size(".5KiB"), Ok(512));
    assert_eq!(parse_size("5."), Ok(5));
    assert_eq!(parse_size("1.9"), Ok(1));
    assert_eq!(parse_size("1.9B"), Ok(1));
    assert_eq!(parse_size("0.001KB"), Ok(1));
    assert_eq!(parse_size("0.0009KB"), Ok(0));
    assert_eq!(parse_size("2.5GiB"), Ok(2_684_354_560));
    assert_eq!(parse_size("+3MB"), Ok(3_000_000));
}

#[test]
fn parse_size_refuses_what_is_no_number() {
    assert_eq!(parse_size("."), Err("invalid format"));
    assert_eq!(parse_size(".KB"), Err("invalid format"));
    assert_eq!(parse_size("1.2.3"), Err("invalid format"));
    assert_eq!(parse_size("++1"), Err("invalid format"));
    assert_eq!(parse_size("1kb"), Err("invalid format"));
    assert_eq!(parse_size("KiB"), Err("invalid format"));
    assert_eq!(parse_size("12x4"), Err("invalid format"));
    assert_eq!(parse_size("1,5KB"), Err("invalid format"));
    assert_eq!(parse_size("1e"), Err("invalid format"));
    assert_eq!(parse_size("e3"), Err("invalid format"));
    assert_eq!(parse_size(".e3"), Err("invalid format"));
    assert_eq!(parse_size("1e+"), Err("invalid format"));
    assert_eq!(parse_size("1e3.5"), Err("invalid format"));
    assert_eq!(parse_size("1ee3"), Err("invalid format"));
    assert_eq!(parse_size("1e 3"), Err("invalid format"));
    assert_eq!(parse_size("-1e3"), Err("invalid format"));
    assert_eq!(parse_size("-1"), Err("invalid format"));
    assert_eq!(parse_size("inf"), Err("invalid format"));
    assert_eq!(parse_size("infinity"), Err("invalid format"));
    assert_eq!(parse_size("nan"), Err("invalid format"));
    assert_eq!(parse_size("+inf"), Err("invalid format"));
    assert_eq!(parse_size("0x10"), Err("invalid format"));
    assert_eq!(parse_size("1_000"), Err("invalid format"));
}

#[test]
fn parse_size_reads_exponents() {
    assert_eq!(parse_size("1e3"), Ok(1_000));
    assert_eq!(parse_size("1E3"), Ok(1_000));
    assert_eq!(parse_size("1e+3KB"), Ok(1_000_000));
    assert_eq!(parse_size("1.e3"), Ok(1_000));
    assert_eq!(parse_size(".5e1"), Ok(5));
    assert_eq!(parse_size("+2e0B"), Ok(2));
    assert_eq!(parse_size("2.5e-1KiB"), Ok(256));
    assert_eq!(parse_size("1e-3"), Ok(0));
    assert_eq!(parse_size("1e-3KB"), Ok(1));
    assert_eq!(parse_size("12345e-2"), Ok(123));
    assert_eq!(parse_size("0.00012e5"), Ok(12));
    assert_eq!(parse_size("1.5e1MB"), Ok(15_000_000));
    assert_eq!(parse_size("123456789e-9GiB"), Ok(132_560_717));
    assert_eq!(parse_size("1e-9GB"), Ok(1));
    assert_eq!(parse_size("1e-10GB"), Ok(0));
    assert_eq!(parse_size("9e-12GiB"), Ok(0));
    assert_eq!(parse_size("1e19"), Ok(10_000_000_000_000_000_000));
    assert_eq!(parse_size("1e0003"), Ok(1_000));
    assert_eq!(parse_size("0e999999999999999999999999999999999999999999"), Ok(0));
    assert_eq!(parse_size("0.0e-999999999999999999999999999999999999999"), Ok(0));
    assert_eq!(parse_size("1e-99999999999999999999999999999999999999999"), Ok(0));
    assert_eq!(parse_size("1e-320"), Ok(0));
    assert_eq!(parse_size("4.9e-324"), Ok(0));
    assert_eq!(parse_size("2.4e-324"), Ok(0));
    let text = "0.00000000000000000000000000000000000000000000000000000000000000000000000000000000000000000000000000000000000000000000000000000000000000000000000000000000000000000000000000000000000000000000000000000000000000000000000000000000000000000000000000000000000000000000000000000000000000000000000000000000000000000000000000000000000000000000000000000000000000000000000000000000000000000000000000000000000000001e401";
    assert_eq!(parse_size(text), Ok(1));
    let text = "777777777777777777777777777777777777777777777777777777777777777777777777777777777777777777777777777777777777777777777777777777777777777777777777777777777777777777777777777777777777777777777777777777777777777777777777777777777777777777777777777777777777777777777777777777777777777777777777777777777777777e-300";
    assert_eq!(parse_size(text), Ok(777));
    let text = "0.00000000000000000000000000000000000000000000000000000000000000000000000000000000000000000000000000000000000000000000000000000000000000000000000000000000000000000000000000000000000000000000000000000000000000000000000000000000000000000000000000000000000000000000000000000000000000000000000000000000000000000000000000000000000000000000000000000000000000000000000000000000000000000000000000000000000000000000000000000000000000000000000000000000000000000000000000000000000000000000000000000000000000000000000000000000000000000000000000000000000000000000000000000000000000000000000000000000000000000000000000000000000000000000000000000000000000000000000000000000000000000000000000000000000000000000000000000000000000000000000000000000000000000000000000000000000000000000000000000000000000000000000000000000000000000000000000000000000000000000000000000000000000000000000000000000000000000000000000000000000000000000000000000000000000000000000000000000000000000000000000000000000000000000000000000000000000000000000000000000000000000000000000000000000000000000000000000000000000000000000000000000000000000000000000000000000000000000000000000000000000000000000000000000000000000000000000000000000000000000000000000000000000000000000000000000000000000000000000000000000000000000000000000000000000000000000000001";
    assert_eq!(parse_size(text), Ok(0));
    let text = "00000000000000000000000000000000000000000000000000000000000000000000000000000000000000000000000000000000000000000000000000000000000000000000000000000000000000000000000000000000000000000000000000000000000000000000000000000000000000000000000000000000000000000000000000000000000000000000000000000000000000000000000000000000000000000000000000000000000000000000000000000000000000000000000000000000000000001";
    assert_eq!(parse_size(text), Ok(1));
}

#[test]
fn parse_size_saturates() {
    assert_eq!(parse_size("99999999999999999999999999999"), Ok(usize::MAX));
    assert_eq!(parse_size("18446744073709551615"), Ok(usize::MAX));
    assert_eq!(parse_size("18446744073709551616"), Ok(usize::MAX));
    assert_eq!(parse_size("18446744073GiB"), Ok(usize::MAX));
    assert_eq!(parse_size("17179869183GiB"), Ok(18_446_744_072_635_809_792));
    assert_eq!(parse_size("1e20"), Ok(usize::MAX));
    assert_eq!(parse_size("1e22"), Ok(usize::MAX));
    assert_eq!(parse_size("1e23"), Ok(usize::MAX));
    assert_eq!(parse_size("1e308"), Ok(usize::MAX));
    let text = "99999999999999999999999999999999999999999999999999999999999999999999999999999999999999999999999999999999999999999999999999999999999999999999999999999999999999999999999999999999999999999999999999999999999999999999999999999999999999999999999999999999999999999999999999999999999999999999999999999999999999999999";
    assert_eq!(parse_size(text), Ok(usize::MAX));
}

#[test]
fn parse_size_refuses_what_rounds_beyond_the_finite_numbers() {
    assert_eq!(parse_size("1.7976931348623157e308"), Ok(usize::MAX));
    assert_eq!(parse_size("1.7976931348623158e308"), Ok(usize::MAX));
    assert_eq!(parse_size("17976931348623158e292"), Ok(usize::MAX));
    assert_eq!(parse_size("1.7976931348623159e308"), Err("invalid format"));
    assert_eq!(parse_size("2e308"), Err("invalid format"));
    assert_eq!(parse_size("1e309"), Err("invalid format"));
    assert_eq!(parse_size("0.001e312"), Err("invalid format"));
    assert_eq!(parse_size("0.001e311"), Ok(usize::MAX));
    assert_eq!(parse_size("1e99999999999999999999999999999999999999999"), Err("invalid format"));
    let text = "1000000000000000000000000000000000000000000000000000000000000000000000000000000000000000000000000000000000000000000000000000000000000000000000000000000000000000000000000000000000000000000000000000000000000000000000000000000000000000000000000000000000000000000000000000000000000000000000000000000000000000000000";
    assert_eq!(parse_size(text), Err("invalid format"));
    let text = "100000000000000000000000000000000000000000000000000000000000000000000000000000000000000000000000000000000000000000000000000000000000000000000000000000000000000000000000000000000000000000000000000000000000000000000000000000000000000000000000000000000000000000000000000000000000000000000000000000000000000000000";
    assert_eq!(parse_size(text), Ok(usize::MAX));
    let text = "999999999999999999999999999999999999999999999999999999999999999999999999999999999999999999999999999999999999999999999999999999999999999999999999999999999999999999999999999999999999999999999999999999999999999999999999999999999999999999999999999999999999999999999999999999999999999999999999999999999999999999999";
    assert_eq!(parse_size(text), Err("invalid format"));
    let text = "179769313486231580793728971405303415079934132710037826936173778980444968292764750946649017977587207096330286416692887910946555547851940402630657488671505820681908902000708383676273854845817711531764475730270069855571366959622842914819860834936475292719074168444365510704342711559699508093042880177904174497792";
    assert_eq!(parse_size(text), Err("invalid format"));
    let text = "179769313486231580793728971405303415079934132710037826936173778980444968292764750946649017977587207096330286416692887910946555547851940402630657488671505820681908902000708383676273854845817711531764475730270069855571366959622842914819860834936475292719074168444365510704342711559699508093042880177904174497791";
    assert_eq!(parse_size(text), Ok(usize::MAX));
    let text = "179769313486231580793728971405303415079934132710037826936173778980444968292764750946649017977587207096330286416692887910946555547851940402630657488671505820681908902000708383676273854845817711531764475730270069855571366959622842914819860834936475292719074168444365510704342711559699508093042880177904174497792.0";
    assert_eq!(parse_size(text), Err("invalid format"));
    let text = "179769313486231580793728971405303415079934132710037826936173778980444968292764750946649017977587207096330286416692887910946555547851940402630657488671505820681908902000708383676273854845817711531764475730270069855571366959622842914819860834936475292719074168444365510704342711559699508093042880177904174497791.999";
    assert_eq!(parse_size(text), Ok(usize::MAX));
    let text = "0.179769313486231580793728971405303415079934132710037826936173778980444968292764750946649017977587207096330286416692887910946555547851940402630657488671505820681908902000708383676273854845817711531764475730270069855571366959622842914819860834936475292719074168444365510704342711559699508093042880177904174497792e309";
    assert_eq!(parse_size(text), Err("invalid format"));
    let text = "1000000000000000000000000000000000000000000000000000000000000000000000000000000000000000000000000000000000000000000000000000000000000000000000000000000000000000000000000000000000000000000000000000000000000000000000000000000000000000000000000000000000000000000000000000000000000000000000000000000000000000000000000000000000000000000000000000000000000000000000000000000000000000000000000000000000000000000000000000000000000000000000000000000000000000000";
    assert_eq!(parse_size(text), Err("invalid format"));
    assert_eq!(parse_size("1e400"), Err("invalid format"));
    assert_eq!(parse_size("1e401"), Err("invalid format"));
    assert_eq!(parse_size("0.000000000000000000000000000000000000000000000000001e452"), Err("invalid format"));
}

#[test]
fn parse_size_rounds_the_product_with_the_unit_too() {
    assert_eq!(parse_size("1e305KB"), Ok(usize::MAX));
    assert_eq!(parse_size("1.7e305KB"), Ok(usize::MAX));
    assert_eq!(parse_size("1.8e305KB"), Err("invalid format"));
    assert_eq!(parse_size("1e308KB"), Err("invalid format"));
    assert_eq!(parse_size("1.7976931348623157e305KB"), Ok(usize::MAX));
    assert_eq!(parse_size("1.7976931348623158e305KB"), Err("invalid format"));
    assert_eq!(parse_size("1.7976931348623159e305KB"), Err("invalid format"));
    assert_eq!(parse_size("1.7e302MB"), Ok(usize::MAX));
    assert_eq!(parse_size("1.8e302MB"), Err("invalid format"));
    assert_eq!(parse_size("1.797693134862315e299GB"), Ok(usize::MAX));
    assert_eq!(parse_size("1.79769313486232e299GB"), Err("invalid format"));
    assert_eq!(parse_size("1.75e305KiB"), Ok(usize::MAX));
    assert_eq!(parse_size("1.76e305KiB"), Err("invalid format"));
    assert_eq!(parse_size("1.71e302MiB"), Ok(usize::MAX));
    assert_eq!(parse_size("1.72e302MiB"), Err("invalid format"));
    assert_eq!(parse_size("1.67e299GiB"), Ok(usize::MAX));
    assert_eq!(parse_size("1.68e299GiB"), Err("invalid format"));
    let text = "175555970201398028118875948637991616288998176474646315367357206035590789348403077096336931618737506930010045328801648350533745652199160549444001453780767403009676662110066780933861186372868858917738745830341865093331413046506682534003770346617651653045970867621450694047209679257519050872112187673734545408KiB";
    assert_eq!(parse_size(text), Err("invalid format"));
    let text = "175555970201398028118875948637991616288998176474646315367357206035590789348403077096336931618737506930010045328801648350533745652199160549444001453780767403009676662110066780933861186372868858917738745830341865093331413046506682534003770346617651653045970867621450694047209679257519050872112187673734545407KiB";
    assert_eq!(parse_size(text), Ok(usize::MAX));
    let text = "167423219872854259604335735929481140412328888392111125342709737811651982639697148414933139437425143175134702042390488005193467762183342503971101239949004557618786489591662198003636537907475336950052972631780495732623494192606623205188532206170703557058306567784739202544412307031172800895797908471808GiB";
    assert_eq!(parse_size(text), Err("invalid format"));
    let text = "167423219872854259604335735929481140412328888392111125342709737811651982639697148414933139437425143175134702042390488005193467762183342503971101239949004557618786489591662198003636537907475336950052972631780495732623494192606623205188532206170703557058306567784739202544412307031172800895797908471807GiB";
    assert_eq!(parse_size(text), Ok(usize::MAX));
}

#[test]
fn parse_size_agrees_with_binary_arithmetic_on_plain_numbers() {
    let table = [
        ("87193932524097970.4e7KB", Ok(usize::MAX)),
        ("34059.484714KB", Ok(34_059_484)),
        ("952778777965247.8977359587783379667GiB", Ok(usize::MAX)),
        ("72057594037927939.5MiB", Ok(usize::MAX)),
        ("1125899906842624.5B", Ok(1_125_899_906_842_624)),
        ("3.683843083689922GiB", Ok(3_955_496_392)),
        ("4557897579613419.5371390217677042494", Ok(4_557_897_579_613_420)),
        ("51.e10KB", Ok(510_000_000_000_000)),
        ("4503599627370496GB", Ok(usize::MAX)),
        ("3.804E19GiB", Ok(usize::MAX)),
        ("26093.221563194MiB", Ok(27_360_725_893)),
        ("20.63987KB", Ok(20_639)),
        ("36028797018963971", Ok(36_028_797_018_963_968)),
        ("477924.66E-4GB", Ok(47_792_466_000)),
        ("2305843009213693949.5MiB", Ok(usize::MAX)),
        (".3475e20GB", Ok(usize::MAX)),
        ("9.122972883099395579116814KB", Ok(9_122)),
        ("20161790447715.4244638675KB", Ok(20_161_790_447_715_424)),
        ("6.4017784352595718e282MiB", Ok(usize::MAX)),
        ("2679066.06198532685GiB", Ok(2_876_625_280_012_622)),
        ("8.82E+22GB", Ok(usize::MAX)),
        ("272.84360076511369931789766KiB", Ok(279_391)),
        ("1779751111.175524408", Ok(1_779_751_111)),
        ("1.E+8", Ok(100_000_000)),
        ("6091158825763313e+21B", Ok(usize::MAX)),
        ("1125899906842627GiB", Ok(usize::MAX)),
        ("580308.481049MiB", Ok(608_497_545_824)),
        ("382636.06670815822068478GiB", Ok(410_852_348_195_403)),
        ("7799383.0311259571336717540107KiB", Ok(7_986_568_223)),
        ("576460752303423485.5GiB", Ok(usize::MAX)),
        ("7.391e296GiB", Ok(usize::MAX)),
        ("849.35055904682414MB", Ok(849_350_559)),
        ("429989057.19031GiB", Ok(461_697_234_567_563_776)),
        ("9.1296467e-19MB", Ok(0)),
        ("47296e+8MB", Ok(4_729_600_000_000_000_000)),
        ("6.437426252763431e296KiB", Ok(usize::MAX)),
        ("58267.18084287563624E23B", Ok(usize::MAX)),
        ("8.929838394909533e297KiB", Ok(usize::MAX)),
        ("3.4e+8", Ok(340_000_000)),
        ("7453910561.1298747609e+1GB", Ok(usize::MAX)),
        ("399e20KiB", Ok(usize::MAX)),
        ("1319345805674.03GiB", Ok(usize::MAX)),
        ("2574146.135407996738161190135KB", Ok(2_574_146_135)),
        ("522370320357486164.9e+21GB", Ok(usize::MAX)),
        ("6247.e+9KiB", Ok(6_396_928_000_000_000)),
        ("044369375e+19", Ok(usize::MAX)),
        ("4844.5827864048E2MB", Ok(484_458_278_640)),
        ("56.4293816438859237695246713", Ok(56)),
        ("30149094E+19GiB", Ok(usize::MAX)),
        ("8.22039569581644e298KiB", Ok(usize::MAX)),
        ("964315885491.069e-19KiB", Ok(0)),
        ("943288091.3299809806011159597179GB", Ok(943_288_091_329_980_928)),
        ("81732244.6920", Ok(81_732_244)),
        ("16.867180013587MB", Ok(16_867_180)),
        ("94.3E20GB", Ok(usize::MAX)),
        ("5.3909e282GB", Ok(usize::MAX)),
        ("5.19E16MiB", Ok(usize::MAX)),
        ("5316842845237042.37746271041KB", Ok(5_316_842_845_237_042_176)),
        ("045727063300527915.7e3B", Ok(usize::MAX)),
        ("3.9780KiB", Ok(4_073)),
    ];
    for (text, size) in table.iter() {
        assert_eq!(parse_size(text), *size, "{}", text);
    }
}

#[test]
fn parse_size_agrees_with_binary_arithmetic_on_more_numbers() {
    let table = [
        ("1125899906842621.5GiB", Ok(usize::MAX)),
        ("3E-4", Ok(0)),
        ("1772657862661167.315717839455743550", Ok(1_772_657_862_661_167)),
        ("841880699.82798e-18MiB", Ok(0)),
        ("28.7134312KiB", Ok(29_402)),
        ("3.458e286MiB", Ok(usize::MAX)),
        ("18446744073709551619GiB", Ok(usize::MAX)),
        ("9007199254740994.5GiB", Ok(usize::MAX)),
        ("1152921504606846978.5MiB", Ok(usize::MAX)),
        ("1.9E1GiB", Ok(20_401_094_656)),
        ("8799988.811089566e22GiB", Ok(usize::MAX)),
        ("74603.22000261525GB", Ok(74_603_220_002_615)),
        ("77.5348737268985E11", Ok(7_753_487_372_689)),
        ("56292E+1KB", Ok(562_920_000)),
        ("6710703807.233141E+11KiB", Ok(usize::MAX)),
        ("3.740159e300GiB", Err("invalid format")),
        ("25738860739.854204890420327275422GiB", Ok(usize::MAX)),
        ("6.5800e281KiB", Ok(usize::MAX)),
        ("87930757825.22118050522011680KB", Ok(87_930_757_825_221)),
        ("7576143096587274084628E+23GiB", Ok(usize::MAX)),
        ("5271169239833.924358826E21MB", Ok(usize::MAX)),
        ("6.120601328772e309MB", Err("invalid format")),
        ("1.83371025119811e297B", Ok(usize::MAX)),
        ("8356.56440012B", Ok(8_356)),
        ("9171077.443149545194E-12", Ok(0)),
        ("4611686018427387907.5B", Ok(4_611_686_018_427_387_904)),
        ("5.24571549691GB", Ok(5_245_715_496)),
        ("8.5599209155e299GiB", Err("invalid format")),
        ("751809437662.74668958522137712575MiB", Ok(788_329_332_906_652_288)),
        ("3677.618E-19B", Ok(0)),
        ("204091.029898462KiB", Ok(208_989_214)),
        ("6.47956066079356E+5GB", Ok(647_956_066_079_356)),
        ("53.65988858e+0KB", Ok(53_659)),
        ("7.675e301B", Ok(usize::MAX)),
        ("3.610879898546433e284KiB", Ok(usize::MAX)),
        ("6.88e301MB", Ok(usize::MAX)),
        ("487536526782.3480759MB", Ok(487_536_526_782_348_096)),
        ("5177712443.725568E-15MiB", Ok(5)),
        ("69082195414298524404E-10MiB", Ok(7_243_793_213_874_349)),
        ("288230376151711742.5MiB", Ok(usize::MAX)),
        ("2305843009213693951GiB", Ok(usize::MAX)),
        ("954532994930566018668E+18GiB", Ok(usize::MAX)),
        ("8.44865315149421524058464B", Ok(8)),
        ("0.2596604E+23MB", Ok(usize::MAX)),
        ("1020207029.6108646832947069812256507KB", Ok(1_020_207_029_610)),
        ("72057594037927937.5KB", Ok(usize::MAX)),
        ("4611686018427387905B", Ok(4_611_686_018_427_387_904)),
        ("25161532685194E5B", Ok(2_516_153_268_519_399_936)),
        ("82053476070731187.KB", Ok(usize::MAX)),
        ("8668464482.57173994094", Ok(8_668_464_482)),
        ("1090577685660.69616293e23KB", Ok(usize::MAX)),
        ("7.0e283", Ok(usize::MAX)),
        ("591568.71372353624961GiB", Ok(635_192_069_694_843)),
        ("9007199254740995.5KB", Ok(9_007_199_254_740_996_096)),
        ("050684952342573391689e2KiB", Ok(usize::MAX)),
        ("92.6776060470700KB", Ok(92_677)),
        ("7.529159684e291B", Ok(usize::MAX)),
        ("2265.90015GiB", Ok(2_432_991_760_062)),
        ("6.5428443420573162e291GB", Ok(usize::MAX)),
        ("7073.6564e23GB", Ok(usize::MAX)),
    ];
    for (text, size) in table.iter() {
        assert_eq!(parse_size(text), *size, "{}", text);
    }
}

#[test]
fn parse_size_agrees_with_binary_arithmetic_on_yet_more_numbers() {
    let table = [
        ("6.017703195712685072712KiB", Ok(6_162)),
        ("29393218068472.50205850545909057426", Ok(29_393_218_068_472)),
        ("8296330771760.744874e+23MiB", Ok(usize::MAX)),
        ("41.92051811446514793305e-23GB", Ok(0)),
        ("5.5760e307B", Ok(usize::MAX)),
        ("67.7GiB", Ok(72_692_321_484)),
        ("830912434943.584522436515314123636050GB", Ok(usize::MAX)),
        ("0030869268624651482e17KiB", Ok(usize::MAX)),
        ("460373192713820.2777255431167KB", Ok(460_373_192_713_820_224)),
        ("576460752303423490.5KiB", Ok(usize::MAX)),
        ("3036.3450E+8KB", Ok(303_634_500_000_000)),
        ("2425.638785062E+5MiB", Ok(254_346_661_468_517)),
        ("4611686018427387905GiB", Ok(usize::MAX)),
        ("2.317e287MiB", Ok(usize::MAX)),
        ("55371445.2866820118MiB", Ok(58_061_168_612_927)),
        ("8.07418301880648347B", Ok(8)),
        ("28.696691704809B", Ok(28)),
        ("799348460821352189.3e1KB", Ok(usize::MAX)),
        ("15.2636620E15GiB", Ok(usize::MAX)),
        ("4.26566e8KiB", Ok(436_803_584_000)),
        ("87795458480.911487556E+12MB", Ok(usize::MAX)),
        ("980459424.7GB", Ok(980_459_424_700_000_000)),
        ("54560.222350930619645MB", Ok(54_560_222_350)),
        ("243.489086", Ok(243)),
        ("978251997840345.8803251KiB", Ok(1_001_730_045_788_514_176)),
        ("7.4634347e283GiB", Ok(usize::MAX)),
        ("32337385602.21943768090710B", Ok(32_337_385_602)),
        ("144115188075855873KB", Ok(usize::MAX)),
        ("4611686018427387903KB", Ok(usize::MAX)),
        ("1524689824.28221548866838MB", Ok(1_524_689_824_282_215)),
        ("1152921504606846976GB", Ok(usize::MAX)),
        ("36028797018963967.5MB", Ok(usize::MAX)),
        ("6786032.7KB", Ok(6_786_032_700)),
        ("839.16631678e+25MB", Ok(usize::MAX)),
        ("4.8e306GiB", Err("invalid format")),
        ("25619496191.0e+22GiB", Ok(usize::MAX)),
        ("18014398509481986.5MB", Ok(usize::MAX)),
        ("4503599627370496MiB", Ok(usize::MAX)),
        ("4509414.e11MiB", Ok(usize::MAX)),
        ("6.6897837782647428e280GiB", Ok(usize::MAX)),
        ("33484.4570316818757843042954133B", Ok(33_484)),
        ("2278539964304504.3690396012215771443GB", Ok(usize::MAX)),
        ("23668523080584.7924037985607830365622GiB", Ok(usize::MAX)),
        ("01713198685407.1841483E+4GiB", Ok(usize::MAX)),
        ("39748990973495.73250089469853MiB", Ok(usize::MAX)),
        (".37E+6KiB", Ok(378_880_000)),
        ("9007199254740989.5GiB", Ok(usize::MAX)),
        ("4503599627370499MB", Ok(usize::MAX)),
        ("680006E-13MB", Ok(0)),
        ("14961403957694961.5254KiB", Ok(15_320_477_652_679_641_088)),
        ("976771179522.92622325442690293MiB", Ok(1_024_218_816_339_431_936)),
        ("5270926.87407e-14KiB", Ok(0)),
        ("834440.495682171834891", Ok(834_440)),
        ("408627019630E-20", Ok(0)),
        ("846837.05GiB", Ok(909_284_358_697_779)),
        ("36042872848549482.9114284622571KiB", Ok(usize::MAX)),
        ("5540089457207129.57327403757383817876KB", Ok(5_540_089_457_207_130_112)),
        ("34478.473022150372495413B", Ok(34_478)),
        ("1.919480e295GB", Ok(usize::MAX)),
        (".1609E10GiB", Ok(1_727_650_594_816_000_000)),
    ];
    for (text, size) in table.iter() {
        assert_eq!(parse_size(text), *size, "{}", text);
    }
}

#[test]
fn effective_jobs_prefers_the_request() {
    assert_eq!(effective_jobs(Some(4), Some(2)), 4);
    assert_eq!(effective_jobs(None, Some(2)), 2);
    assert_eq!(effective_jobs(None, None), 1);
    assert_eq!(effective_jobs(Some(0), Some(3)), 3);
    assert_eq!(effective_jobs(Some(0), Some(0)), 1);
}

#[test]
fn console_defaults() {
    let console = Console::default();
    assert!(!console.cjk);
    assert_eq!(console.alt_width, None);
}
