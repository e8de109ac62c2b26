use argonfand::config::{Config, ConfigError};
use argonfand::number::{parse_decimal, parse_digits, parse_whole};
use argonfand::parse::{parse_probe_reply, probe_reading};
use argonfand::table::{Speed, SpeedConfig, Temp};
use argonfand::text::{chars_of, find_char, matches_at, remove_all, slice_of, space_char, trim};

fn chars(s: &str) -> Vec<char> {
    s.chars().collect()
}

fn bp(temp: u8, speed: u8) -> SpeedConfig {
    SpeedConfig { temp: Temp(temp), speed: Speed(speed) }
}

#[test]
fn malformed_line_empty_temperature() {
    assert_eq!(SpeedConfig::from_str("=5"), Err(ConfigError::TempNotNumber));
}

#[test]
fn malformed_line_empty_speed() {
    assert_eq!(SpeedConfig::from_str("5="), Err(ConfigError::SpeedNotNumber));
}

#[test]
fn malformed_line_temperature_not_a_number() {
    assert_eq!(SpeedConfig::from_str("abc=5"), Err(ConfigError::TempNotNumber));
}

#[test]
fn malformed_line_speed_not_a_number() {
    assert_eq!(SpeedConfig::from_str("5=abc"), Err(ConfigError::SpeedNotNumber));
}

#[test]
fn line_without_separator_has_no_speed() {
    assert_eq!(SpeedConfig::from_str("5"), Err(ConfigError::NoSpeed));
    assert_eq!(SpeedConfig::from_str("54'C"), Err(ConfigError::NoSpeed));
}

#[test]
fn line_temperature_is_judged_before_speed() {
    assert_eq!(SpeedConfig::from_str("abc"), Err(ConfigError::TempNotNumber));
    assert_eq!(SpeedConfig::from_str(""), Err(ConfigError::TempNotNumber));
    assert_eq!(SpeedConfig::from_str("x=y"), Err(ConfigError::TempNotNumber));
}

#[test]
fn line_well_formed() {
    assert_eq!(SpeedConfig::from_str("54=10"), Ok(bp(54, 10)));
    assert_eq!(SpeedConfig::from_str("54'C=10"), Ok(bp(54, 10)));
    assert_eq!(SpeedConfig::from_str("37.6'C=100"), Ok(bp(38, 100)));
    assert_eq!(SpeedConfig::from_str("0=0"), Ok(bp(0, 0)));
    assert_eq!(SpeedConfig::from_str("101=100"), Ok(bp(101, 100)));
    assert_eq!(SpeedConfig::from_str("255=100"), Ok(bp(101, 100)));
    assert_eq!(SpeedConfig::from_str("255=101"), Err(ConfigError::SpeedNotNumber));
    assert_eq!(SpeedConfig::from_str("255=255"), Err(ConfigError::SpeedNotNumber));
}

#[test]
fn line_fields_after_the_second_separator_are_ignored() {
    assert_eq!(SpeedConfig::from_str("1=2=3"), Ok(bp(1, 2)));
    assert_eq!(SpeedConfig::from_str("1=2=abc"), Ok(bp(1, 2)));
    assert_eq!(SpeedConfig::from_str("1==3"), Err(ConfigError::SpeedNotNumber));
}

#[test]
fn line_is_not_trimmed_inside() {
    assert_eq!(SpeedConfig::from_str("5 =3"), Err(ConfigError::TempNotNumber));
    assert_eq!(SpeedConfig::from_str("5= 3"), Err(ConfigError::SpeedNotNumber));
}

#[test]
fn line_through_str_parse() {
    assert_eq!("54'C=10".parse::<SpeedConfig>(), Ok(bp(54, 10)));
    assert_eq!("54'C".parse::<Temp>(), Ok(Temp(54)));
    assert_eq!("10".parse::<Speed>(), Ok(Speed(10)));
    assert_eq!("x".parse::<Speed>(), Err(ConfigError::SpeedNotNumber));
}

#[test]
fn decimal_temperature_rounds_to_nearest() {
    assert_eq!(Temp::from_str("37.6'C"), Ok(Temp(38)));
    assert_eq!(Temp::from_str("37.4'C"), Ok(Temp(37)));
    assert_eq!(Temp::from_str("37.5"), Ok(Temp(38)));
    assert_eq!(Temp::from_str("37.49"), Ok(Temp(37)));
    assert_eq!(Temp::from_str("0.5"), Ok(Temp(1)));
    assert_eq!(Temp::from_str("0.0"), Ok(Temp(0)));
}

#[test]
fn decimal_temperature_is_held_to_the_ceiling() {
    assert_eq!(Temp::from_str("100.4"), Ok(Temp(100)));
    assert_eq!(Temp::from_str("100.5"), Ok(Temp(101)));
    assert_eq!(Temp::from_str("101.0"), Ok(Temp(101)));
    assert_eq!(Temp::from_str("150.0"), Ok(Temp(101)));
    assert_eq!(Temp::from_str("999999999999999999999999.9"), Ok(Temp(101)));
}

#[test]
fn decimal_temperature_below_zero_is_zero() {
    assert_eq!(Temp::from_str("-3.5"), Ok(Temp(0)));
    assert_eq!(Temp::from_str("-0.2"), Ok(Temp(0)));
    assert_eq!(Temp::from_str("-500.0'C"), Ok(Temp(0)));
}

#[test]
fn decimal_temperature_with_one_side_of_the_point() {
    assert_eq!(Temp::from_str(".5"), Ok(Temp(1)));
    assert_eq!(Temp::from_str("5."), Ok(Temp(5)));
    assert_eq!(Temp::from_str("+5.5"), Ok(Temp(6)));
    assert_eq!(Temp::from_str("."), Err(ConfigError::TempNotNumber));
    assert_eq!(Temp::from_str("+."), Err(ConfigError::TempNotNumber));
}

#[test]
fn decimal_temperature_malformed() {
    assert_eq!(Temp::from_str("1.2.3"), Err(ConfigError::TempNotNumber));
    assert_eq!(Temp::from_str("1.x"), Err(ConfigError::TempNotNumber));
    assert_eq!(Temp::from_str("x.1"), Err(ConfigError::TempNotNumber));
    assert_eq!(Temp::from_str("--1.0"), Err(ConfigError::TempNotNumber));
    assert_eq!(Temp::from_str("1.0 "), Err(ConfigError::TempNotNumber));
}

#[test]
fn whole_temperature() {
    assert_eq!(Temp::from_str("54"), Ok(Temp(54)));
    assert_eq!(Temp::from_str("54'C"), Ok(Temp(54)));
    assert_eq!(Temp::from_str("'C54"), Ok(Temp(54)));
    assert_eq!(Temp::from_str("5'C4"), Ok(Temp(54)));
    assert_eq!(Temp::from_str("0"), Ok(Temp(0)));
    assert_eq!(Temp::from_str("100"), Ok(Temp(100)));
    assert_eq!(Temp::from_str("101"), Ok(Temp(101)));
    assert_eq!(Temp::from_str("102"), Ok(Temp(101)));
    assert_eq!(Temp::from_str("200"), Ok(Temp(101)));
    assert_eq!(Temp::from_str("255"), Ok(Temp(101)));
    assert_eq!(Temp::from_str("256"), Ok(Temp(101)));
    assert_eq!(Temp::from_str("99999999999999999999999999999'C"), Ok(Temp(101)));
    assert_eq!(Temp::from_str("007"), Ok(Temp(7)));
    assert_eq!(Temp::from_str("+7"), Ok(Temp(7)));
}

#[test]
fn whole_temperature_malformed() {
    assert_eq!(Temp::from_str(""), Err(ConfigError::TempNotNumber));
    assert_eq!(Temp::from_str("'C"), Err(ConfigError::TempNotNumber));
    assert_eq!(Temp::from_str("+"), Err(ConfigError::TempNotNumber));
    assert_eq!(Temp::from_str("-1"), Err(ConfigError::TempNotNumber));
    assert_eq!(Temp::from_str("54C"), Err(ConfigError::TempNotNumber));
    assert_eq!(Temp::from_str("54'"), Err(ConfigError::TempNotNumber));
    assert_eq!(Temp::from_str(" 54"), Err(ConfigError::TempNotNumber));
    assert_eq!(Temp::from_str("1e2"), Err(ConfigError::TempNotNumber));
}

#[test]
fn speed_text() {
    assert_eq!(Speed::from_str("80"), Ok(Speed(80)));
    assert_eq!(Speed::from_str("0"), Ok(Speed(0)));
    assert_eq!(Speed::from_str("100"), Ok(Speed(100)));
    assert_eq!(Speed::from_str("101"), Err(ConfigError::SpeedNotNumber));
    assert_eq!(Speed::from_str("200"), Err(ConfigError::SpeedNotNumber));
    assert_eq!(Speed::from_str("255"), Err(ConfigError::SpeedNotNumber));
    assert_eq!(Speed::from_str("99999999999999999999"), Err(ConfigError::SpeedNotNumber));
    assert_eq!(Speed::from_str("007"), Ok(Speed(7)));
    assert_eq!(Speed::from_str("+9"), Ok(Speed(9)));
    assert_eq!(Speed::from_str("256"), Err(ConfigError::SpeedNotNumber));
    assert_eq!(Speed::from_str("-1"), Err(ConfigError::SpeedNotNumber));
    assert_eq!(Speed::from_str(""), Err(ConfigError::SpeedNotNumber));
    assert_eq!(Speed::from_str("+"), Err(ConfigError::SpeedNotNumber));
    assert_eq!(Speed::from_str("++1"), Err(ConfigError::SpeedNotNumber));
    assert_eq!(Speed::from_str("8.0"), Err(ConfigError::SpeedNotNumber));
    assert_eq!(Speed::from_str("80'C"), Err(ConfigError::SpeedNotNumber));
}

#[test]
fn parse_whole_agrees_with_the_standard_parser_below_the_cap() {
    for text in ["0", "9", "10", "99", "255", "256", "300", "0255", "00000000000000000000001", "+0", "+255", "+256",
        "", "+", "-", "-0", "1a", "a1", " 1", "1 ", "+-1", "٣", "3.0"] {
        assert_eq!(parse_whole(&chars(text), 100000), text.parse::<u32>().ok(), "{}", text);
    }
    for n in 0u32..=300 {
        let text = format!("{}", n);
        assert_eq!(parse_whole(&chars(&text), 100000), Some(n));
    }
}

#[test]
fn parse_whole_holds_the_number_to_the_cap() {
    assert_eq!(parse_whole(&chars("100"), 101), Some(100));
    assert_eq!(parse_whole(&chars("101"), 101), Some(101));
    assert_eq!(parse_whole(&chars("102"), 101), Some(101));
    assert_eq!(parse_whole(&chars("+99999999999999999999999999"), 101), Some(101));
    assert_eq!(parse_whole(&chars("99999999999999999999999999x"), 101), None);
}

#[test]
fn parse_digits_holds_the_number_to_the_cap() {
    let s = chars("x1234y");
    assert_eq!(parse_digits(&s, 1, 5, 100000), Some(1234));
    assert_eq!(parse_digits(&s, 1, 5, 1000), Some(1000));
    assert_eq!(parse_digits(&s, 1, 1, 1000), Some(0));
    assert_eq!(parse_digits(&s, 0, 5, 1000), None);
    assert_eq!(parse_digits(&s, 1, 6, 1000), None);
}

#[test]
fn parse_decimal_wants_a_point() {
    assert_eq!(parse_decimal(&chars("12")), None);
    assert_eq!(parse_decimal(&chars("")), None);
    assert_eq!(parse_decimal(&chars("12.5")), Some(13));
    assert_eq!(parse_decimal(&chars("-")), None);
}

#[test]
fn probe_reply_with_label_and_unit() {
    assert_eq!(parse_probe_reply("temp=37.6'C\n"), Ok(Temp(38)));
    assert_eq!(parse_probe_reply("temp=54.0'C"), Ok(Temp(54)));
    assert_eq!(parse_probe_reply("  temp=61'C \r\n"), Ok(Temp(61)));
    assert_eq!(parse_probe_reply("42"), Ok(Temp(42)));
}

#[test]
fn probe_reply_malformed() {
    assert_eq!(parse_probe_reply(""), Err(ConfigError::MeasureTempOutput));
    assert_eq!(parse_probe_reply("temp="), Err(ConfigError::MeasureTempOutput));
    assert_eq!(parse_probe_reply("error\n"), Err(ConfigError::MeasureTempOutput));
    assert_eq!(parse_probe_reply("VCHI initialization failed"), Err(ConfigError::MeasureTempOutput));
    assert_eq!(parse_probe_reply("temp = 40"), Err(ConfigError::MeasureTempOutput));
}

#[test]
fn probe_that_did_not_run() {
    assert_eq!(probe_reading(None), Err(ConfigError::MeasureTempOutput));
    assert_eq!(probe_reading(Some("temp=37.6'C\n")), Ok(Temp(38)));
    assert_eq!(probe_reading(Some("?")), Err(ConfigError::MeasureTempOutput));
    assert_eq!(probe_reading(Some("temp=250.0'C")), Ok(Temp(101)));
    assert_eq!(probe_reading(Some("temp=250'C")), Ok(Temp(101)));
}

#[test]
fn table_text_with_comments_and_blank_lines() {
    let text = "# fan table\n\n  80'C=100\n45=0\n\t54=10  \n#65=1\n55.2=50\n65=80";
    let config = Config::from_text(text).unwrap();
    assert_eq!(config.values, vec![bp(45, 0), bp(54, 10), bp(55, 50), bp(65, 80), bp(80, 100)]);
    assert_eq!(config.delay, Some(1000));
    assert_eq!(config.force_speed, None);
    assert!(!config.verbose);
    assert!(!config.help);
}

#[test]
fn table_text_empty() {
    assert_eq!(Config::from_text("").unwrap().values, vec![]);
    assert_eq!(Config::from_text("\n\n  \n# nothing\n").unwrap().values, vec![]);
}

#[test]
fn table_text_equal_temperatures_keep_line_order() {
    let config = Config::from_text("50=1\n40=2\n50=3\r\n").unwrap();
    assert_eq!(config.values, vec![bp(40, 2), bp(50, 1), bp(50, 3)]);
}

#[test]
fn table_text_fails_whole_on_one_bad_line() {
    assert_eq!(Config::from_text("45=0\nabc=5\n54=10"), Err(ConfigError::TempNotNumber));
    assert_eq!(Config::from_text("45=0\n54"), Err(ConfigError::NoSpeed));
    assert_eq!(Config::from_text("45=0\n54=\n"), Err(ConfigError::SpeedNotNumber));
    assert_eq!(Config::from_text("45=0\n=3\n54"), Err(ConfigError::TempNotNumber));
    assert_eq!(Config::from_text("45=0\n 54 = 3\n"), Err(ConfigError::TempNotNumber));
}

#[test]
fn table_text_holds_values_to_their_ranges() {
    assert_eq!(Config::from_text("200=50\n").unwrap().values, vec![bp(101, 50)]);
    assert_eq!(Config::from_text("150.7'C=100\n").unwrap().values, vec![bp(101, 100)]);
    assert_eq!(Config::from_text("50=101\n"), Err(ConfigError::SpeedNotNumber));
    assert_eq!(Config::from_text("50=255\n"), Err(ConfigError::SpeedNotNumber));
}

#[test]
fn table_text_reports_the_first_bad_line() {
    assert_eq!(Config::from_text("1\nx=1"), Err(ConfigError::NoSpeed));
    assert_eq!(Config::from_text("1=x\n1"), Err(ConfigError::SpeedNotNumber));
}

#[test]
fn remove_all_takes_every_occurrence_out() {
    assert_eq!(remove_all(&chars("a'Cb'C'Cc"), &chars("'C")), chars("abc"));
    assert_eq!(remove_all(&chars("aaa"), &chars("aa")), chars("a"));
    assert_eq!(remove_all(&chars("abab"), &chars("ab")), chars(""));
    assert_eq!(remove_all(&chars("''CC"), &chars("'C")), chars("'C"));
    assert_eq!(remove_all(&chars(""), &chars("x")), chars(""));
    assert_eq!(remove_all(&chars("temp=temp=5"), &chars("temp=")), chars("5"));
    assert_eq!(remove_all(&chars("abc"), &chars("")), chars("abc"));
    for (s, p) in [("a'Cb'C'Cc", "'C"), ("aaaa", "aa"), ("xtemp=1", "temp="), ("tetemp=mp=", "temp=")] {
        assert_eq!(remove_all(&chars(s), &chars(p)), chars(&s.replace(p, "")));
    }
}

#[test]
fn matches_at_an_index() {
    let s = chars("temp=1");
    assert!(matches_at(&s, 0, &chars("temp=")));
    assert!(!matches_at(&s, 1, &chars("temp=")));
    assert!(matches_at(&s, 5, &chars("1")));
    assert!(!matches_at(&s, 5, &chars("12")));
    assert!(matches_at(&s, 6, &chars("")));
}

#[test]
fn trim_takes_white_space_off_both_ends() {
    assert_eq!(trim(&chars("  a b \t\r\n")), chars("a b"));
    assert_eq!(trim(&chars("")), chars(""));
    assert_eq!(trim(&chars(" \n ")), chars(""));
    assert_eq!(trim(&chars("x")), chars("x"));
    assert_eq!(trim(&chars("\u{a0}\u{3000}x\u{2003}\u{85}")), chars("x"));
    for s in ["  a b \t\r\n", "\u{b}\u{c}q\u{1680}", "\u{200b}z ", "\u{2028}\u{2029}\u{202f}\u{205f}k"] {
        assert_eq!(trim(&chars(s)), chars(s.trim()));
    }
}

#[test]
fn space_char_agrees_with_the_standard_library() {
    let mut n: u32 = 0;
    while n <= 0x3100 {
        if let Some(c) = char::from_u32(n) {
            assert_eq!(space_char(c), c.is_whitespace(), "{:x}", n);
        }
        n += 1;
    }
}

#[test]
fn find_char_gives_the_first_index_or_the_length() {
    assert_eq!(find_char(&chars("a=b=c"), '='), 1);
    assert_eq!(find_char(&chars("abc"), '='), 3);
    assert_eq!(find_char(&chars(""), '='), 0);
    assert_eq!(find_char(&chars("="), '='), 0);
}

#[test]
fn chars_of_and_slice_of() {
    assert_eq!(chars_of("37.6'C"), chars("37.6'C"));
    assert_eq!(chars_of("°é"), vec!['°', 'é']);
    assert_eq!(slice_of(&chars("abcdef"), 2, 4), chars("cd"));
    assert_eq!(slice_of(&chars("abcdef"), 3, 3), chars(""));
}
