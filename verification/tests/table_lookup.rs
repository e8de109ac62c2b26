use argonfand::config::Config;
use argonfand::options::AppOptions;
use argonfand::options::Mode;
use argonfand::table::{insert_entry, lookup, sort_entries, Speed, SpeedConfig, Temp, FALLBACK_SPEED, FULL_SPEED,
    TEMP_CEILING};

fn bp(temp: u8, speed: u8) -> SpeedConfig {
    SpeedConfig { temp: Temp(temp), speed: Speed(speed) }
}

fn default_config() -> Config {
    let mut config = Config::default();
    for entry in [bp(45, 0), bp(54, 10), bp(55, 50), bp(65, 80), bp(80, 100)] {
        config.push(entry);
    }
    config
}

#[test]
fn lookup_below_every_breakpoint_takes_the_lowest() {
    assert_eq!(default_config().temp_speed(Temp(30)), Speed(0));
}

#[test]
fn lookup_at_a_breakpoint_takes_it() {
    let config = default_config();
    assert_eq!(config.temp_speed(Temp(45)), Speed(0));
    assert_eq!(config.temp_speed(Temp(55)), Speed(50));
    assert_eq!(config.temp_speed(Temp(80)), Speed(100));
}

#[test]
fn lookup_between_breakpoints_takes_the_next_hotter() {
    let config = default_config();
    assert_eq!(config.temp_speed(Temp(50)), Speed(10));
    assert_eq!(config.temp_speed(Temp(70)), Speed(100));
    assert_eq!(config.temp_speed(Temp(46)), Speed(10));
    assert_eq!(config.temp_speed(Temp(64)), Speed(80));
}

#[test]
fn lookup_above_every_breakpoint_falls_back() {
    let config = default_config();
    assert_eq!(FALLBACK_SPEED, 0);
    assert_eq!(config.temp_speed(Temp(90)), Speed(FALLBACK_SPEED));
    assert_eq!(config.temp_speed(Temp(81)), Speed(0));
    assert_eq!(config.temp_speed(Temp(255)), Speed(0));
}

#[test]
fn lookup_in_an_empty_table_falls_back() {
    assert_eq!(Config::default().temp_speed(Temp(0)), Speed(0));
    assert_eq!(lookup(&vec![], Temp(40)), Speed(0));
}

#[test]
fn lookup_in_a_table_of_one() {
    let mut config = Config::default();
    config.push(bp(60, 70));
    assert_eq!(config.temp_speed(Temp(0)), Speed(70));
    assert_eq!(config.temp_speed(Temp(60)), Speed(70));
    assert_eq!(config.temp_speed(Temp(61)), Speed(0));
}

#[test]
fn lookup_among_equal_temperatures_takes_the_first_in_the_table() {
    let mut config = Config::default();
    config.push(bp(50, 20));
    config.push(bp(50, 30));
    config.push(bp(40, 5));
    assert_eq!(config.values, vec![bp(40, 5), bp(50, 20), bp(50, 30)]);
    assert_eq!(config.temp_speed(Temp(45)), Speed(20));
    assert_eq!(config.temp_speed(Temp(50)), Speed(20));
}

#[test]
fn lookup_in_an_unordered_table_stops_at_the_first_cooler_breakpoint() {
    let values = vec![bp(70, 1), bp(20, 2), bp(60, 3), bp(65, 4)];
    assert_eq!(lookup(&values, Temp(50)), Speed(3));
    assert_eq!(lookup(&values, Temp(10)), Speed(1));
    assert_eq!(lookup(&values, Temp(66)), Speed(0));
}

#[test]
fn push_keeps_the_table_in_ascending_order() {
    let mut config = Config::default();
    for entry in [bp(80, 100), bp(45, 0), bp(65, 80), bp(54, 10), bp(55, 50)] {
        config.push(entry);
    }
    assert_eq!(config.values, vec![bp(45, 0), bp(54, 10), bp(55, 50), bp(65, 80), bp(80, 100)]);
    assert_eq!(config.values, Config::generated().values);
}

#[test]
fn push_puts_equal_temperatures_in_order_of_arrival() {
    let mut config = Config::default();
    config.push(bp(50, 1));
    config.push(bp(60, 2));
    config.push(bp(50, 3));
    config.push(bp(50, 4));
    assert_eq!(config.values, vec![bp(50, 1), bp(50, 3), bp(50, 4), bp(60, 2)]);
}

#[test]
fn push_orders_a_table_that_was_not_ordered() {
    let mut config = Config::default();
    config.values = vec![bp(9, 1), bp(3, 2), bp(9, 3), bp(1, 4)];
    config.push(bp(3, 5));
    assert_eq!(config.values, vec![bp(1, 4), bp(3, 2), bp(3, 5), bp(9, 1), bp(9, 3)]);
}

#[test]
fn push_leaves_the_options_alone() {
    let mut config = Config::default();
    config.verbose = true;
    config.delay = Some(7);
    config.force_speed = Some(9);
    config.help = true;
    config.push(bp(1, 2));
    assert!(config.verbose);
    assert_eq!(config.delay, Some(7));
    assert_eq!(config.force_speed, Some(9));
    assert!(config.help);
    assert_eq!(config.values, vec![bp(1, 2)]);
}

#[test]
fn insert_entry_goes_behind_what_is_not_hotter() {
    let mut table = vec![bp(10, 0), bp(20, 0), bp(30, 0)];
    insert_entry(&mut table, bp(20, 9));
    assert_eq!(table, vec![bp(10, 0), bp(20, 0), bp(20, 9), bp(30, 0)]);
    insert_entry(&mut table, bp(5, 1));
    assert_eq!(table[0], bp(5, 1));
    insert_entry(&mut table, bp(200, 2));
    assert_eq!(table[5], bp(200, 2));
}

#[test]
fn sort_entries_is_stable() {
    let sorted = sort_entries(&vec![bp(3, 1), bp(1, 2), bp(3, 3), bp(2, 4), bp(1, 5)]);
    assert_eq!(sorted, vec![bp(1, 2), bp(1, 5), bp(2, 4), bp(3, 1), bp(3, 3)]);
    assert_eq!(sort_entries(&vec![]), vec![]);
}

#[test]
fn temperature_is_held_to_the_ceiling() {
    assert_eq!(TEMP_CEILING, 101);
    assert_eq!(Temp::clamped(0), Temp(0));
    assert_eq!(Temp::clamped(101), Temp(101));
    assert_eq!(Temp::clamped(102), Temp(101));
    assert_eq!(Temp::clamped(255), Temp(101));
}

#[test]
fn speed_is_a_duty_cycle_or_nothing() {
    assert_eq!(FULL_SPEED, 100);
    assert_eq!(Speed::checked(0), Some(Speed(0)));
    assert_eq!(Speed::checked(100), Some(Speed(100)));
    assert_eq!(Speed::checked(101), None);
    assert_eq!(Speed::checked(255), None);
}

#[test]
fn into_inner_gives_the_number() {
    assert_eq!(Speed(80).into_inner(), 80);
    assert_eq!(Speed(0).into_inner(), 0);
}

#[test]
fn default_delay_is_a_thousand() {
    assert_eq!(Config::default_delay(), Some(1000));
}

#[test]
fn generated_configuration() {
    let config = Config::generated();
    assert_eq!(config.values, default_config().values);
    assert_eq!(config.delay, Some(1000));
    assert_eq!(config.force_speed, None);
    assert!(!config.help);
    assert!(!config.verbose);
}

#[test]
fn options_mode_generate_first_then_read() {
    let mut opts = AppOptions::default();
    assert_eq!(opts.mode(), Mode::Run);
    opts.read = true;
    assert_eq!(opts.mode(), Mode::ReadTemp);
    opts.generate = true;
    assert_eq!(opts.mode(), Mode::Generate);
}

#[test]
fn options_override_the_loaded_configuration() {
    let mut config = Config::generated();
    config.verbose = true;
    config.help = true;
    config.force_speed = Some(3);
    let opts = AppOptions { help: false, verbose: None, read: false, delay: None, force_speed: None, generate: false };
    opts.apply(&mut config);
    assert!(config.verbose);
    assert!(!config.help);
    assert_eq!(config.delay, Some(1000));
    assert_eq!(config.force_speed, None);
    assert_eq!(config.values, Config::generated().values);

    let opts = AppOptions { help: true, verbose: Some(false), read: false, delay: Some(5), force_speed: Some(60), generate: false };
    opts.apply(&mut config);
    assert!(!config.verbose);
    assert!(config.help);
    assert_eq!(config.delay, Some(5));
    assert_eq!(config.force_speed, Some(60));
    assert_eq!(config.values, Config::generated().values);
}
