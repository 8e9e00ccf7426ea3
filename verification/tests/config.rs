use treecopy::config::{
    check_minimum_memory, margin_from_percent, resolve_margin, Config, StartupError,
    DEFAULT_MARGIN, MEGABYTE, MIN_MEMORY,
};

#[test]
fn constants_have_their_documented_values() {
    assert_eq!(MEGABYTE, 1_048_576);
    assert_eq!(MIN_MEMORY, 104_857_600);
    assert_eq!(DEFAULT_MARGIN, 7_340_032_000);
}

#[test]
fn minimum_memory_is_an_inclusive_floor() {
    assert_eq!(check_minimum_memory(MIN_MEMORY), Ok(()));
    assert_eq!(check_minimum_memory(u64::MAX), Ok(()));
    assert_eq!(
        check_minimum_memory(MIN_MEMORY - 1),
        Err(StartupError::InsufficientMemory)
    );
    assert_eq!(check_minimum_memory(0), Err(StartupError::InsufficientMemory));
}

#[test]
fn percent_margin_is_rounded_down() {
    assert_eq!(margin_from_percent(10, 1000), Ok(100));
    assert_eq!(margin_from_percent(1, 199), Ok(1));
    assert_eq!(margin_from_percent(1, 99), Ok(0));
    assert_eq!(margin_from_percent(100, 12345), Ok(12345));
    assert_eq!(margin_from_percent(33, 1000), Ok(330));
    assert_eq!(margin_from_percent(33, 10), Ok(3));
}

#[test]
fn percent_margin_does_not_overflow() {
    assert_eq!(margin_from_percent(100, u64::MAX), Ok(u64::MAX));
    assert_eq!(margin_from_percent(50, u64::MAX), Ok(u64::MAX / 2));
}

#[test]
fn percent_outside_one_to_hundred_is_rejected() {
    assert_eq!(margin_from_percent(0, 1000), Err(StartupError::InvalidPercent));
    assert_eq!(margin_from_percent(101, 1000), Err(StartupError::InvalidPercent));
    assert_eq!(
        margin_from_percent(u64::MAX, 1000),
        Err(StartupError::InvalidPercent)
    );
}

#[test]
fn absolute_margin_wins_over_percent() {
    assert_eq!(resolve_margin(Some(500), Some(10), 1000), Ok(500));
    assert_eq!(resolve_margin(Some(0), Some(10), 1000), Ok(0));
    assert_eq!(resolve_margin(None, Some(10), 1000), Ok(100));
    assert_eq!(resolve_margin(Some(500), None, 1000), Ok(500));
    assert_eq!(resolve_margin(None, None, 1000), Ok(DEFAULT_MARGIN));
}

#[test]
fn invalid_percent_is_rejected_even_beside_an_absolute_margin() {
    assert_eq!(
        resolve_margin(Some(500), Some(0), 1000),
        Err(StartupError::InvalidPercent)
    );
    assert_eq!(
        resolve_margin(Some(500), Some(101), 1000),
        Err(StartupError::InvalidPercent)
    );
}

#[test]
fn startup_reports_low_memory_before_a_bad_percent() {
    assert_eq!(
        Config::from_readings(None, Some(0), 0, MIN_MEMORY - 1, 1 << 40),
        Err(StartupError::InsufficientMemory)
    );
    assert_eq!(
        Config::from_readings(None, Some(0), 0, MIN_MEMORY, 1 << 40),
        Err(StartupError::InvalidPercent)
    );
}

#[test]
fn startup_builds_the_configuration() {
    assert_eq!(
        Config::from_readings(None, Some(25), 4096, MIN_MEMORY, 8000),
        Ok(Config { margin_bytes: 2000, file_size_limit: 4096 })
    );
    assert_eq!(
        Config::from_readings(Some(77), Some(25), 0, MIN_MEMORY, 8000),
        Ok(Config { margin_bytes: 77, file_size_limit: 0 })
    );
    assert_eq!(
        Config::from_readings(None, None, 9, MIN_MEMORY, 8000),
        Ok(Config { margin_bytes: DEFAULT_MARGIN, file_size_limit: 9 })
    );
    assert_eq!(Config::new(5, 6), Config { margin_bytes: 5, file_size_limit: 6 });
}

#[test]
fn startup_from_the_system_rejects_a_bad_percent_whatever_the_memory() {
    let outcome = Config::from_system(Some(1), Some(0), 0);
    assert!(matches!(
        outcome,
        Err(StartupError::InsufficientMemory) | Err(StartupError::InvalidPercent)
    ));
}

#[test]
fn startup_from_the_system_keeps_the_absolute_margin_and_the_limit() {
    match Config::from_system(Some(12345), None, 678) {
        Ok(config) => {
            assert_eq!(config.margin_bytes, 12345);
            assert_eq!(config.file_size_limit, 678);
        }
        Err(error) => assert_eq!(error, StartupError::InsufficientMemory),
    }
}

#[test]
fn flush_is_needed_when_free_memory_is_below_margin_plus_size() {
    let config = Config::new(100, 0);
    assert!(!config.should_flush_before(1000, 900));
    assert!(config.should_flush_before(1000, 901));
    assert!(!config.should_flush_before(100, 0));
    assert!(config.should_flush_before(99, 0));
    assert!(config.should_flush_before(0, 1));
}

#[test]
fn flush_check_survives_a_sum_beyond_u64() {
    let config = Config::new(u64::MAX, 0);
    assert!(config.should_flush_before(u64::MAX, 1));
    assert!(!config.should_flush_before(u64::MAX, 0));
    let config = Config::new(1, 0);
    assert!(config.should_flush_before(u64::MAX, u64::MAX));
}

#[test]
fn buffering_needs_room_beyond_the_margin() {
    let config = Config::new(100, 0);
    assert!(config.should_buffer(1000, 900));
    assert!(!config.should_buffer(1000, 901));
    assert!(config.should_buffer(100, 0));
    assert!(!config.should_buffer(99, 0));
    assert!(!config.should_buffer(0, 0));
}

#[test]
fn size_limit_overrides_ample_memory() {
    let config = Config::new(100, 50);
    assert!(config.should_buffer(u64::MAX, 50));
    assert!(!config.should_buffer(u64::MAX, 51));
    assert!(!config.should_buffer(u64::MAX, u64::MAX));
    let unlimited = Config::new(100, 0);
    assert!(unlimited.should_buffer(u64::MAX, u64::MAX - 100));
}

#[test]
fn available_memory_is_clamped_at_zero() {
    let config = Config::new(100, 0);
    assert_eq!(config.available_memory(1000), 900);
    assert_eq!(config.available_memory(100), 0);
    assert_eq!(config.available_memory(99), 0);
    assert_eq!(config.available_memory(0), 0);
}

#[test]
fn chunk_size_is_available_memory_capped_by_the_limit() {
    assert_eq!(Config::new(100, 0).chunk_size(1000), 900);
    assert_eq!(Config::new(100, 500).chunk_size(1000), 500);
    assert_eq!(Config::new(100, 900).chunk_size(1000), 900);
    assert_eq!(Config::new(100, 901).chunk_size(1000), 900);
    assert_eq!(Config::new(100, 500).chunk_size(50), 0);
    assert_eq!(Config::new(100, 0).chunk_size(50), 0);
}
