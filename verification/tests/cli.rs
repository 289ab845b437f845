use pokergoat_solver::cli::{
    check_solve_flags, check_threads, parse_on_off, river_options, MemoryMode, AUTO_THRESHOLD_BYTES,
};
use pokergoat_solver::error::Error;
use pokergoat_solver::export::DEFAULT_PRUNE_EPSILON;
use pokergoat_solver::ieee::Double;

fn double(v: f64) -> Double {
    Double { bits: v.to_bits() }
}

#[test]
fn on_off_accepts_common_spellings() {
    for value in ["on", "ON", "true", "1", "yes"] {
        assert_eq!(parse_on_off(value), Ok(true), "{value}");
    }
    for value in ["off", "OFF", "false", "0", "no"] {
        assert_eq!(parse_on_off(value), Ok(false), "{value}");
    }
    assert!(parse_on_off("").is_err());
    assert!(parse_on_off("nope").is_err());
}

#[test]
fn on_off_takes_blanks_around() {
    assert_eq!(parse_on_off("  Yes\n"), Ok(true));
    assert_eq!(parse_on_off("\tfAlSe "), Ok(false));
    assert_eq!(parse_on_off("o n"), Err(Error::NotOnOff));
}

#[test]
fn memory_mode_parses() {
    assert_eq!(MemoryMode::parse("auto").unwrap(), MemoryMode::Auto);
    assert_eq!(MemoryMode::parse("full").unwrap(), MemoryMode::Full);
    assert!(MemoryMode::parse("half").is_err());
}

#[test]
fn memory_modes_choose() {
    assert_eq!(MemoryMode::parse("compressed").unwrap(), MemoryMode::Compressed);
    assert_eq!(MemoryMode::parse("Auto"), Err(Error::UnknownMemoryMode));
    assert_eq!(AUTO_THRESHOLD_BYTES, 8 * 1024 * 1024 * 1024);
    assert!(!MemoryMode::Auto.use_compressed(AUTO_THRESHOLD_BYTES));
    assert!(MemoryMode::Auto.use_compressed(AUTO_THRESHOLD_BYTES + 1));
    assert!(!MemoryMode::Full.use_compressed(u64::MAX));
    assert!(MemoryMode::Compressed.use_compressed(0));
}

#[test]
fn solve_flags_are_checked() {
    assert_eq!(check_solve_flags(true, "half", None), Err(Error::LockUnsupported));
    assert_eq!(check_solve_flags(false, "half", None), Err(Error::UnknownMemoryMode));
    assert_eq!(
        check_solve_flags(false, "full", Some(double(1.5))),
        Err(Error::RiverPruneReach)
    );
    assert_eq!(
        check_solve_flags(false, "full", Some(double(f64::NAN))),
        Err(Error::RiverPruneReach)
    );
    assert_eq!(check_solve_flags(false, "full", Some(double(1.0))), Ok(MemoryMode::Full));
    assert_eq!(check_threads(Some(0)), Err(Error::NoThreads));
    assert_eq!(check_threads(Some(1)), Ok(()));
    assert_eq!(check_threads(None), Ok(()));
}

#[test]
fn river_flags_override_the_job() {
    let a = double(0.25);
    let b = double(0.5);
    assert_eq!(river_options(Some(a), Some(b), Some(false), Some(true)), (a, false));
    assert_eq!(river_options(None, Some(b), None, Some(false)), (b, false));
    assert_eq!(river_options(None, None, None, None), (double(1e-5), true));
    assert_eq!(f64::from_bits(DEFAULT_PRUNE_EPSILON), 1e-5);
}
