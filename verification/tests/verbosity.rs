use rasterize_text::Verbosity;

#[test]
fn from_str_names_every_level() {
    assert_eq!(Verbosity::from_str("error"), Some(Verbosity::Error));
    assert_eq!(Verbosity::from_str("warn"), Some(Verbosity::Warn));
    assert_eq!(Verbosity::from_str("info"), Some(Verbosity::Info));
    assert_eq!(Verbosity::from_str("debug"), Some(Verbosity::Debug));
    assert_eq!(Verbosity::from_str("trace"), Some(Verbosity::Trace));
}

#[test]
fn from_str_rejects_unknown_names() {
    assert_eq!(Verbosity::from_str("verbose"), None);
    assert_eq!(Verbosity::from_str("ERROR"), None);
    assert_eq!(Verbosity::from_str(""), None);
}

#[test]
fn name_round_trips() {
    let levels = [
        Verbosity::Error,
        Verbosity::Warn,
        Verbosity::Info,
        Verbosity::Debug,
        Verbosity::Trace,
    ];
    for v in levels {
        assert_eq!(Verbosity::from_str(&v.name()), Some(v));
    }
}

#[test]
fn default_is_info() {
    assert_eq!(Verbosity::default(), Verbosity::Info);
    assert_eq!(Verbosity::default().name(), "info");
}

#[test]
fn to_levelfilter_matches_log_levels() {
    assert_eq!(Verbosity::Error.to_levelfilter(), log::LevelFilter::Error);
    assert_eq!(Verbosity::Warn.to_levelfilter(), log::LevelFilter::Warn);
    assert_eq!(Verbosity::Info.to_levelfilter(), log::LevelFilter::Info);
    assert_eq!(Verbosity::Debug.to_levelfilter(), log::LevelFilter::Debug);
    assert_eq!(Verbosity::Trace.to_levelfilter(), log::LevelFilter::Trace);
}
