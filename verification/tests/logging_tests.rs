use scallion_vocab::logging::{
    android_priority, init, is_enabled, set_enabled, LogLevel, LogSwitch, MessageLevel,
};

#[test]
fn logging_switch_turns_off_and_on() {
    let mut s = LogSwitch::new();
    assert!(is_enabled(&s));
    set_enabled(&mut s, false);
    assert!(!is_enabled(&s));
    set_enabled(&mut s, true);
    assert!(is_enabled(&s));
}

#[test]
fn logging_level_follows_the_build() {
    assert_eq!(init(true), LogLevel::Debug);
    assert_eq!(log::max_level(), log::LevelFilter::Debug);
    assert_eq!(init(false), LogLevel::Info);
    assert_eq!(log::max_level(), log::LevelFilter::Info);
}

#[test]
fn logging_android_priorities() {
    assert_eq!(android_priority(MessageLevel::Error), 6);
    assert_eq!(android_priority(MessageLevel::Warn), 5);
    assert_eq!(android_priority(MessageLevel::Info), 4);
    assert_eq!(android_priority(MessageLevel::Debug), 3);
    assert_eq!(android_priority(MessageLevel::Trace), 3);
}
