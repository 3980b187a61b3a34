use scallion_vocab::model::{FsrsConfig, Word};
use scallion_vocab::quiz::QuizState;
use scallion_vocab::session::{
    exam_score, fixed_darkness, is_update_available, next_toast_id, parse_delay, parse_version,
    record_exam, theme_from_key, theme_key, ExamHistoryItem, ThemeMode,
};

fn exam(n: usize) -> ExamHistoryItem {
    ExamHistoryItem { decks: format!("deck{n}"), words: n, correct: n, total: n, date: "01/01 00:00".into() }
}

#[test]
fn versions_are_read() {
    assert_eq!(parse_version("v1.2.3"), Some((1, 2, 3)));
    assert_eq!(parse_version("1.2"), Some((1, 2, 0)));
    assert_eq!(parse_version("1.2.x"), Some((1, 2, 0)));
    assert_eq!(parse_version("v10.0.7.9"), Some((10, 0, 7)));
    assert_eq!(parse_version("1"), None);
    assert_eq!(parse_version("a.b"), None);
    assert_eq!(parse_version(""), None);
    assert_eq!(parse_version("vv1.2"), None);
    assert_eq!(parse_version("4294967296.0"), None);
}

#[test]
fn updates_are_offered_for_newer_versions() {
    assert!(is_update_available("v1.3.0", "https://x/app.apk", "1.2.9", &vec![]));
    assert!(is_update_available("v2.0", "u", "1.9.9", &vec![]));
    assert!(!is_update_available("v1.2.3", "u", "1.2.3", &vec![]));
    assert!(!is_update_available("v1.2.2", "u", "1.2.3", &vec![]));
    assert!(!is_update_available("", "u", "1.0.0", &vec![]));
    assert!(!is_update_available("v9.9.9", "", "1.0.0", &vec![]));
    assert!(!is_update_available("nightly", "u", "1.0.0", &vec![]));
    assert!(is_update_available("v0.0.1", "u", "dev", &vec![]));
}

#[test]
fn skipped_releases_are_not_offered() {
    let skipped = vec!["v1.3.0".to_string(), "v1.4.0".to_string()];
    assert!(!is_update_available("v1.3.0", "u", "1.2.0", &skipped));
    assert!(is_update_available("v1.3.1", "u", "1.2.0", &skipped));
    assert!(!is_update_available("v1.4.0", "u", "1.2.0", &skipped));
}

#[test]
fn toast_ids_wrap() {
    assert_eq!(next_toast_id(0), 1);
    assert_eq!(next_toast_id(41), 42);
    assert_eq!(next_toast_id(u64::MAX), 0);
}

#[test]
fn themes_are_stored_by_key() {
    for m in [ThemeMode::System, ThemeMode::Light, ThemeMode::Dark] {
        assert_eq!(theme_from_key(&theme_key(m)), m);
    }
    assert_eq!(theme_key(ThemeMode::Dark), "dark");
    assert_eq!(theme_from_key("light"), ThemeMode::Light);
    assert_eq!(theme_from_key("Dark"), ThemeMode::System);
    assert_eq!(theme_from_key(""), ThemeMode::System);
    assert_eq!(fixed_darkness(ThemeMode::Dark), Some(true));
    assert_eq!(fixed_darkness(ThemeMode::Light), Some(false));
    assert_eq!(fixed_darkness(ThemeMode::System), None);
}

#[test]
fn exam_history_keeps_the_newest_ten() {
    let mut h: Vec<ExamHistoryItem> = Vec::new();
    for n in 0..12 {
        h = record_exam(h, exam(n));
        assert!(h.len() <= 10);
        assert_eq!(h[0].words, n);
    }
    assert_eq!(h.len(), 10);
    let order: Vec<usize> = h.iter().map(|e| e.words).collect();
    assert_eq!(order, vec![11, 10, 9, 8, 7, 6, 5, 4, 3, 2]);
}

#[test]
fn exam_score_leaves_out_skips() {
    let words: Vec<Word> = (0..4).map(|i| Word { front: format!("f{i}"), back: format!("b{i}") }).collect();
    let mut q = QuizState::new(words, false, FsrsConfig { enabled: false, ..FsrsConfig::default() });
    assert_eq!(exam_score(&q), (0, 0));
    for t in 0..3u64 {
        assert!(q.gen_question(t));
        let h = q.current_question().unwrap().clone();
        match t {
            0 => {
                q.answer(h.correct_opt, t);
            }
            1 => {
                q.answer((h.correct_opt + 1) % h.options.len(), t);
            }
            _ => {
                q.skip(t);
            }
        }
    }
    assert_eq!(exam_score(&q), (1, 2));
}

#[test]
fn delay_setting_is_read_as_a_signed_number() {
    assert_eq!(parse_delay(" 1500 "), Some(1500));
    assert_eq!(parse_delay("-1"), Some(-1));
    assert_eq!(parse_delay("+20"), Some(20));
    assert_eq!(parse_delay("0"), Some(0));
    assert_eq!(parse_delay("-9223372036854775808"), Some(i64::MIN));
    assert_eq!(parse_delay("9223372036854775807"), Some(i64::MAX));
    assert_eq!(parse_delay("9223372036854775808"), None);
    assert_eq!(parse_delay("-9223372036854775809"), None);
    assert_eq!(parse_delay(""), None);
    assert_eq!(parse_delay("-"), None);
    assert_eq!(parse_delay("-+5"), None);
    assert_eq!(parse_delay("1.5"), None);
    assert_eq!(parse_delay("abc"), None);
}

#[test]
fn delay_agrees_with_std_parse() {
    for s in ["12", " -7 ", "+0", "--1", "0x10", "99999999999999999999", "-0", "007"] {
        assert_eq!(parse_delay(s), s.trim().parse::<i64>().ok(), "{s}");
    }
}
