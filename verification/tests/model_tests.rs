use scallion_vocab::model::{
    CardState, FsrsCard, FsrsConfig, FsrsRating, HistoryItem, ThresholdError, ThresholdField,
};

fn item(auto: Option<FsrsRating>, manual: Option<FsrsRating>) -> HistoryItem {
    HistoryItem {
        target_idx: 0,
        options: vec![0],
        ask_front: true,
        answered: true,
        skipped: false,
        selected_idx: Some(0),
        correct_opt: 0,
        question_time_ms: 0,
        answer_time_ms: Some(10),
        auto_rating: auto,
        manual_rating: manual,
    }
}

#[test]
fn rating_labels() {
    assert_eq!(FsrsRating::Again.label(), "重來");
    assert_eq!(FsrsRating::Hard.label(), "困難");
    assert_eq!(FsrsRating::Good.label(), "良好");
    assert_eq!(FsrsRating::Easy.label(), "簡單");
}

#[test]
fn default_config() {
    let c = FsrsConfig::default();
    assert!(c.enabled);
    assert!(c.review_wrong);
    assert_eq!((c.easy_threshold_ms, c.good_threshold_ms, c.hard_threshold_ms), (3000, 6000, 10000));
}

#[test]
fn new_card_is_fresh() {
    let c = FsrsCard::default();
    assert_eq!(c, FsrsCard::new_card());
    assert_eq!(c.state, CardState::New);
    assert_eq!(c.lapses, 0);
    assert_eq!(c.memory.stability_bits, 0.0f64.to_bits());
    assert_eq!(c.memory.difficulty_bits, 5.0f64.to_bits());
}

#[test]
fn auto_rating_by_time() {
    let c = FsrsConfig::default();
    assert_eq!(c.auto_rating(true, 0), FsrsRating::Easy);
    assert_eq!(c.auto_rating(true, 3000), FsrsRating::Easy);
    assert_eq!(c.auto_rating(true, 3001), FsrsRating::Good);
    assert_eq!(c.auto_rating(true, 6000), FsrsRating::Good);
    assert_eq!(c.auto_rating(true, 6001), FsrsRating::Hard);
    assert_eq!(c.auto_rating(true, u64::MAX), FsrsRating::Hard);
    assert_eq!(c.auto_rating(false, 0), FsrsRating::Again);
}

#[test]
fn auto_rating_faster_never_lower() {
    let c = FsrsConfig::default();
    let grade = |r: FsrsRating| match r {
        FsrsRating::Again => 1,
        FsrsRating::Hard => 2,
        FsrsRating::Good => 3,
        FsrsRating::Easy => 4,
    };
    let times = [0u64, 2999, 3000, 3001, 5999, 6000, 6001, 10000, 20000];
    for a in times {
        for b in times {
            if a <= b {
                assert!(grade(c.auto_rating(true, a)) >= grade(c.auto_rating(true, b)));
            }
        }
    }
}

#[test]
fn threshold_rejects_non_natural_text() {
    let mut c = FsrsConfig::default();
    assert_eq!(c.set_threshold(ThresholdField::Easy, "abc"), Err(ThresholdError::NotNatural));
    assert_eq!(c.set_threshold(ThresholdField::Easy, " 0 "), Err(ThresholdError::NotNatural));
    assert_eq!(c.set_threshold(ThresholdField::Easy, ""), Err(ThresholdError::NotNatural));
    assert_eq!(c.set_threshold(ThresholdField::Easy, "-5"), Err(ThresholdError::NotNatural));
    assert_eq!(c, FsrsConfig::default());
}

#[test]
fn threshold_keeps_order() {
    let mut c = FsrsConfig::default();
    assert_eq!(c.set_threshold(ThresholdField::Easy, "6000"), Err(ThresholdError::EasyNotBelowGood));
    assert_eq!(c.set_threshold(ThresholdField::Good, "3000"), Err(ThresholdError::GoodNotAboveEasy));
    assert_eq!(c.set_threshold(ThresholdField::Good, "10000"), Err(ThresholdError::GoodNotBelowHard));
    assert_eq!(c.set_threshold(ThresholdField::Hard, "6000"), Err(ThresholdError::HardNotAboveGood));
    assert_eq!(c, FsrsConfig::default());
}

#[test]
fn threshold_accepts_trimmed_values() {
    let mut c = FsrsConfig::default();
    assert_eq!(c.set_threshold(ThresholdField::Easy, " 2500 "), Ok(()));
    assert_eq!(c.easy_threshold_ms, 2500);
    assert_eq!(c.set_threshold(ThresholdField::Good, "+7000"), Ok(()));
    assert_eq!(c.good_threshold_ms, 7000);
    assert_eq!(c.set_threshold(ThresholdField::Hard, "12000"), Ok(()));
    assert_eq!(c.hard_threshold_ms, 12000);
    assert!(c.easy_threshold_ms < c.good_threshold_ms && c.good_threshold_ms < c.hard_threshold_ms);
}

#[test]
fn threshold_error_messages() {
    assert_eq!(ThresholdError::NotNatural.message(), "請輸入自然數");
    assert_eq!(ThresholdError::EasyNotBelowGood.message(), "值必須小於 良好");
    assert_eq!(ThresholdError::GoodNotAboveEasy.message(), "值必須大於 簡單");
    assert_eq!(ThresholdError::GoodNotBelowHard.message(), "值必須小於 困難");
    assert_eq!(ThresholdError::HardNotAboveGood.message(), "值必須大於 良好");
}

#[test]
fn manual_rating_wins() {
    assert_eq!(item(Some(FsrsRating::Good), None).rating(), Some(FsrsRating::Good));
    assert_eq!(item(Some(FsrsRating::Good), Some(FsrsRating::Hard)).rating(), Some(FsrsRating::Hard));
    assert_eq!(item(None, None).rating(), None);
}
