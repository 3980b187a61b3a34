use scallion_vocab::model::{CardState, FsrsConfig, FsrsRating, MemoryBits, Word};
use scallion_vocab::quiz::{AdvanceStep, FsrsRequest, KeyAction, KeyInput, OptionMark, QuizState};

fn words(n: usize) -> Vec<Word> {
    (0..n).map(|i| Word { front: format!("w{i}"), back: format!("意{i}") }).collect()
}

fn no_fsrs() -> FsrsConfig {
    FsrsConfig { enabled: false, ..FsrsConfig::default() }
}

#[test]
fn new_session_asks_every_word_once() {
    let q = QuizState::new(words(6), false, FsrsConfig::default());
    let mut u = q.unseen.clone();
    u.sort();
    assert_eq!(u, vec![0, 1, 2, 3, 4, 5]);
    assert!(q.history.is_empty());
    assert_eq!(q.current, 0);
    assert_eq!(q.fsrs_cards.len(), 6);
    assert!(q.current_question().is_none());
}

#[test]
fn round_asks_each_word_then_stops() {
    let mut q = QuizState::new(words(5), false, no_fsrs());
    let mut seen = Vec::new();
    for t in 0..5u64 {
        assert!(q.gen_question(t));
        let h = q.current_question().unwrap();
        seen.push(h.target_idx);
        assert_eq!(q.current, q.history.len() - 1);
        assert_eq!(h.options.len(), 4);
        assert_eq!(h.options[h.correct_opt], h.target_idx);
        let mut o = h.options.clone();
        o.sort();
        o.dedup();
        assert_eq!(o.len(), 4);
        assert!(!h.answered);
        assert_eq!(h.question_time_ms, t);
    }
    seen.sort();
    assert_eq!(seen, vec![0, 1, 2, 3, 4]);
    assert!(!q.gen_question(9));
    assert_eq!(q.history.len(), 5);
    assert!(!q.has_more());
}

#[test]
fn options_leave_out_same_term() {
    let ws = vec![
        Word { front: "bank".into(), back: "銀行".into() },
        Word { front: "bank".into(), back: "河岸".into() },
        Word { front: "tree".into(), back: "樹".into() },
    ];
    let mut q = QuizState::new(ws, false, no_fsrs());
    for t in 0..3u64 {
        assert!(q.gen_question(t));
        let h = q.current_question().unwrap().clone();
        let front = q.words[h.target_idx].front.clone();
        for (j, &o) in h.options.iter().enumerate() {
            if j != h.correct_opt {
                assert_ne!(q.words[o].front, front);
            }
        }
    }
}

#[test]
fn empty_session_asks_nothing() {
    let mut q = QuizState::new(Vec::new(), true, FsrsConfig::default());
    assert!(!q.gen_question(0));
    assert!(q.history.is_empty());
}

#[test]
fn endless_session_never_repeats_a_word_at_once() {
    let mut q = QuizState::new(words(2), true, no_fsrs());
    let mut last = None;
    for t in 0..60u64 {
        assert!(q.gen_question(t));
        let target = q.current_question().unwrap().target_idx;
        assert_ne!(Some(target), last);
        last = Some(target);
    }
    assert!(q.has_more());
}

#[test]
fn right_answer_asks_the_scheduler() {
    let mut q = QuizState::new(words(4), false, FsrsConfig::default());
    assert!(q.gen_question(1000));
    let h = q.current_question().unwrap().clone();
    let req = q.answer(h.correct_opt, 2500);
    assert_eq!(req, Some(FsrsRequest { word_idx: h.target_idx, rating: FsrsRating::Easy, memory: None }));
    let h2 = q.current_question().unwrap();
    assert!(h2.answered);
    assert_eq!(h2.selected_idx, Some(h.correct_opt));
    assert_eq!(h2.answer_time_ms, Some(1500));
    assert_eq!(h2.auto_rating, Some(FsrsRating::Easy));
    assert!(q.review.is_empty());
    // a second answer changes nothing
    assert_eq!(q.answer(h.correct_opt, 9999), None);
    assert_eq!(q.current_question().unwrap().answer_time_ms, Some(1500));
}

#[test]
fn scheduler_result_is_recorded() {
    let mut q = QuizState::new(words(4), false, FsrsConfig::default());
    assert!(q.gen_question(0));
    let h = q.current_question().unwrap().clone();
    let req = q.answer(h.correct_opt, 7000).unwrap();
    assert_eq!(req.rating, FsrsRating::Hard);
    let m = MemoryBits { stability_bits: 2.5f64.to_bits(), difficulty_bits: 6.0f64.to_bits() };
    q.apply_fsrs(req, m, 12);
    let card = q.fsrs_cards[h.target_idx];
    assert_eq!(card.memory, m);
    assert_eq!(card.state, CardState::Review);
    assert_eq!(card.lapses, 0);
    assert_eq!(q.review.len(), 1);
    assert_eq!(q.review[0].word_idx, h.target_idx);
    assert_eq!(q.review[0].due_after, 8 + 12);
    // the card is now known to the scheduler
    let again = q.set_rating(FsrsRating::Again).unwrap();
    assert_eq!(again.memory, Some(m));
    q.apply_fsrs(again, m, 0);
    let card = q.fsrs_cards[h.target_idx];
    assert_eq!(card.state, CardState::Relearning);
    assert_eq!(card.lapses, 1);
    assert_eq!(q.review.len(), 1);
    assert_eq!(q.review[0].due_after, 8);
}

#[test]
fn review_offset_adds_the_floor() {
    assert_eq!(QuizState::review_offset(0), 8);
    assert_eq!(QuizState::review_offset(37), 45);
}

#[test]
fn wrong_answer_without_scheduler_comes_back() {
    let mut q = QuizState::new(words(4), false, no_fsrs());
    assert!(q.gen_question(0));
    let h = q.current_question().unwrap().clone();
    let wrong = (h.correct_opt + 1) % h.options.len();
    assert_eq!(q.answer(wrong, 100), None);
    assert_eq!(q.current_question().unwrap().auto_rating, Some(FsrsRating::Again));
    assert_eq!(q.review.len(), 1);
    assert_eq!(q.review[0].word_idx, h.target_idx);
    assert!(q.review[0].due_after >= 8 && q.review[0].due_after <= 15);
}

#[test]
fn wrong_answer_not_reviewed_when_switched_off() {
    let cfg = FsrsConfig { review_wrong: false, ..FsrsConfig::default() };
    let mut q = QuizState::new(words(4), false, cfg);
    assert!(q.gen_question(0));
    let h = q.current_question().unwrap().clone();
    let wrong = (h.correct_opt + 1) % h.options.len();
    assert_eq!(q.answer(wrong, 100), None);
    assert!(q.review.is_empty());
}

#[test]
fn answer_out_of_range_does_nothing() {
    let mut q = QuizState::new(words(4), false, FsrsConfig::default());
    assert!(q.gen_question(0));
    assert_eq!(q.answer(7, 10), None);
    assert!(!q.current_question().unwrap().answered);
}

#[test]
fn skip_counts_as_again() {
    let mut q = QuizState::new(words(3), false, FsrsConfig::default());
    assert!(q.gen_question(100));
    let h = q.current_question().unwrap().clone();
    let req = q.skip(400);
    assert_eq!(req, Some(FsrsRequest { word_idx: h.target_idx, rating: FsrsRating::Again, memory: None }));
    let h2 = q.current_question().unwrap();
    assert!(h2.answered && h2.skipped);
    assert_eq!(h2.selected_idx, None);
    assert_eq!(h2.answer_time_ms, Some(300));
    assert_eq!(h2.auto_rating, Some(FsrsRating::Again));
    assert_eq!(q.skip(500), None);
}

#[test]
fn skip_without_scheduler_queues_the_word() {
    let mut q = QuizState::new(words(3), false, no_fsrs());
    assert!(q.gen_question(0));
    assert_eq!(q.skip(0), None);
    assert_eq!(q.review.len(), 1);
}

#[test]
fn manual_rating_only_reschedules_on_change() {
    let mut q = QuizState::new(words(3), false, FsrsConfig::default());
    assert!(q.gen_question(0));
    assert_eq!(q.set_rating(FsrsRating::Good), None);
    let h = q.current_question().unwrap().clone();
    q.answer(h.correct_opt, 1000);
    assert_eq!(q.set_rating(FsrsRating::Easy), None);
    assert_eq!(q.current_question().unwrap().manual_rating, Some(FsrsRating::Easy));
    let r = q.set_rating(FsrsRating::Hard).unwrap();
    assert_eq!(r.rating, FsrsRating::Hard);
    assert_eq!(q.current_question().unwrap().rating(), Some(FsrsRating::Hard));
}

#[test]
fn prev_and_next_move_between_questions() {
    let mut q = QuizState::new(words(3), false, no_fsrs());
    q.next(0);
    assert_eq!(q.history.len(), 1);
    q.next(1);
    assert_eq!(q.history.len(), 2);
    assert_eq!(q.current, 1);
    q.prev();
    assert_eq!(q.current, 0);
    q.prev();
    assert_eq!(q.current, 0);
    q.next(2);
    assert_eq!(q.current, 1);
    assert_eq!(q.history.len(), 2);
}

#[test]
fn keys_on_the_quiz_screen() {
    let mut q = QuizState::new(words(4), false, no_fsrs());
    assert_eq!(q.key_action(&KeyInput::Character("1".into())), KeyAction::Nothing);
    assert_eq!(q.key_action(&KeyInput::Escape), KeyAction::Pause);
    assert!(q.gen_question(0));
    assert_eq!(q.key_action(&KeyInput::Character("1".into())), KeyAction::Answer(0));
    assert_eq!(q.key_action(&KeyInput::Character("@".into())), KeyAction::Answer(1));
    assert_eq!(q.key_action(&KeyInput::Character("4".into())), KeyAction::Answer(3));
    assert_eq!(q.key_action(&KeyInput::Character("5".into())), KeyAction::Nothing);
    assert_eq!(q.key_action(&KeyInput::Character("0".into())), KeyAction::Skip);
    assert_eq!(q.key_action(&KeyInput::Character(")".into())), KeyAction::Skip);
    assert_eq!(q.key_action(&KeyInput::Character("12".into())), KeyAction::Nothing);
    assert_eq!(q.key_action(&KeyInput::ArrowRight), KeyAction::Nothing);
    assert_eq!(q.key_action(&KeyInput::ArrowLeft), KeyAction::Nothing);
    q.answer(0, 10);
    assert_eq!(q.key_action(&KeyInput::Enter), KeyAction::Next);
    assert_eq!(q.key_action(&KeyInput::ArrowRight), KeyAction::Next);
    assert_eq!(q.key_action(&KeyInput::Character("1".into())), KeyAction::Nothing);
    q.next(20);
    assert_eq!(q.key_action(&KeyInput::ArrowLeft), KeyAction::Prev);
    assert_eq!(q.key_action(&KeyInput::Other), KeyAction::Nothing);
}

#[test]
fn keys_with_fewer_options() {
    let mut q = QuizState::new(words(2), false, no_fsrs());
    assert!(q.gen_question(0));
    assert_eq!(q.current_question().unwrap().options.len(), 2);
    assert_eq!(q.key_action(&KeyInput::Character("2".into())), KeyAction::Answer(1));
    assert_eq!(q.key_action(&KeyInput::Character("3".into())), KeyAction::Nothing);
}

#[test]
fn moving_on_by_itself() {
    let mut q = QuizState::new(words(2), true, no_fsrs());
    assert_eq!(q.advance_step(500, false), AdvanceStep::Stay);
    assert!(q.gen_question(0));
    assert_eq!(q.advance_step(500, false), AdvanceStep::Disarm);
    let c = q.current_question().unwrap().correct_opt;
    q.answer(c, 10);
    assert_eq!(q.advance_step(500, false), AdvanceStep::Arm(500, 0));
    assert_eq!(q.advance_step(500, true), AdvanceStep::Stay);
    assert_eq!(q.advance_step(-1, false), AdvanceStep::Stay);
    let before = q.history.len();
    q.advance_timer_done(3, 20);
    assert_eq!(q.history.len(), before);
    q.advance_timer_done(0, 20);
    assert_eq!(q.history.len(), before + 1);
    assert_eq!(q.current, 1);
}

#[test]
fn finished_session_ends() {
    let mut q = QuizState::new(words(1), false, no_fsrs());
    assert!(q.gen_question(0));
    q.answer(0, 10);
    assert!(!q.has_more());
    assert_eq!(q.advance_step(500, false), AdvanceStep::Finish);
    q.next(20);
    assert_eq!(q.history.len(), 1);
    assert_eq!(q.current, 0);
}

#[test]
fn option_buttons_show_the_other_side() {
    let mut q = QuizState::new(words(4), false, no_fsrs());
    assert!(q.option_views().is_empty());
    assert!(q.question_text().is_none());
    assert!(q.gen_question(0));
    let h = q.current_question().unwrap().clone();
    let t = &q.words[h.target_idx];
    let asked = if h.ask_front { t.front.clone() } else { t.back.clone() };
    assert_eq!(q.question_text(), Some(asked));
    let views = q.option_views();
    assert_eq!(views.len(), h.options.len());
    for (i, v) in views.iter().enumerate() {
        let w = &q.words[h.options[i]];
        if h.ask_front {
            assert_eq!((v.display.as_str(), v.pair.as_str()), (w.back.as_str(), w.front.as_str()));
        } else {
            assert_eq!((v.display.as_str(), v.pair.as_str()), (w.front.as_str(), w.back.as_str()));
        }
        assert_eq!(v.mark, OptionMark::Plain);
    }
    let wrong = (h.correct_opt + 1) % h.options.len();
    q.answer(wrong, 5);
    let views = q.option_views();
    for (i, v) in views.iter().enumerate() {
        let expect = if i == h.correct_opt {
            OptionMark::Right
        } else if i == wrong {
            OptionMark::Wrong
        } else {
            OptionMark::Dimmed
        };
        assert_eq!(v.mark, expect);
    }
}

#[test]
fn counts_of_right_and_wrong() {
    let mut q = QuizState::new(words(4), false, no_fsrs());
    for t in 0..3u64 {
        assert!(q.gen_question(t));
        let h = q.current_question().unwrap().clone();
        match t {
            0 => {
                q.answer(h.correct_opt, t);
            }
            1 => {
                q.answer((h.correct_opt + 1) % h.options.len(), t);
            }
            _ => {
                q.skip(t);
            }
        }
    }
    assert!(q.gen_question(5));
    assert_eq!(q.correct_count(), 1);
    assert_eq!(q.wrong_count(), 1);
}

#[test]
fn no_term_appears_twice_among_options() {
    let ws = vec![
        Word { front: "a".into(), back: "1".into() },
        Word { front: "b".into(), back: "2".into() },
        Word { front: "b".into(), back: "3".into() },
    ];
    let mut q = QuizState::new(ws, false, no_fsrs());
    for t in 0..3u64 {
        assert!(q.gen_question(t));
        let h = q.current_question().unwrap().clone();
        let mut fronts: Vec<String> = h.options.iter().map(|&o| q.words[o].front.clone()).collect();
        fronts.sort();
        fronts.dedup();
        assert_eq!(fronts.len(), h.options.len());
        assert_eq!(h.options.len(), 2);
    }
}

#[test]
fn options_fill_up_to_four_distinct_terms() {
    let fronts = ["a", "b", "b", "c", "c", "d", "e"];
    let ws: Vec<Word> = fronts.iter().enumerate().map(|(i, f)| Word { front: f.to_string(), back: format!("{i}") }).collect();
    let mut q = QuizState::new(ws, false, no_fsrs());
    for t in 0..7u64 {
        assert!(q.gen_question(t));
        let h = q.current_question().unwrap().clone();
        assert_eq!(h.options.len(), 4);
        let mut fs: Vec<String> = h.options.iter().map(|&o| q.words[o].front.clone()).collect();
        fs.sort();
        fs.dedup();
        assert_eq!(fs.len(), 4);
    }
    assert!(!q.gen_question(8));
}
