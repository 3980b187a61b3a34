//! The data of a vocabulary quiz: words, FSRS ratings, cards and settings.
use vstd::prelude::*;

use crate::text::{chars_of, parse_u64, parse_u64_chars, trim, trim_chars};

verus! {

/// How many options a multiple-choice question shows at most.
pub const OPT_COUNT: usize = 4;

/// Smallest distance, in questions, before a word comes back for review.
pub const REVIEW_LO: usize = 8;

/// Largest distance, in questions, of a review without FSRS.
pub const REVIEW_HI: usize = 15;

/// An FSRS grade for one answer.
#[derive(Clone, Copy, Debug, PartialEq, Eq, Structural)]
pub enum FsrsRating {
    Again,
    Hard,
    Good,
    Easy,
}

impl FsrsRating {
    /// The grade's number in FSRS (1 for `Again` up to 4 for `Easy`).
    pub open spec fn grade(self) -> int {
        match self {
            FsrsRating::Again => 1,
            FsrsRating::Hard => 2,
            FsrsRating::Good => 3,
            FsrsRating::Easy => 4,
        }
    }

    /// The text shown for the grade.
    pub open spec fn label_text(self) -> Seq<char> {
        match self {
            FsrsRating::Again => "重來"@,
            FsrsRating::Hard => "困難"@,
            FsrsRating::Good => "良好"@,
            FsrsRating::Easy => "簡單"@,
        }
    }

    /// The text shown for the grade.
    pub fn label(&self) -> (s: &'static str)
        ensures
            s@ == self.label_text(),
    {
        match self {
            FsrsRating::Again => "重來",
            FsrsRating::Hard => "困難",
            FsrsRating::Good => "良好",
            FsrsRating::Easy => "簡單",
        }
    }
}

/// Where a card stands in the FSRS learning cycle.
#[derive(Clone, Copy, Debug, PartialEq, Eq, Structural)]
pub enum CardState {
    New,
    Learning,
    Review,
    Relearning,
}

/// The FSRS memory of a card: stability and difficulty, each held as the
/// bits of an `f64` (`f64::to_bits`).
#[derive(Clone, Copy, Debug, PartialEq, Eq, Structural)]
pub struct MemoryBits {
    pub stability_bits: u64,
    pub difficulty_bits: u64,
}

/// The bits of `5.0_f64`, the difficulty of a card never seen.
pub const INITIAL_DIFFICULTY_BITS: u64 = 0x4014_0000_0000_0000;

/// What the scheduler knows of one word.
#[derive(Clone, Copy, Debug, PartialEq, Eq, Structural)]
pub struct FsrsCard {
    pub memory: MemoryBits,
    pub state: CardState,
    pub lapses: u32,
}

impl FsrsCard {
    /// The card of a word never reviewed: stability 0, difficulty 5, state `New`.
    pub open spec fn fresh() -> FsrsCard {
        FsrsCard {
            memory: MemoryBits { stability_bits: 0, difficulty_bits: INITIAL_DIFFICULTY_BITS },
            state: CardState::New,
            lapses: 0,
        }
    }

    /// The card of a word never reviewed.
    pub fn new_card() -> (c: FsrsCard)
        ensures
            c == FsrsCard::fresh(),
    {
        FsrsCard {
            memory: MemoryBits { stability_bits: 0, difficulty_bits: INITIAL_DIFFICULTY_BITS },
            state: CardState::New,
            lapses: 0,
        }
    }
}

impl Default for FsrsCard {
    fn default() -> (c: FsrsCard)
        ensures
            c == FsrsCard::fresh(),
    {
        FsrsCard::new_card()
    }
}

/// Settings of the scheduler and of the automatic grading by answer time.
#[derive(Clone, Copy, Debug, PartialEq, Eq, Structural)]
pub struct FsrsConfig {
    pub enabled: bool,
    pub review_wrong: bool,
    pub hard_threshold_ms: u64,
    pub good_threshold_ms: u64,
    pub easy_threshold_ms: u64,
}

/// Which answer-time threshold a setting edits.
#[derive(Clone, Copy, Debug, PartialEq, Eq, Structural)]
pub enum ThresholdField {
    Easy,
    Good,
    Hard,
}

/// Why a threshold was not accepted.
#[derive(Clone, Copy, Debug, PartialEq, Eq, Structural)]
pub enum ThresholdError {
    /// The text is not a whole number greater than zero.
    NotNatural,
    /// The easy threshold must stay below the good one.
    EasyNotBelowGood,
    /// The good threshold must stay above the easy one.
    GoodNotAboveEasy,
    /// The good threshold must stay below the hard one.
    GoodNotBelowHard,
    /// The hard threshold must stay above the good one.
    HardNotAboveGood,
}

impl ThresholdError {
    /// The message shown for the error.
    pub open spec fn message_text(self) -> Seq<char> {
        match self {
            ThresholdError::NotNatural => "請輸入自然數"@,
            ThresholdError::EasyNotBelowGood => "值必須小於 良好"@,
            ThresholdError::GoodNotAboveEasy => "值必須大於 簡單"@,
            ThresholdError::GoodNotBelowHard => "值必須小於 困難"@,
            ThresholdError::HardNotAboveGood => "值必須大於 良好"@,
        }
    }

    /// The message shown for the error.
    pub fn message(&self) -> (s: &'static str)
        ensures
            s@ == self.message_text(),
    {
        match self {
            ThresholdError::NotNatural => "請輸入自然數",
            ThresholdError::EasyNotBelowGood => "值必須小於 良好",
            ThresholdError::GoodNotAboveEasy => "值必須大於 簡單",
            ThresholdError::GoodNotBelowHard => "值必須小於 困難",
            ThresholdError::HardNotAboveGood => "值必須大於 良好",
        }
    }
}

impl FsrsConfig {
    /// The settings a new installation starts with.
    pub open spec fn standard() -> FsrsConfig {
        FsrsConfig {
            enabled: true,
            review_wrong: true,
            hard_threshold_ms: 10000,
            good_threshold_ms: 6000,
            easy_threshold_ms: 3000,
        }
    }

    /// Whether the thresholds are strictly ordered: easy, then good, then hard.
    pub open spec fn thresholds_ordered(self) -> bool {
        self.easy_threshold_ms < self.good_threshold_ms < self.hard_threshold_ms
    }

    /// The grade an answer earns: `Again` when wrong; otherwise `Easy` within the
    /// easy threshold, `Good` within the good one, else `Hard`.
    pub open spec fn rating_for(self, correct: bool, answer_time_ms: u64) -> FsrsRating {
        if !correct {
            FsrsRating::Again
        } else if answer_time_ms <= self.easy_threshold_ms {
            FsrsRating::Easy
        } else if answer_time_ms <= self.good_threshold_ms {
            FsrsRating::Good
        } else {
            FsrsRating::Hard
        }
    }

    /// The grade an answer earns, as [`FsrsConfig::rating_for`] says.
    pub fn auto_rating(&self, correct: bool, answer_time_ms: u64) -> (r: FsrsRating)
        ensures
            r == self.rating_for(correct, answer_time_ms),
    {
        if !correct {
            return FsrsRating::Again;
        }
        if answer_time_ms <= self.easy_threshold_ms {
            FsrsRating::Easy
        } else if answer_time_ms <= self.good_threshold_ms {
            FsrsRating::Good
        } else {
            FsrsRating::Hard
        }
    }

    /// What setting threshold `field` to the text `input` does: the trimmed text
    /// must be a whole number above zero, and the new value must keep its place
    /// between the neighbouring thresholds.
    pub open spec fn threshold_outcome(self, field: ThresholdField, input: Seq<char>) -> Result<
        FsrsConfig,
        ThresholdError,
    > {
        let parsed = parse_u64(trim(input));
        if parsed is None || parsed->0 == 0 {
            Err(ThresholdError::NotNatural)
        } else {
            let n = parsed->0;
            match field {
                ThresholdField::Easy => if n >= self.good_threshold_ms {
                    Err(ThresholdError::EasyNotBelowGood)
                } else {
                    Ok(FsrsConfig { easy_threshold_ms: n, ..self })
                },
                ThresholdField::Good => if n <= self.easy_threshold_ms {
                    Err(ThresholdError::GoodNotAboveEasy)
                } else if n >= self.hard_threshold_ms {
                    Err(ThresholdError::GoodNotBelowHard)
                } else {
                    Ok(FsrsConfig { good_threshold_ms: n, ..self })
                },
                ThresholdField::Hard => if n <= self.good_threshold_ms {
                    Err(ThresholdError::HardNotAboveGood)
                } else {
                    Ok(FsrsConfig { hard_threshold_ms: n, ..self })
                },
            }
        }
    }

    /// Sets threshold `field` from the text `input`, as
    /// [`FsrsConfig::threshold_outcome`] says; on an error nothing changes.
    pub fn set_threshold(&mut self, field: ThresholdField, input: &str) -> (r: Result<
        (),
        ThresholdError,
    >)
        ensures
            match old(self).threshold_outcome(field, input@) {
                Ok(c) => r is Ok && *final(self) == c,
                Err(e) => r == Err::<(), ThresholdError>(e) && *final(self) == *old(self),
            },
    {
        let chars = chars_of(input);
        let t = trim_chars(&chars);
        let n = match parse_u64_chars(&t) {
            Some(n) => n,
            None => {
                return Err(ThresholdError::NotNatural);
            },
        };
        if n == 0 {
            return Err(ThresholdError::NotNatural);
        }
        match field {
            ThresholdField::Easy => {
                if n >= self.good_threshold_ms {
                    return Err(ThresholdError::EasyNotBelowGood);
                }
                self.easy_threshold_ms = n;
            },
            ThresholdField::Good => {
                if n <= self.easy_threshold_ms {
                    return Err(ThresholdError::GoodNotAboveEasy);
                }
                if n >= self.hard_threshold_ms {
                    return Err(ThresholdError::GoodNotBelowHard);
                }
                self.good_threshold_ms = n;
            },
            ThresholdField::Hard => {
                if n <= self.good_threshold_ms {
                    return Err(ThresholdError::HardNotAboveGood);
                }
                self.hard_threshold_ms = n;
            },
        }
        Ok(())
    }
}

impl Default for FsrsConfig {
    fn default() -> (c: FsrsConfig)
        ensures
            c == FsrsConfig::standard(),
    {
        FsrsConfig {
            enabled: true,
            review_wrong: true,
            hard_threshold_ms: 10000,
            good_threshold_ms: 6000,
            easy_threshold_ms: 3000,
        }
    }
}

/// A faster correct answer never earns a lower grade than a slower one; a
/// wrong answer always earns `Again`.
pub proof fn lemma_auto_rating_monotone(cfg: FsrsConfig, fast: u64, slow: u64)
    requires
        fast <= slow,
    ensures
        cfg.rating_for(true, fast).grade() >= cfg.rating_for(true, slow).grade(),
        cfg.rating_for(false, fast) == FsrsRating::Again,
{
}

/// Editing a threshold never breaks their order: easy below good below hard.
pub proof fn lemma_threshold_order_kept(cfg: FsrsConfig, field: ThresholdField, input: Seq<char>)
    requires
        cfg.thresholds_ordered(),
    ensures
        match cfg.threshold_outcome(field, input) {
            Ok(c) => c.thresholds_ordered(),
            Err(_) => true,
        },
{
}

/// One card of a deck: the term and its meaning.
#[derive(Clone, Debug)]
pub struct Word {
    pub front: String,
    pub back: String,
}

impl Word {
    /// The term and the meaning as character sequences.
    pub open spec fn pair(self) -> (Seq<char>, Seq<char>) {
        (self.front@, self.back@)
    }
}

/// The character pairs of a list of words.
pub open spec fn word_pairs(ws: Seq<Word>) -> Seq<(Seq<char>, Seq<char>)> {
    ws.map_values(|w: Word| w.pair())
}

/// The two screens of a quiz session.
#[derive(Clone, Copy, Debug, PartialEq, Eq, Structural)]
pub enum Screen {
    Upload,
    Quiz,
}

/// One asked question and what became of it.
#[derive(Clone, Debug)]
pub struct HistoryItem {
    pub target_idx: usize,
    pub options: Vec<usize>,
    pub ask_front: bool,
    pub answered: bool,
    pub skipped: bool,
    pub selected_idx: Option<usize>,
    pub correct_opt: usize,
    /// When the question was shown, in milliseconds on the caller's clock.
    pub question_time_ms: u64,
    pub answer_time_ms: Option<u64>,
    pub auto_rating: Option<FsrsRating>,
    pub manual_rating: Option<FsrsRating>,
}

impl HistoryItem {
    /// The grade in force: the one chosen by hand, else the automatic one.
    pub open spec fn rating_in_force(self) -> Option<FsrsRating> {
        match self.manual_rating {
            Some(r) => Some(r),
            None => self.auto_rating,
        }
    }

    /// The grade in force: the one chosen by hand, else the automatic one.
    pub fn rating(&self) -> (r: Option<FsrsRating>)
        ensures
            r == self.rating_in_force(),
    {
        match self.manual_rating {
            Some(r) => Some(r),
            None => self.auto_rating,
        }
    }
}

/// A word waiting to be asked again once `due_after` questions have been asked.
#[derive(Clone, Copy, Debug, PartialEq, Eq, Structural)]
pub struct ReviewItem {
    pub word_idx: usize,
    pub due_after: usize,
}

} // verus!
