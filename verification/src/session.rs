//! Rules of the application around a quiz: versions and updates, themes,
//! notices, keyboard and the record of finished exams.
use vstd::prelude::*;

use crate::import::string_views;
use crate::quiz::{count_graded, count_right, graded, lemma_score_parts, QuizState};
use crate::text::{
    all_digits, chars_eq, chars_of, digits_value, find_char, lemma_first_index, lemma_split_on_len,
    parse_u64, parse_u64_chars, slice_chars, split_on, trim, trim_chars,
};

verus! {

broadcast use vstd::seq_lib::group_seq_properties;

// ───────────────────────── versions ─────────────────────────

/// What `str::parse::<u32>` gives for `s`.
pub open spec fn parse_u32(s: Seq<char>) -> Option<u32> {
    match parse_u64(s) {
        Some(n) => if n <= u32::MAX {
            Some(n as u32)
        } else {
            None
        },
        None => None,
    }
}

/// The version a tag names: `major.minor[.patch]`, with an optional leading
/// `v`; a missing or unreadable patch counts as 0.
pub open spec fn version_of(tag: Seq<char>) -> Option<(u32, u32, u32)> {
    let v = if tag.len() > 0 && tag[0] == 'v' {
        tag.drop_first()
    } else {
        tag
    };
    let parts = split_on_dot(v);
    if parts.len() < 2 {
        None
    } else {
        match (parse_u32(parts[0]), parse_u32(parts[1])) {
            (Some(a), Some(b)) => {
                let c = if parts.len() > 2 {
                    match parse_u32(parts[2]) {
                        Some(c) => c,
                        None => 0,
                    }
                } else {
                    0
                };
                Some((a, b, c))
            },
            _ => None,
        }
    }
}

fn parse_u32_chars(v: &Vec<char>) -> (r: Option<u32>)
    ensures
        r == parse_u32(v@),
{
    match parse_u64_chars(v) {
        Some(n) => if n <= 0xffff_ffff {
            Some(n as u32)
        } else {
            None
        },
        None => None,
    }
}

/// The first three parts of `v` between dots (fewer when there are fewer).
fn first_dot_parts(v: &Vec<char>) -> (r: Vec<Vec<char>>)
    ensures
        r@.len() == if split_on_dot(v@).len() < 3 {
            split_on_dot(v@).len()
        } else {
            3
        },
        forall|i: int| 0 <= i < r@.len() ==> #[trigger] r@[i]@ == split_on_dot(v@)[i],
{
    let mut out: Vec<Vec<char>> = Vec::new();
    let mut rest: Vec<char> = slice_chars(v, 0, v.len());
    assert(rest@ =~= v@);
    let ghost done: Seq<Seq<char>> = Seq::empty();
    loop
        invariant
            out@.len() <= 3,
            out@.len() == done.len(),
            forall|i: int| 0 <= i < out@.len() ==> #[trigger] out@[i]@ == done[i],
            split_on_dot(v@) == done + split_on_dot(rest@),
        ensures
            out@.len() == if split_on_dot(v@).len() < 3 {
                split_on_dot(v@).len()
            } else {
                3
            },
            forall|i: int| 0 <= i < out@.len() ==> #[trigger] out@[i]@ == split_on_dot(v@)[i],
        decreases 3 - out@.len(), rest@.len(),
    {
        proof {
            lemma_first_index(rest@, '.');
            lemma_split_on_len(rest@, '.');
        }
        if out.len() == 3 {
            return out;
        }
        match find_char(&rest, '.') {
            None => {
                let ghost last = rest@;
                out.push(rest);
                proof {
                    assert(split_on_dot(last) == seq![last]);
                    assert forall|i: int| 0 <= i < out@.len() implies #[trigger] out@[i]@
                        == split_on_dot(v@)[i] by {
                        if i < done.len() {
                            assert(split_on_dot(v@)[i] == done[i]);
                        }
                    }
                }
                return out;
            },
            Some(k) => {
                let part = slice_chars(&rest, 0, k);
                let next = slice_chars(&rest, k + 1, rest.len());
                proof {
                    assert(split_on_dot(rest@) == seq![part@] + split_on_dot(next@));
                    assert(done + split_on_dot(rest@) =~= done.push(part@) + split_on_dot(next@));
                    done = done.push(part@);
                }
                out.push(part);
                rest = next;
            },
        }
    }
}

/// The parts of `s` between dots (`str::split('.')`).
pub open spec fn split_on_dot(s: Seq<char>) -> Seq<Seq<char>> {
    split_on(s, '.')
}

/// The version a tag names, as [`version_of`] says.
pub fn parse_version(v: &str) -> (r: Option<(u32, u32, u32)>)
    ensures
        r == version_of(v@),
{
    let chars = chars_of(v);
    let body = if chars.len() > 0 && chars[0] == 'v' {
        slice_chars(&chars, 1, chars.len())
    } else {
        chars
    };
    assert(body@ == (if v@.len() > 0 && v@[0] == 'v' {
        v@.drop_first()
    } else {
        v@
    }));
    let parts = first_dot_parts(&body);
    if parts.len() < 2 {
        return None;
    }
    let a = match parse_u32_chars(&parts[0]) {
        Some(a) => a,
        None => {
            return None;
        },
    };
    let b = match parse_u32_chars(&parts[1]) {
        Some(b) => b,
        None => {
            return None;
        },
    };
    let c = if parts.len() > 2 {
        match parse_u32_chars(&parts[2]) {
            Some(c) => c,
            None => 0,
        }
    } else {
        0
    };
    Some((a, b, c))
}

/// Whether version `a` comes after version `b` (compared part by part).
pub open spec fn version_newer(a: (u32, u32, u32), b: (u32, u32, u32)) -> bool {
    a.0 > b.0 || (a.0 == b.0 && (a.1 > b.1 || (a.1 == b.1 && a.2 > b.2)))
}

/// Whether a release should be offered: it has a tag and a download link, its
/// tag names a version, and that version is newer than the running one (or
/// the running one names no version).
pub open spec fn update_offered(tag: Seq<char>, url: Seq<char>, current: Seq<char>) -> bool {
    &&& tag.len() > 0
    &&& url.len() > 0
    &&& match version_of(tag) {
        None => false,
        Some(v) => match version_of(current) {
            None => true,
            Some(cur) => version_newer(v, cur),
        },
    }
}

/// Whether a release should be offered to a user who has chosen to skip the
/// releases tagged `skipped`: it is not one of them, and [`update_offered`]
/// holds. (A check the user asks for passes no skipped releases.)
pub open spec fn release_offered(
    tag: Seq<char>,
    url: Seq<char>,
    current: Seq<char>,
    skipped: Seq<Seq<char>>,
) -> bool {
    !skipped.contains(tag) && update_offered(tag, url, current)
}

/// Whether `tag` is one of the skipped releases.
fn is_skipped(skipped: &Vec<String>, tag: &str) -> (r: bool)
    ensures
        r == string_views(skipped@).contains(tag@),
{
    let t = chars_of(tag);
    let mut i: usize = 0;
    while i < skipped.len()
        invariant
            i <= skipped.len(),
            t@ == tag@,
            forall|j: int| 0 <= j < i ==> #[trigger] skipped@[j]@ != tag@,
        decreases skipped.len() - i,
    {
        let s = chars_of(skipped[i].as_str());
        if chars_eq(&s, &t) {
            assert(string_views(skipped@)[i as int] == tag@);
            return true;
        }
        i += 1;
    }
    assert forall|j: int| 0 <= j < string_views(skipped@).len() implies string_views(skipped@)[j]
        != tag@ by {
        assert(string_views(skipped@)[j] == skipped@[j]@);
    }
    false
}

/// Whether a release should be offered, as [`release_offered`] says.
pub fn is_update_available(tag: &str, url: &str, current: &str, skipped: &Vec<String>) -> (r: bool)
    ensures
        r == release_offered(tag@, url@, current@, string_views(skipped@)),
{
    if is_skipped(skipped, tag) {
        return false;
    }
    if tag.is_empty() || url.is_empty() {
        return false;
    }
    let v = match parse_version(tag) {
        Some(v) => v,
        None => {
            return false;
        },
    };
    match parse_version(current) {
        None => true,
        Some(cur) => v.0 > cur.0 || (v.0 == cur.0 && (v.1 > cur.1 || (v.1 == cur.1 && v.2
            > cur.2))),
    }
}

/// A release the user chose to skip is never offered.
pub proof fn lemma_skipped_never_offered(
    tag: Seq<char>,
    url: Seq<char>,
    current: Seq<char>,
    skipped: Seq<Seq<char>>,
)
    requires
        skipped.contains(tag),
    ensures
        !release_offered(tag, url, current, skipped),
{
}

/// The running version is never offered as an update of itself.
pub proof fn lemma_no_update_to_same(tag: Seq<char>, url: Seq<char>)
    ensures
        !update_offered(tag, url, tag),
{
}

/// Versions are ordered as a strict total order, major number first: no
/// version is newer than itself, of two versions at most one is newer than the
/// other, newer than newer is newer, and of two different versions one is
/// newer; a larger major number makes a version newer whatever its minor and
/// patch numbers, and with equal major numbers a larger minor number does.
pub proof fn lemma_version_order(
    a: (u32, u32, u32),
    b: (u32, u32, u32),
    c: (u32, u32, u32),
)
    ensures
        !version_newer(a, a),
        version_newer(a, b) ==> !version_newer(b, a),
        version_newer(a, b) && version_newer(b, c) ==> version_newer(a, c),
        a != b ==> version_newer(a, b) || version_newer(b, a),
        a.0 > b.0 ==> version_newer(a, b),
        a.0 == b.0 && a.1 > b.1 ==> version_newer(a, b),
        a.0 == b.0 && a.1 == b.1 ==> (version_newer(a, b) <==> a.2 > b.2),
{
}

/// A release whose tag names a version is offered, to a user running a
/// version, only if its version is greater, comparing the major numbers, then
/// the minor numbers, then the patch numbers; so never when its major number
/// is smaller, nor when it is the running version. When it is greater, not
/// skipped, and has a tag and a download link, it is offered.
pub proof fn lemma_offered_only_if_greater(
    tag: Seq<char>,
    url: Seq<char>,
    current: Seq<char>,
    skipped: Seq<Seq<char>>,
    v: (u32, u32, u32),
    cur: (u32, u32, u32),
)
    requires
        version_of(tag) == Some(v),
        version_of(current) == Some(cur),
    ensures
        release_offered(tag, url, current, skipped) ==> v.0 > cur.0 || (v.0 == cur.0 && v.1
            > cur.1) || (v.0 == cur.0 && v.1 == cur.1 && v.2 > cur.2),
        v.0 < cur.0 ==> !release_offered(tag, url, current, skipped),
        v == cur ==> !release_offered(tag, url, current, skipped),
        (v.0 > cur.0 || (v.0 == cur.0 && v.1 > cur.1) || (v.0 == cur.0 && v.1 == cur.1 && v.2
            > cur.2)) && !skipped.contains(tag) && tag.len() > 0 && url.len() > 0
            ==> release_offered(tag, url, current, skipped),
{
}

// ───────────────────────── notices ─────────────────────────

/// The number of the next notice: one more, wrapping around at the end.
pub fn next_toast_id(seq: u64) -> (r: u64)
    ensures
        r == (if seq == u64::MAX {
            0
        } else {
            seq + 1
        }),
{
    seq.wrapping_add(1)
}

// ───────────────────────── themes ─────────────────────────

/// How the colours are chosen.
#[derive(Clone, Copy, Debug, PartialEq, Eq, Structural)]
pub enum ThemeMode {
    System,
    Light,
    Dark,
}

/// The key under which a theme is stored.
pub open spec fn theme_key_text(mode: ThemeMode) -> Seq<char> {
    match mode {
        ThemeMode::System => seq!['s', 'y', 's', 't', 'e', 'm'],
        ThemeMode::Light => seq!['l', 'i', 'g', 'h', 't'],
        ThemeMode::Dark => seq!['d', 'a', 'r', 'k'],
    }
}

/// The theme a stored key names: `dark`, `light`, anything else the system's.
pub open spec fn theme_for_key(key: Seq<char>) -> ThemeMode {
    if key == seq!['d', 'a', 'r', 'k'] {
        ThemeMode::Dark
    } else if key == seq!['l', 'i', 'g', 'h', 't'] {
        ThemeMode::Light
    } else {
        ThemeMode::System
    }
}

/// The key under which a theme is stored.
pub fn theme_key(mode: ThemeMode) -> (r: String)
    ensures
        r@ == theme_key_text(mode),
{
    let v = match mode {
        ThemeMode::System => vec!['s', 'y', 's', 't', 'e', 'm'],
        ThemeMode::Light => vec!['l', 'i', 'g', 'h', 't'],
        ThemeMode::Dark => vec!['d', 'a', 'r', 'k'],
    };
    crate::text::string_of(&v)
}

/// The theme a stored key names, as [`theme_for_key`] says.
pub fn theme_from_key(key: &str) -> (r: ThemeMode)
    ensures
        r == theme_for_key(key@),
{
    let k = chars_of(key);
    let dark = vec!['d', 'a', 'r', 'k'];
    let light = vec!['l', 'i', 'g', 'h', 't'];
    assert(dark@ == seq!['d', 'a', 'r', 'k']);
    assert(light@ == seq!['l', 'i', 'g', 'h', 't']);
    if chars_eq(&k, &dark) {
        ThemeMode::Dark
    } else if chars_eq(&k, &light) {
        ThemeMode::Light
    } else {
        ThemeMode::System
    }
}

/// A stored theme reads back as the theme that was stored.
pub proof fn lemma_theme_round_trip(mode: ThemeMode)
    ensures
        theme_for_key(theme_key_text(mode)) == mode,
{
    match mode {
        ThemeMode::System => {
            assert(seq!['s', 'y', 's', 't', 'e', 'm'][0] != seq!['d', 'a', 'r', 'k'][0]);
            assert(seq!['s', 'y', 's', 't', 'e', 'm'].len() != seq!['l', 'i', 'g', 'h', 't'].len());
        },
        ThemeMode::Light => {
            assert(seq!['l', 'i', 'g', 'h', 't'].len() != seq!['d', 'a', 'r', 'k'].len());
        },
        ThemeMode::Dark => {},
    }
}

/// Whether the theme is dark, when that does not depend on the system: `Some`
/// for `Light` and `Dark`, `None` for `System`.
pub fn fixed_darkness(mode: ThemeMode) -> (r: Option<bool>)
    ensures
        r == match mode {
            ThemeMode::Light => Some(false),
            ThemeMode::Dark => Some(true),
            ThemeMode::System => None::<bool>,
        },
{
    match mode {
        ThemeMode::Light => Some(false),
        ThemeMode::Dark => Some(true),
        ThemeMode::System => None,
    }
}

// ───────────────────────── exams ─────────────────────────

/// The record of one finished exam.
#[derive(Clone, Debug)]
pub struct ExamHistoryItem {
    pub decks: String,
    pub words: usize,
    pub correct: usize,
    pub total: usize,
    pub date: String,
}

/// How many finished exams are remembered.
pub const EXAM_HISTORY_LEN: usize = 10;

/// The exam records after `item`: it comes first, and only the newest
/// `EXAM_HISTORY_LEN` are kept.
pub open spec fn history_after(h: Seq<ExamHistoryItem>, item: ExamHistoryItem) -> Seq<
    ExamHistoryItem,
> {
    let all = seq![item] + h;
    if all.len() > EXAM_HISTORY_LEN {
        all.take(EXAM_HISTORY_LEN as int)
    } else {
        all
    }
}

/// Records a finished exam, as [`history_after`] says.
pub fn record_exam(history: Vec<ExamHistoryItem>, item: ExamHistoryItem) -> (r: Vec<
    ExamHistoryItem,
>)
    ensures
        r@ == history_after(history@, item),
{
    let mut v = history;
    v.insert(0, item);
    if v.len() > EXAM_HISTORY_LEN {
        v.truncate(EXAM_HISTORY_LEN);
    }
    v
}

/// The record never holds more than `EXAM_HISTORY_LEN` exams, and the one
/// just finished comes first.
pub proof fn lemma_history_bounded(h: Seq<ExamHistoryItem>, item: ExamHistoryItem)
    ensures
        history_after(h, item).len() <= EXAM_HISTORY_LEN,
        history_after(h, item)[0] == item,
        h.len() < EXAM_HISTORY_LEN ==> history_after(h, item).len() == h.len() + 1,
{
}

/// The score of a quiz: right answers and answers given (skipped questions
/// do not count).
pub fn exam_score(quiz: &QuizState) -> (r: (usize, usize))
    ensures
        r.0 == count_right(quiz.history@),
        r.1 == count_graded(quiz.history@),
{
    let correct = quiz.correct_count();
    let wrong = quiz.wrong_count();
    proof {
        lemma_score_parts(quiz.history@);
        assert(correct + wrong <= quiz.history@.len());
    }
    let n = quiz.history.len();
    assert(correct + wrong <= n);
    (correct, correct + wrong)
}

// ───────────────────────── settings ─────────────────────────

/// What `str::parse::<i64>` gives for `s`: a value for an optional sign and at
/// least one decimal digit, when it fits in an `i64`.
pub open spec fn parse_i64(s: Seq<char>) -> Option<i64> {
    if s.len() > 0 && s[0] == '-' {
        let ds = s.drop_first();
        if ds.len() > 0 && all_digits(ds) && digits_value(ds) <= 0x8000_0000_0000_0000 {
            Some((0 - digits_value(ds)) as i64)
        } else {
            None
        }
    } else {
        match parse_u64(s) {
            Some(n) => if n <= i64::MAX {
                Some(n as i64)
            } else {
                None
            },
            None => None,
        }
    }
}

/// The delay before a quiz moves on by itself, as typed in the settings: the
/// trimmed text read as an `i64` (negative: never), `None` when it is not one
/// and the setting stays as it was.
pub fn parse_delay(input: &str) -> (r: Option<i64>)
    ensures
        r == parse_i64(trim(input@)),
{
    let t = trim_chars(&chars_of(input));
    if t.len() > 0 && t[0] == '-' {
        let rest = slice_chars(&t, 1, t.len());
        assert(rest@ =~= t@.drop_first());
        if rest.len() > 0 && rest[0] == '+' {
            assert(!crate::text::is_digit(rest@[0]));
            return None;
        }
        match parse_u64_chars(&rest) {
            Some(n) => {
                if n > 0x8000_0000_0000_0000 {
                    None
                } else if n == 0x8000_0000_0000_0000 {
                    Some(i64::MIN)
                } else {
                    Some(0 - (n as i64))
                }
            },
            None => None,
        }
    } else {
        match parse_u64_chars(&t) {
            Some(n) => {
                if n <= 0x7fff_ffff_ffff_ffff {
                    Some(n as i64)
                } else {
                    None
                }
            },
            None => None,
        }
    }
}

} // verus!
