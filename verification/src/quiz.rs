//! A multiple-choice quiz over a list of words: which word is asked next,
//! which options are shown, and when a word comes back for review.
use vstd::prelude::*;

use crate::text::chars_of;
use crate::model::{
    CardState, FsrsConfig, FsrsCard, FsrsRating, HistoryItem, MemoryBits, ReviewItem, Word, OPT_COUNT,
    REVIEW_HI, REVIEW_LO,
};

verus! {

broadcast use vstd::seq_lib::group_seq_properties, vstd::multiset::group_multiset_properties;

// ───────────────────────── randomness ─────────────────────────

/// `fastrand::shuffle`: reorders the items at random (swaps only, so the
/// result holds the same items).
#[verifier::external_body]
fn random_shuffle(items: &mut Vec<usize>)
    ensures
        final(items)@.len() == old(items)@.len(),
        final(items)@.to_multiset() == old(items)@.to_multiset(),
{
    fastrand::shuffle(items);
}

/// `fastrand::bool`: a random boolean; nothing is promised of it.
#[verifier::external_body]
fn random_bool() -> bool {
    fastrand::bool()
}

/// `fastrand::usize(..max)`: a random number below `max`, which must not be 0.
#[verifier::external_body]
fn random_below(max: usize) -> (r: usize)
    requires
        max > 0,
    ensures
        r < max,
{
    fastrand::usize(..max)
}

/// Puts the items in a random order; fewer than two items stay as they are.
pub fn shuffle(items: &mut Vec<usize>)
    ensures
        final(items)@.len() == old(items)@.len(),
        final(items)@.to_multiset() == old(items)@.to_multiset(),
        old(items)@.len() <= 1 ==> final(items)@ == old(items)@,
{
    if items.len() > 1 {
        random_shuffle(items);
    }
}

/// A random boolean.
pub fn rand_bool() -> bool {
    random_bool()
}

/// A random number below `max`, or 0 when `max` is 0.
pub fn rand_usize(max: usize) -> (r: usize)
    ensures
        max == 0 ==> r == 0,
        max > 0 ==> r < max,
{
    if max == 0 {
        0
    } else {
        random_below(max)
    }
}

// ───────────────────────── sequences of indices ─────────────────────────

/// The indices `0, 1, ..., n - 1`.
pub open spec fn range_seq(n: nat) -> Seq<usize> {
    Seq::new(n, |i: int| i as usize)
}

/// Whether `p` holds each of `0, 1, ..., n - 1` once, in some order.
pub open spec fn is_perm_of_range(p: Seq<usize>, n: nat) -> bool {
    p.to_multiset() == range_seq(n).to_multiset()
}

proof fn lemma_range_seq_props(n: nat)
    requires
        n <= usize::MAX + 1,
    ensures
        range_seq(n).no_duplicates(),
        forall|i: int| 0 <= i < n ==> #[trigger] range_seq(n)[i] == i,
{
}

/// Every item of a sequence with the items of another is one of them.
proof fn lemma_multiset_member<T>(a: Seq<T>, b: Seq<T>, i: int)
    requires
        a.to_multiset() == b.to_multiset(),
        0 <= i < a.len(),
    ensures
        b.contains(a[i]),
{
    a.to_multiset_ensures();
    b.to_multiset_ensures();
    assert(a.contains(a[i]));
    assert(a.to_multiset().count(a[i]) > 0);
    assert(b.to_multiset().count(a[i]) > 0);
}

/// A reordering of a sequence without repeats has no repeats.
proof fn lemma_multiset_no_dup<T>(a: Seq<T>, b: Seq<T>)
    requires
        a.to_multiset() == b.to_multiset(),
        b.no_duplicates(),
    ensures
        a.no_duplicates(),
{
    b.lemma_multiset_has_no_duplicates();
    a.lemma_multiset_has_no_duplicates_conv();
}

/// Every item of a permutation of `0..n` is below `n`, and there are `n` of them.
proof fn lemma_perm_range(p: Seq<usize>, n: nat)
    requires
        is_perm_of_range(p, n),
        n <= usize::MAX + 1,
    ensures
        p.len() == n,
        p.no_duplicates(),
        forall|i: int| 0 <= i < p.len() ==> #[trigger] p[i] < n,
{
    lemma_range_seq_props(n);
    p.to_multiset_ensures();
    range_seq(n).to_multiset_ensures();
    lemma_multiset_no_dup(p, range_seq(n));
    assert forall|i: int| 0 <= i < p.len() implies #[trigger] p[i] < n by {
        lemma_multiset_member(p, range_seq(n), i);
    }
}

/// `0, 1, ..., n - 1` in order.
fn index_list(n: usize) -> (v: Vec<usize>)
    ensures
        v@ == range_seq(n as nat),
{
    let mut v: Vec<usize> = Vec::new();
    let mut i: usize = 0;
    while i < n
        invariant
            i <= n,
            v@ == range_seq(i as nat),
        decreases n - i,
    {
        v.push(i);
        assert(v@ =~= range_seq((i + 1) as nat));
        i += 1;
    }
    v
}

/// Whether `x` is one of the items of `v`.
fn contains_index(v: &Vec<usize>, x: usize) -> (r: bool)
    ensures
        r == v@.contains(x),
{
    let mut i: usize = 0;
    while i < v.len()
        invariant
            i <= v.len(),
            forall|j: int| 0 <= j < i ==> v@[j] != x,
        decreases v.len() - i,
    {
        if v[i] == x {
            return true;
        }
        i += 1;
    }
    false
}

/// Whether one of the words `opts` has the term of word `idx`.
fn term_taken(words: &Vec<Word>, opts: &Vec<usize>, idx: usize) -> (r: bool)
    requires
        idx < words.len(),
        forall|q: int| 0 <= q < opts@.len() ==> #[trigger] opts@[q] < words.len(),
    ensures
        r == term_shown(words@, opts@, words@[idx as int].front@),
{
    let mut q: usize = 0;
    while q < opts.len()
        invariant
            q <= opts.len(),
            idx < words.len(),
            forall|a: int| 0 <= a < opts@.len() ==> #[trigger] opts@[a] < words.len(),
            forall|a: int|
                #![trigger opts@[a]]
                0 <= a < q ==> words@[opts@[a] as int].front@ != words@[idx as int].front@,
        decreases opts.len() - q,
    {
        if words[opts[q]].front == words[idx].front {
            return true;
        }
        q += 1;
    }
    false
}

/// Where `x` first stands in `v`.
fn position_of(v: &Vec<usize>, x: usize) -> (r: Option<usize>)
    ensures
        r matches Some(k) ==> k < v.len() && v@[k as int] == x,
        r is None ==> !v@.contains(x),
{
    let mut i: usize = 0;
    while i < v.len()
        invariant
            i <= v.len(),
            forall|j: int| 0 <= j < i ==> v@[j] != x,
        decreases v.len() - i,
    {
        if v[i] == x {
            return Some(i);
        }
        i += 1;
    }
    None
}

// ───────────────────────── review queue ─────────────────────────

/// Position of the first review item that is due once `asked` questions have been asked.
pub open spec fn first_due(review: Seq<ReviewItem>, asked: nat) -> Option<int>
    decreases review.len(),
{
    if review.len() == 0 {
        None
    } else if asked >= review[0].due_after {
        Some(0)
    } else {
        match first_due(review.drop_first(), asked) {
            Some(k) => Some(k + 1),
            None => None,
        }
    }
}

proof fn lemma_first_due_at(review: Seq<ReviewItem>, asked: nat, k: int)
    requires
        0 <= k <= review.len(),
        forall|j: int| 0 <= j < k ==> asked < #[trigger] review[j].due_after,
    ensures
        k < review.len() && asked >= review[k].due_after ==> first_due(review, asked) == Some(k),
        k == review.len() ==> first_due(review, asked) is None,
    decreases k,
{
    if k > 0 {
        let t = review.drop_first();
        assert forall|j: int| 0 <= j < k - 1 implies asked < #[trigger] t[j].due_after by {
            assert(t[j] == review[j + 1]);
        }
        lemma_first_due_at(t, asked, k - 1);
    }
}

/// Position of the review item for word `w`.
pub open spec fn queue_index(review: Seq<ReviewItem>, w: usize) -> Option<int>
    decreases review.len(),
{
    if review.len() == 0 {
        None
    } else if review[0].word_idx == w {
        Some(0)
    } else {
        match queue_index(review.drop_first(), w) {
            Some(k) => Some(k + 1),
            None => None,
        }
    }
}

proof fn lemma_queue_index_at(review: Seq<ReviewItem>, w: usize, k: int)
    requires
        0 <= k <= review.len(),
        forall|j: int| 0 <= j < k ==> #[trigger] review[j].word_idx != w,
    ensures
        k < review.len() && review[k].word_idx == w ==> queue_index(review, w) == Some(k),
        k == review.len() ==> queue_index(review, w) is None,
    decreases k,
{
    if k > 0 {
        let t = review.drop_first();
        assert forall|j: int| 0 <= j < k - 1 implies #[trigger] t[j].word_idx != w by {
            assert(t[j] == review[j + 1]);
        }
        lemma_queue_index_at(t, w, k - 1);
    }
}

/// The queue with word `w` due after `due`: its entry moved, or a new one at the end.
pub open spec fn queue_set(review: Seq<ReviewItem>, w: usize, due: usize) -> Seq<ReviewItem> {
    match queue_index(review, w) {
        Some(k) => review.update(k, ReviewItem { word_idx: w, due_after: due }),
        None => review.push(ReviewItem { word_idx: w, due_after: due }),
    }
}

/// The queue with word `w` due after `due` at the latest: an entry already due
/// sooner keeps its time, else it moves, or a new one comes at the end.
pub open spec fn queue_keep_earlier(review: Seq<ReviewItem>, w: usize, due: usize) -> Seq<
    ReviewItem,
> {
    match queue_index(review, w) {
        Some(k) => review.update(
            k,
            ReviewItem {
                word_idx: w,
                due_after: if review[k].due_after <= due {
                    review[k].due_after
                } else {
                    due
                },
            },
        ),
        None => review.push(ReviewItem { word_idx: w, due_after: due }),
    }
}

/// Whether no word stands twice in the queue and every word is one of `n`.
pub open spec fn queue_ok(review: Seq<ReviewItem>, n: nat) -> bool {
    &&& forall|i: int| 0 <= i < review.len() ==> #[trigger] review[i].word_idx < n
    &&& forall|i: int, j: int|
        0 <= i < review.len() && 0 <= j < review.len() && i != j ==> #[trigger] review[i].word_idx
            != #[trigger] review[j].word_idx
}

/// Where in `review` the item for word `w` stands.
fn find_in_queue(review: &Vec<ReviewItem>, w: usize) -> (r: Option<usize>)
    ensures
        r matches Some(k) ==> queue_index(review@, w) == Some(k as int),
        r is None ==> queue_index(review@, w) is None,
{
    let mut i: usize = 0;
    while i < review.len()
        invariant
            i <= review.len(),
            forall|j: int| 0 <= j < i ==> #[trigger] review@[j].word_idx != w,
        decreases review.len() - i,
    {
        if review[i].word_idx == w {
            proof {
                lemma_queue_index_at(review@, w, i as int);
            }
            return Some(i);
        }
        i += 1;
    }
    proof {
        lemma_queue_index_at(review@, w, i as int);
    }
    None
}

proof fn lemma_queue_index_props(review: Seq<ReviewItem>, w: usize)
    ensures
        queue_index(review, w) matches Some(k) ==> 0 <= k < review.len() && review[k].word_idx
            == w,
        queue_index(review, w) is None ==> forall|j: int|
            0 <= j < review.len() ==> #[trigger] review[j].word_idx != w,
    decreases review.len(),
{
    if review.len() > 0 && review[0].word_idx != w {
        lemma_queue_index_props(review.drop_first(), w);
        assert forall|j: int| 1 <= j < review.len() implies review[j] == review.drop_first()[j
            - 1] by {}
    }
}

proof fn lemma_queue_set_ok(review: Seq<ReviewItem>, n: nat, w: usize, due: usize)
    requires
        queue_ok(review, n),
        w < n,
    ensures
        queue_ok(queue_set(review, w, due), n),
        queue_ok(queue_keep_earlier(review, w, due), n),
{
    lemma_queue_index_props(review, w);
    let a = queue_set(review, w, due);
    let b = queue_keep_earlier(review, w, due);
    assert forall|i: int, j: int|
        0 <= i < a.len() && 0 <= j < a.len() && i != j implies #[trigger] a[i].word_idx
        != #[trigger] a[j].word_idx by {
        if queue_index(review, w) is None {
            if i == review.len() {
                assert(review[j].word_idx != w);
            } else if j == review.len() {
                assert(review[i].word_idx != w);
            }
        }
    }
    assert forall|i: int, j: int|
        0 <= i < b.len() && 0 <= j < b.len() && i != j implies #[trigger] b[i].word_idx
        != #[trigger] b[j].word_idx by {
        if queue_index(review, w) is None {
            if i == review.len() {
                assert(review[j].word_idx != w);
            } else if j == review.len() {
                assert(review[i].word_idx != w);
            }
        }
    }
}

// ───────────────────────── questions ─────────────────────────

/// The words that may stand beside word `t` as wrong options: every other
/// word whose term differs from that of `t`, in order.
pub open spec fn eligible(words: Seq<Word>, t: usize) -> Seq<usize> {
    range_seq(words.len()).filter(other_term(words, t))
}

/// Whether a word is not `t` and has another term than `t`.
pub open spec fn other_term(words: Seq<Word>, t: usize) -> spec_fn(usize) -> bool {
    |i: usize| i != t && words[i as int].front@ != words[t as int].front@
}

/// Whether no two of the words `o` share a term.
pub open spec fn distinct_terms(words: Seq<Word>, o: Seq<usize>) -> bool {
    forall|a: int, b: int|
        #![trigger o[a], o[b]]
        0 <= a < o.len() && 0 <= b < o.len() && a != b ==> words[o[a] as int].front@
            != words[o[b] as int].front@
}

/// Whether one of the words `o` has the term `f`.
pub open spec fn term_shown(words: Seq<Word>, o: Seq<usize>, f: Seq<char>) -> bool {
    exists|q: int| #![trigger o[q]] 0 <= q < o.len() && words[o[q] as int].front@ == f
}

/// Whether the options of `h` are a sound question about the words: the target
/// is among them at `correct_opt`, every word exists, and no term appears
/// twice (so no word appears twice, and no wrong option has the target's term).
pub open spec fn options_ok(words: Seq<Word>, h: HistoryItem) -> bool {
    let o = h.options@;
    &&& h.target_idx < words.len()
    &&& 1 <= o.len() <= OPT_COUNT
    &&& h.correct_opt < o.len()
    &&& o[h.correct_opt as int] == h.target_idx
    &&& o.no_duplicates()
    &&& forall|j: int| 0 <= j < o.len() ==> #[trigger] o[j] < words.len()
    &&& distinct_terms(words, o)
    &&& forall|j: int|
        0 <= j < o.len() && j != h.correct_opt ==> words[#[trigger] o[j] as int].front@
            != words[h.target_idx as int].front@
    &&& h.selected_idx matches Some(s) ==> s < o.len()
}

/// Whether `h` is a question just shown at `now_ms`, not yet answered.
pub open spec fn fresh_question(h: HistoryItem, now_ms: u64) -> bool {
    &&& !h.answered
    &&& !h.skipped
    &&& h.selected_idx is None
    &&& h.question_time_ms == now_ms
    &&& h.answer_time_ms is None
    &&& h.auto_rating is None
    &&& h.manual_rating is None
}

/// Drawing from the list `p` of words not yet asked, whose last item comes
/// first: a word that was just asked gives way to the next one, when there is
/// more than one word. Gives the word and what is left of the list.
pub open spec fn draw_from(p: Seq<usize>, history: Seq<HistoryItem>, n: nat) -> (
    usize,
    Seq<usize>,
) {
    if p.len() == 0 {
        (0, p)
    } else {
        let picked = p.last();
        let rest = p.drop_last();
        if n > 1 && history.len() > 0 && history.last().target_idx == picked && rest.len() > 0 {
            (rest.last(), rest.drop_last().push(picked))
        } else {
            (picked, rest)
        }
    }
}

/// Whether drawing word `w` left `new_pending`, from the list `p`: the list of
/// words not yet asked when it had any, else a fresh round of all `n` words.
pub open spec fn drawn_from(
    old_pending: Seq<usize>,
    p: Seq<usize>,
    history: Seq<HistoryItem>,
    n: nat,
    w: usize,
    new_pending: Seq<usize>,
) -> bool {
    &&& (old_pending.len() > 0 ==> p == old_pending)
    &&& (old_pending.len() == 0 ==> is_perm_of_range(p, n))
    &&& (w, new_pending) == draw_from(p, history, n)
}

/// Scheduler request for word `w` graded `rating`: the word's memory, unless
/// the card was never reviewed.
pub open spec fn request_for(cards: Seq<FsrsCard>, w: usize, rating: FsrsRating) -> FsrsRequest {
    FsrsRequest {
        word_idx: w,
        rating,
        memory: if cards[w as int].state == CardState::New {
            None
        } else {
            Some(cards[w as int].memory)
        },
    }
}

/// The card of word `w` after a review graded `rating` that left the memory `m`.
pub open spec fn reviewed_card(card: FsrsCard, rating: FsrsRating, m: MemoryBits) -> FsrsCard {
    FsrsCard {
        memory: m,
        state: if rating == FsrsRating::Again {
            CardState::Relearning
        } else {
            CardState::Review
        },
        lapses: if rating == FsrsRating::Again {
            (card.lapses + 1) as u32
        } else {
            card.lapses
        },
    }
}

/// What the scheduler must compute for one graded answer: the word, its grade,
/// and its memory before (none for a card never reviewed).
#[derive(Clone, Copy, Debug, PartialEq, Eq, Structural)]
pub struct FsrsRequest {
    pub word_idx: usize,
    pub rating: FsrsRating,
    pub memory: Option<MemoryBits>,
}

/// What a key press on the quiz screen asks for.
#[derive(Clone, Copy, Debug, PartialEq, Eq, Structural)]
pub enum KeyAction {
    Pause,
    Answer(usize),
    Skip,
    Next,
    Prev,
    Nothing,
}

/// A key pressed on the quiz screen.
#[derive(Clone, Debug)]
pub enum KeyInput {
    Escape,
    Enter,
    ArrowRight,
    ArrowLeft,
    Character(String),
    Other,
}

/// A quiz session.
#[derive(Clone)]
pub struct QuizState {
    pub words: Vec<Word>,
    pub fsrs_cards: Vec<FsrsCard>,
    /// The words not yet asked in this round; the last one comes next.
    pub unseen: Vec<usize>,
    pub history: Vec<HistoryItem>,
    pub review: Vec<ReviewItem>,
    pub current: usize,
    pub infinite: bool,
    pub fsrs_config: FsrsConfig,
}

/// A session whose words, round, and question positions are those of a
/// sound one, whose queue is sound and whose questions are sound is sound.
proof fn lemma_wf_transfer(a: &QuizState, b: &QuizState)
    requires
        a.wf(),
        b.words@ == a.words@,
        b.fsrs_cards@.len() == a.fsrs_cards@.len(),
        b.unseen@ == a.unseen@,
        b.history@.len() == 0 ==> b.current == 0,
        b.history@.len() > 0 ==> b.current < b.history@.len(),
        queue_ok(b.review@, b.words@.len() as nat),
        forall|i: int| 0 <= i < b.history@.len() ==> options_ok(b.words@, #[trigger] b.history@[i]),
    ensures
        b.wf(),
{
    assert forall|i: int| 0 <= i < b.pending().len() implies #[trigger] b.pending()[i] < b.words.len() by {
        assert(b.pending()[i] == a.pending()[i]);
    }
}

impl QuizState {
    /// The words not yet asked in this round; the last one comes next.
    pub open spec fn pending(&self) -> Seq<usize> {
        self.unseen@
    }

    /// The invariant of a session.
    pub open spec fn wf(&self) -> bool {
        let n = self.words.len();
        &&& self.fsrs_cards.len() == n
        &&& forall|i: int| 0 <= i < self.pending().len() ==> #[trigger] self.pending()[i] < n
        &&& queue_ok(self.review@, n as nat)
        &&& forall|i: int|
            0 <= i < self.history.len() ==> options_ok(self.words@, #[trigger] self.history@[i])
        &&& self.history.len() == 0 ==> self.current == 0
        &&& self.history.len() > 0 ==> self.current < self.history.len()
    }

    /// Whether `other` has the same words, cards, mode and settings.
    pub open spec fn same_setup(&self, other: &QuizState) -> bool {
        &&& self.words@ == other.words@
        &&& self.fsrs_cards@ == other.fsrs_cards@
        &&& self.infinite == other.infinite
        &&& self.fsrs_config == other.fsrs_config
    }

    /// The index from which review distances count: the last question asked.
    pub open spec fn review_base(&self) -> nat {
        if self.history.len() == 0 {
            0
        } else {
            (self.history.len() - 1) as nat
        }
    }

    /// Starts a session over `words`, with every word to be asked once in a
    /// random order.
    pub fn new(words: Vec<Word>, infinite: bool, fsrs_config: FsrsConfig) -> (s: QuizState)
        ensures
            s.wf(),
            s.words@ == words@,
            s.fsrs_cards@.len() == words@.len(),
            forall|i: int| 0 <= i < words@.len() ==> #[trigger] s.fsrs_cards@[i] == FsrsCard::fresh(),
            is_perm_of_range(s.pending(), words@.len()),
            s.history@.len() == 0,
            s.review@.len() == 0,
            s.current == 0,
            s.infinite == infinite,
            s.fsrs_config == fsrs_config,
    {
        let n = words.len();
        let mut unseen = index_list(n);
        shuffle(&mut unseen);
        let mut cards: Vec<FsrsCard> = Vec::new();
        let mut i: usize = 0;
        while i < n
            invariant
                i <= n,
                cards@.len() == i,
                forall|j: int| 0 <= j < i ==> #[trigger] cards@[j] == FsrsCard::fresh(),
            decreases n - i,
        {
            cards.push(FsrsCard::new_card());
            i += 1;
        }
        proof {
            lemma_perm_range(unseen@, n as nat);
        }
        QuizState {
            fsrs_cards: cards,
            words,
            unseen,
            history: Vec::new(),
            review: Vec::new(),
            current: 0,
            infinite,
            fsrs_config,
        }
    }

    /// The question on screen, if any.
    pub fn current_question(&self) -> (q: Option<&HistoryItem>)
        ensures
            self.current < self.history.len() ==> q == Some(&self.history@[self.current as int]),
            self.current >= self.history.len() ==> q is None,
    {
        if self.current < self.history.len() {
            Some(&self.history[self.current])
        } else {
            None
        }
    }

    /// Starts a new round: every word once more, in a random order.
    fn refill_unseen(&mut self)
        ensures
            is_perm_of_range(final(self).pending(), old(self).words.len() as nat),
            final(self).words == old(self).words,
            final(self).fsrs_cards == old(self).fsrs_cards,
            final(self).history == old(self).history,
            final(self).review == old(self).review,
            final(self).current == old(self).current,
            final(self).infinite == old(self).infinite,
            final(self).fsrs_config == old(self).fsrs_config,
    {
        let n = self.words.len();
        let mut idxs = index_list(n);
        shuffle(&mut idxs);
        self.unseen = idxs;
    }

    /// Draws a word not yet asked in this round, starting a new round when all
    /// have been asked, and avoiding the word just asked when it can.
    fn pick_new(&mut self) -> (w: usize)
        requires
            old(self).wf(),
            old(self).words.len() > 0,
        ensures
            exists|p: Seq<usize>|
                drawn_from(
                    old(self).pending(),
                    p,
                    old(self).history@,
                    old(self).words.len() as nat,
                    w,
                    final(self).pending(),
                ),
            w < old(self).words.len(),
            final(self).wf(),
            final(self).words == old(self).words,
            final(self).fsrs_cards == old(self).fsrs_cards,
            final(self).history == old(self).history,
            final(self).review == old(self).review,
            final(self).current == old(self).current,
            final(self).infinite == old(self).infinite,
            final(self).fsrs_config == old(self).fsrs_config,
    {
        let n = self.words.len();
        let ghost old_pending = self.unseen@;
        if self.unseen.len() == 0 {
            self.refill_unseen();
            proof {
                lemma_perm_range(self.unseen@, n as nat);
            }
        }
        let ghost p = self.unseen@;
        assert(p.len() > 0);
        let picked = match self.unseen.pop() {
            Some(x) => x,
            None => 0,
        };
        assert(picked == p.last());
        assert(self.unseen@ == p.drop_last());
        if self.words.len() > 1 {
            if self.history.len() > 0 {
                let last_target = self.history[self.history.len() - 1].target_idx;
                if last_target == picked {
                    if let Some(next) = self.unseen.pop() {
                        self.unseen.push(picked);
                        assert(self.unseen@ == p.drop_last().drop_last().push(picked));
                        assert(drawn_from(
                            old(self).pending(),
                            p,
                            old(self).history@,
                            old(self).words.len() as nat,
                            next,
                            self.pending(),
                        ));
                        return next;
                    }
                }
            }
        }
        assert(drawn_from(
            old(self).pending(),
            p,
            old(self).history@,
            old(self).words.len() as nat,
            picked,
            self.pending(),
        ));
        picked
    }

    /// Whether another question can be asked now: there are words, and a review
    /// is due, or a word of this round is left, or the session never ends.
    pub open spec fn can_generate(&self) -> bool {
        &&& self.words.len() > 0
        &&& {
            ||| first_due(self.review@, self.history.len() as nat) is Some
            ||| self.pending().len() > 0
            ||| self.infinite
        }
    }

    /// How the next target is chosen: a due review first, then the next word of
    /// this round, then (in an endless session) a word of a new round.
    pub open spec fn target_chosen(old_s: &QuizState, new_s: &QuizState, target: usize) -> bool {
        match first_due(old_s.review@, old_s.history.len() as nat) {
            Some(k) => {
                &&& target == old_s.review@[k].word_idx
                &&& new_s.review@ == old_s.review@.remove(k)
                &&& new_s.pending() == old_s.pending()
            },
            None => {
                &&& new_s.review@ == old_s.review@
                &&& if old_s.pending().len() > 0 {
                    &&& target == old_s.pending().last()
                    &&& new_s.pending() == old_s.pending().drop_last()
                } else {
                    exists|p: Seq<usize>|
                        {
                            &&& is_perm_of_range(p, old_s.words.len() as nat)
                            &&& (target, new_s.pending()) == draw_from(
                                p,
                                old_s.history@,
                                old_s.words.len() as nat,
                            )
                        }
                }
            },
        }
    }

    /// What asking a new question at `now_ms` did: one question more, current,
    /// fresh, about the target that [`QuizState::target_chosen`] names, with
    /// one option for the target and up to three other words of other terms,
    /// no term twice; fewer than four options only when every term of the
    /// other words is already among them.
    pub open spec fn generated(old_s: &QuizState, new_s: &QuizState, now_ms: u64) -> bool {
        let h = new_s.history@.last();
        &&& new_s.same_setup(old_s)
        &&& new_s.history@.len() == old_s.history@.len() + 1
        &&& new_s.history@.drop_last() == old_s.history@
        &&& new_s.current == old_s.history@.len()
        &&& QuizState::target_chosen(old_s, new_s, h.target_idx)
        &&& fresh_question(h, now_ms)
        &&& distinct_terms(old_s.words@, h.options@)
        &&& h.options@.len() < OPT_COUNT ==> forall|e: usize|
            #[trigger] eligible(old_s.words@, h.target_idx).contains(e) ==> term_shown(
                old_s.words@,
                h.options@,
                old_s.words@[e as int].front@,
            )
        &&& forall|j: int|
            0 <= j < h.options@.len() && j != h.correct_opt ==> eligible(
                old_s.words@,
                h.target_idx,
            ).contains(#[trigger] h.options@[j])
    }

    /// Asks a new question, if [`QuizState::can_generate`]: the target comes as
    /// [`QuizState::target_chosen`] says, with up to three other words of
    /// different terms as options, and becomes the current question.
    pub fn gen_question(&mut self, now_ms: u64) -> (r: bool)
        requires
            old(self).wf(),
        ensures
            r == old(self).can_generate(),
            !r ==> *final(self) == *old(self),
            final(self).wf(),
            r ==> QuizState::generated(old(self), final(self), now_ms),
    {
        if self.words.len() == 0 {
            return false;
        }
        let ghost old_self = *self;
        let n = self.words.len();
        // a due review comes first
        let asked = self.history.len();
        let mut due: Option<usize> = None;
        let mut k: usize = 0;
        while k < self.review.len()
            invariant_except_break
                due is None,
            invariant
                k <= self.review.len(),
                forall|j: int| 0 <= j < k ==> asked < #[trigger] self.review@[j].due_after,
            ensures
                k <= self.review.len(),
                forall|j: int| 0 <= j < k ==> asked < #[trigger] self.review@[j].due_after,
                due is None ==> k == self.review.len(),
                due matches Some(d) ==> d == k && k < self.review.len() && asked
                    >= self.review@[k as int].due_after,
            decreases self.review.len() - k,
        {
            if asked >= self.review[k].due_after {
                due = Some(k);
                break;
            }
            k += 1;
        }
        proof {
            lemma_first_due_at(self.review@, asked as nat, k as int);
        }
        let target = match due {
            Some(idx) => {
                let item = self.review.remove(idx);
                item.word_idx
            },
            None => {
                if self.unseen.len() == 0 {
                    if self.infinite {
                        self.pick_new()
                    } else {
                        return false;
                    }
                } else {
                    let t = match self.unseen.pop() {
                        Some(x) => x,
                        None => 0,
                    };
                    t
                }
            },
        };
        assert(target < n) by {
            if due is None && old_self.unseen@.len() > 0 {
                assert(old_self.pending()[old_self.pending().len() - 1] < n);
            }
        }
        proof {
            if due is None && old_self.unseen@.len() == 0 {
                let p = choose|p: Seq<usize>|
                    drawn_from(
                        old_self.pending(),
                        p,
                        old_self.history@,
                        n as nat,
                        target,
                        self.pending(),
                    );
                assert(is_perm_of_range(p, old_self.words.len() as nat));
                assert((target, self.pending()) == draw_from(p, old_self.history@, n as nat));
            }
            assert(QuizState::target_chosen(&old_self, self, target));
            assert forall|i: int| 0 <= i < self.pending().len() implies #[trigger] self.pending()[i]
                < n by {
                if due is None && old_self.unseen@.len() > 0 {
                    assert(self.pending()[i] == old_self.pending()[i]);
                }
            }
        }
        let ghost mid = *self;
        proof {
            // the queue lost at most one entry and keeps its invariant
            if let Some(idx) = due {
                let r0 = old_self.review@;
                let r1 = self.review@;
                assert(r1 == r0.remove(idx as int));
                assert forall|i: int, j: int|
                    0 <= i < r1.len() && 0 <= j < r1.len() && i != j implies #[trigger] r1[i].word_idx
                    != #[trigger] r1[j].word_idx by {
                    let i0 = if i < idx { i } else { i + 1 };
                    let j0 = if j < idx { j } else { j + 1 };
                    assert(r1[i] == r0[i0]);
                    assert(r1[j] == r0[j0]);
                }
                assert forall|i: int| 0 <= i < r1.len() implies #[trigger] r1[i].word_idx < n by {
                    let i0 = if i < idx { i } else { i + 1 };
                    assert(r1[i] == r0[i0]);
                }
            }
        }
        // the wrong options: other words with another term, in a random order
        let mut pool: Vec<usize> = Vec::new();
        let mut i: usize = 0;
        let ghost pred = other_term(self.words@, target);
        while i < n
            invariant
                i <= n,
                n == self.words.len(),
                target < n,
                pred == other_term(self.words@, target),
                pool@ == range_seq(i as nat).filter(pred),
                forall|a: int| 0 <= a < pool@.len() ==> #[trigger] pool@[a] < i,
                forall|a: int, b: int| 0 <= a < b < pool@.len() ==> #[trigger] pool@[a] < #[trigger] pool@[b],
            decreases n - i,
        {
            let same_front = self.words[i].front == self.words[target].front;
            proof {
                assert(range_seq((i + 1) as nat) =~= range_seq(i as nat).push(i));
                range_seq(i as nat).lemma_filter_push(i, pred);
            }
            if i != target && !same_front {
                pool.push(i);
            }
            i += 1;
        }
        assert(pool@ == eligible(self.words@, target));
        let ghost elig = pool@;
        proof {
            broadcast use vstd::seq_lib::group_filter_ensures;
            assert forall|a: int, b: int| 0 <= a < elig.len() && 0 <= b < elig.len() && a != b implies elig[a] != elig[b] by {
                if a < b {
                    assert(elig[a] < elig[b]);
                } else {
                    assert(elig[b] < elig[a]);
                }
            }
            assert(elig.no_duplicates());
        }
        shuffle(&mut pool);
        proof {
            lemma_multiset_no_dup(pool@, elig);
            assert forall|a: int| 0 <= a < pool@.len() implies #[trigger] pool@[a] != target
                && elig.contains(pool@[a]) by {
                lemma_multiset_member(pool@, elig, a);
            }
        }
        let mut opts: Vec<usize> = Vec::new();
        opts.push(target);
        let ghost words = self.words@;
        proof {
            assert forall|a: int, b: int|
                #![trigger opts@[a], opts@[b]]
                0 <= a < opts@.len() && 0 <= b < opts@.len() && a != b implies words[opts@[a] as int].front@
                != words[opts@[b] as int].front@ by {}
        }
        let mut j: usize = 0;
        while j < pool.len()
            invariant_except_break
                opts@.len() <= OPT_COUNT,
            invariant
                j <= pool.len(),
                words == self.words@,
                n == self.words.len(),
                target < n,
                1 <= opts@.len() <= OPT_COUNT,
                opts@[0] == target,
                forall|a: int| 0 <= a < pool@.len() ==> #[trigger] pool@[a] != target
                    && elig.contains(pool@[a]),
                forall|a: int| 0 <= a < elig.len() ==> #[trigger] elig[a] < n,
                forall|q: int| 0 <= q < opts@.len() ==> #[trigger] opts@[q] < n,
                forall|q: int| 1 <= q < opts@.len() ==> #[trigger] elig.contains(opts@[q]),
                distinct_terms(words, opts@),
                forall|a: int| 0 <= a < j ==> term_shown(words, opts@, words[#[trigger] pool@[a] as int].front@),
            ensures
                j == pool.len() || opts@.len() == OPT_COUNT,
            decreases pool.len() - j,
        {
            if opts.len() >= OPT_COUNT {
                break;
            }
            let idx = pool[j];
            assert(elig.contains(idx));
            assert(idx < n);
            let taken = term_taken(&self.words, &opts, idx);
            let ghost before = opts@;
            if !taken {
                opts.push(idx);
                proof {
                    assert forall|a: int, b: int|
                        #![trigger opts@[a], opts@[b]]
                        0 <= a < opts@.len() && 0 <= b < opts@.len() && a != b implies words[opts@[a] as int].front@
                        != words[opts@[b] as int].front@ by {
                        if a < before.len() && b < before.len() {
                            assert(opts@[a] == before[a] && opts@[b] == before[b]);
                        } else if a < before.len() {
                            assert(opts@[a] == before[a]);
                            assert(!(words[before[a] as int].front@ == words[idx as int].front@));
                        } else {
                            assert(opts@[b] == before[b]);
                            assert(!(words[before[b] as int].front@ == words[idx as int].front@));
                        }
                    }
                    assert forall|a: int| 0 <= a < j + 1 implies term_shown(
                        words,
                        opts@,
                        words[#[trigger] pool@[a] as int].front@,
                    ) by {
                        if a < j {
                            let q = choose|q: int|
                                #![trigger before[q]]
                                0 <= q < before.len() && words[before[q] as int].front@
                                    == words[pool@[a] as int].front@;
                            assert(opts@[q] == before[q]);
                        } else {
                            assert(opts@[before.len() as int] == idx);
                        }
                    }
                }
            } else {
                proof {
                    assert forall|a: int| 0 <= a < j + 1 implies term_shown(
                        words,
                        opts@,
                        words[#[trigger] pool@[a] as int].front@,
                    ) by {}
                }
            }
            j += 1;
        }
        let ghost opts0 = opts@;
        proof {
            assert(opts0.no_duplicates()) by {
                assert forall|a: int, b: int|
                    0 <= a < opts0.len() && 0 <= b < opts0.len() && a != b implies opts0[a]
                    != opts0[b] by {
                    assert(words[opts0[a] as int].front@ != words[opts0[b] as int].front@);
                }
            }
            if opts0.len() < OPT_COUNT {
                assert forall|e: usize| #[trigger] elig.contains(e) implies term_shown(
                    words,
                    opts0,
                    words[e as int].front@,
                ) by {
                    let b = choose|b: int| 0 <= b < elig.len() && elig[b] == e;
                    lemma_multiset_member(elig, pool@, b);
                    let a = choose|a: int| 0 <= a < pool@.len() && pool@[a] == e;
                    assert(term_shown(words, opts0, words[pool@[a] as int].front@));
                }
            }
        }
        shuffle(&mut opts);
        proof {
            lemma_multiset_no_dup(opts@, opts0);
            lemma_multiset_member(opts0, opts@, 0);
            assert forall|q: int| 0 <= q < opts@.len() implies #[trigger] opts@[q] == target
                || (elig.contains(opts@[q]) && opts@[q] < n && other_term(mid.words@, target)(
                opts@[q],
            )) by {
                lemma_multiset_member(opts@, opts0, q);
                let a = choose|a: int| 0 <= a < opts0.len() && opts0[a] == opts@[q];
                if a > 0 {
                    assert(elig.contains(opts0[a]));
                    let b = choose|b: int| 0 <= b < elig.len() && elig[b] == opts0[a];
                    assert(elig[b] < n);
                }
            }
            assert forall|a: int, b: int|
                #![trigger opts@[a], opts@[b]]
                0 <= a < opts@.len() && 0 <= b < opts@.len() && a != b implies words[opts@[a] as int].front@
                != words[opts@[b] as int].front@ by {
                lemma_multiset_member(opts@, opts0, a);
                lemma_multiset_member(opts@, opts0, b);
                let x = choose|x: int| 0 <= x < opts0.len() && opts0[x] == opts@[a];
                let y = choose|y: int| 0 <= y < opts0.len() && opts0[y] == opts@[b];
                assert(opts@[a] != opts@[b]);
                assert(x != y);
            }
            if opts@.len() < OPT_COUNT {
                assert forall|e: usize| #[trigger] elig.contains(e) implies term_shown(
                    words,
                    opts@,
                    words[e as int].front@,
                ) by {
                    assert(term_shown(words, opts0, words[e as int].front@));
                    let q = choose|q: int|
                        #![trigger opts0[q]]
                        0 <= q < opts0.len() && words[opts0[q] as int].front@ == words[e as int].front@;
                    lemma_multiset_member(opts0, opts@, q);
                    let r = choose|r: int| 0 <= r < opts@.len() && opts@[r] == opts0[q];
                    assert(words[opts@[r] as int].front@ == words[e as int].front@);
                }
            }
        }
        let ask_front = rand_bool();
        let correct_opt = match position_of(&opts, target) {
            Some(p) => p,
            None => 0,
        };
        assert(correct_opt < opts.len() && opts@[correct_opt as int] == target);
        self.history.push(
            HistoryItem {
                target_idx: target,
                options: opts,
                ask_front,
                answered: false,
                skipped: false,
                selected_idx: None,
                correct_opt,
                question_time_ms: now_ms,
                answer_time_ms: None,
                auto_rating: None,
                manual_rating: None,
            },
        );
        self.current = self.history.len() - 1;
        proof {
            let h = self.history@.last();
            assert(h.options@ == opts@);
            assert forall|q: int|
                0 <= q < h.options@.len() && q != h.correct_opt implies mid.words@[#[trigger] h.options@[q] as int].front@
                != mid.words@[h.target_idx as int].front@ by {
                assert(h.options@[q] != target);
            }
            assert(options_ok(self.words@, h));
            assert forall|i: int| 0 <= i < self.history.len() implies options_ok(
                self.words@,
                #[trigger] self.history@[i],
            ) by {
                if i < old_self.history.len() {
                    assert(self.history@[i] == old_self.history@[i]);
                }
            }
            assert(self.history@.drop_last() =~= old_self.history@);
        }
        true
    }

    /// Whether another question can still come: the session never ends, or a
    /// later question was already asked, or words of this round are left, or a
    /// review is due.
    pub open spec fn more_to_come(&self) -> bool {
        ||| self.infinite
        ||| self.current + 1 < self.history.len()
        ||| self.pending().len() > 0
        ||| first_due(self.review@, self.history.len() as nat) is Some
    }

    /// Whether another question can still come, as [`QuizState::more_to_come`] says.
    pub fn has_more(&self) -> (r: bool)
        requires
            self.wf(),
        ensures
            r == self.more_to_come(),
    {
        if self.infinite || self.current + 1 < self.history.len() || self.unseen.len() > 0 {
            return true;
        }
        let asked = self.history.len();
        let mut k: usize = 0;
        while k < self.review.len()
            invariant
                k <= self.review.len(),
                asked == self.history.len(),
                forall|j: int| 0 <= j < k ==> asked < #[trigger] self.review@[j].due_after,
            decreases self.review.len() - k,
        {
            if asked >= self.review[k].due_after {
                proof {
                    lemma_first_due_at(self.review@, asked as nat, k as int);
                }
                return true;
            }
            k += 1;
        }
        proof {
            lemma_first_due_at(self.review@, asked as nat, k as int);
        }
        false
    }

    /// Whether `new_s` differs from `old_s` at most in its review queue.
    pub open spec fn same_but_review(old_s: &QuizState, new_s: &QuizState) -> bool {
        &&& new_s.same_setup(old_s)
        &&& new_s.unseen@ == old_s.unseen@
        &&& new_s.history@ == old_s.history@
        &&& new_s.current == old_s.current
    }

    /// Whether the review queue of `new_s` is that of `old_s` with word `w`
    /// due `REVIEW_LO` to `REVIEW_HI` questions after the last one asked, unless
    /// it was due sooner already.
    pub open spec fn fallback_scheduled(old_s: &QuizState, new_s: &QuizState, w: usize) -> bool {
        exists|due: usize|
            old_s.review_base() + REVIEW_LO <= due <= old_s.review_base() + REVIEW_HI
                && new_s.review@ == #[trigger] queue_keep_earlier(old_s.review@, w, due)
    }

    /// Puts word `word_idx` back in the queue, `REVIEW_LO` to `REVIEW_HI`
    /// questions (at random) after the last one asked; a word already waiting
    /// keeps the earlier of its two times.
    fn schedule_review(&mut self, word_idx: usize)
        requires
            old(self).wf(),
            word_idx < old(self).words.len(),
            old(self).history.len() <= usize::MAX - REVIEW_HI,
        ensures
            final(self).wf(),
            QuizState::same_but_review(old(self), final(self)),
            QuizState::fallback_scheduled(old(self), final(self), word_idx),
    {
        let offset = REVIEW_LO + rand_usize(REVIEW_HI - REVIEW_LO + 1);
        let base = if self.history.len() > 0 {
            self.history.len() - 1
        } else {
            0
        };
        let due_after = base + offset;
        let ghost old_review = self.review@;
        proof {
            lemma_queue_index_props(old_review, word_idx);
        }
        match find_in_queue(&self.review, word_idx) {
            Some(k) => {
                if self.review[k].due_after > due_after {
                    self.review[k].due_after = due_after;
                }
                assert(self.review@ =~= queue_keep_earlier(old_review, word_idx, due_after));
            },
            None => {
                self.review.push(ReviewItem { word_idx, due_after });
            },
        }
        proof {
            lemma_queue_index_props(old_review, word_idx);
            lemma_queue_set_ok(old_review, self.words.len() as nat, word_idx, due_after);
            assert(self.review@ == queue_keep_earlier(old_review, word_idx, due_after));
            lemma_wf_transfer(old(self), self);
        }
    }

    /// The offset of a review, in questions, for an FSRS interval of
    /// `interval_tenths` tenths of a day: `REVIEW_LO` more.
    pub fn review_offset(interval_tenths: usize) -> (r: usize)
        requires
            interval_tenths <= usize::MAX - REVIEW_LO,
        ensures
            r == REVIEW_LO + interval_tenths,
    {
        let r = REVIEW_LO + interval_tenths;
        if r < REVIEW_LO {
            REVIEW_LO
        } else {
            r
        }
    }

    /// What recording the scheduler's result for `request` did: the same
    /// words, round, questions and settings; the word's card as
    /// [`reviewed_card`] says; and the word due `REVIEW_LO` plus
    /// `interval_tenths` questions after the last one asked, as [`queue_set`]
    /// says.
    pub open spec fn fsrs_applied(
        old_s: &QuizState,
        new_s: &QuizState,
        request: FsrsRequest,
        memory: MemoryBits,
        interval_tenths: usize,
    ) -> bool {
        &&& new_s.words@ == old_s.words@
        &&& new_s.unseen@ == old_s.unseen@
        &&& new_s.history@ == old_s.history@
        &&& new_s.current == old_s.current
        &&& new_s.infinite == old_s.infinite
        &&& new_s.fsrs_config == old_s.fsrs_config
        &&& new_s.fsrs_cards@ == old_s.fsrs_cards@.update(
            request.word_idx as int,
            reviewed_card(old_s.fsrs_cards@[request.word_idx as int], request.rating, memory),
        )
        &&& new_s.review@ == queue_set(
            old_s.review@,
            request.word_idx,
            (old_s.review_base() + REVIEW_LO + interval_tenths) as usize,
        )
    }

    /// Records what the scheduler computed for `request`: the word's card gets
    /// the new memory, its state (`Relearning` after `Again`, else `Review`)
    /// and one lapse more after `Again`; the word is due `REVIEW_LO` plus
    /// `interval_tenths` questions after the last one asked.
    pub fn apply_fsrs(&mut self, request: FsrsRequest, memory: MemoryBits, interval_tenths: usize)
        requires
            old(self).wf(),
            request.word_idx < old(self).words.len(),
            request.rating == FsrsRating::Again ==> old(self).fsrs_cards@[request.word_idx as int].lapses
                < u32::MAX,
            old(self).review_base() + REVIEW_LO + interval_tenths <= usize::MAX,
        ensures
            final(self).wf(),
            QuizState::fsrs_applied(old(self), final(self), request, memory, interval_tenths),
    {
        let w = request.word_idx;
        let card = self.fsrs_cards[w];
        let is_again = match request.rating {
            FsrsRating::Again => true,
            _ => false,
        };
        let lapses = if is_again {
            card.lapses + 1
        } else {
            card.lapses
        };
        let state = if is_again {
            CardState::Relearning
        } else {
            CardState::Review
        };
        self.fsrs_cards.set(w, FsrsCard { memory, state, lapses });
        let offset = QuizState::review_offset(interval_tenths);
        let base = if self.history.len() > 0 {
            self.history.len() - 1
        } else {
            0
        };
        let due_after = base + offset;
        let ghost old_review = self.review@;
        proof {
            lemma_queue_index_props(old_review, w);
        }
        match find_in_queue(&self.review, w) {
            Some(k) => {
                self.review.set(k, ReviewItem { word_idx: w, due_after });
            },
            None => {
                self.review.push(ReviewItem { word_idx: w, due_after });
            },
        }
        assert(self.review@ == queue_set(old_review, w, due_after));
        proof {
            lemma_queue_index_props(old_review, w);
            lemma_queue_set_ok(old_review, self.words.len() as nat, w, due_after);
            assert forall|i: int| 0 <= i < self.history@.len() implies options_ok(
                self.words@,
                #[trigger] self.history@[i],
            ) by {
                assert(self.history@[i] == old(self).history@[i]);
            }
            lemma_wf_transfer(old(self), self);
        }
    }

    /// Whether the current question can take an answer with option `opt_idx`.
    pub open spec fn can_answer(&self, opt_idx: usize) -> bool {
        &&& self.current < self.history.len()
        &&& !self.history@[self.current as int].answered
        &&& opt_idx < self.history@[self.current as int].options@.len()
    }

    /// Whether the scheduler handles an answer: FSRS is on, and the answer is
    /// right or wrong answers are reviewed.
    pub open spec fn fsrs_handles(cfg: FsrsConfig, correct: bool) -> bool {
        cfg.enabled && (correct || cfg.review_wrong)
    }

    /// What answering the current question of `old_s` with option `opt_idx`
    /// at `now_ms` did: the choice, the time taken and the automatic grade are
    /// recorded; the scheduler gets a request when [`QuizState::fsrs_handles`]
    /// says so, a wrong answer is queued at random when wrong answers are
    /// reviewed without FSRS, and the queue stays as it was otherwise.
    pub open spec fn answered(
        old_s: &QuizState,
        new_s: &QuizState,
        opt_idx: usize,
        now_ms: u64,
        req: Option<FsrsRequest>,
    ) -> bool {
        let cur = old_s.current as int;
        let h = old_s.history@[cur];
        let correct = opt_idx == h.correct_opt;
        let ms = elapsed_ms(h.question_time_ms, now_ms);
        let rating = old_s.fsrs_config.rating_for(correct, ms);
        &&& new_s.history@ == old_s.history@.update(cur, answered_item(h, opt_idx, ms, rating))
        &&& new_s.same_setup(old_s)
        &&& new_s.unseen@ == old_s.unseen@
        &&& new_s.current == old_s.current
        &&& if QuizState::fsrs_handles(old_s.fsrs_config, correct) {
            &&& req == Some(request_for(old_s.fsrs_cards@, h.target_idx, rating))
            &&& new_s.review@ == old_s.review@
        } else if !correct && old_s.fsrs_config.review_wrong {
            &&& req is None
            &&& QuizState::fallback_scheduled(old_s, new_s, h.target_idx)
        } else {
            &&& req is None
            &&& new_s.review@ == old_s.review@
        }
    }

    /// Answers the current question with option `opt_idx` at `now_ms`: records
    /// the choice, the time taken and the automatic grade. A wrong answer comes
    /// back for review when wrong answers are reviewed; with FSRS on, what the
    /// scheduler must compute is returned (see [`QuizState::apply_fsrs`]),
    /// otherwise the word is queued at random. Does nothing when the question
    /// is answered or the option does not exist.
    pub fn answer(&mut self, opt_idx: usize, now_ms: u64) -> (req: Option<FsrsRequest>)
        requires
            old(self).wf(),
            old(self).history.len() <= usize::MAX - REVIEW_HI,
        ensures
            final(self).wf(),
            !old(self).can_answer(opt_idx) ==> *final(self) == *old(self) && req is None,
            old(self).can_answer(opt_idx) ==> QuizState::answered(
                old(self),
                final(self),
                opt_idx,
                now_ms,
                req,
            ),
    {
        let current = self.current;
        if current >= self.history.len() {
            return None;
        }
        if self.history[current].answered || opt_idx >= self.history[current].options.len() {
            return None;
        }
        let target_idx = self.history[current].target_idx;
        let is_correct = opt_idx == self.history[current].correct_opt;
        let start = self.history[current].question_time_ms;
        let answer_time_ms = if now_ms >= start {
            now_ms - start
        } else {
            0
        };
        let rating = self.fsrs_config.auto_rating(is_correct, answer_time_ms);
        let ghost h0 = self.history@[current as int];
        self.history[current].answered = true;
        self.history[current].selected_idx = Some(opt_idx);
        self.history[current].answer_time_ms = Some(answer_time_ms);
        self.history[current].auto_rating = Some(rating);
        assert(self.history@[current as int] == answered_item(h0, opt_idx, answer_time_ms, rating));
        assert(self.history@ =~= old(self).history@.update(
            current as int,
            answered_item(h0, opt_idx, answer_time_ms, rating),
        ));
        proof {
            assert forall|i: int| 0 <= i < self.history.len() implies options_ok(
                self.words@,
                #[trigger] self.history@[i],
            ) by {
                if i != current {
                    assert(self.history@[i] == old(self).history@[i]);
                } else {
                    let a = old(self).history@[i];
                    let b = self.history@[i];
                    assert(options_ok(self.words@, a));
                    assert(b.options == a.options && b.target_idx == a.target_idx && b.correct_opt
                        == a.correct_opt);
                }
            }
            lemma_wf_transfer(old(self), self);
        }
        if !is_correct {
            if self.fsrs_config.review_wrong {
                if self.fsrs_config.enabled {
                    return Some(self.request(target_idx, rating));
                } else {
                    self.schedule_review(target_idx);
                }
            }
        } else {
            if self.fsrs_config.enabled {
                return Some(self.request(target_idx, rating));
            }
        }
        None
    }

    /// What the scheduler must compute for word `w` graded `rating`.
    fn request(&self, w: usize, rating: FsrsRating) -> (r: FsrsRequest)
        requires
            w < self.fsrs_cards.len(),
        ensures
            r == request_for(self.fsrs_cards@, w, rating),
    {
        let card = self.fsrs_cards[w];
        let memory = match card.state {
            CardState::New => None,
            _ => Some(card.memory),
        };
        FsrsRequest { word_idx: w, rating, memory }
    }

    /// Whether the current question has been answered or skipped, so that its
    /// grade can be chosen by hand.
    pub open spec fn can_rate(&self) -> bool {
        self.current < self.history.len() && self.history@[self.current as int].answered
    }

    /// Chooses the grade of the current, answered question by hand. With FSRS
    /// on and the grade in force changed, returns what the scheduler must
    /// compute again (see [`QuizState::apply_fsrs`]). Does nothing when the
    /// question is not answered.
    pub fn set_rating(&mut self, rating: FsrsRating) -> (req: Option<FsrsRequest>)
        requires
            old(self).wf(),
        ensures
            final(self).wf(),
            !old(self).can_rate() ==> *final(self) == *old(self) && req is None,
            old(self).can_rate() ==> {
                let cur = old(self).current as int;
                let h = old(self).history@[cur];
                &&& final(self).history@ == old(self).history@.update(
                    cur,
                    (HistoryItem { manual_rating: Some(rating), ..h }),
                )
                &&& final(self).same_setup(old(self))
                &&& final(self).unseen@ == old(self).unseen@
                &&& final(self).current == old(self).current
                &&& final(self).review@ == old(self).review@
                &&& req == if old(self).fsrs_config.enabled && h.rating_in_force() != Some(rating) {
                    Some(request_for(old(self).fsrs_cards@, h.target_idx, rating))
                } else {
                    None
                }
            },
    {
        let current = self.current;
        if current >= self.history.len() {
            return None;
        }
        if !self.history[current].answered {
            return None;
        }
        let old_rating = self.history[current].rating();
        let ghost h0 = self.history@[current as int];
        self.history[current].manual_rating = Some(rating);
        assert(self.history@ =~= old(self).history@.update(
            current as int,
            HistoryItem { manual_rating: Some(rating), ..h0 },
        ));
        proof {
            assert forall|i: int| 0 <= i < self.history.len() implies options_ok(
                self.words@,
                #[trigger] self.history@[i],
            ) by {
                if i != current {
                    assert(self.history@[i] == old(self).history@[i]);
                } else {
                    let a = old(self).history@[i];
                    let b = self.history@[i];
                    assert(options_ok(self.words@, a));
                    assert(b.options == a.options && b.target_idx == a.target_idx && b.correct_opt
                        == a.correct_opt);
                }
            }
            lemma_wf_transfer(old(self), self);
        }
        let changed = match old_rating {
            Some(r) => r != rating,
            None => true,
        };
        if self.fsrs_config.enabled && changed {
            let target_idx = self.history[current].target_idx;
            return Some(self.request(target_idx, rating));
        }
        None
    }

    /// Whether the current question can be skipped: it exists and is not answered.
    pub open spec fn can_skip(&self) -> bool {
        self.current < self.history.len() && !self.history@[self.current as int].answered
    }

    /// Skips the current question at `now_ms`: it counts as answered, with no
    /// choice and the grade `Again`, and its word comes back for review (through
    /// the scheduler when FSRS is on, see [`QuizState::apply_fsrs`]).
    pub fn skip(&mut self, now_ms: u64) -> (req: Option<FsrsRequest>)
        requires
            old(self).wf(),
            old(self).history.len() <= usize::MAX - REVIEW_HI,
        ensures
            final(self).wf(),
            !old(self).can_skip() ==> *final(self) == *old(self) && req is None,
            old(self).can_skip() ==> {
                let cur = old(self).current as int;
                let h = old(self).history@[cur];
                let ms = elapsed_ms(h.question_time_ms, now_ms);
                &&& final(self).history@ == old(self).history@.update(cur, skipped_item(h, ms))
                &&& final(self).same_setup(old(self))
                &&& final(self).unseen@ == old(self).unseen@
                &&& final(self).current == old(self).current
                &&& if old(self).fsrs_config.enabled {
                    &&& req == Some(
                        request_for(old(self).fsrs_cards@, h.target_idx, FsrsRating::Again),
                    )
                    &&& final(self).review@ == old(self).review@
                } else {
                    &&& req is None
                    &&& QuizState::fallback_scheduled(old(self), final(self), h.target_idx)
                }
            },
    {
        let current = self.current;
        if current >= self.history.len() {
            return None;
        }
        if self.history[current].answered {
            return None;
        }
        let target_idx = self.history[current].target_idx;
        let start = self.history[current].question_time_ms;
        let answer_time_ms = if now_ms >= start {
            now_ms - start
        } else {
            0
        };
        let ghost h0 = self.history@[current as int];
        self.history[current].answered = true;
        self.history[current].skipped = true;
        self.history[current].selected_idx = None;
        self.history[current].answer_time_ms = Some(answer_time_ms);
        self.history[current].auto_rating = Some(FsrsRating::Again);
        assert(self.history@ =~= old(self).history@.update(
            current as int,
            skipped_item(h0, answer_time_ms),
        ));
        proof {
            assert forall|i: int| 0 <= i < self.history.len() implies options_ok(
                self.words@,
                #[trigger] self.history@[i],
            ) by {
                if i != current {
                    assert(self.history@[i] == old(self).history@[i]);
                } else {
                    let a = old(self).history@[i];
                    let b = self.history@[i];
                    assert(options_ok(self.words@, a));
                    assert(b.options == a.options && b.target_idx == a.target_idx && b.correct_opt
                        == a.correct_opt);
                }
            }
            lemma_wf_transfer(old(self), self);
        }
        if self.fsrs_config.enabled {
            return Some(self.request(target_idx, FsrsRating::Again));
        }
        self.schedule_review(target_idx);
        None
    }

    /// Moves to the next question: a later one already asked, else a new one
    /// (see [`QuizState::gen_question`]).
    pub fn next(&mut self, now_ms: u64)
        requires
            old(self).wf(),
        ensures
            final(self).wf(),
            old(self).current + 1 < old(self).history.len() ==> *final(self) == (QuizState {
                current: (old(self).current + 1) as usize,
                ..*old(self)
            }),
            old(self).current + 1 >= old(self).history.len() ==> {
                &&& old(self).can_generate() ==> QuizState::generated(old(self), final(self), now_ms)
                &&& !old(self).can_generate() ==> *final(self) == *old(self)
            },
    {
        if self.history.len() == 0 {
            self.gen_question(now_ms);
            return ;
        }
        if self.current + 1 < self.history.len() {
            self.current += 1;
            proof {
                assert forall|i: int| 0 <= i < self.history@.len() implies options_ok(
                    self.words@,
                    #[trigger] self.history@[i],
                ) by {
                    assert(self.history@[i] == old(self).history@[i]);
                }
                lemma_wf_transfer(old(self), self);
            }
        } else {
            self.gen_question(now_ms);
        }
    }

    /// Moves back to the previous question, staying at the first one.
    pub fn prev(&mut self)
        requires
            old(self).wf(),
        ensures
            final(self).wf(),
            *final(self) == (QuizState {
                current: if old(self).current > 0 {
                    (old(self).current - 1) as usize
                } else {
                    0
                },
                ..*old(self)
            }),
    {
        self.current = if self.current > 0 {
            self.current - 1
        } else {
            0
        };
        proof {
            assert forall|i: int| 0 <= i < self.history@.len() implies options_ok(
                self.words@,
                #[trigger] self.history@[i],
            ) by {
                assert(self.history@[i] == old(self).history@[i]);
            }
            lemma_wf_transfer(old(self), self);
        }
    }
}

/// What the quiz screen does about moving on by itself after an answer.
#[derive(Clone, Copy, Debug, PartialEq, Eq, Structural)]
pub enum AdvanceStep {
    /// Leave things as they are.
    Stay,
    /// The session is over: show its end.
    Finish,
    /// Start a timer of this many milliseconds, after which the question at
    /// this position moves on.
    Arm(u64, usize),
    /// Forget a timer set before: the question on screen is no longer the last
    /// one answered.
    Disarm,
}

impl QuizState {
    /// What to do about moving on, with `auto_ms` the delay set (negative:
    /// never) and `armed` whether a timer is running: once the last question
    /// asked is answered, end a finished session, else start a timer unless one
    /// runs or the delay is negative; while it is not, forget any timer.
    pub open spec fn advance_step_for(&self, auto_ms: i64, armed: bool) -> AdvanceStep {
        if self.current >= self.history.len() {
            AdvanceStep::Stay
        } else if self.history@[self.current as int].answered && self.current + 1
            == self.history.len() {
            if !self.more_to_come() {
                AdvanceStep::Finish
            } else if auto_ms < 0 || armed {
                AdvanceStep::Stay
            } else {
                AdvanceStep::Arm(auto_ms as u64, self.current)
            }
        } else {
            AdvanceStep::Disarm
        }
    }

    /// What to do about moving on, as [`QuizState::advance_step_for`] says.
    pub fn advance_step(&self, auto_ms: i64, armed: bool) -> (r: AdvanceStep)
        requires
            self.wf(),
        ensures
            r == self.advance_step_for(auto_ms, armed),
    {
        let q = match self.current_question() {
            Some(q) => q,
            None => {
                return AdvanceStep::Stay;
            },
        };
        if q.answered && self.current + 1 == self.history.len() {
            if !self.has_more() {
                AdvanceStep::Finish
            } else if auto_ms < 0 || armed {
                AdvanceStep::Stay
            } else {
                AdvanceStep::Arm(auto_ms as u64, self.current)
            }
        } else {
            AdvanceStep::Disarm
        }
    }

    /// When a timer set at question `armed_at` runs out: move on as
    /// [`QuizState::next`] does if that question is still on screen, else
    /// change nothing.
    pub fn advance_timer_done(&mut self, armed_at: usize, now_ms: u64)
        requires
            old(self).wf(),
        ensures
            final(self).wf(),
            old(self).current != armed_at ==> *final(self) == *old(self),
            old(self).current == armed_at && old(self).current + 1 < old(self).history.len()
                ==> *final(self) == (QuizState {
                current: (old(self).current + 1) as usize,
                ..*old(self)
            }),
            old(self).current == armed_at && old(self).current + 1 >= old(self).history.len() ==> {
                &&& old(self).can_generate() ==> QuizState::generated(old(self), final(self), now_ms)
                &&& !old(self).can_generate() ==> *final(self) == *old(self)
            },
    {
        if self.current == armed_at {
            self.next(now_ms);
        }
    }
}

/// How an option button is marked: plainly before the answer; after it, the
/// right option as right, a wrongly chosen one as wrong, the others dimmed.
#[derive(Clone, Copy, Debug, PartialEq, Eq, Structural)]
pub enum OptionMark {
    Plain,
    Right,
    Wrong,
    Dimmed,
}

/// How option `idx` of question `h` is marked.
pub open spec fn option_mark_of(h: HistoryItem, idx: usize) -> OptionMark {
    if !h.answered {
        OptionMark::Plain
    } else if idx == h.correct_opt {
        OptionMark::Right
    } else if h.selected_idx == Some(idx) {
        OptionMark::Wrong
    } else {
        OptionMark::Dimmed
    }
}

/// What an option button shows: the option's other side, the side asked for
/// beside it once answered, and its mark.
pub struct OptionView {
    pub display: String,
    pub pair: String,
    pub mark: OptionMark,
}

impl QuizState {
    /// The text of option `idx` of question `h`, and its pair: a word's back
    /// and front when the front is asked, else its front and back.
    pub open spec fn option_text(&self, h: HistoryItem, idx: int) -> (Seq<char>, Seq<char>) {
        let w = self.words@[h.options@[idx] as int];
        if h.ask_front {
            (w.back@, w.front@)
        } else {
            (w.front@, w.back@)
        }
    }

    /// The text asked on screen: the target's front, or its back.
    pub open spec fn question_text_of(&self, h: HistoryItem) -> Seq<char> {
        let w = self.words@[h.target_idx as int];
        if h.ask_front {
            w.front@
        } else {
            w.back@
        }
    }

    /// The text asked by the question on screen, as
    /// [`QuizState::question_text_of`] says; `None` when none is on screen.
    pub fn question_text(&self) -> (r: Option<String>)
        requires
            self.wf(),
        ensures
            self.current >= self.history.len() ==> r is None,
            self.current < self.history.len() ==> (r matches Some(t) && t@ == self.question_text_of(
                self.history@[self.current as int],
            )),
    {
        let q = match self.current_question() {
            Some(q) => q,
            None => {
                return None;
            },
        };
        let w = &self.words[q.target_idx];
        if q.ask_front {
            Some(w.front.clone())
        } else {
            Some(w.back.clone())
        }
    }

    /// The option buttons of the question on screen, in order, as
    /// [`QuizState::option_text`] and [`option_mark_of`] say; none when no
    /// question is on screen.
    pub fn option_views(&self) -> (r: Vec<OptionView>)
        requires
            self.wf(),
        ensures
            self.current >= self.history.len() ==> r@.len() == 0,
            self.current < self.history.len() ==> {
                let h = self.history@[self.current as int];
                &&& r@.len() == h.options@.len()
                &&& forall|i: int|
                    0 <= i < r@.len() ==> ((#[trigger] r@[i]).display@, r@[i].pair@)
                        == self.option_text(h, i) && r@[i].mark == option_mark_of(h, i as usize)
            },
    {
        let mut out: Vec<OptionView> = Vec::new();
        let q = match self.current_question() {
            Some(q) => q,
            None => {
                return out;
            },
        };
        let ghost h = self.history@[self.current as int];
        let mut i: usize = 0;
        while i < q.options.len()
            invariant
                *q == h,
                options_ok(self.words@, h),
                i <= h.options@.len(),
                out@.len() == i,
                forall|k: int|
                    0 <= k < i ==> ((#[trigger] out@[k]).display@, out@[k].pair@) == self.option_text(
                        h,
                        k,
                    ) && out@[k].mark == option_mark_of(h, k as usize),
            decreases h.options@.len() - i,
        {
            let w = &self.words[q.options[i]];
            let (display, pair) = if q.ask_front {
                (w.back.clone(), w.front.clone())
            } else {
                (w.front.clone(), w.back.clone())
            };
            let mark = if !q.answered {
                OptionMark::Plain
            } else if i == q.correct_opt {
                OptionMark::Right
            } else if q.selected_idx == Some(i) {
                OptionMark::Wrong
            } else {
                OptionMark::Dimmed
            };
            out.push(OptionView { display, pair, mark });
            i += 1;
        }
        out
    }
}

/// Milliseconds from `start` to `now`, or 0 when the clock went back.
pub open spec fn elapsed_ms(start: u64, now: u64) -> u64 {
    if now >= start {
        (now - start) as u64
    } else {
        0
    }
}

/// `h` answered with option `opt_idx` after `ms` milliseconds, graded `rating`.
pub open spec fn answered_item(h: HistoryItem, opt_idx: usize, ms: u64, rating: FsrsRating) -> HistoryItem {
    HistoryItem {
        answered: true,
        selected_idx: Some(opt_idx),
        answer_time_ms: Some(ms),
        auto_rating: Some(rating),
        ..h
    }
}

/// `h` skipped after `ms` milliseconds: answered, no choice, graded `Again`.
pub open spec fn skipped_item(h: HistoryItem, ms: u64) -> HistoryItem {
    HistoryItem {
        answered: true,
        skipped: true,
        selected_idx: None,
        answer_time_ms: Some(ms),
        auto_rating: Some(FsrsRating::Again),
        ..h
    }
}


// ───────────────────────── scores ─────────────────────────

/// Whether `h` was answered with a choice (not skipped).
pub open spec fn graded(h: HistoryItem) -> bool {
    h.answered && !h.skipped
}

/// Whether `h` was answered with the right option.
pub open spec fn answered_right(h: HistoryItem) -> bool {
    graded(h) && h.selected_idx == Some(h.correct_opt)
}

/// How many of `hs` were answered with the right option.
pub open spec fn count_right(hs: Seq<HistoryItem>) -> nat
    decreases hs.len(),
{
    if hs.len() == 0 {
        0
    } else {
        count_right(hs.drop_last()) + if answered_right(hs.last()) {
            1nat
        } else {
            0nat
        }
    }
}

/// How many of `hs` were answered with a wrong option.
pub open spec fn count_wrong(hs: Seq<HistoryItem>) -> nat
    decreases hs.len(),
{
    if hs.len() == 0 {
        0
    } else {
        count_wrong(hs.drop_last()) + if graded(hs.last()) && !answered_right(hs.last()) {
            1nat
        } else {
            0nat
        }
    }
}

/// How many of `hs` were answered with a choice.
pub open spec fn count_graded(hs: Seq<HistoryItem>) -> nat
    decreases hs.len(),
{
    if hs.len() == 0 {
        0
    } else {
        count_graded(hs.drop_last()) + if graded(hs.last()) {
            1nat
        } else {
            0nat
        }
    }
}

/// Right and wrong answers together are the answered questions, and never
/// more than the questions asked.
pub proof fn lemma_score_parts(hs: Seq<HistoryItem>)
    ensures
        count_right(hs) + count_wrong(hs) == count_graded(hs),
        count_graded(hs) <= hs.len(),
    decreases hs.len(),
{
    if hs.len() > 0 {
        lemma_score_parts(hs.drop_last());
    }
}

proof fn lemma_count_bounds(hs: Seq<HistoryItem>)
    ensures
        count_right(hs) <= hs.len(),
        count_wrong(hs) <= hs.len(),
    decreases hs.len(),
{
    if hs.len() > 0 {
        lemma_count_bounds(hs.drop_last());
    }
}

impl QuizState {
    /// How many questions were answered with the right option.
    pub fn correct_count(&self) -> (r: usize)
        ensures
            r == count_right(self.history@),
    {
        let mut n: usize = 0;
        let mut i: usize = 0;
        while i < self.history.len()
            invariant
                i <= self.history.len(),
                n == count_right(self.history@.take(i as int)),
            decreases self.history.len() - i,
        {
            proof {
                assert(self.history@.take(i + 1).drop_last() =~= self.history@.take(i as int));
                lemma_count_bounds(self.history@.take(i as int));
            }
            let h = &self.history[i];
            let right = match h.selected_idx {
                Some(s) => h.answered && !h.skipped && s == h.correct_opt,
                None => false,
            };
            if right {
                n += 1;
            }
            i += 1;
        }
        assert(self.history@.take(self.history.len() as int) =~= self.history@);
        n
    }

    /// How many questions were answered with a wrong option.
    pub fn wrong_count(&self) -> (r: usize)
        ensures
            r == count_wrong(self.history@),
    {
        let mut n: usize = 0;
        let mut i: usize = 0;
        while i < self.history.len()
            invariant
                i <= self.history.len(),
                n == count_wrong(self.history@.take(i as int)),
            decreases self.history.len() - i,
        {
            proof {
                assert(self.history@.take(i + 1).drop_last() =~= self.history@.take(i as int));
                lemma_count_bounds(self.history@.take(i as int));
            }
            let h = &self.history[i];
            let right = match h.selected_idx {
                Some(s) => s == h.correct_opt,
                None => false,
            };
            if h.answered && !h.skipped && !right {
                n += 1;
            }
            i += 1;
        }
        assert(self.history@.take(self.history.len() as int) =~= self.history@);
        n
    }

    /// What a key asks for on the quiz screen: Escape pauses; with a question
    /// on screen, `1`–`4` (or `!@#$`) choose an existing option and `0` (or `)`)
    /// skips while it is unanswered, Right or Enter go on once it is answered,
    /// and Left goes back from any but the first question.
    pub open spec fn key_action_for(&self, key: KeyInput) -> KeyAction {
        match key {
            KeyInput::Escape => KeyAction::Pause,
            _ => if self.current >= self.history.len() {
                KeyAction::Nothing
            } else {
                let h = self.history@[self.current as int];
                match key {
                    KeyInput::Character(s) => if !h.answered && s@.len() == 1 {
                        char_action(s@[0], h.options@.len())
                    } else {
                        KeyAction::Nothing
                    },
                    KeyInput::ArrowRight => if h.answered {
                        KeyAction::Next
                    } else {
                        KeyAction::Nothing
                    },
                    KeyInput::Enter => if h.answered {
                        KeyAction::Next
                    } else {
                        KeyAction::Nothing
                    },
                    KeyInput::ArrowLeft => if self.current > 0 {
                        KeyAction::Prev
                    } else {
                        KeyAction::Nothing
                    },
                    _ => KeyAction::Nothing,
                }
            },
        }
    }

    /// What a key asks for on the quiz screen, as [`QuizState::key_action_for`] says.
    pub fn key_action(&self, key: &KeyInput) -> (a: KeyAction)
        ensures
            a == self.key_action_for(*key),
    {
        match key {
            KeyInput::Escape => {
                return KeyAction::Pause;
            },
            _ => {},
        }
        let q = match self.current_question() {
            Some(q) => q,
            None => {
                return KeyAction::Nothing;
            },
        };
        let answered = q.answered;
        let opt_len = q.options.len();
        match key {
            KeyInput::Character(s) => {
                if answered {
                    return KeyAction::Nothing;
                }
                let cs = chars_of(s.as_str());
                if cs.len() != 1 {
                    return KeyAction::Nothing;
                }
                key_char_action(cs[0], opt_len)
            },
            KeyInput::ArrowRight | KeyInput::Enter => {
                if answered {
                    KeyAction::Next
                } else {
                    KeyAction::Nothing
                }
            },
            KeyInput::ArrowLeft => {
                if self.current > 0 {
                    KeyAction::Prev
                } else {
                    KeyAction::Nothing
                }
            },
            _ => KeyAction::Nothing,
        }
    }
}

/// What a typed character asks for on an unanswered question with `opt_len` options.
pub open spec fn char_action(c: char, opt_len: nat) -> KeyAction {
    if (c == '1' || c == '!') && opt_len > 0 {
        KeyAction::Answer(0)
    } else if (c == '2' || c == '@') && opt_len > 1 {
        KeyAction::Answer(1)
    } else if (c == '3' || c == '#') && opt_len > 2 {
        KeyAction::Answer(2)
    } else if (c == '4' || c == '$') && opt_len > 3 {
        KeyAction::Answer(3)
    } else if c == '0' || c == ')' {
        KeyAction::Skip
    } else {
        KeyAction::Nothing
    }
}

fn key_char_action(c: char, opt_len: usize) -> (a: KeyAction)
    ensures
        a == char_action(c, opt_len as nat),
{
    if (c == '1' || c == '!') && opt_len > 0 {
        KeyAction::Answer(0)
    } else if (c == '2' || c == '@') && opt_len > 1 {
        KeyAction::Answer(1)
    } else if (c == '3' || c == '#') && opt_len > 2 {
        KeyAction::Answer(2)
    } else if (c == '4' || c == '$') && opt_len > 3 {
        KeyAction::Answer(3)
    } else if c == '0' || c == ')' {
        KeyAction::Skip
    } else {
        KeyAction::Nothing
    }
}

// ───────────────────────── laws ─────────────────────────

/// The term of a word, by position.
pub open spec fn front_of(words: Seq<Word>) -> spec_fn(usize) -> Seq<char> {
    |i: usize| words[i as int].front@
}

/// The terms of the words that may stand beside word `t` as wrong options.
pub open spec fn other_terms(words: Seq<Word>, t: usize) -> Set<Seq<char>> {
    eligible(words, t).map_values(front_of(words)).to_set()
}

/// A new question has as many options as there are other terms to show, up
/// to three, besides its target: `1 + min(3, |other_terms|)`.
pub proof fn lemma_option_count(old_s: &QuizState, new_s: &QuizState, now_ms: u64)
    requires
        old_s.wf(),
        new_s.wf(),
        QuizState::generated(old_s, new_s, now_ms),
    ensures
        ({
            let h = new_s.history@.last();
            let k = other_terms(old_s.words@, h.target_idx).len();
            h.options@.len() == 1 + (if k < OPT_COUNT - 1 {
                k
            } else {
                (OPT_COUNT - 1) as nat
            })
        }),
{
    let words = old_s.words@;
    let h = new_s.history@.last();
    let o = h.options@;
    let c = h.correct_opt as int;
    let t = h.target_idx;
    assert(new_s.history@.len() > 0);
    assert(options_ok(new_s.words@, h));
    assert(new_s.words@ == words);
    let elig = eligible(words, t);
    let set = other_terms(words, t);
    let w = o.remove(c);
    let fw = w.map_values(front_of(words));
    assert forall|i: int| 0 <= i < w.len() implies #[trigger] w[i] == o[if i < c { i } else { i + 1 }] by {}
    assert(fw.no_duplicates()) by {
        assert forall|a: int, b: int| 0 <= a < fw.len() && 0 <= b < fw.len() && a != b implies fw[a]
            != fw[b] by {
            let ia = if a < c { a } else { a + 1 };
            let ib = if b < c { b } else { b + 1 };
            assert(w[a] == o[ia] && w[b] == o[ib]);
            assert(words[o[ia] as int].front@ != words[o[ib] as int].front@);
        }
    }
    fw.unique_seq_to_set();
    assert(fw.to_set().subset_of(set)) by {
        assert forall|f: Seq<char>| fw.to_set().contains(f) implies set.contains(f) by {
            let a = choose|a: int| 0 <= a < fw.len() && fw[a] == f;
            let ia = if a < c { a } else { a + 1 };
            assert(w[a] == o[ia]);
            assert(ia != c);
            assert(elig.contains(o[ia]));
            let e = choose|e: int| 0 <= e < elig.len() && elig[e] == o[ia];
            assert(elig.map_values(front_of(words))[e] == f);
        }
    }
    elig.map_values(front_of(words)).lemma_cardinality_of_set();
    vstd::set_lib::lemma_len_subset(fw.to_set(), set);
    if o.len() < OPT_COUNT {
        assert(set.subset_of(fw.to_set())) by {
            assert forall|f: Seq<char>| set.contains(f) implies fw.to_set().contains(f) by {
                let m = elig.map_values(front_of(words));
                let e = choose|e: int| 0 <= e < m.len() && m[e] == f;
                let x = elig[e];
                assert(elig.contains(x));
                assert(term_shown(words, o, words[x as int].front@));
                let q = choose|q: int| #![trigger o[q]] 0 <= q < o.len() && words[o[q] as int].front@
                    == words[x as int].front@;
                broadcast use vstd::seq_lib::group_filter_ensures;
                assert(other_term(words, t)(x));
                if q == c {
                    assert(o[q] == t);
                    assert(false);
                }
                let a = if q < c { q } else { q - 1 };
                assert(w[a] == o[q]);
                assert(fw[a] == f);
            }
        }
        vstd::set_lib::lemma_len_subset(set, fw.to_set());
    }
}

/// In every sound question the target stands among the options exactly once,
/// at `correct_opt`.
pub proof fn lemma_target_once(words: Seq<Word>, h: HistoryItem, j: int)
    requires
        options_ok(words, h),
        0 <= j < h.options@.len(),
    ensures
        (h.options@[j] == h.target_idx) == (j == h.correct_opt),
{
}

/// When a new round starts in an endless session of more than one word, the
/// word drawn is never the one just asked.
pub proof fn lemma_no_immediate_repeat(p: Seq<usize>, history: Seq<HistoryItem>, n: nat)
    requires
        is_perm_of_range(p, n),
        1 < n <= usize::MAX,
        history.len() > 0,
    ensures
        draw_from(p, history, n).0 != history.last().target_idx,
{
    lemma_perm_range(p, n);
    let last = (p.len() - 1) as int;
    assert(p[last - 1] != p[last]);
}

/// A finished session stays finished: no later question is waiting, and no
/// new one can be asked, so `next` changes nothing.
pub proof fn lemma_finished_stays(q: QuizState)
    requires
        q.wf(),
        !q.more_to_come(),
    ensures
        q.current + 1 >= q.history.len(),
        !q.can_generate(),
{
}

/// The words asked so far, in order.
pub open spec fn targets(history: Seq<HistoryItem>) -> Seq<usize> {
    history.map_values(|h: HistoryItem| h.target_idx)
}

/// After `k` questions asked in a row from a session whose round order is `p`
/// and whose queue is empty: the queue is still empty, the last `k` words of
/// `p` were asked, last first, and the others are left.
proof fn lemma_round_prefix(states: Seq<QuizState>, times: Seq<u64>, p: Seq<usize>, n: nat, k: nat)
    requires
        states.len() == n + 1,
        times.len() == n,
        p.len() == n,
        k <= n,
        states[0].pending() == p,
        states[0].history@.len() == 0,
        states[0].review@.len() == 0,
        forall|i: int|
            0 <= i < n ==> QuizState::generated(&#[trigger] states[i], &states[i + 1], times[i]),
    ensures
        states[k as int].pending() == p.take(n - k),
        states[k as int].review@.len() == 0,
        states[k as int].infinite == states[0].infinite,
        targets(states[k as int].history@) == p.skip(n - k).reverse(),
    decreases k,
{
    if k == 0 {
        assert(p.take(n as int) =~= p);
        assert(targets(states[0].history@) =~= p.skip(n as int).reverse());
    } else {
        lemma_round_prefix(states, times, p, n, (k - 1) as nat);
        let i = k - 1;
        let a = states[i as int];
        let b = states[k as int];
        assert(QuizState::generated(&a, &b, times[i as int]));
        let h = b.history@.last();
        assert(b.history@ =~= a.history@.push(h));
        assert(first_due(a.review@, a.history.len() as nat) is None);
        assert(a.pending().len() > 0);
        assert(h.target_idx == p[n - k]);
        assert(b.pending() =~= p.take(n - k));
        assert(targets(b.history@) =~= targets(a.history@).push(h.target_idx));
        assert(p.skip(n - k).reverse() =~= p.skip(n - k + 1).reverse().push(p[n - k]));
    }
}

/// A round asks each word once: starting from a session whose round holds
/// every one of its `n` words once (as a new session's does) and whose queue
/// is empty, asking `n` questions in a row asks every word exactly once; in a
/// session that is not endless, no question can then be asked
/// ([`QuizState::gen_question`] returns `false` and changes nothing).
pub proof fn lemma_round_asks_each_word_once(states: Seq<QuizState>, times: Seq<u64>, n: nat)
    requires
        states.len() == n + 1,
        times.len() == n,
        n <= usize::MAX,
        is_perm_of_range(states[0].pending(), n),
        states[0].history@.len() == 0,
        states[0].review@.len() == 0,
        forall|i: int|
            0 <= i < n ==> QuizState::generated(&#[trigger] states[i], &states[i + 1], times[i]),
    ensures
        is_perm_of_range(targets(states[n as int].history@), n),
        !states[0].infinite ==> !states[n as int].can_generate(),
{
    let p = states[0].pending();
    lemma_perm_range(p, n);
    lemma_round_prefix(states, times, p, n, n);
    assert(p.skip(0) =~= p);
    assert(first_due(states[n as int].review@, states[n as int].history.len() as nat) is None);
    p.lemma_reverse_to_multiset();
}

/// Going back and then forward again returns to the same question, from any
/// question but the first.
pub proof fn lemma_prev_then_next(q: QuizState)
    requires
        q.wf(),
        q.current > 0,
    ensures
        ({
            let p = QuizState { current: (q.current - 1) as usize, ..q };
            &&& p.current + 1 < p.history.len()
            &&& (QuizState { current: (p.current + 1) as usize, ..p }) == q
        }),
{
}

/// A due review comes before the words of the round: when some queued word is
/// due (as many questions have been asked as it waits for), the new question
/// asks the word of the first such entry, that entry leaves the queue, and the
/// words still pending in the round stay as they were.
pub proof fn lemma_due_review_first(old_s: &QuizState, new_s: &QuizState, now_ms: u64, k: int)
    requires
        QuizState::generated(old_s, new_s, now_ms),
        0 <= k < old_s.review@.len(),
        old_s.history.len() >= old_s.review@[k].due_after,
        forall|j: int| 0 <= j < k ==> old_s.history.len() < #[trigger] old_s.review@[j].due_after,
    ensures
        new_s.history@.last().target_idx == old_s.review@[k].word_idx,
        new_s.review@ == old_s.review@.remove(k),
        new_s.pending() == old_s.pending(),
{
    lemma_first_due_at(old_s.review@, old_s.history.len() as nat, k);
}

/// With FSRS on and wrong answers reviewed, a wrong answer to an open
/// question asks the scheduler to grade the target word `Again`, from the
/// memory of its card (none for a card never reviewed), and leaves the review
/// queue to what the scheduler computes: no random review is queued.
pub proof fn lemma_wrong_answer_goes_to_scheduler(
    old_s: &QuizState,
    new_s: &QuizState,
    opt_idx: usize,
    now_ms: u64,
    req: Option<FsrsRequest>,
)
    requires
        old_s.can_answer(opt_idx),
        QuizState::answered(old_s, new_s, opt_idx, now_ms, req),
        opt_idx != old_s.history@[old_s.current as int].correct_opt,
        old_s.fsrs_config.enabled,
        old_s.fsrs_config.review_wrong,
    ensures
        ({
            let w = old_s.history@[old_s.current as int].target_idx;
            let card = old_s.fsrs_cards@[w as int];
            req == Some(
                FsrsRequest {
                    word_idx: w,
                    rating: FsrsRating::Again,
                    memory: if card.state == CardState::New {
                        None
                    } else {
                        Some(card.memory)
                    },
                },
            )
        }),
        new_s.review@ == old_s.review@,
        new_s.history@[old_s.current as int].auto_rating == Some(FsrsRating::Again),
{
}

/// Recording the scheduler's result for a word with interval `interval_tenths`
/// leaves that word in the queue exactly once, due `REVIEW_LO` plus
/// `interval_tenths` questions after the last one asked, whatever its time
/// was before (sooner or later); every other queued word keeps its entry.
pub proof fn lemma_fsrs_result_sets_due(
    old_s: &QuizState,
    new_s: &QuizState,
    request: FsrsRequest,
    memory: MemoryBits,
    interval_tenths: usize,
)
    requires
        old_s.wf(),
        request.word_idx < old_s.words.len(),
        old_s.review_base() + REVIEW_LO + interval_tenths <= usize::MAX,
        QuizState::fsrs_applied(old_s, new_s, request, memory, interval_tenths),
    ensures
        exists|i: int|
            0 <= i < new_s.review@.len() && #[trigger] new_s.review@[i] == (ReviewItem {
                word_idx: request.word_idx,
                due_after: (old_s.review_base() + REVIEW_LO + interval_tenths) as usize,
            }),
        forall|i: int|
            0 <= i < new_s.review@.len() && #[trigger] new_s.review@[i].word_idx
                == request.word_idx ==> new_s.review@[i].due_after == old_s.review_base()
                + REVIEW_LO + interval_tenths,
        forall|i: int|
            0 <= i < old_s.review@.len() && #[trigger] old_s.review@[i].word_idx
                != request.word_idx ==> new_s.review@[i] == old_s.review@[i],
{
    let w = request.word_idx;
    let due = (old_s.review_base() + REVIEW_LO + interval_tenths) as usize;
    lemma_queue_index_props(old_s.review@, w);
    lemma_queue_set_ok(old_s.review@, old_s.words.len() as nat, w, due);
    let q = new_s.review@;
    let i0: int = match queue_index(old_s.review@, w) {
        Some(k) => k,
        None => old_s.review@.len() as int,
    };
    assert(q[i0] == (ReviewItem { word_idx: w, due_after: due }));
    assert forall|i: int| 0 <= i < q.len() && #[trigger] q[i].word_idx == w implies q[i].due_after
        == due by {
        if i != i0 {
            assert(q[i].word_idx != q[i0].word_idx);
        }
    }
}

/// A wrong answer with FSRS on and wrong answers reviewed, once the
/// scheduler's result for the request it returns is recorded, leaves the
/// target word's card relearning with one lapse more, and the word due
/// `REVIEW_LO` plus the scheduler's interval questions after the last one asked.
pub proof fn lemma_wrong_answer_records_lapse(
    s0: &QuizState,
    s1: &QuizState,
    s2: &QuizState,
    opt_idx: usize,
    now_ms: u64,
    req: Option<FsrsRequest>,
    memory: MemoryBits,
    interval_tenths: usize,
)
    requires
        s0.wf(),
        s0.can_answer(opt_idx),
        QuizState::answered(s0, s1, opt_idx, now_ms, req),
        opt_idx != s0.history@[s0.current as int].correct_opt,
        s0.fsrs_config.enabled,
        s0.fsrs_config.review_wrong,
        s0.fsrs_cards@[s0.history@[s0.current as int].target_idx as int].lapses < u32::MAX,
        req is Some,
        QuizState::fsrs_applied(s1, s2, req->0, memory, interval_tenths),
    ensures
        ({
            let w = s0.history@[s0.current as int].target_idx;
            &&& s2.fsrs_cards@[w as int].state == CardState::Relearning
            &&& s2.fsrs_cards@[w as int].lapses == s0.fsrs_cards@[w as int].lapses + 1
            &&& s2.fsrs_cards@[w as int].memory == memory
            &&& exists|i: int|
                0 <= i < s2.review@.len() && #[trigger] s2.review@[i] == (ReviewItem {
                    word_idx: w,
                    due_after: (s1.review_base() + REVIEW_LO + interval_tenths) as usize,
                })
        }),
{
    let w = s0.history@[s0.current as int].target_idx;
    assert(options_ok(s0.words@, s0.history@[s0.current as int]));
    lemma_queue_index_props(s1.review@, w);
    let due = (s1.review_base() + REVIEW_LO + interval_tenths) as usize;
    let i0: int = match queue_index(s1.review@, w) {
        Some(k) => k,
        None => s1.review@.len() as int,
    };
    assert(s2.review@[i0] == (ReviewItem { word_idx: w, due_after: due }));
}

} // verus!
