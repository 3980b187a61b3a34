//! The words picked for an exam: which word ids are selected, what choosing a
//! word or a whole deck does to the selection, and the words an exam is made of.
use std::collections::HashSet;
use vstd::prelude::*;

use crate::model::Word;

verus! {

broadcast use vstd::std_specs::hash::group_hash_axioms, vstd::seq_lib::group_seq_properties;

/// Whether every id of `ids` is selected.
pub open spec fn all_selected(sel: Set<i64>, ids: Seq<i64>) -> bool {
    forall|i: int| 0 <= i < ids.len() ==> sel.contains(#[trigger] ids[i])
}

/// Whether some id of `ids` is selected.
pub open spec fn any_selected(sel: Set<i64>, ids: Seq<i64>) -> bool {
    exists|i: int| 0 <= i < ids.len() && sel.contains(#[trigger] ids[i])
}

/// What choosing a whole deck does: when all its words are selected they are
/// all unselected, else they are all selected.
pub open spec fn toggled_deck(sel: Set<i64>, ids: Seq<i64>) -> Set<i64> {
    if all_selected(sel, ids) {
        sel.difference(ids.to_set())
    } else {
        sel.union(ids.to_set())
    }
}

/// What choosing one word does: it leaves the selection if it was in it, and
/// joins it otherwise.
pub open spec fn toggled_word(sel: Set<i64>, id: i64) -> Set<i64> {
    if sel.contains(id) {
        sel.remove(id)
    } else {
        sel.insert(id)
    }
}

/// Whether every id of `ids` is selected, as [`all_selected`] says.
pub fn every_selected(selected: &HashSet<i64>, ids: &Vec<i64>) -> (r: bool)
    ensures
        r == all_selected(selected@, ids@),
{
    let mut i: usize = 0;
    while i < ids.len()
        invariant
            i <= ids.len(),
            all_selected(selected@, ids@.take(i as int)),
        decreases ids.len() - i,
    {
        if !selected.contains(&ids[i]) {
            assert(!selected@.contains(ids@[i as int]));
            return false;
        }
        assert(ids@.take(i + 1)[i as int] == ids@[i as int]);
        i += 1;
    }
    assert(ids@.take(i as int) =~= ids@);
    true
}

/// Whether some id of `ids` is selected, as [`any_selected`] says.
pub fn some_selected(selected: &HashSet<i64>, ids: &Vec<i64>) -> (r: bool)
    ensures
        r == any_selected(selected@, ids@),
{
    let mut i: usize = 0;
    while i < ids.len()
        invariant
            i <= ids.len(),
            forall|j: int| 0 <= j < i ==> !selected@.contains(#[trigger] ids@[j]),
        decreases ids.len() - i,
    {
        if selected.contains(&ids[i]) {
            return true;
        }
        i += 1;
    }
    false
}

/// Chooses a whole deck, as [`toggled_deck`] says.
pub fn toggle_deck(selected: &mut HashSet<i64>, ids: &Vec<i64>)
    ensures
        final(selected)@ == toggled_deck(old(selected)@, ids@),
{
    let all = every_selected(selected, ids);
    let ghost start = selected@;
    let mut i: usize = 0;
    while i < ids.len()
        invariant
            i <= ids.len(),
            all == all_selected(start, ids@),
            selected@ == (if all {
                start.difference(ids@.take(i as int).to_set())
            } else {
                start.union(ids@.take(i as int).to_set())
            }),
        decreases ids.len() - i,
    {
        let ghost before = selected@;
        assert(ids@.take(i + 1) =~= ids@.take(i as int).push(ids@[i as int]));
        if all {
            selected.remove(&ids[i]);
            assert(selected@ =~= start.difference(ids@.take(i + 1).to_set()));
        } else {
            selected.insert(ids[i]);
            assert(selected@ =~= start.union(ids@.take(i + 1).to_set()));
        }
        i += 1;
    }
    assert(ids@.take(i as int) =~= ids@);
}

/// Chooses one word, as [`toggled_word`] says.
pub fn toggle_word(selected: &mut HashSet<i64>, id: i64)
    ensures
        final(selected)@ == toggled_word(old(selected)@, id),
{
    if selected.contains(&id) {
        selected.remove(&id);
        assert(selected@ =~= old(selected)@.remove(id));
    } else {
        selected.insert(id);
    }
}

/// The selection of every id of `ids`.
pub fn select_all(ids: &Vec<i64>) -> (s: HashSet<i64>)
    ensures
        s@ == ids@.to_set(),
{
    let mut s: HashSet<i64> = HashSet::new();
    let mut i: usize = 0;
    while i < ids.len()
        invariant
            i <= ids.len(),
            s@ == ids@.take(i as int).to_set(),
        decreases ids.len() - i,
    {
        assert(ids@.take(i + 1) =~= ids@.take(i as int).push(ids@[i as int]));
        s.insert(ids[i]);
        assert(s@ =~= ids@.take(i + 1).to_set());
        i += 1;
    }
    assert(ids@.take(i as int) =~= ids@);
    s
}

/// How a deck's box is drawn: ticked when all its words are selected, half
/// ticked when some are, empty otherwise (and for a deck with no words loaded).
#[derive(Clone, Copy, Debug, PartialEq, Eq, Structural)]
pub enum CheckMark {
    Empty,
    Partial,
    Full,
}

/// How the box of a deck with the word ids `ids` is drawn.
pub open spec fn check_mark_of(sel: Set<i64>, ids: Seq<i64>) -> CheckMark {
    if ids.len() == 0 {
        CheckMark::Empty
    } else if all_selected(sel, ids) {
        CheckMark::Full
    } else if any_selected(sel, ids) {
        CheckMark::Partial
    } else {
        CheckMark::Empty
    }
}

/// How a deck's box is drawn, as [`check_mark_of`] says.
pub fn check_mark(selected: &HashSet<i64>, ids: &Vec<i64>) -> (m: CheckMark)
    ensures
        m == check_mark_of(selected@, ids@),
{
    if ids.len() == 0 {
        CheckMark::Empty
    } else if every_selected(selected, ids) {
        CheckMark::Full
    } else if some_selected(selected, ids) {
        CheckMark::Partial
    } else {
        CheckMark::Empty
    }
}

/// Choosing a word twice leaves the selection as it was.
pub proof fn lemma_toggle_word_twice(sel: Set<i64>, id: i64)
    ensures
        toggled_word(toggled_word(sel, id), id) == sel,
{
    assert(toggled_word(toggled_word(sel, id), id) =~= sel);
}

/// Choosing a whole deck twice leaves the selection as it was, when the deck
/// was chosen wholly or not at all before (a deck chosen in part ends up
/// unselected).
pub proof fn lemma_toggle_deck_twice(sel: Set<i64>, ids: Seq<i64>)
    requires
        all_selected(sel, ids) || !any_selected(sel, ids),
    ensures
        toggled_deck(toggled_deck(sel, ids), ids) == sel,
{
    let once = toggled_deck(sel, ids);
    if all_selected(sel, ids) {
        if ids.len() > 0 {
            assert(ids.to_set().contains(ids[0]));
            assert(!once.contains(ids[0]));
            assert(!all_selected(once, ids));
        } else {
            assert(ids.to_set() =~= Set::<i64>::empty());
        }
        assert(toggled_deck(once, ids) =~= sel);
    } else {
        assert forall|i: int| 0 <= i < ids.len() implies once.contains(#[trigger] ids[i]) by {
            assert(ids.to_set().contains(ids[i]));
        }
        assert(all_selected(once, ids));
        assert forall|x: i64| ids.to_set().contains(x) implies !sel.contains(x) by {
            let i = choose|i: int| 0 <= i < ids.len() && ids[i] == x;
        }
        assert(toggled_deck(once, ids) =~= sel);
    }
}

/// A deck chosen in part ends up wholly selected.
pub proof fn lemma_toggle_partial_selects_all(sel: Set<i64>, ids: Seq<i64>)
    requires
        any_selected(sel, ids),
        !all_selected(sel, ids),
    ensures
        all_selected(toggled_deck(sel, ids), ids),
{
    assert forall|i: int| 0 <= i < ids.len() implies toggled_deck(sel, ids).contains(
        #[trigger] ids[i],
    ) by {
        assert(ids.to_set().contains(ids[i]));
    }
}

// ───────────────────────── the exam's words ─────────────────────────

/// The selected words of one deck's `(id, word)` list, as front and back, in order.
pub open spec fn picked_in(ws: Seq<(i64, Word)>, sel: Set<i64>) -> Seq<(Seq<char>, Seq<char>)>
    decreases ws.len(),
{
    if ws.len() == 0 {
        seq![]
    } else {
        let rest = picked_in(ws.drop_last(), sel);
        if sel.contains(ws.last().0) {
            rest.push(ws.last().1.pair())
        } else {
            rest
        }
    }
}

/// The selected words of several decks, deck after deck.
pub open spec fn picked(decks: Seq<Vec<(i64, Word)>>, sel: Set<i64>) -> Seq<(Seq<char>, Seq<char>)>
    decreases decks.len(),
{
    if decks.len() == 0 {
        seq![]
    } else {
        picked(decks.drop_last(), sel) + picked_in(decks.last()@, sel)
    }
}

/// Whether some word of a deck's list is selected.
pub open spec fn deck_has_pick(ws: Seq<(i64, Word)>, sel: Set<i64>) -> bool {
    exists|i: int| 0 <= i < ws.len() && sel.contains(#[trigger] ws[i].0)
}

/// A copy of a word.
pub fn copy_word(w: &Word) -> (c: Word)
    ensures
        c.pair() == w.pair(),
{
    Word { front: w.front.clone(), back: w.back.clone() }
}

/// The words an exam is made of: the selected words, deck after deck, each
/// deck's in order; and the positions of the decks that gave at least one.
pub fn exam_words(decks: &Vec<Vec<(i64, Word)>>, selected: &HashSet<i64>) -> (r: (
    Vec<Word>,
    Vec<usize>,
))
    ensures
        crate::model::word_pairs(r.0@) == picked(decks@, selected@),
        forall|k: int| 0 <= k < r.1@.len() ==> (#[trigger] r.1@[k]) < decks@.len(),
        forall|k: int, l: int| 0 <= k < l < r.1@.len() ==> (#[trigger] r.1@[k]) < (#[trigger] r.1@[l]),
        forall|j: int|
            0 <= j < decks@.len() ==> (deck_has_pick(#[trigger] decks@[j]@, selected@) <==> r.1@.contains(
                j as usize,
            )),
{
    let mut words: Vec<Word> = Vec::new();
    let mut used: Vec<usize> = Vec::new();
    let mut d: usize = 0;
    while d < decks.len()
        invariant
            d <= decks.len(),
            crate::model::word_pairs(words@) == picked(decks@.take(d as int), selected@),
            forall|k: int| 0 <= k < used@.len() ==> (#[trigger] used@[k]) < d,
            forall|k: int, l: int| 0 <= k < l < used@.len() ==> (#[trigger] used@[k]) < (#[trigger] used@[l]),
            forall|j: int|
                0 <= j < d ==> (deck_has_pick(#[trigger] decks@[j]@, selected@) <==> used@.contains(
                    j as usize,
                )),
        decreases decks.len() - d,
    {
        let ws = &decks[d];
        let ghost base = words@;
        let mut added = false;
        let mut i: usize = 0;
        while i < ws.len()
            invariant
                i <= ws.len(),
                d < decks.len(),
                ws == &decks@[d as int],
                crate::model::word_pairs(words@) == crate::model::word_pairs(base) + picked_in(
                    ws@.take(i as int),
                    selected@,
                ),
                added == deck_has_pick(ws@.take(i as int), selected@),
            decreases ws.len() - i,
        {
            let ghost prev = words@;
            assert(ws@.take(i + 1).drop_last() =~= ws@.take(i as int));
            if selected.contains(&ws[i].0) {
                words.push(copy_word(&ws[i].1));
                assert(crate::model::word_pairs(words@) =~= crate::model::word_pairs(prev).push(
                    ws@[i as int].1.pair(),
                ));
                assert(ws@.take(i + 1)[i as int] == ws@[i as int]);
                added = true;
            } else {
                assert forall|t: int| 0 <= t < i + 1 && selected@.contains(
                    #[trigger] ws@.take(i + 1)[t].0,
                ) implies t < i by {}
            }
            assert(deck_has_pick(ws@.take(i + 1), selected@) == (added || selected@.contains(
                ws@[i as int].0,
            ))) by {
                if deck_has_pick(ws@.take(i as int), selected@) {
                    let t = choose|t: int|
                        0 <= t < i && selected@.contains(#[trigger] ws@.take(i as int)[t].0);
                    assert(ws@.take(i + 1)[t] == ws@.take(i as int)[t]);
                }
                if deck_has_pick(ws@.take(i + 1), selected@) {
                    let t = choose|t: int|
                        0 <= t < i + 1 && selected@.contains(#[trigger] ws@.take(i + 1)[t].0);
                    if t < i {
                        assert(ws@.take(i as int)[t] == ws@.take(i + 1)[t]);
                    }
                }
            }
            i += 1;
        }
        assert(ws@.take(i as int) =~= ws@);
        proof {
            assert(decks@.take(d + 1).drop_last() =~= decks@.take(d as int));
            assert(decks@.take(d + 1).last() == decks@[d as int]);
        }
        if added {
            used.push(d);
        }
        proof {
            assert forall|j: int| 0 <= j < d + 1 implies (deck_has_pick(
                #[trigger] decks@[j]@,
                selected@,
            ) <==> used@.contains(j as usize)) by {
                if j < d {
                    if used@.contains(j as usize) {
                        let k = choose|k: int| 0 <= k < used@.len() && used@[k] == j as usize;
                    }
                } else {
                    if used@.contains(j as usize) {
                        let k = choose|k: int| 0 <= k < used@.len() && used@[k] == j as usize;
                    }
                }
            }
        }
        d += 1;
    }
    assert(decks@.take(d as int) =~= decks@);
    (words, used)
}

} // verus!
