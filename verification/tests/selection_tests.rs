use std::collections::HashSet;

use scallion_vocab::model::Word;
use scallion_vocab::selection::{
    check_mark, every_selected, exam_words, select_all, some_selected, toggle_deck, toggle_word,
    CheckMark,
};

fn set(v: &[i64]) -> HashSet<i64> {
    v.iter().copied().collect()
}

fn w(f: &str, b: &str) -> Word {
    Word { front: f.to_string(), back: b.to_string() }
}

#[test]
fn choosing_a_deck_selects_or_clears_it() {
    let mut s = set(&[1, 9]);
    toggle_deck(&mut s, &vec![1, 2, 3]);
    assert_eq!(s, set(&[1, 2, 3, 9]));
    toggle_deck(&mut s, &vec![1, 2, 3]);
    assert_eq!(s, set(&[9]));
    toggle_deck(&mut s, &vec![]);
    assert_eq!(s, set(&[9]));
}

#[test]
fn choosing_a_word_flips_it() {
    let mut s = set(&[]);
    toggle_word(&mut s, 4);
    assert_eq!(s, set(&[4]));
    toggle_word(&mut s, 4);
    assert!(s.is_empty());
}

#[test]
fn select_all_and_tests() {
    let s = select_all(&vec![3, 1, 3]);
    assert_eq!(s, set(&[1, 3]));
    assert!(every_selected(&s, &vec![1, 3]));
    assert!(!every_selected(&s, &vec![1, 2]));
    assert!(every_selected(&s, &vec![]));
    assert!(some_selected(&s, &vec![2, 3]));
    assert!(!some_selected(&s, &vec![2, 4]));
}

#[test]
fn deck_boxes() {
    let s = set(&[1, 2]);
    assert_eq!(check_mark(&s, &vec![]), CheckMark::Empty);
    assert_eq!(check_mark(&s, &vec![1, 2]), CheckMark::Full);
    assert_eq!(check_mark(&s, &vec![1, 5]), CheckMark::Partial);
    assert_eq!(check_mark(&s, &vec![5, 6]), CheckMark::Empty);
}

#[test]
fn exam_takes_the_selected_words_in_order() {
    let decks = vec![
        vec![(1, w("a", "甲")), (2, w("b", "乙"))],
        vec![(3, w("c", "丙"))],
        vec![(4, w("d", "丁")), (5, w("e", "戊"))],
    ];
    let (words, used) = exam_words(&decks, &set(&[5, 1, 4]));
    let got: Vec<(String, String)> = words.iter().map(|x| (x.front.clone(), x.back.clone())).collect();
    assert_eq!(
        got,
        vec![("a".into(), "甲".into()), ("d".into(), "丁".into()), ("e".into(), "戊".into())]
    );
    assert_eq!(used, vec![0, 2]);
    let (none, unused) = exam_words(&decks, &set(&[]));
    assert!(none.is_empty() && unused.is_empty());
}

#[test]
fn choosing_twice_restores_the_selection() {
    let start = set(&[1, 2, 7]);
    let mut s = start.clone();
    toggle_word(&mut s, 7);
    toggle_word(&mut s, 7);
    assert_eq!(s, start);
    for ids in [vec![1, 2], vec![3, 4], vec![]] {
        let mut s = start.clone();
        toggle_deck(&mut s, &ids);
        toggle_deck(&mut s, &ids);
        assert_eq!(s, start);
    }
    // a deck chosen in part is first selected wholly, then cleared
    let mut s = start.clone();
    toggle_deck(&mut s, &vec![2, 3]);
    assert_eq!(s, set(&[1, 2, 3, 7]));
    toggle_deck(&mut s, &vec![2, 3]);
    assert_eq!(s, set(&[1, 7]));
}
