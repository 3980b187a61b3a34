use scallion_vocab::arrange::{
    arrange_items, compare_text, decks_only, exam_groups, search_groups, sort_field_of, sort_items,
    Order, SortField,
};
use scallion_vocab::library::Deck;

fn item(id: i64, name: &str, count: i64, date: &str, folder: bool, parent: Option<i64>) -> Deck {
    Deck {
        id,
        name: name.to_string(),
        color: String::new(),
        word_count: count,
        is_folder: folder,
        parent_id: parent,
        updated_at: date.to_string(),
    }
}

fn ids(v: &[Deck]) -> Vec<i64> {
    v.iter().map(|d| d.id).collect()
}

#[test]
fn sort_keys() {
    assert_eq!(sort_field_of("name"), SortField::Name);
    assert_eq!(sort_field_of("count"), SortField::Count);
    assert_eq!(sort_field_of("date"), SortField::Date);
    assert_eq!(sort_field_of("anything"), SortField::Date);
}

#[test]
fn text_order_is_that_of_str() {
    let texts = ["", "a", "ab", "b", "B", "é", "中文", "中", "z", "apple", "apples"];
    for a in texts {
        for b in texts {
            let expect = match a.cmp(b) {
                std::cmp::Ordering::Less => Order::Less,
                std::cmp::Ordering::Equal => Order::Equal,
                std::cmp::Ordering::Greater => Order::Greater,
            };
            assert_eq!(compare_text(a, b), expect, "{a} {b}");
        }
    }
}

#[test]
fn sorting_by_name_is_stable() {
    let v = vec![
        item(1, "b", 0, "", false, None),
        item(2, "a", 0, "", false, None),
        item(3, "b", 0, "", false, None),
        item(4, "a", 0, "", false, None),
    ];
    assert_eq!(ids(&sort_items(v.clone(), SortField::Name, true)), vec![2, 4, 1, 3]);
    assert_eq!(ids(&sort_items(v, SortField::Name, false)), vec![1, 3, 2, 4]);
}

#[test]
fn sorting_by_count_and_date() {
    let v = vec![
        item(1, "x", 5, "2024-01-02 00:00", false, None),
        item(2, "y", 1, "2024-01-01 00:00", false, None),
        item(3, "z", 5, "2024-01-01 00:00", false, None),
    ];
    assert_eq!(ids(&sort_items(v.clone(), SortField::Count, true)), vec![2, 1, 3]);
    assert_eq!(ids(&sort_items(v.clone(), SortField::Count, false)), vec![1, 3, 2]);
    assert_eq!(ids(&sort_items(v.clone(), SortField::Date, true)), vec![2, 3, 1]);
    assert_eq!(ids(&sort_items(v, SortField::Date, false)), vec![1, 3, 2]);
}

#[test]
fn sorting_matches_std_stable_sort() {
    let names = ["pear", "apple", "Fig", "apple", "fig", "kiwi", "pear", "banana"];
    let v: Vec<Deck> = names
        .iter()
        .enumerate()
        .map(|(i, n)| item(i as i64, n, (i % 3) as i64, if i % 2 == 0 { "2024" } else { "2023" }, false, None))
        .collect();
    for asc in [true, false] {
        let mut expect = v.clone();
        expect.sort_by(|a, b| {
            let o = a.name.cmp(&b.name);
            if asc { o } else { o.reverse() }
        });
        assert_eq!(ids(&sort_items(v.clone(), SortField::Name, asc)), ids(&expect));
        let mut expect = v.clone();
        expect.sort_by(|a, b| {
            let o = a.updated_at.cmp(&b.updated_at).then_with(|| a.id.cmp(&b.id));
            if asc { o } else { o.reverse() }
        });
        assert_eq!(ids(&sort_items(v.clone(), SortField::Date, asc)), ids(&expect));
    }
}

#[test]
fn folders_first_or_last() {
    let v = vec![
        item(1, "d2", 0, "", false, None),
        item(2, "f2", 0, "", true, None),
        item(3, "d1", 0, "", false, None),
        item(4, "f1", 0, "", true, None),
    ];
    assert_eq!(ids(&arrange_items(v.clone(), SortField::Name, true, true)), vec![4, 2, 3, 1]);
    assert_eq!(ids(&arrange_items(v.clone(), SortField::Name, true, false)), vec![3, 1, 4, 2]);
    assert_eq!(ids(&arrange_items(v, SortField::Name, false, true)), vec![2, 4, 1, 3]);
    assert!(arrange_items(Vec::new(), SortField::Date, true, true).is_empty());
}

#[test]
fn search_results_grouped_by_folder() {
    let v = vec![
        item(1, "zeta", 0, "", false, Some(7)),
        item(2, "beta", 0, "", false, None),
        item(3, "alpha", 0, "", false, Some(9)),
        item(4, "gamma", 0, "", false, Some(7)),
        item(5, "delta", 0, "", true, Some(9)),
    ];
    let gs = search_groups(v, SortField::Name, true);
    let shape: Vec<(Option<i64>, Vec<i64>)> = gs.iter().map(|g| (g.parent_id, ids(&g.decks))).collect();
    assert_eq!(shape, vec![(None, vec![2]), (Some(9), vec![3, 5]), (Some(7), vec![4, 1])]);
}

#[test]
fn search_groups_descending() {
    let v = vec![
        item(1, "a", 0, "", false, Some(7)),
        item(2, "c", 0, "", false, Some(8)),
        item(3, "b", 0, "", false, Some(7)),
    ];
    let gs = search_groups(v, SortField::Name, false);
    let shape: Vec<(Option<i64>, Vec<i64>)> = gs.iter().map(|g| (g.parent_id, ids(&g.decks))).collect();
    assert_eq!(shape, vec![(Some(8), vec![2]), (Some(7), vec![3, 1])]);
    assert!(search_groups(Vec::new(), SortField::Name, true).is_empty());
}

#[test]
fn exam_groups_leave_out_folders() {
    let v = vec![
        item(1, "zeta", 0, "", false, Some(7)),
        item(2, "beta", 0, "", false, None),
        item(3, "Folder", 0, "", true, None),
        item(4, "alpha", 0, "", false, Some(3)),
        item(5, "eta", 0, "", false, Some(7)),
    ];
    assert_eq!(ids(&decks_only(v.clone())), vec![1, 2, 4, 5]);
    let gs = exam_groups(v);
    let shape: Vec<(Option<i64>, Vec<i64>)> = gs.iter().map(|g| (g.parent_id, ids(&g.decks))).collect();
    assert_eq!(shape, vec![(None, vec![2]), (Some(3), vec![4]), (Some(7), vec![5, 1])]);
}
