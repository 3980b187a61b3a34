use scallion_vocab::library::{
    back_from, deck_color, deck_from_row, entry_name, folder_chain_ends, group_label, import_target, shown_date,
    tags_json, word_entry, Deck, FolderEntry, ImportTarget,
};

fn deck(id: i64, name: &str) -> Deck {
    Deck {
        id,
        name: name.to_string(),
        color: "#006c45".to_string(),
        word_count: 0,
        is_folder: true,
        parent_id: None,
        updated_at: "2024-01-01 10:00".to_string(),
    }
}

fn folder(id: i64, name: &str, parent: Option<i64>) -> FolderEntry {
    FolderEntry { id, name: name.to_string(), parent_id: parent }
}

#[test]
fn deck_colours_cycle() {
    assert_eq!(deck_color(0), "#006c45");
    assert_eq!(deck_color(1), "#008757");
    assert_eq!(deck_color(7), "#003920");
    assert_eq!(deck_color(8), "#006c45");
    assert_eq!(deck_color(13), "#a0f2ad");
}

#[test]
fn dates_are_cut_to_minutes() {
    assert_eq!(shown_date("2024-05-06 07:08:09"), "2024-05-06 07:08");
    assert_eq!(shown_date("2024-05-06"), "2024-05-06");
    assert_eq!(shown_date(""), "");
}

#[test]
fn rows_become_decks() {
    let d = deck_from_row(3, "Fruit".into(), "#279b57".into(), 12, 0, Some(1), "2024-05-06 07:08:09");
    assert_eq!(d.id, 3);
    assert_eq!(d.name, "Fruit");
    assert_eq!(d.word_count, 12);
    assert!(!d.is_folder);
    assert_eq!(d.parent_id, Some(1));
    assert_eq!(d.updated_at, "2024-05-06 07:08");
    let f = deck_from_row(4, "F".into(), "#000".into(), 0, 1, None, "x");
    assert!(f.is_folder);
}

#[test]
fn names_are_trimmed_and_required() {
    assert_eq!(entry_name("  新牌組 "), Some("新牌組".to_string()));
    assert_eq!(entry_name("   "), None);
    assert_eq!(entry_name(""), None);
}

#[test]
fn words_need_front_and_back() {
    assert_eq!(word_entry(" apple ", " 蘋果"), Some(("apple".to_string(), "蘋果".to_string())));
    assert_eq!(word_entry("apple", "  "), None);
    assert_eq!(word_entry("", "x"), None);
}

#[test]
fn import_goes_to_a_chosen_or_new_deck() {
    assert!(matches!(import_target(Some(5), ""), Some(ImportTarget::Existing(5))));
    assert!(matches!(import_target(Some(5), "name"), Some(ImportTarget::Existing(5))));
    match import_target(None, "  Verbs ") {
        Some(ImportTarget::New(n)) => assert_eq!(n, "Verbs"),
        _ => panic!("a new deck was expected"),
    }
    assert!(import_target(None, "  ").is_none());
}

#[test]
fn tags_become_json() {
    assert_eq!(tags_json(""), "[]");
    assert_eq!(tags_json("a, b ,c"), "[\"a\",\"b\",\"c\"]");
    assert_eq!(tags_json("one"), "[\"one\"]");
    assert_eq!(tags_json(" , x"), "[\"\",\"x\"]");
}

#[test]
fn group_labels_follow_the_folder_path() {
    let fs = vec![folder(1, "A", None), folder(2, "B", Some(1)), folder(3, "C", Some(2)), folder(4, "Lost", Some(99))];
    assert_eq!(group_label(&fs, None), "根目錄");
    assert_eq!(group_label(&fs, Some(1)), "A");
    assert_eq!(group_label(&fs, Some(3)), "A / B / C");
    assert_eq!(group_label(&fs, Some(4)), "未知資料夾 / Lost");
    assert_eq!(group_label(&fs, Some(42)), "未知資料夾");
}

#[test]
fn back_goes_up_one_folder() {
    assert_eq!(back_from(&vec![]), None);
    assert_eq!(back_from(&vec![deck(1, "A")]), Some(None));
    assert_eq!(back_from(&vec![deck(1, "A"), deck(2, "B")]), Some(Some(1)));
    assert_eq!(back_from(&vec![deck(1, "A"), deck(2, "B"), deck(3, "C")]), Some(Some(2)));
}

#[test]
fn a_folder_label_extends_its_parent_label() {
    let fs = vec![folder(1, "Root", None), folder(2, "Mid", Some(1)), folder(3, "Leaf", Some(2))];
    for (child, parent, name) in [(2, 1, "Mid"), (3, 2, "Leaf")] {
        assert_eq!(group_label(&fs, Some(child)), format!("{} / {}", group_label(&fs, Some(parent)), name));
    }
}

#[test]
fn folder_chains_end_unless_they_cycle() {
    let fs = vec![folder(1, "A", None), folder(2, "B", Some(1)), folder(3, "C", Some(99))];
    assert!(folder_chain_ends(&fs, 2));
    assert!(folder_chain_ends(&fs, 3));
    assert!(folder_chain_ends(&fs, 42));
    let cyc = vec![folder(1, "A", Some(2)), folder(2, "B", Some(1)), folder(3, "C", Some(1))];
    assert!(!folder_chain_ends(&cyc, 3));
    assert!(!folder_chain_ends(&cyc, 1));
    let selfloop = vec![folder(5, "S", Some(5))];
    assert!(!folder_chain_ends(&selfloop, 5));
}

#[test]
fn tags_shown_and_saved_unchanged_round_trip() {
    for tags in [vec![], vec!["verb"], vec!["noun", "日常", "b2"]] {
        let tags: Vec<String> = tags.iter().map(|s| s.to_string()).collect();
        assert_eq!(tags_json(&tags.join(", ")), serde_json::to_string(&tags).unwrap());
    }
}
