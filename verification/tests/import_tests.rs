use scallion_vocab::import::{
    add_fetched_cards, card_of_note, clean_recent_urls, decode_anki_cell, normalize_quizlet_url,
    parse_anki_text, parse_pasted, parse_quizlet_urls, record_fetch, remember_recent_urls,
    words_from_notes, FetchOutcome, ImportError, PasteError,
};
use scallion_vocab::model::Word;

fn pairs(ws: &[Word]) -> Vec<(String, String)> {
    ws.iter().map(|w| (w.front.clone(), w.back.clone())).collect()
}

fn strings(v: &[&str]) -> Vec<String> {
    v.iter().map(|s| s.to_string()).collect()
}

#[test]
fn decode_cell_turns_breaks_into_newlines() {
    assert_eq!(decode_anki_cell("a<br />b<br/>c<br>d"), "a\nb\nc\nd");
}

#[test]
fn decode_cell_decodes_entities_after_amp() {
    assert_eq!(decode_anki_cell("&lt;b&gt; &quot;x&quot; &#39;y&#39;"), "<b> \"x\" 'y'");
    assert_eq!(decode_anki_cell("&amp;lt;"), "<");
    assert_eq!(decode_anki_cell("Tom &amp; Jerry"), "Tom & Jerry");
}

#[test]
fn decode_cell_trims() {
    assert_eq!(decode_anki_cell("  apple \t"), "apple");
    assert_eq!(decode_anki_cell("<br>"), "");
}

#[test]
fn anki_text_reads_tab_separated_lines() {
    let ws = parse_anki_text("\u{FEFF}apple\t蘋果\nno tab here\nbanana\t香蕉\r\n\t空\nx\t\n");
    assert_eq!(
        pairs(&ws),
        vec![("apple".to_string(), "蘋果".to_string()), ("banana".to_string(), "香蕉".to_string())]
    );
}

#[test]
fn anki_text_splits_at_first_tab_only() {
    let ws = parse_anki_text("a\tb\tc");
    assert_eq!(pairs(&ws), vec![("a".to_string(), "b\tc".to_string())]);
}

#[test]
fn anki_text_of_nothing_is_empty() {
    assert!(parse_anki_text("").is_empty());
    assert!(parse_anki_text("\u{FEFF}").is_empty());
}

#[test]
fn pasted_text_errors() {
    assert_eq!(parse_pasted("   \n\t ").err(), Some(PasteError::Empty));
    assert_eq!(parse_pasted("just words").err(), Some(PasteError::NoCards));
    assert_eq!(PasteError::Empty.message(), "請輸入或貼上 Anki 文字");
    assert_eq!(PasteError::NoCards.message(), "無法解析任何卡片，請確認格式為「英文\\t中文」");
}

#[test]
fn pasted_text_is_trimmed_then_read() {
    let ws = parse_pasted("  \n dog\t狗\ncat\t貓  \n").ok().unwrap();
    assert_eq!(
        pairs(&ws),
        vec![("dog".to_string(), "狗".to_string()), ("cat".to_string(), "貓".to_string())]
    );
}

#[test]
fn note_fields_give_front_and_back() {
    let w = card_of_note("front&amp;\u{1f}back<br>two\u{1f}extra").unwrap();
    assert_eq!(w.front, "front&");
    assert_eq!(w.back, "back\ntwo");
    assert!(card_of_note("only one field").is_none());
    assert!(card_of_note(" \u{1f}back").is_none());
}

#[test]
fn notes_without_cards_are_an_error() {
    assert_eq!(words_from_notes(&vec![]).err(), Some(ImportError::NoCards));
    assert_eq!(words_from_notes(&strings(&["x", "\u{1f}y"])).err(), Some(ImportError::NoCards));
    let ws = words_from_notes(&strings(&["a\u{1f}b", "junk", "c\u{1f}d"])).ok().unwrap();
    assert_eq!(pairs(&ws), vec![("a".to_string(), "b".to_string()), ("c".to_string(), "d".to_string())]);
}

#[test]
fn import_error_messages() {
    assert_eq!(ImportError::NotAnArchive.message(), "無法解壓縮 .apkg 檔案");
    assert_eq!(ImportError::EntryUnreadable.message(), "讀取 .apkg 失敗");
    assert_eq!(ImportError::CollectionUnreadable.message(), "讀取 collection 失敗");
    assert_eq!(ImportError::NoCollection.message(), "找不到 collection.anki2");
    assert_eq!(ImportError::NoCards.message(), "牌組中無有效文字卡片");
}

#[test]
fn quizlet_link_gets_a_scheme() {
    assert_eq!(
        normalize_quizlet_url("  quizlet.com/123/cards ").as_deref(),
        Some("https://quizlet.com/123/cards")
    );
}

#[test]
fn quizlet_link_host_is_lowercased_by_the_parser() {
    assert_eq!(
        normalize_quizlet_url("https://Quizlet.COM/x").as_deref(),
        Some("https://quizlet.com/x")
    );
    // the scheme test is case-sensitive, so an upper-case scheme gets a second one
    assert_eq!(normalize_quizlet_url("HTTPS://quizlet.com/x"), None);
    assert_eq!(
        normalize_quizlet_url("http://www.quizlet.com").as_deref(),
        Some("http://www.quizlet.com/")
    );
}

#[test]
fn quizlet_link_rejects_other_hosts() {
    assert_eq!(normalize_quizlet_url("https://example.com/quizlet.com"), None);
    assert_eq!(normalize_quizlet_url("https://quizlet.com.evil.org/"), None);
    assert_eq!(normalize_quizlet_url("https://notquizlet.com/"), None);
    assert_eq!(normalize_quizlet_url(""), None);
    assert_eq!(normalize_quizlet_url("   "), None);
}

#[test]
fn quizlet_lines_are_read_once_each() {
    let urls = parse_quizlet_urls("quizlet.com/1\nexample.com\nhttps://quizlet.com/1\n\nquizlet.com/2\n");
    assert_eq!(urls, strings(&["https://quizlet.com/1", "https://quizlet.com/2"]));
}

#[test]
fn recent_links_are_cleaned_and_capped() {
    let urls = strings(&["quizlet.com/a", "bad", "https://quizlet.com/a", "quizlet.com/b", "quizlet.com/c"]);
    assert_eq!(clean_recent_urls(urls.clone(), 2), strings(&["https://quizlet.com/a", "https://quizlet.com/b"]));
    assert_eq!(clean_recent_urls(urls, 0), Vec::<String>::new());
}

#[test]
fn fetched_links_move_to_the_front() {
    let r = remember_recent_urls(strings(&["a", "b", "c"]), &strings(&["c", "d"]), 3);
    assert_eq!(r, strings(&["d", "c", "a"]));
    let r = remember_recent_urls(strings(&["a"]), &strings(&["a"]), 5);
    assert_eq!(r, strings(&["a"]));
}

#[test]
fn fetched_cards_are_trimmed_and_deduplicated() {
    let mut words: Vec<Word> = Vec::new();
    let cards = vec![
        (" term ".to_string(), " def ".to_string()),
        ("term".to_string(), "def".to_string()),
        ("".to_string(), "x".to_string()),
        ("u".to_string(), "  ".to_string()),
        ("u".to_string(), "v".to_string()),
    ];
    let added = add_fetched_cards(&mut words, &cards);
    assert_eq!(added, 2);
    assert_eq!(pairs(&words), vec![("term".to_string(), "def".to_string()), ("u".to_string(), "v".to_string())]);
    let again = add_fetched_cards(&mut words, &cards);
    assert_eq!(again, 0);
    assert_eq!(words.len(), 2);
}

#[test]
fn fetch_outcomes_are_recorded() {
    let mut words: Vec<Word> = Vec::new();
    let mut errors: Vec<String> = Vec::new();
    let n = record_fetch(
        &mut words,
        &mut errors,
        "https://quizlet.com/1",
        FetchOutcome::Cards(vec![("a".into(), "b".into()), (" a ".into(), "b".into())]),
    );
    assert_eq!(n, 1);
    assert!(errors.is_empty());
    let n = record_fetch(&mut words, &mut errors, "https://quizlet.com/2", FetchOutcome::Failed("timed out".into()));
    assert_eq!(n, 0);
    assert_eq!(words.len(), 1);
    assert_eq!(errors, vec!["https://quizlet.com/2: timed out".to_string()]);
}

#[test]
fn anki_cards_are_never_empty() {
    let ws = parse_anki_text("a\t \n \tb\n<br>\tx\nok\tfine\n");
    assert_eq!(pairs(&ws), vec![("ok".to_string(), "fine".to_string())]);
    for w in &ws {
        assert!(!w.front.is_empty() && !w.back.is_empty());
    }
}

#[test]
fn anki_text_joined_by_a_newline_reads_as_both() {
    let texts = ["\u{FEFF}a\tb", "c\td\r", "", "x\ty\n", "\t\n", "e\t<br>f&amp;\r\n", "no tab"];
    for a in texts {
        for b in texts.iter().filter(|b| !b.starts_with('\u{FEFF}')) {
            let joined = parse_anki_text(&format!("{a}\n{b}"));
            let mut both = parse_anki_text(a);
            both.extend(parse_anki_text(b));
            assert_eq!(pairs(&joined), pairs(&both), "{a:?} {b:?}");
        }
    }
}
