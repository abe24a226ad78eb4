use notebook::archive::{find_marked_links, local_path_of, prepare_content};
use notebook::codec::{decode_text, encode_notes, entry_text, Note};
use notebook::filename::url_to_safe_filename;
use notebook::store::{matches_folded, NoteStore, StoreError};
use notebook::text::replace_text;

fn note(ts: &str, content: &str) -> Note {
    Note::new(ts.to_string(), content.to_string())
}

#[test]
fn safe_filename_strips_http_scheme() {
    assert_eq!(url_to_safe_filename("http://example.com/a"), "example.com_a");
}

#[test]
fn safe_filename_strips_https_scheme() {
    assert_eq!(url_to_safe_filename("https://a.b/c?d=e&f"), "a.b_c_d_e_f");
}

#[test]
fn safe_filename_trims_dots() {
    assert_eq!(url_to_safe_filename("..x.y.."), "x.y");
    assert_eq!(url_to_safe_filename("http://..."), "");
}

#[test]
fn safe_filename_keeps_only_safe_characters() {
    let name = url_to_safe_filename("https://h\u{e9}llo w\u{f6}rld/<a>|b:c*d\"e\\f");
    assert_eq!(name, "h_llo_w_rld__a__b_c_d_e_f");
    for c in name.chars() {
        assert!(c.is_ascii_alphanumeric() || c == '.' || c == '-' || c == '_');
    }
}

#[test]
fn safe_filename_is_deterministic() {
    let u = "https://example.org/x/y?z";
    assert_eq!(url_to_safe_filename(u), url_to_safe_filename(u));
}

#[test]
fn encode_writes_each_note_with_separator() {
    let notes = vec![note("2024-01-01 10:00:00", "one"), note("2024-01-02 11:00:00", "two")];
    assert_eq!(
        encode_notes(&notes),
        "2024-01-01 10:00:00\none\n\n---\n\n2024-01-02 11:00:00\ntwo\n\n---\n\n"
    );
}

#[test]
fn decode_reads_back_encoded_notes() {
    let notes = vec![
        note("2024-01-01 10:00:00", "first\nwith lines"),
        note("2024-01-02 11:00:00", "# heading"),
    ];
    let text = encode_notes(&notes);
    let back = decode_text(&text, "unused");
    assert_eq!(back.len(), 2);
    for (a, b) in notes.iter().zip(back.iter()) {
        assert_eq!(a.timestamp, b.timestamp);
        assert_eq!(a.content, b.content);
        assert_eq!(a.html, b.html);
    }
}

#[test]
fn decode_skips_blank_blocks() {
    let back = decode_text("\n\n---\n\n  \t\n\n---\n\nts\nbody\n\n---\n\n", "F");
    assert_eq!(back.len(), 1);
    assert_eq!(back[0].timestamp, "ts");
    assert_eq!(back[0].content, "body");
}

#[test]
fn decode_stamps_block_without_newline_with_fallback() {
    let back = decode_text("lonely", "2020-02-02 02:02:02");
    assert_eq!(back.len(), 1);
    assert_eq!(back[0].timestamp, "2020-02-02 02:02:02");
    assert_eq!(back[0].content, "lonely");
}

#[test]
fn decode_of_empty_text_is_empty() {
    assert!(decode_text("", "F").is_empty());
}

#[test]
fn replace_is_left_to_right_without_overlap() {
    assert_eq!(replace_text("-----", "---", "<hr>"), "<hr>--");
    assert_eq!(replace_text("abab", "ab", "x"), "xx");
}

#[test]
fn marked_links_are_words_starting_with_plus_http() {
    let links = find_marked_links("a +http://x.y b\t+https://z  +ftp://q x+http://no");
    assert_eq!(links, vec!["+http://x.y".to_string(), "+https://z".to_string()]);
}

#[test]
fn local_path_of_url() {
    assert_eq!(local_path_of("http://example.com/a"), "attachments/webpages/example.com_a.html");
}

#[test]
fn prepare_rewrites_marked_link() {
    let (content, jobs) = prepare_content("check +http://example.com/a out");
    assert_eq!(
        content,
        "check http://example.com/a ([local copy](/attachments/webpages/example.com_a.html)) out"
    );
    assert_eq!(jobs.len(), 1);
    assert_eq!(jobs[0].url, "http://example.com/a");
    assert_eq!(jobs[0].path, "attachments/webpages/example.com_a.html");
}

#[test]
fn append_rewrites_marked_link() {
    let mut store = NoteStore::new();
    let saved = store.append("check +http://example.com/a out");
    let c = &saved.note.content;
    assert!(c.contains(
        "http://example.com/a ([local copy](/attachments/webpages/example.com_a.html))"
    ));
    assert!(!c.split_whitespace().any(|w| w.starts_with("+http")));
    assert_eq!(store.list()[0].content, *c);
}

#[test]
fn append_turns_rules_into_hr() {
    let mut store = NoteStore::new();
    let saved = store.append("a\n---\nb");
    assert_eq!(saved.note.content, "a\n<hr>\nb");
    assert!(saved.jobs.is_empty());
}

#[test]
fn append_renders_html() {
    let mut store = NoteStore::new();
    let saved = store.append("hello *world*");
    assert!(saved.note.html.contains("<em>world</em>"));
    assert_ne!(saved.note.html, saved.note.content);
}

#[test]
fn append_stamps_with_current_time() {
    let mut store = NoteStore::new();
    let saved = store.append("x");
    let ts = &saved.note.timestamp;
    assert_eq!(ts.len(), 19);
    assert!(ts.chars().all(|c| c.is_ascii_digit() || c == '-' || c == ':' || c == ' '));
}

#[test]
fn append_is_durable() {
    let mut store = NoteStore::new();
    let first = store.append("first");
    let second = store.append("second note");
    let file = format!("{}{}", first.entry, second.entry);
    let list = store.list();
    assert_eq!(list.len(), 2);
    assert_eq!(list[1].content, "second note");
    let reloaded = NoteStore::from_text(&file).list();
    assert_eq!(reloaded.len(), 2);
    assert_eq!(reloaded[1].timestamp, second.note.timestamp);
    assert_eq!(reloaded[1].content, second.note.content);
}

#[test]
fn entry_text_of_note() {
    assert_eq!(entry_text(&note("t", "c")), "t\nc\n\n---\n\n");
}

#[test]
fn get_out_of_range_is_not_found() {
    let mut store = NoteStore::new();
    assert!(matches!(store.get(0), Err(StoreError::NotFound)));
    store.append("x");
    assert!(store.get(0).is_ok());
    assert!(matches!(store.get(1), Err(StoreError::NotFound)));
}

#[test]
fn remove_out_of_range_is_not_found() {
    let mut store = NoteStore::new();
    store.append("x");
    assert!(matches!(store.remove(1), Err(StoreError::NotFound)));
    assert_eq!(store.len(), 1);
}

#[test]
fn remove_rewrites_file() {
    let text = "t1\none\n\n---\n\nt2\ntwo\n\n---\n\nt3\nthree\n\n---\n\n";
    let mut store = NoteStore::from_text_at(text, "F");
    let file = store.remove(1).unwrap();
    assert_eq!(file, "t1\none\n\n---\n\nt3\nthree\n\n---\n\n");
    let list = store.list();
    assert_eq!(list.len(), 2);
    let reloaded = NoteStore::from_text_at(&file, "F").list();
    assert_eq!(reloaded.len(), 2);
    assert_eq!(reloaded[0].content, list[0].content);
    assert_eq!(reloaded[1].timestamp, list[1].timestamp);
}

#[test]
fn remove_by_timestamp_and_get_by_timestamp() {
    let text = "t1\none\n\n---\n\nt2\ntwo\n\n---\n\n";
    let mut store = NoteStore::from_text_at(text, "F");
    assert_eq!(store.get_by_timestamp("t2").unwrap().content, "two");
    assert!(matches!(store.get_by_timestamp("t9"), Err(StoreError::NotFound)));
    assert!(matches!(store.remove_by_timestamp("t9"), Err(StoreError::NotFound)));
    assert_eq!(store.remove_by_timestamp("t1").unwrap(), "t2\ntwo\n\n---\n\n");
    assert_eq!(store.len(), 1);
}

#[test]
fn search_ignores_case() {
    let text = "t1\nRust Notes\n\n---\n\nt2\nother\n\n---\n\nt3\nmore rust\n\n---\n\n";
    let store = NoteStore::from_text_at(text, "F");
    let found = store.search("RUST");
    assert_eq!(found.len(), 2);
    assert_eq!(found[0].timestamp, "t1");
    assert_eq!(found[1].timestamp, "t3");
    assert!(store.search("absent").is_empty());
}

#[test]
fn matches_folded_is_substring_test() {
    assert!(matches_folded("ab", "xaby"));
    assert!(!matches_folded("ba", "xaby"));
    assert!(matches_folded("", "x"));
}

#[test]
fn patch_content_keeps_place_and_timestamp() {
    let text = "t1\none\n\n---\n\nt2\ntwo\n\n---\n\n";
    let mut store = NoteStore::from_text_at(text, "F");
    assert!(store.patch_content("t1", "*new*".to_string()));
    let n = store.get(0).unwrap();
    assert_eq!(n.timestamp, "t1");
    assert_eq!(n.content, "*new*");
    assert!(n.html.contains("<em>new</em>"));
    assert!(!store.patch_content("t9", "x".to_string()));
}

#[test]
fn failed_snapshot_is_noted() {
    let mut store = NoteStore::new();
    let saved = store.append("see +http://example.com/a");
    let job = &saved.jobs[0];
    let file = store.record_failure(&saved.note.timestamp, &job.path).unwrap();
    let n = store.get(0).unwrap();
    assert_eq!(n.content, "see http://example.com/a (local copy failed)");
    assert!(!n.content.contains("([local copy]("));
    assert!(n.html.contains("(local copy failed)"));
    assert!(!n.html.contains("local copy]"));
    assert_eq!(file, format!("{}\n{}\n\n---\n\n", saved.note.timestamp, n.content));
}

#[test]
fn failure_for_missing_note_changes_nothing() {
    let mut store = NoteStore::new();
    store.append("x");
    assert!(store.record_failure("no such time", "p").is_none());
    assert_eq!(store.get(0).unwrap().content, "x");
}

#[test]
fn appends_are_all_kept_in_order() {
    let mut store = NoteStore::new();
    for i in 0..20 {
        store.append(&format!("note {i}"));
    }
    let list = store.list();
    assert_eq!(list.len(), 20);
    for (i, n) in list.iter().enumerate() {
        assert_eq!(n.content, format!("note {i}"));
    }
}
