use findex_cache::client::Client;
use findex_cache::logseq::{
    blocks_to_pages, get_icon_for_tags, logseq_query, page_description, shuffle_tail, LogseqBlock,
    LogseqPage, LogseqTag, TagIcon, TagRef,
};
use findex_cache::raindrop::{raindrop_query, CollectionRef, Item, UserRef};
use findex_cache::refresh::{refresh_step, RefreshAction, RefreshEvent, RefreshState};
use findex_cache::scores::ItemScore;
use findex_cache::translator::{chunk_text, replace_tabs, wants_sentence_translation};
use findex_cache::unicode_picker::{picker_query, Symbol};
use findex_cache::zotero::{
    to_zotero_items, BibTexLoader, ZoteroCollection, ZoteroConfig, ZoteroData, ZoteroEntry,
    ZoteroNote, ZoteroTag,
};

fn raindrop_item(id: i32, title: &str, tags: &[&str], last_update: &str) -> Item {
    Item {
        id,
        link: format!("https://example.test/{}", id),
        title: title.to_string(),
        excerpt: String::new(),
        note: String::new(),
        item_type: "link".to_string(),
        user: UserRef { ref_field: "users".to_string(), id: 1 },
        cover: String::new(),
        media: vec![],
        tags: tags.iter().map(|t| t.to_string()).collect(),
        important: None,
        removed: false,
        created: "2024-01-01".to_string(),
        collection: CollectionRef { ref_field: "collections".to_string(), id: 0, oid: 0 },
        last_update: last_update.to_string(),
        domain: "example.test".to_string(),
        sort: 0,
        collection_id: 0,
    }
}

fn entry(item_type: &str, title: Option<&str>, select: &str) -> ZoteroEntry {
    ZoteroEntry {
        key: "K".to_string(),
        item_type: item_type.to_string(),
        title: title.map(|t| t.to_string()),
        note: None,
        short_title: None,
        date: None,
        language: None,
        library_catalog: None,
        access_date: None,
        tags: vec![],
        collections: None,
        publication_title: None,
        date_added: "2024-01-01 00:00:00".to_string(),
        date_modified: "2024-02-01 00:00:00".to_string(),
        extra: None,
        select: select.to_string(),
        notes: None,
    }
}

#[test]
fn raindrop_query_sorts_filters_promotes_and_bounds() {
    let items = vec![
        raindrop_item(1, "Old Rust post", &["lang"], "2023-01-01"),
        raindrop_item(2, "New Rust post", &["lang"], "2024-06-01"),
        raindrop_item(3, "Cooking", &["food"], "2024-07-01"),
    ];
    let scores = vec![ItemScore { score: 3, last_accessed_time: 99, id: "1".to_string() }];
    let got = raindrop_query(items, &scores, "rust", 7, 15);
    let ids: Vec<i32> = got.iter().map(|i| i.id).collect();
    // item 1 was used recently, so it leads; item 2 follows by update stamp
    assert_eq!(ids, vec![1, 2]);
}

#[test]
fn raindrop_tag_keyword_narrows_by_tag() {
    let items = vec![
        raindrop_item(1, "Rust Notes", &["lang"], "2024-01-02"),
        raindrop_item(2, "Go Notes", &["lang", "fast"], "2024-01-01"),
    ];
    let got = raindrop_query(items, &vec![], "notes #fast", 7, 15);
    let ids: Vec<i32> = got.iter().map(|i| i.id).collect();
    assert_eq!(ids, vec![2]);
}

#[test]
fn client_builds_its_auth_header() {
    let client = Client::new("token-123");
    assert_eq!(client.auth_header(), "Bearer token-123");
    let (acc, more) = client.accumulate_page(vec![], vec![raindrop_item(9, "x", &[], "2024")]);
    assert_eq!(acc.len(), 1);
    assert!(more);
    let (acc2, more2) = client.accumulate_page(acc, vec![]);
    assert_eq!(acc2.len(), 1);
    assert!(!more2);
}

#[test]
fn blocks_become_pages_with_defaults_and_tag_names() {
    let blocks = vec![
        LogseqBlock {
            title: Some("Plans".to_string()),
            uuid: Some("u-1".to_string()),
            tags: Some(vec![TagRef { id: Some(42) }, TagRef { id: None }, TagRef { id: Some(-7) }]),
            updated_at: Some(1000),
        },
        LogseqBlock { title: None, uuid: None, tags: None, updated_at: None },
    ];
    let pages = blocks_to_pages(blocks);
    assert_eq!(pages.len(), 2);
    assert_eq!(pages[0].title, "Plans");
    assert_eq!(pages[0].tags, vec!["tag-42".to_string(), "tag--7".to_string()]);
    assert_eq!(pages[1].title, "Untitled");
    assert_eq!(pages[1].uuid, "");
    assert_eq!(pages[1].tags.len(), 0);
}

#[test]
fn logseq_query_pins_the_recent_head_and_filters() {
    let mut pages = Vec::new();
    for i in 0..10i64 {
        pages.push(LogseqPage {
            title: format!("note {}", i),
            uuid: format!("u{}", i),
            tags: vec![],
            updated_at: Some(1000 - i),
        });
    }
    let got = logseq_query(pages, "note", 5, 15);
    assert_eq!(got.len(), 10);
    // the five most recent stay in place whatever the tail order
    for (k, p) in got.iter().take(5).enumerate() {
        assert_eq!(p.uuid, format!("u{}", k));
    }
    let mut tail_ids: Vec<String> = got.iter().skip(5).map(|p| p.uuid.clone()).collect();
    tail_ids.sort();
    assert_eq!(tail_ids, vec!["u5", "u6", "u7", "u8", "u9"]);
}

#[test]
fn shuffle_keeps_the_items_and_the_head() {
    let pages: Vec<LogseqPage> = (0..8i64)
        .map(|i| LogseqPage {
            title: format!("t{}", i),
            uuid: format!("u{}", i),
            tags: vec![],
            updated_at: Some(i),
        })
        .collect();
    let shuffled = shuffle_tail(pages.clone(), 3);
    assert_eq!(shuffled.len(), 8);
    for k in 0..3 {
        assert_eq!(shuffled[k], pages[k]);
    }
    let mut all: Vec<String> = shuffled.iter().map(|p| p.uuid.clone()).collect();
    all.sort();
    let mut expect: Vec<String> = pages.iter().map(|p| p.uuid.clone()).collect();
    expect.sort();
    assert_eq!(all, expect);
}

#[test]
fn icons_come_from_the_first_informative_tag() {
    let tags = vec![
        LogseqTag { name: "Page".to_string(), icon: None },
        LogseqTag {
            name: "Reading".to_string(),
            icon: Some(TagIcon { icon_type: "emoji".to_string(), id: "books".to_string() }),
        },
    ];
    assert_eq!(get_icon_for_tags(&tags), "emoji:\u{1F4DA}");
    // an unknown shortcode falls back
    let tags = vec![LogseqTag {
        name: "Reading".to_string(),
        icon: Some(TagIcon { icon_type: "emoji".to_string(), id: "no-such-shortcode".to_string() }),
    }];
    assert_eq!(get_icon_for_tags(&tags), "emoji:\u{1F4DD}");
    // task pages get the to-do icon
    let tags = vec![LogseqTag { name: "Task".to_string(), icon: None }];
    assert_eq!(get_icon_for_tags(&tags), "gnome-todo");
    assert_eq!(get_icon_for_tags(&vec![]), "emoji:\u{1F4DD}");
}

#[test]
fn page_descriptions_hash_the_tags_and_drop_the_page_marker() {
    let tags = vec!["Page".to_string(), "lang".to_string(), "notes".to_string()];
    assert_eq!(page_description(&tags), Some("#lang #notes".to_string()));
    assert_eq!(page_description(&vec![]), None);
    // a page with only the marker still reports a line, though an empty one
    assert_eq!(page_description(&vec!["Page".to_string()]), Some(String::new()));
}

#[test]
fn zotero_titles_join_publication_and_type() {
    let mut e = entry("journalArticle", Some("A Title"), "zotero://select/1");
    e.publication_title = Some("Journal".to_string());
    let items = to_zotero_items(e);
    assert_eq!(items.len(), 1);
    assert_eq!(items[0].title, "A Title | Journal | journalArticle");
    assert_eq!(items[0].icon, "journal-article");
    assert_eq!(items[0].select, "zotero://select/1");
}

#[test]
fn zotero_note_titles_come_from_the_first_text_node() {
    let mut e = entry("note", None, "zotero://select/2");
    e.note = Some("<div><p>First words</p><p>more</p></div>".to_string());
    let items = to_zotero_items(e);
    assert_eq!(items[0].title, "First words | note");
    // an entry with nothing to title
    let e = entry("note", None, "s");
    let items = to_zotero_items(e);
    assert_eq!(items[0].title, "<Unknown Title> | note");
}

#[test]
fn zotero_takes_the_latest_modification_stamp() {
    let mut e = entry("book", Some("B"), "s");
    e.notes = Some(vec![
        ZoteroNote {
            item_type: "note".to_string(),
            parent_item: "K".to_string(),
            note: "n".to_string(),
            tags: vec![],
            date_added: "2024-01-01".to_string(),
            date_modified: "2024-05-01 00:00:00".to_string(),
        },
        ZoteroNote {
            item_type: "note".to_string(),
            parent_item: "K".to_string(),
            note: "n2".to_string(),
            tags: vec![],
            date_added: "2024-01-01".to_string(),
            date_modified: "2024-03-01 00:00:00".to_string(),
        },
    ]);
    let items = to_zotero_items(e);
    assert_eq!(items[0].date_modified, "2024-05-01 00:00:00");
}

#[test]
fn zotero_search_sorts_filters_and_bounds() {
    let mut a = entry("book", Some("Rust Book"), "s1");
    a.tags = vec![ZoteroTag { tag: "lang".to_string() }];
    a.date_modified = "2024-01-01".to_string();
    let mut b = entry("book", Some("Rust Atomics"), "s2");
    b.date_modified = "2024-06-01".to_string();
    let c = entry("book", Some("Cooking"), "s3");
    let data = ZoteroData {
        config: ZoteroConfig { id: "lib".to_string(), label: "My Library".to_string() },
        collections: vec![(
            "C1".to_string(),
            ZoteroCollection {
                key: "C1".to_string(),
                parent: "".to_string(),
                name: "All".to_string(),
                items: vec![1],
            },
        )],
        items: vec![a, b, c],
    };
    let items = BibTexLoader::load_items(data);
    assert_eq!(items.len(), 3);
    let found = findex_cache::zotero::search(items, "rust", 10);
    let titles: Vec<&str> = found.iter().map(|i| i.title.as_str()).collect();
    assert_eq!(titles, vec!["Rust Atomics | book", "Rust Book | book"]);
}

#[test]
fn translator_chunks_and_widens_tabs() {
    assert_eq!(chunk_text("abcdefgh", 3), "abc\ndef\ngh");
    assert_eq!(chunk_text("ab", 3), "ab");
    assert_eq!(chunk_text("", 70), "");
    assert_eq!(replace_tabs("a\tb\t"), "a    b    ");
    assert!(wants_sentence_translation("two words"));
    assert!(!wants_sentence_translation("word"));
}

#[test]
fn picker_lists_favorites_or_matching_lines() {
    let favorites = Symbol::favorite_symbols();
    assert_eq!(favorites.len(), 35);
    let blank = picker_query("x some line", "  ", Symbol::favorite_symbols());
    assert_eq!(blank.len(), 35);
    let table = "\u{2714} check mark here\n\u{2715} cross mark\n\nplain line";
    let got = picker_query(table, "mark", Symbol::favorite_symbols());
    assert_eq!(got.len(), 3);
    assert_eq!(got[0].text, "\u{2714}");
    assert_eq!(got[0].description, " check mark here");
    assert_eq!(got[1].text, "\u{2715}");
    // the favorite "check mark" also matches by description
    assert_eq!(got[2].description, "check mark");
}

#[test]
fn refresher_cycles_idle_fetch_write_idle() {
    let (s1, a1) = refresh_step(RefreshState::Idle, RefreshEvent::TimerFired);
    assert!(matches!(s1, RefreshState::Refreshing));
    assert!(matches!(a1, RefreshAction::StartFetch));
    let items = vec![];
    let (s2, a2) = refresh_step(s1, RefreshEvent::FetchSucceeded(items));
    assert!(matches!(s2, RefreshState::Idle));
    assert!(matches!(a2, RefreshAction::WriteSnapshotAndCompact(_)));
    let (s3, a3) = refresh_step(RefreshState::Refreshing, RefreshEvent::FetchFailed);
    assert!(matches!(s3, RefreshState::Idle));
    assert!(matches!(a3, RefreshAction::Sleep));
}

#[test]
fn test_write_load_cache() {
    let items = vec![
        raindrop_item(1, "First", &["a", "b"], "2024-01-01"),
        {
            let mut it = raindrop_item(-3, "Sec|ond\nline", &[""], "");
            it.important = Some(true);
            it.removed = true;
            it.media = vec![findex_cache::raindrop::Media {
                media_type: "image".to_string(),
                link: "https://example.test/i.png".to_string(),
            }];
            it.sort = i32::MIN;
            it.collection_id = i32::MAX;
            it
        },
    ];
    let cache = findex_cache::cache::FileItemCache::new("raindrop.cache");
    let content = cache.update_cache(&items);
    let loaded_cache = cache.load_cache(Ok(content)).unwrap();
    assert_eq!(items, loaded_cache);
    assert!(cache.load_cache(Ok("junk".to_string())).is_err());
}

#[test]
fn favorites_are_the_fixed_table() {
    let favs = Symbol::favorite_symbols();
    assert_eq!(favs.len(), 35);
    assert_eq!(favs[0], Symbol::new("\u{00B7}", "middle dot"));
    assert_eq!(favs[19], Symbol::new("\u{2714}", "check mark"));
    assert_eq!(favs[34], Symbol::new("\u{2E3E}", "dashed overline"));
    // two builds are the same table
    assert_eq!(favs, Symbol::favorite_symbols());
}

#[test]
fn note_title_takes_the_first_text_in_document_order() {
    // a nested text comes before a later sibling's text
    let mut e = entry("note", None, "s");
    e.note = Some("<div><p>Deep first</p></div><p>Shallow second</p>".to_string());
    let items = to_zotero_items(e);
    assert_eq!(items[0].title, "Deep first | note");
    // comments and childless elements are passed over
    let mut e2 = entry("note", None, "s");
    e2.note = Some("<div><!-- aside --><span></span><em>Found</em></div>".to_string());
    let items2 = to_zotero_items(e2);
    assert_eq!(items2[0].title, "Found | note");
    // a document with no text node at all titles as unknown
    let mut e3 = entry("note", None, "s");
    e3.note = Some("<!-- an aside --><div></div>".to_string());
    let items3 = to_zotero_items(e3);
    assert_eq!(items3[0].title, "<Unknown Title> | note");
}
