use red_black_knights::library::{
    library_entry, library_entry_count, library_selected_index, preset_index_in, BookmarkStore,
    LibraryEntry, PRESET_COUNT,
};
use red_black_knights::model::GameDefinition;

#[test]
fn preset_count_matches_catalog() {
    assert_eq!(GameDefinition::preset_catalog().len(), PRESET_COUNT);
    assert_eq!(library_entry_count(3), PRESET_COUNT + 3);
}

#[test]
fn adding_selects_the_new_bookmark() {
    let mut store: BookmarkStore<&str> = BookmarkStore::new();
    assert_eq!(store.add("a"), 0);
    assert_eq!(store.add("b"), 1);
    assert_eq!(store.bookmarks, vec!["a", "b"]);
    assert_eq!(store.selected, Some(1));
}

#[test]
fn removing_selects_the_next_or_last() {
    let mut store: BookmarkStore<u32> = BookmarkStore::default();
    assert!(!store.remove_selected());
    store.add(10);
    store.add(20);
    store.add(30);
    store.selected = Some(1);
    assert!(store.remove_selected());
    assert_eq!(store.bookmarks, vec![10, 30]);
    assert_eq!(store.selected, Some(1));
    assert!(store.remove_selected());
    assert_eq!(store.bookmarks, vec![10]);
    assert_eq!(store.selected, Some(0));
    assert!(store.remove_selected());
    assert!(store.bookmarks.is_empty());
    assert_eq!(store.selected, None);
    store.add(5);
    store.selected = Some(4);
    assert!(!store.remove_selected());
    assert_eq!(store.selected, None);
    assert_eq!(store.bookmarks, vec![5]);
}

#[test]
fn reloading_keeps_only_a_valid_selection() {
    let mut store: BookmarkStore<u8> = BookmarkStore::new();
    store.add(1);
    store.add(2);
    store.replace_all(vec![7, 8, 9]);
    assert_eq!(store.selected, Some(1));
    store.replace_all(vec![7]);
    assert_eq!(store.selected, None);
    assert_eq!(store.bookmarks, vec![7]);
}

#[test]
fn library_rows_put_presets_first() {
    let mut store: BookmarkStore<u8> = BookmarkStore::new();
    assert_eq!(library_selected_index(&store, 4), 4);
    assert_eq!(library_selected_index(&store, 99), PRESET_COUNT - 1);
    store.add(1);
    assert_eq!(library_selected_index(&store, 4), PRESET_COUNT);
    assert_eq!(library_entry(3, 2), LibraryEntry::Preset(3));
    assert_eq!(library_entry(PRESET_COUNT + 1, 2), LibraryEntry::Bookmark(1));
    assert_eq!(library_entry(PRESET_COUNT + 2, 2), LibraryEntry::Preset(0));
}

#[test]
fn finds_the_preset_of_a_definition() {
    let catalog = GameDefinition::preset_catalog();
    assert_eq!(preset_index_in(&catalog, &GameDefinition::knight_2_pairwise()), Some(0));
    assert_eq!(preset_index_in(&catalog, &GameDefinition::king_6_clique()), Some(17));
    let mut def = GameDefinition::knight_2_pairwise();
    def.pieces[0].name = "renamed".to_string();
    assert_eq!(preset_index_in(&catalog, &def), Some(0));
    def.pieces[0].enabled = false;
    assert_eq!(preset_index_in(&catalog, &def), None);
}
