use golinks::distance::damlev;
use golinks::model::{Link, Paging};
use golinks::planner::{execute, last_page, query_links, query_semantic, PagingResult};
use golinks::resolve::{resolve_alias, Resolution};
use golinks::schema::{
    CreateLink, DeleteLink, FindLink, GetLink, PagingOptions, QueryLinks, SearchMethod,
    SearchOptions, SortMethod, SortOptions, SortOrder, UpdateLink,
};
use golinks::store::LinkStore;
use golinks::Error;

fn create(store: &mut LinkStore, source: &str, is_alias: bool, target: &str, now: i64) -> Link {
    store
        .create_link(
            &CreateLink {
                source: source.to_string(),
                is_alias,
                target: target.to_string(),
            },
            now,
        )
        .unwrap()
}

fn damlev_search(query: &str) -> SearchOptions {
    SearchOptions {
        query: query.to_string(),
        method: SearchMethod::DamerauLevenshtein,
    }
}

fn sources(items: &[Link]) -> Vec<String> {
    items.iter().map(|l| l.source.clone()).collect()
}

// --- store gateway ---

#[test]
fn create_find_get_round() {
    let mut store = LinkStore::new();
    let l = create(&mut store, "docs", false, "https://example.test/docs", 5);
    assert_eq!(l.source, "docs");
    assert!(!l.is_alias);
    assert_eq!(l.target, "https://example.test/docs");
    assert_eq!(l.description, "");
    assert_eq!(l.created_at, 5);
    assert_eq!(l.modified_at, 5);
    let found = store
        .find_link(&FindLink {
            source: "docs".to_string(),
        })
        .unwrap();
    assert_eq!(found.id, l.id);
    let got = store.get_link(&GetLink { id: l.id }).unwrap();
    assert_eq!(got.source, "docs");
    assert!(store
        .find_link(&FindLink {
            source: "nothing".to_string(),
        })
        .is_none());
}

#[test]
fn create_duplicate_source_leaves_store_unchanged() {
    let mut store = LinkStore::new();
    create(&mut store, "docs", false, "https://example.test/a", 1);
    assert_eq!(store.row_count(), 1);
    let err = store
        .create_link(
            &CreateLink {
                source: "docs".to_string(),
                is_alias: true,
                target: "elsewhere".to_string(),
            },
            2,
        )
        .unwrap_err();
    assert_eq!(err, Error::DuplicateKey);
    assert_eq!(store.row_count(), 1);
    let row = store
        .find_link(&FindLink {
            source: "docs".to_string(),
        })
        .unwrap();
    assert_eq!(row.target, "https://example.test/a");
}

#[test]
fn edit_missing_id_is_not_found_and_changes_nothing() {
    let mut store = LinkStore::new();
    create(&mut store, "docs", false, "https://example.test/a", 1);
    let before = store.row_count();
    let err = store
        .edit_link(
            &GetLink { id: 9999 },
            &UpdateLink {
                source: "other".to_string(),
                is_alias: false,
                target: "t".to_string(),
            },
            7,
        )
        .unwrap_err();
    assert_eq!(err, Error::NotFound);
    assert_eq!(store.row_count(), before);
}

#[test]
fn edit_replaces_fields_and_stamps_modification() {
    let mut store = LinkStore::new();
    let l = create(&mut store, "docs", false, "https://example.test/a", 1);
    let updated = store
        .edit_link(
            &GetLink { id: l.id },
            &UpdateLink {
                source: "docs2".to_string(),
                is_alias: true,
                target: "docs".to_string(),
            },
            9,
        )
        .unwrap();
    assert_eq!(updated.id, l.id);
    assert_eq!(updated.source, "docs2");
    assert!(updated.is_alias);
    assert_eq!(updated.created_at, 1);
    assert_eq!(updated.modified_at, 9);
    assert_eq!(store.row_count(), 1);
}

#[test]
fn edit_to_existing_source_is_duplicate_key() {
    let mut store = LinkStore::new();
    let a = create(&mut store, "a", false, "ta", 1);
    create(&mut store, "b", false, "tb", 2);
    let err = store
        .edit_link(
            &GetLink { id: a.id },
            &UpdateLink {
                source: "b".to_string(),
                is_alias: false,
                target: "ta".to_string(),
            },
            3,
        )
        .unwrap_err();
    assert_eq!(err, Error::DuplicateKey);
    assert_eq!(store.row_count(), 2);
}

#[test]
fn delete_missing_is_not_found_zero_rows_is_no_success() {
    let mut store = LinkStore::new();
    let l = create(&mut store, "a", false, "t", 1);
    assert_eq!(
        store.delete_link(&DeleteLink { id: l.id + 1 }).unwrap_err(),
        Error::NotFound
    );
    assert_eq!(store.row_count(), 1);
    store.delete_link(&DeleteLink { id: l.id }).unwrap();
    assert_eq!(store.row_count(), 0);
    assert_eq!(
        store.delete_link(&DeleteLink { id: l.id }).unwrap_err(),
        Error::NotFound
    );
}

// --- alias resolver ---

#[test]
fn terminal_link_resolves_to_itself() {
    let mut store = LinkStore::new();
    let l = create(&mut store, "docs", false, "https://example.test/docs", 1);
    match resolve_alias(&store, "docs".to_string()) {
        Resolution::Found(found) => {
            assert_eq!(found.id, l.id);
            assert_eq!(found.target, "https://example.test/docs");
        }
        _ => panic!("expected the terminal link itself"),
    }
}

#[test]
fn two_hop_chain_resolves_to_terminal() {
    let mut store = LinkStore::new();
    create(&mut store, "a", true, "b", 1);
    create(&mut store, "b", true, "c", 2);
    let c = create(&mut store, "c", false, "https://example.test/c", 3);
    match resolve_alias(&store, "a".to_string()) {
        Resolution::Found(found) => assert_eq!(found.id, c.id),
        _ => panic!("expected the chain to reach the terminal link"),
    }
}

#[test]
fn missing_start_is_not_found() {
    let store = LinkStore::new();
    assert!(matches!(
        resolve_alias(&store, "ghost".to_string()),
        Resolution::NotFound
    ));
}

#[test]
fn dangling_final_hop_is_not_found() {
    let mut store = LinkStore::new();
    create(&mut store, "a", true, "b", 1);
    create(&mut store, "b", true, "nowhere", 2);
    assert!(matches!(
        resolve_alias(&store, "a".to_string()),
        Resolution::NotFound
    ));
}

#[test]
fn two_cycle_is_reported_as_cycle() {
    let mut store = LinkStore::new();
    create(&mut store, "a", true, "b", 1);
    create(&mut store, "b", true, "a", 2);
    assert!(matches!(
        resolve_alias(&store, "a".to_string()),
        Resolution::Cycle
    ));
}

#[test]
fn resolution_maps_into_the_error_taxonomy() {
    let mut store = LinkStore::new();
    create(&mut store, "a", true, "b", 1);
    create(&mut store, "b", true, "a", 2);
    let t = create(&mut store, "t", false, "target", 3);
    assert_eq!(
        resolve_alias(&store, "a".to_string()).into_result().unwrap_err(),
        Error::Cycle
    );
    assert_eq!(
        resolve_alias(&store, "ghost".to_string()).into_result().unwrap_err(),
        Error::NotFound
    );
    assert_eq!(
        resolve_alias(&store, "t".to_string()).into_result().unwrap().id,
        t.id
    );
}

#[test]
fn self_alias_is_a_cycle() {
    let mut store = LinkStore::new();
    create(&mut store, "me", true, "me", 1);
    assert!(matches!(
        resolve_alias(&store, "me".to_string()),
        Resolution::Cycle
    ));
}

// --- query planner ---

#[test]
fn last_page_is_ceiling_of_total_over_limit() {
    assert_eq!(last_page(25, 10), 3);
    assert_eq!(last_page(0, 10), 0);
    assert_eq!(last_page(10, 10), 1);
    assert_eq!(last_page(11, 10), 2);
    assert_eq!(last_page(1, 1), 1);
}

#[test]
fn zero_limit_is_invalid_input() {
    let store = LinkStore::new();
    let r = execute(
        &store,
        &damlev_search("x"),
        &PagingOptions { page: 1, limit: 0 },
        &SortOptions::default(),
    );
    assert_eq!(r.unwrap_err(), Error::InvalidInput);
}

#[test]
fn zero_page_is_invalid_input() {
    let store = LinkStore::new();
    let r = execute(
        &store,
        &damlev_search("x"),
        &PagingOptions { page: 0, limit: 10 },
        &SortOptions::default(),
    );
    assert_eq!(r.unwrap_err(), Error::InvalidInput);
}

#[test]
fn semantic_method_is_not_implemented_never_empty() {
    let mut store = LinkStore::new();
    create(&mut store, "a", false, "t", 1);
    let r = execute(
        &store,
        &SearchOptions {
            query: "a".to_string(),
            method: SearchMethod::Semantic,
        },
        &PagingOptions { page: 1, limit: 10 },
        &SortOptions::default(),
    );
    assert_eq!(r.unwrap_err(), Error::NotImplemented);
}

#[test]
fn damlev_strategy_ranks_by_ascending_distance() {
    let mut store = LinkStore::new();
    create(&mut store, "ab", false, "t1", 1);
    create(&mut store, "b", false, "t2", 2);
    create(&mut store, "zzz", false, "t3", 3);
    let pr: PagingResult = execute(
        &store,
        &damlev_search("b"),
        &PagingOptions { page: 1, limit: 10 },
        &SortOptions::default(),
    )
    .unwrap();
    assert_eq!(sources(&pr.items), vec!["b", "ab", "zzz"]);
    assert_eq!(pr.last_page, 1);
    assert_eq!(pr.page, 1);
    assert_eq!(pr.limit, 10);
}

#[test]
fn relevance_sort_ignores_explicit_conflicting_order() {
    let mut store = LinkStore::new();
    create(&mut store, "ab", false, "t1", 1);
    create(&mut store, "b", false, "t2", 2);
    create(&mut store, "zzz", false, "t3", 3);
    let native = execute(
        &store,
        &damlev_search("b"),
        &PagingOptions { page: 1, limit: 10 },
        &SortOptions {
            sort_by: SortMethod::Relevance,
            order: SortOrder::Descending,
        },
    )
    .unwrap();
    let conflicting = execute(
        &store,
        &damlev_search("b"),
        &PagingOptions { page: 1, limit: 10 },
        &SortOptions {
            sort_by: SortMethod::Relevance,
            order: SortOrder::Ascending,
        },
    )
    .unwrap();
    assert_eq!(sources(&native.items), sources(&conflicting.items));
    assert_eq!(sources(&native.items), vec!["b", "ab", "zzz"]);
}

#[test]
fn distance_ties_break_by_recency_descending_by_default() {
    let mut store = LinkStore::new();
    create(&mut store, "aa", false, "t1", 1);
    create(&mut store, "bb", false, "t2", 2);
    let pr = execute(
        &store,
        &damlev_search("cc"),
        &PagingOptions { page: 1, limit: 10 },
        &SortOptions::default(),
    )
    .unwrap();
    assert_eq!(sources(&pr.items), vec!["bb", "aa"]);
}

#[test]
fn pagination_slices_the_ranked_rows() {
    let mut store = LinkStore::new();
    create(&mut store, "q", false, "t0", 1);
    create(&mut store, "qq", false, "t1", 2);
    create(&mut store, "qqq", false, "t2", 3);
    create(&mut store, "qqqq", false, "t3", 4);
    create(&mut store, "qqqqq", false, "t4", 5);
    let query = QueryLinks {
        paging: PagingOptions { page: 2, limit: 2 },
        search: damlev_search("q"),
    };
    let (rows, last) = query_links(&store, &query, &SortOptions::default()).unwrap();
    assert_eq!(sources(&rows), vec!["qqq", "qqqq"]);
    assert_eq!(last, 3);
    let beyond = QueryLinks {
        paging: PagingOptions { page: 9, limit: 2 },
        search: damlev_search("q"),
    };
    let (rows, last) = query_links(&store, &beyond, &SortOptions::default()).unwrap();
    assert!(rows.is_empty());
    assert_eq!(last, 3);
}

#[test]
fn semantic_routine_pages_the_injected_ranking() {
    let mut store = LinkStore::new();
    let a = create(&mut store, "alpha", false, "ta", 1);
    let b = create(&mut store, "beta", false, "tb", 2);
    let c = create(&mut store, "gamma", false, "tc", 3);
    // nearest first, one id the index still holds for a vanished row
    let ranked = vec![b.id, c.id, 424242, a.id];
    let (rows, last) = query_semantic(
        &store,
        &ranked,
        &PagingOptions { page: 1, limit: 2 },
    )
    .unwrap();
    assert_eq!(sources(&rows), vec!["beta", "gamma"]);
    assert_eq!(last, 2);
    let (rows, _) = query_semantic(
        &store,
        &ranked,
        &PagingOptions { page: 2, limit: 2 },
    )
    .unwrap();
    assert_eq!(sources(&rows), vec!["alpha"]);
    assert_eq!(
        query_semantic(&store, &ranked, &PagingOptions { page: 0, limit: 2 }).unwrap_err(),
        Error::InvalidInput
    );
}

// --- distance ---

#[test]
fn damlev_known_values() {
    assert_eq!(damlev("", "abc"), 3);
    assert_eq!(damlev("abc", ""), 3);
    assert_eq!(damlev("abc", "abc"), 0);
    assert_eq!(damlev("ab", "ba"), 1);
    assert_eq!(damlev("abc", "axc"), 1);
    assert_eq!(damlev("b", "ab"), 1);
    assert_eq!(damlev("ca", "abc"), 3);
}

// --- paging record ---

#[test]
fn paging_record_carries_encoded_state() {
    let paging = PagingOptions { page: 2, limit: 5 };
    let search = damlev_search("widget");
    let sort = SortOptions::default();
    let record = Paging::new(&paging, &search, &sort, 4, "/links", "#links");
    assert_eq!(record.page, 2);
    assert_eq!(record.limit, 5);
    assert_eq!(record.last, 4);
    assert_eq!(record.source, "/links");
    assert_eq!(record.target, "#links");
    assert_eq!(record.query, "?&query=widget&method=DamerauLevenshtein");
    assert_eq!(
        record.full_query(),
        "?&query=widget&method=DamerauLevenshtein&page=2&limit=5"
    );
}

#[test]
fn paging_record_of_default_state_has_bare_query() {
    let paging = PagingOptions::default();
    let search = SearchOptions::default();
    let sort = SortOptions::default();
    let record = Paging::new(&paging, &search, &sort, 0, "/links", "");
    assert_eq!(record.query, "?");
    assert_eq!(record.full_query(), "?");
}
