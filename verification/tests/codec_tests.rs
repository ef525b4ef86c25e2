use golinks::codec::{decode, encode, parse_u64, render_u64};
use golinks::schema::{
    default_editable, default_limit, default_page, PagingOptions, SearchMethod, SearchOptions,
    SortMethod, SortOptions, SortOrder, ViewOptions,
};

fn default_state() -> (PagingOptions, SearchOptions, SortOptions) {
    (
        PagingOptions::default(),
        SearchOptions::default(),
        SortOptions::default(),
    )
}

#[test]
fn defaults_are_canonical() {
    assert_eq!(default_page(), 1);
    assert_eq!(default_limit(), 10);
    assert_eq!(default_editable(), false);
    let (p, se, so) = default_state();
    assert_eq!(p.page, 1);
    assert_eq!(p.limit, 10);
    assert_eq!(se.query, "");
    assert_eq!(se.method, SearchMethod::Semantic);
    assert_eq!(so.sort_by, SortMethod::Relevance);
    assert_eq!(so.order, SortOrder::Descending);
    assert_eq!(ViewOptions::default().editable, false);
}

#[test]
fn encode_default_state_is_empty() {
    let (p, se, so) = default_state();
    assert_eq!(encode(&p, &se, &so), "");
    assert_eq!(p.as_query(), "");
    assert_eq!(se.as_query(), "");
    assert_eq!(so.as_query(), "");
}

#[test]
fn encode_renders_non_default_fields() {
    let p = PagingOptions { page: 2, limit: 5 };
    assert_eq!(p.as_query(), "&page=2&limit=5");
    let se = SearchOptions {
        query: "widget".to_string(),
        method: SearchMethod::DamerauLevenshtein,
    };
    assert_eq!(se.as_query(), "&query=widget&method=DamerauLevenshtein");
    let so = SortOptions {
        sort_by: SortMethod::Alphabetical,
        order: SortOrder::Ascending,
    };
    assert_eq!(so.as_query(), "&sort_by=Alphabetical&order=Ascending");
}

#[test]
fn encode_emits_both_fields_of_a_touched_group() {
    let se = SearchOptions {
        query: "".to_string(),
        method: SearchMethod::DamerauLevenshtein,
    };
    assert_eq!(se.as_query(), "&query=&method=DamerauLevenshtein");
    let p = PagingOptions { page: 1, limit: 25 };
    assert_eq!(p.as_query(), "&page=1&limit=25");
}

#[test]
fn round_trip_of_sample_state() {
    let p = PagingOptions { page: 2, limit: 5 };
    let se = SearchOptions {
        query: "widget".to_string(),
        method: SearchMethod::DamerauLevenshtein,
    };
    let so = SortOptions::default();
    let fragment = encode(&p, &se, &so);
    assert_eq!(fragment, "&query=widget&method=DamerauLevenshtein&page=2&limit=5");
    let (dp, dse, dso) = decode(&fragment);
    assert_eq!(dp, p);
    assert_eq!(dse.query, se.query);
    assert_eq!(dse.method, se.method);
    assert_eq!(dso, so);
}

#[test]
fn round_trip_of_default_state() {
    let (p, se, so) = default_state();
    let (dp, dse, dso) = decode(&encode(&p, &se, &so));
    assert_eq!(dp, p);
    assert_eq!(dse.query, se.query);
    assert_eq!(dse.method, se.method);
    assert_eq!(dso, so);
}

#[test]
fn round_trip_of_full_state() {
    let p = PagingOptions { page: 7, limit: 3 };
    let se = SearchOptions {
        query: "a=b?c".to_string(),
        method: SearchMethod::Semantic,
    };
    let so = SortOptions {
        sort_by: SortMethod::Created,
        order: SortOrder::Ascending,
    };
    let (dp, dse, dso) = decode(&encode(&p, &se, &so));
    assert_eq!(dp, p);
    assert_eq!(dse.query, "a=b?c");
    assert_eq!(dse.method, SearchMethod::Semantic);
    assert_eq!(dso, so);
}

#[test]
fn decode_ignores_unknown_and_malformed_segments() {
    let (p, se, so) = decode("&foo=bar&page=abc&limit=&method=Nearest&noequals");
    assert_eq!(p, PagingOptions::default());
    assert_eq!(se.query, "");
    assert_eq!(se.method, SearchMethod::Semantic);
    assert_eq!(so, SortOptions::default());
}

#[test]
fn decode_reads_each_known_key() {
    let (p, se, so) = decode("&page=4&limit=20&query=team&method=Semantic&sort_by=Updated&order=Ascending");
    assert_eq!(p, PagingOptions { page: 4, limit: 20 });
    assert_eq!(se.query, "team");
    assert_eq!(se.method, SearchMethod::Semantic);
    assert_eq!(so.sort_by, SortMethod::Updated);
    assert_eq!(so.order, SortOrder::Ascending);
}

#[test]
fn numbers_render_and_parse() {
    assert_eq!(render_u64(0), "0");
    assert_eq!(render_u64(42), "42");
    assert_eq!(render_u64(18446744073709551615), "18446744073709551615");
    let s = "18446744073709551615";
    assert_eq!(parse_u64(s, 0, s.len()), Some(u64::MAX));
    let t = "18446744073709551616";
    assert_eq!(parse_u64(t, 0, t.len()), None);
    assert_eq!(parse_u64("12x", 0, 3), None);
    assert_eq!(parse_u64("12x", 0, 2), Some(12));
    assert_eq!(parse_u64("", 0, 0), None);
}

#[test]
fn offset_is_rows_before_page() {
    assert_eq!(PagingOptions { page: 1, limit: 10 }.offset(), 0);
    assert_eq!(PagingOptions { page: 3, limit: 10 }.offset(), 20);
}
