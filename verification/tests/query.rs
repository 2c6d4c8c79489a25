use geotag_query::cache::CacheContainer;
use geotag_query::index::{GeoTagsTable, TagsTable};
use geotag_query::query::{handle_query, store_result, QueryOptions, QueryStep};
use geotag_query::select::Strategy;
use geotag_query::structs::DataPair;
use geotag_query::{CACHE_LENGTH, ENTRY_COUNT, STRATEGY_BORDER};

fn cat_tables() -> (TagsTable, GeoTagsTable) {
    let mut tags = TagsTable::new();
    tags.insert(String::from("cat"), vec![1, 2, 3]);
    let mut geotags = GeoTagsTable::new();
    geotags.insert(1, 100);
    geotags.insert(2, 300);
    geotags.insert(3, 200);
    (tags, geotags)
}

fn default_options() -> QueryOptions {
    QueryOptions::default()
}

#[test]
fn unknown_tag_is_no_match_without_cache_interaction() {
    let (tags, geotags) = cat_tables();
    let cache = CacheContainer::new(CACHE_LENGTH);
    let step = handle_query(
        &tags,
        &geotags,
        &cache,
        &String::from("dog"),
        &default_options(),
        ENTRY_COUNT,
        STRATEGY_BORDER,
    );
    assert!(matches!(step, QueryStep::NoMatch));
    assert_eq!(cache.len(), 0);
}

#[test]
fn miss_computes_selection_then_hit_serves_stored_content() {
    let (tags, geotags) = cat_tables();
    let mut cache = CacheContainer::new(CACHE_LENGTH);
    let opts = default_options();
    let tag = String::from("cat");

    let step = handle_query(&tags, &geotags, &cache, &tag, &opts, 2, STRATEGY_BORDER);
    let selection = match step {
        QueryStep::Render(sel) => sel,
        _ => panic!("expected a selection to render on a cold cache"),
    };
    assert_eq!(
        selection,
        vec![DataPair { id: 2, time: 300 }, DataPair { id: 3, time: 200 }]
    );

    // The external renderer would turn the selection into content.
    let content = String::from("<rendered cat page>");
    store_result(&mut cache, tag.clone(), content.clone(), &opts);

    // Once the store completes, a later query observes exactly it.
    let step = handle_query(&tags, &geotags, &cache, &tag, &opts, 2, STRATEGY_BORDER);
    match step {
        QueryStep::Cached(c) => assert_eq!(c, content),
        _ => panic!("expected the stored content to be served"),
    }
}

#[test]
fn explicit_strategy_override_does_not_change_the_selection() {
    let (tags, geotags) = cat_tables();
    let cache = CacheContainer::new(CACHE_LENGTH);
    let tag = String::from("cat");
    let expected = vec![DataPair { id: 2, time: 300 }, DataPair { id: 3, time: 200 }];
    for strategy in [None, Some(Strategy::FullSort), Some(Strategy::BoundedSelection)] {
        let opts = QueryOptions { use_cache: true, strategy };
        let step = handle_query(&tags, &geotags, &cache, &tag, &opts, 2, STRATEGY_BORDER);
        match step {
            QueryStep::Render(sel) => assert_eq!(sel, expected),
            _ => panic!("expected a selection to render"),
        }
    }
}

#[test]
fn cache_bypass_skips_read_and_write() {
    let (tags, geotags) = cat_tables();
    let mut cache = CacheContainer::new(CACHE_LENGTH);
    let tag = String::from("cat");
    let cached_opts = default_options();
    store_result(&mut cache, tag.clone(), String::from("stale"), &cached_opts);

    // Bypass reads: the query recomputes although content is cached.
    let bypass = QueryOptions { use_cache: false, strategy: None };
    let step = handle_query(&tags, &geotags, &cache, &tag, &bypass, 2, STRATEGY_BORDER);
    assert!(matches!(step, QueryStep::Render(_)));

    // Bypass writes: storing under bypass leaves the cache as it was.
    store_result(&mut cache, tag.clone(), String::from("fresh"), &bypass);
    assert_eq!(cache.get(&tag), Some(String::from("stale")));
    assert_eq!(cache.len(), 1);
}

#[test]
fn default_options_cache_with_heuristic_strategy() {
    let opts = default_options();
    assert!(opts.use_cache);
    assert!(opts.strategy.is_none());
}

#[test]
fn empty_candidate_list_renders_empty_selection() {
    let mut tags = TagsTable::new();
    tags.insert(String::from("bare"), Vec::new());
    let geotags = GeoTagsTable::new();
    let cache = CacheContainer::new(CACHE_LENGTH);
    let step = handle_query(
        &tags,
        &geotags,
        &cache,
        &String::from("bare"),
        &default_options(),
        ENTRY_COUNT,
        STRATEGY_BORDER,
    );
    match step {
        QueryStep::Render(sel) => assert!(sel.is_empty()),
        _ => panic!("a known tag with no candidates still renders"),
    }
}

#[test]
fn tags_table_insert_lookup_and_replace() {
    let mut tags = TagsTable::new();
    assert!(!tags.contains(&String::from("cat")));
    assert!(tags.lookup(&String::from("cat")).is_none());
    tags.insert(String::from("cat"), vec![1, 2]);
    tags.insert(String::from("dog"), vec![9]);
    assert!(tags.contains(&String::from("cat")));
    assert_eq!(tags.lookup(&String::from("cat")), Some(&vec![1, 2]));
    assert_eq!(tags.lookup(&String::from("dog")), Some(&vec![9]));
    tags.insert(String::from("cat"), vec![4]);
    assert_eq!(tags.lookup(&String::from("cat")), Some(&vec![4]));
    assert_eq!(tags.lookup(&String::from("dog")), Some(&vec![9]));
}

#[test]
fn geotags_table_insert_and_lookup() {
    let mut geotags = GeoTagsTable::new();
    assert_eq!(geotags.lookup(5), None);
    geotags.insert(5, 777);
    geotags.insert(6, 888);
    assert_eq!(geotags.len(), 2);
    assert_eq!(geotags.lookup(5), Some(777));
    assert_eq!(geotags.lookup(6), Some(888));
    geotags.insert(5, 999);
    assert_eq!(geotags.len(), 2);
    assert_eq!(geotags.lookup(5), Some(999));
}
