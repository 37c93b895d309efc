use std::collections::HashMap;

use eve_sde_mcp::chain::chain_params;
use eve_sde_mcp::config::is_stale_sde_dir;
use eve_sde_mcp::download::{head_status_ok, needs_download};
use eve_sde_mcp::ingest::{empty_taxonomy, record_category, record_group, record_type, SdeIndex};
use eve_sde_mcp::manufacturing::Origin;
use eve_sde_mcp::map::{bfs_route, find_route, RouteError};
use eve_sde_mcp::market::{market_step, MarketStep, MarketWalk};
use eve_sde_mcp::names::{resolve_query_filter, str_contains, trim};
use eve_sde_mcp::params::ProductionChainParam;
use eve_sde_mcp::types::{
    page, resolve_group_filter, roll_up_groups, search_types, select_types, FindTypesError, FindTypesQuery,
    TaxonomyError, TypeTaxonomy,
};

/// A taxonomy scanned from types, groups and categories lines.
fn taxonomy(types: &[&str], groups: &[&str], categories: &[u64]) -> TypeTaxonomy {
    let mut tx = empty_taxonomy();
    for line in types {
        let key = eve_sde_mcp::scan::extract_key(line.as_bytes()).unwrap();
        record_type(&mut tx, key, line.as_bytes());
    }
    for line in groups {
        let key = eve_sde_mcp::scan::extract_key(line.as_bytes()).unwrap();
        record_group(&mut tx, key, line.as_bytes());
    }
    for &c in categories {
        record_category(&mut tx, c);
    }
    tx
}

fn fixture() -> TypeTaxonomy {
    taxonomy(
        &[
            r#"{"_key":17476,"groupID":463,"metaGroupID":1,"published":true}"#,
            r#"{"_key":17478,"groupID":463,"metaGroupID":2,"published":true}"#,
            r#"{"_key":648,"groupID":28,"published":true}"#,
            r#"{"_key":3386,"groupID":1218,"published":true}"#,
            r#"{"_key":10248,"groupID":100,"metaGroupID":null,"published":false}"#,
            r#"{"_key":651,"groupID":28,"published":true}"#,
        ],
        &[
            r#"{"_key":463,"categoryID":6}"#,
            r#"{"_key":28,"categoryID":6}"#,
            r#"{"_key":1218,"categoryID":16}"#,
            r#"{"_key":100,"categoryID":18}"#,
        ],
        &[6, 16, 18],
    )
}

fn query() -> FindTypesQuery {
    FindTypesQuery {
        type_ids: None,
        group_ids: None,
        category_ids: None,
        meta_group_ids: None,
        published_only: None,
        limit: None,
    }
}

#[test]
fn scanned_taxonomy_keeps_group_lists_ascending() {
    let tx = fixture();
    assert_eq!(tx.group_types.get(&28), Some(&vec![648, 651]));
    assert_eq!(tx.group_types.get(&463), Some(&vec![17476, 17478]));
    assert_eq!(tx.category_groups.get(&6), Some(&vec![28, 463]));
    assert_eq!(tx.type_meta_group.get(&17478), Some(&2));
    assert!(!tx.type_meta_group.contains_key(&10248), "an explicit null is no MetaGroup");
    assert!(tx.published.contains(&648));
    assert!(!tx.published.contains(&10248));
}

#[test]
fn find_types_lists_a_category_through_its_groups() {
    let tx = fixture();
    let mut q = query();
    q.category_ids = Some(vec![6]);
    let sel = select_types(&tx, &q, None, None).unwrap();
    assert_eq!(sel.candidates, vec![648, 651, 17476, 17478]);
    assert_eq!(sel.total_matched, 4);
    assert_eq!(sel.returned, 4);
    assert!(!sel.truncated);
    let groups: Vec<(Option<u64>, u64)> = sel.groups.iter().map(|g| (g.group_id, g.count)).collect();
    assert_eq!(groups, vec![(Some(28), 2), (Some(463), 2)]);
}

#[test]
fn find_types_ands_the_group_and_category_filters() {
    let tx = fixture();
    let mut q = query();
    q.group_ids = Some(vec![463, 1218]);
    q.category_ids = Some(vec![6]);
    let sel = select_types(&tx, &q, None, None).unwrap();
    assert_eq!(sel.candidates, vec![17476, 17478]);
}

#[test]
fn find_types_errors_on_an_undeclared_group_or_category() {
    let tx = fixture();
    let mut q = query();
    q.group_ids = Some(vec![463, 999999]);
    assert!(matches!(select_types(&tx, &q, None, None), Err(FindTypesError::Taxonomy(TaxonomyError::GroupNotFound(999999)))));
    let mut q = query();
    q.category_ids = Some(vec![424242]);
    assert!(matches!(select_types(&tx, &q, None, None), Err(FindTypesError::Taxonomy(TaxonomyError::CategoryNotFound(424242)))));
}

#[test]
fn find_types_with_no_predicate_errors_instead_of_dumping() {
    let tx = fixture();
    let mut q = query();
    q.published_only = Some(true);
    assert!(matches!(select_types(&tx, &q, None, None), Err(FindTypesError::NoPredicate)));
}

#[test]
fn find_types_meta_group_filter_counts_the_unclassified() {
    let tx = fixture();
    let mut q = query();
    q.category_ids = Some(vec![6]);
    q.meta_group_ids = Some(vec![2]);
    let sel = select_types(&tx, &q, None, None).unwrap();
    let matched: Vec<u64> = sel.matched.iter().map(|&i| sel.candidates[i]).collect();
    assert_eq!(matched, vec![17478]);
    assert_eq!(sel.excluded_no_meta_group, Some(2), "648 and 651 carry no MetaGroup");
}

#[test]
fn find_types_published_only_applies_before_the_limit() {
    let tx = fixture();
    let mut q = query();
    q.type_ids = Some(vec![10248, 3386, 648, 5]);
    q.published_only = Some(true);
    q.limit = Some(1);
    let sel = select_types(&tx, &q, None, None).unwrap();
    assert_eq!(sel.candidates, vec![648, 3386, 10248], "undeclared 5 dropped, ascending");
    assert_eq!(sel.total_matched, 2);
    assert_eq!(sel.returned, 1);
    assert!(sel.truncated);
}

#[test]
fn find_types_stands_on_the_attribute_rows_and_narrows_by_name() {
    let tx = fixture();
    let rows = vec![648u64, 651, 17476];
    let sel = select_types(&tx, &query(), Some(&rows), Some(vec![648, 17476])).unwrap();
    assert_eq!(sel.candidates, rows);
    let matched: Vec<u64> = sel.matched.iter().map(|&i| sel.candidates[i]).collect();
    assert_eq!(matched, vec![648, 17476]);
}

#[test]
fn find_types_orders_attribute_rows_by_type_id() {
    let tx = fixture();
    let rows = vec![17476u64, 651, 648, 651];
    let sel = select_types(&tx, &query(), Some(&rows), None).unwrap();
    assert_eq!(sel.candidates, vec![648, 651, 17476]);
    let matched: Vec<u64> = sel.matched.iter().map(|&i| sel.candidates[i]).collect();
    assert_eq!(matched, vec![648, 651, 17476]);
}

#[test]
fn market_walk_reads_the_chain_root_first() {
    let parents = HashMap::from([(10u64, Some(4u64)), (4, Some(2)), (2, None)]);
    let mut walk = MarketWalk::new(10);
    let mut fetched = Vec::new();
    while let Some(id) = walk.next() {
        fetched.push(id);
        assert_ne!(walk.add(parents[&id]), MarketStep::TooDeep);
    }
    assert_eq!(fetched, vec![10, 4, 2]);
    let chain: Vec<u64> = walk.root_first().into_iter().map(|i| fetched[i]).collect();
    assert_eq!(chain, vec![2, 4, 10]);
}

#[test]
fn market_walk_refuses_a_chain_past_the_cap() {
    let mut walk = MarketWalk::new(1000);
    let mut steps = 0;
    let mut last = MarketStep::Done;
    while let Some(id) = walk.next() {
        steps += 1;
        last = walk.add(Some(id + 1));
    }
    assert_eq!(steps, 20);
    assert_eq!(last, MarketStep::TooDeep);
    assert_eq!(walk.add(None), MarketStep::TooDeep);
}

#[test]
fn find_route_refuses_an_undeclared_system_before_the_same_system_shortcut() {
    let systems = names(&[r#"{"_key":1}"#, r#"{"_key":2}"#]);
    let graph = HashMap::from([(1u64, vec![2u64]), (2u64, vec![1u64])]);
    let err = find_route(&systems, &graph, 30000149, 30000149).unwrap_err();
    assert_eq!(err, RouteError::SystemNotFound(30000149));
    assert!(err.message().contains("30000149 not found"));
    assert_eq!(find_route(&systems, &graph, 1, 99).unwrap_err(), RouteError::SystemNotFound(99));
    assert_eq!(find_route(&systems, &graph, 1, 1).unwrap(), vec![1]);
    assert_eq!(find_route(&systems, &graph, 1, 2).unwrap(), vec![1, 2]);
}

#[test]
fn find_route_reports_no_route_between_declared_islands() {
    let systems = names(&[r#"{"_key":1}"#, r#"{"_key":2}"#, r#"{"_key":3}"#]);
    let graph = HashMap::from([(1u64, vec![2u64]), (2u64, vec![1u64])]);
    let err = find_route(&systems, &graph, 1, 3).unwrap_err();
    assert_eq!(err, RouteError::NoRoute);
    assert_eq!(err.message(), "No route found");
}

#[test]
fn resolve_group_filter_collapses_categories_to_groups() {
    let tx = fixture();
    assert_eq!(resolve_group_filter(&tx, &vec![], &vec![]), Ok(None));
    assert_eq!(resolve_group_filter(&tx, &vec![], &vec![6, 16]), Ok(Some(vec![28, 463, 1218])));
    assert_eq!(resolve_group_filter(&tx, &vec![463, 463], &vec![]), Ok(Some(vec![463])));
}

#[test]
fn roll_up_orders_biggest_groups_first() {
    let tx = fixture();
    let g = roll_up_groups(&tx, &vec![17476, 648, 651, 99]);
    let shape: Vec<(Option<u64>, u64)> = g.iter().map(|x| (x.group_id, x.count)).collect();
    assert_eq!(shape, vec![(Some(28), 2), (None, 1), (Some(463), 1)]);
}

#[test]
fn page_clamps_the_limit() {
    assert_eq!(page(None, 150), (100, true));
    assert_eq!(page(Some(5000), 2000), (1000, true));
    assert_eq!(page(Some(10), 3), (3, false));
}

fn names(lines: &[&str]) -> SdeIndex {
    let mut idx = SdeIndex::new();
    for (i, l) in lines.iter().enumerate() {
        idx.index_line(l.as_bytes(), i as u64);
    }
    idx
}

#[test]
fn search_types_scopes_by_category_and_publication() {
    let tx = fixture();
    let idx = names(&[
        r#"{"_key":648,"name":{"en":"Badger"}}"#,
        r#"{"_key":651,"name":{"en":"Hoarder"}}"#,
        r#"{"_key":17476,"name":{"en":"Covetor"}}"#,
        r#"{"_key":10248,"name":{"en":"Mining Drone I"}}"#,
        r#"{"_key":3386,"name":{"en":"Mining"}}"#,
    ]);
    let all = search_types(&tx, &idx.names, "mining", None, None, &vec![], &vec![]).unwrap();
    let ids: Vec<u64> = all.iter().map(|h| h.id).collect();
    assert_eq!(ids, vec![3386, 10248], "exact name first");
    let published = search_types(&tx, &idx.names, "mining", None, Some(true), &vec![], &vec![]).unwrap();
    assert_eq!(published.iter().map(|h| h.id).collect::<Vec<_>>(), vec![3386]);
    let ships = search_types(&tx, &idx.names, "o", Some(10), None, &vec![], &vec![6]).unwrap();
    assert_eq!(ships.iter().map(|h| h.id).collect::<Vec<_>>(), vec![651, 17476]);
    assert_eq!(search_types(&tx, &idx.names, "o", None, None, &vec![7], &vec![]).err(), Some(TaxonomyError::GroupNotFound(7)));
}

#[test]
fn query_filter_reads_a_blank_query_as_none() {
    let idx = names(&[r#"{"_key":1,"name":{"en":"Alpha"}}"#, r#"{"_key":2,"name":{"en":"Beta"}}"#]);
    assert_eq!(resolve_query_filter(&idx.names, None), None);
    assert_eq!(resolve_query_filter(&idx.names, Some(" \t ")), None);
    assert_eq!(resolve_query_filter(&idx.names, Some(" ALP ")), Some(vec![1]));
}

#[test]
fn trim_and_contains_work_on_characters() {
    assert_eq!(trim("\u{3000} jump fatigue \n"), "jump fatigue");
    assert_eq!(trim("   "), "");
    assert!(str_contains("jumpfatiguemultiplier", "fatigue"));
    assert!(str_contains("abc", ""));
    assert!(!str_contains("ab", "abc"));
}

#[test]
fn market_walk_stops_at_a_root_and_at_the_cap() {
    assert_eq!(market_step(1, Some(4)), MarketStep::Fetch(4));
    assert_eq!(market_step(5, None), MarketStep::Done);
    assert_eq!(market_step(19, Some(4)), MarketStep::Fetch(4));
    assert_eq!(market_step(20, Some(4)), MarketStep::TooDeep);
}

#[test]
fn update_check_decisions() {
    assert!(head_status_ok(200));
    assert!(head_status_ok(405));
    assert!(!head_status_ok(404));
    assert!(!head_status_ok(302));
    assert!(!needs_download(false, Some(3333874), 3333874));
    assert!(needs_download(true, Some(3333874), 3333874));
    assert!(needs_download(false, Some(3333873), 3333874));
    assert!(needs_download(false, None, 3333874));
}

#[test]
fn stale_build_dirs_are_the_other_builds() {
    assert!(is_stale_sde_dir(b"sde-3333873", 3333874));
    assert!(!is_stale_sde_dir(b"sde-3333874", 3333874));
    assert!(!is_stale_sde_dir(b"meta.json", 3333874));
}

#[test]
fn bfs_route_finds_a_shortest_path() {
    let graph: HashMap<u64, Vec<u64>> = HashMap::from([
        (1, vec![2, 3]),
        (2, vec![4]),
        (3, vec![4]),
        (4, vec![5]),
    ]);
    let route = bfs_route(&graph, 1, 5).unwrap();
    assert_eq!(route.len(), 4);
    assert_eq!(route[0], 1);
    assert_eq!(route[3], 5);
    assert_eq!(bfs_route(&graph, 3, 3), Some(vec![3]));
    assert_eq!(bfs_route(&graph, 5, 1), None);
}

#[test]
fn chain_params_reads_defaults_and_rejects_unknown_origins() {
    let p = ProductionChainParam {
        product_type_id: 100,
        runs: None,
        build_origins: None,
        buy_type_ids: Some(vec![200]),
        me: None,
        me_overrides: None,
    };
    let c = chain_params(p).unwrap();
    assert_eq!(c.runs, 1);
    assert_eq!(c.me_default, 0);
    assert_eq!(c.build_origins, vec![Origin::Manufactured, Origin::ReactionOutput]);
    assert!(c.buy_type_ids.contains(&200));
    let bad = ProductionChainParam {
        product_type_id: 100,
        runs: Some(2),
        build_origins: Some(vec!["manufactured".to_string(), "mining".to_string()]),
        buy_type_ids: None,
        me: Some(10),
        me_overrides: None,
    };
    assert_eq!(chain_params(bad).err(), Some("mining".to_string()));
}
