use radix_router::get_node_type;
use radix_router::normalize_trailing_slash;
use radix_router::Meta;
use radix_router::MetaType;
use radix_router::RouteType;
use radix_router::Router;

#[test]
fn test_normalize_trailing_slash() {
    assert_eq!(normalize_trailing_slash("", true), "");
    assert_eq!(normalize_trailing_slash("", false), "/");
    assert_eq!(normalize_trailing_slash("/", true), "/");
    assert_eq!(normalize_trailing_slash("/", false), "/");
    assert_eq!(normalize_trailing_slash("/example/", true), "/example/");
    assert_eq!(normalize_trailing_slash("/example/", false), "/example");
}

#[test]
fn test_get_node_type() {
    assert_eq!(get_node_type("example"), RouteType::Normal);
    assert_eq!(get_node_type(""), RouteType::Normal);
    assert_eq!(get_node_type(":name"), RouteType::Placeholder);
    assert_eq!(get_node_type("**"), RouteType::Wildcard);
    assert_eq!(get_node_type("**:name"), RouteType::Wildcard);
}

#[test]
fn classify_star_and_colon_segments() {
    assert_eq!(get_node_type("*"), RouteType::Placeholder);
    assert_eq!(get_node_type(":"), RouteType::Placeholder);
    assert_eq!(get_node_type("*x"), RouteType::Normal);
    assert_eq!(get_node_type("a*"), RouteType::Normal);
    // the two stars alone do not make a wildcard: only bare `**` or the
    // `**:name` form does
    assert_eq!(get_node_type("**name"), RouteType::Normal);
    assert_eq!(get_node_type("**:"), RouteType::Wildcard);
}

#[test]
fn prune_resets_sibling_dynamic_routes() {
    // removal prunes an emptied node and resets its parent's wildcard and
    // placeholder registrations outright, so sibling dynamic routes at that
    // level stop resolving
    let mut router = Router::new();
    router.insert("/s/:a", Meta::default());
    router.insert("/s/:b/c", Meta::default());

    assert!(router.lookup("/s/x/c").is_some());
    assert!(router.remove("/s/:a"));
    assert!(router.lookup("/s/x/c").is_none());
}

#[test]
fn insert_static_route() {
    let mut router = Router::new();

    router.insert("/a/b", Meta::default());
    router.insert("/e/f", Meta::default());
    router.insert("/a/b/c", Meta::default());

    assert_eq!(router.context.static_routes.len(), 3)
}

#[test]
fn lookup_route() {
    let mut router = Router::new();

    router.insert("/a/b", Meta::default());

    assert!(router.lookup("/a/b").is_some());
    assert!(router.lookup("/a/b/c").is_none());
    assert!(router.lookup("/a/c").is_none());
}

#[test]
fn remove_route() {
    let mut router = Router::new();

    router.insert("/a/b", Meta::default());
    router.insert("/c/d", Meta::default());

    assert!(router.remove("/a/b"));
    assert!(router.lookup("/a/b").is_none());
    assert!(router.lookup("/c/d").is_some());
}

#[test]
fn insert_dyn_route() {
    let mut router = Router::new();

    router.insert("/a/:name/:age", Meta::default());

    let res = router.lookup("/a/foo_route/18");

    assert!(res.as_ref().is_some());
    assert!(!res.as_ref().unwrap().is_static);
    assert!(res.as_ref().unwrap().params.is_some());
    assert_eq!(res.as_ref().unwrap().get_param("name"), Some(&"foo_route".to_owned()));
    assert_eq!(res.as_ref().unwrap().get_param("age"), Some(&"18".to_owned()));
}

#[test]
fn insert_dyn_wildcard_route() {
    let mut router = Router::new();

    router.insert("/a/**/b/c", Meta::default());
    router.insert("x/**:name/y/z", Meta::default());

    let res_1 = router.lookup("/a/chicken/18/b/c");
    let res_2 = router.lookup("x/cat/dog/18/y/z");

    assert!(res_1.as_ref().is_some());
    assert!(res_2.as_ref().is_some());
    assert!(res_1.as_ref().unwrap().params.is_some());
    assert!(res_2.as_ref().unwrap().params.is_some());
    assert_eq!(res_1.as_ref().unwrap().get_param("_"), Some(&"chicken/18/b/c".to_owned()));
    assert_eq!(res_2.as_ref().unwrap().get_param("name"), Some(&"cat/dog/18/y/z".to_owned()));
}

#[test]
fn fast_path_hit_carries_metadata() {
    let mut router = Router::new();
    let mut m1 = Meta::default();
    m1.insert("route", MetaType::Num(1));

    router.insert("/a/b", m1);
    router.insert("/e/f", Meta::default());

    let res = router.lookup("/a/b").unwrap();
    assert!(res.is_static);
    assert!(res.params.is_none());
    let meta = res.meta.as_ref().unwrap();
    assert!(matches!(meta.get("route"), Some(MetaType::Num(1))));
}

#[test]
fn remove_of_unknown_path_fails() {
    let mut router = Router::new();
    router.insert("/a/b", Meta::default());
    assert!(!router.remove("/never/inserted"));
    assert!(router.lookup("/a/b").is_some());
}

#[test]
fn reinsert_replaces_metadata_and_keeps_index_size() {
    let mut router = Router::new();
    let mut m1 = Meta::default();
    m1.insert("v", MetaType::Num(1));
    let mut m2 = Meta::default();
    m2.insert("v", MetaType::Num(2));

    router.insert("/a/b", m1);
    let before = router.context.static_routes.len();
    router.insert("/a/b", m2);

    assert_eq!(router.context.static_routes.len(), before);
    let res = router.lookup("/a/b").unwrap();
    assert!(matches!(res.meta.as_ref().unwrap().get("v"), Some(MetaType::Num(2))));
}

#[test]
fn unnamed_placeholders_are_counted() {
    let mut router = Router::new();
    router.insert("/x/*/*", Meta::default());

    let res = router.lookup("/x/p/q").unwrap();
    assert_eq!(res.get_param("_0"), Some(&"p".to_owned()));
    assert_eq!(res.get_param("_1"), Some(&"q".to_owned()));
}

#[test]
fn strict_option_preserves_trailing_slash() {
    let mut router = Router::new();
    router.context.options.strict_trailing_slash = true;
    router.insert("/a/", Meta::default());

    assert!(router.lookup("/a/").unwrap().meta.is_some());
    assert!(router.lookup("/a").unwrap().meta.is_none());

    let mut lax = Router::new();
    lax.insert("/a/", Meta::default());
    assert!(lax.lookup("/a").is_some());
}

#[test]
fn placeholder_depth_disambiguation() {
    let mut router = Router::new();
    router.insert("/a/:x", Meta::default());
    router.insert("/a/:y/c", Meta::default());

    let shallow = router.lookup("/a/one").unwrap();
    assert_eq!(shallow.get_param("x"), Some(&"one".to_owned()));

    let deep = router.lookup("/a/two/c").unwrap();
    assert_eq!(deep.get_param("y"), Some(&"two".to_owned()));
}

#[test]
fn deepest_wildcard_ancestor_wins() {
    let mut router = Router::new();
    let mut m1 = Meta::default();
    m1.insert("which", MetaType::Num(1));
    let mut m2 = Meta::default();
    m2.insert("which", MetaType::Num(2));

    router.insert("/w/**", m1);
    router.insert("/w/a/**", m2);

    let res = router.lookup("/w/a/x").unwrap();
    assert_eq!(res.get_param("_"), Some(&"x".to_owned()));
    assert!(matches!(res.meta.as_ref().unwrap().get("which"), Some(MetaType::Num(2))));
}

#[test]
fn empty_pattern_is_stored_as_root_slash() {
    let mut router = Router::new();
    router.insert("", Meta::default());

    let res = router.lookup("/").unwrap();
    assert!(res.is_static);
}

#[test]
fn empty_segments_are_literal() {
    let mut router = Router::new();
    router.insert("//a", Meta::default());
    assert!(router.lookup("//a").is_some());
    assert!(router.lookup("/a").is_none());
}
