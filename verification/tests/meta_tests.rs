use radix_router::Meta;
use radix_router::MetaType;

#[test]
fn test_insert() {
    let mut meta = Meta::default();

    assert!(meta.is_empty());
    assert!(meta.insert("name", "foo".into()).is_none());
    assert!(meta.insert("name", "foo".into()).is_some());

    // update value
    assert_eq!(meta.len(), 1);
}

#[test]
fn test_remove() {
    let mut meta = Meta::default();

    assert!(meta.is_empty());
    meta.insert("name", "foo".into());
    assert_eq!(meta.len(), 1);
}

#[test]
fn test_merge_rhs() {
    let mut meta_a = Meta::default();
    let mut meta_b = Meta::default();
    let mut meta_c = Meta::default();

    meta_a.insert("name", "foo".into());
    meta_a.insert("age", 10.into());
    meta_b.insert("isFun", true.into());

    meta_a.merge_rhs(&meta_b);
    meta_c.merge_rhs(&meta_a);

    assert_eq!(meta_a.len(), 3);
    assert_eq!(meta_c.len(), 3);
}

#[test]
fn merge_rhs_overwrites_on_collision() {
    let mut meta_a = Meta::default();
    let mut meta_b = Meta::default();

    meta_a.insert("v", MetaType::Num(1));
    meta_b.insert("v", MetaType::Num(2));
    meta_a.merge_rhs(&meta_b);

    assert_eq!(meta_a.len(), 1);
    assert!(matches!(meta_a.get("v"), Some(MetaType::Num(2))));
}

#[test]
fn remove_returns_removed_value() {
    let mut meta = Meta::default();
    meta.insert("flag", true.into());
    meta.insert("name", "foo".into());

    assert!(matches!(meta.remove("flag"), Some(MetaType::Bol(true))));
    assert!(meta.remove("flag").is_none());
    assert_eq!(meta.len(), 1);
    assert!(matches!(meta.get("name"), Some(MetaType::Str(s)) if s == "foo"));
}
