//! Type registry tests and item helpers.
use gom_bridge::protocol::ConnectionError;
use gom_bridge::registry::{
    clear_all_caches, clear_type_cache, get_all_registered_types, get_type_name,
    is_type_registered, register_type, TypeRegistry,
};
use gom_bridge::value::{CdcValue, Item};

#[test]
fn test_register_type() {
    let mut registry = TypeRegistry::new();
    registry.register_type("test_id".to_string(), "TestType".to_string());

    assert!(registry.is_registered("test_id"));
    assert_eq!(registry.get_type_name("test_id"), Some("TestType".to_string()));
}

#[test]
fn test_unregistered_type() {
    let registry = TypeRegistry::new();

    assert!(!registry.is_registered("unknown"));
    assert_eq!(registry.get_type_name("unknown"), None);
}

#[test]
fn test_global_register_type() {
    let mut registry = TypeRegistry::new();
    register_type(&mut registry, "global_test".to_string(), "GlobalTestType".to_string());

    assert!(is_type_registered(&registry, "global_test"));
    assert_eq!(
        get_type_name(&registry, "global_test"),
        Some("GlobalTestType".to_string())
    );
}

#[test]
fn test_clear_cache() {
    let mut registry = TypeRegistry::new();
    registry.register_type("test_cache".to_string(), "CacheTestType".to_string());

    registry.clear_cache("test_cache");
    // Verify that clear_cache doesn't fail
    assert!(registry.is_registered("test_cache"));
}

#[test]
fn registering_again_replaces_the_name() {
    let mut registry = TypeRegistry::new();
    register_type(&mut registry, "a".to_string(), "One".to_string());
    register_type(&mut registry, "b".to_string(), "Two".to_string());
    register_type(&mut registry, "a".to_string(), "Three".to_string());
    assert_eq!(get_type_name(&registry, "a"), Some("Three".to_string()));
    assert_eq!(get_type_name(&registry, "b"), Some("Two".to_string()));
    let all = get_all_registered_types(&registry);
    assert_eq!(
        all,
        vec![
            ("a".to_string(), "Three".to_string()),
            ("b".to_string(), "Two".to_string()),
        ]
    );
    clear_type_cache(&mut registry, "a");
    clear_all_caches(&mut registry);
    assert!(is_type_registered(&registry, "a"));
}

#[test]
fn item_reply_readings() {
    let a = Item::new("one".to_string(), 2, 5);
    let b = Item::new("one".to_string(), 2, 9);
    let c = Item::new("two".to_string(), 2, 5);

    // equal category and id decide without a connection
    assert_eq!(a.equals(&b, None), Ok(true));
    // different ids ask the server
    assert_eq!(a.equals(&c, Some(Ok(CdcValue::BOOL(false)))), Ok(false));
    assert_eq!(a.equals(&c, None), Err(ConnectionError::Request));

    assert_eq!(a.less_than(&c, Some(Ok(CdcValue::BOOL(true)))), Ok(true));
    assert_eq!(
        a.less_than(&c, Some(Ok(CdcValue::STRING("no".to_string())))),
        Err(ConnectionError::Request)
    );

    assert_eq!(a.len(Some(Ok(CdcValue::INTEGER(3)))), Ok(3));
    assert_eq!(a.is_empty(Some(Ok(CdcValue::INTEGER(0)))), Ok(true));
    assert_eq!(a.is_empty(Some(Ok(CdcValue::INTEGER(2)))), Ok(false));

    // the host-API prefix prints as itself without a connection
    let api = Item::new("gom.app.project".to_string(), 0, -1);
    assert_eq!(api.repr(None), Ok("gom.app.project".to_string()));
    assert_eq!(
        a.repr(Some(Ok(CdcValue::STRING("Item(one)".to_string())))),
        Ok("Item(one)".to_string())
    );

    assert_eq!(
        a.doc(Some(Ok(CdcValue::STRING("docs".to_string())))),
        Ok("docs".to_string())
    );
    assert_eq!(
        a.get("k", None, Some(Ok(CdcValue::INTEGER(1)))),
        Ok(CdcValue::INTEGER(1))
    );
    assert_eq!(a.set_attr("k", Some(Ok(CdcValue::NONE))), Ok(()));
    assert_eq!(
        a.get_item("k", Some(Err(ConnectionError::Break))),
        Err(ConnectionError::Break)
    );
}

#[test]
fn item_params_and_json_forms() {
    let item = Item::new("item123".to_string(), 42, 7);
    let json = item.to_json();
    assert_eq!(json.len(), 3);
    assert_eq!(json[0].0, "id");
    assert_eq!(json[0].1, CdcValue::STRING("item123".to_string()));
    assert_eq!(json[1].0, "category");
    assert_eq!(json[1].1, CdcValue::INTEGER(42));
    assert_eq!(json[2].0, "stage");
    assert_eq!(json[2].1, CdcValue::INTEGER(7));

    let api_json = item.to_api_json();
    assert_eq!(api_json.len(), 3);
    assert_eq!(api_json[0].0, "$type");
    assert_eq!(api_json[0].1, CdcValue::STRING("reference".to_string()));

    let params = item.get_params("area", Some(2));
    assert_eq!(params.len(), 3);
    assert_eq!(params[1].0, "name");
    assert_eq!(params[1].1, CdcValue::STRING("area".to_string()));
    assert_eq!(params[2].0, "index");
    assert_eq!(params[2].1, CdcValue::INTEGER(2));

    let back = Item::from_params(&json).unwrap();
    assert_eq!(back, item);
    let missing = Item::from_params(&Vec::new());
    assert_eq!(missing, Err(ConnectionError::Request));
}
