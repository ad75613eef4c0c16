use caption_cleaner::settings::{
    cached_api_key, checked_api_key, get_api_key, get_effective_api_key, is_api_key_configured, mask_api_key,
    remove_api_key, save_api_key, ApiKeyCache, Settings,
};
use caption_cleaner::CaptionError;

#[test]
fn test_settings_default() {
    let settings = Settings::default();
    assert!(settings.groq_api_key.is_none());
}

#[test]
fn test_is_ai_available_without_app() {
    // Without a stored key and without the environment variable, AI cleaning
    // is unavailable.
    assert!(!is_api_key_configured(&None, &None));
}

#[test]
fn ai_availability_sources() {
    assert!(is_api_key_configured(&Some("k".to_string()), &None));
    assert!(is_api_key_configured(&None, &Some("k".to_string())));
}

#[test]
fn effective_key_prefers_stored() {
    assert_eq!(
        get_effective_api_key(Some("stored".to_string()), Some("env".to_string())),
        Some("stored".to_string())
    );
    assert_eq!(get_effective_api_key(None, Some("env".to_string())), Some("env".to_string()));
    assert_eq!(get_effective_api_key(None, None), None);
}

#[test]
fn cache_read_after_write() {
    let mut cache = ApiKeyCache::new();
    let mut loads = 0;
    let k = get_api_key(&mut cache, || {
        loads += 1;
        Some("from-store".to_string())
    });
    assert_eq!(k, Some("from-store".to_string()));
    // The second read is served from the cache.
    let k = get_api_key(&mut cache, || panic!("store read twice"));
    assert_eq!(k, Some("from-store".to_string()));
    assert_eq!(loads, 1);
    cache.remember("new-key");
    assert_eq!(get_api_key(&mut cache, || None), Some("new-key".to_string()));
    cache.forget();
    assert_eq!(get_api_key(&mut cache, || None), None);
    assert!(cache.key.is_none());
}

#[test]
fn checked_api_key_trims_and_refuses_blank() {
    assert_eq!(checked_api_key("  gsk_abc \n"), Ok("gsk_abc".to_string()));
    let e = checked_api_key("   ").unwrap_err();
    assert_eq!(e, CaptionError::SettingsError("API key cannot be empty".to_string()));
    assert!(checked_api_key("").is_err());
}

#[test]
fn mask_api_key_forms() {
    assert_eq!(mask_api_key("short"), "*****");
    assert_eq!(mask_api_key("123456789012"), "************");
    assert_eq!(mask_api_key("gsk_1234567890abcdef"), "gsk_1234********...cdef");
    assert_eq!(mask_api_key("abcdefgh12345"), "abcdefgh*...2345");
    assert_eq!(mask_api_key("abcdefghXYZ12345"), "abcdefgh****...2345");
    // Multi-byte characters count as one each.
    assert_eq!(mask_api_key("éééé"), "****");
    assert_eq!(mask_api_key("ééééééééXYZ12345"), "éééééééé****...2345");
    assert_eq!(mask_api_key(&"é".repeat(30)), "éééééééé********...éééé");
}

#[test]
fn save_then_read_then_remove() {
    let mut cache = ApiKeyCache::new();
    let mut written = String::new();
    assert_eq!(
        save_api_key(&mut cache, "gsk_new", |k| {
            written = k.to_string();
            Ok(())
        }),
        Ok(())
    );
    assert_eq!(written, "gsk_new");
    assert_eq!(get_api_key(&mut cache, || panic!("store read")), Some("gsk_new".to_string()));

    let failed = save_api_key(&mut cache, "other", |_| {
        Err(CaptionError::SettingsError("Failed to save settings: disk full".to_string()))
    });
    assert!(failed.is_err());
    assert_eq!(cache.key, Some("gsk_new".to_string()));

    assert!(remove_api_key(&mut cache, || Err(CaptionError::SettingsError("x".to_string()))).is_err());
    assert_eq!(cache.key, Some("gsk_new".to_string()));
    assert_eq!(remove_api_key(&mut cache, || Ok(())), Ok(()));
    assert_eq!(get_api_key(&mut cache, || Some("stored".to_string())), Some("stored".to_string()));
}

#[test]
fn cached_key_read_without_store() {
    let mut cache = ApiKeyCache::new();
    assert_eq!(cached_api_key(&cache), None);
    cache.remember("gsk_cached");
    assert_eq!(cached_api_key(&cache), Some("gsk_cached".to_string()));
    cache.forget();
    assert_eq!(cached_api_key(&cache), None);
}
