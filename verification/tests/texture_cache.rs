use hiker_editor::decoration::WidgetPixels;
use hiker_editor::texture_cache::texture_key;
use hiker_editor::texture_cache::TextureCache;
use hiker_editor::texture_cache::TextureKey;

#[test]
fn malformed_buffers_have_no_key() {
    let rgba = vec![0u8; 16];
    let ok = WidgetPixels { rgba: &rgba, width: 2, height: 2 };
    assert_eq!(texture_key(7, &ok), Some(TextureKey { widget_id: 7, width: 2, height: 2 }));
    let short = WidgetPixels { rgba: &rgba[..15], width: 2, height: 2 };
    assert_eq!(texture_key(7, &short), None);
    let empty = WidgetPixels { rgba: &[], width: 0, height: 3 };
    assert_eq!(texture_key(7, &empty), None);
}

#[test]
fn entries_not_requested_this_frame_are_evicted() {
    let mut cache: TextureCache<&str> = TextureCache::default();
    assert!(cache.is_empty());
    let a = TextureKey { widget_id: 1, width: 2, height: 2 };
    let b = TextureKey { widget_id: 2, width: 2, height: 2 };
    cache.begin_frame();
    assert!(!cache.touch(a));
    cache.insert(a, "tex-a");
    cache.insert(b, "tex-b");
    assert_eq!(cache.len(), 2);
    cache.evict_unused();
    assert_eq!(cache.len(), 2);
    cache.begin_frame();
    assert!(cache.touch(b));
    cache.evict_unused();
    assert_eq!(cache.len(), 1);
    assert_eq!(cache.get(b), Some(&"tex-b"));
    assert_eq!(cache.get(a), None);
    cache.begin_frame();
    cache.evict_unused();
    assert!(cache.is_empty());
}

#[test]
fn a_new_size_misses_the_cache() {
    let mut cache: TextureCache<u32> = TextureCache::new();
    cache.insert(TextureKey { widget_id: 1, width: 2, height: 2 }, 10);
    assert!(!cache.touch(TextureKey { widget_id: 1, width: 4, height: 2 }));
    assert!(cache.touch(TextureKey { widget_id: 1, width: 2, height: 2 }));
}
