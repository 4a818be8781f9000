use proxima::content::{Content, ContentError, ContentId, ContentManager, ContentType};

fn location() -> (f64, f64) {
    (37.7749, -122.4194)
}

#[test]
fn test_content_creation() {
    let location = location();
    let content = Content::new(
        "test_user".to_string(),
        ContentType::Text,
        "Hello, world!".as_bytes().to_vec(),
        location,
        vec!["test".to_string()],
    );

    assert_eq!(content.author, "test_user");
    assert_eq!(content.content_type, ContentType::Text);
    assert!(content.is_text());
    assert_eq!(content.as_text(), Some("Hello, world!".to_string()));
}

#[test]
fn test_content_manager() {
    let mut manager = ContentManager::new(1024);
    let location = location();

    let content = Content::new(
        "test_user".to_string(),
        ContentType::Text,
        "Hello, world!".as_bytes().to_vec(),
        location,
        vec![],
    );

    let content_id = manager.publish(content).unwrap();
    assert_eq!(manager.count(), 1);

    let retrieved = manager.get(&content_id).unwrap();
    assert_eq!(retrieved.author, "test_user");
}

#[test]
fn test_content_too_large() {
    let mut manager = ContentManager::new(10);
    let location = location();

    let content = Content::new(
        "test_user".to_string(),
        ContentType::Text,
        "This is a very long message that exceeds the size limit".as_bytes().to_vec(),
        location,
        vec![],
    );

    let result = manager.publish(content);
    assert!(result.is_err());
}

#[test]
fn too_large_reports_sizes_and_keeps_store() {
    let mut manager: ContentManager<(f64, f64)> = ContentManager::new(10);
    let content = Content::new("u".to_string(), ContentType::Text, vec![1u8; 11], location(), vec![]);
    match manager.publish(content) {
        Err(ContentError::ContentTooLarge { size, max_size }) => {
            assert_eq!(size, 11);
            assert_eq!(max_size, 10);
        }
        other => panic!("unexpected {:?}", other),
    }
    assert_eq!(manager.count(), 0);
}

#[test]
fn empty_content_is_refused() {
    let mut manager: ContentManager<(f64, f64)> = ContentManager::new(10);
    let content = Content::new("u".to_string(), ContentType::Text, vec![], location(), vec![]);
    assert!(matches!(manager.publish(content), Err(ContentError::EmptyContent)));
    assert_eq!(manager.count(), 0);
}

#[test]
fn size_limit_is_inclusive() {
    let mut manager: ContentManager<(f64, f64)> = ContentManager::new(10);
    let content = Content::new("u".to_string(), ContentType::Image, vec![7u8; 10], location(), vec![]);
    assert!(manager.publish(content).is_ok());
    assert_eq!(manager.count(), 1);
}

#[test]
fn publish_same_id_replaces() {
    let mut manager: ContentManager<(f64, f64)> = ContentManager::new(100);
    let mut first = Content::new("a".to_string(), ContentType::Text, b"one".to_vec(), location(), vec![]);
    first.id = ContentId::from_string("same".to_string());
    let mut second = Content::new("b".to_string(), ContentType::Text, b"two".to_vec(), location(), vec![]);
    second.id = ContentId::from_string("same".to_string());
    manager.publish(first).unwrap();
    manager.publish(second).unwrap();
    assert_eq!(manager.count(), 1);
    assert_eq!(manager.get(&ContentId::from_string("same".to_string())).unwrap().author, "b");
}

#[test]
fn get_all_and_remove() {
    let mut manager: ContentManager<(f64, f64)> = ContentManager::new(100);
    let a = manager.publish(Content::new("a".to_string(), ContentType::Text, b"1".to_vec(), location(), vec![])).unwrap();
    let b = manager.publish(Content::new("b".to_string(), ContentType::Text, b"2".to_vec(), location(), vec![])).unwrap();
    let mut authors: Vec<String> = manager.get_all().iter().map(|c| c.author.clone()).collect();
    authors.sort();
    assert_eq!(authors, vec!["a".to_string(), "b".to_string()]);

    let removed = manager.remove(&a).unwrap();
    assert_eq!(removed.author, "a");
    assert!(manager.get(&a).is_none());
    assert!(manager.remove(&a).is_none());
    assert_eq!(manager.count(), 1);
    assert!(manager.get(&b).is_some());
}

#[test]
fn as_text_only_for_valid_utf8_text() {
    let image = Content::new("u".to_string(), ContentType::Image, b"abc".to_vec(), location(), vec![]);
    assert!(!image.is_text());
    assert_eq!(image.as_text(), None);
    let broken = Content::new("u".to_string(), ContentType::Text, vec![0xff, 0xfe], location(), vec![]);
    assert_eq!(broken.as_text(), None);
    let accented = Content::new("u".to_string(), ContentType::Text, "héllo".as_bytes().to_vec(), location(), vec![]);
    assert_eq!(accented.as_text(), Some("héllo".to_string()));
    assert_eq!(accented.size(), 6);
}

#[test]
fn content_ids_are_uuids() {
    let id = ContentId::new();
    assert_eq!(id.0.len(), 36);
    assert_eq!(id.0.chars().nth(8), Some('-'));
    assert_eq!(ContentId::from_string("x".to_string()).to_string(), "x");
    assert_ne!(ContentId::new().0, ContentId::new().0);
}
