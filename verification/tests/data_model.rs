use jib::Entry;
use jib::Manifest;
use jib::Metadata;
use jib::Resource;
use jib::ResourceId;
use jib::ShapeMismatch;

#[test]
fn downcast_serves_matching_shape() {
    let resource = Resource::new(7, vec![1u8, 2, 3]);
    assert_eq!(resource.shape(), 7);
    assert_eq!(resource.downcast(7).unwrap(), &vec![1u8, 2, 3]);
}

#[test]
fn downcast_rejects_wrong_shape() {
    let resource = Resource::new(7, vec![1u8, 2, 3]);
    assert_eq!(
        resource.downcast(8).unwrap_err(),
        ShapeMismatch { expected: 8, actual: 7 }
    );
}

#[test]
fn resource_ids_compare_by_identity() {
    assert_eq!(ResourceId::from_bits(5), ResourceId::from_bits(5));
    assert_ne!(ResourceId::from_bits(5), ResourceId::from_bits(6));
    assert_ne!(ResourceId::new(), ResourceId::new());
}

#[test]
fn metadata_carries_the_id() {
    let id = ResourceId::from_bits(9);
    let metadata = Metadata { id };
    assert_eq!(metadata.id, id);
}

#[test]
fn manifest_lookup_and_replacement() {
    let mut manifest = Manifest::new();
    let first = ResourceId::from_bits(1);
    let second = ResourceId::from_bits(2);
    manifest.insert(Entry {
        id: first,
        path: "assets/logo.png".to_string(),
        tags: vec!["image".to_string()],
    });
    manifest.insert(Entry {
        id: second,
        path: "assets/theme.css".to_string(),
        tags: vec!["style".to_string()],
    });
    assert_eq!(manifest.len(), 2);
    let hit = manifest.lookup(&"assets/logo.png".to_string()).unwrap();
    assert_eq!(hit.id, first);
    assert!(manifest.lookup(&"assets/missing".to_string()).is_none());

    let replacement = ResourceId::from_bits(3);
    manifest.insert(Entry {
        id: replacement,
        path: "assets/logo.png".to_string(),
        tags: vec!["image".to_string(), "logo".to_string()],
    });
    assert_eq!(manifest.len(), 2);
    let hit = manifest.lookup(&"assets/logo.png".to_string()).unwrap();
    assert_eq!(hit.id, replacement);
    assert_eq!(hit.tags.len(), 2);
}

#[test]
fn manifest_discovers_ids_by_tag() {
    let mut manifest = Manifest::new();
    manifest.insert(Entry {
        id: ResourceId::from_bits(1),
        path: "a".to_string(),
        tags: vec!["image".to_string()],
    });
    manifest.insert(Entry {
        id: ResourceId::from_bits(2),
        path: "b".to_string(),
        tags: vec!["style".to_string()],
    });
    manifest.insert(Entry {
        id: ResourceId::from_bits(3),
        path: "c".to_string(),
        tags: vec!["icon".to_string(), "image".to_string()],
    });
    let images = manifest.ids_with_tag(&"image".to_string());
    assert_eq!(
        images,
        vec![ResourceId::from_bits(1), ResourceId::from_bits(3)]
    );
    let sounds = manifest.ids_with_tag(&"sound".to_string());
    assert!(sounds.is_empty());
}
