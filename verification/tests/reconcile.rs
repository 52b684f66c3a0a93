use registry_manager::reconcile::{toolchain_verdict, version_verdict, UpdateError};
use registry_manager::semver::SemVer;
use registry_manager::versioning::{
    Badges, BuiltWith, Capabilities, Developers, ManageTypes, ManagedExtension, Metadata,
    MetadataExtension, Repository, Source, Versioning,
};

const KEY: &str = "community-extensions";
const NOW: &str = "2024-05-01T12:00:00.000Z";

fn built_with(types: &str) -> BuiltWith {
    BuiltWith { toolchain: String::from("toolchain-1"), types: String::from(types) }
}

fn extension(id: &str, version: &str) -> Source {
    named(id, id, version)
}

fn named(id: &str, name: &str, version: &str) -> Source {
    Source {
        id: String::from(id),
        name: String::from(name),
        description: format!("about {}", id),
        version: String::from(version),
        icon: String::from("icon.png"),
        language: None,
        content_rating: String::from("SAFE"),
        badges: vec![],
        capabilities: None,
        developers: vec![],
    }
}

fn manifest(types: &str, sources: Vec<Source>) -> Versioning {
    let mut v = Versioning::new(
        String::from("2024-04-30T08:00:00.000Z"),
        built_with(types),
        Repository { name: String::new(), description: String::new() },
    );
    for s in sources {
        v.insert(s);
    }
    v
}

fn summary(records: &Vec<ManagedExtension>) -> Vec<(String, ManageTypes)> {
    records.iter().map(|r| (r.id.clone(), r.kind)).collect()
}

fn catalog_ids(catalog: &Versioning) -> Vec<String> {
    (0..catalog.len()).map(|i| catalog.source_at(i).id.clone()).collect()
}

#[test]
fn first_run_adds_the_extension() {
    let mut catalog = Versioning::default();
    let mut ledger = Metadata::default();
    let source = manifest("0.9.0", vec![extension("A", "1.0.0")]);

    let records = catalog.update_at(&mut ledger, &source, KEY, String::from(NOW)).unwrap();

    assert_eq!(summary(&records), vec![(String::from("A"), ManageTypes::Addition)]);
    assert!(records[0].files.is_empty());
    assert_eq!(catalog.len(), 1);
    assert_eq!(catalog.get("A").unwrap().version, "1.0.0");
    assert_eq!(catalog.get("A").unwrap().description, "about A");
    assert_eq!(ledger.len(), 1);
    let bucket = ledger.bucket(KEY).unwrap();
    assert_eq!(bucket.len(), 1);
    let entry = bucket.get("A").unwrap();
    assert_eq!(entry.build_time, "2024-04-30T08:00:00.000Z");
    assert_eq!(entry.built_with.toolchain, "toolchain-1");
    assert_eq!(entry.built_with.types, "0.9.0");
}

#[test]
fn emptied_source_deletes_the_extension_and_its_bucket() {
    let mut catalog = Versioning::default();
    let mut ledger = Metadata::default();
    let source = manifest("0.9.0", vec![extension("A", "1.0.0")]);
    catalog.update_at(&mut ledger, &source, KEY, String::from(NOW)).unwrap();

    let emptied = manifest("0.9.0", vec![]);
    let records = catalog
        .update_at(&mut ledger, &emptied, KEY, String::from("2024-05-02T12:00:00.000Z"))
        .unwrap();

    assert_eq!(summary(&records), vec![(String::from("A"), ManageTypes::Deletion)]);
    assert_eq!(catalog.len(), 0);
    assert!(!catalog.contains("A"));
    assert_eq!(ledger.len(), 0);
    assert!(ledger.bucket(KEY).is_none());
}

#[test]
fn first_change_stamps_the_catalog() {
    let mut catalog = Versioning::default();
    let mut ledger = Metadata::default();
    let source = manifest("0.9.3", vec![extension("A", "1.0.0")]);

    catalog.update_at(&mut ledger, &source, KEY, String::from(NOW)).unwrap();

    assert_eq!(catalog.build_time(), NOW);
    assert_eq!(catalog.built_with().toolchain, "toolchain-1");
    assert_eq!(catalog.built_with().types, "0.9.3");
    assert_eq!(catalog.repository().name, "Paperback Community Extensions (0.9)");
    assert_eq!(
        catalog.repository().description,
        "All extensions from the Paperback Community combined into a single repository."
    );
}

#[test]
fn a_named_registry_keeps_its_name() {
    let mut catalog = Versioning::new(
        String::from("2024-01-01T00:00:00.000Z"),
        built_with("0.9.0"),
        Repository { name: String::from("Mine"), description: String::from("My registry") },
    );
    let mut ledger = Metadata::default();
    let source = manifest("0.9.0", vec![extension("A", "1.0.0")]);

    catalog.update_at(&mut ledger, &source, KEY, String::from(NOW)).unwrap();

    assert_eq!(catalog.repository().name, "Mine");
    assert_eq!(catalog.repository().description, "My registry");
    assert_eq!(catalog.build_time(), NOW);
}

#[test]
fn incompatible_toolchain_is_refused_and_nothing_changes() {
    let mut catalog = Versioning::new(
        String::from("2024-01-01T00:00:00.000Z"),
        built_with("0.9.5"),
        Repository { name: String::from("Mine"), description: String::new() },
    );
    catalog.insert(extension("Old", "1.0.0"));
    let mut ledger = Metadata::default();
    ledger.insert(
        KEY,
        String::from("Old"),
        MetadataExtension { build_time: String::from("t"), built_with: built_with("0.9.5") },
    );
    let source = manifest("0.9.4", vec![extension("A", "1.0.0")]);

    let outcome = catalog.update_at(&mut ledger, &source, KEY, String::from(NOW));

    assert!(matches!(outcome, Err(UpdateError::IncompatibleToolchain)));
    assert_eq!(catalog_ids(&catalog), vec![String::from("Old")]);
    assert_eq!(catalog.build_time(), "2024-01-01T00:00:00.000Z");
    assert_eq!(catalog.built_with().types, "0.9.5");
    assert_eq!(ledger.len(), 1);
    assert!(ledger.bucket(KEY).unwrap().contains("Old"));
    assert_eq!(ledger.bucket(KEY).unwrap().len(), 1);
}

#[test]
fn unreadable_catalog_toolchain_falls_back_on_the_baseline() {
    let mut catalog = Versioning::new(
        String::new(),
        built_with("not a version"),
        Repository { name: String::new(), description: String::new() },
    );
    let mut ledger = Metadata::default();

    let below = manifest("0.8.9", vec![extension("A", "1.0.0")]);
    let refused = catalog.update_at(&mut ledger, &below, KEY, String::from(NOW));
    assert!(matches!(refused, Err(UpdateError::IncompatibleToolchain)));

    let at = manifest("0.9.0", vec![extension("A", "1.0.0")]);
    let accepted = catalog.update_at(&mut ledger, &at, KEY, String::from(NOW)).unwrap();
    assert_eq!(accepted.len(), 1);
}

#[test]
fn unreadable_source_toolchain_is_refused() {
    let mut catalog = Versioning::default();
    let mut ledger = Metadata::default();
    let source = manifest("latest", vec![extension("A", "1.0.0")]);

    let outcome = catalog.update_at(&mut ledger, &source, KEY, String::from(NOW));

    assert!(matches!(outcome, Err(UpdateError::MalformedToolchain)));
    assert_eq!(catalog.len(), 0);
    assert_eq!(ledger.len(), 0);
}

#[test]
fn ledger_id_missing_from_the_catalog_is_refused() {
    let mut catalog = Versioning::default();
    let mut ledger = Metadata::default();
    ledger.insert(
        KEY,
        String::from("A"),
        MetadataExtension { build_time: String::from("t"), built_with: built_with("0.9.0") },
    );
    let source = manifest("0.9.0", vec![extension("A", "2.0.0"), extension("B", "1.0.0")]);

    let outcome = catalog.update_at(&mut ledger, &source, KEY, String::from(NOW));

    assert!(matches!(outcome, Err(UpdateError::InconsistentRegistry)));
    assert_eq!(catalog.len(), 0);
    assert_eq!(ledger.bucket(KEY).unwrap().len(), 1);
}

#[test]
fn unreadable_catalog_version_is_refused() {
    let mut catalog = Versioning::default();
    catalog.insert(extension("A", "one"));
    let mut ledger = Metadata::default();
    ledger.insert(
        KEY,
        String::from("A"),
        MetadataExtension { build_time: String::from("t"), built_with: built_with("0.9.0") },
    );
    let source = manifest("0.9.0", vec![extension("A", "2.0.0")]);

    let outcome = catalog.update_at(&mut ledger, &source, KEY, String::from(NOW));

    assert!(matches!(outcome, Err(UpdateError::InconsistentRegistry)));
    assert_eq!(catalog.get("A").unwrap().version, "one");
}

#[test]
fn second_run_with_the_same_source_changes_nothing() {
    let mut catalog = Versioning::default();
    let mut ledger = Metadata::default();
    let source = manifest("0.9.0", vec![extension("A", "1.0.0"), extension("B", "0.3.1")]);
    let first = catalog.update_at(&mut ledger, &source, KEY, String::from(NOW)).unwrap();
    assert_eq!(first.len(), 2);

    let second = catalog
        .update_at(&mut ledger, &source, KEY, String::from("2025-01-01T00:00:00.000Z"))
        .unwrap();

    assert!(second.is_empty());
    assert_eq!(catalog.build_time(), NOW);
    assert_eq!(catalog_ids(&catalog), vec![String::from("A"), String::from("B")]);
    assert_eq!(ledger.bucket(KEY).unwrap().len(), 2);
}

#[test]
fn newer_version_updates_the_catalog() {
    let mut catalog = Versioning::default();
    let mut ledger = Metadata::default();
    let v1 = manifest("0.9.0", vec![extension("A", "1.0.0")]);
    catalog.update_at(&mut ledger, &v1, KEY, String::from(NOW)).unwrap();

    let mut newer = extension("A", "1.0.1");
    newer.description = String::from("improved");
    let v2 = manifest("0.9.1", vec![newer]);
    let records = catalog
        .update_at(&mut ledger, &v2, KEY, String::from("2024-06-01T00:00:00.000Z"))
        .unwrap();

    assert_eq!(summary(&records), vec![(String::from("A"), ManageTypes::Update)]);
    assert_eq!(catalog.get("A").unwrap().version, "1.0.1");
    assert_eq!(catalog.get("A").unwrap().description, "improved");
    assert_eq!(catalog.build_time(), "2024-06-01T00:00:00.000Z");
    assert_eq!(catalog.built_with().types, "0.9.1");
    // An update leaves the provenance of the extension as it was recorded.
    assert_eq!(ledger.bucket(KEY).unwrap().get("A").unwrap().built_with.types, "0.9.0");
}

#[test]
fn equal_or_older_version_is_passed_over() {
    let mut catalog = Versioning::default();
    let mut ledger = Metadata::default();
    let v1 = manifest("0.9.0", vec![extension("A", "1.2.0"), extension("B", "2.0.0")]);
    catalog.update_at(&mut ledger, &v1, KEY, String::from(NOW)).unwrap();

    let mut same = extension("A", "1.2.0");
    same.description = String::from("changed text, same version");
    let v2 = manifest("0.9.0", vec![same, extension("B", "1.9.9")]);
    let records = catalog
        .update_at(&mut ledger, &v2, KEY, String::from("2024-06-01T00:00:00.000Z"))
        .unwrap();

    assert!(records.is_empty());
    assert_eq!(catalog.get("A").unwrap().description, "about A");
    assert_eq!(catalog.get("B").unwrap().version, "2.0.0");
    assert_eq!(catalog.build_time(), NOW);
}

#[test]
fn unreadable_source_version_counts_as_zero() {
    let mut catalog = Versioning::default();
    let mut ledger = Metadata::default();
    let v1 = manifest("0.9.0", vec![extension("A", "0.0.1")]);
    catalog.update_at(&mut ledger, &v1, KEY, String::from(NOW)).unwrap();

    let v2 = manifest("0.9.0", vec![extension("A", "next")]);
    let records = catalog.update_at(&mut ledger, &v2, KEY, String::from(NOW)).unwrap();

    assert!(records.is_empty());
    assert_eq!(catalog.get("A").unwrap().version, "0.0.1");
}

#[test]
fn release_outranks_its_pre_release() {
    let mut catalog = Versioning::default();
    let mut ledger = Metadata::default();
    let v1 = manifest("0.9.0", vec![extension("A", "1.0.0-beta.2")]);
    catalog.update_at(&mut ledger, &v1, KEY, String::from(NOW)).unwrap();

    let older = manifest("0.9.0", vec![extension("A", "1.0.0-beta.1")]);
    assert!(catalog.update_at(&mut ledger, &older, KEY, String::from(NOW)).unwrap().is_empty());

    let later = manifest("0.9.0", vec![extension("A", "1.0.0-beta.10")]);
    let records = catalog.update_at(&mut ledger, &later, KEY, String::from(NOW)).unwrap();
    assert_eq!(summary(&records), vec![(String::from("A"), ManageTypes::Update)]);

    let release = manifest("0.9.0", vec![extension("A", "1.0.0")]);
    let records = catalog.update_at(&mut ledger, &release, KEY, String::from(NOW)).unwrap();
    assert_eq!(summary(&records), vec![(String::from("A"), ManageTypes::Update)]);
    assert_eq!(catalog.get("A").unwrap().version, "1.0.0");
}

#[test]
fn template_is_never_added() {
    let mut catalog = Versioning::default();
    let mut ledger = Metadata::default();
    let source = manifest(
        "0.9.0",
        vec![named("Content", "ContentTemplate", "1.0.0"), named("Real", "Real", "1.0.0")],
    );

    let records = catalog.update_at(&mut ledger, &source, KEY, String::from(NOW)).unwrap();

    assert_eq!(summary(&records), vec![(String::from("Real"), ManageTypes::Addition)]);
    assert!(!catalog.contains("Content"));
    assert!(!ledger.bucket(KEY).unwrap().contains("Content"));
}

#[test]
fn extension_named_as_a_template_is_passed_over_whatever_its_id() {
    let mut catalog = Versioning::default();
    let mut ledger = Metadata::default();
    let source = manifest("0.9.0", vec![named("Foo", "FooTemplate", "1.0.0")]);

    let records = catalog.update_at(&mut ledger, &source, KEY, String::from(NOW)).unwrap();

    assert!(records.is_empty());
    assert_eq!(catalog.len(), 0);
    assert!(!catalog.contains("Foo"));
    assert_eq!(ledger.len(), 0);
    assert!(ledger.bucket(KEY).is_none());
    assert_eq!(catalog.build_time(), "");
}

#[test]
fn id_that_ends_in_template_is_added_under_a_plain_name() {
    let mut catalog = Versioning::default();
    let mut ledger = Metadata::default();
    let source = manifest("0.9.0", vec![named("FooTemplate", "Foo", "1.0.0")]);

    let records = catalog.update_at(&mut ledger, &source, KEY, String::from(NOW)).unwrap();

    assert_eq!(summary(&records), vec![(String::from("FooTemplate"), ManageTypes::Addition)]);
    assert_eq!(catalog.get("FooTemplate").unwrap().name, "Foo");
    assert!(ledger.bucket(KEY).unwrap().contains("FooTemplate"));
}

#[test]
fn template_in_the_ledger_is_updated_and_deleted_like_any_other() {
    let mut catalog = Versioning::default();
    let mut ledger = Metadata::default();
    let plain = manifest("0.9.0", vec![named("Foo", "Foo", "1.0.0")]);
    catalog.update_at(&mut ledger, &plain, KEY, String::from(NOW)).unwrap();

    let renamed = manifest("0.9.0", vec![named("Foo", "FooTemplate", "1.1.0")]);
    let records = catalog.update_at(&mut ledger, &renamed, KEY, String::from(NOW)).unwrap();
    assert_eq!(summary(&records), vec![(String::from("Foo"), ManageTypes::Update)]);
    assert_eq!(catalog.get("Foo").unwrap().name, "FooTemplate");

    let emptied = manifest("0.9.0", vec![]);
    let records = catalog.update_at(&mut ledger, &emptied, KEY, String::from(NOW)).unwrap();
    assert_eq!(summary(&records), vec![(String::from("Foo"), ManageTypes::Deletion)]);
}

#[test]
fn source_of_templates_only_leaves_everything_untouched() {
    let mut catalog = Versioning::default();
    let mut ledger = Metadata::default();
    let source = manifest(
        "0.9.0",
        vec![named("A", "Template", "1.0.0"), named("B", "Another Template", "2.0.0")],
    );

    let records = catalog.update_at(&mut ledger, &source, KEY, String::from(NOW)).unwrap();

    assert!(records.is_empty());
    assert_eq!(catalog.len(), 0);
    assert_eq!(catalog.build_time(), "");
    assert_eq!(catalog.repository().name, "");
    assert_eq!(ledger.len(), 0);
}

#[test]
fn template_suffix_is_case_sensitive_and_at_the_end() {
    let mut catalog = Versioning::default();
    let mut ledger = Metadata::default();
    let source = manifest(
        "0.9.0",
        vec![
            named("A", "TemplateReader", "1.0.0"),
            named("B", "mytemplate", "1.0.0"),
            named("C", "Template ", "1.0.0"),
            named("D", "emplate", "1.0.0"),
        ],
    );

    let records = catalog.update_at(&mut ledger, &source, KEY, String::from(NOW)).unwrap();

    assert_eq!(
        summary(&records),
        vec![
            (String::from("A"), ManageTypes::Addition),
            (String::from("B"), ManageTypes::Addition),
            (String::from("C"), ManageTypes::Addition),
            (String::from("D"), ManageTypes::Addition),
        ]
    );
}

#[test]
fn records_come_as_additions_then_updates_then_deletions() {
    let mut catalog = Versioning::default();
    let mut ledger = Metadata::default();
    let v1 = manifest(
        "0.9.0",
        vec![
            extension("Keep", "1.0.0"),
            extension("Up1", "1.0.0"),
            extension("Up2", "1.0.0"),
            extension("Gone2", "1.0.0"),
            extension("Gone1", "1.0.0"),
        ],
    );
    catalog.update_at(&mut ledger, &v1, KEY, String::from(NOW)).unwrap();

    let v2 = manifest(
        "0.9.0",
        vec![
            extension("Up2", "1.1.0"),
            extension("New2", "0.1.0"),
            extension("Keep", "1.0.0"),
            extension("Up1", "2.0.0"),
            extension("New1", "0.1.0"),
        ],
    );
    let records = catalog.update_at(&mut ledger, &v2, KEY, String::from(NOW)).unwrap();

    assert_eq!(
        summary(&records),
        vec![
            (String::from("New1"), ManageTypes::Addition),
            (String::from("New2"), ManageTypes::Addition),
            (String::from("Up2"), ManageTypes::Update),
            (String::from("Up1"), ManageTypes::Update),
            (String::from("Gone1"), ManageTypes::Deletion),
            (String::from("Gone2"), ManageTypes::Deletion),
        ]
    );
    assert_eq!(
        catalog_ids(&catalog),
        vec![
            String::from("Keep"),
            String::from("New1"),
            String::from("New2"),
            String::from("Up1"),
            String::from("Up2"),
        ]
    );
    let bucket = ledger.bucket(KEY).unwrap();
    assert_eq!(bucket.len(), 5);
    assert!(!bucket.contains("Gone1"));
    assert!(bucket.contains("New2"));
}

#[test]
fn deletion_keeps_the_bucket_while_entries_remain() {
    let mut catalog = Versioning::default();
    let mut ledger = Metadata::default();
    let v1 = manifest("0.9.0", vec![extension("A", "1.0.0"), extension("B", "1.0.0")]);
    catalog.update_at(&mut ledger, &v1, KEY, String::from(NOW)).unwrap();

    let v2 = manifest("0.9.0", vec![extension("B", "1.0.0")]);
    let records = catalog.update_at(&mut ledger, &v2, KEY, String::from(NOW)).unwrap();

    assert_eq!(summary(&records), vec![(String::from("A"), ManageTypes::Deletion)]);
    assert!(!catalog.contains("A"));
    assert!(catalog.contains("B"));
    let bucket = ledger.bucket(KEY).unwrap();
    assert_eq!(bucket.len(), 1);
    assert!(bucket.contains("B"));
}

#[test]
fn sources_are_told_apart_by_their_key() {
    let mut catalog = Versioning::default();
    let mut ledger = Metadata::default();
    let first = manifest("0.9.0", vec![extension("A", "1.0.0")]);
    catalog.update_at(&mut ledger, &first, "one", String::from(NOW)).unwrap();
    let second = manifest("0.9.0", vec![extension("B", "1.0.0")]);
    let records = catalog.update_at(&mut ledger, &second, "two", String::from(NOW)).unwrap();

    assert_eq!(summary(&records), vec![(String::from("B"), ManageTypes::Addition)]);
    assert_eq!(catalog_ids(&catalog), vec![String::from("A"), String::from("B")]);
    assert_eq!(ledger.len(), 2);
    assert!(ledger.bucket("one").unwrap().contains("A"));
    assert!(ledger.bucket("two").unwrap().contains("B"));

    let emptied = manifest("0.9.0", vec![]);
    let records = catalog.update_at(&mut ledger, &emptied, "two", String::from(NOW)).unwrap();
    assert_eq!(summary(&records), vec![(String::from("B"), ManageTypes::Deletion)]);
    assert_eq!(catalog_ids(&catalog), vec![String::from("A")]);
    assert!(ledger.bucket("two").is_none());
    assert!(ledger.bucket("one").is_some());
}

#[test]
fn payload_is_carried_over_as_it_is() {
    let mut rich = extension("A", "1.0.0");
    rich.language = Some(String::from("en"));
    rich.badges = vec![
        Some(Badges {
            label: String::from("new"),
            text_color: String::from("#fff"),
            background_color: String::from("#000"),
        }),
        None,
    ];
    rich.capabilities = Some(Capabilities::List(vec![1, 2, 3]));
    rich.developers = vec![
        None,
        Some(Developers {
            name: String::from("dev"),
            website: None,
            github: Some(String::from("https://github.com/dev")),
        }),
    ];
    let mut catalog = Versioning::default();
    let mut ledger = Metadata::default();
    let source = manifest("0.9.0", vec![rich]);

    catalog.update_at(&mut ledger, &source, KEY, String::from(NOW)).unwrap();

    let listed = catalog.get("A").unwrap();
    assert_eq!(listed.language.as_deref(), Some("en"));
    assert_eq!(listed.badges.len(), 2);
    assert_eq!(listed.badges[0].as_ref().unwrap().label, "new");
    assert_eq!(listed.badges[0].as_ref().unwrap().background_color, "#000");
    assert!(listed.badges[1].is_none());
    assert!(matches!(&listed.capabilities, Some(Capabilities::List(l)) if l == &vec![1u8, 2, 3]));
    assert!(listed.developers[0].is_none());
    assert_eq!(
        listed.developers[1].as_ref().unwrap().github.as_deref(),
        Some("https://github.com/dev")
    );
}

#[test]
fn update_reads_the_clock_for_the_build_time() {
    let mut catalog = Versioning::default();
    let mut ledger = Metadata::default();
    let source = manifest("0.9.0", vec![extension("A", "1.0.0")]);

    let records = catalog.update(&mut ledger, &source, KEY).unwrap();

    assert_eq!(records.len(), 1);
    let stamp = catalog.build_time().clone();
    assert_eq!(stamp.len(), 24);
    let bytes = stamp.as_bytes();
    assert_eq!(bytes[4], b'-');
    assert_eq!(bytes[7], b'-');
    assert_eq!(bytes[10], b'T');
    assert_eq!(bytes[13], b':');
    assert_eq!(bytes[16], b':');
    assert_eq!(bytes[19], b'.');
    assert_eq!(bytes[23], b'Z');
    assert!(stamp.as_str() > "2024");
}

#[test]
fn update_without_changes_does_not_touch_the_build_time() {
    let mut catalog = Versioning::default();
    let mut ledger = Metadata::default();
    let source = manifest("0.9.0", vec![]);

    let records = catalog.update(&mut ledger, &source, KEY).unwrap();

    assert!(records.is_empty());
    assert_eq!(catalog.build_time(), "");
}

#[test]
fn apply_updates_exactly_the_shared_ids_that_are_named_newer() {
    let mut catalog = Versioning::default();
    let mut ledger = Metadata::default();
    let v1 = manifest("0.9.0", vec![extension("A", "1.0.0"), extension("B", "1.0.0")]);
    catalog.update_at(&mut ledger, &v1, KEY, String::from(NOW)).unwrap();

    let v2 = manifest(
        "0.9.0",
        vec![extension("A", "0.0.1"), extension("B", "9.9.9"), extension("C", "1.0.0")],
    );
    let newer = vec![String::from("A"), String::from("C"), String::from("Elsewhere")];
    let records = catalog.apply(&mut ledger, &v2, KEY, String::from("later"), &newer);

    assert_eq!(
        summary(&records),
        vec![(String::from("C"), ManageTypes::Addition), (String::from("A"), ManageTypes::Update)]
    );
    assert_eq!(catalog.get("A").unwrap().version, "0.0.1");
    assert_eq!(catalog.get("B").unwrap().version, "1.0.0");
    assert_eq!(catalog.get("C").unwrap().version, "1.0.0");
    assert!(!catalog.contains("Elsewhere"));
    assert_eq!(catalog.build_time(), "later");
}

#[test]
fn apply_without_changes_leaves_everything_untouched() {
    let mut catalog = Versioning::default();
    let mut ledger = Metadata::default();
    let v1 = manifest("0.9.0", vec![extension("A", "1.0.0")]);
    catalog.update_at(&mut ledger, &v1, KEY, String::from(NOW)).unwrap();

    let records = catalog.apply(&mut ledger, &v1, KEY, String::from("later"), &vec![]);

    assert!(records.is_empty());
    assert_eq!(catalog.build_time(), NOW);
    assert_eq!(ledger.bucket(KEY).unwrap().len(), 1);
}

#[test]
fn toolchain_verdict_tells_the_refusals_apart() {
    let required = SemVer::new(0, 9, 0);
    assert_eq!(toolchain_verdict(&required, &None), Some(UpdateError::MalformedToolchain));
    assert_eq!(
        toolchain_verdict(&required, &Some(SemVer::new(0, 8, 9))),
        Some(UpdateError::IncompatibleToolchain)
    );
    assert_eq!(toolchain_verdict(&required, &Some(SemVer::new(0, 9, 0))), None);
    assert_eq!(toolchain_verdict(&required, &Some(SemVer::new(1, 0, 0))), None);
}

#[test]
fn version_verdict_asks_for_a_strictly_newer_version() {
    let listed = Some(SemVer::new(1, 2, 3));
    assert_eq!(version_verdict(&listed, &SemVer::new(1, 2, 4)), Ok(true));
    assert_eq!(version_verdict(&listed, &SemVer::new(1, 2, 3)), Ok(false));
    assert_eq!(version_verdict(&listed, &SemVer::new(1, 2, 2)), Ok(false));
    assert_eq!(
        version_verdict(&None, &SemVer::new(1, 2, 4)),
        Err(UpdateError::InconsistentRegistry)
    );
}
