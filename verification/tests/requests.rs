use registry_manager::registry::{
    document_path, push_document_record, registry_documents, Document, Fetched,
};
use registry_manager::requests::{
    branch_url, contents_url, create_commit_request, create_tree_request, read_status, RequestFile,
    Status,
};
use registry_manager::versioning::{
    BuiltWith, ManageTypes, ManagedExtension, Metadata, MetadataExtension, Repository, Versioning,
};

fn record(id: &str, kind: ManageTypes, files: &[(&str, Option<&str>)]) -> ManagedExtension {
    let mut r = ManagedExtension::new(String::from(id), kind);
    for (path, hash) in files {
        r.files.insert(String::from(*path), hash.map(String::from));
    }
    r
}

fn flat(entries: &Vec<RequestFile>) -> Vec<(String, String, String, Option<String>)> {
    entries
        .iter()
        .map(|e| (e.path.clone(), e.mode.clone(), e.ftype.clone(), e.sha.clone()))
        .collect()
}

fn line(path: &str, sha: Option<&str>) -> (String, String, String, Option<String>) {
    (String::from(path), String::from("100644"), String::from("blob"), sha.map(String::from))
}

#[test]
fn tree_request_lists_the_files_of_each_record_in_turn() {
    let records = vec![
        record("B", ManageTypes::Addition, &[("b/index.js", Some("h1")), ("b/a.png", Some("h2"))]),
        record("Empty", ManageTypes::Update, &[]),
        record("A", ManageTypes::Deletion, &[("a/index.js", None)]),
    ];

    let request = create_tree_request(String::from("base-sha"), &records);

    assert_eq!(request.base_tree, "base-sha");
    assert_eq!(
        flat(&request.tree),
        vec![line("b/a.png", Some("h2")), line("b/index.js", Some("h1")), line("a/index.js", None)]
    );
}

#[test]
fn tree_request_of_no_records_is_empty() {
    let request = create_tree_request(String::from("base"), &vec![]);
    assert!(request.tree.is_empty());
    assert_eq!(request.base_tree, "base");
}

#[test]
fn tombstone_becomes_an_entry_without_hash() {
    let records = vec![record("A", ManageTypes::Deletion, &[("0.9/stable/A/index.js", None)])];
    let request = create_tree_request(String::from("base"), &records);
    assert_eq!(request.tree.len(), 1);
    assert_eq!(request.tree[0].path, "0.9/stable/A/index.js");
    assert!(request.tree[0].sha.is_none());
    assert_eq!(request.tree[0].mode, "100644");
    assert_eq!(request.tree[0].ftype, "blob");
}

#[test]
fn commit_request_has_the_head_as_its_only_parent() {
    let request = create_commit_request(
        String::from("message"),
        String::from("tree-sha"),
        String::from("head-sha"),
        String::from("bot"),
        String::from("bot@example.org"),
    );
    assert_eq!(request.message, "message");
    assert_eq!(request.tree, "tree-sha");
    assert_eq!(request.parents, vec![String::from("head-sha")]);
    assert_eq!(request.author.name, "bot");
    assert_eq!(request.author.email, "bot@example.org");
}

#[test]
fn status_is_read_against_the_expected_code() {
    assert_eq!(read_status(200, 200), Status::Success);
    assert_eq!(read_status(201, 201), Status::Success);
    assert_eq!(read_status(200, 201), Status::Failure);
    assert_eq!(read_status(404, 200), Status::NotFound);
    assert_eq!(read_status(404, 404), Status::Success);
    assert_eq!(read_status(500, 200), Status::Failure);
    assert_eq!(read_status(422, 200), Status::Failure);
    assert_eq!(read_status(0, 200), Status::Failure);
}

#[test]
fn addresses_are_put_together_from_their_parts() {
    assert_eq!(
        contents_url("paperback-community/extensions", "0.9/stable/versioning.json", "master"),
        "https://api.github.com/repos/paperback-community/extensions/contents/0.9/stable/versioning.json?ref=master"
    );
    assert_eq!(
        branch_url("paperback-community/extensions", "master"),
        "https://api.github.com/repos/paperback-community/extensions/branches/master"
    );
    assert_eq!(contents_url("", "", ""), "https://api.github.com/repos//contents/?ref=");
}

#[test]
fn documents_lie_under_the_branch() {
    assert_eq!(document_path("0.9/stable", Document::Versioning), "0.9/stable/versioning.json");
    assert_eq!(document_path("0.9/testing", Document::Metadata), "0.9/testing/metadata.json");
}

#[test]
fn document_record_names_one_path_with_its_hash() {
    let mut records = vec![record("A", ManageTypes::Addition, &[("p", Some("h"))])];
    push_document_record(
        &mut records,
        "0.9/stable",
        Document::Versioning,
        ManageTypes::Update,
        String::from("sha-v"),
    );
    push_document_record(
        &mut records,
        "0.9/stable",
        Document::Metadata,
        ManageTypes::Addition,
        String::from("sha-m"),
    );
    assert_eq!(records.len(), 3);
    assert_eq!(records[0].id, "A");
    assert_eq!(records[1].id, "Versioning");
    assert_eq!(records[1].kind, ManageTypes::Update);
    assert_eq!(records[1].files.len(), 1);
    assert_eq!(
        records[1].files.get("0.9/stable/versioning.json"),
        Some(&Some(String::from("sha-v")))
    );
    assert_eq!(records[2].id, "Metadata");
    assert_eq!(records[2].kind, ManageTypes::Addition);
    assert_eq!(
        records[2].files.get("0.9/stable/metadata.json"),
        Some(&Some(String::from("sha-m")))
    );
    let request = create_tree_request(String::from("base"), &records);
    assert_eq!(
        flat(&request.tree),
        vec![
            line("p", Some("h")),
            line("0.9/stable/versioning.json", Some("sha-v")),
            line("0.9/stable/metadata.json", Some("sha-m")),
        ]
    );
}

fn some_catalog() -> Versioning {
    Versioning::new(
        String::from("t"),
        BuiltWith { toolchain: String::from("tc"), types: String::from("0.9.0") },
        Repository { name: String::from("n"), description: String::from("d") },
    )
}

fn some_ledger() -> Metadata {
    let mut ledger = Metadata::new();
    ledger.insert(
        "key",
        String::from("A"),
        MetadataExtension {
            build_time: String::from("t"),
            built_with: BuiltWith { toolchain: String::from("tc"), types: String::from("0.9.0") },
        },
    );
    ledger
}

#[test]
fn documents_that_were_found_are_to_be_updated() {
    let (catalog, ledger, kind) =
        registry_documents(Fetched::Found(some_catalog()), Fetched::Found(some_ledger())).unwrap();
    assert_eq!(kind, ManageTypes::Update);
    assert_eq!(catalog.repository().name, "n");
    assert_eq!(ledger.len(), 1);
}

#[test]
fn missing_catalog_means_a_first_run() {
    let (catalog, ledger, kind) =
        registry_documents(Fetched::NotFound, Fetched::NotFound).unwrap();
    assert_eq!(kind, ManageTypes::Addition);
    assert_eq!(catalog.len(), 0);
    assert_eq!(catalog.build_time(), "");
    assert_eq!(catalog.built_with().types, "");
    assert_eq!(catalog.repository().name, "");
    assert_eq!(ledger.len(), 0);

    let start = registry_documents(Fetched::NotFound, Fetched::Found(some_ledger())).unwrap();
    assert_eq!(start.2, ManageTypes::Addition);
    assert_eq!(start.1.len(), 0);
}

#[test]
fn any_other_outcome_ends_the_run() {
    assert!(registry_documents(Fetched::Failed, Fetched::Found(some_ledger())).is_none());
    assert!(registry_documents(Fetched::Found(some_catalog()), Fetched::NotFound).is_none());
    assert!(registry_documents(Fetched::Found(some_catalog()), Fetched::Failed).is_none());
    assert!(registry_documents(Fetched::Failed, Fetched::Failed).is_none());
}

#[test]
fn ledger_insert_files_the_id_under_the_key() {
    let mut ledger = some_ledger();
    ledger.insert(
        "other",
        String::from("B"),
        MetadataExtension {
            build_time: String::from("t2"),
            built_with: BuiltWith { toolchain: String::from("x"), types: String::from("1.0.0") },
        },
    );
    ledger.insert(
        "key",
        String::from("C"),
        MetadataExtension {
            build_time: String::from("t3"),
            built_with: BuiltWith { toolchain: String::from("y"), types: String::from("1.0.0") },
        },
    );
    assert_eq!(ledger.len(), 2);
    assert_eq!(ledger.key_at(0), "key");
    assert_eq!(ledger.key_at(1), "other");
    assert_eq!(ledger.bucket_at(0).len(), 2);
    assert_eq!(ledger.bucket_at(0).id_at(0), "A");
    assert_eq!(ledger.bucket_at(0).id_at(1), "C");
    assert_eq!(ledger.bucket_at(0).extension_at(1).build_time, "t3");
    assert_eq!(ledger.bucket("other").unwrap().get("B").unwrap().built_with.toolchain, "x");
    assert!(ledger.bucket("none").is_none());
}

#[test]
fn ledger_drops_a_bucket_that_is_put_back_empty() {
    let mut ledger = some_ledger();
    let mut bucket = ledger.take("key");
    assert_eq!(ledger.len(), 0);
    assert_eq!(bucket.len(), 1);
    bucket.remove("A");
    assert!(bucket.is_empty());
    ledger.put("key", bucket);
    assert_eq!(ledger.len(), 0);
    assert!(ledger.bucket("key").is_none());

    let fresh = ledger.take("key");
    assert!(fresh.is_empty());
}
