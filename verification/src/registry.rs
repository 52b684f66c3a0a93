//! The two documents of the registry: where they lie, what is taken for them
//! on a first run, and the change records that publish them.

use vstd::prelude::*;
use crate::text::join;
use crate::versioning::{
    LedgerView, ManageTypes, ManagedExtension, ManagedExtensionView, Metadata, Versioning,
};

verus! {

/// One of the two documents of the registry.
#[derive(Clone, Copy, Debug, PartialEq, Eq, Structural)]
pub enum Document {
    /// The version catalog.
    Versioning,
    /// The provenance ledger.
    Metadata,
}

/// The name under which a document's change record goes.
pub open spec fn document_name(document: Document) -> Seq<char> {
    match document {
        Document::Versioning => "Versioning"@,
        Document::Metadata => "Metadata"@,
    }
}

/// Where a document lies in the registry.
pub open spec fn document_location(branch: Seq<char>, document: Document) -> Seq<char> {
    match document {
        Document::Versioning => branch + "/versioning.json"@,
        Document::Metadata => branch + "/metadata.json"@,
    }
}

/// Where a document lies in the registry.
pub fn document_path(branch: &str, document: Document) -> (r: String)
    ensures
        r@ == document_location(branch@, document),
{
    match document {
        Document::Versioning => join(branch, "/versioning.json"),
        Document::Metadata => join(branch, "/metadata.json"),
    }
}

/// The change record that publishes a document: one path, with the hash of
/// the document's content.
pub open spec fn document_record_view(
    branch: Seq<char>,
    document: Document,
    kind: ManageTypes,
    sha: Seq<char>,
) -> ManagedExtensionView {
    ManagedExtensionView {
        id: document_name(document),
        kind,
        files: Map::<Seq<char>, Option<Seq<char>>>::empty().insert(
            document_location(branch, document),
            Some(sha),
        ),
    }
}

/// Appends the change record that publishes `document` with the content
/// `sha`.
pub fn push_document_record(
    managed_extensions: &mut Vec<ManagedExtension>,
    branch: &str,
    document: Document,
    kind: ManageTypes,
    sha: String,
)
    ensures
        final(managed_extensions)@.len() == old(managed_extensions)@.len() + 1,
        final(managed_extensions)@.last()@ == document_record_view(branch@, document, kind, sha@),
        final(managed_extensions)@.last().files.wf(),
        final(managed_extensions)@.drop_last() == old(managed_extensions)@,
{
    let name = match document {
        Document::Versioning => "Versioning".to_owned(),
        Document::Metadata => "Metadata".to_owned(),
    };
    let mut record = ManagedExtension::new(name, kind);
    record.files.insert(document_path(branch, document), Some(sha));
    proof {
        assert(record@.files =~= Map::<Seq<char>, Option<Seq<char>>>::empty().insert(
            document_location(branch@, document),
            Some(sha@),
        ));
    }
    managed_extensions.push(record);
    proof {
        assert(managed_extensions@.drop_last() =~= old(managed_extensions)@);
    }
}

/// What came of fetching and reading a document.
pub enum Fetched<T> {
    Found(T),
    NotFound,
    Failed,
}

/// Catalog and ledger as a run starts from them, with the kind of change
/// that publishing them will be: both as they were read, to be updated; or,
/// where the registry holds no catalog yet, both empty, to be added. Any
/// other outcome ends the run.
pub fn registry_documents(catalog: Fetched<Versioning>, ledger: Fetched<Metadata>) -> (r: Option<
    (Versioning, Metadata, ManageTypes),
>)
    requires
        catalog matches Fetched::Found(c) ==> c.wf(),
        ledger matches Fetched::Found(l) ==> l.wf(),
    ensures
        match catalog {
            Fetched::Found(c) => match ledger {
                Fetched::Found(l) => r == Some((c, l, ManageTypes::Update)),
                _ => r is None,
            },
            Fetched::NotFound => match r {
                Some((c, l, kind)) => c@ == Versioning::default_view() && l@ == LedgerView::empty()
                    && kind == ManageTypes::Addition,
                None => false,
            },
            Fetched::Failed => r is None,
        },
        match r {
            Some((c, l, _)) => c.wf() && l.wf(),
            None => true,
        },
{
    match catalog {
        Fetched::Found(c) => match ledger {
            Fetched::Found(l) => Some((c, l, ManageTypes::Update)),
            _ => None,
        },
        Fetched::NotFound => Some((Versioning::default(), Metadata::default(), ManageTypes::Addition)),
        Fetched::Failed => None,
    }
}

} // verus!
