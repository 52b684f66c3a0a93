//! Publishing the outcome of a reconciliation: the files of every change
//! record, the two documents, one tree, one commit, and at last the move of
//! the reference. The caller sends the requests, writes out the documents
//! when asked, and hands the answers back.

use vstd::prelude::*;
use crate::config::{commit_author, commit_message, default_message};
use crate::materializer::{
    begin_spec, coherent, registry_branch, registry_repository, step_spec, Materializer,
    MaterializerView, Request, RequestView, Response, ResponseView, Stage,
};
use crate::registry::{document_record_view, push_document_record, Document};
use crate::requests::{
    create_commit_request, create_tree_request, tree_entries, Author, UpdateReferenceRequest,
};
use crate::versioning::{
    optional_text, records_view, records_wf, ManageTypes, ManagedExtension, ManagedExtensionView,
};

verus! {

/// What a run publishes under, and in whose name.
pub struct Settings {
    /// The source repository, with its namespace.
    pub repository: String,
    /// The key of the source repository in the ledger.
    pub key: String,
    /// The branch that the documents and the files lie under.
    pub branch: String,
    /// The message of the commit, where one is given.
    pub message: Option<String>,
    /// The author of the commit, where one is given.
    pub author_name: Option<String>,
    pub author_email: Option<String>,
}

/// How far the publishing has come.
#[derive(Clone, Copy, Debug, PartialEq, Eq, Structural)]
pub enum PublishStage {
    /// The files of a change record are being collected.
    Materializing,
    /// The text of the catalog was asked for.
    CatalogText,
    /// A content object for the catalog was asked for.
    CatalogBlob,
    /// The text of the ledger was asked for.
    LedgerText,
    /// A content object for the ledger was asked for.
    LedgerBlob,
    /// The head of the registry was asked for.
    Head,
    /// The new tree was asked for.
    Tree,
    /// The new commit was asked for.
    Commit,
    /// The move of the reference was asked for.
    Reference,
    /// Everything is published, or there was nothing to publish.
    Done,
    /// A request failed or an answer did not fit; nothing was published.
    Failed,
}

/// The model of a [`Publisher`].
pub struct PublisherView {
    pub stage: PublishStage,
    /// The change records whose files are still to be collected, in order.
    pub waiting: Seq<ManagedExtensionView>,
    /// The work on the record at hand.
    pub work: Option<MaterializerView>,
    /// The records that are complete, in order.
    pub records: Seq<ManagedExtensionView>,
    /// Whether the documents are added or updated.
    pub kind: ManageTypes,
    pub repository: Seq<char>,
    pub branch: Seq<char>,
    pub message: Seq<char>,
    pub author_name: Seq<char>,
    pub author_email: Seq<char>,
    /// The commit that the registry pointed at when its head was read.
    pub head: Seq<char>,
}

/// The publishing is abandoned.
pub open spec fn abandoned(s: PublisherView) -> (PublisherView, RequestView) {
    (PublisherView { stage: PublishStage::Failed, ..s }, RequestView::Failed)
}

/// The work on the next waiting record starts; once none is waiting, the
/// text of the catalog is asked for.
pub open spec fn start_next(s: PublisherView) -> (PublisherView, RequestView) {
    if s.waiting.len() > 0 {
        let started = begin_spec(s.waiting[0], s.repository, s.branch);
        (
            PublisherView {
                stage: PublishStage::Materializing,
                waiting: s.waiting.drop_first(),
                work: Some(started.0),
                ..s
            },
            started.1,
        )
    } else {
        (
            PublisherView { stage: PublishStage::CatalogText, work: None, ..s },
            RequestView::Serialize { document: Document::Versioning },
        )
    }
}

/// The state in which publishing starts, with the first request. Without a
/// change record there is nothing to publish, and nothing is asked for.
pub open spec fn begin_publishing(
    records: Seq<ManagedExtensionView>,
    kind: ManageTypes,
    repository: Seq<char>,
    key: Seq<char>,
    branch: Seq<char>,
    message: Option<Seq<char>>,
    author_name: Option<Seq<char>>,
    author_email: Option<Seq<char>>,
) -> (PublisherView, RequestView) {
    let s = PublisherView {
        stage: PublishStage::Done,
        waiting: records,
        work: None,
        records: Seq::empty(),
        kind,
        repository,
        branch,
        message: match message {
            Some(m) => m,
            None => default_message(key, branch),
        },
        author_name: match author_name {
            Some(n) => n,
            None => "github-actions[bot]"@,
        },
        author_email: match author_email {
            Some(e) => e,
            None => "github-actions[bot]@users.noreply.github.com"@,
        },
        head: Seq::empty(),
    };
    if records.len() == 0 {
        (s, RequestView::Finished)
    } else {
        start_next(s)
    }
}

/// The state after `response` arrived, with the next request.
///
/// The files of the records are collected one record after the other. Then
/// the catalog and the ledger, one after the other, are written out as they
/// stand and get their content objects and their own change records. Then
/// the head of the registry is read, the tree of all records is
/// asked for on top of the head's tree, the commit of that tree with the head
/// as its only parent, and the move of the reference to that commit. An
/// answer that the stage does not wait for abandons the publishing.
pub open spec fn publish_step(s: PublisherView, response: ResponseView) -> (PublisherView, RequestView) {
    match s.stage {
        PublishStage::Done => (s, RequestView::Finished),
        PublishStage::Failed => (s, RequestView::Failed),
        PublishStage::Materializing => match s.work {
            Some(work) => {
                let stepped = step_spec(work, response);
                match stepped.1 {
                    RequestView::Finished => start_next(
                        PublisherView {
                            records: s.records.push(stepped.0.record),
                            work: None,
                            ..s
                        },
                    ),
                    RequestView::Failed => abandoned(
                        PublisherView { work: Some(stepped.0), ..s },
                    ),
                    request => (PublisherView { work: Some(stepped.0), ..s }, request),
                }
            },
            None => abandoned(s),
        },
        PublishStage::CatalogText => match response {
            ResponseView::Text(text) => (
                PublisherView { stage: PublishStage::CatalogBlob, ..s },
                RequestView::CreateBlob { content: text, encoding: "utf-8"@ },
            ),
            _ => abandoned(s),
        },
        PublishStage::CatalogBlob => match response {
            ResponseView::Blob(sha) => (
                PublisherView {
                    stage: PublishStage::LedgerText,
                    records: s.records.push(
                        document_record_view(s.branch, Document::Versioning, s.kind, sha),
                    ),
                    ..s
                },
                RequestView::Serialize { document: Document::Metadata },
            ),
            _ => abandoned(s),
        },
        PublishStage::LedgerText => match response {
            ResponseView::Text(text) => (
                PublisherView { stage: PublishStage::LedgerBlob, ..s },
                RequestView::CreateBlob { content: text, encoding: "utf-8"@ },
            ),
            _ => abandoned(s),
        },
        PublishStage::LedgerBlob => match response {
            ResponseView::Blob(sha) => (
                PublisherView {
                    stage: PublishStage::Head,
                    records: s.records.push(
                        document_record_view(s.branch, Document::Metadata, s.kind, sha),
                    ),
                    ..s
                },
                RequestView::GetBranch {
                    repository: registry_repository(),
                    branch: registry_branch(),
                },
            ),
            _ => abandoned(s),
        },
        PublishStage::Head => match response {
            ResponseView::Branch { commit, tree } => (
                PublisherView { stage: PublishStage::Tree, head: commit, ..s },
                RequestView::CreateTree { base_tree: tree, entries: tree_entries(s.records) },
            ),
            _ => abandoned(s),
        },
        PublishStage::Tree => match response {
            ResponseView::Tree(sha) => (
                PublisherView { stage: PublishStage::Commit, ..s },
                RequestView::CreateCommit {
                    message: s.message,
                    tree: sha,
                    parents: seq![s.head],
                    author_name: s.author_name,
                    author_email: s.author_email,
                },
            ),
            _ => abandoned(s),
        },
        PublishStage::Commit => match response {
            ResponseView::Commit(sha) => (
                PublisherView { stage: PublishStage::Reference, ..s },
                RequestView::UpdateReference { sha },
            ),
            _ => abandoned(s),
        },
        PublishStage::Reference => match response {
            ResponseView::Updated => (
                PublisherView { stage: PublishStage::Done, ..s },
                RequestView::Finished,
            ),
            _ => abandoned(s),
        },
    }
}

/// While files are collected, the work at hand is under way and coherent;
/// afterwards no record waits and none is at hand.
pub open spec fn orderly(s: PublisherView) -> bool {
    match s.stage {
        PublishStage::Materializing => match s.work {
            Some(work) => coherent(work) && work.stage != Stage::Done && work.stage
                != Stage::Failed,
            None => false,
        },
        PublishStage::Done | PublishStage::Failed => true,
        _ => s.waiting.len() == 0 && s.work is None,
    }
}

/// The publishing of one run: what is collected so far, and what is awaited.
pub struct Publisher {
    stage: PublishStage,
    /// The waiting records, the next one last.
    waiting: Vec<ManagedExtension>,
    work: Option<Materializer>,
    records: Vec<ManagedExtension>,
    kind: ManageTypes,
    repository: String,
    branch: String,
    message: String,
    author: Author,
    head: String,
}

/// The model of the work at hand.
pub open spec fn work_view(work: Option<Materializer>) -> Option<MaterializerView> {
    match work {
        Some(m) => Some(m@),
        None => None,
    }
}

impl View for Publisher {
    type V = PublisherView;

    closed spec fn view(&self) -> PublisherView {
        PublisherView {
            stage: self.stage,
            waiting: records_view(self.waiting@.reverse()),
            work: work_view(self.work),
            records: records_view(self.records@),
            kind: self.kind,
            repository: self.repository@,
            branch: self.branch@,
            message: self.message@,
            author_name: self.author.name@,
            author_email: self.author.email@,
            head: self.head@,
        }
    }
}

proof fn lemma_pushed_wf(before: Seq<ManagedExtension>, after: Seq<ManagedExtension>)
    requires
        records_wf(before),
        after.len() == before.len() + 1,
        after.drop_last() == before,
        after.last().files.wf(),
    ensures
        records_wf(after),
{
    assert forall|i: int| 0 <= i < after.len() implies (#[trigger] after[i]).files.wf() by {
        if i < before.len() {
            assert(after[i] == after.drop_last()[i]);
        }
    }
}

/// The same records, the last one first.
fn reversed(records: Vec<ManagedExtension>) -> (r: Vec<ManagedExtension>)
    requires
        records_wf(records@),
    ensures
        records_wf(r@),
        r@ == records@.reverse(),
{
    let mut from = records;
    let mut to: Vec<ManagedExtension> = Vec::new();
    let ghost all = from@;
    while from.len() > 0
        invariant
            from@.len() <= all.len(),
            from@ == all.take(from@.len() as int),
            to@ == all.skip(from@.len() as int).reverse(),
            records_wf(all),
        decreases from@.len(),
    {
        let ghost n = from@.len() as int;
        let ghost before = to@;
        let last = from.pop();
        match last {
            Some(record) => {
                to.push(record);
                proof {
                    assert(from@ =~= all.take(n - 1));
                    assert(to@ =~= all.skip(n - 1).reverse());
                }
            },
            None => {},
        }
    }
    proof {
        assert(all.skip(0) =~= all);
        assert forall|i: int| 0 <= i < to@.len() implies (#[trigger] to@[i]).files.wf() by {
            assert(to@[i] == all[all.len() - 1 - i]);
        }
    }
    to
}

impl Publisher {
    /// Every record is well-formed, and so is the work at hand; and the
    /// publishing is orderly.
    pub closed spec fn wf(&self) -> bool {
        &&& records_wf(self.waiting@)
        &&& records_wf(self.records@)
        &&& self.work matches Some(m) ==> m.wf()
        &&& orderly(self@)
    }

    /// What well-formedness says of the model.
    pub proof fn lemma_wf(&self)
        requires
            self.wf(),
        ensures
            orderly(self@),
    {
    }

    /// How far the publishing has come.
    pub fn stage(&self) -> (r: PublishStage)
        ensures
            r == self@.stage,
    {
        self.stage
    }

    /// The records that are complete.
    pub fn records(&self) -> (r: &Vec<ManagedExtension>)
        ensures
            records_view(r@) == self@.records,
    {
        &self.records
    }

    /// Starts the publishing of `managed_extensions` and of the two
    /// documents, and says what to ask for first.
    pub fn begin(
        managed_extensions: Vec<ManagedExtension>,
        kind: ManageTypes,
        settings: Settings,
    ) -> (r: (Publisher, Request))
        requires
            records_wf(managed_extensions@),
        ensures
            r.0.wf(),
            orderly(r.0@),
            (r.0@, r.1@) == begin_publishing(
                records_view(managed_extensions@),
                kind,
                settings.repository@,
                settings.key@,
                settings.branch@,
                optional_text(settings.message),
                optional_text(settings.author_name),
                optional_text(settings.author_email),
            ),
    {
        let nothing = managed_extensions.len() == 0;
        let message = commit_message(
            settings.message,
            settings.key.as_str(),
            settings.branch.as_str(),
        );
        let author = commit_author(settings.author_name, settings.author_email);
        let mut p = Publisher {
            stage: PublishStage::Done,
            waiting: reversed(managed_extensions),
            work: None,
            records: Vec::new(),
            kind,
            repository: settings.repository,
            branch: settings.branch,
            message,
            author,
            head: String::new(),
        };
        proof {
            assert(managed_extensions@.reverse().reverse() =~= managed_extensions@);
            assert(p@.records =~= Seq::empty());
        }
        if nothing {
            (p, Request::Finished)
        } else {
            let request = p.next();
            (p, request)
        }
    }

    /// Starts the work on the next waiting record, or asks for the text of
    /// the catalog.
    fn next(&mut self) -> (r: Request)
        requires
            records_wf(old(self).waiting@),
            records_wf(old(self).records@),
        ensures
            final(self).wf(),
            (final(self)@, r@) == start_next(
                PublisherView { work: old(self)@.work, stage: old(self)@.stage, ..old(self)@ },
            ),
    {
        let ghost before = self@;
        let ghost held = self.waiting@;
        match self.waiting.pop() {
            Some(record) => {
                proof {
                    assert(before.waiting[0] == record@);
                    assert(records_view(self.waiting@.reverse()) =~= before.waiting.drop_first());
                }
                let (work, request) = Materializer::begin(
                    record,
                    self.repository.clone(),
                    self.branch.clone(),
                );
                self.work = Some(work);
                self.stage = PublishStage::Materializing;
                request
            },
            None => {
                proof {
                    assert(before.waiting.len() == 0);
                }
                self.work = None;
                self.stage = PublishStage::CatalogText;
                Request::Serialize { document: Document::Versioning }
            },
        }
    }

    /// Abandons the publishing.
    fn fail(&mut self) -> (r: Request)
        requires
            records_wf(old(self).waiting@),
            records_wf(old(self).records@),
            old(self).work matches Some(m) ==> m.wf(),
        ensures
            final(self).wf(),
            (final(self)@, r@) == abandoned(old(self)@),
    {
        self.stage = PublishStage::Failed;
        Request::Failed
    }

    /// Takes in the answer to the last request and says what to ask for next.
    /// A failed request ends the publishing, unless it is done already.
    pub fn step(&mut self, response: Response) -> (r: Request)
        requires
            old(self).wf(),
        ensures
            final(self).wf(),
            orderly(final(self)@),
            (final(self)@, r@) == publish_step(old(self)@, response@),
            response@ is Failed && old(self)@.stage != PublishStage::Done ==> r@ is Failed
                && final(self)@.stage == PublishStage::Failed,
    {
        match self.stage {
            PublishStage::Done => Request::Finished,
            PublishStage::Failed => Request::Failed,
            PublishStage::Materializing => match self.work.take() {
                Some(mut work) => {
                    let ghost before = work@;
                    let request = work.step(response);
                    match request {
                        Request::Finished => {
                            let ghost complete = work@;
                            match work.finish() {
                                Some(record) => {
                                    let ghost so_far = records_view(self.records@);
                                    self.records.push(record);
                                    proof {
                                        assert(records_view(self.records@) =~= so_far.push(
                                            complete.record,
                                        ));
                                    }
                                    self.next()
                                },
                                None => self.fail(),
                            }
                        },
                        Request::Failed => {
                            self.work = Some(work);
                            self.fail()
                        },
                        other => {
                            self.work = Some(work);
                            other
                        },
                    }
                },
                None => self.fail(),
            },
            PublishStage::CatalogText => match response {
                Response::Text(text) => {
                    self.stage = PublishStage::CatalogBlob;
                    Request::CreateBlob { content: text, encoding: "utf-8".to_owned() }
                },
                _ => self.fail(),
            },
            PublishStage::CatalogBlob => match response {
                Response::Blob(blob) => {
                    let ghost so_far = records_view(self.records@);
                    push_document_record(
                        &mut self.records,
                        self.branch.as_str(),
                        Document::Versioning,
                        self.kind,
                        blob.sha,
                    );
                    self.stage = PublishStage::LedgerText;
                    proof {
                        lemma_pushed_wf(old(self).records@, self.records@);
                        assert(records_view(self.records@) =~= so_far.push(
                            document_record_view(
                                self.branch@,
                                Document::Versioning,
                                self.kind,
                                blob.sha@,
                            ),
                        ));
                    }
                    Request::Serialize { document: Document::Metadata }
                },
                _ => self.fail(),
            },
            PublishStage::LedgerText => match response {
                Response::Text(text) => {
                    self.stage = PublishStage::LedgerBlob;
                    Request::CreateBlob { content: text, encoding: "utf-8".to_owned() }
                },
                _ => self.fail(),
            },
            PublishStage::LedgerBlob => match response {
                Response::Blob(blob) => {
                    let ghost so_far = records_view(self.records@);
                    push_document_record(
                        &mut self.records,
                        self.branch.as_str(),
                        Document::Metadata,
                        self.kind,
                        blob.sha,
                    );
                    self.stage = PublishStage::Head;
                    proof {
                        lemma_pushed_wf(old(self).records@, self.records@);
                        assert(records_view(self.records@) =~= so_far.push(
                            document_record_view(
                                self.branch@,
                                Document::Metadata,
                                self.kind,
                                blob.sha@,
                            ),
                        ));
                    }
                    Request::GetBranch {
                        repository: "paperback-community/extensions".to_owned(),
                        branch: "master".to_owned(),
                    }
                },
                _ => self.fail(),
            },
            PublishStage::Head => match response {
                Response::Branch(head) => {
                    self.head = head.commit.sha;
                    self.stage = PublishStage::Tree;
                    Request::CreateTree(create_tree_request(head.commit.commit.tree.sha, &self.records))
                },
                _ => self.fail(),
            },
            PublishStage::Tree => match response {
                Response::Tree(tree) => {
                    self.stage = PublishStage::Commit;
                    let request = create_commit_request(
                        self.message.clone(),
                        tree.sha,
                        self.head.clone(),
                        self.author.name.clone(),
                        self.author.email.clone(),
                    );
                    proof {
                        assert(Seq::new(request.parents@.len(), |i: int| request.parents@[i]@)
                            =~= seq![self.head@]);
                    }
                    Request::CreateCommit(request)
                },
                _ => self.fail(),
            },
            PublishStage::Commit => match response {
                Response::Commit(commit) => {
                    self.stage = PublishStage::Reference;
                    Request::UpdateReference(UpdateReferenceRequest { sha: commit.sha })
                },
                _ => self.fail(),
            },
            PublishStage::Reference => match response {
                Response::Updated => {
                    self.stage = PublishStage::Done;
                    Request::Finished
                },
                _ => self.fail(),
            },
        }
    }
}

} // verus!
