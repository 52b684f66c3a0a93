//! Filling in the files of a change record: which request comes next, and
//! what each answer adds to the record. The caller sends the requests and
//! hands the answers back.

use vstd::prelude::*;
use crate::reconcile::stamped;
use crate::registry::Document;
use crate::requests::{
    entries_view, CreateBlobResponse, CreateCommitRequest, CreateCommitResponse,
    CreateTreeRequest, CreateTreeResponse, FileOutputFormat, GetBranchResponse,
    GetContentDirectoryEntryResponse, RequestFileView, UpdateReferenceRequest,
};
use crate::text::{join3, text_eq};
use crate::text_map::lemma_take_members;
use crate::versioning::{ManageTypes, ManagedExtension, ManagedExtensionView};

verus! {

/// How far the work on a record has come.
#[derive(Clone, Copy, Debug, PartialEq, Eq, Structural)]
pub enum Stage {
    /// The entry script was asked for.
    Script,
    /// A content object for the entry script was asked for.
    ScriptBlob,
    /// The listing of the static assets was asked for.
    Listing,
    /// The next static asset was asked for.
    Asset,
    /// A content object for that asset was asked for.
    AssetBlob,
    /// The record is complete.
    Done,
    /// A request failed or an answer did not fit; the run is over.
    Failed,
}

/// What the caller is to do next.
pub enum Request {
    GetFile { repository: String, path: String, branch: String, format: FileOutputFormat },
    GetDirectory { repository: String, path: String, branch: String },
    CreateBlob { content: String, encoding: String },
    /// The text of one of the two documents, as it stands now.
    Serialize { document: Document },
    GetBranch { repository: String, branch: String },
    CreateTree(CreateTreeRequest),
    CreateCommit(CreateCommitRequest),
    UpdateReference(UpdateReferenceRequest),
    /// Nothing: the work is complete.
    Finished,
    /// Nothing: the run is to be abandoned.
    Failed,
}

/// The model of [`Request`].
pub enum RequestView {
    GetFile { repository: Seq<char>, path: Seq<char>, branch: Seq<char>, format: FileOutputFormat },
    GetDirectory { repository: Seq<char>, path: Seq<char>, branch: Seq<char> },
    CreateBlob { content: Seq<char>, encoding: Seq<char> },
    Serialize { document: Document },
    GetBranch { repository: Seq<char>, branch: Seq<char> },
    CreateTree { base_tree: Seq<char>, entries: Seq<RequestFileView> },
    CreateCommit {
        message: Seq<char>,
        tree: Seq<char>,
        parents: Seq<Seq<char>>,
        author_name: Seq<char>,
        author_email: Seq<char>,
    },
    UpdateReference { sha: Seq<char> },
    Finished,
    Failed,
}

impl View for Request {
    type V = RequestView;

    open spec fn view(&self) -> RequestView {
        match self {
            Request::GetFile { repository, path, branch, format } => RequestView::GetFile {
                repository: repository@,
                path: path@,
                branch: branch@,
                format: *format,
            },
            Request::GetDirectory { repository, path, branch } => RequestView::GetDirectory {
                repository: repository@,
                path: path@,
                branch: branch@,
            },
            Request::CreateBlob { content, encoding } => RequestView::CreateBlob {
                content: content@,
                encoding: encoding@,
            },
            Request::Serialize { document } => RequestView::Serialize { document: *document },
            Request::GetBranch { repository, branch } => RequestView::GetBranch {
                repository: repository@,
                branch: branch@,
            },
            Request::CreateTree(request) => RequestView::CreateTree {
                base_tree: request.base_tree@,
                entries: entries_view(request.tree@),
            },
            Request::CreateCommit(request) => RequestView::CreateCommit {
                message: request.message@,
                tree: request.tree@,
                parents: Seq::new(request.parents@.len(), |i: int| request.parents@[i]@),
                author_name: request.author.name@,
                author_email: request.author.email@,
            },
            Request::UpdateReference(request) => RequestView::UpdateReference { sha: request.sha@ },
            Request::Finished => RequestView::Finished,
            Request::Failed => RequestView::Failed,
        }
    }
}

/// What came back for the last request.
pub enum Response {
    /// The content of a file, or a document, as text.
    Text(String),
    /// The content of a file as it is stored.
    Bytes(Vec<u8>),
    /// The entries of a directory.
    Directory(Vec<GetContentDirectoryEntryResponse>),
    /// The content object that was created.
    Blob(CreateBlobResponse),
    /// The head of a branch.
    Branch(GetBranchResponse),
    /// The tree that was created.
    Tree(CreateTreeResponse),
    /// The commit that was created.
    Commit(CreateCommitResponse),
    /// The reference was moved.
    Updated,
    /// What was asked for does not exist.
    NotFound,
    /// The request failed.
    Failed,
}

/// The model of one entry of a directory listing.
pub struct EntryView {
    pub etype: Seq<char>,
    pub path: Seq<char>,
}

/// The model of [`Response`].
pub enum ResponseView {
    Text(Seq<char>),
    Bytes(Seq<u8>),
    Directory(Seq<EntryView>),
    Blob(Seq<char>),
    Branch { commit: Seq<char>, tree: Seq<char> },
    Tree(Seq<char>),
    Commit(Seq<char>),
    Updated,
    NotFound,
    Failed,
}

/// The models of the entries of a listing.
pub open spec fn listing_view(entries: Seq<GetContentDirectoryEntryResponse>) -> Seq<EntryView> {
    Seq::new(entries.len(), |i: int| EntryView { etype: entries[i].etype@, path: entries[i].path@ })
}

impl View for Response {
    type V = ResponseView;

    open spec fn view(&self) -> ResponseView {
        match self {
            Response::Text(t) => ResponseView::Text(t@),
            Response::Bytes(b) => ResponseView::Bytes(b@),
            Response::Directory(d) => ResponseView::Directory(listing_view(d@)),
            Response::Blob(b) => ResponseView::Blob(b.sha@),
            Response::Branch(b) => ResponseView::Branch {
                commit: b.commit.sha@,
                tree: b.commit.commit.tree.sha@,
            },
            Response::Tree(t) => ResponseView::Tree(t.sha@),
            Response::Commit(c) => ResponseView::Commit(c.sha@),
            Response::Updated => ResponseView::Updated,
            Response::NotFound => ResponseView::NotFound,
            Response::Failed => ResponseView::Failed,
        }
    }
}

/// The standard base64 text of a byte sequence, with padding.
pub uninterp spec fn base64_standard(bytes: Seq<u8>) -> Seq<char>;

/// A byte sequence is short enough for its base64 text to fit in memory.
pub open spec fn encodable(bytes: Seq<u8>) -> bool {
    bytes.len() / 3 < usize::MAX / 8
}

/// Calls `encode` of the base64 crate's `Engine` on its `BASE64_STANDARD`
/// engine. Trusted: the text that comes back is the standard base64 text of
/// the bytes, named by [`base64_standard`]; the call allocates four
/// characters for every three bytes, which the bound on the length keeps in
/// range.
#[verifier::external_body]
fn encode_base64(bytes: &Vec<u8>) -> (r: String)
    requires
        encodable(bytes@),
    ensures
        r@ == base64_standard(bytes@),
{
    base64::Engine::encode(&base64::prelude::BASE64_STANDARD, bytes)
}

/// The registry: the repository that holds the catalog, the ledger and the
/// published files.
pub open spec fn registry_repository() -> Seq<char> {
    "paperback-community/extensions"@
}

/// The branch of the registry that is read and moved.
pub open spec fn registry_branch() -> Seq<char> {
    "master"@
}

/// The branch on which a source repository publishes.
pub open spec fn publishing_branch() -> Seq<char> {
    "gh-pages"@
}

/// Where the entry script of the extension `id` lies.
pub open spec fn script_path(branch: Seq<char>, id: Seq<char>) -> Seq<char> {
    branch + "/"@ + id + "/index.js"@
}

/// Where the static assets of the extension `id` lie.
pub open spec fn static_path(branch: Seq<char>, id: Seq<char>) -> Seq<char> {
    branch + "/"@ + id + "/static"@
}

/// The paths of the regular files of a listing, in its order.
pub open spec fn regular_files(entries: Seq<EntryView>) -> Seq<Seq<char>>
    decreases entries.len(),
{
    if entries.len() == 0 {
        Seq::empty()
    } else if entries.last().etype == "file"@ {
        regular_files(entries.drop_last()).push(entries.last().path)
    } else {
        regular_files(entries.drop_last())
    }
}

/// The model of a [`Materializer`].
pub struct MaterializerView {
    pub record: ManagedExtensionView,
    pub stage: Stage,
    /// The static assets to fetch, in the order of the listing.
    pub assets: Seq<Seq<char>>,
    /// How many of them have their content object.
    pub next: nat,
    pub repository: Seq<char>,
    pub branch: Seq<char>,
}

/// The state with `path` mapped to `hash` in the record's files.
pub open spec fn with_file(s: MaterializerView, path: Seq<char>, hash: Option<Seq<char>>) -> MaterializerView {
    MaterializerView {
        record: ManagedExtensionView { files: s.record.files.insert(path, hash), ..s.record },
        ..s
    }
}

/// The run is abandoned.
pub open spec fn failed(s: MaterializerView) -> (MaterializerView, RequestView) {
    (MaterializerView { stage: Stage::Failed, ..s }, RequestView::Failed)
}

/// The next static asset is asked for; the record is complete where none is
/// left.
pub open spec fn fetch_next(s: MaterializerView) -> (MaterializerView, RequestView) {
    if s.next < s.assets.len() {
        (
            MaterializerView { stage: Stage::Asset, ..s },
            RequestView::GetFile {
                repository: s.repository,
                path: s.assets[s.next as int],
                branch: publishing_branch(),
                format: FileOutputFormat::BASE64,
            },
        )
    } else {
        (MaterializerView { stage: Stage::Done, ..s }, RequestView::Finished)
    }
}

/// The static assets are known to be `paths`. A deletion marks each of them
/// for removal and is complete; an addition or update goes on to fetch them.
pub open spec fn listed(s: MaterializerView, paths: Seq<Seq<char>>) -> (MaterializerView, RequestView) {
    if s.record.kind == ManageTypes::Deletion {
        (
            MaterializerView {
                record: ManagedExtensionView {
                    files: stamped(s.record.files, paths.to_set(), None),
                    ..s.record
                },
                stage: Stage::Done,
                ..s
            },
            RequestView::Finished,
        )
    } else {
        fetch_next(MaterializerView { assets: paths, next: 0, ..s })
    }
}

/// The state in which the work on `record` starts, with the first request. A
/// deletion marks the entry script for removal without looking for it and
/// asks the registry which static assets it still holds; an addition or
/// update asks the source for the entry script.
pub open spec fn begin_spec(record: ManagedExtensionView, repository: Seq<char>, branch: Seq<char>) -> (
    MaterializerView,
    RequestView,
) {
    let s = MaterializerView {
        record,
        stage: Stage::Script,
        assets: Seq::empty(),
        next: 0,
        repository,
        branch,
    };
    if record.kind == ManageTypes::Deletion {
        (
            MaterializerView {
                stage: Stage::Listing,
                ..with_file(s, script_path(branch, record.id), None)
            },
            RequestView::GetDirectory {
                repository: registry_repository(),
                path: static_path(branch, record.id),
                branch: registry_branch(),
            },
        )
    } else {
        (
            s,
            RequestView::GetFile {
                repository,
                path: script_path(branch, record.id),
                branch: publishing_branch(),
                format: FileOutputFormat::UTF8,
            },
        )
    }
}

/// The state after `response` arrived, with the next request. An answer that
/// the stage does not wait for abandons the run; a complete or abandoned
/// record stays as it is.
pub open spec fn step_spec(s: MaterializerView, response: ResponseView) -> (MaterializerView, RequestView) {
    match (s.stage, response) {
        (Stage::Done, _) => (s, RequestView::Finished),
        (Stage::Failed, _) => (s, RequestView::Failed),
        (Stage::Script, ResponseView::Text(text)) => (
            MaterializerView { stage: Stage::ScriptBlob, ..s },
            RequestView::CreateBlob { content: text, encoding: "utf-8"@ },
        ),
        (Stage::ScriptBlob, ResponseView::Blob(sha)) => (
            MaterializerView {
                stage: Stage::Listing,
                ..with_file(s, script_path(s.branch, s.record.id), Some(sha))
            },
            RequestView::GetDirectory {
                repository: s.repository,
                path: static_path(s.branch, s.record.id),
                branch: publishing_branch(),
            },
        ),
        (Stage::Listing, ResponseView::Directory(entries)) => listed(s, regular_files(entries)),
        (Stage::Listing, ResponseView::NotFound) => listed(s, Seq::empty()),
        (Stage::Asset, ResponseView::Bytes(bytes)) => if encodable(bytes) {
            (
                MaterializerView { stage: Stage::AssetBlob, ..s },
                RequestView::CreateBlob { content: base64_standard(bytes), encoding: "base64"@ },
            )
        } else {
            failed(s)
        },
        (Stage::AssetBlob, ResponseView::Blob(sha)) => fetch_next(
            MaterializerView {
                next: s.next + 1,
                ..with_file(s, s.assets[s.next as int], Some(sha))
            },
        ),
        _ => failed(s),
    }
}

/// A deletion never waits for a file or a content object, and while an asset
/// is under way it is one of the listed ones.
pub open spec fn coherent(s: MaterializerView) -> bool {
    &&& s.next <= s.assets.len()
    &&& (s.stage == Stage::Asset || s.stage == Stage::AssetBlob) ==> s.next < s.assets.len()
    &&& s.record.kind == ManageTypes::Deletion ==> s.stage == Stage::Listing || s.stage
        == Stage::Done || s.stage == Stage::Failed
}

/// The work on one change record: the record as far as it is filled, and what
/// is awaited.
pub struct Materializer {
    record: ManagedExtension,
    stage: Stage,
    assets: Vec<String>,
    next: usize,
    repository: String,
    branch: String,
}

impl View for Materializer {
    type V = MaterializerView;

    closed spec fn view(&self) -> MaterializerView {
        MaterializerView {
            record: self.record@,
            stage: self.stage,
            assets: Seq::new(self.assets@.len(), |i: int| self.assets@[i]@),
            next: self.next as nat,
            repository: self.repository@,
            branch: self.branch@,
        }
    }
}

/// The path of the entry script of `id`.
fn script_path_of(branch: &str, id: &str) -> (r: String)
    ensures
        r@ == script_path(branch@, id@),
{
    let mut r = join3(branch, "/", id);
    r.append("/index.js");
    r
}

/// The path of the static assets of `id`.
fn static_path_of(branch: &str, id: &str) -> (r: String)
    ensures
        r@ == static_path(branch@, id@),
{
    let mut r = join3(branch, "/", id);
    r.append("/static");
    r
}

/// The paths of the regular files of a listing.
fn regular_files_of(entries: &Vec<GetContentDirectoryEntryResponse>) -> (r: Vec<String>)
    ensures
        Seq::new(r@.len(), |i: int| r@[i]@) == regular_files(listing_view(entries@)),
{
    let ghost listing = listing_view(entries@);
    let mut out: Vec<String> = Vec::new();
    let mut i: usize = 0;
    proof {
        assert(listing.take(0) =~= Seq::empty());
        assert(Seq::new(out@.len(), |i: int| out@[i]@) =~= regular_files(listing.take(0)));
    }
    while i < entries.len()
        invariant
            i <= entries@.len(),
            listing == listing_view(entries@),
            Seq::new(out@.len(), |i: int| out@[i]@) == regular_files(listing.take(i as int)),
        decreases entries@.len() - i,
    {
        let ghost before = Seq::new(out@.len(), |i: int| out@[i]@);
        proof {
            assert(listing.take(i + 1).drop_last() =~= listing.take(i as int));
            assert(listing.take(i + 1).last() == listing[i as int]);
        }
        if text_eq(entries[i].etype.as_str(), "file") {
            out.push(entries[i].path.clone());
            proof {
                assert(Seq::new(out@.len(), |i: int| out@[i]@) =~= before.push(
                    listing[i as int].path,
                ));
            }
        }
        i = i + 1;
    }
    proof {
        assert(listing.take(i as int) =~= listing);
    }
    out
}

impl Materializer {
    /// The file map is well-formed and the state is coherent.
    pub closed spec fn wf(&self) -> bool {
        self.record.files.wf() && coherent(self@)
    }

    /// What well-formedness says of the model.
    pub proof fn lemma_wf(&self)
        requires
            self.wf(),
        ensures
            coherent(self@),
    {
    }

    /// Starts the work on `record`, an extension of the source `repository`
    /// whose documents lie under `branch`, and says what to ask for first.
    pub fn begin(record: ManagedExtension, repository: String, branch: String) -> (r: (
        Materializer,
        Request,
    ))
        requires
            record.files.wf(),
        ensures
            r.0.wf(),
            coherent(r.0@),
            (r.0@, r.1@) == begin_spec(record@, repository@, branch@),
    {
        let script = script_path_of(branch.as_str(), record.id.as_str());
        let mut m = Materializer {
            record,
            stage: Stage::Script,
            assets: Vec::new(),
            next: 0,
            repository,
            branch,
        };
        proof {
            assert(m@.assets =~= Seq::empty());
        }
        match m.record.kind {
            ManageTypes::Deletion => {
                let ghost before = m@;
                m.record.files.insert(script, None);
                m.stage = Stage::Listing;
                proof {
                    assert(m@.record.files =~= before.record.files.insert(
                        script_path(before.branch, before.record.id),
                        None,
                    ));
                }
                let request = Request::GetDirectory {
                    repository: "paperback-community/extensions".to_owned(),
                    path: static_path_of(m.branch.as_str(), m.record.id.as_str()),
                    branch: "master".to_owned(),
                };
                (m, request)
            },
            _ => {
                let request = Request::GetFile {
                    repository: m.repository.clone(),
                    path: script,
                    branch: "gh-pages".to_owned(),
                    format: FileOutputFormat::UTF8,
                };
                (m, request)
            },
        }
    }

    /// How far the work has come.
    pub fn stage(&self) -> (r: Stage)
        ensures
            r == self@.stage,
    {
        self.stage
    }

    /// The record as far as it is filled.
    pub fn record(&self) -> (r: &ManagedExtension)
        ensures
            r@ == self@.record,
    {
        &self.record
    }

    /// The record, once it is complete.
    pub fn finish(self) -> (r: Option<ManagedExtension>)
        requires
            self.wf(),
        ensures
            r is Some <==> self@.stage == Stage::Done,
            r is Some ==> r->0@ == self@.record && r->0.files.wf(),
    {
        match self.stage {
            Stage::Done => Some(self.record),
            _ => None,
        }
    }

    /// Asks for the next static asset, or completes the record.
    fn fetch(&mut self) -> (r: Request)
        requires
            old(self).record.files.wf(),
            old(self).next <= old(self).assets@.len(),
            old(self)@.record.kind != ManageTypes::Deletion,
        ensures
            final(self).wf(),
            (final(self)@, r@) == fetch_next(old(self)@),
    {
        if self.next < self.assets.len() {
            self.stage = Stage::Asset;
            Request::GetFile {
                repository: self.repository.clone(),
                path: self.assets[self.next].clone(),
                branch: "gh-pages".to_owned(),
                format: FileOutputFormat::BASE64,
            }
        } else {
            self.stage = Stage::Done;
            Request::Finished
        }
    }

    /// Takes in the regular files of the listing.
    fn list(&mut self, paths: Vec<String>) -> (r: Request)
        requires
            old(self).wf(),
            old(self)@.stage == Stage::Listing,
        ensures
            final(self).wf(),
            (final(self)@, r@) == listed(old(self)@, Seq::new(paths@.len(), |i: int| paths@[i]@)),
    {
        let ghost names = Seq::new(paths@.len(), |i: int| paths@[i]@);
        match self.record.kind {
            ManageTypes::Deletion => {
                let ghost before = self@.record.files;
                let mut i: usize = 0;
                proof {
                    assert(names.take(0).to_set() =~= Set::empty());
                    assert(self@.record.files =~= stamped(before, names.take(0).to_set(), None));
                }
                while i < paths.len()
                    invariant
                        i <= paths@.len(),
                        names == Seq::new(paths@.len(), |i: int| paths@[i]@),
                        self.wf(),
                        self@ == (MaterializerView {
                            record: ManagedExtensionView {
                                files: stamped(before, names.take(i as int).to_set(), None),
                                ..old(self)@.record
                            },
                            ..old(self)@
                        }),
                    decreases paths@.len() - i,
                {
                    let ghost done = names.take(i as int).to_set();
                    let ghost so_far = self@.record.files;
                    self.record.files.insert(paths[i].clone(), None);
                    proof {
                        lemma_take_members(names, i as int);
                        assert(self@.record.files =~= so_far.insert(names[i as int], None));
                        assert(so_far.insert(names[i as int], None) =~= stamped(
                            before,
                            done.insert(names[i as int]),
                            None,
                        ));
                    }
                    i = i + 1;
                }
                proof {
                    assert(names.take(i as int) =~= names);
                }
                self.stage = Stage::Done;
                Request::Finished
            },
            _ => {
                self.assets = paths;
                self.next = 0;
                proof {
                    assert(self@.assets =~= names);
                }
                self.fetch()
            },
        }
    }

    /// Takes in the answer to the last request and says what to ask for next.
    /// A failed request abandons the run, unless the record is complete
    /// already.
    pub fn step(&mut self, response: Response) -> (r: Request)
        requires
            old(self).wf(),
        ensures
            final(self).wf(),
            coherent(final(self)@),
            (final(self)@, r@) == step_spec(old(self)@, response@),
            response@ is Failed && old(self)@.stage != Stage::Done ==> r@ is Failed
                && final(self)@.stage == Stage::Failed,
    {
        match self.stage {
            Stage::Done => Request::Finished,
            Stage::Failed => Request::Failed,
            Stage::Script => match response {
                Response::Text(text) => {
                    self.stage = Stage::ScriptBlob;
                    Request::CreateBlob { content: text, encoding: "utf-8".to_owned() }
                },
                _ => self.fail(),
            },
            Stage::ScriptBlob => match response {
                Response::Blob(blob) => {
                    let ghost before = self@;
                    let script = script_path_of(self.branch.as_str(), self.record.id.as_str());
                    self.record.files.insert(script, Some(blob.sha));
                    self.stage = Stage::Listing;
                    proof {
                        assert(self@.record.files =~= before.record.files.insert(
                            script_path(before.branch, before.record.id),
                            Some(blob.sha@),
                        ));
                    }
                    Request::GetDirectory {
                        repository: self.repository.clone(),
                        path: static_path_of(self.branch.as_str(), self.record.id.as_str()),
                        branch: "gh-pages".to_owned(),
                    }
                },
                _ => self.fail(),
            },
            Stage::Listing => match response {
                Response::Directory(entries) => {
                    let paths = regular_files_of(&entries);
                    self.list(paths)
                },
                Response::NotFound => {
                    let paths: Vec<String> = Vec::new();
                    proof {
                        assert(Seq::new(paths@.len(), |i: int| paths@[i]@) =~= Seq::<
                            Seq<char>,
                        >::empty());
                    }
                    self.list(paths)
                },
                _ => self.fail(),
            },
            Stage::Asset => match response {
                Response::Bytes(bytes) => {
                    if bytes.len() / 3 < usize::MAX / 8 {
                        self.stage = Stage::AssetBlob;
                        Request::CreateBlob {
                            content: encode_base64(&bytes),
                            encoding: "base64".to_owned(),
                        }
                    } else {
                        self.fail()
                    }
                },
                _ => self.fail(),
            },
            Stage::AssetBlob => match response {
                Response::Blob(blob) => {
                    let ghost before = self@;
                    assert(self.next < self.assets@.len());
                    assert(self@.record.kind != ManageTypes::Deletion);
                    let listed: usize = self.assets.len();
                    let path = self.assets[self.next].clone();
                    self.record.files.insert(path, Some(blob.sha));
                    assert(self.next < listed);
                    self.next = self.next + 1;
                    proof {
                        assert(self@.record.files =~= before.record.files.insert(
                            before.assets[before.next as int],
                            Some(blob.sha@),
                        ));
                    }
                    self.fetch()
                },
                _ => self.fail(),
            },
        }
    }

    /// Abandons the run.
    fn fail(&mut self) -> (r: Request)
        requires
            old(self).wf(),
        ensures
            final(self).wf(),
            (final(self)@, r@) == failed(old(self)@),
    {
        self.stage = Stage::Failed;
        Request::Failed
    }
}

} // verus!
