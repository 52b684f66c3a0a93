//! What is asked of the remote object store and what it answers: addresses,
//! request bodies, the reading of a status, and the entries of a new tree.

use vstd::prelude::*;
use crate::text::join3;
use crate::text_map::ordered;
use crate::versioning::{
    clone_optional_text, optional_text, records_view, records_wf, ManagedExtension,
    ManagedExtensionView,
};

verus! {

/// The form in which the content of a file is wanted.
#[derive(Clone, Copy, Debug, PartialEq, Eq, Structural)]
pub enum FileOutputFormat {
    UTF8,
    BASE64,
}

/// One entry of a directory listing.
pub struct GetContentDirectoryEntryResponse {
    pub etype: String,
    pub path: String,
}

/// The head of a branch.
pub struct GetBranchResponse {
    pub commit: Commit,
}

/// A commit with the tree it points at.
pub struct Commit {
    pub sha: String,
    pub commit: CommitCommit,
}

/// What a commit holds.
pub struct CommitCommit {
    pub tree: Tree,
}

/// A tree, by its hash.
pub struct Tree {
    pub sha: String,
}

/// The hash of a content object that was created.
pub struct CreateBlobResponse {
    pub sha: String,
}

/// The hash of a tree that was created.
pub struct CreateTreeResponse {
    pub sha: String,
}

/// The hash of a commit that was created.
pub struct CreateCommitResponse {
    pub sha: String,
}

/// The body that asks for a content object.
pub struct CreateBlobRequest {
    pub content: String,
    pub encoding: String,
}

/// One entry of a tree that is asked for: a regular file at `path` with the
/// content `sha`, or, without a hash, the instruction to leave `path` out of
/// the new tree.
pub struct RequestFile {
    pub path: String,
    pub mode: String,
    pub ftype: String,
    pub sha: Option<String>,
}

/// The model of [`RequestFile`].
pub struct RequestFileView {
    pub path: Seq<char>,
    pub mode: Seq<char>,
    pub ftype: Seq<char>,
    pub sha: Option<Seq<char>>,
}

impl View for RequestFile {
    type V = RequestFileView;

    open spec fn view(&self) -> RequestFileView {
        RequestFileView {
            path: self.path@,
            mode: self.mode@,
            ftype: self.ftype@,
            sha: optional_text(self.sha),
        }
    }
}

/// The body that asks for a tree on top of `base_tree`.
pub struct CreateTreeRequest {
    pub base_tree: String,
    pub tree: Vec<RequestFile>,
}

/// Who a commit is ascribed to.
pub struct Author {
    pub name: String,
    pub email: String,
}

/// The body that asks for a commit.
pub struct CreateCommitRequest {
    pub message: String,
    pub tree: String,
    pub parents: Vec<String>,
    pub author: Author,
}

/// The body that asks to move a reference to `sha`. It never asks to force
/// the move: a reference that has moved on since it was read stays.
pub struct UpdateReferenceRequest {
    pub sha: String,
}

/// What a status code says of the answer to a request.
#[derive(Clone, Copy, Debug, PartialEq, Eq, Structural)]
pub enum Status {
    /// The answer is the one that was asked for.
    Success,
    /// What was asked for does not exist.
    NotFound,
    /// The request failed.
    Failure,
}

/// Reads a status code, where `expected` is the code of success.
pub open spec fn status_of(code: u16, expected: u16) -> Status {
    if code == expected {
        Status::Success
    } else if code == 404 {
        Status::NotFound
    } else {
        Status::Failure
    }
}

/// Reads a status code, where `expected` is the code of success.
pub fn read_status(code: u16, expected: u16) -> (r: Status)
    ensures
        r == status_of(code, expected),
{
    if code == expected {
        Status::Success
    } else if code == 404 {
        Status::NotFound
    } else {
        Status::Failure
    }
}

/// The address of the file or directory at `path` on `branch` of
/// `repository`.
pub open spec fn contents_address(repository: Seq<char>, path: Seq<char>, branch: Seq<char>) -> Seq<
    char,
> {
    "https://api.github.com/repos/"@ + repository + "/contents/"@ + path + "?ref="@ + branch
}

/// The address of the file or directory at `path` on `branch` of
/// `repository`.
pub fn contents_url(repository: &str, path: &str, branch: &str) -> (r: String)
    ensures
        r@ == contents_address(repository@, path@, branch@),
{
    let mut r = join3("https://api.github.com/repos/", repository, "/contents/");
    r.append(path);
    r.append("?ref=");
    r.append(branch);
    r
}

/// The address of `branch` of `repository`.
pub fn branch_url(repository: &str, branch: &str) -> (r: String)
    ensures
        r@ == "https://api.github.com/repos/"@ + repository@ + "/branches/"@ + branch@,
{
    let mut r = join3("https://api.github.com/repos/", repository, "/branches/");
    r.append(branch);
    r
}

/// The entry for `path` with the content `sha`, or without a hash.
pub open spec fn tree_entry(path: Seq<char>, sha: Option<Seq<char>>) -> RequestFileView {
    RequestFileView { path, mode: "100644"@, ftype: "blob"@, sha }
}

/// The entries that a file map asks for: one for each path, in ascending
/// order of the paths.
pub open spec fn file_entries(files: Map<Seq<char>, Option<Seq<char>>>) -> Seq<RequestFileView> {
    Seq::new(
        ordered(files.dom()).len(),
        |i: int| tree_entry(ordered(files.dom())[i], files[ordered(files.dom())[i]]),
    )
}

/// The entries that a list of change records asks for: those of each record
/// in turn.
pub open spec fn tree_entries(records: Seq<ManagedExtensionView>) -> Seq<RequestFileView>
    decreases records.len(),
{
    if records.len() == 0 {
        Seq::empty()
    } else {
        tree_entries(records.drop_last()) + file_entries(records.last().files)
    }
}

/// The models of a list of entries.
pub open spec fn entries_view(entries: Seq<RequestFile>) -> Seq<RequestFileView> {
    Seq::new(entries.len(), |i: int| entries[i]@)
}

/// The body that asks for the tree which `managed_extensions` describe on
/// top of `base_tree`.
pub fn create_tree_request(base_tree: String, managed_extensions: &Vec<ManagedExtension>) -> (r:
    CreateTreeRequest)
    requires
        records_wf(managed_extensions@),
    ensures
        r.base_tree@ == base_tree@,
        entries_view(r.tree@) == tree_entries(records_view(managed_extensions@)),
{
    let ghost records = records_view(managed_extensions@);
    let mut tree: Vec<RequestFile> = Vec::new();
    let mut i: usize = 0;
    proof {
        assert(records.take(0) =~= Seq::empty());
        assert(entries_view(tree@) =~= tree_entries(records.take(0)));
    }
    while i < managed_extensions.len()
        invariant
            i <= managed_extensions@.len(),
            records == records_view(managed_extensions@),
            records_wf(managed_extensions@),
            entries_view(tree@) == tree_entries(records.take(i as int)),
        decreases managed_extensions@.len() - i,
    {
        let record = &managed_extensions[i];
        let ghost files = record@.files;
        let ghost paths = ordered(files.dom());
        let ghost done = entries_view(tree@);
        let n: usize = record.files.len();
        let mut j: usize = 0;
        proof {
            record.files.lemma_keys();
            assert(files.dom() =~= record.files.entries().dom());
            assert(entries_view(tree@) =~= done + file_entries(files).take(0));
        }
        while j < n
            invariant
                j <= n,
                n == record.files.pairs().len(),
                record.files.wf(),
                files == record@.files,
                paths == ordered(files.dom()),
                paths == record.files.keys(),
                paths.len() == n,
                entries_view(tree@) == done + file_entries(files).take(j as int),
            decreases n - j,
        {
            let ghost before = entries_view(tree@);
            let path = record.files.key_at(j);
            let hash = record.files.value_at(j);
            proof {
                record.files.lemma_keys();
                assert(record.files.pairs()[j as int].0 == paths[j as int]);
                assert(files[paths[j as int]] == optional_text(*hash));
            }
            tree.push(
                RequestFile {
                    path: path.clone(),
                    mode: "100644".to_owned(),
                    ftype: "blob".to_owned(),
                    sha: clone_optional_text(hash),
                },
            );
            proof {
                assert(entries_view(tree@) =~= before.push(file_entries(files)[j as int]));
                assert(file_entries(files).take(j + 1) =~= file_entries(files).take(j as int).push(
                    file_entries(files)[j as int],
                ));
                assert(before.push(file_entries(files)[j as int]) =~= done + file_entries(
                    files,
                ).take(j + 1));
            }
            j = j + 1;
        }
        proof {
            assert(file_entries(files).take(n as int) =~= file_entries(files));
            assert(records.take(i + 1).drop_last() =~= records.take(i as int));
            assert(records.take(i + 1).last() == record@);
        }
        i = i + 1;
    }
    proof {
        assert(records.take(i as int) =~= records);
    }
    CreateTreeRequest { base_tree, tree }
}

/// The body that asks for a commit of `tree_sha` with the single parent
/// `parent_commit_sha`.
pub fn create_commit_request(
    message: String,
    tree_sha: String,
    parent_commit_sha: String,
    author_name: String,
    author_email: String,
) -> (r: CreateCommitRequest)
    ensures
        r.message@ == message@,
        r.tree@ == tree_sha@,
        r.parents@.len() == 1,
        r.parents@[0]@ == parent_commit_sha@,
        r.author.name@ == author_name@,
        r.author.email@ == author_email@,
{
    let mut parents: Vec<String> = Vec::new();
    parents.push(parent_commit_sha);
    CreateCommitRequest {
        message,
        tree: tree_sha,
        parents,
        author: Author { name: author_name, email: author_email },
    }
}

/// The tree that a list of entries asks for on top of `base`, as a map from
/// each path to the hash of its content: an entry with a hash puts its path
/// there with that content, an entry without one takes its path away; where
/// entries name the same path, the later one decides.
pub open spec fn tree_after(base: Map<Seq<char>, Seq<char>>, entries: Seq<RequestFileView>) -> Map<
    Seq<char>,
    Seq<char>,
>
    decreases entries.len(),
{
    if entries.len() == 0 {
        base
    } else {
        let below = tree_after(base, entries.drop_last());
        match entries.last().sha {
            Some(hash) => below.insert(entries.last().path, hash),
            None => below.remove(entries.last().path),
        }
    }
}

} // verus!
