//! Reconciliation: what a source manifest adds to, updates in and deletes
//! from the catalog and the ledger, and the change records that say so.

use vstd::prelude::*;
use crate::clock::current_build_time;
use crate::semver::{
    newer, optional_view, outranks, parse_version, parsed_or, parsed_semver, plain_version,
    SemVer, SemVerView,
};
use crate::text::{ends_with, has_suffix, text_eq, text_lt};
use crate::text_map::{
    ascending, lemma_ordered, lemma_ordered_finite, lemma_take_members, ordered,
};
use crate::versioning::{
    bucket_of, fresh_record, records_view, records_wf, with_bucket, BucketView, LedgerView,
    ManageTypes, ManagedExtension, ManagedExtensionView, ManagedExtensions, Metadata,
    MetadataExtension, MetadataExtensionView, MetadataRepository, Repository, RepositoryView,
    SourceView, Versioning, VersioningView,
};

verus! {

/// Why a reconciliation was refused. A refusal leaves catalog and ledger as
/// they were.
#[derive(Clone, Copy, Debug, PartialEq, Eq, Structural)]
pub enum UpdateError {
    /// The source was built against an older interface than the registry
    /// asks for.
    IncompatibleToolchain,
    /// The interface version that the source declares cannot be read.
    MalformedToolchain,
    /// The ledger ascribes to the source an extension that the catalog does
    /// not list, or lists under a version that cannot be read.
    InconsistentRegistry,
    /// There is a change to stamp, and the clock shows no time that can be
    /// written down.
    ClockUnreadable,
}

/// An extension whose name ends in `Template` is a placeholder, which is
/// never added.
pub open spec fn is_template(extension: SourceView) -> bool {
    has_suffix(extension.name, "Template"@)
}

/// The interface version that a registry asks of its sources where its own
/// declaration cannot be read.
pub open spec fn baseline_version() -> SemVerView {
    plain_version(0, 9, 0)
}

/// The interface version that a catalog asks of its sources.
pub open spec fn required_version(catalog: VersioningView) -> SemVerView {
    parsed_or(catalog.built_with.types, baseline_version())
}

/// What is wrong with the interface version that a source declares, if
/// anything: it cannot be read, or it is below the required one.
pub open spec fn toolchain_error(required: SemVerView, declared: Option<SemVerView>) -> Option<
    UpdateError,
> {
    match declared {
        None => Some(UpdateError::MalformedToolchain),
        Some(declared) => if newer(required, declared) {
            Some(UpdateError::IncompatibleToolchain)
        } else {
            None
        },
    }
}

/// The source declares an interface version, and it is below the one that
/// the catalog asks for.
pub open spec fn incompatible(catalog: VersioningView, source: VersioningView) -> bool {
    match parsed_semver(source.built_with.types) {
        Some(declared) => newer(required_version(catalog), declared),
        None => false,
    }
}

/// The source's version of `id` is strictly newer than the catalog's. A
/// source version that cannot be read counts as 0.0.0.
pub open spec fn update_due(catalog: VersioningView, source: VersioningView, id: Seq<char>) -> bool {
    match parsed_semver(catalog.sources[id].version) {
        Some(current) => newer(
            parsed_or(source.sources[id].version, plain_version(0, 0, 0)),
            current,
        ),
        None => false,
    }
}

/// The ids that the source lists and the ledger did not ascribe to it yet,
/// those left out under which the source lists a placeholder.
pub open spec fn additions(prior: BucketView, source: VersioningView) -> Set<Seq<char>> {
    Set::new(
        |id: Seq<char>|
            source.sources.contains_key(id) && !prior.contains_key(id) && !is_template(
                source.sources[id],
            ),
    )
}

/// The ids that the source lists and the ledger ascribes to it.
pub open spec fn shared(prior: BucketView, source: VersioningView) -> Set<Seq<char>> {
    Set::new(|id: Seq<char>| source.sources.contains_key(id) && prior.contains_key(id))
}

/// The ids of which the source's version is strictly newer than the
/// catalog's.
pub open spec fn due_updates(catalog: VersioningView, source: VersioningView) -> Set<Seq<char>> {
    Set::new(|id: Seq<char>| update_due(catalog, source, id))
}

/// The shared ids among `due`, the ids of which the source holds a newer
/// version.
pub open spec fn updates(prior: BucketView, source: VersioningView, due: Set<Seq<char>>) -> Set<
    Seq<char>,
> {
    Set::new(|id: Seq<char>| shared(prior, source).contains(id) && due.contains(id))
}

/// The ids that the ledger ascribes to the source and the source lists no
/// more.
pub open spec fn deletions(prior: BucketView, source: VersioningView) -> Set<Seq<char>> {
    Set::new(|id: Seq<char>| prior.contains_key(id) && !source.sources.contains_key(id))
}

/// The catalog lists every shared id, under a version that can be read.
pub open spec fn consistent(catalog: VersioningView, prior: BucketView, source: VersioningView) -> bool {
    forall|id: Seq<char>| #[trigger]
        shared(prior, source).contains(id) ==> catalog.sources.contains_key(id) && parsed_semver(
            catalog.sources[id].version,
        ) is Some
}

/// Why the reconciliation of `catalog` and `ledger` with `source` under `key`
/// is refused, if it is.
pub open spec fn update_error(
    catalog: VersioningView,
    ledger: LedgerView,
    source: VersioningView,
    key: Seq<char>,
) -> Option<UpdateError> {
    match toolchain_error(required_version(catalog), parsed_semver(source.built_with.types)) {
        Some(e) => Some(e),
        None => if consistent(catalog, bucket_of(ledger, key), source) {
            None
        } else {
            Some(UpdateError::InconsistentRegistry)
        },
    }
}

/// A record of `kind` without files for each of `ids`, in their order.
pub open spec fn fresh_records(ids: Seq<Seq<char>>, kind: ManageTypes) -> Seq<ManagedExtensionView> {
    Seq::new(ids.len(), |i: int| fresh_record(ids[i], kind))
}

/// The change records of a reconciliation of the bucket `prior` with
/// `source`, where `due` are the ids of which the source holds a newer
/// version: the additions in ascending order of id, then the updates in
/// descending order, then the deletions in ascending order.
pub open spec fn change_records(prior: BucketView, source: VersioningView, due: Set<Seq<char>>) -> Seq<
    ManagedExtensionView,
> {
    fresh_records(ordered(additions(prior, source)), ManageTypes::Addition) + fresh_records(
        ordered(updates(prior, source, due)).reverse(),
        ManageTypes::Update,
    ) + fresh_records(ordered(deletions(prior, source)), ManageTypes::Deletion)
}

/// `base` with the values that `from` holds for `ids` laid over it.
pub open spec fn overlay<V>(
    base: Map<Seq<char>, V>,
    from: Map<Seq<char>, V>,
    ids: Set<Seq<char>>,
) -> Map<Seq<char>, V> {
    Map::new(
        |id: Seq<char>| base.contains_key(id) || ids.contains(id),
        |id: Seq<char>|
            if ids.contains(id) {
                from[id]
            } else {
                base[id]
            },
    )
}

/// `base` with `value` recorded for each of `ids`.
pub open spec fn stamped<V>(base: Map<Seq<char>, V>, ids: Set<Seq<char>>, value: V) -> Map<
    Seq<char>,
    V,
> {
    Map::new(
        |id: Seq<char>| base.contains_key(id) || ids.contains(id),
        |id: Seq<char>|
            if ids.contains(id) {
                value
            } else {
                base[id]
            },
    )
}

/// The build that a source manifest comes from.
pub open spec fn provenance(source: VersioningView) -> MetadataExtensionView {
    MetadataExtensionView { build_time: source.build_time, built_with: source.built_with }
}

/// The extensions of the catalog after the reconciliation: the added and the
/// updated ones as the source lists them, the deleted ones gone, the others
/// as they were.
pub open spec fn reconciled_sources(
    sources: Map<Seq<char>, SourceView>,
    prior: BucketView,
    source: VersioningView,
    due: Set<Seq<char>>,
) -> Map<Seq<char>, SourceView> {
    overlay(
        sources,
        source.sources,
        additions(prior, source).union(updates(prior, source, due)),
    ).remove_keys(deletions(prior, source))
}

/// The bucket of the source after the reconciliation: the added ids with the
/// source's build, the deleted ones gone, the others as they were.
pub open spec fn reconciled_bucket(prior: BucketView, source: VersioningView) -> BucketView {
    stamped(prior, additions(prior, source), provenance(source)).remove_keys(
        deletions(prior, source),
    )
}

/// The ledger after the reconciliation. A bucket that ends up empty is
/// dropped.
pub open spec fn reconciled_ledger(ledger: LedgerView, source: VersioningView, key: Seq<char>) -> LedgerView {
    with_bucket(ledger, key, reconciled_bucket(bucket_of(ledger, key), source))
}

/// Name and description that a registry gets with its first change.
pub open spec fn bootstrap_repository() -> RepositoryView {
    RepositoryView {
        name: "Paperback Community Extensions (0.9)"@,
        description: "All extensions from the Paperback Community combined into a single repository."@,
    }
}

/// The catalog after a reconciliation that ends at the time `now`. Without a
/// change record the catalog stays as it is. With one, it takes the build
/// time `now` and the source's toolchain, and a registry without a name gets
/// its first one.
pub open spec fn reconciled_catalog(
    catalog: VersioningView,
    prior: BucketView,
    source: VersioningView,
    due: Set<Seq<char>>,
    now: Seq<char>,
) -> VersioningView {
    if change_records(prior, source, due).len() == 0 {
        catalog
    } else {
        VersioningView {
            build_time: now,
            built_with: source.built_with,
            repository: if catalog.repository.name.len() == 0 {
                bootstrap_repository()
            } else {
                catalog.repository
            },
            sources: reconciled_sources(catalog.sources, prior, source, due),
        }
    }
}

/// The texts of a list of strings.
pub open spec fn texts(list: Seq<String>) -> Seq<Seq<char>> {
    Seq::new(list.len(), |i: int| list[i]@)
}

/// `out` holds, in ascending order, those of the first `i` of `ids` that are
/// in `wanted`.
pub open spec fn gathered(
    out: Seq<Seq<char>>,
    ids: Seq<Seq<char>>,
    i: int,
    wanted: Set<Seq<char>>,
) -> bool {
    &&& ascending(out)
    &&& forall|x: Seq<char>| #[trigger]
        out.contains(x) ==> wanted.contains(x) && exists|j: int| 0 <= j < i && ids[j] == x
    &&& forall|j: int| 0 <= j < i && wanted.contains(#[trigger] ids[j]) ==> out.contains(ids[j])
}

proof fn lemma_gather_skip(out: Seq<Seq<char>>, ids: Seq<Seq<char>>, i: int, wanted: Set<Seq<char>>)
    requires
        gathered(out, ids, i, wanted),
        0 <= i < ids.len(),
        !wanted.contains(ids[i]),
    ensures
        gathered(out, ids, i + 1, wanted),
{
    assert forall|x: Seq<char>| #[trigger] out.contains(x) implies wanted.contains(x) && exists|
        j: int,
    | 0 <= j < i + 1 && ids[j] == x by {
        let j = choose|j: int| 0 <= j < i && ids[j] == x;
        assert(0 <= j < i + 1 && ids[j] == x);
    }
}

proof fn lemma_gather_push(out: Seq<Seq<char>>, ids: Seq<Seq<char>>, i: int, wanted: Set<Seq<char>>)
    requires
        gathered(out, ids, i, wanted),
        ascending(ids),
        0 <= i < ids.len(),
        wanted.contains(ids[i]),
    ensures
        gathered(out.push(ids[i]), ids, i + 1, wanted),
{
    let next = out.push(ids[i]);
    assert forall|a: int, b: int| 0 <= a < b < next.len() implies text_lt(
        #[trigger] next[a],
        #[trigger] next[b],
    ) by {
        if b == out.len() {
            assert(out.contains(out[a]));
            let j = choose|j: int| 0 <= j < i && ids[j] == out[a];
            assert(text_lt(ids[j], ids[i]));
        } else {
            assert(next[a] == out[a] && next[b] == out[b]);
        }
    }
    assert forall|x: Seq<char>| #[trigger] next.contains(x) implies wanted.contains(x) && exists|
        j: int,
    | 0 <= j < i + 1 && ids[j] == x by {
        let a = choose|a: int| 0 <= a < next.len() && next[a] == x;
        if a < out.len() {
            assert(out[a] == x);
            assert(out.contains(x));
            let j = choose|j: int| 0 <= j < i && ids[j] == x;
            assert(0 <= j < i + 1 && ids[j] == x);
        } else {
            assert(0 <= i < i + 1 && ids[i] == x);
        }
    }
    assert forall|j: int| 0 <= j < i + 1 && wanted.contains(#[trigger] ids[j]) implies next.contains(
        ids[j],
    ) by {
        if j < i {
            assert(out.contains(ids[j]));
            let a = choose|a: int| 0 <= a < out.len() && out[a] == ids[j];
            assert(next[a] == ids[j]);
        } else {
            assert(next[out.len() as int] == ids[j]);
        }
    }
}

proof fn lemma_gather_done(out: Seq<Seq<char>>, ids: Seq<Seq<char>>, wanted: Set<Seq<char>>)
    requires
        gathered(out, ids, ids.len() as int, wanted),
        forall|x: Seq<char>| wanted.contains(x) ==> ids.contains(x),
    ensures
        out == ordered(wanted),
        out.to_set() == wanted,
{
    assert forall|x: Seq<char>| out.to_set().contains(x) <==> wanted.contains(x) by {
        if wanted.contains(x) {
            assert(ids.contains(x));
            let j = choose|j: int| 0 <= j < ids.len() && ids[j] == x;
            assert(wanted.contains(ids[j]));
        }
    }
    assert(out.to_set() =~= wanted);
    lemma_ordered(out);
}

/// The ids to add, in ascending order.
fn plan_additions(source: &Versioning, prior: &MetadataRepository) -> (r: Vec<String>)
    requires
        source.wf(),
        prior.wf(),
    ensures
        texts(r@) == ordered(additions(prior@, source@)),
        texts(r@).to_set() == additions(prior@, source@),
{
    let ghost ids = source.ids();
    let ghost wanted = additions(prior@, source@);
    let n: usize = source.len();
    let mut out: Vec<String> = Vec::new();
    let mut i: usize = 0;
    proof {
        source.lemma_wf();
        lemma_ordered_finite(source@.sources.dom());
        assert(texts(out@) =~= Seq::empty());
    }
    while i < n
        invariant
            i <= n,
            n == ids.len(),
            ids == source.ids(),
            ascending(ids),
            ids.to_set() == source@.sources.dom(),
            wanted == additions(prior@, source@),
            source.wf(),
            prior.wf(),
            gathered(texts(out@), ids, i as int, wanted),
        decreases n - i,
    {
        let entry = source.source_at(i);
        proof {
            assert(ids.contains(ids[i as int]));
            assert(source@.sources.dom().contains(ids[i as int]));
        }
        if !prior.contains(entry.id.as_str()) && !ends_with(entry.name.as_str(), "Template") {
            let ghost before = texts(out@);
            proof {
                lemma_gather_push(before, ids, i as int, wanted);
            }
            out.push(entry.id.clone());
            proof {
                assert(texts(out@) =~= before.push(ids[i as int]));
            }
        } else {
            proof {
                lemma_gather_skip(texts(out@), ids, i as int, wanted);
            }
        }
        i = i + 1;
    }
    proof {
        assert forall|x: Seq<char>| wanted.contains(x) implies ids.contains(x) by {
            assert(source@.sources.dom().contains(x));
        }
        lemma_gather_done(texts(out@), ids, wanted);
    }
    out
}

/// What the interface version that a source declares allows: nothing where
/// it cannot be read or is below the required one.
pub fn toolchain_verdict(required: &SemVer, declared: &Option<SemVer>) -> (r: Option<UpdateError>)
    ensures
        r == toolchain_error(required@, optional_view(*declared)),
{
    match declared {
        None => Some(UpdateError::MalformedToolchain),
        Some(declared) => {
            if outranks(required, declared) {
                Some(UpdateError::IncompatibleToolchain)
            } else {
                None
            }
        },
    }
}

/// Whether the version `candidate` of a source replaces the version `listed`
/// in the catalog: it does where it is strictly newer. A listed version that
/// could not be read is an inconsistency of the registry.
pub fn version_verdict(listed: &Option<SemVer>, candidate: &SemVer) -> (r: Result<bool, UpdateError>)
    ensures
        r == match *listed {
            Some(current) => Ok::<bool, UpdateError>(newer(candidate@, current@)),
            None => Err::<bool, UpdateError>(UpdateError::InconsistentRegistry),
        },
{
    match listed {
        Some(current) => Ok(outranks(candidate, current)),
        None => Err(UpdateError::InconsistentRegistry),
    }
}

/// The shared ids of which the source holds a newer version than the
/// catalog; a refusal where the catalog does not list a shared id under a
/// version that can be read.
fn newer_versions(catalog: &Versioning, source: &Versioning, prior: &MetadataRepository) -> (r: Result<
    Vec<String>,
    UpdateError,
>)
    requires
        catalog.wf(),
        source.wf(),
        prior.wf(),
    ensures
        match r {
            Ok(list) => {
                &&& consistent(catalog@, prior@, source@)
                &&& texts(list@).to_set() == updates(
                    prior@,
                    source@,
                    due_updates(catalog@, source@),
                )
            },
            Err(e) => e == UpdateError::InconsistentRegistry && !consistent(
                catalog@,
                prior@,
                source@,
            ),
        },
{
    let ghost ids = source.ids();
    let ghost wanted = updates(prior@, source@, due_updates(catalog@, source@));
    let n: usize = source.len();
    let mut out: Vec<String> = Vec::new();
    let mut i: usize = 0;
    proof {
        source.lemma_wf();
        lemma_ordered_finite(source@.sources.dom());
        assert(texts(out@) =~= Seq::empty());
    }
    while i < n
        invariant
            i <= n,
            n == ids.len(),
            ids == source.ids(),
            ascending(ids),
            ids.to_set() == source@.sources.dom(),
            wanted == updates(prior@, source@, due_updates(catalog@, source@)),
            catalog.wf(),
            source.wf(),
            prior.wf(),
            gathered(texts(out@), ids, i as int, wanted),
            forall|j: int|
                0 <= j < i && shared(prior@, source@).contains(#[trigger] ids[j])
                    ==> catalog@.sources.contains_key(ids[j]) && parsed_semver(
                    catalog@.sources[ids[j]].version,
                ) is Some,
        decreases n - i,
    {
        let entry = source.source_at(i);
        let ghost id = ids[i as int];
        proof {
            assert(ids.contains(id));
            assert(source@.sources.dom().contains(id));
        }
        let mut due = false;
        if prior.contains(entry.id.as_str()) {
            assert(shared(prior@, source@).contains(id));
            let listed = match catalog.get(entry.id.as_str()) {
                Some(listed) => parse_version(listed.version.as_str()),
                None => None,
            };
            let candidate = SemVer::parse_or(entry.version.as_str(), SemVer::new(0, 0, 0));
            match version_verdict(&listed, &candidate) {
                Ok(verdict) => {
                    due = verdict;
                },
                Err(e) => {
                    return Err(e);
                },
            }
        }
        assert(due == wanted.contains(id));
        if due {
            let ghost before = texts(out@);
            proof {
                lemma_gather_push(before, ids, i as int, wanted);
            }
            out.push(entry.id.clone());
            proof {
                assert(texts(out@) =~= before.push(id));
            }
        } else {
            proof {
                lemma_gather_skip(texts(out@), ids, i as int, wanted);
            }
        }
        i = i + 1;
    }
    proof {
        assert forall|x: Seq<char>| wanted.contains(x) implies ids.contains(x) by {
            assert(source@.sources.dom().contains(x));
        }
        lemma_gather_done(texts(out@), ids, wanted);
        assert forall|x: Seq<char>| #[trigger]
            shared(prior@, source@).contains(x) implies catalog@.sources.contains_key(x)
            && parsed_semver(catalog@.sources[x].version) is Some by {
            assert(source@.sources.dom().contains(x));
            assert(ids.contains(x));
            let j = choose|j: int| 0 <= j < ids.len() && ids[j] == x;
            assert(shared(prior@, source@).contains(ids[j]));
        }
    }
    Ok(out)
}

/// Whether `text` is among `list`.
fn contains_text(list: &Vec<String>, text: &str) -> (r: bool)
    ensures
        r == texts(list@).contains(text@),
{
    let mut i: usize = 0;
    while i < list.len()
        invariant
            i <= list@.len(),
            forall|j: int| 0 <= j < i ==> texts(list@)[j] != text@,
        decreases list@.len() - i,
    {
        if text_eq(list[i].as_str(), text) {
            proof {
                assert(texts(list@)[i as int] == text@);
            }
            return true;
        }
        i = i + 1;
    }
    false
}

/// The ids to update, in ascending order: the shared ids among `newer`.
fn plan_updates(source: &Versioning, prior: &MetadataRepository, newer: &Vec<String>) -> (r: Vec<
    String,
>)
    requires
        source.wf(),
        prior.wf(),
    ensures
        texts(r@) == ordered(updates(prior@, source@, texts(newer@).to_set())),
        texts(r@).to_set() == updates(prior@, source@, texts(newer@).to_set()),
{
    let ghost ids = source.ids();
    let ghost wanted = updates(prior@, source@, texts(newer@).to_set());
    let n: usize = source.len();
    let mut out: Vec<String> = Vec::new();
    let mut i: usize = 0;
    proof {
        source.lemma_wf();
        lemma_ordered_finite(source@.sources.dom());
        assert(texts(out@) =~= Seq::empty());
    }
    while i < n
        invariant
            i <= n,
            n == ids.len(),
            ids == source.ids(),
            ascending(ids),
            ids.to_set() == source@.sources.dom(),
            wanted == updates(prior@, source@, texts(newer@).to_set()),
            source.wf(),
            prior.wf(),
            gathered(texts(out@), ids, i as int, wanted),
        decreases n - i,
    {
        let entry = source.source_at(i);
        proof {
            assert(ids.contains(ids[i as int]));
            assert(source@.sources.dom().contains(ids[i as int]));
        }
        if prior.contains(entry.id.as_str()) && contains_text(newer, entry.id.as_str()) {
            let ghost before = texts(out@);
            proof {
                lemma_gather_push(before, ids, i as int, wanted);
            }
            out.push(entry.id.clone());
            proof {
                assert(texts(out@) =~= before.push(ids[i as int]));
            }
        } else {
            proof {
                lemma_gather_skip(texts(out@), ids, i as int, wanted);
            }
        }
        i = i + 1;
    }
    proof {
        assert forall|x: Seq<char>| wanted.contains(x) implies ids.contains(x) by {
            assert(source@.sources.dom().contains(x));
        }
        lemma_gather_done(texts(out@), ids, wanted);
    }
    out
}

/// The ids to delete, in ascending order.
fn plan_deletions(source: &Versioning, prior: &MetadataRepository) -> (r: Vec<String>)
    requires
        source.wf(),
        prior.wf(),
    ensures
        texts(r@) == ordered(deletions(prior@, source@)),
        texts(r@).to_set() == deletions(prior@, source@),
{
    let ghost ids = prior.ids();
    let ghost wanted = deletions(prior@, source@);
    let n: usize = prior.len();
    let mut out: Vec<String> = Vec::new();
    let mut i: usize = 0;
    proof {
        prior.lemma_wf();
        lemma_ordered_finite(prior@.dom());
        assert(texts(out@) =~= Seq::empty());
    }
    while i < n
        invariant
            i <= n,
            n == ids.len(),
            ids == prior.ids(),
            ascending(ids),
            ids.to_set() == prior@.dom(),
            wanted == deletions(prior@, source@),
            source.wf(),
            prior.wf(),
            gathered(texts(out@), ids, i as int, wanted),
        decreases n - i,
    {
        let id = prior.id_at(i);
        proof {
            assert(ids.contains(ids[i as int]));
            assert(prior@.dom().contains(ids[i as int]));
        }
        if !source.contains(id.as_str()) {
            let ghost before = texts(out@);
            proof {
                lemma_gather_push(before, ids, i as int, wanted);
            }
            out.push(id.clone());
            proof {
                assert(texts(out@) =~= before.push(ids[i as int]));
            }
        } else {
            proof {
                lemma_gather_skip(texts(out@), ids, i as int, wanted);
            }
        }
        i = i + 1;
    }
    proof {
        assert forall|x: Seq<char>| wanted.contains(x) implies ids.contains(x) by {
            assert(prior@.dom().contains(x));
        }
        lemma_gather_done(texts(out@), ids, wanted);
    }
    out
}

/// The records for the first `i + 1` of a list are those for the first `i`
/// and the one for the id at position `i`.
proof fn lemma_next_record(ids: Seq<Seq<char>>, i: int, kind: ManageTypes)
    requires
        0 <= i < ids.len(),
    ensures
        fresh_records(ids.take(i + 1), kind) == fresh_records(ids.take(i), kind).push(
            fresh_record(ids[i], kind),
        ),
{
    assert(ids.take(i + 1) =~= ids.take(i).push(ids[i]));
    assert(fresh_records(ids.take(i + 1), kind) =~= fresh_records(ids.take(i), kind).push(
        fresh_record(ids[i], kind),
    ));
}

/// A list read backwards has the same members.
proof fn lemma_reverse_members(ids: Seq<Seq<char>>)
    ensures
        ids.reverse().to_set() == ids.to_set(),
{
    let r = ids.reverse();
    assert forall|x: Seq<char>| r.to_set().contains(x) <==> ids.to_set().contains(x) by {
        if r.contains(x) {
            let j = choose|j: int| 0 <= j < r.len() && r[j] == x;
            assert(ids[ids.len() - 1 - j] == x);
        }
        if ids.contains(x) {
            let j = choose|j: int| 0 <= j < ids.len() && ids[j] == x;
            assert(r[ids.len() - 1 - j] == x);
        }
    }
    assert(r.to_set() =~= ids.to_set());
}

impl Versioning {
    /// Lists each of `additions` as the source lists it, records in `bucket`
    /// that it comes from the source's build, and appends an addition record
    /// for it.
    fn extension_additions(
        &mut self,
        repository_versioning: &Versioning,
        bucket: &mut MetadataRepository,
        additions: &Vec<String>,
        managed_extensions: &mut ManagedExtensions,
    )
        requires
            old(self).wf(),
            repository_versioning.wf(),
            old(bucket).wf(),
            records_wf(old(managed_extensions)@),
            forall|i: int|
                0 <= i < additions@.len() ==> repository_versioning@.sources.contains_key(
                    #[trigger] additions@[i]@,
                ),
        ensures
            final(self).wf(),
            final(bucket).wf(),
            records_wf(final(managed_extensions)@),
            final(self)@ == (VersioningView {
                sources: overlay(
                    old(self)@.sources,
                    repository_versioning@.sources,
                    texts(additions@).to_set(),
                ),
                ..old(self)@
            }),
            final(bucket)@ == stamped(
                old(bucket)@,
                texts(additions@).to_set(),
                provenance(repository_versioning@),
            ),
            records_view(final(managed_extensions)@) == records_view(old(managed_extensions)@)
                + fresh_records(texts(additions@), ManageTypes::Addition),
    {
        let ghost catalog = self@;
        let ghost prior = bucket@;
        let ghost records = records_view(managed_extensions@);
        let ghost source = repository_versioning@;
        let ghost ids = texts(additions@);
        let mut i: usize = 0;
        proof {
            assert(ids.take(0).to_set() =~= Set::empty());
            assert(self@.sources =~= overlay(catalog.sources, source.sources, ids.take(0).to_set()));
            assert(bucket@ =~= stamped(prior, ids.take(0).to_set(), provenance(source)));
            assert(records_view(managed_extensions@) =~= records + fresh_records(
                ids.take(0),
                ManageTypes::Addition,
            ));
        }
        while i < additions.len()
            invariant
                i <= additions@.len(),
                ids == texts(additions@),
                source == repository_versioning@,
                self.wf(),
                repository_versioning.wf(),
                bucket.wf(),
                records_wf(managed_extensions@),
                forall|i: int|
                    0 <= i < additions@.len() ==> repository_versioning@.sources.contains_key(
                        #[trigger] additions@[i]@,
                    ),
                self@ == (VersioningView {
                    sources: overlay(catalog.sources, source.sources, ids.take(i as int).to_set()),
                    ..catalog
                }),
                bucket@ == stamped(prior, ids.take(i as int).to_set(), provenance(source)),
                records_view(managed_extensions@) == records + fresh_records(
                    ids.take(i as int),
                    ManageTypes::Addition,
                ),
            decreases additions@.len() - i,
        {
            let id = &additions[i];
            let ghost before = records_view(managed_extensions@);
            let ghost done = ids.take(i as int).to_set();
            proof {
                repository_versioning.lemma_wf();
                lemma_take_members(ids, i as int);
                lemma_next_record(ids, i as int, ManageTypes::Addition);
                assert(ids[i as int] == id@);
            }
            match repository_versioning.get(id.as_str()) {
                Some(entry) => {
                    self.insert(entry.clone());
                },
                None => {},
            }
            bucket.insert(
                id.clone(),
                MetadataExtension {
                    build_time: repository_versioning.build_time().clone(),
                    built_with: repository_versioning.built_with().clone(),
                },
            );
            managed_extensions.push(ManagedExtension::new(id.clone(), ManageTypes::Addition));
            proof {
                assert(self@.sources =~= overlay(
                    catalog.sources,
                    source.sources,
                    done.insert(id@),
                ));
                assert(bucket@ =~= stamped(prior, done.insert(id@), provenance(source)));
                assert(records_view(managed_extensions@) =~= before.push(
                    fresh_record(id@, ManageTypes::Addition),
                ));
                assert(before.push(fresh_record(id@, ManageTypes::Addition)) =~= records
                    + fresh_records(ids.take(i + 1), ManageTypes::Addition));
            }
            i = i + 1;
        }
        proof {
            assert(ids.take(i as int) =~= ids);
        }
    }

    /// Lists each of `updates` as the source lists it and appends an update
    /// record for it, from the last id to the first.
    fn extension_updates(
        &mut self,
        repository_versioning: &Versioning,
        updates: &Vec<String>,
        managed_extensions: &mut ManagedExtensions,
    )
        requires
            old(self).wf(),
            repository_versioning.wf(),
            records_wf(old(managed_extensions)@),
            forall|i: int|
                0 <= i < updates@.len() ==> repository_versioning@.sources.contains_key(
                    #[trigger] updates@[i]@,
                ),
        ensures
            final(self).wf(),
            records_wf(final(managed_extensions)@),
            final(self)@ == (VersioningView {
                sources: overlay(
                    old(self)@.sources,
                    repository_versioning@.sources,
                    texts(updates@).to_set(),
                ),
                ..old(self)@
            }),
            records_view(final(managed_extensions)@) == records_view(old(managed_extensions)@)
                + fresh_records(texts(updates@).reverse(), ManageTypes::Update),
    {
        let ghost catalog = self@;
        let ghost records = records_view(managed_extensions@);
        let ghost source = repository_versioning@;
        let ghost ids = texts(updates@).reverse();
        let n: usize = updates.len();
        let mut i: usize = 0;
        proof {
            assert(ids.take(0).to_set() =~= Set::empty());
            assert(self@.sources =~= overlay(catalog.sources, source.sources, ids.take(0).to_set()));
            assert(records_view(managed_extensions@) =~= records + fresh_records(
                ids.take(0),
                ManageTypes::Update,
            ));
        }
        while i < n
            invariant
                i <= n,
                n == updates@.len(),
                ids == texts(updates@).reverse(),
                source == repository_versioning@,
                self.wf(),
                repository_versioning.wf(),
                records_wf(managed_extensions@),
                forall|i: int|
                    0 <= i < updates@.len() ==> repository_versioning@.sources.contains_key(
                        #[trigger] updates@[i]@,
                    ),
                self@ == (VersioningView {
                    sources: overlay(catalog.sources, source.sources, ids.take(i as int).to_set()),
                    ..catalog
                }),
                records_view(managed_extensions@) == records + fresh_records(
                    ids.take(i as int),
                    ManageTypes::Update,
                ),
            decreases n - i,
        {
            let id = &updates[n - 1 - i];
            let ghost before = records_view(managed_extensions@);
            let ghost done = ids.take(i as int).to_set();
            proof {
                repository_versioning.lemma_wf();
                lemma_take_members(ids, i as int);
                lemma_next_record(ids, i as int, ManageTypes::Update);
                assert(ids[i as int] == id@);
            }
            match repository_versioning.get(id.as_str()) {
                Some(entry) => {
                    self.insert(entry.clone());
                },
                None => {},
            }
            managed_extensions.push(ManagedExtension::new(id.clone(), ManageTypes::Update));
            proof {
                assert(self@.sources =~= overlay(
                    catalog.sources,
                    source.sources,
                    done.insert(id@),
                ));
                assert(records_view(managed_extensions@) =~= before.push(
                    fresh_record(id@, ManageTypes::Update),
                ));
                assert(before.push(fresh_record(id@, ManageTypes::Update)) =~= records
                    + fresh_records(ids.take(i + 1), ManageTypes::Update));
            }
            i = i + 1;
        }
        proof {
            assert(ids.take(i as int) =~= ids);
            lemma_reverse_members(texts(updates@));
        }
    }

    /// Takes each of `deletions` off the catalog and out of `bucket`, and
    /// appends a deletion record for it.
    fn extension_deletions(
        &mut self,
        bucket: &mut MetadataRepository,
        deletions: &Vec<String>,
        managed_extensions: &mut ManagedExtensions,
    )
        requires
            old(self).wf(),
            old(bucket).wf(),
            records_wf(old(managed_extensions)@),
        ensures
            final(self).wf(),
            final(bucket).wf(),
            records_wf(final(managed_extensions)@),
            final(self)@ == (VersioningView {
                sources: old(self)@.sources.remove_keys(texts(deletions@).to_set()),
                ..old(self)@
            }),
            final(bucket)@ == old(bucket)@.remove_keys(texts(deletions@).to_set()),
            records_view(final(managed_extensions)@) == records_view(old(managed_extensions)@)
                + fresh_records(texts(deletions@), ManageTypes::Deletion),
    {
        let ghost catalog = self@;
        let ghost prior = bucket@;
        let ghost records = records_view(managed_extensions@);
        let ghost ids = texts(deletions@);
        let mut i: usize = 0;
        proof {
            assert(ids.take(0).to_set() =~= Set::empty());
            assert(self@.sources =~= catalog.sources.remove_keys(ids.take(0).to_set()));
            assert(bucket@ =~= prior.remove_keys(ids.take(0).to_set()));
            assert(records_view(managed_extensions@) =~= records + fresh_records(
                ids.take(0),
                ManageTypes::Deletion,
            ));
        }
        while i < deletions.len()
            invariant
                i <= deletions@.len(),
                ids == texts(deletions@),
                self.wf(),
                bucket.wf(),
                records_wf(managed_extensions@),
                self@ == (VersioningView {
                    sources: catalog.sources.remove_keys(ids.take(i as int).to_set()),
                    ..catalog
                }),
                bucket@ == prior.remove_keys(ids.take(i as int).to_set()),
                records_view(managed_extensions@) == records + fresh_records(
                    ids.take(i as int),
                    ManageTypes::Deletion,
                ),
            decreases deletions@.len() - i,
        {
            let id = &deletions[i];
            let ghost before = records_view(managed_extensions@);
            let ghost done = ids.take(i as int).to_set();
            proof {
                lemma_take_members(ids, i as int);
                lemma_next_record(ids, i as int, ManageTypes::Deletion);
                assert(ids[i as int] == id@);
            }
            self.remove(id.as_str());
            bucket.remove(id.as_str());
            managed_extensions.push(ManagedExtension::new(id.clone(), ManageTypes::Deletion));
            proof {
                assert(self@.sources =~= catalog.sources.remove_keys(done.insert(id@)));
                assert(bucket@ =~= prior.remove_keys(done.insert(id@)));
                assert(records_view(managed_extensions@) =~= before.push(
                    fresh_record(id@, ManageTypes::Deletion),
                ));
                assert(before.push(fresh_record(id@, ManageTypes::Deletion)) =~= records
                    + fresh_records(ids.take(i + 1), ManageTypes::Deletion));
            }
            i = i + 1;
        }
        proof {
            assert(ids.take(i as int) =~= ids);
        }
    }
}

/// A reconciliation that changes nothing leaves the ledger as it is.
proof fn lemma_ledger_unchanged(metadata: Metadata, source: VersioningView, key: Seq<char>)
    requires
        metadata.wf(),
        additions(bucket_of(metadata@, key), source) == Set::<Seq<char>>::empty(),
        deletions(bucket_of(metadata@, key), source) == Set::<Seq<char>>::empty(),
    ensures
        reconciled_ledger(metadata@, source, key) == metadata@,
{
    let ledger = metadata@;
    let prior = bucket_of(ledger, key);
    metadata.lemma_wf();
    assert(reconciled_bucket(prior, source) =~= prior);
    if prior == BucketView::empty() {
        assert(!ledger.contains_key(key));
        assert(ledger.remove(key) =~= ledger);
    } else {
        assert(ledger.contains_key(key));
        assert(ledger.insert(key, prior) =~= ledger);
    }
}

/// What a reconciliation is going to do: the ids to add, to update and to
/// delete, each list in ascending order.
struct Plan {
    additions: Vec<String>,
    updates: Vec<String>,
    deletions: Vec<String>,
}

impl Plan {
    /// The plan is the one for the bucket `prior`, the manifest `source` and
    /// the newer versions `due`.
    spec fn is_for(&self, prior: BucketView, source: VersioningView, due: Set<Seq<char>>) -> bool {
        &&& texts(self.additions@) == ordered(additions(prior, source))
        &&& texts(self.additions@).to_set() == additions(prior, source)
        &&& texts(self.updates@) == ordered(updates(prior, source, due))
        &&& texts(self.updates@).to_set() == updates(prior, source, due)
        &&& texts(self.deletions@) == ordered(deletions(prior, source))
        &&& texts(self.deletions@).to_set() == deletions(prior, source)
    }

    /// Whether there is nothing to do.
    fn is_empty(&self) -> (r: bool)
        ensures
            r == (self.additions@.len() == 0 && self.updates@.len() == 0 && self.deletions@.len()
                == 0),
    {
        self.additions.len() == 0 && self.updates.len() == 0 && self.deletions.len() == 0
    }
}

/// A plan without an entry means no change record and an unchanged ledger.
proof fn lemma_empty_plan(
    plan: Plan,
    metadata: Metadata,
    source: VersioningView,
    key: Seq<char>,
    due: Set<Seq<char>>,
)
    requires
        metadata.wf(),
        plan.is_for(bucket_of(metadata@, key), source, due),
        plan.additions@.len() == 0,
        plan.updates@.len() == 0,
        plan.deletions@.len() == 0,
    ensures
        change_records(bucket_of(metadata@, key), source, due) == Seq::<
            ManagedExtensionView,
        >::empty(),
        reconciled_ledger(metadata@, source, key) == metadata@,
{
    assert(texts(plan.additions@).to_set() =~= Set::empty());
    assert(texts(plan.deletions@).to_set() =~= Set::empty());
    lemma_ledger_unchanged(metadata, source, key);
    assert(change_records(bucket_of(metadata@, key), source, due) =~= Seq::empty());
}

/// A plan with an entry means at least one change record.
proof fn lemma_busy_plan(plan: Plan, prior: BucketView, source: VersioningView, due: Set<Seq<char>>)
    requires
        plan.is_for(prior, source, due),
        !(plan.additions@.len() == 0 && plan.updates@.len() == 0 && plan.deletions@.len() == 0),
    ensures
        change_records(prior, source, due).len() > 0,
{
    assert(change_records(prior, source, due).len() == texts(plan.additions@).len() + texts(
        plan.updates@,
    ).reverse().len() + texts(plan.deletions@).len());
}

impl Versioning {
    /// Looks at what the ledger holds for the source and draws up the plan.
    fn plan(
        metadata: &Metadata,
        repository_versioning: &Versioning,
        source_key: &str,
        newer: &Vec<String>,
    ) -> (plan: Plan)
        requires
            metadata.wf(),
            repository_versioning.wf(),
        ensures
            plan.is_for(
                bucket_of(metadata@, source_key@),
                repository_versioning@,
                texts(newer@).to_set(),
            ),
    {
        let empty = MetadataRepository::new();
        let prior: &MetadataRepository = match metadata.bucket(source_key) {
            Some(bucket) => bucket,
            None => &empty,
        };
        Plan {
            additions: plan_additions(repository_versioning, prior),
            updates: plan_updates(repository_versioning, prior, newer),
            deletions: plan_deletions(repository_versioning, prior),
        }
    }

    /// Carries out a plan that holds at least one change, and stamps the
    /// catalog with the build time `now`.
    fn carry_out(
        &mut self,
        metadata: &mut Metadata,
        repository_versioning: &Versioning,
        source_key: &str,
        now: String,
        plan: &Plan,
        Ghost(due): Ghost<Set<Seq<char>>>,
    ) -> (records: ManagedExtensions)
        requires
            old(self).wf(),
            old(metadata).wf(),
            repository_versioning.wf(),
            plan.is_for(bucket_of(old(metadata)@, source_key@), repository_versioning@, due),
            !(plan.additions@.len() == 0 && plan.updates@.len() == 0 && plan.deletions@.len()
                == 0),
        ensures
            final(self).wf(),
            final(metadata).wf(),
            records_wf(records@),
            records@.len() > 0,
            records_view(records@) == change_records(
                bucket_of(old(metadata)@, source_key@),
                repository_versioning@,
                due,
            ),
            final(self)@ == reconciled_catalog(
                old(self)@,
                bucket_of(old(metadata)@, source_key@),
                repository_versioning@,
                due,
                now@,
            ),
            final(metadata)@ == reconciled_ledger(
                old(metadata)@,
                repository_versioning@,
                source_key@,
            ),
    {
        let ghost catalog = self@;
        let ghost ledger = metadata@;
        let ghost source = repository_versioning@;
        let ghost key = source_key@;
        let ghost prior = bucket_of(ledger, key);
        let ghost added = texts(plan.additions@);
        let ghost updated = texts(plan.updates@);
        let mut managed_extensions: ManagedExtensions = Vec::new();
        proof {
            assert(records_view(managed_extensions@) =~= Seq::empty());
            assert forall|i: int|
                0 <= i < plan.additions@.len() implies source.sources.contains_key(
                #[trigger] plan.additions@[i]@,
            ) by {
                assert(added[i] == plan.additions@[i]@);
                assert(added.to_set().contains(added[i]));
            }
            assert forall|i: int| 0 <= i < plan.updates@.len() implies source.sources.contains_key(
                #[trigger] plan.updates@[i]@,
            ) by {
                assert(updated[i] == plan.updates@[i]@);
                assert(updated.to_set().contains(updated[i]));
            }
        }
        let mut bucket = metadata.take(source_key);
        self.extension_additions(
            repository_versioning,
            &mut bucket,
            &plan.additions,
            &mut managed_extensions,
        );
        self.extension_updates(repository_versioning, &plan.updates, &mut managed_extensions);
        self.extension_deletions(&mut bucket, &plan.deletions, &mut managed_extensions);
        metadata.put(source_key, bucket);
        let first_change = self.repository().name.as_str().is_empty();
        self.set_build(now, repository_versioning.built_with().clone());
        if first_change {
            self.set_repository(
                Repository {
                    name: "Paperback Community Extensions (0.9)".to_owned(),
                    description: "All extensions from the Paperback Community combined into a single repository.".to_owned(),
                },
            );
        }
        proof {
            assert(records_view(managed_extensions@) =~= change_records(prior, source, due));
            assert(self@.sources =~= reconciled_sources(catalog.sources, prior, source, due));
            assert(bucket@ =~= reconciled_bucket(prior, source));
            assert(metadata@ =~= reconciled_ledger(ledger, source, key));
        }
        managed_extensions
    }

    /// Checks the source's toolchain and finds the extensions of which it
    /// holds a newer version than the catalog.
    fn examine(
        &self,
        metadata: &Metadata,
        repository_versioning: &Versioning,
        source_key: &str,
    ) -> (r: Result<Vec<String>, UpdateError>)
        requires
            self.wf(),
            metadata.wf(),
            repository_versioning.wf(),
        ensures
            match r {
                Ok(newer) => {
                    &&& update_error(self@, metadata@, repository_versioning@, source_key@)
                        is None
                    &&& updates(
                        bucket_of(metadata@, source_key@),
                        repository_versioning@,
                        texts(newer@).to_set(),
                    ) == updates(
                        bucket_of(metadata@, source_key@),
                        repository_versioning@,
                        due_updates(self@, repository_versioning@),
                    )
                },
                Err(e) => update_error(self@, metadata@, repository_versioning@, source_key@)
                    == Some(e),
            },
    {
        let required = SemVer::parse_or(self.built_with().types.as_str(), SemVer::new(0, 9, 0));
        let declared = parse_version(repository_versioning.built_with().types.as_str());
        match toolchain_verdict(&required, &declared) {
            Some(e) => {
                return Err(e);
            },
            None => {},
        }
        let empty = MetadataRepository::new();
        let prior: &MetadataRepository = match metadata.bucket(source_key) {
            Some(bucket) => bucket,
            None => &empty,
        };
        match newer_versions(self, repository_versioning, prior) {
            Ok(newer) => {
                proof {
                    assert(updates(
                        prior@,
                        repository_versioning@,
                        texts(newer@).to_set(),
                    ) =~= updates(
                        prior@,
                        repository_versioning@,
                        due_updates(self@, repository_versioning@),
                    ));
                }
                Ok(newer)
            },
            Err(e) => Err(e),
        }
    }

    /// Reconciles this catalog and the ledger `metadata` with the manifest
    /// `repository_versioning` of the source repository filed under
    /// `source_key`, at the time `now`, where `newer` names the extensions of
    /// which the source holds a newer version than the catalog.
    ///
    /// The change records come back, and catalog and ledger are as
    /// [`reconciled_catalog`] and [`reconciled_ledger`] say; without a change
    /// record both are left untouched.
    pub fn apply(
        &mut self,
        metadata: &mut Metadata,
        repository_versioning: &Versioning,
        source_key: &str,
        now: String,
        newer: &Vec<String>,
    ) -> (records: ManagedExtensions)
        requires
            old(self).wf(),
            old(metadata).wf(),
            repository_versioning.wf(),
        ensures
            final(self).wf(),
            final(metadata).wf(),
            records_wf(records@),
            records_view(records@) == change_records(
                bucket_of(old(metadata)@, source_key@),
                repository_versioning@,
                texts(newer@).to_set(),
            ),
            final(self)@ == reconciled_catalog(
                old(self)@,
                bucket_of(old(metadata)@, source_key@),
                repository_versioning@,
                texts(newer@).to_set(),
                now@,
            ),
            final(metadata)@ == reconciled_ledger(
                old(metadata)@,
                repository_versioning@,
                source_key@,
            ),
            records@.len() == 0 ==> *final(self) == *old(self) && *final(metadata) == *old(
                metadata,
            ),
    {
        let ghost due = texts(newer@).to_set();
        let plan = Versioning::plan(metadata, repository_versioning, source_key, newer);
        if plan.is_empty() {
            let unchanged: ManagedExtensions = Vec::new();
            proof {
                lemma_empty_plan(plan, *metadata, repository_versioning@, source_key@, due);
                assert(records_view(unchanged@) =~= Seq::empty());
            }
            return unchanged;
        }
        self.carry_out(metadata, repository_versioning, source_key, now, &plan, Ghost(due))
    }

    /// Reconciles this catalog and the ledger `metadata` with the manifest
    /// `repository_versioning` of the source repository filed under
    /// `source_key`, at the time `now`.
    ///
    /// A refusal changes nothing. Otherwise the change records come back, and
    /// catalog and ledger are as [`reconciled_catalog`] and
    /// [`reconciled_ledger`] say, an extension being updated where the
    /// source's version of it is newer than the catalog's; without a change
    /// record both are left untouched.
    pub fn update_at(
        &mut self,
        metadata: &mut Metadata,
        repository_versioning: &Versioning,
        source_key: &str,
        now: String,
    ) -> (r: Result<ManagedExtensions, UpdateError>)
        requires
            old(self).wf(),
            old(metadata).wf(),
            repository_versioning.wf(),
        ensures
            final(self).wf(),
            final(metadata).wf(),
            match r {
                Ok(records) => {
                    &&& update_error(
                        old(self)@,
                        old(metadata)@,
                        repository_versioning@,
                        source_key@,
                    ) is None
                    &&& records_wf(records@)
                    &&& records_view(records@) == change_records(
                        bucket_of(old(metadata)@, source_key@),
                        repository_versioning@,
                        due_updates(old(self)@, repository_versioning@),
                    )
                    &&& final(self)@ == reconciled_catalog(
                        old(self)@,
                        bucket_of(old(metadata)@, source_key@),
                        repository_versioning@,
                        due_updates(old(self)@, repository_versioning@),
                        now@,
                    )
                    &&& final(metadata)@ == reconciled_ledger(
                        old(metadata)@,
                        repository_versioning@,
                        source_key@,
                    )
                    &&& records@.len() == 0 ==> *final(self) == *old(self) && *final(metadata)
                        == *old(metadata)
                },
                Err(e) => {
                    &&& update_error(
                        old(self)@,
                        old(metadata)@,
                        repository_versioning@,
                        source_key@,
                    ) == Some(e)
                    &&& *final(self) == *old(self)
                    &&& *final(metadata) == *old(metadata)
                },
            },
    {
        match self.examine(metadata, repository_versioning, source_key) {
            Ok(newer) => Ok(self.apply(metadata, repository_versioning, source_key, now, &newer)),
            Err(e) => Err(e),
        }
    }

    /// Reconciles this catalog and the ledger `metadata` with the manifest
    /// `repository_versioning` of the source repository filed under
    /// `source_key`, at the time that the clock shows.
    ///
    /// The outcome is that of [`Versioning::update_at`] for the build time
    /// that was read. The clock is read only where there is a change to
    /// stamp; where it shows no time that can be written down, the
    /// reconciliation is refused and changes nothing.
    pub fn update(
        &mut self,
        metadata: &mut Metadata,
        repository_versioning: &Versioning,
        source_key: &str,
    ) -> (r: Result<ManagedExtensions, UpdateError>)
        requires
            old(self).wf(),
            old(metadata).wf(),
            repository_versioning.wf(),
        ensures
            final(self).wf(),
            final(metadata).wf(),
            match r {
                Ok(records) => {
                    &&& update_error(
                        old(self)@,
                        old(metadata)@,
                        repository_versioning@,
                        source_key@,
                    ) is None
                    &&& records_wf(records@)
                    &&& records_view(records@) == change_records(
                        bucket_of(old(metadata)@, source_key@),
                        repository_versioning@,
                        due_updates(old(self)@, repository_versioning@),
                    )
                    &&& exists|now: Seq<char>|
                        final(self)@ == reconciled_catalog(
                            old(self)@,
                            bucket_of(old(metadata)@, source_key@),
                            repository_versioning@,
                            due_updates(old(self)@, repository_versioning@),
                            now,
                        )
                    &&& final(metadata)@ == reconciled_ledger(
                        old(metadata)@,
                        repository_versioning@,
                        source_key@,
                    )
                    &&& records@.len() == 0 ==> *final(self) == *old(self) && *final(metadata)
                        == *old(metadata)
                },
                Err(e) => {
                    &&& *final(self) == *old(self)
                    &&& *final(metadata) == *old(metadata)
                    &&& if e == UpdateError::ClockUnreadable {
                        &&& update_error(
                            old(self)@,
                            old(metadata)@,
                            repository_versioning@,
                            source_key@,
                        ) is None
                        &&& change_records(
                            bucket_of(old(metadata)@, source_key@),
                            repository_versioning@,
                            due_updates(old(self)@, repository_versioning@),
                        ).len() > 0
                    } else {
                        update_error(
                            old(self)@,
                            old(metadata)@,
                            repository_versioning@,
                            source_key@,
                        ) == Some(e)
                    }
                },
            },
            update_error(old(self)@, old(metadata)@, repository_versioning@, source_key@)
                is None && change_records(
                bucket_of(old(metadata)@, source_key@),
                repository_versioning@,
                due_updates(old(self)@, repository_versioning@),
            ).len() == 0 ==> r is Ok,
    {
        let ghost prior = bucket_of(metadata@, source_key@);
        let ghost due = due_updates(self@, repository_versioning@);
        let newer = match self.examine(metadata, repository_versioning, source_key) {
            Ok(newer) => newer,
            Err(e) => {
                return Err(e);
            },
        };
        let plan = Versioning::plan(metadata, repository_versioning, source_key, &newer);
        if plan.is_empty() {
            let unchanged: ManagedExtensions = Vec::new();
            proof {
                lemma_empty_plan(
                    plan,
                    *metadata,
                    repository_versioning@,
                    source_key@,
                    texts(newer@).to_set(),
                );
                assert(records_view(unchanged@) =~= Seq::empty());
                assert(self@ == reconciled_catalog(
                    self@,
                    prior,
                    repository_versioning@,
                    due,
                    Seq::empty(),
                ));
            }
            return Ok(unchanged);
        }
        proof {
            lemma_busy_plan(plan, prior, repository_versioning@, texts(newer@).to_set());
        }
        let now = match current_build_time() {
            Some(now) => now,
            None => {
                return Err(UpdateError::ClockUnreadable);
            },
        };
        let ghost stamp = now@;
        let records = self.carry_out(
            metadata,
            repository_versioning,
            source_key,
            now,
            &plan,
            Ghost(texts(newer@).to_set()),
        );
        proof {
            assert(self@ == reconciled_catalog(
                old(self)@,
                prior,
                repository_versioning@,
                due,
                stamp,
            ));
        }
        Ok(records)
    }
}

} // verus!
