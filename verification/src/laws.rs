//! What holds of every reconciliation.

use vstd::prelude::*;
use vstd::set_lib::lemma_set_subset_finite;
use crate::materializer::{
    begin_spec, coherent, script_path, step_spec, MaterializerView, RequestView, ResponseView,
};
use crate::publisher::{
    begin_publishing, orderly, publish_step, PublishStage, PublisherView,
};
use crate::reconcile::{
    additions, change_records, deletions, due_updates, fresh_records, incompatible, is_template,
    provenance, reconciled_bucket, reconciled_catalog, reconciled_ledger, shared, update_error,
    updates, UpdateError,
};
use crate::registry::Document;
use crate::requests::{file_entries, tree_after, tree_entries, tree_entry, RequestFileView};
use crate::semver::{lemma_newer_irreflexive, parsed_semver};
use crate::text_map::{lemma_ordered_finite, ordered};
use crate::versioning::{
    bucket_of, fresh_record, BucketView, LedgerView, ManageTypes, ManagedExtensionView, Metadata,
    Versioning, VersioningView,
};

verus! {

/// `record` is the only record in `records` about its extension.
pub open spec fn sole_record(records: Seq<ManagedExtensionView>, record: ManagedExtensionView) -> bool {
    &&& records.contains(record)
    &&& forall|i: int, j: int|
        0 <= i < records.len() && 0 <= j < records.len() && (#[trigger] records[i]).id == record.id
            && (#[trigger] records[j]).id == record.id ==> i == j
}

/// No record in `records` is about `id`.
pub open spec fn no_record(records: Seq<ManagedExtensionView>, id: Seq<char>) -> bool {
    forall|i: int| 0 <= i < records.len() ==> (#[trigger] records[i]).id != id
}

/// The three classes of a reconciliation are finite and share no id.
proof fn lemma_classes(prior: BucketView, source: VersioningView, due: Set<Seq<char>>)
    requires
        source.sources.dom().finite(),
        prior.dom().finite(),
    ensures
        additions(prior, source).finite(),
        updates(prior, source, due).finite(),
        deletions(prior, source).finite(),
        additions(prior, source).disjoint(updates(prior, source, due)),
        additions(prior, source).disjoint(deletions(prior, source)),
        updates(prior, source, due).disjoint(deletions(prior, source)),
{
    lemma_set_subset_finite(source.sources.dom(), additions(prior, source));
    lemma_set_subset_finite(source.sources.dom(), updates(prior, source, due));
    lemma_set_subset_finite(prior.dom(), deletions(prior, source));
}

/// The change records hold one record without files for each added, updated
/// and deleted id, of the matching kind, and no other record.
pub proof fn law_one_record_per_change(
    metadata: Metadata,
    source: Versioning,
    key: Seq<char>,
    due: Set<Seq<char>>,
)
    requires
        metadata.wf(),
        source.wf(),
    ensures
        forall|id: Seq<char>| #[trigger]
            additions(bucket_of(metadata@, key), source@).contains(id) ==> sole_record(
                change_records(bucket_of(metadata@, key), source@, due),
                fresh_record(id, ManageTypes::Addition),
            ),
        forall|id: Seq<char>| #[trigger]
            updates(bucket_of(metadata@, key), source@, due).contains(id) ==> sole_record(
                change_records(bucket_of(metadata@, key), source@, due),
                fresh_record(id, ManageTypes::Update),
            ),
        forall|id: Seq<char>| #[trigger]
            deletions(bucket_of(metadata@, key), source@).contains(id) ==> sole_record(
                change_records(bucket_of(metadata@, key), source@, due),
                fresh_record(id, ManageTypes::Deletion),
            ),
        forall|id: Seq<char>|
            !additions(bucket_of(metadata@, key), source@).contains(id) && !updates(
                bucket_of(metadata@, key),
                source@,
                due,
            ).contains(id) && !deletions(bucket_of(metadata@, key), source@).contains(id)
                ==> #[trigger] no_record(
                change_records(bucket_of(metadata@, key), source@, due),
                id,
            ),
{
    source.lemma_wf();
    metadata.lemma_wf();
    lemma_records(bucket_of(metadata@, key), source@, due);
}

/// [`law_one_record_per_change`] over the models.
pub proof fn lemma_records(prior: BucketView, source: VersioningView, due: Set<Seq<char>>)
    requires
        source.sources.dom().finite(),
        prior.dom().finite(),
    ensures
        forall|id: Seq<char>| #[trigger]
            additions(prior, source).contains(id) ==> sole_record(
                change_records(prior, source, due),
                fresh_record(id, ManageTypes::Addition),
            ),
        forall|id: Seq<char>| #[trigger]
            updates(prior, source, due).contains(id) ==> sole_record(
                change_records(prior, source, due),
                fresh_record(id, ManageTypes::Update),
            ),
        forall|id: Seq<char>| #[trigger]
            deletions(prior, source).contains(id) ==> sole_record(
                change_records(prior, source, due),
                fresh_record(id, ManageTypes::Deletion),
            ),
        forall|id: Seq<char>|
            !additions(prior, source).contains(id) && !updates(prior, source, due).contains(id)
                && !deletions(prior, source).contains(id) ==> #[trigger] no_record(
                change_records(prior, source, due),
                id,
            ),
        change_records(prior, source, due).len() == additions(prior, source).len() + updates(
            prior,
            source,
            due,
        ).len() + deletions(prior, source).len(),
{
    let a = additions(prior, source);
    let u = updates(prior, source, due);
    let d = deletions(prior, source);
    lemma_classes(prior, source, due);
    lemma_ordered_finite(a);
    lemma_ordered_finite(u);
    lemma_ordered_finite(d);
    let la = ordered(a);
    let lu = ordered(u).reverse();
    let ld = ordered(d);
    let ra = fresh_records(la, ManageTypes::Addition);
    let ru = fresh_records(lu, ManageTypes::Update);
    let rd = fresh_records(ld, ManageTypes::Deletion);
    let records = change_records(prior, source, due);
    assert(records == ra + ru + rd);
    let na = la.len() as int;
    let nu = lu.len() as int;
    // The id and the kind at each position.
    assert forall|i: int| 0 <= i < records.len() implies {
        &&& i < na ==> records[i] == fresh_record(la[i], ManageTypes::Addition) && a.contains(la[i])
        &&& na <= i < na + nu ==> records[i] == fresh_record(lu[i - na], ManageTypes::Update)
            && u.contains(lu[i - na])
        &&& na + nu <= i ==> records[i] == fresh_record(ld[i - na - nu], ManageTypes::Deletion)
            && d.contains(ld[i - na - nu])
    } by {
        if i < na {
            assert(la.contains(la[i]));
        } else if i < na + nu {
            assert(lu[i - na] == ordered(u)[nu - 1 - (i - na)]);
            assert(ordered(u).contains(ordered(u)[nu - 1 - (i - na)]));
        } else {
            assert(ld.contains(ld[i - na - nu]));
        }
    }
    assert forall|i: int, j: int|
        0 <= i < records.len() && 0 <= j < records.len() && records[i].id == records[j].id implies i
        == j by {
        if i < na {
            assert(a.contains(records[i].id));
        } else if i < na + nu {
            assert(u.contains(records[i].id));
        } else {
            assert(d.contains(records[i].id));
        }
        if j < na {
            assert(a.contains(records[j].id));
        } else if j < na + nu {
            assert(u.contains(records[j].id));
        } else {
            assert(d.contains(records[j].id));
        }
        if i < na {
            assert(la[i] == la[j]);
        } else if i < na + nu {
            assert(ordered(u)[nu - 1 - (i - na)] == ordered(u)[nu - 1 - (j - na)]);
        } else {
            assert(ld[i - na - nu] == ld[j - na - nu]);
        }
    }
    assert forall|id: Seq<char>| #[trigger] a.contains(id) implies sole_record(
        records,
        fresh_record(id, ManageTypes::Addition),
    ) by {
        assert(la.contains(id));
        let i = choose|i: int| 0 <= i < la.len() && la[i] == id;
        assert(records[i] == fresh_record(id, ManageTypes::Addition));
    }
    assert forall|id: Seq<char>| #[trigger] u.contains(id) implies sole_record(
        records,
        fresh_record(id, ManageTypes::Update),
    ) by {
        assert(ordered(u).contains(id));
        let i = choose|i: int| 0 <= i < ordered(u).len() && ordered(u)[i] == id;
        assert(lu[nu - 1 - i] == id);
        assert(records[na + nu - 1 - i] == fresh_record(id, ManageTypes::Update));
    }
    assert forall|id: Seq<char>| #[trigger] d.contains(id) implies sole_record(
        records,
        fresh_record(id, ManageTypes::Deletion),
    ) by {
        assert(ld.contains(id));
        let i = choose|i: int| 0 <= i < ld.len() && ld[i] == id;
        assert(records[na + nu + i] == fresh_record(id, ManageTypes::Deletion));
    }
    assert forall|id: Seq<char>| !a.contains(id) && !u.contains(id) && !d.contains(id) implies #[trigger] no_record(
        records,
        id,
    ) by {
        assert forall|i: int| 0 <= i < records.len() implies (#[trigger] records[i]).id != id by {
            if i < na {
                assert(a.contains(records[i].id));
            } else if i < na + nu {
                assert(u.contains(records[i].id));
            } else {
                assert(d.contains(records[i].id));
            }
        }
    }
}

/// A source that declares an interface version below the one that the
/// catalog asks for is refused as incompatible.
pub proof fn law_incompatible_toolchain_is_refused(
    catalog: VersioningView,
    ledger: LedgerView,
    source: VersioningView,
    key: Seq<char>,
)
    requires
        incompatible(catalog, source),
    ensures
        update_error(catalog, ledger, source, key) == Some(UpdateError::IncompatibleToolchain),
{
}

/// An id that the source lists and the ledger does not ascribe to it yet,
/// and whose name is not that of a placeholder, is added: the change records
/// hold one record about it, an addition; the catalog lists it as the source
/// does; and the source's bucket records it with the source's build.
pub proof fn law_addition(
    catalog: Versioning,
    metadata: Metadata,
    source: Versioning,
    key: Seq<char>,
    due: Set<Seq<char>>,
    now: Seq<char>,
    id: Seq<char>,
)
    requires
        catalog.wf(),
        metadata.wf(),
        source.wf(),
        source@.sources.contains_key(id),
        !bucket_of(metadata@, key).contains_key(id),
        !is_template(source@.sources[id]),
    ensures
        sole_record(
            change_records(bucket_of(metadata@, key), source@, due),
            fresh_record(id, ManageTypes::Addition),
        ),
        reconciled_catalog(
            catalog@,
            bucket_of(metadata@, key),
            source@,
            due,
            now,
        ).sources.contains_key(id),
        reconciled_catalog(catalog@, bucket_of(metadata@, key), source@, due, now).sources[id]
            == source@.sources[id],
        reconciled_ledger(metadata@, source@, key).contains_key(key),
        reconciled_ledger(metadata@, source@, key)[key].contains_key(id),
        reconciled_ledger(metadata@, source@, key)[key][id] == provenance(source@),
{
    source.lemma_wf();
    metadata.lemma_wf();
    let prior = bucket_of(metadata@, key);
    lemma_records(prior, source@, due);
    assert(additions(prior, source@).contains(id));
    assert(reconciled_bucket(prior, source@).contains_key(id));
}

/// An id that the source lists and the ledger ascribes to it is updated
/// where the source holds a newer version of it: the change records hold one
/// record about it, an update, and the catalog lists it as the source does.
/// Where the source's version is not newer, no record is about it and the
/// catalog lists it as before.
pub proof fn law_update(
    catalog: Versioning,
    metadata: Metadata,
    source: Versioning,
    key: Seq<char>,
    due: Set<Seq<char>>,
    now: Seq<char>,
    id: Seq<char>,
)
    requires
        catalog.wf(),
        metadata.wf(),
        source.wf(),
        source@.sources.contains_key(id),
        bucket_of(metadata@, key).contains_key(id),
    ensures
        due.contains(id) ==> {
            &&& sole_record(
                change_records(bucket_of(metadata@, key), source@, due),
                fresh_record(id, ManageTypes::Update),
            )
            &&& reconciled_catalog(
                catalog@,
                bucket_of(metadata@, key),
                source@,
                due,
                now,
            ).sources.contains_key(id)
            &&& reconciled_catalog(
                catalog@,
                bucket_of(metadata@, key),
                source@,
                due,
                now,
            ).sources[id] == source@.sources[id]
        },
        !due.contains(id) ==> {
            &&& no_record(change_records(bucket_of(metadata@, key), source@, due), id)
            &&& reconciled_catalog(
                catalog@,
                bucket_of(metadata@, key),
                source@,
                due,
                now,
            ).sources.contains_key(id) == catalog@.sources.contains_key(id)
            &&& catalog@.sources.contains_key(id) ==> reconciled_catalog(
                catalog@,
                bucket_of(metadata@, key),
                source@,
                due,
                now,
            ).sources[id] == catalog@.sources[id]
        },
{
    source.lemma_wf();
    metadata.lemma_wf();
    let prior = bucket_of(metadata@, key);
    lemma_records(prior, source@, due);
    assert(shared(prior, source@).contains(id));
    if due.contains(id) {
        assert(updates(prior, source@, due).contains(id));
    } else {
        assert(!additions(prior, source@).contains(id));
        assert(!updates(prior, source@, due).contains(id));
        assert(!deletions(prior, source@).contains(id));
    }
}

/// An id that the ledger ascribes to the source and the source lists no more
/// is deleted: the change records hold one record about it, a deletion; the
/// catalog and the source's bucket hold it no more; and a bucket that is left
/// empty is gone from the ledger.
pub proof fn law_deletion(
    catalog: Versioning,
    metadata: Metadata,
    source: Versioning,
    key: Seq<char>,
    due: Set<Seq<char>>,
    now: Seq<char>,
    id: Seq<char>,
)
    requires
        catalog.wf(),
        metadata.wf(),
        source.wf(),
        bucket_of(metadata@, key).contains_key(id),
        !source@.sources.contains_key(id),
    ensures
        sole_record(
            change_records(bucket_of(metadata@, key), source@, due),
            fresh_record(id, ManageTypes::Deletion),
        ),
        !reconciled_catalog(
            catalog@,
            bucket_of(metadata@, key),
            source@,
            due,
            now,
        ).sources.contains_key(id),
        !bucket_of(reconciled_ledger(metadata@, source@, key), key).contains_key(id),
        reconciled_bucket(bucket_of(metadata@, key), source@) == BucketView::empty()
            ==> !reconciled_ledger(metadata@, source@, key).contains_key(key),
{
    source.lemma_wf();
    metadata.lemma_wf();
    let prior = bucket_of(metadata@, key);
    lemma_records(prior, source@, due);
    assert(deletions(prior, source@).contains(id));
    assert(!reconciled_bucket(prior, source@).contains_key(id));
}

/// An extension of the source whose name is that of a placeholder, and that
/// the ledger does not ascribe to the source, is passed over: no record is
/// about it, the catalog lists its id or not as before, and the source's
/// bucket does not record it.
pub proof fn law_template_is_ignored(
    catalog: Versioning,
    metadata: Metadata,
    source: Versioning,
    key: Seq<char>,
    due: Set<Seq<char>>,
    now: Seq<char>,
    id: Seq<char>,
)
    requires
        catalog.wf(),
        metadata.wf(),
        source.wf(),
        source@.sources.contains_key(id),
        is_template(source@.sources[id]),
        !bucket_of(metadata@, key).contains_key(id),
    ensures
        no_record(change_records(bucket_of(metadata@, key), source@, due), id),
        reconciled_catalog(
            catalog@,
            bucket_of(metadata@, key),
            source@,
            due,
            now,
        ).sources.contains_key(id) == catalog@.sources.contains_key(id),
        catalog@.sources.contains_key(id) ==> reconciled_catalog(
            catalog@,
            bucket_of(metadata@, key),
            source@,
            due,
            now,
        ).sources[id] == catalog@.sources[id],
        !bucket_of(reconciled_ledger(metadata@, source@, key), key).contains_key(id),
{
    source.lemma_wf();
    metadata.lemma_wf();
    let prior = bucket_of(metadata@, key);
    lemma_records(prior, source@, due);
    assert(!additions(prior, source@).contains(id));
    assert(!updates(prior, source@, due).contains(id));
    assert(!deletions(prior, source@).contains(id));
    assert(!reconciled_bucket(prior, source@).contains_key(id));
}

/// Reconciling once more with the same source changes nothing: after a
/// reconciliation that was not refused, a second one with the same source
/// yields no change record and leaves catalog and ledger as the first left
/// them. The second one is not refused either, provided that the versions of
/// the extensions that the first one added or updated can be read.
pub proof fn law_idempotent(
    catalog: Versioning,
    metadata: Metadata,
    source: Versioning,
    key: Seq<char>,
    now: Seq<char>,
    later: Seq<char>,
)
    requires
        catalog.wf(),
        metadata.wf(),
        source.wf(),
        update_error(catalog@, metadata@, source@, key) is None,
    ensures
        ({
            let first = reconciled_catalog(
                catalog@,
                bucket_of(metadata@, key),
                source@,
                due_updates(catalog@, source@),
                now,
            );
            let ledger = reconciled_ledger(metadata@, source@, key);
            &&& change_records(bucket_of(ledger, key), source@, due_updates(first, source@)).len()
                == 0
            &&& reconciled_catalog(
                first,
                bucket_of(ledger, key),
                source@,
                due_updates(first, source@),
                later,
            ) == first
            &&& reconciled_ledger(ledger, source@, key) == ledger
            &&& (forall|id: Seq<char>|
                additions(bucket_of(metadata@, key), source@).contains(id) || updates(
                    bucket_of(metadata@, key),
                    source@,
                    due_updates(catalog@, source@),
                ).contains(id) ==> parsed_semver(#[trigger] source@.sources[id].version) is Some)
                ==> update_error(first, ledger, source@, key) is None
        }),
{
    source.lemma_wf();
    metadata.lemma_wf();
    let c = catalog@;
    let l = metadata@;
    let s = source@;
    let prior = bucket_of(l, key);
    let due = due_updates(c, s);
    let c2 = reconciled_catalog(c, prior, s, due, now);
    let l2 = reconciled_ledger(l, s, key);
    let prior2 = bucket_of(l2, key);
    let due2 = due_updates(c2, s);
    lemma_records(prior, s, due);
    lemma_classes(prior, s, due);
    assert(prior2 == reconciled_bucket(prior, s));
    assert(prior2.dom().finite()) by {
        lemma_set_subset_finite(prior.dom().union(s.sources.dom()), prior2.dom());
    }
    assert(additions(prior2, s) =~= Set::empty());
    assert(deletions(prior2, s) =~= Set::empty());
    assert forall|id: Seq<char>| !updates(prior2, s, due2).contains(id) by {
        if shared(prior2, s).contains(id) {
            if change_records(prior, s, due).len() == 0 {
                additions(prior, s).lemma_len0_is_empty();
                updates(prior, s, due).lemma_len0_is_empty();
                deletions(prior, s).lemma_len0_is_empty();
                assert(!additions(prior, s).contains(id));
                assert(!updates(prior, s, due).contains(id));
                assert(shared(prior, s).contains(id));
            } else if additions(prior, s).contains(id) || updates(prior, s, due).contains(id) {
                assert(c2.sources[id] == s.sources[id]);
                if parsed_semver(s.sources[id].version) is Some {
                    lemma_newer_irreflexive(parsed_semver(s.sources[id].version)->0);
                }
            } else {
                assert(shared(prior, s).contains(id));
                assert(c2.sources[id] == c.sources[id]);
            }
        }
    }
    assert(updates(prior2, s, due2) =~= Set::empty());
    lemma_ordered_finite(Set::<Seq<char>>::empty());
    assert(reconciled_bucket(prior2, s) =~= prior2);
    if prior2 == BucketView::empty() {
        assert(l2.remove(key) =~= l2);
    } else {
        assert(l2.insert(key, prior2) =~= l2);
    }
    if forall|id: Seq<char>|
        additions(prior, s).contains(id) || updates(prior, s, due).contains(id) ==> parsed_semver(
            #[trigger] s.sources[id].version,
        ) is Some {
        let declared = parsed_semver(s.built_with.types)->0;
        if change_records(prior, s, due).len() != 0 {
            lemma_newer_irreflexive(declared);
        }
        assert(!incompatible(c2, s));
        assert forall|id: Seq<char>| #[trigger]
            shared(prior2, s).contains(id) implies c2.sources.contains_key(id) && parsed_semver(
            c2.sources[id].version,
        ) is Some by {
            if change_records(prior, s, due).len() == 0 {
                additions(prior, s).lemma_len0_is_empty();
                deletions(prior, s).lemma_len0_is_empty();
                assert(!additions(prior, s).contains(id));
                assert(shared(prior, s).contains(id));
            } else if additions(prior, s).contains(id) || updates(prior, s, due).contains(id) {
                assert(c2.sources[id] == s.sources[id]);
            } else {
                assert(shared(prior, s).contains(id));
                assert(c2.sources[id] == c.sources[id]);
            }
        }
    }
}

/// Every entry that a file map asks for names one of its paths with what the
/// map holds for it, and every path has its entry.
proof fn lemma_file_entries(files: Map<Seq<char>, Option<Seq<char>>>)
    requires
        files.dom().finite(),
    ensures
        forall|k: int|
            0 <= k < file_entries(files).len() ==> files.contains_key(
                (#[trigger] file_entries(files)[k]).path,
            ) && file_entries(files)[k] == tree_entry(
                file_entries(files)[k].path,
                files[file_entries(files)[k].path],
            ),
        forall|path: Seq<char>| #[trigger]
            files.contains_key(path) ==> file_entries(files).contains(
                tree_entry(path, files[path]),
            ),
{
    lemma_ordered_finite(files.dom());
    let paths = ordered(files.dom());
    assert forall|k: int| 0 <= k < file_entries(files).len() implies files.contains_key(
        (#[trigger] file_entries(files)[k]).path,
    ) && file_entries(files)[k] == tree_entry(
        file_entries(files)[k].path,
        files[file_entries(files)[k].path],
    ) by {
        assert(paths.contains(paths[k]));
    }
    assert forall|path: Seq<char>| #[trigger] files.contains_key(path) implies file_entries(
        files,
    ).contains(tree_entry(path, files[path])) by {
        assert(paths.contains(path));
        let k = choose|k: int| 0 <= k < paths.len() && paths[k] == path;
        assert(file_entries(files)[k] == tree_entry(path, files[path]));
    }
}

/// A path that every entry naming it takes away is in the new tree only
/// where the base tree holds it and no entry names it.
proof fn lemma_tree_after_tombstones(
    base: Map<Seq<char>, Seq<char>>,
    entries: Seq<RequestFileView>,
    path: Seq<char>,
)
    requires
        forall|k: int|
            0 <= k < entries.len() && (#[trigger] entries[k]).path == path ==> entries[k].sha
                is None,
    ensures
        tree_after(base, entries).contains_key(path) <==> base.contains_key(path) && forall|k: int|
            0 <= k < entries.len() ==> (#[trigger] entries[k]).path != path,
    decreases entries.len(),
{
    if entries.len() > 0 {
        let rest = entries.drop_last();
        assert forall|k: int| 0 <= k < rest.len() && (#[trigger] rest[k]).path == path implies rest[k].sha
            is None by {
            assert(rest[k] == entries[k]);
        }
        lemma_tree_after_tombstones(base, rest, path);
        if tree_after(base, entries).contains_key(path) {
            assert(entries.last().path != path);
            assert forall|k: int| 0 <= k < entries.len() implies (#[trigger] entries[k]).path
                != path by {
                if k < rest.len() {
                    assert(rest[k] == entries[k]);
                }
            }
        }
        if base.contains_key(path) && forall|k: int|
            0 <= k < entries.len() ==> (#[trigger] entries[k]).path != path {
            assert forall|k: int| 0 <= k < rest.len() implies (#[trigger] rest[k]).path != path by {
                assert(rest[k] == entries[k]);
            }
            assert(entries[entries.len() - 1].path != path);
        }
    }
}

/// Asking for two lists of entries in a row is asking for the first and then,
/// on top of its tree, for the second.
proof fn lemma_tree_after_concat(
    base: Map<Seq<char>, Seq<char>>,
    first: Seq<RequestFileView>,
    second: Seq<RequestFileView>,
)
    ensures
        tree_after(base, first + second) == tree_after(tree_after(base, first), second),
    decreases second.len(),
{
    if second.len() == 0 {
        assert(first + second =~= first);
    } else {
        assert((first + second).drop_last() =~= first + second.drop_last());
        assert((first + second).last() == second.last());
        lemma_tree_after_concat(base, first, second.drop_last());
    }
}

/// A path that a change record maps to no hash is absent from the tree that
/// the records ask for, whether the base tree holds it or not, where no later
/// record names the path.
pub proof fn law_tombstone(
    base: Map<Seq<char>, Seq<char>>,
    records: Seq<ManagedExtensionView>,
    at: int,
    path: Seq<char>,
)
    requires
        forall|i: int| 0 <= i < records.len() ==> (#[trigger] records[i]).files.dom().finite(),
        0 <= at < records.len(),
        records[at].files.contains_key(path),
        records[at].files[path] is None,
        forall|i: int| at < i < records.len() ==> !(#[trigger] records[i]).files.contains_key(path),
    ensures
        !tree_after(base, tree_entries(records)).contains_key(path),
    decreases records.len(),
{
    let rest = records.drop_last();
    let last = records.last();
    let below = tree_after(base, tree_entries(rest));
    let top = file_entries(last.files);
    assert(tree_entries(records) == tree_entries(rest) + top);
    lemma_tree_after_concat(base, tree_entries(rest), top);
    lemma_file_entries(last.files);
    if at == records.len() - 1 {
        assert(top.contains(tree_entry(path, last.files[path])));
        let k = choose|k: int| 0 <= k < top.len() && top[k] == tree_entry(path, last.files[path]);
        assert(top[k].path == path);
        lemma_tree_after_tombstones(below, top, path);
    } else {
        assert(!last.files.contains_key(path));
        assert forall|i: int| 0 <= i < rest.len() implies (#[trigger] rest[i]).files.dom().finite() by {
            assert(rest[i] == records[i]);
        }
        assert(rest[at] == records[at]);
        assert forall|i: int| at < i < rest.len() implies !(#[trigger] rest[i]).files.contains_key(
            path,
        ) by {
            assert(rest[i] == records[i]);
        }
        law_tombstone(base, rest, at, path);
        lemma_tree_after_tombstones(below, top, path);
    }
}

/// A change record that maps a path to no hash, fed into the assembly of a
/// tree, leaves the path out of that tree, whether the base tree holds it or
/// not.
pub proof fn law_tombstone_of_one_record(
    base: Map<Seq<char>, Seq<char>>,
    record: ManagedExtensionView,
    path: Seq<char>,
)
    requires
        record.files.dom().finite(),
        record.files.contains_key(path),
        record.files[path] is None,
    ensures
        !tree_after(base, tree_entries(seq![record])).contains_key(path),
{
    law_tombstone(base, seq![record], 0, path);
}

/// The work on a record starts coherent and stays so with every answer.
pub proof fn law_materializer_coherent(
    record: ManagedExtensionView,
    repository: Seq<char>,
    branch: Seq<char>,
    s: MaterializerView,
    response: ResponseView,
)
    ensures
        coherent(begin_spec(record, repository, branch).0),
        coherent(s) ==> coherent(step_spec(s, response).0),
{
}

/// No answer takes a path out of a record's files.
pub proof fn law_files_are_kept(s: MaterializerView, response: ResponseView, path: Seq<char>)
    requires
        s.record.files.contains_key(path),
    ensures
        step_spec(s, response).0.record.files.contains_key(path),
{
}

/// A deletion marks its entry script for removal at once and asks the
/// registry, never the source; afterwards it asks for no file and no content
/// object, and whatever an answer adds or changes in its files is a mark for
/// removal.
pub proof fn law_deletion_reads_nothing(
    record: ManagedExtensionView,
    repository: Seq<char>,
    branch: Seq<char>,
    s: MaterializerView,
    response: ResponseView,
)
    requires
        record.kind == ManageTypes::Deletion,
        s.record.kind == ManageTypes::Deletion,
        coherent(s),
    ensures
        begin_spec(record, repository, branch).0.record.files.contains_key(
            script_path(branch, record.id),
        ),
        begin_spec(record, repository, branch).0.record.files[script_path(branch, record.id)]
            is None,
        begin_spec(record, repository, branch).1 is GetDirectory,
        step_spec(s, response).1 is Finished || step_spec(s, response).1 is Failed,
        forall|path: Seq<char>| #[trigger]
            step_spec(s, response).0.record.files.contains_key(path) ==> step_spec(
                s,
                response,
            ).0.record.files[path] is None || (s.record.files.contains_key(path) && step_spec(
                s,
                response,
            ).0.record.files[path] == s.record.files[path]),
{
}

/// Without a change record nothing is published: nothing is asked for.
pub proof fn law_nothing_to_publish(
    kind: ManageTypes,
    repository: Seq<char>,
    key: Seq<char>,
    branch: Seq<char>,
    message: Option<Seq<char>>,
    author_name: Option<Seq<char>>,
    author_email: Option<Seq<char>>,
)
    ensures
        begin_publishing(
            Seq::empty(),
            kind,
            repository,
            key,
            branch,
            message,
            author_name,
            author_email,
        ).1 is Finished,
        begin_publishing(
            Seq::empty(),
            kind,
            repository,
            key,
            branch,
            message,
            author_name,
            author_email,
        ).0.stage == PublishStage::Done,
{
}

/// Publishing starts orderly and stays so with every answer.
pub proof fn law_publishing_is_orderly(
    records: Seq<ManagedExtensionView>,
    kind: ManageTypes,
    repository: Seq<char>,
    key: Seq<char>,
    branch: Seq<char>,
    message: Option<Seq<char>>,
    author_name: Option<Seq<char>>,
    author_email: Option<Seq<char>>,
    s: PublisherView,
    response: ResponseView,
)
    ensures
        orderly(
            begin_publishing(
                records,
                kind,
                repository,
                key,
                branch,
                message,
                author_name,
                author_email,
            ).0,
        ),
        orderly(s) ==> orderly(publish_step(s, response).0),
{
}

/// The steps that publish come in their order, and only once every record
/// is complete: the catalog is written out when the last record is complete,
/// the ledger when the catalog has its content object; the head is read when
/// the ledger has its own; the tree is asked for on the answer that brings
/// the head,
/// with the entries of all records; the commit on the answer that brings the
/// tree, with the head as its only parent; the move of the reference on the
/// answer that brings the commit, to that commit.
pub proof fn law_publishing_order(s: PublisherView, response: ResponseView)
    requires
        orderly(s),
    ensures
        match publish_step(s, response).1 {
            RequestView::Serialize { document } => match document {
                Document::Versioning => s.stage == PublishStage::Materializing && s.waiting.len()
                    == 0,
                Document::Metadata => s.stage == PublishStage::CatalogBlob,
            },
            RequestView::GetBranch { .. } => s.stage == PublishStage::LedgerBlob,
            RequestView::CreateTree { base_tree, entries } => {
                &&& s.stage == PublishStage::Head
                &&& s.waiting.len() == 0
                &&& s.work is None
                &&& response is Branch
                &&& base_tree == response->Branch_tree
                &&& entries == tree_entries(s.records)
            },
            RequestView::CreateCommit { tree, parents, .. } => {
                &&& s.stage == PublishStage::Tree
                &&& response == ResponseView::Tree(tree)
                &&& parents == seq![s.head]
            },
            RequestView::UpdateReference { sha } => {
                &&& s.stage == PublishStage::Commit
                &&& response == ResponseView::Commit(sha)
            },
            _ => true,
        },
{
}

/// A failed request ends the publishing, and what is abandoned stays
/// abandoned: from then on nothing is asked for.
pub proof fn law_failure_ends_publishing(s: PublisherView, response: ResponseView)
    requires
        orderly(s),
    ensures
        s.stage != PublishStage::Done ==> publish_step(s, ResponseView::Failed).1 is Failed
            && publish_step(s, ResponseView::Failed).0.stage == PublishStage::Failed,
        s.stage == PublishStage::Failed ==> publish_step(s, response) == (s, RequestView::Failed),
{
}

} // verus!
