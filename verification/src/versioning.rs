//! The two registry documents and the records of a change: the version
//! catalog, the provenance ledger, and what one run did to an extension.

use vstd::prelude::*;
use crate::text_map::{ordered, TextMap};

verus! {

/// The toolchain that built a document.
pub struct BuiltWith {
    pub toolchain: String,
    pub types: String,
}

/// The model of [`BuiltWith`].
pub struct BuiltWithView {
    pub toolchain: Seq<char>,
    pub types: Seq<char>,
}

impl View for BuiltWith {
    type V = BuiltWithView;

    open spec fn view(&self) -> BuiltWithView {
        BuiltWithView { toolchain: self.toolchain@, types: self.types@ }
    }
}

impl Clone for BuiltWith {
    fn clone(&self) -> (r: Self)
        ensures
            r@ == self@,
    {
        BuiltWith { toolchain: self.toolchain.clone(), types: self.types.clone() }
    }
}

/// Name and description of the registry.
pub struct Repository {
    pub name: String,
    pub description: String,
}

/// The model of [`Repository`].
pub struct RepositoryView {
    pub name: Seq<char>,
    pub description: Seq<char>,
}

impl View for Repository {
    type V = RepositoryView;

    open spec fn view(&self) -> RepositoryView {
        RepositoryView { name: self.name@, description: self.description@ }
    }
}

/// A badge shown with an extension.
pub struct Badges {
    pub label: String,
    pub text_color: String,
    pub background_color: String,
}

/// The model of [`Badges`].
pub struct BadgesView {
    pub label: Seq<char>,
    pub text_color: Seq<char>,
    pub background_color: Seq<char>,
}

impl View for Badges {
    type V = BadgesView;

    open spec fn view(&self) -> BadgesView {
        BadgesView {
            label: self.label@,
            text_color: self.text_color@,
            background_color: self.background_color@,
        }
    }
}

impl Clone for Badges {
    fn clone(&self) -> (r: Self)
        ensures
            r@ == self@,
    {
        Badges {
            label: self.label.clone(),
            text_color: self.text_color.clone(),
            background_color: self.background_color.clone(),
        }
    }
}

/// What an extension can do: one number, or a list of them.
pub enum Capabilities {
    List(Vec<u8>),
    Primitive(u8),
}

/// The model of [`Capabilities`].
pub enum CapabilitiesView {
    List(Seq<u8>),
    Primitive(u8),
}

impl View for Capabilities {
    type V = CapabilitiesView;

    open spec fn view(&self) -> CapabilitiesView {
        match self {
            Capabilities::List(l) => CapabilitiesView::List(l@),
            Capabilities::Primitive(p) => CapabilitiesView::Primitive(*p),
        }
    }
}

impl Clone for Capabilities {
    fn clone(&self) -> (r: Self)
        ensures
            r@ == self@,
    {
        match self {
            Capabilities::List(l) => {
                let mut copy: Vec<u8> = Vec::new();
                let mut i: usize = 0;
                while i < l.len()
                    invariant
                        i <= l@.len(),
                        copy@ == l@.take(i as int),
                    decreases l@.len() - i,
                {
                    copy.push(l[i]);
                    proof {
                        assert(l@.take(i + 1) =~= l@.take(i as int).push(l@[i as int]));
                    }
                    i = i + 1;
                }
                proof {
                    assert(l@.take(i as int) =~= l@);
                }
                Capabilities::List(copy)
            },
            Capabilities::Primitive(p) => Capabilities::Primitive(*p),
        }
    }
}

/// Someone who develops an extension.
pub struct Developers {
    pub name: String,
    pub website: Option<String>,
    pub github: Option<String>,
}

/// The model of [`Developers`].
pub struct DevelopersView {
    pub name: Seq<char>,
    pub website: Option<Seq<char>>,
    pub github: Option<Seq<char>>,
}

/// The model of an optional text.
pub open spec fn optional_text(t: Option<String>) -> Option<Seq<char>> {
    match t {
        Some(s) => Some(s@),
        None => None,
    }
}

/// A copy of an optional text.
pub fn clone_optional_text(t: &Option<String>) -> (r: Option<String>)
    ensures
        optional_text(r) == optional_text(*t),
{
    match t {
        Some(s) => Some(s.clone()),
        None => None,
    }
}

impl View for Developers {
    type V = DevelopersView;

    open spec fn view(&self) -> DevelopersView {
        DevelopersView {
            name: self.name@,
            website: optional_text(self.website),
            github: optional_text(self.github),
        }
    }
}

impl Clone for Developers {
    fn clone(&self) -> (r: Self)
        ensures
            r@ == self@,
    {
        Developers {
            name: self.name.clone(),
            website: clone_optional_text(&self.website),
            github: clone_optional_text(&self.github),
        }
    }
}

/// The model of an optional badge.
pub open spec fn optional_badge(b: Option<Badges>) -> Option<BadgesView> {
    match b {
        Some(b) => Some(b@),
        None => None,
    }
}

/// The model of an optional developer.
pub open spec fn optional_developer(d: Option<Developers>) -> Option<DevelopersView> {
    match d {
        Some(d) => Some(d@),
        None => None,
    }
}

/// The model of an optional capability value.
pub open spec fn optional_capabilities(c: Option<Capabilities>) -> Option<CapabilitiesView> {
    match c {
        Some(c) => Some(c@),
        None => None,
    }
}

/// The model of a list of optional badges.
pub open spec fn badges_view(badges: Seq<Option<Badges>>) -> Seq<Option<BadgesView>> {
    Seq::new(badges.len(), |i: int| optional_badge(badges[i]))
}

/// The model of a list of optional developers.
pub open spec fn developers_view(developers: Seq<Option<Developers>>) -> Seq<
    Option<DevelopersView>,
> {
    Seq::new(developers.len(), |i: int| optional_developer(developers[i]))
}

fn clone_badges(badges: &Vec<Option<Badges>>) -> (r: Vec<Option<Badges>>)
    ensures
        badges_view(r@) == badges_view(badges@),
{
    let mut copy: Vec<Option<Badges>> = Vec::new();
    let mut i: usize = 0;
    while i < badges.len()
        invariant
            i <= badges@.len(),
            copy@.len() == i,
            forall|j: int| 0 <= j < i ==> optional_badge(copy@[j]) == optional_badge(badges@[j]),
        decreases badges@.len() - i,
    {
        let item = match &badges[i] {
            Some(b) => Some(b.clone()),
            None => None,
        };
        copy.push(item);
        i = i + 1;
    }
    proof {
        assert(badges_view(copy@) =~= badges_view(badges@));
    }
    copy
}

fn clone_developers(developers: &Vec<Option<Developers>>) -> (r: Vec<Option<Developers>>)
    ensures
        developers_view(r@) == developers_view(developers@),
{
    let mut copy: Vec<Option<Developers>> = Vec::new();
    let mut i: usize = 0;
    while i < developers.len()
        invariant
            i <= developers@.len(),
            copy@.len() == i,
            forall|j: int|
                0 <= j < i ==> optional_developer(copy@[j]) == optional_developer(developers@[j]),
        decreases developers@.len() - i,
    {
        let item = match &developers[i] {
            Some(d) => Some(d.clone()),
            None => None,
        };
        copy.push(item);
        i = i + 1;
    }
    proof {
        assert(developers_view(copy@) =~= developers_view(developers@));
    }
    copy
}

/// One extension as a document lists it. Reconciliation reads `id` and
/// `version`; the rest is carried along as it is.
pub struct Source {
    pub id: String,
    pub name: String,
    pub description: String,
    pub version: String,
    pub icon: String,
    pub language: Option<String>,
    pub content_rating: String,
    pub badges: Vec<Option<Badges>>,
    pub capabilities: Option<Capabilities>,
    pub developers: Vec<Option<Developers>>,
}

/// The model of [`Source`].
pub struct SourceView {
    pub id: Seq<char>,
    pub name: Seq<char>,
    pub description: Seq<char>,
    pub version: Seq<char>,
    pub icon: Seq<char>,
    pub language: Option<Seq<char>>,
    pub content_rating: Seq<char>,
    pub badges: Seq<Option<BadgesView>>,
    pub capabilities: Option<CapabilitiesView>,
    pub developers: Seq<Option<DevelopersView>>,
}

impl View for Source {
    type V = SourceView;

    open spec fn view(&self) -> SourceView {
        SourceView {
            id: self.id@,
            name: self.name@,
            description: self.description@,
            version: self.version@,
            icon: self.icon@,
            language: optional_text(self.language),
            content_rating: self.content_rating@,
            badges: badges_view(self.badges@),
            capabilities: optional_capabilities(self.capabilities),
            developers: developers_view(self.developers@),
        }
    }
}

impl Clone for Source {
    fn clone(&self) -> (r: Self)
        ensures
            r@ == self@,
    {
        let capabilities = match &self.capabilities {
            Some(c) => Some(c.clone()),
            None => None,
        };
        Source {
            id: self.id.clone(),
            name: self.name.clone(),
            description: self.description.clone(),
            version: self.version.clone(),
            icon: self.icon.clone(),
            language: clone_optional_text(&self.language),
            content_rating: self.content_rating.clone(),
            badges: clone_badges(&self.badges),
            capabilities,
            developers: clone_developers(&self.developers),
        }
    }
}

/// When and with what an extension's current build was made.
pub struct MetadataExtension {
    pub build_time: String,
    pub built_with: BuiltWith,
}

/// The model of [`MetadataExtension`].
pub struct MetadataExtensionView {
    pub build_time: Seq<char>,
    pub built_with: BuiltWithView,
}

impl View for MetadataExtension {
    type V = MetadataExtensionView;

    open spec fn view(&self) -> MetadataExtensionView {
        MetadataExtensionView { build_time: self.build_time@, built_with: self.built_with@ }
    }
}

/// What a run does to an extension.
#[derive(Clone, Copy, Debug, PartialEq, Eq, Structural)]
pub enum ManageTypes {
    Addition,
    Update,
    Deletion,
}

/// The version catalog: every extension that the registry publishes, by id.
pub struct Versioning {
    build_time: String,
    built_with: BuiltWith,
    repository: Repository,
    sources: TextMap<Source>,
}

/// The model of [`Versioning`].
pub struct VersioningView {
    pub build_time: Seq<char>,
    pub built_with: BuiltWithView,
    pub repository: RepositoryView,
    pub sources: Map<Seq<char>, SourceView>,
}

impl View for Versioning {
    type V = VersioningView;

    closed spec fn view(&self) -> VersioningView {
        VersioningView {
            build_time: self.build_time@,
            built_with: self.built_with@,
            repository: self.repository@,
            sources: self.sources.entries().map_values(|s: Source| s@),
        }
    }
}

impl Versioning {
    /// Every extension is filed under its own id, once.
    pub closed spec fn wf(&self) -> bool {
        &&& self.sources.wf()
        &&& forall|id: Seq<char>| #[trigger]
            self.sources.entries().contains_key(id) ==> self.sources.entries()[id].id@ == id
    }

    /// The ids of the catalog in ascending order.
    pub open spec fn ids(&self) -> Seq<Seq<char>> {
        ordered(self@.sources.dom())
    }

    /// What well-formedness says of the model.
    pub proof fn lemma_wf(&self)
        requires
            self.wf(),
        ensures
            self@.sources.dom().finite(),
            self.ids().no_duplicates(),
            self.ids().to_set() == self@.sources.dom(),
            self.ids().len() == self@.sources.len(),
            forall|id: Seq<char>| #[trigger]
                self@.sources.contains_key(id) ==> self@.sources[id].id == id,
    {
        self.sources.lemma_keys();
        assert(self@.sources.dom() =~= self.sources.entries().dom());
    }

    /// The catalog of a registry that holds nothing yet: no extension, and
    /// every text empty.
    pub open spec fn default_view() -> VersioningView {
        VersioningView {
            build_time: Seq::empty(),
            built_with: BuiltWithView { toolchain: Seq::empty(), types: Seq::empty() },
            repository: RepositoryView { name: Seq::empty(), description: Seq::empty() },
            sources: Map::empty(),
        }
    }

    /// A catalog without extensions.
    pub fn new(build_time: String, built_with: BuiltWith, repository: Repository) -> (r: Versioning)
        ensures
            r.wf(),
            r@ == (VersioningView {
                build_time: build_time@,
                built_with: built_with@,
                repository: repository@,
                sources: Map::empty(),
            }),
    {
        let r = Versioning { build_time, built_with, repository, sources: TextMap::new() };
        proof {
            assert(r@.sources =~= Map::empty());
        }
        r
    }

    /// When the catalog was built.
    pub fn build_time(&self) -> (r: &String)
        ensures
            r@ == self@.build_time,
    {
        &self.build_time
    }

    /// The toolchain that built the catalog.
    pub fn built_with(&self) -> (r: &BuiltWith)
        ensures
            r@ == self@.built_with,
    {
        &self.built_with
    }

    /// Name and description of the registry.
    pub fn repository(&self) -> (r: &Repository)
        ensures
            r@ == self@.repository,
    {
        &self.repository
    }

    /// The number of extensions.
    pub fn len(&self) -> (r: usize)
        requires
            self.wf(),
        ensures
            r == self.ids().len(),
            r == self@.sources.len(),
    {
        proof {
            self.sources.lemma_keys();
            assert(self@.sources.dom() =~= self.sources.entries().dom());
        }
        self.sources.len()
    }

    /// The extension at position `i` of the ascending order of ids.
    pub fn source_at(&self, i: usize) -> (r: &Source)
        requires
            self.wf(),
            i < self.ids().len(),
        ensures
            r@ == self@.sources[self.ids()[i as int]],
            r.id@ == self.ids()[i as int],
    {
        proof {
            self.sources.lemma_keys();
            assert(self@.sources.dom() =~= self.sources.entries().dom());
            assert(self.sources.keys()[i as int] == self.sources.pairs()[i as int].0);
        }
        self.sources.value_at(i)
    }

    /// Whether the catalog lists `id`.
    pub fn contains(&self, id: &str) -> (r: bool)
        requires
            self.wf(),
        ensures
            r == self@.sources.contains_key(id@),
    {
        self.sources.contains_key(id)
    }

    /// The extension listed under `id`.
    pub fn get(&self, id: &str) -> (r: Option<&Source>)
        requires
            self.wf(),
        ensures
            r is Some <==> self@.sources.contains_key(id@),
            r is Some ==> r->0@ == self@.sources[id@],
    {
        self.sources.get(id)
    }

    /// Lists `source` under its id, in place of what was listed there.
    pub fn insert(&mut self, source: Source)
        requires
            old(self).wf(),
        ensures
            final(self).wf(),
            final(self)@ == (VersioningView {
                sources: old(self)@.sources.insert(source.id@, source@),
                ..old(self)@
            }),
    {
        let key = source.id.clone();
        self.sources.insert(key, source);
        proof {
            assert(self@.sources =~= old(self)@.sources.insert(source.id@, source@));
        }
    }

    /// Takes `id` off the catalog.
    pub fn remove(&mut self, id: &str)
        requires
            old(self).wf(),
        ensures
            final(self).wf(),
            final(self)@ == (VersioningView {
                sources: old(self)@.sources.remove(id@),
                ..old(self)@
            }),
    {
        let _ = self.sources.remove(id);
        proof {
            assert(self@.sources =~= old(self)@.sources.remove(id@));
        }
    }

    /// Replaces the build time and the toolchain.
    pub fn set_build(&mut self, build_time: String, built_with: BuiltWith)
        requires
            old(self).wf(),
        ensures
            final(self).wf(),
            final(self)@ == (VersioningView {
                build_time: build_time@,
                built_with: built_with@,
                ..old(self)@
            }),
    {
        self.build_time = build_time;
        self.built_with = built_with;
    }

    /// Replaces name and description of the registry.
    pub fn set_repository(&mut self, repository: Repository)
        requires
            old(self).wf(),
        ensures
            final(self).wf(),
            final(self)@ == (VersioningView { repository: repository@, ..old(self)@ }),
    {
        self.repository = repository;
    }
}

impl Default for Versioning {
    fn default() -> (r: Versioning)
        ensures
            r.wf(),
            r@ == Versioning::default_view(),
    {
        Versioning::new(
            String::new(),
            BuiltWith { toolchain: String::new(), types: String::new() },
            Repository { name: String::new(), description: String::new() },
        )
    }
}

/// The model of a ledger bucket: the build that each extension id comes from.
pub type BucketView = Map<Seq<char>, MetadataExtensionView>;

/// The model of the ledger: a bucket for each repository key.
pub type LedgerView = Map<Seq<char>, BucketView>;

/// One bucket of the ledger: the extensions that one source repository
/// contributes, each with the build it comes from.
pub struct MetadataRepository {
    extensions: TextMap<MetadataExtension>,
}

impl View for MetadataRepository {
    type V = BucketView;

    closed spec fn view(&self) -> BucketView {
        self.extensions.entries().map_values(|e: MetadataExtension| e@)
    }
}

impl MetadataRepository {
    /// Every id is recorded once.
    pub closed spec fn wf(&self) -> bool {
        self.extensions.wf()
    }

    /// The recorded ids in ascending order.
    pub open spec fn ids(&self) -> Seq<Seq<char>> {
        ordered(self@.dom())
    }

    /// What well-formedness says of the model.
    pub proof fn lemma_wf(&self)
        requires
            self.wf(),
        ensures
            self@.dom().finite(),
            self.ids().no_duplicates(),
            self.ids().to_set() == self@.dom(),
            self.ids().len() == self@.len(),
    {
        self.extensions.lemma_keys();
        assert(self@.dom() =~= self.extensions.entries().dom());
    }

    /// A bucket without entries.
    pub fn new() -> (r: MetadataRepository)
        ensures
            r.wf(),
            r@ == BucketView::empty(),
    {
        let r = MetadataRepository { extensions: TextMap::new() };
        proof {
            assert(r@ =~= BucketView::empty());
        }
        r
    }

    /// The number of recorded ids.
    pub fn len(&self) -> (r: usize)
        requires
            self.wf(),
        ensures
            r == self.ids().len(),
            r == self@.len(),
    {
        proof {
            self.extensions.lemma_keys();
            assert(self@.dom() =~= self.extensions.entries().dom());
        }
        self.extensions.len()
    }

    /// Whether no id is recorded.
    pub fn is_empty(&self) -> (r: bool)
        requires
            self.wf(),
        ensures
            r == (self@ == BucketView::empty()),
    {
        proof {
            self.extensions.lemma_keys();
            if self.extensions.pairs().len() == 0 {
                assert(self.extensions.keys() =~= Seq::empty());
                assert(self@ =~= BucketView::empty());
            } else {
                assert(self@.contains_key(self.extensions.pairs()[0].0));
            }
        }
        self.extensions.is_empty()
    }

    /// The id at position `i` of the ascending order.
    pub fn id_at(&self, i: usize) -> (r: &String)
        requires
            self.wf(),
            i < self.ids().len(),
        ensures
            r@ == self.ids()[i as int],
    {
        proof {
            self.extensions.lemma_keys();
            assert(self@.dom() =~= self.extensions.entries().dom());
        }
        self.extensions.key_at(i)
    }

    /// The record at position `i` of the ascending order of ids.
    pub fn extension_at(&self, i: usize) -> (r: &MetadataExtension)
        requires
            self.wf(),
            i < self.ids().len(),
        ensures
            r@ == self@[self.ids()[i as int]],
    {
        proof {
            self.extensions.lemma_keys();
            assert(self@.dom() =~= self.extensions.entries().dom());
            assert(self.extensions.keys()[i as int] == self.extensions.pairs()[i as int].0);
        }
        self.extensions.value_at(i)
    }

    /// Whether `id` is recorded.
    pub fn contains(&self, id: &str) -> (r: bool)
        requires
            self.wf(),
        ensures
            r == self@.contains_key(id@),
    {
        self.extensions.contains_key(id)
    }

    /// The record of `id`.
    pub fn get(&self, id: &str) -> (r: Option<&MetadataExtension>)
        requires
            self.wf(),
        ensures
            r is Some <==> self@.contains_key(id@),
            r is Some ==> r->0@ == self@[id@],
    {
        self.extensions.get(id)
    }

    /// Records `id` with `extension`, in place of what was recorded for it.
    pub fn insert(&mut self, id: String, extension: MetadataExtension)
        requires
            old(self).wf(),
        ensures
            final(self).wf(),
            final(self)@ == old(self)@.insert(id@, extension@),
    {
        self.extensions.insert(id, extension);
        proof {
            assert(self@ =~= old(self)@.insert(id@, extension@));
        }
    }

    /// Strikes `id` from the bucket.
    pub fn remove(&mut self, id: &str)
        requires
            old(self).wf(),
        ensures
            final(self).wf(),
            final(self)@ == old(self)@.remove(id@),
    {
        let _ = self.extensions.remove(id);
        proof {
            assert(self@ =~= old(self)@.remove(id@));
        }
    }
}

/// The provenance ledger: for each source repository, under its key, the
/// extensions that it contributes. A repository that contributes nothing has
/// no bucket.
pub struct Metadata {
    repositories: TextMap<MetadataRepository>,
}

impl View for Metadata {
    type V = LedgerView;

    closed spec fn view(&self) -> LedgerView {
        self.repositories.entries().map_values(|b: MetadataRepository| b@)
    }
}

/// The bucket that a ledger holds for `key`; the empty one where it holds
/// none.
pub open spec fn bucket_of(ledger: LedgerView, key: Seq<char>) -> BucketView {
    if ledger.contains_key(key) {
        ledger[key]
    } else {
        BucketView::empty()
    }
}

/// The ledger with `bucket` under `key`, or without the key where the bucket
/// is empty.
pub open spec fn with_bucket(ledger: LedgerView, key: Seq<char>, bucket: BucketView) -> LedgerView {
    if bucket == BucketView::empty() {
        ledger.remove(key)
    } else {
        ledger.insert(key, bucket)
    }
}

impl Metadata {
    /// Every key has one bucket, and no bucket is empty.
    pub closed spec fn wf(&self) -> bool {
        &&& self.repositories.wf()
        &&& forall|key: Seq<char>| #[trigger]
            self.repositories.entries().contains_key(key) ==> {
                &&& self.repositories.entries()[key].wf()
                &&& self.repositories.entries()[key]@ != BucketView::empty()
            }
    }

    /// The repository keys in ascending order.
    pub open spec fn keys(&self) -> Seq<Seq<char>> {
        ordered(self@.dom())
    }

    /// What well-formedness says of the model.
    pub proof fn lemma_wf(&self)
        requires
            self.wf(),
        ensures
            self@.dom().finite(),
            self.keys().no_duplicates(),
            self.keys().to_set() == self@.dom(),
            self.keys().len() == self@.len(),
            forall|key: Seq<char>| #[trigger]
                self@.contains_key(key) ==> self@[key] != BucketView::empty() && self@[key].dom().finite(),
    {
        self.repositories.lemma_keys();
        assert(self@.dom() =~= self.repositories.entries().dom());
        assert forall|key: Seq<char>| #[trigger] self@.contains_key(key) implies self@[key].dom().finite() by {
            self.repositories.entries()[key].lemma_wf();
        }
    }

    /// A ledger without buckets.
    pub fn new() -> (r: Metadata)
        ensures
            r.wf(),
            r@ == LedgerView::empty(),
    {
        let r = Metadata { repositories: TextMap::new() };
        proof {
            assert(r@ =~= LedgerView::empty());
        }
        r
    }

    /// The number of buckets.
    pub fn len(&self) -> (r: usize)
        requires
            self.wf(),
        ensures
            r == self.keys().len(),
            r == self@.len(),
    {
        proof {
            self.repositories.lemma_keys();
            assert(self@.dom() =~= self.repositories.entries().dom());
        }
        self.repositories.len()
    }

    /// The key at position `i` of the ascending order.
    pub fn key_at(&self, i: usize) -> (r: &String)
        requires
            self.wf(),
            i < self.keys().len(),
        ensures
            r@ == self.keys()[i as int],
    {
        proof {
            self.repositories.lemma_keys();
            assert(self@.dom() =~= self.repositories.entries().dom());
        }
        self.repositories.key_at(i)
    }

    /// The bucket at position `i` of the ascending order of keys.
    pub fn bucket_at(&self, i: usize) -> (r: &MetadataRepository)
        requires
            self.wf(),
            i < self.keys().len(),
        ensures
            r.wf(),
            r@ == self@[self.keys()[i as int]],
    {
        proof {
            self.repositories.lemma_keys();
            assert(self@.dom() =~= self.repositories.entries().dom());
            assert(self.repositories.keys()[i as int] == self.repositories.pairs()[i as int].0);
        }
        self.repositories.value_at(i)
    }

    /// The bucket of `key`.
    pub fn bucket(&self, key: &str) -> (r: Option<&MetadataRepository>)
        requires
            self.wf(),
        ensures
            r is Some <==> self@.contains_key(key@),
            r is Some ==> r->0.wf() && r->0@ == self@[key@],
    {
        self.repositories.get(key)
    }

    /// Takes the bucket of `key` out of the ledger; the empty bucket where it
    /// has none.
    pub fn take(&mut self, key: &str) -> (r: MetadataRepository)
        requires
            old(self).wf(),
        ensures
            final(self).wf(),
            r.wf(),
            r@ == bucket_of(old(self)@, key@),
            final(self)@ == old(self)@.remove(key@),
    {
        let taken = self.repositories.remove(key);
        proof {
            assert(self@ =~= old(self)@.remove(key@));
        }
        match taken {
            Some(bucket) => bucket,
            None => MetadataRepository::new(),
        }
    }

    /// Files `bucket` under `key`, in place of the bucket held there; an empty
    /// bucket leaves the ledger without the key.
    pub fn put(&mut self, key: &str, bucket: MetadataRepository)
        requires
            old(self).wf(),
            bucket.wf(),
        ensures
            final(self).wf(),
            final(self)@ == with_bucket(old(self)@, key@, bucket@),
    {
        if bucket.is_empty() {
            let _ = self.repositories.remove(key);
            proof {
                assert(self@ =~= old(self)@.remove(key@));
            }
        } else {
            self.repositories.insert(key.to_owned(), bucket);
            proof {
                assert(self@ =~= old(self)@.insert(key@, bucket@));
            }
        }
    }

    /// Records under `key` that `id` comes from the build `extension`.
    pub fn insert(&mut self, key: &str, id: String, extension: MetadataExtension)
        requires
            old(self).wf(),
        ensures
            final(self).wf(),
            final(self)@ == old(self)@.insert(
                key@,
                bucket_of(old(self)@, key@).insert(id@, extension@),
            ),
    {
        let mut bucket = self.take(key);
        bucket.insert(id, extension);
        proof {
            assert(bucket@.contains_key(id@));
        }
        self.put(key, bucket);
        proof {
            assert(self@ =~= old(self)@.insert(
                key@,
                bucket_of(old(self)@, key@).insert(id@, extension@),
            ));
        }
    }
}

impl Default for Metadata {
    fn default() -> (r: Metadata)
        ensures
            r.wf(),
            r@ == LedgerView::empty(),
    {
        Metadata::new()
    }
}

/// What one run does to one extension, with the files that realise it: each
/// path with the hash of its content, or with none where the path is to go.
pub struct ManagedExtension {
    pub id: String,
    pub kind: ManageTypes,
    pub files: TextMap<Option<String>>,
}

/// The model of [`ManagedExtension`].
pub struct ManagedExtensionView {
    pub id: Seq<char>,
    pub kind: ManageTypes,
    pub files: Map<Seq<char>, Option<Seq<char>>>,
}

impl View for ManagedExtension {
    type V = ManagedExtensionView;

    open spec fn view(&self) -> ManagedExtensionView {
        ManagedExtensionView {
            id: self.id@,
            kind: self.kind,
            files: self.files.entries().map_values(|h: Option<String>| optional_text(h)),
        }
    }
}

/// The change records of a run, in the order in which they were made.
pub type ManagedExtensions = Vec<ManagedExtension>;

/// The record of `kind` for `id` that names no file yet.
pub open spec fn fresh_record(id: Seq<char>, kind: ManageTypes) -> ManagedExtensionView {
    ManagedExtensionView { id, kind, files: Map::empty() }
}

/// The models of a list of records.
pub open spec fn records_view(records: Seq<ManagedExtension>) -> Seq<ManagedExtensionView> {
    Seq::new(records.len(), |i: int| records[i]@)
}

/// The file map of every record is well-formed.
pub open spec fn records_wf(records: Seq<ManagedExtension>) -> bool {
    forall|i: int| 0 <= i < records.len() ==> (#[trigger] records[i]).files.wf()
}

impl ManagedExtension {
    /// The record of `kind` for `id` that names no file yet.
    pub fn new(id: String, kind: ManageTypes) -> (r: ManagedExtension)
        ensures
            r.files.wf(),
            r@ == fresh_record(id@, kind),
    {
        let r = ManagedExtension { id, kind, files: TextMap::new() };
        proof {
            assert(r@.files =~= Map::empty());
        }
        r
    }
}

} // verus!
