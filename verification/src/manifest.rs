//! The static index binding filesystem paths and classification tags to
//! resource identities.  Purely a lookup structure rebuilt by rescanning
//! its source of truth: no notification, no caching.

use vstd::prelude::*;

use crate::resource::ResourceId;

verus! {

/// A classification tag.
pub type Tag = String;

/// The mathematical content of an [`Entry`].
pub struct EntryView {
    pub id: u128,
    pub path: Seq<char>,
    pub tags: Seq<Seq<char>>,
}

/// Binds a filesystem location and classification tags to a resource
/// identity.
pub struct Entry {
    pub id: ResourceId,
    pub path: String,
    pub tags: Vec<Tag>,
}

impl View for Entry {
    type V = EntryView;

    open spec fn view(&self) -> EntryView {
        EntryView {
            id: self.id@,
            path: self.path@,
            tags: self.tags@.map_values(|t: Tag| t@),
        }
    }
}

/// Whether an entry carries the tag.
pub open spec fn has_tag(e: EntryView, tag: Seq<char>) -> bool {
    exists|k: int| 0 <= k < e.tags.len() && e.tags[k] == tag
}

/// The views of a list of entries, in order.
pub open spec fn entry_views(es: Seq<Entry>) -> Seq<EntryView> {
    es.map_values(|e: Entry| e@)
}

/// The identities of the entries carrying the tag, in entry order.
pub open spec fn tagged_ids(es: Seq<EntryView>, tag: Seq<char>) -> Seq<u128>
    decreases es.len(),
{
    if es.len() == 0 {
        Seq::empty()
    } else {
        let rest = tagged_ids(es.drop_last(), tag);
        if has_tag(es.last(), tag) {
            rest.push(es.last().id)
        } else {
            rest
        }
    }
}

/// The index: one entry per path.
pub struct Manifest {
    resources: Vec<Entry>,
}

impl Manifest {
    /// Type validity: paths are unique.
    pub closed spec fn wf(self) -> bool {
        forall|i: int, j: int|
            0 <= i < self.resources@.len() && 0 <= j < self.resources@.len() && i != j
                ==> self.resources@[i].path@ != self.resources@[j].path@
    }

    /// The entries of the index, in insertion order of their paths.
    pub closed spec fn view_seq(self) -> Seq<EntryView> {
        entry_views(self.resources@)
    }

    /// Whether some entry is bound to `path`.
    pub open spec fn has_path(self, path: Seq<char>) -> bool {
        exists|i: int| 0 <= i < self.view_seq().len() && self.view_seq()[i].path == path
    }

    /// The index of the entry bound to `path`; meaningful when
    /// `has_path(path)` holds.
    pub closed spec fn idx_of(self, path: Seq<char>) -> int {
        choose|i: int| 0 <= i < self.view_seq().len() && self.view_seq()[i].path == path
    }

    /// The entry bound to `path`; meaningful when `has_path(path)` holds.
    pub open spec fn entry_at(self, path: Seq<char>) -> EntryView {
        self.view_seq()[self.idx_of(path)]
    }

    proof fn lemma_idx(self, path: Seq<char>)
        requires
            self.has_path(path),
        ensures
            0 <= self.idx_of(path) < self.view_seq().len(),
            self.view_seq()[self.idx_of(path)].path == path,
    {
    }

    proof fn lemma_idx_unique(self, i: int)
        requires
            self.wf(),
            0 <= i < self.resources@.len(),
        ensures
            self.has_path(self.resources@[i].path@),
            self.idx_of(self.resources@[i].path@) == i,
    {
        assert(self.view_seq()[i].path == self.resources@[i].path@);
        self.lemma_idx(self.resources@[i].path@);
    }

    /// An empty index.
    pub fn new() -> (r: Manifest)
        ensures
            r.wf(),
            r.view_seq() == Seq::<EntryView>::empty(),
    {
        let m = Manifest { resources: Vec::new() };
        proof {
            assert(m.view_seq() =~= Seq::<EntryView>::empty());
        }
        m
    }

    /// The first (under well-formedness: the only) index bound to the path.
    fn find_path(&self, path: &String) -> (r: Option<usize>)
        ensures
            match r {
                Some(i) => i < self.resources@.len() && self.resources@[i as int].path@
                    == path@,
                None => !self.has_path(path@),
            },
    {
        let mut i: usize = 0;
        while i < self.resources.len()
            invariant
                i <= self.resources@.len(),
                forall|j: int| 0 <= j < i ==> self.resources@[j].path@ != path@,
            decreases self.resources@.len() - i,
        {
            if self.resources[i].path == *path {
                return Some(i);
            }
            i += 1;
        }
        proof {
            assert forall|j: int|
                0 <= j < self.view_seq().len() implies self.view_seq()[j].path != path@ by {
                assert(self.view_seq()[j].path == self.resources@[j].path@);
            }
        }
        None
    }

    /// Binds `entry` to its path: a rescan step.  An entry already bound to
    /// the same path is replaced; any other path keeps its binding.
    pub fn insert(&mut self, entry: Entry)
        requires
            old(self).wf(),
        ensures
            final(self).wf(),
            final(self).has_path(entry@.path),
            final(self).entry_at(entry@.path) == entry@,
            forall|p: Seq<char>| p != entry@.path ==> #[trigger] final(self).has_path(p)
                == old(self).has_path(p),
            forall|p: Seq<char>| p != entry@.path && old(self).has_path(p)
                ==> final(self).entry_at(p) == old(self).entry_at(p),
    {
        let ghost e = entry@;
        match self.find_path(&entry.path) {
            Some(i) => {
                proof {
                    old(self).lemma_idx_unique(i as int);
                }
                self.resources[i] = entry;
                proof {
                    assert(forall|j: int|
                        0 <= j < self.resources@.len() && j != i ==> self.resources@[j]
                            == old(self).resources@[j]);
                    assert(self.resources@[i as int].path@ == e.path);
                    assert(self.wf());
                    self.lemma_idx_unique(i as int);
                    assert(self.entry_at(e.path) == e);
                    assert forall|p: Seq<char>| p != e.path implies #[trigger] self.has_path(p)
                        == old(self).has_path(p) by {
                        if old(self).has_path(p) {
                            old(self).lemma_idx(p);
                            assert(self.view_seq()[old(self).idx_of(p)].path == p);
                        }
                        if self.has_path(p) {
                            self.lemma_idx(p);
                            assert(old(self).view_seq()[self.idx_of(p)].path == p);
                        }
                    }
                    assert forall|p: Seq<char>| p != e.path && old(self).has_path(p) implies
                        self.entry_at(p) == old(self).entry_at(p) by {
                        old(self).lemma_idx(p);
                        let j = old(self).idx_of(p);
                        self.lemma_idx_unique(j);
                        assert(j != i as int);
                    }
                }
            },
            None => {
                self.resources.push(entry);
                proof {
                    let n = old(self).resources@.len() as int;
                    assert(forall|j: int|
                        0 <= j < n ==> self.resources@[j] == old(self).resources@[j]);
                    assert(self.resources@[n].path@ == e.path);
                    assert forall|j: int| 0 <= j < n implies self.resources@[j].path@
                        != e.path by {
                        assert(!old(self).has_path(e.path));
                        assert(old(self).view_seq()[j].path == old(self).resources@[j].path@);
                    }
                    assert(self.wf());
                    self.lemma_idx_unique(n);
                    assert(self.entry_at(e.path) == e);
                    assert forall|p: Seq<char>| p != e.path implies #[trigger] self.has_path(p)
                        == old(self).has_path(p) by {
                        if old(self).has_path(p) {
                            old(self).lemma_idx(p);
                            assert(self.view_seq()[old(self).idx_of(p)].path == p);
                        }
                        if self.has_path(p) {
                            self.lemma_idx(p);
                            assert(self.idx_of(p) != n);
                            assert(old(self).view_seq()[self.idx_of(p)].path == p);
                        }
                    }
                    assert forall|p: Seq<char>| p != e.path && old(self).has_path(p) implies
                        self.entry_at(p) == old(self).entry_at(p) by {
                        old(self).lemma_idx(p);
                        self.lemma_idx_unique(old(self).idx_of(p));
                    }
                }
            },
        }
    }

    /// Looks the path up: the entry bound to it, if any.
    pub fn lookup(&self, path: &String) -> (r: Option<&Entry>)
        requires
            self.wf(),
        ensures
            r is Some <==> self.has_path(path@),
            r is Some ==> (*r->Some_0)@ == self.entry_at(path@),
    {
        match self.find_path(path) {
            Some(i) => {
                proof {
                    self.lemma_idx_unique(i as int);
                }
                Some(&self.resources[i])
            },
            None => None,
        }
    }

    /// How many paths are bound.
    pub fn len(&self) -> (r: usize)
        ensures
            r == self.view_seq().len(),
    {
        self.resources.len()
    }

    /// The identities of every entry carrying the tag, in entry order: the
    /// discovery walk of higher-level tooling.
    pub fn ids_with_tag(&self, tag: &String) -> (r: Vec<ResourceId>)
        ensures
            r@.map_values(|x: ResourceId| x@) == tagged_ids(self.view_seq(), tag@),
    {
        let mut out: Vec<ResourceId> = Vec::new();
        let mut i: usize = 0;
        while i < self.resources.len()
            invariant
                i <= self.resources@.len(),
                out@.map_values(|x: ResourceId| x@) == tagged_ids(
                    self.view_seq().subrange(0, i as int),
                    tag@,
                ),
            decreases self.resources@.len() - i,
        {
            let ghost p1 = self.view_seq().subrange(0, i as int);
            let ghost p2 = self.view_seq().subrange(0, i as int + 1);
            let ghost pre = out@;
            let entry = &self.resources[i];
            let mut found = false;
            let mut k: usize = 0;
            while k < entry.tags.len()
                invariant
                    k <= entry.tags@.len(),
                    entry == &self.resources@[i as int],
                    i < self.resources@.len(),
                    !found ==> forall|m: int| 0 <= m < k ==> entry.tags@[m]@ != tag@,
                    found ==> has_tag(entry@, tag@),
                decreases entry.tags@.len() - k,
            {
                if entry.tags[k] == *tag {
                    found = true;
                    proof {
                        assert(entry@.tags[k as int] == tag@);
                    }
                }
                k += 1;
            }
            if found {
                out.push(self.resources[i].id);
            }
            proof {
                assert(p2.drop_last() =~= p1);
                assert(p2.last() == self.view_seq()[i as int]);
                assert(self.view_seq()[i as int] == self.resources@[i as int]@);
                if !found {
                    assert(!has_tag(entry@, tag@));
                }
                if found {
                    assert(out@.map_values(|x: ResourceId| x@) =~= pre.map_values(
                        |x: ResourceId| x@,
                    ).push(self.resources@[i as int].id@));
                }
                assert(out@.map_values(|x: ResourceId| x@) =~= tagged_ids(p2, tag@));
            }
            i += 1;
        }
        proof {
            assert(self.view_seq().subrange(0, self.view_seq().len() as int)
                =~= self.view_seq());
        }
        out
    }
}

} // verus!
