//! The link store gateway: create, read, update and delete over an ordered
//! collection of links, guarding the uniqueness invariant on source keys.
//!
//! Every operation is an atomic single-value step on the store; a row that
//! is gone by the time a write runs surfaces as `NotFound`, never as a
//! silent no-op. Ranked retrieval over the store lives in
//! [`crate::planner`].

use vstd::prelude::*;

use crate::model::Link;
use crate::schema::{CreateLink, DeleteLink, FindLink, GetLink, UpdateLink};
use crate::Error;

verus! {

/// The first link of `links` whose source key reads as `src`; under
/// [`LinkStore::wf`] it is the only one.
pub open spec fn spec_find(links: Seq<Link>, src: Seq<char>) -> Option<Link>
    decreases links.len(),
{
    if links.len() == 0 {
        None
    } else if links[0].source@ == src {
        Some(links[0])
    } else {
        spec_find(links.drop_first(), src)
    }
}

/// Whether some link of `links` carries the id `id`.
pub open spec fn has_id(links: Seq<Link>, id: i64) -> bool {
    exists|i: int| 0 <= i < links.len() && #[trigger] links[i].id == id
}

/// The position of the link carrying `id`; meaningful only under
/// [`has_id`], unique under [`LinkStore::wf`].
pub open spec fn idx_of_id(links: Seq<Link>, id: i64) -> int {
    choose|i: int| 0 <= i < links.len() && #[trigger] links[i].id == id
}

/// When `spec_find` misses, no link carries the source key.
pub proof fn lemma_spec_find_none(links: Seq<Link>, src: Seq<char>)
    requires
        spec_find(links, src) is None,
    ensures
        forall|i: int| 0 <= i < links.len() ==> (#[trigger] links[i]).source@ != src,
    decreases links.len(),
{
    if links.len() > 0 {
        lemma_spec_find_none(links.drop_first(), src);
        assert forall|i: int| 0 <= i < links.len() implies (#[trigger] links[i]).source@ != src by {
            if i >= 1 {
                assert(links.drop_first()[i - 1] == links[i]);
            }
        }
    }
}

/// When `spec_find` hits, it returns a link of the store with that source.
pub proof fn lemma_spec_find_some(links: Seq<Link>, src: Seq<char>)
    requires
        spec_find(links, src) is Some,
    ensures
        ({
            let l = spec_find(links, src)->Some_0;
            l.source@ == src && exists|i: int| 0 <= i < links.len() && #[trigger] links[i] == l
        }),
    decreases links.len(),
{
    if links.len() > 0 && links[0].source@ != src {
        lemma_spec_find_some(links.drop_first(), src);
        let l = spec_find(links, src)->Some_0;
        let j = choose|j: int|
            0 <= j < links.drop_first().len() && #[trigger] links.drop_first()[j] == l;
        assert(links[j + 1] == l);
    }
}

/// With pairwise-distinct source keys, a link that stands in the store is
/// exactly what looking its own key up returns.
pub proof fn lemma_spec_find_unique(links: Seq<Link>, l: Link)
    requires
        forall|i: int, j: int|
            0 <= i < j < links.len() ==> (#[trigger] links[i]).source@ != (
            #[trigger] links[j]).source@,
        exists|i: int| 0 <= i < links.len() && #[trigger] links[i] == l,
    ensures
        spec_find(links, l.source@) == Some(l),
    decreases links.len(),
{
    let i = choose|i: int| 0 <= i < links.len() && #[trigger] links[i] == l;
    if links[0].source@ == l.source@ {
        if i != 0 {
            assert(links[0].source@ != links[i].source@);
        }
        assert(links[0] == l);
    } else {
        let tail = links.drop_first();
        assert(forall|p: int, q: int|
            0 <= p < q < tail.len() ==> (#[trigger] tail[p]).source@ != (
            #[trigger] tail[q]).source@) by {
            assert(forall|p: int| 0 <= p < tail.len() ==> #[trigger] tail[p] == links[p + 1]);
        }
        assert(tail[i - 1] == l);
        lemma_spec_find_unique(tail, l);
    }
}

/// The in-memory link store.
///
/// Rows are kept in insertion order; `next_id` hands out fresh ids, strictly
/// above every id in the store.
pub struct LinkStore {
    links: Vec<Link>,
    next_id: i64,
}

impl View for LinkStore {
    type V = Seq<Link>;

    closed spec fn view(&self) -> Seq<Link> {
        self.links@
    }
}

impl LinkStore {
    /// The store invariant: ids and source keys are pairwise distinct, and
    /// `next_id` is fresh.
    pub closed spec fn wf(&self) -> bool {
        &&& forall|i: int, j: int|
            0 <= i < j < self@.len() ==> (#[trigger] self@[i]).id != (#[trigger] self@[j]).id
        &&& forall|i: int, j: int|
            0 <= i < j < self@.len() ==> (#[trigger] self@[i]).source@ != (
            #[trigger] self@[j]).source@
        &&& forall|i: int| 0 <= i < self@.len() ==> (#[trigger] self@[i]).id < self.next_id
    }

    /// Whether the id space is exhausted; creation fails with `Unavailable`
    /// once `next_id` cannot grow any more.
    pub closed spec fn id_space_open(&self) -> bool {
        self.next_id < i64::MAX
    }

    /// What the invariant guarantees about the rows themselves: ids and
    /// source keys are pairwise distinct.
    pub proof fn lemma_wf_properties(&self)
        requires
            self.wf(),
        ensures
            forall|i: int, j: int|
                0 <= i < j < self@.len() ==> (#[trigger] self@[i]).id != (#[trigger] self@[j]).id,
            forall|i: int, j: int|
                0 <= i < j < self@.len() ==> (#[trigger] self@[i]).source@ != (
                #[trigger] self@[j]).source@,
    {
    }

    /// An empty store.
    pub fn new() -> (r: LinkStore)
        ensures
            r.wf(),
            r@.len() == 0,
            r.id_space_open(),
    {
        LinkStore { links: Vec::new(), next_id: 1 }
    }

    /// The number of rows in the store.
    pub fn row_count(&self) -> (r: usize)
        ensures
            r == self@.len(),
    {
        self.links.len()
    }

    /// A copy of the row at `index`, for walking the corpus.
    pub fn row_at(&self, index: usize) -> (r: Link)
        requires
            index < self@.len(),
        ensures
            r == self@[index as int],
    {
        self.links[index].duplicate()
    }

    /// The position of the first row with source key `src`, if any.
    fn index_of_source(&self, src: &str) -> (r: Option<usize>)
        ensures
            match r {
                Some(i) => i < self@.len() && spec_find(self@, src@) == Some(self@[i as int]),
                None => spec_find(self@, src@) is None,
            },
    {
        let n = self.links.len();
        proof {
            assert(self@.subrange(0, n as int) =~= self@);
        }
        let mut i: usize = 0;
        while i < n
            invariant
                i <= n,
                n == self@.len(),
                spec_find(self@, src@) == spec_find(self@.subrange(i as int, n as int), src@),
            decreases n - i,
        {
            let ghost rest = self@.subrange(i as int, n as int);
            proof {
                assert(rest[0] == self@[i as int]);
                assert(rest.drop_first() =~= self@.subrange(i + 1, n as int));
            }
            if crate::codec::str_eq(self.links[i].source.as_str(), src) {
                return Some(i);
            }
            i = i + 1;
        }
        proof {
            assert(self@.subrange(n as int, n as int) =~= Seq::<Link>::empty());
        }
        None
    }

    /// The position of the row with id `id`, if any.
    fn index_of_id(&self, id: i64) -> (r: Option<usize>)
        requires
            self.wf(),
        ensures
            match r {
                Some(i) => i < self@.len() && self@[i as int].id == id && has_id(self@, id)
                    && idx_of_id(self@, id) == i as int,
                None => !has_id(self@, id),
            },
    {
        let n = self.links.len();
        let mut i: usize = 0;
        while i < n
            invariant
                i <= n,
                n == self@.len(),
                self.wf(),
                forall|k: int| 0 <= k < i ==> (#[trigger] self@[k]).id != id,
            decreases n - i,
        {
            if self.links[i].id == id {
                proof {
                    let j = idx_of_id(self@, id);
                    assert(self@[i as int].id == id);
                    if j < i {
                        assert(self@[j].id != id);
                    }
                    if j > i as int {
                        assert(self@[i as int].id != self@[j].id);
                    }
                }
                return Some(i);
            }
            i = i + 1;
        }
        None
    }

    /// Looks one link up by its exact source key; absence is not an error.
    pub fn find_link(&self, find: &FindLink) -> (r: Option<Link>)
        ensures
            r == spec_find(self@, find.source@),
    {
        match self.index_of_source(find.source.as_str()) {
            Some(i) => Some(self.links[i].duplicate()),
            None => None,
        }
    }

    /// Reads one link by id; a missing row is `NotFound`.
    pub fn get_link(&self, get: &GetLink) -> (r: Result<Link, Error>)
        requires
            self.wf(),
        ensures
            match r {
                Ok(l) => has_id(self@, get.id) && l == self@[idx_of_id(self@, get.id)]
                    && l.id == get.id,
                Err(e) => e == Error::NotFound && !has_id(self@, get.id),
            },
    {
        match self.index_of_id(get.id) {
            Some(i) => Ok(self.links[i].duplicate()),
            None => Err(Error::NotFound),
        }
    }

    /// Creates a new link with fresh id and both timestamps set to `now`.
    ///
    /// Fails with `DuplicateKey`, leaving the store unchanged, when the
    /// source key is already registered; fails with `Unavailable`, likewise
    /// leaving the store unchanged, in the degenerate state where the id
    /// space is exhausted.
    pub fn create_link(&mut self, create: &CreateLink, now: i64) -> (r: Result<Link, Error>)
        requires
            old(self).wf(),
        ensures
            final(self).wf(),
            match r {
                Ok(l) => {
                    &&& spec_find(old(self)@, create.source@) is None
                    &&& old(self).id_space_open()
                    &&& final(self)@ == old(self)@.push(l)
                    &&& !has_id(old(self)@, l.id)
                    &&& l.source@ == create.source@
                    &&& l.is_alias == create.is_alias
                    &&& l.target@ == create.target@
                    &&& l.description@ == Seq::<char>::empty()
                    &&& l.created_at == now
                    &&& l.modified_at == now
                },
                Err(e) => {
                    &&& *final(self) == *old(self)
                    &&& (e == Error::DuplicateKey <==> spec_find(old(self)@, create.source@)
                        is Some)
                    &&& (e == Error::DuplicateKey || e == Error::Unavailable)
                    &&& (e == Error::Unavailable ==> !old(self).id_space_open())
                },
            },
    {
        if self.index_of_source(create.source.as_str()).is_some() {
            return Err(Error::DuplicateKey);
        }
        if self.next_id == i64::MAX {
            return Err(Error::Unavailable);
        }
        let id = self.next_id;
        let link = Link {
            id,
            created_at: now,
            modified_at: now,
            source: create.source.clone(),
            is_alias: create.is_alias,
            target: create.target.clone(),
            description: String::new(),
        };
        let result = link.duplicate();
        self.links.push(link);
        self.next_id = id + 1;
        proof {
            lemma_spec_find_none(old(self)@, create.source@);
            assert(forall|i: int|
                0 <= i < old(self)@.len() ==> (#[trigger] old(self)@[i]).id < id);
            assert(final(self)@ =~= old(self)@.push(result));
        }
        Ok(result)
    }

    /// Replaces the editable fields of the row with id `get.id`.
    ///
    /// A missing row is `NotFound`; a new source key that another row
    /// already holds is `DuplicateKey`; either failure leaves the store
    /// unchanged. On success the row keeps its id, creation time and
    /// description, takes the new source, alias flag and target, and is
    /// stamped modified at `now`.
    pub fn edit_link(&mut self, get: &GetLink, update: &UpdateLink, now: i64) -> (r: Result<
        Link,
        Error,
    >)
        requires
            old(self).wf(),
        ensures
            final(self).wf(),
            match r {
                Ok(l) => {
                    &&& has_id(old(self)@, get.id)
                    &&& final(self)@ == old(self)@.update(idx_of_id(old(self)@, get.id), l)
                    &&& l.id == get.id
                    &&& l.source@ == update.source@
                    &&& l.is_alias == update.is_alias
                    &&& l.target@ == update.target@
                    &&& l.created_at == old(self)@[idx_of_id(old(self)@, get.id)].created_at
                    &&& l.description@ == old(self)@[idx_of_id(
                        old(self)@,
                        get.id,
                    )].description@
                    &&& l.modified_at == now
                },
                Err(e) => {
                    &&& *final(self) == *old(self)
                    &&& (e == Error::NotFound || e == Error::DuplicateKey)
                    &&& (e == Error::NotFound <==> !has_id(old(self)@, get.id))
                    &&& (e == Error::DuplicateKey <==> has_id(old(self)@, get.id) && (exists|
                        j: int,
                    |
                        0 <= j < old(self)@.len() && (#[trigger] old(self)@[j]).id != get.id
                            && old(self)@[j].source@ == update.source@))
                },
            },
    {
        let i = match self.index_of_id(get.id) {
            Some(i) => i,
            None => {
                return Err(Error::NotFound);
            },
        };
        let dup = self.index_of_source(update.source.as_str());
        let conflict: bool = match dup {
            Some(j) => j != i,
            None => false,
        };
        if conflict {
            proof {
                lemma_spec_find_some(self@, update.source@);
                let j = dup->Some_0 as int;
                assert(self@[j].source@ == update.source@);
                assert(self@[j].id != get.id);
            }
            return Err(Error::DuplicateKey);
        }
        proof {
            match dup {
                Some(j) => {
                    assert(j == i);
                    lemma_spec_find_some(self@, update.source@);
                    assert(self@[i as int].source@ == update.source@);
                },
                None => {
                    lemma_spec_find_none(self@, update.source@);
                },
            }
            assert(forall|q: int|
                0 <= q < self@.len() && q != i ==> (#[trigger] self@[q]).source@
                    != update.source@);
        }
        let old_row = self.links.remove(i);
        let updated = Link {
            id: old_row.id,
            created_at: old_row.created_at,
            modified_at: now,
            source: update.source.clone(),
            is_alias: update.is_alias,
            target: update.target.clone(),
            description: old_row.description,
        };
        let result = updated.duplicate();
        self.links.insert(i, updated);
        proof {
            assert(final(self)@ =~= old(self)@.update(i as int, result));
            assert forall|p: int, q: int| 0 <= p < q < final(self)@.len() implies (
            #[trigger] final(self)@[p]).source@ != (#[trigger] final(self)@[q]).source@ by {
                if p != i as int && q != i as int {
                    assert(old(self)@[p].source@ != old(self)@[q].source@);
                }
            }
        }
        Ok(result)
    }

    /// Deletes the row with id `delete.id`; nothing removed is `NotFound`,
    /// not success.
    pub fn delete_link(&mut self, delete: &DeleteLink) -> (r: Result<(), Error>)
        requires
            old(self).wf(),
        ensures
            final(self).wf(),
            match r {
                Ok(_) => has_id(old(self)@, delete.id) && final(self)@ == old(self)@.remove(
                    idx_of_id(old(self)@, delete.id),
                ),
                Err(e) => e == Error::NotFound && !has_id(old(self)@, delete.id) && *final(self)
                    == *old(self),
            },
    {
        match self.index_of_id(delete.id) {
            Some(i) => {
                self.links.remove(i);
                proof {
                    assert(final(self)@ =~= old(self)@.remove(i as int));
                }
                Ok(())
            },
            None => Err(Error::NotFound),
        }
    }
}

} // verus!
