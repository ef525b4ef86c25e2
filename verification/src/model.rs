//! The persistent data model: registered links and the paging record handed
//! to navigation-link builders.

use vstd::prelude::*;
use vstd::string::StringExecFns;

use crate::codec::{enc_paging, enc_search, enc_sort};
use crate::schema::{PagingOptions, SearchOptions, SortOptions};

verus! {

/// A registered mapping from a short source key to a target.
///
/// `source` is unique across all links of one store. When `is_alias` is
/// true, `target` is intended to name another link's source key rather than
/// a literal destination; a dangling alias (whose target names no registered
/// source) is a valid, detectable state, not a model violation.
///
/// Timestamps are plain counters (for example seconds of some epoch); the
/// clock itself is an external collaborator and its readings are passed in.
#[derive(Debug)]
pub struct Link {
    pub id: i64,
    pub created_at: i64,
    pub modified_at: i64,
    pub source: String,
    pub is_alias: bool,
    pub target: String,
    pub description: String,
}

impl Link {
    /// An exact copy of this link.
    pub fn duplicate(&self) -> (r: Link)
        ensures
            r == *self,
    {
        Link {
            id: self.id,
            created_at: self.created_at,
            modified_at: self.modified_at,
            source: self.source.clone(),
            is_alias: self.is_alias,
            target: self.target.clone(),
            description: self.description.clone(),
        }
    }
}

/// Paging metadata for one rendered result page, together with the encoded
/// search/sort state used to build stateful navigation links.
#[derive(Debug)]
pub struct Paging {
    pub page: u64,
    pub limit: u64,
    pub last: u64,

    pub source: String,
    pub query: String,
    pub target: String,
}

impl Paging {
    /// Builds the paging record for one page: `query` holds the `?`-prefixed
    /// search and sort fragments; `source` and `target` name the route and
    /// anchor the navigation links point at.
    pub fn new(
        paging: &PagingOptions,
        search: &SearchOptions,
        sort: &SortOptions,
        last: u64,
        source: &str,
        target: &str,
    ) -> (r: Paging)
        ensures
            r.page == paging.page,
            r.limit == paging.limit,
            r.last == last,
            r.source@ == source@,
            r.target@ == target@,
            r.query@ == seq!['?'] + enc_search(search.query@, search.method) + enc_sort(*sort),
    {
        let mut q = String::new();
        q.append("?");
        let search_part = search.as_query();
        q.append(search_part.as_str());
        let sort_part = sort.as_query();
        q.append(sort_part.as_str());
        proof {
            reveal_strlit("?");
            assert(q@ =~= seq!['?'] + enc_search(search.query@, search.method) + enc_sort(*sort));
        }
        Paging {
            page: paging.page,
            limit: paging.limit,
            last,
            source: source.to_owned(),
            query: q,
            target: target.to_owned(),
        }
    }

    /// The full fragment for this page: the stored search/sort state with
    /// the paging fragment appended.
    pub fn full_query(&self) -> (r: String)
        ensures
            r@ == self.query@ + enc_paging(PagingOptions { page: self.page, limit: self.limit }),
    {
        let mut q = self.query.clone();
        let paging = PagingOptions { page: self.page, limit: self.limit };
        let paging_part = paging.as_query();
        q.append(paging_part.as_str());
        q
    }
}

} // verus!
