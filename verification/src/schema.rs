//! Request-scoped option types: paging, search and sort state.
//!
//! A query descriptor is the ephemeral composition of a [`PagingOptions`], a
//! [`SearchOptions`] and a [`SortOptions`], constructed per request and never
//! persisted. Each type carries its canonical default, and each `as_query`
//! method renders the minimal query-string fragment that omits fields equal
//! to their defaults, so that the default state encodes to the empty string.

use vstd::prelude::*;
use vstd::string::StringExecFns;

use crate::codec::{
    enc_paging, enc_search, enc_sort, method_name, method_name_str, order_name, order_name_str,
    render_u64, sort_name, sort_name_str,
};

verus! {

/// Sort key for query results.
///
/// `Relevance` selects the search strategy's native ranking order; then any
/// explicitly requested [`SortOrder`] is ignored.
#[derive(Clone, Copy, PartialEq, Eq, Structural, Debug)]
pub enum SortMethod {
    Relevance,
    Alphabetical,
    Created,
    Updated,
}

impl Default for SortMethod {
    /// The canonical default sort key: the strategy's own relevance order.
    fn default() -> (r: Self)
        ensures
            r == SortMethod::Relevance,
    {
        SortMethod::Relevance
    }
}

/// Direction of a sort.
#[derive(Clone, Copy, PartialEq, Eq, Structural, Debug)]
pub enum SortOrder {
    Descending,
    Ascending,
}

impl Default for SortOrder {
    fn default() -> (r: Self)
        ensures
            r == SortOrder::Descending,
    {
        SortOrder::Descending
    }
}

/// Requested sort state: a key and a direction.
#[derive(Clone, Copy, PartialEq, Eq, Structural, Debug)]
pub struct SortOptions {
    pub sort_by: SortMethod,
    pub order: SortOrder,
}

/// True exactly when both fields hold their canonical default.
pub open spec fn sort_is_default(s: SortOptions) -> bool {
    s.sort_by == SortMethod::Relevance && s.order == SortOrder::Descending
}

impl Default for SortOptions {
    fn default() -> (r: Self)
        ensures
            sort_is_default(r),
    {
        SortOptions { sort_by: SortMethod::Relevance, order: SortOrder::Descending }
    }
}

impl SortOptions {
    /// Renders the sort fragment, empty when the state is the default.
    pub fn as_query(&self) -> (r: String)
        ensures
            r@ == enc_sort(*self),
    {
        if self.sort_by == SortMethod::Relevance && self.order == SortOrder::Descending {
            String::new()
        } else {
            let mut s = String::new();
            s.append("&sort_by=");
            s.append(sort_name_str(self.sort_by));
            s.append("&order=");
            s.append(order_name_str(self.order));
            proof {
                assert(s@ =~= "&sort_by="@ + sort_name(self.sort_by) + "&order="@ + order_name(
                    self.order,
                ));
            }
            s
        }
    }
}

/// The canonical default page number.
pub fn default_page() -> (r: u64)
    ensures
        r == 1u64,
{
    1
}

/// The canonical default page size.
pub fn default_limit() -> (r: u64)
    ensures
        r == 10u64,
{
    10
}

/// Requested paging state: a 1-based page number and a page size.
#[derive(Clone, Copy, PartialEq, Eq, Structural, Debug)]
pub struct PagingOptions {
    pub page: u64,
    pub limit: u64,
}

/// True exactly when both fields hold their canonical default.
pub open spec fn paging_is_default(p: PagingOptions) -> bool {
    p.page == 1u64 && p.limit == 10u64
}

impl Default for PagingOptions {
    fn default() -> (r: Self)
        ensures
            paging_is_default(r),
    {
        PagingOptions { page: default_page(), limit: default_limit() }
    }
}

impl PagingOptions {
    /// Number of rows that precede the requested page.
    pub fn offset(&self) -> (r: u64)
        requires
            self.page >= 1,
            (self.page - 1) * self.limit <= u64::MAX,
        ensures
            r == (self.page - 1) * self.limit,
    {
        (self.page - 1) * self.limit
    }

    /// Renders the paging fragment, empty when the state is the default.
    pub fn as_query(&self) -> (r: String)
        ensures
            r@ == enc_paging(*self),
    {
        if self.page == 1 && self.limit == 10 {
            String::new()
        } else {
            let mut s = String::new();
            s.append("&page=");
            let page_digits = render_u64(self.page);
            s.append(page_digits.as_str());
            s.append("&limit=");
            let limit_digits = render_u64(self.limit);
            s.append(limit_digits.as_str());
            proof {
                assert(s@ =~= "&page="@ + crate::codec::dec_digits(self.page as int) + "&limit="@
                    + crate::codec::dec_digits(self.limit as int));
            }
            s
        }
    }
}

/// Search strategy for ranked retrieval.
#[derive(Clone, Copy, PartialEq, Eq, Structural, Debug)]
pub enum SearchMethod {
    /// Nearest-neighbour retrieval over an embedding of the query text.
    Semantic,
    /// Approximate string distance between the query text and each source key.
    DamerauLevenshtein,
}

impl Default for SearchMethod {
    fn default() -> (r: Self)
        ensures
            r == SearchMethod::Semantic,
    {
        SearchMethod::Semantic
    }
}

/// Requested search state: the query text and the strategy to rank it with.
#[derive(Clone, Debug)]
pub struct SearchOptions {
    pub query: String,
    pub method: SearchMethod,
}

/// True exactly when both fields hold their canonical default.
pub open spec fn search_is_default(query: Seq<char>, method: SearchMethod) -> bool {
    query.len() == 0 && method == SearchMethod::Semantic
}

impl Default for SearchOptions {
    fn default() -> (r: Self)
        ensures
            search_is_default(r.query@, r.method),
    {
        SearchOptions { query: String::new(), method: SearchMethod::Semantic }
    }
}

impl SearchOptions {
    /// Renders the search fragment, empty when the state is the default.
    pub fn as_query(&self) -> (r: String)
        ensures
            r@ == enc_search(self.query@, self.method),
    {
        if self.query.as_str().is_empty() && self.method == SearchMethod::Semantic {
            String::new()
        } else {
            let mut s = String::new();
            s.append("&query=");
            s.append(self.query.as_str());
            s.append("&method=");
            s.append(method_name_str(self.method));
            proof {
                assert(s@ =~= "&query="@ + self.query@ + "&method="@ + method_name(self.method));
            }
            s
        }
    }
}

/// Presentation switch for a single-link view.
#[derive(Clone, Copy, Debug)]
pub struct ViewOptions {
    pub editable: bool,
}

/// The canonical default for [`ViewOptions::editable`].
pub fn default_editable() -> (r: bool)
    ensures
        r == false,
{
    false
}

impl Default for ViewOptions {
    fn default() -> (r: Self)
        ensures
            r.editable == false,
    {
        ViewOptions { editable: default_editable() }
    }
}

/// Request to read one link by its id.
#[derive(Clone, Copy, Debug)]
pub struct GetLink {
    pub id: i64,
}

/// Request to delete one link by its id.
#[derive(Clone, Copy, Debug)]
pub struct DeleteLink {
    pub id: i64,
}

/// Request to look one link up by its exact source key.
#[derive(Clone, Debug)]
pub struct FindLink {
    pub source: String,
}

/// A full query descriptor: paging plus search state.
#[derive(Clone, Debug)]
pub struct QueryLinks {
    pub paging: PagingOptions,
    pub search: SearchOptions,
}

/// Candidate fields for a new link.
#[derive(Clone, Debug)]
pub struct CreateLink {
    pub source: String,
    pub is_alias: bool,
    pub target: String,
}

/// Replacement fields for an existing link.
#[derive(Clone, Debug)]
pub struct UpdateLink {
    pub source: String,
    pub is_alias: bool,
    pub target: String,
}

} // verus!
