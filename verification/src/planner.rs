//! The query planner and dispatcher: turns a (search, paging, sort) request
//! into ranked rows, executes it against the store, and derives stable page
//! metadata from the total row count.
//!
//! Dispatch over the search strategy is closed and exhaustive. A strategy
//! that is a recognized enum member but has no routine here fails fast with
//! `NotImplemented` — it is never silently answered with an empty or default
//! result. In this store the semantic strategy needs the external embedding
//! capability, so it is exactly that case.

use vstd::multiset::Multiset;
use vstd::prelude::*;

use crate::distance::{spec_damlev, damlev};
use crate::model::Link;
use crate::schema::{PagingOptions, QueryLinks, SearchMethod, SearchOptions, SortMethod,
    SortOptions, SortOrder};
use crate::store::{has_id, idx_of_id, LinkStore};
use crate::Error;

verus! {

/// A link paired with its computed distance from the query text.
pub struct Row {
    pub dist: usize,
    pub link: Link,
}

/// The ranking order on rows: ascending distance first; ties broken by
/// modification time (descending when `tie_desc`), then by id, which makes
/// the order total and, on rows with distinct ids, antisymmetric.
pub open spec fn row_le(tie_desc: bool, a: Row, b: Row) -> bool {
    if a.dist != b.dist {
        a.dist < b.dist
    } else if a.link.modified_at != b.link.modified_at {
        if tie_desc {
            a.link.modified_at > b.link.modified_at
        } else {
            a.link.modified_at < b.link.modified_at
        }
    } else {
        a.link.id <= b.link.id
    }
}

/// Whether `s` is sorted under [`row_le`].
pub open spec fn sorted_rows(tie_desc: bool, s: Seq<Row>) -> bool {
    forall|i: int, j: int| 0 <= i < j < s.len() ==> row_le(tie_desc, #[trigger] s[i], #[trigger] s[j])
}

/// Inserts `x` into a sorted sequence, before the first element it precedes.
pub open spec fn spec_insert(tie_desc: bool, s: Seq<Row>, x: Row) -> Seq<Row>
    decreases s.len(),
{
    if s.len() == 0 {
        seq![x]
    } else if row_le(tie_desc, x, s[0]) {
        seq![x] + s
    } else {
        seq![s[0]] + spec_insert(tie_desc, s.drop_first(), x)
    }
}

/// Insertion sort of a row sequence: the unique stable normal form that the
/// executable sort below computes.
pub open spec fn spec_sort(tie_desc: bool, s: Seq<Row>) -> Seq<Row>
    decreases s.len(),
{
    if s.len() == 0 {
        Seq::empty()
    } else {
        spec_insert(tie_desc, spec_sort(tie_desc, s.drop_last()), s.last())
    }
}

/// The rows of a corpus: every link paired with its distance from `q`.
pub open spec fn rows_of(links: Seq<Link>, q: Seq<char>) -> Seq<Row> {
    links.map_values(|l: Link| Row { dist: spec_damlev(q, l.source@) as usize, link: l })
}

/// Whether the requested sort breaks distance ties by recency descending.
///
/// `Relevance` selects the strategy's native order outright: the explicit
/// direction is ignored and ties fall back to recency descending. Any other
/// sort key keeps the strategy's ranking and applies the direction to the
/// recency tie-break.
pub open spec fn spec_tie_desc(sort: SortOptions) -> bool {
    sort.sort_by == SortMethod::Relevance || sort.order == SortOrder::Descending
}

/// The corpus ranked for the approximate-distance strategy: all rows sorted
/// by ascending distance from `q`, projected back to links.
pub open spec fn spec_ranked(links: Seq<Link>, q: Seq<char>, tie_desc: bool) -> Seq<Link> {
    spec_sort(tie_desc, rows_of(links, q)).map_values(|r: Row| r.link)
}

/// One page of a row sequence: `limit` rows starting at `offset`, clipped
/// to the sequence.
pub open spec fn spec_page(rows: Seq<Link>, offset: int, limit: int) -> Seq<Link> {
    let lo = if offset > rows.len() {
        rows.len() as int
    } else {
        offset
    };
    let hi = if offset + limit > rows.len() {
        rows.len() as int
    } else {
        offset + limit
    };
    rows.subrange(lo, hi)
}

/// The number of the last page: `total / limit` rounded up, `0` for an
/// empty corpus.
pub open spec fn spec_last_page(total: int, limit: int) -> int {
    total / limit + if total % limit == 0 {
        0int
    } else {
        1int
    }
}

/// The exec counterpart of [`row_le`].
fn row_le_exec(tie_desc: bool, a: &Row, b: &Row) -> (r: bool)
    ensures
        r == row_le(tie_desc, *a, *b),
{
    if a.dist != b.dist {
        a.dist < b.dist
    } else if a.link.modified_at != b.link.modified_at {
        if tie_desc {
            a.link.modified_at > b.link.modified_at
        } else {
            a.link.modified_at < b.link.modified_at
        }
    } else {
        a.link.id <= b.link.id
    }
}

/// Where `x` belongs in the sorted vector `out`.
fn insert_pos(tie_desc: bool, out: &Vec<Row>, x: &Row) -> (k: usize)
    ensures
        k <= out@.len(),
        forall|m: int| 0 <= m < k ==> !row_le(tie_desc, *x, #[trigger] out@[m]),
        k < out@.len() ==> row_le(tie_desc, *x, out@[k as int]),
{
    let n = out.len();
    let mut k: usize = 0;
    while k < n
        invariant
            k <= n,
            n == out@.len(),
            forall|m: int| 0 <= m < k ==> !row_le(tie_desc, *x, #[trigger] out@[m]),
        decreases n - k,
    {
        if row_le_exec(tie_desc, x, &out[k]) {
            return k;
        }
        k = k + 1;
    }
    n
}

/// Inserting at the found position computes exactly [`spec_insert`].
proof fn lemma_insert_at(tie_desc: bool, s: Seq<Row>, x: Row, k: int)
    requires
        0 <= k <= s.len(),
        forall|m: int| 0 <= m < k ==> !row_le(tie_desc, x, #[trigger] s[m]),
        k < s.len() ==> row_le(tie_desc, x, s[k]),
    ensures
        spec_insert(tie_desc, s, x) == s.subrange(0, k) + seq![x] + s.subrange(k, s.len() as int),
    decreases k,
{
    if k == 0 {
        if s.len() == 0 {
            assert(spec_insert(tie_desc, s, x) =~= s.subrange(0, 0) + seq![x] + s.subrange(
                0,
                s.len() as int,
            ));
        } else {
            assert(s.subrange(0, s.len() as int) =~= s);
            assert(seq![x] + s =~= s.subrange(0, 0) + seq![x] + s.subrange(0, s.len() as int));
        }
    } else {
        let rest = s.drop_first();
        assert(!row_le(tie_desc, x, s[0]));
        assert(forall|m: int| 0 <= m < k - 1 ==> !row_le(tie_desc, x, #[trigger] rest[m]));
        lemma_insert_at(tie_desc, rest, x, k - 1);
        assert(seq![s[0]] + (rest.subrange(0, k - 1) + seq![x] + rest.subrange(
            k - 1,
            rest.len() as int,
        )) =~= s.subrange(0, k) + seq![x] + s.subrange(k, s.len() as int));
    }
}

/// Inserts `x` into the sorted vector, keeping it equal to [`spec_insert`].
fn insert_sorted(tie_desc: bool, out: &mut Vec<Row>, x: Row)
    ensures
        final(out)@ == spec_insert(tie_desc, old(out)@, x),
{
    let k = insert_pos(tie_desc, out, &x);
    proof {
        lemma_insert_at(tie_desc, out@, x, k as int);
    }
    out.insert(k, x);
    proof {
        assert(final(out)@ =~= old(out)@.subrange(0, k as int) + seq![x] + old(out)@.subrange(
            k as int,
            old(out)@.len() as int,
        ));
    }
}

/// Ranks the whole corpus for the approximate-distance strategy: every row
/// paired with its distance from `query`, insertion-sorted under the tie
/// order.
fn ranked_rows(store: &LinkStore, query: &str, tie_desc: bool) -> (r: Vec<Row>)
    ensures
        r@ == spec_sort(tie_desc, rows_of(store@, query@)),
        r@.len() == store@.len(),
{
    let n = store.row_count();
    let mut out: Vec<Row> = Vec::new();
    proof {
        assert(store@.subrange(0, 0) =~= Seq::<Link>::empty());
        assert(rows_of(Seq::<Link>::empty(), query@) =~= Seq::<Row>::empty());
    }
    let mut i: usize = 0;
    while i < n
        invariant
            i <= n,
            n == store@.len(),
            out@ == spec_sort(tie_desc, rows_of(store@.subrange(0, i as int), query@)),
            out@.len() == i,
        decreases n - i,
    {
        let link = store.row_at(i);
        let d = damlev(query, link.source.as_str());
        let row = Row { dist: d, link };
        proof {
            let prefix = rows_of(store@.subrange(0, i + 1), query@);
            assert(rows_of(store@.subrange(0, i as int), query@) =~= prefix.drop_last());
            assert(prefix.last() == row);
            lemma_insert_len(tie_desc, out@, row);
        }
        insert_sorted(tie_desc, &mut out, row);
        i = i + 1;
    }
    proof {
        assert(store@.subrange(0, n as int) =~= store@);
    }
    out
}

/// Inserting grows a sequence by exactly one row.
proof fn lemma_insert_len(tie_desc: bool, s: Seq<Row>, x: Row)
    ensures
        spec_insert(tie_desc, s, x).len() == s.len() + 1,
    decreases s.len(),
{
    if s.len() > 0 && !row_le(tie_desc, x, s[0]) {
        lemma_insert_len(tie_desc, s.drop_first(), x);
    }
}

/// Computes the last page number: ceiling division, `0` for `0` rows.
pub fn last_page(total: u64, limit: u64) -> (r: u64)
    requires
        limit >= 1,
    ensures
        r == spec_last_page(total as int, limit as int),
{
    let q = total / limit;
    let rem = total % limit;
    if rem == 0 {
        q
    } else {
        proof {
            assert(q < u64::MAX) by (nonlinear_arith)
                requires
                    q == total / limit,
                    rem == total % limit,
                    rem >= 1,
                    limit >= 1,
                    total <= u64::MAX,
            ;
        }
        q + 1
    }
}

/// Executes a full query descriptor against the store: validates the paging
/// state, dispatches on the search strategy, ranks and pages the rows, and
/// derives the last page from the total row count.
///
/// `limit` or `page` of zero is `InvalidInput`; the semantic strategy has no
/// routine in this store (it needs the external embedding capability) and is
/// `NotImplemented`, never an empty result.
pub fn query_links(store: &LinkStore, query: &QueryLinks, sort: &SortOptions) -> (r: Result<
    (Vec<Link>, u64),
    Error,
>)
    ensures
        match r {
            Ok(page) => {
                &&& query.paging.limit >= 1
                &&& query.paging.page >= 1
                &&& query.search.method == SearchMethod::DamerauLevenshtein
                &&& page.1 == spec_last_page(store@.len() as int, query.paging.limit as int)
                &&& page.0@ == spec_page(
                    spec_ranked(store@, query.search.query@, spec_tie_desc(*sort)),
                    (query.paging.page - 1) * query.paging.limit,
                    query.paging.limit as int,
                )
            },
            Err(e) => {
                &&& (e == Error::InvalidInput || e == Error::NotImplemented)
                &&& (e == Error::InvalidInput <==> query.paging.limit == 0 || query.paging.page
                    == 0)
                &&& (e == Error::NotImplemented <==> query.paging.limit >= 1
                    && query.paging.page >= 1 && query.search.method == SearchMethod::Semantic)
            },
        },
{
    if query.paging.limit == 0 || query.paging.page == 0 {
        return Err(Error::InvalidInput);
    }
    match query.search.method {
        SearchMethod::Semantic => Err(Error::NotImplemented),
        SearchMethod::DamerauLevenshtein => {
            let tie_desc = match sort.sort_by {
                SortMethod::Relevance => true,
                _ => match sort.order {
                    SortOrder::Descending => true,
                    SortOrder::Ascending => false,
                },
            };
            proof {
                assert(tie_desc == spec_tie_desc(*sort));
            }
            let ranked = ranked_rows(store, query.search.query.as_str(), tie_desc);
            let total = ranked.len();
            let p1: u128 = (query.paging.page - 1) as u128;
            let lim: u128 = query.paging.limit as u128;
            proof {
                assert(p1 * lim + lim < u128::MAX) by (nonlinear_arith)
                    requires
                        p1 < 0x10000000000000000u128,
                        lim < 0x10000000000000000u128,
                ;
            }
            let offset: u128 = p1 * lim;
            let lo: usize = if offset >= total as u128 {
                total
            } else {
                offset as usize
            };
            let end: u128 = offset + lim;
            let hi: usize = if end >= total as u128 {
                total
            } else {
                end as usize
            };
            let mut items: Vec<Link> = Vec::new();
            let mut idx: usize = lo;
            while idx < hi
                invariant
                    lo <= idx <= hi <= ranked@.len(),
                    items@.len() == idx - lo,
                    forall|m: int|
                        0 <= m < items@.len() ==> #[trigger] items@[m] == ranked@[lo + m].link,
                decreases hi - idx,
            {
                items.push(ranked[idx].link.duplicate());
                idx = idx + 1;
            }
            let last = last_page(total as u64, query.paging.limit);
            proof {
                let full = spec_ranked(store@, query.search.query@, spec_tie_desc(*sort));
                assert(full.len() == ranked@.len());
                assert(forall|m: int| 0 <= m < full.len() ==> #[trigger] full[m] == ranked@[m].link);
                assert(items@ =~= spec_page(
                    full,
                    (query.paging.page - 1) * query.paging.limit,
                    query.paging.limit as int,
                ));
            }
            Ok((items, last))
        },
    }
}

/// The result of one planned query: the requested paging state, the derived
/// last page, and the rows of the page.
#[derive(Debug)]
pub struct PagingResult {
    pub page: u64,
    pub limit: u64,
    pub last_page: u64,
    pub items: Vec<Link>,
}

/// Plans and executes a paginated, sorted search: the planner entry point.
pub fn execute(
    store: &LinkStore,
    search: &SearchOptions,
    paging: &PagingOptions,
    sort: &SortOptions,
) -> (r: Result<PagingResult, Error>)
    ensures
        match r {
            Ok(pr) => {
                &&& paging.limit >= 1
                &&& paging.page >= 1
                &&& search.method == SearchMethod::DamerauLevenshtein
                &&& pr.page == paging.page
                &&& pr.limit == paging.limit
                &&& pr.last_page == spec_last_page(store@.len() as int, paging.limit as int)
                &&& pr.items@ == spec_page(
                    spec_ranked(store@, search.query@, spec_tie_desc(*sort)),
                    (paging.page - 1) * paging.limit,
                    paging.limit as int,
                )
            },
            Err(e) => {
                &&& (e == Error::InvalidInput || e == Error::NotImplemented)
                &&& (e == Error::InvalidInput <==> paging.limit == 0 || paging.page == 0)
                &&& (e == Error::NotImplemented <==> paging.limit >= 1 && paging.page >= 1
                    && search.method == SearchMethod::Semantic)
            },
        },
{
    let descriptor = QueryLinks {
        paging: *paging,
        search: SearchOptions { query: search.query.clone(), method: search.method },
    };
    match query_links(store, &descriptor, sort) {
        Ok((items, last)) => Ok(
            PagingResult { page: paging.page, limit: paging.limit, last_page: last, items },
        ),
        Err(e) => Err(e),
    }
}

/// The candidate cap for nearest-neighbour retrieval: rows considered
/// before pagination is applied.
pub const SEMANTIC_CANDIDATE_CAP: usize = 100;

/// The semantic candidate pool: the ranked ids mapped to their store rows in
/// ranked order, skipping ids that name no row.
pub open spec fn semantic_pool(links: Seq<Link>, ranked: Seq<i64>) -> Seq<Link>
    decreases ranked.len(),
{
    if ranked.len() == 0 {
        Seq::empty()
    } else {
        let head = semantic_pool(links, ranked.drop_last());
        if has_id(links, ranked.last()) {
            head + seq![links[idx_of_id(links, ranked.last())]]
        } else {
            head
        }
    }
}

/// The semantic retrieval routine, for a deployment that injects the
/// nearest-neighbour capability: `ranked` holds the ids of the nearest links
/// by ascending embedding distance, as the external vector index reports
/// them.
///
/// The candidate pool is restricted to the first
/// [`SEMANTIC_CANDIDATE_CAP`] ranked ids before pagination; rows keep the
/// injected ascending-distance order, the strategy's native ranking. The
/// reported total counts the candidate pool, and ids that name no row (the
/// index may lag the store) are skipped.
pub fn query_semantic(store: &LinkStore, ranked: &Vec<i64>, paging: &PagingOptions) -> (r: Result<
    (Vec<Link>, u64),
    Error,
>)
    requires
        store.wf(),
    ensures
        match r {
            Ok(page) => {
                &&& paging.limit >= 1
                &&& paging.page >= 1
                &&& ({
                    let capped = if ranked@.len() > SEMANTIC_CANDIDATE_CAP {
                        ranked@.take(SEMANTIC_CANDIDATE_CAP as int)
                    } else {
                        ranked@
                    };
                    let pool = semantic_pool(store@, capped);
                    &&& page.1 == spec_last_page(pool.len() as int, paging.limit as int)
                    &&& page.0@ == spec_page(
                        pool,
                        (paging.page - 1) * paging.limit,
                        paging.limit as int,
                    )
                })
            },
            Err(e) => e == Error::InvalidInput && (paging.limit == 0 || paging.page == 0),
        },
{
    if paging.limit == 0 || paging.page == 0 {
        return Err(Error::InvalidInput);
    }
    let cap = if ranked.len() > SEMANTIC_CANDIDATE_CAP {
        SEMANTIC_CANDIDATE_CAP
    } else {
        ranked.len()
    };
    let ghost capped = if ranked@.len() > SEMANTIC_CANDIDATE_CAP {
        ranked@.take(SEMANTIC_CANDIDATE_CAP as int)
    } else {
        ranked@
    };
    proof {
        assert(capped =~= ranked@.take(cap as int));
        assert(ranked@.take(0) =~= Seq::<i64>::empty());
    }
    let mut pool: Vec<Link> = Vec::new();
    let mut i: usize = 0;
    while i < cap
        invariant
            i <= cap <= ranked@.len(),
            store.wf(),
            pool@ == semantic_pool(store@, ranked@.take(i as int)),
        decreases cap - i,
    {
        let ghost before = ranked@.take(i as int);
        proof {
            assert(ranked@.take(i + 1).drop_last() =~= before);
            assert(ranked@.take(i + 1).last() == ranked@[i as int]);
        }
        match store.get_link(&crate::schema::GetLink { id: ranked[i] }) {
            Ok(link) => {
                proof {
                    assert(pool@.push(link) =~= pool@ + seq![link]);
                }
                pool.push(link);
            },
            Err(_) => {},
        }
        i = i + 1;
    }
    let total = pool.len();
    let p1: u128 = (paging.page - 1) as u128;
    let lim: u128 = paging.limit as u128;
    proof {
        assert(p1 * lim + lim < u128::MAX) by (nonlinear_arith)
            requires
                p1 < 0x10000000000000000u128,
                lim < 0x10000000000000000u128,
        ;
    }
    let offset: u128 = p1 * lim;
    let lo: usize = if offset >= total as u128 {
        total
    } else {
        offset as usize
    };
    let end: u128 = offset + lim;
    let hi: usize = if end >= total as u128 {
        total
    } else {
        end as usize
    };
    let mut items: Vec<Link> = Vec::new();
    let mut idx: usize = lo;
    while idx < hi
        invariant
            lo <= idx <= hi <= pool@.len(),
            items@.len() == idx - lo,
            forall|m: int| 0 <= m < items@.len() ==> #[trigger] items@[m] == pool@[lo + m],
        decreases hi - idx,
    {
        items.push(pool[idx].duplicate());
        idx = idx + 1;
    }
    let last = last_page(total as u64, paging.limit);
    proof {
        assert(items@ =~= spec_page(
            semantic_pool(store@, capped),
            (paging.page - 1) * paging.limit,
            paging.limit as int,
        ));
    }
    Ok((items, last))
}

// ---------------------------------------------------------------------------
// Laws of planning
// ---------------------------------------------------------------------------

/// `spec_last_page` really is the ceiling of `total / limit`: it covers all
/// rows, its predecessor does not, and it is zero exactly for zero rows.
pub proof fn lemma_last_page_ceiling(total: int, limit: int)
    requires
        total >= 0,
        limit >= 1,
    ensures
        spec_last_page(total, limit) >= 0,
        spec_last_page(total, limit) * limit >= total,
        total > 0 ==> (spec_last_page(total, limit) - 1) * limit < total,
        spec_last_page(total, limit) == 0 <==> total == 0,
{
    let q = total / limit;
    let m = total % limit;
    vstd::arithmetic::div_mod::lemma_fundamental_div_mod(total, limit);
    assert(0 <= m < limit) by {
        vstd::arithmetic::div_mod::lemma_mod_bound(total, limit);
    }
    assert(q >= 0) by (nonlinear_arith)
        requires
            total == limit * q + m,
            0 <= m < limit,
            total >= 0,
            limit >= 1,
    ;
    if m == 0 {
        assert(spec_last_page(total, limit) == q);
        assert(q * limit == total) by (nonlinear_arith)
            requires
                total == limit * q + m,
                m == 0,
        ;
        assert((q - 1) * limit == total - limit) by (nonlinear_arith)
            requires
                q * limit == total,
        ;
        assert(q == 0 <==> total == 0) by (nonlinear_arith)
            requires
                total == limit * q,
                limit >= 1,
                q >= 0,
        ;
    } else {
        assert(spec_last_page(total, limit) == q + 1);
        assert((q + 1) * limit == limit * q + limit && q * limit == limit * q) by (
        nonlinear_arith)
        ;
        assert((q + 1) * limit >= total + 1);
        assert(q * limit < total);
    }
}

/// Every element of an insertion is the inserted row or one of the old rows.
proof fn lemma_insert_elements(tie_desc: bool, s: Seq<Row>, x: Row)
    ensures
        forall|k: int|
            0 <= k < spec_insert(tie_desc, s, x).len() ==> (#[trigger] spec_insert(
                tie_desc,
                s,
                x,
            )[k] == x || s.contains(spec_insert(tie_desc, s, x)[k])),
    decreases s.len(),
{
    let t = spec_insert(tie_desc, s, x);
    if s.len() == 0 {
    } else if row_le(tie_desc, x, s[0]) {
        assert forall|k: int| 0 <= k < t.len() implies (#[trigger] t[k] == x || s.contains(
            t[k],
        )) by {
            if k >= 1 {
                assert(t[k] == s[k - 1]);
            }
        }
    } else {
        let rest = s.drop_first();
        lemma_insert_elements(tie_desc, rest, x);
        let ti = spec_insert(tie_desc, rest, x);
        assert forall|k: int| 0 <= k < t.len() implies (#[trigger] t[k] == x || s.contains(
            t[k],
        )) by {
            if k == 0 {
                assert(t[0] == s[0]);
            } else {
                assert(t[k] == ti[k - 1]);
                if ti[k - 1] != x {
                    let m = choose|m: int| 0 <= m < rest.len() && rest[m] == ti[k - 1];
                    assert(s[m + 1] == ti[k - 1]);
                }
            }
        }
    }
}

/// Inserting into a sorted sequence keeps it sorted.
proof fn lemma_insert_keeps_sorted(tie_desc: bool, s: Seq<Row>, x: Row)
    requires
        sorted_rows(tie_desc, s),
    ensures
        sorted_rows(tie_desc, spec_insert(tie_desc, s, x)),
    decreases s.len(),
{
    let t = spec_insert(tie_desc, s, x);
    if s.len() == 0 {
    } else if row_le(tie_desc, x, s[0]) {
        assert forall|i: int, j: int| 0 <= i < j < t.len() implies row_le(
            tie_desc,
            #[trigger] t[i],
            #[trigger] t[j],
        ) by {
            if i == 0 {
                assert(t[j] == s[j - 1]);
                assert(row_le(tie_desc, x, s[0]));
                if j > 1 {
                    assert(row_le(tie_desc, s[0], s[j - 1]));
                }
            } else {
                assert(t[i] == s[i - 1] && t[j] == s[j - 1]);
            }
        }
    } else {
        let rest = s.drop_first();
        assert(forall|i: int, j: int|
            0 <= i < j < rest.len() ==> row_le(tie_desc, #[trigger] rest[i], #[trigger] rest[j]))
            by {
            assert(forall|m: int| 0 <= m < rest.len() ==> #[trigger] rest[m] == s[m + 1]);
        }
        lemma_insert_keeps_sorted(tie_desc, rest, x);
        lemma_insert_elements(tie_desc, rest, x);
        let ti = spec_insert(tie_desc, rest, x);
        assert forall|i: int, j: int| 0 <= i < j < t.len() implies row_le(
            tie_desc,
            #[trigger] t[i],
            #[trigger] t[j],
        ) by {
            if i == 0 {
                assert(t[j] == ti[j - 1]);
                if ti[j - 1] == x {
                    assert(!row_le(tie_desc, x, s[0]));
                    assert(row_le(tie_desc, s[0], x));
                } else {
                    let m = choose|m: int| 0 <= m < rest.len() && rest[m] == ti[j - 1];
                    assert(s[m + 1] == ti[j - 1]);
                    assert(row_le(tie_desc, s[0], s[m + 1]));
                }
            } else {
                assert(t[i] == ti[i - 1] && t[j] == ti[j - 1]);
            }
        }
    }
}

/// Inserting a row adds exactly that row to the sequence's multiset.
proof fn lemma_insert_multiset(tie_desc: bool, s: Seq<Row>, x: Row)
    ensures
        spec_insert(tie_desc, s, x).to_multiset() == s.to_multiset().insert(x),
    decreases s.len(),
{
    s.to_multiset_ensures();
    if s.len() == 0 {
        assert(spec_insert(tie_desc, s, x) =~= s.push(x));
    } else if row_le(tie_desc, x, s[0]) {
        vstd::seq_lib::lemma_multiset_commutative(seq![x], s);
        assert(seq![x] =~= Seq::<Row>::empty().push(x));
        Seq::<Row>::empty().to_multiset_ensures();
        assert(Seq::<Row>::empty().to_multiset() =~= Multiset::<Row>::empty());
        assert(Multiset::<Row>::empty().insert(x).add(s.to_multiset()) =~= s.to_multiset().insert(
            x,
        ));
    } else {
        let rest = s.drop_first();
        lemma_insert_multiset(tie_desc, rest, x);
        vstd::seq_lib::lemma_multiset_commutative(seq![s[0]], spec_insert(tie_desc, rest, x));
        vstd::seq_lib::lemma_multiset_commutative(seq![s[0]], rest);
        assert(s =~= seq![s[0]] + rest);
        assert(seq![s[0]].to_multiset().add(rest.to_multiset().insert(x)) =~= seq![
            s[0],
        ].to_multiset().add(rest.to_multiset()).insert(x));
    }
}

/// The sorted form of a row sequence is sorted, holds exactly the input
/// rows (as a multiset), and consists of rows of the input.
pub proof fn lemma_sort_rows(tie_desc: bool, s: Seq<Row>)
    ensures
        sorted_rows(tie_desc, spec_sort(tie_desc, s)),
        spec_sort(tie_desc, s).len() == s.len(),
        spec_sort(tie_desc, s).to_multiset() == s.to_multiset(),
        forall|k: int|
            0 <= k < s.len() ==> exists|m: int|
                0 <= m < s.len() && #[trigger] spec_sort(tie_desc, s)[k] == #[trigger] s[m],
    decreases s.len(),
{
    if s.len() == 0 {
        assert(spec_sort(tie_desc, s) =~= s);
    } else {
        lemma_insert_multiset(tie_desc, spec_sort(tie_desc, s.drop_last()), s.last());
        s.drop_last().to_multiset_ensures();
        assert(s.drop_last().push(s.last()) =~= s);
        assert(s.drop_last().push(s.last()).to_multiset() =~= s.drop_last().to_multiset().insert(
            s.last(),
        ));
        let head = s.drop_last();
        lemma_sort_rows(tie_desc, head);
        lemma_insert_keeps_sorted(tie_desc, spec_sort(tie_desc, head), s.last());
        lemma_insert_elements(tie_desc, spec_sort(tie_desc, head), s.last());
        lemma_insert_len(tie_desc, spec_sort(tie_desc, head), s.last());
        let t = spec_sort(tie_desc, s);
        assert forall|k: int| 0 <= k < s.len() implies exists|m: int|
            0 <= m < s.len() && #[trigger] t[k] == #[trigger] s[m] by {
            if t[k] == s.last() {
                assert(t[k] == s[s.len() - 1]);
            } else {
                let p = choose|p: int|
                    0 <= p < spec_sort(tie_desc, head).len() && spec_sort(tie_desc, head)[p]
                        == t[k];
                let m = choose|m: int| 0 <= m < head.len() && spec_sort(tie_desc, head)[p]
                    == head[m];
                assert(s[m] == head[m]);
            }
        }
    }
}

/// The approximate-distance strategy ranks the corpus by ascending computed
/// distance from the query string, whatever tie order is in force.
///
/// The length bounds are machine limits: every executable string has at
/// most `usize::MAX` characters.
pub proof fn lemma_ranked_by_distance(links: Seq<Link>, q: Seq<char>, tie_desc: bool)
    requires
        q.len() <= usize::MAX,
        forall|k: int| 0 <= k < links.len() ==> (#[trigger] links[k]).source@.len() <= usize::MAX,
    ensures
        spec_ranked(links, q, tie_desc).len() == links.len(),
        forall|i: int, j: int|
            0 <= i < j < spec_ranked(links, q, tie_desc).len() ==> spec_damlev(
                q,
                (#[trigger] spec_ranked(links, q, tie_desc)[i]).source@,
            ) <= spec_damlev(q, (#[trigger] spec_ranked(links, q, tie_desc)[j]).source@),
{
    let rows = rows_of(links, q);
    let sorted = spec_sort(tie_desc, rows);
    let ranked = spec_ranked(links, q, tie_desc);
    lemma_sort_rows(tie_desc, rows);
    assert forall|k: int| 0 <= k < sorted.len() implies spec_damlev(
        q,
        (#[trigger] sorted[k]).link.source@,
    ) == sorted[k].dist by {
        let m = choose|m: int| 0 <= m < rows.len() && sorted[k] == #[trigger] rows[m];
        assert(rows[m].link == links[m]);
        crate::distance::lemma_damlev_bounds(q, links[m].source@);
    }
    assert forall|i: int, j: int| 0 <= i < j < ranked.len() implies spec_damlev(
        q,
        (#[trigger] ranked[i]).source@,
    ) <= spec_damlev(q, (#[trigger] ranked[j]).source@) by {
        assert(ranked[i] == sorted[i].link && ranked[j] == sorted[j].link);
        assert(row_le(tie_desc, sorted[i], sorted[j]));
    }
}

/// With `Relevance` as the sort key, the explicitly requested direction has
/// no effect: the strategy's native order wins outright.
pub proof fn lemma_relevance_order_ignored(
    links: Seq<Link>,
    q: Seq<char>,
    s1: SortOptions,
    s2: SortOptions,
)
    requires
        s1.sort_by == SortMethod::Relevance,
        s2.sort_by == SortMethod::Relevance,
    ensures
        spec_ranked(links, q, spec_tie_desc(s1)) == spec_ranked(links, q, spec_tie_desc(s2)),
{
}

} // verus!
