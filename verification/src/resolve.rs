//! The alias resolver: walks a chain of alias indirections from a source
//! key to its terminal link, detecting dangling targets and cycles.
//!
//! The walk is read-only and bounded: the set of visited links grows
//! strictly at every hop and the store is finite, so it always terminates
//! with one of the three [`Resolution`] outcomes. Repeats are detected by
//! link identity (id); under the store invariant ids are unique, so this
//! coincides with comparing whole records.

use vstd::prelude::*;
use vstd::seq_lib::seq_to_set_is_finite;

use crate::model::Link;
use crate::schema::FindLink;
use crate::store::{spec_find, LinkStore};

verus! {

/// Outcome of resolving a source key.
///
/// `NotFound` covers both a missing start key and a dangling hop; `Cycle`
/// reports a chain that revisits a link. Neither is ever degraded to an
/// empty or default result.
#[derive(Debug)]
pub enum Resolution {
    Found(Link),
    NotFound,
    Cycle,
}

impl Resolution {
    /// The outcome mapped one-to-one into the shared error taxonomy: a
    /// missing key or dangling hop is `NotFound`, a revisited link is
    /// `Cycle`; neither is recovered from or degraded.
    pub fn into_result(self) -> (r: Result<Link, crate::Error>)
        ensures
            match self {
                Resolution::Found(l) => r == Ok::<Link, crate::Error>(l),
                Resolution::NotFound => r == Err::<Link, crate::Error>(crate::Error::NotFound),
                Resolution::Cycle => r == Err::<Link, crate::Error>(crate::Error::Cycle),
            },
    {
        match self {
            Resolution::Found(l) => Ok(l),
            Resolution::NotFound => Err(crate::Error::NotFound),
            Resolution::Cycle => Err(crate::Error::Cycle),
        }
    }
}

/// The ids of all links of `links`, as a set of integers.
pub open spec fn id_set(links: Seq<Link>) -> Set<int> {
    links.map_values(|l: Link| l.id as int).to_set()
}

/// Every store's id set is finite.
pub proof fn lemma_id_set_finite(links: Seq<Link>)
    ensures
        id_set(links).finite(),
{
    broadcast use seq_to_set_is_finite;

}

/// A link that stands in the store has its id in the id set.
pub proof fn lemma_id_set_contains(links: Seq<Link>, l: Link)
    requires
        exists|i: int| 0 <= i < links.len() && #[trigger] links[i] == l,
    ensures
        id_set(links).contains(l.id as int),
{
    let i = choose|i: int| 0 <= i < links.len() && #[trigger] links[i] == l;
    let mapped = links.map_values(|x: Link| x.id as int);
    assert(mapped[i] == l.id as int);
    assert(mapped.contains(l.id as int));
}

/// One step of the resolution walk, as a recursive specification.
///
/// `cur` is the link the walk stands on, `visited` the ids of the links
/// already passed (excluding `cur`). The walk ends at the first non-alias
/// link, at a target that names no source, or at a repeated id.
pub open spec fn spec_walk(links: Seq<Link>, cur: Link, visited: Set<int>) -> Resolution
    decreases id_set(links).difference(visited).len()
        when visited.finite() && id_set(links).contains(cur.id as int) && !visited.contains(
            cur.id as int,
        )
        via spec_walk_decreases
{
    if !cur.is_alias {
        Resolution::Found(cur)
    } else {
        match spec_find(links, cur.target@) {
            None => Resolution::NotFound,
            Some(next) => {
                if visited.insert(cur.id as int).contains(next.id as int) {
                    Resolution::Cycle
                } else {
                    spec_walk(links, next, visited.insert(cur.id as int))
                }
            },
        }
    }
}

#[via_fn]
proof fn spec_walk_decreases(links: Seq<Link>, cur: Link, visited: Set<int>) {
    lemma_id_set_finite(links);
    if cur.is_alias {
        match spec_find(links, cur.target@) {
            Some(next) => {
                if !visited.insert(cur.id as int).contains(next.id as int) {
                    crate::store::lemma_spec_find_some(links, cur.target@);
                    lemma_id_set_contains(links, next);
                    id_set(links).lemma_set_insert_diff_decreases(visited, cur.id as int);
                }
            },
            None => {},
        }
    }
}

/// The result of resolving `source` against the store contents: look the
/// start key up, then walk the alias chain.
pub open spec fn spec_resolve(links: Seq<Link>, source: Seq<char>) -> Resolution {
    match spec_find(links, source) {
        None => Resolution::NotFound,
        Some(start) => spec_walk(links, start, Set::empty()),
    }
}

/// Whether `ids` holds `id`.
fn contains_id(ids: &Vec<i64>, id: i64) -> (r: bool)
    ensures
        r == ids@.contains(id),
{
    let n = ids.len();
    let mut i: usize = 0;
    while i < n
        invariant
            i <= n,
            n == ids@.len(),
            forall|k: int| 0 <= k < i ==> ids@[k] != id,
        decreases n - i,
    {
        if ids[i] == id {
            return true;
        }
        i = i + 1;
    }
    false
}

/// Resolves `initial` through the store: looks the key up and follows alias
/// hops to the terminal link, reporting a missing key or a dangling hop as
/// `NotFound` and a repeated link as `Cycle`.
pub fn resolve_alias(store: &LinkStore, initial: String) -> (r: Resolution)
    requires
        store.wf(),
    ensures
        r == spec_resolve(store@, initial@),
{
    let start = match store.find_link(&FindLink { source: initial }) {
        None => {
            return Resolution::NotFound;
        },
        Some(l) => l,
    };
    let mut cur: Link = start;
    let mut visited_ids: Vec<i64> = Vec::new();
    proof {
        crate::store::lemma_spec_find_some(store@, initial@);
        assert(visited_ids@.map_values(|x: i64| x as int).to_set() =~= Set::<int>::empty());
    }
    loop
        invariant
            store.wf(),
            exists|i: int| 0 <= i < store@.len() && #[trigger] store@[i] == cur,
            ({
                let visited = visited_ids@.map_values(|x: i64| x as int).to_set();
                &&& !visited.contains(cur.id as int)
                &&& spec_walk(store@, cur, visited) == spec_resolve(store@, initial@)
            }),
        decreases id_set(store@).difference(
            visited_ids@.map_values(|x: i64| x as int).to_set(),
        ).len(),
    {
        let ghost visited = visited_ids@.map_values(|x: i64| x as int).to_set();
        proof {
            lemma_id_set_finite(store@);
            lemma_id_set_contains(store@, cur);
        }
        if !cur.is_alias {
            return Resolution::Found(cur);
        }
        let next = match store.find_link(&FindLink { source: cur.target.clone() }) {
            None => {
                return Resolution::NotFound;
            },
            Some(n) => n,
        };
        proof {
            crate::store::lemma_spec_find_some(store@, cur.target@);
        }
        if next.id == cur.id || contains_id(&visited_ids, next.id) {
            proof {
                if next.id != cur.id {
                    let k = choose|k: int| 0 <= k < visited_ids@.len() && visited_ids@[k]
                        == next.id;
                    assert(visited_ids@.map_values(|x: i64| x as int)[k] == next.id as int);
                    assert(visited.contains(next.id as int));
                }
            }
            return Resolution::Cycle;
        }
        proof {
            assert(!visited.insert(cur.id as int).contains(next.id as int)) by {
                if visited.contains(next.id as int) {
                    let mapped = visited_ids@.map_values(|x: i64| x as int);
                    let k = choose|k: int| 0 <= k < mapped.len() && mapped[k] == next.id as int;
                    assert(visited_ids@[k] == next.id);
                    assert(visited_ids@.contains(next.id));
                }
            }
            lemma_id_set_contains(store@, next);
            id_set(store@).lemma_set_insert_diff_decreases(visited, cur.id as int);
            assert(visited_ids@.push(cur.id).map_values(|x: i64| x as int).to_set() =~= visited
                .insert(cur.id as int)) by {
                let before = visited_ids@.map_values(|x: i64| x as int);
                let after = visited_ids@.push(cur.id).map_values(|x: i64| x as int);
                assert(after =~= before.push(cur.id as int));
                assert forall|y: int| after.to_set().contains(y) implies before.to_set().insert(
                    cur.id as int,
                ).contains(y) by {
                    let k = choose|k: int| 0 <= k < after.len() && after[k] == y;
                    if k < before.len() {
                        assert(before[k] == y);
                    }
                }
                assert forall|y: int| before.to_set().insert(cur.id as int).contains(y) implies
                    after.to_set().contains(y) by {
                    if before.to_set().contains(y) {
                        let k = choose|k: int| 0 <= k < before.len() && before[k] == y;
                        assert(after[k] == y);
                    } else {
                        assert(after[after.len() - 1] == y);
                    }
                }
            }
        }
        visited_ids.push(cur.id);
        cur = next;
    }
}

// ---------------------------------------------------------------------------
// Laws of resolution
// ---------------------------------------------------------------------------

/// A chain of links of the store: every element stands in `links`, each
/// non-final element is an alias whose target looks up to the next element,
/// and ids are pairwise distinct.
pub open spec fn chain_from(links: Seq<Link>, ch: Seq<Link>) -> bool {
    &&& ch.len() >= 1
    &&& forall|i: int|
        0 <= i < ch.len() ==> exists|k: int|
            0 <= k < links.len() && #[trigger] links[k] == #[trigger] ch[i]
    &&& forall|i: int|
        0 <= i < ch.len() - 1 ==> (#[trigger] ch[i]).is_alias && spec_find(links, ch[i].target@)
            == Some(ch[i + 1])
    &&& forall|i: int, j: int| 0 <= i < j < ch.len() ==> ch[i].id != ch[j].id
}

/// Walking from the head of a chain whose last element is terminal ends in
/// `Found` of that last element.
proof fn lemma_walk_chain_found(links: Seq<Link>, ch: Seq<Link>, visited: Set<int>)
    requires
        chain_from(links, ch),
        !ch.last().is_alias,
        visited.finite(),
        forall|i: int| 0 <= i < ch.len() ==> !visited.contains((#[trigger] ch[i]).id as int),
    ensures
        spec_walk(links, ch[0], visited) == Resolution::Found(ch.last()),
    decreases ch.len(),
{
    assert(exists|k: int| 0 <= k < links.len() && #[trigger] links[k] == ch[0]);
    lemma_id_set_contains(links, ch[0]);
    lemma_id_set_finite(links);
    if ch.len() == 1 {
        assert(ch[0] == ch.last());
        assert(spec_walk(links, ch[0], visited) == Resolution::Found(ch[0]));
    } else {
        assert(ch[0].is_alias);
        assert(spec_find(links, ch[0].target@) == Some(ch[1]));
        assert(ch[0].id != ch[1].id);
        assert(!visited.contains(ch[1].id as int));
        assert(!visited.insert(ch[0].id as int).contains(ch[1].id as int));
        assert(exists|k: int| 0 <= k < links.len() && #[trigger] links[k] == ch[1]);
        lemma_id_set_contains(links, ch[1]);
        assert(spec_walk(links, ch[0], visited) == spec_walk(
            links,
            ch[1],
            visited.insert(ch[0].id as int),
        ));
        let tail = ch.drop_first();
        assert(forall|i: int| 0 <= i < tail.len() ==> #[trigger] tail[i] == ch[i + 1]);
        assert(tail.last() == ch.last());
        assert(chain_from(links, tail));
        lemma_walk_chain_found(links, tail, visited.insert(ch[0].id as int));
        assert(tail[0] == ch[1]);
    }
}

/// Walking from the head of a chain of aliases whose last target names no
/// source ends in `NotFound`.
proof fn lemma_walk_chain_dangling(links: Seq<Link>, ch: Seq<Link>, visited: Set<int>)
    requires
        chain_from(links, ch),
        forall|i: int| 0 <= i < ch.len() ==> (#[trigger] ch[i]).is_alias,
        spec_find(links, ch.last().target@) is None,
        visited.finite(),
        forall|i: int| 0 <= i < ch.len() ==> !visited.contains((#[trigger] ch[i]).id as int),
    ensures
        spec_walk(links, ch[0], visited) == Resolution::NotFound,
    decreases ch.len(),
{
    assert(exists|k: int| 0 <= k < links.len() && #[trigger] links[k] == ch[0]);
    lemma_id_set_contains(links, ch[0]);
    lemma_id_set_finite(links);
    if ch.len() == 1 {
        assert(ch[0] == ch.last());
        assert(ch[0].is_alias);
        assert(spec_walk(links, ch[0], visited) == Resolution::NotFound);
    } else {
        assert(spec_find(links, ch[0].target@) == Some(ch[1]));
        assert(ch[0].id != ch[1].id);
        assert(!visited.contains(ch[1].id as int));
        assert(!visited.insert(ch[0].id as int).contains(ch[1].id as int));
        assert(exists|k: int| 0 <= k < links.len() && #[trigger] links[k] == ch[1]);
        lemma_id_set_contains(links, ch[1]);
        assert(spec_walk(links, ch[0], visited) == spec_walk(
            links,
            ch[1],
            visited.insert(ch[0].id as int),
        ));
        let tail = ch.drop_first();
        assert(forall|i: int| 0 <= i < tail.len() ==> #[trigger] tail[i] == ch[i + 1]);
        assert(tail.last() == ch.last());
        assert(chain_from(links, tail));
        lemma_walk_chain_dangling(links, tail, visited.insert(ch[0].id as int));
        assert(tail[0] == ch[1]);
    }
}

/// Two distinct rows of a well-formed store have distinct ids.
proof fn lemma_distinct_rows(s: &LinkStore, a: Link, b: Link)
    requires
        s.wf(),
        exists|i: int| 0 <= i < s@.len() && #[trigger] s@[i] == a,
        exists|i: int| 0 <= i < s@.len() && #[trigger] s@[i] == b,
        a != b,
    ensures
        a.id != b.id,
        a.source@ != b.source@ || a == b,
{
    s.lemma_wf_properties();
    let i = choose|i: int| 0 <= i < s@.len() && #[trigger] s@[i] == a;
    let j = choose|j: int| 0 <= j < s@.len() && #[trigger] s@[j] == b;
    assert(i != j);
}

/// Resolving the source key of a terminal (non-alias) link of the store
/// yields that very link.
pub proof fn lemma_resolve_terminal(s: &LinkStore, l: Link)
    requires
        s.wf(),
        exists|i: int| 0 <= i < s@.len() && #[trigger] s@[i] == l,
        !l.is_alias,
    ensures
        spec_resolve(s@, l.source@) == Resolution::Found(l),
{
    s.lemma_wf_properties();
    crate::store::lemma_spec_find_unique(s@, l);
    let ch = seq![l];
    assert(ch[0] == l && ch.last() == l);
    lemma_walk_chain_found(s@, ch, Set::empty());
}

/// Resolving the head of a two-hop alias chain `a -> b -> c` with `c`
/// terminal yields `c`.
pub proof fn lemma_resolve_chain(s: &LinkStore, a: Link, b: Link, c: Link)
    requires
        s.wf(),
        exists|i: int| 0 <= i < s@.len() && #[trigger] s@[i] == a,
        exists|i: int| 0 <= i < s@.len() && #[trigger] s@[i] == b,
        exists|i: int| 0 <= i < s@.len() && #[trigger] s@[i] == c,
        a.is_alias && a.target@ == b.source@,
        b.is_alias && b.target@ == c.source@,
        !c.is_alias,
        a.source@ != b.source@,
    ensures
        spec_resolve(s@, a.source@) == Resolution::Found(c),
{
    s.lemma_wf_properties();
    crate::store::lemma_spec_find_unique(s@, a);
    crate::store::lemma_spec_find_unique(s@, b);
    crate::store::lemma_spec_find_unique(s@, c);
    lemma_distinct_rows(s, a, b);
    lemma_distinct_rows(s, a, c);
    lemma_distinct_rows(s, b, c);
    let ch = seq![a, b, c];
    assert(ch[0] == a && ch[1] == b && ch[2] == c && ch.last() == c);
    lemma_walk_chain_found(s@, ch, Set::empty());
}

/// If the final hop's target names no existing source, resolution reports
/// `NotFound`: stated for any alias chain of the store that ends dangling.
pub proof fn lemma_resolve_dangling(s: &LinkStore, ch: Seq<Link>)
    requires
        s.wf(),
        chain_from(s@, ch),
        forall|i: int| 0 <= i < ch.len() ==> (#[trigger] ch[i]).is_alias,
        spec_find(s@, ch.last().target@) is None,
    ensures
        spec_resolve(s@, ch[0].source@) == Resolution::NotFound,
{
    s.lemma_wf_properties();
    crate::store::lemma_spec_find_unique(s@, ch[0]);
    lemma_walk_chain_dangling(s@, ch, Set::empty());
}

/// Two aliases that point at each other resolve to `Cycle`.
pub proof fn lemma_resolve_two_cycle(s: &LinkStore, a: Link, b: Link)
    requires
        s.wf(),
        exists|i: int| 0 <= i < s@.len() && #[trigger] s@[i] == a,
        exists|i: int| 0 <= i < s@.len() && #[trigger] s@[i] == b,
        a.is_alias && a.target@ == b.source@,
        b.is_alias && b.target@ == a.source@,
        a.source@ != b.source@,
    ensures
        spec_resolve(s@, a.source@) == Resolution::Cycle,
{
    s.lemma_wf_properties();
    crate::store::lemma_spec_find_unique(s@, a);
    crate::store::lemma_spec_find_unique(s@, b);
    lemma_distinct_rows(s, a, b);
    lemma_id_set_finite(s@);
    lemma_id_set_contains(s@, a);
    lemma_id_set_contains(s@, b);
    let v0 = Set::<int>::empty();
    let v1 = v0.insert(a.id as int);
    assert(!v1.contains(b.id as int));
    assert(spec_walk(s@, a, v0) == spec_walk(s@, b, v1));
    assert(v1.insert(b.id as int).contains(a.id as int));
    assert(spec_walk(s@, b, v1) == Resolution::Cycle);
}

} // verus!
