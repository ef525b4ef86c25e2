//! Codec for the navigation-state query-string fragment.
//!
//! [`encode`] renders a `(paging, search, sort)` state as a minimal
//! `&key=value` fragment that omits every field equal to its canonical
//! default, so the default state encodes to the empty string.
//! [`decode`] is the inverse: it splits a fragment on `&`, splits each
//! segment at its first `=`, and folds the recognized pairs over the default
//! state. The round-trip law is proved in [`lemma_encode_decode`].

use vstd::prelude::*;
use vstd::string::StringExecFns;

use crate::schema::{
    paging_is_default, search_is_default, sort_is_default, PagingOptions, SearchMethod,
    SearchOptions, SortMethod, SortOptions, SortOrder,
};

verus! {

// ---------------------------------------------------------------------------
// Decimal numbers
// ---------------------------------------------------------------------------

/// The decimal digit character for `d`, expected in `0 ..= 9`.
pub open spec fn digit_char(d: int) -> char {
    if d == 0 {
        '0'
    } else if d == 1 {
        '1'
    } else if d == 2 {
        '2'
    } else if d == 3 {
        '3'
    } else if d == 4 {
        '4'
    } else if d == 5 {
        '5'
    } else if d == 6 {
        '6'
    } else if d == 7 {
        '7'
    } else if d == 8 {
        '8'
    } else {
        '9'
    }
}

/// Whether `c` is a decimal digit character.
pub open spec fn is_digit(c: char) -> bool {
    c == '0' || c == '1' || c == '2' || c == '3' || c == '4' || c == '5' || c == '6' || c == '7'
        || c == '8' || c == '9'
}

/// The numeric value of a decimal digit character, expected to satisfy
/// [`is_digit`].
pub open spec fn digit_val(c: char) -> int {
    if c == '0' {
        0
    } else if c == '1' {
        1
    } else if c == '2' {
        2
    } else if c == '3' {
        3
    } else if c == '4' {
        4
    } else if c == '5' {
        5
    } else if c == '6' {
        6
    } else if c == '7' {
        7
    } else if c == '8' {
        8
    } else {
        9
    }
}

/// The canonical decimal rendering of `n >= 0`: no sign, no leading zeros
/// (except for `0` itself, rendered as `"0"`).
pub open spec fn dec_digits(n: int) -> Seq<char>
    decreases n,
{
    if n < 10 {
        seq![digit_char(n)]
    } else {
        dec_digits(n / 10).push(digit_char(n % 10))
    }
}

/// Whether every character of `s` is a decimal digit.
pub open spec fn all_digits(s: Seq<char>) -> bool {
    forall|i: int| 0 <= i < s.len() ==> is_digit(#[trigger] s[i])
}

/// The number denoted by a sequence of decimal digit characters.
pub open spec fn dec_val(s: Seq<char>) -> int
    decreases s.len(),
{
    if s.len() == 0 {
        0
    } else {
        dec_val(s.drop_last()) * 10 + digit_val(s.last())
    }
}

/// A digit string never denotes a negative number.
pub proof fn lemma_dec_val_nonneg(s: Seq<char>)
    ensures
        dec_val(s) >= 0,
    decreases s.len(),
{
    if s.len() > 0 {
        lemma_dec_val_nonneg(s.drop_last());
    }
}

/// Reading back the canonical rendering of `n` yields `n`.
pub proof fn lemma_dec_digits_val(n: int)
    requires
        n >= 0,
    ensures
        dec_digits(n).len() >= 1,
        all_digits(dec_digits(n)),
        dec_val(dec_digits(n)) == n,
    decreases n,
{
    if n < 10 {
        let s = dec_digits(n);
        assert(s =~= seq![digit_char(n)]);
        assert(s.drop_last() =~= Seq::<char>::empty());
        assert(dec_val(s) == dec_val(s.drop_last()) * 10 + digit_val(s.last()));
    } else {
        lemma_dec_digits_val(n / 10);
        let s = dec_digits(n);
        let head = dec_digits(n / 10);
        assert(s == head.push(digit_char(n % 10)));
        assert(s.drop_last() =~= head);
        assert(s.last() == digit_char(n % 10));
        assert(dec_val(s) == (n / 10) * 10 + n % 10);
        assert((n / 10) * 10 + n % 10 == n) by (nonlinear_arith);
        assert forall|i: int| 0 <= i < s.len() implies is_digit(s[i]) by {
            if i < head.len() {
                assert(s[i] == head[i]);
            }
        }
    }
}

/// Appending digit characters never decreases the denoted value.
pub proof fn lemma_dec_val_prefix_le(s: Seq<char>, i: int)
    requires
        0 <= i <= s.len(),
    ensures
        dec_val(s.subrange(0, i)) <= dec_val(s),
    decreases s.len() - i,
{
    if i < s.len() {
        let t = s.subrange(0, i + 1);
        assert(t.drop_last() =~= s.subrange(0, i));
        lemma_dec_val_nonneg(t.drop_last());
        assert(dec_val(t) == dec_val(t.drop_last()) * 10 + digit_val(t.last()));
        assert(dec_val(t.drop_last()) * 10 >= dec_val(t.drop_last())) by (nonlinear_arith)
            requires
                dec_val(t.drop_last()) >= 0,
        ;
        lemma_dec_val_prefix_le(s, i + 1);
        assert(s.subrange(0, s.len() as int) =~= s);
    } else {
        assert(s.subrange(0, i) =~= s);
    }
}

/// The digit character for `d`, as a one-character string slice.
fn digit_str(d: u64) -> (r: &'static str)
    requires
        d < 10,
    ensures
        r@ =~= seq![digit_char(d as int)],
{
    proof {
        reveal_strlit("0");
        reveal_strlit("1");
        reveal_strlit("2");
        reveal_strlit("3");
        reveal_strlit("4");
        reveal_strlit("5");
        reveal_strlit("6");
        reveal_strlit("7");
        reveal_strlit("8");
        reveal_strlit("9");
    }
    if d == 0 {
        "0"
    } else if d == 1 {
        "1"
    } else if d == 2 {
        "2"
    } else if d == 3 {
        "3"
    } else if d == 4 {
        "4"
    } else if d == 5 {
        "5"
    } else if d == 6 {
        "6"
    } else if d == 7 {
        "7"
    } else if d == 8 {
        "8"
    } else {
        "9"
    }
}

/// Renders `n` in canonical decimal notation.
pub fn render_u64(n: u64) -> (r: String)
    ensures
        r@ == dec_digits(n as int),
    decreases n,
{
    if n < 10 {
        let mut s = String::new();
        s.append(digit_str(n));
        proof {
            assert(s@ =~= seq![digit_char(n as int)]);
        }
        s
    } else {
        let mut s = render_u64(n / 10);
        s.append(digit_str(n % 10));
        proof {
            assert(s@ =~= dec_digits((n / 10) as int).push(digit_char((n % 10) as int)));
        }
        s
    }
}

/// The exec counterpart of [`is_digit`] / [`digit_val`]: classifies `c` and
/// returns its value when it is a digit.
fn digit_of(c: char) -> (r: Option<u64>)
    ensures
        match r {
            Some(v) => is_digit(c) && v == digit_val(c) && v < 10,
            None => !is_digit(c),
        },
{
    if c == '0' {
        Some(0)
    } else if c == '1' {
        Some(1)
    } else if c == '2' {
        Some(2)
    } else if c == '3' {
        Some(3)
    } else if c == '4' {
        Some(4)
    } else if c == '5' {
        Some(5)
    } else if c == '6' {
        Some(6)
    } else if c == '7' {
        Some(7)
    } else if c == '8' {
        Some(8)
    } else if c == '9' {
        Some(9)
    } else {
        None
    }
}

/// Parses `s[from .. to]` as an unsigned decimal number.
///
/// Returns `Some` exactly when the range is non-empty, holds only digit
/// characters, and denotes a value that fits in a `u64`.
pub fn parse_u64(s: &str, from: usize, to: usize) -> (r: Option<u64>)
    requires
        from <= to <= s@.len(),
    ensures
        ({
            let part = s@.subrange(from as int, to as int);
            match r {
                Some(v) => part.len() > 0 && all_digits(part) && dec_val(part) == v,
                None => !(part.len() > 0 && all_digits(part) && dec_val(part) <= u64::MAX),
            }
        }),
{
    let ghost part = s@.subrange(from as int, to as int);
    if from == to {
        return None;
    }
    let mut acc: u64 = 0;
    let mut i: usize = from;
    while i < to
        invariant
            from <= i <= to <= s@.len(),
            part == s@.subrange(from as int, to as int),
            all_digits(part.subrange(0, i - from)),
            acc == dec_val(part.subrange(0, i - from)),
        decreases to - i,
    {
        let ghost done = part.subrange(0, i - from);
        let c = s.get_char(i);
        proof {
            assert(part[i - from] == c);
        }
        match digit_of(c) {
            None => {
                proof {
                    assert(!all_digits(part));
                }
                return None;
            },
            Some(d) => {
                proof {
                    assert(part.subrange(0, i + 1 - from).drop_last() =~= done);
                    assert(part.subrange(0, i + 1 - from).last() == c);
                }
                if acc > (u64::MAX - d) / 10 {
                    proof {
                        assert(dec_val(part.subrange(0, i + 1 - from)) > u64::MAX) by (
                        nonlinear_arith)
                            requires
                                dec_val(part.subrange(0, i + 1 - from)) == acc * 10 + d,
                                acc > (u64::MAX - d) / 10,
                                d < 10,
                        ;
                        lemma_dec_val_prefix_le(part, i + 1 - from);
                        lemma_dec_val_nonneg(part.subrange(0, i + 1 - from));
                    }
                    return None;
                }
                proof {
                    assert(acc * 10 + d <= u64::MAX) by (nonlinear_arith)
                        requires
                            acc <= (u64::MAX - d) / 10,
                            d < 10,
                    ;
                }
                acc = acc * 10 + d;
                i = i + 1;
            },
        }
    }
    proof {
        assert(part.subrange(0, to - from) =~= part);
    }
    Some(acc)
}

// ---------------------------------------------------------------------------
// Field names and the encoded fragment
// ---------------------------------------------------------------------------

/// The wire name of a search strategy.
pub open spec fn method_name(m: SearchMethod) -> Seq<char> {
    match m {
        SearchMethod::Semantic => "Semantic"@,
        SearchMethod::DamerauLevenshtein => "DamerauLevenshtein"@,
    }
}

/// The wire name of a sort key.
pub open spec fn sort_name(m: SortMethod) -> Seq<char> {
    match m {
        SortMethod::Relevance => "Relevance"@,
        SortMethod::Alphabetical => "Alphabetical"@,
        SortMethod::Created => "Created"@,
        SortMethod::Updated => "Updated"@,
    }
}

/// The wire name of a sort direction.
pub open spec fn order_name(o: SortOrder) -> Seq<char> {
    match o {
        SortOrder::Descending => "Descending"@,
        SortOrder::Ascending => "Ascending"@,
    }
}

/// The search fragment: empty for the default state, else both fields.
pub open spec fn enc_search(query: Seq<char>, method: SearchMethod) -> Seq<char> {
    if search_is_default(query, method) {
        Seq::empty()
    } else {
        "&query="@ + query + "&method="@ + method_name(method)
    }
}

/// The sort fragment: empty for the default state, else both fields.
pub open spec fn enc_sort(s: SortOptions) -> Seq<char> {
    if sort_is_default(s) {
        Seq::empty()
    } else {
        "&sort_by="@ + sort_name(s.sort_by) + "&order="@ + order_name(s.order)
    }
}

/// The paging fragment: empty for the default state, else both fields.
pub open spec fn enc_paging(p: PagingOptions) -> Seq<char> {
    if paging_is_default(p) {
        Seq::empty()
    } else {
        "&page="@ + dec_digits(p.page as int) + "&limit="@ + dec_digits(p.limit as int)
    }
}

/// The full navigation-state fragment: search, then sort, then paging.
pub open spec fn enc_state(
    p: PagingOptions,
    query: Seq<char>,
    method: SearchMethod,
    s: SortOptions,
) -> Seq<char> {
    enc_search(query, method) + enc_sort(s) + enc_paging(p)
}

// ---------------------------------------------------------------------------
// Decoding
// ---------------------------------------------------------------------------

/// The first index `>= i` at which `target` occurs in `s`, or `s.len()`.
pub open spec fn scan_for(s: Seq<char>, i: int, target: char) -> int
    decreases s.len() - i,
{
    if i >= s.len() {
        s.len() as int
    } else if s[i] == target {
        i
    } else {
        scan_for(s, i + 1, target)
    }
}

/// Bounds and characterization of [`scan_for`].
pub proof fn lemma_scan_for(s: Seq<char>, i: int, target: char)
    requires
        0 <= i <= s.len(),
    ensures
        i <= scan_for(s, i, target) <= s.len(),
        scan_for(s, i, target) < s.len() ==> s[scan_for(s, i, target)] == target,
        forall|k: int| i <= k < scan_for(s, i, target) ==> s[k] != target,
    decreases s.len() - i,
{
    if i < s.len() && s[i] != target {
        lemma_scan_for(s, i + 1, target);
    }
}

/// If nothing in `s[i .. j)` is `target` and `j` is either the end or a
/// `target` position, the scan from `i` stops exactly at `j`.
pub proof fn lemma_scan_stops_at(s: Seq<char>, i: int, j: int, target: char)
    requires
        0 <= i <= j <= s.len(),
        forall|k: int| i <= k < j ==> s[k] != target,
        j == s.len() || s[j] == target,
    ensures
        scan_for(s, i, target) == j,
    decreases j - i,
{
    if i < j {
        lemma_scan_stops_at(s, i + 1, j, target);
    }
}

/// The bodies of the `&`-introduced segments of `s`.
///
/// The first character of a non-empty fragment is treated as a separator
/// (well-formed fragments start with `&`); each segment body runs to the
/// next `&` or to the end.
pub open spec fn split_frag(s: Seq<char>) -> Seq<Seq<char>>
    decreases s.len(),
{
    if s.len() == 0 {
        Seq::empty()
    } else {
        let j = scan_for(s, 1, '&');
        proof {
            lemma_scan_for(s, 1, '&');
        }
        seq![s.subrange(1, j)] + split_frag(s.subrange(j, s.len() as int))
    }
}

/// The navigation state as one record: the three option types flattened into
/// their fields, with string state as a character sequence.
#[verifier::ext_equal]
pub ghost struct NavState {
    pub page: u64,
    pub limit: u64,
    pub query: Seq<char>,
    pub method: SearchMethod,
    pub sort_by: SortMethod,
    pub order: SortOrder,
}

/// The canonical default navigation state.
pub open spec fn default_state() -> NavState {
    NavState {
        page: 1u64,
        limit: 10u64,
        query: Seq::empty(),
        method: SearchMethod::Semantic,
        sort_by: SortMethod::Relevance,
        order: SortOrder::Descending,
    }
}

/// Applies one recognized `key=value` pair to the state.
///
/// Unrecognized keys, malformed numbers and unknown enum names leave the
/// state unchanged.
pub open spec fn apply_pair(st: NavState, key: Seq<char>, val: Seq<char>) -> NavState {
    if key == "page"@ {
        if val.len() > 0 && all_digits(val) && dec_val(val) <= u64::MAX {
            NavState { page: dec_val(val) as u64, ..st }
        } else {
            st
        }
    } else if key == "limit"@ {
        if val.len() > 0 && all_digits(val) && dec_val(val) <= u64::MAX {
            NavState { limit: dec_val(val) as u64, ..st }
        } else {
            st
        }
    } else if key == "query"@ {
        NavState { query: val, ..st }
    } else if key == "method"@ {
        if val == "Semantic"@ {
            NavState { method: SearchMethod::Semantic, ..st }
        } else if val == "DamerauLevenshtein"@ {
            NavState { method: SearchMethod::DamerauLevenshtein, ..st }
        } else {
            st
        }
    } else if key == "sort_by"@ {
        if val == "Relevance"@ {
            NavState { sort_by: SortMethod::Relevance, ..st }
        } else if val == "Alphabetical"@ {
            NavState { sort_by: SortMethod::Alphabetical, ..st }
        } else if val == "Created"@ {
            NavState { sort_by: SortMethod::Created, ..st }
        } else if val == "Updated"@ {
            NavState { sort_by: SortMethod::Updated, ..st }
        } else {
            st
        }
    } else if key == "order"@ {
        if val == "Descending"@ {
            NavState { order: SortOrder::Descending, ..st }
        } else if val == "Ascending"@ {
            NavState { order: SortOrder::Ascending, ..st }
        } else {
            st
        }
    } else {
        st
    }
}

/// Applies one segment: the part before the first `=` is the key, the part
/// after it the value. A segment without `=` is ignored.
pub open spec fn apply_seg(st: NavState, seg: Seq<char>) -> NavState {
    let e = scan_for(seg, 0, '=');
    if e == seg.len() {
        st
    } else {
        apply_pair(st, seg.subrange(0, e), seg.subrange(e + 1, seg.len() as int))
    }
}

/// Folds segments over a state, first segment first.
pub open spec fn fold_decode(segs: Seq<Seq<char>>, st: NavState) -> NavState
    decreases segs.len(),
{
    if segs.len() == 0 {
        st
    } else {
        fold_decode(segs.drop_first(), apply_seg(st, segs[0]))
    }
}

/// The state denoted by a fragment: its segments folded over the default
/// state.
pub open spec fn spec_decode(s: Seq<char>) -> NavState {
    fold_decode(split_frag(s), default_state())
}

/// A navigation state assembled from the three option types.
pub open spec fn nav_of(
    p: PagingOptions,
    query: Seq<char>,
    method: SearchMethod,
    s: SortOptions,
) -> NavState {
    NavState {
        page: p.page,
        limit: p.limit,
        query: query,
        method: method,
        sort_by: s.sort_by,
        order: s.order,
    }
}

// ---------------------------------------------------------------------------
// Exec rendering helpers
// ---------------------------------------------------------------------------

/// The wire name of a search strategy, as a string slice.
pub fn method_name_str(m: SearchMethod) -> (r: &'static str)
    ensures
        r@ == method_name(m),
{
    match m {
        SearchMethod::Semantic => "Semantic",
        SearchMethod::DamerauLevenshtein => "DamerauLevenshtein",
    }
}

/// The wire name of a sort key, as a string slice.
pub fn sort_name_str(m: SortMethod) -> (r: &'static str)
    ensures
        r@ == sort_name(m),
{
    match m {
        SortMethod::Relevance => "Relevance",
        SortMethod::Alphabetical => "Alphabetical",
        SortMethod::Created => "Created",
        SortMethod::Updated => "Updated",
    }
}

/// The wire name of a sort direction, as a string slice.
pub fn order_name_str(o: SortOrder) -> (r: &'static str)
    ensures
        r@ == order_name(o),
{
    match o {
        SortOrder::Descending => "Descending",
        SortOrder::Ascending => "Ascending",
    }
}

/// Renders the full navigation state: the three fragments concatenated, so
/// the default state yields the empty string.
pub fn encode(paging: &PagingOptions, search: &SearchOptions, sort: &SortOptions) -> (r: String)
    ensures
        r@ == enc_state(*paging, search.query@, search.method, *sort),
{
    let mut s = search.as_query();
    let sort_part = sort.as_query();
    let paging_part = paging.as_query();
    s.append(sort_part.as_str());
    s.append(paging_part.as_str());
    s
}

// ---------------------------------------------------------------------------
// Exec decoding
// ---------------------------------------------------------------------------

/// The first position `>= from` at which `target` occurs, or the length.
fn find_char(s: &str, from: usize, target: char) -> (r: usize)
    requires
        from <= s@.len(),
    ensures
        r == scan_for(s@, from as int, target),
        from <= r <= s@.len(),
{
    proof {
        lemma_scan_for(s@, from as int, target);
    }
    let n = s.unicode_len();
    let mut i: usize = from;
    while i < n
        invariant
            from <= i <= n,
            n == s@.len(),
            scan_for(s@, from as int, target) == scan_for(s@, i as int, target),
        decreases n - i,
    {
        if s.get_char(i) == target {
            return i;
        }
        i = i + 1;
    }
    n
}

/// Whether two string slices read as the same character sequence.
pub fn str_eq(a: &str, b: &str) -> (r: bool)
    ensures
        r == (a@ == b@),
{
    let n = a.unicode_len();
    if b.unicode_len() != n {
        proof {
            assert(a@.len() != b@.len());
        }
        return false;
    }
    let mut k: usize = 0;
    while k < n
        invariant
            k <= n,
            n == a@.len(),
            n == b@.len(),
            forall|m: int| 0 <= m < k ==> a@[m] == b@[m],
        decreases n - k,
    {
        if a.get_char(k) != b.get_char(k) {
            return false;
        }
        k = k + 1;
    }
    proof {
        assert(a@ =~= b@);
    }
    true
}

/// Whether `s[from .. to]` equals the view of `lit`.
fn range_eq_lit(s: &str, from: usize, to: usize, lit: &str) -> (r: bool)
    requires
        from <= to <= s@.len(),
    ensures
        r == (s@.subrange(from as int, to as int) == lit@),
{
    let ghost part = s@.subrange(from as int, to as int);
    let n = lit.unicode_len();
    if to - from != n {
        proof {
            assert(part.len() != lit@.len());
        }
        return false;
    }
    let mut k: usize = 0;
    while k < n
        invariant
            k <= n,
            n == lit@.len(),
            to - from == n,
            from + n <= s@.len(),
            part == s@.subrange(from as int, to as int),
            forall|m: int| 0 <= m < k ==> part[m] == lit@[m],
        decreases n - k,
    {
        let a = s.get_char(from + k);
        let b = lit.get_char(k);
        proof {
            assert(part[k as int] == a);
        }
        if a != b {
            proof {
                assert(part[k as int] != lit@[k as int]);
            }
            return false;
        }
        k = k + 1;
    }
    proof {
        assert(part =~= lit@);
    }
    true
}

/// Applies one `key=value` pair, given as ranges into `s`, to the state held
/// in the three option values.
fn apply_pair_exec(
    p: &mut PagingOptions,
    se: &mut SearchOptions,
    so: &mut SortOptions,
    s: &str,
    ks: usize,
    ke: usize,
    vs: usize,
    ve: usize,
)
    requires
        ks <= ke <= s@.len(),
        vs <= ve <= s@.len(),
    ensures
        ({
            let key = s@.subrange(ks as int, ke as int);
            let val = s@.subrange(vs as int, ve as int);
            nav_of(*final(p), final(se).query@, final(se).method, *final(so)) == apply_pair(
                nav_of(*old(p), old(se).query@, old(se).method, *old(so)),
                key,
                val,
            )
        }),
{
    if range_eq_lit(s, ks, ke, "page") {
        match parse_u64(s, vs, ve) {
            Some(v) => {
                p.page = v;
            },
            None => {},
        }
    } else if range_eq_lit(s, ks, ke, "limit") {
        match parse_u64(s, vs, ve) {
            Some(v) => {
                p.limit = v;
            },
            None => {},
        }
    } else if range_eq_lit(s, ks, ke, "query") {
        se.query = s.substring_char(vs, ve).to_owned();
    } else if range_eq_lit(s, ks, ke, "method") {
        if range_eq_lit(s, vs, ve, "Semantic") {
            se.method = SearchMethod::Semantic;
        } else if range_eq_lit(s, vs, ve, "DamerauLevenshtein") {
            se.method = SearchMethod::DamerauLevenshtein;
        }
    } else if range_eq_lit(s, ks, ke, "sort_by") {
        if range_eq_lit(s, vs, ve, "Relevance") {
            so.sort_by = SortMethod::Relevance;
        } else if range_eq_lit(s, vs, ve, "Alphabetical") {
            so.sort_by = SortMethod::Alphabetical;
        } else if range_eq_lit(s, vs, ve, "Created") {
            so.sort_by = SortMethod::Created;
        } else if range_eq_lit(s, vs, ve, "Updated") {
            so.sort_by = SortMethod::Updated;
        }
    } else if range_eq_lit(s, ks, ke, "order") {
        if range_eq_lit(s, vs, ve, "Descending") {
            so.order = SortOrder::Descending;
        } else if range_eq_lit(s, vs, ve, "Ascending") {
            so.order = SortOrder::Ascending;
        }
    }
}

/// Restricting the scan to a suffix shifts its result.
proof fn lemma_scan_in_suffix(s: Seq<char>, i: int, from: int, target: char)
    requires
        0 <= i <= from <= s.len(),
    ensures
        scan_for(s.subrange(i, s.len() as int), from - i, target) == scan_for(s, from, target) - i,
{
    let t = s.subrange(i, s.len() as int);
    let j = scan_for(s, from, target);
    lemma_scan_for(s, from, target);
    assert(forall|k: int| from - i <= k < j - i ==> t[k] != target);
    lemma_scan_stops_at(t, from - i, j - i, target);
}

/// Decodes a navigation-state fragment.
///
/// The fragment is split on `&` (its first character is treated as a
/// separator), each segment is split at its first `=`, and the recognized
/// pairs are applied over the default state. Unrecognized keys, malformed
/// numbers, unknown enum names and segments without `=` are ignored.
pub fn decode(s: &str) -> (r: (PagingOptions, SearchOptions, SortOptions))
    ensures
        nav_of(r.0, r.1.query@, r.1.method, r.2) == spec_decode(s@),
{
    let n = s.unicode_len();
    let mut p = PagingOptions::default();
    let mut se = SearchOptions::default();
    let mut so = SortOptions::default();
    proof {
        assert(se.query@ =~= Seq::<char>::empty());
        assert(nav_of(p, se.query@, se.method, so) =~= default_state());
        assert(s@.subrange(0, s@.len() as int) =~= s@);
    }
    let mut i: usize = 0;
    while i < n
        invariant
            i <= n,
            n == s@.len(),
            fold_decode(
                split_frag(s@.subrange(i as int, n as int)),
                nav_of(p, se.query@, se.method, so),
            ) == spec_decode(s@),
        decreases n - i,
    {
        let ghost suffix = s@.subrange(i as int, n as int);
        let j = find_char(s, i + 1, '&');
        proof {
            lemma_scan_in_suffix(s@, i as int, i + 1, '&');
            assert(scan_for(suffix, 1, '&') == j - i);
            assert(suffix.subrange(1, j - i) =~= s@.subrange(i + 1, j as int));
            assert(suffix.subrange(j - i, suffix.len() as int) =~= s@.subrange(
                j as int,
                n as int,
            ));
            assert(split_frag(suffix) == seq![s@.subrange(i + 1, j as int)] + split_frag(
                s@.subrange(j as int, n as int),
            ));
        }
        let ghost seg = s@.subrange(i + 1, j as int);
        let e = find_char(s, i + 1, '=');
        proof {
            lemma_scan_for(s@, i + 1, '=');
            if e < j {
                lemma_scan_stops_at(seg, 0, e - (i + 1), '=');
            } else {
                lemma_scan_for(s@, i + 1, '&');
                lemma_scan_stops_at(seg, 0, seg.len() as int, '=');
            }
        }
        let ghost st0 = nav_of(p, se.query@, se.method, so);
        if e < j {
            apply_pair_exec(&mut p, &mut se, &mut so, s, i + 1, e, e + 1, j);
            proof {
                assert(seg.subrange(0, e - (i + 1)) =~= s@.subrange(i + 1, e as int));
                assert(seg.subrange(e - (i + 1) + 1, seg.len() as int) =~= s@.subrange(
                    e + 1,
                    j as int,
                ));
                assert(nav_of(p, se.query@, se.method, so) == apply_seg(st0, seg));
            }
        } else {
            proof {
                assert(apply_seg(st0, seg) == st0);
            }
        }
        proof {
            let segs = split_frag(suffix);
            assert(segs.drop_first() =~= split_frag(s@.subrange(j as int, n as int)));
            assert(segs[0] == seg);
            assert(fold_decode(segs, st0) == fold_decode(
                split_frag(s@.subrange(j as int, n as int)),
                apply_seg(st0, seg),
            ));
        }
        i = j;
    }
    proof {
        assert(s@.subrange(n as int, n as int) =~= Seq::<char>::empty());
        assert(split_frag(Seq::<char>::empty()).len() == 0);
    }
    (p, se, so)
}

// ---------------------------------------------------------------------------
// The round-trip law
// ---------------------------------------------------------------------------

/// The segment bodies contributed by the search fragment.
pub open spec fn segs_search(query: Seq<char>, method: SearchMethod) -> Seq<Seq<char>> {
    if search_is_default(query, method) {
        Seq::empty()
    } else {
        seq!["query="@ + query, "method="@ + method_name(method)]
    }
}

/// The segment bodies contributed by the sort fragment.
pub open spec fn segs_sort(s: SortOptions) -> Seq<Seq<char>> {
    if sort_is_default(s) {
        Seq::empty()
    } else {
        seq!["sort_by="@ + sort_name(s.sort_by), "order="@ + order_name(s.order)]
    }
}

/// The segment bodies contributed by the paging fragment.
pub open spec fn segs_paging(p: PagingOptions) -> Seq<Seq<char>> {
    if paging_is_default(p) {
        Seq::empty()
    } else {
        seq!["page="@ + dec_digits(p.page as int), "limit="@ + dec_digits(p.limit as int)]
    }
}

/// Splitting a fragment that starts with one `&`-block peels off its body.
proof fn lemma_split_block(body: Seq<char>, rest: Seq<char>)
    requires
        forall|k: int| 0 <= k < body.len() ==> body[k] != '&',
        rest.len() == 0 || rest[0] == '&',
    ensures
        split_frag(seq!['&'] + body + rest) == seq![body] + split_frag(rest),
{
    let s = seq!['&'] + body + rest;
    assert forall|k: int| 1 <= k < 1 + body.len() implies s[k] != '&' by {
        assert(s[k] == body[k - 1]);
    }
    lemma_scan_stops_at(s, 1, 1 + body.len() as int, '&');
    assert(s.subrange(1, 1 + body.len() as int) =~= body);
    assert(s.subrange(1 + body.len() as int, s.len() as int) =~= rest);
}

/// Splitting a fragment made of two `&`-blocks followed by a rest.
proof fn lemma_split_two_blocks(b1: Seq<char>, b2: Seq<char>, rest: Seq<char>)
    requires
        forall|k: int| 0 <= k < b1.len() ==> b1[k] != '&',
        forall|k: int| 0 <= k < b2.len() ==> b2[k] != '&',
        rest.len() == 0 || rest[0] == '&',
    ensures
        split_frag(seq!['&'] + b1 + (seq!['&'] + b2 + rest)) == seq![b1, b2] + split_frag(rest),
{
    let inner = seq!['&'] + b2 + rest;
    lemma_split_block(b2, rest);
    lemma_split_block(b1, inner);
    assert(seq![b1] + (seq![b2] + split_frag(rest)) =~= seq![b1, b2] + split_frag(rest));
}

/// Folding segments distributes over concatenation.
proof fn lemma_fold_decode_append(xs: Seq<Seq<char>>, ys: Seq<Seq<char>>, st: NavState)
    ensures
        fold_decode(xs + ys, st) == fold_decode(ys, fold_decode(xs, st)),
    decreases xs.len(),
{
    if xs.len() == 0 {
        assert(xs + ys =~= ys);
    } else {
        assert((xs + ys).drop_first() =~= xs.drop_first() + ys);
        assert((xs + ys)[0] == xs[0]);
        lemma_fold_decode_append(xs.drop_first(), ys, apply_seg(st, xs[0]));
    }
}

/// Reveals every string literal of the fragment grammar.
proof fn reveal_grammar()
    ensures
        "&query="@ =~= seq!['&'] + "query="@,
        "&method="@ =~= seq!['&'] + "method="@,
        "&sort_by="@ =~= seq!['&'] + "sort_by="@,
        "&order="@ =~= seq!['&'] + "order="@,
        "&page="@ =~= seq!['&'] + "page="@,
        "&limit="@ =~= seq!['&'] + "limit="@,
        "query="@ =~= "query"@ + seq!['='],
        "method="@ =~= "method"@ + seq!['='],
        "sort_by="@ =~= "sort_by"@ + seq!['='],
        "order="@ =~= "order"@ + seq!['='],
        "page="@ =~= "page"@ + seq!['='],
        "limit="@ =~= "limit"@ + seq!['='],
        forall|k: int| 0 <= k < "query"@.len() ==> "query"@[k] != '&' && "query"@[k] != '=',
        forall|k: int| 0 <= k < "method"@.len() ==> "method"@[k] != '&' && "method"@[k] != '=',
        forall|k: int| 0 <= k < "sort_by"@.len() ==> "sort_by"@[k] != '&' && "sort_by"@[k] != '=',
        forall|k: int| 0 <= k < "order"@.len() ==> "order"@[k] != '&' && "order"@[k] != '=',
        forall|k: int| 0 <= k < "page"@.len() ==> "page"@[k] != '&' && "page"@[k] != '=',
        forall|k: int| 0 <= k < "limit"@.len() ==> "limit"@[k] != '&' && "limit"@[k] != '=',
        forall|k: int| 0 <= k < "Semantic"@.len() ==> "Semantic"@[k] != '&',
        forall|k: int|
            0 <= k < "DamerauLevenshtein"@.len() ==> "DamerauLevenshtein"@[k] != '&',
        forall|k: int| 0 <= k < "Relevance"@.len() ==> "Relevance"@[k] != '&',
        forall|k: int| 0 <= k < "Alphabetical"@.len() ==> "Alphabetical"@[k] != '&',
        forall|k: int| 0 <= k < "Created"@.len() ==> "Created"@[k] != '&',
        forall|k: int| 0 <= k < "Updated"@.len() ==> "Updated"@[k] != '&',
        forall|k: int| 0 <= k < "Descending"@.len() ==> "Descending"@[k] != '&',
        forall|k: int| 0 <= k < "Ascending"@.len() ==> "Ascending"@[k] != '&',
        "query"@.len() == 5 && "query"@[0] == 'q',
        "method"@.len() == 6,
        "sort_by"@.len() == 7,
        "order"@.len() == 5 && "order"@[0] == 'o',
        "page"@.len() == 4,
        "limit"@.len() == 5 && "limit"@[0] == 'l',
        "Semantic"@.len() == 8,
        "DamerauLevenshtein"@.len() == 18,
        "Relevance"@.len() == 9 && "Relevance"@[0] == 'R',
        "Alphabetical"@.len() == 12,
        "Created"@.len() == 7 && "Created"@[0] == 'C',
        "Updated"@.len() == 7 && "Updated"@[0] == 'U',
        "Descending"@.len() == 10 && "Descending"@[0] == 'D',
        "Ascending"@.len() == 9 && "Ascending"@[0] == 'A',
{
    reveal_strlit("&query=");
    reveal_strlit("&method=");
    reveal_strlit("&sort_by=");
    reveal_strlit("&order=");
    reveal_strlit("&page=");
    reveal_strlit("&limit=");
    reveal_strlit("query=");
    reveal_strlit("method=");
    reveal_strlit("sort_by=");
    reveal_strlit("order=");
    reveal_strlit("page=");
    reveal_strlit("limit=");
    reveal_strlit("query");
    reveal_strlit("method");
    reveal_strlit("sort_by");
    reveal_strlit("order");
    reveal_strlit("page");
    reveal_strlit("limit");
    reveal_strlit("Semantic");
    reveal_strlit("DamerauLevenshtein");
    reveal_strlit("Relevance");
    reveal_strlit("Alphabetical");
    reveal_strlit("Created");
    reveal_strlit("Updated");
    reveal_strlit("Descending");
    reveal_strlit("Ascending");
}

/// No digit rendering contains a separator character.
proof fn lemma_digits_plain(n: int)
    requires
        n >= 0,
    ensures
        forall|k: int|
            0 <= k < dec_digits(n).len() ==> dec_digits(n)[k] != '&' && dec_digits(n)[k] != '=',
{
    lemma_dec_digits_val(n);
}

/// Splitting the search fragment followed by a rest.
proof fn lemma_split_search(query: Seq<char>, method: SearchMethod, rest: Seq<char>)
    requires
        forall|k: int| 0 <= k < query.len() ==> query[k] != '&',
        rest.len() == 0 || rest[0] == '&',
    ensures
        split_frag(enc_search(query, method) + rest) == segs_search(query, method) + split_frag(
            rest,
        ),
{
    reveal_grammar();
    if search_is_default(query, method) {
        assert(enc_search(query, method) + rest =~= rest);
        assert(segs_search(query, method) + split_frag(rest) =~= split_frag(rest));
    } else {
        let b1 = "query="@ + query;
        let b2 = "method="@ + method_name(method);
        assert(enc_search(query, method) + rest =~= seq!['&'] + b1 + (seq!['&'] + b2 + rest));
        lemma_split_two_blocks(b1, b2, rest);
        assert(segs_search(query, method) + split_frag(rest) =~= seq![b1, b2] + split_frag(rest));
    }
}

/// Splitting the sort fragment followed by a rest.
proof fn lemma_split_sort(s: SortOptions, rest: Seq<char>)
    requires
        rest.len() == 0 || rest[0] == '&',
    ensures
        split_frag(enc_sort(s) + rest) == segs_sort(s) + split_frag(rest),
{
    reveal_grammar();
    if sort_is_default(s) {
        assert(enc_sort(s) + rest =~= rest);
        assert(segs_sort(s) + split_frag(rest) =~= split_frag(rest));
    } else {
        let b1 = "sort_by="@ + sort_name(s.sort_by);
        let b2 = "order="@ + order_name(s.order);
        assert(enc_sort(s) + rest =~= seq!['&'] + b1 + (seq!['&'] + b2 + rest));
        lemma_split_two_blocks(b1, b2, rest);
        assert(segs_sort(s) + split_frag(rest) =~= seq![b1, b2] + split_frag(rest));
    }
}

/// Splitting the paging fragment.
proof fn lemma_split_paging(p: PagingOptions)
    ensures
        split_frag(enc_paging(p)) == segs_paging(p),
{
    reveal_grammar();
    if paging_is_default(p) {
        assert(enc_paging(p) =~= Seq::<char>::empty());
        assert(segs_paging(p) =~= split_frag(enc_paging(p)));
    } else {
        lemma_digits_plain(p.page as int);
        lemma_digits_plain(p.limit as int);
        let b1 = "page="@ + dec_digits(p.page as int);
        let b2 = "limit="@ + dec_digits(p.limit as int);
        assert(enc_paging(p) =~= seq!['&'] + b1 + (seq!['&'] + b2 + Seq::<char>::empty()));
        lemma_split_two_blocks(b1, b2, Seq::empty());
        assert(split_frag(Seq::<char>::empty()).len() == 0);
        assert(segs_paging(p) =~= seq![b1, b2] + split_frag(Seq::<char>::empty()));
        assert(split_frag(enc_paging(p)) == split_frag(
            seq!['&'] + b1 + (seq!['&'] + b2 + Seq::<char>::empty()),
        ));
    }
}

/// How one well-formed segment `key=value` acts on a state.
proof fn lemma_apply_keyed_seg(st: NavState, key: Seq<char>, val: Seq<char>)
    requires
        forall|k: int| 0 <= k < key.len() ==> key[k] != '=',
    ensures
        apply_seg(st, key + seq!['='] + val) == apply_pair(st, key, val),
{
    let seg = key + seq!['='] + val;
    assert forall|k: int| 0 <= k < key.len() implies seg[k] != '=' by {
        assert(seg[k] == key[k]);
    }
    assert(seg[key.len() as int] == '=');
    lemma_scan_stops_at(seg, 0, key.len() as int, '=');
    assert(seg.subrange(0, key.len() as int) =~= key);
    assert(seg.subrange(key.len() as int + 1, seg.len() as int) =~= val);
}

/// Folding the search segments sets the search fields.
proof fn lemma_fold_search(st: NavState, query: Seq<char>, method: SearchMethod)
    requires
        search_is_default(query, method) ==> st.query == query && st.method == method,
    ensures
        fold_decode(segs_search(query, method), st) == (NavState { query: query, method: method, ..st }),
{
    reveal_grammar();
    if search_is_default(query, method) {
        assert(NavState { query: query, method: method, ..st } =~= st);
    } else {
        let segs = segs_search(query, method);
        let seg1 = "query="@ + query;
        let seg2 = "method="@ + method_name(method);
        assert(seg1 =~= "query"@ + seq!['='] + query);
        lemma_apply_keyed_seg(st, "query"@, query);
        let st1 = apply_pair(st, "query"@, query);
        assert(st1 == NavState { query: query, ..st });
        assert(seg2 =~= "method"@ + seq!['='] + method_name(method));
        lemma_apply_keyed_seg(st1, "method"@, method_name(method));
        let st2 = apply_pair(st1, "method"@, method_name(method));
        assert(st2 == NavState { method: method, ..st1 });
        assert(segs.drop_first() =~= seq![seg2]);
        assert(segs[0] == seg1);
        assert(apply_seg(st, seg1) == st1);
        assert(fold_decode(segs, st) == fold_decode(seq![seg2], st1));
        assert(seq![seg2].drop_first() =~= Seq::<Seq<char>>::empty());
        assert(apply_seg(st1, seg2) == st2);
        assert(fold_decode(seq![seg2], st1) == fold_decode(Seq::<Seq<char>>::empty(), st2));
        assert(fold_decode(Seq::<Seq<char>>::empty(), st2) == st2);
        assert(st2 =~= NavState { query: query, method: method, ..st });
    }
}

/// Folding the sort segments sets the sort fields.
proof fn lemma_fold_sort(st: NavState, s: SortOptions)
    requires
        sort_is_default(s) ==> st.sort_by == s.sort_by && st.order == s.order,
    ensures
        fold_decode(segs_sort(s), st) == (NavState { sort_by: s.sort_by, order: s.order, ..st }),
{
    reveal_grammar();
    if sort_is_default(s) {
        assert(NavState { sort_by: s.sort_by, order: s.order, ..st } =~= st);
    } else {
        let segs = segs_sort(s);
        let seg1 = "sort_by="@ + sort_name(s.sort_by);
        let seg2 = "order="@ + order_name(s.order);
        assert(seg1 =~= "sort_by"@ + seq!['='] + sort_name(s.sort_by));
        lemma_apply_keyed_seg(st, "sort_by"@, sort_name(s.sort_by));
        let st1 = apply_pair(st, "sort_by"@, sort_name(s.sort_by));
        assert(st1 == NavState { sort_by: s.sort_by, ..st });
        assert(seg2 =~= "order"@ + seq!['='] + order_name(s.order));
        lemma_apply_keyed_seg(st1, "order"@, order_name(s.order));
        let st2 = apply_pair(st1, "order"@, order_name(s.order));
        assert(st2 == NavState { order: s.order, ..st1 });
        assert(segs.drop_first() =~= seq![seg2]);
        assert(segs[0] == seg1);
        assert(apply_seg(st, seg1) == st1);
        assert(fold_decode(segs, st) == fold_decode(seq![seg2], st1));
        assert(seq![seg2].drop_first() =~= Seq::<Seq<char>>::empty());
        assert(apply_seg(st1, seg2) == st2);
        assert(fold_decode(seq![seg2], st1) == fold_decode(Seq::<Seq<char>>::empty(), st2));
        assert(fold_decode(Seq::<Seq<char>>::empty(), st2) == st2);
        assert(st2 =~= NavState { sort_by: s.sort_by, order: s.order, ..st });
    }
}

/// Folding the paging segments sets the paging fields.
#[verifier::rlimit(40)]
proof fn lemma_fold_paging(st: NavState, p: PagingOptions)
    requires
        paging_is_default(p) ==> st.page == p.page && st.limit == p.limit,
    ensures
        fold_decode(segs_paging(p), st) == (NavState { page: p.page, limit: p.limit, ..st }),
{
    reveal_grammar();
    if paging_is_default(p) {
        assert(NavState { page: p.page, limit: p.limit, ..st } =~= st);
    } else {
        lemma_dec_digits_val(p.page as int);
        lemma_dec_digits_val(p.limit as int);
        lemma_digits_plain(p.page as int);
        lemma_digits_plain(p.limit as int);
        let segs = segs_paging(p);
        let seg1 = "page="@ + dec_digits(p.page as int);
        let seg2 = "limit="@ + dec_digits(p.limit as int);
        assert(seg1 =~= "page"@ + seq!['='] + dec_digits(p.page as int));
        lemma_apply_keyed_seg(st, "page"@, dec_digits(p.page as int));
        let st1 = apply_pair(st, "page"@, dec_digits(p.page as int));
        assert(st1 == NavState { page: p.page, ..st });
        assert(seg2 =~= "limit"@ + seq!['='] + dec_digits(p.limit as int));
        lemma_apply_keyed_seg(st1, "limit"@, dec_digits(p.limit as int));
        let st2 = apply_pair(st1, "limit"@, dec_digits(p.limit as int));
        assert(st2 == NavState { limit: p.limit, ..st1 });
        assert(segs.drop_first() =~= seq![seg2]);
        assert(segs[0] == seg1);
        assert(apply_seg(st, seg1) == st1);
        assert(fold_decode(segs, st) == fold_decode(seq![seg2], st1));
        assert(seq![seg2].drop_first() =~= Seq::<Seq<char>>::empty());
        assert(apply_seg(st1, seg2) == st2);
        assert(fold_decode(seq![seg2], st1) == fold_decode(Seq::<Seq<char>>::empty(), st2));
        assert(fold_decode(Seq::<Seq<char>>::empty(), st2) == st2);
        assert(st2 =~= NavState { page: p.page, limit: p.limit, ..st });
    }
}

/// The round-trip law: decoding an encoded navigation state yields the state
/// back, for every state whose query text contains no `&` separator.
pub proof fn lemma_encode_decode(
    p: PagingOptions,
    query: Seq<char>,
    method: SearchMethod,
    s: SortOptions,
)
    requires
        forall|k: int| 0 <= k < query.len() ==> query[k] != '&',
    ensures
        spec_decode(enc_state(p, query, method, s)) == nav_of(p, query, method, s),
{
    reveal_grammar();
    let frag = enc_state(p, query, method, s);
    let tail = enc_sort(s) + enc_paging(p);
    assert(frag =~= enc_search(query, method) + tail);
    assert(tail.len() == 0 || tail[0] == '&') by {
        if !sort_is_default(s) {
            assert(tail[0] == enc_sort(s)[0]);
        } else {
            assert(tail =~= enc_paging(p));
        }
    }
    assert(enc_paging(p).len() == 0 || enc_paging(p)[0] == '&');
    lemma_split_search(query, method, tail);
    lemma_split_sort(s, enc_paging(p));
    lemma_split_paging(p);
    assert(split_frag(frag) == segs_search(query, method) + (segs_sort(s) + segs_paging(p)));
    let d0 = default_state();
    lemma_fold_decode_append(segs_search(query, method), segs_sort(s) + segs_paging(p), d0);
    if search_is_default(query, method) {
        assert(query =~= Seq::<char>::empty());
    }
    lemma_fold_search(d0, query, method);
    let st1 = NavState { query: query, method: method, ..d0 };
    lemma_fold_decode_append(segs_sort(s), segs_paging(p), st1);
    lemma_fold_sort(st1, s);
    let st2 = NavState { sort_by: s.sort_by, order: s.order, ..st1 };
    lemma_fold_paging(st2, p);
    let st3 = NavState { page: p.page, limit: p.limit, ..st2 };
    assert(st3 =~= nav_of(p, query, method, s));
}

} // verus!
