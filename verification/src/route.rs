//! Resolution of stop identifiers and accumulation of route distances.
//!
//! A route is a fixed start identifier, a permutation of the intermediate
//! identifiers, and a fixed end identifier.  Every stop is resolved to its
//! position in the lookup table, and the legs between consecutive stops
//! are summed from a table of pairwise distances held in tenths of a mile.
//! Because every leg is a whole number of tenths, the running sum that is
//! rounded to one decimal place after each leg is represented exactly by
//! plain addition of tenths.

use vstd::multiset::Multiset;
use vstd::prelude::*;
use crate::RouteError;
use crate::permutate::{fact, ident_seq, lemma_fact_12, lemma_fact_mono, lemma_perm_index_bound,
    Permutations, MAX_INTERMEDIATE};
use crate::rows::{decimal_chars, tenths_chars, title, title_cell, vec_row};

verus! {

/// One entry of the lookup table: a stop identifier and its coordinates,
/// held in millionths of a degree.
pub struct Place {
    pub id: String,
    pub lat_micro: i64,
    pub lon_micro: i64,
}

/// The identifiers of a table, in table order.
pub open spec fn table_ids(table: Seq<Place>) -> Seq<Seq<char>> {
    table.map_values(|p: Place| p.id@)
}

/// The views of a sequence of strings.
pub open spec fn strs_view(s: Seq<String>) -> Seq<Seq<char>> {
    s.map_values(|x: String| x@)
}

/// The position of the first table entry whose identifier is `id`:
/// when identifiers repeat, the first match wins.
pub open spec fn resolve(table: Seq<Place>, id: Seq<char>) -> Option<int>
    decreases table.len(),
{
    if table.len() == 0 {
        None
    } else if table[0].id@ == id {
        Some(0)
    } else {
        match resolve(table.drop_first(), id) {
            Some(i) => Some(i + 1),
            None => None,
        }
    }
}

/// `resolve` returns the least matching position when one exists, and
/// `None` exactly when no entry matches.
pub proof fn lemma_resolve_spec(table: Seq<Place>, id: Seq<char>)
    ensures
        match resolve(table, id) {
            Some(i) => 0 <= i < table.len() && table[i].id@ == id && forall|j: int|
                0 <= j < i ==> table[j].id@ != id,
            None => forall|j: int| 0 <= j < table.len() ==> table[j].id@ != id,
        },
    decreases table.len(),
{
    if table.len() > 0 && table[0].id@ != id {
        let rest = table.drop_first();
        lemma_resolve_spec(rest, id);
        assert(forall|j: int| 0 <= j < rest.len() ==> rest[j] == table[j + 1]);
        match resolve(rest, id) {
            Some(i) => {
                assert(resolve(table, id) == Some(i + 1));
                assert(rest[i].id@ == id);
                assert forall|j: int| 0 <= j < i + 1 implies table[j].id@ != id by {
                    if j > 0 {
                        assert(rest[j - 1].id@ != id);
                    }
                }
            },
            None => {
                assert forall|j: int| 0 <= j < table.len() implies table[j].id@ != id by {
                    if j > 0 {
                        assert(rest[j - 1].id@ != id);
                    }
                }
            },
        }
    }
}

/// A position that matches, with no match before it, is the one
/// `resolve` returns.
pub proof fn lemma_resolve_found(table: Seq<Place>, id: Seq<char>, i: int)
    requires
        0 <= i < table.len(),
        table[i].id@ == id,
        forall|j: int| 0 <= j < i ==> table[j].id@ != id,
    ensures
        resolve(table, id) == Some(i),
    decreases table.len(),
{
    if i > 0 {
        assert(table[0].id@ != id);
        let rest = table.drop_first();
        assert(forall|j: int| 0 <= j < rest.len() ==> rest[j] == table[j + 1]);
        assert forall|j: int| 0 <= j < i - 1 implies rest[j].id@ != id by {
            assert(table[j + 1].id@ != id);
        }
        lemma_resolve_found(rest, id, i - 1);
    }
}

/// The first table entry with the given identifier, scanning from the
/// front: the first match wins when identifiers repeat.
pub fn lookup(table: &Vec<Place>, id: &String) -> (r: Option<usize>)
    ensures
        match r {
            Some(i) => resolve(table@, id@) == Some(i as int),
            None => resolve(table@, id@) is None,
        },
{
    proof {
        lemma_resolve_spec(table@, id@);
    }
    let mut i: usize = 0;
    while i < table.len()
        invariant
            i <= table@.len(),
            forall|j: int| 0 <= j < i ==> table@[j].id@ != id@,
        decreases table@.len() - i,
    {
        if table[i].id == *id {
            proof {
                lemma_resolve_found(table@, id@, i as int);
            }
            return Some(i);
        }
        i = i + 1;
    }
    None
}

/// The stops of a route: the start identifier, then the permuted
/// intermediate identifiers, then the end identifier.
pub open spec fn route_of(perm: Seq<Seq<char>>, start: Seq<char>, end: Seq<char>) -> Seq<Seq<char>> {
    seq![start] + perm + seq![end]
}

/// Builds the stop list of a route from a permutation of the
/// intermediate identifiers.
pub fn build_route(perm: &Vec<String>, start_id: &String, end_id: &String) -> (route: Vec<String>)
    ensures
        route@.len() == perm@.len() + 2,
        strs_view(route@) == route_of(strs_view(perm@), start_id@, end_id@),
{
    let mut route: Vec<String> = Vec::new();
    route.push(start_id.clone());
    let mut i: usize = 0;
    while i < perm.len()
        invariant
            i <= perm@.len(),
            route@.len() == i + 1,
            route@[0]@ == start_id@,
            forall|j: int| 1 <= j <= i ==> (#[trigger] route@[j])@ == perm@[j - 1]@,
        decreases perm@.len() - i,
    {
        route.push(perm[i].clone());
        i = i + 1;
    }
    route.push(end_id.clone());
    proof {
        let lhs = strs_view(route@);
        let rhs = route_of(strs_view(perm@), start_id@, end_id@);
        assert forall|j: int| 0 <= j < lhs.len() implies lhs[j] == rhs[j] by {
            if 1 <= j < route@.len() - 1 {
                assert((route@[j])@ == perm@[j - 1]@);
            }
        }
        assert(lhs =~= rhs);
    }
    route
}

/// The largest single leg the distance table may carry, in tenths.
pub const MAX_LEG_TENTHS: u64 = 0xFFFF_FFFF;

/// The view of a distance table as a sequence of rows.
pub open spec fn mat_view(m: Vec<Vec<u64>>) -> Seq<Seq<u64>> {
    m@.map_values(|row: Vec<u64>| row@)
}

/// A well-formed distance table for `k` stops: square, with every leg
/// bounded by [`MAX_LEG_TENTHS`].
pub open spec fn matrix_wf(m: Seq<Seq<u64>>, k: nat) -> bool {
    &&& m.len() == k
    &&& forall|i: int| 0 <= i < k ==> (#[trigger] m[i]).len() == k
    &&& forall|i: int, j: int| 0 <= i < k && 0 <= j < k ==> #[trigger] m[i][j] <= MAX_LEG_TENTHS
}

/// The tabulated distance, in tenths, between the stops named `a` and
/// `b`, both of which must resolve.
pub open spec fn leg_tenths(m: Seq<Seq<u64>>, table: Seq<Place>, a: Seq<char>, b: Seq<char>) -> nat {
    m[resolve(table, a).unwrap()][resolve(table, b).unwrap()] as nat
}

/// Whether every stop of the list has an entry in the table.
pub open spec fn all_resolve(table: Seq<Place>, stops: Seq<Seq<char>>) -> bool {
    forall|i: int| 0 <= i < stops.len() ==> (#[trigger] resolve(table, stops[i])) is Some
}

/// The accumulated distance along the first `k` stops: each leg's tenths
/// added to the running total in stop order.  Rounding the running total
/// to one decimal place after each addition leaves a whole number of
/// tenths unchanged, so this sum is the per-leg rounded accumulation
/// itself.
pub open spec fn total_upto(
    m: Seq<Seq<u64>>,
    table: Seq<Place>,
    stops: Seq<Seq<char>>,
    k: int,
) -> nat
    decreases k,
{
    if k <= 1 {
        0
    } else {
        total_upto(m, table, stops, k - 1) + leg_tenths(m, table, stops[k - 2], stops[k - 1])
    }
}

/// Walks a permutation of the intermediate identifiers as a route from
/// the start stop to the end stop: resolves every stop against the
/// lookup table, and sums the legs between consecutive stops.  Returns
/// the stop list and the total in tenths, or `LookupError` exactly when
/// some stop has no table entry.
pub fn evaluate(
    perm: &Vec<String>,
    table: &Vec<Place>,
    dist: &Vec<Vec<u64>>,
    start_id: &String,
    end_id: &String,
) -> (r: Result<(Vec<String>, u64), RouteError>)
    requires
        matrix_wf(mat_view(*dist), table@.len()),
        perm@.len() + 2 <= 0xFFFF_FFFF,
    ensures
        ({
            let stops = route_of(strs_view(perm@), start_id@, end_id@);
            match r {
                Ok((route, t)) => {
                    &&& all_resolve(table@, stops)
                    &&& route@.len() == perm@.len() + 2
                    &&& strs_view(route@) == stops
                    &&& t == total_upto(mat_view(*dist), table@, stops, stops.len() as int)
                },
                Err(e) => {
                    &&& e == RouteError::LookupError
                    &&& !all_resolve(table@, stops)
                },
            }
        }),
{
    let ghost stops = route_of(strs_view(perm@), start_id@, end_id@);
    let route = build_route(perm, start_id, end_id);
    let n = route.len();
    let k = table.len();

    let mut pos: Vec<usize> = Vec::new();
    let mut i: usize = 0;
    while i < n
        invariant
            i <= n,
            n == route@.len(),
            n == stops.len(),
            k == table@.len(),
            stops == route_of(strs_view(perm@), start_id@, end_id@),
            strs_view(route@) == stops,
            pos@.len() == i,
            forall|t: int| 0 <= t < i ==> resolve(table@, stops[t]) == Some(pos@[t] as int),
            forall|t: int| 0 <= t < i ==> #[trigger] pos@[t] < k,
        decreases n - i,
    {
        match lookup(table, &route[i]) {
            Some(p) => {
                proof {
                    assert(stops[i as int] == route@[i as int]@);
                    lemma_resolve_spec(table@, stops[i as int]);
                }
                pos.push(p);
            },
            None => {
                proof {
                    assert(stops[i as int] == route@[i as int]@);
                    assert(!all_resolve(table@, stops)) by {
                        assert(0 <= i < stops.len());
                        assert(!(resolve(table@, stops[i as int]) is Some));
                    }
                }
                return Err(RouteError::LookupError);
            },
        }
        i = i + 1;
    }

    let ghost m = mat_view(*dist);
    let mut sum: u64 = 0;
    let mut i: usize = 1;
    while i < n
        invariant
            1 <= i <= n,
            n == route@.len(),
            n == stops.len(),
            n <= 0xFFFF_FFFF,
            stops == route_of(strs_view(perm@), start_id@, end_id@),
            strs_view(route@) == stops,
            k == table@.len(),
            m == mat_view(*dist),
            matrix_wf(m, k as nat),
            pos@.len() == n,
            forall|t: int| 0 <= t < n ==> resolve(table@, stops[t]) == Some(pos@[t] as int),
            forall|t: int| 0 <= t < n ==> #[trigger] pos@[t] < k,
            sum == total_upto(m, table@, stops, i as int),
            sum <= (i - 1) * (MAX_LEG_TENTHS as int),
        decreases n - i,
    {
        let a = pos[i - 1];
        let b = pos[i];
        proof {
            assert(m.len() == k && dist@.len() == k);
            assert(m[a as int] == dist@[a as int]@);
            assert(m[a as int].len() == k);
        }
        let d = dist[a][b];
        proof {
            assert(m[a as int][b as int] <= MAX_LEG_TENTHS);
            assert(leg_tenths(m, table@, stops[i - 1], stops[i as int]) == d as nat);
            assert((i - 1) * (MAX_LEG_TENTHS as int) + (MAX_LEG_TENTHS as int) == i * (
            MAX_LEG_TENTHS as int)) by (nonlinear_arith);
            assert(i * (MAX_LEG_TENTHS as int) <= 0xFFFF_FFFF * (MAX_LEG_TENTHS as int))
                by (nonlinear_arith)
                requires
                    1 <= i <= 0xFFFF_FFFF,
            ;
        }
        sum = sum + d;
        i = i + 1;
    }
    Ok((route, sum))
}

/// Any identifier that occurs in the table resolves.
pub proof fn lemma_resolve_present(table: Seq<Place>, i: int)
    requires
        0 <= i < table.len(),
    ensures
        resolve(table, table[i].id@) is Some,
    decreases table.len(),
{
    if table[0].id@ != table[i].id@ {
        let rest = table.drop_first();
        assert(rest[i - 1] == table[i]);
        lemma_resolve_present(rest, i - 1);
    }
}

/// The intermediate identifiers: the table's identifiers in order, with
/// every occurrence of the start and end identifiers removed.
pub open spec fn inter_ids(ids: Seq<Seq<char>>, s: Seq<char>, e: Seq<char>) -> Seq<Seq<char>>
    decreases ids.len(),
{
    if ids.len() == 0 {
        Seq::empty()
    } else {
        inter_ids(ids.drop_last(), s, e) + (if ids.last() != s && ids.last() != e {
            seq![ids.last()]
        } else {
            Seq::empty()
        })
    }
}

/// Collects the intermediate identifiers of the table: every entry whose
/// identifier is neither the start's nor the end's, in table order.  The
/// intermediate set is computed from the table, never hard-coded: its
/// size is the table's size less the entries matching the two fixed
/// stops.
pub fn intermediates(table: &Vec<Place>, start_id: &String, end_id: &String) -> (r: Vec<String>)
    ensures
        strs_view(r@) == inter_ids(table_ids(table@), start_id@, end_id@),
        forall|t: int| 0 <= t < r@.len() ==> resolve(table@, (#[trigger] r@[t])@) is Some,
        r@.len() <= table@.len(),
{
    let ghost tids = table_ids(table@);
    let mut r: Vec<String> = Vec::new();
    let mut i: usize = 0;
    while i < table.len()
        invariant
            i <= table@.len(),
            tids == table_ids(table@),
            strs_view(r@) == inter_ids(tids.take(i as int), start_id@, end_id@),
            forall|t: int| 0 <= t < r@.len() ==> resolve(table@, (#[trigger] r@[t])@) is Some,
            r@.len() <= i,
        decreases table@.len() - i,
    {
        let keep = !(table[i].id == *start_id) && !(table[i].id == *end_id);
        if keep {
            proof {
                lemma_resolve_present(table@, i as int);
            }
            r.push(table[i].id.clone());
        }
        proof {
            assert(tids.take(i + 1).drop_last() =~= tids.take(i as int));
            assert(tids.take(i + 1).last() == table@[i as int].id@);
            assert(strs_view(r@) =~= inter_ids(tids.take(i + 1), start_id@, end_id@));
        }
        i = i + 1;
    }
    proof {
        assert(tids.take(table@.len() as int) =~= tids);
    }
    r
}

/// The identifiers picked out of `ids` by a sequence of positions.
pub open spec fn sel_of(ids: Seq<Seq<char>>, q: Seq<usize>) -> Seq<Seq<char>> {
    Seq::new(q.len(), |t: int| ids[q[t] as int])
}

/// The cells of the data row keyed `i` for the ordering `p` of the
/// intermediate identifiers: the key, the stops of the route, and the
/// route's accumulated distance.
pub open spec fn data_row(
    m: Seq<Seq<u64>>,
    table: Seq<Place>,
    p: Seq<Seq<char>>,
    s: Seq<char>,
    e: Seq<char>,
    i: int,
) -> Seq<Seq<char>> {
    let stops = route_of(p, s, e);
    seq![decimal_chars(i as nat)] + stops + seq![
        tenths_chars(total_upto(m, table, stops, stops.len() as int)),
    ]
}

/// Whether `row` is the data row keyed `i` for some ordering of the
/// intermediate identifiers.
pub open spec fn row_ok(
    m: Seq<Seq<u64>>,
    table: Seq<Place>,
    ids: Seq<Seq<char>>,
    s: Seq<char>,
    e: Seq<char>,
    row: Seq<Seq<char>>,
    i: int,
) -> bool {
    exists|q: Seq<usize>|
        {
            &&& q.to_multiset() == ident_seq(ids.len()).to_multiset()
            &&& row == data_row(m, table, sel_of(ids, q), s, e, i)
        }
}

/// Enumerates every ordering of the intermediate identifiers, walks each
/// as a route from the start stop to the end stop, and renders the
/// results: a header row, then one data row per ordering, keyed from 1
/// upward in generation order.  With `k` intermediate identifiers the
/// table holds exactly `k! + 1` rows.
///
/// Fails with `InvalidInput`, before any enumeration starts, exactly
/// when the intermediate set is larger than [`MAX_INTERMEDIATE`], and
/// with `LookupError` exactly when the start or the end identifier has
/// no table entry.
pub fn run_routes(
    table: &Vec<Place>,
    dist: &Vec<Vec<u64>>,
    start_id: &String,
    end_id: &String,
) -> (r: Result<Vec<Vec<String>>, RouteError>)
    requires
        matrix_wf(mat_view(*dist), table@.len()),
    ensures
        ({
            let ids = inter_ids(table_ids(table@), start_id@, end_id@);
            let m = mat_view(*dist);
            match r {
                Ok(rows) => {
                    &&& ids.len() <= MAX_INTERMEDIATE
                    &&& resolve(table@, start_id@) is Some
                    &&& resolve(table@, end_id@) is Some
                    &&& rows@.len() == 1 + fact(ids.len())
                    &&& rows@[0]@.len() == ids.len() + 4
                    &&& forall|c: int|
                        0 <= c < ids.len() + 4 ==> (#[trigger] rows@[0]@[c])@ == title_cell(
                            c,
                            ids.len() + 4 as int,
                        )
                    &&& forall|i: int|
                        1 <= i < rows@.len() ==> row_ok(
                            m,
                            table@,
                            ids,
                            start_id@,
                            end_id@,
                            strs_view((#[trigger] rows@[i])@),
                            i,
                        )
                },
                Err(e) => {
                    &&& (e == RouteError::InvalidInput || e == RouteError::LookupError)
                    &&& (e == RouteError::InvalidInput <==> ids.len() > MAX_INTERMEDIATE)
                    &&& (e == RouteError::LookupError <==> ids.len() <= MAX_INTERMEDIATE && (
                    resolve(table@, start_id@) is None || resolve(table@, end_id@) is None))
                },
            }
        }),
{
    let ghost m = mat_view(*dist);
    let ghost tids = table_ids(table@);
    let ghost ids = inter_ids(tids, start_id@, end_id@);
    let inter = intermediates(table, start_id, end_id);
    let k = inter.len();
    proof {
        assert(ids.len() == k);
    }
    let mut gen = match Permutations::new(k) {
        Ok(g) => g,
        Err(e) => {
            return Err(e);
        },
    };
    match lookup(table, start_id) {
        Some(_) => {},
        None => {
            return Err(RouteError::LookupError);
        },
    }
    match lookup(table, end_id) {
        Some(_) => {},
        None => {
            return Err(RouteError::LookupError);
        },
    }
    proof {
        lemma_fact_mono(k as nat, 12);
        lemma_fact_12();
    }
    let mut rows: Vec<Vec<String>> = Vec::new();
    rows.push(title(k + 4));
    let mut iv: usize = 0;
    loop
        invariant
            gen.wf(),
            gen.n_spec() == k as nat,
            k == inter@.len(),
            k <= MAX_INTERMEDIATE,
            iv == gen.count(),
            iv <= fact(k as nat),
            fact(k as nat) <= 479001600,
            rows@.len() == iv + 1,
            m == mat_view(*dist),
            matrix_wf(m, table@.len() as nat),
            tids == table_ids(table@),
            ids == inter_ids(tids, start_id@, end_id@),
            strs_view(inter@) == ids,
            resolve(table@, start_id@) is Some,
            resolve(table@, end_id@) is Some,
            forall|t: int| 0 <= t < inter@.len() ==> resolve(table@, (#[trigger] inter@[t])@) is Some,
            rows@[0]@.len() == k + 4,
            forall|c: int|
                0 <= c < k + 4 ==> (#[trigger] rows@[0]@[c])@ == title_cell(c, k + 4),
            forall|i2: int|
                1 <= i2 < rows@.len() ==> row_ok(
                    m,
                    table@,
                    ids,
                    start_id@,
                    end_id@,
                    strs_view((#[trigger] rows@[i2])@),
                    i2,
                ),
        ensures
            iv == fact(k as nat),
            rows@.len() == iv + 1,
            rows@[0]@.len() == k + 4,
            forall|c: int|
                0 <= c < k + 4 ==> (#[trigger] rows@[0]@[c])@ == title_cell(c, k + 4),
            forall|i2: int|
                1 <= i2 < rows@.len() ==> row_ok(
                    m,
                    table@,
                    ids,
                    start_id@,
                    end_id@,
                    strs_view((#[trigger] rows@[i2])@),
                    i2,
                ),
        decreases fact(k as nat) - gen.count(),
    {
        match gen.next() {
            None => {
                break ;
            },
            Some(q) => {
                proof {
                    lemma_perm_index_bound(q@, k as nat);
                }
                let mut sel: Vec<String> = Vec::new();
                let mut t: usize = 0;
                while t < q.len()
                    invariant
                        t <= q@.len(),
                        q@.len() == k,
                        k == inter@.len(),
                        forall|u: int| 0 <= u < q@.len() ==> (#[trigger] q@[u]) < k,
                        sel@.len() == t,
                        forall|u: int| 0 <= u < t ==> (#[trigger] sel@[u])@ == inter@[q@[u] as int]@,
                    decreases q@.len() - t,
                {
                    sel.push(inter[q[t]].clone());
                    t = t + 1;
                }
                proof {
                    assert(strs_view(sel@) =~= sel_of(ids, q@));
                }
                let ghost stops = route_of(strs_view(sel@), start_id@, end_id@);
                match evaluate(&sel, table, dist, start_id, end_id) {
                    Ok((route, total)) => {
                        iv = iv + 1;
                        let row = vec_row(iv, total, route);
                        rows.push(row);
                        proof {
                            assert forall|u: int| 0 <= u < strs_view(row@).len() implies strs_view(
                                row@,
                            )[u] == data_row(m, table@, sel_of(ids, q@), start_id@, end_id@, iv as int)[u] by {
                                if 1 <= u < row@.len() - 1 {
                                    assert(row@[u] == route@[u - 1]);
                                }
                            }
                            assert(strs_view(row@) =~= data_row(
                                m,
                                table@,
                                sel_of(ids, q@),
                                start_id@,
                                end_id@,
                                iv as int,
                            ));
                            assert(row_ok(m, table@, ids, start_id@, end_id@, strs_view(row@), iv as int));
                        }
                    },
                    Err(_) => {
                        proof {
                            assert forall|u: int| 0 <= u < stops.len() implies (#[trigger] resolve(
                                table@,
                                stops[u],
                            )) is Some by {
                                if u == 0 {
                                    assert(stops[u] == start_id@);
                                } else if u == stops.len() - 1 {
                                    assert(stops[u] == end_id@);
                                } else {
                                    assert(stops[u] == sel@[u - 1]@);
                                    assert(sel@[u - 1]@ == inter@[q@[u - 1] as int]@);
                                    assert(resolve(table@, inter@[q@[u - 1] as int]@) is Some);
                                }
                            }
                            assert(all_resolve(table@, stops));
                            assert(false);
                        }
                        return Err(RouteError::LookupError);
                    },
                }
            },
        }
    }
    Ok(rows)
}

/// Stepwise accumulation over a two-leg route: the evaluator's total for
/// the stops `[a, b, c]` is the distance from `a` to `b` plus the
/// distance from `b` to `c`, added in stop order.  Every quantity is a
/// whole number of tenths, so rounding the running sum to one decimal
/// place after each addition changes nothing: manual stepwise
/// accumulation reproduces the evaluator's result exactly.
pub proof fn lemma_two_leg_accumulation(
    m: Seq<Seq<u64>>,
    table: Seq<Place>,
    a: Seq<char>,
    b: Seq<char>,
    c: Seq<char>,
)
    ensures
        total_upto(m, table, seq![a, b, c], 3) == leg_tenths(m, table, a, b) + leg_tenths(
            m,
            table,
            b,
            c,
        ),
{
    let stops = seq![a, b, c];
    assert(total_upto(m, table, stops, 3) == total_upto(m, table, stops, 2) + leg_tenths(
        m,
        table,
        stops[1],
        stops[2],
    ));
    assert(total_upto(m, table, stops, 2) == total_upto(m, table, stops, 1) + leg_tenths(
        m,
        table,
        stops[0],
        stops[1],
    ));
    assert(stops[0] == a && stops[1] == b && stops[2] == c);
}

/// Selecting identifiers by an ordering of the positions yields a
/// permutation of the identifiers: the rows' stop lists carry exactly
/// the intermediate identifiers, whatever ordering the generator hands
/// out.
pub proof fn lemma_sel_of_multiset(ids: Seq<Seq<char>>, q: Seq<usize>)
    requires
        ids.len() <= usize::MAX,
        q.to_multiset() == ident_seq(ids.len()).to_multiset(),
    ensures
        sel_of(ids, q).to_multiset() == ids.to_multiset(),
    decreases ids.len(),
{
    broadcast use vstd::seq_lib::group_to_multiset_ensures;
    broadcast use vstd::multiset::group_multiset_axioms;

    let n = ids.len() as int;
    lemma_perm_index_bound(q, ids.len());
    if n == 0 {
        assert(sel_of(ids, q) =~= Seq::<Seq<char>>::empty());
        assert(ids =~= Seq::<Seq<char>>::empty());
    } else {
        let last = (n - 1) as usize;
        assert(last as int == n - 1);
        assert(ident_seq(ids.len()).contains(last)) by {
            assert(ident_seq(ids.len())[n - 1] == last);
        }
        assert(q.to_multiset().count(last) > 0);
        assert(q.contains(last));
        let t = choose|t: int| 0 <= t < q.len() && q[t] == last;
        let q2 = q.remove(t);

        // the remaining positions are an ordering of the shorter range
        assert(ident_seq(ids.len()) =~= ident_seq((n - 1) as nat).push(last));
        assert(ident_seq(ids.len()).drop_last() =~= ident_seq((n - 1) as nat));
        assert(q2.to_multiset() =~= ident_seq((n - 1) as nat).to_multiset()) by {
            assert(q2.to_multiset() =~= q.to_multiset().remove(q[t]));
            assert(ident_seq(ids.len()).to_multiset() =~= ident_seq((n - 1) as nat).to_multiset()
                .insert(last));
        }
        lemma_perm_index_bound(q2, (n - 1) as nat);

        let short = ids.drop_last();
        assert(sel_of(ids, q2) =~= sel_of(short, q2)) by {
            assert(forall|j: int|
                0 <= j < q2.len() ==> #[trigger] sel_of(ids, q2)[j] == ids[q2[j] as int]);
            assert(forall|j: int|
                0 <= j < q2.len() ==> #[trigger] sel_of(short, q2)[j] == short[q2[j] as int]);
            assert(forall|j: int| 0 <= j < q2.len() ==> q2[j] < n - 1);
        }
        lemma_sel_of_multiset(short, q2);

        // removing the pick of position `n - 1` from the selection
        assert(sel_of(ids, q).remove(t) =~= sel_of(ids, q2)) by {
            assert(forall|j: int| 0 <= j < t ==> #[trigger] q2[j] == q[j]);
            assert(forall|j: int| t <= j < q2.len() ==> #[trigger] q2[j] == q[j + 1]);
        }
        assert(sel_of(ids, q).remove(t).to_multiset() =~= sel_of(ids, q).to_multiset().remove(
            sel_of(ids, q)[t],
        ));
        assert(0 <= t < q.len() && q[t] == last);
        assert(sel_of(ids, q)[t] == ids[q[t] as int]);
        assert(sel_of(ids, q)[t] == ids[n - 1]);
        assert(ids =~= short.push(ids[n - 1]));
        assert(ids.to_multiset() =~= short.to_multiset().insert(ids[n - 1]));
        assert(sel_of(ids, q).to_multiset().count(ids[n - 1]) > 0) by {
            assert(sel_of(ids, q).contains(ids[n - 1])) by {
                assert(sel_of(ids, q)[t] == ids[n - 1]);
            }
        }
        assert(sel_of(ids, q).to_multiset() =~= sel_of(ids, q).to_multiset().remove(
            ids[n - 1],
        ).insert(ids[n - 1]));
        assert(sel_of(ids, q).to_multiset() =~= ids.to_multiset());
    }
}

/// The intermediate set drops exactly the occurrences of the two
/// endpoint identifiers.
proof fn lemma_inter_ids_len(ids: Seq<Seq<char>>, s: Seq<char>, e: Seq<char>)
    requires
        s != e,
    ensures
        inter_ids(ids, s, e).len() == ids.len() - ids.to_multiset().count(s)
            - ids.to_multiset().count(e),
    decreases ids.len(),
{
    broadcast use vstd::seq_lib::group_to_multiset_ensures;
    broadcast use vstd::multiset::group_multiset_axioms;

    if ids.len() == 0 {
        assert(ids.to_multiset() =~= Multiset::<Seq<char>>::empty());
    } else {
        let short = ids.drop_last();
        lemma_inter_ids_len(short, s, e);
        assert(ids =~= short.push(ids.last()));
        assert(ids.to_multiset() =~= short.to_multiset().insert(ids.last()));
    }
}

/// The rule the intermediate set obeys: with unique identifiers, both
/// endpoints present and distinct, the intermediate set holds exactly
/// the table's entries less the two fixed stops.
pub proof fn lemma_intermediate_count(ids: Seq<Seq<char>>, s: Seq<char>, e: Seq<char>)
    requires
        ids.no_duplicates(),
        ids.contains(s),
        ids.contains(e),
        s != e,
    ensures
        inter_ids(ids, s, e).len() == ids.len() - 2,
{
    broadcast use vstd::seq_lib::group_to_multiset_ensures;

    lemma_inter_ids_len(ids, s, e);
    ids.lemma_multiset_has_no_duplicates();
    assert(ids.to_multiset().count(s) > 0);
    assert(ids.to_multiset().count(e) > 0);
    assert(ids.to_multiset().contains(s));
    assert(ids.to_multiset().contains(e));
}

} // verus!