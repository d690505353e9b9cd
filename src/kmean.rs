//! A generic k-means centroid finder.
//!
//! Items of any copyable type are clustered around `k` centroids with a
//! caller's distance function (an integer, non-negative by its type) and mean
//! function. Distances are compared with the thresholds below, which are
//! stated in the distance function's own units.
use vstd::prelude::*;

verus! {

/// Largest centroid movement under which the centroids count as converged.
pub const CONVERGE_THRESHOLD: u64 = 50;

/// Looser movement bound, accepted once the iteration budget is spent.
pub const CONVERGE_ENOUGH_THRESHOLD: u64 = 800;

/// Number of assignment/update rounds after which the looser bound decides.
pub const ITERATION_MAX_COUNT: usize = 120;

/// Errors that can occur while finding centroids.
#[derive(Debug, Clone, Copy, PartialEq, Eq, Structural)]
pub enum CentroidsFindError {
    /// The centroids did not settle within the iteration budget.
    TooManyIterations,
    /// The input holds fewer items than the requested number of centroids.
    TooManyCentroids { expected: usize, actual: usize },
    /// The input is empty.
    InputEmpty,
}

/// `i` is the first position of a smallest value of `ds`.
pub open spec fn first_min(ds: Seq<u64>, i: int) -> bool {
    &&& 0 <= i < ds.len()
    &&& forall|j: int| 0 <= j < ds.len() ==> ds[i] <= #[trigger] ds[j]
    &&& forall|j: int| 0 <= j < i ==> ds[i] < #[trigger] ds[j]
}

/// The distance relation of a distance closure: `d` is a value it may return
/// for `a` and `b`.
pub open spec fn measured_by<T, D: Fn(&T, &T) -> u64>(distance: D) -> spec_fn(T, T, u64) -> bool {
    |a: T, b: T, d: u64| call_ensures(distance, (&a, &b), d)
}

/// The mean relation of a mean closure: `v` is a value it may return for a
/// slice holding `items`.
pub open spec fn averaged_by<T, M: Fn(&[T]) -> T>(mean: M) -> spec_fn(Seq<T>, T) -> bool {
    |items: Seq<T>, v: T| exists|s: &[T]| s@ == items && #[trigger] call_ensures(mean, (s,), v)
}

/// `ds` are distances measured by `dist` from `item` to each centroid.
pub open spec fn observed_distances<T>(
    dist: spec_fn(T, T, u64) -> bool,
    item: T,
    centroids: Seq<T>,
    ds: Seq<u64>,
) -> bool {
    &&& ds.len() == centroids.len()
    &&& forall|j: int| 0 <= j < centroids.len() ==> dist(item, centroids[j], #[trigger] ds[j])
}

/// Centroid `j` is the nearest to `item`, the first one on ties.
pub open spec fn is_nearest<T>(
    dist: spec_fn(T, T, u64) -> bool,
    item: T,
    centroids: Seq<T>,
    j: int,
) -> bool {
    exists|ds: Seq<u64>| #[trigger] observed_distances(dist, item, centroids, ds) && first_min(ds, j)
}

/// The distance closure may be called on any two items.
pub open spec fn callable_distance<T, D: Fn(&T, &T) -> u64>(distance: D) -> bool {
    forall|a: &T, b: &T| #[trigger] call_requires(distance, (a, b))
}

/// The mean closure may be called on any slice of items.
pub open spec fn callable_mean<T, M: Fn(&[T]) -> T>(mean: M) -> bool {
    forall|s: &[T]| #[trigger] call_requires(mean, (s,))
}

/// Checks that a clustering of `input` into `centroids_count` groups can be asked for.
fn validate_input<T>(input: &[T], centroids_count: usize) -> (r: Result<(), CentroidsFindError>)
    ensures
        input@.len() == 0 ==> r == Err::<(), _>(CentroidsFindError::InputEmpty),
        0 < input@.len() < centroids_count ==> r == Err::<(), _>(
            CentroidsFindError::TooManyCentroids {
                expected: centroids_count,
                actual: input@.len() as usize,
            },
        ),
        0 < input@.len() && centroids_count <= input@.len() ==> r == Ok::<(), CentroidsFindError>(
            (),
        ),
{
    if input.len() == 0 {
        Err(CentroidsFindError::InputEmpty)
    } else if input.len() < centroids_count {
        Err(CentroidsFindError::TooManyCentroids { expected: centroids_count, actual: input.len() })
    } else {
        Ok(())
    }
}

/// Index of the centroid nearest to `item`, the first one on ties.
pub(crate) fn find_closest_centroid_idx<T, D: Fn(&T, &T) -> u64>(
    item: &T,
    centroids: &[T],
    distance: &D,
) -> (r: usize)
    requires
        centroids@.len() > 0,
        callable_distance(*distance),
    ensures
        r < centroids@.len(),
        is_nearest(measured_by(*distance), *item, centroids@, r as int),
{
    let mut best: usize = 0;
    let mut best_dist: u64 = distance(item, &centroids[0]);
    let ghost mut ds: Seq<u64> = seq![best_dist];
    let mut j: usize = 1;
    while j < centroids.len()
        invariant
            1 <= j <= centroids@.len(),
            callable_distance(*distance),
            ds.len() == j,
            forall|i: int|
                0 <= i < j ==> call_ensures(*distance, (item, &centroids@[i]), #[trigger] ds[i]),
            first_min(ds, best as int),
            best_dist == ds[best as int],
        decreases centroids@.len() - j,
    {
        let d = distance(item, &centroids[j]);
        proof {
            ds = ds.push(d);
        }
        if d < best_dist {
            best = j;
            best_dist = d;
        }
        j += 1;
    }
    assert(observed_distances(measured_by(*distance), *item, centroids@, ds));
    best
}

/// The items of `items` whose assigned centroid is `j`, in input order.
pub open spec fn cluster<T>(items: Seq<T>, assign: Seq<usize>, j: int) -> Seq<T>
    decreases items.len(),
{
    if items.len() == 0 {
        Seq::empty()
    } else {
        let n = items.len() - 1;
        let front = cluster(items.take(n), assign.take(n), j);
        if assign[n] == j {
            front.push(items[n])
        } else {
            front
        }
    }
}

/// `assign` sends every item of `input` to its nearest centroid.
pub open spec fn nearest_assignment<T>(
    dist: spec_fn(T, T, u64) -> bool,
    input: Seq<T>,
    centroids: Seq<T>,
    assign: Seq<usize>,
) -> bool {
    &&& assign.len() == input.len()
    &&& forall|i: int|
        0 <= i < input.len() ==> #[trigger] assign[i] < centroids.len() && is_nearest(
            dist,
            input[i],
            centroids,
            assign[i] as int,
        )
}

/// Sends every item to its nearest centroid.
fn assign_to_centroids<T, D: Fn(&T, &T) -> u64>(
    input: &[T],
    centroids: &[T],
    distance: &D,
) -> (r: Vec<usize>)
    requires
        centroids@.len() > 0,
        callable_distance(*distance),
    ensures
        nearest_assignment(measured_by(*distance), input@, centroids@, r@),
{
    let mut assign: Vec<usize> = Vec::new();
    let mut i: usize = 0;
    while i < input.len()
        invariant
            i <= input@.len(),
            centroids@.len() > 0,
            callable_distance(*distance),
            assign@.len() == i,
            forall|m: int|
                0 <= m < i ==> #[trigger] assign@[m] < centroids@.len() && is_nearest(
                    measured_by(*distance),
                    input@[m],
                    centroids@,
                    assign@[m] as int,
                ),
        decreases input@.len() - i,
    {
        let c = find_closest_centroid_idx(&input[i], centroids, distance);
        assign.push(c);
        i += 1;
    }
    assign
}

/// Collects the items assigned to centroid `j`, in input order.
fn collect_cluster<T: Copy>(input: &[T], assign: &Vec<usize>, j: usize) -> (r: Vec<T>)
    requires
        assign@.len() == input@.len(),
    ensures
        r@ == cluster(input@, assign@, j as int),
{
    let mut out: Vec<T> = Vec::new();
    let mut i: usize = 0;
    while i < input.len()
        invariant
            i <= input@.len(),
            assign@.len() == input@.len(),
            out@ == cluster(input@.take(i as int), assign@.take(i as int), j as int),
        decreases input@.len() - i,
    {
        proof {
            assert(input@.take(i + 1).take(i as int) == input@.take(i as int));
            assert(assign@.take(i + 1).take(i as int) == assign@.take(i as int));
        }
        if assign[i] == j {
            out.push(input[i]);
        }
        i += 1;
    }
    proof {
        assert(input@.take(input@.len() as int) == input@);
        assert(assign@.take(input@.len() as int) == assign@);
    }
    out
}

/// Splits `input` into one cluster per centroid, each item going to its
/// nearest centroid; also gives the assignment that was used.
fn create_clusters_assignment<T: Copy, D: Fn(&T, &T) -> u64>(
    input: &[T],
    centroids: &[T],
    distance: &D,
) -> (r: (Vec<Vec<T>>, Ghost<Seq<usize>>))
    requires
        centroids@.len() > 0,
        callable_distance(*distance),
    ensures
        r.0@.len() == centroids@.len(),
        nearest_assignment(measured_by(*distance), input@, centroids@, r.1@),
        forall|j: int| 0 <= j < centroids@.len() ==> (#[trigger] r.0@[j])@ == cluster(input@, r.1@, j),
{
    let assign = assign_to_centroids(input, centroids, distance);
    let mut clusters: Vec<Vec<T>> = Vec::new();
    let mut j: usize = 0;
    while j < centroids.len()
        invariant
            j <= centroids@.len(),
            assign@.len() == input@.len(),
            clusters@.len() == j,
            forall|m: int| 0 <= m < j ==> (#[trigger] clusters@[m])@ == cluster(input@, assign@, m),
        decreases centroids@.len() - j,
    {
        let c = collect_cluster(input, &assign, j);
        clusters.push(c);
        j += 1;
    }
    (clusters, Ghost(assign@))
}

/// The centroid that follows `previous` for a cluster of `members`: their
/// mean, or `previous` itself when the cluster is empty.
pub open spec fn updated_centroid<T>(
    avg: spec_fn(Seq<T>, T) -> bool,
    members: Seq<T>,
    previous: T,
    next: T,
) -> bool {
    if members.len() == 0 {
        next == previous
    } else {
        avg(members, next)
    }
}

/// `next` is one round of k-means from `last`: each item goes to its nearest
/// centroid under `assign`, and each centroid moves to the mean of its cluster.
pub open spec fn lloyd_step<T>(
    dist: spec_fn(T, T, u64) -> bool,
    avg: spec_fn(Seq<T>, T) -> bool,
    input: Seq<T>,
    last: Seq<T>,
    assign: Seq<usize>,
    next: Seq<T>,
) -> bool {
    &&& nearest_assignment(dist, input, last, assign)
    &&& next.len() == last.len()
    &&& forall|j: int|
        0 <= j < last.len() ==> updated_centroid(avg, cluster(input, assign, j), last[j], #[trigger] next[j])
}

/// Every centroid moved, as `dist` measured it, by less than `threshold`.
pub open spec fn converged<T>(
    dist: spec_fn(T, T, u64) -> bool,
    last: Seq<T>,
    recent: Seq<T>,
    threshold: u64,
) -> bool {
    exists|ds: Seq<u64>| #[trigger] moves_below(dist, last, recent, threshold, ds)
}

/// `ds` are the measured moves of the centroids, each below `threshold`.
pub open spec fn moves_below<T>(
    dist: spec_fn(T, T, u64) -> bool,
    last: Seq<T>,
    recent: Seq<T>,
    threshold: u64,
    ds: Seq<u64>,
) -> bool {
    &&& ds.len() == last.len()
    &&& forall|j: int| 0 <= j < last.len() ==> dist(last[j], recent[j], #[trigger] ds[j])
    &&& forall|j: int| 0 <= j < ds.len() ==> #[trigger] ds[j] < threshold
}

/// Some centroid moved, as `dist` measured it, by `threshold` or more.
pub open spec fn moved_at_least<T>(
    dist: spec_fn(T, T, u64) -> bool,
    last: Seq<T>,
    recent: Seq<T>,
    threshold: u64,
) -> bool {
    exists|j: int, d: u64|
        0 <= j < last.len() && #[trigger] dist(last[j], recent[j], d) && d >= threshold
}

/// `states` are the centroids before each round and after the last one, and
/// `assigns` the assignment of each round.
pub open spec fn lloyd_run<T>(
    dist: spec_fn(T, T, u64) -> bool,
    avg: spec_fn(Seq<T>, T) -> bool,
    input: Seq<T>,
    states: Seq<Seq<T>>,
    assigns: Seq<Seq<usize>>,
) -> bool {
    &&& states.len() == assigns.len() + 1
    &&& forall|i: int|
        0 <= i < assigns.len() ==> lloyd_step(
            dist,
            avg,
            input,
            states[i],
            #[trigger] assigns[i],
            states[i + 1],
        )
}

/// A run from `start` that settled with result `c`: every round but the last
/// moved some centroid by `CONVERGE_THRESHOLD` or more; the last moved every
/// centroid by less, or it was round `ITERATION_MAX_COUNT + 1` and moved every
/// centroid by less than `CONVERGE_ENOUGH_THRESHOLD`.
pub open spec fn settled_run<T>(
    dist: spec_fn(T, T, u64) -> bool,
    avg: spec_fn(Seq<T>, T) -> bool,
    input: Seq<T>,
    start: Seq<T>,
    c: Seq<T>,
    states: Seq<Seq<T>>,
    assigns: Seq<Seq<usize>>,
) -> bool {
    let n = states.len() as int;
    &&& lloyd_run(dist, avg, input, states, assigns)
    &&& 2 <= n <= ITERATION_MAX_COUNT + 2
    &&& states[0] == start
    &&& states[n - 1] == c
    &&& forall|i: int|
        0 <= i < n - 2 ==> moved_at_least(dist, #[trigger] states[i], states[i + 1], CONVERGE_THRESHOLD)
    &&& converged(dist, states[n - 2], states[n - 1], CONVERGE_THRESHOLD) || (n
        == ITERATION_MAX_COUNT + 2 && converged(
        dist,
        states[n - 2],
        states[n - 1],
        CONVERGE_ENOUGH_THRESHOLD,
    ))
}

/// A run from `start` that did not settle: each of its
/// `ITERATION_MAX_COUNT + 1` rounds moved some centroid by `CONVERGE_THRESHOLD`
/// or more, and the last one by `CONVERGE_ENOUGH_THRESHOLD` or more.
pub open spec fn unsettled_run<T>(
    dist: spec_fn(T, T, u64) -> bool,
    avg: spec_fn(Seq<T>, T) -> bool,
    input: Seq<T>,
    start: Seq<T>,
    states: Seq<Seq<T>>,
    assigns: Seq<Seq<usize>>,
) -> bool {
    let m = ITERATION_MAX_COUNT as int;
    &&& lloyd_run(dist, avg, input, states, assigns)
    &&& states.len() == m + 2
    &&& states[0] == start
    &&& forall|i: int|
        0 <= i <= m ==> moved_at_least(dist, #[trigger] states[i], states[i + 1], CONVERGE_THRESHOLD)
    &&& moved_at_least(dist, states[m], states[m + 1], CONVERGE_ENOUGH_THRESHOLD)
}

/// What a k-means run from `start` gives: the centroids it settled on, or
/// `TooManyIterations` after a run that did not settle.
pub open spec fn kmeans_outcome<T>(
    dist: spec_fn(T, T, u64) -> bool,
    avg: spec_fn(Seq<T>, T) -> bool,
    input: Seq<T>,
    start: Seq<T>,
    r: Result<Seq<T>, CentroidsFindError>,
) -> bool {
    match r {
        Ok(c) => c.len() == start.len() && exists|states: Seq<Seq<T>>, assigns: Seq<Seq<usize>>|
            #[trigger] settled_run(dist, avg, input, start, c, states, assigns),
        Err(e) => e == CentroidsFindError::TooManyIterations && exists|
            states: Seq<Seq<T>>,
            assigns: Seq<Seq<usize>>,
        | #[trigger] unsettled_run(dist, avg, input, start, states, assigns),
    }
}

/// A result with its vector seen as a sequence.
pub open spec fn result_view<T, E>(r: Result<Vec<T>, E>) -> Result<Seq<T>, E> {
    match r {
        Ok(v) => Ok(v@),
        Err(e) => Err(e),
    }
}

/// `picks` are `k` distinct positions below `n`.
pub open spec fn distinct_picks(picks: Seq<usize>, n: int, k: int) -> bool {
    &&& picks.len() == k
    &&& picks.no_duplicates()
    &&& forall|i: int| 0 <= i < picks.len() ==> #[trigger] picks[i] < n
}

/// The items of `input` at `picks`.
pub open spec fn picked<T>(input: Seq<T>, picks: Seq<usize>) -> Seq<T> {
    picks.map_values(|p: usize| input[p as int])
}

/// Computes the next centroids, one per cluster; an empty cluster keeps its
/// previous centroid.
fn create_centroids_from_clusters<T: Copy, M: Fn(&[T]) -> T>(
    clusters: &Vec<Vec<T>>,
    last: &[T],
    mean: &M,
) -> (r: Vec<T>)
    requires
        clusters@.len() == last@.len(),
        callable_mean(*mean),
    ensures
        r@.len() == last@.len(),
        forall|j: int|
            0 <= j < last@.len() ==> updated_centroid(
                averaged_by(*mean),
                clusters@[j]@,
                last@[j],
                #[trigger] r@[j],
            ),
{
    let mut out: Vec<T> = Vec::new();
    let mut j: usize = 0;
    while j < clusters.len()
        invariant
            j <= clusters@.len(),
            clusters@.len() == last@.len(),
            callable_mean(*mean),
            out@.len() == j,
            forall|m: int|
                0 <= m < j ==> updated_centroid(averaged_by(*mean), clusters@[m]@, last@[m], #[trigger] out@[m]),
        decreases clusters@.len() - j,
    {
        let members: &Vec<T> = &clusters[j];
        if members.len() == 0 {
            out.push(last[j]);
        } else {
            let s = members.as_slice();
            let v = mean(s);
            assert(averaged_by(*mean)(clusters@[j as int]@, v));
            out.push(v);
        }
        j += 1;
    }
    out
}

/// Whether every centroid moved by less than `distance_threshold`.
fn check_converges<T, D: Fn(&T, &T) -> u64>(
    last_centroids: &[T],
    recent_centroids: &[T],
    distance_threshold: u64,
    distance: &D,
) -> (r: bool)
    requires
        last_centroids@.len() == recent_centroids@.len(),
        callable_distance(*distance),
    ensures
        r ==> converged(
            measured_by(*distance),
            last_centroids@,
            recent_centroids@,
            distance_threshold,
        ),
        !r ==> moved_at_least(
            measured_by(*distance),
            last_centroids@,
            recent_centroids@,
            distance_threshold,
        ),
{
    let ghost mut ds: Seq<u64> = Seq::empty();
    let mut j: usize = 0;
    while j < last_centroids.len()
        invariant
            j <= last_centroids@.len(),
            last_centroids@.len() == recent_centroids@.len(),
            callable_distance(*distance),
            ds.len() == j,
            forall|m: int|
                0 <= m < j ==> call_ensures(
                    *distance,
                    (&last_centroids@[m], &recent_centroids@[m]),
                    #[trigger] ds[m],
                ),
            forall|m: int| 0 <= m < j ==> #[trigger] ds[m] < distance_threshold,
        decreases last_centroids@.len() - j,
    {
        let d = distance(&last_centroids[j], &recent_centroids[j]);
        if d >= distance_threshold {
            proof {
                assert(measured_by(*distance)(last_centroids@[j as int], recent_centroids@[j as int], d));
            }
            return false;
        }
        proof {
            ds = ds.push(d);
        }
        j += 1;
    }
    assert(moves_below(
        measured_by(*distance),
        last_centroids@,
        recent_centroids@,
        distance_threshold,
        ds,
    ));
    true
}

/// A wider distance relation still finds the same nearest centroid.
pub proof fn lemma_nearest_weaken<T>(
    d1: spec_fn(T, T, u64) -> bool,
    d2: spec_fn(T, T, u64) -> bool,
    item: T,
    centroids: Seq<T>,
    j: int,
)
    requires
        forall|a: T, b: T, x: u64| #[trigger] d1(a, b, x) ==> d2(a, b, x),
        is_nearest(d1, item, centroids, j),
    ensures
        is_nearest(d2, item, centroids, j),
{
    let ds = choose|ds: Seq<u64>| #[trigger]
        observed_distances(d1, item, centroids, ds) && first_min(ds, j);
    assert(observed_distances(d2, item, centroids, ds));
}

/// Wider distance and mean relations keep a run's rounds what they were.
proof fn lemma_run_weaken<T>(
    d1: spec_fn(T, T, u64) -> bool,
    a1: spec_fn(Seq<T>, T) -> bool,
    d2: spec_fn(T, T, u64) -> bool,
    a2: spec_fn(Seq<T>, T) -> bool,
    input: Seq<T>,
    states: Seq<Seq<T>>,
    assigns: Seq<Seq<usize>>,
)
    requires
        forall|a: T, b: T, x: u64| #[trigger] d1(a, b, x) ==> d2(a, b, x),
        forall|m: Seq<T>, v: T| #[trigger] a1(m, v) ==> a2(m, v),
        lloyd_run(d1, a1, input, states, assigns),
    ensures
        lloyd_run(d2, a2, input, states, assigns),
        forall|i: int, t: u64|
            0 <= i < assigns.len() && moved_at_least(d1, states[i], states[i + 1], t)
                ==> #[trigger] moved_at_least(d2, states[i], states[i + 1], t),
        forall|i: int, t: u64|
            0 <= i < assigns.len() && converged(d1, states[i], states[i + 1], t)
                ==> #[trigger] converged(d2, states[i], states[i + 1], t),
{
    assert forall|i: int| 0 <= i < assigns.len() implies lloyd_step(
        d2,
        a2,
        input,
        states[i],
        #[trigger] assigns[i],
        states[i + 1],
    ) by {
        assert(lloyd_step(d1, a1, input, states[i], assigns[i], states[i + 1]));
        assert forall|k: int| 0 <= k < input.len() implies #[trigger] assigns[i][k]
            < states[i].len() && is_nearest(d2, input[k], states[i], assigns[i][k] as int) by {
            lemma_nearest_weaken(d1, d2, input[k], states[i], assigns[i][k] as int);
        }
    }
    assert forall|i: int, t: u64|
        0 <= i < assigns.len() && moved_at_least(d1, states[i], states[i + 1], t) implies #[trigger] moved_at_least(
        d2,
        states[i],
        states[i + 1],
        t,
    ) by {
        let (j, d) = choose|j: int, d: u64|
            0 <= j < states[i].len() && #[trigger] d1(states[i][j], states[i + 1][j], d) && d >= t;
        assert(d2(states[i][j], states[i + 1][j], d));
    }
    assert forall|i: int, t: u64|
        0 <= i < assigns.len() && converged(d1, states[i], states[i + 1], t) implies #[trigger] converged(
        d2,
        states[i],
        states[i + 1],
        t,
    ) by {
        let ds = choose|ds: Seq<u64>| #[trigger] moves_below(d1, states[i], states[i + 1], t, ds);
        assert(moves_below(d2, states[i], states[i + 1], t, ds));
    }
}

/// What holds of a run under narrower distance and mean relations holds under
/// wider ones.
pub proof fn lemma_outcome_weaken<T>(
    d1: spec_fn(T, T, u64) -> bool,
    a1: spec_fn(Seq<T>, T) -> bool,
    d2: spec_fn(T, T, u64) -> bool,
    a2: spec_fn(Seq<T>, T) -> bool,
    input: Seq<T>,
    start: Seq<T>,
    r: Result<Seq<T>, CentroidsFindError>,
)
    requires
        forall|a: T, b: T, x: u64| #[trigger] d1(a, b, x) ==> d2(a, b, x),
        forall|m: Seq<T>, v: T| #[trigger] a1(m, v) ==> a2(m, v),
        kmeans_outcome(d1, a1, input, start, r),
    ensures
        kmeans_outcome(d2, a2, input, start, r),
{
    match r {
        Ok(c) => {
            let (states, assigns) = choose|states: Seq<Seq<T>>, assigns: Seq<Seq<usize>>|
                #[trigger] settled_run(d1, a1, input, start, c, states, assigns);
            lemma_run_weaken(d1, a1, d2, a2, input, states, assigns);
            let n = states.len() as int;
            assert forall|i: int| 0 <= i < n - 2 implies moved_at_least(
                d2,
                #[trigger] states[i],
                states[i + 1],
                CONVERGE_THRESHOLD,
            ) by {
                assert(moved_at_least(d1, states[i], states[i + 1], CONVERGE_THRESHOLD));
                assert(moved_at_least(d2, states[i], states[i + 1], CONVERGE_THRESHOLD));
            }
            if converged(d1, states[n - 2], states[n - 1], CONVERGE_THRESHOLD) {
                assert(converged(d2, states[n - 2], states[n - 2 + 1], CONVERGE_THRESHOLD));
            } else {
                assert(converged(d2, states[n - 2], states[n - 2 + 1], CONVERGE_ENOUGH_THRESHOLD));
            }
            assert(settled_run(d2, a2, input, start, c, states, assigns));
        },
        Err(e) => {
            let (states, assigns) = choose|states: Seq<Seq<T>>, assigns: Seq<Seq<usize>>|
                #[trigger] unsettled_run(d1, a1, input, start, states, assigns);
            lemma_run_weaken(d1, a1, d2, a2, input, states, assigns);
            let m = ITERATION_MAX_COUNT as int;
            assert forall|i: int| 0 <= i <= m implies moved_at_least(
                d2,
                #[trigger] states[i],
                states[i + 1],
                CONVERGE_THRESHOLD,
            ) by {
                assert(moved_at_least(d1, states[i], states[i + 1], CONVERGE_THRESHOLD));
                assert(moved_at_least(d2, states[i], states[i + 1], CONVERGE_THRESHOLD));
            }
            assert(moved_at_least(d2, states[m], states[m + 1], CONVERGE_ENOUGH_THRESHOLD));
            assert(unsettled_run(d2, a2, input, start, states, assigns));
        },
    }
}

/// Runs k-means from the given starting centroids.
///
/// Each round assigns every item to its nearest centroid (the first one on
/// ties) and moves each centroid to the mean of its cluster; a centroid whose
/// cluster is empty stays where it was. The run ends when every centroid moved
/// by less than `CONVERGE_THRESHOLD`. Once more than `ITERATION_MAX_COUNT`
/// rounds have passed, a movement below `CONVERGE_ENOUGH_THRESHOLD` is
/// accepted, and otherwise the run fails with `TooManyIterations`.
pub fn find_centroids_from<T: Copy, D: Fn(&T, &T) -> u64, M: Fn(&[T]) -> T>(
    input: &[T],
    initial_centroids: Vec<T>,
    distance: D,
    mean: M,
) -> (r: Result<Vec<T>, CentroidsFindError>)
    requires
        initial_centroids@.len() > 0,
        callable_distance(distance),
        callable_mean(mean),
    ensures
        kmeans_outcome(
            measured_by(distance),
            averaged_by(mean),
            input@,
            initial_centroids@,
            result_view(r),
        ),
{
    let ghost dist = measured_by(distance);
    let ghost avg = averaged_by(mean);
    let mut centroids = initial_centroids;
    let mut iterations_count: usize = 0;
    let ghost mut states: Seq<Seq<T>> = seq![centroids@];
    let ghost mut assigns: Seq<Seq<usize>> = Seq::empty();
    loop
        invariant
            centroids@.len() == initial_centroids@.len(),
            centroids@.len() > 0,
            callable_distance(distance),
            callable_mean(mean),
            dist == measured_by(distance),
            avg == averaged_by(mean),
            iterations_count <= ITERATION_MAX_COUNT,
            lloyd_run(dist, avg, input@, states, assigns),
            states.len() == iterations_count + 1,
            states[0] == initial_centroids@,
            states[iterations_count as int] == centroids@,
            forall|i: int|
                0 <= i < iterations_count ==> moved_at_least(
                    dist,
                    #[trigger] states[i],
                    states[i + 1],
                    CONVERGE_THRESHOLD,
                ),
        decreases ITERATION_MAX_COUNT + 1 - iterations_count,
    {
        iterations_count += 1;
        let (clusters, Ghost(assign)) = create_clusters_assignment(
            input,
            centroids.as_slice(),
            &distance,
        );
        let next = create_centroids_from_clusters(&clusters, centroids.as_slice(), &mean);
        proof {
            assert(lloyd_step(dist, avg, input@, centroids@, assign, next@));
            let old_states = states;
            states = states.push(next@);
            assigns = assigns.push(assign);
            assert(forall|i: int| 0 <= i < old_states.len() ==> states[i] == old_states[i]);
            assert(lloyd_run(dist, avg, input@, states, assigns)) by {
                assert forall|i: int| 0 <= i < assigns.len() implies lloyd_step(
                    dist,
                    avg,
                    input@,
                    states[i],
                    #[trigger] assigns[i],
                    states[i + 1],
                ) by {
                    if i < assigns.len() - 1 {
                        assert(assigns[i] == assigns.drop_last()[i]);
                    }
                }
            }
        }
        if check_converges(centroids.as_slice(), next.as_slice(), CONVERGE_THRESHOLD, &distance) {
            proof {
                assert(settled_run(dist, avg, input@, initial_centroids@, next@, states, assigns));
            }
            return Ok(next);
        }
        if iterations_count > ITERATION_MAX_COUNT {
            if check_converges(
                centroids.as_slice(),
                next.as_slice(),
                CONVERGE_ENOUGH_THRESHOLD,
                &distance,
            ) {
                proof {
                    assert(settled_run(dist, avg, input@, initial_centroids@, next@, states, assigns));
                }
                return Ok(next);
            } else {
                proof {
                    assert(unsettled_run(dist, avg, input@, initial_centroids@, states, assigns));
                }
                return Err(CentroidsFindError::TooManyIterations);
            }
        }
        centroids = next;
    }
}

/// Relies on rand::seq::index::sample with the thread-local generator:
/// `amount` distinct indices below `length`, in random order. It panics when
/// `amount > length`, which `requires` leaves out.
#[verifier::external_body]
fn sample_distinct_indices(length: usize, amount: usize) -> (r: Vec<usize>)
    requires
        amount <= length,
    ensures
        r@.len() == amount,
        r@.no_duplicates(),
        forall|i: int| 0 <= i < r@.len() ==> #[trigger] r@[i] < length,
{
    rand::seq::index::sample(&mut rand::rng(), length, amount).into_vec()
}

/// Finds `centroids_count` centroids for `input` with k-means.
///
/// Fails with `InputEmpty` on an empty input, and with `TooManyCentroids` when
/// the input holds fewer items than asked for. When the counts are equal, every
/// item is its own centroid and the input comes back as it is. Otherwise the
/// starting centroids are the items at distinct positions drawn at random, and the run goes on
/// as `find_centroids_from` describes.
pub fn find_centroids<T: Copy, D: Fn(&T, &T) -> u64, M: Fn(&[T]) -> T>(
    input: &[T],
    centroids_count: usize,
    distance: D,
    mean: M,
) -> (r: Result<Vec<T>, CentroidsFindError>)
    requires
        callable_distance(distance),
        callable_mean(mean),
    ensures
        r matches Ok(c) ==> c@.len() == centroids_count,
        input@.len() == 0 <==> r == Err::<Vec<T>, _>(CentroidsFindError::InputEmpty),
        0 < input@.len() < centroids_count <==> r == Err::<Vec<T>, _>(
            CentroidsFindError::TooManyCentroids {
                expected: centroids_count,
                actual: input@.len() as usize,
            },
        ),
        0 < input@.len() == centroids_count ==> (r matches Ok(c) && c@ == input@),
        0 == centroids_count < input@.len() ==> (r matches Ok(c) && c@.len() == 0),
        0 < centroids_count < input@.len() ==> exists|picks: Seq<usize>|
            #[trigger] distinct_picks(picks, input@.len() as int, centroids_count as int)
                && kmeans_outcome(
                measured_by(distance),
                averaged_by(mean),
                input@,
                picked(input@, picks),
                result_view(r),
            ),
{
    validate_input(input, centroids_count)?;
    if input.len() == centroids_count {
        return Ok(vstd::slice::slice_to_vec(input));
    }
    if centroids_count == 0 {
        return Ok(Vec::new());
    }
    let picks = sample_distinct_indices(input.len(), centroids_count);
    let mut initial: Vec<T> = Vec::new();
    let mut i: usize = 0;
    while i < picks.len()
        invariant
            i <= picks@.len(),
            picks@.len() == centroids_count,
            forall|m: int| 0 <= m < picks@.len() ==> #[trigger] picks@[m] < input@.len(),
            initial@ == picked(input@, picks@.take(i as int)),
        decreases picks@.len() - i,
    {
        initial.push(input[picks[i]]);
        i += 1;
        proof {
            assert(initial@ =~= picked(input@, picks@.take(i as int)));
        }
    }
    proof {
        assert(picks@.take(picks@.len() as int) == picks@);
        assert(distinct_picks(picks@, input@.len() as int, centroids_count as int));
    }
    find_centroids_from(input, initial, distance, mean)
}

} // verus!
