//! Lloyd's algorithm over integer vectors: assign every item to its nearest
//! centroid, move every centroid to the mean of its members, repeat.

use crate::vector::{
    coords, copy_vector, dist2, distance_squared, equals, grid, ints, lemma_coords_injective, mean,
    mean_of, uniform,
};
use crate::features::{column_max, column_min};
use crate::random::random_below;
use rand::rngs::StdRng;
use vstd::prelude::*;

verus! {

/// The position of the centroid nearest to `item` among the first `n`; of
/// several at the same distance, the first.
pub open spec fn nearest_upto(item: Seq<int>, centroids: Seq<Seq<int>>, n: int) -> int
    decreases n,
{
    if n <= 1 {
        0
    } else {
        let best = nearest_upto(item, centroids, n - 1);
        if dist2(item, centroids[n - 1]) < dist2(item, centroids[best]) {
            n - 1
        } else {
            best
        }
    }
}

/// The position of the centroid nearest to `item`; of several at the same
/// distance, the first.
pub open spec fn nearest(item: Seq<int>, centroids: Seq<Seq<int>>) -> int {
    nearest_upto(item, centroids, centroids.len() as int)
}

/// The label of every item: the position of its nearest centroid.
pub open spec fn assignment(items: Seq<Seq<int>>, centroids: Seq<Seq<int>>) -> Seq<int> {
    Seq::new(items.len(), |i: int| nearest(items[i], centroids))
}

/// The positions below `n` that carry the label `c`, ascending.
pub open spec fn members_upto(labels: Seq<int>, c: int, n: int) -> Seq<int>
    decreases n,
{
    if n <= 0 {
        Seq::empty()
    } else if labels[n - 1] == c {
        members_upto(labels, c, n - 1).push(n - 1)
    } else {
        members_upto(labels, c, n - 1)
    }
}

/// For each of `k` labels, the positions that carry it, ascending.
pub open spec fn grouping(labels: Seq<int>, k: int) -> Seq<Seq<int>> {
    Seq::new(k as nat, |c: int| members_upto(labels, c, labels.len() as int))
}

/// The member lists as mathematical integers.
pub open spec fn int_lists(g: Seq<Vec<usize>>) -> Seq<Seq<int>> {
    Seq::new(g.len(), |c: int| ints(g[c]@))
}

/// The nearest centroid is no farther than any other, and strictly nearer
/// than every centroid before it.
pub proof fn lemma_nearest_is_closest(item: Seq<int>, centroids: Seq<Seq<int>>, n: int)
    requires
        1 <= n <= centroids.len(),
    ensures
        0 <= nearest_upto(item, centroids, n) < n,
        forall|j: int|
            0 <= j < n ==> dist2(item, centroids[nearest_upto(item, centroids, n)]) <= dist2(
                item,
                #[trigger] centroids[j],
            ),
        forall|j: int|
            0 <= j < nearest_upto(item, centroids, n) ==> dist2(
                item,
                centroids[nearest_upto(item, centroids, n)],
            ) < dist2(item, #[trigger] centroids[j]),
    decreases n,
{
    if n > 1 {
        lemma_nearest_is_closest(item, centroids, n - 1);
    }
}

/// The items and the centroids are vectors of one dimension.
pub open spec fn share_dimension(items: Seq<Seq<int>>, centroids: Seq<Seq<int>>) -> bool {
    exists|dim: int| uniform(items, dim) && uniform(centroids, dim)
}

/// The position of the centroid nearest to `item`, the first of several at
/// the same distance.
pub fn nearest_centroid(item: &Vec<i32>, centroids: &Vec<Vec<i32>>) -> (best: usize)
    requires
        centroids.len() > 0,
        uniform(grid(centroids@), item.len() as int),
    ensures
        best == nearest(coords(item@), grid(centroids@)),
        best < centroids.len(),
{
    let ghost it = coords(item@);
    let ghost cs = grid(centroids@);
    assert(cs[0].len() == item.len());
    let mut best: usize = 0;
    let mut best_dist: u128 = distance_squared(item, &centroids[0]);
    let mut j: usize = 1;
    while j < centroids.len()
        invariant
            1 <= j <= centroids.len(),
            it == coords(item@),
            cs == grid(centroids@),
            uniform(cs, item.len() as int),
            best == nearest_upto(it, cs, j as int),
            best < j,
            best_dist == dist2(it, cs[best as int]),
        decreases centroids.len() - j,
    {
        assert(cs[j as int].len() == item.len());
        let d = distance_squared(item, &centroids[j]);
        if d < best_dist {
            best = j;
            best_dist = d;
        }
        j += 1;
    }
    best
}

/// Assigns every item to its nearest centroid. Returns the label of each
/// item and, for each centroid, the positions of its items in ascending order.
pub fn get_labels(items: &Vec<Vec<i32>>, centroids: &Vec<Vec<i32>>) -> (result: (
    Vec<usize>,
    Vec<Vec<usize>>,
))
    requires
        centroids.len() > 0,
        share_dimension(grid(items@), grid(centroids@)),
    ensures
        result.0.len() == items.len(),
        result.1.len() == centroids.len(),
        ints(result.0@) == assignment(grid(items@), grid(centroids@)),
        int_lists(result.1@) == grouping(ints(result.0@), centroids.len() as int),
{
    let ghost dim = choose|dim: int| uniform(grid(items@), dim) && uniform(grid(centroids@), dim);
    let ghost all = assignment(grid(items@), grid(centroids@));
    let k = centroids.len();
    let mut groups: Vec<Vec<usize>> = Vec::new();
    let mut c: usize = 0;
    while c < k
        invariant
            c <= k,
            groups.len() == c,
            forall|x: int| 0 <= x < c ==> (#[trigger] groups@[x]).len() == 0,
        decreases k - c,
    {
        groups.push(Vec::new());
        c += 1;
    }
    let mut labels: Vec<usize> = Vec::new();
    let mut i: usize = 0;
    while i < items.len()
        invariant
            i <= items.len(),
            k == centroids.len(),
            k > 0,
            uniform(grid(items@), dim),
            uniform(grid(centroids@), dim),
            all == assignment(grid(items@), grid(centroids@)),
            labels.len() == i,
            forall|x: int| 0 <= x < i ==> #[trigger] labels@[x] as int == all[x],
            groups.len() == k,
            forall|x: int| 0 <= x < k ==> ints(#[trigger] groups@[x]@) == members_upto(all, x, i as int),
        decreases items.len() - i,
    {
        assert(grid(items@)[i as int].len() == dim);
        assert(grid(items@)[i as int] == coords(items@[i as int]@));
        let label = nearest_centroid(&items[i], centroids);
        let ghost before = groups@;
        groups[label].push(i);
        labels.push(label);
        proof {
            assert forall|x: int| 0 <= x < k implies ints(#[trigger] groups@[x]@) == members_upto(
                all,
                x,
                i + 1,
            ) by {
                if x == label {
                    assert(ints(groups@[x]@) =~= ints(before[x]@).push(i as int));
                } else {
                    assert(groups@[x] == before[x]);
                }
            }
        }
        i += 1;
    }
    proof {
        assert(ints(labels@) =~= all);
        assert(int_lists(groups@) =~= grouping(ints(labels@), k as int));
    }
    (labels, groups)
}

/// The centroids after an update: each the mean of its members, or where it
/// was when it has no member.
pub open spec fn updated(
    items: Seq<Seq<int>>,
    groups: Seq<Seq<int>>,
    previous: Seq<Seq<int>>,
) -> Seq<Seq<int>> {
    Seq::new(
        previous.len(),
        |c: int|
            if groups[c].len() == 0 {
                previous[c]
            } else {
                mean_of(items, groups[c], previous[c].len() as int)
            },
    )
}

/// Every member of every group is a position in a list of `count` items.
pub open spec fn groups_within(groups: Seq<Seq<int>>, count: int) -> bool {
    forall|c: int, t: int|
        0 <= c < groups.len() && 0 <= t < groups[c].len() ==> 0 <= #[trigger] groups[c][t] < count
}

/// Moves every centroid to the mean of its members; a centroid without
/// members stays where it was.
pub fn get_centroids(
    items: &Vec<Vec<i32>>,
    groups: &Vec<Vec<usize>>,
    previous: &Vec<Vec<i32>>,
) -> (next: Vec<Vec<i32>>)
    requires
        groups.len() == previous.len(),
        groups_within(int_lists(groups@), items.len() as int),
        share_dimension(grid(items@), grid(previous@)),
    ensures
        grid(next@) == updated(grid(items@), int_lists(groups@), grid(previous@)),
{
    let ghost gi = grid(items@);
    let ghost gg = int_lists(groups@);
    let ghost gp = grid(previous@);
    let ghost dim = choose|dim: int| uniform(gi, dim) && uniform(gp, dim);
    let ghost goal = updated(gi, gg, gp);
    let k = previous.len();
    let mut next: Vec<Vec<i32>> = Vec::new();
    let mut c: usize = 0;
    while c < k
        invariant
            c <= k,
            k == previous.len(),
            k == groups.len(),
            gi == grid(items@),
            gg == int_lists(groups@),
            gp == grid(previous@),
            goal == updated(gi, gg, gp),
            uniform(gi, dim),
            uniform(gp, dim),
            groups_within(gg, items.len() as int),
            next.len() == c,
            forall|x: int| 0 <= x < c ==> coords(#[trigger] next@[x]@) == goal[x],
        decreases k - c,
    {
        let group = &groups[c];
        assert(gg[c as int] == ints(group@));
        assert(gp[c as int] == coords(previous@[c as int]@));
        if group.len() == 0 {
            let kept = copy_vector(&previous[c]);
            next.push(kept);
        } else {
            let width = previous[c].len();
            assert(gp[c as int].len() == dim);
            proof {
                assert forall|t: int| 0 <= t < group.len() implies #[trigger] group@[t]
                    < items.len() by {
                    assert(gg[c as int][t] == group@[t]);
                }
                assert forall|i: int| 0 <= i < items.len() implies width == (
                #[trigger] items@[i]).len() by {
                    assert(gi[i].len() == dim);
                }
            }
            let moved = mean(items, group, width);
            next.push(moved);
        }
        c += 1;
    }
    proof {
        assert(grid(next@) =~= goal);
    }
    next
}

/// Whether two lists of centroids hold the same vectors in the same order.
pub fn same_centroids(a: &Vec<Vec<i32>>, b: &Vec<Vec<i32>>) -> (same: bool)
    ensures
        same == (grid(a@) == grid(b@)),
{
    if a.len() != b.len() {
        assert(grid(a@).len() != grid(b@).len());
        return false;
    }
    let mut i: usize = 0;
    while i < a.len()
        invariant
            i <= a.len(),
            a.len() == b.len(),
            forall|j: int| 0 <= j < i ==> (#[trigger] grid(a@)[j]) == grid(b@)[j],
        decreases a.len() - i,
    {
        let row_same = equals(&a[i], &b[i]);
        proof {
            lemma_coords_injective(a@[i as int]@, b@[i as int]@);
            assert(grid(a@)[i as int] == coords(a@[i as int]@));
            assert(grid(b@)[i as int] == coords(b@[i as int]@));
        }
        if !row_same {
            return false;
        }
        i += 1;
    }
    assert(grid(a@) =~= grid(b@));
    true
}

/// The cap on the number of rounds that callers use when they have no other.
pub const MAX_ITERATIONS: usize = 1000;

/// Whether the rounds end: once the count of rounds exceeds the cap, or once
/// an update has left every centroid where it was.
pub fn should_stop(
    old_centroids: &Vec<Vec<i32>>,
    centroids: &Vec<Vec<i32>>,
    iterations: usize,
    max_iterations: usize,
) -> (stop: bool)
    ensures
        stop == (iterations > max_iterations || grid(old_centroids@) == grid(centroids@)),
{
    if iterations > max_iterations {
        return true;
    }
    same_centroids(old_centroids, centroids)
}

/// One round: assign every item to its nearest centroid, then move every
/// centroid to the mean of its members.
pub open spec fn step(items: Seq<Seq<int>>, centroids: Seq<Seq<int>>) -> Seq<Seq<int>> {
    updated(items, grouping(assignment(items, centroids), centroids.len() as int), centroids)
}

/// The centroids after `n` rounds.
pub open spec fn iterate(items: Seq<Seq<int>>, centroids: Seq<Seq<int>>, n: nat) -> Seq<Seq<int>>
    decreases n,
{
    if n == 0 {
        centroids
    } else {
        step(items, iterate(items, centroids, (n - 1) as nat))
    }
}

/// Round `m` moved at least one centroid.
pub open spec fn changed_at(items: Seq<Seq<int>>, centroids: Seq<Seq<int>>, m: int) -> bool {
    iterate(items, centroids, m as nat) != iterate(items, centroids, (m - 1) as nat)
}

/// What a run of the engine returns.
pub struct Clustering {
    /// For each item, the position of its centroid.
    pub labels: Vec<usize>,
    /// The centroids after the last round.
    pub centroids: Vec<Vec<i32>>,
    /// For each centroid, the positions of its items, ascending.
    pub groups: Vec<Vec<usize>>,
    /// The number of rounds made.
    pub iterations: usize,
    /// Whether the last round left every centroid where it was.
    pub converged: bool,
}

/// `result` is what the engine owes for these items, initial centroids and cap.
///
/// The rounds end with the first one that moves no centroid, or at the cap.
/// The centroids are those after the last round; the labels and groups are
/// those of the last round's assignment, made against the centroids that
/// round began with. With a cap of zero no round is made and the items are
/// assigned to the initial centroids.
pub open spec fn is_run(
    result: Clustering,
    items: Seq<Seq<int>>,
    initial: Seq<Seq<int>>,
    max_iterations: int,
) -> bool {
    let n = result.iterations as int;
    let last = if n == 0 {
        0
    } else {
        n - 1
    };
    &&& n <= max_iterations
    &&& grid(result.centroids@) == iterate(items, initial, n as nat)
    &&& ints(result.labels@) == assignment(items, iterate(items, initial, last as nat))
    &&& int_lists(result.groups@) == grouping(ints(result.labels@), initial.len() as int)
    &&& result.converged == (n >= 1 && !changed_at(items, initial, n))
    &&& result.converged || n == max_iterations
    &&& forall|m: int| 1 <= m < n ==> #[trigger] changed_at(items, initial, m)
}

/// The members of a group are positions below `n`.
proof fn lemma_members_within(labels: Seq<int>, c: int, n: int)
    ensures
        forall|t: int|
            0 <= t < members_upto(labels, c, n).len() ==> 0 <= #[trigger] members_upto(
                labels,
                c,
                n,
            )[t] < n,
    decreases n,
{
    if n > 0 {
        lemma_members_within(labels, c, n - 1);
        let shorter = members_upto(labels, c, n - 1);
        let whole = members_upto(labels, c, n);
        assert forall|t: int| 0 <= t < whole.len() implies 0 <= #[trigger] whole[t] < n by {
            if t < shorter.len() {
                assert(whole[t] == shorter[t]);
            }
        }
    }
}

/// A grouping of the labels of `count` items names positions below `count`.
proof fn lemma_grouping_within(labels: Seq<int>, k: int)
    requires
        k >= 0,
    ensures
        groups_within(grouping(labels, k), labels.len() as int),
{
    let g = grouping(labels, k);
    assert forall|c: int, t: int| 0 <= c < g.len() && 0 <= t < g[c].len() implies 0
        <= #[trigger] g[c][t] < labels.len() by {
        lemma_members_within(labels, c, labels.len() as int);
    }
}

/// A round keeps the number of centroids and their dimension.
pub proof fn lemma_step_shape(items: Seq<Seq<int>>, centroids: Seq<Seq<int>>, dim: int)
    requires
        uniform(centroids, dim),
        dim >= 0,
    ensures
        step(items, centroids).len() == centroids.len(),
        uniform(step(items, centroids), dim),
{
    let next = step(items, centroids);
    assert forall|c: int| 0 <= c < next.len() implies (#[trigger] next[c]).len() == dim by {
        assert(centroids[c].len() == dim);
    }
}

/// Runs the rounds from the given centroids until one moves no centroid, or
/// until `max_iterations` rounds are made.
pub fn run_lloyd(items: &Vec<Vec<i32>>, initial: Vec<Vec<i32>>, max_iterations: usize) -> (result:
    Clustering)
    requires
        initial.len() > 0,
        share_dimension(grid(items@), grid(initial@)),
    ensures
        is_run(result, grid(items@), grid(initial@), max_iterations as int),
{
    let ghost gi = grid(items@);
    let ghost c0 = grid(initial@);
    let ghost dim = choose|dim: int| uniform(gi, dim) && uniform(c0, dim);
    assert(c0[0].len() == dim);
    if max_iterations == 0 {
        let (labels, groups) = get_labels(items, &initial);
        return Clustering { labels, centroids: initial, groups, iterations: 0, converged: false };
    }
    // Rounds are counted from zero: round `cap` is the last that may begin.

    let cap = max_iterations - 1;
    let mut old_centroids: Vec<Vec<i32>> = Vec::new();
    let mut centroids = initial;
    let mut labels: Vec<usize> = Vec::new();
    let mut groups: Vec<Vec<usize>> = Vec::new();
    let mut iterations: usize = 0;
    while !should_stop(&old_centroids, &centroids, iterations, cap)
        invariant
            cap + 1 == max_iterations,
            iterations <= max_iterations,
            gi == grid(items@),
            c0.len() > 0,
            dim >= 0,
            uniform(gi, dim),
            grid(centroids@) == iterate(gi, c0, iterations as nat),
            grid(centroids@).len() == c0.len(),
            uniform(grid(centroids@), dim),
            iterations == 0 ==> old_centroids@.len() == 0,
            iterations >= 1 ==> {
                &&& grid(old_centroids@) == iterate(gi, c0, (iterations - 1) as nat)
                &&& ints(labels@) == assignment(gi, iterate(gi, c0, (iterations - 1) as nat))
                &&& int_lists(groups@) == grouping(ints(labels@), c0.len() as int)
            },
            forall|m: int| 1 <= m < iterations ==> #[trigger] changed_at(gi, c0, m),
        decreases max_iterations - iterations,
    {
        proof {
            if iterations >= 1 {
                assert(changed_at(gi, c0, iterations as int));
            }
        }
        let (round_labels, round_groups) = get_labels(items, &centroids);
        proof {
            lemma_grouping_within(ints(round_labels@), c0.len() as int);
            assert(ints(round_labels@).len() == items.len());
            lemma_step_shape(gi, grid(centroids@), dim);
        }
        let next = get_centroids(items, &round_groups, &centroids);
        old_centroids = centroids;
        centroids = next;
        labels = round_labels;
        groups = round_groups;
        iterations += 1;
    }
    let converged = same_centroids(&old_centroids, &centroids);
    proof {
        if iterations == 0 {
            assert(grid(old_centroids@).len() == 0);
        }
    }
    Clustering { labels, centroids, groups, iterations, converged }
}

/// All positions of a list of `n` items, ascending.
pub open spec fn all_positions(n: int) -> Seq<int> {
    Seq::new(n as nat, |i: int| i)
}

/// When every one of the first `n` labels is `c`, the group of `c` is all of
/// the first `n` positions.
proof fn lemma_members_all(labels: Seq<int>, c: int, n: int)
    requires
        0 <= n <= labels.len(),
        forall|i: int| 0 <= i < n ==> #[trigger] labels[i] == c,
    ensures
        members_upto(labels, c, n) == all_positions(n),
    decreases n,
{
    if n > 0 {
        lemma_members_all(labels, c, n - 1);
        assert(all_positions(n - 1).push(n - 1) =~= all_positions(n));
    } else {
        assert(all_positions(n) =~= Seq::<int>::empty());
    }
}

/// With one centroid, a round gives every item the label zero and moves the
/// centroid to the mean of all items, wherever it was.
pub proof fn lemma_single_cluster_step(items: Seq<Seq<int>>, centroids: Seq<Seq<int>>)
    requires
        centroids.len() == 1,
        items.len() > 0,
    ensures
        assignment(items, centroids) == Seq::new(items.len(), |i: int| 0int),
        grouping(assignment(items, centroids), 1) == seq![all_positions(items.len() as int)],
        step(items, centroids) == seq![
            mean_of(items, all_positions(items.len() as int), centroids[0].len() as int),
        ],
{
    let labels = assignment(items, centroids);
    let n = items.len() as int;
    assert(labels =~= Seq::new(items.len(), |i: int| 0int));
    lemma_members_all(labels, 0, n);
    assert(grouping(labels, 1) =~= seq![all_positions(n)]);
    assert(step(items, centroids) =~= seq![mean_of(items, all_positions(n), centroids[0].len() as int)]);
}

/// A run with one centroid over at least one item, with a cap of one round or
/// more: every item is in the one cluster, whose centroid ends at the mean of
/// all items. At most two rounds are made. Exactly one is made when the
/// initial centroid already is that mean, or when the cap is one; otherwise
/// the first round moves the centroid and the second finds it unmoved.
pub proof fn lemma_single_cluster_run(
    result: Clustering,
    items: Seq<Seq<int>>,
    initial: Seq<Seq<int>>,
    max_iterations: int,
)
    requires
        is_run(result, items, initial, max_iterations),
        initial.len() == 1,
        items.len() > 0,
        max_iterations >= 1,
    ensures
        ints(result.labels@) == Seq::new(items.len(), |i: int| 0int),
        int_lists(result.groups@) == seq![all_positions(items.len() as int)],
        grid(result.centroids@) == seq![
            mean_of(items, all_positions(items.len() as int), initial[0].len() as int),
        ],
        1 <= result.iterations <= 2,
        max_iterations >= 2 ==> result.converged,
        result.iterations == 1 <==> (max_iterations == 1 || initial == seq![
            mean_of(items, all_positions(items.len() as int), initial[0].len() as int),
        ]),
{
    let n = result.iterations as int;
    let dim = initial[0].len() as int;
    let mean = seq![mean_of(items, all_positions(items.len() as int), dim)];
    lemma_single_cluster_step(items, initial);
    assert(iterate(items, initial, 1) == step(items, iterate(items, initial, 0)));
    assert(iterate(items, initial, 1) == mean);
    assert(mean[0].len() == dim);
    lemma_single_cluster_step(items, mean);
    assert(iterate(items, initial, 2) == step(items, iterate(items, initial, 1)));
    assert(iterate(items, initial, 2) == mean);
    assert(!changed_at(items, initial, 2));
    if n >= 3 {
        assert(changed_at(items, initial, 2));
    }
    if n == 2 {
        assert(changed_at(items, initial, 1));
    }
    let last = if n == 0 {
        0
    } else {
        n - 1
    };
    if last == 0 {
        lemma_single_cluster_step(items, initial);
    } else {
        assert(iterate(items, initial, last as nat) == mean);
    }
}

/// How the first centroids are chosen.
#[derive(Debug, Clone, Copy, PartialEq, Eq, Structural)]
pub enum InitPolicy {
    /// Each centroid is an item drawn at random; an item may be drawn twice.
    SampleItems,
    /// Each coordinate of each centroid is drawn at random between the
    /// smallest and the largest value that the items have there.
    WithinBounds,
}

/// Why no clustering was made.
#[derive(Debug, Clone, Copy, PartialEq, Eq, Structural)]
pub enum KMeansError {
    /// Zero clusters were asked for.
    InvalidK,
    /// There is no item to place a centroid by.
    NoItems,
    /// The items are not all of one dimension.
    MixedDimensions,
}

/// Every centroid is one of the items.
pub open spec fn drawn_from_items(centroids: Seq<Seq<int>>, items: Seq<Seq<int>>) -> bool {
    forall|c: int|
        0 <= c < centroids.len() ==> exists|i: int|
            0 <= i < items.len() && #[trigger] items[i] == #[trigger] centroids[c]
}

/// Every coordinate of the point lies between the smallest and the largest
/// value that the items have in that coordinate.
pub open spec fn within_bounds(p: Seq<int>, items: Seq<Seq<int>>) -> bool {
    forall|d: int|
        0 <= d < p.len() ==> column_min(items, d, items.len() as int) <= #[trigger] p[d]
            <= column_max(items, d, items.len() as int)
}

/// Every centroid lies within the bounds of the items.
pub open spec fn drawn_within_bounds(centroids: Seq<Seq<int>>, items: Seq<Seq<int>>) -> bool {
    forall|c: int| 0 <= c < centroids.len() ==> within_bounds(#[trigger] centroids[c], items)
}

/// What the policy promises of the first centroids.
pub open spec fn follows_policy(
    policy: InitPolicy,
    centroids: Seq<Seq<int>>,
    items: Seq<Seq<int>>,
) -> bool {
    match policy {
        InitPolicy::SampleItems => drawn_from_items(centroids, items),
        InitPolicy::WithinBounds => drawn_within_bounds(centroids, items),
    }
}

/// The items at the given positions, as fresh vectors.
pub fn pick_items(items: &Vec<Vec<i32>>, picks: &Vec<usize>) -> (out: Vec<Vec<i32>>)
    requires
        forall|c: int| 0 <= c < picks.len() ==> #[trigger] picks@[c] < items.len(),
    ensures
        out.len() == picks.len(),
        forall|c: int| 0 <= c < picks.len() ==> (#[trigger] out@[c])@ == items@[picks@[c] as int]@,
{
    let mut out: Vec<Vec<i32>> = Vec::new();
    let mut c: usize = 0;
    while c < picks.len()
        invariant
            c <= picks.len(),
            forall|c: int| 0 <= c < picks.len() ==> #[trigger] picks@[c] < items.len(),
            out.len() == c,
            forall|x: int| 0 <= x < c ==> (#[trigger] out@[x])@ == items@[picks@[x] as int]@,
        decreases picks.len() - c,
    {
        let p = picks[c];
        let v = copy_vector(&items[p]);
        out.push(v);
        c += 1;
    }
    out
}

/// The smallest and the largest value of coordinate `d` over the items.
fn column_range(items: &Vec<Vec<i32>>, d: usize) -> (bounds: (i32, i32))
    requires
        items.len() > 0,
        forall|i: int| 0 <= i < items.len() ==> d < (#[trigger] items@[i]).len(),
    ensures
        bounds.0 == column_min(grid(items@), d as int, items.len() as int),
        bounds.1 == column_max(grid(items@), d as int, items.len() as int),
        bounds.0 <= bounds.1,
{
    let ghost m = grid(items@);
    assert(m[0][d as int] == items@[0]@[d as int]);
    let mut lo: i32 = items[0][d];
    let mut hi: i32 = items[0][d];
    let mut i: usize = 1;
    while i < items.len()
        invariant
            1 <= i <= items.len(),
            m == grid(items@),
            forall|i: int| 0 <= i < items.len() ==> d < (#[trigger] items@[i]).len(),
            lo == column_min(m, d as int, i as int),
            hi == column_max(m, d as int, i as int),
            lo <= hi,
        decreases items.len() - i,
    {
        assert(m[i as int][d as int] == items@[i as int]@[d as int]);
        let v = items[i][d];
        if v < lo {
            lo = v;
        }
        if v > hi {
            hi = v;
        }
        i += 1;
    }
    (lo, hi)
}

/// The value that lies `offset` above `lo`.
pub fn offset_from(lo: i32, hi: i32, offset: u64) -> (v: i32)
    requires
        lo <= hi,
        offset <= hi - lo,
    ensures
        v == lo + offset,
{
    (lo as i64 + offset as i64) as i32
}

/// A point drawn at random within the bounds of the items: each coordinate
/// between the smallest and the largest value that the items have there.
pub fn random_point(items: &Vec<Vec<i32>>, rng: &mut StdRng) -> (p: Vec<i32>)
    requires
        items.len() > 0,
        exists|dim: int| uniform(grid(items@), dim),
    ensures
        p.len() == items@[0].len(),
        within_bounds(coords(p@), grid(items@)),
{
    let ghost m = grid(items@);
    let ghost dim = choose|dim: int| uniform(m, dim);
    let width = items[0].len();
    proof {
        assert(m[0].len() == width);
        assert forall|i: int| 0 <= i < items.len() implies (#[trigger] items@[i]).len()
            == width by {
            assert(m[i].len() == dim);
        }
    }
    let mut p: Vec<i32> = Vec::new();
    let mut d: usize = 0;
    while d < width
        invariant
            d <= width,
            items.len() > 0,
            m == grid(items@),
            forall|i: int| 0 <= i < items.len() ==> (#[trigger] items@[i]).len() == width,
            p.len() == d,
            forall|x: int|
                0 <= x < d ==> column_min(m, x, items.len() as int) <= #[trigger] p@[x]
                    <= column_max(m, x, items.len() as int),
        decreases width - d,
    {
        let (lo, hi) = column_range(items, d);
        let span: u64 = (hi as i64 - lo as i64 + 1) as u64;
        let offset = random_below(rng, span);
        let v = offset_from(lo, hi, offset);
        p.push(v);
        d += 1;
    }
    proof {
        assert forall|x: int| 0 <= x < coords(p@).len() implies column_min(
            m,
            x,
            items.len() as int,
        ) <= #[trigger] coords(p@)[x] <= column_max(m, x, items.len() as int) by {
            assert(coords(p@)[x] == p@[x]);
        }
    }
    p
}

/// The first `k` centroids, chosen by the policy with numbers drawn from `rng`.
pub fn initialize_centroids(
    items: &Vec<Vec<i32>>,
    k: usize,
    policy: InitPolicy,
    rng: &mut StdRng,
) -> (centroids: Vec<Vec<i32>>)
    requires
        items.len() > 0,
        exists|dim: int| uniform(grid(items@), dim),
    ensures
        centroids.len() == k,
        uniform(grid(centroids@), items@[0].len() as int),
        follows_policy(policy, grid(centroids@), grid(items@)),
{
    let ghost m = grid(items@);
    let ghost dim = choose|dim: int| uniform(m, dim);
    assert(m[0].len() == items@[0].len());
    match policy {
        InitPolicy::SampleItems => {
            let mut picks: Vec<usize> = Vec::new();
            let mut c: usize = 0;
            while c < k
                invariant
                    c <= k,
                    items.len() > 0,
                    picks.len() == c,
                    forall|x: int| 0 <= x < c ==> #[trigger] picks@[x] < items.len(),
                decreases k - c,
            {
                let drawn = random_below(rng, items.len() as u64);
                picks.push(drawn as usize);
                c += 1;
            }
            let centroids = pick_items(items, &picks);
            proof {
                let gc = grid(centroids@);
                assert forall|c: int| 0 <= c < gc.len() implies (#[trigger] gc[c]).len()
                    == items@[0].len() by {
                    assert(gc[c] == coords(items@[picks@[c] as int]@));
                    assert(m[picks@[c] as int].len() == dim);
                }
                assert forall|c: int| 0 <= c < gc.len() implies exists|i: int|
                    0 <= i < m.len() && #[trigger] m[i] == #[trigger] gc[c] by {
                    assert(gc[c] == coords(items@[picks@[c] as int]@));
                    assert(m[picks@[c] as int] == gc[c]);
                }
            }
            centroids
        },
        InitPolicy::WithinBounds => {
            let mut centroids: Vec<Vec<i32>> = Vec::new();
            let mut c: usize = 0;
            while c < k
                invariant
                    c <= k,
                    items.len() > 0,
                    m == grid(items@),
                    uniform(m, dim),
                    centroids.len() == c,
                    forall|x: int|
                        0 <= x < c ==> (#[trigger] grid(centroids@)[x]).len() == items@[0].len()
                            && within_bounds(grid(centroids@)[x], m),
                decreases k - c,
            {
                let ghost done = centroids@;
                let p = random_point(items, rng);
                centroids.push(p);
                proof {
                    assert forall|x: int| 0 <= x < c + 1 implies (#[trigger] grid(
                        centroids@,
                    )[x]).len() == items@[0].len() && within_bounds(grid(centroids@)[x], m) by {
                        if x < c {
                            assert(grid(centroids@)[x] == grid(done)[x]);
                        } else {
                            assert(grid(centroids@)[x] == coords(p@));
                        }
                    }
                }
                c += 1;
            }
            centroids
        },
    }
}

/// The dimension that all items share; `None` when they differ or there is
/// no item.
pub fn dimension_of(items: &Vec<Vec<i32>>) -> (dim: Option<usize>)
    ensures
        match dim {
            Some(d) => items.len() > 0 && uniform(grid(items@), d as int),
            None => items.len() == 0 || !exists|d: int| uniform(grid(items@), d),
        },
{
    if items.len() == 0 {
        return None;
    }
    let ghost m = grid(items@);
    let width = items[0].len();
    let mut i: usize = 1;
    while i < items.len()
        invariant
            1 <= i <= items.len(),
            m == grid(items@),
            width == items@[0].len(),
            forall|x: int| 0 <= x < i ==> (#[trigger] m[x]).len() == width,
        decreases items.len() - i,
    {
        if items[i].len() != width {
            proof {
                assert(m[0].len() == width);
                assert(m[i as int].len() != width);
            }
            return None;
        }
        i += 1;
    }
    Some(width)
}

/// `run` is the engine's run from some `k` centroids that follow the policy.
pub open spec fn is_seeded_run(
    run: Clustering,
    items: Seq<Seq<int>>,
    k: int,
    policy: InitPolicy,
    max_iterations: int,
) -> bool {
    exists|initial: Seq<Seq<int>>|
        {
            &&& initial.len() == k
            &&& uniform(initial, items[0].len() as int)
            &&& follows_policy(policy, initial, items)
            &&& #[trigger] is_run(run, items, initial, max_iterations)
        }
}

/// Clusters the items around `k` centroids: chooses the first centroids by
/// the policy, then runs the rounds until one moves no centroid or the cap
/// is reached.
///
/// Fails when `k` is zero, when there is no item, or when the items are not
/// of one dimension, in this order. Which centroids the run starts from
/// depends on the numbers drawn; whatever they are, they follow the policy
/// and the result is the run from them.
pub fn kmeans(
    items: &Vec<Vec<i32>>,
    k: usize,
    policy: InitPolicy,
    max_iterations: usize,
    rng: &mut StdRng,
) -> (result: Result<Clustering, KMeansError>)
    ensures
        k == 0 ==> result == Err::<Clustering, KMeansError>(KMeansError::InvalidK),
        k > 0 && items.len() == 0 ==> result == Err::<Clustering, KMeansError>(
            KMeansError::NoItems,
        ),
        k > 0 && items.len() > 0 && !(exists|d: int| uniform(grid(items@), d)) ==> result == Err::<
            Clustering,
            KMeansError,
        >(KMeansError::MixedDimensions),
        k > 0 && items.len() > 0 && (exists|d: int| uniform(grid(items@), d)) ==> result is Ok,
        result matches Ok(run) ==> is_seeded_run(
            run,
            grid(items@),
            k as int,
            policy,
            max_iterations as int,
        ),
{
    if k == 0 {
        return Err(KMeansError::InvalidK);
    }
    if items.len() == 0 {
        return Err(KMeansError::NoItems);
    }
    match dimension_of(items) {
        None => Err(KMeansError::MixedDimensions),
        Some(width) => {
            let initial = initialize_centroids(items, k, policy, rng);
            let ghost c0 = grid(initial@);
            proof {
                assert(grid(items@)[0].len() == items@[0].len());
                assert(uniform(grid(items@), width as int) && uniform(c0, width as int));
            }
            let run = run_lloyd(items, initial, max_iterations);
            proof {
                assert(c0.len() == k);
                assert(uniform(c0, grid(items@)[0].len() as int));
                assert(is_run(run, grid(items@), c0, max_iterations as int));
            }
            Ok(run)
        },
    }
}

} // verus!
