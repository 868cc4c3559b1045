//! Seeding of the clustering: the first center at the most frequent group,
//! then repeated splitting of the costliest cluster at its farthest point.
use vstd::prelude::*;

use crate::color::{ColorType, Rgba8};
use crate::combination::{
    is_output, lemma_outputs_are_outputs, max_distance, normalized_combination_distance, outputs_of, uniform,
    ColorCombination, InputColorCombination, MAX_IMAGES,
};
use crate::grouping::{total_count, Grouped};
use crate::k_means::centers_uniform;

verus! {

/// The cost of cluster `c` over the first `n` groups: the sum of the
/// distance of each member times its count.
pub open spec fn cluster_cost(
    groups: Seq<Grouped<InputColorCombination>>,
    assignment: Seq<usize>,
    distances: Seq<u64>,
    c: int,
    n: int,
) -> int
    decreases n,
{
    if n <= 0 {
        0
    } else {
        cluster_cost(groups, assignment, distances, c, n - 1) + if assignment[n - 1] == c {
            distances[n - 1] * groups[n - 1].count
        } else {
            0
        }
    }
}

proof fn lemma_cluster_cost_bound(
    groups: Seq<Grouped<InputColorCombination>>,
    assignment: Seq<usize>,
    distances: Seq<u64>,
    c: int,
    n: int,
    bound: int,
)
    requires
        0 <= n <= groups.len(),
        n <= assignment.len(),
        n <= distances.len(),
        0 <= bound,
        forall|g: int| 0 <= g < n ==> #[trigger] distances[g] <= bound,
    ensures
        0 <= cluster_cost(groups, assignment, distances, c, n) <= bound * total_count(groups, n),
    decreases n,
{
    if n > 0 {
        lemma_cluster_cost_bound(groups, assignment, distances, c, n - 1, bound);
        let d = distances[n - 1] as int;
        let w = groups[n - 1].count as int;
        assert(0 <= d * w <= bound * w) by (nonlinear_arith)
            requires
                0 <= d <= bound,
                0 <= w,
        ;
        assert(bound * total_count(groups, n) == bound * total_count(groups, n - 1) + bound * w)
            by (nonlinear_arith)
            requires
                total_count(groups, n) == total_count(groups, n - 1) + w,
        ;
    }
}

proof fn lemma_cluster_cost_update(
    groups: Seq<Grouped<InputColorCombination>>,
    assignment: Seq<usize>,
    distances: Seq<u64>,
    p: int,
    new_cluster: usize,
    new_distance: u64,
    c: int,
    n: int,
)
    requires
        0 <= p < assignment.len(),
        p < distances.len(),
        0 <= n <= assignment.len(),
        n <= distances.len(),
    ensures
        cluster_cost(groups, assignment.update(p, new_cluster), distances.update(p, new_distance), c, n)
            == cluster_cost(groups, assignment, distances, c, n) - (if p < n && assignment[p] == c {
            distances[p] * groups[p].count
        } else {
            0
        }) + (if p < n && new_cluster == c {
            new_distance * groups[p].count
        } else {
            0
        }),
    decreases n,
{
    if n > 0 {
        lemma_cluster_cost_update(groups, assignment, distances, p, new_cluster, new_distance, c, n - 1);
    }
}

proof fn lemma_cluster_cost_term(
    groups: Seq<Grouped<InputColorCombination>>,
    assignment: Seq<usize>,
    distances: Seq<u64>,
    p: int,
    n: int,
)
    requires
        0 <= p < n <= groups.len(),
        n <= assignment.len(),
        n <= distances.len(),
    ensures
        distances[p] * groups[p].count <= cluster_cost(groups, assignment, distances, assignment[p] as int, n),
    decreases n,
{
    lemma_cluster_cost_bound(groups, assignment, distances, assignment[p] as int, n - 1, u64::MAX as int);
    if p < n - 1 {
        lemma_cluster_cost_term(groups, assignment, distances, p, n - 1);
        let g = n - 1;
        assert(0 <= distances[g] * groups[g].count) by (nonlinear_arith)
            requires
                0 <= distances[g],
                0 <= groups[g].count,
        ;
    }
}

proof fn lemma_cluster_cost_zero(
    groups: Seq<Grouped<InputColorCombination>>,
    assignment: Seq<usize>,
    distances: Seq<u64>,
    c: int,
    n: int,
)
    requires
        0 <= n <= assignment.len(),
        forall|g: int| 0 <= g < n ==> #[trigger] assignment[g] != c,
    ensures
        cluster_cost(groups, assignment, distances, c, n) == 0,
    decreases n,
{
    if n > 0 {
        lemma_cluster_cost_zero(groups, assignment, distances, c, n - 1);
    }
}

/// The cost of every cluster under the given assignment and distances.
pub fn cluster_costs(
    groups: &Vec<Grouped<InputColorCombination>>,
    assignment: &Vec<usize>,
    distances: &Vec<u64>,
    k: usize,
    n: usize,
) -> (r: Vec<u128>)
    requires
        n <= MAX_IMAGES,
        assignment.len() == groups.len(),
        distances.len() == groups.len(),
        forall|g: int| 0 <= g < assignment.len() ==> #[trigger] assignment@[g] < k,
        forall|g: int| 0 <= g < distances.len() ==> #[trigger] distances@[g] <= max_distance(n as int),
        total_count(groups@, groups.len() as int) <= u64::MAX,
    ensures
        r.len() == k,
        forall|c: int|
            0 <= c < k ==> #[trigger] r@[c] == cluster_cost(
                groups@,
                assignment@,
                distances@,
                c,
                groups.len() as int,
            ),
{
    let mut r: Vec<u128> = Vec::with_capacity(k);
    let mut c: usize = 0;
    while c < k
        invariant
            c <= k,
            r.len() == c,
            forall|c2: int| 0 <= c2 < c ==> #[trigger] r@[c2] == 0,
        decreases k - c,
    {
        r.push(0);
        c = c + 1;
    }
    let mut g: usize = 0;
    while g < groups.len()
        invariant
            g <= groups.len() == assignment.len() == distances.len(),
            n <= MAX_IMAGES,
            r.len() == k,
            forall|g2: int| 0 <= g2 < assignment.len() ==> #[trigger] assignment@[g2] < k,
            forall|g2: int| 0 <= g2 < distances.len() ==> #[trigger] distances@[g2] <= max_distance(n as int),
            total_count(groups@, groups.len() as int) <= u64::MAX,
            forall|c2: int|
                0 <= c2 < k ==> #[trigger] r@[c2] == cluster_cost(groups@, assignment@, distances@, c2, g as int),
        decreases groups.len() - g,
    {
        let c = assignment[g];
        let d = distances[g];
        let w = groups[g].count;
        proof {
            lemma_cluster_cost_bound(groups@, assignment@, distances@, c as int, g + 1, max_distance(n as int));
            lemma_total_count_monotone(groups@, g + 1, groups.len() as int);
            assert(max_distance(n as int) * total_count(groups@, g + 1) <= max_distance(MAX_IMAGES as int) * u64::MAX)
                by (nonlinear_arith)
                requires
                    0 <= max_distance(n as int) <= max_distance(MAX_IMAGES as int),
                    0 <= total_count(groups@, g + 1) <= u64::MAX,
            ;
            assert(0 <= d * w <= max_distance(MAX_IMAGES as int) * u64::MAX) by (nonlinear_arith)
                requires
                    0 <= d <= max_distance(MAX_IMAGES as int),
                    0 <= w <= u64::MAX,
            ;
        }
        let ghost old_r = r@;
        let add = d as u128 * w as u128;
        let cur = r[c];
        r.set(c, cur + add);
        assert forall|c2: int| 0 <= c2 < k implies #[trigger] r@[c2] == cluster_cost(groups@, assignment@, distances@, c2, g + 1) by {
            if c2 != c {
                assert(r@[c2] == old_r[c2]);
            }
        }
        g = g + 1;
    }
    r
}

proof fn lemma_total_count_monotone(groups: Seq<Grouped<InputColorCombination>>, m: int, n: int)
    requires
        0 <= m <= n <= groups.len(),
    ensures
        0 <= total_count(groups, m) <= total_count(groups, n),
    decreases n,
{
    if n > m {
        lemma_total_count_monotone(groups, m, n - 1);
    } else if n > 0 {
        lemma_total_count_monotone(groups, m - 1, n - 1);
    }
}

/// The cluster to split: of the clusters with members, the one of the
/// largest cost, the lowest index on a tie.
pub fn worst_cluster(distance_per_cluster: &Vec<u128>, cluster_per_point: &Vec<usize>) -> (r: usize)
    requires
        cluster_per_point.len() > 0,
        forall|g: int|
            0 <= g < cluster_per_point.len() ==> #[trigger] cluster_per_point@[g]
                < distance_per_cluster.len(),
    ensures
        exists|g: int| 0 <= g < cluster_per_point.len() && #[trigger] cluster_per_point@[g] == r,
        r < distance_per_cluster.len(),
        forall|g: int|
            0 <= g < cluster_per_point.len() ==> #[trigger] distance_per_cluster@[cluster_per_point@[g] as int]
                < distance_per_cluster@[r as int] || (distance_per_cluster@[cluster_per_point@[g] as int]
                == distance_per_cluster@[r as int] && r <= cluster_per_point@[g]),
{
    let mut best = cluster_per_point[0];
    let mut g: usize = 1;
    while g < cluster_per_point.len()
        invariant
            1 <= g <= cluster_per_point.len(),
            forall|g2: int|
                0 <= g2 < cluster_per_point.len() ==> #[trigger] cluster_per_point@[g2]
                    < distance_per_cluster.len(),
            exists|g2: int| 0 <= g2 < g && #[trigger] cluster_per_point@[g2] == best,
            best < distance_per_cluster.len(),
            forall|g2: int|
                0 <= g2 < g ==> #[trigger] distance_per_cluster@[cluster_per_point@[g2] as int]
                    < distance_per_cluster@[best as int] || (distance_per_cluster@[cluster_per_point@[g2] as int]
                    == distance_per_cluster@[best as int] && best <= cluster_per_point@[g2]),
        decreases cluster_per_point.len() - g,
    {
        let c = cluster_per_point[g];
        if distance_per_cluster[c] > distance_per_cluster[best] || (distance_per_cluster[c]
            == distance_per_cluster[best] && c < best) {
            best = c;
        }
        g = g + 1;
    }
    best
}

/// The member of `target_cluster` farthest from its center, the lowest
/// index on a tie.
pub fn farthest_point_of(
    target_cluster: usize,
    cluster_per_point: &Vec<usize>,
    distance_per_point: &Vec<u64>,
) -> (r: usize)
    requires
        cluster_per_point.len() == distance_per_point.len(),
        exists|g: int| 0 <= g < cluster_per_point.len() && #[trigger] cluster_per_point@[g] == target_cluster,
    ensures
        r < cluster_per_point.len(),
        cluster_per_point@[r as int] == target_cluster,
        forall|g: int|
            0 <= g < cluster_per_point.len() && #[trigger] cluster_per_point@[g] == target_cluster
                ==> distance_per_point@[g] < distance_per_point@[r as int] || (distance_per_point@[g]
                == distance_per_point@[r as int] && r <= g),
{
    let mut best: usize = 0;
    let mut found = false;
    let mut g: usize = 0;
    while g < cluster_per_point.len()
        invariant
            g <= cluster_per_point.len() == distance_per_point.len(),
            exists|g2: int| 0 <= g2 < cluster_per_point.len() && #[trigger] cluster_per_point@[g2] == target_cluster,
            found ==> best < g && cluster_per_point@[best as int] == target_cluster,
            !found ==> forall|g2: int| 0 <= g2 < g ==> #[trigger] cluster_per_point@[g2] != target_cluster,
            found ==> forall|g2: int|
                0 <= g2 < g && #[trigger] cluster_per_point@[g2] == target_cluster ==> distance_per_point@[g2]
                    < distance_per_point@[best as int] || (distance_per_point@[g2]
                    == distance_per_point@[best as int] && best <= g2),
        decreases cluster_per_point.len() - g,
    {
        if cluster_per_point[g] == target_cluster && (!found || distance_per_point[g]
            > distance_per_point[best]) {
            best = g;
            found = true;
        }
        g = g + 1;
    }
    best
}

/// The index of the first group of the largest count.
fn most_frequent(groups: &Vec<Grouped<InputColorCombination>>) -> (r: usize)
    requires
        groups.len() > 0,
    ensures
        r < groups.len(),
        forall|g: int| 0 <= g < groups.len() ==> #[trigger] groups@[g].count <= groups@[r as int].count,
        forall|g: int| 0 <= g < r ==> #[trigger] groups@[g].count < groups@[r as int].count,
{
    let mut best: usize = 0;
    let mut g: usize = 1;
    while g < groups.len()
        invariant
            1 <= g <= groups.len(),
            best < g,
            forall|g2: int| 0 <= g2 < g ==> #[trigger] groups@[g2].count <= groups@[best as int].count,
            forall|g2: int| 0 <= g2 < best ==> #[trigger] groups@[g2].count < groups@[best as int].count,
        decreases groups.len() - g,
    {
        if groups[g].count > groups[best].count {
            best = g;
        }
        g = g + 1;
    }
    best
}

/// `x` is the output combination of one of the groups.
pub open spec fn output_of_a_group(
    t: ColorType,
    groups: Seq<Grouped<InputColorCombination>>,
    x: Seq<Rgba8>,
) -> bool {
    exists|p: int| 0 <= p < groups.len() && x == outputs_of(t, #[trigger] groups[p].data@)
}

/// The normalized distance from group `g` to center `c`.
pub open spec fn seed_distance(
    t: ColorType,
    groups: Seq<Grouped<InputColorCombination>>,
    centers: Seq<ColorCombination>,
    g: int,
    c: int,
) -> int {
    normalized_combination_distance(t, groups[g].data@, centers[c]@)
}

/// Group `g` at distance `d` is assigned to center `a`, the first of the
/// centers nearest to it by normalized distance among the first `m`.
pub open spec fn seeded(
    t: ColorType,
    groups: Seq<Grouped<InputColorCombination>>,
    centers: Seq<ColorCombination>,
    g: int,
    a: int,
    d: int,
    m: int,
) -> bool {
    &&& 0 <= a < m
    &&& d == seed_distance(t, groups, centers, g, a)
    &&& forall|c: int| 0 <= c < m ==> d <= #[trigger] seed_distance(t, groups, centers, g, c)
    &&& forall|c: int| 0 <= c < a ==> d < #[trigger] seed_distance(t, groups, centers, g, c)
}

proof fn lemma_seed_step(
    t: ColorType,
    groups: Seq<Grouped<InputColorCombination>>,
    centers: Seq<ColorCombination>,
    new_center: ColorCombination,
    g: int,
    a: int,
    d: int,
    dn: int,
)
    requires
        seeded(t, groups, centers, g, a, d, centers.len() as int),
        dn == seed_distance(t, groups, centers.push(new_center), g, centers.len() as int),
    ensures
        seeded(
            t,
            groups,
            centers.push(new_center),
            g,
            if dn < d { centers.len() as int } else { a },
            if dn < d { dn } else { d },
            centers.len() + 1int,
        ),
{
    let grown = centers.push(new_center);
    assert forall|c: int| 0 <= c < centers.len() implies #[trigger] seed_distance(t, groups, grown, g, c)
        == seed_distance(t, groups, centers, g, c) by {
        assert(grown[c] == centers[c]);
    }
}

/// Each group is assigned to the first of the centers nearest to it by
/// normalized distance, among the first `m` centers.
pub open spec fn nearest_seed(
    t: ColorType,
    groups: Seq<Grouped<InputColorCombination>>,
    centers: Seq<ColorCombination>,
    assignment: Seq<usize>,
    m: int,
) -> bool {
    &&& assignment.len() == groups.len()
    &&& forall|g: int|
        0 <= g < groups.len() ==> #[trigger] seeded(
            t,
            groups,
            centers,
            g,
            assignment[g] as int,
            seed_distance(t, groups, centers, g, assignment[g] as int),
            m,
        )
}

/// Moves each group that is nearer to `new_center` than to its current
/// center over to it, as the center that comes after the others.
fn assign_to_new_center(
    groups: &Vec<Grouped<InputColorCombination>>,
    cluster_per_point: &mut Vec<usize>,
    distance_per_point: &mut Vec<u64>,
    distance_per_cluster: &mut Vec<u128>,
    centers: &Vec<ColorCombination>,
    new_center: &ColorCombination,
    color_type: ColorType,
    n: usize,
)
    requires
        old(cluster_per_point).len() == groups.len(),
        old(distance_per_point).len() == groups.len(),
        total_count(groups@, groups.len() as int) <= u64::MAX,
        old(distance_per_cluster).len() == centers.len() + 1,
        forall|c: int|
            0 <= c <= centers.len() ==> #[trigger] old(distance_per_cluster)@[c] == cluster_cost(
                groups@,
                old(cluster_per_point)@,
                old(distance_per_point)@,
                c,
                groups.len() as int,
            ),
        n <= MAX_IMAGES,
        uniform(groups@, n as int),
        new_center@.len() == n,
        forall|g2: int|
            0 <= g2 < groups.len() ==> #[trigger] seeded(
                color_type,
                groups@,
                centers@,
                g2,
                old(cluster_per_point)@[g2] as int,
                old(distance_per_point)@[g2] as int,
                centers.len() as int,
            ) && old(distance_per_point)@[g2] <= max_distance(n as int),
    ensures
        forall|g2: int|
            0 <= g2 < groups.len() ==> #[trigger] final(cluster_per_point)@[g2] == (if seed_distance(
                color_type,
                groups@,
                centers@.push(*new_center),
                g2,
                centers.len() as int,
            ) < old(distance_per_point)@[g2] {
                centers.len()
            } else {
                old(cluster_per_point)@[g2]
            }) && final(distance_per_point)@[g2] == (if seed_distance(
                color_type,
                groups@,
                centers@.push(*new_center),
                g2,
                centers.len() as int,
            ) < old(distance_per_point)@[g2] {
                seed_distance(color_type, groups@, centers@.push(*new_center), g2, centers.len() as int)
            } else {
                old(distance_per_point)@[g2] as int
            }),
        final(cluster_per_point).len() == groups.len(),
        final(distance_per_point).len() == groups.len(),
        final(distance_per_cluster).len() == centers.len() + 1,
        forall|c: int|
            0 <= c <= centers.len() ==> #[trigger] final(distance_per_cluster)@[c] == cluster_cost(
                groups@,
                final(cluster_per_point)@,
                final(distance_per_point)@,
                c,
                groups.len() as int,
            ),
        forall|g2: int|
            0 <= g2 < groups.len() ==> #[trigger] seeded(
                color_type,
                groups@,
                centers@.push(*new_center),
                g2,
                final(cluster_per_point)@[g2] as int,
                final(distance_per_point)@[g2] as int,
                centers.len() + 1int,
            ) && final(distance_per_point)@[g2] <= max_distance(n as int),
{
    let m = centers.len();
    let ghost grown = centers@.push(*new_center);
    let ghost start_a = cluster_per_point@;
    let ghost start_d = distance_per_point@;
    assert forall|g2: int| 0 <= g2 < groups.len() implies #[trigger] distance_per_point@[g2] <= max_distance(n as int) by {
        assert(seeded(color_type, groups@, centers@, g2, start_a[g2] as int, start_d[g2] as int, m as int));
    }
    let mut g: usize = 0;
    while g < groups.len()
        invariant
            g <= groups.len() == cluster_per_point.len() == distance_per_point.len(),
            n <= MAX_IMAGES,
            m == centers.len(),
            grown == centers@.push(*new_center),
            uniform(groups@, n as int),
            new_center@.len() == n,
            start_a.len() == groups.len(),
            start_d.len() == groups.len(),
            forall|g2: int|
                0 <= g2 < groups.len() ==> #[trigger] seeded(
                    color_type,
                    groups@,
                    centers@,
                    g2,
                    start_a[g2] as int,
                    start_d[g2] as int,
                    m as int,
                ) && start_d[g2] <= max_distance(n as int),
            forall|g2: int|
                0 <= g2 < g ==> #[trigger] cluster_per_point@[g2] == (if seed_distance(color_type, groups@, grown, g2, m as int)
                    < start_d[g2] {
                    m
                } else {
                    start_a[g2]
                }),
            forall|g2: int|
                0 <= g2 < g ==> #[trigger] distance_per_point@[g2] == (if seed_distance(color_type, groups@, grown, g2, m as int) < start_d[g2] {
                    seed_distance(color_type, groups@, grown, g2, m as int)
                } else {
                    start_d[g2] as int
                }),
            forall|g2: int| g <= g2 < groups.len() ==> #[trigger] cluster_per_point@[g2] == start_a[g2],
            forall|g2: int| g <= g2 < groups.len() ==> #[trigger] distance_per_point@[g2] == start_d[g2],
            forall|g2: int|
                0 <= g2 < g ==> #[trigger] seeded(
                    color_type,
                    groups@,
                    grown,
                    g2,
                    cluster_per_point@[g2] as int,
                    distance_per_point@[g2] as int,
                    m + 1,
                ),
            forall|g2: int| 0 <= g2 < groups.len() ==> #[trigger] distance_per_point@[g2] <= max_distance(n as int),
            total_count(groups@, groups.len() as int) <= u64::MAX,
            distance_per_cluster.len() == m + 1,
            forall|c: int|
                0 <= c <= m ==> #[trigger] distance_per_cluster@[c] == cluster_cost(
                    groups@,
                    cluster_per_point@,
                    distance_per_point@,
                    c,
                    groups.len() as int,
                ),
        decreases groups.len() - g,
    {
        assert(groups@[g as int].data@.len() == n);
        let d = groups[g].data.normalized_distance(color_type, new_center);
        proof {
            assert(grown[m as int] == *new_center);
            assert(cluster_per_point@[g as int] == start_a[g as int]);
            assert(seeded(color_type, groups@, centers@, g as int, cluster_per_point@[g as int] as int,
                distance_per_point@[g as int] as int, m as int));
            lemma_seed_step(color_type, groups@, centers@, *new_center, g as int,
                cluster_per_point@[g as int] as int, distance_per_point@[g as int] as int, d as int);
        }
        let ghost before_a = cluster_per_point@;
        let ghost before_d = distance_per_point@;
        if d < distance_per_point[g] {
            let old_cluster = cluster_per_point[g];
            let old_distance = distance_per_point[g];
            let w = groups[g].count;
            let ghost nn = groups.len() as int;
            proof {
                lemma_cluster_cost_term(groups@, before_a, before_d, g as int, nn);
                assert(0 <= old_distance * w <= max_distance(MAX_IMAGES as int) * u64::MAX) by (nonlinear_arith)
                    requires
                        0 <= old_distance <= max_distance(MAX_IMAGES as int),
                        0 <= w <= u64::MAX,
                ;
                assert(0 <= d * w <= max_distance(MAX_IMAGES as int) * u64::MAX) by (nonlinear_arith)
                    requires
                        0 <= d <= max_distance(MAX_IMAGES as int),
                        0 <= w <= u64::MAX,
                ;
                assert(before_a[g as int] < m);
            }
            let dec = old_distance as u128 * w as u128;
            let inc = d as u128 * w as u128;
            let ghost costs_before = distance_per_cluster@;
            let cur = distance_per_cluster[old_cluster];
            distance_per_cluster.set(old_cluster, cur - dec);
            distance_per_point.set(g, d);
            cluster_per_point.set(g, m);
            proof {
                assert(cluster_per_point@ == before_a.update(g as int, m));
                assert(distance_per_point@ == before_d.update(g as int, d));
                assert forall|c: int| 0 <= c <= m implies cluster_cost(groups@, cluster_per_point@, distance_per_point@, c, nn)
                    == cluster_cost(groups@, before_a, before_d, c, nn) - (if before_a[g as int] == c { dec as int } else { 0 })
                        + (if m == c { inc as int } else { 0 }) by {
                    lemma_cluster_cost_update(groups@, before_a, before_d, g as int, m, d, c, nn);
                }
                lemma_cluster_cost_bound(groups@, cluster_per_point@, distance_per_point@, m as int, nn, max_distance(n as int));
                lemma_total_count_monotone(groups@, nn, nn);
                assert(max_distance(n as int) * total_count(groups@, nn) <= max_distance(MAX_IMAGES as int) * u64::MAX)
                    by (nonlinear_arith)
                    requires
                        0 <= max_distance(n as int) <= max_distance(MAX_IMAGES as int),
                        0 <= total_count(groups@, nn) <= u64::MAX,
                ;
                assert(costs_before[m as int] == cluster_cost(groups@, before_a, before_d, m as int, nn));
            }
            let cur_new = distance_per_cluster[m];
            distance_per_cluster.set(m, cur_new + inc);
            proof {
                assert forall|c: int| 0 <= c <= m implies #[trigger] distance_per_cluster@[c] == cluster_cost(
                    groups@, cluster_per_point@, distance_per_point@, c, nn,
                ) by {
                    assert(costs_before[c] == cluster_cost(groups@, before_a, before_d, c, nn));
                }
            }
        }
        assert forall|g2: int|
            0 <= g2 < g + 1 implies #[trigger] cluster_per_point@[g2] == (if seed_distance(color_type, groups@, grown, g2, m as int)
                < start_d[g2] {
                m
            } else {
                start_a[g2]
            }) && #[trigger] distance_per_point@[g2] == (if seed_distance(color_type, groups@, grown, g2, m as int) < start_d[g2] {
                seed_distance(color_type, groups@, grown, g2, m as int)
            } else {
                start_d[g2] as int
            }) by {
            let sd = seed_distance(color_type, groups@, grown, g2, m as int);
            if g2 < g {
                assert(cluster_per_point@[g2] == before_a[g2] && distance_per_point@[g2] == before_d[g2]);
                assert(before_a[g2] == (if sd < start_d[g2] { m } else { start_a[g2] }));
            } else {
                assert(grown[m as int] == *new_center);
                assert(d == sd);
                assert(before_a[g2] == start_a[g2] && before_d[g2] == start_d[g2]);
            }
        }
        assert forall|g2: int| g + 1 <= g2 < groups.len() implies #[trigger] cluster_per_point@[g2] == start_a[g2] by {
            assert(cluster_per_point@[g2] == before_a[g2]);
        }
        assert forall|g2: int| g + 1 <= g2 < groups.len() implies #[trigger] distance_per_point@[g2] == start_d[g2] by {
            assert(distance_per_point@[g2] == before_d[g2]);
        }
        assert forall|g2: int| 0 <= g2 < groups.len() implies #[trigger] distance_per_point@[g2] <= max_distance(n as int) by {
            if g2 != g {
                assert(distance_per_point@[g2] == before_d[g2]);
            }
        }
        assert forall|g2: int| 0 <= g2 < g + 1 implies #[trigger] seeded(
            color_type, groups@, grown, g2, cluster_per_point@[g2] as int, distance_per_point@[g2] as int, m + 1,
        ) by {
            if g2 < g {
                assert(seeded(color_type, groups@, grown, g2, before_a[g2] as int, before_d[g2] as int, m + 1));
                assert(cluster_per_point@[g2] == before_a[g2] && distance_per_point@[g2] == before_d[g2]);
            } else {
                assert(grown == centers@.push(*new_center));
                if d < before_d[g2] {
                    assert(cluster_per_point@[g2] == m && distance_per_point@[g2] == d);
                } else {
                    assert(cluster_per_point@[g2] == before_a[g2] && distance_per_point@[g2] == before_d[g2]);
                }
                assert(start_d[g2] <= max_distance(n as int));
            }
        }
        g = g + 1;
    }
    assert forall|g2: int| 0 <= g2 < groups.len() implies #[trigger] seeded(
        color_type, groups@, centers@.push(*new_center), g2, cluster_per_point@[g2] as int,
        distance_per_point@[g2] as int, centers.len() + 1int,
    ) && distance_per_point@[g2] <= max_distance(n as int) by {
        assert(seeded(color_type, groups@, grown, g2, cluster_per_point@[g2] as int, distance_per_point@[g2] as int, m + 1));
    }
}

/// `far` is the group where seeding splits: the costliest cluster with
/// members (the lowest index on a tie), and in it the member farthest from
/// its center (the lowest index on a tie).
pub open spec fn split_point(
    groups: Seq<Grouped<InputColorCombination>>,
    assignment: Seq<usize>,
    distances: Seq<u64>,
    far: int,
) -> bool {
    let n = groups.len() as int;
    let w = assignment[far] as int;
    &&& 0 <= far < n
    &&& forall|g: int|
        0 <= g < n ==> cluster_cost(groups, assignment, distances, #[trigger] assignment[g] as int, n)
            < cluster_cost(groups, assignment, distances, w, n) || (cluster_cost(
            groups,
            assignment,
            distances,
            assignment[g] as int,
            n,
        ) == cluster_cost(groups, assignment, distances, w, n) && w <= assignment[g])
    &&& forall|g: int|
        0 <= g < n && #[trigger] assignment[g] == w ==> distances[g] < distances[far] || (distances[g]
            == distances[far] && far <= g)
}

/// The center that seeding assigns group `g` to among the first `m`
/// centers: the first of the nearest by normalized distance, as each new
/// center takes over the groups that are strictly nearer to it.
pub open spec fn first_nearest(
    t: ColorType,
    groups: Seq<Grouped<InputColorCombination>>,
    centers: Seq<ColorCombination>,
    m: int,
    g: int,
) -> int
    decreases m,
{
    if m <= 1 {
        0
    } else {
        let a = first_nearest(t, groups, centers, m - 1, g);
        if seed_distance(t, groups, centers, g, m - 1) < seed_distance(t, groups, centers, g, a) {
            m - 1
        } else {
            a
        }
    }
}

/// The assignment of every group under the first `m` centers.
pub open spec fn seed_assignment(
    t: ColorType,
    groups: Seq<Grouped<InputColorCombination>>,
    centers: Seq<ColorCombination>,
    m: int,
) -> Seq<usize> {
    Seq::new(groups.len(), |g: int| first_nearest(t, groups, centers, m, g) as usize)
}

/// The distance of every group to its center under the first `m` centers.
pub open spec fn seed_distances(
    t: ColorType,
    groups: Seq<Grouped<InputColorCombination>>,
    centers: Seq<ColorCombination>,
    m: int,
) -> Seq<u64> {
    Seq::new(
        groups.len(),
        |g: int| seed_distance(t, groups, centers, g, first_nearest(t, groups, centers, m, g)) as u64,
    )
}

/// Center `j` is the output of the split point under the first `j` centers.
pub open spec fn split_center(
    t: ColorType,
    groups: Seq<Grouped<InputColorCombination>>,
    centers: Seq<ColorCombination>,
    j: int,
) -> bool {
    exists|far: int|
        split_point(groups, seed_assignment(t, groups, centers, j), seed_distances(t, groups, centers, j), far)
            && centers[j]@ == outputs_of(t, #[trigger] groups[far].data@)
}

proof fn lemma_first_nearest_prefix(
    t: ColorType,
    groups: Seq<Grouped<InputColorCombination>>,
    c1: Seq<ColorCombination>,
    c2: Seq<ColorCombination>,
    m: int,
    g: int,
)
    requires
        m <= c1.len(),
        m <= c2.len(),
        forall|c: int| 0 <= c < m ==> #[trigger] c1[c]@ == c2[c]@,
    ensures
        first_nearest(t, groups, c1, m, g) == first_nearest(t, groups, c2, m, g),
        0 <= first_nearest(t, groups, c1, m, g) < if m >= 1 { m } else { 1 },
    decreases m,
{
    if m > 1 {
        lemma_first_nearest_prefix(t, groups, c1, c2, m - 1, g);
        let a = first_nearest(t, groups, c1, m - 1, g);
        assert(c1[a]@ == c2[a]@);
        assert(c1[m - 1]@ == c2[m - 1]@);
    }
}

proof fn lemma_seed_prefix(
    t: ColorType,
    groups: Seq<Grouped<InputColorCombination>>,
    c1: Seq<ColorCombination>,
    c2: Seq<ColorCombination>,
    m: int,
)
    requires
        1 <= m <= c1.len(),
        m <= c2.len(),
        forall|c: int| 0 <= c < m ==> #[trigger] c1[c]@ == c2[c]@,
    ensures
        seed_assignment(t, groups, c1, m) == seed_assignment(t, groups, c2, m),
        seed_distances(t, groups, c1, m) == seed_distances(t, groups, c2, m),
{
    assert forall|g: int| 0 <= g < groups.len() implies #[trigger] seed_assignment(t, groups, c1, m)[g]
        == seed_assignment(t, groups, c2, m)[g] by {
        lemma_first_nearest_prefix(t, groups, c1, c2, m, g);
    }
    assert forall|g: int| 0 <= g < groups.len() implies #[trigger] seed_distances(t, groups, c1, m)[g]
        == seed_distances(t, groups, c2, m)[g] by {
        lemma_first_nearest_prefix(t, groups, c1, c2, m, g);
        let a = first_nearest(t, groups, c1, m, g);
        assert(c1[a]@ == c2[a]@);
    }
    assert(seed_assignment(t, groups, c1, m) =~= seed_assignment(t, groups, c2, m));
    assert(seed_distances(t, groups, c1, m) =~= seed_distances(t, groups, c2, m));
}

/// The split point is unique: seeding has one way to choose each new
/// center.
pub proof fn lemma_split_point_unique(
    groups: Seq<Grouped<InputColorCombination>>,
    assignment: Seq<usize>,
    distances: Seq<u64>,
    f1: int,
    f2: int,
)
    requires
        split_point(groups, assignment, distances, f1),
        split_point(groups, assignment, distances, f2),
    ensures
        f1 == f2,
{
    let n = groups.len() as int;
    assert(assignment[f1] == assignment[f2]) by {
        assert(0 <= f1 < n && 0 <= f2 < n);
        let w1 = assignment[f1] as int;
        let w2 = assignment[f2] as int;
        assert(cluster_cost(groups, assignment, distances, assignment[f2] as int, n) < cluster_cost(groups, assignment, distances, w1, n)
            || (cluster_cost(groups, assignment, distances, assignment[f2] as int, n) == cluster_cost(groups, assignment, distances, w1, n) && w1 <= assignment[f2]));
        assert(cluster_cost(groups, assignment, distances, assignment[f1] as int, n) < cluster_cost(groups, assignment, distances, w2, n)
            || (cluster_cost(groups, assignment, distances, assignment[f1] as int, n) == cluster_cost(groups, assignment, distances, w2, n) && w2 <= assignment[f1]));
    }
}

/// One step of seeding: adds the output of the split point as a new center,
/// and moves each group that is nearer to it by normalized distance over to
/// it.
pub fn split_worst_cluster(
    groups: &Vec<Grouped<InputColorCombination>>,
    centers: &mut Vec<ColorCombination>,
    cluster_per_point: &mut Vec<usize>,
    distance_per_point: &mut Vec<u64>,
    distance_per_cluster: &mut Vec<u128>,
    color_type: ColorType,
    n: usize,
)
    requires
        1 <= old(centers).len(),
        n <= MAX_IMAGES,
        uniform(groups@, n as int),
        total_count(groups@, groups.len() as int) <= u64::MAX,
        centers_uniform(old(centers)@, n as int),
        old(distance_per_point).len() == groups.len(),
        nearest_seed(color_type, groups@, old(centers)@, old(cluster_per_point)@, old(centers).len() as int),
        forall|g: int|
            0 <= g < groups.len() ==> #[trigger] old(distance_per_point)@[g] == seed_distance(
                color_type,
                groups@,
                old(centers)@,
                g,
                old(cluster_per_point)@[g] as int,
            ) && old(distance_per_point)@[g] <= max_distance(n as int),
        forall|g: int| 0 <= g < groups.len() ==> #[trigger] old(cluster_per_point)@[g] < old(centers).len(),
        groups.len() >= 1,
        old(distance_per_cluster).len() == old(centers).len(),
        forall|c: int|
            0 <= c < old(centers).len() ==> #[trigger] old(distance_per_cluster)@[c] == cluster_cost(
                groups@,
                old(cluster_per_point)@,
                old(distance_per_point)@,
                c,
                groups.len() as int,
            ),
    ensures
        forall|g: int|
            0 <= g < groups.len() ==> #[trigger] final(cluster_per_point)@[g] == (if seed_distance(
                color_type,
                groups@,
                final(centers)@,
                g,
                old(centers).len() as int,
            ) < old(distance_per_point)@[g] {
                old(centers).len()
            } else {
                old(cluster_per_point)@[g]
            }),
        forall|g: int|
            0 <= g < groups.len() ==> #[trigger] final(distance_per_point)@[g] == (if seed_distance(
                color_type,
                groups@,
                final(centers)@,
                g,
                old(centers).len() as int,
            ) < old(distance_per_point)@[g] {
                seed_distance(color_type, groups@, final(centers)@, g, old(centers).len() as int)
            } else {
                old(distance_per_point)@[g] as int
            }),
        final(distance_per_cluster).len() == final(centers).len(),
        forall|c: int|
            0 <= c < final(centers).len() ==> #[trigger] final(distance_per_cluster)@[c] == cluster_cost(
                groups@,
                final(cluster_per_point)@,
                final(distance_per_point)@,
                c,
                groups.len() as int,
            ),
        final(centers).len() == old(centers).len() + 1,
        forall|c: int| 0 <= c < old(centers).len() ==> #[trigger] final(centers)@[c] == old(centers)@[c],
        exists|far: int|
            split_point(groups@, old(cluster_per_point)@, old(distance_per_point)@, far)
                && final(centers)@[old(centers).len() as int]@ == outputs_of(color_type, #[trigger] groups@[far].data@),
        centers_uniform(final(centers)@, n as int),
        final(distance_per_point).len() == groups.len(),
        nearest_seed(color_type, groups@, final(centers)@, final(cluster_per_point)@, final(centers).len() as int),
        forall|g: int|
            0 <= g < groups.len() ==> #[trigger] final(distance_per_point)@[g] == seed_distance(
                color_type,
                groups@,
                final(centers)@,
                g,
                final(cluster_per_point)@[g] as int,
            ) && final(distance_per_point)@[g] <= max_distance(n as int),
        forall|g: int| 0 <= g < groups.len() ==> #[trigger] final(cluster_per_point)@[g] < final(centers).len(),
{
    let m = centers.len();
    let worst = worst_cluster(&*distance_per_cluster, &*cluster_per_point);
    let ghost costs = distance_per_cluster@;
    let farthest = farthest_point_of(worst, &*cluster_per_point, &*distance_per_point);
    let new_center = groups[farthest].data.as_output(color_type);
    assert(groups@[farthest as int].data@.len() == n);
    let ghost grown = centers@.push(new_center);
    let ghost old_a = cluster_per_point@;
    let ghost old_d = distance_per_point@;
    proof {
        let nn = groups.len() as int;
        assert forall|g: int| 0 <= g < nn implies cluster_cost(groups@, old_a, old_d, #[trigger] old_a[g] as int, nn)
            < cluster_cost(groups@, old_a, old_d, worst as int, nn) || (cluster_cost(groups@, old_a, old_d, old_a[g] as int, nn)
            == cluster_cost(groups@, old_a, old_d, worst as int, nn) && worst <= old_a[g]) by {
            assert(costs[old_a[g] as int] == cluster_cost(groups@, old_a, old_d, old_a[g] as int, nn));
            assert(costs[worst as int] == cluster_cost(groups@, old_a, old_d, worst as int, nn));
        }
        assert(split_point(groups@, old_a, old_d, farthest as int));
    }
    assert forall|g2: int| 0 <= g2 < groups.len() implies #[trigger] seeded(
        color_type, groups@, centers@, g2, cluster_per_point@[g2] as int, distance_per_point@[g2] as int, m as int,
    ) && distance_per_point@[g2] <= max_distance(n as int) by {
        assert(distance_per_point@[g2] == seed_distance(color_type, groups@, centers@, g2, cluster_per_point@[g2] as int));
    }
    proof {
        lemma_cluster_cost_zero(groups@, old_a, old_d, m as int, groups.len() as int);
    }
    distance_per_cluster.push(0);
    assert forall|c: int| 0 <= c <= m implies #[trigger] distance_per_cluster@[c] == cluster_cost(
        groups@, old_a, old_d, c, groups.len() as int,
    ) by {
        if c < m {
            assert(distance_per_cluster@[c] == costs[c]);
        }
    }
    assign_to_new_center(groups, cluster_per_point, distance_per_point, distance_per_cluster, centers, &new_center, color_type, n);
    centers.push(new_center);
    assert(centers@ == grown);
    assert forall|g2: int| 0 <= g2 < groups.len() implies #[trigger] distance_per_point@[g2] == seed_distance(
        color_type, groups@, centers@, g2, cluster_per_point@[g2] as int,
    ) && distance_per_point@[g2] <= max_distance(n as int) && cluster_per_point@[g2] < centers.len() by {
        assert(seeded(color_type, groups@, grown, g2, cluster_per_point@[g2] as int, distance_per_point@[g2] as int, m + 1));
    }
    assert forall|g2: int| 0 <= g2 < groups.len() implies #[trigger] seeded(
        color_type, groups@, centers@, g2, cluster_per_point@[g2] as int,
        seed_distance(color_type, groups@, centers@, g2, cluster_per_point@[g2] as int), centers.len() as int,
    ) by {
        assert(seeded(color_type, groups@, grown, g2, cluster_per_point@[g2] as int, distance_per_point@[g2] as int, m + 1));
    }
    assert forall|g2: int| 0 <= g2 < groups.len() implies #[trigger] cluster_per_point@[g2] < centers.len() by {
        assert(seeded(color_type, groups@, grown, g2, cluster_per_point@[g2] as int, distance_per_point@[g2] as int, m + 1));
    }
    assert(centers@[m as int]@ == outputs_of(color_type, groups@[farthest as int].data@));
    assert forall|c: int| 0 <= c < m implies #[trigger] centers@[c] == old(centers)@[c] by {
        assert(centers@[c] == grown[c]);
    }
    assert forall|c: int| 0 <= c < centers.len() implies #[trigger] centers@[c]@.len() == n by {
        if c < m {
            assert(centers@[c] == grown[c]);
        }
    }
}

/// The position of group `g` among the centers when each group is its own
/// center: group `first` comes first, and group 0 takes its place.
pub open spec fn own_position(first: int, g: int) -> int {
    if g == 0 {
        first
    } else if g == first {
        0
    } else {
        g
    }
}

proof fn lemma_seed_update(
    t: ColorType,
    groups: Seq<Grouped<InputColorCombination>>,
    prior_centers: Seq<ColorCombination>,
    centers: Seq<ColorCombination>,
    prior_a: Seq<usize>,
    prior_d: Seq<u64>,
    a: Seq<usize>,
    d: Seq<u64>,
    g: int,
)
    requires
        0 <= g < groups.len(),
        1 <= prior_centers.len(),
        centers.len() == prior_centers.len() + 1,
        centers.len() <= usize::MAX,
        forall|g: int|
            0 <= g < groups.len() ==> #[trigger] prior_d[g] == seed_distance(
                t,
                groups,
                prior_centers,
                g,
                prior_a[g] as int,
            ),
        forall|c: int| 0 <= c < prior_centers.len() ==> #[trigger] centers[c] == prior_centers[c],
        prior_a == seed_assignment(t, groups, prior_centers, prior_centers.len() as int),
        prior_d == seed_distances(t, groups, prior_centers, prior_centers.len() as int),
        a.len() == groups.len(),
        d.len() == groups.len(),
        forall|g: int|
            0 <= g < groups.len() ==> #[trigger] a[g] == (if seed_distance(t, groups, centers, g, prior_centers.len() as int)
                < prior_d[g] {
                prior_centers.len() as int
            } else {
                prior_a[g] as int
            }),
        forall|g: int|
            0 <= g < groups.len() ==> #[trigger] d[g] == (if seed_distance(t, groups, centers, g, prior_centers.len() as int)
                < prior_d[g] {
                seed_distance(t, groups, centers, g, prior_centers.len() as int)
            } else {
                prior_d[g] as int
            }),
    ensures
        a[g] == seed_assignment(t, groups, centers, centers.len() as int)[g],
        d[g] == seed_distances(t, groups, centers, centers.len() as int)[g],
{
    let m = prior_centers.len() as int;
    assert forall|c: int| 0 <= c < m implies #[trigger] prior_centers[c]@ == centers[c]@ by {
        assert(centers[c] == prior_centers[c]);
    }
    lemma_first_nearest_prefix(t, groups, prior_centers, centers, m, g);
    let prev = first_nearest(t, groups, centers, m, g);
    assert(seed_assignment(t, groups, prior_centers, m)[g] == first_nearest(t, groups, prior_centers, m, g) as usize);
    assert(prior_a[g] == prev);
    assert(prior_centers[prev]@ == centers[prev]@);
    assert(prior_d[g] == seed_distance(t, groups, centers, g, prev));
    assert(seed_assignment(t, groups, centers, m + 1)[g] == first_nearest(t, groups, centers, m + 1, g) as usize);
    assert(seed_distances(t, groups, centers, m + 1)[g] == seed_distance(t, groups, centers, g, first_nearest(t, groups, centers, m + 1, g)) as u64);
}

#[verifier::rlimit(50)]
proof fn lemma_seed_history(
    t: ColorType,
    groups: Seq<Grouped<InputColorCombination>>,
    prior_centers: Seq<ColorCombination>,
    centers: Seq<ColorCombination>,
    prior_a: Seq<usize>,
    prior_d: Seq<u64>,
    a: Seq<usize>,
    d: Seq<u64>,
)
    requires
        1 <= prior_centers.len(),
        centers.len() == prior_centers.len() + 1,
        centers.len() <= usize::MAX,
        forall|g: int|
            0 <= g < groups.len() ==> #[trigger] prior_d[g] == seed_distance(
                t,
                groups,
                prior_centers,
                g,
                prior_a[g] as int,
            ),
        forall|c: int| 0 <= c < prior_centers.len() ==> #[trigger] centers[c] == prior_centers[c],
        prior_a == seed_assignment(t, groups, prior_centers, prior_centers.len() as int),
        prior_d == seed_distances(t, groups, prior_centers, prior_centers.len() as int),
        forall|j: int| 1 <= j < prior_centers.len() ==> #[trigger] split_center(t, groups, prior_centers, j),
        exists|far: int|
            split_point(groups, prior_a, prior_d, far) && centers[prior_centers.len() as int]@ == outputs_of(
                t,
                #[trigger] groups[far].data@,
            ),
        a.len() == groups.len(),
        d.len() == groups.len(),
        forall|g: int|
            0 <= g < groups.len() ==> #[trigger] a[g] == (if seed_distance(t, groups, centers, g, prior_centers.len() as int)
                < prior_d[g] {
                prior_centers.len() as int
            } else {
                prior_a[g] as int
            }),
        forall|g: int|
            0 <= g < groups.len() ==> #[trigger] d[g] == (if seed_distance(t, groups, centers, g, prior_centers.len() as int)
                < prior_d[g] {
                seed_distance(t, groups, centers, g, prior_centers.len() as int)
            } else {
                prior_d[g] as int
            }),
    ensures
        a == seed_assignment(t, groups, centers, centers.len() as int),
        d == seed_distances(t, groups, centers, centers.len() as int),
        forall|j: int| 1 <= j < centers.len() ==> #[trigger] split_center(t, groups, centers, j),
{
        let m = prior_centers.len() as int;
        assert forall|c: int| 0 <= c < m implies #[trigger] prior_centers[c]@ == centers[c]@ by {
            assert(centers[c] == prior_centers[c]);
        }
        lemma_seed_prefix(t, groups, prior_centers, centers, m);
        assert forall|g: int| 0 <= g < groups.len() implies #[trigger] a[g]
            == seed_assignment(t, groups, centers, m + 1)[g] by {
            lemma_seed_update(t, groups, prior_centers, centers, prior_a, prior_d, a, d, g);
        }
        assert forall|g: int| 0 <= g < groups.len() implies #[trigger] d[g]
            == seed_distances(t, groups, centers, m + 1)[g] by {
            lemma_seed_update(t, groups, prior_centers, centers, prior_a, prior_d, a, d, g);
        }
        assert(a =~= seed_assignment(t, groups, centers, m + 1));
        assert(d =~= seed_distances(t, groups, centers, m + 1));
        assert forall|j: int| 1 <= j < centers.len() implies #[trigger] split_center(t, groups, centers, j) by {
            if j < m {
                assert(split_center(t, groups, prior_centers, j));
                assert forall|c: int| 0 <= c < j implies #[trigger] prior_centers[c]@ == centers[c]@ by {
                    assert(centers[c] == prior_centers[c]);
                }
                lemma_seed_prefix(t, groups, prior_centers, centers, j);
                assert(centers[j] == prior_centers[j]);
                let far = choose|far: int|
                    split_point(groups, seed_assignment(t, groups, prior_centers, j), seed_distances(t, groups, prior_centers, j), far)
                        && prior_centers[j]@ == outputs_of(t, #[trigger] groups[far].data@);
                assert(groups[far] == groups[far]);
            } else {
                let far = choose|far: int| split_point(groups, prior_a, prior_d, far) && centers[m]@ == outputs_of(t, #[trigger] groups[far].data@);
                assert(groups[far] == groups[far]);
            }
        }
}

/// Each group as its own center, the group `first` first.
fn own_centers(
    groups: &Vec<Grouped<InputColorCombination>>,
    first: usize,
    color_type: ColorType,
    n: usize,
) -> (r: (Vec<ColorCombination>, Vec<usize>))
    requires
        uniform(groups@, n as int),
        first < groups.len(),
    ensures
        r.0.len() == groups.len(),
        centers_uniform(r.0@, n as int),
        r.1.len() == groups.len(),
        forall|g: int| 0 <= g < groups.len() ==> #[trigger] r.1@[g] < r.0.len(),
        forall|c: int| 0 <= c < r.0.len() ==> is_output(color_type, (#[trigger] r.0@[c])@),
        r.0@[0]@ == outputs_of(color_type, groups@[first as int].data@),
        forall|g: int|
            0 <= g < groups.len() ==> (#[trigger] r.1@[g]) == own_position(first as int, g)
                && r.0@[r.1@[g] as int]@ == outputs_of(color_type, groups@[g].data@),
{
    let mut centers: Vec<ColorCombination> = Vec::with_capacity(groups.len());
    let mut cluster_per_point: Vec<usize> = Vec::with_capacity(groups.len());
    let mut g: usize = 0;
    while g < groups.len()
        invariant
            g <= groups.len(),
            first < groups.len(),
            uniform(groups@, n as int),
            centers.len() == g,
            cluster_per_point.len() == g,
            forall|g2: int|
                0 <= g2 < g ==> (#[trigger] centers@[g2])@ == outputs_of(
                    color_type,
                    groups@[own_position(first as int, g2)].data@,
                ),
            forall|g2: int| 0 <= g2 < g ==> #[trigger] cluster_per_point@[g2] == own_position(first as int, g2),
        decreases groups.len() - g,
    {
        let source = if g == 0 {
            first
        } else if g == first {
            0
        } else {
            g
        };
        centers.push(groups[source].data.as_output(color_type));
        cluster_per_point.push(source);
        g = g + 1;
    }
    assert forall|c: int| 0 <= c < centers.len() implies #[trigger] centers@[c]@.len() == n
        && is_output(color_type, centers@[c]@) by {
        let src = own_position(first as int, c);
        assert(centers@[c]@ == outputs_of(color_type, groups@[src].data@));
        assert(groups@[src].data@.len() == n);
        lemma_outputs_are_outputs(color_type, groups@[src].data@, groups@, Seq::empty(), 0);
    }
    assert forall|g2: int| 0 <= g2 < groups.len() implies (#[trigger] cluster_per_point@[g2]) == own_position(first as int, g2)
        && cluster_per_point@[g2] < centers.len()
        && centers@[cluster_per_point@[g2] as int]@ == outputs_of(color_type, groups@[g2].data@) by {
        let c = own_position(first as int, g2);
        assert(own_position(first as int, c) == g2);
        assert(centers@[c]@ == outputs_of(color_type, groups@[own_position(first as int, c)].data@));
    }
    assert(centers@[0]@ == outputs_of(color_type, groups@[own_position(first as int, 0)].data@));
    (centers, cluster_per_point)
}

/// Chooses the initial centers and assignment. The first center is the
/// output of the first group of the largest count. With no more groups than
/// `k`, each group is its own center. Otherwise, while fewer than `k`
/// centers exist, the costliest cluster (by normalized distance times
/// count) is split at its farthest member, whose output becomes a new
/// center. Each group ends assigned to the first of its nearest centers by
/// normalized distance.
pub fn initialize_centers(
    k: usize,
    groups: &Vec<Grouped<InputColorCombination>>,
    color_type: ColorType,
    n: usize,
) -> (r: (Vec<ColorCombination>, Vec<usize>))
    requires
        k >= 1,
        groups.len() >= 1,
        n <= MAX_IMAGES,
        uniform(groups@, n as int),
        total_count(groups@, groups.len() as int) <= u64::MAX,
    ensures
        r.0.len() == if groups.len() <= k { groups.len() } else { k },
        centers_uniform(r.0@, n as int),
        r.1.len() == groups.len(),
        forall|g: int| 0 <= g < groups.len() ==> #[trigger] r.1@[g] < r.0.len(),
        forall|c: int| 0 <= c < r.0.len() ==> is_output(color_type, (#[trigger] r.0@[c])@),
        exists|p: int|
            0 <= p < groups.len() && r.0@[0]@ == outputs_of(color_type, groups@[p].data@)
                && (forall|g: int| 0 <= g < groups.len() ==> #[trigger] groups@[g].count <= groups@[p].count)
                && (forall|g: int| 0 <= g < p ==> #[trigger] groups@[g].count < groups@[p].count),
        groups.len() <= k ==> {
            &&& forall|g: int|
                0 <= g < groups.len() ==> r.0@[(#[trigger] r.1@[g]) as int]@ == outputs_of(color_type, groups@[g].data@)
            &&& forall|g1: int, g2: int|
                0 <= g1 < groups.len() && 0 <= g2 < groups.len() && g1 != g2 ==> #[trigger] r.1@[g1] != #[trigger] r.1@[g2]
        },
        groups.len() > k ==> {
            &&& forall|c: int| 0 <= c < r.0.len() ==> output_of_a_group(color_type, groups@, (#[trigger] r.0@[c])@)
            &&& forall|j: int| 1 <= j < r.0.len() ==> #[trigger] split_center(color_type, groups@, r.0@, j)
            &&& r.1@ == seed_assignment(color_type, groups@, r.0@, r.0.len() as int)
            &&& nearest_seed(color_type, groups@, r.0@, r.1@, r.0.len() as int)
        },
{
    let first = most_frequent(groups);
    if groups.len() <= k {
        let r = own_centers(groups, first, color_type, n);
        assert forall|g1: int, g2: int|
            0 <= g1 < groups.len() && 0 <= g2 < groups.len() && g1 != g2 implies #[trigger] r.1@[g1] != #[trigger] r.1@[g2] by {
            assert(r.1@[g1] == own_position(first as int, g1));
            assert(r.1@[g2] == own_position(first as int, g2));
        }
        assert forall|g: int| 0 <= g < groups.len() implies r.0@[(#[trigger] r.1@[g]) as int]@ == outputs_of(color_type, groups@[g].data@) by {
            assert(r.1@[g] == own_position(first as int, g));
        }
        return r;
    }
    let mut centers: Vec<ColorCombination> = Vec::with_capacity(k);
    let mut cluster_per_point: Vec<usize> = Vec::with_capacity(groups.len());
    let first_center = groups[first].data.as_output(color_type);
    assert(groups@[first as int].data@.len() == n);
    let mut distance_per_point: Vec<u64> = Vec::with_capacity(groups.len());
    let mut g: usize = 0;
    while g < groups.len()
        invariant
            g <= groups.len(),
            n <= MAX_IMAGES,
            uniform(groups@, n as int),
            first_center@.len() == n,
            distance_per_point.len() == g,
            cluster_per_point.len() == g,
            forall|g2: int|
                0 <= g2 < g ==> #[trigger] cluster_per_point@[g2] == 0 && distance_per_point@[g2]
                    == normalized_combination_distance(color_type, groups@[g2].data@, first_center@)
                    && distance_per_point@[g2] <= max_distance(n as int),
        decreases groups.len() - g,
    {
        assert(groups@[g as int].data@.len() == n);
        distance_per_point.push(groups[g].data.normalized_distance(color_type, &first_center));
        cluster_per_point.push(0);
        g = g + 1;
    }
    centers.push(first_center);
    assert forall|g: int| 0 <= g < distance_per_point.len() implies #[trigger] distance_per_point@[g] <= max_distance(n as int) by {
        assert(cluster_per_point@[g] == 0);
    }
    let mut distance_per_cluster = cluster_costs(groups, &cluster_per_point, &distance_per_point, 1, n);
    assert(cluster_per_point@ =~= seed_assignment(color_type, groups@, centers@, 1));
    assert forall|g: int| 0 <= g < groups.len() implies #[trigger] distance_per_point@[g]
        == seed_distances(color_type, groups@, centers@, 1)[g] by {
        assert(cluster_per_point@[g] == 0);
        assert(centers@[0] == first_center);
    }
    assert(distance_per_point@ =~= seed_distances(color_type, groups@, centers@, 1));
    while centers.len() < k
        invariant
            1 <= centers.len() <= k < groups.len(),
            n <= MAX_IMAGES,
            uniform(groups@, n as int),
            total_count(groups@, groups.len() as int) <= u64::MAX,
            centers_uniform(centers@, n as int),
            first < groups.len(),
            centers@[0]@ == outputs_of(color_type, groups@[first as int].data@),
            forall|g: int| 0 <= g < groups.len() ==> #[trigger] groups@[g].count <= groups@[first as int].count,
            forall|g: int| 0 <= g < first ==> #[trigger] groups@[g].count < groups@[first as int].count,
            forall|c: int| 0 <= c < centers.len() ==> output_of_a_group(color_type, groups@, (#[trigger] centers@[c])@),
            distance_per_point.len() == groups.len(),
            nearest_seed(color_type, groups@, centers@, cluster_per_point@, centers.len() as int),
            forall|g: int|
                0 <= g < groups.len() ==> #[trigger] distance_per_point@[g] == seed_distance(
                    color_type,
                    groups@,
                    centers@,
                    g,
                    cluster_per_point@[g] as int,
                ) && distance_per_point@[g] <= max_distance(n as int),
            forall|g: int| 0 <= g < groups.len() ==> #[trigger] cluster_per_point@[g] < centers.len(),
            distance_per_cluster.len() == centers.len(),
            forall|c: int|
                0 <= c < centers.len() ==> #[trigger] distance_per_cluster@[c] == cluster_cost(
                    groups@,
                    cluster_per_point@,
                    distance_per_point@,
                    c,
                    groups.len() as int,
                ),
            cluster_per_point@ == seed_assignment(color_type, groups@, centers@, centers.len() as int),
            distance_per_point@ == seed_distances(color_type, groups@, centers@, centers.len() as int),
            forall|j: int| 1 <= j < centers.len() ==> #[trigger] split_center(color_type, groups@, centers@, j),
        decreases k - centers.len(),
    {
        let ghost prior_centers = centers@;
        let ghost prior_a = cluster_per_point@;
        let ghost prior_d = distance_per_point@;
        split_worst_cluster(
            groups,
            &mut centers,
            &mut cluster_per_point,
            &mut distance_per_point,
            &mut distance_per_cluster,
            color_type,
            n,
        );
        assert forall|c: int| 0 <= c < centers.len() implies output_of_a_group(color_type, groups@, (#[trigger] centers@[c])@) by {
            if c + 1 < centers.len() {
                assert(centers@[c] == prior_centers[c]);
            } else {
                let far = choose|far: int| split_point(groups@, prior_a, prior_d, far) && centers@[centers.len() - 1]@ == outputs_of(color_type, #[trigger] groups@[far].data@);
            }
        }
        assert(centers@[0] == prior_centers[0]);
        proof {
            assert forall|c: int| 0 <= c < prior_centers.len() implies #[trigger] centers@[c] == prior_centers[c] by {}
            lemma_seed_history(color_type, groups@, prior_centers, centers@, prior_a, prior_d, cluster_per_point@, distance_per_point@);
        }
    }
    assert forall|c: int| 0 <= c < centers.len() implies is_output(color_type, (#[trigger] centers@[c])@) by {
        assert(output_of_a_group(color_type, groups@, centers@[c]@));
        let p = choose|p: int| 0 <= p < groups.len() && centers@[c]@ == outputs_of(color_type, #[trigger] groups@[p].data@);
        lemma_outputs_are_outputs(color_type, groups@[p].data@, groups@, Seq::empty(), 0);
    }
    (centers, cluster_per_point)
}

} // verus!
