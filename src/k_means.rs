//! The refinement of a clustering: Lloyd's algorithm, with reassignment
//! pruned by the distances between centers.
use vstd::prelude::*;

use crate::color::{ColorType, Rgba8};
use crate::combination::{
    combination_distance, combination_mean, is_output, lemma_outputs_are_outputs, max_distance, mean_of,
    outputs_of, uniform, ColorCombination, InputColorCombination, MAX_IMAGES,
};
use crate::grouping::{compare, total_count, Grouped};
use crate::initializer::initialize_centers;

verus! {

/// Every center holds `n` colors.
pub open spec fn centers_uniform(centers: Seq<ColorCombination>, n: int) -> bool {
    forall|c: int| 0 <= c < centers.len() ==> #[trigger] centers[c]@.len() == n
}

/// The distance between centers `i` and `j`.
pub open spec fn center_distance(centers: Seq<ColorCombination>, i: int, j: int) -> int {
    combination_distance(centers[i]@, centers[j]@)
}

/// The distance from `x` to center `j`.
pub open spec fn point_distance(x: Seq<Rgba8>, centers: Seq<ColorCombination>, j: int) -> int {
    combination_distance(x, centers[j]@)
}

/// The order in which the other centers are scanned: by distance, then by
/// index.
pub open spec fn neighbor_lt(a: (usize, u64), b: (usize, u64)) -> bool {
    a.1 < b.1 || (a.1 == b.1 && a.0 < b.0)
}

/// `list` names center `j`.
pub open spec fn lists(list: Seq<(usize, u64)>, j: int) -> bool {
    exists|r: int| 0 <= r < list.len() && (#[trigger] list[r]).0 as int == j
}

/// `list` holds every center but `i` once, with its distance from center
/// `i`, nearest first.
pub open spec fn neighbors_of(centers: Seq<ColorCombination>, i: int, list: Seq<(usize, u64)>) -> bool {
    &&& forall|r: int|
        0 <= r < list.len() ==> (#[trigger] list[r]).0 < centers.len() && list[r].0 != i
            && list[r].1 == center_distance(centers, i, list[r].0 as int)
    &&& forall|r1: int, r2: int|
        0 <= r1 < r2 < list.len() ==> neighbor_lt(#[trigger] list[r1], #[trigger] list[r2])
    &&& forall|j: int| 0 <= j < centers.len() && j != i ==> #[trigger] lists(list, j)
}

/// For each center, the other centers sorted by their distance from it.
pub fn calculate_distances_between_centers(centers: &Vec<ColorCombination>, n: usize) -> (r: Vec<
    Vec<(usize, u64)>,
>)
    requires
        n <= MAX_IMAGES,
        centers_uniform(centers@, n as int),
    ensures
        r.len() == centers.len(),
        forall|i: int| 0 <= i < centers.len() ==> neighbors_of(centers@, i, #[trigger] r@[i]@),
{
    let k = centers.len();
    let mut result: Vec<Vec<(usize, u64)>> = Vec::with_capacity(k);
    let mut i: usize = 0;
    while i < k
        invariant
            i <= k == centers.len(),
            n <= MAX_IMAGES,
            centers_uniform(centers@, n as int),
            result.len() == i,
            forall|i2: int| 0 <= i2 < i ==> neighbors_of(centers@, i2, #[trigger] result@[i2]@),
        decreases k - i,
    {
        let mut list: Vec<(usize, u64)> = Vec::with_capacity(k);
        let mut j: usize = 0;
        while j < k
            invariant
                i < k == centers.len(),
                j <= k,
                n <= MAX_IMAGES,
                centers_uniform(centers@, n as int),
                forall|r: int|
                    0 <= r < list.len() ==> (#[trigger] list@[r]).0 < j && list@[r].0 != i
                        && list@[r].1 == center_distance(centers@, i as int, list@[r].0 as int),
                forall|r1: int, r2: int|
                    0 <= r1 < r2 < list.len() ==> neighbor_lt(#[trigger] list@[r1], #[trigger] list@[r2]),
                forall|j2: int| 0 <= j2 < j && j2 != i ==> #[trigger] lists(list@, j2),
            decreases k - j,
        {
            if j != i {
                assert(centers@[i as int]@.len() == n && centers@[j as int]@.len() == n);
                let d = centers[i].distance_to(&centers[j]);
                let mut pos: usize = 0;
                while pos < list.len() && list[pos].1 <= d
                    invariant
                        pos <= list.len(),
                        forall|r: int| 0 <= r < pos ==> (#[trigger] list@[r]).1 <= d,
                    decreases list.len() - pos,
                {
                    pos = pos + 1;
                }
                let ghost old_list = list@;
                list.insert(pos, (j, d));
                assert forall|r1: int, r2: int|
                    0 <= r1 < r2 < list.len() implies neighbor_lt(#[trigger] list@[r1], #[trigger] list@[r2]) by {
                    if r2 == pos {
                        assert(old_list[r1].0 < j);
                    } else if r1 == pos {
                        assert(list@[r2] == old_list[r2 - 1]);
                        if r2 - 1 > pos {
                            assert(neighbor_lt(old_list[pos as int], old_list[r2 - 1]));
                        }
                    } else if r2 < pos {
                        assert(list@[r1] == old_list[r1] && list@[r2] == old_list[r2]);
                    } else if r1 < pos {
                        assert(list@[r1] == old_list[r1] && list@[r2] == old_list[r2 - 1]);
                    } else {
                        assert(list@[r1] == old_list[r1 - 1] && list@[r2] == old_list[r2 - 1]);
                    }
                }
                assert forall|j2: int| 0 <= j2 < j + 1 && j2 != i implies #[trigger] lists(list@, j2) by {
                    if j2 == j {
                        assert(list@[pos as int].0 == j2);
                    } else {
                        assert(lists(old_list, j2));
                        let r = choose|r: int| 0 <= r < old_list.len() && (#[trigger] old_list[r]).0 as int == j2;
                        if r < pos {
                            assert(list@[r] == old_list[r]);
                        } else {
                            assert(list@[r + 1] == old_list[r]);
                        }
                    }
                }
            }
            j = j + 1;
        }
        result.push(list);
        i = i + 1;
    }
    result
}

/// Center `j` is tested for a data point `x` whose prior center is `i`:
/// `i` itself, and every other center nearer to `i` than four times the
/// distance from `x` to `i`. No center beyond that bound is nearer to `x`
/// than `i` where the square root of the distance obeys the triangle
/// inequality.
pub open spec fn scanned(x: Seq<Rgba8>, centers: Seq<ColorCombination>, i: int, j: int) -> bool {
    j == i || (0 <= j < centers.len() && center_distance(centers, i, j) < 4 * point_distance(
        x,
        centers,
        i,
    ))
}

/// `c` is the center that pruned reassignment picks for `x`, whose prior
/// center is `i`: the nearest of the tested centers; on a tie the prior
/// center, else the one nearest to `i`, else the one of lowest index.
pub open spec fn pruned_choice(x: Seq<Rgba8>, centers: Seq<ColorCombination>, i: int, c: int) -> bool {
    &&& scanned(x, centers, i, c)
    &&& forall|j: int|
        #[trigger] scanned(x, centers, i, j) ==> point_distance(x, centers, c) <= point_distance(
            x,
            centers,
            j,
        )
    &&& point_distance(x, centers, c) == point_distance(x, centers, i) ==> c == i
    &&& forall|j: int|
        #[trigger] scanned(x, centers, i, j) && j != i && c != i && point_distance(x, centers, j)
            == point_distance(x, centers, c) ==> center_distance(centers, i, c) < center_distance(
            centers,
            i,
            j,
        ) || (center_distance(centers, i, c) == center_distance(centers, i, j) && c <= j)
}

/// Assigns each group to a center by pruned reassignment from its prior
/// center.
pub fn assign_to_clusters(
    groups: &Vec<Grouped<InputColorCombination>>,
    centers: &Vec<ColorCombination>,
    prior: &Vec<usize>,
    n: usize,
) -> (r: Vec<usize>)
    requires
        n <= MAX_IMAGES,
        uniform(groups@, n as int),
        centers_uniform(centers@, n as int),
        prior.len() == groups.len(),
        forall|g: int| 0 <= g < prior.len() ==> #[trigger] prior@[g] < centers.len(),
    ensures
        r.len() == groups.len(),
        forall|g: int|
            0 <= g < r.len() ==> #[trigger] r@[g] < centers.len() && pruned_choice(
                groups@[g].data@,
                centers@,
                prior@[g] as int,
                r@[g] as int,
            ),
{
    let neighbors = calculate_distances_between_centers(centers, n);
    let mut result: Vec<usize> = Vec::with_capacity(groups.len());
    let mut g: usize = 0;
    while g < groups.len()
        invariant
            g <= groups.len() == prior.len(),
            n <= MAX_IMAGES,
            uniform(groups@, n as int),
            centers_uniform(centers@, n as int),
            forall|g2: int| 0 <= g2 < prior.len() ==> #[trigger] prior@[g2] < centers.len(),
            neighbors.len() == centers.len(),
            forall|i: int| 0 <= i < centers.len() ==> neighbors_of(centers@, i, #[trigger] neighbors@[i]@),
            result.len() == g,
            forall|g2: int|
                0 <= g2 < g ==> #[trigger] result@[g2] < centers.len() && pruned_choice(
                    groups@[g2].data@,
                    centers@,
                    prior@[g2] as int,
                    result@[g2] as int,
                ),
        decreases groups.len() - g,
    {
        let point = &groups[g].data;
        let i = prior[g];
        let ghost x = point@;
        assert(x.len() == n && centers@[i as int]@.len() == n);
        let to_prior = point.distance_to(&centers[i]);
        let list = &neighbors[i];
        assert(neighbors_of(centers@, i as int, list@));
        let mut best = i;
        let mut best_distance = to_prior;
        let mut q: usize = 0;
        let mut stopped = false;
        while q < list.len() && !stopped
            invariant
                q <= list.len(),
                i < centers.len(),
                g < groups.len(),
                x == groups@[g as int].data@,
                point@ == x,
                x.len() == n <= MAX_IMAGES,
                centers_uniform(centers@, n as int),
                neighbors_of(centers@, i as int, list@),
                to_prior == point_distance(x, centers@, i as int),
                to_prior <= max_distance(n as int),
                best < centers.len(),
                best_distance == point_distance(x, centers@, best as int),
                scanned(x, centers@, i as int, best as int),
                forall|r: int| 0 <= r < q ==> #[trigger] scanned(x, centers@, i as int, list@[r].0 as int),
                forall|r: int| 0 <= r < q ==> best_distance <= point_distance(x, centers@, (#[trigger] list@[r]).0 as int),
                best_distance <= to_prior,
                best_distance == to_prior ==> best == i,
                best != i ==> exists|rb: int| 0 <= rb < q && (#[trigger] list@[rb]).0 == best && forall|r: int|
                    0 <= r < rb ==> best_distance < point_distance(x, centers@, (#[trigger] list@[r]).0 as int),
                stopped ==> q < list.len() && 4 * to_prior <= list@[q as int].1,
            decreases list.len() - q + (if stopped { 0int } else { 1int }),
        {
            let (j, between) = list[q];
            if to_prior * 4 <= between {
                stopped = true;
            } else {
                assert(centers@[j as int]@.len() == n);
                let d = point.distance_to(&centers[j]);
                if d < best_distance {
                    best = j;
                    best_distance = d;
                    assert(list@[q as int].0 == best);
                }
                q = q + 1;
            }
        }
        proof {
            assert forall|j: int| #[trigger] scanned(x, centers@, i as int, j) implies best_distance
                <= point_distance(x, centers@, j) by {
                if j != i {
                    assert(lists(list@, j));
                    let r = choose|r: int| 0 <= r < list@.len() && (#[trigger] list@[r]).0 as int == j;
                    if r >= q {
                        if r > q {
                            assert(neighbor_lt(list@[q as int], list@[r]));
                        }
                    }
                }
            }
            assert forall|j: int|
                #[trigger] scanned(x, centers@, i as int, j) && j != i && best != i && point_distance(x, centers@, j)
                    == point_distance(x, centers@, best as int) implies center_distance(centers@, i as int, best as int)
                    < center_distance(centers@, i as int, j) || (center_distance(centers@, i as int, best as int)
                    == center_distance(centers@, i as int, j) && best <= j) by {
                assert(lists(list@, j));
                let r = choose|r: int| 0 <= r < list@.len() && (#[trigger] list@[r]).0 as int == j;
                let rb = choose|rb: int| 0 <= rb < q && (#[trigger] list@[rb]).0 == best && forall|r: int|
                    0 <= r < rb ==> best_distance < point_distance(x, centers@, (#[trigger] list@[r]).0 as int);
                if r < rb {
                    assert(best_distance < point_distance(x, centers@, list@[r].0 as int));
                } else if r > rb {
                    assert(neighbor_lt(list@[rb], list@[r]));
                }
            }
        }
        result.push(best);
        g = g + 1;
    }
    result
}

/// The center nearest to `x` by a full scan: the first of the nearest.
pub fn nearest(x: &InputColorCombination, centers: &Vec<ColorCombination>) -> (r: usize)
    requires
        centers.len() > 0,
        x@.len() <= MAX_IMAGES,
        centers_uniform(centers@, x@.len() as int),
    ensures
        r < centers.len(),
        forall|j: int|
            0 <= j < centers.len() ==> point_distance(x@, centers@, r as int)
                <= #[trigger] point_distance(x@, centers@, j),
        forall|j: int|
            0 <= j < r ==> point_distance(x@, centers@, r as int) < #[trigger] point_distance(
                x@,
                centers@,
                j,
            ),
{
    assert(centers@[0]@.len() == x@.len());
    let mut best: usize = 0;
    let mut best_distance = x.distance_to(&centers[0]);
    let mut j: usize = 1;
    while j < centers.len()
        invariant
            1 <= j <= centers.len(),
            best < j,
            x@.len() <= MAX_IMAGES,
            centers_uniform(centers@, x@.len() as int),
            best_distance == point_distance(x@, centers@, best as int),
            forall|j2: int| 0 <= j2 < j ==> best_distance <= #[trigger] point_distance(x@, centers@, j2),
            forall|j2: int| 0 <= j2 < best ==> best_distance < #[trigger] point_distance(x@, centers@, j2),
        decreases centers.len() - j,
    {
        assert(centers@[j as int]@.len() == x@.len());
        let d = x.distance_to(&centers[j]);
        if d < best_distance {
            best = j;
            best_distance = d;
        }
        j = j + 1;
    }
    best
}

/// Pruned reassignment gives the partition of a full scan over all centers
/// (`nearest`) wherever pruning drops no nearer center: each point goes to
/// a nearest center, and where that nearest center is unique, to the one
/// that the full scan finds.
pub proof fn lemma_pruning_exact(x: Seq<Rgba8>, centers: Seq<ColorCombination>, i: int, c: int, nearest: int)
    requires
        0 <= i < centers.len(),
        pruned_choice(x, centers, i, c),
        forall|j: int|
            0 <= j < centers.len() && 4 * point_distance(x, centers, i) <= center_distance(
                centers,
                i,
                j,
            ) ==> point_distance(x, centers, i) <= #[trigger] point_distance(x, centers, j),
        0 <= nearest < centers.len(),
        forall|j: int|
            0 <= j < centers.len() ==> point_distance(x, centers, nearest)
                <= #[trigger] point_distance(x, centers, j),
        forall|j: int|
            0 <= j < centers.len() && j != nearest ==> point_distance(x, centers, nearest)
                < #[trigger] point_distance(x, centers, j),
    ensures
        forall|j: int|
            0 <= j < centers.len() ==> point_distance(x, centers, c) <= #[trigger] point_distance(
                x,
                centers,
                j,
            ),
        c == nearest,
{
    assert forall|j: int| 0 <= j < centers.len() implies point_distance(x, centers, c)
        <= #[trigger] point_distance(x, centers, j) by {
        if !scanned(x, centers, i, j) {
            assert(scanned(x, centers, i, i));
        }
    }
    if c != nearest {
        assert(point_distance(x, centers, c) <= point_distance(x, centers, nearest));
    }
}

/// Pruned reassignment has one outcome: two centers that both meet its
/// rule are the same center.
pub proof fn lemma_pruned_choice_unique(x: Seq<Rgba8>, centers: Seq<ColorCombination>, i: int, c1: int, c2: int)
    requires
        pruned_choice(x, centers, i, c1),
        pruned_choice(x, centers, i, c2),
    ensures
        c1 == c2,
{
    assert(scanned(x, centers, i, c1) && scanned(x, centers, i, c2));
}

/// The groups assigned to center `c`, among the first `n`, in order.
pub open spec fn members_of(assignment: Seq<usize>, c: int, n: int) -> Seq<usize>
    decreases n,
{
    if n <= 0 {
        Seq::empty()
    } else if assignment[n - 1] == c {
        members_of(assignment, c, n - 1).push((n - 1) as usize)
    } else {
        members_of(assignment, c, n - 1)
    }
}

pub proof fn lemma_members_of(assignment: Seq<usize>, c: int, n: int)
    requires
        0 <= n <= assignment.len() <= usize::MAX,
    ensures
        forall|r: int|
            0 <= r < members_of(assignment, c, n).len() ==> #[trigger] members_of(assignment, c, n)[r]
                < n && assignment[members_of(assignment, c, n)[r] as int] == c,
        (exists|g: int| 0 <= g < n && assignment[g] == c) ==> members_of(assignment, c, n).len() > 0,
    decreases n,
{
    if n > 0 {
        lemma_members_of(assignment, c, n - 1);
        let prev = members_of(assignment, c, n - 1);
        let cur = members_of(assignment, c, n);
        assert forall|r: int| 0 <= r < cur.len() implies #[trigger] cur[r] < n && assignment[cur[r] as int]
            == c by {
            if r < prev.len() {
                assert(cur[r] == prev[r]);
            } else {
                assert(cur[r] == (n - 1) as usize);
            }
        }
    }
}

/// The groups of each cluster: the indexes of the groups assigned to each
/// center, in increasing order.
pub fn points_per_cluster(assignment: &Vec<usize>, k: usize) -> (r: Vec<Vec<usize>>)
    requires
        forall|g: int| 0 <= g < assignment.len() ==> #[trigger] assignment@[g] < k,
    ensures
        r.len() == k,
        forall|c: int| 0 <= c < k ==> (#[trigger] r@[c])@ == members_of(assignment@, c, assignment.len() as int),
{
    let mut r: Vec<Vec<usize>> = Vec::with_capacity(k);
    let mut c: usize = 0;
    while c < k
        invariant
            c <= k,
            r.len() == c,
            forall|c2: int| 0 <= c2 < c ==> (#[trigger] r@[c2])@ == Seq::<usize>::empty(),
        decreases k - c,
    {
        r.push(Vec::new());
        c = c + 1;
    }
    let mut g: usize = 0;
    while g < assignment.len()
        invariant
            g <= assignment.len(),
            r.len() == k,
            forall|g2: int| 0 <= g2 < assignment.len() ==> #[trigger] assignment@[g2] < k,
            forall|c2: int| 0 <= c2 < k ==> (#[trigger] r@[c2])@ == members_of(assignment@, c2, g as int),
        decreases assignment.len() - g,
    {
        let c = assignment[g];
        let ghost old_r = r@;
        r[c].push(g);
        assert forall|c2: int| 0 <= c2 < k implies (#[trigger] r@[c2])@ == members_of(assignment@, c2, g + 1) by {
            if c2 != c {
                assert(r@[c2] == old_r[c2]);
            }
        }
        g = g + 1;
    }
    r
}

/// Moves each center with members to the mean of its members; a center
/// without members stays where it is.
pub fn reposition_centers(
    centers: &mut Vec<ColorCombination>,
    groups: &Vec<Grouped<InputColorCombination>>,
    members: &Vec<Vec<usize>>,
    color_type: ColorType,
    n: usize,
)
    requires
        uniform(groups@, n as int),
        centers_uniform(old(centers)@, n as int),
        members.len() == old(centers).len(),
        forall|c: int| 0 <= c < old(centers).len() ==> is_output(color_type, (#[trigger] old(centers)@[c])@),
        forall|c: int, r: int|
            0 <= c < members.len() && 0 <= r < members@[c]@.len() ==> #[trigger] members@[c]@[r]
                < groups.len(),
    ensures
        final(centers).len() == old(centers).len(),
        centers_uniform(final(centers)@, n as int),
        forall|c: int| 0 <= c < final(centers).len() ==> is_output(color_type, (#[trigger] final(centers)@[c])@),
        forall|c: int|
            0 <= c < members.len() ==> (#[trigger] final(centers)@[c])@ == if members@[c]@.len() > 0 {
                combination_mean(color_type, groups@, members@[c]@, n as int)
            } else {
                old(centers)@[c]@
            },
{
    let ghost start = centers@;
    let mut c: usize = 0;
    while c < members.len()
        invariant
            c <= members.len() == centers.len() == start.len(),
            uniform(groups@, n as int),
            centers_uniform(centers@, n as int),
            forall|c2: int, r: int|
                0 <= c2 < members.len() && 0 <= r < members@[c2]@.len() ==> #[trigger] members@[c2]@[r]
                    < groups.len(),
            forall|c2: int| c <= c2 < members.len() ==> (#[trigger] centers@[c2])@ == start[c2]@,
            forall|c2: int| 0 <= c2 < members.len() ==> is_output(color_type, (#[trigger] centers@[c2])@),
            forall|c2: int|
                0 <= c2 < c ==> (#[trigger] centers@[c2])@ == if members@[c2]@.len() > 0 {
                    combination_mean(color_type, groups@, members@[c2]@, n as int)
                } else {
                    start[c2]@
                },
        decreases members.len() - c,
    {
        if members[c].len() > 0 {
            let points = &members[c];
            assert forall|r: int| 0 <= r < points.len() implies #[trigger] points@[r] < groups.len() by {
                assert(members@[c as int]@[r] < groups.len());
            }
            assert(points@[0] < groups.len());
            assert(groups@[points@[0] as int].data@.len() == n);
            let mean = mean_of(groups, points, color_type);
            proof {
                lemma_outputs_are_outputs(color_type, Seq::empty(), groups@, points@, n as int);
            }
            let ghost before = centers@;
            centers.set(c, mean);
            assert forall|c2: int| 0 <= c2 < members.len() implies is_output(color_type, (#[trigger] centers@[c2])@) by {
                if c2 != c {
                    assert(centers@[c2] == before[c2]);
                }
            }
        }
        c = c + 1;
    }
}

/// Among the first `m` centers, the number that equal an earlier one.
pub open spec fn duplicate_count(centers: Seq<ColorCombination>, m: int) -> int
    decreases m,
{
    if m <= 0 {
        0
    } else {
        duplicate_count(centers, m - 1) + if exists|c: int| 0 <= c < m - 1 && #[trigger] centers[c]@ == centers[m - 1]@ {
            1int
        } else {
            0int
        }
    }
}

proof fn lemma_duplicate_count_bound(centers: Seq<ColorCombination>, m: int)
    requires
        0 <= m,
    ensures
        0 <= duplicate_count(centers, m) <= m,
    decreases m,
{
    if m > 0 {
        lemma_duplicate_count_bound(centers, m - 1);
    }
}

/// The number of centers that duplicate an earlier center exactly: palette
/// entries that a seeding wasted.
pub fn duplicate_centers(centers: &Vec<ColorCombination>) -> (r: usize)
    ensures
        r == duplicate_count(centers@, centers.len() as int),
{
    let mut count: usize = 0;
    let mut m: usize = 0;
    while m < centers.len()
        invariant
            m <= centers.len(),
            count == duplicate_count(centers@, m as int),
        decreases centers.len() - m,
    {
        proof {
            lemma_duplicate_count_bound(centers@, m as int);
        }
        let mut c: usize = 0;
        let mut found = false;
        while c < m && !found
            invariant
                c <= m < centers.len(),
                found ==> exists|c2: int| 0 <= c2 < m && #[trigger] centers@[c2]@ == centers@[m as int]@,
                !found ==> forall|c2: int| 0 <= c2 < c ==> #[trigger] centers@[c2]@ != centers@[m as int]@,
            decreases m - c + (if found { 0int } else { 1int }),
        {
            if compare(&centers[c].colors, &centers[m].colors) == 0 {
                assert(centers@[c as int]@ == centers@[m as int]@);
                found = true;
            } else {
                c = c + 1;
            }
        }
        if found {
            count = count + 1;
        }
        m = m + 1;
    }
    count
}

/// Among the first `m` centers, the number that no group is assigned to.
pub open spec fn empty_count(assignment: Seq<usize>, m: int) -> int
    decreases m,
{
    if m <= 0 {
        0
    } else {
        empty_count(assignment, m - 1) + if members_of(assignment, m - 1, assignment.len() as int).len() == 0 {
            1int
        } else {
            0int
        }
    }
}

/// The number of the `k` clusters that have no members.
pub fn empty_clusters(assignment: &Vec<usize>, k: usize) -> (r: usize)
    requires
        forall|g: int| 0 <= g < assignment.len() ==> #[trigger] assignment@[g] < k,
    ensures
        r == empty_count(assignment@, k as int),
{
    let members = points_per_cluster(assignment, k);
    let mut count: usize = 0;
    let mut c: usize = 0;
    while c < k
        invariant
            c <= k,
            members.len() == k,
            forall|c2: int| 0 <= c2 < k ==> (#[trigger] members@[c2])@ == members_of(assignment@, c2, assignment.len() as int),
            count == empty_count(assignment@, c as int),
            count <= c,
        decreases k - c,
    {
        assert(members@[c as int]@ == members_of(assignment@, c as int, assignment.len() as int));
        if members[c].len() == 0 {
            count = count + 1;
        }
        c = c + 1;
    }
    count
}

/// The most refinement rounds that `run` makes before it gives up waiting
/// for a fixed point.
pub const MAX_ITERATIONS: usize = 1000;

/// A clustering of groups: the centers, the center of each group, whether
/// refinement reached a fixed point and after how many rounds, how many
/// centers ended without members, and how many seeded centers were
/// duplicates.
pub struct Clustering {
    pub centers: Vec<ColorCombination>,
    pub cluster_per_group: Vec<usize>,
    pub converged: bool,
    /// The rounds of refinement made.
    pub iterations: usize,
    /// The centers that no group is assigned to.
    pub empty_clusters: usize,
    /// The seeded centers that duplicated an earlier one.
    pub duplicate_centers: usize,
}

/// A fixed point of refinement: each center with members is the mean of its
/// members, and pruned reassignment keeps every group where it is.
pub open spec fn stable(
    t: ColorType,
    groups: Seq<Grouped<InputColorCombination>>,
    centers: Seq<ColorCombination>,
    assignment: Seq<usize>,
    n: int,
) -> bool {
    &&& forall|c: int|
        0 <= c < centers.len() && members_of(assignment, c, assignment.len() as int).len() > 0
            ==> (#[trigger] centers[c])@ == combination_mean(
            t,
            groups,
            members_of(assignment, c, assignment.len() as int),
            n,
        )
    &&& forall|g: int|
        0 <= g < groups.len() ==> pruned_choice(
            groups[g].data@,
            centers,
            #[trigger] assignment[g] as int,
            assignment[g] as int,
        )
}

/// `centers` and `assignment` are one round of refinement from the
/// assignment `prev`: each center with members under `prev` is their mean,
/// and each group is reassigned by pruned reassignment from its center
/// under `prev`.
pub open spec fn refined_from(
    t: ColorType,
    groups: Seq<Grouped<InputColorCombination>>,
    centers: Seq<ColorCombination>,
    prev: Seq<usize>,
    assignment: Seq<usize>,
    n: int,
) -> bool {
    &&& prev.len() == groups.len()
    &&& forall|g: int| 0 <= g < groups.len() ==> #[trigger] prev[g] < centers.len()
    &&& forall|c: int|
        0 <= c < centers.len() && members_of(prev, c, prev.len() as int).len() > 0
            ==> (#[trigger] centers[c])@ == combination_mean(t, groups, members_of(prev, c, prev.len() as int), n)
    &&& forall|g: int|
        0 <= g < groups.len() ==> pruned_choice(
            groups[g].data@,
            centers,
            #[trigger] prev[g] as int,
            assignment[g] as int,
        )
}

fn same_assignment(a: &Vec<usize>, b: &Vec<usize>) -> (r: bool)
    ensures
        r == (a@ == b@),
{
    if a.len() != b.len() {
        return false;
    }
    let mut i: usize = 0;
    while i < a.len()
        invariant
            i <= a.len() == b.len(),
            forall|j: int| 0 <= j < i ==> a@[j] == b@[j],
        decreases a.len() - i,
    {
        if a[i] != b[i] {
            return false;
        }
        i = i + 1;
    }
    assert(a@ =~= b@);
    true
}

/// Quantizes the groups to at most `k` centers: seeding, then rounds of
/// repositioning every center at the mean of its members and pruned
/// reassignment, until the assignment no longer changes or the round limit
/// is reached. With no more groups than `k` each group keeps its own output
/// as its center, and nothing is refined.
pub fn run(
    groups: &Vec<Grouped<InputColorCombination>>,
    color_type: ColorType,
    k: usize,
) -> (r: Clustering)
    requires
        k >= 1,
        groups.len() >= 1,
        groups@[0].data@.len() <= MAX_IMAGES,
        uniform(groups@, groups@[0].data@.len() as int),
        total_count(groups@, groups.len() as int) <= u64::MAX,
    ensures
        r.centers.len() == if groups.len() <= k { groups.len() } else { k },
        centers_uniform(r.centers@, groups@[0].data@.len() as int),
        r.cluster_per_group.len() == groups.len(),
        forall|g: int| 0 <= g < groups.len() ==> #[trigger] r.cluster_per_group@[g] < r.centers.len(),
        forall|c: int| 0 <= c < r.centers.len() ==> is_output(color_type, (#[trigger] r.centers@[c])@),
        r.duplicate_centers <= r.centers.len(),
        r.empty_clusters == empty_count(r.cluster_per_group@, r.centers.len() as int),
        groups.len() <= k ==> r.duplicate_centers == duplicate_count(r.centers@, r.centers.len() as int),
        groups.len() <= k ==> {
            &&& r.converged
            &&& forall|g: int|
                0 <= g < groups.len() ==> r.centers@[(#[trigger] r.cluster_per_group@[g]) as int]@ == outputs_of(
                    color_type,
                    groups@[g].data@,
                )
            &&& forall|g1: int, g2: int|
                0 <= g1 < groups.len() && 0 <= g2 < groups.len() && g1 != g2 ==> #[trigger] r.cluster_per_group@[g1]
                    != #[trigger] r.cluster_per_group@[g2]
        },
        groups.len() > k ==> {
            &&& 1 <= r.iterations <= MAX_ITERATIONS
            &&& r.converged || r.iterations == MAX_ITERATIONS
            &&& exists|prev: Seq<usize>|
                refined_from(
                    color_type,
                    groups@,
                    r.centers@,
                    prev,
                    r.cluster_per_group@,
                    groups@[0].data@.len() as int,
                ) && (r.converged <==> prev == r.cluster_per_group@)
        },
        r.converged && groups.len() > k ==> stable(
            color_type,
            groups@,
            r.centers@,
            r.cluster_per_group@,
            groups@[0].data@.len() as int,
        ),
{
    let n = groups[0].data.colors.len();
    let (mut centers, mut assignment) = initialize_centers(k, groups, color_type, n);
    let duplicates = duplicate_centers(&centers);
    proof {
        lemma_duplicate_count_bound(centers@, centers.len() as int);
    }
    if groups.len() <= k {
        let empty = empty_clusters(&assignment, centers.len());
        return Clustering {
            centers,
            cluster_per_group: assignment,
            converged: true,
            iterations: 0,
            empty_clusters: empty,
            duplicate_centers: duplicates,
        };
    }
    let ghost size = centers.len();
    let mut converged = false;
    let mut iteration: usize = 0;
    let ghost mut prev: Seq<usize> = assignment@;
    while iteration < MAX_ITERATIONS && !converged
        invariant
            n == groups@[0].data@.len() <= MAX_IMAGES,
            uniform(groups@, n as int),
            centers.len() == size,
            size == if groups.len() <= k { groups.len() } else { k },
            centers_uniform(centers@, n as int),
            assignment.len() == groups.len(),
            forall|g: int| 0 <= g < groups.len() ==> #[trigger] assignment@[g] < centers.len(),
            forall|c: int| 0 <= c < centers.len() ==> is_output(color_type, (#[trigger] centers@[c])@),
            converged ==> stable(color_type, groups@, centers@, assignment@, n as int),
            iteration <= MAX_ITERATIONS,
            iteration == 0 ==> !converged,
            iteration >= 1 ==> refined_from(color_type, groups@, centers@, prev, assignment@, n as int)
                && (converged <==> prev == assignment@),
        decreases MAX_ITERATIONS - iteration,
    {
        let ghost before = assignment@;
        let members = points_per_cluster(&assignment, centers.len());
        assert forall|c: int, r: int|
            0 <= c < members.len() && 0 <= r < members@[c]@.len() implies #[trigger] members@[c]@[r]
                < groups.len() by {
            lemma_members_of(assignment@, c, assignment.len() as int);
            assert(members@[c]@ == members_of(assignment@, c, assignment.len() as int));
        }
        reposition_centers(&mut centers, groups, &members, color_type, n);
        let next = assign_to_clusters(groups, &centers, &assignment, n);
        if same_assignment(&next, &assignment) {
            converged = true;
            assert forall|c: int|
                0 <= c < centers.len() && members_of(assignment@, c, assignment.len() as int).len() > 0
                    implies (#[trigger] centers@[c])@ == combination_mean(
                    color_type,
                    groups@,
                    members_of(assignment@, c, assignment.len() as int),
                    n as int,
                ) by {
                assert(members@[c]@ == members_of(assignment@, c, assignment.len() as int));
            }
            assert forall|g: int| 0 <= g < groups.len() implies pruned_choice(
                groups@[g].data@,
                centers@,
                #[trigger] assignment@[g] as int,
                assignment@[g] as int,
            ) by {
                assert(next@[g] == assignment@[g]);
            }
        } else {
            assignment = next;
        }
        proof {
            prev = before;
            assert forall|c: int|
                0 <= c < centers.len() && members_of(prev, c, prev.len() as int).len() > 0
                    implies (#[trigger] centers@[c])@ == combination_mean(
                    color_type,
                    groups@,
                    members_of(prev, c, prev.len() as int),
                    n as int,
                ) by {
                assert(members@[c]@ == members_of(prev, c, prev.len() as int));
            }
            assert forall|g: int| 0 <= g < groups.len() implies pruned_choice(
                groups@[g].data@,
                centers@,
                #[trigger] prev[g] as int,
                assignment@[g] as int,
            ) by {
                assert(next@[g] == assignment@[g]);
            }
        }
        iteration = iteration + 1;
    }
    assert(iteration >= 1);
    let empty = empty_clusters(&assignment, centers.len());
    let r = Clustering {
        centers,
        cluster_per_group: assignment,
        converged,
        iterations: iteration,
        empty_clusters: empty,
        duplicate_centers: duplicates,
    };
    assert(refined_from(color_type, groups@, r.centers@, prev, r.cluster_per_group@, groups@[0].data@.len() as int)
        && (r.converged <==> prev == r.cluster_per_group@));
    r
}

} // verus!
