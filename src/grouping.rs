//! Grouping of identical input values into weighted groups, kept in
//! lexicographic order of their colors.
use vstd::prelude::*;

use crate::color::{transparent, Rgba8};
use crate::combination::{canonical_of, InputColorCombination};

verus! {

/// A distinct input value and the number of times it occurs.
#[derive(Clone, Copy, Debug)]
pub struct Grouped<T> {
    pub data: T,
    pub count: u32,
}

impl<T> Grouped<T> {
    pub fn new(data: T, count: u32) -> (g: Grouped<T>)
        ensures
            g.data == data,
            g.count == count,
    {
        Grouped { data, count }
    }
}

/// The order of colors: by red, then green, then blue, then alpha.
pub open spec fn color_lt(x: Rgba8, y: Rgba8) -> bool {
    x.r < y.r || (x.r == y.r && (x.g < y.g || (x.g == y.g && (x.b < y.b || (x.b == y.b
        && x.a < y.a)))))
}

/// The lexicographic order of color sequences, compared from position `i` on.
pub open spec fn lex_from(x: Seq<Rgba8>, y: Seq<Rgba8>, i: int) -> bool
    decreases x.len() - i,
{
    if i < 0 || i >= x.len() {
        0 <= i < y.len()
    } else if i >= y.len() {
        false
    } else if x[i] == y[i] {
        lex_from(x, y, i + 1)
    } else {
        color_lt(x[i], y[i])
    }
}

/// The lexicographic order of color sequences.
pub open spec fn lex_lt(x: Seq<Rgba8>, y: Seq<Rgba8>) -> bool {
    lex_from(x, y, 0)
}

proof fn lemma_lex_from_order(x: Seq<Rgba8>, y: Seq<Rgba8>, z: Seq<Rgba8>, i: int)
    requires
        0 <= i,
    ensures
        !lex_from(x, x, i),
        lex_from(x, y, i) ==> !lex_from(y, x, i),
        lex_from(x, y, i) && lex_from(y, z, i) ==> lex_from(x, z, i),
        !lex_from(x, y, i) && !lex_from(y, x, i) && i <= x.len() && i <= y.len() ==> (x.len() == y.len() && forall|
            j: int,
        | i <= j < x.len() ==> x[j] == y[j]),
    decreases x.len() - i,
{
    if i < x.len() {
        lemma_lex_from_order(x, y, z, i + 1);
    }
}

/// The lexicographic order is a strict total order.
pub proof fn lemma_lex_order(x: Seq<Rgba8>, y: Seq<Rgba8>, z: Seq<Rgba8>)
    ensures
        !lex_lt(x, x),
        lex_lt(x, y) ==> !lex_lt(y, x),
        lex_lt(x, y) && lex_lt(y, z) ==> lex_lt(x, z),
        !lex_lt(x, y) && !lex_lt(y, x) ==> x == y,
{
    lemma_lex_from_order(x, y, z, 0);
    if !lex_lt(x, y) && !lex_lt(y, x) {
        assert(x =~= y);
    }
}

/// Compares two color sequences: negative, zero or positive as `x` comes
/// before, equals or comes after `y`.
pub fn compare(x: &Vec<Rgba8>, y: &Vec<Rgba8>) -> (c: i8)
    ensures
        c < 0 <==> lex_lt(x@, y@),
        c == 0 <==> x@ == y@,
        c > 0 <==> lex_lt(y@, x@),
{
    proof {
        lemma_lex_order(x@, y@, y@);
    }
    let mut i: usize = 0;
    while i < x.len() && i < y.len()
        invariant
            i <= x.len(),
            i <= y.len(),
            forall|j: int| 0 <= j < i ==> x@[j] == y@[j],
            lex_lt(x@, y@) == lex_from(x@, y@, i as int),
            lex_lt(y@, x@) == lex_from(y@, x@, i as int),
        decreases x.len() - i,
    {
        if x[i] != y[i] {
            let (a, b) = (x[i], y[i]);
            if a.r < b.r || (a.r == b.r && (a.g < b.g || (a.g == b.g && (a.b < b.b || (a.b == b.b
                && a.a < b.a))))) {
                return -1;
            } else {
                return 1;
            }
        }
        i = i + 1;
    }
    if x.len() < y.len() {
        -1
    } else if y.len() < x.len() {
        1
    } else {
        assert(x@ =~= y@);
        0
    }
}

/// The number of the first `n` items whose canonical form is `v`.
pub open spec fn count_in(items: Seq<InputColorCombination>, v: Seq<Rgba8>, n: int) -> int
    decreases n,
{
    if n <= 0 {
        0
    } else {
        count_in(items, v, n - 1) + if canonical_of(items[n - 1]@) == v {
            1int
        } else {
            0int
        }
    }
}

proof fn lemma_count_in_bound(items: Seq<InputColorCombination>, v: Seq<Rgba8>, n: int)
    requires
        0 <= n,
    ensures
        0 <= count_in(items, v, n) <= n,
    decreases n,
{
    if n > 0 {
        lemma_count_in_bound(items, v, n - 1);
    }
}

proof fn lemma_count_in_zero(items: Seq<InputColorCombination>, v: Seq<Rgba8>, n: int)
    requires
        forall|j: int| 0 <= j < n ==> canonical_of(#[trigger] items[j]@) != v,
    ensures
        count_in(items, v, n) == 0,
    decreases n,
{
    if n > 0 {
        lemma_count_in_zero(items, v, n - 1);
    }
}

/// Groups in strictly increasing order of their colors.
pub open spec fn sorted_groups(groups: Seq<Grouped<InputColorCombination>>) -> bool {
    forall|a: int, b: int|
        0 <= a < b < groups.len() ==> lex_lt(#[trigger] groups[a].data@, #[trigger] groups[b].data@)
}

/// Where `v` stands among sorted groups: `Ok` with its index, or `Err` with
/// the index where it would be inserted.
pub fn find_group(groups: &Vec<Grouped<InputColorCombination>>, v: &Vec<Rgba8>) -> (r: Result<usize, usize>)
    requires
        sorted_groups(groups@),
    ensures
        r matches Ok(i) ==> i < groups.len() && groups@[i as int].data@ == v@,
        r matches Err(i) ==> i <= groups.len() && (forall|j: int|
            0 <= j < i ==> lex_lt(#[trigger] groups@[j].data@, v@)) && (forall|j: int|
            i <= j < groups.len() ==> lex_lt(v@, #[trigger] groups@[j].data@)),
{
    let mut lo: usize = 0;
    let mut hi: usize = groups.len();
    while lo < hi
        invariant
            lo <= hi <= groups.len(),
            sorted_groups(groups@),
            forall|j: int| 0 <= j < lo ==> lex_lt(#[trigger] groups@[j].data@, v@),
            forall|j: int| hi <= j < groups.len() ==> lex_lt(v@, #[trigger] groups@[j].data@),
        decreases hi - lo,
    {
        let mid = lo + (hi - lo) / 2;
        let c = compare(&groups[mid].data.colors, v);
        if c == 0 {
            return Ok(mid);
        } else if c < 0 {
            assert forall|j: int| 0 <= j < mid + 1 implies lex_lt(#[trigger] groups@[j].data@, v@) by {
                if j < mid {
                    lemma_lex_order(groups@[j].data@, groups@[mid as int].data@, v@);
                }
            }
            lo = mid + 1;
        } else {
            assert forall|j: int| mid <= j < groups.len() implies lex_lt(v@, #[trigger] groups@[j].data@) by {
                if j > mid {
                    lemma_lex_order(v@, groups@[mid as int].data@, groups@[j].data@);
                }
            }
            hi = mid;
        }
    }
    Err(lo)
}

/// The combination with each color in canonical form.
pub fn canonical_combination(x: &InputColorCombination) -> (c: InputColorCombination)
    ensures
        c@ == canonical_of(x@),
{
    let mut r: Vec<Rgba8> = Vec::with_capacity(x.colors.len());
    let mut i: usize = 0;
    while i < x.colors.len()
        invariant
            i <= x@.len(),
            r@ == canonical_of(x@).subrange(0, i as int),
        decreases x@.len() - i,
    {
        r.push(x.colors[i].to_canonical());
        i = i + 1;
    }
    assert(r@ == canonical_of(x@));
    InputColorCombination { colors: r }
}

/// The sum of the counts of the first `n` groups.
pub open spec fn total_count(groups: Seq<Grouped<InputColorCombination>>, n: int) -> int
    decreases n,
{
    if n <= 0 {
        0
    } else {
        total_count(groups, n - 1) + groups[n - 1].count
    }
}

proof fn lemma_total_count_update(
    s: Seq<Grouped<InputColorCombination>>,
    i: int,
    v: Grouped<InputColorCombination>,
    n: int,
)
    requires
        0 <= i < s.len(),
        0 <= n <= s.len(),
    ensures
        total_count(s.update(i, v), n) == total_count(s, n) + if i < n {
            v.count - s[i].count
        } else {
            0
        },
    decreases n,
{
    if n > 0 {
        lemma_total_count_update(s, i, v, n - 1);
    }
}

proof fn lemma_total_count_insert(
    s: Seq<Grouped<InputColorCombination>>,
    i: int,
    v: Grouped<InputColorCombination>,
    n: int,
)
    requires
        0 <= i <= s.len(),
        0 <= n <= s.len() + 1,
    ensures
        total_count(s.insert(i, v), n) == if n <= i {
            total_count(s, n)
        } else {
            total_count(s, n - 1) + v.count
        },
    decreases n,
{
    if n > 0 {
        lemma_total_count_insert(s, i, v, n - 1);
    }
}

/// Every input item has its canonical form among the groups.
pub open spec fn covers(
    groups: Seq<Grouped<InputColorCombination>>,
    items: Seq<InputColorCombination>,
    n: int,
) -> bool {
    forall|j: int|
        0 <= j < n ==> exists|g: int|
            0 <= g < groups.len() && #[trigger] groups[g].data@ == canonical_of(#[trigger] items[j]@)
}

/// Every group counts the items whose canonical form it holds.
pub open spec fn counts_match(
    groups: Seq<Grouped<InputColorCombination>>,
    items: Seq<InputColorCombination>,
    n: int,
) -> bool {
    forall|g: int|
        0 <= g < groups.len() ==> #[trigger] groups[g].count == count_in(items, groups[g].data@, n)
            && groups[g].count >= 1
}

/// Groups the items by their canonical form, inserting each new value into a
/// sorted vector: quadratic in the number of distinct values, so it serves
/// for the few values of one bucket.
fn group_by_insertion(items: &Vec<InputColorCombination>) -> (groups: Vec<Grouped<InputColorCombination>>)
    requires
        items.len() <= u32::MAX,
    ensures
        sorted_groups(groups@),
        counts_match(groups@, items@, items.len() as int),
        covers(groups@, items@, items.len() as int),
        total_count(groups@, groups.len() as int) == items.len(),
{
    let mut groups: Vec<Grouped<InputColorCombination>> = Vec::new();
    let mut i: usize = 0;
    while i < items.len()
        invariant
            i <= items.len() <= u32::MAX,
            sorted_groups(groups@),
            counts_match(groups@, items@, i as int),
            covers(groups@, items@, i as int),
            total_count(groups@, groups.len() as int) == i,
        decreases items.len() - i,
    {
        let key = canonical_combination(&items[i]);
        let ghost v = key@;
        let ghost old_groups = groups@;
        proof {
            assert forall|w: Seq<Rgba8>| count_in(items@, w, i + 1) == count_in(items@, w, i as int)
                + (if v == w { 1int } else { 0int }) by {}
        }
        match find_group(&groups, &key.colors) {
            Ok(pos) => {
                proof {
                    lemma_count_in_bound(items@, v, i as int);
                }
                let c = groups[pos].count;
                groups[pos].count = c + 1;
                proof {
                    lemma_total_count_update(old_groups, pos as int, groups@[pos as int], old_groups.len() as int);
                    assert(groups@ == old_groups.update(pos as int, groups@[pos as int]));
                }
                assert forall|g: int| 0 <= g < groups.len() implies #[trigger] groups@[g].count
                    == count_in(items@, groups@[g].data@, i + 1) && groups@[g].count >= 1 by {
                    if g != pos {
                        assert(old_groups[g].data@ != v) by {
                            lemma_lex_order(old_groups[g].data@, v, v);
                            if g < pos {
                            } else {
                            }
                        }
                    }
                }
                assert forall|j: int| 0 <= j < i + 1 implies exists|g: int|
                    0 <= g < groups.len() && #[trigger] groups@[g].data@ == canonical_of(#[trigger] items@[j]@) by {
                    if j == i {
                        assert(groups@[pos as int].data@ == canonical_of(items@[j]@));
                    } else {
                        assert(items@[j] == items@[j]);
                        let g = choose|g: int| 0 <= g < old_groups.len() && #[trigger] old_groups[g].data@ == canonical_of(items@[j]@);
                        assert(groups@[g].data@ == old_groups[g].data@);
                    }
                }
            },
            Err(pos) => {
                proof {
                    assert forall|j: int| 0 <= j < i implies canonical_of(#[trigger] items@[j]@) != v by {
                        assert(items@[j] == items@[j]);
                        let g = choose|g: int| 0 <= g < old_groups.len() && #[trigger] old_groups[g].data@ == canonical_of(items@[j]@);
                        lemma_lex_order(old_groups[g].data@, v, v);
                    }
                    lemma_count_in_zero(items@, v, i as int);
                }
                groups.insert(pos, Grouped { data: key, count: 1 });
                proof {
                    lemma_total_count_insert(old_groups, pos as int, groups@[pos as int], old_groups.len() + 1int);
                }
                assert forall|a: int, b: int| 0 <= a < b < groups.len() implies lex_lt(
                    #[trigger] groups@[a].data@,
                    #[trigger] groups@[b].data@,
                ) by {
                    if b == pos {
                    } else if a == pos {
                    } else if a < pos && pos < b {
                        lemma_lex_order(groups@[a].data@, v, groups@[b].data@);
                    } else if b < pos {
                        assert(groups@[a] == old_groups[a] && groups@[b] == old_groups[b]);
                    } else {
                        assert(groups@[a] == old_groups[a - 1] && groups@[b] == old_groups[b - 1]);
                    }
                }
                assert forall|g: int| 0 <= g < groups.len() implies #[trigger] groups@[g].count
                    == count_in(items@, groups@[g].data@, i + 1) && groups@[g].count >= 1 by {
                    if g < pos {
                        assert(groups@[g] == old_groups[g]);
                        lemma_lex_order(old_groups[g].data@, v, v);
                    } else if g > pos {
                        assert(groups@[g] == old_groups[g - 1]);
                        lemma_lex_order(old_groups[g - 1].data@, v, v);
                    }
                }
                assert forall|j: int| 0 <= j < i + 1 implies exists|g: int|
                    0 <= g < groups.len() && #[trigger] groups@[g].data@ == canonical_of(#[trigger] items@[j]@) by {
                    if j == i {
                        assert(groups@[pos as int].data@ == canonical_of(items@[j]@));
                    } else {
                        assert(items@[j] == items@[j]);
                        let g = choose|g: int| 0 <= g < old_groups.len() && #[trigger] old_groups[g].data@ == canonical_of(items@[j]@);
                        if g < pos {
                            assert(groups@[g] == old_groups[g]);
                        } else {
                            assert(groups@[g + 1] == old_groups[g]);
                        }
                    }
                }
            },
        }
        i = i + 1;
    }
    groups
}

/// The number of buckets that grouping first sorts values into.
pub const BUCKETS: usize = 65536;

/// The bucket of a combination: the red and green of its first color, so
/// that buckets are ordered as the combinations in them.
pub open spec fn bucket_of(x: Seq<Rgba8>) -> int {
    if x.len() == 0 {
        0
    } else {
        x[0].r * 256 + x[0].g
    }
}

proof fn lemma_bucket_order(x: Seq<Rgba8>, y: Seq<Rgba8>)
    requires
        bucket_of(x) < bucket_of(y),
    ensures
        lex_lt(x, y),
{
    assert(y.len() > 0);
    if x.len() > 0 {
        assert(x[0] != y[0]);
    }
}

fn bucket_index(x: &Vec<Rgba8>) -> (b: usize)
    ensures
        b == bucket_of(x@),
        b < BUCKETS,
{
    if x.len() == 0 {
        0
    } else {
        x[0].r as usize * 256 + x[0].g as usize
    }
}

/// The sum of the lengths of the first `nb` buckets.
pub open spec fn bucket_total(buckets: Seq<Vec<InputColorCombination>>, nb: int) -> int
    decreases nb,
{
    if nb <= 0 {
        0
    } else {
        bucket_total(buckets, nb - 1) + buckets[nb - 1].len()
    }
}

proof fn lemma_bucket_total_update(
    buckets: Seq<Vec<InputColorCombination>>,
    b: int,
    x: Vec<InputColorCombination>,
    nb: int,
)
    requires
        0 <= b < buckets.len(),
        0 <= nb <= buckets.len(),
    ensures
        bucket_total(buckets.update(b, x), nb) == bucket_total(buckets, nb) + if b < nb {
            x.len() - buckets[b].len()
        } else {
            0
        },
    decreases nb,
{
    if nb > 0 {
        lemma_bucket_total_update(buckets, b, x, nb - 1);
    }
}

proof fn lemma_total_count_append(
    s: Seq<Grouped<InputColorCombination>>,
    t: Seq<Grouped<InputColorCombination>>,
    n: int,
)
    requires
        0 <= n <= t.len(),
    ensures
        total_count(s + t, s.len() + n) == total_count(s, s.len() as int) + total_count(t, n),
    decreases n,
{
    if n > 0 {
        lemma_total_count_append(s, t, n - 1);
        assert((s + t)[s.len() + n - 1] == t[n - 1]);
    } else {
        lemma_total_count_prefix(s, s + t, s.len() as int);
    }
}

proof fn lemma_total_count_prefix(
    s: Seq<Grouped<InputColorCombination>>,
    t: Seq<Grouped<InputColorCombination>>,
    n: int,
)
    requires
        0 <= n <= s.len(),
        n <= t.len(),
        forall|g: int| 0 <= g < n ==> s[g] == t[g],
    ensures
        total_count(s, n) == total_count(t, n),
    decreases n,
{
    if n > 0 {
        lemma_total_count_prefix(s, t, n - 1);
    }
}

proof fn lemma_count_in_found(items: Seq<InputColorCombination>, j: int, n: int)
    requires
        0 <= j < n,
    ensures
        count_in(items, canonical_of(items[j]@), n) >= 1,
    decreases n,
{
    if j < n - 1 {
        lemma_count_in_found(items, j, n - 1);
    }
    lemma_count_in_bound(items, canonical_of(items[j]@), n - 1);
}

pub proof fn lemma_count_in_witness(items: Seq<InputColorCombination>, v: Seq<Rgba8>, n: int)
    requires
        count_in(items, v, n) >= 1,
    ensures
        exists|p: int| 0 <= p < n && canonical_of(#[trigger] items[p]@) == v,
    decreases n,
{
    if n > 0 && canonical_of(items[n - 1]@) != v {
        lemma_count_in_witness(items, v, n - 1);
    }
}

pub proof fn lemma_canonical_idempotent(x: Seq<Rgba8>)
    ensures
        canonical_of(canonical_of(x)) == canonical_of(x),
        bucket_of(canonical_of(x)) < BUCKETS,
{
    assert(canonical_of(canonical_of(x)) =~= canonical_of(x));
}

/// Each bucket holds canonical values of its own bucket, and counts each
/// value of it as often as the first `n` items do.
pub open spec fn buckets_hold(
    buckets: Seq<Vec<InputColorCombination>>,
    items: Seq<InputColorCombination>,
    n: int,
) -> bool {
    &&& buckets.len() == BUCKETS
    &&& forall|b: int, q: int|
        0 <= b < BUCKETS && 0 <= q < buckets[b].len() ==> bucket_of(#[trigger] buckets[b]@[q]@) == b
            && canonical_of(buckets[b]@[q]@) == buckets[b]@[q]@
    &&& forall|v: Seq<Rgba8>|
        bucket_of(v) < BUCKETS ==> #[trigger] count_in(items, v, n) == count_in(
            buckets[bucket_of(v)]@,
            v,
            buckets[bucket_of(v)].len() as int,
        )
    &&& bucket_total(buckets, BUCKETS as int) == n
}

/// Groups the items by their canonical form: transparent colors all count as
/// one value. The groups come in strictly increasing order of their colors,
/// each with the number of items that it stands for, and every item is
/// counted by the group of its canonical form. Values are first sorted into
/// buckets by their first color, then grouped bucket by bucket.
pub fn collect_groups(items: &Vec<InputColorCombination>) -> (groups: Vec<Grouped<InputColorCombination>>)
    requires
        items.len() <= u32::MAX,
    ensures
        sorted_groups(groups@),
        counts_match(groups@, items@, items.len() as int),
        covers(groups@, items@, items.len() as int),
        total_count(groups@, groups.len() as int) == items.len(),
{
    let mut buckets: Vec<Vec<InputColorCombination>> = Vec::with_capacity(BUCKETS);
    let mut b: usize = 0;
    while b < BUCKETS
        invariant
            b <= BUCKETS,
            buckets.len() == b,
            forall|b2: int| 0 <= b2 < b ==> (#[trigger] buckets@[b2]).len() == 0,
        decreases BUCKETS - b,
    {
        buckets.push(Vec::new());
        b = b + 1;
    }
    proof {
        assert forall|nb: int| 0 <= nb <= BUCKETS implies #[trigger] bucket_total(buckets@, nb) == 0 by {
            lemma_bucket_total_zero(buckets@, nb);
        }
        assert forall|v: Seq<Rgba8>| bucket_of(v) < BUCKETS implies #[trigger] count_in(items@, v, 0)
            == count_in(buckets@[bucket_of(v)]@, v, buckets@[bucket_of(v)].len() as int) by {
            assert(buckets@[bucket_of(v)].len() == 0);
        }
    }
    let mut i: usize = 0;
    while i < items.len()
        invariant
            i <= items.len() <= u32::MAX,
            buckets_hold(buckets@, items@, i as int),
        decreases items.len() - i,
    {
        let key = canonical_combination(&items[i]);
        let bk = bucket_index(&key.colors);
        let ghost before = buckets@;
        let ghost k = key@;
        proof {
            lemma_canonical_idempotent(items@[i as int]@);
        }
        buckets[bk].push(key);
        proof {
            let nb = buckets@[bk as int];
            assert(buckets@ == before.update(bk as int, nb));
            lemma_bucket_total_update(before, bk as int, nb, BUCKETS as int);
            assert forall|b2: int, q: int|
                0 <= b2 < BUCKETS && 0 <= q < buckets@[b2].len() implies bucket_of(#[trigger] buckets@[b2]@[q]@) == b2
                    && canonical_of(buckets@[b2]@[q]@) == buckets@[b2]@[q]@ by {
                if b2 == bk && q == before[b2].len() {
                } else {
                    assert(buckets@[b2]@[q] == before[b2]@[q]);
                }
            }
            assert forall|v: Seq<Rgba8>| bucket_of(v) < BUCKETS implies #[trigger] count_in(items@, v, i + 1)
                == count_in(buckets@[bucket_of(v)]@, v, buckets@[bucket_of(v)].len() as int) by {
                assert(count_in(items@, v, i as int) == count_in(before[bucket_of(v)]@, v, before[bucket_of(v)].len() as int));
                if bucket_of(v) == bk {
                    let old_b = before[bk as int]@;
                    assert(nb@ == old_b.push(key));
                    assert(nb@.subrange(0, old_b.len() as int) =~= old_b);
                    lemma_count_in_prefix(old_b, nb@, old_b.len() as int);
                } else {
                    assert(k != v);
                }
            }
        }
        i = i + 1;
    }
    let mut groups: Vec<Grouped<InputColorCombination>> = Vec::new();
    let mut b: usize = 0;
    while b < BUCKETS
        invariant
            b <= BUCKETS,
            items.len() <= u32::MAX,
            buckets_hold(buckets@, items@, items.len() as int),
            sorted_groups(groups@),
            forall|g: int| 0 <= g < groups.len() ==> bucket_of(#[trigger] groups@[g].data@) < b,
            counts_match(groups@, items@, items.len() as int),
            forall|j: int|
                0 <= j < items.len() && bucket_of(canonical_of(items@[j]@)) < b ==> exists|g: int|
                    0 <= g < groups.len() && #[trigger] groups@[g].data@ == canonical_of(#[trigger] items@[j]@),
            total_count(groups@, groups.len() as int) == bucket_total(buckets@, b as int),
        decreases BUCKETS - b,
    {
        proof {
            lemma_bucket_total_le(buckets@, b as int + 1, BUCKETS as int);
            lemma_bucket_total_le(buckets@, b as int, BUCKETS as int);
        }
        let mut part = group_by_insertion(&buckets[b]);
        let ghost bucket = buckets@[b as int]@;
        let ghost part_view = part@;
        let ghost old_groups = groups@;
        proof {
            assert forall|g: int| 0 <= g < part_view.len() implies bucket_of(#[trigger] part_view[g].data@) == b
                && part_view[g].count == count_in(items@, part_view[g].data@, items.len() as int) by {
                assert(part_view[g].count == count_in(bucket, part_view[g].data@, bucket.len() as int));
                lemma_count_in_witness(bucket, part_view[g].data@, bucket.len() as int);
                let q = choose|q: int| 0 <= q < bucket.len() && canonical_of(#[trigger] bucket[q]@) == part_view[g].data@;
                assert(bucket_of(buckets@[b as int]@[q]@) == b);
            }
        }
        groups.append(&mut part);
        proof {
            assert(groups@ == old_groups + part_view);
            assert forall|a: int, c: int| 0 <= a < c < groups.len() implies lex_lt(
                #[trigger] groups@[a].data@,
                #[trigger] groups@[c].data@,
            ) by {
                if c < old_groups.len() {
                    assert(groups@[a] == old_groups[a] && groups@[c] == old_groups[c]);
                } else if a >= old_groups.len() {
                    assert(groups@[a] == part_view[a - old_groups.len()] && groups@[c] == part_view[c - old_groups.len()]);
                } else {
                    assert(groups@[a] == old_groups[a] && groups@[c] == part_view[c - old_groups.len()]);
                    lemma_bucket_order(groups@[a].data@, groups@[c].data@);
                }
            }
            assert forall|g: int| 0 <= g < groups.len() implies bucket_of(#[trigger] groups@[g].data@) < b + 1 by {
                if g < old_groups.len() {
                    assert(groups@[g] == old_groups[g]);
                } else {
                    assert(groups@[g] == part_view[g - old_groups.len()]);
                }
            }
            assert forall|g: int| 0 <= g < groups.len() implies #[trigger] groups@[g].count == count_in(
                items@,
                groups@[g].data@,
                items.len() as int,
            ) && groups@[g].count >= 1 by {
                if g < old_groups.len() {
                    assert(groups@[g] == old_groups[g]);
                } else {
                    assert(groups@[g] == part_view[g - old_groups.len()]);
                }
            }
            assert forall|j: int|
                0 <= j < items.len() && bucket_of(canonical_of(items@[j]@)) < b + 1 implies exists|g: int|
                    0 <= g < groups.len() && #[trigger] groups@[g].data@ == canonical_of(#[trigger] items@[j]@) by {
                let v = canonical_of(items@[j]@);
                if bucket_of(v) < b {
                    let g = choose|g: int| 0 <= g < old_groups.len() && #[trigger] old_groups[g].data@ == canonical_of(#[trigger] items@[j]@);
                    assert(groups@[g] == old_groups[g]);
                } else {
                    lemma_count_in_found(items@, j, items.len() as int);
                    assert(count_in(items@, v, items.len() as int) == count_in(bucket, v, bucket.len() as int));
                    lemma_count_in_witness(bucket, v, bucket.len() as int);
                    let q = choose|q: int| 0 <= q < bucket.len() && canonical_of(#[trigger] bucket[q]@) == v;
                    assert(bucket[q] == bucket[q]);
                    let g = choose|g: int| 0 <= g < part_view.len() && #[trigger] part_view[g].data@ == canonical_of(#[trigger] bucket[q]@);
                    assert(groups@[old_groups.len() + g] == part_view[g]);
                }
            }
            lemma_total_count_append(old_groups, part_view, part_view.len() as int);
        }
        b = b + 1;
    }
    proof {
        assert forall|j: int| 0 <= j < items.len() implies exists|g: int|
            0 <= g < groups.len() && #[trigger] groups@[g].data@ == canonical_of(#[trigger] items@[j]@) by {
            lemma_canonical_idempotent(items@[j]@);
        }
    }
    groups
}

proof fn lemma_bucket_total_zero(buckets: Seq<Vec<InputColorCombination>>, nb: int)
    requires
        0 <= nb <= buckets.len(),
        forall|b: int| 0 <= b < buckets.len() ==> (#[trigger] buckets[b]).len() == 0,
    ensures
        bucket_total(buckets, nb) == 0,
    decreases nb,
{
    if nb > 0 {
        lemma_bucket_total_zero(buckets, nb - 1);
    }
}

proof fn lemma_bucket_total_le(buckets: Seq<Vec<InputColorCombination>>, m: int, nb: int)
    requires
        0 <= m <= nb <= buckets.len(),
    ensures
        bucket_total(buckets, m) <= bucket_total(buckets, nb),
        0 <= bucket_total(buckets, m),
    decreases nb,
{
    if nb > m {
        lemma_bucket_total_le(buckets, m, nb - 1);
    } else if m > 0 {
        lemma_bucket_total_le(buckets, m - 1, m - 1);
    }
}

proof fn lemma_count_in_prefix(s: Seq<InputColorCombination>, t: Seq<InputColorCombination>, n: int)
    requires
        0 <= n <= s.len(),
        n <= t.len(),
        forall|j: int| 0 <= j < n ==> s[j] == t[j],
    ensures
        forall|v: Seq<Rgba8>| #[trigger] count_in(s, v, n) == count_in(t, v, n),
    decreases n,
{
    if n > 0 {
        lemma_count_in_prefix(s, t, n - 1);
        assert forall|v: Seq<Rgba8>| #[trigger] count_in(s, v, n) == count_in(t, v, n) by {
            assert(count_in(s, v, n - 1) == count_in(t, v, n - 1));
            assert(s[n - 1] == t[n - 1]);
        }
    }
}

/// Groups that count items by canonical form hold canonical values: a
/// transparent color in a group is the single transparent value. Among
/// sorted groups of single colors at most one is transparent, and it counts
/// every transparent item, whatever its red, green and blue.
pub proof fn lemma_one_transparent_group(
    groups: Seq<Grouped<InputColorCombination>>,
    items: Seq<InputColorCombination>,
    n: int,
    g1: int,
    g2: int,
)
    requires
        0 <= n <= items.len(),
        sorted_groups(groups),
        counts_match(groups, items, n),
        0 <= g1 < groups.len(),
        0 <= g2 < groups.len(),
    ensures
        canonical_of(groups[g1].data@) == groups[g1].data@,
        forall|p: int|
            0 <= p < groups[g1].data@.len() && (#[trigger] groups[g1].data@[p]).a == 0 ==> groups[g1].data@[p]
                == transparent(),
        groups[g1].data@.len() == 1 && groups[g1].data@[0].a == 0 ==> groups[g1].data@ == seq![transparent()]
            && groups[g1].count == count_in(items, seq![transparent()], n),
        groups[g1].data@.len() == 1 && groups[g1].data@[0].a == 0 && groups[g2].data@.len() == 1
            && groups[g2].data@[0].a == 0 ==> g1 == g2,
{
    assert(groups[g1].count == count_in(items, groups[g1].data@, n) && groups[g1].count >= 1);
    lemma_count_in_witness(items, groups[g1].data@, n);
    let p = choose|p: int| 0 <= p < n && canonical_of(#[trigger] items[p]@) == groups[g1].data@;
    lemma_canonical_idempotent(items[p]@);
    assert forall|q: int|
        0 <= q < groups[g1].data@.len() && (#[trigger] groups[g1].data@[q]).a == 0 implies groups[g1].data@[q]
            == transparent() by {
        assert(canonical_of(groups[g1].data@)[q] == groups[g1].data@[q]);
    }
    if groups[g1].data@.len() == 1 && groups[g1].data@[0].a == 0 {
        assert(groups[g1].data@ =~= seq![transparent()]);
    }
    assert(groups[g2].count == count_in(items, groups[g2].data@, n) && groups[g2].count >= 1);
    lemma_count_in_witness(items, groups[g2].data@, n);
    let p2 = choose|p2: int| 0 <= p2 < n && canonical_of(#[trigger] items[p2]@) == groups[g2].data@;
    lemma_canonical_idempotent(items[p2]@);
    if groups[g1].data@.len() == 1 && groups[g1].data@[0].a == 0 && groups[g2].data@.len() == 1
        && groups[g2].data@[0].a == 0 {
        assert(canonical_of(groups[g2].data@)[0] == groups[g2].data@[0]);
        assert(groups[g2].data@ =~= seq![transparent()]);
        assert(groups[g1].data@ =~= seq![transparent()]);
        if g1 != g2 {
            lemma_lex_order(groups[g1].data@, groups[g1].data@, groups[g1].data@);
            if g1 < g2 {
                assert(lex_lt(groups[g1].data@, groups[g2].data@));
            } else {
                assert(lex_lt(groups[g2].data@, groups[g1].data@));
            }
        }
    }
}

/// Combinations that differ only in the red, green and blue of transparent
/// colors have one canonical form, so grouping counts them in one group, and
/// each transparent color in it is the single transparent value.
pub proof fn lemma_transparent_pixels_group_together(x: Seq<Rgba8>, y: Seq<Rgba8>)
    requires
        x.len() == y.len(),
        forall|p: int| 0 <= p < x.len() ==> #[trigger] x[p] == y[p] || (x[p].a == 0 && y[p].a == 0),
    ensures
        canonical_of(x) == canonical_of(y),
        forall|p: int| 0 <= p < x.len() && x[p].a == 0 ==> #[trigger] canonical_of(x)[p] == transparent(),
{
    assert(canonical_of(x) =~= canonical_of(y));
}

} // verus!
