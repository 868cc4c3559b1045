//! Color combinations: the tuple of colors that a set of images holds at one
//! pixel position, quantized as one data point so that the images share a
//! palette. A single image is the case of one-color combinations.
use vstd::prelude::*;

use crate::color::{
    as_output, color_distance, mean_of_colors, mean_spec, normalized_color_distance, output_of,
    Rgba8, ColorType, MAX_COLOR_DISTANCE,
};
use crate::grouping::Grouped;

verus! {

/// The most images that one palette is shared by: it keeps the distances
/// between combinations within 64 bits.
pub const MAX_IMAGES: usize = 65536;

/// The input colors of a set of images at one pixel position.
#[derive(Debug)]
pub struct InputColorCombination {
    pub colors: Vec<Rgba8>,
}

/// The output colors, one per image, that stand for a set of input
/// combinations.
#[derive(Debug)]
pub struct ColorCombination {
    pub colors: Vec<Rgba8>,
}

impl View for InputColorCombination {
    type V = Seq<Rgba8>;

    open spec fn view(&self) -> Seq<Rgba8> {
        self.colors@
    }
}

impl View for ColorCombination {
    type V = Seq<Rgba8>;

    open spec fn view(&self) -> Seq<Rgba8> {
        self.colors@
    }
}

/// The sum of the distances between the first `n` positions of `x` and `y`.
pub open spec fn distance_upto(x: Seq<Rgba8>, y: Seq<Rgba8>, n: int) -> int
    decreases n,
{
    if n <= 0 {
        0
    } else {
        distance_upto(x, y, n - 1) + color_distance(x[n - 1], y[n - 1])
    }
}

/// The distance between two combinations: the sum of the distances
/// position by position.
pub open spec fn combination_distance(x: Seq<Rgba8>, y: Seq<Rgba8>) -> int {
    distance_upto(x, y, x.len() as int)
}

/// The sum of the normalized distances over the first `n` positions.
pub open spec fn normalized_upto(t: ColorType, x: Seq<Rgba8>, y: Seq<Rgba8>, n: int) -> int
    decreases n,
{
    if n <= 0 {
        0
    } else {
        normalized_upto(t, x, y, n - 1) + normalized_color_distance(t, x[n - 1], y[n - 1])
    }
}

/// The normalized distance from an input combination to an output
/// combination: the sum of the normalized distances position by position.
pub open spec fn normalized_combination_distance(t: ColorType, x: Seq<Rgba8>, y: Seq<Rgba8>) -> int {
    normalized_upto(t, x, y, x.len() as int)
}

/// The output combination that an input combination converts to.
pub open spec fn outputs_of(t: ColorType, x: Seq<Rgba8>) -> Seq<Rgba8> {
    x.map_values(|c: Rgba8| output_of(t, c))
}

/// The combination with each color in canonical form.
pub open spec fn canonical_of(x: Seq<Rgba8>) -> Seq<Rgba8> {
    x.map_values(|c: Rgba8| c.canonical())
}

/// The largest distance between two combinations of `n` colors.
pub open spec fn max_distance(n: int) -> int {
    n * MAX_COLOR_DISTANCE
}

pub proof fn lemma_distance_upto_bound(x: Seq<Rgba8>, y: Seq<Rgba8>, n: int)
    requires
        0 <= n,
    ensures
        0 <= distance_upto(x, y, n) <= max_distance(n),
        0 <= normalized_upto(ColorType::Rgba8, x, y, n) <= max_distance(n),
        0 <= normalized_upto(ColorType::Rgb5a3, x, y, n) <= max_distance(n),
    decreases n,
{
    if n > 0 {
        lemma_distance_upto_bound(x, y, n - 1);
        crate::color::lemma_color_distance_bound(x[n - 1], y[n - 1]);
        crate::color::lemma_color_distance_bound(x[n - 1], output_of(ColorType::Rgba8, x[n - 1]));
        crate::color::lemma_color_distance_bound(x[n - 1], output_of(ColorType::Rgb5a3, x[n - 1]));
    }
}

fn distance_between(x: &Vec<Rgba8>, y: &Vec<Rgba8>) -> (d: u64)
    requires
        x.len() == y.len(),
        x.len() <= MAX_IMAGES,
    ensures
        d == combination_distance(x@, y@),
        d <= max_distance(x.len() as int),
{
    let mut sum: u64 = 0;
    let mut i: usize = 0;
    while i < x.len()
        invariant
            i <= x.len() == y.len() <= MAX_IMAGES,
            sum == distance_upto(x@, y@, i as int),
        decreases x.len() - i,
    {
        proof {
            lemma_distance_upto_bound(x@, y@, i + 1);
        }
        sum = sum + x[i].simple_distance_to(&y[i]);
        i = i + 1;
    }
    proof {
        lemma_distance_upto_bound(x@, y@, x.len() as int);
    }
    sum
}

fn copy_colors(x: &Vec<Rgba8>) -> (r: Vec<Rgba8>)
    ensures
        r@ == x@,
{
    let mut r: Vec<Rgba8> = Vec::with_capacity(x.len());
    let mut i: usize = 0;
    while i < x.len()
        invariant
            i <= x.len(),
            r@ == x@.subrange(0, i as int),
        decreases x.len() - i,
    {
        r.push(x[i]);
        i = i + 1;
    }
    assert(r@ == x@);
    r
}

impl InputColorCombination {
    pub fn new(colors: Vec<Rgba8>) -> (c: InputColorCombination)
        ensures
            c@ == colors@,
    {
        InputColorCombination { colors }
    }

    /// The colors, one per image.
    pub fn as_pixels(&self) -> (p: Vec<Rgba8>)
        ensures
            p@ == self@,
    {
        copy_colors(&self.colors)
    }

    /// The distance to an output combination with as many colors.
    pub fn distance_to(&self, other: &ColorCombination) -> (d: u64)
        requires
            self@.len() == other@.len(),
            self@.len() <= MAX_IMAGES,
        ensures
            d == combination_distance(self@, other@),
            d <= max_distance(self@.len() as int),
    {
        distance_between(&self.colors, &other.colors)
    }

    /// The normalized distance to an output combination with as many colors.
    pub fn normalized_distance(&self, color_type: ColorType, other: &ColorCombination) -> (d: u64)
        requires
            self@.len() == other@.len(),
            self@.len() <= MAX_IMAGES,
        ensures
            d == normalized_combination_distance(color_type, self@, other@),
            d <= max_distance(self@.len() as int),
    {
        let mut sum: u64 = 0;
        let mut i: usize = 0;
        while i < self.colors.len()
            invariant
                i <= self@.len() == other@.len() <= MAX_IMAGES,
                sum == normalized_upto(color_type, self@, other@, i as int),
            decreases self@.len() - i,
        {
            proof {
                lemma_distance_upto_bound(self@, other@, i + 1);
            }
            sum = sum + self.colors[i].normalized_distance(color_type, &other.colors[i]);
            i = i + 1;
        }
        proof {
            lemma_distance_upto_bound(self@, other@, self@.len() as int);
        }
        sum
    }

    /// The output combination: each color converted to the output format.
    pub fn as_output(&self, color_type: ColorType) -> (o: ColorCombination)
        ensures
            o@ == outputs_of(color_type, self@),
    {
        let mut r: Vec<Rgba8> = Vec::with_capacity(self.colors.len());
        let mut i: usize = 0;
        while i < self.colors.len()
            invariant
                i <= self@.len(),
                r@ == outputs_of(color_type, self@).subrange(0, i as int),
            decreases self@.len() - i,
        {
            r.push(as_output(color_type, self.colors[i]));
            i = i + 1;
        }
        assert(r@ == outputs_of(color_type, self@));
        ColorCombination { colors: r }
    }
}

impl ColorCombination {
    pub fn new(colors: Vec<Rgba8>) -> (c: ColorCombination)
        ensures
            c@ == colors@,
    {
        ColorCombination { colors }
    }

    /// The colors, one per image.
    pub fn as_pixels(&self) -> (p: Vec<Rgba8>)
        ensures
            p@ == self@,
    {
        copy_colors(&self.colors)
    }

    /// The distance to another output combination with as many colors.
    pub fn distance_to(&self, other: &ColorCombination) -> (d: u64)
        requires
            self@.len() == other@.len(),
            self@.len() <= MAX_IMAGES,
        ensures
            d == combination_distance(self@, other@),
            d <= max_distance(self@.len() as int),
    {
        distance_between(&self.colors, &other.colors)
    }

    pub fn copy(&self) -> (c: ColorCombination)
        ensures
            c@ == self@,
    {
        ColorCombination { colors: copy_colors(&self.colors) }
    }
}

/// The groups named by `members`, with the color of each at position `p`.
pub open spec fn column(
    groups: Seq<Grouped<InputColorCombination>>,
    members: Seq<usize>,
    p: int,
) -> Seq<Grouped<Rgba8>> {
    members.map_values(|m: usize| Grouped { data: groups[m as int].data@[p], count: groups[m as int].count })
}

/// Every group holds a combination of `n` colors.
pub open spec fn uniform(groups: Seq<Grouped<InputColorCombination>>, n: int) -> bool {
    forall|g: int| 0 <= g < groups.len() ==> #[trigger] groups[g].data@.len() == n
}

/// The mean of a set of groups, position by position, converted to the
/// output format.
pub open spec fn combination_mean(
    t: ColorType,
    groups: Seq<Grouped<InputColorCombination>>,
    members: Seq<usize>,
    n: int,
) -> Seq<Rgba8> {
    Seq::new(n as nat, |p: int| output_of(t, mean_spec(column(groups, members, p))))
}

/// The weighted mean of the member groups, taken independently at each
/// position and converted to the output format. The mean is rounded to
/// eight bits per channel before it is converted, so for the packed format
/// it is quantized from those rounded channels.
pub fn mean_of(
    groups: &Vec<Grouped<InputColorCombination>>,
    members: &Vec<usize>,
    color_type: ColorType,
) -> (m: ColorCombination)
    requires
        members.len() > 0,
        forall|i: int| 0 <= i < members.len() ==> #[trigger] members[i] < groups.len(),
        uniform(groups@, groups@[members[0] as int].data@.len() as int),
    ensures
        m@ == combination_mean(color_type, groups@, members@, groups@[members[0] as int].data@.len() as int),
{
    let n = groups[members[0]].data.colors.len();
    let mut out: Vec<Rgba8> = Vec::with_capacity(n);
    let mut p: usize = 0;
    while p < n
        invariant
            members.len() > 0,
            p <= n == groups@[members[0] as int].data@.len(),
            uniform(groups@, n as int),
            forall|i: int| 0 <= i < members.len() ==> #[trigger] members[i] < groups.len(),
            out@ == combination_mean(color_type, groups@, members@, n as int).subrange(0, p as int),
        decreases n - p,
    {
        let mut col: Vec<Grouped<Rgba8>> = Vec::with_capacity(members.len());
        let mut i: usize = 0;
        while i < members.len()
            invariant
                i <= members.len(),
                p < n,
                uniform(groups@, n as int),
                forall|j: int| 0 <= j < members.len() ==> #[trigger] members[j] < groups.len(),
                col@ == column(groups@, members@, p as int).subrange(0, i as int),
            decreases members.len() - i,
        {
            let g = &groups[members[i]];
            assert(groups@[members@[i as int] as int].data@.len() == n);
            col.push(Grouped { data: g.data.colors[p], count: g.count });
            i = i + 1;
        }
        assert(col@ == column(groups@, members@, p as int));
        let mean = mean_of_colors(&col);
        out.push(as_output(color_type, mean));
        p = p + 1;
    }
    assert(out@ == combination_mean(color_type, groups@, members@, n as int));
    ColorCombination { colors: out }
}

/// Every color of `x` is an output color of the format `t`: converting it
/// again leaves it unchanged.
pub open spec fn is_output(t: ColorType, x: Seq<Rgba8>) -> bool {
    forall|p: int| 0 <= p < x.len() ==> #[trigger] output_of(t, x[p]) == x[p]
}

/// Converted combinations and means are output combinations.
pub proof fn lemma_outputs_are_outputs(
    t: ColorType,
    x: Seq<Rgba8>,
    groups: Seq<Grouped<InputColorCombination>>,
    members: Seq<usize>,
    n: int,
)
    ensures
        is_output(t, outputs_of(t, x)),
        is_output(t, combination_mean(t, groups, members, n)),
{
    assert forall|p: int| 0 <= p < outputs_of(t, x).len() implies #[trigger] output_of(t, outputs_of(t, x)[p])
        == outputs_of(t, x)[p] by {
        crate::color::lemma_output_idempotent(t, x[p]);
    }
    let m = combination_mean(t, groups, members, n);
    assert forall|p: int| 0 <= p < m.len() implies #[trigger] output_of(t, m[p]) == m[p] by {
        crate::color::lemma_output_idempotent(t, mean_spec(column(groups, members, p)));
    }
}

} // verus!
