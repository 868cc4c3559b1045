//! Quantization of a set of images that share one palette: the pixels at
//! each position form one color combination, the combinations are grouped
//! and clustered, and each image gets back its own slot of the center that
//! its pixel's combination was assigned to.
use vstd::prelude::*;

use crate::color::{output_of, ColorType, Rgba8};
use crate::combination::{
    canonical_of, is_output, uniform, ColorCombination, InputColorCombination, MAX_IMAGES,
};
use crate::grouping::{
    canonical_combination, collect_groups, count_in, find_group, lemma_canonical_idempotent, lemma_count_in_witness, lemma_lex_order,
    sorted_groups, Grouped,
};
use crate::k_means::{centers_uniform, run, stable};

verus! {

/// The number of colors in a palette.
pub const PALETTE_SIZE: usize = 256;

/// The images have the same number of pixels, there is at least one image,
/// and there are few enough images and pixels to count.
pub open spec fn images_ok(images: Seq<Vec<Rgba8>>) -> bool {
    &&& 1 <= images.len() <= MAX_IMAGES
    &&& images[0]@.len() <= u32::MAX
    &&& forall|i: int| 0 <= i < images.len() ==> #[trigger] images[i]@.len() == images[0]@.len()
}

/// The colors of the images at pixel `p`, one per image.
pub open spec fn pixel_combination(images: Seq<Vec<Rgba8>>, p: int) -> Seq<Rgba8> {
    Seq::new(images.len(), |i: int| images[i]@[p])
}

/// The number of the first `n` pixel positions whose combination has the
/// canonical form `v`.
pub open spec fn pixel_count(images: Seq<Vec<Rgba8>>, v: Seq<Rgba8>, n: int) -> int
    decreases n,
{
    if n <= 0 {
        0
    } else {
        pixel_count(images, v, n - 1) + if canonical_of(pixel_combination(images, n - 1)) == v {
            1int
        } else {
            0int
        }
    }
}

proof fn lemma_pixel_count(
    images: Seq<Vec<Rgba8>>,
    items: Seq<InputColorCombination>,
    v: Seq<Rgba8>,
    n: int,
)
    requires
        0 <= n <= items.len(),
        forall|q: int| 0 <= q < items.len() ==> (#[trigger] items[q])@ == pixel_combination(images, q),
    ensures
        count_in(items, v, n) == pixel_count(images, v, n),
    decreases n,
{
    if n > 0 {
        lemma_pixel_count(images, items, v, n - 1);
        assert(items[n - 1]@ == pixel_combination(images, n - 1));
    }
}

/// The mapping from each distinct combination of input colors to the
/// combination of output colors that stands for it.
pub struct QuantizationMap {
    pub groups: Vec<Grouped<InputColorCombination>>,
    pub centers: Vec<ColorCombination>,
    pub cluster_per_group: Vec<usize>,
    pub converged: bool,
    pub iterations: usize,
    pub empty_clusters: usize,
    pub duplicate_centers: usize,
    pub color_type: ColorType,
}

impl QuantizationMap {
    /// The groups are sorted and each is assigned to a center.
    pub open spec fn wf(&self) -> bool {
        &&& sorted_groups(self.groups@)
        &&& self.cluster_per_group.len() == self.groups.len()
        &&& forall|g: int|
            0 <= g < self.groups.len() ==> #[trigger] self.cluster_per_group@[g] < self.centers.len()
        &&& forall|c: int| 0 <= c < self.centers.len() ==> is_output(self.color_type, (#[trigger] self.centers@[c])@)
    }

    /// The map has an entry for the canonical form of `x`.
    pub open spec fn has(&self, x: Seq<Rgba8>) -> bool {
        exists|g: int| 0 <= g < self.groups.len() && #[trigger] self.groups@[g].data@ == canonical_of(x)
    }

    /// The output combination for `x`: the center of the group of its
    /// canonical form.
    pub open spec fn output(&self, x: Seq<Rgba8>) -> Seq<Rgba8> {
        let g = choose|g: int| 0 <= g < self.groups.len() && #[trigger] self.groups@[g].data@ == canonical_of(x);
        self.centers@[self.cluster_per_group@[g] as int]@
    }

    /// The output combination for `x`, where the map has an entry for it.
    pub fn get(&self, x: &InputColorCombination) -> (r: Option<ColorCombination>)
        requires
            self.wf(),
        ensures
            r is Some <==> self.has(x@),
            r matches Some(c) ==> c@ == self.output(x@),
    {
        let key = canonical_combination(x);
        match find_group(&self.groups, &key.colors) {
            Ok(g) => {
                proof {
                    let h = choose|h: int| 0 <= h < self.groups.len() && #[trigger] self.groups@[h].data@ == canonical_of(x@);
                    if h != g {
                        lemma_lex_order(self.groups@[h].data@, self.groups@[g as int].data@, key@);
                        if h < g {
                            assert(crate::grouping::lex_lt(self.groups@[h].data@, self.groups@[g as int].data@));
                        } else {
                            assert(crate::grouping::lex_lt(self.groups@[g as int].data@, self.groups@[h].data@));
                        }
                    }
                }
                Some(self.centers[self.cluster_per_group[g]].copy())
            },
            Err(_) => {
                proof {
                    if self.has(x@) {
                        let h = choose|h: int| 0 <= h < self.groups.len() && #[trigger] self.groups@[h].data@ == canonical_of(x@);
                        lemma_lex_order(self.groups@[h].data@, key@, key@);
                    }
                }
                None
            },
        }
    }
}

/// The color combination at each pixel position.
pub fn get_color_combinations(images: &Vec<Vec<Rgba8>>) -> (r: Vec<InputColorCombination>)
    requires
        images_ok(images@),
    ensures
        r.len() == images@[0]@.len(),
        forall|p: int| 0 <= p < r.len() ==> (#[trigger] r@[p])@ == pixel_combination(images@, p),
{
    let size = images[0].len();
    let mut r: Vec<InputColorCombination> = Vec::with_capacity(size);
    let mut p: usize = 0;
    while p < size
        invariant
            p <= size == images@[0]@.len(),
            images_ok(images@),
            r.len() == p,
            forall|q: int| 0 <= q < p ==> (#[trigger] r@[q])@ == pixel_combination(images@, q),
        decreases size - p,
    {
        let mut colors: Vec<Rgba8> = Vec::with_capacity(images.len());
        let mut i: usize = 0;
        while i < images.len()
            invariant
                i <= images.len(),
                p < size == images@[0]@.len(),
                images_ok(images@),
                colors@ == pixel_combination(images@, p as int).subrange(0, i as int),
            decreases images.len() - i,
        {
            assert(images@[i as int]@.len() == size);
            colors.push(images[i][p]);
            i = i + 1;
        }
        assert(colors@ == pixel_combination(images@, p as int));
        r.push(InputColorCombination { colors });
        p = p + 1;
    }
    r
}

/// Builds the quantization map of a set of images: the distinct canonical
/// combinations of their pixels, clustered to at most `PALETTE_SIZE`
/// centers in the output format `color_type`.
pub fn create_quantization_map(images: &Vec<Vec<Rgba8>>, color_type: ColorType) -> (m: QuantizationMap)
    requires
        images_ok(images@),
    ensures
        m.wf(),
        forall|p: int| 0 <= p < images@[0]@.len() ==> #[trigger] m.has(pixel_combination(images@, p)),
        m.centers.len() == if m.groups.len() <= PALETTE_SIZE { m.groups.len() } else { PALETTE_SIZE },
        centers_uniform(m.centers@, images.len() as int),
        uniform(m.groups@, images.len() as int),
        m.color_type == color_type,
        forall|g: int|
            0 <= g < m.groups.len() ==> #[trigger] m.groups@[g].count == pixel_count(
                images@,
                m.groups@[g].data@,
                images@[0]@.len() as int,
            ) && m.groups@[g].count >= 1 && canonical_of(m.groups@[g].data@) == m.groups@[g].data@,
        m.converged && m.groups.len() > PALETTE_SIZE ==> stable(color_type, m.groups@, m.centers@, m.cluster_per_group@, images.len() as int),
{
    let combinations = get_color_combinations(images);
    let groups = collect_groups(&combinations);
    proof {
        assert forall|g: int| 0 <= g < groups.len() implies #[trigger] groups@[g].data@.len() == images.len() by {
            assert(groups@[g].count == crate::grouping::count_in(combinations@, groups@[g].data@, combinations.len() as int));
            lemma_count_in_witness(combinations@, groups@[g].data@, combinations.len() as int);
            let p = choose|p: int| 0 <= p < combinations.len() && canonical_of(#[trigger] combinations@[p]@) == groups@[g].data@;
            assert(combinations@[p]@ == pixel_combination(images@, p));
        }
        assert forall|g: int| 0 <= g < groups.len() implies #[trigger] groups@[g].count == pixel_count(
            images@,
            groups@[g].data@,
            images@[0]@.len() as int,
        ) && groups@[g].count >= 1 && canonical_of(groups@[g].data@) == groups@[g].data@ by {
            assert(groups@[g].count == count_in(combinations@, groups@[g].data@, combinations.len() as int));
            lemma_pixel_count(images@, combinations@, groups@[g].data@, combinations.len() as int);
            lemma_count_in_witness(combinations@, groups@[g].data@, combinations.len() as int);
            let p = choose|p: int| 0 <= p < combinations.len() && canonical_of(#[trigger] combinations@[p]@) == groups@[g].data@;
            lemma_canonical_idempotent(combinations@[p]@);
        }
        assert forall|p: int| 0 <= p < images@[0]@.len() implies #[trigger] has_entry(groups@, pixel_combination(images@, p)) by {
            assert(combinations@[p]@ == pixel_combination(images@, p));
            assert(combinations@[p] == combinations@[p]);
        }
    }
    let ghost gs = groups@;
    let m = if groups.len() == 0 {
        QuantizationMap {
            groups,
            centers: Vec::new(),
            cluster_per_group: Vec::new(),
            converged: true,
            iterations: 0,
            empty_clusters: 0,
            duplicate_centers: 0,
            color_type,
        }
    } else {
        let clustering = run(&groups, color_type, PALETTE_SIZE);
        QuantizationMap {
            groups,
            centers: clustering.centers,
            cluster_per_group: clustering.cluster_per_group,
            converged: clustering.converged,
            iterations: clustering.iterations,
            empty_clusters: clustering.empty_clusters,
            duplicate_centers: clustering.duplicate_centers,
            color_type,
        }
    };
    assert forall|g: int| 0 <= g < m.groups.len() implies #[trigger] m.groups@[g].count == pixel_count(
        images@,
        m.groups@[g].data@,
        images@[0]@.len() as int,
    ) && m.groups@[g].count >= 1 && canonical_of(m.groups@[g].data@) == m.groups@[g].data@ by {
        assert(m.groups@[g] == gs[g]);
    }
    assert forall|p: int| 0 <= p < images@[0]@.len() implies #[trigger] m.has(pixel_combination(images@, p)) by {
        assert(has_entry(gs, pixel_combination(images@, p)));
        let g = choose|g: int| 0 <= g < gs.len() && #[trigger] gs[g].data@ == canonical_of(pixel_combination(images@, p));
        assert(m.groups@[g].data@ == canonical_of(pixel_combination(images@, p)));
    }
    m
}

/// One of the groups holds the canonical form of `x`.
pub open spec fn has_entry(groups: Seq<Grouped<InputColorCombination>>, x: Seq<Rgba8>) -> bool {
    exists|g: int| 0 <= g < groups.len() && #[trigger] groups[g].data@ == canonical_of(x)
}

/// Rewrites every pixel of every image with its image's slot of the output
/// combination that the map gives the pixel's combination.
pub fn quantize_images(map: &QuantizationMap, images: &Vec<Vec<Rgba8>>) -> (r: Vec<Vec<Rgba8>>)
    requires
        images_ok(images@),
        map.wf(),
        centers_uniform(map.centers@, images.len() as int),
        forall|p: int| 0 <= p < images@[0]@.len() ==> #[trigger] map.has(pixel_combination(images@, p)),
    ensures
        r.len() == images.len(),
        forall|i: int| 0 <= i < images.len() ==> (#[trigger] r@[i])@.len() == images@[i]@.len(),
        forall|i: int, p: int|
            0 <= i < images.len() && 0 <= p < images@[0]@.len() ==> #[trigger] r@[i]@[p] == map.output(
                pixel_combination(images@, p),
            )[i] && output_of(map.color_type, r@[i]@[p]) == r@[i]@[p],
{
    let combinations = get_color_combinations(images);
    let size = images[0].len();
    let mut outputs: Vec<ColorCombination> = Vec::with_capacity(size);
    let mut p: usize = 0;
    while p < size
        invariant
            p <= size == images@[0]@.len() == combinations.len(),
            images_ok(images@),
            map.wf(),
            centers_uniform(map.centers@, images.len() as int),
            forall|q: int| 0 <= q < images@[0]@.len() ==> #[trigger] map.has(pixel_combination(images@, q)),
            forall|q: int| 0 <= q < combinations.len() ==> (#[trigger] combinations@[q])@ == pixel_combination(images@, q),
            outputs.len() == p,
            forall|q: int| 0 <= q < p ==> (#[trigger] outputs@[q])@ == map.output(pixel_combination(images@, q)),
        decreases size - p,
    {
        assert(combinations@[p as int]@ == pixel_combination(images@, p as int));
        assert(map.has(pixel_combination(images@, p as int)));
        match map.get(&combinations[p]) {
            Some(c) => {
                outputs.push(c);
            },
            None => {
                assert(false);
                return Vec::new();
            },
        }
        p = p + 1;
    }
    let mut r: Vec<Vec<Rgba8>> = Vec::with_capacity(images.len());
    let mut i: usize = 0;
    while i < images.len()
        invariant
            i <= images.len(),
            size == images@[0]@.len() == outputs.len(),
            images_ok(images@),
            map.wf(),
            centers_uniform(map.centers@, images.len() as int),
            forall|q: int| 0 <= q < size ==> #[trigger] map.has(pixel_combination(images@, q)),
            forall|q: int| 0 <= q < size ==> (#[trigger] outputs@[q])@ == map.output(pixel_combination(images@, q)),
            r.len() == i,
            forall|i2: int| 0 <= i2 < i ==> (#[trigger] r@[i2])@.len() == images@[i2]@.len(),
            forall|i2: int, q: int|
                0 <= i2 < i && 0 <= q < size ==> #[trigger] r@[i2]@[q] == map.output(
                    pixel_combination(images@, q),
                )[i2] && output_of(map.color_type, r@[i2]@[q]) == r@[i2]@[q],
        decreases images.len() - i,
    {
        let mut image: Vec<Rgba8> = Vec::with_capacity(size);
        let mut q: usize = 0;
        while q < size
            invariant
                q <= size == outputs.len(),
                i < images.len(),
                map.wf(),
                centers_uniform(map.centers@, images.len() as int),
                forall|q2: int| 0 <= q2 < size ==> #[trigger] map.has(pixel_combination(images@, q2)),
                forall|q2: int| 0 <= q2 < size ==> (#[trigger] outputs@[q2])@ == map.output(pixel_combination(images@, q2)),
                image.len() == q,
                forall|q2: int| 0 <= q2 < q ==> #[trigger] image@[q2] == map.output(pixel_combination(images@, q2))[i as int]
                    && output_of(map.color_type, image@[q2]) == image@[q2],
            decreases size - q,
        {
            proof {
                let x = pixel_combination(images@, q as int);
                assert(map.has(x));
                let g = choose|g: int| 0 <= g < map.groups.len() && #[trigger] map.groups@[g].data@ == canonical_of(x);
                assert(map.centers@[map.cluster_per_group@[g] as int]@.len() == images.len());
                assert(is_output(map.color_type, map.centers@[map.cluster_per_group@[g] as int]@));
            }
            image.push(outputs[q].colors[i]);
            q = q + 1;
        }
        r.push(image);
        i = i + 1;
    }
    r
}

} // verus!
