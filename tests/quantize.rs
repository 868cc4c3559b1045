use color_smash::color::{as_output, ColorType, Rgba8};
use color_smash::combination::{ColorCombination, InputColorCombination};
use color_smash::grouping::{collect_groups, compare, Grouped};
use color_smash::images::{create_quantization_map, get_color_combinations, quantize_images, PALETTE_SIZE};
use color_smash::initializer::{farthest_point_of, initialize_centers, worst_cluster};
use color_smash::k_means::{assign_to_clusters, duplicate_centers, empty_clusters, nearest, run};
use color_smash::options::color_type;

fn rgba(r: u8, g: u8, b: u8, a: u8) -> Rgba8 {
    Rgba8 { r, g, b, a }
}

fn single(c: Rgba8) -> InputColorCombination {
    InputColorCombination::new(vec![c])
}

/// A 32 by 32 image whose opaque pixels are distinct even at five bits per
/// channel, with some transparent pixels among them.
fn test_image() -> Vec<Rgba8> {
    let mut pixels = Vec::new();
    for y in 0..32u32 {
        for x in 0..32u32 {
            let a = if (x + y) % 11 == 0 { 0 } else { 255 };
            pixels.push(rgba((x * 8) as u8, (y * 8) as u8, ((x * y) % 256) as u8, a));
        }
    }
    pixels
}

/// A 32 by 32 image with pixels of many alpha levels.
fn translucent_image() -> Vec<Rgba8> {
    let mut pixels = Vec::new();
    for y in 0..32u32 {
        for x in 0..32u32 {
            let a = if (x + y) % 11 == 0 { 0 } else { (255 - (x * 5 + y) % 180) as u8 };
            pixels.push(rgba((x * 8) as u8, (y * 8) as u8, ((x * y) % 256) as u8, a));
        }
    }
    pixels
}

fn distinct_outputs(outputs: &[Vec<Rgba8>]) -> usize {
    let mut seen: Vec<Vec<Rgba8>> = Vec::new();
    for o in outputs {
        if !seen.contains(o) {
            seen.push(o.clone());
        }
    }
    seen.len()
}

fn check_256_colors() {
    let images = vec![test_image()];
    let map = create_quantization_map(&images, ColorType::Rgb5a3);
    let outputs: Vec<Vec<Rgba8>> =
        map.cluster_per_group.iter().map(|&c| map.centers[c].colors.clone()).collect();
    assert_eq!(distinct_outputs(&outputs), 256);
}

#[test]
fn has_256_colors() {
    check_256_colors();
}

#[test]
fn tests_has_256_colors() {
    check_256_colors();
}

#[test]
fn rgb_is_zero_if_alpha_is() {
    check_rgb_zero_if_alpha_is();
}

#[test]
fn tests_rgb_is_zero_if_alpha_is() {
    check_rgb_zero_if_alpha_is();
}

fn check_rgb_zero_if_alpha_is() {
    let images = vec![translucent_image()];
    let map = create_quantization_map(&images, ColorType::Rgb5a3);
    for g in 0..map.groups.len() {
        for color in map.groups[g].data.colors.iter().chain(map.centers[map.cluster_per_group[g]].colors.iter()) {
            if color.a == 0 {
                assert_eq!(*color, rgba(0, 0, 0, 0));
            }
        }
    }
}

#[test]
fn grouping_collapses_transparent_colors() {
    let items = vec![
        single(rgba(255, 0, 0, 0)),
        single(rgba(1, 2, 3, 4)),
        single(rgba(0, 255, 7, 0)),
        single(rgba(1, 2, 3, 4)),
        single(rgba(0, 0, 0, 0)),
    ];
    let groups = collect_groups(&items);
    assert_eq!(groups.len(), 2);
    assert_eq!(groups[0].data.colors, vec![rgba(0, 0, 0, 0)]);
    assert_eq!(groups[0].count, 3);
    assert_eq!(groups[1].data.colors, vec![rgba(1, 2, 3, 4)]);
    assert_eq!(groups[1].count, 2);
}

#[test]
fn grouping_of_nothing_is_empty() {
    assert!(collect_groups(&Vec::new()).is_empty());
}

#[test]
fn lexicographic_compare() {
    let a = vec![rgba(1, 2, 3, 4), rgba(9, 9, 9, 9)];
    let b = vec![rgba(1, 2, 3, 5), rgba(0, 0, 0, 1)];
    assert!(compare(&a, &b) < 0);
    assert!(compare(&b, &a) > 0);
    assert_eq!(compare(&a, &a), 0);
    assert!(compare(&a[..1].to_vec(), &a) < 0);
}

#[test]
fn fewer_groups_than_centers_are_kept_exactly() {
    let items = vec![single(rgba(10, 20, 30, 255)), single(rgba(200, 100, 0, 255)), single(rgba(10, 20, 30, 255))];
    let groups = collect_groups(&items);
    let clustering = run(&groups, ColorType::Rgba8, 256);
    assert_eq!(clustering.centers.len(), 2);
    assert!(clustering.converged);
    for g in 0..groups.len() {
        assert_eq!(clustering.centers[clustering.cluster_per_group[g]].colors, groups[g].data.colors);
    }
}

#[test]
fn full_palette_from_many_colors() {
    let items: Vec<InputColorCombination> = test_image().into_iter().map(single).collect();
    let groups = collect_groups(&items);
    assert!(groups.len() > PALETTE_SIZE);
    let clustering = run(&groups, ColorType::Rgba8, PALETTE_SIZE);
    assert_eq!(clustering.centers.len(), PALETTE_SIZE);
    assert_eq!(clustering.cluster_per_group.len(), groups.len());
    assert!(clustering.cluster_per_group.iter().all(|&c| c < PALETTE_SIZE));
}

#[test]
fn refinement_is_reproducible() {
    let items: Vec<InputColorCombination> = translucent_image().into_iter().map(single).collect();
    let groups = collect_groups(&items);
    let first = run(&groups, ColorType::Rgb5a3, 64);
    let second = run(&groups, ColorType::Rgb5a3, 64);
    assert!(first.converged);
    assert_eq!(first.cluster_per_group, second.cluster_per_group);
    for c in 0..first.centers.len() {
        assert_eq!(first.centers[c].colors, second.centers[c].colors);
    }
}

#[test]
fn seeding_starts_at_the_most_frequent_group() {
    let items = vec![
        single(rgba(0, 0, 0, 255)),
        single(rgba(255, 255, 255, 255)),
        single(rgba(255, 255, 255, 255)),
        single(rgba(250, 0, 0, 255)),
        single(rgba(0, 0, 250, 255)),
    ];
    let groups = collect_groups(&items);
    let (centers, assignment) = initialize_centers(2, &groups, ColorType::Rgba8, 1);
    assert_eq!(centers.len(), 2);
    assert_eq!(centers[0].colors, vec![rgba(255, 255, 255, 255)]);
    // The black group is the farthest from white.
    assert_eq!(centers[1].colors, vec![rgba(0, 0, 0, 255)]);
    for g in 0..groups.len() {
        assert!(assignment[g] < 2);
    }
}

#[test]
fn worst_cluster_and_farthest_point() {
    let costs: Vec<u128> = vec![5, 9, 9, 1];
    let clusters: Vec<usize> = vec![0, 2, 1, 3, 2];
    assert_eq!(worst_cluster(&costs, &clusters), 1);
    let distances: Vec<u64> = vec![4, 7, 1, 0, 7];
    assert_eq!(farthest_point_of(2, &clusters, &distances), 1);
    assert_eq!(farthest_point_of(0, &clusters, &distances), 0);
}

#[test]
fn pruned_assignment_matches_full_scan_on_opaque_colors() {
    let mut items = Vec::new();
    for i in 0..60u32 {
        items.push(single(rgba((i * 37 % 256) as u8, (i * 91 % 256) as u8, (i * 13 % 256) as u8, 255)));
    }
    let groups = collect_groups(&items);
    let centers: Vec<ColorCombination> = [0usize, 7, 19, 33, 48]
        .iter()
        .map(|&g| groups[g].data.as_output(ColorType::Rgba8))
        .collect();
    let prior: Vec<usize> = (0..groups.len()).map(|g| g % centers.len()).collect();
    let assigned = assign_to_clusters(&groups, &centers, &prior, 1);
    for g in 0..groups.len() {
        let full = nearest(&groups[g].data, &centers);
        let x = &groups[g].data;
        assert_eq!(x.distance_to(&centers[assigned[g]]), x.distance_to(&centers[full]));
    }
}

#[test]
fn two_images_share_one_palette() {
    let first = test_image();
    let second: Vec<Rgba8> = first.iter().map(|c| rgba(c.b, c.r, c.g, 255)).collect();
    let images = vec![first.clone(), second.clone()];
    let map = create_quantization_map(&images, ColorType::Rgba8);
    let out = quantize_images(&map, &images);
    assert_eq!(out.len(), 2);
    assert_eq!(out[0].len(), first.len());
    assert_eq!(out[1].len(), second.len());
    let combinations = get_color_combinations(&images);
    for p in 0..first.len() {
        let center = map.get(&combinations[p]).unwrap();
        assert_eq!(out[0][p], center.colors[0]);
        assert_eq!(out[1][p], center.colors[1]);
        assert_eq!(as_output(ColorType::Rgba8, out[0][p]), out[0][p]);
    }
    let tuples: Vec<Vec<Rgba8>> = (0..first.len()).map(|p| vec![out[0][p], out[1][p]]).collect();
    assert!(distinct_outputs(&tuples) <= PALETTE_SIZE);
}

#[test]
fn quantized_images_use_output_colors() {
    let images = vec![translucent_image()];
    let map = create_quantization_map(&images, ColorType::Rgb5a3);
    let out = quantize_images(&map, &images);
    for &c in &out[0] {
        assert_eq!(as_output(ColorType::Rgb5a3, c), c);
    }
}

#[test]
fn mean_of_one_group_is_its_output() {
    let groups = vec![Grouped::new(single(rgba(100, 50, 25, 200)), 3)];
    let members = vec![0usize];
    let mean = color_smash::combination::mean_of(&groups, &members, ColorType::Rgba8);
    assert_eq!(mean.colors, vec![rgba(100, 50, 25, 200)]);
}

#[test]
fn color_type_option() {
    assert!(matches!(color_type(None), Ok(ColorType::Rgba8)));
    assert!(matches!(color_type(Some("rgba8".to_string())), Ok(ColorType::Rgba8)));
    assert!(matches!(color_type(Some("RGB5A3".to_string())), Ok(ColorType::Rgb5a3)));
    assert!(matches!(color_type(Some("Rgb5a3".to_string())), Ok(ColorType::Rgb5a3)));
    match color_type(Some("RGB565".to_string())) {
        Err(e) => assert_eq!(e, "Unknown color type RGB565"),
        Ok(_) => panic!("accepted an unknown color type"),
    }
}

#[test]
fn duplicate_centers_are_counted() {
    let a = || ColorCombination::new(vec![rgba(1, 2, 3, 255)]);
    let b = || ColorCombination::new(vec![rgba(3, 2, 1, 255)]);
    assert_eq!(duplicate_centers(&vec![a(), b(), a(), a(), b()]), 3);
    assert_eq!(duplicate_centers(&vec![a(), b()]), 0);
    assert_eq!(duplicate_centers(&Vec::new()), 0);
}

#[test]
fn images_without_pixels_give_an_empty_map() {
    let images: Vec<Vec<Rgba8>> = vec![Vec::new(), Vec::new()];
    let map = create_quantization_map(&images, ColorType::Rgb5a3);
    assert!(map.groups.is_empty());
    assert!(map.centers.is_empty());
    let out = quantize_images(&map, &images);
    assert_eq!(out.len(), 2);
    assert!(out[0].is_empty() && out[1].is_empty());
}

#[test]
fn map_has_no_entry_for_unseen_combinations() {
    let images = vec![vec![rgba(10, 20, 30, 255), rgba(0, 0, 0, 0)]];
    let map = create_quantization_map(&images, ColorType::Rgba8);
    assert!(map.get(&single(rgba(1, 1, 1, 255))).is_none());
    // Any transparent color finds the transparent entry.
    let found = map.get(&single(rgba(99, 98, 97, 0))).unwrap();
    assert_eq!(found.colors, vec![rgba(0, 0, 0, 0)]);
}

#[test]
fn empty_clusters_are_counted() {
    assert_eq!(empty_clusters(&vec![0, 2, 2, 0], 4), 2);
    assert_eq!(empty_clusters(&vec![], 3), 3);
}

#[test]
fn first_seed_is_the_most_frequent_group_with_few_groups() {
    let items = vec![single(rgba(10, 10, 10, 255)), single(rgba(200, 0, 0, 255)), single(rgba(200, 0, 0, 255))];
    let groups = collect_groups(&items);
    assert_eq!(groups[0].count, 1);
    assert_eq!(groups[1].count, 2);
    let (centers, assignment) = initialize_centers(256, &groups, ColorType::Rgba8, 1);
    assert_eq!(centers.len(), 2);
    assert_eq!(centers[0].colors, vec![rgba(200, 0, 0, 255)]);
    for g in 0..groups.len() {
        assert_eq!(centers[assignment[g]].colors, groups[g].data.colors);
    }
}

#[test]
fn refinement_makes_at_least_one_round() {
    let items: Vec<InputColorCombination> = translucent_image().into_iter().map(single).collect();
    let groups = collect_groups(&items);
    let clustering = run(&groups, ColorType::Rgba8, 16);
    assert!(clustering.iterations >= 1);
    assert!(clustering.converged || clustering.iterations == color_smash::k_means::MAX_ITERATIONS);
    assert_eq!(clustering.empty_clusters, empty_clusters(&clustering.cluster_per_group, 16));
}
