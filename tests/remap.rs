use advent::error::GenericError;
use advent::remap::{
    apply_pipeline, apply_stage, minimum_start, EntityType, Mapping, MappingGroup, ProblemSet,
};

fn group(source_type: EntityType, destination_type: EntityType, triples: &[(usize, usize, usize)]) -> MappingGroup {
    let mut mappings = vec![];
    for &(destination, source, span) in triples {
        mappings.push(Mapping::new(destination, source, span).unwrap());
    }
    MappingGroup { source_type, destination_type, mappings }
}

fn example_problem() -> ProblemSet {
    ProblemSet {
        seeds: vec![79, 14, 55, 13],
        mapping_groups: vec![
            group(EntityType::Seed, EntityType::Soil, &[(50, 98, 2), (52, 50, 48)]),
            group(EntityType::Soil, EntityType::Fertiliser, &[(0, 15, 37), (37, 52, 2), (39, 0, 15)]),
            group(EntityType::Fertiliser, EntityType::Water, &[(49, 53, 8), (0, 11, 42), (42, 0, 7), (57, 7, 4)]),
            group(EntityType::Water, EntityType::Light, &[(88, 18, 7), (18, 25, 70)]),
            group(EntityType::Light, EntityType::Temperature, &[(45, 77, 23), (81, 45, 19), (68, 64, 13)]),
            group(EntityType::Temperature, EntityType::Humidity, &[(0, 69, 1), (1, 0, 69)]),
            group(EntityType::Humidity, EntityType::Location, &[(60, 56, 37), (56, 93, 4)]),
        ],
    }
}

fn total_length(ranges: &[std::ops::Range<usize>]) -> usize {
    ranges.iter().map(|r| r.end - r.start).sum()
}

#[test]
fn stress_test_mapping_group() {
    let mapping_group = MappingGroup {
        source_type: EntityType::Seed,
        destination_type: EntityType::Fertiliser,
        mappings: vec![Mapping { source: 10, destination: 30, span: 10 }],
    };

    // Single output
    assert_eq!(mapping_group.do_range_mapping(&(0..2)), vec!(0..2)); // Fully separate left of mapping
    assert_eq!(mapping_group.do_range_mapping(&(8..10)), vec!(8..10)); // Adjacent left of mapping
    assert_eq!(mapping_group.do_range_mapping(&(10..12)), vec!(30..32)); // Tight left of mapping
    assert_eq!(mapping_group.do_range_mapping(&(12..18)), vec!(32..38)); // Fully contained inside mapping
    assert_eq!(mapping_group.do_range_mapping(&(10..20)), vec!(30..40)); // Tightly contained inside mapping
    assert_eq!(mapping_group.do_range_mapping(&(18..20)), vec!(38..40)); // Tight right of mapping
    assert_eq!(mapping_group.do_range_mapping(&(20..22)), vec!(20..22)); // Adjacent right of mapping
    assert_eq!(mapping_group.do_range_mapping(&(22..24)), vec!(22..24)); // Fully separate right of mapping

    // Multi output
    assert_eq!(mapping_group.do_range_mapping(&(8..12)), vec!(30..32, 8..10)); // Intersection left of mapping
    assert_eq!(mapping_group.do_range_mapping(&(18..22)), vec!(38..40, 20..22)); // Intersection right of mapping
    assert_eq!(mapping_group.do_range_mapping(&(8..22)), vec!(30..40, 8..10, 20..22)); // Mapping fully contained within range
}

#[test]
fn day5_run_test_1() {
    assert_eq!(example_problem().lowest_location_for_seeds(), 35);
}

#[test]
fn day5_run_test_2() {
    assert_eq!(example_problem().lowest_location_for_seed_ranges(), Ok(46));
}

#[test]
fn seed_range_79_through_pipeline_reaches_46() {
    assert_eq!(example_problem().get_min_location_for_seed_range(79, 14), Ok(46));
}

#[test]
fn single_seed_locations() {
    let problem = example_problem();
    assert_eq!(problem.get_location_for_seed(79), 82);
    assert_eq!(problem.get_location_for_seed(14), 43);
    assert_eq!(problem.get_location_for_seed(55), 86);
    assert_eq!(problem.get_location_for_seed(13), 35);
}

#[test]
fn group_maps_single_values() {
    let g = group(EntityType::Seed, EntityType::Soil, &[(50, 98, 2), (52, 50, 48)]);
    assert_eq!(g.do_mapping(98), 50);
    assert_eq!(g.do_mapping(99), 51);
    assert_eq!(g.do_mapping(100), 100);
    assert_eq!(g.do_mapping(53), 55);
    assert_eq!(g.do_mapping(10), 10);
}

#[test]
fn mapping_bounds_and_translation() {
    let m = Mapping::new(30, 10, 10).unwrap();
    assert_eq!(m.source_begin(), 10);
    assert_eq!(m.source_end(), 20);
    assert_eq!(m.destination_begin(), 30);
    assert_eq!(m.destination_end(), 40);
    assert_eq!(m.do_mapping(15), 35);
    assert_eq!(m.do_mapping(20), 40);
}

#[test]
fn malformed_mappings_are_rejected() {
    assert_eq!(Mapping::new(30, 10, 0), Err(GenericError::MalformedMapping));
    assert_eq!(Mapping::new(30, usize::MAX, 1), Err(GenericError::MalformedMapping));
    assert_eq!(Mapping::new(usize::MAX - 1, 0, 2), Err(GenericError::MalformedMapping));
    assert_eq!(Mapping::new(usize::MAX - 2, 0, 2), Ok(Mapping { source: 0, destination: usize::MAX - 2, span: 2 }));
}

#[test]
fn stage_keeps_total_length() {
    let g = group(EntityType::Seed, EntityType::Soil, &[(50, 98, 2), (52, 50, 48), (0, 0, 5)]);
    let input = vec![0..10, 45..120, 97..99, 7..7];
    let out = apply_stage(&input, &g);
    assert_eq!(total_length(&out), total_length(&input));
    assert!(out.iter().all(|r| r.start < r.end));
}

#[test]
fn range_outside_every_mapping_passes_unchanged() {
    let g = group(EntityType::Seed, EntityType::Soil, &[(50, 98, 2), (52, 50, 48)]);
    assert_eq!(apply_stage(&vec![20..50, 100..130], &g), vec![20..50, 100..130]);
}

#[test]
fn exact_source_interval_maps_unsplit() {
    let g = group(EntityType::Seed, EntityType::Soil, &[(50, 98, 2), (52, 50, 48)]);
    assert_eq!(g.do_range_mapping(&(50..98)), vec![52..100]);
    assert_eq!(g.do_range_mapping(&(98..100)), vec![50..52]);
}

#[test]
fn splits_never_leave_empty_ranges() {
    let g = group(EntityType::Seed, EntityType::Soil, &[(100, 10, 10), (200, 20, 5)]);
    let out = g.do_range_mapping(&(10..25));
    assert_eq!(out, vec![100..110, 200..205]);
    assert_eq!(g.do_range_mapping(&(5..5)), vec![]);
}

#[test]
fn stage_order_matters() {
    let first = group(EntityType::Seed, EntityType::Soil, &[(100, 0, 10)]);
    let second = group(EntityType::Soil, EntityType::Fertiliser, &[(0, 100, 10)]);
    let forward = apply_pipeline(&vec![0..10], &vec![
        group(EntityType::Seed, EntityType::Soil, &[(100, 0, 10)]),
        group(EntityType::Soil, EntityType::Fertiliser, &[(0, 100, 10)]),
    ]);
    let backward = apply_pipeline(&vec![0..10], &vec![second, first]);
    assert_eq!(forward, vec![0..10]);
    assert_eq!(backward, vec![100..110]);
    assert_ne!(forward, backward);
}

#[test]
fn minimum_start_of_ranges() {
    assert_eq!(minimum_start(&vec![5..9, 2..3, 7..8]), Ok(2));
    assert_eq!(minimum_start(&vec![]), Err(GenericError::EmptyRangeSet));
}

#[test]
fn seed_range_errors() {
    let problem = example_problem();
    assert_eq!(problem.get_min_location_for_seed_range(5, 0), Err(GenericError::EmptyRangeSet));
    assert_eq!(problem.get_min_location_for_seed_range(usize::MAX, 2), Err(GenericError::MalformedRange));
    let odd = ProblemSet { seeds: vec![1, 2, 3], mapping_groups: vec![] };
    assert_eq!(odd.lowest_location_for_seed_ranges(), Err(GenericError::MalformedRange));
    let empty = ProblemSet { seeds: vec![4, 0], mapping_groups: vec![] };
    assert_eq!(empty.lowest_location_for_seed_ranges(), Err(GenericError::EmptyRangeSet));
    let none = ProblemSet { seeds: vec![], mapping_groups: vec![] };
    assert_eq!(none.lowest_location_for_seeds(), usize::MAX);
}
