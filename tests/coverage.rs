use font_coverage::{
    allocate, assigned_anywhere, claim, emit_regions, AllocError, AllocationConfig, CharRange,
    CharRangeList, CharacterRegions, Counter, FontAllocation, GlyphSource, Region,
    DEFAULT_EXCLUDED_END, DEFAULT_FALLBACK,
};

fn r(start: u32, end: u32) -> CharRange {
    CharRange { start, end }
}

fn list_of(items: &[CharRange]) -> CharRangeList {
    CharRangeList::from_ranges(&items.to_vec())
}

fn source(font: &str, items: &[CharRange]) -> GlyphSource {
    GlyphSource { font: font.to_string(), items: items.to_vec() }
}

fn coverage_of(allocs: &[FontAllocation], i: usize) -> Vec<CharRange> {
    allocs[i].coverage.ranges().clone()
}

#[test]
fn range_merges_with_overlap_and_adjacency() {
    assert!(r(0x20, 0x5A).merges_with(&r(0x5B, 0x80)));
    assert!(r(0x5B, 0x80).merges_with(&r(0x20, 0x5A)));
    assert!(r(0x20, 0x5A).merges_with(&r(0x30, 0x40)));
    assert!(!r(0x20, 0x5A).merges_with(&r(0x5C, 0x80)));
    assert!(!r(0x5C, 0x80).merges_with(&r(0x20, 0x5A)));
    assert!(r(0, u32::MAX).merges_with(&r(u32::MAX, u32::MAX)));
}

#[test]
fn range_merge_spans_both() {
    assert_eq!(r(0x20, 0x5A).merge(&r(0x55, 0x80)), r(0x20, 0x80));
    assert_eq!(r(0x55, 0x80).merge(&r(0x20, 0x5A)), r(0x20, 0x80));
    assert_eq!(r(0x20, 0x90).merge(&r(0x30, 0x40)), r(0x20, 0x90));
}

#[test]
fn range_subtract_cases() {
    assert_eq!(r(0x00, 0x1F).subtract(&r(0x20, 0x3F)), vec![r(0x00, 0x1F)]);
    assert_eq!(r(0x00, 0x5F).subtract(&r(0x00, 0x5F)), vec![]);
    assert_eq!(r(0x00, 0x5F).subtract(&r(0x10, 0x3F)), vec![r(0x00, 0x0F), r(0x40, 0x5F)]);
    assert_eq!(r(0x00, 0x5F).subtract(&r(0x00, 0x1F)), vec![r(0x20, 0x5F)]);
    assert_eq!(r(0x00, 0x5F).subtract(&r(0x30, 0x7F)), vec![r(0x00, 0x2F)]);
    assert_eq!(r(5, u32::MAX).subtract(&r(0, u32::MAX - 1)), vec![r(u32::MAX, u32::MAX)]);
}

#[test]
fn range_count_and_contains() {
    assert_eq!(r(0x41, 0x5A).count(), 26);
    assert_eq!(r(7, 7).count(), 1);
    assert_eq!(r(0, u32::MAX).count(), 1u64 << 32);
    assert_eq!(r(9, 3).count(), 0);
    assert!(r(0x41, 0x5A).contains(0x41));
    assert!(r(0x41, 0x5A).contains(0x5A));
    assert!(!r(0x41, 0x5A).contains(0x5B));
    assert_eq!(CharRange::new(3, 9), r(3, 9));
}

#[test]
fn count_of_single_insert_is_width() {
    let mut list = CharRangeList::new();
    list.add_range(r(0x30, 0x39));
    assert_eq!(list.count(), 10);
    let mut all = CharRangeList::new();
    all.add_range(r(0, u32::MAX));
    assert_eq!(all.count(), 1u64 << 32);
    assert_eq!(CharRangeList::new().count(), 0);
}

#[test]
fn count_sums_disjoint_ranges() {
    let list = list_of(&[r(0x20, 0x5A), r(0x60, 0x80), r(0x50, 0x62)]);
    assert_eq!(list.ranges(), &vec![r(0x20, 0x80)]);
    assert_eq!(list.count(), 0x80 - 0x20 + 1);
    let split = list_of(&[r(1, 2), r(10, 19)]);
    assert_eq!(split.count(), 12);
}

#[test]
fn insertion_order_does_not_matter() {
    let items = [r(0x60, 0x80), r(0x20, 0x5A), r(0xA0, 0xB0), r(0x5B, 0x5F), r(0x10, 0x10), r(0x81, 0x81)];
    let forward = list_of(&items);
    let mut reversed_items = items.to_vec();
    reversed_items.reverse();
    let backward = CharRangeList::from_ranges(&reversed_items);
    let mut shuffled = CharRangeList::new();
    for i in [3usize, 0, 5, 2, 4, 1] {
        shuffled.add_range(items[i]);
    }
    let expected = vec![r(0x10, 0x10), r(0x20, 0x81), r(0xA0, 0xB0)];
    assert_eq!(forward.ranges(), &expected);
    assert_eq!(backward.ranges(), &expected);
    assert_eq!(shuffled.ranges(), &expected);
}

#[test]
fn add_range_fills_gap_between_many() {
    let mut list = list_of(&[r(0, 1), r(3, 4), r(6, 7), r(9, 10), r(20, 30)]);
    assert_eq!(list.ranges().len(), 5);
    list.add_range(r(2, 9));
    assert_eq!(list.ranges(), &vec![r(0, 10), r(20, 30)]);
}

#[test]
fn add_range_same_start_and_extremes() {
    let mut list = list_of(&[r(10, 12)]);
    list.add_range(r(10, 20));
    assert_eq!(list.ranges(), &vec![r(10, 20)]);
    list.add_range(r(u32::MAX - 1, u32::MAX));
    list.add_range(r(0, 0));
    assert_eq!(list.ranges(), &vec![r(0, 0), r(10, 20), r(u32::MAX - 1, u32::MAX)]);
    list.add_range(r(1, 9));
    assert_eq!(list.ranges(), &vec![r(0, 20), r(u32::MAX - 1, u32::MAX)]);
}

#[test]
fn inverted_range_changes_nothing() {
    let mut list = list_of(&[r(0x20, 0x30)]);
    list.add_range(r(0x40, 0x35));
    assert_eq!(list.ranges(), &vec![r(0x20, 0x30)]);
    list.subtract_range(r(0x30, 0x20));
    assert_eq!(list.ranges(), &vec![r(0x20, 0x30)]);
}

#[test]
fn subtract_range_from_itself_leaves_nothing() {
    let mut list = list_of(&[r(0x41, 0x7A)]);
    list.subtract_range(r(0x41, 0x7A));
    assert!(list.ranges().is_empty());
    assert_eq!(list.count(), 0);
}

#[test]
fn subtract_disjoint_range_is_noop() {
    let mut list = list_of(&[r(0x00, 0x1F), r(0x40, 0x5F)]);
    list.subtract_range(r(0x25, 0x3A));
    assert_eq!(list.ranges(), &vec![r(0x00, 0x1F), r(0x40, 0x5F)]);
    list.subtract_range(r(0x60, 0x90));
    assert_eq!(list.ranges(), &vec![r(0x00, 0x1F), r(0x40, 0x5F)]);
}

#[test]
fn subtract_split_gives_two_residuals() {
    let mut list = list_of(&[r(0x00, 0x5F)]);
    list.subtract_range(r(0x10, 0x3F));
    assert_eq!(list.ranges(), &vec![r(0x00, 0x0F), r(0x40, 0x5F)]);
}

#[test]
fn subtract_across_several_ranges() {
    let mut list = list_of(&[r(0, 9), r(20, 29), r(40, 49), r(60, 69)]);
    list.subtract_range(r(5, 45));
    assert_eq!(list.ranges(), &vec![r(0, 4), r(46, 49), r(60, 69)]);
}

#[test]
fn subtract_range_list_in_either_order() {
    let base = [r(0, 100)];
    let holes = list_of(&[r(10, 19), r(50, 59), r(90, 100)]);
    let mut a = list_of(&base);
    a.subtract_range_list(&holes);
    assert_eq!(a.ranges(), &vec![r(0, 9), r(20, 49), r(60, 89)]);
    let mut b = list_of(&base);
    for x in holes.ranges().iter().rev() {
        b.subtract_range(*x);
    }
    assert_eq!(a.ranges(), b.ranges());
}

#[test]
fn contains_searches_every_range() {
    let list = list_of(&[r(0x20, 0x2F), r(0x40, 0x4F), r(0x60, 0x60)]);
    for c in [0x20, 0x25, 0x2F, 0x40, 0x4F, 0x60] {
        assert!(list.contains(c), "{c:#x}");
    }
    for c in [0x0, 0x1F, 0x30, 0x3F, 0x50, 0x5F, 0x61, u32::MAX] {
        assert!(!list.contains(c), "{c:#x}");
    }
    assert!(!CharRangeList::new().contains(0));
}

#[test]
fn into_ranges_gives_the_ranges() {
    let list = list_of(&[r(5, 6), r(1, 2)]);
    assert_eq!(list.into_ranges(), vec![r(1, 2), r(5, 6)]);
}

#[test]
fn priority_decides_shared_codepoints() {
    let config = AllocationConfig::new(0x41, DEFAULT_EXCLUDED_END);
    let sources = vec![source("A", &[r(0x41, 0x5A)]), source("B", &[r(0x41, 0x7A)])];
    let allocs = allocate(&config, &sources).unwrap();
    assert_eq!(allocs.len(), 2);
    assert_eq!(allocs[0].font, "A");
    assert_eq!(allocs[1].font, "B");
    assert_eq!(coverage_of(&allocs, 0), vec![r(0x41, 0x5A)]);
    assert_eq!(coverage_of(&allocs, 1), vec![r(0x5B, 0x7A)]);
}

#[test]
fn claim_subtracts_earlier_fonts_and_exclusion() {
    let first = list_of(&[r(0x41, 0x5A)]);
    let finalized = vec![first];
    let mine = claim(list_of(&[r(0x00, 0x7A)]), &finalized, r(0, 31));
    assert_eq!(mine.ranges(), &vec![r(0x20, 0x40), r(0x5B, 0x7A)]);
    let alone = claim(list_of(&[r(0x10, 0x30)]), &Vec::new(), r(0, 32));
    assert_eq!(alone.ranges(), &vec![r(0x21, 0x30)]);
}

#[test]
fn allocations_are_pairwise_disjoint() {
    let config = AllocationConfig::default();
    let sources = vec![
        source("A", &[r(0x20, 0x40), r(0x100, 0x1FF)]),
        source("B", &[r(0x30, 0x120), r(0x3000, 0x30FF)]),
        source("C", &[r(0x00, 0x4000)]),
    ];
    let allocs = allocate(&config, &sources).unwrap();
    assert_eq!(coverage_of(&allocs, 0), vec![r(0x20, 0x40), r(0x100, 0x1FF)]);
    assert_eq!(coverage_of(&allocs, 1), vec![r(0x41, 0xFF), r(0x3000, 0x30FF)]);
    assert_eq!(coverage_of(&allocs, 2), vec![r(0x200, 0x2FFF), r(0x3100, 0x4000)]);
    for c in 0..0x4100u32 {
        let holders = allocs.iter().filter(|a| a.coverage.contains(c)).count();
        assert!(holders <= 1, "{c:#x}");
    }
}

#[test]
fn excluded_range_is_never_assigned() {
    let config = AllocationConfig::new(0x2A, 32);
    let sources = vec![source("A", &[r(0x00, 0x30)]), source("B", &[r(0x05, 0x10), r(0x2A, 0x2A)])];
    let allocs = allocate(&config, &sources).unwrap();
    assert_eq!(coverage_of(&allocs, 0), vec![r(0x21, 0x30)]);
    assert!(allocs[1].coverage.ranges().is_empty());
    for a in allocs.iter() {
        for c in 0..=32u32 {
            assert!(!a.coverage.contains(c));
        }
    }
}

#[test]
fn default_config_values() {
    let config = AllocationConfig::default();
    assert_eq!(config.fallback, DEFAULT_FALLBACK);
    assert_eq!(config.fallback, '*' as u32);
    assert_eq!(config.excluded_end, DEFAULT_EXCLUDED_END);
    assert_eq!(config.excluded(), r(0, 31));
}

#[test]
fn missing_fallback_fails() {
    let config = AllocationConfig::default();
    let sources = vec![source("A", &[r(0x41, 0x5A)]), source("B", &[r(0x41, 0x7A)])];
    assert_eq!(allocate(&config, &sources).unwrap_err(), AllocError::FallbackCodepointUnassigned);
}

#[test]
fn fallback_in_any_font_succeeds() {
    let config = AllocationConfig::default();
    let sources = vec![source("A", &[r(0x41, 0x5A)]), source("B", &[r(0x20, 0x2F)])];
    let allocs = allocate(&config, &sources).unwrap();
    assert!(allocs[1].coverage.contains(0x2A));
}

#[test]
fn fallback_inside_exclusion_fails() {
    let config = AllocationConfig::new(0x10, 31);
    let sources = vec![source("A", &[r(0x00, 0x7F)])];
    assert_eq!(allocate(&config, &sources).unwrap_err(), AllocError::FallbackCodepointUnassigned);
}

#[test]
fn empty_source_list_fails() {
    let config = AllocationConfig::default();
    assert_eq!(allocate(&config, &Vec::new()).unwrap_err(), AllocError::EmptySourceList);
}

#[test]
fn assigned_anywhere_checks_each_list() {
    let lists = vec![list_of(&[r(1, 2)]), list_of(&[r(8, 9)])];
    assert!(assigned_anywhere(&lists, 9));
    assert!(assigned_anywhere(&lists, 1));
    assert!(!assigned_anywhere(&lists, 5));
    assert!(!assigned_anywhere(&Vec::new(), 5));
}

#[test]
fn regions_follow_priority_and_drop_base_tag() {
    let config = AllocationConfig::default();
    let sources = vec![
        source("Base", &[r(0x20, 0x7E)]),
        source("Extra", &[r(0x41, 0x5A), r(0x3040, 0x309F), r(0x100, 0x17F)]),
    ];
    let allocs = allocate(&config, &sources).unwrap();
    let regions = emit_regions(&allocs, &"Base".to_string());
    let expected = vec![
        Region { start: 0x20, end: 0x7E, font_name: None },
        Region { start: 0x100, end: 0x17F, font_name: Some("Extra".to_string()) },
        Region { start: 0x3040, end: 0x309F, font_name: Some("Extra".to_string()) },
    ];
    assert_eq!(regions.character_region, expected);
}

#[test]
fn ommit_base_font_clears_matching_tags_only() {
    let mut regions = CharacterRegions {
        character_region: vec![
            Region { start: 1, end: 2, font_name: Some("A".to_string()) },
            Region { start: 3, end: 4, font_name: Some("B".to_string()) },
            Region { start: 5, end: 6, font_name: None },
            Region { start: 7, end: 8, font_name: Some("A".to_string()) },
        ],
    };
    regions.ommit_base_font(&"A".to_string());
    assert_eq!(
        regions.character_region,
        vec![
            Region { start: 1, end: 2, font_name: None },
            Region { start: 3, end: 4, font_name: Some("B".to_string()) },
            Region { start: 5, end: 6, font_name: None },
            Region { start: 7, end: 8, font_name: None },
        ]
    );
}

#[test]
fn many_insertions_stay_ordered_and_separated() {
    let mut seed: u64 = 0x2545_F491_4F6C_DD1D;
    let mut next = move || {
        seed = seed.wrapping_mul(6364136223846793005).wrapping_add(1442695040888963407);
        (seed >> 33) as u32
    };
    let mut list = CharRangeList::new();
    let mut covered = vec![false; 2048];
    for _ in 0..400 {
        let start = next() % 2000;
        let end = start + next() % 40;
        list.add_range(r(start, end));
        for c in start..=end {
            covered[c as usize] = true;
        }
        let ranges = list.ranges();
        for w in ranges.windows(2) {
            assert!(w[0].start <= w[0].end);
            assert!((w[0].end as u64) + 1 < w[1].start as u64, "{:?}", w);
        }
        for (c, &held) in covered.iter().enumerate() {
            assert_eq!(list.contains(c as u32), held, "{c}");
        }
        assert_eq!(list.count(), covered.iter().filter(|&&b| b).count() as u64);
    }
}
