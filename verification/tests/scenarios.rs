use capfill::caps::{CaptureInfo, CaptureInfoFillIter, EndPoint, EndPointType, InputCaptureInfo, MalformedNesting};

fn rec(mgroup: usize, group: usize, start: usize, end: usize) -> InputCaptureInfo {
    InputCaptureInfo { mgroup, group: Some(group), range: (start, end) }
}

#[test]
fn no_records_single_untagged_segment() {
    let actual = capfill::caps::flatten_captures(vec![], 20).expect("no records");
    assert_eq!(actual, vec![CaptureInfo { group: None, range: (0, 20) }]);
}

#[test]
fn no_records_zero_length_text() {
    let actual = capfill::caps::flatten_captures(vec![], 0).expect("no records");
    assert_eq!(actual, Vec::new());
}

#[test]
fn sequential_occurrences_share_boundary() {
    // Two occurrences whose group-0 spans are adjacent at offset 6: the
    // earlier occurrence closes fully before the later one opens.
    let caps = vec![rec(0, 0, 0, 6), rec(0, 1, 0, 5), rec(1, 0, 6, 12), rec(1, 1, 6, 11)];
    let expected = vec![
        CaptureInfo { group: Some(1), range: (0, 5) },
        CaptureInfo { group: Some(0), range: (5, 6) },
        CaptureInfo { group: Some(1), range: (6, 11) },
        CaptureInfo { group: Some(0), range: (11, 12) },
        CaptureInfo { group: None, range: (12, 20) },
    ];
    let actual = capfill::caps::flatten_captures(caps, 20).expect("well-nested");
    assert_eq!(expected, actual);
}

#[test]
fn crossing_ranges_are_malformed() {
    // Two records that overlap without strict containment violate the
    // interval-forest invariant: the whole call fails.
    let caps = vec![rec(0, 0, 2, 8), rec(0, 1, 5, 12)];
    let actual = capfill::caps::flatten_captures(caps, 20);
    assert_eq!(actual, Err(MalformedNesting));
}

#[test]
fn zero_length_record_emits_no_empty_segment() {
    // A zero-length record contributes nothing: its coincident boundaries
    // cancel, and the untagged span around it is not split.
    let caps = vec![rec(0, 0, 4, 4)];
    let actual = capfill::caps::flatten_captures(caps, 10).expect("well-nested");
    for seg in &actual {
        assert_ne!(seg.range.0, seg.range.1);
    }
    assert_eq!(actual, vec![CaptureInfo { group: None, range: (0, 10) }]);
}

#[test]
fn shuffled_records_produce_identical_output() {
    // Order independence: the input record order does not matter.
    let caps1 = vec![rec(0, 0, 4, 14), rec(0, 1, 6, 7), rec(0, 2, 9, 10)];
    let caps2 = vec![rec(0, 2, 9, 10), rec(0, 0, 4, 14), rec(0, 1, 6, 7)];
    let caps3 = vec![rec(0, 1, 6, 7), rec(0, 2, 9, 10), rec(0, 0, 4, 14)];
    let out1 = capfill::caps::flatten_captures(caps1, 20).expect("well-nested");
    let out2 = capfill::caps::flatten_captures(caps2, 20).expect("well-nested");
    let out3 = capfill::caps::flatten_captures(caps3, 20).expect("well-nested");
    assert_eq!(out1, out2);
    assert_eq!(out1, out3);
}

#[test]
fn coverage_is_contiguous_from_zero_to_text_len() {
    let caps = vec![rec(0, 0, 4, 14), rec(0, 1, 4, 7), rec(0, 2, 4, 5), rec(0, 3, 9, 10)];
    let actual = capfill::caps::flatten_captures(caps, 20).expect("well-nested");
    let mut boundary = 0;
    for seg in &actual {
        assert_eq!(seg.range.0, boundary);
        assert!(seg.range.0 < seg.range.1);
        boundary = seg.range.1;
    }
    assert_eq!(boundary, 20);
}

#[test]
fn record_ranges_reconstructed_from_segments() {
    // The union of segments lying within a record's range is the range.
    let caps = vec![rec(0, 0, 4, 14), rec(0, 1, 6, 7), rec(0, 2, 9, 10)];
    let actual = capfill::caps::flatten_captures(caps.clone(), 20).expect("well-nested");
    for r in &caps {
        let (lo, hi) = r.range;
        let mut covered = 0;
        for seg in &actual {
            if lo <= seg.range.0 && seg.range.1 <= hi {
                covered += seg.range.1 - seg.range.0;
            }
            // No segment straddles the record's boundaries.
            assert!(!(seg.range.0 < lo && lo < seg.range.1));
            assert!(!(seg.range.0 < hi && hi < seg.range.1));
        }
        assert_eq!(covered, hi - lo);
    }
}

#[test]
fn adjacent_segments_have_distinct_tags_in_scenarios() {
    let inputs = vec![
        vec![rec(0, 0, 4, 14), rec(0, 1, 6, 7), rec(0, 2, 9, 10)],
        vec![
            rec(0, 0, 4, 14),
            rec(0, 1, 4, 7),
            rec(0, 2, 4, 5),
            rec(0, 3, 9, 10),
            rec(0, 4, 12, 14),
            rec(0, 5, 13, 14),
        ],
        vec![rec(0, 0, 0, 6), rec(0, 1, 0, 5), rec(1, 0, 6, 12), rec(1, 1, 6, 11)],
    ];
    for caps in inputs {
        let actual = capfill::caps::flatten_captures(caps, 20).expect("well-nested");
        for pair in actual.windows(2) {
            assert_ne!(pair[0].group, pair[1].group);
        }
    }
}

#[test]
fn equal_tag_neighbors_merge_across_occurrences() {
    // Two adjacent occurrences exposing the same local group id at their
    // shared boundary produce one merged segment, not two equal-tagged ones.
    let caps = vec![rec(0, 0, 0, 5), rec(1, 0, 5, 10)];
    let actual = capfill::caps::flatten_captures(caps, 12).expect("well-nested");
    let expected = vec![
        CaptureInfo { group: Some(0), range: (0, 10) },
        CaptureInfo { group: None, range: (10, 12) },
    ];
    assert_eq!(expected, actual);
}

#[test]
fn sibling_adjacent_groups_are_well_nested() {
    // A record ending exactly where a non-ancestor record starts is valid:
    // the close resolves before the open.
    let caps = vec![rec(0, 0, 0, 6), rec(0, 1, 0, 5), rec(0, 2, 5, 6)];
    let actual = capfill::caps::flatten_captures(caps, 8).expect("well-nested");
    let expected = vec![
        CaptureInfo { group: Some(1), range: (0, 5) },
        CaptureInfo { group: Some(2), range: (5, 6) },
        CaptureInfo { group: None, range: (6, 8) },
    ];
    assert_eq!(expected, actual);
}

#[test]
fn innermost_group_wins_at_every_covered_offset() {
    // Nested records: each offset is tagged with the deepest covering record.
    let caps = vec![rec(0, 0, 2, 18), rec(0, 1, 4, 12), rec(0, 2, 6, 8)];
    let actual = capfill::caps::flatten_captures(caps.clone(), 20).expect("well-nested");
    for off in 0..20 {
        let seg = actual
            .iter()
            .find(|s| s.range.0 <= off && off < s.range.1)
            .expect("coverage");
        let innermost = caps
            .iter()
            .filter(|r| r.range.0 <= off && off < r.range.1)
            .min_by_key(|r| r.range.1 - r.range.0)
            .map(|r| r.group.unwrap());
        assert_eq!(seg.group, innermost);
    }
}

#[test]
fn step_by_step_iteration_matches_collected_output() {
    let caps = vec![rec(0, 0, 4, 14), rec(0, 1, 6, 7)];
    let collected = capfill::caps::flatten_captures(caps.clone(), 20).expect("well-nested");
    let mut filler = CaptureInfoFillIter::new(caps, 20);
    let mut stepped = Vec::new();
    while let Some(seg) = filler.next().expect("well-nested") {
        stepped.push(seg);
    }
    assert_eq!(collected, stepped);
}

#[test]
fn endpoint_list_pairs_each_record() {
    let caps = vec![rec(0, 1, 3, 9), InputCaptureInfo { mgroup: 0, group: None, range: (1, 2) }];
    let items = CaptureInfoFillIter::endpoint_list(&caps);
    let expected = vec![
        EndPoint { mgroup: 0, group: 1, pos: 3, etype: EndPointType::Start },
        EndPoint { mgroup: 0, group: 1, pos: 9, etype: EndPointType::End },
    ];
    assert_eq!(expected, items);
}

#[test]
fn input_capture_info_from_tuple() {
    let r = InputCaptureInfo::from((2, 3, 5, 8));
    assert_eq!(r, InputCaptureInfo { mgroup: 2, group: Some(3), range: (5, 8) });
}

#[test]
fn close_before_matching_open_is_malformed() {
    // A close event whose group does not match the stack top.
    let caps = vec![rec(0, 0, 2, 8), rec(0, 1, 2, 10)];
    let actual = capfill::caps::flatten_captures(caps, 12);
    assert_eq!(actual, Err(MalformedNesting));
}
