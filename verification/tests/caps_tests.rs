use capfill::caps::{CaptureInfo, EndPoint, InputCaptureInfo};
use capfill::caps::EndPointType::{End, Start};
use onig::Regex;
use std::collections::VecDeque;
use std::error::Error;

fn flatten(caps: Vec<InputCaptureInfo>, text_len: usize) -> Vec<CaptureInfo> {
    capfill::caps::flatten_captures(caps, text_len).expect("well-nested input")
}

#[test]
fn capture_info_fill_no_ends() {
    // sa(u)er(k)raut
    // all sauerkraut wooff
    let text_len = 20;
    let caps = vec![
        InputCaptureInfo { mgroup: 0, group: Some(0), range: (4, 14) },
        InputCaptureInfo { mgroup: 0, group: Some(1), range: (6, 7) },
        InputCaptureInfo { mgroup: 0, group: Some(2), range: (9, 10) },
    ];
    let expected = vec![
        CaptureInfo { group: None, range: (0, 4) },
        CaptureInfo { group: Some(0), range: (4, 6) },
        CaptureInfo { group: Some(1), range: (6, 7) },
        CaptureInfo { group: Some(0), range: (7, 9) },
        CaptureInfo { group: Some(2), range: (9, 10) },
        CaptureInfo { group: Some(0), range: (10, 14) },
        CaptureInfo { group: None, range: (14, 20) },
    ];
    let actual: Vec<CaptureInfo> = flatten(caps, text_len);
    assert_eq!(expected.len(), actual.len());
    assert_eq!(expected, actual);
}

#[test]
fn capture_info_fill_with_ends() {
    // ((s)au)er(k)ra(u(t))
    // all sauerkraut wooff
    let text_len = 20;
    let caps = vec![
        InputCaptureInfo { mgroup: 0, group: Some(0), range: (4, 14) },
        InputCaptureInfo { mgroup: 0, group: Some(1), range: (4, 7) },
        InputCaptureInfo { mgroup: 0, group: Some(2), range: (4, 5) },
        InputCaptureInfo { mgroup: 0, group: Some(3), range: (9, 10) },
        InputCaptureInfo { mgroup: 0, group: Some(4), range: (12, 14) },
        InputCaptureInfo { mgroup: 0, group: Some(5), range: (13, 14) },
    ];
    let expected = vec![
        CaptureInfo { group: None, range: (0, 4) },
        CaptureInfo { group: Some(2), range: (4, 5) },
        CaptureInfo { group: Some(1), range: (5, 7) },
        CaptureInfo { group: Some(0), range: (7, 9) },
        CaptureInfo { group: Some(3), range: (9, 10) },
        CaptureInfo { group: Some(0), range: (10, 12) },
        CaptureInfo { group: Some(4), range: (12, 13) },
        CaptureInfo { group: Some(5), range: (13, 14) },
        CaptureInfo { group: None, range: (14, 20) },
    ];
    let actual: Vec<CaptureInfo> = flatten(caps, text_len);
    assert_eq!(expected.len(), actual.len());
    assert_eq!(expected, actual);
}

#[test]
fn string_regex() -> Result<(), Box<dyn Error>> {
    let regex = Regex::new("(\\w+)\\s")?;
    let test_text = "Three words panic";
    let text_len = test_text.len();
    let test_captures = regex
        .captures_iter(test_text)
        .enumerate()
        .flat_map(|(cap_group, found)| {
            found
                .iter_pos()
                .enumerate()
                .filter_map(|(group_index, group)| {
                    group.map(|(start, end)| {
                        InputCaptureInfo::from((cap_group, group_index, start, end))
                    })
                })
                .collect::<Vec<InputCaptureInfo>>()
        })
        .collect::<Vec<InputCaptureInfo>>();
    println!("test_captures before:\n{:?}\n\n\n", test_captures);
    let test_captures: Vec<CaptureInfo> =
        capfill::caps::flatten_captures(test_captures, text_len).expect("well-nested input");
    println!("test_captures after:\n{:?}\n\n\n", test_captures);
    Ok(())
}

#[test]
fn string_regex_whole() -> Result<(), Box<dyn Error>> {
    let regex = Regex::new("(\\w+)(\\s)")?;
    let test_text = "Three words panic";
    let text_len = test_text.len();
    let test_captures = regex
        .captures_iter(test_text)
        .enumerate()
        .flat_map(|(cap_group, found)| {
            found
                .iter_pos()
                .enumerate()
                .filter_map(|(group_index, group)| {
                    group.map(|(start, end)| {
                        InputCaptureInfo::from((cap_group, group_index, start, end))
                    })
                })
                .collect::<Vec<InputCaptureInfo>>()
        })
        .collect::<Vec<InputCaptureInfo>>();
    println!("test_captures before:\n{:?}\n\n\n", test_captures);
    let test_captures: Vec<CaptureInfo> =
        capfill::caps::flatten_captures(test_captures, text_len).expect("well-nested input");
    println!("test_captures after:\n{:?}\n\n\n", test_captures);
    Ok(())
}

#[test]
fn endpoint_order() -> Result<(), Box<dyn Error>> {
    // ((s)au)er(k)ra(u(t))
    // all sauerkraut wooff
    let mut endpoints = vec![
        EndPoint { mgroup: 0, group: 0, pos: 4, etype: Start },
        EndPoint { mgroup: 0, group: 0, pos: 14, etype: End },
        EndPoint { mgroup: 0, group: 1, pos: 4, etype: Start },
        EndPoint { mgroup: 0, group: 1, pos: 7, etype: End },
        EndPoint { mgroup: 0, group: 2, pos: 4, etype: Start },
        EndPoint { mgroup: 0, group: 2, pos: 5, etype: End },
        EndPoint { mgroup: 0, group: 3, pos: 9, etype: Start },
        EndPoint { mgroup: 0, group: 3, pos: 10, etype: End },
        EndPoint { mgroup: 0, group: 4, pos: 12, etype: Start },
        EndPoint { mgroup: 0, group: 4, pos: 14, etype: End },
        EndPoint { mgroup: 0, group: 5, pos: 13, etype: Start },
        EndPoint { mgroup: 0, group: 5, pos: 14, etype: End },
    ];
    let expected = vec![
        EndPoint { mgroup: 0, group: 0, pos: 4, etype: Start },
        EndPoint { mgroup: 0, group: 1, pos: 4, etype: Start },
        EndPoint { mgroup: 0, group: 2, pos: 4, etype: Start },
        EndPoint { mgroup: 0, group: 2, pos: 5, etype: End },
        EndPoint { mgroup: 0, group: 1, pos: 7, etype: End },
        EndPoint { mgroup: 0, group: 3, pos: 9, etype: Start },
        EndPoint { mgroup: 0, group: 3, pos: 10, etype: End },
        EndPoint { mgroup: 0, group: 4, pos: 12, etype: Start },
        EndPoint { mgroup: 0, group: 5, pos: 13, etype: Start },
        EndPoint { mgroup: 0, group: 5, pos: 14, etype: End },
        EndPoint { mgroup: 0, group: 4, pos: 14, etype: End },
        EndPoint { mgroup: 0, group: 0, pos: 14, etype: End },
    ];
    capfill::caps::sort_endpoints(&mut endpoints);
    assert_eq!(expected, endpoints);
    test_group_stack(&endpoints)
}

#[test]
fn endpoint_order_at_same_pos() -> Result<(), Box<dyn Error>> {
    // Coincident boundaries at one offset: close events sort first, by
    // descending group, then open events by ascending group. The engine
    // itself never produces such a list: a zero-length record contributes
    // no events at all, so these coincident pairs cancel before sorting.
    let mut endpoints = vec![
        EndPoint { mgroup: 0, group: 0, pos: 5, etype: Start },
        EndPoint { mgroup: 0, group: 0, pos: 5, etype: End },
        EndPoint { mgroup: 0, group: 5, pos: 5, etype: Start },
        EndPoint { mgroup: 0, group: 5, pos: 5, etype: End },
        EndPoint { mgroup: 0, group: 1, pos: 5, etype: Start },
        EndPoint { mgroup: 0, group: 1, pos: 5, etype: End },
        EndPoint { mgroup: 0, group: 3, pos: 5, etype: Start },
        EndPoint { mgroup: 0, group: 3, pos: 5, etype: End },
        EndPoint { mgroup: 0, group: 4, pos: 5, etype: Start },
        EndPoint { mgroup: 0, group: 4, pos: 5, etype: End },
        EndPoint { mgroup: 0, group: 2, pos: 5, etype: Start },
        EndPoint { mgroup: 0, group: 2, pos: 5, etype: End },
    ];
    let expected = vec![
        EndPoint { mgroup: 0, group: 5, pos: 5, etype: End },
        EndPoint { mgroup: 0, group: 4, pos: 5, etype: End },
        EndPoint { mgroup: 0, group: 3, pos: 5, etype: End },
        EndPoint { mgroup: 0, group: 2, pos: 5, etype: End },
        EndPoint { mgroup: 0, group: 1, pos: 5, etype: End },
        EndPoint { mgroup: 0, group: 0, pos: 5, etype: End },
        EndPoint { mgroup: 0, group: 0, pos: 5, etype: Start },
        EndPoint { mgroup: 0, group: 1, pos: 5, etype: Start },
        EndPoint { mgroup: 0, group: 2, pos: 5, etype: Start },
        EndPoint { mgroup: 0, group: 3, pos: 5, etype: Start },
        EndPoint { mgroup: 0, group: 4, pos: 5, etype: Start },
        EndPoint { mgroup: 0, group: 5, pos: 5, etype: Start },
    ];
    capfill::caps::sort_endpoints(&mut endpoints);
    assert_eq!(expected, endpoints);
    let zero_length: Vec<InputCaptureInfo> = (0..6)
        .map(|g| InputCaptureInfo { mgroup: 0, group: Some(g), range: (5, 5) })
        .collect();
    let flattened = capfill::caps::flatten_captures(zero_length, 10).expect("well-nested input");
    assert_eq!(flattened, vec![CaptureInfo { group: None, range: (0, 10) }]);
    Ok(())
}

#[test]
fn endpoint_order_multiple_mgroups() -> Result<(), Box<dyn Error>> {
    let mut endpoints = vec![
        EndPoint { mgroup: 0, group: 0, pos: 0, etype: Start },
        EndPoint { mgroup: 0, group: 0, pos: 6, etype: End },
        EndPoint { mgroup: 0, group: 1, pos: 0, etype: Start },
        EndPoint { mgroup: 0, group: 1, pos: 5, etype: End },
        EndPoint { mgroup: 1, group: 0, pos: 6, etype: Start },
        EndPoint { mgroup: 1, group: 0, pos: 12, etype: End },
        EndPoint { mgroup: 1, group: 1, pos: 6, etype: Start },
        EndPoint { mgroup: 1, group: 1, pos: 11, etype: End },
    ];
    let expected = vec![
        EndPoint { mgroup: 0, group: 0, pos: 0, etype: Start },
        EndPoint { mgroup: 0, group: 1, pos: 0, etype: Start },
        EndPoint { mgroup: 0, group: 1, pos: 5, etype: End },
        EndPoint { mgroup: 0, group: 0, pos: 6, etype: End },
        EndPoint { mgroup: 1, group: 0, pos: 6, etype: Start },
        EndPoint { mgroup: 1, group: 1, pos: 6, etype: Start },
        EndPoint { mgroup: 1, group: 1, pos: 11, etype: End },
        EndPoint { mgroup: 1, group: 0, pos: 12, etype: End },
    ];
    capfill::caps::sort_endpoints(&mut endpoints);
    assert_eq!(expected, endpoints);
    test_group_stack(&endpoints)
}

fn test_group_stack(endpoints: &[EndPoint]) -> Result<(), Box<dyn Error>> {
    let mut group_stack = VecDeque::new();
    endpoints
        .iter()
        .map(|ep| match ep.etype {
            Start => {
                group_stack.push_back(ep.group);
                Ok(())
            }
            End => {
                let group = group_stack.back().copied();
                if let Some(group) = group {
                    if group != ep.group {
                        return Err(Box::from(format!(
                            "Wrong group! Expected {}, got {}",
                            group, ep.group
                        )));
                    }
                    group_stack.pop_back();
                    Ok(())
                } else {
                    Err(Box::from(format!("Empty group stack!")))
                }
            }
        })
        .collect()
}
