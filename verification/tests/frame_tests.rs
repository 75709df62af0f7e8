use temporal_pattern::frame_number::parse_frame_number;
use temporal_pattern::frames::{collect_frames, find_marker, FrameError, FrameTemplate};

fn names(list: &[&str]) -> Vec<String> {
    list.iter().map(|s| s.to_string()).collect()
}

#[test]
fn frame_number_ignores_leading_zeros() {
    assert_eq!(parse_frame_number("000123"), Some(123));
    assert_eq!(parse_frame_number("7"), Some(7));
    assert_eq!(parse_frame_number("18446744073709551615"), Some(u64::MAX));
}

#[test]
fn frame_number_of_zeros_is_zero() {
    assert_eq!(parse_frame_number("000"), Some(0));
    assert_eq!(parse_frame_number("0"), Some(0));
    assert_eq!(parse_frame_number("000000"), Some(0));
}

#[test]
fn frame_number_refusals() {
    assert_eq!(parse_frame_number(""), None);
    assert_eq!(parse_frame_number("18446744073709551616"), None);
    assert_eq!(parse_frame_number("12a"), None);
    assert_eq!(parse_frame_number("+"), None);
    assert_eq!(parse_frame_number("+42"), Some(42));
}

#[test]
fn marker_is_found() {
    assert_eq!(find_marker("{frame_nr}.png"), Some(0));
    assert_eq!(find_marker("img_{frame_nr}.png"), Some(4));
    assert_eq!(find_marker("img.png"), None);
    assert_eq!(find_marker("{frame_nr"), None);
}

#[test]
fn template_requires_file_name_and_marker() {
    assert!(matches!(FrameTemplate::new(None), Err(FrameError::MissingFileName)));
    assert!(matches!(FrameTemplate::new(Some("frame.png")), Err(FrameError::MissingMarker)));
}

#[test]
fn template_picks_digits() {
    let t = FrameTemplate::new(Some("{frame_nr}.png")).ok().unwrap();
    assert_eq!(t.frame_digits("000123.png"), Some("000123".to_string()));
    assert_eq!(t.frame_digits("readme.txt"), None);
}

#[test]
fn template_matches_the_whole_file_name() {
    let t = FrameTemplate::new(Some("f{frame_nr}.png")).ok().unwrap();
    assert_eq!(t.frame_digits("f2.png"), Some("2".to_string()));
    assert_eq!(t.frame_digits("xf2.png.bak"), None);
    assert_eq!(t.frame_digits("xf2.png"), None);
    assert_eq!(t.frame_digits("f2.png.bak"), None);
    assert_eq!(t.frame_digits("f.png"), None);
}

#[test]
fn template_text_is_matched_literally() {
    let t = FrameTemplate::new(Some("f.{frame_nr}.png")).ok().unwrap();
    assert_eq!(t.frame_digits("f.12.png"), Some("12".to_string()));
    // The '.' of the template stands for itself, not for any character.
    assert_eq!(t.frame_digits("fx12.png"), None);
    let t = FrameTemplate::new(Some("a+({frame_nr}).png")).ok().unwrap();
    assert_eq!(t.frame_digits("a+(5).png"), Some("5".to_string()));
    assert_eq!(t.frame_digits("aa(5).png"), None);
}

#[test]
fn collect_groups_consecutive_frames() {
    let files = names(&["3.png", "1.png", "notes.txt", "2.png", "4.png"]);
    let plan = collect_frames(Some("{frame_nr}.png"), 1, None, 2, &files).ok().unwrap();
    assert_eq!(plan.total_frames, 4);
    assert_eq!(plan.groups, vec![vec![1, 3], vec![0, 4]]);
}

#[test]
fn collect_keeps_a_partial_last_group() {
    let files = names(&["1.png", "2.png", "3.png"]);
    let plan = collect_frames(Some("{frame_nr}.png"), 1, None, 2, &files).ok().unwrap();
    assert_eq!(plan.total_frames, 3);
    assert_eq!(plan.groups, vec![vec![0, 1], vec![2]]);
}

#[test]
fn collect_respects_start_and_end() {
    let files = names(&["f0001.png", "f0002.png", "f0003.png", "f0004.png", "f0005.png"]);
    let plan = collect_frames(Some("f{frame_nr}.png"), 2, Some(4), 2, &files).ok().unwrap();
    assert_eq!(plan.total_frames, 3);
    assert_eq!(plan.groups, vec![vec![1, 2], vec![3]]);
}

#[test]
fn collect_refuses_end_before_start() {
    let files = names(&["1.png"]);
    assert!(matches!(
        collect_frames(Some("{frame_nr}.png"), 5, Some(4), 2, &files),
        Err(FrameError::EndBeforeStart { frame_start: 5, frame_end: 4 })
    ));
    // The range is checked before the template.
    assert!(matches!(
        collect_frames(None, 5, Some(4), 2, &files),
        Err(FrameError::EndBeforeStart { .. })
    ));
}

#[test]
fn collect_reports_duplicate_frames() {
    let files = names(&["1.png", "01.png"]);
    assert!(matches!(
        collect_frames(Some("{frame_nr}.png"), 1, None, 2, &files),
        Err(FrameError::DuplicateFrame { first: 0, second: 1 })
    ));
}

#[test]
fn collect_reports_missing_frame() {
    let files = names(&["1.png", "2.png", "4.png"]);
    assert!(matches!(
        collect_frames(Some("{frame_nr}.png"), 1, None, 2, &files),
        Err(FrameError::MissingFrame { frame_nr: 3 })
    ));
}

#[test]
fn collect_reports_the_smallest_missing_frame() {
    // Frames 2 to 5 are missing; frame 2 is the first of them.
    let files = names(&["1.png", "6.png"]);
    assert!(matches!(
        collect_frames(Some("{frame_nr}.png"), 1, None, 2, &files),
        Err(FrameError::MissingFrame { frame_nr: 2 })
    ));
    let files = names(&["1.png", "5.png"]);
    assert!(matches!(
        collect_frames(Some("{frame_nr}.png"), 1, None, 2, &files),
        Err(FrameError::MissingFrame { frame_nr: 2 })
    ));
}

#[test]
fn collect_refuses_a_gap_at_a_group_boundary() {
    // Frames 3 and 4 form a whole group of their own, and both are missing.
    let files = names(&["1.png", "2.png", "5.png", "6.png"]);
    assert!(matches!(
        collect_frames(Some("{frame_nr}.png"), 1, None, 2, &files),
        Err(FrameError::MissingFrame { frame_nr: 3 })
    ));
    let files = names(&["1.png", "2.png", "4.png", "6.png"]);
    assert!(matches!(
        collect_frames(Some("{frame_nr}.png"), 1, None, 3, &files),
        Err(FrameError::MissingFrame { frame_nr: 3 })
    ));
}

#[test]
fn collect_reports_missing_first_frame() {
    let files = names(&["2.png", "3.png"]);
    assert!(matches!(
        collect_frames(Some("{frame_nr}.png"), 1, None, 2, &files),
        Err(FrameError::MissingFrame { frame_nr: 1 })
    ));
}

#[test]
fn collect_reports_unparsable_digits() {
    let files = names(&["1.png", "99999999999999999999.png"]);
    match collect_frames(Some("{frame_nr}.png"), 1, None, 2, &files) {
        Err(FrameError::UnparsableFrameNumber { entry, digits }) => {
            assert_eq!(entry, 1);
            assert_eq!(digits, "99999999999999999999");
        }
        _ => panic!("expected an unparsable frame number"),
    }
}

#[test]
fn collect_reads_zeros_as_frame_zero() {
    let files = names(&["000000.png", "000001.png"]);
    let plan = collect_frames(Some("{frame_nr}.png"), 0, None, 2, &files).ok().unwrap();
    assert_eq!(plan.total_frames, 2);
    assert_eq!(plan.groups, vec![vec![0, 1]]);
}

#[test]
fn collect_ignores_names_that_only_contain_the_template() {
    let files = names(&["f1.png", "xf2.png.bak"]);
    let plan = collect_frames(Some("f{frame_nr}.png"), 1, None, 2, &files).ok().unwrap();
    assert_eq!(plan.total_frames, 1);
    assert_eq!(plan.groups, vec![vec![0]]);
}

#[test]
fn collect_refuses_settings_before_reading_names() {
    let files = names(&["1.png", "1.png"]);
    assert!(matches!(
        collect_frames(Some("frame.png"), 1, None, 2, &files),
        Err(FrameError::MissingMarker)
    ));
    assert!(matches!(
        collect_frames(None, 1, None, 2, &files),
        Err(FrameError::MissingFileName)
    ));
}

#[test]
fn collect_does_not_depend_on_listing_order() {
    let a = names(&["3.png", "1.png", "notes.txt", "2.png", "5.png", "4.png"]);
    let b = names(&["4.png", "notes.txt", "5.png", "2.png", "1.png", "3.png"]);
    let named = |files: &Vec<String>| -> Vec<Vec<String>> {
        let plan = collect_frames(Some("{frame_nr}.png"), 1, None, 2, files).ok().unwrap();
        plan.groups
            .iter()
            .map(|g| g.iter().map(|&e| files[e].clone()).collect())
            .collect()
    };
    let expected = vec![
        vec!["1.png".to_string(), "2.png".to_string()],
        vec!["3.png".to_string(), "4.png".to_string()],
        vec!["5.png".to_string()],
    ];
    assert_eq!(named(&a), expected);
    assert_eq!(named(&b), expected);
    // A refused listing is refused in any order.
    let c = names(&["1.png", "3.png"]);
    let d = names(&["3.png", "1.png"]);
    assert!(collect_frames(Some("{frame_nr}.png"), 1, None, 2, &c).is_err());
    assert!(collect_frames(Some("{frame_nr}.png"), 1, None, 2, &d).is_err());
}

#[test]
fn collect_with_no_frames_is_empty() {
    let files = names(&["notes.txt"]);
    let plan = collect_frames(Some("{frame_nr}.png"), 1, None, 2, &files).ok().unwrap();
    assert_eq!(plan.total_frames, 0);
    assert!(plan.groups.is_empty());
}

#[test]
fn collect_every_frame_lands_at_its_position() {
    let files = names(&["7.png", "5.png", "9.png", "6.png", "8.png", "10.png"]);
    let plan = collect_frames(Some("{frame_nr}.png"), 5, None, 3, &files).ok().unwrap();
    assert_eq!(plan.total_frames, 6);
    for (g, group) in plan.groups.iter().enumerate() {
        for (j, &e) in group.iter().enumerate() {
            let expected = 5 + 3 * g as u64 + j as u64;
            let name = &files[e];
            assert_eq!(name, &format!("{}.png", expected));
        }
    }
}

#[test]
fn template_digits_lie_between_prefix_and_suffix() {
    // The text after the marker starts with a digit; the frame digits are those before it.
    let t = FrameTemplate::new(Some("{frame_nr}1.png")).ok().unwrap();
    assert_eq!(t.frame_digits("231.png"), Some("23".to_string()));
    assert_eq!(t.frame_digits("1.png"), None);
    // Only ASCII digits stand for a frame number.
    let t = FrameTemplate::new(Some("{frame_nr}.png")).ok().unwrap();
    assert_eq!(t.frame_digits("\u{0663}.png"), None);
    assert_eq!(t.frame_digits(".png"), None);
}
