use temporal_pattern::activation::{luma_activation_level, LEVELS_OF_GREY};
use temporal_pattern::pattern::Pattern;

#[test]
fn regular_pattern_shape() {
    let p = Pattern::Regular2f2w2h;
    assert_eq!(p.frame_group_size(), 2);
    assert_eq!(p.width(), 2);
    assert_eq!(p.height(), 2);
    assert_eq!(p.frame_group_size() * p.width() * p.height(), 8);
}

#[test]
fn pattern_names_parse() {
    assert_eq!(Pattern::from_str("r2f2w2h", false), Ok(Pattern::Regular2f2w2h));
    assert_eq!(Pattern::from_str("regular-2f2w2h", false), Ok(Pattern::Regular2f2w2h));
    assert_eq!(Pattern::from_str("R2F2W2H", true), Ok(Pattern::Regular2f2w2h));
    assert_eq!(Pattern::from_str("Regular-2F2W2H", true), Ok(Pattern::Regular2f2w2h));
}

#[test]
fn pattern_name_case_matters_without_ignore_case() {
    assert_eq!(
        Pattern::from_str("R2F2W2H", false),
        Err("invalid pattern value: R2F2W2H".to_string())
    );
}

#[test]
fn pattern_error_quotes_lowercased_input() {
    assert_eq!(
        Pattern::from_str("Bayer", true),
        Err("invalid pattern value: bayer".to_string())
    );
    assert_eq!(Pattern::from_str("", false), Err("invalid pattern value: ".to_string()));
}

#[test]
fn pattern_name_round_trip() {
    for p in Pattern::value_variants() {
        let name = p.to_string();
        assert_eq!(name, "r2f2w2h");
        assert_eq!(Pattern::from_str(&name, false), Ok(p));
        assert_eq!(Pattern::from_str(&name, true), Ok(p));
    }
    assert_eq!(Pattern::value_variants(), vec![Pattern::Regular2f2w2h]);
}

#[test]
fn activation_table_values() {
    let expected: [[[u8; 4]; 2]; 4] = [
        [[0, 2, 3, 1], [4, 6, 7, 5]],
        [[4, 6, 7, 5], [0, 2, 3, 1]],
        [[1, 3, 2, 0], [5, 7, 6, 4]],
        [[5, 7, 6, 4], [1, 3, 2, 0]],
    ];
    for v in 0..4 {
        for f in 0..2 {
            for p in 0..4 {
                assert_eq!(luma_activation_level(v, f, p), expected[v][f][p]);
            }
        }
    }
}

#[test]
fn activation_each_level_once_per_variant() {
    for v in 0..4 {
        let mut seen = [0u32; 8];
        for f in 0..2 {
            for p in 0..4 {
                let level = luma_activation_level(v, f, p);
                assert!(level < LEVELS_OF_GREY);
                seen[level as usize] += 1;
            }
        }
        assert_eq!(seen, [1u32; 8]);
    }
}

#[test]
fn activation_variants_swap_frames() {
    for p in 0..4 {
        assert_eq!(luma_activation_level(1, 0, p), luma_activation_level(0, 1, p));
        assert_eq!(luma_activation_level(1, 1, p), luma_activation_level(0, 0, p));
        assert_eq!(luma_activation_level(3, 0, p), luma_activation_level(2, 1, p));
        assert_eq!(luma_activation_level(3, 1, p), luma_activation_level(2, 0, p));
        assert!(luma_activation_level(0, 0, p) < 4 && luma_activation_level(0, 1, p) >= 4);
        assert!(luma_activation_level(2, 0, p) < 4 && luma_activation_level(2, 1, p) >= 4);
    }
}
