use spellcheck::med::{lev_dist_opt, levenshtien_distance};

#[test]
fn edit_distance_test() {
    let distance1 = levenshtien_distance("hej", "hej");
    assert_eq!(distance1, 0);
    let distance2 = levenshtien_distance("", "");
    assert_eq!(distance2, 0);
    let distance3 = levenshtien_distance("", "hej");
    assert_eq!(distance3, 3);
    let distace4 = levenshtien_distance("koppar", "kroppar");
    assert_eq!(distace4, 1);
    let distance5 = levenshtien_distance("kopparhej", "kroppar");
    assert_eq!(distance5, 4)
}

#[test]
fn distance_to_self_is_zero() {
    for s in ["", "a", "hello", "spellcheck", "abcdefghij"] {
        assert_eq!(levenshtien_distance(s, s), 0);
        assert_eq!(lev_dist_opt(s.as_bytes(), s.as_bytes()), 0);
    }
}

#[test]
fn distance_is_symmetric() {
    let samples = ["", "a", "ab", "hej", "hello", "koppar", "kroppar", "xyzzyx"];
    for a in samples {
        for b in samples {
            assert_eq!(levenshtien_distance(a, b), levenshtien_distance(b, a));
            assert_eq!(
                lev_dist_opt(a.as_bytes(), b.as_bytes()),
                lev_dist_opt(b.as_bytes(), a.as_bytes())
            );
        }
    }
}

#[test]
fn distance_from_empty_is_length() {
    for s in ["", "a", "hej", "hello", "abcdefghij"] {
        assert_eq!(levenshtien_distance("", s) as usize, s.chars().count());
    }
}

#[test]
fn triangle_inequality_on_sampled_triples() {
    let samples = ["", "a", "ab", "hej", "hejd", "hello", "koppar", "kroppar", "kopparhej"];
    for a in samples {
        for b in samples {
            for c in samples {
                let ac = levenshtien_distance(a, c);
                let ab = levenshtien_distance(a, b);
                let bc = levenshtien_distance(b, c);
                assert!(ac as i32 <= ab as i32 + bc as i32);
            }
        }
    }
}

#[test]
fn byte_and_char_metrics_agree_on_ascii() {
    let samples = ["", "cat", "cart", "dog", "hello"];
    for a in samples {
        for b in samples {
            assert_eq!(
                levenshtien_distance(a, b),
                lev_dist_opt(a.as_bytes(), b.as_bytes())
            );
        }
    }
}

#[test]
fn multibyte_characters_count_once_for_char_metric() {
    // one two-byte code point substituted: one edit for the char metric,
    // two for the byte metric
    assert_eq!(levenshtien_distance("héj", "hej"), 1);
    assert_eq!(lev_dist_opt("héj".as_bytes(), "hej".as_bytes()), 2);
}

#[test]
fn long_inputs_saturate_at_i8_max() {
    let long_a = "a".repeat(300);
    let long_b = "b".repeat(300);
    assert_eq!(levenshtien_distance(&long_a, &long_b), i8::MAX);
    assert_eq!(lev_dist_opt(long_a.as_bytes(), long_b.as_bytes()), i8::MAX);
    assert_eq!(levenshtien_distance(&long_a, ""), i8::MAX);
}
