use bibleref::edit_distance::edit_distance;

// The scorer returns the score scaled by ten; dividing by ten recovers the
// plain value for a weight given in tenths (10 tenths = a weight of 1.0).
fn run_test(s1: &str, s2: &str, expected: f32) {
    assert_eq!(edit_distance(s1, s2, Some(10)) as f32 / 10.0, expected);
}

#[test]
fn test_empty_strings_return_zero() {
    run_test("", "", 0.0);
}

#[test]
fn test_one_empty_string_returns_the_length_of_the_other() {
    run_test("hello", "", 5.0);
}

#[test]
fn test_equal_strings_have_edit_distance_of_zero() {
    run_test("hello", "hello", 0.0);
}

#[test]
fn swapped_chars_count_as_one() {
    run_test("one", "noe", 1.0);
}

#[test]
fn each_differing_character_is_a_change() {
    run_test("foo", "bar", 3.0);
}

#[test]
fn one_added_letter_has_distance_one() {
    run_test("one", "oned", 1.0);
}

#[test]
fn empty_side_ignores_the_weight() {
    assert_eq!(edit_distance("hello", "", Some(10)), 50);
    assert_eq!(edit_distance("hello", "", Some(0)), 50);
    assert_eq!(edit_distance("", "hello", None), 50);
}

#[test]
fn default_weight_is_nine_tenths() {
    // Two changes (the trailing remainder costs its length plus one), minus
    // 0.9 for one character of length difference: 2.0 - 0.9 = 1.1.
    assert_eq!(edit_distance("one", "oned", None), 11);
}

#[test]
fn transposition_needs_two_more_characters_on_both_sides() {
    // A swap in the final two characters is scored as two substitutions.
    assert_eq!(edit_distance("abcd", "abdc", Some(10)), 20);
    // The same swap earlier in the string counts once.
    assert_eq!(edit_distance("bacde", "abcde", Some(10)), 10);
}
