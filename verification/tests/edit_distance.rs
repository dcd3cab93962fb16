use algokit::edit_distance::ldistance;

// the same cost recurrence, computed naively
fn naive(a: &[char], b: &[char], i: usize, j: usize) -> u32 {
    if i == 0 && j == 0 {
        if a[0] == b[0] {
            0
        } else {
            1
        }
    } else if i == 0 {
        1 + naive(a, b, i, j - 1)
    } else if j == 0 {
        1 + naive(a, b, i - 1, j)
    } else {
        let bcost = if a[i] == b[j] { 1 } else { 0 };
        let x = 1 + naive(a, b, i - 1, j);
        let y = 1 + naive(a, b, i, j - 1);
        let z = bcost + naive(a, b, i - 1, j - 1);
        x.min(y).min(z)
    }
}

fn reference(s1: &str, s2: &str) -> u32 {
    let a: Vec<char> = s1.chars().collect();
    let b: Vec<char> = s2.chars().collect();
    naive(&a, &b, a.len() - 1, b.len() - 1)
}

#[test]
fn single_characters() {
    assert_eq!(ldistance("a", "a"), 0);
    assert_eq!(ldistance("a", "b"), 1);
}

#[test]
fn matches_the_naive_recurrence() {
    for (s1, s2) in [
        ("apple", "apple"),
        ("apple", "maple"),
        ("kitten", "sitting"),
        ("ab", "ab"),
        ("abcdef", "fedcba"),
        ("x", "abcdefgh"),
    ] {
        assert_eq!(ldistance(s1, s2), reference(s1, s2), "{} vs {}", s1, s2);
    }
}

#[test]
fn cost_never_exceeds_the_walk_around_the_matrix() {
    for (s1, s2) in [("abc", "zz"), ("q", "q"), ("longerword", "tiny")] {
        let bound = (s1.chars().count() + s2.chars().count() - 1) as u32;
        assert!(ldistance(s1, s2) <= bound);
    }
}
