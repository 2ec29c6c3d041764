use icfp2019::report::{read_solution, replaces_best, score_of, standing, trim, Standing};

#[test]
fn a_score_counts_every_action_once() {
    let found = read_solution(7, "prob-007.sol", "DDB(1,2)W#AB(-1,-12)\n").unwrap();
    assert_eq!(found.id, 7);
    assert_eq!(found.filename, "prob-007.sol");
    assert_eq!(found.solution, "DDB(1,2)W#AB(-1,-12)");
    assert_eq!(found.score, 4);
    assert_eq!(read_solution(1, "a", "").unwrap().score, 0);
    assert_eq!(read_solution(1, "a", " \t\n").unwrap().solution, "");
    assert_eq!(read_solution(1, "a", "WW#SSSS#A").unwrap().score, 4);
    // What is no position stays.
    assert_eq!(read_solution(1, "a", "B(1,)(2)").unwrap().score, 8);
}

#[test]
fn the_longest_log_is_measured_in_bytes() {
    assert_eq!(score_of(""), 0);
    assert_eq!(score_of("#"), 0);
    assert_eq!(score_of("WASD"), 4);
    assert_eq!(score_of("W#ASD#"), 3);
    assert_eq!(score_of("##ZZ"), 2);
    assert_eq!(score_of("é#a"), 2);
}

#[test]
fn trimming_takes_white_space_from_the_ends() {
    assert_eq!(trim("  a b \n"), "a b");
    assert_eq!(trim("\u{3000}\u{a0}x\u{2028}\u{85}"), "x");
    assert_eq!(trim(" \t\r\n\u{b}\u{c}"), "");
    assert_eq!(trim(""), "");
    assert_eq!(trim("\u{200b}a"), "\u{200b}a");
    assert_eq!(trim("abc"), "abc");
    for text in ["  a b \n", "\u{1680}\u{2000}q\u{200a} ", "\u{202f}\u{205f}", "\u{feff}z "] {
        assert_eq!(trim(text), text.trim());
    }
}

#[test]
fn standings() {
    assert_eq!(standing(5, None), Standing::Unknown);
    assert_eq!(standing(5, Some(6)), Standing::New);
    assert_eq!(standing(5, Some(5)), Standing::Same);
    assert_eq!(standing(5, Some(4)), Standing::Behind);
    assert!(replaces_best(5, None));
    assert!(replaces_best(5, Some(6)));
    assert!(!replaces_best(5, Some(5)));
    assert!(!replaces_best(5, Some(4)));
}
