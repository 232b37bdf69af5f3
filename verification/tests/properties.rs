use squeeze::{squeeze, SqueezeExt};

const TEXTS: [&str; 14] = [
    "",
    "a",
    "aa",
    "aaa",
    "abc",
    "heeelo",
    "goodbyegoodbye",
    "heeeeeeeeleeeeeeeee",
    "hEEElEEE",
    "hEeElEeE",
    "mississippi",
    "  a   b  ",
    "aabbaabb",
    "h\u{e9}\u{e9}\u{e9}llo",
];

const NEEDLES: [char; 10] = ['a', 'b', 'e', 'E', 'o', 's', 'p', ' ', '\u{e9}', 'z'];

fn has_adjacent_needles(text: &str, needle: char) -> bool {
    let chars: Vec<char> = text.chars().collect();
    let mut i = 1;
    while i < chars.len() {
        if chars[i] == needle && chars[i - 1] == needle {
            return true;
        }
        i += 1;
    }
    false
}

fn is_subsequence(part: &str, whole: &str) -> bool {
    let mut rest = whole.chars();
    for wanted in part.chars() {
        let mut found = false;
        for c in rest.by_ref() {
            if c == wanted {
                found = true;
                break;
            }
        }
        if !found {
            return false;
        }
    }
    true
}

fn run_lengths(text: &str, c: char) -> Vec<usize> {
    let mut runs: Vec<usize> = Vec::new();
    let mut in_run = false;
    for x in text.chars() {
        if x == c {
            if in_run {
                let last = runs.len() - 1;
                runs[last] += 1;
            } else {
                runs.push(1);
            }
        }
        in_run = x == c;
    }
    runs
}

fn without(text: &str, needle: char) -> String {
    let mut rest = String::new();
    for c in text.chars() {
        if c != needle {
            rest.push(c);
        }
    }
    rest
}

#[test]
fn squeezing_twice_is_squeezing_once() {
    for text in TEXTS.iter() {
        for needle in NEEDLES.iter() {
            let once = String::from(*text).squeeze(*needle);
            let twice = once.squeeze(*needle);
            assert_eq!(twice, once);
        }
    }
    let mut text = String::from("goodbyegoodbye");
    squeeze(&mut text, 'o');
    squeeze(&mut text, 'o');
    assert_eq!(text, "godbyegodbye");
}

#[test]
fn result_is_never_longer() {
    for text in TEXTS.iter() {
        for needle in NEEDLES.iter() {
            let result = String::from(*text).squeeze(*needle);
            let before = text.chars().count();
            let after = result.chars().count();
            assert!(after <= before);
            assert_eq!(after == before, !has_adjacent_needles(text, *needle));
        }
    }
    assert_eq!(String::from("heeelo").squeeze('e').chars().count(), 4);
    assert_eq!(String::from("helo").squeeze('e').chars().count(), 4);
}

#[test]
fn result_without_adjacent_needles_is_the_input() {
    for text in TEXTS.iter() {
        for needle in NEEDLES.iter() {
            let result = String::from(*text).squeeze(*needle);
            assert_eq!(result == *text, !has_adjacent_needles(text, *needle));
            assert!(!has_adjacent_needles(&result, *needle));
        }
    }
}

#[test]
fn result_is_a_subsequence_of_the_input() {
    for text in TEXTS.iter() {
        for needle in NEEDLES.iter() {
            let result = String::from(*text).squeeze(*needle);
            assert!(is_subsequence(&result, text));
        }
    }
    assert!(is_subsequence("godbye", "goodbye"));
    assert!(!is_subsequence("goodbye", "godbye"));
}

#[test]
fn runs_of_other_characters_are_unchanged() {
    for text in TEXTS.iter() {
        for needle in NEEDLES.iter() {
            let result = String::from(*text).squeeze(*needle);
            for other in NEEDLES.iter() {
                if other != needle {
                    assert_eq!(run_lengths(&result, *other), run_lengths(text, *other));
                }
            }
            assert_eq!(without(&result, *needle), without(text, *needle));
        }
    }
    let result = String::from("aabbaabb").squeeze('a');
    assert_eq!(result, "abbabb");
    assert_eq!(run_lengths(&result, 'b'), vec![2, 2]);
}

#[test]
fn runs_of_the_needle_become_single() {
    for text in TEXTS.iter() {
        for needle in NEEDLES.iter() {
            let result = String::from(*text).squeeze(*needle);
            let before = run_lengths(text, *needle);
            let after = run_lengths(&result, *needle);
            assert_eq!(after, vec![1; before.len()]);
        }
    }
    assert_eq!(run_lengths("heeeeeeeeleeeeeeeee", 'e'), vec![8, 9]);
    assert_eq!(run_lengths(&String::from("heeeeeeeeleeeeeeeee").squeeze('e'), 'e'), vec![1, 1]);
}

#[test]
fn other_case_is_another_character() {
    let upper = String::from("hEEeeEEl").squeeze('E');
    assert_eq!(upper, "hEeeEl");
    assert_eq!(run_lengths(&upper, 'e'), vec![2]);
    let lower = String::from("hEEeeEEl").squeeze('e');
    assert_eq!(lower, "hEEeEEl");
    assert_eq!(run_lengths(&lower, 'E'), vec![2, 2]);
    assert_eq!(String::from("eeee").squeeze('E'), "eeee");
    assert_eq!(String::from("EEEE").squeeze('e'), "EEEE");
}
