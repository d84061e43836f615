use zolit::matching::exact::find_exact_match;


#[test]
fn test_exact_match_single_line() {
    let lines = vec!["The quick brown fox jumps over the lazy dog"];
    assert_eq!(find_exact_match("brown fox", &lines), Some(0));
}

#[test]
fn test_exact_match_spans_lines() {
    let lines = vec!["end of first", "start of second"];
    assert_eq!(find_exact_match("first start", &lines), Some(1));
}

#[test]
fn test_exact_match_returns_end_line() {
    let lines = vec!["aaa bbb", "ccc ddd", "eee fff"];
    // "bbb ccc ddd eee" spans lines 0-2, ends in line 2
    assert_eq!(find_exact_match("bbb ccc ddd eee", &lines), Some(2));
}

#[test]
fn test_exact_match_not_found() {
    let lines = vec!["hello world"];
    assert_eq!(find_exact_match("goodbye", &lines), None);
}

#[test]
fn test_exact_match_whitespace_normalized() {
    let lines = vec!["word   one    two"];
    assert_eq!(find_exact_match("one  two", &lines), Some(0));
}

#[test]
fn test_exact_match_case_insensitive() {
    let lines = vec!["The Quick Brown Fox"];
    assert_eq!(find_exact_match("quick brown", &lines), Some(0));
}
