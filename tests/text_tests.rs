use data_mingler::text::{find_char, is_white_char, matches_token_str, split_str, trim_str};

#[test]
fn trimming_matches_std() {
    for s in ["  a b  ", "\t\nx\u{3000}", "", "   ", "\u{a0}y\u{2029}", "z"] {
        assert_eq!(trim_str(s), s.trim());
    }
    assert!(is_white_char('\u{85}'));
    assert!(!is_white_char('x'));
}

#[test]
fn splitting_matches_std() {
    for s in ["a,b,,c", "", ",", "abc", ",x,"] {
        let ours = split_str(s, ',');
        let std: Vec<String> = s.split(',').map(|p| p.to_string()).collect();
        assert_eq!(ours, std);
    }
}

#[test]
fn tokens_ignore_ascii_case() {
    assert!(matches_token_str("YeS", "yes"));
    assert!(!matches_token_str("yess", "yes"));
    assert!(!matches_token_str("ye", "yes"));
    assert_eq!(find_char("ab:cd:e", ':'), Some(2));
    assert_eq!(find_char("abc", ':'), None);
}
