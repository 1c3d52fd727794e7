use codeowners_rs::rule::{PatternError, Rule};

fn strings(items: &[&str]) -> Vec<String> {
    items.iter().map(|s| s.to_string()).collect()
}

fn read(line: &str, line_number: usize) -> Option<Rule> {
    Rule::from_line_str(line, line_number).unwrap()
}

#[test]
fn a_pattern_with_owners() {
    let rule = read("/docs/ @alice @org/team", 3).unwrap();
    assert_eq!(rule.pattern(), "/docs/");
    assert_eq!(rule.owners(), strings(&["@alice", "@org/team"]));
    assert_eq!(rule.line_number(), 3);
}

#[test]
fn a_pattern_without_owners() {
    let rule = read("/vendor/", 1).unwrap();
    assert_eq!(rule.pattern(), "/vendor/");
    assert_eq!(rule.owners(), Vec::<String>::new());
}

#[test]
fn blank_lines_declare_nothing() {
    assert!(read("", 1).is_none());
    assert!(read("   ", 1).is_none());
    assert!(read("\t \t", 1).is_none());
    assert!(read("\r", 1).is_none());
}

#[test]
fn comment_lines_declare_nothing() {
    assert!(read("# a comment", 1).is_none());
    assert!(read("   # indented comment", 1).is_none());
    assert!(read("#", 1).is_none());
    assert!(read("#* @owner", 1).is_none());
}

#[test]
fn a_trailing_comment_is_dropped() {
    let rule = read("*.rb @ruby # the ruby team", 7).unwrap();
    assert_eq!(rule.pattern(), "*.rb");
    assert_eq!(rule.owners(), strings(&["@ruby"]));
    assert_eq!(rule.line_number(), 7);
}

#[test]
fn a_comment_may_touch_the_last_word() {
    let rule = read("*.rb @ruby#team @other", 1).unwrap();
    assert_eq!(rule.pattern(), "*.rb");
    assert_eq!(rule.owners(), strings(&["@ruby"]));
}

#[test]
fn a_comment_may_cut_the_pattern() {
    let rule = read("docs#old @owner", 1).unwrap();
    assert_eq!(rule.pattern(), "docs");
    assert_eq!(rule.owners(), Vec::<String>::new());
}

#[test]
fn white_space_of_any_kind_and_amount_separates() {
    let rule = read("  \t*.js\t\t@a   @b \u{a0}@c\u{3000}", 1).unwrap();
    assert_eq!(rule.pattern(), "*.js");
    assert_eq!(rule.owners(), strings(&["@a", "@b", "@c"]));
}

#[test]
fn a_carriage_return_at_the_end_is_white_space() {
    let rule = read("*.js @a\r", 1).unwrap();
    assert_eq!(rule.pattern(), "*.js");
    assert_eq!(rule.owners(), strings(&["@a"]));
}

#[test]
fn owners_keep_their_order_and_their_repeats() {
    let rule = read("* @b @a @b", 1).unwrap();
    assert_eq!(rule.owners(), strings(&["@b", "@a", "@b"]));
}

#[test]
fn letters_outside_ascii_are_kept() {
    let rule = read("/dokumente/übersicht.md @müller", 1).unwrap();
    assert_eq!(rule.pattern(), "/dokumente/übersicht.md");
    assert_eq!(rule.owners(), strings(&["@müller"]));
    assert!(rule.is_match_str("/dokumente/übersicht.md"));
}

#[test]
fn the_pattern_is_the_first_word_verbatim() {
    for line in ["/a/b/*.txt @x", "  /a/b/*.txt", "/a/b/*.txt#c", "\t/a/b/*.txt\t@x @y # z"] {
        let rule = read(line, 1).unwrap();
        let stripped = line.split('#').next().unwrap();
        assert_eq!(rule.pattern(), stripped.split_whitespace().next().unwrap());
    }
}

#[test]
fn an_owned_line_reads_like_a_borrowed_one() {
    let owned = Rule::from_line("/docs/ @docs # x".to_string(), 9).unwrap().unwrap();
    let borrowed = read("/docs/ @docs # x", 9).unwrap();
    assert_eq!(owned.pattern(), borrowed.pattern());
    assert_eq!(owned.owners(), borrowed.owners());
    assert_eq!(owned.line_number(), borrowed.line_number());
    assert!(Rule::from_line("# only a comment".to_string(), 1).unwrap().is_none());
}

#[test]
fn reading_from_characters_gives_the_same() {
    let line: Vec<char> = "/docs/ @docs # x".chars().collect();
    let rule = Rule::from_chars(&line, 2).unwrap().unwrap();
    assert_eq!(rule.pattern(), "/docs/");
    assert_eq!(rule.owners(), strings(&["@docs"]));
    assert_eq!(rule.line_number(), 2);
}

#[test]
fn a_new_rule_holds_what_it_was_given() {
    let rule = Rule::new("/src/*".to_string(), strings(&["@a", "@b"]), 12).unwrap();
    assert_eq!(rule.pattern(), "/src/*");
    assert_eq!(rule.owners(), strings(&["@a", "@b"]));
    assert_eq!(rule.line_number(), 12);
    assert_eq!(rule.regex_string(), "\\A\\/src\\/[^/]*\\z");
}

#[test]
fn a_rule_matches_owned_and_borrowed_paths_alike() {
    let rule = Rule::new("/src/*".to_string(), vec![], 1).unwrap();
    assert!(rule.is_match("/src/main.rs".to_string()));
    assert!(rule.is_match_str("/src/main.rs"));
    assert!(!rule.is_match("/src/bin/main.rs".to_string()));
    assert!(!rule.is_match_str("/src/bin/main.rs"));
}

#[test]
fn a_copy_of_a_rule_says_the_same() {
    let rule = Rule::new("*.rb".to_string(), strings(&["@ruby"]), 4).unwrap();
    let copy = rule.clone();
    assert_eq!(copy.pattern(), "*.rb");
    assert_eq!(copy.owners(), strings(&["@ruby"]));
    assert_eq!(copy.line_number(), 4);
    assert_eq!(copy.regex_string(), rule.regex_string());
    assert!(copy.is_match_str("/x.rb"));
    assert!(!copy.is_match_str("/x.py"));
}

#[test]
fn an_empty_pattern_can_be_made_by_hand_and_matches_everything() {
    let rule = Rule::new(String::new(), vec![], 1).unwrap();
    assert_eq!(rule.pattern(), "");
    assert_eq!(rule.regex_string(), "");
    assert!(rule.is_match_str("/anything"));
}

#[test]
fn a_refused_pattern_names_itself_and_its_line() {
    let error = Rule::new("[".to_string(), strings(&["@a"]), 5).unwrap_err();
    assert_eq!(error, PatternError { pattern: "[".to_string(), line_number: 5 });
}

#[test]
fn a_line_with_a_refused_pattern_is_an_error() {
    let error = Rule::from_line_str("  docs/( @a # b", 8).unwrap_err();
    assert_eq!(error.pattern, "docs/(");
    assert_eq!(error.line_number, 8);
    let error = Rule::from_line("[ @a".to_string(), 2).unwrap_err();
    assert_eq!(error, PatternError { pattern: "[".to_string(), line_number: 2 });
}

#[test]
fn a_refused_pattern_inside_a_comment_does_no_harm() {
    assert!(read("# [", 1).is_none());
    let rule = read("docs # (", 1).unwrap();
    assert_eq!(rule.pattern(), "docs");
}

#[test]
fn an_error_can_be_copied() {
    let error = PatternError { pattern: "(".to_string(), line_number: 3 };
    assert_eq!(error.clone(), error);
}
