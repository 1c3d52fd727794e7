use codeowners_rs::rule::{PatternError, Rule};
use codeowners_rs::root::{infer_root, normalize_path};
use codeowners_rs::ruleset::Ruleset;

fn strings(items: &[&str]) -> Vec<String> {
    items.iter().map(|s| s.to_string()).collect()
}

fn build(content: &str, root: &str) -> Ruleset {
    Ruleset::build(content.to_string(), root.to_string(), None).unwrap()
}

fn owners(set: &Ruleset, path: &str) -> Vec<String> {
    set.owners_for_path(path.to_string())
}

fn rule(set: &Ruleset, path: &str) -> Option<Rule> {
    set.rule_for_path(path.to_string())
}

#[test]
fn fallback_and_directory_rule() {
    let set = build("\n*       @default\n/docs/  @docs-team  # fallback\n", "");
    assert_eq!(owners(&set, "/docs/index.md"), strings(&["@docs-team"]));
    assert_eq!(owners(&set, "/app/x"), strings(&["@default"]));
}

#[test]
fn one_rule_for_each_line_that_declares_one() {
    let content = "# owners\n\n* @a\n   \n/docs/ @b # docs\n#/old/ @c\n/src/\n\t\n*.rb @d @e";
    let set = build(content, "");
    let expected = content
        .lines()
        .filter(|line| line.split('#').next().unwrap().split_whitespace().next().is_some())
        .count();
    assert_eq!(expected, 4);
    assert_eq!(set.rules().len(), expected);
}

#[test]
fn rules_keep_the_order_and_the_numbers_of_their_lines() {
    let set = build("# owners\n\n* @a\n/docs/ @b\n\n/src/ @c @d\n", "");
    let rules = set.rules();
    assert_eq!(rules.len(), 3);
    assert_eq!(rules[0].pattern(), "*");
    assert_eq!(rules[0].line_number(), 3);
    assert_eq!(rules[0].owners(), strings(&["@a"]));
    assert_eq!(rules[1].pattern(), "/docs/");
    assert_eq!(rules[1].line_number(), 4);
    assert_eq!(rules[2].pattern(), "/src/");
    assert_eq!(rules[2].line_number(), 6);
    assert_eq!(rules[2].owners(), strings(&["@c", "@d"]));
}

#[test]
fn an_empty_file_has_no_rules() {
    assert_eq!(build("", "").rules().len(), 0);
    assert_eq!(build("\n\n\n", "").rules().len(), 0);
    assert_eq!(build("# nothing\n  # here", "").rules().len(), 0);
    assert!(rule(&build("", ""), "/x").is_none());
    assert!(build("", "").default_rule().is_none());
}

#[test]
fn a_file_need_not_end_with_a_line_feed() {
    let with = build("* @a\n/docs/ @b\n", "");
    let without = build("* @a\n/docs/ @b", "");
    assert_eq!(with.rules().len(), 2);
    assert_eq!(without.rules().len(), 2);
    assert_eq!(without.rules()[1].line_number(), 2);
    assert_eq!(without.rules()[1].owners(), strings(&["@b"]));
}

#[test]
fn lines_may_end_with_carriage_return_and_line_feed() {
    let set = build("* @a\r\n\r\n/docs/ @b\r\n", "");
    let rules = set.rules();
    assert_eq!(rules.len(), 2);
    assert_eq!(rules[0].pattern(), "*");
    assert_eq!(rules[0].owners(), strings(&["@a"]));
    assert_eq!(rules[1].pattern(), "/docs/");
    assert_eq!(rules[1].owners(), strings(&["@b"]));
    assert_eq!(rules[1].line_number(), 3);
}

#[test]
fn every_pattern_is_the_first_word_of_its_line() {
    let content = "  *   @a # x\n\n/docs/**#y @b\n\t*.rb\t@c";
    let set = build(content, "");
    let lines: Vec<&str> = content.lines().collect();
    let rules = set.rules();
    assert_eq!(rules.len(), 3);
    for rule in rules.iter() {
        let line = lines[rule.line_number() - 1];
        let stripped = line.split('#').next().unwrap();
        let mut words = stripped.split_whitespace();
        assert_eq!(rule.pattern(), words.next().unwrap());
        assert_eq!(rule.owners(), words.map(|w| w.to_string()).collect::<Vec<String>>());
    }
}

#[test]
fn owners_are_those_of_the_rule_for_the_path() {
    let set = build("* @a\n/docs/ @b @c\n/vendor/\n", "");
    for path in ["/docs/x", "/src/x", "/vendor/lib.rb", "", "/"] {
        let expected = match rule(&set, path) {
            Some(rule) => rule.owners(),
            None => vec![],
        };
        assert_eq!(owners(&set, path), expected);
    }
    assert_eq!(owners(&set, "/docs/x"), strings(&["@b", "@c"]));
}

#[test]
fn no_rule_and_no_owner_look_alike() {
    let set = build("/docs/ @b\n/vendor/\n", "");
    assert_eq!(owners(&set, "/vendor/x"), Vec::<String>::new());
    assert_eq!(owners(&set, "/src/x"), Vec::<String>::new());
    assert_eq!(rule(&set, "/vendor/x").unwrap().pattern(), "/vendor/");
    assert!(rule(&set, "/src/x").is_none());
}

#[test]
fn the_later_of_two_matching_rules_wins() {
    let set = build("/docs/ @first\n/docs/ @second\n", "");
    let found = rule(&set, "/docs/readme").unwrap();
    assert_eq!(found.line_number(), 2);
    assert_eq!(found.owners(), strings(&["@second"]));
}

#[test]
fn a_later_general_rule_beats_an_earlier_specific_one() {
    let set = build("/docs/api/ @api\n/docs/ @docs\n* @all\n", "");
    assert_eq!(owners(&set, "/docs/api/x"), strings(&["@all"]));
    let set = build("* @all\n/docs/ @docs\n/docs/api/ @api\n", "");
    assert_eq!(owners(&set, "/docs/api/x"), strings(&["@api"]));
    assert_eq!(owners(&set, "/docs/x"), strings(&["@docs"]));
    assert_eq!(owners(&set, "/x"), strings(&["@all"]));
}

#[test]
fn a_rule_that_does_not_match_is_passed_over() {
    let set = build("*.rb @ruby\n/docs/ @docs\n*.py @python\n", "");
    assert_eq!(rule(&set, "/app/x.rb").unwrap().line_number(), 1);
    assert_eq!(rule(&set, "/docs/x.rb").unwrap().line_number(), 2);
    assert_eq!(rule(&set, "/docs/x.py").unwrap().line_number(), 3);
    assert!(rule(&set, "/app/x.js").is_none());
}

#[test]
fn the_root_is_taken_off_the_path() {
    assert_eq!(normalize_path("/repo", "/repo/src/main"), "/src/main");
    let set = build("/src/ @src\n", "/repo");
    assert_eq!(owners(&set, "/repo/src/main"), strings(&["@src"]));
    assert_eq!(owners(&set, "/src/main"), strings(&["@src"]));
    assert_eq!(owners(&set, "/other/src/main"), Vec::<String>::new());
}

#[test]
fn a_separator_is_put_in_front_where_none_is() {
    assert_eq!(normalize_path("", "src/main"), "/src/main");
    assert_eq!(normalize_path("", "/src/main"), "/src/main");
    assert_eq!(normalize_path("", ""), "/");
    assert_eq!(normalize_path("/repo", "/repo"), "/");
    assert_eq!(normalize_path("/repo/", "/repo/src"), "/src");
    assert_eq!(normalize_path("/repo", "src/main"), "/src/main");
}

#[test]
fn a_root_that_is_not_in_front_stays() {
    assert_eq!(normalize_path("/repo", "/other/src"), "/other/src");
    assert_eq!(normalize_path("/repo", "/x/repo/src"), "/x/repo/src");
    assert_eq!(normalize_path("/repository", "/repo/src"), "/repo/src");
}

#[test]
fn the_root_is_taken_off_once() {
    assert_eq!(normalize_path("/repo", "/repo/repo/src"), "/repo/src");
    let set = build("/repo/ @inner\n", "/repo");
    assert_eq!(owners(&set, "/repo/repo/x"), strings(&["@inner"]));
}

#[test]
fn the_root_loses_the_separators_at_its_end() {
    assert_eq!(build("", "/repo/").root(), "/repo");
    assert_eq!(build("", "/repo///").root(), "/repo");
    assert_eq!(build("", "/repo").root(), "/repo");
    assert_eq!(build("", "/").root(), "");
    assert_eq!(build("", "").root(), "");
    assert_eq!(build("", "/a//b/").root(), "/a//b");
    let set = build("/src/ @src\n", "/repo/");
    assert_eq!(owners(&set, "/repo/src/main"), strings(&["@src"]));
}

#[test]
fn the_fallback_is_the_rule_with_the_star() {
    let set = build("/docs/ @docs\n* @org/team\n/src/ @src\n", "");
    let fallback = set.default_rule().unwrap();
    assert_eq!(fallback.pattern(), "*");
    assert_eq!(fallback.owners(), strings(&["@org/team"]));
    assert_eq!(fallback.line_number(), 2);
    let specific = rule(&set, "/src/main").unwrap();
    assert_eq!(specific.pattern(), "/src/");
    assert_ne!(specific.line_number(), fallback.line_number());
    let general = rule(&set, "/docs/x").unwrap();
    assert_eq!(general.line_number(), fallback.line_number());
}

#[test]
fn the_first_of_several_stars_is_the_fallback() {
    let set = build("*.rb @ruby\n* @one\n** @stars\n* @two\n", "");
    let fallback = set.default_rule().unwrap();
    assert_eq!(fallback.line_number(), 2);
    assert_eq!(fallback.owners(), strings(&["@one"]));
    assert_eq!(rule(&set, "/x").unwrap().line_number(), 4);
}

#[test]
fn without_a_star_there_is_no_fallback() {
    assert!(build("/docs/ @docs\n*.rb @ruby\n** @x\n", "").default_rule().is_none());
}

#[test]
fn the_source_path_is_kept() {
    let set = Ruleset::build(String::new(), String::new(), Some("/repo/CODEOWNERS".to_string()))
        .unwrap();
    assert_eq!(set.path(), Some("/repo/CODEOWNERS"));
    assert_eq!(build("", "").path(), None);
}

#[test]
fn a_copy_of_a_ruleset_answers_alike() {
    let set = Ruleset::build(
        "* @a\n/docs/ @b\n".to_string(),
        "/repo/".to_string(),
        Some("/repo/CODEOWNERS".to_string()),
    )
    .unwrap();
    let copy = set.clone();
    assert_eq!(copy.path(), Some("/repo/CODEOWNERS"));
    assert_eq!(copy.root(), "/repo");
    assert_eq!(copy.rules().len(), 2);
    assert_eq!(owners(&copy, "/repo/docs/x"), strings(&["@b"]));
    assert_eq!(owners(&copy, "/repo/x"), strings(&["@a"]));
}

#[test]
fn the_first_refused_pattern_stops_the_build() {
    let error = Ruleset::build("* @a\n\n( @b\n[ @c\n".to_string(), String::new(), None)
        .unwrap_err();
    assert_eq!(error, PatternError { pattern: "(".to_string(), line_number: 3 });
    let content = "# x\n/docs/ @a\n*.rb @b\ndocs/[ @c";
    let error = Ruleset::build(content.to_string(), String::new(), None).unwrap_err();
    assert_eq!(error, PatternError { pattern: "docs/[".to_string(), line_number: 4 });
}

#[test]
fn the_root_is_guessed_from_the_usual_places() {
    assert_eq!(infer_root("/repo/.github/CODEOWNERS"), Some("/repo".to_string()));
    assert_eq!(infer_root("/repo/docs/CODEOWNERS"), Some("/repo".to_string()));
    assert_eq!(infer_root("/repo/CODEOWNERS"), Some("/repo".to_string()));
    assert_eq!(infer_root("/CODEOWNERS"), Some(String::new()));
    assert_eq!(infer_root("CODEOWNERS"), Some(String::new()));
    assert_eq!(infer_root(".github/CODEOWNERS"), Some(String::new()));
    assert_eq!(infer_root("docs/CODEOWNERS"), Some(String::new()));
    assert_eq!(infer_root("/a/b/docs/CODEOWNERS"), Some("/a/b".to_string()));
}

#[test]
fn the_root_is_not_guessed_from_other_places() {
    assert_eq!(infer_root("/repo/OWNERS"), None);
    assert_eq!(infer_root("/repo/MYCODEOWNERS"), None);
    assert_eq!(infer_root("/repo/CODEOWNERS.txt"), None);
    assert_eq!(infer_root(""), None);
    assert_eq!(infer_root("/repo/mydocs/CODEOWNERS"), Some("/repo/mydocs".to_string()));
    assert_eq!(infer_root("/repo/x.github/CODEOWNERS"), Some("/repo/x.github".to_string()));
}
