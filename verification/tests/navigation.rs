use prompt_reader::console::Console;
use prompt_reader::navigator::choose_step;
use prompt_reader::navigator::read_from_options_or_empty;
use prompt_reader::navigator::read_from_tree_options;
use prompt_reader::navigator::ChoiceStep;
use prompt_reader::tree::Child;
use prompt_reader::tree::Tree;

fn console(lines: &[&str]) -> Console {
    Console::new(lines.iter().map(|l| l.to_string()).collect())
}

fn options() -> Vec<String> {
    vec!["food".to_string(), "rent".to_string(), "other".to_string()]
}

fn leaf_child(key: &str) -> Child {
    Child { key: key.to_string(), sub: None }
}

/// Root children: food -> { groceries, dining }, rent (a leaf).
fn sample_tree() -> Tree {
    Tree {
        children: vec![
            Child {
                key: "food".to_string(),
                sub: Some(Tree { children: vec![leaf_child("groceries"), leaf_child("dining")] }),
            },
            leaf_child("rent"),
        ],
    }
}

#[test]
fn choice_matches_verbatim() {
    let mut con = console(&["food"]);
    let r = read_from_options_or_empty("cat", &options(), &mut con).unwrap();
    assert_eq!(r, Some("food".to_string()));
}

#[test]
fn choice_is_case_sensitive() {
    let mut con = console(&["FOOD", ""]);
    let r = read_from_options_or_empty("cat", &options(), &mut con).unwrap();
    assert_eq!(r, None);
    assert_eq!(con.remaining_len(), 0);
}

#[test]
fn choice_empty_line_declines() {
    let mut con = console(&[""]);
    let r = read_from_options_or_empty("cat", &options(), &mut con).unwrap();
    assert_eq!(r, None);
}

#[test]
fn help_prints_every_option_then_reasks() {
    let mut con = console(&["?", "food"]);
    let r = read_from_options_or_empty("cat", &options(), &mut con).unwrap();
    assert_eq!(r, Some("food".to_string()));
    let expected = vec![
        "cat: ".to_string(),
        "    food\n".to_string(),
        "    rent\n".to_string(),
        "    other\n".to_string(),
        "\n".to_string(),
        "cat: ".to_string(),
    ];
    assert_eq!(con.written_chunks(), &expected);
}

#[test]
fn help_token_is_never_an_option() {
    let opts = vec!["?".to_string(), "a".to_string()];
    let mut con = console(&["?", "a"]);
    let r = read_from_options_or_empty("q", &opts, &mut con).unwrap();
    assert_eq!(r, Some("a".to_string()));
    assert_eq!(con.remaining_len(), 0);
}

#[test]
fn choice_fails_when_input_closes() {
    let mut con = console(&["nope"]);
    assert!(read_from_options_or_empty("q", &options(), &mut con).is_err());
}

#[test]
fn walk_descends_two_levels() {
    let tree = sample_tree();
    let mut con = console(&["food", "dining"]);
    let path = read_from_tree_options("cat", &tree, &mut con).unwrap();
    assert_eq!(path, vec!["food".to_string(), "dining".to_string()]);
}

#[test]
fn walk_stops_on_empty_line() {
    let tree = sample_tree();
    let mut con = console(&["food", ""]);
    let path = read_from_tree_options("cat", &tree, &mut con).unwrap();
    assert_eq!(path, vec!["food".to_string()]);
}

#[test]
fn walk_declined_at_root_is_empty() {
    let tree = sample_tree();
    let mut con = console(&[""]);
    let path = read_from_tree_options("cat", &tree, &mut con).unwrap();
    assert!(path.is_empty());
}

#[test]
fn walk_ends_at_leaf_without_prompting_further() {
    let tree = sample_tree();
    let mut con = console(&["rent", "left over"]);
    let path = read_from_tree_options("cat", &tree, &mut con).unwrap();
    assert_eq!(path, vec!["rent".to_string()]);
    assert_eq!(con.remaining_len(), 1);
    assert_eq!(con.written_chunks(), &vec!["cat: ".to_string()]);
}

#[test]
fn walk_childless_node_rejects_everything_but_empty() {
    let tree = Tree {
        children: vec![Child { key: "a".to_string(), sub: Some(Tree { children: vec![] }) }],
    };
    let mut con = console(&["a", "x", "?", ""]);
    let path = read_from_tree_options("q", &tree, &mut con).unwrap();
    assert_eq!(path, vec!["a".to_string()]);
    assert_eq!(con.remaining_len(), 0);
}

#[test]
fn walk_twice_on_identical_input_gives_identical_paths() {
    let tree = sample_tree();
    let mut first = console(&["food", "groceries"]);
    let mut second = console(&["food", "groceries"]);
    let a = read_from_tree_options("cat", &tree, &mut first).unwrap();
    let b = read_from_tree_options("cat", &tree, &mut second).unwrap();
    assert_eq!(a, b);
    assert_eq!(first.remaining_len(), second.remaining_len());
}

#[test]
fn walk_fails_when_input_closes_mid_descent() {
    let tree = sample_tree();
    let mut con = console(&["food"]);
    assert!(read_from_tree_options("cat", &tree, &mut con).is_err());
}

#[test]
fn step_classifies_lines() {
    let opts = options();
    assert!(matches!(choose_step("  ", &opts), ChoiceStep::Stop));
    assert!(matches!(choose_step(" ? ", &opts), ChoiceStep::Help));
    assert!(matches!(choose_step("rent", &opts), ChoiceStep::Pick));
    assert!(matches!(choose_step("RENT", &opts), ChoiceStep::Retry));
}
