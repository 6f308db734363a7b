use kiho_puncher::grouping::group_task_descriptions;
use kiho_puncher::menu::MenuError;
use kiho_puncher::session::{SelectionSession, StepStatus};

fn strings(items: &[&str]) -> Vec<String> {
    items.iter().map(|s| s.to_string()).collect()
}

fn example_session() -> SelectionSession {
    let tasks = strings(&["A | one", "A | two", "B | three", "loose item"]);
    SelectionSession::begin(group_task_descriptions(&tasks)).unwrap()
}

#[test]
fn descend_then_select_qualifies_with_group_name() {
    let mut s = example_session();
    assert_eq!(s.step("a"), StepStatus::Descended);
    assert_eq!(s.level.items.len(), 2);
    assert_eq!(s.level.items[0].key, "1");
    assert_eq!(s.level.items[1].key, "2");
    assert_eq!(s.step("2"), StepStatus::Selected("A: two".to_string()));
}

#[test]
fn select_unclassified_leaf_is_bare() {
    let mut s = example_session();
    assert_eq!(s.step("1"), StepStatus::Selected("loose item".to_string()));
}

#[test]
fn mixed_input_is_invalid_at_any_level() {
    let mut s = example_session();
    assert_eq!(s.step("a1"), StepStatus::Invalid);
    assert!(s.group.is_none());
    assert_eq!(s.step("b"), StepStatus::Descended);
    assert_eq!(s.step("a1"), StepStatus::Invalid);
    assert_eq!(s.group, Some("B".to_string()));
    assert_eq!(s.step("1"), StepStatus::Selected("B: three".to_string()));
}

#[test]
fn empty_and_unknown_inputs_are_invalid() {
    let mut s = example_session();
    assert_eq!(s.step(""), StepStatus::Invalid);
    assert_eq!(s.step("   "), StepStatus::Invalid);
    assert_eq!(s.step("x"), StepStatus::Invalid);
    assert_eq!(s.step("9"), StepStatus::Invalid);
    assert_eq!(s.step("0"), StepStatus::Invalid);
    assert_eq!(s.step("+1"), StepStatus::Invalid);
    assert!(s.group.is_none());
}

#[test]
fn input_is_trimmed_and_case_folded() {
    let mut s = example_session();
    assert_eq!(s.step("  b \n"), StepStatus::Descended);
    assert_eq!(s.group, Some("B".to_string()));
    assert_eq!(s.step(" 1 "), StepStatus::Selected("B: three".to_string()));
}

#[test]
fn no_backward_navigation_inside_group() {
    let mut s = example_session();
    assert_eq!(s.step("A"), StepStatus::Descended);
    // letter keys no longer exist at a sub-level, including the one used
    assert_eq!(s.step("A"), StepStatus::Invalid);
    assert_eq!(s.step("B"), StepStatus::Invalid);
    assert_eq!(s.group, Some("A".to_string()));
}

#[test]
fn numbers_of_other_levels_do_not_carry_over() {
    let mut s = example_session();
    assert_eq!(s.step("b"), StepStatus::Descended);
    // the top level had "1"; group B has exactly one item, so "2" is gone
    assert_eq!(s.step("2"), StepStatus::Invalid);
    assert_eq!(s.step("1"), StepStatus::Selected("B: three".to_string()));
}

#[test]
fn begin_rejects_too_many_groups() {
    let mut tasks: Vec<String> = Vec::new();
    for i in 0..27 {
        tasks.push(format!("G{:02} | item", i));
    }
    let g = group_task_descriptions(&tasks);
    assert_eq!(SelectionSession::begin(g).unwrap_err(), MenuError::TooManyGroups);
}

#[test]
fn prompt_bounds_report_key_ranges() {
    let mut s = example_session();
    let b = s.prompt_bounds().unwrap();
    assert_eq!(b.last_letter, Some('B'));
    assert_eq!(b.last_number, Some(1));
    assert_eq!(s.step("a"), StepStatus::Descended);
    let b = s.prompt_bounds().unwrap();
    assert_eq!(b.last_letter, None);
    assert_eq!(b.last_number, Some(2));
}

#[test]
fn prompt_bounds_without_numbers_or_letters() {
    let tasks = strings(&["A | one"]);
    let s = SelectionSession::begin(group_task_descriptions(&tasks)).unwrap();
    let b = s.prompt_bounds().unwrap();
    assert_eq!(b.last_letter, Some('A'));
    assert_eq!(b.last_number, None);

    let tasks = strings(&["only loose"]);
    let s = SelectionSession::begin(group_task_descriptions(&tasks)).unwrap();
    let b = s.prompt_bounds().unwrap();
    assert_eq!(b.last_letter, None);
    assert_eq!(b.last_number, Some(1));
}

#[test]
fn empty_level_is_fatal() {
    let tasks: Vec<String> = Vec::new();
    let s = SelectionSession::begin(group_task_descriptions(&tasks)).unwrap();
    assert_eq!(s.prompt_bounds().unwrap_err(), MenuError::EmptyLevel);
}
