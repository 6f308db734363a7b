use kiho_puncher::grouping::group_task_descriptions;

fn strings(items: &[&str]) -> Vec<String> {
    items.iter().map(|s| s.to_string()).collect()
}

#[test]
fn groups_example_inputs() {
    let tasks = strings(&["A | one", "A | two", "B | three", "loose item"]);
    let g = group_task_descriptions(&tasks);
    assert_eq!(g.named.len(), 2);
    assert_eq!(g.named[0].name, "A");
    assert_eq!(g.named[0].items, strings(&["one", "two"]));
    assert_eq!(g.named[1].name, "B");
    assert_eq!(g.named[1].items, strings(&["three"]));
    assert_eq!(g.unclassified, strings(&["loose item"]));
}

#[test]
fn groups_trim_name_and_item() {
    let tasks = strings(&["  Group A  |  Dummy task  ", "\t plain \t"]);
    let g = group_task_descriptions(&tasks);
    assert_eq!(g.named.len(), 1);
    assert_eq!(g.named[0].name, "Group A");
    assert_eq!(g.named[0].items, strings(&["Dummy task"]));
    assert_eq!(g.unclassified, strings(&["plain"]));
}

#[test]
fn groups_empty_input() {
    let tasks: Vec<String> = Vec::new();
    let g = group_task_descriptions(&tasks);
    assert!(g.named.is_empty());
    assert!(g.unclassified.is_empty());
}

#[test]
fn groups_sorts_names_and_keeps_item_order() {
    let tasks = strings(&["B | b1", "A | a1", "B | b2", "A | a2", "B | b3"]);
    let g = group_task_descriptions(&tasks);
    assert_eq!(g.named.len(), 2);
    assert_eq!(g.named[0].name, "A");
    assert_eq!(g.named[0].items, strings(&["a1", "a2"]));
    assert_eq!(g.named[1].name, "B");
    assert_eq!(g.named[1].items, strings(&["b1", "b2", "b3"]));
    assert!(g.unclassified.is_empty());
}

#[test]
fn groups_partition_is_complete() {
    let tasks = strings(&["Z | z", "misc one", "A | a", "misc two", "A | b"]);
    let g = group_task_descriptions(&tasks);
    let mut all: Vec<String> = Vec::new();
    for entry in &g.named {
        all.extend(entry.items.iter().cloned());
    }
    all.extend(g.unclassified.iter().cloned());
    let mut expected = strings(&["z", "misc one", "a", "misc two", "b"]);
    all.sort();
    expected.sort();
    assert_eq!(all, expected);
}

#[test]
fn groups_order_non_ascii_name_by_scalar_value() {
    let tasks = strings(&["\u{d6} | umlaut", "Z | zed"]);
    let g = group_task_descriptions(&tasks);
    assert_eq!(g.named[0].name, "Z");
    assert_eq!(g.named[1].name, "\u{d6}");
}

#[test]
fn groups_split_at_first_delimiter_only() {
    let tasks = strings(&["A | one | extra"]);
    let g = group_task_descriptions(&tasks);
    assert_eq!(g.named[0].name, "A");
    assert_eq!(g.named[0].items, strings(&["one | extra"]));
}

#[test]
fn groups_empty_name_and_empty_item() {
    let tasks = strings(&["| only item", "name only |"]);
    let g = group_task_descriptions(&tasks);
    assert_eq!(g.named.len(), 2);
    assert_eq!(g.named[0].name, "");
    assert_eq!(g.named[0].items, strings(&["only item"]));
    assert_eq!(g.named[1].name, "name only");
    assert_eq!(g.named[1].items, strings(&[""]));
}
