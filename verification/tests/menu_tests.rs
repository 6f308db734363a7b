use kiho_puncher::grouping::group_task_descriptions;
use kiho_puncher::menu::{build_sub_level, build_top_level, MenuEntry, MenuError};

fn strings(items: &[&str]) -> Vec<String> {
    items.iter().map(|s| s.to_string()).collect()
}

#[test]
fn top_level_of_example_inputs() {
    let tasks = strings(&["A | one", "A | two", "B | three", "loose item"]);
    let g = group_task_descriptions(&tasks);
    let m = build_top_level(&g).unwrap();
    assert_eq!(m.items.len(), 3);
    assert_eq!(m.items[0].key, "A");
    assert_eq!(m.items[0].entry, MenuEntry::Group { name: "A".to_string() });
    assert_eq!(m.items[1].key, "B");
    assert_eq!(m.items[1].entry, MenuEntry::Group { name: "B".to_string() });
    assert_eq!(m.items[2].key, "1");
    assert_eq!(
        m.items[2].entry,
        MenuEntry::Leaf { group: None, desc: "loose item".to_string() },
    );
}

#[test]
fn top_level_numbers_unclassified_from_one() {
    let tasks = strings(&["first", "G | grouped", "second", "third"]);
    let g = group_task_descriptions(&tasks);
    let m = build_top_level(&g).unwrap();
    assert_eq!(m.items.len(), 4);
    // the single group gets the first letter, whatever its name
    assert_eq!(m.items[0].key, "A");
    assert_eq!(m.items[0].entry, MenuEntry::Group { name: "G".to_string() });
    assert_eq!(m.items[1].key, "1");
    assert_eq!(m.items[2].key, "2");
    assert_eq!(m.items[3].key, "3");
    assert_eq!(
        m.items[1].entry,
        MenuEntry::Leaf { group: None, desc: "first".to_string() },
    );
}

#[test]
fn top_level_with_twenty_six_groups_uses_all_letters() {
    let mut tasks: Vec<String> = Vec::new();
    for i in 0..26u8 {
        tasks.push(format!("{}{} | item", (b'A' + i) as char, (b'A' + i) as char));
    }
    let g = group_task_descriptions(&tasks);
    let m = build_top_level(&g).unwrap();
    assert_eq!(m.items.len(), 26);
    assert_eq!(m.items[0].key, "A");
    assert_eq!(m.items[25].key, "Z");
}

#[test]
fn top_level_with_twenty_seven_groups_is_fatal() {
    let mut tasks: Vec<String> = Vec::new();
    for i in 0..27u8 {
        tasks.push(format!("G{:02} | item", i));
    }
    let g = group_task_descriptions(&tasks);
    assert_eq!(build_top_level(&g).unwrap_err(), MenuError::TooManyGroups);
}

#[test]
fn sub_level_numbers_items_in_original_order() {
    let name = "Group A".to_string();
    let items = strings(&["first task", "second task", "third task"]);
    let m = build_sub_level(&name, &items);
    assert_eq!(m.items.len(), 3);
    for (j, item) in m.items.iter().enumerate() {
        assert_eq!(item.key, (j + 1).to_string());
        assert_eq!(
            item.entry,
            MenuEntry::Leaf { group: Some("Group A".to_string()), desc: items[j].clone() },
        );
    }
}

#[test]
fn sub_level_rebuild_is_identical() {
    let name = "G".to_string();
    let items = strings(&["one", "two"]);
    let first = build_sub_level(&name, &items);
    let second = build_sub_level(&name, &items);
    assert_eq!(first, second);
}

#[test]
fn top_level_rebuild_is_identical() {
    let tasks = strings(&["A | one", "loose"]);
    let g = group_task_descriptions(&tasks);
    let first = build_top_level(&g).unwrap();
    let second = build_top_level(&g).unwrap();
    assert_eq!(first, second);
}

#[test]
fn unclassified_items_come_last_whatever_the_names() {
    // a group whose name sorts after any sentinel text still precedes the
    // unclassified leaves
    let tasks = strings(&["\u{ff}\u{ff} | high codepoint", "loose"]);
    let g = group_task_descriptions(&tasks);
    let m = build_top_level(&g).unwrap();
    assert_eq!(m.items.len(), 2);
    assert_eq!(m.items[0].key, "A");
    assert_eq!(
        m.items[0].entry,
        MenuEntry::Group { name: "\u{ff}\u{ff}".to_string() },
    );
    assert_eq!(m.items[1].key, "1");
    assert_eq!(
        m.items[1].entry,
        MenuEntry::Leaf { group: None, desc: "loose".to_string() },
    );
}

#[test]
fn top_level_keys_are_unique_with_many_numbers() {
    let mut tasks: Vec<String> = Vec::new();
    for i in 0..12 {
        tasks.push(format!("loose {}", i));
    }
    let g = group_task_descriptions(&tasks);
    let m = build_top_level(&g).unwrap();
    let mut keys: Vec<String> = m.items.iter().map(|it| it.key.clone()).collect();
    assert_eq!(keys[9], "10");
    keys.sort();
    keys.dedup();
    assert_eq!(keys.len(), 12);
}
