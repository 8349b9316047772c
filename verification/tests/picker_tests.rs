use skillscripts::picker::{
    calculate_clicked_index, handle_key_event, highlight_segments, split_match_indices, Area, PickerKey,
    PickerState, SearchProjection,
};
use skillscripts::skill::Skill;

fn rect(x: u16, y: u16, width: u16, height: u16) -> Area {
    Area { x, y, width, height }
}

#[test]
fn test_click_above_header_returns_none() {
    let rect = rect(0, 2, 40, 10);
    assert_eq!(calculate_clicked_index(2, rect, 0, 5), None);
    let rect = Area { x: 0, y: 2, width: 40, height: 10 };
    assert_eq!(calculate_clicked_index(3, rect, 0, 5), None);
}

#[test]
fn test_click_on_visible_row_respects_scroll_offset() {
    assert_eq!(calculate_clicked_index(3, rect(0, 1, 40, 10), 4, 20), Some(4));
    assert_eq!(calculate_clicked_index(4, rect(0, 1, 40, 10), 4, 20), Some(5));
}

#[test]
fn test_click_beyond_item_count_returns_none() {
    assert_eq!(calculate_clicked_index(4, rect(0, 0, 40, 10), 3, 4), None);
}

#[test]
fn clicks_below_the_table_are_ignored() {
    assert_eq!(calculate_clicked_index(11, rect(0, 1, 40, 10), 0, 100), None);
    assert_eq!(calculate_clicked_index(10, rect(0, 1, 40, 10), 0, 100), Some(7));
}

fn sample_skill(name: &str) -> Skill {
    Skill {
        name: name.to_owned(),
        description: format!("{name} description"),
        path: format!("/tmp/{name}.md"),
        tags: Vec::new(),
        command_template: None,
        parameters: None,
        checksum: None,
        tool_name: None,
    }
}

#[test]
fn test_enter_release_does_not_select_current_item() {
    let mut app = PickerState::new(vec![sample_skill("alpha")]);
    app.filter_items();
    let selection = handle_key_event(&mut app, PickerKey::Enter, false);
    assert!(selection.is_none());
    assert_eq!(app.selected_skill().map(|skill| skill.name.as_str()), Some("alpha"));
}

#[test]
fn test_enter_press_selects_current_item() {
    let mut app = PickerState::new(vec![sample_skill("alpha")]);
    app.filter_items();
    let selection = handle_key_event(&mut app, PickerKey::Enter, true);
    assert_eq!(selection.and_then(|skill| skill).map(|skill| skill.name), Some(String::from("alpha")));
}

#[test]
fn navigation_wraps_around() {
    let mut app = PickerState::new(vec![sample_skill("a"), sample_skill("b"), sample_skill("c")]);
    assert_eq!(app.selected, Some(0));
    app.previous();
    assert_eq!(app.selected, Some(2));
    app.next();
    assert_eq!(app.selected, Some(0));
    app.next();
    assert_eq!(app.selected, Some(1));
    app.select_index(7);
    assert_eq!(app.selected, Some(1));
    assert!(handle_key_event(&mut app, PickerKey::Esc, true).expect("answered").is_none());
}

#[test]
fn typing_filters_and_backspace_restores() {
    let mut app = PickerState::new(vec![sample_skill("alpha"), sample_skill("beta")]);
    assert!(handle_key_event(&mut app, PickerKey::Char('b'), true).is_none());
    assert_eq!(app.search_input, "b");
    assert!(app.filtered_items.iter().any(|row| row.item_index == 1));
    handle_key_event(&mut app, PickerKey::Char('q'), true);
    handle_key_event(&mut app, PickerKey::Char('z'), true);
    assert!(app.filtered_items.is_empty());
    assert_eq!(app.selected, None);
    handle_key_event(&mut app, PickerKey::Backspace, true);
    handle_key_event(&mut app, PickerKey::Backspace, true);
    handle_key_event(&mut app, PickerKey::Backspace, true);
    assert_eq!(app.search_input, "");
    assert_eq!(app.filtered_items.len(), 2);
    assert_eq!(app.selected, Some(0));
}

#[test]
fn match_positions_split_by_part() {
    let projection = SearchProjection { haystack: "ab\ncd\nef\n/p".to_string(), name_len: 2, description_len: 2, tags_len: 2 };
    let h = split_match_indices(&vec![0, 1, 2, 3, 4, 6, 7, 9], &projection);
    assert_eq!(h.name, vec![0, 1]);
    assert_eq!(h.description, vec![0, 1]);
    assert_eq!(h.tags, vec![0, 1]);
}

#[test]
fn highlight_pieces() {
    assert_eq!(highlight_segments("abcd", &vec![]), vec![("abcd".to_string(), false)]);
    assert_eq!(
        highlight_segments("abcd", &vec![2, 0, 2, 9]),
        vec![("a".to_string(), true), ("b".to_string(), false), ("c".to_string(), true), ("d".to_string(), false)]
    );
}

#[test]
fn filtered_rows_highlight_the_matched_name_letters() {
    let mut app = PickerState::new(vec![sample_skill("alpha"), sample_skill("beta")]);
    assert!(app.filtered_items.iter().all(|row| row.highlights.name.is_empty()));
    app.search_input = "beta".to_string();
    app.filter_items();
    assert_eq!(app.filtered_items[0].item_index, 1);
    assert_eq!(app.filtered_items[0].highlights.name, vec![0, 1, 2, 3]);
}
