use ratatui::layout::{Constraint, Direction, Layout, Rect};
use this_cmd::placeholder::Placeholder;
use this_cmd::screen::{centered_rect, list_row, Area, Entry};
use this_cmd::session::{AppState, Key, Prompt, Session};
use this_cmd::store::Command;

#[test]
fn row_pads_name_and_fills_gap() {
    let c = Command { name: "build".to_string(), command: "cargo b".to_string(), file_path: "/x/a.this".to_string() };
    let row = list_row(&c, "a.this", 50);
    assert_eq!(row.name, format!("{:<16}", "build"));
    // 46 inner cells, 16 + 3 + 7 + 6 used
    assert_eq!(row.gap, " ".repeat(14));
    let row = list_row(&c, "a.this", 3);
    assert_eq!(row.gap, "");
    let long = Command { name: "a-very-long-command-name".to_string(), command: "é".to_string(), file_path: String::new() };
    let row = list_row(&long, "", 40);
    assert_eq!(row.name, "a-very-long-command-name");
    assert_eq!(row.gap, " ".repeat(36 - 24 - 3 - 1));
}

fn prompting(template: &str, placeholders: Vec<Placeholder>, step: usize, text: &str) -> Session {
    Session {
        selected: Some(0),
        state: AppState::Prompting(Prompt {
            command_template: template.to_string(),
            placeholders,
            current_step: step,
            text_input: text.to_string(),
            option_selected: Some(0),
        }),
    }
}

fn ph(name: &str, required: bool, options: Option<&[&str]>) -> Placeholder {
    Placeholder {
        raw: format!("{{{{{}}}}}", name),
        name: name.to_string(),
        required,
        options: options.map(|o| o.iter().map(|s| s.to_string()).collect()),
    }
}

#[test]
fn prompt_for_text() {
    let s = prompting("t", vec![ph("a", true, None), ph("b", false, None)], 1, "ab");
    let screen = s.prompt_screen().unwrap();
    assert_eq!(screen.counter, " [2/2] Variable: ");
    assert_eq!(screen.name, "b");
    assert!(!screen.required);
    assert_eq!(screen.requirement, " (Optional)");
    match screen.entry {
        Entry::Text(t) => assert_eq!(t, "ab_"),
        Entry::Choices(_) => panic!(),
    }
}

#[test]
fn prompt_for_choices() {
    let mut many = Vec::new();
    for i in 0..12 {
        many.push(ph(&format!("p{}", i), true, None));
    }
    many.push(ph("env", false, Some(&["dev", "prod"])));
    let s = prompting("t", many, 12, "");
    let screen = s.prompt_screen().unwrap();
    assert_eq!(screen.counter, " [13/13] Variable: ");
    match screen.entry {
        Entry::Choices(items) => assert_eq!(items, vec!["  (Skip / Empty)", "  dev", "  prod"]),
        Entry::Text(_) => panic!(),
    }
    let s = prompting("t", vec![ph("env", true, Some(&["dev"]))], 0, "");
    let screen = s.prompt_screen().unwrap();
    assert_eq!(screen.requirement, " (Required)");
    match screen.entry {
        Entry::Choices(items) => assert_eq!(items, vec!["  dev"]),
        Entry::Text(_) => panic!(),
    }
}

#[test]
fn no_prompt_while_browsing() {
    assert!(Session::new().prompt_screen().is_none());
    let s = prompting("t", vec![ph("a", true, None)], 1, "");
    assert!(s.prompt_screen().is_none());
    let c = vec![Command { name: "n".to_string(), command: "echo {{x}}".to_string(), file_path: String::new() }];
    let (s, _) = Session::new().step(&c, Key::Enter);
    assert_eq!(s.prompt_screen().unwrap().counter, " [1/1] Variable: ");
}

fn by_ratatui(px: u16, py: u16, r: Rect) -> Rect {
    let rows = Layout::default()
        .direction(Direction::Vertical)
        .constraints([
            Constraint::Percentage((100 - py) / 2),
            Constraint::Percentage(py),
            Constraint::Percentage((100 - py) / 2),
        ])
        .split(r);
    Layout::default()
        .direction(Direction::Horizontal)
        .constraints([
            Constraint::Percentage((100 - px) / 2),
            Constraint::Percentage(px),
            Constraint::Percentage((100 - px) / 2),
        ])
        .split(rows[1])[1]
}

#[test]
fn centered_box() {
    for (w, h) in [(100u16, 40u16), (80, 24), (7, 3), (0, 0)] {
        let r = Rect { x: 2, y: 1, width: w, height: h };
        let c = centered_rect(60, 35, Area { x: 2, y: 1, width: w, height: h });
        let e = by_ratatui(60, 35, r);
        assert_eq!((c.x, c.y, c.width, c.height), (e.x, e.y, e.width, e.height));
    }
    let c = centered_rect(60, 35, Area { x: 0, y: 0, width: 100, height: 40 });
    assert_eq!((c.x, c.width), (20, 60));
    assert_ne!(c, Area { x: 0, y: 0, width: 100, height: 40 });
}

#[test]
fn row_width_is_the_larger_of_list_and_content() {
    let c = Command { name: "n".to_string(), command: "echo hi".to_string(), file_path: String::new() };
    for w in [0u16, 4, 20, 30, 31, 80] {
        let row = list_row(&c, "g.this", w);
        let len = row.name.chars().count() + 3 + 7 + row.gap.chars().count() + 6;
        let needed = 16 + 3 + 7 + 6;
        assert_eq!(len, (w.saturating_sub(4) as usize).max(needed));
    }
}
