use this_cmd::session::{AppState, Key, Outcome, Session};
use this_cmd::store::Command;

fn cmds(list: &[&str]) -> Vec<Command> {
    list.iter()
        .enumerate()
        .map(|(i, c)| Command { name: format!("c{}", i), command: c.to_string(), file_path: "f".to_string() })
        .collect()
}

fn press(s: Session, commands: &[Command], key: Key) -> (Session, Outcome) {
    assert!(s.accepts(commands, key));
    s.step(commands, key)
}

fn press_all(mut s: Session, commands: &[Command], keys: &[Key]) -> (Session, Outcome) {
    let mut last = Outcome::Pending;
    for k in keys {
        let (n, o) = press(s, commands, *k);
        s = n;
        last = o;
    }
    (s, last)
}

fn prompt_text(s: &Session) -> String {
    match &s.state {
        AppState::Prompting(p) => p.text_input.clone(),
        AppState::Browsing => panic!("not prompting"),
    }
}

#[test]
fn starts_on_first_command() {
    let s = Session::new();
    assert_eq!(s.selected, Some(0));
    assert!(matches!(s.state, AppState::Browsing));
}

#[test]
fn list_navigation_wraps() {
    let c = cmds(&["a", "b", "c"]);
    let (s, o) = press(Session::new(), &c, Key::Down);
    assert_eq!(s.selected, Some(1));
    assert_eq!(o, Outcome::Pending);
    let (s, _) = press_all(s, &c, &[Key::Char('j'), Key::Down]);
    assert_eq!(s.selected, Some(0));
    let (s, _) = press(s, &c, Key::Up);
    assert_eq!(s.selected, Some(2));
    let (s, _) = press(s, &c, Key::Char('k'));
    assert_eq!(s.selected, Some(1));
}

#[test]
fn down_then_up_returns() {
    let c = cmds(&["a", "b", "c", "d"]);
    for i in 0..4 {
        let s = Session { selected: Some(i), state: AppState::Browsing };
        let (s, _) = press_all(s, &c, &[Key::Down, Key::Up]);
        assert_eq!(s.selected, Some(i));
        let (s, _) = press_all(s, &c, &[Key::Char('k'), Key::Char('j')]);
        assert_eq!(s.selected, Some(i));
    }
}

#[test]
fn no_selection_moves_to_first() {
    let c = cmds(&["a", "b"]);
    let (s, _) = press(Session { selected: None, state: AppState::Browsing }, &c, Key::Up);
    assert_eq!(s.selected, Some(0));
    let (s, o) = press(Session { selected: None, state: AppState::Browsing }, &c, Key::Enter);
    assert_eq!(s.selected, None);
    assert_eq!(o, Outcome::Pending);
}

#[test]
fn quit_keys() {
    let c = cmds(&["a"]);
    assert_eq!(press(Session::new(), &c, Key::Char('q')).1, Outcome::Done(None));
    assert_eq!(press(Session::new(), &c, Key::Esc).1, Outcome::Done(None));
    assert_eq!(press(Session::new(), &c, Key::Other).1, Outcome::Pending);
    assert_eq!(press(Session::new(), &c, Key::Backspace).1, Outcome::Pending);
}

#[test]
fn command_without_placeholders_runs_at_once() {
    let c = cmds(&["echo \"Hello World!\"", "b"]);
    let (_, o) = press(Session::new(), &c, Key::Enter);
    assert_eq!(o, Outcome::Done(Some("echo \"Hello World!\"".to_string())));
}

#[test]
fn text_placeholders_are_filled_in_order() {
    let c = cmds(&["echo {{a}} {{b?}} {{a}}"]);
    let (s, o) = press(Session::new(), &c, Key::Enter);
    assert_eq!(o, Outcome::Pending);
    let (s, o) = press_all(s, &c, &[Key::Char(' '), Key::Char('x'), Key::Char('y'), Key::Backspace, Key::Char('j'), Key::Char(' ')]);
    assert_eq!(o, Outcome::Pending);
    assert_eq!(prompt_text(&s), " xj ");
    let (s, o) = press(s, &c, Key::Enter);
    assert_eq!(o, Outcome::Pending);
    match &s.state {
        AppState::Prompting(p) => {
            assert_eq!(p.command_template, "echo xj {{b?}} xj");
            assert_eq!(p.current_step, 1);
            assert_eq!(p.text_input, "");
        }
        AppState::Browsing => panic!(),
    }
    let (s, o) = press(s, &c, Key::Enter);
    assert_eq!(o, Outcome::Pending);
    let (_, o) = press_all(s, &c, &[Key::Char('z'), Key::Enter]);
    assert_eq!(o, Outcome::Done(Some("echo xj  xj".to_string())));
}

#[test]
fn required_text_needs_a_value() {
    let c = cmds(&["echo {{a}}"]);
    let (s, _) = press(Session::new(), &c, Key::Enter);
    let (s, o) = press_all(s, &c, &[Key::Char(' '), Key::Enter]);
    assert_eq!(o, Outcome::Pending);
    assert_eq!(prompt_text(&s), " ");
    let (s, _) = press_all(s, &c, &[Key::Backspace, Key::Backspace, Key::Backspace]);
    assert_eq!(prompt_text(&s), "");
}

#[test]
fn choices_are_picked_from_the_list() {
    let c = cmds(&["run {{env:dev,prod}} {{flag?:-v,-q}}"]);
    let (s, _) = press(Session::new(), &c, Key::Enter);
    let (s, o) = press_all(s, &c, &[Key::Down, Key::Enter]);
    assert_eq!(o, Outcome::Pending);
    match &s.state {
        AppState::Prompting(p) => {
            assert_eq!(p.command_template, "run prod {{flag?:-v,-q}}");
            assert_eq!(p.option_selected, Some(0));
        }
        AppState::Browsing => panic!(),
    }
    let (_, o) = press_all(s, &c, &[Key::Char('x'), Key::Enter]);
    assert_eq!(o, Outcome::Done(Some("run prod ".to_string())));
}

#[test]
fn optional_choice_list_has_skip_entry() {
    let c = cmds(&["run {{flag?:-v,-q}}"]);
    let (s, _) = press(Session::new(), &c, Key::Enter);
    let (_, o) = press_all(s, &c, &[Key::Up, Key::Enter]);
    assert_eq!(o, Outcome::Done(Some("run -q".to_string())));
    let (s, _) = press(Session::new(), &c, Key::Enter);
    let (_, o) = press_all(s, &c, &[Key::Char('j'), Key::Enter]);
    assert_eq!(o, Outcome::Done(Some("run -v".to_string())));
    let (s, _) = press(Session::new(), &c, Key::Enter);
    let (_, o) = press_all(s, &c, &[Key::Down, Key::Down, Key::Down, Key::Enter]);
    assert_eq!(o, Outcome::Done(Some("run ".to_string())));
}

#[test]
fn escape_abandons_the_prompt() {
    let c = cmds(&["a", "echo {{x:1,2}}"]);
    let (s, _) = press_all(Session::new(), &c, &[Key::Down, Key::Enter, Key::Down]);
    let (s, o) = press(s, &c, Key::Esc);
    assert_eq!(o, Outcome::Pending);
    assert_eq!(s.selected, Some(1));
    assert!(matches!(s.state, AppState::Browsing));
}

#[test]
fn refuses_out_of_range_keys() {
    let c = cmds(&["a"]);
    assert!(!Session { selected: Some(3), state: AppState::Browsing }.accepts(&c, Key::Enter));
    assert!(Session { selected: Some(3), state: AppState::Browsing }.accepts(&c, Key::Down));
    let c = cmds(&["x {{v:,}}"]);
    let (s, _) = press(Session::new(), &c, Key::Enter);
    assert!(!s.accepts(&c, Key::Down));
    assert!(!s.accepts(&c, Key::Enter));
    assert!(s.accepts(&c, Key::Esc));
    let s = match s.state {
        AppState::Prompting(mut p) => {
            p.option_selected = None;
            Session { selected: Some(0), state: AppState::Prompting(p) }
        }
        AppState::Browsing => panic!(),
    };
    let (_, o) = press(s, &c, Key::Enter);
    assert_eq!(o, Outcome::Done(Some("x ".to_string())));
}

#[test]
fn choices_down_then_up_returns() {
    let c = cmds(&["x {{v?:a,b,c}}"]);
    for i in 0..4 {
        let (s, _) = press(Session::new(), &c, Key::Enter);
        let s = match s.state {
            AppState::Prompting(mut p) => {
                p.option_selected = Some(i);
                Session { selected: Some(0), state: AppState::Prompting(p) }
            }
            AppState::Browsing => panic!(),
        };
        let (s, _) = press_all(s, &c, &[Key::Down, Key::Up, Key::Char('k'), Key::Char('j')]);
        match &s.state {
            AppState::Prompting(p) => assert_eq!(p.option_selected, Some(i)),
            AppState::Browsing => panic!(),
        }
    }
}

#[test]
fn typing_then_erasing_restores_text() {
    let c = cmds(&["x {{v}}"]);
    let (s, _) = press_all(Session::new(), &c, &[Key::Enter, Key::Char('a')]);
    let (s, _) = press_all(s, &c, &[Key::Char('é'), Key::Backspace]);
    assert_eq!(prompt_text(&s), "a");
}

#[test]
fn list_takes_every_key() {
    let c = cmds(&["a", "b"]);
    for sel in [None, Some(0), Some(1)] {
        for k in [Key::Up, Key::Down, Key::Enter, Key::Esc, Key::Backspace, Key::Other, Key::Char('q'), Key::Char('j')] {
            assert!(Session { selected: sel, state: AppState::Browsing }.accepts(&c, k));
        }
    }
}

#[test]
fn prompt_takes_every_key_on_answerable_lists() {
    let c = cmds(&["x {{a:1,2}} {{b?:}} {{b?:,}} {{t}}"]);
    let keys = [Key::Up, Key::Down, Key::Enter, Key::Backspace, Key::Other, Key::Char('q'), Key::Char('j'), Key::Char('k')];
    let mut s = press(Session::new(), &c, Key::Enter).0;
    for round in 0..12 {
        for k in keys {
            let probe = Session { selected: s.selected, state: match &s.state {
                AppState::Prompting(p) => AppState::Prompting(this_cmd::session::Prompt {
                    command_template: p.command_template.clone(),
                    placeholders: p.placeholders.clone(),
                    current_step: p.current_step,
                    text_input: p.text_input.clone(),
                    option_selected: p.option_selected,
                }),
                AppState::Browsing => AppState::Browsing,
            } };
            assert!(probe.accepts(&c, k), "round {} key {:?}", round, k);
        }
        let (next, o) = press(s, &c, if round % 3 == 2 { Key::Enter } else { Key::Down });
        if o != Outcome::Pending {
            break;
        }
        s = next;
    }
}

#[test]
fn run_result_is_the_filled_command() {
    let c = cmds(&["ls", "cp {{src}} {{dst?:/tmp, ~}} {{src}}"]);
    let (_, o) = press_all(Session::new(), &c, &[Key::Down, Key::Enter, Key::Char(' '), Key::Char('f'), Key::Enter, Key::Down, Key::Down, Key::Enter, Key::Char('g'), Key::Enter]);
    let expected = "cp {{src}} {{dst?:/tmp, ~}} {{src}}".replace("{{src}}", "f").replace("{{dst?:/tmp, ~}}", "~");
    assert_eq!(o, Outcome::Done(Some(expected)));
}
