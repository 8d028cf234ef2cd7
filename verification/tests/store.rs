use this_cmd::store::{appended_text, parse_commands, Command};

fn cmd(name: &str, command: &str, path: &str) -> Command {
    Command { name: name.to_string(), command: command.to_string(), file_path: path.to_string() }
}

fn pairs(cs: &[Command]) -> Vec<(String, String, String)> {
    cs.iter().map(|c| (c.name.clone(), c.command.clone(), c.file_path.clone())).collect()
}

#[test]
fn store_string_joins_name_and_command() {
    assert_eq!(cmd("echo test", "echo \"Hello World!\"", "f").to_store_string(), "echo test | echo \"Hello World!\"");
    assert_eq!(cmd("", "", "f").to_store_string(), " | ");
}

#[test]
fn appended_text_adds_missing_line_break() {
    let c = cmd("a", "b", "f");
    assert_eq!(appended_text(None, &c), "a | b\n");
    assert_eq!(appended_text(Some(b'\n'), &c), "a | b\n");
    assert_eq!(appended_text(Some(b'x'), &c), "\na | b\n");
    assert_eq!(appended_text(Some(b'\r'), &c), "\na | b\n");
}

#[test]
fn parses_lines() {
    let text = "echo test | echo \"Hello World!\"\nno separator here\r\nlist | ls -la\r\n\nx|y\nname | a | b";
    let cs = parse_commands(text, "/home/u/global.this");
    assert_eq!(
        pairs(&cs),
        vec![
            ("echo test".to_string(), "echo \"Hello World!\"".to_string(), "/home/u/global.this".to_string()),
            ("list".to_string(), "ls -la".to_string(), "/home/u/global.this".to_string()),
            ("x".to_string(), "y".to_string(), "/home/u/global.this".to_string()),
            ("name".to_string(), "a | b".to_string(), "/home/u/global.this".to_string()),
        ]
    );
}

#[test]
fn bar_without_spaces_separates() {
    let cs = parse_commands("greet|echo hi\n", "a.this");
    assert_eq!(pairs(&cs), vec![("greet".to_string(), "echo hi".to_string(), "a.this".to_string())]);
    let cs = parse_commands("greet  |  echo hi", "a.this");
    assert_eq!(pairs(&cs), vec![("greet ".to_string(), " echo hi".to_string(), "a.this".to_string())]);
}

#[test]
fn empty_text_has_no_commands() {
    assert!(parse_commands("", "p").is_empty());
    assert!(parse_commands("\n\n", "p").is_empty());
}

#[test]
fn lone_carriage_return_stays() {
    let cs = parse_commands("a | b\r", "p");
    assert_eq!(cs[0].command, "b\r");
    let cs = parse_commands("a | b\r\n", "p");
    assert_eq!(cs[0].command, "b");
}

#[test]
fn empty_name_and_command() {
    let cs = parse_commands(" | \n | x", "p");
    assert_eq!(pairs(&cs), vec![
        (String::new(), String::new(), "p".to_string()),
        (String::new(), "x".to_string(), "p".to_string()),
    ]);
}

#[test]
fn agrees_with_lines_and_split_at_bar() {
    for text in ["a | b\nc | d", "a | b |\r\n\r\n|  | x", "\r\n | \r", "x | y\n", " |  | \n", "a|b\n a  |  b \n||\n|"] {
        let expected: Vec<(String, String)> = text
            .lines()
            .filter_map(|line| {
                line.split_once('|').map(|(name, command)| {
                    let name = name.strip_suffix(' ').unwrap_or(name);
                    let command = command.strip_prefix(' ').unwrap_or(command);
                    (name.to_string(), command.to_string())
                })
            })
            .collect();
        let got: Vec<(String, String)> =
            parse_commands(text, "p").iter().map(|c| (c.name.clone(), c.command.clone())).collect();
        assert_eq!(got, expected, "text {:?}", text);
    }
}

#[test]
fn added_command_reads_back() {
    let c = cmd("deploy ", "  make deploy ENV={{env:dev,prod}} || true", "g.this");
    for existing in ["", "a | b\n", "a | b", "no separator", "x|y"] {
        let last = existing.as_bytes().last().copied();
        let mut text = existing.to_string();
        text.push_str(&appended_text(last, &c));
        let before = parse_commands(existing, "g.this");
        let after = parse_commands(&text, "g.this");
        assert_eq!(after.len(), before.len() + 1);
        assert_eq!(pairs(&after[..before.len()]), pairs(&before));
        assert_eq!(pairs(&after[before.len()..]), pairs(&[c.clone()]));
    }
}
