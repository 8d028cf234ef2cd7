use regex::Regex;
use this_cmd::placeholder::{extract_placeholders, Placeholder};

/// The regular expression of the template grammar.
fn grammar() -> Regex {
    let pattern = r"\{\{\s*(?P<name>[a-zA-Z0-9_-]+)(?P<opt>\?)?(?::(?P<choices>[^}]+))?\s*\}\}";
    Regex::new(pattern).unwrap()
}

/// The placeholders of `template` as the regular expression of the template
/// grammar finds them.
fn by_regex_with(re: &Regex, template: &str) -> Vec<Placeholder> {
    let mut placeholders = Vec::new();
    for caps in re.captures_iter(template) {
        let raw = caps[0].to_string();
        let name = caps.name("name").unwrap().as_str().to_string();
        let required = caps.name("opt").is_none();
        let options = caps.name("choices").map(|c| {
            c.as_str()
                .split(',')
                .map(|s| s.trim().to_string())
                .filter(|s| !s.is_empty())
                .collect::<Vec<String>>()
        });
        placeholders.push(Placeholder { raw, name, required, options });
    }
    placeholders
}

fn by_regex(template: &str) -> Vec<Placeholder> {
    by_regex_with(&grammar(), template)
}

fn opts(v: &[&str]) -> Option<Vec<String>> {
    Some(v.iter().map(|s| s.to_string()).collect())
}

#[test]
fn plain_required_placeholder() {
    let ps = extract_placeholders("echo {{foo}}");
    assert_eq!(ps.len(), 1);
    assert_eq!(ps[0].raw, "{{foo}}");
    assert_eq!(ps[0].name, "foo");
    assert!(ps[0].required);
    assert_eq!(ps[0].options, None);
}

#[test]
fn optional_placeholder() {
    let ps = extract_placeholders("ls {{my_var?}}");
    assert_eq!(ps.len(), 1);
    assert_eq!(ps[0].name, "my_var");
    assert!(!ps[0].required);
    assert_eq!(ps[0].options, None);
}

#[test]
fn list_placeholders() {
    let ps = extract_placeholders("x {{foo:a,b,c}} {{bar?:a,b,c}}");
    assert_eq!(ps.len(), 2);
    assert_eq!(ps[0].raw, "{{foo:a,b,c}}");
    assert!(ps[0].required);
    assert_eq!(ps[0].options, opts(&["a", "b", "c"]));
    assert_eq!(ps[1].raw, "{{bar?:a,b,c}}");
    assert_eq!(ps[1].name, "bar");
    assert!(!ps[1].required);
    assert_eq!(ps[1].options, opts(&["a", "b", "c"]));
}

#[test]
fn redeclared_variable_is_asked_again() {
    let ps = extract_placeholders("echo \"{{text:a,b}}\" && echo \"{{text?}}\"");
    assert_eq!(ps.len(), 2);
    assert_eq!(ps[0].name, "text");
    assert_eq!(ps[1].name, "text");
    assert!(ps[0].required);
    assert!(!ps[1].required);
    assert_eq!(ps[1].options, None);
}

#[test]
fn no_placeholders() {
    assert!(extract_placeholders("echo \"Hello World!\"").is_empty());
    assert!(extract_placeholders("").is_empty());
    assert!(extract_placeholders("{{}} {{ }} {{a b}} {a} {{a}").is_empty());
}

#[test]
fn spaces_and_trimming() {
    let ps = extract_placeholders("{{  name  }}{{x: one , ,two ,}}{{y :z}}");
    assert_eq!(ps.len(), 2);
    assert_eq!(ps[0].name, "name");
    assert_eq!(ps[0].raw, "{{  name  }}");
    assert_eq!(ps[1].options, opts(&["one", "two"]));
}

#[test]
fn empty_choice_list() {
    let ps = extract_placeholders("{{x:,}}");
    assert_eq!(ps.len(), 1);
    assert_eq!(ps[0].options, Some(vec![]));
    assert!(extract_placeholders("{{x:}}").is_empty());
}

#[test]
fn leftmost_match_after_failed_start() {
    let ps = extract_placeholders("{{{a}}}");
    assert_eq!(ps.len(), 1);
    assert_eq!(ps[0].raw, "{{a}}");
}

#[test]
fn choices_span_lines_and_braces() {
    let ps = extract_placeholders("{{x:a}b}}");
    assert_eq!(ps.len(), 0);
    let ps = extract_placeholders("{{x:a\n{b}}");
    assert_eq!(ps.len(), 1);
    assert_eq!(ps[0].options, opts(&["a\n{b"]));
}

#[test]
fn unicode_white_space() {
    let ps = extract_placeholders("{{\u{3000}n\u{a0}}} {{m: \u{2003}x\u{85}}}");
    assert_eq!(ps.len(), 2);
    assert_eq!(ps[0].name, "n");
    assert_eq!(ps[1].options, opts(&["x"]));
}

#[test]
fn agrees_with_regex_on_generated_templates() {
    let alphabet: Vec<char> = vec![
        '{', '{', '}', '}', 'a', 'b', 'Z', '9', '_', '-', '?', ':', ',', ' ', '\t', '\n', '\u{a0}',
        'é', '|', '{', '}',
    ];
    let re = grammar();
    let mut state: u64 = 0x2545_f491_4f6c_dd1d;
    for _ in 0..3000 {
        state = state.wrapping_mul(6364136223846793005).wrapping_add(1442695040888963407);
        let len = ((state >> 33) % 24) as usize;
        let mut t = String::new();
        for _ in 0..len {
            state = state.wrapping_mul(6364136223846793005).wrapping_add(1442695040888963407);
            t.push(alphabet[((state >> 33) % alphabet.len() as u64) as usize]);
        }
        let ps = extract_placeholders(&t);
        assert_eq!(ps, by_regex_with(&re, &t), "template {:?}", t);
        let mut from = 0;
        for p in &ps {
            let at = from + t[from..].find(&p.raw).expect("placeholders in order");
            from = at + p.raw.len();
            assert!(p.raw.starts_with("{{") && p.raw.ends_with("}}") && p.raw.chars().count() >= 5);
            assert!(!p.name.is_empty());
            for o in p.options.iter().flatten() {
                assert!(!o.is_empty() && !o.contains(',') && !o.contains('}') && o.trim() == o);
            }
        }
    }
}

#[test]
fn agrees_with_regex_on_examples() {
    for t in [
        "echo test | echo \"Hello World!\"",
        "docker run {{image:nginx, redis ,}} -p {{port?}}",
        "{{ a ?}} {{a? }} {{a ?:x}} {{a?: x }}",
        "{{a:b}c}}",
        "{{-_-}}{{{{b}}}}",
    ] {
        assert_eq!(extract_placeholders(t), by_regex(t), "template {:?}", t);
    }
}

#[test]
fn surroundings_change_nothing() {
    for core in ["{{a}}", "x {{b?:1, 2}} y", "}} {{c}}{", "{{"] {
        let framed = format!("say}} {}{{ :done", core);
        assert_eq!(extract_placeholders(&framed), extract_placeholders(core), "{:?}", framed);
    }
}

#[test]
fn parts_follow_from_the_text() {
    assert!(extract_placeholders("{{ env ?: dev }}{{n :a}}").is_empty());
    let ps = extract_placeholders("{{m}}{{ n:a}}");
    assert_eq!(ps.len(), 2);
    assert!(ps[0].required && ps[0].options.is_none());
    assert!(ps[1].required);
    assert_eq!(ps[1].options, opts(&["a"]));
    let ps = extract_placeholders("{{env?: dev ,, prod:x }}");
    assert_eq!(ps.len(), 1);
    assert_eq!(ps[0].name, "env");
    assert!(!ps[0].required);
    assert_eq!(ps[0].options, opts(&["dev", "prod:x"]));
}
