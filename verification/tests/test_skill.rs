use lever_runner_carapace::skill::{ParamValues, RenderError, SkillPack, SkillParseError};

#[test]
fn test_parse_simple() {
    let pack = SkillPack::parse("greet: Hello {{name}}, welcome!").unwrap();
    assert_eq!(pack.skills.len(), 1);
    assert_eq!(pack.skills[0].intent, "greet");
    assert_eq!(pack.skills[0].params.len(), 1);
    assert_eq!(pack.skills[0].params[0].name, "name");
    assert!(pack.skills[0].params[0].required);
}

#[test]
fn test_parse_optional() {
    let pack = SkillPack::parse("greet: Hello {{name}} with {{title?}}").unwrap();
    assert_eq!(pack.skills[0].params.len(), 2);
    assert!(pack.skills[0].params[0].required);
    assert!(!pack.skills[0].params[1].required);
}

#[test]
fn test_parse_optional_with_default() {
    let pack = SkillPack::parse("greet: Hello {{name}} ({{title?friend}})").unwrap();
    assert_eq!(pack.skills[0].params[1].default, Some("friend".to_string()));
}

#[test]
fn test_parse_front_matter() {
    let input = "---\nname: test-pack\nversion: \"2.0\"\n---\ngreet: Hi {{name}}";
    let pack = SkillPack::parse(input).unwrap();
    assert_eq!(pack.name, "test-pack");
    assert_eq!(pack.version, "2.0");
}

#[test]
fn test_render() {
    let pack = SkillPack::parse("greet: Hello {{name}}!").unwrap();
    let mut values = ParamValues::new();
    values.insert("name", "World");
    let result = pack.render(0, &values).unwrap();
    assert_eq!(result, "Hello World!");
}

#[test]
fn test_render_missing_required() {
    let pack = SkillPack::parse("greet: Hello {{name}}!").unwrap();
    let values = ParamValues::new();
    let result = pack.render(0, &values);
    assert!(matches!(result, Err(RenderError::MissingRequired(_))));
}

#[test]
fn parse_defaults_without_front_matter() {
    let pack = SkillPack::parse("a: x").unwrap();
    assert_eq!(pack.name, "unnamed");
    assert_eq!(pack.version, "0.1.0");
    assert_eq!(pack.skills[0].raw_template, "x");
    assert!(pack.skills[0].params.is_empty());
}

#[test]
fn parse_empty_input() {
    let pack = SkillPack::parse("").unwrap();
    assert_eq!(pack.name, "unnamed");
    assert!(pack.skills.is_empty());
}

#[test]
fn parse_skips_blank_comment_and_colonless_lines() {
    let input = "\n  # note: ignored\nno colon here\n  greet :  Hi {{who}}  \r\n\n";
    let pack = SkillPack::parse(input).unwrap();
    assert_eq!(pack.skills.len(), 1);
    assert_eq!(pack.skills[0].intent, "greet");
    assert_eq!(pack.skills[0].raw_template, "Hi {{who}}");
}

#[test]
fn parse_front_matter_without_closing_line() {
    let pack = SkillPack::parse("---\nname: 'x'\ngreet: Hi {{name}}").unwrap();
    assert_eq!(pack.name, "'x'");
    assert!(pack.skills.is_empty());
}

#[test]
fn parse_front_matter_strips_quotes_and_ignores_other_keys() {
    let pack = SkillPack::parse("  ---  \nname: \"\"pack\"\nauthor: me\n---\nx: {{a}}").unwrap();
    assert_eq!(pack.name, "pack");
    assert_eq!(pack.version, "0.1.0");
    assert_eq!(pack.skills.len(), 1);
}

#[test]
fn parse_splits_at_first_colon() {
    let pack = SkillPack::parse("call: dial {{number}}: now").unwrap();
    assert_eq!(pack.skills[0].intent, "call");
    assert_eq!(pack.skills[0].raw_template, "dial {{number}}: now");
}

#[test]
fn parse_dedups_repeated_params() {
    let pack = SkillPack::parse("echo: {{a}} {{a?}} {{b}} {{a}}").unwrap();
    let names: Vec<&str> = pack.skills[0].params.iter().map(|p| p.name.as_str()).collect();
    assert_eq!(names, vec!["a", "b"]);
    assert!(pack.skills[0].params[0].required);
}

#[test]
fn parse_trims_param_parts() {
    let pack = SkillPack::parse("s: {{  who ?  my friend  }}").unwrap();
    let p = &pack.skills[0].params[0];
    assert_eq!(p.name, "who");
    assert!(!p.required);
    assert_eq!(p.default, Some("my friend".to_string()));
}

#[test]
fn parse_lone_braces_are_dropped() {
    let pack = SkillPack::parse("s: {x} {{a{b}c}}").unwrap();
    assert_eq!(pack.skills[0].params[0].name, "abc");
}

#[test]
fn parse_empty_param_is_an_error() {
    let err = SkillPack::parse("ok: fine\nbad: {{  }}").unwrap_err();
    match &err {
        SkillParseError::InvalidParam(m) => assert_eq!(m, "empty param name"),
    }
    assert_eq!(err.message(), "invalid parameter: empty param name");
}

#[test]
fn parse_unopened_close_is_an_error() {
    assert!(SkillPack::parse("bad: stray }}").is_err());
}

#[test]
fn render_invalid_index() {
    let pack = SkillPack::parse("greet: Hello").unwrap();
    let values = ParamValues::new();
    let err = pack.render(1, &values).unwrap_err();
    assert!(matches!(err, RenderError::InvalidIndex));
    assert_eq!(err.message(), "invalid skill index");
}

#[test]
fn render_missing_required_names_the_first() {
    let pack = SkillPack::parse("s: {{a}} {{b}} {{c}}").unwrap();
    let mut values = ParamValues::new();
    values.insert("a", "1");
    let err = pack.render(0, &values).unwrap_err();
    match &err {
        RenderError::MissingRequired(n) => assert_eq!(n, "b"),
        _ => panic!("wrong error"),
    }
    assert_eq!(err.message(), "missing required parameter: b");
}

#[test]
fn render_uses_defaults_and_empty_for_optional() {
    let pack = SkillPack::parse("s: [{{x?}}] [{{y?dflt}}] [{{z}}]").unwrap();
    let mut values = ParamValues::new();
    values.insert("z", "zed");
    assert_eq!(pack.render(0, &values).unwrap(), "[] [dflt] [zed]");
    values.insert("y", "why");
    values.insert("x", "ex");
    assert_eq!(pack.render(0, &values).unwrap(), "[ex] [why] [zed]");
}

#[test]
fn render_replaces_every_occurrence() {
    let pack = SkillPack::parse("s: {{a}}-{{a}}-{{a?}}").unwrap();
    let mut values = ParamValues::new();
    values.insert("a", "v");
    assert_eq!(pack.render(0, &values).unwrap(), "v-v-v");
}

#[test]
fn param_values_insert_overwrites() {
    let mut values = ParamValues::new();
    assert!(!values.contains_key("k"));
    values.insert("k", "1");
    values.insert("k", "2");
    assert!(values.contains_key("k"));
    assert_eq!(values.get("k").map(|s| s.as_str()), Some("2"));
    assert_eq!(values.get("other"), None);
}

#[test]
fn front_matter_last_key_wins() {
    let pack = SkillPack::parse("---\nname: a\nversion: 1\nname: b\n---\nx: y").unwrap();
    assert_eq!(pack.name, "b");
    assert_eq!(pack.version, "1");
}

#[test]
fn blank_placeholder_fails_only_on_skill_lines() {
    assert!(SkillPack::parse("# greet: Hello {{}}").unwrap().skills.is_empty());
    assert!(SkillPack::parse("greet Hello {{}}").unwrap().skills.is_empty());
    let err = SkillPack::parse("greet: Hello {{}}").unwrap_err();
    assert_eq!(err.message(), "invalid parameter: empty param name");
}

#[test]
fn first_form_of_a_placeholder_is_kept() {
    let pack = SkillPack::parse("s: {{b}} {{a?x}} {{a}} {{b?y}} {{c?}}").unwrap();
    let ps = &pack.skills[0].params;
    assert_eq!(ps.len(), 3);
    assert_eq!((ps[0].name.as_str(), ps[0].required), ("b", true));
    assert_eq!((ps[1].name.as_str(), ps[1].required), ("a", false));
    assert_eq!(ps[1].default, Some("x".to_string()));
    assert_eq!((ps[2].name.as_str(), ps[2].default.clone()), ("c", None));
}

#[test]
fn one_skill_per_declaring_line() {
    let pack = SkillPack::parse("a: 1\n\n# b: 2\nc 3\nd: 4").unwrap();
    let intents: Vec<&str> = pack.skills.iter().map(|s| s.intent.as_str()).collect();
    assert_eq!(intents, vec!["a", "d"]);
}
