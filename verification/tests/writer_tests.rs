use ninja_syntax::escape;
use ninja_syntax::escape_path;
use ninja_syntax::expand;
use ninja_syntax::NinjaError;
use ninja_syntax::RuleDescriptor;
use ninja_syntax::VariableValue;
use ninja_syntax::Writer;

#[test]
fn escape_path_spaces_and_colons() {
    assert_eq!(escape_path(&"foo bar".to_string()), "foo$ bar");
    assert_eq!(escape_path(&"foo:bar".to_string()), "foo$:bar");
}

#[test]
fn escape_path_protects_escaped_space() {
    assert_eq!(escape_path(&"foo$ bar".to_string()), "foo$$$ bar");
    assert_eq!(escape_path(&"a b:c".to_string()), "a$ b$:c");
    assert_eq!(escape_path(&"plain".to_string()), "plain");
}

#[test]
fn escape_path_reapplication_keeps_escapes() {
    let once = escape_path(&"foo bar:baz".to_string());
    let twice = escape_path(&once);
    assert!(twice.matches('$').count() >= once.matches('$').count());
    assert!(twice.len() >= once.len());
}

#[test]
fn escape_doubles_dollars() {
    assert_eq!(escape("$".to_string()), Ok("$$".to_string()));
    assert_eq!(escape("a$b$".to_string()), Ok("a$$b$$".to_string()));
    assert_eq!(escape("plain".to_string()), Ok("plain".to_string()));
}

#[test]
fn escape_rejects_newline() {
    assert_eq!(escape("a\nb".to_string()), Err(NinjaError::EmbeddedNewline));
}

#[test]
fn escape_round_trips() {
    let s = "cost: $5 $$ and $more";
    let doubled = escape(s.to_string()).unwrap();
    assert_eq!(doubled.replace("$$", "$"), s);
}

#[test]
fn expand_substitutes_variables() {
    let vars = vec![("foo".to_string(), "bar".to_string())];
    assert_eq!(expand(&"$foo".to_string(), &vars, &vec![]), "bar");
    assert_eq!(expand(&"$$".to_string(), &vec![], &vec![]), "$");
}

#[test]
fn expand_prefers_local_bindings() {
    let vars = vec![("x".to_string(), "outer".to_string())];
    let locals = vec![("x".to_string(), "inner".to_string())];
    assert_eq!(expand(&"a $x b".to_string(), &vars, &locals), "a inner b");
}

#[test]
fn expand_unknown_and_degenerate_references() {
    assert_eq!(expand(&"$missing".to_string(), &vec![], &vec![]), "");
    assert_eq!(expand(&"a$ b".to_string(), &vec![], &vec![]), "a b");
    assert_eq!(expand(&"tail$".to_string(), &vec![], &vec![]), "tail");
    let vars = vec![("x_1y".to_string(), "v".to_string())];
    assert_eq!(expand(&"$x_1y.".to_string(), &vars, &vec![]), "v.");
}

#[test]
fn variable_list_drops_empty_fragments() {
    let mut w = Writer::new(78);
    w.variable(
        "cflags".to_string(),
        Some(VariableValue::ListStr(vec![
            "-O2".to_string(),
            "".to_string(),
            "-Wall".to_string(),
        ])),
        Some(1),
    );
    assert_eq!(w.close(), "  cflags = -O2 -Wall\n");
}

#[test]
fn variable_scalar_kinds() {
    let mut w = Writer::new(78);
    w.variable("a".to_string(), Some(VariableValue::Str("v".to_string())), None);
    w.variable("b".to_string(), Some(VariableValue::Int(-3)), None);
    w.variable("c".to_string(), Some(VariableValue::Int(0)), None);
    w.variable("d".to_string(), Some(VariableValue::Bool(true)), None);
    w.variable("e".to_string(), None, Some(1));
    assert_eq!(w.close(), "a = v\nb = -3\nc = 0\nd = true\n");
}

#[test]
fn line_wraps_at_width() {
    let mut w = Writer::new(10);
    w.line(&"aaaa bbbb cccc".to_string(), None);
    assert_eq!(w.close(), "aaaa $\n    bbbb $\n    cccc\n");
}

#[test]
fn line_never_breaks_at_escaped_space() {
    let mut w = Writer::new(10);
    w.line(&"aaa$ bbb ccc".to_string(), None);
    assert_eq!(w.close(), "aaa$ bbb $\n    ccc\n");
}

#[test]
fn line_with_no_break_point_stays_whole() {
    let mut w = Writer::new(4);
    w.line(&"unbreakable".to_string(), None);
    assert_eq!(w.close(), "unbreakable\n");
}

#[test]
fn rule_with_only_name_and_command() {
    let mut w = Writer::new(78);
    let rd = RuleDescriptor {
        name: "cc".to_string(),
        command: "gcc -c $in -o $out".to_string(),
        ..RuleDescriptor::default()
    };
    assert_eq!(w.rule(rd), Ok(()));
    assert_eq!(w.close(), "rule cc\n  command = gcc -c $in -o $out\n");
}

#[test]
fn rule_emits_fields_in_fixed_order() {
    let mut w = Writer::new(78);
    let rd = RuleDescriptor {
        name: "cc".to_string(),
        command: "gcc".to_string(),
        description: Some("CC $out".to_string()),
        depfile: Some("$out.d".to_string()),
        generator: true,
        pool: Some("expensive".to_string()),
        restat: true,
        rspfile: Some("$out.rsp".to_string()),
        rspfile_content: Some("$in".to_string()),
        deps: vec!["gcc".to_string()],
    };
    assert_eq!(w.rule(rd), Ok(()));
    let expected = "rule cc\n  command = gcc\n  description = CC $out\n  depfile = $out.d\n  generator = 1\n  pool = expensive\n  restat = 1\n  rspfile = $out.rsp\n  rspfile_content = $in\n  deps = gcc\n";
    assert_eq!(w.close(), expected);
}

#[test]
fn rule_wraps_long_command_with_continuation_indent() {
    let mut w = Writer::new(30);
    let rd = RuleDescriptor {
        name: "cc".to_string(),
        command: "aaaaaaaa bbbbbbbb cccccccc".to_string(),
        ..RuleDescriptor::default()
    };
    assert_eq!(w.rule(rd), Ok(()));
    let out = w.close();
    assert_eq!(out, "rule cc\n  command = aaaaaaaa $\n      bbbbbbbb cccccccc\n");
    let lines: Vec<&str> = out.lines().collect();
    for line in &lines[..lines.len() - 1] {
        assert!(line.len() <= 30 || !line.contains(' '));
    }
    assert!(lines[1].ends_with(" $"));
}

#[test]
fn rule_rejects_empty_command() {
    let mut w = Writer::new(78);
    let rd = RuleDescriptor {
        name: "cc".to_string(),
        command: "".to_string(),
        ..RuleDescriptor::default()
    };
    assert_eq!(w.rule(rd), Err(NinjaError::MissingRequiredField));
    assert_eq!(w.close(), "");
}

#[test]
fn rule_descriptor_default_values() {
    let rd = RuleDescriptor::default();
    assert_eq!(rd.name, "New Rule");
    assert_eq!(rd.command, "echo");
    assert!(rd.description.is_none());
    assert!(!rd.generator);
    assert!(rd.deps.is_empty());
}

#[test]
fn pool_statement() {
    let mut w = Writer::new(78);
    w.pool("link_pool".to_string(), 4);
    assert_eq!(w.close(), "pool link_pool\n  depth = 4\n");
}

#[test]
fn build_full_statement() {
    let mut w = Writer::new(78);
    let r = w.build(
        vec!["out.o".to_string()],
        "cc".to_string(),
        vec!["in.c".to_string()],
        &vec!["dep.h".to_string()],
        &vec!["gen".to_string()],
        Some(vec![
            ("cflags".to_string(), vec!["-O2".to_string()]),
            ("defines".to_string(), vec!["-DA".to_string(), "-DB".to_string()]),
            ("unused".to_string(), vec![]),
        ]),
        vec!["out.d".to_string()],
        Some("link_pool".to_string()),
        Some("dd.ninja".to_string()),
    );
    assert_eq!(r, Ok(vec!["out.o".to_string()]));
    let expected = "build out.o | out.d: cc in.c | dep.h || gen\n  pool = link_pool\n  dyndep = dd.ninja\n  cflags = -O2\n  defines = -DA -DB\n";
    assert_eq!(w.close(), expected);
}

#[test]
fn build_escapes_paths() {
    let mut w = Writer::new(78);
    let r = w.build(
        vec!["a b.o".to_string()],
        "cc".to_string(),
        vec!["c:d.c".to_string()],
        &vec![],
        &vec![],
        None,
        vec![],
        None,
        None,
    );
    assert_eq!(r, Ok(vec!["a b.o".to_string()]));
    assert_eq!(w.close(), "build a$ b.o: cc c$:d.c\n");
}

#[test]
fn build_rejects_missing_outputs_or_inputs() {
    let mut w = Writer::new(78);
    let r = w.build(
        vec![],
        "cc".to_string(),
        vec!["in.c".to_string()],
        &vec![],
        &vec![],
        None,
        vec![],
        None,
        None,
    );
    assert_eq!(r, Err(NinjaError::EmptyBuildOutputsOrInputs));
    let r2 = w.build(
        vec!["out.o".to_string()],
        "cc".to_string(),
        vec![],
        &vec![],
        &vec![],
        None,
        vec![],
        None,
        None,
    );
    assert_eq!(r2, Err(NinjaError::EmptyBuildOutputsOrInputs));
    assert_eq!(w.close(), "");
}

#[test]
fn default_rejects_empty_targets() {
    let mut w = Writer::new(78);
    assert_eq!(w.default_targets(vec![]), Err(NinjaError::EmptyDefaultTargets));
    assert_eq!(w.close(), "");
}

#[test]
fn default_joins_targets() {
    let mut w = Writer::new(78);
    assert_eq!(w.default_targets(vec!["a".to_string(), "b".to_string()]), Ok(()));
    assert_eq!(w.close(), "default a b\n");
}

#[test]
fn file_scope_statements() {
    let mut w = Writer::new(78);
    w.import_file("rules.ninja".to_string());
    w.subninja("sub/build.ninja".to_string());
    w.newline();
    assert_eq!(w.close(), "include rules.ninja\nsubninja sub/build.ninja\n\n");
}

#[test]
fn comment_prefixes_each_wrapped_line() {
    let mut w = Writer::new(12);
    w.comment("aaa bbb ccc ddd".to_string());
    assert_eq!(w.close(), "#aaa bbb\n#ccc ddd\n");
}

#[test]
fn comment_short_text_is_one_line() {
    let mut w = Writer::new(78);
    w.comment("generated file".to_string());
    assert_eq!(w.close(), "#generated file\n");
}

#[test]
fn writer_default_width() {
    let w = Writer::default();
    assert_eq!(w.width, 78);
    assert_eq!(w.close(), "");
}
