use html_extract::config::Config;
use html_extract::display::{
    create_displayer, displayer_from_groups, escape_html_text, has_identifier_attrs, is_void_element, parse_displayer,
    reindent_json, AnyDisplayer, DisplayType, Displayer, JsonDisplayer, JsonField, JsonObject, Output, SlimDisplayer, Style,
};
use html_extract::dom::{document_from_events, merge_walk, Document, NodeKind};
use html_extract::parser::parse_commands;
use html_extract::pipeline::{compile_commands, select_nodes};
use html_extract::selector::{
    build_selector_func, nth_rule_from_groups, parse_html, parse_identifier, parse_not_pseudo, parse_parent_of_pseudo, parse_pseudo_class,
    NthRule, Pseudo, SelectorFuncType,
};

fn json_value(doc: &Document, obj: &JsonObject, config: &Config) -> serde_json::Value {
    let mut map = serde_json::Map::new();
    for (key, field) in &obj.fields {
        let value = match field {
            JsonField::Text(t) => serde_json::Value::String(t.clone()),
            JsonField::Children(ids) => serde_json::Value::Array(
                ids.iter().map(|&c| json_value(doc, &JsonDisplayer.jsonify(doc, c, config), config)).collect(),
            ),
        };
        map.insert(key.clone(), value);
    }
    serde_json::Value::Object(map)
}

/// What the command line tool prints on its standard output for `selector`
/// read from `input` with the flags `flags`.
fn run_extract(selector: &str, input: &str, flags: &[&str]) -> String {
    let mut config = Config::default();
    let mut number = false;
    let mut slim = false;
    let mut i = 0;
    while i < flags.len() {
        match flags[i] {
            "-r" => config.raw = true,
            "-p" => config.escape_html = false,
            "-n" => number = true,
            "-s" => config.strict = true,
            "--slim" => slim = true,
            "-l" => {
                i += 1;
                config.max_print_level = flags[i].parse().unwrap();
            }
            "-i" => {
                i += 1;
                config.indent_string = match flags[i].parse::<usize>() {
                    Ok(n) => " ".repeat(n),
                    Err(_) => flags[i].to_string(),
                };
            }
            other => panic!("flag {} not known here", other),
        }
        i += 1;
    }
    let doc = parse_html(input).unwrap();
    let cmds = parse_commands(selector).unwrap();
    let compiled = match compile_commands(&cmds, config.strict) {
        Ok(c) => c,
        Err(_) => return String::new(),
    };
    let nodes = select_nodes(&doc, &compiled.steps);
    if number {
        return format!("{}\n", nodes.len());
    }
    let displayer = if slim { AnyDisplayer::Slim(SlimDisplayer) } else { create_displayer(&cmds, compiled.last_is_displayer) };
    match displayer.display(&doc, &nodes, &config) {
        Output::Styled(pieces) => {
            pieces.iter().filter(|(style, _)| *style != Style::Warning).map(|(_, text)| text.as_str()).collect()
        }
        Output::Json(objs) => {
            let values: Vec<serde_json::Value> = objs.iter().map(|o| json_value(&doc, o, &config)).collect();
            let text = serde_json::to_string_pretty(&values).unwrap();
            let mut text = reindent_json(&text, &config.indent_string);
            if !config.raw {
                text.push('\n');
            }
            text
        }
    }
}

fn selector_error(cmd: &str) -> String {
    match build_selector_func(cmd, SelectorFuncType::Descendant, false) {
        Ok(_) => panic!("`{}` should not parse", cmd),
        Err(e) => e,
    }
}

#[test]
fn test_child_selector() {
    let input = "<html><body><div><p>Inside</p></div><p>Outside</p></body></html>";
    let result = run_extract("div > p", input, &[]);
    assert_eq!(result.trim().matches("<p").count(), 1);
}

#[test]
fn test_pseudo_nth_child() {
    let input = "<html><body><ul><li>1</li><li>2</li><li>3</li></ul></body></html>";
    let result = run_extract("li:nth-child(2)", input, &[]);
    assert!(result.contains("2"));
    assert!(!result.contains("1") || result.matches("1").count() == 0);
}

#[test]
fn test_text_displayer() {
    let input = "<html><body><p>Hello World</p></body></html>";
    let result = run_extract("p text{}", input, &[]);
    assert_eq!(result.trim(), "Hello World");
}

#[test]
fn test_attr_displayer() {
    let input = "<html><body><a href=\"http://example.com\">Link</a></body></html>";
    let result = run_extract("a attr{href}", input, &[]);
    assert_eq!(result.trim(), "http://example.com");
}

#[test]
fn test_json_displayer() {
    let input = "<html><body><a href=\"http://example.com\">Link</a></body></html>";
    let result = run_extract("a json{}", input, &[]);
    assert!(result.contains("\"tag\": \"a\""), "Should contain tag field");
    assert!(result.contains("\"href\": \"http://example.com\""), "Should contain href");
}

#[test]
fn test_number_displayer() {
    let input = "<html><body><p>One</p><p>Two</p><p>Three</p></body></html>";
    let result = run_extract("p", input, &["-n"]);
    assert_eq!(result.trim(), "3");
}

#[test]
fn test_sibling_selector() {
    let input = "<html><body><p>First</p><span>Second</span></body></html>";
    let result = run_extract("p + span", input, &[]);
    assert!(result.contains("Second"), "Should find span after p");
}

#[test]
fn test_comma_selector() {
    let input = "<html><body><p>Para</p><span>Span</span></body></html>";
    let result = run_extract("p, span", input, &[]);
    assert!(result.contains("Para"));
    assert!(result.contains("Span"));
}

#[test]
fn test_attribute_selector() {
    let input = "<html><body><a href=\"http://example.com\" title=\"Example\">Link</a></body></html>";
    let result = run_extract("a[title=\"Example\"]", input, &[]);
    assert!(result.contains("Link"));
}

#[test]
fn test_pseudo_first_child() {
    let input = "<html><body><div><p>First</p><p>Second</p></div></body></html>";
    let result = run_extract("p:first-child", input, &[]);
    assert!(result.contains("First"));
    assert!(!result.contains("Second"));
}

#[test]
fn test_pseudo_last_child() {
    let input = "<html><body><div><p>First</p><p>Second</p></div></body></html>";
    let result = run_extract("p:last-child", input, &[]);
    assert!(result.contains("Second"));
    assert!(!result.contains("First"));
}

#[test]
fn test_pseudo_contains() {
    let input = "<html><body><p>Hello World</p><p>Goodbye</p></body></html>";
    let result = run_extract("p:contains(\"Hello\")", input, &[]);
    assert!(result.contains("Hello"));
    assert!(!result.contains("Goodbye"));
}

#[test]
fn test_text_modifiers() {
    let input = "<html><body><p>Hello World</p></body></html>";
    let result = run_extract("p text{upper}", input, &[]);
    assert_eq!(result.trim(), "HELLO WORLD");

    let result = run_extract("p text{lower}", input, &[]);
    assert_eq!(result.trim(), "hello world");

    let result = run_extract("p text{trim}", input, &[]);
    assert_eq!(result.trim(), "Hello World");
}

#[test]
fn test_raw_output() {
    let input = "<html><body><p>Hello World</p></body></html>";
    let result = run_extract("p", input, &["-r"]);
    assert!(result.contains("<p>Hello World</p>"), "Raw output should be inline");
}

#[test]
fn test_plain_mode() {
    let input = "<html><body><p>Hello & World</p></body></html>";
    let result = run_extract("p text{}", input, &[]);
    assert!(result.contains("&amp;"), "Should escape HTML by default");

    let result = run_extract("p text{}", input, &["-p"]);
    assert!(result.contains("&") && !result.contains("&amp;"), "Should not escape in plain mode");
}

#[test]
fn test_limit_flag() {
    let input = "<html><body><div><p>One</p><p>Two</p><p>Three</p></div></body></html>";
    let result = run_extract("div", input, &["-l", "1"]);
    assert!(result.contains("..."), "Should contain ellipsis for limited output");
}

#[test]
fn test_indent_flag() {
    let input = "<html><body><div><p>Hello</p></div></body></html>";
    let result = run_extract("div", input, &["-i", "4"]);
    assert!(result.contains("    <p>"), "Should use 4-space indent");
}

#[test]
fn test_slim_basic_filtering() {
    let input = r#"<html><body><div id="main" class="container"><p>Hello</p><span class="highlight">World</span></div></body></html>"#;
    let result = run_extract("", input, &["--slim"]);
    assert!(result.contains("#main.container"), "Should contain #main.container, got: {}", result);
    assert!(result.contains(".highlight"), "Should contain .highlight, got: {}", result);
    assert!(!result.contains("Hello"), "Plain <p> content should not appear");
}

#[test]
fn test_slim_no_tag_prefix() {
    let input = r#"<html><body><div class="a"><ul class="b"><li class="c"></li></ul><table class="d"></table></div></body></html>"#;
    let result = run_extract("", input, &["--slim"]);
    assert!(result.contains(".a"), "Should have .a without tag prefix");
    assert!(result.contains(".b"), "Should have .b without tag prefix");
    assert!(result.contains(".c"), "Should have .c without tag prefix");
    assert!(result.contains(".d"), "Should have .d without tag prefix");
    assert!(!result.contains("d.a"), "Should NOT have d.a tag prefix");
    assert!(!result.contains("u.b"), "Should NOT have u.b tag prefix");
}

#[test]
fn test_slim_attrs_output() {
    let input = r#"<html><body><input type="text" name="q" value="" data-role="search"><button type="submit" class="btn primary">Go</button></body></html>"#;
    let result = run_extract("", input, &["--slim"]);
    assert!(result.contains("[data-role=search]"), "Should contain data-role attr, got: {}", result);
    assert!(result.contains("[name=q]"), "Should contain name attr, got: {}", result);
    assert!(result.contains("[type=text]"), "Should contain type attr, got: {}", result);
    assert!(result.contains("[value=]"), "Should contain empty value attr, got: {}", result);
    assert!(result.contains(".btn.primary"), "Should have classes without tag prefix, got: {}", result);
    assert!(result.contains("[type=submit]"), "Should contain submit type, got: {}", result);
    assert!(!result.contains("input["), "Should NOT have input tag prefix");
    assert!(!result.contains("btn["), "Should NOT have btn tag prefix before brackets");
}

#[test]
fn test_slim_indent_no_container() {
    let input = r#"<html><body><div><div><span class="deep">text</span></div></div></body></html>"#;
    let result = run_extract("", input, &["--slim"]);
    let lines: Vec<&str> = result.trim().lines().collect();
    assert_eq!(lines.len(), 1, "Should have exactly 1 line, got: {:?}", lines);
    assert_eq!(lines[0], ".deep", "Should be at root level with no indent");
}

#[test]
fn test_slim_with_selector() {
    let input = r#"<html><body><div id="main" class="container"><div class="article"><a class="link">Link</a></div></div></body></html>"#;
    let result = run_extract("div.article", input, &["--slim"]);
    assert!(result.contains(".link"), "Should contain .link within article");
    assert!(!result.contains("#main"), "Should not contain elements outside selector scope");
}

#[test]
fn test_slim_empty_output() {
    let input = r#"<html><body><p>Just text</p><div><span>more</span></div></body></html>"#;
    let result = run_extract("", input, &["--slim"]);
    assert!(result.trim().is_empty(), "Should output nothing when no elements have id/class, got: {}", result);
}

#[test]
fn test_slim_indent_level() {
    let input = r#"<html><body><div id="main"><div class="sub"><span class="text"></span></div></div></body></html>"#;
    let result = run_extract("", input, &["--slim", "-i", "2"]);
    let lines: Vec<&str> = result.trim().lines().collect();
    assert_eq!(lines.len(), 3, "Should have 3 lines, got: {:?}", lines);
    assert_eq!(lines[0], "#main");
    assert!(lines[1].starts_with("  .sub"), "Second line should be indented with 2 spaces, got: '{}'", lines[1]);
    assert!(lines[2].starts_with("    .text"), "Third line should be indented with 4 spaces, got: '{}'", lines[2]);
}

// ---------------------------------------------------------------------------
// Whole outputs.

#[test]
fn tree_output_is_exact() {
    let input = "<html><body><div class=\"x\"><p>Hi</p><br></div></body></html>";
    let result = run_extract("div", input, &[]);
    assert_eq!(result, "<div class=\"x\">\n <p>\n  Hi\n </p>\n <br>\n</div>\n");
}

#[test]
fn tree_output_raw_is_inline() {
    let input = "<html><body><div class=\"x\"><p>Hi</p><br></div></body></html>";
    let result = run_extract("div", input, &["-r"]);
    assert_eq!(result, "<div class=\"x\"><p>Hi</p><br></div>");
}

#[test]
fn tree_output_limit_prints_ellipsis() {
    let input = "<html><body><div><p>One</p></div></body></html>";
    let result = run_extract("div", input, &["-l", "1"]);
    assert_eq!(result, "<div>\n ...\n</div>\n");
}

#[test]
fn tree_output_comment() {
    let input = "<html><body><div><!-- note --></div></body></html>";
    let result = run_extract("div", input, &[]);
    assert_eq!(result, "<div>\n <!-- note -->\n</div>\n");
}

#[test]
fn attribute_values_are_escaped() {
    let input = "<html><body><a title=\"a&lt;b\">x</a></body></html>";
    assert_eq!(run_extract("a attr{title}", input, &[]), "a&lt;b\n");
    assert_eq!(run_extract("a attr{title}", input, &["-p"]), "a<b\n");
}

#[test]
fn text_trim_and_upper_combined() {
    let input = "<html><body><p>  mixed Case  </p></body></html>";
    assert_eq!(run_extract("p text{trim+upper}", input, &[]), "MIXED CASE\n");
}

#[test]
fn unknown_text_modifier_is_a_warning() {
    let doc = parse_html("<p>Hi</p>").unwrap();
    let cmds = parse_commands("p text{shout}").unwrap();
    let compiled = compile_commands(&cmds, false).ok().unwrap();
    let nodes = select_nodes(&doc, &compiled.steps);
    let displayer = create_displayer(&cmds, compiled.last_is_displayer);
    match displayer.display(&doc, &nodes, &Config::default()) {
        Output::Styled(pieces) => {
            let warnings: Vec<&String> = pieces.iter().filter(|(s, _)| *s == Style::Warning).map(|(_, t)| t).collect();
            assert_eq!(warnings.len(), 1);
            assert!(warnings[0].contains("shout"));
            let text: String =
                pieces.iter().filter(|(s, _)| *s != Style::Warning).map(|(_, t)| t.as_str()).collect();
            assert_eq!(text, "Hi\n");
        }
        Output::Json(_) => panic!("text display gives styled output"),
    }
}

#[test]
fn json_output_is_exact() {
    let input = "<html><body><div id=\"d\">Hi<!-- c --><b>x</b></div></body></html>";
    let result = run_extract("div json{}", input, &["-i", "2"]);
    let expected = "[\n  {\n    \"children\": [\n      {\n        \"tag\": \"b\",\n        \"text\": \"x\"\n      }\n    ],\n    \"comment\": \"c\",\n    \"id\": \"d\",\n    \"tag\": \"div\",\n    \"text\": \"Hi\"\n  }\n]\n";
    assert_eq!(result, expected);
}

#[test]
fn json_output_default_indent_is_one_space() {
    let input = "<html><body><b>x</b></body></html>";
    let result = run_extract("b json{}", input, &[]);
    assert_eq!(result, "[\n {\n  \"tag\": \"b\",\n  \"text\": \"x\"\n }\n]\n");
}

#[test]
fn descendant_selection_takes_nearest_matches() {
    let input = "<html><body><div id=\"a\"><div id=\"b\"></div></div></body></html>";
    assert_eq!(run_extract("div", input, &["-n"]), "1\n");
    assert_eq!(run_extract("div div", input, &["-n"]), "1\n");
    assert_eq!(run_extract("div#b", input, &["-n"]), "1\n");
}

#[test]
fn comma_keeps_group_order() {
    let input = "<html><body><p>P</p><span>S</span></body></html>";
    assert_eq!(run_extract("span, p", input, &["-r"]), "<span>S</span><p>P</p>");
}

#[test]
fn star_is_skipped() {
    let input = "<html><body><p>P</p></body></html>";
    assert_eq!(run_extract("* p", input, &["-n"]), "1\n");
}

#[test]
fn nth_child_formulas() {
    let input = "<html><body><ul><li>a</li><li>b</li><li>c</li><li>d</li><li>e</li></ul></body></html>";
    assert_eq!(run_extract("li:nth-child(2n+1) text{}", input, &[]), "a\nc\ne\n");
    assert_eq!(run_extract("li:nth-child(n+4) text{}", input, &[]), "d\ne\n");
    assert_eq!(run_extract("li:nth-child(odd) text{}", input, &[]), "a\nc\ne\n");
    assert_eq!(run_extract("li:nth-child(even) text{}", input, &[]), "b\nd\n");
    assert_eq!(run_extract("li:nth-last-child(1) text{}", input, &[]), "e\n");
    assert_eq!(run_extract("li:nth-of-type(3) text{}", input, &[]), "c\n");
    assert_eq!(run_extract("li:nth-last-of-type(2) text{}", input, &[]), "d\n");
}

#[test]
fn other_pseudo_classes() {
    let input = "<html><body><div><p>a</p><span>b</span><p>c</p></div><div><em>only</em></div><i></i></body></html>";
    assert_eq!(run_extract("p:first-of-type text{}", input, &[]), "a\n");
    assert_eq!(run_extract("p:last-of-type text{}", input, &[]), "c\n");
    assert_eq!(run_extract("span:only-of-type text{}", input, &[]), "b\n");
    assert_eq!(run_extract("em:only-child text{}", input, &[]), "only\n");
    assert_eq!(run_extract("i:empty", input, &["-n"]), "1\n");
    assert_eq!(run_extract("div:parent-of(em) text{}", input, &[]), "only\n");
    assert_eq!(run_extract("p:not(:first-child) text{}", input, &[]), "c\n");
    assert_eq!(run_extract("p:matches(\"^[ab]$\") text{}", input, &[]), "a\n");
}

#[test]
fn attribute_match_kinds() {
    let input = "<html><body><a href=\"http://x.org/a.png\" rel=\"no follow\">L</a></body></html>";
    assert_eq!(run_extract("a[href^=\"http\"]", input, &["-n"]), "1\n");
    assert_eq!(run_extract("a[href$=\".png\"]", input, &["-n"]), "1\n");
    assert_eq!(run_extract("a[href*=\"x.org\"]", input, &["-n"]), "1\n");
    assert_eq!(run_extract("a[rel~=\"follow\"]", input, &["-n"]), "1\n");
    assert_eq!(run_extract("a[rel~=\"fol\"]", input, &["-n"]), "0\n");
    assert_eq!(run_extract("a[href]", input, &["-n"]), "1\n");
    assert_eq!(run_extract("a[title]", input, &["-n"]), "0\n");
    assert_eq!(run_extract("a[href=\"x.org\"]", input, &["-n"]), "0\n");
}

// ---------------------------------------------------------------------------
// Errors.

#[test]
fn selector_errors() {
    assert_eq!(selector_error(".a b"), "Unexpected character ' ' in selector");
    assert_eq!(selector_error("[a$b]"), "'$' must be followed by a '='");
    assert_eq!(selector_error("[a^]"), "'^' must be followed by a '='");
    assert_eq!(selector_error("[a=\"x\\"), "Unmatched open brace '['");
    assert_eq!(selector_error("[a=\"x\"y]"), "Quote must end at ']'");
    assert_eq!(selector_error(":foo"), "foo not a valid pseudo class");
    assert_eq!(selector_error(":contains(x)"), "Malformed 'contains(\"\")' selector");
    assert_eq!(selector_error(":contains(\"x\")y"), "'contains(\"\")' must end selector");
    assert_eq!(selector_error(":matches(x)"), "Malformed 'matches(\"\")' selector");
    assert_eq!(selector_error(":matches(\"x\")y"), "'matches(\"\")' must end selector");
    assert_eq!(selector_error(":nth-child(2)x"), "nth-child(n) must end selector");
    assert_eq!(selector_error(":nth-child(2"), "Unmatched '(' for pseudo class");
    assert_eq!(selector_error(":nth-child(0)"), "Argument to 'nth-child' must be greater than 0");
    assert_eq!(selector_error(":nth-child(x)"), "Invalid argument 'x' for 'nth-child'");
    assert_eq!(selector_error(":not("), "malformed ':not' selector");
    assert_eq!(selector_error(":not(ab"), "unmatched '('");
    assert_eq!(selector_error("p:not(p\u{e9}"), "unmatched '('");
    assert_eq!(selector_error("p:parent-of(p\u{e9}"), "unmatched '('");
    assert_eq!(selector_error(":parent-of(x"), "malformed ':parent-of' selector");
    assert_eq!(selector_error(":parent-of(ab"), "unmatched '('");
    assert!(build_selector_func(":matches(\"(\")", SelectorFuncType::Descendant, false).is_err());
}

#[test]
fn nested_selector_error_is_passed_on() {
    assert_eq!(selector_error(":not(:foo)"), "foo not a valid pseudo class");
}

#[test]
fn first_bad_selector_is_the_error() {
    let cmds = parse_commands("p :foo :bar").unwrap();
    match compile_commands(&cmds, false) {
        Ok(_) => panic!("should not compile"),
        Err(e) => assert_eq!(e, "foo not a valid pseudo class"),
    }
}

#[test]
fn unmatched_quote_messages() {
    assert_eq!(parse_commands("a 'b").unwrap_err(), "Unmatched open quote (')");
    assert_eq!(parse_commands("a \"b").unwrap_err(), "Unmatched open quote (\")");
    assert_eq!(parse_commands("a \"b\\").unwrap_err(), "Unmatched open quote (\")");
}

#[test]
fn displayer_parsing() {
    assert!(matches!(parse_displayer("json{}"), Ok(DisplayType::Json)));
    match parse_displayer("text{}") {
        Ok(DisplayType::Text { mods }) => assert!(mods.is_empty()),
        _ => panic!("text{{}} is a text display"),
    }
    match parse_displayer("text{trim+upper}") {
        Ok(DisplayType::Text { mods }) => assert_eq!(mods, vec!["trim".to_string(), "upper".to_string()]),
        _ => panic!("text{{trim+upper}} is a text display"),
    }
    match parse_displayer("attr{href}") {
        Ok(DisplayType::Attr { attr }) => assert_eq!(attr, "href"),
        _ => panic!("attr{{href}} is an attribute display"),
    }
    match parse_displayer("p") {
        Err(e) => assert_eq!(e, "Unknown displayer"),
        Ok(_) => panic!("p is no display function"),
    }
}

#[test]
fn last_command_chooses_the_displayer() {
    let cmds = parse_commands("p json{}").unwrap();
    assert!(matches!(create_displayer(&cmds, true), AnyDisplayer::Json(_)));
    assert!(matches!(create_displayer(&cmds, false), AnyDisplayer::Tree(_)));
    let cmds = parse_commands("p").unwrap();
    assert!(matches!(create_displayer(&cmds, true), AnyDisplayer::Tree(_)));
    assert!(matches!(create_displayer(&Vec::<String>::new(), true), AnyDisplayer::Tree(_)));
}

// ---------------------------------------------------------------------------
// Small functions.

#[test]
fn html_escaping() {
    assert_eq!(escape_html_text("a<b>&c\"d", true), "a&lt;b&gt;&amp;c\"d");
    assert_eq!(escape_html_text("a<b>&c", false), "a<b>&c");
}

#[test]
fn void_elements() {
    assert!(is_void_element("br"));
    assert!(is_void_element("wbr"));
    assert!(!is_void_element("div"));
    assert!(!is_void_element("BR"));
}

#[test]
fn identifying_attributes() {
    let a = |k: &str| vec![(k.to_string(), "v".to_string())];
    assert!(has_identifier_attrs(&a("id")));
    assert!(has_identifier_attrs(&a("data-x")));
    assert!(has_identifier_attrs(&a("value")));
    assert!(!has_identifier_attrs(&a("href")));
    assert!(!has_identifier_attrs(&Vec::new()));
}

#[test]
fn identifiers_stop_at_separators() {
    let chars: Vec<char> = "abc.def".chars().collect();
    let mut pos = 0;
    assert_eq!(parse_identifier(&chars, &mut pos).unwrap(), "abc");
    assert_eq!(pos, 3);
    let mut pos = 4;
    assert_eq!(parse_identifier(&chars, &mut pos).unwrap(), "def");
    assert_eq!(pos, 7);
}

#[test]
fn reindenting() {
    assert_eq!(reindent_json("[\n  {\n    \"a\": 1\n  }\n]", "\t"), "[\n\t{\n\t\t\"a\": 1\n\t}\n]");
    assert_eq!(reindent_json("a   b", "_"), "a   b");
    assert_eq!(reindent_json("   a  b\n  c", "_"), "_ a  b\n_c");
    assert_eq!(reindent_json("a  b", "  "), "a  b");
}

#[test]
fn default_configuration() {
    let c = Config::default();
    assert!(!c.color && c.escape_html && !c.raw && !c.strict && !c.pre);
    assert_eq!(c.max_print_level, -1);
    assert_eq!(c.indent_string, " ");
    assert!(c.charset.is_none());
}

#[test]
fn html_tree_shape() {
    let doc = parse_html("<p>Hi</p>").unwrap();
    assert!(doc.len() >= 5);
    assert!(doc.parent(0).is_none());
    for i in 1..doc.len() {
        let p = doc.parent(i).unwrap();
        assert_eq!(doc.children(p)[doc.pos(i)], i);
    }
}

// ---------------------------------------------------------------------------
// The steps after an outside call, on given values.

fn strings(v: &[&str]) -> Vec<String> {
    v.iter().map(|s| s.to_string()).collect()
}

#[test]
fn display_functions_from_groups() {
    match displayer_from_groups("text{a+b}", Some(strings(&["text{a+b}", "a+b"])), None) {
        Ok(DisplayType::Text { mods }) => assert_eq!(mods, strings(&["a", "b"])),
        _ => panic!("text groups give a text display"),
    }
    match displayer_from_groups("x", None, Some(strings(&["attr{id}", "id"]))) {
        Ok(DisplayType::Attr { attr }) => assert_eq!(attr, "id"),
        _ => panic!("attr groups give an attribute display"),
    }
    assert!(matches!(displayer_from_groups("json{}", None, None), Ok(DisplayType::Json)));
    match displayer_from_groups("x", Some(strings(&["whole"])), None) {
        Err(e) => assert_eq!(e, "Unknown displayer"),
        Ok(_) => panic!("a match without its group names no display"),
    }
}

#[test]
fn nth_rules_from_groups() {
    let name: Vec<char> = "nth-child".chars().collect();
    let num = |s: &str| -> Vec<char> { s.chars().collect() };
    assert_eq!(
        nth_rule_from_groups(&num("3n+1"), &name, Some(strings(&["3n+1", "3", "1"])), None),
        Ok(NthRule::Cycle(3, 1))
    );
    assert_eq!(
        nth_rule_from_groups(&num("0n+1"), &name, Some(strings(&["0n+1", "0", "1"])), None),
        Ok(NthRule::Cycle(0, 1))
    );
    assert_eq!(
        nth_rule_from_groups(&num("99999999999n+1"), &name, Some(strings(&["99999999999n+1", "99999999999", "1"])), None),
        Err("Invalid argument '99999999999n+1' for 'nth-child'".to_string())
    );
    assert_eq!(nth_rule_from_groups(&num("n+2"), &name, None, Some(strings(&["n+2", "2"]))), Ok(NthRule::AtLeast(2)));
    assert_eq!(nth_rule_from_groups(&num("5"), &name, None, None), Ok(NthRule::Exactly(5)));
    assert_eq!(nth_rule_from_groups(&num("odd"), &name, None, None), Ok(NthRule::Odd));
    assert_eq!(nth_rule_from_groups(&num("even"), &name, None, None), Ok(NthRule::Even));
    assert_eq!(
        nth_rule_from_groups(&num("0"), &name, None, None),
        Err("Argument to 'nth-child' must be greater than 0".to_string())
    );
}

#[test]
fn walks_build_documents() {
    let nodes = vec![Some((0u8, String::new())), Some((5u8, "p".to_string())), None, None];
    let attrs = vec![Some(Vec::new()), Some(vec![("id".to_string(), "x".to_string())]), None, None];
    let walk = merge_walk(nodes, attrs).unwrap();
    let doc = document_from_events(walk).ok().unwrap();
    assert_eq!(doc.len(), 2);
    assert_eq!(doc.kind(1), NodeKind::Element);
    assert_eq!(doc.text(1), "p");
    assert_eq!(doc.attrs(1), &vec![("id".to_string(), "x".to_string())]);
    assert_eq!(doc.parent(1), Some(0));
    assert_eq!(doc.children(0), &vec![1]);
}

#[test]
fn malformed_walks_are_refused() {
    assert!(merge_walk(vec![Some((0u8, String::new())), None], vec![None, None]).is_none());
    assert!(merge_walk(vec![None], vec![]).is_none());
    match document_from_events(vec![None]) {
        Err(e) => assert_eq!(e, "malformed document tree"),
        Ok(_) => panic!("a lone closing is no tree"),
    }
    assert!(document_from_events(vec![Some((0u8, String::new(), Vec::new()))]).is_err());
    assert!(document_from_events(vec![Some((9u8, String::new(), Vec::new())), None]).is_err());
    assert!(document_from_events(Vec::new()).is_err());
}

// ---------------------------------------------------------------------------
// What holds of all inputs, on given values.

#[test]
fn escaped_attribute_values_match_literally() {
    let input = "<html><body><a href=\"apng\">A</a><a href=\"a.png\">B</a></body></html>";
    assert_eq!(run_extract("a[href$=\".png\"] text{}", input, &[]), "B\n");
    assert_eq!(run_extract("a[href*=\".\"] text{}", input, &[]), "B\n");
}

#[test]
fn next_sibling_skips_text_only() {
    let input = "<html><body><p>a</p> text <b>b</b><i>c</i></body></html>";
    assert_eq!(run_extract("p + b text{}", input, &[]), "b\n");
    assert_eq!(run_extract("p + i", input, &["-n"]), "0\n");
}

#[test]
fn commands_never_hold_empty_tokens() {
    assert_eq!(parse_commands("  a  ,, b ").unwrap(), strings(&["a", ",", ",", "b"]));
    assert_eq!(parse_commands("").unwrap(), Vec::<String>::new());
}

#[test]
fn plain_text_is_printed_as_is() {
    assert_eq!(escape_html_text("plain text", true), "plain text");
    assert!(!escape_html_text("<<>>", true).contains('<'));
}

#[test]
fn json_objects_start_with_the_tag() {
    let doc = parse_html("<a href=\"h\">x</a>").unwrap();
    let cmds = parse_commands("a").unwrap();
    let compiled = compile_commands(&cmds, false).ok().unwrap();
    let nodes = select_nodes(&doc, &compiled.steps);
    assert_eq!(nodes.len(), 1);
    let obj = JsonDisplayer.jsonify(&doc, nodes[0], &Config::default());
    assert_eq!(obj.fields[0].0, "tag");
    assert!(matches!(&obj.fields[0].1, JsonField::Text(t) if t == "a"));
    assert!(JsonDisplayer.jsonify(&doc, 0, &Config::default()).fields.is_empty());
}

#[test]
fn trimming_twice_prints_the_same() {
    let input = "<html><body><p>  x  </p></body></html>";
    assert_eq!(run_extract("p text{trim+trim}", input, &[]), run_extract("p text{trim}", input, &[]));
}

#[test]
fn first_child_is_nth_child_one() {
    let input = "<html><body><div><p>a</p><p>b</p></div><ul><li>c</li><li>d</li></ul></body></html>";
    assert_eq!(run_extract(":first-child", input, &["-r"]), run_extract(":nth-child(1)", input, &["-r"]));
    assert_eq!(run_extract("li:last-child", input, &["-r"]), run_extract("li:nth-last-child(1)", input, &["-r"]));
}

#[test]
fn nth_child_follows_css_an_plus_b() {
    let input = "<html><body><ul><li>a</li><li>b</li><li>c</li><li>d</li><li>e</li></ul></body></html>";
    assert_eq!(run_extract("li:nth-child(1n+2) text{}", input, &[]), "b\nc\nd\ne\n");
    assert_eq!(run_extract("li:nth-child(2n+3) text{}", input, &[]), "c\ne\n");
    assert_eq!(run_extract("li:nth-child(2n+2) text{}", input, &[]), "b\nd\n");
    assert_eq!(run_extract("li:nth-child(0n+1) text{}", input, &[]), "a\n");
    assert_eq!(run_extract("li:nth-child(3n+1) text{}", input, &[]), "a\nd\n");
}

#[test]
fn attribute_presence_needs_no_pattern() {
    let input = "<html><body><a title=\"x\ny\">A</a><a>B</a></body></html>";
    assert_eq!(run_extract("a[title] text{}", input, &[]), "A\n");
}

#[test]
fn strict_selects_only_standard_elements() {
    let input = "<html><body><foo class=\"a\">F</foo><div class=\"a\">D</div></body></html>";
    assert_eq!(run_extract(".a text{}", input, &[]), "F\nD\n");
    assert_eq!(run_extract(".a text{}", input, &["-s"]), "D\n");
}

#[test]
fn json_string_values_keep_their_spaces() {
    let input = "<html><body><p>a  b</p></body></html>";
    let result = run_extract("p json{}", input, &[]);
    assert_eq!(result, "[\n {\n  \"tag\": \"p\",\n  \"text\": \"a  b\"\n }\n]\n");
}

#[test]
fn spaces_around_commands_change_nothing() {
    for line in ["a b", "w1 'w2 w3'", "h1 , .x", "p:contains(\"a b\")"] {
        assert_eq!(parse_commands(&format!(" {} ", line)).unwrap(), parse_commands(line).unwrap());
    }
}

#[test]
fn rejoined_tokens_split_the_same() {
    for line in ["w1,'w2 w3'", "h1 ,.x ,.y", "'w1 \\'w2' \"w3\"", "w1'w2 w3'''"] {
        let tokens = parse_commands(line).unwrap();
        assert_eq!(parse_commands(&tokens.join(" ")).unwrap(), tokens);
    }
}

#[test]
fn every_text_parses_to_a_tree() {
    for text in ["", "<<<>>", "</p>", "plain", "<p><b>unclosed", "<!-- x"] {
        let doc = parse_html(text).ok().unwrap();
        assert!(doc.len() >= 1);
        assert!(doc.parent(0).is_none());
    }
}

#[test]
fn pseudo_classes_parse_by_name() {
    let chars = |s: &str| -> Vec<char> { s.chars().collect() };
    let mut pos = 0;
    assert!(matches!(parse_pseudo_class(&chars("last-child"), &mut pos), Ok(Pseudo::LastChild)));
    assert_eq!(pos, 10);
    let mut pos = 1;
    assert!(matches!(parse_pseudo_class(&chars(":only-of-type"), &mut pos), Ok(Pseudo::OnlyOfType)));
    assert!(matches!(parse_parent_of_pseudo(&chars("em)")), Ok(Pseudo::ParentOf(_))));
    assert!(matches!(parse_not_pseudo(&chars("em)")), Ok(Pseudo::Not(_))));
    match parse_parent_of_pseudo(&chars("em")) {
        Err(e) => assert_eq!(e, "unmatched '('"),
        Ok(_) => panic!("no closing parenthesis"),
    }
}

#[test]
fn parent_of_looks_at_direct_children_only() {
    let input = "<html><body><div id=\"a\"><p><em>x</em></p></div></body></html>";
    assert_eq!(run_extract("div:parent-of(em)", input, &["-n"]), "0\n");
    assert_eq!(run_extract("div:parent-of(p)", input, &["-n"]), "1\n");
}
