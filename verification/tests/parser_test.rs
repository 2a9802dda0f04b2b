use html_extract::parser::parse_commands;

struct ParseCmdTest {
    input: &'static str,
    expected: Vec<&'static str>,
    ok: bool,
}

fn slice_eq(s1: &[String], s2: &[&str]) -> bool {
    if s1.len() != s2.len() {
        return false;
    }
    for i in 0..s1.len() {
        if s1[i] != s2[i] {
            return false;
        }
    }
    true
}

#[test]
fn test_parse_commands() {
    let tests = vec![
        ParseCmdTest { input: "w1 w2", expected: vec!["w1", "w2"], ok: true },
        ParseCmdTest { input: "w1 w2 w3", expected: vec!["w1", "w2", "w3"], ok: true },
        ParseCmdTest { input: "w1 'w2 w3'", expected: vec!["w1", "'w2 w3'"], ok: true },
        ParseCmdTest { input: "w1 \"w2 w3\"", expected: vec!["w1", "\"w2 w3\""], ok: true },
        ParseCmdTest { input: "w1   \"w2 w3\"", expected: vec!["w1", "\"w2 w3\""], ok: true },
        ParseCmdTest { input: "w1   'w2 w3'", expected: vec!["w1", "'w2 w3'"], ok: true },
        ParseCmdTest { input: "w1\"w2 w3\"", expected: vec!["w1\"w2 w3\""], ok: true },
        ParseCmdTest { input: "w1'w2 w3'", expected: vec!["w1'w2 w3'"], ok: true },
        ParseCmdTest { input: "w1\"w2 'w3\"", expected: vec!["w1\"w2 'w3\""], ok: true },
        ParseCmdTest { input: "w1'w2 \"w3'", expected: vec!["w1'w2 \"w3'"], ok: true },
        ParseCmdTest { input: "\"w1 w2\" \"w3\"", expected: vec!["\"w1 w2\"", "\"w3\""], ok: true },
        ParseCmdTest { input: "'w1 w2' \"w3\"", expected: vec!["'w1 w2'", "\"w3\""], ok: true },
        ParseCmdTest { input: "'w1 \\'w2' \"w3\"", expected: vec!["'w1 \\'w2'", "\"w3\""], ok: true },
        ParseCmdTest { input: "'w1 \\'w2 \"w3\"", expected: vec![], ok: false },
        ParseCmdTest { input: "w1 'w2 w3'\"", expected: vec![], ok: false },
        ParseCmdTest { input: "w1 \"w2 w3\"'", expected: vec![], ok: false },
        ParseCmdTest { input: "w1 '  \"w2 w3\"", expected: vec![], ok: false },
        ParseCmdTest { input: "w1 \"  'w2 w3'", expected: vec![], ok: false },
        ParseCmdTest { input: "w1\"w2 w3\"\"", expected: vec![], ok: false },
        ParseCmdTest { input: "w1'w2 w3'''", expected: vec!["w1'w2 w3'''"], ok: true },
        ParseCmdTest { input: "w1\"w2 'w3\"\"", expected: vec![], ok: false },
        ParseCmdTest { input: "w1\"w2 'w3\"\"", expected: vec![], ok: false },
        ParseCmdTest { input: "\"w1 w2\" \"w3\"'", expected: vec![], ok: false },
        ParseCmdTest { input: "'w1 w2' \"w3\"'", expected: vec![], ok: false },
        ParseCmdTest { input: "w1,\"w2 w3\"", expected: vec!["w1", ",", "\"w2 w3\""], ok: true },
        ParseCmdTest { input: "w1,'w2 w3'", expected: vec!["w1", ",", "'w2 w3'"], ok: true },
        ParseCmdTest { input: "w1  ,  \"w2 w3\"", expected: vec!["w1", ",", "\"w2 w3\""], ok: true },
        ParseCmdTest { input: "w1  ,  'w2 w3'", expected: vec!["w1", ",", "'w2 w3'"], ok: true },
        ParseCmdTest { input: "w1,  \"w2 w3\"", expected: vec!["w1", ",", "\"w2 w3\""], ok: true },
        ParseCmdTest { input: "w1,  'w2 w3'", expected: vec!["w1", ",", "'w2 w3'"], ok: true },
        ParseCmdTest { input: "w1  ,\"w2 w3\"", expected: vec!["w1", ",", "\"w2 w3\""], ok: true },
        ParseCmdTest { input: "w1  ,'w2 w3'", expected: vec!["w1", ",", "'w2 w3'"], ok: true },
        ParseCmdTest { input: "w1\"w2, w3\"", expected: vec!["w1\"w2, w3\""], ok: true },
        ParseCmdTest { input: "w1'w2, w3'", expected: vec!["w1'w2, w3'"], ok: true },
        ParseCmdTest { input: "w1\"w2, 'w3\"", expected: vec!["w1\"w2, 'w3\""], ok: true },
        ParseCmdTest { input: "w1'w2, \"w3'", expected: vec!["w1'w2, \"w3'"], ok: true },
        ParseCmdTest { input: "\"w1, w2\" \"w3\"", expected: vec!["\"w1, w2\"", "\"w3\""], ok: true },
        ParseCmdTest { input: "'w1, w2' \"w3\"", expected: vec!["'w1, w2'", "\"w3\""], ok: true },
        ParseCmdTest { input: "'w1, \\'w2' \"w3\"", expected: vec!["'w1, \\'w2'", "\"w3\""], ok: true },
        ParseCmdTest { input: "h1, .article-teaser, .article-content", expected: vec!["h1", ",", ".article-teaser", ",", ".article-content"], ok: true },
        ParseCmdTest { input: "h1 ,.article-teaser ,.article-content", expected: vec!["h1", ",", ".article-teaser", ",", ".article-content"], ok: true },
        ParseCmdTest { input: "h1 , .article-teaser , .article-content", expected: vec!["h1", ",", ".article-teaser", ",", ".article-content"], ok: true },
    ];

    for test in &tests {
        let result = parse_commands(test.input);
        if test.ok {
            match result {
                Ok(parsed) => {
                    if !slice_eq(&parsed, &test.expected) {
                        panic!("`{}`: expected {:?}, got {:?}", test.input, test.expected, parsed);
                    }
                }
                Err(e) => {
                    panic!("`{}`: should not error but got: {}", test.input, e);
                }
            }
        } else if result.is_ok() {
            panic!("`{}`: should have caused error", test.input);
        }
    }
}
