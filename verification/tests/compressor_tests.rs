use code_context_builder::compress::SmartCompressOptions;
use code_context_builder::edits::{apply_edits, order_edits, rewrite, Edit};
use code_context_builder::python_compressor::{is_py_string_stmt, plan_python_edits, PythonCompressor};
use code_context_builder::syntax::{text_between, SyntaxNode};
use code_context_builder::tsx_compressor::{plan_tsx_edits, Capture, QueryMatch, TsxCompressor};
use tree_sitter::{Parser, Query, QueryCursor, TreeCursor};

const KEEP: SmartCompressOptions = SmartCompressOptions { remove_comments: false };
const STRIP: SmartCompressOptions = SmartCompressOptions { remove_comments: true };

fn node(kind: &str, field: Option<&str>, named: bool, start: usize, end: usize, children: Vec<SyntaxNode>) -> SyntaxNode {
    SyntaxNode {
        kind: kind.to_string(),
        field: field.map(|f| f.to_string()),
        named,
        start,
        end,
        children,
    }
}

fn edit(start: usize, end: usize, replacement: &str) -> Edit {
    Edit { start, end, replacement: replacement.as_bytes().to_vec() }
}

fn spans(edits: &[Edit]) -> Vec<(usize, usize, String)> {
    edits
        .iter()
        .map(|e| (e.start, e.end, String::from_utf8(e.replacement.clone()).unwrap()))
        .collect()
}

fn plain_tree(cursor: &mut TreeCursor) -> SyntaxNode {
    let n = cursor.node();
    let field = cursor.field_name().map(|name| name.to_string());
    let mut children = Vec::new();
    if cursor.goto_first_child() {
        loop {
            children.push(plain_tree(cursor));
            if !cursor.goto_next_sibling() {
                break;
            }
        }
        cursor.goto_parent();
    }
    SyntaxNode {
        kind: n.kind().to_string(),
        field,
        named: n.is_named(),
        start: n.start_byte(),
        end: n.end_byte(),
        children,
    }
}

fn parse_python(source: &str) -> SyntaxNode {
    let mut parser = Parser::new();
    parser.set_language(tree_sitter_python::language()).unwrap();
    let tree = parser.parse(source, None).unwrap();
    let mut cursor = tree.root_node().walk();
    plain_tree(&mut cursor)
}

fn query_tsx(source: &str) -> Vec<QueryMatch> {
    let language = tree_sitter_typescript::language_tsx();
    let mut parser = Parser::new();
    parser.set_language(language).unwrap();
    let tree = parser.parse(source, None).unwrap();
    let query = Query::new(
        language,
        r#"
        (comment) @comment
        (call_expression
          function: (identifier) @hook_name (#match? @hook_name "^use(Callback|Memo|Effect)$")
          arguments: (arguments (arrow_function body: (statement_block) @body)))
        (function_declaration
          name: (identifier) @func_name (#not-match? @func_name "^[A-Z]")
          body: (statement_block) @body)
        (lexical_declaration
          (variable_declarator
            name: (identifier) @func_name (#not-match? @func_name "^[A-Z]")
            value: (arrow_function body: (statement_block) @body)))
        "#,
    )
    .unwrap();
    let mut cursor = QueryCursor::new();
    let names = query.capture_names();
    cursor
        .matches(&query, tree.root_node(), source.as_bytes())
        .map(|m| QueryMatch {
            captures: m
                .captures
                .iter()
                .map(|cap| Capture {
                    name: names[cap.index as usize].clone(),
                    start: cap.node.start_byte(),
                    end: cap.node.end_byte(),
                    named_child_count: cap.node.named_child_count(),
                    child_count: cap.node.child_count(),
                })
                .collect(),
        })
        .collect()
}

fn python(source: &str, opts: &SmartCompressOptions) -> String {
    let tree = parse_python(source);
    PythonCompressor.compress(source, Some(&tree), opts)
}

fn tsx(source: &str, opts: &SmartCompressOptions) -> String {
    let matches = query_tsx(source);
    TsxCompressor.compress(source, Some(&matches), opts)
}

#[test]
fn text_between_cuts_at_character_boundaries_only() {
    let s = "aé-z";
    assert_eq!(text_between(s, 0, 5), Some("aé-z"));
    assert_eq!(text_between(s, 1, 3), Some("é"));
    assert_eq!(text_between(s, 3, 3), Some(""));
    assert_eq!(text_between(s, 1, 2), None);
    assert_eq!(text_between(s, 2, 4), None);
    assert_eq!(text_between(s, 3, 2), None);
    assert_eq!(text_between(s, 0, 6), None);
    assert_eq!(text_between("", 0, 0), Some(""));
}

#[test]
fn children_are_found_by_field_and_by_name() {
    let tree = node(
        "function_definition",
        None,
        true,
        0,
        20,
        vec![
            node("def", None, false, 0, 3, vec![]),
            node("identifier", Some("name"), true, 4, 5, vec![]),
            node("parameters", Some("parameters"), true, 5, 7, vec![]),
            node(":", None, false, 7, 8, vec![]),
            node("block", Some("body"), true, 13, 20, vec![]),
            node("block", Some("body"), true, 14, 20, vec![]),
        ],
    );
    assert_eq!(tree.child_by_field_name("name").map(|n| n.start), Some(4));
    assert_eq!(tree.child_by_field_name("body").map(|n| n.start), Some(13));
    assert!(tree.child_by_field_name("value").is_none());
    assert_eq!(tree.first_named_child().map(|n| n.kind.as_str()), Some("identifier"));
    assert_eq!(tree.named_child_count(), 4);
    let leaf = node(":", None, false, 7, 8, vec![node(",", None, false, 7, 8, vec![])]);
    assert!(leaf.first_named_child().is_none());
    assert_eq!(leaf.named_child_count(), 0);
}

#[test]
fn a_docstring_is_a_statement_that_is_a_string() {
    let string = node("string", None, true, 0, 5, vec![]);
    let joined = node("concatenated_string", None, true, 0, 5, vec![]);
    let call = node("call", None, true, 0, 5, vec![]);
    assert!(is_py_string_stmt(&node("expression_statement", None, true, 0, 5, vec![string])));
    assert!(is_py_string_stmt(&node("expression_statement", None, true, 0, 5, vec![joined])));
    assert!(!is_py_string_stmt(&node("expression_statement", None, true, 0, 5, vec![call])));
    assert!(!is_py_string_stmt(&node("expression_statement", None, true, 0, 5, vec![])));
    let string = node("string", None, true, 0, 5, vec![]);
    assert!(!is_py_string_stmt(&node("return_statement", None, true, 0, 5, vec![string])));
}

#[test]
fn edits_are_applied_from_the_end_backwards() {
    let ordered = order_edits(vec![edit(2, 3, "a"), edit(7, 8, "b"), edit(2, 4, "c"), edit(0, 1, "d")]);
    assert_eq!(
        spans(&ordered),
        vec![
            (7, 8, "b".to_string()),
            (2, 4, "c".to_string()),
            (2, 3, "a".to_string()),
            (0, 1, "d".to_string()),
        ]
    );
    assert!(order_edits(Vec::new()).is_empty());
    let out = apply_edits(b"0123456789".to_vec(), &ordered, false);
    // 7..8 -> b, then 2..4 -> c, then 2..3 (now the c) -> a, then 0..1 -> d
    assert_eq!(out, b"d1a456b89".to_vec());
    assert_eq!(
        rewrite(b"0123456789", vec![edit(2, 3, "a"), edit(7, 8, "b"), edit(2, 4, "c"), edit(0, 1, "d")], false),
        "d1a456b89"
    );
}

#[test]
fn an_edit_that_no_longer_fits_is_left_out() {
    // the first edit shortens the text, so that the span of the second lies beyond its end
    let ordered = order_edits(vec![edit(0, 9, ""), edit(0, 10, "xy")]);
    assert_eq!(spans(&ordered), vec![(0, 10, "xy".to_string()), (0, 9, String::new())]);
    assert_eq!(rewrite(b"0123456789", vec![edit(0, 9, ""), edit(0, 10, "xy")], false), "xy");
    assert_eq!(rewrite(b"0123456789", vec![edit(0, 10, "xy"), edit(0, 9, "")], false), "9");
    // an empty span inserts in lenient mode and does nothing in strict mode
    assert_eq!(rewrite(b"abc", vec![edit(1, 1, "-")], false), "a-bc");
    assert_eq!(rewrite(b"abc", vec![edit(1, 1, "-")], true), "abc");
    // bytes that are no text come out with the replacement character
    assert_eq!(rewrite(&[b'a', 0xff, b'b'], Vec::new(), true), "a\u{fffd}b");
}

#[test]
fn a_one_line_body_gives_way_to_an_ellipsis() {
    assert_eq!(python("def f(x):\n    return x\n", &KEEP), "def f(x):\n     ...");
    assert_eq!(python("def f(x): return x\n", &KEEP), "def f(x):  ...");
}

#[test]
fn a_body_of_several_lines_gives_way_to_an_ellipsis_on_its_own_line() {
    let source = "def f(x):\n    y = x\n    return y\n\nz = 1\n";
    assert_eq!(python(source, &KEEP), "def f(x):\n    \n    ...\n\nz = 1");
    let tree = parse_python(source);
    let edits = plan_python_edits(source, &tree, false);
    assert_eq!(spans(&edits), vec![(14, 32, "\n    ...".to_string())]);
}

#[test]
fn a_docstring_stays_before_the_ellipsis() {
    let source = "def f():\n    \"\"\"Doc.\"\"\"\n    return 1\n";
    assert_eq!(python(source, &KEEP), "def f():\n    \"\"\"Doc.\"\"\"\n    ...");
    // a body that is nothing but its docstring stays
    let only = "def f():\n    \"\"\"Doc.\"\"\"\n";
    assert_eq!(python(only, &KEEP), "def f():\n    \"\"\"Doc.\"\"\"");
}

#[test]
fn the_initializer_keeps_its_body() {
    let source = "class A:\n    def __init__(self):\n        self.x = 1\n    def get(self):\n        return self.x\n";
    assert_eq!(
        python(source, &KEEP),
        "class A:\n    def __init__(self):\n        self.x = 1\n    def get(self):\n         ..."
    );
}

#[test]
fn python_comments_go_with_their_lines() {
    let source = "x = 1\n# full line\ny = 2  # trailing\nz = 3\n";
    assert_eq!(python(source, &STRIP), "x = 1\nz = 3");
    assert_eq!(python(source, &KEEP), "x = 1\n# full line\ny = 2  # trailing\nz = 3");
}

#[test]
fn a_source_without_tree_stays_as_it_is() {
    assert_eq!(PythonCompressor.compress("def f(): pass\n", None, &STRIP), "def f(): pass\n");
    assert_eq!(TsxCompressor.compress("let a = 1;\n\n\n", None, &STRIP), "let a = 1;\n\n\n");
}

#[test]
fn bodies_of_plain_functions_give_way_to_an_ellipsis() {
    let source = "function helper(a) {\n  return a + 1;\n}\n";
    assert_eq!(tsx(source, &KEEP), "function helper(a) { ... }");
    let source = "const add = (a, b) => {\n  return a + b;\n};\n";
    assert_eq!(tsx(source, &KEEP), "const add = (a, b) => { ... };");
}

#[test]
fn components_keep_their_bodies_and_hooks_lose_theirs() {
    let source = "function App() {\n  useEffect(() => {\n    run();\n  }, []);\n  return null;\n}\n";
    assert_eq!(
        tsx(source, &KEEP),
        "function App() {\n  useEffect(() => { ... }, []);\n  return null;\n}"
    );
}

#[test]
fn an_empty_body_is_left_alone() {
    let source = "function noop() {}\n";
    assert_eq!(tsx(source, &KEEP), "function noop() {}");
    assert!(plan_tsx_edits(&query_tsx(source), false).is_empty());
}

#[test]
fn tsx_comments_go_on_request() {
    let source = "// top\nconst a = 1; /* in line */\n";
    assert_eq!(tsx(source, &STRIP), "\nconst a = 1; ");
    assert_eq!(tsx(source, &KEEP), "// top\nconst a = 1; /* in line */");
}

#[test]
fn the_last_body_of_a_match_counts() {
    let cap = |name: &str, start: usize, end: usize, named: usize, all: usize| Capture {
        name: name.to_string(),
        start,
        end,
        named_child_count: named,
        child_count: all,
    };
    let matches = vec![
        QueryMatch { captures: vec![cap("comment", 0, 4, 0, 0)] },
        QueryMatch {
            captures: vec![cap("func_name", 5, 6, 0, 0), cap("body", 7, 9, 1, 3), cap("body", 10, 20, 2, 4)],
        },
        QueryMatch { captures: vec![cap("body", 30, 32, 0, 2)] },
        QueryMatch { captures: vec![cap("body", 40, 45, 0, 3)] },
    ];
    assert_eq!(
        spans(&plan_tsx_edits(&matches, true)),
        vec![(0, 4, String::new()), (10, 20, "{ ... }".to_string()), (40, 45, "{ ... }".to_string())]
    );
    assert_eq!(
        spans(&plan_tsx_edits(&matches, false)),
        vec![(10, 20, "{ ... }".to_string()), (40, 45, "{ ... }".to_string())]
    );
}
