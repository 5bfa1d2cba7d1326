use serde_json::Value;
use treereduce::check::is_marker;
use treereduce::node_types::{FieldSchema, NodeSchema, NodeTypes, Subtype};
use treereduce::plan::Replacements;
use treereduce::render::render;
use treereduce::{
    Alter, Check, Edits, NodeId, Original, Reducer, Reduction, Resolution, SyntaxTree, Task,
};

struct FnCheck<F: Fn(&[u8]) -> bool>(F);

impl<F: Fn(&[u8]) -> bool> Check for FnCheck<F> {
    type State = bool;

    fn start(&self, stdin: &[u8]) -> std::io::Result<bool> {
        Ok((self.0)(stdin))
    }

    fn cancel(&self, _state: bool) -> std::io::Result<()> {
        Ok(())
    }

    fn try_wait(&self, state: &mut bool) -> std::io::Result<Option<bool>> {
        Ok(Some(*state))
    }

    fn wait(&self, state: bool) -> std::io::Result<bool> {
        Ok(state)
    }
}

fn subtype_list(v: Option<&Value>) -> Vec<Subtype> {
    match v.and_then(|a| a.as_array()) {
        Some(items) => items
            .iter()
            .map(|s| Subtype {
                ty: s["type"].as_str().unwrap().to_string(),
                named: s["named"].as_bool().unwrap_or(false),
            })
            .collect(),
        None => Vec::new(),
    }
}

fn field(v: &Value) -> FieldSchema {
    FieldSchema {
        multiple: v["multiple"].as_bool().unwrap_or(false),
        required: v["required"].as_bool().unwrap_or(false),
        types: subtype_list(v.get("types")),
    }
}

fn c_node_types() -> NodeTypes {
    let json: Value = serde_json::from_str(tree_sitter_c::NODE_TYPES).unwrap();
    let mut schema = Vec::new();
    for n in json.as_array().unwrap() {
        let fields = match n.get("fields").and_then(|f| f.as_object()) {
            Some(o) => o.iter().map(|(k, f)| (k.clone(), field(f))).collect(),
            None => Vec::new(),
        };
        schema.push(NodeSchema {
            ty: n["type"].as_str().unwrap().to_string(),
            named: n["named"].as_bool().unwrap_or(false),
            children: match n.get("children") {
                Some(c) => field(c),
                None => FieldSchema {
                    multiple: false,
                    required: false,
                    types: Vec::new(),
                },
            },
            fields,
            subtypes: subtype_list(n.get("subtypes")),
        });
    }
    NodeTypes::from_schema(schema)
}

fn add(tree: &mut SyntaxTree, node: &tree_sitter::Node, parent: Option<NodeId>) {
    let id = tree
        .add_node(
            parent,
            node.kind().to_string(),
            node.start_byte(),
            node.end_byte(),
        )
        .unwrap();
    let mut cursor = node.walk();
    for child in node.children(&mut cursor) {
        add(tree, &child, Some(id));
    }
}

fn parse_c(src: &str) -> Original {
    let mut parser = tree_sitter::Parser::new();
    parser.set_language(tree_sitter_c::language()).unwrap();
    let ts = parser.parse(src, None).unwrap();
    let mut tree = SyntaxTree::new();
    add(&mut tree, &ts.root_node(), None);
    Original::new(tree, src.as_bytes().to_vec()).unwrap()
}

fn c_replacements() -> Replacements {
    let table: [(&str, &[&str]); 6] = [
        ("compound_statement", &["{}"]),
        ("number_literal", &["0"]),
        ("parameter_list", &["()"]),
        ("primitive_type", &["int"]),
        ("return_statement", &["return;"]),
        ("string_literal", &["\"\""]),
    ];
    let mut r = Replacements::new();
    for (kind, alts) in table {
        r.entries.push((
            kind.to_string(),
            alts.iter().map(|a| a.as_bytes().to_vec()).collect(),
        ));
    }
    r
}

fn reduce_once(src: &str, min: usize, check: &dyn Fn(&[u8]) -> bool) -> (Vec<u8>, bool) {
    let orig = parse_c(src);
    let mut r = Reducer::new(c_node_types(), orig, min, c_replacements());
    while let Some(t) = r.pop_task() {
        match t.task {
            Task::Explore(n) => {
                assert!(n.id < r.node_count());
                r.explore(n)
            }
            Task::Reduce(red) => loop {
                let a = r.prepare(&red).unwrap();
                let verdict = check(&a.rendered);
                if r.resolve(&red, &a, verdict) != Resolution::Stale {
                    break;
                }
            },
        }
    }
    let out = render(r.original(), r.edits());
    let empty = r.edits().is_empty();
    (out, empty)
}

fn reduce_to_fixpoint(src: &str, check: &dyn Fn(&[u8]) -> bool) -> String {
    let mut text = src.to_string();
    for _ in 0..10 {
        let (out, empty) = reduce_once(&text, 1, check);
        text = String::from_utf8(out).unwrap();
        if empty {
            break;
        }
    }
    text
}

fn contains(hay: &[u8], needle: &str) -> bool {
    hay.windows(needle.len()).any(|w| w == needle.as_bytes())
}

fn render_alter(src: &str, alter: &Alter) -> Vec<u8> {
    let orig = parse_c(src);
    render(&orig, alter.edits())
}

#[test]
fn test_optional() {
    let nt = c_node_types();
    assert!(nt.optional(&"_expression".to_string(), &"return_statement".to_string()));
    assert!(!nt.optional(&"compound_statement".to_string(), &"function_definition".to_string()));
}

#[test]
fn parse_then_render_nil() {
    let src = r#""#;
    let r = render_alter(src, &Alter::new());
    assert!(src.as_bytes() == r)
}

#[test]
fn parse_then_render_main_id() {
    let src = r#"int main(int argc, char *argv[]) { return 0; }"#;
    let r = render_alter(src, &Alter::new());
    assert!(src.as_bytes() == r)
}

#[test]
fn parse_then_render_main_omit() {
    let src = r#"int main(int argc, char *argv[]) { return 0; }"#;
    let alter = Alter::new().omit_id(NodeId { id: 0 });
    let r = render_alter(src, &alter);
    assert!("".as_bytes() == r)
}

#[test]
fn render_replaces_and_omits() {
    let src = "int main(){ return 0; }";
    let orig = parse_c(src);
    let mut ret = None;
    let mut body = None;
    for i in 0..orig.tree.len() {
        let n = orig.tree.node(NodeId { id: i });
        if n.kind == "return_statement" {
            ret = Some(i);
        }
        if n.kind == "compound_statement" {
            body = Some(i);
        }
    }
    let omit = Edits::new().omit_id(NodeId { id: ret.unwrap() });
    assert_eq!(render(&orig, &omit), b"int main(){  }".to_vec());
    let both = Edits::new()
        .replace_id(NodeId { id: body.unwrap() }, b"{}".to_vec())
        .omit_id(NodeId { id: ret.unwrap() });
    assert_eq!(render(&orig, &both), b"int main(){}".to_vec());
}

#[test]
fn trivial_delete() {
    let (out, empty) = reduce_once("int main(){ return 0; }", 2, &|b: &[u8]| contains(b, "main"));
    assert_eq!(String::from_utf8(out).unwrap(), "int main(){}");
    assert!(!empty);
}

fn parses_cleanly(b: &[u8]) -> bool {
    let mut parser = tree_sitter::Parser::new();
    parser.set_language(tree_sitter_c::language()).unwrap();
    match parser.parse(b, None) {
        Some(t) => !t.root_node().has_error(),
        None => false,
    }
}

#[test]
fn delete_all_parameters() {
    let check = |b: &[u8]| contains(b, "int f(") && parses_cleanly(b);
    let out = reduce_to_fixpoint("int f(int a, int b, int c){}", &check);
    assert_eq!(out, "int f(){}");
}

#[test]
fn replace_number_literal() {
    let check = |b: &[u8]| contains(b, "int x = ") && contains(b, ";") && b.len() >= 10;
    let (out, _) = reduce_once("int x = 42;", 1, &check);
    assert_eq!(String::from_utf8(out).unwrap(), "int x = 0;");
}

#[test]
fn nested_blocks_reduce_to_empty_block() {
    let check = |b: &[u8]| {
        let opens = b.iter().filter(|c| **c == b'{').count();
        let closes = b.iter().filter(|c| **c == b'}').count();
        opens == closes && opens > 0
    };
    let out = reduce_to_fixpoint("{ { { return 0; } } }", &check);
    assert_eq!(out.trim(), "{}");
}

#[test]
fn output_no_longer_and_interesting() {
    let src = "int g(int a){ return a + 1; }\nint main(){ return g(2); }\n";
    let check = |b: &[u8]| contains(b, "main");
    let (out, _) = reduce_once(src, 2, &check);
    assert!(out.len() <= src.len());
    assert!(check(&out));
}

#[test]
fn never_interesting_keeps_input() {
    let src = "int main(){ return 0; }";
    let (out, empty) = reduce_once(src, 2, &|_b: &[u8]| false);
    assert_eq!(out, src.as_bytes().to_vec());
    assert!(empty);
    let (again, empty_again) = reduce_once(std::str::from_utf8(&out).unwrap(), 2, &|_b: &[u8]| false);
    assert_eq!(again, out);
    assert!(empty_again);
}

#[test]
fn stale_attempt_is_not_committed() {
    let orig = parse_c("int main(){ return 0; }");
    let mut r = Reducer::new(c_node_types(), orig, 1, c_replacements());
    let first = Reduction::Delete(NodeId { id: 1 });
    let second = Reduction::Delete(NodeId { id: 2 });
    let a = r.prepare(&first).unwrap();
    let b = r.prepare(&second).unwrap();
    assert_eq!(a.version, 0);
    assert_eq!(r.resolve(&first, &a, true), Resolution::Accepted);
    assert_eq!(r.version(), 1);
    assert_eq!(r.resolve(&second, &b, true), Resolution::Stale);
    assert_eq!(r.version(), 1);
    assert!(r.edits().should_omit_id(&NodeId { id: 1 }));
    assert!(!r.edits().should_omit_id(&NodeId { id: 2 }));
}

#[test]
fn invalid_reduction_is_refused() {
    let orig = parse_c("int main(){ return 0; }");
    let r = Reducer::new(c_node_types(), orig, 1, c_replacements());
    let n = r.node_count();
    assert!(r.prepare(&Reduction::Delete(NodeId { id: n })).is_none());
    assert!(r
        .prepare(&Reduction::Replace(NodeId { id: 0 }, vec![b'x'; 100]))
        .is_none());
}

#[test]
fn marker_arguments() {
    assert!(is_marker("@@"));
    assert!(is_marker("@@.c"));
    assert!(!is_marker("@"));
    assert!(!is_marker("x@@"));
}

#[test]
fn run_on_one_thread() {
    let src = "int main(){ return 0; }";
    let mut r = Reducer::new(c_node_types(), parse_c(src), 2, c_replacements());
    r.run(&FnCheck(|b: &[u8]| contains(b, "main"))).unwrap();
    assert!(r.is_idle());
    assert_eq!(render(r.original(), r.edits()), b"int main(){}".to_vec());
    assert!(r.version() >= 1);
    let edits = r.finish();
    assert!(!edits.is_empty());
}

#[test]
fn run_below_minimum_never_checks() {
    let mut r = Reducer::new(c_node_types(), parse_c("int x;"), 100, c_replacements());
    let rounds = r
        .run(&FnCheck(|_b: &[u8]| -> bool { panic!("the check must not run") }))
        .unwrap();
    assert_eq!(rounds, 0);
    assert!(r.is_idle());
    assert!(r.edits().is_empty());
}

#[test]
fn explore_schedules_plan_once() {
    let orig = parse_c("int main(){ return 0; }");
    let mut r = Reducer::new(c_node_types(), orig, 1, c_replacements());
    let root = r.pop_task().unwrap();
    assert_eq!(root.task, Task::Explore(NodeId { id: 0 }));
    r.explore(NodeId { id: 0 });
    let t = r.pop_task().unwrap();
    assert_eq!(t.task, Task::Reduce(Reduction::Delete(NodeId { id: 0 })));
    assert_eq!(t.priority, 23);
    assert!(r.pop_task().is_none());
}

#[test]
fn subtypes_start_with_kind_without_repeats() {
    let nt = c_node_types();
    let subs = nt.subtypes(&"_expression".to_string());
    assert_eq!(subs[0], "_expression");
    assert!(subs.iter().any(|s| s == "number_literal"));
    let mut sorted = subs.clone();
    sorted.sort();
    sorted.dedup();
    assert_eq!(sorted.len(), subs.len());
}
