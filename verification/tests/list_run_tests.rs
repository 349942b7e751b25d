//! The `list` command run end to end against an in-memory hierarchy: the
//! root is checked, the tree assembled from the files found, and the output
//! produced as the program prints it.

use std::collections::BTreeMap;

use cgtree::cgroup::{ensure_v2, v1_controllers};
use cgtree::cli::{plan_run, Action, Command, Format};
use cgtree::data::{interface_fields, make_node, CgroupData, CgroupNode};
use cgtree::list::{render, to_json, JsonNode};
use serde_json::Value;

const ROOT: &str = "/cgtree-list";

/// Directories (relative to the root, `""` for the root) and their files.
struct Fixture {
    dirs: BTreeMap<String, Vec<(String, String)>>,
}

impl Fixture {
    fn new() -> Self {
        let mut dirs = BTreeMap::new();
        dirs.insert(String::new(), Vec::new());
        Fixture { dirs }
    }

    fn rel(path: &str) -> String {
        if path == "." {
            String::new()
        } else {
            path.to_string()
        }
    }

    fn root(&self) -> &str {
        ROOT
    }

    /// Creates a cgroup directory with cgroup.controllers and optional fields.
    fn add(&mut self, path: &str, fields: &[(&str, &str)]) {
        let mut files = vec![
            ("cgroup.controllers".to_string(), "cpu memory pids\n".to_string()),
            ("cgroup.procs".to_string(), "1000\n".to_string()),
        ];
        for (name, value) in fields {
            files.push((name.to_string(), format!("{}\n", value)));
        }
        self.dirs.insert(Self::rel(path), files);
    }

    /// Creates a plain directory holding the given files.
    fn add_plain(&mut self, path: &str, files: &[(&str, &str)]) {
        let files = files
            .iter()
            .map(|(n, v)| (n.to_string(), v.to_string()))
            .collect();
        self.dirs.insert(Self::rel(path), files);
    }

    fn has_file(&self, dir: &str, name: &str) -> bool {
        self.dirs
            .get(dir)
            .is_some_and(|files| files.iter().any(|(n, _)| n == name))
    }

    fn node(&self, rel: &str) -> CgroupNode {
        let child_rels: Vec<String> = self
            .dirs
            .keys()
            .filter(|k| {
                !k.is_empty()
                    && match k.rfind('/') {
                        Some(i) => &k[..i] == rel,
                        None => rel.is_empty(),
                    }
            })
            .cloned()
            .collect();
        let files = self.dirs[rel].clone();
        let children = child_rels.iter().map(|c| self.node(c)).collect();
        let (name, path) = if rel.is_empty() {
            (ROOT.to_string(), ROOT.to_string())
        } else {
            let name = rel.rsplit('/').next().unwrap().to_string();
            (name, format!("{ROOT}/{rel}"))
        };
        let procs = files
            .iter()
            .find(|(n, _)| n == "cgroup.procs")
            .map(|(_, v)| v.clone());
        let reads = files.into_iter().map(|(n, v)| (n, Ok(v))).collect();
        make_node(name, path.into_bytes(), procs, interface_fields(reads), children)
    }

    /// Runs the command with the root at `root` as the program would on a
    /// pipe, returning what goes to stdout and stderr, and whether it
    /// succeeded.
    fn run_at(&self, root: &str, command: Option<Command>) -> (String, String, bool) {
        let exists = root == ROOT;
        let has_controllers = exists && self.has_file("", "cgroup.controllers");
        let v1_tasks: Vec<bool> = if exists && !has_controllers {
            v1_controllers()
                .iter()
                .map(|c| self.has_file(c, "tasks"))
                .collect()
        } else {
            Vec::new()
        };
        if let Err(e) = ensure_v2(root, exists, has_controllers, &v1_tasks) {
            return (String::new(), format!("cgtree: {}\n", e.message()), false);
        }
        let data = CgroupData { root: self.node("") };
        let out = match plan_run(command, false) {
            Action::PrintText { depth, props } => {
                let mut out = String::new();
                render(&data, depth, &props, &mut out);
                out
            }
            Action::PrintJson { depth, props } => {
                let json = to_json(&data, depth, &props);
                let mut m = serde_json::Map::new();
                m.insert("root".to_string(), json_value(&json.root));
                format!(
                    "{}\n",
                    serde_json::to_string_pretty(&Value::Object(m)).unwrap()
                )
            }
            Action::Explore => panic!("the explorer needs a terminal"),
        };
        (out, String::new(), true)
    }

    fn run(&self, command: Option<Command>) -> (String, String, bool) {
        self.run_at(ROOT, command)
    }
}

/// The JSON value of a node, with empty field and child lists left out.
fn json_value(node: &JsonNode) -> Value {
    let mut m = serde_json::Map::new();
    m.insert("name".to_string(), Value::String(node.name.clone()));
    m.insert("path".to_string(), Value::String(node.path.clone()));
    if !node.fields.is_empty() {
        let fields = node
            .fields
            .iter()
            .map(|f| {
                let mut fm = serde_json::Map::new();
                fm.insert("name".to_string(), Value::String(f.name.clone()));
                fm.insert("value".to_string(), Value::String(f.value.clone()));
                Value::Object(fm)
            })
            .collect();
        m.insert("fields".to_string(), Value::Array(fields));
    }
    if !node.children.is_empty() {
        let children = node.children.iter().map(json_value).collect();
        m.insert("children".to_string(), Value::Array(children));
    }
    Value::Object(m)
}

fn list(depth: Option<usize>, props: &[&str], format: Format) -> Option<Command> {
    Some(Command::List {
        depth,
        props: props.iter().map(|s| s.to_string()).collect(),
        format,
    })
}

fn text() -> Option<Command> {
    list(None, &[], Format::Text)
}

fn props(p: &[&str]) -> Option<Command> {
    list(None, p, Format::Text)
}

fn depth(d: usize) -> Option<Command> {
    list(Some(d), &[], Format::Text)
}

#[test]
fn list_basic_tree() {
    let mut f = Fixture::new();
    f.add(".", &[]);
    f.add("init.scope", &[]);
    f.add("system.slice", &[]);
    f.add("system.slice/ssh.service", &[]);

    let (out, _, ok) = f.run(text());

    assert!(ok, "command should succeed");
    let expected = format!(
        "{}/\n├── init.scope\n└── system.slice/\n    └── ssh.service\n",
        f.root()
    );
    assert_eq!(out, expected);
}

#[test]
fn list_with_depth() {
    let mut f = Fixture::new();
    f.add(".", &[]);
    f.add("level1", &[]);
    f.add("level1/level2", &[]);
    f.add("level1/level2/level3", &[]);

    let (out, _, ok) = f.run(depth(1));
    assert!(ok);
    let expected = format!("{}/\n└── level1/\n", f.root());
    assert_eq!(out, expected);

    let (out, _, ok) = f.run(depth(2));
    assert!(ok);
    let expected = format!("{}/\n└── level1/\n    └── level2/\n", f.root());
    assert_eq!(out, expected);
}

#[test]
fn list_with_props() {
    let mut f = Fixture::new();
    f.add(".", &[("memory.max", "max"), ("cpu.weight", "100")]);

    let (out, _, ok) = f.run(props(&["memory.max"]));
    assert!(ok);

    let expected = format!("{}\n    memory.max = max\n", f.root());
    assert_eq!(out, expected);
}

#[test]
fn list_props_substring_match() {
    let mut f = Fixture::new();
    f.add(".", &[("memory.swap.max", "123"), ("memory.max", "456")]);

    let (out, _, ok) = f.run(props(&["swap"]));
    assert!(ok);

    let expected = format!("{}\n    memory.swap.max = 123\n", f.root());
    assert_eq!(out, expected);
}

#[test]
fn list_props_star() {
    let mut f = Fixture::new();
    f.add(".", &[("memory.max", "max"), ("cpu.weight", "100")]);

    let (out, _, ok) = f.run(props(&["*"]));
    assert!(ok);

    let expected = format!(
        "{}\n    cgroup.controllers = cpu memory pids\n    cgroup.procs = 1000\n    cpu.weight = 100\n    memory.max = max\n",
        f.root()
    );
    assert_eq!(out, expected);
}

#[test]
fn list_multiline_values() {
    let mut f = Fixture::new();
    f.add(".", &[("memory.stat", "anon 1024\nfile 2048")]);

    let (out, _, ok) = f.run(props(&["memory.stat"]));
    assert!(ok);

    let expected = format!(
        "{}\n    memory.stat =\n        anon 1024\n        file 2048\n",
        f.root()
    );
    assert_eq!(out, expected);
}

#[test]
fn list_multiple_prop_filters() {
    let mut f = Fixture::new();
    f.add(
        ".",
        &[
            ("memory.max", "max"),
            ("memory.swap.max", "max"),
            ("cpu.weight", "100"),
            ("cpu.max", "100000 100000"),
            ("pids.max", "max"),
        ],
    );

    let (out, _, ok) = f.run(props(&["memory.max", "cpu.weight"]));
    assert!(ok);

    let expected = format!("{}\n    cpu.weight = 100\n    memory.max = max\n", f.root());
    assert_eq!(out, expected);
}

#[test]
fn list_no_props_by_default() {
    let mut f = Fixture::new();
    f.add(".", &[("memory.max", "max"), ("cpu.weight", "100")]);
    f.add("child", &[]);

    let (out, _, ok) = f.run(text());
    assert!(ok);

    let expected = format!("{}/\n└── child\n", f.root());
    assert_eq!(out, expected);
}

#[test]
fn json_output() {
    let mut f = Fixture::new();
    f.add(".", &[]);
    f.add("child", &[]);

    let (out, _, ok) = f.run(list(None, &[], Format::Json));
    assert!(ok);

    let json: Value = serde_json::from_str(&out).expect("valid JSON");

    assert_eq!(json["root"]["name"], f.root().to_string());
    assert_eq!(json["root"]["path"], f.root().to_string());

    let children = json["root"]["children"].as_array().unwrap();
    assert_eq!(children.len(), 1);
    assert_eq!(children[0]["name"], "child");
}

#[test]
fn json_with_props() {
    let mut f = Fixture::new();
    f.add(".", &[("memory.max", "max")]);

    let (out, _, ok) = f.run(list(None, &["memory.max"], Format::Json));
    assert!(ok);

    let json: Value = serde_json::from_str(&out).unwrap();

    let fields = json["root"]["fields"].as_array().unwrap();
    assert_eq!(fields.len(), 1);
    assert_eq!(fields[0]["name"], "memory.max");
    assert_eq!(fields[0]["value"], "max");
}

#[test]
fn list_test_json_respects_depth() {
    let mut f = Fixture::new();
    f.add(".", &[]);
    f.add("a", &[]);
    f.add("a/b", &[]);

    let (out, _, ok) = f.run(list(Some(1), &[], Format::Json));
    assert!(ok);

    let json: Value = serde_json::from_str(&out).unwrap();

    let children = json["root"]["children"].as_array().unwrap();
    assert_eq!(children.len(), 1);
    assert_eq!(children[0]["name"], "a");

    let grandchildren = children[0].get("children");
    assert!(grandchildren.is_none() || grandchildren.unwrap().as_array().unwrap().is_empty());
}

#[test]
fn error_nonexistent_root() {
    let f = Fixture::new();
    let (out, err, ok) = f.run_at("/nonexistent/path", text());
    assert!(!ok);
    assert_eq!(out, "");
    assert_eq!(
        err,
        "cgtree: /nonexistent/path does not exist or is not a directory\n"
    );
}

#[test]
fn error_not_cgroup() {
    let f = Fixture::new();
    let (out, err, ok) = f.run(text());
    assert!(!ok);
    assert_eq!(out, "");
    assert_eq!(
        err,
        format!(
            "cgtree: {} does not look like a cgroup v2 hierarchy (no cgroup.controllers file)\n",
            f.root()
        )
    );
}

#[test]
fn error_cgroup_v1() {
    let mut f = Fixture::new();
    for controller in ["cpu", "memory"] {
        f.add_plain(controller, &[("tasks", "")]);
    }

    let (out, err, ok) = f.run(text());
    assert!(!ok);
    assert_eq!(out, "");
    assert_eq!(
        err,
        format!(
            "cgtree: {} is a cgroup v1 hierarchy; cgtree only supports cgroup v2 (unified)\n",
            f.root()
        )
    );
}

#[test]
fn empty_root() {
    let mut f = Fixture::new();
    f.add(".", &[]);

    let (out, _, ok) = f.run(text());
    assert!(ok);

    assert_eq!(out, format!("{}\n", f.root()));
}

#[test]
fn depth_zero() {
    let mut f = Fixture::new();
    f.add(".", &[]);
    f.add("child1", &[]);
    f.add("child2", &[]);

    let (out, _, ok) = f.run(depth(0));
    assert!(ok);

    assert_eq!(out, format!("{}/\n", f.root()));
}

#[test]
fn deep_hierarchy() {
    let mut f = Fixture::new();
    f.add(".", &[]);

    let mut path = String::new();
    for i in 0..10 {
        if i > 0 {
            path.push('/');
        }
        path.push_str(&format!("l{}", i));
        f.add(&path, &[]);
    }

    let (out, _, ok) = f.run(text());
    assert!(ok);
    assert!(out.contains("l0") && out.contains("l9"));
}

#[test]
fn many_children() {
    let mut f = Fixture::new();
    f.add(".", &[]);

    for i in 0..50 {
        f.add(&format!("child{:02}", i), &[]);
    }

    let (out, _, ok) = f.run(text());
    assert!(ok);
    assert!(out.contains("child00") && out.contains("child49"));
}

#[test]
fn special_characters_in_values() {
    let mut f = Fixture::new();
    f.add(".", &[("test", "value with spaces\tand\ttabs")]);

    let (out, _, _) = f.run(props(&["*"]));
    assert!(out.contains("value with spaces"));
}

#[test]
fn very_long_values() {
    let mut f = Fixture::new();
    let long_value = "x".repeat(10000);
    f.add(".", &[("long.field", &long_value)]);

    let (out, _, ok) = f.run(props(&["long.field"]));
    assert!(ok);

    let expected = format!("{}\n    long.field = {}\n", f.root(), long_value);
    assert_eq!(out, expected);
}

#[test]
fn default_behavior() {
    let mut f = Fixture::new();
    f.add(".", &[]);
    f.add("child", &[]);

    let (out, _, ok) = f.run(None);
    assert!(ok);

    let expected = format!("{}/\n└── child\n", f.root());
    assert_eq!(out, expected);
}
