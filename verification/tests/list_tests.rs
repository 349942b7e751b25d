use cgtree::data::{CgroupData, CgroupNode, FieldEntry};
use cgtree::list::{render, to_json, JsonNode, JsonOutput};
use serde_json::Value;

fn node(name: &str, children: Vec<CgroupNode>) -> CgroupNode {
    node_with_fields(name, Vec::new(), children)
}

fn node_with_fields(name: &str, fields: Vec<(&str, &str)>, children: Vec<CgroupNode>) -> CgroupNode {
    CgroupNode {
        name: name.to_string(),
        path: name.as_bytes().to_vec(),
        procs: None,
        fields: fields
            .into_iter()
            .map(|(k, v)| FieldEntry {
                name: k.to_string(),
                value: v.to_string(),
            })
            .collect(),
        children,
    }
}

fn sample() -> CgroupData {
    CgroupData {
        root: node(
            "/sys/fs/cgroup",
            vec![
                node("init.scope", vec![]),
                node("system.slice", vec![node("ssh.service", vec![])]),
            ],
        ),
    }
}

/// The JSON value of the output, with empty field and child lists left out.
fn json_value(node: &JsonNode) -> Value {
    let mut m = serde_json::Map::new();
    m.insert("name".to_string(), Value::String(node.name.clone()));
    m.insert("path".to_string(), Value::String(node.path.clone()));
    if !node.fields.is_empty() {
        let fields = node
            .fields
            .iter()
            .map(|f| {
                let mut fm = serde_json::Map::new();
                fm.insert("name".to_string(), Value::String(f.name.clone()));
                fm.insert("value".to_string(), Value::String(f.value.clone()));
                Value::Object(fm)
            })
            .collect();
        m.insert("fields".to_string(), Value::Array(fields));
    }
    if !node.children.is_empty() {
        let children = node.children.iter().map(json_value).collect();
        m.insert("children".to_string(), Value::Array(children));
    }
    Value::Object(m)
}

fn json_string(out: &JsonOutput) -> String {
    let mut m = serde_json::Map::new();
    m.insert("root".to_string(), json_value(&out.root));
    serde_json::to_string(&Value::Object(m)).unwrap()
}

fn strings(v: &[&str]) -> Vec<String> {
    v.iter().map(|s| s.to_string()).collect()
}

#[test]
fn renders_tree() {
    let mut out = String::new();
    render(&sample(), None, &[], &mut out);
    assert_eq!(
        out,
        "/sys/fs/cgroup/\n\
         ├── init.scope\n\
         └── system.slice/\n\
         \u{20}   └── ssh.service\n"
    );
}

#[test]
fn respects_depth() {
    let mut out = String::new();
    render(&sample(), Some(1), &[], &mut out);
    assert_eq!(
        out,
        "/sys/fs/cgroup/\n\
         ├── init.scope\n\
         └── system.slice/\n"
    );
}

#[test]
fn shows_props() {
    let data = CgroupData {
        root: node_with_fields(
            "/sys/fs/cgroup",
            vec![("memory.max", "max"), ("cpu.weight", "100")],
            vec![node_with_fields(
                "system.slice",
                vec![("memory.max", "1073741824"), ("cpu.weight", "200")],
                vec![],
            )],
        ),
    };

    let mut out = String::new();
    render(
        &data,
        None,
        &[String::from("memory.max"), String::from("cpu.weight")],
        &mut out,
    );

    assert!(out.contains("memory.max = max"), "got: {out}");
    assert!(out.contains("cpu.weight = 100"), "got: {out}");
    assert!(out.contains("memory.max = 1073741824"), "got: {out}");
    assert!(out.contains("cpu.weight = 200"), "got: {out}");
}

#[test]
fn shows_all_props_with_star() {
    let data = CgroupData {
        root: node_with_fields(
            "/sys/fs/cgroup",
            vec![
                ("memory.max", "max"),
                ("cpu.weight", "100"),
                ("pids.max", "max"),
            ],
            vec![],
        ),
    };

    let mut out = String::new();
    render(&data, None, &[String::from("*")], &mut out);

    assert!(out.contains("memory.max = max"), "got: {out}");
    assert!(out.contains("cpu.weight = 100"), "got: {out}");
    assert!(out.contains("pids.max = max"), "got: {out}");
}

#[test]
fn displays_multiline_values_with_indentation() {
    let data = CgroupData {
        root: node_with_fields(
            "/sys/fs/cgroup",
            vec![("memory.stat", "anon 1024\nfile 2048\nshmem 512")],
            vec![],
        ),
    };

    let mut out = String::new();
    render(&data, None, &[String::from("memory.stat")], &mut out);

    assert!(out.contains("memory.stat =\n"), "got: {out}");
    assert!(out.contains("        anon 1024\n"), "got: {out}");
    assert!(out.contains("        file 2048\n"), "got: {out}");
    assert!(out.contains("        shmem 512\n"), "got: {out}");
}

#[test]
fn matches_props_by_substring() {
    let data = CgroupData {
        root: node_with_fields(
            "/sys/fs/cgroup",
            vec![
                ("memory.swap.max", "max"),
                ("memory.swap.current", "0"),
                ("memory.max", "1073741824"),
                ("cpu.weight", "100"),
            ],
            vec![],
        ),
    };

    let mut out = String::new();
    render(&data, None, &[String::from("swap")], &mut out);

    assert!(out.contains("memory.swap.max = max"), "got: {out}");
    assert!(out.contains("memory.swap.current = 0"), "got: {out}");
    assert!(!out.contains("memory.max = "), "got: {out}");
    assert!(!out.contains("cpu.weight = "), "got: {out}");
}

#[test]
fn matches_multiple_patterns() {
    let data = CgroupData {
        root: node_with_fields(
            "/sys/fs/cgroup",
            vec![
                ("memory.swap.max", "max"),
                ("memory.max", "1073741824"),
                ("cpu.weight", "100"),
                ("cpu.max", "100000 100000"),
            ],
            vec![],
        ),
    };

    let mut out = String::new();
    render(
        &data,
        None,
        &[String::from("swap"), String::from("cpu.weight")],
        &mut out,
    );

    assert!(out.contains("memory.swap.max = max"), "got: {out}");
    assert!(out.contains("cpu.weight = 100"), "got: {out}");
    assert!(!out.contains("memory.max = "), "got: {out}");
    assert!(!out.contains("cpu.max = "), "got: {out}");
}

#[test]
fn matches_multiple_broad_patterns() {
    let data = CgroupData {
        root: node_with_fields(
            "/sys/fs/cgroup",
            vec![
                ("memory.swap.max", "max"),
                ("memory.swap.current", "0"),
                ("memory.max", "1073741824"),
                ("cpu.weight", "100"),
                ("cpu.max", "100000 100000"),
                ("cpu.stat", "usage_usec 12345\nuser_usec 6789"),
                ("pids.max", "max"),
            ],
            vec![],
        ),
    };

    let mut out = String::new();
    render(
        &data,
        None,
        &[String::from("swap"), String::from("cpu")],
        &mut out,
    );

    assert!(out.contains("memory.swap.max = max"), "got: {out}");
    assert!(out.contains("memory.swap.current = 0"), "got: {out}");
    assert!(out.contains("cpu.weight = 100"), "got: {out}");
    assert!(out.contains("cpu.max = 100000 100000"), "got: {out}");
    assert!(out.contains("cpu.stat =\n"), "got: {out}");
    assert!(!out.contains("memory.max = "), "got: {out}");
    assert!(!out.contains("pids.max = "), "got: {out}");
}

#[test]
fn outputs_json_hierarchy() {
    let data = sample();
    let json_output = to_json(&data, None, &[]);
    let json_str = json_string(&json_output);

    assert!(json_str.contains("\"root\""));
    assert!(json_str.contains("\"name\":\"/sys/fs/cgroup\""));
    assert!(json_str.contains("\"name\":\"init.scope\""));
    assert!(json_str.contains("\"name\":\"system.slice\""));
    assert!(json_str.contains("\"name\":\"ssh.service\""));
}

#[test]
fn outputs_json_with_fields() {
    let data = CgroupData {
        root: node_with_fields(
            "/sys/fs/cgroup",
            vec![("memory.max", "max"), ("cpu.weight", "100")],
            vec![node_with_fields(
                "system.slice",
                vec![("memory.max", "1073741824")],
                vec![],
            )],
        ),
    };

    let json_output = to_json(&data, None, &[String::from("memory.max")]);
    let json_str = json_string(&json_output);

    assert!(json_str.contains("\"fields\""));
    assert!(json_str.contains("\"name\":\"memory.max\""));
    assert!(json_str.contains("\"value\":\"max\""));
    assert!(json_str.contains("\"value\":\"1073741824\""));
    assert!(!json_str.contains("cpu.weight"));
}

#[test]
fn list_json_respects_depth() {
    let data = sample();
    let json_output = to_json(&data, Some(1), &[]);
    let json_str = json_string(&json_output);

    assert!(json_str.contains("\"name\":\"init.scope\""));
    assert!(json_str.contains("\"name\":\"system.slice\""));
    assert!(!json_str.contains("\"name\":\"ssh.service\""));
}

#[test]
fn depth_zero_renders_only_the_root() {
    let mut out = String::new();
    render(&sample(), Some(0), &[], &mut out);
    assert_eq!(out, "/sys/fs/cgroup/\n");
}

#[test]
fn json_depth_zero_has_no_children() {
    let out = to_json(&sample(), Some(0), &[]);
    assert_eq!(out.root.name, "/sys/fs/cgroup");
    assert!(out.root.children.is_empty());
}

#[test]
fn a_leaf_root_has_no_slash() {
    let data = CgroupData {
        root: node("/sys/fs/cgroup", vec![]),
    };
    let mut out = String::new();
    render(&data, None, &[], &mut out);
    assert_eq!(out, "/sys/fs/cgroup\n");
}

#[test]
fn empty_and_multiline_values_render_exactly() {
    let data = CgroupData {
        root: node_with_fields(
            "r",
            vec![("a", ""), ("b", "one"), ("c", "x\r\ny\n")],
            vec![node_with_fields("k", vec![("b", "two")], vec![])],
        ),
    };
    let mut out = String::new();
    render(&data, None, &strings(&["*"]), &mut out);
    assert_eq!(
        out,
        "r/\n    a = \n    b = one\n    c =\n        x\n        y\n└── k\n        b = two\n"
    );
}

#[test]
fn nested_siblings_draw_vertical_guides() {
    let data = CgroupData {
        root: node(
            "r",
            vec![
                node("a", vec![node("a1", vec![]), node("a2", vec![])]),
                node("b", vec![node("b1", vec![])]),
            ],
        ),
    };
    let mut out = String::new();
    render(&data, None, &[], &mut out);
    assert_eq!(
        out,
        "r/\n├── a/\n│   ├── a1\n│   └── a2\n└── b/\n    └── b1\n"
    );
}

#[test]
fn render_appends_to_what_is_already_there() {
    let mut out = String::from("header\n");
    render(&sample(), Some(0), &[], &mut out);
    assert_eq!(out, "header\n/sys/fs/cgroup/\n");
}

#[test]
fn json_lists_the_selected_fields_in_order() {
    let data = CgroupData {
        root: node_with_fields("r", vec![("b.x", "1"), ("a.x", "2"), ("c", "3")], vec![]),
    };
    let out = to_json(&data, None, &strings(&["x"]));
    let names: Vec<&str> = out.root.fields.iter().map(|f| f.name.as_str()).collect();
    assert_eq!(names, ["b.x", "a.x"]);
    assert_eq!(out.root.path, "r");
}

#[test]
fn one_line_per_listed_cgroup() {
    let data = sample();
    let mut out = String::new();
    render(&data, None, &[], &mut out);
    assert_eq!(out.lines().count(), data.count());

    let mut shallow = String::new();
    render(&data, Some(1), &[], &mut shallow);
    assert_eq!(shallow.lines().count(), 1 + data.root.children.len());
}

fn json_nodes(node: &JsonNode) -> usize {
    1 + node.children.iter().map(json_nodes).sum::<usize>()
}

#[test]
fn json_and_text_show_the_same_cgroups() {
    let data = sample();
    for depth in [None, Some(0), Some(1), Some(2)] {
        let mut out = String::new();
        render(&data, depth, &[], &mut out);
        let json = to_json(&data, depth, &strings(&["*"]));
        assert_eq!(json_nodes(&json.root), out.lines().count());
    }
}

#[test]
fn json_without_props_carries_every_interface_file() {
    let data = CgroupData {
        root: node_with_fields(
            "/sys/fs/cgroup",
            vec![("cpu.weight", "100"), ("memory.max", "max")],
            vec![node_with_fields("init.scope", vec![("pids.max", "max")], vec![])],
        ),
    };
    let out = to_json(&data, None, &[]);
    let root: Vec<(&str, &str)> = out
        .root
        .fields
        .iter()
        .map(|f| (f.name.as_str(), f.value.as_str()))
        .collect();
    assert_eq!(root, [("cpu.weight", "100"), ("memory.max", "max")]);
    assert_eq!(out.root.children[0].fields.len(), 1);
    assert_eq!(out.root.children[0].fields[0].name, "pids.max");
}

#[test]
fn json_paths_show_invalid_bytes_as_replacement_characters() {
    let mut root = node("r", vec![]);
    root.path = b"/r/a\xffb".to_vec();
    let out = to_json(&CgroupData { root }, None, &[]);
    assert_eq!(out.root.path, "/r/a\u{FFFD}b");
}
