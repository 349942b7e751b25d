//! The explorer driven key by key against an in-memory hierarchy, with its
//! display lines laid out on a screen of the given size.

use std::cell::RefCell;
use std::collections::BTreeMap;

use cgtree::data::{interface_fields, make_node, CgroupData, CgroupNode};
use cgtree::tui::{App, InputMode, KeyCode, KeyInput, KeyOutcome};

const ROOT: &str = "/cgtree-fixture";

/// A synthetic cgroup v2 hierarchy: each cgroup's directory and its files.
struct Fixture {
    dirs: RefCell<BTreeMap<String, Vec<(String, String)>>>,
}

impl Fixture {
    fn new() -> Self {
        let f = Fixture {
            dirs: RefCell::new(BTreeMap::new()),
        };
        f.add("", &[]);
        f
    }

    /// Creates a cgroup at `rel_path` with the given extra interface files.
    fn add(&self, rel_path: &str, fields: &[(&str, &str)]) -> &Self {
        let mut files = vec![
            ("cgroup.controllers".to_string(), "cpu memory pids\n".to_string()),
            ("cgroup.procs".to_string(), "1000\n".to_string()),
        ];
        for (name, value) in fields {
            files.push((name.to_string(), format!("{value}\n")));
        }
        self.dirs.borrow_mut().insert(rel_path.to_string(), files);
        self
    }

    /// Creates a cgroup directory holding exactly the given files.
    fn add_raw(&self, rel_path: &str, files: &[(&str, &str)]) {
        let files = files
            .iter()
            .map(|(n, v)| (n.to_string(), v.to_string()))
            .collect();
        self.dirs.borrow_mut().insert(rel_path.to_string(), files);
    }

    /// Removes a cgroup and everything below it.
    fn remove(&self, rel_path: &str) {
        let prefix = format!("{rel_path}/");
        self.dirs
            .borrow_mut()
            .retain(|k, _| k != rel_path && !k.starts_with(&prefix));
    }

    /// Rewrites one file of a cgroup.
    fn write(&self, rel_path: &str, name: &str, value: &str) {
        let mut dirs = self.dirs.borrow_mut();
        let files = dirs.get_mut(rel_path).unwrap();
        files.retain(|(n, _)| n != name);
        files.push((name.to_string(), value.to_string()));
    }

    fn node(&self, rel: &str) -> CgroupNode {
        let dirs = self.dirs.borrow();
        let child_rels: Vec<String> = dirs
            .keys()
            .filter(|k| {
                !k.is_empty()
                    && match k.rfind('/') {
                        Some(i) => &k[..i] == rel,
                        None => rel.is_empty(),
                    }
            })
            .cloned()
            .collect();
        let files = dirs[rel].clone();
        drop(dirs);
        let children = child_rels.iter().map(|c| self.node(c)).collect();
        let (name, path) = if rel.is_empty() {
            (ROOT.to_string(), ROOT.to_string())
        } else {
            let name = rel.rsplit('/').next().unwrap().to_string();
            (name, format!("{ROOT}/{rel}"))
        };
        let procs = files
            .iter()
            .find(|(n, _)| n == "cgroup.procs")
            .map(|(_, v)| v.clone());
        let reads = files.into_iter().map(|(n, v)| (n, Ok(v))).collect();
        make_node(name, path.into_bytes(), procs, interface_fields(reads), children)
    }

    fn scan(&self) -> CgroupData {
        CgroupData {
            root: self.node(""),
        }
    }

    /// Opens the explorer on this hierarchy at the given screen size.
    fn explore(&self, width: usize, height: usize) -> Tui<'_> {
        let app = App::new(ROOT.to_string(), self.scan());
        let mut tui = Tui {
            fixture: self,
            app,
            width,
            height,
            quit: false,
            screen: Vec::new(),
            selected_row: None,
        };
        tui.render();
        tui
    }
}

/// A running explorer and what its screen shows.
struct Tui<'a> {
    fixture: &'a Fixture,
    app: App,
    width: usize,
    height: usize,
    quit: bool,
    screen: Vec<String>,
    selected_row: Option<usize>,
}

fn clip(s: &str, width: usize) -> String {
    let clipped: String = s.chars().take(width).collect();
    clipped.trim_end().replace(ROOT, "<root>")
}

impl<'a> Tui<'a> {
    fn render(&mut self) {
        let mut screen = Vec::new();
        self.selected_row = None;
        match self.app.input_mode() {
            InputMode::Help => {
                for segments in self.app.help_lines().into_iter().take(self.height) {
                    let text: String = segments.iter().map(|s| s.text.as_str()).collect();
                    screen.push(clip(&text, self.width));
                }
                while screen.len() < self.height {
                    screen.push(String::new());
                }
            }
            mode => {
                let list_height = if mode == InputMode::Filter {
                    self.height - 2
                } else {
                    self.height - 1
                };
                let items = self.app.visible_items();
                let selected = self.app.selected();
                let offset = if selected >= list_height {
                    selected + 1 - list_height
                } else {
                    0
                };
                for (i, item) in items.iter().enumerate().skip(offset).take(list_height) {
                    let text: String = item.segments.iter().map(|s| s.text.as_str()).collect();
                    if i == selected {
                        self.selected_row = Some(i - offset);
                    }
                    screen.push(clip(&text, self.width));
                }
                while screen.len() < list_height {
                    screen.push(String::new());
                }
                let (footer, _) = self.app.footer();
                screen.push(clip(&footer, self.width));
                if mode == InputMode::Filter {
                    let prompt = format!(" Property filter: {}", self.app.filter_text());
                    screen.push(clip(&prompt, self.width));
                }
            }
        }
        self.screen = screen;
    }

    fn send(&mut self, code: KeyCode, modifiers: u8) -> &mut Self {
        match self.app.handle_key(KeyInput { code, modifiers }) {
            KeyOutcome::Quit => {
                self.quit = true;
                return self;
            }
            KeyOutcome::Continue => {}
            KeyOutcome::Rescan => {
                let data = self.fixture.scan();
                self.app.finish_rescan(Ok(data));
            }
        }
        self.render();
        self
    }

    fn key(&mut self, code: KeyCode) -> &mut Self {
        self.send(code, 0)
    }

    fn press(&mut self, c: char) -> &mut Self {
        self.key(KeyCode::Char(c))
    }

    fn ctrl(&mut self, c: char) -> &mut Self {
        self.send(KeyCode::Char(c), 2)
    }

    fn backspace(&mut self) -> &mut Self {
        self.key(KeyCode::Backspace)
    }

    fn type_str(&mut self, text: &str) -> &mut Self {
        for c in text.chars() {
            self.press(c);
        }
        self
    }

    fn has_quit(&self) -> bool {
        self.quit
    }

    fn text(&self) -> String {
        self.screen.join("\n")
    }

    fn tree(&self) -> Vec<String> {
        self.screen
            .iter()
            .take_while(|l| !l.trim_start().starts_with("? help"))
            .filter(|l| !l.is_empty())
            .cloned()
            .collect()
    }

    fn footer(&self) -> String {
        self.screen
            .iter()
            .find(|l| l.trim_start().starts_with("? help"))
            .cloned()
            .unwrap_or_default()
    }

    fn selected(&self) -> String {
        match self.selected_row {
            Some(i) => self.screen[i].clone(),
            None => String::new(),
        }
    }

    fn selected_index(&self) -> Option<usize> {
        self.selected_row
    }
}

///   <root>/
///   ├── init.scope
///   ├── system.slice/
///   │   ├── cron.service
///   │   └── ssh.service
///   └── user.slice
fn basic() -> Fixture {
    let f = Fixture::new();
    f.add("init.scope", &[("memory.max", "max")]);
    f.add("system.slice", &[("memory.max", "1073741824")]);
    f.add(
        "system.slice/ssh.service",
        &[("memory.max", "536870912"), ("cpu.weight", "100")],
    );
    f.add(
        "system.slice/cron.service",
        &[("memory.max", "268435456"), ("cpu.weight", "50")],
    );
    f.add("user.slice", &[("cpu.weight", "200")]);
    f
}

// Initial render

#[test]
fn opens_with_root_expanded_and_children_collapsed() {
    let f = basic();
    let tui = f.explore(80, 12);

    assert_eq!(
        tui.tree(),
        vec![
            "<root>/",
            "├── init.scope",
            "├── system.slice/",
            "└── user.slice",
        ],
        "root's children show, but system.slice stays collapsed"
    );
}

#[test]
fn directories_with_children_are_marked_with_a_slash() {
    let f = basic();
    let tui = f.explore(80, 12);

    let tree = tui.tree();
    assert!(
        tree.iter().any(|l| l.ends_with("system.slice/")),
        "a node with children gets a trailing slash: {tree:?}"
    );
    assert!(
        tree.iter().any(|l| l.ends_with("user.slice")),
        "a leaf node has no trailing slash: {tree:?}"
    );
}

#[test]
fn selection_starts_on_the_root_row() {
    let f = basic();
    let tui = f.explore(80, 12);

    assert_eq!(tui.selected(), "<root>/");
    assert_eq!(tui.selected_index(), Some(0));
}

#[test]
fn footer_shows_the_default_status() {
    let f = basic();
    let tui = f.explore(200, 12);

    let footer = tui.footer();
    assert!(footer.contains("props:hide"), "footer: {footer}");
    assert!(footer.contains("f filter"), "footer: {footer}");
    assert!(footer.contains("q/esc quit"), "footer: {footer}");
}

// Navigation

#[test]
fn j_and_k_move_the_selection_down_and_up() {
    let f = basic();
    let mut tui = f.explore(80, 12);

    tui.press('j');
    assert_eq!(tui.selected(), "├── init.scope");

    tui.press('j');
    assert_eq!(tui.selected(), "├── system.slice/");

    tui.press('k');
    assert_eq!(tui.selected(), "├── init.scope");
}

#[test]
fn arrow_keys_move_the_selection_like_j_and_k() {
    let f = basic();
    let mut tui = f.explore(80, 12);

    tui.key(KeyCode::Down).key(KeyCode::Down);
    assert_eq!(tui.selected(), "├── system.slice/");

    tui.key(KeyCode::Up);
    assert_eq!(tui.selected(), "├── init.scope");
}

#[test]
fn selection_stops_at_the_top() {
    let f = basic();
    let mut tui = f.explore(80, 12);

    tui.press('k').press('k').press('k');
    assert_eq!(tui.selected(), "<root>/", "cannot move above the root row");
}

#[test]
fn selection_stops_at_the_bottom() {
    let f = basic();
    let mut tui = f.explore(80, 12);

    for _ in 0..10 {
        tui.press('j');
    }
    assert_eq!(
        tui.selected(),
        "└── user.slice",
        "cannot move past the last row"
    );
}

#[test]
fn g_and_shift_g_jump_to_top_and_bottom() {
    let f = basic();
    let mut tui = f.explore(80, 12);

    tui.press('G');
    assert_eq!(tui.selected(), "└── user.slice");

    tui.press('g');
    assert_eq!(tui.selected(), "<root>/");
}

#[test]
fn home_and_end_jump_to_top_and_bottom() {
    let f = basic();
    let mut tui = f.explore(80, 12);

    tui.key(KeyCode::End);
    assert_eq!(tui.selected(), "└── user.slice");

    tui.key(KeyCode::Home);
    assert_eq!(tui.selected(), "<root>/");
}

// Expanding and collapsing

#[test]
fn enter_expands_the_selected_node() {
    let f = basic();
    let mut tui = f.explore(80, 12);

    tui.press('j').press('j');
    assert_eq!(tui.selected(), "├── system.slice/");

    tui.key(KeyCode::Enter);
    assert_eq!(
        tui.tree(),
        vec![
            "<root>/",
            "├── init.scope",
            "├── system.slice/",
            "│   ├── cron.service",
            "│   └── ssh.service",
            "└── user.slice",
        ],
        "children appear indented under system.slice"
    );
}

#[test]
fn enter_collapses_an_expanded_node() {
    let f = basic();
    let mut tui = f.explore(80, 12);

    tui.press('j').press('j').key(KeyCode::Enter);
    assert_eq!(tui.tree().len(), 6, "expanded");

    tui.key(KeyCode::Enter);
    assert_eq!(
        tui.tree(),
        vec![
            "<root>/",
            "├── init.scope",
            "├── system.slice/",
            "└── user.slice",
        ],
        "children are hidden again"
    );
}

#[test]
fn space_toggles_expansion_like_enter() {
    let f = basic();
    let mut tui = f.explore(80, 12);

    tui.press('j').press('j').press(' ');
    assert!(tui.text().contains("ssh.service"), "space expanded the node");

    tui.press(' ');
    assert!(
        !tui.text().contains("ssh.service"),
        "space collapsed the node"
    );
}

#[test]
fn l_expands_but_does_not_collapse() {
    let f = basic();
    let mut tui = f.explore(80, 12);

    tui.press('j').press('j').press('l');
    assert!(tui.text().contains("ssh.service"), "l expanded");

    tui.press('l');
    assert!(
        tui.text().contains("ssh.service"),
        "a second l leaves the node expanded"
    );
}

#[test]
fn h_collapses_an_expanded_node() {
    let f = basic();
    let mut tui = f.explore(80, 12);

    tui.press('j').press('j').press('l');
    assert!(tui.text().contains("ssh.service"));

    tui.press('h');
    assert!(!tui.text().contains("ssh.service"), "h collapsed the node");
}

#[test]
fn h_on_a_leaf_jumps_to_its_parent() {
    let f = basic();
    let mut tui = f.explore(80, 12);

    tui.press('j').press('j').press('l').press('j');
    assert_eq!(tui.selected(), "│   ├── cron.service");

    tui.press('h');
    assert_eq!(
        tui.selected(),
        "├── system.slice/",
        "h on a leaf moves selection up to the parent"
    );
}

#[test]
fn right_and_left_arrows_expand_and_collapse() {
    let f = basic();
    let mut tui = f.explore(80, 12);

    tui.press('j').press('j').key(KeyCode::Right);
    assert!(tui.text().contains("ssh.service"));

    tui.key(KeyCode::Left);
    assert!(!tui.text().contains("ssh.service"));
}

#[test]
fn expanding_a_leaf_does_nothing() {
    let f = basic();
    let mut tui = f.explore(80, 12);

    tui.press('j');
    let before = tui.tree();
    tui.key(KeyCode::Enter);
    assert_eq!(tui.tree(), before, "a leaf has nothing to expand");
}

#[test]
fn shift_e_expands_every_node() {
    let f = basic();
    let mut tui = f.explore(80, 12);

    tui.press('E');
    assert_eq!(
        tui.tree(),
        vec![
            "<root>/",
            "├── init.scope",
            "├── system.slice/",
            "│   ├── cron.service",
            "│   └── ssh.service",
            "└── user.slice",
        ]
    );
}

#[test]
fn shift_c_collapses_back_to_the_root() {
    let f = basic();
    let mut tui = f.explore(80, 12);

    tui.press('E').press('C');
    assert_eq!(
        tui.tree(),
        vec![
            "<root>/",
            "├── init.scope",
            "├── system.slice/",
            "└── user.slice",
        ],
        "the root stays expanded so the tree is never blank"
    );
}

#[test]
fn deep_nesting_renders_stacked_tree_guides() {
    let f = Fixture::new();
    f.add("a", &[]);
    f.add("a/b", &[]);
    f.add("a/b/c", &[]);
    f.add("a/b/c/d", &[]);

    let mut tui = f.explore(80, 12);
    tui.press('E');

    assert_eq!(
        tui.tree(),
        vec![
            "<root>/",
            "└── a/",
            "    └── b/",
            "        └── c/",
            "            └── d",
        ]
    );
}

#[test]
fn siblings_draw_vertical_guides_through_nested_children() {
    let f = Fixture::new();
    f.add("first", &[]);
    f.add("first/child", &[]);
    f.add("second", &[]);

    let mut tui = f.explore(80, 12);
    tui.press('E');

    assert_eq!(
        tui.tree(),
        vec!["<root>/", "├── first/", "│   └── child", "└── second",],
        "the guide continues past first's child down to second"
    );
}

// Properties display

#[test]
fn p_cycles_from_hidden_to_show_all_and_back() {
    let f = Fixture::new();
    f.add("only", &[("memory.max", "999")]);
    let mut tui = f.explore(200, 20);

    assert!(
        !tui.text().contains("memory.max"),
        "properties are hidden by default"
    );

    tui.press('p');
    assert!(tui.text().contains("memory.max = 999"), "show-all mode");
    assert!(tui.footer().contains("props:show-all"));

    tui.press('p');
    assert!(
        !tui.text().contains("memory.max"),
        "cycles back to hidden with no saved filter"
    );
    assert!(tui.footer().contains("props:hide"));
}

#[test]
fn show_all_lists_properties_under_each_node() {
    let f = Fixture::new();
    f.add("svc", &[("memory.max", "512")]);
    let mut tui = f.explore(80, 24);

    tui.press('E').press('p');

    let text = tui.text();
    assert!(text.contains("cgroup.controllers = cpu memory pids"));
    assert!(text.contains("memory.max = 512"));
}

#[test]
fn properties_are_indented_beneath_their_node() {
    let f = Fixture::new();
    f.add("svc", &[("memory.max", "512")]);
    let mut tui = f.explore(80, 24);

    tui.press('p');

    let lines = tui.tree();
    let node = lines.iter().position(|l| l.contains("svc")).unwrap();
    let prop = lines
        .iter()
        .position(|l| l.contains("memory.max = 512"))
        .unwrap();

    assert!(prop > node, "the property is listed under its node");
    assert!(
        lines[prop].starts_with("    "),
        "the property line is indented: {:?}",
        lines[prop]
    );
}

// Property filtering

#[test]
fn f_opens_a_filter_prompt() {
    let f = basic();
    let mut tui = f.explore(80, 12);

    tui.press('f');
    assert!(
        tui.text().contains("Property filter:"),
        "the prompt is visible: {}",
        tui.text()
    );
}

#[test]
fn typing_a_filter_echoes_it_in_the_prompt() {
    let f = basic();
    let mut tui = f.explore(80, 12);

    tui.press('f').type_str("memory");
    assert!(
        tui.text().contains("Property filter: memory"),
        "typed text appears: {}",
        tui.text()
    );
}

#[test]
fn applying_a_filter_shows_only_matching_properties() {
    let f = Fixture::new();
    f.add(
        "svc",
        &[("memory.max", "512"), ("cpu.weight", "100"), ("pids.max", "80")],
    );
    let mut tui = f.explore(80, 24);

    tui.press('f').type_str("memory").key(KeyCode::Enter);

    let text = tui.text();
    assert!(text.contains("memory.max = 512"), "matching field shown");
    assert!(!text.contains("cpu.weight"), "non-matching field hidden");
    assert!(!text.contains("pids.max"), "non-matching field hidden");
}

#[test]
fn a_filter_matches_by_substring() {
    let f = Fixture::new();
    f.add(
        "svc",
        &[
            ("memory.swap.max", "0"),
            ("memory.swap.current", "0"),
            ("memory.max", "512"),
        ],
    );
    let mut tui = f.explore(80, 24);

    tui.press('f').type_str("swap").key(KeyCode::Enter);

    let text = tui.text();
    assert!(text.contains("memory.swap.max = 0"));
    assert!(text.contains("memory.swap.current = 0"));
    assert!(
        !text.contains("memory.max = 512"),
        "memory.max does not contain 'swap'"
    );
}

#[test]
fn comma_separated_filters_match_any_pattern() {
    let f = Fixture::new();
    f.add(
        "svc",
        &[("memory.max", "512"), ("cpu.weight", "100"), ("pids.max", "80")],
    );
    let mut tui = f.explore(80, 24);

    tui.press('f').type_str("memory,cpu").key(KeyCode::Enter);

    let text = tui.text();
    assert!(text.contains("memory.max = 512"));
    assert!(text.contains("cpu.weight = 100"));
    assert!(!text.contains("pids.max"), "pids matched neither pattern");
}

#[test]
fn a_star_filter_shows_every_property() {
    let f = Fixture::new();
    f.add("svc", &[("memory.max", "512"), ("cpu.weight", "100")]);
    let mut tui = f.explore(80, 24);

    tui.press('f').type_str("*").key(KeyCode::Enter);

    let text = tui.text();
    assert!(text.contains("memory.max = 512"));
    assert!(text.contains("cpu.weight = 100"));
    assert!(text.contains("cgroup.controllers"));
}

#[test]
fn the_applied_filter_is_shown_in_the_footer() {
    let f = basic();
    let mut tui = f.explore(200, 12);

    tui.press('f').type_str("memory,cpu").key(KeyCode::Enter);

    let footer = tui.footer();
    assert!(footer.contains("f filter:memory,cpu"), "footer: {footer}");
    assert!(footer.contains("props:filtered"), "footer: {footer}");
}

#[test]
fn escape_cancels_the_filter_prompt() {
    let f = Fixture::new();
    f.add("svc", &[("memory.max", "512")]);
    let mut tui = f.explore(80, 20);

    tui.press('f').type_str("memory").key(KeyCode::Esc);

    assert!(
        !tui.text().contains("Property filter:"),
        "the prompt is closed"
    );
    assert!(
        !tui.text().contains("memory.max = 512"),
        "the cancelled filter was not applied"
    );
    assert!(!tui.has_quit(), "esc closed the prompt without quitting");
}

#[test]
fn backspace_edits_the_filter_before_applying() {
    let f = Fixture::new();
    f.add("svc", &[("memory.max", "512"), ("cpu.weight", "100")]);
    let mut tui = f.explore(80, 24);

    tui.press('f')
        .type_str("memoryXX")
        .backspace()
        .backspace()
        .key(KeyCode::Enter);

    let text = tui.text();
    assert!(text.contains("memory.max = 512"), "the corrected filter applied");
    assert!(!text.contains("cpu.weight"));
}

#[test]
fn an_empty_filter_hides_properties() {
    let f = Fixture::new();
    f.add("svc", &[("memory.max", "512")]);
    let mut tui = f.explore(200, 20);

    tui.press('p');
    assert!(tui.text().contains("memory.max"));

    tui.press('f').key(KeyCode::Enter);
    assert!(
        !tui.text().contains("memory.max"),
        "an empty filter falls back to hiding properties"
    );
    assert!(tui.footer().contains("props:hide"));
}

#[test]
fn a_filter_matching_nothing_shows_no_properties() {
    let f = Fixture::new();
    f.add("svc", &[("memory.max", "512")]);
    let mut tui = f.explore(80, 20);

    tui.press('f').type_str("nonexistent").key(KeyCode::Enter);

    assert_eq!(
        tui.tree(),
        vec!["<root>/", "└── svc"],
        "the tree renders normally with no property lines"
    );
}

#[test]
fn p_cycles_through_the_saved_filter_after_one_is_set() {
    let f = Fixture::new();
    f.add("svc", &[("memory.max", "512"), ("cpu.weight", "100")]);
    let mut tui = f.explore(200, 24);

    tui.press('f').type_str("memory").key(KeyCode::Enter);
    assert!(tui.footer().contains("props:filtered"));

    tui.press('p');
    assert!(tui.footer().contains("props:hide"));
    assert!(!tui.text().contains("memory.max"));

    tui.press('p');
    assert!(tui.footer().contains("props:show-all"));
    assert!(tui.text().contains("cpu.weight = 100"));

    tui.press('p');
    assert!(tui.footer().contains("props:filtered"));
    assert!(tui.text().contains("memory.max = 512"));
    assert!(!tui.text().contains("cpu.weight"));
}

#[test]
fn a_multiline_property_value_renders_across_lines() {
    let f = Fixture::new();
    f.add("svc", &[("memory.stat", "anon 4096\nfile 8192\nkernel 512")]);
    let mut tui = f.explore(80, 24);

    tui.press('f').type_str("memory.stat").key(KeyCode::Enter);

    let text = tui.text();
    assert!(text.contains("memory.stat ="), "the name is on its own line");
    assert!(text.contains("anon 4096"));
    assert!(text.contains("file 8192"));
    assert!(text.contains("kernel 512"));
}

// Navigation with property lines on screen

#[test]
fn property_lines_are_part_of_the_selection_sequence() {
    let f = Fixture::new();
    f.add("svc", &[("memory.max", "512")]);
    let mut tui = f.explore(80, 24);

    tui.press('f').type_str("memory.max").key(KeyCode::Enter);

    tui.press('G');
    assert!(
        tui.selected().contains("memory.max = 512"),
        "the last row is a property line: {}",
        tui.selected()
    );
}

#[test]
fn toggling_from_a_property_line_expands_its_parent_node() {
    let f = Fixture::new();
    f.add("parent", &[("memory.max", "512")]);
    f.add("parent/child", &[("memory.max", "256")]);
    let mut tui = f.explore(80, 24);

    tui.press('f').type_str("memory.max").key(KeyCode::Enter);

    tui.press('G');
    assert!(tui.selected().contains("memory.max = 512"));

    tui.key(KeyCode::Enter);
    assert!(
        tui.text().contains("child"),
        "toggling on a property line expanded its owning node: {}",
        tui.text()
    );
}

// Help screen

#[test]
fn question_mark_opens_the_help_screen() {
    let f = basic();
    let mut tui = f.explore(80, 40);

    tui.press('?');

    let text = tui.text();
    assert!(text.contains("Interactive cgroup hierarchy explorer"));
    assert!(text.contains("Navigation"));
    assert!(text.contains("Expand all nodes"));
    assert!(text.contains("Press ? or Esc to close this help"));
}

#[test]
fn help_replaces_the_tree_while_open() {
    let f = basic();
    let mut tui = f.explore(80, 40);

    tui.press('?');
    assert!(
        !tui.text().contains("system.slice"),
        "the tree is not drawn behind the help screen"
    );
}

#[test]
fn question_mark_closes_the_help_screen() {
    let f = basic();
    let mut tui = f.explore(80, 40);

    tui.press('?').press('?');
    assert!(tui.text().contains("system.slice"), "back to the tree");
    assert!(!tui.has_quit());
}

#[test]
fn escape_closes_help_without_quitting() {
    let f = basic();
    let mut tui = f.explore(80, 40);

    tui.press('?').key(KeyCode::Esc);
    assert!(tui.text().contains("system.slice"), "back to the tree");
    assert!(
        !tui.has_quit(),
        "esc closes help rather than exiting the app"
    );
}

#[test]
fn q_closes_help_without_quitting() {
    let f = basic();
    let mut tui = f.explore(80, 40);

    tui.press('?').press('q');
    assert!(!tui.has_quit(), "q closes help rather than exiting the app");
    assert!(tui.text().contains("system.slice"));
}

#[test]
fn navigation_keys_are_inert_while_help_is_open() {
    let f = basic();
    let mut tui = f.explore(80, 40);

    tui.press('j');
    let before = tui.selected();

    tui.press('?').press('j').press('j').press('?');
    assert_eq!(
        tui.selected(),
        before,
        "j did not move the selection while help was open"
    );
}

#[test]
fn help_reflects_the_current_props_and_filter_state() {
    let f = basic();
    let mut tui = f.explore(80, 40);

    tui.press('f').type_str("memory").key(KeyCode::Enter);
    tui.press('?');

    let text = tui.text();
    assert!(text.contains("(mode:filtered)"), "help shows props mode");
    assert!(text.contains("(filter:memory)"), "help shows the filter");
}

// Quitting

#[test]
fn q_quits() {
    let f = basic();
    let mut tui = f.explore(80, 12);

    tui.press('q');
    assert!(tui.has_quit());
}

#[test]
fn escape_quits_from_the_tree() {
    let f = basic();
    let mut tui = f.explore(80, 12);

    tui.key(KeyCode::Esc);
    assert!(tui.has_quit());
}

#[test]
fn ctrl_c_quits() {
    let f = basic();
    let mut tui = f.explore(80, 12);

    tui.ctrl('c');
    assert!(tui.has_quit());
}

#[test]
fn ctrl_c_quits_even_from_the_filter_prompt() {
    let f = basic();
    let mut tui = f.explore(80, 12);

    tui.press('f');
    tui.ctrl('c');
    assert!(
        tui.has_quit(),
        "ctrl-c is handled before the filter input sees it"
    );
}

#[test]
fn ctrl_c_quits_from_the_help_screen() {
    let f = basic();
    let mut tui = f.explore(80, 40);

    tui.press('?');
    tui.ctrl('c');
    assert!(tui.has_quit());
}

#[test]
fn q_typed_into_the_filter_prompt_does_not_quit() {
    let f = basic();
    let mut tui = f.explore(80, 12);

    tui.press('f').press('q');
    assert!(!tui.has_quit(), "q is text while the prompt is open");
    assert!(tui.text().contains("Property filter: q"));
}

// Refresh

#[test]
fn r_picks_up_cgroups_created_since_launch() {
    let f = basic();
    let mut tui = f.explore(80, 16);

    assert!(!tui.text().contains("late.service"));

    f.add("late.service", &[]);
    tui.press('r');

    assert!(
        tui.text().contains("late.service"),
        "refresh rescanned the hierarchy: {}",
        tui.text()
    );
}

#[test]
fn r_drops_cgroups_removed_since_launch() {
    let f = basic();
    let mut tui = f.explore(80, 16);
    assert!(tui.text().contains("init.scope"));

    f.remove("init.scope");
    tui.press('r');

    assert!(
        !tui.text().contains("init.scope"),
        "refresh dropped the removed cgroup"
    );
}

#[test]
fn r_picks_up_changed_property_values() {
    let f = Fixture::new();
    f.add("svc", &[("memory.current", "1000")]);
    let mut tui = f.explore(80, 20);

    tui.press('f').type_str("memory.current").key(KeyCode::Enter);
    assert!(tui.text().contains("memory.current = 1000"));

    f.write("svc", "memory.current", "2000\n");
    tui.press('r');

    assert!(
        tui.text().contains("memory.current = 2000"),
        "refresh re-read the property: {}",
        tui.text()
    );
}

#[test]
fn r_keeps_the_selection_in_range_when_the_tree_shrinks() {
    let f = basic();
    let mut tui = f.explore(80, 16);

    tui.press('E').press('G');
    let last = tui.selected();
    assert!(!last.is_empty());

    f.remove("system.slice");
    f.remove("user.slice");
    tui.press('r');

    assert!(
        tui.selected_index().is_some(),
        "a row is still highlighted after the tree shrank"
    );
    assert_eq!(tui.tree(), vec!["<root>/", "└── init.scope"]);
}

#[test]
fn r_preserves_expansion_state() {
    let f = basic();
    let mut tui = f.explore(80, 16);

    tui.press('E');
    assert!(tui.text().contains("ssh.service"));

    tui.press('r');
    assert!(
        tui.text().contains("ssh.service"),
        "expanded nodes stay expanded across a refresh"
    );
}

// Edge cases

#[test]
fn a_hierarchy_with_only_a_root_renders() {
    let f = Fixture::new();
    let tui = f.explore(80, 10);

    assert_eq!(
        tui.tree(),
        vec!["<root>"],
        "a childless root is a leaf, so it gets no trailing slash"
    );
    assert_eq!(tui.selected(), "<root>");
}

#[test]
fn navigation_is_safe_on_a_root_only_hierarchy() {
    let f = Fixture::new();
    let mut tui = f.explore(80, 10);

    tui.press('j').press('j').press('k').press('G').press('g');
    tui.key(KeyCode::Enter).press('E').press('C');

    assert_eq!(tui.selected(), "<root>", "still on the only row");
    assert!(!tui.has_quit());
}

#[test]
fn unknown_keys_are_ignored() {
    let f = basic();
    let mut tui = f.explore(80, 12);
    let before = tui.tree();

    tui.press('z').press('X').press('7');

    assert_eq!(tui.tree(), before, "the screen is unchanged");
    assert!(!tui.has_quit());
}

#[test]
fn many_siblings_all_render() {
    let f = Fixture::new();
    for i in 0..20 {
        f.add(&format!("svc-{i:02}"), &[]);
    }
    let tui = f.explore(80, 30);

    let tree = tui.tree();
    assert_eq!(tree.len(), 21, "root plus 20 children");
    assert_eq!(tree[1], "├── svc-00");
    assert_eq!(tree[20], "└── svc-19", "the last child gets the elbow");
}

#[test]
fn children_are_listed_in_sorted_order() {
    let f = Fixture::new();
    f.add("zebra", &[]);
    f.add("alpha", &[]);
    f.add("middle", &[]);

    let tui = f.explore(80, 12);
    assert_eq!(
        tui.tree(),
        vec!["<root>/", "├── alpha", "├── middle", "└── zebra"]
    );
}

#[test]
fn a_narrow_terminal_still_renders_the_tree() {
    let f = basic();
    let tui = f.explore(24, 10);

    let tree = tui.tree();
    assert!(tree[0].starts_with('/') || tree[0].contains("<root>"));
    assert!(
        tree.iter().any(|l| l.contains("system.slice")),
        "rows are present even when truncated: {tree:?}"
    );
}

#[test]
fn a_tree_taller_than_the_terminal_does_not_panic() {
    let f = Fixture::new();
    for i in 0..50 {
        f.add(&format!("svc-{i:02}"), &[]);
    }
    let mut tui = f.explore(80, 8);

    tui.press('G');
    assert!(!tui.has_quit());
    assert!(!tui.text().is_empty(), "something is on screen");
}

#[test]
fn an_empty_property_value_renders_the_name_with_no_value() {
    let f = Fixture::new();
    f.add_raw("svc", &[("cgroup.controllers", "cpu\n"), ("cgroup.events", "")]);

    let mut tui = f.explore(80, 20);
    tui.press('f').type_str("cgroup.events").key(KeyCode::Enter);

    assert!(
        tui.text().contains("cgroup.events ="),
        "the empty field is listed: {}",
        tui.text()
    );
}

// The explorer on an 80x24 screen, key by key.

#[test]
fn test_initial_rendering_shows_root() {
    let f = Fixture::new();
    f.add("", &[]);
    let mut tui = f.explore(80, 24);

    let items = tui.app.visible_items();
    let first: String = items[0].segments.iter().map(|s| s.text.as_str()).collect();
    assert!(first.contains("cgtree-fixture"));
}

#[test]
fn test_rendering_shows_children() {
    let f = Fixture::new();
    f.add("", &[]);
    f.add("init.scope", &[]);
    f.add("system.slice", &[]);
    f.add("user.slice", &[]);
    let tui = f.explore(80, 24);

    let output = tui.text();
    assert!(output.contains("init.scope"));
    assert!(output.contains("system.slice"));
    assert!(output.contains("user.slice"));
}

#[test]
fn test_directories_have_slash_suffix() {
    let f = Fixture::new();
    f.add("", &[]);
    f.add("parent.slice", &[]);
    f.add("parent.slice/child.service", &[]);
    let tui = f.explore(80, 24);

    assert!(tui.text().contains("parent.slice/"));
}

#[test]
fn test_footer_shows_help_hint() {
    let f = Fixture::new();
    f.add("", &[]);
    let tui = f.explore(80, 24);

    let output = tui.text();
    assert!(output.contains("?") || output.contains("help"));
    assert!(output.contains("q") || output.contains("quit"));
}

#[test]
fn test_props_toggle_shows_all_properties() {
    let f = Fixture::new();
    f.add(
        "",
        &[
            ("memory.max", "1073741824"),
            ("memory.current", "524288000"),
            ("cpu.weight", "100"),
        ],
    );
    let mut tui = f.explore(80, 24);

    let initial = tui.text();
    assert!(!initial.contains("memory.max"));
    assert!(!initial.contains("cpu.weight"));

    tui.press('p');

    let after_toggle = tui.text();
    assert!(after_toggle.contains("memory.max"));
    assert!(after_toggle.contains("cpu.weight"));
}

#[test]
fn test_props_toggle_cycles_through_modes() {
    let f = Fixture::new();
    f.add("", &[("memory.max", "1GB")]);
    let mut tui = f.explore(80, 24);

    assert!(!tui.text().contains("memory.max"));

    tui.press('p');
    assert!(tui.text().contains("memory.max"));

    tui.press('p');
    assert!(!tui.text().contains("memory.max"));
}

#[test]
fn test_navigation_down_moves_selection() {
    let f = Fixture::new();
    f.add("", &[]);
    f.add("first.scope", &[]);
    f.add("second.scope", &[]);
    f.add("third.scope", &[]);
    let mut tui = f.explore(80, 24);

    tui.key(KeyCode::Down).key(KeyCode::Down).key(KeyCode::Down);

    let output = tui.text();
    assert!(output.contains("first.scope"));
    assert!(output.contains("second.scope"));
    assert!(output.contains("third.scope"));
    assert_eq!(tui.selected(), "└── third.scope");
}

#[test]
fn test_navigation_up_moves_selection() {
    let f = Fixture::new();
    f.add("", &[]);
    f.add("first.scope", &[]);
    f.add("second.scope", &[]);
    let mut tui = f.explore(80, 24);

    tui.key(KeyCode::Down).key(KeyCode::Down).key(KeyCode::Up);

    let output = tui.text();
    assert!(output.contains("first.scope"));
    assert!(output.contains("second.scope"));
}

#[test]
fn test_navigation_with_vim_keys() {
    let f = Fixture::new();
    f.add("", &[]);
    f.add("item1.scope", &[]);
    f.add("item2.scope", &[]);
    let mut tui = f.explore(80, 24);

    tui.press('j').press('j').press('k');

    let output = tui.text();
    assert!(output.contains("item1.scope"));
    assert!(output.contains("item2.scope"));
}

#[test]
fn test_expand_shows_children() {
    let f = Fixture::new();
    f.add("", &[]);
    f.add("parent.slice", &[]);
    f.add("parent.slice/child.service", &[]);
    let mut tui = f.explore(80, 24);

    assert!(!tui.text().contains("child.service"));

    tui.key(KeyCode::Down).key(KeyCode::Enter);

    assert!(tui.text().contains("child.service"));
}

#[test]
fn test_collapse_hides_children() {
    let f = Fixture::new();
    f.add("", &[]);
    f.add("parent.slice", &[]);
    f.add("parent.slice/child.service", &[]);
    let mut tui = f.explore(80, 24);

    tui.key(KeyCode::Down).key(KeyCode::Enter);
    assert!(tui.text().contains("child.service"));

    tui.key(KeyCode::Enter);
    assert!(!tui.text().contains("child.service"));
}

#[test]
fn test_expand_with_right_arrow() {
    let f = Fixture::new();
    f.add("", &[]);
    f.add("parent.slice", &[]);
    f.add("parent.slice/child.service", &[]);
    let mut tui = f.explore(80, 24);

    tui.key(KeyCode::Down).key(KeyCode::Right);

    assert!(tui.text().contains("child.service"));
}

#[test]
fn test_collapse_with_left_arrow() {
    let f = Fixture::new();
    f.add("", &[]);
    f.add("parent.slice", &[]);
    f.add("parent.slice/child.service", &[]);
    let mut tui = f.explore(80, 24);

    tui.key(KeyCode::Down).key(KeyCode::Right).key(KeyCode::Left);

    assert!(!tui.text().contains("child.service"));
}

#[test]
fn test_expand_all_shows_deep_hierarchy() {
    let f = Fixture::new();
    f.add("", &[]);
    f.add("level1", &[]);
    f.add("level1/level2", &[]);
    f.add("level1/level2/level3", &[]);
    let mut tui = f.explore(80, 24);

    let initial = tui.text();
    assert!(initial.contains("level1"));
    assert!(!initial.contains("level2"));
    assert!(!initial.contains("level3"));

    tui.press('E');

    let expanded = tui.text();
    assert!(expanded.contains("level1"));
    assert!(expanded.contains("level2"));
    assert!(expanded.contains("level3"));
}

#[test]
fn test_collapse_all_hides_everything() {
    let f = Fixture::new();
    f.add("", &[]);
    f.add("level1", &[]);
    f.add("level1/level2", &[]);
    let mut tui = f.explore(80, 24);

    tui.press('E');
    assert!(tui.text().contains("level2"));

    tui.press('C');

    let collapsed = tui.text();
    assert!(collapsed.contains("level1"));
    assert!(!collapsed.contains("level2"));
}

#[test]
fn test_filter_mode_opens_input() {
    let f = Fixture::new();
    f.add("", &[]);
    let mut tui = f.explore(80, 24);

    tui.press('f');

    assert!(tui.text().contains("Property filter:"));
}

#[test]
fn test_filter_mode_accepts_text_input() {
    let f = Fixture::new();
    f.add("", &[("memory.max", "1GB"), ("cpu.weight", "100")]);
    let mut tui = f.explore(80, 24);

    tui.press('f');
    tui.press('m').press('e').press('m').press('o').press('r').press('y');
    tui.key(KeyCode::Enter);

    let output = tui.text();
    assert!(output.contains("memory.max"));
    assert!(!output.contains("cpu.weight"));
}

#[test]
fn test_filter_mode_escape_cancels() {
    let f = Fixture::new();
    f.add("", &[]);
    let mut tui = f.explore(80, 24);

    tui.press('f');
    assert!(tui.text().contains("Property filter:"));

    tui.key(KeyCode::Esc);
    assert!(!tui.text().contains("Property filter:"));
}

#[test]
fn test_complex_workflow_expand_navigate_filter() {
    let f = Fixture::new();
    f.add("", &[("memory.max", "1GB")]);
    f.add("parent.slice", &[("cpu.weight", "100")]);
    f.add("parent.slice/child.service", &[("memory.current", "500MB")]);
    let mut tui = f.explore(80, 24);

    tui.key(KeyCode::Down).key(KeyCode::Enter);
    assert!(tui.text().contains("child.service"));

    tui.key(KeyCode::Down);

    tui.press('p');
    let after_props = tui.text();
    assert!(after_props.contains("memory.max"));
    assert!(after_props.contains("cpu.weight"));
    assert!(after_props.contains("memory.current"));

    tui.press('f').press('m').press('e').press('m').key(KeyCode::Enter);

    let final_output = tui.text();
    assert!(final_output.contains("memory.max"));
    assert!(final_output.contains("memory.current"));
    assert!(!final_output.contains("cpu.weight"));
}

#[test]
fn test_help_screen_opens() {
    let f = Fixture::new();
    f.add("", &[]);
    let mut tui = f.explore(80, 24);

    tui.press('?');

    let output = tui.text();
    assert!(output.contains("Navigation"));
    assert!(output.contains("Properties Display"));
    assert!(output.contains("Property Filtering"));
}

#[test]
fn test_help_screen_closes_with_escape() {
    let f = Fixture::new();
    f.add("", &[]);
    let mut tui = f.explore(80, 24);

    tui.press('?');
    assert!(tui.text().contains("Navigation"));

    tui.key(KeyCode::Esc);
    assert!(!tui.text().contains("Press ? or Esc to close this help"));
}

#[test]
fn test_help_screen_closes_with_question_mark() {
    let f = Fixture::new();
    f.add("", &[]);
    let mut tui = f.explore(80, 24);

    tui.press('?').press('?');

    assert!(!tui.text().contains("Press ? or Esc to close this help"));
}

#[test]
fn test_workflow_help_then_interact() {
    let f = Fixture::new();
    f.add("", &[]);
    f.add("test.scope", &[]);
    let mut tui = f.explore(80, 24);

    tui.press('?');
    assert!(tui.text().contains("Navigation"));

    tui.key(KeyCode::Esc).key(KeyCode::Down);

    let final_output = tui.text();
    assert!(final_output.contains("test.scope"));
    assert!(!final_output.contains("Press ? or Esc to close this help"));
}

// The explorer's own properties, on concrete hierarchies.

#[test]
fn help_lines_are_the_full_screen() {
    let f = basic();
    let tui = f.explore(80, 12);
    let lines: Vec<String> = tui
        .app
        .help_lines()
        .iter()
        .map(|l| l.iter().map(|s| s.text.as_str()).collect())
        .collect();
    assert_eq!(lines.len(), 31);
    assert_eq!(lines[0], "cgtree - Interactive cgroup hierarchy explorer");
    assert_eq!(lines[1], "");
    assert_eq!(lines[11], "Properties Display (mode:hide)");
    assert_eq!(lines[17], "Property Filtering (filter:none)");
    assert_eq!(lines[30], "Press ? or Esc to close this help");
}

#[test]
fn rescan_failure_keeps_the_tree_and_reports_in_the_footer() {
    let f = basic();
    let mut tui = f.explore(200, 12);
    tui.app.finish_rescan(Err("permission denied".to_string()));
    tui.render();

    assert!(tui.text().contains("system.slice/"));
    assert!(tui.text().contains("rescan failed: permission denied"));
    let (footer, is_status) = tui.app.footer();
    assert!(is_status);
    assert_eq!(footer, " rescan failed: permission denied");
}

#[test]
fn help_labels_name_the_default_state() {
    let f = basic();
    let tui = f.explore(80, 12);
    assert_eq!(tui.app.props_label(), "hide");
    assert_eq!(tui.app.filter_label(), "none");
}

#[test]
fn ctrl_with_another_key_is_not_quit() {
    let f = basic();
    let mut tui = f.explore(80, 12);
    tui.ctrl('x');
    assert!(!tui.has_quit());
}

#[test]
fn the_filter_prompt_reopens_with_the_previous_text() {
    let f = basic();
    let mut tui = f.explore(200, 12);
    tui.press('f').type_str("cpu").key(KeyCode::Enter);
    tui.press('f');
    assert_eq!(tui.app.filter_text(), "cpu");
    assert!(tui.text().contains("Property filter: cpu"));
}

#[test]
fn expand_all_then_collapse_all_restores_the_opening_rows() {
    let f = basic();
    let mut tui = f.explore(80, 16);
    let opening = tui.tree();
    tui.press('E').press('C');
    assert_eq!(tui.tree(), opening);
}

#[test]
fn selection_is_clamped_after_collapsing_above_it() {
    let f = basic();
    let mut tui = f.explore(80, 16);
    tui.press('E').press('G');
    assert_eq!(tui.selected(), "└── user.slice");
    tui.press('C');
    assert_eq!(tui.selected_index(), Some(3));
    assert_eq!(tui.selected(), "└── user.slice");
}

// The explorer opened on an 80x24 terminal and quit at once: the screen
// keeps its last frame.

#[test]
fn tui_starts_and_shows_tree() {
    let f = Fixture::new();
    f.add("", &[]);
    f.add("init.scope", &[]);
    f.add("system.slice", &[]);
    let mut tui = f.explore(80, 24);
    tui.press('q');

    let contents = tui.text();
    assert!(contents.contains("init.scope"));
    assert!(contents.contains("system.slice"));
}

#[test]
fn tui_shows_help_footer() {
    let f = Fixture::new();
    f.add("", &[]);
    f.add("test.scope", &[]);
    let mut tui = f.explore(80, 24);
    tui.press('q');

    let contents = tui.text();
    assert!(contents.contains("?") || contents.contains("help"));
    assert!(contents.contains("q") || contents.contains("quit"));
}

#[test]
fn tui_shows_directory_indicator() {
    let f = Fixture::new();
    f.add("", &[]);
    f.add("parent.slice", &[]);
    f.add("parent.slice/child.service", &[]);
    let mut tui = f.explore(80, 24);
    tui.press('q');

    assert!(tui.text().contains("parent.slice/"));
}

#[test]
fn tui_shows_multiple_children() {
    let f = Fixture::new();
    f.add("", &[]);
    f.add("child1", &[]);
    f.add("child2", &[]);
    f.add("child3", &[]);
    let mut tui = f.explore(80, 24);
    tui.press('q');

    let contents = tui.text();
    assert!(contents.contains("child1"));
    assert!(contents.contains("child2"));
    assert!(contents.contains("child3"));
}

#[test]
fn tui_renders_with_properties() {
    let f = Fixture::new();
    f.add("", &[("memory.max", "max"), ("cpu.weight", "100")]);
    f.add("test", &[]);
    let mut tui = f.explore(80, 24);
    tui.press('q');

    let contents = tui.text();
    assert!(contents.contains("props") || contents.contains("p "));
}

#[test]
fn tui_shows_props_mode_hint() {
    let f = Fixture::new();
    f.add(
        "",
        &[
            ("memory.max", "1073741824"),
            ("memory.current", "524288000"),
            ("cpu.weight", "100"),
        ],
    );
    let mut tui = f.explore(80, 24);
    tui.press('q');

    let contents = tui.text();
    assert!(
        contents.contains("p props") || contents.contains("p ") || contents.contains("props:"),
        "Footer should show props mode indicator"
    );
}

#[test]
fn tui_footer_shows_controls() {
    let f = Fixture::new();
    f.add("", &[]);
    f.add("test", &[]);
    let mut tui = f.explore(80, 24);
    tui.press('q');

    let contents = tui.text();
    let has_help = contents.contains("?") || contents.contains("help");
    let has_quit = contents.contains("q") || contents.contains("quit");
    let has_move = contents.contains("move") || contents.contains("jk") || contents.contains("↑↓");
    assert!(has_help && (has_quit || has_move), "Footer should show control hints");
}

#[test]
fn tui_expands_nested_hierarchy() {
    let f = Fixture::new();
    f.add("", &[]);
    f.add("level1", &[]);
    f.add("level1/level2", &[]);
    f.add("level1/level2/level3", &[]);
    let mut tui = f.explore(80, 24);
    tui.press('q');

    assert!(
        tui.text().contains("level1"),
        "Should show level1 (root is expanded by default)"
    );
}

#[test]
fn the_prompt_edits_at_the_cursor() {
    let f = basic();
    let mut tui = f.explore(80, 12);
    tui.press('f').type_str("memry").key(KeyCode::Left).key(KeyCode::Left).press('o');
    assert_eq!(tui.app.filter_text(), "memory");
    assert_eq!(tui.app.filter_input().cursor(), 4);

    tui.key(KeyCode::Home).press('x');
    assert_eq!(tui.app.filter_text(), "xmemory");

    tui.key(KeyCode::End).key(KeyCode::Delete);
    assert_eq!(tui.app.filter_text(), "xmemory", "nothing after the cursor to delete");

    tui.send(KeyCode::Char('u'), 2);
    assert_eq!(tui.app.filter_text(), "", "control-u clears the line");
    assert!(!tui.has_quit());
}

#[test]
fn keys_the_prompt_ignores_change_nothing() {
    let f = basic();
    let mut tui = f.explore(80, 12);
    tui.press('f').type_str("cpu");
    tui.key(KeyCode::Up).key(KeyCode::Down).key(KeyCode::Other);
    assert_eq!(tui.app.filter_text(), "cpu");
    assert_eq!(tui.app.filter_input().cursor(), 3);
    assert!(tui.text().contains("Property filter: cpu"));
}

#[test]
fn the_prompt_cuts_and_pastes() {
    let f = basic();
    let mut tui = f.explore(80, 12);
    tui.press('f').type_str("memory,cpu");
    tui.send(KeyCode::Char('a'), 2);
    assert_eq!(tui.app.filter_input().cursor(), 0, "control-a goes to the start");
    tui.key(KeyCode::Right).key(KeyCode::Right).key(KeyCode::Right);
    tui.send(KeyCode::Char('k'), 2);
    assert_eq!(tui.app.filter_text(), "mem", "control-k cuts to the end");
    assert_eq!(tui.app.filter_input().cursor(), 3);
    tui.send(KeyCode::Char('e'), 2);
    tui.send(KeyCode::Char('y'), 2);
    assert_eq!(tui.app.filter_text(), "memory,cpu", "control-y pastes the cut text");
    assert_eq!(tui.app.filter_input().cursor(), 10);
}

/// A cgroup built directly, its path given as bytes.
fn raw_node(name: &str, path: &[u8], children: Vec<CgroupNode>) -> CgroupNode {
    make_node(name.to_string(), path.to_vec(), None, Vec::new(), children)
}

#[test]
fn cgroups_are_told_apart_by_their_path_bytes() {
    // Two siblings whose paths differ only in bytes that are not UTF-8, so
    // both display alike.
    let first = raw_node("a\u{FFFD}", b"/r/a\xff", vec![raw_node("one", b"/r/a\xff/one", vec![])]);
    let second = raw_node("a\u{FFFD}", b"/r/a\xfe", vec![raw_node("two", b"/r/a\xfe/two", vec![])]);
    let root = raw_node("/r", b"/r", vec![first, second]);
    let mut app = App::new("/r".to_string(), CgroupData { root });
    app.handle_key(KeyInput { code: KeyCode::Down, modifiers: 0 });
    app.handle_key(KeyInput { code: KeyCode::Enter, modifiers: 0 });
    let lines: Vec<String> = app
        .visible_items()
        .iter()
        .map(|i| i.segments.iter().map(|s| s.text.as_str()).collect())
        .collect();
    assert!(lines.iter().any(|l| l.ends_with("one")), "{lines:?}");
    assert!(!lines.iter().any(|l| l.ends_with("two")), "only the selected one expands: {lines:?}");
}
