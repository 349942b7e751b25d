//! The interactive explorer as a state machine.
//!
//! The explorer shows the expanded part of the tree, one row per cgroup, with
//! the selected properties listed under each row. A key press moves the
//! selection, expands or collapses rows, switches how properties are shown,
//! or opens the filter prompt or the help screen; at the prompt, keys go to
//! the text editor of `tui-input`. Terminal drawing and re-reading the
//! hierarchy are done by the caller, which [`KeyOutcome`] tells what to do
//! next.

use ratatui::crossterm::event::{Event, KeyCode as TermKeyCode, KeyEvent, KeyModifiers};
use tui_input::backend::crossterm::EventHandler;
use tui_input::Input;
use vstd::prelude::*;

use crate::data::{bytes_eq, copy_bytes, count_upto, node_count, CgroupData, CgroupNode, FieldEntry};
use crate::filter::{
    deref_all, matching_fields, parse_field_patterns, patterns_of, selected_fields, string_views,
};
use crate::list::{branch, label, label_text};
use crate::text::{
    bounds_ok, chars_of, join, join_strings, line_bounds, lines, pieces, push_str,
};

verus! {

/// Where key presses go.
#[derive(Clone, Copy, PartialEq, Eq)]
pub enum InputMode {
    /// Keys navigate the tree.
    Normal,
    /// Keys edit the property filter.
    Filter,
    /// The help screen is shown.
    Help,
}

/// How properties are shown under the rows.
#[derive(Clone, Copy, PartialEq, Eq)]
pub enum PropsMode {
    Hide,
    ShowAll,
    Filtered,
}

/// The key of a key press, as far as the explorer tells keys apart.
#[derive(Clone, Copy, PartialEq, Eq)]
pub enum KeyCode {
    Char(char),
    Enter,
    Esc,
    Up,
    Down,
    Left,
    Right,
    Home,
    End,
    Backspace,
    Delete,
    /// Any other key.
    Other,
}

/// A key press: the key and the modifier keys held, as the bits of
/// crossterm's `KeyModifiers` (1 Shift, 2 Control, 4 Alt, 8 Super, 16 Hyper,
/// 32 Meta).
#[derive(Clone, Copy, PartialEq, Eq)]
pub struct KeyInput {
    pub code: KeyCode,
    pub modifiers: u8,
}

/// What the caller does after a key press.
#[derive(Clone, Copy, Debug, PartialEq, Eq)]
pub enum KeyOutcome {
    /// Nothing more; draw again.
    Continue,
    /// Leave the explorer.
    Quit,
    /// Re-read the hierarchy and report it with [`App::finish_rescan`].
    Rescan,
}

/// The text editor of `tui-input`: a line of text with a cursor and a
/// buffer of cut text.
#[verifier::external_type_specification]
#[verifier::external_body]
pub struct ExInput(Input);

/// The text that an editor holds.
pub uninterp spec fn input_text(i: Input) -> Seq<char>;

/// The number of characters before an editor's cursor.
pub uninterp spec fn input_cursor(i: Input) -> nat;

/// The text that an editor's cut buffer holds, which `Control-y` pastes.
pub uninterp spec fn input_cut(i: Input) -> Seq<char>;

/// The text and cursor that `tui-input`'s key handling leaves, from the text,
/// the cursor and the key before it: a function of these alone for every
/// key that the editor acts on, but `Control-y`, which pastes the cut buffer.
pub uninterp spec fn editor_after(text: Seq<char>, cursor: nat, key: KeyInput) -> (Seq<char>, nat);

/// Whether the modifier bits hold exactly one of the given combinations.
pub open spec fn mods_in(m: u8, a: u8, b: u8) -> bool {
    m == a || m == b
}

/// Whether the editor acts on a key press at all: the keys that
/// `tui-input` turns into an edit (it ignores all others). The modifier bits
/// must match exactly.
pub open spec fn editor_acts(k: KeyInput) -> bool {
    match k.code {
        KeyCode::Backspace => mods_in(k.modifiers, 0, 32) || k.modifiers == 4,
        KeyCode::Delete => mods_in(k.modifiers, 0, 2),
        KeyCode::Left | KeyCode::Right => mods_in(k.modifiers, 0, 2),
        KeyCode::Home | KeyCode::End => k.modifiers == 0,
        KeyCode::Char(c) => {
            ||| mods_in(k.modifiers, 0, 1)
            ||| k.modifiers == 6
            ||| (k.modifiers == 2 && (c == 'h' || c == 'b' || c == 'f' || c == 'u' || c == 'w'
                || c == 'k' || c == 'y' || c == 'a' || c == 'e'))
            ||| (k.modifiers == 32 && (c == 'b' || c == 'f' || c == 'd'))
        },
        _ => false,
    }
}

/// The character that a key press types into the editor, if it types one:
/// a character key with no modifier, with Shift, or with Control and Alt.
pub open spec fn editor_inserts(k: KeyInput) -> Option<char> {
    match k.code {
        KeyCode::Char(c) => if mods_in(k.modifiers, 0, 1) || k.modifiers == 6 {
            Some(c)
        } else {
            None
        },
        _ => None,
    }
}

/// `Control-y`: paste the cut buffer.
pub open spec fn is_yank(k: KeyInput) -> bool {
    k.code == KeyCode::Char('y') && k.modifiers == 2
}

/// Home or `Control-a`: move the cursor to the start.
pub open spec fn goes_to_start(k: KeyInput) -> bool {
    (k.code == KeyCode::Home && k.modifiers == 0) || (k.code == KeyCode::Char('a') && k.modifiers
        == 2)
}

/// End or `Control-e`: move the cursor to the end.
pub open spec fn goes_to_end(k: KeyInput) -> bool {
    (k.code == KeyCode::End && k.modifiers == 0) || (k.code == KeyCode::Char('e') && k.modifiers
        == 2)
}

/// `Control-u`: cut the whole line.
pub open spec fn clears_line(k: KeyInput) -> bool {
    k.code == KeyCode::Char('u') && k.modifiers == 2
}

/// `Control-k`: cut from the cursor to the end.
pub open spec fn cuts_to_end(k: KeyInput) -> bool {
    k.code == KeyCode::Char('k') && k.modifiers == 2
}

/// The keys that cut text into the cut buffer: `Control-u`, `Control-k`,
/// and the word deletions (`Control-w`, Meta-`d`, Meta- or Alt-Backspace,
/// `Control-Delete`).
pub open spec fn cuts(k: KeyInput) -> bool {
    ||| clears_line(k)
    ||| cuts_to_end(k)
    ||| (k.code == KeyCode::Char('w') && k.modifiers == 2)
    ||| (k.code == KeyCode::Char('d') && k.modifiers == 32)
    ||| (k.code == KeyCode::Backspace && (k.modifiers == 32 || k.modifiers == 4))
    ||| (k.code == KeyCode::Delete && k.modifiers == 2)
}

/// What handing a key press to the editor `e0` may leave as `e1`: nothing
/// changes for a key it ignores; a typed character goes in at the cursor,
/// which moves past it; Home and End move the cursor; `Control-u` empties
/// the text and `Control-k` cuts it at the cursor; a paste puts the cut
/// buffer in at the cursor, which moves past it; otherwise the text and
/// cursor are those that the editor's rules give; only the cutting keys
/// change the cut buffer; the cursor stays within the text.
pub open spec fn editor_step(e0: Input, k: KeyInput, e1: Input) -> bool {
    &&& input_cursor(e1) <= input_text(e1).len()
    &&& !editor_acts(k) ==> e1 == e0
    &&& editor_acts(k) && !is_yank(k) ==> (input_text(e1), input_cursor(e1)) == editor_after(
        input_text(e0),
        input_cursor(e0),
        k,
    )
    &&& editor_inserts(k) matches Some(c) ==> {
        &&& input_text(e1) == input_text(e0).insert(input_cursor(e0) as int, c)
        &&& input_cursor(e1) == input_cursor(e0) + 1
    }
    &&& editor_acts(k) && !cuts(k) ==> input_cut(e1) == input_cut(e0)
    &&& goes_to_start(k) ==> input_text(e1) == input_text(e0) && input_cursor(e1) == 0
    &&& goes_to_end(k) ==> input_text(e1) == input_text(e0) && input_cursor(e1) == input_text(
        e0,
    ).len()
    &&& clears_line(k) ==> input_text(e1) == Seq::<char>::empty()
    &&& cuts_to_end(k) ==> input_text(e1) == input_text(e0).take(input_cursor(e0) as int)
        && input_cursor(e1) == input_cursor(e0)
    &&& is_yank(k) ==> {
        let c = input_cursor(e0) as int;
        &&& input_text(e1) == input_text(e0).take(c) + input_cut(e0) + input_text(e0).skip(c)
        &&& input_cursor(e1) == input_cursor(e0) + input_cut(e0).len()
    }
}

/// A new editor, with tui-input's `Input::default`. Trusted, not proved: it
/// holds no text, its cursor is at the start, and its cut buffer is empty.
#[verifier::external_body]
fn editor_new() -> (r: Input)
    ensures
        input_text(r) == Seq::<char>::empty(),
        input_cursor(r) == 0,
        input_cut(r) == Seq::<char>::empty(),
{
    Input::default()
}

/// The text in an editor, with tui-input's `Input::value`. Trusted, not
/// proved: it is the text that the editor holds.
#[verifier::external_body]
fn editor_text(i: &Input) -> (r: &str)
    ensures
        r@ == input_text(*i),
{
    i.value()
}

/// Hands a key press to an editor, with tui-input's
/// `EventHandler::handle_event` on the crossterm press event of that key.
/// Trusted, not proved: the edit is one that [`editor_step`] describes. It
/// says nothing of what a cutting key puts into the cut buffer, as that
/// depends on whether the key before it also cut, a flag that `tui-input`
/// keeps private; the cursor counts characters of a string held in memory,
/// so moving it past a typed or pasted text never overflows.
#[verifier::external_body]
fn editor_handle_key(i: &mut Input, key: KeyInput)
    ensures
        input_cursor(*final(i)) <= input_text(*final(i)).len(),
        !editor_acts(key) ==> *final(i) == *old(i),
        editor_acts(key) && !is_yank(key) ==> (input_text(*final(i)), input_cursor(*final(i)))
            == editor_after(input_text(*old(i)), input_cursor(*old(i)), key),
        editor_inserts(key) matches Some(c) ==> input_text(*final(i)) == input_text(
            *old(i),
        ).insert(input_cursor(*old(i)) as int, c) && input_cursor(*final(i)) == input_cursor(
            *old(i),
        ) + 1,
        editor_acts(key) && !cuts(key) ==> input_cut(*final(i)) == input_cut(*old(i)),
        goes_to_start(key) ==> input_text(*final(i)) == input_text(*old(i)) && input_cursor(
            *final(i),
        ) == 0,
        goes_to_end(key) ==> input_text(*final(i)) == input_text(*old(i)) && input_cursor(
            *final(i),
        ) == input_text(*old(i)).len(),
        clears_line(key) ==> input_text(*final(i)) == Seq::<char>::empty(),
        cuts_to_end(key) ==> input_text(*final(i)) == input_text(*old(i)).take(
            input_cursor(*old(i)) as int,
        ) && input_cursor(*final(i)) == input_cursor(*old(i)),
        is_yank(key) ==> input_text(*final(i)) == input_text(*old(i)).take(
            input_cursor(*old(i)) as int,
        ) + input_cut(*old(i)) + input_text(*old(i)).skip(input_cursor(*old(i)) as int)
            && input_cursor(*final(i)) == input_cursor(*old(i)) + input_cut(*old(i)).len(),
{
    let code = match key.code {
        KeyCode::Char(c) => TermKeyCode::Char(c),
        KeyCode::Enter => TermKeyCode::Enter,
        KeyCode::Esc => TermKeyCode::Esc,
        KeyCode::Up => TermKeyCode::Up,
        KeyCode::Down => TermKeyCode::Down,
        KeyCode::Left => TermKeyCode::Left,
        KeyCode::Right => TermKeyCode::Right,
        KeyCode::Home => TermKeyCode::Home,
        KeyCode::End => TermKeyCode::End,
        KeyCode::Backspace => TermKeyCode::Backspace,
        KeyCode::Delete => TermKeyCode::Delete,
        KeyCode::Other => TermKeyCode::Null,
    };
    i.handle_event(&Event::Key(KeyEvent::new(code, KeyModifiers::from_bits_retain(key.modifiers))));
}

/// How a piece of a display line is styled.
#[derive(Clone, Copy, PartialEq, Eq)]
pub enum SegmentStyle {
    Plain,
    /// Tree guides and indentation.
    Guide,
    /// The name of a property.
    FieldName,
    /// The value of a property.
    FieldValue,
    /// The title of the help screen.
    Title,
    /// A section heading of the help screen.
    Heading,
    /// A state shown on the help screen.
    Status,
    /// A quiet hint.
    Hint,
}

/// A styled piece of a display line.
pub struct Segment {
    pub text: String,
    pub style: SegmentStyle,
}

/// One line of the explorer's list: a cgroup row or a line of one of its
/// properties.
pub struct DisplayItem {
    pub segments: Vec<Segment>,
    /// For a cgroup row, its index among the rows.
    pub row: Option<usize>,
    /// The index of the row that the line belongs to.
    pub owner: usize,
}

/// A styled piece of a line, as text.
pub ghost struct SegModel {
    pub text: Seq<char>,
    pub style: SegmentStyle,
}

/// A display line, as text.
pub ghost struct ItemModel {
    pub segs: Seq<SegModel>,
    pub row: Option<nat>,
    pub owner: nat,
}

impl View for Segment {
    type V = SegModel;

    open spec fn view(&self) -> SegModel {
        SegModel { text: self.text@, style: self.style }
    }
}

impl View for DisplayItem {
    type V = ItemModel;

    open spec fn view(&self) -> ItemModel {
        ItemModel {
            segs: self.segments@.map_values(|s: Segment| s@),
            row: match self.row {
                Some(r) => Some(r as nat),
                None => None,
            },
            owner: self.owner as nat,
        }
    }
}

/// One visible cgroup, in display order.
pub ghost struct RowModel {
    pub node: CgroupNode,
    pub depth: nat,
    pub expanded: bool,
    /// Whether it is the last among its siblings.
    pub is_last: bool,
    /// For each ancestor level below the root, whether a vertical guide
    /// passes through.
    pub lines: Seq<bool>,
}

/// One visible cgroup, in display order.
pub struct Row<'a> {
    pub node: &'a CgroupNode,
    pub depth: usize,
    pub has_children: bool,
    pub expanded: bool,
    pub is_last: bool,
    pub ancestor_lines: Vec<bool>,
}

impl<'a> View for Row<'a> {
    type V = RowModel;

    open spec fn view(&self) -> RowModel {
        RowModel {
            node: *self.node,
            depth: self.depth as nat,
            expanded: self.expanded,
            is_last: self.is_last,
            lines: self.ancestor_lines@,
        }
    }
}

/// Number of levels below `n`.
pub open spec fn height(n: CgroupNode) -> nat
    decreases n, 0nat,
{
    if n.children@.len() == 0 {
        0
    } else {
        1 + height_upto(n.children@, n.children@.len() as int)
    }
}

/// The greatest height among the first `k` of `s`.
pub open spec fn height_upto(s: Seq<CgroupNode>, k: int) -> nat
    decreases s, k,
{
    if k <= 0 || k > s.len() {
        0
    } else {
        let a = height_upto(s, k - 1);
        let b = height(s[k - 1]);
        if a >= b {
            a
        } else {
            b
        }
    }
}

pub(crate) proof fn lemma_height_upto(s: Seq<CgroupNode>, k: int, i: int)
    requires
        0 <= i < k <= s.len(),
    ensures
        height(s[i]) <= height_upto(s, k),
    decreases k,
{
    if i < k - 1 {
        lemma_height_upto(s, k - 1, i);
    }
}

/// Whether `node` has at most `limit` levels below it.
pub fn height_within(node: &CgroupNode, limit: usize) -> (r: bool)
    ensures
        r == (height(*node) <= limit),
    decreases node,
{
    if node.children.len() == 0 {
        return true;
    }
    if limit == 0 {
        return false;
    }
    let mut i: usize = 0;
    while i < node.children.len()
        invariant
            i <= node.children@.len(),
            limit > 0,
            height_upto(node.children@, i as int) <= limit - 1,
        decreases node.children@.len() - i,
    {
        if !height_within(&node.children[i], limit - 1) {
            proof {
                lemma_height_upto(node.children@, node.children@.len() as int, i as int);
            }
            return false;
        }
        i = i + 1;
    }
    true
}

/// Whether the explorer can show `data`: its depth must fit in a `usize`.
pub fn fits_explorer(data: &CgroupData) -> (r: bool)
    ensures
        r == (height(data.root) < usize::MAX),
{
    height_within(&data.root, usize::MAX - 1)
}

/// The guides that the children of an entry inherit.
pub open spec fn child_lines(depth: nat, anc: Seq<bool>, last: bool) -> Seq<bool> {
    if depth > 0 {
        anc.push(!last)
    } else {
        Seq::empty()
    }
}

/// The rows of the expanded part of the subtree at `n`.
pub open spec fn flat_node(
    n: CgroupNode,
    depth: nat,
    anc: Seq<bool>,
    last: bool,
    exp: Set<Seq<u8>>,
) -> Seq<RowModel>
    decreases n, 0nat,
{
    let e = exp.contains(n.path@);
    seq![RowModel { node: n, depth, expanded: e, is_last: last, lines: anc }] + if e
        && n.children@.len() > 0 {
        flat_upto(
            n.children@,
            n.children@.len() as int,
            depth + 1,
            child_lines(depth, anc, last),
            exp,
        )
    } else {
        Seq::empty()
    }
}

/// The rows of the first `k` subtrees of a list of siblings.
pub open spec fn flat_upto(
    s: Seq<CgroupNode>,
    k: int,
    depth: nat,
    anc: Seq<bool>,
    exp: Set<Seq<u8>>,
) -> Seq<RowModel>
    decreases s, k,
{
    if k <= 0 || k > s.len() {
        Seq::empty()
    } else {
        flat_upto(s, k - 1, depth, anc, exp) + flat_node(
            s[k - 1],
            depth,
            anc,
            k - 1 == s.len() - 1,
            exp,
        )
    }
}

/// The contents of a list of byte strings.
pub open spec fn byte_views(v: Seq<Vec<u8>>) -> Seq<Seq<u8>> {
    v.map_values(|p: Vec<u8>| p@)
}

/// The paths in a list, as a set.
pub open spec fn path_set(v: Seq<Vec<u8>>) -> Set<Seq<u8>> {
    byte_views(v).to_set()
}

/// Whether `p` is among the paths in `v`.
fn has_path(v: &Vec<Vec<u8>>, p: &Vec<u8>) -> (r: bool)
    ensures
        r == path_set(v@).contains(p@),
{
    let mut i: usize = 0;
    while i < v.len()
        invariant
            i <= v@.len(),
            forall|k: int| 0 <= k < i ==> v@[k]@ != p@,
        decreases v@.len() - i,
    {
        if bytes_eq(&v[i], p) {
            assert(byte_views(v@)[i as int] == p@);
            return true;
        }
        i = i + 1;
    }
    assert(!byte_views(v@).contains(p@)) by {
        if byte_views(v@).contains(p@) {
            let k = choose|k: int| 0 <= k < byte_views(v@).len() && byte_views(v@)[k] == p@;
            assert(v@[k]@ == p@);
        }
    }
    false
}

/// Appends the rows of the expanded part of the subtree at `node`.
fn flatten<'a>(
    node: &'a CgroupNode,
    depth: usize,
    ancestor_lines: &Vec<bool>,
    is_last: bool,
    expanded: &Vec<Vec<u8>>,
    rows: &mut Vec<Row<'a>>,
)
    requires
        depth + height(*node) < usize::MAX,
    ensures
        row_views(final(rows)@) == row_views(old(rows)@) + flat_node(
            *node,
            depth as nat,
            ancestor_lines@,
            is_last,
            path_set(expanded@),
        ),
        rows_consistent(old(rows)@) ==> rows_consistent(final(rows)@),
    decreases node,
{
    let ghost before = rows@;
    let ghost exp = path_set(expanded@);
    let e = has_path(expanded, &node.path);
    let hc = node.children.len() > 0;
    rows.push(
        Row {
            node,
            depth,
            has_children: hc,
            expanded: e,
            is_last,
            ancestor_lines: copy_bools(ancestor_lines),
        },
    );
    let ghost head = rows@;
    assert(row_views(head) =~= row_views(before).push(
        RowModel { node: *node, depth: depth as nat, expanded: e, is_last, lines: ancestor_lines@ },
    ));
    proof {
        if rows_consistent(before) {
            assert(rows_consistent(head));
        }
    }
    if e && hc {
        let mut new_lines: Vec<bool> = Vec::new();
        if depth > 0 {
            new_lines = copy_bools(ancestor_lines);
            new_lines.push(!is_last);
        }
        assert(new_lines@ =~= child_lines(depth as nat, ancestor_lines@, is_last));
        let n = node.children.len();
        let mut i: usize = 0;
        while i < n
            invariant
                n == node.children@.len(),
                i <= n,
                n > 0,
                depth + height(*node) < usize::MAX,
                height(*node) == 1 + height_upto(node.children@, n as int),
                new_lines@ == child_lines(depth as nat, ancestor_lines@, is_last),
                exp == path_set(expanded@),
                row_views(rows@) == row_views(head) + flat_upto(
                    node.children@,
                    i as int,
                    depth as nat + 1,
                    new_lines@,
                    exp,
                ),
                rows_consistent(head) ==> rows_consistent(rows@),
            decreases n - i,
        {
            proof {
                lemma_height_upto(node.children@, n as int, i as int);
            }
            let ghost mid = rows@;
            flatten(&node.children[i], depth + 1, &new_lines, i == n - 1, expanded, rows);
            assert(row_views(rows@) =~= row_views(head) + flat_upto(
                node.children@,
                i + 1,
                depth as nat + 1,
                new_lines@,
                exp,
            ));
            i = i + 1;
        }
        assert(row_views(rows@) =~= row_views(before) + flat_node(
            *node,
            depth as nat,
            ancestor_lines@,
            is_last,
            exp,
        ));
    } else {
        assert(row_views(rows@) =~= row_views(before) + flat_node(
            *node,
            depth as nat,
            ancestor_lines@,
            is_last,
            exp,
        ));
    }
}

/// A copy of a list of flags.
fn copy_bools(v: &Vec<bool>) -> (r: Vec<bool>)
    ensures
        r@ == v@,
{
    let mut r: Vec<bool> = Vec::new();
    let mut i: usize = 0;
    while i < v.len()
        invariant
            i <= v@.len(),
            r@ == v@.take(i as int),
        decreases v@.len() - i,
    {
        r.push(v[i]);
        assert(v@.take(i + 1) == v@.take(i as int).push(v@[i as int]));
        i = i + 1;
    }
    assert(v@.take(v@.len() as int) == v@);
    r
}

/// The views of a list of rows.
pub open spec fn row_views<'a>(s: Seq<Row<'a>>) -> Seq<RowModel> {
    s.map_values(|r: Row<'a>| r@)
}

/// Each row knows whether its cgroup has children.
pub open spec fn rows_consistent<'a>(s: Seq<Row<'a>>) -> bool {
    forall|i: int| 0 <= i < s.len() ==> #[trigger] s[i].has_children == (s[i].node.children@.len() > 0)
}

/// The state of the explorer.
pub ghost struct AppModel {
    /// The root that a rescan reads.
    pub root: Seq<char>,
    pub data: CgroupData,
    /// Paths of the expanded cgroups.
    pub expanded: Set<Seq<u8>>,
    /// Index of the selected display line.
    pub selected: nat,
    pub mode: InputMode,
    /// The text editor of the filter prompt.
    pub editor: Input,
    /// The patterns that select the properties shown.
    pub patterns: Seq<Seq<char>>,
    /// The patterns last applied from the filter prompt.
    pub saved: Seq<Seq<char>>,
    pub props: PropsMode,
    /// A message shown in place of the help footer.
    pub status: Option<Seq<char>>,
}

/// The patterns in force for a properties mode.
pub open spec fn mode_patterns(props: PropsMode, saved: Seq<Seq<char>>) -> Seq<Seq<char>> {
    match props {
        PropsMode::Hide => Seq::empty(),
        PropsMode::ShowAll => seq![seq!['*']],
        PropsMode::Filtered => saved,
    }
}

/// The invariant of the explorer: the patterns in force follow from the
/// properties mode, the filtered mode is only entered with saved patterns,
/// and the depth of the tree fits in a `usize`.
pub open spec fn model_wf(m: AppModel) -> bool {
    &&& m.patterns == mode_patterns(m.props, m.saved)
    &&& (m.props == PropsMode::Filtered ==> m.saved.len() > 0)
    &&& height(m.data.root) < usize::MAX
}

/// The rows shown.
pub open spec fn rows_of(m: AppModel) -> Seq<RowModel> {
    flat_node(m.data.root, 0, Seq::empty(), true, m.expanded)
}

/// The guide piece of one ancestor level.
pub open spec fn guide_piece(draw_line: bool) -> Seq<char> {
    if draw_line {
        "│   "@
    } else {
        "    "@
    }
}

/// The styled guide of one ancestor level.
pub open spec fn guide_seg(draw_line: bool) -> SegModel {
    if draw_line {
        SegModel { text: "│   "@, style: SegmentStyle::Guide }
    } else {
        SegModel { text: "    "@, style: SegmentStyle::Plain }
    }
}

/// The guides of all ancestor levels, as text.
pub open spec fn guide_text(ls: Seq<bool>) -> Seq<char>
    decreases ls.len(),
{
    if ls.len() == 0 {
        Seq::empty()
    } else {
        guide_text(ls.drop_last()) + guide_piece(ls.last())
    }
}

/// The line of a row: the root's label alone, any other row's label behind
/// its guides and branch.
pub open spec fn tree_segs(r: RowModel) -> Seq<SegModel> {
    if r.depth == 0 {
        seq![SegModel { text: label_text(r.node), style: SegmentStyle::Plain }]
    } else {
        r.lines.map_values(|b: bool| guide_seg(b)) + seq![
            SegModel { text: branch(r.is_last), style: SegmentStyle::Guide },
            SegModel { text: label_text(r.node), style: SegmentStyle::Plain },
        ]
    }
}

/// The indentation of a row's properties.
pub open spec fn prefix_of(r: RowModel) -> Seq<char> {
    (if r.depth > 0 {
        guide_text(r.lines)
    } else {
        Seq::empty()
    }) + "    "@
}

/// The lines of one property: `name = value` when the value has at most one
/// line, otherwise `name =` followed by the value's lines, indented.
pub open spec fn field_line_segs(prefix: Seq<char>, f: FieldEntry) -> Seq<Seq<SegModel>> {
    let ls = lines(f.value@);
    let head = seq![
        SegModel { text: prefix, style: SegmentStyle::Guide },
        SegModel { text: f.name@, style: SegmentStyle::FieldName },
    ];
    if ls.len() < 2 {
        seq![
            head + seq![SegModel { text: " = "@, style: SegmentStyle::Plain }] + if ls.len() == 1 {
                seq![SegModel { text: ls[0], style: SegmentStyle::FieldValue }]
            } else {
                Seq::empty()
            },
        ]
    } else {
        seq![head + seq![SegModel { text: " ="@, style: SegmentStyle::Plain }]] + ls.map_values(
            |l: Seq<char>| body_segs(prefix, l),
        )
    }
}

/// One line of a multi-line value.
pub open spec fn body_segs(prefix: Seq<char>, l: Seq<char>) -> Seq<SegModel> {
    seq![
        SegModel { text: prefix + "    "@, style: SegmentStyle::Guide },
        SegModel { text: l, style: SegmentStyle::FieldValue },
    ]
}

/// The display lines of the lines of a multi-line value.
pub open spec fn body_items(ls: Seq<Seq<char>>, prefix: Seq<char>, owner: nat) -> Seq<ItemModel> {
    ls.map_values(|l: Seq<char>| ItemModel { segs: body_segs(prefix, l), row: None, owner })
}

/// The display lines of the given properties of the row `owner`.
pub open spec fn field_items(fs: Seq<FieldEntry>, prefix: Seq<char>, owner: nat) -> Seq<ItemModel>
    decreases fs.len(),
{
    if fs.len() == 0 {
        Seq::empty()
    } else {
        field_items(fs.drop_last(), prefix, owner) + field_line_segs(prefix, fs.last()).map_values(
            |segs: Seq<SegModel>| ItemModel { segs, row: None, owner },
        )
    }
}

/// The display lines of the row at `idx`: its own line, then its selected
/// properties.
pub open spec fn row_items(r: RowModel, idx: nat, patterns: Seq<Seq<char>>) -> Seq<ItemModel> {
    seq![ItemModel { segs: tree_segs(r), row: Some(idx), owner: idx }] + field_items(
        selected_fields(r.node.fields@, patterns),
        prefix_of(r),
        idx,
    )
}

/// The display lines of the first `k` rows.
pub open spec fn items_upto(rows: Seq<RowModel>, k: int, patterns: Seq<Seq<char>>) -> Seq<ItemModel>
    decreases k,
{
    if k <= 0 || k > rows.len() {
        Seq::empty()
    } else {
        items_upto(rows, k - 1, patterns) + row_items(rows[k - 1], (k - 1) as nat, patterns)
    }
}

/// The display lines shown.
pub open spec fn items_of(m: AppModel) -> Seq<ItemModel> {
    items_upto(rows_of(m), rows_of(m).len() as int, m.patterns)
}

/// The views of display lines.
pub open spec fn item_views(s: Seq<DisplayItem>) -> Seq<ItemModel> {
    s.map_values(|d: DisplayItem| d@)
}

/// The views of segments.
pub open spec fn seg_views(s: Seq<Segment>) -> Seq<SegModel> {
    s.map_values(|d: Segment| d@)
}

/// The explorer.
pub struct App {
    root: String,
    data: CgroupData,
    expanded: Vec<Vec<u8>>,
    selected: usize,
    input_mode: InputMode,
    filter_input: Input,
    field_patterns: Vec<String>,
    saved_filter_patterns: Vec<String>,
    props_mode: PropsMode,
    status: Option<String>,
}

impl View for App {
    type V = AppModel;

    closed spec fn view(&self) -> AppModel {
        AppModel {
            root: self.root@,
            data: self.data,
            expanded: path_set(self.expanded@),
            selected: self.selected as nat,
            mode: self.input_mode,
            editor: self.filter_input,
            patterns: string_views(self.field_patterns@),
            saved: string_views(self.saved_filter_patterns@),
            props: self.props_mode,
            status: match self.status {
                Some(s) => Some(s@),
                None => None,
            },
        }
    }
}

/// A segment of text.
fn seg(text: String, style: SegmentStyle) -> (r: Segment)
    ensures
        r@ == (SegModel { text: text@, style }),
{
    Segment { text, style }
}

/// A segment holding a literal.
fn seg_lit(text: &str, style: SegmentStyle) -> (r: Segment)
    ensures
        r@ == (SegModel { text: text@, style }),
{
    let mut t = String::new();
    push_str(&mut t, text);
    Segment { text: t, style }
}

/// The line of a row.
fn tree_spans(row: &Row) -> (r: Vec<Segment>)
    requires
        row.has_children == (row.node.children@.len() > 0),
    ensures
        seg_views(r@) == tree_segs(row@),
{
    let mut r: Vec<Segment> = Vec::new();
    if row.depth == 0 {
        r.push(seg(label(row.node), SegmentStyle::Plain));
        assert(seg_views(r@) =~= tree_segs(row@));
        return r;
    }
    let mut i: usize = 0;
    while i < row.ancestor_lines.len()
        invariant
            i <= row.ancestor_lines@.len(),
            seg_views(r@) == row.ancestor_lines@.take(i as int).map_values(|b: bool| guide_seg(b)),
        decreases row.ancestor_lines@.len() - i,
    {
        let ghost old_r = r@;
        if row.ancestor_lines[i] {
            r.push(seg_lit("│   ", SegmentStyle::Guide));
        } else {
            r.push(seg_lit("    ", SegmentStyle::Plain));
        }
        assert(seg_views(r@) =~= seg_views(old_r).push(guide_seg(row.ancestor_lines@[i as int])));
        assert(row.ancestor_lines@.take(i + 1) =~= row.ancestor_lines@.take(i as int).push(
            row.ancestor_lines@[i as int],
        ));
        assert(seg_views(r@) =~= row.ancestor_lines@.take(i + 1).map_values(|b: bool| guide_seg(b)));
        i = i + 1;
    }
    assert(row.ancestor_lines@.take(i as int) == row.ancestor_lines@);
    let ghost mid = r@;
    if row.is_last {
        r.push(seg_lit("└── ", SegmentStyle::Guide));
    } else {
        r.push(seg_lit("├── ", SegmentStyle::Guide));
    }
    r.push(seg(label(row.node), SegmentStyle::Plain));
    assert(seg_views(r@) =~= tree_segs(row@));
    r
}

/// The indentation of a row's properties.
fn field_prefix(row: &Row) -> (r: String)
    ensures
        r@ == prefix_of(row@),
{
    let mut p = String::new();
    if row.depth > 0 {
        let mut i: usize = 0;
        assert(row.ancestor_lines@.take(0) =~= Seq::<bool>::empty());
        while i < row.ancestor_lines.len()
            invariant
                i <= row.ancestor_lines@.len(),
                p@ == guide_text(row.ancestor_lines@.take(i as int)),
            decreases row.ancestor_lines@.len() - i,
        {
            if row.ancestor_lines[i] {
                push_str(&mut p, "│   ");
            } else {
                push_str(&mut p, "    ");
            }
            assert(row.ancestor_lines@.take(i + 1).drop_last() == row.ancestor_lines@.take(i as int));
            i = i + 1;
        }
        assert(row.ancestor_lines@.take(i as int) == row.ancestor_lines@);
    }
    push_str(&mut p, "    ");
    p
}

/// Appends the display lines of one property of the row `owner`.
fn push_field_items(items: &mut Vec<DisplayItem>, prefix: &str, field: &FieldEntry, owner: usize)
    ensures
        item_views(final(items)@) == item_views(old(items)@) + field_line_segs(prefix@, *field).map_values(
            |segs: Seq<SegModel>| ItemModel { segs, row: None, owner: owner as nat },
        ),
{
    let ghost before = items@;
    let v = chars_of(field.value.as_str());
    let b = line_bounds(&v);
    let ghost ls = lines(field.value@);
    assert(pieces(v@, b@).len() == b@.len());
    let mut head: Vec<Segment> = Vec::new();
    let mut pre = String::new();
    push_str(&mut pre, prefix);
    head.push(seg(pre, SegmentStyle::Guide));
    head.push(seg(field.name.clone(), SegmentStyle::FieldName));
    if b.len() < 2 {
        head.push(seg_lit(" = ", SegmentStyle::Plain));
        if b.len() == 1 {
            assert(ls[0] == v@.subrange(b@[0].0 as int, b@[0].1 as int));
            head.push(seg(string_of_bounds(&v, b[0]), SegmentStyle::FieldValue));
        }
        assert(seg_views(head@) =~= field_line_segs(prefix@, *field)[0]);
        items.push(DisplayItem { segments: head, row: None, owner });
        assert(item_views(items@) =~~= item_views(before) + field_line_segs(prefix@, *field).map_values(
            |segs: Seq<SegModel>| ItemModel { segs, row: None, owner: owner as nat },
        ));
        return ;
    }
    head.push(seg_lit(" =", SegmentStyle::Plain));
    assert(seg_views(head@) =~= field_line_segs(prefix@, *field)[0]);
    items.push(DisplayItem { segments: head, row: None, owner });
    let ghost start = items@;
    let mut k: usize = 0;
    while k < b.len()
        invariant
            k <= b@.len(),
            bounds_ok(v@.len(), b@),
            pieces(v@, b@) == ls,
            item_views(items@) == item_views(start) + body_items(
                ls.take(k as int),
                prefix@,
                owner as nat,
            ),
        decreases b@.len() - k,
    {
        assert(ls[k as int] == v@.subrange(b@[k as int].0 as int, b@[k as int].1 as int));
        let mut ind = String::new();
        push_str(&mut ind, prefix);
        push_str(&mut ind, "    ");
        let mut line: Vec<Segment> = Vec::new();
        line.push(seg(ind, SegmentStyle::Guide));
        line.push(seg(string_of_bounds(&v, b[k]), SegmentStyle::FieldValue));
        let ghost old_items = items@;
        assert(seg_views(line@) =~= body_segs(prefix@, ls[k as int]));
        items.push(DisplayItem { segments: line, row: None, owner });
        assert(ls.take(k + 1) =~= ls.take(k as int).push(ls[k as int]));
        assert(body_items(ls.take(k + 1), prefix@, owner as nat) =~~= body_items(
            ls.take(k as int),
            prefix@,
            owner as nat,
        ).push(ItemModel { segs: body_segs(prefix@, ls[k as int]), row: None, owner: owner as nat }));
        assert(item_views(items@) =~~= item_views(old_items).push(
            ItemModel { segs: body_segs(prefix@, ls[k as int]), row: None, owner: owner as nat },
        ));
        assert(item_views(items@) =~~= item_views(start) + body_items(
            ls.take(k + 1),
            prefix@,
            owner as nat,
        ));
        k = k + 1;
    }
    assert(ls.take(b@.len() as int) == ls);
    assert(item_views(items@) =~~= item_views(before) + field_line_segs(prefix@, *field).map_values(
        |segs: Seq<SegModel>| ItemModel { segs, row: None, owner: owner as nat },
    ));
}

/// The string that a pair of bounds delimits.
fn string_of_bounds(v: &Vec<char>, b: (usize, usize)) -> (r: String)
    requires
        b.0 <= b.1 <= v@.len(),
    ensures
        r@ == v@.subrange(b.0 as int, b.1 as int),
{
    crate::text::string_of_range(v, b.0, b.1)
}

impl App {
    /// The invariant of the explorer.
    pub open spec fn wf(&self) -> bool {
        model_wf(self@)
    }

    /// Creates an explorer over an already-scanned hierarchy: the root is
    /// expanded, the root row is selected, properties are hidden, and the
    /// filter prompt and its cut buffer are empty.
    pub fn new(root: String, data: CgroupData) -> (r: App)
        requires
            height(data.root) < usize::MAX,
        ensures
            r.wf(),
            input_text(r@.editor) == Seq::<char>::empty(),
            input_cursor(r@.editor) == 0,
            input_cut(r@.editor) == Seq::<char>::empty(),
            r@ == (AppModel {
                root: root@,
                data,
                expanded: set![data.root.path@],
                selected: 0,
                mode: InputMode::Normal,
                editor: r@.editor,
                patterns: Seq::empty(),
                saved: Seq::empty(),
                props: PropsMode::Hide,
                status: None,
            }),
    {
        let mut expanded: Vec<Vec<u8>> = Vec::new();
        expanded.push(copy_bytes(&data.root.path));
        let r = App {
            root,
            data,
            expanded,
            selected: 0,
            input_mode: InputMode::Normal,
            filter_input: editor_new(),
            field_patterns: Vec::new(),
            saved_filter_patterns: Vec::new(),
            props_mode: PropsMode::Hide,
            status: None,
        };
        assert(byte_views(r.expanded@) =~= seq![r.data.root.path@]);
        assert(path_set(r.expanded@) =~= set![r.data.root.path@]) by {
            assert(byte_views(r.expanded@)[0] == r.data.root.path@);
        }
        assert(string_views(r.field_patterns@) =~= Seq::<Seq<char>>::empty());
        assert(string_views(r.saved_filter_patterns@) =~= Seq::<Seq<char>>::empty());
        r
    }

    /// Flattens the expanded portion of the tree into display order.
    fn rows(&self) -> (r: Vec<Row<'_>>)
        requires
            self.wf(),
        ensures
            row_views(r@) == rows_of(self@),
            rows_consistent(r@),
    {
        let mut rows: Vec<Row<'_>> = Vec::new();
        let none: Vec<bool> = Vec::new();
        assert(row_views(rows@) =~= Seq::<RowModel>::empty());
        flatten(&self.data.root, 0, &none, true, &self.expanded, &mut rows);
        assert(row_views(rows@) =~= rows_of(self@));
        rows
    }

    /// Builds the display lines: each row followed by its selected properties.
    fn build_display_items(&self, rows: &Vec<Row>) -> (r: Vec<DisplayItem>)
        requires
            rows_consistent(rows@),
        ensures
            item_views(r@) == items_upto(row_views(rows@), rows@.len() as int, self@.patterns),
    {
        let mut items: Vec<DisplayItem> = Vec::new();
        let ghost rv = row_views(rows@);
        let ghost pats = self@.patterns;
        let mut i: usize = 0;
        assert(item_views(items@) =~= Seq::<ItemModel>::empty());
        while i < rows.len()
            invariant
                i <= rows@.len(),
                rv == row_views(rows@),
                pats == string_views(self.field_patterns@),
                rows_consistent(rows@),
                item_views(items@) == items_upto(rv, i as int, pats),
            decreases rows@.len() - i,
        {
            let row = &rows[i];
            assert(row@ == rv[i as int]);
            let ghost before = items@;
            let spans = tree_spans(row);
            items.push(DisplayItem { segments: spans, row: Some(i), owner: i });
            assert(item_views(items@) =~~= item_views(before).push(
                ItemModel { segs: tree_segs(rv[i as int]), row: Some(i as nat), owner: i as nat },
            ));
            let prefix = field_prefix(row);
            let sel = matching_fields(row.node.fields.as_slice(), self.field_patterns.as_slice());
            let ghost fs = deref_all(sel@);
            let ghost start = items@;
            let mut j: usize = 0;
            assert(fs.take(0) =~= Seq::<FieldEntry>::empty());
            assert(item_views(items@) =~~= item_views(start) + field_items(fs.take(0), prefix@, i as nat));
            while j < sel.len()
                invariant
                    j <= sel@.len(),
                    fs == deref_all(sel@),
                    item_views(items@) == item_views(start) + field_items(
                        fs.take(j as int),
                        prefix@,
                        i as nat,
                    ),
                decreases sel@.len() - j,
            {
                push_field_items(&mut items, prefix.as_str(), sel[j], i);
                assert(fs.take(j + 1).drop_last() == fs.take(j as int));
                assert(fs.take(j + 1).last() == fs[j as int]);
                assert(item_views(items@) =~~= item_views(start) + field_items(
                    fs.take(j + 1),
                    prefix@,
                    i as nat,
                ));
                j = j + 1;
            }
            assert(fs.take(sel@.len() as int) == fs);
            assert(item_views(items@) =~~= items_upto(rv, i + 1, pats));
            i = i + 1;
        }
        items
    }
}

/// Control-C.
pub open spec fn is_ctrl_c(k: KeyInput) -> bool {
    k.code == KeyCode::Char('c') && control_held(k.modifiers)
}

/// Whether the modifier bits include Control.
pub open spec fn control_held(m: u8) -> bool {
    (m / 2) % 2 == 1
}

/// One less, but not below zero.
pub open spec fn sat_dec(n: nat) -> nat {
    if n > 0 {
        (n - 1) as nat
    } else {
        0
    }
}

/// The smaller of two numbers.
pub open spec fn min_nat(a: nat, b: nat) -> nat {
    if a <= b {
        a
    } else {
        b
    }
}

/// The properties mode that `p` switches to: hidden, then all, then the
/// saved filter if there is one, then hidden again.
pub open spec fn next_props(p: PropsMode, saved: Seq<Seq<char>>) -> PropsMode {
    match p {
        PropsMode::Hide => PropsMode::ShowAll,
        PropsMode::ShowAll => if saved.len() == 0 {
            PropsMode::Hide
        } else {
            PropsMode::Filtered
        },
        PropsMode::Filtered => PropsMode::Hide,
    }
}

/// The row that the selected line belongs to.
pub open spec fn selected_row(m: AppModel) -> Option<RowModel> {
    let items = items_of(m);
    let rows = rows_of(m);
    if m.selected < items.len() && items[m.selected as int].owner < rows.len() {
        Some(rows[items[m.selected as int].owner as int])
    } else {
        None
    }
}

/// The last row before index `i` whose depth is below `d`.
pub open spec fn parent_before(rows: Seq<RowModel>, i: int, d: nat) -> Option<nat>
    decreases i,
{
    if i <= 0 {
        None
    } else if rows[i - 1].depth < d {
        Some((i - 1) as nat)
    } else {
        parent_before(rows, i - 1, d)
    }
}

/// The first line at or after `q` that is the line of row `j`.
pub open spec fn row_line_from(items: Seq<ItemModel>, j: nat, q: int) -> Option<nat>
    decreases items.len() - q,
{
    if q < 0 || q >= items.len() {
        None
    } else if items[q].row == Some(j) {
        Some(q as nat)
    } else {
        row_line_from(items, j, q + 1)
    }
}

proof fn lemma_row_line_bound(items: Seq<ItemModel>, j: nat, q: int)
    ensures
        row_line_from(items, j, q) matches Some(x) ==> q <= x < items.len(),
    decreases items.len() - q,
{
    if 0 <= q < items.len() && items[q].row != Some(j) {
        lemma_row_line_bound(items, j, q + 1);
    }
}

/// The paths of the cgroups with children in the subtree at `n`.
pub open spec fn branch_paths(n: CgroupNode) -> Set<Seq<u8>>
    decreases n, 0nat,
{
    if n.children@.len() > 0 {
        set![n.path@] + branch_paths_upto(n.children@, n.children@.len() as int)
    } else {
        Set::empty()
    }
}

/// The paths of the cgroups with children in the first `k` subtrees of `s`.
pub open spec fn branch_paths_upto(s: Seq<CgroupNode>, k: int) -> Set<Seq<u8>>
    decreases s, k,
{
    if k <= 0 || k > s.len() {
        Set::empty()
    } else {
        branch_paths_upto(s, k - 1) + branch_paths(s[k - 1])
    }
}

/// A key pressed in the tree, with the footer message cleared.
pub open spec fn normal_step(m: AppModel, k: KeyInput) -> AppModel {
    let m0 = AppModel { status: None, ..m };
    let n = items_of(m).len();
    match k.code {
        KeyCode::Char('?') => AppModel { mode: InputMode::Help, ..m0 },
        KeyCode::Char('f') => AppModel { mode: InputMode::Filter, ..m0 },
        KeyCode::Char('p') => {
            let p = next_props(m.props, m.saved);
            AppModel { props: p, patterns: mode_patterns(p, m.saved), ..m0 }
        },
        KeyCode::Down | KeyCode::Char('j') => AppModel {
            selected: min_nat(m.selected + 1, sat_dec(n)),
            ..m0
        },
        KeyCode::Up | KeyCode::Char('k') => AppModel { selected: sat_dec(m.selected), ..m0 },
        KeyCode::Home | KeyCode::Char('g') => AppModel { selected: 0, ..m0 },
        KeyCode::End | KeyCode::Char('G') => AppModel { selected: sat_dec(n), ..m0 },
        KeyCode::Enter | KeyCode::Char(' ') => match selected_row(m) {
            Some(r) => if r.node.children@.len() > 0 {
                if r.expanded {
                    AppModel { expanded: m.expanded.remove(r.node.path@), ..m0 }
                } else {
                    AppModel { expanded: m.expanded.insert(r.node.path@), ..m0 }
                }
            } else {
                m0
            },
            None => m0,
        },
        KeyCode::Right | KeyCode::Char('l') => match selected_row(m) {
            Some(r) => if r.node.children@.len() > 0 {
                AppModel { expanded: m.expanded.insert(r.node.path@), ..m0 }
            } else {
                m0
            },
            None => m0,
        },
        KeyCode::Left | KeyCode::Char('h') => left_step(m, m0),
        KeyCode::Char('E') => AppModel { expanded: branch_paths(m.data.root), ..m0 },
        KeyCode::Char('C') => AppModel { expanded: set![m.data.root.path@], ..m0 },
        _ => m0,
    }
}

/// Left collapses the selected row when it is expanded, and otherwise moves
/// the selection to the row's parent.
pub open spec fn left_step(m: AppModel, m0: AppModel) -> AppModel {
    let items = items_of(m);
    let rows = rows_of(m);
    if m.selected < items.len() && items[m.selected as int].owner < rows.len() {
        let o = items[m.selected as int].owner;
        let r = rows[o as int];
        if r.expanded {
            AppModel { expanded: m.expanded.remove(r.node.path@), ..m0 }
        } else {
            match parent_before(rows, o as int, r.depth) {
                Some(pi) => match row_line_from(items, pi, 0) {
                    Some(q) => AppModel { selected: q, ..m0 },
                    None => m0,
                },
                None => m0,
            }
        }
    } else {
        m0
    }
}

/// A key pressed at the filter prompt: Enter applies the typed patterns and
/// Esc closes the prompt. Other keys go to the text editor and change nothing
/// else (see [`edits_prompt`]).
pub open spec fn filter_step(m: AppModel, k: KeyInput) -> AppModel {
    match k.code {
        KeyCode::Enter => {
            let saved = patterns_of(input_text(m.editor));
            if saved.len() == 0 {
                AppModel {
                    saved,
                    props: PropsMode::Hide,
                    patterns: Seq::empty(),
                    mode: InputMode::Normal,
                    ..m
                }
            } else {
                AppModel {
                    saved,
                    props: PropsMode::Filtered,
                    patterns: saved,
                    mode: InputMode::Normal,
                    ..m
                }
            }
        },
        KeyCode::Esc => AppModel { mode: InputMode::Normal, ..m },
        _ => m,
    }
}

/// A key pressed on the help screen: `q`, `?` and Esc close it.
pub open spec fn help_step(m: AppModel, k: KeyInput) -> AppModel {
    match k.code {
        KeyCode::Char('q') | KeyCode::Char('?') | KeyCode::Esc => AppModel {
            mode: InputMode::Normal,
            ..m
        },
        _ => m,
    }
}

/// Whether a key press goes to the text editor of the filter prompt: any
/// key there but Enter, Esc and Control-C.
pub open spec fn edits_prompt(m: AppModel, k: KeyInput) -> bool {
    &&& !is_ctrl_c(k)
    &&& m.mode == InputMode::Filter
    &&& k.code != KeyCode::Enter
    &&& k.code != KeyCode::Esc
}

/// The state after a key press, but for the text editor of the filter
/// prompt, which [`edits_prompt`] and [`editor_step`] describe.
pub open spec fn step(m: AppModel, k: KeyInput) -> AppModel {
    if is_ctrl_c(k) {
        m
    } else {
        match m.mode {
            InputMode::Normal => normal_step(m, k),
            InputMode::Filter => filter_step(m, k),
            InputMode::Help => help_step(m, k),
        }
    }
}

/// What the caller does after a key press: Control-C always quits; in the
/// tree `q` and Esc quit and `r` rescans; other keys, and all keys at the
/// prompt and on the help screen, need nothing more.
pub open spec fn outcome(m: AppModel, k: KeyInput) -> KeyOutcome {
    if is_ctrl_c(k) {
        KeyOutcome::Quit
    } else {
        match m.mode {
            InputMode::Normal => match k.code {
                KeyCode::Char('q') | KeyCode::Esc => KeyOutcome::Quit,
                KeyCode::Char('r') => KeyOutcome::Rescan,
                _ => KeyOutcome::Continue,
            },
            InputMode::Filter => KeyOutcome::Continue,
            InputMode::Help => KeyOutcome::Continue,
        }
    }
}

/// Adds `p` to the paths.
fn insert_path(v: &mut Vec<Vec<u8>>, p: Vec<u8>)
    ensures
        path_set(final(v)@) == path_set(old(v)@).insert(p@),
{
    if !has_path(v, &p) {
        let ghost old_v = v@;
        let ghost pv = p@;
        v.push(p);
        proof {
            assert(byte_views(v@) =~= byte_views(old_v).push(pv));
            byte_views(old_v).lemma_push_to_set_commute(pv);
        }
    } else {
        assert(path_set(v@) =~= path_set(v@).insert(p@));
    }
}

/// Removes `p` from the paths.
fn remove_path(v: &mut Vec<Vec<u8>>, p: &Vec<u8>)
    ensures
        path_set(final(v)@) == path_set(old(v)@).remove(p@),
{
    let mut kept: Vec<Vec<u8>> = Vec::new();
    let mut old_v: Vec<Vec<u8>> = Vec::new();
    std::mem::swap(v, &mut old_v);
    let ghost all = byte_views(old_v@);
    let mut i: usize = 0;
    while i < old_v.len()
        invariant
            i <= old_v@.len(),
            all == byte_views(old_v@),
            forall|x: Seq<u8>|
                byte_views(kept@).contains(x) <==> (x != p@ && all.take(i as int).contains(x)),
        decreases old_v@.len() - i,
    {
        let ghost before = byte_views(kept@);
        let same = bytes_eq(&old_v[i], p);
        if !same {
            kept.push(copy_bytes(&old_v[i]));
            assert(byte_views(kept@) =~= before.push(all[i as int]));
        }
        proof {
            broadcast use vstd::seq_lib::lemma_seq_contains_after_push;

            let t0 = all.take(i as int);
            let t1 = all.take(i + 1);
            assert(t1 =~= t0.push(all[i as int]));
            assert forall|x: Seq<u8>|
                byte_views(kept@).contains(x) <==> (x != p@ && t1.contains(x)) by {
                assert(t1.contains(x) <==> (t0.contains(x) || x == all[i as int]));
                assert(before.contains(x) <==> (x != p@ && t0.contains(x)));
            }
        }
        i = i + 1;
    }
    assert(all.take(old_v@.len() as int) == all);
    *v = kept;
    assert(path_set(v@) =~= path_set(old_v@).remove(p@));
}

/// Adds the paths of the cgroups with children in the subtree at `node`.
fn collect_all_paths(node: &CgroupNode, paths: &mut Vec<Vec<u8>>)
    ensures
        path_set(final(paths)@) == path_set(old(paths)@) + branch_paths(*node),
    decreases node,
{
    if node.children.len() > 0 {
        let ghost start = path_set(paths@);
        insert_path(paths, copy_bytes(&node.path));
        let mut i: usize = 0;
        while i < node.children.len()
            invariant
                i <= node.children@.len(),
                node.children@.len() > 0,
                path_set(paths@) == start + set![node.path@] + branch_paths_upto(
                    node.children@,
                    i as int,
                ),
            decreases node.children@.len() - i,
        {
            collect_all_paths(&node.children[i], paths);
            assert(path_set(paths@) =~= start + set![node.path@] + branch_paths_upto(
                node.children@,
                i + 1,
            ));
            i = i + 1;
        }
        assert(path_set(paths@) =~= start + branch_paths(*node));
    } else {
        assert(path_set(paths@) =~= path_set(paths@) + branch_paths(*node));
    }
}

/// A copy of a list of strings.
fn clone_strings(v: &Vec<String>) -> (r: Vec<String>)
    ensures
        string_views(r@) == string_views(v@),
{
    let mut r: Vec<String> = Vec::new();
    let mut i: usize = 0;
    while i < v.len()
        invariant
            i <= v@.len(),
            string_views(r@) == string_views(v@).take(i as int),
        decreases v@.len() - i,
    {
        let ghost old_r = r@;
        let c = v[i].clone();
        assert(c@ == v@[i as int]@);
        r.push(c);
        assert(string_views(r@) =~= string_views(old_r).push(v@[i as int]@));
        assert(string_views(r@) =~= string_views(v@).take(i + 1));
        i = i + 1;
    }
    assert(string_views(v@).take(v@.len() as int) =~= string_views(v@));
    r
}

/// The patterns in force for a properties mode.
fn patterns_for(props: PropsMode, saved: &Vec<String>) -> (r: Vec<String>)
    ensures
        string_views(r@) == mode_patterns(props, string_views(saved@)),
{
    match props {
        PropsMode::Hide => {
            let r: Vec<String> = Vec::new();
            assert(string_views(r@) =~= Seq::<Seq<char>>::empty());
            r
        },
        PropsMode::ShowAll => {
            let mut star = String::new();
            push_str(&mut star, "*");
            proof {
                reveal_strlit("*");
                assert("*"@ =~= seq!['*']);
            }
            let mut r: Vec<String> = Vec::new();
            r.push(star);
            assert(string_views(r@) =~= seq![seq!['*']]);
            r
        },
        PropsMode::Filtered => clone_strings(saved),
    }
}

/// How the Left key moves.
enum LeftMove {
    Collapse(Vec<u8>),
    Select(usize),
    Stay,
}

/// The row and line search behind the Left key.
fn left_move(rows: &Vec<Row>, items: &Vec<DisplayItem>, sel: usize) -> (r: LeftMove)
    ensures
        ({
            let iv = item_views(items@);
            let rv = row_views(rows@);
            if sel < iv.len() && iv[sel as int].owner < rv.len() {
                let o = iv[sel as int].owner;
                let row = rv[o as int];
                if row.expanded {
                    r matches LeftMove::Collapse(p) && p@ == row.node.path@
                } else {
                    match parent_before(rv, o as int, row.depth) {
                        Some(pi) => match row_line_from(iv, pi, 0) {
                            Some(q) => r == LeftMove::Select(q as usize),
                            None => r is Stay,
                        },
                        None => r is Stay,
                    }
                }
            } else {
                r is Stay
            }
        }),
{
    let ghost iv = item_views(items@);
    let ghost rv = row_views(rows@);
    if sel >= items.len() {
        return LeftMove::Stay;
    }
    let o = items[sel].owner;
    assert(iv[sel as int].owner == o);
    if o >= rows.len() {
        return LeftMove::Stay;
    }
    let row = &rows[o];
    assert(rv[o as int] == row@);
    if row.expanded {
        return LeftMove::Collapse(copy_bytes(&row.node.path));
    }
    let d = row.depth;
    // The last earlier row with a smaller depth.
    let mut i: usize = o;
    while i > 0 && rows[i - 1].depth >= d
        invariant
            i <= o < rows@.len(),
            rv == row_views(rows@),
            d as nat == rv[o as int].depth,
            parent_before(rv, o as int, d as nat) == parent_before(rv, i as int, d as nat),
        decreases i,
    {
        assert(rv[i - 1].depth == rows@[i - 1].depth);
        i = i - 1;
    }
    if i == 0 {
        return LeftMove::Stay;
    }
    assert(rv[i - 1].depth == rows@[i - 1].depth);
    let pi = i - 1;
    assert(parent_before(rv, o as int, d as nat) == Some(pi as nat));
    // The first line that is that row's own line.
    let mut q: usize = 0;
    while q < items.len()
        invariant
            q <= items@.len(),
            iv == item_views(items@),
            rv == row_views(rows@),
            sel < iv.len(),
            o == iv[sel as int].owner,
            o < rv.len(),
            !rv[o as int].expanded,
            d as nat == rv[o as int].depth,
            parent_before(rv, o as int, d as nat) == Some(pi as nat),
            row_line_from(iv, pi as nat, 0) == row_line_from(iv, pi as nat, q as int),
        decreases items@.len() - q,
    {
        assert(iv[q as int].row == match items@[q as int].row {
            Some(x) => Some(x as nat),
            None => None,
        });
        match items[q].row {
            Some(x) => {
                if x == pi {
                    assert(iv[q as int].row == Some(pi as nat));
                    assert(row_line_from(iv, pi as nat, q as int) == Some(q as nat));
                    return LeftMove::Select(q);
                }
            },
            None => {},
        }
        q = q + 1;
    }
    LeftMove::Stay
}

/// The row that the selected line belongs to: its path, whether it has
/// children, and whether it is expanded.
fn selected_info(rows: &Vec<Row>, items: &Vec<DisplayItem>, sel: usize) -> (r: Option<
    (Vec<u8>, bool, bool),
>)
    requires
        rows_consistent(rows@),
    ensures
        ({
            let iv = item_views(items@);
            let rv = row_views(rows@);
            if sel < iv.len() && iv[sel as int].owner < rv.len() {
                let row = rv[iv[sel as int].owner as int];
                r matches Some(t) && t.0@ == row.node.path@ && t.1 == (row.node.children@.len() > 0)
                    && t.2 == row.expanded
            } else {
                r is None
            }
        }),
{
    if sel >= items.len() {
        return None;
    }
    let o = items[sel].owner;
    assert(item_views(items@)[sel as int].owner == o);
    if o >= rows.len() {
        return None;
    }
    let row = &rows[o];
    assert(row_views(rows@)[o as int] == row@);
    Some((copy_bytes(&row.node.path), row.has_children, row.expanded))
}

impl App {
    /// Handles one key press. Returns what the caller does next.
    pub fn handle_key(&mut self, key: KeyInput) -> (r: KeyOutcome)
        requires
            old(self).wf(),
        ensures
            final(self).wf(),
            final(self)@ == (AppModel { editor: final(self)@.editor, ..step(old(self)@, key) }),
            edits_prompt(old(self)@, key) ==> editor_step(
                old(self)@.editor,
                key,
                final(self)@.editor,
            ),
            !edits_prompt(old(self)@, key) ==> final(self)@.editor == old(self)@.editor,
            r == outcome(old(self)@, key),
    {
        match key.code {
            KeyCode::Char('c') => {
                if key.modifiers / 2 % 2 == 1 {
                    return KeyOutcome::Quit;
                }
            },
            _ => {},
        }
        match self.input_mode {
            InputMode::Normal => self.handle_normal_key(key),
            InputMode::Filter => self.handle_filter_key(key),
            InputMode::Help => self.handle_help_key(key),
        }
    }

    fn handle_normal_key(&mut self, key: KeyInput) -> (r: KeyOutcome)
        requires
            old(self).wf(),
            old(self)@.mode == InputMode::Normal,
            !is_ctrl_c(key),
        ensures
            final(self).wf(),
            final(self)@ == normal_step(old(self)@, key),
            r == outcome(old(self)@, key),
    {
        // Any keystroke dismisses a status message; a rescan reports its own.
        self.status = None;
        let ghost m = old(self)@;
        let ghost m0 = AppModel { status: None, ..m };
        assert(self@ == m0);
        let rows = self.rows();
        let items = self.build_display_items(&rows);
        let n = items.len();
        assert(item_views(items@) == items_of(m));
        match key.code {
            KeyCode::Char('q') | KeyCode::Esc => KeyOutcome::Quit,
            KeyCode::Char('?') => {
                self.input_mode = InputMode::Help;
                KeyOutcome::Continue
            },
            KeyCode::Char('r') => KeyOutcome::Rescan,
            KeyCode::Char('f') => {
                self.input_mode = InputMode::Filter;
                KeyOutcome::Continue
            },
            KeyCode::Char('p') => {
                self.toggle_props_mode();
                KeyOutcome::Continue
            },
            KeyCode::Down | KeyCode::Char('j') => {
                let last = if n > 0 {
                    n - 1
                } else {
                    0
                };
                if self.selected < last {
                    self.selected = self.selected + 1;
                } else {
                    self.selected = last;
                }
                KeyOutcome::Continue
            },
            KeyCode::Up | KeyCode::Char('k') => {
                if self.selected > 0 {
                    self.selected = self.selected - 1;
                }
                KeyOutcome::Continue
            },
            KeyCode::Home | KeyCode::Char('g') => {
                self.selected = 0;
                KeyOutcome::Continue
            },
            KeyCode::End | KeyCode::Char('G') => {
                self.selected = if n > 0 {
                    n - 1
                } else {
                    0
                };
                KeyOutcome::Continue
            },
            KeyCode::Enter | KeyCode::Char(' ') => {
                let info = selected_info(&rows, &items, self.selected);
                match info {
                    Some((path, has_children, expanded)) => {
                        if has_children {
                            if expanded {
                                remove_path(&mut self.expanded, &path);
                            } else {
                                insert_path(&mut self.expanded, path);
                            }
                        }
                    },
                    None => {},
                }
                KeyOutcome::Continue
            },
            KeyCode::Right | KeyCode::Char('l') => {
                let info = selected_info(&rows, &items, self.selected);
                match info {
                    Some((path, has_children, _)) => {
                        if has_children {
                            insert_path(&mut self.expanded, path);
                        }
                    },
                    None => {},
                }
                KeyOutcome::Continue
            },
            KeyCode::Left | KeyCode::Char('h') => {
                // Collapse when expanded; on a collapsed row jump to the parent.
                let mv = left_move(&rows, &items, self.selected);
                proof {
                        let rv = rows_of(m);
                    let iv = items_of(m);
                    if m.selected < iv.len() && iv[m.selected as int].owner < rv.len() {
                        let o = iv[m.selected as int].owner;
                        if let Some(pi) = parent_before(rv, o as int, rv[o as int].depth) {
                            lemma_row_line_bound(iv, pi, 0);
                        }
                    }
                }
                match mv {
                    LeftMove::Collapse(path) => {
                        remove_path(&mut self.expanded, &path);
                    },
                    LeftMove::Select(q) => {
                        self.selected = q;
                    },
                    LeftMove::Stay => {},
                }
                KeyOutcome::Continue
            },
            KeyCode::Char('E') => {
                let mut all: Vec<Vec<u8>> = Vec::new();
                assert(path_set(all@) =~= Set::<Seq<u8>>::empty());
                collect_all_paths(&self.data.root, &mut all);
                self.expanded = all;
                assert(path_set(self.expanded@) =~= branch_paths(m.data.root));
                KeyOutcome::Continue
            },
            KeyCode::Char('C') => {
                let mut only: Vec<Vec<u8>> = Vec::new();
                only.push(copy_bytes(&self.data.root.path));
                self.expanded = only;
                assert(path_set(self.expanded@) =~= set![m.data.root.path@]) by {
                    assert(byte_views(self.expanded@)[0] == m.data.root.path@);
                }
                KeyOutcome::Continue
            },
            _ => KeyOutcome::Continue,
        }
    }

    /// Switches the properties mode: hidden, all, the saved filter (if any).
    fn toggle_props_mode(&mut self)
        requires
            old(self).wf(),
        ensures
            final(self).wf(),
            final(self)@ == ({
                let m = old(self)@;
                let p = next_props(m.props, m.saved);
                AppModel { props: p, patterns: mode_patterns(p, m.saved), ..m }
            }),
    {
        let next = match self.props_mode {
            PropsMode::Hide => PropsMode::ShowAll,
            PropsMode::ShowAll => {
                if self.saved_filter_patterns.len() == 0 {
                    PropsMode::Hide
                } else {
                    PropsMode::Filtered
                }
            },
            PropsMode::Filtered => PropsMode::Hide,
        };
        self.props_mode = next;
        self.field_patterns = patterns_for(next, &self.saved_filter_patterns);
    }

    fn handle_filter_key(&mut self, key: KeyInput) -> (r: KeyOutcome)
        requires
            old(self).wf(),
            old(self)@.mode == InputMode::Filter,
            !is_ctrl_c(key),
        ensures
            final(self).wf(),
            final(self)@ == (AppModel {
                editor: final(self)@.editor,
                ..filter_step(old(self)@, key)
            }),
            edits_prompt(old(self)@, key) ==> editor_step(
                old(self)@.editor,
                key,
                final(self)@.editor,
            ),
            !edits_prompt(old(self)@, key) ==> final(self)@.editor == old(self)@.editor,
            r == outcome(old(self)@, key),
    {
        match key.code {
            KeyCode::Enter => {
                let saved = parse_field_patterns(editor_text(&self.filter_input));
                // Switch to filtered mode if there are patterns, otherwise hide.
                if saved.len() == 0 {
                    self.props_mode = PropsMode::Hide;
                    self.field_patterns = Vec::new();
                    assert(string_views(self.field_patterns@) =~= Seq::<Seq<char>>::empty());
                } else {
                    self.props_mode = PropsMode::Filtered;
                    self.field_patterns = clone_strings(&saved);
                }
                self.saved_filter_patterns = saved;
                self.input_mode = InputMode::Normal;
                KeyOutcome::Continue
            },
            KeyCode::Esc => {
                self.input_mode = InputMode::Normal;
                KeyOutcome::Continue
            },
            _ => {
                editor_handle_key(&mut self.filter_input, key);
                KeyOutcome::Continue
            },
        }
    }

    fn handle_help_key(&mut self, key: KeyInput) -> (r: KeyOutcome)
        requires
            old(self).wf(),
            old(self)@.mode == InputMode::Help,
            !is_ctrl_c(key),
        ensures
            final(self).wf(),
            final(self)@ == help_step(old(self)@, key),
            r == outcome(old(self)@, key),
    {
        match key.code {
            KeyCode::Char('q') | KeyCode::Char('?') | KeyCode::Esc => {
                self.input_mode = InputMode::Normal;
            },
            _ => {},
        }
        KeyOutcome::Continue
    }
}

/// The footer's properties hint.
pub open spec fn props_hint(m: AppModel) -> Seq<char> {
    match m.props {
        PropsMode::Hide => "p props:hide"@,
        PropsMode::ShowAll => "p props:show-all"@,
        PropsMode::Filtered => if m.saved.len() == 0 {
            "p props:hide"@
        } else {
            "p props:filtered"@
        },
    }
}

/// The saved patterns joined with commas.
pub open spec fn saved_text(m: AppModel) -> Seq<char> {
    join(m.saved, ","@)
}

/// The footer's filter hint.
pub open spec fn filter_hint(m: AppModel) -> Seq<char> {
    if m.saved.len() == 0 {
        "f filter"@
    } else {
        "f filter:"@ + saved_text(m)
    }
}

/// The key summary shown in the footer.
pub open spec fn help_line(m: AppModel) -> Seq<char> {
    " ? help · q/esc quit · ↑↓/jk move · ←→/hl collapse/expand · enter/space toggle · E expand all · C collapse all · "@
        + props_hint(m) + " · "@ + filter_hint(m) + " · r refresh"@
}

/// The footer: a status message if there is one (flagged `true`), otherwise
/// the key summary.
pub open spec fn footer_of(m: AppModel) -> (Seq<char>, bool) {
    match m.status {
        Some(s) => (" "@ + s, true),
        None => (help_line(m), false),
    }
}

/// The properties mode as the help screen names it.
pub open spec fn props_label(m: AppModel) -> Seq<char> {
    match m.props {
        PropsMode::Hide => "hide"@,
        PropsMode::ShowAll => "show-all"@,
        PropsMode::Filtered => "filtered"@,
    }
}

/// The saved filter as the help screen shows it.
pub open spec fn filter_label(m: AppModel) -> Seq<char> {
    if m.saved.len() == 0 {
        "none"@
    } else {
        saved_text(m)
    }
}

/// A help line of one segment.
pub open spec fn help_one(text: Seq<char>, style: SegmentStyle) -> Seq<SegModel> {
    seq![SegModel { text, style }]
}

/// A help line of two segments.
pub open spec fn help_two(t1: Seq<char>, s1: SegmentStyle, t2: Seq<char>, s2: SegmentStyle) -> Seq<
    SegModel,
> {
    seq![SegModel { text: t1, style: s1 }, SegModel { text: t2, style: s2 }]
}

/// A plain help line.
pub open spec fn help_plain(text: Seq<char>) -> Seq<SegModel> {
    help_one(text, SegmentStyle::Plain)
}

/// The help screen, line by line: the keys, and the current properties mode
/// and saved filter.
pub open spec fn help_text(m: AppModel) -> Seq<Seq<SegModel>> {
    seq![
        help_two("cgtree "@, SegmentStyle::Title, "- Interactive cgroup hierarchy explorer"@, SegmentStyle::Plain),
        Seq::empty(),
        help_one("Navigation"@, SegmentStyle::Heading),
        help_plain("  ↑/↓  or  j/k        Move selection up/down"@),
        help_plain("  →/l                 Expand current node"@),
        help_plain("  ←/h                 Collapse current node (or jump to parent)"@),
        help_plain("  Enter  or  Space    Toggle expansion"@),
        help_plain("  E                   Expand all nodes"@),
        help_plain("  C                   Collapse all nodes"@),
        help_plain("  g  /  G             Jump to top / bottom"@),
        Seq::empty(),
        help_two("Properties Display "@, SegmentStyle::Heading, "(mode:"@ + props_label(m) + ")"@, SegmentStyle::Status),
        help_plain("  p                   Toggle props display mode:"@),
        help_plain("                        • Hide - No properties shown (default)"@),
        help_plain("                        • Show all - Display all cgroup properties"@),
        help_plain("                        • Filtered - Show properties matching your filter"@),
        Seq::empty(),
        help_two("Property Filtering "@, SegmentStyle::Heading, "(filter:"@ + filter_label(m) + ")"@, SegmentStyle::Status),
        help_plain("  f                   Open property filter input"@),
        help_plain("                      Type comma-separated patterns (e.g., memory,cpu)"@),
        help_plain("                      Use * to show all properties"@),
        help_plain("                      Patterns use substring matching"@),
        help_plain("  Enter               Apply filter and switch to filtered mode"@),
        help_plain("  Esc                 Cancel filter input"@),
        Seq::empty(),
        help_one("Other"@, SegmentStyle::Heading),
        help_plain("  r                   Rescan the cgroup hierarchy"@),
        help_plain("  ?                   Show this help screen"@),
        help_plain("  q  or  Esc          Quit (or close help)"@),
        Seq::empty(),
        help_one("Press ? or Esc to close this help"@, SegmentStyle::Hint),
    ]
}

/// The views of help lines.
pub open spec fn help_views(s: Seq<Vec<Segment>>) -> Seq<Seq<SegModel>> {
    s.map_values(|l: Vec<Segment>| seg_views(l@))
}

/// Adds a line to the help screen.
fn push_help(v: &mut Vec<Vec<Segment>>, line: Vec<Segment>)
    ensures
        help_views(final(v)@) == help_views(old(v)@).push(seg_views(line@)),
{
    let ghost l = seg_views(line@);
    v.push(line);
    assert(help_views(v@) =~= help_views(old(v)@).push(l));
}

/// A help line of one literal segment.
fn help_line_one(text: &str, style: SegmentStyle) -> (r: Vec<Segment>)
    ensures
        seg_views(r@) == help_one(text@, style),
{
    let mut r: Vec<Segment> = Vec::new();
    r.push(seg_lit(text, style));
    assert(seg_views(r@) =~= help_one(text@, style));
    r
}

/// A help line of two segments.
fn help_line_two(t1: &str, s1: SegmentStyle, t2: &str, s2: SegmentStyle) -> (r: Vec<Segment>)
    ensures
        seg_views(r@) == help_two(t1@, s1, t2@, s2),
{
    let mut r: Vec<Segment> = Vec::new();
    r.push(seg_lit(t1, s1));
    r.push(seg_lit(t2, s2));
    assert(seg_views(r@) =~= help_two(t1@, s1, t2@, s2));
    r
}

/// An empty help line.
fn help_blank() -> (r: Vec<Segment>)
    ensures
        seg_views(r@) == Seq::<SegModel>::empty(),
{
    let r: Vec<Segment> = Vec::new();
    assert(seg_views(r@) =~= Seq::<SegModel>::empty());
    r
}

/// `open`, then `label`, then `)`.
fn bracketed(open: &str, label: &str) -> (r: String)
    ensures
        r@ == open@ + label@ + ")"@,
{
    let mut t = String::new();
    push_str(&mut t, open);
    push_str(&mut t, label);
    push_str(&mut t, ")");
    t
}

/// The state once the hierarchy was read again as `d`: the new snapshot
/// with the expansion kept, the footer message cleared, and the selection
/// clamped to the lines now shown.
pub open spec fn rescanned(m: AppModel, d: CgroupData) -> AppModel {
    let m1 = AppModel { data: d, status: None, ..m };
    AppModel { selected: min_nat(m.selected, sat_dec(items_of(m1).len())), ..m1 }
}

impl App {
    /// Takes the result of re-reading the hierarchy. A new snapshot replaces
    /// the old one and keeps the expansion state, with the selection clamped
    /// to the lines now shown; a failure keeps the old snapshot and shows why
    /// in the footer.
    pub fn finish_rescan(&mut self, result: Result<CgroupData, String>)
        requires
            old(self).wf(),
            result matches Ok(d) ==> height(d.root) < usize::MAX,
        ensures
            final(self).wf(),
            match result {
                Ok(d) => final(self)@ == rescanned(old(self)@, d),
                Err(e) => final(self)@ == AppModel {
                    status: Some("rescan failed: "@ + e@),
                    ..old(self)@
                },
            },
    {
        match result {
            Ok(data) => {
                self.data = data;
                self.status = None;
                self.clamp_selection();
            },
            Err(e) => {
                let mut msg = String::new();
                push_str(&mut msg, "rescan failed: ");
                push_str(&mut msg, e.as_str());
                self.status = Some(msg);
            },
        }
    }

    /// Clamps the selection to the lines shown and returns those lines.
    fn clamp_selection(&mut self) -> (r: Vec<DisplayItem>)
        requires
            old(self).wf(),
        ensures
            final(self).wf(),
            item_views(r@) == items_of(old(self)@),
            final(self)@ == (AppModel {
                selected: min_nat(old(self)@.selected, sat_dec(items_of(old(self)@).len())),
                ..old(self)@
            }),
    {
        let items = {
            let rows = self.rows();
            self.build_display_items(&rows)
        };
        let last = if items.len() > 0 {
            items.len() - 1
        } else {
            0
        };
        if self.selected > last {
            self.selected = last;
        }
        items
    }

    /// The lines to draw, with the selection clamped to them (a collapse or
    /// a rescan may have shrunk the list).
    pub fn visible_items(&mut self) -> (r: Vec<DisplayItem>)
        requires
            old(self).wf(),
        ensures
            final(self).wf(),
            item_views(r@) == items_of(old(self)@),
            final(self)@ == (AppModel {
                selected: min_nat(old(self)@.selected, sat_dec(items_of(old(self)@).len())),
                ..old(self)@
            }),
    {
        self.clamp_selection()
    }

    /// The footer text, and whether it is a status message.
    pub fn footer(&self) -> (r: (String, bool))
        requires
            self.wf(),
        ensures
            r.0@ == footer_of(self@).0,
            r.1 == footer_of(self@).1,
    {
        match &self.status {
            Some(st) => {
                let mut t = String::new();
                push_str(&mut t, " ");
                push_str(&mut t, st.as_str());
                (t, true)
            },
            None => {
                let mut t = String::new();
                push_str(
                    &mut t,
                    " ? help · q/esc quit · ↑↓/jk move · ←→/hl collapse/expand · enter/space toggle · E expand all · C collapse all · ",
                );
                match self.props_mode {
                    PropsMode::Hide => push_str(&mut t, "p props:hide"),
                    PropsMode::ShowAll => push_str(&mut t, "p props:show-all"),
                    PropsMode::Filtered => {
                        if self.saved_filter_patterns.len() == 0 {
                            push_str(&mut t, "p props:hide");
                        } else {
                            push_str(&mut t, "p props:filtered");
                        }
                    },
                }
                push_str(&mut t, " · ");
                if self.saved_filter_patterns.len() == 0 {
                    push_str(&mut t, "f filter");
                } else {
                    push_str(&mut t, "f filter:");
                    let j = join_strings(&self.saved_filter_patterns, ",");
                    push_str(&mut t, j.as_str());
                }
                push_str(&mut t, " · r refresh");
                (t, false)
            },
        }
    }

    /// The properties mode as the help screen names it.
    pub fn props_label(&self) -> (r: String)
        ensures
            r@ == props_label(self@),
    {
        let mut t = String::new();
        match self.props_mode {
            PropsMode::Hide => push_str(&mut t, "hide"),
            PropsMode::ShowAll => push_str(&mut t, "show-all"),
            PropsMode::Filtered => push_str(&mut t, "filtered"),
        }
        t
    }

    /// The saved filter as the help screen shows it.
    pub fn filter_label(&self) -> (r: String)
        ensures
            r@ == filter_label(self@),
    {
        if self.saved_filter_patterns.len() == 0 {
            let mut t = String::new();
            push_str(&mut t, "none");
            t
        } else {
            join_strings(&self.saved_filter_patterns, ",")
        }
    }

    /// The lines of the help screen.
    pub fn help_lines(&self) -> (r: Vec<Vec<Segment>>)
        ensures
            help_views(r@) == help_text(self@),
    {
        let mode = bracketed("(mode:", self.props_label().as_str());
        let filter = bracketed("(filter:", self.filter_label().as_str());
        let mut v: Vec<Vec<Segment>> = Vec::new();
        assert(help_views(v@) =~= Seq::<Seq<SegModel>>::empty());
        push_help(&mut v, help_line_two("cgtree ", SegmentStyle::Title, "- Interactive cgroup hierarchy explorer", SegmentStyle::Plain));
        push_help(&mut v, help_blank());
        push_help(&mut v, help_line_one("Navigation", SegmentStyle::Heading));
        push_help(&mut v, help_line_one("  ↑/↓  or  j/k        Move selection up/down", SegmentStyle::Plain));
        push_help(&mut v, help_line_one("  →/l                 Expand current node", SegmentStyle::Plain));
        push_help(&mut v, help_line_one("  ←/h                 Collapse current node (or jump to parent)", SegmentStyle::Plain));
        push_help(&mut v, help_line_one("  Enter  or  Space    Toggle expansion", SegmentStyle::Plain));
        push_help(&mut v, help_line_one("  E                   Expand all nodes", SegmentStyle::Plain));
        push_help(&mut v, help_line_one("  C                   Collapse all nodes", SegmentStyle::Plain));
        push_help(&mut v, help_line_one("  g  /  G             Jump to top / bottom", SegmentStyle::Plain));
        push_help(&mut v, help_blank());
        push_help(&mut v, help_line_two("Properties Display ", SegmentStyle::Heading, mode.as_str(), SegmentStyle::Status));
        push_help(&mut v, help_line_one("  p                   Toggle props display mode:", SegmentStyle::Plain));
        push_help(&mut v, help_line_one("                        • Hide - No properties shown (default)", SegmentStyle::Plain));
        push_help(&mut v, help_line_one("                        • Show all - Display all cgroup properties", SegmentStyle::Plain));
        push_help(&mut v, help_line_one("                        • Filtered - Show properties matching your filter", SegmentStyle::Plain));
        push_help(&mut v, help_blank());
        push_help(&mut v, help_line_two("Property Filtering ", SegmentStyle::Heading, filter.as_str(), SegmentStyle::Status));
        push_help(&mut v, help_line_one("  f                   Open property filter input", SegmentStyle::Plain));
        push_help(&mut v, help_line_one("                      Type comma-separated patterns (e.g., memory,cpu)", SegmentStyle::Plain));
        push_help(&mut v, help_line_one("                      Use * to show all properties", SegmentStyle::Plain));
        push_help(&mut v, help_line_one("                      Patterns use substring matching", SegmentStyle::Plain));
        push_help(&mut v, help_line_one("  Enter               Apply filter and switch to filtered mode", SegmentStyle::Plain));
        push_help(&mut v, help_line_one("  Esc                 Cancel filter input", SegmentStyle::Plain));
        push_help(&mut v, help_blank());
        push_help(&mut v, help_line_one("Other", SegmentStyle::Heading));
        push_help(&mut v, help_line_one("  r                   Rescan the cgroup hierarchy", SegmentStyle::Plain));
        push_help(&mut v, help_line_one("  ?                   Show this help screen", SegmentStyle::Plain));
        push_help(&mut v, help_line_one("  q  or  Esc          Quit (or close help)", SegmentStyle::Plain));
        push_help(&mut v, help_blank());
        push_help(&mut v, help_line_one("Press ? or Esc to close this help", SegmentStyle::Hint));
        v
    }

    /// Where key presses go.
    pub fn input_mode(&self) -> (r: InputMode)
        ensures
            r == self@.mode,
    {
        self.input_mode
    }

    /// Index of the selected display line.
    pub fn selected(&self) -> (r: usize)
        ensures
            r as nat == self@.selected,
    {
        self.selected
    }

    /// The root that a rescan reads.
    pub fn root(&self) -> (r: &str)
        ensures
            r@ == self@.root,
    {
        self.root.as_str()
    }

    /// The text of the filter prompt.
    pub fn filter_text(&self) -> (r: &str)
        ensures
            r@ == input_text(self@.editor),
    {
        editor_text(&self.filter_input)
    }

    /// The text editor of the filter prompt, for drawing it.
    pub fn filter_input(&self) -> (r: &Input)
        ensures
            *r == self@.editor,
    {
        &self.filter_input
    }
}

/// The display lines of `k` rows are at least `k`: each row has its own line.
proof fn lemma_items_upto_len(rows: Seq<RowModel>, k: int, patterns: Seq<Seq<char>>)
    requires
        0 <= k <= rows.len(),
    ensures
        items_upto(rows, k, patterns).len() >= k,
    decreases k,
{
    if k > 0 {
        lemma_items_upto_len(rows, k - 1, patterns);
    }
}

/// The explorer always shows at least one line: the root's.
pub proof fn law_root_line_shown(m: AppModel)
    ensures
        items_of(m).len() >= 1,
        items_of(m)[0].row == Some(0nat),
{
    let rows = rows_of(m);
    assert(rows.len() >= 1);
    lemma_items_upto_len(rows, rows.len() as int, m.patterns);
    lemma_items_upto_first(rows, rows.len() as int, m.patterns);
}

proof fn lemma_items_upto_first(rows: Seq<RowModel>, k: int, patterns: Seq<Seq<char>>)
    requires
        1 <= k <= rows.len(),
    ensures
        items_upto(rows, k, patterns)[0].row == Some(0nat),
    decreases k,
{
    let a = items_upto(rows, k - 1, patterns);
    let b = row_items(rows[k - 1], (k - 1) as nat, patterns);
    assert(items_upto(rows, k, patterns) == a + b);
    if k > 1 {
        lemma_items_upto_first(rows, k - 1, patterns);
        lemma_items_upto_len(rows, k - 1, patterns);
        assert((a + b)[0] == a[0]);
    } else {
        assert(a.len() == 0);
        assert((a + b)[0] == b[0]);
    }
}

/// Once the lines are drawn, the selection is on one of them.
pub proof fn law_drawn_selection_in_range(m: AppModel)
    ensures
        min_nat(m.selected, sat_dec(items_of(m).len())) < items_of(m).len(),
{
    law_root_line_shown(m);
}

/// Moving the selection (down, up, top, bottom) keeps it on a shown line.
pub proof fn law_moves_stay_in_range(m: AppModel, k: KeyInput)
    requires
        m.mode == InputMode::Normal,
        m.selected < items_of(m).len(),
        !is_ctrl_c(k),
        k.code == KeyCode::Down || k.code == KeyCode::Up || k.code == KeyCode::Home || k.code
            == KeyCode::End || k.code == KeyCode::Char('j') || k.code == KeyCode::Char('k')
            || k.code == KeyCode::Char('g') || k.code == KeyCode::Char('G'),
    ensures
        step(m, k).selected < items_of(step(m, k)).len(),
        items_of(step(m, k)) == items_of(m),
{
    law_root_line_shown(m);
    assert(rows_of(step(m, k)) == rows_of(m));
}

/// A key pressed without Control.
pub open spec fn plain(code: KeyCode) -> KeyInput {
    KeyInput { code, modifiers: 0 }
}

/// A key pressed with Control.
pub open spec fn ctrl_key(c: char) -> KeyInput {
    KeyInput { code: KeyCode::Char(c), modifiers: 2 }
}

/// Control-C quits from the tree, the filter prompt and the help screen
/// alike, and changes nothing.
pub proof fn law_ctrl_c_quits(m: AppModel)
    ensures
        outcome(m, ctrl_key('c')) == KeyOutcome::Quit,
        step(m, ctrl_key('c')) == m,
{
}

/// While the help screen is open only `q`, `?` and Esc do anything: they
/// close it. Other keys neither move the selection nor quit.
pub proof fn law_help_is_modal(m: AppModel, k: KeyInput)
    requires
        m.mode == InputMode::Help,
    ensures
        !is_ctrl_c(k) ==> outcome(m, k) == KeyOutcome::Continue,
        (k.code == KeyCode::Char('q') || k.code == KeyCode::Char('?') || k.code == KeyCode::Esc)
            ==> step(m, k) == (AppModel { mode: InputMode::Normal, ..m }),
        !(k.code == KeyCode::Char('q') || k.code == KeyCode::Char('?') || k.code == KeyCode::Esc)
            ==> step(m, k) == m,
{
}

/// At the filter prompt, plain keys are text: they never quit or move
/// anything; the character goes into the text at the cursor.
pub proof fn law_prompt_keys_are_text(m: AppModel, c: char, e1: Input)
    requires
        m.mode == InputMode::Filter,
        editor_step(m.editor, plain(KeyCode::Char(c)), e1),
    ensures
        outcome(m, plain(KeyCode::Char(c))) == KeyOutcome::Continue,
        edits_prompt(m, plain(KeyCode::Char(c))),
        step(m, plain(KeyCode::Char(c))) == m,
        input_text(e1) == input_text(m.editor).insert(input_cursor(m.editor) as int, c),
        input_cursor(e1) == input_cursor(m.editor) + 1,
{
}

/// `p` cycles the properties display: hidden, all, the saved filter (when
/// one was applied), and back to hidden.
pub proof fn law_props_cycle(m: AppModel)
    requires
        model_wf(m),
        m.mode == InputMode::Normal,
        m.props == PropsMode::Hide,
    ensures
        ({
            let p = plain(KeyCode::Char('p'));
            let m1 = step(m, p);
            let m2 = step(m1, p);
            let m3 = step(m2, p);
            &&& m1.props == PropsMode::ShowAll
            &&& m1.patterns == seq![seq!['*']]
            &&& if m.saved.len() == 0 {
                m2 == AppModel { status: None, ..m }
            } else {
                &&& m2.props == PropsMode::Filtered
                &&& m2.patterns == m.saved
                &&& m3 == AppModel { status: None, ..m }
            }
        }),
{
}

/// Applying a filter from the prompt shows exactly the properties that the
/// typed patterns select, and hides them all when it names no pattern.
pub proof fn law_applied_filter_selects(m: AppModel)
    requires
        model_wf(m),
        m.mode == InputMode::Filter,
    ensures
        ({
            let m1 = step(m, plain(KeyCode::Enter));
            &&& m1.mode == InputMode::Normal
            &&& m1.saved == patterns_of(input_text(m.editor))
            &&& m1.patterns == patterns_of(input_text(m.editor))
            &&& model_wf(m1)
        }),
{
}

proof fn lemma_branch_paths_upto_sub(s: Seq<CgroupNode>, k: int, i: int)
    requires
        0 <= i < k <= s.len(),
    ensures
        branch_paths(s[i]).subset_of(branch_paths_upto(s, k)),
    decreases k,
{
    if i < k - 1 {
        lemma_branch_paths_upto_sub(s, k - 1, i);
    }
}

proof fn lemma_flat_node_all(n: CgroupNode, depth: nat, anc: Seq<bool>, last: bool, exp: Set<Seq<u8>>)
    requires
        branch_paths(n).subset_of(exp),
    ensures
        flat_node(n, depth, anc, last, exp).len() == node_count(n),
    decreases n, 0nat,
{
    let k = n.children@.len() as int;
    if k > 0 {
        assert(branch_paths(n).contains(n.path@));
        assert forall|i: int| 0 <= i < k implies branch_paths(#[trigger] n.children@[i]).subset_of(
            exp,
        ) by {
            lemma_branch_paths_upto_sub(n.children@, k, i);
        }
        lemma_flat_upto_all(n.children@, k, depth + 1, child_lines(depth, anc, last), exp);
    }
}

proof fn lemma_flat_upto_all(s: Seq<CgroupNode>, k: int, depth: nat, anc: Seq<bool>, exp: Set<Seq<u8>>)
    requires
        0 <= k <= s.len(),
        forall|i: int| 0 <= i < k ==> branch_paths(#[trigger] s[i]).subset_of(exp),
    ensures
        flat_upto(s, k, depth, anc, exp).len() == count_upto(s, k),
    decreases s, k,
{
    if k > 0 {
        lemma_flat_upto_all(s, k - 1, depth, anc, exp);
        lemma_flat_node_all(s[k - 1], depth, anc, k - 1 == s.len() - 1, exp);
    }
}

/// `E` expands every cgroup that has children, so every cgroup gets a row.
pub proof fn law_expand_all_shows_every_cgroup(m: AppModel)
    requires
        m.mode == InputMode::Normal,
    ensures
        rows_of(step(m, plain(KeyCode::Char('E')))).len() == node_count(m.data.root),
{
    let m1 = step(m, plain(KeyCode::Char('E')));
    assert(m1.expanded == branch_paths(m.data.root));
    lemma_flat_node_all(m.data.root, 0, Seq::empty(), true, m1.expanded);
}

proof fn lemma_flat_upto_collapsed(s: Seq<CgroupNode>, k: int, depth: nat, anc: Seq<bool>, exp: Set<Seq<u8>>)
    requires
        0 <= k <= s.len(),
        forall|i: int| 0 <= i < k ==> !exp.contains(#[trigger] s[i].path@),
    ensures
        flat_upto(s, k, depth, anc, exp).len() == k,
    decreases k,
{
    if k > 0 {
        lemma_flat_upto_collapsed(s, k - 1, depth, anc, exp);
        assert(!exp.contains(s[k - 1].path@));
        assert(flat_node(s[k - 1], depth, anc, k - 1 == s.len() - 1, exp).len() == 1);
    }
}

/// `C` collapses everything but the root: the root and its children are
/// the only rows (cgroups are told apart by their paths).
pub proof fn law_collapse_all_shows_root_level(m: AppModel)
    requires
        m.mode == InputMode::Normal,
        forall|i: int|
            0 <= i < m.data.root.children@.len() ==> #[trigger] m.data.root.children@[i].path@
                != m.data.root.path@,
    ensures
        rows_of(step(m, plain(KeyCode::Char('C')))).len() == 1 + m.data.root.children@.len(),
{
    let m1 = step(m, plain(KeyCode::Char('C')));
    let root = m.data.root;
    assert(m1.expanded == set![root.path@]);
    assert(m1.expanded.contains(root.path@));
    lemma_flat_upto_collapsed(
        root.children@,
        root.children@.len() as int,
        1,
        Seq::empty(),
        m1.expanded,
    );
    assert(child_lines(0, Seq::empty(), true) == Seq::<bool>::empty());
}

/// How many cgroups in the subtree at `n` have the path `p`.
pub open spec fn path_count(n: CgroupNode, p: Seq<u8>) -> nat
    decreases n, 0nat,
{
    (if n.path@ == p {
        1nat
    } else {
        0nat
    }) + path_count_upto(n.children@, n.children@.len() as int, p)
}

/// How many cgroups in the first `k` subtrees of `s` have the path `p`.
pub open spec fn path_count_upto(s: Seq<CgroupNode>, k: int, p: Seq<u8>) -> nat
    decreases s, k,
{
    if k <= 0 || k > s.len() {
        0
    } else {
        path_count_upto(s, k - 1, p) + path_count(s[k - 1], p)
    }
}

/// The rows of a subtree that holds no cgroup with path `p` do not depend
/// on whether `p` is expanded.
proof fn lemma_flat_node_unaffected(
    n: CgroupNode,
    depth: nat,
    anc: Seq<bool>,
    last: bool,
    exp: Set<Seq<u8>>,
    exp2: Set<Seq<u8>>,
    p: Seq<u8>,
)
    requires
        path_count(n, p) == 0,
        forall|q: Seq<u8>| q != p ==> exp.contains(q) == exp2.contains(q),
    ensures
        flat_node(n, depth, anc, last, exp) == flat_node(n, depth, anc, last, exp2),
    decreases n, 0nat,
{
    let k = n.children@.len() as int;
    lemma_flat_upto_unaffected(n.children@, k, depth + 1, child_lines(depth, anc, last), exp, exp2, p);
}

proof fn lemma_flat_upto_unaffected(
    s: Seq<CgroupNode>,
    k: int,
    depth: nat,
    anc: Seq<bool>,
    exp: Set<Seq<u8>>,
    exp2: Set<Seq<u8>>,
    p: Seq<u8>,
)
    requires
        0 <= k <= s.len(),
        path_count_upto(s, k, p) == 0,
        forall|q: Seq<u8>| q != p ==> exp.contains(q) == exp2.contains(q),
    ensures
        flat_upto(s, k, depth, anc, exp) == flat_upto(s, k, depth, anc, exp2),
    decreases s, k,
{
    if k > 0 {
        lemma_flat_upto_unaffected(s, k - 1, depth, anc, exp, exp2, p);
        lemma_flat_node_unaffected(s[k - 1], depth, anc, k - 1 == s.len() - 1, exp, exp2, p);
    }
}

/// Every row of a subtree is a cgroup of that subtree.
proof fn lemma_flat_node_counts(
    n: CgroupNode,
    depth: nat,
    anc: Seq<bool>,
    last: bool,
    exp: Set<Seq<u8>>,
    i: int,
)
    requires
        0 <= i < flat_node(n, depth, anc, last, exp).len(),
    ensures
        path_count(n, flat_node(n, depth, anc, last, exp)[i].node.path@) >= 1,
    decreases n, 0nat,
{
    let f = flat_node(n, depth, anc, last, exp);
    if i > 0 {
        let k = n.children@.len() as int;
        let ch = child_lines(depth, anc, last);
        let c = flat_upto(n.children@, k, depth + 1, ch, exp);
        assert(exp.contains(n.path@) && k > 0);
        assert(f[i] == c[i - 1]);
        lemma_flat_upto_counts(n.children@, k, depth + 1, ch, exp, i - 1);
    }
}

proof fn lemma_flat_upto_counts(
    s: Seq<CgroupNode>,
    k: int,
    depth: nat,
    anc: Seq<bool>,
    exp: Set<Seq<u8>>,
    i: int,
)
    requires
        0 <= k <= s.len(),
        0 <= i < flat_upto(s, k, depth, anc, exp).len(),
    ensures
        path_count_upto(s, k, flat_upto(s, k, depth, anc, exp)[i].node.path@) >= 1,
    decreases s, k,
{
    let f = flat_upto(s, k, depth, anc, exp);
    let a = flat_upto(s, k - 1, depth, anc, exp);
    let b = flat_node(s[k - 1], depth, anc, k - 1 == s.len() - 1, exp);
    assert(f == a + b);
    if i < a.len() {
        assert(f[i] == a[i]);
        lemma_flat_upto_counts(s, k - 1, depth, anc, exp, i);
    } else {
        assert(f[i] == b[i - a.len()]);
        lemma_flat_node_counts(s[k - 1], depth, anc, k - 1 == s.len() - 1, exp, i - a.len());
    }
}

/// Two rows that differ at most in whether they are expanded.
pub open spec fn same_row_but_expanded(a: RowModel, b: RowModel) -> bool {
    &&& a.node == b.node
    &&& a.depth == b.depth
    &&& a.is_last == b.is_last
    &&& a.lines == b.lines
}

/// Expanding or collapsing the cgroup at path `p`, shown as row `o`, leaves
/// the rows before it as they were and changes row `o` only in whether it is
/// expanded (when no other cgroup has the path `p`).
proof fn lemma_flat_node_toggle(
    n: CgroupNode,
    depth: nat,
    anc: Seq<bool>,
    last: bool,
    exp: Set<Seq<u8>>,
    exp2: Set<Seq<u8>>,
    p: Seq<u8>,
    o: int,
)
    requires
        forall|q: Seq<u8>| q != p ==> exp.contains(q) == exp2.contains(q),
        path_count(n, p) <= 1,
        0 <= o < flat_node(n, depth, anc, last, exp).len(),
        flat_node(n, depth, anc, last, exp)[o].node.path@ == p,
    ensures
        ({
            let f1 = flat_node(n, depth, anc, last, exp);
            let f2 = flat_node(n, depth, anc, last, exp2);
            &&& o < f2.len()
            &&& forall|i: int| 0 <= i < o ==> f2[i] == f1[i]
            &&& same_row_but_expanded(f1[o], f2[o])
            &&& f1[o].expanded == exp.contains(p)
            &&& f2[o].expanded == exp2.contains(p)
        }),
    decreases n, 0nat,
{
    let f1 = flat_node(n, depth, anc, last, exp);
    let f2 = flat_node(n, depth, anc, last, exp2);
    if o > 0 {
        let k = n.children@.len() as int;
        let ch = child_lines(depth, anc, last);
        let c1 = flat_upto(n.children@, k, depth + 1, ch, exp);
        let c2 = flat_upto(n.children@, k, depth + 1, ch, exp2);
        assert(exp.contains(n.path@) && k > 0);
        assert(f1[o] == c1[o - 1]);
        lemma_flat_upto_counts(n.children@, k, depth + 1, ch, exp, o - 1);
        assert(n.path@ != p);
        assert(exp2.contains(n.path@));
        lemma_flat_upto_toggle(n.children@, k, depth + 1, ch, exp, exp2, p, o - 1);
        assert(f2[o] == c2[o - 1]);
        assert forall|i: int| 0 <= i < o implies f2[i] == f1[i] by {
            if i > 0 {
                assert(f2[i] == c2[i - 1]);
                assert(f1[i] == c1[i - 1]);
            }
        }
    }
}

proof fn lemma_flat_upto_toggle(
    s: Seq<CgroupNode>,
    k: int,
    depth: nat,
    anc: Seq<bool>,
    exp: Set<Seq<u8>>,
    exp2: Set<Seq<u8>>,
    p: Seq<u8>,
    o: int,
)
    requires
        0 <= k <= s.len(),
        forall|q: Seq<u8>| q != p ==> exp.contains(q) == exp2.contains(q),
        path_count_upto(s, k, p) <= 1,
        0 <= o < flat_upto(s, k, depth, anc, exp).len(),
        flat_upto(s, k, depth, anc, exp)[o].node.path@ == p,
    ensures
        ({
            let f1 = flat_upto(s, k, depth, anc, exp);
            let f2 = flat_upto(s, k, depth, anc, exp2);
            &&& o < f2.len()
            &&& forall|i: int| 0 <= i < o ==> f2[i] == f1[i]
            &&& same_row_but_expanded(f1[o], f2[o])
            &&& f1[o].expanded == exp.contains(p)
            &&& f2[o].expanded == exp2.contains(p)
        }),
    decreases s, k,
{
    let last = k - 1 == s.len() - 1;
    let f1 = flat_upto(s, k, depth, anc, exp);
    let f2 = flat_upto(s, k, depth, anc, exp2);
    let a1 = flat_upto(s, k - 1, depth, anc, exp);
    let a2 = flat_upto(s, k - 1, depth, anc, exp2);
    let b1 = flat_node(s[k - 1], depth, anc, last, exp);
    let b2 = flat_node(s[k - 1], depth, anc, last, exp2);
    assert(f1 == a1 + b1);
    assert(f2 == a2 + b2);
    if o < a1.len() {
        assert(f1[o] == a1[o]);
        lemma_flat_upto_toggle(s, k - 1, depth, anc, exp, exp2, p, o);
        assert(f2[o] == a2[o]);
        assert forall|i: int| 0 <= i < o implies f2[i] == f1[i] by {
            assert(f2[i] == a2[i]);
            assert(f1[i] == a1[i]);
        }
    } else {
        let o2 = o - a1.len();
        assert(f1[o] == b1[o2]);
        lemma_flat_node_counts(s[k - 1], depth, anc, last, exp, o2);
        lemma_flat_upto_unaffected(s, k - 1, depth, anc, exp, exp2, p);
        lemma_flat_node_toggle(s[k - 1], depth, anc, last, exp, exp2, p, o2);
        assert(f2[o] == b2[o2]);
        assert forall|i: int| 0 <= i < o implies f2[i] == f1[i] by {
            if i < a1.len() {
                assert(f2[i] == a2[i]);
                assert(f1[i] == a1[i]);
            } else {
                assert(f2[i] == b2[i - a1.len()]);
                assert(f1[i] == b1[i - a1.len()]);
            }
        }
    }
}

proof fn lemma_field_items_owner(fs: Seq<FieldEntry>, prefix: Seq<char>, owner: nat)
    ensures
        forall|j: int|
            0 <= j < field_items(fs, prefix, owner).len() ==> #[trigger] field_items(
                fs,
                prefix,
                owner,
            )[j].owner == owner && field_items(fs, prefix, owner)[j].row is None,
    decreases fs.len(),
{
    if fs.len() > 0 {
        lemma_field_items_owner(fs.drop_last(), prefix, owner);
        let a = field_items(fs.drop_last(), prefix, owner);
        let b = field_line_segs(prefix, fs.last()).map_values(
            |segs: Seq<SegModel>| ItemModel { segs, row: None, owner },
        );
        assert(field_items(fs, prefix, owner) == a + b);
        assert forall|j: int| 0 <= j < a.len() + b.len() implies (a + b)[j].owner == owner && (a
            + b)[j].row is None by {
            if j < a.len() {
                assert((a + b)[j] == a[j]);
            } else {
                assert((a + b)[j] == b[j - a.len()]);
            }
        }
    }
}

/// Every line of row `idx` belongs to row `idx`, and only the first is the
/// row's own line.
proof fn lemma_row_items_owner(r: RowModel, idx: nat, patterns: Seq<Seq<char>>)
    ensures
        forall|j: int|
            0 <= j < row_items(r, idx, patterns).len() ==> #[trigger] row_items(
                r,
                idx,
                patterns,
            )[j].owner == idx && (row_items(r, idx, patterns)[j].row is Some ==> j == 0),
        row_items(r, idx, patterns)[0].row == Some(idx),
{
    let fs = field_items(selected_fields(r.node.fields@, patterns), prefix_of(r), idx);
    lemma_field_items_owner(selected_fields(r.node.fields@, patterns), prefix_of(r), idx);
    let h = seq![ItemModel { segs: tree_segs(r), row: Some(idx), owner: idx }];
    assert(row_items(r, idx, patterns) == h + fs);
    assert forall|j: int| 0 <= j < h.len() + fs.len() implies (h + fs)[j].owner == idx && ((h
        + fs)[j].row is Some ==> j == 0) by {
        if j > 0 {
            assert((h + fs)[j] == fs[j - 1]);
        }
    }
}

/// The lines of the first `k` rows start the lines of the first `k2` rows,
/// and the lines after them belong to rows from `k` on.
proof fn lemma_items_upto_extend(rows: Seq<RowModel>, k: int, k2: int, patterns: Seq<Seq<char>>)
    requires
        0 <= k <= k2 <= rows.len(),
    ensures
        ({
            let a = items_upto(rows, k, patterns);
            let b = items_upto(rows, k2, patterns);
            &&& a.len() <= b.len()
            &&& forall|j: int| 0 <= j < a.len() ==> b[j] == a[j]
            &&& forall|j: int| a.len() <= j < b.len() ==> b[j].owner >= k
        }),
    decreases k2,
{
    if k < k2 {
        lemma_items_upto_extend(rows, k, k2 - 1, patterns);
        let a = items_upto(rows, k, patterns);
        let c = items_upto(rows, k2 - 1, patterns);
        let d = row_items(rows[k2 - 1], (k2 - 1) as nat, patterns);
        let b = items_upto(rows, k2, patterns);
        assert(b == c + d);
        lemma_row_items_owner(rows[k2 - 1], (k2 - 1) as nat, patterns);
        assert forall|j: int| 0 <= j < a.len() implies b[j] == a[j] by {
            assert(b[j] == c[j]);
        }
        assert forall|j: int| a.len() <= j < b.len() implies b[j].owner >= k by {
            if j < c.len() {
                assert(b[j] == c[j]);
            } else {
                assert(b[j] == d[j - c.len()]);
            }
        }
    }
}

/// The lines of the first `k` rows belong to those rows.
proof fn lemma_items_upto_owners(rows: Seq<RowModel>, k: int, patterns: Seq<Seq<char>>)
    requires
        0 <= k <= rows.len(),
    ensures
        forall|j: int|
            0 <= j < items_upto(rows, k, patterns).len() ==> #[trigger] items_upto(
                rows,
                k,
                patterns,
            )[j].owner < k,
    decreases k,
{
    if k > 0 {
        lemma_items_upto_owners(rows, k - 1, patterns);
        let c = items_upto(rows, k - 1, patterns);
        let d = row_items(rows[k - 1], (k - 1) as nat, patterns);
        lemma_row_items_owner(rows[k - 1], (k - 1) as nat, patterns);
        assert(items_upto(rows, k, patterns) == c + d);
        assert forall|j: int| 0 <= j < c.len() + d.len() implies (c + d)[j].owner < k by {
            if j < c.len() {
                assert((c + d)[j] == c[j]);
            } else {
                assert((c + d)[j] == d[j - c.len()]);
            }
        }
    }
}

/// Rows that differ only in whether they are expanded have the same lines.
proof fn lemma_items_upto_same(
    rows1: Seq<RowModel>,
    rows2: Seq<RowModel>,
    k: int,
    patterns: Seq<Seq<char>>,
)
    requires
        0 <= k <= rows1.len(),
        k <= rows2.len(),
        forall|i: int| 0 <= i < k ==> same_row_but_expanded(#[trigger] rows1[i], rows2[i]),
    ensures
        items_upto(rows1, k, patterns) == items_upto(rows2, k, patterns),
    decreases k,
{
    if k > 0 {
        lemma_items_upto_same(rows1, rows2, k - 1, patterns);
        let r1 = rows1[k - 1];
        let r2 = rows2[k - 1];
        assert(same_row_but_expanded(r1, r2));
        assert(tree_segs(r1) == tree_segs(r2));
        assert(prefix_of(r1) == prefix_of(r2));
        assert(row_items(r1, (k - 1) as nat, patterns) == row_items(r2, (k - 1) as nat, patterns));
    }
}

/// Toggling the selected row keeps the selection on a line of that row,
/// which differs from before only in whether it is expanded.
proof fn lemma_toggle_keeps_selected_row(m: AppModel, exp2: Set<Seq<u8>>)
    requires
        forall|p: Seq<u8>| #[trigger] path_count(m.data.root, p) <= 1,
        selected_row(m) is Some,
        forall|q: Seq<u8>|
            q != selected_row(m)->0.node.path@ ==> m.expanded.contains(q) == exp2.contains(q),
    ensures
        ({
            let r = selected_row(m)->0;
            let m1 = AppModel { expanded: exp2, ..m };
            &&& selected_row(m1) is Some
            &&& same_row_but_expanded(r, selected_row(m1)->0)
            &&& r.expanded == m.expanded.contains(r.node.path@)
            &&& selected_row(m1)->0.expanded == exp2.contains(r.node.path@)
            &&& items_of(m1).len() > m.selected
        }),
{
    let m1 = AppModel { expanded: exp2, ..m };
    let rows1 = rows_of(m);
    let rows2 = rows_of(m1);
    let items1 = items_of(m);
    let s = m.selected as int;
    let o = items1[s].owner as int;
    let r = rows1[o];
    let p = r.node.path@;
    assert(path_count(m.data.root, p) <= 1);
    lemma_flat_node_toggle(m.data.root, 0, Seq::empty(), true, m.expanded, exp2, p, o);
    assert forall|i: int| 0 <= i < o + 1 implies same_row_but_expanded(
        #[trigger] rows1[i],
        rows2[i],
    ) by {
        if i < o {
            assert(rows2[i] == rows1[i]);
        }
    }
    lemma_items_upto_same(rows1, rows2, o + 1, m.patterns);
    let pre = items_upto(rows1, o + 1, m.patterns);
    lemma_items_upto_extend(rows1, o + 1, rows1.len() as int, m.patterns);
    lemma_items_upto_extend(rows2, o + 1, rows2.len() as int, m.patterns);
    assert(s < pre.len());
    let items2 = items_of(m1);
    assert(items2[s] == pre[s]);
    assert(items2[s] == items1[s]);
}

/// Enter (or space) pressed twice on the same line leaves the explorer as
/// it was: the second press undoes the first (cgroups are told apart by
/// their paths).
pub proof fn law_toggle_twice_restores(m: AppModel, code: KeyCode)
    requires
        m.mode == InputMode::Normal,
        code == KeyCode::Enter || code == KeyCode::Char(' '),
        forall|p: Seq<u8>| #[trigger] path_count(m.data.root, p) <= 1,
    ensures
        step(step(m, plain(code)), plain(code)) == (AppModel { status: None, ..m }),
{
    let k = plain(code);
    let m0 = AppModel { status: None, ..m };
    let m1 = step(m, k);
    assert(rows_of(m0) == rows_of(m));
    assert(items_of(m0) == items_of(m));
    assert(selected_row(m0) == selected_row(m));
    match selected_row(m) {
        Some(r) => {
            if r.node.children@.len() > 0 {
                let p = r.node.path@;
                let exp2 = if r.expanded {
                    m.expanded.remove(p)
                } else {
                    m.expanded.insert(p)
                };
                assert(m1 == AppModel { expanded: exp2, ..m0 });
                lemma_toggle_keeps_selected_row(m0, exp2);
                let r1 = selected_row(m1)->0;
                assert(r1.node == r.node);
                if r.expanded {
                    assert(m.expanded.contains(p));
                    assert(!r1.expanded);
                    assert(exp2.insert(p) =~= m.expanded);
                } else {
                    assert(!m.expanded.contains(p));
                    assert(r1.expanded);
                    assert(exp2.remove(p) =~= m.expanded);
                }
            } else {
                assert(m1 == m0);
            }
        },
        None => {
            assert(m1 == m0);
        },
    }
}

/// Right (or `l`) pressed twice does what pressing it once does: an
/// expanded row stays expanded (cgroups are told apart by their paths).
pub proof fn law_expand_is_idempotent(m: AppModel, code: KeyCode)
    requires
        m.mode == InputMode::Normal,
        code == KeyCode::Right || code == KeyCode::Char('l'),
        forall|p: Seq<u8>| #[trigger] path_count(m.data.root, p) <= 1,
    ensures
        step(step(m, plain(code)), plain(code)) == step(m, plain(code)),
{
    let k = plain(code);
    let m0 = AppModel { status: None, ..m };
    let m1 = step(m, k);
    assert(rows_of(m0) == rows_of(m));
    assert(items_of(m0) == items_of(m));
    assert(selected_row(m0) == selected_row(m));
    match selected_row(m) {
        Some(r) => {
            if r.node.children@.len() > 0 {
                let p = r.node.path@;
                let exp2 = m.expanded.insert(p);
                assert(m1 == AppModel { expanded: exp2, ..m0 });
                lemma_toggle_keeps_selected_row(m0, exp2);
                let r1 = selected_row(m1)->0;
                assert(r1.node == r.node);
                assert(exp2.insert(p) =~= exp2);
            } else {
                assert(m1 == m0);
            }
        },
        None => {
            assert(m1 == m0);
        },
    }
}

/// A row's own line belongs to that row.
proof fn lemma_items_upto_row_owner(rows: Seq<RowModel>, k: int, patterns: Seq<Seq<char>>)
    requires
        0 <= k <= rows.len(),
    ensures
        forall|x: int|
            0 <= x < items_upto(rows, k, patterns).len() && #[trigger] items_upto(
                rows,
                k,
                patterns,
            )[x].row is Some ==> items_upto(rows, k, patterns)[x].row == Some(
                items_upto(rows, k, patterns)[x].owner,
            ),
    decreases k,
{
    if k > 0 {
        lemma_items_upto_row_owner(rows, k - 1, patterns);
        let c = items_upto(rows, k - 1, patterns);
        let d = row_items(rows[k - 1], (k - 1) as nat, patterns);
        lemma_row_items_owner(rows[k - 1], (k - 1) as nat, patterns);
        assert(items_upto(rows, k, patterns) == c + d);
        assert forall|x: int| 0 <= x < c.len() + d.len() && (#[trigger] (c + d)[x]).row is Some implies (c
            + d)[x].row == Some((c + d)[x].owner) by {
            if x < c.len() {
                assert((c + d)[x] == c[x]);
            } else {
                assert((c + d)[x] == d[x - c.len()]);
            }
        }
    }
}

/// Row `j`'s own line is among the lines of the first `k` rows, for `j < k`.
proof fn lemma_items_upto_has_row(rows: Seq<RowModel>, j: int, k: int, patterns: Seq<Seq<char>>)
    requires
        0 <= j < k <= rows.len(),
    ensures
        items_upto(rows, j, patterns).len() < items_upto(rows, k, patterns).len(),
        items_upto(rows, k, patterns)[items_upto(rows, j, patterns).len() as int].row == Some(
            j as nat,
        ),
{
    lemma_items_upto_extend(rows, j + 1, k, patterns);
    let a = items_upto(rows, j, patterns);
    let d = row_items(rows[j], j as nat, patterns);
    lemma_row_items_owner(rows[j], j as nat, patterns);
    assert(items_upto(rows, j + 1, patterns) == a + d);
    assert((a + d)[a.len() as int] == d[0]);
}

/// The search for a row's line finds one when there is one.
proof fn lemma_row_line_found(items: Seq<ItemModel>, j: nat, q: int, x: int)
    requires
        0 <= q <= x < items.len(),
        items[x].row == Some(j),
    ensures
        row_line_from(items, j, q) is Some,
        items[row_line_from(items, j, q)->0 as int].row == Some(j),
    decreases items.len() - q,
{
    if items[q].row != Some(j) {
        lemma_row_line_found(items, j, q + 1, x);
    }
}

/// The search for a parent finds a row above `i` that is less deep than `d`,
/// with no such row between them.
proof fn lemma_parent_before(rows: Seq<RowModel>, i: int, d: nat)
    requires
        0 <= i <= rows.len(),
        i > 0,
        rows[0].depth < d,
    ensures
        parent_before(rows, i, d) is Some,
        ({
            let pi = parent_before(rows, i, d)->0 as int;
            &&& 0 <= pi < i
            &&& rows[pi].depth < d
            &&& forall|t: int| pi < t < i ==> #[trigger] rows[t].depth >= d
        }),
    decreases i,
{
    if rows[i - 1].depth >= d {
        lemma_parent_before(rows, i - 1, d);
    }
}

/// Left (or `h`) on a collapsed row other than the root moves the selection
/// to its parent: the nearest row above it that is less deep. Nothing is
/// expanded or collapsed.
pub proof fn law_left_on_collapsed_row_goes_to_parent(m: AppModel, code: KeyCode)
    requires
        m.mode == InputMode::Normal,
        code == KeyCode::Left || code == KeyCode::Char('h'),
        selected_row(m) matches Some(r) && !r.expanded && r.depth > 0,
    ensures
        ({
            let m1 = step(m, plain(code));
            let rows = rows_of(m);
            let o = items_of(m)[m.selected as int].owner as int;
            &&& m1.expanded == m.expanded
            &&& rows_of(m1) == rows
            &&& exists|pi: int|
                0 <= pi < o && selected_row(m1) == Some(rows[pi]) && rows[pi].depth < rows[o].depth
                    && forall|t: int| pi < t < o ==> #[trigger] rows[t].depth >= rows[o].depth
        }),
{
    let m1 = step(m, plain(code));
    let m0 = AppModel { status: None, ..m };
    let rows = rows_of(m);
    let items = items_of(m);
    let o = items[m.selected as int].owner as int;
    let r = rows[o];
    assert(rows[0].depth == 0);
    lemma_items_upto_row_owner(rows, rows.len() as int, m.patterns);
    if o == 0 {
        assert(r.depth == 0);
    }
    lemma_parent_before(rows, o, r.depth);
    let pi = parent_before(rows, o, r.depth)->0 as int;
    lemma_items_upto_has_row(rows, pi, rows.len() as int, m.patterns);
    let x = items_upto(rows, pi, m.patterns).len() as int;
    lemma_row_line_found(items, pi as nat, 0, x);
    let q = row_line_from(items, pi as nat, 0)->0;
    lemma_row_line_bound(items, pi as nat, 0);
    assert(items[q as int].row == Some(pi as nat));
    assert(items_upto(rows, rows.len() as int, m.patterns)[q as int].row is Some);
    assert(m1 == AppModel { selected: q, ..m0 });
    assert(rows_of(m1) == rows);
    assert(items_of(m1) == items);
    assert(items[q as int].owner == pi);
    assert(selected_row(m1) == Some(rows[pi]));
}

/// After the hierarchy is read again, whatever it now holds, the selection
/// is on a shown line and the same cgroups stay expanded.
pub proof fn law_rescan_keeps_selection_on_a_line(m: AppModel, d: CgroupData)
    ensures
        rescanned(m, d).selected < items_of(rescanned(m, d)).len(),
        rescanned(m, d).expanded == m.expanded,
        rescanned(m, d).data == d,
{
    let m1 = AppModel { data: d, status: None, ..m };
    law_root_line_shown(m1);
    assert(items_of(rescanned(m, d)) == items_of(m1));
}

/// Down then Up (or `j` then `k`) comes back to the same line, unless the
/// selection was already on the last line.
pub proof fn law_down_then_up_returns(m: AppModel)
    requires
        m.mode == InputMode::Normal,
        m.selected + 1 < items_of(m).len(),
    ensures
        step(step(m, plain(KeyCode::Char('j'))), plain(KeyCode::Char('k'))) == (AppModel {
            status: None,
            ..m
        }),
        step(step(m, plain(KeyCode::Down)), plain(KeyCode::Up)) == (AppModel { status: None, ..m }),
{
    let m1 = step(m, plain(KeyCode::Char('j')));
    assert(rows_of(m1) == rows_of(m));
    let m2 = step(m, plain(KeyCode::Down));
    assert(rows_of(m2) == rows_of(m));
}

/// A rescan keeps the selected line where it was when the new snapshot
/// still shows that many lines, and otherwise moves it to the last line
/// shown; the lines are those of the new snapshot with the old expansion.
pub proof fn law_rescan_keeps_the_selected_line(m: AppModel, d: CgroupData)
    ensures
        ({
            let shown = items_of(AppModel { data: d, status: None, ..m });
            let m1 = rescanned(m, d);
            &&& items_of(m1) == shown
            &&& m.selected < shown.len() ==> m1.selected == m.selected
            &&& m.selected >= shown.len() ==> m1.selected + 1 == shown.len()
            &&& m1.expanded == m.expanded
            &&& m1.mode == m.mode
            &&& m1.props == m.props
            &&& m1.patterns == m.patterns
        }),
{
    let m0 = AppModel { data: d, status: None, ..m };
    law_root_line_shown(m0);
    assert(rows_of(rescanned(m, d)) == rows_of(m0));
}

/// The text of styled segments, one after another.
pub open spec fn segs_text(s: Seq<SegModel>) -> Seq<char>
    decreases s.len(),
{
    if s.len() == 0 {
        Seq::empty()
    } else {
        segs_text(s.drop_last()) + s.last().text
    }
}

proof fn lemma_segs_text_concat(a: Seq<SegModel>, b: Seq<SegModel>)
    ensures
        segs_text(a + b) == segs_text(a) + segs_text(b),
    decreases b.len(),
{
    if b.len() > 0 {
        lemma_segs_text_concat(a, b.drop_last());
        assert((a + b).drop_last() =~= a + b.drop_last());
        assert((a + b).last() == b.last());
    } else {
        assert(a + b =~= a);
    }
}

proof fn lemma_guide_segs_text(ls: Seq<bool>)
    ensures
        segs_text(ls.map_values(|b: bool| guide_seg(b))) == guide_text(ls),
        guide_text(ls).len() == 4 * ls.len(),
    decreases ls.len(),
{
    reveal_strlit("│   ");
    reveal_strlit("    ");
    if ls.len() > 0 {
        lemma_guide_segs_text(ls.drop_last());
        let f = |b: bool| guide_seg(b);
        assert(ls.map_values(f).drop_last() =~= ls.drop_last().map_values(f));
        assert(ls.map_values(f).last() == guide_seg(ls.last()));
    } else {
        assert(ls.map_values(|b: bool| guide_seg(b)) =~= Seq::<SegModel>::empty());
    }
}

/// The properties of a row below the root are indented by the guides of the
/// row's own line, one four-column piece per ancestor level, followed by
/// four spaces: they sit beneath the row, inside its branch.
pub proof fn law_properties_sit_beneath_their_row(r: RowModel)
    requires
        r.depth > 0,
    ensures
        exists|g: Seq<char>|
            #![trigger g.len()]
            g.len() == 4 * r.lines.len() && segs_text(tree_segs(r)) == g + branch(r.is_last)
                + label_text(r.node) && prefix_of(r) == g + "    "@,
{
    let gs = r.lines.map_values(|b: bool| guide_seg(b));
    let tail = seq![
        SegModel { text: branch(r.is_last), style: SegmentStyle::Guide },
        SegModel { text: label_text(r.node), style: SegmentStyle::Plain },
    ];
    lemma_guide_segs_text(r.lines);
    lemma_segs_text_concat(gs, tail);
    assert(tail.drop_last() =~= seq![tail[0]]);
    assert(seq![tail[0]].drop_last() =~= Seq::<SegModel>::empty());
    assert(segs_text(Seq::<SegModel>::empty()) == Seq::<char>::empty());
    assert(segs_text(seq![tail[0]]) =~= branch(r.is_last));
    assert(tail.last() == tail[1]);
    assert(segs_text(tail) == segs_text(tail.drop_last()) + tail.last().text);
    assert(segs_text(tail) =~= branch(r.is_last) + label_text(r.node));
    let g = guide_text(r.lines);
    assert(segs_text(tree_segs(r)) =~= g + branch(r.is_last) + label_text(r.node));
    assert(g.len() == 4 * r.lines.len());
}

} // verus!
