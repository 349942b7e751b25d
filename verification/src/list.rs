//! The `list` output: a `tree`-style text rendering and a JSON-shaped copy
//! of the hierarchy, both cut at a depth and showing selected properties.
//!
//! A depth limit is carried as the number of levels still allowed below the
//! current node: `Some(d)` at the root allows `d` levels of descendants, and
//! each step down spends one.

use vstd::prelude::*;

use crate::data::{
    display_bytes, display_text, field_views, CgroupData, CgroupNode, FieldEntry, FieldModel,
};
use crate::filter::{deref_all, matching_fields, selected_fields, string_views};
use crate::text::{
    bounds_ok, chars_of, lemma_split_concat, lemma_split_nonempty, lemma_split_pieces_lack_sep,
    lemma_split_single, line_bounds, lines, pieces, push_range, push_str, split_on, strip_cr,
};

verus! {

/// The name of a cgroup as listed: a trailing `/` marks one with children.
pub open spec fn label_text(n: CgroupNode) -> Seq<char> {
    if n.children@.len() > 0 {
        n.name@ + "/"@
    } else {
        n.name@
    }
}

/// No further level is shown below a node with this many levels left.
pub open spec fn is_cut(left: Option<usize>) -> bool {
    left == Some(0usize)
}

/// The levels left for the children of a node.
pub open spec fn next_left(left: Option<usize>) -> Option<usize> {
    match left {
        Some(d) => Some((d - 1) as usize),
        None => None,
    }
}

/// The indented lines of a multi-line value.
pub open spec fn body_text(ls: Seq<Seq<char>>, prefix: Seq<char>) -> Seq<char>
    decreases ls.len(),
{
    if ls.len() == 0 {
        Seq::empty()
    } else {
        body_text(ls.drop_last(), prefix) + prefix + "        "@ + ls.last() + "\n"@
    }
}

/// One property under a cgroup: `name = value` on one line, or the name
/// alone followed by the value's lines indented beneath it.
pub open spec fn prop_text(name: Seq<char>, value: Seq<char>, prefix: Seq<char>) -> Seq<char> {
    let ls = lines(value);
    if ls.len() == 0 {
        prefix + "    "@ + name + " = \n"@
    } else if ls.len() == 1 {
        prefix + "    "@ + name + " = "@ + value + "\n"@
    } else {
        prefix + "    "@ + name + " =\n"@ + body_text(ls, prefix)
    }
}

/// The properties, one after another.
pub open spec fn fields_text(fs: Seq<FieldEntry>, prefix: Seq<char>) -> Seq<char>
    decreases fs.len(),
{
    if fs.len() == 0 {
        Seq::empty()
    } else {
        fields_text(fs.drop_last(), prefix) + prop_text(fs.last().name@, fs.last().value@, prefix)
    }
}

/// The guide in front of an entry.
pub open spec fn branch(last: bool) -> Seq<char> {
    if last {
        "└── "@
    } else {
        "├── "@
    }
}

/// The indentation that an entry's properties and children continue with.
pub open spec fn continuation(last: bool) -> Seq<char> {
    if last {
        "    "@
    } else {
        "│   "@
    }
}

/// One entry of the tree with its properties and, depth allowing, its
/// descendants.
pub open spec fn node_text(
    n: CgroupNode,
    last: bool,
    prefix: Seq<char>,
    left: Option<usize>,
    props: Seq<Seq<char>>,
) -> Seq<char>
    decreases n, 0nat,
{
    let cp = prefix + continuation(last);
    prefix + branch(last) + label_text(n) + "\n"@ + fields_text(selected_fields(n.fields@, props), cp)
        + if is_cut(left) {
        Seq::empty()
    } else {
        children_upto(n.children@, n.children@.len() as int, cp, next_left(left), props)
    }
}

/// The first `k` entries of a list of siblings.
pub open spec fn children_upto(
    s: Seq<CgroupNode>,
    k: int,
    prefix: Seq<char>,
    left: Option<usize>,
    props: Seq<Seq<char>>,
) -> Seq<char>
    decreases s, k,
{
    if k <= 0 || k > s.len() {
        Seq::empty()
    } else {
        children_upto(s, k - 1, prefix, left, props) + node_text(
            s[k - 1],
            k - 1 == s.len() - 1,
            prefix,
            left,
            props,
        )
    }
}

/// The whole listing: the root, its properties, and its descendants down to
/// `depth` levels.
pub open spec fn render_text(data: CgroupData, depth: Option<usize>, props: Seq<Seq<char>>) -> Seq<
    char,
> {
    label_text(data.root) + "\n"@ + fields_text(selected_fields(data.root.fields@, props), Seq::empty())
        + if is_cut(depth) {
        Seq::empty()
    } else {
        children_upto(
            data.root.children@,
            data.root.children@.len() as int,
            Seq::empty(),
            next_left(depth),
            props,
        )
    }
}

/// The listed name of a cgroup.
pub fn label(node: &CgroupNode) -> (r: String)
    ensures
        r@ == label_text(*node),
{
    let mut s = node.name.clone();
    if node.children.len() > 0 {
        push_str(&mut s, "/");
    }
    s
}

/// Appends one property.
pub fn render_prop(name: &str, value: &str, prefix: &str, out: &mut String)
    ensures
        final(out)@ == old(out)@ + prop_text(name@, value@, prefix@),
{
    let v = chars_of(value);
    let b = line_bounds(&v);
    let ghost ls = lines(value@);
    assert(pieces(v@, b@).len() == b@.len());
    if b.len() == 0 {
        push_str(out, prefix);
        push_str(out, "    ");
        push_str(out, name);
        push_str(out, " = \n");
    } else if b.len() == 1 {
        push_str(out, prefix);
        push_str(out, "    ");
        push_str(out, name);
        push_str(out, " = ");
        push_str(out, value);
        push_str(out, "\n");
    } else {
        push_str(out, prefix);
        push_str(out, "    ");
        push_str(out, name);
        push_str(out, " =\n");
        let ghost head = out@;
        let mut k: usize = 0;
        assert(ls.take(0) =~= Seq::<Seq<char>>::empty());
        while k < b.len()
            invariant
                k <= b@.len(),
                bounds_ok(v@.len(), b@),
                pieces(v@, b@) == ls,
                out@ == head + body_text(ls.take(k as int), prefix@),
            decreases b@.len() - k,
        {
            let (s, e) = b[k];
            assert(ls[k as int] == v@.subrange(s as int, e as int));
            assert(ls.take(k + 1).drop_last() == ls.take(k as int));
            assert(ls.take(k + 1).last() == ls[k as int]);
            push_str(out, prefix);
            push_str(out, "        ");
            push_range(out, &v, s, e);
            push_str(out, "\n");
            k = k + 1;
        }
        assert(ls.take(b@.len() as int) == ls);
    }
}

/// Appends the properties of `fields` that `props` selects.
pub fn render_props(fields: &[FieldEntry], prefix: &str, props: &[String], out: &mut String)
    ensures
        final(out)@ == old(out)@ + fields_text(selected_fields(fields@, string_views(props@)), prefix@),
{
    let sel = matching_fields(fields, props);
    let ghost fs = deref_all(sel@);
    let ghost head = out@;
    let mut k: usize = 0;
    assert(fs.take(0) =~= Seq::<FieldEntry>::empty());
    while k < sel.len()
        invariant
            k <= sel@.len(),
            fs == deref_all(sel@),
            out@ == head + fields_text(fs.take(k as int), prefix@),
        decreases sel@.len() - k,
    {
        assert(fs.take(k + 1).drop_last() == fs.take(k as int));
        assert(fs.take(k + 1).last() == fs[k as int]);
        let f = sel[k];
        render_prop(f.name.as_str(), f.value.as_str(), prefix, out);
        k = k + 1;
    }
    assert(fs.take(sel@.len() as int) == fs);
}

/// Appends the line of one entry and its properties; returns the
/// indentation that its children continue with.
fn render_entry_head(
    node: &CgroupNode,
    last: bool,
    prefix: &str,
    props: &[String],
    out: &mut String,
) -> (cp: String)
    ensures
        cp@ == prefix@ + continuation(last),
        final(out)@ == old(out)@ + (prefix@ + branch(last) + label_text(*node) + "\n"@
            + fields_text(selected_fields(node.fields@, string_views(props@)), cp@)),
{
    let ghost before = out@;
    push_str(out, prefix);
    if last {
        push_str(out, "└── ");
    } else {
        push_str(out, "├── ");
    }
    let l = label(node);
    push_str(out, l.as_str());
    push_str(out, "\n");
    let mut cp = String::new();
    push_str(&mut cp, prefix);
    if last {
        push_str(&mut cp, "    ");
    } else {
        push_str(&mut cp, "│   ");
    }
    let ghost mid = out@;
    render_props(node.fields.as_slice(), cp.as_str(), props, out);
    assert(out@ =~= before + (prefix@ + branch(last) + label_text(*node) + "\n"@ + fields_text(
        selected_fields(node.fields@, string_views(props@)),
        cp@,
    )));
    cp
}

/// Appends one entry of the tree, its properties and its descendants.
pub fn render_entry(
    node: &CgroupNode,
    last: bool,
    prefix: &str,
    left: Option<usize>,
    props: &[String],
    out: &mut String,
)
    ensures
        final(out)@ == old(out)@ + node_text(*node, last, prefix@, left, string_views(props@)),
    decreases node,
{
    let ghost before = out@;
    let cp = render_entry_head(node, last, prefix, props, out);
    match left {
        Some(0) => {
            assert(out@ =~= before + node_text(*node, last, prefix@, left, string_views(props@)));
        },
        _ => {
            let next = match left {
                Some(d) => Some(d - 1),
                None => None,
            };
            render_children(node.children.as_slice(), cp.as_str(), next, props, out);
            assert(out@ =~= before + node_text(*node, last, prefix@, left, string_views(props@)));
        },
    }
}

/// Appends the entries of a list of siblings and their descendants.
pub fn render_children(
    nodes: &[CgroupNode],
    prefix: &str,
    left: Option<usize>,
    props: &[String],
    out: &mut String,
)
    ensures
        final(out)@ == old(out)@ + children_upto(
            nodes@,
            nodes@.len() as int,
            prefix@,
            left,
            string_views(props@),
        ),
    decreases nodes@,
{
    let ghost head = out@;
    let mut i: usize = 0;
    assert(out@ =~= head + children_upto(nodes@, 0, prefix@, left, string_views(props@)));
    while i < nodes.len()
        invariant
            i <= nodes@.len(),
            out@ == head + children_upto(nodes@, i as int, prefix@, left, string_views(props@)),
        decreases nodes@.len() - i,
    {
        let last = i == nodes.len() - 1;
        render_entry(&nodes[i], last, prefix, left, props, out);
        assert(out@ =~= head + children_upto(nodes@, i + 1, prefix@, left, string_views(props@)));
        i = i + 1;
    }
}

/// Renders the tree into `out`.
pub fn render(data: &CgroupData, depth: Option<usize>, props: &[String], out: &mut String)
    ensures
        final(out)@ == old(out)@ + render_text(*data, depth, string_views(props@)),
{
    let ghost head = out@;
    let l = label(&data.root);
    push_str(out, l.as_str());
    push_str(out, "\n");
    let empty = String::new();
    render_props(data.root.fields.as_slice(), empty.as_str(), props, out);
    let ghost mid = out@;
    assert(mid =~= head + label_text(data.root) + "\n"@ + fields_text(
        selected_fields(data.root.fields@, string_views(props@)),
        Seq::empty(),
    ));
    match depth {
        Some(0) => {
            assert(out@ =~= head + render_text(*data, depth, string_views(props@)));
        },
        _ => {
            let next = match depth {
                Some(d) => Some(d - 1),
                None => None,
            };
            render_children(data.root.children.as_slice(), empty.as_str(), next, props, out);
            assert(out@ =~= head + render_text(*data, depth, string_views(props@)));
        },
    }
}

/// One property in the JSON output.
pub struct JsonField {
    pub name: String,
    pub value: String,
}

/// One cgroup in the JSON output.
pub struct JsonNode {
    pub name: String,
    pub path: String,
    pub fields: Vec<JsonField>,
    pub children: Vec<JsonNode>,
}

/// The JSON output: the hierarchy under its root.
pub struct JsonOutput {
    pub root: JsonNode,
}

/// The names and values of JSON properties.
pub open spec fn json_field_views(s: Seq<JsonField>) -> Seq<FieldModel> {
    s.map_values(|f: JsonField| FieldModel { name: f.name@, value: f.value@ })
}

/// The properties that the JSON form of a cgroup carries: all of them when
/// no pattern is given, otherwise those that the patterns select.
pub open spec fn json_fields_of(fs: Seq<FieldEntry>, props: Seq<Seq<char>>) -> Seq<FieldEntry> {
    if props.len() == 0 {
        fs
    } else {
        selected_fields(fs, props)
    }
}

/// `j` is the JSON form of the cgroup `n`: same name, its path as text, its
/// properties (all, or those selected), and its children (in order) unless
/// the depth is spent.
pub open spec fn json_matches(j: JsonNode, n: CgroupNode, left: Option<usize>, props: Seq<Seq<char>>) -> bool
    decreases n,
{
    &&& j.name@ == n.name@
    &&& j.path@ == display_text(n.path@)
    &&& json_field_views(j.fields@) == field_views(json_fields_of(n.fields@, props))
    &&& if is_cut(left) {
        j.children@.len() == 0
    } else {
        &&& j.children@.len() == n.children@.len()
        &&& forall|i: int|
            0 <= i < n.children@.len() ==> json_matches(
                #[trigger] j.children@[i],
                n.children@[i],
                next_left(left),
                props,
            )
    }
}

/// The properties of `node` for JSON: all of them when `props` is empty,
/// otherwise those that `props` selects.
pub fn filter_fields(node: &CgroupNode, props: &[String]) -> (r: Vec<JsonField>)
    ensures
        json_field_views(r@) == field_views(json_fields_of(node.fields@, string_views(props@))),
{
    let mut r: Vec<JsonField> = Vec::new();
    if props.len() == 0 {
        let ghost fs = node.fields@;
        let mut k: usize = 0;
        while k < node.fields.len()
            invariant
                k <= fs.len(),
                fs == node.fields@,
                json_field_views(r@) == field_views(fs.take(k as int)),
            decreases fs.len() - k,
        {
            let f = &node.fields[k];
            let ghost old_r = r@;
            r.push(JsonField { name: f.name.clone(), value: f.value.clone() });
            assert(json_field_views(r@) =~= json_field_views(old_r).push(f@));
            assert(field_views(fs.take(k + 1)) =~= field_views(fs.take(k as int)).push(fs[k as int]@));
            k = k + 1;
        }
        assert(fs.take(fs.len() as int) == fs);
        assert(string_views(props@).len() == 0);
        return r;
    }
    let sel = matching_fields(node.fields.as_slice(), props);
    let ghost fs = deref_all(sel@);
    let mut k: usize = 0;
    assert(field_views(fs.take(0)) =~= json_field_views(r@));
    while k < sel.len()
        invariant
            k <= sel@.len(),
            fs == deref_all(sel@),
            json_field_views(r@) == field_views(fs.take(k as int)),
        decreases sel@.len() - k,
    {
        let f = sel[k];
        let ghost old_r = r@;
        r.push(JsonField { name: f.name.clone(), value: f.value.clone() });
        assert(json_field_views(r@) =~= json_field_views(old_r).push(f@));
        assert(field_views(fs.take(k + 1)) =~= field_views(fs.take(k as int)).push(fs[k as int]@));
        k = k + 1;
    }
    assert(fs.take(sel@.len() as int) == fs);
    assert(string_views(props@).len() > 0);
    r
}

/// The JSON form of `node`, with `left` levels of descendants.
pub fn node_to_json(node: &CgroupNode, left: Option<usize>, props: &[String]) -> (r: JsonNode)
    ensures
        json_matches(r, *node, left, string_views(props@)),
    decreases node,
{
    let fields = filter_fields(node, props);
    let mut children: Vec<JsonNode> = Vec::new();
    match left {
        Some(0) => {},
        _ => {
            let next = match left {
                Some(d) => Some(d - 1),
                None => None,
            };
            let mut i: usize = 0;
            while i < node.children.len()
                invariant
                    i <= node.children@.len(),
                    !is_cut(left),
                    next == next_left(left),
                    children@.len() == i,
                    forall|k: int|
                        0 <= k < i ==> json_matches(
                            #[trigger] children@[k],
                            node.children@[k],
                            next,
                            string_views(props@),
                        ),
                decreases node.children@.len() - i,
            {
                let c = node_to_json(&node.children[i], next, props);
                children.push(c);
                i = i + 1;
            }
        },
    }
    JsonNode { name: node.name.clone(), path: display_bytes(&node.path), fields, children }
}

/// Converts the cgroup data to its JSON form, cut at `depth` levels below
/// the root.
pub fn to_json(data: &CgroupData, depth: Option<usize>, props: &[String]) -> (r: JsonOutput)
    ensures
        json_matches(r.root, data.root, depth, string_views(props@)),
{
    JsonOutput { root: node_to_json(&data.root, depth, props) }
}

/// The number of line feeds in `s`.
pub open spec fn line_feeds(s: Seq<char>) -> nat
    decreases s.len(),
{
    if s.len() == 0 {
        0
    } else {
        line_feeds(s.drop_last()) + if s.last() == '\n' {
            1nat
        } else {
            0nat
        }
    }
}

/// The number of cgroups that a listing shows of the subtree at `n` with
/// `left` levels left below it.
pub open spec fn listed_count(n: CgroupNode, left: Option<usize>) -> nat
    decreases n, 0nat,
{
    1 + if is_cut(left) {
        0
    } else {
        listed_count_upto(n.children@, n.children@.len() as int, next_left(left))
    }
}

/// The number of cgroups that a listing shows of the first `k` subtrees.
pub open spec fn listed_count_upto(s: Seq<CgroupNode>, k: int, left: Option<usize>) -> nat
    decreases s, k,
{
    if k <= 0 || k > s.len() {
        0
    } else {
        listed_count_upto(s, k - 1, left) + listed_count(s[k - 1], left)
    }
}

/// No cgroup name in the subtree at `n` holds a line feed.
pub open spec fn names_on_one_line(n: CgroupNode) -> bool
    decreases n, 0nat,
{
    &&& forall|j: int| 0 <= j < n.name@.len() ==> n.name@[j] != '\n'
    &&& names_on_one_line_upto(n.children@, n.children@.len() as int)
}

/// No cgroup name in the first `k` subtrees holds a line feed.
pub open spec fn names_on_one_line_upto(s: Seq<CgroupNode>, k: int) -> bool
    decreases s, k,
{
    if k <= 0 || k > s.len() {
        true
    } else {
        names_on_one_line_upto(s, k - 1) && names_on_one_line(s[k - 1])
    }
}

proof fn lemma_line_feeds_concat(a: Seq<char>, b: Seq<char>)
    ensures
        line_feeds(a + b) == line_feeds(a) + line_feeds(b),
    decreases b.len(),
{
    if b.len() > 0 {
        lemma_line_feeds_concat(a, b.drop_last());
        assert((a + b).drop_last() =~= a + b.drop_last());
        assert((a + b).last() == b.last());
    } else {
        assert(a + b =~= a);
    }
}

proof fn lemma_line_feeds_none(s: Seq<char>)
    requires
        forall|j: int| 0 <= j < s.len() ==> s[j] != '\n',
    ensures
        line_feeds(s) == 0,
    decreases s.len(),
{
    if s.len() > 0 {
        lemma_line_feeds_none(s.drop_last());
        assert(s.last() == s[s.len() - 1]);
    }
}

/// The guides and labels hold no line feed.
proof fn lemma_guides_one_line(last: bool, n: CgroupNode)
    requires
        forall|j: int| 0 <= j < n.name@.len() ==> n.name@[j] != '\n',
    ensures
        line_feeds(branch(last)) == 0,
        line_feeds(continuation(last)) == 0,
        line_feeds(label_text(n)) == 0,
        line_feeds("\n"@) == 1,
{
    reveal_strlit("└── ");
    reveal_strlit("├── ");
    reveal_strlit("    ");
    reveal_strlit("│   ");
    reveal_strlit("/");
    reveal_strlit("\n");
    lemma_line_feeds_none(branch(last));
    lemma_line_feeds_none(continuation(last));
    lemma_line_feeds_none(n.name@);
    lemma_line_feeds_none("/"@);
    lemma_line_feeds_concat(n.name@, "/"@);
    let nl = "\n"@;
    assert(nl.len() == 1);
    assert(nl.last() == '\n');
    assert(nl.drop_last() =~= Seq::<char>::empty());
    assert(line_feeds(nl.drop_last()) == 0);
}

proof fn lemma_node_text_lines(n: CgroupNode, last: bool, prefix: Seq<char>, left: Option<usize>)
    requires
        line_feeds(prefix) == 0,
        names_on_one_line(n),
    ensures
        line_feeds(node_text(n, last, prefix, left, Seq::empty())) == listed_count(n, left),
    decreases n, 0nat,
{
    let cp = prefix + continuation(last);
    lemma_guides_one_line(last, n);
    lemma_line_feeds_concat(prefix, continuation(last));
    crate::filter::law_no_patterns_select_nothing(n.fields@);
    let fs = selected_fields(n.fields@, Seq::empty());
    assert(fields_text(fs, cp) == Seq::<char>::empty());
    let rest = if is_cut(left) {
        Seq::empty()
    } else {
        children_upto(n.children@, n.children@.len() as int, cp, next_left(left), Seq::empty())
    };
    if !is_cut(left) {
        lemma_children_upto_lines(n.children@, n.children@.len() as int, cp, next_left(left));
    }
    let a = prefix + branch(last);
    let b = a + label_text(n);
    let c = b + "\n"@;
    let d = c + fields_text(fs, cp);
    lemma_line_feeds_concat(prefix, branch(last));
    lemma_line_feeds_concat(a, label_text(n));
    lemma_line_feeds_concat(b, "\n"@);
    lemma_line_feeds_concat(c, fields_text(fs, cp));
    lemma_line_feeds_concat(d, rest);
    assert(d == c);
}

proof fn lemma_children_upto_lines(s: Seq<CgroupNode>, k: int, prefix: Seq<char>, left: Option<usize>)
    requires
        0 <= k <= s.len(),
        line_feeds(prefix) == 0,
        names_on_one_line_upto(s, k),
    ensures
        line_feeds(children_upto(s, k, prefix, left, Seq::empty())) == listed_count_upto(s, k, left),
    decreases s, k,
{
    if k > 0 {
        lemma_children_upto_lines(s, k - 1, prefix, left);
        lemma_node_text_lines(s[k - 1], k - 1 == s.len() - 1, prefix, left);
        lemma_line_feeds_concat(
            children_upto(s, k - 1, prefix, left, Seq::empty()),
            node_text(s[k - 1], k - 1 == s.len() - 1, prefix, left, Seq::empty()),
        );
    } else {
        assert(line_feeds(Seq::<char>::empty()) == 0);
    }
}

proof fn lemma_listed_all(n: CgroupNode)
    ensures
        listed_count(n, None) == crate::data::node_count(n),
    decreases n, 0nat,
{
    lemma_listed_all_upto(n.children@, n.children@.len() as int);
}

proof fn lemma_listed_all_upto(s: Seq<CgroupNode>, k: int)
    requires
        0 <= k <= s.len(),
    ensures
        listed_count_upto(s, k, None) == crate::data::count_upto(s, k),
    decreases s, k,
{
    if k > 0 {
        lemma_listed_all_upto(s, k - 1);
        lemma_listed_all(s[k - 1]);
    }
}

/// Without properties the listing has one line per cgroup shown: every
/// cgroup down to `depth` levels below the root, and with no depth limit
/// every cgroup of the hierarchy (when no name holds a line feed).
pub proof fn law_one_line_per_listed_cgroup(data: CgroupData, depth: Option<usize>)
    requires
        names_on_one_line(data.root),
    ensures
        line_feeds(render_text(data, depth, Seq::empty())) == listed_count(data.root, depth),
        depth is None ==> listed_count(data.root, depth) == crate::data::node_count(data.root),
{
    let n = data.root;
    let e = Seq::<char>::empty();
    lemma_guides_one_line(true, n);
    crate::filter::law_no_patterns_select_nothing(n.fields@);
    let fs = selected_fields(n.fields@, Seq::empty());
    assert(fields_text(fs, e) == e);
    let rest = if is_cut(depth) {
        e
    } else {
        children_upto(n.children@, n.children@.len() as int, e, next_left(depth), Seq::empty())
    };
    assert(line_feeds(e) == 0);
    if !is_cut(depth) {
        lemma_children_upto_lines(n.children@, n.children@.len() as int, e, next_left(depth));
    }
    let b = label_text(n);
    let c = b + "\n"@;
    let d = c + fields_text(fs, e);
    lemma_line_feeds_concat(b, "\n"@);
    lemma_line_feeds_concat(c, fields_text(fs, e));
    lemma_line_feeds_concat(d, rest);
    assert(d == c);
    lemma_listed_all(n);
}

/// The number of cgroups in a JSON tree.
pub open spec fn json_count(j: JsonNode) -> nat
    decreases j, 0nat,
{
    1 + json_count_upto(j.children@, j.children@.len() as int)
}

/// The number of cgroups in the first `k` JSON subtrees.
pub open spec fn json_count_upto(s: Seq<JsonNode>, k: int) -> nat
    decreases s, k,
{
    if k <= 0 || k > s.len() {
        0
    } else {
        json_count_upto(s, k - 1) + json_count(s[k - 1])
    }
}

proof fn lemma_json_count(j: JsonNode, n: CgroupNode, left: Option<usize>, props: Seq<Seq<char>>)
    requires
        json_matches(j, n, left, props),
    ensures
        json_count(j) == listed_count(n, left),
    decreases n, 0nat,
{
    if !is_cut(left) {
        lemma_json_count_upto(
            j.children@,
            n.children@,
            n.children@.len() as int,
            next_left(left),
            props,
        );
    }
}

proof fn lemma_json_count_upto(
    js: Seq<JsonNode>,
    ns: Seq<CgroupNode>,
    k: int,
    left: Option<usize>,
    props: Seq<Seq<char>>,
)
    requires
        0 <= k <= ns.len(),
        js.len() == ns.len(),
        forall|i: int| 0 <= i < ns.len() ==> json_matches(#[trigger] js[i], ns[i], left, props),
    ensures
        json_count_upto(js, k) == listed_count_upto(ns, k, left),
    decreases ns, k,
{
    if k > 0 {
        lemma_json_count_upto(js, ns, k - 1, left, props);
        assert(json_matches(js[k - 1], ns[k - 1], left, props));
        lemma_json_count(js[k - 1], ns[k - 1], left, props);
    }
}

/// The JSON output holds the same cgroups as the text listing: every
/// cgroup down to `depth` levels below the root, whatever properties are
/// shown.
pub proof fn law_json_holds_the_listed_cgroups(
    data: CgroupData,
    depth: Option<usize>,
    props: Seq<Seq<char>>,
    out: JsonOutput,
)
    requires
        json_matches(out.root, data.root, depth, props),
    ensures
        json_count(out.root) == listed_count(data.root, depth),
{
    lemma_json_count(out.root, data.root, depth, props);
}

proof fn lemma_listed_within_height(n: CgroupNode, d: usize)
    requires
        crate::tui::height(n) <= d,
    ensures
        listed_count(n, Some(d)) == crate::data::node_count(n),
    decreases n, 0nat,
{
    let k = n.children@.len() as int;
    if k > 0 {
        assert(d >= 1);
        lemma_listed_within_height_upto(n.children@, k, (d - 1) as usize);
    } else {
        assert(listed_count_upto(n.children@, k, next_left(Some(d))) == 0);
    }
}

proof fn lemma_listed_within_height_upto(s: Seq<CgroupNode>, k: int, d: usize)
    requires
        0 <= k <= s.len(),
        crate::tui::height_upto(s, s.len() as int) <= d,
    ensures
        listed_count_upto(s, k, Some(d)) == crate::data::count_upto(s, k),
    decreases s, k,
{
    if k > 0 {
        lemma_listed_within_height_upto(s, k - 1, d);
        crate::tui::lemma_height_upto(s, s.len() as int, k - 1);
        lemma_listed_within_height(s[k - 1], d);
    }
}

/// A depth limit cuts the listing by levels: with no level left only the
/// cgroup itself is shown; one level more shows the cgroup and its children
/// cut one level less; and a limit at least the height of the tree shows
/// every cgroup. So `Some(d)` shows exactly the cgroups at most `d` levels
/// below the top.
pub proof fn law_depth_cuts_by_levels(n: CgroupNode, d: usize)
    ensures
        listed_count(n, Some(0)) == 1,
        d < usize::MAX ==> listed_count(n, Some((d + 1) as usize)) == 1 + listed_count_upto(
            n.children@,
            n.children@.len() as int,
            Some(d),
        ),
        crate::tui::height(n) <= d ==> listed_count(n, Some(d)) == crate::data::node_count(n),
{
    if crate::tui::height(n) <= d {
        lemma_listed_within_height(n, d);
    }
}

/// `s` holds no line feed.
pub open spec fn one_line(s: Seq<char>) -> bool {
    forall|j: int| 0 <= j < s.len() ==> s[j] != '\n'
}

proof fn lemma_split_after_line_feed(a: Seq<char>)
    ensures
        split_on(a + seq!['\n'], '\n') == split_on(a, '\n').push(Seq::<char>::empty()),
{
    assert((a + seq!['\n']).drop_last() =~= a);
}

/// No line of a value holds a line feed.
proof fn lemma_lines_one_line(value: Seq<char>)
    ensures
        forall|k: int| 0 <= k < lines(value).len() ==> one_line(#[trigger] lines(value)[k]),
{
    let p = split_on(value, '\n');
    lemma_split_pieces_lack_sep(value, '\n');
    lemma_split_nonempty(value, '\n');
    assert forall|k: int| 0 <= k < lines(value).len() implies one_line(#[trigger] lines(value)[k]) by {
        let l = lines(value)[k];
        if k < p.len() - 1 {
            assert(l == strip_cr(p[k]));
            assert forall|j: int| 0 <= j < l.len() implies l[j] != '\n' by {
                assert(l[j] == p[k][j]);
            }
        } else {
            assert(l == p.last());
            assert forall|j: int| 0 <= j < l.len() implies l[j] != '\n' by {
                assert(l[j] == p[p.len() - 1][j]);
            }
        }
    }
}

/// The body lines of a multi-line value, split at line feeds.
proof fn lemma_body_lines(ls: Seq<Seq<char>>, prefix: Seq<char>)
    requires
        ls.len() >= 1,
        one_line(prefix),
        forall|k: int| 0 <= k < ls.len() ==> one_line(#[trigger] ls[k]),
    ensures
        split_on(body_text(ls, prefix), '\n') == ls.map_values(
            |l: Seq<char>| prefix + "        "@ + l,
        ) + seq![Seq::<char>::empty()],
    decreases ls.len(),
{
    reveal_strlit("        ");
    reveal_strlit("\n");
    let f = |l: Seq<char>| prefix + "        "@ + l;
    let init = ls.drop_last();
    let x = prefix + "        "@ + ls.last();
    assert(ls.last() == ls[ls.len() - 1]);
    assert(one_line(x)) by {
        assert forall|j: int| 0 <= j < x.len() implies x[j] != '\n' by {
            if j < prefix.len() {
                assert(x[j] == prefix[j]);
            } else if j < prefix.len() + 8 {
                assert(x[j] == "        "@[j - prefix.len()]);
            } else {
                assert(x[j] == ls.last()[j - prefix.len() - 8]);
            }
        }
    }
    lemma_split_single(x, '\n');
    lemma_split_after_line_feed(x);
    let b = body_text(init, prefix);
    assert(body_text(ls, prefix) =~= b + x + seq!['\n']);
    if init.len() == 0 {
        assert(b == Seq::<char>::empty());
        assert(b + x + seq!['\n'] =~= x + seq!['\n']);
        assert(ls.map_values(f) =~= seq![x]);
        assert(seq![x].push(Seq::<char>::empty()) =~= seq![x] + seq![Seq::<char>::empty()]);
    } else {
        assert forall|k: int| 0 <= k < init.len() implies one_line(#[trigger] init[k]) by {
            assert(init[k] == ls[k]);
        }
        lemma_body_lines(init, prefix);
        let binit = body_text(init.drop_last(), prefix);
        let xi = prefix + "        "@ + init.last();
        assert(b =~= binit + xi + seq!['\n']);
        let y = binit + xi;
        lemma_split_after_line_feed(y);
        assert(split_on(y, '\n').push(Seq::<char>::empty()) == init.map_values(f) + seq![
            Seq::<char>::empty(),
        ]);
        assert(split_on(y, '\n') =~= init.map_values(f)) by {
            let a = split_on(y, '\n');
            let c = init.map_values(f);
            assert(a.push(Seq::<char>::empty()).drop_last() =~= a);
            assert((c + seq![Seq::<char>::empty()]).drop_last() =~= c);
        }
        assert(b + x + seq!['\n'] =~= y + seq!['\n'] + (x + seq!['\n']));
        lemma_split_concat(y, x + seq!['\n'], '\n');
        assert(ls.map_values(f) =~= init.map_values(f).push(x));
        assert(init.map_values(f) + split_on(x + seq!['\n'], '\n') =~= ls.map_values(f) + seq![
            Seq::<char>::empty(),
        ]);
    }
}

/// A property whose value has several lines is shown as its name on a line
/// of its own, then each line of the value on a line of its own. Every one
/// of these lines starts with the indentation `prefix` of the entry it
/// belongs to: the name four columns in, the value's lines eight.
pub proof fn law_value_lines_are_indented_under_their_entry(
    name: Seq<char>,
    value: Seq<char>,
    prefix: Seq<char>,
)
    requires
        lines(value).len() >= 2,
        one_line(name),
        one_line(prefix),
    ensures
        split_on(prop_text(name, value, prefix), '\n') == seq![prefix + "    "@ + name + " ="@]
            + lines(value).map_values(|l: Seq<char>| prefix + "        "@ + l) + seq![
            Seq::<char>::empty(),
        ],
{
    reveal_strlit("    ");
    reveal_strlit(" =");
    reveal_strlit(" =\n");
    let ls = lines(value);
    lemma_lines_one_line(value);
    lemma_body_lines(ls, prefix);
    let h = prefix + "    "@ + name + " ="@;
    assert(one_line(h)) by {
        assert forall|j: int| 0 <= j < h.len() implies h[j] != '\n' by {
            if j < prefix.len() {
                assert(h[j] == prefix[j]);
            } else if j < prefix.len() + 4 {
                assert(h[j] == "    "@[j - prefix.len()]);
            } else if j < prefix.len() + 4 + name.len() {
                assert(h[j] == name[j - prefix.len() - 4]);
            } else {
                assert(h[j] == " ="@[j - prefix.len() - 4 - name.len()]);
            }
        }
    }
    lemma_split_single(h, '\n');
    let body = body_text(ls, prefix);
    assert(prop_text(name, value, prefix) =~= h + seq!['\n'] + body);
    lemma_split_concat(h, body, '\n');
}

} // verus!
