//! The scanned hierarchy: cgroups, their interface files, and how the pieces
//! read from disk are assembled into a tree.

use vstd::multiset::Multiset;
use vstd::prelude::*;

use crate::text::{
    bounds_ok, chars_of, lex_le, lemma_lex_total, lemma_lex_trans, lex_le_exec, line_bounds,
    lines, pieces, push_str, str_eq, trim, trim_end, trim_end_string, trim_range,
};

verus! {

/// A single cgroup interface file with its name and contents.
#[derive(Debug, Clone)]
pub struct FieldEntry {
    pub name: String,
    pub value: String,
}

/// A single cgroup in the tree with its metadata and children.
#[derive(Debug)]
pub struct CgroupNode {
    pub name: String,
    /// The bytes of the cgroup's directory path, as the system names it.
    pub path: Vec<u8>,
    /// Number of pids in `cgroup.procs`; `None` if the file was unreadable.
    pub procs: Option<usize>,
    /// All interface files in this cgroup directory (sorted by name).
    pub fields: Vec<FieldEntry>,
    pub children: Vec<CgroupNode>,
}

/// A complete snapshot of cgroup data, including tree structure and all fields.
#[derive(Debug)]
pub struct CgroupData {
    pub root: CgroupNode,
}

/// A copy of a byte string.
pub fn copy_bytes(v: &Vec<u8>) -> (r: Vec<u8>)
    ensures
        r@ == v@,
{
    let mut r: Vec<u8> = Vec::new();
    let mut i: usize = 0;
    while i < v.len()
        invariant
            i <= v@.len(),
            r@ == v@.take(i as int),
        decreases v@.len() - i,
    {
        r.push(v[i]);
        assert(v@.take(i + 1) =~= v@.take(i as int).push(v@[i as int]));
        i = i + 1;
    }
    assert(v@.take(v@.len() as int) =~= v@);
    r
}

/// Whether two byte strings are equal.
pub fn bytes_eq(a: &Vec<u8>, b: &Vec<u8>) -> (r: bool)
    ensures
        r == (a@ == b@),
{
    if a.len() != b.len() {
        return false;
    }
    let mut i: usize = 0;
    while i < a.len()
        invariant
            i <= a@.len(),
            a@.len() == b@.len(),
            forall|k: int| 0 <= k < i ==> a@[k] == b@[k],
        decreases a@.len() - i,
    {
        if a[i] != b[i] {
            return false;
        }
        i = i + 1;
    }
    assert(a@ =~= b@);
    true
}

/// The text that a path's bytes show as: the bytes read as UTF-8, with
/// each invalid sequence shown as U+FFFD, as `Path::display` shows a path on
/// Unix.
pub uninterp spec fn display_text(bytes: Seq<u8>) -> Seq<char>;

/// A path's bytes as text, with std's `String::from_utf8_lossy`. Trusted,
/// not proved: the text is [`display_text`] of the bytes.
#[verifier::external_body]
pub(crate) fn display_bytes(bytes: &Vec<u8>) -> (r: String)
    ensures
        r@ == display_text(bytes@),
{
    String::from_utf8_lossy(bytes.as_slice()).into_owned()
}

/// `a` and `b` hold the same cgroups: equal names, paths, process counts
/// and interface files, and children that hold the same cgroups, in order.
pub open spec fn same_tree(a: CgroupNode, b: CgroupNode) -> bool
    decreases a,
{
    &&& a.name == b.name
    &&& a.path@ == b.path@
    &&& a.procs == b.procs
    &&& a.fields@ == b.fields@
    &&& a.children@.len() == b.children@.len()
    &&& forall|i: int|
        0 <= i < a.children@.len() ==> same_tree(#[trigger] a.children@[i], b.children@[i])
}

impl Clone for CgroupNode {
    /// A copy of the subtree.
    fn clone(&self) -> (r: Self)
        ensures
            same_tree(r, *self),
        decreases self,
    {
        let mut fields: Vec<FieldEntry> = Vec::new();
        let mut k: usize = 0;
        while k < self.fields.len()
            invariant
                k <= self.fields@.len(),
                fields@ == self.fields@.take(k as int),
            decreases self.fields@.len() - k,
        {
            let f = &self.fields[k];
            fields.push(FieldEntry { name: f.name.clone(), value: f.value.clone() });
            assert(self.fields@.take(k + 1) =~= self.fields@.take(k as int).push(self.fields@[k as int]));
            k = k + 1;
        }
        assert(self.fields@.take(self.fields@.len() as int) =~= self.fields@);
        let mut children: Vec<CgroupNode> = Vec::new();
        let mut i: usize = 0;
        while i < self.children.len()
            invariant
                i <= self.children@.len(),
                children@.len() == i,
                forall|j: int| 0 <= j < i ==> same_tree(#[trigger] children@[j], self.children@[j]),
            decreases self.children@.len() - i,
        {
            let c = self.children[i].clone();
            children.push(c);
            i = i + 1;
        }
        CgroupNode {
            name: self.name.clone(),
            path: copy_bytes(&self.path),
            procs: self.procs,
            fields,
            children,
        }
    }
}

impl Clone for CgroupData {
    /// A copy of the snapshot.
    fn clone(&self) -> (r: Self)
        ensures
            same_tree(r.root, self.root),
    {
        CgroupData { root: self.root.clone() }
    }
}

/// The name and contents of an interface file.
pub ghost struct FieldModel {
    pub name: Seq<char>,
    pub value: Seq<char>,
}

impl View for FieldEntry {
    type V = FieldModel;

    open spec fn view(&self) -> FieldModel {
        FieldModel { name: self.name@, value: self.value@ }
    }
}


/// Number of cgroups in the subtree rooted at `n`, including `n`.
pub open spec fn node_count(n: CgroupNode) -> nat
    decreases n, 0nat,
{
    1 + count_upto(n.children@, n.children@.len() as int)
}

/// Number of cgroups in the subtrees rooted at the first `k` of `s`.
pub open spec fn count_upto(s: Seq<CgroupNode>, k: int) -> nat
    decreases s, k,
{
    if k <= 0 || k > s.len() {
        0
    } else {
        count_upto(s, k - 1) + node_count(s[k - 1])
    }
}

proof fn lemma_count_upto_mono(s: Seq<CgroupNode>, j: int, k: int)
    requires
        0 <= j <= k <= s.len(),
    ensures
        count_upto(s, j) <= count_upto(s, k),
    decreases k,
{
    if j < k {
        lemma_count_upto_mono(s, j, k - 1);
    }
}

impl CgroupData {
    /// Total number of cgroups in this tree.
    pub fn count(&self) -> (r: usize)
        requires
            node_count(self.root) <= usize::MAX,
        ensures
            r == node_count(self.root),
    {
        self.root.count()
    }
}

impl CgroupNode {
    /// Total number of cgroups in this subtree, including self.
    pub fn count(&self) -> (r: usize)
        requires
            node_count(*self) <= usize::MAX,
        ensures
            r == node_count(*self),
        decreases self,
    {
        let mut total: usize = 1;
        let mut i: usize = 0;
        while i < self.children.len()
            invariant
                i <= self.children@.len(),
                total == 1 + count_upto(self.children@, i as int),
                node_count(*self) <= usize::MAX,
            decreases self.children@.len() - i,
        {
            proof {
                lemma_count_upto_mono(self.children@, i + 1, self.children@.len() as int);
            }
            let c = self.children[i].count();
            total = total + c;
            i = i + 1;
        }
        total
    }
}

/// Interface files that are never read, because reading or writing them has
/// side effects.
pub open spec fn is_hidden_field(name: Seq<char>) -> bool {
    name == "memory.reclaim"@ || name == "cgroup.kill"@
}

/// Whether the interface file `name` is listed.
pub fn keep_field(name: &str) -> (r: bool)
    ensures
        r == !is_hidden_field(name@),
{
    !(str_eq(name, "memory.reclaim") || str_eq(name, "cgroup.kill"))
}

/// What a field shows for the outcome of reading its file: the contents
/// without trailing whitespace, or the reason the read failed.
pub open spec fn field_text(read: Result<String, String>) -> Seq<char> {
    match read {
        Ok(s) => trim_end(s@),
        Err(e) => "<unreadable: "@ + e@ + ">"@,
    }
}

/// The entry for the file `name`, given the outcome of reading it.
pub fn field_entry(name: String, read: Result<String, String>) -> (r: FieldEntry)
    ensures
        r@ == (FieldModel { name: name@, value: field_text(read) }),
{
    let value = match read {
        Ok(s) => trim_end_string(s.as_str()),
        Err(e) => {
            let mut t = String::new();
            push_str(&mut t, "<unreadable: ");
            push_str(&mut t, e.as_str());
            push_str(&mut t, ">");
            t
        },
    };
    FieldEntry { name, value }
}

/// The entries that the files of one directory give, in directory order.
pub open spec fn listed_fields(files: Seq<(String, Result<String, String>)>) -> Seq<FieldModel>
    decreases files.len(),
{
    if files.len() == 0 {
        Seq::empty()
    } else {
        let r = listed_fields(files.drop_last());
        let f = files.last();
        if is_hidden_field(f.0@) {
            r
        } else {
            r.push(FieldModel { name: f.0@, value: field_text(f.1) })
        }
    }
}

/// The entries are in order of their names.
pub open spec fn fields_sorted(s: Seq<FieldEntry>) -> bool {
    forall|i: int, j: int| 0 <= i < j < s.len() ==> lex_le(s[i].name@, s[j].name@)
}

/// The cgroups are in order of their names.
pub open spec fn nodes_sorted(s: Seq<CgroupNode>) -> bool {
    forall|i: int, j: int| 0 <= i < j < s.len() ==> lex_le(s[i].name@, s[j].name@)
}

/// The views of a sequence of entries.
pub open spec fn field_views(s: Seq<FieldEntry>) -> Seq<FieldModel> {
    s.map_values(|f: FieldEntry| f@)
}

/// Builds the field list of one cgroup from its files and what reading each
/// gave: hidden files are left out, values are trimmed at the end, and the
/// entries are sorted by name.
pub fn interface_fields(files: Vec<(String, Result<String, String>)>) -> (r: Vec<FieldEntry>)
    ensures
        field_views(r@) == fields_by_name(listed_fields(files@)),
        fields_sorted(r@),
        field_views(r@).to_multiset() == listed_fields(files@).to_multiset(),
        forall|i: int| 0 <= i < r@.len() ==> !is_hidden_field(#[trigger] r@[i].name@),
{
    let mut kept: Vec<FieldEntry> = Vec::new();
    let mut files = files;
    let ghost all = files@;
    let n = files.len();
    // Reversed once, so that popping yields the files in their order.
    let mut rest: Vec<(String, Result<String, String>)> = Vec::new();
    while files.len() > 0
        invariant
            n == all.len(),
            files@.len() <= n,
            files@ == all.take(files@.len() as int),
            rest@ == all.skip(files@.len() as int).reverse(),
        decreases files@.len(),
    {
        let f = files.pop().unwrap();
        proof {
            let m = files@.len() as int;
            assert(all.skip(m) == seq![f] + all.skip(m + 1));
            assert(all.skip(m).reverse() =~= all.skip(m + 1).reverse().push(f));
            assert(files@ == all.take(m));
        }
        rest.push(f);
    }
    let mut i: usize = 0;
    while i < n
        invariant
            n == all.len(),
            i <= n,
            rest@ == all.skip(i as int).reverse(),
            field_views(kept@) == listed_fields(all.take(i as int)),
        decreases n - i,
    {
        proof {
            assert(rest@.len() == n - i);
        }
        let (name, read) = rest.pop().unwrap();
        proof {
            assert(all.skip(i as int) == seq![all[i as int]] + all.skip(i + 1));
            assert(all.skip(i as int).reverse() =~= all.skip(i + 1).reverse().push(all[i as int]));
            assert(all.take(i + 1).drop_last() == all.take(i as int));
            assert(all.take(i + 1).last() == all[i as int]);
        }
        if keep_field(name.as_str()) {
            let e = field_entry(name, read);
            proof {
                lemma_field_views_push(kept@, e);
            }
            kept.push(e);
        }
        i = i + 1;
    }
    assert(all.take(n as int) == all);
    let r = sort_fields(kept);
    proof {
        lemma_listed_not_hidden(all);
        assert forall|i: int| 0 <= i < r@.len() implies !is_hidden_field(#[trigger] r@[i].name@) by {
            let v = field_views(r@);
            let l = listed_fields(all);
            assert(v[i] == r@[i]@);
            vstd::seq_lib::to_multiset_contains(v, v[i]);
            vstd::seq_lib::to_multiset_contains(l, v[i]);
            assert(l.contains(v[i]));
            let k = choose|k: int| 0 <= k < l.len() && l[k] == v[i];
            assert(!is_hidden_field(l[k].name));
        }
    }
    r
}

proof fn lemma_listed_not_hidden(files: Seq<(String, Result<String, String>)>)
    ensures
        forall|i: int|
            0 <= i < listed_fields(files).len() ==> !is_hidden_field(
                #[trigger] listed_fields(files)[i].name,
            ),
    decreases files.len(),
{
    if files.len() > 0 {
        let init = files.drop_last();
        lemma_listed_not_hidden(init);
        let r = listed_fields(init);
        assert forall|i: int| 0 <= i < listed_fields(files).len() implies !is_hidden_field(
            #[trigger] listed_fields(files)[i].name,
        ) by {
            if i < r.len() {
                assert(listed_fields(files)[i] == r[i]);
            }
        }
    }
}

/// `x` put into `t` before the entries at the end of `t` whose names are not
/// below its own: one step of a stable insertion sort that takes the
/// entries from the last to the first.
pub open spec fn insert_field(t: Seq<FieldModel>, x: FieldModel) -> Seq<FieldModel>
    decreases t.len(),
{
    if t.len() == 0 {
        seq![x]
    } else if lex_le(x.name, t.last().name) {
        insert_field(t.drop_last(), x).push(t.last())
    } else {
        t.push(x)
    }
}

/// The entries in order of their names, entries with equal names in the
/// order they came in (a stable sort).
pub open spec fn fields_by_name(s: Seq<FieldModel>) -> Seq<FieldModel>
    decreases s.len(),
{
    if s.len() == 0 {
        s
    } else {
        insert_field(fields_by_name(s.drop_first()), s.first())
    }
}

proof fn lemma_insert_field_at(t: Seq<FieldModel>, x: FieldModel, p: int)
    requires
        0 <= p <= t.len(),
        p > 0 ==> !lex_le(x.name, t[p - 1].name),
        forall|k: int| p <= k < t.len() ==> lex_le(x.name, #[trigger] t[k].name),
    ensures
        insert_field(t, x) == t.insert(p, x),
    decreases t.len(),
{
    if t.len() > 0 {
        if lex_le(x.name, t.last().name) {
            assert(p < t.len());
            lemma_insert_field_at(t.drop_last(), x, p);
            assert(t.drop_last().insert(p, x).push(t.last()) =~= t.insert(p, x));
        } else {
            assert(p == t.len());
            assert(t.push(x) =~= t.insert(p, x));
        }
    } else {
        assert(seq![x] =~= t.insert(p, x));
    }
}

/// Sorts entries by name, keeping entries with equal names in order.
pub fn sort_fields(v: Vec<FieldEntry>) -> (r: Vec<FieldEntry>)
    ensures
        field_views(r@) == fields_by_name(field_views(v@)),
        fields_sorted(r@),
        field_views(r@).to_multiset() == field_views(v@).to_multiset(),
{
    let mut out: Vec<FieldEntry> = Vec::new();
    let mut v = v;
    let ghost orig = v@;
    let ghost ov = field_views(orig);
    proof {
        lemma_views_empty_multiset(out@);
        assert(field_views(out@).to_multiset().add(field_views(v@).to_multiset())
            =~= field_views(orig).to_multiset()) by {
            broadcast use vstd::multiset::group_multiset_axioms;
        }
        assert(ov.skip(ov.len() as int) =~= Seq::<FieldModel>::empty());
        assert(field_views(out@) =~= Seq::<FieldModel>::empty());
    }
    while v.len() > 0
        invariant
            fields_sorted(out@),
            field_views(out@).to_multiset().add(field_views(v@).to_multiset())
                == field_views(orig).to_multiset(),
            ov == field_views(orig),
            v@ == orig.take(v@.len() as int),
            v@.len() <= orig.len(),
            field_views(out@) == fields_by_name(ov.skip(v@.len() as int)),
        decreases v@.len(),
    {
        let ghost old_out = out@;
        let ghost old_v = v@;
        let x = v.pop().unwrap();
        let xn = chars_of(x.name.as_str());
        let mut p = out.len();
        while p > 0 && lex_le_exec(&xn, &chars_of(out[p - 1].name.as_str()))
            invariant
                p <= out@.len(),
                out@ == old_out,
                fields_sorted(out@),
                xn@ == x.name@,
                forall|k: int| p <= k < out@.len() ==> lex_le(x.name@, #[trigger] out@[k].name@),
            decreases p,
        {
            p = p - 1;
        }
        proof {
            lemma_insert_sorted_fields(out@, x, p as int);
            lemma_field_views_insert(out@, p as int, x);
            let t = field_views(out@);
            assert forall|k: int| p <= k < t.len() implies lex_le(x@.name, #[trigger] t[k].name) by {
                assert(t[k].name == out@[k].name@);
            }
            lemma_insert_field_at(t, x@, p as int);
            let m = v@.len() as int;
            assert(orig[m] == x);
            assert(ov.skip(m).drop_first() =~= ov.skip(m + 1));
            assert(ov.skip(m).first() == x@);
        }
        out.insert(p, x);
        proof {
            lemma_field_views_push(v@, x);
            assert(old_v == v@.push(x));
            let a = field_views(old_out).to_multiset();
            let b = field_views(v@).to_multiset();
            vstd::seq_lib::to_multiset_insert(field_views(old_out), p as int, x@);
            vstd::seq_lib::to_multiset_build(field_views(v@), x@);
            assert(field_views(out@).to_multiset() == a.insert(x@));
            assert(a.add(b.insert(x@)) == field_views(orig).to_multiset());
            assert(a.insert(x@).add(b) =~= a.add(b.insert(x@))) by {
                broadcast use vstd::multiset::group_multiset_axioms;
            }
        }
    }
    proof {
        lemma_views_empty_multiset(v@);
        assert(field_views(out@).to_multiset().add(Multiset::empty())
            =~= field_views(out@).to_multiset()) by {
            broadcast use vstd::multiset::group_multiset_axioms;
        }
        assert(ov.skip(0) =~= ov);
    }
    out
}

proof fn lemma_views_empty_multiset(s: Seq<FieldEntry>)
    requires
        s.len() == 0,
    ensures
        field_views(s).to_multiset() == Multiset::<FieldModel>::empty(),
{
    vstd::seq_lib::to_multiset_len(field_views(s));
    vstd::multiset::lemma_multiset_empty_len(field_views(s).to_multiset());
}

proof fn lemma_field_views_insert(s: Seq<FieldEntry>, p: int, x: FieldEntry)
    requires
        0 <= p <= s.len(),
    ensures
        field_views(s.insert(p, x)) == field_views(s).insert(p, x@),
{
    assert(field_views(s.insert(p, x)) =~= field_views(s).insert(p, x@));
}

proof fn lemma_field_views_push(s: Seq<FieldEntry>, x: FieldEntry)
    ensures
        field_views(s.push(x)) == field_views(s).push(x@),
{
    assert(field_views(s.push(x)) =~= field_views(s).push(x@));
}

proof fn lemma_insert_sorted_fields(s: Seq<FieldEntry>, x: FieldEntry, p: int)
    requires
        0 <= p <= s.len(),
        fields_sorted(s),
        p > 0 ==> !lex_le(x.name@, s[p - 1].name@),
        forall|k: int| p <= k < s.len() ==> lex_le(x.name@, #[trigger] s[k].name@),
    ensures
        fields_sorted(s.insert(p, x)),
{
    let t = s.insert(p, x);
    if p > 0 {
        lemma_lex_total(x.name@, s[p - 1].name@);
    }
    assert forall|i: int, j: int| 0 <= i < j < t.len() implies lex_le(t[i].name@, t[j].name@) by {
        if j == p {
            if i < p - 1 {
                lemma_lex_trans(s[i].name@, s[p - 1].name@, x.name@);
            }
        } else if i < p && j > p {
            if i < p - 1 {
                lemma_lex_trans(s[i].name@, s[p - 1].name@, x.name@);
            }
            lemma_lex_trans(s[i].name@, x.name@, s[j - 1].name@);
        }
    }
}

/// How many of the lines hold something other than whitespace.
pub open spec fn nonblank_count(ls: Seq<Seq<char>>) -> nat
    decreases ls.len(),
{
    if ls.len() == 0 {
        0
    } else {
        nonblank_count(ls.drop_last()) + if trim(ls.last()).len() > 0 {
            1nat
        } else {
            0nat
        }
    }
}

proof fn lemma_nonblank_le(ls: Seq<Seq<char>>)
    ensures
        nonblank_count(ls) <= ls.len(),
    decreases ls.len(),
{
    if ls.len() > 0 {
        lemma_nonblank_le(ls.drop_last());
    }
}

/// Number of processes listed in the contents of a `cgroup.procs` file:
/// the lines that are not blank.
pub fn proc_count(content: &str) -> (r: usize)
    ensures
        r == nonblank_count(lines(content@)),
{
    let v = chars_of(content);
    let b = line_bounds(&v);
    let ghost ls = lines(content@);
    let mut k: usize = 0;
    let mut total: usize = 0;
    assert(ls.take(0) =~= Seq::<Seq<char>>::empty());
    while k < b.len()
        invariant
            k <= b@.len(),
            bounds_ok(v@.len(), b@),
            pieces(v@, b@) == ls,
            total == nonblank_count(ls.take(k as int)),
            total <= k,
        decreases b@.len() - k,
    {
        let (s, e) = b[k];
        let (ts, te) = trim_range(&v, s, e);
        assert(ls[k as int] == v@.subrange(s as int, e as int));
        assert(ls.take(k + 1).drop_last() == ls.take(k as int));
        assert(ls.take(k + 1).last() == ls[k as int]);
        if ts < te {
            total = total + 1;
        }
        k = k + 1;
    }
    assert(ls.take(b@.len() as int) == ls);
    total
}

/// The process count of a cgroup, from its `cgroup.procs` file if that
/// could be read.
pub open spec fn procs_of(content: Option<String>) -> Option<nat> {
    match content {
        Some(c) => Some(nonblank_count(lines(c@))),
        None => None,
    }
}

/// Assembles a cgroup from what was read in its directory; the children are
/// put in order of their names.
pub fn make_node(
    name: String,
    path: Vec<u8>,
    procs: Option<String>,
    fields: Vec<FieldEntry>,
    children: Vec<CgroupNode>,
) -> (r: CgroupNode)
    ensures
        r.name@ == name@,
        r.path@ == path@,
        match (r.procs, procs_of(procs)) {
            (Some(a), Some(b)) => a == b,
            (None, None) => true,
            _ => false,
        },
        r.fields@ == fields@,
        r.children@ == nodes_by_name(children@),
        nodes_sorted(r.children@),
        r.children@.to_multiset() == children@.to_multiset(),
{
    let procs = match procs {
        Some(c) => Some(proc_count(c.as_str())),
        None => None,
    };
    CgroupNode { name, path, procs, fields, children: sort_nodes(children) }
}

/// `x` put into `t` before the cgroups at the end of `t` whose names are
/// not below its own: one step of a stable insertion sort that takes the
/// cgroups from the last to the first.
pub open spec fn insert_node(t: Seq<CgroupNode>, x: CgroupNode) -> Seq<CgroupNode>
    decreases t.len(),
{
    if t.len() == 0 {
        seq![x]
    } else if lex_le(x.name@, t.last().name@) {
        insert_node(t.drop_last(), x).push(t.last())
    } else {
        t.push(x)
    }
}

/// The cgroups in order of their names, cgroups with equal names in the
/// order they came in (a stable sort).
pub open spec fn nodes_by_name(s: Seq<CgroupNode>) -> Seq<CgroupNode>
    decreases s.len(),
{
    if s.len() == 0 {
        s
    } else {
        insert_node(nodes_by_name(s.drop_first()), s.first())
    }
}

proof fn lemma_insert_node_at(t: Seq<CgroupNode>, x: CgroupNode, p: int)
    requires
        0 <= p <= t.len(),
        p > 0 ==> !lex_le(x.name@, t[p - 1].name@),
        forall|k: int| p <= k < t.len() ==> lex_le(x.name@, #[trigger] t[k].name@),
    ensures
        insert_node(t, x) == t.insert(p, x),
    decreases t.len(),
{
    if t.len() > 0 {
        if lex_le(x.name@, t.last().name@) {
            assert(p < t.len());
            lemma_insert_node_at(t.drop_last(), x, p);
            assert(t.drop_last().insert(p, x).push(t.last()) =~= t.insert(p, x));
        } else {
            assert(p == t.len());
            assert(t.push(x) =~= t.insert(p, x));
        }
    } else {
        assert(seq![x] =~= t.insert(p, x));
    }
}

/// Sorts cgroups by name, keeping cgroups with equal names in order.
pub fn sort_nodes(v: Vec<CgroupNode>) -> (r: Vec<CgroupNode>)
    ensures
        r@ == nodes_by_name(v@),
        nodes_sorted(r@),
        r@.to_multiset() == v@.to_multiset(),
{
    let mut out: Vec<CgroupNode> = Vec::new();
    let mut v = v;
    let ghost orig = v@;
    proof {
        lemma_empty_multiset(out@);
        assert(out@.to_multiset().add(v@.to_multiset()) =~= orig.to_multiset()) by {
            broadcast use vstd::multiset::group_multiset_axioms;
        }
        assert(orig.skip(orig.len() as int) =~= Seq::<CgroupNode>::empty());
    }
    while v.len() > 0
        invariant
            nodes_sorted(out@),
            out@.to_multiset().add(v@.to_multiset()) == orig.to_multiset(),
            v@ == orig.take(v@.len() as int),
            v@.len() <= orig.len(),
            out@ == nodes_by_name(orig.skip(v@.len() as int)),
        decreases v@.len(),
    {
        let ghost old_out = out@;
        let ghost old_v = v@;
        let x = v.pop().unwrap();
        let xn = chars_of(x.name.as_str());
        let mut p = out.len();
        while p > 0 && lex_le_exec(&xn, &chars_of(out[p - 1].name.as_str()))
            invariant
                p <= out@.len(),
                out@ == old_out,
                nodes_sorted(out@),
                xn@ == x.name@,
                forall|k: int| p <= k < out@.len() ==> lex_le(x.name@, #[trigger] out@[k].name@),
            decreases p,
        {
            p = p - 1;
        }
        proof {
            lemma_insert_sorted_nodes(out@, x, p as int);
            lemma_insert_node_at(out@, x, p as int);
            let m = v@.len() as int;
            assert(orig[m] == x);
            assert(orig.skip(m).drop_first() =~= orig.skip(m + 1));
            assert(orig.skip(m).first() == x);
        }
        out.insert(p, x);
        proof {
            assert(old_v == v@.push(x));
            let a = old_out.to_multiset();
            let b = v@.to_multiset();
            vstd::seq_lib::to_multiset_insert(old_out, p as int, x);
            vstd::seq_lib::to_multiset_build(v@, x);
            assert(a.insert(x).add(b) =~= a.add(b.insert(x))) by {
                broadcast use vstd::multiset::group_multiset_axioms;
            }
        }
    }
    proof {
        lemma_empty_multiset(v@);
        assert(out@.to_multiset().add(Multiset::empty()) =~= out@.to_multiset()) by {
            broadcast use vstd::multiset::group_multiset_axioms;
        }
        assert(orig.skip(0) =~= orig);
    }
    out
}

proof fn lemma_empty_multiset<A>(s: Seq<A>)
    requires
        s.len() == 0,
    ensures
        s.to_multiset() == Multiset::<A>::empty(),
{
    vstd::seq_lib::to_multiset_len(s);
    vstd::multiset::lemma_multiset_empty_len(s.to_multiset());
}

proof fn lemma_insert_sorted_nodes(s: Seq<CgroupNode>, x: CgroupNode, p: int)
    requires
        0 <= p <= s.len(),
        nodes_sorted(s),
        p > 0 ==> !lex_le(x.name@, s[p - 1].name@),
        forall|k: int| p <= k < s.len() ==> lex_le(x.name@, #[trigger] s[k].name@),
    ensures
        nodes_sorted(s.insert(p, x)),
{
    let t = s.insert(p, x);
    if p > 0 {
        lemma_lex_total(x.name@, s[p - 1].name@);
    }
    assert forall|i: int, j: int| 0 <= i < j < t.len() implies lex_le(t[i].name@, t[j].name@) by {
        if j == p {
            if i < p - 1 {
                lemma_lex_trans(s[i].name@, s[p - 1].name@, x.name@);
            }
        } else if i < p && j > p {
            if i < p - 1 {
                lemma_lex_trans(s[i].name@, s[p - 1].name@, x.name@);
            }
            lemma_lex_trans(s[i].name@, x.name@, s[j - 1].name@);
        }
    }
}

/// What a file shows for the outcome of reading it, as the listing promises:
/// the contents with trailing whitespace removed, or the reason the read
/// failed between `<unreadable: ` and `>`.
pub open spec fn shown_value(read: Result<String, String>) -> Seq<char> {
    match read {
        Ok(s) => trim_end(s@),
        Err(e) => "<unreadable: "@ + e@ + ">"@,
    }
}

/// Every interface file but the hidden ones gives an entry, whether or not
/// reading it succeeded; a failed read shows its reason. There is one entry
/// per such file, and no entry for a hidden file.
pub proof fn law_every_visible_file_is_listed(files: Seq<(String, Result<String, String>)>)
    ensures
        listed_fields(files).len() == files.filter(
            |f: (String, Result<String, String>)| !is_hidden_field(f.0@),
        ).len(),
        forall|i: int|
            0 <= i < files.len() && !is_hidden_field(#[trigger] files[i].0@) ==> listed_fields(
                files,
            ).contains(FieldModel { name: files[i].0@, value: shown_value(files[i].1) }),
        forall|j: int|
            0 <= j < listed_fields(files).len() ==> !is_hidden_field(
                #[trigger] listed_fields(files)[j].name,
            ),
    decreases files.len(),
{
    let pred = |f: (String, Result<String, String>)| !is_hidden_field(f.0@);
    lemma_listed_not_hidden(files);
    if files.len() > 0 {
        let init = files.drop_last();
        law_every_visible_file_is_listed(init);
        reveal(Seq::filter);
        assert(files.filter(pred) == if pred(files.last()) {
            init.filter(pred).push(files.last())
        } else {
            init.filter(pred)
        });
        let r = listed_fields(init);
        assert forall|i: int|
            0 <= i < files.len() && !is_hidden_field(#[trigger] files[i].0@) implies listed_fields(
            files,
        ).contains(FieldModel { name: files[i].0@, value: shown_value(files[i].1) }) by {
            let fm = FieldModel { name: files[i].0@, value: shown_value(files[i].1) };
            assert(field_text(files[i].1) == shown_value(files[i].1));
            if i < files.len() - 1 {
                assert(init[i] == files[i]);
                assert(r.contains(fm));
                let k = choose|k: int| 0 <= k < r.len() && r[k] == fm;
                assert(listed_fields(files)[k] == fm);
            } else {
                assert(files.last() == files[i]);
                let t = listed_fields(files);
                assert(t[t.len() - 1] == fm);
            }
        }
    } else {
        assert(files.filter(pred) =~= Seq::empty()) by {
            reveal(Seq::filter);
        }
    }
}

} // verus!
