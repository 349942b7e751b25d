//! Property patterns: parsing the comma-separated filter and selecting the
//! interface files that it names.

use vstd::prelude::*;

use crate::data::FieldEntry;
use crate::text::{
    chars_of, contains, has_sub, join, lemma_split_join, lemma_split_pieces_lack_sep,
    lemma_trim_idempotent, lemma_trim_sub, split_on, string_of_range, trim, trim_end, trim_range,
    trim_start,
};

verus! {

/// Keeps the non-empty strings, in order.
pub open spec fn nonempty_only(s: Seq<Seq<char>>) -> Seq<Seq<char>>
    decreases s.len(),
{
    if s.len() == 0 {
        s
    } else {
        let r = nonempty_only(s.drop_last());
        if s.last().len() > 0 {
            r.push(s.last())
        } else {
            r
        }
    }
}

/// The patterns that a comma-separated string names: its pieces between
/// commas, trimmed, empty ones left out.
pub open spec fn patterns_of(input: Seq<char>) -> Seq<Seq<char>> {
    nonempty_only(split_on(input, ',').map_values(|p: Seq<char>| trim(p)))
}

/// The views of a sequence of strings.
pub open spec fn string_views(s: Seq<String>) -> Seq<Seq<char>> {
    s.map_values(|p: String| p@)
}

/// Parses a comma-separated string into field name patterns.
/// Example: `memory,cpu.weight` becomes `["memory", "cpu.weight"]`.
pub fn parse_field_patterns(input: &str) -> (r: Vec<String>)
    ensures
        string_views(r@) == patterns_of(input@),
{
    let v = chars_of(input);
    let n = v.len();
    let mut r: Vec<String> = Vec::new();
    let mut st: usize = 0;
    let mut i: usize = 0;
    let ghost tr = |p: Seq<char>| trim(p);
    assert(v@.take(0) =~= Seq::<char>::empty());
    assert(split_on(v@.take(0), ',').drop_last().map_values(tr) =~= Seq::<Seq<char>>::empty());
    while i < n
        invariant
            n == v@.len(),
            st <= i <= n,
            tr == (|p: Seq<char>| trim(p)),
            split_on(v@.take(i as int), ',').last() == v@.subrange(st as int, i as int),
            string_views(r@) == nonempty_only(
                split_on(v@.take(i as int), ',').drop_last().map_values(tr),
            ),
        decreases n - i,
    {
        let ghost pre = v@.take(i + 1);
        let ghost parts = split_on(v@.take(i as int), ',');
        assert(pre.drop_last() == v@.take(i as int));
        assert(pre.last() == v@[i as int]);
        proof {
            crate::text::lemma_split_nonempty(v@.take(i as int), ',');
        }
        if v[i] == ',' {
            let (a, b) = trim_range(&v, st, i);
            assert(split_on(pre, ',').drop_last() == parts);
            assert(parts.map_values(tr) =~= parts.drop_last().map_values(tr).push(
                trim(v@.subrange(st as int, i as int)),
            ));
            let ghost x = parts.drop_last().map_values(tr);
            let ghost y = trim(v@.subrange(st as int, i as int));
            assert(x.push(y).drop_last() == x);
            assert(x.push(y).last() == y);
            if a < b {
                let ghost old_r = r@;
                r.push(string_of_range(&v, a, b));
                assert(string_views(r@) =~= string_views(old_r).push(
                    v@.subrange(a as int, b as int),
                ));
            }
            st = i + 1;
            assert(v@.subrange(st as int, i + 1) =~= Seq::<char>::empty());
        } else {
            assert(split_on(pre, ',').drop_last() =~= parts.drop_last());
            assert(v@.subrange(st as int, i + 1) =~= v@.subrange(st as int, i as int).push(
                v@[i as int],
            ));
        }
        i = i + 1;
    }
    assert(v@.take(n as int) == v@);
    let ghost parts = split_on(v@, ',');
    proof {
        crate::text::lemma_split_nonempty(v@, ',');
    }
    assert(parts =~= parts.drop_last().push(parts.last()));
    assert(parts.map_values(tr) =~= parts.drop_last().map_values(tr).push(trim(parts.last())));
    let (a, b) = trim_range(&v, st, n);
    let ghost x = parts.drop_last().map_values(tr);
    let ghost y = trim(parts.last());
    assert(x.push(y).drop_last() == x);
    assert(x.push(y).last() == y);
    if a < b {
        let ghost old_r = r@;
        r.push(string_of_range(&v, a, b));
        assert(string_views(r@) =~= string_views(old_r).push(v@.subrange(a as int, b as int)));
    }
    r
}

/// Some pattern is exactly `*`.
pub open spec fn shows_all(patterns: Seq<Seq<char>>) -> bool {
    exists|i: int| 0 <= i < patterns.len() && patterns[i] == seq!['*']
}

/// A field named `name` is selected by `patterns`: `*` selects every field,
/// otherwise some pattern must be a substring of the name. No patterns
/// select nothing.
pub open spec fn selects(patterns: Seq<Seq<char>>, name: Seq<char>) -> bool {
    shows_all(patterns) || exists|i: int|
        0 <= i < patterns.len() && has_sub(name, #[trigger] patterns[i])
}

/// The fields that `patterns` selects, in their order.
pub open spec fn selected_fields(fields: Seq<FieldEntry>, patterns: Seq<Seq<char>>) -> Seq<FieldEntry>
    decreases fields.len(),
{
    if fields.len() == 0 {
        fields
    } else {
        let r = selected_fields(fields.drop_last(), patterns);
        if selects(patterns, fields.last().name@) {
            r.push(fields.last())
        } else {
            r
        }
    }
}

/// Whether some pattern is exactly `*`.
pub fn pattern_shows_all(patterns: &[String]) -> (r: bool)
    ensures
        r == shows_all(string_views(patterns@)),
{
    let mut i: usize = 0;
    while i < patterns.len()
        invariant
            i <= patterns@.len(),
            forall|k: int| 0 <= k < i ==> patterns@[k]@ != seq!['*'],
        decreases patterns@.len() - i,
    {
        let c = chars_of(patterns[i].as_str());
        if c.len() == 1 && c[0] == '*' {
            assert(c@ =~= seq!['*']);
            assert(string_views(patterns@)[i as int] == patterns@[i as int]@);
            return true;
        }
        assert(c@ != seq!['*']) by {
            if c@ == seq!['*'] {
                assert(c@.len() == 1 && c@[0] == '*');
            }
        }
        i = i + 1;
    }
    assert forall|k: int| 0 <= k < patterns@.len() implies string_views(patterns@)[k] != seq!['*'] by {
        assert(string_views(patterns@)[k] == patterns@[k]@);
    }
    false
}

/// Whether `patterns` selects the field named `name`.
pub fn field_selected(patterns: &[String], show_all: bool, name: &str) -> (r: bool)
    requires
        show_all == shows_all(string_views(patterns@)),
    ensures
        r == selects(string_views(patterns@), name@),
{
    if show_all {
        return true;
    }
    let nv = chars_of(name);
    let mut i: usize = 0;
    while i < patterns.len()
        invariant
            i <= patterns@.len(),
            nv@ == name@,
            forall|k: int| 0 <= k < i ==> !has_sub(name@, #[trigger] patterns@[k]@),
        decreases patterns@.len() - i,
    {
        let pv = chars_of(patterns[i].as_str());
        assert(string_views(patterns@)[i as int] == patterns@[i as int]@);
        if contains(&nv, &pv) {
            return true;
        }
        i = i + 1;
    }
    assert forall|k: int| 0 <= k < patterns@.len() implies !has_sub(name@, #[trigger] string_views(patterns@)[k]) by {
        assert(string_views(patterns@)[k] == patterns@[k]@);
    }
    false
}

/// The entries that a sequence of references points to.
pub open spec fn deref_all(s: Seq<&FieldEntry>) -> Seq<FieldEntry> {
    s.map_values(|f: &FieldEntry| *f)
}

/// Selects the fields matching the given patterns.
///
/// - no patterns selects nothing (properties are opt-in)
/// - `*` selects every field
/// - otherwise a field matches when its name contains any pattern as a substring
pub fn matching_fields<'a>(fields: &'a [FieldEntry], patterns: &[String]) -> (r: Vec<
    &'a FieldEntry,
>)
    ensures
        deref_all(r@) == selected_fields(fields@, string_views(patterns@)),
{
    let show_all = pattern_shows_all(patterns);
    let mut r: Vec<&'a FieldEntry> = Vec::new();
    let mut i: usize = 0;
    assert(fields@.take(0) =~= Seq::<FieldEntry>::empty());
    assert(deref_all(r@) =~= Seq::<FieldEntry>::empty());
    while i < fields.len()
        invariant
            i <= fields@.len(),
            show_all == shows_all(string_views(patterns@)),
            deref_all(r@) == selected_fields(fields@.take(i as int), string_views(patterns@)),
        decreases fields@.len() - i,
    {
        assert(fields@.take(i + 1).drop_last() == fields@.take(i as int));
        assert(fields@.take(i + 1).last() == fields@[i as int]);
        let f = &fields[i];
        if field_selected(patterns, show_all, f.name.as_str()) {
            let ghost old_r = r@;
            r.push(f);
            assert(deref_all(r@) =~= deref_all(old_r).push(*f));
        }
        i = i + 1;
    }
    assert(fields@.take(fields@.len() as int) == fields@);
    r
}

/// No patterns select no property: properties are opt-in.
pub proof fn law_no_patterns_select_nothing(fields: Seq<FieldEntry>)
    ensures
        selected_fields(fields, Seq::empty()).len() == 0,
    decreases fields.len(),
{
    if fields.len() > 0 {
        law_no_patterns_select_nothing(fields.drop_last());
    }
}

/// `*` among the patterns selects every property.
pub proof fn law_star_selects_everything(fields: Seq<FieldEntry>, patterns: Seq<Seq<char>>)
    requires
        shows_all(patterns),
    ensures
        selected_fields(fields, patterns) == fields,
    decreases fields.len(),
{
    if fields.len() > 0 {
        law_star_selects_everything(fields.drop_last(), patterns);
        assert(fields.drop_last().push(fields.last()) =~= fields);
    }
}

/// The selected properties are properties of the cgroup that the patterns
/// select, in their order: a subsequence, never more than there are.
pub proof fn law_selection_is_a_subsequence(fields: Seq<FieldEntry>, patterns: Seq<Seq<char>>)
    ensures
        selected_fields(fields, patterns).len() <= fields.len(),
        forall|i: int|
            0 <= i < selected_fields(fields, patterns).len() ==> {
                let f = #[trigger] selected_fields(fields, patterns)[i];
                &&& fields.contains(f)
                &&& selects(patterns, f.name@)
            },
        forall|i: int|
            0 <= i < fields.len() && selects(patterns, #[trigger] fields[i].name@)
                ==> selected_fields(fields, patterns).contains(fields[i]),
    decreases fields.len(),
{
    if fields.len() > 0 {
        let init = fields.drop_last();
        law_selection_is_a_subsequence(init, patterns);
        let r = selected_fields(init, patterns);
        assert forall|i: int| 0 <= i < r.len() && init.contains(#[trigger] r[i]) implies fields.contains(r[i]) by {
            if init.contains(r[i]) {
                let j = choose|j: int| 0 <= j < init.len() && init[j] == r[i];
                assert(fields[j] == r[i]);
            }
        }
        assert(fields[fields.len() - 1] == fields.last());
        assert forall|i: int|
            0 <= i < fields.len() && selects(patterns, #[trigger] fields[i].name@)
                implies selected_fields(fields, patterns).contains(fields[i]) by {
            if i < fields.len() - 1 {
                assert(init[i] == fields[i]);
                assert(r.contains(init[i]));
                let j = choose|j: int| 0 <= j < r.len() && r[j] == init[i];
                assert(selected_fields(fields, patterns)[j] == fields[i]);
            } else {
                let t = selected_fields(fields, patterns);
                assert(t[t.len() - 1] == fields.last());
            }
        }
    }
}

proof fn lemma_nonempty_only_from(s: Seq<Seq<char>>)
    ensures
        forall|i: int|
            0 <= i < nonempty_only(s).len() ==> #[trigger] nonempty_only(s)[i].len() > 0 && s.contains(
                nonempty_only(s)[i],
            ),
    decreases s.len(),
{
    if s.len() > 0 {
        let init = s.drop_last();
        lemma_nonempty_only_from(init);
        assert forall|i: int| 0 <= i < nonempty_only(s).len() implies #[trigger] nonempty_only(
            s,
        )[i].len() > 0 && s.contains(nonempty_only(s)[i]) by {
            let r = nonempty_only(init);
            if i < r.len() {
                assert(nonempty_only(s)[i] == r[i]);
                let k = choose|k: int| 0 <= k < init.len() && init[k] == r[i];
                assert(s[k] == r[i]);
            } else {
                assert(nonempty_only(s)[i] == s.last());
                assert(s[s.len() - 1] == s.last());
            }
        }
    }
}

/// Every pattern that a filter string names is non-empty, has no
/// surrounding whitespace, and holds no comma.
pub proof fn law_patterns_are_clean(input: Seq<char>)
    ensures
        forall|i: int|
            0 <= i < patterns_of(input).len() ==> {
                let p = #[trigger] patterns_of(input)[i];
                &&& p.len() > 0
                &&& trim(p) == p
                &&& forall|j: int| 0 <= j < p.len() ==> p[j] != ','
            },
{
    let parts = split_on(input, ',');
    let trimmed = parts.map_values(|x: Seq<char>| trim(x));
    lemma_nonempty_only_from(trimmed);
    lemma_split_pieces_lack_sep(input, ',');
    assert forall|i: int| 0 <= i < patterns_of(input).len() implies {
        let p = #[trigger] patterns_of(input)[i];
        &&& p.len() > 0
        &&& trim(p) == p
        &&& forall|j: int| 0 <= j < p.len() ==> p[j] != ','
    } by {
        let p = patterns_of(input)[i];
        let k = choose|k: int| 0 <= k < trimmed.len() && trimmed[k] == p;
        let piece = parts[k];
        assert(p == trim(piece));
        lemma_trim_idempotent(piece);
        lemma_trim_sub(piece);
        let (a, b) = choose|a: int, b: int| 0 <= a <= b <= piece.len() && trim(piece) == piece.subrange(a, b);
        assert forall|j: int| 0 <= j < p.len() implies p[j] != ',' by {
            assert(p[j] == piece[a + j]);
        }
    }
}

/// Non-empty strings all stay.
proof fn lemma_nonempty_only_keeps(s: Seq<Seq<char>>)
    requires
        forall|i: int| 0 <= i < s.len() ==> #[trigger] s[i].len() > 0,
    ensures
        nonempty_only(s) == s,
    decreases s.len(),
{
    if s.len() > 0 {
        assert(s.last() == s[s.len() - 1]);
        lemma_nonempty_only_keeps(s.drop_last());
        assert(s.drop_last().push(s.last()) =~= s);
    }
}

/// The saved filter as it is shown, its patterns joined by commas, names
/// the same patterns again when it is typed back into the prompt.
pub proof fn law_shown_filter_parses_back(input: Seq<char>)
    ensures
        patterns_of(join(patterns_of(input), ","@)) == patterns_of(input),
{
    reveal_strlit(",");
    assert(","@ =~= seq![',']);
    let ps = patterns_of(input);
    law_patterns_are_clean(input);
    let tr = |p: Seq<char>| trim(p);
    if ps.len() == 0 {
        let e = Seq::<char>::empty();
        assert(join(ps, ","@) == e);
        assert(split_on(e, ',') == seq![e]);
        assert(trim_end(e) == e);
        assert(trim_start(e) == e);
        let t = seq![e].map_values(tr);
        assert(t.len() == 1);
        assert(t.last() == e);
        assert(nonempty_only(t) == nonempty_only(t.drop_last()));
        assert(nonempty_only(t.drop_last()).len() == 0);
        assert(nonempty_only(t) =~= ps);
    } else {
        assert forall|i: int, j: int| 0 <= i < ps.len() && 0 <= j < ps[i].len() implies ps[i][j]
            != ',' by {
            let p = ps[i];
            assert(forall|j: int| 0 <= j < p.len() ==> p[j] != ',');
        }
        lemma_split_join(ps, ',');
        assert forall|i: int| 0 <= i < ps.len() implies #[trigger] ps.map_values(tr)[i] == ps[i] by {
            let p = ps[i];
            assert(trim(p) == p);
        }
        assert(ps.map_values(tr) =~= ps);
        assert forall|i: int| 0 <= i < ps.len() implies #[trigger] ps[i].len() > 0 by {
            let p = ps[i];
            assert(p.len() > 0);
        }
        lemma_nonempty_only_keeps(ps);
    }
}

} // verus!
