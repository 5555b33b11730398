//! Mathematical model of the styled path tree.
//!
//! Every operation of [`crate::pathtree_stylizer::PathTreeStylized`] is
//! specified against [`TreeModel`], a ghost mirror of the tree in which
//! strings are character sequences and the child list is a `Seq`.  The spec
//! functions here define the meaning of insertion, aggregation, ordering,
//! color assignment and rendering; the executable methods promise to compute
//! exactly these functions, and the lemmas in the sibling `laws` module state
//! the global properties of the engine.

use vstd::prelude::*;

use crate::osu::status_rank;
use crate::osu::OsuBeatmapGrade;
use crate::osu::OsuBeatmapStatus;

verus! {

/// One node of the model: a path segment, an optional status, the style
/// configuration, and the children in their current order.
#[verifier::ext_equal]
pub ghost struct TreeModel {
    pub segment: Seq<char>,
    pub data: Option<OsuBeatmapStatus>,
    pub colors: Option<Seq<(OsuBeatmapStatus, (Seq<char>, Seq<char>))>>,
    pub base_color: Option<(Seq<char>, Seq<char>)>,
    pub children: Seq<TreeModel>,
}

/// A fresh node with no status and no children, inheriting a style
/// configuration from its parent.
pub open spec fn new_node(
    segment: Seq<char>,
    colors: Option<Seq<(OsuBeatmapStatus, (Seq<char>, Seq<char>))>>,
    base_color: Option<(Seq<char>, Seq<char>)>,
) -> TreeModel {
    TreeModel { segment, data: None, colors, base_color, children: Seq::empty() }
}

/// The root that tree construction starts from: empty segment, no status,
/// no style configuration, no children.
pub open spec fn empty_root() -> TreeModel {
    new_node(Seq::empty(), None, None)
}

/// Index of the first child whose segment equals `seg`, or -1 if none does.
pub open spec fn find_child(cs: Seq<TreeModel>, seg: Seq<char>) -> int
    decreases cs.len(),
{
    if cs.len() == 0 {
        -1
    } else if cs[0].segment == seg {
        0
    } else {
        let r: int = find_child(cs.subrange(1, cs.len() as int), seg);
        if r == -1 {
            -1
        } else {
            r + 1
        }
    }
}

/// `find_child` returns the first index whose segment matches, and -1
/// exactly when no segment matches.
pub proof fn lemma_find_child(cs: Seq<TreeModel>, seg: Seq<char>)
    ensures
        find_child(cs, seg) == -1 ==> forall|k: int| 0 <= k < cs.len() ==> cs[k].segment != seg,
        find_child(cs, seg) != -1 ==> {
            let f = find_child(cs, seg);
            &&& 0 <= f < cs.len()
            &&& cs[f].segment == seg
            &&& forall|k: int| 0 <= k < f ==> cs[k].segment != seg
        },
    decreases cs.len(),
{
    if cs.len() > 0 && cs[0].segment != seg {
        lemma_find_child(cs.subrange(1, cs.len() as int), seg);
        assert forall|k: int| 1 <= k < cs.len() implies cs.subrange(1, cs.len() as int)[k - 1]
            == cs[k] by {}
    }
}

/// If `cs[i]` is the first match for `seg`, then `find_child` finds it.
pub proof fn lemma_find_child_at(cs: Seq<TreeModel>, seg: Seq<char>, i: int)
    requires
        0 <= i < cs.len(),
        cs[i].segment == seg,
        forall|k: int| 0 <= k < i ==> cs[k].segment != seg,
    ensures
        find_child(cs, seg) == i,
    decreases cs.len(),
{
    if i > 0 {
        lemma_find_child_at(cs.subrange(1, cs.len() as int), seg, i - 1);
    }
}

/// Insertion: descend along `path`, reusing the first child matching each
/// segment and appending a fresh child when none matches; the node where the
/// path ends receives `s`, overwriting any earlier status (last write wins).
pub open spec fn spec_insert(t: TreeModel, path: Seq<Seq<char>>, s: OsuBeatmapStatus) -> TreeModel
    decreases path.len(),
{
    if path.len() == 0 {
        TreeModel { data: Some(s), ..t }
    } else {
        let i: int = find_child(t.children, path[0]);
        if i >= 0 {
            TreeModel {
                children: t.children.update(
                    i,
                    spec_insert(t.children[i], path.subrange(1, path.len() as int), s),
                ),
                ..t
            }
        } else {
            TreeModel {
                children: t.children.push(
                    spec_insert(
                        new_node(path[0], t.colors, t.base_color),
                        path.subrange(1, path.len() as int),
                        s,
                    ),
                ),
                ..t
            }
        }
    }
}

/// The tree grown by inserting every `(path, status)` pair in order into the
/// empty root.
pub open spec fn spec_build(pairs: Seq<(Seq<Seq<char>>, OsuBeatmapStatus)>) -> TreeModel
    decreases pairs.len(),
{
    if pairs.len() == 0 {
        empty_root()
    } else {
        spec_insert(spec_build(pairs.drop_last()), pairs.last().0, pairs.last().1)
    }
}

/// The greater of two optional statuses per `status_rank`; an absent status
/// loses to any present one.
pub open spec fn opt_status_max(
    a: Option<OsuBeatmapStatus>,
    b: Option<OsuBeatmapStatus>,
) -> Option<OsuBeatmapStatus> {
    match (a, b) {
        (Option::None, y) => y,
        (x, Option::None) => x,
        (Option::Some(x), Option::Some(y)) => if status_rank(y) >= status_rank(x) {
            Option::Some(y)
        } else {
            Option::Some(x)
        },
    }
}

/// The best (maximal-rank) status directly carried by any node of `cs`, if
/// any node carries one.
pub open spec fn children_best(cs: Seq<TreeModel>) -> Option<OsuBeatmapStatus>
    decreases cs.len(),
{
    if cs.len() == 0 {
        None
    } else {
        opt_status_max(children_best(cs.drop_last()), cs.last().data)
    }
}

/// Aggregation: children are aggregated first; a node that lacks a direct
/// status then takes the best status found among its (aggregated) children,
/// while a node that has one keeps it.  A childless node without a status
/// stays unresolved.
pub open spec fn spec_filled(t: TreeModel) -> TreeModel
    decreases t, 0int,
{
    let fc = map_filled(t.children, 0);
    TreeModel {
        data: if t.data is Some {
            t.data
        } else {
            children_best(fc)
        },
        children: fc,
        ..t
    }
}

/// Aggregation of each subtree of `cs` from index `i` on, in order.
pub open spec fn map_filled(cs: Seq<TreeModel>, i: int) -> Seq<TreeModel>
    decreases cs, cs.len() - i,
{
    if i < 0 || i >= cs.len() {
        Seq::empty()
    } else {
        seq![spec_filled(cs[i])] + map_filled(cs, i + 1)
    }
}

/// `map_filled` maps `spec_filled` over the suffix of `cs` elementwise.
pub proof fn lemma_map_filled(cs: Seq<TreeModel>, i: int)
    requires
        0 <= i <= cs.len(),
    ensures
        map_filled(cs, i).len() == cs.len() - i,
        forall|k: int| 0 <= k < cs.len() - i ==> map_filled(cs, i)[k] == spec_filled(cs[i + k]),
    decreases cs.len() - i,
{
    if i < cs.len() {
        lemma_map_filled(cs, i + 1);
    }
}

/// Rank of an optional status as a sort key: an absent status sorts before
/// every present one.
pub open spec fn data_rank(d: Option<OsuBeatmapStatus>) -> int {
    match d {
        Option::None => -1,
        Option::Some(s) => status_rank(s),
    }
}

/// Lexicographic order on character sequences, by code point.
pub open spec fn seq_char_le(a: Seq<char>, b: Seq<char>) -> bool
    decreases a.len(),
{
    if a.len() == 0 {
        true
    } else if b.len() == 0 {
        false
    } else if a[0] != b[0] {
        (a[0] as int) < (b[0] as int)
    } else {
        seq_char_le(a.subrange(1, a.len() as int), b.subrange(1, b.len() as int))
    }
}

/// Sibling sort key order: primarily by status rank, ties broken by the
/// segment's lexicographic order.
pub open spec fn key_le(a: TreeModel, b: TreeModel) -> bool {
    data_rank(a.data) < data_rank(b.data) || (data_rank(a.data) == data_rank(b.data)
        && seq_char_le(a.segment, b.segment))
}

/// Stable insertion of `x` into an already sorted sequence: `x` lands after
/// every element that is `key_le` it.
pub open spec fn insert_sorted(s: Seq<TreeModel>, x: TreeModel) -> Seq<TreeModel>
    decreases s.len(),
{
    if s.len() == 0 {
        seq![x]
    } else if !key_le(s[0], x) {
        seq![x] + s
    } else {
        seq![s[0]] + insert_sorted(s.subrange(1, s.len() as int), x)
    }
}

/// `insert_sorted` places `x` exactly at the first index `j` whose element
/// is not `key_le` `x`.
pub proof fn lemma_insert_sorted_at(s: Seq<TreeModel>, x: TreeModel, j: int)
    requires
        0 <= j <= s.len(),
        forall|k: int| 0 <= k < j ==> key_le(s[k], x),
        j < s.len() ==> !key_le(s[j], x),
    ensures
        insert_sorted(s, x) == s.subrange(0, j) + seq![x] + s.subrange(j, s.len() as int),
    decreases s.len(),
{
    if s.len() == 0 {
        assert(insert_sorted(s, x) =~= s.subrange(0, j) + seq![x] + s.subrange(j, s.len() as int));
    } else if !key_le(s[0], x) {
        assert(j == 0);
        assert(insert_sorted(s, x) =~= s.subrange(0, j) + seq![x] + s.subrange(j, s.len() as int));
    } else {
        let tail = s.subrange(1, s.len() as int);
        lemma_insert_sorted_at(tail, x, j - 1);
        assert(insert_sorted(s, x) =~= s.subrange(0, j) + seq![x] + s.subrange(j, s.len() as int));
    }
}

/// Stable insertion sort of a sequence of siblings.
pub open spec fn sort_seq(s: Seq<TreeModel>) -> Seq<TreeModel>
    decreases s.len(),
{
    if s.len() == 0 {
        Seq::empty()
    } else {
        insert_sorted(sort_seq(s.drop_last()), s.last())
    }
}

/// Ordering pass: sort every node's children ascending by `key_le`, at every
/// level of the tree.
pub open spec fn spec_sorted(t: TreeModel) -> TreeModel
    decreases t, 0int,
{
    TreeModel { children: sort_seq(map_sorted(t.children, 0)), ..t }
}

/// Ordering of each subtree of `cs` from index `i` on, in order.
pub open spec fn map_sorted(cs: Seq<TreeModel>, i: int) -> Seq<TreeModel>
    decreases cs, cs.len() - i,
{
    if i < 0 || i >= cs.len() {
        Seq::empty()
    } else {
        seq![spec_sorted(cs[i])] + map_sorted(cs, i + 1)
    }
}

/// `map_sorted` maps `spec_sorted` over the suffix of `cs` elementwise.
pub proof fn lemma_map_sorted(cs: Seq<TreeModel>, i: int)
    requires
        0 <= i <= cs.len(),
    ensures
        map_sorted(cs, i).len() == cs.len() - i,
        forall|k: int| 0 <= k < cs.len() - i ==> map_sorted(cs, i)[k] == spec_sorted(cs[i + k]),
    decreases cs.len() - i,
{
    if i < cs.len() {
        lemma_map_sorted(cs, i + 1);
    }
}

/// Reversal pass: reverse every node's child order, at every level.
pub open spec fn spec_reversed(t: TreeModel) -> TreeModel
    decreases t, 0int,
{
    TreeModel { children: map_reversed(t.children, 0).reverse(), ..t }
}

/// Reversal of each subtree of `cs` from index `i` on, in order.
pub open spec fn map_reversed(cs: Seq<TreeModel>, i: int) -> Seq<TreeModel>
    decreases cs, cs.len() - i,
{
    if i < 0 || i >= cs.len() {
        Seq::empty()
    } else {
        seq![spec_reversed(cs[i])] + map_reversed(cs, i + 1)
    }
}

/// `map_reversed` maps `spec_reversed` over the suffix of `cs` elementwise.
pub proof fn lemma_map_reversed(cs: Seq<TreeModel>, i: int)
    requires
        0 <= i <= cs.len(),
    ensures
        map_reversed(cs, i).len() == cs.len() - i,
        forall|k: int| 0 <= k < cs.len() - i ==> map_reversed(cs, i)[k] == spec_reversed(cs[i + k]),
    decreases cs.len() - i,
{
    if i < cs.len() {
        lemma_map_reversed(cs, i + 1);
    }
}

/// Color assignment: overwrite the style configuration of every node of the
/// tree with the given one.
pub open spec fn spec_colored(
    t: TreeModel,
    colors: Option<Seq<(OsuBeatmapStatus, (Seq<char>, Seq<char>))>>,
    base_color: Option<(Seq<char>, Seq<char>)>,
) -> TreeModel
    decreases t, 0int,
{
    TreeModel { colors, base_color, children: map_colored(t.children, 0, colors, base_color), ..t }
}

/// Color assignment over each subtree of `cs` from index `i` on, in order.
pub open spec fn map_colored(
    cs: Seq<TreeModel>,
    i: int,
    colors: Option<Seq<(OsuBeatmapStatus, (Seq<char>, Seq<char>))>>,
    base_color: Option<(Seq<char>, Seq<char>)>,
) -> Seq<TreeModel>
    decreases cs, cs.len() - i,
{
    if i < 0 || i >= cs.len() {
        Seq::empty()
    } else {
        seq![spec_colored(cs[i], colors, base_color)] + map_colored(cs, i + 1, colors, base_color)
    }
}

/// `map_colored` maps `spec_colored` over the suffix of `cs` elementwise.
pub proof fn lemma_map_colored(
    cs: Seq<TreeModel>,
    i: int,
    colors: Option<Seq<(OsuBeatmapStatus, (Seq<char>, Seq<char>))>>,
    base_color: Option<(Seq<char>, Seq<char>)>,
)
    requires
        0 <= i <= cs.len(),
    ensures
        map_colored(cs, i, colors, base_color).len() == cs.len() - i,
        forall|k: int|
            0 <= k < cs.len() - i ==> map_colored(cs, i, colors, base_color)[k] == spec_colored(
                cs[i + k],
                colors,
                base_color,
            ),
    decreases cs.len() - i,
{
    if i < cs.len() {
        lemma_map_colored(cs, i + 1, colors, base_color);
    }
}

/// The style pair of the first color entry for status `s`, or a pair of
/// empty strings if there is none.
pub open spec fn find_color(
    cs: Seq<(OsuBeatmapStatus, (Seq<char>, Seq<char>))>,
    s: OsuBeatmapStatus,
) -> (Seq<char>, Seq<char>)
    decreases cs.len(),
{
    if cs.len() == 0 {
        (Seq::empty(), Seq::empty())
    } else if cs[0].0 == s {
        cs[0].1
    } else {
        find_color(cs.subrange(1, cs.len() as int), s)
    }
}

/// If entry `i` is the first whose status is `s`, `find_color` returns its
/// pair.
pub proof fn lemma_find_color_at(
    cs: Seq<(OsuBeatmapStatus, (Seq<char>, Seq<char>))>,
    s: OsuBeatmapStatus,
    i: int,
)
    requires
        0 <= i < cs.len(),
        cs[i].0 == s,
        forall|k: int| 0 <= k < i ==> cs[k].0 != s,
    ensures
        find_color(cs, s) == cs[i].1,
    decreases cs.len(),
{
    if i > 0 {
        lemma_find_color_at(cs.subrange(1, cs.len() as int), s, i - 1);
    }
}

/// Without an entry for `s`, `find_color` falls back to empty markers.
pub proof fn lemma_find_color_none(
    cs: Seq<(OsuBeatmapStatus, (Seq<char>, Seq<char>))>,
    s: OsuBeatmapStatus,
)
    requires
        forall|k: int| 0 <= k < cs.len() ==> cs[k].0 != s,
    ensures
        find_color(cs, s) == (Seq::<char>::empty(), Seq::<char>::empty()),
    decreases cs.len(),
{
    if cs.len() > 0 {
        lemma_find_color_none(cs.subrange(1, cs.len() as int), s);
    }
}

/// The style pair a node uses for status `s`.
pub open spec fn color_of(t: TreeModel, s: OsuBeatmapStatus) -> (Seq<char>, Seq<char>) {
    match t.colors {
        Option::None => (Seq::empty(), Seq::empty()),
        Option::Some(cs) => find_color(cs, s),
    }
}

/// The style pair a node uses for structural text.
pub open spec fn base_pair(t: TreeModel) -> (Seq<char>, Seq<char>) {
    match t.base_color {
        Option::None => (Seq::empty(), Seq::empty()),
        Option::Some(p) => p,
    }
}

/// `n` space characters.
pub open spec fn spaces(n: nat) -> Seq<char> {
    Seq::new(n, |i: int| ' ')
}

/// Display text of a grade.
pub open spec fn grade_text(g: OsuBeatmapGrade) -> Seq<char> {
    match g {
        OsuBeatmapGrade::SSSilver => "SSSilver"@,
        OsuBeatmapGrade::SS => "SS"@,
        OsuBeatmapGrade::SSilver => "SSilver"@,
        OsuBeatmapGrade::S => "S"@,
        OsuBeatmapGrade::A => "A"@,
        OsuBeatmapGrade::B => "B"@,
        OsuBeatmapGrade::C => "C"@,
        OsuBeatmapGrade::D => "D"@,
    }
}

/// Display text of a status.
pub open spec fn status_text(s: OsuBeatmapStatus) -> Seq<char> {
    match s {
        OsuBeatmapStatus::Played(g) => "Played("@ + grade_text(g) + ")"@,
        OsuBeatmapStatus::NotPlayed => "NotPlayed"@,
        OsuBeatmapStatus::NotInstalled => "NotInstalled"@,
    }
}

/// Connector drawn for one ancestor: `|` keeps a vertical bar running under
/// an ancestor that is not the last child of its own parent; the direct
/// parent, when it is a last child, is marked with a backquote; any other
/// last-child ancestor contributes a blank.
pub open spec fn connector(is_last: bool, is_parent: bool) -> Seq<char> {
    if !is_last {
        "|"@
    } else if is_parent {
        "`"@
    } else {
        " "@
    }
}

/// Indentation of one line: for each ancestor from the root down, its
/// segment length plus two spaces, then its connector.  The last entry of
/// `anc` is the direct parent.
pub open spec fn indent(anc: Seq<(bool, nat)>) -> Seq<char>
    decreases anc.len(),
{
    if anc.len() == 0 {
        Seq::empty()
    } else {
        spaces((anc[0].1 + 2) as nat) + connector(anc[0].0, anc.len() == 1)
            + indent(anc.subrange(1, anc.len() as int))
    }
}

/// One rendered line: structural prefix, indentation, the node's own
/// segment, the status marker, the structural suffix, the styled status text
/// when the node has one, and a newline.
pub open spec fn spec_line(t: TreeModel, anc: Seq<(bool, nat)>) -> Seq<char> {
    base_pair(t).0 + indent(anc) + "- "@ + t.segment + " +=> "@ + base_pair(t).1 + (match t.data {
        Option::None => Seq::<char>::empty(),
        Option::Some(d) => color_of(t, d).0 + status_text(d) + color_of(t, d).1,
    }) + "\n"@
}

/// Rendering of a node in pre-order: its own line, then its children, each
/// seeing one more ancestor entry `(is_last, segment length)` for this node.
pub open spec fn spec_render(t: TreeModel, anc: Seq<(bool, nat)>, is_last: bool) -> Seq<char>
    decreases t, 0int,
{
    spec_line(t, anc) + spec_render_children(t.children, anc.push((is_last, t.segment.len())), 0)
}

/// Rendering of the children from index `i` on; the last child is flagged as
/// such for its own descendants' connectors.
pub open spec fn spec_render_children(cs: Seq<TreeModel>, anc: Seq<(bool, nat)>, i: int) -> Seq<
    char,
>
    decreases cs, cs.len() - i,
{
    if i < 0 || i >= cs.len() {
        Seq::empty()
    } else {
        spec_render(cs[i], anc, i == cs.len() - 1) + spec_render_children(cs, anc, i + 1)
    }
}

/// Number of nodes in the tree, the root included.
pub open spec fn node_count(t: TreeModel) -> nat
    decreases t, 0int,
{
    1 + node_count_children(t.children, 0)
}

/// Number of nodes in the subtrees of `cs` from index `i` on.
pub open spec fn node_count_children(cs: Seq<TreeModel>, i: int) -> nat
    decreases cs, cs.len() - i,
{
    if i < 0 || i >= cs.len() {
        0
    } else {
        node_count(cs[i]) + node_count_children(cs, i + 1)
    }
}

/// The status recorded at the node reached by descending along `path` (the
/// root itself for an empty path); absent when the path leaves the tree or
/// the node has no status.
pub open spec fn status_at(t: TreeModel, path: Seq<Seq<char>>) -> Option<OsuBeatmapStatus>
    decreases path.len(),
{
    if path.len() == 0 {
        t.data
    } else {
        let i: int = find_child(t.children, path[0]);
        if i >= 0 {
            status_at(t.children[i], path.subrange(1, path.len() as int))
        } else {
            None
        }
    }
}

/// Whether descending along `path` stays inside the tree.
pub open spec fn contains_path(t: TreeModel, path: Seq<Seq<char>>) -> bool
    decreases path.len(),
{
    path.len() == 0 || {
        let i: int = find_child(t.children, path[0]);
        i >= 0 && contains_path(t.children[i], path.subrange(1, path.len() as int))
    }
}

/// No two children of this node share a segment, recursively.
pub open spec fn wf(t: TreeModel) -> bool
    decreases t, 0int,
{
    (forall|i: int, j: int|
        0 <= i < j < t.children.len() ==> t.children[i].segment != t.children[j].segment)
        && wf_children(t.children, 0)
}

/// Well-formedness of the subtrees of `cs` from index `i` on.
pub open spec fn wf_children(cs: Seq<TreeModel>, i: int) -> bool
    decreases cs, cs.len() - i,
{
    if i < 0 || i >= cs.len() {
        true
    } else {
        wf(cs[i]) && wf_children(cs, i + 1)
    }
}

} // verus!
