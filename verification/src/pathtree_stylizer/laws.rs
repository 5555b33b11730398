//! Global properties of the path-tree engine, stated and proved over the
//! ghost model: what aggregation computes, that it is idempotent, that the
//! ordering passes leave sibling keys monotone, that rendering emits one
//! line per node, and that building a tree does not depend on the order of
//! the input pairs.

use vstd::prelude::*;

use crate::osu::OsuBeatmapGrade;
use crate::osu::OsuBeatmapStatus;
use crate::pathtree_stylizer::model::base_pair;
use crate::pathtree_stylizer::model::children_best;
use crate::pathtree_stylizer::model::contains_path;
use crate::pathtree_stylizer::model::find_child;
use crate::pathtree_stylizer::model::lemma_find_child;
use crate::pathtree_stylizer::model::new_node;
use crate::pathtree_stylizer::model::spec_build;
use crate::pathtree_stylizer::model::spec_insert;
use crate::pathtree_stylizer::model::status_at;
use crate::pathtree_stylizer::model::wf;
use crate::pathtree_stylizer::model::wf_children;
use crate::pathtree_stylizer::model::color_of;
use crate::pathtree_stylizer::model::find_color;
use crate::pathtree_stylizer::model::grade_text;
use crate::pathtree_stylizer::model::indent;
use crate::pathtree_stylizer::model::node_count;
use crate::pathtree_stylizer::model::node_count_children;
use crate::pathtree_stylizer::model::spec_line;
use crate::pathtree_stylizer::model::spec_render;
use crate::pathtree_stylizer::model::spec_render_children;
use crate::pathtree_stylizer::model::status_text;
use crate::pathtree_stylizer::model::insert_sorted;
use crate::pathtree_stylizer::model::key_le;
use crate::pathtree_stylizer::model::lemma_map_filled;
use crate::pathtree_stylizer::model::lemma_map_reversed;
use crate::pathtree_stylizer::model::lemma_map_sorted;
use crate::pathtree_stylizer::model::map_filled;
use crate::pathtree_stylizer::model::map_reversed;
use crate::pathtree_stylizer::model::map_sorted;
use crate::pathtree_stylizer::model::opt_status_max;
use crate::pathtree_stylizer::model::seq_char_le;
use crate::pathtree_stylizer::model::sort_seq;
use crate::pathtree_stylizer::model::spec_filled;
use crate::pathtree_stylizer::model::spec_reversed;
use crate::pathtree_stylizer::model::spec_sorted;
use crate::pathtree_stylizer::model::TreeModel;

verus! {

/// All statuses directly recorded in `t`'s subtree, the root of the subtree
/// included, in pre-order.
pub open spec fn subtree_statuses(t: TreeModel) -> Seq<OsuBeatmapStatus>
    decreases t, 0int,
{
    (match t.data {
        Option::Some(s) => seq![s],
        Option::None => Seq::empty(),
    }) + descendant_statuses(t.children, 0)
}

/// All statuses directly recorded in the subtrees of `cs` from index `i` on.
pub open spec fn descendant_statuses(cs: Seq<TreeModel>, i: int) -> Seq<OsuBeatmapStatus>
    decreases cs, cs.len() - i,
{
    if i < 0 || i >= cs.len() {
        Seq::empty()
    } else {
        subtree_statuses(cs[i]) + descendant_statuses(cs, i + 1)
    }
}

/// The best status of a list, if the list is non-empty.
pub open spec fn best_of(ss: Seq<OsuBeatmapStatus>) -> Option<OsuBeatmapStatus>
    decreases ss.len(),
{
    if ss.len() == 0 {
        None
    } else {
        opt_status_max(best_of(ss.drop_last()), Some(ss.last()))
    }
}

/// No node that carries a status has a descendant that also carries one.
/// This holds of every tree whose statuses sit at the ends of inserted
/// paths, none of which is a strict prefix of another.
pub open spec fn no_nested_status(t: TreeModel) -> bool
    decreases t, 0int,
{
    (t.data is Some ==> descendant_statuses(t.children, 0).len() == 0)
        && no_nested_children(t.children, 0)
}

/// `no_nested_status` over the subtrees of `cs` from index `i` on.
pub open spec fn no_nested_children(cs: Seq<TreeModel>, i: int) -> bool
    decreases cs, cs.len() - i,
{
    if i < 0 || i >= cs.len() {
        true
    } else {
        no_nested_status(cs[i]) && no_nested_children(cs, i + 1)
    }
}

/// Taking the best status of two concatenated lists takes the best of the
/// two bests.
pub proof fn lemma_best_of_add(a: Seq<OsuBeatmapStatus>, b: Seq<OsuBeatmapStatus>)
    ensures
        best_of(a + b) == opt_status_max(best_of(a), best_of(b)),
    decreases b.len(),
{
    if b.len() == 0 {
        assert(a + b =~= a);
    } else {
        assert((a + b).drop_last() =~= a + b.drop_last());
        assert((a + b).last() == b.last());
        lemma_best_of_add(a, b.drop_last());
    }
}

/// `children_best` of two concatenated child lists is the best of the two.
proof fn lemma_children_best_add(a: Seq<TreeModel>, b: Seq<TreeModel>)
    ensures
        children_best(a + b) == opt_status_max(children_best(a), children_best(b)),
    decreases b.len(),
{
    if b.len() == 0 {
        assert(a + b =~= a);
    } else {
        assert((a + b).drop_last() =~= a + b.drop_last());
        assert((a + b).last() == b.last());
        lemma_children_best_add(a, b.drop_last());
    }
}

/// On a subtree without nested statuses, aggregation resolves the root to
/// the best status recorded anywhere in the subtree.
proof fn lemma_filled_data_best(t: TreeModel)
    requires
        no_nested_status(t),
    ensures
        spec_filled(t).data == best_of(subtree_statuses(t)),
    decreases t, 0int, 0int,
{
    lemma_map_filled(t.children, 0);
    if t.data is Some {
        assert(descendant_statuses(t.children, 0).len() == 0);
        assert(subtree_statuses(t) =~= seq![t.data->0]);
        assert(seq![t.data->0].drop_last() =~= Seq::<OsuBeatmapStatus>::empty());
        assert(best_of(Seq::<OsuBeatmapStatus>::empty()) == None::<OsuBeatmapStatus>);
        assert(seq![t.data->0].last() == t.data->0);
        assert(best_of(seq![t.data->0]) == Some(t.data->0));
    } else {
        lemma_filled_children_best(t.children, 0);
        assert(subtree_statuses(t) =~= descendant_statuses(t.children, 0));
    }
}

/// The best direct status among aggregated subtrees equals the best status
/// recorded anywhere below, subtree by subtree from index `i` on.
proof fn lemma_filled_children_best(cs: Seq<TreeModel>, i: int)
    requires
        0 <= i <= cs.len(),
        no_nested_children(cs, i),
    ensures
        children_best(map_filled(cs, i)) == best_of(descendant_statuses(cs, i)),
    decreases cs, cs.len() - i, 0int,
{
    if i < cs.len() {
        lemma_filled_data_best(cs[i]);
        lemma_filled_children_best(cs, i + 1);
        lemma_children_best_add(seq![spec_filled(cs[i])], map_filled(cs, i + 1));
        lemma_best_of_add(subtree_statuses(cs[i]), descendant_statuses(cs, i + 1));
        assert(seq![spec_filled(cs[i])].drop_last() =~= Seq::<TreeModel>::empty());
        assert(children_best(Seq::<TreeModel>::empty()) == None::<OsuBeatmapStatus>);
        assert(seq![spec_filled(cs[i])].last() == spec_filled(cs[i]));
        assert(children_best(seq![spec_filled(cs[i])]) == spec_filled(cs[i]).data);
    }
}

/// Aggregation correctness: a node that has a direct status keeps it; a
/// node that lacks one receives the best status among its aggregated
/// children — which, when no status sits above another, is the best status
/// recorded anywhere among its descendants.
pub proof fn lemma_aggregation_correct(t: TreeModel)
    requires
        no_nested_children(t.children, 0),
    ensures
        t.data is Some ==> spec_filled(t).data == t.data,
        t.data is None ==> spec_filled(t).data == best_of(descendant_statuses(t.children, 0)),
{
    if t.data is None {
        lemma_filled_children_best(t.children, 0);
    }
}

/// Aggregating twice gives the same tree as aggregating once.
pub proof fn lemma_fill_idempotent(t: TreeModel)
    ensures
        spec_filled(spec_filled(t)) == spec_filled(t),
    decreases t, 0int,
{
    lemma_fill_idempotent_children(t.children, 0);
    let fc = map_filled(t.children, 0);
    lemma_map_filled(t.children, 0);
    lemma_map_filled(fc, 0);
    assert(map_filled(fc, 0) =~= fc);
    assert(spec_filled(spec_filled(t)) =~~= spec_filled(t));
}

/// `lemma_fill_idempotent` for every subtree of `cs` from index `i` on.
proof fn lemma_fill_idempotent_children(cs: Seq<TreeModel>, i: int)
    requires
        0 <= i,
    ensures
        forall|k: int|
            i <= k < cs.len() ==> spec_filled(spec_filled(#[trigger] cs[k])) == spec_filled(cs[k]),
    decreases cs, cs.len() - i,
{
    if i < cs.len() {
        lemma_fill_idempotent(cs[i]);
        lemma_fill_idempotent_children(cs, i + 1);
    }
}

/// Sibling keys are non-decreasing left to right.
pub open spec fn keys_sorted(cs: Seq<TreeModel>) -> bool {
    forall|i: int, j: int| 0 <= i <= j < cs.len() ==> key_le(#[trigger] cs[i], #[trigger] cs[j])
}

/// Sibling keys are non-increasing left to right.
pub open spec fn keys_rev_sorted(cs: Seq<TreeModel>) -> bool {
    forall|i: int, j: int| 0 <= i <= j < cs.len() ==> key_le(#[trigger] cs[j], #[trigger] cs[i])
}

/// Every node's children are sorted ascending by key.
pub open spec fn tree_sorted(t: TreeModel) -> bool
    decreases t, 0int,
{
    keys_sorted(t.children) && trees_sorted(t.children, 0)
}

/// `tree_sorted` over the subtrees of `cs` from index `i` on.
pub open spec fn trees_sorted(cs: Seq<TreeModel>, i: int) -> bool
    decreases cs, cs.len() - i,
{
    if i < 0 || i >= cs.len() {
        true
    } else {
        tree_sorted(cs[i]) && trees_sorted(cs, i + 1)
    }
}

/// Every node's children are sorted descending by key.
pub open spec fn tree_rev_sorted(t: TreeModel) -> bool
    decreases t, 0int,
{
    keys_rev_sorted(t.children) && trees_rev_sorted(t.children, 0)
}

/// `tree_rev_sorted` over the subtrees of `cs` from index `i` on.
pub open spec fn trees_rev_sorted(cs: Seq<TreeModel>, i: int) -> bool
    decreases cs, cs.len() - i,
{
    if i < 0 || i >= cs.len() {
        true
    } else {
        tree_rev_sorted(cs[i]) && trees_rev_sorted(cs, i + 1)
    }
}

/// The lexicographic order on character sequences is reflexive.
proof fn lemma_seq_char_le_refl(a: Seq<char>)
    ensures
        seq_char_le(a, a),
    decreases a.len(),
{
    if a.len() > 0 {
        lemma_seq_char_le_refl(a.subrange(1, a.len() as int));
    }
}

/// The lexicographic order on character sequences is total.
proof fn lemma_seq_char_le_total(a: Seq<char>, b: Seq<char>)
    ensures
        seq_char_le(a, b) || seq_char_le(b, a),
    decreases a.len(),
{
    if a.len() > 0 && b.len() > 0 && a[0] == b[0] {
        lemma_seq_char_le_total(a.subrange(1, a.len() as int), b.subrange(1, b.len() as int));
    }
}

/// The lexicographic order on character sequences is transitive.
proof fn lemma_seq_char_le_trans(a: Seq<char>, b: Seq<char>, c: Seq<char>)
    requires
        seq_char_le(a, b),
        seq_char_le(b, c),
    ensures
        seq_char_le(a, c),
    decreases a.len(),
{
    if a.len() > 0 && b.len() > 0 && c.len() > 0 && a[0] == b[0] && b[0] == c[0] {
        lemma_seq_char_le_trans(
            a.subrange(1, a.len() as int),
            b.subrange(1, b.len() as int),
            c.subrange(1, c.len() as int),
        );
    }
}

/// The sibling key order is reflexive.
pub proof fn lemma_key_le_refl(a: TreeModel)
    ensures
        key_le(a, a),
{
    lemma_seq_char_le_refl(a.segment);
}

/// The sibling key order is total.
pub proof fn lemma_key_le_total(a: TreeModel, b: TreeModel)
    ensures
        key_le(a, b) || key_le(b, a),
{
    lemma_seq_char_le_total(a.segment, b.segment);
}

/// The sibling key order is transitive.
pub proof fn lemma_key_le_trans(a: TreeModel, b: TreeModel, c: TreeModel)
    requires
        key_le(a, b),
        key_le(b, c),
    ensures
        key_le(a, c),
{
    if key_le(a, b) && key_le(b, c) && !(key_le(a, c)) {
        lemma_seq_char_le_trans(a.segment, b.segment, c.segment);
    }
}

/// Inserting into a sorted sequence keeps it sorted, and adds no element
/// but `x`.
proof fn lemma_insert_sorted_sorted(s: Seq<TreeModel>, x: TreeModel)
    requires
        keys_sorted(s),
    ensures
        keys_sorted(insert_sorted(s, x)),
        insert_sorted(s, x).len() == s.len() + 1,
        forall|k: int|
            0 <= k < insert_sorted(s, x).len() ==> insert_sorted(s, x)[k] == x || s.contains(
                #[trigger] insert_sorted(s, x)[k],
            ),
    decreases s.len(),
{
    lemma_key_le_refl(x);
    if s.len() == 0 {
    } else if !key_le(s[0], x) {
        lemma_key_le_total(s[0], x);
        let r = seq![x] + s;
        assert forall|i: int, j: int| 0 <= i <= j < r.len() implies key_le(r[i], r[j]) by {
            if i == 0 && j > 0 {
                lemma_key_le_trans(x, s[0], s[j - 1]);
            }
        }
        assert forall|k: int| 0 <= k < r.len() implies r[k] == x || s.contains(r[k]) by {
            if k > 0 {
                assert(r[k] == s[k - 1]);
            }
        }
    } else {
        let tail = s.subrange(1, s.len() as int);
        assert(keys_sorted(tail)) by {
            assert forall|i: int, j: int| 0 <= i <= j < tail.len() implies key_le(
                tail[i],
                tail[j],
            ) by {
                assert(tail[i] == s[i + 1] && tail[j] == s[j + 1]);
            }
        }
        lemma_insert_sorted_sorted(tail, x);
        let rt = insert_sorted(tail, x);
        let r = seq![s[0]] + rt;
        assert forall|i: int, j: int| 0 <= i <= j < r.len() implies key_le(r[i], r[j]) by {
            if i == 0 {
                lemma_key_le_refl(s[0]);
                if j > 0 {
                    if rt[j - 1] == x {
                        assert(key_le(s[0], x));
                    } else {
                        assert(tail.contains(rt[j - 1]));
                        let m = choose|m: int| 0 <= m < tail.len() && tail[m] == rt[j - 1];
                        assert(tail[m] == s[m + 1]);
                        assert(key_le(s[0], s[m + 1]));
                    }
                }
            }
        }
        assert forall|k: int| 0 <= k < r.len() implies r[k] == x || s.contains(r[k]) by {
            if k > 0 && rt[k - 1] != x {
                assert(tail.contains(rt[k - 1]));
                let m = choose|m: int| 0 <= m < tail.len() && tail[m] == rt[k - 1];
                assert(s[m + 1] == tail[m]);
                assert(s.contains(s[m + 1]));
            } else if k == 0 {
                assert(s.contains(s[0]));
            }
        }
    }
}

/// An insertion sort of any sibling sequence is sorted, and every element
/// of the result comes from the input.
proof fn lemma_sort_seq_sorted(s: Seq<TreeModel>)
    ensures
        keys_sorted(sort_seq(s)),
        sort_seq(s).len() == s.len(),
        forall|k: int| 0 <= k < sort_seq(s).len() ==> s.contains(#[trigger] sort_seq(s)[k]),
    decreases s.len(),
{
    if s.len() > 0 {
        let pre = s.drop_last();
        lemma_sort_seq_sorted(pre);
        lemma_insert_sorted_sorted(sort_seq(pre), s.last());
        assert forall|k: int| 0 <= k < sort_seq(s).len() implies s.contains(
            #[trigger] sort_seq(s)[k],
        ) by {
            let e = sort_seq(s)[k];
            if e == s.last() {
                assert(s[s.len() - 1] == e);
            } else {
                assert(sort_seq(pre).contains(e));
                let m = choose|m: int| 0 <= m < sort_seq(pre).len() && sort_seq(pre)[m] == e;
                assert(pre.contains(e));
                let m2 = choose|m2: int| 0 <= m2 < pre.len() && pre[m2] == e;
                assert(s[m2] == e);
            }
        }
    }
}

/// `tree_sorted` holds of every subtree in `cs2` when each of its elements
/// is sorted.
proof fn lemma_trees_sorted_all(cs2: Seq<TreeModel>, i: int)
    requires
        0 <= i,
        forall|k: int| 0 <= k < cs2.len() ==> tree_sorted(#[trigger] cs2[k]),
    ensures
        trees_sorted(cs2, i),
    decreases cs2, cs2.len() - i,
{
    if i < cs2.len() {
        lemma_trees_sorted_all(cs2, i + 1);
    }
}

/// `tree_rev_sorted` holds of every subtree in `cs2` when each of its
/// elements is reverse-sorted.
proof fn lemma_trees_rev_sorted_all(cs2: Seq<TreeModel>, i: int)
    requires
        0 <= i,
        forall|k: int| 0 <= k < cs2.len() ==> tree_rev_sorted(#[trigger] cs2[k]),
    ensures
        trees_rev_sorted(cs2, i),
    decreases cs2, cs2.len() - i,
{
    if i < cs2.len() {
        lemma_trees_rev_sorted_all(cs2, i + 1);
    }
}

/// Extracts the per-index facts from `trees_sorted`.
proof fn lemma_trees_sorted_index(cs: Seq<TreeModel>, i: int)
    requires
        0 <= i,
        trees_sorted(cs, i),
    ensures
        forall|k: int| i <= k < cs.len() ==> tree_sorted(#[trigger] cs[k]),
    decreases cs, cs.len() - i,
{
    if i < cs.len() {
        lemma_trees_sorted_index(cs, i + 1);
    }
}

/// Ordering stability, ascending half: after the sorting pass, every node's
/// children carry non-decreasing `(status, segment)` keys.
pub proof fn lemma_sort_sorts(t: TreeModel)
    ensures
        tree_sorted(spec_sorted(t)),
    decreases t, 0int, 0int,
{
    let ms = map_sorted(t.children, 0);
    lemma_map_sorted(t.children, 0);
    lemma_sort_sorts_children(t.children, 0);
    lemma_sort_seq_sorted(ms);
    let sc = sort_seq(ms);
    assert forall|k: int| 0 <= k < sc.len() implies tree_sorted(#[trigger] sc[k]) by {
        assert(ms.contains(sc[k]));
        let m = choose|m: int| 0 <= m < ms.len() && ms[m] == sc[k];
        assert(ms[m] == spec_sorted(t.children[m]));
    }
    lemma_trees_sorted_all(sc, 0);
}

/// `lemma_sort_sorts` for every subtree of `cs` from index `i` on.
proof fn lemma_sort_sorts_children(cs: Seq<TreeModel>, i: int)
    requires
        0 <= i,
    ensures
        forall|k: int| i <= k < cs.len() ==> tree_sorted(spec_sorted(#[trigger] cs[k])),
    decreases cs, cs.len() - i, 0int,
{
    if i < cs.len() {
        lemma_sort_sorts(cs[i]);
        lemma_sort_sorts_children(cs, i + 1);
    }
}

/// Reversal preserves a node's status and segment, so it preserves keys.
proof fn lemma_reversed_key_parts(t: TreeModel)
    ensures
        spec_reversed(t).data == t.data,
        spec_reversed(t).segment == t.segment,
{
}

/// Ordering stability, descending half: reversing a tree whose children
/// are sorted ascending at every level leaves non-increasing keys at every
/// level.
pub proof fn lemma_reverse_inverts_order(t: TreeModel)
    requires
        tree_sorted(t),
    ensures
        tree_rev_sorted(spec_reversed(t)),
    decreases t, 0int, 0int,
{
    let n = t.children.len() as int;
    let mr = map_reversed(t.children, 0);
    lemma_map_reversed(t.children, 0);
    let rc = mr.reverse();
    assert(rc.len() == n);
    assert forall|i: int, j: int| 0 <= i <= j < n implies key_le(
        #[trigger] rc[j],
        #[trigger] rc[i],
    ) by {
        assert(rc[i] == mr[n - 1 - i] && rc[j] == mr[n - 1 - j]);
        lemma_reversed_key_parts(t.children[n - 1 - i]);
        lemma_reversed_key_parts(t.children[n - 1 - j]);
        assert(key_le(t.children[n - 1 - j], t.children[n - 1 - i]));
    }
    lemma_trees_sorted_index(t.children, 0);
    lemma_reverse_inverts_children(t.children, 0);
    assert forall|k: int| 0 <= k < rc.len() implies tree_rev_sorted(#[trigger] rc[k]) by {
        assert(rc[k] == mr[n - 1 - k]);
        assert(mr[n - 1 - k] == spec_reversed(t.children[n - 1 - k]));
    }
    lemma_trees_rev_sorted_all(rc, 0);
}

/// `lemma_reverse_inverts_order` for every sorted subtree of `cs` from
/// index `i` on.
proof fn lemma_reverse_inverts_children(cs: Seq<TreeModel>, i: int)
    requires
        0 <= i,
    ensures
        forall|k: int|
            i <= k < cs.len() && tree_sorted(#[trigger] cs[k]) ==> tree_rev_sorted(
                spec_reversed(cs[k]),
            ),
    decreases cs, cs.len() - i, 0int,
{
    if i < cs.len() {
        if tree_sorted(cs[i]) {
            lemma_reverse_inverts_order(cs[i]);
        }
        lemma_reverse_inverts_children(cs, i + 1);
    }
}

/// Ordering stability, combined: sorting leaves every node's children
/// ascending by key, and a subsequent reversal leaves them descending.
pub proof fn lemma_sort_then_reverse(t: TreeModel)
    ensures
        tree_sorted(spec_sorted(t)),
        tree_rev_sorted(spec_reversed(spec_sorted(t))),
{
    lemma_sort_sorts(t);
    lemma_reverse_inverts_order(spec_sorted(t));
}

/// No character of `s` is a newline.
pub open spec fn nl_free(s: Seq<char>) -> bool {
    forall|i: int| 0 <= i < s.len() ==> s[i] != '\n'
}

/// Number of newline characters in `s`.
pub open spec fn newline_count(s: Seq<char>) -> nat
    decreases s.len(),
{
    if s.len() == 0 {
        0
    } else {
        newline_count(s.drop_last()) + (if s.last() == '\n' {
            1nat
        } else {
            0nat
        })
    }
}

/// Newlines in a concatenation are counted part by part.
proof fn lemma_newline_count_add(a: Seq<char>, b: Seq<char>)
    ensures
        newline_count(a + b) == newline_count(a) + newline_count(b),
    decreases b.len(),
{
    if b.len() == 0 {
        assert(a + b =~= a);
    } else {
        assert((a + b).drop_last() =~= a + b.drop_last());
        assert((a + b).last() == b.last());
        lemma_newline_count_add(a, b.drop_last());
    }
}

/// A newline-free sequence has no newline to count.
proof fn lemma_newline_count_zero(s: Seq<char>)
    requires
        nl_free(s),
    ensures
        newline_count(s) == 0,
    decreases s.len(),
{
    if s.len() > 0 {
        lemma_newline_count_zero(s.drop_last());
    }
}

/// Neither marker of `p` contains a newline.
pub open spec fn pair_nl_free(p: (Seq<char>, Seq<char>)) -> bool {
    nl_free(p.0) && nl_free(p.1)
}

/// No style marker of the color table contains a newline.
pub open spec fn colors_nl_free(
    c: Option<Seq<(OsuBeatmapStatus, (Seq<char>, Seq<char>))>>,
) -> bool {
    match c {
        Option::None => true,
        Option::Some(cs) => forall|k: int|
            0 <= k < cs.len() ==> pair_nl_free((#[trigger] cs[k]).1),
    }
}

/// No segment and no style marker anywhere in the tree contains a newline
/// character.
pub open spec fn render_clean(t: TreeModel) -> bool
    decreases t, 0int,
{
    nl_free(t.segment) && pair_nl_free(base_pair(t)) && colors_nl_free(t.colors)
        && render_clean_children(t.children, 0)
}

/// `render_clean` over the subtrees of `cs` from index `i` on.
pub open spec fn render_clean_children(cs: Seq<TreeModel>, i: int) -> bool
    decreases cs, cs.len() - i,
{
    if i < 0 || i >= cs.len() {
        true
    } else {
        render_clean(cs[i]) && render_clean_children(cs, i + 1)
    }
}

/// The display text of a status contains no newline.
proof fn lemma_status_text_nl_free(d: OsuBeatmapStatus)
    ensures
        nl_free(status_text(d)),
{
    reveal_strlit("Played(");
    reveal_strlit(")");
    reveal_strlit("NotPlayed");
    reveal_strlit("NotInstalled");
    reveal_strlit("SSSilver");
    reveal_strlit("SS");
    reveal_strlit("SSilver");
    reveal_strlit("S");
    reveal_strlit("A");
    reveal_strlit("B");
    reveal_strlit("C");
    reveal_strlit("D");
    match d {
        OsuBeatmapStatus::Played(g) => {
            assert(nl_free(grade_text(g))) by {
                match g {
                    OsuBeatmapGrade::SSSilver => assert(nl_free("SSSilver"@)),
                    OsuBeatmapGrade::SS => assert(nl_free("SS"@)),
                    OsuBeatmapGrade::SSilver => assert(nl_free("SSilver"@)),
                    OsuBeatmapGrade::S => assert(nl_free("S"@)),
                    OsuBeatmapGrade::A => assert(nl_free("A"@)),
                    OsuBeatmapGrade::B => assert(nl_free("B"@)),
                    OsuBeatmapGrade::C => assert(nl_free("C"@)),
                    OsuBeatmapGrade::D => assert(nl_free("D"@)),
                }
            }
        },
        OsuBeatmapStatus::NotPlayed => {},
        OsuBeatmapStatus::NotInstalled => {},
    }
}

/// The indentation of a line contains no newline.
proof fn lemma_indent_nl_free(anc: Seq<(bool, nat)>)
    ensures
        nl_free(indent(anc)),
    decreases anc.len(),
{
    reveal_strlit("|");
    reveal_strlit("`");
    reveal_strlit(" ");
    if anc.len() > 0 {
        lemma_indent_nl_free(anc.subrange(1, anc.len() as int));
    }
}

/// The pair found in a newline-free color table is newline-free.
proof fn lemma_find_color_nl_free(
    cs: Seq<(OsuBeatmapStatus, (Seq<char>, Seq<char>))>,
    d: OsuBeatmapStatus,
)
    requires
        forall|k: int| 0 <= k < cs.len() ==> pair_nl_free((#[trigger] cs[k]).1),
    ensures
        pair_nl_free(find_color(cs, d)),
    decreases cs.len(),
{
    if cs.len() > 0 && cs[0].0 != d {
        lemma_find_color_nl_free(cs.subrange(1, cs.len() as int), d);
    }
}

/// A clean node's line holds exactly one newline, the one at its end.
proof fn lemma_line_count(t: TreeModel, anc: Seq<(bool, nat)>)
    requires
        nl_free(t.segment),
        pair_nl_free(base_pair(t)),
        colors_nl_free(t.colors),
    ensures
        newline_count(spec_line(t, anc)) == 1,
{
    reveal_strlit("- ");
    reveal_strlit(" +=> ");
    reveal_strlit("\n");
    lemma_indent_nl_free(anc);
    let status_part = match t.data {
        Option::None => Seq::<char>::empty(),
        Option::Some(d) => color_of(t, d).0 + status_text(d) + color_of(t, d).1,
    };
    assert(nl_free(status_part)) by {
        match t.data {
            Option::None => {},
            Option::Some(d) => {
                lemma_status_text_nl_free(d);
                match t.colors {
                    Option::None => {},
                    Option::Some(cs) => {
                        lemma_find_color_nl_free(cs, d);
                    },
                }
            },
        }
    }
    let head = base_pair(t).0 + indent(anc) + "- "@ + t.segment + " +=> "@ + base_pair(t).1
        + status_part;
    assert(nl_free(head));
    lemma_newline_count_zero(head);
    lemma_newline_count_add(head, "\n"@);
    assert(newline_count("\n"@) == 1) by {
        reveal_strlit("\n");
        assert("\n"@.len() == 1);
        assert("\n"@.last() == '\n');
        assert("\n"@.drop_last() =~= Seq::<char>::empty());
        assert(newline_count(Seq::<char>::empty()) == 0);
    }
    assert(spec_line(t, anc) == head + "\n"@);
}

/// Rendering line count: a clean tree renders to exactly one line per
/// node, the root included.
pub proof fn lemma_render_line_count(t: TreeModel, anc: Seq<(bool, nat)>, is_last: bool)
    requires
        render_clean(t),
    ensures
        newline_count(spec_render(t, anc, is_last)) == node_count(t),
    decreases t, 0int, 0int,
{
    lemma_line_count(t, anc);
    let anc2 = anc.push((is_last, t.segment.len()));
    lemma_render_children_line_count(t.children, anc2, 0);
    lemma_newline_count_add(spec_line(t, anc), spec_render_children(t.children, anc2, 0));
}

/// `q` is a (possibly empty, possibly full) leading part of `p`.
pub open spec fn path_prefix(q: Seq<Seq<char>>, p: Seq<Seq<char>>) -> bool {
    q.len() <= p.len() && q == p.subrange(0, q.len() as int)
}

/// `find_child` depends only on the children's segments.
proof fn lemma_find_child_congruence(cs1: Seq<TreeModel>, cs2: Seq<TreeModel>, seg: Seq<char>)
    requires
        cs1.len() == cs2.len(),
        forall|k: int| 0 <= k < cs1.len() ==> cs1[k].segment == cs2[k].segment,
    ensures
        find_child(cs1, seg) == find_child(cs2, seg),
    decreases cs1.len(),
{
    if cs1.len() > 0 {
        lemma_find_child_congruence(
            cs1.subrange(1, cs1.len() as int),
            cs2.subrange(1, cs2.len() as int),
            seg,
        );
    }
}

/// `find_child` on a child list with one more node at its end: an earlier
/// match wins; otherwise the new node matches or nothing does.
proof fn lemma_find_child_push(cs: Seq<TreeModel>, c: TreeModel, seg: Seq<char>)
    ensures
        find_child(cs.push(c), seg) == (if find_child(cs, seg) >= 0 {
            find_child(cs, seg)
        } else if c.segment == seg {
            cs.len() as int
        } else {
            -1
        }),
    decreases cs.len(),
{
    if cs.len() == 0 {
        assert(cs.push(c)[0] == c);
        assert(cs.push(c).subrange(1, 1) =~= Seq::<TreeModel>::empty());
        assert(find_child(Seq::<TreeModel>::empty(), seg) == -1);
    } else {
        lemma_find_child_push(cs.subrange(1, cs.len() as int), c, seg);
        assert(cs.push(c)[0] == cs[0]);
        assert(cs.push(c).subrange(1, cs.len() as int + 1) =~= cs.subrange(
            1,
            cs.len() as int,
        ).push(c));
    }
}

/// `spec_insert` never changes the segment of the node it starts from.
proof fn lemma_insert_segment(t: TreeModel, path: Seq<Seq<char>>, s: OsuBeatmapStatus)
    ensures
        spec_insert(t, path, s).segment == t.segment,
{
}

/// The effect of one insertion on lookups: the inserted path now carries
/// `s`, every other lookup is unchanged, and exactly the prefixes of the
/// inserted path join the tree.
pub proof fn lemma_insert_lookup(
    t: TreeModel,
    path: Seq<Seq<char>>,
    s: OsuBeatmapStatus,
    q: Seq<Seq<char>>,
)
    ensures
        status_at(spec_insert(t, path, s), q) == (if q == path {
            Some(s)
        } else {
            status_at(t, q)
        }),
        contains_path(spec_insert(t, path, s), q) == (contains_path(t, q) || path_prefix(q, path)),
    decreases path.len(),
{
    let t1 = spec_insert(t, path, s);
    if path.len() == 0 {
        if q.len() == 0 {
            assert(q =~= path);
        } else {
            assert(q != path);
            assert(!path_prefix(q, path));
        }
    } else {
        let path1 = path.subrange(1, path.len() as int);
        let i = find_child(t.children, path[0]);
        lemma_find_child(t.children, path[0]);
        if q.len() == 0 {
            assert(q != path);
            assert(!path_prefix(q, path) || q.len() == 0 && path_prefix(q, path));
            assert(path_prefix(q, path) ==> q =~= path.subrange(0, 0));
            assert(status_at(t1, q) == t1.data);
            assert(t1.data == t.data);
            assert(contains_path(t1, q) && contains_path(t, q));
        } else {
            let q1 = q.subrange(1, q.len() as int);
            // q == path exactly when the heads and the tails agree.
            assert((q == path) == (q[0] == path[0] && q1 == path1)) by {
                if q[0] == path[0] && q1 == path1 {
                    assert(q.len() == path.len());
                    assert forall|m: int| 0 <= m < q.len() implies q[m] == path[m] by {
                        if m >= 1 {
                            assert(q1[m - 1] == q[m]);
                            assert(path1[m - 1] == path[m]);
                        }
                    }
                    assert(q =~= path);
                }
                if q == path {
                    assert(q1 =~= path1);
                }
            }
            // likewise for prefixes of a non-empty q.
            assert(path_prefix(q, path) == (q[0] == path[0] && path_prefix(q1, path1))) by {
                if q[0] == path[0] && path_prefix(q1, path1) {
                    assert(q.len() <= path.len());
                    assert forall|m: int| 0 <= m < q.len() implies q[m] == path.subrange(
                        0,
                        q.len() as int,
                    )[m] by {
                        assert(path.subrange(0, q.len() as int)[m] == path[m]);
                        if m >= 1 {
                            assert(q1[m - 1] == q[m]);
                            assert(q1[m - 1] == path1.subrange(0, q1.len() as int)[m - 1]);
                            assert(path1[m - 1] == path[m]);
                        }
                    }
                    assert(q =~= path.subrange(0, q.len() as int));
                }
                if path_prefix(q, path) {
                    assert(q[0] == path.subrange(0, q.len() as int)[0]);
                    assert(q1.len() <= path1.len());
                    assert forall|m: int| 0 <= m < q1.len() implies q1[m] == path1.subrange(
                        0,
                        q1.len() as int,
                    )[m] by {
                        assert(q1[m] == q[m + 1]);
                        assert(q[m + 1] == path.subrange(0, q.len() as int)[m + 1]);
                        assert(path.subrange(0, q.len() as int)[m + 1] == path[m + 1]);
                        assert(path1[m] == path[m + 1]);
                        assert(path1.subrange(0, q1.len() as int)[m] == path1[m]);
                    }
                    assert(q1 =~= path1.subrange(0, q1.len() as int));
                }
            }
            if i >= 0 {
                let ci = t.children[i];
                let ci1 = spec_insert(ci, path1, s);
                lemma_insert_segment(ci, path1, s);
                assert(t1.children == t.children.update(i, ci1));
                assert(t1.children.len() == t.children.len());
                assert(forall|k: int|
                    0 <= k < t.children.len() ==> t1.children[k].segment == t.children[
                        k
                    ].segment);
                lemma_find_child_congruence(t.children, t1.children, q[0]);
                let j = find_child(t.children, q[0]);
                lemma_find_child(t1.children, q[0]);
                lemma_find_child(t.children, q[0]);
                if q[0] == path[0] {
                    assert(j == i);
                    lemma_insert_lookup(ci, path1, s, q1);
                    assert(status_at(t1, q) == status_at(ci1, q1));
                    assert(status_at(t, q) == status_at(ci, q1));
                    assert(contains_path(t1, q) == contains_path(ci1, q1));
                    assert(contains_path(t, q) == contains_path(ci, q1));
                } else {
                    if j >= 0 {
                        assert(j != i);
                        assert(t1.children[j] == t.children[j]);
                        assert(status_at(t1, q) == status_at(t1.children[j], q1));
                        assert(status_at(t, q) == status_at(t.children[j], q1));
                        assert(contains_path(t1, q) == contains_path(t1.children[j], q1));
                        assert(contains_path(t, q) == contains_path(t.children[j], q1));
                    } else {
                        assert(status_at(t1, q) is None);
                        assert(status_at(t, q) is None);
                        assert(!contains_path(t1, q));
                        assert(!contains_path(t, q));
                    }
                }
            } else {
                let nc = new_node(path[0], t.colors, t.base_color);
                let nc1 = spec_insert(nc, path1, s);
                lemma_insert_segment(nc, path1, s);
                assert(nc1.segment == path[0]);
                assert(t1.children == t.children.push(nc1));
                lemma_find_child_push(t.children, nc1, path[0]);
                lemma_find_child_push(t.children, nc1, q[0]);
                if q[0] == path[0] {
                    assert(find_child(t.children, q[0]) == -1);
                    assert(find_child(t1.children, q[0]) == t.children.len() as int);
                    assert(t1.children[t.children.len() as int] == nc1);
                    lemma_insert_lookup(nc, path1, s, q1);
                    assert(status_at(t1, q) == status_at(nc1, q1));
                    assert(status_at(nc, q1) is None) by {
                        if q1.len() > 0 {
                            assert(find_child(nc.children, q1[0]) == -1);
                        }
                    }
                    assert(contains_path(nc, q1) == (q1.len() == 0)) by {
                        if q1.len() > 0 {
                            assert(find_child(nc.children, q1[0]) == -1);
                        }
                    }
                    assert(status_at(t, q) is None);
                    assert(!contains_path(t, q));
                    assert(q1.len() == 0 ==> path_prefix(q1, path1)) by {
                        if q1.len() == 0 {
                            assert(q1 =~= path1.subrange(0, 0));
                        }
                    }
                } else {
                    let j = find_child(t.children, q[0]);
                    lemma_find_child(t.children, q[0]);
                    assert(find_child(t1.children, q[0]) == j);
                    if j >= 0 {
                        assert(t1.children[j] == t.children[j]);
                        assert(status_at(t1, q) == status_at(t.children[j], q1));
                        assert(status_at(t, q) == status_at(t.children[j], q1));
                        assert(contains_path(t1, q) == contains_path(t.children[j], q1));
                        assert(contains_path(t, q) == contains_path(t.children[j], q1));
                    } else {
                        assert(status_at(t1, q) is None);
                        assert(status_at(t, q) is None);
                        assert(!contains_path(t1, q));
                        assert(!contains_path(t, q));
                    }
                }
            }
        }
    }
}

/// Extracts the per-index facts from `wf_children`.
proof fn lemma_wf_children_index(cs: Seq<TreeModel>, i: int)
    requires
        0 <= i,
        wf_children(cs, i),
    ensures
        forall|k: int| i <= k < cs.len() ==> wf(#[trigger] cs[k]),
    decreases cs, cs.len() - i,
{
    if i < cs.len() {
        lemma_wf_children_index(cs, i + 1);
    }
}

/// Rebuilds `wf_children` from per-index facts.
proof fn lemma_wf_children_all(cs: Seq<TreeModel>, i: int)
    requires
        0 <= i,
        forall|k: int| 0 <= k < cs.len() ==> wf(#[trigger] cs[k]),
    ensures
        wf_children(cs, i),
    decreases cs, cs.len() - i,
{
    if i < cs.len() {
        lemma_wf_children_all(cs, i + 1);
    }
}

/// Insertion keeps the tree well-formed: no two children of any node ever
/// share a segment, because a path segment only ever reuses the first
/// matching child or adds a segment no sibling has.
pub proof fn lemma_insert_wf(t: TreeModel, path: Seq<Seq<char>>, s: OsuBeatmapStatus)
    requires
        wf(t),
    ensures
        wf(spec_insert(t, path, s)),
    decreases path.len(),
{
    let t1 = spec_insert(t, path, s);
    if path.len() == 0 {
        assert(t1.children == t.children);
    } else {
        let path1 = path.subrange(1, path.len() as int);
        let i = find_child(t.children, path[0]);
        lemma_find_child(t.children, path[0]);
        lemma_wf_children_index(t.children, 0);
        if i >= 0 {
            let ci1 = spec_insert(t.children[i], path1, s);
            lemma_insert_wf(t.children[i], path1, s);
            lemma_insert_segment(t.children[i], path1, s);
            assert(t1.children == t.children.update(i, ci1));
            assert(forall|k: int|
                0 <= k < t1.children.len() ==> (#[trigger] t1.children[k]).segment == t.children[
                    k
                ].segment);
            assert(forall|k: int| 0 <= k < t1.children.len() ==> wf(#[trigger] t1.children[k]));
            lemma_wf_children_all(t1.children, 0);
        } else {
            let nc = new_node(path[0], t.colors, t.base_color);
            let nc1 = spec_insert(nc, path1, s);
            assert(wf(nc)) by {
                assert(wf_children(nc.children, 0));
            }
            lemma_insert_wf(nc, path1, s);
            lemma_insert_segment(nc, path1, s);
            assert(t1.children == t.children.push(nc1));
            assert(forall|k: int|
                0 <= k < t.children.len() ==> (#[trigger] t1.children[k]).segment
                    != nc1.segment);
            assert(forall|k: int| 0 <= k < t1.children.len() ==> wf(#[trigger] t1.children[k]));
            lemma_wf_children_all(t1.children, 0);
        }
    }
}

/// Every tree built from a pair list is well-formed.
pub proof fn lemma_build_wf(ps: Seq<(Seq<Seq<char>>, OsuBeatmapStatus)>)
    ensures
        wf(spec_build(ps)),
    decreases ps.len(),
{
    if ps.len() == 0 {
        assert(wf_children(spec_build(ps).children, 0));
    } else {
        lemma_build_wf(ps.drop_last());
        lemma_insert_wf(spec_build(ps.drop_last()), ps.last().0, ps.last().1);
    }
}

/// No two pairs of the list name the same path.
pub open spec fn no_dup_paths(ps: Seq<(Seq<Seq<char>>, OsuBeatmapStatus)>) -> bool {
    forall|i: int, j: int| 0 <= i < j < ps.len() ==> (#[trigger] ps[i]).0 != (#[trigger] ps[j]).0
}

/// The status the pair list assigns to `q`: that of the last pair whose
/// path is `q`, if any.
pub open spec fn pairs_status(
    ps: Seq<(Seq<Seq<char>>, OsuBeatmapStatus)>,
    q: Seq<Seq<char>>,
) -> Option<OsuBeatmapStatus>
    decreases ps.len(),
{
    if ps.len() == 0 {
        None
    } else if ps.last().0 == q {
        Some(ps.last().1)
    } else {
        pairs_status(ps.drop_last(), q)
    }
}

/// Whether `q` is a leading part of some inserted path.
pub open spec fn some_prefix(ps: Seq<(Seq<Seq<char>>, OsuBeatmapStatus)>, q: Seq<Seq<char>>)
    -> bool {
    exists|i: int| 0 <= i < ps.len() && path_prefix(q, (#[trigger] ps[i]).0)
}

/// What the built tree looks up: the status of a path is what the last
/// pair for it said, and the nodes of the tree are exactly the root and
/// the prefixes of inserted paths.
pub proof fn lemma_build_lookup(ps: Seq<(Seq<Seq<char>>, OsuBeatmapStatus)>, q: Seq<Seq<char>>)
    ensures
        status_at(spec_build(ps), q) == pairs_status(ps, q),
        contains_path(spec_build(ps), q) == (q.len() == 0 || some_prefix(ps, q)),
    decreases ps.len(),
{
    if ps.len() == 0 {
        if q.len() > 0 {
            assert(find_child(spec_build(ps).children, q[0]) == -1);
        }
    } else {
        let pre = ps.drop_last();
        lemma_build_lookup(pre, q);
        lemma_insert_lookup(spec_build(pre), ps.last().0, ps.last().1, q);
        assert((some_prefix(pre, q) || path_prefix(q, ps.last().0)) == some_prefix(ps, q)) by {
            if some_prefix(pre, q) {
                let i = choose|i: int| 0 <= i < pre.len() && path_prefix(q, (#[trigger] pre[i]).0);
                assert(ps[i] == pre[i]);
                assert(path_prefix(q, ps[i].0));
            }
            if path_prefix(q, ps.last().0) {
                assert(path_prefix(q, ps[ps.len() - 1].0));
            }
            if some_prefix(ps, q) {
                let i = choose|i: int| 0 <= i < ps.len() && path_prefix(q, (#[trigger] ps[i]).0);
                if i < ps.len() - 1 {
                    assert(pre[i] == ps[i]);
                    assert(path_prefix(q, pre[i].0));
                } else {
                    assert(path_prefix(q, ps.last().0));
                }
            }
        }
    }
}

/// Under distinct paths, the status a pair list assigns to `q` is `s`
/// exactly when the pair `(q, s)` is in the list.
proof fn lemma_pairs_status_member(
    ps: Seq<(Seq<Seq<char>>, OsuBeatmapStatus)>,
    q: Seq<Seq<char>>,
    s: OsuBeatmapStatus,
)
    requires
        no_dup_paths(ps),
    ensures
        pairs_status(ps, q) == Some(s) <==> ps.contains((q, s)),
    decreases ps.len(),
{
    if ps.len() == 0 {
    } else {
        let pre = ps.drop_last();
        assert(no_dup_paths(pre)) by {
            assert(forall|i: int, j: int|
                0 <= i < j < pre.len() ==> (#[trigger] pre[i]).0 != (#[trigger] pre[j]).0);
        }
        lemma_pairs_status_member(pre, q, s);
        if ps.last().0 == q {
            if pairs_status(ps, q) == Some(s) {
                assert(ps[ps.len() - 1] == (q, s));
                assert(ps.contains((q, s)));
            }
            if ps.contains((q, s)) {
                let i = choose|i: int| 0 <= i < ps.len() && ps[i] == (q, s);
                assert(i == ps.len() - 1);
            }
        } else {
            assert((ps.last() == (q, s)) == false);
            assert(ps.contains((q, s)) == pre.contains((q, s))) by {
                if ps.contains((q, s)) {
                    let i = choose|i: int| 0 <= i < ps.len() && ps[i] == (q, s);
                    assert(i < ps.len() - 1);
                    assert(pre[i] == ps[i]);
                    assert(pre.contains((q, s)));
                }
                if pre.contains((q, s)) {
                    let i = choose|i: int| 0 <= i < pre.len() && pre[i] == (q, s);
                    assert(ps[i] == pre[i]);
                    assert(ps.contains((q, s)));
                }
            }
        }
    }
}

/// Insertion determinism: two pair lists that hold the same pairs, each
/// pairing every path with one status, build trees with the same nodes and
/// the same status at every node, whatever the insertion orders were.
pub proof fn lemma_insertion_deterministic(
    ps1: Seq<(Seq<Seq<char>>, OsuBeatmapStatus)>,
    ps2: Seq<(Seq<Seq<char>>, OsuBeatmapStatus)>,
    q: Seq<Seq<char>>,
)
    requires
        ps1.to_multiset() == ps2.to_multiset(),
        no_dup_paths(ps1),
        no_dup_paths(ps2),
    ensures
        status_at(spec_build(ps1), q) == status_at(spec_build(ps2), q),
        contains_path(spec_build(ps1), q) == contains_path(spec_build(ps2), q),
{
    lemma_build_lookup(ps1, q);
    lemma_build_lookup(ps2, q);
    ps1.to_multiset_ensures();
    ps2.to_multiset_ensures();
    assert(pairs_status(ps1, q) == pairs_status(ps2, q)) by {
        if pairs_status(ps1, q) is Some {
            let s = pairs_status(ps1, q)->0;
            lemma_pairs_status_member(ps1, q, s);
            lemma_pairs_status_member(ps2, q, s);
            assert(ps1.contains((q, s)));
            assert(ps1.to_multiset().count((q, s)) > 0);
            assert(ps2.contains((q, s)));
        } else if pairs_status(ps2, q) is Some {
            let s = pairs_status(ps2, q)->0;
            lemma_pairs_status_member(ps1, q, s);
            lemma_pairs_status_member(ps2, q, s);
            assert(ps2.contains((q, s)));
            assert(ps2.to_multiset().count((q, s)) > 0);
            assert(ps1.contains((q, s)));
        }
    }
    assert(some_prefix(ps1, q) == some_prefix(ps2, q)) by {
        if some_prefix(ps1, q) {
            let i = choose|i: int| 0 <= i < ps1.len() && path_prefix(q, (#[trigger] ps1[i]).0);
            assert(ps1.contains(ps1[i]));
            assert(ps1.to_multiset().count(ps1[i]) > 0);
            assert(ps2.contains(ps1[i]));
            let j = choose|j: int| 0 <= j < ps2.len() && ps2[j] == ps1[i];
            assert(path_prefix(q, ps2[j].0));
        }
        if some_prefix(ps2, q) {
            let i = choose|i: int| 0 <= i < ps2.len() && path_prefix(q, (#[trigger] ps2[i]).0);
            assert(ps2.contains(ps2[i]));
            assert(ps2.to_multiset().count(ps2[i]) > 0);
            assert(ps1.contains(ps2[i]));
            let j = choose|j: int| 0 <= j < ps1.len() && ps1[j] == ps2[i];
            assert(path_prefix(q, ps1[j].0));
        }
    }
}

/// `lemma_render_line_count` over the subtrees of `cs` from index `i` on.
proof fn lemma_render_children_line_count(cs: Seq<TreeModel>, anc: Seq<(bool, nat)>, i: int)
    requires
        render_clean_children(cs, i),
    ensures
        newline_count(spec_render_children(cs, anc, i)) == node_count_children(cs, i),
    decreases cs, cs.len() - i, 0int,
{
    if 0 <= i < cs.len() {
        lemma_render_line_count(cs[i], anc, i == cs.len() - 1);
        lemma_render_children_line_count(cs, anc, i + 1);
        lemma_newline_count_add(
            spec_render(cs[i], anc, i == cs.len() - 1),
            spec_render_children(cs, anc, i + 1),
        );
    }
}

} // verus!
