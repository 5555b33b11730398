//! A styled path tree: build from `(path, status)` pairs, aggregate missing
//! statuses bottom-up, order siblings, attach style markers, and render as an
//! ASCII tree.
//!
//! The contracts of every method are stated against the ghost mirror in
//! [`model`]; the global properties of the engine are proved in [`laws`].

pub mod laws;
pub mod model;

use vstd::prelude::*;

use crate::osu::OsuBeatmapStatus;
use crate::pathtree_stylizer::model::children_best;
use crate::pathtree_stylizer::model::empty_root;
use crate::pathtree_stylizer::model::insert_sorted;
use crate::pathtree_stylizer::model::key_le;
use crate::pathtree_stylizer::model::lemma_insert_sorted_at;
use crate::pathtree_stylizer::model::lemma_map_colored;
use crate::pathtree_stylizer::model::lemma_map_filled;
use crate::pathtree_stylizer::model::lemma_map_reversed;
use crate::pathtree_stylizer::model::lemma_map_sorted;
use crate::pathtree_stylizer::model::map_colored;
use crate::pathtree_stylizer::model::map_filled;
use crate::pathtree_stylizer::model::map_reversed;
use crate::pathtree_stylizer::model::map_sorted;
use crate::pathtree_stylizer::model::seq_char_le;
use crate::pathtree_stylizer::model::sort_seq;
use crate::pathtree_stylizer::model::base_pair;
use crate::pathtree_stylizer::model::color_of;
use crate::pathtree_stylizer::model::find_color;
use crate::pathtree_stylizer::model::grade_text;
use crate::pathtree_stylizer::model::indent;
use crate::pathtree_stylizer::model::lemma_find_color_at;
use crate::pathtree_stylizer::model::lemma_find_color_none;
use crate::pathtree_stylizer::model::spaces;
use crate::pathtree_stylizer::model::spec_colored;
use crate::pathtree_stylizer::model::spec_line;
use crate::pathtree_stylizer::model::spec_render;
use crate::pathtree_stylizer::model::spec_render_children;
use crate::pathtree_stylizer::model::status_text;
use crate::pathtree_stylizer::model::spec_filled;
use crate::pathtree_stylizer::model::spec_reversed;
use crate::pathtree_stylizer::model::spec_sorted;
use crate::pathtree_stylizer::model::find_child;
use crate::pathtree_stylizer::model::lemma_find_child;
use crate::pathtree_stylizer::model::lemma_find_child_at;
use crate::pathtree_stylizer::model::new_node;
use crate::pathtree_stylizer::model::spec_build;
use crate::pathtree_stylizer::model::spec_insert;
use crate::pathtree_stylizer::model::TreeModel;

verus! {

/// One node of the styled path tree.
pub struct PathTreeStylized {
    segment: String,
    data: Option<OsuBeatmapStatus>,
    colors: Option<Vec<(OsuBeatmapStatus, (String, String))>>,
    base_color: Option<(String, String)>,
    children: Vec<PathTreeStylized>,
}

/// Model of an executable color table.
pub open spec fn color_entries_view(
    cs: Vec<(OsuBeatmapStatus, (String, String))>,
) -> Seq<(OsuBeatmapStatus, (Seq<char>, Seq<char>))> {
    Seq::new(cs@.len(), |i: int| (cs@[i].0, (cs@[i].1.0@, cs@[i].1.1@)))
}

/// Model of an optional executable color table.
pub open spec fn colors_view(
    c: Option<Vec<(OsuBeatmapStatus, (String, String))>>,
) -> Option<Seq<(OsuBeatmapStatus, (Seq<char>, Seq<char>))>> {
    match c {
        Option::None => Option::None,
        Option::Some(cs) => Option::Some(color_entries_view(cs)),
    }
}

/// Model of an optional executable style pair.
pub open spec fn pair_view(p: Option<(String, String)>) -> Option<(Seq<char>, Seq<char>)> {
    match p {
        Option::None => Option::None,
        Option::Some(q) => Option::Some((q.0@, q.1@)),
    }
}

/// Model of an ancestor chain handed down during rendering: for each
/// ancestor, whether it is the last child of its own parent, and the length
/// of its segment in characters.
pub open spec fn anc_view(v: Vec<(bool, usize)>) -> Seq<(bool, nat)> {
    Seq::new(v@.len(), |i: int| (v@[i].0, v@[i].1 as nat))
}

/// Model of a path given as a vector of segment strings.
pub open spec fn path_view(path: Vec<String>) -> Seq<Seq<char>> {
    Seq::new(path@.len(), |i: int| path@[i]@)
}

/// Model of a list of `(path, status)` pairs.
pub open spec fn pairs_view(
    pairs: Vec<(Vec<String>, OsuBeatmapStatus)>,
) -> Seq<(Seq<Seq<char>>, OsuBeatmapStatus)> {
    Seq::new(pairs@.len(), |i: int| (path_view(pairs@[i].0), pairs@[i].1))
}

impl PathTreeStylized {
    /// The ghost mirror of this node and its whole subtree.
    pub closed spec fn model(self) -> TreeModel
        decreases self, 0int, 0int,
    {
        TreeModel {
            segment: self.segment@,
            data: self.data,
            colors: colors_view(self.colors),
            base_color: pair_view(self.base_color),
            children: Self::model_vec(self.children),
        }
    }

    /// The ghost mirrors of a vector of subtrees, in order.
    closed spec fn model_vec(v: Vec<PathTreeStylized>) -> Seq<TreeModel>
        decreases v, 0int, 0int,
    {
        Self::model_seq(v@, 0)
    }

    /// The ghost mirrors of the subtrees of `cs` from index `i` on.
    closed spec fn model_seq(cs: Seq<PathTreeStylized>, i: int) -> Seq<TreeModel>
        decreases cs, cs.len() - i, 0int,
    {
        if i < 0 || i >= cs.len() {
            Seq::empty()
        } else {
            seq![cs[i].model()] + Self::model_seq(cs, i + 1)
        }
    }
}

/// The mirror of a vector of subtrees is the elementwise mirror.
proof fn lemma_model_seq(cs: Seq<PathTreeStylized>, i: int)
    requires
        0 <= i <= cs.len(),
    ensures
        PathTreeStylized::model_seq(cs, i).len() == cs.len() - i,
        forall|k: int|
            0 <= k < cs.len() - i ==> PathTreeStylized::model_seq(cs, i)[k] == cs[i + k].model(),
    decreases cs.len() - i,
{
    if i < cs.len() {
        lemma_model_seq(cs, i + 1);
    }
}

/// Relates a node's mirror to the mirrors of its child vector's elements.
proof fn lemma_model_children(t: PathTreeStylized)
    ensures
        t@.children.len() == t.children@.len(),
        forall|k: int| 0 <= k < t.children@.len() ==> t@.children[k] == t.children@[k]@,
{
    lemma_model_seq(t.children@, 0);
}

impl View for PathTreeStylized {
    type V = TreeModel;

    open spec fn view(&self) -> TreeModel {
        self.model()
    }
}

impl PathTreeStylized {
    /// A fresh childless node without a status.
    fn new_leaf(
        segment: String,
        colors: Option<Vec<(OsuBeatmapStatus, (String, String))>>,
        base_color: Option<(String, String)>,
    ) -> (r: Self)
        ensures
            r@ == new_node(segment@, colors_view(colors), pair_view(base_color)),
    {
        let r = PathTreeStylized { segment, data: None, colors, base_color, children: Vec::new() };
        proof {
            assert(r@ =~~= new_node(r.segment@, colors_view(r.colors), pair_view(r.base_color)));
        }
        r
    }

    /// A tree consisting of the root alone: empty segment, no status, no
    /// style configuration.
    pub fn new_root() -> (r: Self)
        ensures
            r@ == empty_root(),
    {
        let r = Self::new_leaf(String::new(), None, None);
        proof {
            assert(r@ =~~= empty_root());
        }
        r
    }

    /// Deep copy of an optional color table; the copy has the same model.
    fn clone_colors(c: &Option<Vec<(OsuBeatmapStatus, (String, String))>>) -> (r: Option<
        Vec<(OsuBeatmapStatus, (String, String))>,
    >)
        ensures
            colors_view(r) == colors_view(*c),
    {
        match c {
            None => None,
            Some(cs) => {
                let mut out: Vec<(OsuBeatmapStatus, (String, String))> = Vec::new();
                let n: usize = cs.len();
                for i in 0..n
                    invariant
                        n == cs@.len(),
                        out@.len() == i,
                        forall|k: int|
                            0 <= k < i ==> {
                                &&& (#[trigger] out@[k]).0 == cs@[k].0
                                &&& out@[k].1.0@ == cs@[k].1.0@
                                &&& out@[k].1.1@ == cs@[k].1.1@
                            },
                {
                    let e = &cs[i];
                    out.push((e.0, (e.1.0.clone(), e.1.1.clone())));
                }
                proof {
                    assert(color_entries_view(out) =~= color_entries_view(*cs));
                }
                Some(out)
            },
        }
    }

    /// Deep copy of an optional style pair; the copy has the same model.
    fn clone_pair(p: &Option<(String, String)>) -> (r: Option<(String, String)>)
        ensures
            pair_view(r) == pair_view(*p),
    {
        match p {
            None => None,
            Some(q) => Some((q.0.clone(), q.1.clone())),
        }
    }

    /// Index of the first child whose segment equals `segment`, if any.
    fn get_child_idx(&self, segment: &String) -> (r: Option<usize>)
        ensures
            match r {
                Some(i) => find_child(self@.children, segment@) == i as int,
                None => find_child(self@.children, segment@) == -1,
            },
    {
        proof {
            lemma_model_children(*self);
        }
        let n: usize = self.children.len();
        for i in 0..n
            invariant
                n == self.children@.len(),
                self@.children.len() == n,
                forall|k: int| 0 <= k < n ==> self@.children[k] == self.children@[k]@,
                forall|k: int| 0 <= k < i ==> self@.children[k].segment != segment@,
        {
            if self.children[i].segment == *segment {
                proof {
                    lemma_find_child_at(self@.children, segment@, i as int);
                }
                return Some(i);
            }
        }
        proof {
            lemma_find_child(self@.children, segment@);
        }
        None
    }

    /// Insert one `(path, status)` pair below this node: descend along the
    /// segments of `path`, reusing the first child that matches each segment
    /// and creating fresh ones for unseen segments, and set the status of
    /// the node where the path ends, overwriting any earlier one (last write
    /// wins).
    pub fn add_child(&mut self, path: &Vec<String>, data: OsuBeatmapStatus)
        ensures
            final(self)@ == spec_insert(old(self)@, path_view(*path), data),
    {
        self.add_child_from(path, 0, data);
        proof {
            assert(path_view(*path).subrange(0, path@.len() as int) =~= path_view(*path));
        }
    }

    /// Insert `data` below this node along the segments of `path` from index
    /// `from` on.
    fn add_child_from(&mut self, path: &Vec<String>, from: usize, data: OsuBeatmapStatus)
        requires
            from <= path@.len(),
        ensures
            final(self)@ == spec_insert(
                old(self)@,
                path_view(*path).subrange(from as int, path@.len() as int),
                data,
            ),
        decreases path@.len() - from,
    {
        let ghost t0 = self@;
        let ghost sub = path_view(*path).subrange(from as int, path@.len() as int);
        proof {
            lemma_model_children(*self);
        }
        if from == path.len() {
            self.data = Some(data);
            proof {
                assert(self@ =~~= spec_insert(t0, sub, data));
            }
        } else {
            let seg = &path[from];
            proof {
                assert(sub[0] == seg@);
                assert(sub.subrange(1, sub.len() as int) =~= path_view(*path).subrange(
                    from as int + 1,
                    path@.len() as int,
                ));
            }
            match self.get_child_idx(seg) {
                Some(i) => {
                    proof {
                        lemma_find_child(t0.children, seg@);
                    }
                    let mut c = self.children.remove(i);
                    c.add_child_from(path, from + 1, data);
                    self.children.insert(i, c);
                    proof {
                        lemma_model_children(*self);
                        assert(self.children@ =~= old(self).children@.update(i as int, c));
                        assert(self@.children =~= t0.children.update(i as int, c@));
                        assert(self@ =~~= spec_insert(t0, sub, data));
                    }
                },
                None => {
                    let mut c = Self::new_leaf(
                        seg.clone(),
                        Self::clone_colors(&self.colors),
                        Self::clone_pair(&self.base_color),
                    );
                    c.add_child_from(path, from + 1, data);
                    self.children.push(c);
                    proof {
                        lemma_model_children(*self);
                        assert(self@.children =~= t0.children.push(c@));
                        assert(self@ =~~= spec_insert(t0, sub, data));
                    }
                },
            }
        }
    }

    /// Build a tree from a flat list of `(path, status)` pairs by inserting
    /// every pair, in order, into a fresh root.
    pub fn from_pairs(pairs: &Vec<(Vec<String>, OsuBeatmapStatus)>) -> (r: Self)
        ensures
            r@ == spec_build(pairs_view(*pairs)),
    {
        let mut root = Self::new_root();
        let n: usize = pairs.len();
        proof {
            assert(pairs_view(*pairs).subrange(0, 0) =~= Seq::empty());
        }
        for k in 0..n
            invariant
                n == pairs@.len(),
                root@ == spec_build(pairs_view(*pairs).subrange(0, k as int)),
        {
            let p = &pairs[k];
            root.add_child(&p.0, p.1);
            proof {
                let pv = pairs_view(*pairs);
                assert(pv.subrange(0, k as int + 1).drop_last() =~= pv.subrange(0, k as int));
                assert(pv.subrange(0, k as int + 1).last() == pv[k as int]);
            }
        }
        proof {
            assert(pairs_view(*pairs).subrange(0, pairs@.len() as int) =~= pairs_view(*pairs));
        }
        root
    }

    /// Aggregation pass: aggregate every child first, then give a node that
    /// lacks a direct status the best status found among its children.
    pub fn fill_data_greatest(&mut self)
        ensures
            final(self)@ == spec_filled(old(self)@),
    {
        let mut tmp = Self::new_root();
        core::mem::swap(self, &mut tmp);
        *self = Self::filled_node(tmp);
    }

    /// Aggregation of one owned subtree.
    fn filled_node(t: PathTreeStylized) -> (r: PathTreeStylized)
        ensures
            r@ == spec_filled(t@),
        decreases t,
    {
        let ghost t0 = t@;
        let ghost tvec = t.children@;
        let ghost fc_seq = map_filled(t0.children, 0);
        proof {
            lemma_model_children(t);
            lemma_map_filled(t0.children, 0);
        }
        let mut u = t;
        let n: usize = u.children.len();
        let mut kids: Vec<PathTreeStylized> = Vec::new();
        for i in 0..n
            invariant
                n == t0.children.len(),
                tvec.len() == n,
                tvec == t.children@,
                u.children@.len() == n - i,
                forall|k: int| 0 <= k < n - i ==> u.children@[k] == tvec[i + k],
                forall|k: int| 0 <= k < n ==> tvec[k]@ == t0.children[k],
                kids@.len() == i,
                forall|k: int| 0 <= k < i ==> (#[trigger] kids@[k])@ == spec_filled(t0.children[k]),
                u.segment@ == t0.segment,
                u.data == t0.data,
                colors_view(u.colors) == t0.colors,
                pair_view(u.base_color) == t0.base_color,
        {
            let c = u.children.remove(0);
            proof {
                assert(c == tvec[i as int]);
                assert(decreases_to!(t => t.children));
                assert(decreases_to!(t.children => t.children@));
                assert(decreases_to!(t.children@ => t.children@[i as int]));
                assert(decreases_to!(t => c));
            }
            let fc = Self::filled_node(c);
            kids.push(fc);
        }
        u.children = kids;
        let m: usize = u.children.len();
        let mut best: Option<OsuBeatmapStatus> = None;
        proof {
            lemma_model_children(u);
            assert(u@.children =~= fc_seq);
            assert(fc_seq.subrange(0, 0) =~= Seq::empty());
        }
        for i in 0..m
            invariant
                m == fc_seq.len(),
                m == u.children@.len(),
                forall|k: int| 0 <= k < m ==> u.children@[k]@ == fc_seq[k],
                best == children_best(fc_seq.subrange(0, i as int)),
        {
            let cd = u.children[i].data;
            proof {
                assert(cd == fc_seq[i as int].data);
                assert(fc_seq.subrange(0, i as int + 1).drop_last() =~= fc_seq.subrange(
                    0,
                    i as int,
                ));
                assert(fc_seq.subrange(0, i as int + 1).last() == fc_seq[i as int]);
            }
            best = match (best, cd) {
                (None, y) => y,
                (x, None) => x,
                (Some(x), Some(y)) => if y.rank() >= x.rank() {
                    Some(y)
                } else {
                    Some(x)
                },
            };
        }
        proof {
            assert(fc_seq.subrange(0, m as int) =~= fc_seq);
        }
        if u.data.is_none() {
            u.data = best;
        }
        proof {
            lemma_model_children(u);
            assert(u@.children =~= fc_seq);
            assert(u@ =~~= spec_filled(t0));
        }
        u
    }

    /// Reversal pass: reverse the child order of every node, at every level.
    pub fn reverse(&mut self)
        ensures
            final(self)@ == spec_reversed(old(self)@),
    {
        let mut tmp = Self::new_root();
        core::mem::swap(self, &mut tmp);
        *self = Self::reversed_node(tmp);
    }

    /// Reversal of one owned subtree.
    fn reversed_node(t: PathTreeStylized) -> (r: PathTreeStylized)
        ensures
            r@ == spec_reversed(t@),
        decreases t,
    {
        let ghost t0 = t@;
        let ghost tvec = t.children@;
        let ghost mr = map_reversed(t0.children, 0);
        proof {
            lemma_model_children(t);
            lemma_map_reversed(t0.children, 0);
        }
        let mut u = t;
        let n: usize = u.children.len();
        let mut kids: Vec<PathTreeStylized> = Vec::new();
        for i in 0..n
            invariant
                n == t0.children.len(),
                tvec.len() == n,
                tvec == t.children@,
                u.children@.len() == n - i,
                forall|k: int| 0 <= k < n - i ==> u.children@[k] == tvec[i + k],
                forall|k: int| 0 <= k < n ==> tvec[k]@ == t0.children[k],
                mr.len() == n,
                forall|k: int| 0 <= k < n ==> mr[k] == spec_reversed(t0.children[k]),
                kids@.len() == i,
                forall|k: int| 0 <= k < i ==> (#[trigger] kids@[k])@ == mr[k],
                u.segment@ == t0.segment,
                u.data == t0.data,
                colors_view(u.colors) == t0.colors,
                pair_view(u.base_color) == t0.base_color,
        {
            let c = u.children.remove(0);
            proof {
                assert(c == tvec[i as int]);
                assert(decreases_to!(t => t.children));
                assert(decreases_to!(t.children => t.children@));
                assert(decreases_to!(t.children@ => t.children@[i as int]));
                assert(decreases_to!(t => c));
            }
            let rc = Self::reversed_node(c);
            kids.push(rc);
        }
        let ghost kids0 = kids@;
        let mut out: Vec<PathTreeStylized> = Vec::new();
        while kids.len() > 0
            invariant
                kids0.len() == n,
                forall|k: int| 0 <= k < n ==> (#[trigger] kids0[k])@ == mr[k],
                kids@.len() + out@.len() == n,
                kids@ == kids0.subrange(0, kids@.len() as int),
                forall|j: int| 0 <= j < out@.len() ==> out@[j] == kids0[n - 1 - j],
            decreases kids@.len(),
        {
            let c = kids.pop().unwrap();
            proof {
                assert(c == kids0[kids@.len() as int]);
                assert(kids@ =~= kids0.subrange(0, kids@.len() as int));
            }
            out.push(c);
        }
        u.children = out;
        proof {
            lemma_model_children(u);
            assert(u@.children =~= mr.reverse());
            assert(u@ =~~= spec_reversed(t0));
        }
        u
    }

    /// Color pass: give every node of the tree this color table and base
    /// style pair.
    pub fn set_colors(
        &mut self,
        colors: Option<Vec<(OsuBeatmapStatus, (String, String))>>,
        base_color: Option<(String, String)>,
    )
        ensures
            final(self)@ == spec_colored(old(self)@, colors_view(colors), pair_view(base_color)),
    {
        let mut tmp = Self::new_root();
        core::mem::swap(self, &mut tmp);
        *self = Self::colored_node(tmp, &colors, &base_color);
    }

    /// Color assignment over one owned subtree.
    fn colored_node(
        t: PathTreeStylized,
        colors: &Option<Vec<(OsuBeatmapStatus, (String, String))>>,
        base_color: &Option<(String, String)>,
    ) -> (r: PathTreeStylized)
        ensures
            r@ == spec_colored(t@, colors_view(*colors), pair_view(*base_color)),
        decreases t,
    {
        let ghost t0 = t@;
        let ghost tvec = t.children@;
        let ghost cv = colors_view(*colors);
        let ghost bv = pair_view(*base_color);
        let ghost mc = map_colored(t0.children, 0, cv, bv);
        proof {
            lemma_model_children(t);
            lemma_map_colored(t0.children, 0, cv, bv);
        }
        let mut u = t;
        let n: usize = u.children.len();
        let mut kids: Vec<PathTreeStylized> = Vec::new();
        for i in 0..n
            invariant
                n == t0.children.len(),
                tvec.len() == n,
                tvec == t.children@,
                cv == colors_view(*colors),
                bv == pair_view(*base_color),
                u.children@.len() == n - i,
                forall|k: int| 0 <= k < n - i ==> u.children@[k] == tvec[i + k],
                forall|k: int| 0 <= k < n ==> tvec[k]@ == t0.children[k],
                mc.len() == n,
                forall|k: int| 0 <= k < n ==> mc[k] == spec_colored(t0.children[k], cv, bv),
                kids@.len() == i,
                forall|k: int| 0 <= k < i ==> (#[trigger] kids@[k])@ == mc[k],
                u.segment@ == t0.segment,
                u.data == t0.data,
        {
            let c = u.children.remove(0);
            proof {
                assert(c == tvec[i as int]);
                assert(decreases_to!(t => t.children));
                assert(decreases_to!(t.children => t.children@));
                assert(decreases_to!(t.children@ => t.children@[i as int]));
                assert(decreases_to!(t => c));
            }
            let cc = Self::colored_node(c, colors, base_color);
            kids.push(cc);
        }
        u.children = kids;
        u.colors = Self::clone_colors(colors);
        u.base_color = Self::clone_pair(base_color);
        proof {
            lemma_model_children(u);
            assert(u@.children =~= mc);
            assert(u@ =~~= spec_colored(t0, cv, bv));
        }
        u
    }

    /// Whether `a` sorts at or before `b` among siblings: primarily by
    /// status rank, ties broken by the segment's lexicographic order.
    fn key_le_exec(a: &PathTreeStylized, b: &PathTreeStylized) -> (r: bool)
        ensures
            r == key_le(a@, b@),
    {
        let ra: i32 = match &a.data {
            None => -1,
            Some(s) => s.rank() as i32,
        };
        let rb: i32 = match &b.data {
            None => -1,
            Some(s) => s.rank() as i32,
        };
        if ra < rb {
            true
        } else if ra > rb {
            false
        } else {
            Self::str_le(a.segment.as_str(), b.segment.as_str())
        }
    }

    /// Lexicographic comparison of two strings by code point.
    fn str_le(a: &str, b: &str) -> (r: bool)
        ensures
            r == seq_char_le(a@, b@),
    {
        let na: usize = a.unicode_len();
        let nb: usize = b.unicode_len();
        let mut i: usize = 0;
        proof {
            assert(a@.subrange(0, na as int) =~= a@);
            assert(b@.subrange(0, nb as int) =~= b@);
        }
        loop
            invariant
                i <= na,
                i <= nb,
                na == a@.len(),
                nb == b@.len(),
                seq_char_le(a@, b@) == seq_char_le(
                    a@.subrange(i as int, na as int),
                    b@.subrange(i as int, nb as int),
                ),
            decreases na - i,
        {
            if i == na {
                return true;
            }
            if i == nb {
                return false;
            }
            let ca = a.get_char(i);
            let cb = b.get_char(i);
            if ca != cb {
                return (ca as u32) < (cb as u32);
            }
            proof {
                let sa = a@.subrange(i as int, na as int);
                let sb = b@.subrange(i as int, nb as int);
                assert(sa[0] == sb[0]);
                assert(sa.subrange(1, sa.len() as int) =~= a@.subrange(i as int + 1, na as int));
                assert(sb.subrange(1, sb.len() as int) =~= b@.subrange(i as int + 1, nb as int));
            }
            i = i + 1;
        }
    }

    /// Insert `c` into `v` directly before the first element that is not
    /// `key_le` it, so that an already sorted `v` stays sorted and ties keep
    /// their insertion order.
    fn insert_into_sorted(v: &mut Vec<PathTreeStylized>, c: PathTreeStylized)
        ensures
            Self::model_seq(final(v)@, 0) == insert_sorted(Self::model_seq(old(v)@, 0), c@),
    {
        let ghost v0 = old(v)@;
        let n: usize = v.len();
        proof {
            lemma_model_seq(v0, 0);
        }
        let mut j: usize = 0;
        while j < n && Self::key_le_exec(&v[j], &c)
            invariant
                j <= n,
                n == v@.len(),
                v@ == v0,
                forall|k: int| 0 <= k < j ==> key_le(v0[k]@, c@),
            decreases n - j,
        {
            j = j + 1;
        }
        v.insert(j, c);
        proof {
            let m0 = Self::model_seq(v0, 0);
            lemma_insert_sorted_at(m0, c@, j as int);
            lemma_model_seq(v@, 0);
            assert(v@ =~= v0.subrange(0, j as int) + seq![c] + v0.subrange(j as int, n as int));
            assert(Self::model_seq(v@, 0) =~= m0.subrange(0, j as int) + seq![c@] + m0.subrange(
                j as int,
                n as int,
            ));
        }
    }

    /// Ordering pass: sort the children of every node ascending by status
    /// rank, ties broken by segment, at every level of the tree.  Ascending
    /// order puts the most pending siblings first; a subsequent [`Self::reverse`]
    /// therefore shows the best-completed items first and the pending ones
    /// last.
    pub fn sort(&mut self)
        ensures
            final(self)@ == spec_sorted(old(self)@),
    {
        let mut tmp = Self::new_root();
        core::mem::swap(self, &mut tmp);
        *self = Self::sorted_node(tmp);
    }

    /// Ordering of one owned subtree.
    fn sorted_node(t: PathTreeStylized) -> (r: PathTreeStylized)
        ensures
            r@ == spec_sorted(t@),
        decreases t,
    {
        let ghost t0 = t@;
        let ghost tvec = t.children@;
        let ghost ms = map_sorted(t0.children, 0);
        proof {
            lemma_model_children(t);
            lemma_map_sorted(t0.children, 0);
        }
        let mut u = t;
        let n: usize = u.children.len();
        let mut out: Vec<PathTreeStylized> = Vec::new();
        proof {
            lemma_model_seq(out@, 0);
            assert(Self::model_seq(out@, 0) =~= sort_seq(ms.subrange(0, 0)));
        }
        for i in 0..n
            invariant
                n == t0.children.len(),
                tvec.len() == n,
                tvec == t.children@,
                u.children@.len() == n - i,
                forall|k: int| 0 <= k < n - i ==> u.children@[k] == tvec[i + k],
                forall|k: int| 0 <= k < n ==> tvec[k]@ == t0.children[k],
                ms.len() == n,
                forall|k: int| 0 <= k < n ==> ms[k] == spec_sorted(t0.children[k]),
                Self::model_seq(out@, 0) == sort_seq(ms.subrange(0, i as int)),
                u.segment@ == t0.segment,
                u.data == t0.data,
                colors_view(u.colors) == t0.colors,
                pair_view(u.base_color) == t0.base_color,
        {
            let c = u.children.remove(0);
            proof {
                assert(c == tvec[i as int]);
                assert(decreases_to!(t => t.children));
                assert(decreases_to!(t.children => t.children@));
                assert(decreases_to!(t.children@ => t.children@[i as int]));
                assert(decreases_to!(t => c));
            }
            let sc = Self::sorted_node(c);
            Self::insert_into_sorted(&mut out, sc);
            proof {
                assert(ms.subrange(0, i as int + 1).drop_last() =~= ms.subrange(0, i as int));
                assert(ms.subrange(0, i as int + 1).last() == ms[i as int]);
            }
        }
        u.children = out;
        proof {
            assert(ms.subrange(0, n as int) =~= ms);
            assert(u@ =~~= spec_sorted(t0));
        }
        u
    }

    /// The path segment this node represents.
    pub fn segment(&self) -> (r: &String)
        ensures
            r@ == self@.segment,
    {
        &self.segment
    }

    /// The node's status, if it has one.
    pub fn data(&self) -> (r: Option<OsuBeatmapStatus>)
        ensures
            r == self@.data,
    {
        self.data
    }

    /// The node's children, in their current order.
    pub fn children(&self) -> (r: &Vec<PathTreeStylized>)
        ensures
            r@.len() == self@.children.len(),
            forall|i: int| 0 <= i < r@.len() ==> (#[trigger] r@[i])@ == self@.children[i],
    {
        proof {
            lemma_model_children(*self);
        }
        &self.children
    }

    /// Append `n` spaces to `sb`.
    fn push_spaces(sb: &mut String, n: usize)
        ensures
            final(sb)@ == old(sb)@ + spaces(n as nat),
    {
        proof {
            reveal_strlit(" ");
            assert(old(sb)@ + spaces(0) =~= old(sb)@);
        }
        for k in 0..n
            invariant
                sb@ == old(sb)@ + spaces(k as nat),
        {
            sb.append(" ");
            proof {
                reveal_strlit(" ");
                assert((old(sb)@ + spaces(k as nat)) + " "@ =~= old(sb)@ + spaces(
                    (k + 1) as nat,
                ));
            }
        }
    }

    /// The display text of a status, as rendered after the status marker.
    fn status_string(d: OsuBeatmapStatus) -> (r: String)
        ensures
            r@ == status_text(d),
    {
        match d {
            OsuBeatmapStatus::Played(g) => {
                let gs: &str = match g {
                    crate::osu::OsuBeatmapGrade::SSSilver => "SSSilver",
                    crate::osu::OsuBeatmapGrade::SS => "SS",
                    crate::osu::OsuBeatmapGrade::SSilver => "SSilver",
                    crate::osu::OsuBeatmapGrade::S => "S",
                    crate::osu::OsuBeatmapGrade::A => "A",
                    crate::osu::OsuBeatmapGrade::B => "B",
                    crate::osu::OsuBeatmapGrade::C => "C",
                    crate::osu::OsuBeatmapGrade::D => "D",
                };
                proof {
                    assert(gs@ == grade_text(g));
                }
                let mut s = String::from_str("Played(");
                s.append(gs);
                s.append(")");
                s
            },
            OsuBeatmapStatus::NotPlayed => String::from_str("NotPlayed"),
            OsuBeatmapStatus::NotInstalled => String::from_str("NotInstalled"),
        }
    }

    /// The style pair recorded for status `d` in a color table: the pair of
    /// the first matching entry, or empty markers when there is none.
    fn color_for(colors: &Option<Vec<(OsuBeatmapStatus, (String, String))>>, d: OsuBeatmapStatus)
        -> (r: (String, String))
        ensures
            ({
                let p = match colors_view(*colors) {
                    Option::None => (Seq::<char>::empty(), Seq::<char>::empty()),
                    Option::Some(cs) => find_color(cs, d),
                };
                r.0@ == p.0 && r.1@ == p.1
            }),
    {
        match colors {
            None => (String::new(), String::new()),
            Some(cs) => {
                let n: usize = cs.len();
                let ghost cv = color_entries_view(*cs);
                for i in 0..n
                    invariant
                        n == cs@.len(),
                        cv == color_entries_view(*cs),
                        cv.len() == n,
                        colors_view(*colors) == Option::Some(cv),
                        forall|k: int| 0 <= k < i ==> (#[trigger] cv[k]).0 != d,
                {
                    let e = &cs[i];
                    if e.0 == d {
                        proof {
                            lemma_find_color_at(cv, d, i as int);
                        }
                        return (e.1.0.clone(), e.1.1.clone());
                    }
                }
                proof {
                    lemma_find_color_none(cv, d);
                }
                (String::new(), String::new())
            },
        }
    }

    /// A copy of the ancestor chain with one more entry at its end.
    fn push_entry(v: &Vec<(bool, usize)>, e: (bool, usize)) -> (r: Vec<(bool, usize)>)
        ensures
            r@ == v@.push(e),
    {
        let mut out: Vec<(bool, usize)> = Vec::new();
        let n: usize = v.len();
        for i in 0..n
            invariant
                n == v@.len(),
                out@ == v@.subrange(0, i as int),
        {
            out.push(v[i]);
            proof {
                assert(v@.subrange(0, i as int).push(v@[i as int]) =~= v@.subrange(
                    0,
                    i as int + 1,
                ));
            }
        }
        out.push(e);
        proof {
            assert(v@.subrange(0, n as int) =~= v@);
        }
        out
    }

    /// Render this node and its subtree: one line for the node itself, then
    /// its children in order.  `ancestors` carries, for every ancestor from
    /// the root down, its last-child flag and segment length; `is_last` says
    /// whether this node is the last child of its own parent.
    fn printable_string_(&self, ancestors: &Vec<(bool, usize)>, is_last: bool) -> (r: String)
        ensures
            r@ == spec_render(self@, anc_view(*ancestors), is_last),
        decreases *self,
    {
        let ghost t0 = self@;
        let ghost anc = anc_view(*ancestors);
        proof {
            lemma_model_children(*self);
        }
        let mut sb = String::new();
        match &self.base_color {
            Some(p) => sb.append(p.0.as_str()),
            None => {},
        }
        proof {
            assert(sb@ =~= base_pair(t0).0);
            assert(anc.subrange(0, anc.len() as int) =~= anc);
        }
        let an: usize = ancestors.len();
        for k in 0..an
            invariant
                an == ancestors@.len(),
                anc == anc_view(*ancestors),
                anc.len() == an,
                sb@ + indent(anc.subrange(k as int, an as int)) == base_pair(t0).0 + indent(anc),
        {
            let ghost pre = sb@;
            let ghost suffix = anc.subrange(k as int, an as int);
            let a = ancestors[k];
            Self::push_spaces(&mut sb, a.1);
            sb.append("  ");
            if !a.0 {
                sb.append("|");
            } else if k + 1 == an {
                sb.append("`");
            } else {
                sb.append(" ");
            }
            proof {
                reveal_strlit("  ");
                let block = spaces((suffix[0].1 + 2) as nat) + crate::pathtree_stylizer::model::connector(
                    suffix[0].0,
                    suffix.len() == 1,
                );
                assert(suffix[0] == (a.0, a.1 as nat));
                assert(spaces(a.1 as nat) + "  "@ =~= spaces((a.1 + 2) as nat));
                assert(sb@ =~= pre + block);
                assert(suffix.subrange(1, suffix.len() as int) =~= anc.subrange(
                    k as int + 1,
                    an as int,
                ));
                assert((pre + block) + indent(anc.subrange(k as int + 1, an as int)) =~= pre + (
                block + indent(suffix.subrange(1, suffix.len() as int))));
            }
        }
        proof {
            assert(anc.subrange(an as int, an as int) =~= Seq::<(bool, nat)>::empty());
            assert(indent(anc.subrange(an as int, an as int)) =~= Seq::<char>::empty());
            assert(sb@ + Seq::<char>::empty() =~= sb@);
            assert(sb@ == base_pair(t0).0 + indent(anc));
        }
        sb.append("- ");
        sb.append(self.segment.as_str());
        sb.append(" +=> ");
        match &self.base_color {
            Some(p) => sb.append(p.1.as_str()),
            None => {},
        }
        proof {
            assert(sb@ =~= base_pair(t0).0 + indent(anc) + "- "@ + t0.segment + " +=> "@
                + base_pair(t0).1);
        }
        if let Some(d) = self.data {
            let pair = Self::color_for(&self.colors, d);
            sb.append(pair.0.as_str());
            let st = Self::status_string(d);
            sb.append(st.as_str());
            sb.append(pair.1.as_str());
            proof {
                assert(pair.0@ == color_of(t0, d).0 && pair.1@ == color_of(t0, d).1);
            }
        }
        sb.append("\n");
        proof {
            assert(sb@ =~= spec_line(t0, anc));
        }
        let ext = Self::push_entry(ancestors, (is_last, self.segment.unicode_len()));
        let ghost anc2 = anc.push((is_last, t0.segment.len()));
        proof {
            assert(anc_view(ext) =~= anc2);
        }
        let cn: usize = self.children.len();
        proof {
            assert(sb@ + spec_render_children(t0.children, anc2, 0) == spec_line(t0, anc)
                + spec_render_children(t0.children, anc2, 0));
        }
        for i in 0..cn
            invariant
                cn == self.children@.len(),
                t0 == self@,
                t0.children.len() == cn,
                forall|k: int| 0 <= k < cn ==> t0.children[k] == self.children@[k]@,
                anc2 == anc_view(ext),
                ext@.len() == anc2.len(),
                sb@ + spec_render_children(t0.children, anc2, i as int) == spec_line(t0, anc)
                    + spec_render_children(t0.children, anc2, 0),
        {
            let ghost pre = sb@;
            let c = &self.children[i];
            proof {
                assert(decreases_to!(*self => self.children));
                assert(decreases_to!(self.children => self.children@));
                assert(decreases_to!(self.children@ => self.children@[i as int]));
                assert(decreases_to!(*self => *c));
            }
            let cstr = c.printable_string_(&ext, i + 1 == cn);
            sb.append(cstr.as_str());
            proof {
                let rc_i = spec_render(t0.children[i as int], anc2, i as int == cn - 1);
                assert(cstr@ == rc_i);
                assert((pre + rc_i) + spec_render_children(t0.children, anc2, i as int + 1) =~= pre
                    + (rc_i + spec_render_children(t0.children, anc2, i as int + 1)));
                assert(spec_render_children(t0.children, anc2, i as int) == rc_i
                    + spec_render_children(t0.children, anc2, i as int + 1));
            }
        }
        proof {
            assert(spec_render_children(t0.children, anc2, cn as int) =~= Seq::<char>::empty());
            assert(sb@ + Seq::<char>::empty() =~= sb@);
            assert(sb@ == spec_render(t0, anc, is_last));
        }
        sb
    }

    /// Render the whole tree as one multi-line string, one line per node in
    /// pre-order; the root is treated as a last child.
    pub fn printable_string(&self) -> (r: String)
        ensures
            r@ == spec_render(self@, Seq::empty(), true),
    {
        let empty_anc: Vec<(bool, usize)> = Vec::new();
        let r = self.printable_string_(&empty_anc, true);
        proof {
            assert(anc_view(empty_anc) =~= Seq::<(bool, nat)>::empty());
        }
        r
    }
}

} // verus!
