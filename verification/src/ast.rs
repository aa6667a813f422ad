//! The abstract syntax tree produced by the parser, its mathematical
//! model, and the two metrics computed over it.

use vstd::prelude::*;

verus! {

/// A node of the parsed tree: a group holds its children in source
/// order; a garbage node holds the literal (non-escaped) characters of
/// one garbage span.
#[derive(Debug)]
pub enum AST {
    Group(Vec<AST>),
    Garbage(Vec<char>),
}

/// The mathematical model of a tree node, used by every contract.
pub enum NodeView {
    Group(Seq<NodeView>),
    Garbage(Seq<char>),
}

/// The model of a sequence of sibling nodes, kept in source order.
pub open spec fn children_view(s: Seq<AST>) -> Seq<NodeView>
    decreases s,
{
    if s.len() == 0 {
        Seq::empty()
    } else {
        children_view(s.subrange(0, s.len() - 1)).push(s[s.len() - 1]@)
    }
}

impl View for AST {
    type V = NodeView;

    open spec fn view(&self) -> NodeView
        decreases self,
    {
        match self {
            AST::Group(children) => NodeView::Group(children_view(children@)),
            AST::Garbage(content) => NodeView::Garbage(content@),
        }
    }
}

pub proof fn lemma_children_view(s: Seq<AST>)
    ensures
        children_view(s).len() == s.len(),
        forall|i: int| 0 <= i < s.len() ==> children_view(s)[i] == s[i]@,
    decreases s,
{
    if s.len() == 0 {
        assert(children_view(s) =~= Seq::<NodeView>::empty());
    } else {
        let t = s.subrange(0, s.len() - 1);
        lemma_children_view(t);
        assert(children_view(s) == children_view(t).push(s[s.len() - 1]@));
        assert forall|i: int| 0 <= i < s.len() implies children_view(s)[i] == s[i]@ by {
            if i < s.len() - 1 {
                assert(children_view(s)[i] == children_view(t)[i]);
                assert(t[i] == s[i]);
            }
        }
    }
}

/// The number of groups in a tree: a group counts itself and everything
/// below it; garbage holds no groups.
pub open spec fn count_groups_spec(v: NodeView) -> nat
    decreases v,
{
    match v {
        NodeView::Group(children) => 1 + count_groups_seq(children),
        NodeView::Garbage(_) => 0,
    }
}

pub open spec fn count_groups_seq(s: Seq<NodeView>) -> nat
    decreases s,
{
    if s.len() == 0 {
        0
    } else {
        count_groups_seq(s.subrange(0, s.len() - 1)) + count_groups_spec(s[s.len() - 1])
    }
}

/// The depth-weighted score of a node whose own depth is `d`: a group
/// contributes `d` plus its children's scores at depth `d + 1`; garbage
/// contributes nothing.
pub open spec fn score_at(v: NodeView, d: nat) -> nat
    decreases v,
{
    match v {
        NodeView::Group(children) => d + score_seq(children, d + 1),
        NodeView::Garbage(_) => 0,
    }
}

pub open spec fn score_seq(s: Seq<NodeView>, d: nat) -> nat
    decreases s,
{
    if s.len() == 0 {
        0
    } else {
        score_seq(s.subrange(0, s.len() - 1), d) + score_at(s[s.len() - 1], d)
    }
}

/// The total score of a tree: its depth-weighted group count, with the
/// outermost group at depth 1.
pub open spec fn score_spec(v: NodeView) -> nat {
    score_at(v, 1)
}

/// The total count of literal characters across all garbage spans.
pub open spec fn garbage_len_spec(v: NodeView) -> nat
    decreases v,
{
    match v {
        NodeView::Group(children) => garbage_len_seq(children),
        NodeView::Garbage(content) => content.len(),
    }
}

pub open spec fn garbage_len_seq(s: Seq<NodeView>) -> nat
    decreases s,
{
    if s.len() == 0 {
        0
    } else {
        garbage_len_seq(s.subrange(0, s.len() - 1)) + garbage_len_spec(s[s.len() - 1])
    }
}

proof fn lemma_count_groups_seq_step(s: Seq<NodeView>, k: int)
    requires
        0 <= k < s.len(),
    ensures
        count_groups_seq(s.subrange(0, k + 1))
            == count_groups_seq(s.subrange(0, k)) + count_groups_spec(s[k]),
{
    let t = s.subrange(0, k + 1);
    assert(t.subrange(0, t.len() - 1) =~= s.subrange(0, k));
    assert(count_groups_seq(t)
        == count_groups_seq(t.subrange(0, t.len() - 1)) + count_groups_spec(t[t.len() - 1]));
}

proof fn lemma_count_groups_seq_prefix(s: Seq<NodeView>, k: int)
    requires
        0 <= k <= s.len(),
    ensures
        count_groups_seq(s.subrange(0, k)) <= count_groups_seq(s),
    decreases s.len() - k,
{
    if k == s.len() {
        assert(s.subrange(0, k) =~= s);
    } else {
        lemma_count_groups_seq_step(s, k);
        lemma_count_groups_seq_prefix(s, k + 1);
    }
}

proof fn lemma_score_seq_step(s: Seq<NodeView>, k: int, d: nat)
    requires
        0 <= k < s.len(),
    ensures
        score_seq(s.subrange(0, k + 1), d) == score_seq(s.subrange(0, k), d) + score_at(s[k], d),
{
    let t = s.subrange(0, k + 1);
    assert(t.subrange(0, t.len() - 1) =~= s.subrange(0, k));
    assert(score_seq(t, d)
        == score_seq(t.subrange(0, t.len() - 1), d) + score_at(t[t.len() - 1], d));
}

proof fn lemma_score_seq_prefix(s: Seq<NodeView>, k: int, d: nat)
    requires
        0 <= k <= s.len(),
    ensures
        score_seq(s.subrange(0, k), d) <= score_seq(s, d),
    decreases s.len() - k,
{
    if k == s.len() {
        assert(s.subrange(0, k) =~= s);
    } else {
        lemma_score_seq_step(s, k, d);
        lemma_score_seq_prefix(s, k + 1, d);
    }
}

/// A group at depth `d` scores at least `d`: its own contribution.
proof fn lemma_score_at_group_lower(v: NodeView, d: nat)
    requires
        v is Group,
    ensures
        score_at(v, d) >= d,
{
}

proof fn lemma_garbage_len_seq_step(s: Seq<NodeView>, k: int)
    requires
        0 <= k < s.len(),
    ensures
        garbage_len_seq(s.subrange(0, k + 1))
            == garbage_len_seq(s.subrange(0, k)) + garbage_len_spec(s[k]),
{
    let t = s.subrange(0, k + 1);
    assert(t.subrange(0, t.len() - 1) =~= s.subrange(0, k));
    assert(garbage_len_seq(t)
        == garbage_len_seq(t.subrange(0, t.len() - 1)) + garbage_len_spec(t[t.len() - 1]));
}

proof fn lemma_garbage_len_seq_prefix(s: Seq<NodeView>, k: int)
    requires
        0 <= k <= s.len(),
    ensures
        garbage_len_seq(s.subrange(0, k)) <= garbage_len_seq(s),
    decreases s.len() - k,
{
    if k == s.len() {
        assert(s.subrange(0, k) =~= s);
    } else {
        lemma_garbage_len_seq_step(s, k);
        lemma_garbage_len_seq_prefix(s, k + 1);
    }
}

impl AST {
    /// Counts the groups of the tree: each group counts once, at any
    /// depth; garbage holds none.
    #[verifier::loop_isolation(false)]
    pub fn count_groups(&self) -> (r: usize)
        requires
            count_groups_spec(self@) <= usize::MAX,
        ensures
            r == count_groups_spec(self@),
        decreases self,
    {
        match self {
            AST::Garbage(_) => 0,
            AST::Group(children) => {
                proof {
                    lemma_children_view(children@);
                }
                let ghost cs = children_view(children@);
                let mut total: usize = 1;
                let mut k: usize = 0;
                while k < children.len()
                    invariant
                        cs == children_view(children@),
                        cs.len() == children@.len(),
                        forall|i: int| 0 <= i < children@.len() ==> cs[i] == children@[i]@,
                        k <= children@.len(),
                        1 + count_groups_seq(cs) <= usize::MAX,
                        total == 1 + count_groups_seq(cs.subrange(0, k as int)),
                    decreases children@.len() - k,
                {
                    proof {
                        lemma_count_groups_seq_step(cs, k as int);
                        lemma_count_groups_seq_prefix(cs, k + 1 as int);
                    }
                    let sub = children[k].count_groups();
                    total = total + sub;
                    k = k + 1;
                }
                proof {
                    assert(cs.subrange(0, cs.len() as int) =~= cs);
                }
                total
            },
        }
    }

    /// The depth-weighted score, the outermost construct at depth 1.
    pub fn score(&self) -> (r: usize)
        requires
            score_spec(self@) <= usize::MAX,
        ensures
            r == score_spec(self@),
    {
        self.depths(1)
    }

    /// The score of this node taken at depth `d`.
    #[verifier::loop_isolation(false)]
    fn depths(&self, d: usize) -> (r: usize)
        requires
            score_at(self@, d as nat) <= usize::MAX,
        ensures
            r == score_at(self@, d as nat),
        decreases self,
    {
        match self {
            AST::Garbage(_) => 0,
            AST::Group(children) => {
                proof {
                    lemma_children_view(children@);
                }
                let ghost cs = children_view(children@);
                let mut total: usize = d;
                let mut k: usize = 0;
                while k < children.len()
                    invariant
                        cs == children_view(children@),
                        cs.len() == children@.len(),
                        forall|i: int| 0 <= i < children@.len() ==> cs[i] == children@[i]@,
                        k <= children@.len(),
                        d + score_seq(cs, (d + 1) as nat) <= usize::MAX,
                        total == d + score_seq(cs.subrange(0, k as int), (d + 1) as nat),
                    decreases children@.len() - k,
                {
                    proof {
                        lemma_score_seq_step(cs, k as int, (d + 1) as nat);
                        lemma_score_seq_prefix(cs, k + 1 as int, (d + 1) as nat);
                    }
                    let child = &children[k];
                    match child {
                        AST::Garbage(_) => {
                            assert(score_at(cs[k as int], (d + 1) as nat) == 0);
                        },
                        AST::Group(_) => {
                            proof {
                                lemma_score_at_group_lower(cs[k as int], (d + 1) as nat);
                            }
                            let sub = child.depths(d + 1);
                            total = total + sub;
                        },
                    }
                    k = k + 1;
                }
                proof {
                    assert(cs.subrange(0, cs.len() as int) =~= cs);
                }
                total
            },
        }
    }

    /// The total count of literal characters across all garbage spans
    /// of the tree.
    #[verifier::loop_isolation(false)]
    pub fn garbage_len(&self) -> (r: usize)
        requires
            garbage_len_spec(self@) <= usize::MAX,
        ensures
            r == garbage_len_spec(self@),
        decreases self,
    {
        match self {
            AST::Garbage(content) => content.len(),
            AST::Group(children) => {
                proof {
                    lemma_children_view(children@);
                }
                let ghost cs = children_view(children@);
                let mut total: usize = 0;
                let mut k: usize = 0;
                while k < children.len()
                    invariant
                        cs == children_view(children@),
                        cs.len() == children@.len(),
                        forall|i: int| 0 <= i < children@.len() ==> cs[i] == children@[i]@,
                        k <= children@.len(),
                        garbage_len_seq(cs) <= usize::MAX,
                        total == garbage_len_seq(cs.subrange(0, k as int)),
                    decreases children@.len() - k,
                {
                    proof {
                        lemma_garbage_len_seq_step(cs, k as int);
                        lemma_garbage_len_seq_prefix(cs, k + 1 as int);
                    }
                    let sub = children[k].garbage_len();
                    total = total + sub;
                    k = k + 1;
                }
                proof {
                    assert(cs.subrange(0, cs.len() as int) =~= cs);
                }
                total
            },
        }
    }
}

} // verus!
