//! General properties of the parser and the metrics, stated once and
//! proved for every input.

use vstd::prelude::*;

use crate::ast::NodeView;
use crate::ast::count_groups_seq;
use crate::ast::count_groups_spec;
use crate::ast::garbage_len_seq;
use crate::ast::garbage_len_spec;
use crate::ast::score_at;
use crate::ast::score_seq;
use crate::ast::score_spec;
use crate::error::ParseError;
use crate::parser::garbage_spec;
use crate::parser::group_spec;
use crate::parser::lemma_garbage_spec_range;
use crate::parser::lemma_group_spec_range;
use crate::parser::parse_spec;

verus! {

/// Every input that begins with neither `<` nor `{`, and the empty
/// input, is rejected: with `EmptyInput` when there is no character at
/// all, and with `UnexpectedLeadingCharacter` otherwise. No tree is
/// ever produced for such an input.
pub proof fn lemma_parse_rejects_bad_start(s: Seq<char>)
    requires
        s.len() == 0 || (s[0] != '<' && s[0] != '{'),
    ensures
        s.len() == 0 ==> parse_spec(s) == Err::<NodeView, ParseError>(ParseError::EmptyInput),
        s.len() > 0 ==> parse_spec(s) == Err::<NodeView, ParseError>(
            ParseError::UnexpectedLeadingCharacter(s[0]),
        ),
{
}

/// Garbage length is additive under concatenation of independent
/// sibling nodes: the total over two stretches laid side by side is
/// the sum of the two totals, so the length of a group is the sum of
/// the per-span literal character counts below it.
pub proof fn lemma_garbage_len_concat(a: Seq<NodeView>, b: Seq<NodeView>)
    ensures
        garbage_len_seq(a + b) == garbage_len_seq(a) + garbage_len_seq(b),
    decreases b.len(),
{
    if b.len() == 0 {
        assert(a + b =~= a);
    } else {
        let b0 = b.subrange(0, b.len() - 1);
        let t = a + b;
        assert(t.subrange(0, t.len() - 1) =~= a + b0);
        assert(garbage_len_seq(t)
            == garbage_len_seq(t.subrange(0, t.len() - 1)) + garbage_len_spec(t[t.len() - 1]));
        assert(t[t.len() - 1] == b[b.len() - 1]);
        lemma_garbage_len_concat(a, b0);
        assert(garbage_len_seq(b)
            == garbage_len_seq(b0) + garbage_len_spec(b[b.len() - 1]));
    }
}

/// A single node contributes exactly its own garbage length.
pub proof fn lemma_garbage_len_single(v: NodeView)
    ensures
        garbage_len_seq(seq![v]) == garbage_len_spec(v),
{
    assert(seq![v].subrange(0, 0) =~= Seq::<NodeView>::empty());
    assert(garbage_len_seq(seq![v])
        == garbage_len_seq(seq![v].subrange(0, 0)) + garbage_len_spec(seq![v][0]));
}

/// Group count is additive under concatenation of sibling nodes.
pub proof fn lemma_count_groups_concat(a: Seq<NodeView>, b: Seq<NodeView>)
    ensures
        count_groups_seq(a + b) == count_groups_seq(a) + count_groups_seq(b),
    decreases b.len(),
{
    if b.len() == 0 {
        assert(a + b =~= a);
    } else {
        let b0 = b.subrange(0, b.len() - 1);
        let t = a + b;
        assert(t.subrange(0, t.len() - 1) =~= a + b0);
        assert(count_groups_seq(t)
            == count_groups_seq(t.subrange(0, t.len() - 1)) + count_groups_spec(t[t.len() - 1]));
        assert(t[t.len() - 1] == b[b.len() - 1]);
        lemma_count_groups_concat(a, b0);
        assert(count_groups_seq(b)
            == count_groups_seq(b0) + count_groups_spec(b[b.len() - 1]));
    }
}

/// A single node contributes exactly its own group count.
pub proof fn lemma_count_groups_single(v: NodeView)
    ensures
        count_groups_seq(seq![v]) == count_groups_spec(v),
{
    assert(seq![v].subrange(0, 0) =~= Seq::<NodeView>::empty());
    assert(count_groups_seq(seq![v])
        == count_groups_seq(seq![v].subrange(0, 0)) + count_groups_spec(seq![v][0]));
}

/// A garbage span holds no more literal characters than it consumed.
proof fn lemma_garbage_spec_consumed(s: Seq<char>, i: int)
    ensures
        garbage_spec(s, i) matches Ok(p) ==> p.0.len() <= p.1 - i,
    decreases s.len() - i,
{
    if 0 <= i < s.len() {
        if s[i] == '!' {
            if i + 1 < s.len() {
                lemma_garbage_spec_consumed(s, i + 2);
            }
        } else if s[i] != '>' {
            lemma_garbage_spec_consumed(s, i + 1);
        }
    }
}

/// A group body holds no more groups, and no more garbage characters,
/// than it consumed.
proof fn lemma_group_spec_consumed(s: Seq<char>, i: int)
    ensures
        group_spec(s, i) matches Ok(p) ==> count_groups_seq(p.0) <= p.1 - i
            && garbage_len_seq(p.0) <= p.1 - i,
    decreases s.len() - i,
{
    if 0 <= i < s.len() {
        if s[i] == '}' {
            assert(count_groups_seq(Seq::<NodeView>::empty()) == 0);
            assert(garbage_len_seq(Seq::<NodeView>::empty()) == 0);
        } else if s[i] == '<' {
            lemma_garbage_spec_range(s, i + 1);
            lemma_garbage_spec_consumed(s, i + 1);
            match garbage_spec(s, i + 1) {
                Ok(p1) => {
                    lemma_group_spec_consumed(s, p1.1);
                    match group_spec(s, p1.1) {
                        Ok(p2) => {
                            let g = NodeView::Garbage(p1.0);
                            lemma_count_groups_concat(seq![g], p2.0);
                            lemma_count_groups_single(g);
                            lemma_garbage_len_concat(seq![g], p2.0);
                            lemma_garbage_len_single(g);
                        },
                        Err(_) => (),
                    }
                },
                Err(_) => (),
            }
        } else if s[i] == '{' {
            lemma_group_spec_range(s, i + 1);
            lemma_group_spec_consumed(s, i + 1);
            match group_spec(s, i + 1) {
                Ok(p1) => {
                    lemma_group_spec_consumed(s, p1.1);
                    match group_spec(s, p1.1) {
                        Ok(p2) => {
                            let g = NodeView::Group(p1.0);
                            lemma_count_groups_concat(seq![g], p2.0);
                            lemma_count_groups_single(g);
                            lemma_garbage_len_concat(seq![g], p2.0);
                            lemma_garbage_len_single(g);
                        },
                        Err(_) => (),
                    }
                },
                Err(_) => (),
            }
        } else {
            lemma_group_spec_consumed(s, i + 1);
        }
    }
}

/// Whatever the parser returns stays within the input it read: the
/// group count and the garbage length of a parsed tree never exceed
/// the input length. Those two metrics are therefore total on every
/// parsed tree — their arithmetic preconditions hold whenever the
/// input itself fits in memory.
pub proof fn lemma_parse_metrics_bounded(s: Seq<char>)
    ensures
        parse_spec(s) matches Ok(v) ==> count_groups_spec(v) <= s.len()
            && garbage_len_spec(v) <= s.len(),
{
    if s.len() > 0 {
        if s[0] == '<' {
            lemma_garbage_spec_range(s, 1);
            lemma_garbage_spec_consumed(s, 1);
        } else if s[0] == '{' {
            lemma_group_spec_range(s, 1);
            lemma_group_spec_consumed(s, 1);
        }
    }
}

/// Inside garbage, an escape marker and the character after it are
/// consumed as one pair and contribute nothing: parsing from the marker
/// is parsing from just past the pair, whatever the escaped character
/// is — even `>`, `<`, `{`, `}` or another `!`.
pub proof fn lemma_escape_pair(s: Seq<char>, i: int)
    requires
        0 <= i < s.len(),
        s[i] == '!',
        i + 1 < s.len(),
    ensures
        garbage_spec(s, i) == garbage_spec(s, i + 2),
{
}

/// `n` groups nested directly inside one another, the innermost empty.
pub open spec fn nested_groups(n: nat) -> NodeView
    decreases n,
{
    if n <= 1 {
        NodeView::Group(Seq::empty())
    } else {
        NodeView::Group(seq![nested_groups((n - 1) as nat)])
    }
}

proof fn lemma_nested_groups_score_at(n: nat, d: nat)
    requires
        1 <= n,
    ensures
        2 * score_at(nested_groups(n), d) == 2 * n * d + n * (n - 1),
    decreases n,
{
    if n == 1 {
        assert(score_seq(Seq::empty(), d + 1) == 0);
        assert(2 * score_at(nested_groups(1), d) == 2 * d);
        assert(2 * 1 * d + 1 * (1 - 1) == 2 * d) by (nonlinear_arith);
    } else {
        let inner = nested_groups((n - 1) as nat);
        let single = seq![inner];
        assert(single.subrange(0, 0) =~= Seq::<NodeView>::empty());
        assert(score_seq(single, d + 1)
            == score_seq(single.subrange(0, 0), d + 1) + score_at(single[0], d + 1));
        assert(score_at(nested_groups(n), d) == d + score_at(inner, (d + 1) as nat));
        lemma_nested_groups_score_at((n - 1) as nat, (d + 1) as nat);
        assert(2 * score_at(nested_groups(n), d) == 2 * n * d + n * (n - 1))
            by (nonlinear_arith)
            requires
                n >= 2,
                score_at(nested_groups(n), d) == d + score_at(inner, (d + 1) as nat),
                2 * score_at(inner, (d + 1) as nat)
                    == 2 * ((n - 1) as nat) * ((d + 1) as nat)
                        + ((n - 1) as nat) * (((n - 1) as nat - 1) as int);
    }
}

/// The score is purely structural and depth-linear: `n` groups nested
/// directly inside one another score `1 + 2 + ... + n`, that is
/// `n * (n + 1) / 2`.
pub proof fn lemma_nested_groups_score(n: nat)
    requires
        1 <= n,
    ensures
        score_spec(nested_groups(n)) == n * (n + 1) / 2,
{
    lemma_nested_groups_score_at(n, 1);
    assert(2 * n * 1 + n * (n - 1) == n * (n + 1)) by (nonlinear_arith)
        requires n >= 1;
    assert(score_spec(nested_groups(n)) == n * (n + 1) / 2) by (nonlinear_arith)
        requires 2 * score_spec(nested_groups(n)) == n * (n + 1);
}

/// Filler characters are invisible to group parsing: a character other
/// than `<`, `{` and `}` standing where a child may begin changes
/// neither the children parsed nor where the group ends. Stripping or
/// inserting such filler therefore leaves the structural skeleton — the
/// group count and the child arity at every level — untouched.
pub proof fn lemma_filler_skipped(s: Seq<char>, i: int)
    requires
        0 <= i < s.len(),
        s[i] != '<',
        s[i] != '{',
        s[i] != '}',
    ensures
        group_spec(s, i) == group_spec(s, i + 1),
{
}

/// Garbage parsing reads only the characters from the cursor on: on two
/// inputs that agree from their cursors to their ends, it finds the same
/// content or the same error, and ends at corresponding places.
proof fn lemma_garbage_spec_shift(s1: Seq<char>, i1: int, s2: Seq<char>, i2: int)
    requires
        0 <= i1 <= s1.len(),
        0 <= i2,
        s2.len() == s1.len() - i1 + i2,
        forall|j: int| i1 <= j < s1.len() ==> s2[j - i1 + i2] == s1[j],
    ensures
        match garbage_spec(s1, i1) {
            Ok(p) => garbage_spec(s2, i2) == Ok::<_, ParseError>((p.0, p.1 - i1 + i2)),
            Err(e) => garbage_spec(s2, i2) == Err::<(Seq<char>, int), ParseError>(e),
        },
    decreases s1.len() - i1,
{
    if i1 < s1.len() {
        assert(s2[i2] == s1[i1]);
        if s1[i1] == '!' {
            if i1 + 1 < s1.len() {
                lemma_garbage_spec_shift(s1, i1 + 2, s2, i2 + 2);
            }
        } else if s1[i1] != '>' {
            lemma_garbage_spec_shift(s1, i1 + 1, s2, i2 + 1);
        }
    }
}

/// Group parsing reads only the characters from the cursor on, in the
/// same sense.
proof fn lemma_group_spec_shift(s1: Seq<char>, i1: int, s2: Seq<char>, i2: int)
    requires
        0 <= i1 <= s1.len(),
        0 <= i2,
        s2.len() == s1.len() - i1 + i2,
        forall|j: int| i1 <= j < s1.len() ==> s2[j - i1 + i2] == s1[j],
    ensures
        match group_spec(s1, i1) {
            Ok(p) => group_spec(s2, i2) == Ok::<_, ParseError>((p.0, p.1 - i1 + i2)),
            Err(e) => group_spec(s2, i2) == Err::<(Seq<NodeView>, int), ParseError>(e),
        },
    decreases s1.len() - i1,
{
    if i1 < s1.len() {
        assert(s2[i2] == s1[i1]);
        if s1[i1] == '}' {
        } else if s1[i1] == '<' {
            lemma_garbage_spec_shift(s1, i1 + 1, s2, i2 + 1);
            match garbage_spec(s1, i1 + 1) {
                Ok(p) => {
                    lemma_garbage_spec_range(s1, i1 + 1);
                    lemma_group_spec_shift(s1, p.1, s2, p.1 - i1 + i2);
                },
                Err(_) => (),
            }
        } else if s1[i1] == '{' {
            lemma_group_spec_shift(s1, i1 + 1, s2, i2 + 1);
            match group_spec(s1, i1 + 1) {
                Ok(p) => {
                    lemma_group_spec_range(s1, i1 + 1);
                    lemma_group_spec_shift(s1, p.1, s2, p.1 - i1 + i2);
                },
                Err(_) => (),
            }
        } else {
            lemma_group_spec_shift(s1, i1 + 1, s2, i2 + 1);
        }
    }
}

/// The round-trip invariant: deleting a filler character — one that is
/// neither `<`, `{` nor `}` — from a place where the group parser
/// stands leaves the parse unchanged. The same children are found, in
/// the same order and with the same subtrees, so the group count and
/// the child arity at every level are those of the structural skeleton
/// alone; only the end cursor moves one place left. A failing parse
/// fails with the same error.
pub proof fn lemma_filler_removal(s: Seq<char>, i: int)
    requires
        0 <= i < s.len(),
        s[i] != '<',
        s[i] != '{',
        s[i] != '}',
    ensures
        match group_spec(s, i) {
            Ok(p) => group_spec(s.remove(i), i) == Ok::<_, ParseError>((p.0, p.1 - 1)),
            Err(e) => group_spec(s.remove(i), i) == Err::<(Seq<NodeView>, int), ParseError>(e),
        },
{
    lemma_filler_skipped(s, i);
    let t = s.remove(i);
    assert forall|j: int| i + 1 <= j < s.len() implies t[j - (i + 1) + i] == s[j] by {
        assert(t[j - 1] == s[j]);
    }
    lemma_group_spec_shift(s, i + 1, t, i);
}

/// The converse direction of the round-trip invariant: inserting a
/// filler character where the group parser stands leaves the parse
/// unchanged as well — the same children, the same subtrees, the same
/// error on failure; only the end cursor moves one place right.
/// Together with `lemma_filler_removal`, the tree parsed from a group
/// body is independent of the filler written around its children.
pub proof fn lemma_filler_insertion(s: Seq<char>, i: int, c: char)
    requires
        0 <= i <= s.len(),
        c != '<',
        c != '{',
        c != '}',
    ensures
        match group_spec(s, i) {
            Ok(p) => group_spec(s.insert(i, c), i) == Ok::<_, ParseError>((p.0, p.1 + 1)),
            Err(e) => group_spec(s.insert(i, c), i) == Err::<(Seq<NodeView>, int), ParseError>(e),
        },
{
    let t = s.insert(i, c);
    assert(t[i] == c);
    lemma_filler_skipped(t, i);
    assert forall|j: int| i <= j < s.len() implies t[j - i + (i + 1)] == s[j] by {
        assert(t[j + 1] == s[j]);
    }
    lemma_group_spec_shift(s, i, t, i + 1);
}

} // verus!

