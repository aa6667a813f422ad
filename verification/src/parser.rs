//! The recursive-descent parser: a specification-level parser that
//! defines, character by character, what every input means, and the
//! executable parser proved to return exactly that.
//!
//! Both work over a cursor: an index into the immutable character
//! sequence, consumed strictly left to right with no backtracking.

use vstd::prelude::*;

use crate::ast::AST;
use crate::ast::NodeView;
use crate::ast::children_view;
use crate::ast::lemma_children_view;
use crate::error::ParseError;

verus! {

/// What parsing a garbage span from cursor `i` means, `i` standing just
/// after the opening `<`. On success: the literal characters of the span
/// (escape pairs excluded) and the cursor just after the closing `>`.
pub open spec fn garbage_spec(s: Seq<char>, i: int) -> Result<(Seq<char>, int), ParseError>
    decreases s.len() - i,
{
    if i < 0 || i >= s.len() {
        Err(ParseError::UnterminatedGarbage)
    } else if s[i] == '!' {
        if i + 1 >= s.len() {
            Err(ParseError::DanglingEscape)
        } else {
            garbage_spec(s, i + 2)
        }
    } else if s[i] == '>' {
        Ok((Seq::empty(), i + 1))
    } else {
        match garbage_spec(s, i + 1) {
            Ok((content, j)) => Ok((seq![s[i]] + content, j)),
            Err(e) => Err(e),
        }
    }
}

/// What parsing a group body from cursor `i` means, `i` standing just
/// after the opening `{`. On success: the children of the group, in
/// source order, and the cursor just after the closing `}`. Characters
/// other than `<`, `{` and `}` are ignored here.
///
/// Parsing always moves the cursor forward (`lemma_garbage_spec_range`,
/// `lemma_group_spec_range`), so the two inner bound checks never fail;
/// they only make termination evident.
pub open spec fn group_spec(s: Seq<char>, i: int) -> Result<(Seq<NodeView>, int), ParseError>
    decreases s.len() - i,
{
    if i < 0 || i >= s.len() {
        Err(ParseError::UnterminatedGroup)
    } else if s[i] == '}' {
        Ok((Seq::empty(), i + 1))
    } else if s[i] == '<' {
        match garbage_spec(s, i + 1) {
            Ok((content, j)) => if i + 1 < j <= s.len() {
                match group_spec(s, j) {
                    Ok((siblings, k)) => Ok((seq![NodeView::Garbage(content)] + siblings, k)),
                    Err(e) => Err(e),
                }
            } else {
                Err(ParseError::UnterminatedGroup)
            },
            Err(e) => Err(e),
        }
    } else if s[i] == '{' {
        match group_spec(s, i + 1) {
            Ok((children, j)) => if i + 1 < j <= s.len() {
                match group_spec(s, j) {
                    Ok((siblings, k)) => Ok((seq![NodeView::Group(children)] + siblings, k)),
                    Err(e) => Err(e),
                }
            } else {
                Err(ParseError::UnterminatedGroup)
            },
            Err(e) => Err(e),
        }
    } else {
        group_spec(s, i + 1)
    }
}

/// What parsing a whole input means: the first character decides the
/// top-level construct; anything else, or an empty input, is an error.
/// Characters after the top-level construct are ignored.
pub open spec fn parse_spec(s: Seq<char>) -> Result<NodeView, ParseError> {
    if s.len() == 0 {
        Err(ParseError::EmptyInput)
    } else if s[0] == '<' {
        match garbage_spec(s, 1) {
            Ok((content, _)) => Ok(NodeView::Garbage(content)),
            Err(e) => Err(e),
        }
    } else if s[0] == '{' {
        match group_spec(s, 1) {
            Ok((children, _)) => Ok(NodeView::Group(children)),
            Err(e) => Err(e),
        }
    } else {
        Err(ParseError::UnexpectedLeadingCharacter(s[0]))
    }
}

/// Garbage parsing, when it succeeds, consumes at least the closing `>`
/// and never runs past the end of the input.
pub proof fn lemma_garbage_spec_range(s: Seq<char>, i: int)
    ensures
        garbage_spec(s, i) matches Ok(p) ==> i < p.1 <= s.len(),
    decreases s.len() - i,
{
    if 0 <= i < s.len() {
        if s[i] == '!' {
            if i + 1 < s.len() {
                lemma_garbage_spec_range(s, i + 2);
            }
        } else if s[i] != '>' {
            lemma_garbage_spec_range(s, i + 1);
        }
    }
}

/// Group parsing, when it succeeds, consumes at least the closing `}`
/// and never runs past the end of the input.
pub proof fn lemma_group_spec_range(s: Seq<char>, i: int)
    ensures
        group_spec(s, i) matches Ok(p) ==> i < p.1 <= s.len(),
    decreases s.len() - i,
{
    if 0 <= i < s.len() {
        if s[i] == '}' {
        } else if s[i] == '<' {
            lemma_garbage_spec_range(s, i + 1);
            match garbage_spec(s, i + 1) {
                Ok(p) => lemma_group_spec_range(s, p.1),
                Err(_) => (),
            }
        } else if s[i] == '{' {
            lemma_group_spec_range(s, i + 1);
            match group_spec(s, i + 1) {
                Ok(p) => lemma_group_spec_range(s, p.1),
                Err(_) => (),
            }
        } else {
            lemma_group_spec_range(s, i + 1);
        }
    }
}

/// Prefixes already-accumulated garbage characters onto the rest of a
/// garbage parse.
spec fn with_garbage_prefix(
    prefix: Seq<char>,
    r: Result<(Seq<char>, int), ParseError>,
) -> Result<(Seq<char>, int), ParseError> {
    match r {
        Ok(p) => Ok((prefix + p.0, p.1)),
        Err(e) => Err(e),
    }
}

/// Prefixes already-accumulated children onto the rest of a group parse.
spec fn with_children_prefix(
    prefix: Seq<NodeView>,
    r: Result<(Seq<NodeView>, int), ParseError>,
) -> Result<(Seq<NodeView>, int), ParseError> {
    match r {
        Ok(p) => Ok((prefix + p.0, p.1)),
        Err(e) => Err(e),
    }
}

/// Parses one garbage span of `src`, the cursor `start` standing just
/// after the opening `<`. On success returns the garbage node and the
/// cursor just after the closing `>`.
pub fn garbage(src: &Vec<char>, start: usize) -> (r: Result<(AST, usize), ParseError>)
    ensures
        match garbage_spec(src@, start as int) {
            Ok(p) => r matches Ok(q) && q.0@ == NodeView::Garbage(p.0) && q.1 == p.1,
            Err(e) => r matches Err(e2) && e2 == e,
        },
{
    let ghost s = src@;
    let mut content: Vec<char> = Vec::new();
    let mut i: usize = start;
    proof {
        assert(with_garbage_prefix(content@, garbage_spec(s, i as int))
            == garbage_spec(s, start as int)) by {
            match garbage_spec(s, i as int) {
                Ok(p) => {
                    assert(content@ + p.0 =~= p.0);
                },
                Err(_) => {},
            }
        }
    }
    while i < src.len()
        invariant
            s == src@,
            start <= i,
            with_garbage_prefix(content@, garbage_spec(s, i as int))
                == garbage_spec(s, start as int),
        decreases src@.len() - i,
    {
        let c = src[i];
        if c == '!' {
            if i + 1 >= src.len() {
                return Err(ParseError::DanglingEscape);
            }
            i = i + 2;
        } else if c == '>' {
            proof {
                assert(garbage_spec(s, i as int) == Ok::<_, ParseError>((Seq::<char>::empty(), i + 1 as int)));
                assert(content@ + Seq::<char>::empty() =~= content@);
            }
            return Ok((AST::Garbage(content), i + 1));
        } else {
            let ghost content_before = content@;
            content.push(c);
            proof {
                assert(with_garbage_prefix(content@, garbage_spec(s, i + 1 as int))
                    == garbage_spec(s, start as int)) by {
                    match garbage_spec(s, i + 1 as int) {
                        Ok(p) => {
                            assert(content_before + (seq![s[i as int]] + p.0)
                                =~= content_before.push(s[i as int]) + p.0);
                        },
                        Err(_) => {},
                    }
                }
            }
            i = i + 1;
        }
    }
    Err(ParseError::UnterminatedGarbage)
}

/// Parses one group of `src`, the cursor `start` standing just after
/// the opening `{`. On success returns the group node, its children in
/// source order, and the cursor just after the closing `}`.
pub fn group(src: &Vec<char>, start: usize) -> (r: Result<(AST, usize), ParseError>)
    ensures
        match group_spec(src@, start as int) {
            Ok(p) => r matches Ok(q) && q.0@ == NodeView::Group(p.0) && q.1 == p.1,
            Err(e) => r matches Err(e2) && e2 == e,
        },
    decreases src@.len() - start,
{
    let ghost s = src@;
    let mut children: Vec<AST> = Vec::new();
    let mut i: usize = start;
    proof {
        assert(with_children_prefix(children_view(children@), group_spec(s, i as int))
            == group_spec(s, start as int)) by {
            assert(children_view(children@) =~= Seq::<NodeView>::empty());
            match group_spec(s, i as int) {
                Ok(p) => {
                    assert(Seq::<NodeView>::empty() + p.0 =~= p.0);
                },
                Err(_) => {},
            }
        }
    }
    while i < src.len()
        invariant
            s == src@,
            start <= i,
            with_children_prefix(children_view(children@), group_spec(s, i as int))
                == group_spec(s, start as int),
        decreases src@.len() - i,
    {
        let c = src[i];
        if c == '}' {
            proof {
                assert(group_spec(s, i as int)
                    == Ok::<_, ParseError>((Seq::<NodeView>::empty(), i + 1 as int)));
                assert(children_view(children@) + Seq::<NodeView>::empty()
                    =~= children_view(children@));
            }
            return Ok((AST::Group(children), i + 1));
        } else if c == '<' {
            match garbage(src, i + 1) {
                Ok((node, j)) => {
                    proof {
                        lemma_garbage_spec_range(s, i + 1 as int);
                        let content = garbage_spec(s, i + 1 as int)->Ok_0.0;
                        let before = children_view(children@);
                        assert(group_spec(s, i as int) == with_children_prefix(
                            seq![NodeView::Garbage(content)], group_spec(s, j as int)));
                        assert(with_children_prefix(before.push(NodeView::Garbage(content)),
                            group_spec(s, j as int)) == group_spec(s, start as int)) by {
                            match group_spec(s, j as int) {
                                Ok(p) => {
                                    assert(before + (seq![NodeView::Garbage(content)] + p.0)
                                        =~= before.push(NodeView::Garbage(content)) + p.0);
                                },
                                Err(_) => {},
                            }
                        }
                        lemma_children_view(children@);
                        lemma_children_view(children@.push(node));
                        assert(children_view(children@.push(node))
                            =~= before.push(NodeView::Garbage(content)));
                    }
                    children.push(node);
                    i = j;
                },
                Err(e) => {
                    return Err(e);
                },
            }
        } else if c == '{' {
            match group(src, i + 1) {
                Ok((node, j)) => {
                    proof {
                        lemma_group_spec_range(s, i + 1 as int);
                        let inner = group_spec(s, i + 1 as int)->Ok_0.0;
                        let before = children_view(children@);
                        assert(group_spec(s, i as int) == with_children_prefix(
                            seq![NodeView::Group(inner)], group_spec(s, j as int)));
                        assert(with_children_prefix(before.push(NodeView::Group(inner)),
                            group_spec(s, j as int)) == group_spec(s, start as int)) by {
                            match group_spec(s, j as int) {
                                Ok(p) => {
                                    assert(before + (seq![NodeView::Group(inner)] + p.0)
                                        =~= before.push(NodeView::Group(inner)) + p.0);
                                },
                                Err(_) => {},
                            }
                        }
                        lemma_children_view(children@);
                        lemma_children_view(children@.push(node));
                        assert(children_view(children@.push(node))
                            =~= before.push(NodeView::Group(inner)));
                    }
                    children.push(node);
                    i = j;
                },
                Err(e) => {
                    return Err(e);
                },
            }
        } else {
            i = i + 1;
        }
    }
    Err(ParseError::UnterminatedGroup)
}

/// Parses a whole input: `<` opens a top-level garbage span, `{` a
/// top-level group; any other first character, or an empty input, is
/// rejected. Returns exactly the tree that `parse_spec` assigns to the
/// input, or exactly the error it assigns.
pub fn parse(src: &Vec<char>) -> (r: Result<AST, ParseError>)
    ensures
        match parse_spec(src@) {
            Ok(v) => r matches Ok(a) && a@ == v,
            Err(e) => r matches Err(e2) && e2 == e,
        },
{
    if src.len() == 0 {
        return Err(ParseError::EmptyInput);
    }
    let c = src[0];
    if c == '<' {
        match garbage(src, 1) {
            Ok((node, _)) => Ok(node),
            Err(e) => Err(e),
        }
    } else if c == '{' {
        match group(src, 1) {
            Ok((node, _)) => Ok(node),
            Err(e) => Err(e),
        }
    } else {
        Err(ParseError::UnexpectedLeadingCharacter(c))
    }
}

} // verus!
