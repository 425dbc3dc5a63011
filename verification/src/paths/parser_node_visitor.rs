use vstd::prelude::*;

use super::path_parser::ParserNode;
use super::str_reader::StrRange;
use super::tokens::{FilterToken, ParseToken};
use super::parser_token_handler::ParserTokenHandler;

verus! {

/// The tokens that a walk of `n` hands to a handler, in order: a path step
/// after the path it extends and before its argument; the content of
/// brackets followed by `ArrayEof`; a filter operator after both of its
/// operands.
pub open spec fn handled_walk(n: ParserNode) -> Seq<ParseToken>
    decreases n,
{
    let l = match n.left {
        Some(x) => handled_walk(*x),
        None => Seq::empty(),
    };
    let r = match n.right {
        Some(x) => handled_walk(*x),
        None => Seq::empty(),
    };
    match n.token {
        ParseToken::Absolute | ParseToken::Relative | ParseToken::All | ParseToken::Key(_)
        | ParseToken::Keys(_) | ParseToken::Range(_, _, _) | ParseToken::Union(_)
        | ParseToken::Number(_) | ParseToken::Bool(_) => seq![n.token],
        ParseToken::In | ParseToken::Leaves => l + seq![n.token] + r,
        ParseToken::Array => l + seq![n.token] + r + seq![ParseToken::ArrayEof],
        ParseToken::Filter(_) => l + r + seq![n.token],
        _ => Seq::empty(),
    }
}

/// The tokens of a child, or none where there is no child.
pub open spec fn side_walk(o: Option<Box<ParserNode>>) -> Seq<ParseToken> {
    match o {
        Some(x) => handled_walk(*x),
        None => Seq::empty(),
    }
}

/// A path step (`.` or `..`) is handed over after the path it extends and
/// before its argument.
pub proof fn law_step_between_path_and_argument(n: ParserNode)
    requires
        n.token is In || n.token is Leaves,
    ensures
        handled_walk(n) == side_walk(n.left) + seq![n.token] + side_walk(n.right),
        handled_walk(n)[side_walk(n.left).len() as int] == n.token,
{
}

/// Brackets are handed over after the path they select from, with their
/// content next and `ArrayEof` last.
pub proof fn law_brackets_after_path_then_content(n: ParserNode)
    requires
        n.token is Array,
    ensures
        handled_walk(n) == side_walk(n.left) + seq![n.token] + side_walk(n.right) + seq![
            ParseToken::ArrayEof,
        ],
{
}

/// A filter operator is handed over after both of its operands.
pub proof fn law_operator_after_operands(n: ParserNode)
    requires
        n.token is Filter,
    ensures
        handled_walk(n) == side_walk(n.left) + side_walk(n.right) + seq![n.token],
        handled_walk(n).last() == n.token,
{
}

/// A leaf token is handed over alone; the end tokens are not handed over.
pub proof fn law_leaf_alone(n: ParserNode)
    ensures
        (n.token is Absolute || n.token is Relative || n.token is All || n.token is Key
            || n.token is Keys || n.token is Range || n.token is Union || n.token is Number
            || n.token is Bool) ==> handled_walk(n) == seq![n.token],
        (n.token is Eof || n.token is ArrayEof) ==> handled_walk(n) == Seq::<ParseToken>::empty(),
{
}

/// Hands the tokens of `parse_node` to `token_handler` in the order of
/// `handled_walk`, each with `parse_value_reader`.
pub fn visit_parser_node<'a, F, F1>(
    parse_node: &ParserNode,
    token_handler: &mut F,
    parse_value_reader: &F1,
) where F: ParserTokenHandler<'a>, F1: Fn(&StrRange) -> &'a str
    ensures
        F::keeps_record() ==> final(token_handler).handled() == old(token_handler).handled()
            + handled_walk(*parse_node),
    decreases parse_node,
{
    match &parse_node.token {
        ParseToken::Absolute | ParseToken::Relative | ParseToken::All | ParseToken::Key(_)
        | ParseToken::Keys(_) | ParseToken::Range(_, _, _) | ParseToken::Union(_)
        | ParseToken::Number(_) | ParseToken::Bool(_) => {
            token_handler.handle(&parse_node.token, parse_value_reader);
        },
        ParseToken::In | ParseToken::Leaves => {
            if let Some(n) = &parse_node.left {
                visit_parser_node(&**n, token_handler, parse_value_reader);
            }
            token_handler.handle(&parse_node.token, parse_value_reader);
            if let Some(n) = &parse_node.right {
                visit_parser_node(&**n, token_handler, parse_value_reader);
            }
        },
        ParseToken::Array => {
            if let Some(n) = &parse_node.left {
                visit_parser_node(&**n, token_handler, parse_value_reader);
            }
            token_handler.handle(&parse_node.token, parse_value_reader);
            if let Some(n) = &parse_node.right {
                visit_parser_node(&**n, token_handler, parse_value_reader);
            }
            token_handler.handle(&ParseToken::ArrayEof, parse_value_reader);
        },
        ParseToken::Filter(FilterToken::And) | ParseToken::Filter(FilterToken::Or) => {
            if let Some(n) = &parse_node.left {
                visit_parser_node(&**n, token_handler, parse_value_reader);
            }
            if let Some(n) = &parse_node.right {
                visit_parser_node(&**n, token_handler, parse_value_reader);
            }
            token_handler.handle(&parse_node.token, parse_value_reader);
        },
        ParseToken::Filter(_) => {
            if let Some(n) = &parse_node.left {
                visit_parser_node(&**n, token_handler, parse_value_reader);
            }
            if let Some(n) = &parse_node.right {
                visit_parser_node(&**n, token_handler, parse_value_reader);
            }
            token_handler.handle(&parse_node.token, parse_value_reader);
        },
        _ => {},
    }
    proof {
        if F::keeps_record() {
            assert(final(token_handler).handled() =~= old(token_handler).handled() + handled_walk(
                *parse_node,
            ));
        }
    }
}

/// Walks a parsed path, handing its tokens to a handler.
pub trait ParserNodeVisitor<'a> {
    fn visit<F, F1>(&self, parse_node: &ParserNode, token_handler: &mut F, parse_value_reader: &F1) where
        F: ParserTokenHandler<'a>,
        F1: Fn(&StrRange) -> &'a str,

        ensures
            F::keeps_record() ==> final(token_handler).handled() == old(token_handler).handled()
                + handled_walk(*parse_node),
    {
        visit_parser_node(parse_node, token_handler, parse_value_reader);
    }
}

} // verus!
