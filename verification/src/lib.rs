//! A minimal interpreter for a parenthesized symbolic-expression language:
//! a tokenizer, a recursive-descent parser, and a tree evaluator over a flat
//! environment of named bindings seeded with arithmetic builtins.
//!
//! Numbers are IEEE 754 binary64 values, carried everywhere as their bit
//! patterns (`u64`); the arithmetic itself is done by the `rustc_apfloat`
//! software-float library behind a few trusted wrappers.
//!
//! The crate root exposes the reading half of the pipeline over
//! [`Expression`], a value shape without procedure values; the full pipeline,
//! evaluator included, lives in [`parser`] and [`env`].

use vstd::prelude::*;
use vstd::slice::slice_index_get;
use vstd::slice::slice_subrange;

pub mod env;
pub mod parser;

use crate::parser::atom_bits;
use crate::parser::spec_parse;
use crate::parser::spec_read_seq;
use crate::parser::spec_tokenize;
use crate::parser::token_views;
use crate::parser::SpecExpr;

verus! {

/// A parsed form: a symbol, a number (the bits of an IEEE 754 binary64
/// value), or a list of sub-expressions.
#[derive(Debug, PartialEq)]
pub enum Expression {
    Symbol(String),
    Number(u64),
    List(Vec<Expression>),
}

/// The error kind of the root entry points: a parse failure with a message.
#[derive(Debug, PartialEq)]
pub enum SchremeError {
    ParseError(String),
}

/// A mapping from symbol names to parsed forms; unused by the reading half
/// of the pipeline, which never evaluates.
#[derive(Debug)]
pub struct Environment {
    data: Vec<(String, Expression)>,
}

/// The model of a parsed form.
pub open spec fn spec_view_expression(e: Expression) -> SpecExpr
    decreases e,
{
    match e {
        Expression::Symbol(s) => SpecExpr::Symbol(s@),
        Expression::Number(b) => SpecExpr::Number(b),
        Expression::List(l) => SpecExpr::List(view_expressions(l@)),
    }
}

/// The models of a sequence of parsed forms.
pub open spec fn view_expressions(l: Seq<Expression>) -> Seq<SpecExpr>
    decreases l,
{
    if l.len() == 0 {
        Seq::empty()
    } else {
        seq![spec_view_expression(l[0])] + view_expressions(l.drop_first())
    }
}

impl View for Expression {
    type V = SpecExpr;

    open spec fn view(&self) -> SpecExpr {
        spec_view_expression(*self)
    }
}

proof fn lemma_view_expressions_len(l: Seq<Expression>)
    ensures
        view_expressions(l).len() == l.len(),
        forall|i: int| 0 <= i < l.len() ==> view_expressions(l)[i] == spec_view_expression(l[i]),
    decreases l.len(),
{
    if l.len() > 0 {
        lemma_view_expressions_len(l.drop_first());
    }
}

proof fn lemma_view_expressions_push(l: Seq<Expression>, e: Expression)
    ensures
        view_expressions(l.push(e)) =~= view_expressions(l) + seq![spec_view_expression(e)],
{
    lemma_view_expressions_len(l.push(e));
    lemma_view_expressions_len(l);
    assert(l.push(e)[l.len() as int] == e);
    assert(forall|i: int| 0 <= i < l.len() ==> l.push(e)[i] == l[i]);
}

/// Splits a text into tokens: every `(` and `)` becomes its own token, and
/// every maximal run of other non-whitespace characters becomes one atom.
pub fn tokenize(i: String) -> (r: Vec<String>)
    ensures
        token_views(r@) == spec_tokenize(i@),
{
    crate::parser::tokenize(i)
}

/// Consumes exactly one form from the front of the token stream and returns
/// it with the unconsumed remainder; fails on an empty stream, on a stray
/// `)`, and on a list that is never closed.
pub fn parse<'a>(tokens: &'a [String]) -> (r: Result<(Expression, &'a [String]), SchremeError>)
    ensures
        match r {
            Ok(p) => spec_parse(token_views(tokens@)) == Ok::<(SpecExpr, Seq<Seq<char>>), Seq<char>>(
                (p.0@, token_views(p.1@)),
            ) && p.1@.len() < tokens@.len(),
            Err(e) => match e {
                SchremeError::ParseError(m) => spec_parse(token_views(tokens@)) == Err::<
                    (SpecExpr, Seq<Seq<char>>),
                    Seq<char>,
                >(m@),
            },
        },
    decreases tokens@.len(), 0nat,
{
    if tokens.len() == 0 {
        return Err(SchremeError::ParseError("failed to parse token".to_owned()));
    }
    let token: &String = slice_index_get(tokens, 0);
    let rest: &[String] = slice_subrange(tokens, 1, tokens.len());
    proof {
        assert(token_views(rest@) =~= token_views(tokens@).drop_first());
    }
    if *token == "(".to_owned() {
        read_seq(rest)
    } else if *token == ")".to_owned() {
        Err(SchremeError::ParseError("unexpected `)`".to_owned()))
    } else {
        Ok((parse_atom(token), rest))
    }
}

/// Reads sub-forms until the next unconsumed token is `)`, which is consumed
/// and excluded; fails when the stream runs out first.
fn read_seq<'a>(tokens: &'a [String]) -> (r: Result<(Expression, &'a [String]), SchremeError>)
    ensures
        match r {
            Ok(p) => match p.0@ {
                SpecExpr::List(es) => spec_read_seq(token_views(tokens@)) == Ok::<
                    (Seq<SpecExpr>, Seq<Seq<char>>),
                    Seq<char>,
                >((es, token_views(p.1@))) && p.1@.len() <= tokens@.len(),
                _ => false,
            },
            Err(e) => match e {
                SchremeError::ParseError(m) => spec_read_seq(token_views(tokens@)) == Err::<
                    (Seq<SpecExpr>, Seq<Seq<char>>),
                    Seq<char>,
                >(m@),
            },
        },
    decreases tokens@.len(), 1nat,
{
    let mut res: Vec<Expression> = Vec::new();
    let mut xs: &[String] = tokens;
    proof {
        assert(view_expressions(res@) =~= Seq::<SpecExpr>::empty());
    }
    loop
        invariant
            xs@.len() <= tokens@.len(),
            (match spec_read_seq(token_views(xs@)) {
                Ok(p) => spec_read_seq(token_views(tokens@)) == Ok::<
                    (Seq<SpecExpr>, Seq<Seq<char>>),
                    Seq<char>,
                >((view_expressions(res@) + p.0, p.1)),
                Err(m) => spec_read_seq(token_views(tokens@)) == Err::<
                    (Seq<SpecExpr>, Seq<Seq<char>>),
                    Seq<char>,
                >(m),
            }),
        decreases xs@.len(),
    {
        if xs.len() == 0 {
            return Err(SchremeError::ParseError("could not find closing `)`".to_owned()));
        }
        let next_token: &String = slice_index_get(xs, 0);
        if *next_token == ")".to_owned() {
            let rest2: &[String] = slice_subrange(xs, 1, xs.len());
            proof {
                assert(token_views(rest2@) =~= token_views(xs@).drop_first());
                assert(view_expressions(res@) + Seq::<SpecExpr>::empty() =~= view_expressions(
                    res@,
                ));
            }
            return Ok((Expression::List(res), rest2));
        }
        match parse(xs) {
            Ok(pair) => {
                let (exp, new_xs) = pair;
                proof {
                    let tv = token_views(xs@);
                    assert(tv[0] == xs@[0]@);
                    lemma_view_expressions_push(res@, exp);
                    match spec_read_seq(token_views(new_xs@)) {
                        Ok(q) => {
                            assert((view_expressions(res@) + (seq![spec_view_expression(exp)]
                                + q.0)) =~= (view_expressions(res@.push(exp)) + q.0));
                        },
                        Err(m) => {},
                    }
                }
                res.push(exp);
                xs = new_xs;
            },
            Err(e) => {
                return Err(e);
            },
        }
    }
}

/// Reads an atom token: a text that is an `f64` literal becomes a number,
/// any other text stays a symbol verbatim.
fn parse_atom(token: &String) -> (r: Expression)
    ensures
        (match atom_bits(token@) {
            Some(b) => r@ == SpecExpr::Number(b),
            None => r@ == SpecExpr::Symbol(token@),
        }),
{
    match crate::parser::classify_atom(token) {
        Some(b) => Expression::Number(b),
        None => Expression::Symbol(token.clone()),
    }
}

} // verus!
