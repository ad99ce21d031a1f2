//! Parsing of pattern text into an abstract syntax tree.
use vstd::prelude::*;

use crate::error::ParseError;
use crate::lexer::chars_of;

verus! {

/// The abstract syntax tree of a pattern.
#[derive(Debug, PartialEq)]
pub enum Ast {
    /// One literal character.
    Char(char),
    /// The pattern that matches only the zero-length input.
    Empty,
    /// Zero or more repetitions of the inner pattern (`*`).
    Star(Box<Ast>),
    /// Either of two patterns (`|`).
    Or(Box<Ast>, Box<Ast>),
    /// The concatenation of the patterns in order.
    Concat(Vec<Ast>),
}

/// The mathematical content of an [`Ast`], with sequences in place of vectors.
pub enum AstModel {
    Char(char),
    Empty,
    Star(Box<AstModel>),
    Or(Box<AstModel>, Box<AstModel>),
    Concat(Seq<AstModel>),
}

impl Ast {
    /// The syntax tree as a mathematical value.
    pub open spec fn model(&self) -> AstModel
        decreases self,
    {
        match self {
            Ast::Char(c) => AstModel::Char(*c),
            Ast::Empty => AstModel::Empty,
            Ast::Star(a) => AstModel::Star(Box::new((**a).model())),
            Ast::Or(a, b) => AstModel::Or(Box::new((**a).model()), Box::new((**b).model())),
            Ast::Concat(items) => AstModel::Concat(
                Seq::new(items@.len(), |i: int| if 0 <= i < items@.len() { items@[i].model() } else { AstModel::Empty }),
            ),
        }
    }
}

/// The models of a sequence of trees.
pub open spec fn models(v: Seq<Ast>) -> Seq<AstModel> {
    Seq::new(v.len(), |i: int| v[i].model())
}

/// The model of a parse result.
pub open spec fn result_model(r: Result<Ast, ParseError>) -> Result<AstModel, ParseError> {
    match r {
        Ok(a) => Ok(a.model()),
        Err(e) => Err(e),
    }
}

/// The model of a concatenation holds the models of its items.
proof fn lemma_concat_model(items: Vec<Ast>)
    ensures
        Ast::Concat(items).model() == AstModel::Concat(models(items@)),
{
    assert(Ast::Concat(items).model()->Concat_0 =~= models(items@));
}

/// The characters that a backslash may escape.
pub open spec fn escapable(c: char) -> bool {
    c == '\\' || c == '(' || c == ')' || c == '|' || c == '*'
}

/// The right-nested alternation `prefix[0] | (prefix[1] | ... (... | last))`.
pub open spec fn or_chain(prefix: Seq<AstModel>, last: AstModel) -> AstModel
    decreases prefix.len(),
{
    if prefix.len() == 0 {
        last
    } else {
        AstModel::Or(Box::new(prefix[0]), Box::new(or_chain(prefix.drop_first(), last)))
    }
}

/// The alternation of `alts`, nested to the right; `None` when there is none.
pub open spec fn alternation(alts: Seq<AstModel>) -> Option<AstModel> {
    if alts.len() == 0 {
        None
    } else {
        Some(or_chain(alts.drop_last(), alts.last()))
    }
}

/// Taking one more alternative from the end of the prefix into the last one.
proof fn lemma_or_chain_push(prefix: Seq<AstModel>, s: AstModel, last: AstModel)
    ensures
        or_chain(prefix.push(s), last) == or_chain(prefix, AstModel::Or(Box::new(s), Box::new(last))),
    decreases prefix.len(),
{
    if prefix.len() > 0 {
        assert(prefix.push(s).drop_first() == prefix.drop_first().push(s));
        lemma_or_chain_push(prefix.drop_first(), s, last);
        assert(prefix.push(s)[0] == prefix[0]);
    } else {
        assert(prefix.push(s).drop_first() =~= Seq::<AstModel>::empty());
        assert(prefix.push(s)[0] == s);
        reveal_with_fuel(or_chain, 2);
    }
}

/// The tree of a single escaped character: `c` itself if it may be escaped.
pub fn parse_escape(pos: usize, c: char) -> (r: Result<Ast, ParseError>)
    ensures
        result_model(r) == if escapable(c) {
            Ok(AstModel::Char(c))
        } else {
            Err(ParseError::InvalidEscape(pos, c))
        },
{
    if c == '\\' || c == '(' || c == ')' || c == '|' || c == '*' {
        Ok(Ast::Char(c))
    } else {
        Err(ParseError::InvalidEscape(pos, c))
    }
}

/// The alternation of the trees of `seq_or`, nested to the right.
pub fn fold_or(seq_or: Vec<Ast>) -> (r: Option<Ast>)
    ensures
        match r {
            Some(a) => alternation(models(seq_or@)) == Some(a.model()),
            None => alternation(models(seq_or@)) is None,
        },
{
    let ghost all = models(seq_or@);
    let mut rest = seq_or;
    match rest.pop() {
        None => None,
        Some(last) => {
            let mut ast = last;
            assert(models(rest@) =~= all.drop_last());
            while rest.len() > 0
                invariant
                    or_chain(all.drop_last(), all.last()) == or_chain(models(rest@), ast.model()),
                decreases rest.len(),
            {
                let ghost before = rest@;
                let s = rest.pop().unwrap();
                proof {
                    assert(models(before) =~= models(rest@).push(s.model()));
                    lemma_or_chain_push(models(rest@), s.model(), ast.model());
                }
                ast = Ast::Or(Box::new(s), Box::new(ast));
            }
            Some(ast)
        },
    }
}

/// What the parser holds between two characters: the items of the current
/// concatenation, the alternatives closed so far at this level, the levels of
/// the open groups, and whether a backslash is waiting for its character.
pub struct ParseState {
    pub seq: Seq<AstModel>,
    pub seq_or: Seq<AstModel>,
    pub stack: Seq<(Seq<AstModel>, Seq<AstModel>)>,
    pub escape: bool,
}

/// The alternatives of a level once its current concatenation is closed: the
/// concatenation joins them unless it is empty.
pub open spec fn closed_alts(seq: Seq<AstModel>, seq_or: Seq<AstModel>) -> Seq<AstModel> {
    if seq.len() > 0 {
        seq_or.push(AstModel::Concat(seq))
    } else {
        seq_or
    }
}

/// Reading the character `c` at position `pos`.
pub open spec fn parse_step(st: ParseState, pos: usize, c: char) -> Result<ParseState, ParseError> {
    if st.escape {
        if escapable(c) {
            Ok(ParseState { seq: st.seq.push(AstModel::Char(c)), escape: false, ..st })
        } else {
            Err(ParseError::InvalidEscape(pos, c))
        }
    } else if c == '*' {
        if st.seq.len() == 0 {
            Err(ParseError::NoPrev(pos))
        } else {
            Ok(ParseState { seq: st.seq.drop_last().push(AstModel::Star(Box::new(st.seq.last()))), ..st })
        }
    } else if c == '(' {
        Ok(ParseState { seq: Seq::empty(), seq_or: Seq::empty(), stack: st.stack.push((st.seq, st.seq_or)), ..st })
    } else if c == ')' {
        if st.stack.len() == 0 {
            Err(ParseError::InvalidRightParen(pos))
        } else {
            let (prev, prev_or) = st.stack.last();
            let seq = match alternation(closed_alts(st.seq, st.seq_or)) {
                Some(a) => prev.push(a),
                None => prev,
            };
            Ok(ParseState { seq, seq_or: prev_or, stack: st.stack.drop_last(), ..st })
        }
    } else if c == '|' {
        Ok(ParseState { seq: Seq::empty(), seq_or: st.seq_or.push(AstModel::Concat(st.seq)), ..st })
    } else if c == '\\' {
        Ok(ParseState { escape: true, ..st })
    } else {
        Ok(ParseState { seq: st.seq.push(AstModel::Char(c)), ..st })
    }
}

/// The parser's state after the first `n` characters of `chars`, or the
/// first error among them.
pub open spec fn parse_prefix(chars: Seq<char>, n: nat) -> Result<ParseState, ParseError>
    decreases n,
{
    if n == 0 {
        Ok(ParseState { seq: Seq::empty(), seq_or: Seq::empty(), stack: Seq::empty(), escape: false })
    } else {
        match parse_prefix(chars, (n - 1) as nat) {
            Ok(st) => parse_step(st, (n - 1) as usize, chars[n - 1]),
            Err(e) => Err(e),
        }
    }
}

/// The tree of the pattern `chars`, or why it has none: a group left open, or
/// no expression at all.
pub open spec fn parse_model(chars: Seq<char>) -> Result<AstModel, ParseError> {
    match parse_prefix(chars, chars.len()) {
        Err(e) => Err(e),
        Ok(st) => if st.stack.len() > 0 {
            Err(ParseError::NoRightParen)
        } else {
            match alternation(closed_alts(st.seq, st.seq_or)) {
                Some(a) => Ok(a),
                None => Err(ParseError::Empty),
            }
        },
    }
}

/// Once an error is met, it is the result of every longer prefix.
proof fn lemma_error_sticks(chars: Seq<char>, n: nat, m: nat)
    requires
        n <= m,
        parse_prefix(chars, n) is Err,
    ensures
        parse_prefix(chars, m) == parse_prefix(chars, n),
    decreases m - n,
{
    if n < m {
        lemma_error_sticks(chars, n, (m - 1) as nat);
    }
}

/// The models of the saved levels of open groups.
pub open spec fn stack_models(st: Seq<(Vec<Ast>, Vec<Ast>)>) -> Seq<(Seq<AstModel>, Seq<AstModel>)> {
    Seq::new(st.len(), |i: int| (models(st[i].0@), models(st[i].1@)))
}

/// A character's tree has the character as its model.
proof fn lemma_char_model(c: char)
    ensures
        Ast::Char(c).model() == AstModel::Char(c),
{
}

/// Pushing a tree pushes its model.
proof fn lemma_models_push(v: Seq<Ast>, a: Ast)
    ensures
        models(v.push(a)) == models(v).push(a.model()),
{
    assert(models(v.push(a)) =~= models(v).push(a.model()));
}

/// Parses `pattern` into its syntax tree. Positions in errors count
/// characters from zero.
pub fn parse(pattern: &str) -> (r: Result<Ast, ParseError>)
    ensures
        result_model(r) == parse_model(pattern@),
{
    let chars = chars_of(pattern);
    let mut seq: Vec<Ast> = Vec::new();
    let mut seq_or: Vec<Ast> = Vec::new();
    let mut stack: Vec<(Vec<Ast>, Vec<Ast>)> = Vec::new();
    let mut is_escape: bool = false;
    let mut pos: usize = 0;
    assert(models(seq@) =~= Seq::<AstModel>::empty());
    assert(models(seq_or@) =~= Seq::<AstModel>::empty());
    assert(stack_models(stack@) =~= Seq::<(Seq<AstModel>, Seq<AstModel>)>::empty());
    while pos < chars.len()
        invariant
            pos <= chars@.len(),
            chars@ == pattern@,
            parse_prefix(chars@, pos as nat) == Ok::<ParseState, ParseError>(
                ParseState {
                    seq: models(seq@),
                    seq_or: models(seq_or@),
                    stack: stack_models(stack@),
                    escape: is_escape,
                },
            ),
        decreases chars.len() - pos,
    {
        let c = chars[pos];
        let ghost st = ParseState {
            seq: models(seq@),
            seq_or: models(seq_or@),
            stack: stack_models(stack@),
            escape: is_escape,
        };
        assert(parse_prefix(chars@, (pos + 1) as nat) == parse_step(st, pos, c));
        if is_escape {
            is_escape = false;
            match parse_escape(pos, c) {
                Ok(a) => {
                    proof {
                        lemma_models_push(seq@, a);
                    }
                    seq.push(a);
                    assert(parse_step(st, pos, c) == Ok::<ParseState, ParseError>(
                        ParseState {
                            seq: models(seq@),
                            seq_or: models(seq_or@),
                            stack: stack_models(stack@),
                            escape: is_escape,
                        },
                    ));
                },
                Err(e) => {
                    proof {
                        lemma_error_sticks(chars@, (pos + 1) as nat, chars@.len());
                    }
                    return Err(e);
                },
            }
        } else if c == '*' {
            match seq.pop() {
                None => {
                    proof {
                        lemma_error_sticks(chars@, (pos + 1) as nat, chars@.len());
                    }
                    return Err(ParseError::NoPrev(pos));
                },
                Some(prev) => {
                    let star = Ast::Star(Box::new(prev));
                    proof {
                        assert(models(seq@) =~= st.seq.drop_last());
                        lemma_models_push(seq@, star);
                    }
                    seq.push(star);
                    assert(parse_step(st, pos, c) == Ok::<ParseState, ParseError>(
                        ParseState {
                            seq: models(seq@),
                            seq_or: models(seq_or@),
                            stack: stack_models(stack@),
                            escape: is_escape,
                        },
                    ));
                },
            }
        } else if c == '(' {
            let prev: Vec<Ast> = seq;
            let prev_or: Vec<Ast> = seq_or;
            seq = Vec::new();
            seq_or = Vec::new();
            let ghost before = stack@;
            stack.push((prev, prev_or));
            assert(stack_models(stack@) =~= stack_models(before).push((models(prev@), models(prev_or@))));
            assert(models(seq@) =~= Seq::<AstModel>::empty());
            assert(models(seq_or@) =~= Seq::<AstModel>::empty());
            assert(parse_step(st, pos, c) == Ok::<ParseState, ParseError>(
                ParseState {
                    seq: models(seq@),
                    seq_or: models(seq_or@),
                    stack: stack_models(stack@),
                    escape: is_escape,
                },
            ));
        } else if c == ')' {
            let ghost before = stack@;
            match stack.pop() {
                None => {
                    proof {
                        lemma_error_sticks(chars@, (pos + 1) as nat, chars@.len());
                    }
                    return Err(ParseError::InvalidRightParen(pos));
                },
                Some(level) => {
                    assert(stack_models(stack@) =~= stack_models(before).drop_last());
                    let (mut prev, prev_or) = level;
                    assert(before.last() == (prev, prev_or));
                    assert(st.stack.last() == (models(prev@), models(prev_or@)));
                    let ghost alts = closed_alts(st.seq, st.seq_or);
                    if seq.len() > 0 {
                        let cat = Ast::Concat(seq);
                        proof {
                            lemma_concat_model(seq);
                            lemma_models_push(seq_or@, cat);
                        }
                        seq_or.push(cat);
                    }
                    assert(models(seq_or@) == alts);
                    match fold_or(seq_or) {
                        Some(a) => {
                            proof {
                                lemma_models_push(prev@, a);
                            }
                            prev.push(a);
                        },
                        None => {},
                    }
                    seq = prev;
                    seq_or = prev_or;
                    assert(parse_step(st, pos, c) == Ok::<ParseState, ParseError>(
                        ParseState {
                            seq: models(seq@),
                            seq_or: models(seq_or@),
                            stack: stack_models(stack@),
                            escape: is_escape,
                        },
                    ));
                },
            }
        } else if c == '|' {
            let prev: Vec<Ast> = seq;
            seq = Vec::new();
            let cat = Ast::Concat(prev);
            proof {
                lemma_concat_model(prev);
                lemma_models_push(seq_or@, cat);
            }
            seq_or.push(cat);
            assert(models(seq@) =~= Seq::<AstModel>::empty());
            assert(parse_step(st, pos, c) == Ok::<ParseState, ParseError>(
                ParseState {
                    seq: models(seq@),
                    seq_or: models(seq_or@),
                    stack: stack_models(stack@),
                    escape: is_escape,
                },
            ));
        } else if c == '\\' {
            is_escape = true;
            assert(parse_step(st, pos, c) == Ok::<ParseState, ParseError>(
                ParseState {
                    seq: models(seq@),
                    seq_or: models(seq_or@),
                    stack: stack_models(stack@),
                    escape: is_escape,
                },
            ));
        } else {
            let item = Ast::Char(c);
            proof {
                lemma_models_push(seq@, item);
                lemma_char_model(c);
            }
            seq.push(item);
            assert(parse_step(st, pos, c) == Ok::<ParseState, ParseError>(
                ParseState {
                    seq: models(seq@),
                    seq_or: models(seq_or@),
                    stack: stack_models(stack@),
                    escape: is_escape,
                },
            ));
        }
        pos += 1;
    }
    if stack.len() > 0 {
        return Err(ParseError::NoRightParen);
    }
    if seq.len() > 0 {
        let cat = Ast::Concat(seq);
        proof {
            lemma_concat_model(seq);
            lemma_models_push(seq_or@, cat);
        }
        seq_or.push(cat);
    }
    match fold_or(seq_or) {
        Some(a) => Ok(a),
        None => Err(ParseError::Empty),
    }
}

} // verus!
