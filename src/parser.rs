//! The parser: tokens to pre-expressions (lists, tuple literals and leaves)
//! with the source span of each.
use vstd::prelude::*;
use vstd::string::StringSliceAdditionalSpecFns;
use crate::errors::ParseErrors;
use crate::lexer::{failure_is, lex, lex_spec, lexed_is, LexItem};
use crate::names::{ClarityName, ContractName};
use crate::types::{TraitIdentifier, Value};

verus! {

/// Where an expression stands in the source: first and last line and column.
#[derive(Debug, Clone, Copy, PartialEq, Eq)]
pub struct Span {
    pub start_line: u32,
    pub start_column: u32,
    pub end_line: u32,
    pub end_column: u32,
}

#[derive(Debug, PartialEq, Eq)]
pub enum PreSymbolicExpressionType {
    AtomValue(Value),
    Atom(ClarityName),
    List(Vec<PreSymbolicExpression>),
    Tuple(Vec<PreSymbolicExpression>),
    SugaredContractIdentifier(ContractName),
    SugaredFieldIdentifier(ContractName, ClarityName),
    FieldIdentifier(TraitIdentifier),
    TraitReference(ClarityName),
}

/// A parsed expression before the AST passes run.
#[derive(Debug, PartialEq, Eq)]
pub struct PreSymbolicExpression {
    pub pre_expr: PreSymbolicExpressionType,
    /// Set by the expression identifier; 0 until then.
    pub id: u64,
    pub span: Span,
}

/// What an expression is, with lists and tuples as sequences.
pub enum PreNode {
    /// A leaf: anything but a list or a tuple.
    Leaf(PreSymbolicExpressionType, Span),
    List(Seq<PreNode>, Span),
    Tuple(Seq<PreNode>, Span),
}

/// Whether `e` is the expression `n`.
pub open spec fn denotes(e: PreSymbolicExpression, n: PreNode) -> bool
    decreases n, 1int,
{
    match n {
        PreNode::Leaf(x, sp) => e.pre_expr == x && e.span == sp && e.id == 0 && !(x is List) && !(x is Tuple),
        PreNode::List(cs, sp) => e.pre_expr matches PreSymbolicExpressionType::List(ch) && e.span == sp
            && e.id == 0 && ch@.len() == cs.len() && children_denote(ch@, cs, cs.len() as int),
        PreNode::Tuple(cs, sp) => e.pre_expr matches PreSymbolicExpressionType::Tuple(ch) && e.span == sp
            && e.id == 0 && ch@.len() == cs.len() && children_denote(ch@, cs, cs.len() as int),
    }
}

/// Whether the first `k` of `es` are the first `k` of `cs`.
pub open spec fn children_denote(es: Seq<PreSymbolicExpression>, cs: Seq<PreNode>, k: int) -> bool
    decreases cs, 0int, k,
{
    if k <= 0 {
        true
    } else if k > cs.len() || k > es.len() {
        false
    } else {
        children_denote(es, cs, k - 1) && denotes(es[k - 1], cs[k - 1])
    }
}

proof fn lemma_children_denote(es: Seq<PreSymbolicExpression>, cs: Seq<PreNode>, k: int)
    requires
        0 <= k <= cs.len(),
        k <= es.len(),
    ensures
        children_denote(es, cs, k) <==> forall|i: int| 0 <= i < k ==> #[trigger] denotes(es[i], cs[i]),
    decreases k,
{
    if k > 0 {
        lemma_children_denote(es, cs, k - 1);
        assert(children_denote(es, cs, k) == (children_denote(es, cs, k - 1) && denotes(es[k - 1], cs[k - 1])));
        if forall|i: int| 0 <= i < k ==> #[trigger] denotes(es[i], cs[i]) {
            assert(denotes(es[k - 1], cs[k - 1]));
            assert forall|i: int| 0 <= i < k - 1 implies #[trigger] denotes(es[i], cs[i]) by {
            }
        }
        if children_denote(es, cs, k) {
            assert forall|i: int| 0 <= i < k implies #[trigger] denotes(es[i], cs[i]) by {
                if i < k - 1 {
                }
            }
        }
    }
}

/// Whether each of `es` is the corresponding one of `ns`.
pub open spec fn all_denote(es: Seq<PreSymbolicExpression>, ns: Seq<PreNode>) -> bool {
    es.len() == ns.len() && forall|i: int| 0 <= i < ns.len() ==> #[trigger] denotes(es[i], ns[i])
}

/// An open list or tuple: what it holds so far and where it started.
pub struct Frame {
    pub children: Seq<PreNode>,
    pub line: u32,
    pub col: u32,
    pub tuple: bool,
}

/// The last column of a token of length `len` starting at `col`.
pub open spec fn end_col(col: u32, len: nat) -> u32 {
    if len == 0 {
        col
    } else if col + len - 1 > u32::MAX {
        u32::MAX
    } else {
        (col + len - 1) as u32
    }
}

pub open spec fn leaf_span(line: u32, col: u32, len: nat) -> Span {
    Span { start_line: line, start_column: col, end_line: line, end_column: end_col(col, len) }
}

/// The leaf that a token yields, if it yields one.
pub open spec fn leaf_of(item: LexItem, line: u32, col: u32) -> Option<PreNode> {
    match item {
        LexItem::LiteralValue(n, v) => Some(
            PreNode::Leaf(PreSymbolicExpressionType::AtomValue(v), leaf_span(line, col, n as nat)),
        ),
        LexItem::Variable(name) => Some(
            PreNode::Leaf(PreSymbolicExpressionType::Atom(name), leaf_span(line, col, name@.len())),
        ),
        LexItem::SugaredContractIdentifier(n, c) => Some(
            PreNode::Leaf(
                PreSymbolicExpressionType::SugaredContractIdentifier(c),
                leaf_span(line, col, n as nat),
            ),
        ),
        LexItem::SugaredFieldIdentifier(n, c, f) => Some(
            PreNode::Leaf(
                PreSymbolicExpressionType::SugaredFieldIdentifier(c, f),
                leaf_span(line, col, n as nat),
            ),
        ),
        LexItem::FieldIdentifier(n, t) => Some(
            PreNode::Leaf(PreSymbolicExpressionType::FieldIdentifier(t), leaf_span(line, col, n as nat)),
        ),
        LexItem::TraitReference(n, name) => Some(
            PreNode::Leaf(PreSymbolicExpressionType::TraitReference(name), leaf_span(line, col, n as nat)),
        ),
        _ => None,
    }
}

/// Adds a finished expression to the innermost open frame, or to the output.
pub open spec fn add_node(stack: Seq<Frame>, out: Seq<PreNode>, n: PreNode) -> (Seq<Frame>, Seq<PreNode>) {
    if stack.len() == 0 {
        (stack, out.push(n))
    } else {
        let f = stack.last();
        (stack.drop_last().push(Frame { children: f.children.push(n), ..f }), out)
    }
}

/// One token's effect on the open frames and the output.
pub open spec fn parse_step(stack: Seq<Frame>, out: Seq<PreNode>, item: (LexItem, u32, u32)) -> Result<
    (Seq<Frame>, Seq<PreNode>),
    ParseErrors,
> {
    let (tok, line, col) = item;
    match tok {
        LexItem::LeftParen => Ok((stack.push(Frame { children: Seq::empty(), line, col, tuple: false }), out)),
        LexItem::LeftCurly => Ok((stack.push(Frame { children: Seq::empty(), line, col, tuple: true }), out)),
        LexItem::RightParen => if stack.len() == 0 {
            Err(ParseErrors::ClosingParenthesisUnexpected)
        } else if stack.last().tuple {
            Err(ParseErrors::ClosingTupleLiteralExpected)
        } else {
            let f = stack.last();
            Ok(
                add_node(
                    stack.drop_last(),
                    out,
                    PreNode::List(
                        f.children,
                        Span { start_line: f.line, start_column: f.col, end_line: line, end_column: col },
                    ),
                ),
            )
        },
        LexItem::RightCurly => if stack.len() == 0 {
            Err(ParseErrors::ClosingTupleLiteralUnexpected)
        } else if !stack.last().tuple {
            Err(ParseErrors::ClosingParenthesisExpected)
        } else {
            let f = stack.last();
            Ok(
                add_node(
                    stack.drop_last(),
                    out,
                    PreNode::Tuple(
                        f.children,
                        Span { start_line: f.line, start_column: f.col, end_line: line, end_column: col },
                    ),
                ),
            )
        },
        LexItem::ColonSeparator => if stack.len() == 0 || !stack.last().tuple
            || stack.last().children.len() % 2 == 0 {
            Err(ParseErrors::ColonSeparatorUnexpected)
        } else {
            Ok((stack, out))
        },
        LexItem::CommaSeparator => if stack.len() == 0 || !stack.last().tuple
            || stack.last().children.len() == 0 || stack.last().children.len() % 2 == 1 {
            Err(ParseErrors::CommaSeparatorUnexpected)
        } else {
            Ok((stack, out))
        },
        LexItem::Whitespace => Ok((stack, out)),
        _ => match leaf_of(tok, line, col) {
            Some(n) => Ok(add_node(stack, out, n)),
            None => Ok((stack, out)),
        },
    }
}

/// The expressions that the tokens from `k` on complete, given the open
/// frames and the output so far; or the first error.
pub open spec fn parse_from(
    items: Seq<(LexItem, u32, u32)>,
    k: int,
    stack: Seq<Frame>,
    out: Seq<PreNode>,
) -> Result<Seq<PreNode>, ParseErrors>
    decreases items.len() - k,
{
    if k < 0 || k >= items.len() {
        if stack.len() > 0 {
            Err(ParseErrors::ClosingParenthesisExpected)
        } else {
            Ok(out)
        }
    } else {
        match parse_step(stack, out, items[k]) {
            Err(e) => Err(e),
            Ok((s2, o2)) => parse_from(items, k + 1, s2, o2),
        }
    }
}

/// What parsing `items` gives.
pub open spec fn parse_spec(items: Seq<(LexItem, u32, u32)>) -> Result<Seq<PreNode>, ParseErrors> {
    parse_from(items, 0, Seq::empty(), Seq::empty())
}

/// Whether `r` is what parsing `items` must return.
pub open spec fn parse_outcome(
    items: Seq<(LexItem, u32, u32)>,
    r: Result<Vec<PreSymbolicExpression>, ParseErrors>,
) -> bool {
    match parse_spec(items) {
        Ok(ns) => r matches Ok(out) && all_denote(out@, ns),
        Err(e) => r == Err::<Vec<PreSymbolicExpression>, ParseErrors>(e),
    }
}

/// Whether the open exec frames are the spec frames.
pub open spec fn frames_match(st: Seq<(Vec<PreSymbolicExpression>, u32, u32, bool)>, fs: Seq<Frame>) -> bool {
    &&& st.len() == fs.len()
    &&& forall|i: int|
        0 <= i < fs.len() ==> all_denote((#[trigger] st[i]).0@, fs[i].children) && st[i].1 == fs[i].line
            && st[i].2 == fs[i].col && st[i].3 == fs[i].tuple
}

fn end_column(col: u32, len: usize) -> (r: u32)
    ensures
        r == end_col(col, len as nat),
{
    if len == 0 {
        col
    } else if (len - 1) as u64 > (u32::MAX - col) as u64 {
        u32::MAX
    } else {
        col + ((len - 1) as u32)
    }
}

/// Adds `e`, which is `n`, to the innermost open frame or to the output.
fn push_node(
    stack: &mut Vec<(Vec<PreSymbolicExpression>, u32, u32, bool)>,
    out: &mut Vec<PreSymbolicExpression>,
    e: PreSymbolicExpression,
    Ghost(fs): Ghost<Seq<Frame>>,
    Ghost(os): Ghost<Seq<PreNode>>,
    Ghost(n): Ghost<PreNode>,
)
    requires
        frames_match(old(stack)@, fs),
        all_denote(old(out)@, os),
        denotes(e, n),
    ensures
        frames_match(final(stack)@, add_node(fs, os, n).0),
        all_denote(final(out)@, add_node(fs, os, n).1),
{
    if stack.len() == 0 {
        out.push(e);
        assert forall|i: int| 0 <= i < os.push(n).len() implies #[trigger] denotes(out@[i], os.push(n)[i]) by {
            if i < os.len() {
                assert(out@[i] == old(out)@[i]);
            }
        }
    } else {
        let ghost before = stack@;
        let (mut children, line, col, tuple) = stack.pop().unwrap();
        let ghost f = fs.last();
        let ghost old_children = children@;
        assert(before[before.len() - 1] == (children, line, col, tuple));
        children.push(e);
        assert forall|i: int| 0 <= i < f.children.push(n).len() implies #[trigger] denotes(children@[i], f.children.push(n)[i]) by {
            if i < f.children.len() {
                assert(children@[i] == old_children[i]);
            }
        }
        stack.push((children, line, col, tuple));
        let ghost fs2 = fs.drop_last().push(Frame { children: f.children.push(n), ..f });
        assert forall|i: int| 0 <= i < fs2.len() implies all_denote((#[trigger] stack@[i]).0@, fs2[i].children) && stack@[i].1 == fs2[i].line
            && stack@[i].2 == fs2[i].col && stack@[i].3 == fs2[i].tuple by {
            if i < fs2.len() - 1 {
                assert(stack@[i] == before[i]);
            }
        }
    }
}

proof fn lemma_denotes_list(e: PreSymbolicExpression, cs: Seq<PreNode>, sp: Span)
    requires
        e.pre_expr matches PreSymbolicExpressionType::List(ch) && all_denote(ch@, cs),
        e.span == sp,
        e.id == 0,
    ensures
        denotes(e, PreNode::List(cs, sp)),
{
    let ch = e.pre_expr->List_0;
    lemma_children_denote(ch@, cs, cs.len() as int);
}

proof fn lemma_denotes_tuple(e: PreSymbolicExpression, cs: Seq<PreNode>, sp: Span)
    requires
        e.pre_expr matches PreSymbolicExpressionType::Tuple(ch) && all_denote(ch@, cs),
        e.span == sp,
        e.id == 0,
    ensures
        denotes(e, PreNode::Tuple(cs, sp)),
{
    let ch = e.pre_expr->Tuple_0;
    lemma_children_denote(ch@, cs, cs.len() as int);
}

/// Closes the innermost frame with `)` (or `}` when `tuple`) at `line`, `col`.
fn close_frame(
    stack: &mut Vec<(Vec<PreSymbolicExpression>, u32, u32, bool)>,
    out: &mut Vec<PreSymbolicExpression>,
    line: u32,
    col: u32,
    tuple: bool,
    Ghost(fs): Ghost<Seq<Frame>>,
    Ghost(os): Ghost<Seq<PreNode>>,
) -> (r: Result<(), ParseErrors>)
    requires
        frames_match(old(stack)@, fs),
        all_denote(old(out)@, os),
    ensures
        ({
            let item = if tuple {
                LexItem::RightCurly
            } else {
                LexItem::RightParen
            };
            match parse_step(fs, os, (item, line, col)) {
                Err(e) => r == Err::<(), ParseErrors>(e),
                Ok((f2, o2)) => r is Ok && frames_match(final(stack)@, f2) && all_denote(final(out)@, o2),
            }
        }),
{
    if stack.len() == 0 {
        if tuple {
            return Err(ParseErrors::ClosingTupleLiteralUnexpected);
        }
        return Err(ParseErrors::ClosingParenthesisUnexpected);
    }
    let ghost before = stack@;
    let (children, sl, sc, frame_tuple) = stack.pop().unwrap();
    assert(before[before.len() - 1] == (children, sl, sc, frame_tuple));
    if frame_tuple != tuple {
        if tuple {
            return Err(ParseErrors::ClosingParenthesisExpected);
        }
        return Err(ParseErrors::ClosingTupleLiteralExpected);
    }
    let span = Span { start_line: sl, start_column: sc, end_line: line, end_column: col };
    let ghost f = fs.last();
    assert(all_denote(children@, f.children));
    proof {
        assert forall|i: int| 0 <= i < fs.drop_last().len() implies all_denote((#[trigger] stack@[i]).0@, fs.drop_last()[i].children) && stack@[i].1 == fs.drop_last()[i].line
            && stack@[i].2 == fs.drop_last()[i].col && stack@[i].3 == fs.drop_last()[i].tuple by {
            assert(stack@[i] == before[i]);
        }
    }
    if tuple {
        let ghost n = PreNode::Tuple(f.children, span);
        let e = PreSymbolicExpression { pre_expr: PreSymbolicExpressionType::Tuple(children), id: 0, span };
        proof { lemma_denotes_tuple(e, f.children, span); }
        push_node(stack, out, e, Ghost(fs.drop_last()), Ghost(os), Ghost(n));
    } else {
        let ghost n = PreNode::List(f.children, span);
        let e = PreSymbolicExpression { pre_expr: PreSymbolicExpressionType::List(children), id: 0, span };
        proof { lemma_denotes_list(e, f.children, span); }
        push_node(stack, out, e, Ghost(fs.drop_last()), Ghost(os), Ghost(n));
    }
    Ok(())
}

/// One token's effect on the open frames and the output.
fn parse_item(
    stack: &mut Vec<(Vec<PreSymbolicExpression>, u32, u32, bool)>,
    out: &mut Vec<PreSymbolicExpression>,
    item: LexItem,
    line: u32,
    col: u32,
    Ghost(fs): Ghost<Seq<Frame>>,
    Ghost(os): Ghost<Seq<PreNode>>,
) -> (r: Result<(), ParseErrors>)
    requires
        frames_match(old(stack)@, fs),
        all_denote(old(out)@, os),
    ensures
        match parse_step(fs, os, (item, line, col)) {
            Err(e) => r == Err::<(), ParseErrors>(e),
            Ok((f2, o2)) => r is Ok && frames_match(final(stack)@, f2) && all_denote(final(out)@, o2),
        },
{
    let ghost it = item;
    match item {
        LexItem::LeftParen => {
            stack.push((Vec::new(), line, col, false));
            proof {
                let f2 = fs.push(Frame { children: Seq::empty(), line, col, tuple: false });
                assert forall|i: int| 0 <= i < f2.len() implies all_denote((#[trigger] stack@[i]).0@, f2[i].children) && stack@[i].1 == f2[i].line
                    && stack@[i].2 == f2[i].col && stack@[i].3 == f2[i].tuple by {
                }
            }
        },
        LexItem::LeftCurly => {
            stack.push((Vec::new(), line, col, true));
            proof {
                let f2 = fs.push(Frame { children: Seq::empty(), line, col, tuple: true });
                assert forall|i: int| 0 <= i < f2.len() implies all_denote((#[trigger] stack@[i]).0@, f2[i].children) && stack@[i].1 == f2[i].line
                    && stack@[i].2 == f2[i].col && stack@[i].3 == f2[i].tuple by {
                }
            }
        },
        LexItem::RightParen => {
            match close_frame(stack, out, line, col, false, Ghost(fs), Ghost(os)) {
                Err(e) => return Err(e),
                Ok(()) => {},
            }
        },
        LexItem::RightCurly => {
            match close_frame(stack, out, line, col, true, Ghost(fs), Ghost(os)) {
                Err(e) => return Err(e),
                Ok(()) => {},
            }
        },
        LexItem::ColonSeparator => {
            let ok = if stack.len() == 0 {
                false
            } else {
                let top = &stack[stack.len() - 1];
                top.3 && top.0.len() % 2 == 1
            };
            if !ok {
                return Err(ParseErrors::ColonSeparatorUnexpected);
            }
        },
        LexItem::CommaSeparator => {
            let ok = if stack.len() == 0 {
                false
            } else {
                let top = &stack[stack.len() - 1];
                top.3 && top.0.len() != 0 && top.0.len() % 2 == 0
            };
            if !ok {
                return Err(ParseErrors::CommaSeparatorUnexpected);
            }
        },
        LexItem::Whitespace => {},
        LexItem::LiteralValue(n, v) => {
            let ghost node = leaf_of(it, line, col).unwrap();
            let e = PreSymbolicExpression {
                pre_expr: PreSymbolicExpressionType::AtomValue(v),
                id: 0,
                span: Span { start_line: line, start_column: col, end_line: line, end_column: end_column(col, n) },
            };
            push_node(stack, out, e, Ghost(fs), Ghost(os), Ghost(node));
        },
        LexItem::Variable(name) => {
            let ghost node = leaf_of(it, line, col).unwrap();
            let len = name.len();
            let e = PreSymbolicExpression {
                pre_expr: PreSymbolicExpressionType::Atom(name),
                id: 0,
                span: Span { start_line: line, start_column: col, end_line: line, end_column: end_column(col, len) },
            };
            push_node(stack, out, e, Ghost(fs), Ghost(os), Ghost(node));
        },
        LexItem::SugaredContractIdentifier(n, c) => {
            let ghost node = leaf_of(it, line, col).unwrap();
            let e = PreSymbolicExpression {
                pre_expr: PreSymbolicExpressionType::SugaredContractIdentifier(c),
                id: 0,
                span: Span { start_line: line, start_column: col, end_line: line, end_column: end_column(col, n) },
            };
            push_node(stack, out, e, Ghost(fs), Ghost(os), Ghost(node));
        },
        LexItem::SugaredFieldIdentifier(n, c, f) => {
            let ghost node = leaf_of(it, line, col).unwrap();
            let e = PreSymbolicExpression {
                pre_expr: PreSymbolicExpressionType::SugaredFieldIdentifier(c, f),
                id: 0,
                span: Span { start_line: line, start_column: col, end_line: line, end_column: end_column(col, n) },
            };
            push_node(stack, out, e, Ghost(fs), Ghost(os), Ghost(node));
        },
        LexItem::FieldIdentifier(n, t) => {
            let ghost node = leaf_of(it, line, col).unwrap();
            let e = PreSymbolicExpression {
                pre_expr: PreSymbolicExpressionType::FieldIdentifier(t),
                id: 0,
                span: Span { start_line: line, start_column: col, end_line: line, end_column: end_column(col, n) },
            };
            push_node(stack, out, e, Ghost(fs), Ghost(os), Ghost(node));
        },
        LexItem::TraitReference(n, name) => {
            let ghost node = leaf_of(it, line, col).unwrap();
            let e = PreSymbolicExpression {
                pre_expr: PreSymbolicExpressionType::TraitReference(name),
                id: 0,
                span: Span { start_line: line, start_column: col, end_line: line, end_column: end_column(col, n) },
            };
            push_node(stack, out, e, Ghost(fs), Ghost(os), Ghost(node));
        },
    }
    Ok(())
}

/// Folds tokens into expressions: `(`...`)` is a list, `{`...`}` a tuple
/// literal whose children alternate name `:` value `,`.
pub fn parse_lexed(input: Vec<(LexItem, u32, u32)>) -> (r: Result<Vec<PreSymbolicExpression>, ParseErrors>)
    ensures
        parse_outcome(input@, r),
{
    let ghost items = input@;
    let mut pending = input;
    let mut rev: Vec<(LexItem, u32, u32)> = Vec::new();
    while pending.len() > 0
        invariant
            items == input@,
            pending@.len() + rev@.len() == items.len(),
            pending@ == items.subrange(0, pending@.len() as int),
            forall|j: int| 0 <= j < rev@.len() ==> rev@[j] == items[items.len() - 1 - j],
        decreases pending@.len(),
    {
        let x = pending.pop().unwrap();
        rev.push(x);
    }
    let mut stack: Vec<(Vec<PreSymbolicExpression>, u32, u32, bool)> = Vec::new();
    let mut out: Vec<PreSymbolicExpression> = Vec::new();
    let ghost mut fs: Seq<Frame> = Seq::empty();
    let ghost mut os: Seq<PreNode> = Seq::empty();
    while rev.len() > 0
        invariant
            items == input@,
            rev@.len() <= items.len(),
            forall|j: int| 0 <= j < rev@.len() ==> rev@[j] == items[items.len() - 1 - j],
            frames_match(stack@, fs),
            all_denote(out@, os),
            parse_spec(items) == parse_from(items, items.len() - rev@.len(), fs, os),
        decreases rev@.len(),
    {
        let ghost k = items.len() - rev@.len();
        let (item, line, col) = rev.pop().unwrap();
        assert(items[k] == (item, line, col));
        let ghost next = parse_step(fs, os, items[k]);
        assert(parse_from(items, k, fs, os) == match next {
            Err(e) => Err(e),
            Ok((s2, o2)) => parse_from(items, k + 1, s2, o2),
        });
        match parse_item(&mut stack, &mut out, item, line, col, Ghost(fs), Ghost(os)) {
            Err(e) => {
                assert(parse_spec(items) == Err::<Seq<PreNode>, ParseErrors>(e));
                return Err(e);
            },
            Ok(()) => {},
        }
        proof {
            let r = next.unwrap();
            fs = r.0;
            os = r.1;
        }
    }
    if stack.len() > 0 {
        return Err(ParseErrors::ClosingParenthesisExpected);
    }
    Ok(out)
}

/// Whether `pre` is what parsing the source `s` gives.
pub open spec fn parses_to(s: Seq<u8>, pre: Seq<PreSymbolicExpression>) -> bool {
    exists|items: Seq<(LexItem, u32, u32)>| #[trigger] lexed_is(s, items) && parse_spec(items) is Ok && all_denote(pre, parse_spec(items)->Ok_0)
}

/// Lexes and parses source text.
pub fn parse(input: &str) -> (r: Result<Vec<PreSymbolicExpression>, ParseErrors>)
    ensures
        match lex_spec(input.spec_bytes()) {
            Err(f) => r matches Err(e) && failure_is(e, input.spec_bytes(), f),
            Ok(_) => exists|items: Seq<(LexItem, u32, u32)>|
                #[trigger] lexed_is(input.spec_bytes(), items) && parse_outcome(items, r),
        },
        r matches Ok(out) ==> parses_to(input.spec_bytes(), out@),
{
    let lexed = match lex(input) {
        Ok(l) => l,
        Err(e) => return Err(e),
    };
    let ghost items = lexed@;
    let r = parse_lexed(lexed);
    assert(lexed_is(input.spec_bytes(), items));
    r
}

} // verus!
