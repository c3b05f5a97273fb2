use vstd::prelude::*;
use crate::collapse::{collapse, collapse_spec};
use crate::lex::{lex, lex_spec};
use crate::location::Pos;
use crate::token::{Op, Token};
use crate::interpreter::{exp_from, guarded_from};
use crate::tree::{branch_view, lemma_branch_view_push, Node, NodeV, Tree};

verus! {

/// The one parse-time fault: a loop bracket without a match.  The location,
/// when present, is the position of a `JumpNonZero` with no enclosing
/// `JumpZero`, or of the outermost `JumpZero` still open when the input
/// ends.  It is absent only when no opener's position could be attached,
/// which cannot happen through [`parse`]: the outermost call runs at depth
/// 0, where exhaustion is success.
#[derive(Debug, Clone, Copy, PartialEq, Eq)]
pub enum ParseErr {
    UnmatchedBracket(Option<Pos>),
}

/// The whole pipeline's error type.
#[derive(Debug, Clone, Copy, PartialEq, Eq)]
pub enum Error {
    ParseErr(ParseErr),
}

impl core::convert::From<ParseErr> for Error {
    fn from(err: ParseErr) -> (r: Self) {
        Error::ParseErr(err)
    }
}

impl vstd::std_specs::convert::FromSpecImpl<ParseErr> for Error {
    open spec fn obeys_from_spec() -> bool {
        true
    }

    open spec fn from_spec(err: ParseErr) -> Self {
        Error::ParseErr(err)
    }
}

/// Recursive-descent tree construction over `ops`, starting at cursor `i`
/// with nesting depth `depth` and the nodes `acc` already built at this
/// level.  Returns the level's outcome and the cursor after it:
/// - a `JumpZero` leaf is followed at once by an `Internal` node holding
///   its body, built at depth + 1; a failure underneath is rewrapped with
///   this opener's position;
/// - a `JumpNonZero` ends the level: its leaf is kept and the level
///   succeeds at depth > 0, while at depth 0 the close is unmatched and
///   carries its own position;
/// - exhaustion succeeds at depth 0 and is an unmatched bracket without a
///   position otherwise.
pub open spec fn parse_at(ops: Seq<Op>, i: int, depth: nat, acc: Seq<NodeV>) -> (Result<
    Seq<NodeV>,
    ParseErr,
>, int)
    decreases ops.len() - i,
{
    if i < 0 || i >= ops.len() {
        (
            if depth == 0 {
                Ok(acc)
            } else {
                Err(ParseErr::UnmatchedBracket(None))
            },
            i,
        )
    } else {
        let op = ops[i];
        if op.token is JumpZero {
            let (sub, j) = parse_at(ops, i + 1, depth + 1, Seq::empty());
            match sub {
                Ok(body) => {
                    let j2 = if j < i + 1 {
                        i + 1
                    } else if j > ops.len() {
                        ops.len() as int
                    } else {
                        j
                    };
                    parse_at(ops, j2, depth, acc.push(NodeV::Leaf(op)).push(NodeV::Internal(body)))
                },
                Err(_) => (Err(ParseErr::UnmatchedBracket(Some(op.loc.beg_pos()))), j),
            }
        } else if op.token is JumpNonZero {
            if depth > 0 {
                (Ok(acc.push(NodeV::Leaf(op))), i + 1)
            } else {
                (Err(ParseErr::UnmatchedBracket(Some(op.loc.beg_pos()))), i + 1)
            }
        } else {
            parse_at(ops, i + 1, depth, acc.push(NodeV::Leaf(op)))
        }
    }
}

/// The cursor that `parse_at` returns never moves backwards and never
/// passes the end of the input.
pub proof fn lemma_parse_at_bounds(ops: Seq<Op>, i: int, depth: nat, acc: Seq<NodeV>)
    requires
        0 <= i <= ops.len(),
    ensures
        i <= parse_at(ops, i, depth, acc).1 <= ops.len(),
    decreases ops.len() - i,
{
    if i < ops.len() {
        let op = ops[i];
        if op.token is JumpZero {
            lemma_parse_at_bounds(ops, i + 1, depth + 1, Seq::empty());
            let (sub, j) = parse_at(ops, i + 1, depth + 1, Seq::empty());
            if sub is Ok {
                lemma_parse_at_bounds(
                    ops,
                    j,
                    depth,
                    acc.push(NodeV::Leaf(op)).push(NodeV::Internal(sub->Ok_0)),
                );
            }
        } else if op.token is JumpZero || op.token is JumpNonZero {
        } else {
            lemma_parse_at_bounds(ops, i + 1, depth, acc.push(NodeV::Leaf(op)));
        }
    }
}

/// The tree that `build_tree` describes: recursive descent from the start
/// of `ops` at depth 0.
pub open spec fn build_tree_spec(ops: Seq<Op>) -> Result<Seq<NodeV>, ParseErr> {
    parse_at(ops, 0, 0, Seq::empty()).0
}

/// One level of recursive descent, executably: builds the nodes of the
/// current level from cursor `start`, recursing for each loop body.
fn parse_tree(ops: &Vec<Op>, start: usize, depth: usize) -> (r: (Result<Tree<Op>, ParseErr>, usize))
    requires
        start <= ops@.len(),
        depth <= start,
    ensures
        ({
            let (sr, sj) = parse_at(ops@, start as int, depth as nat, Seq::empty());
            r.1 == sj && start <= r.1 <= ops@.len() && (match (r.0, sr) {
                (Ok(t), Ok(tv)) => branch_view(t) == tv,
                (Err(e1), Err(e2)) => e1 == e2,
                _ => false,
            })
        }),
    decreases ops@.len() - start,
{
    proof {
        lemma_parse_at_bounds(ops@, start as int, depth as nat, Seq::empty());
    }
    let mut tree: Tree<Op> = Vec::new();
    let mut i: usize = start;
    while i < ops.len()
        invariant
            start <= i <= ops@.len(),
            depth <= start,
            parse_at(ops@, start as int, depth as nat, Seq::empty()) == parse_at(
                ops@,
                i as int,
                depth as nat,
                branch_view(tree),
            ),
        decreases ops@.len() - i,
    {
        let op = ops[i];
        let ghost acc = branch_view(tree);
        if op.token == Token::JumpZero {
            let (sub, j) = parse_tree(ops, i + 1, depth + 1);
            match sub {
                Ok(body) => {
                    proof {
                        lemma_parse_at_bounds(ops@, i + 1, (depth + 1) as nat, Seq::empty());
                    }
                    let ghost t0 = tree;
                    tree.push(Node::Leaf(op));
                    proof {
                        lemma_branch_view_push(t0, tree, Node::Leaf(op));
                    }
                    let ghost t1 = tree;
                    let ghost bv = branch_view(body);
                    tree.push(Node::Internal(body));
                    proof {
                        lemma_branch_view_push(t1, tree, Node::Internal(body));
                        assert(branch_view(tree) == acc.push(NodeV::Leaf(op)).push(
                            NodeV::Internal(bv),
                        ));
                    }
                    i = j;
                },
                Err(_) => {
                    return (
                        (
                            Err(ParseErr::UnmatchedBracket(Some(op.loc.into_beg_or_pos()))),
                            j,
                        )
                    );
                },
            }
        } else if op.token == Token::JumpNonZero {
            if depth > 0 {
                let ghost t0 = tree;
                tree.push(Node::Leaf(op));
                proof {
                    lemma_branch_view_push(t0, tree, Node::Leaf(op));
                }
                return ((Ok(tree), i + 1));
            } else {
                return (
                    (
                        Err(ParseErr::UnmatchedBracket(Some(op.loc.into_beg_or_pos()))),
                        i + 1,
                    )
                );
            }
        } else {
            let ghost t0 = tree;
            tree.push(Node::Leaf(op));
            proof {
                lemma_branch_view_push(t0, tree, Node::Leaf(op));
            }
            i = i + 1;
        }
    }
    if depth == 0 {
        ((Ok(tree), i))
    } else {
        ((Err(ParseErr::UnmatchedBracket(None)), i))
    }
}

/// Builds the program tree from a collapsed operation sequence, validating
/// bracket matching.
pub fn into_tree(source: Vec<Op>) -> (r: Result<Tree<Op>, ParseErr>)
    ensures
        ({
            let sr = build_tree_spec(source@);
            match r {
                Ok(t) => sr == Ok::<Seq<NodeV>, ParseErr>(branch_view(t)),
                Err(e) => sr == Err::<Seq<NodeV>, ParseErr>(e),
            }
        }),
{
    parse_tree(&source, 0, 0).0
}

/// What [`parse`] builds from a source text: lexing, collapsing, then tree
/// construction.
pub open spec fn parse_spec(s: Seq<char>) -> Result<Seq<NodeV>, ParseErr> {
    build_tree_spec(collapse_spec(lex_spec(s)))
}

/// The whole front half of the pipeline: lexes the source text, collapses
/// runs, and builds the program tree, reporting an unmatched bracket with
/// the most specific location available.
pub fn parse(source: String) -> (r: Result<Tree<Op>, Error>)
    ensures
        ({
            let sr = parse_spec(source@);
            match r {
                Ok(t) => sr == Ok::<Seq<NodeV>, ParseErr>(branch_view(t)),
                Err(Error::ParseErr(e)) => sr == Err::<Seq<NodeV>, ParseErr>(e),
            }
        }),
{
    let tokens = lex(source);
    let ops = collapse(tokens);
    match into_tree(ops) {
        Ok(tree) => Ok(tree),
        Err(e) => Err(Error::from(e)),
    }
}

/// How one token changes the bracket nesting depth.
pub open spec fn depth_delta(t: Token) -> int {
    if t is JumpZero {
        1
    } else if t is JumpNonZero {
        -1
    } else {
        0
    }
}

/// The bracket nesting depth in front of position `i`.
pub open spec fn depth_at(ops: Seq<Op>, i: int) -> int
    decreases i,
{
    if i <= 0 {
        0
    } else {
        depth_at(ops, i - 1) + depth_delta(ops[i - 1].token)
    }
}

/// A balanced program: the nesting depth never dips below zero and ends
/// at zero.
pub open spec fn balanced(ops: Seq<Op>) -> bool {
    &&& forall|i: int| 0 <= i <= ops.len() ==> #[trigger] depth_at(ops, i) >= 0
    &&& depth_at(ops, ops.len() as int) == 0
}

/// The first position from `i` on after which the depth has dropped below
/// `d`; the input's length if there is none.
pub open spec fn first_below(ops: Seq<Op>, i: int, d: int) -> int
    decreases ops.len() - i,
{
    if i < 0 || i >= ops.len() {
        ops.len() as int
    } else if depth_at(ops, i + 1) < d {
        i
    } else {
        first_below(ops, i + 1, d)
    }
}

/// The last position up to `j` in front of which the depth is `d`; -1 if
/// there is none.
pub open spec fn last_eq(ops: Seq<Op>, j: int, d: int) -> int
    decreases j + 1,
{
    if j < 0 {
        -1
    } else if depth_at(ops, j) == d {
        j
    } else {
        last_eq(ops, j - 1, d)
    }
}

proof fn lemma_first_below_props(ops: Seq<Op>, i: int, d: int)
    requires
        0 <= i <= ops.len(),
    ensures
        i <= first_below(ops, i, d) <= ops.len(),
        forall|m: int| i <= m < first_below(ops, i, d) ==> #[trigger] depth_at(ops, m + 1) >= d,
        first_below(ops, i, d) < ops.len() ==> depth_at(ops, first_below(ops, i, d) + 1) < d,
    decreases ops.len() - i,
{
    if i < ops.len() && !(depth_at(ops, i + 1) < d) {
        lemma_first_below_props(ops, i + 1, d);
    }
}

proof fn lemma_first_below_skip(ops: Seq<Op>, i: int, k: int, d: int)
    requires
        0 <= i <= k <= ops.len(),
        forall|m: int| i <= m < k ==> #[trigger] depth_at(ops, m + 1) >= d,
    ensures
        first_below(ops, i, d) == first_below(ops, k, d),
    decreases k - i,
{
    if i < k {
        lemma_first_below_skip(ops, i + 1, k, d);
    }
}

proof fn lemma_last_eq_skip(ops: Seq<Op>, j: int, i: int, d: int)
    requires
        -1 <= i <= j,
        forall|m: int| i < m <= j ==> #[trigger] depth_at(ops, m) != d,
    ensures
        last_eq(ops, j, d) == last_eq(ops, i, d),
    decreases j + 1 - i,
{
    if i < j {
        lemma_last_eq_skip(ops, j - 1, i, d);
    }
}

/// What recursive descent returns, characterised by the depth profile of
/// the input from the cursor on.  With `d` the depth in front of `i`:
/// - if some suffix position first drops below `d`, that close ends the
///   level: success past it at depth > 0, an unmatched close with its own
///   position at depth 0;
/// - otherwise, if the depth comes back to `d` for the last time at the
///   very end, the level runs out: success at depth 0, an unmatched
///   bracket without a position otherwise;
/// - otherwise the opener after the last return to `d` is never closed,
///   and its position is reported.
#[verifier::rlimit(100)]
pub proof fn lemma_parse_at_characterised(ops: Seq<Op>, i: int, depth: nat, acc: Seq<NodeV>)
    requires
        0 <= i <= ops.len(),
    ensures
        ({
            let d = depth_at(ops, i);
            let j = first_below(ops, i, d);
            let (r, nxt) = parse_at(ops, i, depth, acc);
            if j < ops.len() {
                if depth > 0 {
                    r is Ok && nxt == j + 1
                } else {
                    r == Err::<Seq<NodeV>, ParseErr>(
                        ParseErr::UnmatchedBracket(Some(ops[j].loc.beg_pos())),
                    )
                }
            } else {
                let j0 = last_eq(ops, ops.len() as int, d);
                if j0 == ops.len() {
                    if depth == 0 {
                        r is Ok
                    } else {
                        r == Err::<Seq<NodeV>, ParseErr>(ParseErr::UnmatchedBracket(None))
                    }
                } else {
                    r == Err::<Seq<NodeV>, ParseErr>(
                        ParseErr::UnmatchedBracket(Some(ops[j0].loc.beg_pos())),
                    )
                }
            }
        }),
    decreases ops.len() - i,
{
    let d = depth_at(ops, i);
    if i == ops.len() {
        assert(first_below(ops, i, d) == ops.len());
        assert(last_eq(ops, ops.len() as int, d) == ops.len());
    } else {
        let op = ops[i];
        assert(depth_at(ops, i + 1) == d + depth_delta(op.token));
        if op.token is JumpZero {
            let sub = parse_at(ops, i + 1, depth + 1, Seq::empty());
            lemma_parse_at_bounds(ops, i + 1, depth + 1, Seq::empty());
            lemma_parse_at_characterised(ops, i + 1, depth + 1, Seq::empty());
            let d1 = depth_at(ops, i + 1);
            assert(d1 == d + 1);
            let jp = first_below(ops, i + 1, d1);
            lemma_first_below_props(ops, i + 1, d1);
            if jp < ops.len() {
                // the loop body closes at jp; the level continues past it
                assert(sub.0 is Ok);
                assert(sub.1 == jp + 1);
                assert(depth_at(ops, jp + 1) < d1);
                if jp > i + 1 {
                    assert(depth_at(ops, (jp - 1) + 1) >= d1);
                }
                assert(depth_at(ops, jp) >= d1);
                assert(depth_at(ops, jp + 1) == depth_at(ops, jp) + depth_delta(ops[jp].token));
                assert(depth_at(ops, jp + 1) == d);
                lemma_parse_at_characterised(
                    ops,
                    jp + 1,
                    depth,
                    acc.push(NodeV::Leaf(op)).push(NodeV::Internal(sub.0->Ok_0)),
                );
                assert forall|m: int| i <= m < jp + 1 implies #[trigger] depth_at(ops, m + 1)
                    >= d by {
                    if m == i {
                    } else if m < jp {
                        assert(depth_at(ops, m + 1) >= d1);
                    }
                }
                lemma_first_below_skip(ops, i, jp + 1, d);
                assert forall|m: int| jp + 1 < m <= jp + 1 implies #[trigger] depth_at(ops, m)
                    != d by {}
            } else {
                // the loop body never closes: rewrap with this opener
                assert(sub.0 is Err);
                assert forall|m: int| i <= m < ops.len() implies #[trigger] depth_at(ops, m + 1)
                    >= d by {
                    if m > i {
                        assert(depth_at(ops, m + 1) >= d1);
                    }
                }
                lemma_first_below_skip(ops, i, ops.len() as int, d);
                assert(first_below(ops, i, d) == ops.len());
                assert forall|m: int| i < m <= ops.len() implies #[trigger] depth_at(ops, m)
                    != d by {
                    if m == i + 1 {
                    } else {
                        assert(depth_at(ops, (m - 1) + 1) >= d1);
                        assert(depth_at(ops, m) >= d1);
                    }
                }
                lemma_last_eq_skip(ops, ops.len() as int, i, d);
                assert(last_eq(ops, i, d) == i);
            }
        } else if op.token is JumpNonZero {
            assert(depth_at(ops, i + 1) == d - 1);
            assert(first_below(ops, i, d) == i);
        } else {
            assert(depth_at(ops, i + 1) == d);
            lemma_parse_at_characterised(ops, i + 1, depth, acc.push(NodeV::Leaf(op)));
        }
    }
}

/// `build_tree` on a balanced program always succeeds.
pub proof fn lemma_balanced_builds(ops: Seq<Op>)
    requires
        balanced(ops),
    ensures
        build_tree_spec(ops) is Ok,
{
    lemma_parse_at_characterised(ops, 0, 0, Seq::empty());
    assert forall|m: int| 0 <= m < ops.len() implies #[trigger] depth_at(ops, m + 1) >= 0 by {
        assert(depth_at(ops, m + 1) >= 0);
    }
    lemma_first_below_skip(ops, 0, ops.len() as int, 0);
    assert(first_below(ops, 0, 0) == ops.len());
    assert(last_eq(ops, ops.len() as int, 0) == ops.len());
}

/// `build_tree` on input whose first unmatched bracket is a close fails
/// with exactly that close's position.
pub proof fn lemma_unmatched_close_reported(ops: Seq<Op>, j: int)
    requires
        0 <= j < ops.len(),
        depth_at(ops, j + 1) < 0,
        forall|m: int| 0 <= m < j ==> #[trigger] depth_at(ops, m + 1) >= 0,
    ensures
        ops[j].token is JumpNonZero,
        build_tree_spec(ops) == Err::<Seq<NodeV>, ParseErr>(
            ParseErr::UnmatchedBracket(Some(ops[j].loc.beg_pos())),
        ),
{
    lemma_parse_at_characterised(ops, 0, 0, Seq::empty());
    lemma_first_below_skip(ops, 0, j, 0);
    assert(first_below(ops, j, 0) == j);
    assert(depth_at(ops, j) >= 0) by {
        if j > 0 {
            assert(depth_at(ops, j) == depth_at(ops, (j - 1) + 1));
        }
    }
    assert(depth_at(ops, j + 1) == depth_at(ops, j) + depth_delta(ops[j].token));
}

/// `build_tree` on input that ends still open fails with the position of
/// the outermost `JumpZero` that is never closed: the opener after the
/// last return to depth zero.
pub proof fn lemma_unclosed_open_reported(ops: Seq<Op>, j0: int)
    requires
        0 <= j0 < ops.len(),
        depth_at(ops, j0) == 0,
        forall|m: int| 0 <= m <= ops.len() ==> #[trigger] depth_at(ops, m) >= 0,
        forall|m: int| j0 < m <= ops.len() ==> #[trigger] depth_at(ops, m) > 0,
    ensures
        ops[j0].token is JumpZero,
        build_tree_spec(ops) == Err::<Seq<NodeV>, ParseErr>(
            ParseErr::UnmatchedBracket(Some(ops[j0].loc.beg_pos())),
        ),
{
    lemma_parse_at_characterised(ops, 0, 0, Seq::empty());
    assert forall|m: int| 0 <= m < ops.len() implies #[trigger] depth_at(ops, m + 1) >= 0 by {
        assert(depth_at(ops, m + 1) >= 0);
    }
    lemma_first_below_skip(ops, 0, ops.len() as int, 0);
    assert(first_below(ops, 0, 0) == ops.len());
    assert forall|m: int| j0 < m <= ops.len() implies #[trigger] depth_at(ops, m) != 0 by {}
    lemma_last_eq_skip(ops, ops.len() as int, j0, 0);
    assert(last_eq(ops, j0, 0) == j0);
    assert(depth_at(ops, j0 + 1) > 0);
    assert(depth_at(ops, j0 + 1) == depth_at(ops, j0) + depth_delta(ops[j0].token));
}

proof fn lemma_guarded_push(lvl: Seq<NodeV>, x: NodeV, i: int)
    requires
        0 <= i <= lvl.len(),
        guarded_from(lvl, i),
        (match x {
            NodeV::Internal(b) => guarded_from(b, 0),
            NodeV::Leaf(_) => true,
        }),
        lvl.len() > 0 ==> (match lvl.last() {
            NodeV::Leaf(op) => op.token is JumpZero ==> x is Internal,
            NodeV::Internal(_) => true,
        }),
    ensures
        guarded_from(lvl.push(x), i),
    decreases lvl.len() - i,
{
    reveal_with_fuel(guarded_from, 2);
    if i < lvl.len() {
        lemma_guarded_push(lvl, x, i + 1);
        assert(lvl.push(x)[i] == lvl[i]);
        if i + 1 < lvl.len() {
            assert(lvl.push(x)[i + 1] == lvl[i + 1]);
        } else {
            assert(lvl.push(x)[i + 1] == x);
        }
    } else {
        assert(lvl.push(x)[i] == x);
    }
}

/// Whatever level recursive descent hands back is guarded: every
/// `JumpZero` leaf is at once followed by the `Internal` node holding its
/// body, there and in every nested level.
pub proof fn lemma_parse_at_guarded(ops: Seq<Op>, i: int, depth: nat, acc: Seq<NodeV>)
    requires
        0 <= i <= ops.len(),
        guarded_from(acc, 0),
        acc.len() > 0 ==> (match acc.last() {
            NodeV::Leaf(op) => !(op.token is JumpZero),
            NodeV::Internal(_) => true,
        }),
    ensures
        (parse_at(ops, i, depth, acc).0 matches Ok(t) ==> guarded_from(t, 0)),
    decreases ops.len() - i,
{
    if i < ops.len() {
        let op = ops[i];
        if op.token is JumpZero {
            lemma_parse_at_bounds(ops, i + 1, depth + 1, Seq::empty());
            lemma_parse_at_guarded(ops, i + 1, depth + 1, Seq::empty());
            let (sub, j) = parse_at(ops, i + 1, depth + 1, Seq::empty());
            if sub is Ok {
                let body = sub->Ok_0;
                let a1 = acc.push(NodeV::Leaf(op));
                let a2 = a1.push(NodeV::Internal(body));
                lemma_guarded_push(acc, NodeV::Leaf(op), 0);
                assert(a1.last() == NodeV::Leaf(op));
                lemma_guarded_push(a1, NodeV::Internal(body), 0);
                assert(a2.last() == NodeV::Internal(body));
                lemma_parse_at_guarded(ops, j, depth, a2);
            }
        } else if op.token is JumpNonZero {
            if depth > 0 {
                lemma_guarded_push(acc, NodeV::Leaf(op), 0);
                assert(acc.push(NodeV::Leaf(op)).last() == NodeV::Leaf(op));
            }
        } else {
            lemma_guarded_push(acc, NodeV::Leaf(op), 0);
            assert(acc.push(NodeV::Leaf(op)).last() == NodeV::Leaf(op));
            lemma_parse_at_guarded(ops, i + 1, depth, acc.push(NodeV::Leaf(op)));
        }
    }
}

/// A tree built by `build_tree` is guarded, so the expansion law of the
/// interpreter applies to it.
pub proof fn lemma_built_tree_guarded(ops: Seq<Op>)
    ensures
        (build_tree_spec(ops) matches Ok(t) ==> guarded_from(t, 0)),
{
    lemma_parse_at_guarded(ops, 0, 0, Seq::empty());
}

/// `us` spells out `cs` operation by operation: each counted repeatable
/// operation of `cs` as that many unit operations of its kind, each
/// loop-control operation as itself.
pub open spec fn ops_expand(cs: Seq<Op>, us: Seq<Op>) -> bool
    decreases cs.len(),
{
    if cs.len() == 0 {
        us.len() == 0
    } else {
        let op = cs[0];
        if op.token.is_repeatable() {
            &&& op.count >= 1
            &&& op.count <= us.len()
            &&& forall|j: int|
                0 <= j < op.count ==> (#[trigger] us[j]).token == op.token && us[j].count == 1
            &&& ops_expand(cs.skip(1), us.skip(op.count as int))
        } else {
            &&& op.count == 1
            &&& us.len() >= 1
            &&& us[0].token == op.token
            &&& us[0].count == 1
            &&& ops_expand(cs.skip(1), us.skip(1))
        }
    }
}

proof fn lemma_ops_expand_run_prefix(g: Seq<Op>, cs2: Seq<Op>, us2: Seq<Op>)
    requires
        forall|j: int| 0 <= j < g.len() ==> (#[trigger] g[j]).count == 1,
        ops_expand(cs2, us2),
    ensures
        ops_expand(g + cs2, g + us2),
    decreases g.len(),
{
    if g.len() == 0 {
        assert(g + cs2 =~= cs2);
        assert(g + us2 =~= us2);
    } else {
        lemma_ops_expand_run_prefix(g.skip(1), cs2, us2);
        let c = g + cs2;
        let u = g + us2;
        assert(c[0] == g[0]);
        assert(u[0] == g[0]);
        assert(c.skip(1) =~= g.skip(1) + cs2);
        assert(u.skip(1) =~= g.skip(1) + us2);
    }
}

/// The collapse of a sequence of unit operations spells out to it.
pub proof fn lemma_collapse_expands(us: Seq<Op>)
    requires
        us.len() <= usize::MAX,
        forall|j: int| 0 <= j < us.len() ==> (#[trigger] us[j]).count == 1,
    ensures
        ops_expand(collapse_spec(us), us),
    decreases us.len(),
{
    if us.len() > 0 {
        crate::collapse::lemma_run_len(us);
        let k = crate::collapse::run_len(us);
        let head = crate::collapse::collapsed_head(us, k as int);
        let tail = us.skip(k as int);
        lemma_collapse_expands(tail);
        let c = collapse_spec(us);
        let ct = collapse_spec(tail);
        assert(c == head + ct);
        if us[0].token.is_repeatable() {
            assert(c[0] == head[0]);
            assert(c.skip(1) =~= ct);
            assert(forall|j: int|
                0 <= j < k ==> (#[trigger] us[j]).token == us[0].token && us[j].count == 1);
        } else {
            let g = us.subrange(0, k as int);
            lemma_ops_expand_run_prefix(g, ct, tail);
            assert(g + ct =~= c);
            assert(g + tail =~= us);
        }
    }
}

proof fn lemma_parse_units(us: Seq<Op>, ui: int, n: int, depth: nat, uacc: Seq<NodeV>)
    requires
        0 <= ui,
        0 <= n,
        ui + n <= us.len(),
        forall|j: int| ui <= j < ui + n ==> (#[trigger] us[j]).token.is_repeatable(),
    ensures
        parse_at(us, ui, depth, uacc) == parse_at(
            us,
            ui + n,
            depth,
            uacc + Seq::new(n as nat, |j: int| NodeV::Leaf(us[ui + j])),
        ),
    decreases n,
{
    if n == 0 {
        assert(uacc + Seq::new(0, |j: int| NodeV::Leaf(us[ui + j])) =~= uacc);
    } else {
        let op = us[ui];
        assert(!(op.token is JumpZero) && !(op.token is JumpNonZero));
        lemma_parse_units(us, ui + 1, n - 1, depth, uacc.push(NodeV::Leaf(op)));
        assert(uacc.push(NodeV::Leaf(op)) + Seq::new(
            (n - 1) as nat,
            |j: int| NodeV::Leaf(us[ui + 1 + j]),
        ) =~= uacc + Seq::new(n as nat, |j: int| NodeV::Leaf(us[ui + j])));
    }
}

/// Appending one collapsed node and the nodes that spell it out keeps two
/// levels in the expansion relation.
proof fn lemma_exp_append(a: Seq<NodeV>, i: int, b: Seq<NodeV>, j: int, x: NodeV, ys: Seq<NodeV>)
    requires
        0 <= i <= a.len(),
        0 <= j <= b.len(),
        crate::interpreter::exp_from(a, i, b, j),
        ys.len() >= 1,
        (match x {
            NodeV::Leaf(op) => if op.token.is_repeatable() {
                op.count == ys.len() && (forall|m: int|
                    0 <= m < ys.len() ==> ((#[trigger] ys[m]) matches NodeV::Leaf(y)
                        && y.token == op.token && y.count == 1))
            } else {
                op.count == 1 && ys.len() == 1 && (ys[0] matches NodeV::Leaf(y) && y.token
                    == op.token && y.count == 1)
            },
            NodeV::Internal(cb) => ys.len() == 1 && (ys[0] matches NodeV::Internal(ub)
                && crate::interpreter::exp_from(cb, 0, ub, 0)),
        }),
    ensures
        crate::interpreter::exp_from(a.push(x), i, b + ys, j),
    decreases a.len() - i,
{
    reveal_with_fuel(crate::interpreter::exp_from, 2);
    let a2 = a.push(x);
    let b2 = b + ys;
    if i == a.len() {
        assert(a2[i] == x);
        assert(forall|m: int| 0 <= m < ys.len() ==> b2[j + m] == ys[m]);
        match x {
            NodeV::Leaf(op) => {
                if op.token.is_repeatable() {
                    assert(crate::interpreter::exp_from(a2, i + 1, b2, j + op.count as int));
                } else {
                    assert(crate::interpreter::exp_from(a2, i + 1, b2, j + 1));
                }
            },
            NodeV::Internal(_) => {
                assert(crate::interpreter::exp_from(a2, i + 1, b2, j + 1));
            },
        }
    } else {
        assert(a2[i] == a[i]);
        match a[i] {
            NodeV::Leaf(op) => {
                if op.token.is_repeatable() {
                    assert(forall|m: int| j <= m < j + op.count ==> b2[m] == b[m]);
                    lemma_exp_append(a, i + 1, b, j + op.count as int, x, ys);
                } else {
                    assert(b2[j] == b[j]);
                    lemma_exp_append(a, i + 1, b, j + 1, x, ys);
                }
            },
            NodeV::Internal(_) => {
                assert(b2[j] == b[j]);
                lemma_exp_append(a, i + 1, b, j + 1, x, ys);
            },
        }
    }
}

/// Recursive descent builds expansion-related trees from expansion-related
/// inputs: collapsed and spelled-out operations parse together, and their
/// trees spell each other out level by level.
#[verifier::rlimit(100)]
proof fn lemma_parse_expand(
    cs: Seq<Op>,
    ci: int,
    us: Seq<Op>,
    ui: int,
    depth: nat,
    cacc: Seq<NodeV>,
    uacc: Seq<NodeV>,
)
    requires
        0 <= ci <= cs.len(),
        0 <= ui <= us.len(),
        ops_expand(cs.skip(ci), us.skip(ui)),
        exp_from(cacc, 0, uacc, 0),
    ensures
        ({
            let (rc, jc) = parse_at(cs, ci, depth, cacc);
            let (ru, ju) = parse_at(us, ui, depth, uacc);
            &&& (rc is Ok <==> ru is Ok)
            &&& (rc is Ok ==> ci <= jc <= cs.len() && ui <= ju <= us.len() && ops_expand(
                cs.skip(jc),
                us.skip(ju),
            ) && exp_from(rc->Ok_0, 0, ru->Ok_0, 0))
        }),
    decreases cs.len() - ci,
{
    reveal_with_fuel(exp_from, 2);
    let sc = cs.skip(ci);
    let su = us.skip(ui);
    if ci == cs.len() {
        assert(su.len() == 0);
        assert(ui == us.len());
    } else {
        let op = cs[ci];
        assert(sc[0] == op);
        if op.token.is_repeatable() {
            let n = op.count as int;
            assert forall|j: int| ui <= j < ui + n implies (#[trigger] us[j]).token == op.token
                && us[j].count == 1 by {
                assert(us[j] == su[j - ui]);
            }
            assert(forall|j: int|
                ui <= j < ui + n ==> (#[trigger] us[j]).token.is_repeatable());
            lemma_parse_units(us, ui, n, depth, uacc);
            let leaves = Seq::new(n as nat, |j: int| NodeV::Leaf(us[ui + j]));
            lemma_exp_append(cacc, 0, uacc, 0, NodeV::Leaf(op), leaves);
            assert(sc.skip(1) =~= cs.skip(ci + 1));
            assert(su.skip(n) =~= us.skip(ui + n));
            lemma_parse_expand(
                cs,
                ci + 1,
                us,
                ui + n,
                depth,
                cacc.push(NodeV::Leaf(op)),
                uacc + leaves,
            );
        } else if op.token is JumpZero {
            assert(su[0] == us[ui]);
            assert(us[ui].token == op.token && us[ui].count == 1);
            assert(sc.skip(1) =~= cs.skip(ci + 1));
            assert(su.skip(1) =~= us.skip(ui + 1));
            lemma_parse_expand(
                cs,
                ci + 1,
                us,
                ui + 1,
                (depth + 1) as nat,
                Seq::empty(),
                Seq::empty(),
            );
            lemma_parse_at_bounds(cs, ci + 1, (depth + 1) as nat, Seq::empty());
            lemma_parse_at_bounds(us, ui + 1, (depth + 1) as nat, Seq::empty());
            let (sub_c, jc1) = parse_at(cs, ci + 1, depth + 1, Seq::empty());
            let (sub_u, ju1) = parse_at(us, ui + 1, depth + 1, Seq::empty());
            if sub_c is Ok {
                let cbody = sub_c->Ok_0;
                let ubody = sub_u->Ok_0;
                let a1 = cacc.push(NodeV::Leaf(op));
                let b1 = uacc.push(NodeV::Leaf(us[ui]));
                lemma_exp_append(cacc, 0, uacc, 0, NodeV::Leaf(op), seq![NodeV::Leaf(us[ui])]);
                assert(uacc + seq![NodeV::Leaf(us[ui])] =~= b1);
                lemma_exp_append(a1, 0, b1, 0, NodeV::Internal(cbody), seq![
                    NodeV::Internal(ubody),
                ]);
                assert(b1 + seq![NodeV::Internal(ubody)] =~= b1.push(NodeV::Internal(ubody)));
                lemma_parse_expand(
                    cs,
                    jc1,
                    us,
                    ju1,
                    depth,
                    a1.push(NodeV::Internal(cbody)),
                    b1.push(NodeV::Internal(ubody)),
                );
            }
        } else {
            assert(su[0] == us[ui]);
            assert(us[ui].token == op.token && us[ui].count == 1);
            if depth > 0 {
                lemma_exp_append(cacc, 0, uacc, 0, NodeV::Leaf(op), seq![NodeV::Leaf(us[ui])]);
                assert(uacc + seq![NodeV::Leaf(us[ui])] =~= uacc.push(NodeV::Leaf(us[ui])));
                assert(sc.skip(1) =~= cs.skip(ci + 1));
                assert(su.skip(1) =~= us.skip(ui + 1));
            }
        }
    }
}

/// Round trip: a program of unit operations and its collapse build trees
/// together, and interpreting the tree built from the collapsed program
/// and the degenerate all-unit tree built from the original sequence
/// produces identical output, final tape contents, spent budget and
/// fault, against every starting tape, pointer and step budget.  Only the
/// data pointer may differ, and only when a fault stopped both runs
/// mid-move.
pub proof fn lemma_round_trip(ops: Seq<Op>, tape: Seq<u8>, ptr: nat, steps: nat)
    requires
        ops.len() <= usize::MAX,
        forall|j: int| 0 <= j < ops.len() ==> (#[trigger] ops[j]).count == 1,
    ensures
        build_tree_spec(collapse_spec(ops)) is Ok <==> build_tree_spec(ops) is Ok,
        build_tree_spec(collapse_spec(ops)) is Ok ==> crate::interpreter::res_sim(
            crate::interpreter::run_level(build_tree_spec(ops)->Ok_0, 0, tape, ptr, steps),
            crate::interpreter::run_level(
                build_tree_spec(collapse_spec(ops))->Ok_0,
                0,
                tape,
                ptr,
                steps,
            ),
        ),
{
    lemma_collapse_expands(ops);
    let cs = collapse_spec(ops);
    assert(cs.skip(0) =~= cs);
    assert(ops.skip(0) =~= ops);
    assert(exp_from(Seq::<NodeV>::empty(), 0, Seq::<NodeV>::empty(), 0));
    lemma_parse_expand(cs, 0, ops, 0, 0, Seq::empty(), Seq::empty());
    if build_tree_spec(cs) is Ok {
        lemma_built_tree_guarded(cs);
        crate::interpreter::lemma_expansion_runs_alike(
            build_tree_spec(cs)->Ok_0,
            build_tree_spec(ops)->Ok_0,
            tape,
            ptr,
            steps,
        );
    }
}

} // verus!
