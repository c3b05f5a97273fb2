use vstd::prelude::*;
use itertools::Itertools;
use crate::location::Loc;
use crate::token::{Op, Token};

verus! {

/// The length of the maximal leading run of operations sharing the first
/// operation's token; 0 on an empty sequence.
pub open spec fn run_len(s: Seq<Op>) -> nat
    decreases s.len(),
{
    if s.len() == 0 {
        0
    } else if s.len() == 1 || s[1].token != s[0].token {
        1
    } else {
        (1 + run_len(s.drop_first())) as nat
    }
}

/// The leading run is nonempty, uniform in the first token, and maximal.
pub proof fn lemma_run_len(s: Seq<Op>)
    requires
        s.len() > 0,
    ensures
        1 <= run_len(s) <= s.len(),
        forall|j: int| 0 <= j < run_len(s) ==> (#[trigger] s[j]).token == s[0].token,
        run_len(s) < s.len() ==> s[run_len(s) as int].token != s[0].token,
    decreases s.len(),
{
    if s.len() > 1 && s[1].token == s[0].token {
        lemma_run_len(s.drop_first());
        assert(forall|j: int|
            1 <= j < run_len(s) ==> s[j] == s.drop_first()[j - 1]);
        if run_len(s) < s.len() {
            assert(s[run_len(s) as int] == s.drop_first()[run_len(s) - 1]);
        }
    }
}

/// The operations that stand for the leading run of length `k` of `s`:
/// a repeatable run becomes one operation counting the run, whose location
/// spans from the first element's begin to the last element's end; a run of
/// loop-control tokens is kept as it is.
pub open spec fn collapsed_head(s: Seq<Op>, k: int) -> Seq<Op> {
    if s[0].token.is_repeatable() {
        seq![
            Op {
                token: s[0].token,
                count: k as usize,
                loc: Loc::spec_new_min(s[0].loc.beg_pos(), s[k - 1].loc.end_pos()),
            },
        ]
    } else {
        s.subrange(0, k)
    }
}

/// The run-length collapse of an operation sequence: maximal runs of one
/// repeatable kind merge into one counted operation; loop-control tokens
/// pass through unchanged.
pub open spec fn collapse_spec(s: Seq<Op>) -> Seq<Op>
    decreases s.len(),
{
    if s.len() == 0 {
        Seq::empty()
    } else {
        let k = if run_len(s) < 1 || run_len(s) > s.len() {
            1nat
        } else {
            run_len(s)
        };
        collapsed_head(s, k as int) + collapse_spec(s.skip(k as int))
    }
}

/// The groups' contents concatenated, from group `i` on.
spec fn groups_cat(gs: Seq<(Token, Vec<Op>)>, i: int) -> Seq<Op>
    decreases gs.len() - i,
{
    if i < 0 || i >= gs.len() {
        Seq::empty()
    } else {
        gs[i].1@ + groups_cat(gs, i + 1)
    }
}

/// A well-formed grouping into runs: every group nonempty and uniform in its
/// key token, and adjacent groups keyed by different tokens.
spec fn groups_wf(gs: Seq<(Token, Vec<Op>)>) -> bool {
    &&& forall|i: int| 0 <= i < gs.len() ==> #[trigger] gs[i].1@.len() > 0
    &&& forall|i: int, j: int|
        0 <= i < gs.len() && 0 <= j < gs[i].1@.len() ==> (#[trigger] gs[i].1@[j]).token
            == gs[i].0
    &&& forall|i: int|
        0 <= i && i + 1 < gs.len() ==> #[trigger] gs[i].0 != #[trigger] gs[i + 1].0
}

/// Relies on itertools' `chunk_by`: consecutive elements mapping to the same
/// key (here, the operation's token) form one group, and the groups come out
/// in order, each with its key.
#[verifier::external_body]
fn chunk_runs(ops: Vec<Op>) -> (r: Vec<(Token, Vec<Op>)>)
    ensures
        groups_cat(r@, 0) == ops@,
        groups_wf(r@),
{
    ops.into_iter()
        .chunk_by(|op| op.token)
        .into_iter()
        .map(|(token, chunk)| (token, chunk.collect()))
        .collect()
}

/// A leading run of `g.len()` equal tokens followed by a different token
/// is found by `run_len`.
proof fn lemma_run_len_of_group(g: Seq<Op>, rest: Seq<Op>)
    requires
        g.len() > 0,
        forall|j: int| 0 <= j < g.len() ==> #[trigger] g[j].token == g[0].token,
        rest.len() > 0 ==> rest[0].token != g[0].token,
    ensures
        run_len(g + rest) == g.len(),
    decreases g.len(),
{
    let s = g + rest;
    if g.len() == 1 {
        if rest.len() == 0 {
            assert(s.len() == 1);
        } else {
            assert(s[1] == rest[0]);
        }
    } else {
        assert(s[1] == g[1]);
        assert(s[1].token == s[0].token);
        assert(s.drop_first() =~= g.drop_first() + rest);
        lemma_run_len_of_group(g.drop_first(), rest);
    }
}

/// One well-formed group contributes exactly one collapsed head.
proof fn lemma_collapse_step(gs: Seq<(Token, Vec<Op>)>, i: int)
    requires
        groups_wf(gs),
        0 <= i < gs.len(),
    ensures
        groups_cat(gs, i).len() > 0,
        run_len(groups_cat(gs, i)) == gs[i].1@.len(),
        collapse_spec(groups_cat(gs, i)) == collapsed_head(groups_cat(gs, i), gs[i].1@.len() as int)
            + collapse_spec(groups_cat(gs, i + 1)),
        forall|j: int|
            0 <= j < gs[i].1@.len() ==> groups_cat(gs, i)[j] == gs[i].1@[j],
{
    let g = gs[i].1@;
    let rest = groups_cat(gs, i + 1);
    let s = groups_cat(gs, i);
    assert(s == g + rest);
    if i + 1 < gs.len() {
        assert(rest == gs[i + 1].1@ + groups_cat(gs, i + 2));
        assert(rest[0] == gs[i + 1].1@[0]);
        assert(rest[0].token == gs[i + 1].0);
    }
    assert(g[0].token == gs[i].0);
    lemma_run_len_of_group(g, rest);
    assert(s.skip(g.len() as int) =~= rest);
    assert(forall|j: int| 0 <= j < g.len() ==> s[j] == g[j]);
}

/// The token kinds of a sequence of operations, one per operation.
pub open spec fn op_kinds(s: Seq<Op>) -> Seq<Token> {
    Seq::new(s.len(), |i: int| s[i].token)
}

/// The token kinds of a sequence of operations, written out one token per
/// counted repetition: what the operations stand for character by
/// character.
pub open spec fn expand_kinds(s: Seq<Op>) -> Seq<Token>
    decreases s.len(),
{
    if s.len() == 0 {
        Seq::empty()
    } else {
        Seq::new(s[0].count as nat, |j: int| s[0].token) + expand_kinds(s.drop_first())
    }
}

proof fn lemma_expand_kinds_cat(a: Seq<Op>, b: Seq<Op>)
    ensures
        expand_kinds(a + b) == expand_kinds(a) + expand_kinds(b),
    decreases a.len(),
{
    if a.len() == 0 {
        assert(a + b =~= b);
        assert(expand_kinds(a) + expand_kinds(b) =~= expand_kinds(b));
    } else {
        assert((a + b).drop_first() =~= a.drop_first() + b);
        lemma_expand_kinds_cat(a.drop_first(), b);
        assert((a + b)[0] == a[0]);
        assert(Seq::new((a + b)[0].count as nat, |j: int| (a + b)[0].token) + (expand_kinds(
            a.drop_first(),
        ) + expand_kinds(b)) =~= (Seq::new(a[0].count as nat, |j: int| a[0].token) + expand_kinds(
            a.drop_first(),
        )) + expand_kinds(b));
    }
}

proof fn lemma_expand_kinds_ones(t: Seq<Op>)
    requires
        forall|i: int| 0 <= i < t.len() ==> (#[trigger] t[i]).count == 1,
    ensures
        expand_kinds(t) == op_kinds(t),
    decreases t.len(),
{
    if t.len() == 0 {
        assert(expand_kinds(t) =~= op_kinds(t));
    } else {
        lemma_expand_kinds_ones(t.drop_first());
        assert(op_kinds(t.drop_first()) =~= op_kinds(t).drop_first());
        assert(Seq::new(1, |j: int| t[0].token) + op_kinds(t).drop_first() =~= op_kinds(t));
    }
}

/// The sum of the counts over a collapsed repeatable run equals the number
/// of original operations of that kind in the run, and collapsing keeps
/// the relative order of distinct runs: written out one token per counted
/// repetition, the collapse of a sequence of unit operations spells
/// exactly the original kind sequence.
pub proof fn lemma_collapse_counts(s: Seq<Op>)
    requires
        s.len() <= usize::MAX,
        forall|i: int| 0 <= i < s.len() ==> (#[trigger] s[i]).count == 1,
    ensures
        expand_kinds(collapse_spec(s)) == op_kinds(s),
    decreases s.len(),
{
    if s.len() > 0 {
        lemma_run_len(s);
        let k = run_len(s);
        let head = collapsed_head(s, k as int);
        let tail = s.skip(k as int);
        assert(forall|i: int| 0 <= i < tail.len() ==> tail[i] == s[i + k]);
        lemma_collapse_counts(tail);
        lemma_expand_kinds_cat(head, collapse_spec(tail));
        if s[0].token.is_repeatable() {
            assert(head[0].count == k as usize);
            assert(head.drop_first() =~= Seq::<Op>::empty());
            assert(expand_kinds(head) == Seq::new(head[0].count as nat, |j: int| head[0].token)
                + expand_kinds(head.drop_first()));
            assert(expand_kinds(head) =~= Seq::new(k, |j: int| s[0].token));
        } else {
            lemma_expand_kinds_ones(head);
            assert(expand_kinds(head) =~= Seq::new(k, |j: int| s[0].token));
        }
        assert(Seq::new(k, |j: int| s[0].token) + op_kinds(tail) =~= op_kinds(s));
        assert(expand_kinds(collapse_spec(s)) =~= op_kinds(s));
    } else {
        assert(expand_kinds(collapse_spec(s)) =~= op_kinds(s));
    }
}

/// What the lexer hands to the collapser spells, token by token, exactly
/// the kind sequence the collapser's output spells counted out.
pub proof fn lemma_collapse_counts_of_lex(s: Seq<char>)
    requires
        crate::lex::lex_spec(s).len() <= usize::MAX,
    ensures
        expand_kinds(collapse_spec(crate::lex::lex_spec(s))) == op_kinds(crate::lex::lex_spec(s)),
{
    crate::lex::lemma_lex_from_unit(s, 0, 0, 0);
    lemma_collapse_counts(crate::lex::lex_spec(s));
}

/// A sequence in collapsed form: no repeatable operation is followed by
/// another of the same kind.
pub open spec fn collapsed_form(t: Seq<Op>) -> bool {
    forall|i: int|
        0 <= i && i + 1 < t.len() && (#[trigger] t[i]).token.is_repeatable() ==> (#[trigger] t[i
            + 1]).token != t[i].token
}

proof fn lemma_collapse_head_token(s: Seq<Op>)
    requires
        s.len() > 0,
    ensures
        collapse_spec(s).len() > 0,
        collapse_spec(s)[0].token == s[0].token,
{
    lemma_run_len(s);
}

/// The collapse of any sequence is in collapsed form.
#[verifier::rlimit(100)]
proof fn lemma_collapse_form(s: Seq<Op>)
    ensures
        collapsed_form(collapse_spec(s)),
    decreases s.len(),
{
    if s.len() > 0 {
        lemma_run_len(s);
        let k = run_len(s);
        let head = collapsed_head(s, k as int);
        let tail = s.skip(k as int);
        lemma_collapse_form(tail);
        let c = collapse_spec(s);
        let ct = collapse_spec(tail);
        assert(c == head + ct);
        if tail.len() > 0 {
            lemma_collapse_head_token(tail);
            assert(tail[0] == s[k as int]);
        }
        let hl = head.len() as int;
        assert(c.len() == hl + ct.len());
        assert forall|i: int|
            0 <= i && i + 1 < c.len() && (#[trigger] c[i]).token.is_repeatable() implies (
        #[trigger] c[i + 1]).token != c[i].token by {
            if s[0].token.is_repeatable() {
                assert(hl == 1);
                if i == 0 {
                    assert(c[0] == head[0]);
                    assert(c[1] == ct[0]);
                    assert(ct[0].token == tail[0].token);
                    assert(tail[0] == s[k as int]);
                    assert(c[1].token != c[0].token);
                }
            } else {
                assert(hl == k);
                if i + 1 < hl {
                    assert(c[i] == head[i]);
                    assert(head[i] == s[i]);
                    assert(s[i].token == s[0].token);
                    assert(!c[i].token.is_repeatable());
                } else if i + 1 == hl {
                    assert(c[i] == head[i]);
                    assert(head[i] == s[i]);
                    assert(s[i].token == s[0].token);
                    assert(!c[i].token.is_repeatable());
                }
            }
            if i >= hl {
                assert(c[i] == ct[i - hl]);
                assert(c[i + 1] == ct[i - hl + 1]);
                assert(ct[i - hl].token.is_repeatable() ==> ct[i - hl + 1].token != ct[i
                    - hl].token);
            }
        }
    }
}

/// A suffix of a sequence in collapsed form is in collapsed form.
proof fn lemma_collapsed_form_skip(t: Seq<Op>, k: int)
    requires
        collapsed_form(t),
        0 <= k <= t.len(),
    ensures
        collapsed_form(t.skip(k)),
{
    let u = t.skip(k);
    assert forall|i: int|
        0 <= i && i + 1 < u.len() && (#[trigger] u[i]).token.is_repeatable() implies (
    #[trigger] u[i + 1]).token != u[i].token by {
        assert(u[i] == t[i + k]);
        assert(u[i + 1] == t[i + k + 1]);
    }
}

/// Collapsing a sequence already in collapsed form keeps each kind in
/// place.
#[verifier::rlimit(100)]
proof fn lemma_collapse_kinds_elem(t: Seq<Op>)
    requires
        collapsed_form(t),
    ensures
        collapse_spec(t).len() == t.len(),
        forall|i: int|
            0 <= i < t.len() ==> (#[trigger] collapse_spec(t)[i]).token == t[i].token,
    decreases t.len(),
{
    if t.len() > 0 {
        lemma_run_len(t);
        let k = run_len(t);
        let head = collapsed_head(t, k as int);
        let tail = t.skip(k as int);
        assert(forall|i: int| 0 <= i < tail.len() ==> tail[i] == t[i + k]);
        if t[0].token.is_repeatable() {
            assert(k == 1) by {
                if k > 1 {
                    assert(t[1].token == t[0].token);
                }
            }
        }
        lemma_collapsed_form_skip(t, k as int);
        lemma_collapse_kinds_elem(tail);
        let c = collapse_spec(t);
        let ct = collapse_spec(tail);
        assert(c == head + ct);
        let hl = head.len() as int;
        assert(hl == k);
        assert(forall|i: int| 0 <= i < hl ==> (#[trigger] head[i]).token == t[i].token);
        assert forall|i: int| 0 <= i < t.len() implies (#[trigger] c[i]).token == t[i].token by {
            if i < hl {
                assert(c[i] == head[i]);
            } else {
                assert(c[i] == ct[i - hl]);
                assert(ct[i - hl].token == tail[i - hl].token);
                assert(tail[i - hl] == t[i]);
            }
        }
    }
}

/// Collapsing a sequence already in collapsed form keeps its kinds.
proof fn lemma_collapse_kinds_of_collapsed(t: Seq<Op>)
    requires
        collapsed_form(t),
    ensures
        op_kinds(collapse_spec(t)) == op_kinds(t),
{
    lemma_collapse_kinds_elem(t);
    assert(op_kinds(collapse_spec(t)) =~= op_kinds(t));
}

/// Collapsing is idempotent on the kind sequence: collapsing twice yields
/// the same kinds, in the same order, as collapsing once.
pub proof fn lemma_collapse_idempotent_kinds(s: Seq<Op>)
    ensures
        op_kinds(collapse_spec(collapse_spec(s))) == op_kinds(collapse_spec(s)),
{
    lemma_collapse_form(s);
    lemma_collapse_kinds_of_collapsed(collapse_spec(s));
}

/// Lexing followed by collapsing is idempotent on the kind sequence.
pub proof fn lemma_lex_collapse_idempotent_kinds(s: Seq<char>)
    ensures
        op_kinds(collapse_spec(collapse_spec(crate::lex::lex_spec(s)))) == op_kinds(
            collapse_spec(crate::lex::lex_spec(s)),
        ),
{
    lemma_collapse_idempotent_kinds(crate::lex::lex_spec(s));
}

/// Rewrites runs of identical repeatable operations into one counted
/// operation spanning the run's source range; loop-control tokens pass
/// through one by one, never merged.  A pure transformation: the sole
/// optimisation of the pipeline.
pub fn collapse(source: Vec<Op>) -> (r: Vec<Op>)
    ensures
        r@ == collapse_spec(source@),
{
    let ghost src = source@;
    let groups = chunk_runs(source);
    let mut out: Vec<Op> = Vec::new();
    let mut gi: usize = 0;
    proof {
        assert(Seq::<Op>::empty() + collapse_spec(groups_cat(groups@, 0)) =~= collapse_spec(
            src,
        ));
    }
    while gi < groups.len()
        invariant
            groups_wf(groups@),
            groups_cat(groups@, 0) == src,
            gi <= groups@.len(),
            collapse_spec(src) == out@ + collapse_spec(groups_cat(groups@, gi as int)),
        decreases groups@.len() - gi,
    {
        proof {
            lemma_collapse_step(groups@, gi as int);
        }
        let ghost out_pre = out@;
        let ghost s_i = groups_cat(groups@, gi as int);
        let gp = &groups[gi];
        let glen = gp.1.len();
        if gp.0.repeatable() {
            let first = gp.1[0];
            let last = gp.1[glen - 1];
            let op = Op {
                token: gp.0,
                count: glen,
                loc: Loc::new_min(first.loc.into_beg_or_pos(), last.loc.into_end_or_pos()),
            };
            out.push(op);
            proof {
                assert(s_i[0].token == gp.0);
                assert(s_i[0].loc == first.loc);
                assert(s_i[glen - 1].loc == last.loc);
                assert(seq![op] =~= collapsed_head(s_i, glen as int));
            }
        } else {
            let mut j: usize = 0;
            while j < glen
                invariant
                    0 <= gi < groups@.len(),
                    glen == groups@[gi as int].1@.len(),
                    j <= glen,
                    out@ == out_pre + groups@[gi as int].1@.subrange(0, j as int),
                decreases glen - j,
            {
                let x = groups[gi].1[j];
                out.push(x);
                proof {
                    assert(out@ =~= out_pre + groups@[gi as int].1@.subrange(0, j + 1));
                }
                j = j + 1;
            }
            proof {
                assert(groups@[gi as int].1@.subrange(0, glen as int) =~= groups@[gi as int].1@);
                assert(collapsed_head(s_i, glen as int) =~= groups@[gi as int].1@);
            }
        }
        proof {
            assert(out@ == out_pre + collapsed_head(s_i, glen as int));
            assert(out_pre + (collapsed_head(s_i, glen as int) + collapse_spec(
                groups_cat(groups@, gi + 1),
            )) =~= out@ + collapse_spec(groups_cat(groups@, gi + 1)));
        }
        gi = gi + 1;
    }
    proof {
        assert(collapse_spec(groups_cat(groups@, gi as int)) =~= Seq::<Op>::empty());
        assert(out@ + Seq::<Op>::empty() =~= out@);
    }
    out
}

} // verus!
