use vstd::prelude::*;
use vstd::string::StrSliceExecFns;
use crate::location::{Loc, Pos};
use crate::token::{Op, Token};

verus! {

/// The operations lexed from `s` starting at index `i`, where `line` and
/// `col` are the position of the character `s[i]`.  A newline moves to the
/// next line; an operator glyph yields one operation of count 1 at its
/// position; any other character is skipped.
pub open spec fn lex_from(s: Seq<char>, i: int, line: nat, col: nat) -> Seq<Op>
    decreases s.len() - i,
{
    if i < 0 || i >= s.len() {
        Seq::empty()
    } else if s[i] == '\n' {
        lex_from(s, i + 1, line + 1, 0)
    } else {
        match Token::spec_new(s[i]) {
            Some(t) => seq![
                Op {
                    token: t,
                    count: 1,
                    loc: Loc::Single { pos: Pos { line: line as usize, col: col as usize } },
                },
            ] + lex_from(s, i + 1, line, col + 1),
            None => lex_from(s, i + 1, line, col + 1),
        }
    }
}

/// The operations lexed from a whole source text.
pub open spec fn lex_spec(s: Seq<char>) -> Seq<Op> {
    lex_from(s, 0, 0, 0)
}

/// Every operation fresh from the lexer has count 1 and a single-position
/// location.
pub proof fn lemma_lex_from_unit(s: Seq<char>, i: int, line: nat, col: nat)
    ensures
        forall|j: int|
            0 <= j < lex_from(s, i, line, col).len() ==> {
                let op = #[trigger] lex_from(s, i, line, col)[j];
                op.count == 1 && op.loc is Single
            },
    decreases s.len() - i,
{
    if 0 <= i < s.len() {
        if s[i] == '\n' {
            lemma_lex_from_unit(s, i + 1, line + 1, 0);
        } else {
            lemma_lex_from_unit(s, i + 1, line, col + 1);
        }
    }
}

/// Scans the source text into a flat sequence of operations, each of count 1,
/// tagged with its kind and source position.  Characters that are not
/// operator glyphs are skipped, so any text lexes successfully.
pub fn lex(source: String) -> (r: Vec<Op>)
    ensures
        r@ == lex_spec(source@),
{
    let s: &str = source.as_str();
    let n: usize = s.unicode_len();
    let mut ops: Vec<Op> = Vec::new();
    let mut i: usize = 0;
    let mut line: usize = 0;
    let mut col: usize = 0;
    while i < n
        invariant
            s@ == source@,
            n == s@.len(),
            i <= n,
            line <= i,
            col <= i,
            lex_spec(source@) == ops@ + lex_from(s@, i as int, line as nat, col as nat),
        decreases n - i,
    {
        let c = s.get_char(i);
        let ghost pre_ops = ops@;
        let ghost (i0, line0, col0) = (i as int, line as nat, col as nat);
        if c == '\n' {
            line = line + 1;
            col = 0;
        } else {
            match Token::new(c) {
                Some(t) => {
                    ops.push(
                        Op { token: t, count: 1, loc: Loc::Single { pos: Pos { line, col } } },
                    );
                },
                None => {},
            }
            col = col + 1;
        }
        i = i + 1;
        proof {
            let rest = lex_from(s@, i0 + 1, line as nat, col as nat);
            if s@[i0] != '\n' && Token::spec_new(s@[i0]) is Some {
                let op = Op {
                    token: Token::spec_new(s@[i0])->0,
                    count: 1,
                    loc: Loc::Single { pos: Pos { line: line0 as usize, col: col0 as usize } },
                };
                assert(lex_from(s@, i0, line0, col0) == seq![op] + rest);
                assert(ops@ == pre_ops + seq![op]);
                assert(pre_ops + (seq![op] + rest) =~= (pre_ops + seq![op]) + rest);
            } else {
                assert(lex_from(s@, i0, line0, col0) == rest);
            }
        }
    }
    ops
}

} // verus!
