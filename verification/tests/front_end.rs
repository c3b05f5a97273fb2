use brainfuck::collapse::collapse;
use brainfuck::lex::lex;
use brainfuck::location::{Loc, Pos};
use brainfuck::token::{Op, Token};

fn pos(line: usize, col: usize) -> Pos {
    Pos { line, col }
}

fn single(line: usize, col: usize) -> Loc {
    Loc::Single { pos: pos(line, col) }
}

#[test]
fn lexing_tracks_lines_and_columns_and_skips_comments() {
    let ops = lex("+a\n >".to_string());
    assert_eq!(
        ops,
        vec![
            Op { token: Token::Inc, count: 1, loc: single(0, 0) },
            Op { token: Token::Right, count: 1, loc: single(1, 1) },
        ]
    );
}

#[test]
fn lexing_any_text_succeeds_possibly_empty() {
    assert_eq!(lex("hello, world!\nbye.".to_string()), vec![
        Op { token: Token::Input, count: 1, loc: single(0, 5) },
        Op { token: Token::Output, count: 1, loc: single(1, 3) },
    ]);
    assert_eq!(lex(String::new()), Vec::<Op>::new());
}

#[test]
fn collapsing_merges_a_run_with_its_span() {
    let c = collapse(lex("+++".to_string()));
    assert_eq!(
        c,
        vec![Op {
            token: Token::Inc,
            count: 3,
            loc: Loc::Span { beg: pos(0, 0), end: pos(0, 2) },
        }]
    );
}

#[test]
fn collapsing_keeps_distinct_runs_in_order() {
    let c = collapse(lex("++>>--".to_string()));
    let kinds: Vec<Token> = c.iter().map(|op| op.token).collect();
    let counts: Vec<usize> = c.iter().map(|op| op.count).collect();
    assert_eq!(kinds, vec![Token::Inc, Token::Right, Token::Dec]);
    assert_eq!(counts, vec![2, 2, 2]);
}

#[test]
fn sum_of_collapsed_counts_is_run_length() {
    let src = "+++++>>><<";
    let ops = lex(src.to_string());
    let c = collapse(ops.clone());
    let total: usize = c.iter().map(|op| op.count).sum();
    assert_eq!(total, ops.len());
}

#[test]
fn brackets_never_collapse() {
    let c = collapse(lex("[[[]]]".to_string()));
    assert_eq!(c.len(), 6);
    for op in &c {
        assert_eq!(op.count, 1);
    }
}

#[test]
fn collapsing_a_single_glyph_keeps_a_point_location() {
    let c = collapse(lex("+".to_string()));
    assert_eq!(c, vec![Op { token: Token::Inc, count: 1, loc: single(0, 0) }]);
}

#[test]
fn collapsing_twice_keeps_the_kind_sequence() {
    let once = collapse(lex("++>>[--]++".to_string()));
    let twice = collapse(once.clone());
    let k1: Vec<Token> = once.iter().map(|op| op.token).collect();
    let k2: Vec<Token> = twice.iter().map(|op| op.token).collect();
    assert_eq!(k1, k2);
}

#[test]
fn token_recognises_the_eight_glyphs_only() {
    assert_eq!(Token::new('>'), Some(Token::Right));
    assert_eq!(Token::new('<'), Some(Token::Left));
    assert_eq!(Token::new('+'), Some(Token::Inc));
    assert_eq!(Token::new('-'), Some(Token::Dec));
    assert_eq!(Token::new('.'), Some(Token::Output));
    assert_eq!(Token::new(','), Some(Token::Input));
    assert_eq!(Token::new('['), Some(Token::JumpZero));
    assert_eq!(Token::new(']'), Some(Token::JumpNonZero));
    assert_eq!(Token::new('x'), None);
    assert_eq!(Token::new(' '), None);
}

#[test]
fn loc_new_orders_its_ends() {
    let a = pos(0, 0);
    let b = pos(0, 3);
    assert_eq!(Loc::new(a, b), Some(Loc::Span { beg: a, end: b }));
    assert_eq!(Loc::new(a, a), Some(Loc::Single { pos: a }));
    assert_eq!(Loc::new(b, a), None);
    assert_eq!(Loc::new(pos(1, 0), pos(2, 0)), Some(Loc::Span { beg: pos(1, 0), end: pos(2, 0) }));
    assert_eq!(Loc::new(pos(2, 5), pos(1, 9)), None);
}

#[test]
fn loc_new_min_degrades_to_a_point() {
    let a = pos(0, 0);
    let b = pos(0, 3);
    assert_eq!(Loc::new_min(a, b), Loc::Span { beg: a, end: b });
    assert_eq!(Loc::new_min(a, a), Loc::Single { pos: a });
    assert_eq!(Loc::new_min(b, a), Loc::Single { pos: b });
}

#[test]
fn loc_accessors_return_the_right_end() {
    let s = Loc::Span { beg: pos(1, 2), end: pos(3, 4) };
    assert_eq!(s.into_beg_or_pos(), pos(1, 2));
    assert_eq!(s.into_end_or_pos(), pos(3, 4));
    assert_eq!(*s.get_beg_or_pos(), pos(1, 2));
    assert_eq!(*s.get_end_or_pos(), pos(3, 4));
    let p = Loc::Single { pos: pos(5, 6) };
    assert_eq!(p.into_beg_or_pos(), pos(5, 6));
    assert_eq!(p.into_end_or_pos(), pos(5, 6));
    assert_eq!(*p.get_beg_or_pos(), pos(5, 6));
    assert_eq!(*p.get_end_or_pos(), pos(5, 6));
}
