//! The reference-resolving evaluator.
//!
//! Evaluation walks an expression tree depth-first. A `Number` yields its
//! value; a `Binary` node evaluates both sides and applies the operator,
//! failing on division by zero and on results outside the `i32` range; a
//! `Reference` looks the referenced cell's raw text up in the table,
//! re-parses it and recurses.
//!
//! Cycles are detected with the set of positions on the active resolution
//! path: entering a reference adds its position, returning removes it
//! again, and a reference to a position already on the path fails. A cell
//! referenced twice on branches that are not nested (a diamond) is
//! therefore evaluated twice, while any genuinely cyclic chain fails.
//!
//! Every failure is an ordinary `None` result; evaluation never panics.

use vstd::prelude::*;

use crate::parser;
use crate::types::{CellTable, Expr, Position};

verus! {

/// Integer division truncating toward zero, as the `/` operator of the
/// grammar behaves (the divisor must not be zero).
pub open spec fn div_trunc(a: int, b: int) -> int
    recommends
        b != 0,
{
    let q = abs_int(a) / abs_int(b);
    if (a < 0) != (b < 0) {
        -q
    } else {
        q
    }
}

/// Absolute value of an integer.
pub open spec fn abs_int(a: int) -> int {
    if a < 0 {
        -a
    } else {
        a
    }
}

/// The exact value an operator application yields, over unbounded integers:
/// `None` only for division by zero or an operator character outside the
/// grammar.
pub open spec fn apply_op(a: int, op: char, b: int) -> Option<int> {
    if op == '+' {
        Some(a + b)
    } else if op == '-' {
        Some(a - b)
    } else if op == '*' {
        Some(a * b)
    } else if op == '/' {
        if b == 0 {
            None
        } else {
            Some(div_trunc(a, b))
        }
    } else {
        None
    }
}

/// What a binary application of cell values yields: the exact operator
/// result when it exists and fits in `i32`, and no value otherwise.
pub open spec fn binop_result(a: i32, op: char, b: i32) -> Option<i32> {
    match apply_op(a as int, op, b as int) {
        None => None,
        Some(v) => if i32::MIN <= v <= i32::MAX {
            Some(v as i32)
        } else {
            None
        },
    }
}

/// What evaluating `e` against the cell table `t` yields, with `path`
/// holding the positions currently being resolved. A reference fails when
/// its position is already on the path (a cycle), absent from the table (a
/// dangling reference), or holds text that does not parse; otherwise its
/// cell's text is re-parsed and evaluated with the position added to the
/// path.
pub open spec fn spec_eval(t: Map<Position, Seq<char>>, path: Set<Position>, e: Expr) -> Option<
    i32,
>
    decreases t.dom().len() - path.len(), e,
        when path.finite() && path.subset_of(t.dom()) && t.dom().finite()
{
    match e {
        Expr::Number(n) => Some(n),
        Expr::Binary(l, op, r) => match spec_eval(t, path, *l) {
            None => None,
            Some(a) => match spec_eval(t, path, *r) {
                None => None,
                Some(b) => binop_result(a, op, b),
            },
        },
        Expr::Reference(p) => {
            if path.contains(p) {
                None
            } else if !t.dom().contains(p) {
                None
            } else {
                match parser::spec_parse(t[p]) {
                    None => None,
                    Some(sub) => {
                        proof {
                            vstd::set::axiom_set_insert_len(path, p);
                            vstd::set_lib::lemma_len_subset(path.insert(p), t.dom());
                        }
                        spec_eval(t, path.insert(p), sub)
                    },
                }
            }
        },
    }
}

/// What evaluating a cell's raw text against the table yields: nothing when
/// the text does not match the grammar, else the value of the parsed
/// expression, resolved starting from an empty path.
pub open spec fn spec_eval_cell(s: Seq<char>, t: Map<Position, Seq<char>>) -> Option<i32> {
    match parser::spec_parse(s) {
        None => None,
        Some(e) => spec_eval(t, Set::empty(), e),
    }
}

/// Evaluating the decimal text of any representable number against an
/// empty table yields the number itself.
pub proof fn lemma_literal_roundtrip(n: int)
    requires
        0 <= n <= i32::MAX,
    ensures
        spec_eval_cell(parser::dec_text(n), Map::<Position, Seq<char>>::empty()) == Some(
            n as i32,
        ),
{
    parser::lemma_parse_literal(n);
    let t = Map::<Position, Seq<char>>::empty();
    assert(t.dom() =~= Set::<Position>::empty());
    assert(spec_eval(t, Set::empty(), Expr::Number(n as i32)) == Some(n as i32));
}

/// Evaluating a formula holding one single-letter reference yields the
/// value of the referenced cell, when that cell holds the decimal text of a
/// representable number.
pub proof fn lemma_reference_roundtrip(c: char, row: int, v: int, t: Map<Position, Seq<char>>)
    requires
        parser::is_alpha_char(c),
        0 <= row <= i32::MAX,
        0 <= v <= i32::MAX,
        t.dom().finite(),
        t.dom().contains(Position { col: c, row: row as i32 }),
        t[Position { col: c, row: row as i32 }] == parser::dec_text(v),
    ensures
        spec_eval_cell(seq!['='] + seq![c] + parser::dec_text(row), t) == Some(v as i32),
{
    let p = Position { col: c, row: row as i32 };
    parser::lemma_parse_single_ref(c, row);
    parser::lemma_parse_literal(v);
    let path0 = Set::<Position>::empty();
    let path1 = path0.insert(p);
    vstd::set::axiom_set_insert_len(path0, p);
    vstd::set_lib::lemma_len_subset(path1, t.dom());
    assert(spec_eval(t, path1, Expr::Number(v as i32)) == Some(v as i32));
    assert(spec_eval(t, path0, Expr::Reference(p)) == Some(v as i32));
}

/// A cell that references itself evaluates to no value.
pub proof fn lemma_self_reference(t: Map<Position, Seq<char>>, p: Position)
    requires
        t.dom().finite(),
        t.dom().contains(p),
        parser::spec_parse(t[p]) == Some(Expr::Reference(p)),
    ensures
        spec_eval_cell(t[p], t) == None::<i32>,
{
    let path0 = Set::<Position>::empty();
    let path1 = path0.insert(p);
    vstd::set::axiom_set_insert_len(path0, p);
    vstd::set_lib::lemma_len_subset(path1, t.dom());
    assert(spec_eval(t, path1, Expr::Reference(p)) is None);
    assert(spec_eval(t, path0, Expr::Reference(p)) is None);
}

/// Two cells that reference each other evaluate to no value.
pub proof fn lemma_mutual_cycle(t: Map<Position, Seq<char>>, p1: Position, p2: Position)
    requires
        t.dom().finite(),
        t.dom().contains(p1),
        t.dom().contains(p2),
        parser::spec_parse(t[p1]) == Some(Expr::Reference(p2)),
        parser::spec_parse(t[p2]) == Some(Expr::Reference(p1)),
    ensures
        spec_eval_cell(t[p1], t) == None::<i32>,
        spec_eval_cell(t[p2], t) == None::<i32>,
{
    lemma_one_way_cycle(t, p1, p2);
    lemma_one_way_cycle(t, p2, p1);
}

/// One direction of a two-cell cycle.
proof fn lemma_one_way_cycle(t: Map<Position, Seq<char>>, p1: Position, p2: Position)
    requires
        t.dom().finite(),
        t.dom().contains(p1),
        t.dom().contains(p2),
        parser::spec_parse(t[p1]) == Some(Expr::Reference(p2)),
        parser::spec_parse(t[p2]) == Some(Expr::Reference(p1)),
    ensures
        spec_eval_cell(t[p1], t) == None::<i32>,
{
    let path0 = Set::<Position>::empty();
    let path1 = path0.insert(p2);
    let path2 = path1.insert(p1);
    vstd::set::axiom_set_insert_len(path0, p2);
    vstd::set_lib::lemma_len_subset(path1, t.dom());
    vstd::set::axiom_set_insert_len(path1, p1);
    vstd::set_lib::lemma_len_subset(path2, t.dom());
    if p1 == p2 {
        assert(spec_eval(t, path1, Expr::Reference(p1)) is None);
    } else {
        assert(spec_eval(t, path2, Expr::Reference(p2)) is None);
        assert(spec_eval(t, path1, Expr::Reference(p1)) is None);
    }
    assert(spec_eval(t, path0, Expr::Reference(p2)) is None);
}

/// A reference to a position absent from the table evaluates to no value.
pub proof fn lemma_dangling_reference(t: Map<Position, Seq<char>>, s: Seq<char>, p: Position)
    requires
        t.dom().finite(),
        !t.dom().contains(p),
        parser::spec_parse(s) == Some(Expr::Reference(p)),
    ensures
        spec_eval_cell(s, t) == None::<i32>,
{
    assert(spec_eval(t, Set::empty(), Expr::Reference(p)) is None);
}

/// Evaluating a cell is repeatable: the result is a function of the raw
/// text and the table alone, so two evaluations against an unchanged table
/// agree. `run` promises exactly `spec_eval_cell` of its inputs — no state
/// survives a call that could make a second one differ.
pub proof fn lemma_eval_repeatable(
    s: Seq<char>,
    t: Map<Position, Seq<char>>,
    r1: Option<i32>,
    r2: Option<i32>,
)
    requires
        r1 == spec_eval_cell(s, t),
        r2 == spec_eval_cell(s, t),
    ensures
        r1 == r2,
{
}

/// A division whose right side evaluates to zero yields no value, whatever
/// the left side does.
pub proof fn lemma_division_by_zero(
    t: Map<Position, Seq<char>>,
    path: Set<Position>,
    l: Expr,
    r: Expr,
)
    requires
        t.dom().finite(),
        path.finite(),
        path.subset_of(t.dom()),
        spec_eval(t, path, r) == Some(0i32),
    ensures
        spec_eval(t, path, Expr::Binary(Box::new(l), '/', Box::new(r))) == None::<i32>,
{
    let e = Expr::Binary(Box::new(l), '/', Box::new(r));
    match spec_eval(t, path, l) {
        None => assert(spec_eval(t, path, e) is None),
        Some(a) => {
            assert(binop_result(a, '/', 0i32) is None);
            assert(spec_eval(t, path, e) is None);
        },
    }
}

/// Apply one binary operator to two cell values, as `binop_result`
/// describes.
fn eval_binop(a: i32, op: char, b: i32) -> (r: Option<i32>)
    ensures
        r == binop_result(a, op, b),
{
    if op == '+' {
        let v: i64 = a as i64 + b as i64;
        if i32::MIN as i64 <= v && v <= i32::MAX as i64 {
            Some(v as i32)
        } else {
            None
        }
    } else if op == '-' {
        let v: i64 = a as i64 - b as i64;
        if i32::MIN as i64 <= v && v <= i32::MAX as i64 {
            Some(v as i32)
        } else {
            None
        }
    } else if op == '*' {
        proof {
            assert(i64::MIN <= (a as int) * (b as int) <= i64::MAX) by (nonlinear_arith)
                requires
                    i32::MIN <= a <= i32::MAX,
                    i32::MIN <= b <= i32::MAX,
            ;
        }
        let v: i64 = a as i64 * b as i64;
        if i32::MIN as i64 <= v && v <= i32::MAX as i64 {
            Some(v as i32)
        } else {
            None
        }
    } else if op == '/' {
        if b == 0 {
            None
        } else {
            // divide the magnitudes, then put the sign back
            let na: u64 = if a < 0 {
                (-(a as i64)) as u64
            } else {
                a as u64
            };
            let nb: u64 = if b < 0 {
                (-(b as i64)) as u64
            } else {
                b as u64
            };
            let q: u64 = na / nb;
            if (a < 0) != (b < 0) {
                if q > i32::MAX as u64 + 1 {
                    None
                } else {
                    Some((-(q as i64)) as i32)
                }
            } else {
                if q > i32::MAX as u64 {
                    None
                } else {
                    Some(q as i32)
                }
            }
        }
    } else {
        None
    }
}

/// Whether `p` is on the resolution path.
fn path_contains(path: &Vec<Position>, p: Position) -> (r: bool)
    ensures
        r == path@.contains(p),
{
    let mut idx: usize = 0;
    while idx < path.len()
        invariant
            idx <= path@.len(),
            forall|k: int| 0 <= k < idx ==> path@[k] != p,
        decreases path@.len() - idx,
    {
        if path[idx] == p {
            return true;
        }
        idx = idx + 1;
    }
    false
}

/// Evaluate an already-parsed expression against the table, with `path`
/// holding the positions currently being resolved. Returns exactly what
/// `spec_eval` describes and leaves the path as it found it.
fn evaluate(path: &mut Vec<Position>, cells: &CellTable, e: &Expr) -> (r: Option<i32>)
    requires
        cells.wf(),
        old(path)@.no_duplicates(),
        forall|k: int| 0 <= k < old(path)@.len() ==> cells@.dom().contains(#[trigger] old(path)@[k]),
    ensures
        final(path)@ == old(path)@,
        r == spec_eval(cells@, old(path)@.to_set(), *e),
    decreases cells@.dom().len() - old(path)@.len(), *e,
{
    proof {
        cells.lemma_dom_finite();
        vstd::seq_lib::seq_to_set_is_finite::<Position>(path@);
        path@.unique_seq_to_set();
        assert(path@.to_set().subset_of(cells@.dom())) by {
            assert(forall|p: Position| path@.to_set().contains(p) ==> path@.contains(p));
        }
    }
    match e {
        Expr::Number(n) => Some(*n),
        Expr::Binary(l, op, r2) => {
            match evaluate(path, cells, l) {
                None => None,
                Some(a) => match evaluate(path, cells, r2) {
                    None => None,
                    Some(b) => eval_binop(a, *op, b),
                },
            }
        },
        Expr::Reference(p) => {
            if path_contains(path, *p) {
                None
            } else {
                match cells.get(*p) {
                    None => None,
                    Some(text) => {
                        match parser::run(text.as_str()) {
                            None => None,
                            Some(sub) => {
                                path.push(*p);
                                proof {
                                    path@.drop_last().lemma_push_to_set_commute(*p);
                                    assert(path@.drop_last() =~= old(path)@);
                                    vstd::set::axiom_set_insert_len(old(path)@.to_set(), *p);
                                    vstd::set_lib::lemma_len_subset(
                                        path@.to_set(),
                                        cells@.dom(),
                                    );
                                }
                                let v = evaluate(path, cells, &sub);
                                let _ = path.pop();
                                proof {
                                    assert(path@ =~= old(path)@);
                                }
                                v
                            },
                        }
                    },
                }
            }
        },
    }
}

/// Evaluate a cell's raw text against the table: the single entry point the
/// surrounding application calls for each cell it renders. Returns exactly
/// what `spec_eval_cell` describes — some integer on success, and no value
/// on a parse failure, a dangling or cyclic reference, division by zero, or
/// a result outside the `i32` range. The table is only read, and the
/// resolution path is created afresh for every call.
pub fn run(value: &str, cells: &CellTable) -> (r: Option<i32>)
    requires
        cells.wf(),
    ensures
        r == spec_eval_cell(value@, cells@),
{
    match parser::run(value) {
        None => None,
        Some(e) => {
            let mut path: Vec<Position> = Vec::new();
            proof {
                assert(path@.to_set() =~= Set::<Position>::empty());
            }
            evaluate(&mut path, cells, &e)
        },
    }
}

} // verus!
