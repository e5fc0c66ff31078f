use vstd::prelude::*;
use vstd::string::*;

use crate::parser::ExpressionHandle;
use crate::parser::Literal;
use crate::scanner::push_char;
use crate::store::Ast;
use crate::store::Expression;
use crate::store::lookup_binary;

verus! {

/// A failure of constant evaluation. The scanner and grammar cannot produce
/// one; they arise only from the values being folded.
#[derive(Clone, Copy, Debug, PartialEq, Eq, Structural)]
pub enum ArithmeticError {
    DivisionByZero,
    Overflow,
}

/// A literal stripped to its mathematical content: the integer, or the text
/// of the float numeral.
pub enum LitV {
    I(i64),
    F(Seq<char>),
}

/// A node stripped to what the folding passes observe: kind, operator and
/// slot ids.
pub enum NodeV {
    Lit(LitV),
    Un(char, int),
    Bin(char, int, int),
}

pub open spec fn lit_view(l: Literal) -> LitV {
    match l {
        Literal::Integer(v) => LitV::I(v),
        Literal::Float(t) => LitV::F(t@),
    }
}

pub open spec fn node_view(e: Expression) -> NodeV {
    match e {
        Expression::Literal(l) => NodeV::Lit(lit_view(l)),
        Expression::Unary(u) => NodeV::Un(u.operator@[0], u.operand.sid()),
        Expression::Binary(b) => NodeV::Bin(b.operator@[0], b.left.sid(), b.right.sid()),
    }
}

/// The store contents as the folding passes observe them.
pub open spec fn view_map(m: Map<int, Expression>) -> Map<int, NodeV> {
    Map::new(|k: int| m.contains_key(k), |k: int| node_view(m[k]))
}

/// The text of a negated float numeral: toggle a leading `-`.
pub open spec fn neg_text(t: Seq<char>) -> Seq<char> {
    if t.len() >= 1 && t[0] == '-' {
        t.subrange(1, t.len() as int)
    } else {
        seq!['-'] + t
    }
}

/// What folding a unary operator does to a literal: `+` passes the value
/// through, `-` negates it. Negating `i64::MIN` does not fit and is an
/// overflow.
pub open spec fn spec_fold_unary(c: char, l: LitV) -> Result<LitV, ArithmeticError> {
    if c == '+' {
        Ok(l)
    } else {
        match l {
            LitV::I(v) => match (0i64).checked_sub(v) {
                Some(nv) => Ok(LitV::I(nv)),
                None => Err(ArithmeticError::Overflow),
            },
            LitV::F(t) => Ok(LitV::F(neg_text(t))),
        }
    }
}

/// Integer arithmetic of the binary fold: native `i64` semantics with
/// division truncating toward zero, except that division by zero and any
/// result outside `i64` are reported instead of aborting the process.
pub open spec fn spec_fold_int(c: char, x: i64, y: i64) -> Result<i64, ArithmeticError> {
    if c == '+' {
        match x.checked_add(y) {
            Some(v) => Ok(v),
            None => Err(ArithmeticError::Overflow),
        }
    } else if c == '-' {
        match x.checked_sub(y) {
            Some(v) => Ok(v),
            None => Err(ArithmeticError::Overflow),
        }
    } else if c == '*' {
        match x.checked_mul(y) {
            Some(v) => Ok(v),
            None => Err(ArithmeticError::Overflow),
        }
    } else {
        if y == 0 {
            Err(ArithmeticError::DivisionByZero)
        } else {
            match x.checked_div(y) {
                Some(v) => Ok(v),
                None => Err(ArithmeticError::Overflow),
            }
        }
    }
}

/// One visit of the unary pass at slot `id`: a unary node whose operand
/// currently resolves as a literal is repointed to the folded literal;
/// everything else is left alone.
pub open spec fn unary_step(m: Map<int, NodeV>, id: int) -> Result<
    Map<int, NodeV>,
    ArithmeticError,
> {
    if m.contains_key(id) {
        match m[id] {
            NodeV::Un(c, p) => {
                if m.contains_key(p) {
                    match m[p] {
                        NodeV::Lit(l) => match spec_fold_unary(c, l) {
                            Ok(fl) => Ok(m.insert(id, NodeV::Lit(fl))),
                            Err(e) => Err(e),
                        },
                        _ => Ok(m),
                    }
                } else {
                    Ok(m)
                }
            },
            _ => Ok(m),
        }
    } else {
        Ok(m)
    }
}

/// One visit of the binary pass at slot `id`: a binary node both of whose
/// operands currently resolve as integer literals is repointed to the folded
/// literal; a pair involving a float, and everything that is not a
/// two-literal binary node, is left alone.
pub open spec fn binary_step(m: Map<int, NodeV>, id: int) -> Result<
    Map<int, NodeV>,
    ArithmeticError,
> {
    if m.contains_key(id) {
        match m[id] {
            NodeV::Bin(c, p, q) => {
                if m.contains_key(p) && m.contains_key(q) {
                    match (m[p], m[q]) {
                        (NodeV::Lit(LitV::I(x)), NodeV::Lit(LitV::I(y))) => match spec_fold_int(
                            c,
                            x,
                            y,
                        ) {
                            Ok(v) => Ok(m.insert(id, NodeV::Lit(LitV::I(v)))),
                            Err(e) => Err(e),
                        },
                        _ => Ok(m),
                    }
                } else {
                    Ok(m)
                }
            },
            _ => Ok(m),
        }
    } else {
        Ok(m)
    }
}

/// The unary pass over slots `0 .. n`, in slot order, each visit reading the
/// state the earlier visits left. Since every operand has a smaller id than
/// its node, a chain of unary nodes over a literal collapses within one
/// pass.
pub open spec fn unary_pass(m: Map<int, NodeV>, n: int) -> Result<Map<int, NodeV>, ArithmeticError>
    decreases n,
{
    if n <= 0 {
        Ok(m)
    } else {
        match unary_pass(m, n - 1) {
            Ok(m2) => unary_step(m2, n - 1),
            Err(e) => Err(e),
        }
    }
}

/// The binary pass over slots `0 .. n`, in slot order, as `unary_pass`.
pub open spec fn binary_pass(m: Map<int, NodeV>, n: int) -> Result<Map<int, NodeV>, ArithmeticError>
    decreases n,
{
    if n <= 0 {
        Ok(m)
    } else {
        match binary_pass(m, n - 1) {
            Ok(m2) => binary_step(m2, n - 1),
            Err(e) => Err(e),
        }
    }
}

proof fn lemma_view_map_insert(m: Map<int, Expression>, id: int, e: Expression)
    ensures
        view_map(m.insert(id, e)) == view_map(m).insert(id, node_view(e)),
{
    broadcast use vstd::map::group_map_axioms;
    broadcast use vstd::set::group_set_axioms;

    assert(view_map(m.insert(id, e)) =~= view_map(m).insert(id, node_view(e)));
}

/// Once a pass has failed at some prefix it fails for the whole range, with
/// the same error.
proof fn lemma_pass_err_mono(m: Map<int, NodeV>, k: int, n: int, una: bool)
    requires
        k <= n,
        una ==> unary_pass(m, k) is Err,
        !una ==> binary_pass(m, k) is Err,
    ensures
        una ==> unary_pass(m, n) == unary_pass(m, k),
        !una ==> binary_pass(m, n) == binary_pass(m, k),
    decreases n - k,
{
    if k < n {
        lemma_pass_err_mono(m, k, n - 1, una);
    }
}

/// Read the single character of a grammar operator string.
fn op_char(op: &String) -> (c: char)
    requires
        op@.len() == 1,
    ensures
        c == op@[0],
{
    op.as_str().get_char(0)
}

/// The text of the negated float numeral: strip a leading `-`, or prepend
/// one.
fn negate_float_text(t: &String) -> (r: String)
    ensures
        r@ == neg_text(t@),
{
    proof {
        reveal_strlit("");
    }
    let s = t.as_str();
    let n = s.unicode_len();
    if n >= 1 && s.get_char(0) == '-' {
        let mut out = String::new();
        let mut i: usize = 1;
        while i < n
            invariant
                1 <= i <= n,
                n == t@.len(),
                s@ == t@,
                out@ == t@.subrange(1, i as int),
            decreases n - i,
        {
            let c = s.get_char(i);
            push_char(&mut out, c);
            proof {
                assert(t@.subrange(1, i + 1 as int) =~= t@.subrange(1, i as int).push(
                    t@[i as int],
                ));
            }
            i = i + 1;
        }
        proof {
            assert(t@.subrange(1, n as int) =~= neg_text(t@));
        }
        out
    } else {
        let mut out = String::new();
        push_char(&mut out, '-');
        out.append(s);
        proof {
            assert(out@ =~= neg_text(t@));
        }
        out
    }
}

/// Fold one unary operator into one literal, as the unary pass does.
fn fold_unary_value(c: char, l: &Literal) -> (r: Result<Literal, ArithmeticError>)
    ensures
        match r {
            Ok(fl) => spec_fold_unary(c, lit_view(*l)) == Ok::<LitV, ArithmeticError>(lit_view(fl)),
            Err(e) => spec_fold_unary(c, lit_view(*l)) == Err::<LitV, ArithmeticError>(e),
        },
{
    if c == '+' {
        match l {
            Literal::Integer(v) => Ok(Literal::Integer(*v)),
            Literal::Float(t) => Ok(Literal::Float(t.clone())),
        }
    } else {
        match l {
            Literal::Integer(v) => match (0i64).checked_sub(*v) {
                Some(nv) => Ok(Literal::Integer(nv)),
                None => Err(ArithmeticError::Overflow),
            },
            Literal::Float(t) => Ok(Literal::Float(negate_float_text(t))),
        }
    }
}

/// Fold one binary operator over two integer literals, as the binary pass
/// does.
fn fold_int_value(c: char, x: i64, y: i64) -> (r: Result<i64, ArithmeticError>)
    ensures
        r == spec_fold_int(c, x, y),
{
    if c == '+' {
        match x.checked_add(y) {
            Some(v) => Ok(v),
            None => Err(ArithmeticError::Overflow),
        }
    } else if c == '-' {
        match x.checked_sub(y) {
            Some(v) => Ok(v),
            None => Err(ArithmeticError::Overflow),
        }
    } else if c == '*' {
        match x.checked_mul(y) {
            Some(v) => Ok(v),
            None => Err(ArithmeticError::Overflow),
        }
    } else {
        if y == 0 {
            Err(ArithmeticError::DivisionByZero)
        } else {
            match x.checked_div(y) {
                Some(v) => Ok(v),
                None => Err(ArithmeticError::Overflow),
            }
        }
    }
}

/// The unary-folding pass: visit every slot in id order; each unary node
/// whose operand currently resolves as a literal is repointed, in place, to
/// the folded literal, so every handle to it resolves as that literal from
/// then on. Stops at the first arithmetic failure.
pub fn reduce_unary_to_literal(ast: &mut Ast) -> (r: Result<(), ArithmeticError>)
    requires
        old(ast).wf(),
    ensures
        final(ast).wf(),
        final(ast).len_spec() == old(ast).len_spec(),
        final(ast).cap() == old(ast).cap(),
        match r {
            Ok(_) => unary_pass(view_map(old(ast)@), old(ast).len_spec()) == Ok::<
                Map<int, NodeV>,
                ArithmeticError,
            >(view_map(final(ast)@)),
            Err(e) => unary_pass(view_map(old(ast)@), old(ast).len_spec()) == Err::<
                Map<int, NodeV>,
                ArithmeticError,
            >(e),
        },
{
    let ghost a0 = *old(ast);
    let n = ast.len();
    let mut id: usize = 0;
    while id < n
        invariant
            a0 == *old(ast),
            ast.wf(),
            ast.len_spec() == a0.len_spec(),
            ast.cap() == a0.cap(),
            n as int == a0.len_spec(),
            id <= n,
            unary_pass(view_map(a0@), id as int) == Ok::<Map<int, NodeV>, ArithmeticError>(
                view_map(ast@),
            ),
        decreases n - id,
    {
        proof {
            crate::store::lemma_wf_dom(*ast);
        }
        let ghost m = ast@;
        match ast.get_unary(id) {
            None => {
                proof {
                    assert(unary_step(view_map(m), id as int) == Ok::<
                        Map<int, NodeV>,
                        ArithmeticError,
                    >(view_map(m)));
                }
            },
            Some(u) => {
                let c = op_char(&u.operator);
                let p = u.operand.id();
                match ast.get_literal(p) {
                    None => {
                        proof {
                            assert(unary_step(view_map(m), id as int) == Ok::<
                                Map<int, NodeV>,
                                ArithmeticError,
                            >(view_map(m)));
                        }
                    },
                    Some(l) => {
                        match fold_unary_value(c, &l) {
                            Ok(fl) => {
                                ast.replace_unary(id, fl);
                                proof {
                                    lemma_view_map_insert(m, id as int, Expression::Literal(fl));
                                    assert(unary_step(view_map(m), id as int) == Ok::<
                                        Map<int, NodeV>,
                                        ArithmeticError,
                                    >(view_map(ast@)));
                                }
                            },
                            Err(e) => {
                                proof {
                                    assert(unary_step(view_map(m), id as int) == Err::<
                                        Map<int, NodeV>,
                                        ArithmeticError,
                                    >(e));
                                    lemma_pass_err_mono(
                                        view_map(a0@),
                                        id + 1,
                                        a0.len_spec(),
                                        true,
                                    );
                                }
                                return Err(e);
                            },
                        }
                    },
                }
            },
        }
        id = id + 1;
    }
    Ok(())
}

/// The binary-folding pass: visit every slot in id order; each binary node
/// both of whose operands currently resolve as integer literals is
/// repointed, in place, to the folded literal. A pair involving a float
/// literal is left for a caller that owns the float semantics. Stops at the
/// first arithmetic failure, reporting division by zero rather than
/// aborting.
pub fn reduce_binary_to_literal(ast: &mut Ast) -> (r: Result<(), ArithmeticError>)
    requires
        old(ast).wf(),
    ensures
        final(ast).wf(),
        final(ast).len_spec() == old(ast).len_spec(),
        final(ast).cap() == old(ast).cap(),
        match r {
            Ok(_) => binary_pass(view_map(old(ast)@), old(ast).len_spec()) == Ok::<
                Map<int, NodeV>,
                ArithmeticError,
            >(view_map(final(ast)@)),
            Err(e) => binary_pass(view_map(old(ast)@), old(ast).len_spec()) == Err::<
                Map<int, NodeV>,
                ArithmeticError,
            >(e),
        },
{
    let ghost a0 = *old(ast);
    let n = ast.len();
    let mut id: usize = 0;
    while id < n
        invariant
            a0 == *old(ast),
            ast.wf(),
            ast.len_spec() == a0.len_spec(),
            ast.cap() == a0.cap(),
            n as int == a0.len_spec(),
            id <= n,
            binary_pass(view_map(a0@), id as int) == Ok::<Map<int, NodeV>, ArithmeticError>(
                view_map(ast@),
            ),
        decreases n - id,
    {
        proof {
            crate::store::lemma_wf_dom(*ast);
        }
        let ghost m = ast@;
        match ast.get_binary(id) {
            None => {
                proof {
                    assert(binary_step(view_map(m), id as int) == Ok::<
                        Map<int, NodeV>,
                        ArithmeticError,
                    >(view_map(m)));
                }
            },
            Some(b) => {
                let c = op_char(&b.operator);
                let p = b.left.id();
                let q = b.right.id();
                let lv = ast.get_literal(p);
                let rv = ast.get_literal(q);
                match (lv, rv) {
                    (Some(Literal::Integer(x)), Some(Literal::Integer(y))) => {
                        match fold_int_value(c, x, y) {
                            Ok(v) => {
                                let fl = Literal::Integer(v);
                                ast.replace_binary(id, fl);
                                proof {
                                    lemma_view_map_insert(m, id as int, Expression::Literal(fl));
                                    assert(binary_step(view_map(m), id as int) == Ok::<
                                        Map<int, NodeV>,
                                        ArithmeticError,
                                    >(view_map(ast@)));
                                }
                            },
                            Err(e) => {
                                proof {
                                    assert(binary_step(view_map(m), id as int) == Err::<
                                        Map<int, NodeV>,
                                        ArithmeticError,
                                    >(e));
                                    lemma_pass_err_mono(
                                        view_map(a0@),
                                        id + 1,
                                        a0.len_spec(),
                                        false,
                                    );
                                }
                                return Err(e);
                            },
                        }
                    },
                    _ => {
                        proof {
                            assert(binary_step(view_map(m), id as int) == Ok::<
                                Map<int, NodeV>,
                                ArithmeticError,
                            >(view_map(m)));
                        }
                    },
                }
            },
        }
        id = id + 1;
    }
    Ok(())
}

/// Repoint a slot currently holding a binary node so that it resolves as
/// the given literal, leaving every other slot as it was; the way a caller
/// that evaluates a float pair itself hands the result back to the store.
/// Returns whether the slot did hold a binary node; otherwise nothing
/// changes.
pub fn repoint_binary(ast: &mut Ast, handle: &ExpressionHandle, value: Literal) -> (r: bool)
    requires
        old(ast).wf(),
    ensures
        final(ast).wf(),
        final(ast).len_spec() == old(ast).len_spec(),
        final(ast).cap() == old(ast).cap(),
        r == (lookup_binary(old(ast)@, handle.sid()) is Some),
        r ==> final(ast)@ == old(ast)@.insert(handle.sid(), Expression::Literal(value)),
        !r ==> final(ast)@ == old(ast)@,
{
    let id = handle.id();
    match ast.get_binary(id) {
        Some(_) => {
            ast.replace_binary(id, value);
            true
        },
        None => false,
    }
}

/// Whether the unary pass would fold the node at `id`: a unary node whose
/// operand currently resolves as a literal.
pub open spec fn unary_foldable(m: Map<int, NodeV>, id: int) -> bool {
    m.contains_key(id) && match m[id] {
        NodeV::Un(_, p) => m.contains_key(p) && m[p] is Lit,
        _ => false,
    }
}

/// Whether the binary pass would fold the node at `id`: a binary node both
/// of whose operands currently resolve as integer literals.
pub open spec fn binary_foldable(m: Map<int, NodeV>, id: int) -> bool {
    m.contains_key(id) && match m[id] {
        NodeV::Bin(_, p, q) => m.contains_key(p) && m.contains_key(q) && match (m[p], m[q]) {
            (NodeV::Lit(LitV::I(_)), NodeV::Lit(LitV::I(_))) => true,
            _ => false,
        },
        _ => false,
    }
}

/// A store the unary pass has stabilized on: no unary node is left with a
/// literal operand it has not folded.
pub open spec fn unary_stable(m: Map<int, NodeV>) -> bool {
    forall|id: int| !unary_foldable(m, id)
}

/// A store the binary pass has stabilized on likewise.
pub open spec fn binary_stable(m: Map<int, NodeV>) -> bool {
    forall|id: int| !binary_foldable(m, id)
}

/// Idempotence of the unary pass: once it has stabilized (no unary node has
/// a literal operand it has not already folded), running it again is a
/// no-op; no slot changes kind or value.
pub proof fn lemma_unary_pass_stable(m: Map<int, NodeV>, n: int)
    requires
        unary_stable(m),
    ensures
        unary_pass(m, n) == Ok::<Map<int, NodeV>, ArithmeticError>(m),
    decreases n,
{
    if n > 0 {
        lemma_unary_pass_stable(m, n - 1);
        assert(!unary_foldable(m, n - 1));
        assert(unary_step(m, n - 1) == Ok::<Map<int, NodeV>, ArithmeticError>(m));
    }
}

/// Idempotence of the binary pass, as `lemma_unary_pass_stable`.
pub proof fn lemma_binary_pass_stable(m: Map<int, NodeV>, n: int)
    requires
        binary_stable(m),
    ensures
        binary_pass(m, n) == Ok::<Map<int, NodeV>, ArithmeticError>(m),
    decreases n,
{
    if n > 0 {
        lemma_binary_pass_stable(m, n - 1);
        assert(!binary_foldable(m, n - 1));
        assert(binary_step(m, n - 1) == Ok::<Map<int, NodeV>, ArithmeticError>(m));
    }
}

/// The well-formedness the store invariant gives the folding passes: every
/// operand handle names an occupied, strictly earlier slot.
pub open spec fn view_wf(m: Map<int, NodeV>) -> bool {
    forall|id: int| #[trigger] m.contains_key(id) ==> match m[id] {
        NodeV::Lit(_) => true,
        NodeV::Un(_, p) => 0 <= p < id && m.contains_key(p),
        NodeV::Bin(_, p, q) => 0 <= p < id && m.contains_key(p) && 0 <= q < id
            && m.contains_key(q),
    }
}

pub open spec fn ok_lit(r: Result<LitV, ArithmeticError>) -> Option<LitV> {
    match r {
        Ok(l) => Some(l),
        Err(_) => None,
    }
}

/// Standard evaluation of the expression rooted at `id`, as far as the
/// verified passes can know it: literals evaluate to themselves, unary
/// operators fold their operand's value, binary operators fold two integer
/// values. A failing or floating-point binary computation has no value
/// here.
pub open spec fn eval_at(m: Map<int, NodeV>, id: int) -> Option<LitV>
    decreases id,
{
    if 0 <= id && m.contains_key(id) {
        match m[id] {
            NodeV::Lit(l) => Some(l),
            NodeV::Un(c, p) => if 0 <= p < id {
                match eval_at(m, p) {
                    Some(l) => ok_lit(spec_fold_unary(c, l)),
                    None => None,
                }
            } else {
                None
            },
            NodeV::Bin(c, p, q) => if 0 <= p < id && 0 <= q < id {
                match (eval_at(m, p), eval_at(m, q)) {
                    (Some(LitV::I(x)), Some(LitV::I(y))) => match spec_fold_int(c, x, y) {
                        Ok(v) => Some(LitV::I(v)),
                        Err(_) => None,
                    },
                    _ => None,
                }
            } else {
                None
            },
        }
    } else {
        None
    }
}

/// A well-formed store stays well formed, and no slot changes its value,
/// when one slot whose subtree evaluates to `fl` is repointed to the
/// literal `fl`.
proof fn lemma_repoint_frame_eval(m: Map<int, NodeV>, m2: Map<int, NodeV>, k: int, fl: LitV, id: int)
    requires
        view_wf(m),
        m.contains_key(k),
        eval_at(m, k) == Some(fl),
        m2 == m.insert(k, NodeV::Lit(fl)),
    ensures
        eval_at(m2, id) == eval_at(m, id),
    decreases id,
{
    broadcast use vstd::map::group_map_axioms;
    broadcast use vstd::set::group_set_axioms;

    if 0 <= id && m.contains_key(id) {
        if id != k {
            match m[id] {
                NodeV::Lit(_) => {},
                NodeV::Un(_, p) => {
                    if 0 <= p < id {
                        lemma_repoint_frame_eval(m, m2, k, fl, p);
                    }
                },
                NodeV::Bin(_, p, q) => {
                    if 0 <= p < id && 0 <= q < id {
                        lemma_repoint_frame_eval(m, m2, k, fl, p);
                        lemma_repoint_frame_eval(m, m2, k, fl, q);
                    }
                },
            }
        }
    }
}

proof fn lemma_repoint_keeps_view_wf(m: Map<int, NodeV>, m2: Map<int, NodeV>, k: int, fl: LitV)
    requires
        view_wf(m),
        m.contains_key(k),
        m2 == m.insert(k, NodeV::Lit(fl)),
    ensures
        view_wf(m2),
{
    broadcast use vstd::map::group_map_axioms;
    broadcast use vstd::set::group_set_axioms;

    assert forall|id: int| m2.contains_key(id) implies match m2[id] {
        NodeV::Lit(_) => true,
        NodeV::Un(_, p) => 0 <= p < id && m2.contains_key(p),
        NodeV::Bin(_, p, q) => 0 <= p < id && m2.contains_key(p) && 0 <= q < id
            && m2.contains_key(q),
    } by {
        assert(m.contains_key(id));
        if id != k {
            assert(m2[id] == m[id]);
        }
    }
}

/// One visit of either pass keeps the store well formed and never changes
/// what any slot's subtree evaluates to.
proof fn lemma_unary_step_preserves(m: Map<int, NodeV>, k: int)
    requires
        view_wf(m),
        unary_step(m, k) is Ok,
    ensures
        view_wf(unary_step(m, k)->Ok_0),
        forall|id: int| eval_at(#[trigger] unary_step(m, k)->Ok_0, id) == eval_at(m, id),
{
    let m2 = unary_step(m, k)->Ok_0;
    if m.contains_key(k) && m[k] is Un {
        let c = m[k]->Un_0;
        let p = m[k]->Un_1;
        if m.contains_key(p) && m[p] is Lit {
            let l = m[p]->Lit_0;
            match spec_fold_unary(c, l) {
                Ok(fl) => {
                    assert(0 <= p < k);
                    assert(eval_at(m, p) == Some(l));
                    assert(eval_at(m, k) == Some(fl));
                    lemma_repoint_keeps_view_wf(m, m2, k, fl);
                    assert forall|id: int| eval_at(m2, id) == eval_at(m, id) by {
                        lemma_repoint_frame_eval(m, m2, k, fl, id);
                    }
                },
                Err(_) => {},
            }
        }
    }
}

proof fn lemma_binary_step_preserves(m: Map<int, NodeV>, k: int)
    requires
        view_wf(m),
        binary_step(m, k) is Ok,
    ensures
        view_wf(binary_step(m, k)->Ok_0),
        forall|id: int| eval_at(#[trigger] binary_step(m, k)->Ok_0, id) == eval_at(m, id),
{
    let m2 = binary_step(m, k)->Ok_0;
    if m.contains_key(k) && m[k] is Bin {
        let c = m[k]->Bin_0;
        let p = m[k]->Bin_1;
        let q = m[k]->Bin_2;
        if m.contains_key(p) && m.contains_key(q) && m[p] is Lit && m[q] is Lit && m[p]->Lit_0 is I
            && m[q]->Lit_0 is I {
            let x = m[p]->Lit_0->I_0;
            let y = m[q]->Lit_0->I_0;
            match spec_fold_int(c, x, y) {
                Ok(v) => {
                    assert(0 <= p < k && 0 <= q < k);
                    assert(eval_at(m, p) == Some(LitV::I(x)));
                    assert(eval_at(m, q) == Some(LitV::I(y)));
                    assert(eval_at(m, k) == Some(LitV::I(v)));
                    lemma_repoint_keeps_view_wf(m, m2, k, LitV::I(v));
                    assert forall|id: int| eval_at(m2, id) == eval_at(m, id) by {
                        lemma_repoint_frame_eval(m, m2, k, LitV::I(v), id);
                    }
                },
                Err(_) => {},
            }
        }
    }
}

/// Round-trip folding, first half: a whole pass of either kind keeps the
/// store well formed and preserves the value every slot's subtree evaluates
/// to; folding never changes the meaning of the expression.
pub proof fn lemma_unary_pass_preserves_eval(m: Map<int, NodeV>, n: int)
    requires
        view_wf(m),
        unary_pass(m, n) is Ok,
    ensures
        view_wf(unary_pass(m, n)->Ok_0),
        forall|id: int| eval_at(#[trigger] unary_pass(m, n)->Ok_0, id) == eval_at(m, id),
    decreases n,
{
    if n > 0 {
        lemma_unary_pass_preserves_eval(m, n - 1);
        let m1 = unary_pass(m, n - 1)->Ok_0;
        lemma_unary_step_preserves(m1, n - 1);
    }
}

/// Round-trip folding, first half, for the binary pass.
pub proof fn lemma_binary_pass_preserves_eval(m: Map<int, NodeV>, n: int)
    requires
        view_wf(m),
        binary_pass(m, n) is Ok,
    ensures
        view_wf(binary_pass(m, n)->Ok_0),
        forall|id: int| eval_at(#[trigger] binary_pass(m, n)->Ok_0, id) == eval_at(m, id),
    decreases n,
{
    if n > 0 {
        lemma_binary_pass_preserves_eval(m, n - 1);
        let m1 = binary_pass(m, n - 1)->Ok_0;
        lemma_binary_step_preserves(m1, n - 1);
    }
}

/// Round-trip folding, second half: once both passes have stabilized, a
/// slot whose subtree evaluates to a value holds exactly that literal. With
/// the first half: alternating the passes until nothing changes leaves the
/// root repointed to the standard, left-to-right, precedence-respecting
/// evaluation of the original expression, as far as the evaluation is
/// integer arithmetic and unary float negation; what a binary float pair
/// folds to is outside the library's knowledge, and outside this law.
pub proof fn lemma_stable_root_is_value(m: Map<int, NodeV>, root: int, l: LitV)
    requires
        unary_stable(m),
        binary_stable(m),
        eval_at(m, root) == Some(l),
    ensures
        m.contains_key(root),
        m[root] == NodeV::Lit(l),
    decreases root,
{
    if 0 <= root && m.contains_key(root) {
        match m[root] {
            NodeV::Lit(_) => {},
            NodeV::Un(c, p) => {
                let lp = eval_at(m, p)->Some_0;
                lemma_stable_root_is_value(m, p, lp);
                assert(unary_foldable(m, root));
            },
            NodeV::Bin(c, p, q) => {
                let lp = eval_at(m, p)->Some_0;
                let lq = eval_at(m, q)->Some_0;
                lemma_stable_root_is_value(m, p, lp);
                lemma_stable_root_is_value(m, q, lq);
                assert(binary_foldable(m, root));
            },
        }
    }
}

/// A well-formed store presents a well-formed view to the passes; the
/// bridge from the store invariant to the folding laws.
pub proof fn lemma_ast_view_wf(a: Ast)
    requires
        a.wf(),
    ensures
        view_wf(view_map(a@)),
{
    crate::store::lemma_wf_dom(a);
    assert forall|id: int| view_map(a@).contains_key(id) implies match view_map(a@)[id] {
        NodeV::Lit(_) => true,
        NodeV::Un(_, p) => 0 <= p < id && view_map(a@).contains_key(p),
        NodeV::Bin(_, p, q) => 0 <= p < id && view_map(a@).contains_key(p) && 0 <= q < id
            && view_map(a@).contains_key(q),
    } by {
        assert(a@.contains_key(id));
        assert(crate::store::node_wf(a@[id], id));
        assert(0 <= id < a.len_spec());
    }
}

/// A pass that completes had every prefix complete.
proof fn lemma_pass_prefix_ok(m: Map<int, NodeV>, j: int, k: int, una: bool)
    requires
        j <= k,
        una ==> unary_pass(m, k) is Ok,
        !una ==> binary_pass(m, k) is Ok,
    ensures
        una ==> unary_pass(m, j) is Ok,
        !una ==> binary_pass(m, j) is Ok,
    decreases k - j,
{
    if j < k {
        lemma_pass_prefix_ok(m, j, k - 1, una);
    }
}

/// A visit touches only its own slot: once slot `p` has been visited, the
/// rest of the pass leaves it as it is.
proof fn lemma_unary_pass_slot_final(m: Map<int, NodeV>, p: int, j: int, k: int)
    requires
        0 <= p < j <= k,
        unary_pass(m, k) is Ok,
    ensures
        unary_pass(m, j) is Ok,
        unary_pass(m, k)->Ok_0.contains_key(p) == unary_pass(m, j)->Ok_0.contains_key(p),
        unary_pass(m, j)->Ok_0.contains_key(p) ==> unary_pass(m, k)->Ok_0[p] == unary_pass(
            m,
            j,
        )->Ok_0[p],
    decreases k - j,
{
    broadcast use vstd::map::group_map_axioms;
    broadcast use vstd::set::group_set_axioms;

    if j < k {
        lemma_pass_prefix_ok(m, j, k - 1, true);
        lemma_unary_pass_slot_final(m, p, j, k - 1);
    }
}

proof fn lemma_binary_pass_slot_final(m: Map<int, NodeV>, p: int, j: int, k: int)
    requires
        0 <= p < j <= k,
        binary_pass(m, k) is Ok,
    ensures
        binary_pass(m, j) is Ok,
        binary_pass(m, k)->Ok_0.contains_key(p) == binary_pass(m, j)->Ok_0.contains_key(p),
        binary_pass(m, j)->Ok_0.contains_key(p) ==> binary_pass(m, k)->Ok_0[p] == binary_pass(
            m,
            j,
        )->Ok_0[p],
    decreases k - j,
{
    broadcast use vstd::map::group_map_axioms;
    broadcast use vstd::set::group_set_axioms;

    if j < k {
        lemma_pass_prefix_ok(m, j, k - 1, false);
        lemma_binary_pass_slot_final(m, p, j, k - 1);
    }
}

/// One unary pass reaches the unary fixpoint: since every operand is
/// visited, and is final, before its node, a completed pass leaves no
/// unary node with a literal operand. With `lemma_unary_pass_stable`,
/// running the pass again is unconditionally a no-op.
pub proof fn lemma_unary_pass_stabilizes(m: Map<int, NodeV>, n: int)
    requires
        view_wf(m),
        forall|id: int| #[trigger] m.contains_key(id) ==> 0 <= id < n,
        unary_pass(m, n) is Ok,
    ensures
        unary_stable(unary_pass(m, n)->Ok_0),
{
    broadcast use vstd::map::group_map_axioms;
    broadcast use vstd::set::group_set_axioms;

    let mf = unary_pass(m, n)->Ok_0;
    lemma_unary_pass_preserves_eval(m, n);
    assert forall|id: int| !unary_foldable(mf, id) by {
        if unary_foldable(mf, id) {
            let c = mf[id]->Un_0;
            let p = mf[id]->Un_1;
            lemma_unary_pass_dom(m, n, id);
            assert(m.contains_key(id));
            assert(0 <= id < n);
            assert(0 <= p < id) by {
                assert(mf.contains_key(id));
            }
            // slot id after its visit equals its final state
            lemma_unary_pass_slot_final(m, id, id + 1, n);
            // slot p was final before id's visit
            lemma_unary_pass_slot_final(m, p, p + 1, n);
            lemma_unary_pass_slot_final(m, p, p + 1, id);
            let mi = unary_pass(m, id)->Ok_0;
            let mi1 = unary_pass(m, id + 1)->Ok_0;
            assert(mi1 == unary_step(mi, id)->Ok_0);
            assert(mi1[id] == mf[id]);
            assert(mi[p] == mf[p]);
            assert(mi.contains_key(p));
            assert(mi[id] == mf[id]) by {
                assert(unary_step(mi, id) is Ok);
            }
            assert(false);
        }
    }
}

/// One binary pass reaches the binary fixpoint likewise: no binary node is
/// left with two integer-literal operands.
pub proof fn lemma_binary_pass_stabilizes(m: Map<int, NodeV>, n: int)
    requires
        view_wf(m),
        forall|id: int| #[trigger] m.contains_key(id) ==> 0 <= id < n,
        binary_pass(m, n) is Ok,
    ensures
        binary_stable(binary_pass(m, n)->Ok_0),
{
    broadcast use vstd::map::group_map_axioms;
    broadcast use vstd::set::group_set_axioms;

    let mf = binary_pass(m, n)->Ok_0;
    lemma_binary_pass_preserves_eval(m, n);
    assert forall|id: int| !binary_foldable(mf, id) by {
        if binary_foldable(mf, id) {
            let p = mf[id]->Bin_1;
            let q = mf[id]->Bin_2;
            lemma_binary_pass_dom(m, n, id);
            assert(m.contains_key(id));
            assert(0 <= id < n);
            assert(0 <= p < id && 0 <= q < id) by {
                assert(mf.contains_key(id));
            }
            lemma_binary_pass_slot_final(m, id, id + 1, n);
            lemma_binary_pass_slot_final(m, p, p + 1, n);
            lemma_binary_pass_slot_final(m, p, p + 1, id);
            lemma_binary_pass_slot_final(m, q, q + 1, n);
            lemma_binary_pass_slot_final(m, q, q + 1, id);
            let mi = binary_pass(m, id)->Ok_0;
            let mi1 = binary_pass(m, id + 1)->Ok_0;
            assert(mi1 == binary_step(mi, id)->Ok_0);
            assert(mi1[id] == mf[id]);
            assert(mi[p] == mf[p]);
            assert(mi[q] == mf[q]);
            assert(mi[id] == mf[id]) by {
                assert(binary_step(mi, id) is Ok);
            }
            assert(false);
        }
    }
}

/// A pass never creates or removes a slot.
proof fn lemma_unary_pass_dom(m: Map<int, NodeV>, n: int, id: int)
    requires
        unary_pass(m, n) is Ok,
    ensures
        unary_pass(m, n)->Ok_0.contains_key(id) == m.contains_key(id),
    decreases n,
{
    broadcast use vstd::map::group_map_axioms;
    broadcast use vstd::set::group_set_axioms;

    if n > 0 {
        lemma_unary_pass_dom(m, n - 1, id);
    }
}

proof fn lemma_binary_pass_dom(m: Map<int, NodeV>, n: int, id: int)
    requires
        binary_pass(m, n) is Ok,
    ensures
        binary_pass(m, n)->Ok_0.contains_key(id) == m.contains_key(id),
    decreases n,
{
    broadcast use vstd::map::group_map_axioms;
    broadcast use vstd::set::group_set_axioms;

    if n > 0 {
        lemma_binary_pass_dom(m, n - 1, id);
    }
}

} // verus!
