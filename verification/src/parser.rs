use vstd::prelude::*;
use vstd::string::*;

use crate::scanner::Token;
use crate::store::Ast;
use crate::store::Expression;

verus! {

/// A literal value occupying one slot of the expression store. A float is
/// kept as the text of its numeral (an optional leading `-`, then digits
/// with at most one `.`); interpreting that text as a machine float is the
/// caller's business.
#[derive(Clone, Debug)]
pub enum Literal {
    Integer(i64),
    Float(String),
}

/// A binary node: an operator (one of `+ - * /`) and handles to the slots
/// holding its two operands.
#[derive(Clone, Debug)]
pub struct Binary {
    pub operator: String,
    pub left: ExpressionHandle,
    pub right: ExpressionHandle,
}

/// A unary prefix node: an operator (one of `+ -`) and a handle to the slot
/// holding its operand.
#[derive(Clone, Debug)]
pub struct Unary {
    pub operator: String,
    pub operand: ExpressionHandle,
}

/// An opaque reference to a slot of the store. The variant records which
/// kind occupied the slot when the handle was made; resolution is always
/// dynamic, so after a fold a handle made as `Unary` resolves as `Literal`.
#[derive(Clone, Copy, Debug)]
pub enum ExpressionHandle {
    Binary(usize),
    Unary(usize),
    Literal(usize),
}

impl ExpressionHandle {
    /// The slot id this handle names; immutable for the handle's lifetime.
    pub open spec fn sid(self) -> int {
        match self {
            ExpressionHandle::Binary(i) => i as int,
            ExpressionHandle::Unary(i) => i as int,
            ExpressionHandle::Literal(i) => i as int,
        }
    }

    pub fn id(&self) -> (r: usize)
        ensures
            r as int == self.sid(),
    {
        match self {
            ExpressionHandle::Binary(i) => *i,
            ExpressionHandle::Unary(i) => *i,
            ExpressionHandle::Literal(i) => *i,
        }
    }
}

/// The mathematical expression tree a handle graph stands for.
pub enum Tree {
    Leaf(Literal),
    Un(char, Box<Tree>),
    Bin(char, Box<Tree>, Box<Tree>),
}

/// The tree the slot graph `m` denotes at slot `id`: `None` when the slot is
/// missing or its children do not point strictly downward.
pub open spec fn denote(m: Map<int, Expression>, id: int) -> Option<Tree>
    decreases id,
{
    if 0 <= id && m.contains_key(id) {
        match m[id] {
            Expression::Literal(l) => Some(Tree::Leaf(l)),
            Expression::Unary(u) => {
                if u.operator@.len() == 1 && 0 <= u.operand.sid() < id {
                    match denote(m, u.operand.sid()) {
                        Some(t) => Some(Tree::Un(u.operator@[0], Box::new(t))),
                        None => None,
                    }
                } else {
                    None
                }
            },
            Expression::Binary(b) => {
                if b.operator@.len() == 1 && 0 <= b.left.sid() < id && 0 <= b.right.sid() < id {
                    match (denote(m, b.left.sid()), denote(m, b.right.sid())) {
                        (Some(lt), Some(rt)) => Some(
                            Tree::Bin(b.operator@[0], Box::new(lt), Box::new(rt)),
                        ),
                        _ => None,
                    }
                } else {
                    None
                }
            },
        }
    } else {
        None
    }
}

/// Two graphs that agree on every slot up to `id` denote the same tree
/// there; growing a store with fresh slots never changes what the old
/// handles mean.
pub proof fn lemma_denote_frame(m1: Map<int, Expression>, m2: Map<int, Expression>, id: int)
    requires
        forall|k: int| 0 <= k <= id ==> (m1.contains_key(k) <==> m2.contains_key(k)),
        forall|k: int| 0 <= k <= id && m1.contains_key(k) ==> m1[k] == m2[k],
    ensures
        denote(m1, id) == denote(m2, id),
    decreases id,
{
    if 0 <= id && m1.contains_key(id) {
        match m1[id] {
            Expression::Literal(_) => {},
            Expression::Unary(u) => {
                if u.operator@.len() == 1 && 0 <= u.operand.sid() < id {
                    lemma_denote_frame(m1, m2, u.operand.sid());
                }
            },
            Expression::Binary(b) => {
                if b.operator@.len() == 1 && 0 <= b.left.sid() < id && 0 <= b.right.sid() < id {
                    lemma_denote_frame(m1, m2, b.left.sid());
                    lemma_denote_frame(m1, m2, b.right.sid());
                }
            },
        }
    }
}

/// Whether this token is the single-character operator `c`.
pub open spec fn is_op(t: Token, c: char) -> bool {
    match t {
        Token::Operator { operator } => operator@.len() == 1 && operator@[0] == c,
        _ => false,
    }
}

/// Whether this token is the grouping mark `c`.
pub open spec fn is_grouping(t: Token, c: char) -> bool {
    match t {
        Token::Grouping { char_ } => char_ == c,
        _ => false,
    }
}

/// The literal a token stands for, if it is a literal token.
pub open spec fn spec_literal_of(t: Token) -> Option<Literal> {
    match t {
        Token::Integer { value } => Some(Literal::Integer(value)),
        Token::Float { text } => Some(Literal::Float(text)),
        _ => None,
    }
}

/// Which of the two operators, if either, stands at position `i`.
pub open spec fn spec_match2(toks: Seq<Token>, i: int, a: char, b: char) -> Option<char> {
    if 0 <= i < toks.len() && is_op(toks[i], a) {
        Some(a)
    } else if 0 <= i < toks.len() && is_op(toks[i], b) {
        Some(b)
    } else {
        None
    }
}

/// The grammar, one tier a function, each returning the parsed tree and the
/// position after it:
///
/// ```text
/// expression := term
/// term       := factor (("+"|"-") factor)*
/// factor     := unary  (("*"|"/") unary)*
/// unary      := ("+"|"-") unary | primary
/// primary    := INTEGER | FLOAT | "(" expression ")"
/// ```
pub open spec fn spec_expression(toks: Seq<Token>, i: int) -> Option<(Tree, int)>
    decreases toks.len() - i, 5int,
{
    spec_term(toks, i)
}

pub open spec fn spec_term(toks: Seq<Token>, i: int) -> Option<(Tree, int)>
    decreases toks.len() - i, 4int,
{
    match spec_factor(toks, i) {
        Some((t, j)) => if i <= j <= toks.len() {
            spec_term_rest(toks, j, t)
        } else {
            None
        },
        None => None,
    }
}

/// Left-associative chaining: as long as a `+` or `-` follows, fold the next
/// factor into the accumulated left tree.
pub open spec fn spec_term_rest(toks: Seq<Token>, i: int, acc: Tree) -> Option<(Tree, int)>
    decreases toks.len() - i, 0int,
{
    match spec_match2(toks, i, '+', '-') {
        Some(c) => match spec_factor(toks, i + 1) {
            Some((t, j)) => if i < j <= toks.len() {
                spec_term_rest(toks, j, Tree::Bin(c, Box::new(acc), Box::new(t)))
            } else {
                None
            },
            None => None,
        },
        None => Some((acc, i)),
    }
}

pub open spec fn spec_factor(toks: Seq<Token>, i: int) -> Option<(Tree, int)>
    decreases toks.len() - i, 3int,
{
    match spec_unary(toks, i) {
        Some((t, j)) => if i <= j <= toks.len() {
            spec_factor_rest(toks, j, t)
        } else {
            None
        },
        None => None,
    }
}

pub open spec fn spec_factor_rest(toks: Seq<Token>, i: int, acc: Tree) -> Option<(Tree, int)>
    decreases toks.len() - i, 0int,
{
    match spec_match2(toks, i, '*', '/') {
        Some(c) => match spec_unary(toks, i + 1) {
            Some((t, j)) => if i < j <= toks.len() {
                spec_factor_rest(toks, j, Tree::Bin(c, Box::new(acc), Box::new(t)))
            } else {
                None
            },
            None => None,
        },
        None => Some((acc, i)),
    }
}

pub open spec fn spec_unary(toks: Seq<Token>, i: int) -> Option<(Tree, int)>
    decreases toks.len() - i, 2int,
{
    if 0 <= i < toks.len() {
        match spec_match2(toks, i, '+', '-') {
            Some(c) => match spec_unary(toks, i + 1) {
                Some((t, j)) => Some((Tree::Un(c, Box::new(t)), j)),
                None => None,
            },
            None => spec_primary(toks, i),
        }
    } else {
        None
    }
}

pub open spec fn spec_primary(toks: Seq<Token>, i: int) -> Option<(Tree, int)>
    decreases toks.len() - i, 1int,
{
    if 0 <= i < toks.len() {
        match spec_literal_of(toks[i]) {
            Some(l) => Some((Tree::Leaf(l), i + 1)),
            None => if is_grouping(toks[i], '(') {
                match spec_expression(toks, i + 1) {
                    Some((t, j)) => if j < toks.len() && is_grouping(toks[j], ')') {
                        Some((t, j + 1))
                    } else {
                        None
                    },
                    None => None,
                }
            } else {
                None
            },
        }
    } else {
        None
    }
}

/// The tree of a successful parse.
pub open spec fn parsed_tree(o: Option<(Tree, int)>) -> Option<Tree> {
    match o {
        Some(p) => Some(p.0),
        None => None,
    }
}

/// A one-character `String` holding the operator `c`.
fn char_to_string(c: char) -> (s: String)
    requires
        c == '+' || c == '-' || c == '*' || c == '/',
    ensures
        s@.len() == 1,
        s@[0] == c,
{
    proof {
        reveal_strlit("+");
        reveal_strlit("-");
        reveal_strlit("*");
        reveal_strlit("/");
    }
    if c == '+' {
        String::from_str("+")
    } else if c == '-' {
        String::from_str("-")
    } else if c == '*' {
        String::from_str("*")
    } else {
        String::from_str("/")
    }
}

/// Take the token at `i` when it is the operator `a` or the operator `b`.
fn consume_either(tokens: &Vec<Token>, i: usize, a: char, b: char) -> (r: Option<char>)
    ensures
        r == spec_match2(tokens@, i as int, a, b),
{
    if i < tokens.len() {
        match &tokens[i] {
            Token::Operator { operator } => {
                let s = operator.as_str();
                if s.unicode_len() == 1 {
                    let c0 = s.get_char(0);
                    if c0 == a {
                        Some(a)
                    } else if c0 == b {
                        Some(b)
                    } else {
                        None
                    }
                } else {
                    None
                }
            },
            _ => None,
        }
    } else {
        None
    }
}

/// Take the token at `i` when it is the grouping mark `c`.
fn consume(tokens: &Vec<Token>, i: usize, c: char) -> (r: bool)
    ensures
        r == (i < tokens@.len() && is_grouping(tokens@[i as int], c)),
{
    if i < tokens.len() {
        match &tokens[i] {
            Token::Grouping { char_ } => *char_ == c,
            _ => false,
        }
    } else {
        false
    }
}

/// Parse the whole token sequence into the store, returning the root handle,
/// or nothing when the tokens do not match the grammar. Leftover tokens after
/// a complete expression are ignored. The store must have room for one slot
/// per token.
pub fn parse(ast: &mut Ast, tokens: &Vec<Token>) -> (r: Option<ExpressionHandle>)
    requires
        old(ast).wf(),
        old(ast).len_spec() + tokens@.len() <= old(ast).cap(),
    ensures
        final(ast).wf(),
        final(ast).cap() == old(ast).cap(),
        old(ast).len_spec() <= final(ast).len_spec(),
        forall|k: int|
            #[trigger] old(ast)@.contains_key(k) ==> final(ast)@.contains_key(k) && final(ast)@[k] == old(
                ast,
            )@[k],
        r is Some <==> spec_expression(tokens@, 0) is Some,
        r matches Some(h) ==> 0 <= h.sid() < final(ast).len_spec() && denote(
            final(ast)@,
            h.sid(),
        ) == parsed_tree(spec_expression(tokens@, 0)),
{
    match expression(ast, tokens, 0) {
        Some((h, _j, _t)) => Some(h),
        None => None,
    }
}

fn expression(ast: &mut Ast, tokens: &Vec<Token>, i: usize) -> (r: Option<
    (ExpressionHandle, usize, Ghost<Tree>),
>)
    requires
        old(ast).wf(),
        i as int <= tokens@.len(),
        old(ast).len_spec() + tokens@.len() - i as int <= old(ast).cap(),
    ensures
        final(ast).wf(),
        final(ast).cap() == old(ast).cap(),
        old(ast).len_spec() <= final(ast).len_spec(),
        forall|k: int|
            #[trigger] old(ast)@.contains_key(k) ==> final(ast)@.contains_key(k) && final(ast)@[k] == old(
                ast,
            )@[k],
        r is Some <==> spec_expression(tokens@, i as int) is Some,
        r matches Some((h, j, t)) ==> i < j <= tokens@.len() && spec_expression(tokens@, i as int)
            == Some((t@, j as int)) && 0 <= h.sid() < final(ast).len_spec() && denote(
            final(ast)@,
            h.sid(),
        ) == Some(t@) && final(ast).len_spec() - old(ast).len_spec() <= j - i,
    decreases tokens@.len() - i as int, 5int,
{
    term(ast, tokens, i)
}

fn term(ast: &mut Ast, tokens: &Vec<Token>, i: usize) -> (r: Option<
    (ExpressionHandle, usize, Ghost<Tree>),
>)
    requires
        old(ast).wf(),
        i as int <= tokens@.len(),
        old(ast).len_spec() + tokens@.len() - i as int <= old(ast).cap(),
    ensures
        final(ast).wf(),
        final(ast).cap() == old(ast).cap(),
        old(ast).len_spec() <= final(ast).len_spec(),
        forall|k: int|
            #[trigger] old(ast)@.contains_key(k) ==> final(ast)@.contains_key(k) && final(ast)@[k] == old(
                ast,
            )@[k],
        r is Some <==> spec_term(tokens@, i as int) is Some,
        r matches Some((h, j, t)) ==> i < j <= tokens@.len() && spec_term(tokens@, i as int) == Some(
            (t@, j as int),
        ) && 0 <= h.sid() < final(ast).len_spec() && denote(final(ast)@, h.sid()) == Some(t@)
            && final(ast).len_spec() - old(ast).len_spec() <= j - i,
    decreases tokens@.len() - i as int, 4int,
{
    broadcast use vstd::map::group_map_axioms;
    broadcast use vstd::set::group_set_axioms;

    let n_toks = tokens.len();
    let ghost a0 = *old(ast);
    let res = factor(ast, tokens, i);
    if res.is_none() {
        return None;
    }
    let (mut left, mut j, t0) = res.unwrap();
    let ghost mut cur: Tree = t0@;
    let mut c_opt = consume_either(tokens, j, '+', '-');
    while c_opt.is_some()
        invariant
            a0 == *old(ast),
            ast.wf(),
            ast.cap() == a0.cap(),
            a0.len_spec() <= ast.len_spec(),
            i < j,
            j as int <= tokens@.len(),
            tokens@.len() == n_toks as int,
            forall|k2: int|
                #[trigger] a0@.contains_key(k2) ==> ast@.contains_key(k2) && ast@[k2] == a0@[k2],
            ast.len_spec() - a0.len_spec() <= j as int - i as int,
            a0.len_spec() + tokens@.len() - i as int <= a0.cap(),
            0 <= left.sid() < ast.len_spec(),
            denote(ast@, left.sid()) == Some(cur),
            spec_term(tokens@, i as int) == spec_term_rest(tokens@, j as int, cur),
            c_opt == spec_match2(tokens@, j as int, '+', '-'),
        decreases tokens@.len() - j as int,
    {
        let c = c_opt.unwrap();
        let ghost m1 = ast@;
        let ghost len1 = ast.len_spec();
        proof {
            crate::store::lemma_wf_dom(*ast);
            assert forall|k2: int| 0 <= k2 < len1 implies m1.contains_key(k2) by {}
        }
        let rres = factor(ast, tokens, j + 1);
        if rres.is_none() {
            return None;
        }
        let (right, k, rt) = rres.unwrap();
        proof {
            assert forall|k2: int| 0 <= k2 <= left.sid() implies m1.contains_key(k2)
                && ast@.contains_key(k2) && ast@[k2] == m1[k2] by {
                assert(k2 < len1);
                assert(m1.contains_key(k2));
            }
            lemma_denote_frame(m1, ast@, left.sid());
        }
        let op = char_to_string(c);
        let ghost m2 = ast@;
        let ghost len2 = ast.len_spec();
        proof {
            crate::store::lemma_wf_dom(*ast);
            assert forall|k2: int| 0 <= k2 < len2 implies m2.contains_key(k2) by {}
        }
        let h = ast.add_binary(Binary { operator: op, left, right });
        proof {
            assert forall|k2: int| 0 <= k2 <= left.sid() || 0 <= k2 <= right.sid() implies
                m2.contains_key(k2) && ast@.contains_key(k2) && ast@[k2] == m2[k2] by {
                assert(k2 < len2);
                assert(m2.contains_key(k2));
            }
            lemma_denote_frame(m2, ast@, left.sid());
            lemma_denote_frame(m2, ast@, right.sid());
            cur = Tree::Bin(c, Box::new(cur), Box::new(rt@));
            assert(denote(ast@, h.sid()) == Some(cur));
        }
        left = h;
        j = k;
        c_opt = consume_either(tokens, j, '+', '-');
    }
    Some((left, j, Ghost(cur)))
}

fn factor(ast: &mut Ast, tokens: &Vec<Token>, i: usize) -> (r: Option<
    (ExpressionHandle, usize, Ghost<Tree>),
>)
    requires
        old(ast).wf(),
        i as int <= tokens@.len(),
        old(ast).len_spec() + tokens@.len() - i as int <= old(ast).cap(),
    ensures
        final(ast).wf(),
        final(ast).cap() == old(ast).cap(),
        old(ast).len_spec() <= final(ast).len_spec(),
        forall|k: int|
            #[trigger] old(ast)@.contains_key(k) ==> final(ast)@.contains_key(k) && final(ast)@[k] == old(
                ast,
            )@[k],
        r is Some <==> spec_factor(tokens@, i as int) is Some,
        r matches Some((h, j, t)) ==> i < j <= tokens@.len() && spec_factor(tokens@, i as int)
            == Some((t@, j as int)) && 0 <= h.sid() < final(ast).len_spec() && denote(
            final(ast)@,
            h.sid(),
        ) == Some(t@) && final(ast).len_spec() - old(ast).len_spec() <= j - i,
    decreases tokens@.len() - i as int, 3int,
{
    broadcast use vstd::map::group_map_axioms;
    broadcast use vstd::set::group_set_axioms;

    let n_toks = tokens.len();
    let ghost a0 = *old(ast);
    let res = unary(ast, tokens, i);
    if res.is_none() {
        return None;
    }
    let (mut left, mut j, t0) = res.unwrap();
    let ghost mut cur: Tree = t0@;
    let mut c_opt = consume_either(tokens, j, '*', '/');
    while c_opt.is_some()
        invariant
            a0 == *old(ast),
            ast.wf(),
            ast.cap() == a0.cap(),
            a0.len_spec() <= ast.len_spec(),
            i < j,
            j as int <= tokens@.len(),
            tokens@.len() == n_toks as int,
            forall|k2: int|
                #[trigger] a0@.contains_key(k2) ==> ast@.contains_key(k2) && ast@[k2] == a0@[k2],
            ast.len_spec() - a0.len_spec() <= j as int - i as int,
            a0.len_spec() + tokens@.len() - i as int <= a0.cap(),
            0 <= left.sid() < ast.len_spec(),
            denote(ast@, left.sid()) == Some(cur),
            spec_factor(tokens@, i as int) == spec_factor_rest(tokens@, j as int, cur),
            c_opt == spec_match2(tokens@, j as int, '*', '/'),
        decreases tokens@.len() - j as int,
    {
        let c = c_opt.unwrap();
        let ghost m1 = ast@;
        let ghost len1 = ast.len_spec();
        proof {
            crate::store::lemma_wf_dom(*ast);
            assert forall|k2: int| 0 <= k2 < len1 implies m1.contains_key(k2) by {}
        }
        let rres = unary(ast, tokens, j + 1);
        if rres.is_none() {
            return None;
        }
        let (right, k, rt) = rres.unwrap();
        proof {
            assert forall|k2: int| 0 <= k2 <= left.sid() implies m1.contains_key(k2)
                && ast@.contains_key(k2) && ast@[k2] == m1[k2] by {
                assert(k2 < len1);
                assert(m1.contains_key(k2));
            }
            lemma_denote_frame(m1, ast@, left.sid());
        }
        let op = char_to_string(c);
        let ghost m2 = ast@;
        let ghost len2 = ast.len_spec();
        proof {
            crate::store::lemma_wf_dom(*ast);
            assert forall|k2: int| 0 <= k2 < len2 implies m2.contains_key(k2) by {}
        }
        let h = ast.add_binary(Binary { operator: op, left, right });
        proof {
            assert forall|k2: int| 0 <= k2 <= left.sid() || 0 <= k2 <= right.sid() implies
                m2.contains_key(k2) && ast@.contains_key(k2) && ast@[k2] == m2[k2] by {
                assert(k2 < len2);
                assert(m2.contains_key(k2));
            }
            lemma_denote_frame(m2, ast@, left.sid());
            lemma_denote_frame(m2, ast@, right.sid());
            cur = Tree::Bin(c, Box::new(cur), Box::new(rt@));
            assert(denote(ast@, h.sid()) == Some(cur));
        }
        left = h;
        j = k;
        c_opt = consume_either(tokens, j, '*', '/');
    }
    Some((left, j, Ghost(cur)))
}

fn unary(ast: &mut Ast, tokens: &Vec<Token>, i: usize) -> (r: Option<
    (ExpressionHandle, usize, Ghost<Tree>),
>)
    requires
        old(ast).wf(),
        i as int <= tokens@.len(),
        old(ast).len_spec() + tokens@.len() - i as int <= old(ast).cap(),
    ensures
        final(ast).wf(),
        final(ast).cap() == old(ast).cap(),
        old(ast).len_spec() <= final(ast).len_spec(),
        forall|k: int|
            #[trigger] old(ast)@.contains_key(k) ==> final(ast)@.contains_key(k) && final(ast)@[k] == old(
                ast,
            )@[k],
        r is Some <==> spec_unary(tokens@, i as int) is Some,
        r matches Some((h, j, t)) ==> i < j <= tokens@.len() && spec_unary(tokens@, i as int)
            == Some((t@, j as int)) && 0 <= h.sid() < final(ast).len_spec() && denote(
            final(ast)@,
            h.sid(),
        ) == Some(t@) && final(ast).len_spec() - old(ast).len_spec() <= j - i,
    decreases tokens@.len() - i as int, 2int,
{
    broadcast use vstd::map::group_map_axioms;
    broadcast use vstd::set::group_set_axioms;

    if i >= tokens.len() {
        return None;
    }
    match consume_either(tokens, i, '+', '-') {
        Some(c) => {
            let res = unary(ast, tokens, i + 1);
            if res.is_none() {
                return None;
            }
            let (operand, j, t0) = res.unwrap();
            let op = char_to_string(c);
            let ghost m2 = ast@;
            let h = ast.add_unary(Unary { operator: op, operand });
            proof {
                broadcast use vstd::map::group_map_axioms;
                broadcast use vstd::set::group_set_axioms;

                assert forall|k2: int| 0 <= k2 <= operand.sid() implies (m2.contains_key(k2)
                    <==> ast@.contains_key(k2)) by {}
                lemma_denote_frame(m2, ast@, operand.sid());
                assert(denote(ast@, h.sid()) == Some(Tree::Un(c, Box::new(t0@))));
            }
            Some((h, j, Ghost(Tree::Un(c, Box::new(t0@)))))
        },
        None => primary(ast, tokens, i),
    }
}

fn primary(ast: &mut Ast, tokens: &Vec<Token>, i: usize) -> (r: Option<
    (ExpressionHandle, usize, Ghost<Tree>),
>)
    requires
        old(ast).wf(),
        i as int <= tokens@.len(),
        old(ast).len_spec() + tokens@.len() - i as int <= old(ast).cap(),
    ensures
        final(ast).wf(),
        final(ast).cap() == old(ast).cap(),
        old(ast).len_spec() <= final(ast).len_spec(),
        forall|k: int|
            #[trigger] old(ast)@.contains_key(k) ==> final(ast)@.contains_key(k) && final(ast)@[k] == old(
                ast,
            )@[k],
        r is Some <==> spec_primary(tokens@, i as int) is Some,
        r matches Some((h, j, t)) ==> i < j <= tokens@.len() && spec_primary(tokens@, i as int)
            == Some((t@, j as int)) && 0 <= h.sid() < final(ast).len_spec() && denote(
            final(ast)@,
            h.sid(),
        ) == Some(t@) && final(ast).len_spec() - old(ast).len_spec() <= j - i,
    decreases tokens@.len() - i as int, 1int,
{
    broadcast use vstd::map::group_map_axioms;
    broadcast use vstd::set::group_set_axioms;

    if i >= tokens.len() {
        return None;
    }
    match &tokens[i] {
        Token::Integer { value } => {
            let l = Literal::Integer(*value);
            let h = ast.add_literal(l);
            proof {
                broadcast use vstd::map::group_map_axioms;
                broadcast use vstd::set::group_set_axioms;

                assert(denote(ast@, h.sid()) == Some(Tree::Leaf(Literal::Integer(*value))));
            }
            Some((h, i + 1, Ghost(Tree::Leaf(Literal::Integer(*value)))))
        },
        Token::Float { text } => {
            let l = Literal::Float(text.clone());
            let ghost lit = l;
            let h = ast.add_literal(l);
            proof {
                broadcast use vstd::map::group_map_axioms;
                broadcast use vstd::set::group_set_axioms;

                assert(denote(ast@, h.sid()) == Some(Tree::Leaf(lit)));
            }
            Some((h, i + 1, Ghost(Tree::Leaf(lit))))
        },
        Token::Grouping { char_ } => {
            if *char_ == '(' {
                let res = expression(ast, tokens, i + 1);
                if res.is_none() {
                    return None;
                }
                let (h, j, t0) = res.unwrap();
                if consume(tokens, j, ')') {
                    Some((h, j + 1, t0))
                } else {
                    None
                }
            } else {
                None
            }
        },
        _ => None,
    }
}

} // verus!
