use vstd::prelude::*;

use crate::parser::Binary;
use crate::parser::ExpressionHandle;
use crate::parser::Literal;
use crate::parser::Unary;

verus! {

/// The node currently occupying a slot of the store.
#[derive(Clone, Debug)]
pub enum Expression {
    Binary(Binary),
    Unary(Unary),
    Literal(Literal),
}

pub open spec fn as_literal(e: Expression) -> Option<Literal> {
    match e {
        Expression::Literal(l) => Some(l),
        _ => None,
    }
}

pub open spec fn as_unary(e: Expression) -> Option<Unary> {
    match e {
        Expression::Unary(u) => Some(u),
        _ => None,
    }
}

pub open spec fn as_binary(e: Expression) -> Option<Binary> {
    match e {
        Expression::Binary(b) => Some(b),
        _ => None,
    }
}

#[verifier::external_type_specification]
#[verifier::external_body]
pub struct ExEntities(tiny_ecs::Entities);

/// What the entity store holds: for each slot id that carries exactly one
/// node component, the node occupying it.
pub uninterp spec fn store_model(e: tiny_ecs::Entities) -> Map<int, Expression>;

/// The number of slots the store was created with; `tiny_ecs` fixes it at
/// creation and inserting at an id beyond it would abort.
pub uninterp spec fn store_cap(e: tiny_ecs::Entities) -> int;

/// The id the next created slot will get; negative for a store in a shape
/// these wrappers never produce (vacated or half-built entities).
pub uninterp spec fn store_next(e: tiny_ecs::Entities) -> int;

pub open spec fn lookup_literal(m: Map<int, Expression>, id: int) -> Option<Literal> {
    if m.contains_key(id) {
        as_literal(m[id])
    } else {
        None
    }
}

pub open spec fn lookup_unary(m: Map<int, Expression>, id: int) -> Option<Unary> {
    if m.contains_key(id) {
        as_unary(m[id])
    } else {
        None
    }
}

pub open spec fn lookup_binary(m: Map<int, Expression>, id: int) -> Option<Binary> {
    if m.contains_key(id) {
        as_binary(m[id])
    } else {
        None
    }
}

/// Relies on `tiny_ecs::Entities::new`: a store of `entity_cap` slots, none
/// occupied; it panics when the component-kind count exceeds 63, so that is
/// required away.
#[verifier::external_body]
fn store_new(entity_cap: usize, kind_cap: usize) -> (e: tiny_ecs::Entities)
    requires
        kind_cap <= 63,
    ensures
        store_cap(e) == entity_cap as int,
        store_next(e) == 0,
        store_model(e) =~= Map::empty(),
{
    tiny_ecs::Entities::new(Some(entity_cap), Some(kind_cap))
}

/// Relies on `tiny_ecs::Entities::new_entity`, `with` and `finalise`: with
/// room left and no slot ever vacated, the ids come out sequentially and the
/// new entity holds exactly the one component it was built with.
#[verifier::external_body]
fn store_add_literal(e: &mut tiny_ecs::Entities, l: Literal) -> (id: usize)
    requires
        0 <= store_next(*old(e)) < store_cap(*old(e)),
    ensures
        id as int == store_next(*old(e)),
        store_next(*final(e)) == store_next(*old(e)) + 1,
        store_cap(*final(e)) == store_cap(*old(e)),
        store_model(*final(e)) == store_model(*old(e)).insert(
            store_next(*old(e)),
            Expression::Literal(l),
        ),
{
    e.new_entity().with(l).unwrap().finalise().unwrap()
}

/// Relies on `tiny_ecs::Entities::new_entity`, `with` and `finalise`, as
/// `store_add_literal` does.
#[verifier::external_body]
fn store_add_unary(e: &mut tiny_ecs::Entities, u: Unary) -> (id: usize)
    requires
        0 <= store_next(*old(e)) < store_cap(*old(e)),
    ensures
        id as int == store_next(*old(e)),
        store_next(*final(e)) == store_next(*old(e)) + 1,
        store_cap(*final(e)) == store_cap(*old(e)),
        store_model(*final(e)) == store_model(*old(e)).insert(
            store_next(*old(e)),
            Expression::Unary(u),
        ),
{
    e.new_entity().with(u).unwrap().finalise().unwrap()
}

/// Relies on `tiny_ecs::Entities::new_entity`, `with` and `finalise`, as
/// `store_add_literal` does.
#[verifier::external_body]
fn store_add_binary(e: &mut tiny_ecs::Entities, b: Binary) -> (id: usize)
    requires
        0 <= store_next(*old(e)) < store_cap(*old(e)),
    ensures
        id as int == store_next(*old(e)),
        store_next(*final(e)) == store_next(*old(e)) + 1,
        store_cap(*final(e)) == store_cap(*old(e)),
        store_model(*final(e)) == store_model(*old(e)).insert(
            store_next(*old(e)),
            Expression::Binary(b),
        ),
{
    e.new_entity().with(b).unwrap().finalise().unwrap()
}

/// Relies on `tiny_ecs::Entities::borrow` and `persist_o_vec::Persist::get`:
/// the literal stored under this id, if the id currently holds one.
#[verifier::external_body]
fn store_get_literal(e: &tiny_ecs::Entities, id: usize) -> (r: Option<Literal>)
    ensures
        store_next(*e) >= 0 ==> r == lookup_literal(store_model(*e), id as int),
{
    match e.borrow::<Literal>() {
        Ok(m) => m.get(id).cloned(),
        Err(_) => None,
    }
}

/// Relies on `tiny_ecs::Entities::borrow` and `persist_o_vec::Persist::get`,
/// as `store_get_literal` does.
#[verifier::external_body]
fn store_get_unary(e: &tiny_ecs::Entities, id: usize) -> (r: Option<Unary>)
    ensures
        store_next(*e) >= 0 ==> r == lookup_unary(store_model(*e), id as int),
{
    match e.borrow::<Unary>() {
        Ok(m) => m.get(id).cloned(),
        Err(_) => None,
    }
}

/// Relies on `tiny_ecs::Entities::borrow` and `persist_o_vec::Persist::get`,
/// as `store_get_literal` does.
#[verifier::external_body]
fn store_get_binary(e: &tiny_ecs::Entities, id: usize) -> (r: Option<Binary>)
    ensures
        store_next(*e) >= 0 ==> r == lookup_binary(store_model(*e), id as int),
{
    match e.borrow::<Binary>() {
        Ok(m) => m.get(id).cloned(),
        Err(_) => None,
    }
}

/// Relies on `tiny_ecs::Entities::add_component_to` and
/// `rm_component_from`: adding the literal first and then removing the unary
/// component leaves the same slot id occupied by the literal alone, and the
/// slot is never seen empty, so its id is never recycled.
#[verifier::external_body]
fn store_replace_unary(e: &mut tiny_ecs::Entities, id: usize, l: Literal)
    requires
        0 <= store_next(*old(e)),
        lookup_unary(store_model(*old(e)), id as int) is Some,
    ensures
        store_next(*final(e)) == store_next(*old(e)),
        store_cap(*final(e)) == store_cap(*old(e)),
        store_model(*final(e)) == store_model(*old(e)).insert(
            id as int,
            Expression::Literal(l),
        ),
{
    e.add_component_to(id, l).unwrap();
    e.rm_component_from::<Unary>(id).unwrap();
}

/// Relies on `tiny_ecs::Entities::add_component_to` and
/// `rm_component_from`, as `store_replace_unary` does.
#[verifier::external_body]
fn store_replace_binary(e: &mut tiny_ecs::Entities, id: usize, l: Literal)
    requires
        0 <= store_next(*old(e)),
        lookup_binary(store_model(*old(e)), id as int) is Some,
    ensures
        store_next(*final(e)) == store_next(*old(e)),
        store_cap(*final(e)) == store_cap(*old(e)),
        store_model(*final(e)) == store_model(*old(e)).insert(
            id as int,
            Expression::Literal(l),
        ),
{
    e.add_component_to(id, l).unwrap();
    e.rm_component_from::<Binary>(id).unwrap();
}

/// A unary operator the grammar can produce.
pub open spec fn unary_op_ok(op: Seq<char>) -> bool {
    op.len() == 1 && (op[0] == '+' || op[0] == '-')
}

/// A binary operator the grammar can produce.
pub open spec fn binary_op_ok(op: Seq<char>) -> bool {
    op.len() == 1 && (op[0] == '+' || op[0] == '-' || op[0] == '*' || op[0] == '/')
}

/// What may occupy slot `id`: operators come from the grammar's closed sets,
/// and every child handle names a strictly earlier slot, so the graph the
/// parser and the folding passes build is acyclic.
pub open spec fn node_wf(e: Expression, id: int) -> bool {
    match e {
        Expression::Literal(_) => true,
        Expression::Unary(u) => unary_op_ok(u.operator@) && 0 <= u.operand.sid() < id,
        Expression::Binary(b) => binary_op_ok(b.operator@) && 0 <= b.left.sid() < id && 0
            <= b.right.sid() < id,
    }
}

/// Inserting at a fresh id leaves every occupied slot as it was.
proof fn lemma_insert_frame(m0: Map<int, Expression>, m1: Map<int, Expression>, n: int, e: Expression)
    requires
        m1 == m0.insert(n, e),
        !m0.contains_key(n),
    ensures
        forall|k: int| #[trigger] m0.contains_key(k) ==> m1.contains_key(k) && m1[k] == m0[k],
{
    broadcast use vstd::map::group_map_axioms;
    broadcast use vstd::set::group_set_axioms;

    assert forall|k: int| m0.contains_key(k) implies m1.contains_key(k) && m1[k] == m0[k] by {
        assert(k != n);
        assert(m0.insert(n, e).contains_key(k));
        assert(m0.insert(n, e)[k] == m0[k]);
    }
}

/// Inserting a well-formed node at the next free id keeps every
/// well-formedness fact about the occupied ids.
proof fn lemma_add_preserves_wf(m0: Map<int, Expression>, m1: Map<int, Expression>, n: int, e: Expression)
    requires
        0 <= n,
        m1 == m0.insert(n, e),
        node_wf(e, n),
        forall|i: int| 0 <= i < n <==> m0.contains_key(i),
        forall|i: int| m0.contains_key(i) ==> node_wf(#[trigger] m0[i], i),
    ensures
        forall|i: int| 0 <= i < n + 1 <==> m1.contains_key(i),
        forall|i: int| m1.contains_key(i) ==> node_wf(#[trigger] m1[i], i),
{
    broadcast use vstd::map::group_map_axioms;
    broadcast use vstd::set::group_set_axioms;

    assert forall|i: int| 0 <= i < n + 1 implies m1.contains_key(i) by {
        if i != n {
            assert(m0.contains_key(i));
        }
    }
    assert forall|i: int| m1.contains_key(i) implies 0 <= i < n + 1 by {
        if i != n {
            assert(m0.contains_key(i));
        }
    }
    assert forall|i: int| m1.contains_key(i) implies node_wf(m1[i], i) by {
        if i != n {
            assert(m0.contains_key(i));
            assert(m1[i] == m0[i]);
        }
    }
}

/// The expression store: an arena of identity-stable slots over a
/// `tiny_ecs` entity space. A slot is created occupied and is never deleted;
/// the only mutation is replacing what occupies it, which every handle to
/// that slot observes at its next resolution.
pub struct Ast {
    ents: tiny_ecs::Entities,
    n: usize,
}

impl View for Ast {
    type V = Map<int, Expression>;

    closed spec fn view(&self) -> Map<int, Expression> {
        store_model(self.ents)
    }
}

impl Ast {
    /// How many slots have been created.
    pub closed spec fn len_spec(&self) -> int {
        self.n as int
    }

    /// How many slots the store can ever hold.
    pub closed spec fn cap(&self) -> int {
        store_cap(self.ents)
    }

    pub closed spec fn wf(&self) -> bool {
        &&& self.n as int == store_next(self.ents)
        &&& store_next(self.ents) <= store_cap(self.ents)
        &&& store_cap(self.ents) <= usize::MAX as int
        &&& forall|i: int| 0 <= i < self.n as int <==> self@.contains_key(i)
        &&& forall|i: int| self@.contains_key(i) ==> node_wf(#[trigger] self@[i], i)
    }

    /// A fresh store with room for `capacity` slots.
    pub fn new(capacity: usize) -> (r: Ast)
        ensures
            r.wf(),
            r.len_spec() == 0,
            r.cap() == capacity as int,
            r@ =~= Map::<int, Expression>::empty(),
    {
        let ents = store_new(capacity, 3);
        Ast { ents, n: 0 }
    }

    pub fn len(&self) -> (r: usize)
        requires
            self.wf(),
        ensures
            r as int == self.len_spec(),
    {
        self.n
    }

    pub(crate) fn add_literal(&mut self, l: Literal) -> (h: ExpressionHandle)
        requires
            old(self).wf(),
            old(self).len_spec() < old(self).cap(),
        ensures
            final(self).wf(),
            h == ExpressionHandle::Literal(old(self).len_spec() as usize),
            h.sid() == old(self).len_spec(),
            final(self).len_spec() == old(self).len_spec() + 1,
            final(self).cap() == old(self).cap(),
            final(self)@ == old(self)@.insert(old(self).len_spec(), Expression::Literal(l)),
            forall|k: int|
                #[trigger] old(self)@.contains_key(k) ==> final(self)@.contains_key(k)
                    && final(self)@[k] == old(self)@[k],
    {
        let id = store_add_literal(&mut self.ents, l);
        self.n = self.n + 1;
        proof {
            lemma_add_preserves_wf(old(self)@, self@, old(self).n as int, Expression::Literal(l));
            lemma_insert_frame(old(self)@, self@, old(self).n as int, Expression::Literal(l));
        }
        ExpressionHandle::Literal(id)
    }

    pub(crate) fn add_unary(&mut self, u: Unary) -> (h: ExpressionHandle)
        requires
            old(self).wf(),
            old(self).len_spec() < old(self).cap(),
            unary_op_ok(u.operator@),
            0 <= u.operand.sid() < old(self).len_spec(),
        ensures
            final(self).wf(),
            h == ExpressionHandle::Unary(old(self).len_spec() as usize),
            h.sid() == old(self).len_spec(),
            final(self).len_spec() == old(self).len_spec() + 1,
            final(self).cap() == old(self).cap(),
            final(self)@ == old(self)@.insert(old(self).len_spec(), Expression::Unary(u)),
            forall|k: int|
                #[trigger] old(self)@.contains_key(k) ==> final(self)@.contains_key(k)
                    && final(self)@[k] == old(self)@[k],
    {
        let id = store_add_unary(&mut self.ents, u);
        self.n = self.n + 1;
        proof {
            lemma_add_preserves_wf(old(self)@, self@, old(self).n as int, Expression::Unary(u));
            lemma_insert_frame(old(self)@, self@, old(self).n as int, Expression::Unary(u));
        }
        ExpressionHandle::Unary(id)
    }

    pub(crate) fn add_binary(&mut self, b: Binary) -> (h: ExpressionHandle)
        requires
            old(self).wf(),
            old(self).len_spec() < old(self).cap(),
            binary_op_ok(b.operator@),
            0 <= b.left.sid() < old(self).len_spec(),
            0 <= b.right.sid() < old(self).len_spec(),
        ensures
            final(self).wf(),
            h == ExpressionHandle::Binary(old(self).len_spec() as usize),
            h.sid() == old(self).len_spec(),
            final(self).len_spec() == old(self).len_spec() + 1,
            final(self).cap() == old(self).cap(),
            final(self)@ == old(self)@.insert(old(self).len_spec(), Expression::Binary(b)),
            forall|k: int|
                #[trigger] old(self)@.contains_key(k) ==> final(self)@.contains_key(k)
                    && final(self)@[k] == old(self)@[k],
    {
        let id = store_add_binary(&mut self.ents, b);
        self.n = self.n + 1;
        proof {
            lemma_add_preserves_wf(old(self)@, self@, old(self).n as int, Expression::Binary(b));
            lemma_insert_frame(old(self)@, self@, old(self).n as int, Expression::Binary(b));
        }
        ExpressionHandle::Binary(id)
    }

    pub(crate) fn get_unary(&self, id: usize) -> (r: Option<Unary>)
        requires
            self.wf(),
        ensures
            r == lookup_unary(self@, id as int),
    {
        store_get_unary(&self.ents, id)
    }

    pub(crate) fn get_binary(&self, id: usize) -> (r: Option<Binary>)
        requires
            self.wf(),
        ensures
            r == lookup_binary(self@, id as int),
    {
        store_get_binary(&self.ents, id)
    }

    pub(crate) fn get_literal(&self, id: usize) -> (r: Option<Literal>)
        requires
            self.wf(),
        ensures
            r == lookup_literal(self@, id as int),
    {
        store_get_literal(&self.ents, id)
    }

    pub(crate) fn replace_unary(&mut self, id: usize, l: Literal)
        requires
            old(self).wf(),
            lookup_unary(old(self)@, id as int) is Some,
        ensures
            final(self).wf(),
            final(self).len_spec() == old(self).len_spec(),
            final(self).cap() == old(self).cap(),
            final(self)@ == old(self)@.insert(id as int, Expression::Literal(l)),
    {
        store_replace_unary(&mut self.ents, id, l);
    }

    pub(crate) fn replace_binary(&mut self, id: usize, l: Literal)
        requires
            old(self).wf(),
            lookup_binary(old(self)@, id as int) is Some,
        ensures
            final(self).wf(),
            final(self).len_spec() == old(self).len_spec(),
            final(self).cap() == old(self).cap(),
            final(self)@ == old(self)@.insert(id as int, Expression::Literal(l)),
    {
        store_replace_binary(&mut self.ents, id, l);
    }
}

/// The public face of well-formedness: the occupied slots are exactly the
/// ids below `len_spec`, each occupant is well formed, and there is room up
/// to `cap`.
pub proof fn lemma_wf_dom(a: Ast)
    requires
        a.wf(),
    ensures
        0 <= a.len_spec() <= a.cap(),
        forall|i: int| 0 <= i < a.len_spec() <==> #[trigger] a@.contains_key(i),
        forall|i: int| #[trigger] a@.contains_key(i) ==> node_wf(a@[i], i),
{
}

/// Resolve a handle to a copy of whatever node currently occupies its slot:
/// `None` only for a handle that does not belong to this store.
pub fn get_expression(ast: &Ast, handle: &ExpressionHandle) -> (r: Option<Expression>)
    requires
        ast.wf(),
    ensures
        r == (if ast@.contains_key(handle.sid()) {
            Some(ast@[handle.sid()])
        } else {
            None::<Expression>
        }),
{
    let id = handle.id();
    if let Some(l) = ast.get_literal(id) {
        Some(Expression::Literal(l))
    } else if let Some(u) = ast.get_unary(id) {
        Some(Expression::Unary(u))
    } else if let Some(b) = ast.get_binary(id) {
        Some(Expression::Binary(b))
    } else {
        None
    }
}

} // verus!
