use vstd::prelude::*;

use crate::field::{fe_add, fe_mul, fe_neg, field_modulus, neg_mod, Fe};

verus! {

/// The four signal counts of an R1CS header.
#[derive(Debug)]
pub struct Header {
    pub n_wires: u32,
    pub n_pub_out: u32,
    pub n_pub_in: u32,
    pub n_prv_in: u32,
}

/// One R1CS constraint: three sparse rows over (wire index, coefficient),
/// encoding (a . w) * (b . w) = (c . w).
#[derive(Debug)]
pub struct Constraint {
    pub a: Vec<(u32, Fe)>,
    pub b: Vec<(u32, Fe)>,
    pub c: Vec<(u32, Fe)>,
}

/// An algebraic expression over ACIR witnesses: quadratic terms
/// (coefficient, witness, witness), linear terms (coefficient, witness), and
/// a constant term.
#[derive(Debug)]
pub struct Expression {
    pub mul_terms: Vec<(Fe, u32, u32)>,
    pub linear_combinations: Vec<(Fe, u32)>,
    pub q_c: Fe,
}

/// An ACIR opcode; every translated constraint asserts one expression zero.
#[derive(Debug)]
pub enum Opcode {
    AssertZero(Expression),
}

/// The translated circuit: the opcode list, the witness partitioning, and the
/// declared wire count carried through as the running witness-index ceiling.
#[derive(Debug)]
pub struct Circuit {
    pub current_witness_index: u32,
    pub opcodes: Vec<Opcode>,
    pub private_parameters: Vec<u32>,
    pub public_parameters: Vec<u32>,
    pub return_values: Vec<u32>,
}

/// Raised when an expression that is supposed to be linear already carries a
/// quadratic term; well-formed R1CS rows never produce one.
#[derive(Debug)]
pub enum CircuitError {
    UnexpectedQuadraticTerm,
}

/// The mathematical shape of an expression: coefficients as field values.
pub struct ExprModel {
    pub mul_terms: Seq<(nat, nat, nat)>,
    pub linear: Seq<(nat, nat)>,
    pub q_c: nat,
}

/// The model of an executable expression.
pub open spec fn expr_model(e: Expression) -> ExprModel {
    ExprModel {
        mul_terms: mul_terms_model(e.mul_terms@),
        linear: lin_model(e.linear_combinations@),
        q_c: e.q_c.value(),
    }
}

/// The model of a list of quadratic terms.
pub open spec fn mul_terms_model(s: Seq<(Fe, u32, u32)>) -> Seq<(nat, nat, nat)> {
    s.map_values(|t: (Fe, u32, u32)| (t.0.value(), t.1 as nat, t.2 as nat))
}

/// The model of a list of linear terms.
pub open spec fn lin_model(s: Seq<(Fe, u32)>) -> Seq<(nat, nat)> {
    s.map_values(|t: (Fe, u32)| (t.0.value(), t.1 as nat))
}

/// The model of an opcode.
pub open spec fn opcode_model(op: Opcode) -> ExprModel {
    match op {
        Opcode::AssertZero(e) => expr_model(e),
    }
}

/// The summed wire-0 coefficients of a sparse row: every entry attached to
/// wire 0 contributes to the constant term of the converted expression.
pub open spec fn wire0_sum(row: Seq<(u32, Fe)>) -> nat
    decreases row.len(),
{
    if row.len() == 0 {
        0
    } else {
        let rest = wire0_sum(row.drop_last());
        let last = row[row.len() - 1];
        if last.0 == 0 {
            (rest + last.1.value()) % field_modulus()
        } else {
            rest
        }
    }
}

/// The linear terms of a converted sparse row: every entry on a wire i >= 1
/// keeps its coefficient and moves to ACIR witness i - 1, in row order.
pub open spec fn linear_of(row: Seq<(u32, Fe)>) -> Seq<(nat, nat)>
    decreases row.len(),
{
    if row.len() == 0 {
        Seq::empty()
    } else {
        let rest = linear_of(row.drop_last());
        let last = row[row.len() - 1];
        if last.0 == 0 {
            rest
        } else {
            rest.push((last.1.value(), (last.0 - 1) as nat))
        }
    }
}

/// The model of the expression a sparse row converts to.
pub open spec fn row_expr_model(row: Seq<(u32, Fe)>) -> ExprModel {
    ExprModel { mul_terms: Seq::empty(), linear: linear_of(row), q_c: wire0_sum(row) }
}

/// Whether a converted linear term stems from some row entry on a wire
/// i >= 1, carrying that entry's coefficient on witness i - 1.
pub open spec fn shifted_from_row(row: Seq<(u32, Fe)>, t: (nat, nat)) -> bool {
    exists|k: int|
        0 <= k < row.len() && #[trigger] row[k].0 >= 1 && t == (
        row[k].1.value(),
        (row[k].0 - 1) as nat,
        )
}

/// Every converted linear term stems from a row entry on a wire i >= 1 and
/// sits on witness i - 1; wire 0 never appears as a witness, since its
/// entries are folded into the constant term instead.
pub proof fn lemma_witness_shift(row: Seq<(u32, Fe)>)
    ensures
        forall|j: int|
            0 <= j < linear_of(row).len() ==> shifted_from_row(row, #[trigger] linear_of(row)[j]),
    decreases row.len(),
{
    if row.len() > 0 {
        lemma_witness_shift(row.drop_last());
        let rest = linear_of(row.drop_last());
        assert forall|j: int| 0 <= j < linear_of(row).len() implies shifted_from_row(
            row,
            #[trigger] linear_of(row)[j],
        ) by {
            if j < rest.len() {
                let k = choose|k: int|
                    0 <= k < row.drop_last().len() && #[trigger] row.drop_last()[k].0 >= 1
                        && rest[j] == (row.drop_last()[k].1.value(), (row.drop_last()[k].0
                        - 1) as nat);
                assert(row[k].0 >= 1 && linear_of(row)[j] == (row[k].1.value(), (row[k].0
                    - 1) as nat));
            } else {
                let k = row.len() - 1;
                assert(row[k].0 >= 1 && linear_of(row)[j] == (row[k].1.value(), (row[k].0
                    - 1) as nat));
            }
        }
    }
}

/// Converts one sparse R1CS row into a linear ACIR expression: wire-0
/// coefficients are summed into the constant term, every other entry keeps
/// its coefficient and moves down one witness index.
pub fn r1cs_term_to_expr(term: &Vec<(u32, Fe)>) -> (r: Expression)
    ensures
        expr_model(r) == row_expr_model(term@),
        r.mul_terms@.len() == 0,
{
    let mut q_c = Fe::zero();
    let mut lin: Vec<(Fe, u32)> = Vec::new();
    let mut i: usize = 0;
    while i < term.len()
        invariant
            i <= term@.len(),
            q_c.value() == wire0_sum(term@.take(i as int)),
            lin_model(lin@) == linear_of(term@.take(i as int)),
        decreases term@.len() - i,
    {
        proof {
            assert(term@.take(i + 1).drop_last() =~= term@.take(i as int));
            assert(term@.take(i + 1)[i as int] == term@[i as int]);
        }
        let idx = term[i].0;
        if idx == 0 {
            q_c = fe_add(&q_c, &term[i].1);
        } else {
            lin.push((term[i].1.dup(), idx - 1));
            proof {
                assert(lin_model(lin@) =~= linear_of(term@.take(i + 1)));
            }
        }
        i = i + 1;
    }
    proof {
        assert(term@.take(term@.len() as int) =~= term@);
    }
    let r = Expression { mul_terms: Vec::new(), linear_combinations: lin, q_c };
    proof {
        assert(expr_model(r).mul_terms =~= Seq::<(nat, nat, nat)>::empty());
    }
    r
}

/// The quadratic terms of the product of two linear expressions: every pair
/// of linear terms contributes one term, outer rows first.
pub open spec fn cross_terms(x: Seq<(nat, nat)>, y: Seq<(nat, nat)>) -> Seq<(nat, nat, nat)>
    decreases x.len(),
{
    if x.len() == 0 {
        Seq::empty()
    } else {
        cross_terms(x.drop_last(), y) + row_cross(x[x.len() - 1], y)
    }
}

/// The quadratic terms one linear term contributes against a whole row.
pub open spec fn row_cross(t: (nat, nat), y: Seq<(nat, nat)>) -> Seq<(nat, nat, nat)>
    decreases y.len(),
{
    if y.len() == 0 {
        Seq::empty()
    } else {
        row_cross(t, y.drop_last()).push(
            ((t.0 * y[y.len() - 1].0) % field_modulus(), t.1, y[y.len() - 1].1),
        )
    }
}

/// Linear terms scaled by a constant factor in the field.
pub open spec fn scaled(k: nat, y: Seq<(nat, nat)>) -> Seq<(nat, nat)> {
    y.map_values(|t: (nat, nat)| ((k * t.0) % field_modulus(), t.1))
}

/// Linear terms with every coefficient negated in the field.
pub open spec fn negated(y: Seq<(nat, nat)>) -> Seq<(nat, nat)> {
    y.map_values(|t: (nat, nat)| (neg_mod(t.0), t.1))
}

/// The model of the product of two linear expressions.
pub open spec fn mul_model(a: ExprModel, b: ExprModel) -> ExprModel {
    ExprModel {
        mul_terms: cross_terms(a.linear, b.linear),
        linear: scaled(a.q_c, b.linear) + scaled(b.q_c, a.linear),
        q_c: (a.q_c * b.q_c) % field_modulus(),
    }
}

/// The model of the difference of two expressions, the second linear.
pub open spec fn sub_model(a: ExprModel, b: ExprModel) -> ExprModel {
    ExprModel {
        mul_terms: a.mul_terms,
        linear: a.linear + negated(b.linear),
        q_c: (a.q_c + neg_mod(b.q_c)) % field_modulus(),
    }
}

/// The model of the opcode one constraint translates to:
/// assert_zero(a * b - c).
pub open spec fn constraint_opcode_model(con: Constraint) -> ExprModel {
    sub_model(
        mul_model(row_expr_model(con.a@), row_expr_model(con.b@)),
        row_expr_model(con.c@),
    )
}

/// One linear term crossed with a row has one quadratic term per row entry.
proof fn lemma_row_cross_len(t: (nat, nat), y: Seq<(nat, nat)>)
    ensures
        row_cross(t, y).len() == y.len(),
    decreases y.len(),
{
    if y.len() > 0 {
        lemma_row_cross_len(t, y.drop_last());
    }
}

/// The model of a list of quadratic terms commutes with appending one.
proof fn lemma_mul_terms_model_push(s: Seq<(Fe, u32, u32)>, x: (Fe, u32, u32))
    ensures
        mul_terms_model(s.push(x)) == mul_terms_model(s).push(
            (x.0.value(), x.1 as nat, x.2 as nat),
        ),
{
    assert(mul_terms_model(s.push(x)) =~= mul_terms_model(s).push(
        (x.0.value(), x.1 as nat, x.2 as nat),
    ));
}

/// Multiplies two expressions. Both must be linear; since linear times
/// linear is a single quadratic expression, no decomposition is ever needed.
/// A pre-existing quadratic term is an internal-consistency failure.
pub fn mul_expressions(a: &Expression, b: &Expression) -> (r: Result<
    Expression,
    CircuitError,
>)
    ensures
        (a.mul_terms@.len() == 0 && b.mul_terms@.len() == 0) <==> r is Ok,
        r is Ok ==> expr_model(r->Ok_0) == mul_model(expr_model(*a), expr_model(*b)),
        r is Err ==> r->Err_0 is UnexpectedQuadraticTerm,
{
    if a.mul_terms.len() > 0 || b.mul_terms.len() > 0 {
        return Err(CircuitError::UnexpectedQuadraticTerm);
    }
    let ghost am = expr_model(*a);
    let ghost bm = expr_model(*b);
    let mut mul_terms: Vec<(Fe, u32, u32)> = Vec::new();
    let mut i: usize = 0;
    while i < a.linear_combinations.len()
        invariant
            i <= a.linear_combinations@.len(),
            am == expr_model(*a),
            bm == expr_model(*b),
            mul_terms_model(mul_terms@) == cross_terms(am.linear.take(i as int), bm.linear),
        decreases a.linear_combinations@.len() - i,
    {
        let mut j: usize = 0;
        while j < b.linear_combinations.len()
            invariant
                i < a.linear_combinations@.len(),
                j <= b.linear_combinations@.len(),
                am == expr_model(*a),
                bm == expr_model(*b),
                mul_terms_model(mul_terms@) == cross_terms(am.linear.take(i as int), bm.linear)
                    + row_cross(am.linear[i as int], bm.linear.take(j as int)),
            decreases b.linear_combinations@.len() - j,
        {
            let ghost prev = mul_terms@;
            let coeff = fe_mul(&a.linear_combinations[i].0, &b.linear_combinations[j].0);
            mul_terms.push((coeff, a.linear_combinations[i].1, b.linear_combinations[j].1));
            proof {
                let t = am.linear[i as int];
                assert(am.linear.len() == a.linear_combinations@.len());
                assert(bm.linear.len() == b.linear_combinations@.len());
                assert(am.linear[i as int] == (
                    a.linear_combinations@[i as int].0.value(),
                    a.linear_combinations@[i as int].1 as nat,
                ));
                assert(bm.linear[j as int] == (
                    b.linear_combinations@[j as int].0.value(),
                    b.linear_combinations@[j as int].1 as nat,
                ));
                let e = (((t.0 * bm.linear[j as int].0) % field_modulus()), t.1, bm.linear[
                    j as int].1);
                assert(bm.linear.take(j + 1).drop_last() =~= bm.linear.take(j as int));
                assert(bm.linear.take(j + 1)[j as int] == bm.linear[j as int]);
                assert(row_cross(t, bm.linear.take(j + 1)) == row_cross(
                    t,
                    bm.linear.take(j as int),
                ).push(e));
                assert(cross_terms(am.linear.take(i as int), bm.linear) + row_cross(
                    t,
                    bm.linear.take(j + 1),
                ) =~= (cross_terms(am.linear.take(i as int), bm.linear) + row_cross(
                    t,
                    bm.linear.take(j as int),
                )).push(e));
                lemma_mul_terms_model_push(
                    prev,
                    (coeff, a.linear_combinations@[i as int].1, b.linear_combinations@[
                        j as int].1),
                );
                assert(mul_terms_model(mul_terms@) == cross_terms(
                    am.linear.take(i as int),
                    bm.linear,
                ) + row_cross(t, bm.linear.take(j + 1)));
            }
            j = j + 1;
        }
        proof {
            assert(bm.linear.take(bm.linear.len() as int) =~= bm.linear);
            assert(am.linear.take(i + 1).drop_last() =~= am.linear.take(i as int));
            assert(am.linear.take(i + 1)[i as int] == am.linear[i as int]);
        }
        i = i + 1;
    }
    proof {
        assert(am.linear.take(am.linear.len() as int) =~= am.linear);
    }
    let mut linear: Vec<(Fe, u32)> = Vec::new();
    let mut i2: usize = 0;
    while i2 < b.linear_combinations.len()
        invariant
            i2 <= b.linear_combinations@.len(),
            am == expr_model(*a),
            bm == expr_model(*b),
            lin_model(linear@) == scaled(am.q_c, bm.linear.take(i2 as int)),
        decreases b.linear_combinations@.len() - i2,
    {
        let ghost prev = linear@;
        let coeff = fe_mul(&a.q_c, &b.linear_combinations[i2].0);
        linear.push((coeff, b.linear_combinations[i2].1));
        proof {
            assert(bm.linear.len() == b.linear_combinations@.len());
            assert(lin_model(prev).len() == prev.len());
            assert(scaled(am.q_c, bm.linear.take(i2 as int)).len() == i2);
            assert(prev.len() == i2);
            assert(linear@ == prev.push((coeff, b.linear_combinations@[i2 as int].1)));
            assert(am.q_c == a.q_c.value());
            assert(bm.linear[i2 as int] == (
                b.linear_combinations@[i2 as int].0.value(),
                b.linear_combinations@[i2 as int].1 as nat,
            ));
            assert forall|x: int| 0 <= x < lin_model(linear@).len() implies lin_model(linear@)[x]
                == scaled(am.q_c, bm.linear.take(i2 + 1))[x] by {
                if x < prev.len() {
                    assert(lin_model(prev)[x] == scaled(am.q_c, bm.linear.take(i2 as int))[x]);
                    assert(bm.linear.take(i2 as int)[x] == bm.linear[x]);
                    assert(bm.linear.take(i2 + 1)[x] == bm.linear[x]);
                    assert(scaled(am.q_c, bm.linear.take(i2 as int))[x] == ((am.q_c
                        * bm.linear.take(i2 as int)[x].0) % field_modulus(), bm.linear.take(
                        i2 as int,
                    )[x].1));
                    assert(scaled(am.q_c, bm.linear.take(i2 + 1))[x] == ((am.q_c
                        * bm.linear.take(i2 + 1)[x].0) % field_modulus(), bm.linear.take(
                        i2 + 1,
                    )[x].1));
                } else {
                    assert(bm.linear.take(i2 + 1)[x] == bm.linear[i2 as int]);
                }
            }
            assert(lin_model(linear@) =~= scaled(am.q_c, bm.linear.take(i2 + 1)));
        }
        i2 = i2 + 1;
    }
    proof {
        assert(bm.linear.take(bm.linear.len() as int) =~= bm.linear);
    }
    let mut i3: usize = 0;
    while i3 < a.linear_combinations.len()
        invariant
            i3 <= a.linear_combinations@.len(),
            am == expr_model(*a),
            bm == expr_model(*b),
            lin_model(linear@) == scaled(am.q_c, bm.linear) + scaled(
                bm.q_c,
                am.linear.take(i3 as int),
            ),
        decreases a.linear_combinations@.len() - i3,
    {
        let ghost prev = linear@;
        let coeff = fe_mul(&b.q_c, &a.linear_combinations[i3].0);
        linear.push((coeff, a.linear_combinations[i3].1));
        proof {
            let ghost base = scaled(am.q_c, bm.linear);
            assert(am.linear.len() == a.linear_combinations@.len());
            assert(bm.linear.len() == b.linear_combinations@.len());
            assert(lin_model(prev).len() == prev.len());
            assert(base.len() == bm.linear.len());
            assert(scaled(bm.q_c, am.linear.take(i3 as int)).len() == i3);
            assert(prev.len() == base.len() + i3);
            assert(linear@ == prev.push((coeff, a.linear_combinations@[i3 as int].1)));
            assert(bm.q_c == b.q_c.value());
            assert(am.linear[i3 as int] == (
                a.linear_combinations@[i3 as int].0.value(),
                a.linear_combinations@[i3 as int].1 as nat,
            ));
            assert forall|x: int| 0 <= x < lin_model(linear@).len() implies lin_model(linear@)[x]
                == (base + scaled(bm.q_c, am.linear.take(i3 + 1)))[x] by {
                if x < prev.len() {
                    assert(lin_model(prev)[x] == (base + scaled(
                        bm.q_c,
                        am.linear.take(i3 as int),
                    ))[x]);
                    if x >= base.len() {
                        let y = x - base.len();
                        assert(0 <= y < i3);
                        assert(am.linear.take(i3 as int)[y] == am.linear[y]);
                        assert(am.linear.take(i3 + 1)[y] == am.linear[y]);
                        assert(scaled(bm.q_c, am.linear.take(i3 as int))[y] == ((bm.q_c
                            * am.linear.take(i3 as int)[y].0) % field_modulus(), am.linear.take(
                            i3 as int,
                        )[y].1));
                        assert(scaled(bm.q_c, am.linear.take(i3 + 1))[y] == ((bm.q_c
                            * am.linear.take(i3 + 1)[y].0) % field_modulus(), am.linear.take(
                            i3 + 1,
                        )[y].1));
                    }
                } else {
                    assert(am.linear.take(i3 + 1)[i3 as int] == am.linear[i3 as int]);
                }
            }
            assert(lin_model(linear@) =~= base + scaled(bm.q_c, am.linear.take(i3 + 1)));
        }
        i3 = i3 + 1;
    }
    proof {
        assert(am.linear.take(am.linear.len() as int) =~= am.linear);
    }
    let q_c = fe_mul(&a.q_c, &b.q_c);
    let r = Expression { mul_terms, linear_combinations: linear, q_c };
    proof {
        assert(expr_model(r).linear =~= mul_model(am, bm).linear);
    }
    Ok(r)
}

/// Subtracts a linear expression from an expression: the minuend keeps its
/// quadratic terms, the subtrahend's linear terms are appended negated, and
/// the constants are subtracted in the field.
pub fn sub_linear_expression(a: Expression, b: &Expression) -> (r: Expression)
    requires
        b.mul_terms@.len() == 0,
    ensures
        expr_model(r) == sub_model(expr_model(a), expr_model(*b)),
{
    let ghost am = expr_model(a);
    let ghost bm = expr_model(*b);
    let mut lin = a.linear_combinations;
    let mut i: usize = 0;
    while i < b.linear_combinations.len()
        invariant
            i <= b.linear_combinations@.len(),
            bm == expr_model(*b),
            lin_model(lin@) == am.linear + negated(bm.linear.take(i as int)),
        decreases b.linear_combinations@.len() - i,
    {
        let ghost prev = lin@;
        let coeff = fe_neg(&b.linear_combinations[i].0);
        lin.push((coeff, b.linear_combinations[i].1));
        proof {
            assert(bm.linear.len() == b.linear_combinations@.len());
            assert(lin_model(prev).len() == prev.len());
            assert(negated(bm.linear.take(i as int)).len() == i);
            assert(prev.len() == am.linear.len() + i);
            assert(lin@ == prev.push((coeff, b.linear_combinations@[i as int].1)));
            assert(bm.linear[i as int] == (
                b.linear_combinations@[i as int].0.value(),
                b.linear_combinations@[i as int].1 as nat,
            ));
            assert(coeff.value() == neg_mod(bm.linear[i as int].0));
            assert forall|x: int| 0 <= x < lin@.len() implies lin_model(lin@)[x] == (am.linear
                + negated(bm.linear.take(i + 1)))[x] by {
                if x < prev.len() {
                    assert(lin_model(prev)[x] == (am.linear + negated(bm.linear.take(
                        i as int,
                    )))[x]);
                    if x >= am.linear.len() {
                        let y = x - am.linear.len();
                        assert(0 <= y < i);
                        assert(bm.linear.take(i as int)[y] == bm.linear[y]);
                        assert(bm.linear.take(i + 1)[y] == bm.linear[y]);
                        assert(negated(bm.linear.take(i as int))[y] == (
                            neg_mod(bm.linear.take(i as int)[y].0),
                            bm.linear.take(i as int)[y].1,
                        ));
                        assert(negated(bm.linear.take(i + 1))[y] == (
                            neg_mod(bm.linear.take(i + 1)[y].0),
                            bm.linear.take(i + 1)[y].1,
                        ));
                    }
                }
            }
            assert(lin_model(lin@) =~= am.linear + negated(bm.linear.take(i + 1)));
        }
        i = i + 1;
    }
    proof {
        assert(am.linear + negated(bm.linear.take(bm.linear.len() as int)) =~= am.linear + negated(
            bm.linear,
        ));
    }
    let q_c = fe_add(&a.q_c, &fe_neg(&b.q_c));
    let r = Expression { mul_terms: a.mul_terms, linear_combinations: lin, q_c };
    proof {
        assert(lin_model(lin@) =~= am.linear + negated(bm.linear));
    }
    r
}

/// Translates an R1CS circuit into an ACIR circuit: one assert-zero opcode
/// per constraint in declaration order, and the fixed witness partitioning
/// derived from the header counts (return values first, then public
/// parameters, then private parameters).
pub fn acir_circuit_from_r1cs(header: &Header, constraints: &Vec<Constraint>) -> (r: Circuit)
    requires
        header.n_pub_out + header.n_pub_in + header.n_prv_in <= u32::MAX,
    ensures
        r.current_witness_index == header.n_wires,
        r.return_values@ == Seq::new(header.n_pub_out as nat, |i: int| i as u32),
        r.public_parameters@ == Seq::new(
            header.n_pub_in as nat,
            |i: int| (header.n_pub_out + i) as u32,
        ),
        r.private_parameters@ == Seq::new(
            header.n_prv_in as nat,
            |i: int| (header.n_pub_out + header.n_pub_in + i) as u32,
        ),
        r.opcodes@.len() == constraints@.len(),
        forall|k: int|
            0 <= k < constraints@.len() ==> opcode_model(#[trigger] r.opcodes@[k])
                == constraint_opcode_model(constraints@[k]),
{
    let public_inputs_start = header.n_pub_out;
    let private_inputs_start = public_inputs_start + header.n_pub_in;

    let mut return_values: Vec<u32> = Vec::new();
    let mut w: u32 = 0;
    while w < header.n_pub_out
        invariant
            w <= header.n_pub_out,
            return_values@ == Seq::new(w as nat, |i: int| i as u32),
        decreases header.n_pub_out - w,
    {
        return_values.push(w);
        proof {
            assert(return_values@ =~= Seq::new((w + 1) as nat, |i: int| i as u32));
        }
        w = w + 1;
    }

    let mut public_parameters: Vec<u32> = Vec::new();
    let mut w2: u32 = 0;
    while w2 < header.n_pub_in
        invariant
            w2 <= header.n_pub_in,
            public_inputs_start == header.n_pub_out,
            header.n_pub_out + header.n_pub_in <= u32::MAX,
            public_parameters@ == Seq::new(w2 as nat, |i: int| (header.n_pub_out + i) as u32),
        decreases header.n_pub_in - w2,
    {
        public_parameters.push(public_inputs_start + w2);
        proof {
            assert(public_parameters@ =~= Seq::new(
                (w2 + 1) as nat,
                |i: int| (header.n_pub_out + i) as u32,
            ));
        }
        w2 = w2 + 1;
    }

    let mut private_parameters: Vec<u32> = Vec::new();
    let mut w3: u32 = 0;
    while w3 < header.n_prv_in
        invariant
            w3 <= header.n_prv_in,
            private_inputs_start == header.n_pub_out + header.n_pub_in,
            header.n_pub_out + header.n_pub_in + header.n_prv_in <= u32::MAX,
            private_parameters@ == Seq::new(
                w3 as nat,
                |i: int| (header.n_pub_out + header.n_pub_in + i) as u32,
            ),
        decreases header.n_prv_in - w3,
    {
        private_parameters.push(private_inputs_start + w3);
        proof {
            assert(private_parameters@ =~= Seq::new(
                (w3 + 1) as nat,
                |i: int| (header.n_pub_out + header.n_pub_in + i) as u32,
            ));
        }
        w3 = w3 + 1;
    }

    let mut opcodes: Vec<Opcode> = Vec::new();
    let mut k: usize = 0;
    while k < constraints.len()
        invariant
            k <= constraints@.len(),
            opcodes@.len() == k,
            forall|t: int|
                0 <= t < k ==> opcode_model(#[trigger] opcodes@[t]) == constraint_opcode_model(
                    constraints@[t],
                ),
        decreases constraints@.len() - k,
    {
        let a_expr = r1cs_term_to_expr(&constraints[k].a);
        let b_expr = r1cs_term_to_expr(&constraints[k].b);
        let c_expr = r1cs_term_to_expr(&constraints[k].c);
        let a_mul_b = match mul_expressions(&a_expr, &b_expr) {
            Ok(e) => e,
            Err(_) => {
                proof {
                    assert(false);
                }
                Expression { mul_terms: Vec::new(), linear_combinations: Vec::new(), q_c: Fe::zero() }
            },
        };
        let op = Opcode::AssertZero(sub_linear_expression(a_mul_b, &c_expr));
        opcodes.push(op);
        k = k + 1;
    }

    Circuit {
        current_witness_index: header.n_wires,
        opcodes,
        private_parameters,
        public_parameters,
        return_values,
    }
}

} // verus!
