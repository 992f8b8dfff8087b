use vstd::prelude::*;

use vstd::arithmetic::div_mod::{
    lemma_add_mod_noop, lemma_mod_self_0, lemma_mod_twice, lemma_mul_mod_noop_left,
    lemma_mul_mod_noop_right, lemma_mul_mod_noop, lemma_sub_mod_noop,
};

use crate::circuit::{
    constraint_opcode_model, cross_terms, linear_of, mul_model, negated, row_cross,
    row_expr_model, scaled, sub_model, wire0_sum, Constraint, ExprModel,
};
use crate::field::{field_modulus, neg_mod, Fe};

verus! {

/// The field modulus as an integer.
pub open spec fn modulus_int() -> int {
    field_modulus() as int
}

/// Congruence modulo the field modulus: the relation under which a
/// translated opcode must agree with the constraint it came from.
pub open spec fn cong(a: int, b: int) -> bool {
    a % modulus_int() == b % modulus_int()
}

/// What an R1CS sparse row computes under a full wire valuation: the sum of
/// each coefficient times the value on its wire.
pub open spec fn wire_eval(row: Seq<(u32, Fe)>, w: Seq<nat>) -> int
    decreases row.len(),
{
    if row.len() == 0 {
        0
    } else {
        let last = row[row.len() - 1];
        wire_eval(row.drop_last(), w) + (last.1.value() as int) * (w[last.0 as int] as int)
    }
}

/// What a list of modelled linear terms computes under an ACIR witness
/// valuation.
pub open spec fn lin_eval(lin: Seq<(nat, nat)>, w: Seq<nat>) -> int
    decreases lin.len(),
{
    if lin.len() == 0 {
        0
    } else {
        let last = lin[lin.len() - 1];
        lin_eval(lin.drop_last(), w) + (last.0 as int) * (w[last.1 as int] as int)
    }
}

/// What a list of modelled quadratic terms computes under an ACIR witness
/// valuation.
pub open spec fn mul_eval(ms: Seq<(nat, nat, nat)>, w: Seq<nat>) -> int
    decreases ms.len(),
{
    if ms.len() == 0 {
        0
    } else {
        let last = ms[ms.len() - 1];
        mul_eval(ms.drop_last(), w) + (last.0 as int) * (w[last.1 as int] as int) * (w[
            last.2 as int] as int)
    }
}

/// What a whole modelled expression computes under an ACIR witness
/// valuation.
pub open spec fn model_eval(m: ExprModel, w: Seq<nat>) -> int {
    mul_eval(m.mul_terms, w) + lin_eval(m.linear, w) + m.q_c
}

/// The wire valuation an ACIR witness valuation stands for: wire 0 carries
/// the implicit constant one, wire i + 1 carries witness i.
pub open spec fn shifted(w: Seq<nat>) -> Seq<nat> {
    seq![1nat] + w
}

/// Whether every wire index of a row fits the valuation (the constant wire
/// plus one slot per witness).
pub open spec fn row_in_bounds(row: Seq<(u32, Fe)>, n: int) -> bool {
    forall|k: int| 0 <= k < row.len() ==> (#[trigger] row[k]).0 <= n
}

proof fn lemma_cong_mod(a: int)
    ensures
        cong(a % modulus_int(), a),
{
    lemma_mod_twice(a, modulus_int());
}

proof fn lemma_cong_add(a: int, b: int, c: int, d: int)
    requires
        cong(a, b),
        cong(c, d),
    ensures
        cong(a + c, b + d),
{
    lemma_add_mod_noop(a, c, modulus_int());
    lemma_add_mod_noop(b, d, modulus_int());
}

/// A converted row computes, modulo the field, what the original row
/// computes over the shifted wire valuation.
proof fn lemma_row_eval(row: Seq<(u32, Fe)>, w: Seq<nat>)
    requires
        row_in_bounds(row, w.len() as int),
    ensures
        cong(lin_eval(linear_of(row), w) + wire0_sum(row), wire_eval(row, shifted(w))),
    decreases row.len(),
{
    if row.len() == 0 {
    } else {
        let rest = row.drop_last();
        assert(row_in_bounds(rest, w.len() as int));
        lemma_row_eval(rest, w);
        let last = row[row.len() - 1];
        let v = last.1.value() as int;
        let li = lin_eval(linear_of(rest), w);
        let ws = wire0_sum(rest) as int;
        if last.0 == 0 {
            assert(shifted(w)[0] == 1);
            assert(linear_of(row) == linear_of(rest));
            assert(wire0_sum(row) == ((ws + v) % modulus_int()));
            lemma_cong_mod(ws + v);
            lemma_cong_add(li, li, (ws + v) % modulus_int(), ws + v);
            lemma_cong_add(li + ws, wire_eval(rest, shifted(w)), v, v);
            assert(wire_eval(row, shifted(w)) == wire_eval(rest, shifted(w)) + v * 1);
        } else {
            assert(shifted(w)[last.0 as int] == w[last.0 - 1]);
            assert(linear_of(row) == linear_of(rest).push((last.1.value(), (last.0 - 1) as nat)));
            assert(linear_of(row).drop_last() =~= linear_of(rest));
            assert(linear_of(row)[linear_of(row).len() - 1] == (
                last.1.value(),
                (last.0 - 1) as nat,
            ));
            assert(lin_eval(linear_of(row), w) == li + v * (w[last.0 - 1] as int));
            lemma_cong_add(
                li + ws,
                wire_eval(rest, shifted(w)),
                v * (w[last.0 - 1] as int),
                v * (w[last.0 - 1] as int),
            );
        }
    }
}

/// Evaluation splits over concatenated linear terms.
proof fn lemma_lin_eval_add(l1: Seq<(nat, nat)>, l2: Seq<(nat, nat)>, w: Seq<nat>)
    ensures
        lin_eval(l1 + l2, w) == lin_eval(l1, w) + lin_eval(l2, w),
    decreases l2.len(),
{
    if l2.len() == 0 {
        assert(l1 + l2 =~= l1);
    } else {
        lemma_lin_eval_add(l1, l2.drop_last(), w);
        assert((l1 + l2).drop_last() =~= l1 + l2.drop_last());
        assert((l1 + l2)[(l1 + l2).len() - 1] == l2[l2.len() - 1]);
    }
}

/// Evaluation splits over concatenated quadratic terms.
proof fn lemma_mul_eval_add(m1: Seq<(nat, nat, nat)>, m2: Seq<(nat, nat, nat)>, w: Seq<nat>)
    ensures
        mul_eval(m1 + m2, w) == mul_eval(m1, w) + mul_eval(m2, w),
    decreases m2.len(),
{
    if m2.len() == 0 {
        assert(m1 + m2 =~= m1);
    } else {
        lemma_mul_eval_add(m1, m2.drop_last(), w);
        assert((m1 + m2).drop_last() =~= m1 + m2.drop_last());
        assert((m1 + m2)[(m1 + m2).len() - 1] == m2[m2.len() - 1]);
    }
}

/// Scaling every term by a constant scales the whole evaluation, modulo the
/// field.
proof fn lemma_scaled_eval(k: nat, l: Seq<(nat, nat)>, w: Seq<nat>)
    ensures
        cong(lin_eval(scaled(k, l), w), (k as int) * lin_eval(l, w)),
    decreases l.len(),
{
    if l.len() == 0 {
        assert(scaled(k, l).len() == 0);
    } else {
        lemma_scaled_eval(k, l.drop_last(), w);
        let last = l[l.len() - 1];
        let c = last.0 as int;
        let wi = w[last.1 as int] as int;
        assert(scaled(k, l).drop_last() =~= scaled(k, l.drop_last()));
        assert(scaled(k, l)[scaled(k, l).len() - 1] == (
            ((k * last.0) % field_modulus()) as nat,
            last.1,
        ));
        assert(lin_eval(scaled(k, l), w) == lin_eval(scaled(k, l.drop_last()), w) + ((((k
            * last.0) % field_modulus()) as nat) as int) * wi);
        lemma_mul_mod_noop_left((k as int) * c, wi, modulus_int());
        assert(cong(((((k * last.0) % field_modulus()) as nat) as int) * wi, (k as int) * c
            * wi));
        lemma_cong_add(
            lin_eval(scaled(k, l.drop_last()), w),
            (k as int) * lin_eval(l.drop_last(), w),
            ((((k * last.0) % field_modulus()) as nat) as int) * wi,
            (k as int) * c * wi,
        );
        assert((k as int) * lin_eval(l.drop_last(), w) + (k as int) * c * wi == (k as int) * (
        lin_eval(l.drop_last(), w) + c * wi)) by (nonlinear_arith);
    }
}

/// One linear term crossed with a row evaluates to the term times the
/// row's evaluation, modulo the field.
proof fn lemma_row_cross_eval(t: (nat, nat), l: Seq<(nat, nat)>, w: Seq<nat>)
    ensures
        cong(
            mul_eval(row_cross(t, l), w),
            (t.0 as int) * (w[t.1 as int] as int) * lin_eval(l, w),
        ),
    decreases l.len(),
{
    let a = t.0 as int;
    let wa = w[t.1 as int] as int;
    if l.len() == 0 {
        assert(a * wa * 0 == 0) by (nonlinear_arith);
    } else {
        lemma_row_cross_eval(t, l.drop_last(), w);
        let last = l[l.len() - 1];
        let c = last.0 as int;
        let wj = w[last.1 as int] as int;
        assert(row_cross(t, l) == row_cross(t, l.drop_last()).push(
            (((t.0 * last.0) % field_modulus()) as nat, t.1, last.1),
        ));
        assert(row_cross(t, l).drop_last() =~= row_cross(t, l.drop_last()));
        assert(row_cross(t, l)[row_cross(t, l).len() - 1] == (
            ((t.0 * last.0) % field_modulus()) as nat,
            t.1,
            last.1,
        ));
        assert(mul_eval(row_cross(t, l), w) == mul_eval(row_cross(t, l.drop_last()), w) + ((((
        t.0 * last.0) % field_modulus()) as nat) as int) * wa * wj);
        let x = (((t.0 * last.0) % field_modulus()) as nat) as int;
        assert(x == (a * c) % modulus_int());
        assert(x * wa * wj == x * (wa * wj)) by (nonlinear_arith);
        lemma_mul_mod_noop_left(a * c, wa * wj, modulus_int());
        assert(cong(((a * c) % modulus_int()) * (wa * wj), a * c * (wa * wj)));
        assert(a * c * (wa * wj) == a * wa * (c * wj)) by (nonlinear_arith);
        lemma_cong_add(
            mul_eval(row_cross(t, l.drop_last()), w),
            a * wa * lin_eval(l.drop_last(), w),
            ((((t.0 * last.0) % field_modulus()) as nat) as int) * wa * wj,
            a * wa * (c * wj),
        );
        assert(a * wa * lin_eval(l.drop_last(), w) + a * wa * (c * wj) == a * wa * (lin_eval(
            l.drop_last(),
            w,
        ) + c * wj)) by (nonlinear_arith);
    }
}

/// The quadratic terms of a product evaluate to the product of the two
/// linear evaluations, modulo the field.
proof fn lemma_cross_eval(la: Seq<(nat, nat)>, lb: Seq<(nat, nat)>, w: Seq<nat>)
    ensures
        cong(mul_eval(cross_terms(la, lb), w), lin_eval(la, w) * lin_eval(lb, w)),
    decreases la.len(),
{
    if la.len() == 0 {
        assert(0 * lin_eval(lb, w) == 0) by (nonlinear_arith);
    } else {
        lemma_cross_eval(la.drop_last(), lb, w);
        let last = la[la.len() - 1];
        let a = last.0 as int;
        let wi = w[last.1 as int] as int;
        lemma_mul_eval_add(cross_terms(la.drop_last(), lb), row_cross(last, lb), w);
        lemma_row_cross_eval(last, lb, w);
        lemma_cong_add(
            mul_eval(cross_terms(la.drop_last(), lb), w),
            lin_eval(la.drop_last(), w) * lin_eval(lb, w),
            mul_eval(row_cross(last, lb), w),
            a * wi * lin_eval(lb, w),
        );
        assert(lin_eval(la.drop_last(), w) * lin_eval(lb, w) + a * wi * lin_eval(lb, w) == (
        lin_eval(la.drop_last(), w) + a * wi) * lin_eval(lb, w)) by (nonlinear_arith);
    }
}

/// Negating every coefficient negates the evaluation, modulo the field.
proof fn lemma_negated_eval(l: Seq<(nat, nat)>, w: Seq<nat>)
    ensures
        cong(lin_eval(negated(l), w), -lin_eval(l, w)),
    decreases l.len(),
{
    if l.len() == 0 {
        assert(negated(l).len() == 0);
    } else {
        lemma_negated_eval(l.drop_last(), w);
        let last = l[l.len() - 1];
        let c = last.0 as int;
        let wi = w[last.1 as int] as int;
        assert(negated(l).drop_last() =~= negated(l.drop_last()));
        assert(negated(l)[negated(l).len() - 1] == (neg_mod(last.0), last.1));
        assert(lin_eval(negated(l), w) == lin_eval(negated(l.drop_last()), w) + (neg_mod(
            last.0,
        ) as int) * wi);
        lemma_neg_mod_cong(last.0);
        lemma_mul_mod_noop_left(neg_mod(last.0) as int, wi, modulus_int());
        lemma_mul_mod_noop_left(-c, wi, modulus_int());
        assert(cong((neg_mod(last.0) as int) * wi, (-c) * wi));
        lemma_cong_add(
            lin_eval(negated(l.drop_last()), w),
            -lin_eval(l.drop_last(), w),
            (neg_mod(last.0) as int) * wi,
            (-c) * wi,
        );
        assert(-lin_eval(l.drop_last(), w) + (-c) * wi == -(lin_eval(l.drop_last(), w) + c
            * wi)) by (nonlinear_arith);
    }
}

/// The field's additive inverse is congruent to integer negation.
proof fn lemma_neg_mod_cong(x: nat)
    ensures
        cong(neg_mod(x) as int, -(x as int)),
{
    let m = modulus_int();
    lemma_mod_twice(m - (x as int) % m, m);
    lemma_mod_twice(x as int, m);
    lemma_sub_mod_noop(m, (x as int) % m, m);
    lemma_mod_self_0(m);
    lemma_sub_mod_noop(m, x as int, m);
    assert((m - (x as int) % m) % m == (m - (x as int)) % m);
    assert((0 - (x as int) % m) % m == (0 - (x as int)) % m) by {
        lemma_sub_mod_noop(0, x as int, m);
        lemma_mod_twice(0 - (x as int) % m, m);
        assert(0int % m == 0);
    }
    assert((m - (x as int)) % m == (0 - (x as int)) % m) by {
        vstd::arithmetic::div_mod::lemma_mod_multiples_vanish(1, 0 - (x as int), m);
    }
}

/// The product of two linear expressions evaluates to the product of their
/// evaluations, modulo the field.
proof fn lemma_mul_model_eval(a: ExprModel, b: ExprModel, w: Seq<nat>)
    ensures
        cong(
            model_eval(mul_model(a, b), w),
            (lin_eval(a.linear, w) + a.q_c) * (lin_eval(b.linear, w) + b.q_c),
        ),
{
    let m = mul_model(a, b);
    let ea = lin_eval(a.linear, w);
    let eb = lin_eval(b.linear, w);
    let qa = a.q_c as int;
    let qb = b.q_c as int;
    lemma_cross_eval(a.linear, b.linear, w);
    lemma_lin_eval_add(scaled(a.q_c, b.linear), scaled(b.q_c, a.linear), w);
    lemma_scaled_eval(a.q_c, b.linear, w);
    lemma_scaled_eval(b.q_c, a.linear, w);
    lemma_cong_mod(qa * qb);
    lemma_cong_add(
        lin_eval(scaled(a.q_c, b.linear), w),
        qa * eb,
        lin_eval(scaled(b.q_c, a.linear), w),
        qb * ea,
    );
    lemma_cong_add(mul_eval(m.mul_terms, w), ea * eb, lin_eval(m.linear, w), qa * eb + qb * ea);
    lemma_cong_add(
        mul_eval(m.mul_terms, w) + lin_eval(m.linear, w),
        ea * eb + (qa * eb + qb * ea),
        m.q_c as int,
        qa * qb,
    );
    assert(ea * eb + (qa * eb + qb * ea) + qa * qb == (ea + qa) * (eb + qb))
        by (nonlinear_arith);
}

/// Subtracting a linear expression subtracts its evaluation, modulo the
/// field.
proof fn lemma_sub_model_eval(a: ExprModel, b: ExprModel, w: Seq<nat>)
    ensures
        cong(
            model_eval(sub_model(a, b), w),
            model_eval(a, w) - (lin_eval(b.linear, w) + b.q_c),
        ),
{
    let s = sub_model(a, b);
    lemma_lin_eval_add(a.linear, negated(b.linear), w);
    lemma_negated_eval(b.linear, w);
    lemma_neg_mod_cong(b.q_c);
    lemma_cong_mod(a.q_c as int + neg_mod(b.q_c) as int);
    lemma_cong_add(neg_mod(b.q_c) as int, -(b.q_c as int), a.q_c as int, a.q_c as int);
    lemma_cong_add(
        lin_eval(negated(b.linear), w),
        -lin_eval(b.linear, w),
        mul_eval(a.mul_terms, w) + lin_eval(a.linear, w),
        mul_eval(a.mul_terms, w) + lin_eval(a.linear, w),
    );
    lemma_cong_add(
        lin_eval(negated(b.linear), w) + (mul_eval(a.mul_terms, w) + lin_eval(a.linear, w)),
        -lin_eval(b.linear, w) + (mul_eval(a.mul_terms, w) + lin_eval(a.linear, w)),
        (a.q_c as int + neg_mod(b.q_c) as int) % modulus_int(),
        a.q_c as int + neg_mod(b.q_c) as int,
    );
    lemma_cong_add(
        -lin_eval(b.linear, w) + (mul_eval(a.mul_terms, w) + lin_eval(a.linear, w)) + (a.q_c
            as int + neg_mod(b.q_c) as int),
        -lin_eval(b.linear, w) + (mul_eval(a.mul_terms, w) + lin_eval(a.linear, w)) + (a.q_c
            as int) + -(b.q_c as int),
        0,
        0,
    );
}

/// Round trip of the constraint semantics: the opcode a constraint
/// translates to evaluates to zero, under any witness assignment, exactly
/// when the original constraint (a . w) * (b . w) = (c . w) holds of the
/// corresponding wire assignment (wire 0 fixed to one, wire i + 1 carrying
/// witness i), all modulo the field.
pub proof fn lemma_constraint_roundtrip(con: Constraint, w: Seq<nat>)
    requires
        row_in_bounds(con.a@, w.len() as int),
        row_in_bounds(con.b@, w.len() as int),
        row_in_bounds(con.c@, w.len() as int),
    ensures
        (model_eval(constraint_opcode_model(con), w) % modulus_int() == 0) <==> ((wire_eval(
            con.a@,
            shifted(w),
        ) * wire_eval(con.b@, shifted(w)) - wire_eval(con.c@, shifted(w))) % modulus_int()
            == 0),
{
    let sw = shifted(w);
    let ma = row_expr_model(con.a@);
    let mb = row_expr_model(con.b@);
    let mc = row_expr_model(con.c@);
    let ea = lin_eval(ma.linear, w) + ma.q_c;
    let eb = lin_eval(mb.linear, w) + mb.q_c;
    let ec = lin_eval(mc.linear, w) + mc.q_c;
    lemma_row_eval(con.a@, w);
    lemma_row_eval(con.b@, w);
    lemma_row_eval(con.c@, w);
    lemma_mul_model_eval(ma, mb, w);
    lemma_sub_model_eval(mul_model(ma, mb), mc, w);
    lemma_cong_mul(ea, wire_eval(con.a@, sw), eb, wire_eval(con.b@, sw));
    lemma_cong_add(
        ea * eb,
        wire_eval(con.a@, sw) * wire_eval(con.b@, sw),
        -ec,
        -wire_eval(con.c@, sw),
    );
    lemma_cong_add(
        model_eval(sub_model(mul_model(ma, mb), mc), w),
        model_eval(mul_model(ma, mb), w) - ec,
        0,
        0,
    );
    lemma_cong_add(model_eval(mul_model(ma, mb), w), ea * eb, -ec, -ec);
    lemma_mod_self_0(modulus_int());
}

/// Congruence is preserved by multiplication on both sides.
proof fn lemma_cong_mul(a: int, b: int, c: int, d: int)
    requires
        cong(a, b),
        cong(c, d),
    ensures
        cong(a * c, b * d),
{
    lemma_mul_mod_noop(a, c, modulus_int());
    lemma_mul_mod_noop(b, d, modulus_int());
}

} // verus!
