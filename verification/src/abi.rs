use vstd::prelude::*;

use crate::symbols::{
    line_index_vals, line_name, line_ok, line_witness_val, parse_symbol_line, SymbolEntry,
    SymbolError,
};
use crate::circuit::Header;

verus! {

/// Whether a parameter is part of the public or the private interface.
#[derive(Debug)]
pub enum AbiVisibility {
    Public,
    Private,
}

/// The type of a parameter or return value: a field element, a fixed-length
/// array, or (for return values only) a tuple.
#[derive(Debug)]
pub enum AbiType {
    Field,
    Array { length: u64, typ: Box<AbiType> },
    Tuple { fields: Vec<AbiType> },
}

/// One named, typed parameter of the circuit.
#[derive(Debug)]
pub struct AbiParameter {
    pub name: Vec<u8>,
    pub typ: AbiType,
    pub visibility: AbiVisibility,
}

/// The return type of the circuit, always publicly visible.
#[derive(Debug)]
pub struct AbiReturnType {
    pub abi_type: AbiType,
    pub visibility: AbiVisibility,
}

/// The reconstructed interface: ordered parameters (public then private),
/// the witness ranges each parameter occupies, the return type, and the
/// witness indices of the return values.
#[derive(Debug)]
pub struct Abi {
    pub parameters: Vec<AbiParameter>,
    pub param_witnesses: Vec<(Vec<u8>, Vec<(u32, u32)>)>,
    pub return_type: Option<AbiReturnType>,
    pub return_witnesses: Vec<u32>,
}

/// Why a symbol table is rejected: a line off the grammar, an array index
/// no machine word can carry, fewer lines than the header counts demand, or
/// parameter shapes that claim more input witnesses than the header grants.
#[derive(Debug)]
pub enum AbiError {
    MalformedLine { line: u64 },
    NonNumericArrayIndex { line: u64 },
    TruncatedSymbolTable,
    WitnessCountMismatch,
}

/// How many field elements a type occupies among the input witnesses: one
/// for a field element, the length times the element count for an array.
/// A tuple only ever describes a return value, which occupies no input
/// witnesses, so it counts nothing.
pub open spec fn field_count_spec(t: AbiType) -> nat
    decreases t,
{
    match t {
        AbiType::Field => 1,
        AbiType::Array { length, typ } => (length as nat) * field_count_spec(*typ),
        AbiType::Tuple { .. } => 0,
    }
}

/// Whether a type is the nested array tree a dimension list describes,
/// outermost dimension first, each array length one more than the running
/// maximum index of its dimension.
pub open spec fn type_matches(t: AbiType, dims: Seq<int>) -> bool
    decreases t,
{
    match t {
        AbiType::Field => dims.len() == 0,
        AbiType::Array { length, typ } => dims.len() > 0 && length == dims[0] + 1
            && type_matches(*typ, dims.drop_first()),
        AbiType::Tuple { .. } => false,
    }
}

/// How many field elements the type described by a dimension list occupies:
/// the product of its array lengths.
pub open spec fn dims_product(dims: Seq<int>) -> nat
    decreases dims.len(),
{
    if dims.len() == 0 {
        1
    } else {
        ((dims[0] + 1) * dims_product(dims.drop_first())) as nat
    }
}

/// A type matching a dimension list occupies exactly the product of the
/// list's array lengths.
pub proof fn lemma_type_matches_count(t: AbiType, dims: Seq<int>)
    requires
        type_matches(t, dims),
        forall|d: int| 0 <= d < dims.len() ==> #[trigger] dims[d] >= 0,
    ensures
        field_count_spec(t) == dims_product(dims),
    decreases t,
{
    match t {
        AbiType::Field => {},
        AbiType::Array { length, typ } => {
            assert(forall|d: int|
                0 <= d < dims.drop_first().len() ==> #[trigger] dims.drop_first()[d] >= 0);
            lemma_type_matches_count(*typ, dims.drop_first());
        },
        AbiType::Tuple { .. } => {},
    }
}

/// Builds the nested array type a dimension list describes, outermost
/// dimension first; an empty list describes a plain field element.
pub fn array_type_from_nesting_info(dims: &Vec<u64>, from: usize) -> (t: AbiType)
    requires
        from <= dims@.len(),
        forall|d: int| 0 <= d < dims@.len() ==> #[trigger] dims@[d] < u64::MAX,
    ensures
        type_matches(t, dims@.skip(from as int).map_values(|v: u64| v as int)),
    decreases dims@.len() - from,
{
    let ghost rest = dims@.skip(from as int).map_values(|v: u64| v as int);
    if from == dims.len() {
        proof {
            assert(rest.len() == 0);
        }
        AbiType::Field
    } else {
        let inner = array_type_from_nesting_info(dims, from + 1);
        proof {
            assert(dims@.skip(from + 1).map_values(|v: u64| v as int) =~= rest.drop_first());
            assert(rest[0] == dims@[from as int] as int);
        }
        AbiType::Array { length: dims[from] + 1, typ: Box::new(inner) }
    }
}

/// How many field elements a type occupies, when that fits a machine word.
pub fn field_count_checked(t: &AbiType) -> (r: Option<u64>)
    ensures
        match r {
            Some(v) => v == field_count_spec(*t),
            None => field_count_spec(*t) > u64::MAX,
        },
    decreases *t,
{
    match t {
        AbiType::Field => Some(1),
        AbiType::Array { length, typ } => {
            if *length == 0 {
                return Some(0);
            }
            let inner = match field_count_checked(typ) {
                Some(v) => v,
                None => {
                    proof {
                        assert((*length as nat) * field_count_spec(**typ) >= field_count_spec(
                            **typ,
                        )) by (nonlinear_arith)
                            requires
                                *length >= 1,
                        ;
                    }
                    return None;
                },
            };
            if inner == 0 {
                proof {
                    assert((*length as nat) * field_count_spec(**typ) == 0) by (nonlinear_arith)
                        requires
                            field_count_spec(**typ) == 0,
                    ;
                }
                return Some(0);
            }
            if *length > u64::MAX / inner {
                proof {
                    assert((*length as nat) * (inner as nat) > u64::MAX) by (nonlinear_arith)
                        requires
                            *length > u64::MAX / inner,
                            u64::MAX / inner == (u64::MAX as int) / (inner as int),
                            inner >= 1,
                    ;
                }
                return None;
            }
            proof {
                assert((*length as nat) * (inner as nat) <= u64::MAX) by (nonlinear_arith)
                    requires
                        *length <= u64::MAX / inner,
                        u64::MAX / inner == (u64::MAX as int) / (inner as int),
                        inner >= 1,
                ;
            }
            Some(*length * inner)
        },
        AbiType::Tuple { .. } => Some(0),
    }
}

/// The minimal list of half-open contiguous ranges a witness list collapses
/// to: a fresh range opens wherever the list does not step up by exactly
/// one.
pub open spec fn collapse_spec(s: Seq<u32>) -> Seq<(u32, u32)>
    decreases s.len(),
{
    if s.len() == 0 {
        Seq::empty()
    } else if s.len() == 1 {
        seq![(s[0], (s[0] + 1) as u32)]
    } else {
        let r = collapse_spec(s.drop_last());
        let z = s[s.len() - 1];
        if z == s[s.len() - 2] + 1 {
            r.update(r.len() - 1, (r[r.len() - 1].0, (z + 1) as u32))
        } else {
            r.push((z, (z + 1) as u32))
        }
    }
}

/// Collapsing never yields an empty list for a nonempty input, and the last
/// range always ends one past the last witness.
proof fn lemma_collapse_last(s: Seq<u32>)
    requires
        s.len() > 0,
    ensures
        collapse_spec(s).len() >= 1,
        collapse_spec(s)[collapse_spec(s).len() - 1].1 == (s[s.len() - 1] + 1) as u32,
    decreases s.len(),
{
    if s.len() > 1 {
        lemma_collapse_last(s.drop_last());
    }
}

/// Collapses a list of witness indices into ranges, as the specification
/// describes.
pub fn collapse_ranges(witnesses: &Vec<u32>) -> (r: Vec<(u32, u32)>)
    requires
        forall|k: int| 0 <= k < witnesses@.len() ==> #[trigger] witnesses@[k] < u32::MAX,
    ensures
        r@ == collapse_spec(witnesses@),
{
    let mut wit: Vec<(u32, u32)> = Vec::new();
    if witnesses.len() == 0 {
        return wit;
    }
    let mut last_wit: u32 = witnesses[0];
    let mut i: usize = 1;
    proof {
        assert(witnesses@.take(1) =~= seq![witnesses@[0]]);
        lemma_collapse_last(witnesses@.take(1));
    }
    while i < witnesses.len()
        invariant
            1 <= i <= witnesses@.len(),
            forall|k: int| 0 <= k < witnesses@.len() ==> #[trigger] witnesses@[k] < u32::MAX,
            collapse_spec(witnesses@.take(i as int)) == wit@.push(
                (last_wit, (witnesses@[i - 1] + 1) as u32),
            ),
        decreases witnesses@.len() - i,
    {
        proof {
            assert(witnesses@.take(i + 1).drop_last() =~= witnesses@.take(i as int));
            assert(witnesses@.take(i + 1)[i as int] == witnesses@[i as int]);
            assert(witnesses@.take(i + 1)[i - 1] == witnesses@[i - 1]);
            lemma_collapse_last(witnesses@.take(i as int));
        }
        let ghost prevc = collapse_spec(witnesses@.take(i as int));
        if witnesses[i] != witnesses[i - 1] + 1 {
            wit.push((last_wit, witnesses[i - 1] + 1));
            last_wit = witnesses[i];
            proof {
                assert(collapse_spec(witnesses@.take(i + 1)) == prevc.push(
                    (witnesses@[i as int], (witnesses@[i as int] + 1) as u32),
                ));
            }
        } else {
            proof {
                assert(collapse_spec(witnesses@.take(i + 1)) == prevc.update(
                    prevc.len() - 1,
                    (prevc[prevc.len() - 1].0, (witnesses@[i as int] + 1) as u32),
                ));
                assert(prevc.update(prevc.len() - 1, (last_wit, (witnesses@[i as int]
                    + 1) as u32)) =~= wit@.push((last_wit, (witnesses@[i as int] + 1) as u32)));
            }
        }
        i = i + 1;
    }
    proof {
        assert(witnesses@.take(witnesses@.len() as int) =~= witnesses@);
    }
    wit.push((last_wit, witnesses[witnesses.len() - 1] + 1));
    wit
}


/// The views of a list of byte strings.
pub open spec fn deep(s: Seq<Vec<u8>>) -> Seq<Seq<u8>> {
    s.map_values(|v: Vec<u8>| v@)
}

/// Whether a symbol line parses: it matches the grammar, its witness field
/// fits a machine word, and each array index leaves room for a length.
pub open spec fn entry_good(l: Seq<u8>) -> bool {
    line_ok(l) && line_witness_val(l) <= u64::MAX && (forall|k: int|
        0 <= k < line_index_vals(l).len() ==> #[trigger] line_index_vals(l)[k] < u64::MAX)
}

/// Whether a symbol line fails the grammar or its witness field overflows.
pub open spec fn entry_malformed(l: Seq<u8>) -> bool {
    !line_ok(l) || line_witness_val(l) > u64::MAX
}

/// The leaf names of a run of symbol lines, in order.
pub open spec fn names_of(ls: Seq<Seq<u8>>) -> Seq<Seq<u8>> {
    ls.map_values(|l: Seq<u8>| line_name(l))
}

/// The order-preserving unique names of a list: the first occurrence of a
/// name keeps its position, later duplicates vanish.
pub open spec fn dedup_first(s: Seq<Seq<u8>>) -> Seq<Seq<u8>>
    decreases s.len(),
{
    if s.len() == 0 {
        Seq::empty()
    } else {
        let rest = dedup_first(s.drop_last());
        if rest.contains(s[s.len() - 1]) {
            rest
        } else {
            rest.push(s[s.len() - 1])
        }
    }
}

/// Byte-wise lexicographic order on names, the order a name-sorted set uses.
pub open spec fn lex_lt(a: Seq<u8>, b: Seq<u8>) -> bool
    decreases a.len(),
{
    if b.len() == 0 {
        false
    } else if a.len() == 0 {
        true
    } else if a[0] < b[0] {
        true
    } else if a[0] > b[0] {
        false
    } else {
        lex_lt(a.drop_first(), b.drop_first())
    }
}

/// Inserts a name into a sorted unique list, keeping it sorted and unique.
pub open spec fn insert_sorted(t: Seq<Seq<u8>>, x: Seq<u8>) -> Seq<Seq<u8>>
    decreases t.len(),
{
    if t.len() == 0 {
        seq![x]
    } else if x == t[t.len() - 1] {
        t
    } else if lex_lt(t[t.len() - 1], x) {
        t.push(x)
    } else {
        insert_sorted(t.drop_last(), x).push(t[t.len() - 1])
    }
}

/// The name-sorted unique set of a list of names.
pub open spec fn sort_unique(s: Seq<Seq<u8>>) -> Seq<Seq<u8>>
    decreases s.len(),
{
    if s.len() == 0 {
        Seq::empty()
    } else {
        insert_sorted(sort_unique(s.drop_last()), s[s.len() - 1])
    }
}

/// The running component-wise maximum of two index tuples; the rank of the
/// first observation of a name stays fixed.
pub open spec fn merge_dims(d: Seq<int>, x: Seq<int>) -> Seq<int> {
    Seq::new(d.len(), |t: int| if t < x.len() && x[t] > d[t] { x[t] } else { d[t] })
}

/// The per-dimension running maxima a name accumulates over a run of symbol
/// lines, or nothing when no occurrence of the name carries array indices.
pub open spec fn shape_at(lv: Seq<Seq<u8>>, nm: Seq<u8>) -> Option<Seq<int>>
    decreases lv.len(),
{
    if lv.len() == 0 {
        Option::None
    } else {
        let rest = shape_at(lv.drop_last(), nm);
        let l = lv[lv.len() - 1];
        if line_name(l) == nm && line_index_vals(l).len() > 0 {
            match rest {
                Option::None => Option::Some(line_index_vals(l)),
                Option::Some(d) => Option::Some(merge_dims(d, line_index_vals(l))),
            }
        } else {
            rest
        }
    }
}

/// Whether all array occurrences of one name, among the first `n` lines,
/// carry equally many indices; the shape inference assumes this of its
/// input.
pub open spec fn ranks_ok(lv: Seq<Seq<u8>>, n: int) -> bool {
    forall|i: int, j: int|
        0 <= i < n && 0 <= j < n && i < lv.len() && j < lv.len() && line_ok(#[trigger] lv[i])
            && line_ok(#[trigger] lv[j]) && line_name(lv[i]) == line_name(lv[j])
            && line_index_vals(lv[i]).len() > 0 && line_index_vals(lv[j]).len() > 0
            ==> line_index_vals(lv[i]).len() == line_index_vals(lv[j]).len()
}

/// The position of the first line among the first `n` that does not parse,
/// or `n` when all of them do.
pub open spec fn first_bad_from(lv: Seq<Seq<u8>>, n: int, i: int) -> int
    decreases n - i,
    when 0 <= i <= n
{
    if i == n {
        n
    } else if i < lv.len() && !entry_good(lv[i]) {
        i
    } else {
        first_bad_from(lv, n, i + 1)
    }
}

/// When every line before `k` parses and line `k` does not, `k` is the
/// first bad line.
proof fn lemma_first_bad_at(lv: Seq<Seq<u8>>, n: int, k: int, i: int)
    requires
        0 <= i <= k < n <= lv.len(),
        forall|j: int| 0 <= j < k ==> entry_good(#[trigger] lv[j]),
        !entry_good(lv[k]),
    ensures
        first_bad_from(lv, n, i) == k,
    decreases k - i,
{
    if i < k {
        lemma_first_bad_at(lv, n, k, i + 1);
    }
}

/// When every line parses, there is no first bad line.
proof fn lemma_first_bad_none(lv: Seq<Seq<u8>>, n: int, i: int)
    requires
        0 <= i <= n <= lv.len(),
        forall|j: int| 0 <= j < n ==> entry_good(#[trigger] lv[j]),
    ensures
        first_bad_from(lv, n, i) == n,
    decreases n - i,
{
    if i < n {
        lemma_first_bad_none(lv, n, i + 1);
    }
}

/// What `abi_from_symbols` returns, for every header and symbol table: the
/// table is rejected exactly when it is shorter than the counts demand,
/// when its first unparsable line is malformed or carries an oversized
/// index, or when the parameter shapes claim more input witnesses than the
/// header grants; otherwise the ABI carries the deduplicated, typed,
/// ordered parameters, the return type, and the witness ranges of the
/// positional walk.
pub open spec fn abi_result_ok(h: Header, lv: Seq<Seq<u8>>, r: Result<Abi, AbiError>) -> bool {
    let o = h.n_pub_out as int;
    let ii = h.n_pub_in as int;
    let p = h.n_prv_in as int;
    let n = o + ii + p;
    let cons = lv.take(n);
    let rnames = dedup_first(names_of(lv.subrange(0, o)));
    let pnames = dedup_first(names_of(lv.subrange(o, o + ii)));
    let vnames = sort_unique(names_of(lv.subrange(o + ii, n)));
    let allnames = pnames + vnames;
    let total = total_count(cons, allnames);
    let fb = first_bad_from(lv, n, 0);
    &&& ((r == Result::<Abi, AbiError>::Err(AbiError::TruncatedSymbolTable)) <==> lv.len() < n)
    &&& (lv.len() >= n ==> ((fb < n && entry_malformed(lv[fb])) <==> r == Result::<
        Abi,
        AbiError,
    >::Err(AbiError::MalformedLine { line: fb as u64 })))
    &&& (lv.len() >= n ==> ((fb < n && !entry_malformed(lv[fb])) <==> r == Result::<
        Abi,
        AbiError,
    >::Err(AbiError::NonNumericArrayIndex { line: fb as u64 })))
    &&& ((lv.len() >= n && fb == n && ii + p > 0 && total > ii + p) <==> r == Result::<
        Abi,
        AbiError,
    >::Err(AbiError::WitnessCountMismatch))
    &&& ((r is Ok) <==> (lv.len() >= n && fb == n && (ii + p == 0 || total <= ii + p)))
    &&& match r {
        Result::Ok(abi) => {
            &&& abi.return_witnesses@ == wit_seq(0, o as nat)
            &&& abi.parameters@.len() == allnames.len()
            &&& forall|t: int|
                0 <= t < pnames.len() ==> (#[trigger] abi.parameters@[t]).name@ == pnames[t]
                    && abi.parameters@[t].visibility is Public && param_type_ok(
                    abi.parameters@[t].typ,
                    cons,
                    pnames[t],
                )
            &&& forall|t: int|
                pnames.len() <= t < allnames.len() ==> (#[trigger] abi.parameters@[t]).name@
                    == vnames[t - pnames.len()] && abi.parameters@[t].visibility is Private
                    && param_type_ok(abi.parameters@[t].typ, cons, vnames[t - pnames.len()])
            &&& return_type_ok(abi.return_type, cons, rnames)
            &&& (ii + p == 0 ==> abi.param_witnesses@.len() == 0)
            &&& (ii + p > 0 ==> abi.param_witnesses@.len() == abi.parameters@.len() && (forall|
                t: int,
            |
                0 <= t < abi.param_witnesses@.len() ==> (#[trigger] abi.param_witnesses@[
                    t]).0@ == abi.parameters@[t].name@ && abi.param_witnesses@[t].1@
                    == collapse_spec(
                    wit_seq(
                        o + sum_counts(abi.parameters@, t),
                        field_count_spec(abi.parameters@[t].typ),
                    ),
                )))
        },
        Result::Err(_) => true,
    }
}

/// Whether a type is the one shape inference assigns a name: the nested
/// array tree of its accumulated maxima, or a plain field element when the
/// name never carries indices.
pub open spec fn param_type_ok(t: AbiType, cons: Seq<Seq<u8>>, nm: Seq<u8>) -> bool {
    match shape_at(cons, nm) {
        Option::None => t == AbiType::Field,
        Option::Some(d) => type_matches(t, d),
    }
}

/// Whether a return type is the one the return names call for: absent for
/// none, a single type for one, a tuple in first-seen order for several.
pub open spec fn return_type_ok(
    rt: Option<AbiReturnType>,
    cons: Seq<Seq<u8>>,
    rnames: Seq<Seq<u8>>,
) -> bool {
    if rnames.len() == 0 {
        rt is None
    } else {
        match rt {
            Option::None => false,
            Option::Some(x) => x.visibility is Public && if rnames.len() == 1 {
                param_type_ok(x.abi_type, cons, rnames[0])
            } else {
                match x.abi_type {
                    AbiType::Tuple { fields } => fields@.len() == rnames.len() && (forall|k: int|
                        0 <= k < rnames.len() ==> param_type_ok(
                            #[trigger] fields@[k],
                            cons,
                            rnames[k],
                        )),
                    _ => false,
                }
            },
        }
    }
}

/// How many input witnesses the parameter of a name consumes.
pub open spec fn shape_count(cons: Seq<Seq<u8>>, nm: Seq<u8>) -> nat {
    match shape_at(cons, nm) {
        Option::None => 1,
        Option::Some(d) => dims_product(d),
    }
}

/// How many input witnesses a run of named parameters consumes in all.
pub open spec fn total_count(cons: Seq<Seq<u8>>, names: Seq<Seq<u8>>) -> nat
    decreases names.len(),
{
    if names.len() == 0 {
        0
    } else {
        total_count(cons, names.drop_last()) + shape_count(cons, names[names.len() - 1])
    }
}

/// A prefix of parameters never consumes more than the whole run.
proof fn lemma_total_count_mono(cons: Seq<Seq<u8>>, names: Seq<Seq<u8>>, k: int)
    requires
        0 <= k <= names.len(),
    ensures
        total_count(cons, names.take(k)) <= total_count(cons, names),
    decreases names.len(),
{
    if k < names.len() {
        lemma_total_count_mono(cons, names.drop_last(), k);
        assert(names.take(k) =~= names.drop_last().take(k));
    } else {
        assert(names.take(k) =~= names);
    }
}

/// The run of consecutive witness indices a parameter occupies.
pub open spec fn wit_seq(start: int, n: nat) -> Seq<u32> {
    Seq::new(n, |t: int| (start + t) as u32)
}

/// The witnesses the parameters before position `k` consume.
pub open spec fn sum_counts(params: Seq<AbiParameter>, k: int) -> nat
    decreases k,
{
    if k <= 0 {
        0
    } else {
        sum_counts(params, k - 1) + field_count_spec(params[k - 1].typ)
    }
}

/// A copy of a byte string.
fn dup_bytes(v: &Vec<u8>) -> (r: Vec<u8>)
    ensures
        r@ == v@,
{
    let mut out: Vec<u8> = Vec::new();
    let mut i: usize = 0;
    while i < v.len()
        invariant
            i <= v@.len(),
            out@ == v@.take(i as int),
        decreases v@.len() - i,
    {
        out.push(v[i]);
        proof {
            assert(out@ =~= v@.take(i + 1));
        }
        i = i + 1;
    }
    proof {
        assert(v@.take(v@.len() as int) =~= v@);
    }
    out
}

/// Whether two byte strings are equal.
fn bytes_eq(a: &Vec<u8>, b: &Vec<u8>) -> (r: bool)
    ensures
        r == (a@ == b@),
{
    if a.len() != b.len() {
        return false;
    }
    let mut i: usize = 0;
    while i < a.len()
        invariant
            a@.len() == b@.len(),
            i <= a@.len(),
            forall|k: int| 0 <= k < i ==> a@[k] == b@[k],
        decreases a@.len() - i,
    {
        if a[i] != b[i] {
            return false;
        }
        i = i + 1;
    }
    proof {
        assert(a@ =~= b@);
    }
    true
}

/// Whether one byte string sorts strictly before another, byte-wise.
fn bytes_lt(a: &Vec<u8>, b: &Vec<u8>) -> (r: bool)
    ensures
        r == lex_lt(a@, b@),
{
    let mut i: usize = 0;
    proof {
        assert(a@.skip(0) =~= a@);
        assert(b@.skip(0) =~= b@);
    }
    while i < a.len() && i < b.len()
        invariant
            i <= a@.len(),
            i <= b@.len(),
            lex_lt(a@, b@) == lex_lt(a@.skip(i as int), b@.skip(i as int)),
        decreases a@.len() - i,
    {
        proof {
            assert(a@.skip(i as int)[0] == a@[i as int]);
            assert(b@.skip(i as int)[0] == b@[i as int]);
            assert(a@.skip(i as int).drop_first() =~= a@.skip(i + 1));
            assert(b@.skip(i as int).drop_first() =~= b@.skip(i + 1));
        }
        if a[i] < b[i] {
            return true;
        }
        if a[i] > b[i] {
            return false;
        }
        i = i + 1;
    }
    proof {
        assert(a@.skip(i as int).len() == a@.len() - i);
        assert(b@.skip(i as int).len() == b@.len() - i);
    }
    i < b.len()
}

/// Whether a list of names holds one.
fn contains_name(v: &Vec<Vec<u8>>, x: &Vec<u8>) -> (r: bool)
    ensures
        r == deep(v@).contains(x@),
{
    let mut i: usize = 0;
    while i < v.len()
        invariant
            i <= v@.len(),
            forall|k: int| 0 <= k < i ==> deep(v@)[k] != x@,
        decreases v@.len() - i,
    {
        proof {
            assert(deep(v@)[i as int] == v@[i as int]@);
        }
        if bytes_eq(&v[i], x) {
            return true;
        }
        i = i + 1;
    }
    proof {
        if deep(v@).contains(x@) {
            let k0 = choose|k: int| 0 <= k < deep(v@).len() && deep(v@)[k] == x@;
            assert(deep(v@)[k0] != x@);
        }
    }
    false
}

/// Inserts a name into a sorted unique list of names.
fn insert_sorted_vec(t: Vec<Vec<u8>>, x: Vec<u8>) -> (r: Vec<Vec<u8>>)
    ensures
        deep(r@) == insert_sorted(deep(t@), x@),
    decreases t@.len(),
{
    if t.len() == 0 {
        let mut out: Vec<Vec<u8>> = Vec::new();
        out.push(x);
        proof {
            assert(deep(out@) =~= seq![x@]);
        }
        return out;
    }
    let mut t = t;
    if bytes_eq(&t[t.len() - 1], &x) {
        proof {
            assert(deep(t@)[t@.len() - 1] == t@[t@.len() - 1]@);
        }
        return t;
    }
    if bytes_lt(&t[t.len() - 1], &x) {
        let ghost oldt = t@;
        t.push(x);
        proof {
            assert(deep(oldt)[oldt.len() - 1] == oldt[oldt.len() - 1]@);
            assert(deep(t@) =~= deep(oldt).push(t@[t@.len() - 1]@));
        }
        return t;
    }
    let ghost oldt = t@;
    let lastv = match t.pop() {
        Some(v) => v,
        None => {
            proof {
                assert(false);
            }
            Vec::new()
        },
    };
    proof {
        assert(deep(t@) =~= deep(oldt).drop_last());
        assert(deep(oldt)[oldt.len() - 1] == oldt[oldt.len() - 1]@);
    }
    let mut r = insert_sorted_vec(t, x);
    let ghost oldr = r@;
    r.push(lastv);
    proof {
        assert(deep(r@) =~= deep(oldr).push(lastv@));
    }
    r
}


/// A prefix of the parameter walk never consumes more than the whole walk.
proof fn lemma_sum_counts_mono(params: Seq<AbiParameter>, k1: int, k2: int)
    requires
        0 <= k1 <= k2,
    ensures
        sum_counts(params, k1) <= sum_counts(params, k2),
    decreases k2,
{
    if k1 < k2 {
        lemma_sum_counts_mono(params, k1, k2 - 1);
    }
}

/// The witnesses a parameter walk consumes equal the total its names' shapes
/// demand, position by position.
proof fn lemma_sum_total(
    params: Seq<AbiParameter>,
    cons: Seq<Seq<u8>>,
    names: Seq<Seq<u8>>,
    k: int,
)
    requires
        params.len() == names.len(),
        forall|t: int|
            0 <= t < params.len() ==> field_count_spec(#[trigger] params[t].typ) == shape_count(
                cons,
                names[t],
            ),
        0 <= k <= params.len(),
    ensures
        sum_counts(params, k) == total_count(cons, names.take(k)),
    decreases k,
{
    if k > 0 {
        lemma_sum_total(params, cons, names, k - 1);
        assert(names.take(k).drop_last() =~= names.take(k - 1));
        assert(names.take(k)[k - 1] == names[k - 1]);
    } else {
        assert(names.take(0) =~= Seq::<Seq<u8>>::empty());
    }
}

/// The shape map built so far: every entry carries the running maxima of
/// its name over the lines consumed, no name appears twice, every name with
/// an array occurrence so far is present, every stored dimension leaves
/// room for a length, and every entry's rank was set by some line already
/// consumed.
pub open spec fn map_inv(mapv: Seq<(Vec<u8>, Vec<u64>)>, cons: Seq<Seq<u8>>) -> bool {
    &&& forall|mi: int|
        0 <= mi < mapv.len() ==> shape_at(cons, (#[trigger] mapv[mi]).0@) == Option::Some(
            mapv[mi].1@.map_values(|v: u64| v as int),
        )
    &&& forall|nm: Seq<u8>| #[trigger]
        shape_at(cons, nm) is Some ==> exists|mi: int|
            0 <= mi < mapv.len() && (#[trigger] mapv[mi]).0@ == nm
    &&& forall|mi: int, d: int|
        0 <= mi < mapv.len() && 0 <= d < mapv[mi].1@.len() ==> #[trigger] mapv[mi].1@[d]
            < u64::MAX
}

/// A copy of a list of dimensions.
fn dup_u64s(v: &Vec<u64>) -> (r: Vec<u64>)
    ensures
        r@ == v@,
{
    let mut out: Vec<u64> = Vec::new();
    let mut i: usize = 0;
    while i < v.len()
        invariant
            i <= v@.len(),
            out@ == v@.take(i as int),
        decreases v@.len() - i,
    {
        out.push(v[i]);
        proof {
            assert(out@ =~= v@.take(i + 1));
        }
        i = i + 1;
    }
    proof {
        assert(v@.take(v@.len() as int) =~= v@);
    }
    out
}

/// Builds the type shape inference assigns a name: the nested array tree of
/// its accumulated maxima, or a plain field element for a scalar.
fn build_type(
    map: &Vec<(Vec<u8>, Vec<u64>)>,
    nm: &Vec<u8>,
    Ghost(cons): Ghost<Seq<Seq<u8>>>,
) -> (t: AbiType)
    requires
        map_inv(map@, cons),
    ensures
        param_type_ok(t, cons, nm@),
{
    let mut mi: usize = 0;
    while mi < map.len()
        invariant
            mi <= map@.len(),
            map_inv(map@, cons),
            forall|k: int| 0 <= k < mi ==> (#[trigger] map@[k]).0@ != nm@,
        decreases map@.len() - mi,
    {
        if bytes_eq(&map[mi].0, nm) {
            let t = array_type_from_nesting_info(&map[mi].1, 0);
            proof {
                assert(map@[mi as int].1@.skip(0) =~= map@[mi as int].1@);
                assert(shape_at(cons, nm@) == Option::Some(
                    map@[mi as int].1@.map_values(|v: u64| v as int),
                ));
            }
            return t;
        }
        mi = mi + 1;
    }
    proof {
        if shape_at(cons, nm@) is Some {
            let mi0 = choose|k: int| 0 <= k < map@.len() && (#[trigger] map@[k]).0@ == nm@;
            assert(map@[mi0].0@ != nm@);
        }
    }
    AbiType::Field
}

/// Maps each parameter to the witness ranges its flattened field elements
/// occupy: the walk consumes consecutive witnesses from the input range in
/// parameter order, and each consumed slice is collapsed into ranges. An
/// empty input range maps no parameter at all.
pub fn param_witnesses_from_abi_param(
    abi_params: &Vec<AbiParameter>,
    input_witnesses: &Vec<u32>,
) -> (r: Vec<(Vec<u8>, Vec<(u32, u32)>)>)
    requires
        sum_counts(abi_params@, abi_params@.len() as int) <= input_witnesses@.len(),
        forall|k: int|
            0 <= k < input_witnesses@.len() ==> #[trigger] input_witnesses@[k] < u32::MAX,
    ensures
        input_witnesses@.len() == 0 ==> r@.len() == 0,
        input_witnesses@.len() > 0 ==> r@.len() == abi_params@.len(),
        input_witnesses@.len() > 0 ==> forall|k: int|
            0 <= k < r@.len() ==> (#[trigger] r@[k]).0@ == abi_params@[k].name@ && r@[k].1@
                == collapse_spec(
                input_witnesses@.subrange(
                    sum_counts(abi_params@, k) as int,
                    sum_counts(abi_params@, k + 1) as int,
                ),
            ),
{
    let mut out: Vec<(Vec<u8>, Vec<(u32, u32)>)> = Vec::new();
    if input_witnesses.len() == 0 {
        return out;
    }
    let n_in = input_witnesses.len();
    let mut idx: usize = 0;
    let mut k: usize = 0;
    while k < abi_params.len()
        invariant
            n_in == input_witnesses@.len(),
            k <= abi_params@.len(),
            out@.len() == k,
            idx == sum_counts(abi_params@, k as int),
            sum_counts(abi_params@, abi_params@.len() as int) <= input_witnesses@.len(),
            forall|t: int|
                0 <= t < input_witnesses@.len() ==> #[trigger] input_witnesses@[t] < u32::MAX,
            forall|t: int|
                0 <= t < k ==> (#[trigger] out@[t]).0@ == abi_params@[t].name@ && out@[t].1@
                    == collapse_spec(
                    input_witnesses@.subrange(
                        sum_counts(abi_params@, t) as int,
                        sum_counts(abi_params@, t + 1) as int,
                    ),
                ),
        decreases abi_params@.len() - k,
    {
        proof {
            lemma_sum_counts_mono(abi_params@, k + 1, abi_params@.len() as int);
            assert(sum_counts(abi_params@, k + 1) == sum_counts(abi_params@, k as int)
                + field_count_spec(abi_params@[k as int].typ));
            assert(field_count_spec(abi_params@[k as int].typ) <= input_witnesses@.len());
        }
        let need64 = match field_count_checked(&abi_params[k].typ) {
            Some(v) => v,
            None => {
                proof {
                    assert(false);
                }
                0
            },
        };
        let need = need64 as usize;
        proof {
            assert(idx + need == sum_counts(abi_params@, k + 1));
            assert(idx + need <= input_witnesses@.len());
        }
        let mut slice: Vec<u32> = Vec::new();
        let mut t: usize = 0;
        while t < need
            invariant
                n_in == input_witnesses@.len(),
                t <= need,
                idx + need <= n_in,
                slice@ == input_witnesses@.subrange(idx as int, idx + t),
            decreases need - t,
        {
            slice.push(input_witnesses[idx + t]);
            proof {
                assert(slice@ =~= input_witnesses@.subrange(idx as int, idx + t + 1));
            }
            t = t + 1;
        }
        let ranges = collapse_ranges(&slice);
        out.push((dup_bytes(&abi_params[k].name), ranges));
        idx = idx + need;
        k = k + 1;
    }
    out
}


/// Reconstructs the ABI from the header counts and the symbol table. The
/// first `n_pub_out` lines name the return signals, the next `n_pub_in` the
/// public inputs, the next `n_prv_in` the private inputs; grouping is
/// positional only. Return and public-input names keep first-seen order,
/// private-input names are sorted; duplicate occurrences of a name refine
/// its array shape instead of adding a parameter. Parameters then consume
/// the input witness range in order, each taking as many consecutive
/// witnesses as its flattened field-element count.
///
/// The shape inference assumes (and the caller must ensure) that all array
/// occurrences of one name carry equally many indices.
#[verifier::rlimit(100)]
pub fn abi_from_symbols(header: &Header, lines: &Vec<Vec<u8>>) -> (r: Result<Abi, AbiError>)
    requires
        header.n_pub_out + header.n_pub_in + header.n_prv_in <= u32::MAX,
        ranks_ok(
            deep(lines@),
            header.n_pub_out + header.n_pub_in + header.n_prv_in,
        ),
    ensures
        abi_result_ok(*header, deep(lines@), r),
{
    let ghost lv = deep(lines@);
    let ghost o = header.n_pub_out as int;
    let ghost ii = header.n_pub_in as int;
    let ghost p = header.n_prv_in as int;
    let n64: u64 = header.n_pub_out as u64 + header.n_pub_in as u64 + header.n_prv_in as u64;
    if (lines.len() as u64) < n64 {
        return Err(AbiError::TruncatedSymbolTable);
    }
    let n: usize = n64 as usize;
    let ou: usize = header.n_pub_out as usize;
    let iu: usize = header.n_pub_in as usize;
    let ghost cons = lv.take(n as int);

    let mut entries: Vec<SymbolEntry> = Vec::new();
    let mut k: usize = 0;
    while k < n
        invariant
            k <= n,
            n == n64,
            n64 == header.n_pub_out + header.n_pub_in + header.n_prv_in,
            header.n_pub_out + header.n_pub_in + header.n_prv_in <= u32::MAX,
            n64 <= lines@.len(),
            lv.len() == lines@.len(),
            lv == deep(lines@),
            entries@.len() == k,
            forall|j: int| 0 <= j < k ==> entry_good(#[trigger] lv[j]),
            forall|j: int|
                0 <= j < k ==> (#[trigger] entries@[j]).name@ == line_name(lv[j])
                    && entries@[j].indices@.map_values(|v: u64| v as int) == line_index_vals(
                    lv[j],
                ) && entries@[j].witness == line_witness_val(lv[j]),
            forall|j: int, d: int|
                0 <= j < k && 0 <= d < entries@[j].indices@.len()
                    ==> #[trigger] entries@[j].indices@[d] < u64::MAX,
        decreases n - k,
    {
        proof {
            assert(lv[k as int] == lines@[k as int]@);
        }
        match parse_symbol_line(&lines[k]) {
            Ok(e) => {
                proof {
                    assert(forall|d: int|
                        0 <= d < e.indices@.len() ==> #[trigger] e.indices@[d] as int
                            == line_index_vals(lv[k as int])[d]);
                }
                entries.push(e);
            },
            Err(SymbolError::Malformed) => {
                proof {
                    assert(lv.len() == lines@.len());
                    assert(entry_malformed(lv[k as int]));
                    assert(!entry_good(lv[k as int]));
                    lemma_first_bad_at(lv, n as int, k as int, 0);
                }
                return Err(AbiError::MalformedLine { line: k as u64 });
            },
            Err(SymbolError::IndexTooLarge) => {
                proof {
                    assert(lv.len() == lines@.len());
                    assert(!entry_malformed(lv[k as int]));
                    let k0 = choose|kk: int|
                        0 <= kk < line_index_vals(lv[k as int]).len()
                            && #[trigger] line_index_vals(lv[k as int])[kk] >= u64::MAX;
                    assert(!entry_good(lv[k as int]));
                    lemma_first_bad_at(lv, n as int, k as int, 0);
                }
                return Err(AbiError::NonNumericArrayIndex { line: k as u64 });
            },
        }
        k = k + 1;
    }

    let mut shape_map: Vec<(Vec<u8>, Vec<u64>)> = Vec::new();
    let mut k2: usize = 0;
    while k2 < n
        invariant
            k2 <= n,
            n == n64,
            n64 == header.n_pub_out + header.n_pub_in + header.n_prv_in,
            header.n_pub_out + header.n_pub_in + header.n_prv_in <= u32::MAX,
            n64 <= lines@.len(),
            lv.len() == lines@.len(),
            lv == deep(lines@),
            cons == lv.take(n as int),
            ranks_ok(lv, n as int),
            entries@.len() == n,
            forall|j: int| 0 <= j < n ==> entry_good(#[trigger] lv[j]),
            forall|j: int|
                0 <= j < n ==> (#[trigger] entries@[j]).name@ == line_name(lv[j])
                    && entries@[j].indices@.map_values(|v: u64| v as int) == line_index_vals(
                    lv[j],
                ),
            forall|j: int, d: int|
                0 <= j < n && 0 <= d < entries@[j].indices@.len()
                    ==> #[trigger] entries@[j].indices@[d] < u64::MAX,
            map_inv(shape_map@, lv.take(k2 as int)),
            forall|mi: int, mj: int|
                0 <= mi < mj < shape_map@.len() ==> (#[trigger] shape_map@[mi]).0@ != (
                #[trigger] shape_map@[mj]).0@,
            forall|mi: int|
                0 <= mi < shape_map@.len() ==> exists|j: int|
                    0 <= j < k2 && line_name(#[trigger] lv[j]) == (
                    #[trigger] shape_map@[mi]).0@ && line_index_vals(lv[j]).len()
                        == shape_map@[mi].1@.len() && line_index_vals(lv[j]).len() > 0,
        decreases n - k2,
    {
        proof {
            assert(lv.take(k2 + 1).drop_last() =~= lv.take(k2 as int));
            assert(lv.take(k2 + 1)[k2 as int] == lv[k2 as int]);
        }
        let has_indices = entries[k2].indices.len() > 0;
        if has_indices {
            let mut pos: usize = 0;
            let mut found = false;
            while pos < shape_map.len() && !found
                invariant
                    pos <= shape_map@.len(),
                    entries@.len() == n,
                    k2 < n,
                    found ==> pos < shape_map@.len() && (#[trigger] shape_map@[
                        pos as int]).0@ == entries@[k2 as int].name@,
                    !found ==> forall|mi: int|
                        0 <= mi < pos ==> (#[trigger] shape_map@[mi]).0@ != entries@[
                        k2 as int].name@,
                decreases shape_map@.len() - pos, (if found { 0int } else { 1int }),
            {
                if bytes_eq(&shape_map[pos].0, &entries[k2].name) {
                    found = true;
                } else {
                    pos = pos + 1;
                }
            }
            let ghost oldmap = shape_map@;
            let ghost nm = entries@[k2 as int].name@;
            let ghost ival = line_index_vals(lv[k2 as int]);
            if found {
                proof {
                    let j0 = choose|j: int|
                        0 <= j < k2 && line_name(#[trigger] lv[j]) == oldmap[pos as int].0@
                            && line_index_vals(lv[j]).len() == oldmap[pos as int].1@.len()
                            && line_index_vals(lv[j]).len() > 0;
                    assert(line_ok(lv[j0]) && line_ok(lv[k2 as int]));
                    assert(line_index_vals(lv[j0]).len() == line_index_vals(
                        lv[k2 as int],
                    ).len());
                }
                let entry = shape_map.remove(pos);
                let (enm, edims) = entry;
                assert(edims@.len() == entries@[k2 as int].indices@.len());
                let mut ndims: Vec<u64> = Vec::new();
                let mut d: usize = 0;
                while d < edims.len()
                    invariant
                        edims@.len() == entries@[k2 as int].indices@.len(),
                        d <= edims@.len(),
                        entries@.len() == n,
                        k2 < n,
                        ndims@.len() == d,
                        forall|t: int|
                            0 <= t < d ==> #[trigger] ndims@[t] == if entries@[
                                k2 as int].indices@[t] > edims@[t] {
                                entries@[k2 as int].indices@[t]
                            } else {
                                edims@[t]
                            },
                    decreases edims@.len() - d,
                {
                    let a = edims[d];
                    let b = entries[k2].indices[d];
                    ndims.push(if b > a { b } else { a });
                    d = d + 1;
                }
                shape_map.insert(pos, (enm, ndims));
                proof {
                    assert(shape_map@ =~= oldmap.update(
                        pos as int,
                        (shape_map@[pos as int].0, shape_map@[pos as int].1),
                    ));
                    assert(shape_map@[pos as int].0@ == nm);
                    assert(shape_map@[pos as int].1@.map_values(|v: u64| v as int)
                        =~= merge_dims(
                        oldmap[pos as int].1@.map_values(|v: u64| v as int),
                        ival,
                    ));
                    assert forall|mi: int| 0 <= mi < shape_map@.len() implies shape_at(
                        lv.take(k2 + 1),
                        (#[trigger] shape_map@[mi]).0@,
                    ) == Option::Some(shape_map@[mi].1@.map_values(|v: u64| v as int)) by {
                        if mi == pos {
                            assert(shape_at(lv.take(k2 as int), nm) == Option::Some(
                                oldmap[pos as int].1@.map_values(|v: u64| v as int),
                            ));
                        } else {
                            assert(shape_map@[mi] == oldmap[mi]);
                            assert(shape_map@[mi].0@ != nm);
                        }
                    }
                    assert forall|nm2: Seq<u8>| #[trigger]
                        shape_at(lv.take(k2 + 1), nm2) is Some implies exists|mi: int|
                        0 <= mi < shape_map@.len() && (#[trigger] shape_map@[mi]).0@
                            == nm2 by {
                        if nm2 == nm {
                            assert(shape_map@[pos as int].0@ == nm2);
                        } else {
                            assert(shape_at(lv.take(k2 as int), nm2) is Some);
                            let mi0 = choose|mi: int|
                                0 <= mi < oldmap.len() && (#[trigger] oldmap[mi]).0@ == nm2;
                            assert(shape_map@[mi0].0@ == nm2);
                        }
                    }
                }
            } else {
                let nmv = dup_bytes(&entries[k2].name);
                let dims = dup_u64s(&entries[k2].indices);
                shape_map.push((nmv, dims));
                proof {
                    assert(shape_map@ =~= oldmap.push(shape_map@[oldmap.len() as int]));
                    assert(shape_map@[oldmap.len() as int].0@ == nm);
                    assert(shape_map@[oldmap.len() as int].1@.map_values(|v: u64| v as int)
                        =~= ival);
                    assert forall|mi: int| 0 <= mi < shape_map@.len() implies shape_at(
                        lv.take(k2 + 1),
                        (#[trigger] shape_map@[mi]).0@,
                    ) == Option::Some(shape_map@[mi].1@.map_values(|v: u64| v as int)) by {
                        if mi == oldmap.len() {
                            if shape_at(lv.take(k2 as int), nm) is Some {
                                let mi0 = choose|t: int|
                                    0 <= t < oldmap.len() && (#[trigger] oldmap[t]).0@ == nm;
                                assert(shape_map@[mi0].0@ != nm);
                                assert(false);
                            }
                        } else {
                            assert(shape_map@[mi] == oldmap[mi]);
                            if shape_map@[mi].0@ == nm {
                                assert(false);
                            }
                        }
                    }
                    assert forall|nm2: Seq<u8>| #[trigger]
                        shape_at(lv.take(k2 + 1), nm2) is Some implies exists|mi: int|
                        0 <= mi < shape_map@.len() && (#[trigger] shape_map@[mi]).0@
                            == nm2 by {
                        if nm2 == nm {
                            assert(shape_map@[oldmap.len() as int].0@ == nm2);
                        } else {
                            assert(shape_at(lv.take(k2 as int), nm2) is Some);
                            let mi0 = choose|mi: int|
                                0 <= mi < oldmap.len() && (#[trigger] oldmap[mi]).0@ == nm2;
                            assert(shape_map@[mi0].0@ == nm2);
                        }
                    }
                }
            }
        } else {
            proof {
                assert(line_index_vals(lv[k2 as int]).len() == 0);
                assert forall|nm2: Seq<u8>| #[trigger]
                    shape_at(lv.take(k2 + 1), nm2) is Some implies exists|mi: int|
                    0 <= mi < shape_map@.len() && (#[trigger] shape_map@[mi]).0@ == nm2 by {
                    assert(shape_at(lv.take(k2 as int), nm2) is Some);
                }
            }
        }
        k2 = k2 + 1;
    }
    proof {
        assert(lv.take(n as int) == cons);
        assert(map_inv(shape_map@, cons));
    }

    let mut ret_vec: Vec<Vec<u8>> = Vec::new();
    let mut k3: usize = 0;
    while k3 < ou
        invariant
            k3 <= ou <= n <= lines@.len(),
            lv == deep(lines@),
            entries@.len() == n,
            forall|j: int|
                0 <= j < n ==> (#[trigger] entries@[j]).name@ == line_name(lv[j]),
            deep(ret_vec@) == dedup_first(names_of(lv.subrange(0, k3 as int))),
        decreases ou - k3,
    {
        proof {
            assert(names_of(lv.subrange(0, k3 + 1)).drop_last() =~= names_of(
                lv.subrange(0, k3 as int),
            ));
            assert(names_of(lv.subrange(0, k3 + 1))[k3 as int] == line_name(lv[k3 as int]));
        }
        let ghost oldv = ret_vec@;
        if !contains_name(&ret_vec, &entries[k3].name) {
            ret_vec.push(dup_bytes(&entries[k3].name));
            proof {
                assert(deep(ret_vec@) =~= deep(oldv).push(line_name(lv[k3 as int])));
            }
        }
        k3 = k3 + 1;
    }

    let mut pub_vec: Vec<Vec<u8>> = Vec::new();
    let mut k4: usize = ou;
    while k4 < ou + iu
        invariant
            ou <= k4 <= ou + iu <= n <= lines@.len(),
            lv == deep(lines@),
            entries@.len() == n,
            forall|j: int|
                0 <= j < n ==> (#[trigger] entries@[j]).name@ == line_name(lv[j]),
            deep(pub_vec@) == dedup_first(names_of(lv.subrange(ou as int, k4 as int))),
        decreases ou + iu - k4,
    {
        proof {
            assert(names_of(lv.subrange(ou as int, k4 + 1)).drop_last() =~= names_of(
                lv.subrange(ou as int, k4 as int),
            ));
            assert(names_of(lv.subrange(ou as int, k4 + 1))[k4 - ou] == line_name(
                lv[k4 as int],
            ));
        }
        let ghost oldv = pub_vec@;
        if !contains_name(&pub_vec, &entries[k4].name) {
            pub_vec.push(dup_bytes(&entries[k4].name));
            proof {
                assert(deep(pub_vec@) =~= deep(oldv).push(line_name(lv[k4 as int])));
            }
        }
        k4 = k4 + 1;
    }

    let mut prv_vec: Vec<Vec<u8>> = Vec::new();
    let mut k5: usize = ou + iu;
    while k5 < n
        invariant
            ou + iu <= k5 <= n <= lines@.len(),
            lv == deep(lines@),
            entries@.len() == n,
            forall|j: int|
                0 <= j < n ==> (#[trigger] entries@[j]).name@ == line_name(lv[j]),
            deep(prv_vec@) == sort_unique(names_of(lv.subrange(ou + iu, k5 as int))),
        decreases n - k5,
    {
        proof {
            assert(names_of(lv.subrange(ou + iu, k5 + 1)).drop_last() =~= names_of(
                lv.subrange(ou + iu, k5 as int),
            ));
            assert(names_of(lv.subrange(ou + iu, k5 + 1))[k5 - (ou + iu)] == line_name(
                lv[k5 as int],
            ));
        }
        prv_vec = insert_sorted_vec(prv_vec, dup_bytes(&entries[k5].name));
        k5 = k5 + 1;
    }

    let ghost rnames = dedup_first(names_of(lv.subrange(0, o)));
    let ghost pnames = dedup_first(names_of(lv.subrange(o, o + ii)));
    let ghost vnames = sort_unique(names_of(lv.subrange(o + ii, o + ii + p)));
    proof {
        assert(deep(ret_vec@) == rnames);
        assert(deep(pub_vec@) == pnames);
        assert(deep(prv_vec@) == vnames);
    }

    let mut parameters: Vec<AbiParameter> = Vec::new();
    let mut k6: usize = 0;
    while k6 < pub_vec.len()
        invariant
            k6 <= pub_vec@.len(),
            map_inv(shape_map@, cons),
            pnames == deep(pub_vec@),
            parameters@.len() == k6,
            forall|t: int|
                0 <= t < k6 ==> (#[trigger] parameters@[t]).name@ == pnames[t]
                    && parameters@[t].visibility is Public && param_type_ok(
                    parameters@[t].typ,
                    cons,
                    pnames[t],
                ),
        decreases pub_vec@.len() - k6,
    {
        let typ = build_type(&shape_map, &pub_vec[k6], Ghost(cons));
        parameters.push(
            AbiParameter {
                name: dup_bytes(&pub_vec[k6]),
                typ,
                visibility: AbiVisibility::Public,
            },
        );
        proof {
            assert(deep(pub_vec@)[k6 as int] == pub_vec@[k6 as int]@);
        }
        k6 = k6 + 1;
    }
    let mut k7: usize = 0;
    while k7 < prv_vec.len()
        invariant
            k7 <= prv_vec@.len(),
            map_inv(shape_map@, cons),
            pnames == deep(pub_vec@),
            vnames == deep(prv_vec@),
            parameters@.len() == pnames.len() + k7,
            forall|t: int|
                0 <= t < pnames.len() ==> (#[trigger] parameters@[t]).name@ == pnames[t]
                    && parameters@[t].visibility is Public && param_type_ok(
                    parameters@[t].typ,
                    cons,
                    pnames[t],
                ),
            forall|t: int|
                pnames.len() <= t < pnames.len() + k7 ==> (#[trigger] parameters@[t]).name@
                    == vnames[t - pnames.len()] && parameters@[t].visibility is Private
                    && param_type_ok(parameters@[t].typ, cons, vnames[t - pnames.len()]),
        decreases prv_vec@.len() - k7,
    {
        let typ = build_type(&shape_map, &prv_vec[k7], Ghost(cons));
        parameters.push(
            AbiParameter {
                name: dup_bytes(&prv_vec[k7]),
                typ,
                visibility: AbiVisibility::Private,
            },
        );
        proof {
            assert(deep(prv_vec@)[k7 as int] == prv_vec@[k7 as int]@);
        }
        k7 = k7 + 1;
    }
    let ghost allnames = pnames + vnames;
    proof {
        assert forall|t: int| 0 <= t < parameters@.len() implies (#[trigger] parameters@[
            t]).name@ == allnames[t] && param_type_ok(parameters@[t].typ, cons, allnames[t]) by {
            if t < pnames.len() {
                assert(allnames[t] == pnames[t]);
            } else {
                assert(allnames[t] == vnames[t - pnames.len()]);
            }
        }
    }

    let return_type: Option<AbiReturnType> = if ret_vec.len() == 0 {
        None
    } else if ret_vec.len() == 1 {
        let t = build_type(&shape_map, &ret_vec[0], Ghost(cons));
        proof {
            assert(deep(ret_vec@)[0] == ret_vec@[0]@);
        }
        Some(AbiReturnType { abi_type: t, visibility: AbiVisibility::Public })
    } else {
        let mut fields: Vec<AbiType> = Vec::new();
        let mut k8: usize = 0;
        while k8 < ret_vec.len()
            invariant
                k8 <= ret_vec@.len(),
                map_inv(shape_map@, cons),
                rnames == deep(ret_vec@),
                fields@.len() == k8,
                forall|t: int|
                    0 <= t < k8 ==> param_type_ok(#[trigger] fields@[t], cons, rnames[t]),
            decreases ret_vec@.len() - k8,
        {
            let t = build_type(&shape_map, &ret_vec[k8], Ghost(cons));
            fields.push(t);
            proof {
                assert(deep(ret_vec@)[k8 as int] == ret_vec@[k8 as int]@);
            }
            k8 = k8 + 1;
        }
        Some(
            AbiReturnType {
                abi_type: AbiType::Tuple { fields },
                visibility: AbiVisibility::Public,
            },
        )
    };

    let mut return_witnesses: Vec<u32> = Vec::new();
    let mut w: u32 = 0;
    while w < header.n_pub_out
        invariant
            w <= header.n_pub_out,
            return_witnesses@ == wit_seq(0, w as nat),
        decreases header.n_pub_out - w,
    {
        return_witnesses.push(w);
        proof {
            assert(return_witnesses@ =~= wit_seq(0, (w + 1) as nat));
        }
        w = w + 1;
    }

    proof {
        lemma_first_bad_none(lv, n as int, 0);
        assert forall|t: int| 0 <= t < parameters@.len() implies field_count_spec(
            (#[trigger] parameters@[t]).typ,
        ) == shape_count(cons, allnames[t]) by {
            match shape_at(cons, allnames[t]) {
                Option::None => {},
                Option::Some(d) => {
                    let mi0 = choose|mi: int|
                        0 <= mi < shape_map@.len() && (#[trigger] shape_map@[mi]).0@
                            == allnames[t];
                    assert(shape_at(cons, shape_map@[mi0].0@) == Option::Some(
                        shape_map@[mi0].1@.map_values(|v: u64| v as int),
                    ));
                    assert(d == shape_map@[mi0].1@.map_values(|v: u64| v as int));
                    assert forall|dd: int| 0 <= dd < d.len() implies #[trigger] d[dd] >= 0 by {
                        assert(d[dd] == shape_map@[mi0].1@[dd] as int);
                    }
                    lemma_type_matches_count(parameters@[t].typ, d);
                },
            }
        }
    }
    let mut total: u64 = 0;
    let mut over = false;
    let mut k9: usize = 0;
    while k9 < parameters.len()
        invariant
            k9 <= parameters@.len(),
            map_inv(shape_map@, cons),
            allnames.len() == parameters@.len(),
            forall|t: int|
                0 <= t < parameters@.len() ==> (#[trigger] parameters@[t]).name@ == allnames[t]
                    && param_type_ok(parameters@[t].typ, cons, allnames[t]),
            forall|t: int|
                0 <= t < parameters@.len() ==> field_count_spec(
                    (#[trigger] parameters@[t]).typ,
                ) == shape_count(cons, allnames[t]),
            !over ==> total == total_count(cons, allnames.take(k9 as int)),
            over ==> total_count(cons, allnames.take(k9 as int)) > u64::MAX,
        decreases parameters@.len() - k9,
    {
        proof {
            assert(allnames.take(k9 + 1).drop_last() =~= allnames.take(k9 as int));
            assert(allnames.take(k9 + 1)[k9 as int] == allnames[k9 as int]);
        }
        let c = field_count_checked(&parameters[k9].typ);
        match c {
            Some(v) => {
                if !over {
                    if total > u64::MAX - v {
                        over = true;
                    } else {
                        total = total + v;
                    }
                } else {
                }
            },
            None => {
                over = true;
            },
        }
        k9 = k9 + 1;
    }
    proof {
        assert(allnames.take(allnames.len() as int) =~= allnames);
    }

    let inputs_total: u64 = header.n_pub_in as u64 + header.n_prv_in as u64;
    let param_witnesses: Vec<(Vec<u8>, Vec<(u32, u32)>)> = if inputs_total == 0 {
        Vec::new()
    } else {
        if over || total > inputs_total {
            return Err(AbiError::WitnessCountMismatch);
        }
        assert(total_count(cons, allnames) <= ii + p);
        let mut input_witnesses: Vec<u32> = Vec::new();
        let mut w2: u32 = header.n_pub_out;
        let ghost iend = o + ii + p;
        while w2 < header.n_pub_out + header.n_pub_in + header.n_prv_in
            invariant
                header.n_pub_out <= w2 <= header.n_pub_out + header.n_pub_in
                    + header.n_prv_in,
                header.n_pub_out + header.n_pub_in + header.n_prv_in <= u32::MAX,
                input_witnesses@ == wit_seq(header.n_pub_out as int, (w2
                    - header.n_pub_out) as nat),
            decreases header.n_pub_out + header.n_pub_in + header.n_prv_in - w2,
        {
            input_witnesses.push(w2);
            proof {
                assert(input_witnesses@ =~= wit_seq(header.n_pub_out as int, (w2 + 1
                    - header.n_pub_out) as nat));
            }
            w2 = w2 + 1;
        }
        proof {
            lemma_sum_total(parameters@, cons, allnames, parameters@.len() as int);
            assert(allnames.take(parameters@.len() as int) =~= allnames);
            assert forall|t: int|
                0 <= t < input_witnesses@.len() implies #[trigger] input_witnesses@[t]
                < u32::MAX by {
                assert(input_witnesses@[t] == header.n_pub_out + t);
            }
        }
        proof {
            assert forall|t: int| 0 <= t < parameters@.len() + 1 implies sum_counts(
                parameters@,
                t,
            ) <= ii + p by {
                lemma_sum_counts_mono(parameters@, t, parameters@.len() as int);
            }
        }
        let pw = param_witnesses_from_abi_param(&parameters, &input_witnesses);
        proof {
            assert forall|t: int| 0 <= t < pw@.len() implies (#[trigger] pw@[t]).1@
                == collapse_spec(
                wit_seq(
                    o + sum_counts(parameters@, t),
                    field_count_spec(parameters@[t].typ),
                ),
            ) by {
                assert(sum_counts(parameters@, t + 1) == sum_counts(parameters@, t)
                    + field_count_spec(parameters@[t].typ));
                assert(input_witnesses@.subrange(
                    sum_counts(parameters@, t) as int,
                    sum_counts(parameters@, t + 1) as int,
                ) =~= wit_seq(
                    o + sum_counts(parameters@, t),
                    field_count_spec(parameters@[t].typ),
                ));
            }
        }
        pw
    };

    let abi = Abi { parameters, param_witnesses, return_type, return_witnesses };
    Ok(abi)
}


/// The witnesses a list of ranges stands for, in order.
pub open spec fn expand_ranges(r: Seq<(u32, u32)>) -> Seq<u32>
    decreases r.len(),
{
    if r.len() == 0 {
        Seq::empty()
    } else {
        expand_ranges(r.drop_last()) + range_seq(r[r.len() - 1])
    }
}

/// The witnesses one half-open range stands for.
pub open spec fn range_seq(t: (u32, u32)) -> Seq<u32> {
    Seq::new(if t.1 >= t.0 { (t.1 - t.0) as nat } else { 0 }, |i: int| (t.0 + i) as u32)
}

/// Collapsing loses nothing and is minimal: expanding the ranges gives the
/// witness list back exactly, every range is nonempty, and no two adjacent
/// ranges abut (else they would have been one range).
pub proof fn lemma_collapse_exact(s: Seq<u32>)
    requires
        forall|k: int| 0 <= k < s.len() ==> #[trigger] s[k] < u32::MAX,
    ensures
        expand_ranges(collapse_spec(s)) == s,
        forall|t: int|
            0 <= t < collapse_spec(s).len() ==> (#[trigger] collapse_spec(s)[t]).0
                < collapse_spec(s)[t].1,
        forall|t: int|
            0 <= t < collapse_spec(s).len() - 1 ==> (#[trigger] collapse_spec(s)[t]).1
                != collapse_spec(s)[t + 1].0,
    decreases s.len(),
{
    if s.len() == 0 {
        assert(expand_ranges(collapse_spec(s)) =~= s);
    } else if s.len() == 1 {
        assert(collapse_spec(s) == seq![(s[0], (s[0] + 1) as u32)]);
        assert(collapse_spec(s).drop_last() =~= Seq::<(u32, u32)>::empty());
        assert(expand_ranges(collapse_spec(s).drop_last()) == Seq::<u32>::empty());
        assert(range_seq((s[0], (s[0] + 1) as u32)).len() == 1);
        assert(expand_ranges(collapse_spec(s)).len() == 1);
        assert(expand_ranges(collapse_spec(s)) =~= s);
    } else {
        let d = s.drop_last();
        lemma_collapse_exact(d);
        lemma_collapse_last(d);
        let r = collapse_spec(d);
        let z = s[s.len() - 1];
        let prev = s[s.len() - 2];
        assert(d[d.len() - 1] == prev);
        if z == prev + 1 {
            let c = collapse_spec(s);
            let last0 = r[r.len() - 1].0;
            assert(c == r.update(r.len() - 1, (last0, (z + 1) as u32)));
            assert(c.drop_last() =~= r.drop_last());
            assert(expand_ranges(c) == expand_ranges(r.drop_last()) + range_seq(
                (last0, (z + 1) as u32),
            ));
            assert(expand_ranges(r) == expand_ranges(r.drop_last()) + range_seq(
                (last0, (prev + 1) as u32),
            ));
            assert(range_seq((last0, (z + 1) as u32)) =~= range_seq(
                (last0, (prev + 1) as u32),
            ).push(z));
            assert(expand_ranges(c) =~= (expand_ranges(r.drop_last()) + range_seq(
                (last0, (prev + 1) as u32),
            )).push(z));
            assert(expand_ranges(c) =~= d.push(z));
            assert(d.push(z) =~= s);
        } else {
            let c = collapse_spec(s);
            assert(c == r.push((z, (z + 1) as u32)));
            assert(c.drop_last() =~= r);
            assert(expand_ranges(c) == expand_ranges(r) + range_seq((z, (z + 1) as u32)));
            assert(range_seq((z, (z + 1) as u32)) =~= seq![z]);
            assert(expand_ranges(c) =~= d.push(z));
            assert(d.push(z) =~= s);
            assert(r[r.len() - 1].1 == prev + 1);
        }
    }
}

/// Collapsing is idempotent: collapsing the expansion of a collapsed list
/// changes nothing.
pub proof fn lemma_collapse_idempotent(s: Seq<u32>)
    requires
        forall|k: int| 0 <= k < s.len() ==> #[trigger] s[k] < u32::MAX,
    ensures
        collapse_spec(expand_ranges(collapse_spec(s))) == collapse_spec(s),
{
    lemma_collapse_exact(s);
}

/// The running component-wise maximum of a nonempty run of equal-rank index
/// tuples, the quantity shape inference accumulates per name.
pub open spec fn shape_fold(ts: Seq<Seq<int>>) -> Seq<int>
    decreases ts.len(),
{
    if ts.len() == 0 {
        Seq::empty()
    } else if ts.len() == 1 {
        ts[0]
    } else {
        merge_dims(shape_fold(ts.drop_last()), ts[ts.len() - 1])
    }
}

/// The fold of equal-rank tuples keeps the rank, bounds every observation
/// from above, and attains each of its entries at some observation.
proof fn lemma_shape_fold_bounds(ts: Seq<Seq<int>>, rank: nat)
    requires
        ts.len() > 0,
        forall|k: int| 0 <= k < ts.len() ==> (#[trigger] ts[k]).len() == rank,
    ensures
        shape_fold(ts).len() == rank,
        forall|k: int, d: int|
            0 <= k < ts.len() && 0 <= d < rank ==> #[trigger] ts[k][d] <= shape_fold(ts)[d],
        forall|d: int|
            0 <= d < rank ==> exists|k: int|
                0 <= k < ts.len() && #[trigger] shape_fold(ts)[d] == ts[k][d],
    decreases ts.len(),
{
    if ts.len() > 1 {
        lemma_shape_fold_bounds(ts.drop_last(), rank);
        let f = shape_fold(ts);
        let g = shape_fold(ts.drop_last());
        let z = ts[ts.len() - 1];
        assert forall|k: int, d: int|
            0 <= k < ts.len() && 0 <= d < rank implies #[trigger] ts[k][d] <= f[d] by {
            if k < ts.len() - 1 {
                assert(ts.drop_last()[k][d] <= g[d]);
            }
        }
        assert forall|d: int| 0 <= d < rank implies exists|k: int|
            0 <= k < ts.len() && #[trigger] f[d] == ts[k][d] by {
            if z[d] > g[d] {
                assert(f[d] == ts[ts.len() - 1][d]);
            } else {
                let k0 = choose|k: int|
                    0 <= k < ts.drop_last().len() && #[trigger] g[d] == ts.drop_last()[k][d];
                assert(f[d] == ts[k0][d]);
            }
        }
    }
}

/// Shape inference is order-independent: feeding the same collection of
/// equal-rank index tuples in any order accumulates the same per-dimension
/// maxima, hence the same inferred type.
pub proof fn lemma_shape_fold_order_independent(ts1: Seq<Seq<int>>, ts2: Seq<Seq<int>>, rank: nat)
    requires
        ts1.len() > 0,
        ts1.to_multiset() == ts2.to_multiset(),
        forall|k: int| 0 <= k < ts1.len() ==> (#[trigger] ts1[k]).len() == rank,
        forall|k: int| 0 <= k < ts2.len() ==> (#[trigger] ts2[k]).len() == rank,
    ensures
        shape_fold(ts1) == shape_fold(ts2),
{
    ts1.to_multiset_ensures();
    ts2.to_multiset_ensures();
    assert(ts2.len() == ts2.to_multiset().len());
    assert(ts2.len() > 0);
    lemma_shape_fold_bounds(ts1, rank);
    lemma_shape_fold_bounds(ts2, rank);
    let f1 = shape_fold(ts1);
    let f2 = shape_fold(ts2);
    assert forall|d: int| 0 <= d < rank implies f1[d] == f2[d] by {
        let k1 = choose|k: int| 0 <= k < ts1.len() && #[trigger] f1[d] == ts1[k][d];
        assert(ts1.contains(ts1[k1]));
        assert(ts1.to_multiset().count(ts1[k1]) > 0);
        assert(ts2.contains(ts1[k1]));
        let j1 = choose|j: int| 0 <= j < ts2.len() && ts2[j] == ts1[k1];
        assert(ts2[j1][d] <= f2[d]);
        let k2 = choose|k: int| 0 <= k < ts2.len() && #[trigger] f2[d] == ts2[k][d];
        assert(ts2.contains(ts2[k2]));
        assert(ts2.to_multiset().count(ts2[k2]) > 0);
        assert(ts1.contains(ts2[k2]));
        let j2 = choose|j: int| 0 <= j < ts1.len() && ts1[j] == ts2[k2];
        assert(ts1[j2][d] <= f1[d]);
    }
    assert(f1 =~= f2);
}

} // verus!
