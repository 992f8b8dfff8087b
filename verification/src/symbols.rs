use vstd::prelude::*;

verus! {

/// An ASCII decimal digit.
pub open spec fn is_digit(c: u8) -> bool {
    48 <= c <= 57
}

/// An ASCII word character: letter, digit or underscore.
pub open spec fn is_word(c: u8) -> bool {
    is_digit(c) || (65 <= c <= 90) || (97 <= c <= 122) || c == 95
}

/// The first position at or after `i` that does not hold a digit.
pub open spec fn scan_digits(s: Seq<u8>, i: int) -> int
    decreases s.len() - i,
    when 0 <= i <= s.len()
{
    if i == s.len() || !is_digit(s[i]) {
        i
    } else {
        scan_digits(s, i + 1)
    }
}

/// The first position at or after `i` that does not hold a word character.
pub open spec fn scan_word(s: Seq<u8>, i: int) -> int
    decreases s.len() - i,
    when 0 <= i <= s.len()
{
    if i == s.len() || !is_word(s[i]) {
        i
    } else {
        scan_word(s, i + 1)
    }
}

/// The position of the last dot of the line, or -1 when it has none.
pub open spec fn last_dot(s: Seq<u8>) -> int
    decreases s.len(),
{
    if s.len() == 0 {
        -1
    } else if s[s.len() - 1] == 46 {
        s.len() - 1
    } else {
        last_dot(s.drop_last())
    }
}

/// The number a run of decimal digits stands for.
pub open spec fn digits_val(s: Seq<u8>) -> int
    decreases s.len(),
{
    if s.len() == 0 {
        0
    } else {
        digits_val(s.drop_last()) * 10 + (s[s.len() - 1] - 48)
    }
}

/// Whether a component path prefix is well formed: empty, or starting with a
/// word character, holding only word characters and dots, with no two dots
/// adjacent.
pub open spec fn prefix_ok(a: Seq<u8>) -> bool {
    a.len() == 0 || (is_word(a[0]) && (forall|i: int|
        0 <= i < a.len() ==> is_word(#[trigger] a[i]) || a[i] == 46) && (forall|i: int|
        0 <= i < a.len() - 1 ==> !(#[trigger] a[i] == 46 && a[i + 1] == 46)))
}

/// Whether from `i` to the end the line is a run of bracketed digit groups.
pub open spec fn groups_ok(s: Seq<u8>, i: int) -> bool
    decreases s.len() - i,
    when 0 <= i <= s.len()
{
    if i == s.len() {
        true
    } else if s[i] != 91 {
        false
    } else {
        let j = scan_digits(s, i + 1);
        j > i + 1 && j < s.len() && s[j] == 93 && groups_ok(s, j + 1)
    }
}

/// The numbers the bracketed digit groups from `i` to the end stand for.
pub open spec fn groups_vals(s: Seq<u8>, i: int) -> Seq<int>
    decreases s.len() - i,
    when 0 <= i <= s.len()
{
    if i == s.len() || s[i] != 91 {
        Seq::empty()
    } else {
        let j = scan_digits(s, i + 1);
        if j > i + 1 && j < s.len() && s[j] == 93 {
            seq![digits_val(s.subrange(i + 1, j))] + groups_vals(s, j + 1)
        } else {
            Seq::empty()
        }
    }
}

/// Whether a symbol line matches the fixed grammar: three decimal fields
/// separated by commas, then a dotted component path, a dot, the leaf name,
/// and an optional run of bracketed array indices.
pub open spec fn line_ok(s: Seq<u8>) -> bool {
    let d1 = scan_digits(s, 0);
    if !(d1 > 0 && d1 < s.len() && s[d1] == 44) {
        false
    } else {
        let d2 = scan_digits(s, d1 + 1);
        if !(d2 > d1 + 1 && d2 < s.len() && s[d2] == 44) {
            false
        } else {
            let d3 = scan_digits(s, d2 + 1);
            if !(d3 > d2 + 1 && d3 < s.len() && s[d3] == 44) {
                false
            } else {
                let dot = last_dot(s);
                if !(dot > d3) {
                    false
                } else {
                    let w = scan_word(s, dot + 1);
                    prefix_ok(s.subrange(d3 + 1, dot)) && w > dot + 1 && groups_ok(s, w)
                }
            }
        }
    }
}

/// The witness-index field of a well-formed line.
pub open spec fn line_witness_val(s: Seq<u8>) -> int {
    let d1 = scan_digits(s, 0);
    let d2 = scan_digits(s, d1 + 1);
    digits_val(s.subrange(d1 + 1, d2))
}

/// The leaf signal name of a well-formed line.
pub open spec fn line_name(s: Seq<u8>) -> Seq<u8> {
    let dot = last_dot(s);
    let w = scan_word(s, dot + 1);
    s.subrange(dot + 1, w)
}

/// The array indices of a well-formed line, in order.
pub open spec fn line_index_vals(s: Seq<u8>) -> Seq<int> {
    let dot = last_dot(s);
    let w = scan_word(s, dot + 1);
    groups_vals(s, w)
}

/// One parsed symbol line: the witness-index field, the leaf signal name,
/// and this occurrence's array indices (empty for a scalar occurrence).
#[derive(Debug)]
pub struct SymbolEntry {
    pub witness: u64,
    pub name: Vec<u8>,
    pub indices: Vec<u64>,
}

/// Why a symbol line is rejected: it fails the grammar (or a numeric field
/// does not fit the machine word), or an array index is too large for a
/// machine word to hold the index and the array length it implies.
#[derive(Debug)]
pub enum SymbolError {
    Malformed,
    IndexTooLarge,
}

/// A digit run read up to a prefix never exceeds the whole run.
proof fn lemma_digits_val_prefix_le(r: Seq<u8>, m: int)
    requires
        0 <= m <= r.len(),
        forall|i: int| 0 <= i < r.len() ==> is_digit(#[trigger] r[i]),
    ensures
        digits_val(r.take(m)) <= digits_val(r),
        digits_val(r) >= 0,
    decreases r.len(),
{
    if r.len() == 0 {
        assert(r.take(m) =~= r);
    } else if m == r.len() {
        assert(r.take(m) =~= r);
        lemma_digits_val_prefix_le(r.drop_last(), r.len() - 1);
    } else {
        lemma_digits_val_prefix_le(r.drop_last(), m);
        assert(r.take(m) =~= r.drop_last().take(m));
        assert(digits_val(r.drop_last()) * 10 >= digits_val(r.drop_last())) by (nonlinear_arith)
            requires
                digits_val(r.drop_last()) >= 0,
        ;
    }
}

/// Scanning digits never moves backwards and stays inside the line; every
/// character passed over is a digit.
proof fn lemma_scan_digits_bounds(s: Seq<u8>, i: int)
    requires
        0 <= i <= s.len(),
    ensures
        i <= scan_digits(s, i) <= s.len(),
        forall|k: int| i <= k < scan_digits(s, i) ==> is_digit(#[trigger] s[k]),
    decreases s.len() - i,
{
    if i < s.len() && is_digit(s[i]) {
        lemma_scan_digits_bounds(s, i + 1);
    }
}

/// Finds the first position at or after `start` without a digit.
fn scan_digits_vec(l: &Vec<u8>, start: usize) -> (r: usize)
    requires
        start <= l@.len(),
    ensures
        r == scan_digits(l@, start as int),
        start <= r <= l@.len(),
{
    let mut i = start;
    while i < l.len() && 48 <= l[i] && l[i] <= 57
        invariant
            start <= i <= l@.len(),
            scan_digits(l@, start as int) == scan_digits(l@, i as int),
        decreases l@.len() - i,
    {
        i = i + 1;
    }
    i
}

/// Finds the first position at or after `start` without a word character.
fn scan_word_vec(l: &Vec<u8>, start: usize) -> (r: usize)
    requires
        start <= l@.len(),
    ensures
        r == scan_word(l@, start as int),
        start <= r <= l@.len(),
{
    let mut i = start;
    while i < l.len() && (48 <= l[i] && l[i] <= 57 || 65 <= l[i] && l[i] <= 90 || 97 <= l[i]
        && l[i] <= 122 || l[i] == 95)
        invariant
            start <= i <= l@.len(),
            scan_word(l@, start as int) == scan_word(l@, i as int),
        decreases l@.len() - i,
    {
        i = i + 1;
    }
    i
}

/// Finds the last dot of the line, if it has one.
fn last_dot_vec(l: &Vec<u8>) -> (r: Option<usize>)
    ensures
        match r {
            Some(p) => p == last_dot(l@) && 0 <= p < l@.len(),
            None => last_dot(l@) == -1,
        },
{
    let mut j = l.len();
    proof {
        assert(l@.take(l@.len() as int) =~= l@);
    }
    while j > 0
        invariant
            j <= l@.len(),
            last_dot(l@) == last_dot(l@.take(j as int)),
        decreases j,
    {
        proof {
            assert(l@.take(j as int).drop_last() =~= l@.take(j - 1));
            assert(l@.take(j as int)[j - 1] == l@[j - 1]);
        }
        if l[j - 1] == 46 {
            return Some(j - 1);
        }
        j = j - 1;
    }
    proof {
        assert(l@.take(0) =~= Seq::<u8>::empty());
    }
    None
}

/// Reads the number a digit region stands for, if it fits a machine word.
fn parse_digits_value(l: &Vec<u8>, a: usize, b: usize) -> (r: Option<u64>)
    requires
        0 <= a <= b <= l@.len(),
        forall|i: int| a <= i < b ==> is_digit(#[trigger] l@[i]),
    ensures
        match r {
            Some(v) => digits_val(l@.subrange(a as int, b as int)) == v,
            None => digits_val(l@.subrange(a as int, b as int)) > u64::MAX,
        },
{
    let ghost region = l@.subrange(a as int, b as int);
    let mut v: u64 = 0;
    let mut i = a;
    while i < b
        invariant
            a <= i <= b <= l@.len(),
            region == l@.subrange(a as int, b as int),
            forall|k: int| a <= k < b ==> is_digit(#[trigger] l@[k]),
            v == digits_val(region.take(i - a)),
        decreases b - i,
    {
        proof {
            assert(region.take(i - a + 1).drop_last() =~= region.take(i - a));
            assert(region.take(i - a + 1)[i - a] == l@[i as int]);
        }
        let d = l[i] - 48;
        if v > (u64::MAX - d as u64) / 10 {
            proof {
                assert(v * 10 + d > u64::MAX) by (nonlinear_arith)
                    requires
                        v > (u64::MAX - d as u64) / 10,
                        (u64::MAX - d as u64) / 10 == ((u64::MAX - d) as int) / 10,
                        0 <= d <= 9,
                ;
                assert(forall|k: int|
                    0 <= k < region.len() ==> is_digit(#[trigger] region[k]));
                lemma_digits_val_prefix_le(region, i - a + 1);
                assert(digits_val(region.take(i - a + 1)) == v * 10 + d);
            }
            return None;
        }
        proof {
            assert(v * 10 + d <= u64::MAX) by (nonlinear_arith)
                requires
                    v <= (u64::MAX - d as u64) / 10,
                    (u64::MAX - d as u64) / 10 == ((u64::MAX - d) as int) / 10,
                    0 <= d <= 9,
            ;
        }
        v = v * 10 + d as u64;
        i = i + 1;
    }
    proof {
        assert(region.take(b - a) =~= region);
    }
    Some(v)
}

/// Decides whether a component path prefix region is well formed.
fn check_prefix(l: &Vec<u8>, a: usize, b: usize) -> (r: bool)
    requires
        a <= b <= l@.len(),
    ensures
        r == prefix_ok(l@.subrange(a as int, b as int)),
{
    let ghost prefix = l@.subrange(a as int, b as int);
    if a == b {
        return true;
    }
    let c0 = l[a];
    if !(48 <= c0 && c0 <= 57 || 65 <= c0 && c0 <= 90 || 97 <= c0 && c0 <= 122 || c0 == 95) {
        proof {
            assert(prefix[0] == l@[a as int]);
        }
        return false;
    }
    let mut p = a;
    while p < b
        invariant
            a <= p <= b <= l@.len(),
            a < b,
            prefix == l@.subrange(a as int, b as int),
            is_word(prefix[0]),
            forall|i: int| 0 <= i < p - a ==> is_word(#[trigger] prefix[i]) || prefix[i] == 46,
            forall|i: int|
                0 <= i < p - a - 1 ==> !(#[trigger] prefix[i] == 46 && prefix[i + 1] == 46),
        decreases b - p,
    {
        proof {
            assert(prefix[p - a] == l@[p as int]);
            if p > a {
                assert(prefix[p - a - 1] == l@[p - 1]);
            }
        }
        let c = l[p];
        let word = 48 <= c && c <= 57 || 65 <= c && c <= 90 || 97 <= c && c <= 122 || c == 95;
        if !(word || c == 46) {
            return false;
        }
        if p > a && c == 46 && l[p - 1] == 46 {
            return false;
        }
        p = p + 1;
    }
    true
}

/// Decides whether from `start` to the end the line is a run of bracketed
/// digit groups.
fn check_groups(l: &Vec<u8>, start: usize) -> (r: bool)
    requires
        start <= l@.len(),
    ensures
        r == groups_ok(l@, start as int),
{
    let n = l.len();
    let mut q = start;
    while q < n
        invariant
            start <= q <= n,
            n == l@.len(),
            groups_ok(l@, start as int) <==> groups_ok(l@, q as int),
        decreases n - q,
    {
        if l[q] != 91 {
            return false;
        }
        let j = scan_digits_vec(l, q + 1);
        if !(j > q + 1 && j < n && l[j] == 93) {
            return false;
        }
        q = j + 1;
    }
    true
}

/// Reads the values of a well-formed run of bracketed digit groups; fails
/// when one of them leaves no room for the array length it implies.
fn read_group_values(l: &Vec<u8>, start: usize) -> (r: Option<Vec<u64>>)
    requires
        start <= l@.len(),
        groups_ok(l@, start as int),
    ensures
        match r {
            Some(v) => v@.map_values(|x: u64| x as int) == groups_vals(l@, start as int) && (
            forall|k: int| 0 <= k < v@.len() ==> #[trigger] v@[k] < u64::MAX),
            None => exists|k: int|
                0 <= k < groups_vals(l@, start as int).len() && #[trigger] groups_vals(
                    l@,
                    start as int,
                )[k] >= u64::MAX,
        },
{
    let n = l.len();
    let mut acc: Vec<u64> = Vec::new();
    let mut q = start;
    while q < n
        invariant
            start <= q <= n,
            n == l@.len(),
            groups_ok(l@, q as int),
            groups_vals(l@, start as int) == acc@.map_values(|x: u64| x as int) + groups_vals(
                l@,
                q as int,
            ),
            forall|k: int| 0 <= k < acc@.len() ==> #[trigger] acc@[k] < u64::MAX,
        decreases n - q,
    {
        let ghost prev = acc@;
        let j = scan_digits_vec(l, q + 1);
        proof {
            lemma_scan_digits_bounds(l@, q + 1);
            assert(groups_vals(l@, q as int) == seq![digits_val(l@.subrange(q + 1, j as int))]
                + groups_vals(l@, j + 1));
            assert(groups_vals(l@, start as int)[prev.len() as int] == digits_val(
                l@.subrange(q + 1, j as int),
            ));
        }
        let v = match parse_digits_value(l, q + 1, j) {
            Some(v) => v,
            None => {
                return None;
            },
        };
        if v == u64::MAX {
            return None;
        }
        acc.push(v);
        proof {
            assert(acc@.map_values(|x: u64| x as int) =~= prev.map_values(|x: u64| x as int).push(
                v as int,
            ));
            assert(acc@.map_values(|x: u64| x as int) + groups_vals(l@, j + 1) =~= prev.map_values(
                |x: u64| x as int,
            ) + groups_vals(l@, q as int));
        }
        q = j + 1;
    }
    Some(acc)
}

/// Parses one symbol line against the fixed grammar. A line is accepted
/// exactly when it matches the grammar, its witness-index field fits a
/// machine word, and every array index leaves room for the array length it
/// implies (index + 1); the entry returned carries the witness-index field,
/// the leaf name, and the array indices in order.
pub fn parse_symbol_line(l: &Vec<u8>) -> (r: Result<SymbolEntry, SymbolError>)
    ensures
        r is Ok <==> line_ok(l@) && line_witness_val(l@) <= u64::MAX && (forall|k: int|
            0 <= k < line_index_vals(l@).len() ==> #[trigger] line_index_vals(l@)[k]
                < u64::MAX),
        r matches Ok(e) ==> {
            &&& e.witness == line_witness_val(l@)
            &&& e.name@ == line_name(l@)
            &&& e.indices@.map_values(|v: u64| v as int) == line_index_vals(l@)
        },
        r == Result::<SymbolEntry, SymbolError>::Err(SymbolError::Malformed) <==> !line_ok(l@)
            || line_witness_val(l@) > u64::MAX,
        r == Result::<SymbolEntry, SymbolError>::Err(SymbolError::IndexTooLarge) <==> line_ok(
            l@,
        ) && line_witness_val(l@) <= u64::MAX && (exists|k: int|
            0 <= k < line_index_vals(l@).len() && #[trigger] line_index_vals(l@)[k]
                >= u64::MAX),
{
    let n = l.len();
    let d1 = scan_digits_vec(l, 0);
    if !(d1 > 0 && d1 < n && l[d1] == 44) {
        return Err(SymbolError::Malformed);
    }
    let d2 = scan_digits_vec(l, d1 + 1);
    if !(d2 > d1 + 1 && d2 < n && l[d2] == 44) {
        return Err(SymbolError::Malformed);
    }
    let d3 = scan_digits_vec(l, d2 + 1);
    if !(d3 > d2 + 1 && d3 < n && l[d3] == 44) {
        return Err(SymbolError::Malformed);
    }
    let dot = match last_dot_vec(l) {
        Some(p) => p,
        None => {
            return Err(SymbolError::Malformed);
        },
    };
    if !(dot > d3) {
        return Err(SymbolError::Malformed);
    }
    if !check_prefix(l, d3 + 1, dot) {
        return Err(SymbolError::Malformed);
    }
    let w = scan_word_vec(l, dot + 1);
    if !(w > dot + 1) {
        return Err(SymbolError::Malformed);
    }
    // The whole shape of the trailing index groups is checked before any
    // value is read, so a malformed later group is still a grammar error.
    if !check_groups(l, w) {
        return Err(SymbolError::Malformed);
    }
    assert(line_ok(l@));
    proof {
        lemma_scan_digits_bounds(l@, d1 + 1);
    }
    let witness = match parse_digits_value(l, d1 + 1, d2) {
        Some(v) => v,
        None => {
            return Err(SymbolError::Malformed);
        },
    };
    let mut name: Vec<u8> = Vec::new();
    let mut t = dot + 1;
    while t < w
        invariant
            dot + 1 <= t <= w <= l@.len(),
            name@ == l@.subrange(dot + 1, t as int),
        decreases w - t,
    {
        name.push(l[t]);
        proof {
            assert(name@ =~= l@.subrange(dot + 1, t + 1));
        }
        t = t + 1;
    }
    let indices = match read_group_values(l, w) {
        Some(v) => v,
        None => {
            proof {
                let k0 = choose|k: int|
                    0 <= k < groups_vals(l@, w as int).len() && #[trigger] groups_vals(
                        l@,
                        w as int,
                    )[k] >= u64::MAX;
                assert(line_index_vals(l@) == groups_vals(l@, w as int));
                assert(line_index_vals(l@)[k0] >= u64::MAX);
            }
            return Err(SymbolError::IndexTooLarge);
        },
    };
    Ok(SymbolEntry { witness, name, indices })
}

} // verus!
