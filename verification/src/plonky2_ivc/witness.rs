//! The values that an honest prover fills into the wires of a circuit.

use crate::bits::{bit_nat, digit};
use crate::plonky2_ivc::gates::{gate_followed, gate_holds, gate_in, gate_size, gate_width, width_of,
    wire_le_sum, wire_range, wire_sum, Gate, GateCircuit, ORDER};
use vstd::arithmetic::div_mod::{lemma_add_mod_noop, lemma_mod_bound, lemma_small_mod};
use vstd::arithmetic::power2::{lemma2_to64, lemma_pow2_unfold, pow2};
use vstd::bits::lemma_u64_shr_is_div;
use vstd::prelude::*;

verus! {

/// Wire values as integers.
pub open spec fn ints(v: Seq<u64>) -> Seq<int> {
    v.map_values(|x: u64| x as int)
}

/// Number of wires that are inputs.
pub open spec fn free_count(gates: Seq<Gate>) -> nat
    decreases gates.len(),
{
    if gates.len() == 0 {
        0
    } else {
        free_count(gates.drop_last()) + (if gates.last() is Free || gates.last() is Bool {
            1nat
        } else {
            0nat
        })
    }
}

proof fn lemma_sums_stable(a: Seq<int>, b: Seq<int>, terms: Seq<usize>)
    requires
        a.len() <= b.len(),
        forall|i: int| 0 <= i < a.len() ==> a[i] == #[trigger] b[i],
        forall|i: int| 0 <= i < terms.len() ==> #[trigger] terms[i] < a.len(),
    ensures
        wire_sum(a, terms) == wire_sum(b, terms),
        wire_le_sum(a, terms) == wire_le_sum(b, terms),
    decreases terms.len(),
{
    if terms.len() > 0 {
        let head = terms.drop_last();
        assert forall|i: int| 0 <= i < head.len() implies #[trigger] head[i] < a.len() by {
            assert(head[i] == terms[i]);
        }
        lemma_sums_stable(a, b, head);
        assert(terms[terms.len() - 1] < a.len());
        assert(a[terms.last() as int] == b[terms.last() as int]);
    }
}

/// Further wires leave an earlier gate as it was filled in.
proof fn lemma_gate_stable(g: Gate, out: int, a: Seq<int>, b: Seq<int>)
    requires
        0 <= out,
        gate_in(g, out as nat),
        out + gate_width(g) <= a.len() <= b.len(),
        forall|i: int| 0 <= i < a.len() ==> a[i] == #[trigger] b[i],
    ensures
        gate_followed(g, out, a) == gate_followed(g, out, b),
{
    match g {
        Gate::AddMany { terms } => {
            lemma_sums_stable(a, b, terms@);
        },
        Gate::LeSum { bits } => {
            lemma_sums_stable(a, b, bits@);
        },
        Gate::SplitLe { x, n } => {
            assert forall|i: int| 0 <= i < n implies a[out + i] == #[trigger] b[out + i] by {}
            if gate_followed(g, out, a) {
                assert forall|i: int| 0 <= i < n implies #[trigger] b[out + i] == bit_nat(
                    digit(b[x as int] as nat, i as nat),
                ) by {
                    assert(a[out + i] == b[out + i]);
                }
            }
            if gate_followed(g, out, b) {
                assert forall|i: int| 0 <= i < n implies #[trigger] a[out + i] == bit_nat(
                    digit(a[x as int] as nat, i as nat),
                ) by {
                    assert(a[out + i] == b[out + i]);
                }
            }
        },
        _ => {},
    }
}

/// The sum of wires in the field.
fn sum_wires(terms: &Vec<usize>, v: &Vec<u64>) -> (sum: u64)
    requires
        forall|i: int| 0 <= i < terms@.len() ==> #[trigger] terms@[i] < v@.len(),
    ensures
        sum == wire_sum(ints(v@), terms@) % (ORDER as int),
{
    let mut sum: u64 = 0;
    for i in 0..terms.len()
        invariant
            forall|k: int| 0 <= k < terms@.len() ==> #[trigger] terms@[k] < v@.len(),
            sum == wire_sum(ints(v@), terms@.take(i as int)) % (ORDER as int),
            sum < ORDER,
    {
        assert(terms@[i as int] < v@.len());
        let x = v[terms[i]];
        let next = (sum as u128 + x as u128) % (ORDER as u128);
        proof {
            let p = ORDER as int;
            let before = wire_sum(ints(v@), terms@.take(i as int));
            assert(terms@.take(i + 1).drop_last() =~= terms@.take(i as int));
            assert(wire_sum(ints(v@), terms@.take(i + 1)) == before + x);
            vstd::arithmetic::div_mod::lemma_add_mod_noop(before, x as int, p);
            vstd::arithmetic::div_mod::lemma_add_mod_noop(sum as int, x as int, p);
            vstd::arithmetic::div_mod::lemma_mod_twice(before, p);
        }
        sum = next as u64;
    }
    assert(terms@.take(terms@.len() as int) =~= terms@);
    sum
}

/// The number that wires write, in the field.
fn le_sum_wires(bits: &Vec<usize>, v: &Vec<u64>) -> (sum: u64)
    requires
        bits@.len() <= 63,
        forall|i: int| 0 <= i < bits@.len() ==> #[trigger] bits@[i] < v@.len(),
    ensures
        sum == wire_le_sum(ints(v@), bits@) % (ORDER as int),
{
    let mut sum: u64 = 0;
    let mut weight: u64 = 1;
    proof {
        lemma2_to64();
    }
    for i in 0..bits.len()
        invariant
            bits@.len() <= 63,
            forall|k: int| 0 <= k < bits@.len() ==> #[trigger] bits@[k] < v@.len(),
            sum == wire_le_sum(ints(v@), bits@.take(i as int)) % (ORDER as int),
            sum < ORDER,
            i < bits@.len() ==> weight == pow2(i as nat),
    {
        assert(bits@[i as int] < v@.len());
        let x = v[bits[i]];
        proof {
            vstd::arithmetic::power2::lemma_pow2_strictly_increases(i as nat, 64);
            vstd::arithmetic::power2::lemma2_to64_rest();
            assert(0 <= x * weight <= 0xFFFF_FFFF_FFFF_FFFF * 0xFFFF_FFFF_FFFF_FFFF)
                by (nonlinear_arith)
                requires
                    0 <= x <= 0xFFFF_FFFF_FFFF_FFFF,
                    0 <= weight <= 0xFFFF_FFFF_FFFF_FFFF,
            ;
        }
        let term = (x as u128 * weight as u128) % (ORDER as u128);
        let next = (sum as u128 + term) % (ORDER as u128);
        proof {
            let p = ORDER as int;
            let before = wire_le_sum(ints(v@), bits@.take(i as int));
            let t = x * weight;
            assert(bits@.take(i + 1).drop_last() =~= bits@.take(i as int));
            assert(wire_le_sum(ints(v@), bits@.take(i + 1)) == before + t);
            vstd::arithmetic::div_mod::lemma_add_mod_noop(before, t, p);
        }
        sum = next as u64;
        if i + 1 < bits.len() {
            proof {
                lemma_pow2_unfold((i + 1) as nat);
                vstd::arithmetic::power2::lemma_pow2_strictly_increases((i + 1) as nat, 63);
            }
            weight = 2 * weight;
        }
    }
    assert(bits@.take(bits@.len() as int) =~= bits@);
    sum
}

/// Gates that drive a single wire.
pub open spec fn computes(g: Gate) -> bool {
    !(g is Free) && !(g is Bool) && !(g is SplitLe) && !(g is Connect)
}

/// What such a gate drives its wire to.
pub open spec fn gate_output(g: Gate, v: Seq<int>) -> int {
    let p = ORDER as int;
    match g {
        Gate::Constant { value } => value as int,
        Gate::Add { x, y } => (v[x as int] + v[y as int]) % p,
        Gate::Arithmetic { c0, c1, x, y, z } => (c0 * (v[x as int] * v[y as int]) + c1
            * v[z as int]) % p,
        Gate::Select { by, x, y } => (v[by as int] * (v[x as int] - v[y as int]) + v[y as int]) % p,
        Gate::AddMany { terms } => wire_sum(v, terms@) % p,
        Gate::LeSum { bits } => wire_le_sum(v, bits@) % p,
        _ => 0,
    }
}

proof fn lemma_output_stable(g: Gate, n: nat, a: Seq<int>, b: Seq<int>)
    requires
        computes(g),
        gate_in(g, n),
        n <= a.len() <= b.len(),
        forall|i: int| 0 <= i < a.len() ==> a[i] == #[trigger] b[i],
    ensures
        gate_output(g, a) == gate_output(g, b),
{
    match g {
        Gate::AddMany { terms } => {
            lemma_sums_stable(a, b, terms@);
        },
        Gate::LeSum { bits } => {
            lemma_sums_stable(a, b, bits@);
        },
        _ => {},
    }
}

/// What a gate drives its wire to.
fn gate_value(g: &Gate, v: &Vec<u64>) -> (y: u64)
    requires
        gate_in(*g, v@.len()),
        forall|i: int| 0 <= i < v@.len() ==> #[trigger] v@[i] < ORDER,
        computes(*g),
    ensures
        y < ORDER,
        y == gate_output(*g, ints(v@)),
{
    let p = ORDER as u128;
    let y: u64 = match g {
        Gate::Constant { value } => *value,
        Gate::Add { x, y } => ((v[*x] as u128 + v[*y] as u128) % p) as u64,
        Gate::Arithmetic { c0, c1, x, y, z } => {
            let (a, b, d) = (v[*x] as u128, v[*y] as u128, v[*z] as u128);
            proof {
                lemma_product_fits(a, b);
                lemma_product_fits(*c1 as u128, d);
            }
            let ab = (a * b) % p;
            proof {
                lemma_product_fits(*c0 as u128, ab);
            }
            let first = (*c0 as u128 * ab) % p;
            let second = (*c1 as u128 * d) % p;
            proof {
                let m = ORDER as int;
                let t = a * b;
                vstd::arithmetic::div_mod::lemma_mul_mod_noop_right(*c0 as int, t, m);
                vstd::arithmetic::div_mod::lemma_add_mod_noop(
                    (*c0 as int) * t,
                    (*c1 as int) * (d as int),
                    m,
                );
            }
            ((first + second) % p) as u64
        },
        Gate::Select { by, x, y } => {
            let (b, f, g2) = (v[*by] as u128, v[*x] as u128, v[*y] as u128);
            let d = (f + p - g2) % p;
            proof {
                lemma_product_fits(b, d);
            }
            let first = (b * d) % p;
            proof {
                let m = ORDER as int;
                let e = f - g2;
                vstd::arithmetic::div_mod::lemma_mod_add_multiples_vanish(e, m);
                assert(d == e % m);
                vstd::arithmetic::div_mod::lemma_mul_mod_noop_right(b as int, e, m);
                vstd::arithmetic::div_mod::lemma_add_mod_noop((b as int) * e, g2 as int, m);
                lemma_small_mod(g2 as nat, m as nat);
            }
            ((first + g2) % p) as u64
        },
        Gate::AddMany { terms } => sum_wires(terms, v),
        Gate::LeSum { bits } => le_sum_wires(bits, v),
        _ => 0,
    };
    proof {
        match g {
            Gate::AddMany { terms } => {
                lemma_mod_bound(wire_sum(ints(v@), terms@), ORDER as int);
            },
            Gate::LeSum { bits } => {
                lemma_mod_bound(wire_le_sum(ints(v@), bits@), ORDER as int);
            },
            _ => {},
        }
    }
    y
}

proof fn lemma_product_fits(a: u128, b: u128)
    requires
        a <= 0xFFFF_FFFF_FFFF_FFFF,
        b <= 0xFFFF_FFFF_FFFF_FFFF,
    ensures
        0 <= a * b <= u128::MAX,
{
    assert(0 <= a * b <= 0xFFFF_FFFF_FFFF_FFFF * 0xFFFF_FFFF_FFFF_FFFF) by (nonlinear_arith)
        requires
            0 <= a <= 0xFFFF_FFFF_FFFF_FFFF,
            0 <= b <= 0xFFFF_FFFF_FFFF_FFFF,
    ;
}

/// Bit `i` of a number.
fn bit_at(x: u64, i: usize) -> (b: u64)
    requires
        i < 64,
    ensures
        b == bit_nat(digit(x as nat, i as nat)),
{
    let shifted = x >> i as u64;
    proof {
        lemma_u64_shr_is_div(x, i as u64);
        assert((shifted & 1u64 == 1u64) == (shifted % 2 == 1)) by (bit_vector);
    }
    if shifted & 1 == 1 {
        1
    } else {
        0
    }
}

/// The inputs stand where the circuit asks for them.
pub open spec fn takes_inputs(gates: Seq<Gate>, v: Seq<u64>, inputs: Seq<u64>) -> bool {
    forall|k: int|
        0 <= k < gates.len() && ((#[trigger] gates[k]) is Free || gates[k] is Bool)
            ==> v[width_of(gates.take(k)) as int] == inputs[free_count(gates.take(k)) as int]
}

proof fn lemma_widths_grow(gates: Seq<Gate>, i: int, k: int)
    requires
        0 <= i < k <= gates.len(),
    ensures
        width_of(gates.take(i)) + gate_width(gates[i]) <= width_of(gates.take(k)),
        free_count(gates.take(i)) + (if gates[i] is Free || gates[i] is Bool {
            1nat
        } else {
            0nat
        }) <= free_count(gates.take(k)),
    decreases k,
{
    assert(gates.take(k).drop_last() =~= gates.take(k - 1));
    assert(gates.take(k).last() == gates[k - 1]);
    if i + 1 < k {
        lemma_widths_grow(gates, i, k - 1);
    }
}

/// A gate's wires are filled in.
#[verifier::opaque]
spec fn gate_filled(c: GateCircuit, i: int, v: Seq<u64>) -> bool {
    gate_followed(c.gates@[i], width_of(c.gates@.take(i)) as int, ints(v))
}

/// The wires of the first `k` gates are filled in.
#[verifier::opaque]
spec fn filled(c: GateCircuit, k: int, v: Seq<u64>, inputs: Seq<u64>) -> bool {
    &&& v.len() == width_of(c.gates@.take(k))
    &&& forall|i: int| 0 <= i < k ==> #[trigger] gate_filled(c, i, v)
    &&& takes_inputs(c.gates@.take(k), v, inputs)
}

/// What was filled in for an earlier gate stands when more is filled in.
proof fn lemma_gate_stays(c: GateCircuit, i: int, k: int, a: Seq<u64>, b: Seq<u64>)
    requires
        c.wf(),
        0 <= i < k <= c.gates@.len(),
        gate_filled(c, i, a),
        a.len() == width_of(c.gates@.take(k)),
        a.len() <= b.len(),
        forall|i: int| 0 <= i < a.len() ==> a[i] == #[trigger] b[i],
    ensures
        gate_filled(c, i, b),
{
    reveal(gate_filled);
    let out = width_of(c.gates@.take(i)) as int;
    lemma_widths_grow(c.gates@, i, k);
    assert(gate_in(c.gates@[i], out as nat)) by {
        reveal(GateCircuit::wf);
    }
    assert forall|j: int| 0 <= j < ints(a).len() implies ints(a)[j] == #[trigger] ints(b)[j] by {
        assert(a[j] == b[j]);
    }
    lemma_gate_stable(c.gates@[i], out, ints(a), ints(b));
}

proof fn lemma_inputs_stay(gates: Seq<Gate>, k: int, a: Seq<u64>, b: Seq<u64>, inputs: Seq<u64>)
    requires
        0 <= k < gates.len(),
        takes_inputs(gates.take(k), a, inputs),
        a.len() == width_of(gates.take(k)),
        a.len() <= b.len(),
        forall|i: int| 0 <= i < a.len() ==> a[i] == #[trigger] b[i],
        gates[k] is Free || gates[k] is Bool ==> b[a.len() as int] == inputs[free_count(
            gates.take(k),
        ) as int],
    ensures
        takes_inputs(gates.take(k + 1), b, inputs),
{
    let prefix = gates.take(k + 1);
    assert forall|i: int| 0 <= i < prefix.len() && ((#[trigger] prefix[i]) is Free
        || prefix[i] is Bool) implies b[width_of(prefix.take(i)) as int] == inputs[free_count(
        prefix.take(i),
    ) as int] by {
        assert(prefix.take(i) =~= gates.take(i));
        if i < k {
            let shorter = gates.take(k);
            assert(shorter[i] == prefix[i]);
            assert(shorter.take(i) =~= gates.take(i));
            lemma_widths_grow(gates, i, k);
        }
    }
}

proof fn lemma_filled_more(c: GateCircuit, k: int, a: Seq<u64>, b: Seq<u64>, inputs: Seq<u64>)
    requires
        c.wf(),
        0 <= k < c.gates@.len(),
        filled(c, k, a, inputs),
        b.len() == a.len() + gate_width(c.gates@[k]),
        forall|i: int| 0 <= i < a.len() ==> a[i] == #[trigger] b[i],
        gate_followed(c.gates@[k], a.len() as int, ints(b)),
        c.gates@[k] is Free || c.gates@[k] is Bool ==> b[a.len() as int] == inputs[free_count(
            c.gates@.take(k),
        ) as int],
    ensures
        filled(c, k + 1, b, inputs),
{
    reveal(filled);
    assert(c.gates@.take(k + 1).drop_last() =~= c.gates@.take(k));
    assert(c.gates@.take(k + 1).last() == c.gates@[k]);
    assert forall|i: int| 0 <= i < k + 1 implies #[trigger] gate_filled(c, i, b) by {
        if i < k {
            assert(gate_filled(c, i, a));
            lemma_gate_stays(c, i, k, a, b);
        } else {
            reveal(gate_filled);
        }
    }
    lemma_inputs_stay(c.gates@, k, a, b, inputs);
}

proof fn lemma_all_filled(c: GateCircuit, v: Seq<u64>, inputs: Seq<u64>)
    requires
        c.wf(),
        filled(c, c.gates@.len() as int, v, inputs),
    ensures
        v.len() == c.n_wires,
        c.followed(ints(v)),
        takes_inputs(c.gates@, v, inputs),
{
    assert(c.gates@.take(c.gates@.len() as int) =~= c.gates@);
    reveal(GateCircuit::wf);
    reveal(GateCircuit::followed);
    reveal(filled);
    assert forall|i: int| 0 <= i < c.gates@.len() implies gate_followed(
        #[trigger] c.gates@[i],
        width_of(c.gates@.take(i)) as int,
        ints(v),
    ) by {
        assert(gate_filled(c, i, v));
        reveal(gate_filled);
    }
}

/// Fills in the wires of one gate.
fn fill_gate(g: &Gate, v: &mut Vec<u64>, inputs: &[u64], used: usize) -> (next: usize)
    requires
        gate_in(*g, old(v)@.len()),
        forall|i: int| 0 <= i < old(v)@.len() ==> #[trigger] old(v)@[i] < ORDER,
        used <= inputs@.len(),
        *g is Free || *g is Bool ==> used < inputs@.len(),
        forall|i: int| 0 <= i < inputs@.len() ==> #[trigger] inputs@[i] < ORDER,
    ensures
        final(v)@.len() == old(v)@.len() + gate_width(*g),
        forall|i: int| 0 <= i < old(v)@.len() ==> old(v)@[i] == #[trigger] final(v)@[i],
        forall|i: int| 0 <= i < final(v)@.len() ==> #[trigger] final(v)@[i] < ORDER,
        gate_followed(*g, old(v)@.len() as int, ints(final(v)@)),
        *g is Free || *g is Bool ==> final(v)@[old(v)@.len() as int] == inputs@[used as int],
        next == used + (if *g is Free || *g is Bool {
            1int
        } else {
            0
        }),
{
    let ghost before = v@;
    match g {
        Gate::Free => {
            v.push(inputs[used]);
            used + 1
        },
        Gate::Bool => {
            v.push(inputs[used]);
            used + 1
        },
        Gate::Connect { .. } => used,
        Gate::SplitLe { x, n } => {
            let value = v[*x];
            for i in 0..*n
                invariant
                    *n <= 63,
                    *x < before.len(),
                    value == before[*x as int],
                    v@.len() == before.len() + i,
                    forall|k: int| 0 <= k < before.len() ==> before[k] == #[trigger] v@[k],
                    forall|k: int| 0 <= k < v@.len() ==> #[trigger] v@[k] < ORDER,
                    forall|k: int|
                        0 <= k < i ==> #[trigger] v@[before.len() + k] == bit_nat(
                            digit(value as nat, k as nat),
                        ),
            {
                v.push(bit_at(value, i));
            }
            proof {
                let out = before.len() as int;
                assert forall|i: int| 0 <= i < *n implies #[trigger] ints(v@)[out + i] == bit_nat(
                    digit(ints(v@)[*x as int] as nat, i as nat),
                ) by {
                    assert(v@[before.len() + i] == bit_nat(digit(value as nat, i as nat)));
                }
            }
            used
        },
        _ => {
            let y = gate_value(g, v);
            v.push(y);
            proof {
                assert forall|i: int| 0 <= i < before.len() implies ints(before)[i]
                    == #[trigger] ints(v@)[i] by {}
                lemma_output_stable(*g, before.len(), ints(before), ints(v@));
            }
            used
        },
    }
}

/// Fills in all wires from the values of the inputs, in the order in which the
/// circuit asks for them.
pub fn fill(c: &GateCircuit, inputs: &[u64]) -> (v: Vec<u64>)
    requires
        c.wf(),
        inputs@.len() == free_count(c.gates@),
        forall|i: int| 0 <= i < inputs@.len() ==> #[trigger] inputs@[i] < ORDER,
    ensures
        v@.len() == c.n_wires,
        c.fits(ints(v@)),
        c.followed(ints(v@)),
        takes_inputs(c.gates@, v@, inputs@),
{
    let mut v: Vec<u64> = Vec::with_capacity(c.n_wires);
    let mut used: usize = 0;
    proof {
        assert(c.gates@.take(0) =~= Seq::empty());
        reveal(filled);
    }
    for k in 0..c.gates.len()
        invariant
            c.wf(),
            inputs@.len() == free_count(c.gates@),
            forall|i: int| 0 <= i < inputs@.len() ==> #[trigger] inputs@[i] < ORDER,
            used == free_count(c.gates@.take(k as int)),
            forall|i: int| 0 <= i < v@.len() ==> #[trigger] v@[i] < ORDER,
            filled(*c, k as int, v@, inputs@),
    {
        let ghost before = v@;
        let ghost g = c.gates@[k as int];
        proof {
            assert(v@.len() == width_of(c.gates@.take(k as int))) by {
                reveal(filled);
            }
            assert(gate_in(g, v@.len())) by {
                reveal(GateCircuit::wf);
            }
            assert(c.gates@.take(k + 1).drop_last() =~= c.gates@.take(k as int));
            assert(c.gates@.take(k + 1).last() == g);
            lemma_widths_grow(c.gates@, k as int, c.gates@.len() as int);
            assert(c.gates@.take(c.gates@.len() as int) =~= c.gates@);
        }
        used = fill_gate(&c.gates[k], &mut v, inputs, used);
        proof {
            lemma_filled_more(*c, k as int, before, v@, inputs@);
        }
    }
    proof {
        lemma_all_filled(*c, v@, inputs@);
    }
    v
}

/// Whether the values satisfy one gate.
fn gate_satisfied(g: &Gate, out: usize, v: &Vec<u64>) -> (ok: bool)
    requires
        gate_in(*g, out as nat),
        out + gate_width(*g) <= v@.len(),
        forall|i: int| 0 <= i < v@.len() ==> #[trigger] v@[i] < ORDER,
    ensures
        ok == gate_holds(*g, out as int, ints(v@)),
{
    match g {
        Gate::Free => true,
        Gate::Bool => v[out] == 0 || v[out] == 1,
        Gate::Connect { x, y } => v[*x] == v[*y],
        Gate::SplitLe { x, n } => {
            let ghost row = wire_range(out as int, *n as nat);
            let mut bits: Vec<usize> = Vec::with_capacity(*n);
            let total = v.len();
            for i in 0..*n
                invariant
                    *g == (Gate::SplitLe { x: *x, n: *n }),
                    out + *n <= v@.len(),
                    v@.len() == total,
                    row == wire_range(out as int, *n as nat),
                    bits@ == row.take(i as int),
                    forall|k: int|
                        0 <= k < i ==> #[trigger] ints(v@)[out + k] == 0 || ints(v@)[out + k] == 1,
            {
                if v[out + i] != 0 && v[out + i] != 1 {
                    assert(ints(v@)[out + i] != 0 && ints(v@)[out + i] != 1);
                    return false;
                }
                bits.push(out + i);
                assert(bits@ =~= row.take(i + 1));
            }
            assert(bits@ =~= row);
            le_sum_wires(&bits, v) == v[*x]
        },
        _ => {
            proof {
                lemma_gate_in_more(*g, out as nat, v@.len());
            }
            gate_value(g, v) == v[out]
        },
    }
}

proof fn lemma_gate_in_more(g: Gate, n: nat, m: nat)
    requires
        gate_in(g, n),
        n <= m,
    ensures
        gate_in(g, m),
{
    match g {
        Gate::AddMany { terms } => {
            assert forall|i: int| 0 <= i < terms@.len() implies #[trigger] terms@[i] < m by {
                assert(terms@[i] < n);
            }
        },
        Gate::LeSum { bits } => {
            assert forall|i: int| 0 <= i < bits@.len() implies #[trigger] bits@[i] < m by {
                assert(bits@[i] < n);
            }
        },
        _ => {},
    }
}

/// A gate's constraint holds.
#[verifier::opaque]
spec fn gate_ok(c: GateCircuit, i: int, v: Seq<int>) -> bool {
    gate_holds(c.gates@[i], width_of(c.gates@.take(i)) as int, v)
}

proof fn lemma_unsatisfied(c: GateCircuit, k: int, v: Seq<int>)
    requires
        0 <= k < c.gates@.len(),
        !gate_ok(c, k, v),
    ensures
        !c.holds(v),
{
    reveal(GateCircuit::holds);
    reveal(gate_ok);
}

proof fn lemma_satisfied(c: GateCircuit, v: Seq<int>)
    requires
        forall|i: int| 0 <= i < c.gates@.len() ==> #[trigger] gate_ok(c, i, v),
    ensures
        c.holds(v),
{
    reveal(GateCircuit::holds);
    assert forall|i: int| 0 <= i < c.gates@.len() implies gate_holds(
        #[trigger] c.gates@[i],
        width_of(c.gates@.take(i)) as int,
        v,
    ) by {
        assert(gate_ok(c, i, v));
        reveal(gate_ok);
    }
}

/// Where a gate's wires start and end among all wires.
proof fn lemma_gate_place(c: GateCircuit, k: int)
    requires
        c.wf(),
        0 <= k < c.gates@.len(),
    ensures
        gate_in(c.gates@[k], width_of(c.gates@.take(k))),
        width_of(c.gates@.take(k + 1)) == width_of(c.gates@.take(k)) + gate_width(c.gates@[k]),
        width_of(c.gates@.take(k + 1)) <= c.n_wires,
{
    reveal(GateCircuit::wf);
    let gates = c.gates@;
    assert(gates.take(k + 1).drop_last() =~= gates.take(k));
    assert(gates.take(k + 1).last() == gates[k]);
    lemma_widths_grow(gates, k, gates.len() as int);
    assert(gates.take(gates.len() as int) =~= gates);
}

/// Whether the values satisfy gate `k`, whose wires start at `out`.
fn satisfies_gate(c: &GateCircuit, k: usize, out: usize, v: &Vec<u64>) -> (ok: bool)
    requires
        c.wf(),
        k < c.gates@.len(),
        out == width_of(c.gates@.take(k as int)),
        v@.len() == c.n_wires,
        forall|i: int| 0 <= i < v@.len() ==> #[trigger] v@[i] < ORDER,
    ensures
        ok == gate_ok(*c, k as int, ints(v@)),
{
    proof {
        lemma_gate_place(*c, k as int);
        reveal(gate_ok);
    }
    gate_satisfied(&c.gates[k], out, v)
}

/// Whether the values satisfy every gate.
pub fn satisfied(c: &GateCircuit, v: &Vec<u64>) -> (ok: bool)
    requires
        c.wf(),
        v@.len() == c.n_wires,
        forall|i: int| 0 <= i < v@.len() ==> #[trigger] v@[i] < ORDER,
    ensures
        ok == c.holds(ints(v@)),
{
    let mut out: usize = 0;
    assert(c.gates@.take(0) =~= Seq::empty());
    for k in 0..c.gates.len()
        invariant
            c.wf(),
            v@.len() == c.n_wires,
            forall|i: int| 0 <= i < v@.len() ==> #[trigger] v@[i] < ORDER,
            out == width_of(c.gates@.take(k as int)),
            forall|i: int| 0 <= i < k ==> #[trigger] gate_ok(*c, i, ints(v@)),
    {
        if !satisfies_gate(c, k, out, v) {
            proof {
                lemma_unsatisfied(*c, k as int, ints(v@));
            }
            return false;
        }
        proof {
            lemma_gate_place(*c, k as int);
        }
        out = out + gate_size(&c.gates[k]);
    }
    proof {
        lemma_satisfied(*c, ints(v@));
    }
    true
}

} // verus!
