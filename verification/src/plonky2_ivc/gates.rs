//! Circuits over the Goldilocks field as plain data: the gates, in the order in
//! which a circuit builder is to add them.

use crate::bits::{bit_nat, digit};
use vstd::arithmetic::power2::pow2;
use vstd::prelude::*;

verus! {

/// Order of the field: `2^64 - 2^32 + 1`.
pub const ORDER: u64 = 0xFFFF_FFFF_0000_0001;

/// A gate. Its output takes the next wire, or the next wires.
#[derive(Debug)]
pub enum Gate {
    /// An unconstrained wire.
    Free,
    /// A wire constrained to zero or one.
    Bool,
    /// A constant.
    Constant { value: u64 },
    /// `x + y`.
    Add { x: usize, y: usize },
    /// `c0 * x * y + c1 * z`.
    Arithmetic { c0: u64, c1: u64, x: usize, y: usize, z: usize },
    /// `x` where `by` is one, `y` where it is zero.
    Select { by: usize, x: usize, y: usize },
    /// The sum of the terms.
    AddMany { terms: Vec<usize> },
    /// The number that the bits write, least significant first.
    LeSum { bits: Vec<usize> },
    /// The `n` bits of `x`, least significant first.
    SplitLe { x: usize, n: usize },
    /// Constrains two wires to be equal; no output.
    Connect { x: usize, y: usize },
}

/// Values for the wires.
pub open spec fn wire_sum(v: Seq<int>, terms: Seq<usize>) -> int
    decreases terms.len(),
{
    if terms.len() == 0 {
        0
    } else {
        wire_sum(v, terms.drop_last()) + v[terms.last() as int]
    }
}

/// The number that wires write, taken as bits, least significant first.
pub open spec fn wire_le_sum(v: Seq<int>, bits: Seq<usize>) -> int
    decreases bits.len(),
{
    if bits.len() == 0 {
        0
    } else {
        wire_le_sum(v, bits.drop_last()) + v[bits.last() as int] * pow2((bits.len() - 1) as nat)
    }
}

/// Consecutive wires.
pub open spec fn wire_range(first: int, n: nat) -> Seq<usize> {
    Seq::new(n, |i: int| (first + i) as usize)
}

/// Number of wires that a gate takes.
pub open spec fn gate_width(g: Gate) -> nat {
    match g {
        Gate::SplitLe { n, .. } => n as nat,
        Gate::Connect { .. } => 0,
        _ => 1,
    }
}

/// Output wires of a gate.
pub fn gate_size(g: &Gate) -> (n: usize)
    ensures
        n == gate_width(*g),
{
    match g {
        Gate::SplitLe { n, .. } => *n,
        Gate::Connect { .. } => 0,
        _ => 1,
    }
}

/// What a gate constrains, its output wires starting at `out`.
pub open spec fn gate_holds(g: Gate, out: int, v: Seq<int>) -> bool {
    let p = ORDER as int;
    match g {
        Gate::Free => true,
        Gate::Bool => v[out] == 0 || v[out] == 1,
        Gate::Constant { value } => v[out] == value,
        Gate::Add { x, y } => v[out] == (v[x as int] + v[y as int]) % p,
        Gate::Arithmetic { c0, c1, x, y, z } => v[out] == (c0 * (v[x as int] * v[y as int]) + c1
            * v[z as int]) % p,
        Gate::Select { by, x, y } => v[out] == (v[by as int] * (v[x as int] - v[y as int])
            + v[y as int]) % p,
        Gate::AddMany { terms } => v[out] == wire_sum(v, terms@) % p,
        Gate::LeSum { bits } => v[out] == wire_le_sum(v, bits@) % p,
        Gate::SplitLe { x, n } => {
            &&& forall|i: int| 0 <= i < n ==> #[trigger] v[out + i] == 0 || v[out + i] == 1
            &&& v[x as int] == wire_le_sum(v, wire_range(out, n as nat)) % p
        },
        Gate::Connect { x, y } => v[x as int] == v[y as int],
    }
}

/// What an honest prover fills in for a gate. The free wires are the inputs;
/// connected wires are filled in by whoever drives them.
pub open spec fn gate_followed(g: Gate, out: int, v: Seq<int>) -> bool {
    match g {
        Gate::SplitLe { x, n } => forall|i: int|
            0 <= i < n ==> #[trigger] v[out + i] == bit_nat(
                digit(v[x as int] as nat, i as nat),
            ),
        Gate::Connect { .. } => true,
        Gate::Bool => true,
        _ => gate_holds(g, out, v),
    }
}

/// Wires taken by a row of gates.
pub open spec fn width_of(gates: Seq<Gate>) -> nat
    decreases gates.len(),
{
    if gates.len() == 0 {
        0
    } else {
        width_of(gates.drop_last()) + gate_width(gates.last())
    }
}

/// A gate refers only to wires taken before it.
pub open spec fn gate_in(g: Gate, n: nat) -> bool {
    match g {
        Gate::Free => true,
        Gate::Bool => true,
        Gate::Constant { value } => value < ORDER,
        Gate::Add { x, y } => x < n && y < n,
        Gate::Arithmetic { c0, c1, x, y, z } => c0 < ORDER && c1 < ORDER && x < n && y < n && z < n,
        Gate::Select { by, x, y } => by < n && x < n && y < n,
        Gate::AddMany { terms } => forall|i: int|
            0 <= i < terms@.len() ==> #[trigger] terms@[i] < n,
        Gate::LeSum { bits } => bits@.len() <= 63 && forall|i: int|
            0 <= i < bits@.len() ==> #[trigger] bits@[i] < n,
        Gate::SplitLe { x, n: w } => w <= 63 && x < n,
        Gate::Connect { x, y } => x < n && y < n,
    }
}

/// A circuit: its gates, and the number of wires they take.
pub struct GateCircuit {
    pub n_wires: usize,
    pub gates: Vec<Gate>,
}

impl GateCircuit {
    /// Wires are used only once taken.
    #[verifier::opaque]
    pub open spec fn wf(self) -> bool {
        &&& self.n_wires == width_of(self.gates@)
        &&& forall|k: int|
            0 <= k < self.gates@.len() ==> gate_in(
                #[trigger] self.gates@[k],
                width_of(self.gates@.take(k)),
            )
    }

    /// `v` satisfies every gate.
    #[verifier::opaque]
    pub open spec fn holds(self, v: Seq<int>) -> bool {
        forall|k: int|
            0 <= k < self.gates@.len() ==> gate_holds(
                #[trigger] self.gates@[k],
                width_of(self.gates@.take(k)) as int,
                v,
            )
    }

    /// `v` is filled in as an honest prover does.
    #[verifier::opaque]
    pub open spec fn followed(self, v: Seq<int>) -> bool {
        forall|k: int|
            0 <= k < self.gates@.len() ==> gate_followed(
                #[trigger] self.gates@[k],
                width_of(self.gates@.take(k)) as int,
                v,
            )
    }

    /// `v` has a reduced value for every wire.
    pub open spec fn fits(self, v: Seq<int>) -> bool {
        &&& self.n_wires <= v.len()
        &&& forall|i: int| 0 <= i < v.len() ==> 0 <= #[trigger] v[i] < ORDER
    }

    /// `self` starts with the gates of `before`.
    pub open spec fn grew_from(self, before: GateCircuit) -> bool {
        &&& before.n_wires <= self.n_wires
        &&& forall|v: Seq<int>| #[trigger] self.holds(v) ==> before.holds(v)
        &&& forall|v: Seq<int>| #[trigger] self.followed(v) ==> before.followed(v)
        &&& forall|v: Seq<int>| #[trigger] self.fits(v) ==> before.fits(v)
    }

    /// The circuit without gates.
    pub fn new() -> (c: GateCircuit)
        ensures
            c.wf(),
            c.n_wires == 0,
            forall|v: Seq<int>| #[trigger] c.holds(v),
    {
        proof {
            reveal(GateCircuit::wf);
            reveal(GateCircuit::holds);
        }
        GateCircuit { n_wires: 0, gates: Vec::new() }
    }

    /// Adds a gate and returns its first output wire.
    pub fn push(&mut self, gate: Gate) -> (out: usize)
        requires
            old(self).wf(),
            gate_in(gate, old(self).n_wires as nat),
            old(self).n_wires + gate_width(gate) <= usize::MAX,
        ensures
            final(self).wf(),
            final(self).grew_from(*old(self)),
            out == old(self).n_wires,
            final(self).n_wires == old(self).n_wires + gate_width(gate),
            final(self).gates@ == old(self).gates@.push(gate),
            forall|v: Seq<int>| #[trigger]
                final(self).holds(v) == (old(self).holds(v) && gate_holds(gate, out as int, v)),
            forall|v: Seq<int>| #[trigger]
                final(self).followed(v) == (old(self).followed(v) && gate_followed(
                    gate,
                    out as int,
                    v,
                )),
    {
        let ghost before = *self;
        let out = self.n_wires;
        self.n_wires = out + gate_size(&gate);
        self.gates.push(gate);
        proof {
            reveal(GateCircuit::wf);
            reveal(GateCircuit::holds);
            reveal(GateCircuit::followed);
            let n = before.gates@.len() as int;
            assert(self.gates@.drop_last() =~= before.gates@);
            assert(self.gates@.take(n) =~= before.gates@);
            assert forall|k: int| 0 <= k < n implies #[trigger] self.gates@[k] == before.gates@[k]
                && self.gates@.take(k) == before.gates@.take(k) by {
                assert(self.gates@.take(k) =~= before.gates@.take(k));
            }
            assert forall|k: int| 0 <= k < self.gates@.len() implies gate_in(
                #[trigger] self.gates@[k],
                width_of(self.gates@.take(k)),
            ) by {
                if k < n {
                    assert(self.gates@[k] == before.gates@[k]);
                }
            }
            assert forall|v: Seq<int>| #[trigger]
                self.holds(v) == (before.holds(v) && gate_holds(gate, out as int, v)) by {
                if self.holds(v) {
                    assert(gate_holds(self.gates@[n], out as int, v));
                    assert forall|k: int| 0 <= k < n implies gate_holds(
                        #[trigger] before.gates@[k],
                        width_of(before.gates@.take(k)) as int,
                        v,
                    ) by {
                        assert(self.gates@[k] == before.gates@[k]);
                    }
                }
            }
            assert forall|v: Seq<int>| #[trigger]
                self.followed(v) == (before.followed(v) && gate_followed(gate, out as int, v)) by {
                if self.followed(v) {
                    assert(gate_followed(self.gates@[n], out as int, v));
                    assert forall|k: int| 0 <= k < n implies gate_followed(
                        #[trigger] before.gates@[k],
                        width_of(before.gates@.take(k)) as int,
                        v,
                    ) by {
                        assert(self.gates@[k] == before.gates@[k]);
                    }
                }
            }
        }
        out
    }
}

pub proof fn lemma_gates_trans(a: GateCircuit, b: GateCircuit, c: GateCircuit)
    requires
        b.grew_from(a),
        c.grew_from(b),
    ensures
        c.grew_from(a),
{
}

} // verus!
