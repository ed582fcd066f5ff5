//! The recursive step circuit: hash the state that the inner proof shows, or
//! the initial state in the first step, and count.

use crate::plonky2_ivc::gates::{gate_holds, lemma_gates_trans, Gate, GateCircuit, ORDER};
use crate::plonky2_ivc::rows::row_in;
use crate::plonky2_ivc::sha256::{message_at, sha256_32bytes, words_in};
use crate::plonky2_ivc::words::sha256_words;
use vstd::arithmetic::div_mod::lemma_small_mod;
use vstd::prelude::*;

verus! {

/// The public inputs of a step: the initial state, the current state and the
/// counter.
pub const STATE_AT: usize = 8;

pub const COUNTER_AT: usize = 16;

pub const N_SHOWN: usize = 17;

/// Wires of the part of a step that continues an inner proof.
pub struct Recursion {
    /// Whether an inner proof is continued.
    pub condition: usize,
    /// The inner proof's initial state, state and counter.
    pub inner: Vec<usize>,
}

/// Wires and gates of a step.
pub struct StepCircuit {
    pub circuit: GateCircuit,
    pub initial_state: [usize; 8],
    pub step_input: [usize; 8],
    pub step_output: [usize; 8],
    pub counter: usize,
    pub recursion: Option<Recursion>,
}

/// Eight field elements from position `at` on, as words.
pub open spec fn words_from(pis: Seq<int>, at: int) -> Seq<u32> {
    Seq::new(8, |j: int| pis[at + j] as u32)
}

/// Eight field elements from position `at` on are words.
pub open spec fn shows_words(pis: Seq<int>, at: int) -> bool {
    forall|j: int| 0 <= j < 8 ==> 0 <= #[trigger] pis[at + j] < 0x1_0000_0000
}

/// The public inputs `pis` of a step follow from the inner proof's `inner`, or
/// from the initial state alone where nothing is continued.
pub open spec fn step_follows(pis: Seq<int>, inner: Seq<int>, recursing: bool) -> bool {
    let input = if recursing {
        words_from(inner, 8)
    } else {
        words_from(pis, 0)
    };
    &&& forall|j: int| 0 <= j < 8 ==> #[trigger] pis[j] == inner[j]
    &&& if recursing {
        shows_words(inner, 8)
    } else {
        shows_words(pis, 0)
    }
    &&& forall|j: int| 0 <= j < 8 ==> #[trigger] pis[8 + j] == sha256_words(input)[j]
    &&& pis[16] == (if recursing {
        (inner[16] + 1) % (ORDER as int)
    } else {
        1
    })
}

impl StepCircuit {
    /// The values of the public inputs.
    pub open spec fn shown(self, v: Seq<int>) -> Seq<int> {
        Seq::new(
            17,
            |i: int|
                if i < 8 {
                    v[self.initial_state@[i] as int]
                } else if i < 16 {
                    v[self.step_output@[i - 8] as int]
                } else {
                    v[self.counter as int]
                },
        )
    }
}

impl Recursion {
    /// The values of the inner proof's public inputs.
    pub open spec fn inner_shown(self, v: Seq<int>) -> Seq<int> {
        Seq::new(17, |i: int| v[self.inner@[i] as int])
    }
}

/// Eight free wires.
fn free_wires(c: &mut GateCircuit) -> (wires: [usize; 8])
    requires
        old(c).wf(),
        old(c).n_wires + 8 <= usize::MAX,
    ensures
        final(c).wf(),
        final(c).grew_from(*old(c)),
        final(c).n_wires == old(c).n_wires + 8,
        row_in(wires@, final(c).n_wires as nat),
        forall|j: int| 0 <= j < 8 ==> #[trigger] wires@[j] == old(c).n_wires + j,
        forall|v: Seq<int>| #[trigger] old(c).holds(v) ==> final(c).holds(v),
{
    let ghost before = *c;
    let mut wires: [usize; 8] = [0usize; 8];
    for j in 0..8usize
        invariant
            c.wf(),
            c.grew_from(before),
            before.n_wires + 8 <= usize::MAX,
            c.n_wires == before.n_wires + j,
            forall|i: int| 0 <= i < j ==> #[trigger] wires@[i] == before.n_wires + i,
            forall|v: Seq<int>| #[trigger] before.holds(v) ==> c.holds(v),
    {
        let ghost middle = *c;
        let wire = c.push(Gate::Free);
        wires[j] = wire;
        proof {
            lemma_gates_trans(before, middle, *c);
            assert forall|v: Seq<int>| #[trigger] before.holds(v) implies c.holds(v) by {
                assert(middle.holds(v));
            }
        }
    }
    wires
}

/// Connects eight wires to eight others.
fn connect_words(c: &mut GateCircuit, a: &[usize; 8], b: &[usize; 8])
    requires
        old(c).wf(),
        row_in(a@, old(c).n_wires as nat),
        row_in(b@, old(c).n_wires as nat),
    ensures
        final(c).wf(),
        final(c).grew_from(*old(c)),
        final(c).n_wires == old(c).n_wires,
        forall|v: Seq<int>| #[trigger]
            final(c).holds(v) == (old(c).holds(v) && forall|j: int|
                0 <= j < 8 ==> v[#[trigger] a@[j] as int] == v[b@[j] as int]),
{
    let ghost before = *c;
    for j in 0..8usize
        invariant
            c.wf(),
            c.grew_from(before),
            c.n_wires == before.n_wires,
            row_in(a@, before.n_wires as nat),
            row_in(b@, before.n_wires as nat),
            forall|v: Seq<int>| #[trigger]
                c.holds(v) == (before.holds(v) && forall|i: int|
                    0 <= i < j ==> v[#[trigger] a@[i] as int] == v[b@[i] as int]),
    {
        let ghost middle = *c;
        assert(a@[j as int] < before.n_wires);
        assert(b@[j as int] < before.n_wires);
        c.push(Gate::Connect { x: a[j], y: b[j] });
        proof {
            lemma_gates_trans(before, middle, *c);
            assert forall|v: Seq<int>| #[trigger]
                c.holds(v) == (before.holds(v) && forall|i: int|
                    0 <= i < j + 1 ==> v[#[trigger] a@[i] as int] == v[b@[i] as int]) by {
                if c.holds(v) {
                    assert(middle.holds(v));
                    assert(v[a@[j as int] as int] == v[b@[j as int] as int]);
                }
                if before.holds(v) && forall|i: int|
                    0 <= i < j + 1 ==> v[#[trigger] a@[i] as int] == v[b@[i] as int] {
                    assert(middle.holds(v));
                    assert(v[a@[j as int] as int] == v[b@[j as int] as int]);
                }
            }
        }
    }
}

/// The wires of a step that both kinds have: the states, the hash of the input
/// and the counter.
fn step_core(c: &mut GateCircuit) -> (wires: ([usize; 8], [usize; 8], [usize; 8], usize))
    requires
        old(c).wf(),
        old(c).n_wires == 0,
        forall|v: Seq<int>| #[trigger] old(c).holds(v),
    ensures
        final(c).wf(),
        final(c).n_wires <= 44897,
        row_in(wires.0@, final(c).n_wires as nat),
        row_in(wires.1@, final(c).n_wires as nat),
        row_in(wires.2@, final(c).n_wires as nat),
        wires.3 < final(c).n_wires,
        forall|v: Seq<int>| #[trigger]
            final(c).holds(v) && final(c).fits(v) ==> words_in(wires.1@, v) && forall|j: int|
                0 <= j < 8 ==> v[#[trigger] wires.2@[j] as int] == sha256_words(
                    message_at(wires.1@, v),
                )[j],
        forall|v: Seq<int>| #[trigger]
            final(c).followed(v) && final(c).fits(v) && words_in(wires.1@, v) ==> final(c).holds(v),
{
    let ghost c0 = *c;
    let initial_state = free_wires(c);
    let ghost c1 = *c;
    let step_input = free_wires(c);
    let ghost c2 = *c;
    let step_output = sha256_32bytes(c, &step_input);
    let ghost c3 = *c;
    let counter = c.push(Gate::Free);
    proof {
        assert forall|v: Seq<int>| #[trigger] c.holds(v) && c.fits(v) implies words_in(
            step_input@,
            v,
        ) && forall|j: int|
            0 <= j < 8 ==> v[#[trigger] step_output@[j] as int] == sha256_words(
                message_at(step_input@, v),
            )[j] by {
            assert(c3.holds(v) && c3.fits(v));
        }
        assert forall|v: Seq<int>| #[trigger]
            c.followed(v) && c.fits(v) && words_in(step_input@, v) implies c.holds(v) by {
            assert(c3.followed(v) && c3.fits(v));
            assert(c0.holds(v));
            assert(c1.holds(v));
            assert(c2.holds(v));
            assert(c3.holds(v));
        }
    }
    (initial_state, step_input, step_output, counter)
}

/// The wires that are to agree in the step without recursion do.
pub open spec fn seed_connected(step: StepCircuit, v: Seq<int>) -> bool {
    &&& forall|j: int|
        0 <= j < 8 ==> v[#[trigger] step.step_input@[j] as int]
            == v[step.initial_state@[j] as int]
    &&& v[step.counter as int] == 1
}

/// The wires that are to agree in the step with recursion do.
pub open spec fn step_connected(step: StepCircuit, r: Recursion, v: Seq<int>) -> bool {
    let recursing = v[r.condition as int] == 1;
    &&& recursing || v[r.condition as int] == 0
    &&& forall|j: int|
        0 <= j < 8 ==> v[#[trigger] step.initial_state@[j] as int] == v[r.inner@[j] as int]
    &&& forall|j: int|
        0 <= j < 8 ==> v[#[trigger] step.step_input@[j] as int] == (if recursing {
            v[r.inner@[8 + j] as int]
        } else {
            v[step.initial_state@[j] as int]
        })
    &&& v[step.counter as int] == (if recursing {
        (v[r.inner@[16] as int] + 1) % (ORDER as int)
    } else {
        1
    })
}

/// The step without recursion: it hashes the initial state and counts one.
fn build_seed_circuit() -> (step: StepCircuit)
    ensures
        step.circuit.wf(),
        step.recursion is None,
        forall|v: Seq<int>| #[trigger]
            step.circuit.holds(v) && step.circuit.fits(v) ==> {
                let pis = step.shown(v);
                step_follows(pis, pis, false)
            },
        forall|v: Seq<int>| #[trigger]
            step.circuit.followed(v) && step.circuit.fits(v) && words_in(step.step_input@, v)
                && seed_connected(step, v) ==> step.circuit.holds(v),
{
    let mut c = GateCircuit::new();
    let (initial_state, step_input, step_output, counter) = step_core(&mut c);
    let ghost c4 = c;
    connect_words(&mut c, &step_input, &initial_state);
    let ghost c5 = c;
    let one = c.push(Gate::Constant { value: 1 });
    let ghost c6 = c;
    c.push(Gate::Connect { x: counter, y: one });
    let step = StepCircuit {
        circuit: c,
        initial_state,
        step_input,
        step_output,
        counter,
        recursion: None,
    };
    proof {
        assert forall|v: Seq<int>| #[trigger]
            step.circuit.holds(v) && step.circuit.fits(v) implies {
            let pis = step.shown(v);
            step_follows(pis, pis, false)
        } by {
            assert(c6.holds(v) && c6.fits(v));
            assert(c5.holds(v) && c5.fits(v));
            assert(c4.holds(v) && c4.fits(v));
            let pis = step.shown(v);
            assert forall|j: int| 0 <= j < 8 implies 0 <= #[trigger] pis[0 + j] < 0x1_0000_0000
                && v[step_input@[j] as int] == pis[j] by {
                assert(v[step_input@[j] as int] == v[initial_state@[j] as int]);
                assert(0 <= v[step_input@[j] as int] < 0x1_0000_0000);
            }
            assert(message_at(step_input@, v) =~= words_from(pis, 0));
            assert forall|j: int| 0 <= j < 8 implies #[trigger] pis[8 + j] == sha256_words(
                words_from(pis, 0),
            )[j] by {
                assert(v[step_output@[j] as int] == sha256_words(message_at(step_input@, v))[j]);
            }
        }
        assert forall|v: Seq<int>| #[trigger]
            step.circuit.followed(v) && step.circuit.fits(v) && words_in(step.step_input@, v)
                && seed_connected(step, v) implies step.circuit.holds(v) by {
            assert(c6.followed(v) && c6.fits(v));
            assert(c5.followed(v) && c5.fits(v));
            assert(c4.followed(v) && c4.fits(v));
            assert(c4.holds(v));
            assert(c5.holds(v));
            assert(c6.holds(v));
        }
    }
    step
}

/// `x` where `by` is one, `y` where it is zero.
proof fn lemma_select(by: usize, x: usize, y: usize, out: int, v: Seq<int>)
    requires
        v[by as int] == 0 || v[by as int] == 1,
        0 <= v[x as int] < ORDER,
        0 <= v[y as int] < ORDER,
        gate_holds(Gate::Select { by, x, y }, out, v),
    ensures
        v[out] == (if v[by as int] == 1 {
            v[x as int]
        } else {
            v[y as int]
        }),
{
    let (b, d) = (v[by as int], v[x as int] - v[y as int]);
    assert(b * d == (if b == 1 {
        d
    } else {
        0int
    })) by (nonlinear_arith)
        requires
            b == 0 || b == 1,
    ;
    lemma_small_mod(v[x as int] as nat, ORDER as nat);
    lemma_small_mod(v[y as int] as nat, ORDER as nat);
}

/// Connects each input word to the inner state where a proof is continued, and
/// to the initial state elsewhere.
fn select_input(
    c: &mut GateCircuit,
    condition: usize,
    inner: &Vec<usize>,
    initial: &[usize; 8],
    input: &[usize; 8],
)
    requires
        old(c).wf(),
        old(c).n_wires + 8 <= usize::MAX,
        condition < old(c).n_wires,
        inner@.len() == 17,
        row_in(inner@, old(c).n_wires as nat),
        row_in(initial@, old(c).n_wires as nat),
        row_in(input@, old(c).n_wires as nat),
        forall|v: Seq<int>| #[trigger]
            old(c).holds(v) ==> v[condition as int] == 0 || v[condition as int] == 1,
    ensures
        final(c).wf(),
        final(c).grew_from(*old(c)),
        final(c).n_wires == old(c).n_wires + 8,
        forall|v: Seq<int>, j: int|
            0 <= j < 8 && #[trigger] final(c).holds(v) && final(c).fits(v)
                ==> v[#[trigger] input@[j] as int] == (if v[condition as int] == 1 {
                v[inner@[8 + j] as int]
            } else {
                v[initial@[j] as int]
            }),
        forall|v: Seq<int>| #[trigger]
            final(c).followed(v) && old(c).holds(v) && final(c).fits(v) && (forall|j: int|
                0 <= j < 8 ==> v[#[trigger] input@[j] as int] == (if v[condition as int] == 1 {
                    v[inner@[8 + j] as int]
                } else {
                    v[initial@[j] as int]
                })) ==> final(c).holds(v),
{
    let ghost before = *c;
    for j in 0..8usize
        invariant
            c.wf(),
            c.grew_from(before),
            before.n_wires + 8 <= usize::MAX,
            c.n_wires == before.n_wires + j,
            condition < before.n_wires,
            inner@.len() == 17,
            row_in(inner@, before.n_wires as nat),
            row_in(initial@, before.n_wires as nat),
            row_in(input@, before.n_wires as nat),
            forall|v: Seq<int>| #[trigger]
                before.holds(v) ==> v[condition as int] == 0 || v[condition as int] == 1,
            forall|v: Seq<int>, i: int|
                0 <= i < j && #[trigger] c.holds(v) && c.fits(v) ==> v[#[trigger] input@[i] as int]
                    == (if v[condition as int] == 1 {
                    v[inner@[8 + i] as int]
                } else {
                    v[initial@[i] as int]
                }),
            forall|v: Seq<int>| #[trigger]
                c.followed(v) && before.holds(v) && c.fits(v) && (forall|i: int|
                    0 <= i < 8 ==> v[#[trigger] input@[i] as int] == (if v[condition as int] == 1 {
                        v[inner@[8 + i] as int]
                    } else {
                        v[initial@[i] as int]
                    })) ==> c.holds(v),
    {
        let ghost middle = *c;
        assert(inner@[8 + j] < before.n_wires);
        assert(initial@[j as int] < before.n_wires);
        assert(input@[j as int] < before.n_wires);
        let (x, y) = (inner[8 + j], initial[j]);
        let selected = c.push(Gate::Select { by: condition, x, y });
        let ghost chosen = *c;
        c.push(Gate::Connect { x: input[j], y: selected });
        proof {
            lemma_gates_trans(middle, chosen, *c);
            lemma_gates_trans(before, middle, *c);
            assert forall|v: Seq<int>, i: int|
                0 <= i < j + 1 && #[trigger] c.holds(v) && c.fits(v) implies v[#[trigger] input@[i] as int]
                == (if v[condition as int] == 1 {
                v[inner@[8 + i] as int]
            } else {
                v[initial@[i] as int]
            }) by {
                assert(chosen.holds(v));
                assert(middle.holds(v) && middle.fits(v));
                assert(before.holds(v));
                if i == j {
                    lemma_select(condition, x, y, selected as int, v);
                }
            }
            assert forall|v: Seq<int>| #[trigger]
                c.followed(v) && before.holds(v) && c.fits(v) && (forall|i: int|
                    0 <= i < 8 ==> v[#[trigger] input@[i] as int] == (if v[condition as int] == 1 {
                        v[inner@[8 + i] as int]
                    } else {
                        v[initial@[i] as int]
                    })) implies c.holds(v) by {
                assert(chosen.followed(v));
                assert(middle.followed(v) && middle.fits(v));
                assert(middle.holds(v));
                assert(chosen.holds(v));
                lemma_select(condition, x, y, selected as int, v);
                assert(v[input@[j as int] as int] == v[selected as int]);
            }
        }
    }
}

/// Connects the initial state to the inner proof's.
fn connect_initial(c: &mut GateCircuit, initial: &[usize; 8], inner: &Vec<usize>)
    requires
        old(c).wf(),
        inner@.len() == 17,
        row_in(initial@, old(c).n_wires as nat),
        row_in(inner@, old(c).n_wires as nat),
    ensures
        final(c).wf(),
        final(c).grew_from(*old(c)),
        final(c).n_wires == old(c).n_wires,
        forall|v: Seq<int>| #[trigger]
            final(c).holds(v) == (old(c).holds(v) && forall|j: int|
                0 <= j < 8 ==> v[#[trigger] initial@[j] as int] == v[inner@[j] as int]),
{
    let mut first: [usize; 8] = [0usize; 8];
    for j in 0..8usize
        invariant
            inner@.len() == 17,
            forall|i: int| 0 <= i < j ==> #[trigger] first@[i] == inner@[i],
    {
        first[j] = inner[j];
    }
    assert(row_in(first@, c.n_wires as nat)) by {
        assert forall|i: int| 0 <= i < 8 implies #[trigger] first@[i] < c.n_wires by {
            assert(inner@[i] < c.n_wires);
        }
    }
    let ghost before = *c;
    connect_words(c, initial, &first);
    proof {
        assert forall|v: Seq<int>| #[trigger]
            c.holds(v) == (before.holds(v) && forall|j: int|
                0 <= j < 8 ==> v[#[trigger] initial@[j] as int] == v[inner@[j] as int]) by {
            if c.holds(v) {
                assert forall|j: int| 0 <= j < 8 implies v[#[trigger] initial@[j] as int]
                    == v[inner@[j] as int] by {
                    assert(first@[j] == inner@[j]);
                }
            }
            if before.holds(v) && forall|j: int|
                0 <= j < 8 ==> v[#[trigger] initial@[j] as int] == v[inner@[j] as int] {
                assert forall|j: int| 0 <= j < 8 implies v[#[trigger] initial@[j] as int]
                    == v[first@[j] as int] by {
                    assert(first@[j] == inner@[j]);
                }
            }
        }
    }
}

/// The step circuit. Without recursion it hashes the initial state; with
/// recursion it continues the inner proof whose public inputs its wires hold,
/// or starts from the initial state, as its condition says. The verification
/// of the inner proof itself is the backend's.
pub fn build_step_circuit(recursive: bool) -> (step: StepCircuit)
    ensures
        step.circuit.wf(),
        step.recursion is Some <==> recursive,
        step.recursion is None ==> {
            &&& forall|v: Seq<int>| #[trigger]
                step.circuit.holds(v) && step.circuit.fits(v) ==> step_follows(
                    step.shown(v),
                    step.shown(v),
                    false,
                )
            &&& forall|v: Seq<int>| #[trigger]
                step.circuit.followed(v) && step.circuit.fits(v) && words_in(step.step_input@, v)
                    && seed_connected(step, v) ==> step.circuit.holds(v)
        },
        step.recursion matches Some(r) ==> {
            &&& r.inner@.len() == 17
            &&& forall|v: Seq<int>| #[trigger]
                step.circuit.holds(v) && step.circuit.fits(v) ==> step_follows(
                    step.shown(v),
                    r.inner_shown(v),
                    v[r.condition as int] == 1,
                )
            &&& forall|v: Seq<int>| #[trigger]
                step.circuit.followed(v) && step.circuit.fits(v) && words_in(step.step_input@, v)
                    && step_connected(step, r, v) ==> step.circuit.holds(v)
        },
{
    if !recursive {
        return build_seed_circuit();
    }
    let mut c = GateCircuit::new();
    let (initial_state, step_input, step_output, counter) = step_core(&mut c);
    let ghost c1 = c;
    let condition = c.push(Gate::Bool);
    let ghost c2 = c;
    let mut inner: Vec<usize> = Vec::with_capacity(17);
    for i in 0..17usize
        invariant
            c.wf(),
            c.grew_from(c2),
            c2.n_wires <= 44898,
            c.n_wires == c2.n_wires + i,
            inner@.len() == i,
            forall|k: int| 0 <= k < i ==> #[trigger] inner@[k] == c2.n_wires + k,
            forall|v: Seq<int>| #[trigger] c2.holds(v) ==> c.holds(v),
    {
        let ghost middle = c;
        let wire = c.push(Gate::Free);
        inner.push(wire);
        proof {
            lemma_gates_trans(c2, middle, c);
            assert forall|v: Seq<int>| #[trigger] c2.holds(v) implies c.holds(v) by {
                assert(middle.holds(v));
            }
        }
    }
    let ghost c3 = c;
    assert(row_in(initial_state@, c3.n_wires as nat));
    assert(row_in(step_input@, c3.n_wires as nat));
    assert(row_in(inner@, c3.n_wires as nat));
    connect_initial(&mut c, &initial_state, &inner);
    let ghost c4 = c;
    proof {
        assert forall|v: Seq<int>| #[trigger] c4.holds(v) implies v[condition as int] == 0
            || v[condition as int] == 1 by {
            assert(c3.holds(v));
            assert(c2.holds(v));
        }
    }
    select_input(&mut c, condition, &inner, &initial_state, &step_input);
    let ghost c5 = c;
    let one = c.push(Gate::Constant { value: 1 });
    let ghost c6 = c;
    let inner_counter = inner[16];
    let new_counter = c.push(
        Gate::Arithmetic { c0: 1, c1: 1, x: condition, y: inner_counter, z: one },
    );
    let ghost c7 = c;
    c.push(Gate::Connect { x: counter, y: new_counter });
    let recursion = Recursion { condition, inner };
    let step = StepCircuit {
        circuit: c,
        initial_state,
        step_input,
        step_output,
        counter,
        recursion: Some(recursion),
    };
    proof {
        assert forall|v: Seq<int>| #[trigger]
            c7.holds(v) && c7.fits(v) implies v[new_counter as int] == (if v[condition as int]
            == 1 {
            (v[inner_counter as int] + 1) % (ORDER as int)
        } else {
            1
        }) by {
            assert(c6.holds(v) && c5.holds(v) && c4.holds(v));
            let (b, x) = (v[condition as int], v[inner_counter as int]);
            assert(b * x == (if b == 1 {
                x
            } else {
                0int
            })) by (nonlinear_arith)
                requires
                    b == 0 || b == 1,
            ;
            assert(1 * (b * x) == b * x);
            assert(1 * v[one as int] == v[one as int]);
            lemma_small_mod(1, ORDER as nat);
        }
        assert forall|v: Seq<int>| #[trigger]
            step.circuit.holds(v) && step.circuit.fits(v) implies step_follows(
            step.shown(v),
            recursion.inner_shown(v),
            v[condition as int] == 1,
        ) by {
            assert(c7.holds(v) && c7.fits(v));
            assert(c6.holds(v) && c6.fits(v));
            assert(c5.holds(v) && c5.fits(v));
            assert(c4.holds(v) && c4.fits(v));
            assert(c3.holds(v) && c3.fits(v));
            assert(c2.holds(v) && c2.fits(v));
            assert(c1.holds(v) && c1.fits(v));
            let pis = step.shown(v);
            let shown = recursion.inner_shown(v);
            let recursing = v[condition as int] == 1;
            assert forall|j: int| 0 <= j < 8 implies #[trigger] pis[j] == shown[j] by {
                assert(v[initial_state@[j] as int] == v[inner@[j] as int]);
            }
            assert forall|j: int| 0 <= j < 8 implies v[#[trigger] step_input@[j] as int] == (
            if recursing {
                shown[8 + j]
            } else {
                pis[0 + j]
            }) && 0 <= v[step_input@[j] as int] < 0x1_0000_0000 by {
                assert(shown[8 + j] == v[inner@[8 + j] as int]);
            }
            let input = if recursing {
                words_from(shown, 8)
            } else {
                words_from(pis, 0)
            };
            assert(message_at(step_input@, v) =~= input) by {
                assert forall|j: int| 0 <= j < 8 implies message_at(step_input@, v)[j]
                    == input[j] by {
                    assert(v[step_input@[j] as int] == (if recursing {
                        shown[8 + j]
                    } else {
                        pis[0 + j]
                    }));
                }
            }
            if recursing {
                assert forall|j: int| 0 <= j < 8 implies 0 <= #[trigger] shown[8 + j]
                    < 0x1_0000_0000 by {
                    assert(v[step_input@[j] as int] == shown[8 + j]);
                }
            } else {
                assert forall|j: int| 0 <= j < 8 implies 0 <= #[trigger] pis[0 + j]
                    < 0x1_0000_0000 by {
                    assert(v[step_input@[j] as int] == pis[0 + j]);
                }
            }
            assert forall|j: int| 0 <= j < 8 implies #[trigger] pis[8 + j] == sha256_words(
                input,
            )[j] by {
                assert(v[step_output@[j] as int] == sha256_words(message_at(step_input@, v))[j]);
            }
        }
        assert forall|v: Seq<int>| #[trigger]
            step.circuit.followed(v) && step.circuit.fits(v) && words_in(step.step_input@, v)
                && step_connected(step, recursion, v) implies step.circuit.holds(v) by {
            assert(c7.followed(v) && c7.fits(v));
            assert(c6.followed(v) && c6.fits(v));
            assert(c5.followed(v) && c5.fits(v));
            assert(c4.followed(v) && c4.fits(v));
            assert(c3.followed(v) && c3.fits(v));
            assert(c2.followed(v) && c2.fits(v));
            assert(c1.followed(v) && c1.fits(v));
            assert(c1.holds(v));
            assert(c2.holds(v));
            assert(c3.holds(v));
            assert(c4.holds(v));
            assert(c5.holds(v));
            assert(c6.holds(v));
            assert(c7.holds(v));
        }
    }
    step
}

/// `n` times SHA-256 on words.
pub open spec fn words_chain(m: Seq<u32>, n: nat) -> Seq<u32>
    decreases n,
{
    if n == 0 {
        m
    } else {
        sha256_words(words_chain(m, (n - 1) as nat))
    }
}

/// A chain of steps, of which the first starts from the initial state and each
/// further one continues the one before, keeps the initial state, counts the
/// steps and ends in the SHA-256 chain of the initial state.
pub proof fn lemma_steps_count_and_hash(pis: Seq<Seq<int>>, n: nat)
    requires
        1 <= n < pis.len(),
        n < ORDER,
        forall|i: int|
            1 <= i < pis.len() ==> step_follows(#[trigger] pis[i], pis[i - 1], i > 1),
    ensures
        forall|j: int| 0 <= j < 8 ==> #[trigger] pis[n as int][j] == pis[0][j],
        pis[n as int][16] == n,
        shows_words(pis[n as int], 8),
        words_from(pis[n as int], 8) == words_chain(words_from(pis[0], 0), n),
    decreases n,
{
    let now = pis[n as int];
    let start = words_from(pis[0], 0);
    assert(step_follows(pis[n as int], pis[n - 1], n > 1));
    let input = if n > 1 {
        words_from(pis[n - 1], 8)
    } else {
        words_from(now, 0)
    };
    if n > 1 {
        lemma_steps_count_and_hash(pis, (n - 1) as nat);
        lemma_small_mod(n, ORDER as nat);
    } else {
        assert(words_from(now, 0) =~= start);
        assert(words_chain(start, 0) == start);
    }
    assert forall|j: int| 0 <= j < 8 implies #[trigger] now[j] == pis[0][j] by {
        assert(pis[n - 1][j] == pis[0][j]);
    }
    assert forall|j: int| 0 <= j < 8 implies 0 <= #[trigger] now[8 + j] < 0x1_0000_0000 by {
        assert(now[8 + j] == sha256_words(input)[j]);
    }
    assert(words_from(now, 8) =~= sha256_words(input)) by {
        assert forall|j: int| 0 <= j < 8 implies words_from(now, 8)[j] == sha256_words(input)[j] by {
            assert(now[8 + j] == sha256_words(input)[j]);
        }
    }
}

} // verus!
