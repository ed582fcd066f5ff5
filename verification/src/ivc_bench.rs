//! The comparative benchmark: its options, and which backends run for how many
//! steps.

use crate::args::{counts_in, parse_list};
use crate::nova_spartan_ivc::NovaCurve;
use crate::text::same_text;
use vstd::prelude::*;

verus! {

#[derive(Clone, Copy, Debug, PartialEq, Eq, Structural)]
pub enum Backend {
    Plonky2,
    Sonobe,
    NovaSpartan,
}

#[derive(Clone, Debug)]
pub struct BenchOptions {
    /// Chain lengths.
    pub steps: Vec<usize>,
    /// Whether to make the final proofs.
    pub run_decider: bool,
    /// The only backend to run; all of them if there is none.
    pub only: Option<Backend>,
    /// Curve cycle for Nova.
    pub nova_curve: NovaCurve,
    /// The input of the first step.
    pub input: [u8; 32],
}

/// ASCII `TransLog IVC benchmark seed 0001`.
pub const SEED: [u8; 32] = [
    84, 114, 97, 110, 115, 76, 111, 103, 32, 73, 86, 67, 32, 98, 101, 110, 99, 104, 109, 97, 114,
    107, 32, 115, 101, 101, 100, 32, 48, 48, 48, 49,
];

/// Options, with the list of steps as a sequence.
pub struct OptionsView {
    pub steps: Seq<usize>,
    pub run_decider: bool,
    pub only: Option<Backend>,
    pub nova_curve: NovaCurve,
    pub input: Seq<u8>,
}

impl View for BenchOptions {
    type V = OptionsView;

    open spec fn view(&self) -> OptionsView {
        OptionsView {
            steps: self.steps@,
            run_decider: self.run_decider,
            only: self.only,
            nova_curve: self.nova_curve,
            input: self.input@,
        }
    }
}

/// The options where the command line says nothing.
pub open spec fn default_options() -> OptionsView {
    OptionsView {
        steps: seq![10],
        run_decider: true,
        only: None,
        nova_curve: NovaCurve::Bn254,
        input: SEED@,
    }
}

impl Default for BenchOptions {
    fn default() -> (opts: Self)
        ensures
            opts@ == default_options(),
    {
        let mut steps: Vec<usize> = Vec::new();
        steps.push(10);
        assert(steps@ =~= seq![10usize]);
        BenchOptions {
            steps,
            run_decider: true,
            only: None,
            nova_curve: NovaCurve::Bn254,
            input: SEED,
        }
    }
}

/// What is wrong with the arguments. `at` is the number of the argument.
#[derive(Clone, Copy, Debug, PartialEq, Eq, Structural)]
pub enum ArgError {
    StepsMissing,
    StepsInvalid { at: usize },
    OnlyMissing,
    BackendUnknown { at: usize },
    CurveMissing,
    CurveUnknown { at: usize },
}

/// What the arguments ask for.
pub enum Parsed {
    Run(BenchOptions),
    /// The usage.
    Help,
    Refused(ArgError),
}

/// What the arguments ask for.
pub enum ParsedView {
    Run(OptionsView),
    Help,
    Refused(ArgError),
}

impl View for Parsed {
    type V = ParsedView;

    open spec fn view(&self) -> ParsedView {
        match self {
            Parsed::Run(opts) => ParsedView::Run(opts@),
            Parsed::Help => ParsedView::Help,
            Parsed::Refused(e) => ParsedView::Refused(*e),
        }
    }
}

/// The backend of a name.
pub open spec fn backend_of(name: Seq<char>) -> Option<Backend> {
    if name == "plonky2"@ {
        Some(Backend::Plonky2)
    } else if name == "sonobe"@ {
        Some(Backend::Sonobe)
    } else if name == "nova"@ || name == "nova-spartan"@ {
        Some(Backend::NovaSpartan)
    } else {
        None
    }
}

/// The curve cycle of a name.
pub open spec fn curve_of(name: Seq<char>) -> Option<NovaCurve> {
    if name == "pasta"@ {
        Some(NovaCurve::Pasta)
    } else if name == "bn254"@ {
        Some(NovaCurve::Bn254)
    } else {
        None
    }
}

/// The texts of arguments.
pub open spec fn texts(args: Seq<String>) -> Seq<Seq<char>> {
    args.map_values(|a: String| a@)
}

/// What the arguments from number `i` on ask for, where those before ask for
/// `opts`. What comes first decides; unknown arguments are passed over.
pub open spec fn parsed_from(args: Seq<Seq<char>>, i: nat, opts: OptionsView) -> ParsedView
    decreases args.len() - i,
{
    if i >= args.len() {
        ParsedView::Run(opts)
    } else {
        let arg = args[i as int];
        let last = i + 1 >= args.len();
        if arg == "--steps"@ {
            if last {
                ParsedView::Refused(ArgError::StepsMissing)
            } else {
                match counts_in(args[(i + 1) as int]) {
                    Some(steps) => parsed_from(args, i + 2, OptionsView { steps, ..opts }),
                    None => ParsedView::Refused(ArgError::StepsInvalid { at: (i + 1) as usize }),
                }
            }
        } else if arg == "--skip-decider"@ {
            parsed_from(args, i + 1, OptionsView { run_decider: false, ..opts })
        } else if arg == "--only"@ {
            if last {
                ParsedView::Refused(ArgError::OnlyMissing)
            } else {
                match backend_of(args[(i + 1) as int]) {
                    Some(b) => parsed_from(args, i + 2, OptionsView { only: Some(b), ..opts }),
                    None => ParsedView::Refused(ArgError::BackendUnknown { at: (i + 1) as usize }),
                }
            }
        } else if arg == "--nova-curve"@ {
            if last {
                ParsedView::Refused(ArgError::CurveMissing)
            } else {
                match curve_of(args[(i + 1) as int]) {
                    Some(nova_curve) => parsed_from(
                        args,
                        i + 2,
                        OptionsView { nova_curve, ..opts },
                    ),
                    None => ParsedView::Refused(ArgError::CurveUnknown { at: (i + 1) as usize }),
                }
            }
        } else if arg == "--help"@ || arg == "-h"@ {
            ParsedView::Help
        } else {
            parsed_from(args, i + 1, opts)
        }
    }
}

/// The backend of a name.
pub fn parse_backend(name: &str) -> (b: Option<Backend>)
    ensures
        b == backend_of(name@),
{
    if same_text(name, "plonky2") {
        Some(Backend::Plonky2)
    } else if same_text(name, "sonobe") {
        Some(Backend::Sonobe)
    } else if same_text(name, "nova") || same_text(name, "nova-spartan") {
        Some(Backend::NovaSpartan)
    } else {
        None
    }
}

/// The curve cycle of a name.
pub fn parse_curve(name: &str) -> (c: Option<NovaCurve>)
    ensures
        c == curve_of(name@),
{
    if same_text(name, "pasta") {
        Some(NovaCurve::Pasta)
    } else if same_text(name, "bn254") {
        Some(NovaCurve::Bn254)
    } else {
        None
    }
}

/// What a command line asks for.
pub fn parse_args(args: &[String]) -> (parsed: Parsed)
    ensures
        parsed@ == parsed_from(texts(args@), 0, default_options()),
{
    let ghost all = texts(args@);
    let mut opts = BenchOptions::default();
    let mut i: usize = 0;
    let n = args.len();
    while i < n
        invariant
            n == args@.len(),
            i <= n,
            all == texts(args@),
            parsed_from(all, i as nat, opts@) == parsed_from(all, 0, default_options()),
        decreases n - i,
    {
        let arg = args[i].as_str();
        assert(arg@ == all[i as int]);
        let last = n - i == 1;
        if same_text(arg, "--steps") {
            if last {
                return Parsed::Refused(ArgError::StepsMissing);
            }
            assert(args@[i + 1]@ == all[i + 1]);
            match parse_list(args[i + 1].as_str()) {
                Some(steps) => {
                    opts.steps = steps;
                },
                None => {
                    return Parsed::Refused(ArgError::StepsInvalid { at: i + 1 });
                },
            }
            i = i + 2;
        } else if same_text(arg, "--skip-decider") {
            opts.run_decider = false;
            i = i + 1;
        } else if same_text(arg, "--only") {
            if last {
                return Parsed::Refused(ArgError::OnlyMissing);
            }
            assert(args@[i + 1]@ == all[i + 1]);
            match parse_backend(args[i + 1].as_str()) {
                Some(b) => {
                    opts.only = Some(b);
                },
                None => {
                    return Parsed::Refused(ArgError::BackendUnknown { at: i + 1 });
                },
            }
            i = i + 2;
        } else if same_text(arg, "--nova-curve") {
            if last {
                return Parsed::Refused(ArgError::CurveMissing);
            }
            assert(args@[i + 1]@ == all[i + 1]);
            match parse_curve(args[i + 1].as_str()) {
                Some(c) => {
                    opts.nova_curve = c;
                },
                None => {
                    return Parsed::Refused(ArgError::CurveUnknown { at: i + 1 });
                },
            }
            i = i + 2;
        } else if same_text(arg, "--help") || same_text(arg, "-h") {
            return Parsed::Help;
        } else {
            i = i + 1;
        }
    }
    Parsed::Run(opts)
}

/// Whether a backend runs.
pub open spec fn runs(opts: OptionsView, backend: Backend) -> bool {
    opts.only is None || opts.only == Some(backend)
}

/// Whether a backend runs.
pub fn should_run(opts: &BenchOptions, backend: Backend) -> (yes: bool)
    ensures
        yes == runs(opts@, backend),
{
    match opts.only {
        None => true,
        Some(b) => b == backend,
    }
}

/// A backend, if it runs.
pub open spec fn if_runs(opts: OptionsView, backend: Backend) -> Seq<Backend> {
    if runs(opts, backend) {
        seq![backend]
    } else {
        Seq::empty()
    }
}

/// The backends that run, in order.
pub open spec fn backends(opts: OptionsView) -> Seq<Backend> {
    if_runs(opts, Backend::Plonky2) + if_runs(opts, Backend::Sonobe) + if_runs(
        opts,
        Backend::NovaSpartan,
    )
}

/// The runs for one chain length, after which they are compared.
#[derive(Debug)]
pub struct Round {
    pub n_steps: usize,
    pub backends: Vec<Backend>,
    pub run_decider: bool,
    pub nova_curve: NovaCurve,
    pub input: [u8; 32],
}

/// The backends that run, in order.
pub fn chosen_backends(opts: &BenchOptions) -> (out: Vec<Backend>)
    ensures
        out@ == backends(opts@),
{
    let mut out: Vec<Backend> = Vec::with_capacity(3);
    if should_run(opts, Backend::Plonky2) {
        out.push(Backend::Plonky2);
    }
    if should_run(opts, Backend::Sonobe) {
        out.push(Backend::Sonobe);
    }
    if should_run(opts, Backend::NovaSpartan) {
        out.push(Backend::NovaSpartan);
    }
    assert(out@ =~= backends(opts@));
    out
}

/// The rounds of a benchmark: one for each chain length, in order, each with
/// the same backends and options.
pub fn run(opts: &BenchOptions) -> (rounds: Vec<Round>)
    ensures
        rounds@.len() == opts.steps@.len(),
        forall|i: int|
            0 <= i < rounds@.len() ==> {
                let round = #[trigger] rounds@[i];
                &&& round.n_steps == opts.steps@[i]
                &&& round.backends@ == backends(opts@)
                &&& round.run_decider == opts.run_decider
                &&& round.nova_curve == opts.nova_curve
                &&& round.input == opts.input
            },
{
    let mut rounds: Vec<Round> = Vec::with_capacity(opts.steps.len());
    for i in 0..opts.steps.len()
        invariant
            rounds@.len() == i,
            forall|k: int|
                0 <= k < i ==> {
                    let round = #[trigger] rounds@[k];
                    &&& round.n_steps == opts.steps@[k]
                    &&& round.backends@ == backends(opts@)
                    &&& round.run_decider == opts.run_decider
                    &&& round.nova_curve == opts.nova_curve
                    &&& round.input == opts.input
                },
    {
        rounds.push(
            Round {
                n_steps: opts.steps[i],
                backends: chosen_backends(opts),
                run_decider: opts.run_decider,
                nova_curve: opts.nova_curve,
                input: opts.input,
            },
        );
    }
    rounds
}

/// Arguments that are none of the flags change nothing.
pub proof fn lemma_unknown_arguments_are_ignored(args: Seq<Seq<char>>, i: nat, opts: OptionsView)
    requires
        i < args.len(),
        args[i as int] != "--steps"@,
        args[i as int] != "--skip-decider"@,
        args[i as int] != "--only"@,
        args[i as int] != "--nova-curve"@,
        args[i as int] != "--help"@,
        args[i as int] != "-h"@,
    ensures
        parsed_from(args, i, opts) == parsed_from(args, i + 1, opts),
{
}

/// The flags are told apart.
proof fn lemma_flags_differ()
    ensures
        "--skip-decider"@ != "--steps"@,
        "--only"@ != "--steps"@,
        "--only"@ != "--skip-decider"@,
        "--nova-curve"@ != "--steps"@,
        "--nova-curve"@ != "--skip-decider"@,
        "--nova-curve"@ != "--only"@,
        "--help"@ != "--steps"@,
        "--help"@ != "--skip-decider"@,
        "--help"@ != "--only"@,
        "--help"@ != "--nova-curve"@,
        "-h"@ != "--steps"@,
        "-h"@ != "--skip-decider"@,
        "-h"@ != "--only"@,
        "-h"@ != "--nova-curve"@,
{
    reveal_strlit("--steps");
    reveal_strlit("--skip-decider");
    reveal_strlit("--only");
    reveal_strlit("--nova-curve");
    reveal_strlit("--help");
    reveal_strlit("-h");
    assert("--steps"@.len() == 7);
    assert("--skip-decider"@.len() == 14);
    assert("--only"@.len() == 6);
    assert("--nova-curve"@.len() == 12);
    assert("--help"@.len() == 6);
    assert("-h"@.len() == 2);
    assert("--only"@[2] == 'o' && "--help"@[2] == 'h');
}

/// What an argument does wherever it stands: the chain lengths, the backend and
/// the curve are those that were given last, a flag changes no other option, and
/// what is missing or wrong is refused.
pub proof fn lemma_arguments(args: Seq<Seq<char>>, i: nat, opts: OptionsView)
    requires
        i < args.len(),
    ensures
        parsed_from(args, args.len(), opts) == ParsedView::Run(opts),
        args[i as int] == "--help"@ || args[i as int] == "-h"@ ==> parsed_from(args, i, opts)
            == ParsedView::Help,
        args[i as int] == "--skip-decider"@ ==> parsed_from(args, i, opts) == parsed_from(
            args,
            i + 1,
            OptionsView { run_decider: false, ..opts },
        ),
        args[i as int] == "--steps"@ && i + 1 == args.len() ==> parsed_from(args, i, opts)
            == ParsedView::Refused(ArgError::StepsMissing),
        args[i as int] == "--steps"@ && i + 1 < args.len() ==> (match counts_in(args[(i + 1) as int]) {
            Some(list) => parsed_from(args, i, opts) == parsed_from(
                args,
                i + 2,
                OptionsView { steps: list, ..opts },
            ),
            None => parsed_from(args, i, opts) == ParsedView::Refused(
                ArgError::StepsInvalid { at: (i + 1) as usize },
            ),
        }),
        args[i as int] == "--only"@ && i + 1 == args.len() ==> parsed_from(args, i, opts)
            == ParsedView::Refused(ArgError::OnlyMissing),
        args[i as int] == "--only"@ && i + 1 < args.len() ==> (match backend_of(args[(i + 1) as int]) {
            Some(b) => parsed_from(args, i, opts) == parsed_from(
                args,
                i + 2,
                OptionsView { only: Some(b), ..opts },
            ),
            None => parsed_from(args, i, opts) == ParsedView::Refused(
                ArgError::BackendUnknown { at: (i + 1) as usize },
            ),
        }),
        args[i as int] == "--nova-curve"@ && i + 1 == args.len() ==> parsed_from(args, i, opts)
            == ParsedView::Refused(ArgError::CurveMissing),
        args[i as int] == "--nova-curve"@ && i + 1 < args.len() ==> (match curve_of(args[(i + 1) as int]) {
            Some(c) => parsed_from(args, i, opts) == parsed_from(
                args,
                i + 2,
                OptionsView { nova_curve: c, ..opts },
            ),
            None => parsed_from(args, i, opts) == ParsedView::Refused(
                ArgError::CurveUnknown { at: (i + 1) as usize },
            ),
        }),
{
    lemma_flags_differ();
}

/// The names of the backends and of the curve cycles; no other name stands for
/// one.
pub proof fn lemma_names(name: Seq<char>)
    ensures
        backend_of(name) == Some(Backend::Plonky2) <==> name == "plonky2"@,
        backend_of(name) == Some(Backend::Sonobe) <==> name == "sonobe"@,
        backend_of(name) == Some(Backend::NovaSpartan) <==> name == "nova"@ || name
            == "nova-spartan"@,
        curve_of(name) == Some(NovaCurve::Pasta) <==> name == "pasta"@,
        curve_of(name) == Some(NovaCurve::Bn254) <==> name == "bn254"@,
{
    reveal_strlit("plonky2");
    reveal_strlit("sonobe");
    reveal_strlit("nova");
    reveal_strlit("nova-spartan");
    reveal_strlit("pasta");
    reveal_strlit("bn254");
    assert("plonky2"@.len() == 7);
    assert("sonobe"@.len() == 6);
    assert("nova"@.len() == 4);
    assert("nova-spartan"@.len() == 12);
    assert("pasta"@.len() == 5);
    assert("bn254"@.len() == 5);
    assert("pasta"@[0] == 'p' && "bn254"@[0] == 'b');
}

/// Without a choice all backends run, in a fixed order; a choice runs alone.
pub proof fn lemma_backends(opts: OptionsView)
    ensures
        opts.only is None ==> backends(opts) == seq![
            Backend::Plonky2,
            Backend::Sonobe,
            Backend::NovaSpartan,
        ],
        opts.only matches Some(b) ==> backends(opts) == seq![b],
{
    match opts.only {
        None => {
            assert(backends(opts) =~= seq![
                Backend::Plonky2,
                Backend::Sonobe,
                Backend::NovaSpartan,
            ]);
        },
        Some(b) => {
            assert(backends(opts) =~= seq![b]);
        },
    }
}

} // verus!
