//! The benchmark of the append-only tree: its command line and its report.

use crate::args::{counts_in, parse_list};
use crate::comparative::{finalize_text, show_finalize, show_steps, show_verify, showable,
    steps_text, verify_text};
use crate::ivc_bench::{curve_of, parse_curve, texts};
use crate::nova_spartan_ivc::ivc::NovaCurve;
use crate::nova_spartan_ivc::merkle_run::MerkleIvcOutput;
use crate::text::{decimal, hex, hex_text, push_decimal, same_text};
use vstd::prelude::*;

verus! {

#[derive(Clone, Debug)]
pub struct MerkleOptions {
    /// Numbers of leaves to append.
    pub steps: Vec<usize>,
    /// Depths of the tree.
    pub depths: Vec<usize>,
    /// Whether to make the final proof.
    pub run_spartan: bool,
    pub curve: NovaCurve,
}

/// The options, with the lists as sequences.
pub struct MerkleOptionsView {
    pub steps: Seq<usize>,
    pub depths: Seq<usize>,
    pub run_spartan: bool,
    pub curve: NovaCurve,
}

impl View for MerkleOptions {
    type V = MerkleOptionsView;

    open spec fn view(&self) -> MerkleOptionsView {
        MerkleOptionsView {
            steps: self.steps@,
            depths: self.depths@,
            run_spartan: self.run_spartan,
            curve: self.curve,
        }
    }
}

/// The options where the command line says nothing.
pub open spec fn default_merkle_options() -> MerkleOptionsView {
    MerkleOptionsView {
        steps: seq![10],
        depths: seq![32],
        run_spartan: true,
        curve: NovaCurve::Bn254,
    }
}

/// What is wrong with the arguments. `at` is the number of the argument.
#[derive(Clone, Copy, Debug, PartialEq, Eq, Structural)]
pub enum MerkleArgError {
    StepsMissing,
    StepsInvalid { at: usize },
    DepthMissing,
    DepthInvalid { at: usize },
    DepthOutOfRange,
    CurveMissing,
    CurveUnknown { at: usize },
}

/// What the arguments ask for.
pub enum MerkleParsed {
    Run(MerkleOptions),
    Help,
    Refused(MerkleArgError),
}

/// What the arguments ask for.
pub enum MerkleParsedView {
    Run(MerkleOptionsView),
    Help,
    Refused(MerkleArgError),
}

impl View for MerkleParsed {
    type V = MerkleParsedView;

    open spec fn view(&self) -> MerkleParsedView {
        match self {
            MerkleParsed::Run(opts) => MerkleParsedView::Run(opts@),
            MerkleParsed::Help => MerkleParsedView::Help,
            MerkleParsed::Refused(e) => MerkleParsedView::Refused(*e),
        }
    }
}

/// All depths are ones that a tree can have.
pub open spec fn depths_ok(depths: Seq<usize>) -> bool {
    forall|i: int| 0 <= i < depths.len() ==> 1 <= #[trigger] depths[i] <= 64
}

fn check_depths(depths: &Vec<usize>) -> (ok: bool)
    ensures
        ok == depths_ok(depths@),
{
    for i in 0..depths.len()
        invariant
            forall|k: int| 0 <= k < i ==> 1 <= #[trigger] depths@[k] <= 64,
    {
        if depths[i] < 1 || depths[i] > 64 {
            return false;
        }
    }
    true
}

/// What the arguments from number `i` on ask for, where those before ask for
/// `opts`. What comes first decides; unknown arguments are passed over.
pub open spec fn merkle_parsed_from(
    args: Seq<Seq<char>>,
    i: nat,
    opts: MerkleOptionsView,
) -> MerkleParsedView
    decreases args.len() - i,
{
    if i >= args.len() {
        MerkleParsedView::Run(opts)
    } else {
        let arg = args[i as int];
        let value = args[(i + 1) as int];
        let last = i + 1 >= args.len();
        if arg == "--steps"@ {
            if last {
                MerkleParsedView::Refused(MerkleArgError::StepsMissing)
            } else {
                match counts_in(value) {
                    Some(steps) => merkle_parsed_from(
                        args,
                        i + 2,
                        MerkleOptionsView { steps, ..opts },
                    ),
                    None => MerkleParsedView::Refused(
                        MerkleArgError::StepsInvalid { at: (i + 1) as usize },
                    ),
                }
            }
        } else if arg == "--depth"@ {
            if last {
                MerkleParsedView::Refused(MerkleArgError::DepthMissing)
            } else {
                match counts_in(value) {
                    Some(depths) => if depths_ok(depths) {
                        merkle_parsed_from(args, i + 2, MerkleOptionsView { depths, ..opts })
                    } else {
                        MerkleParsedView::Refused(MerkleArgError::DepthOutOfRange)
                    },
                    None => MerkleParsedView::Refused(
                        MerkleArgError::DepthInvalid { at: (i + 1) as usize },
                    ),
                }
            }
        } else if arg == "--skip-spartan"@ || arg == "--skip-decider"@ {
            merkle_parsed_from(args, i + 1, MerkleOptionsView { run_spartan: false, ..opts })
        } else if arg == "--nova-curve"@ {
            if last {
                MerkleParsedView::Refused(MerkleArgError::CurveMissing)
            } else {
                match curve_of(value) {
                    Some(curve) => merkle_parsed_from(
                        args,
                        i + 2,
                        MerkleOptionsView { curve, ..opts },
                    ),
                    None => MerkleParsedView::Refused(
                        MerkleArgError::CurveUnknown { at: (i + 1) as usize },
                    ),
                }
            }
        } else if arg == "--help"@ || arg == "-h"@ {
            MerkleParsedView::Help
        } else {
            merkle_parsed_from(args, i + 1, opts)
        }
    }
}

/// What a command line asks for.
pub fn parse_merkle_args(args: &[String]) -> (parsed: MerkleParsed)
    ensures
        parsed@ == merkle_parsed_from(texts(args@), 0, default_merkle_options()),
{
    let ghost all = texts(args@);
    let mut steps: Vec<usize> = Vec::new();
    steps.push(10);
    let mut depths: Vec<usize> = Vec::new();
    depths.push(32);
    assert(steps@ =~= seq![10usize]);
    assert(depths@ =~= seq![32usize]);
    let mut opts = MerkleOptions { steps, depths, run_spartan: true, curve: NovaCurve::Bn254 };
    let mut i: usize = 0;
    let n = args.len();
    while i < n
        invariant
            n == args@.len(),
            i <= n,
            all == texts(args@),
            merkle_parsed_from(all, i as nat, opts@) == merkle_parsed_from(
                all,
                0,
                default_merkle_options(),
            ),
        decreases n - i,
    {
        let arg = args[i].as_str();
        assert(arg@ == all[i as int]);
        let last = n - i == 1;
        assert(!last ==> args@[i + 1]@ == all[i + 1]);
        if same_text(arg, "--steps") {
            if last {
                return MerkleParsed::Refused(MerkleArgError::StepsMissing);
            }
            match parse_list(args[i + 1].as_str()) {
                Some(steps) => {
                    opts.steps = steps;
                },
                None => {
                    return MerkleParsed::Refused(MerkleArgError::StepsInvalid { at: i + 1 });
                },
            }
            i = i + 2;
        } else if same_text(arg, "--depth") {
            if last {
                return MerkleParsed::Refused(MerkleArgError::DepthMissing);
            }
            match parse_list(args[i + 1].as_str()) {
                Some(depths) => {
                    if !check_depths(&depths) {
                        return MerkleParsed::Refused(MerkleArgError::DepthOutOfRange);
                    }
                    opts.depths = depths;
                },
                None => {
                    return MerkleParsed::Refused(MerkleArgError::DepthInvalid { at: i + 1 });
                },
            }
            i = i + 2;
        } else if same_text(arg, "--skip-spartan") || same_text(arg, "--skip-decider") {
            opts.run_spartan = false;
            i = i + 1;
        } else if same_text(arg, "--nova-curve") {
            if last {
                return MerkleParsed::Refused(MerkleArgError::CurveMissing);
            }
            match parse_curve(args[i + 1].as_str()) {
                Some(c) => {
                    opts.curve = c;
                },
                None => {
                    return MerkleParsed::Refused(MerkleArgError::CurveUnknown { at: i + 1 });
                },
            }
            i = i + 2;
        } else if same_text(arg, "--help") || same_text(arg, "-h") {
            return MerkleParsed::Help;
        } else {
            i = i + 1;
        }
    }
    MerkleParsed::Run(opts)
}

/// The report of a run.
pub open spec fn merkle_report_text(depth: nat, out: MerkleIvcOutput) -> Seq<char> {
    "\n================================================================================\n IVC benchmark — Merkle append (SHA-256, frontier), depth = "@
        + decimal(depth) + ", N = "@ + decimal(out.report.step_times@.len())
        + " leaves\n================================================================================\n"@
        + steps_text(out.report) + finalize_text(
        out.report,
        "    final SNARK      :      skipped   (--skip-spartan)\n"@,
    ) + verify_text(out.report) + "    final root       : "@ + hex_text(out.root@)
        + "\n================================================================================\n"@
}

/// The report of a run.
pub fn print_merkle_report(depth: usize, out: &MerkleIvcOutput) -> (text: String)
    requires
        showable(out.report),
    ensures
        text@ == merkle_report_text(depth as nat, *out),
{
    let mut text =
        "\n================================================================================\n IVC benchmark — Merkle append (SHA-256, frontier), depth = ".to_owned();
    push_decimal(&mut text, depth as u128);
    text.push_str(", N = ");
    push_decimal(&mut text, out.report.n_steps() as u128);
    text.push_str(
        " leaves\n================================================================================\n",
    );
    text.push_str(show_steps(&out.report).as_str());
    text.push_str(
        show_finalize(
            &out.report,
            "    final SNARK      :      skipped   (--skip-spartan)\n",
        ).as_str(),
    );
    text.push_str(show_verify(&out.report).as_str());
    text.push_str("    final root       : ");
    hex(&mut text, out.root.as_slice());
    text.push_str(
        "\n================================================================================\n",
    );
    text
}

/// The flags are told apart.
proof fn lemma_flags_differ()
    ensures
        "--depth"@ != "--steps"@,
        "--skip-spartan"@ != "--steps"@,
        "--skip-decider"@ != "--steps"@,
        "--nova-curve"@ != "--steps"@,
        "--help"@ != "--steps"@,
        "-h"@ != "--steps"@,
        "--skip-spartan"@ != "--depth"@,
        "--skip-decider"@ != "--depth"@,
        "--nova-curve"@ != "--depth"@,
        "--help"@ != "--depth"@,
        "-h"@ != "--depth"@,
        "--nova-curve"@ != "--skip-spartan"@,
        "--help"@ != "--skip-spartan"@,
        "-h"@ != "--skip-spartan"@,
        "--nova-curve"@ != "--skip-decider"@,
        "--help"@ != "--skip-decider"@,
        "-h"@ != "--skip-decider"@,
        "--help"@ != "--nova-curve"@,
        "-h"@ != "--nova-curve"@,
{
    reveal_strlit("--steps");
    reveal_strlit("--depth");
    reveal_strlit("--skip-spartan");
    reveal_strlit("--skip-decider");
    reveal_strlit("--nova-curve");
    reveal_strlit("--help");
    reveal_strlit("-h");
    assert("--steps"@.len() == 7);
    assert("--depth"@.len() == 7);
    assert("--skip-spartan"@.len() == 14);
    assert("--skip-decider"@.len() == 14);
    assert("--nova-curve"@.len() == 12);
    assert("--help"@.len() == 6);
    assert("-h"@.len() == 2);
    assert("--steps"@[2] == 's' && "--depth"@[2] == 'd');
    assert("--skip-spartan"@[7] == 's' && "--skip-decider"@[7] == 'd');
}

/// What an argument does wherever it stands: the numbers of leaves, the depths and
/// the curve are those that were given last, a flag changes no other option, and
/// what is missing, wrong or out of range is refused.
pub proof fn lemma_merkle_arguments(args: Seq<Seq<char>>, i: nat, opts: MerkleOptionsView)
    requires
        i < args.len(),
    ensures
        merkle_parsed_from(args, args.len(), opts) == MerkleParsedView::Run(opts),
        args[i as int] == "--help"@ || args[i as int] == "-h"@ ==> merkle_parsed_from(args, i, opts)
            == MerkleParsedView::Help,
        args[i as int] == "--skip-spartan"@ || args[i as int] == "--skip-decider"@
            ==> merkle_parsed_from(args, i, opts) == merkle_parsed_from(
            args,
            i + 1,
            MerkleOptionsView { run_spartan: false, ..opts },
        ),
        args[i as int] == "--steps"@ && i + 1 == args.len() ==> merkle_parsed_from(args, i, opts)
            == MerkleParsedView::Refused(MerkleArgError::StepsMissing),
        args[i as int] == "--steps"@ && i + 1 < args.len() ==> (match counts_in(args[(i + 1) as int]) {
            Some(list) => merkle_parsed_from(args, i, opts) == merkle_parsed_from(
                args,
                i + 2,
                MerkleOptionsView { steps: list, ..opts },
            ),
            None => merkle_parsed_from(args, i, opts) == MerkleParsedView::Refused(
                MerkleArgError::StepsInvalid { at: (i + 1) as usize },
            ),
        }),
        args[i as int] == "--depth"@ && i + 1 == args.len() ==> merkle_parsed_from(args, i, opts)
            == MerkleParsedView::Refused(MerkleArgError::DepthMissing),
        args[i as int] == "--depth"@ && i + 1 < args.len() ==> (match counts_in(args[(i + 1) as int]) {
            Some(list) => if forall|k: int|
                0 <= k < list.len() ==> 1 <= #[trigger] list[k] && list[k] <= 64 {
                merkle_parsed_from(args, i, opts) == merkle_parsed_from(
                    args,
                    i + 2,
                    MerkleOptionsView { depths: list, ..opts },
                )
            } else {
                merkle_parsed_from(args, i, opts) == MerkleParsedView::Refused(
                    MerkleArgError::DepthOutOfRange,
                )
            },
            None => merkle_parsed_from(args, i, opts) == MerkleParsedView::Refused(
                MerkleArgError::DepthInvalid { at: (i + 1) as usize },
            ),
        }),
        args[i as int] == "--nova-curve"@ && i + 1 == args.len() ==> merkle_parsed_from(
            args,
            i,
            opts,
        ) == MerkleParsedView::Refused(MerkleArgError::CurveMissing),
        args[i as int] == "--nova-curve"@ && i + 1 < args.len() ==> (match curve_of(args[(i + 1) as int]) {
            Some(c) => merkle_parsed_from(args, i, opts) == merkle_parsed_from(
                args,
                i + 2,
                MerkleOptionsView { curve: c, ..opts },
            ),
            None => merkle_parsed_from(args, i, opts) == MerkleParsedView::Refused(
                MerkleArgError::CurveUnknown { at: (i + 1) as usize },
            ),
        }),
{
    lemma_flags_differ();
}

/// Arguments that are none of the flags change nothing.
pub proof fn lemma_unknown_merkle_arguments_are_ignored(
    args: Seq<Seq<char>>,
    i: nat,
    opts: MerkleOptionsView,
)
    requires
        i < args.len(),
        args[i as int] != "--steps"@,
        args[i as int] != "--depth"@,
        args[i as int] != "--skip-spartan"@,
        args[i as int] != "--skip-decider"@,
        args[i as int] != "--nova-curve"@,
        args[i as int] != "--help"@,
        args[i as int] != "-h"@,
    ensures
        merkle_parsed_from(args, i, opts) == merkle_parsed_from(args, i + 1, opts),
{
}

} // verus!
