//! Command lines.

use translog::args::{parse_count, parse_list};
use translog::hypernova_pcd::bench_args::{
    default_depth, parse_tree_args, Flag, Program, TreeArgError, TreeOptions, TreeParsed,
};
use translog::ivc_bench::{
    parse_args, run, should_run, ArgError, Backend, BenchOptions, Parsed,
};
use translog::nova_spartan_ivc::merkle_bench::{
    parse_merkle_args, MerkleArgError, MerkleOptions, MerkleParsed,
};
use translog::nova_spartan_ivc::NovaCurve;

fn strings(args: &[&str]) -> Vec<String> {
    args.iter().map(|a| a.to_string()).collect()
}

fn options(args: &[&str]) -> BenchOptions {
    match parse_args(&strings(args)) {
        Parsed::Run(opts) => opts,
        _ => panic!("no run is asked for"),
    }
}

fn refusal(args: &[&str]) -> ArgError {
    match parse_args(&strings(args)) {
        Parsed::Refused(e) => e,
        _ => panic!("the arguments are in order"),
    }
}

#[test]
fn defaults_of_the_comparison() {
    let opts = options(&[]);
    assert_eq!(opts.steps, [10]);
    assert!(opts.run_decider);
    assert_eq!(opts.only, None);
    assert_eq!(opts.nova_curve, NovaCurve::Bn254);
    assert_eq!(&opts.input, b"TransLog IVC benchmark seed 0001");
}

#[test]
fn flags_of_the_comparison() {
    let opts = options(&[
        "--bench", "--steps", "10, 50,\t100", "x", "--skip-decider", "--only", "nova-spartan",
        "--nova-curve", "pasta", "--steps", "+7",
    ]);
    assert_eq!(opts.steps, [7]);
    assert!(!opts.run_decider);
    assert_eq!(opts.only, Some(Backend::NovaSpartan));
    assert_eq!(opts.nova_curve, NovaCurve::Pasta);
    assert_eq!(options(&["--steps", "10, 50,\t100"]).steps, [10, 50, 100]);
    assert_eq!(options(&["--only", "plonky2"]).only, Some(Backend::Plonky2));
    assert_eq!(options(&["--only", "sonobe"]).only, Some(Backend::Sonobe));
    assert_eq!(options(&["--only", "nova"]).only, Some(Backend::NovaSpartan));
    assert_eq!(options(&["--nova-curve", "bn254"]).nova_curve, NovaCurve::Bn254);
}

#[test]
fn refused_command_lines_of_the_comparison() {
    assert_eq!(refusal(&["--steps"]), ArgError::StepsMissing);
    assert_eq!(refusal(&["--steps", "1,,2"]), ArgError::StepsInvalid { at: 1 });
    assert_eq!(refusal(&["a", "--steps", "ten"]), ArgError::StepsInvalid { at: 2 });
    assert_eq!(refusal(&["--only"]), ArgError::OnlyMissing);
    assert_eq!(refusal(&["--only", "Nova"]), ArgError::BackendUnknown { at: 1 });
    assert_eq!(refusal(&["--nova-curve"]), ArgError::CurveMissing);
    assert_eq!(refusal(&["--nova-curve", "secp"]), ArgError::CurveUnknown { at: 1 });
    // what comes first decides
    assert_eq!(refusal(&["--only", "x", "--steps", "y"]), ArgError::BackendUnknown { at: 1 });
    assert!(matches!(parse_args(&strings(&["--help", "--only", "x"])), Parsed::Help));
    assert!(matches!(parse_args(&strings(&["-h"])), Parsed::Help));
}

#[test]
fn numbers_as_the_standard_library_reads_them() {
    for text in [
        "", " ", "0", "7", "+7", "-7", "++7", "+", "-", "007", " 12 ", "1 2", "\u{a0}3\u{3000}",
        "12a", "\u{0663}", "18446744073709551615", "18446744073709551616", "99999999999999999999",
        "000000000000000000000000000018446744073709551615", "1_000", "0x10", "\u{200b}5",
    ] {
        assert_eq!(parse_count(text), text.trim().parse::<usize>().ok(), "{text:?}");
    }
    for text in ["", ",", "1", "1,2", " 1 , +2 ", "1,", "1;2", "3,-1", "4, 5,6,\n7"] {
        let by_hand: Option<Vec<usize>> = text.split(',').map(|s| s.trim().parse().ok()).collect();
        assert_eq!(parse_list(text), by_hand, "{text:?}");
    }
}

#[test]
fn rounds_of_the_comparison() {
    let opts = options(&["--steps", "3,5"]);
    let rounds = run(&opts);
    assert_eq!(rounds.len(), 2);
    assert_eq!(rounds[1].n_steps, 5);
    assert_eq!(rounds[0].backends, [Backend::Plonky2, Backend::Sonobe, Backend::NovaSpartan]);
    assert!(rounds[0].run_decider);
    let opts = options(&["--only", "sonobe"]);
    assert!(should_run(&opts, Backend::Sonobe));
    assert!(!should_run(&opts, Backend::Plonky2));
    assert_eq!(run(&opts)[0].backends, [Backend::Sonobe]);
}

fn tree_options(program: Program, args: &[&str]) -> TreeOptions {
    match parse_tree_args(program, &strings(args)) {
        TreeParsed::Run(opts) => opts,
        _ => panic!("no run is asked for"),
    }
}

fn tree_refusal(program: Program, args: &[&str]) -> TreeArgError {
    match parse_tree_args(program, &strings(args)) {
        TreeParsed::Refused(e) => e,
        _ => panic!("the arguments are in order"),
    }
}

#[test]
fn command_lines_of_the_tree_benchmarks() {
    let opts = tree_options(Program::Construct, &[]);
    assert_eq!(opts.arities, [4]);
    assert_eq!((opts.bucket_words, opts.depth), (None, None));
    assert!(!opts.run_decider && opts.verify_siblings);
    assert_eq!((opts.n_leaves, opts.k, opts.task_threads), (4096, 16, 8));
    let opts = tree_options(
        Program::Construct,
        &["--arity", "2,4", "--depth", "3", "--decider", "--no-sibling-check", "--k", "5"],
    );
    assert_eq!(opts.arities, [2, 4]);
    assert_eq!(opts.depth_for(8), 3);
    assert!(opts.run_decider && !opts.verify_siblings);
    assert_eq!(opts.k, 16);
    let opts = tree_options(Program::Construct, &["--decider", "--skip-decider"]);
    assert!(!opts.run_decider);
    let opts = tree_options(Program::Update, &["--leaves", " 64 ", "--bucket-words", "8"]);
    assert_eq!((opts.n_leaves, opts.words_for(4)), (64, 8));
    let opts = tree_options(Program::Batch, &["--k", "3", "--task-threads", "2", "--decider"]);
    assert_eq!((opts.k, opts.task_threads, opts.run_decider), (3, 2, false));
    assert_eq!(opts.words_for(4), 4);
    assert_eq!(
        tree_refusal(Program::Batch, &["--k"]),
        TreeArgError::Missing { flag: Flag::K }
    );
    assert_eq!(
        tree_refusal(Program::Update, &["--arity", "2,x"]),
        TreeArgError::Invalid { flag: Flag::Arity, at: 1 }
    );
    assert!(matches!(
        parse_tree_args(Program::Update, &strings(&["-h"])),
        TreeParsed::Help
    ));
    let depths: Vec<usize> = [2, 4, 8, 16].iter().map(|a| default_depth(*a)).collect();
    assert_eq!(depths, [5, 2, 1, 1]);
}

fn merkle_options(args: &[&str]) -> MerkleOptions {
    match parse_merkle_args(&strings(args)) {
        MerkleParsed::Run(opts) => opts,
        _ => panic!("no run is asked for"),
    }
}

#[test]
fn command_lines_of_the_append_benchmark() {
    let opts = merkle_options(&[]);
    assert_eq!((opts.steps, opts.depths), (vec![10], vec![32]));
    assert!(opts.run_spartan);
    let opts = merkle_options(&["--steps", "1,2", "--depth", "8,16", "--skip-decider"]);
    assert_eq!((opts.steps, opts.depths), (vec![1, 2], vec![8, 16]));
    assert!(!opts.run_spartan);
    assert!(!merkle_options(&["--skip-spartan", "--nova-curve", "pasta"]).run_spartan);
    let refused = [
        (vec!["--steps"], MerkleArgError::StepsMissing),
        (vec!["--steps", "?"], MerkleArgError::StepsInvalid { at: 1 }),
        (vec!["--depth"], MerkleArgError::DepthMissing),
        (vec!["--depth", "1,b"], MerkleArgError::DepthInvalid { at: 1 }),
        (vec!["--depth", "8,65"], MerkleArgError::DepthOutOfRange),
        (vec!["--depth", "0"], MerkleArgError::DepthOutOfRange),
        (vec!["--nova-curve"], MerkleArgError::CurveMissing),
        (vec!["--nova-curve", "z"], MerkleArgError::CurveUnknown { at: 1 }),
    ];
    for (args, error) in refused {
        match parse_merkle_args(&strings(&args)) {
            MerkleParsed::Refused(e) => assert_eq!(e, error),
            _ => panic!("the arguments are in order"),
        }
    }
    assert!(matches!(parse_merkle_args(&strings(&["--help"])), MerkleParsed::Help));
}
