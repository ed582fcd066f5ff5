//! The command lines of the tree benchmarks.

use crate::args::{count_in, counts_in, parse_count, parse_list};
use crate::hypernova_pcd::tree::tree_size;
use crate::ivc_bench::texts;
use crate::text::same_text;
use vstd::prelude::*;

verus! {

/// The benchmarks.
#[derive(Clone, Copy, Debug, PartialEq, Eq, Structural)]
pub enum Program {
    /// Building whole trees.
    Construct,
    /// Updating one leaf.
    Update,
    /// Updating many leaves at once.
    Batch,
}

#[derive(Clone, Copy, Debug, PartialEq, Eq, Structural)]
pub enum Flag {
    Arity,
    BucketWords,
    Depth,
    Leaves,
    K,
    TaskThreads,
    Decider,
    SkipDecider,
    NoSiblingCheck,
    Help,
}

/// The flag of a name, if the benchmark has it.
pub open spec fn flag_of(program: Program, name: Seq<char>) -> Option<Flag> {
    if name == "--arity"@ {
        Some(Flag::Arity)
    } else if name == "--bucket-words"@ {
        Some(Flag::BucketWords)
    } else if name == "--help"@ || name == "-h"@ {
        Some(Flag::Help)
    } else if name == "--depth"@ && program is Construct {
        Some(Flag::Depth)
    } else if name == "--leaves"@ && !(program is Construct) {
        Some(Flag::Leaves)
    } else if name == "--k"@ && program is Batch {
        Some(Flag::K)
    } else if name == "--task-threads"@ && program is Batch {
        Some(Flag::TaskThreads)
    } else if name == "--decider"@ && !(program is Batch) {
        Some(Flag::Decider)
    } else if name == "--skip-decider"@ && program is Construct {
        Some(Flag::SkipDecider)
    } else if name == "--no-sibling-check"@ && program is Construct {
        Some(Flag::NoSiblingCheck)
    } else {
        None
    }
}

fn parse_flag(program: Program, name: &str) -> (flag: Option<Flag>)
    ensures
        flag == flag_of(program, name@),
{
    if same_text(name, "--arity") {
        Some(Flag::Arity)
    } else if same_text(name, "--bucket-words") {
        Some(Flag::BucketWords)
    } else if same_text(name, "--help") || same_text(name, "-h") {
        Some(Flag::Help)
    } else if same_text(name, "--depth") && program == Program::Construct {
        Some(Flag::Depth)
    } else if same_text(name, "--leaves") && program != Program::Construct {
        Some(Flag::Leaves)
    } else if same_text(name, "--k") && program == Program::Batch {
        Some(Flag::K)
    } else if same_text(name, "--task-threads") && program == Program::Batch {
        Some(Flag::TaskThreads)
    } else if same_text(name, "--decider") && program != Program::Batch {
        Some(Flag::Decider)
    } else if same_text(name, "--skip-decider") && program == Program::Construct {
        Some(Flag::SkipDecider)
    } else if same_text(name, "--no-sibling-check") && program == Program::Construct {
        Some(Flag::NoSiblingCheck)
    } else {
        None
    }
}

/// The options of the tree benchmarks.
#[derive(Clone, Debug)]
pub struct TreeOptions {
    pub arities: Vec<usize>,
    /// Digests per bucket; as many as the arity if not given.
    pub bucket_words: Option<usize>,
    /// Depth of the tree; the default depth of the arity if not given.
    pub depth: Option<usize>,
    pub run_decider: bool,
    pub verify_siblings: bool,
    pub n_leaves: usize,
    pub k: usize,
    pub task_threads: usize,
}

/// The options, with the list of arities as a sequence.
pub struct TreeOptionsView {
    pub arities: Seq<usize>,
    pub bucket_words: Option<usize>,
    pub depth: Option<usize>,
    pub run_decider: bool,
    pub verify_siblings: bool,
    pub n_leaves: usize,
    pub k: usize,
    pub task_threads: usize,
}

impl View for TreeOptions {
    type V = TreeOptionsView;

    open spec fn view(&self) -> TreeOptionsView {
        TreeOptionsView {
            arities: self.arities@,
            bucket_words: self.bucket_words,
            depth: self.depth,
            run_decider: self.run_decider,
            verify_siblings: self.verify_siblings,
            n_leaves: self.n_leaves,
            k: self.k,
            task_threads: self.task_threads,
        }
    }
}

/// The options where the command line says nothing.
pub open spec fn default_tree_options() -> TreeOptionsView {
    TreeOptionsView {
        arities: seq![4],
        bucket_words: None,
        depth: None,
        run_decider: false,
        verify_siblings: true,
        n_leaves: 4096,
        k: 16,
        task_threads: 8,
    }
}

/// What is wrong with the arguments. `at` is the number of the argument.
#[derive(Clone, Copy, Debug, PartialEq, Eq, Structural)]
pub enum TreeArgError {
    Missing { flag: Flag },
    Invalid { flag: Flag, at: usize },
}

/// What the arguments ask for.
pub enum TreeParsed {
    Run(TreeOptions),
    Help,
    Refused(TreeArgError),
}

/// What the arguments ask for.
pub enum TreeParsedView {
    Run(TreeOptionsView),
    Help,
    Refused(TreeArgError),
}

impl View for TreeParsed {
    type V = TreeParsedView;

    open spec fn view(&self) -> TreeParsedView {
        match self {
            TreeParsed::Run(opts) => TreeParsedView::Run(opts@),
            TreeParsed::Help => TreeParsedView::Help,
            TreeParsed::Refused(e) => TreeParsedView::Refused(*e),
        }
    }
}

/// The options after a flag without a value.
pub open spec fn after_switch(flag: Flag, opts: TreeOptionsView) -> TreeOptionsView {
    match flag {
        Flag::Decider => TreeOptionsView { run_decider: true, ..opts },
        Flag::SkipDecider => TreeOptionsView { run_decider: false, ..opts },
        _ => TreeOptionsView { verify_siblings: false, ..opts },
    }
}

/// The options after a flag with a value; nothing if the value is no number,
/// or no list of numbers.
pub open spec fn after_value(flag: Flag, value: Seq<char>, opts: TreeOptionsView) -> Option<
    TreeOptionsView,
> {
    if flag is Arity {
        match counts_in(value) {
            Some(arities) => Some(TreeOptionsView { arities, ..opts }),
            None => None,
        }
    } else {
        match count_in(value) {
            Some(n) => Some(
                match flag {
                    Flag::BucketWords => TreeOptionsView { bucket_words: Some(n), ..opts },
                    Flag::Depth => TreeOptionsView { depth: Some(n), ..opts },
                    Flag::Leaves => TreeOptionsView { n_leaves: n, ..opts },
                    Flag::K => TreeOptionsView { k: n, ..opts },
                    _ => TreeOptionsView { task_threads: n, ..opts },
                },
            ),
            None => None,
        }
    }
}

/// What the arguments from number `i` on ask for, where those before ask for
/// `opts`. What comes first decides; unknown arguments are passed over.
pub open spec fn tree_parsed_from(
    program: Program,
    args: Seq<Seq<char>>,
    i: nat,
    opts: TreeOptionsView,
) -> TreeParsedView
    decreases args.len() - i,
{
    if i >= args.len() {
        TreeParsedView::Run(opts)
    } else {
        match flag_of(program, args[i as int]) {
            None => tree_parsed_from(program, args, i + 1, opts),
            Some(Flag::Help) => TreeParsedView::Help,
            Some(flag) => if flag is Decider || flag is SkipDecider || flag is NoSiblingCheck {
                tree_parsed_from(program, args, i + 1, after_switch(flag, opts))
            } else if i + 1 >= args.len() {
                TreeParsedView::Refused(TreeArgError::Missing { flag })
            } else {
                match after_value(flag, args[(i + 1) as int], opts) {
                    Some(next) => tree_parsed_from(program, args, i + 2, next),
                    None => TreeParsedView::Refused(
                        TreeArgError::Invalid { flag, at: (i + 1) as usize },
                    ),
                }
            },
        }
    }
}

/// Takes in a flag with its value; says whether the value is in order.
fn take_value(flag: Flag, value: &str, opts: &mut TreeOptions) -> (ok: bool)
    ensures
        match after_value(flag, value@, old(opts)@) {
            Some(next) => ok && final(opts)@ == next,
            None => !ok,
        },
{
    if flag == Flag::Arity {
        match parse_list(value) {
            Some(arities) => {
                opts.arities = arities;
                true
            },
            None => false,
        }
    } else {
        match parse_count(value) {
            Some(n) => {
                match flag {
                    Flag::BucketWords => {
                        opts.bucket_words = Some(n);
                    },
                    Flag::Depth => {
                        opts.depth = Some(n);
                    },
                    Flag::Leaves => {
                        opts.n_leaves = n;
                    },
                    Flag::K => {
                        opts.k = n;
                    },
                    _ => {
                        opts.task_threads = n;
                    },
                }
                true
            },
            None => false,
        }
    }
}

/// What a command line asks of a benchmark.
pub fn parse_tree_args(program: Program, args: &[String]) -> (parsed: TreeParsed)
    ensures
        parsed@ == tree_parsed_from(program, texts(args@), 0, default_tree_options()),
{
    let ghost all = texts(args@);
    let mut arities: Vec<usize> = Vec::new();
    arities.push(4);
    let mut opts = TreeOptions {
        arities,
        bucket_words: None,
        depth: None,
        run_decider: false,
        verify_siblings: true,
        n_leaves: 4096,
        k: 16,
        task_threads: 8,
    };
    assert(opts@.arities =~= seq![4usize]);
    let mut i: usize = 0;
    let n = args.len();
    while i < n
        invariant
            n == args@.len(),
            i <= n,
            all == texts(args@),
            tree_parsed_from(program, all, i as nat, opts@) == tree_parsed_from(
                program,
                all,
                0,
                default_tree_options(),
            ),
        decreases n - i,
    {
        assert(args@[i as int]@ == all[i as int]);
        match parse_flag(program, args[i].as_str()) {
            None => {
                i = i + 1;
            },
            Some(Flag::Help) => {
                return TreeParsed::Help;
            },
            Some(Flag::Decider) => {
                opts.run_decider = true;
                i = i + 1;
            },
            Some(Flag::SkipDecider) => {
                opts.run_decider = false;
                i = i + 1;
            },
            Some(Flag::NoSiblingCheck) => {
                opts.verify_siblings = false;
                i = i + 1;
            },
            Some(flag) => {
                if n - i == 1 {
                    return TreeParsed::Refused(TreeArgError::Missing { flag });
                }
                assert(args@[i + 1]@ == all[i + 1]);
                if !take_value(flag, args[i + 1].as_str(), &mut opts) {
                    return TreeParsed::Refused(TreeArgError::Invalid { flag, at: i + 1 });
                }
                i = i + 2;
            },
        }
    }
    TreeParsed::Run(opts)
}

/// The depth that gives about 2 KiB of data for an arity.
pub open spec fn usual_depth(arity: nat) -> nat {
    if arity == 2 {
        5
    } else if arity == 4 {
        2
    } else {
        1
    }
}

/// At its usual depth a tree of arity 2, 4 or 8 holds 2 KiB of data; a tree of
/// another arity has one level of merges.
pub proof fn lemma_usual_depth(arity: nat)
    ensures
        arity == 2 || arity == 4 || arity == 8 ==> 32 * arity * tree_size(arity, usual_depth(arity))
            == 2048,
        arity != 2 && arity != 4 ==> usual_depth(arity) == 1,
{
    if arity == 2 {
        assert(tree_size(2, 0) == 1 && tree_size(2, 1) == 2 && tree_size(2, 2) == 4);
        assert(tree_size(2, 3) == 8 && tree_size(2, 4) == 16 && tree_size(2, 5) == 32);
    }
    if arity == 4 {
        assert(tree_size(4, 0) == 1 && tree_size(4, 1) == 4 && tree_size(4, 2) == 16);
    }
    if arity == 8 {
        assert(tree_size(8, 0) == 1 && tree_size(8, 1) == 8);
    }
    let leaves = tree_size(arity, usual_depth(arity));
    assert(arity * leaves == 64 ==> 32 * arity * leaves == 2048) by (nonlinear_arith);
    assert((arity == 2 && leaves == 32) || (arity == 4 && leaves == 16) || (arity == 8 && leaves
        == 8) ==> arity * leaves == 64) by (nonlinear_arith);
}

/// The depth that gives about 2 KiB of data for an arity.
pub fn default_depth(arity: usize) -> (depth: usize)
    ensures
        depth == usual_depth(arity as nat),
{
    if arity == 2 {
        5
    } else if arity == 4 {
        2
    } else {
        1
    }
}

impl TreeOptions {
    /// The depth of the tree of an arity.
    pub fn depth_for(&self, arity: usize) -> (depth: usize)
        ensures
            self.depth matches Some(d) ==> depth == d,
            self.depth is None ==> depth == usual_depth(arity as nat),
    {
        match self.depth {
            Some(d) => d,
            None => default_depth(arity),
        }
    }

    /// Digests per bucket of the tree of an arity.
    pub fn words_for(&self, arity: usize) -> (words: usize)
        ensures
            words == (match self.bucket_words {
                Some(w) => w,
                None => arity,
            }),
    {
        match self.bucket_words {
            Some(w) => w,
            None => arity,
        }
    }
}

/// The flags' names: every benchmark has those of the arities, the buckets and the
/// usage; depth, sibling checks and skipping the decider belong to building trees,
/// the number of leaves to updates, and the batch to batch updates. A name that is
/// none of a benchmark's flags stands for nothing.
pub proof fn lemma_flag_names(program: Program, name: Seq<char>)
    ensures
        flag_of(program, name) == Some(Flag::Arity) <==> name == "--arity"@,
        flag_of(program, name) == Some(Flag::BucketWords) <==> name == "--bucket-words"@,
        flag_of(program, name) == Some(Flag::Help) <==> name == "--help"@ || name == "-h"@,
        flag_of(program, name) == Some(Flag::Depth) <==> name == "--depth"@ && program
            == Program::Construct,
        flag_of(program, name) == Some(Flag::Leaves) <==> name == "--leaves"@ && program
            != Program::Construct,
        flag_of(program, name) == Some(Flag::K) <==> name == "--k"@ && program == Program::Batch,
        flag_of(program, name) == Some(Flag::TaskThreads) <==> name == "--task-threads"@ && program
            == Program::Batch,
        flag_of(program, name) == Some(Flag::Decider) <==> name == "--decider"@ && program
            != Program::Batch,
        flag_of(program, name) == Some(Flag::SkipDecider) <==> name == "--skip-decider"@ && program
            == Program::Construct,
        flag_of(program, name) == Some(Flag::NoSiblingCheck) <==> name == "--no-sibling-check"@
            && program == Program::Construct,
{
    reveal_strlit("--arity");
    reveal_strlit("--bucket-words");
    reveal_strlit("--help");
    reveal_strlit("-h");
    reveal_strlit("--depth");
    reveal_strlit("--leaves");
    reveal_strlit("--k");
    reveal_strlit("--task-threads");
    reveal_strlit("--decider");
    reveal_strlit("--skip-decider");
    reveal_strlit("--no-sibling-check");
    assert("--arity"@.len() == 7);
    assert("--bucket-words"@.len() == 14);
    assert("--help"@.len() == 6);
    assert("-h"@.len() == 2);
    assert("--depth"@.len() == 7);
    assert("--leaves"@.len() == 8);
    assert("--k"@.len() == 3);
    assert("--task-threads"@.len() == 14);
    assert("--decider"@.len() == 9);
    assert("--skip-decider"@.len() == 14);
    assert("--no-sibling-check"@.len() == 18);
    assert("--arity"@[2] == 'a' && "--depth"@[2] == 'd');
    assert("--bucket-words"@[2] == 'b' && "--task-threads"@[2] == 't');
    assert("--bucket-words"@[2] == 'b' && "--skip-decider"@[2] == 's');
    assert("--task-threads"@[2] == 't' && "--skip-decider"@[2] == 's');
}

/// What a flag does to the options: it sets its own and leaves the others.
pub proof fn lemma_flag_effects(flag: Flag, value: Seq<char>, opts: TreeOptionsView)
    ensures
        after_switch(Flag::Decider, opts) == (TreeOptionsView { run_decider: true, ..opts }),
        after_switch(Flag::SkipDecider, opts) == (TreeOptionsView { run_decider: false, ..opts }),
        after_switch(Flag::NoSiblingCheck, opts) == (TreeOptionsView {
            verify_siblings: false,
            ..opts
        }),
        after_value(Flag::Arity, value, opts) is Some <==> counts_in(value) is Some,
        flag != Flag::Arity ==> (after_value(flag, value, opts) is Some <==> count_in(value)
            is Some),
        counts_in(value) matches Some(list) ==> after_value(Flag::Arity, value, opts) == Some(
            TreeOptionsView { arities: list, ..opts },
        ),
        count_in(value) matches Some(n) ==> {
            &&& after_value(Flag::BucketWords, value, opts) == Some(
                TreeOptionsView { bucket_words: Some(n), ..opts },
            )
            &&& after_value(Flag::Depth, value, opts) == Some(
                TreeOptionsView { depth: Some(n), ..opts },
            )
            &&& after_value(Flag::Leaves, value, opts) == Some(
                TreeOptionsView { n_leaves: n, ..opts },
            )
            &&& after_value(Flag::K, value, opts) == Some(TreeOptionsView { k: n, ..opts })
            &&& after_value(Flag::TaskThreads, value, opts) == Some(
                TreeOptionsView { task_threads: n, ..opts },
            )
        },
{
}

/// What an argument does wherever it stands: a switch is taken in at once, another
/// flag with the argument behind it, and what is missing or wrong is refused.
pub proof fn lemma_tree_arguments(
    program: Program,
    args: Seq<Seq<char>>,
    i: nat,
    opts: TreeOptionsView,
)
    requires
        i < args.len(),
    ensures
        tree_parsed_from(program, args, args.len(), opts) == TreeParsedView::Run(opts),
        flag_of(program, args[i as int]) is None ==> tree_parsed_from(program, args, i, opts)
            == tree_parsed_from(program, args, i + 1, opts),
        flag_of(program, args[i as int]) == Some(Flag::Help) ==> tree_parsed_from(
            program,
            args,
            i,
            opts,
        ) == TreeParsedView::Help,
        flag_of(program, args[i as int]) matches Some(flag) ==> {
            let switch = flag == Flag::Decider || flag == Flag::SkipDecider || flag
                == Flag::NoSiblingCheck;
            &&& switch ==> tree_parsed_from(program, args, i, opts) == tree_parsed_from(
                program,
                args,
                i + 1,
                after_switch(flag, opts),
            )
            &&& !switch && flag != Flag::Help && i + 1 == args.len() ==> tree_parsed_from(
                program,
                args,
                i,
                opts,
            ) == TreeParsedView::Refused(TreeArgError::Missing { flag })
            &&& !switch && flag != Flag::Help && i + 1 < args.len() ==> (match after_value(
                flag,
                args[(i + 1) as int],
                opts,
            ) {
                Some(next) => tree_parsed_from(program, args, i, opts) == tree_parsed_from(
                    program,
                    args,
                    i + 2,
                    next,
                ),
                None => tree_parsed_from(program, args, i, opts) == TreeParsedView::Refused(
                    TreeArgError::Invalid { flag, at: (i + 1) as usize },
                ),
            })
        },
{
}

} // verus!
