//! Command-line options of the `rb64` program: an operation, the files to
//! work on, and whether help was asked for.
use vstd::prelude::*;

use crate::config::texts;
use crate::strings::is_flag;

verus! {

/// What to do with the input.
#[derive(Clone, Copy, PartialEq, Eq, Structural, Debug)]
pub enum Operation {
    Encode,
    Decode,
}

/// The options of the program.
pub struct Config {
    operation: Operation,
    files: Vec<String>,
    help: bool,
}

/// Whether `a` asks for help.
pub open spec fn is_help_flag(a: Seq<char>) -> bool {
    a == "-h"@ || a == "--help"@
}

/// The operation, the files and whether help was asked for that a list of
/// arguments selects: `-e` selects encoding, `-d` decoding (the last such
/// flag wins, encoding where there is none), `-h` or `--help` asks for help
/// and ends the reading of the arguments, and any other argument names a
/// file.
pub open spec fn scan_cli_args(args: Seq<Seq<char>>) -> (Operation, Seq<Seq<char>>, bool)
    decreases args.len(),
{
    if args.len() == 0 {
        (Operation::Encode, seq![], false)
    } else {
        let (op, files, help) = scan_cli_args(args.drop_last());
        let a = args.last();
        if help {
            (op, files, help)
        } else if a == "-e"@ {
            (Operation::Encode, files, false)
        } else if a == "-d"@ {
            (Operation::Decode, files, false)
        } else if is_help_flag(a) {
            (op, files, true)
        } else {
            (op, files.push(a), false)
        }
    }
}

impl Config {
    /// The operation selected.
    pub closed spec fn spec_operation(&self) -> Operation {
        self.operation
    }

    /// The files named, in order.
    pub closed spec fn spec_files(&self) -> Seq<Seq<char>> {
        texts(self.files@)
    }

    /// Whether help was asked for.
    pub closed spec fn spec_help(&self) -> bool {
        self.help
    }

    /// Reads the options from the arguments (the program's name left out).
    /// Reading stops at the first `-h` or `--help`; the program then prints
    /// its usage and ends. It never fails.
    pub fn parse(args: Vec<String>) -> (r: Result<Self, String>)
        ensures
            r matches Ok(conf) && (conf.spec_operation(), conf.spec_files(), conf.spec_help())
                == scan_cli_args(texts(args@)),
    {
        let mut conf = Self::default();
        let mut i: usize = 0;
        proof {
            assert(texts(args@).take(0) =~= Seq::<Seq<char>>::empty());
            assert(texts(conf.files@) =~= Seq::<Seq<char>>::empty());
        }
        while i < args.len()
            invariant
                i <= args@.len(),
                (conf.operation, texts(conf.files@), conf.help) == scan_cli_args(
                    texts(args@).take(i as int),
                ),
                !conf.help,
            decreases args@.len() - i,
        {
            let arg = &args[i];
            proof {
                assert(texts(args@).take(i + 1).drop_last() =~= texts(args@).take(i as int));
                assert(texts(args@).take(i + 1).last() == arg@);
            }
            if is_flag(arg, "-e") {
                conf.operation = Operation::Encode;
            } else if is_flag(arg, "-d") {
                conf.operation = Operation::Decode;
            } else if is_flag(arg, "-h") || is_flag(arg, "--help") {
                conf.help = true;
                proof {
                    lemma_help_ends_scan(texts(args@), i as int + 1);
                }
                return Ok(conf);
            } else {
                let ghost before = conf.files@;
                conf.files.push(arg.clone());
                proof {
                    assert(texts(conf.files@) =~= texts(before).push(arg@));
                }
            }
            i += 1;
        }
        proof {
            assert(texts(args@).take(args@.len() as int) =~= texts(args@));
        }
        Ok(conf)
    }

    /// The operation selected.
    pub fn operation(&self) -> (op: Operation)
        ensures
            op == self.spec_operation(),
    {
        self.operation
    }

    /// The files named, in order.
    pub fn files(&self) -> (files: &[String])
        ensures
            texts(files@) == self.spec_files(),
    {
        self.files.as_slice()
    }

    /// Whether help was asked for.
    pub fn help(&self) -> (help: bool)
        ensures
            help == self.spec_help(),
    {
        self.help
    }
}

/// Once help is asked for, later arguments change nothing.
proof fn lemma_help_ends_scan(args: Seq<Seq<char>>, k: int)
    requires
        0 <= k <= args.len(),
        scan_cli_args(args.take(k)).2,
    ensures
        scan_cli_args(args) == scan_cli_args(args.take(k)),
    decreases args.len() - k,
{
    if k < args.len() {
        assert(args.take(k + 1).drop_last() =~= args.take(k));
        lemma_help_ends_scan(args, k + 1);
    } else {
        assert(args.take(k) =~= args);
    }
}

impl Default for Config {
    fn default() -> (conf: Self)
        ensures
            conf.spec_operation() == Operation::Encode,
            conf.spec_files() == Seq::<Seq<char>>::empty(),
            !conf.spec_help(),
    {
        let conf = Self { operation: Operation::Encode, files: Vec::new(), help: false };
        assert(texts(conf.files@) =~= Seq::<Seq<char>>::empty());
        conf
    }
}

} // verus!

verus! {

/// Whether `a` is one of the program's flags.
pub open spec fn is_cli_flag(a: Seq<char>) -> bool {
    a == "-e"@ || a == "-d"@ || is_help_flag(a)
}

/// The four flags are different texts.
proof fn lemma_flags_differ()
    ensures
        "-e"@ != "-d"@,
        !is_help_flag("-e"@),
        !is_help_flag("-d"@),
        is_cli_flag("-e"@),
        is_cli_flag("-d"@),
{
    reveal_strlit("-e");
    reveal_strlit("-d");
    reveal_strlit("-h");
    reveal_strlit("--help");
    assert("-e"@[1] != "-d"@[1]);
    assert("-e"@[1] != "-h"@[1]);
    assert("-d"@[1] != "-h"@[1]);
    assert("-e"@.len() != "--help"@.len());
    assert("-d"@.len() != "--help"@.len());
}

/// A flag sets the operation whatever came before it, unless help was asked
/// for: `-e` encoding, `-d` decoding; the files named stay as they were.
pub proof fn lemma_last_flag_sets_operation(args: Seq<Seq<char>>)
    requires
        !scan_cli_args(args).2,
    ensures
        scan_cli_args(args.push("-d"@)) == (Operation::Decode, scan_cli_args(args).1, false),
        scan_cli_args(args.push("-e"@)) == (Operation::Encode, scan_cli_args(args).1, false),
{
    lemma_flags_differ();
    assert(args.push("-d"@).drop_last() =~= args);
    assert(args.push("-e"@).drop_last() =~= args);
}

/// An argument that is no flag is one more file, put after the others, and
/// leaves the operation as it was, unless help was asked for.
pub proof fn lemma_other_argument_is_a_file(args: Seq<Seq<char>>, a: Seq<char>)
    requires
        !scan_cli_args(args).2,
        !is_cli_flag(a),
    ensures
        scan_cli_args(args.push(a)) == (
            scan_cli_args(args).0,
            scan_cli_args(args).1.push(a),
            false,
        ),
{
    assert(args.push(a).drop_last() =~= args);
}

/// Help is asked for exactly when a help flag is among the arguments, and
/// the files are every argument before the first help flag that is no flag,
/// in order.
pub proof fn lemma_cli_files(args: Seq<Seq<char>>)
    ensures
        0 <= help_of(args) <= args.len(),
        forall|i: int| 0 <= i < help_of(args) ==> !is_help_flag(#[trigger] args[i]),
        help_of(args) < args.len() ==> is_help_flag(args[help_of(args)]),
        scan_cli_args(args).2 <==> help_of(args) < args.len(),
        scan_cli_args(args).1 == args.take(help_of(args)).filter(|a: Seq<char>| !is_cli_flag(a)),
    decreases args.len(),
{
    reveal(Seq::filter);
    lemma_flags_differ();
    if args.len() > 0 {
        let front = args.drop_last();
        lemma_cli_files(front);
        let a = args.last();
        assert forall|i: int| 0 <= i < front.len() implies args[i] == front[i] by {}
        if help_of(front) < front.len() {
            assert(args.take(help_of(args)) =~= front.take(help_of(front)));
        } else if is_help_flag(a) {
            assert(args.take(help_of(args)) =~= front);
            assert(front.take(front.len() as int) =~= front);
        } else {
            assert(args.take(args.len() as int) =~= args);
            assert(front.take(front.len() as int) =~= front);
            assert(args.take(help_of(args)).drop_last() =~= front);
        }
    } else {
        assert(args.take(0) =~= args);
    }
}

/// The number of arguments read: up to the first help flag, or all of them.
pub open spec fn help_of(args: Seq<Seq<char>>) -> int
    decreases args.len(),
{
    if args.len() == 0 {
        0
    } else if help_of(args.drop_last()) < args.len() - 1 {
        help_of(args.drop_last())
    } else if is_help_flag(args.last()) {
        args.len() - 1
    } else {
        args.len() as int
    }
}

} // verus!
