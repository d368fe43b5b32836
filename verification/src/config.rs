//! Command-line options of the interactive front end: an operation and the
//! files to work on.
use vstd::prelude::*;

use crate::strings::is_flag;

verus! {

/// What to do with the input.
#[derive(Clone, Copy, PartialEq, Eq, Structural, Debug)]
pub enum Operation {
    Encode,
    Decode,
    Tui,
}

/// The options: the operation and the files named.
pub struct Config {
    operation: Operation,
    files: Vec<String>,
}

/// The operation and files that a list of arguments selects, before the rule
/// that naming files means decoding: `-e` selects encoding, `-d` decoding,
/// `-tui` the terminal front end (the last such flag wins, the terminal front
/// end where there is none), and any other argument names a file.
pub open spec fn scan_args(args: Seq<Seq<char>>) -> (Operation, Seq<Seq<char>>)
    decreases args.len(),
{
    if args.len() == 0 {
        (Operation::Tui, seq![])
    } else {
        let (op, files) = scan_args(args.drop_last());
        let a = args.last();
        if a == "-e"@ {
            (Operation::Encode, files)
        } else if a == "-d"@ {
            (Operation::Decode, files)
        } else if a == "-tui"@ {
            (Operation::Tui, files)
        } else {
            (op, files.push(a))
        }
    }
}

/// The operation that `args` selects: decoding wherever a file is named.
pub open spec fn selected_operation(args: Seq<Seq<char>>) -> Operation {
    if scan_args(args).1.len() > 0 {
        Operation::Decode
    } else {
        scan_args(args).0
    }
}

/// The texts of a list of strings.
pub open spec fn texts(v: Seq<String>) -> Seq<Seq<char>> {
    v.map_values(|s: String| s@)
}

impl Config {
    /// The operation selected.
    pub closed spec fn spec_operation(&self) -> Operation {
        self.operation
    }

    /// The files named, in order.
    pub closed spec fn spec_files(&self) -> Seq<Seq<char>> {
        texts(self.files@)
    }

    /// Reads the options from the arguments (the program's name left out).
    /// It never fails.
    pub fn parse(args: Vec<String>) -> (r: Result<Self, String>)
        ensures
            r matches Ok(conf) && conf.spec_operation() == selected_operation(texts(args@))
                && conf.spec_files() == scan_args(texts(args@)).1,
    {
        let mut conf = Self::default();
        let mut i: usize = 0;
        proof {
            assert(texts(args@).take(0) =~= Seq::<Seq<char>>::empty());
            assert(texts(conf.files@) =~= Seq::<Seq<char>>::empty());
        }
        while i < args.len()
            invariant
                i <= args@.len(),
                conf.operation == scan_args(texts(args@).take(i as int)).0,
                texts(conf.files@) == scan_args(texts(args@).take(i as int)).1,
            decreases args@.len() - i,
        {
            let arg = &args[i];
            proof {
                assert(texts(args@).take(i + 1).drop_last() =~= texts(args@).take(i as int));
                assert(texts(args@).take(i + 1).last() == arg@);
            }
            if is_flag(arg, "-e") {
                conf.operation = Operation::Encode;
            } else if is_flag(arg, "-d") {
                conf.operation = Operation::Decode;
            } else if is_flag(arg, "-tui") {
                conf.operation = Operation::Tui;
            } else {
                let ghost before = conf.files@;
                conf.files.push(arg.clone());
                proof {
                    assert(texts(conf.files@) =~= texts(before).push(arg@));
                }
            }
            i += 1;
        }
        proof {
            assert(texts(args@).take(args@.len() as int) =~= texts(args@));
        }
        if conf.files.len() != 0 {
            conf.operation = Operation::Decode;
        }
        Ok(conf)
    }

    /// The operation selected.
    pub fn operation(&self) -> (op: Operation)
        ensures
            op == self.spec_operation(),
    {
        self.operation
    }

    /// The files named, in order.
    pub fn files(&self) -> (files: &[String])
        ensures
            texts(files@) == self.spec_files(),
    {
        self.files.as_slice()
    }
}

impl Default for Config {
    fn default() -> (conf: Self)
        ensures
            conf.spec_operation() == Operation::Tui,
            conf.spec_files() == Seq::<Seq<char>>::empty(),
    {
        let conf = Self { operation: Operation::Tui, files: Vec::new() };
        assert(texts(conf.files@) =~= Seq::<Seq<char>>::empty());
        conf
    }
}

} // verus!

verus! {

/// Whether `a` is one of the front end's flags.
pub open spec fn is_config_flag(a: Seq<char>) -> bool {
    a == "-e"@ || a == "-d"@ || a == "-tui"@
}

/// The three flags are different texts.
proof fn lemma_config_flags_differ()
    ensures
        "-e"@ != "-d"@,
        "-e"@ != "-tui"@,
        "-d"@ != "-tui"@,
{
    reveal_strlit("-e");
    reveal_strlit("-d");
    reveal_strlit("-tui");
    assert("-e"@[1] != "-d"@[1]);
    assert("-e"@.len() != "-tui"@.len());
    assert("-d"@.len() != "-tui"@.len());
}

/// A flag sets the operation, before the rule on files, whatever came before
/// it: `-e` encoding, `-d` decoding, `-tui` the terminal front end; the
/// files named stay as they were.
pub proof fn lemma_flag_sets_operation(args: Seq<Seq<char>>)
    ensures
        scan_args(args.push("-e"@)) == (Operation::Encode, scan_args(args).1),
        scan_args(args.push("-d"@)) == (Operation::Decode, scan_args(args).1),
        scan_args(args.push("-tui"@)) == (Operation::Tui, scan_args(args).1),
{
    lemma_config_flags_differ();
    assert(args.push("-e"@).drop_last() =~= args);
    assert(args.push("-d"@).drop_last() =~= args);
    assert(args.push("-tui"@).drop_last() =~= args);
}

/// The files are every argument that is no flag, in order; naming a file
/// means decoding, and otherwise the last flag, or the terminal front end
/// where there is none, decides.
pub proof fn lemma_config_files(args: Seq<Seq<char>>)
    ensures
        scan_args(args).1 == args.filter(|a: Seq<char>| !is_config_flag(a)),
        scan_args(args).1.len() > 0 ==> selected_operation(args) == Operation::Decode,
        scan_args(args).1.len() == 0 ==> selected_operation(args) == scan_args(args).0,
        (forall|i: int| 0 <= i < args.len() ==> !is_config_flag(#[trigger] args[i]))
            ==> scan_args(args).0 == Operation::Tui,
    decreases args.len(),
{
    reveal(Seq::filter);
    lemma_config_flags_differ();
    if args.len() > 0 {
        let front = args.drop_last();
        lemma_config_files(front);
        assert forall|i: int| 0 <= i < front.len() implies args[i] == front[i] by {}
        if forall|i: int| 0 <= i < args.len() ==> !is_config_flag(#[trigger] args[i]) {
            assert(!is_config_flag(args[args.len() - 1]));
        }
    }
}

} // verus!
