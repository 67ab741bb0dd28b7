//! The command line options that the library interprets.
use vstd::prelude::*;

verus! {

/// `arg` asks for an output file: `--output` or `-o`.
pub open spec fn is_output_flag(arg: String) -> bool {
    arg@ == "--output"@ || arg@ == "-o"@
}

/// No argument before index `i` is an output flag.
pub open spec fn no_flag_before(args: Seq<String>, i: int) -> bool {
    forall|j: int| 0 <= j < i ==> !is_output_flag(#[trigger] args[j])
}

/// Index `i` holds the first output flag of `args`.
pub open spec fn first_flag_at(args: Seq<String>, i: int) -> bool {
    &&& 0 <= i < args.len()
    &&& is_output_flag(args[i])
    &&& no_flag_before(args, i)
}

/// Takes the output file out of the arguments: the argument after the first
/// `--output` or `-o`, which is removed together with the flag. Without such a
/// flag the arguments stay as they are and there is no output file.
pub fn get_output(args: &mut Vec<String>) -> (output: Option<String>)
    requires
        forall|i: int| first_flag_at(old(args)@, i) ==> i + 1 < old(args)@.len(),
    ensures
        match output {
            None => no_flag_before(old(args)@, old(args)@.len() as int) && final(args)@ == old(
                args,
            )@,
            Some(out) => exists|i: int|
                first_flag_at(old(args)@, i) && out == old(args)@[i + 1] && final(args)@ == old(
                    args,
                )@.remove(i).remove(i),
        },
{
    let long = "--output".to_owned();
    let short = "-o".to_owned();
    let mut i: usize = 0;
    while i < args.len()
        invariant
            i <= args@.len(),
            args@ == old(args)@,
            forall|k: int| first_flag_at(old(args)@, k) ==> k + 1 < old(args)@.len(),
            no_flag_before(args@, i as int),
            long@ == "--output"@,
            short@ == "-o"@,
        decreases args@.len() - i,
    {
        if args[i] == long || args[i] == short {
            assert(first_flag_at(args@, i as int));
            let ghost before = args@;
            args.remove(i);
            let out = args.remove(i);
            assert(args@ == before.remove(i as int).remove(i as int));
            return Some(out);
        }
        i = i + 1;
    }
    None
}

} // verus!
