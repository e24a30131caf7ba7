//! What is told of an external command that was run.
use crate::text::name_views;
use vstd::prelude::*;
use vstd::string::*;

verus! {

/// What `str::trim` of std gives for a text.
pub uninterp spec fn trimmed_of(s: Seq<char>) -> Seq<char>;

/// `str::trim` of std: `s` without the whitespace at its beginning and at
/// its end, which depends on `s` alone and is a piece of `s`.
#[verifier::external_body]
fn trimmed(s: &str) -> (r: &str)
    ensures
        r@ == trimmed_of(s@),
        is_piece_of(r@, s@),
{
    s.trim()
}

/// Whether `part` is a run of consecutive characters of `whole`.
pub open spec fn is_piece_of(part: Seq<char>, whole: Seq<char>) -> bool {
    exists|i: int, j: int| 0 <= i <= j <= whole.len() && part == #[trigger] whole.subrange(i, j)
}

/// The arguments `args`, with one space between two of them.
pub open spec fn joined_args(args: Seq<Seq<char>>) -> Seq<char>
    decreases args.len(),
{
    if args.len() == 0 {
        Seq::empty()
    } else if args.len() == 1 {
        args[0]
    } else {
        joined_args(args.drop_last()) + " "@ + args.last()
    }
}

/// The message for a command that failed: the program, its arguments, and
/// what it wrote to standard error.
pub open spec fn failure_text(program: Seq<char>, args: Seq<Seq<char>>, stderr: Seq<char>) -> Seq<
    char,
> {
    program + " "@ + joined_args(args) + " failed:\n"@ + stderr
}

/// The message for the failure of `program` with `args`, which wrote
/// `stderr`.
pub fn failure_message(program: &str, args: &Vec<String>, stderr: &str) -> (out: String)
    ensures
        out@ == failure_text(program@, name_views(args@), stderr@),
{
    let mut out = String::from_str(program);
    out.append(" ");
    let ghost head = out@;
    let ghost all = name_views(args@);
    let mut i: usize = 0;
    assert(all.take(0) =~= Seq::<Seq<char>>::empty());
    assert(head + Seq::<char>::empty() =~= head);
    while i < args.len()
        invariant
            i <= args.len(),
            all == name_views(args@),
            head == program@ + " "@,
            out@ == head + joined_args(all.take(i as int)),
        decreases args.len() - i,
    {
        if i > 0 {
            out.append(" ");
        }
        out.append(args[i].as_str());
        proof {
            let now = all.take(i + 1);
            assert(now.drop_last() =~= all.take(i as int));
            assert(now.last() == args@[i as int]@);
            assert(out@ =~= head + joined_args(now));
        }
        i = i + 1;
    }
    assert(all.take(i as int) =~= all);
    out.append(" failed:\n");
    out.append(stderr);
    out
}

/// The message for the failure of `program` with `args`: what it wrote to
/// standard error is told without the whitespace around it.
pub fn command_failure(program: &str, args: &Vec<String>, stderr: &str) -> (out: String)
    ensures
        out@ == failure_text(program@, name_views(args@), trimmed_of(stderr@)),
        is_piece_of(trimmed_of(stderr@), stderr@),
{
    failure_message(program, args, trimmed(stderr))
}

/// What a command printed, without the whitespace around it.
pub fn command_output(stdout: &str) -> (out: String)
    ensures
        out@ == trimmed_of(stdout@),
        is_piece_of(out@, stdout@),
{
    String::from_str(trimmed(stdout))
}

} // verus!
