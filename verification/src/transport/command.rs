//! The commands that the bot understands, and how the argument of `/paid`
//! is read.
use vstd::prelude::*;

verus! {

/// The commands of the bot.
pub enum Command {
    /// Display the list of commands.
    Help,
    /// Start a new party.
    Start,
    /// Add an expense to the party: the amount, then an optional
    /// description after the first space.
    Paid(String),
    /// Include the sender in the party.
    Part(String),
    /// Finish the party and calculate the splits.
    End,
}

/// Splits the argument of `/paid` at its first space: the amount before it
/// and the description after it, or the whole argument and no description
/// when it holds no space.
pub fn split_paid_args(args: &str) -> (r: (String, Option<String>))
    ensures
        match r.1 {
            None => r.0@ == args@ && forall|i: int| 0 <= i < args@.len() ==> args@[i] != ' ',
            Some(rest) => exists|p: int|
                0 <= p < args@.len() && args@[p] == ' ' && (forall|q: int|
                    0 <= q < p ==> args@[q] != ' ') && r.0@ == args@.take(p) && rest@ == args@.skip(
                    p + 1,
                ),
        },
{
    let n = args.unicode_len();
    let mut p: usize = 0;
    while p < n
        invariant
            p <= n,
            n == args@.len(),
            forall|q: int| 0 <= q < p ==> args@[q] != ' ',
        decreases n - p,
    {
        if args.get_char(p) == ' ' {
            let amount = args.substring_char(0, p).to_owned();
            let description = args.substring_char(p + 1, n).to_owned();
            assert(args@.take(p as int) =~= args@.subrange(0, p as int));
            assert(args@.skip(p + 1) =~= args@.subrange(p + 1, n as int));
            return (amount, Some(description));
        }
        p = p + 1;
    }
    (args.to_owned(), None)
}

} // verus!
