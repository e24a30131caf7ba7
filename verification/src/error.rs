//! What makes a run stop before any branch is touched, and how it is told.
use crate::descriptor::{views, PrInfo, PrView};
use crate::text::{decimal, push_decimal};
use vstd::prelude::*;
use vstd::string::*;

verus! {

/// Why no execution order or no set of descriptors could be had.
#[derive(Debug)]
pub enum RestackError {
    /// No descriptor among these can be placed: each waits for another of them.
    CircularDependency(Vec<PrInfo>),
    /// No checked-out branch has an open pull request.
    NoOpenPrs,
    /// The pull request with this number is in this state, which is not open.
    NotOpen(u32, String),
}

/// What `str::to_lowercase` of std gives for a text.
pub uninterp spec fn lowercase_of(s: Seq<char>) -> Seq<char>;

/// `str::to_lowercase` of std: the lowercase form of `s`, which depends on
/// `s` alone.
#[verifier::external_body]
fn lowercase(s: &str) -> (r: String)
    ensures
        r@ == lowercase_of(s@),
{
    s.to_lowercase()
}

/// The line that names one pull request of a cycle.
pub open spec fn cycle_entry(p: PrView) -> Seq<char> {
    "PR #"@ + decimal(p.number as nat) + " ("@ + p.head + " → "@ + p.base + ")"@
}

/// The lines that name the pull requests `r`, each but the first on a new,
/// indented line.
pub open spec fn cycle_entries(r: Seq<PrView>) -> Seq<char>
    decreases r.len(),
{
    if r.len() == 0 {
        Seq::empty()
    } else if r.len() == 1 {
        cycle_entry(r[0])
    } else {
        cycle_entries(r.drop_last()) + "\n  "@ + cycle_entry(r.last())
    }
}

/// The message for a cycle among `r`.
pub open spec fn cycle_message(r: Seq<PrView>) -> Seq<char> {
    "circular dependency detected among PRs:\n  "@ + cycle_entries(r)
}

/// The message for a pull request `number` whose state, in lowercase, is
/// `lowered`.
pub open spec fn not_open_text(number: u32, lowered: Seq<char>) -> Seq<char> {
    "PR #"@ + decimal(number as nat) + " is "@ + lowered + ", not open"@
}

/// The message where no open pull request was found.
pub open spec fn no_open_prs_text() -> Seq<char> {
    "no open PRs found for checked-out worktree branches"@
}

/// The message for a cycle among `rest`.
pub fn cycle_message_of(rest: &Vec<PrInfo>) -> (out: String)
    ensures
        out@ == cycle_message(views(rest@)),
{
    let mut out = String::from_str("circular dependency detected among PRs:\n  ");
    let ghost header = out@;
    let ghost all = views(rest@);
    let mut i: usize = 0;
    assert(all.take(0) =~= Seq::<PrView>::empty());
    assert(header + Seq::<char>::empty() =~= header);
    while i < rest.len()
        invariant
            i <= rest.len(),
            all == views(rest@),
            header == "circular dependency detected among PRs:\n  "@,
            out@ == header + cycle_entries(all.take(i as int)),
        decreases rest.len() - i,
    {
        let ghost before = out@;
        if i > 0 {
            out.append("\n  ");
        }
        out.append("PR #");
        push_decimal(&mut out, rest[i].number);
        out.append(" (");
        out.append(rest[i].head_ref.as_str());
        out.append(" → ");
        out.append(rest[i].base_ref.as_str());
        out.append(")");
        proof {
            let now = all.take(i + 1);
            assert(now.drop_last() =~= all.take(i as int));
            assert(now.last() == rest@[i as int]@);
            if i > 0 {
                assert(out@ =~= before + "\n  "@ + cycle_entry(now.last()));
            } else {
                assert(out@ =~= before + cycle_entry(now[0]));
            }
            assert(out@ =~= header + cycle_entries(now));
        }
        i = i + 1;
    }
    assert(all.take(i as int) =~= all);
    out
}

/// The message for a pull request `number` that is not open, from its state
/// in lowercase.
pub fn not_open_message(number: u32, lowered: &str) -> (out: String)
    ensures
        out@ == not_open_text(number, lowered@),
{
    let mut out = String::from_str("PR #");
    push_decimal(&mut out, number);
    out.append(" is ");
    out.append(lowered);
    out.append(", not open");
    out
}

impl RestackError {
    /// The message of this error.
    pub open spec fn message_text(&self) -> Seq<char> {
        match self {
            RestackError::CircularDependency(rest) => cycle_message(views(rest@)),
            RestackError::NoOpenPrs => no_open_prs_text(),
            RestackError::NotOpen(number, state) => not_open_text(*number, lowercase_of(state@)),
        }
    }

    /// What the operator is told.
    pub fn message(&self) -> (out: String)
        ensures
            out@ == self.message_text(),
    {
        match self {
            RestackError::CircularDependency(rest) => cycle_message_of(rest),
            RestackError::NoOpenPrs => String::from_str(
                "no open PRs found for checked-out worktree branches",
            ),
            RestackError::NotOpen(number, state) => {
                let lowered = lowercase(state.as_str());
                not_open_message(*number, lowered.as_str())
            },
        }
    }
}

} // verus!
