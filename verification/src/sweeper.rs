//! The idle sweeper: what one periodic pass over the store does.
//!
//! A pass has two halves. [`sweep`] takes the idle transfers out of the store
//! and is meant to run while the store is locked; [`assemble_drained`] turns
//! what was taken out into files or failures and needs no lock. A transfer
//! that fails to assemble is gone: nothing is retried.

use crate::assembler::{
    assemble_file, assembled, outcome, AssemblyError, CompletedFile,
};
use crate::store::{
    active, ascending, idle, indexed, selected, transfer_views, Transfer, TransferStore,
};
use vstd::prelude::*;
use vstd::string::StringExecFns;

verus! {

/// A transfer is handed to the assembler once it has been idle for more than
/// this many milliseconds.
pub const IDLE_THRESHOLD_MILLIS: u64 = 5000;

/// Milliseconds between two passes.
pub const SWEEP_INTERVAL_MILLIS: u64 = 1000;

/// What became of one drained transfer.
#[derive(Debug, PartialEq, Eq)]
pub struct SweepOutcome {
    /// The id of the transfer.
    pub id: String,
    /// The file to hand on, or the reason why the transfer was discarded.
    pub result: Result<CompletedFile, AssemblyError>,
}

/// The first half of a pass: removes from the store every transfer that has
/// been idle for more than [`IDLE_THRESHOLD_MILLIS`] at time `now`.
pub fn sweep(store: &mut TransferStore, now: u64) -> (drained: Vec<Transfer>)
    ensures
        final(store)@ == selected(old(store)@, active(IDLE_THRESHOLD_MILLIS, now)),
        final(store).ordered() == old(store).ordered().filter(active(IDLE_THRESHOLD_MILLIS, now)),
        transfer_views(drained@) == old(store).ordered().filter(idle(IDLE_THRESHOLD_MILLIS, now)),
        ascending(transfer_views(drained@)),
        indexed(transfer_views(drained@)) == selected(
            old(store)@,
            idle(IDLE_THRESHOLD_MILLIS, now),
        ),
{
    store.drain_idle(IDLE_THRESHOLD_MILLIS, now)
}

/// The second half of a pass: assembles each drained transfer, in the order
/// given. Every transfer yields exactly one outcome, and every file is stamped
/// with `completed_at`, the time of the pass in seconds since the Unix epoch.
pub fn assemble_drained(drained: &Vec<Transfer>, completed_at: i64) -> (outcomes: Vec<
    SweepOutcome,
>)
    ensures
        outcomes.len() == drained.len(),
        forall|i: int|
            0 <= i < drained.len() ==> {
                &&& (#[trigger] outcomes[i]).id@ == drained[i]@.id
                &&& outcome(outcomes[i].result) == assembled(drained[i]@.id, drained[i]@.fragments)
                &&& outcomes[i].result matches Ok(file) ==> file.completed_at == completed_at
            },
{
    let mut outcomes: Vec<SweepOutcome> = Vec::new();
    let mut i: usize = 0;
    while i < drained.len()
        invariant
            i <= drained.len(),
            outcomes.len() == i,
            forall|j: int|
                0 <= j < i ==> {
                    &&& (#[trigger] outcomes[j]).id@ == drained[j]@.id
                    &&& outcome(outcomes[j].result) == assembled(
                        drained[j]@.id,
                        drained[j]@.fragments,
                    )
                    &&& outcomes[j].result matches Ok(file) ==> file.completed_at == completed_at
                },
        decreases drained.len() - i,
    {
        let transfer = &drained[i];
        let result = assemble_file(transfer.id.as_str(), &transfer.fragments, completed_at);
        outcomes.push(SweepOutcome { id: transfer.id.clone(), result });
        i += 1;
    }
    outcomes
}

/// The decimal digit for a value below ten.
pub open spec fn digit_char(d: nat) -> char {
    (48 + d) as char
}

/// Decimal text of a natural number, without leading zeros.
pub open spec fn digits_text(n: nat) -> Seq<char>
    decreases n,
{
    if n < 10 {
        seq![digit_char(n)]
    } else {
        digits_text(n / 10).push(digit_char(n % 10))
    }
}

/// Decimal text of an integer, with a leading `-` where it is negative.
pub open spec fn decimal_text(n: int) -> Seq<char> {
    if n < 0 {
        seq!['-'] + digits_text((-n) as nat)
    } else {
        digits_text(n as nat)
    }
}

/// The name under which a completed file is written to disk:
/// `transmitted_`, the completion time in seconds, `_`, the file name.
pub open spec fn dump_name(completed_at: i64, filename: Seq<char>) -> Seq<char> {
    "transmitted_"@ + decimal_text(completed_at as int) + seq!['_'] + filename
}

/// Appends the decimal text of `n`.
fn push_digits(out: &mut String, n: u64)
    ensures
        final(out)@ == old(out)@ + digits_text(n as nat),
    decreases n,
{
    if n >= 10 {
        push_digits(out, n / 10);
    }
    let d: u8 = (n % 10) as u8;
    out.push((48 + d) as char);
    proof {
        assert(final(out)@ =~= old(out)@ + digits_text(n as nat)) by {
            if n >= 10 {
                assert(old(out)@ + digits_text((n / 10) as nat).push(digit_char((n % 10) as nat))
                    =~= (old(out)@ + digits_text((n / 10) as nat)).push(
                    digit_char((n % 10) as nat),
                ));
            }
        }
    }
}

/// The name under which the disk sink stores a completed file.
pub fn dump_file_name(file: &CompletedFile) -> (name: String)
    ensures
        name@ == dump_name(file.completed_at, file.filename@),
{
    let mut name = String::from_str("transmitted_");
    let at: i64 = file.completed_at;
    if at < 0 {
        name.push('-');
        let magnitude: u64 = (-(at + 1)) as u64 + 1;
        push_digits(&mut name, magnitude);
    } else {
        push_digits(&mut name, at as u64);
    }
    name.push('_');
    name.append(file.filename.as_str());
    proof {
        assert(name@ =~= dump_name(file.completed_at, file.filename@));
    }
    name
}

} // verus!
