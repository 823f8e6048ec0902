//! What a recital finds wrong with the numbering of the lines: numbers that no
//! line has, and numbers that come again.
use vstd::prelude::*;
use crate::recital::{duplicate_warning, missing_warning, next_expected, Turn};
use crate::transcript::LineView;

verus! {

/// One thing wrong with the numbering.
pub enum Anomaly {
    /// No line has this number.
    Missing(nat),
    /// This number comes again.
    Duplicate(nat),
}

/// The warning that tells of `anomaly`.
pub open spec fn warning_of(anomaly: Anomaly) -> LineView {
    match anomaly {
        Anomaly::Missing(number) => missing_warning(number),
        Anomaly::Duplicate(number) => duplicate_warning(number),
    }
}

/// The numbers from `from` up to, not including, `to`, as missing.
pub open spec fn missing_run(from: nat, to: nat) -> Seq<Anomaly> {
    Seq::new(
        if to >= from {
            (to - from) as nat
        } else {
            0
        },
        |k: int| Anomaly::Missing((from + k) as nat),
    )
}

/// What is wrong with a line numbered `number` where `expected` was awaited.
pub open spec fn found(expected: nat, number: nat) -> Seq<Anomaly> {
    if number > expected {
        missing_run(expected, number)
    } else if number < expected {
        seq![Anomaly::Duplicate(number)]
    } else {
        Seq::empty()
    }
}

/// What is wrong with lines numbered `numbers`, spoken in this order, where
/// `expected` is awaited first.
pub open spec fn anomalies(numbers: Seq<nat>, expected: nat) -> Seq<Anomaly>
    decreases numbers.len(),
{
    if numbers.len() == 0 {
        Seq::empty()
    } else {
        found(expected, numbers[0]) + anomalies(
            numbers.drop_first(),
            next_expected(expected, numbers[0]),
        )
    }
}

/// The line numbers of `turns`, in their order.
pub open spec fn numbers_of(turns: Seq<Turn>) -> Seq<nat> {
    turns.map_values(|turn: Turn| turn.number)
}

/// Whether `numbers` never go down.
pub open spec fn ascending(numbers: Seq<nat>) -> bool {
    forall|i: int, j: int|
        0 <= i <= j < numbers.len() ==> #[trigger] numbers[i] <= #[trigger] numbers[j]
}

/// The numbers that `found` tells to come again, in the order of `found`.
pub open spec fn duplicates_in(found: Seq<Anomaly>) -> Seq<nat>
    decreases found.len(),
{
    if found.len() == 0 {
        Seq::empty()
    } else {
        match found[0] {
            Anomaly::Duplicate(number) => seq![number] + duplicates_in(found.drop_first()),
            Anomaly::Missing(_) => duplicates_in(found.drop_first()),
        }
    }
}

/// The numbers of `numbers` that are the number just before them, in order.
pub open spec fn repeats(numbers: Seq<nat>) -> Seq<nat>
    decreases numbers.len(),
{
    if numbers.len() < 2 {
        Seq::empty()
    } else if numbers[1] == numbers[0] {
        seq![numbers[1]] + repeats(numbers.drop_first())
    } else {
        repeats(numbers.drop_first())
    }
}

} // verus!
