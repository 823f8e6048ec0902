//! The recital of a scene: the players' lines merged into one sequence by their
//! numbers, and what is printed for it.
use vstd::prelude::*;
use vstd::string::StringExecFns;
use crate::player::{Player, PlayerView};
use crate::text::{decimal, decimal_string};
use crate::transcript::{blank_line, if_whinging, said, warned, LineView, Transcript};

verus! {

/// Every player of `cast` is well formed: its cursor is within its lines, and its
/// lines ascend.
pub open spec fn cast_wf(cast: Seq<PlayerView>) -> bool {
    forall|p: int| 0 <= p < cast.len() ==> #[trigger] cast[p].wf()
}

/// Whether player `i` of `cast` speaks next: it has the smallest next line number
/// of all, and is the first in the cast that has it.
pub open spec fn speaks_next(cast: Seq<PlayerView>, i: int) -> bool {
    &&& 0 <= i < cast.len()
    &&& cast[i].next_line() is Some
    &&& forall|j: int|
        0 <= j < cast.len() && #[trigger] cast[j].next_line() is Some ==> cast[i].next_line()->0
            <= cast[j].next_line()->0
    &&& forall|j: int|
        0 <= j < i && #[trigger] cast[j].next_line() is Some ==> cast[i].next_line()->0
            < cast[j].next_line()->0
}

/// The player that speaks next, if any has a line left.
pub open spec fn next_speaker(cast: Seq<PlayerView>) -> Option<int> {
    if exists|i: int| speaks_next(cast, i) {
        Some(choose|i: int| speaks_next(cast, i))
    } else {
        None
    }
}

/// One line spoken: by whom and what.
pub struct Turn {
    /// The speaker's place in the cast.
    pub player: int,
    pub name: Seq<char>,
    /// The number of the line.
    pub number: nat,
    pub text: Seq<char>,
}

/// The turn that player `i` of `cast` takes with its next line.
pub open spec fn turn_of(cast: Seq<PlayerView>, i: int) -> Turn {
    let line = cast[i].lines[cast[i].index as int];
    Turn { player: i, name: cast[i].name, number: line.0, text: line.1 }
}

/// `cast` after player `i` has spoken one line.
pub open spec fn after_turn(cast: Seq<PlayerView>, i: int) -> Seq<PlayerView> {
    cast.update(i, cast[i].stepped())
}

/// How many lines the players of `cast` have left to speak, all together.
pub open spec fn lines_left(cast: Seq<PlayerView>) -> nat
    decreases cast.len(),
{
    if cast.len() == 0 {
        0
    } else {
        lines_left(cast.drop_last()) + cast.last().left()
    }
}

/// The order in which the lines of `cast` are spoken: again and again the
/// smallest of the players' next line numbers, the earlier player first where
/// two have the same, until nobody has a line left.
pub open spec fn turns(cast: Seq<PlayerView>) -> Seq<Turn>
    decreases lines_left(cast),
    via turns_terminates
{
    match next_speaker(cast) {
        Some(i) => seq![turn_of(cast, i)] + turns(after_turn(cast, i)),
        None => Seq::empty(),
    }
}

#[via_fn]
proof fn turns_terminates(cast: Seq<PlayerView>) {
    match next_speaker(cast) {
        Some(i) => {
            lemma_lines_left_after_turn(cast, i);
        },
        None => {},
    }
}

/// `cast` with every line spoken.
pub open spec fn spent(cast: Seq<PlayerView>) -> Seq<PlayerView> {
    cast.map_values(
        |p: PlayerView|
            PlayerView {
                index: if p.index < p.lines.len() {
                    p.lines.len()
                } else {
                    p.index
                },
                ..p
            },
    )
}

/// The warning that no line is numbered `number`.
pub open spec fn missing_warning(number: nat) -> LineView {
    warned("Warning: Missing line number "@ + decimal(number))
}

/// The warning that the number `number` comes again.
pub open spec fn duplicate_warning(number: nat) -> LineView {
    warned("Warning: Duplicate line number "@ + decimal(number))
}

/// One warning for each number from `from` up to, not including, `to`.
pub open spec fn missing_warnings(from: nat, to: nat) -> Seq<LineView> {
    Seq::new(
        if to >= from {
            (to - from) as nat
        } else {
            0
        },
        |k: int| missing_warning((from + k) as nat),
    )
}

/// The warnings about a line numbered `number` where `expected` was awaited: the
/// numbers passed over are missing; a number below `expected` comes twice.
pub open spec fn numbering_warnings(expected: nat, number: nat) -> Seq<LineView> {
    if number > expected {
        missing_warnings(expected, number)
    } else if number < expected {
        seq![duplicate_warning(number)]
    } else {
        Seq::empty()
    }
}

/// The number awaited after a line numbered `number` where `expected` was.
pub open spec fn next_expected(expected: nat, number: nat) -> nat {
    if number >= expected {
        number + 1
    } else {
        expected
    }
}

/// What is printed for `turn` when `speaker` spoke last: a blank line and the
/// speaker's name with a full stop where the speaker changes, then the line.
pub open spec fn utterance_of(turn: Turn, speaker: Seq<char>) -> Seq<LineView> {
    let speech = seq![said(turn.text)];
    if speaker != turn.name {
        seq![blank_line(), said(turn.name + "."@)] + speech
    } else {
        speech
    }
}

/// What is printed for `turns` in order, where `expected` is the line number
/// awaited and `speaker` spoke last; warnings only where `whinge` is set.
pub open spec fn script(turns: Seq<Turn>, expected: nat, speaker: Seq<char>, whinge: bool) -> Seq<
    LineView,
>
    decreases turns.len(),
{
    if turns.len() == 0 {
        Seq::empty()
    } else {
        let turn = turns[0];
        if_whinging(whinge, numbering_warnings(expected, turn.number)) + utterance_of(
            turn,
            speaker,
        ) + script(turns.drop_first(), next_expected(expected, turn.number), turn.name, whinge)
    }
}

/// What the recital of `cast` prints.
#[verifier::opaque]
pub open spec fn recital(cast: Seq<PlayerView>, whinge: bool) -> Seq<LineView> {
    script(turns(cast), 0, Seq::empty(), whinge)
}

/// A turn leaves one line less to speak.
pub proof fn lemma_lines_left_after_turn(cast: Seq<PlayerView>, i: int)
    requires
        0 <= i < cast.len(),
        cast[i].next_line() is Some,
    ensures
        lines_left(after_turn(cast, i)) + 1 == lines_left(cast),
    decreases cast.len(),
{
    let after = after_turn(cast, i);
    if i == cast.len() - 1 {
        assert(after.drop_last() =~= cast.drop_last());
    } else {
        lemma_lines_left_after_turn(cast.drop_last(), i);
        assert(after.drop_last() =~= after_turn(cast.drop_last(), i));
    }
}

/// At most one player speaks next.
pub proof fn lemma_speaker_unique(cast: Seq<PlayerView>, i: int, j: int)
    requires
        speaks_next(cast, i),
        speaks_next(cast, j),
    ensures
        i == j,
{
}

/// Among the first `n` players of `cast`, the first that has the smallest next
/// line number, if any of them has a line left.
proof fn lemma_first_least(cast: Seq<PlayerView>, n: int) -> (best: Option<int>)
    requires
        0 <= n <= cast.len(),
    ensures
        match best {
            Some(i) => {
                &&& 0 <= i < n
                &&& cast[i].next_line() is Some
                &&& forall|j: int|
                    0 <= j < n && #[trigger] cast[j].next_line() is Some
                        ==> cast[i].next_line()->0 <= cast[j].next_line()->0
                &&& forall|j: int|
                    0 <= j < i && #[trigger] cast[j].next_line() is Some
                        ==> cast[i].next_line()->0 < cast[j].next_line()->0
            },
            None => forall|j: int| 0 <= j < n ==> #[trigger] cast[j].next_line() is None,
        },
    decreases n,
{
    if n == 0 {
        None
    } else {
        let before = lemma_first_least(cast, n - 1);
        match (before, cast[n - 1].next_line()) {
            (Some(i), Some(number)) => if number < cast[i].next_line()->0 {
                Some(n - 1)
            } else {
                Some(i)
            },
            (Some(i), None) => Some(i),
            (None, Some(_)) => Some(n - 1),
            (None, None) => None,
        }
    }
}

/// A player speaks next exactly while somebody has a line left.
pub proof fn lemma_next_speaker(cast: Seq<PlayerView>)
    ensures
        match next_speaker(cast) {
            Some(i) => speaks_next(cast, i),
            None => forall|j: int| 0 <= j < cast.len() ==> #[trigger] cast[j].next_line() is None,
        },
{
    match lemma_first_least(cast, cast.len() as int) {
        Some(i) => {
            assert(speaks_next(cast, i));
        },
        None => {},
    }
}

/// `now` is `then` with some more lines spoken.
pub open spec fn further_on(then: Seq<PlayerView>, now: Seq<PlayerView>) -> bool {
    &&& now.len() == then.len()
    &&& forall|i: int|
        0 <= i < then.len() ==> {
            &&& (#[trigger] now[i]).name == then[i].name
            &&& now[i].lines == then[i].lines
            &&& now[i].index >= then[i].index
            &&& now[i].wf()
        }
}

/// Finds the player that speaks next, and the number of its line.
fn next_player(cast: &Vec<Player>) -> (r: Option<(usize, usize)>)
    ensures
        cast_wf(cast.deep_view()),
        match r {
            Some((i, n)) => next_speaker(cast.deep_view()) == Some(i as int)
                && cast.deep_view()[i as int].next_line() == Some(n as nat),
            None => next_speaker(cast.deep_view()) is None,
        },
{
    let ghost all = cast.deep_view();
    let mut best: Option<(usize, usize)> = None;
    let mut i: usize = 0;
    while i < cast.len()
        invariant
            i <= cast.len(),
            all == cast.deep_view(),
            forall|k: int| 0 <= k < i ==> #[trigger] all[k].wf(),
            match best {
                Some((b, n)) => {
                    &&& b < i
                    &&& all[b as int].next_line() == Some(n as nat)
                    &&& forall|j: int|
                        0 <= j < i && #[trigger] all[j].next_line() is Some ==> n
                            <= all[j].next_line()->0
                    &&& forall|j: int|
                        0 <= j < b && #[trigger] all[j].next_line() is Some ==> n
                            < all[j].next_line()->0
                },
                None => forall|j: int| 0 <= j < i ==> #[trigger] all[j].next_line() is None,
            },
        decreases cast.len() - i,
    {
        match cast[i].next_line() {
            Some(n) => {
                let better = match best {
                    Some((_, least)) => n < least,
                    None => true,
                };
                if better {
                    best = Some((i, n));
                }
            },
            None => {},
        }
        i += 1;
    }
    proof {
        match best {
            Some((b, n)) => {
                assert(speaks_next(all, b as int));
                lemma_next_speaker(all);
                lemma_speaker_unique(all, b as int, next_speaker(all)->0);
            },
            None => {
                assert forall|j: int| !speaks_next(all, j) by {}
            },
        }
    }
    best
}

/// Warns of each line number from `from` up to, not including, `to`.
fn warn_missing(from: usize, to: usize, out: &mut Transcript)
    requires
        from <= to,
    ensures
        final(out)@ == old(out)@ + if_whinging(
            old(out).whinges(),
            missing_warnings(from as nat, to as nat),
        ),
        final(out).whinges() == old(out).whinges(),
{
    if !out.whinge() {
        assert(out@ =~= old(out)@ + Seq::<LineView>::empty());
        return ;
    }
    let mut missing: usize = from;
    proof {
        assert(out@ =~= old(out)@ + missing_warnings(from as nat, from as nat));
    }
    while missing < to
        invariant
            from <= missing <= to,
            out.whinges(),
            out.whinges() == old(out).whinges(),
            out@ == old(out)@ + missing_warnings(from as nat, missing as nat),
        decreases to - missing,
    {
        out.warn(String::from_str("Warning: Missing line number ").concat(
            decimal_string(missing).as_str(),
        ));
        proof {
            assert(out@ =~= old(out)@ + missing_warnings(from as nat, (missing + 1) as nat));
        }
        missing += 1;
    }
}

/// Recites `cast`: the players speak their lines in the order of the line
/// numbers, the earlier player first where two have the same, each line once,
/// until none is left. A warning goes with every line number that is passed over
/// or comes again.
pub fn recite(cast: &mut Vec<Player>, out: &mut Transcript)
    ensures
        cast_wf(old(cast).deep_view()),
        final(out)@ == old(out)@ + recital(old(cast).deep_view(), old(out).whinges()),
        final(out).whinges() == old(out).whinges(),
        final(cast).deep_view() == spent(old(cast).deep_view()),
{
    reveal(recital);
    let ghost whinge = out.whinges();
    let ghost start = cast.deep_view();
    let mut current_speaker = String::new();
    let mut expected: u128 = 0;
    let mut pick = next_player(cast);
    loop
        invariant
            further_on(start, cast.deep_view()),
            expected <= usize::MAX + 1,
            out.whinges() == whinge,
            old(out)@ + recital(start, whinge) == out@ + script(
                turns(cast.deep_view()),
                expected as nat,
                current_speaker@,
                whinge,
            ),
            match pick {
                Some((i, n)) => next_speaker(cast.deep_view()) == Some(i as int)
                    && cast.deep_view()[i as int].next_line() == Some(n as nat),
                None => next_speaker(cast.deep_view()) is None,
            },
        ensures
            pick is None,
        decreases lines_left(cast.deep_view()),
    {
        let (idx, actual) = match pick {
            Some(found) => found,
            None => {
                break ;
            },
        };
        let ghost before = cast.deep_view();
        let ghost turn = turn_of(before, idx as int);
        let ghost printed = out@;
        let ghost awaited = expected as nat;
        let ghost speaker = current_speaker@;
        proof {
            lemma_next_speaker(before);
            assert(turns(before).drop_first() =~= turns(after_turn(before, idx as int)));
        }
        let number = actual as u128;
        if number > expected {
            warn_missing(expected as usize, actual, out);
            expected = number + 1;
        } else if number == expected {
            expected = expected + 1;
            assert(out@ =~= printed + if_whinging(
                whinge,
                numbering_warnings(awaited, actual as nat),
            ));
        } else {
            if out.whinge() {
                out.warn(String::from_str("Warning: Duplicate line number ").concat(
                    decimal_string(actual).as_str(),
                ));
            }
            assert(out@ =~= printed + if_whinging(
                whinge,
                numbering_warnings(awaited, actual as nat),
            ));
        }
        cast[idx].speak(&mut current_speaker, out);
        proof {
            let after = cast.deep_view();
            assert(after =~= after_turn(before, idx as int));
            lemma_lines_left_after_turn(before, idx as int);
            assert(before[idx as int].utterance(speaker) == utterance_of(turn, speaker));
            assert(out@ =~= printed + (if_whinging(
                whinge,
                numbering_warnings(awaited, actual as nat),
            ) + utterance_of(turn, speaker)));
            assert(old(out)@ + recital(start, whinge) =~= out@ + script(
                turns(after),
                expected as nat,
                current_speaker@,
                whinge,
            ));
        }
        pick = next_player(cast);
    }
    proof {
        let end = cast.deep_view();
        lemma_next_speaker(end);
        assert(out@ =~= old(out)@ + recital(start, whinge));
        assert forall|i: int| 0 <= i < end.len() implies end[i] == spent(start)[i] by {
            assert(end[i].next_line() is None);
        }
        assert(end =~= spent(start));
    }
}

} // verus!
