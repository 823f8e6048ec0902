//! What holds of every recital, every play and every request: stated over the
//! models that the contracts of the library speak of, and proved.
use vstd::prelude::*;
use crate::numbering::{
    anomalies, ascending, duplicates_in, found, missing_run, numbers_of, repeats, warning_of,
    Anomaly,
};
use crate::play::{performance, performance_upto, scene_closing, scene_lines, scene_opening};
use crate::player::{line_le, lines_sorted, PlayerView, Speech};
use crate::recital::{
    after_turn, cast_wf, lemma_lines_left_after_turn, lemma_next_speaker, lines_left, next_expected,
    next_speaker, numbering_warnings, recital, script, turns, utterance_of, Turn,
};
use crate::scene_fragment::{
    absent_from, cast_from, cast_sorted, enter_line, entrances, exit_line, exits, rank_le,
    with_key, SceneView,
};
use crate::script_gen::{lemma_colon_at_is, request_for, resolved, SourceView};
use crate::server::{is_safe, request_of, RequestView};
use crate::text::{
    drop_trailing_space, is_blank, is_space, lemma_text_le_antisymmetric, lemma_text_le_reflexive,
    skip_space, tokens, trimmed,
};
use crate::transcript::{asides, blank_line, on_channel, stage_lines, Channel, LineView};

verus! {

proof fn lemma_after_turn_wf(cast: Seq<PlayerView>, i: int)
    requires
        cast_wf(cast),
        0 <= i < cast.len(),
        cast[i].next_line() is Some,
    ensures
        cast_wf(after_turn(cast, i)),
{
    let after = after_turn(cast, i);
    assert forall|p: int| 0 <= p < after.len() implies #[trigger] after[p].wf() by {
        assert(cast[p].wf());
    }
}

/// Every line that is left is spoken, and once.
pub proof fn lemma_every_line_is_spoken(cast: Seq<PlayerView>)
    ensures
        turns(cast).len() == lines_left(cast),
    decreases lines_left(cast),
{
    lemma_next_speaker(cast);
    match next_speaker(cast) {
        Some(i) => {
            lemma_lines_left_after_turn(cast, i);
            lemma_every_line_is_spoken(after_turn(cast, i));
        },
        None => {
            lemma_nothing_left(cast);
        },
    }
}

proof fn lemma_nothing_left(cast: Seq<PlayerView>)
    requires
        forall|j: int| 0 <= j < cast.len() ==> (#[trigger] cast[j].next_line()) is None,
    ensures
        lines_left(cast) == 0,
    decreases cast.len(),
{
    if cast.len() > 0 {
        let head = cast.drop_last();
        assert forall|j: int| 0 <= j < head.len() implies (#[trigger] head[j].next_line())
            is None by {
            assert(head[j] == cast[j]);
            assert(cast[j].next_line() is None);
        }
        lemma_nothing_left(head);
        assert(cast.last().next_line() is None);
    }
}

/// The lines among `turns` that player `p` speaks, in the order of `turns`.
pub open spec fn part_of(turns: Seq<Turn>, p: int) -> Seq<Speech>
    decreases turns.len(),
{
    if turns.len() == 0 {
        Seq::empty()
    } else if turns[0].player == p {
        seq![(turns[0].number, turns[0].text)] + part_of(turns.drop_first(), p)
    } else {
        part_of(turns.drop_first(), p)
    }
}

/// Every player speaks its part in full and in order: the lines that player
/// `p` speaks in a recital are its lines from the cursor on, each once, as they
/// stand.
pub proof fn lemma_each_part_is_spoken_in_full(cast: Seq<PlayerView>, p: int)
    requires
        cast_wf(cast),
        0 <= p < cast.len(),
    ensures
        part_of(turns(cast), p) == cast[p].lines.skip(cast[p].index as int),
    decreases lines_left(cast),
{
    let player = cast[p];
    assert(player.wf());
    lemma_next_speaker(cast);
    match next_speaker(cast) {
        Some(i) => {
            let after = after_turn(cast, i);
            lemma_lines_left_after_turn(cast, i);
            lemma_after_turn_wf(cast, i);
            lemma_each_part_is_spoken_in_full(after, p);
            assert(turns(cast).drop_first() =~= turns(after));
            if p == i {
                assert(seq![player.lines[player.index as int]] + player.lines.skip(
                    player.index as int + 1,
                ) =~= player.lines.skip(player.index as int));
            }
        },
        None => {
            assert(player.next_line() is None);
            assert(player.lines.skip(player.index as int) =~= Seq::<Speech>::empty());
        },
    }
}

/// Turn `k` of a recital speaks a line of its player that stands at the cursor
/// or behind it.
pub proof fn lemma_turn_is_a_line_left(cast: Seq<PlayerView>, k: int) -> (at: int)
    requires
        0 <= k < turns(cast).len(),
    ensures
        ({
            let turn = turns(cast)[k];
            &&& 0 <= turn.player < cast.len()
            &&& turn.name == cast[turn.player].name
            &&& cast[turn.player].index <= at < cast[turn.player].lines.len()
            &&& cast[turn.player].lines[at] == (turn.number, turn.text)
        }),
    decreases lines_left(cast),
{
    lemma_next_speaker(cast);
    let i = next_speaker(cast)->0;
    if k == 0 {
        cast[i].index as int
    } else {
        let after = after_turn(cast, i);
        lemma_lines_left_after_turn(cast, i);
        assert(turns(cast)[k] == turns(after)[k - 1]);
        lemma_turn_is_a_line_left(after, k - 1)
    }
}

/// The lines of a recital come in ascending order of their numbers, whoever
/// speaks them.
pub proof fn lemma_turns_ascend(cast: Seq<PlayerView>, a: int, b: int)
    requires
        cast_wf(cast),
        0 <= a < b < turns(cast).len(),
    ensures
        turns(cast)[a].number <= turns(cast)[b].number,
    decreases lines_left(cast),
{
    lemma_next_speaker(cast);
    let i = next_speaker(cast)->0;
    let after = after_turn(cast, i);
    lemma_lines_left_after_turn(cast, i);
    lemma_after_turn_wf(cast, i);
    assert(turns(cast)[b] == turns(after)[b - 1]);
    if a == 0 {
        let at = lemma_turn_is_a_line_left(after, b - 1);
        let p = turns(after)[b - 1].player;
        let player = cast[p];
        assert(player.wf());
        assert(after[p].lines == player.lines);
        assert(after[p].index >= player.index);
        assert(player.next_line() is Some);
        if player.index < at {
            assert(line_le(player.lines[player.index as int], player.lines[at]));
        }
        assert(cast[i].next_line()->0 <= player.next_line()->0);
    } else {
        assert(turns(cast)[a] == turns(after)[a - 1]);
        lemma_turns_ascend(after, a - 1, b - 1);
    }
}

/// The lines that one player speaks come in ascending order of their numbers.
pub proof fn lemma_each_player_speaks_in_order(cast: Seq<PlayerView>, a: int, b: int)
    requires
        cast_wf(cast),
        0 <= a < b < turns(cast).len(),
        turns(cast)[a].player == turns(cast)[b].player,
    ensures
        turns(cast)[a].number <= turns(cast)[b].number,
{
    lemma_turns_ascend(cast, a, b);
}

/// Of lines that are all printed on one channel, that channel gets all and the
/// other none.
proof fn lemma_one_channel(lines: Seq<LineView>, channel: Channel, other: Channel)
    requires
        forall|i: int| 0 <= i < lines.len() ==> (#[trigger] lines[i]).channel == channel,
        other != channel,
    ensures
        on_channel(lines, channel) == lines,
        on_channel(lines, other) == Seq::<LineView>::empty(),
    decreases lines.len(),
{
    if lines.len() > 0 {
        let head = lines.drop_last();
        assert forall|i: int| 0 <= i < head.len() implies (#[trigger] head[i]).channel
            == channel by {
            assert(head[i] == lines[i]);
        }
        lemma_one_channel(head, channel, other);
        assert(head.push(lines.last()) =~= lines);
    } else {
        assert(lines =~= Seq::<LineView>::empty());
    }
}

/// Lines that are all of the play are what the audience gets, and hold no
/// warning.
pub proof fn lemma_all_stage(lines: Seq<LineView>)
    requires
        forall|i: int| 0 <= i < lines.len() ==> (#[trigger] lines[i]).channel == Channel::Stage,
    ensures
        stage_lines(lines) == lines,
        asides(lines) == Seq::<LineView>::empty(),
{
    lemma_one_channel(lines, Channel::Stage, Channel::Aside);
}

/// Lines that are all warnings leave nothing for the audience.
pub proof fn lemma_all_asides(lines: Seq<LineView>)
    requires
        forall|i: int| 0 <= i < lines.len() ==> (#[trigger] lines[i]).channel == Channel::Aside,
    ensures
        stage_lines(lines) == Seq::<LineView>::empty(),
        asides(lines) == lines,
{
    lemma_one_channel(lines, Channel::Aside, Channel::Stage);
}

proof fn lemma_on_channel_add(a: Seq<LineView>, b: Seq<LineView>, channel: Channel)
    ensures
        on_channel(a + b, channel) == on_channel(a, channel) + on_channel(b, channel),
    decreases b.len(),
{
    if b.len() == 0 {
        assert(a + b =~= a);
        assert(on_channel(a, channel) + on_channel(b, channel) =~= on_channel(a, channel));
    } else {
        let head = b.drop_last();
        lemma_on_channel_add(a, head, channel);
        assert((a + b).drop_last() =~= a + head);
        assert((a + b).last() == b.last());
        assert((on_channel(a, channel) + on_channel(head, channel)).push(b.last()) =~= on_channel(
            a,
            channel,
        ) + on_channel(head, channel).push(b.last()));
    }
}

/// What the audience gets of lines put together is what it gets of each.
pub proof fn lemma_stage_lines_add(a: Seq<LineView>, b: Seq<LineView>)
    ensures
        stage_lines(a + b) == stage_lines(a) + stage_lines(b),
        asides(a + b) == asides(a) + asides(b),
{
    lemma_on_channel_add(a, b, Channel::Stage);
    lemma_on_channel_add(a, b, Channel::Aside);
}

proof fn lemma_numbering_warnings_are_asides(expected: nat, number: nat)
    ensures
        stage_lines(numbering_warnings(expected, number)) == Seq::<LineView>::empty(),
{
    lemma_all_asides(numbering_warnings(expected, number));
}

proof fn lemma_utterance_is_stage(turn: Turn, speaker: Seq<char>)
    ensures
        stage_lines(utterance_of(turn, speaker)) == utterance_of(turn, speaker),
        asides(utterance_of(turn, speaker)) == Seq::<LineView>::empty(),
{
    lemma_all_stage(utterance_of(turn, speaker));
}

/// What stays of `warnings + spoken + rest` for the audience, where `warnings`
/// are warnings and `spoken` is of the play.
proof fn lemma_stage_lines_of_a_turn(
    warnings: Seq<LineView>,
    spoken: Seq<LineView>,
    rest: Seq<LineView>,
)
    requires
        stage_lines(warnings) == Seq::<LineView>::empty(),
        stage_lines(spoken) == spoken,
    ensures
        stage_lines(warnings + spoken + rest) == spoken + stage_lines(rest),
{
    lemma_stage_lines_add(warnings + spoken, rest);
    lemma_stage_lines_add(warnings, spoken);
    assert(Seq::<LineView>::empty() + spoken =~= spoken);
}

proof fn lemma_asides_of_a_quiet_turn(spoken: Seq<LineView>, rest: Seq<LineView>)
    requires
        asides(spoken) == Seq::<LineView>::empty(),
        asides(rest) == Seq::<LineView>::empty(),
    ensures
        asides(Seq::<LineView>::empty() + spoken + rest) == Seq::<LineView>::empty(),
{
    assert(Seq::<LineView>::empty() + spoken =~= spoken);
    lemma_stage_lines_add(spoken, rest);
    assert(Seq::<LineView>::empty() + Seq::<LineView>::empty() =~= Seq::<LineView>::empty());
}

/// Warnings are printed only where they are asked for, and asking for them
/// changes nothing of what is spoken, nor its order: without its warnings, what
/// `turns` print with warnings is what they print without.
pub proof fn lemma_warnings_change_nothing(turns: Seq<Turn>, expected: nat, speaker: Seq<char>)
    ensures
        stage_lines(script(turns, expected, speaker, true)) == script(
            turns,
            expected,
            speaker,
            false,
        ),
        asides(script(turns, expected, speaker, false)) == Seq::<LineView>::empty(),
    decreases turns.len(),
{
    if turns.len() == 0 {
        lemma_all_stage(Seq::<LineView>::empty());
    } else {
        let turn = turns[0];
        let warnings = numbering_warnings(expected, turn.number);
        let nothing = Seq::<LineView>::empty();
        let spoken = utterance_of(turn, speaker);
        let then = next_expected(expected, turn.number);
        let rest_loud = script(turns.drop_first(), then, turn.name, true);
        let rest_quiet = script(turns.drop_first(), then, turn.name, false);
        lemma_warnings_change_nothing(turns.drop_first(), then, turn.name);
        lemma_numbering_warnings_are_asides(expected, turn.number);
        lemma_utterance_is_stage(turn, speaker);
        lemma_stage_lines_of_a_turn(warnings, spoken, rest_loud);
        lemma_asides_of_a_quiet_turn(spoken, rest_quiet);
        assert(script(turns, expected, speaker, true) == warnings + spoken + rest_loud);
        assert(script(turns, expected, speaker, false) == nothing + spoken + rest_quiet);
        assert(nothing + spoken + rest_quiet =~= spoken + rest_quiet);
    }
}

/// A scene recited with warnings shows the audience what it shows without:
/// who speaks, what, and in which order.
pub proof fn lemma_recital_whatever_the_warnings(cast: Seq<PlayerView>)
    ensures
        stage_lines(recital(cast, true)) == recital(cast, false),
        asides(recital(cast, false)) == Seq::<LineView>::empty(),
{
    reveal(recital);
    lemma_warnings_change_nothing(turns(cast), 0, Seq::empty());
}

/// Lines that hold no warning.
pub open spec fn warning_free(lines: Seq<LineView>) -> bool {
    stage_lines(lines) == lines && asides(lines) == Seq::<LineView>::empty()
}

proof fn lemma_warning_free_add(a: Seq<LineView>, b: Seq<LineView>)
    requires
        warning_free(a),
        warning_free(b),
    ensures
        warning_free(a + b),
{
    lemma_stage_lines_add(a, b);
    assert(Seq::<LineView>::empty() + Seq::<LineView>::empty() =~= Seq::<LineView>::empty());
}

proof fn lemma_entrances_are_stage(names: Seq<Seq<char>>, present: Seq<Seq<char>>)
    ensures
        warning_free(entrances(names, present)),
{
    let absent = absent_from(names, present);
    let lines = absent.map_values(|n: Seq<char>| enter_line(n));
    assert forall|i: int| 0 <= i < lines.len() implies (#[trigger] lines[i]).channel
        == Channel::Stage by {
        assert(lines[i] == enter_line(absent[i]));
    }
    lemma_all_stage(lines);
}

proof fn lemma_exits_are_stage(names: Seq<Seq<char>>, staying: Seq<Seq<char>>)
    ensures
        warning_free(exits(names, staying)),
{
    let absent = absent_from(names.reverse(), staying);
    let lines = absent.map_values(|n: Seq<char>| exit_line(n));
    assert forall|i: int| 0 <= i < lines.len() implies (#[trigger] lines[i]).channel
        == Channel::Stage by {
        assert(lines[i] == exit_line(absent[i]));
    }
    lemma_all_stage(lines);
}

proof fn lemma_title_is_stage(scene: SceneView, is_first: bool)
    ensures
        warning_free(scene.title_lines(is_first)),
{
    let lines = scene.title_lines(is_first);
    let named = crate::transcript::said(scene.title);
    if !scene.has_title() {
        assert(lines =~= Seq::<LineView>::empty());
    } else if is_first {
        assert(lines =~= seq![named, blank_line()]);
    } else {
        assert(lines =~= seq![blank_line(), named, blank_line()]);
    }
    assert forall|i: int| 0 <= i < lines.len() implies (#[trigger] lines[i]).channel
        == Channel::Stage by {
        if lines.len() == 2 {
            assert(lines[0] == named && lines[1] == blank_line());
        } else if lines.len() == 3 {
            assert(lines[0] == blank_line() && lines[1] == named && lines[2] == blank_line());
        }
    }
    lemma_all_stage(lines);
}

proof fn lemma_opening_is_stage(fragments: Seq<SceneView>, i: int)
    requires
        0 <= i < fragments.len(),
    ensures
        warning_free(scene_opening(fragments, i)),
{
    reveal(scene_opening);
    let scene = fragments[i];
    if i == 0 {
        lemma_title_is_stage(scene, true);
        lemma_entrances_are_stage(scene.names(), Seq::empty());
        lemma_warning_free_add(scene.title_lines(true), entrances(scene.names(), Seq::empty()));
    } else {
        let present = fragments[i - 1].names();
        lemma_title_is_stage(scene, false);
        lemma_entrances_are_stage(scene.names(), present);
        lemma_warning_free_add(scene.title_lines(false), entrances(scene.names(), present));
    }
}

proof fn lemma_closing_is_stage(fragments: Seq<SceneView>, i: int)
    requires
        0 <= i < fragments.len(),
    ensures
        warning_free(scene_closing(fragments, i)),
{
    reveal(scene_closing);
    let scene = fragments[i];
    if i == fragments.len() - 1 {
        lemma_exits_are_stage(scene.names(), Seq::empty());
    } else {
        lemma_exits_are_stage(scene.names(), fragments[i + 1].names());
    }
}

/// What stays of a scene for the audience, where its directions are of the play.
proof fn lemma_stage_lines_of_a_scene(
    enter: Seq<LineView>,
    spoken: Seq<LineView>,
    leave: Seq<LineView>,
)
    requires
        warning_free(enter),
        warning_free(leave),
    ensures
        stage_lines(enter + spoken + seq![blank_line()] + leave) == enter + stage_lines(spoken)
            + seq![blank_line()] + leave,
        asides(enter + spoken + seq![blank_line()] + leave) == asides(spoken),
{
    let pause = seq![blank_line()];
    lemma_all_stage(pause);
    lemma_stage_lines_add(enter + spoken + pause, leave);
    lemma_stage_lines_add(enter + spoken, pause);
    lemma_stage_lines_add(enter, spoken);
    let nothing = Seq::<LineView>::empty();
    assert(nothing + asides(spoken) + nothing + nothing =~= asides(spoken));
}

proof fn lemma_scene_whatever_the_warnings(fragments: Seq<SceneView>, i: int)
    requires
        0 <= i < fragments.len(),
    ensures
        stage_lines(scene_lines(fragments, i, true)) == scene_lines(fragments, i, false),
        asides(scene_lines(fragments, i, false)) == Seq::<LineView>::empty(),
{
    let cast = fragments[i].cast;
    let enter = scene_opening(fragments, i);
    let leave = scene_closing(fragments, i);
    lemma_recital_whatever_the_warnings(cast);
    lemma_opening_is_stage(fragments, i);
    lemma_closing_is_stage(fragments, i);
    lemma_stage_lines_of_a_scene(enter, recital(cast, true), leave);
    lemma_stage_lines_of_a_scene(enter, recital(cast, false), leave);
}

/// A play recited with warnings shows the audience what it shows without.
pub proof fn lemma_performance_whatever_the_warnings(fragments: Seq<SceneView>)
    ensures
        stage_lines(performance(fragments, true)) == performance(fragments, false),
        asides(performance(fragments, false)) == Seq::<LineView>::empty(),
{
    lemma_upto_whatever_the_warnings(fragments, fragments.len() as int);
}

proof fn lemma_upto_whatever_the_warnings(fragments: Seq<SceneView>, n: int)
    requires
        0 <= n <= fragments.len(),
    ensures
        stage_lines(performance_upto(fragments, n, true)) == performance_upto(fragments, n, false),
        asides(performance_upto(fragments, n, false)) == Seq::<LineView>::empty(),
    decreases n,
{
    if n <= 0 {
        lemma_all_stage(Seq::<LineView>::empty());
    } else {
        lemma_upto_whatever_the_warnings(fragments, n - 1);
        lemma_scene_whatever_the_warnings(fragments, n - 1);
        lemma_stage_lines_add(
            performance_upto(fragments, n - 1, true),
            scene_lines(fragments, n - 1, true),
        );
        lemma_stage_lines_add(
            performance_upto(fragments, n - 1, false),
            scene_lines(fragments, n - 1, false),
        );
        assert(performance_upto(fragments, n, true) == performance_upto(fragments, n - 1, true)
            + scene_lines(fragments, n - 1, true));
        assert(performance_upto(fragments, n, false) == performance_upto(fragments, n - 1, false)
            + scene_lines(fragments, n - 1, false));
        assert(Seq::<LineView>::empty() + Seq::<LineView>::empty() =~= Seq::<LineView>::empty());
    }
}

proof fn lemma_upto_is_a_prefix(fragments: Seq<SceneView>, k: int, n: int, whinge: bool)
    requires
        0 <= k <= n,
    ensures
        performance_upto(fragments, k, whinge).len() <= performance_upto(
            fragments,
            n,
            whinge,
        ).len(),
        performance_upto(fragments, n, whinge).take(
            performance_upto(fragments, k, whinge).len() as int,
        ) == performance_upto(fragments, k, whinge),
    decreases n - k,
{
    let short = performance_upto(fragments, k, whinge);
    if k == n {
        assert(short.take(short.len() as int) =~= short);
    } else {
        lemma_upto_is_a_prefix(fragments, k, n - 1, whinge);
        let before = performance_upto(fragments, n - 1, whinge);
        let all = before + scene_lines(fragments, n - 1, whinge);
        assert(all.take(short.len() as int) =~= before.take(short.len() as int));
    }
}

/// The fragments are recited in the order in which the play holds them: what
/// fragment `k` prints stands in the transcript behind all that the fragments
/// before it print, and before all that the fragments behind it print.
pub proof fn lemma_fragments_in_order(fragments: Seq<SceneView>, k: int, whinge: bool)
    requires
        0 <= k < fragments.len(),
    ensures
        ({
            let from = performance_upto(fragments, k, whinge).len() as int;
            let to = performance_upto(fragments, k + 1, whinge).len() as int;
            &&& from <= to <= performance(fragments, whinge).len()
            &&& performance(fragments, whinge).subrange(from, to) == scene_lines(
                fragments,
                k,
                whinge,
            )
        }),
{
    let before = performance_upto(fragments, k, whinge);
    let with = performance_upto(fragments, k + 1, whinge);
    let all = performance(fragments, whinge);
    lemma_upto_is_a_prefix(fragments, k + 1, fragments.len() as int, whinge);
    assert(all.subrange(before.len() as int, with.len() as int) =~= all.take(
        with.len() as int,
    ).skip(before.len() as int));
    assert(with.skip(before.len() as int) =~= scene_lines(fragments, k, whinge));
}

/// A line is blank exactly when trimming leaves nothing of it.
pub proof fn lemma_blank_trims_to_nothing(s: Seq<char>)
    ensures
        is_blank(s) <==> trimmed(s).len() == 0,
    decreases s.len(),
{
    if s.len() > 0 && is_space(s[0]) {
        let t = s.drop_first();
        lemma_blank_trims_to_nothing(t);
        if is_blank(s) {
            assert forall|i: int| 0 <= i < t.len() implies is_space(#[trigger] t[i]) by {
                assert(t[i] == s[i + 1]);
            }
        }
        if is_blank(t) {
            assert forall|i: int| 0 <= i < s.len() implies is_space(#[trigger] s[i]) by {
                if i > 0 {
                    assert(s[i] == t[i - 1]);
                }
            }
        }
    } else if s.len() > 0 {
        lemma_trailing_keeps_first(s);
    }
}

proof fn lemma_trailing_keeps_first(s: Seq<char>)
    requires
        s.len() > 0,
        !is_space(s[0]),
    ensures
        drop_trailing_space(s).len() > 0,
    decreases s.len(),
{
    if is_space(s.last()) {
        lemma_trailing_keeps_first(s.drop_last());
    }
}

/// A blank line has no words.
pub proof fn lemma_blank_has_no_tokens(s: Seq<char>)
    ensures
        is_blank(s) <==> tokens(s).len() == 0,
    decreases s.len(),
{
    if s.len() > 0 && is_space(s[0]) {
        let t = s.drop_first();
        lemma_blank_has_no_tokens(t);
        if is_blank(s) {
            assert forall|i: int| 0 <= i < t.len() implies is_space(#[trigger] t[i]) by {
                assert(t[i] == s[i + 1]);
            }
        }
        if is_blank(t) {
            assert forall|i: int| 0 <= i < s.len() implies is_space(#[trigger] s[i]) by {
                if i > 0 {
                    assert(s[i] == t[i - 1]);
                }
            }
        }
    }
}

proof fn lemma_skip_space_shrinks(s: Seq<char>)
    ensures
        skip_space(s).len() <= s.len(),
        s.len() > 0 && is_space(s[0]) ==> skip_space(s).len() < s.len(),
    decreases s.len(),
{
    if s.len() > 0 && is_space(s[0]) {
        lemma_skip_space_shrinks(s.drop_first());
    }
}

proof fn lemma_drop_trailing_space_shrinks(s: Seq<char>)
    ensures
        drop_trailing_space(s).len() <= s.len(),
        s.len() > 0 && is_space(s.last()) ==> drop_trailing_space(s).len() < s.len(),
    decreases s.len(),
{
    if s.len() > 0 && is_space(s.last()) {
        lemma_drop_trailing_space_shrinks(s.drop_last());
    }
}

/// Text that trimming leaves as it is neither starts nor ends with whitespace.
pub proof fn lemma_trimmed_ends(s: Seq<char>)
    requires
        trimmed(s) == s,
        s.len() > 0,
    ensures
        !is_space(s[0]),
        !is_space(s.last()),
{
    lemma_skip_space_shrinks(s);
    lemma_drop_trailing_space_shrinks(skip_space(s));
    lemma_drop_trailing_space_shrinks(s);
}

/// The server serves the file that a request asks for: the request for a safe
/// name that is no `quit` and has no whitespace at its ends is understood as
/// that name.
pub proof fn lemma_request_is_understood(filename: Seq<char>)
    requires
        is_safe(filename),
        trimmed(filename) == filename,
        filename != "quit"@,
    ensures
        request_of(request_for(filename)) == RequestView::File(filename),
{
    let line = request_for(filename);
    assert(is_space('\n'));
    assert(line.drop_last() =~= filename);
    if filename.len() == 0 {
        let nothing = Seq::<char>::empty();
        assert(line.drop_first() =~= nothing);
        assert(skip_space(nothing) == nothing);
        assert(skip_space(line) == nothing);
        assert(drop_trailing_space(nothing) == nothing);
        assert(filename =~= nothing);
    } else {
        lemma_trimmed_ends(filename);
        assert(line[0] == filename[0]);
        assert(skip_space(line) == line);
        assert(drop_trailing_space(line) == drop_trailing_space(filename));
        assert(skip_space(filename) == filename);
    }
}

/// A host, a port and a file name written behind `net:` with colons between
/// them are read back as they were written, where neither host nor port holds a
/// colon.
pub proof fn lemma_remote_source_reads_back(host: Seq<char>, port: Seq<char>, filename: Seq<char>)
    requires
        !host.contains(':'),
        !port.contains(':'),
    ensures
        resolved("net:"@ + host + seq![':'] + port + seq![':'] + filename) == Some(
            SourceView::Remote { host, port, filename },
        ),
{
    reveal_strlit("net:");
    let source = "net:"@ + host + seq![':'] + port + seq![':'] + filename;
    assert(source.take(4) =~= "net:"@);
    let rest = source.skip(4);
    assert(rest =~= host + seq![':'] + port + seq![':'] + filename);
    assert forall|i: int| 0 <= i < host.len() implies #[trigger] rest[i] != ':' by {
        assert(rest[i] == host[i]);
        assert(host.contains(host[i]));
    }
    lemma_colon_at_is(rest, host.len() as int);
    let tail = rest.skip(host.len() as int + 1);
    assert(tail =~= port + seq![':'] + filename);
    assert forall|i: int| 0 <= i < port.len() implies #[trigger] tail[i] != ':' by {
        assert(tail[i] == port[i]);
        assert(port.contains(port[i]));
    }
    lemma_colon_at_is(tail, port.len() as int);
    assert(rest.take(host.len() as int) =~= host);
    assert(tail.take(port.len() as int) =~= port);
    assert(tail.skip(port.len() as int + 1) =~= filename);
}

/// Between two fragments those move, and only those, that are in the one and
/// not in the other: a name is announced exactly if it is among `names` and not
/// among `others`.
pub proof fn lemma_who_moves(names: Seq<Seq<char>>, others: Seq<Seq<char>>, name: Seq<char>)
    ensures
        absent_from(names, others).contains(name) <==> names.contains(name) && !others.contains(
            name,
        ),
{
    let gone = |n: Seq<char>| !others.contains(n);
    let moving = names.filter(gone);
    if moving.contains(name) {
        let i = choose|i: int| 0 <= i < moving.len() && moving[i] == name;
        names.lemma_filter_pred(gone, i);
        names.lemma_filter_contains_rev(gone, name);
    }
    if names.contains(name) && !others.contains(name) {
        let i = choose|i: int| 0 <= i < names.len() && names[i] == name;
        names.lemma_filter_contains(gone, i);
    }
}

/// There is one way only to put given lines in ascending order: lines that
/// ascend and are the same lines, each as often, stand in the same order.
pub proof fn lemma_sorted_lines_are_unique(a: Seq<Speech>, b: Seq<Speech>)
    requires
        lines_sorted(a),
        lines_sorted(b),
        a.to_multiset() == b.to_multiset(),
    ensures
        a == b,
    decreases a.len(),
{
    a.to_multiset_ensures();
    b.to_multiset_ensures();
    if a.len() == 0 {
        assert(a =~= b);
    } else {
        let x = a.last();
        let y = b.last();
        assert(a.contains(x));
        assert(b.contains(y));
        assert(b.to_multiset().count(x) > 0);
        assert(a.to_multiset().count(y) > 0);
        let i = choose|i: int| 0 <= i < b.len() && b[i] == x;
        let j = choose|j: int| 0 <= j < a.len() && a[j] == y;
        lemma_text_le_reflexive(x.1);
        lemma_text_le_reflexive(y.1);
        assert(line_le(x, y)) by {
            if i < b.len() - 1 {
                assert(line_le(b[i], b[b.len() - 1]));
            }
        }
        assert(line_le(y, x)) by {
            if j < a.len() - 1 {
                assert(line_le(a[j], a[a.len() - 1]));
            }
        }
        lemma_text_le_antisymmetric(x.1, y.1);
        assert(x == y);
        let head_a = a.drop_last();
        let head_b = b.drop_last();
        assert(a.remove(a.len() - 1) =~= head_a);
        assert(b.remove(b.len() - 1) =~= head_b);
        assert(head_a.to_multiset() == head_b.to_multiset());
        assert forall|i: int, j: int| 0 <= i < j < head_a.len() implies #[trigger] line_le(
            head_a[i],
            head_a[j],
        ) by {
            assert(line_le(a[i], a[j]));
        }
        assert forall|i: int, j: int| 0 <= i < j < head_b.len() implies #[trigger] line_le(
            head_b[i],
            head_b[j],
        ) by {
            assert(line_le(b[i], b[j]));
        }
        lemma_sorted_lines_are_unique(head_a, head_b);
        assert(a =~= head_a.push(x));
        assert(b =~= head_b.push(y));
    }
}

/// The last player of a cast is the last of the players of its rank.
proof fn lemma_with_key_last(cast: Seq<PlayerView>)
    requires
        cast.len() > 0,
    ensures
        with_key(cast, cast.last().rank()).len() > 0,
        with_key(cast, cast.last().rank()).last() == cast.last(),
        with_key(cast.drop_last(), cast.last().rank()) == with_key(
            cast,
            cast.last().rank(),
        ).drop_last(),
        forall|key: int|
            key != cast.last().rank() ==> #[trigger] with_key(cast.drop_last(), key) == with_key(
                cast,
                key,
            ),
{
    let last = cast.last();
    let head = cast.drop_last();
    assert(cast =~= head.push(last));
    assert forall|key: int| true implies #[trigger] with_key(cast, key) == if last.rank() == key {
        with_key(head, key).push(last)
    } else {
        with_key(head, key)
    } by {
        head.lemma_filter_push(last, |p: PlayerView| p.rank() == key);
    }
    assert(with_key(head, last.rank()).push(last).drop_last() =~= with_key(head, last.rank()));
}

/// A player of rank `key` is among the players of that rank.
proof fn lemma_with_key_holds(cast: Seq<PlayerView>, i: int)
    requires
        0 <= i < cast.len(),
    ensures
        with_key(cast, cast[i].rank()).len() > 0,
{
    let key = cast[i].rank();
    cast.lemma_filter_contains(|p: PlayerView| p.rank() == key, i);
}

/// The players of rank `key` all have that rank, and are of the cast.
proof fn lemma_with_key_first(cast: Seq<PlayerView>, key: int) -> (i: int)
    requires
        with_key(cast, key).len() > 0,
    ensures
        0 <= i < cast.len(),
        cast[i].rank() == key,
{
    let pred = |p: PlayerView| p.rank() == key;
    cast.lemma_filter_pred(pred, 0);
    let found = cast.filter(pred)[0];
    cast.lemma_filter_contains_rev(pred, found);
    choose|i: int| 0 <= i < cast.len() && cast[i] == found
}

/// There is one way only to order a cast: casts that ascend by rank and hold
/// the same players of each rank in the same order are the same.
pub proof fn lemma_cast_order_is_unique(a: Seq<PlayerView>, b: Seq<PlayerView>)
    requires
        cast_sorted(a),
        cast_sorted(b),
        forall|key: int| #[trigger] with_key(a, key) == with_key(b, key),
    ensures
        a == b,
    decreases a.len() + b.len(),
{
    if a.len() == 0 && b.len() == 0 {
        assert(a =~= b);
    } else if a.len() == 0 {
        lemma_with_key_holds(b, 0);
        let i = lemma_with_key_first(a, b[0].rank());
    } else if b.len() == 0 {
        lemma_with_key_holds(a, 0);
        let i = lemma_with_key_first(b, a[0].rank());
    } else {
        let x = a.last();
        let y = b.last();
        lemma_with_key_last(a);
        lemma_with_key_last(b);
        let i = lemma_with_key_first(b, x.rank());
        let j = lemma_with_key_first(a, y.rank());
        assert(x.rank() <= y.rank()) by {
            if i < b.len() - 1 {
                assert(rank_le(b[i], b[b.len() - 1]));
            }
        }
        assert(y.rank() <= x.rank()) by {
            if j < a.len() - 1 {
                assert(rank_le(a[j], a[a.len() - 1]));
            }
        }
        assert(x == y);
        let head_a = a.drop_last();
        let head_b = b.drop_last();
        assert forall|i: int, j: int| 0 <= i < j < head_a.len() implies #[trigger] rank_le(
            head_a[i],
            head_a[j],
        ) by {
            assert(rank_le(a[i], a[j]));
        }
        assert forall|i: int, j: int| 0 <= i < j < head_b.len() implies #[trigger] rank_le(
            head_b[i],
            head_b[j],
        ) by {
            assert(rank_le(b[i], b[j]));
        }
        assert forall|key: int| #[trigger] with_key(head_a, key) == with_key(head_b, key) by {
            assert(with_key(a, key) == with_key(b, key));
        }
        lemma_cast_order_is_unique(head_a, head_b);
        assert(a =~= head_a.push(x));
        assert(b =~= head_b.push(y));
    }
}

/// What a scene's cast is after players have joined it is one cast and no other.
pub proof fn lemma_cast_from_is_unique(
    a: Seq<PlayerView>,
    b: Seq<PlayerView>,
    old: Seq<PlayerView>,
    new: Seq<PlayerView>,
)
    requires
        cast_from(a, old, new),
        cast_from(b, old, new),
    ensures
        a == b,
{
    assert forall|key: int| #[trigger] with_key(a, key) == with_key(b, key) by {
        assert(with_key(a, key) == with_key(old + new, key));
        assert(with_key(b, key) == with_key(old + new, key));
    }
    lemma_cast_order_is_unique(a, b);
}

/// The warnings about a line are the warnings of what is wrong with it.
proof fn lemma_warnings_of_found(expected: nat, number: nat)
    ensures
        numbering_warnings(expected, number) == found(expected, number).map_values(
            |anomaly: Anomaly| warning_of(anomaly),
        ),
{
    assert(numbering_warnings(expected, number) =~= found(expected, number).map_values(
        |anomaly: Anomaly| warning_of(anomaly),
    ));
}

/// The warnings of a recital are those of what is wrong with the numbers of its
/// lines, in the order in which they are spoken, and no others.
pub proof fn lemma_warnings_are_the_anomalies(turns: Seq<Turn>, expected: nat, speaker: Seq<char>)
    ensures
        asides(script(turns, expected, speaker, true)) == anomalies(
            numbers_of(turns),
            expected,
        ).map_values(|anomaly: Anomaly| warning_of(anomaly)),
    decreases turns.len(),
{
    let render = |anomaly: Anomaly| warning_of(anomaly);
    if turns.len() == 0 {
        lemma_all_stage(Seq::<LineView>::empty());
        assert(anomalies(numbers_of(turns), expected).map_values(render) =~= Seq::<
            LineView,
        >::empty());
    } else {
        let turn = turns[0];
        let then = next_expected(expected, turn.number);
        let warnings = numbering_warnings(expected, turn.number);
        let spoken = utterance_of(turn, speaker);
        let rest = script(turns.drop_first(), then, turn.name, true);
        lemma_warnings_are_the_anomalies(turns.drop_first(), then, turn.name);
        lemma_all_asides(warnings);
        lemma_utterance_is_stage(turn, speaker);
        lemma_stage_lines_add(warnings + spoken, rest);
        lemma_stage_lines_add(warnings, spoken);
        lemma_warnings_of_found(expected, turn.number);
        assert(numbers_of(turns).drop_first() =~= numbers_of(turns.drop_first()));
        assert(script(turns, expected, speaker, true) == warnings + spoken + rest);
        let first = found(expected, turn.number);
        let others = anomalies(numbers_of(turns.drop_first()), then);
        assert((first + others).map_values(render) =~= first.map_values(render)
            + others.map_values(render));
        assert(warnings + Seq::<LineView>::empty() + others.map_values(render) =~= warnings
            + others.map_values(render));
    }
}

/// The line numbers of a recital never go down, and its warnings, where they
/// are asked for, are those of what is wrong with these numbers, counted from
/// nought.
pub proof fn lemma_recital_warnings(cast: Seq<PlayerView>)
    requires
        cast_wf(cast),
    ensures
        ascending(numbers_of(turns(cast))),
        asides(recital(cast, true)) == anomalies(numbers_of(turns(cast)), 0).map_values(
            |anomaly: Anomaly| warning_of(anomaly),
        ),
{
    reveal(recital);
    lemma_warnings_are_the_anomalies(turns(cast), 0, Seq::empty());
    let numbers = numbers_of(turns(cast));
    assert forall|i: int, j: int| 0 <= i <= j < numbers.len() implies #[trigger] numbers[i]
        <= #[trigger] numbers[j] by {
        if i < j {
            lemma_turns_ascend(cast, i, j);
        }
    }
}

/// What follows the first of numbers that never go down never goes down, and
/// awaits one more than the first.
proof fn lemma_ascending_rest(numbers: Seq<nat>, expected: nat)
    requires
        ascending(numbers),
        numbers.len() > 0,
        expected <= numbers[0] + 1,
    ensures
        ascending(numbers.drop_first()),
        next_expected(expected, numbers[0]) == numbers[0] + 1,
        numbers.len() > 1 ==> numbers[0] <= numbers.drop_first()[0],
        forall|i: int| 0 <= i < numbers.len() ==> numbers[0] <= #[trigger] numbers[i],
        numbers.last() >= numbers[0],
{
    let rest = numbers.drop_first();
    assert forall|i: int, j: int| 0 <= i <= j < rest.len() implies #[trigger] rest[i]
        <= #[trigger] rest[j] by {
        assert(numbers[i + 1] <= numbers[j + 1]);
    }
    assert forall|i: int| 0 <= i < numbers.len() implies numbers[0] <= #[trigger] numbers[i] by {
        assert(numbers[0] <= numbers[i]);
    }
    if numbers.len() > 1 {
        assert(rest[0] == numbers[1]);
    }
}

/// A number is reported missing for one line exactly if it is awaited or above
/// and below the number of the line.
proof fn lemma_found_missing(expected: nat, number: nat, k: nat)
    ensures
        found(expected, number).contains(Anomaly::Missing(k)) <==> expected <= k < number,
{
    let run = found(expected, number);
    if expected <= k < number {
        assert(run[k - expected] == Anomaly::Missing(k));
    }
    if run.contains(Anomaly::Missing(k)) {
        let i = choose|i: int| 0 <= i < run.len() && run[i] == Anomaly::Missing(k);
        assert(run[i] == Anomaly::Missing(k));
    }
}

/// What is in two sequences put together is in one of them.
proof fn lemma_contains_add(a: Seq<Anomaly>, b: Seq<Anomaly>, x: Anomaly)
    ensures
        (a + b).contains(x) <==> a.contains(x) || b.contains(x),
{
    if a.contains(x) {
        let i = choose|i: int| 0 <= i < a.len() && a[i] == x;
        assert((a + b)[i] == x);
    }
    if b.contains(x) {
        let i = choose|i: int| 0 <= i < b.len() && b[i] == x;
        assert((a + b)[a.len() + i] == x);
    }
    if (a + b).contains(x) {
        let i = choose|i: int| 0 <= i < (a + b).len() && (a + b)[i] == x;
        if i < a.len() {
            assert(a[i] == x);
        } else {
            assert(b[i - a.len()] == x);
        }
    }
}

/// The numbers reported missing are the gaps: a number is reported missing
/// exactly if it is at least the number awaited first, below the last number
/// spoken, and the number of no line.
pub proof fn lemma_missing_are_the_gaps(numbers: Seq<nat>, expected: nat, k: nat)
    requires
        ascending(numbers),
        numbers.len() > 0 ==> expected <= numbers[0] + 1,
    ensures
        anomalies(numbers, expected).contains(Anomaly::Missing(k)) <==> {
            &&& expected <= k
            &&& numbers.len() > 0
            &&& k < numbers.last()
            &&& !numbers.contains(k)
        },
    decreases numbers.len(),
{
    if numbers.len() > 0 {
        let first = numbers[0];
        let rest = numbers.drop_first();
        let then = next_expected(expected, first);
        lemma_ascending_rest(numbers, expected);
        lemma_missing_are_the_gaps(rest, then, k);
        lemma_found_missing(expected, first, k);
        lemma_contains_add(found(expected, first), anomalies(rest, then), Anomaly::Missing(k));
        assert(numbers.contains(k) <==> first == k || rest.contains(k)) by {
            if rest.contains(k) {
                let i = choose|i: int| 0 <= i < rest.len() && rest[i] == k;
                assert(numbers[i + 1] == k);
            }
            if numbers.contains(k) {
                let i = choose|i: int| 0 <= i < numbers.len() && numbers[i] == k;
                if i > 0 {
                    assert(rest[i - 1] == k);
                }
            }
            if first == k {
                assert(numbers[0] == k);
            }
        }
        if rest.len() > 0 {
            assert(rest.last() == numbers.last());
        }
        if k < first && numbers.contains(k) {
            let i = choose|i: int| 0 <= i < numbers.len() && numbers[i] == k;
            assert(first <= numbers[i]);
        }
    }
}

/// The numbers reported missing come in ascending order, each once.
pub proof fn lemma_missing_ascend(numbers: Seq<nat>, expected: nat, a: int, b: int)
    requires
        ascending(numbers),
        numbers.len() > 0 ==> expected <= numbers[0] + 1,
        0 <= a < b < anomalies(numbers, expected).len(),
        anomalies(numbers, expected)[a] is Missing,
        anomalies(numbers, expected)[b] is Missing,
    ensures
        anomalies(numbers, expected)[a]->Missing_0 < anomalies(numbers, expected)[b]->Missing_0,
    decreases numbers.len(),
{
    let first = numbers[0];
    let rest = numbers.drop_first();
    let then = next_expected(expected, first);
    let here = found(expected, first);
    let later = anomalies(rest, then);
    lemma_ascending_rest(numbers, expected);
    let all = here + later;
    if b < here.len() {
        assert(all[a] == here[a] && all[b] == here[b]);
    } else if a < here.len() {
        let x = all[a]->Missing_0;
        let y = all[b]->Missing_0;
        assert(all[a] == here[a]);
        assert(all[b] == later[b - here.len()]);
        assert(here.contains(Anomaly::Missing(x)));
        assert(later.contains(Anomaly::Missing(y)));
        lemma_found_missing(expected, first, x);
        lemma_missing_are_the_gaps(rest, then, y);
    } else {
        assert(all[a] == later[a - here.len()]);
        assert(all[b] == later[b - here.len()]);
        lemma_missing_ascend(rest, then, a - here.len(), b - here.len());
    }
}

/// The numbers that come again in sequences put together are those of each.
proof fn lemma_duplicates_in_add(a: Seq<Anomaly>, b: Seq<Anomaly>)
    ensures
        duplicates_in(a + b) == duplicates_in(a) + duplicates_in(b),
    decreases a.len(),
{
    if a.len() == 0 {
        assert(a + b =~= b);
        assert(duplicates_in(a) + duplicates_in(b) =~= duplicates_in(b));
    } else {
        lemma_duplicates_in_add(a.drop_first(), b);
        assert((a + b).drop_first() =~= a.drop_first() + b);
        assert((a + b)[0] == a[0]);
        match a[0] {
            Anomaly::Duplicate(number) => {
                assert(seq![number] + (duplicates_in(a.drop_first()) + duplicates_in(b)) =~= (
                seq![number] + duplicates_in(a.drop_first())) + duplicates_in(b));
            },
            Anomaly::Missing(_) => {},
        }
    }
}

/// Among numbers that are missing none comes again.
proof fn lemma_no_duplicates_in_a_run(from: nat, to: nat)
    ensures
        duplicates_in(missing_run(from, to)) == Seq::<nat>::empty(),
    decreases to - from,
{
    let run = missing_run(from, to);
    if to > from {
        lemma_no_duplicates_in_a_run(from + 1, to);
        assert(run.drop_first() =~= missing_run(from + 1, to));
        assert(run[0] == Anomaly::Missing(from));
    }
}

/// The numbers that come again for one line: the number of the line where it
/// is below the number awaited.
proof fn lemma_duplicates_in_found(expected: nat, number: nat)
    ensures
        duplicates_in(found(expected, number)) == if number < expected {
            seq![number]
        } else {
            Seq::empty()
        },
{
    if number > expected {
        lemma_no_duplicates_in_a_run(expected, number);
    } else if number < expected {
        let one = seq![Anomaly::Duplicate(number)];
        assert(one.drop_first() =~= Seq::<Anomaly>::empty());
        assert(seq![number] + Seq::<nat>::empty() =~= seq![number]);
        assert(duplicates_in(one.drop_first()) == Seq::<nat>::empty());
    }
}

/// A line is reported to come again exactly where its number is that of the
/// line spoken just before it, or below the number awaited first.
pub proof fn lemma_duplicates_are_the_repeats(numbers: Seq<nat>, expected: nat)
    requires
        ascending(numbers),
        numbers.len() > 0 ==> expected <= numbers[0] + 1,
    ensures
        duplicates_in(anomalies(numbers, expected)) == if numbers.len() > 0 && numbers[0]
            < expected {
            seq![numbers[0]] + repeats(numbers)
        } else {
            repeats(numbers)
        },
    decreases numbers.len(),
{
    if numbers.len() > 0 {
        let first = numbers[0];
        let rest = numbers.drop_first();
        let then = next_expected(expected, first);
        lemma_ascending_rest(numbers, expected);
        lemma_duplicates_are_the_repeats(rest, then);
        lemma_duplicates_in_add(found(expected, first), anomalies(rest, then));
        lemma_duplicates_in_found(expected, first);
        let here = duplicates_in(found(expected, first));
        let later = duplicates_in(anomalies(rest, then));
        if rest.len() > 0 {
            assert(rest[0] == numbers[1]);
            if rest[0] < then {
                assert(numbers[1] == numbers[0]);
                assert(later == seq![numbers[1]] + repeats(rest));
            } else {
                assert(later == repeats(rest));
            }
            assert(later == repeats(numbers));
        } else {
            assert(later =~= repeats(numbers));
        }
        if first < expected {
            assert(here + later =~= seq![first] + repeats(numbers));
        } else {
            assert(here + later =~= repeats(numbers));
        }
    }
}

/// In a recital a number is reported missing exactly if it is below the last
/// number spoken and the number of no line; a line is reported to come again
/// exactly where its number is that of the line spoken just before it.
pub proof fn lemma_recital_reports(cast: Seq<PlayerView>, k: nat)
    requires
        cast_wf(cast),
    ensures
        ({
            let numbers = numbers_of(turns(cast));
            let wrong = anomalies(numbers, 0);
            &&& wrong.contains(Anomaly::Missing(k)) <==> numbers.len() > 0 && k < numbers.last()
                && !numbers.contains(k)
            &&& duplicates_in(wrong) == repeats(numbers)
        }),
{
    let numbers = numbers_of(turns(cast));
    lemma_recital_warnings(cast);
    lemma_missing_are_the_gaps(numbers, 0, k);
    lemma_duplicates_are_the_repeats(numbers, 0);
}

} // verus!
