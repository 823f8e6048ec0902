use lab3::declarations::{ErrorKind, LoadError, SCRIPT_PARSING_ERROR};
use lab3::play::{Play, ScriptConfig};
use lab3::player::Player;
use lab3::scene_fragment::SceneFragment;
use lab3::transcript::{Channel, Line, Transcript};

fn text(s: &str) -> String {
    String::from(s)
}

fn lines(raw: &[&str]) -> Vec<String> {
    raw.iter().map(|l| String::from(*l)).collect()
}

fn warned(s: &str) -> Line {
    Line { channel: Channel::Aside, text: text(s) }
}

fn entries(raw: &[(bool, &str)]) -> ScriptConfig {
    raw.iter().map(|(t, s)| (*t, String::from(*s))).collect()
}

fn player(name: &str, part: &[&str]) -> Player {
    let mut out = Transcript::new(false);
    let mut p = Player::new(&text(name));
    p.prepare(&lines(part), &mut out);
    p
}

fn scene(title: &str, cast: Vec<Player>) -> SceneFragment {
    let mut fragment = SceneFragment::new(&text(title));
    let loaded = cast.into_iter().map(Ok).collect();
    assert!(fragment.prepare(loaded).is_ok());
    fragment
}

fn stage(out: &Transcript) -> Vec<String> {
    out.lines().iter().filter(|l| l.channel == Channel::Stage).map(|l| l.text.clone()).collect()
}

fn script_error() -> LoadError {
    LoadError { kind: ErrorKind::ScriptParsing, path: text("play.txt") }
}

#[test]
fn a_new_play_recites_nothing() {
    let mut play = Play::new();
    let mut out = Transcript::new(true);
    play.recite(&mut out);
    assert!(out.lines().is_empty());
}

#[test]
fn a_script_line_is_a_title_or_a_configuration() {
    let play = Play::new();
    let mut config = ScriptConfig::new();
    let mut out = Transcript::new(true);
    play.add_config(&text("[scene] The   Castle \t Gate"), &mut config, &mut out);
    play.add_config(&text("scene1.txt"), &mut config, &mut out);
    play.add_config(&text(""), &mut config, &mut out);
    play.add_config(&text("   "), &mut config, &mut out);
    play.add_config(&text("  net:127.0.0.1:7777:scene2.txt  "), &mut config, &mut out);
    play.add_config(&text("[scene] x"), &mut config, &mut out);
    play.add_config(&text("[scene]x y"), &mut config, &mut out);
    assert_eq!(
        config,
        entries(&[
            (true, "The Castle Gate"),
            (false, "scene1.txt"),
            (false, "net:127.0.0.1:7777:scene2.txt"),
            (true, "x"),
            (false, "[scene]x"),
        ])
    );
    assert_eq!(
        out.lines(),
        &vec![warned("Warning: Extra tokens after configuration file name: 'y'")]
    );
}

#[test]
fn a_title_line_without_title_and_extra_words_are_warned_of() {
    let play = Play::new();
    let mut config = ScriptConfig::new();
    let mut out = Transcript::new(true);
    play.add_config(&text("[scene]"), &mut config, &mut out);
    play.add_config(&text("  [scene]  "), &mut config, &mut out);
    play.add_config(&text("scene1.txt and  more"), &mut config, &mut out);
    assert_eq!(config, entries(&[(false, "scene1.txt")]));
    assert_eq!(
        out.lines(),
        &vec![
            warned("Warning: [scene] without a scene title"),
            warned("Warning: [scene] without a scene title"),
            warned("Warning: Extra tokens after configuration file name: 'and more'"),
        ]
    );
    let mut quiet = Transcript::new(false);
    let mut again = ScriptConfig::new();
    play.add_config(&text("[scene]"), &mut again, &mut quiet);
    play.add_config(&text("scene1.txt and  more"), &mut again, &mut quiet);
    assert!(quiet.lines().is_empty());
    assert_eq!(again, entries(&[(false, "scene1.txt")]));
}

#[test]
fn read_config_takes_every_line_of_the_script() {
    let play = Play::new();
    let mut config = ScriptConfig::new();
    let mut out = Transcript::new(true);
    let read = play.read_config(
        &text("play.txt"),
        &lines(&["[scene] One\n", "a.txt\n", "\n", "b.txt trailing\n", "[scene]\n", "  [scene] Two  \n", "c.txt"]),
        &mut config,
        &mut out,
    );
    assert_eq!(read, Ok(()));
    assert_eq!(
        config,
        entries(&[(true, "One"), (false, "a.txt"), (false, "b.txt"), (true, "Two"), (false, "c.txt")])
    );
    assert_eq!(
        out.lines(),
        &vec![
            warned("Warning: Extra tokens after configuration file name: 'trailing'"),
            warned("Warning: [scene] without a scene title"),
        ]
    );
}

#[test]
fn a_script_without_lines_cannot_be_parsed() {
    let play = Play::new();
    let mut config = ScriptConfig::new();
    let mut out = Transcript::new(true);
    let read = play.read_config(&text("play.txt"), &Vec::new(), &mut config, &mut out);
    assert_eq!(read, Err(script_error()));
    assert_eq!(script_error().code(), SCRIPT_PARSING_ERROR);
    assert_eq!(script_error().code(), 3);
    assert!(config.is_empty());
    assert!(out.lines().is_empty());
}

#[test]
fn a_title_goes_to_the_scene_that_follows_it() {
    let play = Play::new();
    let config = entries(&[
        (true, "One"),
        (false, "a.txt"),
        (false, "b.txt"),
        (true, "lost"),
        (true, "Three"),
        (false, "c.txt"),
        (true, "nobody's"),
    ]);
    let tasks = play.process_config(&config);
    let seen: Vec<(bool, String)> = tasks.iter().map(|(f, p)| (f.has_title(), p.clone())).collect();
    assert_eq!(seen, vec![(true, text("a.txt")), (false, text("b.txt")), (true, text("c.txt"))]);
    let mut out = Transcript::new(false);
    for (fragment, _) in &tasks {
        fragment.print_title(true, &mut out);
        fragment.exit_all(&mut out);
    }
    assert_eq!(stage(&out), lines(&["One", "", "Three", ""]));
}

#[test]
fn a_script_without_scenes_plans_nothing() {
    let play = Play::new();
    assert!(play.process_config(&ScriptConfig::new()).is_empty());
    assert!(play.process_config(&entries(&[(true, "One"), (true, "Two")])).is_empty());
}

#[test]
fn a_first_scene_without_title_fails_preparation_and_nothing_is_recited() {
    let play = Play::new();
    let mut config = ScriptConfig::new();
    let mut out = Transcript::new(false);
    let read = play.read_config(
        &text("play.txt"),
        &lines(&["a.txt", "[scene] Too late", "b.txt"]),
        &mut config,
        &mut out,
    );
    assert_eq!(read, Ok(()));
    let tasks = play.process_config(&config);
    assert_eq!(tasks.len(), 2);
    let mut parts = vec![vec![player("A", &["1 a"])], vec![player("B", &["1 b"])]];
    let mut loaded = Vec::new();
    for (mut fragment, _) in tasks {
        let cast = parts.remove(0).into_iter().map(Ok).collect();
        assert_eq!(fragment.prepare(cast), Ok(()));
        loaded.push(Ok(fragment));
    }
    let mut play = Play::new();
    assert_eq!(play.prepare(&text("play.txt"), loaded), Err(script_error()));
    let mut out = Transcript::new(true);
    play.recite(&mut out);
    assert!(out.lines().is_empty());
}

#[test]
fn a_play_without_fragments_cannot_be_prepared() {
    let mut play = Play::new();
    assert_eq!(play.prepare(&text("play.txt"), Vec::new()), Err(script_error()));
}

#[test]
fn a_blank_first_title_is_no_title() {
    let mut play = Play::new();
    let loaded = vec![Ok(scene("  ", vec![player("A", &["1 a"])]))];
    assert_eq!(play.prepare(&text("play.txt"), loaded), Err(script_error()));
}

#[test]
fn the_first_failure_is_the_play_s_and_keeps_its_source() {
    let mut play = Play::new();
    let first = LoadError { kind: ErrorKind::Read, path: text("net:h:1:king.txt") };
    let second = LoadError { kind: ErrorKind::ConfigParsing, path: text("scene3.txt") };
    let loaded = vec![
        Ok(scene("One", vec![player("A", &["1 a"])])),
        Err(first.clone()),
        Err(second),
    ];
    assert_eq!(play.prepare(&text("play.txt"), loaded), Err(first.clone()));
    assert_eq!(first.code(), 5);
    let mut out = Transcript::new(true);
    play.recite(&mut out);
    assert!(out.lines().is_empty());
}

#[test]
fn a_failure_comes_before_a_missing_title() {
    let mut play = Play::new();
    let failure = LoadError { kind: ErrorKind::Open, path: text("scene2.txt") };
    let loaded = vec![Ok(scene("", vec![])), Err(failure.clone())];
    assert_eq!(play.prepare(&text("play.txt"), loaded), Err(failure));
}

#[test]
fn a_play_is_recited_scene_by_scene_in_the_order_of_the_script() {
    let one = scene(
        "Act I",
        vec![player("Bernardo", &["0 Who's there?", "2 Long live the king!"]), player("Francisco", &["1 Nay, answer me.", "3 Bernardo?"])],
    );
    let two = scene("", vec![player("Francisco", &["5 You come most carefully."]), player("Horatio", &["4 Friends to this ground."])]);
    let three = scene("Act II", vec![player("Hamlet", &["6 Words, words, words."])]);
    let mut play = Play::new();
    assert_eq!(play.prepare(&text("play.txt"), vec![Ok(one), Ok(two), Ok(three)]), Ok(()));
    let mut out = Transcript::new(false);
    play.recite(&mut out);
    assert_eq!(
        stage(&out),
        lines(&[
            "Act I",
            "",
            "[Enter Bernardo.]",
            "[Enter Francisco.]",
            "",
            "Bernardo.",
            "Who's there?",
            "",
            "Francisco.",
            "Nay, answer me.",
            "",
            "Bernardo.",
            "Long live the king!",
            "",
            "Francisco.",
            "Bernardo?",
            "",
            "[Exit Bernardo.]",
            "[Enter Horatio.]",
            "",
            "Horatio.",
            "Friends to this ground.",
            "",
            "Francisco.",
            "You come most carefully.",
            "",
            "[Exit Francisco.]",
            "[Exit Horatio.]",
            "",
            "Act II",
            "",
            "[Enter Hamlet.]",
            "",
            "Hamlet.",
            "Words, words, words.",
            "",
            "[Exit Hamlet.]",
        ])
    );
    assert_eq!(out.lines().len(), stage(&out).len());
    let before = out.lines().len();
    play.recite(&mut out);
    let again: Vec<String> = stage(&out)[before..].to_vec();
    assert_eq!(
        again,
        lines(&[
            "Act I", "", "[Enter Bernardo.]", "[Enter Francisco.]", "", "[Exit Bernardo.]",
            "[Enter Horatio.]", "", "[Exit Francisco.]", "[Exit Horatio.]", "", "Act II", "",
            "[Enter Hamlet.]", "", "[Exit Hamlet.]",
        ])
    );
}

#[test]
fn each_scene_counts_its_lines_from_nought() {
    let one = scene("One", vec![player("A", &["0 a", "1 b"])]);
    let two = scene("Two", vec![player("B", &["1 c"])]);
    let mut play = Play::new();
    assert_eq!(play.prepare(&text("play.txt"), vec![Ok(one), Ok(two)]), Ok(()));
    let mut out = Transcript::new(true);
    play.recite(&mut out);
    let asides: Vec<&Line> = out.lines().iter().filter(|l| l.channel == Channel::Aside).collect();
    assert_eq!(asides, vec![&warned("Warning: Missing line number 0")]);
    let at = out.lines().iter().position(|l| l.channel == Channel::Aside).unwrap();
    assert_eq!(out.lines()[at - 1].text, "[Enter B.]");
    assert_eq!(out.lines()[at + 1].text, "");
    assert_eq!(out.lines()[at + 2].text, "B.");
}

#[test]
fn a_play_of_one_scene_opens_and_closes_it() {
    let only = scene("Solo", vec![player("A", &["0 alone"])]);
    let mut play = Play::new();
    assert_eq!(play.prepare(&text("play.txt"), vec![Ok(only)]), Ok(()));
    let mut out = Transcript::new(true);
    play.recite(&mut out);
    assert_eq!(stage(&out), lines(&["Solo", "", "[Enter A.]", "", "A.", "alone", "", "[Exit A.]"]));
    assert_eq!(out.lines().len(), 8);
}

#[test]
fn fragments_that_come_later_follow_those_that_are_there() {
    let mut play = Play::new();
    assert_eq!(play.prepare(&text("play.txt"), vec![Ok(scene("One", vec![]))]), Ok(()));
    assert_eq!(
        play.prepare(&text("play.txt"), vec![Ok(scene("", vec![])), Ok(scene("Three", vec![]))]),
        Ok(())
    );
    let mut out = Transcript::new(false);
    play.recite(&mut out);
    assert_eq!(stage(&out), lines(&["One", "", "", "", "", "Three", "", ""]));
}
