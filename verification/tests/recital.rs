use lab3::player::Player;
use lab3::scene_fragment::SceneFragment;
use lab3::transcript::{Channel, Transcript};

fn text(s: &str) -> String {
    String::from(s)
}

fn lines(raw: &[&str]) -> Vec<String> {
    raw.iter().map(|l| String::from(*l)).collect()
}

fn player(name: &str, part: &[&str]) -> Player {
    let mut out = Transcript::new(false);
    let mut p = Player::new(&text(name));
    p.prepare(&lines(part), &mut out);
    p
}

fn scene(title: &str, cast: Vec<Player>) -> SceneFragment {
    let mut fragment = SceneFragment::new(&text(title));
    let loaded = cast.into_iter().map(Ok).collect();
    assert!(fragment.prepare(loaded).is_ok());
    fragment
}

fn printed(out: &Transcript, channel: Channel) -> Vec<String> {
    out.lines().iter().filter(|l| l.channel == channel).map(|l| l.text.clone()).collect()
}

#[test]
fn merge_interleaves_two_players_and_prints_a_banner_at_each_change() {
    let a = player("A", &["1 a", "3 c"]);
    let b = player("B", &["2 b"]);
    let mut fragment = scene("", vec![a, b]);
    let mut out = Transcript::new(false);
    fragment.recite(&mut out);
    assert_eq!(printed(&out, Channel::Stage), lines(&["", "A.", "a", "", "B.", "b", "", "A.", "c"]));
    assert_eq!(printed(&out, Channel::Aside), Vec::<String>::new());
}

#[test]
fn one_speaker_in_a_row_gets_one_banner() {
    let a = player("A", &["0 first", "1 second"]);
    let mut fragment = scene("", vec![a]);
    let mut out = Transcript::new(true);
    fragment.recite(&mut out);
    assert_eq!(printed(&out, Channel::Stage), lines(&["", "A.", "first", "second"]));
    assert_eq!(printed(&out, Channel::Aside), Vec::<String>::new());
}

#[test]
fn ties_go_to_the_earlier_player_of_the_cast() {
    let a = player("A", &["1 from a"]);
    let b = player("B", &["1 from b"]);
    let mut fragment = scene("", vec![a, b]);
    let mut out = Transcript::new(false);
    fragment.recite(&mut out);
    assert_eq!(
        printed(&out, Channel::Stage),
        lines(&["", "A.", "from a", "", "B.", "from b"])
    );
}

#[test]
fn missing_and_duplicate_numbers_are_warned_of_in_order() {
    let a = player("A", &["2 two", "5 five"]);
    let b = player("B", &["2 again"]);
    let mut fragment = scene("", vec![a, b]);
    let mut out = Transcript::new(true);
    fragment.recite(&mut out);
    let all: Vec<(Channel, String)> =
        out.lines().iter().map(|l| (l.channel, l.text.clone())).collect();
    let expected: Vec<(Channel, String)> = vec![
        (Channel::Aside, text("Warning: Missing line number 0")),
        (Channel::Aside, text("Warning: Missing line number 1")),
        (Channel::Stage, text("")),
        (Channel::Stage, text("A.")),
        (Channel::Stage, text("two")),
        (Channel::Aside, text("Warning: Duplicate line number 2")),
        (Channel::Stage, text("")),
        (Channel::Stage, text("B.")),
        (Channel::Stage, text("again")),
        (Channel::Aside, text("Warning: Missing line number 3")),
        (Channel::Aside, text("Warning: Missing line number 4")),
        (Channel::Stage, text("")),
        (Channel::Stage, text("A.")),
        (Channel::Stage, text("five")),
    ];
    assert_eq!(all, expected);
}

#[test]
fn warnings_never_change_what_is_spoken() {
    let cast = || vec![player("A", &["2 two", "5 five", "5 five again"]), player("B", &["2 again", "9 nine"])];
    let mut quiet = Transcript::new(false);
    scene("", cast()).recite(&mut quiet);
    let mut loud = Transcript::new(true);
    scene("", cast()).recite(&mut loud);
    assert_eq!(printed(&quiet, Channel::Aside), Vec::<String>::new());
    assert!(!printed(&loud, Channel::Aside).is_empty());
    assert_eq!(printed(&quiet, Channel::Stage), printed(&loud, Channel::Stage));
    assert_eq!(quiet.lines().len(), printed(&quiet, Channel::Stage).len());
}

#[test]
fn a_recited_scene_has_nothing_left_to_say() {
    let mut fragment = scene("", vec![player("A", &["1 a"]), player("B", &["2 b"])]);
    let mut out = Transcript::new(false);
    fragment.recite(&mut out);
    let before = out.lines().len();
    fragment.recite(&mut out);
    assert_eq!(out.lines().len(), before);
}

#[test]
fn an_empty_cast_recites_nothing() {
    let mut fragment = scene("Nobody", vec![]);
    let mut out = Transcript::new(true);
    fragment.recite(&mut out);
    assert!(out.lines().is_empty());
}

#[test]
fn each_player_speaks_its_lines_in_ascending_order() {
    let a = player("A", &["7 a7", "1 a1", "4 a4", "4 a4 again"]);
    let b = player("B", &["6 b6", "2 b2", "4 b4"]);
    let c = player("C", &["3 c3", "5 c5", "1 c1"]);
    let mut fragment = scene("", vec![a, b, c]);
    let mut out = Transcript::new(false);
    fragment.recite(&mut out);
    let spoken: Vec<String> = printed(&out, Channel::Stage)
        .into_iter()
        .filter(|l| !l.is_empty() && !l.ends_with('.'))
        .collect();
    assert_eq!(
        spoken,
        lines(&["a1", "c1", "b2", "c3", "a4", "a4 again", "b4", "c5", "b6", "a7"])
    );
    for name in ["a", "b", "c"] {
        let numbers: Vec<u32> = spoken
            .iter()
            .filter(|l| l.starts_with(name))
            .map(|l| l[1..2].parse().unwrap())
            .collect();
        let mut sorted = numbers.clone();
        sorted.sort();
        assert_eq!(numbers, sorted);
    }
}

#[test]
fn the_numbers_reported_missing_are_those_that_no_line_has() {
    let a = player("A", &["2 a", "9 a", "5 a", "5 a"]);
    let b = player("B", &["3 b", "5 b", "12 b", "9 b"]);
    let mut fragment = scene("", vec![a, b]);
    let mut out = Transcript::new(true);
    fragment.recite(&mut out);
    let asides = printed(&out, Channel::Aside);
    let missing: Vec<usize> = asides
        .iter()
        .filter_map(|l| l.strip_prefix("Warning: Missing line number "))
        .map(|n| n.parse().unwrap())
        .collect();
    let duplicate: Vec<usize> = asides
        .iter()
        .filter_map(|l| l.strip_prefix("Warning: Duplicate line number "))
        .map(|n| n.parse().unwrap())
        .collect();
    assert_eq!(missing, vec![0, 1, 4, 6, 7, 8, 10, 11]);
    assert_eq!(duplicate, vec![5, 5, 9]);
    assert_eq!(missing.len() + duplicate.len(), asides.len());
}

#[test]
fn a_scene_numbered_without_gaps_gives_no_warning() {
    let a = player("A", &["0 a", "2 a"]);
    let b = player("B", &["1 b", "3 b"]);
    let mut fragment = scene("", vec![a, b]);
    let mut out = Transcript::new(true);
    fragment.recite(&mut out);
    assert_eq!(printed(&out, Channel::Aside), Vec::<String>::new());
}
