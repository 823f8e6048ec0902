use lab3::player::Player;
use lab3::scene_fragment::SceneFragment;
use lab3::transcript::{Channel, Transcript};

fn text(s: &str) -> String {
    String::from(s)
}

fn lines(raw: &[&str]) -> Vec<String> {
    raw.iter().map(|l| String::from(*l)).collect()
}

fn player(name: &str, first: usize) -> Player {
    let mut out = Transcript::new(false);
    let mut p = Player::new(&text(name));
    p.prepare(&vec![format!("{} line of {}", first, name)], &mut out);
    p
}

/// A scene whose cast stands in the order of `names`.
fn scene(title: &str, names: &[&str]) -> SceneFragment {
    let mut fragment = SceneFragment::new(&text(title));
    let loaded = names.iter().enumerate().map(|(i, n)| Ok(player(n, i + 1))).collect();
    assert!(fragment.prepare(loaded).is_ok());
    fragment
}

fn stage(out: &Transcript) -> Vec<String> {
    for l in out.lines() {
        assert_eq!(l.channel, Channel::Stage);
    }
    out.lines().iter().map(|l| l.text.clone()).collect()
}

#[test]
fn between_scenes_only_those_who_leave_exit_and_only_newcomers_enter() {
    let f1 = scene("One", &["X", "Y"]);
    let f2 = scene("", &["Y", "Z"]);
    let mut out = Transcript::new(true);
    f1.exit(&f2, &mut out);
    assert_eq!(stage(&out), lines(&["[Exit X.]"]));
    let mut out = Transcript::new(true);
    f2.enter(&f1, &mut out);
    assert_eq!(stage(&out), lines(&["[Enter Z.]"]));
}

#[test]
fn a_later_scene_prints_its_title_between_blank_lines() {
    let f1 = scene("One", &["X", "Y"]);
    let f2 = scene("Two", &["Y", "Z", "W"]);
    let mut out = Transcript::new(false);
    f2.enter(&f1, &mut out);
    assert_eq!(stage(&out), lines(&["", "Two", "", "[Enter Z.]", "[Enter W.]"]));
}

#[test]
fn the_first_scene_prints_its_title_and_everybody_enters() {
    let f1 = scene("Act I, Scene 1", &["X", "Y", "Z"]);
    let mut out = Transcript::new(false);
    f1.enter_all(&mut out);
    assert_eq!(
        stage(&out),
        lines(&["Act I, Scene 1", "", "[Enter X.]", "[Enter Y.]", "[Enter Z.]"])
    );
}

#[test]
fn at_the_end_everybody_leaves_last_first() {
    let f1 = scene("One", &["X", "Y", "Z"]);
    let mut out = Transcript::new(false);
    f1.exit_all(&mut out);
    assert_eq!(stage(&out), lines(&["[Exit Z.]", "[Exit Y.]", "[Exit X.]"]));
}

#[test]
fn exits_come_in_reverse_cast_order() {
    let f1 = scene("One", &["A", "B", "C", "D"]);
    let f2 = scene("Two", &["C"]);
    let mut out = Transcript::new(false);
    f1.exit(&f2, &mut out);
    assert_eq!(stage(&out), lines(&["[Exit D.]", "[Exit B.]", "[Exit A.]"]));
}

#[test]
fn nobody_moves_between_scenes_of_one_cast() {
    let f1 = scene("One", &["A", "B"]);
    let f2 = scene("", &["B", "A"]);
    let mut out = Transcript::new(false);
    f1.exit(&f2, &mut out);
    f2.enter(&f1, &mut out);
    assert!(out.lines().is_empty());
}

#[test]
fn presence_goes_by_name_alone() {
    let f1 = scene("One", &["A", "a"]);
    let mut f2 = SceneFragment::new(&text(""));
    assert!(f2.prepare(vec![Ok(Player::new(&text("A")))]).is_ok());
    let mut out = Transcript::new(false);
    f1.exit(&f2, &mut out);
    assert_eq!(stage(&out), lines(&["[Exit a.]"]));
    let mut out = Transcript::new(false);
    f2.enter(&f1, &mut out);
    assert!(out.lines().is_empty());
}

#[test]
fn a_name_that_comes_twice_is_announced_twice() {
    let f1 = scene("One", &["A", "A"]);
    let none = scene("", &[]);
    let mut out = Transcript::new(false);
    f1.enter(&none, &mut out);
    assert_eq!(stage(&out), lines(&["", "One", "", "[Enter A.]", "[Enter A.]"]));
}

#[test]
fn print_title_leaves_out_the_leading_blank_line_at_the_head_of_the_play() {
    let f = scene("The Castle", &[]);
    let mut out = Transcript::new(false);
    f.print_title(true, &mut out);
    assert_eq!(stage(&out), lines(&["The Castle", ""]));
    let mut out = Transcript::new(false);
    f.print_title(false, &mut out);
    assert_eq!(stage(&out), lines(&["", "The Castle", ""]));
}

#[test]
fn a_fragment_without_title_prints_none() {
    for title in ["", "   ", "\t\n"] {
        let f = scene(title, &["A"]);
        assert!(!f.has_title());
        let mut out = Transcript::new(false);
        f.print_title(true, &mut out);
        f.print_title(false, &mut out);
        assert!(out.lines().is_empty());
        f.enter_all(&mut out);
        assert_eq!(stage(&out), lines(&["[Enter A.]"]));
    }
}

#[test]
fn has_title_asks_for_more_than_whitespace() {
    assert!(scene("Act 1", &[]).has_title());
    assert!(scene("  x ", &[]).has_title());
    assert!(!scene("", &[]).has_title());
    assert!(!scene(" \u{a0} ", &[]).has_title());
}

#[test]
fn a_title_is_printed_as_it_stands() {
    let f = scene("  padded  ", &[]);
    let mut out = Transcript::new(false);
    f.print_title(true, &mut out);
    assert_eq!(stage(&out), lines(&["  padded  ", ""]));
}
