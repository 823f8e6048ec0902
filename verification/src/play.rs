//! The play: scene fragments in the order of the script, made ready from what
//! was read and recited from the first to the last.
use vstd::prelude::*;
use vstd::string::StringExecFns;
use crate::declarations::{all_loaded, first_failure, ErrorKind, LoadError, LoadErrorView};
use crate::player::PlayerView;
use crate::recital::{recital, spent};
use crate::scene_fragment::{names_of, SceneFragment, SceneView};
use crate::script_gen::{grab_trimmed_file_lines, trimmed_lines};
use crate::text::{join_from, joined, same_text, split_whitespace, tokens};
use crate::transcript::{blank_line, if_whinging, warned, LineView, Transcript};

verus! {

/// The entries of a script: a scene's title where the flag is set, else the
/// source of a scene's configuration.
pub type ScriptConfig = Vec<(bool, String)>;

/// What one line of a script says. `[scene]` and more words give a title, the
/// words after the first with single spaces between them; any other first word
/// is the source of a scene's configuration. A blank line and `[scene]` alone
/// give nothing.
pub open spec fn script_entry(line: Seq<char>) -> Option<(bool, Seq<char>)> {
    let words = tokens(line);
    if words.len() == 0 {
        None
    } else if words[0] == "[scene]"@ {
        if words.len() == 1 {
            None
        } else {
            Some((true, joined(words.skip(1))))
        }
    } else {
        Some((false, words[0]))
    }
}

/// The warning about a line of a script: a title line without title, or words
/// behind the source of a configuration.
pub open spec fn script_warning(line: Seq<char>) -> Seq<LineView> {
    let words = tokens(line);
    if words.len() == 0 {
        Seq::empty()
    } else if words[0] == "[scene]"@ {
        if words.len() == 1 {
            seq![warned("Warning: [scene] without a scene title"@)]
        } else {
            Seq::empty()
        }
    } else if words.len() > 1 {
        seq![
            warned(
                "Warning: Extra tokens after configuration file name: '"@ + joined(words.skip(1))
                    + "'"@,
            ),
        ]
    } else {
        Seq::empty()
    }
}

/// The entries of the script `lines`, in order.
pub open spec fn script_entries(lines: Seq<Seq<char>>) -> Seq<(bool, Seq<char>)>
    decreases lines.len(),
{
    if lines.len() == 0 {
        Seq::empty()
    } else {
        let before = script_entries(lines.drop_last());
        match script_entry(lines.last()) {
            Some(entry) => before.push(entry),
            None => before,
        }
    }
}

/// The warnings about the script `lines`, in order.
pub open spec fn script_warnings(lines: Seq<Seq<char>>) -> Seq<LineView>
    decreases lines.len(),
{
    if lines.len() == 0 {
        Seq::empty()
    } else {
        script_warnings(lines.drop_last()) + script_warning(lines.last())
    }
}

/// The title that the entry at `i` would take as a scene: that of the entry just
/// before it, if that is a title; else none.
pub open spec fn title_for(config: Seq<(bool, Seq<char>)>, i: int) -> Seq<char> {
    if 0 < i <= config.len() && config[i - 1].0 {
        config[i - 1].1
    } else {
        Seq::empty()
    }
}

/// The scenes of a script, in its order: for each entry that is no title, the
/// title it takes and the source of its configuration.
pub open spec fn scenes(config: Seq<(bool, Seq<char>)>) -> Seq<(Seq<char>, Seq<char>)>
    decreases config.len(),
{
    if config.len() == 0 {
        Seq::empty()
    } else {
        let before = scenes(config.drop_last());
        let last = config.len() - 1;
        if config[last].0 {
            before
        } else {
            before.push((title_for(config, last), config[last].1))
        }
    }
}

/// The scenes of a script are its entries that are no titles, in the order of
/// the script.
pub proof fn lemma_scenes_follow_the_script(config: Seq<(bool, Seq<char>)>)
    ensures
        scenes(config).map_values(|scene: (Seq<char>, Seq<char>)| scene.1) == config.filter(
            |entry: (bool, Seq<char>)| !entry.0,
        ).map_values(|entry: (bool, Seq<char>)| entry.1),
    decreases config.len(),
{
    let keep = |entry: (bool, Seq<char>)| !entry.0;
    let path = |entry: (bool, Seq<char>)| entry.1;
    let goal = |scene: (Seq<char>, Seq<char>)| scene.1;
    if config.len() > 0 {
        let head = config.drop_last();
        let last = config.last();
        lemma_scenes_follow_the_script(head);
        assert(config =~= head.push(last));
        head.lemma_filter_push(last, keep);
        if !last.0 {
            assert(head.filter(keep).push(last).map_values(path) =~= head.filter(keep).map_values(
                path,
            ).push(last.1));
            assert(scenes(config).map_values(goal) =~= scenes(head).map_values(goal).push(last.1));
        }
    } else {
        assert(config.filter(keep) =~= config) by {
            reveal(Seq::filter);
        }
        assert(scenes(config).map_values(goal) =~= config.filter(keep).map_values(path));
    }
}

/// The fragments that `loaded` holds, where it holds no failure.
pub open spec fn fragments_of(loaded: Seq<Result<SceneFragment, LoadError>>) -> Seq<SceneView> {
    Seq::new(loaded.len(), |i: int| loaded[i]->Ok_0@)
}

/// A play can be recited where it has a fragment and the first has a title.
pub open spec fn ready(fragments: Seq<SceneView>) -> bool {
    fragments.len() > 0 && fragments[0].has_title()
}

/// `scene` with every line spoken.
pub open spec fn played(scene: SceneView) -> SceneView {
    SceneView { title: scene.title, cast: spent(scene.cast) }
}

/// How fragment `i` of `fragments` opens: with its title, and everybody enters
/// the first fragment, newcomers a later one.
#[verifier::opaque]
pub open spec fn scene_opening(fragments: Seq<SceneView>, i: int) -> Seq<LineView> {
    if i == 0 {
        fragments[i].opening()
    } else {
        fragments[i].entrance(fragments[i - 1])
    }
}

/// How fragment `i` of `fragments` closes: everybody leaves the last fragment,
/// those who do not stay an earlier one.
#[verifier::opaque]
pub open spec fn scene_closing(fragments: Seq<SceneView>, i: int) -> Seq<LineView> {
    if i == fragments.len() - 1 {
        fragments[i].closing()
    } else {
        fragments[i].departure(fragments[i + 1])
    }
}

/// What fragment `i` of `fragments` prints: its opening, its recital, a blank
/// line and its closing.
pub open spec fn scene_lines(fragments: Seq<SceneView>, i: int, whinge: bool) -> Seq<LineView> {
    scene_opening(fragments, i) + recital(fragments[i].cast, whinge) + seq![blank_line()]
        + scene_closing(fragments, i)
}

/// What the first `n` fragments print, one after the other.
pub open spec fn performance_upto(fragments: Seq<SceneView>, n: int, whinge: bool) -> Seq<
    LineView,
>
    decreases n,
{
    if n <= 0 {
        Seq::empty()
    } else {
        performance_upto(fragments, n - 1, whinge) + scene_lines(fragments, n - 1, whinge)
    }
}

/// What the play prints: its fragments in their order.
pub open spec fn performance(fragments: Seq<SceneView>, whinge: bool) -> Seq<LineView> {
    performance_upto(fragments, fragments.len() as int, whinge)
}

/// A play: its scene fragments in the order of the script.
pub struct Play {
    fragments: Vec<SceneFragment>,
}

impl View for Play {
    type V = Seq<SceneView>;

    closed spec fn view(&self) -> Seq<SceneView> {
        self.fragments.deep_view()
    }
}

proof fn lemma_names_stay(cast: Seq<PlayerView>)
    ensures
        names_of(spent(cast)) == names_of(cast),
{
    assert(names_of(spent(cast)) =~= names_of(cast));
}

impl Play {
    /// A play without fragments.
    pub fn new() -> (play: Play)
        ensures
            play@ == Seq::<SceneView>::empty(),
    {
        let play = Play { fragments: Vec::new() };
        assert(play@ =~= Seq::<SceneView>::empty());
        play
    }

    /// Takes one line of the script, as [`script_entry`] reads it, and warns as
    /// [`script_warning`] says.
    pub fn add_config(&self, line: &String, config: &mut ScriptConfig, out: &mut Transcript)
        ensures
            final(config).deep_view() == match script_entry(line@) {
                Some(entry) => old(config).deep_view().push(entry),
                None => old(config).deep_view(),
            },
            final(out)@ == old(out)@ + if_whinging(old(out).whinges(), script_warning(line@)),
            final(out).whinges() == old(out).whinges(),
    {
        let words = split_whitespace(line.as_str());
        let ghost before = config.deep_view();
        proof {
            assert(out@ =~= old(out)@ + Seq::<LineView>::empty());
        }
        if words.len() == 0 {
            return ;
        }
        assert(words.deep_view()[0] == words[0]@);
        if same_text(words[0].as_str(), "[scene]") {
            if words.len() == 1 {
                if out.whinge() {
                    out.warn(String::from_str("Warning: [scene] without a scene title"));
                    assert(out@ =~= old(out)@ + script_warning(line@));
                }
            } else {
                let title = join_from(&words, 1);
                config.push((true, title));
                assert(config.deep_view() =~= before.push((true, title@)));
            }
        } else {
            config.push((false, words[0].clone()));
            assert(config.deep_view() =~= before.push((false, words[0]@)));
            if words.len() > 1 && out.whinge() {
                out.warn(
                    String::from_str(
                        "Warning: Extra tokens after configuration file name: '",
                    ).concat(join_from(&words, 1).as_str()).concat("'"),
                );
                assert(out@ =~= old(out)@ + script_warning(line@));
            }
        }
    }

    /// Reads the script from `script_lines`, the lines of the source
    /// `script_filename` as they were read. A script without any line is an
    /// error; else every line is trimmed and taken as [`Play::add_config`] does.
    pub fn read_config(
        &self,
        script_filename: &String,
        script_lines: &Vec<String>,
        config: &mut ScriptConfig,
        out: &mut Transcript,
    ) -> (r: Result<(), LoadError>)
        ensures
            final(out).whinges() == old(out).whinges(),
            script_lines.len() == 0 ==> {
                &&& r is Err
                &&& r->Err_0@ == (LoadErrorView {
                    kind: ErrorKind::ScriptParsing,
                    path: script_filename@,
                })
                &&& final(config).deep_view() == old(config).deep_view()
                &&& final(out)@ == old(out)@
            },
            script_lines.len() > 0 ==> {
                &&& r is Ok
                &&& final(config).deep_view() == old(config).deep_view() + script_entries(
                    trimmed_lines(script_lines.deep_view()),
                )
                &&& final(out)@ == old(out)@ + if_whinging(
                    old(out).whinges(),
                    script_warnings(trimmed_lines(script_lines.deep_view())),
                )
            },
    {
        let mut lines: Vec<String> = Vec::new();
        grab_trimmed_file_lines(script_lines, &mut lines);
        if lines.len() == 0 {
            return Err(LoadError::new(ErrorKind::ScriptParsing, script_filename));
        }
        let ghost all = lines.deep_view();
        let ghost whinge = out.whinges();
        let mut i: usize = 0;
        proof {
            assert(all =~= trimmed_lines(script_lines.deep_view()));
            assert(all.take(0) =~= Seq::<Seq<char>>::empty());
            assert(config.deep_view() =~= old(config).deep_view() + script_entries(all.take(0)));
            assert(out@ =~= old(out)@ + if_whinging(whinge, script_warnings(all.take(0))));
        }
        while i < lines.len()
            invariant
                i <= lines.len(),
                all == lines.deep_view(),
                whinge == old(out).whinges(),
                out.whinges() == whinge,
                config.deep_view() == old(config).deep_view() + script_entries(all.take(i as int)),
                out@ == old(out)@ + if_whinging(whinge, script_warnings(all.take(i as int))),
            decreases lines.len() - i,
        {
            self.add_config(&lines[i], config, out);
            proof {
                let now = all.take(i + 1);
                assert(now.drop_last() =~= all.take(i as int));
                assert(now.last() == lines[i as int]@);
                assert(config.deep_view() =~= old(config).deep_view() + script_entries(now));
                assert(out@ =~= old(out)@ + if_whinging(whinge, script_warnings(now)));
            }
            i += 1;
        }
        proof {
            assert(all.take(i as int) =~= all);
        }
        Ok(())
    }

    /// Plans the play: for each scene of `config`, in the order of the script, a
    /// fragment with the scene's title and nobody in it yet, and the source of
    /// the configuration to prepare it from. A title is taken by the entry that
    /// follows it; a scene that follows no title has an empty one.
    pub fn process_config(&self, config: &ScriptConfig) -> (tasks: Vec<(SceneFragment, String)>)
        ensures
            tasks.len() == scenes(config.deep_view()).len(),
            forall|k: int|
                0 <= k < tasks.len() ==> {
                    &&& (#[trigger] tasks[k]).0@ == (SceneView {
                        title: scenes(config.deep_view())[k].0,
                        cast: Seq::empty(),
                    })
                    &&& tasks[k].1@ == scenes(config.deep_view())[k].1
                },
    {
        let ghost all = config.deep_view();
        let mut tasks: Vec<(SceneFragment, String)> = Vec::new();
        let mut title = String::new();
        let mut i: usize = 0;
        proof {
            assert(all.take(0) =~= Seq::<(bool, Seq<char>)>::empty());
        }
        while i < config.len()
            invariant
                i <= config.len(),
                all == config.deep_view(),
                title@ == title_for(all, i as int),
                tasks.len() == scenes(all.take(i as int)).len(),
                forall|k: int|
                    0 <= k < tasks.len() ==> {
                        &&& (#[trigger] tasks[k]).0@ == (SceneView {
                            title: scenes(all.take(i as int))[k].0,
                            cast: Seq::empty(),
                        })
                        &&& tasks[k].1@ == scenes(all.take(i as int))[k].1
                    },
            decreases config.len() - i,
        {
            proof {
                let now = all.take(i + 1);
                assert(now.drop_last() =~= all.take(i as int));
                assert(now[i as int] == all[i as int]);
                assert(all[i as int] == (config[i as int].0, config[i as int].1@));
                assert(title_for(now, i as int) == title_for(all, i as int));
            }
            if config[i].0 {
                title = config[i].1.clone();
            } else {
                let fragment = SceneFragment::new(&title);
                title = String::new();
                tasks.push((fragment, config[i].1.clone()));
            }
            i += 1;
        }
        proof {
            assert(all.take(i as int) =~= all);
        }
        tasks
    }

    /// Takes the fragments that were prepared for the play, in the order of the
    /// script, which is the order in which they will be recited. The first
    /// failure among them is the play's. A play without a fragment, or whose
    /// first fragment has no title, is a script that cannot be parsed. On any
    /// failure the play is as it was.
    pub fn prepare(
        &mut self,
        script_filename: &String,
        loaded: Vec<Result<SceneFragment, LoadError>>,
    ) -> (r: Result<(), LoadError>)
        ensures
            r is Ok <==> all_loaded(loaded@) && ready(old(self)@ + fragments_of(loaded@)),
            r is Ok ==> final(self)@ == old(self)@ + fragments_of(loaded@),
            r is Err ==> final(self)@ == old(self)@,
            forall|i: int| first_failure(loaded@, i) ==> r is Err && r->Err_0@ == loaded[i]->Err_0@,
            all_loaded(loaded@) && r is Err ==> r->Err_0@ == (LoadErrorView {
                kind: ErrorKind::ScriptParsing,
                path: script_filename@,
            }),
    {
        let ghost new = fragments_of(loaded@);
        let ghost before = self@;
        let mut i: usize = 0;
        while i < loaded.len()
            invariant
                i <= loaded.len(),
                forall|j: int| 0 <= j < i ==> (#[trigger] loaded[j]) is Ok,
            decreases loaded.len() - i,
        {
            match &loaded[i] {
                Err(e) => {
                    assert(first_failure(loaded@, i as int));
                    return Err(LoadError::new(e.kind, &e.path));
                },
                Ok(_) => {},
            }
            i += 1;
        }
        let titled = if self.fragments.len() > 0 {
            self.fragments[0].has_title()
        } else if loaded.len() > 0 {
            match &loaded[0] {
                Ok(first) => first.has_title(),
                Err(_) => false,
            }
        } else {
            false
        };
        proof {
            if self.fragments.len() > 0 {
                assert((before + new)[0] == before[0]);
            } else if loaded.len() > 0 {
                assert((before + new)[0] == new[0]);
            }
        }
        if !titled {
            return Err(LoadError::new(ErrorKind::ScriptParsing, script_filename));
        }
        proof {
            assert(before + new.take(0) =~= before);
        }
        let all = loaded.into_iter();
        for item in it: all
            invariant
                it.seq() == loaded@,
                all_loaded(loaded@),
                new == fragments_of(loaded@),
                self@ == before + new.take(it.index() as int),
        {
            let ghost n = it.index() as int;
            let ghost so_far = self@;
            match item {
                Ok(fragment) => {
                    self.fragments.push(fragment);
                    proof {
                        assert(fragment@ == new[n]);
                        assert(self@ =~= so_far.push(fragment@));
                        assert(before + new.take(n + 1) =~= (before + new.take(n)).push(new[n]));
                    }
                },
                Err(_) => {
                    assert(loaded@[n] is Ok);
                },
            }
        }
        proof {
            assert(new.take(loaded@.len() as int) =~= new);
        }
        Ok(())
    }

    /// Opens fragment `i`: everybody enters the first fragment, newcomers a later
    /// one.
    fn open_scene(&self, i: usize, out: &mut Transcript)
        requires
            i < self@.len(),
        ensures
            final(out)@ == old(out)@ + scene_opening(self@, i as int),
            final(out).whinges() == old(out).whinges(),
    {
        reveal(scene_opening);
        if i == 0 {
            self.fragments[i].enter_all(out);
        } else {
            self.fragments[i].enter(&self.fragments[i - 1], out);
        }
    }

    /// Closes fragment `i`: everybody leaves the last fragment, those who do not
    /// stay an earlier one.
    fn close_scene(&self, i: usize, out: &mut Transcript)
        requires
            i < self@.len(),
        ensures
            final(out)@ == old(out)@ + scene_closing(self@, i as int),
            final(out).whinges() == old(out).whinges(),
    {
        reveal(scene_closing);
        if i == self.fragments.len() - 1 {
            self.fragments[i].exit_all(out);
        } else {
            self.fragments[i].exit(&self.fragments[i + 1], out);
        }
    }

    /// Recites fragment `i` alone.
    fn recite_scene(&mut self, i: usize, out: &mut Transcript)
        requires
            i < old(self)@.len(),
        ensures
            final(out)@ == old(out)@ + scene_lines(old(self)@, i as int, old(out).whinges()),
            final(out).whinges() == old(out).whinges(),
            final(self)@ == old(self)@.update(i as int, played(old(self)@[i as int])),
    {
        let ghost start = self@;
        let ghost whinge = out.whinges();
        let ghost scene = start[i as int];
        self.open_scene(i, out);
        let ghost entered = out@;
        self.fragments[i].recite(out);
        out.say_blank();
        let ghost recited = out@;
        proof {
            assert(self@ =~= start.update(i as int, played(scene)));
            lemma_names_stay(scene.cast);
            lemma_scene_closing_by_names(self@, start, i as int);
            assert(recited =~= entered + (recital(scene.cast, whinge) + seq![blank_line()]));
        }
        self.close_scene(i, out);
        proof {
            assert(out@ =~= old(out)@ + scene_lines(start, i as int, whinge));
        }
    }

    /// Recites the play: its fragments in their order, each with its entrances,
    /// its recital, a blank line and its exits.
    pub fn recite(&mut self, out: &mut Transcript)
        ensures
            final(out)@ == old(out)@ + performance(old(self)@, old(out).whinges()),
            final(out).whinges() == old(out).whinges(),
            final(self)@ == old(self)@.map_values(|scene: SceneView| played(scene)),
    {
        let ghost start = self@;
        let ghost whinge = out.whinges();
        let n = self.fragments.len();
        let mut i: usize = 0;
        proof {
            assert(out@ =~= old(out)@ + performance_upto(start, 0, whinge));
        }
        while i < n
            invariant
                i <= n,
                n == start.len(),
                self@.len() == n,
                forall|j: int| 0 <= j < i ==> (#[trigger] self@[j]) == played(start[j]),
                forall|j: int| i <= j < n ==> (#[trigger] self@[j]) == start[j],
                out.whinges() == whinge,
                out@ == old(out)@ + performance_upto(start, i as int, whinge),
            decreases n - i,
        {
            let ghost now = self@;
            self.recite_scene(i, out);
            proof {
                lemma_scene_lines_by_names(now, start, i as int, whinge);
                assert(out@ =~= old(out)@ + performance_upto(start, i + 1, whinge));
            }
            i += 1;
        }
        proof {
            assert(self@ =~= start.map_values(|scene: SceneView| played(scene)));
        }
    }
}

/// How a fragment closes depends on the fragment behind it by its names alone.
proof fn lemma_scene_closing_by_names(a: Seq<SceneView>, b: Seq<SceneView>, i: int)
    requires
        a.len() == b.len(),
        0 <= i < a.len(),
        a[i].names() == b[i].names(),
        i + 1 < a.len() ==> a[i + 1].names() == b[i + 1].names(),
    ensures
        scene_closing(a, i) == scene_closing(b, i),
{
    reveal(scene_closing);
}

/// What a fragment prints depends on its neighbours by their names alone.
proof fn lemma_scene_lines_by_names(a: Seq<SceneView>, b: Seq<SceneView>, i: int, whinge: bool)
    requires
        a.len() == b.len(),
        0 <= i < a.len(),
        a[i] == b[i],
        i > 0 ==> a[i - 1] == b[i - 1] || a[i - 1] == played(b[i - 1]),
        i + 1 < a.len() ==> a[i + 1] == b[i + 1] || a[i + 1] == played(b[i + 1]),
    ensures
        scene_lines(a, i, whinge) == scene_lines(b, i, whinge),
{
    reveal(scene_opening);
    reveal(scene_closing);
    if i > 0 {
        lemma_names_stay(b[i - 1].cast);
    }
    if i + 1 < a.len() {
        lemma_names_stay(b[i + 1].cast);
    }
}

} // verus!
