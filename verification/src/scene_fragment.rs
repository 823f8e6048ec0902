//! One scene of a play: a title and a cast. The cast is kept in the order of the
//! players' first line numbers, players without lines first, players that tie in
//! the order in which they were cast.
use std::cmp::Ordering;
use vstd::prelude::*;
use vstd::string::StringExecFns;
use crate::declarations::{all_loaded, first_failure, ErrorKind, LoadError, LoadErrorView};
use crate::player::{Player, PlayerView};
use crate::recital::{cast_wf, recital, recite, spent};
use crate::script_gen::{grab_trimmed_file_lines, trimmed_lines};
use crate::text::{blank, decimal, decimal_string, is_blank, split_whitespace, tokens};
use crate::transcript::{blank_line, if_whinging, said, warned, LineView, Transcript};

verus! {

/// The players' names and the files that hold their parts.
pub type PlayConfig = Vec<(String, String)>;

/// What a scene fragment is, as mathematics.
pub struct SceneView {
    pub title: Seq<char>,
    pub cast: Seq<PlayerView>,
}

/// The names of `cast`, in cast order.
pub open spec fn names_of(cast: Seq<PlayerView>) -> Seq<Seq<char>> {
    cast.map_values(|p: PlayerView| p.name)
}

/// Those of `names` that are not among `others`, in the order of `names`.
pub open spec fn absent_from(names: Seq<Seq<char>>, others: Seq<Seq<char>>) -> Seq<Seq<char>> {
    names.filter(|n: Seq<char>| !others.contains(n))
}

/// The stage direction for the entrance of `name`.
pub open spec fn enter_line(name: Seq<char>) -> LineView {
    said("[Enter "@ + name + ".]"@)
}

/// The stage direction for the exit of `name`.
pub open spec fn exit_line(name: Seq<char>) -> LineView {
    said("[Exit "@ + name + ".]"@)
}

/// The entrances of `names` onto a stage that holds `present`: one for each name
/// that is not there already, in the order of `names`.
pub open spec fn entrances(names: Seq<Seq<char>>, present: Seq<Seq<char>>) -> Seq<LineView> {
    absent_from(names, present).map_values(|n: Seq<char>| enter_line(n))
}

/// The exits of `names` from a stage where `staying` remain: one for each name
/// that does not stay, last name first.
pub open spec fn exits(names: Seq<Seq<char>>, staying: Seq<Seq<char>>) -> Seq<LineView> {
    absent_from(names.reverse(), staying).map_values(|n: Seq<char>| exit_line(n))
}

/// Whether `a` may stand before `b` in a cast.
pub open spec fn rank_le(a: PlayerView, b: PlayerView) -> bool {
    a.rank() <= b.rank()
}

/// Whether `cast` ascends by rank.
pub open spec fn cast_sorted(cast: Seq<PlayerView>) -> bool {
    forall|i: int, j: int| 0 <= i < j < cast.len() ==> #[trigger] rank_le(cast[i], cast[j])
}

/// The players of `cast` whose rank is `key`, in the order of `cast`.
pub open spec fn with_key(cast: Seq<PlayerView>, key: int) -> Seq<PlayerView> {
    cast.filter(|p: PlayerView| p.rank() == key)
}

/// What one line of a scene's configuration names: a player and the source of
/// the part, the first two words of the line. Nothing where the line has fewer.
pub open spec fn config_entry(line: Seq<char>) -> Option<(Seq<char>, Seq<char>)> {
    let words = tokens(line);
    if words.len() >= 2 {
        Some((words[0], words[1]))
    } else {
        None
    }
}

/// The warning about a configuration line that does not hold two words.
pub open spec fn config_warning(line: Seq<char>) -> Seq<LineView> {
    let n = tokens(line).len();
    if n < 2 {
        seq![
            warned(
                "Warning: Configuration line has too few tokens (expected 2, got "@ + decimal(n)
                    + "): '"@ + line + "'"@,
            ),
        ]
    } else if n > 2 {
        seq![
            warned(
                "Warning: Configuration line has too many tokens (expected 2, got "@ + decimal(n)
                    + "): '"@ + line + "'"@,
            ),
        ]
    } else {
        Seq::empty()
    }
}

/// The entries of the configuration `lines`, in order.
pub open spec fn config_entries(lines: Seq<Seq<char>>) -> Seq<(Seq<char>, Seq<char>)>
    decreases lines.len(),
{
    if lines.len() == 0 {
        Seq::empty()
    } else {
        let before = config_entries(lines.drop_last());
        match config_entry(lines.last()) {
            Some(entry) => before.push(entry),
            None => before,
        }
    }
}

/// The warnings about the configuration `lines`, in order.
pub open spec fn config_warnings(lines: Seq<Seq<char>>) -> Seq<LineView>
    decreases lines.len(),
{
    if lines.len() == 0 {
        Seq::empty()
    } else {
        config_warnings(lines.drop_last()) + config_warning(lines.last())
    }
}

impl SceneView {
    /// Whether the title holds anything but whitespace.
    pub open spec fn has_title(self) -> bool {
        !is_blank(self.title)
    }

    /// The names of the cast, in cast order.
    pub open spec fn names(self) -> Seq<Seq<char>> {
        names_of(self.cast)
    }

    /// The title as it is printed: between blank lines, the one before it left
    /// out at the head of the play. Nothing where the fragment has no title.
    pub open spec fn title_lines(self, is_first: bool) -> Seq<LineView> {
        if self.has_title() {
            let shown = seq![said(self.title), blank_line()];
            if is_first {
                shown
            } else {
                seq![blank_line()] + shown
            }
        } else {
            Seq::empty()
        }
    }

    /// What opens the first fragment: the title, and everybody enters.
    pub open spec fn opening(self) -> Seq<LineView> {
        self.title_lines(true) + entrances(self.names(), Seq::empty())
    }

    /// What opens a fragment that follows `previous`: the title, and those enter
    /// whose names `previous` does not hold.
    pub open spec fn entrance(self, previous: SceneView) -> Seq<LineView> {
        self.title_lines(false) + entrances(self.names(), previous.names())
    }

    /// What closes a fragment that `next` follows: those leave whose names `next`
    /// does not hold.
    pub open spec fn departure(self, next: SceneView) -> Seq<LineView> {
        exits(self.names(), next.names())
    }

    /// What closes the last fragment: everybody leaves.
    pub open spec fn closing(self) -> Seq<LineView> {
        exits(self.names(), Seq::empty())
    }
}

/// The players that `loaded` holds, where it holds no failure.
pub open spec fn arrivals(loaded: Seq<Result<Player, LoadError>>) -> Seq<PlayerView> {
    Seq::new(loaded.len(), |i: int| loaded[i]->Ok_0@)
}

/// `cast` is `old` and `new` together, in ascending order of rank, and players
/// of one rank stand as they do in `old`, then `new`.
pub open spec fn cast_from(
    cast: Seq<PlayerView>,
    old: Seq<PlayerView>,
    new: Seq<PlayerView>,
) -> bool {
    &&& cast_sorted(cast)
    &&& forall|key: int| #[trigger] with_key(cast, key) == with_key(old + new, key)
}

/// Of no names, none is absent.
proof fn lemma_absent_from_nobody(others: Seq<Seq<char>>)
    ensures
        absent_from(Seq::empty(), others) == Seq::<Seq<char>>::empty(),
{
    reveal(Seq::filter);
}

/// One more name is absent where it is not among the others.
proof fn lemma_absent_from_push(names: Seq<Seq<char>>, name: Seq<char>, others: Seq<Seq<char>>)
    ensures
        absent_from(names.push(name), others) == if others.contains(name) {
            absent_from(names, others)
        } else {
            absent_from(names, others).push(name)
        },
{
    names.lemma_filter_push(name, |n: Seq<char>| !others.contains(n));
}

/// One more name enters where it is not on stage.
proof fn lemma_entrances_push(names: Seq<Seq<char>>, name: Seq<char>, present: Seq<Seq<char>>)
    ensures
        entrances(names.push(name), present) == if present.contains(name) {
            entrances(names, present)
        } else {
            entrances(names, present).push(enter_line(name))
        },
{
    lemma_absent_from_push(names, name, present);
    if !present.contains(name) {
        assert(entrances(names.push(name), present) =~= entrances(names, present).push(
            enter_line(name),
        ));
    }
}

/// Walking a cast from its end announces the exits one by one.
proof fn lemma_exits_step(names: Seq<Seq<char>>, k: int, staying: Seq<Seq<char>>)
    requires
        0 <= k < names.len(),
    ensures
        ({
            let back = names.reverse();
            let name = names[names.len() - 1 - k];
            let before = absent_from(back.take(k), staying).map_values(|n: Seq<char>| exit_line(n));
            let after = absent_from(back.take(k + 1), staying).map_values(
                |n: Seq<char>| exit_line(n),
            );
            after == if staying.contains(name) {
                before
            } else {
                before.push(exit_line(name))
            }
        }),
{
    let back = names.reverse();
    let name = names[names.len() - 1 - k];
    assert(back.take(k + 1) =~= back.take(k).push(name));
    lemma_absent_from_push(back.take(k), name, staying);
    if !staying.contains(name) {
        assert(absent_from(back.take(k + 1), staying).map_values(|n: Seq<char>| exit_line(n))
            =~= absent_from(back.take(k), staying).map_values(|n: Seq<char>| exit_line(n)).push(
            exit_line(name),
        ));
    }
}

/// A cast without a player of rank `key` holds nobody of that rank.
proof fn lemma_with_key_none(cast: Seq<PlayerView>, key: int)
    requires
        forall|i: int| 0 <= i < cast.len() ==> (#[trigger] cast[i]).rank() != key,
    ensures
        with_key(cast, key) == Seq::<PlayerView>::empty(),
    decreases cast.len(),
{
    reveal(Seq::filter);
    if cast.len() > 0 {
        let head = cast.drop_last();
        assert forall|i: int| 0 <= i < head.len() implies (#[trigger] head[i]).rank() != key by {
            assert(head[i] == cast[i]);
        }
        lemma_with_key_none(head, key);
    }
}

/// A player put into a cast behind all that it does not tie with from behind
/// stands, among the players of each rank, where it would at the end.
proof fn lemma_with_key_insert(cast: Seq<PlayerView>, k: int, p: PlayerView, key: int)
    requires
        0 <= k <= cast.len(),
        forall|j: int| k <= j < cast.len() ==> (#[trigger] cast[j]).rank() != p.rank(),
    ensures
        with_key(cast.insert(k, p), key) == with_key(cast.push(p), key),
{
    let pred = |q: PlayerView| q.rank() == key;
    let head = cast.take(k);
    let rest = cast.skip(k);
    assert(cast.insert(k, p) =~= head.push(p) + rest);
    assert(cast =~= head + rest);
    Seq::filter_distributes_over_add(head.push(p), rest, pred);
    Seq::filter_distributes_over_add(head, rest, pred);
    head.lemma_filter_push(p, pred);
    cast.lemma_filter_push(p, pred);
    if p.rank() == key {
        assert forall|i: int| 0 <= i < rest.len() implies (#[trigger] rest[i]).rank() != key by {
            assert(rest[i] == cast[i + k]);
        }
        lemma_with_key_none(rest, key);
        assert(head.filter(pred).push(p) + Seq::<PlayerView>::empty() =~= (head.filter(pred)
            + Seq::<PlayerView>::empty()).push(p));
    }
}

/// One scene of a play.
pub struct SceneFragment {
    title: String,
    players: Vec<Player>,
}

impl View for SceneFragment {
    type V = SceneView;

    closed spec fn view(&self) -> SceneView {
        SceneView { title: self.title@, cast: self.players.deep_view() }
    }
}

impl DeepView for SceneFragment {
    type V = SceneView;

    open spec fn deep_view(&self) -> SceneView {
        self@
    }
}

/// The names on a stage that holds the cast of `other`, or nobody.
spec fn names_in(other: Option<&SceneFragment>) -> Seq<Seq<char>> {
    match other {
        Some(fragment) => fragment@.names(),
        None => Seq::empty(),
    }
}

fn stands_behind(a: &Player, b: &Player) -> (r: bool)
    ensures
        r == (a@.rank() > b@.rank()),
{
    match SceneFragment::compare_players(a, b) {
        Ordering::Greater => true,
        _ => false,
    }
}

/// Puts `p` into `cast`, behind the last player that does not stand behind it.
fn cast_player(cast: &mut Vec<Player>, p: Player)
    requires
        cast_sorted(old(cast).deep_view()),
    ensures
        cast_sorted(final(cast).deep_view()),
        forall|key: int| #[trigger]
            with_key(final(cast).deep_view(), key) == with_key(old(cast).deep_view().push(p@), key),
{
    let ghost before = cast.deep_view();
    let mut k: usize = cast.len();
    while k > 0 && stands_behind(&cast[k - 1], &p)
        invariant
            k <= cast.len(),
            before == cast.deep_view(),
            forall|j: int| k <= j < before.len() ==> (#[trigger] before[j]).rank() > p@.rank(),
        decreases k,
    {
        k -= 1;
    }
    cast.insert(k, p);
    proof {
        let after = cast.deep_view();
        assert(after =~= before.insert(k as int, p@));
        assert forall|key: int| #[trigger]
            with_key(after, key) == with_key(before.push(p@), key) by {
            lemma_with_key_insert(before, k as int, p@, key);
        }
        assert forall|i: int, j: int| 0 <= i < j < after.len() implies #[trigger] rank_le(
            after[i],
            after[j],
        ) by {
            let bi = if i < k { i } else { i - 1 };
            let bj = if j < k { j } else { j - 1 };
            if i != k {
                assert(after[i] == before[bi]);
            }
            if j != k {
                assert(after[j] == before[bj]);
            }
            if i < k && j < k {
                assert(rank_le(before[i], before[j]));
            } else if i > k {
                assert(rank_le(before[i - 1], before[j - 1]));
            } else if j == k && i < k - 1 {
                assert(rank_le(before[i], before[k - 1]));
            }
        }
    }
}

impl SceneFragment {
    #[verifier::type_invariant]
    closed spec fn inv(&self) -> bool {
        cast_sorted(self@.cast)
    }

    /// A fragment called `title` with nobody in it.
    pub fn new(title: &String) -> (fragment: SceneFragment)
        ensures
            fragment@ == (SceneView { title: title@, cast: Seq::empty() }),
    {
        let fragment = SceneFragment { title: title.clone(), players: Vec::new() };
        assert(fragment@.cast =~= Seq::<PlayerView>::empty());
        fragment
    }

    /// Takes one line of the scene's configuration: its first two words are a
    /// player's name and the source of the part. A line of fewer words names
    /// nobody. Any other count than two is warned of.
    pub fn add_config(&self, line: &String, config: &mut PlayConfig, out: &mut Transcript)
        ensures
            final(config).deep_view() == match config_entry(line@) {
                Some(entry) => old(config).deep_view().push(entry),
                None => old(config).deep_view(),
            },
            final(out)@ == old(out)@ + if_whinging(old(out).whinges(), config_warning(line@)),
            final(out).whinges() == old(out).whinges(),
    {
        let words = split_whitespace(line.as_str());
        let n = words.len();
        if n != 2 && out.whinge() {
            let head = if n < 2 {
                "Warning: Configuration line has too few tokens (expected 2, got "
            } else {
                "Warning: Configuration line has too many tokens (expected 2, got "
            };
            out.warn(
                String::from_str(head).concat(decimal_string(n).as_str()).concat("): '").concat(
                    line.as_str(),
                ).concat("'"),
            );
            assert(out@ =~= old(out)@ + config_warning(line@));
        } else {
            assert(out@ =~= old(out)@ + Seq::<LineView>::empty());
        }
        if n >= 2 {
            let ghost before = config.deep_view();
            config.push((words[0].clone(), words[1].clone()));
            assert(config.deep_view() =~= before.push((words[0]@, words[1]@)));
            assert(words.deep_view()[0] == words[0]@);
            assert(words.deep_view()[1] == words[1]@);
        }
    }

    /// Reads a scene's configuration from `config_lines`, the lines of the source
    /// `config_filename` as they were read. A configuration without any line is
    /// an error; else every line is trimmed and taken as
    /// [`SceneFragment::add_config`] does.
    pub fn read_config(
        &self,
        config_filename: &String,
        config_lines: &Vec<String>,
        config: &mut PlayConfig,
        out: &mut Transcript,
    ) -> (r: Result<(), LoadError>)
        ensures
            final(out).whinges() == old(out).whinges(),
            config_lines.len() == 0 ==> {
                &&& r is Err
                &&& r->Err_0@ == (LoadErrorView {
                    kind: ErrorKind::ConfigParsing,
                    path: config_filename@,
                })
                &&& final(config).deep_view() == old(config).deep_view()
                &&& final(out)@ == old(out)@
            },
            config_lines.len() > 0 ==> {
                &&& r is Ok
                &&& final(config).deep_view() == old(config).deep_view() + config_entries(
                    trimmed_lines(config_lines.deep_view()),
                )
                &&& final(out)@ == old(out)@ + if_whinging(
                    old(out).whinges(),
                    config_warnings(trimmed_lines(config_lines.deep_view())),
                )
            },
    {
        let mut lines: Vec<String> = Vec::new();
        grab_trimmed_file_lines(config_lines, &mut lines);
        if lines.len() == 0 {
            return Err(LoadError::new(ErrorKind::ConfigParsing, config_filename));
        }
        let ghost all = lines.deep_view();
        let ghost whinge = out.whinges();
        let mut i: usize = 0;
        proof {
            assert(all =~= trimmed_lines(config_lines.deep_view()));
            assert(all.take(0) =~= Seq::<Seq<char>>::empty());
            assert(config.deep_view() =~= old(config).deep_view() + config_entries(all.take(0)));
            assert(out@ =~= old(out)@ + if_whinging(whinge, config_warnings(all.take(0))));
        }
        while i < lines.len()
            invariant
                i <= lines.len(),
                all == lines.deep_view(),
                whinge == old(out).whinges(),
                out.whinges() == whinge,
                config.deep_view() == old(config).deep_view() + config_entries(all.take(i as int)),
                out@ == old(out)@ + if_whinging(whinge, config_warnings(all.take(i as int))),
            decreases lines.len() - i,
        {
            self.add_config(&lines[i], config, out);
            proof {
                let now = all.take(i + 1);
                assert(now.drop_last() =~= all.take(i as int));
                assert(now.last() == lines[i as int]@);
                assert(config.deep_view() =~= old(config).deep_view() + config_entries(now));
                assert(out@ =~= old(out)@ + if_whinging(whinge, config_warnings(now)));
            }
            i += 1;
        }
        proof {
            assert(all.take(i as int) =~= all);
        }
        Ok(())
    }

    /// Casts the scene: for each entry of `config`, in order, a player of that
    /// name without lines yet, and the source to prepare it from.
    pub fn process_config(&self, config: &PlayConfig) -> (tasks: Vec<(Player, String)>)
        ensures
            tasks.len() == config.len(),
            forall|i: int|
                0 <= i < config.len() ==> {
                    &&& (#[trigger] tasks[i]).0@ == (PlayerView {
                        name: config[i].0@,
                        lines: Seq::empty(),
                        index: 0,
                    })
                    &&& tasks[i].1@ == config[i].1@
                },
    {
        let mut tasks: Vec<(Player, String)> = Vec::new();
        let mut i: usize = 0;
        while i < config.len()
            invariant
                i <= config.len(),
                tasks.len() == i,
                forall|k: int|
                    0 <= k < i ==> {
                        &&& (#[trigger] tasks[k]).0@ == (PlayerView {
                            name: config[k].0@,
                            lines: Seq::empty(),
                            index: 0,
                        })
                        &&& tasks[k].1@ == config[k].1@
                    },
            decreases config.len() - i,
        {
            let player = Player::new(&config[i].0);
            tasks.push((player, config[i].1.clone()));
            i += 1;
        }
        tasks
    }

    /// Where `a` stands against `b` in a cast.
    pub fn compare_players(a: &Player, b: &Player) -> (r: Ordering)
        ensures
            a@.rank() < b@.rank() <==> r == Ordering::Less,
            a@.rank() == b@.rank() <==> r == Ordering::Equal,
            a@.rank() > b@.rank() <==> r == Ordering::Greater,
    {
        match a.partial_cmp(b) {
            Some(ordering) => ordering,
            None => Ordering::Equal,
        }
    }

    /// Takes the players that were prepared for the scene, in the order in which
    /// they were cast. The first failure among them is the scene's, and leaves
    /// the scene as it was. Else they join the cast, which is put in ascending
    /// order of first line numbers, players without lines first; players that
    /// tie keep the order they came in. That is one cast and no other
    /// ([`crate::theorems::lemma_cast_from_is_unique`]).
    pub fn prepare(&mut self, loaded: Vec<Result<Player, LoadError>>) -> (r: Result<(), LoadError>)
        ensures
            all_loaded(loaded@) <==> r is Ok,
            r is Ok ==> {
                &&& final(self)@.title == old(self)@.title
                &&& cast_from(final(self)@.cast, old(self)@.cast, arrivals(loaded@))
            },
            r is Err ==> final(self)@ == old(self)@,
            forall|i: int| first_failure(loaded@, i) ==> r is Err && r->Err_0@ == loaded[i]->Err_0@,
    {
        proof {
            use_type_invariant(&*self);
        }
        let mut i: usize = 0;
        while i < loaded.len()
            invariant
                i <= loaded.len(),
                forall|j: int| 0 <= j < i ==> (#[trigger] loaded[j]) is Ok,
            decreases loaded.len() - i,
        {
            match &loaded[i] {
                Err(e) => {
                    assert(first_failure(loaded@, i as int));
                    return Err(LoadError::new(e.kind, &e.path));
                },
                Ok(_) => {},
            }
            i += 1;
        }
        let ghost new = arrivals(loaded@);
        let ghost before = self@.cast;
        let mut cast: Vec<Player> = Vec::new();
        core::mem::swap(&mut self.players, &mut cast);
        proof {
            assert(cast.deep_view() =~= before);
            assert(before + new.take(0) =~= before);
        }
        let all = loaded.into_iter();
        for item in it: all
            invariant
                it.seq() == loaded@,
                all_loaded(loaded@),
                new == arrivals(loaded@),
                cast_from(cast.deep_view(), before, new.take(it.index() as int)),
        {
            let ghost so_far = cast.deep_view();
            let ghost n = it.index() as int;
            match item {
                Ok(p) => {
                    cast_player(&mut cast, p);
                    proof {
                        assert(p@ == new[n]);
                        assert(before + new.take(n + 1) =~= (before + new.take(n)).push(p@));
                        assert forall|key: int| #[trigger]
                            with_key(cast.deep_view(), key) == with_key(
                                before + new.take(n + 1),
                                key,
                            ) by {
                            let pred = |q: PlayerView| q.rank() == key;
                            so_far.lemma_filter_push(p@, pred);
                            (before + new.take(n)).lemma_filter_push(p@, pred);
                            assert(with_key(so_far, key) == with_key(before + new.take(n), key));
                        }
                    }
                },
                Err(_) => {
                    assert(loaded@[n] is Ok);
                },
            }
        }
        proof {
            assert(new.take(loaded@.len() as int) =~= new);
        }
        self.players = cast;
        Ok(())
    }

    /// Whether the title holds anything but whitespace.
    pub fn has_title(&self) -> (b: bool)
        ensures
            b == self@.has_title(),
    {
        !blank(self.title.as_str())
    }

    /// Whether a player called `name` is in the cast.
    pub fn holds(&self, name: &String) -> (b: bool)
        ensures
            b == self@.names().contains(name@),
    {
        let mut i: usize = 0;
        while i < self.players.len()
            invariant
                i <= self.players.len(),
                forall|k: int| 0 <= k < i ==> self@.names()[k] != name@,
            decreases self.players.len() - i,
        {
            if *self.players[i].name() == *name {
                assert(self@.names()[i as int] == name@);
                return true;
            }
            i += 1;
        }
        false
    }

    /// Prints the title, if the fragment has one.
    pub fn print_title(&self, is_first: bool, out: &mut Transcript)
        ensures
            final(out)@ == old(out)@ + self@.title_lines(is_first),
            final(out).whinges() == old(out).whinges(),
    {
        if self.has_title() {
            if !is_first {
                out.say_blank();
            }
            out.say(self.title.clone());
            out.say_blank();
            assert(out@ =~= old(out)@ + self@.title_lines(is_first));
        } else {
            assert(out@ =~= old(out)@ + self@.title_lines(is_first));
        }
    }

    /// Announces the entrances onto a stage that holds the cast of `previous`,
    /// or nobody.
    fn announce_entrances(&self, previous: Option<&SceneFragment>, out: &mut Transcript)
        ensures
            final(out)@ == old(out)@ + entrances(self@.names(), names_in(previous)),
            final(out).whinges() == old(out).whinges(),
    {
        let ghost names = self@.names();
        let ghost present = names_in(previous);
        let mut i: usize = 0;
        proof {
            assert(names.take(0) =~= Seq::<Seq<char>>::empty());
            lemma_absent_from_nobody(present);
            assert(out@ =~= old(out)@ + entrances(names.take(0), present));
        }
        while i < self.players.len()
            invariant
                i <= self.players.len(),
                names == self@.names(),
                present == names_in(previous),
                out@ == old(out)@ + entrances(names.take(i as int), present),
                out.whinges() == old(out).whinges(),
            decreases self.players.len() - i,
        {
            let name = self.players[i].name();
            proof {
                assert(names.take(i + 1) =~= names.take(i as int).push(name@));
                lemma_entrances_push(names.take(i as int), name@, present);
            }
            let there = match previous {
                Some(fragment) => fragment.holds(name),
                None => false,
            };
            if !there {
                out.say(String::from_str("[Enter ").concat(name.as_str()).concat(".]"));
            }
            i += 1;
        }
        proof {
            assert(names.take(i as int) =~= names);
        }
    }

    /// Announces the exits from a stage where the cast of `next` stays, or
    /// nobody.
    fn announce_exits(&self, next: Option<&SceneFragment>, out: &mut Transcript)
        ensures
            final(out)@ == old(out)@ + exits(self@.names(), names_in(next)),
            final(out).whinges() == old(out).whinges(),
    {
        let ghost names = self@.names();
        let ghost staying = names_in(next);
        let n = self.players.len();
        let mut k: usize = 0;
        proof {
            assert(names.reverse().take(0) =~= Seq::<Seq<char>>::empty());
            lemma_absent_from_nobody(staying);
            assert(out@ =~= old(out)@ + absent_from(names.reverse().take(0), staying).map_values(
                |n: Seq<char>| exit_line(n),
            ));
        }
        while k < n
            invariant
                k <= n,
                n == self.players.len(),
                names == self@.names(),
                staying == names_in(next),
                out@ == old(out)@ + absent_from(names.reverse().take(k as int), staying).map_values(
                    |n: Seq<char>| exit_line(n),
                ),
                out.whinges() == old(out).whinges(),
            decreases n - k,
        {
            let name = self.players[n - 1 - k].name();
            proof {
                lemma_exits_step(names, k as int, staying);
            }
            let stays = match next {
                Some(fragment) => fragment.holds(name),
                None => false,
            };
            if !stays {
                out.say(String::from_str("[Exit ").concat(name.as_str()).concat(".]"));
            }
            k += 1;
        }
        proof {
            assert(names.reverse().take(k as int) =~= names.reverse());
        }
    }

    /// Opens a fragment that follows `previous`.
    pub fn enter(&self, previous: &SceneFragment, out: &mut Transcript)
        ensures
            final(out)@ == old(out)@ + self@.entrance(previous@),
            final(out).whinges() == old(out).whinges(),
    {
        self.print_title(false, out);
        self.announce_entrances(Some(previous), out);
        assert(out@ =~= old(out)@ + self@.entrance(previous@));
    }

    /// Opens the first fragment.
    pub fn enter_all(&self, out: &mut Transcript)
        ensures
            final(out)@ == old(out)@ + self@.opening(),
            final(out).whinges() == old(out).whinges(),
    {
        self.print_title(true, out);
        self.announce_entrances(None, out);
        assert(out@ =~= old(out)@ + self@.opening());
    }

    /// Closes a fragment that `next` follows.
    pub fn exit(&self, next: &SceneFragment, out: &mut Transcript)
        ensures
            final(out)@ == old(out)@ + self@.departure(next@),
            final(out).whinges() == old(out).whinges(),
    {
        self.announce_exits(Some(next), out);
    }

    /// Closes the last fragment.
    pub fn exit_all(&self, out: &mut Transcript)
        ensures
            final(out)@ == old(out)@ + self@.closing(),
            final(out).whinges() == old(out).whinges(),
    {
        self.announce_exits(None, out);
    }

    /// Recites the scene: the players speak their lines in the order of the line
    /// numbers, each line once, until none is left. A warning goes with every
    /// line number that is passed over or comes again.
    pub fn recite(&mut self, out: &mut Transcript)
        ensures
            cast_wf(old(self)@.cast),
            final(out)@ == old(out)@ + recital(old(self)@.cast, old(out).whinges()),
            final(out).whinges() == old(out).whinges(),
            final(self)@.title == old(self)@.title,
            final(self)@.cast == spent(old(self)@.cast),
    {
        proof {
            use_type_invariant(&*self);
        }
        let ghost start = self@.cast;
        // the cast leaves the scene while it speaks
        let mut cast: Vec<Player> = Vec::new();
        core::mem::swap(&mut self.players, &mut cast);
        recite(&mut cast, out);
        proof {
            let end = cast.deep_view();
            assert forall|i: int, j: int| 0 <= i < j < end.len() implies #[trigger] rank_le(
                end[i],
                end[j],
            ) by {
                assert(rank_le(start[i], start[j]));
            }
        }
        self.players = cast;
    }
}

} // verus!
