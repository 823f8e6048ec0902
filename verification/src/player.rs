//! One character of a play: a name, numbered lines in ascending order, and a
//! cursor on the next line to speak.
use std::cmp::Ordering;
use vstd::prelude::*;
use vstd::multiset::{lemma_multiset_empty_len, Multiset};
use vstd::seq_lib::to_multiset_insert;
use vstd::string::StringExecFns;
use crate::script_gen::{grab_trimmed_file_lines, trimmed_lines};
use crate::text::{
    lemma_text_le_total, lemma_text_le_transitive, lemma_word_len_is, number, parse_number,
    chars_of, is_whitespace, is_space, text_le, text_no_later, trim, trimmed, word_len,
};
use crate::transcript::{blank_line, if_whinging, said, warned, LineView, Transcript};

verus! {

/// A numbered line of dialogue: its number and its text.
pub type Speech = (nat, Seq<char>);

/// What a player is, as mathematics.
pub struct PlayerView {
    pub name: Seq<char>,
    pub lines: Seq<Speech>,
    pub index: nat,
}

/// The order in which a player's lines stand: by number, then by text.
pub open spec fn line_le(a: Speech, b: Speech) -> bool {
    a.0 < b.0 || (a.0 == b.0 && text_le(a.1, b.1))
}

/// Whether `lines` ascend.
pub open spec fn lines_sorted(lines: Seq<Speech>) -> bool {
    forall|i: int, j: int|
        0 <= i < j < lines.len() ==> #[trigger] line_le(lines[i], lines[j])
}

/// What one line of a part file says.
pub enum Parsed {
    /// Nothing: the line is empty.
    Nothing,
    /// A line whose first word is no usable line number; the word.
    Garbled(Seq<char>),
    /// A line of dialogue.
    Speech(nat, Seq<char>),
}

/// The dialogue of a line whose first word has `n` characters: what stands
/// behind the whitespace that ends the word, trimmed; nothing where the word
/// is the whole line.
pub open spec fn dialogue(line: Seq<char>, n: int) -> Seq<char> {
    if n < line.len() {
        trimmed(line.skip(n + 1))
    } else {
        Seq::empty()
    }
}

/// Reads one line of a part file: its first word, which ends at the first
/// whitespace or with the line, is the line number; the rest of the line,
/// trimmed, is the dialogue, which may be empty. A first word that is no
/// number the machine can hold makes the line garbled. An empty line says
/// nothing.
pub open spec fn script_line(line: Seq<char>) -> Parsed {
    if line.len() == 0 {
        Parsed::Nothing
    } else {
        let n = word_len(line) as int;
        let head = line.take(n);
        match number(head) {
            Some(v) => if v <= usize::MAX {
                Parsed::Speech(v, dialogue(line, n))
            } else {
                Parsed::Garbled(head)
            },
            None => Parsed::Garbled(head),
        }
    }
}

/// The lines of dialogue among `lines`, in the order of `lines`.
pub open spec fn speeches(lines: Seq<Seq<char>>) -> Seq<Speech>
    decreases lines.len(),
{
    if lines.len() == 0 {
        Seq::empty()
    } else {
        let before = speeches(lines.drop_last());
        match script_line(lines.last()) {
            Parsed::Speech(n, text) => before.push((n, text)),
            _ => before,
        }
    }
}

/// The warning about a first word `word` that is no line number.
pub open spec fn bad_number_warning(word: Seq<char>) -> Seq<char> {
    "Warning: '"@ + word + "' does not represent a valid line number"@
}

/// The warnings that `lines` give rise to, in the order of `lines`.
pub open spec fn complaints(lines: Seq<Seq<char>>) -> Seq<LineView>
    decreases lines.len(),
{
    if lines.len() == 0 {
        Seq::empty()
    } else {
        let before = complaints(lines.drop_last());
        match script_line(lines.last()) {
            Parsed::Garbled(word) => before.push(warned(bad_number_warning(word))),
            _ => before,
        }
    }
}

impl PlayerView {
    /// The cursor is on a line or just behind the last, and the lines ascend.
    pub open spec fn wf(self) -> bool {
        &&& self.index <= self.lines.len()
        &&& lines_sorted(self.lines)
    }

    /// The number of the next line to speak, if one is left.
    pub open spec fn next_line(self) -> Option<nat> {
        if self.index < self.lines.len() {
            Some(self.lines[self.index as int].0)
        } else {
            None
        }
    }

    /// The number of the first line, spoken or not.
    pub open spec fn first_line(self) -> Option<nat> {
        if self.lines.len() > 0 {
            Some(self.lines[0].0)
        } else {
            None
        }
    }

    /// The player's place in a cast: ahead of all others without lines, else by
    /// the number of the first line.
    pub open spec fn rank(self) -> int {
        match self.first_line() {
            Some(n) => n as int,
            None => -1,
        }
    }

    /// How many lines are left to speak.
    pub open spec fn left(self) -> nat {
        if self.index < self.lines.len() {
            (self.lines.len() - self.index) as nat
        } else {
            0
        }
    }

    /// The player after speaking one line, if one was left.
    pub open spec fn stepped(self) -> PlayerView {
        if self.index < self.lines.len() {
            PlayerView { index: self.index + 1, ..self }
        } else {
            self
        }
    }

    /// What is printed when the player speaks while `speaker` spoke last: a blank
    /// line and the name with a full stop unless the player is `speaker`, then the
    /// line. Nothing where no line is left.
    pub open spec fn utterance(self, speaker: Seq<char>) -> Seq<LineView> {
        if self.index < self.lines.len() {
            let speech = seq![said(self.lines[self.index as int].1)];
            if speaker != self.name {
                seq![blank_line(), said(self.name + "."@)] + speech
            } else {
                speech
            }
        } else {
            Seq::empty()
        }
    }
}

/// Of two lines, one stands no later than the other.
pub proof fn lemma_line_le_total(a: Speech, b: Speech)
    ensures
        line_le(a, b) || line_le(b, a),
{
    lemma_text_le_total(a.1, b.1);
}

/// A line that stands no later than a second, which stands no later than a
/// third, stands no later than the third.
pub proof fn lemma_line_le_transitive(a: Speech, b: Speech, c: Speech)
    requires
        line_le(a, b),
        line_le(b, c),
    ensures
        line_le(a, c),
{
    if a.0 == b.0 && b.0 == c.0 {
        lemma_text_le_transitive(a.1, b.1, c.1);
    }
}

proof fn lemma_no_speeches()
    ensures
        Seq::<Speech>::empty().to_multiset() == Multiset::<Speech>::empty(),
{
    let none = Seq::<Speech>::empty();
    none.to_multiset_ensures();
    lemma_multiset_empty_len(none.to_multiset());
    assert(none.to_multiset() =~= Multiset::<Speech>::empty());
}

/// One character of a play.
pub struct Player {
    name: String,
    lines: Vec<(usize, String)>,
    index: usize,
}

/// The lines of a player as mathematics: numbers as naturals, texts as sequences
/// of characters.
pub closed spec fn speeches_of(lines: Seq<(usize, String)>) -> Seq<Speech> {
    Seq::new(lines.len(), |i: int| (lines[i].0 as nat, lines[i].1@))
}

impl View for Player {
    type V = PlayerView;

    closed spec fn view(&self) -> PlayerView {
        PlayerView {
            name: self.name@,
            lines: speeches_of(self.lines@),
            index: self.index as nat,
        }
    }
}

impl DeepView for Player {
    type V = PlayerView;

    open spec fn deep_view(&self) -> PlayerView {
        self@
    }
}

fn line_no_later(a: &(usize, String), b: &(usize, String)) -> (r: bool)
    ensures
        r == line_le((a.0 as nat, a.1@), (b.0 as nat, b.1@)),
{
    a.0 < b.0 || (a.0 == b.0 && text_no_later(a.1.as_str(), b.1.as_str()))
}

impl Player {
    #[verifier::type_invariant]
    closed spec fn inv(&self) -> bool {
        self@.wf()
    }

    /// A player called `name` without lines.
    pub fn new(name: &String) -> (p: Player)
        ensures
            p@ == (PlayerView { name: name@, lines: Seq::empty(), index: 0 }),
    {
        let p = Player { name: name.clone(), lines: Vec::new(), index: 0 };
        assert(p@.lines =~= Seq::<Speech>::empty());
        p
    }

    /// Takes one line of a part file. A line of dialogue, which is a line number
    /// and what may follow it, goes among the player's lines, behind those that
    /// are no later than it; a line whose first word is no line number is
    /// dropped with a warning; an empty line is passed over.
    ///
    /// The lines afterwards are those before and the new one, in ascending order,
    /// which is one order and no other
    /// ([`crate::theorems::lemma_sorted_lines_are_unique`]).
    pub fn add_script_line(&mut self, line: &String, out: &mut Transcript)
        ensures
            final(self)@.wf(),
            final(self)@.name == old(self)@.name,
            final(self)@.index == old(self)@.index,
            final(self)@.lines.to_multiset() == match script_line(line@) {
                Parsed::Speech(n, text) => old(self)@.lines.to_multiset().insert((n, text)),
                _ => old(self)@.lines.to_multiset(),
            },
            script_line(line@) matches Parsed::Speech(n, text) ==> exists|k: int|
                0 <= k <= old(self)@.lines.len() && final(self)@.lines == old(
                    self,
                )@.lines.insert(k, (n, text)),
            !(script_line(line@) is Speech) ==> final(self)@ == old(self)@,
            final(out)@ == old(out)@ + if_whinging(
                old(out).whinges(),
                match script_line(line@) {
                    Parsed::Garbled(word) => seq![warned(bad_number_warning(word))],
                    _ => Seq::empty(),
                },
            ),
            final(out).whinges() == old(out).whinges(),
    {
        proof {
            use_type_invariant(&*self);
            assert(old(out)@ + Seq::<LineView>::empty() =~= old(out)@);
        }
        let chars = chars_of(line.as_str());
        let mut n: usize = 0;
        while n < chars.len() && !is_whitespace(chars[n])
            invariant
                n <= chars.len(),
                forall|k: int| 0 <= k < n ==> !is_space(#[trigger] chars@[k]),
            decreases chars.len() - n,
        {
            n += 1;
        }
        proof {
            lemma_word_len_is(line@, n as int);
        }
        if chars.len() == 0 {
            return ;
        }
        let head = line.as_str().substring_char(0, n);
        proof {
            assert(line@.subrange(0, n as int) =~= line@.take(n as int));
        }
        match parse_number(head) {
            Some(number) => {
                let text = if n < chars.len() {
                    proof {
                        assert(line@.subrange(n + 1, chars.len() as int) =~= line@.skip(n + 1));
                    }
                    trim(line.as_str().substring_char(n + 1, chars.len()))
                } else {
                    String::new()
                };
                let speech = (number, text);
                let ghost x: Speech = (number as nat, speech.1@);
                let ghost before = speeches_of(self.lines@);
                // the lines leave the player while one is added: the cursor waits at 0
                let index = self.index;
                self.index = 0;
                let mut lines: Vec<(usize, String)> = Vec::new();
                core::mem::swap(&mut self.lines, &mut lines);
                let mut k: usize = lines.len();
                while k > 0 && !line_no_later(&lines[k - 1], &speech)
                    invariant
                        k <= lines.len(),
                        x == (speech.0 as nat, speech.1@),
                        before == speeches_of(lines@),
                        forall|j: int| k <= j < before.len() ==> line_le(x, #[trigger] before[j]),
                    decreases k,
                {
                    proof {
                        lemma_line_le_total(before[k - 1], x);
                    }
                    k -= 1;
                }
                lines.insert(k, speech);
                proof {
                    let after = speeches_of(lines@);
                    assert(after =~= before.insert(k as int, x));
                    to_multiset_insert(before, k as int, x);
                    assert forall|i: int, j: int| 0 <= i < j < after.len() implies #[trigger] line_le(
                        after[i],
                        after[j],
                    ) by {
                        if j == k {
                            assert(after[i] == before[i]);
                            if i < k - 1 {
                                assert(line_le(before[i], before[k - 1]));
                                lemma_line_le_transitive(before[i], before[k - 1], x);
                            }
                        } else if i == k {
                            assert(after[j] == before[j - 1]);
                        } else {
                            let bi = if i < k { i } else { i - 1 };
                            let bj = if j < k { j } else { j - 1 };
                            assert(after[i] == before[bi]);
                            assert(after[j] == before[bj]);
                        }
                    }
                }
                self.lines = lines;
                self.index = index;
                assert(self@.lines == old(self)@.lines.insert(k as int, x));
            },
            None => {
                if out.whinge() {
                    let text = String::from_str("Warning: '").concat(head).concat(
                        "' does not represent a valid line number",
                    );
                    out.warn(text);
                }
            },
        }
    }

    /// Learns a part: trims each line of `part_lines` and takes it as
    /// [`Player::add_script_line`] does. The lines of dialogue join those that
    /// the player has, and all stand in ascending order, which is one order and
    /// no other ([`crate::theorems::lemma_sorted_lines_are_unique`]).
    pub fn prepare(&mut self, part_lines: &Vec<String>, out: &mut Transcript)
        ensures
            final(self)@.wf(),
            final(self)@.name == old(self)@.name,
            final(self)@.index == old(self)@.index,
            final(self)@.lines.to_multiset() == old(self)@.lines.to_multiset().add(
                speeches(trimmed_lines(part_lines.deep_view())).to_multiset(),
            ),
            final(out)@ == old(out)@ + if_whinging(
                old(out).whinges(),
                complaints(trimmed_lines(part_lines.deep_view())),
            ),
            final(out).whinges() == old(out).whinges(),
    {
        let mut lines: Vec<String> = Vec::new();
        grab_trimmed_file_lines(part_lines, &mut lines);
        let ghost all = lines.deep_view();
        let mut i: usize = 0;
        proof {
            assert(all.take(0) =~= Seq::<Seq<char>>::empty());
            assert(old(out)@ + Seq::<LineView>::empty() =~= old(out)@);
            lemma_no_speeches();
            assert(old(self)@.lines.to_multiset().add(Seq::<Speech>::empty().to_multiset())
                =~= old(self)@.lines.to_multiset());
            use_type_invariant(&*self);
            assert(all =~= trimmed_lines(part_lines.deep_view()));
        }
        while i < lines.len()
            invariant
                i <= lines.len(),
                all == lines.deep_view(),
                self@.wf(),
                self@.name == old(self)@.name,
                self@.index == old(self)@.index,
                self@.lines.to_multiset() == old(self)@.lines.to_multiset().add(
                    speeches(all.take(i as int)).to_multiset(),
                ),
                out@ == old(out)@ + if_whinging(old(out).whinges(), complaints(all.take(i as int))),
                out.whinges() == old(out).whinges(),
            decreases lines.len() - i,
        {
            self.add_script_line(&lines[i], out);
            proof {
                let now = all.take(i + 1);
                assert(now.drop_last() =~= all.take(i as int));
                assert(now.last() == lines[i as int]@);
                let s = speeches(all.take(i as int));
                match script_line(lines[i as int]@) {
                    Parsed::Speech(n, text) => {
                        s.to_multiset_ensures();
                        assert(self@.lines.to_multiset() =~= old(self)@.lines.to_multiset().add(
                            s.push((n, text)).to_multiset(),
                        ));
                    },
                    _ => {},
                }
                let c = complaints(all.take(i as int));
                if old(out).whinges() {
                    match script_line(lines[i as int]@) {
                        Parsed::Garbled(word) => {
                            assert(out@ =~= old(out)@ + c.push(warned(bad_number_warning(word))));
                        },
                        _ => {
                            assert(out@ =~= old(out)@ + c);
                        },
                    }
                } else {
                    assert(out@ =~= old(out)@ + Seq::<LineView>::empty());
                }
            }
            i += 1;
        }
        proof {
            assert(all.take(i as int) =~= all);
        }
    }

    /// Speaks the next line, if one is left: prints it to `out`, behind a blank
    /// line and the player's name where another spoke last, and moves on.
    pub fn speak(&mut self, current_speaker: &mut String, out: &mut Transcript)
        ensures
            final(self)@ == old(self)@.stepped(),
            final(current_speaker)@ == if old(self)@.next_line() is Some {
                old(self)@.name
            } else {
                old(current_speaker)@
            },
            final(out)@ == old(out)@ + old(self)@.utterance(old(current_speaker)@),
            final(out).whinges() == old(out).whinges(),
    {
        proof {
            use_type_invariant(&*self);
        }
        if self.index >= self.lines.len() {
            assert(old(out)@ + Seq::<LineView>::empty() =~= old(out)@);
            return ;
        }
        let ghost speech = said(self@.lines[self.index as int].1);
        if *current_speaker != self.name {
            *current_speaker = self.name.clone();
            out.say_blank();
            out.say(self.name.clone().concat("."));
            assert(out@.push(speech) =~= old(out)@ + (seq![
                blank_line(),
                said(self@.name + "."@),
            ] + seq![speech]));
        } else {
            assert(out@.push(speech) =~= old(out)@ + seq![speech]);
        }
        out.say(self.lines[self.index].1.clone());
        self.index += 1;
    }

    /// The number of the next line to speak, if one is left.
    pub fn next_line(&self) -> (r: Option<usize>)
        ensures
            self@.wf(),
            match r {
                Some(n) => self@.next_line() == Some(n as nat),
                None => self@.next_line() is None,
            },
    {
        proof {
            use_type_invariant(self);
        }
        if self.index < self.lines.len() {
            Some(self.lines[self.index].0)
        } else {
            None
        }
    }

    /// The number of the player's first line, if the player has lines.
    pub fn first_line(&self) -> (r: Option<usize>)
        ensures
            match r {
                Some(n) => self@.first_line() == Some(n as nat),
                None => self@.first_line() is None,
            },
    {
        if self.lines.len() > 0 {
            Some(self.lines[0].0)
        } else {
            None
        }
    }

    /// The player's name.
    pub fn name(&self) -> (r: &String)
        ensures
            r@ == self@.name,
    {
        &self.name
    }
}

/// Players are equal where their first lines have the same number, or neither
/// has a line.
impl PartialEq for Player {
    fn eq(&self, other: &Self) -> (r: bool) {
        match (self.first_line(), other.first_line()) {
            (None, None) => true,
            (Some(a), Some(b)) => a == b,
            _ => false,
        }
    }
}

impl vstd::std_specs::cmp::PartialEqSpecImpl for Player {
    open spec fn obeys_eq_spec() -> bool {
        true
    }

    open spec fn eq_spec(&self, other: &Self) -> bool {
        self@.rank() == other@.rank()
    }
}

impl Eq for Player {

}

/// Players are ordered by the numbers of their first lines; a player without
/// lines stands before every player that has one.
impl PartialOrd for Player {
    fn partial_cmp(&self, other: &Self) -> (r: Option<Ordering>) {
        match (self.first_line(), other.first_line()) {
            (None, None) => Some(Ordering::Equal),
            (None, Some(_)) => Some(Ordering::Less),
            (Some(_), None) => Some(Ordering::Greater),
            (Some(a), Some(b)) => if a < b {
                Some(Ordering::Less)
            } else if a == b {
                Some(Ordering::Equal)
            } else {
                Some(Ordering::Greater)
            },
        }
    }
}

impl vstd::std_specs::cmp::PartialOrdSpecImpl for Player {
    open spec fn obeys_partial_cmp_spec() -> bool {
        true
    }

    open spec fn partial_cmp_spec(&self, other: &Self) -> Option<Ordering> {
        if self@.rank() < other@.rank() {
            Some(Ordering::Less)
        } else if self@.rank() == other@.rank() {
            Some(Ordering::Equal)
        } else {
            Some(Ordering::Greater)
        }
    }
}

} // verus!
