//! From what a source holds to the lines that the grammars read.
use vstd::prelude::*;
use vstd::string::StrSliceExecFns;
use vstd::string::StringExecFns;
use crate::declarations::{ErrorKind, LoadError, LoadErrorView};
use crate::text::{chars_of, trim, trimmed};

verus! {

/// Each of `lines`, trimmed.
pub open spec fn trimmed_lines(lines: Seq<Seq<char>>) -> Seq<Seq<char>> {
    lines.map_values(|line: Seq<char>| trimmed(line))
}

/// Appends to `lines` each line of `raw`, as it was read from a source, without
/// the whitespace at its ends, the line terminator included.
pub fn grab_trimmed_file_lines(raw: &Vec<String>, lines: &mut Vec<String>)
    ensures
        final(lines).deep_view() == old(lines).deep_view() + trimmed_lines(raw.deep_view()),
{
    let mut i: usize = 0;
    proof {
        assert(lines.deep_view() =~= old(lines).deep_view() + trimmed_lines(
            raw.deep_view().take(0),
        ));
    }
    while i < raw.len()
        invariant
            i <= raw.len(),
            lines.deep_view() == old(lines).deep_view() + trimmed_lines(
                raw.deep_view().take(i as int),
            ),
        decreases raw.len() - i,
    {
        let ghost before = lines.deep_view();
        let line = trim(raw[i].as_str());
        lines.push(line);
        proof {
            assert(lines.deep_view() =~= before.push(line@));
            assert(raw.deep_view().take(i + 1) =~= raw.deep_view().take(i as int).push(
                raw[i as int]@,
            ));
            assert(lines.deep_view() =~= old(lines).deep_view() + trimmed_lines(
                raw.deep_view().take(i + 1),
            ));
        }
        i += 1;
    }
    proof {
        assert(raw.deep_view().take(i as int) =~= raw.deep_view());
    }
}

/// Where lines are read from.
#[derive(Clone, Debug, PartialEq, Eq)]
pub enum Source {
    /// A file of this machine, by its path.
    Local(String),
    /// A file that a server sends: the server's host and port, and the name by
    /// which the file is asked for.
    Remote { host: String, port: String, filename: String },
}

/// A `Source` with its parts as text.
pub enum SourceView {
    Local(Seq<char>),
    Remote { host: Seq<char>, port: Seq<char>, filename: Seq<char> },
}

impl View for Source {
    type V = SourceView;

    open spec fn view(&self) -> SourceView {
        match self {
            Source::Local(path) => SourceView::Local(path@),
            Source::Remote { host, port, filename } => SourceView::Remote {
                host: host@,
                port: port@,
                filename: filename@,
            },
        }
    }
}

/// Length of the run without a colon that `s` starts with.
pub open spec fn colon_at(s: Seq<char>) -> nat
    decreases s.len(),
{
    if s.len() > 0 && s[0] != ':' {
        1 + colon_at(s.drop_first())
    } else {
        0
    }
}

/// Whether `source` names a file on a server.
pub open spec fn is_remote(source: Seq<char>) -> bool {
    source.len() >= 4 && source.take(4) == "net:"@
}

/// What `source` names. Behind `net:` stand a host, a colon, a port, a colon
/// and a file name, which may hold colons itself; with fewer than two colons
/// behind `net:` the source names nothing. Any other text is a local path.
pub open spec fn resolved(source: Seq<char>) -> Option<SourceView> {
    if is_remote(source) {
        let rest = source.skip(4);
        let a = colon_at(rest) as int;
        let tail = rest.skip(a + 1);
        let b = colon_at(tail) as int;
        if a == rest.len() || b == tail.len() {
            None
        } else {
            Some(
                SourceView::Remote {
                    host: rest.take(a),
                    port: tail.take(b),
                    filename: tail.skip(b + 1),
                },
            )
        }
    } else {
        Some(SourceView::Local(source))
    }
}

/// `colon_at` is the place of the first colon, or the length where there is none.
pub proof fn lemma_colon_at_is(s: Seq<char>, n: int)
    requires
        0 <= n <= s.len(),
        forall|i: int| 0 <= i < n ==> #[trigger] s[i] != ':',
        n == s.len() || s[n] == ':',
    ensures
        colon_at(s) == n,
    decreases n,
{
    if n > 0 {
        let t = s.drop_first();
        assert forall|i: int| 0 <= i < n - 1 implies #[trigger] t[i] != ':' by {
            assert(t[i] == s[i + 1]);
        }
        lemma_colon_at_is(t, n - 1);
    }
}

/// The place of the first colon of `chars` at or behind `from`, or the length.
fn find_colon(chars: &Vec<char>, from: usize) -> (at: usize)
    requires
        from <= chars.len(),
    ensures
        from <= at <= chars.len(),
        at - from == colon_at(chars@.skip(from as int)),
{
    let mut at: usize = from;
    while at < chars.len() && chars[at] != ':'
        invariant
            from <= at <= chars.len(),
            forall|k: int| from <= k < at ==> #[trigger] chars@[k] != ':',
        decreases chars.len() - at,
    {
        at += 1;
    }
    proof {
        let tail = chars@.skip(from as int);
        assert forall|i: int| 0 <= i < at - from implies #[trigger] tail[i] != ':' by {
            assert(tail[i] == chars@[i + from]);
        }
        lemma_colon_at_is(tail, at - from);
    }
    at
}

impl Source {
    /// Reads `source` as [`resolved`] says. A source that names nothing cannot
    /// be opened.
    pub fn resolve(source: &String) -> (r: Result<Source, LoadError>)
        ensures
            match resolved(source@) {
                Some(named) => r is Ok && r->Ok_0@ == named,
                None => r is Err && r->Err_0@ == (LoadErrorView {
                    kind: ErrorKind::Open,
                    path: source@,
                }),
            },
    {
        let text = source.as_str();
        let chars = chars_of(text);
        let n = chars.len();
        proof {
            reveal_strlit("net:");
        }
        if !(n >= 4 && chars[0] == 'n' && chars[1] == 'e' && chars[2] == 't' && chars[3] == ':') {
            proof {
                if n >= 4 {
                    let head = source@.take(4);
                    assert(head[0] == chars@[0] && head[1] == chars@[1] && head[2] == chars@[2]
                        && head[3] == chars@[3]);
                }
            }
            return Ok(Source::Local(source.clone()));
        }
        assert(source@.take(4) =~= "net:"@);
        let ghost rest = source@.skip(4);
        let a = find_colon(&chars, 4);
        if a == n {
            return Err(LoadError::new(ErrorKind::Open, source));
        }
        let ghost tail = rest.skip(a - 4 + 1);
        proof {
            assert(tail =~= source@.skip(a + 1));
        }
        let b = find_colon(&chars, a + 1);
        if b == n {
            return Err(LoadError::new(ErrorKind::Open, source));
        }
        proof {
            assert(rest.take(a - 4) =~= source@.subrange(4, a as int));
            assert(tail.take(b - a - 1) =~= source@.subrange(a + 1, b as int));
            assert(tail.skip(b - a - 1 + 1) =~= source@.subrange(b + 1, n as int));
        }
        Ok(
            Source::Remote {
                host: String::from_str(text.substring_char(4, a)),
                port: String::from_str(text.substring_char(a + 1, b)),
                filename: String::from_str(text.substring_char(b + 1, n)),
            },
        )
    }
}

/// The address to connect to for a file of the server at `host` and `port`.
pub fn address(host: &String, port: &String) -> (r: String)
    ensures
        r@ == host@ + ":"@ + port@,
{
    host.clone().concat(":").concat(port.as_str())
}

/// The request for the file `filename`: the name and a line feed.
pub open spec fn request_for(filename: Seq<char>) -> Seq<char> {
    filename.push('\n')
}

/// What is sent to a server to ask for the file `filename`.
pub fn request(filename: &String) -> (r: String)
    ensures
        r@ == request_for(filename@),
{
    proof {
        reveal_strlit("\n");
    }
    let r = filename.clone().concat("\n");
    assert(r@ =~= filename@.push('\n'));
    r
}

} // verus!
