//! The decisions of the file server: whether to go on accepting connections, and
//! what to do for the one line that a connection sends.
use vstd::prelude::*;
use vstd::string::StringExecFns;
use crate::text::{chars_of, same_text, trim, trimmed};

verus! {

/// The exit code of a server that could not listen at its address.
pub const FAILED_TO_BIND: u8 = 2;

/// What a connection asks for.
#[derive(Clone, Debug, PartialEq, Eq)]
pub enum Request {
    /// To shut the server down.
    Quit,
    /// A file whose name is refused, and so not looked for.
    Rejected(String),
    /// The file of this name, whole.
    File(String),
}

/// A `Request` with its name as text.
pub enum RequestView {
    Quit,
    Rejected(Seq<char>),
    File(Seq<char>),
}

impl View for Request {
    type V = RequestView;

    open spec fn view(&self) -> RequestView {
        match self {
            Request::Quit => RequestView::Quit,
            Request::Rejected(name) => RequestView::Rejected(name@),
            Request::File(name) => RequestView::File(name@),
        }
    }
}

/// A character that no served file name may hold.
pub open spec fn is_unsafe_char(c: char) -> bool {
    c == '/' || c == '\\' || c == '$'
}

/// A name that can only mean a file of the server's own directory.
pub open spec fn is_safe(filename: Seq<char>) -> bool {
    forall|i: int| 0 <= i < filename.len() ==> !is_unsafe_char(#[trigger] filename[i])
}

/// What the line `line` asks for: its token is the line, trimmed. `quit` shuts
/// the server down; any other token is the name of a file, refused where it is
/// not safe.
pub open spec fn request_of(line: Seq<char>) -> RequestView {
    let token = trimmed(line);
    if token == "quit"@ {
        RequestView::Quit
    } else if is_safe(token) {
        RequestView::File(token)
    } else {
        RequestView::Rejected(token)
    }
}

/// What has happened at the listening socket since the server last decided.
#[derive(Clone, Copy, Debug, PartialEq, Eq, Structural)]
pub enum Event {
    /// Nothing: the server is about to wait.
    Idle,
    /// A connection was accepted.
    Accepted,
    /// Accepting a connection failed.
    AcceptFailed,
}

/// What the server does next.
#[derive(Clone, Copy, Debug, PartialEq, Eq, Structural)]
pub enum Action {
    /// Wait for a connection.
    Accept,
    /// Hand the accepted connection to a task of its own.
    Serve,
    /// Report that accepting failed.
    Report,
    /// Stop.
    Stop,
}

/// The server's next step. It stops once it is cancelled or where it is not
/// listening, whatever happened; else it serves what it accepted, reports what
/// failed, and waits.
pub open spec fn next_action(open: bool, event: Event, cancelled: bool) -> Action {
    if cancelled || !open {
        Action::Stop
    } else {
        match event {
            Event::Idle => Action::Accept,
            Event::Accepted => Action::Serve,
            Event::AcceptFailed => Action::Report,
        }
    }
}

/// What the file server knows of itself: whether it listens, and where.
pub struct Server {
    listening: bool,
    listening_addr: String,
}

/// What a server is, as mathematics.
pub struct ServerView {
    pub open: bool,
    pub addr: Seq<char>,
}

impl View for Server {
    type V = ServerView;

    closed spec fn view(&self) -> ServerView {
        ServerView { open: self.listening, addr: self.listening_addr@ }
    }
}

impl Server {
    /// A server that listens nowhere.
    pub fn new() -> (server: Server)
        ensures
            server@ == (ServerView { open: false, addr: Seq::empty() }),
    {
        Server { listening: false, listening_addr: String::new() }
    }

    /// Whether the server listens.
    pub fn is_open(&self) -> (b: bool)
        ensures
            b == self@.open,
    {
        self.listening
    }

    /// The address the server listens at.
    pub fn listening_addr(&self) -> (addr: &String)
        ensures
            addr@ == self@.addr,
    {
        &self.listening_addr
    }

    /// Takes note of an attempt to listen at `addr`: `bound` says whether it
    /// succeeded. A failed attempt leaves the server as it was.
    pub fn open(&mut self, addr: &str, bound: bool) -> (r: Result<(), u8>)
        ensures
            bound ==> r is Ok && final(self)@ == (ServerView { open: true, addr: addr@ }),
            !bound ==> r == Err::<(), u8>(FAILED_TO_BIND) && final(self)@ == old(self)@,
    {
        if bound {
            self.listening = true;
            self.listening_addr = String::from_str(addr);
            Ok(())
        } else {
            Err(FAILED_TO_BIND)
        }
    }

    /// Decides the next step of the accept loop, given what happened last and
    /// whether shutdown was asked for.
    pub fn run(&self, event: Event, cancelled: bool) -> (action: Action)
        ensures
            action == next_action(self@.open, event, cancelled),
    {
        if cancelled || !self.listening {
            Action::Stop
        } else {
            match event {
                Event::Idle => Action::Accept,
                Event::Accepted => Action::Serve,
                Event::AcceptFailed => Action::Report,
            }
        }
    }

    /// Whether `filename` is free of `/`, `\` and `$`.
    pub fn is_safe_filename(filename: &str) -> (b: bool)
        ensures
            b == is_safe(filename@),
    {
        let chars = chars_of(filename);
        let mut i: usize = 0;
        while i < chars.len()
            invariant
                i <= chars.len(),
                chars@ == filename@,
                forall|k: int| 0 <= k < i ==> !is_unsafe_char(#[trigger] chars@[k]),
            decreases chars.len() - i,
        {
            let c = chars[i];
            if c == '/' || c == '\\' || c == '$' {
                assert(is_unsafe_char(filename@[i as int]));
                return false;
            }
            i += 1;
        }
        true
    }

    /// Decides what to do for a connection that sent `line`.
    pub fn handle_connection(line: &String) -> (request: Request)
        ensures
            request@ == request_of(line@),
    {
        let token = trim(line.as_str());
        if same_text(token.as_str(), "quit") {
            Request::Quit
        } else if Self::is_safe_filename(token.as_str()) {
            Request::File(token)
        } else {
            Request::Rejected(token)
        }
    }
}

} // verus!
