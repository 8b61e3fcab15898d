//! The line protocol between the `iwwc` command line and the daemon.
//!
//! A request is one line: `update <name> <value>`, `open <window>`,
//! `close <window>`, `toggle <window>` or `reload`. A reply is `OK`,
//! `OK\n<note>` or `ERROR\n<message>`.

use vstd::prelude::*;
use vstd::string::StrSliceExecFns;
use crate::text::{chars_of, join_path, joined, owned, push_str, str_eq, trim, trim_chars, lemma_trim_len};

verus! {

#[derive(Debug, Clone, PartialEq, Eq)]
pub enum Command {
    Update { name: String, value: String },
    Open { window: String },
    Close { window: String },
    Toggle { window: String },
    Reload,
}

#[derive(Debug, Clone, PartialEq, Eq)]
pub enum Response {
    Okay,
    Note(String),
    Error(String),
}

#[derive(Debug, Clone, PartialEq, Eq)]
pub enum ParseError {
    UnknownCommand(String),
    MissingArgument(&'static str),
}

/// A command with its texts as character sequences.
pub enum CommandView {
    Update { name: Seq<char>, value: Seq<char> },
    Open { window: Seq<char> },
    Close { window: Seq<char> },
    Toggle { window: Seq<char> },
    Reload,
}

pub enum ResponseView {
    Okay,
    Note(Seq<char>),
    Error(Seq<char>),
}

pub enum ParseErrorView {
    UnknownCommand(Seq<char>),
    MissingArgument(Seq<char>),
}

impl View for Command {
    type V = CommandView;

    open spec fn view(&self) -> CommandView {
        match self {
            Command::Update { name, value } => CommandView::Update { name: name@, value: value@ },
            Command::Open { window } => CommandView::Open { window: window@ },
            Command::Close { window } => CommandView::Close { window: window@ },
            Command::Toggle { window } => CommandView::Toggle { window: window@ },
            Command::Reload => CommandView::Reload,
        }
    }
}

impl View for Response {
    type V = ResponseView;

    open spec fn view(&self) -> ResponseView {
        match self {
            Response::Okay => ResponseView::Okay,
            Response::Note(m) => ResponseView::Note(m@),
            Response::Error(m) => ResponseView::Error(m@),
        }
    }
}

impl View for ParseError {
    type V = ParseErrorView;

    open spec fn view(&self) -> ParseErrorView {
        match self {
            ParseError::UnknownCommand(w) => ParseErrorView::UnknownCommand(w@),
            ParseError::MissingArgument(m) => ParseErrorView::MissingArgument(m@),
        }
    }
}

// ------------------------------------------------------------- wire text

/// The request line of a command (without a newline).
pub open spec fn command_wire(c: CommandView) -> Seq<char> {
    match c {
        CommandView::Update { name, value } => "update "@ + name + " "@ + value,
        CommandView::Open { window } => "open "@ + window,
        CommandView::Close { window } => "close "@ + window,
        CommandView::Toggle { window } => "toggle "@ + window,
        CommandView::Reload => "reload"@,
    }
}

/// The reply text of a response.
pub open spec fn response_wire(r: ResponseView) -> Seq<char> {
    match r {
        ResponseView::Okay => "OK"@,
        ResponseView::Note(m) => "OK\n"@ + m,
        ResponseView::Error(m) => "ERROR\n"@ + m,
    }
}

/// The index of the first `c` in `s`, or `s.len()` when there is none.
pub open spec fn find_char(s: Seq<char>, c: char) -> int
    decreases s.len(),
{
    if s.len() == 0 {
        0
    } else if s[0] == c {
        0
    } else {
        1 + find_char(s.drop_first(), c)
    }
}

/// `str::split_once` on a character: the text before and after its first occurrence.
pub open spec fn split_once(s: Seq<char>, c: char) -> Option<(Seq<char>, Seq<char>)> {
    let k = find_char(s, c);
    if k < s.len() { Some((s.take(k), s.skip(k + 1))) } else { None }
}

/// The text without one trailing newline.
pub open spec fn strip_newline(s: Seq<char>) -> Seq<char> {
    if s.len() > 0 && s[s.len() - 1] == '\n' { s.drop_last() } else { s }
}

/// Reads a request line.
pub open spec fn spec_parse_command(line: Seq<char>) -> Result<CommandView, ParseErrorView> {
    let l = strip_newline(line);
    let (keyword, rest) = match split_once(l, ' ') {
        Some((k, r)) => (k, r),
        None => (l, Seq::<char>::empty()),
    };
    if keyword == "update"@ {
        match split_once(rest, ' ') {
            Some((name, value)) => if name.len() == 0 || value.len() == 0 {
                Err(ParseErrorView::MissingArgument("update requires <name> <value>"@))
            } else {
                Ok(CommandView::Update { name, value })
            },
            None => Err(ParseErrorView::MissingArgument("update requires <name> <value>"@)),
        }
    } else if keyword == "reload"@ {
        Ok(CommandView::Reload)
    } else if keyword == "open"@ || keyword == "close"@ || keyword == "toggle"@ {
        let window = trim_chars(rest);
        if window.len() == 0 {
            Err(ParseErrorView::MissingArgument("window name"@))
        } else if keyword == "open"@ {
            Ok(CommandView::Open { window })
        } else if keyword == "close"@ {
            Ok(CommandView::Close { window })
        } else {
            Ok(CommandView::Toggle { window })
        }
    } else {
        Err(ParseErrorView::UnknownCommand(keyword))
    }
}

/// Reads a reply.
pub open spec fn spec_parse_response(text: Seq<char>) -> ResponseView {
    let t = strip_newline(text);
    match split_once(t, '\n') {
        Some((head, rest)) => if head == "ERROR"@ {
            ResponseView::Error(rest)
        } else if head == "OK"@ {
            ResponseView::Note(rest)
        } else {
            ResponseView::Error(t)
        },
        None => if t == "ERROR"@ {
            ResponseView::Error(Seq::<char>::empty())
        } else if t == "OK"@ {
            ResponseView::Okay
        } else {
            ResponseView::Error(t)
        },
    }
}

// ---------------------------------------------------------------- laws

/// Commands whose request line reads back as the same command: an update
/// names a non-empty variable without spaces and a non-empty value that
/// does not end in a newline; a window name is non-empty and carries no
/// surrounding whitespace.
pub open spec fn command_roundtrips(c: CommandView) -> bool {
    match c {
        CommandView::Update { name, value } => name.len() > 0 && !name.contains(' ')
            && value.len() > 0 && value[value.len() - 1] != '\n',
        CommandView::Open { window } => window.len() > 0 && trim_chars(window) == window,
        CommandView::Close { window } => window.len() > 0 && trim_chars(window) == window,
        CommandView::Toggle { window } => window.len() > 0 && trim_chars(window) == window,
        CommandView::Reload => true,
    }
}

/// Responses whose reply text reads back as the same response: a note is
/// non-empty, and neither a note nor an error message ends in a newline.
pub open spec fn response_roundtrips(r: ResponseView) -> bool {
    match r {
        ResponseView::Okay => true,
        ResponseView::Note(m) => m.len() > 0 && m[m.len() - 1] != '\n',
        ResponseView::Error(m) => m.len() == 0 || m[m.len() - 1] != '\n',
    }
}

proof fn lemma_find_char_skip(a: Seq<char>, b: Seq<char>, c: char)
    requires
        !a.contains(c),
    ensures
        find_char(a + b, c) == a.len() + find_char(b, c),
    decreases a.len(),
{
    if a.len() == 0 {
        assert(a + b =~= b);
    } else {
        assert(a[0] != c) by {
            if a[0] == c {
                assert(a.contains(c));
            }
        }
        assert(!a.drop_first().contains(c)) by {
            if a.drop_first().contains(c) {
                let k = choose|k: int| 0 <= k < a.drop_first().len() && a.drop_first()[k] == c;
                assert(a[k + 1] == c);
            }
        }
        lemma_find_char_skip(a.drop_first(), b, c);
        assert((a + b).drop_first() =~= a.drop_first() + b);
    }
}

proof fn lemma_find_char_head(b: Seq<char>, c: char)
    requires
        b.len() > 0,
        b[0] == c,
    ensures
        find_char(b, c) == 0,
{
}

proof fn lemma_no_char(a: Seq<char>, c: char)
    requires
        !a.contains(c),
    ensures
        find_char(a, c) == a.len(),
{
    lemma_find_char_skip(a, Seq::<char>::empty(), c);
    assert(a + Seq::<char>::empty() =~= a);
}

proof fn lemma_trimmed_last_not_newline(w: Seq<char>)
    requires
        w.len() > 0,
        trim_chars(w) == w,
    ensures
        w[w.len() - 1] != '\n',
{
    lemma_trim_len(w);
}

proof fn lemma_no_space(kw: Seq<char>)
    requires
        forall|i: int| 0 <= i < kw.len() ==> kw[i] != ' ',
    ensures
        !kw.contains(' '),
{
}

/// `<kw> <arg>` splits at its first space into `kw` and `arg`.
proof fn lemma_keyword_line(kw: Seq<char>, arg: Seq<char>)
    requires
        !kw.contains(' '),
    ensures
        split_once(kw + seq![' '] + arg, ' ') == Some((kw, arg)),
{
    let sp = seq![' '];
    let tail = sp + arg;
    let w = kw + sp + arg;
    assert(w =~= kw + tail);
    lemma_find_char_skip(kw, tail, ' ');
    lemma_find_char_head(tail, ' ');
    assert(w.take(kw.len() as int) =~= kw);
    assert(w.skip(kw.len() as int + 1) =~= arg);
}

proof fn lemma_window_roundtrip(kw: Seq<char>, lit: Seq<char>, window: Seq<char>)
    requires
        lit == kw + seq![' '],
        !kw.contains(' '),
        window.len() > 0,
        trim_chars(window) == window,
    ensures
        split_once(strip_newline(lit + window), ' ') == Some((kw, window)),
{
    lemma_trimmed_last_not_newline(window);
    let w = lit + window;
    assert(w =~= kw + seq![' '] + window);
    assert(w[w.len() - 1] == window[window.len() - 1]);
    assert(strip_newline(w) == w);
    lemma_keyword_line(kw, window);
}

/// A request line read back gives the command it was written from.
pub proof fn law_command_wire_roundtrip(c: CommandView)
    requires
        command_roundtrips(c),
    ensures
        spec_parse_command(command_wire(c)) == Ok::<CommandView, ParseErrorView>(c),
{
    reveal_strlit("update");
    reveal_strlit("open");
    reveal_strlit("close");
    reveal_strlit("toggle");
    reveal_strlit("reload");
    match c {
        CommandView::Update { name, value } => {
            reveal_strlit("update ");
            reveal_strlit(" ");
            let kw = "update"@;
            lemma_no_space(kw);
            assert("update "@ =~= kw + seq![' ']);
            assert(" "@ =~= seq![' ']);
            let arg = name + seq![' '] + value;
            let w = command_wire(c);
            assert(w =~= kw + seq![' '] + arg);
            assert(w[w.len() - 1] == value[value.len() - 1]);
            assert(strip_newline(w) == w);
            lemma_keyword_line(kw, arg);
            lemma_keyword_line(name, value);
        },
        CommandView::Reload => {
            let w = "reload"@;
            lemma_no_space(w);
            lemma_no_char(w, ' ');
            assert(strip_newline(w) == w);
        },
        CommandView::Open { window } => {
            reveal_strlit("open ");
            lemma_no_space("open"@);
            assert("open "@ =~= "open"@ + seq![' ']);
            lemma_window_roundtrip("open"@, "open "@, window);
        },
        CommandView::Close { window } => {
            reveal_strlit("close ");
            lemma_no_space("close"@);
            assert("close "@ =~= "close"@ + seq![' ']);
            lemma_window_roundtrip("close"@, "close "@, window);
        },
        CommandView::Toggle { window } => {
            reveal_strlit("toggle ");
            lemma_no_space("toggle"@);
            assert("toggle "@ =~= "toggle"@ + seq![' ']);
            lemma_window_roundtrip("toggle"@, "toggle "@, window);
        },
    }
}

/// A reply text read back gives the response it was written from.
pub proof fn law_response_wire_roundtrip(r: ResponseView)
    requires
        response_roundtrips(r),
    ensures
        spec_parse_response(response_wire(r)) == r,
{
    reveal_strlit("OK");
    reveal_strlit("OK\n");
    reveal_strlit("ERROR");
    reveal_strlit("ERROR\n");
    let nl = seq!['\n'];
    match r {
        ResponseView::Okay => {
            let w = "OK"@;
            assert(strip_newline(w) == w);
            assert(w != "ERROR"@);
            assert(!w.contains('\n')) by {
                if w.contains('\n') {
                    let k = choose|k: int| 0 <= k < w.len() && w[k] == '\n';
                }
            }
            lemma_no_char(w, '\n');
            assert(split_once(w, '\n') is None);
            assert(response_wire(r) == w);
            let t = strip_newline(w);
            assert(t == w);
            assert(t != "ERROR"@);
            assert(t == "OK"@);
            assert(spec_parse_response(w) == ResponseView::Okay);
        },
        ResponseView::Note(m) => {
            let kw = "OK"@;
            assert("OK\n"@ =~= kw + nl);
            let w = response_wire(r);
            assert(w =~= kw + (nl + m));
            assert(w[w.len() - 1] == m[m.len() - 1]);
            assert(strip_newline(w) == w);
            assert(!kw.contains('\n')) by {
                if kw.contains('\n') {
                    let k = choose|k: int| 0 <= k < kw.len() && kw[k] == '\n';
                }
            }
            lemma_find_char_skip(kw, nl + m, '\n');
            lemma_find_char_head(nl + m, '\n');
            assert(w.take(2) =~= kw);
            assert(w.skip(3) =~= m);
            assert(kw != "ERROR"@);
            assert(split_once(w, '\n') == Some((kw, m)));
            assert(spec_parse_response(w) == ResponseView::Note(m));

        },
        ResponseView::Error(m) => {
            let kw = "ERROR"@;
            assert("ERROR\n"@ =~= kw + nl);
            let w = response_wire(r);
            assert(w =~= kw + (nl + m));
            assert(!kw.contains('\n')) by {
                if kw.contains('\n') {
                    let k = choose|k: int| 0 <= k < kw.len() && kw[k] == '\n';
                }
            }
            if m.len() == 0 {
                assert(strip_newline(w) =~= kw);
                lemma_no_char(kw, '\n');
                assert(m =~= Seq::<char>::empty());
            } else {
                assert(w[w.len() - 1] == m[m.len() - 1]);
                assert(strip_newline(w) == w);
                lemma_find_char_skip(kw, nl + m, '\n');
                lemma_find_char_head(nl + m, '\n');
                assert(w.take(5) =~= kw);
                assert(w.skip(6) =~= m);
            }
        },
    }
}

/// The first `c` at or after `from`, or the end.
fn find_from(v: &[char], c: char, from: usize) -> (k: usize)
    requires
        from <= v@.len(),
    ensures
        from <= k <= v@.len(),
        k == from + find_char(v@.skip(from as int), c),
{
    let mut k = from;
    while k < v.len() && v[k] != c
        invariant
            from <= k <= v@.len(),
            find_char(v@.skip(from as int), c) == (k - from) + find_char(v@.skip(k as int), c),
        decreases v@.len() - k,
    {
        proof {
            assert(v@.skip(k as int).drop_first() =~= v@.skip(k + 1));
        }
        k = k + 1;
    }
    k
}

impl Command {
    /// The canonical request line (no trailing newline).
    pub fn to_wire(&self) -> (r: String)
        ensures
            r@ == command_wire(self@),
    {
        let mut s = String::new();
        match self {
            Command::Update { name, value } => {
                push_str(&mut s, "update ");
                push_str(&mut s, name.as_str());
                push_str(&mut s, " ");
                push_str(&mut s, value.as_str());
            },
            Command::Open { window } => {
                push_str(&mut s, "open ");
                push_str(&mut s, window.as_str());
            },
            Command::Close { window } => {
                push_str(&mut s, "close ");
                push_str(&mut s, window.as_str());
            },
            Command::Toggle { window } => {
                push_str(&mut s, "toggle ");
                push_str(&mut s, window.as_str());
            },
            Command::Reload => {
                push_str(&mut s, "reload");
            },
        }
        proof {
            assert(s@ =~= command_wire(self@));
        }
        s
    }

    /// Parses one request line (a trailing newline is allowed).
    pub fn parse_wire(line: &str) -> (r: Result<Command, ParseError>)
        ensures
            match spec_parse_command(line@) {
                Ok(c) => r matches Ok(x) && x@ == c,
                Err(e) => r matches Err(x) && x@ == e,
            },
    {
        let v0 = chars_of(line);
        let n: usize = if v0.len() > 0 && v0[v0.len() - 1] == '\n' { v0.len() - 1 } else { v0.len() };
        let l = line.substring_char(0, n);
        let v = chars_of(l);
        let ghost lv = strip_newline(line@);
        proof {
            assert(l@ =~= lv);
            assert(v@.skip(0) =~= v@);
        }
        let k = find_from(v.as_slice(), ' ', 0);
        let keyword = l.substring_char(0, k);
        let rest = if k < n { l.substring_char(k + 1, n) } else { l.substring_char(n, n) };
        proof {
            if k < n {
                assert(split_once(lv, ' ') == Some((lv.take(k as int), lv.skip(k + 1))));
                assert(keyword@ =~= lv.take(k as int));
                assert(rest@ =~= lv.skip(k + 1));
            } else {
                assert(keyword@ =~= lv);
                assert(rest@ =~= Seq::<char>::empty());
            }
        }
        if str_eq(keyword, "update") {
            let rv = chars_of(rest);
            proof {
                assert(rv@.skip(0) =~= rv@);
            }
            let j = find_from(rv.as_slice(), ' ', 0);
            if j >= rv.len() {
                return Err(ParseError::MissingArgument("update requires <name> <value>"));
            }
            let name = rest.substring_char(0, j);
            let value = rest.substring_char(j + 1, rv.len());
            proof {
                assert(name@ =~= rest@.take(j as int));
                assert(value@ =~= rest@.skip(j + 1));
            }
            if name.unicode_len() == 0 || value.unicode_len() == 0 {
                return Err(ParseError::MissingArgument("update requires <name> <value>"));
            }
            Ok(Command::Update { name: owned(name), value: owned(value) })
        } else if str_eq(keyword, "reload") {
            Ok(Command::Reload)
        } else if str_eq(keyword, "open") || str_eq(keyword, "close") || str_eq(keyword, "toggle") {
            let w = trim(rest);
            if w.unicode_len() == 0 {
                return Err(ParseError::MissingArgument("window name"));
            }
            let window = owned(w);
            if str_eq(keyword, "open") {
                Ok(Command::Open { window })
            } else if str_eq(keyword, "close") {
                Ok(Command::Close { window })
            } else {
                Ok(Command::Toggle { window })
            }
        } else {
            Err(ParseError::UnknownCommand(owned(keyword)))
        }
    }
}

impl Response {
    /// The reply text.
    pub fn to_wire(&self) -> (r: String)
        ensures
            r@ == response_wire(self@),
    {
        let mut s = String::new();
        match self {
            Response::Okay => {
                push_str(&mut s, "OK");
            },
            Response::Note(m) => {
                push_str(&mut s, "OK\n");
                push_str(&mut s, m.as_str());
            },
            Response::Error(m) => {
                push_str(&mut s, "ERROR\n");
                push_str(&mut s, m.as_str());
            },
        }
        proof {
            assert(s@ =~= response_wire(self@));
        }
        s
    }

    /// Reads a reply (a trailing newline is allowed).
    pub fn parse_wire(text: &str) -> (r: Response)
        ensures
            r@ == spec_parse_response(text@),
    {
        let v0 = chars_of(text);
        let n: usize = if v0.len() > 0 && v0[v0.len() - 1] == '\n' { v0.len() - 1 } else { v0.len() };
        let t = text.substring_char(0, n);
        let v = chars_of(t);
        let ghost tv = strip_newline(text@);
        proof {
            assert(t@ =~= tv);
            assert(v@.skip(0) =~= v@);
        }
        let k = find_from(v.as_slice(), '\n', 0);
        if k < n {
            let head = t.substring_char(0, k);
            let rest = t.substring_char(k + 1, n);
            proof {
                assert(head@ =~= tv.take(k as int));
                assert(rest@ =~= tv.skip(k + 1));
            }
            if str_eq(head, "ERROR") {
                Response::Error(owned(rest))
            } else if str_eq(head, "OK") {
                Response::Note(owned(rest))
            } else {
                Response::Error(owned(t))
            }
        } else if str_eq(t, "ERROR") {
            Response::Error(String::new())
        } else if str_eq(t, "OK") {
            Response::Okay
        } else {
            Response::Error(owned(t))
        }
    }
}


/// The daemon's socket: `iwwc.sock` in `$XDG_RUNTIME_DIR`, or in `/tmp` when
/// that variable is unset.
pub open spec fn spec_socket_path(runtime_dir: Option<Seq<char>>) -> Seq<char> {
    joined(match runtime_dir { Some(d) => d, None => "/tmp"@ }, "iwwc.sock"@)
}

/// The socket path for the given value of `XDG_RUNTIME_DIR`.
pub fn socket_path(runtime_dir: Option<&str>) -> (r: String)
    ensures
        r@ == spec_socket_path(match runtime_dir { Some(d) => Some(d@), None => None }),
{
    proof {
        reveal_strlit("iwwc.sock");
    }
    match runtime_dir {
        Some(d) => join_path(d, "iwwc.sock"),
        None => join_path("/tmp", "iwwc.sock"),
    }
}


/// The message of a request that could not be read.
pub open spec fn parse_error_message(e: ParseErrorView) -> Seq<char> {
    match e {
        ParseErrorView::UnknownCommand(w) => "unknown command \""@ + w + "\""@,
        ParseErrorView::MissingArgument(a) => "missing argument: "@ + a,
    }
}

impl ParseError {
    /// `unknown command "w"` or `missing argument: a`.
    pub fn render(&self) -> (r: String)
        ensures
            r@ == parse_error_message(self@),
    {
        match self {
            ParseError::UnknownCommand(w) => {
                let mut m = owned("unknown command \"");
                push_str(&mut m, w.as_str());
                push_str(&mut m, "\"");
                m
            },
            ParseError::MissingArgument(a) => {
                let mut m = owned("missing argument: ");
                push_str(&mut m, a);
                m
            },
        }
    }
}

/// Why a request could not be sent to the daemon.
#[derive(Debug, Clone, PartialEq, Eq)]
pub enum IpcError {
    /// Nothing listens on the socket.
    NotRunning,
    /// Any other failure of the socket, with the system's message.
    Io(String),
}

impl IpcError {
    /// The error of a failed connection: a socket that does not exist or
    /// that refuses the connection means that no daemon runs.
    pub fn from_connect(missing_or_refused: bool, message: String) -> (r: IpcError)
        ensures
            missing_or_refused ==> r is NotRunning,
            !missing_or_refused ==> (r matches IpcError::Io(m) && m@ == message@),
    {
        if missing_or_refused {
            IpcError::NotRunning
        } else {
            IpcError::Io(message)
        }
    }

    /// `daemon is not running`, or the system's message.
    pub fn render(&self) -> (r: String)
        ensures
            r@ == match self {
                IpcError::NotRunning => "daemon is not running"@,
                IpcError::Io(m) => m@,
            },
    {
        match self {
            IpcError::NotRunning => owned("daemon is not running"),
            IpcError::Io(m) => m.clone(),
        }
    }
}


/// Each request word asks for its own command: `open <w>` opens window
/// `w`, `close <w>` closes it, `toggle <w>` toggles it, `reload` reloads,
/// and `update <name> <value>` sets a variable; and each command is written
/// with its own word.
pub proof fn law_request_words(w: Seq<char>, name: Seq<char>, value: Seq<char>)
    requires
        w.len() > 0,
        trim_chars(w) == w,
    ensures
        spec_parse_command("open "@ + w) == Ok::<CommandView, ParseErrorView>(CommandView::Open { window: w }),
        spec_parse_command("close "@ + w) == Ok::<CommandView, ParseErrorView>(CommandView::Close { window: w }),
        spec_parse_command("toggle "@ + w) == Ok::<CommandView, ParseErrorView>(CommandView::Toggle { window: w }),
        spec_parse_command("reload"@) == Ok::<CommandView, ParseErrorView>(CommandView::Reload),
        name.len() > 0 && !name.contains(' ') && value.len() > 0 && value[value.len() - 1] != '\n'
            ==> spec_parse_command("update "@ + name + " "@ + value)
                == Ok::<CommandView, ParseErrorView>(CommandView::Update { name, value }),
        command_wire(CommandView::Open { window: w }) == "open "@ + w,
        command_wire(CommandView::Close { window: w }) == "close "@ + w,
        command_wire(CommandView::Toggle { window: w }) == "toggle "@ + w,
        command_wire(CommandView::Reload) == "reload"@,
{
    law_command_wire_roundtrip(CommandView::Open { window: w });
    law_command_wire_roundtrip(CommandView::Close { window: w });
    law_command_wire_roundtrip(CommandView::Toggle { window: w });
    law_command_wire_roundtrip(CommandView::Reload);
    if name.len() > 0 && !name.contains(' ') && value.len() > 0 && value[value.len() - 1] != '\n' {
        law_command_wire_roundtrip(CommandView::Update { name, value });
    }
}

/// `OK` is a plain success, `OK` with a line after it a success with a
/// note, and `ERROR` with a line after it a failure with that message.
pub proof fn law_reply_words(m: Seq<char>)
    requires
        m.len() > 0,
        m[m.len() - 1] != '\n',
    ensures
        spec_parse_response("OK"@) == ResponseView::Okay,
        spec_parse_response("OK\n"@ + m) == ResponseView::Note(m),
        spec_parse_response("ERROR\n"@ + m) == ResponseView::Error(m),
{
    law_response_wire_roundtrip(ResponseView::Okay);
    law_response_wire_roundtrip(ResponseView::Note(m));
    law_response_wire_roundtrip(ResponseView::Error(m));
}

} // verus!
