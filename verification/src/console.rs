//! The in-game console: a submitted command line becomes a pending command (a
//! verb and its argument text), which is then either taken by the code that
//! asks for that verb, run by a registered handler, or reported as unknown.
use vstd::prelude::*;

verus! {

/// A character of the Unicode `White_Space` property, the whitespace of
/// `char::is_whitespace`.
pub open spec fn is_white_space(c: char) -> bool {
    let n = c as u32;
    ||| 0x9 <= n <= 0xd
    ||| n == 0x20
    ||| n == 0x85
    ||| n == 0xa0
    ||| n == 0x1680
    ||| 0x2000 <= n <= 0x200a
    ||| n == 0x2028
    ||| n == 0x2029
    ||| n == 0x202f
    ||| n == 0x205f
    ||| n == 0x3000
}

/// `s` without its leading whitespace.
pub open spec fn trim_start(s: Seq<char>) -> Seq<char>
    decreases s.len(),
{
    if s.len() > 0 && is_white_space(s[0]) {
        trim_start(s.drop_first())
    } else {
        s
    }
}

/// `s` without its trailing whitespace.
pub open spec fn trim_end(s: Seq<char>) -> Seq<char>
    decreases s.len(),
{
    if s.len() > 0 && is_white_space(s.last()) {
        trim_end(s.drop_last())
    } else {
        s
    }
}

/// `s` without its leading and trailing whitespace.
pub open spec fn trimmed(s: Seq<char>) -> Seq<char> {
    trim_end(trim_start(s))
}

/// `str::trim`: the same text without leading and trailing whitespace
/// (Unicode `White_Space`, as its documentation defines it).
#[verifier::external_body]
fn str_trim(s: &str) -> (t: &str)
    ensures
        t@ == trimmed(s@),
{
    s.trim()
}

/// A space or a tab.
pub open spec fn is_blank(c: char) -> bool {
    c == ' ' || c == '\t'
}

/// Index of the first blank of `s`, if it has one.
pub open spec fn first_blank(s: Seq<char>, i: int) -> bool {
    &&& 0 <= i < s.len()
    &&& is_blank(s[i])
    &&& forall|j: int| 0 <= j < i ==> !is_blank(#[trigger] s[j])
}

/// `str::split_once` with the pattern `[' ', '\t']`: the text before the first
/// space or tab and the text after it, or `None` when there is neither.
#[verifier::external_body]
fn split_once_blank(s: &str) -> (r: Option<(&str, &str)>)
    ensures
        r is None <==> forall|i: int| 0 <= i < s@.len() ==> !is_blank(#[trigger] s@[i]),
        r matches Some(p) ==> exists|i: int|
            #![trigger s@[i]]
            first_blank(s@, i) && p.0@ == s@.subrange(0, i) && p.1@ == s@.subrange(i + 1, s@.len() as int),
{
    s.split_once(&[' ', '\t'])
}

/// The verb and argument text of a command line: the trimmed line is cut at
/// its first space or tab (no blank: it is all verb), and the arguments are
/// trimmed too. `None` when the verb is empty.
pub open spec fn command_parts(line: Seq<char>) -> Option<(Seq<char>, Seq<char>)> {
    let c = trimmed(line);
    let (verb, args) = if exists|i: int| first_blank(c, i) {
        let i = choose|i: int| first_blank(c, i);
        (c.subrange(0, i), c.subrange(i + 1, c.len() as int))
    } else {
        (c, Seq::<char>::empty())
    };
    if verb.len() == 0 {
        None
    } else {
        Some((verb, trimmed(args)))
    }
}

/// Two first blanks are the same.
proof fn lemma_first_blank_unique(s: Seq<char>, i: int, j: int)
    requires
        first_blank(s, i),
        first_blank(s, j),
    ensures
        i == j,
{
    if i < j {
        assert(!is_blank(s[i]));
    } else if j < i {
        assert(!is_blank(s[j]));
    }
}

/// Splits a submitted command line into its verb and its argument text (see
/// [`command_parts`]).
pub fn parse_command_line(line: &str) -> (parts: Option<(String, String)>)
    ensures
        parts is Some <==> command_parts(line@) is Some,
        parts matches Some(p) ==> command_parts(line@) == Some((p.0@, p.1@)),
{
    let command_str = str_trim(line);
    let ghost c = command_str@;
    let ghost expected: (Seq<char>, Seq<char>) = if exists|i: int| first_blank(c, i) {
        let i = choose|i: int| first_blank(c, i);
        (c.subrange(0, i), c.subrange(i + 1, c.len() as int))
    } else {
        (c, Seq::<char>::empty())
    };
    let (verb, arguments_str) = match split_once_blank(command_str) {
        Some(p) => {
            proof {
                let i = choose|i: int|
                    #![trigger c[i]]
                    first_blank(c, i) && p.0@ == c.subrange(0, i) && p.1@ == c.subrange(i + 1, c.len() as int);
                let k = choose|k: int| first_blank(c, k);
                lemma_first_blank_unique(c, i, k);
                assert(p.0@ == expected.0 && p.1@ == expected.1);
            }
            p
        },
        None => {
            proof {
                reveal_strlit("");
                if exists|i: int| first_blank(c, i) {
                    let k = choose|k: int| first_blank(c, k);
                    assert(is_blank(c[k]));
                }
                assert(""@ =~= Seq::<char>::empty());
            }
            (command_str, "")
        },
    };
    proof {
        assert(verb@ == expected.0 && arguments_str@ == expected.1);
    }
    if verb.is_empty() {
        return None;
    }
    Some((verb.to_owned(), str_trim(arguments_str).to_owned()))
}

/// What the console holds: whether it is shown, the pending command, and the
/// verbs that have a handler.
pub struct Console {
    visible: bool,
    ready_cmd_str: Option<(String, String)>,
    registered_commands: Vec<String>,
}

impl Console {
    pub closed spec fn shown(&self) -> bool {
        self.visible
    }

    /// The pending command, as its verb and argument text.
    pub closed spec fn pending(&self) -> Option<(Seq<char>, Seq<char>)> {
        match self.ready_cmd_str {
            Some(p) => Some((p.0@, p.1@)),
            None => None,
        }
    }

    /// Verb of the pending command (empty when none is pending).
    pub open spec fn pending_verb(&self) -> Seq<char> {
        match self.pending() {
            Some(p) => p.0,
            None => Seq::<char>::empty(),
        }
    }

    /// Argument text of the pending command (empty when none is pending).
    pub open spec fn pending_args(&self) -> Seq<char> {
        match self.pending() {
            Some(p) => p.1,
            None => Seq::<char>::empty(),
        }
    }

    /// The verbs with a handler.
    pub closed spec fn verbs(&self) -> Set<Seq<char>> {
        self.registered_commands@.map_values(|s: String| s@).to_set()
    }

    /// Hidden, with nothing pending and nothing registered.
    pub fn new() -> (c: Console)
        ensures
            !c.shown(),
            c.pending() is None,
            c.verbs() == Set::<Seq<char>>::empty(),
    {
        let c = Console { visible: false, ready_cmd_str: None, registered_commands: Vec::new() };
        assert(c.verbs() =~= Set::<Seq<char>>::empty());
        c
    }

    /// Whether the console is shown.
    pub fn is_visible(&self) -> (v: bool)
        ensures
            v == self.shown(),
    {
        self.visible
    }

    /// Shows the console if hidden, hides it if shown.
    pub fn toggle_visible(&mut self)
        ensures
            final(self).shown() == !old(self).shown(),
            final(self).pending() == old(self).pending(),
            final(self).verbs() == old(self).verbs(),
    {
        self.visible = !self.visible;
    }

    /// Hides the console.
    pub fn dismiss(&mut self)
        ensures
            !final(self).shown(),
            final(self).pending() == old(self).pending(),
            final(self).verbs() == old(self).verbs(),
    {
        self.visible = false;
    }

    /// Takes a submitted command line: when it has a verb, it becomes the
    /// pending command.
    pub fn submit_line(&mut self, line: &str)
        ensures
            final(self).pending() == match command_parts(line@) {
                Some(p) => Some(p),
                None => old(self).pending(),
            },
            final(self).shown() == old(self).shown(),
            final(self).verbs() == old(self).verbs(),
    {
        if let Some(parts) = parse_command_line(line) {
            self.ready_cmd_str = Some(parts);
        }
    }

    /// Whether `verb` has a handler.
    pub fn is_registered(&self, verb: &String) -> (b: bool)
        ensures
            b == self.verbs().contains(verb@),
    {
        let mut i: usize = 0;
        while i < self.registered_commands.len()
            invariant
                0 <= i <= self.registered_commands@.len(),
                forall|j: int| 0 <= j < i ==> (#[trigger] self.registered_commands@[j])@ != verb@,
            decreases self.registered_commands@.len() - i,
        {
            if self.registered_commands[i] == *verb {
                proof {
                    let m = self.registered_commands@.map_values(|s: String| s@);
                    assert(m[i as int] == verb@);
                    assert(m.contains(verb@));
                }
                return true;
            }
            i = i + 1;
        }
        proof {
            let m = self.registered_commands@.map_values(|s: String| s@);
            if m.to_set().contains(verb@) {
                let j = choose|j: int| 0 <= j < m.len() && m[j] == verb@;
                assert(self.registered_commands@[j]@ == verb@);
            }
        }
        false
    }

    /// Registers a handler for `verb`; a verb registered again keeps one entry
    /// (the caller replaces its handler).
    pub fn register_command(&mut self, verb: String)
        ensures
            final(self).verbs() == old(self).verbs().insert(verb@),
            final(self).shown() == old(self).shown(),
            final(self).pending() == old(self).pending(),
    {
        if !self.is_registered(&verb) {
            let ghost old_list = self.registered_commands@;
            self.registered_commands.push(verb);
            proof {
                let m0 = old_list.map_values(|s: String| s@);
                let m1 = self.registered_commands@.map_values(|s: String| s@);
                assert(m1 =~= m0.push(verb@));
                assert(m1.to_set() =~= m0.to_set().insert(verb@)) by {
                    assert forall|x: Seq<char>| m1.to_set().contains(x) <==> m0.to_set().insert(verb@).contains(x) by {
                        if m1.contains(x) {
                            let j = choose|j: int| 0 <= j < m1.len() && m1[j] == x;
                            if j < m0.len() {
                                assert(m0[j] == x);
                            }
                        }
                        if m0.contains(x) {
                            let j = choose|j: int| 0 <= j < m0.len() && m0[j] == x;
                            assert(m1[j] == x);
                        }
                        if x == verb@ {
                            assert(m1[m0.len() as int] == x);
                        }
                    }
                }
            }
        } else {
            proof {
                assert(self.verbs().insert(verb@) =~= self.verbs());
            }
        }
    }

    /// When the pending command has verb `verb`, takes it and returns its
    /// argument text.
    pub fn command(&mut self, verb: &str) -> (args: Option<String>)
        ensures
            old(self).pending() is Some && old(self).pending_verb() == verb@ ==> (args matches Some(a)
                && a@ == old(self).pending_args()) && final(self).pending() is None,
            !(old(self).pending() is Some && old(self).pending_verb() == verb@) ==> args is None
                && final(self).pending() == old(self).pending(),
            final(self).shown() == old(self).shown(),
            final(self).verbs() == old(self).verbs(),
    {
        let wanted = verb.to_owned();
        let matches = match &self.ready_cmd_str {
            Some(p) => p.0 == wanted,
            None => false,
        };
        if matches {
            match self.ready_cmd_str.take() {
                Some(p) => Some(p.1),
                None => None,
            }
        } else {
            None
        }
    }

    /// When the pending command's verb has a handler, takes the command so the
    /// caller can run that handler.
    pub fn take_registered(&mut self) -> (cmd: Option<(String, String)>)
        ensures
            old(self).pending() is Some && old(self).verbs().contains(old(self).pending_verb()) ==> (cmd matches Some(
                c) && c.0@ == old(self).pending_verb() && c.1@ == old(self).pending_args()) && final(self).pending() is None,
            !(old(self).pending() is Some && old(self).verbs().contains(old(self).pending_verb())) ==> cmd is None
                && final(self).pending() == old(self).pending(),
            final(self).shown() == old(self).shown(),
            final(self).verbs() == old(self).verbs(),
    {
        let registered = match &self.ready_cmd_str {
            Some(p) => self.is_registered(&p.0),
            None => false,
        };
        if registered {
            self.ready_cmd_str.take()
        } else {
            None
        }
    }

    /// Takes the pending command, left over when nothing took it during the
    /// last frame, and returns its verb.
    pub fn take_unhandled(&mut self) -> (verb: Option<String>)
        ensures
            old(self).pending() is Some ==> (verb matches Some(v) && v@ == old(self).pending_verb()),
            old(self).pending() is None ==> verb is None,
            final(self).pending() is None,
            final(self).shown() == old(self).shown(),
            final(self).verbs() == old(self).verbs(),
    {
        match self.ready_cmd_str.take() {
            Some(p) => Some(p.0),
            None => None,
        }
    }
}

} // verus!
