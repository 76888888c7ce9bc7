//! The interactive shell: what it makes of the lines that are typed.

use vstd::prelude::*;

use crate::text;
use crate::text::same_text;
use crate::words;

verus! {

/// The state of the shell: the lines of a statement that is not complete yet.
#[derive(Debug)]
pub struct Repl {
    pub buffer: String,
}

impl View for Repl {
    type V = Seq<char>;

    open spec fn view(&self) -> Seq<char> {
        self.buffer@
    }
}

/// What a line asks for.
#[derive(Debug)]
pub enum ReplAction {
    /// Read on.
    Wait,
    Exit,
    Help,
    /// Show the tokens of a text.
    Tokens(String),
    /// Show the structure of a text.
    Ast(String),
    /// Tell how a command is used that lacks its text.
    Usage(String),
    /// Tell that a command is not known.
    UnknownCommand(String),
    /// Keep a text in the history and show its structure.
    Evaluate(String),
}

/// What a `ReplAction` stands for.
#[verifier::ext_equal]
pub enum ReplActionV {
    Wait,
    Exit,
    Help,
    Tokens(Seq<char>),
    Ast(Seq<char>),
    Usage(Seq<char>),
    UnknownCommand(Seq<char>),
    Evaluate(Seq<char>),
}

impl View for ReplAction {
    type V = ReplActionV;

    open spec fn view(&self) -> ReplActionV {
        match self {
            ReplAction::Wait => ReplActionV::Wait,
            ReplAction::Exit => ReplActionV::Exit,
            ReplAction::Help => ReplActionV::Help,
            ReplAction::Tokens(s) => ReplActionV::Tokens(s@),
            ReplAction::Ast(s) => ReplActionV::Ast(s@),
            ReplAction::Usage(s) => ReplActionV::Usage(s@),
            ReplAction::UnknownCommand(s) => ReplActionV::UnknownCommand(s@),
            ReplAction::Evaluate(s) => ReplActionV::Evaluate(s@),
        }
    }
}

/// What a command asks for: a word, and behind the first space its text.
pub open spec fn command_action(line: Seq<char>) -> ReplActionV {
    let (word, behind) = words::cut_at(line, ' ');
    let args = match behind {
        Some(s) => s,
        None => Seq::empty(),
    };
    if word == ".exit"@ || word == ".quit"@ {
        ReplActionV::Exit
    } else if word == ".help"@ {
        ReplActionV::Help
    } else if word == ".tokens"@ {
        if args.len() == 0 {
            ReplActionV::Usage(".tokens"@)
        } else {
            ReplActionV::Tokens(args)
        }
    } else if word == ".ast"@ {
        if args.len() == 0 {
            ReplActionV::Usage(".ast"@)
        } else {
            ReplActionV::Ast(args)
        }
    } else {
        ReplActionV::UnknownCommand(line)
    }
}

/// What a line asks for, and the lines that are kept. A line that starts with a dot
/// is a command and drops them. A statement is complete when a line ends with a
/// semicolon or is empty.
pub open spec fn line_action(buffer: Seq<char>, line: Seq<char>) -> (ReplActionV, Seq<char>) {
    let t = words::trimmed(line);
    if t.len() == 0 && buffer.len() == 0 {
        (ReplActionV::Wait, buffer)
    } else if t.len() > 0 && t[0] == '.' {
        (command_action(t), Seq::empty())
    } else {
        let all = buffer + t + " "@;
        if t.len() == 0 || t.last() == ';' {
            let input = words::trimmed(all);
            if input.len() == 0 || input == ";"@ {
                (ReplActionV::Wait, Seq::empty())
            } else {
                (ReplActionV::Evaluate(input), Seq::empty())
            }
        } else {
            (ReplActionV::Wait, all)
        }
    }
}

fn handle_command(line: &str) -> (r: ReplAction)
    ensures
        r@ == command_action(line@),
{
    let (word, behind) = words::cut(line, ' ');
    let args = match behind {
        Some(s) => s,
        None => String::new(),
    };
    assert(behind is None ==> args@ =~= Seq::<char>::empty());
    let w = word.as_str();
    if same_text(w, ".exit") || same_text(w, ".quit") {
        ReplAction::Exit
    } else if same_text(w, ".help") {
        ReplAction::Help
    } else if same_text(w, ".tokens") {
        if words::is_empty(args.as_str()) {
            ReplAction::Usage(".tokens".to_string())
        } else {
            ReplAction::Tokens(args)
        }
    } else if same_text(w, ".ast") {
        if words::is_empty(args.as_str()) {
            ReplAction::Usage(".ast".to_string())
        } else {
            ReplAction::Ast(args)
        }
    } else {
        ReplAction::UnknownCommand(line.to_string())
    }
}

fn starts_with_dot(s: &str) -> (r: bool)
    ensures
        r == (s@.len() > 0 && s@[0] == '.'),
{
    let cs = crate::text::chars_of(s);
    cs.len() > 0 && cs[0] == '.'
}

impl Repl {
    /// A shell at its start.
    pub fn new() -> (r: Self)
        ensures
            r@ == Seq::<char>::empty(),
    {
        let r = Repl { buffer: String::new() };
        assert(r@ =~= Seq::<char>::empty());
        r
    }

    /// The text in front of the next line.
    pub fn prompt(&self) -> (r: &'static str)
        ensures
            r@ == (if self@.len() == 0 {
                "srrdb> "@
            } else {
                "  ...> "@
            }),
    {
        if words::is_empty(self.buffer.as_str()) {
            "srrdb> "
        } else {
            "  ...> "
        }
    }

    /// Drops the lines of a statement that is not complete, and tells whether there
    /// were any.
    pub fn interrupt(&mut self) -> (r: bool)
        ensures
            r == (old(self)@.len() > 0),
            final(self)@ == Seq::<char>::empty(),
    {
        let any: bool = !words::is_empty(self.buffer.as_str());
        self.buffer = String::new();
        assert(self@ =~= Seq::<char>::empty());
        any
    }

    /// Takes a line, and decides what it asks for.
    pub fn feed(&mut self, line: &str) -> (r: ReplAction)
        ensures
            line_action(old(self)@, line@) == (r@, final(self)@),
    {
        let t = words::trim(line);
        if words::is_empty(t.as_str()) && words::is_empty(self.buffer.as_str()) {
            return ReplAction::Wait;
        }
        if starts_with_dot(t.as_str()) {
            self.buffer = String::new();
            assert(self@ =~= Seq::<char>::empty());
            return handle_command(t.as_str());
        }
        self.buffer.append(t.as_str());
        self.buffer.append(" ");
        if words::is_empty(t.as_str()) || words::ends_with(t.as_str(), ';') {
            let input = words::trim(self.buffer.as_str());
            self.buffer = String::new();
            assert(self@ =~= Seq::<char>::empty());
            if words::is_empty(input.as_str()) || same_text(input.as_str(), ";") {
                ReplAction::Wait
            } else {
                ReplAction::Evaluate(input)
            }
        } else {
            ReplAction::Wait
        }
    }
}

// ---------------------------------------------------------------------------
// What holds of the shell
// ---------------------------------------------------------------------------

/// What is kept after some lines.
pub open spec fn kept_after(lines: Seq<Seq<char>>) -> Seq<char>
    decreases lines.len(),
{
    if lines.len() == 0 {
        Seq::empty()
    } else {
        line_action(kept_after(lines.drop_last()), lines.last()).1
    }
}

/// Lines belong to one statement: none is a command, and only the last may end with a
/// semicolon.
pub open spec fn go_on(lines: Seq<Seq<char>>) -> bool {
    forall|i: int|
        0 <= i < lines.len() ==> words::is_plain_line(#[trigger] lines[i]) && lines[i][0] != '.' && (
        i < lines.len() - 1 ==> lines[i].last() != ';')
}

proof fn lemma_kept(lines: Seq<Seq<char>>)
    requires
        lines.len() > 0,
        go_on(lines),
        lines.last().last() != ';',
    ensures
        kept_after(lines) == text::joined(lines, " "@) + " "@,
        line_action(kept_after(lines.drop_last()), lines.last()).0 is Wait,
    decreases lines.len(),
{
    let before = lines.drop_last();
    let last = lines.last();
    assert(words::is_plain_line(lines[lines.len() - 1]));
    assert(lines[lines.len() - 1][0] != '.');
    words::trimmed_text_stays(last);
    if before.len() > 0 {
        assert(go_on(before)) by {
            assert forall|i: int| 0 <= i < before.len() implies words::is_plain_line(
                #[trigger] before[i],
            ) && before[i][0] != '.' && (i < before.len() - 1 ==> before[i].last() != ';') by {
                assert(before[i] == lines[i]);
            }
        }
        assert(before.last() == lines[lines.len() - 2]);
        lemma_kept(before);
        assert(kept_after(lines) =~= text::joined(lines, " "@) + " "@);
    } else {
        assert(Seq::<char>::empty() + last + " "@ =~= last + " "@);
        assert(lines[0] == last);
    }
}

/// A statement that is typed in several lines is evaluated when a line ends with a
/// semicolon, as its lines with spaces between them; before that the shell waits for
/// more, and after it nothing is kept.
pub proof fn lines_make_a_statement(lines: Seq<Seq<char>>)
    requires
        lines.len() > 0,
        go_on(lines),
        lines.last().last() == ';',
        text::joined(lines, " "@) != ";"@,
        text::white_space(' '),
    ensures
        line_action(kept_after(lines.drop_last()), lines.last()) == (
            ReplActionV::Evaluate(text::joined(lines, " "@)),
            Seq::<char>::empty(),
        ),
{
    let before = lines.drop_last();
    let last = lines.last();
    assert(words::is_plain_line(lines[lines.len() - 1]));
    assert(lines[lines.len() - 1][0] != '.');
    words::trimmed_text_stays(last);
    words::lines_make_a_line(lines);
    words::trimmed_text_stays(text::joined(lines, " "@));
    if before.len() > 0 {
        assert(go_on(before)) by {
            assert forall|i: int| 0 <= i < before.len() implies words::is_plain_line(
                #[trigger] before[i],
            ) && before[i][0] != '.' && (i < before.len() - 1 ==> before[i].last() != ';') by {
                assert(before[i] == lines[i]);
            }
        }
        assert(before.last() == lines[lines.len() - 2]);
        lemma_kept(before);
        assert(kept_after(before) + last + " "@ =~= text::joined(lines, " "@) + " "@);
    } else {
        assert(Seq::<char>::empty() + last + " "@ =~= text::joined(lines, " "@) + " "@) by {
            assert(lines[0] == last);
        }
    }
}

/// A command is a word with a dot, and behind a space its text. It is carried out at once
/// and drops the lines that are kept.
pub proof fn commands_are_carried_out(buffer: Seq<char>, args: Seq<char>)
    requires
        words::is_plain_line(args),
        !text::white_space('.'),
        !text::white_space('t'),
        !text::white_space('p'),
    ensures
        line_action(buffer, ".exit"@) == (ReplActionV::Exit, Seq::<char>::empty()),
        line_action(buffer, ".quit"@) == (ReplActionV::Exit, Seq::<char>::empty()),
        line_action(buffer, ".help"@) == (ReplActionV::Help, Seq::<char>::empty()),
        line_action(buffer, ".tokens "@ + args) == (
            ReplActionV::Tokens(args),
            Seq::<char>::empty(),
        ),
        line_action(buffer, ".ast "@ + args) == (ReplActionV::Ast(args), Seq::<char>::empty()),
        line_action(buffer, ".ast"@) == (ReplActionV::Usage(".ast"@), Seq::<char>::empty()),
{
    reveal_strlit(".exit");
    reveal_strlit(".quit");
    reveal_strlit(".help");
    reveal_strlit(".tokens");
    reveal_strlit(".ast");
    reveal_strlit(".tokens ");
    reveal_strlit(".ast ");
    words::trimmed_text_stays(".exit"@);
    words::trimmed_text_stays(".quit"@);
    words::trimmed_text_stays(".help"@);
    words::trimmed_text_stays(".ast"@);
    words::trimmed_text_stays(".tokens "@ + args);
    words::trimmed_text_stays(".ast "@ + args);
    words::no_cut(".exit"@, ' ');
    words::no_cut(".quit"@, ' ');
    words::no_cut(".help"@, ' ');
    words::no_cut(".ast"@, ' ');
    words::first_cut(".tokens"@, args, ' ');
    words::first_cut(".ast"@, args, ' ');
    assert(".tokens "@ + args =~= ".tokens"@ + seq![' '] + args);
    assert(".ast "@ + args =~= ".ast"@ + seq![' '] + args);
    assert(".exit"@[1] != ".help"@[1]);
    assert(".exit"@[1] == 'e' && ".quit"@[1] == 'q' && ".help"@[1] == 'h');
    assert(".tokens"@[1] == 't' && ".ast"@[1] == 'a');
}

} // verus!
