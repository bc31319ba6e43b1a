//! Commands of the interactive client.

use vstd::prelude::*;
use vstd::string::*;

use crate::chars;
use crate::chars::{at, part, starts_with, trim};
use crate::text::{from_chars, to_chars};

verus! {

/// A command of the interactive client.
#[derive(Debug, PartialEq)]
pub enum Command {
    ListCollections,
    DescribeCollection(String),
    CreateCollection(String),
    UseCollection(String),
    DropCollection(String),
    ToggleVertical,
    SetFormat(String),
    TogglePager,
    ToggleTiming,
    ExportToFile(String),
    ExecuteFile(String),
    Clear,
    Help,
    Quit,
    Unknown(String),
}

/// A command as a mathematical value.
pub enum CommandView {
    ListCollections,
    DescribeCollection(Seq<char>),
    CreateCollection(Seq<char>),
    UseCollection(Seq<char>),
    DropCollection(Seq<char>),
    ToggleVertical,
    SetFormat(Seq<char>),
    TogglePager,
    ToggleTiming,
    ExportToFile(Seq<char>),
    ExecuteFile(Seq<char>),
    Clear,
    Help,
    Quit,
    Unknown(Seq<char>),
}

impl View for Command {
    type V = CommandView;

    open spec fn view(&self) -> CommandView {
        match self {
            Command::ListCollections => CommandView::ListCollections,
            Command::DescribeCollection(s) => CommandView::DescribeCollection(s@),
            Command::CreateCollection(s) => CommandView::CreateCollection(s@),
            Command::UseCollection(s) => CommandView::UseCollection(s@),
            Command::DropCollection(s) => CommandView::DropCollection(s@),
            Command::ToggleVertical => CommandView::ToggleVertical,
            Command::SetFormat(s) => CommandView::SetFormat(s@),
            Command::TogglePager => CommandView::TogglePager,
            Command::ToggleTiming => CommandView::ToggleTiming,
            Command::ExportToFile(s) => CommandView::ExportToFile(s@),
            Command::ExecuteFile(s) => CommandView::ExecuteFile(s@),
            Command::Clear => CommandView::Clear,
            Command::Help => CommandView::Help,
            Command::Quit => CommandView::Quit,
            Command::Unknown(s) => CommandView::Unknown(s@),
        }
    }
}

/// What follows a word, without white space around it.
pub open spec fn argument(t: Seq<char>, word: Seq<char>) -> Seq<char> {
    chars::trimmed(t.skip(word.len() as int))
}

/// The command that a line without white space around it stands for.
pub open spec fn command_of(t: Seq<char>) -> CommandView {
    if t == "\\d"@ || t == "\\dt"@ {
        CommandView::ListCollections
    } else if chars::begins(t, "\\d "@) {
        CommandView::DescribeCollection(argument(t, "\\d "@))
    } else if chars::begins(t, "\\dt "@) {
        CommandView::DescribeCollection(argument(t, "\\dt "@))
    } else if t == "\\x"@ {
        CommandView::ToggleVertical
    } else if chars::begins(t, "\\format "@) {
        CommandView::SetFormat(argument(t, "\\format "@))
    } else if t == "\\pager"@ {
        CommandView::TogglePager
    } else if t == "\\timing"@ {
        CommandView::ToggleTiming
    } else if chars::begins(t, "\\o "@) {
        CommandView::ExportToFile(argument(t, "\\o "@))
    } else if chars::begins(t, "\\i "@) {
        CommandView::ExecuteFile(argument(t, "\\i "@))
    } else if chars::begins(t, "\\create "@) {
        CommandView::CreateCollection(argument(t, "\\create "@))
    } else if chars::begins(t, "\\use "@) {
        CommandView::UseCollection(argument(t, "\\use "@))
    } else if chars::begins(t, "\\drop "@) {
        CommandView::DropCollection(argument(t, "\\drop "@))
    } else if t == "\\clear"@ || t == "\\cls"@ {
        CommandView::Clear
    } else if t == "\\help"@ || t == "\\h"@ || t == "?"@ {
        CommandView::Help
    } else if t == "\\quit"@ || t == "\\q"@ || t == "exit"@ || t == "quit"@ {
        CommandView::Quit
    } else {
        CommandView::Unknown(t)
    }
}

/// Whether a line is a word.
pub fn is_word(t: &Vec<char>, word: &str) -> (r: bool)
    ensures
        r == (t@ == word@),
{
    let w: Vec<char> = to_chars(word);
    proof {
        if w@.len() == t@.len() {
            assert(t@.subrange(0, w@.len() as int) =~= t@);
        }
    }
    w.len() == t.len() && at(t, &w, 0)
}

/// What follows a word that a line starts with.
fn after_word(t: &Vec<char>, word: &str) -> (r: Option<String>)
    ensures
        match r {
            Some(s) => chars::begins(t@, word@) && s@ == argument(t@, word@),
            None => !chars::begins(t@, word@),
        },
{
    let w: Vec<char> = to_chars(word);
    if starts_with(t, &w) {
        let rest: Vec<char> = part(t, w.len(), t.len());
        assert(rest@ =~= t@.skip(w@.len() as int));
        Some(from_chars(trim(&rest).as_slice()))
    } else {
        None
    }
}

/// Reads a command.
pub fn parse_command(input: &str) -> (r: Command)
    ensures
        r@ == command_of(chars::trimmed(input@)),
{
    let t: Vec<char> = trim(&to_chars(input));
    if is_word(&t, "\\d") || is_word(&t, "\\dt") {
        return Command::ListCollections;
    }
    match after_word(&t, "\\d ") {
        Some(name) => {
            return Command::DescribeCollection(name);
        },
        None => {},
    }
    match after_word(&t, "\\dt ") {
        Some(name) => {
            return Command::DescribeCollection(name);
        },
        None => {},
    }
    if is_word(&t, "\\x") {
        return Command::ToggleVertical;
    }
    match after_word(&t, "\\format ") {
        Some(format) => {
            return Command::SetFormat(format);
        },
        None => {},
    }
    if is_word(&t, "\\pager") {
        return Command::TogglePager;
    }
    if is_word(&t, "\\timing") {
        return Command::ToggleTiming;
    }
    match after_word(&t, "\\o ") {
        Some(file) => {
            return Command::ExportToFile(file);
        },
        None => {},
    }
    match after_word(&t, "\\i ") {
        Some(file) => {
            return Command::ExecuteFile(file);
        },
        None => {},
    }
    match after_word(&t, "\\create ") {
        Some(name) => {
            return Command::CreateCollection(name);
        },
        None => {},
    }
    match after_word(&t, "\\use ") {
        Some(name) => {
            return Command::UseCollection(name);
        },
        None => {},
    }
    match after_word(&t, "\\drop ") {
        Some(name) => {
            return Command::DropCollection(name);
        },
        None => {},
    }
    if is_word(&t, "\\clear") || is_word(&t, "\\cls") {
        return Command::Clear;
    }
    if is_word(&t, "\\help") || is_word(&t, "\\h") || is_word(&t, "?") {
        return Command::Help;
    }
    if is_word(&t, "\\quit") || is_word(&t, "\\q") || is_word(&t, "exit") || is_word(&t, "quit") {
        return Command::Quit;
    }
    Command::Unknown(from_chars(t.as_slice()))
}

/// A line that differs from a word at one of its characters neither is that word
/// nor starts with it.
proof fn lemma_another_word(t: Seq<char>, word: Seq<char>, i: int)
    requires
        0 <= i < word.len(),
        i >= t.len() || t[i] != word[i],
    ensures
        t != word,
        !chars::begins(t, word),
{
    if chars::begins(t, word) {
        assert(t.take(word.len() as int)[i] == t[i]);
    }
}

/// A line starts with the word that it was put behind.
proof fn lemma_put_behind(word: Seq<char>, rest: Seq<char>)
    ensures
        chars::begins(word + rest, word),
        argument(word + rest, word) == chars::trimmed(rest),
{
    assert((word + rest).take(word.len() as int) =~= word);
    assert((word + rest).skip(word.len() as int) =~= rest);
}

/// A command with a name acts on that name: what stands behind the word, without
/// white space around it.
pub proof fn commands_name_their_collection(name: Seq<char>)
    ensures
        command_of("\\use "@ + name) == CommandView::UseCollection(chars::trimmed(name)),
        command_of("\\create "@ + name) == CommandView::CreateCollection(chars::trimmed(name)),
        command_of("\\drop "@ + name) == CommandView::DropCollection(chars::trimmed(name)),
        command_of("\\d "@ + name) == CommandView::DescribeCollection(chars::trimmed(name)),
        command_of("\\dt "@ + name) == CommandView::DescribeCollection(chars::trimmed(name)),
        command_of("\\format "@ + name) == CommandView::SetFormat(chars::trimmed(name)),
{
    lemma_word_letters();
    let u = "\\use "@ + name;
    lemma_put_behind("\\use "@, name);
    assert(u[1] == 'u');
    lemma_words_with(u, 'u');
    let c = "\\create "@ + name;
    lemma_put_behind("\\create "@, name);
    assert(c[1] == 'c');
    lemma_words_with(c, 'c');
    let d = "\\drop "@ + name;
    lemma_put_behind("\\drop "@, name);
    assert(d[1] == 'd' && d[2] == 'r');
    lemma_words_with(d, 'd');
    lemma_another_word(d, "\\d "@, 2);
    lemma_another_word(d, "\\dt "@, 2);
    lemma_another_word(d, "\\dt"@, 2);
    assert(d.len() > 2 && d != "\\d"@);
    let l = "\\d "@ + name;
    lemma_put_behind("\\d "@, name);
    assert(l[1] == 'd' && l[2] == ' ');
    lemma_another_word(l, "\\dt"@, 2);
    assert(l.len() > 2 && l != "\\d"@);
    let m = "\\dt "@ + name;
    lemma_put_behind("\\dt "@, name);
    assert(m[1] == 'd' && m[2] == 't');
    lemma_another_word(m, "\\d "@, 2);
    assert(m.len() > 3 && m != "\\d"@ && m != "\\dt"@);
    let f = "\\format "@ + name;
    lemma_put_behind("\\format "@, name);
    assert(f[1] == 'f');
    lemma_words_with(f, 'f');
}

proof fn lemma_word_letters()
    ensures
        "\\d"@ == seq!['\\', 'd'],
        "\\dt"@ == seq!['\\', 'd', 't'],
        "\\d "@ == seq!['\\', 'd', ' '],
        "\\dt "@ == seq!['\\', 'd', 't', ' '],
        "\\x"@ == seq!['\\', 'x'],
        "\\format "@.len() == 8 && "\\format "@[1] == 'f',
        "\\pager"@.len() == 6 && "\\pager"@[1] == 'p',
        "\\timing"@.len() == 7 && "\\timing"@[1] == 't',
        "\\o "@.len() == 3 && "\\o "@[1] == 'o',
        "\\i "@.len() == 3 && "\\i "@[1] == 'i',
        "\\create "@.len() == 8 && "\\create "@[1] == 'c',
        "\\use "@.len() == 5 && "\\use "@[1] == 'u',
        "\\drop "@.len() == 6 && "\\drop "@[1] == 'd' && "\\drop "@[2] == 'r',
{
    reveal_strlit("\\d");
    reveal_strlit("\\dt");
    reveal_strlit("\\d ");
    reveal_strlit("\\dt ");
    reveal_strlit("\\x");
    reveal_strlit("\\format ");
    reveal_strlit("\\pager");
    reveal_strlit("\\timing");
    reveal_strlit("\\o ");
    reveal_strlit("\\i ");
    reveal_strlit("\\create ");
    reveal_strlit("\\use ");
    reveal_strlit("\\drop ");
    assert("\\d"@ =~= seq!['\\', 'd']);
    assert("\\dt"@ =~= seq!['\\', 'd', 't']);
    assert("\\d "@ =~= seq!['\\', 'd', ' ']);
    assert("\\dt "@ =~= seq!['\\', 'd', 't', ' ']);
    assert("\\x"@ =~= seq!['\\', 'x']);
}

/// A line whose second character is a letter is no command that has another one
/// there.
proof fn lemma_words_with(t: Seq<char>, letter: char)
    requires
        t.len() > 1,
        t[1] == letter,
    ensures
        letter != 'd' ==> t != "\\d"@ && t != "\\dt"@ && !chars::begins(t, "\\d "@) && !chars::begins(
            t,
            "\\dt "@,
        ) && !chars::begins(t, "\\drop "@),
        letter != 'x' ==> t != "\\x"@,
        letter != 'f' ==> !chars::begins(t, "\\format "@),
        letter != 'p' ==> t != "\\pager"@,
        letter != 't' ==> t != "\\timing"@,
        letter != 'o' ==> !chars::begins(t, "\\o "@),
        letter != 'i' ==> !chars::begins(t, "\\i "@),
        letter != 'c' ==> !chars::begins(t, "\\create "@),
        letter != 'u' ==> !chars::begins(t, "\\use "@),
{
    lemma_word_letters();
    if letter != 'd' {
        lemma_another_word(t, "\\d"@, 1);
        lemma_another_word(t, "\\dt"@, 1);
        lemma_another_word(t, "\\d "@, 1);
        lemma_another_word(t, "\\dt "@, 1);
        lemma_another_word(t, "\\drop "@, 1);
    }
    if letter != 'x' {
        lemma_another_word(t, "\\x"@, 1);
    }
    if letter != 'f' {
        lemma_another_word(t, "\\format "@, 1);
    }
    if letter != 'p' {
        lemma_another_word(t, "\\pager"@, 1);
    }
    if letter != 't' {
        lemma_another_word(t, "\\timing"@, 1);
    }
    if letter != 'o' {
        lemma_another_word(t, "\\o "@, 1);
    }
    if letter != 'i' {
        lemma_another_word(t, "\\i "@, 1);
    }
    if letter != 'c' {
        lemma_another_word(t, "\\create "@, 1);
    }
    if letter != 'u' {
        lemma_another_word(t, "\\use "@, 1);
    }
}

/// Commands on files name their file.
pub proof fn commands_name_their_file(name: Seq<char>)
    ensures
        command_of("\\o "@ + name) == CommandView::ExportToFile(chars::trimmed(name)),
        command_of("\\i "@ + name) == CommandView::ExecuteFile(chars::trimmed(name)),
{
    lemma_word_letters();
    let o = "\\o "@ + name;
    lemma_put_behind("\\o "@, name);
    assert(o[1] == 'o');
    lemma_words_with(o, 'o');
    let i = "\\i "@ + name;
    lemma_put_behind("\\i "@, name);
    assert(i[1] == 'i');
    lemma_words_with(i, 'i');
}

/// Each switch has one word, and leaving, help, clearing and listing have theirs;
/// what is no command is kept as it stands.
pub proof fn single_words_are_commands(t: Seq<char>)
    ensures
        command_of(t) is ToggleVertical <==> t == "\\x"@,
        command_of(t) is TogglePager <==> t == "\\pager"@,
        command_of(t) is ToggleTiming <==> t == "\\timing"@,
        command_of(t) is Quit <==> t == "\\quit"@ || t == "\\q"@ || t == "exit"@ || t == "quit"@,
        command_of(t) is Help <==> t == "\\help"@ || t == "\\h"@ || t == "?"@,
        command_of(t) is Clear <==> t == "\\clear"@ || t == "\\cls"@,
        command_of(t) is ListCollections <==> t == "\\d"@ || t == "\\dt"@,
        command_of(t) matches CommandView::Unknown(s) ==> s == t,
{
    lemma_word_letters();
    reveal_strlit("\\quit");
    reveal_strlit("\\q");
    reveal_strlit("exit");
    reveal_strlit("quit");
    reveal_strlit("\\help");
    reveal_strlit("\\h");
    reveal_strlit("?");
    reveal_strlit("\\clear");
    reveal_strlit("\\cls");
    if t.len() > 1 {
        lemma_words_with(t, t[1]);
    }
}

} // verus!
