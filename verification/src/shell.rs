use vstd::prelude::*;

verus! {

use crate::disk::filesystem::nonempty;
use crate::input::{EventType, InputEvent, keycode_to_char, spec_keycode_to_char};
use crate::keyboard::{Key, key_to_char, spec_key_to_char};

/// The command line that leaves the shell or the console.
pub open spec fn exit_word() -> Seq<char> {
    seq!['e', 'x', 'i', 't']
}

/// Whether `line` is the exit command.
fn is_exit(line: &Vec<char>) -> (r: bool)
    ensures
        r == (line@ == exit_word()),
{
    let r = line.len() == 4 && line[0] == 'e' && line[1] == 'x' && line[2] == 'i' && line[3] == 't';
    if r {
        assert(line@ =~= exit_word());
    }
    r
}

/// What the shell does in answer to a key event.
pub enum ShellAction {
    /// Nothing.
    Nothing,
    /// Shows the character typed.
    Echo(char),
    /// Takes back the last character shown.
    Erase,
    /// Runs the command line.
    Run(Vec<char>),
    /// Leaves the shell.
    Exit,
}

/// Handles a key event of the shell, where `command` is the line typed so far: a key
/// press of a character adds it, Enter runs the line (or leaves on "exit"), and
/// Backspace takes back the last character.
pub fn shell_key(command: &mut Vec<char>, key: Key, is_up: bool) -> (r: ShellAction)
    ensures
        is_up ==> r is Nothing && final(command)@ == old(command)@,
        !is_up ==> match spec_key_to_char(key) {
            Some(c) => r == ShellAction::Echo(c) && final(command)@ == old(command)@.push(c),
            None => if key == Key::Enter {
                if old(command)@ == exit_word() {
                    r is Exit && final(command)@ == old(command)@
                } else {
                    r matches ShellAction::Run(line) && line@ == old(command)@ && final(command)@ == Seq::<char>::empty()
                }
            } else if key == Key::Backspace && old(command)@.len() != 0 {
                r is Erase && final(command)@ == old(command)@.drop_last()
            } else {
                r is Nothing && final(command)@ == old(command)@
            },
        },
{
    if is_up {
        return ShellAction::Nothing;
    }
    if let Some(c) = key_to_char(key) {
        command.push(c);
        return ShellAction::Echo(c);
    }
    if key == Key::Enter {
        if is_exit(command) {
            return ShellAction::Exit;
        }
        let mut line: Vec<char> = Vec::new();
        std::mem::swap(command, &mut line);
        return ShellAction::Run(line);
    }
    if key == Key::Backspace && command.len() != 0 {
        command.pop();
        return ShellAction::Erase;
    }
    ShellAction::Nothing
}

/// `line` split at each `sep`.
pub open spec fn split_on(line: Seq<char>, sep: char) -> Seq<Seq<char>>
    decreases line.len(),
{
    if line.len() == 0 {
        seq![Seq::empty()]
    } else if line.last() == sep {
        split_on(line.drop_last(), sep).push(Seq::empty())
    } else {
        let s = split_on(line.drop_last(), sep);
        s.update(s.len() - 1, s.last().push(line.last()))
    }
}

/// The words of a command line: its parts between spaces that are not empty.
pub open spec fn words(line: Seq<char>) -> Seq<Seq<char>> {
    nonempty(split_on(line, ' '))
}

/// The values of a list of words.
pub open spec fn words_view(v: Seq<Vec<char>>) -> Seq<Seq<char>> {
    v.map_values(|w: Vec<char>| w@)
}

/// The words of `line`: its parts between spaces that are not empty.
pub fn split_words(line: &Vec<char>) -> (r: Vec<Vec<char>>)
    ensures
        words_view(r@) == words(line@),
{
    let mut res: Vec<Vec<char>> = Vec::new();
    let mut curr: Vec<char> = Vec::new();
    let mut i: usize = 0;
    while i < line.len()
        invariant
            i <= line.len(),
            split_on(line@.subrange(0, i as int), ' ').len() >= 1,
            words_view(res@) == nonempty(split_on(line@.subrange(0, i as int), ' ').drop_last()),
            curr@ == split_on(line@.subrange(0, i as int), ' ').last(),
        decreases line.len() - i,
    {
        let c = line[i];
        let ghost before = line@.subrange(0, i as int);
        let ghost sp = split_on(before, ' ');
        proof {
            assert(line@.subrange(0, i + 1).drop_last() =~= before);
        }
        if c == ' ' {
            if curr.len() > 0 {
                let ghost r0 = res@;
                res.push(curr);
                assert(words_view(res@) =~= words_view(r0).push(sp.last()));
            }
            curr = Vec::new();
            proof {
                assert(split_on(line@.subrange(0, i + 1), ' ') == sp.push(Seq::empty()));
                assert(sp.push(Seq::<char>::empty()).drop_last() =~= sp);
                assert(sp.drop_last().push(sp.last()) =~= sp);
                assert(curr@ =~= Seq::<char>::empty());
            }
        } else {
            curr.push(c);
            proof {
                let sp2 = sp.update(sp.len() - 1, sp.last().push(c));
                assert(split_on(line@.subrange(0, i + 1), ' ') == sp2);
                assert(sp2.drop_last() =~= sp.drop_last());
            }
        }
        i = i + 1;
    }
    proof {
        assert(line@.subrange(0, line.len() as int) =~= line@);
        let sp = split_on(line@, ' ');
        assert(sp.drop_last().push(sp.last()) =~= sp);
    }
    if curr.len() > 0 {
        let ghost r0 = res@;
        res.push(curr);
        assert(words_view(res@) =~= words_view(r0).push(split_on(line@, ' ').last()));
    }
    res
}

/// The command of a command line and its arguments: its first word and the others,
/// or `None` for a line of no words.
pub fn parse_command(line: &Vec<char>) -> (r: Option<(Vec<char>, Vec<Vec<char>>)>)
    ensures
        r is None <==> words(line@).len() == 0,
        r matches Some((name, args)) ==> name@ == words(line@)[0] && words_view(args@) == words(line@).drop_first(),
{
    let mut parts = split_words(line);
    if parts.len() == 0 {
        return None;
    }
    let ghost w = words_view(parts@);
    let name = parts.remove(0);
    assert(words_view(parts@) =~= w.drop_first());
    Some((name, parts))
}

/// The commands the shell knows.
#[derive(PartialEq, Eq, Structural, Debug)]
pub enum CommandKind {
    Ls,
    Mkdir,
    Cd,
    Cp,
    Erase,
    /// Any other name: a program to run.
    Program,
}

/// The command a name stands for.
pub open spec fn spec_command_kind(name: Seq<char>) -> CommandKind {
    if name == seq!['l', 's'] {
        CommandKind::Ls
    } else if name == seq!['m', 'k', 'd', 'i', 'r'] {
        CommandKind::Mkdir
    } else if name == seq!['c', 'd'] {
        CommandKind::Cd
    } else if name == seq!['c', 'p'] {
        CommandKind::Cp
    } else if name == seq!['e', 'r', 'a', 's', 'e'] {
        CommandKind::Erase
    } else {
        CommandKind::Program
    }
}

/// Whether `name` spells `word`.
fn spells(name: &Vec<char>, word: &Vec<char>) -> (r: bool)
    ensures
        r == (name@ == word@),
{
    if name.len() != word.len() {
        return false;
    }
    let mut i: usize = 0;
    while i < name.len()
        invariant
            name.len() == word.len(),
            i <= name.len(),
            name@.subrange(0, i as int) == word@.subrange(0, i as int),
        decreases name.len() - i,
    {
        if name[i] != word[i] {
            return false;
        }
        i = i + 1;
        assert(name@.subrange(0, i as int) =~= name@.subrange(0, i - 1).push(name@[i - 1]));
        assert(word@.subrange(0, i as int) =~= word@.subrange(0, i - 1).push(word@[i - 1]));
    }
    assert(name@ =~= name@.subrange(0, name.len() as int));
    assert(word@ =~= word@.subrange(0, word.len() as int));
    true
}

/// The command a name stands for.
pub fn command_kind(name: &Vec<char>) -> (r: CommandKind)
    ensures
        r == spec_command_kind(name@),
{
    let ls = vec!['l', 's'];
    let mkdir = vec!['m', 'k', 'd', 'i', 'r'];
    let cd = vec!['c', 'd'];
    let cp = vec!['c', 'p'];
    let erase = vec!['e', 'r', 'a', 's', 'e'];
    proof {
        assert(ls@ =~= seq!['l', 's']);
        assert(mkdir@ =~= seq!['m', 'k', 'd', 'i', 'r']);
        assert(cd@ =~= seq!['c', 'd']);
        assert(cp@ =~= seq!['c', 'p']);
        assert(erase@ =~= seq!['e', 'r', 'a', 's', 'e']);
    }
    if spells(name, &ls) {
        CommandKind::Ls
    } else if spells(name, &mkdir) {
        CommandKind::Mkdir
    } else if spells(name, &cd) {
        CommandKind::Cd
    } else if spells(name, &cp) {
        CommandKind::Cp
    } else if spells(name, &erase) {
        CommandKind::Erase
    } else {
        CommandKind::Program
    }
}

/// The path an argument names from the directory `curr_dir`: the argument itself
/// where it starts with a slash, else the argument after `curr_dir`.
pub fn resolve_argument(curr_dir: &Vec<char>, arg: &Vec<char>) -> (r: Vec<char>)
    requires
        arg.len() >= 1,
    ensures
        r@ == (if arg@[0] == '/' {
            arg@
        } else {
            curr_dir@ + arg@
        }),
{
    let mut res: Vec<char> = Vec::new();
    if arg[0] != '/' {
        let mut i: usize = 0;
        while i < curr_dir.len()
            invariant
                i <= curr_dir.len(),
                res@ == curr_dir@.subrange(0, i as int),
            decreases curr_dir.len() - i,
        {
            res.push(curr_dir[i]);
            i = i + 1;
        }
    }
    let ghost start = res@;
    let mut j: usize = 0;
    while j < arg.len()
        invariant
            j <= arg.len(),
            res@ == start + arg@.subrange(0, j as int),
        decreases arg.len() - j,
    {
        res.push(arg[j]);
        j = j + 1;
        assert(res@ =~= start + arg@.subrange(0, j as int));
    }
    assert(arg@.subrange(0, arg.len() as int) =~= arg@);
    assert(curr_dir@.subrange(0, curr_dir.len() as int) =~= curr_dir@);
    res
}

/// The path of the program a command name runs: "programs/" and the name.
pub fn program_path(name: &Vec<char>) -> (r: Vec<char>)
    ensures
        r@ == seq!['p', 'r', 'o', 'g', 'r', 'a', 'm', 's', '/'] + name@,
{
    let mut res = vec!['p', 'r', 'o', 'g', 'r', 'a', 'm', 's', '/'];
    let ghost start = res@;
    let mut j: usize = 0;
    while j < name.len()
        invariant
            j <= name.len(),
            res@ == start + name@.subrange(0, j as int),
        decreases name.len() - j,
    {
        res.push(name[j]);
        j = j + 1;
        assert(res@ =~= start + name@.subrange(0, j as int));
    }
    assert(name@.subrange(0, name.len() as int) =~= name@);
    assert(start =~= seq!['p', 'r', 'o', 'g', 'r', 'a', 'm', 's', '/']);
    res
}

/// Key code of Backspace on a virtio keyboard.
pub const KEY_BACKSPACE: u16 = 14;
/// Key code of Enter on a virtio keyboard.
pub const KEY_ENTER: u16 = 28;
/// Ticks between two blinks of the console's cursor.
pub const CURSOR_BLINK_INTERVAL: u64 = 500;

/// What the console does in answer to an input event.
pub enum ConsoleAction {
    /// Nothing.
    Nothing,
    /// Shows the line again.
    Render,
    /// Shows the line without cursor, then runs it; the line is cleared.
    Submit(Vec<char>),
    /// Leaves the console.
    Exit,
}

/// Handles an input event of the console, where `command` is the line typed so
/// far: a key press of a character adds it and shows the line; Backspace takes back
/// the last character; Enter runs the line (or leaves on "exit").
pub fn console_event(command: &mut Vec<char>, event: InputEvent) -> (r: ConsoleAction)
    ensures
        !(event.event_type == EventType::Key && event.value == 1) ==> r is Nothing && final(command)@ == old(command)@,
        event.event_type == EventType::Key && event.value == 1 ==> match spec_keycode_to_char(event.code) {
            Some(c) => r is Render && final(command)@ == old(command)@.push(c),
            None => if event.code == KEY_BACKSPACE && old(command)@.len() > 0 {
                r is Render && final(command)@ == old(command)@.drop_last()
            } else if event.code == KEY_ENTER {
                if old(command)@ == exit_word() {
                    r is Exit
                } else {
                    r matches ConsoleAction::Submit(line) && line@ == old(command)@ && final(command)@ == Seq::<
                        char,
                    >::empty()
                }
            } else {
                r is Nothing && final(command)@ == old(command)@
            },
        },
{
    if !(event.event_type == EventType::Key && event.value == 1) {
        return ConsoleAction::Nothing;
    }
    if let Some(c) = keycode_to_char(event.code) {
        command.push(c);
        return ConsoleAction::Render;
    }
    if event.code == KEY_BACKSPACE && command.len() > 0 {
        command.pop();
        return ConsoleAction::Render;
    }
    if event.code == KEY_ENTER {
        if is_exit(command) {
            return ConsoleAction::Exit;
        }
        let mut line: Vec<char> = Vec::new();
        std::mem::swap(command, &mut line);
        return ConsoleAction::Submit(line);
    }
    ConsoleAction::Nothing
}

/// Whether the console's cursor blinks at tick `now`, the last blink having been at
/// `prev`: more than the blink interval has passed.
pub fn cursor_blinks(prev: u64, now: u64) -> (r: bool)
    requires
        prev <= now,
    ensures
        r == (now - prev > CURSOR_BLINK_INTERVAL),
{
    now - prev > CURSOR_BLINK_INTERVAL
}

} // verus!
