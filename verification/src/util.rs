//! Command lines, and the text they are made of.

use vstd::prelude::*;
use vstd::string::*;

verus! {

/// The texts that a sequence of strings holds.
pub open spec fn strings(v: Seq<String>) -> Seq<Seq<char>> {
    Seq::new(v.len(), |i: int| v[i]@)
}

/// A program and the arguments to run it with.
#[derive(Clone, Debug, PartialEq, Eq)]
pub struct CommandLine {
    pub program: String,
    pub args: Vec<String>,
}

/// The mathematical value of a [`CommandLine`].
pub struct CommandLineView {
    pub program: Seq<char>,
    pub args: Seq<Seq<char>>,
}

impl View for CommandLine {
    type V = CommandLineView;

    open spec fn view(&self) -> CommandLineView {
        CommandLineView { program: self.program@, args: strings(self.args@) }
    }
}

impl CommandLine {
    /// Adds an argument at the end.
    pub fn arg(&mut self, arg: &str)
        ensures
            final(self)@.program == old(self)@.program,
            final(self)@.args == old(self)@.args.push(arg@),
    {
        self.args.push(arg.to_owned());
        assert(strings(self.args@) =~= strings(old(self).args@).push(arg@));
    }

    /// Adds arguments at the end, in their order.
    pub fn args(&mut self, args: &[String])
        ensures
            final(self)@.program == old(self)@.program,
            final(self)@.args == old(self)@.args + strings(args@),
    {
        let mut i: usize = 0;
        assert(strings(args@).take(0) =~= Seq::<Seq<char>>::empty());
        while i < args.len()
            invariant
                i <= args.len(),
                self@.program == old(self)@.program,
                self@.args == old(self)@.args + strings(args@).take(i as int),
            decreases args.len() - i,
        {
            let ghost before = self.args@;
            let item = args[i].clone();
            assert(item@ == args@[i as int]@);
            self.args.push(item);
            assert(strings(self.args@) =~= strings(before).push(item@));
            assert(strings(args@).take(i + 1) =~= strings(args@).take(i as int).push(args@[i as int]@));
            assert(strings(self.args@) =~= old(self)@.args + strings(args@).take(i + 1));
            i += 1;
        }
        assert(strings(args@).take(i as int) =~= strings(args@));
    }
}

/// The command line of `cmd` without arguments, or of `sudo` with `cmd` as
/// its argument where `root` is set.
pub fn command(root: bool, cmd: &str) -> (c: CommandLine)
    ensures
        c@ == command_line(root, cmd@),
{
    if root {
        let mut c = CommandLine { program: "sudo".to_owned(), args: Vec::new() };
        assert(c@.args =~= Seq::<Seq<char>>::empty());
        c.arg(cmd);
        assert(c@.args =~= seq![cmd@]);
        c
    } else {
        let c = CommandLine { program: cmd.to_owned(), args: Vec::new() };
        assert(c@.args =~= Seq::<Seq<char>>::empty());
        c
    }
}

/// What [`command`] returns.
pub open spec fn command_line(root: bool, cmd: Seq<char>) -> CommandLineView {
    if root {
        CommandLineView { program: "sudo"@, args: seq![cmd] }
    } else {
        CommandLineView { program: cmd, args: Seq::empty() }
    }
}

/// The decimal digit for `d`.
pub open spec fn digit(d: nat) -> char
    recommends
        d < 10,
{
    if d == 0 {
        '0'
    } else if d == 1 {
        '1'
    } else if d == 2 {
        '2'
    } else if d == 3 {
        '3'
    } else if d == 4 {
        '4'
    } else if d == 5 {
        '5'
    } else if d == 6 {
        '6'
    } else if d == 7 {
        '7'
    } else if d == 8 {
        '8'
    } else {
        '9'
    }
}

/// A number in decimal digits, without leading zeros.
pub open spec fn decimal_text(n: nat) -> Seq<char>
    decreases n,
{
    if n < 10 {
        seq![digit(n)]
    } else {
        decimal_text(n / 10).push(digit(n % 10))
    }
}

fn digit_text(d: u64) -> (s: &'static str)
    requires
        d < 10,
    ensures
        s@ == seq![digit(d as nat)],
{
    proof {
        reveal_strlit("0");
        reveal_strlit("1");
        reveal_strlit("2");
        reveal_strlit("3");
        reveal_strlit("4");
        reveal_strlit("5");
        reveal_strlit("6");
        reveal_strlit("7");
        reveal_strlit("8");
        reveal_strlit("9");
    }
    let s = if d == 0 {
        "0"
    } else if d == 1 {
        "1"
    } else if d == 2 {
        "2"
    } else if d == 3 {
        "3"
    } else if d == 4 {
        "4"
    } else if d == 5 {
        "5"
    } else if d == 6 {
        "6"
    } else if d == 7 {
        "7"
    } else if d == 8 {
        "8"
    } else {
        "9"
    };
    assert(s@ =~= seq![digit(d as nat)]);
    s
}

/// Writes a number in decimal digits.
pub fn decimal(n: u64) -> (s: String)
    ensures
        s@ == decimal_text(n as nat),
    decreases n,
{
    if n < 10 {
        digit_text(n).to_owned()
    } else {
        let mut s = decimal(n / 10);
        s.append(digit_text(n % 10));
        assert(s@ =~= decimal_text(n as nat));
        s
    }
}

/// The texts joined, with `separator` between one and the next.
pub open spec fn joined(parts: Seq<Seq<char>>, separator: Seq<char>) -> Seq<char>
    decreases parts.len(),
{
    if parts.len() == 0 {
        Seq::empty()
    } else if parts.len() == 1 {
        parts[0]
    } else {
        joined(parts.drop_last(), separator) + separator + parts.last()
    }
}

/// Joins the texts, with `separator` between one and the next.
pub fn join(parts: &[String], separator: &str) -> (s: String)
    ensures
        s@ == joined(strings(parts@), separator@),
{
    let mut s = String::new();
    let mut i: usize = 0;
    let ghost all = strings(parts@);
    assert(all.take(0) =~= Seq::<Seq<char>>::empty());
    while i < parts.len()
        invariant
            i <= parts.len(),
            all == strings(parts@),
            s@ == joined(all.take(i as int), separator@),
        decreases parts.len() - i,
    {
        proof {
            assert(all.take(i + 1).drop_last() =~= all.take(i as int));
            assert(all.take(i + 1).last() == parts[i as int]@);
        }
        if i > 0 {
            s.append(separator);
        }
        s.append(parts[i].as_str());
        proof {
            if i == 0 {
                assert(s@ =~= parts[0]@);
                assert(all.take(1)[0] == parts[0]@);
            }
        }
        i += 1;
    }
    assert(all.take(i as int) =~= all);
    s
}

} // verus!
