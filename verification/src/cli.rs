//! Turning command-line arguments into an operation.

use vstd::prelude::*;
use crate::text::str_eq;

verus! {

/// The actions available to the user of the program.
#[derive(Debug)]
pub enum Operation {
    /// Subscribe to the feed at the given URL.
    Add(String),
    /// Update every feed and show what is new.
    Up,
    /// List all subscribed feeds.
    Feeds,
    /// Show the unread items under fresh quickmark numbers.
    New,
    /// Mark items as read by their quickmark positions.
    Mark(Vec<u64>),
    /// Mark every item as read.
    MarkAll,
    /// Mark items as read by their identity hashes.
    MarkHash(Vec<String>),
    /// Unsubscribe from the feed at the given URL.
    Remove(String),
    /// Show the help message.
    Help,
}

/// The view of an [`Operation`].
pub enum OperationV {
    Add(Seq<char>),
    Up,
    Feeds,
    New,
    Mark(Seq<u64>),
    MarkAll,
    MarkHash(Seq<Seq<char>>),
    Remove(Seq<char>),
    Help,
}

impl View for Operation {
    type V = OperationV;

    open spec fn view(&self) -> OperationV {
        match self {
            Operation::Add(s) => OperationV::Add(s@),
            Operation::Up => OperationV::Up,
            Operation::Feeds => OperationV::Feeds,
            Operation::New => OperationV::New,
            Operation::Mark(v) => OperationV::Mark(v@),
            Operation::MarkAll => OperationV::MarkAll,
            Operation::MarkHash(v) => OperationV::MarkHash(v.deep_view()),
            Operation::Remove(s) => OperationV::Remove(s@),
            Operation::Help => OperationV::Help,
        }
    }
}

/// Why the arguments could not be understood.
#[derive(Clone, Copy, Debug, PartialEq, Eq, Structural)]
pub enum ParseErr {
    /// No command was given at all.
    NoArguments,
    /// The first argument is not a known command, or misses its operand.
    NotACommand,
    /// A quickmark position is not an unsigned decimal number.
    InvalidPosition,
}

impl ParseErr {
    /// A human-readable description of the error.
    pub fn message(&self) -> (r: &'static str)
        ensures
            r@ == match self {
                ParseErr::NoArguments => "No arguments passed to the program"@,
                ParseErr::NotACommand => "The argument passed is not a valid command"@,
                ParseErr::InvalidPosition => "The position passed is not a valid number"@,
            },
    {
        match self {
            ParseErr::NoArguments => "No arguments passed to the program",
            ParseErr::NotACommand => "The argument passed is not a valid command",
            ParseErr::InvalidPosition => "The position passed is not a valid number",
        }
    }
}

/// The value of a decimal digit.
pub open spec fn digit_val(c: char) -> Option<int> {
    if c == '0' { Some(0) } else if c == '1' { Some(1) } else if c == '2' { Some(2) }
    else if c == '3' { Some(3) } else if c == '4' { Some(4) } else if c == '5' { Some(5) }
    else if c == '6' { Some(6) } else if c == '7' { Some(7) } else if c == '8' { Some(8) }
    else if c == '9' { Some(9) } else { None }
}

/// The value of a digit string folded onto `acc`; `None` on a non-digit
/// or when the value leaves the `u64` range.
pub open spec fn digits_val(s: Seq<char>, acc: int) -> Option<int>
    decreases s.len(),
{
    if s.len() == 0 {
        Some(acc)
    } else {
        match digit_val(s[0]) {
            None => None,
            Some(d) => if acc * 10 + d > u64::MAX {
                None
            } else {
                digits_val(s.drop_first(), acc * 10 + d)
            },
        }
    }
}

/// The value of a position argument: an optional leading `+`, then at
/// least one decimal digit, fitting in a `u64`.
pub open spec fn parse_u64(s: Seq<char>) -> Option<int> {
    if s.len() == 0 {
        None
    } else if s[0] == '+' {
        if s.len() == 1 {
            None
        } else {
            digits_val(s.drop_first(), 0)
        }
    } else {
        digits_val(s, 0)
    }
}

/// The positions a list of arguments denotes; `None` as soon as one of
/// them is not a number.
pub open spec fn parse_positions(ss: Seq<Seq<char>>) -> Option<Seq<u64>>
    decreases ss.len(),
{
    if ss.len() == 0 {
        Some(Seq::empty())
    } else {
        match (parse_positions(ss.drop_last()), parse_u64(ss.last())) {
            (Some(ps), Some(v)) => Some(ps.push(v as u64)),
            _ => None,
        }
    }
}

/// If one argument is not a number, the whole list denotes none.
proof fn lemma_parse_positions_fail(ss: Seq<Seq<char>>, k: int)
    requires
        0 <= k < ss.len(),
        parse_u64(ss[k]) is None,
    ensures
        parse_positions(ss) is None,
    decreases ss.len(),
{
    if k < ss.len() - 1 {
        assert(ss.drop_last()[k] == ss[k]);
        lemma_parse_positions_fail(ss.drop_last(), k);
    }
}

/// The operation a full argument list denotes. The first argument is the
/// program's own name; the second selects the command; a command that
/// takes an operand falls through to "not a command" when the operand is
/// missing.
pub open spec fn spec_parse_arguments(args: Seq<Seq<char>>) -> Result<OperationV, ParseErr> {
    if args.len() <= 1 {
        Err(ParseErr::NoArguments)
    } else if args[1] == "add"@ && args.len() >= 3 {
        Ok(OperationV::Add(args[2]))
    } else if args[1] == "up"@ {
        Ok(OperationV::Up)
    } else if args[1] == "feeds"@ {
        Ok(OperationV::Feeds)
    } else if args[1] == "new"@ {
        Ok(OperationV::New)
    } else if args[1] == "mark"@ && args.len() >= 3 && args[2] == "--all"@ {
        Ok(OperationV::MarkAll)
    } else if args[1] == "mark"@ && args.len() >= 3 {
        match parse_positions(args.skip(2)) {
            Some(ps) => Ok(OperationV::Mark(ps)),
            None => Err(ParseErr::InvalidPosition),
        }
    } else if args[1] == "markhash"@ && args.len() > 2 {
        Ok(OperationV::MarkHash(args.skip(2)))
    } else if args[1] == "remove"@ && args.len() >= 3 {
        Ok(OperationV::Remove(args[2]))
    } else if args[1] == "help"@ || args[1] == "-h"@ || args[1] == "--help"@ {
        Ok(OperationV::Help)
    } else {
        Err(ParseErr::NotACommand)
    }
}

/// The view of a parse result.
pub open spec fn op_res_view(r: Result<Operation, ParseErr>) -> Result<OperationV, ParseErr> {
    match r {
        Ok(op) => Ok(op@),
        Err(e) => Err(e),
    }
}

/// The value of a decimal digit.
fn digit_of(c: char) -> (r: Option<u64>)
    ensures
        match r {
            Some(d) => digit_val(c) == Some(d as int),
            None => digit_val(c) is None,
        },
{
    if c == '0' { Some(0) } else if c == '1' { Some(1) } else if c == '2' { Some(2) }
    else if c == '3' { Some(3) } else if c == '4' { Some(4) } else if c == '5' { Some(5) }
    else if c == '6' { Some(6) } else if c == '7' { Some(7) } else if c == '8' { Some(8) }
    else if c == '9' { Some(9) } else { None }
}

/// Parse one position argument as an unsigned decimal number.
pub fn parse_position(s: &str) -> (r: Option<u64>)
    ensures
        match r {
            Some(v) => parse_u64(s@) == Some(v as int),
            None => parse_u64(s@) is None,
        },
{
    let n = s.unicode_len();
    if n == 0 {
        return None;
    }
    let start: usize = if s.get_char(0) == '+' {
        if n == 1 {
            return None;
        }
        1
    } else {
        0
    };
    let mut acc: u64 = 0;
    let mut i = start;
    proof {
        assert(s@.skip(0) =~= s@);
        if start == 1 {
            assert(s@.skip(1) =~= s@.drop_first());
        }
        assert(parse_u64(s@) == digits_val(s@.skip(start as int), 0));
    }
    while i < n
        invariant
            start <= i <= n,
            n == s@.len(),
            parse_u64(s@) == digits_val(s@.skip(i as int), acc as int),
        decreases n - i,
    {
        let c = s.get_char(i);
        proof {
            assert(s@.skip(i as int)[0] == s@[i as int]);
            assert(s@.skip(i as int).drop_first() =~= s@.skip((i + 1) as int));
        }
        let d = match digit_of(c) {
            Some(d) => d,
            None => {
                return None;
            },
        };
        if acc > (u64::MAX - d) / 10 {
            proof {
                assert((acc as int) * 10 + (d as int) > u64::MAX) by (nonlinear_arith)
                    requires
                        d <= 9,
                        acc > (u64::MAX - d) / 10,
                ;
            }
            return None;
        }
        proof {
            assert((acc as int) * 10 + (d as int) <= u64::MAX) by (nonlinear_arith)
                requires
                    d <= 9,
                    acc <= (u64::MAX - d) / 10,
            ;
        }
        acc = acc * 10 + d;
        i = i + 1;
    }
    proof {
        assert(s@.skip(n as int).len() == 0);
    }
    Some(acc)
}

/// Turn the arguments passed to the program into an operation.
pub fn parse_arguments(string_args: Vec<String>) -> (r: Result<Operation, ParseErr>)
    ensures
        op_res_view(r) == spec_parse_arguments(string_args.deep_view()),
{
    let ghost argv = string_args.deep_view();
    proof {
        assert forall|j: int| 0 <= j < argv.len() implies argv[j] == string_args@[j]@ by {}
    }
    if string_args.len() <= 1 {
        return Err(ParseErr::NoArguments);
    }
    let cmd = string_args[1].as_str();
    if str_eq(cmd, "add") && string_args.len() >= 3 {
        Ok(Operation::Add(string_args[2].clone()))
    } else if str_eq(cmd, "up") {
        Ok(Operation::Up)
    } else if str_eq(cmd, "feeds") {
        Ok(Operation::Feeds)
    } else if str_eq(cmd, "new") {
        Ok(Operation::New)
    } else if str_eq(cmd, "mark") && string_args.len() >= 3
        && str_eq(string_args[2].as_str(), "--all") {
        Ok(Operation::MarkAll)
    } else if str_eq(cmd, "mark") && string_args.len() >= 3 {
        let mut ps: Vec<u64> = Vec::new();
        let mut i: usize = 2;
        proof {
            assert(argv.skip(2).take(0) =~= Seq::<Seq<char>>::empty());
        }
        while i < string_args.len()
            invariant
                2 <= i <= string_args@.len(),
                argv == string_args.deep_view(),
                argv.len() == string_args@.len(),
                parse_positions(argv.skip(2).take((i - 2) as int)) == Some(ps@),
                spec_parse_arguments(argv) == (match parse_positions(argv.skip(2)) {
                    Some(pos) => Ok::<OperationV, ParseErr>(OperationV::Mark(pos)),
                    None => Err(ParseErr::InvalidPosition),
                }),
            decreases string_args@.len() - i,
        {
            let ghost sub = argv.skip(2);
            proof {
                assert(sub[(i - 2) as int] == argv[i as int]);
                assert(sub.take((i - 1) as int).drop_last() =~= sub.take((i - 2) as int));
                assert(sub.take((i - 1) as int).last() == sub[(i - 2) as int]);
            }
            match parse_position(string_args[i].as_str()) {
                Some(v) => {
                    ps.push(v);
                },
                None => {
                    proof {
                        assert(parse_u64(argv[i as int]) is None);
                        lemma_parse_positions_fail(argv.skip(2), (i - 2) as int);
                        assert(parse_positions(argv.skip(2)) is None);
                    }
                    return Err(ParseErr::InvalidPosition);
                },
            }
            i = i + 1;
        }
        proof {
            assert(argv.skip(2).take((string_args@.len() - 2) as int) =~= argv.skip(2));
        }
        Ok(Operation::Mark(ps))
    } else if str_eq(cmd, "markhash") && string_args.len() > 2 {
        let mut hs: Vec<String> = Vec::new();
        let mut i: usize = 2;
        while i < string_args.len()
            invariant
                2 <= i <= string_args@.len(),
                argv == string_args.deep_view(),
                argv.len() == string_args@.len(),
                hs.deep_view() =~= argv.skip(2).take((i - 2) as int),
            decreases string_args@.len() - i,
        {
            let ghost prev = hs.deep_view();
            hs.push(string_args[i].clone());
            proof {
                assert(hs.deep_view() =~= prev.push(argv[i as int]));
                assert(argv.skip(2).take((i - 1) as int)
                    =~= argv.skip(2).take((i - 2) as int).push(argv[i as int]));
            }
            i = i + 1;
        }
        proof {
            assert(argv.skip(2).take((string_args@.len() - 2) as int) =~= argv.skip(2));
        }
        Ok(Operation::MarkHash(hs))
    } else if str_eq(cmd, "remove") && string_args.len() >= 3 {
        Ok(Operation::Remove(string_args[2].clone()))
    } else if str_eq(cmd, "help") || str_eq(cmd, "-h") || str_eq(cmd, "--help") {
        Ok(Operation::Help)
    } else {
        Err(ParseErr::NotACommand)
    }
}

} // verus!
