//! The command grammar: one protocol line parsed into a structured command.

use vstd::prelude::*;

verus! {

use crate::nodespec::{NodeSpec, nodespec_of_text};
use crate::value::{ValType, valtype_of_text};
use crate::text::{
    find_index, find_space_colon, find_char, find_space_colon_char, split_on, split_char, str_eq,
    lemma_find_index, lemma_find_space_colon,
};
use vstd::string::StrSliceExecFns;
use vstd::pervasive::unreached;

/// A parsed client request.
#[derive(Debug, PartialEq)]
pub enum Command {
    Create(NodeSpec, String, ValType),
    Read(NodeSpec),
    Update(NodeSpec, String),
}

/// The mathematical content of a command: paths and names as sequences.
pub ghost enum CommandView {
    Create(Seq<Seq<char>>, Seq<char>, ValType),
    Read(Seq<Seq<char>>),
    Update(Seq<Seq<char>>, Seq<char>),
}

impl View for Command {
    type V = CommandView;

    open spec fn view(&self) -> CommandView {
        match self {
            Command::Create(ns, name, vt) => CommandView::Create(ns@, name@, *vt),
            Command::Read(ns) => CommandView::Read(ns@),
            Command::Update(ns, v) => CommandView::Update(ns@, v@),
        }
    }
}

/// The command token of a line: everything before the first space, or the
/// whole line where there is none.
pub open spec fn spec_cmd_token(s: Seq<char>) -> Seq<char> {
    match find_index(s, ' ') {
        None => s,
        Some(p) => s.take(p),
    }
}

/// The arguments of a command line: the space-separated middle arguments
/// between the command token and the end (or the first ` :`), then, where a
/// ` :` occurs, everything after it verbatim as one final argument.
pub open spec fn spec_args(s: Seq<char>) -> Seq<Seq<char>> {
    let fsp = find_index(s, ' ');
    let lap = find_space_colon(s);
    let mid: Seq<Seq<char>> = match fsp {
        None => Seq::empty(),
        Some(p) => match lap {
            Some(q) => if q > p {
                split_on(s.subrange(p + 1, q), ' ')
            } else {
                Seq::empty()
            },
            None => split_on(s.skip(p + 1), ' '),
        },
    };
    let last: Seq<Seq<char>> = match lap {
        Some(q) => seq![s.skip(q + 2)],
        None => Seq::empty(),
    };
    mid + last
}

/// The command written by one protocol line (no trailing newline), or the
/// error reported for it: the grammar is
/// `<command> <arg> ... [:<final argument, spaces allowed>]`, with
/// `create <nodespec> <name> <valtype>`, `read <nodespec>` and
/// `update <nodespec> <value>` the three commands.
pub open spec fn spec_parse_command(s: Seq<char>) -> Result<CommandView, Seq<char>> {
    let cmd = spec_cmd_token(s);
    let args = spec_args(s);
    if cmd == "create"@ {
        if args.len() < 1 {
            Err("missing nodespec (1st argument)"@)
        } else if args.len() < 2 {
            Err("missing name (2nd argument)"@)
        } else if args.len() < 3 {
            Err("missing valtype (3rd argument)"@)
        } else {
            match valtype_of_text(args[2]) {
                None => Err("invalid type"@),
                Some(vt) => if args.len() > 3 {
                    Err("too many arguments (expected 3)"@)
                } else {
                    Ok(CommandView::Create(nodespec_of_text(args[0]), args[1], vt))
                },
            }
        }
    } else if cmd == "read"@ {
        if args.len() < 1 {
            Err("missing nodespec (1st argument)"@)
        } else if args.len() > 1 {
            Err("too many arguments (expected 1)"@)
        } else {
            Ok(CommandView::Read(nodespec_of_text(args[0])))
        }
    } else if cmd == "update"@ {
        if args.len() < 1 {
            Err("missing nodespec (1st argument)"@)
        } else if args.len() < 2 {
            Err("missing value (2nd argument)"@)
        } else if args.len() > 2 {
            Err("too many arguments (expected 2)"@)
        } else {
            Ok(CommandView::Update(nodespec_of_text(args[0]), args[1]))
        }
    } else {
        Err("unknown command"@)
    }
}

impl Command {
    /// Parse one protocol line. The command and arguments are separated by
    /// single spaces; a final argument introduced by ` :` is taken verbatim
    /// and may contain spaces.
    pub fn from_str(s: &str) -> (r: Result<Command, &'static str>)
        ensures
            match r {
                Ok(c) => spec_parse_command(s@) == Ok::<CommandView, Seq<char>>(c@),
                Err(m) => spec_parse_command(s@) == Err::<CommandView, Seq<char>>(m@),
            },
    {
        let len = s.unicode_len();
        let fsp = find_char(s, ' ');
        let lap = find_space_colon_char(s);
        proof {
            lemma_find_index(s@, ' ');
            lemma_find_space_colon(s@);
        }

        let mut args: Vec<String> = Vec::new();
        let ghost mut mid: Seq<Seq<char>> = Seq::empty();
        match fsp {
            None => {
                proof {
                    assert(args.deep_view() =~= mid);
                }
            },
            Some(p) => {
                match lap {
                    Some(q) => {
                        if q > p {
                            let midstr = s.substring_char(p + 1, q);
                            args = split_char(midstr, ' ');
                            proof {
                                mid = split_on(s@.subrange(p + 1, q as int), ' ');
                                assert(midstr@ == s@.subrange(p + 1, q as int));
                                assert(args.deep_view() =~= mid);
                            }
                        } else {
                            proof {
                                assert(args.deep_view() =~= mid);
                            }
                        }
                    },
                    None => {
                        let midstr = s.substring_char(p + 1, len);
                        args = split_char(midstr, ' ');
                        proof {
                            mid = split_on(s@.skip(p + 1), ' ');
                            assert(midstr@ == s@.skip(p + 1));
                            assert(args.deep_view() =~= mid);
                        }
                    },
                }
            },
        }
        match lap {
            None => {
                proof {
                    assert(args.deep_view() =~= spec_args(s@));
                }
            },
            Some(q) => {
                let lastarg = s.substring_char(q + 2, len);
                let ghost before = args.deep_view();
                args.push(lastarg.to_owned());
                proof {
                    assert(lastarg@ == s@.skip(q + 2));
                    assert(args.deep_view() =~= before + seq![s@.skip(q + 2)]);
                    assert(args.deep_view() =~= spec_args(s@));
                }
            },
        }

        let cmd: &str = match fsp {
            None => s,
            Some(p) => s.substring_char(0, p),
        };
        proof {
            assert(cmd@ == spec_cmd_token(s@));
        }

        if str_eq(cmd, "create") {
            if args.len() < 1 {
                return Err("missing nodespec (1st argument)");
            }
            if args.len() < 2 {
                return Err("missing name (2nd argument)");
            }
            if args.len() < 3 {
                return Err("missing valtype (3rd argument)");
            }
            let vt = match ValType::from_str(args[2].as_str()) {
                Ok(vt) => vt,
                Err(m) => {
                    return Err(m);
                },
            };
            if args.len() > 3 {
                return Err("too many arguments (expected 3)");
            }
            let ns = match NodeSpec::from_str(args[0].as_str()) {
                Ok(ns) => ns,
                Err(_) => {
                    return unreached();
                },
            };
            let name = args[1].clone();
            Ok(Command::Create(ns, name, vt))
        } else if str_eq(cmd, "read") {
            if args.len() < 1 {
                return Err("missing nodespec (1st argument)");
            }
            if args.len() > 1 {
                return Err("too many arguments (expected 1)");
            }
            let ns = match NodeSpec::from_str(args[0].as_str()) {
                Ok(ns) => ns,
                Err(_) => {
                    return unreached();
                },
            };
            Ok(Command::Read(ns))
        } else if str_eq(cmd, "update") {
            if args.len() < 1 {
                return Err("missing nodespec (1st argument)");
            }
            if args.len() < 2 {
                return Err("missing value (2nd argument)");
            }
            if args.len() > 2 {
                return Err("too many arguments (expected 2)");
            }
            let ns = match NodeSpec::from_str(args[0].as_str()) {
                Ok(ns) => ns,
                Err(_) => {
                    return unreached();
                },
            };
            let value = args[1].clone();
            Ok(Command::Update(ns, value))
        } else {
            Err("unknown command")
        }
    }
}

} // verus!
