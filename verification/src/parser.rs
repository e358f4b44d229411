//! The command parser: one line of free-form text is split on runs of
//! whitespace and matched, case-sensitively and positionally, against the
//! four command forms `Add <name> to <department>`, `List <department>`,
//! `All` and `Exit`.

use vstd::prelude::*;
use crate::order::str_eq;

verus! {

/// A structured command, as the roster consumes it.
#[derive(Debug, PartialEq, Eq)]
pub enum Command {
    Add { name: String, department: String },
    List { department: String },
    All,
    Exit,
}

/// The mathematical form of a command: its text fields as character
/// sequences.
pub enum CommandModel {
    Add { name: Seq<char>, department: Seq<char> },
    List { department: Seq<char> },
    All,
    Exit,
}

impl View for Command {
    type V = CommandModel;

    open spec fn view(&self) -> CommandModel {
        match self {
            Command::Add { name, department } => CommandModel::Add {
                name: name@,
                department: department@,
            },
            Command::List { department } => CommandModel::List { department: department@ },
            Command::All => CommandModel::All,
            Command::Exit => CommandModel::Exit,
        }
    }
}

/// The characters with the Unicode `White_Space` property; runs of them
/// separate tokens and are discarded.
pub open spec fn is_space_char(c: char) -> bool {
    ||| c == ' '
    ||| c == '\t'
    ||| c == '\n'
    ||| c == '\r'
    ||| c == '\u{000b}'
    ||| c == '\u{000c}'
    ||| c == '\u{0085}'
    ||| c == '\u{00a0}'
    ||| c == '\u{1680}'
    ||| c == '\u{2000}'
    ||| c == '\u{2001}'
    ||| c == '\u{2002}'
    ||| c == '\u{2003}'
    ||| c == '\u{2004}'
    ||| c == '\u{2005}'
    ||| c == '\u{2006}'
    ||| c == '\u{2007}'
    ||| c == '\u{2008}'
    ||| c == '\u{2009}'
    ||| c == '\u{200a}'
    ||| c == '\u{2028}'
    ||| c == '\u{2029}'
    ||| c == '\u{202f}'
    ||| c == '\u{205f}'
    ||| c == '\u{3000}'
}

/// Decides `is_space_char`.
pub fn is_space(c: char) -> (r: bool)
    ensures
        r == is_space_char(c),
{
    c == ' ' || c == '\t' || c == '\n' || c == '\r' || c == '\u{000b}' || c == '\u{000c}'
        || c == '\u{0085}' || c == '\u{00a0}' || c == '\u{1680}' || c == '\u{2000}'
        || c == '\u{2001}' || c == '\u{2002}' || c == '\u{2003}' || c == '\u{2004}'
        || c == '\u{2005}' || c == '\u{2006}' || c == '\u{2007}' || c == '\u{2008}'
        || c == '\u{2009}' || c == '\u{200a}' || c == '\u{2028}' || c == '\u{2029}'
        || c == '\u{202f}' || c == '\u{205f}' || c == '\u{3000}'
}

/// The tokens of `s`, with `cur` the partial token read so far: a space
/// ends `cur` if it is non-empty, any other character extends it.
pub open spec fn tokens_from(s: Seq<char>, cur: Seq<char>) -> Seq<Seq<char>>
    decreases s.len(),
{
    if s.len() == 0 {
        if cur.len() == 0 {
            Seq::empty()
        } else {
            seq![cur]
        }
    } else if is_space_char(s[0]) {
        if cur.len() == 0 {
            tokens_from(s.drop_first(), Seq::empty())
        } else {
            seq![cur] + tokens_from(s.drop_first(), Seq::empty())
        }
    } else {
        tokens_from(s.drop_first(), cur.push(s[0]))
    }
}

/// The whitespace-separated tokens of a line, in order, empty runs
/// discarded.
pub open spec fn tokens_of(s: Seq<char>) -> Seq<Seq<char>> {
    tokens_from(s, Seq::empty())
}

/// The command a line of text denotes, if any: the token sequence must be
/// exactly one of the four grammar forms, with case-sensitive keywords.
pub open spec fn parse_model(s: Seq<char>) -> Option<CommandModel> {
    let tks = tokens_of(s);
    if tks.len() == 4 && tks[0] == "Add"@ && tks[2] == "to"@ {
        Some(CommandModel::Add { name: tks[1], department: tks[3] })
    } else if tks.len() == 2 && tks[0] == "List"@ {
        Some(CommandModel::List { department: tks[1] })
    } else if tks.len() == 1 && tks[0] == "All"@ {
        Some(CommandModel::All)
    } else if tks.len() == 1 && tks[0] == "Exit"@ {
        Some(CommandModel::Exit)
    } else {
        None
    }
}

/// Splits a line into its whitespace-separated tokens.
pub fn tokenize(s: &str) -> (r: Vec<String>)
    ensures
        r.deep_view() == tokens_of(s@),
{
    let len = s.unicode_len();
    let mut toks: Vec<String> = Vec::new();
    let mut i: usize = 0;
    proof {
        assert(s@.skip(0) =~= s@);
        assert(toks.deep_view() =~= Seq::<Seq<char>>::empty());
        assert(tokens_of(s@) =~= toks.deep_view() + tokens_from(s@.skip(0), Seq::empty()));
    }
    while i < len
        invariant
            i <= len,
            len == s@.len(),
            tokens_of(s@) == toks.deep_view() + tokens_from(s@.skip(i as int), Seq::empty()),
        decreases len - i,
    {
        if is_space(s.get_char(i)) {
            proof {
                assert(s@.skip(i as int)[0] == s@[i as int]);
                assert(s@.skip(i as int).drop_first() =~= s@.skip(i + 1));
            }
            i = i + 1;
        } else {
            let start = i;
            let ghost pre_deep = toks.deep_view();
            let ghost pre_v = toks@;
            proof {
                assert(s@.skip(start as int)[0] == s@[start as int]);
                assert(s@.skip(start as int).drop_first() =~= s@.skip(start + 1));
                assert(Seq::<char>::empty().push(s@[start as int])
                    =~= s@.subrange(start as int, start + 1));
            }
            i = i + 1;
            while i < len && !is_space(s.get_char(i))
                invariant
                    start < i <= len,
                    len == s@.len(),
                    toks.deep_view() == pre_deep,
                    toks@ == pre_v,
                    tokens_of(s@) == pre_deep + tokens_from(s@.skip(start as int), Seq::empty()),
                    tokens_from(s@.skip(start as int), Seq::empty())
                        == tokens_from(s@.skip(i as int), s@.subrange(start as int, i as int)),
                decreases len - i,
            {
                proof {
                    assert(s@.skip(i as int)[0] == s@[i as int]);
                    assert(s@.skip(i as int).drop_first() =~= s@.skip(i + 1));
                    assert(s@.subrange(start as int, i as int).push(s@[i as int])
                        =~= s@.subrange(start as int, i + 1));
                }
                i = i + 1;
            }
            let tok = s.substring_char(start, i).to_owned();
            toks.push(tok);
            proof {
                let cur = s@.subrange(start as int, i as int);
                assert(cur.len() > 0);
                assert(toks.deep_view() =~= pre_deep.push(cur)) by {
                    assert(toks@ == pre_v.push(tok));
                    assert forall|j: int| 0 <= j < toks.deep_view().len()
                        implies toks.deep_view()[j] == pre_deep.push(cur)[j] by {
                        if j < pre_deep.len() {
                            assert(toks@[j] == pre_v[j]);
                        } else {
                            assert(toks@[j] == tok);
                        }
                    }
                }
                let rest = tokens_from(s@.skip(i as int), Seq::<char>::empty());
                if i == len {
                    assert(s@.skip(i as int).len() == 0);
                    assert(tokens_from(s@.skip(i as int), cur) == seq![cur]);
                    assert(rest == Seq::<Seq<char>>::empty());
                    assert(pre_deep + seq![cur] =~= pre_deep.push(cur));
                    assert((pre_deep.push(cur)) + rest =~= pre_deep.push(cur));
                    assert(tokens_of(s@) == toks.deep_view() + rest);
                } else {
                    assert(is_space_char(s@[i as int]));
                    assert(s@.skip(i as int)[0] == s@[i as int]);
                    assert(tokens_from(s@.skip(i as int), cur)
                        == seq![cur] + tokens_from(s@.skip(i as int).drop_first(), Seq::<char>::empty()));
                    assert(rest
                        == tokens_from(s@.skip(i as int).drop_first(), Seq::<char>::empty()));
                    assert(pre_deep + (seq![cur] + tokens_from(s@.skip(i as int).drop_first(), Seq::<char>::empty()))
                        =~= pre_deep.push(cur) + tokens_from(s@.skip(i as int).drop_first(), Seq::<char>::empty()));
                    assert(tokens_of(s@) == toks.deep_view() + rest);
                }
            }
        }
    }
    proof {
        assert(s@.skip(i as int).len() == 0);
        assert(tokens_from(s@.skip(i as int), Seq::<char>::empty()) == Seq::<Seq<char>>::empty());
        assert(toks.deep_view() + Seq::<Seq<char>>::empty() =~= toks.deep_view());
    }
    toks
}

impl Command {
    /// Parses one line of text into a command, or rejects it; the result is
    /// exactly what `parse_model` names.
    pub fn from_string(s: &str) -> (r: Option<Command>)
        ensures
            r is Some <==> parse_model(s@) is Some,
            r is Some ==> r.unwrap()@ == parse_model(s@).unwrap(),
    {
        let toks = tokenize(s);
        proof {
            assert(toks.deep_view().len() == toks@.len());
        }
        if toks.len() == 4 && str_eq(toks[0].as_str(), "Add") && str_eq(toks[2].as_str(), "to") {
            let name = toks[1].clone();
            let department = toks[3].clone();
            Some(Command::Add { name, department })
        } else if toks.len() == 2 && str_eq(toks[0].as_str(), "List") {
            let department = toks[1].clone();
            Some(Command::List { department })
        } else if toks.len() == 1 && str_eq(toks[0].as_str(), "All") {
            Some(Command::All)
        } else if toks.len() == 1 && str_eq(toks[0].as_str(), "Exit") {
            Some(Command::Exit)
        } else {
            None
        }
    }
}

} // verus!
