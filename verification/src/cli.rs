//! The command line: which command a list of arguments asks for.

use vstd::prelude::*;
use crate::text::{owned, text_eq};

verus! {

/// What the command line prints when it cannot tell which command is meant.
pub const USAGE: &'static str = "Usage:
   inherit <user/repo> [to <dirname>]       # generate project
   inherit <user/repo> to alias <name>      # save alias
   inherit alias list                       # list aliases
   inherit alias remove <name>              # remove alias
   inherit default for <var>                # set default value
   inherit default list                     # list defaults
   inherit default unset <var>              # remove default
   inherit cache list                       # list cached templates
   inherit cache clean                      # clear template cache";

/// The usage line of the `alias` commands.
pub const ALIAS_USAGE: &'static str = "Usage: inherit alias list | inherit alias remove <name>";

/// The usage line of the `default` commands.
pub const DEFAULT_USAGE: &'static str = "Usage: inherit default list | inherit default for <var> | inherit default unset <var>";

/// The usage line of the `cache` commands.
pub const CACHE_USAGE: &'static str = "Usage: inherit cache list | inherit cache clean";

/// A command of the command line.
#[derive(Debug)]
pub enum Command {
    Generate { template: String, target: Option<String> },
    AliasAdd { template: String, alias: String },
    AliasList,
    AliasRemove { name: String },
    DefaultSet { name: String },
    DefaultList,
    DefaultUnset { name: String },
    CacheList,
    CacheClean,
}

/// A `Command` with its texts as character sequences.
pub enum CommandModel {
    Generate { template: Seq<char>, target: Option<Seq<char>> },
    AliasAdd { template: Seq<char>, alias: Seq<char> },
    AliasList,
    AliasRemove { name: Seq<char> },
    DefaultSet { name: Seq<char> },
    DefaultList,
    DefaultUnset { name: Seq<char> },
    CacheList,
    CacheClean,
}

impl View for Command {
    type V = CommandModel;

    open spec fn view(&self) -> CommandModel {
        match self {
            Command::Generate { template, target } => CommandModel::Generate {
                template: template@,
                target: match target {
                    Some(t) => Some(t@),
                    None => None,
                },
            },
            Command::AliasAdd { template, alias } => CommandModel::AliasAdd { template: template@, alias: alias@ },
            Command::AliasList => CommandModel::AliasList,
            Command::AliasRemove { name } => CommandModel::AliasRemove { name: name@ },
            Command::DefaultSet { name } => CommandModel::DefaultSet { name: name@ },
            Command::DefaultList => CommandModel::DefaultList,
            Command::DefaultUnset { name } => CommandModel::DefaultUnset { name: name@ },
            Command::CacheList => CommandModel::CacheList,
            Command::CacheClean => CommandModel::CacheClean,
        }
    }
}

/// The command that `args` (the arguments after the program name) asks
/// for, or the usage text to show. Run as `cargo inherit ...`, the program
/// is handed the subcommand's name `inherit` first: one leading `inherit`
/// is passed over.
pub open spec fn parse_model(args: Seq<Seq<char>>) -> Result<CommandModel, Seq<char>> {
    if args.len() > 0 && args[0] == "inherit"@ {
        parse_forms(args.drop_first())
    } else {
        parse_forms(args)
    }
}

/// The command that the arguments `args` of one of the command forms ask
/// for, or the usage text to show.
pub open spec fn parse_forms(args: Seq<Seq<char>>) -> Result<CommandModel, Seq<char>> {
    if args.len() == 0 {
        Err(USAGE@)
    } else if args[0] == "alias"@ {
        if args.len() > 1 && args[1] == "list"@ {
            Ok(CommandModel::AliasList)
        } else if args.len() == 3 && args[1] == "remove"@ {
            Ok(CommandModel::AliasRemove { name: args[2] })
        } else {
            Err(ALIAS_USAGE@)
        }
    } else if args[0] == "default"@ {
        if args.len() > 1 && args[1] == "list"@ {
            Ok(CommandModel::DefaultList)
        } else if args.len() == 3 && args[1] == "for"@ {
            Ok(CommandModel::DefaultSet { name: args[2] })
        } else if args.len() == 3 && args[1] == "unset"@ {
            Ok(CommandModel::DefaultUnset { name: args[2] })
        } else {
            Err(DEFAULT_USAGE@)
        }
    } else if args[0] == "cache"@ {
        if args.len() > 1 && args[1] == "list"@ {
            Ok(CommandModel::CacheList)
        } else if args.len() > 1 && args[1] == "clean"@ {
            Ok(CommandModel::CacheClean)
        } else {
            Err(CACHE_USAGE@)
        }
    } else if args.len() == 1 {
        Ok(CommandModel::Generate { template: args[0], target: None })
    } else if args.len() == 3 && args[1] == "to"@ {
        Ok(CommandModel::Generate { template: args[0], target: Some(args[2]) })
    } else if args.len() == 4 && args[1] == "to"@ && args[2] == "alias"@ {
        Ok(CommandModel::AliasAdd { template: args[0], alias: args[3] })
    } else {
        Err(USAGE@)
    }
}

/// The texts of `args`.
pub open spec fn texts(args: Seq<String>) -> Seq<Seq<char>> {
    args.map_values(|a: String| a@)
}

/// The usage text.
pub fn usage() -> (r: &'static str)
    ensures
        r@ == USAGE@,
{
    USAGE
}

/// Reads the command from the arguments after the program name (a leading
/// `inherit`, as cargo passes it, is passed over); on an unknown form,
/// returns the usage text to show.
pub fn parse(args: Vec<String>) -> (r: Result<Command, String>)
    ensures
        match r {
            Ok(c) => parse_model(texts(args@)) == Ok::<CommandModel, Seq<char>>(c@),
            Err(e) => parse_model(texts(args@)) == Err::<CommandModel, Seq<char>>(e@),
        },
{
    let ghost given = texts(args@);
    let mut args = args;
    if args.len() > 0 && text_eq(args[0].as_str(), "inherit") {
        proof {
            reveal_strlit("inherit");
        }
        args.remove(0);
        assert(texts(args@) =~= given.drop_first());
    }
    let ghost a = texts(args@);
    assert(parse_model(given) == parse_forms(a));
    if args.len() == 0 {
        return Err(owned(usage()));
    }
    assert(a[0] == args@[0]@);
    if text_eq(args[0].as_str(), "alias") {
        if args.len() > 1 && text_eq(args[1].as_str(), "list") {
            return Ok(Command::AliasList);
        }
        if args.len() == 3 && text_eq(args[1].as_str(), "remove") {
            assert(a[2] == args@[2]@);
            return Ok(Command::AliasRemove { name: args[2].clone() });
        }
        return Err(owned(ALIAS_USAGE));
    }
    if text_eq(args[0].as_str(), "default") {
        if args.len() > 1 && text_eq(args[1].as_str(), "list") {
            return Ok(Command::DefaultList);
        }
        if args.len() == 3 && text_eq(args[1].as_str(), "for") {
            assert(a[2] == args@[2]@);
            return Ok(Command::DefaultSet { name: args[2].clone() });
        }
        if args.len() == 3 && text_eq(args[1].as_str(), "unset") {
            assert(a[2] == args@[2]@);
            return Ok(Command::DefaultUnset { name: args[2].clone() });
        }
        return Err(owned(DEFAULT_USAGE));
    }
    if text_eq(args[0].as_str(), "cache") {
        if args.len() > 1 && text_eq(args[1].as_str(), "list") {
            return Ok(Command::CacheList);
        }
        if args.len() > 1 && text_eq(args[1].as_str(), "clean") {
            return Ok(Command::CacheClean);
        }
        return Err(owned(CACHE_USAGE));
    }
    let template = args[0].clone();
    if args.len() == 1 {
        return Ok(Command::Generate { template, target: None });
    }
    if args.len() == 3 && text_eq(args[1].as_str(), "to") {
        assert(a[2] == args@[2]@);
        return Ok(Command::Generate { template, target: Some(args[2].clone()) });
    }
    if args.len() == 4 && text_eq(args[1].as_str(), "to") && text_eq(args[2].as_str(), "alias") {
        assert(a[3] == args@[3]@);
        return Ok(Command::AliasAdd { template, alias: args[3].clone() });
    }
    Err(owned(usage()))
}

} // verus!
