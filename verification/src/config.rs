//! The command line: two BOM files and the delimiter of each.

use vstd::prelude::*;
use vstd::utf8::encode_utf8;
use crate::text::{bytes_contain, has_infix};

verus! {

/// Delimiter of a BOM table file.
#[derive(PartialEq, Eq, Structural, Clone, Copy, Debug)]
pub enum CsvDelim {
    /// Tab-separated values (`t` on the command line).
    Tab,
    /// Comma-separated values (`z` on the command line).
    Zap,
}

impl CsvDelim {
    /// The byte that separates fields of a table written with this delimiter.
    pub fn byte(&self) -> (b: u8)
        ensures
            b == (match self {
                CsvDelim::Tab => 9u8,
                CsvDelim::Zap => 44u8,
            }),
    {
        match self {
            CsvDelim::Tab => 9u8,
            CsvDelim::Zap => 44u8,
        }
    }
}

/// What the command line asks for: the two BOM files and their delimiters.
pub struct Config {
    pub bom1: String,
    pub bom2: String,
    pub delim1: CsvDelim,
    pub delim2: CsvDelim,
}

/// Why the command line gives no configuration.
#[derive(PartialEq, Eq, Structural, Clone, Copy, Debug)]
pub enum ConfigError {
    /// The one argument asks for help (it holds `h`).
    Help,
    /// The arguments are neither one nor three, or the one argument does not ask for help.
    UnknownArguments,
    /// There are two arguments.
    NotThreeArguments,
    /// The first of three arguments is not two delimiter letters.
    UnknownDelimiters,
}

impl ConfigError {
    /// The message that reports the error (help is not reported by a message).
    pub fn message(&self) -> (m: &'static str)
        ensures
            *self == ConfigError::UnknownArguments ==> m@ == "Unknown arguments. Try h for help."@,
            *self == ConfigError::NotThreeArguments ==> m@ == "Must be 3 arguments. Try h for help."@,
            *self == ConfigError::UnknownDelimiters ==> m@
                == "Unknown delimiters arguments. Try h for help."@,
            *self == ConfigError::Help ==> m@ == "h"@,
    {
        match self {
            ConfigError::Help => "h",
            ConfigError::UnknownArguments => "Unknown arguments. Try h for help.",
            ConfigError::NotThreeArguments => "Must be 3 arguments. Try h for help.",
            ConfigError::UnknownDelimiters => "Unknown delimiters arguments. Try h for help.",
        }
    }
}

/// The delimiter that the byte `b` names, if any (`t` or `z`).
pub open spec fn delim_of(b: u8) -> Option<CsvDelim> {
    if b == 116 {
        Some(CsvDelim::Tab)
    } else if b == 122 {
        Some(CsvDelim::Zap)
    } else {
        None
    }
}

/// The delimiters that the UTF-8 argument `d` names: it is two bytes, each
/// `t` or `z`, for BOM1 and BOM2 in turn.
pub open spec fn delims_of(d: Seq<u8>) -> Option<(CsvDelim, CsvDelim)> {
    if d.len() == 2 && delim_of(d[0]) is Some && delim_of(d[1]) is Some {
        Some((delim_of(d[0]).unwrap(), delim_of(d[1]).unwrap()))
    } else {
        None
    }
}

/// The arguments after the program's name.
pub open spec fn user_args(args: Seq<Seq<char>>) -> Seq<Seq<char>> {
    if args.len() > 0 {
        args.drop_first()
    } else {
        args
    }
}

/// What the command line `args` (the program's name first) gives.
pub open spec fn config_of(args: Seq<Seq<char>>) -> Result<(Seq<char>, Seq<char>, CsvDelim, CsvDelim), ConfigError> {
    let a = user_args(args);
    if a.len() == 1 {
        if has_infix(encode_utf8(a[0]), seq![104u8]) {
            Err(ConfigError::Help)
        } else {
            Err(ConfigError::UnknownArguments)
        }
    } else if a.len() == 2 {
        Err(ConfigError::NotThreeArguments)
    } else if a.len() == 3 {
        match delims_of(encode_utf8(a[0])) {
            Some((d1, d2)) => Ok((a[1], a[2], d1, d2)),
            None => Err(ConfigError::UnknownDelimiters),
        }
    } else {
        Err(ConfigError::UnknownArguments)
    }
}

fn delim_exec(b: u8) -> (d: Option<CsvDelim>)
    ensures
        d == delim_of(b),
{
    if b == 116u8 {
        Some(CsvDelim::Tab)
    } else if b == 122u8 {
        Some(CsvDelim::Zap)
    } else {
        None
    }
}

impl Config {
    /// Reads the command line `args` (the program's name first): either one
    /// argument that asks for help, or three: the delimiters (`tz` is a tab
    /// for BOM1 and a comma for BOM2; also `tt`, `zt`, `zz`), the BOM1 file
    /// and the BOM2 file.
    pub fn new(args: Vec<String>) -> (res: Result<Config, ConfigError>)
        ensures
            match (res, config_of(args.deep_view())) {
                (Ok(c), Ok((b1, b2, d1, d2))) => c.bom1@ == b1 && c.bom2@ == b2 && c.delim1 == d1
                    && c.delim2 == d2,
                (Err(e), Err(e2)) => e == e2,
                _ => false,
            },
    {
        let mut args = args;
        let ghost all = args.deep_view();
        if args.len() == 0 {
            return Err(ConfigError::UnknownArguments);
        }
        args.remove(0);
        assert(args.deep_view() =~= user_args(all));
        let n = args.len();
        if n == 1 {
            let h: [u8; 1] = [104u8];
            let hs = h.as_slice();
            assert(hs@ =~= seq![104u8]);
            assert(args.deep_view()[0] == args@[0]@);
            if bytes_contain(args[0].as_str().as_bytes(), hs) {
                return Err(ConfigError::Help);
            } else {
                return Err(ConfigError::UnknownArguments);
            }
        } else if n == 2 {
            return Err(ConfigError::NotThreeArguments);
        } else if n != 3 {
            return Err(ConfigError::UnknownArguments);
        }
        let bom2 = args.remove(2);
        let bom1 = args.remove(1);
        let delim = args.remove(0);
        let d = delim.as_str().as_bytes();
        if d.len() != 2 {
            return Err(ConfigError::UnknownDelimiters);
        }
        let delim1 = match delim_exec(d[0]) {
            Some(x) => x,
            None => {
                return Err(ConfigError::UnknownDelimiters);
            },
        };
        let delim2 = match delim_exec(d[1]) {
            Some(x) => x,
            None => {
                return Err(ConfigError::UnknownDelimiters);
            },
        };
        Ok(Config { bom1, bom2, delim1, delim2 })
    }
}

} // verus!
