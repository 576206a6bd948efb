use vstd::prelude::*;
use crate::parsing::{parse_usize, parses_to_usize, usize_value};
use vstd::utf8::encode_utf8;

verus! {

/// The ways a run's configuration can be rejected.
#[derive(Debug, PartialEq, Eq, Structural)]
pub enum ConfigError {
    MissingFileName,
    MissingPopSize,
    BadPopSize,
    PopSizeTooSmall,
    MissingNumEvals,
    BadNumEvals,
    NoEvaluations,
    TooFewCities,
}

/// The bytes of a command-line argument.
pub open spec fn arg_bytes(s: String) -> Seq<u8> {
    encode_utf8(s@)
}

/// Options for configuring the evolutionary algorithm: the input file and
/// the population size and number of evaluations.
pub struct Config {
    pub file_name: String,
    pub pop_size: usize,
    pub num_evals: usize,
}

impl Config {
    /// Reads the configuration out of the command-line arguments: the
    /// program name, then the input file, the population size and the
    /// number of evaluations.  The population must have at least two
    /// members and the run at least one evaluation.
    pub fn from_args(args: &Vec<String>) -> (r: Result<Config, ConfigError>)
        ensures
            match r {
                Ok(c) => {
                    &&& args@.len() >= 4
                    &&& c.file_name@ == args@[1]@
                    &&& parses_to_usize(arg_bytes(args@[2]))
                    &&& c.pop_size as int == usize_value(arg_bytes(args@[2]))
                    &&& c.pop_size > 1
                    &&& parses_to_usize(arg_bytes(args@[3]))
                    &&& c.num_evals as int == usize_value(arg_bytes(args@[3]))
                    &&& c.num_evals >= 1
                },
                Err(e) => e == (if args@.len() < 2 {
                    ConfigError::MissingFileName
                } else if args@.len() < 3 {
                    ConfigError::MissingPopSize
                } else if !parses_to_usize(arg_bytes(args@[2])) {
                    ConfigError::BadPopSize
                } else if args@.len() < 4 {
                    ConfigError::MissingNumEvals
                } else if !parses_to_usize(arg_bytes(args@[3])) {
                    ConfigError::BadNumEvals
                } else if usize_value(arg_bytes(args@[2])) <= 1 {
                    ConfigError::PopSizeTooSmall
                } else {
                    ConfigError::NoEvaluations
                }) && (args@.len() < 4 || !parses_to_usize(arg_bytes(args@[2]))
                    || !parses_to_usize(arg_bytes(args@[3])) || usize_value(arg_bytes(args@[2]))
                    <= 1 || usize_value(arg_bytes(args@[3])) == 0),
            },
    {
        if args.len() < 2 {
            return Err(ConfigError::MissingFileName);
        }
        let file_name = args[1].as_str().to_owned();
        if args.len() < 3 {
            return Err(ConfigError::MissingPopSize);
        }
        let pop_size = match parse_usize(args[2].as_str()) {
            None => {
                return Err(ConfigError::BadPopSize);
            },
            Some(v) => v,
        };
        if args.len() < 4 {
            return Err(ConfigError::MissingNumEvals);
        }
        let num_evals = match parse_usize(args[3].as_str()) {
            None => {
                return Err(ConfigError::BadNumEvals);
            },
            Some(v) => v,
        };
        if pop_size <= 1 {
            return Err(ConfigError::PopSizeTooSmall);
        }
        if num_evals == 0 {
            return Err(ConfigError::NoEvaluations);
        }
        Ok(Config { file_name, pop_size, num_evals })
    }
}

} // verus!
