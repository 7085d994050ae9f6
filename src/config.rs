use vstd::prelude::*;

verus! {

/// How the dictionary is searched: `Fast` walks a prefix tree, `Slow` tries
/// every arrangement against a plain set of words.
#[derive(Clone, Copy, Debug, PartialEq, Eq, Structural)]
pub enum Mode {
    Slow,
    Fast,
}

/// What the command line asks for.
pub struct Config {
    pub filename: String,
    pub mode: Mode,
}

/// A note that the command line deserves besides the configuration it yields.
#[derive(Clone, Copy, Debug, PartialEq, Eq, Structural)]
pub enum ArgNotice {
    /// The mode argument is neither `slow` nor `fast`; the default is kept.
    InvalidMode,
    /// There are more arguments than a file name and a mode.
    ExtraArguments,
}

impl Default for Config {
    fn default() -> (r: Config)
        ensures
            r.filename@ == Seq::<char>::empty(),
            r.mode == Mode::Fast,
    {
        Config { filename: String::new(), mode: Mode::Fast }
    }
}

impl Config {
    /// Reads the arguments of the program, `args[0]` being its own name: the
    /// dictionary file comes second and an optional mode third. An unknown
    /// mode keeps the default, and a command line with more than three
    /// arguments is ignored entirely, leaving the default configuration.
    pub fn new(args: &[String]) -> (r: Config)
        requires
            args@.len() >= 2,
        ensures
            args@.len() <= 3 ==> r.filename@ == args@[1]@,
            args@.len() > 3 ==> r.filename@ == Seq::<char>::empty(),
            r.mode == (if args@.len() == 3 && args@[2]@ == "slow"@ {
                Mode::Slow
            } else {
                Mode::Fast
            }),
    {
        let mut config = Config::default();
        if args.len() == 2 {
            config.filename = args[1].clone();
        } else if args.len() == 3 {
            config.filename = args[1].clone();
            if args[2] == "slow".to_owned() {
                config.mode = Mode::Slow;
            } else if args[2] == "fast".to_owned() {
                config.mode = Mode::Fast;
            }
        }
        config
    }

    /// The note, if any, that `Config::new` leaves unsaid about `args`.
    pub fn notice(args: &[String]) -> (r: Option<ArgNotice>)
        requires
            args@.len() >= 2,
        ensures
            r == (if args@.len() == 3 && args@[2]@ != "slow"@ && args@[2]@ != "fast"@ {
                Some(ArgNotice::InvalidMode)
            } else if args@.len() > 3 {
                Some(ArgNotice::ExtraArguments)
            } else {
                None
            }),
    {
        if args.len() == 3 {
            if args[2] == "slow".to_owned() || args[2] == "fast".to_owned() {
                None
            } else {
                Some(ArgNotice::InvalidMode)
            }
        } else if args.len() > 3 {
            Some(ArgNotice::ExtraArguments)
        } else {
            None
        }
    }
}

} // verus!
