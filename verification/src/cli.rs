//! What the command line asks for. The arguments come one at a time from
//! whoever reads the command line; here each is told apart and recorded.

use crate::text::chars_of;
use vstd::prelude::*;
use vstd::string::StringExecFns;

verus! {

/// One argument of the command line: a short option such as `-x`, a long
/// option such as `--expand`, or a free-standing value of some type `V`.
pub enum Arg<V> {
    Short(char),
    Long(String),
    Value(V),
}

/// What remains to be done once an argument was taken in.
#[derive(Debug, PartialEq, Eq, Clone, Copy)]
pub enum Action {
    /// Go on with the next argument.
    Next,
    /// Print the version and stop.
    Version,
    /// Print the help text and stop.
    Help,
    /// The next argument is the path of the file: hand it to `set_path`.
    File,
    /// The option is not known.
    Unexpected,
}

/// The options of the command line and the command to run.
pub struct Cli<V> {
    /// Whether to substitute variables or not
    pub expand: bool,
    /// Path to .env file
    pub path: String,
    /// Name of the command
    pub binary: Option<V>,
    /// Arguments of the command
    pub args: Vec<V>,
}

/// The action that an option with the short name `c` asks for.
pub open spec fn short_action(c: char) -> Action {
    if c == 'v' {
        Action::Version
    } else if c == 'h' {
        Action::Help
    } else if c == 'x' {
        Action::Next
    } else if c == 'f' {
        Action::File
    } else {
        Action::Unexpected
    }
}

/// The action that an option with the long name `name` asks for.
pub open spec fn long_action(name: Seq<char>) -> Action {
    if name == "version"@ {
        Action::Version
    } else if name == "help"@ {
        Action::Help
    } else if name == "expand"@ {
        Action::Next
    } else if name == "file"@ {
        Action::File
    } else {
        Action::Unexpected
    }
}

/// Whether an option turns expansion on.
pub open spec fn turns_on_expand<V>(arg: Arg<V>) -> bool {
    match arg {
        Arg::Short(c) => c == 'x',
        Arg::Long(name) => name@ == "expand"@,
        Arg::Value(_) => false,
    }
}

/// Tells whether two sequences hold the same characters.
fn same(a: &Vec<char>, b: &Vec<char>) -> (r: bool)
    ensures
        r == (a@ == b@),
{
    if a.len() != b.len() {
        return false;
    }
    let mut i: usize = 0;
    while i < a.len()
        invariant
            i <= a.len() == b.len(),
            forall|j: int| 0 <= j < i ==> a@[j] == b@[j],
        decreases a.len() - i,
    {
        if a[i] != b[i] {
            return false;
        }
        i += 1;
    }
    assert(a@ =~= b@);
    true
}

/// The action that a long option asks for.
fn long_action_of(name: &str) -> (r: Action)
    ensures
        r == long_action(name@),
{
    let chars = chars_of(name);
    if same(&chars, &chars_of("version")) {
        Action::Version
    } else if same(&chars, &chars_of("help")) {
        Action::Help
    } else if same(&chars, &chars_of("expand")) {
        Action::Next
    } else if same(&chars, &chars_of("file")) {
        Action::File
    } else {
        Action::Unexpected
    }
}

impl<V> Default for Cli<V> {
    /// The settings before any argument was seen: no expansion, the file
    /// `.env`, no command.
    fn default() -> (cli: Self)
        ensures
            !cli.expand,
            cli.path@ == ".env"@,
            cli.binary is None,
            cli.args@.len() == 0,
    {
        Self { expand: false, path: ".env".to_owned(), binary: None, args: Vec::new() }
    }
}

/// The help text of a program called `name`, in version `ver`, that `desc` describes.
pub open spec fn help_text(name: Seq<char>, ver: Seq<char>, desc: Seq<char>) -> Seq<char> {
    name + " "@ + ver + "\n"@ + desc + HELP_USAGE@ + name + HELP_FLAGS@ + name + HELP_NODE@ + name
        + HELP_NPM@ + name + HELP_TERRAFORM@
}

pub const HELP_USAGE: &'static str = "\n\nUSAGE:\n    ";

pub const HELP_FLAGS: &'static str = " [FLAGS] [OPTIONS] -- <binary> [args]...

FLAGS:
    -v, --version       Prints version
    -h, --help          Prints help information
    -x, --expand        Enable variable expansion

OPTIONS:
    -f, --file          Path to env file [default: .env]

ARGS:
    <binary>            Command that needs to be executed
    [args]...           Arguments for the command

Examples:
    ";

pub const HELP_NODE: &'static str = " -- node index.js\n    ";

pub const HELP_NPM: &'static str = " -f .env.dev -- npm run dev\n    ";

pub const HELP_TERRAFORM: &'static str = " -f .env.prod -- terraform apply\n";

impl<V> Cli<V> {
    /// The help text: see `help_text`.
    pub fn help_doc(name: &str, ver: &str, desc: &str) -> (r: String)
        ensures
            r@ == help_text(name@, ver@, desc@),
    {
        let mut r = name.to_owned();
        r.append(" ");
        r.append(ver);
        r.append("\n");
        r.append(desc);
        r.append(HELP_USAGE);
        r.append(name);
        r.append(HELP_FLAGS);
        r.append(name);
        r.append(HELP_NODE);
        r.append(name);
        r.append(HELP_NPM);
        r.append(name);
        r.append(HELP_TERRAFORM);
        r
    }

    /// Takes in one argument and tells what to do next. `-x` and `--expand`
    /// turn expansion on. The first value is the command, each later one an
    /// argument of the command. Nothing is recorded for the other options:
    /// the action says what they ask for.
    pub fn accept(&mut self, arg: Arg<V>) -> (action: Action)
        ensures
            action == match arg {
                Arg::Short(c) => short_action(c),
                Arg::Long(name) => long_action(name@),
                Arg::Value(_) => Action::Next,
            },
            final(self).path == old(self).path,
            final(self).expand == (old(self).expand || turns_on_expand(arg)),
            match arg {
                Arg::Value(v) => if old(self).binary is None {
                    final(self).binary == Some(v) && final(self).args == old(self).args
                } else {
                    final(self).binary == old(self).binary && final(self).args@ == old(
                        self,
                    ).args@.push(v)
                },
                _ => final(self).binary == old(self).binary && final(self).args == old(self).args,
            },
    {
        match arg {
            Arg::Short(c) => {
                if c == 'v' {
                    Action::Version
                } else if c == 'h' {
                    Action::Help
                } else if c == 'x' {
                    self.expand = true;
                    Action::Next
                } else if c == 'f' {
                    Action::File
                } else {
                    Action::Unexpected
                }
            },
            Arg::Long(name) => {
                let action = long_action_of(name.as_str());
                if same(&chars_of(name.as_str()), &chars_of("expand")) {
                    self.expand = true;
                }
                action
            },
            Arg::Value(v) => {
                if self.binary.is_none() {
                    self.binary = Some(v);
                } else {
                    self.args.push(v);
                }
                Action::Next
            },
        }
    }

    /// Records the path of the file, the value of `-f` and `--file`.
    pub fn set_path(&mut self, path: String)
        ensures
            final(self).path == path,
            final(self).expand == old(self).expand,
            final(self).binary == old(self).binary,
            final(self).args == old(self).args,
    {
        self.path = path;
    }
}

} // verus!
