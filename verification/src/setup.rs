//! The interactive writing of a configuration file: which question comes
//! next, and what each answer means. The caller prints the prompts, reads
//! the answers and writes the file.
use vstd::prelude::*;

use crate::config::{join, join_path, BackendConfig, OpenMode, ServerConfig, TransportConfig};
use crate::text::{
    ascii_lower, chars_of, push_str, str_eq, string_from_str, string_of, to_lower, trim, trimmed,
};

verus! {

// ---------------------------------------------------------------------------
// answers
// ---------------------------------------------------------------------------

/// A typed answer: the trimmed line, or `default` when it is blank.
pub open spec fn answer_of(line: Seq<char>, default: Seq<char>) -> Seq<char> {
    if trim(line).len() == 0 {
        default
    } else {
        trim(line)
    }
}

pub fn read_answer(line: &str, default: &str) -> (r: String)
    ensures
        r@ == answer_of(line@, default@),
{
    let v = chars_of(line);
    let t = trimmed(v.as_slice());
    if t.len() == 0 {
        string_from_str(default)
    } else {
        string_of(t.as_slice())
    }
}

pub open spec fn lower_text(s: Seq<char>) -> Seq<char> {
    s.map_values(|c: char| ascii_lower(c))
}

/// `str::to_ascii_lowercase`.
pub fn lowercase(s: &str) -> (r: String)
    ensures
        r@ == lower_text(s@),
{
    let v = chars_of(s);
    let mut out: Vec<char> = Vec::new();
    let mut i: usize = 0;
    while i < v.len()
        invariant
            i <= v.len(),
            v@ == s@,
            out@ == lower_text(v@.take(i as int)),
        decreases v.len() - i,
    {
        out.push(to_lower(v[i]));
        i += 1;
        assert(out@ =~= lower_text(v@.take(i as int)));
    }
    assert(v@.take(v.len() as int) =~= v@);
    string_of(out.as_slice())
}

/// A yes/no answer: blank gives `default`; `y`, `yes`, `n`, `no` in any
/// ASCII case; anything else is no answer.
pub open spec fn yes_no_of(answer: Seq<char>, default: bool) -> Option<bool> {
    let a = lower_text(answer);
    if answer.len() == 0 {
        Some(default)
    } else if a == "y"@ || a == "yes"@ {
        Some(true)
    } else if a == "n"@ || a == "no"@ {
        Some(false)
    } else {
        None
    }
}

pub fn yes_no(answer: &str, default: bool) -> (r: Option<bool>)
    ensures
        r == yes_no_of(answer@, default),
{
    if chars_of(answer).len() == 0 {
        return Some(default);
    }
    let a = lowercase(answer);
    if str_eq(a.as_str(), "y") || str_eq(a.as_str(), "yes") {
        Some(true)
    } else if str_eq(a.as_str(), "n") || str_eq(a.as_str(), "no") {
        Some(false)
    } else {
        None
    }
}

/// A path typed at a prompt: a leading `~` stands for the home directory
/// (`~` alone, or `~/` and the rest), when `home` is set and not empty.
pub open spec fn expanded(value: Seq<char>, home: Option<Seq<char>>) -> Seq<char> {
    match home {
        Some(h) => if h.len() == 0 {
            value
        } else if value == "~"@ {
            join_path(h, Seq::empty())
        } else if value.len() >= 2 && value[0] == '~' && value[1] == '/' {
            join_path(h, value.subrange(2, value.len() as int))
        } else {
            value
        },
        None => value,
    }
}

pub open spec fn opt_view(o: Option<String>) -> Option<Seq<char>> {
    match o {
        Some(s) => Some(s@),
        None => None,
    }
}

pub fn expand_tilde(value: &str, home: Option<String>) -> (r: String)
    ensures
        r@ == expanded(value@, opt_view(home)),
{
    let h = match home {
        Some(h) => h,
        None => {
            return string_from_str(value);
        },
    };
    let hv = chars_of(h.as_str());
    if hv.len() == 0 {
        return string_from_str(value);
    }
    let v = chars_of(value);
    if str_eq(value, "~") {
        proof {
            reveal_strlit("");
            assert(""@ =~= Seq::<char>::empty());
        }
        return join(h.as_str(), "");
    }
    if v.len() >= 2 && v[0] == '~' && v[1] == '/' {
        let rest = string_of(crate::text::slice_vec(v.as_slice(), 2, v.len()).as_slice());
        return join(h.as_str(), rest.as_str());
    }
    string_from_str(value)
}

// ---------------------------------------------------------------------------
// the questions
// ---------------------------------------------------------------------------

/// The storage the configuration will name.
#[derive(Debug, Clone, Copy, PartialEq, Eq)]
pub enum BackendChoice {
    Fs,
    Sqlite,
}

/// The question the setup waits on, with what the earlier answers chose.
#[derive(Debug, Clone)]
pub enum SetupStep {
    Overwrite,
    Backend,
    Mode { backend: BackendChoice },
    Root { mode: OpenMode },
    DatabasePath { mode: OpenMode },
    GraphName { mode: OpenMode, database_path: String },
}

/// The defaults the environment gives: the graph root (`spec` under the
/// working directory), the database path, and `HOME`.
#[derive(Debug, Clone)]
pub struct SetupDefaults {
    pub graph_root: String,
    pub database_path: String,
    pub home: Option<String>,
}

/// What the caller does next.
#[derive(Debug, Clone)]
pub enum SetupAction {
    /// Print `notice` (if any) on a line of its own, then `prompt`, and read
    /// a line.
    Ask { notice: Option<String>, prompt: String, default: String },
    /// Save this configuration.
    Write(ServerConfig),
    /// Stop: the user kept the existing file.
    Cancel,
}

/// The prompt text for `label` with `default`: `label [default]: `, or
/// `label: ` when there is no default.
pub open spec fn prompt_text(label: Seq<char>, default: Seq<char>) -> Seq<char> {
    if default.len() == 0 {
        label + ": "@
    } else {
        label + " ["@ + default + "]: "@
    }
}

/// The label and default of a step's question.
pub open spec fn question(step: SetupStep, d: SetupDefaults) -> (Seq<char>, Seq<char>) {
    match step {
        SetupStep::Overwrite => ("Config already exists. Overwrite it? [y/N]"@, Seq::empty()),
        SetupStep::Backend => ("Backend (fs/sqlite)"@, "fs"@),
        SetupStep::Mode { .. } => ("Open mode (init/open)"@, "init"@),
        SetupStep::Root { .. } => ("Filesystem graph root"@, d.graph_root@),
        SetupStep::DatabasePath { .. } => ("SQLite database path"@, d.database_path@),
        SetupStep::GraphName { .. } => ("SQLite graph name"@, "default"@),
    }
}

/// `a` asks the question of `step`, after `notice`.
pub open spec fn asks(a: SetupAction, step: SetupStep, d: SetupDefaults, notice: Option<Seq<char>>) -> bool {
    a matches SetupAction::Ask { notice: n, prompt, default } && opt_view(n) == notice && prompt@ == prompt_text(
        question(step, d).0,
        question(step, d).1,
    ) && default@ == question(step, d).1
}

fn ask(step: &SetupStep, d: &SetupDefaults, notice: Option<String>) -> (a: SetupAction)
    ensures
        asks(a, *step, *d, opt_view(notice)),
{
    let (label, default) = match step {
        SetupStep::Overwrite => (string_from_str("Config already exists. Overwrite it? [y/N]"), string_from_str("")),
        SetupStep::Backend => (string_from_str("Backend (fs/sqlite)"), string_from_str("fs")),
        SetupStep::Mode { .. } => (string_from_str("Open mode (init/open)"), string_from_str("init")),
        SetupStep::Root { .. } => (string_from_str("Filesystem graph root"), d.graph_root.clone()),
        SetupStep::DatabasePath { .. } => (string_from_str("SQLite database path"), d.database_path.clone()),
        SetupStep::GraphName { .. } => (string_from_str("SQLite graph name"), string_from_str("default")),
    };
    proof {
        reveal_strlit("");
        assert(""@ =~= Seq::<char>::empty());
    }
    let mut prompt = label.clone();
    if chars_of(default.as_str()).len() == 0 {
        push_str(&mut prompt, ": ");
    } else {
        push_str(&mut prompt, " [");
        push_str(&mut prompt, default.as_str());
        push_str(&mut prompt, "]: ");
    }
    SetupAction::Ask { notice, prompt, default }
}

/// The first question: whether to overwrite, when the file exists and
/// `force` was not given; else the backend.
pub fn setup_begin(exists: bool, force: bool, d: &SetupDefaults) -> (r: (SetupStep, SetupAction))
    ensures
        if exists && !force {
            r.0 is Overwrite && asks(r.1, SetupStep::Overwrite, *d, None)
        } else {
            r.0 is Backend && asks(r.1, SetupStep::Backend, *d, None)
        },
{
    let step = if exists && !force {
        SetupStep::Overwrite
    } else {
        SetupStep::Backend
    };
    let a = ask(&step, d, None);
    (step, a)
}

/// What an answer to `step` leads to: the next question, the
/// configuration to write, a refusal, or the same question again with a
/// notice.
pub open spec fn setup_next(step: SetupStep, line: Seq<char>, d: SetupDefaults, next: SetupStep, a: SetupAction) -> bool {
    let ans = answer_of(line, question(step, d).1);
    let choice = lower_text(ans);
    match step {
        SetupStep::Overwrite => match yes_no_of(ans, false) {
            Some(true) => next is Backend && asks(a, SetupStep::Backend, d, None),
            Some(false) => a is Cancel,
            None => next is Overwrite && asks(a, step, d, Some("Please enter yes or no."@)),
        },
        SetupStep::Backend => if choice == "fs"@ {
            next == (SetupStep::Mode { backend: BackendChoice::Fs }) && asks(a, next, d, None)
        } else if choice == "sqlite"@ {
            next == (SetupStep::Mode { backend: BackendChoice::Sqlite }) && asks(a, next, d, None)
        } else {
            next is Backend && asks(a, step, d, Some("Please enter one of: fs, sqlite"@))
        },
        SetupStep::Mode { backend } => if choice == "init"@ || choice == "open"@ {
            let mode = if choice == "init"@ {
                OpenMode::Init
            } else {
                OpenMode::Open
            };
            match backend {
                BackendChoice::Fs => next == (SetupStep::Root { mode }) && asks(a, next, d, None),
                BackendChoice::Sqlite => next == (SetupStep::DatabasePath { mode }) && asks(a, next, d, None),
            }
        } else {
            next == step && asks(a, step, d, Some("Please enter one of: init, open"@))
        },
        SetupStep::Root { mode } => a matches SetupAction::Write(c) && (c.backend matches BackendConfig::Fs {
            root,
            mode: m,
        } && (m == mode && root@ == expanded(ans, opt_view(d.home)) && c.transport == TransportConfig::Stdio)),
        SetupStep::DatabasePath { mode } => next matches SetupStep::GraphName { mode: m, database_path } && m == mode
            && database_path@ == expanded(ans, opt_view(d.home)) && asks(a, next, d, None),
        SetupStep::GraphName { mode, database_path } => a matches SetupAction::Write(c) && (c.backend matches BackendConfig::Sqlite {
            database_path: p,
            graph_name,
            mode: m,
        } && (m == mode && p@ == database_path@ && graph_name@ == ans && c.transport == TransportConfig::Stdio)),
    }
}

/// Takes the answer `line` to `step`.
pub fn setup_answer(step: SetupStep, line: &str, d: &SetupDefaults) -> (r: (SetupStep, SetupAction))
    ensures
        setup_next(step, line@, *d, r.0, r.1),
{
    let ghost s0 = step;
    let default = match &step {
        SetupStep::Overwrite => string_from_str(""),
        SetupStep::Backend => string_from_str("fs"),
        SetupStep::Mode { .. } => string_from_str("init"),
        SetupStep::Root { .. } => d.graph_root.clone(),
        SetupStep::DatabasePath { .. } => d.database_path.clone(),
        SetupStep::GraphName { .. } => string_from_str("default"),
    };
    proof {
        reveal_strlit("");
        assert(""@ =~= Seq::<char>::empty());
    }
    assert(default@ == question(s0, *d).1);
    let ans = read_answer(line, default.as_str());
    let choice = lowercase(ans.as_str());
    match step {
        SetupStep::Overwrite => match yes_no(ans.as_str(), false) {
            Some(true) => {
                let next = SetupStep::Backend;
                let a = ask(&next, d, None);
                (next, a)
            },
            Some(false) => (SetupStep::Overwrite, SetupAction::Cancel),
            None => {
                let a = ask(&step, d, Some(string_from_str("Please enter yes or no.")));
                (step, a)
            },
        },
        SetupStep::Backend => {
            if str_eq(choice.as_str(), "fs") {
                let next = SetupStep::Mode { backend: BackendChoice::Fs };
                let a = ask(&next, d, None);
                (next, a)
            } else if str_eq(choice.as_str(), "sqlite") {
                let next = SetupStep::Mode { backend: BackendChoice::Sqlite };
                let a = ask(&next, d, None);
                (next, a)
            } else {
                let a = ask(&step, d, Some(string_from_str("Please enter one of: fs, sqlite")));
                (step, a)
            }
        },
        SetupStep::Mode { backend } => {
            let mode = if str_eq(choice.as_str(), "init") {
                OpenMode::Init
            } else if str_eq(choice.as_str(), "open") {
                OpenMode::Open
            } else {
                let a = ask(&step, d, Some(string_from_str("Please enter one of: init, open")));
                return (step, a);
            };
            let next = match backend {
                BackendChoice::Fs => SetupStep::Root { mode },
                BackendChoice::Sqlite => SetupStep::DatabasePath { mode },
            };
            let a = ask(&next, d, None);
            (next, a)
        },
        SetupStep::Root { mode } => {
            let root = expand_tilde(ans.as_str(), d.home.clone());
            let c = ServerConfig { backend: BackendConfig::Fs { root, mode }, transport: TransportConfig::Stdio };
            (SetupStep::Root { mode }, SetupAction::Write(c))
        },
        SetupStep::DatabasePath { mode } => {
            let database_path = expand_tilde(ans.as_str(), d.home.clone());
            let next = SetupStep::GraphName { mode, database_path };
            let a = ask(&next, d, None);
            (next, a)
        },
        SetupStep::GraphName { mode, database_path } => {
            let c = ServerConfig {
                backend: BackendConfig::Sqlite { database_path: database_path.clone(), graph_name: ans, mode },
                transport: TransportConfig::Stdio,
            };
            (SetupStep::GraphName { mode, database_path }, SetupAction::Write(c))
        },
    }
}

/// The default database path: under the home directory when `HOME` is set
/// and not empty, else `focal.db`.
pub fn default_database_path(home: Option<String>) -> (r: String)
    ensures
        r@ == match opt_view(home) {
            Some(h) => if h.len() == 0 {
                "focal.db"@
            } else {
                join_path(h, ".local/share/focal/focal.db"@)
            },
            None => "focal.db"@,
        },
{
    match home {
        Some(h) => {
            if chars_of(h.as_str()).len() == 0 {
                string_from_str("focal.db")
            } else {
                join(h.as_str(), ".local/share/focal/focal.db")
            }
        },
        None => string_from_str("focal.db"),
    }
}

} // verus!
