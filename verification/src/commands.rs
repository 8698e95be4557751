//! Slash commands: what a line asks for, and what a command gives back.

use vstd::prelude::*;

use crate::protocol;
use crate::text;

pub mod clear;
pub mod context;
pub mod cost;
pub mod effort;
pub mod exit;
pub mod model;
pub mod provider;

verus! {

/// The tasks of a session, at one revision of the task graph. Each task is its
/// JSON text.
#[derive(Debug, PartialEq, Eq)]
pub struct TaskGraphSnapshot {
    pub revision: u64,
    pub tasks: Vec<String>,
}

/// Where the route picker opens.
#[derive(Clone, Copy, Debug, PartialEq, Eq, Structural)]
pub enum RoutePickerStage {
    Provider,
    Model,
    Effort,
}

/// What a command produced. `output` is shown to the user as it is.
#[derive(Debug, PartialEq, Eq)]
pub struct SlashResult {
    pub output: String,
    /// The front-end resets its transcript view.
    pub cleared: bool,
    /// The front-end replaces the session by a fresh one.
    pub new_session: bool,
    /// The front-end records this as a user message and runs a turn.
    pub run_turn: Option<String>,
    pub task_graph: Option<TaskGraphSnapshot>,
    /// Interactive front-ends quit.
    pub quit: bool,
    /// The session route changed in a way that sampling must see.
    pub route_changed: bool,
    pub open_provider_picker: Option<RoutePickerStage>,
}

#[verifier::ext_equal]
pub struct SlashView {
    pub output: Seq<char>,
    pub cleared: bool,
    pub new_session: bool,
    pub run_turn: Option<Seq<char>>,
    pub task_graph: Option<(u64, Seq<Seq<char>>)>,
    pub quit: bool,
    pub route_changed: bool,
    pub open_provider_picker: Option<RoutePickerStage>,
}

impl View for SlashResult {
    type V = SlashView;

    open spec fn view(&self) -> SlashView {
        SlashView {
            output: self.output@,
            cleared: self.cleared,
            new_session: self.new_session,
            run_turn: protocol::opt(self.run_turn),
            task_graph: match self.task_graph {
                Some(g) => Some((g.revision, text::texts(g.tasks@))),
                None => None,
            },
            quit: self.quit,
            route_changed: self.route_changed,
            open_provider_picker: self.open_provider_picker,
        }
    }
}

/// A result that only shows a text.
pub open spec fn shows(output: Seq<char>) -> SlashView {
    SlashView {
        output,
        cleared: false,
        new_session: false,
        run_turn: None,
        task_graph: None,
        quit: false,
        route_changed: false,
        open_provider_picker: None,
    }
}

/// A result that shows a text about the route.
pub open spec fn shows_route(
    output: Seq<char>,
    changed: bool,
    picker: Option<RoutePickerStage>,
) -> SlashView {
    SlashView { route_changed: changed, open_provider_picker: picker, ..shows(output) }
}

impl SlashResult {
    /// A plain result: a text for the user.
    pub fn message(output: String) -> (r: Self)
        ensures
            r@ == shows(output@),
    {
        SlashResult {
            output,
            cleared: false,
            new_session: false,
            run_turn: None,
            task_graph: None,
            quit: false,
            route_changed: false,
            open_provider_picker: None,
        }
    }

    /// A text and a transcript reset.
    pub fn cleared_message(output: String, task_graph: TaskGraphSnapshot) -> (r: Self)
        ensures
            r@ == (SlashView {
                cleared: true,
                task_graph: Some((task_graph.revision, text::texts(task_graph.tasks@))),
                ..shows(output@)
            }),
    {
        SlashResult {
            output,
            cleared: true,
            new_session: false,
            run_turn: None,
            task_graph: Some(task_graph),
            quit: false,
            route_changed: false,
            open_provider_picker: None,
        }
    }

    /// A prompt to run as a turn.
    pub fn turn(prompt: String) -> (r: Self)
        ensures
            r@ == (SlashView { run_turn: Some(prompt@), ..shows(Seq::empty()) }),
    {
        let r = SlashResult {
            output: String::new(),
            cleared: false,
            new_session: false,
            run_turn: Some(prompt),
            task_graph: None,
            quit: false,
            route_changed: false,
            open_provider_picker: None,
        };
        proof {
            assert(r.output@ =~= Seq::<char>::empty());
        }
        r
    }

    /// A text about the route.
    pub fn route(output: String, changed: bool, picker: Option<RoutePickerStage>) -> (r: Self)
        ensures
            r@ == shows_route(output@, changed, picker),
    {
        SlashResult {
            output,
            cleared: false,
            new_session: false,
            run_turn: None,
            task_graph: None,
            quit: false,
            route_changed: changed,
            open_provider_picker: picker,
        }
    }

    /// The session ends, and a fresh one begins.
    pub fn new_session() -> (r: Self)
        ensures
            r@ == (SlashView { new_session: true, ..shows(Seq::empty()) }),
    {
        let r = SlashResult {
            output: String::new(),
            cleared: false,
            new_session: true,
            run_turn: None,
            task_graph: None,
            quit: false,
            route_changed: false,
            open_provider_picker: None,
        };
        proof {
            assert(r.output@ =~= Seq::<char>::empty());
        }
        r
    }

    /// Interactive front-ends quit after showing the text.
    pub fn quit(output: String) -> (r: Self)
        ensures
            r@ == (SlashView { quit: true, ..shows(output@) }),
    {
        SlashResult {
            output,
            cleared: false,
            new_session: false,
            run_turn: None,
            task_graph: None,
            quit: true,
            route_changed: false,
            open_provider_picker: None,
        }
    }
}

// ---------------------------------------------------------------------------
// Lines
// ---------------------------------------------------------------------------

/// A command line: a `/` followed by something that is not white space.
pub open spec fn command_line(line: Seq<char>) -> bool {
    line.len() >= 2 && line[0] == '/' && !text::white_space(line[1])
}

/// Whether an input line invokes a command. Everything else is a message to
/// the model.
pub fn is_command(line: &str) -> (r: bool)
    ensures
        r == command_line(line@),
{
    let chars = text::chars_of(line);
    chars.len() >= 2 && chars[0] == '/' && !text::is_white_space(chars[1])
}

/// The place of the first white space, or the end.
pub open spec fn first_gap(s: Seq<char>) -> nat
    decreases s.len(),
{
    if s.len() == 0 || text::white_space(s[0]) {
        0
    } else {
        1 + first_gap(s.skip(1))
    }
}

/// The line without its slash.
pub open spec fn unslashed(line: Seq<char>) -> Seq<char> {
    if line.len() > 0 && line[0] == '/' {
        line.skip(1)
    } else {
        line
    }
}

/// The name a line calls: what stands before the first white space.
pub open spec fn called_name(line: Seq<char>) -> Seq<char> {
    let rest = unslashed(line);
    rest.take(first_gap(rest) as int)
}

/// The arguments of a line: what follows the first white space, trimmed.
pub open spec fn called_args(line: Seq<char>) -> Seq<char> {
    let rest = unslashed(line);
    if first_gap(rest) < rest.len() {
        text::trim(rest.skip(first_gap(rest) as int + 1))
    } else {
        Seq::empty()
    }
}

proof fn lemma_first_gap(s: Seq<char>, n: int)
    requires
        0 <= n <= s.len(),
        forall|i: int| 0 <= i < n ==> !text::white_space(#[trigger] s[i]),
        n == s.len() || text::white_space(s[n]),
    ensures
        first_gap(s) == n,
    decreases n,
{
    if n > 0 {
        assert(!text::white_space(s[0]));
        let t = s.skip(1);
        assert forall|i: int| 0 <= i < n - 1 implies !text::white_space(#[trigger] t[i]) by {
            assert(t[i] == s[i + 1]);
        }
        if n < s.len() {
            assert(t[n - 1] == s[n]);
        }
        lemma_first_gap(t, n - 1);
    }
}

/// Splits a line into the name it calls and its arguments.
pub fn split_line(line: &str) -> (r: (String, String))
    ensures
        r.0@ == called_name(line@),
        r.1@ == called_args(line@),
{
    let all = text::chars_of(line);
    let from: usize = if all.len() > 0 && all[0] == '/' {
        1
    } else {
        0
    };
    let ghost rest = unslashed(line@);
    let mut at: usize = from;
    proof {
        assert(rest =~= line@.skip(from as int));
    }
    while at < all.len() && !text::is_white_space(all[at])
        invariant
            from <= at <= all@.len(),
            all@ == line@,
            rest == line@.skip(from as int),
            forall|i: int| 0 <= i < at - from ==> !text::white_space(#[trigger] rest[i]),
        decreases all@.len() - at,
    {
        at += 1;
    }
    proof {
        if at < all@.len() {
            assert(rest[at - from] == line@[at as int]);
        }
        lemma_first_gap(rest, at - from);
        assert(line@.subrange(from as int, at as int) =~= rest.take(at - from));
    }
    let name = text::text_of(&all, from, at);
    if at < all.len() {
        let tail = text::text_of(&all, at + 1, all.len());
        proof {
            assert(line@.subrange(at + 1, line@.len() as int) =~= rest.skip(at - from + 1));
        }
        (name, text::trimmed(tail.as_str()))
    } else {
        let none = String::new();
        proof {
            assert(none@ =~= Seq::<char>::empty());
        }
        (name, none)
    }
}

/// A built-in command, or the name of something else.
#[derive(Clone, Copy, Debug, PartialEq, Eq, Structural)]
pub enum Called {
    Help,
    Provider,
    Effort,
    Cost,
    Compact,
    Clear,
    Loop,
    Skills,
    Exit,
    Other,
}

/// Which command a name calls.
pub open spec fn called(name: Seq<char>) -> Called {
    if name == "help"@ {
        Called::Help
    } else if name == "provider"@ {
        Called::Provider
    } else if name == "effort"@ {
        Called::Effort
    } else if name == "cost"@ {
        Called::Cost
    } else if name == "compact"@ {
        Called::Compact
    } else if name == "clear"@ {
        Called::Clear
    } else if name == "loop"@ {
        Called::Loop
    } else if name == "skills"@ {
        Called::Skills
    } else if name == "exit"@ {
        Called::Exit
    } else {
        Called::Other
    }
}

/// Which command a name calls.
pub fn lookup(name: &str) -> (r: Called)
    ensures
        r == called(name@),
{
    if text::same(name, "help") {
        Called::Help
    } else if text::same(name, "provider") {
        Called::Provider
    } else if text::same(name, "effort") {
        Called::Effort
    } else if text::same(name, "cost") {
        Called::Cost
    } else if text::same(name, "compact") {
        Called::Compact
    } else if text::same(name, "clear") {
        Called::Clear
    } else if text::same(name, "loop") {
        Called::Loop
    } else if text::same(name, "skills") {
        Called::Skills
    } else if text::same(name, "exit") {
        Called::Exit
    } else {
        Called::Other
    }
}

// ---------------------------------------------------------------------------
// The registry
// ---------------------------------------------------------------------------

/// One row of the registry: the name without its slash, and a summary.
#[derive(Clone, Copy, Debug, PartialEq, Eq)]
pub struct Builtin {
    pub name: &'static str,
    pub summary: &'static str,
}

/// The names of the built-in commands.
pub open spec fn builtin_names() -> Seq<Seq<char>> {
    seq![
        "help"@,
        "provider"@,
        "effort"@,
        "cost"@,
        "compact"@,
        "clear"@,
        "loop"@,
        "skills"@,
        "exit"@,
    ]
}

/// The summaries of the commands that the host carries out itself.
#[derive(Clone, Copy, Debug, PartialEq, Eq)]
pub struct HostSummaries {
    pub help: &'static str,
    pub compact: &'static str,
    pub repeat: &'static str,
    pub skills: &'static str,
}

/// The summaries of the built-in commands.
pub open spec fn builtin_summaries(host: HostSummaries) -> Seq<Seq<char>> {
    seq![
        host.help@,
        provider::SUMMARY@,
        effort::SUMMARY@,
        cost::SUMMARY@,
        host.compact@,
        clear::SUMMARY@,
        host.repeat@,
        host.skills@,
        exit::SUMMARY@,
    ]
}

/// The built-in commands, in the order in which they are listed.
pub fn builtins(host: HostSummaries) -> (r: Vec<Builtin>)
    ensures
        r@.len() == builtin_names().len(),
        forall|i: int|
            0 <= i < r@.len() ==> (#[trigger] r@[i]).name@ == builtin_names()[i] && r@[i].summary@
                == builtin_summaries(host)[i],
{
    vec![
        Builtin { name: "help", summary: host.help },
        Builtin { name: "provider", summary: provider::SUMMARY },
        Builtin { name: "effort", summary: effort::SUMMARY },
        Builtin { name: "cost", summary: cost::SUMMARY },
        Builtin { name: "compact", summary: host.compact },
        Builtin { name: "clear", summary: clear::SUMMARY },
        Builtin { name: "loop", summary: host.repeat },
        Builtin { name: "skills", summary: host.skills },
        Builtin { name: "exit", summary: exit::SUMMARY },
    ]
}

/// Each name with a slash before it.
pub open spec fn slashed(names: Seq<Seq<char>>) -> Seq<Seq<char>> {
    names.map_values(|n: Seq<char>| "/"@ + n)
}

/// What an unknown name is answered: what there is.
pub open spec fn unknown_text(name: Seq<char>, skills: Seq<Seq<char>>) -> Seq<char> {
    "unknown command '/"@ + name + "' (available: "@ + text::join(
        slashed(builtin_names() + skills),
        ", "@,
    ) + ")"@
}

fn push_slashed(list: &mut Vec<String>, name: &str)
    ensures
        text::texts(final(list)@) == text::texts(old(list)@).push("/"@ + name@),
{
    let mut entry = "/".to_owned();
    entry.append(name);
    text::push_text(list, entry);
}

/// The answer to an unknown name: it lists the commands and the skills.
pub fn unknown(name: &str, skills: &Vec<String>) -> (r: SlashResult)
    ensures
        r@ == shows(unknown_text(name@, text::texts(skills@))),
{
    let rows: Vec<&'static str> = vec![
        "help",
        "provider",
        "effort",
        "cost",
        "compact",
        "clear",
        "loop",
        "skills",
        "exit",
    ];
    let ghost names = builtin_names() + text::texts(skills@);
    let mut available: Vec<String> = Vec::new();
    proof {
        assert(text::texts(available@) =~= slashed(names.take(0)));
    }
    let mut i: usize = 0;
    while i < rows.len()
        invariant
            i <= rows@.len(),
            rows@.len() == builtin_names().len(),
            forall|k: int| 0 <= k < rows@.len() ==> (#[trigger] rows@[k])@ == builtin_names()[k],
            names == builtin_names() + text::texts(skills@),
            text::texts(available@) == slashed(names.take(i as int)),
        decreases rows@.len() - i,
    {
        push_slashed(&mut available, rows[i]);
        i += 1;
        proof {
            assert(text::texts(available@) =~= slashed(names.take(i as int)));
        }
    }
    let mut j: usize = 0;
    while j < skills.len()
        invariant
            j <= skills@.len(),
            names == builtin_names() + text::texts(skills@),
            text::texts(available@) == slashed(names.take(builtin_names().len() as int + j)),
        decreases skills@.len() - j,
    {
        push_slashed(&mut available, skills[j].as_str());
        j += 1;
        proof {
            assert(text::texts(available@) =~= slashed(names.take(builtin_names().len() as int + j)));
        }
    }
    proof {
        assert(names.take(builtin_names().len() as int + j) =~= names);
    }
    let list = text::joined(&available, ", ");
    let mut out = "unknown command '/".to_owned();
    out.append(name);
    out.append("' (available: ");
    out.append(list.as_str());
    out.append(")");
    SlashResult::message(out)
}

/// What comes of a name that is a loaded skill: its expanded body runs as a
/// turn, or the user sees why it could not be expanded.
pub fn skill_result(name: &str, expanded: Result<String, String>) -> (r: SlashResult)
    ensures
        match expanded {
            Ok(prompt) => r@ == (SlashView { run_turn: Some(prompt@), ..shows(Seq::empty()) }),
            Err(e) => r@ == shows("/"@ + name@ + ": "@ + e@),
        },
{
    match expanded {
        Ok(prompt) => SlashResult::turn(prompt),
        Err(e) => {
            let mut out = "/".to_owned();
            out.append(name);
            out.append(": ");
            out.append(e.as_str());
            SlashResult::message(out)
        },
    }
}

/// Every built-in name calls a command, and no two of them the same.
pub proof fn law_every_builtin_is_called(i: int, j: int)
    requires
        0 <= i < builtin_names().len(),
        0 <= j < builtin_names().len(),
    ensures
        called(builtin_names()[i]) != Called::Other,
        i != j ==> called(builtin_names()[i]) != called(builtin_names()[j]),
{
    reveal_strlit("help");
    reveal_strlit("provider");
    reveal_strlit("effort");
    reveal_strlit("cost");
    reveal_strlit("compact");
    reveal_strlit("clear");
    reveal_strlit("loop");
    reveal_strlit("skills");
    reveal_strlit("exit");
    assert("help"@[0] == 'h');
    assert("provider"@.len() == 8);
    assert("effort"@.len() == 6);
    assert("cost"@[0] == 'c');
    assert("compact"@.len() == 7);
    assert("clear"@.len() == 5);
    assert("loop"@[0] == 'l');
    assert("skills"@[0] == 's');
    assert("exit"@[0] == 'e' && "exit"@.len() == 4);
    assert(called("help"@) == Called::Help);
    assert(called("provider"@) == Called::Provider);
    assert(called("effort"@) == Called::Effort);
    assert(called("cost"@) == Called::Cost);
    assert(called("compact"@) == Called::Compact);
    assert(called("clear"@) == Called::Clear);
    assert(called("loop"@) == Called::Loop);
    assert(called("skills"@) == Called::Skills);
    assert(called("exit"@) == Called::Exit);
}

/// A line is a command where it begins with a slash and a character that is no white
/// space.
pub proof fn law_what_is_a_command(line: Seq<char>)
    ensures
        command_line(line) <==> line.len() >= 2 && line[0] == '/' && !text::white_space(line[1]),
{
}

proof fn lemma_gap_follows_the_name(name: Seq<char>, rest: Seq<char>)
    requires
        forall|i: int| 0 <= i < name.len() ==> !text::white_space(#[trigger] name[i]),
        rest.len() > 0 ==> text::white_space(rest[0]),
    ensures
        first_gap(name + rest) == name.len(),
    decreases name.len(),
{
    let whole = name + rest;
    if name.len() == 0 {
        assert(whole =~= rest);
    } else {
        assert(whole[0] == name[0]);
        assert(whole.skip(1) =~= name.skip(1) + rest);
        assert forall|i: int| 0 <= i < name.skip(1).len() implies !text::white_space(
            #[trigger] name.skip(1)[i],
        ) by {
            assert(name.skip(1)[i] == name[i + 1]);
        }
        lemma_gap_follows_the_name(name.skip(1), rest);
    }
}

/// A command is its name, up to the first white space, and what follows it without white
/// space at either end.
pub proof fn law_a_command_is_a_name_and_its_arguments(
    name: Seq<char>,
    gap: char,
    args: Seq<char>,
)
    requires
        forall|i: int| 0 <= i < name.len() ==> !text::white_space(#[trigger] name[i]),
        text::white_space(gap),
    ensures
        called_name(seq!['/'] + name + seq![gap] + args) == name,
        called_args(seq!['/'] + name + seq![gap] + args) == text::trim(args),
        called_name(seq!['/'] + name) == name,
        called_args(seq!['/'] + name).len() == 0,
{
    let long = seq!['/'] + name + seq![gap] + args;
    let tail = seq![gap] + args;
    assert(long[0] == '/');
    assert(unslashed(long) =~= name + tail);
    lemma_gap_follows_the_name(name, tail);
    assert((name + tail).take(name.len() as int) =~= name);
    assert((name + tail).skip(name.len() as int + 1) =~= args);
    let short = seq!['/'] + name;
    assert(short[0] == '/');
    let none = Seq::<char>::empty();
    assert(unslashed(short) =~= name + none);
    lemma_gap_follows_the_name(name, none);
    assert((name + none).take(name.len() as int) =~= name);
}

/// Each built-in command goes by its own name, and any other name is none of them.
pub proof fn law_a_builtin_goes_by_its_name(name: Seq<char>)
    ensures
        called("help"@) == Called::Help,
        called("provider"@) == Called::Provider,
        called("effort"@) == Called::Effort,
        called("cost"@) == Called::Cost,
        called("compact"@) == Called::Compact,
        called("clear"@) == Called::Clear,
        called("loop"@) == Called::Loop,
        called("skills"@) == Called::Skills,
        called("exit"@) == Called::Exit,
        called(name) == Called::Other <==> name != "help"@ && name != "provider"@ && name
            != "effort"@ && name != "cost"@ && name != "compact"@ && name != "clear"@ && name
            != "loop"@ && name != "skills"@ && name != "exit"@,
{
    let names = builtin_names();
    assert forall|i: int, j: int| 0 <= i < j < names.len() implies called(#[trigger] names[i])
        != called(#[trigger] names[j]) by {
        law_every_builtin_is_called(i, j);
    }
    reveal_strlit("help");
    reveal_strlit("provider");
    reveal_strlit("effort");
    reveal_strlit("cost");
    reveal_strlit("compact");
    reveal_strlit("clear");
    reveal_strlit("loop");
    reveal_strlit("skills");
    reveal_strlit("exit");
    assert("help"@[0] == 'h' && "provider"@[0] == 'p' && "effort"@[1] == 'f' && "cost"@.len() == 4
        && "cost"@[0] == 'c' && "compact"@.len() == 7 && "clear"@.len() == 5 && "loop"@[0] == 'l'
        && "skills"@[0] == 's' && "exit"@[1] == 'x' && "effort"@[0] == 'e' && "exit"@[0] == 'e');
}

/// A command that only shows something changes nothing; one that changed the route says
/// so, and nothing more.
pub proof fn law_showing_changes_nothing(
    output: Seq<char>,
    changed: bool,
    picker: Option<RoutePickerStage>,
)
    ensures
        ({
            let r = shows_route(output, changed, picker);
            &&& shows(output) == shows_route(output, false, None)
            &&& r.output == output
            &&& r.route_changed == changed
            &&& r.open_provider_picker == picker
            &&& !r.cleared
            &&& !r.new_session
            &&& r.run_turn is None
            &&& r.task_graph is None
            &&& !r.quit
        }),
{
}

/// An unknown command is answered with its name and with every command there is: the
/// built-in ones, and then the skills.
pub proof fn law_an_unknown_command_is_answered(name: Seq<char>, skills: Seq<Seq<char>>, i: int)
    ensures
        unknown_text(name, skills) == "unknown command '/"@ + name + "' (available: "@ + text::join(
            slashed(builtin_names() + skills),
            ", "@,
        ) + ")"@,
        0 <= i < skills.len() ==> slashed(builtin_names() + skills)[9 + i] == "/"@ + skills[i],
        slashed(builtin_names() + skills).len() == 9 + skills.len(),
        slashed(builtin_names() + skills)[0] == "/"@ + "help"@,
        slashed(builtin_names() + skills)[8] == "/"@ + "exit"@,
{
}

/// Each built-in command is listed with its own summary.
pub proof fn law_each_builtin_has_its_summary(host: HostSummaries)
    ensures
        builtin_names().len() == 9,
        builtin_summaries(host).len() == 9,
        builtin_names()[0] == "help"@ && builtin_summaries(host)[0] == host.help@,
        builtin_names()[1] == "provider"@ && builtin_summaries(host)[1] == provider::SUMMARY@,
        builtin_names()[2] == "effort"@ && builtin_summaries(host)[2] == effort::SUMMARY@,
        builtin_names()[3] == "cost"@ && builtin_summaries(host)[3] == cost::SUMMARY@,
        builtin_names()[4] == "compact"@ && builtin_summaries(host)[4] == host.compact@,
        builtin_names()[5] == "clear"@ && builtin_summaries(host)[5] == clear::SUMMARY@,
        builtin_names()[6] == "loop"@ && builtin_summaries(host)[6] == host.repeat@,
        builtin_names()[7] == "skills"@ && builtin_summaries(host)[7] == host.skills@,
        builtin_names()[8] == "exit"@ && builtin_summaries(host)[8] == exit::SUMMARY@,
{
}

} // verus!
