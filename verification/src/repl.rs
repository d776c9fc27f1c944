//! A session of the memory query language.
//!
//! A line is a command (it begins with a colon) or a program. The session decides what a line asks
//! for, carries the logical clock, and words every reply. What takes the disk or the parser is handed
//! to the host as a [`Step`], and comes back as its outcome.

use crate::archetype;
use crate::archetype::ArchetypeStore;
use crate::archetype::ArchetypeView;
use crate::arithmetic;
use crate::arithmetic::Arithmetic;
use crate::ast::Statement;
use crate::entropy::Tick;
use crate::exec;
use crate::exec::ExecError;
use crate::exec::ExecResult;
use crate::exec::Executor;
use crate::factstore::RecalledFact;
use crate::number::Double;
use crate::provider::Provider;
use crate::runtime::CognitiveRuntime;
use crate::runtime::RuntimeConfig;
use crate::runtime::RuntimeView;
use crate::selection;
use crate::text;
use vstd::prelude::*;

verus! {

/// What `:help` shows.
pub const HELP: &'static str =
    "MQL verbs — type them directly:\n  PERCEIVE interaction FROM subject \"u:X\" AS { act: buy, object: shoes }\n  DISTILL  subject \"u:X\" INTO intention_vector COMPRESSING BY semantic_variance\n  EVOKE    essence OF \"u:X\" WITHIN budget 800 tokens\n  EVOKE    essence OF \"u:X\" RESONATING WITH { nostalgia } WITHIN budget 800 tokens\n  FADE     noise WHERE weight now < 0.05 PRESERVING archetype_contribution\n  IMPRINT  archetype \"u:X\" FROM intention_vector RESILIENCE high\n  RECALL   facts FROM subject \"u:X\" RESONATING WITH { allergy } WHERE resonates > 0.6 WITHIN k 3\n  REINFORCE facts FROM subject \"u:X\" RESONATING WITH { allergy } WITHIN k 3\n\nMeta-commands:\n  :tick <s>     advance the logical clock <s> seconds\n  :now          show the clock\n  :state        short/long-term memory size\n  :subjects     consolidated archetypes\n  :save [dir]   persist memory (one JSON per subject)\n  :load [dir]   rehydrate memory from disk\n  :help         this help\n  :quit         exit";

/// What a line comes to.
#[derive(Debug, PartialEq, Eq)]
pub enum Eval {
    /// Text to show.
    Output(String),
    /// The session is over.
    Quit,
}

/// A line break that a line of a text begins behind, or the beginning of the text.
pub open spec fn line_begins(s: Seq<char>, i: int) -> bool {
    i == 0 || s[i - 1] == '\n'
}

/// A line that is not empty begins at position `i`; a carriage return before the line break does not
/// count.
pub open spec fn filled_line_begins(s: Seq<char>, i: int) -> bool {
    &&& line_begins(s, i)
    &&& s[i] != '\n'
    &&& !(s[i] == '\r' && i + 1 < s.len() && s[i + 1] == '\n')
}

/// How many of the first `n` positions of a text begin a line that is not empty.
pub open spec fn filled_lines(s: Seq<char>, n: int) -> nat
    decreases n,
{
    if n <= 0 {
        0
    } else {
        filled_lines(s, n - 1) + (if filled_line_begins(s, n - 1) {
            1nat
        } else {
            0nat
        })
    }
}

impl Eval {
    /// How many lines of a listing are not empty; a listing in parentheses lists nothing.
    pub open spec fn listed(self) -> nat {
        match self {
            Eval::Output(s) => if s@.len() > 0 && s@[0] == '(' {
                0
            } else {
                filled_lines(s@, s@.len() as int)
            },
            Eval::Quit => 0,
        }
    }

    /// How many lines of a listing are not empty; a listing in parentheses lists nothing.
    pub fn describe_count(&self) -> (r: usize)
        ensures
            r == self.listed(),
    {
        match self {
            Eval::Output(s) => {
                let chars = text::chars_of(s.as_str());
                if chars.len() > 0 && chars[0] == '(' {
                    return 0;
                }
                let mut count: usize = 0;
                let mut i: usize = 0;
                while i < chars.len()
                    invariant
                        i <= chars.len(),
                        chars@ == s@,
                        count <= i,
                        count == filled_lines(s@, i as int),
                    decreases chars.len() - i,
                {
                    let fresh: bool = i == 0 || chars[i - 1] == '\n';
                    let hollow: bool = chars[i] == '\n' || (chars[i] == '\r' && i + 1 < chars.len()
                        && chars[i + 1] == '\n');
                    if fresh && !hollow {
                        count += 1;
                    }
                    i += 1;
                }
                count
            },
            Eval::Quit => 0,
        }
    }
}

/// What a line asks of the host.
#[derive(Debug, PartialEq, Eq)]
pub enum Step {
    /// Nothing more: this is what the line comes to.
    Done(Eval),
    /// To save the long-term memory.
    Save { dir: String },
    /// To load a long-term memory.
    Load { dir: String },
    /// To parse and check a program.
    Program { source: String },
}

/// What a [`Step`] holds.
#[verifier::ext_equal]
pub enum StepView {
    Output(Seq<char>),
    Quit,
    Save(Seq<char>),
    Load(Seq<char>),
    Program(Seq<char>),
}

impl View for Step {
    type V = StepView;

    open spec fn view(&self) -> StepView {
        match *self {
            Step::Done(Eval::Output(s)) => StepView::Output(s@),
            Step::Done(Eval::Quit) => StepView::Quit,
            Step::Save { dir } => StepView::Save(dir@),
            Step::Load { dir } => StepView::Load(dir@),
            Step::Program { source } => StepView::Program(source@),
        }
    }
}

/// What a session holds.
#[verifier::ext_equal]
pub struct ReplView {
    pub memory: RuntimeView,
    /// The logical clock.
    pub now: Tick,
    /// The directory that the session saves to and loads from, if it has one.
    pub home: Option<Seq<char>>,
}

/// The verb of a command: its first word.
pub open spec fn verb_of(cmd: Seq<char>) -> Seq<char> {
    cmd.take(text::word_length(cmd) as int)
}

/// The argument of a command: what follows its first word, without surrounding white space; none
/// where nothing is left.
pub open spec fn argument_of(cmd: Seq<char>) -> Option<Seq<char>> {
    let n = text::word_length(cmd) as int;
    if n < cmd.len() && text::trimmed(cmd.skip(n + 1)).len() > 0 {
        Some(text::trimmed(cmd.skip(n + 1)))
    } else {
        None
    }
}

/// The subjects of a long-term memory, one per line.
pub open spec fn listing(s: Seq<ArchetypeView>) -> Seq<char> {
    if s.len() == 0 {
        "(no consolidated archetypes)"@
    } else {
        text::joined(Seq::new(s.len(), |i: int| s[i].subject), "\n"@)
    }
}

/// The clock that `:tick` leaves, if its argument is a number of seconds that is not negative.
pub open spec fn ticked<A: Arithmetic>(arith: A, now: Tick, arg: Option<Seq<char>>) -> Option<
    Tick,
> {
    match arg {
        Some(a) => match arithmetic::parsed(arith, a) {
            Some(s) => if Double::nought().at_most(s) {
                Some(arithmetic::sum64(arith, now, s))
            } else {
                None
            },
            None => None,
        },
        None => None,
    }
}

/// The directory that a command means: its argument, or the session's own.
pub open spec fn directory(v: ReplView, arg: Option<Seq<char>>) -> Option<Seq<char>> {
    match arg {
        Some(a) => Some(a),
        None => v.home,
    }
}

/// What a command asks for.
pub open spec fn commanded<A: Arithmetic>(arith: A, v: ReplView, cmd: Seq<char>) -> StepView {
    let verb = verb_of(cmd);
    let arg = argument_of(cmd);
    if verb == "q"@ || verb == "quit"@ || verb == "exit"@ {
        StepView::Quit
    } else if verb == "help"@ || verb == "h"@ || verb == "?"@ {
        StepView::Output(HELP@)
    } else if verb == "now"@ {
        StepView::Output("now = "@ + arithmetic::spelled(arith, v.now, 0) + "s"@)
    } else if verb == "tick"@ {
        match ticked(arith, v.now, arg) {
            Some(t) => StepView::Output("⏱  now = "@ + arithmetic::spelled(arith, t, 0) + "s"@),
            None => StepView::Output("usage: :tick <seconds ≥ 0>"@),
        }
    } else if verb == "state"@ {
        StepView::Output(
            "short-term: "@ + text::decimal(v.memory.short_term.len())
                + " perceptions · long-term: "@ + text::decimal(v.memory.long_term.len())
                + " archetypes"@,
        )
    } else if verb == "subjects"@ {
        StepView::Output(listing(v.memory.long_term))
    } else if verb == "save"@ {
        match directory(v, arg) {
            Some(d) => StepView::Save(d),
            None => StepView::Output("usage: :save <dir>  (or start with --persist)"@),
        }
    } else if verb == "load"@ {
        match directory(v, arg) {
            Some(d) => StepView::Load(d),
            None => StepView::Output("usage: :load <dir>  (or start with --persist)"@),
        }
    } else {
        StepView::Output("unknown command: ':"@ + verb + "' — try :help"@)
    }
}

/// What a line asks for.
pub open spec fn asked<A: Arithmetic>(arith: A, v: ReplView, input: Seq<char>) -> StepView {
    let line = text::trimmed(input);
    if line.len() == 0 {
        StepView::Output(Seq::empty())
    } else if line[0] == ':' {
        commanded(arith, v, text::trimmed(line.skip(1)))
    } else {
        StepView::Program(line)
    }
}

/// The clock after a command: `tick` advances it.
pub open spec fn clock_commanded<A: Arithmetic>(arith: A, now: Tick, cmd: Seq<char>) -> Tick {
    if verb_of(cmd) == "tick"@ {
        match ticked(arith, now, argument_of(cmd)) {
            Some(t) => t,
            None => now,
        }
    } else {
        now
    }
}

/// The clock after a line: `:tick` advances it.
pub open spec fn clock_after<A: Arithmetic>(arith: A, v: ReplView, input: Seq<char>) -> Tick {
    let line = text::trimmed(input);
    if line.len() > 0 && line[0] == ':' {
        clock_commanded(arith, v.now, text::trimmed(line.skip(1)))
    } else {
        v.now
    }
}

/// The verb of a line that is a command.
pub open spec fn command_verb(input: Seq<char>) -> Option<Seq<char>> {
    let line = text::trimmed(input);
    if line.len() > 0 && line[0] == ':' {
        Some(verb_of(text::trimmed(line.skip(1))))
    } else {
        None
    }
}

/// The seconds that a command advances the clock by, if it does: its verb is `tick`, and its argument
/// spells a number that is not negative.
pub open spec fn seconds_of<A: Arithmetic>(arith: A, cmd: Seq<char>) -> Option<Double> {
    if verb_of(cmd) != "tick"@ {
        None
    } else {
        match argument_of(cmd) {
            Some(a) => match arithmetic::parsed(arith, a) {
                Some(s) => if Double::nought().at_most(s) {
                    Some(s)
                } else {
                    None
                },
                None => None,
            },
            None => None,
        }
    }
}

/// What a command does to the session: the clock never runs backwards, wherever above negative
/// infinity it stands. A `tick` with seconds that are not negative adds them to it, and nothing else
/// moves it: a `tick` without them, or with what is negative or no number, is answered with its
/// usage. `q`, `quit` and `exit` quit, and no other verb does.
pub proof fn commands_keep_time<A: Arithmetic>(arith: A, v: ReplView, cmd: Seq<char>)
    requires
        arithmetic::lawful(arith),
        Double::lowest().below(v.now),
    ensures
        v.now.at_most(clock_commanded(arith, v.now, cmd)),
        clock_commanded(arith, v.now, cmd) == match seconds_of(arith, cmd) {
            Some(s) => arithmetic::sum64(arith, v.now, s),
            None => v.now,
        },
        verb_of(cmd) == "tick"@ && seconds_of(arith, cmd) is None ==> commanded(arith, v, cmd)
            == StepView::Output("usage: :tick <seconds ≥ 0>"@),
        commanded(arith, v, cmd) is Quit <==> (verb_of(cmd) == "q"@ || verb_of(cmd) == "quit"@
            || verb_of(cmd) == "exit"@),
{
    reveal_strlit("tick");
    reveal_strlit("q");
    reveal_strlit("quit");
    reveal_strlit("exit");
    reveal_strlit("help");
    reveal_strlit("h");
    reveal_strlit("?");
    reveal_strlit("now");
    assert("quit"@[0] != "tick"@[0]);
    assert("exit"@[0] != "tick"@[0]);
    assert("help"@[0] != "tick"@[0]);
    if let Some(s) = seconds_of(arith, cmd) {
        arithmetic::adding_does_not_lower(arith, v.now, s);
    }
}

/// The clock of a session never runs backwards, wherever above negative infinity it stands, and
/// nothing but `:tick` moves it. It starts at zero, so after any lines it is at zero or later.
pub proof fn clock_never_runs_backwards<A: Arithmetic>(arith: A, v: ReplView, input: Seq<char>)
    requires
        arithmetic::lawful(arith),
        Double::lowest().below(v.now),
    ensures
        v.now.at_most(clock_after(arith, v, input)),
        Double::nought().at_most(v.now) ==> Double::nought().at_most(clock_after(arith, v, input)),
        command_verb(input) != Some("tick"@) ==> clock_after(arith, v, input) == v.now,
{
    commands_keep_time(arith, v, text::trimmed(text::trimmed(input).skip(1)));
}

/// A session ends by `:q`, `:quit` and `:exit`, and by no other line.
pub proof fn only_quitting_quits<A: Arithmetic>(arith: A, v: ReplView, input: Seq<char>)
    ensures
        asked(arith, v, input) is Quit <==> (command_verb(input) == Some("q"@) || command_verb(input)
            == Some("quit"@) || command_verb(input) == Some("exit"@)),
{
}

/// What a recalled fact reads: its text and its score.
pub open spec fn fact_text<A: Arithmetic>(arith: A, f: RecalledFact) -> Seq<char> {
    "«"@ + f.text@ + "» ("@ + arithmetic::spelled(arith, f.score, 2) + ")"@
}

/// What each recalled fact of a list reads.
pub open spec fn fact_texts<A: Arithmetic>(arith: A, s: Seq<RecalledFact>) -> Seq<Seq<char>> {
    Seq::new(s.len(), |i: int| fact_text(arith, s[i]))
}

/// What the result of a statement reads.
pub open spec fn result_text<A: Arithmetic>(arith: A, r: ExecResult) -> Seq<char> {
    match r {
        ExecResult::Perceived { subject } => "· perceived «"@ + subject@ + "»"@,
        ExecResult::Dreamed(b) => "· dreamed: "@ + text::decimal(b.distilled_subjects as nat)
            + " subject(s) consolidated, "@ + text::decimal(b.perceptions_absorbed as nat)
            + " perception(s) absorbed, "@ + text::decimal(b.faded as nat) + " faded"@,
        ExecResult::Evoked(c) => "· evoked «"@ + c.subject@ + "»: "@ + text::decimal(
            c.represented as nat,
        ) + " events → "@ + text::decimal(c.vectors_returned as nat) + " vectors · ~"@
            + text::decimal(c.token_estimate as nat) + " tokens · compression "@
            + arithmetic::spelled(arith, c.ratio(arith), 1) + ":1"@,
        ExecResult::Faded { swept } => "· faded "@ + text::decimal(swept as nat)
            + " perception(s)"@,
        ExecResult::Imprinted { archetype, note } => "· imprinted «"@ + archetype@
            + "» (consolidated essence)"@,
        ExecResult::Recalled(facts) => if facts@.len() == 0 {
            "· recall: no resonating facts"@
        } else {
            "· recalled "@ + text::decimal(facts@.len()) + " fact(s): "@ + text::joined(
                fact_texts(arith, facts@),
                ", "@,
            )
        },
        ExecResult::Reinforced { count } => "· reinforced "@ + text::decimal(count as nat)
            + " fact(s) (decay reset)"@,
    }
}

/// What the error of a statement reads.
pub open spec fn error_text(e: ExecError) -> Seq<char> {
    match e {
        ExecError::NoSuchSubject(s) => "no live archetype for «"@ + s@ + "»"@,
        ExecError::MissingBudget => "EVOKE requires WITHIN budget N tokens"@,
    }
}

/// What the outcome of a statement reads.
pub open spec fn outcome_text<A: Arithmetic>(
    arith: A,
    r: Result<ExecResult, ExecError>,
) -> Seq<char> {
    match r {
        Ok(x) => result_text(arith, x),
        Err(e) => "⚠ "@ + error_text(e),
    }
}

/// What the outcomes of statements read, one per line.
pub open spec fn outcome_texts<A: Arithmetic>(
    arith: A,
    s: Seq<Result<ExecResult, ExecError>>,
) -> Seq<Seq<char>> {
    Seq::new(s.len(), |i: int| outcome_text(arith, s[i]))
}

/// What the problems of a program read, one per line.
pub open spec fn problem_texts(s: Seq<Seq<char>>) -> Seq<Seq<char>> {
    Seq::new(s.len(), |i: int| "⚠ "@ + s[i])
}

/// Puts two texts together.
fn append(mut head: String, tail: &str) -> (r: String)
    ensures
        r@ == head@ + tail@,
{
    head.append(tail);
    head
}

/// Puts a number behind a text.
fn append_count(head: String, n: usize) -> (r: String)
    ensures
        r@ == head@ + text::decimal(n as nat),
{
    append(head, text::decimal_text(n as u64).as_str())
}

/// Words the error of a statement.
pub fn format_error(e: &ExecError) -> (r: String)
    ensures
        r@ == error_text(*e),
{
    match e {
        ExecError::NoSuchSubject(s) => {
            let out = append("no live archetype for «".to_owned(), s.as_str());
            append(out, "»")
        },
        ExecError::MissingBudget => "EVOKE requires WITHIN budget N tokens".to_owned(),
    }
}

/// Words the recalled facts of a list.
fn format_facts<A: Arithmetic>(arith: &A, facts: &Vec<RecalledFact>) -> (r: Vec<String>)
    requires
        arithmetic::lawful(*arith),
    ensures
        text::texts_of(r@) == fact_texts(*arith, facts@),
{
    let mut out: Vec<String> = Vec::new();
    let mut i: usize = 0;
    while i < facts.len()
        invariant
            arithmetic::lawful(*arith),
            i <= facts.len(),
            out.len() == i,
            forall|k: int| 0 <= k < i ==> (#[trigger] out@[k])@ == fact_text(*arith, facts@[k]),
        decreases facts.len() - i,
    {
        let f: &RecalledFact = &facts[i];
        let t = append("«".to_owned(), f.text.as_str());
        let t = append(t, "» (");
        let t = append(t, arithmetic::spell(arith, f.score, 2).as_str());
        let t = append(t, ")");
        out.push(t);
        i += 1;
    }
    assert(text::texts_of(out@) =~= fact_texts(*arith, facts@));
    out
}

/// Words the result of a statement.
pub fn format_result<A: Arithmetic>(arith: &A, r: &ExecResult) -> (s: String)
    requires
        arithmetic::lawful(*arith),
    ensures
        s@ == result_text(*arith, *r),
{
    match r {
        ExecResult::Perceived { subject } => {
            let t = append("· perceived «".to_owned(), subject.as_str());
            append(t, "»")
        },
        ExecResult::Dreamed(b) => {
            let t = append_count("· dreamed: ".to_owned(), b.distilled_subjects);
            let t = append(t, " subject(s) consolidated, ");
            let t = append_count(t, b.perceptions_absorbed);
            let t = append(t, " perception(s) absorbed, ");
            let t = append_count(t, b.faded);
            append(t, " faded")
        },
        ExecResult::Evoked(c) => {
            let t = append("· evoked «".to_owned(), c.subject.as_str());
            let t = append(t, "»: ");
            let t = append_count(t, c.represented);
            let t = append(t, " events → ");
            let t = append_count(t, c.vectors_returned);
            let t = append(t, " vectors · ~");
            let t = append_count(t, c.token_estimate);
            let t = append(t, " tokens · compression ");
            let ratio = c.compression_ratio(arith);
            let t = append(t, arithmetic::spell(arith, ratio, 1).as_str());
            append(t, ":1")
        },
        ExecResult::Faded { swept } => {
            let t = append_count("· faded ".to_owned(), *swept);
            append(t, " perception(s)")
        },
        ExecResult::Imprinted { archetype, note } => {
            let t = append("· imprinted «".to_owned(), archetype.as_str());
            append(t, "» (consolidated essence)")
        },
        ExecResult::Recalled(facts) => {
            if facts.len() == 0 {
                "· recall: no resonating facts".to_owned()
            } else {
                let items = format_facts(arith, facts);
                let t = append_count("· recalled ".to_owned(), facts.len());
                let t = append(t, " fact(s): ");
                append(t, text::join(&items, ", ").as_str())
            }
        },
        ExecResult::Reinforced { count } => {
            let t = append_count("· reinforced ".to_owned(), *count);
            append(t, " fact(s) (decay reset)")
        },
    }
}

/// Words the outcomes of statements.
fn format_outcomes<A: Arithmetic>(
    arith: &A,
    outcomes: &Vec<Result<ExecResult, ExecError>>,
) -> (r: Vec<String>)
    requires
        arithmetic::lawful(*arith),
    ensures
        text::texts_of(r@) == outcome_texts(*arith, outcomes@),
{
    let mut out: Vec<String> = Vec::new();
    let mut i: usize = 0;
    while i < outcomes.len()
        invariant
            arithmetic::lawful(*arith),
            i <= outcomes.len(),
            out.len() == i,
            forall|k: int|
                0 <= k < i ==> (#[trigger] out@[k])@ == outcome_text(*arith, outcomes@[k]),
        decreases outcomes.len() - i,
    {
        let line = match &outcomes[i] {
            Ok(x) => format_result(arith, x),
            Err(e) => append("⚠ ".to_owned(), format_error(e).as_str()),
        };
        out.push(line);
        i += 1;
    }
    assert(text::texts_of(out@) =~= outcome_texts(*arith, outcomes@));
    out
}

/// Words the problems of a program.
fn format_problems(problems: &Vec<String>) -> (r: Vec<String>)
    ensures
        text::texts_of(r@) == problem_texts(text::texts_of(problems@)),
{
    let mut out: Vec<String> = Vec::new();
    let mut i: usize = 0;
    while i < problems.len()
        invariant
            i <= problems.len(),
            out.len() == i,
            forall|k: int| 0 <= k < i ==> (#[trigger] out@[k])@ == "⚠ "@ + problems@[k]@,
        decreases problems.len() - i,
    {
        out.push(append("⚠ ".to_owned(), problems[i].as_str()));
        i += 1;
    }
    assert(text::texts_of(out@) =~= problem_texts(text::texts_of(problems@)));
    out
}

/// Lists the subjects of a long-term memory, one per line.
fn format_subjects(store: &ArchetypeStore) -> (r: String)
    ensures
        r@ == listing(store@),
{
    let all = store.iter();
    if all.len() == 0 {
        return "(no consolidated archetypes)".to_owned();
    }
    let mut names: Vec<String> = Vec::new();
    let mut i: usize = 0;
    while i < all.len()
        invariant
            i <= all.len(),
            names.len() == i,
            forall|k: int| 0 <= k < i ==> (#[trigger] names@[k])@ == all@[k].subject@,
        decreases all.len() - i,
    {
        names.push(all[i].subject.clone());
        i += 1;
    }
    proof {
        assert forall|k: int| 0 <= k < names.len() implies #[trigger] names@[k]@
            == store@[k].subject by {
            assert(archetype::archetypes_of(selection::targets(all@))[k] == (*all@[k])@);
        }
        assert(text::texts_of(names@) =~= Seq::new(store@.len(), |i: int| store@[i].subject));
    }
    text::join(&names, "\n")
}

/// The state of a session: the runtime with its engine, the logical clock, and the directory that
/// the session saves to.
pub struct Repl<P: Provider, A: Arithmetic> {
    executor: Executor<P, A>,
    now: Tick,
    persist: Option<String>,
}

/// What an optional text holds.
pub open spec fn home_of(s: Option<String>) -> Option<Seq<char>> {
    match s {
        Some(d) => Some(d@),
        None => None,
    }
}

impl<P: Provider, A: Arithmetic> View for Repl<P, A> {
    type V = ReplView;

    closed spec fn view(&self) -> ReplView {
        ReplView { memory: self.executor@, now: self.now, home: home_of(self.persist) }
    }
}

impl<P: Provider, A: Arithmetic> Repl<P, A> {
    /// The arithmetic of the runtime.
    pub closed spec fn arithmetic(&self) -> A {
        self.executor.arithmetic()
    }

    /// The inference engine.
    pub closed spec fn engine(&self) -> P {
        self.executor.engine()
    }

    /// The runtime computes lawfully.
    pub open spec fn lawful(&self) -> bool {
        arithmetic::lawful(self.arithmetic())
    }

    /// A session over an engine, with the long-term memory that was found in its directory.
    pub fn with_provider(
        provider: P,
        persist: Option<String>,
        found: ArchetypeStore,
        arith: A,
    ) -> (r: Repl<P, A>)
        ensures
            r.arithmetic() == arith,
            r.engine() == provider,
            r@.now == Double::nought(),
            r@.home == home_of(persist),
            r@.memory.short_term.len() == 0,
            r@.memory.long_term == found@,
            r@.memory.facts.len() == 0,
            call_ensures(RuntimeConfig::default, (), r@.memory.cfg),
    {
        let mut rt = CognitiveRuntime::new(RuntimeConfig::default(), arith);
        let memory = rt.long_term_mut();
        *memory = found;
        Repl { executor: Executor::new(rt, provider), now: Double::zero(), persist }
    }

    /// The logical clock.
    pub fn now(&self) -> (r: Tick)
        ensures
            r == self@.now,
    {
        self.now
    }

    /// The directory that the session saves to, if it has one.
    pub fn home(&self) -> (r: &Option<String>)
        ensures
            home_of(*r) == self@.home,
    {
        &self.persist
    }

    /// The runtime.
    pub fn runtime(&self) -> (r: &CognitiveRuntime<A>)
        ensures
            r@ == self@.memory,
            r.arithmetic() == self.arithmetic(),
    {
        self.executor.runtime()
    }

    /// Decides what a line asks for: a command (it begins with a colon) or a program.
    pub fn eval(&mut self, input: &str) -> (r: Step)
        requires
            old(self).lawful(),
        ensures
            r@ == asked(old(self).arithmetic(), old(self)@, input@),
            final(self)@ == (ReplView {
                now: clock_after(old(self).arithmetic(), old(self)@, input@),
                ..old(self)@
            }),
            final(self).arithmetic() == old(self).arithmetic(),
            final(self).engine() == old(self).engine(),
            Double::lowest().below(old(self)@.now) ==> old(self)@.now.at_most(final(self)@.now),
    {
        proof {
            if Double::lowest().below(self@.now) {
                clock_never_runs_backwards(self.arithmetic(), self@, input@);
            }
        }
        let line = text::trim(input);
        let n: usize = line.unicode_len();
        if n == 0 {
            let none = String::new();
            assert(none@ =~= Seq::<char>::empty());
            return Step::Done(Eval::Output(none));
        }
        if line.get_char(0) == ':' {
            let rest = line.substring_char(1, n);
            assert(rest@ =~= line@.skip(1));
            return self.meta(text::trim(rest));
        }
        Step::Program { source: line.to_owned() }
    }

    /// Decides what a command asks for; `cmd` is the line behind its colon, trimmed.
    pub fn meta(&mut self, cmd: &str) -> (r: Step)
        requires
            old(self).lawful(),
        ensures
            r@ == commanded(old(self).arithmetic(), old(self)@, cmd@),
            final(self)@ == (ReplView {
                now: clock_commanded(old(self).arithmetic(), old(self)@.now, cmd@),
                ..old(self)@
            }),
            final(self).arithmetic() == old(self).arithmetic(),
            final(self).engine() == old(self).engine(),
            Double::lowest().below(old(self)@.now) ==> old(self)@.now.at_most(final(self)@.now),
    {
        proof {
            if Double::lowest().below(self@.now) {
                commands_keep_time(self.arithmetic(), self@, cmd@);
            }
        }
        let n: usize = text::first_word_length(cmd);
        let all: usize = cmd.unicode_len();
        let verb = cmd.substring_char(0, n);
        assert(verb@ =~= verb_of(cmd@));
        let mut arg: Option<String> = None;
        if n < all {
            let rest = cmd.substring_char(n + 1, all);
            assert(rest@ =~= cmd@.skip(n + 1));
            let bare = text::trim(rest);
            if bare.unicode_len() > 0 {
                arg = Some(bare.to_owned());
            }
        }
        assert(home_of(arg) == argument_of(cmd@));
        proof {
            reveal_strlit("tick");
            reveal_strlit("q");
            reveal_strlit("quit");
            reveal_strlit("exit");
            reveal_strlit("help");
            reveal_strlit("h");
            reveal_strlit("?");
            reveal_strlit("now");
            assert("quit"@[0] != "tick"@[0]);
            assert("exit"@[0] != "tick"@[0]);
            assert("help"@[0] != "tick"@[0]);
        }
        if text::same(verb, "q") || text::same(verb, "quit") || text::same(verb, "exit") {
            return Step::Done(Eval::Quit);
        }
        if text::same(verb, "help") || text::same(verb, "h") || text::same(verb, "?") {
            return Step::Done(Eval::Output(HELP.to_owned()));
        }
        if text::same(verb, "now") {
            let t = append("now = ".to_owned(), self.clock(0).as_str());
            return Step::Done(Eval::Output(append(t, "s")));
        }
        if text::same(verb, "tick") {
            let seconds: Option<Double> = match &arg {
                Some(a) => arithmetic::parse(self.executor.runtime().arith(), a.as_str()),
                None => None,
            };
            return match seconds {
                Some(s) => if Double::zero().le(s) {
                    self.now = arithmetic::plus64(self.executor.runtime().arith(), self.now, s);
                    let t = append("⏱  now = ".to_owned(), self.clock(0).as_str());
                    Step::Done(Eval::Output(append(t, "s")))
                } else {
                    Step::Done(Eval::Output("usage: :tick <seconds ≥ 0>".to_owned()))
                },
                None => Step::Done(Eval::Output("usage: :tick <seconds ≥ 0>".to_owned())),
            };
        }
        if text::same(verb, "state") {
            let rt = self.executor.runtime();
            let t = append_count("short-term: ".to_owned(), rt.short_term_len());
            let t = append(t, " perceptions · long-term: ");
            let t = append_count(t, rt.long_term_len());
            return Step::Done(Eval::Output(append(t, " archetypes")));
        }
        if text::same(verb, "subjects") {
            return Step::Done(
                Eval::Output(format_subjects(self.executor.runtime().long_term())),
            );
        }
        if text::same(verb, "save") {
            return match self.directory_for(arg) {
                Some(dir) => Step::Save { dir },
                None => Step::Done(
                    Eval::Output("usage: :save <dir>  (or start with --persist)".to_owned()),
                ),
            };
        }
        if text::same(verb, "load") {
            return match self.directory_for(arg) {
                Some(dir) => Step::Load { dir },
                None => Step::Done(
                    Eval::Output("usage: :load <dir>  (or start with --persist)".to_owned()),
                ),
            };
        }
        let t = append("unknown command: ':".to_owned(), verb);
        Step::Done(Eval::Output(append(t, "' — try :help")))
    }

    /// The clock, with so many digits behind the decimal point.
    fn clock(&self, digits: usize) -> (r: String)
        requires
            self.lawful(),
        ensures
            r@ == arithmetic::spelled(self.arithmetic(), self@.now, digits),
    {
        arithmetic::spell(self.executor.runtime().arith(), self.now, digits)
    }

    /// The directory that a command means: its argument, or the session's own.
    fn directory_for(&self, arg: Option<String>) -> (r: Option<String>)
        ensures
            home_of(r) == directory(self@, home_of(arg)),
    {
        match arg {
            Some(a) => Some(a),
            None => match &self.persist {
                Some(d) => Some(d.clone()),
                None => None,
            },
        }
    }

    /// What a save comes to: how many archetypes were saved, or why none could be.
    pub fn saved(&self, dir: &str, outcome: Result<usize, String>) -> (r: Eval)
        ensures
            r matches Eval::Output(s) && s@ == (match outcome {
                Ok(n) => "💾 saved "@ + text::decimal(n as nat) + " archetypes to "@ + dir@,
                Err(e) => "save error: "@ + e@,
            }),
    {
        match outcome {
            Ok(n) => {
                let t = append_count("💾 saved ".to_owned(), n);
                let t = append(t, " archetypes to ");
                Eval::Output(append(t, dir))
            },
            Err(e) => Eval::Output(append("save error: ".to_owned(), e.as_str())),
        }
    }

    /// What a load comes to: the long-term memory is replaced, unless it could not be read.
    pub fn loaded(&mut self, dir: &str, outcome: Result<ArchetypeStore, String>) -> (r: Eval)
        ensures
            final(self).arithmetic() == old(self).arithmetic(),
            final(self).engine() == old(self).engine(),
            match outcome {
                Ok(store) => {
                    &&& final(self)@ == (ReplView {
                        memory: RuntimeView { long_term: store@, ..old(self)@.memory },
                        ..old(self)@
                    })
                    &&& r matches Eval::Output(s) && s@ == "📂 loaded "@ + text::decimal(
                        store@.len(),
                    ) + " archetypes from "@ + dir@
                },
                Err(e) => {
                    &&& final(self)@ == old(self)@
                    &&& r matches Eval::Output(s) && s@ == "load error: "@ + e@
                },
            },
    {
        match outcome {
            Ok(store) => {
                let n: usize = store.len();
                let ghost found = store@;
                let rt = self.executor.runtime_mut();
                let memory = rt.long_term_mut();
                *memory = store;
                let t = append_count("📂 loaded ".to_owned(), n);
                let t = append(t, " archetypes from ");
                Eval::Output(append(t, dir))
            },
            Err(e) => Eval::Output(append("load error: ".to_owned(), e.as_str())),
        }
    }

    /// Whether a program can be run.
    pub fn can_run(&self, stmts: &Vec<Statement>) -> (r: bool)
        ensures
            r == exec::program_executable(self@.memory, stmts@),
    {
        self.executor.can_execute(stmts)
    }

    /// Runs a program that was parsed, unless it could not be or makes no sense: then it says why
    /// and executes nothing.
    pub fn run_mql(&mut self, parsed: &Result<Vec<Statement>, String>, problems: &Vec<String>) -> (r:
        Eval)
        requires
            old(self).lawful(),
            match *parsed {
                Ok(stmts) => problems@.len() == 0 ==> exec::program_executable(
                    old(self)@.memory,
                    stmts@,
                ),
                Err(e) => true,
            },
        ensures
            final(self).arithmetic() == old(self).arithmetic(),
            final(self).engine() == old(self).engine(),
            match *parsed {
                Err(e) => {
                    &&& final(self)@ == old(self)@
                    &&& r matches Eval::Output(s) && s@ == "⚠ syntax error: "@ + e@
                },
                Ok(stmts) => if problems@.len() > 0 {
                    &&& final(self)@ == old(self)@
                    &&& r matches Eval::Output(s) && s@ == text::joined(
                        problem_texts(text::texts_of(problems@)),
                        "\n"@,
                    )
                } else {
                    &&& final(self)@ == (ReplView { memory: final(self)@.memory, ..old(self)@ })
                    &&& exists|outcomes: Seq<Result<ExecResult, ExecError>>| #[trigger]
                        exec::runs(
                            old(self).arithmetic(),
                            old(self).engine(),
                            old(self)@.memory,
                            stmts@,
                            old(self)@.now,
                            final(self)@.memory,
                            outcomes,
                        ) && (r matches Eval::Output(s) && s@ == text::joined(
                            outcome_texts(old(self).arithmetic(), outcomes),
                            "\n"@,
                        ))
                },
            },
    {
        match parsed {
            Err(e) => Eval::Output(append("⚠ syntax error: ".to_owned(), e.as_str())),
            Ok(stmts) => {
                if problems.len() > 0 {
                    return Eval::Output(text::join(&format_problems(problems), "\n"));
                }
                let now = self.now;
                let outcomes = self.executor.execute_program(stmts, now);
                let lines = format_outcomes(self.executor.runtime().arith(), &outcomes);
                Eval::Output(text::join(&lines, "\n"))
            },
        }
    }
}

/// What a line is: nothing where it is blank, a command where it begins with a colon, and otherwise a
/// program as it stands, without surrounding white space.
pub proof fn lines_are_commands_or_programs<A: Arithmetic>(
    arith: A,
    v: ReplView,
    input: Seq<char>,
)
    ensures
        ({
            let line = text::trimmed(input);
            &&& line.len() == 0 ==> asked(arith, v, input) == StepView::Output(Seq::empty())
            &&& line.len() > 0 && line[0] != ':' ==> asked(arith, v, input) == StepView::Program(line)
            &&& line.len() > 0 && line[0] == ':' ==> asked(arith, v, input) == commanded(
                arith,
                v,
                text::trimmed(line.skip(1)),
            )
        }),
{
}

/// The verb of a command is what stands before its first white space, and the argument is what is left
/// behind it, without surrounding white space, if anything is.
pub proof fn commands_have_a_verb_and_an_argument(cmd: Seq<char>, n: int)
    requires
        0 <= n <= cmd.len(),
        forall|i: int| 0 <= i < n ==> !text::is_space(#[trigger] cmd[i]),
        n < cmd.len() ==> text::is_space(cmd[n]),
    ensures
        verb_of(cmd) == cmd.take(n),
        n == cmd.len() ==> argument_of(cmd) is None,
        n < cmd.len() ==> ({
            let rest = text::trimmed(cmd.skip(n + 1));
            argument_of(cmd) == if rest.len() > 0 {
                Some(rest)
            } else {
                None
            }
        }),
{
    words_end_at_space(cmd, n);
}

proof fn words_end_at_space(s: Seq<char>, n: int)
    requires
        0 <= n <= s.len(),
        forall|i: int| 0 <= i < n ==> !text::is_space(#[trigger] s[i]),
        n < s.len() ==> text::is_space(s[n]),
    ensures
        text::word_length(s) == n,
    decreases n,
{
    if n > 0 {
        let t = s.drop_first();
        assert forall|i: int| 0 <= i < n - 1 implies !text::is_space(#[trigger] t[i]) by {
            assert(t[i] == s[i + 1]);
        }
        words_end_at_space(t, n - 1);
    }
}

/// A session saves to and loads from the directory that the command names, or else its own, and without
/// either it says how to name one; the subjects of a memory are listed one per line, in their order.
pub proof fn sessions_save_where_they_are_told<A: Arithmetic>(
    arith: A,
    v: ReplView,
    cmd: Seq<char>,
    s: Seq<ArchetypeView>,
    a: ArchetypeView,
)
    ensures
        verb_of(cmd) == "save"@ && argument_of(cmd) is Some ==> commanded(arith, v, cmd)
            == StepView::Save(argument_of(cmd)->0),
        verb_of(cmd) == "save"@ && argument_of(cmd) is None && v.home is Some ==> commanded(
            arith,
            v,
            cmd,
        ) == StepView::Save(v.home->0),
        verb_of(cmd) == "load"@ && argument_of(cmd) is Some ==> commanded(arith, v, cmd)
            == StepView::Load(argument_of(cmd)->0),
        verb_of(cmd) == "load"@ && argument_of(cmd) is None && v.home is Some ==> commanded(
            arith,
            v,
            cmd,
        ) == StepView::Load(v.home->0),
        (verb_of(cmd) == "save"@ || verb_of(cmd) == "load"@) && argument_of(cmd) is None && v.home
            is None ==> commanded(arith, v, cmd) is Output,
        verb_of(cmd) == "subjects"@ ==> commanded(arith, v, cmd) == StepView::Output(
            listing(v.memory.long_term),
        ),
        verb_of(cmd) == "state"@ ==> commanded(arith, v, cmd) == StepView::Output(
            "short-term: "@ + text::decimal(v.memory.short_term.len())
                + " perceptions · long-term: "@ + text::decimal(v.memory.long_term.len())
                + " archetypes"@,
        ),
        listing(seq![a]) == a.subject,
        s.len() > 0 ==> listing(s.push(a)) == listing(s) + "\n"@ + a.subject,
{
    reveal_strlit("save");
    reveal_strlit("load");
    reveal_strlit("subjects");
    reveal_strlit("state");
    reveal_strlit("q");
    reveal_strlit("quit");
    reveal_strlit("exit");
    reveal_strlit("help");
    reveal_strlit("h");
    reveal_strlit("?");
    reveal_strlit("now");
    reveal_strlit("tick");
    assert("save"@[0] == 's' && "load"@[0] == 'l' && "tick"@[0] == 't' && "quit"@[0] == 'q'
        && "exit"@[0] == 'e' && "help"@[0] == 'h' && "state"@.len() == 5 && "subjects"@.len() == 8);
    text::joining_puts_separators_between(
        Seq::new(s.len(), |i: int| s[i].subject),
        "\n"@,
        a.subject,
    );
    assert(Seq::new(s.push(a).len(), |i: int| s.push(a)[i].subject) =~= Seq::new(
        s.len(),
        |i: int| s[i].subject,
    ).push(a.subject));
    assert(Seq::new(seq![a].len(), |i: int| seq![a][i].subject) =~= seq![a.subject]);
}

/// How results read: what was perceived, dreamed, evoked, faded, imprinted, recalled or reinforced, with
/// its counts in their order.
pub proof fn results_say_what_happened<A: Arithmetic>(
    arith: A,
    report: crate::runtime::BreathReport,
    c: crate::evoke::CompressedContext,
    subject: String,
    swept: usize,
    count: usize,
)
    ensures
        result_text(arith, ExecResult::Perceived { subject }) == "· perceived «"@ + subject@ + "»"@,
        result_text(arith, ExecResult::Dreamed(report)) == "· dreamed: "@ + text::decimal(
            report.distilled_subjects as nat,
        ) + " subject(s) consolidated, "@ + text::decimal(report.perceptions_absorbed as nat)
            + " perception(s) absorbed, "@ + text::decimal(report.faded as nat) + " faded"@,
        result_text(arith, ExecResult::Evoked(c)) == "· evoked «"@ + c.subject@ + "»: "@
            + text::decimal(c.represented as nat) + " events → "@ + text::decimal(
            c.vectors_returned as nat,
        ) + " vectors · ~"@ + text::decimal(c.token_estimate as nat) + " tokens · compression "@
            + arithmetic::spelled(arith, c.ratio(arith), 1) + ":1"@,
        result_text(arith, ExecResult::Faded { swept }) == "· faded "@ + text::decimal(swept as nat)
            + " perception(s)"@,
        result_text(arith, ExecResult::Reinforced { count }) == "· reinforced "@ + text::decimal(
            count as nat,
        ) + " fact(s) (decay reset)"@,
        error_text(ExecError::NoSuchSubject(subject)) == "no live archetype for «"@ + subject@
            + "»"@,
        error_text(ExecError::MissingBudget) == "EVOKE requires WITHIN budget N tokens"@,
        outcome_text(arith, Err(ExecError::MissingBudget)) == "⚠ "@ + error_text(
            ExecError::MissingBudget,
        ),
{
}

/// Recalled facts read one after the other, each word for word and with its score, behind their number.
pub proof fn recalled_facts_are_shown<A: Arithmetic>(
    arith: A,
    facts: Vec<RecalledFact>,
    i: int,
)
    ensures
        facts@.len() == 0 ==> result_text(arith, ExecResult::Recalled(facts))
            == "· recall: no resonating facts"@,
        facts@.len() > 0 ==> result_text(arith, ExecResult::Recalled(facts)) == "· recalled "@
            + text::decimal(facts@.len()) + " fact(s): "@ + text::joined(
            fact_texts(arith, facts@),
            ", "@,
        ),
        fact_texts(arith, facts@).len() == facts@.len(),
        0 <= i < facts@.len() ==> fact_texts(arith, facts@)[i] == "«"@ + facts@[i].text@ + "» ("@
            + arithmetic::spelled(arith, facts@[i].score, 2) + ")"@,
{
}

/// Outcomes and problems read in their order, one text for each.
pub proof fn outcomes_read_in_their_order<A: Arithmetic>(
    arith: A,
    s: Seq<Result<ExecResult, ExecError>>,
    problems: Seq<Seq<char>>,
    i: int,
)
    ensures
        outcome_texts(arith, s).len() == s.len(),
        0 <= i < s.len() ==> outcome_texts(arith, s)[i] == (match s[i] {
            Ok(x) => result_text(arith, x),
            Err(e) => "⚠ "@ + error_text(e),
        }),
        problem_texts(problems).len() == problems.len(),
        0 <= i < problems.len() ==> problem_texts(problems)[i] == "⚠ "@ + problems[i],
{
}

/// A listing counts its lines that are not empty: a line begins at the beginning of the text and behind
/// each line break, and a carriage return before a line break does not fill one. What stands in
/// parentheses lists nothing.
pub proof fn filled_lines_are_counted(s: String, n: int)
    requires
        0 <= n < s@.len(),
    ensures
        filled_lines(s@, 0) == 0,
        filled_lines(s@, n + 1) == filled_lines(s@, n) + (if (n == 0 || s@[n - 1] == '\n') && s@[n]
            != '\n' && !(s@[n] == '\r' && n + 1 < s@.len() && s@[n + 1] == '\n') {
            1nat
        } else {
            0nat
        }),
        Eval::Output(s).listed() == (if s@[0] == '(' {
            0
        } else {
            filled_lines(s@, s@.len() as int)
        }),
        Eval::Quit.listed() == 0,
{
}

/// What a clock command shows: `now` the clock as it stands, `tick` the clock as it then stands.
pub proof fn clocks_are_shown<A: Arithmetic>(arith: A, v: ReplView, cmd: Seq<char>)
    ensures
        verb_of(cmd) == "now"@ ==> commanded(arith, v, cmd) == StepView::Output(
            "now = "@ + arithmetic::spelled(arith, v.now, 0) + "s"@,
        ),
        verb_of(cmd) == "tick"@ && seconds_of(arith, cmd) is Some ==> commanded(arith, v, cmd)
            == StepView::Output(
            "⏱  now = "@ + arithmetic::spelled(
                arith,
                arithmetic::sum64(arith, v.now, seconds_of(arith, cmd)->0),
                0,
            ) + "s"@,
        ),
{
    reveal_strlit("q");
    reveal_strlit("quit");
    reveal_strlit("exit");
    reveal_strlit("help");
    reveal_strlit("h");
    reveal_strlit("?");
    reveal_strlit("now");
    reveal_strlit("tick");
    assert("now"@.len() == 3 && "tick"@.len() == 4 && "tick"@[0] == 't' && "quit"@[0] == 'q'
        && "exit"@[0] == 'e' && "help"@[0] == 'h');
}

/// A session is left, and explains itself, on any of the verbs for it; on a verb that it does not know it
/// says which; and without a number of seconds it says how to advance the clock.
pub proof fn sessions_are_left_and_explained<A: Arithmetic>(arith: A, v: ReplView, cmd: Seq<char>)
    ensures
        verb_of(cmd) == "q"@ || verb_of(cmd) == "quit"@ || verb_of(cmd) == "exit"@ <==> commanded(
            arith,
            v,
            cmd,
        ) is Quit,
        verb_of(cmd) == "help"@ || verb_of(cmd) == "h"@ || verb_of(cmd) == "?"@ ==> commanded(
            arith,
            v,
            cmd,
        ) == StepView::Output(HELP@),
        verb_of(cmd) == "tick"@ && seconds_of(arith, cmd) is None ==> commanded(arith, v, cmd)
            == StepView::Output("usage: :tick <seconds ≥ 0>"@),
        !(seq![
            "q"@,
            "quit"@,
            "exit"@,
            "help"@,
            "h"@,
            "?"@,
            "now"@,
            "tick"@,
            "state"@,
            "subjects"@,
            "save"@,
            "load"@,
        ]).contains(verb_of(cmd)) ==> commanded(arith, v, cmd) == StepView::Output(
            "unknown command: ':"@ + verb_of(cmd) + "' — try :help"@,
        ),
{
    reveal_strlit("q");
    reveal_strlit("quit");
    reveal_strlit("exit");
    reveal_strlit("help");
    reveal_strlit("h");
    reveal_strlit("?");
    reveal_strlit("now");
    reveal_strlit("tick");
    assert("tick"@[0] == 't' && "quit"@[0] == 'q' && "exit"@[0] == 'e' && "help"@[0] == 'h' && "h"@[0]
        == 'h' && "?"@[0] == '?' && "q"@[0] == 'q' && "now"@[0] == 'n');
    let verbs = seq![
        "q"@,
        "quit"@,
        "exit"@,
        "help"@,
        "h"@,
        "?"@,
        "now"@,
        "tick"@,
        "state"@,
        "subjects"@,
        "save"@,
        "load"@,
    ];
    assert(verbs[0] == "q"@ && verbs[1] == "quit"@ && verbs[2] == "exit"@ && verbs[3] == "help"@
        && verbs[4] == "h"@ && verbs[5] == "?"@ && verbs[6] == "now"@ && verbs[7] == "tick"@ && verbs[8]
        == "state"@ && verbs[9] == "subjects"@ && verbs[10] == "save"@ && verbs[11] == "load"@);
}

} // verus!
