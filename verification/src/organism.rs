//! The organism that breathes on its own.
//!
//! A host runs the organism in the background: it hands it commands and lets a timer fire, and the
//! organism decides when to dream. There are three causes of a breath: the basal rhythm, pressure
//! (too many perceptions since the last breath), and demand. The organism owns its runtime, and
//! learns the logical time from its host with each event.

use crate::arithmetic;
use crate::arithmetic::Arithmetic;
use crate::entropy::EntropyTrace;
use crate::entropy::Tick;
use crate::entropy::ONE;
use crate::evoke;
use crate::evoke::CompressedContext;
use crate::evoke::EvokeRequest;
use crate::number::Double;
use crate::perception;
use crate::perception::Perception;
use crate::perception::PerceptionView;
use crate::provider;
use crate::provider::Provider;
use crate::runtime;
use crate::runtime::BreathReport;
use crate::runtime::CognitiveRuntime;
use crate::runtime::RuntimeConfig;
use crate::runtime::RuntimeView;
use crate::selection;
use crate::text;
use vstd::prelude::*;

verus! {

/// Time between two basal breaths, in nanoseconds, unless configured otherwise: a minute.
pub const DEFAULT_BREATH_INTERVAL: u128 = 60_000_000_000;

/// Number of perceptions that make for pressure, unless configured otherwise.
pub const DEFAULT_PRESSURE_WATERMARK: usize = 256;

/// Capacity of the command queue, unless configured otherwise.
pub const DEFAULT_CHANNEL_CAPACITY: usize = 1024;

/// Configuration of an organism and of its host.
#[derive(Clone, Copy, Debug, PartialEq, Eq, Structural)]
pub struct AsyncConfig {
    /// Configuration of the runtime.
    pub runtime: RuntimeConfig,
    /// Time between two basal breaths, in nanoseconds.
    pub breath_interval: u128,
    /// How many perceptions since the last breath trigger one at once. 0 is never.
    pub pressure_watermark: usize,
    /// Logical seconds per second of wall clock.
    pub time_scale: Double,
    /// Capacity of the command queue.
    pub channel_capacity: usize,
}

impl Default for AsyncConfig {
    fn default() -> (r: AsyncConfig)
        ensures
            call_ensures(RuntimeConfig::default, (), r.runtime),
            r.breath_interval == DEFAULT_BREATH_INTERVAL,
            r.pressure_watermark == DEFAULT_PRESSURE_WATERMARK,
            r.time_scale == (Double { bits: ONE }),
            r.channel_capacity == DEFAULT_CHANNEL_CAPACITY,
    {
        AsyncConfig {
            runtime: RuntimeConfig::default(),
            breath_interval: DEFAULT_BREATH_INTERVAL,
            pressure_watermark: DEFAULT_PRESSURE_WATERMARK,
            time_scale: Double { bits: ONE },
            channel_capacity: DEFAULT_CHANNEL_CAPACITY,
        }
    }
}

/// What made the organism breathe.
#[derive(Clone, Copy, Debug, PartialEq, Eq, Structural)]
pub enum BreathCause {
    Basal,
    Pressure,
    OnDemand,
}

/// The organism has stopped breathing: nobody answers.
#[derive(Clone, Copy, Debug, PartialEq, Eq, Structural)]
pub struct Stopped;

impl Stopped {
    /// What the error says.
    pub fn message(&self) -> (r: String)
        ensures
            r@ == "async runtime has stopped"@,
    {
        "async runtime has stopped".to_owned()
    }
}

/// Cumulative metrics of the organism.
#[derive(Clone, Copy, Debug, PartialEq, Eq, Structural)]
pub struct Stats {
    /// Breaths, whatever their cause.
    pub breaths: u64,
    /// Breaths of the basal rhythm.
    pub breaths_basal: u64,
    /// Breaths under pressure.
    pub breaths_pressure: u64,
    /// Breaths on demand.
    pub breaths_ondemand: u64,
    /// Subjects consolidated in total.
    pub distilled_subjects: u64,
    /// Perceptions absorbed into archetypes.
    pub perceptions_absorbed: u64,
    /// Perceptions swept.
    pub faded: u64,
    /// Perceptions received since the last breath.
    pub pending: usize,
    /// Size of short-term memory.
    pub short_term_len: usize,
    /// Number of archetypes.
    pub long_term_len: usize,
}

impl Default for Stats {
    fn default() -> (r: Stats)
        ensures
            r == Stats::none(),
    {
        Stats {
            breaths: 0,
            breaths_basal: 0,
            breaths_pressure: 0,
            breaths_ondemand: 0,
            distilled_subjects: 0,
            perceptions_absorbed: 0,
            faded: 0,
            pending: 0,
            short_term_len: 0,
            long_term_len: 0,
        }
    }
}

/// One metric in the text exposition format of Prometheus: its help, its type and its value.
pub open spec fn metric(
    name: Seq<char>,
    help: Seq<char>,
    kind: Seq<char>,
    value: nat,
) -> Seq<char> {
    "# HELP letheo_"@ + name + " "@ + help + "\n"@ + "# TYPE letheo_"@ + name + " "@ + kind + "\n"@
        + "letheo_"@ + name + " "@ + text::decimal(value) + "\n"@
}

/// Writes one metric behind a text.
fn write_metric(out: &mut String, name: &str, help: &str, kind: &str, value: u64)
    ensures
        final(out)@ == old(out)@ + metric(name@, help@, kind@, value as nat),
{
    let ghost before = out@;
    out.append("# HELP letheo_");
    out.append(name);
    out.append(" ");
    out.append(help);
    out.append("\n");
    out.append("# TYPE letheo_");
    out.append(name);
    out.append(" ");
    out.append(kind);
    out.append("\n");
    out.append("letheo_");
    out.append(name);
    out.append(" ");
    out.append(text::decimal_text(value).as_str());
    out.append("\n");
    assert(out@ =~= before + metric(name@, help@, kind@, value as nat));
}

impl Stats {
    /// Nothing has happened yet.
    pub open spec fn none() -> Stats {
        Stats {
            breaths: 0,
            breaths_basal: 0,
            breaths_pressure: 0,
            breaths_ondemand: 0,
            distilled_subjects: 0,
            perceptions_absorbed: 0,
            faded: 0,
            pending: 0,
            short_term_len: 0,
            long_term_len: 0,
        }
    }

    /// Every breath has one cause.
    pub open spec fn balanced(self) -> bool {
        self.breaths == self.breaths_basal + self.breaths_pressure + self.breaths_ondemand
    }

    /// The metrics after one more breath.
    pub open spec fn after(self, cause: BreathCause, report: BreathReport) -> Stats {
        Stats {
            breaths: (self.breaths + 1) as u64,
            breaths_basal: if cause == BreathCause::Basal {
                (self.breaths_basal + 1) as u64
            } else {
                self.breaths_basal
            },
            breaths_pressure: if cause == BreathCause::Pressure {
                (self.breaths_pressure + 1) as u64
            } else {
                self.breaths_pressure
            },
            breaths_ondemand: if cause == BreathCause::OnDemand {
                (self.breaths_ondemand + 1) as u64
            } else {
                self.breaths_ondemand
            },
            distilled_subjects: (self.distilled_subjects + report.distilled_subjects) as u64,
            perceptions_absorbed: (self.perceptions_absorbed + report.perceptions_absorbed) as u64,
            faded: (self.faded + report.faded) as u64,
            ..self
        }
    }

    /// The metrics in the text exposition format of Prometheus.
    pub open spec fn exposition(self) -> Seq<char> {
        metric("breaths_total"@, "Dream cycles executed."@, "counter"@, self.breaths as nat)
            + metric(
            "breaths_basal_total"@,
            "Dreams triggered by basal interval."@,
            "counter"@,
            self.breaths_basal as nat,
        ) + metric(
            "breaths_pressure_total"@,
            "Dreams triggered by backpressure."@,
            "counter"@,
            self.breaths_pressure as nat,
        ) + metric(
            "breaths_ondemand_total"@,
            "Dreams triggered on-demand."@,
            "counter"@,
            self.breaths_ondemand as nat,
        ) + metric(
            "distilled_subjects_total"@,
            "Subjects consolidated."@,
            "counter"@,
            self.distilled_subjects as nat,
        ) + metric(
            "perceptions_absorbed_total"@,
            "Perceptions absorbed into archetypes."@,
            "counter"@,
            self.perceptions_absorbed as nat,
        ) + metric("faded_total"@, "Perceptions swept by FADE."@, "counter"@, self.faded as nat)
            + metric(
            "pending"@,
            "Unconsolidated perceptions (current pressure)."@,
            "gauge"@,
            self.pending as nat,
        ) + metric(
            "short_term_len"@,
            "Short-term memory size."@,
            "gauge"@,
            self.short_term_len as nat,
        ) + metric("long_term_len"@, "Live archetypes."@, "gauge"@, self.long_term_len as nat)
    }

    /// Renders the metrics in the text exposition format of Prometheus, to be served as they are.
    pub fn render_prometheus(&self) -> (r: String)
        ensures
            r@ == self.exposition(),
    {
        let mut s = String::new();
        write_metric(&mut s, "breaths_total", "Dream cycles executed.", "counter", self.breaths);
        write_metric(
            &mut s,
            "breaths_basal_total",
            "Dreams triggered by basal interval.",
            "counter",
            self.breaths_basal,
        );
        write_metric(
            &mut s,
            "breaths_pressure_total",
            "Dreams triggered by backpressure.",
            "counter",
            self.breaths_pressure,
        );
        write_metric(
            &mut s,
            "breaths_ondemand_total",
            "Dreams triggered on-demand.",
            "counter",
            self.breaths_ondemand,
        );
        write_metric(
            &mut s,
            "distilled_subjects_total",
            "Subjects consolidated.",
            "counter",
            self.distilled_subjects,
        );
        write_metric(
            &mut s,
            "perceptions_absorbed_total",
            "Perceptions absorbed into archetypes.",
            "counter",
            self.perceptions_absorbed,
        );
        write_metric(&mut s, "faded_total", "Perceptions swept by FADE.", "counter", self.faded);
        write_metric(
            &mut s,
            "pending",
            "Unconsolidated perceptions (current pressure).",
            "gauge",
            self.pending as u64,
        );
        write_metric(
            &mut s,
            "short_term_len",
            "Short-term memory size.",
            "gauge",
            self.short_term_len as u64,
        );
        write_metric(
            &mut s,
            "long_term_len",
            "Live archetypes.",
            "gauge",
            self.long_term_len as u64,
        );
        assert(s@ =~= self.exposition());
        s
    }
}

/// The number of line ends of a text.
pub open spec fn line_ends(s: Seq<char>) -> nat
    decreases s.len(),
{
    if s.len() == 0 {
        0
    } else {
        line_ends(s.drop_last()) + (if s.last() == '\n' {
            1nat
        } else {
            0nat
        })
    }
}

proof fn line_ends_add(a: Seq<char>, b: Seq<char>)
    ensures
        line_ends(a + b) == line_ends(a) + line_ends(b),
    decreases b.len(),
{
    if b.len() == 0 {
        assert(a + b =~= a);
    } else {
        assert((a + b).drop_last() =~= a + b.drop_last());
        line_ends_add(a, b.drop_last());
    }
}

proof fn unbroken(s: Seq<char>)
    requires
        forall|i: int| 0 <= i < s.len() ==> #[trigger] s[i] != '\n',
    ensures
        line_ends(s) == 0,
    decreases s.len(),
{
    if s.len() > 0 {
        assert(s[s.len() - 1] != '\n');
        assert forall|i: int| 0 <= i < s.drop_last().len() implies #[trigger] s.drop_last()[i]
            != '\n' by {
            assert(s[i] != '\n');
        }
        unbroken(s.drop_last());
    }
}

proof fn decimals_are_unbroken(n: nat)
    ensures
        line_ends(text::decimal(n)) == 0,
    decreases n,
{
    let s = text::decimal(n);
    assert(s.last() != '\n');
    assert(line_ends(Seq::<char>::empty()) == 0);
    if n >= 10 {
        decimals_are_unbroken(n / 10);
        assert(s.drop_last() =~= text::decimal(n / 10));
    } else {
        assert(s.drop_last() =~= Seq::empty());
    }
}

proof fn metrics_have_three_lines(
    name: Seq<char>,
    help: Seq<char>,
    kind: Seq<char>,
    value: nat,
)
    requires
        line_ends(name) == 0,
        line_ends(help) == 0,
        line_ends(kind) == 0,
    ensures
        line_ends(metric(name, help, kind, value)) == 3,
{
    reveal_strlit("# HELP letheo_");
    reveal_strlit("# TYPE letheo_");
    reveal_strlit("letheo_");
    reveal_strlit(" ");
    reveal_strlit("\n");
    unbroken("# HELP letheo_"@);
    unbroken("# TYPE letheo_"@);
    unbroken("letheo_"@);
    unbroken(" "@);
    assert("\n"@.drop_last() =~= Seq::empty());
    assert(line_ends(Seq::<char>::empty()) == 0);
    assert("\n"@.last() == '\n');
    decimals_are_unbroken(value);
    let a = "# HELP letheo_"@ + name;
    line_ends_add("# HELP letheo_"@, name);
    line_ends_add(a, " "@);
    line_ends_add(a + " "@, help);
    let b = a + " "@ + help;
    line_ends_add(b, "\n"@);
    let c = b + "\n"@;
    line_ends_add(c, "# TYPE letheo_"@);
    line_ends_add(c + "# TYPE letheo_"@, name);
    let d = c + "# TYPE letheo_"@ + name;
    line_ends_add(d, " "@);
    line_ends_add(d + " "@, kind);
    let e = d + " "@ + kind;
    line_ends_add(e, "\n"@);
    let f = e + "\n"@;
    line_ends_add(f, "letheo_"@);
    line_ends_add(f + "letheo_"@, name);
    let g = f + "letheo_"@ + name;
    line_ends_add(g, " "@);
    line_ends_add(g + " "@, text::decimal(value));
    line_ends_add(g + " "@ + text::decimal(value), "\n"@);
}

/// Whatever the metrics are, their exposition has thirty lines: ten metrics of three lines each.
pub proof fn exposition_has_thirty_lines(stats: Stats)
    ensures
        line_ends(stats.exposition()) == 30,
{
    reveal_strlit("breaths_total");
    reveal_strlit("Dream cycles executed.");
    reveal_strlit("breaths_basal_total");
    reveal_strlit("Dreams triggered by basal interval.");
    reveal_strlit("breaths_pressure_total");
    reveal_strlit("Dreams triggered by backpressure.");
    reveal_strlit("breaths_ondemand_total");
    reveal_strlit("Dreams triggered on-demand.");
    reveal_strlit("distilled_subjects_total");
    reveal_strlit("Subjects consolidated.");
    reveal_strlit("perceptions_absorbed_total");
    reveal_strlit("Perceptions absorbed into archetypes.");
    reveal_strlit("faded_total");
    reveal_strlit("Perceptions swept by FADE.");
    reveal_strlit("pending");
    reveal_strlit("Unconsolidated perceptions (current pressure).");
    reveal_strlit("short_term_len");
    reveal_strlit("Short-term memory size.");
    reveal_strlit("long_term_len");
    reveal_strlit("Live archetypes.");
    reveal_strlit("counter");
    reveal_strlit("gauge");
    unbroken("breaths_total"@);
    unbroken("Dream cycles executed."@);
    unbroken("breaths_basal_total"@);
    unbroken("Dreams triggered by basal interval."@);
    unbroken("breaths_pressure_total"@);
    unbroken("Dreams triggered by backpressure."@);
    unbroken("breaths_ondemand_total"@);
    unbroken("Dreams triggered on-demand."@);
    unbroken("distilled_subjects_total"@);
    unbroken("Subjects consolidated."@);
    unbroken("perceptions_absorbed_total"@);
    unbroken("Perceptions absorbed into archetypes."@);
    unbroken("faded_total"@);
    unbroken("Perceptions swept by FADE."@);
    unbroken("pending"@);
    unbroken("Unconsolidated perceptions (current pressure)."@);
    unbroken("short_term_len"@);
    unbroken("Short-term memory size."@);
    unbroken("long_term_len"@);
    unbroken("Live archetypes."@);
    unbroken("counter"@);
    unbroken("gauge"@);
    let m0 = metric("breaths_total"@, "Dream cycles executed."@, "counter"@, stats.breaths as nat);
    let m1 = metric(
        "breaths_basal_total"@,
        "Dreams triggered by basal interval."@,
        "counter"@,
        stats.breaths_basal as nat,
    );
    let m2 = metric(
        "breaths_pressure_total"@,
        "Dreams triggered by backpressure."@,
        "counter"@,
        stats.breaths_pressure as nat,
    );
    let m3 = metric(
        "breaths_ondemand_total"@,
        "Dreams triggered on-demand."@,
        "counter"@,
        stats.breaths_ondemand as nat,
    );
    let m4 = metric(
        "distilled_subjects_total"@,
        "Subjects consolidated."@,
        "counter"@,
        stats.distilled_subjects as nat,
    );
    let m5 = metric(
        "perceptions_absorbed_total"@,
        "Perceptions absorbed into archetypes."@,
        "counter"@,
        stats.perceptions_absorbed as nat,
    );
    let m6 = metric(
        "faded_total"@,
        "Perceptions swept by FADE."@,
        "counter"@,
        stats.faded as nat,
    );
    let m7 = metric(
        "pending"@,
        "Unconsolidated perceptions (current pressure)."@,
        "gauge"@,
        stats.pending as nat,
    );
    let m8 = metric(
        "short_term_len"@,
        "Short-term memory size."@,
        "gauge"@,
        stats.short_term_len as nat,
    );
    let m9 = metric("long_term_len"@, "Live archetypes."@, "gauge"@, stats.long_term_len as nat);
    metrics_have_three_lines(
        "breaths_total"@,
        "Dream cycles executed."@,
        "counter"@,
        stats.breaths as nat,
    );
    metrics_have_three_lines(
        "breaths_basal_total"@,
        "Dreams triggered by basal interval."@,
        "counter"@,
        stats.breaths_basal as nat,
    );
    metrics_have_three_lines(
        "breaths_pressure_total"@,
        "Dreams triggered by backpressure."@,
        "counter"@,
        stats.breaths_pressure as nat,
    );
    metrics_have_three_lines(
        "breaths_ondemand_total"@,
        "Dreams triggered on-demand."@,
        "counter"@,
        stats.breaths_ondemand as nat,
    );
    metrics_have_three_lines(
        "distilled_subjects_total"@,
        "Subjects consolidated."@,
        "counter"@,
        stats.distilled_subjects as nat,
    );
    metrics_have_three_lines(
        "perceptions_absorbed_total"@,
        "Perceptions absorbed into archetypes."@,
        "counter"@,
        stats.perceptions_absorbed as nat,
    );
    metrics_have_three_lines(
        "faded_total"@,
        "Perceptions swept by FADE."@,
        "counter"@,
        stats.faded as nat,
    );
    metrics_have_three_lines(
        "pending"@,
        "Unconsolidated perceptions (current pressure)."@,
        "gauge"@,
        stats.pending as nat,
    );
    metrics_have_three_lines(
        "short_term_len"@,
        "Short-term memory size."@,
        "gauge"@,
        stats.short_term_len as nat,
    );
    metrics_have_three_lines(
        "long_term_len"@,
        "Live archetypes."@,
        "gauge"@,
        stats.long_term_len as nat,
    );
    line_ends_add(m0, m1);
    line_ends_add(m0 + m1, m2);
    line_ends_add(m0 + m1 + m2, m3);
    line_ends_add(m0 + m1 + m2 + m3, m4);
    line_ends_add(m0 + m1 + m2 + m3 + m4, m5);
    line_ends_add(m0 + m1 + m2 + m3 + m4 + m5, m6);
    line_ends_add(m0 + m1 + m2 + m3 + m4 + m5 + m6, m7);
    line_ends_add(m0 + m1 + m2 + m3 + m4 + m5 + m6 + m7, m8);
    line_ends_add(m0 + m1 + m2 + m3 + m4 + m5 + m6 + m7 + m8, m9);
}

/// A command to the organism.
#[derive(Debug)]
pub enum Command {
    /// Assimilates a stimulus that is embedded already.
    Perceive(Perception),
    /// Embeds a text and assimilates it.
    PerceiveText { subject: String, text: String, salience: Double, halflife: Double },
    /// Breathes on demand, for some subjects or for all that were ever seen.
    Breathe { subjects: Option<Vec<String>> },
    /// Resolves the essence of a subject.
    Evoke { req: EvokeRequest },
    /// Takes the metrics.
    Measure,
}

/// What the organism answers a command.
#[derive(Debug)]
pub enum Answer {
    Done,
    Breathed(BreathReport),
    Evoked(Option<CompressedContext>),
    Measured(Stats),
}

/// What a memory is after a breath for subjects.
pub open spec fn rested<A: Arithmetic>(
    arith: A,
    m: RuntimeView,
    subjects: Seq<Seq<char>>,
    now: Tick,
) -> RuntimeView {
    RuntimeView {
        short_term: m.short_term.filter(perception::alive_at(arith, now, m.cfg.theta_fade)),
        long_term: runtime::dreamt(
            arith,
            m.long_term,
            m.short_term,
            subjects,
            now,
            m.cfg,
            runtime::everything(),
        ).long_term,
        ..m
    }
}

/// What a breath for subjects reports.
pub open spec fn report_of<A: Arithmetic>(
    arith: A,
    m: RuntimeView,
    subjects: Seq<Seq<char>>,
    now: Tick,
) -> BreathReport {
    let d = runtime::dreamt(
        arith,
        m.long_term,
        m.short_term,
        subjects,
        now,
        m.cfg,
        runtime::everything(),
    );
    BreathReport {
        distilled_subjects: d.distilled as usize,
        perceptions_absorbed: d.absorbed as usize,
        faded: (m.short_term.len() - rested(arith, m, subjects, now).short_term.len()) as usize,
    }
}

/// What an organism holds.
#[verifier::ext_equal]
pub struct OrganismView {
    pub memory: RuntimeView,
    /// The subjects that were ever perceived, in the order in which each came up first.
    pub subjects: Seq<Seq<char>>,
    /// Perceptions received since the last breath.
    pub pending: usize,
    /// Metrics of the breaths.
    pub stats: Stats,
    pub cfg: AsyncConfig,
}

impl OrganismView {
    /// The memory can dream of subjects over so many perceptions, and the counts of the metrics have
    /// room for the breath.
    pub open spec fn has_breath(self, subjects: Seq<Seq<char>>, perceptions: nat) -> bool {
        &&& self.memory.can_dream_over(subjects, perceptions)
        &&& self.stats.breaths < u64::MAX
        &&& self.stats.distilled_subjects + subjects.len() <= u64::MAX
        &&& self.stats.perceptions_absorbed + subjects.len() * perceptions <= u64::MAX
        &&& self.stats.faded + perceptions <= u64::MAX
    }

    /// The organism after a breath for subjects.
    pub open spec fn breathed<A: Arithmetic>(
        self,
        arith: A,
        subjects: Seq<Seq<char>>,
        cause: BreathCause,
        now: Tick,
    ) -> OrganismView {
        OrganismView {
            memory: rested(arith, self.memory, subjects, now),
            pending: 0,
            stats: self.stats.after(cause, report_of(arith, self.memory, subjects, now)),
            ..self
        }
    }

    /// Whether so many perceptions since the last breath make for pressure.
    pub open spec fn presses(self, pending: nat) -> bool {
        self.cfg.pressure_watermark > 0 && pending >= self.cfg.pressure_watermark
    }

    /// The subjects that were ever perceived, with one more.
    pub open spec fn met(self, subject: Seq<char>) -> Seq<Seq<char>> {
        if self.subjects.contains(subject) {
            self.subjects
        } else {
            self.subjects.push(subject)
        }
    }

    /// The organism after a perception was taken in, before it answers to pressure.
    pub open spec fn noticed(self, p: Perception) -> OrganismView {
        OrganismView {
            memory: RuntimeView { short_term: self.memory.short_term.push(p), ..self.memory },
            subjects: self.met(p.subject@),
            pending: (self.pending + 1) as usize,
            ..self
        }
    }

    /// The organism after a perception: under pressure it breathes at once, for all subjects.
    pub open spec fn ingested<A: Arithmetic>(
        self,
        arith: A,
        p: Perception,
        now: Tick,
    ) -> OrganismView {
        let o = self.noticed(p);
        if o.presses(o.pending as nat) {
            o.breathed(arith, o.subjects, BreathCause::Pressure, now)
        } else {
            o
        }
    }

    /// The metrics with the present sizes.
    pub open spec fn measured(self) -> Stats {
        Stats {
            pending: self.pending,
            short_term_len: self.memory.short_term.len() as usize,
            long_term_len: self.memory.long_term.len() as usize,
            ..self.stats
        }
    }

    /// A perception of a subject can be counted, and answered with a breath where it must be.
    pub open spec fn can_ingest(self, subject: Seq<char>) -> bool {
        &&& self.pending < usize::MAX
        &&& self.presses((self.pending + 1) as nat) ==> self.has_breath(
            self.met(subject),
            self.memory.short_term.len() + 1,
        )
    }

    /// The command can be carried out: half-lives are positive, and counts have room.
    pub open spec fn can_handle(self, cmd: Command) -> bool {
        match cmd {
            Command::Perceive(p) => self.can_ingest(p.subject@),
            Command::PerceiveText { subject, text, salience, halflife } => Double::nought().below(
                halflife,
            ) && self.can_ingest(subject@),
            Command::Breathe { subjects } => self.has_breath(
                match subjects {
                    Some(s) => text::texts_of(s@),
                    None => self.subjects,
                },
                self.memory.short_term.len(),
            ),
            _ => true,
        }
    }
}

/// What a command does, and what is answered.
pub open spec fn handles<A: Arithmetic, P: Provider>(
    arith: A,
    engine: P,
    before: OrganismView,
    cmd: Command,
    now: Tick,
    after: OrganismView,
    r: Answer,
) -> bool {
    match cmd {
        Command::Perceive(p) => r is Done && after == before.ingested(arith, p, now),
        Command::PerceiveText { subject, text, salience, halflife } => r is Done && exists|
            p: Perception,
        |
            {
                &&& after == #[trigger] before.ingested(arith, p, now)
                &&& provider::embeds(engine, text@, p@.embedding)
                &&& p@ == (PerceptionView {
                    subject: subject@,
                    embedding: p@.embedding,
                    traits: Map::empty(),
                    trace: EntropyTrace::fresh(arith, salience, halflife, now),
                })
            },
        Command::Breathe { subjects } => {
            let about = match subjects {
                Some(s) => text::texts_of(s@),
                None => before.subjects,
            };
            &&& after == before.breathed(arith, about, BreathCause::OnDemand, now)
            &&& r matches Answer::Breathed(report) && report == report_of(
                arith,
                before.memory,
                about,
                now,
            )
        },
        Command::Evoke { req } => after == before && (r matches Answer::Evoked(c)
            && evoke::context_in(c) == evoke::evoked(arith, before.memory.long_term, req@, now)),
        Command::Measure => after == before && (r matches Answer::Measured(stats) && stats
            == before.measured()),
    }
}

/// Borrows each text of a list.
fn borrowed<'a>(texts: &'a Vec<String>) -> (r: Vec<&'a str>)
    ensures
        text::names_of(r@) == text::texts_of(texts@),
        r.len() == texts.len(),
{
    let mut refs: Vec<&str> = Vec::new();
    let mut i: usize = 0;
    while i < texts.len()
        invariant
            i <= texts.len(),
            refs.len() == i,
            forall|k: int| 0 <= k < i ==> (#[trigger] refs@[k])@ == texts@[k]@,
        decreases texts.len() - i,
    {
        refs.push(texts[i].as_str());
        i += 1;
    }
    assert(text::names_of(refs@) =~= text::texts_of(texts@));
    refs
}

/// The organism: the exclusive owner of a runtime.
pub struct Organism<P: Provider, A: Arithmetic> {
    rt: CognitiveRuntime<A>,
    provider: P,
    cfg: AsyncConfig,
    subjects: Vec<String>,
    pending: usize,
    stats: Stats,
}

impl<P: Provider, A: Arithmetic> View for Organism<P, A> {
    type V = OrganismView;

    closed spec fn view(&self) -> OrganismView {
        OrganismView {
            memory: self.rt@,
            subjects: text::texts_of(self.subjects@),
            pending: self.pending,
            stats: self.stats,
            cfg: self.cfg,
        }
    }
}

impl<P: Provider, A: Arithmetic> Organism<P, A> {
    /// The arithmetic of the runtime.
    pub closed spec fn arithmetic(&self) -> A {
        self.rt.arithmetic()
    }

    /// The inference engine.
    pub closed spec fn engine(&self) -> P {
        self.provider
    }

    /// The runtime computes lawfully, and the counts of every milestone add up; every breath has one cause; no subject
    /// is noted twice.
    pub open spec fn sound(&self) -> bool {
        &&& arithmetic::lawful(self.arithmetic())
        &&& forall|n: Seq<char>| #[trigger] self@.memory.countable_about(n)
        &&& self@.stats.balanced()
        &&& self@.subjects.no_duplicates()
    }

    /// A newborn organism.
    pub fn new(provider: P, cfg: AsyncConfig, arith: A) -> (r: Organism<P, A>)
        requires
            arithmetic::lawful(arith),
        ensures
            r.sound(),
            r.arithmetic() == arith,
            r.engine() == provider,
            r@.subjects.len() == 0,
            r@.pending == 0,
            r@.stats == Stats::none(),
            r@.cfg == cfg,
            r@.memory.short_term.len() == 0,
            r@.memory.long_term.len() == 0,
            r@.memory.facts.len() == 0,
            r@.memory.cfg == cfg.runtime,
    {
        Organism {
            rt: CognitiveRuntime::new(cfg.runtime, arith),
            provider,
            cfg,
            subjects: Vec::new(),
            pending: 0,
            stats: Stats::default(),
        }
    }

    /// The logical time after so many seconds of wall clock.
    pub fn now(&self, elapsed: Double) -> (r: Tick)
        requires
            arithmetic::lawful(self.arithmetic()),
        ensures
            r == arithmetic::product64(self.arithmetic(), elapsed, self@.cfg.time_scale),
    {
        arithmetic::times64(self.rt.arith(), elapsed, self.cfg.time_scale)
    }

    /// Whether there is room for a breath of subjects over so many perceptions.
    fn breath_left(&self, subjects: &[&str], perceptions: u128) -> (r: bool)
        requires
            perceptions <= usize::MAX + 1,
        ensures
            r == self@.has_breath(text::names_of(subjects@), perceptions as nat),
    {
        if !self.rt.ready_over(subjects, perceptions) {
            return false;
        }
        let n: usize = subjects.len();
        assert(0 <= n * perceptions <= 0xffff_ffff_ffff_ffff * 0x1_0000_0000_0000_0000)
            by (nonlinear_arith)
            requires
                0 <= n <= 0xffff_ffff_ffff_ffff,
                0 <= perceptions <= 0x1_0000_0000_0000_0000,
        ;
        let load: u128 = (n as u128) * perceptions;
        let room: u128 = u64::MAX as u128;
        self.stats.breaths < u64::MAX && self.stats.distilled_subjects as u128 + n as u128 <= room
            && self.stats.perceptions_absorbed as u128 + load <= room && self.stats.faded as u128
            + perceptions <= room
    }

    /// Whether the organism can breathe for all subjects.
    pub fn can_breathe(&self) -> (r: bool)
        ensures
            r == self@.has_breath(self@.subjects, self@.memory.short_term.len()),
    {
        let refs = borrowed(&self.subjects);
        self.breath_left(refs.as_slice(), self.rt.short_term_len() as u128)
    }

    /// Whether a perception of a subject can be counted, and answered where it must be.
    fn can_take(&self, subject: &str) -> (r: bool)
        ensures
            r == self@.can_ingest(subject@),
    {
        if self.pending == usize::MAX {
            return false;
        }
        if self.cfg.pressure_watermark == 0 || self.pending + 1 < self.cfg.pressure_watermark {
            return true;
        }
        let held: u128 = self.rt.short_term_len() as u128 + 1;
        let mut refs = borrowed(&self.subjects);
        if !text::listed(&self.subjects, subject) {
            refs.push(subject);
        }
        assert(text::names_of(refs@) =~= self@.met(subject@));
        self.breath_left(refs.as_slice(), held)
    }

    /// Whether a command can be carried out.
    pub fn can_carry_out(&self, cmd: &Command) -> (r: bool)
        ensures
            r == self@.can_handle(*cmd),
    {
        match cmd {
            Command::Perceive(p) => self.can_take(p.subject.as_str()),
            Command::PerceiveText { subject, text, salience, halflife } => Double::zero().lt(
                *halflife,
            ) && self.can_take(subject.as_str()),
            Command::Breathe { subjects } => {
                let held: u128 = self.rt.short_term_len() as u128;
                match subjects {
                    Some(s) => {
                        let refs = borrowed(s);
                        self.breath_left(refs.as_slice(), held)
                    },
                    None => self.can_breathe(),
                }
            },
            Command::Evoke { req } => true,
            Command::Measure => true,
        }
    }

    /// Carries out a command at `now`.
    pub fn handle(&mut self, cmd: Command, now: Tick) -> (r: Answer)
        requires
            old(self).sound(),
            old(self)@.can_handle(cmd),
        ensures
            final(self).sound(),
            final(self).arithmetic() == old(self).arithmetic(),
            final(self).engine() == old(self).engine(),
            handles(
                old(self).arithmetic(),
                old(self).engine(),
                old(self)@,
                cmd,
                now,
                final(self)@,
                r,
            ),
    {
        match cmd {
            Command::Perceive(p) => {
                self.ingest(p, now);
                Answer::Done
            },
            Command::PerceiveText { subject, text, salience, halflife } => {
                let embedding = provider::embed(&self.provider, text.as_str());
                let p = Perception::new(
                    self.rt.arith(),
                    subject.as_str(),
                    embedding,
                    salience,
                    halflife,
                    now,
                );
                self.ingest(p, now);
                Answer::Done
            },
            Command::Breathe { subjects } => match subjects {
                Some(s) => Answer::Breathed(self.breathe_some(&s, BreathCause::OnDemand, now)),
                None => Answer::Breathed(self.breathe_all(BreathCause::OnDemand, now)),
            },
            Command::Evoke { req } => Answer::Evoked(self.rt.evoke(&req, now)),
            Command::Measure => Answer::Measured(self.snapshot()),
        }
    }

    /// Takes in a perception. Too many since the last breath, and the organism breathes at once.
    pub fn ingest(&mut self, p: Perception, now: Tick)
        requires
            old(self).sound(),
            old(self)@.can_ingest(p.subject@),
        ensures
            final(self).sound(),
            final(self).arithmetic() == old(self).arithmetic(),
            final(self).engine() == old(self).engine(),
            final(self)@ == old(self)@.ingested(old(self).arithmetic(), p, now),
    {
        let ghost before = self@;
        let ghost seen = p;
        if !text::listed(&self.subjects, p.subject.as_str()) {
            self.subjects.push(p.subject.clone());
            assert(text::texts_of(self.subjects@) =~= before.subjects.push(seen.subject@));
        }
        self.rt.perceive(p);
        self.pending = self.pending + 1;
        assert(self@ =~= before.noticed(seen));
        assert forall|n: Seq<char>| #[trigger] self@.memory.countable_about(n) by {
            assert(before.memory.countable_about(n));
        }
        if self.cfg.pressure_watermark > 0 && self.pending >= self.cfg.pressure_watermark {
            let _ = self.breathe_all(BreathCause::Pressure, now);
        }
    }

    /// Breathes for all subjects that were ever perceived.
    pub fn breathe_all(&mut self, cause: BreathCause, now: Tick) -> (r: BreathReport)
        requires
            old(self).sound(),
            old(self)@.has_breath(old(self)@.subjects, old(self)@.memory.short_term.len()),
        ensures
            final(self).sound(),
            final(self).arithmetic() == old(self).arithmetic(),
            final(self).engine() == old(self).engine(),
            final(self)@ == old(self)@.breathed(
                old(self).arithmetic(),
                old(self)@.subjects,
                cause,
                now,
            ),
            r == report_of(old(self).arithmetic(), old(self)@.memory, old(self)@.subjects, now),
    {
        let subjects = text::copy_texts(&self.subjects);
        self.breathe_some(&subjects, cause, now)
    }

    /// Breathes for some subjects.
    pub fn breathe_some(&mut self, subjects: &Vec<String>, cause: BreathCause, now: Tick) -> (r:
        BreathReport)
        requires
            old(self).sound(),
            old(self)@.has_breath(
                text::texts_of(subjects@),
                old(self)@.memory.short_term.len(),
            ),
        ensures
            final(self).sound(),
            final(self).arithmetic() == old(self).arithmetic(),
            final(self).engine() == old(self).engine(),
            final(self)@ == old(self)@.breathed(
                old(self).arithmetic(),
                text::texts_of(subjects@),
                cause,
                now,
            ),
            r == report_of(
                old(self).arithmetic(),
                old(self)@.memory,
                text::texts_of(subjects@),
                now,
            ),
    {
        let ghost before = self@;
        let ghost arith = self.arithmetic();
        let ghost names = text::texts_of(subjects@);
        let refs = borrowed(subjects);
        proof {
            let n = before.memory.short_term.len();
            let seen = runtime::seen_in(
                arith,
                before.memory.short_term,
                names,
                now,
                before.memory.cfg,
                runtime::everything(),
            );
            assert forall|k: int| 0 <= k < names.len() implies (#[trigger] seen[k]).len() <= n by {
                selection::filter_is_shorter(
                    before.memory.short_term,
                    perception::alive_where(
                        arith,
                        names[k],
                        now,
                        before.memory.cfg.theta_fade,
                        runtime::everything(),
                    ),
                );
            }
            runtime::dreaming_fits(
                arith,
                before.memory.long_term,
                names,
                seen,
                now,
                before.memory.cfg,
                n,
                (usize::MAX - names.len() * n) as nat,
            );
            selection::filter_is_shorter(
                before.memory.short_term,
                perception::alive_at(arith, now, before.memory.cfg.theta_fade),
            );
        }
        let report = self.rt.breathe(refs.as_slice(), now);
        self.stats.breaths = self.stats.breaths + 1;
        match cause {
            BreathCause::Basal => {
                self.stats.breaths_basal = self.stats.breaths_basal + 1;
            },
            BreathCause::Pressure => {
                self.stats.breaths_pressure = self.stats.breaths_pressure + 1;
            },
            BreathCause::OnDemand => {
                self.stats.breaths_ondemand = self.stats.breaths_ondemand + 1;
            },
        }
        self.stats.distilled_subjects =
        self.stats.distilled_subjects + report.distilled_subjects as u64;
        self.stats.perceptions_absorbed =
        self.stats.perceptions_absorbed + report.perceptions_absorbed as u64;
        self.stats.faded = self.stats.faded + report.faded as u64;
        self.pending = 0;
        report
    }

    /// The metrics with the present sizes.
    pub fn snapshot(&self) -> (r: Stats)
        ensures
            r == self@.measured(),
    {
        let mut s = self.stats;
        s.pending = self.pending;
        s.short_term_len = self.rt.short_term_len();
        s.long_term_len = self.rt.long_term_len();
        s
    }
}

/// Pressure is answered at once and released by the answer: after a perception the organism is never
/// under pressure. It breathes exactly if the perception brings the pending ones to the watermark,
/// and otherwise just counts it.
pub proof fn pressure_is_released<A: Arithmetic>(
    arith: A,
    o: OrganismView,
    p: Perception,
    now: Tick,
)
    requires
        o.can_ingest(p.subject@),
        o.stats.balanced(),
    ensures
        ({
            let after = o.ingested(arith, p, now);
            &&& !after.presses(after.pending as nat)
            &&& if o.presses((o.pending + 1) as nat) {
                &&& after.pending == 0
                &&& after.stats.breaths == o.stats.breaths + 1
                &&& after.stats.breaths_pressure == o.stats.breaths_pressure + 1
                &&& after.stats.breaths_basal == o.stats.breaths_basal
                &&& after.stats.breaths_ondemand == o.stats.breaths_ondemand
            } else {
                &&& after.pending == o.pending + 1
                &&& after.stats == o.stats
                &&& after.memory.long_term == o.memory.long_term
            }
            &&& after.stats.balanced()
            &&& after.subjects.contains(p.subject@)
        }),
{
    let n = o.noticed(p);
    if o.subjects.contains(p.subject@) {
        assert(n.subjects.contains(p.subject@));
    } else {
        assert(n.subjects[o.subjects.len() as int] == p.subject@);
    }
}

/// A breath is counted once, under its cause and no other, with what it reports; it releases all pressure
/// and forgets none of the subjects.
pub proof fn breaths_are_counted<A: Arithmetic>(
    arith: A,
    o: OrganismView,
    subjects: Seq<Seq<char>>,
    cause: BreathCause,
    now: Tick,
)
    requires
        o.stats.balanced(),
        o.stats.breaths < u64::MAX,
        ({
            let report = report_of(arith, o.memory, subjects, now);
            &&& o.stats.distilled_subjects + report.distilled_subjects <= u64::MAX
            &&& o.stats.perceptions_absorbed + report.perceptions_absorbed <= u64::MAX
            &&& o.stats.faded + report.faded <= u64::MAX
        }),
    ensures
        ({
            let after = o.breathed(arith, subjects, cause, now);
            let report = report_of(arith, o.memory, subjects, now);
            let one = |c: BreathCause|
                if cause == c {
                    1int
                } else {
                    0int
                };
            &&& after.pending == 0
            &&& after.subjects == o.subjects
            &&& after.cfg == o.cfg
            &&& after.stats.breaths == o.stats.breaths + 1
            &&& after.stats.breaths_basal == o.stats.breaths_basal + one(BreathCause::Basal)
            &&& after.stats.breaths_pressure == o.stats.breaths_pressure + one(
                BreathCause::Pressure,
            )
            &&& after.stats.breaths_ondemand == o.stats.breaths_ondemand + one(
                BreathCause::OnDemand,
            )
            &&& after.stats.distilled_subjects == o.stats.distilled_subjects
                + report.distilled_subjects
            &&& after.stats.perceptions_absorbed == o.stats.perceptions_absorbed
                + report.perceptions_absorbed
            &&& after.stats.faded == o.stats.faded + report.faded
            &&& after.memory == rested(arith, o.memory, subjects, now)
        }),
{
}

/// What a breath leaves and reports: short-term memory keeps exactly what weighs the threshold or more,
/// the facts and the configuration stay, long-term memory is what the dream of the subjects over all
/// that lives left, and the report counts what was distilled, absorbed and swept.
pub proof fn breaths_dream_and_sweep<A: Arithmetic>(
    arith: A,
    m: RuntimeView,
    subjects: Seq<Seq<char>>,
    now: Tick,
    p: Perception,
)
    requires
        m.short_term.len() <= usize::MAX,
    ensures
        ({
            let after = rested(arith, m, subjects, now);
            let report = report_of(arith, m, subjects, now);
            let d = runtime::dreamt_of(
                arith,
                m.long_term,
                subjects,
                runtime::seen_in(
                    arith,
                    m.short_term,
                    subjects,
                    now,
                    m.cfg,
                    |q: Perception| true,
                ),
                now,
                m.cfg,
            );
            &&& after.short_term.contains(p) <==> m.short_term.contains(p)
                && m.cfg.theta_fade.at_most(p.trace.life(arith, now))
            &&& after.facts == m.facts
            &&& after.sameness == m.sameness
            &&& after.cfg == m.cfg
            &&& after.long_term == d.long_term
            &&& report.distilled_subjects == d.distilled as usize
            &&& report.perceptions_absorbed == d.absorbed as usize
            &&& report.faded == m.short_term.len() - after.short_term.len()
        }),
{
    let kept = perception::alive_at(arith, now, m.cfg.theta_fade);
    selection::filter_members(m.short_term, kept, p);
    selection::filter_is_shorter(m.short_term, kept);
    let all = |q: Perception| true;
    assert(all =~= runtime::everything());
}

/// Whom the organism has met: a subject is noted when it comes up first, behind the others, and never
/// twice; the perception joins short-term memory behind the others and is counted as pending.
pub proof fn subjects_are_noted_once(o: OrganismView, p: Perception)
    requires
        o.subjects.no_duplicates(),
        o.pending < usize::MAX,
    ensures
        ({
            let after = o.noticed(p);
            &&& after.subjects.no_duplicates()
            &&& after.subjects.contains(p.subject@)
            &&& o.subjects.contains(p.subject@) ==> after.subjects == o.subjects
            &&& !o.subjects.contains(p.subject@) ==> after.subjects.len() == o.subjects.len() + 1
                && after.subjects.last() == p.subject@
            &&& forall|i: int|
                0 <= i < o.subjects.len() ==> #[trigger] after.subjects[i] == o.subjects[i]
            &&& after.memory.short_term == o.memory.short_term.push(p)
            &&& after.memory.long_term == o.memory.long_term
            &&& after.memory.facts == o.memory.facts
            &&& after.pending == o.pending + 1
            &&& after.stats == o.stats
        }),
{
    let after = o.noticed(p);
    if !o.subjects.contains(p.subject@) {
        assert(after.subjects[o.subjects.len() as int] == p.subject@);
    }
}

/// Pressure: only where a watermark is set, and from it on.
pub proof fn pressure_begins_at_the_watermark(o: OrganismView, pending: nat)
    ensures
        o.cfg.pressure_watermark == 0 ==> !o.presses(pending),
        o.cfg.pressure_watermark > 0 ==> (o.presses(pending) <==> pending
            >= o.cfg.pressure_watermark),
{
}

/// Metrics show the present: what is pending, and how large each memory is, beside the counts of the
/// breaths.
pub proof fn metrics_show_the_present(o: OrganismView)
    requires
        o.memory.short_term.len() <= usize::MAX,
        o.memory.long_term.len() <= usize::MAX,
    ensures
        ({
            let m = o.measured();
            &&& m.pending == o.pending
            &&& m.short_term_len == o.memory.short_term.len()
            &&& m.long_term_len == o.memory.long_term.len()
            &&& m.breaths == o.stats.breaths
            &&& m.breaths_basal == o.stats.breaths_basal
            &&& m.breaths_pressure == o.stats.breaths_pressure
            &&& m.breaths_ondemand == o.stats.breaths_ondemand
            &&& m.distilled_subjects == o.stats.distilled_subjects
            &&& m.perceptions_absorbed == o.stats.perceptions_absorbed
            &&& m.faded == o.stats.faded
        }),
{
}

/// Commands: asking for an essence or for metrics changes nothing; a breath on demand is for the subjects
/// that are named, or for all that were ever met; a text is perceived as a stimulus without traits, of the
/// given salience and half-life, and any stimulus is answered to pressure at once.
pub proof fn commands_do_what_they_say<A: Arithmetic, P: Provider>(
    arith: A,
    engine: P,
    before: OrganismView,
    cmd: Command,
    now: Tick,
    after: OrganismView,
    r: Answer,
)
    requires
        handles(arith, engine, before, cmd, now, after, r),
    ensures
        match cmd {
            Command::Perceive(p) => r is Done && after == before.ingested(arith, p, now),
            Command::PerceiveText { subject, text, salience, halflife } => r is Done && exists|
                p: Perception,
            |
                {
                    &&& after == #[trigger] before.ingested(arith, p, now)
                    &&& provider::embeds(engine, text@, p@.embedding)
                    &&& p.subject@ == subject@
                    &&& p@.traits.dom().len() == 0
                    &&& p.trace.salience == salience
                    &&& p.trace.lambda == arithmetic::quotient64(
                        arith,
                        Double { bits: crate::entropy::LN2 },
                        halflife,
                    )
                    &&& p.trace.last_touch == now
                },
            Command::Breathe { subjects } => {
                let about = match subjects {
                    Some(s) => text::texts_of(s@),
                    None => before.subjects,
                };
                &&& after.memory == rested(arith, before.memory, about, now)
                &&& after.stats.breaths_basal == before.stats.breaths_basal
                &&& after.stats.breaths_pressure == before.stats.breaths_pressure
                &&& after.pending == 0
                &&& r matches Answer::Breathed(report) && report == report_of(
                    arith,
                    before.memory,
                    about,
                    now,
                )
            },
            Command::Evoke { req } => after == before && (r matches Answer::Evoked(c)
                && evoke::context_in(c) == evoke::evoked(
                arith,
                before.memory.long_term,
                req@,
                now,
            )),
            Command::Measure => after == before && (r matches Answer::Measured(s) && s
                == before.measured()),
        },
{
    match cmd {
        Command::PerceiveText { subject, text, salience, halflife } => {
            let p = choose|p: Perception|
                {
                    &&& after == #[trigger] before.ingested(arith, p, now)
                    &&& provider::embeds(engine, text@, p@.embedding)
                    &&& p@ == (PerceptionView {
                        subject: subject@,
                        embedding: p@.embedding,
                        traits: Map::empty(),
                        trace: EntropyTrace::fresh(arith, salience, halflife, now),
                    })
                };
            assert(p@.subject == subject@ && p@.trace == p.trace);
        },
        _ => {},
    }
}

/// The exposition shows each metric under its name: ten blocks, each with the help, the type and the value
/// of its metric, counters before gauges.
pub proof fn expositions_show_each_metric(s: Stats)
    ensures
        ({
            let counter = |name: Seq<char>, help: Seq<char>, value: int|
                "# HELP letheo_"@ + name + " "@ + help + "\n# TYPE letheo_"@ + name
                    + " counter\nletheo_"@ + name + " "@ + text::decimal(value as nat) + "\n"@;
            let gauge = |name: Seq<char>, help: Seq<char>, value: int|
                "# HELP letheo_"@ + name + " "@ + help + "\n# TYPE letheo_"@ + name
                    + " gauge\nletheo_"@ + name + " "@ + text::decimal(value as nat) + "\n"@;
            s.exposition() == counter(
                "breaths_total"@,
                "Dream cycles executed."@,
                s.breaths as int,
            ) + counter(
                "breaths_basal_total"@,
                "Dreams triggered by basal interval."@,
                s.breaths_basal as int,
            ) + counter(
                "breaths_pressure_total"@,
                "Dreams triggered by backpressure."@,
                s.breaths_pressure as int,
            ) + counter(
                "breaths_ondemand_total"@,
                "Dreams triggered on-demand."@,
                s.breaths_ondemand as int,
            ) + counter(
                "distilled_subjects_total"@,
                "Subjects consolidated."@,
                s.distilled_subjects as int,
            ) + counter(
                "perceptions_absorbed_total"@,
                "Perceptions absorbed into archetypes."@,
                s.perceptions_absorbed as int,
            ) + counter("faded_total"@, "Perceptions swept by FADE."@, s.faded as int) + gauge(
                "pending"@,
                "Unconsolidated perceptions (current pressure)."@,
                s.pending as int,
            ) + gauge("short_term_len"@, "Short-term memory size."@, s.short_term_len as int)
                + gauge("long_term_len"@, "Live archetypes."@, s.long_term_len as int)
        }),
{
    counters_are_metrics("breaths_total"@, "Dream cycles executed."@, s.breaths as nat);
    counters_are_metrics(
        "breaths_basal_total"@,
        "Dreams triggered by basal interval."@,
        s.breaths_basal as nat,
    );
    counters_are_metrics(
        "breaths_pressure_total"@,
        "Dreams triggered by backpressure."@,
        s.breaths_pressure as nat,
    );
    counters_are_metrics(
        "breaths_ondemand_total"@,
        "Dreams triggered on-demand."@,
        s.breaths_ondemand as nat,
    );
    counters_are_metrics(
        "distilled_subjects_total"@,
        "Subjects consolidated."@,
        s.distilled_subjects as nat,
    );
    counters_are_metrics(
        "perceptions_absorbed_total"@,
        "Perceptions absorbed into archetypes."@,
        s.perceptions_absorbed as nat,
    );
    counters_are_metrics("faded_total"@, "Perceptions swept by FADE."@, s.faded as nat);
    counters_are_metrics(
        "pending"@,
        "Unconsolidated perceptions (current pressure)."@,
        s.pending as nat,
    );
    counters_are_metrics("short_term_len"@, "Short-term memory size."@, s.short_term_len as nat);
    counters_are_metrics("long_term_len"@, "Live archetypes."@, s.long_term_len as nat);
}

proof fn counters_are_metrics(name: Seq<char>, help: Seq<char>, value: nat)
    ensures
        metric(name, help, "counter"@, value) == "# HELP letheo_"@ + name + " "@ + help
            + "\n# TYPE letheo_"@ + name + " counter\nletheo_"@ + name + " "@ + text::decimal(value)
            + "\n"@,
        metric(name, help, "gauge"@, value) == "# HELP letheo_"@ + name + " "@ + help
            + "\n# TYPE letheo_"@ + name + " gauge\nletheo_"@ + name + " "@ + text::decimal(value)
            + "\n"@,
{
    reveal_strlit("\n");
    reveal_strlit(" ");
    reveal_strlit("letheo_");
    reveal_strlit("# TYPE letheo_");
    reveal_strlit("counter");
    reveal_strlit("gauge");
    reveal_strlit("\n# TYPE letheo_");
    reveal_strlit(" counter\nletheo_");
    reveal_strlit(" gauge\nletheo_");
    assert("\n# TYPE letheo_"@ =~= "\n"@ + "# TYPE letheo_"@);
    assert(" counter\nletheo_"@ =~= " "@ + "counter"@ + "\n"@ + "letheo_"@);
    assert(" gauge\nletheo_"@ =~= " "@ + "gauge"@ + "\n"@ + "letheo_"@);
    assert(metric(name, help, "counter"@, value) =~= "# HELP letheo_"@ + name + " "@ + help
        + "\n# TYPE letheo_"@ + name + " counter\nletheo_"@ + name + " "@ + text::decimal(value)
        + "\n"@);
    assert(metric(name, help, "gauge"@, value) =~= "# HELP letheo_"@ + name + " "@ + help
        + "\n# TYPE letheo_"@ + name + " gauge\nletheo_"@ + name + " "@ + text::decimal(value)
        + "\n"@);
}

} // verus!
