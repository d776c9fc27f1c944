//! Statements of MQL, the memory query language, and the meaning of its `WHERE` predicates.
//!
//! Seven verbs: `PERCEIVE`, `DISTILL`, `EVOKE`, `FADE`, `IMPRINT`, `RECALL`, `REINFORCE`.

use crate::arithmetic;
use crate::arithmetic::Arithmetic;
use crate::evoke;
use crate::number::Double;
use crate::text;
use crate::traits::Traits;
use vstd::prelude::*;

verus! {

/// Pattern of the seconds of a minute.
pub const MINUTE_SECS: u64 = 0x404e_0000_0000_0000;

/// Pattern of the seconds of an hour.
pub const HOUR_SECS: u64 = 0x40ac_2000_0000_0000;

/// Pattern of the seconds of a day.
pub const DAY_SECS: u64 = 0x40f5_1800_0000_0000;

/// Pattern of the seconds of a week.
pub const WEEK_SECS: u64 = 0x4122_7500_0000_0000;

/// Pattern of the seconds of a month of 30 days.
pub const MONTH_SECS: u64 = 0x4143_c680_0000_0000;

/// Pattern of the seconds of a year of 365 days.
pub const YEAR_SECS: u64 = 0x417e_1338_0000_0000;

/// A span of time: an entropy coefficient, in seconds.
#[derive(Clone, Copy, Debug, PartialEq, Eq, Structural)]
pub struct Duration {
    pub seconds: Double,
}

/// The seconds of a unit of time.
pub open spec fn unit_seconds(unit: Seq<char>) -> Option<Double> {
    if unit == "m"@ || unit == "min"@ {
        Some(Double { bits: MINUTE_SECS })
    } else if unit == "h"@ || unit == "hour"@ {
        Some(Double { bits: HOUR_SECS })
    } else if unit == "d"@ || unit == "day"@ {
        Some(Double { bits: DAY_SECS })
    } else if unit == "w"@ || unit == "week"@ {
        Some(Double { bits: WEEK_SECS })
    } else if unit == "month"@ {
        Some(Double { bits: MONTH_SECS })
    } else if unit == "y"@ || unit == "year"@ {
        Some(Double { bits: YEAR_SECS })
    } else {
        None
    }
}

impl Duration {
    /// So many of a unit; `None` for a unit that the language does not know.
    pub fn from_value_unit<A: Arithmetic>(arith: &A, value: Double, unit: &str) -> (r: Option<
        Duration,
    >)
        requires
            arithmetic::lawful(*arith),
        ensures
            r == match unit_seconds(unit@) {
                Some(s) => Some(
                    Duration { seconds: arithmetic::product64(*arith, value, s) },
                ),
                None => None,
            },
    {
        let bits: u64 = if text::same(unit, "m") || text::same(unit, "min") {
            MINUTE_SECS
        } else if text::same(unit, "h") || text::same(unit, "hour") {
            HOUR_SECS
        } else if text::same(unit, "d") || text::same(unit, "day") {
            DAY_SECS
        } else if text::same(unit, "w") || text::same(unit, "week") {
            WEEK_SECS
        } else if text::same(unit, "month") {
            MONTH_SECS
        } else if text::same(unit, "y") || text::same(unit, "year") {
            YEAR_SECS
        } else {
            return None;
        };
        Some(Duration { seconds: arithmetic::times64(arith, value, Double { bits }) })
    }
}

/// A statement.
#[derive(Debug, PartialEq, Eq)]
pub enum Statement {
    Perceive(Perceive),
    Distill(Distill),
    Evoke(Evoke),
    Fade(Fade),
    Imprint(Imprint),
    Recall(Recall),
    Reinforce(Reinforce),
}

/// `PERCEIVE`: a stimulus.
#[derive(Debug, PartialEq, Eq)]
pub struct Perceive {
    pub subject: String,
    pub traits: Traits,
    pub salience: Option<Double>,
    pub halflife: Option<Duration>,
}

/// `DISTILL`: a dream cycle for a subject.
#[derive(Debug, PartialEq, Eq)]
pub struct Distill {
    pub subject: String,
    pub compressing_by_variance: bool,
    pub retaining: Vec<String>,
    /// Which perceptions to distil.
    pub filter: Option<Predicate>,
}

/// Comparison operator of a predicate.
#[derive(Clone, Copy, Debug, PartialEq, Eq, Structural)]
pub enum CmpOp {
    Lt,
    Le,
    Gt,
    Ge,
    Eq,
    Ne,
}

/// What is compared: a physical property of a memory, or a trait.
#[derive(Debug, PartialEq, Eq)]
pub enum Field {
    /// Current weight.
    Weight,
    /// Initial charge.
    Salience,
    /// Seconds since the last touch.
    Age,
    /// Cosine with the query of the statement, in `[-1, 1]`; false without a query.
    Resonance,
    /// A trait.
    Trait(String),
}

/// A literal to compare with.
#[derive(Debug, PartialEq, Eq)]
pub enum Value {
    Num(Double),
    Text(String),
}

/// A `WHERE` predicate.
#[derive(Debug, PartialEq, Eq)]
pub enum Predicate {
    Cmp { field: Field, op: CmpOp, value: Value },
    And(Box<Predicate>, Box<Predicate>),
    Or(Box<Predicate>, Box<Predicate>),
    Not(Box<Predicate>),
}

/// What a predicate is evaluated against. Whoever holds the data implements it.
pub trait Facts {
    /// Whether the source can be asked.
    spec fn ready(&self) -> bool;

    /// The value of a physical field.
    spec fn number(&self, field: Field) -> Option<Double>;

    /// The value of a trait.
    spec fn word(&self, key: Seq<char>) -> Option<Seq<char>>;

    /// The value of a physical field.
    fn numeric(&self, field: &Field) -> (r: Option<Double>)
        requires
            self.ready(),
        ensures
            r == self.number(*field),
    ;

    /// The value of a trait.
    fn text(&self, key: &str) -> (r: Option<String>)
        requires
            self.ready(),
        ensures
            evoke::text_in(r) == self.word(key@),
    ;
}

/// Whether two numbers compare as an operator says.
pub open spec fn numbers_compare(lhs: Double, op: CmpOp, rhs: Double) -> bool {
    match op {
        CmpOp::Lt => lhs.below(rhs),
        CmpOp::Le => lhs.at_most(rhs),
        CmpOp::Gt => rhs.below(lhs),
        CmpOp::Ge => rhs.at_most(lhs),
        CmpOp::Eq => lhs.same(rhs),
        CmpOp::Ne => !lhs.same(rhs),
    }
}

/// Whether two texts compare as an operator says, in dictionary order.
pub open spec fn texts_compare(lhs: Seq<char>, op: CmpOp, rhs: Seq<char>) -> bool {
    match op {
        CmpOp::Lt => text::before(lhs, rhs),
        CmpOp::Le => text::before(lhs, rhs) || lhs == rhs,
        CmpOp::Gt => text::before(rhs, lhs),
        CmpOp::Ge => text::before(rhs, lhs) || lhs == rhs,
        CmpOp::Eq => lhs == rhs,
        CmpOp::Ne => lhs != rhs,
    }
}

/// Whether a comparison holds: a physical field against a number, a trait against a number that it
/// spells, or a trait against a text. A value that is not there, or not of that kind, compares with
/// nothing.
pub open spec fn comparison_holds<A: Arithmetic, F: Facts>(
    arith: A,
    field: Field,
    op: CmpOp,
    value: Value,
    f: F,
) -> bool {
    match field {
        Field::Trait(key) => match f.word(key@) {
            Some(lhs) => match value {
                Value::Num(rhs) => match arithmetic::parsed(arith, lhs) {
                    Some(n) => numbers_compare(n, op, rhs),
                    None => false,
                },
                Value::Text(rhs) => texts_compare(lhs, op, rhs@),
            },
            None => false,
        },
        _ => match value {
            Value::Num(rhs) => match f.number(field) {
                Some(lhs) => numbers_compare(lhs, op, rhs),
                None => false,
            },
            Value::Text(_) => false,
        },
    }
}

/// Whether a predicate holds of a source.
pub open spec fn holds<A: Arithmetic, F: Facts>(arith: A, p: Predicate, f: F) -> bool
    decreases p,
{
    match p {
        Predicate::Cmp { field, op, value } => comparison_holds(arith, field, op, value, f),
        Predicate::And(a, b) => holds(arith, *a, f) && holds(arith, *b, f),
        Predicate::Or(a, b) => holds(arith, *a, f) || holds(arith, *b, f),
        Predicate::Not(a) => !holds(arith, *a, f),
    }
}

impl Predicate {
    /// Evaluates the predicate against a source.
    pub fn eval<A: Arithmetic, F: Facts>(&self, arith: &A, f: &F) -> (r: bool)
        requires
            arithmetic::lawful(*arith),
            f.ready(),
        ensures
            r == holds(*arith, *self, *f),
        decreases self,
    {
        match self {
            Predicate::And(a, b) => a.eval(arith, f) && b.eval(arith, f),
            Predicate::Or(a, b) => a.eval(arith, f) || b.eval(arith, f),
            Predicate::Not(a) => !a.eval(arith, f),
            Predicate::Cmp { field, op, value } => eval_cmp(arith, field, *op, value, f),
        }
    }
}

/// Evaluates a comparison.
fn eval_cmp<A: Arithmetic, F: Facts>(
    arith: &A,
    field: &Field,
    op: CmpOp,
    value: &Value,
    f: &F,
) -> (r: bool)
    requires
        arithmetic::lawful(*arith),
        f.ready(),
    ensures
        r == comparison_holds(*arith, *field, op, *value, *f),
{
    match field {
        Field::Trait(key) => match f.text(key.as_str()) {
            Some(lhs) => match value {
                Value::Num(rhs) => match arithmetic::parse(arith, lhs.as_str()) {
                    Some(n) => cmp_num(n, op, *rhs),
                    None => false,
                },
                Value::Text(rhs) => cmp_text(lhs.as_str(), op, rhs.as_str()),
            },
            None => false,
        },
        _ => match value {
            Value::Num(rhs) => match f.numeric(field) {
                Some(lhs) => cmp_num(lhs, op, *rhs),
                None => false,
            },
            Value::Text(_) => false,
        },
    }
}

/// Compares two numbers.
pub fn cmp_num(lhs: Double, op: CmpOp, rhs: Double) -> (r: bool)
    ensures
        r == numbers_compare(lhs, op, rhs),
{
    match op {
        CmpOp::Lt => lhs.lt(rhs),
        CmpOp::Le => lhs.le(rhs),
        CmpOp::Gt => rhs.lt(lhs),
        CmpOp::Ge => rhs.le(lhs),
        CmpOp::Eq => lhs.equals(rhs),
        CmpOp::Ne => !lhs.equals(rhs),
    }
}

/// Compares two texts, in dictionary order.
pub fn cmp_text(lhs: &str, op: CmpOp, rhs: &str) -> (r: bool)
    ensures
        r == texts_compare(lhs@, op, rhs@),
{
    match op {
        CmpOp::Lt => text::precedes(lhs, rhs),
        CmpOp::Le => text::precedes(lhs, rhs) || text::same(lhs, rhs),
        CmpOp::Gt => text::precedes(rhs, lhs),
        CmpOp::Ge => text::precedes(rhs, lhs) || text::same(lhs, rhs),
        CmpOp::Eq => text::same(lhs, rhs),
        CmpOp::Ne => !text::same(lhs, rhs),
    }
}

/// What to evoke.
#[derive(Clone, Copy, Debug, PartialEq, Eq, Structural)]
pub enum EssenceKind {
    Essence,
    Archetype,
}

/// How much of the arc to return.
#[derive(Clone, Copy, Debug, PartialEq, Eq, Structural)]
pub enum Resolution {
    Arc,
    Point,
    Summary,
}

/// Which projection of the arc to return.
#[derive(Clone, Copy, Debug, PartialEq, Eq, Structural)]
pub enum Projection {
    Trajectory,
    Snapshot,
}

/// `EVOKE`: the essence of a subject within a budget.
#[derive(Debug, PartialEq, Eq)]
pub struct Evoke {
    pub kind: EssenceKind,
    pub subject: String,
    pub span: Option<Duration>,
    pub resonating_with: Vec<String>,
    pub resolution: Option<Resolution>,
    pub projecting: Option<Projection>,
    pub token_budget: Option<usize>,
}

/// `FADE`: a sweep of short-term memory.
#[derive(Debug, PartialEq, Eq)]
pub struct Fade {
    pub target: String,
    pub preserving_archetype: bool,
    /// Which perceptions to forget.
    pub filter: Option<Predicate>,
}

/// How firmly to anchor.
#[derive(Clone, Copy, Debug, PartialEq, Eq, Structural)]
pub enum Resilience {
    Low,
    Medium,
    High,
}

/// `IMPRINT`: anchors an archetype.
#[derive(Debug, PartialEq, Eq)]
pub struct Imprint {
    pub archetype: String,
    pub resilience: Option<Resilience>,
}

/// `RECALL`: directed retrieval of exact facts; nothing is reinforced.
#[derive(Debug, PartialEq, Eq)]
pub struct Recall {
    pub subject: String,
    pub resonating_with: Vec<String>,
    pub k: usize,
    pub filter: Option<Predicate>,
}

/// `REINFORCE`: reinforces the facts that resonate with a query.
#[derive(Debug, PartialEq, Eq)]
pub struct Reinforce {
    pub subject: String,
    pub resonating_with: Vec<String>,
    pub k: usize,
}

/// Predicates combine as logic has it: a predicate and its negation never agree, and negation turns
/// `AND` into `OR` of negations and the other way round.
pub proof fn predicates_are_boolean<A: Arithmetic, F: Facts>(
    arith: A,
    a: Predicate,
    b: Predicate,
    f: F,
)
    ensures
        holds(arith, Predicate::Not(Box::new(a)), f) != holds(arith, a, f),
        holds(
            arith,
            Predicate::Not(Box::new(Predicate::And(Box::new(a), Box::new(b)))),
            f,
        ) == holds(
            arith,
            Predicate::Or(
                Box::new(Predicate::Not(Box::new(a))),
                Box::new(Predicate::Not(Box::new(b))),
            ),
            f,
        ),
        holds(
            arith,
            Predicate::Not(Box::new(Predicate::Or(Box::new(a), Box::new(b)))),
            f,
        ) == holds(
            arith,
            Predicate::And(
                Box::new(Predicate::Not(Box::new(a))),
                Box::new(Predicate::Not(Box::new(b))),
            ),
            f,
        ),
{
    reveal_with_fuel(holds, 3);
}

/// Operators come in opposite pairs: on texts always, on numbers wherever both are numbers.
pub proof fn operators_are_opposites(
    x: Double,
    y: Double,
    s: Seq<char>,
    t: Seq<char>,
)
    ensures
        texts_compare(s, CmpOp::Lt, t) == !texts_compare(s, CmpOp::Ge, t),
        texts_compare(s, CmpOp::Gt, t) == !texts_compare(s, CmpOp::Le, t),
        texts_compare(s, CmpOp::Eq, t) == !texts_compare(s, CmpOp::Ne, t),
        numbers_compare(x, CmpOp::Eq, y) == !numbers_compare(x, CmpOp::Ne, y),
        !x.is_nan() && !y.is_nan() ==> numbers_compare(x, CmpOp::Lt, y) == !numbers_compare(
            x,
            CmpOp::Ge,
            y,
        ),
        !x.is_nan() && !y.is_nan() ==> numbers_compare(x, CmpOp::Gt, y) == !numbers_compare(
            x,
            CmpOp::Le,
            y,
        ),
{
    text::before_total(s, t);
    text::before_irreflexive(s);
    text::before_irreflexive(t);
    if text::before(s, t) && text::before(t, s) {
        text::before_transitive(s, t, s);
    }
}

/// What the operators mean, of numbers and of texts: `<` that the left stands before the right, `<=` that
/// it does or both are the same, and so on; and what is not a number compares as unequal with everything
/// and in no other way.
pub proof fn operators_mean_what_they_say(
    x: Double,
    y: Double,
    s: Seq<char>,
    t: Seq<char>,
)
    ensures
        !x.is_nan() && !y.is_nan() ==> {
            &&& numbers_compare(x, CmpOp::Lt, y) == (x.rank() < y.rank())
            &&& numbers_compare(x, CmpOp::Le, y) == (x.rank() <= y.rank())
            &&& numbers_compare(x, CmpOp::Gt, y) == (x.rank() > y.rank())
            &&& numbers_compare(x, CmpOp::Ge, y) == (x.rank() >= y.rank())
            &&& numbers_compare(x, CmpOp::Eq, y) == (x.rank() == y.rank())
            &&& numbers_compare(x, CmpOp::Ne, y) == (x.rank() != y.rank())
        },
        x.is_nan() || y.is_nan() ==> {
            &&& !numbers_compare(x, CmpOp::Lt, y)
            &&& !numbers_compare(x, CmpOp::Le, y)
            &&& !numbers_compare(x, CmpOp::Gt, y)
            &&& !numbers_compare(x, CmpOp::Ge, y)
            &&& !numbers_compare(x, CmpOp::Eq, y)
            &&& numbers_compare(x, CmpOp::Ne, y)
        },
        texts_compare(s, CmpOp::Eq, t) == (s == t),
        texts_compare(s, CmpOp::Ne, t) == (s != t),
        texts_compare(s, CmpOp::Lt, t) == text::before(s, t),
        texts_compare(s, CmpOp::Gt, t) == text::before(t, s),
        texts_compare(s, CmpOp::Le, t) == (text::before(s, t) || s == t),
        texts_compare(s, CmpOp::Ge, t) == (text::before(t, s) || s == t),
{
}

/// What a comparison reads: a property of the memory against a number; a trait against a text as it is,
/// and against a number by the number that it spells. A value that is missing, or of the other kind,
/// makes every comparison false.
pub proof fn comparisons_read_the_field<A: Arithmetic, F: Facts>(
    arith: A,
    field: Field,
    op: CmpOp,
    n: Double,
    t: String,
    f: F,
)
    ensures
        ({
            let against_number = holds(
                arith,
                Predicate::Cmp { field, op, value: Value::Num(n) },
                f,
            );
            let against_text = holds(
                arith,
                Predicate::Cmp { field, op, value: Value::Text(t) },
                f,
            );
            match field {
                Field::Trait(key) => match f.word(key@) {
                    Some(w) => {
                        &&& against_text == texts_compare(w, op, t@)
                        &&& arithmetic::parsed(arith, w) is Some ==> against_number
                            == numbers_compare(arithmetic::parsed(arith, w)->0, op, n)
                        &&& arithmetic::parsed(arith, w) is None ==> !against_number
                    },
                    None => !against_number && !against_text,
                },
                _ => {
                    &&& !against_text
                    &&& f.number(field) is Some ==> against_number == numbers_compare(
                        f.number(field)->0,
                        op,
                        n,
                    )
                    &&& f.number(field) is None ==> !against_number
                },
            }
        }),
{
}

/// `AND` holds where both sides do, `OR` where one does.
pub proof fn connectives_mean_what_they_say<A: Arithmetic, F: Facts>(
    arith: A,
    a: Predicate,
    b: Predicate,
    f: F,
)
    ensures
        holds(arith, Predicate::And(Box::new(a), Box::new(b)), f) <==> holds(arith, a, f) && holds(
            arith,
            b,
            f,
        ),
        holds(arith, Predicate::Or(Box::new(a), Box::new(b)), f) <==> holds(arith, a, f) || holds(
            arith,
            b,
            f,
        ),
{
}

/// The units of time: a minute, an hour, a day, a week, a month of thirty days and a year of 365, each a
/// multiple of seconds, long or short; no other word is a unit. Patterns of whole numbers of seconds
/// order as the units do.
pub proof fn units_of_time(unit: Seq<char>)
    ensures
        unit_seconds(unit) is Some <==> (unit == "m"@ || unit == "min"@ || unit == "h"@ || unit
            == "hour"@ || unit == "d"@ || unit == "day"@ || unit == "w"@ || unit == "week"@ || unit
            == "month"@ || unit == "y"@ || unit == "year"@),
        unit_seconds("min"@) == unit_seconds("m"@),
        unit_seconds("hour"@) == unit_seconds("h"@),
        unit_seconds("day"@) == unit_seconds("d"@),
        unit_seconds("week"@) == unit_seconds("w"@),
        unit_seconds("year"@) == unit_seconds("y"@),
        (unit_seconds("m"@)->0).bits == 0x404e_0000_0000_0000,
        (unit_seconds("m"@)->0).below(unit_seconds("h"@)->0),
        (unit_seconds("h"@)->0).below(unit_seconds("d"@)->0),
        (unit_seconds("d"@)->0).below(unit_seconds("w"@)->0),
        (unit_seconds("w"@)->0).below(unit_seconds("month"@)->0),
        (unit_seconds("month"@)->0).below(unit_seconds("y"@)->0),
{
    reveal_strlit("m");
    reveal_strlit("min");
    reveal_strlit("h");
    reveal_strlit("hour");
    reveal_strlit("d");
    reveal_strlit("day");
    reveal_strlit("w");
    reveal_strlit("week");
    reveal_strlit("month");
    reveal_strlit("y");
    reveal_strlit("year");
    assert("m"@.len() == 1 && "min"@.len() == 3 && "h"@.len() == 1 && "hour"@.len() == 4 && "d"@.len()
        == 1 && "day"@.len() == 3 && "w"@.len() == 1 && "week"@.len() == 4 && "month"@.len() == 5
        && "y"@.len() == 1 && "year"@.len() == 4);
    assert("m"@[0] != "h"@[0] && "m"@[0] != "d"@[0] && "m"@[0] != "w"@[0] && "m"@[0] != "y"@[0]);
    assert("h"@[0] != "d"@[0] && "h"@[0] != "w"@[0] && "h"@[0] != "y"@[0]);
    assert("d"@[0] != "w"@[0] && "d"@[0] != "y"@[0] && "w"@[0] != "y"@[0]);
    assert("min"@[0] != "day"@[0]);
    assert("hour"@[0] != "week"@[0] && "hour"@[0] != "year"@[0] && "week"@[0] != "year"@[0]);
}

} // verus!
