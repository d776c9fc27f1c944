//! What is kept of a memory on disk, and under which names.
//!
//! Each archetype is one snapshot, stored in a file of its own; the episodic memory is one more file
//! beside them. A snapshot is plain data: this module says what goes into one and what comes back,
//! and which files of a directory are snapshots. Reading and writing files is the host's.

use crate::archetype;
use crate::archetype::ArcMilestone;
use crate::archetype::Archetype;
use crate::archetype::ArchetypeStore;
use crate::archetype::ArchetypeView;
use crate::archetype::MilestoneView;
use crate::entropy::EntropyTrace;
use crate::entropy::Tick;
use crate::factstore;
use crate::factstore::Fact;
use crate::factstore::FactStore;
use crate::factstore::FactView;
use crate::histogram;
use crate::histogram::Histogram;
use crate::modes;
use crate::modes::Mode;
use crate::modes::ModeView;
use crate::number;
use crate::number::Double;
use crate::number::Single;
use crate::number::Vector;
use crate::ranking;
use crate::selection;
use crate::text;
use vstd::prelude::*;

verus! {

/// Version of the on-disk format.
pub const SNAPSHOT_VERSION: u32 = 1;

/// Name of the file of the episodic memory.
pub const FACTS_FILENAME: &'static str = "facts.json";

/// How many characters of a subject its file name shows.
pub const PREFIX_LENGTH: usize = 48;

/// Forgetting physics, as stored.
#[derive(Clone, Copy, Debug, PartialEq, Eq, Structural)]
pub struct TraceDto {
    pub salience: Double,
    pub lambda: Double,
    pub reinforcement: Double,
    pub last_touch: Tick,
}

impl TraceDto {
    /// The physics that are stored.
    pub open spec fn held(self) -> EntropyTrace {
        EntropyTrace {
            salience: self.salience,
            lambda: self.lambda,
            reinforcement: self.reinforcement,
            last_touch: self.last_touch,
        }
    }

    /// Stores physics.
    pub fn from_trace(t: &EntropyTrace) -> (r: TraceDto)
        ensures
            r.held() == *t,
    {
        TraceDto {
            salience: t.salience,
            lambda: t.lambda,
            reinforcement: t.reinforcement,
            last_touch: t.last_touch,
        }
    }

    /// Restores physics.
    pub fn into_trace(self) -> (r: EntropyTrace)
        ensures
            r == self.held(),
    {
        EntropyTrace {
            salience: self.salience,
            lambda: self.lambda,
            reinforcement: self.reinforcement,
            last_touch: self.last_touch,
        }
    }
}

/// A milestone, as stored.
#[derive(Debug)]
pub struct MilestoneDto {
    pub at: Tick,
    pub direction: Vector,
    pub absorbed: usize,
    pub label: String,
    pub label_histogram: Histogram,
}

impl View for MilestoneDto {
    type V = MilestoneView;

    open spec fn view(&self) -> MilestoneView {
        MilestoneView {
            at: self.at,
            direction: self.direction@,
            absorbed: self.absorbed,
            label: self.label@,
            label_histogram: histogram::entries(self.label_histogram@),
        }
    }
}

/// What each stored milestone holds.
pub open spec fn stored_arc(s: Seq<MilestoneDto>) -> Seq<MilestoneView> {
    Seq::new(s.len(), |i: int| s[i]@)
}

/// A mode, as stored. Older snapshots have no origin; theirs is empty.
#[derive(Debug)]
pub struct ModeDto {
    pub centroid: Vector,
    pub origin: Vector,
    pub label: String,
    pub label_histogram: Histogram,
    pub absorbed: usize,
    pub trace: TraceDto,
}

impl View for ModeDto {
    type V = ModeView;

    open spec fn view(&self) -> ModeView {
        ModeView {
            centroid: self.centroid@,
            origin: self.origin@,
            label: self.label@,
            label_histogram: histogram::entries(self.label_histogram@),
            absorbed: self.absorbed,
            trace: self.trace.held(),
        }
    }
}

/// What each stored mode holds.
pub open spec fn stored_modes(s: Seq<ModeDto>) -> Seq<ModeView> {
    Seq::new(s.len(), |i: int| s[i]@)
}

/// An archetype, as stored.
#[derive(Debug)]
pub struct ArchetypeDto {
    pub version: u32,
    pub subject: String,
    pub core: Vector,
    pub anomalies: Vec<Vector>,
    pub anomaly_labels: Vec<String>,
    pub core_label: String,
    pub represented: usize,
    pub arc: Vec<MilestoneDto>,
    pub trace: TraceDto,
    pub modes: Vec<ModeDto>,
}

impl View for ArchetypeDto {
    type V = ArchetypeView;

    open spec fn view(&self) -> ArchetypeView {
        ArchetypeView {
            subject: self.subject@,
            core: self.core@,
            modes: stored_modes(self.modes@),
            anomalies: number::vectors_of(self.anomalies@),
            anomaly_labels: text::texts_of(self.anomaly_labels@),
            core_label: self.core_label@,
            represented: self.represented,
            arc: stored_arc(self.arc@),
            trace: self.trace.held(),
        }
    }
}

/// A stored mode, restored: one without an origin has not drifted.
pub open spec fn restored_mode(m: ModeView) -> ModeView {
    if m.origin.len() == 0 {
        ModeView { origin: m.centroid, ..m }
    } else {
        m
    }
}

/// A stored archetype, restored.
pub open spec fn restored(a: ArchetypeView) -> ArchetypeView {
    ArchetypeView {
        modes: Seq::new(a.modes.len(), |i: int| restored_mode(a.modes[i])),
        ..a
    }
}

/// Every mode has its direction at birth.
pub open spec fn born(a: ArchetypeView) -> bool {
    forall|i: int|
        0 <= i < a.modes.len() ==> (#[trigger] a.modes[i]).origin.len() > 0
            || a.modes[i].centroid.len() == 0
}

/// An archetype whose modes have their directions at birth comes back as it was stored: essence,
/// modes, arc and physics.
pub proof fn snapshots_are_lossless(a: ArchetypeView)
    requires
        born(a),
    ensures
        restored(a) == a,
{
    assert forall|i: int| 0 <= i < a.modes.len() implies restored(a).modes[i] == #[trigger]
        a.modes[i] by {
        if a.modes[i].origin.len() == 0 {
            assert(a.modes[i].origin =~= a.modes[i].centroid);
        }
    }
    assert(restored(a).modes =~= a.modes);
}

/// What was restored once comes back unchanged ever after, and none of its modes is without an
/// origin that its direction could give.
pub proof fn restoring_settles(a: ArchetypeView)
    ensures
        born(restored(a)),
        restored(restored(a)) == restored(a),
{
    snapshots_are_lossless(restored(a));
}

impl ArchetypeDto {
    /// Stores an archetype.
    pub fn from_archetype(a: &Archetype) -> (r: ArchetypeDto)
        ensures
            r.version == SNAPSHOT_VERSION,
            r@ == a@,
    {
        let mut arc: Vec<MilestoneDto> = Vec::new();
        let mut i: usize = 0;
        while i < a.arc.len()
            invariant
                i <= a.arc.len(),
                arc.len() == i,
                forall|k: int| 0 <= k < i ==> (#[trigger] arc@[k])@ == a.arc@[k]@,
            decreases a.arc.len() - i,
        {
            let m: &ArcMilestone = &a.arc[i];
            arc.push(
                MilestoneDto {
                    at: m.at,
                    direction: number::copy_vector(&m.direction),
                    absorbed: m.absorbed,
                    label: m.label.clone(),
                    label_histogram: histogram::copy(&m.label_histogram),
                },
            );
            i += 1;
        }
        let mut modes: Vec<ModeDto> = Vec::new();
        let mut j: usize = 0;
        while j < a.modes.len()
            invariant
                j <= a.modes.len(),
                modes.len() == j,
                forall|k: int| 0 <= k < j ==> (#[trigger] modes@[k])@ == a.modes@[k]@,
            decreases a.modes.len() - j,
        {
            let m: &Mode = &a.modes[j];
            modes.push(
                ModeDto {
                    centroid: number::copy_vector(&m.centroid),
                    origin: number::copy_vector(&m.origin),
                    label: m.label.clone(),
                    label_histogram: histogram::copy(&m.label_histogram),
                    absorbed: m.absorbed,
                    trace: TraceDto::from_trace(&m.trace),
                },
            );
            j += 1;
        }
        proof {
            assert(stored_arc(arc@) =~= archetype::milestones_of(a.arc@));
            assert(stored_modes(modes@) =~= modes::modes_of(a.modes@));
        }
        ArchetypeDto {
            version: SNAPSHOT_VERSION,
            subject: a.subject.clone(),
            core: number::copy_vector(&a.core),
            anomalies: number::copy_vectors(&a.anomalies),
            anomaly_labels: text::copy_texts(&a.anomaly_labels),
            core_label: a.core_label.clone(),
            represented: a.represented,
            arc,
            trace: TraceDto::from_trace(&a.trace),
            modes,
        }
    }

    /// Restores an archetype. A mode without an origin takes its direction for one.
    pub fn into_archetype(self) -> (r: Archetype)
        ensures
            r@ == restored(self@),
    {
        let ghost stored = self@;
        let ghost given_arc = self.arc@;
        let ghost given_modes = self.modes@;
        let mut arc: Vec<ArcMilestone> = Vec::new();
        for m in it: self.arc
            invariant
                it.seq() == given_arc,
                arc.len() == it.index(),
                forall|k: int| 0 <= k < arc.len() ==> (#[trigger] arc@[k])@ == given_arc[k]@,
        {
            arc.push(
                ArcMilestone {
                    at: m.at,
                    direction: m.direction,
                    absorbed: m.absorbed,
                    label: m.label,
                    label_histogram: m.label_histogram,
                },
            );
        }
        let mut modes: Vec<Mode> = Vec::new();
        for m in it: self.modes
            invariant
                it.seq() == given_modes,
                modes.len() == it.index(),
                forall|k: int|
                    0 <= k < modes.len() ==> (#[trigger] modes@[k])@ == restored_mode(
                        given_modes[k]@,
                    ),
        {
            let origin: Vector = if m.origin.len() == 0 {
                number::copy_vector(&m.centroid)
            } else {
                m.origin
            };
            modes.push(
                Mode {
                    centroid: m.centroid,
                    origin,
                    label: m.label,
                    label_histogram: m.label_histogram,
                    absorbed: m.absorbed,
                    trace: m.trace.into_trace(),
                },
            );
        }
        proof {
            assert(archetype::milestones_of(arc@) =~= stored.arc);
            assert(modes::modes_of(modes@) =~= restored(stored).modes);
        }
        Archetype {
            subject: self.subject,
            core: self.core,
            modes,
            anomalies: self.anomalies,
            anomaly_labels: self.anomaly_labels,
            core_label: self.core_label,
            represented: self.represented,
            arc,
            trace: self.trace.into_trace(),
        }
    }
}

/// What each snapshot of a list holds.
pub open spec fn stored_archetypes(s: Seq<ArchetypeDto>) -> Seq<ArchetypeView> {
    Seq::new(s.len(), |i: int| s[i]@)
}

/// Stored archetypes, restored.
pub open spec fn restored_all(s: Seq<ArchetypeView>) -> Seq<ArchetypeView> {
    Seq::new(s.len(), |i: int| restored(s[i]))
}

/// Takes a snapshot of each archetype of a long-term memory.
pub fn take_snapshots(store: &ArchetypeStore) -> (r: Vec<ArchetypeDto>)
    ensures
        stored_archetypes(r@) == store@,
        forall|i: int| 0 <= i < r.len() ==> (#[trigger] r@[i]).version == SNAPSHOT_VERSION,
{
    let all = store.iter();
    let mut out: Vec<ArchetypeDto> = Vec::new();
    let mut i: usize = 0;
    while i < all.len()
        invariant
            i <= all.len(),
            out.len() == i,
            forall|k: int|
                0 <= k < i ==> (#[trigger] out@[k])@ == (*all@[k])@ && out@[k].version
                    == SNAPSHOT_VERSION,
        decreases all.len() - i,
    {
        out.push(ArchetypeDto::from_archetype(all[i]));
        i += 1;
    }
    proof {
        assert(stored_archetypes(out@) =~= archetype::archetypes_of(selection::targets(all@)));
    }
    out
}

/// Rebuilds a long-term memory from snapshots, in their order.
pub fn rebuild(snapshots: Vec<ArchetypeDto>) -> (r: ArchetypeStore)
    ensures
        r@ == restored_all(stored_archetypes(snapshots@)),
{
    let ghost given = snapshots@;
    let ghost all = restored_all(stored_archetypes(given));
    let mut store = ArchetypeStore::new();
    proof {
        assert(store@ =~= all.take(0));
    }
    for d in it: snapshots
        invariant
            it.seq() == given,
            all == restored_all(stored_archetypes(given)),
            store@ == all.take(it.index() as int),
    {
        proof {
            assert(all.take(it.index() + 1) =~= all.take(it.index() as int).push(restored(d@)));
        }
        store.insert(d.into_archetype());
    }
    proof {
        assert(all.take(all.len() as int) =~= all);
    }
    store
}

/// A long-term memory whose modes have their directions at birth survives a restart: what is rebuilt
/// from its snapshots is what it was.
pub proof fn memory_survives_restart(s: Seq<ArchetypeView>)
    requires
        forall|i: int| 0 <= i < s.len() ==> born(#[trigger] s[i]),
    ensures
        restored_all(s) == s,
{
    assert forall|i: int| 0 <= i < s.len() implies restored_all(s)[i] == #[trigger] s[i] by {
        snapshots_are_lossless(s[i]);
    }
    assert(restored_all(s) =~= s);
}

/// A fact, as stored.
#[derive(Debug)]
pub struct FactDto {
    pub subject: String,
    pub text: String,
    pub embedding: Vector,
    pub provenance: String,
    pub created_at: Tick,
    pub trace: TraceDto,
}

impl View for FactDto {
    type V = FactView;

    open spec fn view(&self) -> FactView {
        FactView {
            subject: self.subject@,
            text: self.text@,
            embedding: self.embedding@,
            provenance: self.provenance@,
            created_at: self.created_at,
            trace: self.trace.held(),
        }
    }
}

/// What each stored fact holds.
pub open spec fn stored_facts(s: Seq<FactDto>) -> Seq<FactView> {
    Seq::new(s.len(), |i: int| s[i]@)
}

/// An episodic memory, as stored.
#[derive(Debug)]
pub struct FactStoreDto {
    pub version: u32,
    pub theta_dedup: Single,
    pub facts: Vec<FactDto>,
}

impl FactStoreDto {
    /// Stores an episodic memory: every fact, in its order, with its physics.
    pub fn from_store(s: &FactStore) -> (r: FactStoreDto)
        ensures
            r.version == SNAPSHOT_VERSION,
            r.theta_dedup == s.sameness(),
            stored_facts(r.facts@) == s@,
    {
        let all = s.iter();
        let mut facts: Vec<FactDto> = Vec::new();
        let mut i: usize = 0;
        while i < all.len()
            invariant
                i <= all.len(),
                facts.len() == i,
                forall|k: int| 0 <= k < i ==> (#[trigger] facts@[k])@ == (*all@[k])@,
            decreases all.len() - i,
        {
            let f: &Fact = all[i];
            facts.push(
                FactDto {
                    subject: f.subject.clone(),
                    text: f.text.clone(),
                    embedding: number::copy_vector(&f.embedding),
                    provenance: f.provenance.clone(),
                    created_at: f.created_at,
                    trace: TraceDto::from_trace(&f.trace),
                },
            );
            i += 1;
        }
        proof {
            assert(stored_facts(facts@) =~= factstore::facts_of(selection::targets(all@)));
        }
        FactStoreDto { version: SNAPSHOT_VERSION, theta_dedup: s.theta_dedup(), facts }
    }

    /// Restores an episodic memory: exactly what was stored.
    pub fn into_store(self) -> (r: FactStore)
        ensures
            r.sameness() == self.theta_dedup,
            r@ == stored_facts(self.facts@),
    {
        let ghost given = self.facts@;
        let ghost all = stored_facts(given);
        let mut store = FactStore::with_dedup(self.theta_dedup);
        proof {
            assert(store@ =~= all.take(0));
        }
        for f in it: self.facts
            invariant
                it.seq() == given,
                all == stored_facts(given),
                store.sameness() == self.theta_dedup,
                store@ == all.take(it.index() as int),
        {
            proof {
                assert(all.take(it.index() + 1) =~= all.take(it.index() as int).push(f@));
            }
            store.insert(
                Fact {
                    subject: f.subject,
                    text: f.text,
                    embedding: f.embedding,
                    provenance: f.provenance,
                    created_at: f.created_at,
                    trace: f.trace.into_trace(),
                },
            );
        }
        proof {
            assert(all.take(all.len() as int) =~= all);
        }
        store
    }
}

/// Where the hash of no bytes starts.
pub const HASH_BASIS: u64 = 0xcbf2_9ce4_8422_2325;

/// What the hash is multiplied by, for each byte.
pub const HASH_PRIME: u64 = 0x0000_0100_0000_01b3;

/// The 64-bit FNV-1a hash of bytes.
pub open spec fn hash_of(bytes: Seq<u8>) -> u64
    decreases bytes.len(),
{
    if bytes.len() == 0 {
        HASH_BASIS
    } else {
        (hash_of(bytes.drop_last()) ^ (bytes.last() as u64)).wrapping_mul(HASH_PRIME)
    }
}

/// The 64-bit FNV-1a hash of a text in UTF-8.
pub fn fnv1a(s: &str) -> (r: u64)
    ensures
        r == hash_of(vstd::utf8::encode_utf8(s@)),
{
    let bytes: &[u8] = s.as_bytes();
    let mut h: u64 = HASH_BASIS;
    let mut i: usize = 0;
    proof {
        assert(bytes@.take(0) =~= Seq::empty());
    }
    while i < bytes.len()
        invariant
            i <= bytes.len(),
            h == hash_of(bytes@.take(i as int)),
        decreases bytes.len() - i,
    {
        proof {
            assert(bytes@.take(i + 1).drop_last() =~= bytes@.take(i as int));
        }
        h = (h ^ (bytes[i] as u64)).wrapping_mul(HASH_PRIME);
        i += 1;
    }
    proof {
        assert(bytes@.take(i as int) =~= bytes@);
    }
    h
}

/// An ASCII letter or digit.
pub open spec fn is_plain(c: char) -> bool {
    ('a' <= c <= 'z') || ('A' <= c <= 'Z') || ('0' <= c <= '9')
}

/// The beginning of a subject, with what is not an ASCII letter or digit replaced.
pub open spec fn readable(subject: Seq<char>) -> Seq<char> {
    Seq::new(
        ranking::at_most(subject.len(), PREFIX_LENGTH as nat),
        |i: int|
            if is_plain(subject[i]) {
                subject[i]
            } else {
                '_'
            },
    )
}

/// The name of the file of a subject's snapshot: a readable beginning, and a hash that tells apart
/// the subjects that read the same.
pub open spec fn filename_of(subject: Seq<char>) -> Seq<char> {
    readable(subject) + "-"@ + text::hexadecimal(
        hash_of(vstd::utf8::encode_utf8(subject)) as nat,
        16,
    ) + ".json"@
}

/// The name of the file of a subject's snapshot.
pub fn snapshot_filename(subject: &str) -> (r: String)
    ensures
        r@ == filename_of(subject@),
{
    let chars = text::chars_of(subject);
    let mut out = String::new();
    let mut i: usize = 0;
    proof {
        reveal_strlit("_");
        assert(out@ =~= readable(subject@).take(0));
    }
    while i < chars.len() && i < PREFIX_LENGTH
        invariant
            i <= chars.len(),
            i <= PREFIX_LENGTH,
            chars@ == subject@,
            out@ == readable(subject@).take(i as int),
        decreases chars.len() - i,
    {
        let c: char = chars[i];
        let ghost had = out@;
        proof {
            reveal_strlit("_");
            assert(readable(subject@).take(i + 1) =~= readable(subject@).take(i as int).push(
                readable(subject@)[i as int],
            ));
        }
        if ('a' <= c && c <= 'z') || ('A' <= c && c <= 'Z') || ('0' <= c && c <= '9') {
            out.append(subject.substring_char(i, i + 1));
            assert(out@ =~= had.push(c));
        } else {
            out.append("_");
            assert(out@ =~= had.push('_'));
        }
        i += 1;
    }
    proof {
        assert(readable(subject@).take(i as int) =~= readable(subject@));
    }
    out.append("-");
    out.append(text::hexadecimal_text(fnv1a(subject), 16).as_str());
    out.append(".json");
    out
}

/// Whether a file of a memory's directory is a snapshot: its extension is `json`, and it is not the
/// file of the episodic memory.
pub open spec fn is_snapshot(name: Seq<char>) -> bool {
    let n = name.len();
    n > 5 && name.skip(n - 5) == ".json"@ && name != FACTS_FILENAME@
}

/// Whether a file of a memory's directory is a snapshot.
pub fn snapshot_named(name: &str) -> (r: bool)
    ensures
        r == is_snapshot(name@),
{
    let n: usize = name.unicode_len();
    if n <= 5 {
        return false;
    }
    let tail = name.substring_char(n - 5, n);
    assert(tail@ =~= name@.skip(n - 5));
    text::same(tail, ".json") && !text::same(name, FACTS_FILENAME)
}

proof fn hexadecimal_has_width(n: nat, width: nat)
    ensures
        text::hexadecimal(n, width).len() == width,
    decreases width,
{
    if width > 0 {
        hexadecimal_has_width(n / 16, (width - 1) as nat);
    }
}

/// The file of a subject is a snapshot, whatever the subject: in particular it is never the file of
/// the episodic memory. Its name is at most 70 characters long.
pub proof fn snapshots_are_recognised(subject: Seq<char>)
    ensures
        is_snapshot(filename_of(subject)),
        filename_of(subject) != FACTS_FILENAME@,
        filename_of(subject).len() <= 70,
{
    let h = text::hexadecimal(hash_of(vstd::utf8::encode_utf8(subject)) as nat, 16);
    hexadecimal_has_width(hash_of(vstd::utf8::encode_utf8(subject)) as nat, 16);
    reveal_strlit("-");
    reveal_strlit(".json");
    reveal_strlit("facts.json");
    let name = filename_of(subject);
    assert(name.skip(name.len() - 5) =~= ".json"@);
}

/// Files are ordered by their names; where two names are the same, the earlier file first.
pub open spec fn name_order(names: Seq<Seq<char>>) -> spec_fn(int, int) -> bool {
    |i: int, j: int| text::before(names[i], names[j]) || (names[i] == names[j] && i < j)
}

/// The places of the snapshots among the files of a directory.
pub open spec fn snapshot_at(names: Seq<Seq<char>>) -> spec_fn(int) -> bool {
    |i: int| 0 <= i < names.len() && is_snapshot(names[i])
}

/// The places of the snapshots among the files of a directory, in the order of their names.
pub open spec fn snapshots_in(names: Seq<Seq<char>>) -> Seq<int> {
    ranking::listing(snapshot_at(names), name_order(names))
}

/// The snapshots of a directory can be listed: each once, in the order of the names.
pub proof fn snapshots_are_listed(names: Seq<Seq<char>>)
    ensures
        ranking::lists(snapshots_in(names), snapshot_at(names), name_order(names)),
{
    name_order_is_strict(names);
    let all = Seq::new(names.len(), |i: int| i);
    assert forall|i: int| #[trigger] snapshot_at(names)(i) implies all.contains(i) by {
        assert(all[i] == i);
    }
    ranking::listing_exists(all, snapshot_at(names), name_order(names));
}

proof fn name_order_is_strict(names: Seq<Seq<char>>)
    ensures
        ranking::asymmetric(name_order(names)),
        forall|i: int, j: int, k: int|
            #[trigger] name_order(names)(i, j) && #[trigger] name_order(names)(j, k) ==> name_order(
                names,
            )(i, k),
        forall|i: int, j: int|
            i != j ==> #[trigger] name_order(names)(i, j) || name_order(names)(j, i),
{
    let lt = name_order(names);
    assert forall|i: int, j: int| #[trigger] lt(i, j) implies !lt(j, i) by {
        text::before_irreflexive(names[i]);
        if text::before(names[i], names[j]) && text::before(names[j], names[i]) {
            text::before_transitive(names[i], names[j], names[i]);
        }
    }
    assert forall|i: int, j: int, k: int| #[trigger] lt(i, j) && #[trigger] lt(j, k) implies lt(
        i,
        k,
    ) by {
        if text::before(names[i], names[j]) && text::before(names[j], names[k]) {
            text::before_transitive(names[i], names[j], names[k]);
        }
    }
    assert forall|i: int, j: int| i != j implies #[trigger] lt(i, j) || lt(j, i) by {
        text::before_total(names[i], names[j]);
    }
}

/// Picks the snapshots among the files of a directory, in the order of their names, so that a memory
/// is restored in the same way each time.
pub fn restore_order(names: &Vec<String>) -> (r: Vec<usize>)
    ensures
        ranking::positions(r@) == snapshots_in(text::texts_of(names@)),
        ranking::lists(
            ranking::positions(r@),
            snapshot_at(text::texts_of(names@)),
            name_order(text::texts_of(names@)),
        ),
{
    let ghost all = text::texts_of(names@);
    let ghost lt = name_order(all);
    let before = |i: usize, j: usize| -> (b: bool)
        requires
            i < names.len(),
            j < names.len(),
        ensures
            b == name_order(text::texts_of(names@))(i as int, j as int),
        {
            text::precedes(names[i].as_str(), names[j].as_str()) || (text::same(
                names[i].as_str(),
                names[j].as_str(),
            ) && i < j)
        };
    proof {
        name_order_is_strict(all);
    }
    let order = ranking::arrange(names.len(), before, Ghost(lt));
    let ghost sorted = ranking::positions(order@);
    let mut out: Vec<usize> = Vec::new();
    let ghost mut from: Seq<int> = Seq::empty();
    let mut i: usize = 0;
    while i < order.len()
        invariant
            i <= order.len(),
            order.len() == names.len(),
            all == text::texts_of(names@),
            lt == name_order(all),
            sorted == ranking::positions(order@),
            forall|k: int| 0 <= k < order.len() ==> #[trigger] order@[k] < names.len(),
            forall|a: int, b: int|
                0 <= a < b < sorted.len() ==> lt(#[trigger] sorted[a], #[trigger] sorted[b]),
            from.len() == out.len(),
            forall|a: int|
                0 <= a < from.len() ==> 0 <= #[trigger] from[a] < i && out@[a] as int
                    == sorted[from[a]] && snapshot_at(all)(out@[a] as int),
            forall|a: int, b: int| 0 <= a < b < from.len() ==> #[trigger] from[a] < #[trigger] from[b],
            forall|k: int|
                0 <= k < i && snapshot_at(all)(#[trigger] sorted[k]) ==> out@.contains(order@[k]),
        decreases order.len() - i,
    {
        let ghost had = out@;
        proof {
            assert(sorted[i as int] == order@[i as int] as int);
            assert(all[order@[i as int] as int] == names@[order@[i as int] as int]@);
        }
        if snapshot_named(names[order[i]].as_str()) {
            out.push(order[i]);
            proof {
                from = from.push(i as int);
                assert(out@[had.len() as int] == order@[i as int]);
                assert forall|k: int|
                    0 <= k < i + 1 && snapshot_at(all)(#[trigger] sorted[k]) implies out@.contains(
                    order@[k],
                ) by {
                    if k < i {
                        assert(had.contains(order@[k]));
                        let a = choose|a: int| 0 <= a < had.len() && had[a] == order@[k];
                        assert(out@[a] == order@[k]);
                    }
                }
            }
        }
        i += 1;
    }
    proof {
        let r = ranking::positions(out@);
        assert forall|a: int, b: int| 0 <= a < b < r.len() implies lt(
            #[trigger] r[a],
            #[trigger] r[b],
        ) by {
            assert(from[a] < from[b]);
        }
        assert forall|a: int| 0 <= a < r.len() implies snapshot_at(all)(#[trigger] r[a]) by {
            assert(0 <= from[a]);
        }
        assert forall|x: int| #[trigger] snapshot_at(all)(x) implies r.contains(x) by {
            assert(ranking::below(names.len() as int)(x));
            assert(sorted.contains(x));
            let k = choose|k: int| 0 <= k < sorted.len() && sorted[k] == x;
            assert(out@.contains(order@[k]));
            let a = choose|a: int| 0 <= a < out.len() && out@[a] == order@[k];
            assert(r[a] == x);
        }
        ranking::lists_is_listing(r, snapshot_at(all), lt);
    }
    out
}

/// A mode that was stored without its direction at birth has, when it is restored, not drifted: its origin
/// is where it points. Nothing else of it changes, and a mode with an origin comes back as it is.
pub proof fn modes_without_origin_have_not_drifted(m: ModeView)
    ensures
        m.origin.len() > 0 ==> restored_mode(m) == m,
        m.origin.len() == 0 ==> restored_mode(m).origin == m.centroid,
        restored_mode(m).centroid == m.centroid,
        restored_mode(m).label == m.label,
        restored_mode(m).label_histogram == m.label_histogram,
        restored_mode(m).absorbed == m.absorbed,
        restored_mode(m).trace == m.trace,
{
}

/// What is restored of a memory are its archetypes, all of them and in their order, each with its modes in
/// their order; of an archetype only the origins of its modes can differ from what was stored.
pub proof fn restoring_keeps_everything_else(s: Seq<ArchetypeView>, i: int, k: int)
    requires
        0 <= i < s.len(),
    ensures
        restored_all(s).len() == s.len(),
        ({
            let a = restored_all(s)[i];
            &&& a.subject == s[i].subject
            &&& a.core == s[i].core
            &&& a.core_label == s[i].core_label
            &&& a.anomalies == s[i].anomalies
            &&& a.anomaly_labels == s[i].anomaly_labels
            &&& a.represented == s[i].represented
            &&& a.arc == s[i].arc
            &&& a.trace == s[i].trace
            &&& a.modes.len() == s[i].modes.len()
            &&& 0 <= k < a.modes.len() ==> a.modes[k] == restored_mode(s[i].modes[k])
        }),
{
}

/// The hash of bytes, byte by byte: each is mixed in by exclusive or before the product with the prime.
pub proof fn bytes_are_mixed_in_one_by_one(bytes: Seq<u8>, b: u8)
    ensures
        hash_of(Seq::empty()) == 0xcbf2_9ce4_8422_2325,
        hash_of(bytes.push(b)) == (hash_of(bytes) ^ (b as u64)).wrapping_mul(0x0000_0100_0000_01b3),
{
    assert(bytes.push(b).drop_last() =~= bytes);
}

/// A file name shows the first characters of its subject, up to 48, letters and digits as they are and an
/// underscore for everything else; then a dash, sixteen hexadecimal digits of the subject's hash, and the
/// extension.
pub proof fn file_names_show_their_subject(subject: Seq<char>, i: int)
    ensures
        ({
            let n = if subject.len() <= 48 {
                subject.len() as int
            } else {
                48
            };
            let name = filename_of(subject);
            &&& name.len() == n + 22
            &&& 0 <= i < n ==> name[i] == (if ('a' <= subject[i] <= 'z') || ('A' <= subject[i] <= 'Z')
                || ('0' <= subject[i] <= '9') {
                subject[i]
            } else {
                '_'
            })
            &&& name[n] == '-'
            &&& name.subrange(n + 1, n + 17) == text::hexadecimal(
                hash_of(vstd::utf8::encode_utf8(subject)) as nat,
                16,
            )
            &&& name.subrange(n + 17, n + 22) == ".json"@
        }),
{
    reveal_strlit("-");
    reveal_strlit(".json");
    let h = text::hexadecimal(hash_of(vstd::utf8::encode_utf8(subject)) as nat, 16);
    hexadecimal_has_width(hash_of(vstd::utf8::encode_utf8(subject)) as nat, 16);
    let n = readable(subject).len() as int;
    let name = filename_of(subject);
    assert(name.subrange(n + 1, n + 17) =~= h);
    assert(name.subrange(n + 17, n + 22) =~= ".json"@);
}

/// The snapshots of a directory: the files whose names end in `.json` with something before it, but for
/// the file of the facts; each once, in the order of the dictionary, so that a memory is restored in the
/// same way each time.
pub proof fn snapshots_are_restored_by_name(names: Seq<Seq<char>>)
    ensures
        ({
            let at = snapshots_in(names);
            &&& forall|j: int|
                0 <= j < at.len() ==> 0 <= #[trigger] at[j] < names.len() && is_snapshot(
                    names[at[j]],
                )
            &&& forall|i: int|
                0 <= i < names.len() && is_snapshot(#[trigger] names[i]) ==> at.contains(i)
            &&& forall|i: int, j: int|
                0 <= i < j < at.len() ==> text::before(
                    names[#[trigger] at[i]],
                    names[#[trigger] at[j]],
                ) || (names[at[i]] == names[at[j]] && at[i] < at[j])
        }),
        forall|name: Seq<char>| #[trigger]
            is_snapshot(name) <==> name.len() > 5 && name.subrange(name.len() - 5, name.len() as int)
                == ".json"@ && name != "facts.json"@,
{
    snapshots_are_listed(names);
    let at = snapshots_in(names);
    assert forall|j: int| 0 <= j < at.len() implies 0 <= #[trigger] at[j] < names.len()
        && is_snapshot(names[at[j]]) by {
        assert(snapshot_at(names)(at[j]));
    }
    assert forall|i: int| 0 <= i < names.len() && is_snapshot(#[trigger] names[i]) implies at.contains(
        i,
    ) by {
        assert(snapshot_at(names)(i));
    }
    assert forall|i: int, j: int| 0 <= i < j < at.len() implies text::before(
        names[#[trigger] at[i]],
        names[#[trigger] at[j]],
    ) || (names[at[i]] == names[at[j]] && at[i] < at[j]) by {
        assert(name_order(names)(at[i], at[j]));
    }
    assert forall|name: Seq<char>| #[trigger] is_snapshot(name) <==> name.len() > 5 && name.subrange(
        name.len() - 5,
        name.len() as int,
    ) == ".json"@ && name != "facts.json"@ by {
        if name.len() > 5 {
            assert(name.skip(name.len() - 5) =~= name.subrange(name.len() - 5, name.len() as int));
        }
    }
}

/// What is stored is what the fields of a snapshot hold, each under its own name.
pub proof fn snapshots_hold_their_fields(
    t: TraceDto,
    m: MilestoneDto,
    o: ModeDto,
    a: ArchetypeDto,
    f: FactDto,
)
    ensures
        t.held().salience == t.salience,
        t.held().lambda == t.lambda,
        t.held().reinforcement == t.reinforcement,
        t.held().last_touch == t.last_touch,
        m@.at == m.at && m@.direction == m.direction@ && m@.absorbed == m.absorbed && m@.label
            == m.label@ && m@.label_histogram == histogram::entries(m.label_histogram@),
        o@.centroid == o.centroid@ && o@.origin == o.origin@ && o@.label == o.label@ && o@.absorbed
            == o.absorbed && o@.trace == o.trace.held() && o@.label_histogram == histogram::entries(
            o.label_histogram@,
        ),
        a@.subject == a.subject@ && a@.core == a.core@ && a@.core_label == a.core_label@
            && a@.represented == a.represented && a@.trace == a.trace.held(),
        a@.arc.len() == a.arc@.len() && a@.modes.len() == a.modes@.len() && a@.anomalies.len()
            == a.anomalies@.len() && a@.anomaly_labels.len() == a.anomaly_labels@.len(),
        forall|i: int| 0 <= i < a.arc@.len() ==> #[trigger] a@.arc[i] == a.arc@[i]@,
        forall|i: int| 0 <= i < a.modes@.len() ==> #[trigger] a@.modes[i] == a.modes@[i]@,
        forall|i: int| 0 <= i < a.anomalies@.len() ==> #[trigger] a@.anomalies[i] == a.anomalies@[i]@,
        forall|i: int|
            0 <= i < a.anomaly_labels@.len() ==> #[trigger] a@.anomaly_labels[i]
                == a.anomaly_labels@[i]@,
        f@.subject == f.subject@ && f@.text == f.text@ && f@.embedding == f.embedding@
            && f@.provenance == f.provenance@ && f@.created_at == f.created_at && f@.trace
            == f.trace.held(),
{
}

} // verus!
