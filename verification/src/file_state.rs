//! What a session knows of the files it has read.
//!
//! Editing a file takes having seen its current bytes. This state says which
//! lines of which version the model has been shown. It is never persisted: a
//! resumed session, a child agent or another worktree proves freshness again.

use vstd::prelude::*;
use vstd::utf8::encode_utf8;

use crate::digest;
use crate::paths;

verus! {

pub const DEFAULT_MAX_OBSERVATIONS: usize = 1024;

pub const DEFAULT_MAX_MEMORY_BYTES: usize = 262_144;

pub const DEFAULT_MAX_RANGES: usize = 32;

/// What an entry costs besides its path and its ranges.
pub const ENTRY_OVERHEAD_BYTES: usize = 256;

/// What a range costs.
pub const RANGE_BYTES: usize = 16;

/// The units `start..end`: lines, or notebook cells.
#[derive(Clone, Copy, Debug, PartialEq, Eq, Structural)]
pub struct Span {
    pub start: u64,
    pub end: u64,
}

/// Which file a path led to.
#[derive(Clone, Copy, Debug, PartialEq, Eq, Structural)]
pub struct FileIdentity {
    pub device: u64,
    pub inode: u64,
}

/// What the file system says of a file; times in nanoseconds from the epoch.
#[derive(Clone, Copy, Debug, PartialEq, Eq, Structural)]
pub struct FileMetadata {
    pub len: u64,
    pub modified: Option<i128>,
    pub created: Option<i128>,
    pub readonly: bool,
    pub device: u64,
    pub inode: u64,
    pub mode: u32,
}

/// One version of a file: what the file system says, and a digest of the bytes.
#[derive(Debug, PartialEq, Eq)]
pub struct FileVersion {
    metadata: FileMetadata,
    fingerprint: Vec<u8>,
}

#[verifier::ext_equal]
pub struct VersionView {
    pub metadata: FileMetadata,
    pub fingerprint: Seq<u8>,
}

impl View for FileVersion {
    type V = VersionView;

    closed spec fn view(&self) -> VersionView {
        VersionView { metadata: self.metadata, fingerprint: self.fingerprint@ }
    }
}

/// Which units have been read.
#[derive(Debug, PartialEq, Eq)]
pub struct ReadCoverage {
    total_units: u64,
    ranges: Vec<Span>,
    complete: bool,
}

#[verifier::ext_equal]
pub struct CoverageView {
    pub total_units: u64,
    pub ranges: Seq<Span>,
    pub complete: bool,
}

impl View for ReadCoverage {
    type V = CoverageView;

    closed spec fn view(&self) -> CoverageView {
        CoverageView {
            total_units: self.total_units,
            ranges: self.ranges@,
            complete: self.complete,
        }
    }
}

/// What one read established of a file.
#[derive(Debug, PartialEq, Eq)]
pub struct FileObservation {
    version: FileVersion,
    identity: FileIdentity,
    coverage: ReadCoverage,
    notebook_cells: bool,
}

#[verifier::ext_equal]
pub struct ObservationView {
    pub version: VersionView,
    pub identity: FileIdentity,
    pub coverage: CoverageView,
    pub notebook: bool,
}

impl View for FileObservation {
    type V = ObservationView;

    closed spec fn view(&self) -> ObservationView {
        ObservationView {
            version: self.version@,
            identity: self.identity,
            coverage: self.coverage@,
            notebook: self.notebook_cells,
        }
    }
}

// ---------------------------------------------------------------------------
// Ranges
// ---------------------------------------------------------------------------

/// Whether a range comes no later than another: by start, then by end.
pub open spec fn span_le(a: Span, b: Span) -> bool {
    a.start < b.start || (a.start == b.start && a.end <= b.end)
}

/// A sorted list with one more range in its place.
pub open spec fn with_span(sorted: Seq<Span>, x: Span) -> Seq<Span>
    decreases sorted.len(),
{
    if sorted.len() == 0 || span_le(sorted.last(), x) {
        sorted.push(x)
    } else {
        with_span(sorted.drop_last(), x).push(sorted.last())
    }
}

/// The ranges in order.
pub open spec fn sorted_spans(ranges: Seq<Span>) -> Seq<Span>
    decreases ranges.len(),
{
    if ranges.len() == 0 {
        Seq::empty()
    } else {
        with_span(sorted_spans(ranges.drop_last()), ranges.last())
    }
}

/// A list with one more range, at least as late as all in it: joined to the
/// last where they touch, else added while there is room.
pub open spec fn joined_with(merged: Seq<Span>, x: Span, max: nat) -> Seq<Span> {
    if merged.len() > 0 && x.start <= merged.last().end {
        merged.update(
            merged.len() - 1,
            Span {
                start: merged.last().start,
                end: if merged.last().end < x.end {
                    x.end
                } else {
                    merged.last().end
                },
            },
        )
    } else if merged.len() < max {
        merged.push(x)
    } else {
        merged
    }
}

/// A sorted list with everything that touches joined, at most `max` ranges.
pub open spec fn joined_spans(sorted: Seq<Span>, max: nat) -> Seq<Span>
    decreases sorted.len(),
{
    if sorted.len() == 0 {
        Seq::empty()
    } else {
        joined_with(joined_spans(sorted.drop_last(), max), sorted.last(), max)
    }
}

/// A range set in its normal form.
pub open spec fn coalesced(ranges: Seq<Span>, max: nat) -> Seq<Span> {
    joined_spans(sorted_spans(ranges), max)
}

/// Whether a unit lies in one of the ranges.
pub open spec fn covers(ranges: Seq<Span>, unit: int) -> bool {
    exists|i: int| 0 <= i < ranges.len() && (#[trigger] ranges[i]).start <= unit < ranges[i].end
}

proof fn lemma_with_span_at(sorted: Seq<Span>, x: Span, pos: int)
    requires
        0 <= pos <= sorted.len(),
        pos > 0 ==> span_le(sorted[pos - 1], x),
        forall|i: int| pos <= i < sorted.len() ==> !span_le(#[trigger] sorted[i], x),
    ensures
        with_span(sorted, x) == sorted.insert(pos, x),
    decreases sorted.len(),
{
    if pos == sorted.len() {
        assert(sorted.insert(pos, x) =~= sorted.push(x));
    } else {
        assert(!span_le(sorted[sorted.len() - 1], x));
        lemma_with_span_at(sorted.drop_last(), x, pos);
        assert(sorted.drop_last().insert(pos, x).push(sorted.last()) =~= sorted.insert(pos, x));
    }
}

/// Brings a range set into its normal form: in order, with everything that
/// touches joined, and no more than `max_ranges` of them. The highest are
/// dropped, which can only make a later read look fresh.
pub fn coalesce(ranges: &Vec<Span>, max_ranges: usize) -> (r: Vec<Span>)
    ensures
        r@ == coalesced(ranges@, max_ranges as nat),
{
    let mut sorted: Vec<Span> = Vec::new();
    let mut i: usize = 0;
    proof {
        assert(sorted@ =~= sorted_spans(ranges@.take(0)));
    }
    while i < ranges.len()
        invariant
            i <= ranges@.len(),
            sorted@.len() == i,
            sorted@ == sorted_spans(ranges@.take(i as int)),
        decreases ranges@.len() - i,
    {
        let x = ranges[i];
        proof {
            assert(ranges@.take(i + 1).drop_last() =~= ranges@.take(i as int));
        }
        let mut pos: usize = sorted.len();
        while pos > 0 && !(sorted[pos - 1].start < x.start || (sorted[pos - 1].start == x.start
            && sorted[pos - 1].end <= x.end))
            invariant
                pos <= sorted@.len(),
                forall|k: int| pos <= k < sorted@.len() ==> !span_le(#[trigger] sorted@[k], x),
            decreases pos,
        {
            pos -= 1;
        }
        proof {
            lemma_with_span_at(sorted@, x, pos as int);
        }
        sorted.insert(pos, x);
        i += 1;
    }
    proof {
        assert(ranges@.take(ranges@.len() as int) =~= ranges@);
    }
    let mut merged: Vec<Span> = Vec::new();
    let mut k: usize = 0;
    proof {
        assert(merged@ =~= joined_spans(sorted@.take(0), max_ranges as nat));
    }
    while k < sorted.len()
        invariant
            k <= sorted@.len(),
            sorted@ == sorted_spans(ranges@),
            merged@ == joined_spans(sorted@.take(k as int), max_ranges as nat),
        decreases sorted@.len() - k,
    {
        let x = sorted[k];
        proof {
            assert(sorted@.take(k + 1).drop_last() =~= sorted@.take(k as int));
        }
        let n: usize = merged.len();
        if n > 0 && x.start <= merged[n - 1].end {
            let last = merged[n - 1];
            let end: u64 = if last.end < x.end {
                x.end
            } else {
                last.end
            };
            merged.set(n - 1, Span { start: last.start, end });
        } else if n < max_ranges {
            merged.push(x);
        }
        k += 1;
    }
    proof {
        assert(sorted@.take(sorted@.len() as int) =~= sorted@);
    }
    merged
}

// ---------------------------------------------------------------------------
// Coverage
// ---------------------------------------------------------------------------

/// Whether the ranges alone show every unit.
pub open spec fn shows_everything(total: u64, ranges: Seq<Span>) -> bool {
    total == 0 || (ranges.len() == 1 && ranges[0].start == 0 && ranges[0].end >= total)
}

/// The coverage of one read.
pub open spec fn read_coverage(total: u64, range: Span, empty_from_start: bool) -> CoverageView {
    let start = if range.start < total {
        range.start
    } else {
        total
    };
    let capped = if range.end < total {
        range.end
    } else {
        total
    };
    let end = if capped > start {
        capped
    } else {
        start
    };
    let ranges = if start < end {
        seq![Span { start, end }]
    } else {
        Seq::<Span>::empty()
    };
    CoverageView {
        total_units: total,
        ranges,
        complete: (total == 0 && empty_from_start) || shows_everything(total, ranges),
    }
}

/// The coverage of a read and of earlier ones of the same version.
pub open spec fn merged_coverage(now: CoverageView, older: CoverageView, max: nat) -> CoverageView {
    let ranges = coalesced(now.ranges + older.ranges, max);
    CoverageView {
        total_units: now.total_units,
        ranges,
        complete: now.complete || older.complete || shows_everything(now.total_units, ranges),
    }
}

/// How far coverage reaches from the front, over the first `n` ranges.
pub open spec fn covered_through(ranges: Seq<Span>, n: nat, reached: u64) -> u64
    decreases n,
{
    if n == 0 || ranges[ranges.len() - n].start > reached {
        reached
    } else {
        covered_through(
            ranges,
            (n - 1) as nat,
            if ranges[ranges.len() - n].end > reached {
                ranges[ranges.len() - n].end
            } else {
                reached
            },
        )
    }
}

/// The first unit not read, counted from one.
pub open spec fn first_unread(c: CoverageView) -> Option<u64> {
    let through = covered_through(c.ranges, c.ranges.len(), 0);
    if c.complete || through >= c.total_units {
        None
    } else {
        Some((through + 1) as u64)
    }
}

fn is_everything(total: u64, ranges: &Vec<Span>) -> (r: bool)
    ensures
        r == shows_everything(total, ranges@),
{
    total == 0 || (ranges.len() == 1 && ranges[0].start == 0 && ranges[0].end >= total)
}

impl ReadCoverage {
    fn new(total_units: u64, range: Span, empty_from_start: bool) -> (r: Self)
        ensures
            r@ == read_coverage(total_units, range, empty_from_start),
    {
        let start: u64 = if range.start < total_units {
            range.start
        } else {
            total_units
        };
        let capped: u64 = if range.end < total_units {
            range.end
        } else {
            total_units
        };
        let end: u64 = if capped > start {
            capped
        } else {
            start
        };
        let mut ranges: Vec<Span> = Vec::new();
        if start < end {
            ranges.push(Span { start, end });
        }
        proof {
            assert(ranges@ =~= read_coverage(total_units, range, empty_from_start).ranges);
        }
        let complete = (total_units == 0 && empty_from_start) || is_everything(
            total_units,
            &ranges,
        );
        ReadCoverage { total_units, ranges, complete }
    }

    fn copy(&self) -> (r: Self)
        ensures
            r@ == self@,
    {
        let mut ranges: Vec<Span> = Vec::new();
        let mut i: usize = 0;
        while i < self.ranges.len()
            invariant
                i <= self.ranges@.len(),
                ranges@ == self.ranges@.take(i as int),
            decreases self.ranges@.len() - i,
        {
            ranges.push(self.ranges[i]);
            i += 1;
            proof {
                assert(ranges@ =~= self.ranges@.take(i as int));
            }
        }
        proof {
            assert(self.ranges@.take(self.ranges@.len() as int) =~= self.ranges@);
        }
        ReadCoverage { total_units: self.total_units, ranges, complete: self.complete }
    }

    fn merge(&mut self, older: &Self, max_ranges: usize)
        ensures
            final(self)@ == merged_coverage(old(self)@, older@, max_ranges as nat),
    {
        let mut all: Vec<Span> = Vec::new();
        let mut i: usize = 0;
        while i < self.ranges.len()
            invariant
                i <= self.ranges@.len(),
                all@ == self.ranges@.take(i as int),
            decreases self.ranges@.len() - i,
        {
            all.push(self.ranges[i]);
            i += 1;
            proof {
                assert(all@ =~= self.ranges@.take(i as int));
            }
        }
        let mut k: usize = 0;
        let ghost mine = self.ranges@;
        proof {
            assert(mine.take(mine.len() as int) =~= mine);
            assert(all@ =~= mine + older.ranges@.take(0));
        }
        while k < older.ranges.len()
            invariant
                k <= older.ranges@.len(),
                all@ == mine + older.ranges@.take(k as int),
            decreases older.ranges@.len() - k,
        {
            all.push(older.ranges[k]);
            k += 1;
            proof {
                assert(all@ =~= mine + older.ranges@.take(k as int));
            }
        }
        proof {
            assert(older.ranges@.take(older.ranges@.len() as int) =~= older.ranges@);
        }
        self.ranges = coalesce(&all, max_ranges);
        self.complete = self.complete || older.complete || is_everything(
            self.total_units,
            &self.ranges,
        );
    }
}

// ---------------------------------------------------------------------------
// Versions and observations
// ---------------------------------------------------------------------------

/// The version of a file with these bytes.
pub open spec fn version_of(bytes: Seq<u8>, metadata: FileMetadata) -> VersionView {
    VersionView { metadata, fingerprint: digest::sha256_of(bytes) }
}

fn same_bytes(a: &Vec<u8>, b: &Vec<u8>) -> (r: bool)
    ensures
        r == (a@ == b@),
{
    if a.len() != b.len() {
        return false;
    }
    let mut i: usize = 0;
    while i < a.len()
        invariant
            a@.len() == b@.len(),
            i <= a@.len(),
            forall|k: int| 0 <= k < i ==> a@[k] == b@[k],
        decreases a@.len() - i,
    {
        if a[i] != b[i] {
            return false;
        }
        i += 1;
    }
    proof {
        assert(a@ =~= b@);
    }
    true
}

fn copy_bytes(v: &Vec<u8>) -> (r: Vec<u8>)
    ensures
        r@ == v@,
{
    let mut out: Vec<u8> = Vec::new();
    let mut i: usize = 0;
    while i < v.len()
        invariant
            i <= v@.len(),
            out@ == v@.take(i as int),
        decreases v@.len() - i,
    {
        out.push(v[i]);
        i += 1;
        proof {
            assert(out@ =~= v@.take(i as int));
        }
    }
    proof {
        assert(v@.take(v@.len() as int) =~= v@);
    }
    out
}

impl FileVersion {
    /// The version of a file with these bytes.
    pub fn new(bytes: &[u8], metadata: FileMetadata) -> (r: Self)
        ensures
            r@ == version_of(bytes@, metadata),
    {
        FileVersion { metadata, fingerprint: digest::sha256(bytes) }
    }

    /// The version whose digest is known.
    pub fn from_fingerprint(fingerprint: Vec<u8>, metadata: FileMetadata) -> (r: Self)
        ensures
            r@ == (VersionView { metadata, fingerprint: fingerprint@ }),
    {
        FileVersion { metadata, fingerprint }
    }

    /// Whether two versions are the same.
    pub fn same(&self, other: &Self) -> (r: bool)
        ensures
            r == (self@ == other@),
    {
        proof {
            if self@ == other@ {
                assert(self.fingerprint@ == other.fingerprint@);
            }
        }
        self.metadata == other.metadata && same_bytes(&self.fingerprint, &other.fingerprint)
    }

    /// Whether these bytes and this metadata are this version.
    pub fn matches(&self, bytes: &[u8], metadata: FileMetadata) -> (r: bool)
        ensures
            r == (self@ == version_of(bytes@, metadata)),
    {
        self.same(&FileVersion::new(bytes, metadata))
    }

    /// Whether the file system still says of the file what it said.
    pub fn metadata_matches(&self, metadata: FileMetadata) -> (r: bool)
        ensures
            r == (self@.metadata == metadata),
    {
        self.metadata == metadata
    }

    fn copy(&self) -> (r: Self)
        ensures
            r@ == self@,
    {
        FileVersion { metadata: self.metadata, fingerprint: copy_bytes(&self.fingerprint) }
    }
}

impl FileObservation {
    /// What a read of some units established.
    pub fn from_read_with_identity(
        bytes: &[u8],
        metadata: FileMetadata,
        identity: FileIdentity,
        total_units: u64,
        range: Span,
        empty_from_start: bool,
    ) -> (r: Self)
        ensures
            r@ == (ObservationView {
                version: version_of(bytes@, metadata),
                identity,
                coverage: read_coverage(total_units, range, empty_from_start),
                notebook: false,
            }),
    {
        FileObservation {
            version: FileVersion::new(bytes, metadata),
            identity,
            coverage: ReadCoverage::new(total_units, range, empty_from_start),
            notebook_cells: false,
        }
    }

    /// What a whole read, or a write, established: counted in bytes.
    pub fn full_with_identity(bytes: &[u8], metadata: FileMetadata, identity: FileIdentity) -> (r:
        Self)
        ensures
            r@ == (ObservationView {
                version: version_of(bytes@, metadata),
                identity,
                coverage: read_coverage(
                    bytes@.len() as u64,
                    Span { start: 0, end: bytes@.len() as u64 },
                    true,
                ),
                notebook: false,
            }),
            r@.coverage.complete,
    {
        let len: u64 = bytes.len() as u64;
        Self::from_read_with_identity(bytes, metadata, identity, len, Span { start: 0, end: len }, true)
    }

    /// What a whole read of a notebook's cells established.
    pub fn full_notebook_with_identity(
        bytes: &[u8],
        metadata: FileMetadata,
        identity: FileIdentity,
    ) -> (r: Self)
        ensures
            r@ == (ObservationView {
                version: version_of(bytes@, metadata),
                identity,
                coverage: read_coverage(
                    bytes@.len() as u64,
                    Span { start: 0, end: bytes@.len() as u64 },
                    true,
                ),
                notebook: true,
            }),
            r@.coverage.complete,
    {
        let mut observation = Self::full_with_identity(bytes, metadata, identity);
        observation.notebook_cells = true;
        observation
    }

    /// Whether the read was of notebook cells.
    pub fn is_notebook(&self) -> (r: bool)
        ensures
            r == self@.notebook,
    {
        self.notebook_cells
    }

    /// The version that was read.
    pub fn version(&self) -> (r: &FileVersion)
        ensures
            r@ == self@.version,
    {
        &self.version
    }

    /// The file that was read.
    pub fn identity(&self) -> (r: FileIdentity)
        ensures
            r == self@.identity,
    {
        self.identity
    }

    /// Whether every unit has been read.
    pub fn is_complete(&self) -> (r: bool)
        ensures
            r == self@.coverage.complete,
    {
        self.coverage.complete
    }

    /// The first unit that has not been read, counted from one: where a read
    /// has to start to close the gap from the front.
    pub fn first_unread_unit(&self) -> (r: Option<u64>)
        ensures
            r == first_unread(self@.coverage),
    {
        let ghost all = self@.coverage.ranges;
        if self.coverage.complete {
            return None;
        }
        let mut reached: u64 = 0;
        let mut i: usize = 0;
        let mut open = true;
        while open && i < self.coverage.ranges.len()
            invariant
                i <= self.coverage.ranges@.len(),
                all == self.coverage.ranges@,
                covered_through(all, all.len(), 0) == covered_through(
                    all,
                    (all.len() - i) as nat,
                    reached,
                ),
                !open ==> covered_through(all, (all.len() - i) as nat, reached) == reached,
            decreases self.coverage.ranges@.len() - i + (if open { 1int } else { 0int }),
        {
            let range = self.coverage.ranges[i];
            if range.start > reached {
                open = false;
            } else {
                if range.end > reached {
                    reached = range.end;
                }
                i += 1;
            }
        }
        if reached < self.coverage.total_units {
            Some(reached + 1)
        } else {
            None
        }
    }

    /// The one range that this read established, before any merge; nothing for
    /// a read past the end.
    pub fn read_range(&self) -> (r: Option<Span>)
        ensures
            r == only_range(self@.coverage),
    {
        if self.coverage.ranges.len() == 1 {
            Some(self.coverage.ranges[0])
        } else {
            None
        }
    }

    fn copy(&self) -> (r: Self)
        ensures
            r@ == self@,
    {
        FileObservation {
            version: self.version.copy(),
            identity: self.identity,
            coverage: self.coverage.copy(),
            notebook_cells: self.notebook_cells,
        }
    }
}

/// The only range of a coverage.
pub open spec fn only_range(c: CoverageView) -> Option<Span> {
    if c.ranges.len() == 1 {
        Some(c.ranges[0])
    } else {
        None
    }
}

// ---------------------------------------------------------------------------
// The state
// ---------------------------------------------------------------------------

struct Slot {
    key: Vec<u32>,
    path: String,
    observation: FileObservation,
    last_updated: u64,
}

/// What is known of one path.
#[verifier::ext_equal]
pub struct SlotView {
    pub key: Seq<u32>,
    pub path: Seq<char>,
    pub observation: ObservationView,
    pub last_updated: u64,
}

impl Slot {
    spec fn model(self) -> SlotView {
        SlotView {
            key: self.key@,
            path: self.path@,
            observation: self.observation@,
            last_updated: self.last_updated,
        }
    }
}

spec fn slot_views(v: Seq<Slot>) -> Seq<SlotView> {
    v.map_values(|s: Slot| s.model())
}

struct ContextReads {
    key: Vec<u32>,
    version: FileVersion,
    ranges: Vec<Span>,
    rereads: u32,
    last_updated: u64,
}

/// Which lines of one path the model has been shown since the last compaction.
#[verifier::ext_equal]
pub struct ReadsView {
    pub key: Seq<u32>,
    pub version: VersionView,
    pub ranges: Seq<Span>,
    pub rereads: u32,
    pub last_updated: u64,
}

impl ContextReads {
    spec fn model(self) -> ReadsView {
        ReadsView {
            key: self.key@,
            version: self.version@,
            ranges: self.ranges@,
            rereads: self.rereads,
            last_updated: self.last_updated,
        }
    }
}

spec fn reads_views(v: Seq<ContextReads>) -> Seq<ReadsView> {
    v.map_values(|r: ContextReads| r.model())
}

/// What a session knows of the files it has read.
pub struct FileState {
    observations: Vec<Slot>,
    context_reads: Vec<ContextReads>,
    sequence: u64,
    max_observations: usize,
    max_memory_bytes: usize,
    max_ranges: usize,
}

/// The mathematical content: both lists in the order of their paths.
#[verifier::ext_equal]
pub struct FileStateView {
    pub observations: Seq<SlotView>,
    pub context_reads: Seq<ReadsView>,
    pub sequence: u64,
    pub max_observations: nat,
    pub max_memory_bytes: nat,
    pub max_ranges: nat,
}

impl View for FileState {
    type V = FileStateView;

    closed spec fn view(&self) -> FileStateView {
        FileStateView {
            observations: slot_views(self.observations@),
            context_reads: reads_views(self.context_reads@),
            sequence: self.sequence,
            max_observations: self.max_observations as nat,
            max_memory_bytes: self.max_memory_bytes as nat,
            max_ranges: self.max_ranges as nat,
        }
    }
}

/// A change of what is known of a path.
#[derive(Debug, PartialEq, Eq)]
pub enum FileStateUpdate {
    /// A read: it adds to what is known of the same version.
    Observe { path: String, observation: FileObservation },
    /// A write: what was known is replaced.
    Replace { path: String, observation: FileObservation },
    Clear { path: String },
}

/// The keys of a list of observations.
pub open spec fn slot_keys(v: Seq<SlotView>) -> Seq<Seq<u32>> {
    v.map_values(|s: SlotView| s.key)
}

/// The keys of a list of context reads.
pub open spec fn reads_keys(v: Seq<ReadsView>) -> Seq<Seq<u32>> {
    v.map_values(|r: ReadsView| r.key)
}

/// Keys in strictly rising order.
pub open spec fn rising(keys: Seq<Seq<u32>>) -> bool {
    forall|i: int, j: int|
        0 <= i < j < keys.len() ==> paths::before(#[trigger] keys[i], #[trigger] keys[j])
}

/// Where a key stands, or would stand: after all keys before it.
pub open spec fn place_of(keys: Seq<Seq<u32>>, key: Seq<u32>) -> nat
    decreases keys.len(),
{
    if keys.len() == 0 || !paths::before(keys[0], key) {
        0
    } else {
        1 + place_of(keys.drop_first(), key)
    }
}

/// Whether a key is there.
pub open spec fn present(keys: Seq<Seq<u32>>, key: Seq<u32>) -> bool {
    place_of(keys, key) < keys.len() && keys[place_of(keys, key) as int] == key
}

/// Each path is there once, in order, and the limits hold.
pub open spec fn well_formed(s: FileStateView) -> bool {
    &&& rising(slot_keys(s.observations))
    &&& rising(reads_keys(s.context_reads))
    &&& !over_limits(s, s.observations)
    &&& s.context_reads.len() <= s.max_observations
}

/// What is known of a path.
pub open spec fn known(s: FileStateView, path: Seq<char>) -> Option<ObservationView> {
    let keys = slot_keys(s.observations);
    let key = paths::path_key(path);
    if present(keys, key) {
        Some(s.observations[place_of(keys, key) as int].observation)
    } else {
        None
    }
}

/// A list with an observation in its place. A path that is there keeps the
/// spelling it was first seen under.
pub open spec fn with_observation(
    slots: Seq<SlotView>,
    path: Seq<char>,
    observation: ObservationView,
    at: u64,
) -> Seq<SlotView> {
    let key = paths::path_key(path);
    let i = place_of(slot_keys(slots), key) as int;
    if present(slot_keys(slots), key) {
        slots.update(i, SlotView { observation, last_updated: at, ..slots[i] })
    } else {
        slots.insert(i, SlotView { key, path, observation, last_updated: at })
    }
}

/// A list without a path.
pub open spec fn without_path(slots: Seq<SlotView>, path: Seq<char>) -> Seq<SlotView> {
    let key = paths::path_key(path);
    if present(slot_keys(slots), key) {
        slots.remove(place_of(slot_keys(slots), key) as int)
    } else {
        slots
    }
}

/// The bytes that one entry costs.
pub open spec fn slot_bytes(s: SlotView) -> nat {
    ENTRY_OVERHEAD_BYTES as nat + encode_utf8(s.path).len()
        + s.observation.coverage.ranges.len() * RANGE_BYTES as nat
}

/// The bytes that all entries cost.
pub open spec fn memory_bytes(slots: Seq<SlotView>) -> nat
    decreases slots.len(),
{
    if slots.len() == 0 {
        0
    } else {
        memory_bytes(slots.drop_last()) + slot_bytes(slots.last())
    }
}

pub open spec fn over_limits(s: FileStateView, slots: Seq<SlotView>) -> bool {
    slots.len() > s.max_observations || memory_bytes(slots) > s.max_memory_bytes
}

/// The entry updated longest ago among the first `n`; of two, the first.
pub open spec fn oldest(slots: Seq<SlotView>, n: nat) -> nat
    decreases n,
{
    if n <= 1 {
        0
    } else {
        let best = oldest(slots, (n - 1) as nat);
        if slots[n - 1].last_updated < slots[best as int].last_updated {
            (n - 1) as nat
        } else {
            best
        }
    }
}

/// The entries left when the oldest go until the limits hold.
pub open spec fn within_limits(s: FileStateView, slots: Seq<SlotView>) -> Seq<SlotView>
    decreases slots.len(),
{
    if slots.len() > 0 && over_limits(s, slots) {
        let i = oldest(slots, slots.len()) as int;
        if 0 <= i < slots.len() {
            within_limits(s, slots.remove(i))
        } else {
            slots
        }
    } else {
        slots
    }
}

/// What a read adds up to with what was known: complete coverage of the same
/// version stays complete; partial coverage of the same units is merged.
pub open spec fn combined(
    now: ObservationView,
    existing: Option<ObservationView>,
    max_ranges: nat,
) -> ObservationView {
    match existing {
        Some(e) => if e.version == now.version && e.identity == now.identity && e.notebook
            == now.notebook {
            if e.coverage.complete {
                ObservationView {
                    coverage: CoverageView { complete: true, ..now.coverage },
                    ..now
                }
            } else if e.coverage.total_units == now.coverage.total_units {
                ObservationView {
                    coverage: merged_coverage(now.coverage, e.coverage, max_ranges),
                    ..now
                }
            } else {
                now
            }
        } else {
            now
        },
        None => now,
    }
}

/// The next number of the sequence, starting over after the last.
pub open spec fn next_sequence(n: u64) -> u64 {
    if n == u64::MAX {
        0
    } else {
        (n + 1) as u64
    }
}

/// The entries after an update, before the limits.
pub open spec fn updated(s: FileStateView, update: FileStateUpdate) -> Seq<SlotView> {
    let at = next_sequence(s.sequence);
    match update {
        FileStateUpdate::Observe { path, observation } => with_observation(
            s.observations,
            path@,
            combined(observation@, known(s, path@), s.max_ranges),
            at,
        ),
        FileStateUpdate::Replace { path, observation } => with_observation(
            s.observations,
            path@,
            observation@,
            at,
        ),
        FileStateUpdate::Clear { path } => without_path(s.observations, path@),
    }
}

/// The state after an update.
pub open spec fn applied(s: FileStateView, update: FileStateUpdate) -> FileStateView {
    FileStateView {
        observations: within_limits(s, updated(s, update)),
        sequence: next_sequence(s.sequence),
        ..s
    }
}

// ---------------------------------------------------------------------------
// Facts about ordered keys
// ---------------------------------------------------------------------------

proof fn lemma_place(keys: Seq<Seq<u32>>, key: Seq<u32>, i: int)
    requires
        0 <= i <= keys.len(),
        forall|k: int| 0 <= k < i ==> paths::before(#[trigger] keys[k], key),
        i < keys.len() ==> !paths::before(keys[i], key),
    ensures
        place_of(keys, key) == i,
    decreases keys.len(),
{
    if i > 0 {
        assert(paths::before(keys[0], key));
        let rest = keys.drop_first();
        assert forall|k: int| 0 <= k < i - 1 implies paths::before(#[trigger] rest[k], key) by {
            assert(rest[k] == keys[k + 1]);
        }
        lemma_place(rest, key, i - 1);
    }
}

proof fn lemma_place_bounds(keys: Seq<Seq<u32>>, key: Seq<u32>)
    ensures
        place_of(keys, key) <= keys.len(),
        forall|k: int| 0 <= k < place_of(keys, key) ==> paths::before(#[trigger] keys[k], key),
        place_of(keys, key) < keys.len() ==> !paths::before(
            keys[place_of(keys, key) as int],
            key,
        ),
    decreases keys.len(),
{
    if keys.len() > 0 && paths::before(keys[0], key) {
        let rest = keys.drop_first();
        lemma_place_bounds(rest, key);
        assert forall|k: int| 0 <= k < place_of(keys, key) implies paths::before(
            #[trigger] keys[k],
            key,
        ) by {
            if k > 0 {
                assert(rest[k - 1] == keys[k]);
            }
        }
    }
}

proof fn lemma_insert_rising(keys: Seq<Seq<u32>>, key: Seq<u32>)
    requires
        rising(keys),
        !present(keys, key),
    ensures
        rising(keys.insert(place_of(keys, key) as int, key)),
        place_of(keys, key) <= keys.len(),
{
    lemma_place_bounds(keys, key);
    let p = place_of(keys, key) as int;
    let now = keys.insert(p, key);
    if p < keys.len() {
        paths::lemma_before_total(keys[p], key);
    }
    assert forall|i: int, j: int| 0 <= i < j < now.len() implies paths::before(
        #[trigger] now[i],
        #[trigger] now[j],
    ) by {
        if j == p {
            assert(now[i] == keys[i]);
        } else if i == p {
            assert(now[j] == keys[j - 1]);
            if j - 1 > p {
                assert(paths::before(keys[p], keys[j - 1]));
                paths::lemma_before_transitive(key, keys[p], keys[j - 1]);
            }
        } else {
            let a = if i < p {
                i
            } else {
                i - 1
            };
            let b = if j < p {
                j
            } else {
                j - 1
            };
            assert(now[i] == keys[a] && now[j] == keys[b]);
            assert(paths::before(keys[a], keys[b]));
        }
    }
}

proof fn lemma_remove_rising(keys: Seq<Seq<u32>>, i: int)
    requires
        rising(keys),
        0 <= i < keys.len(),
    ensures
        rising(keys.remove(i)),
{
    let now = keys.remove(i);
    assert forall|a: int, b: int| 0 <= a < b < now.len() implies paths::before(
        #[trigger] now[a],
        #[trigger] now[b],
    ) by {
        let x = if a < i {
            a
        } else {
            a + 1
        };
        let y = if b < i {
            b
        } else {
            b + 1
        };
        assert(now[a] == keys[x] && now[b] == keys[y]);
        assert(paths::before(keys[x], keys[y]));
    }
}

proof fn lemma_oldest_bounds(slots: Seq<SlotView>, n: nat)
    requires
        0 < n <= slots.len(),
    ensures
        oldest(slots, n) < n,
        forall|i: int|
            0 <= i < n ==> slots[oldest(slots, n) as int].last_updated <= (
            #[trigger] slots[i]).last_updated,
    decreases n,
{
    if n > 1 {
        lemma_oldest_bounds(slots, (n - 1) as nat);
    }
}

proof fn lemma_within_limits(s: FileStateView, slots: Seq<SlotView>)
    requires
        rising(slot_keys(slots)),
    ensures
        rising(slot_keys(within_limits(s, slots))),
        !over_limits(s, within_limits(s, slots)),
    decreases slots.len(),
{
    if slots.len() > 0 && over_limits(s, slots) {
        lemma_oldest_bounds(slots, slots.len());
        let i = oldest(slots, slots.len()) as int;
        lemma_remove_rising(slot_keys(slots), i);
        assert(slot_keys(slots.remove(i)) =~= slot_keys(slots).remove(i));
        lemma_within_limits(s, slots.remove(i));
    } else if slots.len() == 0 {
        assert(memory_bytes(slots) == 0);
    }
}

proof fn lemma_updated_rising(s: FileStateView, update: FileStateUpdate)
    requires
        rising(slot_keys(s.observations)),
    ensures
        rising(slot_keys(updated(s, update))),
{
    let keys = slot_keys(s.observations);
    match update {
        FileStateUpdate::Observe { path, observation } => {
            lemma_with_observation_rising(
                s.observations,
                path@,
                combined(observation@, known(s, path@), s.max_ranges),
                next_sequence(s.sequence),
            );
        },
        FileStateUpdate::Replace { path, observation } => {
            lemma_with_observation_rising(
                s.observations,
                path@,
                observation@,
                next_sequence(s.sequence),
            );
        },
        FileStateUpdate::Clear { path } => {
            let key = paths::path_key(path@);
            if present(keys, key) {
                let i = place_of(keys, key) as int;
                lemma_remove_rising(keys, i);
                assert(slot_keys(s.observations.remove(i)) =~= keys.remove(i));
            }
        },
    }
}

proof fn lemma_with_observation_rising(
    slots: Seq<SlotView>,
    path: Seq<char>,
    observation: ObservationView,
    at: u64,
)
    requires
        rising(slot_keys(slots)),
    ensures
        rising(slot_keys(with_observation(slots, path, observation, at))),
{
    let keys = slot_keys(slots);
    let key = paths::path_key(path);
    let i = place_of(keys, key) as int;
    if present(keys, key) {
        assert(slot_keys(with_observation(slots, path, observation, at)) =~= keys);
    } else {
        lemma_insert_rising(keys, key);
        assert(slot_keys(with_observation(slots, path, observation, at)) =~= keys.insert(i, key));
    }
}

// ---------------------------------------------------------------------------
// Executable state
// ---------------------------------------------------------------------------

fn same_key(a: &Vec<u32>, b: &Vec<u32>) -> (r: bool)
    ensures
        r == (a@ == b@),
{
    if a.len() != b.len() {
        return false;
    }
    let mut i: usize = 0;
    while i < a.len()
        invariant
            a@.len() == b@.len(),
            i <= a@.len(),
            forall|k: int| 0 <= k < i ==> a@[k] == b@[k],
        decreases a@.len() - i,
    {
        if a[i] != b[i] {
            return false;
        }
        i += 1;
    }
    proof {
        assert(a@ =~= b@);
    }
    true
}

impl Default for FileState {
    fn default() -> (r: Self)
        ensures
            r@ == (FileStateView {
                observations: Seq::empty(),
                context_reads: Seq::empty(),
                sequence: 0,
                max_observations: DEFAULT_MAX_OBSERVATIONS as nat,
                max_memory_bytes: DEFAULT_MAX_MEMORY_BYTES as nat,
                max_ranges: DEFAULT_MAX_RANGES as nat,
            }),
            well_formed(r@),
    {
        FileState::with_limits(
            DEFAULT_MAX_OBSERVATIONS,
            DEFAULT_MAX_MEMORY_BYTES,
            DEFAULT_MAX_RANGES,
        )
    }
}

impl FileState {
    /// A state that knows nothing, with its limits.
    pub fn with_limits(max_observations: usize, max_memory_bytes: usize, max_ranges: usize) -> (r:
        Self)
        ensures
            r@ == (FileStateView {
                observations: Seq::empty(),
                context_reads: Seq::empty(),
                sequence: 0,
                max_observations: max_observations as nat,
                max_memory_bytes: max_memory_bytes as nat,
                max_ranges: max_ranges as nat,
            }),
            well_formed(r@),
    {
        let r = FileState {
            observations: Vec::new(),
            context_reads: Vec::new(),
            sequence: 0,
            max_observations,
            max_memory_bytes,
            max_ranges,
        };
        proof {
            assert(r@.observations =~= Seq::<SlotView>::empty());
            assert(r@.context_reads =~= Seq::<ReadsView>::empty());
        }
        r
    }

    /// How many paths are known.
    pub fn len(&self) -> (r: usize)
        ensures
            r == self@.observations.len(),
    {
        self.observations.len()
    }

    fn place(&self, key: &Vec<u32>) -> (r: usize)
        ensures
            r == place_of(slot_keys(self@.observations), key@),
            r <= self.observations@.len(),
    {
        let ghost keys = slot_keys(self@.observations);
        let mut i: usize = 0;
        while i < self.observations.len() && paths::comes_before(&self.observations[i].key, key)
            invariant
                i <= self.observations@.len(),
                keys == slot_keys(self@.observations),
                keys.len() == self.observations@.len(),
                forall|k: int| 0 <= k < i ==> paths::before(#[trigger] keys[k], key@),
            decreases self.observations@.len() - i,
        {
            proof {
                assert(keys[i as int] == self.observations@[i as int].key@);
            }
            i += 1;
        }
        proof {
            if i < keys.len() {
                assert(keys[i as int] == self.observations@[i as int].key@);
            }
            lemma_place(keys, key@, i as int);
        }
        i
    }

    fn is_at(&self, i: usize, key: &Vec<u32>) -> (r: bool)
        requires
            i == place_of(slot_keys(self@.observations), key@),
        ensures
            r == present(slot_keys(self@.observations), key@),
            r ==> i < self.observations@.len(),
    {
        if i < self.observations.len() {
            proof {
                assert(slot_keys(self@.observations)[i as int] == self.observations@[i as int].key@);
            }
            same_key(&self.observations[i].key, key)
        } else {
            false
        }
    }

    /// What is known of a path.
    pub fn observation(&self, path: &str) -> (r: Option<FileObservation>)
        ensures
            match r {
                Some(o) => known(self@, path@) == Some(o@),
                None => known(self@, path@) is None,
            },
    {
        let key = paths::key_of(path);
        let i: usize = self.place(&key);
        if self.is_at(i, &key) {
            proof {
                assert(self@.observations[i as int] == self.observations@[i as int].model());
            }
            Some(self.observations[i].observation.copy())
        } else {
            None
        }
    }

    fn put(&mut self, path: String, observation: FileObservation, at: u64)
        ensures
            final(self)@ == (FileStateView {
                observations: with_observation(
                    old(self)@.observations,
                    path@,
                    observation@,
                    at,
                ),
                ..old(self)@
            }),
    {
        let ghost before = self@;
        let key = paths::key_of(path.as_str());
        let i: usize = self.place(&key);
        if self.is_at(i, &key) {
            let slot = Slot {
                key,
                path: self.observations[i].path.clone(),
                observation,
                last_updated: at,
            };
            proof {
                assert(before.observations[i as int] == self.observations@[i as int].model());
                assert(slot_keys(before.observations)[i as int] == key@);
            }
            let ghost view = slot.model();
            self.observations.set(i, slot);
            proof {
                assert(self@.observations =~= before.observations.update(i as int, view));
            }
        } else {
            let slot = Slot { key, path, observation, last_updated: at };
            let ghost view = slot.model();
            self.observations.insert(i, slot);
            proof {
                assert(self@.observations =~= before.observations.insert(i as int, view));
            }
        }
    }

    fn remove_at(&mut self, i: usize)
        requires
            i < old(self).observations@.len(),
        ensures
            final(self)@ == (FileStateView {
                observations: old(self)@.observations.remove(i as int),
                ..old(self)@
            }),
            final(self).observations@.len() == old(self).observations@.len() - 1,
    {
        let ghost before = self@;
        let _ = self.observations.remove(i);
        proof {
            assert(self@.observations =~= before.observations.remove(i as int));
        }
    }

    fn is_over_memory(&self) -> (r: bool)
        ensures
            r == (memory_bytes(self@.observations) > self@.max_memory_bytes),
    {
        let ghost all = self@.observations;
        let mut total: u128 = 0;
        let mut i: usize = 0;
        proof {
            assert(all.take(0) =~= Seq::<SlotView>::empty());
        }
        while i < self.observations.len()
            invariant
                i <= self.observations@.len(),
                all == self@.observations,
                all.len() == self.observations@.len(),
                total == memory_bytes(all.take(i as int)),
                total <= self.max_memory_bytes,
            decreases self.observations@.len() - i,
        {
            let slot = &self.observations[i];
            let bytes: usize = slot.path.as_str().as_bytes().len();
            let ranges: usize = slot.observation.coverage.ranges.len();
            proof {
                assert(all.take(i + 1).drop_last() =~= all.take(i as int));
                assert(all.take(i + 1).last() == slot.model());
                assert(slot_bytes(slot.model()) == ENTRY_OVERHEAD_BYTES + bytes + ranges * 16);
            }
            total = total + ENTRY_OVERHEAD_BYTES as u128 + bytes as u128 + ranges as u128
                * RANGE_BYTES as u128;
            i += 1;
            if total > self.max_memory_bytes as u128 {
                proof {
                    lemma_memory_grows(all, i as int);
                }
                return true;
            }
        }
        proof {
            assert(all.take(all.len() as int) =~= all);
        }
        false
    }

    fn find_oldest(&self) -> (r: usize)
        requires
            self.observations@.len() > 0,
        ensures
            r == oldest(self@.observations, self@.observations.len()),
            r < self.observations@.len(),
    {
        let ghost all = self@.observations;
        let mut best: usize = 0;
        let mut i: usize = 1;
        while i < self.observations.len()
            invariant
                1 <= i <= self.observations@.len(),
                all == self@.observations,
                all.len() == self.observations@.len(),
                best == oldest(all, i as nat),
                best < i,
            decreases self.observations@.len() - i,
        {
            proof {
                assert(all[i as int] == self.observations@[i as int].model());
                assert(all[best as int] == self.observations@[best as int].model());
            }
            if self.observations[i].last_updated < self.observations[best].last_updated {
                best = i;
            }
            i += 1;
        }
        best
    }

    fn evict_to_limits(&mut self)
        ensures
            final(self)@ == (FileStateView {
                observations: within_limits(old(self)@, old(self)@.observations),
                ..old(self)@
            }),
    {
        let ghost start = self@;
        while self.observations.len() > 0 && (self.observations.len() > self.max_observations
            || self.is_over_memory())
            invariant
                self@ == (FileStateView { observations: self@.observations, ..start }),
                within_limits(start, start.observations) == within_limits(
                    start,
                    self@.observations,
                ),
            decreases self.observations@.len(),
        {
            let i: usize = self.find_oldest();
            proof {
                assert(self@.observations.len() == self.observations@.len());
                assert(over_limits(start, self@.observations));
            }
            self.remove_at(i);
        }
        proof {
            assert(self@.observations.len() == self.observations@.len());
        }
    }

    /// Takes in a read, a write or a removal, and keeps within the limits: the
    /// entries updated longest ago go first.
    pub fn apply(&mut self, update: FileStateUpdate)
        requires
            well_formed(old(self)@),
        ensures
            final(self)@ == applied(old(self)@, update),
            well_formed(final(self)@),
    {
        let ghost before = self@;
        proof {
            lemma_updated_rising(before, update);
            lemma_within_limits(before, updated(before, update));
        }
        let at: u64 = self.sequence.wrapping_add(1);
        self.sequence = at;
        let ghost counted = self@;
        proof {
            assert(at == next_sequence(before.sequence));
            assert(counted =~= (FileStateView { sequence: at, ..before }));
        }
        match update {
            FileStateUpdate::Observe { path, observation } => {
                let existing = self.observation(path.as_str());
                proof {
                    assert(known(counted, path@) == known(before, path@));
                }
                let merged = combine(observation, existing, self.max_ranges);
                self.put(path, merged, at);
            },
            FileStateUpdate::Replace { path, observation } => {
                self.put(path, observation, at);
            },
            FileStateUpdate::Clear { path } => {
                let key = paths::key_of(path.as_str());
                let i: usize = self.place(&key);
                if self.is_at(i, &key) {
                    self.remove_at(i);
                }
            },
        }
        let ghost mid = self@;
        proof {
            assert(mid.observations == updated(before, update));
            lemma_limits_by_limits(before, mid, mid.observations);
        }
        self.evict_to_limits();
    }
}

proof fn lemma_limits_by_limits(a: FileStateView, b: FileStateView, slots: Seq<SlotView>)
    requires
        a.max_observations == b.max_observations,
        a.max_memory_bytes == b.max_memory_bytes,
    ensures
        within_limits(a, slots) == within_limits(b, slots),
    decreases slots.len(),
{
    if slots.len() > 0 && over_limits(a, slots) {
        lemma_oldest_bounds(slots, slots.len());
        lemma_limits_by_limits(a, b, slots.remove(oldest(slots, slots.len()) as int));
    }
}

proof fn lemma_memory_grows(slots: Seq<SlotView>, n: int)
    requires
        0 <= n <= slots.len(),
    ensures
        memory_bytes(slots.take(n)) <= memory_bytes(slots),
    decreases slots.len() - n,
{
    if n == slots.len() {
        assert(slots.take(n) =~= slots);
    } else {
        assert(slots.take(n + 1).drop_last() =~= slots.take(n));
        lemma_memory_grows(slots, n + 1);
    }
}

fn combine(
    observation: FileObservation,
    existing: Option<FileObservation>,
    max_ranges: usize,
) -> (r: FileObservation)
    ensures
        r@ == combined(
            observation@,
            match existing {
                Some(e) => Some(e@),
                None => None,
            },
            max_ranges as nat,
        ),
{
    let mut now = observation;
    if let Some(e) = existing {
        if e.version.same(&now.version) && e.identity == now.identity && e.notebook_cells
            == now.notebook_cells {
            if e.coverage.complete {
                now.coverage.complete = true;
            } else if e.coverage.total_units == now.coverage.total_units {
                now.coverage.merge(&e.coverage, max_ranges);
            }
        }
    }
    now
}

// ---------------------------------------------------------------------------
// Context reads
// ---------------------------------------------------------------------------

/// Whether two ranges share a unit. Touching is not enough, so paging forward
/// never counts.
pub open spec fn overlap(a: Span, b: Span) -> bool {
    a.start < b.end && b.start < a.end
}

/// Whether a range shares a unit with one already shown.
pub open spec fn overlaps_any(ranges: Seq<Span>, range: Span) -> bool {
    exists|i: int| 0 <= i < ranges.len() && overlap(range, #[trigger] ranges[i])
}

/// One more, at most `u32::MAX`.
pub open spec fn one_more(n: u32) -> u32 {
    if n < u32::MAX {
        (n + 1) as u32
    } else {
        u32::MAX
    }
}

/// What is on record of a path for this version; a fresh record where there is
/// none or the bytes have changed.
pub open spec fn record_for(
    reads: Seq<ReadsView>,
    key: Seq<u32>,
    version: VersionView,
) -> ReadsView {
    let i = place_of(reads_keys(reads), key) as int;
    if present(reads_keys(reads), key) && reads[i].version == version {
        reads[i]
    } else {
        ReadsView { key, version, ranges: Seq::empty(), rereads: 0, last_updated: 0 }
    }
}

/// The record after a read of `range`.
pub open spec fn record_after(record: ReadsView, range: Span, at: u64, max_ranges: nat) -> ReadsView {
    ReadsView {
        ranges: coalesced(record.ranges.push(range), max_ranges),
        rereads: if overlaps_any(record.ranges, range) {
            one_more(record.rereads)
        } else {
            record.rereads
        },
        last_updated: at,
        ..record
    }
}

/// A list with a record in its place.
pub open spec fn with_record(reads: Seq<ReadsView>, record: ReadsView) -> Seq<ReadsView> {
    let i = place_of(reads_keys(reads), record.key) as int;
    if present(reads_keys(reads), record.key) {
        reads.update(i, record)
    } else {
        reads.insert(i, record)
    }
}

/// The record updated longest ago among the first `n`; of two, the first.
pub open spec fn oldest_record(reads: Seq<ReadsView>, n: nat) -> nat
    decreases n,
{
    if n <= 1 {
        0
    } else {
        let best = oldest_record(reads, (n - 1) as nat);
        if reads[n - 1].last_updated < reads[best as int].last_updated {
            (n - 1) as nat
        } else {
            best
        }
    }
}

/// The records left when the oldest go until at most `max` remain.
pub open spec fn newest_records(reads: Seq<ReadsView>, max: nat) -> Seq<ReadsView>
    decreases reads.len(),
{
    if reads.len() > max {
        let i = oldest_record(reads, reads.len()) as int;
        if 0 <= i < reads.len() {
            newest_records(reads.remove(i), max)
        } else {
            reads
        }
    } else {
        reads
    }
}

/// The state after lines of a file reached the model.
pub open spec fn noted(s: FileStateView, path: Seq<char>, o: ObservationView) -> FileStateView {
    match only_range(o.coverage) {
        None => s,
        Some(range) => {
            let at = next_sequence(s.sequence);
            let record = record_for(s.context_reads, paths::path_key(path), o.version);
            FileStateView {
                context_reads: newest_records(
                    with_record(s.context_reads, record_after(record, range, at, s.max_ranges)),
                    s.max_observations,
                ),
                sequence: at,
                ..s
            }
        },
    }
}

/// How often the path has been read over lines the model already had; nothing
/// where this read was not redundant.
pub open spec fn rereads_of(s: FileStateView, path: Seq<char>, o: ObservationView) -> Option<u32> {
    match only_range(o.coverage) {
        None => None,
        Some(range) => {
            let record = record_for(s.context_reads, paths::path_key(path), o.version);
            if overlaps_any(record.ranges, range) {
                Some(one_more(record.rereads))
            } else {
                None
            }
        },
    }
}

proof fn lemma_oldest_record_bounds(reads: Seq<ReadsView>, n: nat)
    requires
        0 < n <= reads.len(),
    ensures
        oldest_record(reads, n) < n,
    decreases n,
{
    if n > 1 {
        lemma_oldest_record_bounds(reads, (n - 1) as nat);
    }
}

proof fn lemma_newest_records(reads: Seq<ReadsView>, max: nat)
    requires
        rising(reads_keys(reads)),
    ensures
        rising(reads_keys(newest_records(reads, max))),
        newest_records(reads, max).len() <= max,
    decreases reads.len(),
{
    if reads.len() > max {
        lemma_oldest_record_bounds(reads, reads.len());
        let i = oldest_record(reads, reads.len()) as int;
        lemma_remove_rising(reads_keys(reads), i);
        assert(reads_keys(reads.remove(i)) =~= reads_keys(reads).remove(i));
        lemma_newest_records(reads.remove(i), max);
    }
}

proof fn lemma_with_record_rising(reads: Seq<ReadsView>, record: ReadsView)
    requires
        rising(reads_keys(reads)),
    ensures
        rising(reads_keys(with_record(reads, record))),
{
    let keys = reads_keys(reads);
    let i = place_of(keys, record.key) as int;
    if present(keys, record.key) {
        assert(reads_keys(with_record(reads, record)) =~= keys);
    } else {
        lemma_insert_rising(keys, record.key);
        assert(reads_keys(with_record(reads, record)) =~= keys.insert(i, record.key));
    }
}

impl FileState {
    fn reads_place(&self, key: &Vec<u32>) -> (r: usize)
        ensures
            r == place_of(reads_keys(self@.context_reads), key@),
            r <= self.context_reads@.len(),
    {
        let ghost keys = reads_keys(self@.context_reads);
        let mut i: usize = 0;
        while i < self.context_reads.len() && paths::comes_before(&self.context_reads[i].key, key)
            invariant
                i <= self.context_reads@.len(),
                keys == reads_keys(self@.context_reads),
                keys.len() == self.context_reads@.len(),
                forall|k: int| 0 <= k < i ==> paths::before(#[trigger] keys[k], key@),
            decreases self.context_reads@.len() - i,
        {
            proof {
                assert(keys[i as int] == self.context_reads@[i as int].key@);
            }
            i += 1;
        }
        proof {
            if i < keys.len() {
                assert(keys[i as int] == self.context_reads@[i as int].key@);
            }
            lemma_place(keys, key@, i as int);
        }
        i
    }

    fn evict_context_reads(&mut self)
        ensures
            final(self)@ == (FileStateView {
                context_reads: newest_records(
                    old(self)@.context_reads,
                    old(self)@.max_observations,
                ),
                ..old(self)@
            }),
    {
        let ghost start = self@;
        while self.context_reads.len() > self.max_observations
            invariant
                self@ == (FileStateView { context_reads: self@.context_reads, ..start }),
                newest_records(start.context_reads, start.max_observations) == newest_records(
                    self@.context_reads,
                    start.max_observations,
                ),
            decreases self.context_reads@.len(),
        {
            let ghost all = self@.context_reads;
            let mut best: usize = 0;
            let mut i: usize = 1;
            while i < self.context_reads.len()
                invariant
                    self.context_reads@.len() > 0,
                    1 <= i <= self.context_reads@.len(),
                    all == self@.context_reads,
                    all.len() == self.context_reads@.len(),
                    best == oldest_record(all, i as nat),
                    best < i,
                decreases self.context_reads@.len() - i,
            {
                proof {
                    assert(all[i as int] == self.context_reads@[i as int].model());
                    assert(all[best as int] == self.context_reads@[best as int].model());
                }
                if self.context_reads[i].last_updated < self.context_reads[best].last_updated {
                    best = i;
                }
                i += 1;
            }
            let _ = self.context_reads.remove(best);
            proof {
                assert(self@.context_reads =~= all.remove(best as int));
            }
        }
        proof {
            assert(self@.context_reads.len() == self.context_reads@.len());
        }
    }

    /// Records that a read's lines just reached the model, and answers how many
    /// times the path has now been read over lines the model already had.
    /// Nothing for a first read, a fresh page, a read past the end, or bytes
    /// that have changed since.
    pub fn note_context_read(&mut self, path: &str, observation: &FileObservation) -> (r: Option<
        u32,
    >)
        requires
            well_formed(old(self)@),
        ensures
            r == rereads_of(old(self)@, path@, observation@),
            final(self)@ == noted(old(self)@, path@, observation@),
            well_formed(final(self)@),
    {
        let range = match observation.read_range() {
            Some(range) => range,
            None => {
                return None;
            },
        };
        let ghost before = self@;
        let at: u64 = self.sequence.wrapping_add(1);
        self.sequence = at;
        let key = paths::key_of(path);
        let i: usize = self.reads_place(&key);
        let ghost keys = reads_keys(self@.context_reads);
        let mut there = false;
        let mut ranges: Vec<Span> = Vec::new();
        let mut rereads: u32 = 0;
        if i < self.context_reads.len() {
            proof {
                assert(keys[i as int] == self.context_reads@[i as int].key@);
                assert(before.context_reads[i as int] == self.context_reads@[i as int].model());
            }
            there = same_key(&self.context_reads[i].key, &key);
            if there && self.context_reads[i].version.same(&observation.version) {
                rereads = self.context_reads[i].rereads;
                let mut k: usize = 0;
                while k < self.context_reads[i].ranges.len()
                    invariant
                        i < self.context_reads@.len(),
                        k <= self.context_reads@[i as int].ranges@.len(),
                        ranges@ == self.context_reads@[i as int].ranges@.take(k as int),
                    decreases self.context_reads@[i as int].ranges@.len() - k,
                {
                    ranges.push(self.context_reads[i].ranges[k]);
                    k += 1;
                    proof {
                        assert(ranges@ =~= self.context_reads@[i as int].ranges@.take(k as int));
                    }
                }
                proof {
                    let all = self.context_reads@[i as int].ranges@;
                    assert(all.take(all.len() as int) =~= all);
                }
            }
        }
        let ghost record = record_for(
            before.context_reads,
            paths::path_key(path@),
            observation@.version,
        );
        proof {
            assert(before.context_reads == self@.context_reads);
            assert(there == present(keys, key@));
            assert(ranges@ =~= record.ranges);
            assert(rereads == record.rereads);
        }
        let mut overlapped = false;
        let mut k: usize = 0;
        while k < ranges.len()
            invariant
                k <= ranges@.len(),
                overlapped == (exists|j: int| 0 <= j < k && overlap(range, #[trigger] ranges@[j])),
            decreases ranges@.len() - k,
        {
            if range.start < ranges[k].end && ranges[k].start < range.end {
                proof {
                    assert(overlap(range, ranges@[k as int]));
                }
                overlapped = true;
            }
            k += 1;
        }
        ranges.push(range);
        let ranges = coalesce(&ranges, self.max_ranges);
        if overlapped {
            rereads = rereads.saturating_add(1);
        }
        let entry = ContextReads {
            key,
            version: observation.version.copy(),
            ranges,
            rereads,
            last_updated: at,
        };
        let ghost view = entry.model();
        proof {
            assert(view =~= record_after(record, range, at, before.max_ranges));
            lemma_with_record_rising(before.context_reads, view);
            lemma_newest_records(
                with_record(before.context_reads, view),
                before.max_observations,
            );
        }
        if there {
            self.context_reads.set(i, entry);
            proof {
                assert(self@.context_reads =~= before.context_reads.update(i as int, view));
            }
        } else {
            self.context_reads.insert(i, entry);
            proof {
                assert(self@.context_reads =~= before.context_reads.insert(i as int, view));
            }
        }
        proof {
            assert(self@.context_reads == with_record(before.context_reads, view));
        }
        self.evict_context_reads();
        if overlapped {
            Some(rereads)
        } else {
            None
        }
    }

    /// Forgets which lines the model has been shown: compaction folded them
    /// away. What was established of the files stays.
    pub fn forget_context_reads(&mut self)
        requires
            well_formed(old(self)@),
        ensures
            final(self)@ == (FileStateView { context_reads: Seq::empty(), ..old(self)@ }),
            well_formed(final(self)@),
    {
        self.context_reads = Vec::new();
        proof {
            assert(self@.context_reads =~= Seq::<ReadsView>::empty());
        }
    }
}

// ---------------------------------------------------------------------------
// Laws
// ---------------------------------------------------------------------------

proof fn lemma_present_at(keys: Seq<Seq<u32>>, i: int)
    requires
        rising(keys),
        0 <= i < keys.len(),
    ensures
        place_of(keys, keys[i]) == i,
        present(keys, keys[i]),
{
    paths::lemma_before_irreflexive(keys[i]);
    assert forall|k: int| 0 <= k < i implies paths::before(#[trigger] keys[k], keys[i]) by {}
    lemma_place(keys, keys[i], i);
}

proof fn lemma_absent_from(keys: Seq<Seq<u32>>, key: Seq<u32>, i: int)
    requires
        !present(keys, key),
        rising(keys),
        0 <= i < keys.len(),
    ensures
        keys[i] != key,
{
    if keys[i] == key {
        lemma_present_at(keys, i);
    }
}

/// A file state that is within its limits after an update answers for the
/// updated path with what the update established.
pub proof fn law_an_update_is_read_back(s: FileStateView, update: FileStateUpdate)
    requires
        well_formed(s),
        !over_limits(s, updated(s, update)),
    ensures
        match update {
            FileStateUpdate::Observe { path, observation } => known(applied(s, update), path@)
                == Some(combined(observation@, known(s, path@), s.max_ranges)),
            FileStateUpdate::Replace { path, observation } => known(applied(s, update), path@)
                == Some(observation@),
            FileStateUpdate::Clear { path } => known(applied(s, update), path@) is None,
        },
{
    lemma_updated_rising(s, update);
    let keys = slot_keys(s.observations);
    let now = updated(s, update);
    assert(applied(s, update).observations == now);
    match update {
        FileStateUpdate::Observe { path, observation } => {
            let key = paths::path_key(path@);
            let i = place_of(keys, key) as int;
            lemma_place_bounds(keys, key);
            assert(slot_keys(now)[i] == key);
            lemma_present_at(slot_keys(now), i);
        },
        FileStateUpdate::Replace { path, observation } => {
            let key = paths::path_key(path@);
            let i = place_of(keys, key) as int;
            lemma_place_bounds(keys, key);
            assert(slot_keys(now)[i] == key);
            lemma_present_at(slot_keys(now), i);
        },
        FileStateUpdate::Clear { path } => {
            let key = paths::path_key(path@);
            if present(keys, key) {
                let i = place_of(keys, key) as int;
                if present(slot_keys(now), key) {
                    let j = place_of(slot_keys(now), key) as int;
                    let k = if j < i {
                        j
                    } else {
                        j + 1
                    };
                    assert(slot_keys(now)[j] == keys[k]);
                    lemma_present_at(keys, k);
                    assert(k == i);
                    assert(false);
                }
            }
        },
    }
}

/// The path that an update is about.
pub open spec fn update_path(update: FileStateUpdate) -> Seq<char> {
    match update {
        FileStateUpdate::Observe { path, .. } => path@,
        FileStateUpdate::Replace { path, .. } => path@,
        FileStateUpdate::Clear { path } => path@,
    }
}

/// An update within the limits leaves every other path as it was.
pub proof fn law_an_update_leaves_other_paths_alone(
    s: FileStateView,
    update: FileStateUpdate,
    other: Seq<char>,
)
    requires
        well_formed(s),
        !over_limits(s, updated(s, update)),
        paths::path_key(other) != paths::path_key(update_path(update)),
    ensures
        known(applied(s, update), other) == known(s, other),
{
    lemma_updated_rising(s, update);
    let keys = slot_keys(s.observations);
    let now = updated(s, update);
    assert(applied(s, update).observations == now);
    let key = paths::path_key(update_path(update));
    let want = paths::path_key(other);
    let i = place_of(keys, key) as int;
    lemma_place_bounds(keys, key);
    let there = present(keys, key);
    if present(keys, want) {
        let j = place_of(keys, want) as int;
        let k = if update is Clear {
            if there && j > i {
                j - 1
            } else {
                j
            }
        } else if there {
            j
        } else if j < i {
            j
        } else {
            j + 1
        };
        assert(slot_keys(now)[k] == want);
        lemma_present_at(slot_keys(now), k);
        assert(now[k].observation == s.observations[j].observation);
    } else if present(slot_keys(now), want) {
        let k = place_of(slot_keys(now), want) as int;
        let j = if update is Clear {
            if there && k >= i {
                k + 1
            } else {
                k
            }
        } else if there {
            k
        } else if k < i {
            k
        } else {
            k - 1
        };
        assert(slot_keys(now)[k] == want);
        if !(update is Clear) && !there && k == i {
            assert(slot_keys(now)[k] == key);
        } else {
            assert(keys[j] == want);
            lemma_absent_from(keys, want, j);
        }
    }
}

/// After every update the limits hold: on the number of paths and on memory.
pub proof fn law_the_limits_hold(s: FileStateView, update: FileStateUpdate)
    requires
        well_formed(s),
    ensures
        applied(s, update).observations.len() <= s.max_observations,
        memory_bytes(applied(s, update).observations) <= s.max_memory_bytes,
{
    lemma_updated_rising(s, update);
    lemma_within_limits(s, updated(s, update));
}

/// What goes first when the limits are passed is the entry updated longest
/// ago.
pub proof fn law_the_oldest_goes_first(s: FileStateView, slots: Seq<SlotView>)
    requires
        slots.len() > 0,
        over_limits(s, slots),
    ensures
        ({
            let i = oldest(slots, slots.len()) as int;
            &&& 0 <= i < slots.len()
            &&& forall|k: int|
                0 <= k < slots.len() ==> slots[i].last_updated <= (#[trigger] slots[k]).last_updated
            &&& within_limits(s, slots) == within_limits(s, slots.remove(i))
        }),
{
    lemma_oldest_bounds(slots, slots.len());
}

/// Complete coverage of a version is never revoked by a later read of it.
pub proof fn law_complete_coverage_stays_complete(
    now: ObservationView,
    existing: ObservationView,
    max_ranges: nat,
)
    requires
        existing.version == now.version,
        existing.identity == now.identity,
        existing.notebook == now.notebook,
        existing.coverage.complete,
    ensures
        combined(now, Some(existing), max_ranges).coverage.complete,
{
}

/// Another version, another file or another kind of read inherits nothing.
pub proof fn law_a_new_version_inherits_nothing(
    now: ObservationView,
    existing: ObservationView,
    max_ranges: nat,
)
    requires
        existing.version != now.version || existing.identity != now.identity || existing.notebook
            != now.notebook,
    ensures
        combined(now, Some(existing), max_ranges) == now,
{
}

/// A read that shares no unit with what was shown is not a reread: paging
/// forward never counts.
pub proof fn law_fresh_pages_are_no_rereads(
    s: FileStateView,
    path: Seq<char>,
    o: ObservationView,
)
    requires
        only_range(o.coverage) matches Some(range) && forall|i: int|
            #![trigger record_for(s.context_reads, paths::path_key(path), o.version).ranges[i]]
            0 <= i < record_for(s.context_reads, paths::path_key(path), o.version).ranges.len()
                ==> record_for(s.context_reads, paths::path_key(path), o.version).ranges[i].end
                <= range.start,
    ensures
        rereads_of(s, path, o) is None,
{
}

/// Proper ranges: none ends before it starts.
pub open spec fn proper(ranges: Seq<Span>) -> bool {
    forall|i: int| 0 <= i < ranges.len() ==> (#[trigger] ranges[i]).start <= ranges[i].end
}

/// Ranges in order, with a gap between neighbours.
pub open spec fn apart(ranges: Seq<Span>) -> bool {
    forall|i: int, j: int|
        0 <= i < j < ranges.len() ==> (#[trigger] ranges[i]).end < (#[trigger] ranges[j]).start
}

/// Ranges by rising start.
pub open spec fn by_start(ranges: Seq<Span>) -> bool {
    forall|i: int, j: int|
        0 <= i <= j < ranges.len() ==> (#[trigger] ranges[i]).start <= (#[trigger] ranges[j]).start
}

proof fn lemma_with_span(sorted: Seq<Span>, x: Span)
    requires
        by_start(sorted),
        proper(sorted),
        x.start <= x.end,
    ensures
        by_start(with_span(sorted, x)),
        proper(with_span(sorted, x)),
        with_span(sorted, x).len() == sorted.len() + 1,
        forall|u: int|
            #[trigger] covers(with_span(sorted, x), u) <==> covers(sorted, u) || x.start <= u < x.end,
        forall|i: int|
            0 <= i < with_span(sorted, x).len() ==> (#[trigger] with_span(sorted, x)[i]).start
                <= x.start || (sorted.len() > 0 && with_span(sorted, x)[i].start
                <= sorted.last().start),
    decreases sorted.len(),
{
    let now = with_span(sorted, x);
    if sorted.len() == 0 || span_le(sorted.last(), x) {
        assert forall|u: int| #[trigger] covers(now, u) <==> covers(sorted, u) || x.start <= u
            < x.end by {
            if covers(now, u) {
                let i = choose|i: int|
                    0 <= i < now.len() && (#[trigger] now[i]).start <= u < now[i].end;
                if i < sorted.len() {
                    assert(sorted[i] == now[i]);
                }
            }
            if covers(sorted, u) {
                let i = choose|i: int|
                    0 <= i < sorted.len() && (#[trigger] sorted[i]).start <= u < sorted[i].end;
                assert(now[i] == sorted[i]);
            }
            if x.start <= u < x.end {
                assert(now[sorted.len() as int] == x);
            }
        }
        if sorted.len() > 0 {
            assert forall|i: int, j: int| 0 <= i <= j < now.len() implies (#[trigger] now[i]).start
                <= (#[trigger] now[j]).start by {
                if i < sorted.len() {
                    assert(sorted[i].start <= sorted[sorted.len() - 1].start);
                }
            }
        }
    } else {
        let front = sorted.drop_last();
        lemma_with_span(front, x);
        let mid = with_span(front, x);
        let last = sorted.last();
        assert(now == mid.push(last));
        assert forall|i: int| 0 <= i < mid.len() implies (#[trigger] mid[i]).start
            <= last.start by {
            if front.len() > 0 {
                assert(sorted[front.len() - 1].start <= sorted[sorted.len() - 1].start);
            }
        }
        assert forall|i: int, j: int| 0 <= i <= j < now.len() implies (#[trigger] now[i]).start
            <= (#[trigger] now[j]).start by {
            if j < mid.len() {
                assert(mid[i].start <= mid[j].start);
            } else if i < mid.len() {
                assert(now[i] == mid[i]);
            }
        }
        assert forall|i: int| 0 <= i < now.len() implies (#[trigger] now[i]).start
            <= now[i].end by {
            if i < mid.len() {
                assert(now[i] == mid[i]);
            } else {
                assert(now[i] == sorted[sorted.len() - 1]);
            }
        }
        assert forall|u: int| #[trigger] covers(now, u) <==> covers(sorted, u) || x.start <= u
            < x.end by {
            if covers(now, u) {
                let i = choose|i: int|
                    0 <= i < now.len() && (#[trigger] now[i]).start <= u < now[i].end;
                if i < mid.len() {
                    assert(mid[i] == now[i]);
                    assert(covers(mid, u));
                    if covers(front, u) {
                        let k = choose|k: int|
                            0 <= k < front.len() && (#[trigger] front[k]).start <= u < front[k].end;
                        assert(sorted[k] == front[k]);
                    }
                } else {
                    assert(sorted[sorted.len() - 1] == now[i]);
                }
            }
            if covers(sorted, u) {
                let k = choose|k: int|
                    0 <= k < sorted.len() && (#[trigger] sorted[k]).start <= u < sorted[k].end;
                if k < front.len() {
                    assert(front[k] == sorted[k]);
                    assert(covers(front, u));
                    assert(covers(mid, u));
                    let i = choose|i: int|
                        0 <= i < mid.len() && (#[trigger] mid[i]).start <= u < mid[i].end;
                    assert(now[i] == mid[i]);
                } else {
                    assert(now[mid.len() as int] == sorted[k]);
                }
            }
            if x.start <= u < x.end {
                assert(covers(mid, u));
                let i = choose|i: int|
                    0 <= i < mid.len() && (#[trigger] mid[i]).start <= u < mid[i].end;
                assert(now[i] == mid[i]);
            }
        }
    }
}

proof fn lemma_sorted_spans(ranges: Seq<Span>)
    requires
        proper(ranges),
    ensures
        by_start(sorted_spans(ranges)),
        proper(sorted_spans(ranges)),
        forall|u: int| #[trigger] covers(sorted_spans(ranges), u) <==> covers(ranges, u),
    decreases ranges.len(),
{
    if ranges.len() > 0 {
        let front = ranges.drop_last();
        assert(proper(front)) by {
            assert forall|i: int| 0 <= i < front.len() implies (#[trigger] front[i]).start
                <= front[i].end by {
                assert(front[i] == ranges[i]);
            }
        }
        lemma_sorted_spans(front);
        let x = ranges.last();
        assert(ranges[ranges.len() - 1] == x);
        lemma_with_span(sorted_spans(front), x);
        assert forall|u: int| #[trigger] covers(sorted_spans(ranges), u) <==> covers(ranges, u) by {
            assert(covers(sorted_spans(front), u) <==> covers(front, u));
            if covers(front, u) {
                let k = choose|k: int|
                    0 <= k < front.len() && (#[trigger] front[k]).start <= u < front[k].end;
                assert(ranges[k] == front[k]);
            }
            if covers(ranges, u) {
                let k = choose|k: int|
                    0 <= k < ranges.len() && (#[trigger] ranges[k]).start <= u < ranges[k].end;
                if k < front.len() {
                    assert(front[k] == ranges[k]);
                }
            }
        }
    } else {
        assert forall|u: int| #[trigger] covers(sorted_spans(ranges), u) <==> covers(ranges, u) by {
            assert(sorted_spans(ranges) =~= ranges);
        }
    }
}

proof fn lemma_joined_spans(sorted: Seq<Span>, max: nat)
    requires
        by_start(sorted),
        proper(sorted),
    ensures
        apart(joined_spans(sorted, max)),
        proper(joined_spans(sorted, max)),
        joined_spans(sorted, max).len() <= max,
        forall|u: int| #[trigger] covers(joined_spans(sorted, max), u) ==> covers(sorted, u),
        joined_spans(sorted, max).len() < max ==> forall|u: int|
            covers(sorted, u) ==> #[trigger] covers(joined_spans(sorted, max), u),
        joined_spans(sorted, max).len() > 0 ==> sorted.len() > 0 && joined_spans(sorted, max).last().start
            <= sorted.last().start,
    decreases sorted.len(),
{
    let now = joined_spans(sorted, max);
    if sorted.len() > 0 {
        let front = sorted.drop_last();
        assert(by_start(front) && proper(front)) by {
            assert forall|i: int| 0 <= i < front.len() implies (#[trigger] front[i]).start
                <= front[i].end by {
                assert(front[i] == sorted[i]);
            }
        }
        lemma_joined_spans(front, max);
        let before = joined_spans(front, max);
        let x = sorted.last();
        assert(sorted[sorted.len() - 1] == x);
        if front.len() > 0 {
            assert(sorted[front.len() - 1].start <= sorted[sorted.len() - 1].start);
        }
        let joins = before.len() > 0 && x.start <= before.last().end;
        assert forall|i: int, j: int| 0 <= i < j < now.len() implies (#[trigger] now[i]).end < (
        #[trigger] now[j]).start by {
            if joins {
                if j < before.len() - 1 {
                    assert(now[i] == before[i] && now[j] == before[j]);
                } else {
                    assert(now[i] == before[i]);
                    assert(now[j].start == before[j].start);
                }
            } else if j < before.len() {
                assert(now[i] == before[i] && now[j] == before[j]);
            } else {
                assert(now[i] == before[i]);
                assert(before[i].end <= before.last().end) by {
                    if i < before.len() - 1 {
                        assert(before[i].end < before[before.len() - 1].start);
                    }
                }
            }
        }
        assert forall|i: int| 0 <= i < now.len() implies (#[trigger] now[i]).start
            <= now[i].end by {
            if i < before.len() {
                assert(now[i].start == before[i].start && before[i].end <= now[i].end);
            }
        }
        assert forall|u: int| #[trigger] covers(now, u) implies covers(sorted, u) by {
            let k = choose|k: int|
                0 <= k < now.len() && (#[trigger] now[k]).start <= u < now[k].end;
            if joins && k == before.len() - 1 {
                if u < before[k].end {
                    assert(covers(before, u));
                    assert(covers(front, u));
                } else {
                    assert(sorted[sorted.len() - 1].start <= u < sorted[sorted.len() - 1].end);
                }
            } else if k < before.len() {
                assert(before[k] == now[k]);
                assert(covers(before, u));
                assert(covers(front, u));
            } else {
                assert(sorted[sorted.len() - 1] == now[k]);
            }
            if covers(front, u) {
                let f = choose|f: int|
                    0 <= f < front.len() && (#[trigger] front[f]).start <= u < front[f].end;
                assert(sorted[f] == front[f]);
            }
        }
        if now.len() < max {
            assert forall|u: int| covers(sorted, u) implies #[trigger] covers(now, u) by {
                let k = choose|k: int|
                    0 <= k < sorted.len() && (#[trigger] sorted[k]).start <= u < sorted[k].end;
                if k < front.len() {
                    assert(front[k] == sorted[k]);
                    assert(covers(front, u));
                    assert(covers(before, u));
                    let b = choose|b: int|
                        0 <= b < before.len() && (#[trigger] before[b]).start <= u < before[b].end;
                    assert(now[b].start == before[b].start && before[b].end <= now[b].end);
                } else if joins {
                    let b = before.len() - 1;
                    assert(before[b].start <= x.start);
                    assert(now[b].start <= u < now[b].end);
                } else {
                    assert(now[before.len() as int] == x);
                }
            }
        }
    }
}

/// With less room a list is joined to the same ranges, up to where the room ends.
proof fn lemma_less_room(sorted: Seq<Span>, less: nat, more: nat)
    requires
        by_start(sorted),
        proper(sorted),
        less <= more,
    ensures
        joined_spans(sorted, more).len() <= sorted.len(),
        joined_spans(sorted, less) == first_spans(joined_spans(sorted, more), less),
    decreases sorted.len(),
{
    let small = joined_spans(sorted, less);
    let big = joined_spans(sorted, more);
    if sorted.len() > 0 {
        let front = sorted.drop_last();
        assert(by_start(front) && proper(front)) by {
            assert forall|i: int| 0 <= i < front.len() implies (#[trigger] front[i]).start
                <= front[i].end by {
                assert(front[i] == sorted[i]);
            }
        }
        lemma_less_room(front, less, more);
        lemma_joined_spans(front, more);
        let x = sorted.last();
        assert(sorted[sorted.len() - 1] == x);
        if front.len() > 0 {
            assert(sorted[front.len() - 1].start <= sorted[sorted.len() - 1].start);
        }
        let before = joined_spans(front, more);
        let kept = joined_spans(front, less);
        if before.len() > less {
            if less > 0 {
                assert(kept.last() == before[less - 1]);
                assert(before[less - 1].end < before[before.len() - 1].start);
            }
            assert(small == kept);
            assert(small =~= first_spans(big, less));
        } else {
            assert(kept =~= before);
            assert(small =~= first_spans(big, less));
        }
    } else {
        assert(small =~= first_spans(big, less));
    }
}

/// The first `n` ranges, or all where there are fewer.
pub open spec fn first_spans(ranges: Seq<Span>, n: nat) -> Seq<Span> {
    if ranges.len() <= n {
        ranges
    } else {
        ranges.take(n as int)
    }
}

/// All of a range set with everything that touches joined, however many ranges
/// that takes.
pub open spec fn all_joined(ranges: Seq<Span>) -> Seq<Span> {
    coalesced(ranges, ranges.len() + 1)
}

proof fn lemma_sorted_len(ranges: Seq<Span>)
    requires
        proper(ranges),
    ensures
        sorted_spans(ranges).len() == ranges.len(),
    decreases ranges.len(),
{
    if ranges.len() > 0 {
        let front = ranges.drop_last();
        assert forall|i: int| 0 <= i < front.len() implies (#[trigger] front[i]).start
            <= front[i].end by {
            assert(front[i] == ranges[i]);
        }
        lemma_sorted_len(front);
        lemma_sorted_spans(front);
        assert(ranges[ranges.len() - 1] == ranges.last());
        lemma_with_span(sorted_spans(front), ranges.last());
    }
}

/// A range set in its normal form is in order, has gaps between its ranges and
/// is within its size: joined, the ranges cover exactly what was covered, and
/// the first of them, as many as there is room for, are kept.
pub proof fn law_coalescing_keeps_coverage(ranges: Seq<Span>, max: nat)
    requires
        proper(ranges),
    ensures
        apart(coalesced(ranges, max)),
        proper(coalesced(ranges, max)),
        coalesced(ranges, max).len() <= max,
        coalesced(ranges, max) == first_spans(all_joined(ranges), max),
        apart(all_joined(ranges)),
        forall|u: int| #[trigger] covers(all_joined(ranges), u) <==> covers(ranges, u),
        forall|u: int| #[trigger] covers(coalesced(ranges, max), u) ==> covers(ranges, u),
{
    let sorted = sorted_spans(ranges);
    let all = all_joined(ranges);
    lemma_sorted_spans(ranges);
    lemma_sorted_len(ranges);
    lemma_joined_spans(sorted, max);
    lemma_joined_spans(sorted, ranges.len() + 1);
    lemma_less_room(sorted, ranges.len() + 1, ranges.len() + 1);
    if max <= ranges.len() + 1 {
        lemma_less_room(sorted, max, ranges.len() + 1);
    } else {
        lemma_less_room(sorted, ranges.len() + 1, max);
        assert(coalesced(ranges, max).len() <= ranges.len());
    }
    assert forall|u: int| #[trigger] covers(coalesced(ranges, max), u) implies covers(
        ranges,
        u,
    ) by {
        assert(covers(sorted, u));
    }
    assert forall|u: int| #[trigger] covers(all, u) <==> covers(ranges, u) by {
        assert(covers(sorted, u) <==> covers(ranges, u));
    }
}

/// Coverage as reads establish it: every range holds something, and nothing
/// past the last unit.
pub open spec fn is_coverage(c: CoverageView) -> bool {
    forall|i: int|
        0 <= i < c.ranges.len() ==> (#[trigger] c.ranges[i]).start < c.ranges[i].end
            <= c.total_units
}

proof fn lemma_covers_sum(a: Seq<Span>, b: Seq<Span>, u: int)
    ensures
        covers(a + b, u) <==> covers(a, u) || covers(b, u),
{
    if covers(a, u) {
        let i = choose|i: int| 0 <= i < a.len() && (#[trigger] a[i]).start <= u < a[i].end;
        assert((a + b)[i] == a[i]);
    }
    if covers(b, u) {
        let i = choose|i: int| 0 <= i < b.len() && (#[trigger] b[i]).start <= u < b[i].end;
        assert((a + b)[a.len() + i] == b[i]);
    }
    if covers(a + b, u) {
        let i = choose|i: int|
            0 <= i < (a + b).len() && (#[trigger] (a + b)[i]).start <= u < (a + b)[i].end;
        if i < a.len() {
            assert(a[i] == (a + b)[i]);
        } else {
            assert(b[i - a.len()] == (a + b)[i]);
        }
    }
}

/// Every range of a joined list holds something within the total, where the
/// ranges that it was joined from do.
proof fn lemma_joined_within(sorted: Seq<Span>, max: nat, total: u64)
    requires
        forall|i: int|
            0 <= i < sorted.len() ==> (#[trigger] sorted[i]).start < sorted[i].end <= total,
    ensures
        forall|i: int|
            0 <= i < joined_spans(sorted, max).len() ==> (#[trigger] joined_spans(
                sorted,
                max,
            )[i]).start < joined_spans(sorted, max)[i].end <= total,
    decreases sorted.len(),
{
    if sorted.len() > 0 {
        let front = sorted.drop_last();
        assert forall|i: int| 0 <= i < front.len() implies (#[trigger] front[i]).start
            < front[i].end <= total by {
            assert(front[i] == sorted[i]);
        }
        lemma_joined_within(front, max, total);
        let before = joined_spans(front, max);
        let now = joined_spans(sorted, max);
        assert(sorted[sorted.len() - 1] == sorted.last());
        assert forall|i: int| 0 <= i < now.len() implies (#[trigger] now[i]).start < now[i].end
            <= total by {
            if i < before.len() {
                assert(before[i].start < before[i].end <= total);
            }
        }
    }
}

proof fn lemma_with_span_within(sorted: Seq<Span>, x: Span, total: u64)
    requires
        forall|i: int|
            0 <= i < sorted.len() ==> (#[trigger] sorted[i]).start < sorted[i].end <= total,
        x.start < x.end <= total,
    ensures
        forall|i: int|
            0 <= i < with_span(sorted, x).len() ==> (#[trigger] with_span(sorted, x)[i]).start
                < with_span(sorted, x)[i].end <= total,
    decreases sorted.len(),
{
    if sorted.len() > 0 && !span_le(sorted.last(), x) {
        let front = sorted.drop_last();
        assert forall|i: int| 0 <= i < front.len() implies (#[trigger] front[i]).start
            < front[i].end <= total by {
            assert(front[i] == sorted[i]);
        }
        lemma_with_span_within(front, x, total);
        let mid = with_span(front, x);
        let now = with_span(sorted, x);
        assert(now == mid.push(sorted.last()));
        assert forall|i: int| 0 <= i < now.len() implies (#[trigger] now[i]).start < now[i].end
            <= total by {
            if i < mid.len() {
                assert(now[i] == mid[i]);
            } else {
                assert(now[i] == sorted[sorted.len() - 1]);
            }
        }
    } else {
        let now = with_span(sorted, x);
        assert forall|i: int| 0 <= i < now.len() implies (#[trigger] now[i]).start < now[i].end
            <= total by {
            if i < sorted.len() {
                assert(now[i] == sorted[i]);
            }
        }
    }
}

proof fn lemma_sorted_within(ranges: Seq<Span>, total: u64)
    requires
        forall|i: int|
            0 <= i < ranges.len() ==> (#[trigger] ranges[i]).start < ranges[i].end <= total,
    ensures
        forall|i: int|
            0 <= i < sorted_spans(ranges).len() ==> (#[trigger] sorted_spans(ranges)[i]).start
                < sorted_spans(ranges)[i].end <= total,
    decreases ranges.len(),
{
    if ranges.len() > 0 {
        let front = ranges.drop_last();
        assert forall|i: int| 0 <= i < front.len() implies (#[trigger] front[i]).start
            < front[i].end <= total by {
            assert(front[i] == ranges[i]);
        }
        lemma_sorted_within(front, total);
        assert(ranges[ranges.len() - 1] == ranges.last());
        lemma_with_span_within(sorted_spans(front), ranges.last(), total);
    }
}

/// What a read establishes is coverage, and merging keeps it so.
pub proof fn law_coverage_stays_coverage(
    total: u64,
    range: Span,
    empty_from_start: bool,
    now: CoverageView,
    older: CoverageView,
    max: nat,
)
    ensures
        is_coverage(read_coverage(total, range, empty_from_start)),
        is_coverage(now) && is_coverage(older) && now.total_units == older.total_units
            ==> is_coverage(merged_coverage(now, older, max)),
{
    if is_coverage(now) && is_coverage(older) && now.total_units == older.total_units {
        let both = now.ranges + older.ranges;
        assert forall|i: int| 0 <= i < both.len() implies (#[trigger] both[i]).start < both[i].end
            <= now.total_units by {
            if i < now.ranges.len() {
                assert(both[i] == now.ranges[i]);
            } else {
                assert(both[i] == older.ranges[i - now.ranges.len()]);
            }
        }
        lemma_sorted_within(both, now.total_units);
        lemma_joined_within(sorted_spans(both), max, now.total_units);
    }
}

/// Whether every unit lies in a range of one of two reads.
pub open spec fn every_unit_is_covered(a: CoverageView, b: CoverageView) -> bool {
    forall|u: int|
        0 <= u < a.total_units ==> #[trigger] covers(a.ranges, u) || covers(b.ranges, u)
}

/// Merged coverage is complete exactly where one of the two was, or where every
/// unit lies in a range of either.
pub proof fn law_merged_coverage_is_complete_when_every_unit_is_covered(
    now: CoverageView,
    older: CoverageView,
    max: nat,
)
    requires
        is_coverage(now),
        is_coverage(older),
        now.total_units == older.total_units,
        max >= 1,
    ensures
        merged_coverage(now, older, max).complete <==> now.complete || older.complete
            || every_unit_is_covered(now, older),
{
    let total = now.total_units;
    let both = now.ranges + older.ranges;
    let all = all_joined(both);
    let kept = coalesced(both, max);
    assert(proper(both)) by {
        assert forall|i: int| 0 <= i < both.len() implies (#[trigger] both[i]).start
            <= both[i].end by {
            if i < now.ranges.len() {
                assert(both[i] == now.ranges[i]);
            } else {
                assert(both[i] == older.ranges[i - now.ranges.len()]);
            }
        }
    }
    law_coalescing_keeps_coverage(both, max);
    law_coverage_stays_coverage(
        total,
        Span { start: 0, end: 0 },
        false,
        now,
        older,
        both.len() + 1,
    );
    assert forall|i: int| 0 <= i < all.len() implies (#[trigger] all[i]).start < all[i].end
        <= total by {
        assert(merged_coverage(now, older, both.len() + 1).ranges[i] == all[i]);
    }
    if shows_everything(total, kept) {
        assert forall|u: int| 0 <= u < total implies #[trigger] covers(now.ranges, u) || covers(
            older.ranges,
            u,
        ) by {
            assert(kept[0].start <= u < kept[0].end);
            assert(covers(kept, u));
            lemma_covers_sum(now.ranges, older.ranges, u);
        }
    }
    if every_unit_is_covered(now, older) && total > 0 {
        assert(covers(now.ranges, 0) || covers(older.ranges, 0));
        lemma_covers_sum(now.ranges, older.ranges, 0);
        assert(covers(all, 0));
        let i = choose|i: int| 0 <= i < all.len() && (#[trigger] all[i]).start <= 0 < all[i].end;
        if i > 0 {
            assert(all[0].end < all[i].start);
        }
        assert(all[0].start == 0);
        let reached = all[0].end as int;
        if reached < total {
            assert(covers(now.ranges, reached) || covers(older.ranges, reached));
            lemma_covers_sum(now.ranges, older.ranges, reached);
            assert(covers(all, reached));
            let j = choose|j: int|
                0 <= j < all.len() && (#[trigger] all[j]).start <= reached < all[j].end;
            if j > 0 {
                assert(all[0].end < all[j].start);
            }
        }
        if all.len() > 1 {
            assert(all[0].end < all[1].start);
            assert(all[1].start < all[1].end <= total);
        }
        assert(kept == all);
    }
}

/// A read adds up with what is known of the file: of the same version, file and
/// kind, the coverage is complete exactly where the read is, or where every unit
/// lies in a range of this read or of those before; of another, nothing is
/// inherited.
pub proof fn law_partial_reads_add_up(
    s: FileStateView,
    path: String,
    observation: FileObservation,
    existing: ObservationView,
)
    requires
        well_formed(s),
        s.max_ranges >= 1,
        !over_limits(s, updated(s, FileStateUpdate::Observe { path, observation })),
        known(s, path@) == Some(existing),
        !existing.coverage.complete,
        existing.coverage.total_units == observation@.coverage.total_units,
        is_coverage(existing.coverage),
        is_coverage(observation@.coverage),
    ensures
        known(applied(s, FileStateUpdate::Observe { path, observation }), path@) matches Some(now)
            && {
            if existing.version == observation@.version && existing.identity
                == observation@.identity && existing.notebook == observation@.notebook {
                now.coverage.complete <==> observation@.coverage.complete || every_unit_is_covered(
                    observation@.coverage,
                    existing.coverage,
                )
            } else {
                now == observation@
            }
        },
{
    law_an_update_is_read_back(s, FileStateUpdate::Observe { path, observation });
    law_merged_coverage_is_complete_when_every_unit_is_covered(
        observation@.coverage,
        existing.coverage,
        s.max_ranges,
    );
}

// ---------------------------------------------------------------------------
// What is kept, and what a read comes to
// ---------------------------------------------------------------------------

/// What is known of a path is what is held under its key.
pub proof fn law_what_is_held_is_known(s: FileStateView, path: Seq<char>, o: ObservationView)
    requires
        well_formed(s),
    ensures
        known(s, path) == Some(o) <==> exists|i: int|
            0 <= i < s.observations.len() && (#[trigger] s.observations[i]).key == paths::path_key(
                path,
            ) && s.observations[i].observation == o,
{
    let keys = slot_keys(s.observations);
    let key = paths::path_key(path);
    if exists|i: int|
        0 <= i < s.observations.len() && (#[trigger] s.observations[i]).key == key
            && s.observations[i].observation == o {
        let i = choose|i: int|
            0 <= i < s.observations.len() && (#[trigger] s.observations[i]).key == key
                && s.observations[i].observation == o;
        assert(keys[i] == key);
        lemma_present_at(keys, i);
    }
    if known(s, path) == Some(o) {
        let i = place_of(keys, key) as int;
        assert(keys[i] == s.observations[i].key);
    }
}

/// An update touches nothing but what is known of files: the lines that the model
/// was shown, and the limits, stay.
pub proof fn law_an_update_touches_only_what_is_known(s: FileStateView, update: FileStateUpdate)
    ensures
        ({
            let now = applied(s, update);
            &&& now.context_reads == s.context_reads
            &&& now.max_observations == s.max_observations
            &&& now.max_memory_bytes == s.max_memory_bytes
            &&& now.max_ranges == s.max_ranges
            &&& now.sequence == if s.sequence == u64::MAX {
                0
            } else {
                s.sequence + 1
            }
        }),
{
}

/// Nothing goes while the limits hold.
pub proof fn law_nothing_goes_within_the_limits(s: FileStateView, slots: Seq<SlotView>)
    requires
        slots.len() <= s.max_observations,
        memory_bytes(slots) <= s.max_memory_bytes,
    ensures
        within_limits(s, slots) == slots,
{
}

/// Each entry costs a fixed overhead, the bytes of its path and two words for
/// every range.
pub proof fn law_what_an_entry_costs(slots: Seq<SlotView>, one: SlotView)
    ensures
        memory_bytes(slots.push(one)) == memory_bytes(slots) + 256 + encode_utf8(one.path).len()
            + one.observation.coverage.ranges.len() * 16,
        memory_bytes(Seq::<SlotView>::empty()) == 0,
{
    assert(slots.push(one).drop_last() =~= slots);
    assert(slots.push(one).last() == one);
}

/// The coverage of one read is the units that it asked for and that exist; it is
/// complete where no unit is missing.
pub proof fn law_a_read_covers_what_it_showed(total: u64, range: Span, empty_from_start: bool)
    ensures
        ({
            let c = read_coverage(total, range, empty_from_start);
            &&& c.total_units == total
            &&& c.ranges.len() <= 1
            &&& forall|u: int| #[trigger]
                covers(c.ranges, u) <==> range.start <= u < range.end && u < total
            &&& c.complete <==> forall|u: int| 0 <= u < total ==> #[trigger] covers(c.ranges, u)
        }),
{
    let c = read_coverage(total, range, empty_from_start);
    assert forall|u: int| #[trigger] covers(c.ranges, u) <==> range.start <= u < range.end && u
        < total by {
        if c.ranges.len() == 1 {
            assert(covers(c.ranges, u) <==> c.ranges[0].start <= u < c.ranges[0].end) by {
                if c.ranges[0].start <= u < c.ranges[0].end {
                    assert(c.ranges[0].start <= u);
                }
            }
        }
    }
    if c.complete {
        assert forall|u: int| 0 <= u < total implies #[trigger] covers(c.ranges, u) by {
            assert(c.ranges[0].start <= u < c.ranges[0].end);
        }
    } else {
        assert(total > 0);
        if forall|u: int| 0 <= u < total ==> #[trigger] covers(c.ranges, u) {
            assert(covers(c.ranges, 0));
            assert(covers(c.ranges, total - 1));
        }
    }
}

/// A read takes over from what was known before nothing but coverage, and only of
/// the same version, file and kind of read: of that, complete coverage, or, where
/// the file has as many units, the ranges.
pub proof fn law_what_a_read_takes_over(
    now: ObservationView,
    existing: Option<ObservationView>,
    max: nat,
    u: int,
)
    requires
        proper(now.coverage.ranges),
        existing is Some ==> proper(existing->0.coverage.ranges),
    ensures
        ({
            let c = combined(now, existing, max);
            let e = existing->0;
            let same = existing is Some && e.version == now.version && e.identity == now.identity
                && e.notebook == now.notebook;
            &&& c.version == now.version
            &&& c.identity == now.identity
            &&& c.notebook == now.notebook
            &&& c.coverage.total_units == now.coverage.total_units
            &&& covers(c.coverage.ranges, u) ==> covers(now.coverage.ranges, u) || (same && covers(
                e.coverage.ranges,
                u,
            ))
            &&& same && !e.coverage.complete && e.coverage.total_units == now.coverage.total_units
                && now.coverage.ranges.len() + e.coverage.ranges.len() <= max ==> (covers(
                c.coverage.ranges,
                u,
            ) <==> covers(now.coverage.ranges, u) || covers(e.coverage.ranges, u))
            &&& same && e.coverage.complete ==> c.coverage.complete
            &&& same && !e.coverage.complete && e.coverage.total_units != now.coverage.total_units
                ==> c == now
            &&& !same ==> c == now
        }),
{
    if existing is Some {
        let e = existing->0;
        let both = now.coverage.ranges + e.coverage.ranges;
        assert forall|i: int| 0 <= i < both.len() implies (#[trigger] both[i]).start
            <= both[i].end by {
            if i < now.coverage.ranges.len() {
                assert(both[i] == now.coverage.ranges[i]);
            } else {
                assert(both[i] == e.coverage.ranges[i - now.coverage.ranges.len()]);
            }
        }
        law_coalescing_keeps_coverage(both, max);
        lemma_covers_sum(now.coverage.ranges, e.coverage.ranges, u);
        if both.len() <= max {
            lemma_sorted_spans(both);
            lemma_sorted_len(both);
            lemma_joined_spans(sorted_spans(both), both.len() + 1);
            lemma_less_room(sorted_spans(both), both.len() + 1, both.len() + 1);
            lemma_joined_len(sorted_spans(both), both.len() + 1);
            assert(covers(all_joined(both), u) <==> covers(both, u));
        }
    }
}

proof fn lemma_joined_len(sorted: Seq<Span>, max: nat)
    ensures
        joined_spans(sorted, max).len() <= sorted.len(),
    decreases sorted.len(),
{
    if sorted.len() > 0 {
        lemma_joined_len(sorted.drop_last(), max);
    }
}

proof fn lemma_covered_through(ranges: Seq<Span>, n: nat, reached: u64)
    requires
        n <= ranges.len(),
        proper(ranges),
        by_start(ranges),
        forall|u: int| 0 <= u < reached ==> #[trigger] covers(ranges, u),
        forall|k: int| 0 <= k < ranges.len() - n ==> (#[trigger] ranges[k]).end <= reached,
    ensures
        forall|u: int|
            0 <= u < covered_through(ranges, n, reached) ==> #[trigger] covers(ranges, u),
        !covers(ranges, covered_through(ranges, n, reached) as int),
    decreases n,
{
    let through = covered_through(ranges, n, reached);
    let at = ranges.len() - n;
    if n == 0 {
    } else if ranges[at].start > reached {
        assert forall|k: int| 0 <= k < ranges.len() implies !((#[trigger] ranges[k]).start
            <= reached < ranges[k].end) by {
            if k >= at {
                assert(ranges[at].start <= ranges[k].start);
            }
        }
    } else {
        let next = if ranges[at].end > reached {
            ranges[at].end
        } else {
            reached
        };
        assert forall|u: int| 0 <= u < next implies #[trigger] covers(ranges, u) by {
            if u >= reached {
                assert(ranges[at].start <= u < ranges[at].end);
            }
        }
        lemma_covered_through(ranges, (n - 1) as nat, next);
    }
}

/// The unit where a read should go on is the first that no range holds, counted
/// from one; there is none exactly where the coverage is complete or holds every
/// unit.
pub proof fn law_reading_goes_on_where_it_stopped(c: CoverageView)
    requires
        proper(c.ranges),
        by_start(c.ranges),
    ensures
        first_unread(c) is None <==> c.complete || forall|u: int|
            0 <= u < c.total_units ==> #[trigger] covers(c.ranges, u),
        first_unread(c) matches Some(unit) ==> {
            &&& 1 <= unit <= c.total_units
            &&& !covers(c.ranges, unit - 1)
            &&& forall|u: int| 0 <= u < unit - 1 ==> #[trigger] covers(c.ranges, u)
        },
{
    lemma_covered_through(c.ranges, c.ranges.len(), 0);
    let through = covered_through(c.ranges, c.ranges.len(), 0);
    if through < c.total_units {
        assert(!covers(c.ranges, through as int));
    }
}

/// Whether the state has lines of this version of the file on record.
pub open spec fn on_record(s: FileStateView, path: Seq<char>, version: VersionView) -> bool {
    exists|i: int|
        0 <= i < s.context_reads.len() && (#[trigger] s.context_reads[i]).key == paths::path_key(
            path,
        ) && s.context_reads[i].version == version
}

proof fn lemma_no_record(s: FileStateView, path: Seq<char>, version: VersionView)
    requires
        !on_record(s, path, version),
    ensures
        record_for(s.context_reads, paths::path_key(path), version) == (ReadsView {
            key: paths::path_key(path),
            version,
            ranges: Seq::empty(),
            rereads: 0,
            last_updated: 0,
        }),
{
    let keys = reads_keys(s.context_reads);
    let key = paths::path_key(path);
    if present(keys, key) {
        let i = place_of(keys, key) as int;
        assert(s.context_reads[i].key == keys[i]);
    }
}

proof fn lemma_record_is_found(s: FileStateView, path: Seq<char>, version: VersionView, i: int)
    requires
        rising(reads_keys(s.context_reads)),
        0 <= i < s.context_reads.len(),
        s.context_reads[i].key == paths::path_key(path),
        s.context_reads[i].version == version,
    ensures
        record_for(s.context_reads, paths::path_key(path), version) == s.context_reads[i],
{
    let keys = reads_keys(s.context_reads);
    assert(keys[i] == s.context_reads[i].key);
    lemma_present_at(keys, i);
}

proof fn lemma_newest_are_kept(reads: Seq<ReadsView>, max: nat, k: int)
    requires
        0 <= k < newest_records(reads, max).len(),
    ensures
        exists|i: int| 0 <= i < reads.len() && #[trigger] reads[i] == newest_records(reads, max)[k],
    decreases reads.len(),
{
    let kept = newest_records(reads, max);
    if reads.len() > max {
        lemma_oldest_record_bounds(reads, reads.len());
        let i = oldest_record(reads, reads.len()) as int;
        let rest = reads.remove(i);
        lemma_newest_are_kept(rest, max, k);
        let j = choose|j: int| 0 <= j < rest.len() && #[trigger] rest[j] == kept[k];
        assert(reads[if j < i {
            j
        } else {
            j + 1
        }] == kept[k]);
    } else {
        assert(reads[k] == kept[k]);
    }
}

proof fn lemma_kept_under_key(s: FileStateView, path: Seq<char>, o: ObservationView, k: int)
    requires
        rising(reads_keys(s.context_reads)),
        o.coverage.ranges.len() == 1,
        0 <= k < noted(s, path, o).context_reads.len(),
        noted(s, path, o).context_reads[k].key == paths::path_key(path),
    ensures
        noted(s, path, o).context_reads[k] == record_after(
            record_for(s.context_reads, paths::path_key(path), o.version),
            o.coverage.ranges[0],
            next_sequence(s.sequence),
            s.max_ranges,
        ),
{
    let key = paths::path_key(path);
    let record = record_after(
        record_for(s.context_reads, key, o.version),
        o.coverage.ranges[0],
        next_sequence(s.sequence),
        s.max_ranges,
    );
    let keys = reads_keys(s.context_reads);
    if present(keys, key) {
        assert(s.context_reads[place_of(keys, key) as int].key == key);
    }
    assert(record.key == key);
    let all = with_record(s.context_reads, record);
    let at = place_of(keys, key) as int;
    lemma_place_bounds(keys, key);
    lemma_with_record_rising(s.context_reads, record);
    assert(all[at] == record);
    lemma_newest_are_kept(all, s.max_observations, k);
    let kept = noted(s, path, o).context_reads;
    let i = choose|i: int| 0 <= i < all.len() && #[trigger] all[i] == kept[k];
    assert(reads_keys(all)[i] == key);
    assert(reads_keys(all)[at] == key);
    lemma_present_at(reads_keys(all), i);
    lemma_present_at(reads_keys(all), at);
}

proof fn lemma_one_range(range: Span, max: nat)
    requires
        max >= 1,
    ensures
        coalesced(Seq::<Span>::empty().push(range), max) == seq![range],
{
    reveal_with_fuel(sorted_spans, 2);
    reveal_with_fuel(joined_spans, 2);
    let one = Seq::<Span>::empty().push(range);
    assert(one.drop_last() =~= Seq::<Span>::empty());
    assert(sorted_spans(one) =~= seq![range]);
    assert(seq![range].drop_last() =~= Seq::<Span>::empty());
    assert(coalesced(one, max) =~= seq![range]);
}

/// A read of a version that is not on record is never a reread, and what is put on
/// record for the path is that read alone: lines of an older version count for
/// nothing.
pub proof fn law_another_version_is_no_reread(
    s: FileStateView,
    path: Seq<char>,
    o: ObservationView,
    k: int,
)
    requires
        well_formed(s),
        s.max_ranges >= 1,
        !on_record(s, path, o.version),
    ensures
        rereads_of(s, path, o) is None,
        o.coverage.ranges.len() == 1 && 0 <= k < noted(s, path, o).context_reads.len() && noted(
            s,
            path,
            o,
        ).context_reads[k].key == paths::path_key(path) ==> {
            let kept = noted(s, path, o).context_reads[k];
            &&& kept.version == o.version
            &&& kept.ranges == o.coverage.ranges
            &&& kept.rereads == 0
        },
{
    lemma_no_record(s, path, o.version);
    if o.coverage.ranges.len() == 1 && 0 <= k < noted(s, path, o).context_reads.len() && noted(
        s,
        path,
        o,
    ).context_reads[k].key == paths::path_key(path) {
        lemma_kept_under_key(s, path, o, k);
        lemma_one_range(o.coverage.ranges[0], s.max_ranges);
        assert(o.coverage.ranges =~= seq![o.coverage.ranges[0]]);
    }
}

/// A read is a reread exactly where lines of this very version are on record and one
/// of them is read again; it counts one more than those before it.
pub proof fn law_lines_read_again_are_a_reread(
    s: FileStateView,
    path: Seq<char>,
    o: ObservationView,
    i: int,
)
    requires
        well_formed(s),
        0 <= i < s.context_reads.len(),
        s.context_reads[i].key == paths::path_key(path),
        s.context_reads[i].version == o.version,
        o.coverage.ranges.len() == 1,
        o.coverage.ranges[0].start < o.coverage.ranges[0].end,
        forall|j: int|
            0 <= j < s.context_reads[i].ranges.len() ==> (
            #[trigger] s.context_reads[i].ranges[j]).start < s.context_reads[i].ranges[j].end,
    ensures
        rereads_of(s, path, o) is Some <==> exists|u: int|
            o.coverage.ranges[0].start <= u < o.coverage.ranges[0].end && #[trigger] covers(
                s.context_reads[i].ranges,
                u,
            ),
        rereads_of(s, path, o) matches Some(n) ==> n == if s.context_reads[i].rereads == u32::MAX {
            u32::MAX as int
        } else {
            s.context_reads[i].rereads + 1
        },
{
    lemma_record_is_found(s, path, o.version, i);
    let ranges = s.context_reads[i].ranges;
    let range = o.coverage.ranges[0];
    if overlaps_any(ranges, range) {
        let j = choose|j: int| 0 <= j < ranges.len() && overlap(range, #[trigger] ranges[j]);
        let u: int = if ranges[j].start > range.start {
            ranges[j].start as int
        } else {
            range.start as int
        };
        assert(ranges[j].start <= u < ranges[j].end);
        assert(covers(ranges, u));
    }
    if exists|u: int| range.start <= u < range.end && #[trigger] covers(ranges, u) {
        let u = choose|u: int| range.start <= u < range.end && #[trigger] covers(ranges, u);
        let j = choose|j: int|
            0 <= j < ranges.len() && (#[trigger] ranges[j]).start <= u < ranges[j].end;
        assert(overlap(range, ranges[j]));
    }
}

/// What is on record after a read of the version on record: the lines of this read
/// and of those before, and one reread more exactly where this was one.
pub proof fn law_a_read_is_put_on_record(
    s: FileStateView,
    path: Seq<char>,
    o: ObservationView,
    i: int,
    k: int,
    u: int,
)
    requires
        well_formed(s),
        0 <= i < s.context_reads.len(),
        s.context_reads[i].key == paths::path_key(path),
        s.context_reads[i].version == o.version,
        proper(s.context_reads[i].ranges),
        o.coverage.ranges.len() == 1,
        o.coverage.ranges[0].start <= o.coverage.ranges[0].end,
        s.context_reads[i].ranges.len() < s.max_ranges,
        0 <= k < noted(s, path, o).context_reads.len(),
        noted(s, path, o).context_reads[k].key == paths::path_key(path),
    ensures
        ({
            let was = s.context_reads[i];
            let now = noted(s, path, o).context_reads[k];
            &&& now.version == o.version
            &&& covers(now.ranges, u) <==> covers(was.ranges, u) || o.coverage.ranges[0].start <= u
                < o.coverage.ranges[0].end
            &&& now.rereads == match rereads_of(s, path, o) {
                Some(n) => n,
                None => was.rereads,
            }
        }),
{
    lemma_record_is_found(s, path, o.version, i);
    lemma_kept_under_key(s, path, o, k);
    let was = s.context_reads[i].ranges;
    let range = o.coverage.ranges[0];
    let both = was.push(range);
    assert forall|j: int| 0 <= j < both.len() implies (#[trigger] both[j]).start <= both[j].end by {
        if j < was.len() {
            assert(both[j] == was[j]);
        }
    }
    law_coalescing_keeps_coverage(both, s.max_ranges);
    lemma_sorted_len(both);
    lemma_joined_len(sorted_spans(both), both.len() + 1);
    assert(covers(all_joined(both), u) <==> covers(both, u));
    lemma_covers_sum(was, seq![range], u);
    assert(both =~= was + seq![range]);
    assert(covers(seq![range], u) <==> range.start <= u < range.end) by {
        if range.start <= u < range.end {
            assert(seq![range][0].start <= u < seq![range][0].end);
        }
    }
}

proof fn lemma_newest_stays(reads: Seq<ReadsView>, max: nat, i: int)
    requires
        0 <= i < reads.len(),
        max >= 1,
        forall|k: int|
            0 <= k < reads.len() && k != i ==> (#[trigger] reads[k]).last_updated
                < reads[i].last_updated,
    ensures
        exists|k: int|
            0 <= k < newest_records(reads, max).len() && #[trigger] newest_records(reads, max)[k]
                == reads[i],
    decreases reads.len(),
{
    let kept = newest_records(reads, max);
    if reads.len() > max {
        lemma_oldest_record_least(reads, reads.len());
        let j = oldest_record(reads, reads.len()) as int;
        let other: int = if i == 0 {
            1
        } else {
            0
        };
        assert(reads[other].last_updated < reads[i].last_updated);
        assert(j != i);
        let rest = reads.remove(j);
        let at = if i < j {
            i
        } else {
            i - 1
        };
        assert(rest[at] == reads[i]);
        assert forall|k: int| 0 <= k < rest.len() && k != at implies (
        #[trigger] rest[k]).last_updated < rest[at].last_updated by {
            let was = if k < j {
                k
            } else {
                k + 1
            };
            assert(rest[k] == reads[was]);
        }
        lemma_newest_stays(rest, max, at);
    } else {
        assert(kept[i] == reads[i]);
    }
}

proof fn lemma_oldest_record_least(reads: Seq<ReadsView>, n: nat)
    requires
        0 < n <= reads.len(),
    ensures
        oldest_record(reads, n) < n,
        forall|i: int|
            0 <= i < n ==> reads[oldest_record(reads, n) as int].last_updated <= (
            #[trigger] reads[i]).last_updated,
    decreases n,
{
    if n > 1 {
        lemma_oldest_record_least(reads, (n - 1) as nat);
    }
}

/// When there are too many records, the one updated longest ago goes.
pub proof fn law_the_oldest_record_goes_first(reads: Seq<ReadsView>, max: nat)
    requires
        reads.len() > max,
    ensures
        exists|i: int|
            0 <= i < reads.len() && newest_records(reads, max) == newest_records(
                #[trigger] reads.remove(i),
                max,
            ) && forall|k: int|
                0 <= k < reads.len() ==> reads[i].last_updated <= (#[trigger] reads[k]).last_updated,
{
    lemma_oldest_record_least(reads, reads.len());
    let i = oldest_record(reads, reads.len()) as int;
    assert(newest_records(reads, max) == newest_records(reads.remove(i), max));
}

/// A read is on record afterwards, however many there were before.
pub proof fn law_the_newest_read_is_on_record(s: FileStateView, path: Seq<char>, o: ObservationView)
    requires
        well_formed(s),
        s.max_observations >= 1,
        s.sequence < u64::MAX,
        forall|i: int|
            0 <= i < s.context_reads.len() ==> (#[trigger] s.context_reads[i]).last_updated
                <= s.sequence,
        o.coverage.ranges.len() == 1,
    ensures
        on_record(noted(s, path, o), path, o.version),
        forall|i: int|
            0 <= i < noted(s, path, o).context_reads.len() ==> (
            #[trigger] noted(s, path, o).context_reads[i]).last_updated <= noted(
                s,
                path,
                o,
            ).sequence,
{
    let key = paths::path_key(path);
    let keys = reads_keys(s.context_reads);
    if present(keys, key) {
        assert(s.context_reads[place_of(keys, key) as int].key == key);
    }
    let record = record_after(
        record_for(s.context_reads, key, o.version),
        o.coverage.ranges[0],
        next_sequence(s.sequence),
        s.max_ranges,
    );
    let all = with_record(s.context_reads, record);
    let at = place_of(keys, key) as int;
    lemma_place_bounds(keys, key);
    assert(all[at] == record);
    assert forall|k: int| 0 <= k < all.len() && k != at implies (#[trigger] all[k]).last_updated
        < all[at].last_updated by {
        if present(keys, key) {
            assert(all[k] == s.context_reads[k]);
        } else if k < at {
            assert(all[k] == s.context_reads[k]);
        } else {
            assert(all[k] == s.context_reads[k - 1]);
        }
    }
    lemma_newest_stays(all, s.max_observations, at);
    let kept = noted(s, path, o).context_reads;
    let k = choose|k: int| 0 <= k < kept.len() && #[trigger] kept[k] == all[at];
    assert(kept[k].key == key && kept[k].version == o.version);
    assert forall|i: int| 0 <= i < kept.len() implies (#[trigger] kept[i]).last_updated <= noted(
        s,
        path,
        o,
    ).sequence by {
        lemma_newest_are_kept(all, s.max_observations, i);
        let j = choose|j: int| 0 <= j < all.len() && #[trigger] all[j] == kept[i];
        if j != at {
            assert(all[j].last_updated < all[at].last_updated);
        }
    }
}

/// The same lines of the same version, shown twice in a row, are a reread the second
/// time.
pub proof fn law_the_same_lines_twice_are_a_reread(
    s: FileStateView,
    path: Seq<char>,
    o: ObservationView,
)
    requires
        well_formed(s),
        s.max_observations >= 1,
        s.max_ranges >= 1,
        s.sequence < u64::MAX,
        forall|i: int|
            0 <= i < s.context_reads.len() ==> (#[trigger] s.context_reads[i]).last_updated
                <= s.sequence,
        o.coverage.ranges.len() == 1,
        o.coverage.ranges[0].start < o.coverage.ranges[0].end,
        !on_record(s, path, o.version),
    ensures
        rereads_of(noted(s, path, o), path, o) == Some(1u32),
{
    let now = noted(s, path, o);
    law_the_newest_read_is_on_record(s, path, o);
    let key = paths::path_key(path);
    let k = choose|k: int|
        0 <= k < now.context_reads.len() && (#[trigger] now.context_reads[k]).key == key
            && now.context_reads[k].version == o.version;
    law_another_version_is_no_reread(s, path, o, k);
    let record = record_after(
        record_for(s.context_reads, key, o.version),
        o.coverage.ranges[0],
        next_sequence(s.sequence),
        s.max_ranges,
    );
    let keys = reads_keys(s.context_reads);
    if present(keys, key) {
        assert(s.context_reads[place_of(keys, key) as int].key == key);
    }
    lemma_with_record_rising(s.context_reads, record);
    lemma_newest_records(with_record(s.context_reads, record), s.max_observations);
    lemma_record_is_found(now, path, o.version, k);
    let range = o.coverage.ranges[0];
    assert(overlap(range, now.context_reads[k].ranges[0]));
}

/// Noting a read leaves what is known of files, and the limits, alone; a read of
/// nothing, or of more than one range, leaves everything alone. While there is
/// room, the lines on record for every other path stay too.
pub proof fn law_noting_a_read_leaves_the_rest_alone(
    s: FileStateView,
    path: Seq<char>,
    o: ObservationView,
    other: ReadsView,
)
    requires
        well_formed(s),
        other.key != paths::path_key(path),
        s.context_reads.len() < s.max_observations,
    ensures
        noted(s, path, o).observations == s.observations,
        noted(s, path, o).max_observations == s.max_observations,
        noted(s, path, o).max_memory_bytes == s.max_memory_bytes,
        noted(s, path, o).max_ranges == s.max_ranges,
        o.coverage.ranges.len() != 1 ==> noted(s, path, o) == s && rereads_of(s, path, o) is None,
        noted(s, path, o).context_reads.contains(other) <==> s.context_reads.contains(other),
{
    if o.coverage.ranges.len() == 1 {
        let key = paths::path_key(path);
        let keys = reads_keys(s.context_reads);
        let at = place_of(keys, key) as int;
        lemma_place_bounds(keys, key);
        let there = present(keys, key);
        if there {
            assert(s.context_reads[at].key == key);
        }
        let record = record_after(
            record_for(s.context_reads, key, o.version),
            o.coverage.ranges[0],
            next_sequence(s.sequence),
            s.max_ranges,
        );
        let all = with_record(s.context_reads, record);
        assert(noted(s, path, o).context_reads == all);
        assert(all[at] == record);
        if s.context_reads.contains(other) {
            let i = choose|i: int| 0 <= i < s.context_reads.len() && s.context_reads[i] == other;
            let k = if there || i < at {
                i
            } else {
                i + 1
            };
            assert(all[k] == other);
        }
        if all.contains(other) {
            let k = choose|k: int| 0 <= k < all.len() && all[k] == other;
            assert(k != at);
            let i = if there || k < at {
                k
            } else {
                k - 1
            };
            assert(s.context_reads[i] == other);
        }
    }
}

/// A version is the digest of the bytes and what the file system says: another digest, or
/// anything else that it says, is another version.
pub proof fn law_what_makes_a_version(
    a: Seq<u8>,
    b: Seq<u8>,
    m: FileMetadata,
    n: FileMetadata,
)
    ensures
        version_of(a, m) == version_of(b, n) <==> digest::sha256_of(a) == digest::sha256_of(b)
            && m == n,
{
}

/// What is written last of a path is held under its key, with the number of the update.
pub proof fn law_an_update_is_stamped(s: FileStateView, path: String, observation: FileObservation)
    requires
        well_formed(s),
        !over_limits(s, updated(s, FileStateUpdate::Replace { path, observation })),
    ensures
        exists|i: int|
            0 <= i < applied(
                s,
                FileStateUpdate::Replace { path, observation },
            ).observations.len() && (#[trigger] applied(
                s,
                FileStateUpdate::Replace { path, observation },
            ).observations[i]).key == paths::path_key(path@) && applied(
                s,
                FileStateUpdate::Replace { path, observation },
            ).observations[i].last_updated == applied(
                s,
                FileStateUpdate::Replace { path, observation },
            ).sequence && applied(
                s,
                FileStateUpdate::Replace { path, observation },
            ).observations[i].observation == observation@,
{
    let update = FileStateUpdate::Replace { path, observation };
    let keys = slot_keys(s.observations);
    let key = paths::path_key(path@);
    let i = place_of(keys, key) as int;
    lemma_place_bounds(keys, key);
    let now = applied(s, update).observations;
    assert(now == updated(s, update));
    if present(keys, key) {
        assert(keys[i] == s.observations[i].key);
    }
    assert(now[i].key == key);
    assert(now[i].last_updated == applied(s, update).sequence);
}

/// A path that is held keeps the spelling that it was first seen under; a new one is held
/// as it is spelled.
pub proof fn law_a_path_keeps_its_first_spelling(
    s: FileStateView,
    path: Seq<char>,
    o: ObservationView,
    at: u64,
    i: int,
)
    requires
        well_formed(s),
        0 <= i < with_observation(s.observations, path, o, at).len(),
        with_observation(s.observations, path, o, at)[i].key == paths::path_key(path),
    ensures
        ({
            let now = with_observation(s.observations, path, o, at)[i];
            &&& now.observation == o
            &&& now.last_updated == at
            &&& forall|k: int|
                0 <= k < s.observations.len() && (#[trigger] s.observations[k]).key
                    == paths::path_key(path) ==> now.path == s.observations[k].path
            &&& (forall|k: int|
                0 <= k < s.observations.len() ==> (#[trigger] s.observations[k]).key
                    != paths::path_key(path)) ==> now.path == path
        }),
{
    let keys = slot_keys(s.observations);
    let key = paths::path_key(path);
    let j = place_of(keys, key) as int;
    let all = with_observation(s.observations, path, o, at);
    lemma_place_bounds(keys, key);
    lemma_with_observation_rising(s.observations, path, o, at);
    if present(keys, key) {
        assert(keys[j] == s.observations[j].key);
    }
    assert(slot_keys(all)[i] == key);
    assert(all[j].key == key);
    assert(slot_keys(all)[j] == key);
    lemma_present_at(slot_keys(all), i);
    lemma_present_at(slot_keys(all), j);
    assert forall|k: int| 0 <= k < s.observations.len() && (#[trigger] s.observations[k]).key
        == key implies all[i].path == s.observations[k].path by {
        assert(keys[k] == key);
        lemma_present_at(keys, k);
    }
}

} // verus!
