//! Where an execution came from and where its result goes: a bounded, typed
//! receipt without free-form text.

use vstd::prelude::*;
use vstd::utf8::encode_utf8;

use crate::digest;
use crate::protocol;
use crate::text;

verus! {

pub const RECEIPT_VERSION: u8 = 1;

pub const MAX_RECEIPT_BYTES: usize = 2_048;

pub const SESSION_DOMAIN: &'static str = "kloop-execution-session/v1\0";

pub const THREAD_DOMAIN: &'static str = "kloop-execution-thread/v1\0";

pub const ROLLOUT_DOMAIN: &'static str = "kloop-execution-rollout/v1\0";

pub const MAX_PROVENANCE_HISTORY_BYTES: usize = 131_072;

pub const MAX_PROVENANCE_ATTEMPTS: usize = 32;

pub const PROVENANCE_HISTORY_VERSION: u8 = 1;

// ---------------------------------------------------------------------------
// Ids
// ---------------------------------------------------------------------------

/// A number as an id carries it: digits without a leading zero, at least one,
/// within 64 bits.
pub open spec fn canonical_number(s: Seq<char>) -> bool {
    &&& s.len() > 0
    &&& s[0] != '0'
    &&& text::all_digits(s)
    &&& text::digits_value(s) <= u64::MAX
}

/// What is wrong with the spelling of a transient id.
pub open spec fn transient_error(raw: Seq<char>, prefix: Seq<char>, noun: Seq<char>) -> Option<
    Seq<char>,
> {
    if !text::starts_with(raw, prefix) {
        Some(noun + " id must use `"@ + prefix + "N`"@)
    } else if !canonical_number(raw.skip(prefix.len() as int)) {
        Some(noun + " id must use canonical `"@ + prefix + "N` with N >= 1"@)
    } else {
        None
    }
}

/// Where the first `-` of a text is; its length where there is none.
pub open spec fn first_dash(s: Seq<char>) -> nat
    decreases s.len(),
{
    if s.len() == 0 || s[0] == '-' {
        0
    } else {
        1 + first_dash(s.drop_first())
    }
}

/// What is wrong with the spelling of a durable id.
pub open spec fn durable_error(raw: Seq<char>, prefix: Seq<char>, noun: Seq<char>) -> Option<
    Seq<char>,
> {
    let rest = raw.skip(prefix.len() as int);
    let at = first_dash(rest) as int;
    if !text::starts_with(raw, prefix) {
        Some(noun + " id has the wrong prefix"@)
    } else if at >= rest.len() || at == 0 || !text::all_digits(rest.take(at)) || !canonical_number(
        rest.skip(at + 1),
    ) {
        Some(noun + " id has the wrong shape"@)
    } else {
        None
    }
}

fn is_canonical_number(s: &str) -> (r: bool)
    ensures
        r == canonical_number(s@),
{
    let chars = text::chars_of(s);
    if chars.len() == 0 || chars[0] == '0' {
        return false;
    }
    if chars[0] == '+' {
        proof {
            assert(!text::is_digit(s@[0]));
        }
        return false;
    }
    proof {
        assert(text::unsigned_digits(s@) == s@);
    }
    text::parse_number(s, u64::MAX).is_some()
}

fn check_transient(raw: &str, prefix: &str, noun: &str) -> (r: Result<(), String>)
    ensures
        match r {
            Ok(()) => transient_error(raw@, prefix@, noun@) is None,
            Err(e) => transient_error(raw@, prefix@, noun@) == Some(e@),
        },
{
    let mut e = noun.to_owned();
    match text::strip_prefix(raw, prefix) {
        None => {
            e.append(" id must use `");
            e.append(prefix);
            e.append("N`");
            Err(e)
        },
        Some(rest) => if is_canonical_number(rest.as_str()) {
            Ok(())
        } else {
            e.append(" id must use canonical `");
            e.append(prefix);
            e.append("N` with N >= 1");
            Err(e)
        },
    }
}

proof fn lemma_canonical_positive(s: Seq<char>)
    requires
        canonical_number(s),
    ensures
        text::digits_value(s) >= 1,
        text::unsigned_digits(s) == s,
    decreases s.len(),
{
    assert(text::is_digit(s[0]));
    if s.len() == 1 {
        reveal_with_fuel(text::digits_value, 2);
        assert(s.drop_last() =~= Seq::<char>::empty());
        assert(s.last() == s[0]);
        let c: char = s[0];
        vstd::utf8::char_u32_cast(c, c as u32);
        vstd::utf8::char_u32_cast('0', 0x30);
        assert(c as u32 != 0x30);
        assert(text::digits_value(s.drop_last()) == 0);
        assert(text::digits_value(s) == (s[0] as u32 - 0x30) as nat);
    } else {
        let front = s.drop_last();
        assert(text::all_digits(front)) by {
            assert forall|i: int| 0 <= i < front.len() implies text::is_digit(#[trigger] front[i]) by {
                assert(front[i] == s[i]);
            }
        }
        assert(front[0] == s[0]);
        assert(text::is_digit(s[s.len() - 1]));
        lemma_canonical_positive(front);
    }
}

fn transient_number(raw: &str, prefix: &str, noun: &str) -> (r: u64)
    requires
        transient_error(raw@, prefix@, noun@) is None,
    ensures
        r == text::digits_value(raw@.skip(prefix@.len() as int)),
        r >= 1,
{
    proof {
        lemma_canonical_positive(raw@.skip(prefix@.len() as int));
    }
    match text::strip_prefix(raw, prefix) {
        Some(rest) => match text::parse_number(rest.as_str(), u64::MAX) {
            Some(n) => n,
            None => 1,
        },
        None => 1,
    }
}

fn find_dash(chars: &Vec<char>) -> (r: usize)
    ensures
        r == first_dash(chars@),
        r <= chars@.len(),
{
    let mut i: usize = 0;
    proof {
        assert(chars@.skip(0) =~= chars@);
    }
    while i < chars.len()
        invariant
            i <= chars@.len(),
            first_dash(chars@) == i + first_dash(chars@.skip(i as int)),
        decreases chars@.len() - i,
    {
        proof {
            assert(chars@.skip(i as int).drop_first() =~= chars@.skip(i + 1));
        }
        if chars[i] == '-' {
            return i;
        }
        i += 1;
    }
    i
}

fn are_digits(chars: &Vec<char>, n: usize) -> (r: bool)
    requires
        n <= chars@.len(),
    ensures
        r == text::all_digits(chars@.take(n as int)),
{
    let mut i: usize = 0;
    while i < n
        invariant
            i <= n <= chars@.len(),
            forall|k: int| 0 <= k < i ==> text::is_digit(#[trigger] chars@.take(n as int)[k]),
        decreases n - i,
    {
        let u: u32 = chars[i] as u32;
        proof {
            assert(chars@.take(n as int)[i as int] == chars@[i as int]);
        }
        if u < 0x30 || u > 0x39 {
            proof {
                assert(!text::is_digit(chars@.take(n as int)[i as int]));
            }
            return false;
        }
        i += 1;
    }
    true
}

fn check_durable(raw: &str, prefix: &str, noun: &str) -> (r: Result<(), String>)
    ensures
        match r {
            Ok(()) => durable_error(raw@, prefix@, noun@) is None,
            Err(e) => durable_error(raw@, prefix@, noun@) == Some(e@),
        },
{
    let mut e = noun.to_owned();
    let rest = match text::strip_prefix(raw, prefix) {
        Some(rest) => rest,
        None => {
            e.append(" id has the wrong prefix");
            return Err(e);
        },
    };
    let chars = text::chars_of(rest.as_str());
    let at: usize = find_dash(&chars);
    if at < chars.len() && at > 0 && are_digits(&chars, at) {
        let sequence = text::text_of(&chars, at + 1, chars.len());
        proof {
            assert(chars@.subrange(at + 1, chars@.len() as int) =~= chars@.skip(at + 1));
        }
        if is_canonical_number(sequence.as_str()) {
            return Ok(());
        }
    }
    e.append(" id has the wrong shape");
    Err(e)
}

/// `agent-N` with N at least one.
#[derive(Debug, PartialEq, Eq)]
pub struct AgentExecutionId {
    raw: String,
}

impl AgentExecutionId {
    #[verifier::type_invariant]
    spec fn canonical(self) -> bool {
        transient_error(self.raw@, "agent-"@, "Agent execution"@) is None
    }

    /// The id as it is written.
    pub closed spec fn text(self) -> Seq<char> {
        self.raw@
    }

    /// Reads an id; only the canonical spelling is one.
    pub fn parse(raw: &str) -> (r: Result<Self, String>)
        ensures
            match r {
                Ok(id) => id.text() == raw@ && transient_error(raw@, "agent-"@, "Agent execution"@) is None,
                Err(e) => transient_error(raw@, "agent-"@, "Agent execution"@) == Some(e@),
            },
    {
        check_transient(raw, "agent-", "Agent execution")?;
        Ok(AgentExecutionId { raw: raw.to_owned() })
    }

    /// The id as it is written.
    pub fn as_str(&self) -> (r: &str)
        ensures
            r@ == self.text(),
    {
        self.raw.as_str()
    }

    /// The number of the id.
    pub fn sequence(&self) -> (r: u64)
        ensures
            r == text::digits_value(self.text().skip("agent-"@.len() as int)),
            r >= 1,
    {
        proof {
            use_type_invariant(self);
        }
        transient_number(self.raw.as_str(), "agent-", "Agent execution")
    }
}

impl Clone for AgentExecutionId {
    fn clone(&self) -> (r: Self)
        ensures
            r.text() == self.text(),
    {
        proof {
            use_type_invariant(self);
        }
        AgentExecutionId { raw: self.raw.clone() }
    }
}

/// `program-N` with N at least one.
#[derive(Debug, PartialEq, Eq)]
pub struct ProgramExecutionId {
    raw: String,
}

impl ProgramExecutionId {
    #[verifier::type_invariant]
    spec fn canonical(self) -> bool {
        transient_error(self.raw@, "program-"@, "Program execution"@) is None
    }

    /// The id as it is written.
    pub closed spec fn text(self) -> Seq<char> {
        self.raw@
    }

    /// Reads an id; only the canonical spelling is one.
    pub fn parse(raw: &str) -> (r: Result<Self, String>)
        ensures
            match r {
                Ok(id) => id.text() == raw@ && transient_error(raw@, "program-"@, "Program execution"@) is None,
                Err(e) => transient_error(raw@, "program-"@, "Program execution"@) == Some(e@),
            },
    {
        check_transient(raw, "program-", "Program execution")?;
        Ok(ProgramExecutionId { raw: raw.to_owned() })
    }

    /// The id as it is written.
    pub fn as_str(&self) -> (r: &str)
        ensures
            r@ == self.text(),
    {
        self.raw.as_str()
    }

    /// The number of the id.
    pub fn sequence(&self) -> (r: u64)
        ensures
            r == text::digits_value(self.text().skip("program-"@.len() as int)),
            r >= 1,
    {
        proof {
            use_type_invariant(self);
        }
        transient_number(self.raw.as_str(), "program-", "Program execution")
    }
}

impl Clone for ProgramExecutionId {
    fn clone(&self) -> (r: Self)
        ensures
            r.text() == self.text(),
    {
        proof {
            use_type_invariant(self);
        }
        ProgramExecutionId { raw: self.raw.clone() }
    }
}

/// `workflow-N` with N at least one.
#[derive(Debug, PartialEq, Eq)]
pub struct WorkflowExecutionId {
    raw: String,
}

impl WorkflowExecutionId {
    #[verifier::type_invariant]
    spec fn canonical(self) -> bool {
        transient_error(self.raw@, "workflow-"@, "Workflow execution"@) is None
    }

    /// The id as it is written.
    pub closed spec fn text(self) -> Seq<char> {
        self.raw@
    }

    /// Reads an id; only the canonical spelling is one.
    pub fn parse(raw: &str) -> (r: Result<Self, String>)
        ensures
            match r {
                Ok(id) => id.text() == raw@ && transient_error(raw@, "workflow-"@, "Workflow execution"@) is None,
                Err(e) => transient_error(raw@, "workflow-"@, "Workflow execution"@) == Some(e@),
            },
    {
        check_transient(raw, "workflow-", "Workflow execution")?;
        Ok(WorkflowExecutionId { raw: raw.to_owned() })
    }

    /// The id as it is written.
    pub fn as_str(&self) -> (r: &str)
        ensures
            r@ == self.text(),
    {
        self.raw.as_str()
    }

    /// The number of the id.
    pub fn sequence(&self) -> (r: u64)
        ensures
            r == text::digits_value(self.text().skip("workflow-"@.len() as int)),
            r >= 1,
    {
        proof {
            use_type_invariant(self);
        }
        transient_number(self.raw.as_str(), "workflow-", "Workflow execution")
    }
}

impl Clone for WorkflowExecutionId {
    fn clone(&self) -> (r: Self)
        ensures
            r.text() == self.text(),
    {
        proof {
            use_type_invariant(self);
        }
        WorkflowExecutionId { raw: self.raw.clone() }
    }
}

/// `bg-N` with N at least one.
#[derive(Debug, PartialEq, Eq)]
pub struct BackgroundShellId {
    raw: String,
}

impl BackgroundShellId {
    #[verifier::type_invariant]
    spec fn canonical(self) -> bool {
        transient_error(self.raw@, "bg-"@, "background shell"@) is None
    }

    /// The id as it is written.
    pub closed spec fn text(self) -> Seq<char> {
        self.raw@
    }

    /// Reads an id; only the canonical spelling is one.
    pub fn parse(raw: &str) -> (r: Result<Self, String>)
        ensures
            match r {
                Ok(id) => id.text() == raw@ && transient_error(raw@, "bg-"@, "background shell"@) is None,
                Err(e) => transient_error(raw@, "bg-"@, "background shell"@) == Some(e@),
            },
    {
        check_transient(raw, "bg-", "background shell")?;
        Ok(BackgroundShellId { raw: raw.to_owned() })
    }

    /// The id as it is written.
    pub fn as_str(&self) -> (r: &str)
        ensures
            r@ == self.text(),
    {
        self.raw.as_str()
    }

    /// The number of the id.
    pub fn sequence(&self) -> (r: u64)
        ensures
            r == text::digits_value(self.text().skip("bg-"@.len() as int)),
            r >= 1,
    {
        proof {
            use_type_invariant(self);
        }
        transient_number(self.raw.as_str(), "bg-", "background shell")
    }
}

impl Clone for BackgroundShellId {
    fn clone(&self) -> (r: Self)
        ensures
            r.text() == self.text(),
    {
        proof {
            use_type_invariant(self);
        }
        BackgroundShellId { raw: self.raw.clone() }
    }
}

/// `run-C-N`: a clock and a number of at least one.
#[derive(Debug, PartialEq, Eq)]
pub struct ProgramRunId {
    raw: String,
}

impl ProgramRunId {
    #[verifier::type_invariant]
    spec fn canonical(self) -> bool {
        durable_error(self.raw@, "run-"@, "Program run"@) is None
    }

    /// The id as it is written.
    pub closed spec fn text(self) -> Seq<char> {
        self.raw@
    }

    /// Reads an id; only the canonical spelling is one.
    pub fn parse(raw: &str) -> (r: Result<Self, String>)
        ensures
            match r {
                Ok(id) => id.text() == raw@ && durable_error(raw@, "run-"@, "Program run"@) is None,
                Err(e) => durable_error(raw@, "run-"@, "Program run"@) == Some(e@),
            },
    {
        check_durable(raw, "run-", "Program run")?;
        Ok(ProgramRunId { raw: raw.to_owned() })
    }

    /// The id as it is written.
    pub fn as_str(&self) -> (r: &str)
        ensures
            r@ == self.text(),
    {
        self.raw.as_str()
    }
}

impl Clone for ProgramRunId {
    fn clone(&self) -> (r: Self)
        ensures
            r.text() == self.text(),
    {
        proof {
            use_type_invariant(self);
        }
        ProgramRunId { raw: self.raw.clone() }
    }
}

/// `wf_C-N`: a clock and a number of at least one.
#[derive(Debug, PartialEq, Eq)]
pub struct WorkflowRunId {
    raw: String,
}

impl WorkflowRunId {
    #[verifier::type_invariant]
    spec fn canonical(self) -> bool {
        durable_error(self.raw@, "wf_"@, "Workflow run"@) is None
    }

    /// The id as it is written.
    pub closed spec fn text(self) -> Seq<char> {
        self.raw@
    }

    /// Reads an id; only the canonical spelling is one.
    pub fn parse(raw: &str) -> (r: Result<Self, String>)
        ensures
            match r {
                Ok(id) => id.text() == raw@ && durable_error(raw@, "wf_"@, "Workflow run"@) is None,
                Err(e) => durable_error(raw@, "wf_"@, "Workflow run"@) == Some(e@),
            },
    {
        check_durable(raw, "wf_", "Workflow run")?;
        Ok(WorkflowRunId { raw: raw.to_owned() })
    }

    /// The id as it is written.
    pub fn as_str(&self) -> (r: &str)
        ensures
            r@ == self.text(),
    {
        self.raw.as_str()
    }
}

impl Clone for WorkflowRunId {
    fn clone(&self) -> (r: Self)
        ensures
            r.text() == self.text(),
    {
        proof {
            use_type_invariant(self);
        }
        WorkflowRunId { raw: self.raw.clone() }
    }
}

/// An execution of this process.
#[derive(Debug, PartialEq, Eq)]
pub enum TransientExecutionId {
    Agent(AgentExecutionId),
    Program(ProgramExecutionId),
    Workflow(WorkflowExecutionId),
    Shell(BackgroundShellId),
}

/// A run that outlives the process.
#[derive(Debug, PartialEq, Eq)]
pub enum DurableExecutionId {
    Program(ProgramRunId),
    Workflow(WorkflowRunId),
}

/// What is executed.
#[derive(Clone, Copy, Debug, PartialEq, Eq, Structural)]
pub enum ExecutionKind {
    Agent,
    Program,
    Workflow,
    Shell,
}

impl TransientExecutionId {
    /// The id as it is written.
    pub open spec fn text(self) -> Seq<char> {
        match self {
            TransientExecutionId::Agent(id) => id.text(),
            TransientExecutionId::Program(id) => id.text(),
            TransientExecutionId::Workflow(id) => id.text(),
            TransientExecutionId::Shell(id) => id.text(),
        }
    }

    pub open spec fn spec_kind(self) -> ExecutionKind {
        match self {
            TransientExecutionId::Agent(_) => ExecutionKind::Agent,
            TransientExecutionId::Program(_) => ExecutionKind::Program,
            TransientExecutionId::Workflow(_) => ExecutionKind::Workflow,
            TransientExecutionId::Shell(_) => ExecutionKind::Shell,
        }
    }

    /// The number in the id.
    pub open spec fn number(self) -> nat {
        match self {
            TransientExecutionId::Agent(id) => text::digits_value(
                id.text().skip("agent-"@.len() as int),
            ),
            TransientExecutionId::Program(id) => text::digits_value(
                id.text().skip("program-"@.len() as int),
            ),
            TransientExecutionId::Workflow(id) => text::digits_value(
                id.text().skip("workflow-"@.len() as int),
            ),
            TransientExecutionId::Shell(id) => text::digits_value(
                id.text().skip("bg-"@.len() as int),
            ),
        }
    }

    /// The id as it is written.
    pub fn as_str(&self) -> (r: &str)
        ensures
            r@ == self.text(),
    {
        match self {
            TransientExecutionId::Agent(id) => id.as_str(),
            TransientExecutionId::Program(id) => id.as_str(),
            TransientExecutionId::Workflow(id) => id.as_str(),
            TransientExecutionId::Shell(id) => id.as_str(),
        }
    }

    /// What is executed.
    pub fn kind(&self) -> (r: ExecutionKind)
        ensures
            r == self.spec_kind(),
    {
        match self {
            TransientExecutionId::Agent(_) => ExecutionKind::Agent,
            TransientExecutionId::Program(_) => ExecutionKind::Program,
            TransientExecutionId::Workflow(_) => ExecutionKind::Workflow,
            TransientExecutionId::Shell(_) => ExecutionKind::Shell,
        }
    }

    /// The number in the id.
    pub fn sequence(&self) -> (r: u64)
        ensures
            r == self.number(),
            r >= 1,
    {
        match self {
            TransientExecutionId::Agent(id) => id.sequence(),
            TransientExecutionId::Program(id) => id.sequence(),
            TransientExecutionId::Workflow(id) => id.sequence(),
            TransientExecutionId::Shell(id) => id.sequence(),
        }
    }

    /// Whether two ids are the same: of one kind and spelled alike.
    pub open spec fn same_as(self, other: Self) -> bool {
        self.spec_kind() == other.spec_kind() && self.text() == other.text()
    }

    /// Whether two ids are the same.
    pub fn same(&self, other: &Self) -> (r: bool)
        ensures
            r == self.same_as(*other),
    {
        self.kind() == other.kind() && text::same(self.as_str(), other.as_str())
    }
}

impl DurableExecutionId {
    /// The id as it is written.
    pub open spec fn text(self) -> Seq<char> {
        match self {
            DurableExecutionId::Program(id) => id.text(),
            DurableExecutionId::Workflow(id) => id.text(),
        }
    }

    pub open spec fn spec_kind(self) -> ExecutionKind {
        match self {
            DurableExecutionId::Program(_) => ExecutionKind::Program,
            DurableExecutionId::Workflow(_) => ExecutionKind::Workflow,
        }
    }

    /// The id as it is written.
    pub fn as_str(&self) -> (r: &str)
        ensures
            r@ == self.text(),
    {
        match self {
            DurableExecutionId::Program(id) => id.as_str(),
            DurableExecutionId::Workflow(id) => id.as_str(),
        }
    }

    /// What is executed.
    pub fn kind(&self) -> (r: ExecutionKind)
        ensures
            r == self.spec_kind(),
    {
        match self {
            DurableExecutionId::Program(_) => ExecutionKind::Program,
            DurableExecutionId::Workflow(_) => ExecutionKind::Workflow,
        }
    }

    /// Whether two ids are the same: of one kind and spelled alike.
    pub open spec fn same_as(self, other: Self) -> bool {
        self.spec_kind() == other.spec_kind() && self.text() == other.text()
    }

    /// Whether two ids are the same.
    pub fn same(&self, other: &Self) -> (r: bool)
        ensures
            r == self.same_as(*other),
    {
        self.kind() == other.kind() && text::same(self.as_str(), other.as_str())
    }
}

impl Clone for TransientExecutionId {
    fn clone(&self) -> (r: Self)
        ensures
            r.same_as(*self),
            r.number() == self.number(),
    {
        match self {
            TransientExecutionId::Agent(id) => TransientExecutionId::Agent(id.clone()),
            TransientExecutionId::Program(id) => TransientExecutionId::Program(id.clone()),
            TransientExecutionId::Workflow(id) => TransientExecutionId::Workflow(id.clone()),
            TransientExecutionId::Shell(id) => TransientExecutionId::Shell(id.clone()),
        }
    }
}

impl Clone for DurableExecutionId {
    fn clone(&self) -> (r: Self)
        ensures
            r.same_as(*self),
    {
        match self {
            DurableExecutionId::Program(id) => DurableExecutionId::Program(id.clone()),
            DurableExecutionId::Workflow(id) => DurableExecutionId::Workflow(id.clone()),
        }
    }
}

/// An execution, and the run it belongs to.
#[derive(Debug, PartialEq, Eq)]
pub struct ExecutionRef {
    pub execution: TransientExecutionId,
    pub durable: Option<DurableExecutionId>,
}

// ---------------------------------------------------------------------------
// Opaque references
// ---------------------------------------------------------------------------

/// A name replaced by its digest.
#[derive(Debug, PartialEq, Eq)]
pub struct OpaqueRef {
    pub text: String,
}

/// The eight bytes of a number, the highest first.
pub open spec fn be_bytes(n: u64) -> Seq<u8> {
    seq![
        (n / 0x100_0000_0000_0000 % 256) as u8,
        (n / 0x1_0000_0000_0000 % 256) as u8,
        (n / 0x100_0000_0000 % 256) as u8,
        (n / 0x1_0000_0000 % 256) as u8,
        (n / 0x100_0000 % 256) as u8,
        (n / 0x1_0000 % 256) as u8,
        (n / 0x100 % 256) as u8,
        (n % 256) as u8,
    ]
}

/// What is digested for a name in a domain: the domain, the name's length, the
/// name.
pub open spec fn preimage(domain: Seq<char>, raw: Seq<char>) -> Seq<u8> {
    encode_utf8(domain) + be_bytes(encode_utf8(raw).len() as u64) + encode_utf8(raw)
}

/// The digest of a name in a domain.
pub open spec fn opaque_text(domain: Seq<char>, raw: Seq<char>) -> Seq<char> {
    digest::hex(digest::sha256_of(preimage(domain, raw)))
}

/// 64 lower-case hexadecimal digits.
pub open spec fn is_digest_text(s: Seq<char>) -> bool {
    s.len() == 64 && forall|i: int| 0 <= i < s.len() ==> digest::is_lower_hex(#[trigger] s[i])
}

fn digest_shaped(s: &str) -> (r: bool)
    ensures
        r == is_digest_text(s@),
{
    let chars = text::chars_of(s);
    if chars.len() != 64 {
        return false;
    }
    let mut i: usize = 0;
    while i < chars.len()
        invariant
            i <= chars@.len(),
            chars@ == s@,
            forall|k: int| 0 <= k < i ==> digest::is_lower_hex(#[trigger] s@[k]),
        decreases chars@.len() - i,
    {
        let u: u32 = chars[i] as u32;
        if !((0x30 <= u && u <= 0x39) || (0x61 <= u && u <= 0x66)) {
            proof {
                assert(!digest::is_lower_hex(s@[i as int]));
            }
            return false;
        }
        i += 1;
    }
    true
}

fn append_bytes(out: &mut Vec<u8>, bytes: &[u8])
    ensures
        final(out)@ == old(out)@ + bytes@,
{
    let ghost before = out@;
    let mut i: usize = 0;
    proof {
        assert(out@ =~= before + bytes@.take(0));
    }
    while i < bytes.len()
        invariant
            i <= bytes@.len(),
            out@ == before + bytes@.take(i as int),
        decreases bytes@.len() - i,
    {
        out.push(bytes[i]);
        i += 1;
        proof {
            assert(out@ =~= before + bytes@.take(i as int));
        }
    }
    proof {
        assert(bytes@.take(bytes@.len() as int) =~= bytes@);
    }
}

impl OpaqueRef {
    /// The digest of a name in a domain.
    pub fn digest(domain: &str, raw: &str) -> (r: Self)
        ensures
            r.text@ == opaque_text(domain@, raw@),
            is_digest_text(r.text@),
    {
        let mut bytes: Vec<u8> = Vec::new();
        append_bytes(&mut bytes, domain.as_bytes());
        let n: u64 = raw.as_bytes().len() as u64;
        bytes.push((n / 0x100_0000_0000_0000 % 256) as u8);
        bytes.push((n / 0x1_0000_0000_0000 % 256) as u8);
        bytes.push((n / 0x100_0000_0000 % 256) as u8);
        bytes.push((n / 0x1_0000_0000 % 256) as u8);
        bytes.push((n / 0x100_0000 % 256) as u8);
        bytes.push((n / 0x1_0000 % 256) as u8);
        bytes.push((n / 0x100 % 256) as u8);
        bytes.push((n % 256) as u8);
        proof {
            assert(bytes@ =~= encode_utf8(domain@) + be_bytes(n));
        }
        append_bytes(&mut bytes, raw.as_bytes());
        let sum = digest::sha256(bytes.as_slice());
        proof {
            digest::lemma_hex_shape(sum@);
        }
        OpaqueRef { text: digest::hex_text(&sum) }
    }
}

pub open spec fn opaque_error(r: OpaqueRef) -> Option<Seq<char>> {
    if is_digest_text(r.text@) {
        None
    } else {
        Some("opaque provenance identity is malformed"@)
    }
}

fn check_opaque(r: &OpaqueRef) -> (res: Result<(), String>)
    ensures
        match res {
            Ok(()) => opaque_error(*r) is None,
            Err(e) => opaque_error(*r) == Some(e@),
        },
{
    if digest_shaped(r.text.as_str()) {
        Ok(())
    } else {
        Err("opaque provenance identity is malformed".to_owned())
    }
}

/// The session and the thread, by digest.
#[derive(Debug, PartialEq, Eq)]
pub struct ScopeRef {
    pub session: Option<OpaqueRef>,
    pub thread: Option<OpaqueRef>,
}

/// Whether a scope is that of a session: nothing for a session without a name,
/// else both digests, each in its own domain.
pub open spec fn is_scope_of(scope: ScopeRef, session: Seq<char>) -> bool {
    if session.len() == 0 {
        scope.session is None && scope.thread is None
    } else {
        &&& scope.session matches Some(s) && s.text@ == opaque_text(SESSION_DOMAIN@, session)
        &&& scope.thread matches Some(t) && t.text@ == opaque_text(THREAD_DOMAIN@, session)
    }
}

impl ScopeRef {
    /// The scope of a session.
    pub fn from_session(raw: &str) -> (r: Self)
        ensures
            is_scope_of(r, raw@),
            r.session matches Some(s) ==> is_digest_text(s.text@),
            r.thread matches Some(t) ==> is_digest_text(t.text@),
    {
        if text::char_count(raw) == 0 {
            return ScopeRef { session: None, thread: None };
        }
        ScopeRef {
            session: Some(OpaqueRef::digest(SESSION_DOMAIN, raw)),
            thread: Some(OpaqueRef::digest(THREAD_DOMAIN, raw)),
        }
    }
}

// ---------------------------------------------------------------------------
// Lineage
// ---------------------------------------------------------------------------

/// A local agent context.
#[derive(Clone, Debug, PartialEq, Eq)]
pub struct LocalContextId {
    pub text: String,
}

/// An agent of a local context.
#[derive(Clone, Debug, PartialEq, Eq)]
pub enum LocalAgentId {
    Main,
    Agent(String),
}

/// Whether an execution can be written to.
#[derive(Clone, Debug, PartialEq, Eq)]
pub enum MailboxRoute {
    Agent { context_id: LocalContextId, parent: LocalAgentId, child: LocalAgentId },
    NotMailboxPeer,
}

/// Who admitted an execution.
#[derive(Clone, Debug, PartialEq, Eq)]
pub struct AdmissionAuthority {
    pub context_id: LocalContextId,
    pub caller: LocalAgentId,
    pub depth: u8,
}

/// A line of a session file, by digest and number.
#[derive(Debug, PartialEq, Eq)]
pub struct RolloutLineRef {
    pub session: OpaqueRef,
    pub sequence: u64,
}

/// A line that is known, not known, or beside the point.
#[derive(Debug, PartialEq, Eq)]
pub enum LineEvidence {
    Available(RolloutLineRef),
    Unavailable,
    NotApplicable,
}

/// Which lines an execution descends from.
#[derive(Debug, PartialEq, Eq)]
pub struct RolloutProvenance {
    pub parent_line: LineEvidence,
    pub subagent_of: LineEvidence,
}

/// Where the last `#` of the first `n` characters is.
pub open spec fn last_hash(s: Seq<char>, n: nat) -> Option<nat>
    decreases n,
{
    if n == 0 {
        None
    } else if s[n - 1] == '#' {
        Some((n - 1) as nat)
    } else {
        last_hash(s, (n - 1) as nat)
    }
}

/// The session and the number in a line's name: `session#number`.
pub open spec fn line_parts(raw: Seq<char>) -> Option<(Seq<char>, nat)> {
    match last_hash(raw, raw.len()) {
        None => None,
        Some(at) => match text::parse_unsigned(raw.skip(at as int + 1), u64::MAX as nat) {
            Some(n) if n > 0 && at > 0 => Some((raw.take(at as int), n)),
            _ => None,
        },
    }
}

/// Whether evidence is what a line's name gives.
pub open spec fn is_evidence(e: LineEvidence, raw: Option<Seq<char>>) -> bool {
    match raw {
        None => e is Unavailable,
        Some(t) => match line_parts(t) {
            None => e is Unavailable,
            Some((session, n)) => e matches LineEvidence::Available(line) && line.sequence == n
                && line.session.text@ == opaque_text(ROLLOUT_DOMAIN@, session),
        },
    }
}

impl RolloutLineRef {
    /// Reads a line's name.
    pub fn parse(raw: &str) -> (r: Option<Self>)
        ensures
            match r {
                Some(line) => {
                    &&& line_parts(raw@) matches Some((session, n)) && line.sequence == n
                        && line.session.text@ == opaque_text(ROLLOUT_DOMAIN@, session)
                    &&& line.sequence > 0
                    &&& is_digest_text(line.session.text@)
                },
                None => line_parts(raw@) is None,
            },
    {
        let chars = text::chars_of(raw);
        let mut at: usize = chars.len();
        while at > 0 && chars[at - 1] != '#'
            invariant
                at <= chars@.len(),
                chars@ == raw@,
                last_hash(raw@, raw@.len()) == last_hash(raw@, at as nat),
            decreases at,
        {
            at -= 1;
        }
        if at == 0 {
            return None;
        }
        let dash: usize = at - 1;
        let number = text::text_of(&chars, at, chars.len());
        proof {
            assert(raw@.subrange(at as int, raw@.len() as int) =~= raw@.skip(dash + 1));
            assert(raw@.subrange(0, dash as int) =~= raw@.take(dash as int));
        }
        let sequence: u64 = text::parse_number(number.as_str(), u64::MAX)?;
        if sequence == 0 || dash == 0 {
            return None;
        }
        let session = text::text_of(&chars, 0, dash);
        Some(
            RolloutLineRef {
                session: OpaqueRef::digest(ROLLOUT_DOMAIN, session.as_str()),
                sequence,
            },
        )
    }
}

fn evidence_of(raw: Option<&str>) -> (r: LineEvidence)
    ensures
        is_evidence(
            r,
            match raw {
                Some(t) => Some(t@),
                None => None,
            },
        ),
        line_error(r) is None,
{
    match raw {
        Some(t) => match RolloutLineRef::parse(t) {
            Some(line) => LineEvidence::Available(line),
            None => LineEvidence::Unavailable,
        },
        None => LineEvidence::Unavailable,
    }
}

impl RolloutProvenance {
    /// The lines that an execution descends from; the second only for an agent.
    pub fn new(parent: Option<&str>, child_lineage: bool) -> (r: Self)
        ensures
            is_evidence(
                r.parent_line,
                match parent {
                    Some(t) => Some(t@),
                    None => None,
                },
            ),
            if child_lineage {
                is_evidence(
                    r.subagent_of,
                    match parent {
                        Some(t) => Some(t@),
                        None => None,
                    },
                )
            } else {
                r.subagent_of is NotApplicable
            },
            line_error(r.parent_line) is None,
            line_error(r.subagent_of) is None,
    {
        RolloutProvenance {
            parent_line: evidence_of(parent),
            subagent_of: if child_lineage {
                evidence_of(parent)
            } else {
                LineEvidence::NotApplicable
            },
        }
    }
}

pub open spec fn line_error(e: LineEvidence) -> Option<Seq<char>> {
    match e {
        LineEvidence::Available(line) => if line.sequence == 0 {
            Some("rollout sequence must be positive"@)
        } else {
            opaque_error(line.session)
        },
        _ => None,
    }
}

fn check_line(e: &LineEvidence) -> (r: Result<(), String>)
    ensures
        match r {
            Ok(()) => line_error(*e) is None,
            Err(m) => line_error(*e) == Some(m@),
        },
{
    match e {
        LineEvidence::Available(line) => if line.sequence == 0 {
            Err("rollout sequence must be positive".to_owned())
        } else {
            check_opaque(&line.session)
        },
        _ => Ok(()),
    }
}

// ---------------------------------------------------------------------------
// Workspaces
// ---------------------------------------------------------------------------

/// Which workspace an execution runs in.
#[derive(Clone, Copy, Debug, PartialEq, Eq, Structural)]
pub enum WorkspaceDisposition {
    Base,
    SessionWorktree,
    IsolatedChild,
}

/// The workspace of an execution, by digest.
#[derive(Debug, PartialEq, Eq)]
pub struct WorkspaceProvenance {
    pub project: Option<String>,
    pub workspace: String,
    pub workspace_epoch: u64,
    pub disposition: WorkspaceDisposition,
}

/// What is wrong with a prefixed digest.
pub open spec fn digest_id_error(raw: Seq<char>, prefix: Seq<char>, noun: Seq<char>) -> Option<
    Seq<char>,
> {
    if !text::starts_with(raw, prefix) {
        Some(noun + " has the wrong prefix"@)
    } else if !is_digest_text(raw.skip(prefix.len() as int)) {
        Some(noun + " is malformed"@)
    } else {
        None
    }
}

fn validate_digest_id(raw: &str, prefix: &str, noun: &str) -> (r: Result<(), String>)
    ensures
        match r {
            Ok(()) => digest_id_error(raw@, prefix@, noun@) is None,
            Err(e) => digest_id_error(raw@, prefix@, noun@) == Some(e@),
        },
{
    let mut e = noun.to_owned();
    match text::strip_prefix(raw, prefix) {
        None => {
            e.append(" has the wrong prefix");
            Err(e)
        },
        Some(rest) => if digest_shaped(rest.as_str()) {
            Ok(())
        } else {
            e.append(" is malformed");
            Err(e)
        },
    }
}

pub open spec fn workspace_error(w: WorkspaceProvenance) -> Option<Seq<char>> {
    text::first(
        match w.project {
            Some(project) => digest_id_error(project@, "p1_"@, "project identity"@),
            None => None,
        },
        digest_id_error(w.workspace@, "w1_"@, "workspace identity"@),
    )
}

impl WorkspaceProvenance {
    /// A workspace, as seen when an execution was admitted.
    pub fn capture(
        project: Option<String>,
        workspace: String,
        workspace_epoch: u64,
        disposition: WorkspaceDisposition,
    ) -> (r: Self)
        ensures
            r == (WorkspaceProvenance { project, workspace, workspace_epoch, disposition }),
    {
        WorkspaceProvenance { project, workspace, workspace_epoch, disposition }
    }

    /// The workspace a session runs in now: its own worktree where it is on a
    /// branch.
    pub fn capture_current(
        project: Option<String>,
        workspace: String,
        workspace_epoch: u64,
        on_branch: bool,
    ) -> (r: Self)
        ensures
            r == (WorkspaceProvenance {
                project,
                workspace,
                workspace_epoch,
                disposition: if on_branch {
                    WorkspaceDisposition::SessionWorktree
                } else {
                    WorkspaceDisposition::Base
                },
            }),
    {
        WorkspaceProvenance {
            project,
            workspace,
            workspace_epoch,
            disposition: if on_branch {
                WorkspaceDisposition::SessionWorktree
            } else {
                WorkspaceDisposition::Base
            },
        }
    }

    fn validate(&self) -> (r: Result<(), String>)
        ensures
            match r {
                Ok(()) => workspace_error(*self) is None,
                Err(e) => workspace_error(*self) == Some(e@),
            },
    {
        if let Some(project) = &self.project {
            validate_digest_id(project.as_str(), "p1_", "project identity")?;
        }
        validate_digest_id(self.workspace.as_str(), "w1_", "workspace identity")
    }
}

// ---------------------------------------------------------------------------
// Receipts
// ---------------------------------------------------------------------------

/// What asked for an execution.
#[derive(Clone, Copy, Debug, PartialEq, Eq, Structural)]
pub enum AdmissionOrigin {
    RunAgent,
    StructuredAgent,
    SkillFork,
    Program,
    Workflow,
    BackgroundShell,
}

/// Who waits for an execution to end.
#[derive(Clone, Copy, Debug, PartialEq, Eq, Structural)]
pub enum TerminalOwner {
    ForegroundCaller,
    BackgroundExecutions,
    BackgroundShells,
}

/// How a result gets back.
#[derive(Clone, Copy, Debug, PartialEq, Eq, Structural)]
pub enum DeliveryRoute {
    DirectToolResult,
    ParentInboxBody,
    ShellOutputPointer,
}

/// Who waits, and how the result gets back.
#[derive(Clone, Copy, Debug, PartialEq, Eq, Structural)]
pub struct TerminalRoute {
    pub owner: TerminalOwner,
    pub delivery: DeliveryRoute,
}

/// Everything that was resolved when an execution was admitted.
pub struct ResolvedExecutionAdmission {
    pub session_id: String,
    pub parent: Option<ExecutionRef>,
    pub execution: TransientExecutionId,
    pub durable: Option<DurableExecutionId>,
    pub mailbox: MailboxRoute,
    pub authority: AdmissionAuthority,
    pub parent_rollout_id: Option<String>,
    pub workspace: WorkspaceProvenance,
    pub origin: AdmissionOrigin,
    pub terminal: TerminalRoute,
}

/// The receipt of an admission.
#[derive(Debug, PartialEq, Eq)]
pub struct ExecutionProvenanceReceipt {
    pub version: u8,
    pub scope: ScopeRef,
    pub parent: Option<ExecutionRef>,
    pub execution: TransientExecutionId,
    pub durable: Option<DurableExecutionId>,
    pub mailbox: MailboxRoute,
    pub authority: AdmissionAuthority,
    pub rollout: RolloutProvenance,
    pub workspace: WorkspaceProvenance,
    pub origin: AdmissionOrigin,
    pub terminal: TerminalRoute,
}

/// Programs and workflows have a run of their kind; agents and shells none.
pub open spec fn kinds_match(execution: TransientExecutionId, durable: Option<DurableExecutionId>) -> bool {
    match (execution, durable) {
        (TransientExecutionId::Agent(_), None) => true,
        (TransientExecutionId::Program(_), Some(DurableExecutionId::Program(_))) => true,
        (TransientExecutionId::Workflow(_), Some(DurableExecutionId::Workflow(_))) => true,
        (TransientExecutionId::Shell(_), None) => true,
        _ => false,
    }
}

pub open spec fn pair_error(
    execution: TransientExecutionId,
    durable: Option<DurableExecutionId>,
) -> Option<Seq<char>> {
    if kinds_match(execution, durable) {
        None
    } else {
        Some("execution and durable provenance kinds do not match"@)
    }
}

/// An agent carries the mailbox route to itself; nothing else has one.
pub open spec fn mailbox_error(execution: TransientExecutionId, mailbox: MailboxRoute) -> Option<
    Seq<char>,
> {
    match (execution, mailbox) {
        (
            TransientExecutionId::Agent(id),
            MailboxRoute::Agent { child: LocalAgentId::Agent(child), .. },
        ) if child@ == id.text() => None,
        (TransientExecutionId::Agent(_), _) => Some(
            "Agent execution must carry its exact mailbox route"@,
        ),
        (_, MailboxRoute::NotMailboxPeer) => None,
        _ => Some("Program, Workflow, and shell executions are not mailbox peers"@),
    }
}

/// Which origins an execution can have.
pub open spec fn origin_fits(kind: ExecutionKind, origin: AdmissionOrigin) -> bool {
    match kind {
        ExecutionKind::Agent => origin == AdmissionOrigin::RunAgent || origin
            == AdmissionOrigin::StructuredAgent || origin == AdmissionOrigin::SkillFork,
        ExecutionKind::Program => origin == AdmissionOrigin::Program,
        ExecutionKind::Workflow => origin == AdmissionOrigin::Workflow,
        ExecutionKind::Shell => origin == AdmissionOrigin::BackgroundShell,
    }
}

pub open spec fn foreground(t: TerminalRoute) -> bool {
    t.owner == TerminalOwner::ForegroundCaller && t.delivery == DeliveryRoute::DirectToolResult
}

pub open spec fn background(t: TerminalRoute) -> bool {
    t.owner == TerminalOwner::BackgroundExecutions && t.delivery == DeliveryRoute::ParentInboxBody
}

pub open spec fn shell(t: TerminalRoute) -> bool {
    t.owner == TerminalOwner::BackgroundShells && t.delivery == DeliveryRoute::ShellOutputPointer
}

/// Which ways back an execution can have.
pub open spec fn terminal_fits(kind: ExecutionKind, t: TerminalRoute) -> bool {
    match kind {
        ExecutionKind::Agent => foreground(t) || background(t),
        ExecutionKind::Program => foreground(t) || background(t),
        ExecutionKind::Workflow => background(t),
        ExecutionKind::Shell => shell(t),
    }
}

pub open spec fn scope_error(scope: ScopeRef) -> Option<Seq<char>> {
    text::first(
        match scope.session {
            Some(s) => opaque_error(s),
            None => None,
        },
        text::first(
            match scope.thread {
                Some(t) => opaque_error(t),
                None => None,
            },
            if (scope.session is Some) != (scope.thread is Some) {
                Some("session and thread provenance must have equal availability"@)
            } else {
                None
            },
        ),
    )
}

impl ExecutionProvenanceReceipt {
    /// What is wrong with a receipt: the first complaint.
    pub open spec fn error(self) -> Option<Seq<char>> {
        text::first(
            if self.version != RECEIPT_VERSION {
                Some("unsupported execution provenance version "@ + text::decimal(self.version as nat))
            } else {
                None
            },
            text::first(
                scope_error(self.scope),
                text::first(
                    match self.parent {
                        Some(parent) => pair_error(parent.execution, parent.durable),
                        None => None,
                    },
                    text::first(
                        pair_error(self.execution, self.durable),
                        text::first(
                            mailbox_error(self.execution, self.mailbox),
                            text::first(
                                if origin_fits(self.execution.spec_kind(), self.origin) {
                                    None
                                } else {
                                    Some("execution and admission origin do not match"@)
                                },
                                text::first(
                                    if terminal_fits(self.execution.spec_kind(), self.terminal) {
                                        None
                                    } else {
                                        Some("execution and terminal route do not match"@)
                                    },
                                    text::first(
                                        line_error(self.rollout.parent_line),
                                        text::first(
                                            line_error(self.rollout.subagent_of),
                                            workspace_error(self.workspace),
                                        ),
                                    ),
                                ),
                            ),
                        ),
                    ),
                ),
            ),
        )
    }

    /// Whether the receipt holds together; the error names the first thing that
    /// is wrong with it.
    pub fn validate(&self) -> (r: Result<(), String>)
        ensures
            match r {
                Ok(()) => self.error() is None,
                Err(e) => self.error() == Some(e@),
            },
    {
        if self.version != RECEIPT_VERSION {
            let mut e = "unsupported execution provenance version ".to_owned();
            e.append(text::decimal_text(self.version as u64).as_str());
            return Err(e);
        }
        if let Some(session) = &self.scope.session {
            check_opaque(session)?;
        }
        if let Some(thread) = &self.scope.thread {
            check_opaque(thread)?;
        }
        if self.scope.session.is_some() != self.scope.thread.is_some() {
            return Err("session and thread provenance must have equal availability".to_owned());
        }
        if let Some(parent) = &self.parent {
            validate_durable_pair(&parent.execution, &parent.durable)?;
        }
        validate_durable_pair(&self.execution, &self.durable)?;
        validate_mailbox(&self.execution, &self.mailbox)?;
        validate_origin(self.execution.kind(), self.origin)?;
        validate_terminal(self.execution.kind(), self.terminal)?;
        check_line(&self.rollout.parent_line)?;
        check_line(&self.rollout.subagent_of)?;
        self.workspace.validate()
    }

    /// Whether a receipt is the one that an admission gives.
    pub open spec fn minted_from(self, a: ResolvedExecutionAdmission) -> bool {
        &&& self.version == RECEIPT_VERSION
        &&& is_scope_of(self.scope, a.session_id@)
        &&& self.parent == a.parent
        &&& self.execution == a.execution
        &&& self.durable == a.durable
        &&& self.mailbox == a.mailbox
        &&& self.authority == a.authority
        &&& is_evidence(self.rollout.parent_line, protocol::opt(a.parent_rollout_id))
        &&& if a.execution.spec_kind() == ExecutionKind::Agent {
            is_evidence(self.rollout.subagent_of, protocol::opt(a.parent_rollout_id))
        } else {
            self.rollout.subagent_of is NotApplicable
        }
        &&& self.workspace == a.workspace
        &&& self.origin == a.origin
        &&& self.terminal == a.terminal
    }

    /// The receipt of an admission, where it holds together.
    pub fn mint(admission: ResolvedExecutionAdmission) -> (r: Result<Self, String>)
        ensures
            match r {
                Ok(receipt) => receipt.minted_from(admission) && receipt.error() is None
                    && admission_error(admission) is None,
                Err(e) => admission_error(admission) == Some(e@),
            },
    {
        let ResolvedExecutionAdmission {
            session_id,
            parent,
            execution,
            durable,
            mailbox,
            authority,
            parent_rollout_id,
            workspace,
            origin,
            terminal,
        } = admission;
        let child_lineage = match execution.kind() {
            ExecutionKind::Agent => true,
            _ => false,
        };
        let rollout = match &parent_rollout_id {
            Some(id) => RolloutProvenance::new(Some(id.as_str()), child_lineage),
            None => RolloutProvenance::new(None, child_lineage),
        };
        let receipt = ExecutionProvenanceReceipt {
            version: RECEIPT_VERSION,
            scope: ScopeRef::from_session(session_id.as_str()),
            parent,
            execution,
            durable,
            mailbox,
            authority,
            rollout,
            workspace,
            origin,
            terminal,
        };
        receipt.validate()?;
        Ok(receipt)
    }

    /// Whether an agent's receipt is evidence in the journal of the program or
    /// workflow that ran it in the foreground.
    pub open spec fn is_journal_evidence(self, expected: Option<Seq<char>>) -> bool {
        match self.parent {
            None => false,
            Some(parent) => {
                &&& self.execution.spec_kind() == ExecutionKind::Agent
                &&& parent.execution.spec_kind() == ExecutionKind::Program
                    || parent.execution.spec_kind() == ExecutionKind::Workflow
                &&& expected matches Some(run) ==> parent.durable matches Some(d) && d.text() == run
                &&& foreground(self.terminal)
                &&& self.origin == AdmissionOrigin::RunAgent || self.origin
                    == AdmissionOrigin::StructuredAgent
            },
        }
    }

    /// Whether the receipt is journal evidence for a run.
    pub fn is_agent_journal_evidence(&self, expected_parent_durable: Option<&str>) -> (r: bool)
        ensures
            r == self.is_journal_evidence(
                match expected_parent_durable {
                    Some(t) => Some(t@),
                    None => None,
                },
            ),
    {
        let parent = match &self.parent {
            Some(parent) => parent,
            None => {
                return false;
            },
        };
        let from_agent = match self.execution.kind() {
            ExecutionKind::Agent => true,
            _ => false,
        };
        let by_runner = match parent.execution.kind() {
            ExecutionKind::Program => true,
            ExecutionKind::Workflow => true,
            _ => false,
        };
        let expected_run = match expected_parent_durable {
            Some(expected) => match &parent.durable {
                Some(durable) => text::same(durable.as_str(), expected),
                None => false,
            },
            None => true,
        };
        let direct = self.terminal.owner == TerminalOwner::ForegroundCaller
            && self.terminal.delivery == DeliveryRoute::DirectToolResult;
        let asked = self.origin == AdmissionOrigin::RunAgent || self.origin
            == AdmissionOrigin::StructuredAgent;
        from_agent && by_runner && expected_run && direct && asked
    }

    /// This execution, for its children to name.
    pub fn as_execution_ref(&self) -> (r: ExecutionRef)
        ensures
            r.execution.same_as(self.execution),
            match (r.durable, self.durable) {
                (Some(a), Some(b)) => a.same_as(b),
                (None, None) => true,
                _ => false,
            },
    {
        ExecutionRef {
            execution: self.execution.clone(),
            durable: match &self.durable {
                Some(d) => Some(d.clone()),
                None => None,
            },
        }
    }
}

/// What is wrong with an admission: what makes its receipt not hold together.
pub open spec fn admission_error(a: ResolvedExecutionAdmission) -> Option<Seq<char>> {
    text::first(
        match a.parent {
            Some(parent) => pair_error(parent.execution, parent.durable),
            None => None,
        },
        text::first(
            pair_error(a.execution, a.durable),
            text::first(
                mailbox_error(a.execution, a.mailbox),
                text::first(
                    if origin_fits(a.execution.spec_kind(), a.origin) {
                        None
                    } else {
                        Some("execution and admission origin do not match"@)
                    },
                    text::first(
                        if terminal_fits(a.execution.spec_kind(), a.terminal) {
                            None
                        } else {
                            Some("execution and terminal route do not match"@)
                        },
                        workspace_error(a.workspace),
                    ),
                ),
            ),
        ),
    )
}

fn validate_durable_pair(
    execution: &TransientExecutionId,
    durable: &Option<DurableExecutionId>,
) -> (r: Result<(), String>)
    ensures
        match r {
            Ok(()) => pair_error(*execution, *durable) is None,
            Err(e) => pair_error(*execution, *durable) == Some(e@),
        },
{
    let valid = match (execution, durable) {
        (TransientExecutionId::Agent(_), None) => true,
        (TransientExecutionId::Program(_), Some(DurableExecutionId::Program(_))) => true,
        (TransientExecutionId::Workflow(_), Some(DurableExecutionId::Workflow(_))) => true,
        (TransientExecutionId::Shell(_), None) => true,
        _ => false,
    };
    if valid {
        Ok(())
    } else {
        Err("execution and durable provenance kinds do not match".to_owned())
    }
}

fn validate_mailbox(execution: &TransientExecutionId, mailbox: &MailboxRoute) -> (r: Result<
    (),
    String,
>)
    ensures
        match r {
            Ok(()) => mailbox_error(*execution, *mailbox) is None,
            Err(e) => mailbox_error(*execution, *mailbox) == Some(e@),
        },
{
    match execution {
        TransientExecutionId::Agent(id) => {
            if let MailboxRoute::Agent { child, .. } = mailbox {
                if let LocalAgentId::Agent(child) = child {
                    if text::same(child.as_str(), id.as_str()) {
                        return Ok(());
                    }
                }
            }
            Err("Agent execution must carry its exact mailbox route".to_owned())
        },
        _ => match mailbox {
            MailboxRoute::NotMailboxPeer => Ok(()),
            MailboxRoute::Agent { .. } => Err(
                "Program, Workflow, and shell executions are not mailbox peers".to_owned(),
            ),
        },
    }
}

fn validate_origin(kind: ExecutionKind, origin: AdmissionOrigin) -> (r: Result<(), String>)
    ensures
        r is Ok == origin_fits(kind, origin),
        r matches Err(e) ==> e@ == "execution and admission origin do not match"@,
{
    let valid = match kind {
        ExecutionKind::Agent => origin == AdmissionOrigin::RunAgent || origin
            == AdmissionOrigin::StructuredAgent || origin == AdmissionOrigin::SkillFork,
        ExecutionKind::Program => origin == AdmissionOrigin::Program,
        ExecutionKind::Workflow => origin == AdmissionOrigin::Workflow,
        ExecutionKind::Shell => origin == AdmissionOrigin::BackgroundShell,
    };
    if valid {
        Ok(())
    } else {
        Err("execution and admission origin do not match".to_owned())
    }
}

fn validate_terminal(kind: ExecutionKind, t: TerminalRoute) -> (r: Result<(), String>)
    ensures
        r is Ok == terminal_fits(kind, t),
        r matches Err(e) ==> e@ == "execution and terminal route do not match"@,
{
    let direct = t.owner == TerminalOwner::ForegroundCaller && t.delivery
        == DeliveryRoute::DirectToolResult;
    let inbox = t.owner == TerminalOwner::BackgroundExecutions && t.delivery
        == DeliveryRoute::ParentInboxBody;
    let pointer = t.owner == TerminalOwner::BackgroundShells && t.delivery
        == DeliveryRoute::ShellOutputPointer;
    let valid = match kind {
        ExecutionKind::Agent => direct || inbox,
        ExecutionKind::Program => direct || inbox,
        ExecutionKind::Workflow => inbox,
        ExecutionKind::Shell => pointer,
    };
    if valid {
        Ok(())
    } else {
        Err("execution and terminal route do not match".to_owned())
    }
}

// ---------------------------------------------------------------------------
// Persisted receipts
// ---------------------------------------------------------------------------

pub open spec fn oversize_text() -> Seq<char> {
    "execution provenance receipt exceeds "@ + text::decimal(MAX_RECEIPT_BYTES as nat) + " bytes"@
}

/// Whether an encoded receipt is within its bound.
pub fn ensure_bounded(encoded_bytes: usize) -> (r: Result<(), String>)
    ensures
        r is Ok == (encoded_bytes <= MAX_RECEIPT_BYTES),
        r matches Err(e) ==> e@ == oversize_text(),
{
    if encoded_bytes > MAX_RECEIPT_BYTES {
        let mut e = "execution provenance receipt exceeds ".to_owned();
        e.append(text::decimal_text(MAX_RECEIPT_BYTES as u64).as_str());
        e.append(" bytes");
        return Err(e);
    }
    Ok(())
}

/// A receipt as it is kept: its value as compact JSON, what the value decodes
/// to, and how many bytes the decoded receipt encodes to.
#[derive(Debug, PartialEq, Eq)]
pub struct PersistedAttempt {
    pub value: Vec<u8>,
    pub decoded: Result<ExecutionProvenanceReceipt, String>,
    pub receipt_bytes: usize,
}

/// What is wrong with a persisted receipt.
pub open spec fn attempt_error(a: PersistedAttempt) -> Option<Seq<char>> {
    if a.value@.len() > MAX_RECEIPT_BYTES {
        Some(oversize_text())
    } else {
        match a.decoded {
            Err(e) => Some(e@),
            Ok(receipt) => text::first(
                receipt.error(),
                if a.receipt_bytes > MAX_RECEIPT_BYTES {
                    Some(oversize_text())
                } else {
                    None
                },
            ),
        }
    }
}

impl PersistedAttempt {
    /// The receipt, where it is bounded and holds together.
    pub fn validated(&self) -> (r: Result<&ExecutionProvenanceReceipt, String>)
        ensures
            match r {
                Ok(receipt) => attempt_error(*self) is None && self.decoded is Ok && *receipt
                    == self.decoded->Ok_0,
                Err(e) => attempt_error(*self) == Some(e@),
            },
    {
        ensure_bounded(self.value.len())?;
        match &self.decoded {
            Err(e) => Err(e.clone()),
            Ok(receipt) => {
                receipt.validate()?;
                ensure_bounded(self.receipt_bytes)?;
                Ok(receipt)
            },
        }
    }
}

/// The attempts of one durable run, as found.
#[derive(Debug, PartialEq, Eq)]
pub struct ProvenanceHistory {
    pub version: u8,
    pub durable: DurableExecutionId,
    pub attempts: Vec<PersistedAttempt>,
}

/// Whether an attempt belongs to a run.
pub open spec fn belongs(a: PersistedAttempt, durable: DurableExecutionId) -> bool {
    a.decoded matches Ok(receipt) && receipt.durable matches Some(d) && d.same_as(durable)
}

/// Whether a history is whole: of a known version, within its cap, every
/// attempt valid and of this run.
pub open spec fn history_is_valid(h: ProvenanceHistory) -> bool {
    &&& h.version == PROVENANCE_HISTORY_VERSION
    &&& h.attempts@.len() <= MAX_PROVENANCE_ATTEMPTS
    &&& forall|i: int|
        0 <= i < h.attempts@.len() ==> attempt_error(#[trigger] h.attempts@[i]) is None && belongs(
            h.attempts@[i],
            h.durable,
        )
}

/// A history file: its size, and what it decoded to.
#[derive(Debug, PartialEq, Eq)]
pub struct ExistingHistory {
    pub bytes: usize,
    pub decoded: Option<ProvenanceHistory>,
}

/// The history of a file that is within its bound, decodes and is whole.
pub open spec fn usable(existing: ExistingHistory) -> Option<ProvenanceHistory> {
    if existing.bytes > MAX_PROVENANCE_HISTORY_BYTES {
        None
    } else {
        match existing.decoded {
            Some(h) if history_is_valid(h) => Some(h),
            _ => None,
        }
    }
}

/// The first complaint about an attempt.
pub open spec fn attempts_error(attempts: Seq<PersistedAttempt>, n: nat) -> Option<Seq<char>>
    decreases n,
{
    if n == 0 {
        None
    } else {
        text::first(attempts_error(attempts, (n - 1) as nat), attempt_error(attempts[n - 1]))
    }
}

/// What is wrong with a history.
pub open spec fn history_error(h: ProvenanceHistory) -> Option<Seq<char>> {
    if h.version != PROVENANCE_HISTORY_VERSION {
        Some("unsupported provenance history version"@)
    } else if h.attempts@.len() > MAX_PROVENANCE_ATTEMPTS {
        Some("provenance history exceeds the attempt cap"@)
    } else {
        text::first(
            attempts_error(h.attempts@, h.attempts@.len()),
            if forall|i: int|
                0 <= i < h.attempts@.len() ==> belongs(#[trigger] h.attempts@[i], h.durable) {
                None
            } else {
                Some("provenance history durable identity mismatch"@)
            },
        )
    }
}

proof fn lemma_attempts_error(attempts: Seq<PersistedAttempt>, k: nat, n: nat)
    requires
        k <= n,
    ensures
        attempts_error(attempts, k) is Some ==> attempts_error(attempts, n) == attempts_error(
            attempts,
            k,
        ),
        attempts_error(attempts, n) is None ==> forall|i: int|
            0 <= i < n ==> attempt_error(#[trigger] attempts[i]) is None,
    decreases n,
{
    if k < n {
        lemma_attempts_error(attempts, k, (n - 1) as nat);
    } else if n > 0 {
        lemma_attempts_error(attempts, (n - 1) as nat, (n - 1) as nat);
    }
}

impl ProvenanceHistory {
    /// Whether the history is whole; the error names the first thing that is
    /// wrong with it.
    pub fn validated_attempts(&self) -> (r: Result<(), String>)
        ensures
            match r {
                Ok(()) => history_error(*self) is None && history_is_valid(*self),
                Err(e) => history_error(*self) == Some(e@) && !history_is_valid(*self),
            },
    {
        if self.version != PROVENANCE_HISTORY_VERSION {
            return Err("unsupported provenance history version".to_owned());
        }
        if self.attempts.len() > MAX_PROVENANCE_ATTEMPTS {
            return Err("provenance history exceeds the attempt cap".to_owned());
        }
        let mut i: usize = 0;
        while i < self.attempts.len()
            invariant
                i <= self.attempts@.len(),
                self.version == PROVENANCE_HISTORY_VERSION,
                self.attempts@.len() <= MAX_PROVENANCE_ATTEMPTS,
                attempts_error(self.attempts@, i as nat) is None,
            decreases self.attempts@.len() - i,
        {
            if let Err(e) = self.attempts[i].validated() {
                proof {
                    lemma_attempts_error(
                        self.attempts@,
                        (i + 1) as nat,
                        self.attempts@.len(),
                    );
                    assert(attempt_error(self.attempts@[i as int]) is Some);
                }
                return Err(e);
            }
            i += 1;
        }
        proof {
            lemma_attempts_error(self.attempts@, i as nat, i as nat);
        }
        let mut j: usize = 0;
        while j < self.attempts.len()
            invariant
                j <= self.attempts@.len(),
                self.version == PROVENANCE_HISTORY_VERSION,
                self.attempts@.len() <= MAX_PROVENANCE_ATTEMPTS,
                attempts_error(self.attempts@, self.attempts@.len()) is None,
                forall|k: int|
                    0 <= k < j ==> belongs(#[trigger] self.attempts@[k], self.durable),
            decreases self.attempts@.len() - j,
        {
            let same = match &self.attempts[j].decoded {
                Ok(receipt) => match &receipt.durable {
                    Some(d) => d.same(&self.durable),
                    None => false,
                },
                Err(_) => false,
            };
            if !same {
                proof {
                    assert(!belongs(self.attempts@[j as int], self.durable));
                }
                return Err("provenance history durable identity mismatch".to_owned());
            }
            j += 1;
        }
        Ok(())
    }
}

/// The numbers of the attempts up to `n`, where each is of the kind.
pub open spec fn attempt_numbers(
    attempts: Seq<PersistedAttempt>,
    kind: ExecutionKind,
    n: nat,
) -> Option<Seq<nat>>
    decreases n,
{
    if n == 0 {
        Some(Seq::empty())
    } else {
        match attempt_numbers(attempts, kind, (n - 1) as nat) {
            None => None,
            Some(before) => match attempts[n - 1].decoded {
                Ok(receipt) if receipt.execution.spec_kind() == kind => Some(
                    before.push(receipt.execution.number()),
                ),
                _ => None,
            },
        }
    }
}

/// The numbers already recorded for a kind of run: nothing where the history
/// cannot be used; a missing file is an empty history.
pub open spec fn recorded_numbers(existing: Option<ExistingHistory>, kind: ExecutionKind) -> Option<
    Seq<nat>,
> {
    match existing {
        None => Some(Seq::empty()),
        Some(e) => match usable(e) {
            Some(h) if h.durable.spec_kind() == kind => attempt_numbers(
                h.attempts@,
                kind,
                h.attempts@.len(),
            ),
            _ => None,
        },
    }
}

/// The view of a list of numbers.
pub open spec fn numbers(v: Seq<u64>) -> Seq<nat> {
    v.map_values(|n: u64| n as nat)
}

/// The numbers already recorded for a kind of run.
pub fn persisted_attempt_sequences(
    existing: Option<&ExistingHistory>,
    kind: ExecutionKind,
) -> (r: Option<Vec<u64>>)
    ensures
        match r {
            Some(v) => recorded_numbers(
                match existing {
                    Some(e) => Some(*e),
                    None => None,
                },
                kind,
            ) == Some(numbers(v@)),
            None => recorded_numbers(
                match existing {
                    Some(e) => Some(*e),
                    None => None,
                },
                kind,
            ) is None,
        },
{
    let mut out: Vec<u64> = Vec::new();
    proof {
        assert(numbers(out@) =~= Seq::<nat>::empty());
    }
    let file = match existing {
        Some(file) => file,
        None => {
            return Some(out);
        },
    };
    if file.bytes > MAX_PROVENANCE_HISTORY_BYTES {
        return None;
    }
    let history = match &file.decoded {
        Some(history) => history,
        None => {
            return None;
        },
    };
    if history.validated_attempts().is_err() || history.durable.kind() != kind {
        return None;
    }
    let ghost all = history.attempts@;
    let mut i: usize = 0;
    while i < history.attempts.len()
        invariant
            i <= history.attempts@.len(),
            all == history.attempts@,
            attempt_numbers(all, kind, i as nat) == Some(numbers(out@)),
            existing matches Some(e) && usable(*e) == Some(*history) && history.durable.spec_kind()
                == kind,
        decreases history.attempts@.len() - i,
    {
        let ghost before = numbers(out@);
        match &history.attempts[i].decoded {
            Ok(receipt) => {
                if receipt.execution.kind() != kind {
                    proof {
                        lemma_numbers_fail(all, kind, (i + 1) as nat, all.len());
                    }
                    return None;
                }
                out.push(receipt.execution.sequence());
                proof {
                    assert(numbers(out@) =~= before.push(receipt.execution.number()));
                }
            },
            Err(_) => {
                proof {
                    lemma_numbers_fail(all, kind, (i + 1) as nat, all.len());
                }
                return None;
            },
        }
        i += 1;
    }
    Some(out)
}

proof fn lemma_numbers_fail(
    attempts: Seq<PersistedAttempt>,
    kind: ExecutionKind,
    k: nat,
    n: nat,
)
    requires
        k <= n,
        attempt_numbers(attempts, kind, k) is None,
    ensures
        attempt_numbers(attempts, kind, n) is None,
    decreases n - k,
{
    if k < n {
        lemma_numbers_fail(attempts, kind, k, (n - 1) as nat);
    }
}

/// What to do with a history file for one more attempt.
#[derive(Debug, PartialEq, Eq)]
pub enum HistoryPlan {
    /// Encode this history, and write it where it is within its bound.
    Encode(ProvenanceHistory),
    /// Leave the file as it is.
    Preserve,
}

/// What becomes of a history file.
#[derive(Debug, PartialEq, Eq)]
pub enum ProvenanceHistoryUpdate {
    Write(Vec<u8>),
    /// Leave the file as it is.
    Preserve,
}

/// Whether an attempt is of an execution.
pub open spec fn is_attempt_of(a: PersistedAttempt, execution: TransientExecutionId) -> bool {
    a.decoded matches Ok(receipt) && receipt.execution.same_as(execution)
}

/// Whether some attempt is of the same execution.
pub open spec fn has_attempt(h: ProvenanceHistory, execution: TransientExecutionId) -> bool {
    exists|i: int|
        0 <= i < h.attempts@.len() && is_attempt_of(#[trigger] h.attempts@[i], execution)
}

/// Whether a receipt can be added: it names a run; a history that is there is
/// whole and of that run, has room, and does not hold the execution yet.
pub open spec fn can_append(
    existing: Option<ExistingHistory>,
    receipt: ExecutionProvenanceReceipt,
) -> bool {
    &&& receipt.durable matches Some(durable) && (existing matches Some(e) ==> (usable(e) matches Some(
        h,
    ) && h.durable.same_as(durable) && h.attempts@.len() < MAX_PROVENANCE_ATTEMPTS && !has_attempt(
        h,
        receipt.execution,
    )))
}

/// The attempts of a history file that is there; none where there is no file.
pub open spec fn earlier_attempts(existing: Option<ExistingHistory>) -> Seq<PersistedAttempt> {
    match existing {
        Some(e) => match e.decoded {
            Some(h) => h.attempts@,
            None => Seq::empty(),
        },
        None => Seq::empty(),
    }
}

/// A receipt as it joins a history, with the value that it encodes to.
pub open spec fn is_new_attempt(
    a: PersistedAttempt,
    receipt: ExecutionProvenanceReceipt,
    value: Seq<u8>,
) -> bool {
    &&& a.value@ == value
    &&& a.decoded == Ok::<ExecutionProvenanceReceipt, String>(receipt)
    &&& a.receipt_bytes == value.len()
}

/// Whether a history is what one more receipt makes of a history file: of the
/// known version and of the receipt's run, with the attempts so far, followed by
/// this one.
pub open spec fn is_appended(
    existing: Option<ExistingHistory>,
    receipt: ExecutionProvenanceReceipt,
    value: Seq<u8>,
    now: ProvenanceHistory,
) -> bool {
    &&& now.version == PROVENANCE_HISTORY_VERSION
    &&& receipt.durable matches Some(durable) && now.durable.same_as(durable)
    &&& now.attempts@.len() == earlier_attempts(existing).len() + 1
    &&& now.attempts@.drop_last() == earlier_attempts(existing)
    &&& is_new_attempt(now.attempts@.last(), receipt, value)
}

/// The history file for one more attempt: a file that cannot be used, or a
/// history that is full, is left alone. `value` is the compact JSON of the
/// receipt.
pub fn update_provenance_history(
    existing: Option<ExistingHistory>,
    receipt: ExecutionProvenanceReceipt,
    value: Vec<u8>,
) -> (r: HistoryPlan)
    ensures
        match r {
            HistoryPlan::Encode(now) => can_append(existing, receipt) && is_appended(
                existing,
                receipt,
                value@,
                now,
            ),
            HistoryPlan::Preserve => !can_append(existing, receipt),
        },
{
    let ghost earlier = earlier_attempts(existing);
    let durable = match &receipt.durable {
        Some(durable) => durable,
        None => {
            return HistoryPlan::Preserve;
        },
    };
    let mut history = match existing {
        Some(file) => {
            if file.bytes > MAX_PROVENANCE_HISTORY_BYTES {
                return HistoryPlan::Preserve;
            }
            let history = match file.decoded {
                Some(history) => history,
                None => {
                    return HistoryPlan::Preserve;
                },
            };
            if history.validated_attempts().is_err() || !history.durable.same(durable)
                || history.attempts.len() >= MAX_PROVENANCE_ATTEMPTS || holds(
                &history,
                &receipt.execution,
            ) {
                return HistoryPlan::Preserve;
            }
            history
        },
        None => ProvenanceHistory {
            version: PROVENANCE_HISTORY_VERSION,
            durable: durable.clone(),
            attempts: Vec::new(),
        },
    };
    let receipt_bytes: usize = value.len();
    history.attempts.push(PersistedAttempt { value, decoded: Ok(receipt), receipt_bytes });
    proof {
        assert(history.attempts@.drop_last() =~= earlier);
    }
    HistoryPlan::Encode(history)
}

/// What becomes of the file once the history is encoded, or could not be: one
/// over its bound is not written.
pub fn encoded_update(encoded: Option<Vec<u8>>) -> (r: ProvenanceHistoryUpdate)
    ensures
        r == (match encoded {
            Some(bytes) if bytes@.len() <= MAX_PROVENANCE_HISTORY_BYTES => {
                ProvenanceHistoryUpdate::Write(bytes)
            },
            _ => ProvenanceHistoryUpdate::Preserve,
        }),
{
    match encoded {
        Some(bytes) => {
            if bytes.len() <= MAX_PROVENANCE_HISTORY_BYTES {
                ProvenanceHistoryUpdate::Write(bytes)
            } else {
                ProvenanceHistoryUpdate::Preserve
            }
        },
        None => ProvenanceHistoryUpdate::Preserve,
    }
}

fn holds(history: &ProvenanceHistory, execution: &TransientExecutionId) -> (r: bool)
    ensures
        r == has_attempt(*history, *execution),
{
    let mut i: usize = 0;
    while i < history.attempts.len()
        invariant
            i <= history.attempts@.len(),
            forall|k: int|
                0 <= k < i ==> !is_attempt_of(#[trigger] history.attempts@[k], *execution),
        decreases history.attempts@.len() - i,
    {
        if let Ok(receipt) = &history.attempts[i].decoded {
            if receipt.execution.same(execution) {
                return true;
            }
        }
        i += 1;
    }
    false
}

// ---------------------------------------------------------------------------
// Laws
// ---------------------------------------------------------------------------

/// Two names in the same domain are digested from different bytes, and no name
/// is digested from the bytes of a name in another domain.
pub proof fn law_preimages_are_separated(d1: Seq<char>, d2: Seq<char>, a: Seq<char>, b: Seq<char>)
    requires
        d1 == SESSION_DOMAIN@ || d1 == THREAD_DOMAIN@ || d1 == ROLLOUT_DOMAIN@,
        d2 == SESSION_DOMAIN@ || d2 == THREAD_DOMAIN@ || d2 == ROLLOUT_DOMAIN@,
        preimage(d1, a) == preimage(d2, b),
    ensures
        d1 == d2,
        a == b,
{
    lemma_domains();
    let x = preimage(d1, a);
    let y = preimage(d2, b);
    let e1 = encode_utf8(d1);
    let e2 = encode_utf8(d2);
    assert(x[16] == e1[16] && y[16] == e2[16]);
    assert(d1 == d2);
    let n = e1.len() as int;
    let ta = x.skip(n + 8);
    let tb = y.skip(n + 8);
    assert(ta =~= encode_utf8(a));
    assert(tb =~= encode_utf8(b));
    vstd::utf8::encode_utf8_decode_utf8(a);
    vstd::utf8::encode_utf8_decode_utf8(b);
}

/// The domains tell themselves apart at one byte.
proof fn lemma_domains()
    ensures
        encode_utf8(SESSION_DOMAIN@).len() > 16,
        encode_utf8(THREAD_DOMAIN@).len() > 16,
        encode_utf8(ROLLOUT_DOMAIN@).len() > 16,
        encode_utf8(SESSION_DOMAIN@)[16] == 0x73u8,
        encode_utf8(THREAD_DOMAIN@)[16] == 0x74u8,
        encode_utf8(ROLLOUT_DOMAIN@)[16] == 0x72u8,
{
    reveal_strlit("kloop-execution-session/v1\0");
    reveal_strlit("kloop-execution-thread/v1\0");
    reveal_strlit("kloop-execution-rollout/v1\0");
    vstd::utf8::is_ascii_chars_encode_utf8(SESSION_DOMAIN@);
    vstd::utf8::is_ascii_chars_encode_utf8(THREAD_DOMAIN@);
    vstd::utf8::is_ascii_chars_encode_utf8(ROLLOUT_DOMAIN@);
}

/// A receipt that holds together names a run exactly where its kind has one,
/// comes from an origin of its kind, and goes back a way of its kind.
pub proof fn law_valid_receipts_fit_their_kind(receipt: ExecutionProvenanceReceipt)
    requires
        receipt.error() is None,
    ensures
        kinds_match(receipt.execution, receipt.durable),
        origin_fits(receipt.execution.spec_kind(), receipt.origin),
        terminal_fits(receipt.execution.spec_kind(), receipt.terminal),
        !(receipt.execution is Agent) ==> receipt.mailbox is NotMailboxPeer,
        receipt.parent matches Some(p) ==> kinds_match(p.execution, p.durable),
{
}

/// A history that is full, or that already holds the execution, is never
/// written.
pub proof fn law_a_full_history_is_left_alone(
    existing: ExistingHistory,
    history: ProvenanceHistory,
    receipt: ExecutionProvenanceReceipt,
)
    requires
        usable(existing) == Some(history),
        history.attempts@.len() == MAX_PROVENANCE_ATTEMPTS || has_attempt(
            history,
            receipt.execution,
        ),
    ensures
        !can_append(Some(existing), receipt),
{
}

/// An execution is recorded once: a file that holds what an update wrote is left
/// alone by a second update for the same execution.
pub proof fn law_an_execution_is_recorded_once(
    existing: Option<ExistingHistory>,
    receipt: ExecutionProvenanceReceipt,
    value: Seq<u8>,
    written: ExistingHistory,
    now: ProvenanceHistory,
)
    requires
        is_appended(existing, receipt, value, now),
        written.decoded == Some(now),
    ensures
        !can_append(Some(written), receipt),
{
    let last = now.attempts@.len() - 1;
    assert(is_attempt_of(now.attempts@[last], receipt.execution));
}

/// What an update writes is a whole history again, and the numbers recorded in
/// it are those so far, followed by that of the receipt.
pub proof fn law_an_update_adds_its_number(
    existing: Option<ExistingHistory>,
    receipt: ExecutionProvenanceReceipt,
    value: Seq<u8>,
    written: ExistingHistory,
    now: ProvenanceHistory,
)
    requires
        can_append(existing, receipt),
        is_appended(existing, receipt, value, now),
        receipt.error() is None,
        value.len() <= MAX_RECEIPT_BYTES,
        written.decoded == Some(now),
        written.bytes <= MAX_PROVENANCE_HISTORY_BYTES,
    ensures
        usable(written) == Some(now),
        recorded_numbers(existing, receipt.execution.spec_kind()) matches Some(before)
            ==> recorded_numbers(Some(written), receipt.execution.spec_kind()) == Some(
            before.push(receipt.execution.number()),
        ),
        recorded_numbers(existing, receipt.execution.spec_kind()) is None ==> recorded_numbers(
            Some(written),
            receipt.execution.spec_kind(),
        ) is None,
{
    let kind = receipt.execution.spec_kind();
    let earlier = earlier_attempts(existing);
    let all = now.attempts@;
    let last = all.len() - 1;
    assert(all[last] == all.last());
    law_valid_receipts_fit_their_kind(receipt);
    assert forall|i: int| 0 <= i < all.len() implies attempt_error(#[trigger] all[i]) is None
        && belongs(all[i], now.durable) by {
        if i < last {
            assert(all[i] == all.drop_last()[i]);
            assert(all[i] == earlier[i]);
        }
    }
    lemma_numbers_of_prefix(all, earlier, kind, earlier.len());
}

/// Numbers depend on the attempts counted alone.
proof fn lemma_numbers_of_prefix(
    all: Seq<PersistedAttempt>,
    earlier: Seq<PersistedAttempt>,
    kind: ExecutionKind,
    n: nat,
)
    requires
        n <= earlier.len() <= all.len(),
        forall|i: int| 0 <= i < earlier.len() ==> all[i] == #[trigger] earlier[i],
    ensures
        attempt_numbers(all, kind, n) == attempt_numbers(earlier, kind, n),
    decreases n,
{
    if n > 0 {
        lemma_numbers_of_prefix(all, earlier, kind, (n - 1) as nat);
    }
}

// ---------------------------------------------------------------------------
// Ids, and what goes with what
// ---------------------------------------------------------------------------

proof fn lemma_digit_of(c: char)
    requires
        text::is_digit(c),
    ensures
        ((c as u32 - 0x30) as nat) < 10,
        text::digit((c as u32 - 0x30) as nat) == c,
{
}

proof fn lemma_digits_spell_their_value(s: Seq<char>)
    requires
        s.len() > 0,
        text::all_digits(s),
        s[0] != '0',
    ensures
        text::decimal(text::digits_value(s)) == s,
        text::digits_value(s) >= 1,
    decreases s.len(),
{
    reveal_with_fuel(text::digits_value, 2);
    let front = s.drop_last();
    let last = s.last();
    assert(text::is_digit(s[s.len() - 1]));
    let d = (last as u32 - 0x30) as nat;
    lemma_digit_of(last);
    if s.len() == 1 {
        assert(front =~= Seq::<char>::empty());
        assert(text::digits_value(s) == d);
        assert(text::is_digit(s[0]) && s[0] != '0');
        assert(text::decimal(d) =~= s);
    } else {
        assert forall|i: int| 0 <= i < front.len() implies text::is_digit(#[trigger] front[i]) by {
            assert(front[i] == s[i]);
        }
        assert(front[0] == s[0]);
        lemma_digits_spell_their_value(front);
        let v = text::digits_value(front);
        let n = text::digits_value(s);
        assert(n == v * 10 + d);
        assert(n / 10 == v && n % 10 == d);
        assert(text::decimal(n) =~= s);
    }
}

/// A canonical number is how a number of at least one is written.
pub proof fn law_a_canonical_number_is_how_it_is_written(s: Seq<char>)
    ensures
        canonical_number(s) <==> exists|n: nat| 1 <= n <= u64::MAX && s == #[trigger] text::decimal(n),
{
    if canonical_number(s) {
        lemma_digits_spell_their_value(s);
        assert(s == text::decimal(text::digits_value(s)));
    }
    if exists|n: nat| 1 <= n <= u64::MAX && s == #[trigger] text::decimal(n) {
        let n = choose|n: nat| 1 <= n <= u64::MAX && s == #[trigger] text::decimal(n);
        text::lemma_decimal_reads_back(n);
        lemma_no_leading_zero(n);
    }
}

proof fn lemma_no_leading_zero(n: nat)
    requires
        n >= 1,
    ensures
        text::decimal(n).len() > 0,
        text::decimal(n)[0] != '0',
    decreases n,
{
    if n >= 10 {
        lemma_no_leading_zero(n / 10);
        assert(text::decimal(n)[0] == text::decimal(n / 10)[0]);
    }
}

/// The id of a run of this process is its prefix and its number, from one on, as it is
/// written; there is no other spelling.
pub proof fn law_how_a_run_of_this_process_is_named(
    raw: Seq<char>,
    prefix: Seq<char>,
    noun: Seq<char>,
)
    ensures
        transient_error(raw, prefix, noun) is None <==> exists|n: nat|
            1 <= n <= u64::MAX && raw == prefix + #[trigger] text::decimal(n),
{
    let rest = raw.skip(prefix.len() as int);
    law_a_canonical_number_is_how_it_is_written(rest);
    if transient_error(raw, prefix, noun) is None {
        let n = choose|n: nat| 1 <= n <= u64::MAX && rest == #[trigger] text::decimal(n);
        assert(raw =~= prefix + rest) by {
            assert(raw =~= raw.take(prefix.len() as int) + rest);
        }
        assert(raw == prefix + text::decimal(n));
    }
    if exists|n: nat| 1 <= n <= u64::MAX && raw == prefix + #[trigger] text::decimal(n) {
        let n = choose|n: nat| 1 <= n <= u64::MAX && raw == prefix + #[trigger] text::decimal(n);
        assert(raw.take(prefix.len() as int) =~= prefix);
        assert(rest =~= text::decimal(n));
    }
}

proof fn lemma_first_dash(a: Seq<char>, b: Seq<char>)
    requires
        !a.contains('-'),
    ensures
        first_dash(a + seq!['-'] + b) == a.len(),
    decreases a.len(),
{
    let whole = a + seq!['-'] + b;
    if a.len() == 0 {
        assert(whole[0] == '-');
    } else {
        assert(whole[0] == a[0]);
        assert(a.contains(a[0]));
        let rest = a.drop_first();
        if rest.contains('-') {
            let k = choose|k: int| 0 <= k < rest.len() && rest[k] == '-';
            assert(a[k + 1] == '-');
        }
        lemma_first_dash(rest, b);
        assert(whole.drop_first() =~= rest + seq!['-'] + b);
    }
}

/// The id of a run that outlives the process is its prefix, the time in digits, a dash,
/// and its number as it is written.
pub proof fn law_how_a_lasting_run_is_named(
    prefix: Seq<char>,
    noun: Seq<char>,
    time: Seq<char>,
    n: nat,
)
    requires
        time.len() > 0,
        text::all_digits(time),
        1 <= n <= u64::MAX,
    ensures
        durable_error(prefix + time + seq!['-'] + text::decimal(n), prefix, noun) is None,
        durable_error(prefix + time, prefix, noun) is Some,
        durable_error(prefix + seq!['-'] + text::decimal(n), prefix, noun) is Some,
{
    let tail = time + seq!['-'] + text::decimal(n);
    let raw = prefix + time + seq!['-'] + text::decimal(n);
    assert(raw.take(prefix.len() as int) =~= prefix);
    assert(raw.skip(prefix.len() as int) =~= tail);
    if time.contains('-') {
        let k = choose|k: int| 0 <= k < time.len() && time[k] == '-';
        assert(text::is_digit(time[k]));
    }
    lemma_first_dash(time, text::decimal(n));
    assert(tail.take(time.len() as int) =~= time);
    assert(tail.skip(time.len() as int + 1) =~= text::decimal(n));
    law_a_canonical_number_is_how_it_is_written(text::decimal(n));
    let bare = prefix + time;
    assert(bare.skip(prefix.len() as int) =~= time);
    lemma_no_dash(time);
    let none = prefix + seq!['-'] + text::decimal(n);
    assert(none.skip(prefix.len() as int) =~= seq!['-'] + text::decimal(n));
    assert((seq!['-'] + text::decimal(n))[0] == '-');
}

proof fn lemma_no_dash(s: Seq<char>)
    requires
        !s.contains('-'),
    ensures
        first_dash(s) == s.len(),
    decreases s.len(),
{
    if s.len() > 0 {
        assert(s.contains(s[0]));
        let rest = s.drop_first();
        if rest.contains('-') {
            let k = choose|k: int| 0 <= k < rest.len() && rest[k] == '-';
            assert(s[k + 1] == '-');
        }
        lemma_no_dash(rest);
    }
}

proof fn lemma_last_hash(s: Seq<char>, n: nat, at: nat)
    requires
        at < n <= s.len(),
        s[at as int] == '#',
        forall|k: int| at < k < n ==> #[trigger] s[k] != '#',
    ensures
        last_hash(s, n) == Some(at),
    decreases n,
{
    if at < n - 1 {
        assert(s[n - 1] != '#');
        lemma_last_hash(s, (n - 1) as nat, at);
    }
}

/// A line of a session file is named by the session and, behind the last hash, its number
/// from one on.
pub proof fn law_how_a_line_is_named(session: Seq<char>, n: nat)
    requires
        n <= u64::MAX,
    ensures
        line_parts(session + seq!['#'] + text::decimal(n)) == (if session.len() > 0 && n > 0 {
            Some((session, n))
        } else {
            None
        }),
{
    let digits = text::decimal(n);
    let raw = session + seq!['#'] + digits;
    text::lemma_decimal_reads_back(n);
    text::lemma_parse_decimal(n, u64::MAX as nat);
    assert(raw[session.len() as int] == '#');
    assert forall|k: int| session.len() < k < raw.len() implies #[trigger] raw[k] != '#' by {
        assert(raw[k] == digits[k - session.len() - 1]);
        assert(text::is_digit(digits[k - session.len() - 1]));
    }
    lemma_last_hash(raw, raw.len(), session.len());
    assert(raw.skip(session.len() as int + 1) =~= digits);
    assert(raw.take(session.len() as int) =~= session);
}

/// Programs and workflows outlive the process and have a lasting id of their own kind;
/// agents and shells have none.
pub proof fn law_what_outlives_the_process(
    execution: TransientExecutionId,
    durable: Option<DurableExecutionId>,
)
    ensures
        pair_error(execution, durable) is None <==> match execution.spec_kind() {
            ExecutionKind::Agent => durable is None,
            ExecutionKind::Program => durable is Some && durable->0.spec_kind()
                == ExecutionKind::Program,
            ExecutionKind::Workflow => durable is Some && durable->0.spec_kind()
                == ExecutionKind::Workflow,
            ExecutionKind::Shell => durable is None,
        },
{
}

/// An agent is a mailbox peer under its own id, and nothing else is one.
pub proof fn law_who_is_a_mailbox_peer(execution: TransientExecutionId, mailbox: MailboxRoute)
    ensures
        mailbox_error(execution, mailbox) is None <==> match execution {
            TransientExecutionId::Agent(id) => mailbox is Agent && mailbox->child is Agent
                && mailbox->child->Agent_0@ == id.text(),
            _ => mailbox is NotMailboxPeer,
        },
{
}

/// What was started how, and who waits for it: an agent by one of the three ways to start
/// one, a program, a workflow or a shell by its own. A workflow runs in the background, a
/// shell where shells run, and agents and programs either way.
pub proof fn law_how_a_kind_is_started_and_awaited(
    kind: ExecutionKind,
    origin: AdmissionOrigin,
    t: TerminalRoute,
)
    ensures
        origin_fits(kind, origin) <==> kind == (match origin {
            AdmissionOrigin::RunAgent => ExecutionKind::Agent,
            AdmissionOrigin::StructuredAgent => ExecutionKind::Agent,
            AdmissionOrigin::SkillFork => ExecutionKind::Agent,
            AdmissionOrigin::Program => ExecutionKind::Program,
            AdmissionOrigin::Workflow => ExecutionKind::Workflow,
            AdmissionOrigin::BackgroundShell => ExecutionKind::Shell,
        }),
        terminal_fits(kind, t) ==> t.delivery == (match t.owner {
            TerminalOwner::ForegroundCaller => DeliveryRoute::DirectToolResult,
            TerminalOwner::BackgroundExecutions => DeliveryRoute::ParentInboxBody,
            TerminalOwner::BackgroundShells => DeliveryRoute::ShellOutputPointer,
        }),
        terminal_fits(kind, t) <==> t.delivery == (match t.owner {
            TerminalOwner::ForegroundCaller => DeliveryRoute::DirectToolResult,
            TerminalOwner::BackgroundExecutions => DeliveryRoute::ParentInboxBody,
            TerminalOwner::BackgroundShells => DeliveryRoute::ShellOutputPointer,
        }) && match kind {
            ExecutionKind::Agent => t.owner != TerminalOwner::BackgroundShells,
            ExecutionKind::Program => t.owner != TerminalOwner::BackgroundShells,
            ExecutionKind::Workflow => t.owner == TerminalOwner::BackgroundExecutions,
            ExecutionKind::Shell => t.owner == TerminalOwner::BackgroundShells,
        },
{
}

/// A receipt is valid exactly where it is of the first version, and its scope, its parent,
/// its own ids, its mailbox, its origin, its way back, its lines and its workspace all fit.
pub proof fn law_when_a_receipt_is_valid(receipt: ExecutionProvenanceReceipt)
    ensures
        receipt.error() is None <==> {
            &&& receipt.version == 1
            &&& scope_error(receipt.scope) is None
            &&& receipt.parent matches Some(parent) ==> pair_error(
                parent.execution,
                parent.durable,
            ) is None
            &&& pair_error(receipt.execution, receipt.durable) is None
            &&& mailbox_error(receipt.execution, receipt.mailbox) is None
            &&& origin_fits(receipt.execution.spec_kind(), receipt.origin)
            &&& terminal_fits(receipt.execution.spec_kind(), receipt.terminal)
            &&& line_error(receipt.rollout.parent_line) is None
            &&& line_error(receipt.rollout.subagent_of) is None
            &&& workspace_error(receipt.workspace) is None
        },
{
}

/// An admission is refused exactly where its parent, its ids, its mailbox, its origin, its
/// way back or its workspace does not fit.
pub proof fn law_when_an_admission_is_accepted(a: ResolvedExecutionAdmission)
    ensures
        admission_error(a) is None <==> {
            &&& a.parent matches Some(parent) ==> pair_error(parent.execution, parent.durable)
                is None
            &&& pair_error(a.execution, a.durable) is None
            &&& mailbox_error(a.execution, a.mailbox) is None
            &&& origin_fits(a.execution.spec_kind(), a.origin)
            &&& terminal_fits(a.execution.spec_kind(), a.terminal)
            &&& workspace_error(a.workspace) is None
        },
{
}

/// What is opaque is 64 lower-case hexadecimal digits; a session has a scope and a thread
/// or neither; a line has a number; and a workspace, and its project where it has one, go
/// by a prefix and a digest.
pub proof fn law_what_is_well_formed(
    scope: ScopeRef,
    line: LineEvidence,
    w: WorkspaceProvenance,
)
    ensures
        scope_error(scope) is None <==> {
            &&& scope.session is Some <==> scope.thread is Some
            &&& scope.session matches Some(s) ==> is_digest_text(s.text@)
            &&& scope.thread matches Some(t) ==> is_digest_text(t.text@)
        },
        line_error(line) is None <==> (line matches LineEvidence::Available(l) ==> l.sequence > 0
            && is_digest_text(l.session.text@)),
        workspace_error(w) is None <==> {
            &&& text::starts_with(w.workspace@, "w1_"@)
            &&& is_digest_text(w.workspace@.skip(3))
            &&& w.project matches Some(p) ==> text::starts_with(p@, "p1_"@) && is_digest_text(
                p@.skip(3),
            )
        },
        forall|s: Seq<char>| #[trigger]
            is_digest_text(s) <==> s.len() == 64 && forall|i: int|
                0 <= i < 64 ==> 0x30 <= (#[trigger] s[i]) as u32 <= 0x39 || 0x61 <= s[i] as u32
                    <= 0x66,
{
    reveal_strlit("w1_");
    reveal_strlit("p1_");
}

/// A history is valid exactly where nothing is wrong with it: it is of the first version,
/// holds at most 32 attempts, and each is within 2048 bytes, is read, is valid, and belongs
/// to the run that the history is of.
pub proof fn law_when_a_history_is_valid(h: ProvenanceHistory)
    ensures
        history_error(h) is None <==> history_is_valid(h),
        history_is_valid(h) <==> {
            &&& h.version == 1
            &&& h.attempts@.len() <= 32
            &&& forall|i: int|
                0 <= i < h.attempts@.len() ==> {
                    let a = #[trigger] h.attempts@[i];
                    &&& a.value@.len() <= 2_048
                    &&& a.receipt_bytes <= 2_048
                    &&& a.decoded is Ok
                    &&& a.decoded->Ok_0.error() is None
                    &&& a.decoded->Ok_0.durable is Some
                    &&& a.decoded->Ok_0.durable->0.spec_kind() == h.durable.spec_kind()
                    &&& a.decoded->Ok_0.durable->0.text() == h.durable.text()
                }
        },
{
    let attempts = h.attempts@;
    lemma_all_attempts_fit(attempts, attempts.len());
    if history_is_valid(h) {
        assert forall|i: int| 0 <= i < attempts.len() implies ({
            let a = #[trigger] attempts[i];
            &&& a.value@.len() <= 2_048
            &&& a.receipt_bytes <= 2_048
            &&& a.decoded is Ok
            &&& a.decoded->Ok_0.error() is None
            &&& a.decoded->Ok_0.durable is Some
            &&& a.decoded->Ok_0.durable->0.spec_kind() == h.durable.spec_kind()
            &&& a.decoded->Ok_0.durable->0.text() == h.durable.text()
        }) by {
            assert(attempt_error(attempts[i]) is None);
        }
    }
}

proof fn lemma_all_attempts_fit(attempts: Seq<PersistedAttempt>, n: nat)
    requires
        n <= attempts.len(),
    ensures
        attempts_error(attempts, n) is None <==> forall|i: int|
            0 <= i < n ==> attempt_error(#[trigger] attempts[i]) is None,
    decreases n,
{
    if n > 0 {
        lemma_all_attempts_fit(attempts, (n - 1) as nat);
    }
}

/// A history is used only where it is within 131072 bytes, is read and is valid.
pub proof fn law_which_history_is_used(existing: ExistingHistory)
    ensures
        usable(existing) is Some <==> existing.bytes <= 131_072 && existing.decoded is Some
            && history_is_valid(existing.decoded->0),
        usable(existing) is Some ==> usable(existing) == existing.decoded,
{
}

/// An attempt is appended only to a history of its own run, with room for it, that does not
/// hold it yet, or to none; a run that does not outlive the process has no history.
pub proof fn law_when_an_attempt_is_appended(
    existing: Option<ExistingHistory>,
    receipt: ExecutionProvenanceReceipt,
)
    ensures
        receipt.durable is None ==> !can_append(existing, receipt),
        receipt.durable is Some && existing is None ==> can_append(existing, receipt),
        receipt.durable is Some && existing is Some ==> (can_append(existing, receipt) <==> {
            &&& usable(existing->0) is Some
            &&& usable(existing->0)->0.durable.spec_kind() == receipt.durable->0.spec_kind()
            &&& usable(existing->0)->0.durable.text() == receipt.durable->0.text()
            &&& usable(existing->0)->0.attempts@.len() < 32
            &&& !has_attempt(usable(existing->0)->0, receipt.execution)
        }),
{
}

/// An attempt that is appended stands last, as it was read and written, behind all the
/// earlier ones.
pub proof fn law_an_attempt_stands_last(
    existing: Option<ExistingHistory>,
    receipt: ExecutionProvenanceReceipt,
    value: Seq<u8>,
    now: ProvenanceHistory,
    i: int,
)
    requires
        is_appended(existing, receipt, value, now),
    ensures
        now.version == 1,
        receipt.durable is Some,
        now.durable.text() == receipt.durable->0.text(),
        now.attempts@.last().value@ == value,
        now.attempts@.last().decoded == Ok::<ExecutionProvenanceReceipt, String>(receipt),
        now.attempts@.last().receipt_bytes == value.len(),
        0 <= i < now.attempts@.len() - 1 ==> existing is Some && existing->0.decoded is Some
            && now.attempts@[i] == existing->0.decoded->0.attempts@[i],
{
    if 0 <= i < now.attempts@.len() - 1 {
        assert(now.attempts@.drop_last()[i] == now.attempts@[i]);
    }
}

/// A session without an id has no scope; with one, the session and the thread are told
/// apart by their digests.
pub proof fn law_the_scope_of_a_session(scope: ScopeRef, session: Seq<char>)
    requires
        is_scope_of(scope, session),
    ensures
        session.len() == 0 ==> scope.session is None && scope.thread is None,
        session.len() > 0 ==> scope.session is Some && scope.thread is Some
            && scope.session->0.text@ == digest::hex(
            digest::sha256_of(preimage("kloop-execution-session/v1\0"@, session)),
        ) && scope.thread->0.text@ == digest::hex(
            digest::sha256_of(preimage("kloop-execution-thread/v1\0"@, session)),
        ),
{
}

/// What is digested is the domain, the number of bytes in eight bytes, the highest first,
/// and the bytes.
pub proof fn law_what_is_digested(domain: Seq<char>, raw: Seq<char>, n: u64)
    ensures
        preimage(domain, raw) == encode_utf8(domain) + be_bytes(encode_utf8(raw).len() as u64)
            + encode_utf8(raw),
        be_bytes(n).len() == 8,
        be_bytes(n)[7] == n % 256,
        be_bytes(n)[6] == n / 256 % 256,
        be_bytes(n)[5] == n / 65_536 % 256,
        be_bytes(n)[4] == n / 16_777_216 % 256,
        be_bytes(n)[3] == n / 4_294_967_296 % 256,
        be_bytes(n)[2] == n / 1_099_511_627_776 % 256,
        be_bytes(n)[1] == n / 281_474_976_710_656 % 256,
        be_bytes(n)[0] == n / 72_057_594_037_927_936 % 256,
{
}

/// A receipt says what was admitted, all of it, and where it came from.
pub proof fn law_a_receipt_says_what_was_admitted(
    receipt: ExecutionProvenanceReceipt,
    a: ResolvedExecutionAdmission,
)
    requires
        receipt.minted_from(a),
    ensures
        receipt.version == 1,
        receipt.parent == a.parent,
        receipt.execution == a.execution,
        receipt.durable == a.durable,
        receipt.mailbox == a.mailbox,
        receipt.authority == a.authority,
        receipt.workspace == a.workspace,
        receipt.origin == a.origin,
        receipt.terminal == a.terminal,
        is_scope_of(receipt.scope, a.session_id@),
        a.parent_rollout_id is None ==> receipt.rollout.parent_line is Unavailable,
        !(a.execution is Agent) ==> receipt.rollout.subagent_of is NotApplicable,
        a.execution is Agent && a.parent_rollout_id is None ==> receipt.rollout.subagent_of
            is Unavailable,
{
}

/// Evidence of a line is its number and the digest of its session; a line that cannot be
/// read is no evidence.
pub proof fn law_evidence_of_a_line(e: LineEvidence, session: Seq<char>, n: nat)
    requires
        is_evidence(e, Some(session + seq!['#'] + text::decimal(n))),
        session.len() > 0,
        1 <= n <= u64::MAX,
    ensures
        e is Available,
        e->Available_0.sequence == n,
        e->Available_0.session.text@ == digest::hex(
            digest::sha256_of(preimage("kloop-execution-rollout/v1\0"@, session)),
        ),
{
    law_how_a_line_is_named(session, n);
}

/// What a journal takes for evidence: an agent that a program or a workflow started and
/// waits for itself, of the run that is asked about where one is.
pub proof fn law_what_a_journal_takes_for_evidence(
    receipt: ExecutionProvenanceReceipt,
    expected: Option<Seq<char>>,
)
    ensures
        receipt.is_journal_evidence(expected) <==> {
            &&& receipt.parent is Some
            &&& receipt.execution is Agent
            &&& receipt.parent->0.execution is Program || receipt.parent->0.execution is Workflow
            &&& expected is Some ==> receipt.parent->0.durable is Some
                && receipt.parent->0.durable->0.text() == expected->0
            &&& receipt.terminal.owner == TerminalOwner::ForegroundCaller
            &&& receipt.terminal.delivery == DeliveryRoute::DirectToolResult
            &&& receipt.origin == AdmissionOrigin::RunAgent || receipt.origin
                == AdmissionOrigin::StructuredAgent
        },
{
}

/// The numbers on record are those of the attempts of the run's own kind, in order; one
/// attempt of another kind, or that could not be read, and there are none.
pub proof fn law_the_numbers_on_record(
    attempts: Seq<PersistedAttempt>,
    kind: ExecutionKind,
    n: nat,
)
    requires
        n <= attempts.len(),
    ensures
        attempt_numbers(attempts, kind, n) is Some <==> forall|i: int|
            0 <= i < n ==> (#[trigger] attempts[i]).decoded is Ok
                && attempts[i].decoded->Ok_0.execution.spec_kind() == kind,
        attempt_numbers(attempts, kind, n) matches Some(list) ==> list.len() == n && forall|i: int|
            0 <= i < n ==> #[trigger] list[i] == attempts[i].decoded->Ok_0.execution.number(),
    decreases n,
{
    if n > 0 {
        law_the_numbers_on_record(attempts, kind, (n - 1) as nat);
        assert(attempts[n - 1].decoded is Ok || attempts[n - 1].decoded is Err);
    }
}

/// The number of a run is the one that its id is written with.
pub proof fn law_the_number_of_a_run(execution: TransientExecutionId, n: nat)
    requires
        match execution {
            TransientExecutionId::Agent(id) => id.text() == "agent-"@ + text::decimal(n),
            TransientExecutionId::Program(id) => id.text() == "program-"@ + text::decimal(n),
            TransientExecutionId::Workflow(id) => id.text() == "workflow-"@ + text::decimal(n),
            TransientExecutionId::Shell(id) => id.text() == "bg-"@ + text::decimal(n),
        },
    ensures
        execution.number() == n,
{
    text::lemma_decimal_reads_back(n);
    let digits = text::decimal(n);
    assert(("agent-"@ + digits).skip("agent-"@.len() as int) =~= digits);
    assert(("program-"@ + digits).skip("program-"@.len() as int) =~= digits);
    assert(("workflow-"@ + digits).skip("workflow-"@.len() as int) =~= digits);
    assert(("bg-"@ + digits).skip("bg-"@.len() as int) =~= digits);
}

} // verus!
