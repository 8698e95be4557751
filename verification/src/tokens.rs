//! The token estimate that every context number of the session is built from.

use vstd::prelude::*;
use vstd::utf8::*;
use vstd::string::StringSliceAdditionalSpecFns;

use crate::json;

verus! {

/// A tool as the provider reads it. The schema is JSON text.
#[derive(Clone, Debug, PartialEq, Eq)]
pub struct ToolDef {
    pub name: String,
    pub description: String,
    pub schema: String,
}

#[verifier::ext_equal]
pub struct ToolView {
    pub name: Seq<char>,
    pub description: Seq<char>,
    pub schema: Seq<char>,
}

impl View for ToolDef {
    type V = ToolView;

    open spec fn view(&self) -> ToolView {
        ToolView { name: self.name@, description: self.description@, schema: self.schema@ }
    }
}

/// The view of a tool array.
pub open spec fn tool_views(v: Seq<ToolDef>) -> Seq<ToolView> {
    v.map_values(|t: ToolDef| t@)
}

/// An ASCII byte.
pub open spec fn is_ascii_byte(b: u8) -> bool {
    b <= 0x7f
}

/// The lead byte of a character of several bytes.
pub open spec fn is_lead_byte(b: u8) -> bool {
    b >= 0xc0
}

/// How many bytes are ASCII.
pub open spec fn ascii_bytes(bytes: Seq<u8>) -> nat
    decreases bytes.len(),
{
    if bytes.len() == 0 {
        0
    } else {
        ascii_bytes(bytes.drop_last()) + if is_ascii_byte(bytes.last()) {
            1nat
        } else {
            0nat
        }
    }
}

/// How many bytes begin a character of several bytes.
pub open spec fn lead_bytes(bytes: Seq<u8>) -> nat
    decreases bytes.len(),
{
    if bytes.len() == 0 {
        0
    } else {
        lead_bytes(bytes.drop_last()) + if is_lead_byte(bytes.last()) {
            1nat
        } else {
            0nat
        }
    }
}

/// A quarter token for each of `ascii` characters, rounded up, and a whole one
/// for each of `other`.
pub open spec fn quarter_tokens(ascii: nat, other: nat) -> nat {
    (ascii + 3) / 4 + other
}

/// The estimate over bytes.
pub open spec fn byte_tokens(bytes: Seq<u8>) -> nat {
    quarter_tokens(ascii_bytes(bytes), lead_bytes(bytes))
}

/// The ASCII characters of a text.
pub open spec fn ascii_chars(s: Seq<char>) -> nat
    decreases s.len(),
{
    if s.len() == 0 {
        0
    } else {
        (if (s[0] as u32) <= 0x7f {
            1nat
        } else {
            0nat
        }) + ascii_chars(s.drop_first())
    }
}

/// The estimate over a text: a quarter token per ASCII character, rounded up,
/// and one per other character.
pub open spec fn text_tokens(s: Seq<char>) -> nat {
    quarter_tokens(ascii_chars(s), (s.len() - ascii_chars(s)) as nat)
}

pub proof fn lemma_counts_bounded(bytes: Seq<u8>)
    ensures
        ascii_bytes(bytes) + lead_bytes(bytes) <= bytes.len(),
    decreases bytes.len(),
{
    if bytes.len() > 0 {
        lemma_counts_bounded(bytes.drop_last());
    }
}

pub proof fn lemma_counts_add(a: Seq<u8>, b: Seq<u8>)
    ensures
        ascii_bytes(a + b) == ascii_bytes(a) + ascii_bytes(b),
        lead_bytes(a + b) == lead_bytes(a) + lead_bytes(b),
    decreases b.len(),
{
    if b.len() == 0 {
        assert(a + b =~= a);
    } else {
        lemma_counts_add(a, b.drop_last());
        assert((a + b).drop_last() =~= a + b.drop_last());
    }
}

proof fn lemma_width_1(c: u32)
    by (bit_vector)
    requires
        c <= 0x7f,
    ensures
        (c & 0x7F) as u8 <= 0x7f,
{
}

proof fn lemma_lead_and_tail(c: u32)
    by (bit_vector)
    ensures
        (0xC0u8 | ((c >> 6) & 0x1F) as u8) >= 0xc0u8,
        (0xE0u8 | ((c >> 12) & 0x0F) as u8) >= 0xc0u8,
        (0xF0u8 | ((c >> 18) & 0x7) as u8) >= 0xc0u8,
        0x80u8 <= (0x80u8 | (c & 0x3F) as u8) <= 0xbfu8,
        0x80u8 <= (0x80u8 | ((c >> 6) & 0x3F) as u8) <= 0xbfu8,
        0x80u8 <= (0x80u8 | ((c >> 12) & 0x3F) as u8) <= 0xbfu8,
{
}

proof fn lemma_scalar_counts(c: char)
    ensures
        ascii_bytes(encode_scalar(c as u32)) == if (c as u32) <= 0x7f {
            1nat
        } else {
            0nat
        },
        lead_bytes(encode_scalar(c as u32)) == if (c as u32) <= 0x7f {
            0nat
        } else {
            1nat
        },
{
    let u = c as u32;
    char_is_scalar(c);
    lemma_lead_and_tail(u);
    reveal_with_fuel(ascii_bytes, 5);
    reveal_with_fuel(lead_bytes, 5);
    if has_width_1_encoding(u) {
        lemma_width_1(u);
    }
}

/// Counting the bytes of a text by their class counts its characters: the
/// ASCII ones, and the others once each.
pub proof fn lemma_text_counts(s: Seq<char>)
    ensures
        ascii_bytes(encode_utf8(s)) == ascii_chars(s),
        lead_bytes(encode_utf8(s)) + ascii_chars(s) == s.len(),
    decreases s.len(),
{
    if s.len() > 0 {
        lemma_text_counts(s.drop_first());
        lemma_scalar_counts(s[0]);
        lemma_counts_add(encode_scalar(s[0] as u32), encode_utf8(s.drop_first()));
    }
}

/// A counter that can be fed in chunks.
#[derive(Clone, Copy, Debug, PartialEq, Eq, Structural)]
pub struct TokenCounter {
    pub ascii: u64,
    pub other_chars: u64,
}

impl Default for TokenCounter {
    fn default() -> (r: Self)
        ensures
            r.ascii == 0,
            r.other_chars == 0,
    {
        TokenCounter { ascii: 0, other_chars: 0 }
    }
}

impl TokenCounter {
    /// Everything counted so far.
    pub open spec fn counted(self) -> nat {
        (self.ascii + self.other_chars) as nat
    }

    /// The estimate for what was counted.
    pub fn tokens(&self) -> (r: u64)
        requires
            self.counted() <= u64::MAX,
        ensures
            r == quarter_tokens(self.ascii as nat, self.other_chars as nat),
    {
        let quarters: u64 = if self.ascii % 4 == 0 {
            self.ascii / 4
        } else {
            self.ascii / 4 + 1
        };
        quarters + self.other_chars
    }

    /// Counts a chunk: each byte by its class alone, so a character split
    /// across chunks still counts once.
    pub fn write(&mut self, buf: &[u8])
        requires
            old(self).counted() + buf@.len() <= u64::MAX,
        ensures
            final(self).ascii == old(self).ascii + ascii_bytes(buf@),
            final(self).other_chars == old(self).other_chars + lead_bytes(buf@),
            final(self).counted() <= old(self).counted() + buf@.len(),
    {
        let ghost before = *self;
        let mut i: usize = 0;
        proof {
            assert(buf@.take(0) =~= Seq::<u8>::empty());
        }
        while i < buf.len()
            invariant
                i <= buf@.len(),
                before.counted() + buf@.len() <= u64::MAX,
                self.ascii == before.ascii + ascii_bytes(buf@.take(i as int)),
                self.other_chars == before.other_chars + lead_bytes(buf@.take(i as int)),
                self.counted() <= before.counted() + i,
            decreases buf@.len() - i,
        {
            let byte = buf[i];
            proof {
                assert(buf@.take(i + 1).drop_last() =~= buf@.take(i as int));
                assert(buf@.take(i + 1).last() == byte);
            }
            if byte <= 0x7f {
                self.ascii = self.ascii + 1;
            } else if byte >= 0xc0 {
                self.other_chars = self.other_chars + 1;
            }
            i += 1;
        }
        proof {
            assert(buf@.take(buf@.len() as int) =~= buf@);
        }
    }
}

/// The estimate for plain text: a system prompt, an injected message.
pub fn estimate_text_tokens(text: &str) -> (r: u64)
    ensures
        r == text_tokens(text@),
{
    let counter = count_text(text);
    counter.tokens()
}

/// The estimate for bytes: what a message serializes to in its
/// provider-visible form.
pub fn estimate_byte_tokens(bytes: &[u8]) -> (r: u64)
    ensures
        r == byte_tokens(bytes@),
{
    proof {
        lemma_counts_bounded(bytes@);
    }
    let len: usize = bytes.len();
    assert(bytes@.len() == len);
    let mut counter = TokenCounter::default();
    counter.write(bytes);
    counter.tokens()
}

/// The estimate for one message: its serialized role and content. A message
/// that does not serialize counts nothing. Internal replay provenance is not
/// part of that form.
pub fn estimate_message_tokens(form: Option<&[u8]>) -> (r: u64)
    ensures
        r == match form {
            Some(bytes) => byte_tokens(bytes@),
            None => 0,
        },
{
    match form {
        Some(bytes) => estimate_byte_tokens(bytes),
        None => 0,
    }
}

impl ToolDef {
    /// The schema as the provider reads it: compact JSON, nothing where the
    /// text is not JSON.
    pub open spec fn compact_schema(self) -> Seq<char> {
        match json::compact_form(self.schema@) {
            Some(compact) => compact,
            None => Seq::empty(),
        }
    }

    /// Name, description and schema, as one text.
    pub open spec fn visible(self) -> Seq<char> {
        self.name@ + self.description@ + self.compact_schema()
    }
}

/// The counts over one text.
fn count_text(text: &str) -> (r: TokenCounter)
    ensures
        r.ascii == ascii_chars(text@),
        r.ascii + r.other_chars == text@.len(),
        r.counted() <= u64::MAX,
{
    proof {
        lemma_text_counts(text@);
        lemma_counts_bounded(encode_utf8(text@));
    }
    let bytes = text.as_bytes();
    let len: usize = bytes.len();
    assert(bytes@.len() == len);
    let mut counter = TokenCounter::default();
    counter.write(bytes);
    counter
}

/// `n`, or `u64::MAX` where it is larger.
pub open spec fn saturated(n: nat) -> nat {
    if n <= u64::MAX {
        n
    } else {
        u64::MAX as nat
    }
}

/// The estimate for a tool's name, description and compact schema read as one
/// text. An estimate past `u64::MAX` stops there.
pub fn estimate_tool_parts_tokens(name: &str, description: &str, schema: &str) -> (r: u64)
    ensures
        r == saturated(text_tokens(name@ + description@ + schema@)),
{
    proof {
        lemma_ascii_chars_add(name@, description@);
        lemma_ascii_chars_add(name@ + description@, schema@);
    }
    let a = count_text(name);
    let b = count_text(description);
    let c = count_text(schema);
    let ascii: u128 = a.ascii as u128 + b.ascii as u128 + c.ascii as u128;
    let other: u128 = a.other_chars as u128 + b.other_chars as u128 + c.other_chars as u128;
    let tokens: u128 = (ascii + 3) / 4 + other;
    if tokens <= u64::MAX as u128 {
        tokens as u64
    } else {
        u64::MAX
    }
}

/// The estimate for one tool definition as the provider reads it: name,
/// description and serialized schema.
pub fn estimate_tool_def_tokens(tool: &ToolDef) -> (r: u64)
    ensures
        r == saturated(text_tokens(tool.visible())),
{
    let schema = match json::compact_json(tool.schema.as_str()) {
        Some(compact) => compact,
        None => String::new(),
    };
    proof {
        assert(schema@ =~= tool.compact_schema());
    }
    estimate_tool_parts_tokens(tool.name.as_str(), tool.description.as_str(), schema.as_str())
}

proof fn lemma_ascii_chars_add(a: Seq<char>, b: Seq<char>)
    ensures
        ascii_chars(a + b) == ascii_chars(a) + ascii_chars(b),
        ascii_chars(a) <= a.len(),
    decreases a.len(),
{
    if a.len() == 0 {
        assert(a + b =~= b);
    } else {
        lemma_ascii_chars_add(a.drop_first(), b);
        assert((a + b).drop_first() =~= a.drop_first() + b);
    }
}

// ---------------------------------------------------------------------------
// Laws
// ---------------------------------------------------------------------------

/// Feeding two chunks counts what feeding them as one would, wherever the cut
/// falls: also inside a character.
pub proof fn law_chunks_do_not_matter(a: Seq<u8>, b: Seq<u8>)
    ensures
        ascii_bytes(a + b) == ascii_bytes(a) + ascii_bytes(b),
        lead_bytes(a + b) == lead_bytes(a) + lead_bytes(b),
        byte_tokens(a + b) == quarter_tokens(
            ascii_bytes(a) + ascii_bytes(b),
            lead_bytes(a) + lead_bytes(b),
        ),
{
    lemma_counts_add(a, b);
}

/// The estimate over a text's UTF-8 bytes is the estimate over its characters.
pub proof fn law_bytes_estimate_characters(s: Seq<char>)
    ensures
        byte_tokens(encode_utf8(s)) == text_tokens(s),
{
    lemma_text_counts(s);
}

/// A text of ASCII characters costs a quarter of its length, rounded up; a
/// text without any costs its length.
pub proof fn law_uniform_texts(s: Seq<char>)
    ensures
        (forall|i: int| 0 <= i < s.len() ==> (#[trigger] s[i]) as u32 <= 0x7f) ==> text_tokens(s)
            == (s.len() + 3) / 4,
        (forall|i: int| 0 <= i < s.len() ==> (#[trigger] s[i]) as u32 > 0x7f) ==> text_tokens(s)
            == s.len(),
    decreases s.len(),
{
    if s.len() > 0 {
        let rest = s.drop_first();
        assert forall|i: int| 0 <= i < rest.len() implies rest[i] == s[i + 1] by {}
        law_uniform_texts(rest);
        lemma_ascii_chars_add(rest, seq![]);
        if forall|i: int| 0 <= i < s.len() ==> (#[trigger] s[i]) as u32 <= 0x7f {
            assert(forall|i: int| 0 <= i < rest.len() ==> (#[trigger] rest[i]) as u32 <= 0x7f);
            lemma_all_ascii(s);
        }
        if forall|i: int| 0 <= i < s.len() ==> (#[trigger] s[i]) as u32 > 0x7f {
            assert(forall|i: int| 0 <= i < rest.len() ==> (#[trigger] rest[i]) as u32 > 0x7f);
            lemma_none_ascii(s);
        }
    }
}

proof fn lemma_all_ascii(s: Seq<char>)
    requires
        forall|i: int| 0 <= i < s.len() ==> (#[trigger] s[i]) as u32 <= 0x7f,
    ensures
        ascii_chars(s) == s.len(),
    decreases s.len(),
{
    if s.len() > 0 {
        assert forall|i: int| 0 <= i < s.drop_first().len() implies (#[trigger] s.drop_first()[i]) as u32
            <= 0x7f by {
            assert(s.drop_first()[i] == s[i + 1]);
        }
        lemma_all_ascii(s.drop_first());
    }
}

proof fn lemma_none_ascii(s: Seq<char>)
    requires
        forall|i: int| 0 <= i < s.len() ==> (#[trigger] s[i]) as u32 > 0x7f,
    ensures
        ascii_chars(s) == 0,
    decreases s.len(),
{
    if s.len() > 0 {
        assert forall|i: int| 0 <= i < s.drop_first().len() implies (#[trigger] s.drop_first()[i]) as u32
            > 0x7f by {
            assert(s.drop_first()[i] == s[i + 1]);
        }
        lemma_none_ascii(s.drop_first());
    }
}

/// The order of the characters does not matter; four ASCII characters, or what is
/// left of four, are a token, and so is every other character.
pub proof fn law_every_character_counts(a: Seq<char>, b: Seq<char>, c: char)
    ensures
        ascii_chars(a + b) == ascii_chars(b + a),
        text_tokens(a + b) == text_tokens(b + a),
        ascii_chars(a.push(c)) == ascii_chars(a) + (if c as u32 <= 0x7f {
            1int
        } else {
            0int
        }),
        text_tokens(a) == (ascii_chars(a) + 3) / 4 + (a.len() - ascii_chars(a)),
{
    lemma_ascii_chars_add(a, b);
    lemma_ascii_chars_add(b, a);
    lemma_ascii_chars_add(a, seq![c]);
    assert(a.push(c) =~= a + seq![c]);
    reveal_with_fuel(ascii_chars, 2);
    assert(seq![c].drop_first() =~= Seq::<char>::empty());
}

/// A sum stops at the largest number that can be held.
pub proof fn law_a_sum_stops_at_the_largest(n: nat)
    ensures
        saturated(n) <= n,
        saturated(n) <= 18_446_744_073_709_551_615,
        saturated(n) == n || saturated(n) == 18_446_744_073_709_551_615,
        n <= 18_446_744_073_709_551_615 ==> saturated(n) == n,
{
}

} // verus!
