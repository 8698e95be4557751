//! Text as sequences of characters: splitting, joining, trimming and decimal
//! numbers.

use vstd::prelude::*;

verus! {

/// `String::push` appends one character at the end.
pub assume_specification[ String::push ](s: &mut String, c: char)
    ensures
        final(s)@ == old(s)@.push(c),
;

// ---------------------------------------------------------------------------
// Models
// ---------------------------------------------------------------------------

/// The characters of Unicode's `White_Space` property.
pub open spec fn white_space(c: char) -> bool {
    ||| 0x9 <= c as u32 <= 0xd
    ||| c as u32 == 0x20
    ||| c as u32 == 0x85
    ||| c as u32 == 0xa0
    ||| c as u32 == 0x1680
    ||| 0x2000 <= c as u32 <= 0x200a
    ||| c as u32 == 0x2028
    ||| c as u32 == 0x2029
    ||| c as u32 == 0x202f
    ||| c as u32 == 0x205f
    ||| c as u32 == 0x3000
}

/// Nothing but white space (the empty text counts).
pub open spec fn blank(s: Seq<char>) -> bool {
    forall|i: int| 0 <= i < s.len() ==> white_space(#[trigger] s[i])
}

/// The text without its leading white space.
pub open spec fn trim_start(s: Seq<char>) -> Seq<char>
    decreases s.len(),
{
    if s.len() > 0 && white_space(s[0]) {
        trim_start(s.drop_first())
    } else {
        s
    }
}

/// The text without its trailing white space.
pub open spec fn trim_end(s: Seq<char>) -> Seq<char>
    decreases s.len(),
{
    if s.len() > 0 && white_space(s.last()) {
        trim_end(s.drop_last())
    } else {
        s
    }
}

/// The text without white space at either end.
pub open spec fn trim(s: Seq<char>) -> Seq<char> {
    trim_end(trim_start(s))
}

/// The pieces of `s` between occurrences of `at`: always at least one.
pub open spec fn split(s: Seq<char>, at: char) -> Seq<Seq<char>>
    decreases s.len(),
{
    if s.len() == 0 {
        seq![Seq::<char>::empty()]
    } else {
        let before = split(s.drop_last(), at);
        if s.last() == at {
            before.push(Seq::<char>::empty())
        } else {
            before.update(before.len() - 1, before.last().push(s.last()))
        }
    }
}

/// The parts in order, with `sep` between neighbours.
pub open spec fn join(parts: Seq<Seq<char>>, sep: Seq<char>) -> Seq<char>
    decreases parts.len(),
{
    if parts.len() == 0 {
        Seq::empty()
    } else if parts.len() == 1 {
        parts[0]
    } else {
        join(parts.drop_last(), sep) + sep + parts.last()
    }
}

/// The first complaint, where there is one.
pub open spec fn first(a: Option<Seq<char>>, b: Option<Seq<char>>) -> Option<Seq<char>> {
    if a is Some {
        a
    } else {
        b
    }
}

/// The view of a vector of owned texts.
pub open spec fn texts(v: Seq<String>) -> Seq<Seq<char>> {
    v.map_values(|s: String| s@)
}

/// Whether `s` begins with `prefix`.
pub open spec fn starts_with(s: Seq<char>, prefix: Seq<char>) -> bool {
    prefix.len() <= s.len() && s.take(prefix.len() as int) == prefix
}

/// Whether `s` ends with `suffix`.
pub open spec fn ends_with(s: Seq<char>, suffix: Seq<char>) -> bool {
    suffix.len() <= s.len() && s.skip(s.len() - suffix.len()) == suffix
}

/// The decimal digit of value `d`.
pub open spec fn digit(d: nat) -> char {
    (0x30 + d) as char
}

/// `n` in decimal, without leading zeros.
pub open spec fn decimal(n: nat) -> Seq<char>
    decreases n,
{
    if n < 10 {
        seq![digit(n)]
    } else {
        decimal(n / 10).push(digit(n % 10))
    }
}

/// Whether `c` is an ASCII decimal digit.
pub open spec fn is_digit(c: char) -> bool {
    0x30 <= c as u32 <= 0x39
}

/// Whether every character is an ASCII decimal digit.
pub open spec fn all_digits(s: Seq<char>) -> bool {
    forall|i: int| 0 <= i < s.len() ==> is_digit(#[trigger] s[i])
}

/// The value of a run of decimal digits.
pub open spec fn digits_value(s: Seq<char>) -> nat
    decreases s.len(),
{
    if s.len() == 0 {
        0
    } else {
        digits_value(s.drop_last()) * 10 + (s.last() as u32 - 0x30) as nat
    }
}

/// The digits of an unsigned number: what follows one optional `+`.
pub open spec fn unsigned_digits(s: Seq<char>) -> Seq<char> {
    if s.len() > 0 && s[0] == '+' {
        s.drop_first()
    } else {
        s
    }
}

/// The number that `s` spells, where it spells one no larger than `max`.
pub open spec fn parse_unsigned(s: Seq<char>, max: nat) -> Option<nat> {
    let d = unsigned_digits(s);
    if d.len() > 0 && all_digits(d) && digits_value(d) <= max {
        Some(digits_value(d))
    } else {
        None
    }
}

// ---------------------------------------------------------------------------
// Facts
// ---------------------------------------------------------------------------

pub proof fn lemma_split_nonempty(s: Seq<char>, at: char)
    ensures
        split(s, at).len() > 0,
    decreases s.len(),
{
    if s.len() > 0 {
        lemma_split_nonempty(s.drop_last(), at);
    }
}

/// No piece holds the character that was split at.
pub proof fn lemma_split_free(s: Seq<char>, at: char)
    ensures
        forall|i: int| 0 <= i < split(s, at).len() ==> !(#[trigger] split(s, at)[i]).contains(at),
    decreases s.len(),
{
    if s.len() > 0 {
        let before = split(s.drop_last(), at);
        lemma_split_free(s.drop_last(), at);
        lemma_split_nonempty(s.drop_last(), at);
        let now = split(s, at);
        assert forall|i: int| 0 <= i < now.len() implies !(#[trigger] now[i]).contains(at) by {
            if s.last() == at {
                if i < before.len() {
                    assert(now[i] == before[i]);
                }
            } else if i == before.len() - 1 {
                assert(!before[i].contains(at));
                assert forall|k: int| 0 <= k < now[i].len() implies now[i][k] != at by {
                    if k < before[i].len() {
                        assert(now[i][k] == before[i][k]);
                        assert(before[i].contains(before[i][k]));
                    }
                }
            } else {
                assert(now[i] == before[i]);
            }
        }
    }
}

/// Splitting after one more piece without the separator appends that piece.
pub proof fn lemma_split_append(s: Seq<char>, piece: Seq<char>, at: char)
    requires
        !piece.contains(at),
    ensures
        split(s + seq![at] + piece, at) == split(s, at).push(piece),
    decreases piece.len(),
{
    let whole = s + seq![at] + piece;
    if piece.len() == 0 {
        assert(whole.drop_last() =~= s);
        assert(piece =~= Seq::<char>::empty());
    } else {
        let shorter = piece.drop_last();
        assert(!shorter.contains(at)) by {
            if shorter.contains(at) {
                let k = choose|k: int| 0 <= k < shorter.len() && shorter[k] == at;
                assert(piece[k] == at);
            }
        }
        lemma_split_append(s, shorter, at);
        assert(whole.drop_last() =~= s + seq![at] + shorter);
        assert(whole.last() == piece.last());
        assert(piece.contains(piece.last()));
        let before = split(s, at).push(shorter);
        assert(before.update(before.len() - 1, before.last().push(piece.last())) =~= split(
            s,
            at,
        ).push(piece)) by {
            assert(shorter.push(piece.last()) =~= piece);
        }
    }
}

/// A text without the separator is one piece.
pub proof fn lemma_split_single(piece: Seq<char>, at: char)
    requires
        !piece.contains(at),
    ensures
        split(piece, at) == seq![piece],
    decreases piece.len(),
{
    if piece.len() == 0 {
        assert(piece =~= Seq::<char>::empty());
        assert(split(piece, at) =~= seq![piece]);
    } else {
        let shorter = piece.drop_last();
        assert(!shorter.contains(at)) by {
            if shorter.contains(at) {
                let k = choose|k: int| 0 <= k < shorter.len() && shorter[k] == at;
                assert(piece[k] == at);
            }
        }
        lemma_split_single(shorter, at);
        assert(piece.contains(piece.last()));
        assert(shorter.push(piece.last()) =~= piece);
        assert(split(piece, at) =~= seq![piece]);
    }
}

/// Joining pieces that do not hold the separator and splitting again gives
/// the pieces back.
pub proof fn lemma_split_join(parts: Seq<Seq<char>>, at: char)
    requires
        parts.len() > 0,
        forall|i: int| 0 <= i < parts.len() ==> !(#[trigger] parts[i]).contains(at),
    ensures
        split(join(parts, seq![at]), at) == parts,
    decreases parts.len(),
{
    if parts.len() == 1 {
        lemma_split_single(parts[0], at);
        assert(parts =~= seq![parts[0]]);
    } else {
        lemma_split_join(parts.drop_last(), at);
        lemma_split_append(join(parts.drop_last(), seq![at]), parts.last(), at);
        assert(parts.drop_last().push(parts.last()) =~= parts);
    }
}

/// Splitting and joining again gives the text back.
pub proof fn lemma_join_split(s: Seq<char>, at: char)
    ensures
        join(split(s, at), seq![at]) == s,
    decreases s.len(),
{
    if s.len() == 0 {
        assert(s =~= Seq::<char>::empty());
    } else {
        let before = split(s.drop_last(), at);
        lemma_join_split(s.drop_last(), at);
        lemma_split_nonempty(s.drop_last(), at);
        if s.last() == at {
            let now = before.push(Seq::<char>::empty());
            assert(now.drop_last() =~= before);
            assert(join(now, seq![at]) =~= s);
        } else {
            let last = before.last().push(s.last());
            let now = before.update(before.len() - 1, last);
            assert(now.drop_last() =~= before.drop_last());
            assert(now.last() == last);
            if before.len() == 1 {
                assert(join(now, seq![at]) == last);
                assert(join(before, seq![at]) == before[0]);
                assert(last =~= s);
            } else {
                assert(join(now, seq![at]) =~= join(before, seq![at]).push(s.last()));
                assert(s =~= s.drop_last().push(s.last()));
            }
        }
    }
}

/// Appending a piece at the end of a joined list.
pub proof fn lemma_join_push(parts: Seq<Seq<char>>, sep: Seq<char>, piece: Seq<char>)
    ensures
        parts.len() > 0 ==> join(parts.push(piece), sep) == join(parts, sep) + sep + piece,
        parts.len() == 0 ==> join(parts.push(piece), sep) == piece,
{
    assert(parts.push(piece).drop_last() =~= parts);
}

pub proof fn lemma_trim_start_blank(s: Seq<char>)
    ensures
        trim_start(s).len() == 0 <==> blank(s),
        trim_start(s).len() <= s.len(),
        trim_start(s) == s.skip(s.len() - trim_start(s).len()),
        blank(s.take(s.len() - trim_start(s).len())),
    decreases s.len(),
{
    if s.len() > 0 && white_space(s[0]) {
        let rest = s.drop_first();
        lemma_trim_start_blank(rest);
        if blank(rest) {
            assert forall|i: int| 0 <= i < s.len() implies white_space(#[trigger] s[i]) by {
                if i > 0 {
                    assert(rest[i - 1] == s[i]);
                }
            }
        }
        if blank(s) {
            assert forall|i: int| 0 <= i < rest.len() implies white_space(#[trigger] rest[i]) by {
                assert(rest[i] == s[i + 1]);
            }
        }
        let n = s.len() - trim_start(s).len();
        assert(trim_start(s) =~= s.skip(n));
        assert forall|i: int| 0 <= i < n implies white_space(#[trigger] s.take(n)[i]) by {
            if i > 0 {
                assert(rest.take(n - 1)[i - 1] == s[i]);
            }
        }
    } else {
        assert(s.skip(0) =~= s);
        if s.len() > 0 {
            assert(!white_space(s[0]));
        }
    }
}

pub proof fn lemma_trim_end_blank(s: Seq<char>)
    ensures
        trim_end(s).len() == 0 <==> blank(s),
        trim_end(s).len() <= s.len(),
        trim_end(s) == s.take(trim_end(s).len() as int),
    decreases s.len(),
{
    if s.len() > 0 && white_space(s.last()) {
        let rest = s.drop_last();
        lemma_trim_end_blank(rest);
        if blank(rest) {
            assert forall|i: int| 0 <= i < s.len() implies white_space(#[trigger] s[i]) by {
                if i < rest.len() {
                    assert(rest[i] == s[i]);
                }
            }
        }
        if blank(s) {
            assert forall|i: int| 0 <= i < rest.len() implies white_space(#[trigger] rest[i]) by {
                assert(rest[i] == s[i]);
            }
        }
        assert(trim_end(s) =~= s.take(trim_end(s).len() as int));
    } else {
        assert(s.take(s.len() as int) =~= s);
        if s.len() > 0 {
            assert(!white_space(s[s.len() - 1]));
        }
    }
}

/// A text trims to nothing exactly when it is blank.
pub proof fn lemma_trim_blank(s: Seq<char>)
    ensures
        trim(s).len() == 0 <==> blank(s),
        trim(s).len() <= s.len(),
{
    lemma_trim_start_blank(s);
    lemma_trim_end_blank(trim_start(s));
    let t = trim_start(s);
    if blank(t) && t.len() > 0 {
        assert forall|i: int| 0 <= i < s.len() implies white_space(#[trigger] s[i]) by {
            let n = s.len() - t.len();
            if i < n {
                assert(s.take(n)[i] == s[i]);
            } else {
                assert(t[i - n] == s[i]);
            }
        }
    }
}

/// A number written in decimal reads back as itself, without a `+`.
pub proof fn lemma_decimal_reads_back(n: nat)
    ensures
        decimal(n).len() > 0,
        all_digits(decimal(n)),
        digits_value(decimal(n)) == n,
        unsigned_digits(decimal(n)) == decimal(n),
    decreases n,
{
    reveal_with_fuel(digits_value, 2);
    if n < 10 {
        assert(decimal(n).drop_last() =~= Seq::<char>::empty());
    } else {
        lemma_decimal_reads_back(n / 10);
        let d = decimal(n);
        assert(d.drop_last() =~= decimal(n / 10));
        assert forall|i: int| 0 <= i < d.len() implies is_digit(#[trigger] d[i]) by {
            if i < d.len() - 1 {
                assert(d[i] == decimal(n / 10)[i]);
            }
        }
    }
    assert(is_digit(decimal(n)[0]));
}

/// Parsing the decimal form of a number that fits gives the number.
pub proof fn lemma_parse_decimal(n: nat, max: nat)
    requires
        n <= max,
    ensures
        parse_unsigned(decimal(n), max) == Some(n),
{
    lemma_decimal_reads_back(n);
}

/// A longer number has at least as many digits.
pub proof fn lemma_decimal_len(n: nat, k: nat)
    requires
        k > 0,
        n < vstd::arithmetic::power::pow(10, k),
    ensures
        decimal(n).len() <= k,
    decreases k,
{
    vstd::arithmetic::power::lemma_pow1(10);
    if n >= 10 {
        if k == 1 {
        } else {
            vstd::arithmetic::power::lemma_pow_adds(10, 1, (k - 1) as nat);
            assert(n / 10 < vstd::arithmetic::power::pow(10, (k - 1) as nat)) by (nonlinear_arith)
                requires
                    n < vstd::arithmetic::power::pow(10, k),
                    vstd::arithmetic::power::pow(10, k) == 10 * vstd::arithmetic::power::pow(
                        10,
                        (k - 1) as nat,
                    ),
            ;
            lemma_decimal_len(n / 10, (k - 1) as nat);
        }
    }
}

// ---------------------------------------------------------------------------
// Executable text
// ---------------------------------------------------------------------------

/// Appends a text to a list of texts.
pub fn push_text(list: &mut Vec<String>, s: String)
    ensures
        texts(final(list)@) == texts(old(list)@).push(s@),
        final(list)@.len() == old(list)@.len() + 1,
{
    list.push(s);
    proof {
        assert(texts(list@) =~= texts(old(list)@).push(s@));
    }
}

/// The characters of a text.
pub fn chars_of(s: &str) -> (r: Vec<char>)
    ensures
        r@ == s@,
{
    let mut out: Vec<char> = Vec::new();
    for c in it: s.chars()
        invariant
            it.seq() == s@,
            out@ == it.seq().take(it.index() as int),
    {
        proof {
            assert(it.seq().take(it.index() + 1) =~= it.seq().take(it.index() as int).push(c));
        }
        out.push(c);
    }
    proof {
        assert(s@.take(s@.len() as int) =~= s@);
    }
    out
}

/// The text made of characters `from..to`.
pub fn text_of(chars: &Vec<char>, from: usize, to: usize) -> (r: String)
    requires
        from <= to <= chars@.len(),
    ensures
        r@ == chars@.subrange(from as int, to as int),
{
    let mut out = String::new();
    let mut i: usize = from;
    while i < to
        invariant
            from <= i <= to <= chars@.len(),
            out@ == chars@.subrange(from as int, i as int),
        decreases to - i,
    {
        out.push(chars[i]);
        i += 1;
        proof {
            assert(chars@.subrange(from as int, i as int) =~= chars@.subrange(
                from as int,
                i - 1,
            ).push(chars@[i - 1]));
        }
    }
    out
}

/// The number of characters of a text.
pub fn char_count(s: &str) -> (r: usize)
    ensures
        r == s@.len(),
{
    s.unicode_len()
}

/// Whether two texts hold the same characters.
pub fn same(a: &str, b: &str) -> (r: bool)
    ensures
        r == (a@ == b@),
{
    let x = chars_of(a);
    let y = chars_of(b);
    if x.len() != y.len() {
        return false;
    }
    let mut i: usize = 0;
    while i < x.len()
        invariant
            x@ == a@,
            y@ == b@,
            x.len() == y.len(),
            i <= x.len(),
            forall|k: int| 0 <= k < i ==> x@[k] == y@[k],
        decreases x.len() - i,
    {
        if x[i] != y[i] {
            return false;
        }
        i += 1;
    }
    proof {
        assert(a@ =~= b@);
    }
    true
}

/// Whether `c` is white space.
pub fn is_white_space(c: char) -> (r: bool)
    ensures
        r == white_space(c),
{
    let u = c as u32;
    (0x9 <= u && u <= 0xd) || u == 0x20 || u == 0x85 || u == 0xa0 || u == 0x1680 || (0x2000 <= u
        && u <= 0x200a) || u == 0x2028 || u == 0x2029 || u == 0x202f || u == 0x205f || u == 0x3000
}

/// Whether the text holds nothing but white space.
pub fn is_blank(s: &str) -> (r: bool)
    ensures
        r == blank(s@),
        r == (trim(s@).len() == 0),
{
    proof {
        lemma_trim_blank(s@);
    }
    let chars = chars_of(s);
    let mut i: usize = 0;
    while i < chars.len()
        invariant
            chars@ == s@,
            i <= chars.len(),
            forall|k: int| 0 <= k < i ==> white_space(#[trigger] s@[k]),
            trim(s@).len() == 0 <==> blank(s@),
        decreases chars.len() - i,
    {
        if !is_white_space(chars[i]) {
            proof {
                assert(!white_space(s@[i as int]));
            }
            return false;
        }
        i += 1;
    }
    true
}

/// The text without white space at either end.
pub fn trimmed(s: &str) -> (r: String)
    ensures
        r@ == trim(s@),
{
    let chars = chars_of(s);
    let mut from: usize = 0;
    proof {
        assert(s@.skip(0) =~= s@);
    }
    while from < chars.len() && is_white_space(chars[from])
        invariant
            chars@ == s@,
            from <= chars.len(),
            trim_start(s@) == trim_start(s@.skip(from as int)),
        decreases chars.len() - from,
    {
        proof {
            assert(s@.skip(from as int).drop_first() =~= s@.skip(from + 1));
        }
        from += 1;
    }
    proof {
        assert(trim_start(s@) == s@.skip(from as int));
    }
    let mut to: usize = chars.len();
    proof {
        assert(s@.subrange(from as int, to as int) =~= s@.skip(from as int));
    }
    while from < to && is_white_space(chars[to - 1])
        invariant
            chars@ == s@,
            from <= to <= chars.len(),
            trim(s@) == trim_end(s@.subrange(from as int, to as int)),
        decreases to - from,
    {
        proof {
            assert(s@.subrange(from as int, to as int).drop_last() =~= s@.subrange(
                from as int,
                to - 1,
            ));
        }
        to -= 1;
    }
    text_of(&chars, from, to)
}

/// The pieces of the text between occurrences of `at`.
pub fn split_at_char(s: &str, at: char) -> (r: Vec<String>)
    ensures
        texts(r@) == split(s@, at),
{
    let chars = chars_of(s);
    let mut out: Vec<String> = Vec::new();
    let mut piece = String::new();
    let mut i: usize = 0;
    proof {
        assert(s@.take(0) =~= Seq::<char>::empty());
        assert(texts(out@).push(piece@) =~= split(s@.take(0), at));
    }
    while i < chars.len()
        invariant
            chars@ == s@,
            i <= chars.len(),
            texts(out@).push(piece@) == split(s@.take(i as int), at),
        decreases chars.len() - i,
    {
        let ghost before = texts(out@).push(piece@);
        proof {
            assert(s@.take(i + 1).drop_last() =~= s@.take(i as int));
            assert(s@.take(i + 1).last() == s@[i as int]);
        }
        if chars[i] == at {
            let ghost old_out = out@;
            let ghost old_piece = piece;
            out.push(piece);
            piece = String::new();
            proof {
                assert(texts(out@) =~= texts(old_out).push(old_piece@));
                assert(piece@ =~= Seq::<char>::empty());
            }
        } else {
            piece.push(chars[i]);
            proof {
                assert(texts(out@).push(piece@) =~= before.update(
                    before.len() - 1,
                    before.last().push(s@[i as int]),
                ));
            }
        }
        i += 1;
    }
    proof {
        assert(s@.take(s@.len() as int) =~= s@);
    }
    let ghost old_out = out@;
    let ghost last = piece@;
    out.push(piece);
    proof {
        assert(texts(out@) =~= texts(old_out).push(last));
    }
    out
}

/// The parts joined with `sep` between neighbours.
pub fn joined(parts: &Vec<String>, sep: &str) -> (r: String)
    ensures
        r@ == join(texts(parts@), sep@),
{
    let mut out = String::new();
    let mut i: usize = 0;
    proof {
        assert(texts(parts@).take(0) =~= Seq::<Seq<char>>::empty());
        assert(out@ =~= Seq::<char>::empty());
    }
    while i < parts.len()
        invariant
            i <= parts.len(),
            out@ == join(texts(parts@).take(i as int), sep@),
        decreases parts.len() - i,
    {
        proof {
            lemma_join_push(texts(parts@).take(i as int), sep@, parts@[i as int]@);
            assert(texts(parts@).take(i + 1) =~= texts(parts@).take(i as int).push(
                parts@[i as int]@,
            ));
        }
        if i > 0 {
            out.append(sep);
        }
        let ghost so_far = out@;
        out.append(parts[i].as_str());
        proof {
            if i == 0 {
                assert(so_far + parts@[0]@ =~= parts@[0]@);
            }
        }
        i += 1;
    }
    proof {
        assert(texts(parts@).take(parts@.len() as int) =~= texts(parts@));
    }
    out
}

/// Whether `s` begins with `prefix`.
pub fn has_prefix(s: &str, prefix: &str) -> (r: bool)
    ensures
        r == starts_with(s@, prefix@),
{
    let chars = chars_of(s);
    let head = chars_of(prefix);
    if head.len() > chars.len() {
        return false;
    }
    let mut i: usize = 0;
    while i < head.len()
        invariant
            chars@ == s@,
            head@ == prefix@,
            head.len() <= chars.len(),
            i <= head.len(),
            forall|k: int| 0 <= k < i ==> s@[k] == prefix@[k],
        decreases head.len() - i,
    {
        if chars[i] != head[i] {
            proof {
                assert(s@.take(prefix@.len() as int)[i as int] != prefix@[i as int]);
            }
            return false;
        }
        i += 1;
    }
    proof {
        assert(s@.take(prefix@.len() as int) =~= prefix@);
    }
    true
}

/// What follows `prefix`, where `s` begins with it.
pub fn strip_prefix(s: &str, prefix: &str) -> (r: Option<String>)
    ensures
        match r {
            Some(rest) => starts_with(s@, prefix@) && rest@ == s@.skip(prefix@.len() as int),
            None => !starts_with(s@, prefix@),
        },
{
    if has_prefix(s, prefix) {
        let chars = chars_of(s);
        let n = char_count(prefix);
        proof {
            assert(s@.subrange(n as int, s@.len() as int) =~= s@.skip(n as int));
        }
        Some(text_of(&chars, n, chars.len()))
    } else {
        None
    }
}

/// What precedes `suffix`, where `s` ends with it.
pub fn strip_suffix(s: &str, suffix: &str) -> (r: Option<String>)
    ensures
        match r {
            Some(rest) => ends_with(s@, suffix@) && rest@ == s@.take(s@.len() - suffix@.len()),
            None => !ends_with(s@, suffix@),
        },
{
    let chars = chars_of(s);
    let tail = chars_of(suffix);
    if tail.len() > chars.len() {
        return None;
    }
    let from = chars.len() - tail.len();
    let rest = text_of(&chars, from, chars.len());
    proof {
        assert(s@.subrange(from as int, s@.len() as int) =~= s@.skip(from as int));
        assert(s@.subrange(0, from as int) =~= s@.take(from as int));
    }
    if same(rest.as_str(), suffix) {
        Some(text_of(&chars, 0, from))
    } else {
        None
    }
}

fn digit_char(d: u64) -> (c: char)
    requires
        d < 10,
    ensures
        c == digit(d as nat),
{
    (0x30u8 + d as u8) as char
}

/// `n` in decimal.
pub fn decimal_text(n: u64) -> (r: String)
    ensures
        r@ == decimal(n as nat),
    decreases n,
{
    if n < 10 {
        let mut out = String::new();
        out.push(digit_char(n));
        proof {
            assert(out@ =~= decimal(n as nat));
        }
        out
    } else {
        let mut out = decimal_text(n / 10);
        out.push(digit_char(n % 10));
        out
    }
}

/// The number that `s` spells: decimal digits after one optional `+`, no
/// larger than `max`.
pub fn parse_number(s: &str, max: u64) -> (r: Option<u64>)
    ensures
        match r {
            Some(n) => parse_unsigned(s@, max as nat) == Some(n as nat),
            None => parse_unsigned(s@, max as nat) is None,
        },
{
    let chars = chars_of(s);
    let start: usize = if chars.len() > 0 && chars[0] == '+' {
        1
    } else {
        0
    };
    let ghost d = unsigned_digits(s@);
    proof {
        assert(d =~= s@.skip(start as int));
    }
    if start == chars.len() {
        return None;
    }
    let mut i: usize = start;
    let mut value: u64 = 0;
    proof {
        assert(d.take(0) =~= Seq::<char>::empty());
    }
    while i < chars.len()
        invariant
            chars@ == s@,
            start <= i <= chars.len(),
            start <= 1,
            d == s@.skip(start as int),
            d == unsigned_digits(s@),
            value == digits_value(d.take(i - start)),
            value <= max,
            forall|k: int| 0 <= k < i - start ==> is_digit(#[trigger] d[k]),
        decreases chars.len() - i,
    {
        let u = chars[i] as u32;
        proof {
            assert(d[i - start] == s@[i as int]);
            assert(d.take(i - start + 1).drop_last() =~= d.take(i - start));
            assert(d.take(i - start + 1).last() == s@[i as int]);
        }
        if u < 0x30 || u > 0x39 {
            proof {
                assert(!is_digit(d[i - start]));
            }
            return None;
        }
        let add = (u - 0x30) as u64;
        if value > max / 10 || add > max - value * 10 {
            proof {
                lemma_digits_value_monotonic(d, i - start + 1);
            }
            return None;
        }
        value = value * 10 + add;
        i += 1;
    }
    proof {
        assert(d.take(d.len() as int) =~= d);
    }
    Some(value)
}

proof fn lemma_digits_value_monotonic(d: Seq<char>, k: int)
    requires
        0 <= k <= d.len(),
    ensures
        digits_value(d.take(k)) <= digits_value(d),
    decreases d.len() - k,
{
    if k == d.len() {
        assert(d.take(k) =~= d);
    } else {
        lemma_digits_value_monotonic(d, k + 1);
        assert(d.take(k + 1).drop_last() =~= d.take(k));
    }
}

/// The words of a text: its longest runs without white space.
pub open spec fn words(s: Seq<char>) -> Seq<Seq<char>>
    decreases s.len(),
{
    if s.len() == 0 {
        Seq::empty()
    } else {
        let before = words(s.drop_last());
        if white_space(s.last()) {
            before
        } else if s.len() == 1 || white_space(s[s.len() - 2]) {
            before.push(seq![s.last()])
        } else {
            before.drop_last().push(before.last().push(s.last()))
        }
    }
}

/// The words of a text.
pub fn words_of(s: &str) -> (r: Vec<String>)
    ensures
        texts(r@) == words(s@),
{
    let chars = chars_of(s);
    let mut out: Vec<String> = Vec::new();
    let mut word = String::new();
    let mut open = false;
    let mut i: usize = 0;
    proof {
        assert(texts(out@) =~= words(s@.take(0)));
    }
    while i < chars.len()
        invariant
            i <= chars@.len(),
            chars@ == s@,
            open == (i > 0 && !white_space(s@[i - 1])),
            words(s@.take(i as int)) == if open {
                texts(out@).push(word@)
            } else {
                texts(out@)
            },
        decreases chars@.len() - i,
    {
        let c = chars[i];
        let ghost before = s@.take(i as int);
        let ghost now = s@.take(i as int + 1);
        proof {
            assert(now.drop_last() =~= before);
            assert(now.last() == c);
            if i > 0 {
                assert(now[now.len() - 2] == s@[i - 1]);
            }
        }
        if is_white_space(c) {
            if open {
                push_text(&mut out, word);
                word = String::new();
                open = false;
            }
        } else if open {
            let ghost spoken = words(before);
            proof {
                assert(spoken.drop_last() =~= texts(out@));
                assert(spoken.last() == word@);
            }
            word.push(c);
        } else {
            word = String::new();
            word.push(c);
            open = true;
            proof {
                assert(word@ =~= seq![c]);
            }
        }
        i += 1;
    }
    proof {
        assert(s@.take(i as int) =~= s@);
    }
    if open {
        push_text(&mut out, word);
    }
    out
}

/// An ASCII letter in lower case; any other character as it is.
pub open spec fn lower_char(c: char) -> char {
    if 'A' <= c && c <= 'Z' {
        ((c as u32 + 32) as u32) as char
    } else {
        c
    }
}

/// A text with its ASCII letters in lower case.
pub open spec fn lower(s: Seq<char>) -> Seq<char> {
    s.map_values(|c: char| lower_char(c))
}

fn lowered_char(c: char) -> (r: char)
    ensures
        r == lower_char(c),
{
    if 'A' <= c && c <= 'Z' {
        ((c as u8) + 32) as char
    } else {
        c
    }
}

/// A text with its ASCII letters in lower case.
pub fn lowered(s: &str) -> (r: String)
    ensures
        r@ == lower(s@),
{
    let chars = chars_of(s);
    let mut out = String::new();
    let mut i: usize = 0;
    proof {
        assert(out@ =~= lower(s@.take(0)));
    }
    while i < chars.len()
        invariant
            i <= chars@.len(),
            chars@ == s@,
            out@ == lower(s@.take(i as int)),
        decreases chars@.len() - i,
    {
        out.push(lowered_char(chars[i]));
        i += 1;
        proof {
            assert(out@ =~= lower(s@.take(i as int)));
        }
    }
    proof {
        assert(s@.take(i as int) =~= s@);
    }
    out
}

// ---------------------------------------------------------------------------
// Laws
// ---------------------------------------------------------------------------

/// Trimming takes white space off both ends and nothing else: what is left is a
/// stretch of the text that neither begins nor ends with white space.
pub proof fn law_trimming_takes_only_the_ends(s: Seq<char>)
    ensures
        exists|i: int, j: int|
            0 <= i <= j <= s.len() && trim(s) == #[trigger] s.subrange(i, j) && (forall|k: int|
                0 <= k < s.len() && !(i <= k < j) ==> white_space(#[trigger] s[k])),
        trim(s).len() > 0 ==> !white_space(trim(s)[0]) && !white_space(trim(s).last()),
{
    lemma_trim_start_blank(s);
    let t = trim_start(s);
    lemma_trim_end_rest(t);
    lemma_trim_end_blank(t);
    lemma_trim_start_rest(s);
    let i = s.len() - t.len();
    let j = i + trim(s).len();
    assert(trim(s) =~= s.subrange(i, j));
    assert forall|k: int| 0 <= k < s.len() && !(i <= k < j) implies white_space(
        #[trigger] s[k],
    ) by {
        if k < i {
            assert(s.take(i)[k] == s[k]);
        } else {
            assert(t[k - i] == s[k]);
        }
    }
    if trim(s).len() > 0 {
        assert(trim(s)[0] == t[0]);
    }
}

proof fn lemma_trim_start_rest(s: Seq<char>)
    ensures
        trim_start(s).len() > 0 ==> !white_space(trim_start(s)[0]),
    decreases s.len(),
{
    if s.len() > 0 && white_space(s[0]) {
        lemma_trim_start_rest(s.drop_first());
    }
}

proof fn lemma_trim_end_rest(s: Seq<char>)
    ensures
        trim_end(s).len() <= s.len(),
        trim_end(s).len() > 0 ==> !white_space(trim_end(s).last()),
        forall|k: int| trim_end(s).len() <= k < s.len() ==> white_space(#[trigger] s[k]),
    decreases s.len(),
{
    if s.len() > 0 && white_space(s.last()) {
        let front = s.drop_last();
        lemma_trim_end_rest(front);
        assert forall|k: int| trim_end(s).len() <= k < s.len() implies white_space(
            #[trigger] s[k],
        ) by {
            if k < front.len() {
                assert(front[k] == s[k]);
            }
        }
    }
}

/// A text is the pieces between its separators, and pieces without the separator
/// come back out of a text that was joined from them.
pub proof fn law_splitting_undoes_joining(s: Seq<char>, parts: Seq<Seq<char>>, at: char)
    ensures
        join(split(s, at), seq![at]) == s,
        split(s, at).len() > 0,
        forall|i: int| 0 <= i < split(s, at).len() ==> !(#[trigger] split(s, at)[i]).contains(at),
        parts.len() > 0 && (forall|i: int|
            0 <= i < parts.len() ==> !(#[trigger] parts[i]).contains(at)) ==> split(
            join(parts, seq![at]),
            at,
        ) == parts,
{
    lemma_join_split(s, at);
    lemma_split_nonempty(s, at);
    lemma_split_free(s, at);
    if parts.len() > 0 && (forall|i: int|
        0 <= i < parts.len() ==> !(#[trigger] parts[i]).contains(at)) {
        lemma_split_join(parts, at);
    }
}

/// The words joined together are the text without its white space; no word is empty
/// or holds any.
pub proof fn law_words_are_the_text_without_white_space(s: Seq<char>)
    ensures
        join(words(s), Seq::<char>::empty()) == s.filter(|c: char| !white_space(c)),
        forall|i: int|
            0 <= i < words(s).len() ==> (#[trigger] words(s)[i]).len() > 0 && forall|k: int|
                0 <= k < words(s)[i].len() ==> !white_space(#[trigger] words(s)[i][k]),
        s.len() > 0 && !white_space(s.last()) ==> words(s).len() > 0,
    decreases s.len(),
{
    let solid = |c: char| !white_space(c);
    let none = Seq::<char>::empty();
    reveal(Seq::filter);
    if s.len() > 0 {
        let front = s.drop_last();
        law_words_are_the_text_without_white_space(front);
        let before = words(front);
        let now = words(s);
        if white_space(s.last()) {
        } else if s.len() == 1 || white_space(s[s.len() - 2]) {
            lemma_join_push(before, none, seq![s.last()]);
            assert(join(now, none) =~= join(before, none) + seq![s.last()]);
            assert(join(now, none) =~= front.filter(solid).push(s.last()));
        } else {
            assert(front.last() == s[s.len() - 2]);
            assert(before.len() > 0);
            let head = before.drop_last();
            let last = before.last();
            assert(before =~= head.push(last));
            lemma_join_push(head, none, last);
            lemma_join_push(head, none, last.push(s.last()));
            assert(join(now, none) =~= join(before, none).push(s.last()));
            assert forall|i: int| 0 <= i < now.len() implies (#[trigger] now[i]).len() > 0
                && forall|k: int|
                0 <= k < now[i].len() ==> !white_space(#[trigger] now[i][k]) by {
                if i < head.len() {
                    assert(now[i] == before[i]);
                } else {
                    assert(before[i] == last);
                }
            }
        }
    }
}

/// Words are parted where there is white space, and nowhere else.
pub proof fn law_words_part_at_white_space(a: Seq<char>, gap: char, word: Seq<char>)
    requires
        white_space(gap),
        word.len() > 0,
        forall|k: int| 0 <= k < word.len() ==> !white_space(#[trigger] word[k]),
    ensures
        words(a + seq![gap] + word) == words(a).push(word),
    decreases word.len(),
{
    let whole = a + seq![gap] + word;
    let front = word.drop_last();
    assert(whole.drop_last() =~= a + seq![gap] + front);
    assert(whole.last() == word.last());
    if word.len() == 1 {
        assert(front =~= Seq::<char>::empty());
        assert(a + seq![gap] + front =~= a.push(gap));
        assert(a.push(gap).drop_last() =~= a);
        assert(whole[whole.len() - 2] == gap);
        assert(words(a.push(gap)) == words(a));
        assert(words(whole) =~= words(a).push(word)) by {
            assert(seq![word.last()] =~= word);
        }
    } else {
        assert forall|k: int| 0 <= k < front.len() implies !white_space(#[trigger] front[k]) by {
            assert(front[k] == word[k]);
        }
        law_words_part_at_white_space(a, gap, front);
        assert(whole[whole.len() - 2] == word[word.len() - 2]);
        assert(front.push(word.last()) =~= word);
        assert(words(a).push(front).drop_last() =~= words(a));
    }
}

/// Lower case touches the capital letters of ASCII and leaves every other character.
pub proof fn law_lower_case_touches_only_capitals(s: Seq<char>, i: int)
    requires
        0 <= i < s.len(),
    ensures
        lower(s).len() == s.len(),
        65 <= s[i] as u32 <= 90 ==> lower(s)[i] as u32 == s[i] as u32 + 32,
        !(65 <= s[i] as u32 <= 90) ==> lower(s)[i] == s[i],
{
}

/// A number is read back from its digits, and digits that spell too large a number,
/// or anything but digits behind at most one plus sign, are no number.
pub proof fn law_numbers_are_read_back(n: nat, s: Seq<char>, max: nat)
    ensures
        parse_unsigned(decimal(n), max) == (if n <= max {
            Some(n)
        } else {
            None
        }),
        parse_unsigned(seq!['+'] + decimal(n), max) == parse_unsigned(decimal(n), max),
        parse_unsigned(s, max) matches Some(v) ==> v <= max,
        s.len() == 0 ==> parse_unsigned(s, max) is None,
        forall|i: int|
            1 <= i < s.len() && !(48 <= (#[trigger] s[i]) as u32 <= 57) ==> parse_unsigned(s, max)
                is None,
{
    lemma_decimal_reads_back(n);
    let plus = seq!['+'] + decimal(n);
    assert(plus[0] == '+');
    assert(plus.drop_first() =~= decimal(n));
    assert forall|i: int| 1 <= i < s.len() && !(48 <= (#[trigger] s[i]) as u32
        <= 57) implies parse_unsigned(s, max) is None by {
        let d = unsigned_digits(s);
        if s[0] == '+' {
            assert(d[i - 1] == s[i]);
        } else {
            assert(d[i] == s[i]);
        }
    }
}

/// What counts as white space: tab to carriage return, the space, the next line, and the
/// spaces and separators beyond Latin.
pub proof fn law_what_is_white_space(c: char)
    ensures
        white_space(c) <==> {
            let n = c as u32;
            9 <= n <= 13 || n == 32 || n == 133 || n == 160 || n == 5760 || 8192 <= n <= 8202 || n
                == 8232 || n == 8233 || n == 8239 || n == 8287 || n == 12288
        },
        blank(seq![c]) <==> white_space(c),
        blank(Seq::<char>::empty()),
{
    assert(seq![c][0] == c);
    if blank(seq![c]) {
        assert(white_space(seq![c][0]));
    }
}

} // verus!
