//! File paths, part by part.

use vstd::prelude::*;

use crate::text;

verus! {

/// One part of a path.
#[verifier::ext_equal]
pub enum PartView {
    Root,
    Current,
    Parent,
    Name(Seq<char>),
}

/// Whether a path begins at the root.
pub open spec fn is_absolute(path: Seq<char>) -> bool {
    path.len() > 0 && path[0] == '/'
}

/// The part that a piece between slashes is, where it is one: empty pieces and
/// `.` are none, except a `.` that begins a relative path.
pub open spec fn piece_part(piece: Seq<char>, leading: bool) -> Option<PartView> {
    if piece.len() == 0 {
        None
    } else if piece == seq!['.'] {
        if leading {
            Some(PartView::Current)
        } else {
            None
        }
    } else if piece == seq!['.', '.'] {
        Some(PartView::Parent)
    } else {
        Some(PartView::Name(piece))
    }
}

/// The parts of the first `n` pieces.
pub open spec fn parts_of_pieces(pieces: Seq<Seq<char>>, relative: bool, n: nat) -> Seq<PartView>
    decreases n,
{
    if n == 0 {
        Seq::empty()
    } else {
        let before = parts_of_pieces(pieces, relative, (n - 1) as nat);
        match piece_part(pieces[n - 1], relative && n == 1) {
            Some(part) => before.push(part),
            None => before,
        }
    }
}

/// The parts of a path: repeated and trailing slashes do not count.
pub open spec fn parts(path: Seq<char>) -> Seq<PartView> {
    let pieces = text::split(path, '/');
    (if is_absolute(path) {
        seq![PartView::Root]
    } else {
        Seq::empty()
    }) + parts_of_pieces(pieces, !is_absolute(path), pieces.len())
}

/// The names that are left of the first `n` parts when `.` is dropped and `..`
/// takes back the name before it.
pub open spec fn names_of(list: Seq<PartView>, n: nat) -> Seq<Seq<char>>
    decreases n,
{
    if n == 0 {
        Seq::empty()
    } else {
        let before = names_of(list, (n - 1) as nat);
        match list[n - 1] {
            PartView::Name(name) => before.push(name),
            PartView::Parent => if before.len() > 0 {
                before.drop_last()
            } else {
                before
            },
            _ => before,
        }
    }
}

/// The parts that a path stands for from a working directory.
pub open spec fn anchored_parts(cwd: Seq<char>, raw: Seq<char>) -> Seq<PartView> {
    if is_absolute(raw) {
        parts(raw)
    } else {
        parts(cwd) + parts(raw)
    }
}

/// Names as a path.
pub open spec fn path_text(absolute: bool, names: Seq<Seq<char>>) -> Seq<char> {
    (if absolute {
        seq!['/']
    } else {
        Seq::empty()
    }) + text::join(names, seq!['/'])
}

/// A path from a working directory, with `.` and `..` resolved by their text.
pub open spec fn normalized(cwd: Seq<char>, raw: Seq<char>) -> Seq<char> {
    let list = anchored_parts(cwd, raw);
    path_text(is_absolute(raw) || is_absolute(cwd), names_of(list, list.len()))
}

/// One part as numbers: its rank, then its characters, then an end mark that
/// comes before everything.
pub open spec fn part_code(part: PartView) -> Seq<u32> {
    match part {
        PartView::Root => seq![1u32, 0u32],
        PartView::Current => seq![2u32, 0u32],
        PartView::Parent => seq![3u32, 0u32],
        PartView::Name(name) => seq![4u32] + name.map_values(|c: char| (c as u32 + 1) as u32) + seq![
            0u32,
        ],
    }
}

/// The parts' numbers, one after the other.
pub open spec fn parts_code(list: Seq<PartView>) -> Seq<u32>
    decreases list.len(),
{
    if list.len() == 0 {
        Seq::empty()
    } else {
        parts_code(list.drop_last()) + part_code(list.last())
    }
}

/// What a path is found under: the same for every spelling of the same parts,
/// and ordered part by part.
pub open spec fn path_key(path: Seq<char>) -> Seq<u32> {
    parts_code(parts(path))
}

/// Whether `a` comes before `b`, number by number.
pub open spec fn before(a: Seq<u32>, b: Seq<u32>) -> bool
    decreases a.len(),
{
    if b.len() == 0 {
        false
    } else if a.len() == 0 {
        true
    } else if a[0] != b[0] {
        a[0] < b[0]
    } else {
        before(a.drop_first(), b.drop_first())
    }
}

pub proof fn lemma_before_irreflexive(a: Seq<u32>)
    ensures
        !before(a, a),
    decreases a.len(),
{
    if a.len() > 0 {
        lemma_before_irreflexive(a.drop_first());
    }
}

pub proof fn lemma_before_total(a: Seq<u32>, b: Seq<u32>)
    ensures
        before(a, b) || before(b, a) || a == b,
    decreases a.len(),
{
    if a.len() == 0 || b.len() == 0 {
        if a.len() == b.len() {
            assert(a =~= b);
        }
    } else if a[0] == b[0] {
        lemma_before_total(a.drop_first(), b.drop_first());
        if a.drop_first() == b.drop_first() {
            assert(a =~= seq![a[0]] + a.drop_first());
            assert(b =~= seq![b[0]] + b.drop_first());
        }
    }
}

pub proof fn lemma_before_transitive(a: Seq<u32>, b: Seq<u32>, c: Seq<u32>)
    requires
        before(a, b),
        before(b, c),
    ensures
        before(a, c),
    decreases a.len(),
{
    if a.len() > 0 && a[0] == b[0] && b[0] == c[0] {
        lemma_before_transitive(a.drop_first(), b.drop_first(), c.drop_first());
    }
}

// ---------------------------------------------------------------------------
// Executable paths
// ---------------------------------------------------------------------------

/// One part of a path.
#[derive(Debug, PartialEq, Eq)]
pub enum Part {
    Root,
    Current,
    Parent,
    Name(String),
}

impl View for Part {
    type V = PartView;

    open spec fn view(&self) -> PartView {
        match self {
            Part::Root => PartView::Root,
            Part::Current => PartView::Current,
            Part::Parent => PartView::Parent,
            Part::Name(name) => PartView::Name(name@),
        }
    }
}

/// The view of a list of parts.
pub open spec fn part_views(v: Seq<Part>) -> Seq<PartView> {
    v.map_values(|p: Part| p@)
}

fn starts_at_root(path: &str) -> (r: bool)
    ensures
        r == is_absolute(path@),
{
    proof {
        reveal_strlit("/");
        assert("/"@ =~= seq!['/']);
        if path@.len() > 0 {
            assert(path@.take(1)[0] == path@[0]);
            if path@[0] == '/' {
                assert(path@.take(1) =~= seq!['/']);
            }
        }
    }
    text::has_prefix(path, "/")
}

fn part_of_piece(piece: &String, leading: bool) -> (r: Option<Part>)
    ensures
        match r {
            Some(part) => piece_part(piece@, leading) == Some(part@),
            None => piece_part(piece@, leading) is None,
        },
{
    proof {
        reveal_strlit(".");
        reveal_strlit("..");
        assert("."@ =~= seq!['.']);
        assert(".."@ =~= seq!['.', '.']);
    }
    if text::char_count(piece.as_str()) == 0 {
        None
    } else if text::same(piece.as_str(), ".") {
        if leading {
            Some(Part::Current)
        } else {
            None
        }
    } else if text::same(piece.as_str(), "..") {
        Some(Part::Parent)
    } else {
        Some(Part::Name(piece.clone()))
    }
}

/// The parts of a path.
pub fn path_parts(path: &str) -> (r: Vec<Part>)
    ensures
        part_views(r@) == parts(path@),
{
    let pieces = text::split_at_char(path, '/');
    let absolute = starts_at_root(path);
    let ghost all = text::split(path@, '/');
    let mut out: Vec<Part> = Vec::new();
    if absolute {
        out.push(Part::Root);
    }
    let ghost head = part_views(out@);
    proof {
        assert(head =~= (if absolute {
            seq![PartView::Root]
        } else {
            Seq::empty()
        }));
    }
    let mut i: usize = 0;
    proof {
        assert(head + Seq::<PartView>::empty() =~= head);
    }
    while i < pieces.len()
        invariant
            i <= pieces@.len(),
            all == text::texts(pieces@),
            part_views(out@) == head + parts_of_pieces(all, !absolute, i as nat),
        decreases pieces@.len() - i,
    {
        proof {
            assert(all[i as int] == pieces@[i as int]@);
        }
        let ghost now = part_views(out@);
        if let Some(part) = part_of_piece(&pieces[i], !absolute && i == 0) {
            let ghost view = part@;
            out.push(part);
            proof {
                assert(part_views(out@) =~= now.push(view));
                assert(part_views(out@) =~= head + parts_of_pieces(all, !absolute, (i + 1) as nat));
            }
        }
        i += 1;
    }
    out
}

fn drop_last_name(names: &mut Vec<String>)
    ensures
        text::texts(final(names)@) == if old(names)@.len() > 0 {
            text::texts(old(names)@).drop_last()
        } else {
            text::texts(old(names)@)
        },
{
    let ghost now = names@;
    let _ = names.pop();
    proof {
        if now.len() > 0 {
            assert(text::texts(names@) =~= text::texts(now).drop_last());
        }
    }
}

fn push_names(names: &mut Vec<String>, list: &Vec<Part>, Ghost(first): Ghost<Seq<PartView>>)
    requires
        text::texts(old(names)@) == names_of(first, first.len()),
    ensures
        text::texts(final(names)@) == names_of(
            first + part_views(list@),
            (first.len() + list@.len()) as nat,
        ),
{
    let ghost all = first + part_views(list@);
    let mut i: usize = 0;
    proof {
        lemma_names_of_prefix(first, all, first.len());
    }
    while i < list.len()
        invariant
            i <= list@.len(),
            all == first + part_views(list@),
            text::texts(names@) == names_of(all, (first.len() + i) as nat),
        decreases list@.len() - i,
    {
        proof {
            assert(all[first.len() + i] == list@[i as int]@);
        }
        match &list[i] {
            Part::Name(name) => {
                text::push_text(names, name.clone());
            },
            Part::Parent => {
                drop_last_name(names);
            },
            Part::Root => {},
            Part::Current => {},
        }
        i += 1;
    }
}

proof fn lemma_names_of_prefix(a: Seq<PartView>, b: Seq<PartView>, n: nat)
    requires
        n <= a.len() <= b.len(),
        forall|i: int| 0 <= i < a.len() ==> a[i] == b[i],
    ensures
        names_of(a, n) == names_of(b, n),
    decreases n,
{
    if n > 0 {
        lemma_names_of_prefix(a, b, (n - 1) as nat);
    }
}

/// Normalizes a path by its text after anchoring it at a working directory, so
/// that a path not created yet has one stable spelling.
pub fn normalize_absolute_path(cwd: &str, raw: &str) -> (r: String)
    ensures
        r@ == normalized(cwd@, raw@),
{
    let raw_absolute = starts_at_root(raw);
    let absolute = raw_absolute || starts_at_root(cwd);
    let mut names: Vec<String> = Vec::new();
    let ghost mut first: Seq<PartView> = Seq::empty();
    proof {
        assert(text::texts(names@) =~= names_of(first, 0));
    }
    if !raw_absolute {
        let list = path_parts(cwd);
        push_names(&mut names, &list, Ghost(first));
        proof {
            assert(first + part_views(list@) =~= parts(cwd@));
            first = parts(cwd@);
        }
    }
    let list = path_parts(raw);
    push_names(&mut names, &list, Ghost(first));
    proof {
        assert(first + part_views(list@) =~= anchored_parts(cwd@, raw@));
        reveal_strlit("/");
        assert("/"@ =~= seq!['/']);
    }
    let mut out = if absolute {
        "/".to_owned()
    } else {
        String::new()
    };
    proof {
        assert(out@ =~= (if absolute {
            seq!['/']
        } else {
            Seq::empty()
        }));
    }
    out.append(text::joined(&names, "/").as_str());
    out
}

fn push_code(out: &mut Vec<u32>, part: &Part)
    ensures
        final(out)@ == old(out)@ + part_code(part@),
{
    let ghost now = out@;
    match part {
        Part::Root => {
            out.push(1);
            out.push(0);
        },
        Part::Current => {
            out.push(2);
            out.push(0);
        },
        Part::Parent => {
            out.push(3);
            out.push(0);
        },
        Part::Name(name) => {
            out.push(4);
            let chars = text::chars_of(name.as_str());
            let ghost codes = chars@.map_values(|c: char| (c as u32 + 1) as u32);
            let mut i: usize = 0;
            proof {
                assert(out@ =~= now + seq![4u32] + codes.take(0));
            }
            while i < chars.len()
                invariant
                    i <= chars@.len(),
                    codes == chars@.map_values(|c: char| (c as u32 + 1) as u32),
                    out@ == now + seq![4u32] + codes.take(i as int),
                decreases chars@.len() - i,
            {
                let c: u32 = chars[i] as u32;
                proof {
                    vstd::utf8::char_is_scalar(chars@[i as int]);
                }
                out.push(c + 1);
                i += 1;
                proof {
                    assert(out@ =~= now + seq![4u32] + codes.take(i as int));
                }
            }
            out.push(0);
            proof {
                assert(codes.take(codes.len() as int) =~= codes);
            }
        },
    }
    proof {
        assert(out@ =~= now + part_code(part@));
    }
}

/// What a path is found under.
pub fn key_of(path: &str) -> (r: Vec<u32>)
    ensures
        r@ == path_key(path@),
{
    let list = path_parts(path);
    let ghost all = parts(path@);
    let mut out: Vec<u32> = Vec::new();
    let mut i: usize = 0;
    proof {
        assert(all.take(0) =~= Seq::<PartView>::empty());
        assert(out@ =~= parts_code(all.take(0)));
    }
    while i < list.len()
        invariant
            i <= list@.len(),
            all == part_views(list@),
            out@ == parts_code(all.take(i as int)),
        decreases list@.len() - i,
    {
        proof {
            assert(all.take(i + 1).drop_last() =~= all.take(i as int));
            assert(all.take(i + 1).last() == list@[i as int]@);
        }
        push_code(&mut out, &list[i]);
        i += 1;
    }
    proof {
        assert(all.take(all.len() as int) =~= all);
    }
    out
}

/// Whether one key comes before another.
pub fn comes_before(a: &Vec<u32>, b: &Vec<u32>) -> (r: bool)
    ensures
        r == before(a@, b@),
{
    let mut i: usize = 0;
    proof {
        assert(a@.skip(0) =~= a@);
        assert(b@.skip(0) =~= b@);
    }
    while i < a.len() && i < b.len()
        invariant
            i <= a@.len(),
            i <= b@.len(),
            before(a@, b@) == before(a@.skip(i as int), b@.skip(i as int)),
        decreases a@.len() - i,
    {
        if a[i] != b[i] {
            return a[i] < b[i];
        }
        proof {
            assert(a@.skip(i as int).drop_first() =~= a@.skip(i + 1));
            assert(b@.skip(i as int).drop_first() =~= b@.skip(i + 1));
        }
        i += 1;
    }
    i < b.len()
}

// ---------------------------------------------------------------------------
// Laws
// ---------------------------------------------------------------------------

/// What a name may be: not empty, not an alias, without a slash.
pub open spec fn plain_name(name: Seq<char>) -> bool {
    &&& name.len() > 0
    &&& name != seq!['.']
    &&& name != seq!['.', '.']
    &&& !name.contains('/')
}

proof fn lemma_parts_plain(pieces: Seq<Seq<char>>, relative: bool, n: nat)
    requires
        n <= pieces.len(),
        forall|i: int| 0 <= i < pieces.len() ==> !(#[trigger] pieces[i]).contains('/'),
    ensures
        forall|i: int|
            0 <= i < parts_of_pieces(pieces, relative, n).len() ==> (
            #[trigger] parts_of_pieces(pieces, relative, n)[i] matches PartView::Name(name)
                ==> plain_name(name)),
    decreases n,
{
    if n > 0 {
        lemma_parts_plain(pieces, relative, (n - 1) as nat);
    }
}

proof fn lemma_names_plain(list: Seq<PartView>, n: nat)
    requires
        n <= list.len(),
        forall|i: int|
            0 <= i < list.len() ==> (#[trigger] list[i] matches PartView::Name(name) ==> plain_name(
                name,
            )),
    ensures
        forall|i: int| 0 <= i < names_of(list, n).len() ==> plain_name(#[trigger] names_of(list, n)[i]),
    decreases n,
{
    if n > 0 {
        lemma_names_plain(list, (n - 1) as nat);
        let earlier = names_of(list, (n - 1) as nat);
        let now = names_of(list, n);
        assert(list[n - 1] matches PartView::Name(name) ==> plain_name(name));
        assert forall|i: int| 0 <= i < now.len() implies plain_name(#[trigger] now[i]) by {
            if i < earlier.len() {
                assert(now[i] == earlier[i]);
            }
        }
    }
}

proof fn lemma_path_parts_plain(path: Seq<char>)
    ensures
        forall|i: int|
            0 <= i < parts(path).len() ==> (#[trigger] parts(path)[i] matches PartView::Name(name)
                ==> plain_name(name)),
{
    let pieces = text::split(path, '/');
    text::lemma_split_free(path, '/');
    lemma_parts_plain(pieces, !is_absolute(path), pieces.len());
    let tail = parts_of_pieces(pieces, !is_absolute(path), pieces.len());
    assert forall|i: int| 0 <= i < parts(path).len() implies (
    #[trigger] parts(path)[i] matches PartView::Name(name) ==> plain_name(name)) by {
        if is_absolute(path) {
            if i > 0 {
                assert(parts(path)[i] == tail[i - 1]);
            }
        } else {
            assert(parts(path)[i] == tail[i]);
        }
    }
}

proof fn lemma_pieces_are_names(pieces: Seq<Seq<char>>, names: Seq<Seq<char>>, n: nat)
    requires
        n <= names.len(),
        pieces == seq![Seq::<char>::empty()] + names,
        forall|i: int| 0 <= i < names.len() ==> plain_name(#[trigger] names[i]),
    ensures
        parts_of_pieces(pieces, false, (n + 1) as nat) == names.take(n as int).map_values(
            |name: Seq<char>| PartView::Name(name),
        ),
    decreases n,
{
    if n == 0 {
        assert(pieces[0].len() == 0);
        reveal_with_fuel(parts_of_pieces, 2);
        assert(parts_of_pieces(pieces, false, 1) =~= names.take(0).map_values(
            |name: Seq<char>| PartView::Name(name),
        ));
    } else {
        lemma_pieces_are_names(pieces, names, (n - 1) as nat);
        assert(pieces[n as int] == names[n - 1]);
        assert(plain_name(names[n - 1]));
        assert(names.take(n as int).map_values(|name: Seq<char>| PartView::Name(name))
            =~= names.take(n - 1).map_values(|name: Seq<char>| PartView::Name(name)).push(
            PartView::Name(names[n - 1]),
        ));
    }
}

proof fn lemma_all_names(list: Seq<PartView>, names: Seq<Seq<char>>, n: nat)
    requires
        n <= names.len(),
        list == seq![PartView::Root] + names.map_values(|name: Seq<char>| PartView::Name(name)),
    ensures
        names_of(list, (n + 1) as nat) == names.take(n as int),
    decreases n,
{
    if n == 0 {
        reveal_with_fuel(names_of, 2);
        assert(list[0] == PartView::Root);
        assert(names_of(list, 1) =~= names.take(0));
    } else {
        lemma_all_names(list, names, (n - 1) as nat);
        assert(list[n as int] == PartView::Name(names[n - 1]));
        assert(names.take(n as int) =~= names.take(n - 1).push(names[n - 1]));
    }
}

proof fn lemma_absolute_text_reads_back(names: Seq<Seq<char>>)
    requires
        forall|i: int| 0 <= i < names.len() ==> plain_name(#[trigger] names[i]),
    ensures
        is_absolute(path_text(true, names)),
        names_of(parts(path_text(true, names)), parts(path_text(true, names)).len()) == names,
{
    let path = path_text(true, names);
    let sep = seq!['/'];
    assert(path[0] == '/');
    if names.len() == 0 {
        assert(path =~= sep);
        assert(sep.drop_last() =~= Seq::<char>::empty());
        reveal_with_fuel(text::split, 2);
        let pieces = text::split(path, '/');
        assert(pieces =~= seq![Seq::<char>::empty(), Seq::<char>::empty()]);
        reveal_with_fuel(parts_of_pieces, 3);
        assert(parts_of_pieces(pieces, false, 2) =~= Seq::<PartView>::empty());
        assert(parts(path) =~= seq![PartView::Root]);
        reveal_with_fuel(names_of, 2);
        assert(names_of(parts(path), 1) =~= names);
    } else {
        let pieces = seq![Seq::<char>::empty()] + names;
        lemma_join_front(names, sep);
        assert(path =~= text::join(pieces, sep));
        assert forall|i: int| 0 <= i < pieces.len() implies !(#[trigger] pieces[i]).contains(
            '/',
        ) by {
            if i > 0 {
                assert(pieces[i] == names[i - 1]);
                assert(plain_name(names[i - 1]));
            }
        }
        text::lemma_split_join(pieces, '/');
        assert(text::split(path, '/') == pieces);
        lemma_pieces_are_names(pieces, names, names.len());
        assert(names.take(names.len() as int) =~= names);
        let named = names.map_values(|name: Seq<char>| PartView::Name(name));
        assert(parts(path) =~= seq![PartView::Root] + named);
        lemma_all_names(parts(path), names, names.len());
    }
}

proof fn lemma_join_front(names: Seq<Seq<char>>, sep: Seq<char>)
    requires
        names.len() > 0,
    ensures
        text::join(seq![Seq::<char>::empty()] + names, sep) == sep + text::join(names, sep),
    decreases names.len(),
{
    let whole = seq![Seq::<char>::empty()] + names;
    assert(whole.last() == names.last());
    assert(whole.drop_last() =~= seq![Seq::<char>::empty()] + names.drop_last());
    if names.len() == 1 {
        assert(whole.drop_last() =~= seq![Seq::<char>::empty()]);
        assert(text::join(whole.drop_last(), sep) =~= Seq::<char>::empty());
        assert(text::join(whole, sep) =~= sep + names[0]);
    } else {
        lemma_join_front(names.drop_last(), sep);
        assert(text::join(whole, sep) =~= sep + text::join(names, sep));
    }
}

/// A path normalized from an absolute working directory is absolute, and
/// normalizing it again changes nothing: every alias of a path has one
/// spelling.
pub proof fn law_normalizing_is_stable(cwd: Seq<char>, raw: Seq<char>)
    requires
        is_absolute(cwd) || is_absolute(raw),
    ensures
        is_absolute(normalized(cwd, raw)),
        normalized(cwd, normalized(cwd, raw)) == normalized(cwd, raw),
{
    let list = anchored_parts(cwd, raw);
    lemma_path_parts_plain(cwd);
    lemma_path_parts_plain(raw);
    assert forall|i: int| 0 <= i < list.len() implies (#[trigger] list[i] matches PartView::Name(
        name,
    ) ==> plain_name(name)) by {
        if is_absolute(raw) {
            assert(list[i] == parts(raw)[i]);
        } else if i < parts(cwd).len() {
            assert(list[i] == parts(cwd)[i]);
        } else {
            assert(list[i] == parts(raw)[i - parts(cwd).len()]);
        }
    }
    lemma_names_plain(list, list.len());
    lemma_absolute_text_reads_back(names_of(list, list.len()));
}

/// A name is added, a parent takes the last name back, and nothing goes above the
/// root.
pub proof fn law_a_parent_takes_a_name_back(list: Seq<PartView>, name: Seq<char>)
    ensures
        ({
            let n = list.len();
            let was = names_of(list, n);
            &&& names_of(list.push(PartView::Name(name)), n + 1) == was.push(name)
            &&& names_of(list.push(PartView::Current), n + 1) == was
            &&& names_of(list.push(PartView::Root), n + 1) == was
            &&& was.len() == 0 ==> names_of(list.push(PartView::Parent), n + 1) == was
            &&& was.len() > 0 ==> names_of(list.push(PartView::Parent), n + 1) == was.drop_last()
            &&& names_of(
                list.push(PartView::Name(name)).push(PartView::Parent),
                n + 2,
            ) == was
        }),
{
    let n = list.len();
    let was = names_of(list, n);
    let named = list.push(PartView::Name(name));
    let parent = list.push(PartView::Parent);
    let current = list.push(PartView::Current);
    let root = list.push(PartView::Root);
    let back = named.push(PartView::Parent);
    lemma_names_of_prefix(list, named, n);
    lemma_names_of_prefix(list, parent, n);
    lemma_names_of_prefix(list, current, n);
    lemma_names_of_prefix(list, root, n);
    lemma_names_of_prefix(named, back, n + 1);
    assert(named[n as int] == PartView::Name(name));
    assert(parent[n as int] == PartView::Parent);
    assert(current[n as int] == PartView::Current);
    assert(root[n as int] == PartView::Root);
    assert(back[n as int + 1] == PartView::Parent);
    assert(names_of(named, n + 1) == was.push(name));
    assert(was.push(name).drop_last() =~= was);
}

/// A piece of a path is nothing where it is empty, the parent where it is two dots, the
/// directory itself where it is one, and a name otherwise.
pub proof fn law_what_a_piece_means(piece: Seq<char>, leading: bool)
    ensures
        piece.len() == 0 ==> piece_part(piece, leading) is None,
        piece == seq!['.'] && leading ==> piece_part(piece, leading) == Some(PartView::Current),
        piece == seq!['.'] && !leading ==> piece_part(piece, leading) is None,
        piece == seq!['.', '.'] ==> piece_part(piece, leading) == Some(PartView::Parent),
        plain_name(piece) ==> piece_part(piece, leading) == Some(PartView::Name(piece)),
{
    if piece == seq!['.'] {
        assert(piece.len() == 1);
    }
    if piece == seq!['.', '.'] {
        assert(piece.len() == 2);
    }
}

/// An absolute path is the same from every directory, and a relative one goes on from
/// where the directory ends.
pub proof fn law_an_absolute_path_stands_alone(cwd: Seq<char>, other: Seq<char>, raw: Seq<char>)
    ensures
        raw.len() > 0 && raw[0] == '/' ==> normalized(cwd, raw) == normalized(other, raw),
        !(raw.len() > 0 && raw[0] == '/') ==> anchored_parts(cwd, raw) == parts(cwd) + parts(raw),
{
}

/// A normalized absolute path is a slash and plain names with a slash between them: no
/// name is empty, a dot or two dots.
pub proof fn law_a_normalized_path_is_plain(cwd: Seq<char>, raw: Seq<char>)
    requires
        is_absolute(cwd) || is_absolute(raw),
    ensures
        exists|names: Seq<Seq<char>>|
            normalized(cwd, raw) == seq!['/'] + #[trigger] text::join(names, seq!['/']) && (forall|
                i: int,
            |
                0 <= i < names.len() ==> plain_name(#[trigger] names[i])),
{
    let list = anchored_parts(cwd, raw);
    lemma_path_parts_plain(cwd);
    lemma_path_parts_plain(raw);
    assert forall|i: int| 0 <= i < list.len() implies (#[trigger] list[i] matches PartView::Name(
        name,
    ) ==> plain_name(name)) by {
        if !is_absolute(raw) {
            if i < parts(cwd).len() {
                assert(list[i] == parts(cwd)[i]);
            } else {
                assert(list[i] == parts(raw)[i - parts(cwd).len()]);
            }
        }
    }
    lemma_names_plain(list, list.len());
    let names = names_of(list, list.len());
    assert(normalized(cwd, raw) == seq!['/'] + text::join(names, seq!['/']));
}

proof fn lemma_char_range(c: char)
    ensures
        c as u32 <= 0x10_ffff,
{
}

proof fn lemma_same_char(c: char, d: char)
    requires
        (c as u32 + 1) as u32 == (d as u32 + 1) as u32,
    ensures
        c == d,
{
}

proof fn lemma_part_code_shape(part: PartView)
    ensures
        part_code(part).len() >= 2,
        part_code(part).last() == 0,
        forall|i: int| 0 <= i < part_code(part).len() - 1 ==> #[trigger] part_code(part)[i] != 0,
{
    let code = part_code(part);
    if let PartView::Name(name) = part {
        let inner = name.map_values(|c: char| (c as u32 + 1) as u32);
        assert forall|i: int| 0 <= i < code.len() - 1 implies #[trigger] code[i] != 0 by {
            if i > 0 {
                assert(code[i] == inner[i - 1]);
                lemma_char_range(name[i - 1]);
            }
        }
    }
}

proof fn lemma_part_code_injective(a: PartView, b: PartView)
    requires
        part_code(a) == part_code(b),
    ensures
        a == b,
{
    assert(part_code(a)[0] == part_code(b)[0]);
    match (a, b) {
        (PartView::Name(x), PartView::Name(y)) => {
            let p = x.map_values(|c: char| (c as u32 + 1) as u32);
            let q = y.map_values(|c: char| (c as u32 + 1) as u32);
            assert(part_code(a).len() == p.len() + 2);
            assert(part_code(b).len() == q.len() + 2);
            assert forall|i: int| 0 <= i < x.len() implies x[i] == y[i] by {
                lemma_char_range(x[i]);
                lemma_char_range(y[i]);
                assert(part_code(a)[i + 1] == (x[i] as u32 + 1) as u32);
                assert(part_code(b)[i + 1] == (y[i] as u32 + 1) as u32);
                lemma_same_char(x[i], y[i]);
            }
            assert(x =~= y);
        },
        _ => {},
    }
}

proof fn lemma_parts_code_end(list: Seq<PartView>)
    ensures
        list.len() > 0 ==> parts_code(list).len() >= 2 && parts_code(list).last() == 0,
        list.len() == 0 ==> parts_code(list).len() == 0,
    decreases list.len(),
{
    if list.len() > 0 {
        lemma_part_code_shape(list.last());
    }
}

proof fn lemma_parts_code_injective(a: Seq<PartView>, b: Seq<PartView>)
    requires
        parts_code(a) == parts_code(b),
    ensures
        a == b,
    decreases a.len(),
{
    lemma_parts_code_end(a);
    lemma_parts_code_end(b);
    if a.len() == 0 {
        assert(a =~= b);
    } else {
        let x = parts_code(a.drop_last());
        let y = parts_code(b.drop_last());
        let p = part_code(a.last());
        let q = part_code(b.last());
        let whole = parts_code(a);
        let n = whole.len() as int;
        lemma_part_code_shape(a.last());
        lemma_part_code_shape(b.last());
        lemma_parts_code_end(a.drop_last());
        lemma_parts_code_end(b.drop_last());
        assert(whole == x + p);
        assert(whole == y + q);
        if p.len() < q.len() {
            assert(x.len() > 0);
            assert(whole[x.len() - 1] == x.last());
            assert(whole[x.len() - 1] == q[x.len() - 1 - y.len()]);
        }
        if q.len() < p.len() {
            assert(y.len() > 0);
            assert(whole[y.len() - 1] == y.last());
            assert(whole[y.len() - 1] == p[y.len() - 1 - x.len()]);
        }
        assert(p.len() == q.len());
        assert(x =~= whole.take(n - p.len()));
        assert(y =~= whole.take(n - p.len()));
        assert(p =~= whole.skip(n - p.len()));
        assert(q =~= whole.skip(n - p.len()));
        lemma_parts_code_injective(a.drop_last(), b.drop_last());
        lemma_part_code_injective(a.last(), b.last());
        assert(a =~= a.drop_last().push(a.last()));
        assert(b =~= b.drop_last().push(b.last()));
    }
}

/// Two spellings are the same path exactly where they have the same parts: doubled and
/// trailing slashes and inner dots make no difference, and anything else does.
pub proof fn law_paths_are_told_apart_by_their_parts(a: Seq<char>, b: Seq<char>)
    ensures
        path_key(a) == path_key(b) <==> parts(a) == parts(b),
{
    if path_key(a) == path_key(b) {
        lemma_parts_code_injective(parts(a), parts(b));
    }
}

/// Keys are in a strict order: of two that differ one comes first, and not the other.
pub proof fn law_keys_are_in_a_strict_order(a: Seq<u32>, b: Seq<u32>, c: Seq<u32>)
    ensures
        !before(a, a),
        a != b ==> before(a, b) || before(b, a),
        !(before(a, b) && before(b, a)),
        before(a, b) && before(b, c) ==> before(a, c),
{
    lemma_before_irreflexive(a);
    lemma_before_total(a, b);
    if before(a, b) && before(b, a) {
        lemma_before_transitive(a, b, a);
    }
    if before(a, b) && before(b, c) {
        lemma_before_transitive(a, b, c);
    }
}

/// The parts of a path are what its pieces mean, in order, behind the root where it is
/// absolute; only the very first piece of a relative path can be the directory itself.
pub proof fn law_the_parts_of_a_path(path: Seq<char>, n: nat)
    requires
        n < text::split(path, '/').len(),
    ensures
        ({
            let pieces = text::split(path, '/');
            let absolute = path.len() > 0 && path[0] == '/';
            let before = parts_of_pieces(pieces, !absolute, n);
            let now = parts_of_pieces(pieces, !absolute, n + 1);
            let all = parts_of_pieces(pieces, !absolute, pieces.len());
            &&& piece_part(pieces[n as int], !absolute && n == 0) is None ==> now == before
            &&& piece_part(pieces[n as int], !absolute && n == 0) matches Some(part) ==> now
                == before.push(part)
            &&& parts_of_pieces(pieces, !absolute, 0).len() == 0
            &&& absolute ==> parts(path) == seq![PartView::Root] + all
            &&& !absolute ==> parts(path) == all
        }),
{
    let pieces = text::split(path, '/');
    let all = parts_of_pieces(pieces, !is_absolute(path), pieces.len());
    assert(Seq::<PartView>::empty() + all =~= all);
}

} // verus!
