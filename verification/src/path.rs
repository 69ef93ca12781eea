//! Paths as texts with `/` between their parts. A path of a system that puts another
//! character there is written with `/` before it is handed over.

use vstd::prelude::*;
use vstd::string::StringExecFns;
use vstd::utf8::encode_utf8;
use crate::text::{Rank, chars_of, copied, find_last, lemma_last_place, lemma_text_less_irreflexive, lemma_text_less_total, lemma_text_less_transitive, last_place, rank_texts, text_between, text_less, text_rank, view_option};

verus! {

/// The pieces of a text between the separators.
pub open spec fn split(s: Seq<char>, sep: char) -> Seq<Seq<char>>
    decreases s.len(),
{
    if s.len() == 0 {
        seq![seq![]]
    } else {
        let before = split(s.drop_last(), sep);
        if s.last() == sep {
            before.push(seq![])
        } else {
            before.drop_last().push(before.last().push(s.last()))
        }
    }
}

/// The views of the pieces.
pub open spec fn piece_views(v: Seq<Vec<char>>) -> Seq<Seq<char>> {
    Seq::new(v.len(), |i: int| v[i]@)
}

/// The pieces of a text between the separators.
pub fn split_text(s: &str, sep: char) -> (r: Vec<Vec<char>>)
    ensures
        piece_views(r@) == split(s@, sep),
{
    let chars = chars_of(s);
    let mut out: Vec<Vec<char>> = Vec::new();
    let mut current: Vec<char> = Vec::new();
    let mut i: usize = 0;
    proof {
        assert(chars@.take(0) =~= seq![]);
        assert(current@ =~= seq![]);
        assert(piece_views(out@).push(current@) =~= seq![seq![]]);
    }
    while i < chars.len()
        invariant
            chars@ == s@,
            i <= chars@.len(),
            split(s@.take(i as int), sep) == piece_views(out@).push(current@),
        decreases chars@.len() - i,
    {
        let c = chars[i];
        let ghost before = piece_views(out@);
        let ghost piece = current@;
        proof {
            assert(s@.take(i + 1).drop_last() =~= s@.take(i as int));
            assert(before.push(piece).drop_last() =~= before);
        }
        if c == sep {
            out.push(current);
            current = Vec::new();
            proof {
                assert(piece_views(out@) =~= before.push(piece));
                assert(current@ =~= seq![]);
            }
        } else {
            current.push(c);
        }
        i = i + 1;
    }
    let ghost before = piece_views(out@);
    assert(s@.take(i as int) =~= s@);
    let ghost piece = current@;
    out.push(current);
    assert(piece_views(out@) =~= before.push(piece));
    out
}

/// A text without what does not count at the end of a path: separators, and dots
/// that stand alone behind one.
pub open spec fn trim_tail(s: Seq<char>) -> Seq<char>
    decreases s.len(),
{
    if s.len() > 0 && s.last() == '/' {
        trim_tail(s.drop_last())
    } else if s.len() > 1 && s.last() == '.' && s[s.len() - 2] == '/' {
        trim_tail(s.drop_last())
    } else {
        s
    }
}

/// What stands behind the last separator.
pub open spec fn last_piece(s: Seq<char>) -> Seq<char> {
    s.skip(last_place(s, '/') + 1)
}

/// The last part of a path, if it names a file or directory.
pub open spec fn file_name(path: Seq<char>) -> Option<Seq<char>> {
    let piece = last_piece(trim_tail(path));
    if piece.len() == 0 || piece == seq!['.'] || piece == seq!['.', '.'] {
        None
    } else {
        Some(piece)
    }
}

/// Where the extension of a file name starts: behind the last dot, unless that is
/// the first character.
pub open spec fn dot_place(name: Seq<char>) -> Option<int> {
    if last_place(name, '.') > 0 {
        Some(last_place(name, '.'))
    } else {
        None
    }
}

/// The extension of the last part of a path.
pub open spec fn extension(path: Seq<char>) -> Option<Seq<char>> {
    match file_name(path) {
        Some(name) => match dot_place(name) {
            Some(i) => Some(name.skip(i + 1)),
            None => None,
        },
        None => None,
    }
}

/// The last part of a path, without its extension.
pub open spec fn file_stem(path: Seq<char>) -> Option<Seq<char>> {
    match file_name(path) {
        Some(name) => match dot_place(name) {
            Some(i) => Some(name.take(i)),
            None => Some(name),
        },
        None => None,
    }
}

/// A path with another extension.
pub open spec fn with_extension(path: Seq<char>, ext: Seq<char>) -> Seq<char> {
    match file_stem(path) {
        Some(stem) => {
            let t = trim_tail(path);
            t.take(last_place(t, '/') + 1) + stem + seq!['.'] + ext
        },
        None => path,
    }
}

/// A path inside a directory; an absolute path stays as it is.
pub open spec fn join_paths(base: Seq<char>, name: Seq<char>) -> Seq<char> {
    if name.len() > 0 && name[0] == '/' {
        name
    } else if base.len() == 0 || base.last() == '/' {
        base + name
    } else {
        base + seq!['/'] + name
    }
}

/// A path inside a directory, both in the bytes that the system has for them; an absolute
/// path stays as it is.
pub open spec fn join_bytes(base: Seq<u8>, name: Seq<u8>) -> Seq<u8> {
    if name.len() > 0 && name[0] == 47 {
        name
    } else {
        as_directory(base) + name
    }
}

/// The bytes of a directory, with a separator at the end.
pub open spec fn as_directory(base: Seq<u8>) -> Seq<u8> {
    if base.len() == 0 || base.last() == 47 {
        base
    } else {
        base.push(47)
    }
}

/// A path inside a directory, in the bytes that the system has for it.
pub fn bytes_in(base: &Vec<u8>, name: &str) -> (r: Vec<u8>)
    ensures
        r@ == join_bytes(base@, encode_utf8(name@)),
{
    let bytes = name.as_bytes();
    let mut out: Vec<u8> = Vec::new();
    if !(bytes.len() > 0 && bytes[0] == 47) {
        let mut i: usize = 0;
        while i < base.len()
            invariant
                i <= base@.len(),
                out@ == base@.take(i as int),
            decreases base@.len() - i,
        {
            out.push(base[i]);
            i = i + 1;
            assert(out@ =~= base@.take(i as int));
        }
        assert(base@.take(i as int) =~= base@);
        if base.len() > 0 && base[base.len() - 1] != 47 {
            out.push(47);
        }
        assert(out@ =~= as_directory(base@));
    }
    let ghost front = out@;
    let mut k: usize = 0;
    assert(front + bytes@.take(0) =~= front);
    while k < bytes.len()
        invariant
            k <= bytes@.len(),
            out@ == front + bytes@.take(k as int),
        decreases bytes@.len() - k,
    {
        out.push(bytes[k]);
        k = k + 1;
        assert(out@ =~= front + bytes@.take(k as int));
    }
    assert(bytes@.take(k as int) =~= bytes@);
    assert(out@ =~= join_bytes(base@, bytes@));
    out
}

/// A path inside a directory.
pub fn path_in(base: &str, name: &str) -> (r: String)
    ensures
        r@ == join_paths(base@, name@),
{
    let b = chars_of(base);
    let n = chars_of(name);
    if n.len() > 0 && n[0] == '/' {
        return copied(name);
    }
    let mut out = copied(base);
    if b.len() > 0 && b[b.len() - 1] != '/' {
        out.push('/');
    }
    out.append(name);
    assert(out@ =~= join_paths(base@, name@));
    out
}

/// The path without what does not count at its end.
fn tail_trimmed(path: &str) -> (r: Vec<char>)
    ensures
        r@ == trim_tail(path@),
{
    let mut chars = chars_of(path);
    loop
        invariant
            trim_tail(chars@) == trim_tail(path@),
        decreases chars@.len(),
    {
        let n: usize = chars.len();
        if n > 0 && chars[n - 1] == '/' {
            let ghost before = chars@;
            chars.pop();
            assert(chars@ =~= before.drop_last());
        } else if n > 1 && chars[n - 1] == '.' && chars[n - 2] == '/' {
            let ghost before = chars@;
            chars.pop();
            assert(chars@ =~= before.drop_last());
        } else {
            return chars;
        }
    }
}

/// Where the last piece of a path starts.
fn piece_start(chars: &Vec<char>) -> (r: usize)
    ensures
        r == last_place(chars@, '/') + 1,
        r <= chars@.len(),
{
    let n: usize = chars.len();
    match find_last(chars, '/') {
        Some(i) => i + 1,
        None => 0,
    }
}

/// The last part of a path, if it names a file or directory.
pub fn name_in_path(path: &str) -> (r: Option<String>)
    ensures
        view_option(r) == file_name(path@),
{
    let chars = tail_trimmed(path);
    let from: usize = piece_start(&chars);
    let n: usize = chars.len() - from;
    let name = text_between(&chars, from, chars.len());
    assert(name@ =~= last_piece(chars@));
    if n == 0 {
        assert(name@ =~= seq![]);
        return None;
    }
    if n == 1 && chars[from] == '.' {
        assert(name@ =~= seq!['.']);
        return None;
    }
    if n == 2 && chars[from] == '.' && chars[from + 1] == '.' {
        assert(name@ =~= seq!['.', '.']);
        return None;
    }
    proof {
        assert(name@.len() == n);
        assert(name@[0] == chars@[from as int]);
        if n >= 2 {
            assert(name@[1] == chars@[from + 1]);
        }
        let dot = seq!['.'];
        let dots = seq!['.', '.'];
        assert(dot[0] == '.');
        assert(dots[0] == '.' && dots[1] == '.');
    }
    Some(name)
}

/// The extension of the last part of a path.
pub fn extension_in_path(path: &str) -> (r: Option<String>)
    ensures
        view_option(r) == extension(path@),
{
    match name_in_path(path) {
        Some(name) => {
            let chars = chars_of(name.as_str());
            let n: usize = chars.len();
            match find_last(&chars, '.') {
                Some(i) => {
                    if i > 0 {
                        let r = text_between(&chars, i + 1, n);
                        assert(r@ =~= name@.skip(i + 1));
                        Some(r)
                    } else {
                        None
                    }
                },
                None => None,
            }
        },
        None => None,
    }
}

/// The path with another extension.
pub fn path_with_extension(path: &str, ext: &str) -> (r: String)
    ensures
        r@ == with_extension(path@, ext@),
{
    match name_in_path(path) {
        Some(name) => {
            let chars = tail_trimmed(path);
            let from: usize = piece_start(&chars);
            let letters = chars_of(name.as_str());
            let mut out = text_between(&chars, 0, from);
            assert(out@ =~= chars@.take(last_place(chars@, '/') + 1));
            let end: usize = match find_last(&letters, '.') {
                Some(i) => if i > 0 {
                    i
                } else {
                    letters.len()
                },
                None => letters.len(),
            };
            let stem = text_between(&letters, 0, end);
            assert(stem@ =~= file_stem(path@)->0);
            let ghost start = out@;
            out.append(stem.as_str());
            out.push('.');
            out.append(ext);
            assert(out@ =~= start + stem@ + seq!['.'] + ext@);
            out
        },
        None => copied(path),
    }
}

/// A part of a path.
pub enum PartView {
    Root,
    Current,
    Parent,
    Normal(Seq<char>),
}

/// The part that the piece at place `i` stands for, if any.
pub open spec fn part_of(piece: Seq<char>, i: int, absolute: bool) -> Option<PartView> {
    if piece.len() == 0 {
        None
    } else if piece == seq!['.'] {
        if i == 0 && !absolute {
            Some(PartView::Current)
        } else {
            None
        }
    } else if piece == seq!['.', '.'] {
        Some(PartView::Parent)
    } else {
        Some(PartView::Normal(piece))
    }
}

/// The parts that the first `n` pieces stand for.
pub open spec fn parts_up_to(pieces: Seq<Seq<char>>, absolute: bool, n: nat) -> Seq<PartView>
    decreases n,
{
    if n == 0 {
        if absolute {
            seq![PartView::Root]
        } else {
            seq![]
        }
    } else {
        let before = parts_up_to(pieces, absolute, (n - 1) as nat);
        match part_of(pieces[n - 1], n - 1, absolute) {
            Some(part) => before.push(part),
            None => before,
        }
    }
}

/// The parts of a path.
pub open spec fn parts(path: Seq<char>) -> Seq<PartView> {
    let pieces = split(path, '/');
    parts_up_to(pieces, path.len() > 0 && path[0] == '/', pieces.len())
}

/// The place of a part among the kinds of parts.
pub open spec fn part_class(part: PartView) -> int {
    match part {
        PartView::Root => 0,
        PartView::Current => 1,
        PartView::Parent => 2,
        PartView::Normal(_) => 3,
    }
}

/// How two parts stand to each other.
pub open spec fn part_rank(a: PartView, b: PartView) -> Rank {
    match (a, b) {
        (PartView::Normal(x), PartView::Normal(y)) => text_rank(x, y),
        _ => if part_class(a) < part_class(b) {
            Rank::Before
        } else if part_class(a) == part_class(b) {
            Rank::Same
        } else {
            Rank::After
        },
    }
}

/// How two paths stand to each other, part by part.
pub open spec fn parts_rank(a: Seq<PartView>, b: Seq<PartView>) -> Rank
    decreases a.len(),
{
    if a.len() == 0 {
        if b.len() == 0 {
            Rank::Same
        } else {
            Rank::Before
        }
    } else if b.len() == 0 {
        Rank::After
    } else if part_rank(a[0], b[0]) == Rank::Same {
        parts_rank(a.drop_first(), b.drop_first())
    } else {
        part_rank(a[0], b[0])
    }
}

/// How two paths stand to each other.
pub open spec fn path_rank(a: Seq<char>, b: Seq<char>) -> Rank {
    parts_rank(parts(a), parts(b))
}

/// A part of a path.
enum Part {
    Root,
    Current,
    Parent,
    Normal(String),
}

spec fn part_view(part: Part) -> PartView {
    match part {
        Part::Root => PartView::Root,
        Part::Current => PartView::Current,
        Part::Parent => PartView::Parent,
        Part::Normal(s) => PartView::Normal(s@),
    }
}

spec fn part_views(v: Seq<Part>) -> Seq<PartView> {
    Seq::new(v.len(), |i: int| part_view(v[i]))
}

fn path_parts(path: &str) -> (r: Vec<Part>)
    ensures
        part_views(r@) == parts(path@),
{
    let chars = chars_of(path);
    let pieces = split_text(path, '/');
    let absolute: bool = chars.len() > 0 && chars[0] == '/';
    let ghost views = split(path@, '/');
    let mut out: Vec<Part> = Vec::new();
    if absolute {
        out.push(Part::Root);
        assert(part_views(out@) =~= seq![PartView::Root]);
    } else {
        assert(part_views(out@) =~= seq![]);
    }
    let mut i: usize = 0;
    while i < pieces.len()
        invariant
            views == piece_views(pieces@),
            i <= pieces@.len(),
            part_views(out@) == parts_up_to(views, absolute, i as nat),
        decreases pieces@.len() - i,
    {
        let piece = &pieces[i];
        let n: usize = piece.len();
        let ghost before = part_views(out@);
        let ghost p = views[i as int];
        proof {
            assert(p == piece@);
            let dot = seq!['.'];
            let dots = seq!['.', '.'];
            assert(dot.len() == 1 && dot[0] == '.');
            assert(dots.len() == 2 && dots[0] == '.' && dots[1] == '.');
            if n == 0 {
                assert(p =~= seq![]);
            }
            if n == 1 && p[0] == '.' {
                assert(p =~= dot);
            }
            if n == 2 && p[0] == '.' && p[1] == '.' {
                assert(p =~= dots);
            }
        }
        if n == 0 {
        } else if n == 1 && piece[0] == '.' {
            if i == 0 && !absolute {
                out.push(Part::Current);
                assert(part_views(out@) =~= before.push(PartView::Current));
            }
        } else if n == 2 && piece[0] == '.' && piece[1] == '.' {
            out.push(Part::Parent);
            assert(part_views(out@) =~= before.push(PartView::Parent));
        } else {
            let name = text_between(piece, 0, n);
            assert(name@ =~= p);
            out.push(Part::Normal(name));
            assert(part_views(out@) =~= before.push(PartView::Normal(p)));
        }
        i = i + 1;
    }
    out
}

fn rank_parts(a: &Part, b: &Part) -> (r: Rank)
    ensures
        r == part_rank(part_view(*a), part_view(*b)),
{
    match (a, b) {
        (Part::Normal(x), Part::Normal(y)) => rank_texts(x.as_str(), y.as_str()),
        (Part::Root, Part::Root) => Rank::Same,
        (Part::Current, Part::Current) => Rank::Same,
        (Part::Parent, Part::Parent) => Rank::Same,
        (Part::Root, _) => Rank::Before,
        (_, Part::Root) => Rank::After,
        (Part::Current, _) => Rank::Before,
        (_, Part::Current) => Rank::After,
        (Part::Parent, _) => Rank::Before,
        (_, Part::Parent) => Rank::After,
    }
}

/// How two paths stand to each other.
pub fn rank_paths(a: &str, b: &str) -> (r: Rank)
    ensures
        r == path_rank(a@, b@),
{
    let x = path_parts(a);
    let y = path_parts(b);
    let ghost p = parts(a@);
    let ghost q = parts(b@);
    let mut i: usize = 0;
    proof {
        assert(p.skip(0) =~= p);
        assert(q.skip(0) =~= q);
    }
    loop
        invariant
            p == parts(a@),
            q == parts(b@),
            part_views(x@) == p,
            part_views(y@) == q,
            i <= x@.len(),
            i <= y@.len(),
            parts_rank(p, q) == parts_rank(p.skip(i as int), q.skip(i as int)),
        decreases x@.len() - i,
    {
        if i == x.len() {
            if i == y.len() {
                return Rank::Same;
            }
            return Rank::Before;
        }
        if i == y.len() {
            return Rank::After;
        }
        proof {
            assert(p.skip(i as int).drop_first() =~= p.skip(i + 1));
            assert(q.skip(i as int).drop_first() =~= q.skip(i + 1));
            assert(p.skip(i as int)[0] == part_view(x@[i as int]));
            assert(q.skip(i as int)[0] == part_view(y@[i as int]));
        }
        match rank_parts(&x[i], &y[i]) {
            Rank::Same => {
                i = i + 1;
            },
            other => {
                return other;
            },
        }
    }
}

proof fn lemma_text_rank(a: Seq<char>, b: Seq<char>)
    ensures
        text_rank(a, b) == Rank::Same <==> a == b,
        text_rank(a, b) == Rank::Before <==> text_rank(b, a) == Rank::After,
{
    lemma_text_less_total(a, b);
    lemma_text_less_irreflexive(a);
    if text_less(a, b) && text_less(b, a) {
        lemma_text_less_transitive(a, b, a);
    }
}

proof fn lemma_part_rank(a: PartView, b: PartView)
    ensures
        part_rank(a, b) == Rank::Same <==> a == b,
        part_rank(a, b) == Rank::Before <==> part_rank(b, a) == Rank::After,
{
    match (a, b) {
        (PartView::Normal(x), PartView::Normal(y)) => {
            lemma_text_rank(x, y);
        },
        _ => {},
    }
}

proof fn lemma_part_rank_transitive(a: PartView, b: PartView, c: PartView)
    requires
        part_rank(a, b) == Rank::Before,
        part_rank(b, c) == Rank::Before,
    ensures
        part_rank(a, c) == Rank::Before,
{
    match (a, b, c) {
        (PartView::Normal(x), PartView::Normal(y), PartView::Normal(z)) => {
            lemma_text_less_transitive(x, y, z);
            lemma_text_less_irreflexive(x);
        },
        _ => {},
    }
}

/// The rank of two sequences of parts turned around.
pub proof fn lemma_parts_rank(a: Seq<PartView>, b: Seq<PartView>)
    ensures
        parts_rank(a, b) == Rank::Same <==> a == b,
        parts_rank(a, b) == Rank::Before <==> parts_rank(b, a) == Rank::After,
    decreases a.len(),
{
    if a.len() > 0 && b.len() > 0 {
        lemma_part_rank(a[0], b[0]);
        lemma_part_rank(b[0], a[0]);
        lemma_parts_rank(a.drop_first(), b.drop_first());
        if a[0] == b[0] && a.drop_first() == b.drop_first() {
            assert(a =~= seq![a[0]] + a.drop_first());
            assert(b =~= seq![b[0]] + b.drop_first());
        }
    } else if a.len() == 0 && b.len() == 0 {
        assert(a =~= b);
    }
}

/// The order of sequences of parts is transitive.
pub proof fn lemma_parts_rank_transitive(a: Seq<PartView>, b: Seq<PartView>, c: Seq<PartView>)
    requires
        parts_rank(a, b) == Rank::Before,
        parts_rank(b, c) == Rank::Before,
    ensures
        parts_rank(a, c) == Rank::Before,
    decreases a.len(),
{
    if a.len() > 0 {
        lemma_part_rank(a[0], b[0]);
        lemma_part_rank(b[0], c[0]);
        if a[0] == b[0] && b[0] == c[0] {
            lemma_parts_rank_transitive(a.drop_first(), b.drop_first(), c.drop_first());
        } else if a[0] != b[0] && b[0] != c[0] {
            lemma_part_rank_transitive(a[0], b[0], c[0]);
        }
    }
}

/// The name that the last of some parts is, if it is one.
pub open spec fn last_name(parts: Seq<PartView>) -> Option<Seq<char>> {
    if parts.len() > 0 {
        match parts.last() {
            PartView::Normal(name) => Some(name),
            _ => None,
        }
    } else {
        None
    }
}

proof fn lemma_same_front(p: Seq<Seq<char>>, q: Seq<Seq<char>>, absolute: bool, n: nat)
    requires
        n <= p.len(),
        n <= q.len(),
        forall|i: int| 0 <= i < n ==> p[i] == q[i],
    ensures
        parts_up_to(p, absolute, n) == parts_up_to(q, absolute, n),
    decreases n,
{
    if n > 0 {
        lemma_same_front(p, q, absolute, (n - 1) as nat);
    }
}

proof fn lemma_last_of_split(s: Seq<char>)
    ensures
        split(s, '/').len() > 0,
        split(s, '/').last() == last_piece(s),
        s.len() > 0 && !s.contains('/') ==> split(s, '/').len() == 1,
        s.contains('/') ==> split(s, '/').len() > 1,
    decreases s.len(),
{
    lemma_last_place(s, '/');
    if s.len() == 0 {
        assert(last_piece(s) =~= seq![]);
    } else {
        let front = s.drop_last();
        lemma_last_of_split(front);
        lemma_last_place(front, '/');
        let p = last_place(s, '/');
        if s.last() == '/' {
            assert(s.contains(s.last()));
            assert(p == s.len() - 1);
            assert(last_piece(s) =~= seq![]);
        } else {
            let q = last_place(front, '/');
            assert(last_piece(s) =~= last_piece(front).push(s.last())) by {
                if q >= 0 {
                    assert(s[q] == '/');
                }
                if p >= 0 {
                    assert(front[p] == '/');
                }
                assert(p == q);
            }
            if s.contains('/') {
                let k = choose|k: int| 0 <= k < s.len() && s[k] == '/';
                assert(front[k] == '/');
            }
            if front.contains('/') {
                let k = choose|k: int| 0 <= k < front.len() && front[k] == '/';
                assert(s[k] == '/');
            }
        }
    }
}

/// The name in a path is its last part, if that is a name.
pub proof fn lemma_file_name_is_last_part(path: Seq<char>)
    ensures
        file_name(path) == last_name(parts(path)),
    decreases path.len(),
{
    let pieces = split(path, '/');
    let absolute = path.len() > 0 && path[0] == '/';
    lemma_last_of_split(path);
    let n = pieces.len();
    if path.len() > 0 && path.last() == '/' {
        let front = path.drop_last();
        lemma_file_name_is_last_part(front);
        lemma_last_of_split(front);
        let before = split(front, '/');
        lemma_same_front(pieces, before, absolute, before.len());
        if front.len() == 0 {
            assert(before == seq![Seq::<char>::empty()]);
            assert(parts_up_to(before, true, 0) == seq![PartView::Root]);
            assert(parts_up_to(before, true, 1) == seq![PartView::Root]);
            assert(parts_up_to(before, false, 0) == Seq::<PartView>::empty());
        }
    } else if path.len() > 1 && path.last() == '.' && path[path.len() - 2] == '/' {
        let front = path.drop_last();
        lemma_file_name_is_last_part(front);
        lemma_last_of_split(front);
        assert(front.last() == '/');
        let before = split(front, '/');
        assert(before.last() =~= seq![]);
        assert(pieces =~= before.drop_last().push(seq!['.']));
        assert(front.contains(front.last()));
        lemma_same_front(pieces, before, absolute, (n - 1) as nat);
        assert(part_of(pieces[n - 1], n - 1, absolute) is None);
        assert(part_of(before[n - 1], n - 1, absolute) is None);
    } else {
        let piece = last_piece(path);
        lemma_last_place(path, '/');
        let p = last_place(path, '/');
        if piece.len() == 0 {
            if path.len() > 0 {
                assert(p == path.len() - 1);
            }
            assert(pieces == seq![Seq::<char>::empty()]);
            assert(parts_up_to(pieces, absolute, 0) == Seq::<PartView>::empty());
        } else if piece == seq!['.'] {
            assert(path.last() == piece[piece.len() - 1]);
            assert(path.len() == p + 2);
            if p >= 0 {
                assert(path[path.len() - 2] == '/');
            }
            assert(path =~= seq!['.']);
            if path.contains('/') {
                let k = choose|k: int| 0 <= k < path.len() && path[k] == '/';
            }
            assert(n == 1);
            assert(part_of(pieces[0], 0, false) == Some(PartView::Current));
        }
    }
}

/// The name of what was put into a directory is the name that was given.
pub proof fn lemma_file_name_of_join(base: Seq<char>, name: Seq<char>)
    requires
        name.len() > 0,
        !name.contains('/'),
        !name.contains('.') || name.len() > 2,
    ensures
        file_name(join_paths(base, name)) == Some(name),
{
    let path = join_paths(base, name);
    let n = name.len() as int;
    let start = path.len() - n;
    assert(name.contains(name[0]));
    assert(name.contains(name[n - 1]));
    if n > 1 {
        assert(name.contains(name[n - 2]));
        assert(path[path.len() - 2] == name[n - 2]);
    }
    assert(path.last() == name[n - 1]);
    assert(trim_tail(path) == path);
    lemma_last_place(path, '/');
    let p = last_place(path, '/');
    if p >= start {
        assert(path[p] == name[p - start]);
        assert(name.contains(name[p - start]));
    }
    if start > 0 {
        assert(path[start - 1] == '/');
    }
    assert(last_piece(path) =~= name);
}

} // verus!
