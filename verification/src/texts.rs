//! The order of texts and paths, and how texts are taken apart and put together.

use crate::path::{PartView, extension, file_name, file_stem, join_bytes, join_paths, lemma_file_name_of_join, part_of, parts, parts_rank, parts_up_to, path_rank, split};
use crate::text::{ascii_lower, decimal, is_digits, join, last_place, lemma_decimal_is_digits, lemma_last_place, same_ignoring_ascii_case, text_less, text_rank};
use vstd::prelude::*;

verus! {

/// The texts are the same up to a place, and there the first one ends or has the smaller
/// character.
pub open spec fn first_differs_at(a: Seq<char>, b: Seq<char>, k: int) -> bool {
    &&& 0 <= k <= a.len()
    &&& k < b.len()
    &&& a.take(k) == b.take(k)
    &&& k == a.len() || (a[k] as int) < (b[k] as int)
}

/// A text comes before another where at the first difference it ends or has the smaller
/// character.
pub proof fn law_text_order(a: Seq<char>, b: Seq<char>)
    ensures
        text_less(a, b) <==> exists|k: int| #[trigger] first_differs_at(a, b, k),
    decreases a.len(),
{
    if b.len() > 0 && a.len() > 0 {
        let x = a.drop_first();
        let y = b.drop_first();
        law_text_order(x, y);
        if text_less(a, b) {
            if a[0] == b[0] {
                let k = choose|k: int| #[trigger] first_differs_at(x, y, k);
                assert(a.take(k + 1) =~= b.take(k + 1)) by {
                    assert forall|i: int| 0 <= i < k + 1 implies a[i] == b[i] by {
                        if i > 0 {
                            assert(x.take(k)[i - 1] == a[i]);
                            assert(y.take(k)[i - 1] == b[i]);
                        }
                    }
                }
                assert(first_differs_at(a, b, k + 1));
            } else {
                assert(a.take(0) =~= b.take(0));
                assert(first_differs_at(a, b, 0));
            }
        }
        if exists|k: int| #[trigger] first_differs_at(a, b, k) {
            let k = choose|k: int| #[trigger] first_differs_at(a, b, k);
            if k > 0 {
                assert(a.take(k)[0] == b.take(k)[0]);
                assert(x.take(k - 1) =~= y.take(k - 1)) by {
                    assert forall|i: int| 0 <= i < k - 1 implies x[i] == y[i] by {
                        assert(a.take(k)[i + 1] == b.take(k)[i + 1]);
                    }
                }
                assert(first_differs_at(x, y, k - 1));
            }
        }
    } else if b.len() > 0 {
        assert(a.take(0) =~= b.take(0));
        assert(first_differs_at(a, b, 0));
    } else if exists|k: int| #[trigger] first_differs_at(a, b, k) {
        let k = choose|k: int| #[trigger] first_differs_at(a, b, k);
    }
}

proof fn lemma_split_is_filled(s: Seq<char>, sep: char)
    ensures
        split(s, sep).len() > 0,
    decreases s.len(),
{
    if s.len() > 0 {
        lemma_split_is_filled(s.drop_last(), sep);
    }
}

proof fn lemma_join_grows(pieces: Seq<Seq<char>>, sep: Seq<char>, c: char)
    requires
        pieces.len() > 0,
    ensures
        join(pieces.drop_last().push(pieces.last().push(c)), sep) == join(pieces, sep).push(c),
        join(pieces.push(seq![]), sep) == join(pieces, sep) + sep,
{
    let longer = pieces.drop_last().push(pieces.last().push(c));
    assert(longer.drop_last() =~= pieces.drop_last());
    if pieces.len() > 1 {
        assert(join(longer, sep) =~= join(pieces, sep).push(c));
    }
    let more = pieces.push(seq![]);
    assert(more.drop_last() =~= pieces);
    assert(join(pieces, sep) + sep + Seq::<char>::empty() =~= join(pieces, sep) + sep);
}

/// The pieces of a text, joined by the separator, make up the text again, and there is no
/// separator in any of them.
pub proof fn law_splitting_and_joining(s: Seq<char>, sep: char)
    ensures
        join(split(s, sep), seq![sep]) == s,
        forall|i: int|
            0 <= i < split(s, sep).len() ==> !(#[trigger] split(s, sep)[i]).contains(sep),
    decreases s.len(),
{
    if s.len() == 0 {
        assert(s =~= seq![]);
    } else {
        let front = s.drop_last();
        let before = split(front, sep);
        law_splitting_and_joining(front, sep);
        lemma_split_is_filled(front, sep);
        lemma_join_grows(before, seq![sep], s.last());
        assert(front.push(s.last()) =~= s);
        assert(front + seq![sep] =~= front.push(sep));
        let pieces = split(s, sep);
        assert forall|i: int| 0 <= i < pieces.len() implies !(#[trigger] pieces[i]).contains(
            sep,
        ) by {
            if i < before.len() - 1 {
                assert(pieces[i] == before[i]);
            } else if s.last() == sep {
                if i == before.len() - 1 {
                    assert(pieces[i] == before[i]);
                }
            } else {
                let last = before.last();
                assert(pieces[i] == last.push(s.last()));
                assert(!before[before.len() - 1].contains(sep));
                if pieces[i].contains(sep) {
                    let k = choose|k: int| 0 <= k < pieces[i].len() && pieces[i][k] == sep;
                    assert(last[k] == sep);
                }
            }
        }
    }
}

/// Joined texts start with the first and end with the last of them, and are as long as all
/// of them with the separators between them.
pub proof fn law_joining(texts: Seq<Seq<char>>, sep: Seq<char>)
    requires
        texts.len() > 0,
    ensures
        texts[0].is_prefix_of(join(texts, sep)),
        texts.last().is_suffix_of(join(texts, sep)),
        texts.len() > 1 ==> join(texts, sep) == join(texts.drop_last(), sep) + (sep
            + texts.last()),
    decreases texts.len(),
{
    let all = join(texts, sep);
    let last = texts.last();
    if texts.len() > 1 {
        let front = texts.drop_last();
        law_joining(front, sep);
        let before = join(front, sep);
        let tail = sep + last;
        assert(all == before + tail) by {
            assert(before + sep + last =~= before + tail);
        }
        lemma_front_of_sum(texts[0], before, tail);
        lemma_back_of_sum(before + sep, last);
        assert(all == before + sep + last);
    } else {
        lemma_front_of_sum(all, all, seq![]);
        assert(all + Seq::<char>::empty() =~= all);
        lemma_back_of_sum(seq![], all);
        assert(Seq::<char>::empty() + all =~= all);
    }
}

proof fn lemma_front_of_sum(a: Seq<char>, b: Seq<char>, c: Seq<char>)
    requires
        a.is_prefix_of(b),
    ensures
        a.is_prefix_of(b + c),
{
    assert((b + c).subrange(0, a.len() as int) =~= b.subrange(0, a.len() as int));
}

proof fn lemma_back_of_sum(a: Seq<char>, b: Seq<char>)
    ensures
        b.is_suffix_of(a + b),
{
    assert((a + b).subrange(a.len() as int, (a + b).len() as int) =~= b);
}

pub proof fn lemma_split_longer(s: Seq<char>, t: Seq<char>, sep: char)
    requires
        !t.contains(sep),
    ensures
        split(s + t, sep) == split(s, sep).drop_last().push(split(s, sep).last() + t),
    decreases t.len(),
{
    lemma_split_is_filled(s, sep);
    let pieces = split(s, sep);
    if t.len() == 0 {
        assert(s + t =~= s);
        assert(pieces.last() + t =~= pieces.last());
        assert(pieces.drop_last().push(pieces.last()) =~= pieces);
    } else {
        let front = t.drop_last();
        if front.contains(sep) {
            let k = choose|k: int| 0 <= k < front.len() && front[k] == sep;
            assert(t[k] == sep);
        }
        lemma_split_longer(s, front, sep);
        assert((s + t).drop_last() =~= s + front);
        assert((s + t).last() == t.last());
        assert(t.contains(t.last()));
        let before = split(s + front, sep);
        assert(before.drop_last() =~= pieces.drop_last());
        assert((pieces.last() + front).push(t.last()) =~= pieces.last() + t);
    }
}

proof fn lemma_parts_go_by_pieces(
    a: Seq<Seq<char>>,
    b: Seq<Seq<char>>,
    absolute: bool,
    n: nat,
)
    requires
        n <= a.len(),
        n <= b.len(),
        forall|i: int| 0 <= i < n ==> a[i] == b[i],
    ensures
        parts_up_to(a, absolute, n) == parts_up_to(b, absolute, n),
    decreases n,
{
    if n > 0 {
        lemma_parts_go_by_pieces(a, b, absolute, (n - 1) as nat);
    }
}

proof fn lemma_rank_of_last(front: Seq<PartView>, a: Seq<char>, b: Seq<char>)
    ensures
        parts_rank(front.push(PartView::Normal(a)), front.push(PartView::Normal(b))) == text_rank(
            a,
            b,
        ),
    decreases front.len(),
{
    reveal_with_fuel(parts_rank, 2);
    let x = front.push(PartView::Normal(a));
    let y = front.push(PartView::Normal(b));
    if front.len() == 0 {
        assert(x.drop_first() =~= seq![]);
        assert(y.drop_first() =~= seq![]);
    } else {
        lemma_rank_of_last(front.drop_first(), a, b);
        assert(x.drop_first() =~= front.drop_first().push(PartView::Normal(a)));
        assert(y.drop_first() =~= front.drop_first().push(PartView::Normal(b)));
        assert(x[0] == front[0] && y[0] == front[0]);
    }
}

/// The name of a file or directory.
pub open spec fn is_name(name: Seq<char>) -> bool {
    name.len() > 0 && !name.contains('/') && name != seq!['.'] && name != seq!['.', '.']
}

/// The pieces of the directory, in front of what is put into it.
proof fn lemma_pieces_in_directory(base: Seq<char>, name: Seq<char>) -> (front: Seq<Seq<char>>)
    requires
        is_name(name),
    ensures
        split(join_paths(base, name), '/') == front.push(name),
        front == (if base.len() == 0 {
            seq![]
        } else if base.last() == '/' {
            split(base, '/').drop_last()
        } else {
            split(base, '/')
        }),
{
    if base.len() == 0 {
        assert(split(base, '/') == seq![Seq::<char>::empty()]);
        lemma_split_longer(base, name, '/');
        assert(split(base, '/').drop_last() =~= seq![]);
        assert(Seq::<char>::empty() + name =~= name);
        assert(name.contains(name[0]));
        split(base, '/').drop_last()
    } else if base.last() == '/' {
        lemma_split_longer(base, name, '/');
        assert(Seq::<char>::empty() + name =~= name);
        assert(name.contains(name[0]));
        assert(split(base, '/').last() == Seq::<char>::empty());
        split(base, '/').drop_last()
    } else {
        let s = base + seq!['/'];
        assert(s.drop_last() =~= base);
        assert(split(s, '/') == split(base, '/').push(seq![]));
        lemma_split_longer(s, name, '/');
        assert(Seq::<char>::empty() + name =~= name);
        assert(split(s, '/').drop_last() =~= split(base, '/'));
        assert(name.contains(name[0]));
        split(base, '/')
    }
}

/// Two paths in the same directory stand to each other as their names do.
pub proof fn law_paths_in_a_directory_go_by_name(base: Seq<char>, a: Seq<char>, b: Seq<char>)
    requires
        is_name(a),
        is_name(b),
    ensures
        path_rank(join_paths(base, a), join_paths(base, b)) == text_rank(a, b),
{
    let x = join_paths(base, a);
    let y = join_paths(base, b);
    let front = lemma_pieces_in_directory(base, a);
    let same = lemma_pieces_in_directory(base, b);
    assert(front == same);
    let p = front.push(a);
    let q = front.push(b);
    let n = front.len();
    assert(a.contains(a[0]) && b.contains(b[0]));
    let absolute = x[0] == '/';
    if base.len() > 0 {
        assert(x[0] == base[0] && y[0] == base[0]);
    } else {
        assert(x[0] == a[0] && y[0] == b[0]);
    }
    lemma_parts_go_by_pieces(p, q, absolute, n);
    let before = parts_up_to(p, absolute, n);
    assert(part_of(p[n as int], n as int, absolute) == Some(PartView::Normal(a)));
    assert(part_of(q[n as int], n as int, absolute) == Some(PartView::Normal(b)));
    assert(parts(x) == before.push(PartView::Normal(a)));
    assert(parts(y) == before.push(PartView::Normal(b)));
    lemma_rank_of_last(before, a, b);
}

/// Only the two cases of a letter from A to Z are the same when case is ignored.
pub proof fn law_ignoring_case(c: char, d: char)
    ensures
        same_ignoring_ascii_case(seq![c], seq![d]) <==> c == d || ('A' <= c <= 'Z' && d as int == c
            as int + 32) || ('A' <= d <= 'Z' && c as int == d as int + 32),
{
    let a = seq![c];
    let b = seq![d];
    assert(a[0] == c && b[0] == d);
    if same_ignoring_ascii_case(a, b) {
        assert(ascii_lower(a[0]) == ascii_lower(b[0]));
    }
    if 'A' <= c <= 'Z' {
        assert((c as int + 32) as char as int == c as int + 32);
    }
    if 'A' <= d <= 'Z' {
        assert((d as int + 32) as char as int == d as int + 32);
    }
}

/// Two texts are the same when case is ignored where all of their characters are, one by
/// one.
pub proof fn law_ignoring_case_goes_by_character(a: Seq<char>, b: Seq<char>)
    ensures
        same_ignoring_ascii_case(a, b) <==> a.len() == b.len() && forall|i: int|
            0 <= i < a.len() ==> same_ignoring_ascii_case(
                seq![#[trigger] a[i]],
                seq![#[trigger] b[i]],
            ),
{
    if same_ignoring_ascii_case(a, b) {
        assert forall|i: int| 0 <= i < a.len() implies same_ignoring_ascii_case(
            seq![#[trigger] a[i]],
            seq![#[trigger] b[i]],
        ) by {
            assert(ascii_lower(a[i]) == ascii_lower(b[i]));
        }
    }
    if a.len() == b.len() && forall|i: int|
        0 <= i < a.len() ==> same_ignoring_ascii_case(
            seq![#[trigger] a[i]],
            seq![#[trigger] b[i]],
        ) {
        assert forall|i: int| 0 <= i < a.len() implies ascii_lower(#[trigger] a[i]) == ascii_lower(
            b[i],
        ) by {
            let x = seq![a[i]];
            let y = seq![b[i]];
            assert(same_ignoring_ascii_case(x, y));
            assert(ascii_lower(x[0]) == ascii_lower(y[0]));
        }
    }
}

/// A number is written with digits alone, and does not start with a zero unless it is zero.
pub proof fn law_numbers_are_written_without_zeros_in_front(n: nat)
    ensures
        decimal(n).len() > 0,
        n > 0 ==> decimal(n)[0] != '0',
        n == 0 ==> decimal(n) == seq!['0'],
        is_digits(decimal(n)),
    decreases n,
{
    if n >= 10 {
        law_numbers_are_written_without_zeros_in_front(n / 10);
        assert(decimal(n)[0] == decimal(n / 10)[0]);
    }
    lemma_decimal_is_digits(n);
}

/// A name has the extension that stands behind its last dot, and the stem that stands in
/// front of it, in whatever directory it is.
pub proof fn law_stem_and_extension(base: Seq<char>, stem: Seq<char>, ext: Seq<char>)
    requires
        stem.len() > 0,
        ext.len() > 0,
        !stem.contains('/'),
        !ext.contains('/'),
        !ext.contains('.'),
    ensures
        file_name(join_paths(base, stem + seq!['.'] + ext)) == Some(stem + seq!['.'] + ext),
        extension(join_paths(base, stem + seq!['.'] + ext)) == Some(ext),
        file_stem(join_paths(base, stem + seq!['.'] + ext)) == Some(stem),
{
    let name = stem + seq!['.'] + ext;
    let n = stem.len() as int;
    if name.contains('/') {
        let i = choose|i: int| 0 <= i < name.len() && name[i] == '/';
        if i < n {
            assert(stem[i] == '/');
        } else if i > n {
            assert(ext[i - n - 1] == '/');
        }
    }
    lemma_file_name_of_join(base, name);
    lemma_last_place(name, '.');
    let p = last_place(name, '.');
    assert(name[n] == '.');
    if p > n {
        assert(ext[p - n - 1] == '.');
    }
    assert(name.skip(n + 1) =~= ext);
    assert(name.take(n) =~= stem);
}

/// A name without a dot has no extension, and neither has one whose only dot is in front.
pub proof fn law_names_without_extension(base: Seq<char>, name: Seq<char>)
    requires
        name.len() > 2,
        !name.contains('/'),
        !name.drop_first().contains('.'),
    ensures
        extension(join_paths(base, name)) is None,
        file_stem(join_paths(base, name)) == Some(name),
{
    lemma_file_name_of_join(base, name);
    lemma_last_place(name, '.');
    let p = last_place(name, '.');
    if p > 0 {
        assert(name.drop_first()[p - 1] == '.');
    }
}

/// Separators at the end of a path do not count.
pub proof fn law_separators_at_the_end(path: Seq<char>)
    ensures
        file_name(path.push('/')) == file_name(path),
        extension(path.push('/')) == extension(path),
        file_stem(path.push('/')) == file_stem(path),
{
    assert(path.push('/').drop_last() =~= path);
}

/// A separator stands between a directory and what is in it, once; an absolute path stays
/// as it is.
pub proof fn law_joining_bytes(base: Seq<u8>, name: Seq<u8>)
    requires
        name.len() > 0,
    ensures
        name[0] == 47 ==> join_bytes(base, name) == name,
        name[0] != 47 && base.len() > 0 && base.last() != 47 ==> join_bytes(base, name) == base
            + seq![47u8] + name && join_bytes(base.push(47), name) == join_bytes(base, name),
        name[0] != 47 && base.len() == 0 ==> join_bytes(base, name) == name,
{
    assert(base.push(47) =~= base + seq![47u8]);
    assert(Seq::<u8>::empty() + name =~= name);
    if base.len() == 0 {
        assert(base =~= seq![]);
    }
}

} // verus!
