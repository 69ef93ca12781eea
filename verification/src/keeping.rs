//! Which snapshots are kept, found and shown first, and under which names.

use crate::gdu::{NodeView, PLAIN_SNAPSHOT_SUFFIX, SNAPSHOT_FILE_SUFFIX};
use crate::index::{SizeMetric, exact_size, law_sizes_are_sums, sizes_of};
use crate::path::{join_paths, lemma_file_name_of_join};
use crate::sort::arranged_view;
use crate::store::{MAX_BUCKET_NAME_LEN, bucket_name, disk_usage, encoded, encoded_byte, is_last_smallest, is_plain_byte, is_pruned, is_snapshot_path, law_saved_name_is_read_back, law_snapshot_order_goes_by_keys, law_snapshot_order_is_total, lemma_without_underscores, newest_first, nth_newest, or_path, shot_name, snapshot_paths, snapshot_rank, stem_text, without_underscores};
use crate::text::Rank;
use vstd::prelude::*;
use vstd::utf8::{encode_utf8, is_ascii_chars, is_ascii_chars_encode_utf8};

verus! {

/// Those of some files that are snapshots are all found, in their order, and no others.
pub proof fn law_all_snapshots_are_found(paths: Seq<Seq<char>>)
    ensures
        snapshot_paths(paths) == paths.filter(|path: Seq<char>| is_snapshot_path(path)),
    decreases paths.len(),
{
    reveal(Seq::filter);
    if paths.len() > 0 {
        law_all_snapshots_are_found(paths.drop_last());
    }
}

/// A file is taken for a snapshot where its name ends in `.json` or in `.json.zst`.
pub proof fn law_names_of_snapshots(base: Seq<char>, name: Seq<char>)
    requires
        name.len() > 2,
        !name.contains('/'),
    ensures
        is_snapshot_path(join_paths(base, name)) <==> seq!['.', 'j', 's', 'o', 'n'].is_suffix_of(
            name,
        ) || seq!['.', 'j', 's', 'o', 'n', '.', 'z', 's', 't'].is_suffix_of(name),
{
    reveal_strlit(".json");
    reveal_strlit(".json.zst");
    assert(PLAIN_SNAPSHOT_SUFFIX@ =~= seq!['.', 'j', 's', 'o', 'n']);
    assert(SNAPSHOT_FILE_SUFFIX@ =~= seq![
        '.',
        'j',
        's',
        'o',
        'n',
        '.',
        'z',
        's',
        't',
    ]);
    lemma_file_name_of_join(base, name);
}

/// Of two snapshots that were saved, the one with the later time comes first, and of those
/// with the same time the one with the greater number.
pub proof fn law_later_snapshots_come_first(
    bucket: Seq<char>,
    time: u64,
    number: u32,
    other_time: u64,
    other_number: u32,
)
    requires
        time > other_time || (time == other_time && number > other_number),
    ensures
        ({
            let a = join_paths(bucket, shot_name(stem_text(time as nat), number as nat));
            let b = join_paths(
                bucket,
                shot_name(stem_text(other_time as nat), other_number as nat),
            );
            snapshot_rank(a, b) == Rank::Before && snapshot_rank(b, a) == Rank::After
        }),
{
    let a = join_paths(bucket, shot_name(stem_text(time as nat), number as nat));
    let b = join_paths(bucket, shot_name(stem_text(other_time as nat), other_number as nat));
    law_saved_name_is_read_back(bucket, time, number);
    law_saved_name_is_read_back(bucket, other_time, other_number);
    law_snapshot_order_goes_by_keys(a, b);
    law_snapshot_order_is_total(a, b, a);
}

/// The snapshot with a number is the one that has so many less one before it: none of these
/// is older, and none of the others is newer. There is one for every number from one to how
/// many snapshots there are.
pub proof fn law_numbers_count_from_the_newest(
    paths: Seq<Seq<char>>,
    places: Seq<usize>,
    number: nat,
    i: int,
)
    requires
        newest_first(paths, places),
        0 <= i < paths.len(),
    ensures
        nth_newest(arranged_view(paths, places), number) is Some <==> 1 <= number <= paths.len(),
        nth_newest(arranged_view(paths, places), number) matches Some(path) ==> {
            &&& paths.contains(path)
            &&& i < number - 1 ==> snapshot_rank(arranged_view(paths, places)[i], path)
                != Rank::After
            &&& i == number - 1 ==> arranged_view(paths, places)[i] == path
            &&& i > number - 1 ==> snapshot_rank(path, arranged_view(paths, places)[i])
                != Rank::After
        },
{
    let list = arranged_view(paths, places);
    if 1 <= number <= paths.len() {
        let k = number - 1;
        assert(places[k] < paths.len());
        assert(list[k] == paths[places[k] as int]);
        if i < k {
            assert(places[i] != places[k]);
        } else if i > k {
            assert(places[k] != places[i]);
        }
    }
}

/// No size is less than the smallest, and of several that are the same the last one counts,
/// so that there is only one.
pub proof fn law_one_smallest(sizes: Seq<u64>, i: int, j: int)
    requires
        is_last_smallest(sizes, i),
        0 <= j < sizes.len(),
    ensures
        sizes[i] <= sizes[j],
        sizes[i] == sizes[j] ==> j <= i,
        is_last_smallest(sizes, j) ==> i == j,
{
    if is_last_smallest(sizes, j) {
        if i < j {
            assert(sizes[i] < sizes[j]);
        } else if j < i {
            assert(sizes[j] < sizes[i]);
        }
    }
}

/// Every snapshot is either removed or kept for one of two reasons: it is one of the newest
/// three, or no other one is smaller.
pub proof fn law_what_is_kept(sizes: Seq<u64>, i: int)
    requires
        0 <= i < sizes.len(),
    ensures
        !is_pruned(sizes, i) ==> i < 3 || forall|j: int|
            0 <= j < sizes.len() ==> sizes[i] <= #[trigger] sizes[j],
        is_pruned(sizes, i) ==> i >= 3 && exists|j: int|
            0 <= j < sizes.len() && (#[trigger] sizes[j] < sizes[i] || (sizes[j] == sizes[i] && j
                > i)),
{
    if is_pruned(sizes, i) {
        if !(forall|j: int| 0 <= j < sizes.len() ==> sizes[i] <= #[trigger] sizes[j]) {
            let j = choose|j: int| 0 <= j < sizes.len() && sizes[i] > #[trigger] sizes[j];
            assert(sizes[j] < sizes[i]);
        } else {
            let j = choose|j: int| i < j < sizes.len() && !(sizes[i] < #[trigger] sizes[j]);
            assert(sizes[j] == sizes[i]);
        }
    }
}

/// The disk usage of a tree is the disk size of its root in the index, as long as that
/// fits in 64 bits; that of a file is its disk size.
pub proof fn law_disk_usage(node: NodeView)
    ensures
        exact_size(node, SizeMetric::Disk) <= u64::MAX ==> disk_usage(node)
            == sizes_of(node).disk,
        node matches NodeView::File { disk_size, .. } ==> disk_usage(node) == disk_size,
{
    law_sizes_are_sums(node, SizeMetric::Disk);
}

/// A character that stands for itself in the name of a bucket: a letter, a digit or `-`.
pub open spec fn is_plain_char(c: char) -> bool {
    'a' <= c <= 'z' || 'A' <= c <= 'Z' || '0' <= c <= '9' || c == '-'
}

proof fn lemma_encoded_plain(text: Seq<char>, bytes: Seq<u8>)
    requires
        text.len() == bytes.len(),
        forall|i: int|
            0 <= i < text.len() ==> is_plain_char(#[trigger] text[i]) && bytes[i] == text[i] as u8,
    ensures
        encoded(bytes) == text,
    decreases text.len(),
{
    if text.len() == 0 {
        assert(text =~= seq![]);
    } else {
        let front = text.drop_last();
        assert forall|i: int| 0 <= i < front.len() implies is_plain_char(#[trigger] front[i])
            && bytes.drop_last()[i] == front[i] as u8 by {
            assert(front[i] == text[i]);
        }
        lemma_encoded_plain(front, bytes.drop_last());
        let c = text.last();
        assert(is_plain_char(text[text.len() - 1]));
        let b = bytes.last();
        assert(b == c as u8);
        assert(b as char == c);
        assert(is_plain_byte(b));
        assert(encoded_byte(b) == seq![c]);
        assert(front + seq![c] =~= text);
    }
}

/// The bucket of a path that is made of letters, digits and `-` alone bears its name.
pub proof fn law_plain_names_stay(text: Seq<char>)
    requires
        text.len() <= MAX_BUCKET_NAME_LEN,
        forall|i: int| 0 <= i < text.len() ==> is_plain_char(#[trigger] text[i]),
    ensures
        bucket_name(text) == text,
{
    assert(is_ascii_chars(text)) by {
        assert forall|i: int| 0 <= i < text.len() implies '\0' <= #[trigger] text[i]
            <= '\u{7f}' by {
            assert(is_plain_char(text[i]));
        }
    }
    is_ascii_chars_encode_utf8(text);
    let bytes = encode_utf8(text);
    assert forall|i: int| 0 <= i < text.len() implies is_plain_char(#[trigger] text[i]) && bytes[i]
        == text[i] as u8 by {
        assert(bytes[i] == text[i] as u8);
    }
    lemma_encoded_plain(text, bytes);
}

/// The bucket of a long path starts like the path, as far as it is kept.
pub proof fn law_long_names_keep_their_start(path: Seq<char>)
    requires
        encoded(encode_utf8(path)).len() > MAX_BUCKET_NAME_LEN,
    ensures
        exists|n: int|
            0 <= n <= 102 && bucket_name(path).len() >= n + 2 && #[trigger] bucket_name(path).take(n)
                == encoded(encode_utf8(path)).take(n) && (n > 0 ==> bucket_name(path)[n - 1]
                != '_'),
{
    reveal_strlit("__");
    let name = encoded(encode_utf8(path));
    let head = name.take(102);
    lemma_without_underscores(head);
    lemma_last_is_not_underscore(head);
    let kept = without_underscores(head);
    let n = kept.len() as int;
    let bucket = bucket_name(path);
    if n > 0 {
        assert(or_path(kept) == kept);
        assert(bucket.take(n) =~= kept);
        assert(kept =~= name.take(n));
        assert(bucket[n - 1] == kept.last());
    } else {
        assert(bucket.take(0) =~= name.take(0));
    }
}

proof fn lemma_last_is_not_underscore(s: Seq<char>)
    ensures
        without_underscores(s).len() > 0 ==> without_underscores(s).last() != '_',
    decreases s.len(),
{
    if s.len() > 0 && s.last() == '_' {
        lemma_last_is_not_underscore(s.drop_last());
    }
}

} // verus!
