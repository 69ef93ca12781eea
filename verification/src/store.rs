//! The store of snapshots: where the snapshots of a directory are kept, under which
//! names, in which order, and which of them are removed.

use crate::gdu::{GduNode, NodeView, PLAIN_SNAPSHOT_SUFFIX, SNAPSHOT_FILE_SUFFIX, lemma_dir_view, node_views, strip_snapshot_suffix, without_snapshot_suffix};
use crate::index::{SizeMetric, exact_size, exact_total};
use crate::path::{as_directory, bytes_in, file_name, join_bytes, join_paths, lemma_file_name_is_last_part, lemma_file_name_of_join, lemma_parts_rank, lemma_parts_rank_transitive, name_in_path, parts, path_in, path_rank, rank_paths};
use crate::sort::{Ranked, arranged, arranged_view, is_arrangement, lemma_orders_arranges, precedes, sorted_places};
use crate::text::{Rank, chars_of, copied, decimal, decimal_text, ends_with, find_first, first_place, is_digits, joined_pair, law_decimal_reads_back, lemma_decimal_is_digits, lemma_first_place, number_up_to, parse_number, strip_prefix, text_between, text_of, view_option, without_prefix};
use std::cmp::Ordering;
use vstd::prelude::*;
use vstd::string::StringExecFns;
use vstd::utf8::{encode_utf8, encode_utf8_decode_utf8, is_ascii_chars, is_ascii_chars_encode_utf8};

verus! {

/// The directory of this program among the data of the user.
pub const APPLICATION: &'static str = "gdu-diff";

/// The directory of the snapshots in it.
pub const SNAPSHOTS: &'static str = "snapshots";

/// How long the name of a bucket may be.
pub const MAX_BUCKET_NAME_LEN: usize = 120;

/// How much of a long name is kept in front of its hash.
pub const BUCKET_PREFIX_LEN: usize = 102;

/// How many of the newest snapshots of a directory are kept.
pub const MAX_SHOTS_PER_BUCKET: usize = 3;

/// How many snapshots may have the same time.
pub const MAX_SAME_TIME: u32 = 1000;

/// What is wrong with the store.
#[derive(Debug)]
pub enum StoreError {
    NoDataDir,
    ZeroOrdinal,
    TooManyAtOnce { bucket: String },
}

/// What is wrong, as views.
pub enum StoreErrorView {
    NoDataDir,
    ZeroOrdinal,
    TooManyAtOnce { bucket: Seq<char> },
}

/// The message for an error.
pub open spec fn store_message(error: StoreErrorView) -> Seq<char> {
    match error {
        StoreErrorView::NoDataDir => "failed to determine user data directory from dirs-next"@,
        StoreErrorView::ZeroOrdinal => "shot index must start at 1"@,
        StoreErrorView::TooManyAtOnce { bucket } =>
            "too many snapshots with the same timestamp in "@ + bucket,
    }
}

impl StoreError {
    /// What is wrong.
    pub open spec fn view(&self) -> StoreErrorView {
        match *self {
            StoreError::NoDataDir => StoreErrorView::NoDataDir,
            StoreError::ZeroOrdinal => StoreErrorView::ZeroOrdinal,
            StoreError::TooManyAtOnce { bucket } => StoreErrorView::TooManyAtOnce {
                bucket: bucket@,
            },
        }
    }

    /// The message for the user.
    pub fn message(&self) -> (r: String)
        ensures
            r@ == store_message(self@),
    {
        match self {
            StoreError::NoDataDir => copied(
                "failed to determine user data directory from dirs-next",
            ),
            StoreError::ZeroOrdinal => copied("shot index must start at 1"),
            StoreError::TooManyAtOnce { bucket } => joined_pair(
                "too many snapshots with the same timestamp in ",
                bucket.as_str(),
            ),
        }
    }
}

/// A snapshot that was saved: its path, in the bytes that the system has for it.
#[derive(Clone, Debug)]
pub struct StoredSnapshot {
    pub source: Vec<u8>,
}

/// The store of snapshots. Its directories are paths in the bytes that the system has for
/// them, which need not be Unicode.
#[derive(Clone, Debug)]
pub struct SnapshotStore {
    pub data_dir: Vec<u8>,
    pub snapshots_dir: Vec<u8>,
}

/// `dirs_next::data_dir` gives the path of the directory for the data of the user,
/// if there is one, here in the bytes of `OsStr::as_encoded_bytes`. It depends on the
/// environment, so nothing is claimed of it.
#[verifier::external_body]
fn user_data_dir() -> (r: Option<Vec<u8>>) {
    match dirs_next::data_dir() {
        Some(path) => Some(path.as_os_str().as_encoded_bytes().to_vec()),
        None => None,
    }
}

/// The store is that in a directory for data.
pub open spec fn is_store_in(store: SnapshotStore, base: Seq<u8>) -> bool {
    &&& store.data_dir@ == join_bytes(base, encode_utf8(APPLICATION@))
    &&& store.snapshots_dir@ == join_bytes(store.data_dir@, encode_utf8(SNAPSHOTS@))
}

impl SnapshotStore {
    /// The store among the data of the user.
    pub fn new() -> (r: Result<SnapshotStore, StoreError>)
        ensures
            match r {
                Ok(store) => exists|base: Seq<u8>| #[trigger] is_store_in(store, base),
                Err(error) => error@ == StoreErrorView::NoDataDir,
            },
    {
        SnapshotStore::from_data_dir(user_data_dir())
    }

    /// The store in the given directory for data, if there is one.
    pub fn from_data_dir(base: Option<Vec<u8>>) -> (r: Result<SnapshotStore, StoreError>)
        ensures
            match base {
                Some(base) => r matches Ok(store) && is_store_in(store, base@),
                None => r matches Err(error) && error@ == StoreErrorView::NoDataDir,
            },
    {
        match base {
            Some(base) => {
                let data_dir = bytes_in(&base, APPLICATION);
                let snapshots_dir = bytes_in(&data_dir, SNAPSHOTS);
                let store = SnapshotStore { data_dir, snapshots_dir };
                assert(is_store_in(store, base@));
                Ok(store)
            },
            None => Err(StoreError::NoDataDir),
        }
    }

    /// The directory of this program.
    pub fn data_dir(&self) -> (r: &[u8])
        ensures
            r@ == self.data_dir@,
    {
        self.data_dir.as_slice()
    }

    /// The directory in which the snapshots of a directory are kept.
    pub fn bucket_dir_for(&self, canonical_target: &str) -> (r: Vec<u8>)
        ensures
            r@ == join_bytes(self.snapshots_dir@, encode_utf8(bucket_name(canonical_target@))),
    {
        bytes_in(&self.snapshots_dir, encode_bucket_name(canonical_target).as_str())
    }
}

/// A byte that stands for itself in the name of a bucket: a letter, a digit or `-`.
pub open spec fn is_plain_byte(b: u8) -> bool {
    97 <= b <= 122 || 65 <= b <= 90 || 48 <= b <= 57 || b == 45
}

/// A hexadecimal digit, with capital letters.
pub open spec fn hex_digit(d: nat) -> char {
    if d < 10 {
        (48 + d) as char
    } else {
        (55 + d) as char
    }
}

/// How a byte is written in the name of a bucket: as itself, or as `_` and its two
/// hexadecimal digits.
pub open spec fn encoded_byte(b: u8) -> Seq<char> {
    if is_plain_byte(b) {
        seq![b as char]
    } else {
        seq!['_', hex_digit((b / 16) as nat), hex_digit((b % 16) as nat)]
    }
}

/// How bytes are written in the name of a bucket.
pub open spec fn encoded(bytes: Seq<u8>) -> Seq<char>
    decreases bytes.len(),
{
    if bytes.len() == 0 {
        seq![]
    } else {
        encoded(bytes.drop_last()) + encoded_byte(bytes.last())
    }
}

/// The start of the hash.
pub const OFFSET_BASIS: u64 = 0xcbf2_9ce4_8422_2325;

/// The factor of the hash.
pub const HASH_PRIME: u64 = 0x0000_0100_0000_01b3;

/// The FNV-1a hash of 64 bits.
pub open spec fn fnv(bytes: Seq<u8>) -> u64
    decreases bytes.len(),
{
    if bytes.len() == 0 {
        OFFSET_BASIS
    } else {
        (fnv(bytes.drop_last()) ^ (bytes.last() as u64)).wrapping_mul(HASH_PRIME)
    }
}

/// The last `n` hexadecimal digits of a number.
pub open spec fn hex_digits(value: nat, n: nat) -> Seq<char>
    decreases n,
{
    if n == 0 {
        seq![]
    } else {
        hex_digits(value / 16, (n - 1) as nat).push(hex_digit(value % 16))
    }
}

/// A text without the underscores at its end.
pub open spec fn without_underscores(s: Seq<char>) -> Seq<char>
    decreases s.len(),
{
    if s.len() > 0 && s.last() == '_' {
        without_underscores(s.drop_last())
    } else {
        s
    }
}

/// The text, or the word `path` in place of an empty one.
pub open spec fn or_path(s: Seq<char>) -> Seq<char> {
    if s.len() == 0 {
        "path"@
    } else {
        s
    }
}

/// The name of the bucket for a path: the path with each byte that is not plain in
/// hexadecimal, and where that is too long its start and the hash of the path.
pub open spec fn bucket_name(input: Seq<char>) -> Seq<char> {
    let bytes = encode_utf8(input);
    let name = encoded(bytes);
    if name.len() <= MAX_BUCKET_NAME_LEN {
        name
    } else {
        or_path(without_underscores(name.take(BUCKET_PREFIX_LEN as int))) + "__"@ + hex_digits(
            fnv(bytes) as nat,
            16,
        )
    }
}

/// A hexadecimal digit.
pub fn hex(value: u8) -> (r: char)
    requires
        value < 16,
    ensures
        r == hex_digit(value as nat),
{
    if value < 10 {
        (48 + value) as char
    } else {
        (55 + value) as char
    }
}

/// The last `n` hexadecimal digits of a number.
fn hex_text(value: u64, n: u8) -> (r: String)
    ensures
        r@ == hex_digits(value as nat, n as nat),
    decreases n,
{
    if n == 0 {
        let out = String::new();
        assert(out@ =~= seq![]);
        out
    } else {
        let mut out = hex_text(value / 16, n - 1);
        out.push(hex((value % 16) as u8));
        out
    }
}

/// The hash of some bytes, in hexadecimal.
pub fn stable_hash_suffix(bytes: &[u8]) -> (r: String)
    ensures
        r@ == hex_digits(fnv(bytes@) as nat, 16),
{
    let mut hash: u64 = OFFSET_BASIS;
    let mut i: usize = 0;
    assert(bytes@.take(0) =~= seq![]);
    while i < bytes.len()
        invariant
            i <= bytes@.len(),
            hash == fnv(bytes@.take(i as int)),
        decreases bytes@.len() - i,
    {
        proof {
            assert(bytes@.take(i + 1).drop_last() =~= bytes@.take(i as int));
        }
        hash = (hash ^ (bytes[i] as u64)).wrapping_mul(HASH_PRIME);
        i = i + 1;
    }
    assert(bytes@.take(i as int) =~= bytes@);
    hex_text(hash, 16)
}

/// How bytes are written in the name of a bucket.
fn encode_bytes(bytes: &[u8]) -> (r: Vec<char>)
    ensures
        r@ == encoded(bytes@),
{
    let mut out: Vec<char> = Vec::new();
    let mut i: usize = 0;
    assert(bytes@.take(0) =~= seq![]);
    assert(out@ =~= seq![]);
    while i < bytes.len()
        invariant
            i <= bytes@.len(),
            out@ == encoded(bytes@.take(i as int)),
        decreases bytes@.len() - i,
    {
        let b: u8 = bytes[i];
        let ghost before = out@;
        proof {
            assert(bytes@.take(i + 1).drop_last() =~= bytes@.take(i as int));
            assert(bytes@.take(i + 1).last() == b);
        }
        if (97 <= b && b <= 122) || (65 <= b && b <= 90) || (48 <= b && b <= 57) || b == 45 {
            out.push(b as char);
        } else {
            out.push('_');
            out.push(hex(b / 16));
            out.push(hex(b % 16));
        }
        assert(out@ =~= before + encoded_byte(b));
        i = i + 1;
    }
    assert(bytes@.take(i as int) =~= bytes@);
    out
}

/// The name of the bucket for a path.
pub fn encode_bucket_name(input: &str) -> (r: String)
    ensures
        r@ == bucket_name(input@),
{
    let bytes = input.as_bytes();
    let name = encode_bytes(bytes);
    if name.len() <= MAX_BUCKET_NAME_LEN {
        return text_of(&name);
    }
    let hash = stable_hash_suffix(bytes);
    let mut end: usize = BUCKET_PREFIX_LEN;
    let ghost front = name@.take(BUCKET_PREFIX_LEN as int);
    while end > 0 && name[end - 1] == '_'
        invariant
            end <= BUCKET_PREFIX_LEN < name@.len(),
            front == name@.take(BUCKET_PREFIX_LEN as int),
            without_underscores(front) == without_underscores(name@.take(end as int)),
        decreases end,
    {
        assert(name@.take(end as int).drop_last() =~= name@.take(end - 1));
        end = end - 1;
    }
    let mut out = if end == 0 {
        copied("path")
    } else {
        text_between(&name, 0, end)
    };
    proof {
        assert(name@.subrange(0, end as int) =~= name@.take(end as int));
        assert(out@ == or_path(without_underscores(front)));
    }
    out.append("__");
    out.append(hash.as_str());
    out
}

/// The key in the name of a snapshot: the time and the number among those of that time.
pub open spec fn name_key(name: Seq<char>) -> Option<(u64, u32)> {
    match without_prefix(without_snapshot_suffix(name), "shot-"@) {
        Some(rest) => {
            let dash = first_place(rest, '-');
            if dash < 0 {
                match number_up_to(rest, u64::MAX as nat) {
                    Some(time) => Some((time as u64, 0u32)),
                    None => None,
                }
            } else {
                match (
                    number_up_to(rest.take(dash), u64::MAX as nat),
                    number_up_to(rest.skip(dash + 1), u32::MAX as nat),
                ) {
                    (Some(time), Some(ordinal)) => Some((time as u64, ordinal as u32)),
                    _ => None,
                }
            }
        },
        None => None,
    }
}

/// The key of the snapshot at a path.
pub open spec fn sort_key(path: Seq<char>) -> Option<(u64, u32)> {
    match file_name(path) {
        Some(name) => name_key(name),
        None => None,
    }
}

/// The key of the snapshot at a path.
pub fn snapshot_name_sort_key(path: &str) -> (r: Option<(u64, u32)>)
    ensures
        r == sort_key(path@),
{
    let name = match name_in_path(path) {
        Some(name) => name,
        None => {
            return None;
        },
    };
    let stem = strip_snapshot_suffix(name.as_str());
    let rest = match strip_prefix(stem.as_str(), "shot-") {
        Some(rest) => rest,
        None => {
            return None;
        },
    };
    let chars = chars_of(rest.as_str());
    match find_first(&chars, '-') {
        Some(dash) => {
            let count: usize = chars.len();
            let time = text_between(&chars, 0, dash);
            let ordinal = text_between(&chars, dash + 1, count);
            assert(time@ =~= rest@.take(dash as int));
            assert(ordinal@ =~= rest@.skip(dash + 1));
            match parse_number(ordinal.as_str(), u32::MAX as u64) {
                Some(ordinal) => match parse_number(time.as_str(), u64::MAX) {
                    Some(time) => Some((time, ordinal as u32)),
                    None => None,
                },
                None => None,
            }
        },
        None => match parse_number(rest.as_str(), u64::MAX) {
            Some(time) => Some((time, 0)),
            None => None,
        },
    }
}

/// A key is smaller than another.
pub open spec fn key_less(a: (u64, u32), b: (u64, u32)) -> bool {
    a.0 < b.0 || (a.0 == b.0 && a.1 < b.1)
}

/// How two snapshots stand in the order from the newest to the oldest; those whose names
/// tell no time come last.
pub open spec fn snapshot_rank(left: Seq<char>, right: Seq<char>) -> Rank {
    match (sort_key(left), sort_key(right)) {
        (Some(a), Some(b)) => if key_less(b, a) {
            Rank::Before
        } else if key_less(a, b) {
            Rank::After
        } else {
            path_rank(right, left)
        },
        (Some(_), None) => Rank::Before,
        (None, Some(_)) => Rank::After,
        (None, None) => path_rank(right, left),
    }
}

/// How two snapshots stand in the order from the newest to the oldest.
pub fn rank_snapshots(left: &str, right: &str) -> (r: Rank)
    ensures
        r == snapshot_rank(left@, right@),
{
    match (snapshot_name_sort_key(left), snapshot_name_sort_key(right)) {
        (Some(a), Some(b)) => {
            if b.0 < a.0 || (b.0 == a.0 && b.1 < a.1) {
                Rank::Before
            } else if a.0 < b.0 || (a.0 == b.0 && a.1 < b.1) {
                Rank::After
            } else {
                rank_paths(right, left)
            }
        },
        (Some(_), None) => Rank::Before,
        (None, Some(_)) => Rank::After,
        (None, None) => rank_paths(right, left),
    }
}

/// How two snapshots stand in the order from the newest to the oldest.
pub fn compare_snapshot_path_order(left: &str, right: &str) -> (r: Ordering)
    ensures
        r == (match snapshot_rank(left@, right@) {
            Rank::Before => Ordering::Less,
            Rank::Same => Ordering::Equal,
            Rank::After => Ordering::Greater,
        }),
{
    match rank_snapshots(left, right) {
        Rank::Before => Ordering::Less,
        Rank::Same => Ordering::Equal,
        Rank::After => Ordering::Greater,
    }
}

/// The path of a snapshot.
struct SnapshotPath {
    text: String,
}

proof fn lemma_path_rank(a: Seq<char>, b: Seq<char>)
    ensures
        path_rank(a, b) == Rank::Before <==> path_rank(b, a) == Rank::After,
        path_rank(a, b) == Rank::Same <==> path_rank(b, a) == Rank::Same,
        path_rank(a, a) == Rank::Same,
{
    lemma_parts_rank(parts(a), parts(b));
    lemma_parts_rank(parts(b), parts(a));
    lemma_parts_rank(parts(a), parts(a));
}

proof fn lemma_path_rank_transitive(a: Seq<char>, b: Seq<char>, c: Seq<char>)
    ensures
        path_rank(a, b) == Rank::Before && path_rank(b, c) == Rank::Before ==> path_rank(a, c)
            == Rank::Before,
        path_rank(a, b) == Rank::Same ==> path_rank(a, c) == path_rank(b, c),
        path_rank(b, c) == Rank::Same ==> path_rank(a, b) == path_rank(a, c),
{
    lemma_parts_rank(parts(a), parts(b));
    lemma_parts_rank(parts(b), parts(c));
    if path_rank(a, b) == Rank::Before && path_rank(b, c) == Rank::Before {
        lemma_parts_rank_transitive(parts(a), parts(b), parts(c));
    }
}

impl Ranked for SnapshotPath {
    closed spec fn before(self, other: Self) -> bool {
        snapshot_rank(self.text@, other.text@) == Rank::Before
    }

    proof fn irreflexive(a: Self) {
        lemma_path_rank(a.text@, a.text@);
    }

    proof fn transitive(a: Self, b: Self, c: Self) {
        lemma_path_rank_transitive(c.text@, b.text@, a.text@);
    }

    proof fn separating(a: Self, b: Self, c: Self) {
        lemma_path_rank(a.text@, b.text@);
        lemma_path_rank(b.text@, c.text@);
        lemma_path_rank(a.text@, c.text@);
        lemma_path_rank_transitive(c.text@, b.text@, a.text@);
        lemma_path_rank_transitive(b.text@, a.text@, c.text@);
        lemma_path_rank_transitive(a.text@, c.text@, b.text@);
        lemma_path_rank_transitive(c.text@, a.text@, b.text@);
    }

    fn comes_before(&self, other: &Self) -> (r: bool) {
        match rank_snapshots(self.text.as_str(), other.text.as_str()) {
            Rank::Before => true,
            _ => false,
        }
    }
}

/// The path is that of a snapshot, by its name.
pub open spec fn is_snapshot_path(path: Seq<char>) -> bool {
    let name = match file_name(path) {
        Some(name) => name,
        None => seq![],
    };
    PLAIN_SNAPSHOT_SUFFIX@.is_suffix_of(name) || SNAPSHOT_FILE_SUFFIX@.is_suffix_of(name)
}

/// Whether a path is that of a snapshot, by its name.
pub fn names_snapshot(path: &str) -> (r: bool)
    ensures
        r == is_snapshot_path(path@),
{
    let name = match name_in_path(path) {
        Some(name) => name,
        None => {
            let none = String::new();
            assert(none@ =~= seq![]);
            none
        },
    };
    ends_with(name.as_str(), PLAIN_SNAPSHOT_SUFFIX) || ends_with(name.as_str(), SNAPSHOT_FILE_SUFFIX)
}

/// Those of some paths that are snapshots.
pub open spec fn snapshot_paths(paths: Seq<Seq<char>>) -> Seq<Seq<char>>
    decreases paths.len(),
{
    if paths.len() == 0 {
        seq![]
    } else if is_snapshot_path(paths.last()) {
        snapshot_paths(paths.drop_last()).push(paths.last())
    } else {
        snapshot_paths(paths.drop_last())
    }
}

/// The places of all snapshots, each once, from the newest to the oldest.
pub open spec fn newest_first(paths: Seq<Seq<char>>, places: Seq<usize>) -> bool {
    &&& is_arrangement(places, paths.len())
    &&& forall|k: int| 0 <= k < paths.len() ==> #[trigger] places.contains(k as usize)
    &&& forall|i: int, j: int|
        0 <= i < j < places.len() ==> {
            let rank = snapshot_rank(
                paths[#[trigger] places[i] as int],
                paths[#[trigger] places[j] as int],
            );
            rank == Rank::Before || (rank == Rank::Same && places[i] < places[j])
        }
}

/// The texts of a list.
pub open spec fn path_texts(list: Seq<String>) -> Seq<Seq<char>> {
    Seq::new(list.len(), |i: int| list[i]@)
}

spec fn inner_texts(list: Seq<SnapshotPath>) -> Seq<Seq<char>> {
    Seq::new(list.len(), |i: int| list[i].text@)
}

proof fn lemma_snapshot_rank(a: Seq<char>, b: Seq<char>)
    ensures
        snapshot_rank(a, b) == Rank::Before <==> snapshot_rank(b, a) == Rank::After,
        snapshot_rank(a, b) == Rank::Same <==> snapshot_rank(b, a) == Rank::Same,
{
    lemma_path_rank(a, b);
    lemma_path_rank(b, a);
}

/// The order of snapshots is total: turned around it is the other way round, it is
/// transitive, and it takes two paths for equal only if they are the same path, part by
/// part.
pub proof fn law_snapshot_order_is_total(a: Seq<char>, b: Seq<char>, c: Seq<char>)
    ensures
        snapshot_rank(a, b) == Rank::Before <==> snapshot_rank(b, a) == Rank::After,
        snapshot_rank(a, b) == Rank::Same <==> parts(a) == parts(b),
        snapshot_rank(a, b) == Rank::Before && snapshot_rank(b, c) == Rank::Before
            ==> snapshot_rank(a, c) == Rank::Before,
        snapshot_rank(a, b) == Rank::Same ==> snapshot_rank(a, c) == snapshot_rank(b, c),
        snapshot_rank(b, c) == Rank::Same ==> snapshot_rank(a, b) == snapshot_rank(a, c),
{
    lemma_snapshot_rank(a, b);
    lemma_parts_rank(parts(b), parts(a));
    lemma_parts_rank(parts(c), parts(b));
    lemma_parts_rank(parts(c), parts(a));
    lemma_file_name_is_last_part(a);
    lemma_file_name_is_last_part(b);
    lemma_file_name_is_last_part(c);
    lemma_path_rank_transitive(c, b, a);
}

/// What the order of two snapshots goes by: the greater key comes first, a snapshot with
/// a key comes before one without, and otherwise the greater path comes first.
pub proof fn law_snapshot_order_goes_by_keys(a: Seq<char>, b: Seq<char>)
    ensures
        match (sort_key(a), sort_key(b)) {
            (Some(x), Some(y)) => x != y ==> (snapshot_rank(a, b) == Rank::Before <==> x.0 > y.0
                || (x.0 == y.0 && x.1 > y.1)),
            (Some(_), None) => snapshot_rank(a, b) == Rank::Before,
            (None, Some(_)) => snapshot_rank(a, b) == Rank::After,
            (None, None) => true,
        },
        sort_key(a) == sort_key(b) ==> (snapshot_rank(a, b) == Rank::Before <==> path_rank(b, a)
            == Rank::Before),
{
}

/// Those of some paths that are snapshots, from the newest to the oldest.
pub fn ordered_snapshot_paths(paths: Vec<String>) -> (r: Vec<String>)
    ensures
        exists|places: Seq<usize>| #[trigger]
            newest_first(snapshot_paths(path_texts(paths@)), places) && path_texts(r@)
                == arranged_view(snapshot_paths(path_texts(paths@)), places),
{
    let ghost all = path_texts(paths@);
    let ghost given = paths@;
    let mut kept: Vec<SnapshotPath> = Vec::new();
    proof {
        assert(all.take(0) =~= seq![]);
        assert(inner_texts(kept@) =~= seq![]);
    }
    for path in iter: paths
        invariant
            iter.seq() == given,
            all == path_texts(given),
            inner_texts(kept@) == snapshot_paths(all.take(iter.index() as int)),
    {
        let ghost before = inner_texts(kept@);
        let ghost text = path@;
        proof {
            let n = iter.index() as int;
            assert(all.take(n + 1).drop_last() =~= all.take(n));
            assert(all.take(n + 1).last() == text);
        }
        if names_snapshot(path.as_str()) {
            kept.push(SnapshotPath { text: path });
            assert(inner_texts(kept@) =~= before.push(text));
        }
    }
    assert(all.take(given.len() as int) =~= all);
    let ghost base = inner_texts(kept@);
    let places = sorted_places(&kept);
    let ghost found = kept@;
    proof {
        lemma_orders_arranges(found, places@);
        assert forall|i: int, j: int| 0 <= i < j < places@.len() implies {
            let rank = snapshot_rank(
                base[#[trigger] places@[i] as int],
                base[#[trigger] places@[j] as int],
            );
            rank == Rank::Before || (rank == Rank::Same && places@[i] < places@[j])
        } by {
            assert(precedes(found, places@[i] as int, places@[j] as int));
            lemma_snapshot_rank(base[places@[i] as int], base[places@[j] as int]);
        }
        assert(newest_first(base, places@));
    }
    let sorted = arranged(kept, &places);
    let ghost in_order = sorted@;
    let mut out: Vec<String> = Vec::new();
    for path in iter: sorted
        invariant
            iter.seq() == in_order,
            out@.len() == iter.index(),
            forall|k: int| 0 <= k < out@.len() ==> (#[trigger] out@[k])@ == in_order[k].text@,
    {
        out.push(path.text);
    }
    assert(path_texts(out@) =~= arranged_view(base, places@));
    out
}

/// Of two snapshots whose names tell their times, the one that stands first is not the
/// older one, and a snapshot whose name tells its time stands before one whose name does
/// not.
pub proof fn law_newest_come_first(paths: Seq<Seq<char>>, places: Seq<usize>, i: int, j: int)
    requires
        newest_first(paths, places),
        0 <= i < j < places.len(),
    ensures
        match (
            sort_key(arranged_view(paths, places)[i]),
            sort_key(arranged_view(paths, places)[j]),
        ) {
            (Some(a), Some(b)) => !key_less(a, b),
            (None, Some(_)) => false,
            _ => true,
        },
{
    let rank = snapshot_rank(paths[places[i] as int], paths[places[j] as int]);
    assert(rank == Rank::Before || rank == Rank::Same);
}

/// The snapshot with a number, counted from 1 for the newest.
pub open spec fn nth_newest(paths: Seq<Seq<char>>, ordinal: nat) -> Option<Seq<char>> {
    if 1 <= ordinal <= paths.len() {
        Some(paths[ordinal - 1])
    } else {
        None
    }
}

/// The snapshot with a number, counted from 1 for the newest, of paths in order.
pub fn find_nth_latest_path(paths: &Vec<String>, ordinal_from_newest: usize) -> (r: Result<
    Option<String>,
    StoreError,
>)
    ensures
        match r {
            Ok(path) => ordinal_from_newest > 0 && view_option(path) == nth_newest(
                path_texts(paths@),
                ordinal_from_newest as nat,
            ),
            Err(error) => ordinal_from_newest == 0 && error@ == StoreErrorView::ZeroOrdinal,
        },
{
    if ordinal_from_newest == 0 {
        return Err(StoreError::ZeroOrdinal);
    }
    if ordinal_from_newest <= paths.len() {
        Ok(Some(copied(paths[ordinal_from_newest - 1].as_str())))
    } else {
        Ok(None)
    }
}

/// The size is the smallest, and the last one that is.
pub open spec fn is_last_smallest(sizes: Seq<u64>, i: int) -> bool {
    &&& 0 <= i < sizes.len()
    &&& forall|j: int| 0 <= j < sizes.len() ==> sizes[i] <= #[trigger] sizes[j]
    &&& forall|j: int| i < j < sizes.len() ==> sizes[i] < #[trigger] sizes[j]
}

/// The place of the smallest size, the last one of several.
pub fn find_smallest(sizes: &Vec<u64>) -> (r: Option<usize>)
    ensures
        match r {
            Some(i) => is_last_smallest(sizes@, i as int),
            None => sizes@.len() == 0,
        },
{
    if sizes.len() == 0 {
        return None;
    }
    let mut smallest: usize = 0;
    let mut i: usize = 1;
    while i < sizes.len()
        invariant
            1 <= i <= sizes@.len(),
            smallest < i,
            forall|j: int| 0 <= j < i ==> sizes@[smallest as int] <= #[trigger] sizes@[j],
            forall|j: int| smallest < j < i ==> sizes@[smallest as int] < #[trigger] sizes@[j],
        decreases sizes@.len() - i,
    {
        if sizes[smallest] >= sizes[i] {
            smallest = i;
        }
        i = i + 1;
    }
    Some(smallest)
}

/// The snapshot with the smallest size, the last one of several.
pub fn find_smallest_snapshot_path(paths: &Vec<String>, sizes: &Vec<u64>) -> (r: Option<String>)
    requires
        paths@.len() == sizes@.len(),
    ensures
        match r {
            Some(path) => exists|i: int| #[trigger]
                is_last_smallest(sizes@, i) && path@ == paths@[i]@,
            None => paths@.len() == 0,
        },
{
    match find_smallest(sizes) {
        Some(i) => Some(copied(paths[i].as_str())),
        None => None,
    }
}

/// The snapshot at a place from the newest is removed: it is not among those that are
/// kept for being new, nor is it the smallest.
pub open spec fn is_pruned(sizes: Seq<u64>, i: int) -> bool {
    MAX_SHOTS_PER_BUCKET <= i < sizes.len() && !is_last_smallest(sizes, i)
}

/// The places of the snapshots to remove, given the sizes from the newest to the oldest.
pub fn plan_pruning(sizes: &Vec<u64>) -> (r: Vec<usize>)
    ensures
        forall|k: int| 0 <= k < r@.len() ==> is_pruned(sizes@, #[trigger] r@[k] as int),
        forall|i: int| is_pruned(sizes@, i) ==> r@.contains(i as usize),
        forall|j: int, k: int| 0 <= j < k < r@.len() ==> #[trigger] r@[j] < #[trigger] r@[k],
        sizes@.len() <= MAX_SHOTS_PER_BUCKET ==> r@.len() == 0,
        sizes@.len() > MAX_SHOTS_PER_BUCKET ==> MAX_SHOTS_PER_BUCKET <= sizes@.len() - r@.len()
            <= MAX_SHOTS_PER_BUCKET + 1,
{
    let mut out: Vec<usize> = Vec::new();
    if sizes.len() <= MAX_SHOTS_PER_BUCKET {
        return out;
    }
    let protected = find_smallest(sizes);
    let mut i: usize = MAX_SHOTS_PER_BUCKET;
    while i < sizes.len()
        invariant
            MAX_SHOTS_PER_BUCKET <= i <= sizes@.len(),
            protected is Some,
            is_last_smallest(sizes@, protected->Some_0 as int),
            forall|k: int| 0 <= k < out@.len() ==> is_pruned(sizes@, #[trigger] out@[k] as int),
            forall|k: int| 0 <= k < out@.len() ==> #[trigger] out@[k] < i,
            forall|k: int|
                MAX_SHOTS_PER_BUCKET <= k < i && is_pruned(sizes@, k) ==> #[trigger] out@.contains(
                    k as usize,
                ),
            forall|j: int, k: int|
                0 <= j < k < out@.len() ==> #[trigger] out@[j] < #[trigger] out@[k],
            out@.len() == i - MAX_SHOTS_PER_BUCKET - (if MAX_SHOTS_PER_BUCKET
                <= protected->Some_0 < i {
                1int
            } else {
                0
            }),
        decreases sizes@.len() - i,
    {
        let ghost before = out@;
        let is_protected = match protected {
            Some(place) => place == i,
            None => false,
        };
        if !is_protected {
            proof {
                let p = protected->Some_0 as int;
                if is_last_smallest(sizes@, i as int) {
                    assert(sizes@[p] <= sizes@[i as int]);
                    assert(sizes@[i as int] <= sizes@[p]);
                    if p < i {
                        assert(sizes@[p] < sizes@[i as int]);
                    } else {
                        assert(sizes@[i as int] < sizes@[p]);
                    }
                }
            }
            out.push(i);
            assert(out@[before.len() as int] == i);
        }
        proof {
            assert forall|k: int|
                MAX_SHOTS_PER_BUCKET <= k < i + 1 && is_pruned(sizes@, k) implies #[trigger] out@.contains(
                k as usize,
            ) by {
                if k < i {
                    assert(before.contains(k as usize));
                    let x = choose|x: int| 0 <= x < before.len() && before[x] == k as usize;
                    assert(out@[x] == k as usize);
                }
            }
        }
        i = i + 1;
    }
    out
}

/// Pruning keeps the newest snapshots and the smallest one.
pub proof fn law_pruning_keeps_newest_and_smallest(sizes: Seq<u64>, i: int)
    requires
        0 <= i < sizes.len(),
    ensures
        i < MAX_SHOTS_PER_BUCKET ==> !is_pruned(sizes, i),
        is_last_smallest(sizes, i) ==> !is_pruned(sizes, i),
        is_pruned(sizes, i) ==> exists|j: int|
            0 <= j < sizes.len() && j != i && !is_pruned(sizes, j) && #[trigger] sizes[j]
                <= sizes[i],
{
    if is_pruned(sizes, i) {
        let j = lemma_some_smallest(sizes, sizes.len());
        assert(!is_pruned(sizes, j));
        assert(sizes[j] <= sizes[i]);
    }
}

proof fn lemma_some_smallest(sizes: Seq<u64>, n: nat) -> (i: int)
    requires
        0 < n <= sizes.len(),
    ensures
        is_last_smallest(sizes.take(n as int), i),
        n == sizes.len() ==> is_last_smallest(sizes, i),
    decreases n,
{
    let front = sizes.take(n as int);
    if n == sizes.len() {
        assert(front =~= sizes);
    }
    if n == 1 {
        assert(is_last_smallest(front, 0));
        0
    } else {
        let i = lemma_some_smallest(sizes, (n - 1) as nat);
        let shorter = sizes.take(n - 1);
        assert forall|j: int| 0 <= j < n - 1 implies #[trigger] front[j] == shorter[j] by {}
        if front[i] < front[n - 1] {
            assert(is_last_smallest(front, i));
            i
        } else {
            assert(is_last_smallest(front, n - 1));
            n - 1
        }
    }
}

/// The disk usage of a tree: the sum of the disk sizes of its files, modulo 2 to the 64th.
pub open spec fn disk_usage(node: NodeView) -> u64 {
    (exact_size(node, SizeMetric::Disk) % 0x1_0000_0000_0000_0000) as u64
}

/// The disk usage of a tree.
pub fn snapshot_disk_usage(node: &GduNode) -> (r: u64)
    ensures
        r == disk_usage(node@),
    decreases node,
{
    match node {
        GduNode::File(file) => file.disk_size,
        GduNode::Dir(dir) => {
            proof {
                lemma_dir_view(*dir);
            }
            let ghost all = node_views(dir.children@);
            let mut total: u64 = 0;
            let mut i: usize = 0;
            assert(all.take(0) =~= seq![]);
            while i < dir.children.len()
                invariant
                    *node == GduNode::Dir(*dir),
                    all == node_views(dir.children@),
                    i <= dir.children@.len(),
                    total == exact_total(all.take(i as int), SizeMetric::Disk)
                        % 0x1_0000_0000_0000_0000,
                decreases dir.children@.len() - i,
            {
                proof {
                    assert(all.take(i + 1).drop_last() =~= all.take(i as int));
                    assert(all.take(i + 1).last() == dir.children@[i as int]@);
                    assert(decreases_to!(*node => node->Dir_0.children@[i as int]));
                }
                let more: u64 = snapshot_disk_usage(&dir.children[i]);
                let sum: u64 = total.wrapping_add(more);
                proof {
                    let a = exact_total(all.take(i as int), SizeMetric::Disk) as int;
                    let b = exact_size(dir.children@[i as int]@, SizeMetric::Disk) as int;
                    lemma_wrapped_sum(a, b);
                }
                total = sum;
                i = i + 1;
            }
            assert(all.take(i as int) =~= all);
            total
        },
    }
}

proof fn lemma_wrapped_sum(a: int, b: int)
    requires
        a >= 0,
        b >= 0,
    ensures
        ({
            let m = 0x1_0000_0000_0000_0000int;
            let s = a % m + b % m;
            (a + b) % m == (if s >= m {
                s - m
            } else {
                s
            })
        }),
{
    let m = 0x1_0000_0000_0000_0000int;
    vstd::arithmetic::div_mod::lemma_add_mod_noop(a, b, m);
}

/// The name of a snapshot without what follows its time.
pub open spec fn stem_text(time: nat) -> Seq<char> {
    "shot-"@ + decimal(time)
}

/// The name of a snapshot without what follows its time: that of its export, or else the
/// given one.
pub fn shot_stem(exported_at: Option<u64>, now_millis: u128) -> (r: String)
    ensures
        r@ == stem_text(
            match exported_at {
                Some(time) => time as nat,
                None => now_millis as nat,
            },
        ),
{
    let time: u128 = match exported_at {
        Some(time) => time as u128,
        None => now_millis,
    };
    joined_pair("shot-", decimal_text(time).as_str())
}

/// The name of a snapshot: the first one of a time has no number.
pub open spec fn shot_name(stem: Seq<char>, attempt: nat) -> Seq<char> {
    if attempt == 0 {
        stem + SNAPSHOT_FILE_SUFFIX@
    } else {
        stem + "-"@ + decimal(attempt) + SNAPSHOT_FILE_SUFFIX@
    }
}

/// Where a snapshot is to be kept, at the given attempt to find a free name.
pub fn snapshot_candidate(bucket: &str, stem: &str, attempt: u32) -> (r: Result<
    String,
    StoreError,
>)
    ensures
        match r {
            Ok(path) => attempt < MAX_SAME_TIME && path@ == join_paths(
                bucket@,
                shot_name(stem@, attempt as nat),
            ),
            Err(error) => attempt >= MAX_SAME_TIME && error@ == (StoreErrorView::TooManyAtOnce {
                bucket: bucket@,
            }),
        },
{
    if attempt >= MAX_SAME_TIME {
        return Err(StoreError::TooManyAtOnce { bucket: copied(bucket) });
    }
    let mut name = copied(stem);
    if attempt > 0 {
        name.append("-");
        name.append(decimal_text(attempt as u128).as_str());
    }
    name.append(SNAPSHOT_FILE_SUFFIX);
    Ok(path_in(bucket, name.as_str()))
}

/// Where a snapshot is kept until its name is known.
pub fn pending_snapshot_path(bucket: &str, now_millis: u128) -> (r: String)
    ensures
        r@ == join_paths(
            bucket@,
            "pending-"@ + decimal(now_millis as nat) + SNAPSHOT_FILE_SUFFIX@,
        ),
{
    let mut name = copied("pending-");
    name.append(decimal_text(now_millis).as_str());
    name.append(SNAPSHOT_FILE_SUFFIX);
    path_in(bucket, name.as_str())
}

proof fn lemma_digits_have_no(s: Seq<char>, c: char)
    requires
        is_digits(s),
        c < '0' || '9' < c,
    ensures
        !s.contains(c),
        first_place(s, c) < 0,
{
    lemma_first_place(s, c);
    if s.contains(c) {
        let i = choose|i: int| 0 <= i < s.len() && s[i] == c;
        assert('0' <= s[i] <= '9');
    }
    if first_place(s, c) >= 0 {
        assert(s.contains(s[first_place(s, c)]));
    }
}

proof fn lemma_number_of_decimal(n: nat, limit: nat)
    requires
        n <= limit,
    ensures
        number_up_to(decimal(n), limit) == Some(n),
{
    law_decimal_reads_back(n);
}

/// What follows the time in the name of a snapshot.
spec fn number_part(attempt: nat) -> Seq<char> {
    if attempt == 0 {
        seq![]
    } else {
        "-"@ + decimal(attempt)
    }
}

proof fn lemma_name_of_parts(time: nat, attempt: nat)
    ensures
        shot_name(stem_text(time), attempt) == "shot-"@ + (decimal(time) + number_part(attempt))
            + SNAPSHOT_FILE_SUFFIX@,
{
    assert(shot_name(stem_text(time), attempt) =~= "shot-"@ + (decimal(time) + number_part(
        attempt,
    )) + SNAPSHOT_FILE_SUFFIX@);
}

proof fn lemma_key_of_parts(rest: Seq<char>)
    ensures
        without_snapshot_suffix("shot-"@ + rest + SNAPSHOT_FILE_SUFFIX@) == "shot-"@ + rest,
        without_prefix("shot-"@ + rest, "shot-"@) == Some(rest),
        SNAPSHOT_FILE_SUFFIX@.is_suffix_of("shot-"@ + rest + SNAPSHOT_FILE_SUFFIX@),
{
    let stem = "shot-"@ + rest;
    let suffix = SNAPSHOT_FILE_SUFFIX@;
    let name = stem + suffix;
    assert(name.subrange(name.len() - suffix.len(), name.len() as int) =~= suffix);
    assert(name.take(name.len() - suffix.len()) =~= stem);
    assert(stem.subrange(0, "shot-"@.len() as int) =~= "shot-"@);
    assert(stem.skip("shot-"@.len() as int) =~= rest);
}

proof fn lemma_number_in_name(time: u64, attempt: u32)
    ensures
        ({
            let rest = decimal(time as nat) + number_part(attempt as nat);
            let dash = first_place(rest, '-');
            &&& attempt == 0 ==> dash < 0 && number_up_to(rest, u64::MAX as nat) == Some(
                time as nat,
            )
            &&& attempt > 0 ==> dash >= 0 && number_up_to(rest.take(dash), u64::MAX as nat)
                == Some(time as nat) && number_up_to(rest.skip(dash + 1), u32::MAX as nat) == Some(
                attempt as nat,
            )
        }),
{
    reveal_strlit("-");
    let digits = decimal(time as nat);
    let rest = digits + number_part(attempt as nat);
    lemma_decimal_is_digits(time as nat);
    lemma_digits_have_no(digits, '-');
    lemma_number_of_decimal(time as nat, u64::MAX as nat);
    lemma_number_of_decimal(attempt as nat, u32::MAX as nat);
    lemma_first_place(rest, '-');
    let dash = first_place(rest, '-');
    if attempt == 0 {
        assert(rest =~= digits);
    } else {
        assert(rest[digits.len() as int] == '-');
        if dash < digits.len() {
            assert(digits[dash] == '-');
            assert(digits.contains('-'));
        }
        assert(rest.take(dash) =~= digits);
        assert(rest.skip(dash + 1) =~= decimal(attempt as nat));
    }
}

proof fn lemma_name_has_no_separator(time: nat, attempt: nat)
    ensures
        !shot_name(stem_text(time), attempt).contains('/'),
        shot_name(stem_text(time), attempt).len() > 2,
{
    reveal_strlit("shot-");
    reveal_strlit("-");
    reveal_strlit(".json.zst");
    lemma_name_of_parts(time, attempt);
    lemma_decimal_is_digits(time);
    lemma_decimal_is_digits(attempt);
    lemma_digits_have_no(decimal(time), '/');
    lemma_digits_have_no(decimal(attempt), '/');
    lemma_contains_in_sum("-"@, decimal(attempt), '/');
    lemma_contains_in_sum(decimal(time), number_part(attempt), '/');
    lemma_contains_in_sum("shot-"@, decimal(time) + number_part(attempt), '/');
    lemma_contains_in_sum(
        "shot-"@ + (decimal(time) + number_part(attempt)),
        SNAPSHOT_FILE_SUFFIX@,
        '/',
    );
    assert(!"shot-"@.contains('/'));
    assert(!"-"@.contains('/'));
    assert(!SNAPSHOT_FILE_SUFFIX@.contains('/'));
}

proof fn lemma_contains_in_sum(a: Seq<char>, b: Seq<char>, c: char)
    ensures
        (a + b).contains(c) ==> a.contains(c) || b.contains(c),
{
    if (a + b).contains(c) {
        let i = choose|i: int| 0 <= i < (a + b).len() && (a + b)[i] == c;
        if i < a.len() {
            assert(a[i] == c);
        } else {
            assert(b[i - a.len()] == c);
        }
    }
}

/// The name under which a snapshot is saved tells its time and its number, and is that
/// of a snapshot.
pub proof fn law_saved_name_is_read_back(bucket: Seq<char>, time: u64, attempt: u32)
    ensures
        sort_key(join_paths(bucket, shot_name(stem_text(time as nat), attempt as nat))) == Some(
            (time, attempt),
        ),
        is_snapshot_path(
            join_paths(bucket, shot_name(stem_text(time as nat), attempt as nat)),
        ),
{
    let rest = decimal(time as nat) + number_part(attempt as nat);
    lemma_name_of_parts(time as nat, attempt as nat);
    lemma_key_of_parts(rest);
    lemma_number_in_name(time, attempt);
    lemma_name_has_no_separator(time as nat, attempt as nat);
    lemma_file_name_of_join(bucket, shot_name(stem_text(time as nat), attempt as nat));
}

/// Two attempts to find a name never give the same one.
pub proof fn law_candidates_differ(bucket: Seq<char>, time: u64, a: u32, b: u32)
    requires
        a != b,
    ensures
        join_paths(bucket, shot_name(stem_text(time as nat), a as nat)) != join_paths(
            bucket,
            shot_name(stem_text(time as nat), b as nat),
        ),
{
    law_saved_name_is_read_back(bucket, time, a);
    law_saved_name_is_read_back(bucket, time, b);
}

/// A character that may stand in the name of a bucket.
pub open spec fn is_safe(c: char) -> bool {
    'a' <= c <= 'z' || 'A' <= c <= 'Z' || '0' <= c <= '9' || c == '-' || c == '_'
}

/// Every character may stand in the name of a bucket.
pub open spec fn all_safe(s: Seq<char>) -> bool {
    forall|i: int| 0 <= i < s.len() ==> is_safe(#[trigger] s[i])
}

proof fn lemma_encoded_safe(bytes: Seq<u8>)
    ensures
        all_safe(encoded(bytes)),
    decreases bytes.len(),
{
    if bytes.len() > 0 {
        lemma_encoded_safe(bytes.drop_last());
        let front = encoded(bytes.drop_last());
        let back = encoded_byte(bytes.last());
        let b = bytes.last();
        assert(b / 16 < 16 && b % 16 < 16);
        assert(all_safe(back));
        assert forall|i: int| 0 <= i < encoded(bytes).len() implies is_safe(
            #[trigger] encoded(bytes)[i],
        ) by {
            if i < front.len() {
                assert(encoded(bytes)[i] == front[i]);
            } else {
                assert(encoded(bytes)[i] == back[i - front.len()]);
            }
        }
    }
}

proof fn lemma_hex_digits_safe(value: nat, n: nat)
    ensures
        all_safe(hex_digits(value, n)),
        hex_digits(value, n).len() == n,
    decreases n,
{
    if n > 0 {
        lemma_hex_digits_safe(value / 16, (n - 1) as nat);
    }
}

pub proof fn lemma_without_underscores(s: Seq<char>)
    ensures
        without_underscores(s).len() <= s.len(),
        without_underscores(s) == s.take(without_underscores(s).len() as int),
    decreases s.len(),
{
    if s.len() > 0 && s.last() == '_' {
        lemma_without_underscores(s.drop_last());
        let n = without_underscores(s).len() as int;
        assert(s.drop_last().take(n) =~= s.take(n));
    } else {
        assert(s.take(s.len() as int) =~= s);
    }
}

/// The name of a bucket is made of letters, digits, `-` and `_`, and is not too long for
/// a file system.
pub proof fn law_bucket_names_are_safe(input: Seq<char>)
    ensures
        all_safe(bucket_name(input)),
        !bucket_name(input).contains('/'),
        bucket_name(input).len() <= MAX_BUCKET_NAME_LEN,
{
    reveal_strlit("path");
    reveal_strlit("__");
    let bytes = encode_utf8(input);
    let name = encoded(bytes);
    lemma_encoded_safe(bytes);
    if name.len() > MAX_BUCKET_NAME_LEN {
        let front = name.take(BUCKET_PREFIX_LEN as int);
        lemma_without_underscores(front);
        lemma_hex_digits_safe(fnv(bytes) as nat, 16);
        let kept = without_underscores(front);
        assert(all_safe(kept)) by {
            assert forall|i: int| 0 <= i < kept.len() implies is_safe(#[trigger] kept[i]) by {
                assert(kept[i] == name[i]);
            }
        }
        let start = or_path(kept);
        assert(all_safe(start));
        let hash = hex_digits(fnv(bytes) as nat, 16);
        assert forall|i: int| 0 <= i < bucket_name(input).len() implies is_safe(
            #[trigger] bucket_name(input)[i],
        ) by {
            if i < start.len() {
                assert(bucket_name(input)[i] == start[i]);
            } else if i < start.len() + 2 {
                assert(bucket_name(input)[i] == '_');
            } else {
                assert(bucket_name(input)[i] == hash[i - start.len() - 2]);
            }
        }
    }
    if bucket_name(input).contains('/') {
        let i = choose|i: int| 0 <= i < bucket_name(input).len() && bucket_name(input)[i] == '/';
        assert(is_safe(bucket_name(input)[i]));
    }
}

/// How bytes are written, from the front.
proof fn lemma_encoded_first(bytes: Seq<u8>)
    requires
        bytes.len() > 0,
    ensures
        encoded(bytes) == encoded_byte(bytes[0]) + encoded(bytes.drop_first()),
    decreases bytes.len(),
{
    if bytes.len() == 1 {
        assert(bytes.drop_last() =~= seq![]);
        assert(bytes.drop_first() =~= seq![]);
        assert(encoded(bytes) =~= encoded_byte(bytes[0]) + encoded(bytes.drop_first()));
    } else {
        lemma_encoded_first(bytes.drop_last());
        assert(bytes.drop_last().drop_first() =~= bytes.drop_first().drop_last());
        assert(encoded(bytes) =~= encoded_byte(bytes[0]) + (encoded(
            bytes.drop_first().drop_last(),
        ) + encoded_byte(bytes.last())));
    }
}

proof fn lemma_hex_digit_is_plain(d: nat)
    requires
        d < 16,
    ensures
        hex_digit(d) != '_',
        forall|e: nat| e < 16 && #[trigger] hex_digit(e) == hex_digit(d) ==> e == d,
{
}

proof fn lemma_encoded_differ(a: Seq<u8>, b: Seq<u8>)
    requires
        encoded(a) == encoded(b),
    ensures
        a == b,
    decreases a.len(),
{
    if a.len() > 0 {
        lemma_encoded_first(a);
    }
    if b.len() > 0 {
        lemma_encoded_first(b);
    }
    if a.len() == 0 || b.len() == 0 {
        if a.len() > 0 {
            assert(encoded_byte(a[0]).len() > 0);
            assert(encoded(a).len() > 0);
        }
        if b.len() > 0 {
            assert(encoded_byte(b[0]).len() > 0);
            assert(encoded(b).len() > 0);
        }
        assert(a =~= b);
    } else {
        if !is_plain_byte(a[0]) && is_plain_byte(b[0]) {
            assert(encoded(a)[0] == '_');
            assert(encoded(b)[0] == b[0] as char);
        }
        if is_plain_byte(a[0]) && !is_plain_byte(b[0]) {
            assert(encoded(b)[0] == '_');
            assert(encoded(a)[0] == a[0] as char);
        }
        let x = encoded_byte(a[0]);
        let y = encoded_byte(b[0]);
        if is_plain_byte(a[0]) {
            assert(encoded(a)[0] == a[0] as char);
            assert(encoded(b)[0] == b[0] as char);
        } else {
            assert(encoded(a)[1] == hex_digit((a[0] / 16) as nat));
            assert(encoded(b)[1] == hex_digit((b[0] / 16) as nat));
            assert(encoded(a)[2] == hex_digit((a[0] % 16) as nat));
            assert(encoded(b)[2] == hex_digit((b[0] % 16) as nat));
            lemma_hex_digit_is_plain((a[0] / 16) as nat);
            lemma_hex_digit_is_plain((a[0] % 16) as nat);
        }
        assert(a[0] == b[0]);
        let n = x.len() as int;
        assert(encoded(a).skip(n) =~= encoded(a.drop_first()));
        assert(encoded(b).skip(n) =~= encoded(b.drop_first()));
        lemma_encoded_differ(a.drop_first(), b.drop_first());
        assert(a =~= seq![a[0]] + a.drop_first());
        assert(b =~= seq![b[0]] + b.drop_first());
    }
}

/// Different paths have different buckets, as long as their names need not be shortened.
pub proof fn law_buckets_differ(a: Seq<char>, b: Seq<char>)
    requires
        a != b,
        encoded(encode_utf8(a)).len() <= MAX_BUCKET_NAME_LEN,
        encoded(encode_utf8(b)).len() <= MAX_BUCKET_NAME_LEN,
    ensures
        bucket_name(a) != bucket_name(b),
{
    if bucket_name(a) == bucket_name(b) {
        lemma_encoded_differ(encode_utf8(a), encode_utf8(b));
        encode_utf8_decode_utf8(a);
        encode_utf8_decode_utf8(b);
    }
}

/// Two underscores stand side by side in the text.
pub open spec fn has_double_underscore(s: Seq<char>) -> bool {
    exists|i: int| 0 <= i < s.len() - 1 && #[trigger] s[i] == '_' && s[i + 1] == '_'
}

proof fn lemma_encoded_has_no_double(bytes: Seq<u8>)
    ensures
        !has_double_underscore(encoded(bytes)),
        encoded(bytes).len() > 0 ==> encoded(bytes).last() != '_',
    decreases bytes.len(),
{
    if bytes.len() > 0 {
        lemma_encoded_has_no_double(bytes.drop_last());
        let front = encoded(bytes.drop_last());
        let b = bytes.last();
        let back = encoded_byte(b);
        let all = encoded(bytes);
        lemma_hex_digit_is_plain((b / 16) as nat);
        lemma_hex_digit_is_plain((b % 16) as nat);
        assert(all =~= front + back);
        assert(all.last() == back.last());
        if has_double_underscore(all) {
            let i = choose|i: int|
                0 <= i < all.len() - 1 && #[trigger] all[i] == '_' && all[i + 1] == '_';
            if i + 1 < front.len() {
                assert(front[i] == '_' && front[i + 1] == '_');
            } else if i + 1 == front.len() {
                assert(front.last() == '_');
            } else {
                assert(back[i - front.len()] == '_');
                assert(back[i - front.len() + 1] == '_');
            }
        }
    }
}

/// A path whose name need not be shortened and one whose name must be have different
/// buckets: only the name that is shortened has two underscores side by side.
pub proof fn law_short_and_long_buckets_differ(short: Seq<char>, long: Seq<char>)
    requires
        encoded(encode_utf8(short)).len() <= MAX_BUCKET_NAME_LEN,
        encoded(encode_utf8(long)).len() > MAX_BUCKET_NAME_LEN,
    ensures
        !has_double_underscore(bucket_name(short)),
        has_double_underscore(bucket_name(long)),
        bucket_name(short) != bucket_name(long),
{
    reveal_strlit("__");
    lemma_encoded_has_no_double(encode_utf8(short));
    let name = encoded(encode_utf8(long));
    let start = or_path(without_underscores(name.take(BUCKET_PREFIX_LEN as int)));
    let n = start.len() as int;
    assert(bucket_name(long)[n] == '_' && bucket_name(long)[n + 1] == '_');
}

/// A directory has a bucket of its own: it lies directly in the directory of the snapshots,
/// and no other directory has it, as long as their names need not be shortened.
pub proof fn law_directories_have_their_own_buckets(
    snapshots_dir: Seq<u8>,
    a: Seq<char>,
    b: Seq<char>,
)
    requires
        a != b,
        a.len() > 0,
        b.len() > 0,
        encoded(encode_utf8(a)).len() <= MAX_BUCKET_NAME_LEN,
        encoded(encode_utf8(b)).len() <= MAX_BUCKET_NAME_LEN,
    ensures
        ({
            let x = encode_utf8(bucket_name(a));
            let y = encode_utf8(bucket_name(b));
            &&& join_bytes(snapshots_dir, x) != join_bytes(snapshots_dir, y)
            &&& join_bytes(snapshots_dir, x) == as_directory(snapshots_dir) + x
            &&& x.len() > 0
            &&& !x.contains(47)
        }),
{
    let x = encode_utf8(bucket_name(a));
    let y = encode_utf8(bucket_name(b));
    let front = as_directory(snapshots_dir);
    law_buckets_differ(a, b);
    lemma_bucket_bytes(a);
    lemma_bucket_bytes(b);
    encode_utf8_decode_utf8(bucket_name(a));
    encode_utf8_decode_utf8(bucket_name(b));
    assert(x.contains(x[0]) && y.contains(y[0]));
    assert((front + x).skip(front.len() as int) =~= x);
    assert((front + y).skip(front.len() as int) =~= y);
}

proof fn lemma_bucket_bytes(path: Seq<char>)
    requires
        path.len() > 0,
        encoded(encode_utf8(path)).len() <= MAX_BUCKET_NAME_LEN,
    ensures
        encode_utf8(bucket_name(path)).len() > 0,
        !encode_utf8(bucket_name(path)).contains(47),
{
    let name = bucket_name(path);
    let bytes = encode_utf8(path);
    let x = encode_utf8(name);
    law_bucket_names_are_safe(path);
    encode_utf8_decode_utf8(path);
    if bytes.len() == 0 {
        encode_utf8_decode_utf8(Seq::<char>::empty());
        assert(encode_utf8(Seq::<char>::empty()) =~= bytes);
    }
    lemma_encoded_first(bytes);
    assert(encoded_byte(bytes[0]).len() > 0);
    assert forall|i: int| 0 <= i < name.len() implies (#[trigger] name[i]) as nat <= 127 by {
        assert(is_safe(name[i]));
    }
    assert(is_ascii_chars(name));
    is_ascii_chars_encode_utf8(name);
    if x.contains(47) {
        let i = choose|i: int| 0 <= i < x.len() && x[i] == 47;
        assert(is_safe(name[i]));
    }
}

proof fn lemma_hex_digits_differ(a: nat, b: nat, n: nat)
    requires
        hex_digits(a, n) == hex_digits(b, n),
        a < vstd::arithmetic::power::pow(16, n),
        b < vstd::arithmetic::power::pow(16, n),
    ensures
        a == b,
    decreases n,
{
    vstd::arithmetic::power::lemma_pow0(16);
    if n > 0 {
        let m = (n - 1) as nat;
        vstd::arithmetic::power::lemma_pow_adds(16, 1, m);
        vstd::arithmetic::power::lemma_pow1(16);
        let x = hex_digits(a, n);
        let y = hex_digits(b, n);
        assert(x.drop_last() =~= hex_digits(a / 16, m));
        assert(y.drop_last() =~= hex_digits(b / 16, m));
        assert(x.last() == hex_digit(a % 16));
        assert(y.last() == hex_digit(b % 16));
        lemma_hex_digit_is_plain(a % 16);
        assert(a % 16 == b % 16);
        lemma_hex_digits_differ(a / 16, b / 16, m);
    }
}

/// Two long paths with different hashes have different buckets.
pub proof fn law_long_buckets_differ(a: Seq<char>, b: Seq<char>)
    requires
        encoded(encode_utf8(a)).len() > MAX_BUCKET_NAME_LEN,
        encoded(encode_utf8(b)).len() > MAX_BUCKET_NAME_LEN,
        fnv(encode_utf8(a)) != fnv(encode_utf8(b)),
    ensures
        bucket_name(a) != bucket_name(b),
{
    let x = hex_digits(fnv(encode_utf8(a)) as nat, 16);
    let y = hex_digits(fnv(encode_utf8(b)) as nat, 16);
    lemma_hex_digits_safe(fnv(encode_utf8(a)) as nat, 16);
    lemma_hex_digits_safe(fnv(encode_utf8(b)) as nat, 16);
    if bucket_name(a) == bucket_name(b) {
        let n = bucket_name(a).len();
        assert(bucket_name(a).skip(n - 16) =~= x);
        assert(bucket_name(b).skip(n - 16) =~= y);
        assert(vstd::arithmetic::power::pow(16, 16) == 0x1_0000_0000_0000_0000) by {
            lemma_pow_16_16();
        }
        lemma_hex_digits_differ(fnv(encode_utf8(a)) as nat, fnv(encode_utf8(b)) as nat, 16);
    }
}

proof fn lemma_pow_16_16()
    ensures
        vstd::arithmetic::power::pow(16, 16) == 0x1_0000_0000_0000_0000,
{
    reveal_with_fuel(vstd::arithmetic::power::pow, 17);
}

} // verus!
