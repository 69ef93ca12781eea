//! What the arguments of the program can ask for.

use crate::cli::{Action, CliError, answers, first_failure, has_extension, is_json_like, is_reference, may_find, may_resolve, plan_of, shot_alias};
use crate::gdu::{COMPRESSED_SNAPSHOT_EXTENSION, GDU_EXPORT_EXTENSION};
use crate::path::{file_name, file_stem, join_paths, trim_tail};
use crate::text::{ascii_lower, decimal, is_digits, last_place, law_decimal_reads_back, lemma_last_place, number_of, same_ignoring_ascii_case};
use crate::texts::law_stem_and_extension;
use vstd::prelude::*;

verus! {

/// Every argument stands for a snapshot.
pub open spec fn all_references(args: Seq<Seq<char>>) -> bool {
    forall|i: int| 0 <= i < args.len() ==> is_json_like(#[trigger] args[i]) || shot_alias(
        args[i],
    ) is Some
}

/// Two or more snapshot files and numbers of saved snapshots, in whatever order they
/// stand, are compared with each other: each of them is looked up in the current
/// directory, and there is one file for each. Nothing is scanned. Where one is not found
/// the first such argument decides what is answered.
pub proof fn law_snapshots_are_compared<E, F: Fn(&str, &str) -> Result<String, E>>(
    args: Seq<Seq<char>>,
    current_dir: Seq<char>,
    resolve: F,
    r: Result<Action, CliError<E>>,
)
    requires
        answers(args, current_dir, resolve, r),
        args.len() >= 2,
        all_references(args),
    ensures
        match r {
            Ok(Action::CompareFiles { files }) => {
                &&& files@.len() == args.len()
                &&& forall|i: int|
                    0 <= i < args.len() ==> may_resolve(
                        resolve,
                        #[trigger] args[i],
                        current_dir,
                        Ok(files@[i]),
                    )
            },
            Err(CliError::Reference(error)) => exists|i: int|
                0 <= i < args.len() && may_resolve(
                    resolve,
                    #[trigger] args[i],
                    current_dir,
                    Err(error),
                ) && forall|j: int|
                    0 <= j < i ==> may_find(resolve, #[trigger] args[j], current_dir),
            _ => false,
        },
{
    assert forall|i: int| 0 <= i < args.len() implies is_reference(#[trigger] args[i]) by {}
    if let Err(CliError::Reference(error)) = r {
        let i = choose|i: int| #[trigger] first_failure(args, current_dir, resolve, i, error);
        assert(may_resolve(resolve, args[i], current_dir, Err(error)));
    }
}

/// A directory is only ever scanned if it is the current one, with one argument that
/// stands for a snapshot, or if it is an argument that stands for none. The snapshot that
/// it is compared with is looked up for that directory.
pub proof fn law_scanned_directories<E, F: Fn(&str, &str) -> Result<String, E>>(
    args: Seq<Seq<char>>,
    current_dir: Seq<char>,
    resolve: F,
    r: Result<Action, CliError<E>>,
)
    requires
        answers(args, current_dir, resolve, r),
    ensures
        r matches Ok(Action::CompareCurrentWithFile { file, target }) ==> {
            ||| {
                &&& target@ == current_dir
                &&& args.len() == 1
                &&& is_json_like(args[0]) || shot_alias(args[0]) is Some
                &&& may_resolve(resolve, args[0], current_dir, Ok(file))
            }
            ||| {
                &&& target@ == args[0]
                &&& args.len() == 2
                &&& !is_json_like(args[0]) && shot_alias(args[0]) is None
                &&& is_json_like(args[1]) || shot_alias(args[1]) is Some
                &&& may_resolve(resolve, args[1], args[0], Ok(file))
            }
        },
        r matches Ok(Action::DiffTarget { target }) ==> args.len() == 1 && target@ == args[0]
            && !is_json_like(args[0]) && shot_alias(args[0]) is None,
        !(r matches Ok(Action::Shot { .. })),
{
}

/// A single argument is always understood: a snapshot is compared with the current
/// directory, anything else is a directory to compare with its newest snapshot.
pub proof fn law_single_argument<E, F: Fn(&str, &str) -> Result<String, E>>(
    arg: Seq<char>,
    current_dir: Seq<char>,
    resolve: F,
    r: Result<Action, CliError<E>>,
)
    requires
        answers(seq![arg], current_dir, resolve, r),
    ensures
        !is_json_like(arg) && shot_alias(arg) is None ==> (r matches Ok(
            Action::DiffTarget { target },
        ) && target@ == arg),
        is_json_like(arg) || shot_alias(arg) is Some ==> match r {
            Ok(Action::CompareCurrentWithFile { file, target }) => target@ == current_dir
                && may_resolve(resolve, arg, current_dir, Ok(file)),
            Err(CliError::Reference(error)) => may_resolve(
                resolve,
                arg,
                current_dir,
                Err(error),
            ),
            _ => false,
        },
{
}

/// A directory and then a snapshot are compared with each other.
pub proof fn law_directory_and_snapshot<E, F: Fn(&str, &str) -> Result<String, E>>(
    directory: Seq<char>,
    snapshot: Seq<char>,
    current_dir: Seq<char>,
    resolve: F,
    r: Result<Action, CliError<E>>,
)
    requires
        answers(seq![directory, snapshot], current_dir, resolve, r),
        !is_json_like(directory) && shot_alias(directory) is None,
        is_json_like(snapshot) || shot_alias(snapshot) is Some,
    ensures
        match r {
            Ok(Action::CompareCurrentWithFile { file, target }) => target@ == directory
                && may_resolve(resolve, snapshot, directory, Ok(file)),
            Err(CliError::Reference(error)) => may_resolve(
                resolve,
                snapshot,
                directory,
                Err(error),
            ),
            _ => false,
        },
{
    let args = seq![directory, snapshot];
    assert(!is_reference(args[0]));
    assert(is_reference(args[1]));
}

/// Arguments are refused only where a directory stands among two or more of them
/// anywhere but as the first of two that is followed by a snapshot.
pub proof fn law_refused_arguments<E, F: Fn(&str, &str) -> Result<String, E>>(
    args: Seq<Seq<char>>,
    current_dir: Seq<char>,
    resolve: F,
    r: Result<Action, CliError<E>>,
)
    requires
        answers(args, current_dir, resolve, r),
        args.len() > 0,
    ensures
        r matches Err(CliError::Usage) <==> args.len() >= 2 && !all_references(args) && !(
        args.len() == 2 && all_references(args.skip(1))),
{
    let rest = args.skip(1);
    if args.len() == 2 {
        assert(rest[0] == args[1]);
        assert(all_references(rest) <==> is_reference(args[1]));
        if is_reference(args[0]) && is_reference(args[1]) {
            assert(all_references(args));
        }
    }
    if all_references(args) {
        assert forall|i: int| 0 <= i < args.len() implies is_reference(#[trigger] args[i]) by {}
    }
    if forall|i: int| 0 <= i < args.len() ==> is_reference(#[trigger] args[i]) {
        assert(all_references(args));
    }
}

/// Snapshots are compared with each other where all of two or more arguments stand for one,
/// and only then; the current directory is scanned for a single one, and a directory that
/// is given is scanned only where it stands for none.
pub proof fn law_plans(args: Seq<Seq<char>>)
    ensures
        plan_of(args) is CompareFiles <==> args.len() >= 2 && all_references(args),
        plan_of(args) is CompareHere <==> args.len() == 1 && all_references(args),
        plan_of(args) is DiffTarget <==> args.len() == 1 && !all_references(args),
        plan_of(args) is CompareThere <==> args.len() == 2 && !all_references(args.take(1))
            && all_references(args.skip(1)),
{
    if args.len() >= 1 {
        assert(args.take(1)[0] == args[0]);
        if args.len() == 1 || args.len() == 2 {
            assert(is_reference(args[0]) <==> all_references(args.take(1)));
        }
        if args.len() == 1 {
            assert(args.take(1) =~= args);
        }
        if args.len() == 2 {
            assert(args.skip(1)[0] == args[1]);
            assert(is_reference(args[1]) <==> all_references(args.skip(1)));
        }
    }
    if all_references(args) {
        assert forall|i: int| 0 <= i < args.len() implies is_reference(#[trigger] args[i]) by {}
    }
    if forall|i: int| 0 <= i < args.len() ==> is_reference(#[trigger] args[i]) {
        assert(all_references(args));
    }
}

/// The plan for some arguments does not depend on which snapshots they name, nor on how:
/// only on how many there are and on which of them stand for a snapshot.
pub proof fn law_plans_depend_on_what_arguments_are(
    args: Seq<Seq<char>>,
    other: Seq<Seq<char>>,
)
    requires
        args.len() == other.len(),
        forall|i: int|
            0 <= i < args.len() ==> (is_reference(#[trigger] args[i]) <==> is_reference(other[i])),
    ensures
        plan_of(args) == plan_of(other),
{
    if forall|i: int| 0 <= i < args.len() ==> is_reference(#[trigger] args[i]) {
        assert forall|i: int| 0 <= i < other.len() implies is_reference(#[trigger] other[i]) by {
            assert(is_reference(args[i]));
        }
    }
    if forall|i: int| 0 <= i < other.len() ==> is_reference(#[trigger] other[i]) {
        assert forall|i: int| 0 <= i < args.len() implies is_reference(#[trigger] args[i]) by {
            assert(is_reference(other[i]));
        }
    }
}

/// A dash and a number from one up ask for the saved snapshot with that number; a dash
/// and a zero ask for none.
pub proof fn law_aliases(n: nat)
    ensures
        0 < n <= usize::MAX ==> shot_alias(seq!['-'] + decimal(n)) == Some(n),
        n == 0 || n > usize::MAX ==> shot_alias(seq!['-'] + decimal(n)) is None,
{
    reveal_strlit("-");
    let arg = seq!['-'] + decimal(n);
    assert("-"@ =~= seq!['-']);
    assert(arg.skip(1) =~= decimal(n));
    assert(seq!['-'].is_prefix_of(arg));
    law_decimal_reads_back(n);
}

/// Only what starts with a dash is the number of a saved snapshot, and it goes on with
/// digits alone, perhaps after a plus sign.
pub proof fn law_aliases_are_numbers(arg: Seq<char>)
    requires
        shot_alias(arg) is Some,
    ensures
        arg.len() >= 2,
        arg[0] == '-',
        is_digits(arg.skip(1)) || (arg[1] == '+' && is_digits(arg.skip(2))),
        shot_alias(arg)->Some_0 > 0,
{
    reveal_strlit("-");
    assert("-"@ =~= seq!['-']);
    let digits = arg.skip(1);
    assert(arg[0] == seq!['-'][0]);
    assert(number_of(digits) is Some);
    if digits.len() > 0 && digits[0] == '+' {
        assert(digits.drop_first() =~= arg.skip(2));
    }
}

/// A file whose name ends in `.json` stands for a snapshot, and so does one whose name
/// ends in `.json.zst`, wherever it lies and in whatever case the letters are.
pub proof fn law_snapshot_files(
    base: Seq<char>,
    stem: Seq<char>,
    json: Seq<char>,
    zst: Seq<char>,
)
    requires
        stem.len() > 0,
        !stem.contains('/'),
        same_ignoring_ascii_case(json, seq!['j', 's', 'o', 'n']),
        same_ignoring_ascii_case(zst, seq!['z', 's', 't']),
    ensures
        is_reference(join_paths(base, stem + seq!['.'] + json)),
        is_reference(join_paths(base, stem + seq!['.'] + json + seq!['.'] + zst)),
{
    reveal_strlit("json");
    reveal_strlit("zst");
    assert(GDU_EXPORT_EXTENSION@ =~= seq!['j', 's', 'o', 'n']);
    assert(COMPRESSED_SNAPSHOT_EXTENSION@ =~= seq!['z', 's', 't']);
    lemma_letters(json, seq!['j', 's', 'o', 'n']);
    lemma_letters(zst, seq!['z', 's', 't']);
    law_stem_and_extension(base, stem, json);
    let inner = stem + seq!['.'] + json;
    if inner.contains('/') {
        let i = choose|i: int| 0 <= i < inner.len() && inner[i] == '/';
        let n = stem.len() as int;
        if i < n {
            assert(stem[i] == '/');
        } else if i > n {
            assert(json[i - n - 1] == '/');
        }
    }
    law_stem_and_extension(base, inner, zst);
    law_stem_and_extension(seq![], stem, json);
    assert(join_paths(seq![], inner) =~= inner) by {
        assert(Seq::<char>::empty() + inner =~= inner);
    }
}

/// What differs from letters only in case has no separator and no dot in it.
proof fn lemma_letters(text: Seq<char>, letters: Seq<char>)
    requires
        same_ignoring_ascii_case(text, letters),
        forall|i: int| 0 <= i < letters.len() ==> 'a' <= #[trigger] letters[i] <= 'z',
        letters.len() > 0,
    ensures
        text.len() > 0,
        !text.contains('/'),
        !text.contains('.'),
{
    if text.contains('/') {
        let i = choose|i: int| 0 <= i < text.len() && text[i] == '/';
        assert('a' <= letters[i] <= 'z');
    }
    if text.contains('.') {
        let i = choose|i: int| 0 <= i < text.len() && text[i] == '.';
        assert('a' <= letters[i] <= 'z');
    }
}

/// What is at the start of the last part of a path has no separator in it.
proof fn lemma_no_separator(path: Seq<char>, stem: Seq<char>)
    requires
        file_name(path) is Some,
        stem.is_prefix_of(file_name(path)->Some_0),
        file_name(stem) is Some,
    ensures
        file_name(stem) == Some(stem),
{
    let name = file_name(path)->Some_0;
    let all = trim_tail(path);
    let p = last_place(all, '/');
    lemma_last_place(all, '/');
    assert forall|i: int| 0 <= i < stem.len() implies stem[i] != '/' by {
        assert(stem[i] == name[i]);
        assert(name[i] == all[p + 1 + i]);
    }
    lemma_last_place(stem, '/');
    assert(trim_tail(stem) == stem);
    assert(last_place(stem, '/') == -1);
    assert(stem.skip(0) =~= stem);
}

/// A path that stands for a snapshot file ends, in whatever case, in `.json` or in
/// `.json.zst`, with something before it.
pub proof fn law_only_snapshot_files(path: Seq<char>)
    requires
        is_json_like(path),
    ensures
        file_name(path) is Some,
        ({
            let name = file_name(path)->Some_0;
            let n = name.len();
            ||| n > 5 && same_ignoring_ascii_case(
                name.skip(n - 5),
                seq!['.', 'j', 's', 'o', 'n'],
            )
            ||| n > 9 && same_ignoring_ascii_case(
                name.skip(n - 9),
                seq!['.', 'j', 's', 'o', 'n', '.', 'z', 's', 't'],
            )
        }),
{
    reveal_strlit("json");
    reveal_strlit("zst");
    let json = seq!['j', 's', 'o', 'n'];
    let zst = seq!['z', 's', 't'];
    assert(GDU_EXPORT_EXTENSION@ =~= json);
    assert(COMPRESSED_SNAPSHOT_EXTENSION@ =~= zst);
    let name = file_name(path)->Some_0;
    let n = name.len();
    lemma_last_place(name, '.');
    let p = last_place(name, '.');
    if has_extension(path, json) {
        let tail = name.skip(n - 5);
        assert forall|i: int| 0 <= i < 5 implies ascii_lower(#[trigger] tail[i])
            == ascii_lower(seq!['.', 'j', 's', 'o', 'n'][i]) by {
            if i > 0 {
                let ext = name.skip(p + 1);
                assert(ext[i - 1] == tail[i]);
                assert(json[i - 1] == seq!['.', 'j', 's', 'o', 'n'][i]);
            }
        }
    } else {
        let stem = file_stem(path)->Some_0;
        assert(stem == name.take(p));
        let inner = file_name(stem)->Some_0;
        lemma_no_separator(path, stem);
        lemma_last_place(inner, '.');
        let q = last_place(inner, '.');
        let d = stem.len() - inner.len();
        let tail = name.skip(n - 9);
        let full = seq!['.', 'j', 's', 'o', 'n', '.', 'z', 's', 't'];
        let ext = name.skip(p + 1);
        let mid = inner.skip(q + 1);
        assert forall|i: int| 0 <= i < 9 implies ascii_lower(#[trigger] tail[i])
            == ascii_lower(full[i]) by {
            if i > 5 {
                assert(ext[i - 6] == tail[i]);
                assert(zst[i - 6] == full[i]);
            } else if i == 5 {
                assert(tail[i] == name[p]);
            } else if i > 0 {
                assert(mid[i - 1] == inner[q + i]);
                assert(inner[q + i] == stem[d + q + i]);
                assert(json[i - 1] == full[i]);
            } else {
                assert(inner[q] == stem[d + q]);
            }
        }
    }
}

} // verus!
