//! What the program is asked to do: the arguments and what they stand for.

use crate::gdu::{COMPRESSED_SNAPSHOT_EXTENSION, GDU_EXPORT_EXTENSION};
use crate::index::SizeMetric;
use crate::path::{extension, extension_in_path, file_stem, name_in_path};
use crate::text::{chars_of, copied, decimal, decimal_text, equal_ignoring_ascii_case, find_last, number_up_to, parse_number, same_ignoring_ascii_case, strip_prefix, text_between, without_prefix};
use vstd::prelude::*;
use vstd::string::StringExecFns;

verus! {

/// What the program does.
#[derive(Clone, Debug)]
pub enum Action {
    Shot { target: String },
    CompareFiles { files: Vec<String> },
    CompareCurrentWithFile { file: String, target: String },
    DiffTarget { target: String },
}

/// The command to save a snapshot, of a directory if one is given.
#[derive(Clone, Debug)]
pub struct ShotCommand {
    pub path: Option<String>,
}

/// The number of a saved snapshot that an argument asks for: `-1` is the newest.
pub open spec fn shot_alias(arg: Seq<char>) -> Option<nat> {
    match without_prefix(arg, "-"@) {
        Some(digits) => match number_up_to(digits, usize::MAX as nat) {
            Some(n) if n > 0 => Some(n),
            _ => None,
        },
        None => None,
    }
}

/// The number of a saved snapshot that an argument asks for.
pub fn parse_shot_alias(arg: &str) -> (r: Option<usize>)
    ensures
        match r {
            Some(n) => shot_alias(arg@) == Some(n as nat),
            None => shot_alias(arg@) is None,
        },
{
    match strip_prefix(arg, "-") {
        Some(digits) => match parse_number(digits.as_str(), usize::MAX as u64) {
            Some(n) => if n > 0 {
                Some(n as usize)
            } else {
                None
            },
            None => None,
        },
        None => None,
    }
}

/// The path has the extension, in upper or lower case.
pub open spec fn has_extension(path: Seq<char>, wanted: Seq<char>) -> bool {
    extension(path) matches Some(ext) && same_ignoring_ascii_case(ext, wanted)
}

/// The path is that of a snapshot file, compressed or not.
pub open spec fn is_json_like(path: Seq<char>) -> bool {
    ||| has_extension(path, GDU_EXPORT_EXTENSION@)
    ||| has_extension(path, COMPRESSED_SNAPSHOT_EXTENSION@) && has_extension(
        file_stem(path)->Some_0,
        GDU_EXPORT_EXTENSION@,
    )
}

fn extension_is(path: &str, wanted: &str) -> (r: bool)
    ensures
        r == has_extension(path@, wanted@),
{
    match extension_in_path(path) {
        Some(ext) => equal_ignoring_ascii_case(ext.as_str(), wanted),
        None => false,
    }
}

/// Whether a path is that of a snapshot file, compressed or not.
pub fn is_json_like_path(path: &str) -> (r: bool)
    ensures
        r == is_json_like(path@),
{
    if extension_is(path, GDU_EXPORT_EXTENSION) {
        return true;
    }
    if !extension_is(path, COMPRESSED_SNAPSHOT_EXTENSION) {
        return false;
    }
    match name_in_path(path) {
        Some(name) => {
            let chars = chars_of(name.as_str());
            match find_last(&chars, '.') {
                Some(dot) => {
                    let stem = text_between(&chars, 0, dot);
                    assert(stem@ =~= name@.take(dot as int));
                    extension_is(stem.as_str(), GDU_EXPORT_EXTENSION)
                },
                None => false,
            }
        },
        None => false,
    }
}

/// The argument stands for a snapshot: a snapshot file, or the number of a saved one.
pub open spec fn is_reference(arg: Seq<char>) -> bool {
    is_json_like(arg) || shot_alias(arg) is Some
}

/// Whether an argument stands for a snapshot.
pub fn is_snapshot_reference(arg: &str) -> (r: bool)
    ensures
        r == is_reference(arg@),
{
    is_json_like_path(arg) || parse_shot_alias(arg).is_some()
}

/// What arguments ask for, once the snapshots that they stand for are found.
#[derive(Clone, Copy, Debug, PartialEq, Eq, Structural)]
pub enum Plan {
    /// All arguments stand for snapshots to compare.
    CompareFiles,
    /// The argument stands for a snapshot to compare with the current directory.
    CompareHere,
    /// The first argument is a directory to compare with the snapshot of the second.
    CompareThere,
    /// The argument is a directory to compare with its newest snapshot.
    DiffTarget,
    /// The arguments make no sense together.
    Unclear,
}

/// What arguments ask for.
pub open spec fn plan_of(args: Seq<Seq<char>>) -> Plan {
    if args.len() >= 2 && forall|i: int| 0 <= i < args.len() ==> is_reference(#[trigger] args[i]) {
        Plan::CompareFiles
    } else if args.len() == 1 {
        if is_reference(args[0]) {
            Plan::CompareHere
        } else {
            Plan::DiffTarget
        }
    } else if args.len() == 2 && !is_reference(args[0]) && is_reference(args[1]) {
        Plan::CompareThere
    } else {
        Plan::Unclear
    }
}

/// The texts of a list.
pub open spec fn arg_texts(list: Seq<String>) -> Seq<Seq<char>> {
    Seq::new(list.len(), |i: int| list[i]@)
}

/// What arguments ask for.
pub fn plan_args(args: &Vec<String>) -> (r: Plan)
    ensures
        r == plan_of(arg_texts(args@)),
{
    let ghost texts = arg_texts(args@);
    let mut all = true;
    let mut i: usize = 0;
    while i < args.len()
        invariant
            texts == arg_texts(args@),
            i <= args@.len(),
            all == (forall|k: int| 0 <= k < i ==> is_reference(#[trigger] texts[k])),
        decreases args@.len() - i,
    {
        assert(texts[i as int] == args@[i as int]@);
        if !is_snapshot_reference(args[i].as_str()) {
            all = false;
        }
        i = i + 1;
    }
    if args.len() >= 2 && all {
        return Plan::CompareFiles;
    }
    if args.len() == 1 {
        assert(texts[0] == args@[0]@);
        return if is_snapshot_reference(args[0].as_str()) {
            Plan::CompareHere
        } else {
            Plan::DiffTarget
        };
    }
    if args.len() == 2 {
        assert(texts[0] == args@[0]@);
        assert(texts[1] == args@[1]@);
        if !is_snapshot_reference(args[0].as_str()) && is_snapshot_reference(args[1].as_str()) {
            return Plan::CompareThere;
        }
    }
    Plan::Unclear
}

/// What is wrong with the arguments, or with what they stand for.
#[derive(Debug)]
pub enum CliError<E> {
    Usage,
    Reference(E),
}

/// The message for arguments that make no sense together.
pub const USAGE: &'static str =
    "use `gdu-diff [directory] snapshot.json` to compare a directory with one snapshot, or pass only JSON files when comparing snapshots directly";

/// The function that finds snapshots may give the result for an argument and a directory.
pub open spec fn may_resolve<E, F: Fn(&str, &str) -> Result<String, E>>(
    resolve: F,
    arg: Seq<char>,
    target: Seq<char>,
    result: Result<String, E>,
) -> bool {
    exists|a: &str, t: &str|
        a@ == arg && t@ == target && #[trigger] call_ensures(resolve, (a, t), result)
}

/// The function that finds snapshots takes any argument and any directory.
pub open spec fn takes_all<E, F: Fn(&str, &str) -> Result<String, E>>(resolve: F) -> bool {
    forall|a: &str, t: &str| #[trigger] call_requires(resolve, (a, t))
}

/// The function that finds snapshots may find one for an argument and a directory.
pub open spec fn may_find<E, F: Fn(&str, &str) -> Result<String, E>>(
    resolve: F,
    arg: Seq<char>,
    target: Seq<char>,
) -> bool {
    exists|file: String| #[trigger] may_resolve(resolve, arg, target, Ok(file))
}

/// The argument at a place is the first for which no snapshot is found.
pub open spec fn first_failure<E, F: Fn(&str, &str) -> Result<String, E>>(
    args: Seq<Seq<char>>,
    target: Seq<char>,
    resolve: F,
    i: int,
    error: E,
) -> bool {
    &&& 0 <= i < args.len()
    &&& may_resolve(resolve, args[i], target, Err(error))
    &&& forall|j: int| 0 <= j < i ==> may_find(resolve, #[trigger] args[j], target)
}

/// The search for snapshots may fail at the first argument for which none is found.
pub open spec fn may_fail<E, F: Fn(&str, &str) -> Result<String, E>>(
    args: Seq<Seq<char>>,
    target: Seq<char>,
    resolve: F,
    error: E,
) -> bool {
    exists|i: int| #[trigger] first_failure(args, target, resolve, i, error)
}

/// What arguments ask for, with the snapshots that were found for them.
pub open spec fn answers<E, F: Fn(&str, &str) -> Result<String, E>>(
    args: Seq<Seq<char>>,
    current_dir: Seq<char>,
    resolve: F,
    r: Result<Action, CliError<E>>,
) -> bool {
    match plan_of(args) {
        Plan::CompareFiles => match r {
            Ok(Action::CompareFiles { files }) => files@.len() == args.len() && forall|i: int|
                0 <= i < args.len() ==> may_resolve(
                    resolve,
                    #[trigger] args[i],
                    current_dir,
                    Ok(files@[i]),
                ),
            Err(CliError::Reference(error)) => may_fail(args, current_dir, resolve, error),
            _ => false,
        },
        Plan::CompareHere => match r {
            Ok(Action::CompareCurrentWithFile { file, target }) => target@ == current_dir
                && may_resolve(resolve, args[0], current_dir, Ok(file)),
            Err(CliError::Reference(error)) => may_resolve(
                resolve,
                args[0],
                current_dir,
                Err(error),
            ),
            _ => false,
        },
        Plan::CompareThere => match r {
            Ok(Action::CompareCurrentWithFile { file, target }) => target@ == args[0]
                && may_resolve(resolve, args[1], args[0], Ok(file)),
            Err(CliError::Reference(error)) => may_resolve(resolve, args[1], args[0], Err(error)),
            _ => false,
        },
        Plan::DiffTarget => r matches Ok(Action::DiffTarget { target }) && target@ == args[0],
        Plan::Unclear => r matches Err(CliError::Usage),
    }
}

/// The snapshots that arguments stand for, or the first that is not found.
fn resolve_all<E, F: Fn(&str, &str) -> Result<String, E>>(
    args: &Vec<String>,
    target: &str,
    resolve: &F,
) -> (r: Result<Vec<String>, E>)
    requires
        takes_all(*resolve),
    ensures
        match r {
            Ok(files) => files@.len() == args@.len() && forall|i: int|
                0 <= i < args@.len() ==> may_resolve(
                    *resolve,
                    #[trigger] arg_texts(args@)[i],
                    target@,
                    Ok(files@[i]),
                ),
            Err(error) => may_fail(arg_texts(args@), target@, *resolve, error),
        },
{
    let ghost texts = arg_texts(args@);
    let mut files: Vec<String> = Vec::new();
    while files.len() < args.len()
        invariant
            takes_all(*resolve),
            texts == arg_texts(args@),
            files@.len() <= args@.len(),
            forall|i: int|
                0 <= i < files@.len() ==> may_resolve(
                    *resolve,
                    #[trigger] texts[i],
                    target@,
                    Ok(files@[i]),
                ),
        decreases args@.len() - files@.len(),
    {
        let k: usize = files.len();
        let arg = args[k].as_str();
        assert(texts[k as int] == arg@);
        match resolve(arg, target) {
            Ok(file) => {
                assert(may_resolve(*resolve, texts[k as int], target@, Ok(file)));
                files.push(file);
            },
            Err(error) => {
                proof {
                    assert(may_resolve(*resolve, texts[k as int], target@, Err(error)));
                    assert forall|j: int| 0 <= j < k implies may_find(
                        *resolve,
                        #[trigger] texts[j],
                        target@,
                    ) by {
                        assert(may_resolve(*resolve, texts[j], target@, Ok(files@[j])));
                    }
                    assert(first_failure(texts, target@, *resolve, k as int, error));
                    assert(may_fail(texts, target@, *resolve, error));
                }
                return Err(error);
            },
        }
    }
    Ok(files)
}

/// What the arguments ask for, with the snapshots that they stand for.
pub fn classify_args<E, F: Fn(&str, &str) -> Result<String, E>>(
    args: &Vec<String>,
    current_dir: String,
    resolve_reference: F,
) -> (r: Result<Action, CliError<E>>)
    requires
        takes_all(resolve_reference),
    ensures
        answers(arg_texts(args@), current_dir@, resolve_reference, r),
{
    proof {
        assert(args@.len() > 0 ==> arg_texts(args@)[0] == args@[0]@);
        assert(args@.len() > 1 ==> arg_texts(args@)[1] == args@[1]@);
    }
    match plan_args(args) {
        Plan::CompareFiles => match resolve_all(args, current_dir.as_str(), &resolve_reference) {
            Ok(files) => Ok(Action::CompareFiles { files }),
            Err(error) => Err(CliError::Reference(error)),
        },
        Plan::CompareHere => {
            match resolve_reference(args[0].as_str(), current_dir.as_str()) {
                Ok(file) => Ok(Action::CompareCurrentWithFile { file, target: current_dir }),
                Err(error) => Err(CliError::Reference(error)),
            }
        },
        Plan::CompareThere => {
            match resolve_reference(args[1].as_str(), args[0].as_str()) {
                Ok(file) => Ok(
                    Action::CompareCurrentWithFile { file, target: copied(args[0].as_str()) },
                ),
                Err(error) => Err(CliError::Reference(error)),
            }
        },
        Plan::DiffTarget => Ok(Action::DiffTarget { target: copied(args[0].as_str()) }),
        Plan::Unclear => Err(CliError::Usage),
    }
}

/// What the command line asks for.
pub fn classify_action<E, F: Fn(&str, &str) -> Result<String, E>>(
    command: Option<ShotCommand>,
    args: &Vec<String>,
    current_dir: String,
    resolve_reference: F,
) -> (r: Result<Action, CliError<E>>)
    requires
        takes_all(resolve_reference),
    ensures
        command matches Some(shot) ==> (r matches Ok(Action::Shot { target }) && target@ == (
        match shot.path {
            Some(path) => path@,
            None => current_dir@,
        })),
        command is None && args@.len() == 0 ==> (r matches Ok(Action::DiffTarget { target })
            && target@ == current_dir@),
        command is None && args@.len() > 0 ==> answers(
            arg_texts(args@),
            current_dir@,
            resolve_reference,
            r,
        ),
{
    match command {
        Some(shot) => {
            let target = match shot.path {
                Some(path) => path,
                None => current_dir,
            };
            return Ok(Action::Shot { target });
        },
        None => {},
    }
    if args.len() == 0 {
        return Ok(Action::DiffTarget { target: current_dir });
    }
    classify_args(args, current_dir, resolve_reference)
}

/// The steps of an action.
pub open spec fn step_count(action: Action) -> usize {
    match action {
        Action::CompareFiles { .. } => 3,
        Action::CompareCurrentWithFile { .. } => 6,
        Action::DiffTarget { .. } => 6,
        Action::Shot { .. } => 1,
    }
}

/// How many steps an action has.
pub fn total_steps_for_action(action: &Action) -> (r: usize)
    ensures
        r == step_count(*action),
        r >= 1,
{
    match action {
        Action::CompareFiles { .. } => 3,
        Action::CompareCurrentWithFile { .. } => 6,
        Action::DiffTarget { .. } => 6,
        Action::Shot { .. } => 1,
    }
}

/// The title of an action.
pub open spec fn title_of(action: Action) -> Seq<char> {
    match action {
        Action::CompareFiles { .. } => "Compare snapshots"@,
        Action::CompareCurrentWithFile { .. } => "Compare snapshot with current scan"@,
        Action::DiffTarget { .. } => "Compare latest shot with current scan"@,
        Action::Shot { .. } => "Save snapshot"@,
    }
}

/// The title of an action.
pub fn action_title(action: &Action) -> (r: String)
    ensures
        r@ == title_of(*action),
{
    match action {
        Action::CompareFiles { .. } => copied("Compare snapshots"),
        Action::CompareCurrentWithFile { .. } => copied("Compare snapshot with current scan"),
        Action::DiffTarget { .. } => copied("Compare latest shot with current scan"),
        Action::Shot { .. } => copied("Save snapshot"),
    }
}

/// Where a snapshot is found: at a path, or by its number among those of a directory.
#[derive(Clone, Debug)]
pub enum Reference {
    File { path: String },
    Shot { ordinal: usize },
}

/// Where the snapshot that an argument stands for is found.
pub fn reference_of(arg: &str) -> (r: Reference)
    ensures
        match r {
            Reference::File { path } => shot_alias(arg@) is None && path@ == arg@,
            Reference::Shot { ordinal } => shot_alias(arg@) == Some(ordinal as nat),
        },
{
    match parse_shot_alias(arg) {
        Some(ordinal) => Reference::Shot { ordinal },
        None => Reference::File { path: copied(arg) },
    }
}

/// The message for a saved snapshot that is not there.
pub open spec fn missing_shot(data_dir: Seq<char>, target: Seq<char>, ordinal: nat) -> Seq<char> {
    "no stored shot -"@ + decimal(ordinal) + " found for "@ + target + " in "@ + data_dir
        + ". run `gdu-diff shot "@ + target + "` first"@
}

/// The message for a saved snapshot that is not there.
pub fn missing_shot_message(data_dir: &str, target: &str, ordinal: usize) -> (r: String)
    ensures
        r@ == missing_shot(data_dir@, target@, ordinal as nat),
{
    let mut text = copied("no stored shot -");
    text.append(decimal_text(ordinal as u128).as_str());
    text.append(" found for ");
    text.append(target);
    text.append(" in ");
    text.append(data_dir);
    text.append(". run `gdu-diff shot ");
    text.append(target);
    text.append("` first");
    text
}

/// The message for a directory of which no snapshot is saved.
pub open spec fn no_snapshot(data_dir: Seq<char>, target: Seq<char>) -> Seq<char> {
    "no stored snapshot found for "@ + target + " in "@ + data_dir + ". run `gdu-diff shot "@
        + target + "` first"@
}

/// The message for a directory of which no snapshot is saved.
pub fn no_snapshot_message(data_dir: &str, target: &str) -> (r: String)
    ensures
        r@ == no_snapshot(data_dir@, target@),
{
    let mut text = copied("no stored snapshot found for ");
    text.append(target);
    text.append(" in ");
    text.append(data_dir);
    text.append(". run `gdu-diff shot ");
    text.append(target);
    text.append("` first");
    text
}

/// The metric that the command line asks for.
pub fn chosen_metric(show_apparent_size: bool) -> (r: SizeMetric)
    ensures
        r == (if show_apparent_size {
            SizeMetric::Apparent
        } else {
            SizeMetric::Disk
        }),
{
    if show_apparent_size {
        SizeMetric::Apparent
    } else {
        SizeMetric::Disk
    }
}

} // verus!
