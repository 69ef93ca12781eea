//! The version that the program shows.

use crate::text::view_option;
use vstd::prelude::*;
use vstd::string::StringExecFns;

verus! {

/// A text that is there and not empty.
pub open spec fn given(text: Option<Seq<char>>) -> bool {
    text matches Some(some) && some.len() > 0
}

/// The version of a build: the tag of the commit if it has one, or else the latest tag (or
/// the version of the package) with the commit behind it, after `^` where there are
/// changes that are not committed, and after `-` where there are none.
pub open spec fn version_of(
    exact_tag: Option<Seq<char>>,
    commit: Option<Seq<char>>,
    latest_tag: Option<Seq<char>>,
    changes: Option<Seq<char>>,
    package: Seq<char>,
) -> Seq<char> {
    if given(exact_tag) {
        exact_tag->Some_0
    } else if given(commit) {
        (if given(latest_tag) {
            latest_tag->Some_0
        } else {
            package
        }) + (if given(changes) {
            "^"@
        } else {
            "-"@
        }) + commit->Some_0
    } else {
        package
    }
}

/// Whether a text is there and not empty.
fn is_given(text: &Option<String>) -> (r: bool)
    ensures
        r == given(view_option(*text)),
{
    match text {
        Some(some) => !some.as_str().is_empty(),
        None => false,
    }
}

/// The version of a build, from what the version control says of it.
pub fn build_version(
    exact_tag: Option<String>,
    commit: Option<String>,
    latest_tag: Option<String>,
    changes: Option<String>,
    package: String,
) -> (r: String)
    ensures
        r@ == version_of(
            view_option(exact_tag),
            view_option(commit),
            view_option(latest_tag),
            view_option(changes),
            package@,
        ),
{
    if is_given(&exact_tag) {
        if let Some(tag) = exact_tag {
            return tag;
        }
    }
    if !is_given(&commit) {
        return package;
    }
    let with_base = is_given(&latest_tag);
    let mut version = match latest_tag {
        Some(tag) if with_base => tag,
        _ => package,
    };
    version.append(
        if is_given(&changes) {
            "^"
        } else {
            "-"
        },
    );
    if let Some(hash) = commit {
        version.append(hash.as_str());
    }
    version
}

/// A tag of the commit is the version, whatever else is known. Else the version ends with
/// the commit, and starts with the latest tag, or with the version of the package where
/// there is none; changes that are not committed show in the character between the two and
/// nowhere else. Where nothing is known the version is that of the package.
pub proof fn law_versions(
    exact_tag: Option<Seq<char>>,
    commit: Option<Seq<char>>,
    latest_tag: Option<Seq<char>>,
    changes: Option<Seq<char>>,
    package: Seq<char>,
)
    ensures
        ({
            let version = version_of(exact_tag, commit, latest_tag, changes, package);
            let start = if given(latest_tag) {
                latest_tag->Some_0
            } else {
                package
            };
            &&& given(exact_tag) ==> version == exact_tag->Some_0
            &&& !given(exact_tag) && !given(commit) ==> version == package
            &&& !given(exact_tag) && given(commit) ==> {
                &&& start.is_prefix_of(version)
                &&& commit->Some_0.is_suffix_of(version)
                &&& version.len() == start.len() + 1 + commit->Some_0.len()
                &&& version[start.len() as int] == (if given(changes) {
                    '^'
                } else {
                    '-'
                })
            }
        }),
{
    reveal_strlit("^");
    reveal_strlit("-");
    let version = version_of(exact_tag, commit, latest_tag, changes, package);
    if !given(exact_tag) && given(commit) {
        let start = if given(latest_tag) {
            latest_tag->Some_0
        } else {
            package
        };
        let end = commit->Some_0;
        assert(version.take(start.len() as int) =~= start);
        assert(version.skip(version.len() - end.len()) =~= end);
    }
}

} // verus!
