//! The git command being paged: what it is recognised by, what its patch is a diff of,
//! how it is put again, and how it may be edited.

use crate::calling_process;
use crate::diff::DiffType;
use vstd::prelude::*;

verus! {

/// Whether an argument comes before the paths of a command: no `--` stands before it,
/// and it is none.
pub open spec fn before_marker(args: Seq<Seq<char>>, k: int) -> bool {
    0 <= k < args.len() && forall|j: int| 0 <= j <= k ==> #[trigger] args[j] != "--"@
}

/// Whether an argument names something rather than asking for it to be shown some way.
pub open spec fn names_something(arg: Seq<char>) -> bool {
    arg.len() == 0 || arg[0] != '-'
}

/// Whether an argument asks for the index.
pub open spec fn asks_for_index(arg: Seq<char>) -> bool {
    arg == "--cached"@ || arg == "--staged"@
}

proof fn lemma_before_paths(args: Seq<Seq<char>>)
    ensures
        calling_process::before_paths(args).len() <= args.len(),
        forall|k: int|
            0 <= k < calling_process::before_paths(args).len() ==> #[trigger] before_marker(args, k),
        forall|k: int|
            #[trigger] before_marker(args, k) ==> k < calling_process::before_paths(args).len()
                && calling_process::before_paths(args)[k] == args[k],
    decreases args.len(),
{
    let asked = calling_process::before_paths(args);
    if args.len() > 0 && args[0] != "--"@ {
        let rest = args.drop_first();
        let behind = calling_process::before_paths(rest);
        lemma_before_paths(rest);
        assert(asked == seq![args[0]] + behind);
        assert forall|k: int| 0 <= k < asked.len() implies #[trigger] before_marker(args, k) by {
            if k == 0 {
                assert forall|j: int| 0 <= j <= k implies #[trigger] args[j] != "--"@ by {}
            } else {
                assert(before_marker(rest, k - 1));
                assert forall|j: int| 0 <= j <= k implies #[trigger] args[j] != "--"@ by {
                    if j > 0 {
                        assert(rest[j - 1] == args[j]);
                    }
                }
            }
        }
        assert forall|k: int| #[trigger] before_marker(args, k) implies k < asked.len() && asked[k]
            == args[k] by {
            if k > 0 {
                assert forall|j: int| 0 <= j <= k - 1 implies #[trigger] rest[j] != "--"@ by {
                    assert(rest[j] == args[j + 1]);
                }
                assert(before_marker(rest, k - 1));
                assert(asked[k] == behind[k - 1]);
            }
        }
    } else if args.len() > 0 {
        assert forall|k: int| #[trigger] before_marker(args, k) implies k < asked.len() && asked[k]
            == args[k] by {
            assert(args[0] != "--"@);
        }
    }
}

/// What a patch is a diff of goes by any argument before the paths, wherever it stands:
/// of the index where the index is asked for, else a comparison of trees where anything
/// is named, else of the working tree. Only `git diff` is ever one of the working tree
/// or of the index.
pub proof fn patch_is_told_by_any_argument(subcommand: Seq<char>, args: Seq<Seq<char>>)
    ensures
        ({
            let kind = calling_process::diff_type_of(subcommand, args);
            let index = exists|k: int|
                #[trigger] before_marker(args, k) && asks_for_index(args[k]);
            let named = exists|k: int|
                #[trigger] before_marker(args, k) && names_something(args[k]);
            &&& subcommand != "diff"@ ==> kind == DiffType::TreeToTree
            &&& subcommand == "diff"@ ==> {
                &&& kind == DiffType::IndexToTree <==> index
                &&& kind == DiffType::TreeToTree <==> named && !index
                &&& kind == DiffType::WorkdirToIndex <==> !named && !index
            }
        }),
{
    let asked = calling_process::before_paths(args);
    lemma_before_paths(args);
    if exists|k: int| #[trigger] before_marker(args, k) && asks_for_index(args[k]) {
        let k = choose|k: int| #[trigger] before_marker(args, k) && asks_for_index(args[k]);
        assert(asked[k] == args[k]);
    }
    if asked.contains("--cached"@) {
        let k = choose|k: int| 0 <= k < asked.len() && asked[k] == "--cached"@;
        assert(before_marker(args, k));
        assert(asks_for_index(args[k]));
    }
    if asked.contains("--staged"@) {
        let k = choose|k: int| 0 <= k < asked.len() && asked[k] == "--staged"@;
        assert(before_marker(args, k));
        assert(asks_for_index(args[k]));
    }
    if exists|k: int| #[trigger] before_marker(args, k) && names_something(args[k]) {
        let k = choose|k: int| #[trigger] before_marker(args, k) && names_something(args[k]);
        assert(asked[k] == args[k] && !calling_process::is_option(asked[k]));
    }
    if exists|i: int| 0 <= i < asked.len() && !calling_process::is_option(#[trigger] asked[i]) {
        let k = choose|i: int|
            0 <= i < asked.len() && !calling_process::is_option(#[trigger] asked[i]);
        assert(before_marker(args, k));
        assert(names_something(args[k]));
    }
}

/// An option says how a patch is shown: put in anywhere, it changes nothing about what
/// the patch is a diff of.
pub proof fn options_change_no_kind(
    subcommand: Seq<char>,
    args: Seq<Seq<char>>,
    at: int,
    option: Seq<char>,
)
    requires
        0 <= at <= args.len(),
        option.len() > 0 && option[0] == '-',
        option != "--"@,
        !asks_for_index(option),
    ensures
        calling_process::diff_type_of(subcommand, args.insert(at, option))
            == calling_process::diff_type_of(subcommand, args),
{
    let more = args.insert(at, option);
    patch_is_told_by_any_argument(subcommand, args);
    patch_is_told_by_any_argument(subcommand, more);
    assert forall|k: int| #[trigger] before_marker(args, k) implies {
        let m = if k < at {
            k
        } else {
            k + 1
        };
        before_marker(more, m) && more[m] == args[k]
    } by {
        let m = if k < at {
            k
        } else {
            k + 1
        };
        assert forall|j: int| 0 <= j <= m implies #[trigger] more[j] != "--"@ by {
            if j < at {
                assert(more[j] == args[j]);
            } else if j > at {
                assert(more[j] == args[j - 1]);
            }
        }
    }
    assert forall|m: int| #[trigger] before_marker(more, m) && m != at implies {
        let k = if m < at {
            m
        } else {
            m - 1
        };
        before_marker(args, k) && more[m] == args[k]
    } by {
        let k = if m < at {
            m
        } else {
            m - 1
        };
        assert forall|j: int| 0 <= j <= k implies #[trigger] args[j] != "--"@ by {
            if j < at {
                assert(more[j] == args[j]);
            } else {
                assert(more[j + 1] == args[j]);
            }
        }
    }
    assert(more[at] == option);
    let index = exists|k: int| #[trigger] before_marker(args, k) && asks_for_index(args[k]);
    let named = exists|k: int| #[trigger] before_marker(args, k) && names_something(args[k]);
    if index {
        let k = choose|k: int| #[trigger] before_marker(args, k) && asks_for_index(args[k]);
        let m = if k < at {
            k
        } else {
            k + 1
        };
        assert(before_marker(more, m) && asks_for_index(more[m]));
    }
    if named {
        let k = choose|k: int| #[trigger] before_marker(args, k) && names_something(args[k]);
        let m = if k < at {
            k
        } else {
            k + 1
        };
        assert(before_marker(more, m) && names_something(more[m]));
    }
    if exists|m: int| #[trigger] before_marker(more, m) && asks_for_index(more[m]) {
        let m = choose|m: int| #[trigger] before_marker(more, m) && asks_for_index(more[m]);
        assert(m != at);
        let k = if m < at {
            m
        } else {
            m - 1
        };
        assert(before_marker(args, k) && asks_for_index(args[k]));
    }
    if exists|m: int| #[trigger] before_marker(more, m) && names_something(more[m]) {
        let m = choose|m: int| #[trigger] before_marker(more, m) && names_something(more[m]);
        assert(m != at);
        let k = if m < at {
            m
        } else {
            m - 1
        };
        assert(before_marker(args, k) && names_something(args[k]));
    }
}

/// The paths a command is limited to change nothing about what its patch is a diff of.
pub proof fn paths_change_no_kind(
    subcommand: Seq<char>,
    args: Seq<Seq<char>>,
    paths: Seq<Seq<char>>,
)
    ensures
        calling_process::diff_type_of(subcommand, args.push("--"@) + paths)
            == calling_process::diff_type_of(subcommand, args),
{
    lemma_paths_are_left_out(args, paths);
}

proof fn lemma_paths_are_left_out(args: Seq<Seq<char>>, paths: Seq<Seq<char>>)
    ensures
        calling_process::before_paths(args.push("--"@) + paths) == calling_process::before_paths(
            args,
        ),
    decreases args.len(),
{
    let all = args.push("--"@) + paths;
    if args.len() > 0 && args[0] != "--"@ {
        lemma_paths_are_left_out(args.drop_first(), paths);
        assert(all.drop_first() =~= args.drop_first().push("--"@) + paths);
        assert(all[0] == args[0]);
    } else if args.len() > 0 {
        assert(all[0] == args[0]);
    } else {
        assert(all[0] == "--"@);
    }
}

} // verus!
