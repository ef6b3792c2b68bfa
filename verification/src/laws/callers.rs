//! Which command is paged for, and how it is asked again.

use crate::calling_process;
use crate::calling_process::{Edit, ProcessRecord};
use crate::text;
use vstd::prelude::*;

verus! {

// ---------------------------------------------------------------------------
// Recognising git
// ---------------------------------------------------------------------------

/// Whether a name is git's, in whatever case.
pub open spec fn spells_git(name: Seq<char>) -> bool {
    &&& name.len() == 3
    &&& name[0] == 'g' || name[0] == 'G'
    &&& name[1] == 'i' || name[1] == 'I'
    &&& name[2] == 't' || name[2] == 'T'
}

proof fn lemma_segments_join(a: Seq<char>, b: Seq<char>)
    ensures
        calling_process::segments(a.push('/') + b) == calling_process::segments(a)
            + calling_process::segments(b),
        calling_process::segments(b).len() > 0,
    decreases b.len(),
{
    let all = a.push('/') + b;
    let (first, second) = (calling_process::segments(a), calling_process::segments(b));
    if b.len() == 0 {
        assert(all =~= a.push('/'));
        assert(a.push('/').drop_last() =~= a);
        assert(second =~= seq![Seq::<char>::empty()]);
        assert(calling_process::segments(all) =~= first + second);
    } else {
        lemma_segments_join(a, b.drop_last());
        assert(all.drop_last() =~= a.push('/') + b.drop_last());
        assert(all.last() == b.last());
        let before = calling_process::segments(b.drop_last());
        assert((first + before).drop_last() =~= first + before.drop_last());
        assert((first + before).last() == before.last());
        assert(calling_process::segments(all) =~= first + second);
    }
}

proof fn lemma_one_segment(name: Seq<char>)
    requires
        !name.contains('/'),
    ensures
        calling_process::segments(name) == seq![name],
    decreases name.len(),
{
    if name.len() > 0 {
        assert(name[name.len() - 1] == name.last());
        assert(!name.drop_last().contains('/')) by {
            if name.drop_last().contains('/') {
                let i = choose|i: int| 0 <= i < name.drop_last().len() && name.drop_last()[i] == '/';
                assert(name[i] == '/');
            }
        }
        lemma_one_segment(name.drop_last());
        assert(name.drop_last().push(name.last()) =~= name);
        assert(calling_process::segments(name) =~= seq![name]);
    } else {
        assert(name =~= Seq::<char>::empty());
        assert(calling_process::segments(name) =~= seq![name]);
    }
}

proof fn lemma_last_named(parts: Seq<Seq<char>>, part: Seq<char>)
    ensures
        part.len() == 0 || part == seq!['.'] ==> calling_process::last_named(parts.push(part))
            == calling_process::last_named(parts),
        part.len() > 0 && part != seq!['.'] ==> calling_process::last_named(parts.push(part))
            == Some(part),
{
    assert(parts.push(part).drop_last() =~= parts);
}

/// A program goes by what its path ends in, wherever it is; slashes and dots behind it
/// count for nothing.
pub proof fn programs_go_by_their_name(dir: Seq<char>, name: Seq<char>)
    requires
        !name.contains('/'),
        name.len() > 0,
        name != seq!['.'],
    ensures
        calling_process::is_git(dir.push('/') + name) == calling_process::is_git(name),
        calling_process::is_git(dir.push('/')) == calling_process::is_git(dir),
        calling_process::is_git(dir.push('/').push('.')) == calling_process::is_git(dir),
{
    lemma_segments_join(dir, name);
    lemma_one_segment(name);
    let parts = calling_process::segments(dir);
    let none = Seq::<Seq<char>>::empty();
    assert(parts + seq![name] =~= parts.push(name));
    assert(seq![name] =~= none.push(name));
    lemma_last_named(parts, name);
    lemma_last_named(none, name);
    let empty = Seq::<char>::empty();
    lemma_segments_join(dir, empty);
    assert(dir.push('/') + empty =~= dir.push('/'));
    assert(calling_process::segments(empty) =~= seq![empty]);
    assert(parts + seq![empty] =~= parts.push(empty));
    lemma_last_named(parts, empty);
    let dot = seq!['.'];
    assert(!dot.contains('/'));
    lemma_one_segment(dot);
    lemma_segments_join(dir, dot);
    assert(dir.push('/') + dot =~= dir.push('/').push('.'));
    assert(parts + seq![dot] =~= parts.push(dot));
    lemma_last_named(parts, dot);
}

/// A program is git where its name is, without what follows its last dot.
pub proof fn git_goes_by_its_name(stem: Seq<char>, ending: Seq<char>)
    requires
        stem.len() > 0,
        !stem.contains('/'),
        !ending.contains('/'),
        !ending.contains('.'),
    ensures
        calling_process::is_git(stem.push('.') + ending) == spells_git(stem),
        !stem.contains('.') ==> calling_process::is_git(stem) == spells_git(stem),
{
    let name = stem.push('.') + ending;
    let none = Seq::<Seq<char>>::empty();
    assert(!name.contains('/')) by {
        if name.contains('/') {
            let i = choose|i: int| 0 <= i < name.len() && name[i] == '/';
            if i < stem.len() {
                assert(stem[i] == '/');
            } else if i > stem.len() {
                assert(ending[i - stem.len() - 1] == '/');
            }
        }
    }
    lemma_one_segment(name);
    lemma_one_segment(stem);
    assert(seq![name] =~= none.push(name));
    assert(seq![stem] =~= none.push(stem));
    lemma_last_named(none, name);
    lemma_last_named(none, stem);
    assert(name.len() >= 2);
    assert(name[stem.len() as int] == '.');
    assert(calling_process::has_dot(name));
    lemma_stem(stem, ending);
    assert(name.take(stem.len() as int) =~= stem);
    if name == seq!['.', '.'] {
        assert(stem.len() == 1);
    }
    if !stem.contains('.') {
        assert(!calling_process::has_dot(stem));
        assert(stem.take(stem.len() as int) =~= stem);
        if stem == seq!['.'] {
            assert(stem[0] == '.');
        }
        if stem == seq!['.', '.'] {
            assert(stem[0] == '.');
        }
    }
}

proof fn lemma_stem(stem: Seq<char>, ending: Seq<char>)
    requires
        stem.len() > 0,
        !ending.contains('.'),
    ensures
        calling_process::stem_len(stem.push('.') + ending) == stem.len(),
    decreases ending.len(),
{
    let name = stem.push('.') + ending;
    assert(name[stem.len() as int] == '.');
    assert(calling_process::has_dot(name));
    if ending.len() == 0 {
        assert(name.last() == '.');
    } else {
        assert(name.last() == ending[ending.len() - 1]);
        assert(name.drop_last() =~= stem.push('.') + ending.drop_last());
        assert(!ending.drop_last().contains('.')) by {
            if ending.drop_last().contains('.') {
                let i = choose|i: int|
                    0 <= i < ending.drop_last().len() && ending.drop_last()[i] == '.';
                assert(ending[i] == '.');
            }
        }
        lemma_stem(stem, ending.drop_last());
    }
}

/// What a command asks of git is the first of its words that asks for a patch; a command
/// of another program asks nothing of it.
pub proof fn the_first_asks(words: Seq<Seq<char>>)
    ensures
        match calling_process::subcommand_of(words) {
            Some(at) => {
                &&& 0 <= at < words.len()
                &&& calling_process::is_git(words[0])
                &&& words[at] == "diff"@ || words[at] == "show"@ || words[at] == "log"@
                &&& forall|k: int|
                    0 <= k < at ==> #[trigger] words[k] != "diff"@ && words[k] != "show"@
                        && words[k] != "log"@
            },
            None => words.len() > 0 && calling_process::is_git(words[0]) ==> forall|k: int|
                0 <= k < words.len() ==> #[trigger] words[k] != "diff"@ && words[k] != "show"@
                    && words[k] != "log"@,
        },
{
    if words.len() > 0 {
        lemma_first_structured(words, 0);
    }
}

proof fn lemma_first_structured(words: Seq<Seq<char>>, from: int)
    requires
        0 <= from,
    ensures
        match calling_process::first_structured(words, from) {
            Some(at) => {
                &&& from <= at < words.len()
                &&& words[at] == "diff"@ || words[at] == "show"@ || words[at] == "log"@
                &&& forall|k: int|
                    from <= k < at ==> #[trigger] words[k] != "diff"@ && words[k] != "show"@
                        && words[k] != "log"@
            },
            None => forall|k: int|
                from <= k < words.len() ==> #[trigger] words[k] != "diff"@ && words[k] != "show"@
                    && words[k] != "log"@,
        },
    decreases words.len() - from,
{
    if from < words.len() && !calling_process::is_structured(words[from]) {
        lemma_first_structured(words, from + 1);
    }
}

// ---------------------------------------------------------------------------
// Asking again
// ---------------------------------------------------------------------------

/// Whether an argument says by itself how much context is shown.
pub open spec fn sets_context(arg: Seq<char>) -> bool {
    ||| arg == "-W"@
    ||| arg == "--function-context"@
    ||| arg == "--no-function-context"@
    ||| "-U"@.is_prefix_of(arg) && arg.len() > 2
    ||| "--unified="@.is_prefix_of(arg)
}

/// What says how much context is shown is taken out, in one argument or in two, and
/// everything else stays, in its order.
pub proof fn context_is_taken_out(arg: Seq<char>, next: Seq<char>, rest: Seq<Seq<char>>)
    ensures
        sets_context(arg) ==> calling_process::contextless(seq![arg] + rest)
            == calling_process::contextless(rest),
        calling_process::contextless(seq!["-U"@, next] + rest) == calling_process::contextless(rest),
        calling_process::contextless(seq!["--unified"@, next] + rest)
            == calling_process::contextless(rest),
        !sets_context(arg) && arg != "-U"@ && arg != "--unified"@ ==> calling_process::contextless(
            seq![arg] + rest,
        ) == seq![arg] + calling_process::contextless(rest),
        calling_process::contextless(seq![]).len() == 0,
{
    reveal_strlit("-U");
    reveal_strlit("-W");
    reveal_strlit("--unified");
    reveal_strlit("--unified=");
    reveal_strlit("--function-context");
    reveal_strlit("--no-function-context");
    let one = seq![arg] + rest;
    assert(one.drop_first() =~= rest);
    let short = seq!["-U"@, next] + rest;
    assert(short.skip(2) =~= rest);
    let long = seq!["--unified"@, next] + rest;
    assert(long.skip(2) =~= rest);
    assert("--unified="@[9] == '=');
    if "-U"@.is_prefix_of(arg) && arg.len() <= 2 {
        assert(arg.subrange(0, 2) == "-U"@);
        assert(arg =~= "-U"@);
    }
    if sets_context(arg) {
        assert(arg != "-U"@) by {
            assert("-W"@[1] == 'W' && "-U"@[1] == 'U');
            if "--unified="@.is_prefix_of(arg) {
                assert(arg.len() >= 10);
            }
        }
        assert(arg != "--unified"@) by {
            assert("-W"@.len() == 2);
            assert("--function-context"@.len() == 18 && "--no-function-context"@.len() == 21);
            assert("--unified"@.len() == 9);
            if "-U"@.is_prefix_of(arg) {
                assert(arg.subrange(0, 2)[1] == 'U');
                assert("--unified"@[1] == '-');
                assert(arg[1] == 'U');
            }
            if "--unified="@.is_prefix_of(arg) {
                assert(arg.len() >= 10);
            }
        }
    }
}

/// A command is run as it was, but that it draws nothing of its own: right behind what it
/// asks for it is told so, and behind that how much context is shown, where that is said.
pub proof fn commands_are_run_bare(
    argv: Seq<Seq<char>>,
    subcommand: int,
    context: Option<Seq<char>>,
)
    requires
        0 <= subcommand < argv.len(),
    ensures
        ({
            let words = calling_process::to_run(argv, subcommand, context);
            let args = argv.skip(subcommand + 1);
            &&& words.take(subcommand + 1) == argv.take(subcommand + 1)
            &&& words[subcommand + 1] == "--no-ext-diff"@
            &&& words[subcommand + 2] == "--no-color"@
            &&& match context {
                Some(context) => words.skip(subcommand + 3) == seq![context]
                    + calling_process::contextless(args),
                None => words.skip(subcommand + 3) == args,
            }
        }),
{
    let words = calling_process::to_run(argv, subcommand, context);
    let args = argv.skip(subcommand + 1);
    assert(words.take(subcommand + 1) =~= argv.take(subcommand + 1));
    match context {
        Some(context) => {
            assert(words.skip(subcommand + 3) =~= seq![context] + calling_process::contextless(
                args,
            ));
        },
        None => {
            assert(words.skip(subcommand + 3) =~= args);
        },
    }
}

/// Words are written with a space between them, each so that it reads as one.
pub proof fn words_are_written_apart(a: Seq<Seq<char>>, b: Seq<Seq<char>>)
    requires
        a.len() > 0,
        b.len() > 0,
    ensures
        calling_process::written(a + b) == calling_process::written(a) + seq![' ']
            + calling_process::written(b),
        a.len() == 1 ==> calling_process::written(a) == calling_process::quote(a[0]),
    decreases b.len(),
{
    let all = a + b;
    assert(all.drop_last() =~= a + b.drop_last());
    assert(all.last() == b.last());
    if b.len() == 1 {
        assert(a + b.drop_last() =~= a);
    } else {
        words_are_written_apart(a, b.drop_last());
    }
    assert(calling_process::written(all) =~= calling_process::written(a) + seq![' ']
        + calling_process::written(b));
}

/// The subcommands a command may be turned into: those that only read.
pub open spec fn readers() -> Seq<Seq<char>> {
    seq![
        "diff"@,
        "show"@,
        "log"@,
        "blame"@,
        "grep"@,
        "shortlog"@,
        "reflog"@,
        "ls-files"@,
        "describe"@,
        "status"@,
    ]
}

proof fn lemma_readers(word: Seq<char>)
    ensures
        calling_process::is_read_only(word) <==> readers().contains(word),
{
    let all = readers();
    assert(all[0] == "diff"@ && all[1] == "show"@ && all[2] == "log"@ && all[3] == "blame"@);
    assert(all[4] == "grep"@ && all[5] == "shortlog"@ && all[6] == "reflog"@);
    assert(all[7] == "ls-files"@ && all[8] == "describe"@ && all[9] == "status"@);
}

/// A command can be edited behind git's own options, as long as it goes on reading: what
/// was typed is what is run, by the same program with the same options. Else it is told
/// apart what is wrong.
pub proof fn edits_go_on_reading(
    argv: Seq<Seq<char>>,
    subcommand: int,
    words: Option<Seq<Seq<char>>>,
)
    requires
        0 < subcommand < argv.len(),
    ensures
        ({
            let kept = words is Some && words->0.len() > subcommand && words->0[0] == "git"@
                && forall|k: int| 1 <= k < subcommand ==> #[trigger] words->0[k] == argv[k];
            match calling_process::edit_of(argv, subcommand, words) {
                Edit::Quotes => words is None,
                Edit::Fixed => words is Some && !kept,
                Edit::Writes(word) => kept && word == words->0[subcommand] && !readers().contains(
                    word,
                ),
                Edit::Command(next) => {
                    &&& kept
                    &&& readers().contains(words->0[subcommand])
                    &&& next.len() == words->0.len()
                    &&& next[0] == argv[0]
                    &&& forall|k: int| 1 <= k < next.len() ==> #[trigger] next[k] == words->0[k]
                },
            }
        }),
{
    if let Some(words) = words {
        let own = argv.subrange(1, subcommand);
        if words.len() > 0 && words[0] == "git"@ {
            let rest = words.skip(1);
            if own.is_prefix_of(rest) {
                assert(rest.subrange(0, own.len() as int) == own);
                assert forall|k: int| 1 <= k < subcommand implies #[trigger] words[k] == argv[k] by {
                    assert(rest.subrange(0, own.len() as int)[k - 1] == own[k - 1]);
                    assert(rest[k - 1] == words[k]);
                }
            }
            let same = words.len() > subcommand && forall|k: int|
                1 <= k < subcommand ==> #[trigger] words[k] == argv[k];
            if same {
                assert forall|k: int| 0 <= k < own.len() implies own[k] == rest[k] by {
                    assert(words[k + 1] == argv[k + 1]);
                }
                assert(rest.subrange(0, own.len() as int) =~= own);
            }
            if rest.len() > own.len() {
                lemma_readers(rest[own.len() as int]);
                assert(rest[own.len() as int] == words[subcommand]);
            }
        }
    }
}

// ---------------------------------------------------------------------------
// Files
// ---------------------------------------------------------------------------

/// The paths of a command are what follows its first `--`.
pub proof fn paths_follow_the_marker(argv: Seq<Seq<char>>, from: int)
    requires
        0 <= from <= argv.len(),
    ensures
        ({
            let start = calling_process::paths_start(argv, from);
            let marked = exists|k: int| from <= k < argv.len() && #[trigger] argv[k] == "--"@;
            &&& from <= start <= argv.len()
            &&& marked ==> from < start && argv[start - 1] == "--"@ && forall|k: int|
                from <= k < start - 1 ==> #[trigger] argv[k] != "--"@
            &&& !marked ==> start == argv.len()
            &&& calling_process::marks_paths(argv, from) <==> marked
        }),
    decreases argv.len() - from,
{
    if from < argv.len() && argv[from] != "--"@ {
        paths_follow_the_marker(argv, from + 1);
        let start = calling_process::paths_start(argv, from);
        if exists|k: int| from <= k < argv.len() && #[trigger] argv[k] == "--"@ {
            let k = choose|k: int| from <= k < argv.len() && #[trigger] argv[k] == "--"@;
            assert(from + 1 <= k);
        }
        if start == argv.len() && start - 1 == from {
            assert(argv[start - 1] != "--"@);
        }
    }
}

/// A pattern that starts with an exclamation mark leaves out what it matches, wherever
/// the command is run; any other is a path as it is.
pub proof fn exclamation_marks_leave_out(glob: Seq<char>, path: Seq<char>)
    ensures
        calling_process::path_of(seq!['!'] + glob) == ":(top,exclude)"@ + glob,
        calling_process::pattern_of(":(top,exclude)"@ + glob) == seq!['!'] + glob,
        path.len() == 0 || path[0] != '!' ==> calling_process::path_of(path) == path,
        !":(top,exclude)"@.is_prefix_of(path) ==> calling_process::pattern_of(path) == path,
{
    let mark = ":(top,exclude)"@;
    assert((seq!['!'] + glob).skip(1) =~= glob);
    assert((mark + glob).subrange(0, mark.len() as int) =~= mark);
    assert((mark + glob).skip(mark.len() as int) =~= glob);
}

/// Asking for other files asks for the same otherwise: only what follows the marker
/// changes, and where no file is asked for there is no marker.
pub proof fn other_files_are_asked_for_alike(
    argv: Seq<Seq<char>>,
    from: int,
    patterns: Seq<Seq<char>>,
)
    requires
        0 <= from <= argv.len(),
    ensures
        ({
            let next = calling_process::asking_paths(argv, from, patterns);
            let start = calling_process::paths_start(argv, from);
            let kept = if calling_process::marks_paths(argv, from) {
                start - 1
            } else {
                argv.len() as int
            };
            &&& next.take(kept) == argv.take(kept)
            &&& patterns.len() == 0 ==> next.len() == kept
            &&& patterns.len() > 0 ==> {
                &&& next.len() == kept + 1 + patterns.len()
                &&& next[kept] == "--"@
                &&& forall|k: int|
                    0 <= k < patterns.len() ==> next[kept + 1 + k] == calling_process::path_of(
                        #[trigger] patterns[k],
                    )
            }
        }),
{
    paths_follow_the_marker(argv, from);
    let next = calling_process::asking_paths(argv, from, patterns);
    let start = calling_process::paths_start(argv, from);
    let kept = if calling_process::marks_paths(argv, from) {
        start - 1
    } else {
        argv.len() as int
    };
    assert(next.take(kept) =~= argv.take(kept));
}

// ---------------------------------------------------------------------------
// Processes
// ---------------------------------------------------------------------------

/// Whether a process is the one that goes by a number.
pub open spec fn goes_by(table: Seq<ProcessRecord>, pid: u32, k: int) -> bool {
    &&& 0 <= k < table.len()
    &&& table[k].pid == pid
    &&& forall|j: int| 0 <= j < k ==> (#[trigger] table[j]).pid != pid
}

/// A process goes by its number.
pub proof fn processes_go_by_their_number(table: Seq<ProcessRecord>, pid: u32)
    ensures
        match calling_process::process(table, pid) {
            Some(record) => exists|k: int| #[trigger] goes_by(table, pid, k) && table[k] == record,
            None => forall|k: int| 0 <= k < table.len() ==> (#[trigger] table[k]).pid != pid,
        },
    decreases table.len(),
{
    if table.len() > 0 {
        if table[0].pid == pid {
            assert(goes_by(table, pid, 0));
        } else {
            let rest = table.drop_first();
            processes_go_by_their_number(rest, pid);
            match calling_process::process(table, pid) {
                Some(record) => {
                    let k = choose|k: int| #[trigger]
                        goes_by(rest, pid, k) && rest[k] == record;
                    assert forall|j: int| 0 <= j < k + 1 implies (#[trigger] table[j]).pid
                        != pid by {
                        if j > 0 {
                            assert(table[j] == rest[j - 1]);
                        }
                    }
                    assert(goes_by(table, pid, k + 1) && table[k + 1] == record);
                },
                None => {
                    assert forall|j: int| 0 <= j < table.len() implies (#[trigger] table[j]).pid
                        != pid by {
                        if j > 0 {
                            assert(table[j] == rest[j - 1]);
                        }
                    }
                },
            }
        }
    }
}

/// The process so many generations above another, if it is there.
pub open spec fn above(table: Seq<ProcessRecord>, pid: u32, generations: nat) -> Option<
    ProcessRecord,
>
    decreases generations,
{
    if generations == 0 {
        calling_process::process(table, pid)
    } else {
        match calling_process::process(table, pid) {
            Some(record) => match record.parent {
                Some(parent) => above(table, parent, (generations - 1) as nat),
                None => None,
            },
            None => None,
        }
    }
}

/// Whether a process asks git for a patch.
pub open spec fn asks_git(record: Option<ProcessRecord>) -> bool {
    record is Some && calling_process::subcommand_of(text::string_views(record->0.argv@)) is Some
}

/// The git that is paged for is the nearest above, as far up as it is looked for.
pub proof fn the_nearest_git_is_found(table: Seq<ProcessRecord>, pid: u32, generations: nat)
    ensures
        match calling_process::git_above(table, pid, generations) {
            Some(argv) => exists|k: nat|
                {
                    &&& 1 <= k <= generations
                    &&& asks_git(#[trigger] above(table, pid, k))
                    &&& text::string_views(above(table, pid, k)->0.argv@) == argv
                    &&& forall|j: nat| 1 <= j < k ==> !asks_git(#[trigger] above(table, pid, j))
                },
            None => forall|j: nat|
                1 <= j <= generations ==> !asks_git(#[trigger] above(table, pid, j)),
        },
    decreases generations,
{
    if generations > 0 {
        let found = calling_process::git_above(table, pid, generations);
        let record = calling_process::process(table, pid);
        if record is Some && record->0.parent is Some {
            let parent = record->0.parent->0;
            assert forall|j: nat| 1 <= j implies #[trigger] above(table, pid, j) == above(
                table,
                parent,
                (j - 1) as nat,
            ) by {}
            assert(above(table, parent, 0) == calling_process::process(table, parent));
            assert(above(table, pid, 1) == calling_process::process(table, parent));
            if asks_git(above(table, pid, 1)) {
                assert(found == Some(text::string_views(above(table, pid, 1)->0.argv@)));
            } else {
                let fewer = (generations - 1) as nat;
                the_nearest_git_is_found(table, parent, fewer);
                assert(found == calling_process::git_above(table, parent, fewer));
                match found {
                    Some(argv) => {
                        let k = choose|k: nat|
                            {
                                &&& 1 <= k <= fewer
                                &&& asks_git(#[trigger] above(table, parent, k))
                                &&& text::string_views(above(table, parent, k)->0.argv@) == argv
                                &&& forall|j: nat|
                                    1 <= j < k ==> !asks_git(#[trigger] above(table, parent, j))
                            };
                        let m = (k + 1) as nat;
                        assert(above(table, pid, m) == above(table, parent, k));
                        assert forall|j: nat| 1 <= j < m implies !asks_git(
                            #[trigger] above(table, pid, j),
                        ) by {
                            if j > 1 {
                                assert(!asks_git(above(table, parent, (j - 1) as nat)));
                            }
                        }
                    },
                    None => {
                        assert forall|j: nat| 1 <= j <= generations implies !asks_git(
                            #[trigger] above(table, pid, j),
                        ) by {
                            if j > 1 {
                                assert(!asks_git(above(table, parent, (j - 1) as nat)));
                            }
                        }
                    },
                }
            }
        } else {
            assert forall|j: nat| 1 <= j <= generations implies !asks_git(
                #[trigger] above(table, pid, j),
            ) by {}
        }
    }
}

/// Whether a process stands beside another, under a shell, and asks git for a patch.
pub open spec fn beside(me: u32, shell: u32) -> spec_fn(ProcessRecord) -> bool {
    |record: ProcessRecord|
        record.pid != me && record.parent == Some(shell) && asks_git(Some(record))
}

/// Where no git is among the three above, it is the one that stands beside under the same
/// shell, as long as it is the only one.
pub proof fn only_one_git_beside_is_taken(table: Seq<ProcessRecord>, me: u32)
    ensures
        ({
            let found = calling_process::paged_by(table, me);
            let over = calling_process::git_above(table, me, 3);
            let own = calling_process::process(table, me);
            &&& over is Some ==> found == over
            &&& over is None && (own is None || own->0.parent is None) ==> found is None
            &&& over is None && own is Some && own->0.parent is Some ==> {
                let others = table.filter(beside(me, own->0.parent->0));
                &&& others.len() == 1 ==> found == Some(text::string_views(others[0].argv@))
                &&& others.len() != 1 ==> found is None
            }
        }),
{
    let own = calling_process::process(table, me);
    if own is Some && own->0.parent is Some {
        lemma_beside(table, me, own->0.parent->0);
    }
}

proof fn lemma_beside(table: Seq<ProcessRecord>, me: u32, shell: u32)
    ensures
        calling_process::git_beside(table, me, shell).len() == table.filter(
            beside(me, shell),
        ).len(),
        forall|i: int|
            0 <= i < calling_process::git_beside(table, me, shell).len()
                ==> #[trigger] calling_process::git_beside(table, me, shell)[i]
                == text::string_views(table.filter(beside(me, shell))[i].argv@),
    decreases table.len(),
{
    reveal(Seq::filter);
    if table.len() > 0 {
        lemma_beside(table.drop_last(), me, shell);
        let front = calling_process::git_beside(table.drop_last(), me, shell);
        assert(beside(me, shell)(table.last()) == (table.last().pid != me && table.last().parent
            == Some(shell) && calling_process::runs_git(table.last())));
    }
}

/// A word is written as it is where nothing in it means anything to a shell, and in
/// quotes otherwise.
pub proof fn words_are_quoted_where_they_have_to_be(word: Seq<char>, i: int)
    ensures
        word.len() == 0 ==> calling_process::quote(word) == seq!['\'', '\''],
        0 <= i < word.len() && (word[i] == '\'' || word[i] == '"' || word[i] == '$' || word[i] == '`'
            || word[i] == '\\' || word[i] == ';' || word[i] == '&' || word[i] == '|' || word[i] == '*'
            || word[i] == '?' || word[i] == '<' || word[i] == '>' || word[i] == '(' || word[i]
            == ')') && !text::alphanumeric(word[i]) ==> calling_process::quote(word) == seq!['\'']
            + text::replaced(word, "'"@, "'\\''"@) + seq!['\''],
        word.len() > 0 && (forall|k: int|
            0 <= k < word.len() ==> text::alphanumeric(#[trigger] word[k]) || word[k] == '-'
                || word[k] == '/' || word[k] == '.' || word[k] == '=' || word[k] == '^' || word[k]
                == '~' || word[k] == '@' || word[k] == ':') ==> calling_process::quote(word) == word,
{
    if word.len() == 0 {
        assert(text::replaced(word, "'"@, "'\\''"@) == word);
        assert(seq!['\''] + word + seq!['\''] =~= seq!['\'', '\'']);
    }
    if 0 <= i < word.len() {
        assert(calling_process::stays_bare(word) ==> calling_process::is_bare(word[i])
            || calling_process::ends_revision(word, i));
    }
}

} // verus!
