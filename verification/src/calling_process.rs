//! The git command whose output is being paged.
//!
//! Set as git's pager, the program is handed a patch and told nothing about the
//! question it answers — not the subcommand, not the revs, not the options. The
//! command is in the process tree, though: git spawns its pager as a child, and
//! a shell pipeline puts the two side by side. Finding it there is what lets the
//! same question be asked again — for more of the file around each change — and
//! says what the patch is a diff *of*, which is what decides whether staging part
//! of it means anything.

use crate::diff::DiffType;
use crate::text;
use vstd::prelude::*;

verus! {

/// How far above the pager to look for the git process: git may spawn its pager
/// through a shell, and that shell through another.
pub const ANCESTORS: usize = 3;

/// The subcommands whose output is given a structure.
pub open spec fn is_structured(word: Seq<char>) -> bool {
    word == "diff"@ || word == "show"@ || word == "log"@
}

/// The subcommands an edited command may ask for. The command is re-run on every
/// rebuild — staging a hunk re-asks it — so a command that changed anything would
/// run repeatedly and unbidden.
pub open spec fn is_read_only(word: Seq<char>) -> bool {
    ||| word == "diff"@
    ||| word == "show"@
    ||| word == "log"@
    ||| word == "blame"@
    ||| word == "grep"@
    ||| word == "shortlog"@
    ||| word == "reflog"@
    ||| word == "ls-files"@
    ||| word == "describe"@
    ||| word == "status"@
}

fn structured(word: &str) -> (is: bool)
    ensures
        is == is_structured(word@),
{
    text::same_text(word, "diff") || text::same_text(word, "show") || text::same_text(word, "log")
}

fn read_only(word: &str) -> (is: bool)
    ensures
        is == is_read_only(word@),
{
    text::same_text(word, "diff") || text::same_text(word, "show") || text::same_text(word, "log")
        || text::same_text(word, "blame") || text::same_text(word, "grep") || text::same_text(
        word,
        "shortlog",
    ) || text::same_text(word, "reflog") || text::same_text(word, "ls-files") || text::same_text(
        word,
        "describe",
    ) || text::same_text(word, "status")
}

// ---------------------------------------------------------------------------
// Programs
// ---------------------------------------------------------------------------

/// The parts of a path, between its slashes.
pub open spec fn segments(path: Seq<char>) -> Seq<Seq<char>>
    decreases path.len(),
{
    if path.len() == 0 {
        seq![seq![]]
    } else {
        let before = segments(path.drop_last());
        if path.last() == '/' {
            before.push(seq![])
        } else {
            before.drop_last().push(before.last().push(path.last()))
        }
    }
}

/// The last part of a path that names anything. A part that is empty or `.` names
/// nothing.
pub open spec fn last_named(parts: Seq<Seq<char>>) -> Option<Seq<char>>
    decreases parts.len(),
{
    if parts.len() == 0 {
        None
    } else if parts.last().len() == 0 || parts.last() == seq!['.'] {
        last_named(parts.drop_last())
    } else {
        Some(parts.last())
    }
}

/// Where the last dot of a name is, from its second character on; or how long it
/// is.
pub open spec fn stem_len(name: Seq<char>) -> nat
    decreases name.len(),
{
    if !has_dot(name) {
        name.len()
    } else if name.last() == '.' {
        (name.len() - 1) as nat
    } else {
        stem_len(name.drop_last())
    }
}

/// Whether there is a dot in a name, from its second character on.
pub open spec fn has_dot(name: Seq<char>) -> bool {
    exists|i: int| 1 <= i < name.len() && #[trigger] name[i] == '.'
}

/// What a program is called: the name of its file without its extension. A path
/// that ends with `..` has none.
pub open spec fn program_name(path: Seq<char>) -> Option<Seq<char>> {
    match last_named(segments(path)) {
        Some(name) => if name == seq!['.', '.'] {
            None
        } else {
            Some(name.take(stem_len(name) as int))
        },
        None => None,
    }
}

/// Whether a program is git, whichever case it is written in.
pub open spec fn is_git(path: Seq<char>) -> bool {
    match program_name(path) {
        Some(name) => {
            &&& name.len() == 3
            &&& name[0] == 'g' || name[0] == 'G'
            &&& name[1] == 'i' || name[1] == 'I'
            &&& name[2] == 't' || name[2] == 'T'
        },
        None => false,
    }
}

proof fn lemma_segments(path: Seq<char>)
    ensures
        segments(path).len() > 0,
    decreases path.len(),
{
    if path.len() > 0 {
        lemma_segments(path.drop_last());
    }
}

/// A path without slashes is one part.
proof fn lemma_one_segment(path: Seq<char>)
    requires
        !path.contains('/'),
    ensures
        segments(path) == seq![path],
    decreases path.len(),
{
    if path.len() > 0 {
        let front = path.drop_last();
        assert forall|c: char| front.contains(c) implies path.contains(c) by {
            let i = choose|i: int| 0 <= i < front.len() && front[i] == c;
            assert(path[i] == c);
        }
        lemma_one_segment(front);
        assert(path[path.len() - 1] != '/');
        assert(segments(path) =~= seq![path]) by {
            assert(front.push(path.last()) =~= path);
        }
    } else {
        assert(path =~= seq![]);
    }
}

/// The part of a path that starts at some place and runs up to its end.
proof fn lemma_segments_split(path: Seq<char>, at: int)
    requires
        0 <= at < path.len(),
        path[at] == '/',
        forall|k: int| at < k < path.len() ==> path[k] != '/',
    ensures
        segments(path) == segments(path.take(at)).push(path.skip(at + 1)),
    decreases path.len(),
{
    let front = path.drop_last();
    if at == path.len() - 1 {
        assert(path.take(at) =~= front);
        assert(path.skip(at + 1) =~= seq![]);
    } else {
        lemma_segments_split(front, at);
        assert(front.take(at) =~= path.take(at));
        assert(front.skip(at + 1).push(path.last()) =~= path.skip(at + 1));
        assert(segments(path) =~= segments(path.take(at)).push(path.skip(at + 1)));
    }
}

/// The last part of a path that names anything: from where to where it stands.
fn find_named(path: &Vec<char>) -> (found: Option<(usize, usize)>)
    ensures
        match found {
            Some((start, end)) => {
                &&& start <= end <= path@.len()
                &&& last_named(segments(path@)) == Some(path@.subrange(start as int, end as int))
            },
            None => last_named(segments(path@)) is None,
        },
{
    let mut end: usize = path.len();
    proof {
        assert(path@.take(end as int) =~= path@);
    }
    loop
        invariant
            end <= path@.len(),
            last_named(segments(path@.take(end as int))) == last_named(segments(path@)),
        decreases end,
    {
        let mut start: usize = end;
        while start > 0 && path[start - 1] != '/'
            invariant
                start <= end <= path@.len(),
                forall|k: int| start <= k < end ==> path@[k] != '/',
            decreases start,
        {
            start -= 1;
        }
        let ghost part = path@.take(end as int);
        let ghost name = path@.subrange(start as int, end as int);
        proof {
            if start == 0 {
                assert(name =~= part);
                lemma_one_segment(part);
                reveal_with_fuel(last_named, 2);
                assert(seq![part].drop_last() =~= Seq::<Seq<char>>::empty());
            } else {
                lemma_segments_split(part, start - 1);
                assert(part.skip(start as int) =~= name);
                assert(part.take(start - 1) =~= path@.take(start - 1));
                assert(segments(part).drop_last() =~= segments(path@.take(start - 1)));
            }
        }
        let empty = start == end || (end - start == 1 && path[start] == '.');
        proof {
            if end - start == 1 && path@[start as int] == '.' {
                assert(name =~= seq!['.']);
            }
            if name == seq!['.'] {
                assert(name[0] == path@[start as int]);
            }
        }
        if !empty {
            return Some((start, end));
        }
        if start == 0 {
            return None;
        }
        end = start - 1;
    }
}

fn find_stem(path: &Vec<char>, start: usize, end: usize) -> (stem: usize)
    requires
        start <= end <= path@.len(),
    ensures
        start <= stem <= end,
        stem - start == stem_len(path@.subrange(start as int, end as int)),
{
    let ghost name = path@.subrange(start as int, end as int);
    let mut i: usize = end;
    proof {
        assert(name.take(end - start) =~= name);
    }
    while i - start > 1
        invariant
            start <= i <= end <= path@.len(),
            name == path@.subrange(start as int, end as int),
            forall|k: int| i <= k < end ==> path@[k] != '.',
            has_dot(name) ==> has_dot(name.take(i - start)) && stem_len(name.take(i - start))
                == stem_len(name),
        decreases i,
    {
        let ghost part = name.take(i - start);
        if path[i - 1] == '.' {
            proof {
                assert(name[i - start - 1] == '.');
                assert(has_dot(name));
                assert(part.last() == '.');
            }
            return i - 1;
        }
        proof {
            let shorter = name.take(i - start - 1);
            assert(part.drop_last() =~= shorter);
            assert(part.last() == path@[i - 1]);
            if has_dot(name) {
                let d = choose|d: int| 1 <= d < part.len() && #[trigger] part[d] == '.';
                assert(d != part.len() - 1);
                assert(shorter[d] == '.');
                assert(has_dot(shorter));
            }
        }
        i -= 1;
    }
    proof {
        if has_dot(name) {
            let part = name.take(i - start);
            let d = choose|d: int| 1 <= d < part.len() && #[trigger] part[d] == '.';
            assert(false);
        }
    }
    end
}

/// Whether a program is git, whichever case it is written in.
fn names_git(path: &str) -> (is: bool)
    ensures
        is == is_git(path@),
{
    let chars = text::to_chars(path);
    match find_named(&chars) {
        Some((start, end)) => {
            let ghost name = path@.subrange(start as int, end as int);
            if end - start == 2 && chars[start] == '.' && chars[start + 1] == '.' {
                proof {
                    assert(name =~= seq!['.', '.']);
                }
                return false;
            }
            proof {
                if name == seq!['.', '.'] {
                    assert(name[0] == path@[start as int] && name[1] == path@[start + 1]);
                }
            }
            let stem = find_stem(&chars, start, end);
            let ghost called = name.take(stem - start);
            if stem - start != 3 {
                return false;
            }
            proof {
                assert(called[0] == path@[start as int]);
                assert(called[1] == path@[start + 1]);
                assert(called[2] == path@[start + 2]);
            }
            (chars[start] == 'g' || chars[start] == 'G') && (chars[start + 1] == 'i'
                || chars[start + 1] == 'I') && (chars[start + 2] == 't' || chars[start + 2] == 'T')
        },
        None => false,
    }
}

/// No subcommand is itself called git.
proof fn lemma_subcommand_not_git(word: Seq<char>)
    requires
        is_structured(word),
    ensures
        !is_git(word),
{
    reveal_strlit("diff");
    reveal_strlit("show");
    reveal_strlit("log");
    assert(!word.contains('/'));
    lemma_one_segment(word);
    assert(word.len() >= 3 && word[0] != 'g');
    assert(last_named(seq![word]) == Some(word));
    assert(!has_dot(word));
    assert(word.take(word.len() as int) =~= word);
}

// ---------------------------------------------------------------------------
// Commands
// ---------------------------------------------------------------------------

/// A git invocation that can be put again.
#[derive(Debug, PartialEq, Eq)]
pub struct GitCommand {
    pub argv: Vec<String>,
    /// Where the subcommand sits in `argv`. What precedes it is git's own
    /// (`-c k=v`, `--git-dir=…`) and has to stay in front of it.
    pub subcommand: usize,
}

/// Why an edited command is refused.
#[derive(Debug, PartialEq, Eq)]
pub enum EditError {
    /// A quote in it isn't closed.
    Quotes,
    /// It changes git's program or its own options, or asks for nothing.
    Fixed,
    /// What it asks for, by this subcommand, would change the repository.
    Writes(String),
}

/// The first word that is a subcommand whose output is given a structure, from
/// the `from`th on.
pub open spec fn first_structured(words: Seq<Seq<char>>, from: int) -> Option<int>
    decreases words.len() - from,
{
    if from < 0 || from >= words.len() {
        None
    } else if is_structured(words[from]) {
        Some(from)
    } else {
        first_structured(words, from + 1)
    }
}

/// Where the subcommand sits in an invocation, if it is one whose output is given
/// a structure.
pub open spec fn subcommand_of(words: Seq<Seq<char>>) -> Option<int> {
    if words.len() > 0 && is_git(words[0]) {
        first_structured(words, 0)
    } else {
        None
    }
}

proof fn lemma_subcommand(words: Seq<Seq<char>>, from: int)
    requires
        0 <= from,
    ensures
        first_structured(words, from) matches Some(at) ==> from <= at < words.len()
            && is_structured(words[at]),
    decreases words.len() - from,
{
    if from < words.len() {
        lemma_subcommand(words, from + 1);
    }
}

/// What was asked of a subcommand, up to `--`.
pub open spec fn before_paths(args: Seq<Seq<char>>) -> Seq<Seq<char>>
    decreases args.len(),
{
    if args.len() == 0 || args[0] == "--"@ {
        seq![]
    } else {
        seq![args[0]] + before_paths(args.drop_first())
    }
}

pub open spec fn is_option(arg: Seq<char>) -> bool {
    arg.len() > 0 && arg[0] == '-'
}

/// What a patch is a diff of, by what was asked of a subcommand. Only a `git diff`
/// of the working tree or of the index is either of those; naming a rev makes it a
/// comparison of two trees, as `git show` and `git log -p` always are.
pub open spec fn diff_type_of(subcommand: Seq<char>, args: Seq<Seq<char>>) -> DiffType {
    let asked = before_paths(args);
    if subcommand != "diff"@ {
        DiffType::TreeToTree
    } else if asked.contains("--cached"@) || asked.contains("--staged"@) {
        DiffType::IndexToTree
    } else if exists|i: int| 0 <= i < asked.len() && !is_option(#[trigger] asked[i]) {
        DiffType::TreeToTree
    } else {
        DiffType::WorkdirToIndex
    }
}

/// Whether an argument says how much context to show, and nothing else.
pub open spec fn says_context(arg: Seq<char>) -> bool {
    ||| arg == "-W"@
    ||| arg == "--function-context"@
    ||| arg == "--no-function-context"@
    ||| "-U"@.is_prefix_of(arg)
    ||| "--unified="@.is_prefix_of(arg)
}

/// Whether the argument after this one says how much context to show.
pub open spec fn context_follows(arg: Seq<char>) -> bool {
    arg == "-U"@ || arg == "--unified"@
}

/// Arguments with whatever they said about context dropped, so that what is asked
/// for is what git is asked for.
pub open spec fn contextless(args: Seq<Seq<char>>) -> Seq<Seq<char>>
    decreases args.len(),
{
    if args.len() == 0 {
        seq![]
    } else if context_follows(args[0]) {
        if args.len() == 1 {
            seq![]
        } else {
            contextless(args.skip(2))
        }
    } else if says_context(args[0]) {
        contextless(args.drop_first())
    } else {
        seq![args[0]] + contextless(args.drop_first())
    }
}

/// git's own options and the subcommand, then what is asked of it with `context`
/// in place of whatever it said.
pub open spec fn asking(argv: Seq<Seq<char>>, subcommand: int, context: Option<Seq<char>>) -> Seq<
    Seq<char>,
> {
    let own = argv.take(subcommand + 1);
    let args = argv.skip(subcommand + 1);
    match context {
        Some(context) => own + seq![context] + contextless(args),
        None => own + args,
    }
}

/// The flags that are forced on every command. What comes back is parsed, so an
/// external differ must not stand in for the patch, and git's colours have to be
/// off however the user has configured them.
pub open spec fn forced() -> Seq<Seq<char>> {
    seq!["--no-ext-diff"@, "--no-color"@]
}

/// The command to run.
pub open spec fn to_run(argv: Seq<Seq<char>>, subcommand: int, context: Option<Seq<char>>) -> Seq<
    Seq<char>,
> {
    let words = asking(argv, subcommand, context);
    words.take(subcommand + 1) + forced() + words.skip(subcommand + 1)
}

/// Whether a character can be written as it is.
pub open spec fn is_bare(c: char) -> bool {
    ||| text::alphanumeric(c)
    ||| c == '_'
    ||| c == '@'
    ||| c == '%'
    ||| c == '+'
    ||| c == '='
    ||| c == ':'
    ||| c == ','
    ||| c == '.'
    ||| c == '/'
    ||| c == '-'
    ||| c == '~'
    ||| c == '^'
}

/// Whether a word ends as the revision `x^!` does.
pub open spec fn ends_revision(word: Seq<char>, i: int) -> bool {
    i == word.len() - 1 && i > 0 && word[i] == '!' && word[i - 1] == '^'
}

/// Whether a word can be written as it is. A `!` can only where it ends a revision:
/// a shell may take it for the start of an earlier command anywhere else.
pub open spec fn stays_bare(word: Seq<char>) -> bool {
    word.len() > 0 && forall|i: int|
        0 <= i < word.len() ==> is_bare(#[trigger] word[i]) || ends_revision(word, i)
}

/// A word as it has to be written to survive being read back, and to mean the same
/// thing if it is pasted into a shell.
pub open spec fn quote(word: Seq<char>) -> Seq<char> {
    if stays_bare(word) {
        word
    } else {
        seq!['\''] + text::replaced(word, "'"@, "'\\''"@) + seq!['\'']
    }
}

/// Words as they have to be written to survive being read back.
pub open spec fn written(words: Seq<Seq<char>>) -> Seq<char>
    decreases words.len(),
{
    if words.len() == 0 {
        seq![]
    } else if words.len() == 1 {
        quote(words[0])
    } else {
        written(words.drop_last()).push(' ') + quote(words.last())
    }
}

/// The command as it is being put, for the user to edit. The flags that are forced
/// are left out: they are not the question, and not the user's to change.
pub open spec fn line_of(argv: Seq<Seq<char>>, subcommand: int, context: Option<Seq<char>>) -> Seq<
    char,
> {
    written(seq!["git"@] + asking(argv, subcommand, context).skip(1))
}

/// The words a line reads as, as a shell has it, unless a quote in it isn't
/// closed.
pub uninterp spec fn shell_words_of(line: Seq<char>) -> Option<Seq<Seq<char>>>;

/// `shell_words::split`: the words of a line go by a name. Words that were quoted
/// and put side by side read back as those words: one without any of the
/// characters the splitting knows stands for itself, and within single quotes
/// everything does.
#[verifier::external_body]
fn split_words(line: &str) -> (words: Option<Vec<String>>)
    ensures
        match words {
            Some(words) => shell_words_of(line@) == Some(text::string_views(words@)),
            None => shell_words_of(line@) is None,
        },
        forall|given: Seq<Seq<char>>|
            line@ == #[trigger] written(given) ==> (words matches Some(words)
                && text::string_views(words@) == given),
{
    shell_words::split(line).ok()
}

/// The words of a line, as a shell has it, or `None` where a quote in it isn't closed.
/// What `quoted` made of a word reads as just that word, and words quoted and put
/// side by side read as those words.
pub fn words_of(line: &str) -> (words: Option<Vec<String>>)
    ensures
        match words {
            Some(words) => shell_words_of(line@) == Some(text::string_views(words@)),
            None => shell_words_of(line@) is None,
        },
        forall|word: Seq<char>|
            line@ == #[trigger] quote(word) ==> (words matches Some(words)
                && text::string_views(words@) == seq![word]),
        forall|given: Seq<Seq<char>>|
            line@ == #[trigger] written(given) ==> (words matches Some(words)
                && text::string_views(words@) == given),
{
    let words = split_words(line);
    proof {
        assert forall|word: Seq<char>| line@ == #[trigger] quote(word) implies (
        words matches Some(words) && text::string_views(words@) == seq![word]) by {
            let given = seq![word];
            assert(written(given) == quote(given[0]));
        }
    }
    words
}

/// A word quoted and read back, which is just that word.
pub fn read_back(word: &str) -> (words: Option<Vec<String>>)
    ensures
        words matches Some(words) && text::string_views(words@) == seq![word@],
        shell_words_of(quote(word@)) == Some(seq![word@]),
{
    words_of(quoted(word).as_str())
}

/// What an edit of a command's line comes to.
pub enum Edit {
    Quotes,
    Fixed,
    Writes(Seq<char>),
    Command(Seq<Seq<char>>),
}

/// What an edit of a command's line comes to, by the words it reads as. git's
/// program and its own options are fixed — operations act on the repository that
/// was opened, and an edit pointing git elsewhere would make the view and the
/// operations disagree — and the subcommand must be one that only reports.
pub open spec fn edit_of(
    argv: Seq<Seq<char>>,
    subcommand: int,
    words: Option<Seq<Seq<char>>>,
) -> Edit {
    let own = argv.subrange(1, subcommand);
    match words {
        None => Edit::Quotes,
        Some(words) => if words.len() == 0 || words[0] != "git"@ {
            Edit::Fixed
        } else {
            let rest = words.skip(1);
            if !own.is_prefix_of(rest) || rest.len() == own.len() {
                Edit::Fixed
            } else if !is_read_only(rest[own.len() as int]) {
                Edit::Writes(rest[own.len() as int])
            } else {
                Edit::Command(seq![argv[0]] + rest)
            }
        },
    }
}

/// Whether an edit came to this.
pub open spec fn comes_to(edited: Result<GitCommand, EditError>, edit: Edit, subcommand: usize) -> bool {
    match (edited, edit) {
        (Ok(git), Edit::Command(argv)) => git@ == argv && git.subcommand == subcommand,
        (Err(EditError::Quotes), Edit::Quotes) => true,
        (Err(EditError::Fixed), Edit::Fixed) => true,
        (Err(EditError::Writes(word)), Edit::Writes(wanted)) => word@ == wanted,
        _ => false,
    }
}

impl View for GitCommand {
    type V = Seq<Seq<char>>;

    open spec fn view(&self) -> Seq<Seq<char>> {
        text::string_views(self.argv@)
    }
}

/// A word as it has to be written to survive being read back. Revisions
/// (`HEAD~2`, `x^!`) and git's own `k=v` options are left bare; a pathspec's
/// parentheses and wildcards are not.
pub fn quoted(word: &str) -> (out: String)
    ensures
        out@ == quote(word@),
        out@ == word@ <==> stays_bare(word@),
{
    let chars = text::to_chars(word);
    let mut bare = chars.len() > 0;
    let mut i: usize = 0;
    while i < chars.len() && bare
        invariant
            i <= chars@.len(),
            chars@ == word@,
            bare ==> word@.len() > 0 && forall|k: int|
                0 <= k < i ==> is_bare(#[trigger] word@[k]) || ends_revision(word@, k),
            !bare ==> word@.len() == 0 || exists|k: int|
                0 <= k < word@.len() && !is_bare(#[trigger] word@[k]) && !ends_revision(word@, k),
        decreases chars@.len() - i,
    {
        let c = chars[i];
        if !(c.is_alphanumeric() || c == '_' || c == '@' || c == '%' || c == '+' || c == '='
            || c == ':' || c == ',' || c == '.' || c == '/' || c == '-' || c == '~' || c == '^') && !(c
            == '!' && i > 0 && chars.len() - i == 1 && chars[i - 1] == '^') {
            proof {
                assert(!is_bare(word@[i as int]) && !ends_revision(word@, i as int));
            }
            bare = false;
        }
        i += 1;
    }
    if bare {
        return word.to_owned();
    }
    proof {
        reveal_strlit("'");
    }
    let mut out = String::new();
    out.push('\'');
    out.push_str(text::replace(word, "'", "'\\''").as_str());
    out.push('\'');
    proof {
        reveal_strlit("'\\''");
        assert(out@ =~= quote(word@));
        text::lemma_replaced_len(word@, "'"@, "'\\''"@);
    }
    out
}

fn write_words(words: &Vec<String>) -> (line: String)
    ensures
        line@ == written(text::string_views(words@)),
{
    let ghost all = text::string_views(words@);
    let mut line = String::new();
    let mut i: usize = 0;
    proof {
        assert(all.take(0) =~= Seq::<Seq<char>>::empty());
    }
    while i < words.len()
        invariant
            i <= words@.len(),
            all == text::string_views(words@),
            line@ == written(all.take(i as int)),
        decreases words@.len() - i,
    {
        proof {
            assert(all.take(i + 1).drop_last() =~= all.take(i as int));
            assert(all.take(i + 1).last() == words@[i as int]@);
        }
        let ghost before = line@;
        if i > 0 {
            line.push(' ');
        }
        line.push_str(quoted(words[i].as_str()).as_str());
        proof {
            if i == 0 {
                assert(all.take(1)[0] == words@[0]@);
                assert(line@ =~= quote(words@[0]@));
            }
        }
        i += 1;
    }
    proof {
        assert(all.take(i as int) =~= all);
    }
    line
}

/// Arguments with whatever they said about context dropped, so that what is asked
/// for is what git is asked for.
pub fn without_context(argv: &Vec<String>, from: usize) -> (kept: Vec<String>)
    requires
        from <= argv@.len(),
    ensures
        text::string_views(kept@) == contextless(text::string_views(argv@).skip(from as int)),
{
    let ghost all = text::string_views(argv@);
    let ghost wanted = contextless(all.skip(from as int));
    let mut kept: Vec<String> = Vec::new();
    let mut i: usize = from;
    proof {
        assert(text::string_views(kept@) + wanted =~= wanted);
    }
    while i < argv.len()
        invariant
            from <= i <= argv@.len(),
            all == text::string_views(argv@),
            wanted == contextless(all.skip(from as int)),
            text::string_views(kept@) + contextless(all.skip(i as int)) == wanted,
        decreases argv@.len() - i,
    {
        let ghost rest = all.skip(i as int);
        let ghost before = kept@;
        proof {
            assert(rest.drop_first() =~= all.skip(i + 1));
            assert(rest[0] == argv@[i as int]@);
        }
        let arg = argv[i].as_str();
        if text::same_text(arg, "-U") || text::same_text(arg, "--unified") {
            if argv.len() - i < 2 {
                proof {
                    assert(text::string_views(kept@) =~= wanted);
                }
                return kept;
            }
            proof {
                assert(rest.skip(2) =~= all.skip(i + 2));
            }
            i += 2;
        } else if text::same_text(arg, "-W") || text::same_text(arg, "--function-context")
            || text::same_text(arg, "--no-function-context") || text::starts_with(arg, "-U")
            || text::starts_with(arg, "--unified=") {
            i += 1;
        } else {
            kept.push(arg.to_owned());
            proof {
                assert(text::string_views(kept@) =~= text::string_views(before).push(
                    argv@[i as int]@,
                ));
                assert(text::string_views(kept@) + contextless(all.skip(i + 1))
                    =~= text::string_views(before) + contextless(rest));
            }
            i += 1;
        }
    }
    proof {
        assert(contextless(all.skip(i as int)) =~= seq![]);
        assert(text::string_views(kept@) =~= wanted);
    }
    kept
}

proof fn lemma_contextless_again(args: Seq<Seq<char>>)
    ensures
        contextless(contextless(args)) == contextless(args),
        forall|i: int|
            0 <= i < contextless(args).len() ==> !says_context(#[trigger] contextless(args)[i])
                && !context_follows(contextless(args)[i]),
    decreases args.len(),
{
    let kept = contextless(args);
    if args.len() == 0 {
    } else if context_follows(args[0]) {
        if args.len() > 1 {
            lemma_contextless_again(args.skip(2));
        }
    } else {
        let rest = contextless(args.drop_first());
        lemma_contextless_again(args.drop_first());
        if !says_context(args[0]) {
            assert(kept == seq![args[0]] + rest);
            assert(kept.drop_first() =~= rest);
            assert(kept[0] == args[0]);
            assert forall|i: int| 0 <= i < kept.len() implies !says_context(#[trigger] kept[i])
                && !context_follows(kept[i]) by {
                if i > 0 {
                    assert(kept[i] == rest[i - 1]);
                }
            }
        }
    }
}

/// Asking for another amount of context replaces the one before: nothing is left
/// of what was asked for first, and nothing else of the question changes.
pub proof fn context_is_replaced(
    argv: Seq<Seq<char>>,
    subcommand: int,
    first: Seq<char>,
    then_asked: Seq<char>,
)
    requires
        0 <= subcommand < argv.len(),
        says_context(first),
        !context_follows(first),
    ensures
        asking(asking(argv, subcommand, Some(first)), subcommand, Some(then_asked)) == asking(
            argv,
            subcommand,
            Some(then_asked),
        ),
{
    let args = argv.skip(subcommand + 1);
    let once = asking(argv, subcommand, Some(first));
    lemma_contextless_again(args);
    assert(once.take(subcommand + 1) =~= argv.take(subcommand + 1));
    let left = once.skip(subcommand + 1);
    assert(left =~= seq![first] + contextless(args));
    assert(left[0] == first);
    assert(left.drop_first() =~= contextless(args));
}

/// Copy some of a list of texts behind others.
fn copy_range(out: &mut Vec<String>, from: &Vec<String>, start: usize, end: usize)
    requires
        start <= end <= from@.len(),
    ensures
        text::string_views(final(out)@) == text::string_views(old(out)@) + text::string_views(
            from@,
        ).subrange(start as int, end as int),
{
    let ghost all = text::string_views(from@);
    let ghost begun = text::string_views(out@);
    let mut i: usize = start;
    proof {
        assert(begun + all.subrange(start as int, start as int) =~= begun);
    }
    while i < end
        invariant
            start <= i <= end <= from@.len(),
            all == text::string_views(from@),
            text::string_views(out@) =~= begun + all.subrange(start as int, i as int),
        decreases end - i,
    {
        let ghost before = out@;
        out.push(from[i].clone());
        proof {
            assert(text::string_views(out@) =~= text::string_views(before).push(from@[i as int]@));
        }
        i += 1;
    }
}

impl GitCommand {
    /// Whether the subcommand is where it is said to be: behind the program.
    pub open spec fn wf(&self) -> bool {
        &&& 0 < self.subcommand < self.argv@.len()
        &&& is_read_only(self@[self.subcommand as int])
    }

    /// The invocation `argv` is, if it is one whose output is given a structure.
    pub fn of(argv: Vec<String>) -> (git: Option<GitCommand>)
        ensures
            match git {
                Some(git) => {
                    &&& git.wf()
                    &&& git.argv == argv
                    &&& subcommand_of(text::string_views(argv@)) == Some(git.subcommand as int)
                },
                None => subcommand_of(text::string_views(argv@)) is None,
            },
    {
        let ghost words = text::string_views(argv@);
        if argv.len() == 0 || !names_git(argv[0].as_str()) {
            proof {
                assert(words.len() == 0 || words[0] == argv@[0]@);
            }
            return None;
        }
        let mut i: usize = 0;
        while i < argv.len()
            invariant
                i <= argv@.len(),
                words == text::string_views(argv@),
                words.len() > 0,
                is_git(words[0]),
                first_structured(words, i as int) == first_structured(words, 0),
            decreases argv@.len() - i,
        {
            proof {
                assert(words[i as int] == argv@[i as int]@);
            }
            if structured(argv[i].as_str()) {
                proof {
                    if i == 0 {
                        lemma_subcommand_not_git(words[0]);
                    }
                }
                return Some(GitCommand { argv, subcommand: i });
            }
            i += 1;
        }
        None
    }

    pub fn subcommand(&self) -> (word: &str)
        requires
            self.subcommand < self.argv@.len(),
        ensures
            word@ == self@[self.subcommand as int],
    {
        self.argv[self.subcommand].as_str()
    }

    /// What the patch is a diff of, which is what decides whether staging or
    /// unstaging part of it means anything.
    pub fn diff_type(&self) -> (kind: DiffType)
        requires
            self.wf(),
        ensures
            kind == diff_type_of(
                self@[self.subcommand as int],
                self@.skip(self.subcommand + 1),
            ),
    {
        if !text::same_text(self.subcommand(), "diff") {
            return DiffType::TreeToTree;
        }
        let ghost args = self@.skip(self.subcommand + 1);
        let ghost asked = before_paths(args);
        let count = self.argv.len();
        let mut cached = false;
        let mut named = false;
        let mut i: usize = self.subcommand + 1;
        let ghost mut seen: Seq<Seq<char>> = seq![];
        proof {
            assert(self@.skip(i as int) =~= args);
            assert(seen + before_paths(args) =~= asked);
        }
        while i < count && !text::same_text(self.argv[i].as_str(), "--")
            invariant
                self.subcommand < i <= count,
                count == self.argv@.len(),
                asked == seen + before_paths(self@.skip(i as int)),
                cached <==> seen.contains("--cached"@) || seen.contains("--staged"@),
                named <==> exists|k: int| 0 <= k < seen.len() && !is_option(#[trigger] seen[k]),
            decreases self.argv@.len() - i,
        {
            let ghost rest = self@.skip(i as int);
            let ghost before = seen;
            let arg = self.argv[i].as_str();
            proof {
                assert(rest[0] == self.argv@[i as int]@);
                assert(rest.drop_first() =~= self@.skip(i + 1));
                seen = before.push(arg@);
                assert(before + before_paths(rest) =~= seen + before_paths(self@.skip(i + 1)));
                assert(seen[before.len() as int] == arg@);
                assert forall|word: Seq<char>| #[trigger] seen.contains(word) implies word == arg@
                    || before.contains(word) by {
                    let k = choose|k: int| 0 <= k < seen.len() && seen[k] == word;
                    if k < before.len() {
                        assert(before[k] == word);
                    }
                }
                assert forall|word: Seq<char>| #[trigger]
                    before.contains(word) implies seen.contains(word) by {
                    let k = choose|k: int| 0 <= k < before.len() && before[k] == word;
                    assert(seen[k] == word);
                }
                if named {
                    let k = choose|k: int| 0 <= k < before.len() && !is_option(#[trigger] before[k]);
                    assert(seen[k] == before[k]);
                } else {
                    assert forall|k: int| 0 <= k < before.len() implies is_option(
                        #[trigger] seen[k],
                    ) by {
                        assert(seen[k] == before[k]);
                    }
                }
            }
            if text::same_text(arg, "--cached") || text::same_text(arg, "--staged") {
                cached = true;
            }
            proof {
                reveal_strlit("-");
                if is_option(arg@) {
                    assert("-"@ =~= arg@.take(1));
                } else if "-"@.is_prefix_of(arg@) {
                    assert("-"@[0] == arg@[0]);
                }
            }
            if !text::starts_with(arg, "-") {
                named = true;
            }
            i += 1;
        }
        proof {
            let rest = self@.skip(i as int);
            if i < self.argv@.len() {
                assert(rest[0] == self.argv@[i as int]@);
            }
            assert(asked =~= seen);
        }
        if cached {
            DiffType::IndexToTree
        } else if named {
            DiffType::TreeToTree
        } else {
            DiffType::WorkdirToIndex
        }
    }

    fn words(&self, context: Option<&str>) -> (words: Vec<String>)
        requires
            self.wf(),
        ensures
            text::string_views(words@) == asking(
                self@,
                self.subcommand as int,
                text::maybe(context),
            ),
    {
        let mut words: Vec<String> = Vec::new();
        let count = self.argv.len();
        copy_range(&mut words, &self.argv, 0, self.subcommand + 1);
        let ghost own = self@.take(self.subcommand + 1);
        proof {
            assert(text::string_views(words@) =~= own);
        }
        match context {
            Some(context) => {
                let ghost before = words@;
                words.push(context.to_owned());
                proof {
                    assert(text::string_views(words@) =~= text::string_views(before).push(
                        context@,
                    ));
                }
                let kept = without_context(&self.argv, self.subcommand + 1);
                copy_range(&mut words, &kept, 0, kept.len());
                proof {
                    assert(text::string_views(kept@).subrange(0, kept@.len() as int)
                        =~= text::string_views(kept@));
                    assert(text::string_views(words@) =~= asking(
                        self@,
                        self.subcommand as int,
                        text::maybe(Some(context)),
                    ));
                }
            },
            None => {
                copy_range(&mut words, &self.argv, self.subcommand + 1, count);
                proof {
                    assert(text::string_views(words@) =~= asking(
                        self@,
                        self.subcommand as int,
                        text::maybe(None),
                    ));
                }
            },
        }
        words
    }

    /// The command again, asking for `context` around each change (`-U8`, `-W`) in
    /// place of whatever it originally asked for. `None` puts the question exactly
    /// as git put it.
    pub fn command(&self, context: Option<&str>) -> (full: Vec<String>)
        requires
            self.wf(),
        ensures
            text::string_views(full@) == to_run(
                self@,
                self.subcommand as int,
                text::maybe(context),
            ),
    {
        let words = self.words(context);
        let ghost all = text::string_views(words@);
        proof {
            assert(all.len() == words@.len());
            assert(all.len() > self.subcommand);
        }
        let count = words.len();
        let mut full: Vec<String> = Vec::new();
        copy_range(&mut full, &words, 0, self.subcommand + 1);
        let ghost before = full@;
        full.push("--no-ext-diff".to_owned());
        full.push("--no-color".to_owned());
        proof {
            assert(text::string_views(full@) =~= text::string_views(before) + forced());
        }
        copy_range(&mut full, &words, self.subcommand + 1, count);
        proof {
            assert(text::string_views(full@) =~= to_run(
                self@,
                self.subcommand as int,
                text::maybe(context),
            ));
        }
        full
    }

    /// The command as it is being put, for the user to edit.
    pub fn line(&self, context: Option<&str>) -> (line: String)
        requires
            self.wf(),
        ensures
            line@ == line_of(self@, self.subcommand as int, text::maybe(context)),
    {
        let words = self.words(context);
        let ghost all = text::string_views(words@);
        proof {
            assert(all.len() == words@.len());
            assert(all.len() > self.subcommand);
        }
        let mut shown: Vec<String> = Vec::new();
        shown.push("git".to_owned());
        proof {
            assert(text::string_views(shown@) =~= seq!["git"@]);
        }
        copy_range(&mut shown, &words, 1, words.len());
        proof {
            assert(text::string_views(shown@) =~= seq!["git"@] + all.skip(1));
        }
        write_words(&shown)
    }

    /// The command some words ask for, as an edit of [`Self::line`].
    pub fn asked_by(&self, words: &Option<Vec<String>>) -> (edited: Result<GitCommand, EditError>)
        requires
            self.wf(),
        ensures
            comes_to(
                edited,
                edit_of(
                    self@,
                    self.subcommand as int,
                    match *words {
                        Some(words) => Some(text::string_views(words@)),
                        None => None,
                    },
                ),
                self.subcommand,
            ),
            edited matches Ok(git) ==> git.wf(),
    {
        let given = match words {
            Some(given) => given,
            None => {
                return Err(EditError::Quotes);
            },
        };
        let ghost all = text::string_views(given@);
        let ghost own = self@.subrange(1, self.subcommand as int);
        let ghost rest = all.skip(1);
        if given.len() == 0 || !text::same_text(given[0].as_str(), "git") {
            proof {
                assert(all.len() == 0 || all[0] == given@[0]@);
            }
            return Err(EditError::Fixed);
        }
        proof {
            assert(all[0] == given@[0]@);
        }
        if given.len() < self.subcommand {
            return Err(EditError::Fixed);
        }
        let mut i: usize = 1;
        while i < self.subcommand
            invariant
                1 <= i <= self.subcommand <= given@.len(),
                *words == Some(*given),
                all.len() > 0,
                all[0] == "git"@,
                self.subcommand < self.argv@.len(),
                all == text::string_views(given@),
                rest == all.skip(1),
                own == self@.subrange(1, self.subcommand as int),
                forall|k: int| 0 <= k < i - 1 ==> #[trigger] own[k] == rest[k],
            decreases self.subcommand - i,
        {
            proof {
                assert(own[i - 1] == self.argv@[i as int]@);
                assert(rest[i - 1] == given@[i as int]@);
            }
            if !text::same_text(self.argv[i].as_str(), given[i].as_str()) {
                proof {
                    assert(!own.is_prefix_of(rest)) by {
                        if own.is_prefix_of(rest) {
                            assert(own[i - 1] == rest.take(own.len() as int)[i - 1]);
                        }
                    }
                }
                return Err(EditError::Fixed);
            }
            i += 1;
        }
        proof {
            assert(own =~= rest.take(own.len() as int));
            assert(own.is_prefix_of(rest));
        }
        if given.len() == self.subcommand {
            return Err(EditError::Fixed);
        }
        proof {
            assert(rest[own.len() as int] == given@[self.subcommand as int]@);
        }
        if !read_only(given[self.subcommand].as_str()) {
            return Err(EditError::Writes(given[self.subcommand].clone()));
        }
        let mut argv: Vec<String> = Vec::new();
        argv.push(self.argv[0].clone());
        proof {
            assert(text::string_views(argv@) =~= seq![self@[0]]);
        }
        copy_range(&mut argv, given, 1, given.len());
        proof {
            assert(text::string_views(argv@) =~= seq![self@[0]] + rest);
            assert(text::string_views(argv@)[self.subcommand as int] == rest[own.len() as int]);
        }
        Ok(GitCommand { argv, subcommand: self.subcommand })
    }

    /// The command an edit of [`Self::line`] asks for. A line that was not changed
    /// asks for what it says, with the program that was found.
    pub fn edited(&self, line: &str) -> (edited: Result<GitCommand, EditError>)
        requires
            self.wf(),
        ensures
            comes_to(
                edited,
                edit_of(self@, self.subcommand as int, shell_words_of(line@)),
                self.subcommand,
            ),
            edited matches Ok(git) ==> git.wf(),
            forall|context: Option<Seq<char>>|
                line@ == #[trigger] line_of(self@, self.subcommand as int, context)
                    ==> (edited matches Ok(git) && git@ == asking(
                    self@,
                    self.subcommand as int,
                    context,
                ) && git.subcommand == self.subcommand),
    {
        let words = words_of(line);
        let edited = self.asked_by(&words);
        proof {
            assert forall|context: Option<Seq<char>>|
                line@ == #[trigger] line_of(
                    self@,
                    self.subcommand as int,
                    context,
                ) implies (edited matches Ok(git) && git@ == asking(
                self@,
                self.subcommand as int,
                context,
            ) && git.subcommand == self.subcommand) by {
                let asked = asking(self@, self.subcommand as int, context);
                let given = seq!["git"@] + asked.skip(1);
                let own = self@.subrange(1, self.subcommand as int);
                assert(line@ == written(given));
                assert(given.skip(1) =~= asked.skip(1));
                assert(asked.skip(1).take(own.len() as int) =~= own);
                assert(own.is_prefix_of(given.skip(1)));
                assert(given.skip(1)[own.len() as int] == self@[self.subcommand as int]);
                assert(seq![self@[0]] + given.skip(1) =~= asked);
            }
        }
        edited
    }
}

// ---------------------------------------------------------------------------
// Files
// ---------------------------------------------------------------------------

/// What a path git is told to leave out starts with.
pub const EXCLUDE: &'static str = ":(top,exclude)";

/// Where the paths of a command start, whose arguments start at `from`: behind `--`;
/// or its end.
pub open spec fn paths_start(argv: Seq<Seq<char>>, from: int) -> int
    decreases argv.len() - from,
{
    if from < 0 || from >= argv.len() {
        argv.len() as int
    } else if argv[from] == "--"@ {
        from + 1
    } else {
        paths_start(argv, from + 1)
    }
}

/// Whether a command names paths, behind `--`.
pub open spec fn marks_paths(argv: Seq<Seq<char>>, from: int) -> bool {
    from < paths_start(argv, from) && argv[paths_start(argv, from) - 1] == "--"@
}

/// What comes before the paths of a command.
pub open spec fn question(argv: Seq<Seq<char>>, from: int) -> Seq<Seq<char>> {
    if marks_paths(argv, from) {
        argv.take(paths_start(argv, from) - 1)
    } else {
        argv
    }
}

/// A path as the user says it, in git's own language less the magic: a bare pattern
/// limits the view, and `!` drops what it matches.
pub open spec fn pattern_of(path: Seq<char>) -> Seq<char> {
    if EXCLUDE@.is_prefix_of(path) {
        seq!['!'] + path.skip(EXCLUDE@.len() as int)
    } else {
        path
    }
}

/// A path as git is told it.
pub open spec fn path_of(pattern: Seq<char>) -> Seq<char> {
    if pattern.len() > 0 && pattern[0] == '!' {
        EXCLUDE@ + pattern.skip(1)
    } else {
        pattern
    }
}

/// The paths a command names, as the user says them.
pub open spec fn patterns_of(argv: Seq<Seq<char>>, from: int) -> Seq<Seq<char>> {
    argv.skip(paths_start(argv, from)).map_values(|path: Seq<char>| pattern_of(path))
}

/// A command asking for some paths, in place of whatever it asked for.
pub open spec fn asking_paths(
    argv: Seq<Seq<char>>,
    from: int,
    patterns: Seq<Seq<char>>,
) -> Seq<Seq<char>> {
    if patterns.len() == 0 {
        question(argv, from)
    } else {
        question(argv, from).push("--"@) + patterns.map_values(|pattern: Seq<char>| path_of(pattern))
    }
}

proof fn lemma_paths_start(argv: Seq<Seq<char>>, from: int)
    requires
        0 <= from <= argv.len(),
    ensures
        from <= paths_start(argv, from) <= argv.len(),
        forall|k: int| from <= k < paths_start(argv, from) - 1 ==> #[trigger] argv[k] != "--"@,
        paths_start(argv, from) < argv.len() ==> from < paths_start(argv, from)
            && argv[paths_start(argv, from) - 1] == "--"@,
    decreases argv.len() - from,
{
    if from < argv.len() && argv[from] != "--"@ {
        lemma_paths_start(argv, from + 1);
    }
}

proof fn lemma_paths_start_is(argv: Seq<Seq<char>>, from: int, at: int)
    requires
        0 <= from <= at < argv.len(),
        argv[at] == "--"@,
        forall|k: int| from <= k < at ==> #[trigger] argv[k] != "--"@,
    ensures
        paths_start(argv, from) == at + 1,
    decreases at - from,
{
    if from < at {
        lemma_paths_start_is(argv, from + 1, at);
    }
}

proof fn lemma_no_paths(argv: Seq<Seq<char>>, from: int)
    requires
        0 <= from <= argv.len(),
        forall|k: int| from <= k < argv.len() ==> #[trigger] argv[k] != "--"@,
    ensures
        paths_start(argv, from) == argv.len(),
    decreases argv.len() - from,
{
    if from < argv.len() {
        lemma_no_paths(argv, from + 1);
    }
}

proof fn lemma_question(argv: Seq<Seq<char>>, from: int)
    requires
        0 <= from <= argv.len(),
    ensures
        from <= question(argv, from).len(),
        forall|k: int|
            from <= k < question(argv, from).len() ==> #[trigger] question(argv, from)[k]
                != "--"@,
{
    lemma_paths_start(argv, from);
    let asked = question(argv, from);
    assert forall|k: int| from <= k < asked.len() implies #[trigger] asked[k] != "--"@ by {
        assert(asked[k] == argv[k]);
    }
}

/// The files a command was made to ask for come back as they were said: hiding a
/// file is there to be read back, undone, or added to. (A path that git is to take
/// for what `!` stands for is said with `!`.)
pub proof fn files_come_back(argv: Seq<Seq<char>>, from: int, patterns: Seq<Seq<char>>)
    requires
        0 <= from <= argv.len(),
        forall|i: int|
            0 <= i < patterns.len() ==> !EXCLUDE@.is_prefix_of(#[trigger] patterns[i]),
    ensures
        patterns_of(asking_paths(argv, from, patterns), from) == patterns,
{
    let asked = question(argv, from);
    let full = asking_paths(argv, from, patterns);
    lemma_question(argv, from);
    if patterns.len() == 0 {
        lemma_no_paths(asked, from);
        assert(patterns_of(full, from) =~= patterns);
    } else {
        let n = asked.len() as int;
        assert forall|k: int| from <= k < n implies #[trigger] full[k] != "--"@ by {
            assert(full[k] == asked[k]);
        }
        assert(full[n] == "--"@);
        lemma_paths_start_is(full, from, n);
        assert forall|i: int| 0 <= i < patterns.len() implies pattern_of(
            #[trigger] full.skip(n + 1)[i],
        ) == patterns[i] by {
            let pattern = patterns[i];
            assert(full.skip(n + 1)[i] == path_of(pattern));
            if pattern.len() > 0 && pattern[0] == '!' {
                let path = EXCLUDE@ + pattern.skip(1);
                assert(path.take(EXCLUDE@.len() as int) =~= EXCLUDE@);
                assert(seq!['!'] + path.skip(EXCLUDE@.len() as int) =~= pattern);
            }
        }
        assert(patterns_of(full, from) =~= patterns);
    }
}

/// Asking for the files a command asks for already changes nothing, where it says
/// any.
pub proof fn own_files_change_nothing(argv: Seq<Seq<char>>, from: int)
    requires
        0 <= from <= argv.len(),
        patterns_of(argv, from).len() > 0 || !marks_paths(argv, from),
        forall|i: int|
            paths_start(argv, from) <= i < argv.len() ==> (#[trigger] argv[i]).len() == 0
                || argv[i][0] != '!',
    ensures
        asking_paths(argv, from, patterns_of(argv, from)) == argv,
{
    lemma_paths_start(argv, from);
    let start = paths_start(argv, from);
    let patterns = patterns_of(argv, from);
    if patterns.len() > 0 {
        assert forall|i: int| 0 <= i < patterns.len() implies path_of(#[trigger] patterns[i])
            == argv[start + i] by {
            let path = argv[start + i];
            assert(patterns[i] == pattern_of(path));
            if EXCLUDE@.is_prefix_of(path) {
                assert(pattern_of(path).skip(1) =~= path.skip(EXCLUDE@.len() as int));
                assert(path.take(EXCLUDE@.len() as int) + path.skip(EXCLUDE@.len() as int)
                    =~= path);
            }
        }
        assert(asking_paths(argv, from, patterns) =~= argv);
    }
}

impl GitCommand {
    fn find_paths(&self) -> (start: usize)
        requires
            self.wf(),
        ensures
            start == paths_start(self@, self.subcommand + 1),
            self.subcommand < start <= self.argv@.len(),
    {
        let count = self.argv.len();
        let mut i: usize = self.subcommand + 1;
        while i < count
            invariant
                self.subcommand < i <= count,
                count == self.argv@.len(),
                paths_start(self@, i as int) == paths_start(self@, self.subcommand + 1),
            decreases self.argv@.len() - i,
        {
            proof {
                assert(self@[i as int] == self.argv@[i as int]@);
            }
            if text::same_text(self.argv[i].as_str(), "--") {
                return i + 1;
            }
            i += 1;
        }
        i
    }

    /// The files asked for, as the user says them.
    pub fn file_patterns(&self) -> (patterns: Vec<String>)
        requires
            self.wf(),
        ensures
            text::string_views(patterns@) == patterns_of(self@, self.subcommand + 1),
    {
        let start = self.find_paths();
        let ghost wanted = patterns_of(self@, self.subcommand + 1);
        let mut patterns: Vec<String> = Vec::new();
        let mark = text::to_chars(EXCLUDE);
        let mut i: usize = start;
        while i < self.argv.len()
            invariant
                start <= i <= self.argv@.len(),
                start == paths_start(self@, self.subcommand + 1),
                mark@ == EXCLUDE@,
                wanted == patterns_of(self@, self.subcommand + 1),
                text::string_views(patterns@) =~= wanted.take(i - start),
            decreases self.argv@.len() - i,
        {
            let ghost before = patterns@;
            let path = self.argv[i].as_str();
            proof {
                assert(wanted[i - start] == pattern_of(path@));
            }
            if text::starts_with(path, EXCLUDE) {
                let chars = text::to_chars(path);
                let mut pattern = String::new();
                pattern.push('!');
                pattern.push_str(
                    text::from_chars(chars.as_slice(), mark.len(), chars.len()).as_str(),
                );
                proof {
                    assert(pattern@ =~= pattern_of(path@));
                }
                patterns.push(pattern);
            } else {
                patterns.push(path.to_owned());
            }
            proof {
                assert(text::string_views(patterns@) =~= text::string_views(before).push(
                    pattern_of(path@),
                ));
            }
            i += 1;
        }
        proof {
            assert(wanted.take(i - start) =~= wanted);
        }
        patterns
    }

    /// The command asking for some files, in place of whatever it asked for.
    pub fn asking_for(&self, patterns: &Vec<String>) -> (git: GitCommand)
        requires
            self.wf(),
        ensures
            git@ == asking_paths(self@, self.subcommand + 1, text::string_views(patterns@)),
            git.subcommand == self.subcommand,
            git.wf(),
    {
        let start = self.find_paths();
        proof {
            lemma_paths_start(self@, self.subcommand + 1);
            assert(self@[start - 1] == self.argv@[start - 1]@);
        }
        let ghost asked = question(self@, self.subcommand + 1);
        let marked = start - 1 > self.subcommand && text::same_text(self.argv[start - 1].as_str(), "--");
        let end: usize = if marked {
            start - 1
        } else {
            self.argv.len()
        };
        let mut argv: Vec<String> = Vec::new();
        copy_range(&mut argv, &self.argv, 0, end);
        proof {
            assert(text::string_views(argv@) =~= asked);
        }
        let ghost all = text::string_views(patterns@);
        let ghost wanted = asking_paths(self@, self.subcommand + 1, all);
        if patterns.len() > 0 {
            let ghost before = argv@;
            argv.push("--".to_owned());
            proof {
                assert(text::string_views(argv@) =~= text::string_views(before).push("--"@));
            }
            let mut i: usize = 0;
            while i < patterns.len()
                invariant
                    i <= patterns@.len(),
                    patterns@.len() > 0,
                    all == text::string_views(patterns@),
                    asked == question(self@, self.subcommand + 1),
                    wanted == asking_paths(self@, self.subcommand + 1, all),
                    text::string_views(argv@) =~= wanted.take(asked.len() + 1 + i),
                decreases patterns@.len() - i,
            {
                let ghost so_far = argv@;
                let pattern = patterns[i].as_str();
                let chars = text::to_chars(pattern);
                proof {
                    assert(wanted[asked.len() + 1 + i] == path_of(pattern@));
                }
                if chars.len() > 0 && chars[0] == '!' {
                    let mut path = EXCLUDE.to_owned();
                    path.push_str(text::from_chars(chars.as_slice(), 1, chars.len()).as_str());
                    proof {
                        assert(path@ =~= path_of(pattern@));
                    }
                    argv.push(path);
                } else {
                    argv.push(pattern.to_owned());
                }
                proof {
                    assert(text::string_views(argv@) =~= text::string_views(so_far).push(
                        path_of(pattern@),
                    ));
                }
                i += 1;
            }
            proof {
                assert(wanted.take(asked.len() + 1 + i) =~= wanted);
            }
        }
        proof {
            assert(text::string_views(argv@) == wanted);
            assert(wanted[self.subcommand as int] == self@[self.subcommand as int]);
            assert(text::string_views(argv@).len() == argv@.len());
        }
        GitCommand { argv, subcommand: self.subcommand }
    }
}

/// Hide files: the patterns that drop them, behind others.
pub fn hiding(patterns: Vec<String>, hide: &Vec<String>) -> (out: Vec<String>)
    ensures
        text::string_views(out@) == text::string_views(patterns@) + text::string_views(
            hide@,
        ).map_values(|glob: Seq<char>| seq!['!'] + glob),
{
    let ghost begun = text::string_views(patterns@);
    let ghost wanted = text::string_views(hide@).map_values(|glob: Seq<char>| seq!['!'] + glob);
    let mut out = patterns;
    let mut i: usize = 0;
    proof {
        assert(begun + wanted.take(0) =~= begun);
    }
    while i < hide.len()
        invariant
            i <= hide@.len(),
            wanted == text::string_views(hide@).map_values(|glob: Seq<char>| seq!['!'] + glob),
            text::string_views(out@) =~= begun + wanted.take(i as int),
        decreases hide@.len() - i,
    {
        let ghost before = out@;
        let mut pattern = String::new();
        pattern.push('!');
        pattern.push_str(hide[i].as_str());
        proof {
            assert(pattern@ =~= seq!['!'] + hide@[i as int]@);
        }
        out.push(pattern);
        proof {
            assert(text::string_views(out@) =~= text::string_views(before).push(
                wanted[i as int],
            ));
        }
        i += 1;
    }
    proof {
        assert(wanted.take(i as int) =~= wanted);
    }
    out
}

// ---------------------------------------------------------------------------
// Processes
// ---------------------------------------------------------------------------

/// A process, as the system lists it.
#[derive(Debug)]
pub struct ProcessRecord {
    pub pid: u32,
    pub parent: Option<u32>,
    pub argv: Vec<String>,
}

/// The first process with an id.
pub open spec fn process(table: Seq<ProcessRecord>, pid: u32) -> Option<ProcessRecord>
    decreases table.len(),
{
    if table.len() == 0 {
        None
    } else if table[0].pid == pid {
        Some(table[0])
    } else {
        process(table.drop_first(), pid)
    }
}

/// Whether a process is a git command that can be put again.
pub open spec fn runs_git(record: ProcessRecord) -> bool {
    subcommand_of(text::string_views(record.argv@)) is Some
}

/// The nearest process above another that is a git command, within a number of
/// generations.
pub open spec fn git_above(table: Seq<ProcessRecord>, pid: u32, generations: nat) -> Option<
    Seq<Seq<char>>,
>
    decreases generations,
{
    if generations == 0 {
        None
    } else {
        match process(table, pid) {
            Some(record) => match record.parent {
                Some(parent) => match process(table, parent) {
                    Some(above) => if runs_git(above) {
                        Some(text::string_views(above.argv@))
                    } else {
                        git_above(table, parent, (generations - 1) as nat)
                    },
                    None => git_above(table, parent, (generations - 1) as nat),
                },
                None => None,
            },
            None => None,
        }
    }
}

/// The git commands that a process started, other than one of its own.
pub open spec fn git_beside(table: Seq<ProcessRecord>, me: u32, shell: u32) -> Seq<
    Seq<Seq<char>>,
>
    decreases table.len(),
{
    if table.len() == 0 {
        seq![]
    } else {
        let front = git_beside(table.drop_last(), me, shell);
        let last = table.last();
        if last.pid != me && last.parent == Some(shell) && runs_git(last) {
            front.push(text::string_views(last.argv@))
        } else {
            front
        }
    }
}

/// The git command a process is paging the output of.
pub open spec fn paged_by(table: Seq<ProcessRecord>, me: u32) -> Option<Seq<Seq<char>>> {
    match git_above(table, me, ANCESTORS as nat) {
        Some(argv) => Some(argv),
        None => match process(table, me) {
            Some(record) => match record.parent {
                Some(shell) => {
                    let beside = git_beside(table, me, shell);
                    if beside.len() == 1 {
                        Some(beside[0])
                    } else {
                        None
                    }
                },
                None => None,
            },
            None => None,
        },
    }
}

fn find_process<'a>(table: &'a Vec<ProcessRecord>, pid: u32) -> (found: Option<&'a ProcessRecord>)
    ensures
        match found {
            Some(found) => process(table@, pid) == Some(*found),
            None => process(table@, pid) is None,
        },
{
    let mut i: usize = 0;
    proof {
        assert(table@.skip(0) =~= table@);
    }
    while i < table.len()
        invariant
            i <= table@.len(),
            process(table@.skip(i as int), pid) == process(table@, pid),
        decreases table@.len() - i,
    {
        proof {
            assert(table@.skip(i as int).drop_first() =~= table@.skip(i + 1));
        }
        if table[i].pid == pid {
            return Some(&table[i]);
        }
        i += 1;
    }
    None
}

/// The argv of a process, if it is a git command that can be put again.
fn git_argv(record: &ProcessRecord) -> (argv: Option<Vec<String>>)
    ensures
        match argv {
            Some(argv) => runs_git(*record) && text::string_views(argv@) == text::string_views(
                record.argv@,
            ),
            None => !runs_git(*record),
        },
{
    match GitCommand::of(text::clone_strings(&record.argv)) {
        Some(git) => Some(git.argv),
        None => None,
    }
}

/// The argv of the git command whose output a process is paging, looked for in the
/// two places it can be: above the process, which is where git puts its pager, and
/// beside it, which is where a shell pipeline puts it.
pub fn paging_for(table: &Vec<ProcessRecord>, me: u32) -> (argv: Option<Vec<String>>)
    ensures
        match argv {
            Some(argv) => paged_by(table@, me) == Some(text::string_views(argv@)),
            None => paged_by(table@, me) is None,
        },
{
    let mut descendant = me;
    let mut left: usize = ANCESTORS;
    let mut top = false;
    while left > 0 && !top
        invariant
            left <= ANCESTORS,
            !top ==> git_above(table@, descendant, left as nat) == git_above(
                table@,
                me,
                ANCESTORS as nat,
            ),
            top ==> git_above(table@, me, ANCESTORS as nat) is None,
        decreases left,
    {
        let parent = match find_process(table, descendant) {
            Some(record) => record.parent,
            None => None,
        };
        match parent {
            Some(ancestor) => {
                if let Some(above) = find_process(table, ancestor) {
                    if let Some(argv) = git_argv(above) {
                        return Some(argv);
                    }
                }
                descendant = ancestor;
            },
            None => {
                top = true;
            },
        }
        left -= 1;
    }
    // `git diff | pager`: the shell created both, so git is the sibling of the
    // pager rather than its ancestor. Two of them and there is no telling which
    // produced the input.
    let shell = match find_process(table, me) {
        Some(record) => match record.parent {
            Some(shell) => shell,
            None => {
                return None;
            },
        },
        None => {
            return None;
        },
    };
    let mut beside: Vec<Vec<String>> = Vec::new();
    let mut i: usize = 0;
    proof {
        assert(table@.take(0) =~= Seq::<ProcessRecord>::empty());
    }
    while i < table.len()
        invariant
            i <= table@.len(),
            beside@.len() == git_beside(table@.take(i as int), me, shell).len(),
            forall|k: int|
                0 <= k < beside@.len() ==> text::string_views((#[trigger] beside@[k])@)
                    == git_beside(table@.take(i as int), me, shell)[k],
        decreases table@.len() - i,
    {
        let record = &table[i];
        proof {
            assert(table@.take(i + 1).drop_last() =~= table@.take(i as int));
            assert(table@.take(i + 1).last() == *record);
        }
        let started = match record.parent {
            Some(parent) => parent == shell,
            None => false,
        };
        if record.pid != me && started {
            if let Some(argv) = git_argv(record) {
                beside.push(argv);
            }
        }
        i += 1;
    }
    proof {
        assert(table@.take(i as int) =~= table@);
    }
    if beside.len() == 1 {
        beside.pop()
    } else {
        None
    }
}

} // verus!
