//! What logs and rebase lists show.

use crate::diff_items;
use crate::diff_renderer;
use crate::diff_renderer::Row;
use crate::item::{ItemId, ItemRow};
use crate::item_data::{Meaning, RefView};
use crate::laws::pages;
use crate::log_items;
use crate::log_items::{CommitRecord, LogEntry, ReferenceRecord, StashRecord};
use crate::rebase_todo;
use crate::rebase_todo::{Entry, TodoAction};
use crate::rendered_log;
use crate::rendered_log::{Block, EntryRecord, SpanRow, TodoStyles};
use crate::screen::Matcher;
use crate::style;
use crate::style::Style;
use crate::text;
use vstd::prelude::*;

verus! {

// ---------------------------------------------------------------------------
// Ages
// ---------------------------------------------------------------------------

/// An age is told in the largest unit that it is one of, by how many whole ones it is.
pub proof fn ages_are_told_in_their_unit(now: int, n: int, rest: int)
    requires
        0 <= n,
        0 <= rest,
    ensures
        n < 60 && rest < 60 ==> log_items::age_of(now, now - (n * 60 + rest)) == text::decimal(
            n as nat,
        ).push('m'),
        1 <= n < 24 && rest < 3600 ==> log_items::age_of(now, now - (n * 3600 + rest))
            == text::decimal(n as nat).push('h'),
        1 <= n < 7 && rest < 86400 ==> log_items::age_of(now, now - (n * 86400 + rest))
            == text::decimal(n as nat).push('d'),
        1 <= n && rest < 604800 && n * 604800 + rest < 2592000 ==> log_items::age_of(
            now,
            now - (n * 604800 + rest),
        ) == text::decimal(n as nat).push('w'),
        1 <= n && rest < 2592000 && n * 2592000 + rest < 31536000 ==> log_items::age_of(
            now,
            now - (n * 2592000 + rest),
        ) == text::decimal(n as nat).push('M'),
        1 <= n && rest < 31536000 ==> log_items::age_of(now, now - (n * 31536000 + rest))
            == text::decimal(n as nat).push('y'),
        log_items::age_of(now, now + n) == text::decimal(0).push('m'),
{
}

// ---------------------------------------------------------------------------
// References
// ---------------------------------------------------------------------------

/// Whether a reference is one that commits are annotated with: it has a name and leads to
/// something, it isn't where a remote's head points, and it isn't kept for prefetching.
pub open spec fn is_annotation() -> spec_fn(ReferenceRecord) -> bool {
    |record: ReferenceRecord|
        {
            &&& record.target is Some
            &&& record.shorthand is Some
            &&& !"/HEAD"@.is_suffix_of(record.shorthand->0@)
            &&& !"prefetch/remotes/"@.is_prefix_of(record.shorthand->0@)
        }
}

/// What such a reference annotates the commit it leads to with.
pub open spec fn annotates() -> spec_fn(ReferenceRecord) -> (Seq<char>, RefView) {
    |record: ReferenceRecord|
        (
            record.target->0@,
            if record.is_remote {
                RefView::Remote(record.shorthand->0@)
            } else if record.is_tag {
                RefView::Tag(record.shorthand->0@)
            } else {
                RefView::Head(record.shorthand->0@)
            },
        )
}

/// Commits are annotated with all such references, in the order in which there are any.
pub proof fn references_are_all_listed(records: Seq<ReferenceRecord>)
    ensures
        log_items::annotations(records) == records.filter(is_annotation()).map_values(annotates()),
    decreases records.len(),
{
    reveal(Seq::filter);
    let kept = records.filter(is_annotation());
    if records.len() == 0 {
        assert(kept.map_values(annotates()) =~= seq![]);
    } else {
        references_are_all_listed(records.drop_last());
        let before = records.drop_last().filter(is_annotation());
        if is_annotation()(records.last()) {
            assert(kept.map_values(annotates()) =~= before.map_values(annotates()).push(
                annotates()(records.last()),
            ));
            assert(log_items::annotation(records.last()) =~= seq![annotates()(records.last())]);
        } else {
            assert(kept =~= before);
            assert(log_items::annotation(records.last()) =~= seq![]);
        }
        assert(log_items::annotations(records) =~= kept.map_values(annotates()));
    }
}

/// A commit is annotated with the references that lead to it, in their order, and with
/// no other.
pub proof fn commits_carry_their_references(refs: Seq<(Seq<char>, RefView)>, oid: Seq<char>)
    ensures
        log_items::refs_to(refs, oid) == refs.filter(
            |r: (Seq<char>, RefView)| r.0 == oid,
        ).map_values(|r: (Seq<char>, RefView)| r.1),
    decreases refs.len(),
{
    reveal(Seq::filter);
    let of = |r: (Seq<char>, RefView)| r.0 == oid;
    let name = |r: (Seq<char>, RefView)| r.1;
    let kept = refs.filter(of);
    if refs.len() == 0 {
        assert(kept.map_values(name) =~= seq![]);
    } else {
        commits_carry_their_references(refs.drop_last(), oid);
        let before = refs.drop_last().filter(of);
        if of(refs.last()) {
            assert(kept.map_values(name) =~= before.map_values(name).push(refs.last().1));
        } else {
            assert(kept =~= before);
        }
    }
}

// ---------------------------------------------------------------------------
// Logs
// ---------------------------------------------------------------------------

/// Whether an entry of a log is shown: a commit whose message matches, where there is
/// something to match, and whatever couldn't be read.
pub open spec fn is_shown(matcher: Option<Matcher>) -> spec_fn(LogEntry) -> bool {
    |entry: LogEntry|
        match entry {
            LogEntry::Commit(commit) => matcher is Some ==> matcher->0.finds(commit.message@),
            LogEntry::Failed { .. } => true,
        }
}

/// Whether a row shows an entry of a log.
pub open spec fn shows_entry(
    row: ItemRow,
    entry: LogEntry,
    refs: Seq<(Seq<char>, RefView)>,
    now: int,
) -> bool {
    &&& !row.unselectable
    &&& !row.default_collapsed
    &&& row.rendered is None
    &&& match entry {
        LogEntry::Commit(commit) => {
            &&& row.id == commit.id
            &&& row.depth == 1
            &&& row.data == Meaning::Commit {
                oid: commit.oid@,
                short_id: commit.short_id@,
                associated_references: log_items::refs_to(refs, commit.oid@),
                summary: commit.summary@,
                author: commit.author@,
                age: log_items::age_of(now, commit.seconds as int),
            }
        },
        LogEntry::Failed { id, error } => {
            &&& row.id == id
            &&& row.depth == 0
            &&& row.data == Meaning::Error(error@)
        },
    }
}

/// A log shows the first entries that are to be shown, as many as there is room for, in
/// their order.
pub proof fn logs_show_the_first(
    entries: Seq<LogEntry>,
    matcher: Option<Matcher>,
    refs: Seq<(Seq<char>, RefView)>,
    limit: int,
    now: int,
)
    requires
        0 <= limit,
    ensures
        ({
            let rows = log_items::log_rows(
                entries,
                log_items::wanted_of(entries, matcher),
                refs,
                limit,
                now,
            );
            let shown = entries.filter(is_shown(matcher));
            &&& rows.len() == (if shown.len() < limit {
                shown.len() as int
            } else {
                limit
            })
            &&& forall|i: int|
                0 <= i < rows.len() ==> shows_entry(#[trigger] rows[i], shown[i], refs, now)
        }),
    decreases entries.len(),
{
    reveal(Seq::filter);
    if entries.len() > 0 {
        let front = entries.drop_last();
        let wanted = log_items::wanted_of(entries, matcher);
        logs_show_the_first(front, matcher, refs, limit, now);
        lemma_wanted_prefix(front, log_items::wanted_of(front, matcher), wanted, refs, limit, now);
        assert(wanted[entries.len() - 1] == is_shown(matcher)(entries.last()));
    }
}

proof fn lemma_wanted_prefix(
    entries: Seq<LogEntry>,
    a: Seq<bool>,
    b: Seq<bool>,
    refs: Seq<(Seq<char>, RefView)>,
    limit: int,
    now: int,
)
    requires
        entries.len() <= a.len(),
        entries.len() <= b.len(),
        forall|i: int| 0 <= i < entries.len() ==> a[i] == b[i],
    ensures
        log_items::log_rows(entries, a, refs, limit, now) == log_items::log_rows(
            entries,
            b,
            refs,
            limit,
            now,
        ),
    decreases entries.len(),
{
    if entries.len() > 0 {
        lemma_wanted_prefix(entries.drop_last(), a, b, refs, limit, now);
    }
}

/// A log with nothing to show says so, on one row, and any other shows its entries only.
pub proof fn empty_logs_say_so(
    entries: Seq<LogEntry>,
    wanted: Seq<bool>,
    refs: Seq<(Seq<char>, RefView)>,
    limit: int,
    now: int,
)
    ensures
        ({
            let rows = log_items::log_rows(entries, wanted, refs, limit, now);
            let log = log_items::log_of(entries, wanted, refs, limit, now);
            &&& rows.len() > 0 ==> log == rows
            &&& rows.len() == 0 ==> log.len() == 1 && log[0].data == Meaning::Raw(
                "No commits found"@,
            ) && !log[0].unselectable
        }),
{
}

/// Stashes go by their place, the newest first, as git counts them.
pub proof fn stashes_go_by_their_place(stash: StashRecord, i: usize)
    ensures
        ({
            let row = log_items::stash_item(stash, i as int);
            &&& row.id == stash.id
            &&& row.depth == 1
            &&& !row.unselectable
            &&& row.data matches Meaning::Stash { message, stash_ref, id }
            &&& id == i
            &&& stash_ref == seq!['s', 't', 'a', 's', 'h', '@', '{'] + text::decimal(i as nat)
                + seq!['}']
            &&& stash.message is Some ==> message == stash.message->0@
            &&& stash.message is None ==> message.len() == 0
        }),
{
    reveal_strlit("stash@{");
    let row = log_items::stash_item(stash, i as int);
    assert("stash@{"@ =~= seq!['s', 't', 'a', 's', 'h', '@', '{']);
    assert(("stash@{"@ + text::decimal(i as nat)).push('}') =~= seq![
        's',
        't',
        'a',
        's',
        'h',
        '@',
        '{',
    ] + text::decimal(i as nat) + seq!['}']);
}

// ---------------------------------------------------------------------------
// Logs that a command printed
// ---------------------------------------------------------------------------

/// Nothing that a log command printed is lost: the rows of its blocks, one block after
/// the other, are its rows.
pub proof fn blocks_hold_every_row(rows: Seq<Row>)
    ensures
        rendered_log::blocks_of(rows).map_values(|block: Block| block.rows).flatten()
            == rows.map_values(|row: Row| diff_items::spans_of(row)),
{
    let parts = rendered_log::blocks_of(rows).map_values(|block: Block| block.rows);
    let drawn = rows.map_values(|row: Row| diff_items::spans_of(row));
    lemma_first_blocks(rows, parts.len() as int);
    assert(parts.take(parts.len() as int) =~= parts);
    diff_renderer::blocks_in_order(rows);
    if parts.len() > 0 {
        assert(diff_renderer::block_end(rows, parts.len() - 1) == rows.len());
    }
    assert(drawn.take(rows.len() as int) =~= drawn);
}

proof fn lemma_first_blocks(rows: Seq<Row>, n: int)
    requires
        0 <= n <= rendered_log::blocks_of(rows).len(),
    ensures
        rendered_log::blocks_of(rows).map_values(|block: Block| block.rows).take(n).flatten()
            == rows.map_values(|row: Row| diff_items::spans_of(row)).take(
            if n == 0 {
                0
            } else {
                diff_renderer::block_end(rows, n - 1)
            },
        ),
    decreases n,
{
    let parts = rendered_log::blocks_of(rows).map_values(|block: Block| block.rows);
    let drawn = rows.map_values(|row: Row| diff_items::spans_of(row));
    diff_renderer::blocks_in_order(rows);
    if n == 0 {
        assert(parts.take(0) =~= Seq::<Seq<SpanRow>>::empty());
        assert(drawn.take(0) =~= Seq::<SpanRow>::empty());
    } else {
        lemma_first_blocks(rows, n - 1);
        let front = parts.take(n - 1);
        let start = diff_renderer::block_starts(rows)[n - 1].0;
        let end = diff_renderer::block_end(rows, n - 1);
        assert(parts.take(n) =~= front.push(parts[n - 1]));
        front.lemma_flatten_push(parts[n - 1]);
        assert(start < end <= rows.len());
        if n > 1 {
            assert(diff_renderer::block_end(rows, n - 2) == start);
        }
        assert(parts[n - 1] =~= drawn.subrange(start, end));
        assert(drawn.take(start) + drawn.subrange(start, end) =~= drawn.take(end));
    }
}

/// A log that a command printed is shown as it was printed: row by row, each block of
/// rows under the commit that it is of.
pub proof fn logs_are_shown_as_printed(
    blocks: Seq<Block>,
    commits: Seq<Option<CommitRecord>>,
    refs: Seq<(Seq<char>, RefView)>,
    now: int,
)
    requires
        commits.len() == blocks.len(),
    ensures
        rendered_log::rendered_log_rows(blocks, commits, refs, now).map_values(
            |row: ItemRow| row.rendered,
        ) == blocks.map_values(|block: Block| block.rows).flatten().map_values(
            |row: SpanRow| Some(row),
        ),
    decreases blocks.len(),
{
    lemma_shown_as_printed(blocks, commits, refs, now);
}

proof fn lemma_shown_as_printed(
    blocks: Seq<Block>,
    commits: Seq<Option<CommitRecord>>,
    refs: Seq<(Seq<char>, RefView)>,
    now: int,
)
    requires
        blocks.len() <= commits.len(),
    ensures
        rendered_log::rendered_log_rows(blocks, commits, refs, now).map_values(
            |row: ItemRow| row.rendered,
        ) == blocks.map_values(|block: Block| block.rows).flatten().map_values(
            |row: SpanRow| Some(row),
        ),
    decreases blocks.len(),
{
    let drawn = |row: ItemRow| row.rendered;
    let rows_of = |block: Block| block.rows;
    let some = |row: SpanRow| Some(row);
    let all = rendered_log::rendered_log_rows(blocks, commits, refs, now);
    let parts = blocks.map_values(rows_of);
    if blocks.len() == 0 {
        assert(parts =~= Seq::<Seq<SpanRow>>::empty());
        assert(all.map_values(drawn) =~= parts.flatten().map_values(some));
    } else {
        let n = blocks.len() - 1;
        let front = blocks.drop_last();
        let block = blocks.last();
        lemma_shown_as_printed(front, commits, refs, now);
        let own = rendered_log::block_rows(block, commits[n], refs, now);
        assert(parts =~= front.map_values(rows_of).push(block.rows));
        front.map_values(rows_of).lemma_flatten_push(block.rows);
        assert(own.map_values(drawn) =~= block.rows.map_values(some)) by {
            if let Some(commit) = commits[n] {
                let data = log_items::commit_meaning(commit, refs, now);
                block_shows_its_rows(commit.id, block.rows, data, seq![]);
                assert forall|i: int| 0 <= i < own.len() implies (#[trigger] own[i]).rendered == Some(
                    block.rows[i],
                ) by {
                    assert(Seq::<(Seq<char>, Style)>::empty() + block.rows[i] =~= block.rows[i]);
                }
            }
        }
        assert(all.map_values(drawn) =~= rendered_log::rendered_log_rows(
            front,
            commits,
            refs,
            now,
        ).map_values(drawn) + own.map_values(drawn));
        assert(parts.flatten().map_values(some) =~= front.map_values(rows_of).flatten().map_values(
            some,
        ) + block.rows.map_values(some));
    }
}

/// The rows of a block are shown as they are, but for what is put before the one that
/// stands for it, and that one alone stands for something.
pub proof fn block_shows_its_rows(id: ItemId, rows: Seq<SpanRow>, data: Meaning, prefix: SpanRow)
    ensures
        rendered_log::laid_out(id, rows, data, prefix).len() == rows.len(),
        forall|i: int|
            0 <= i < rows.len() ==> {
                let item = #[trigger] rendered_log::laid_out(id, rows, data, prefix)[i];
                &&& item.rendered == Some(
                    if item.unselectable {
                        rows[i]
                    } else {
                        prefix + rows[i]
                    },
                )
                &&& !item.unselectable ==> item.data == data
                &&& item.unselectable ==> item.data == Meaning::Raw(seq![])
                &&& !item.default_collapsed
                &&& item.id == id
            },
{
}

/// A row says something where it has a character on it that is no white space and no
/// part of a rule.
pub proof fn rules_say_nothing(row: SpanRow)
    ensures
        rendered_log::separates(row) <==> forall|i: int, k: int|
            0 <= i < row.len() && 0 <= k < row[i].0.len() ==> text::white(#[trigger] row[i].0[k])
                || 0x2500 <= row[i].0[k] as u32 <= 0x257f,
        rendered_log::row_blank(row) <==> forall|i: int, k: int|
            0 <= i < row.len() && 0 <= k < row[i].0.len() ==> text::white(#[trigger] row[i].0[k]),
{
    if rendered_log::separates(row) {
        assert forall|i: int, k: int| 0 <= i < row.len() && 0 <= k < row[i].0.len() implies text::white(
            #[trigger] row[i].0[k],
        ) || 0x2500 <= row[i].0[k] as u32 <= 0x257f by {
            assert(rendered_log::only_rule(row[i].0));
        }
    }
    if rendered_log::row_blank(row) {
        assert forall|i: int, k: int| 0 <= i < row.len() && 0 <= k < row[i].0.len() implies text::white(
            #[trigger] row[i].0[k],
        ) by {
            assert(text::blank(row[i].0));
        }
    }
}

/// The rows of a commit are those of the last block that is of it.
pub proof fn commits_have_the_rows_printed_last(
    rows: Seq<(Seq<char>, Seq<SpanRow>)>,
    oid: Seq<char>,
)
    ensures
        match rendered_log::rows_for(rows, oid) {
            Some(found) => exists|k: int|
                {
                    &&& 0 <= k < rows.len()
                    &&& (#[trigger] rows[k]) == (oid, found)
                    &&& forall|j: int| k < j < rows.len() ==> (#[trigger] rows[j]).0 != oid
                },
            None => forall|j: int| 0 <= j < rows.len() ==> (#[trigger] rows[j]).0 != oid,
        },
    decreases rows.len(),
{
    if rows.len() > 0 {
        let n = rows.len() - 1;
        let front = rows.drop_last();
        assert(rows.last() == rows[n]);
        if rows[n].0 != oid {
            commits_have_the_rows_printed_last(front, oid);
            match rendered_log::rows_for(rows, oid) {
                Some(found) => {
                    let k = choose|k: int|
                        {
                            &&& 0 <= k < front.len()
                            &&& (#[trigger] front[k]) == (oid, found)
                            &&& forall|j: int|
                                k < j < front.len() ==> (#[trigger] front[j]).0 != oid
                        };
                    assert(rows[k] == (oid, found));
                    assert forall|j: int| k < j < rows.len() implies (#[trigger] rows[j]).0 != oid by {
                        if j < n {
                            assert(front[j].0 != oid);
                        }
                    }
                },
                None => {
                    assert forall|j: int| 0 <= j < rows.len() implies (#[trigger] rows[j]).0
                        != oid by {
                        if j < n {
                            assert(front[j].0 != oid);
                        }
                    }
                },
            }
        }
    }
}

/// Only blocks that are of a commit have rows for one.
pub proof fn blocks_of_commits_are_kept(blocks: Seq<Block>)
    ensures
        rendered_log::by_commit(blocks) == blocks.filter(
            |block: Block| block.oid is Some,
        ).map_values(|block: Block| (block.oid->0, block.rows)),
    decreases blocks.len(),
{
    reveal(Seq::filter);
    let of = |block: Block| block.oid is Some;
    let pair = |block: Block| (block.oid->0, block.rows);
    let kept = blocks.filter(of);
    if blocks.len() == 0 {
        assert(kept.map_values(pair) =~= seq![]);
    } else {
        blocks_of_commits_are_kept(blocks.drop_last());
        let before = blocks.drop_last().filter(of);
        if of(blocks.last()) {
            assert(kept.map_values(pair) =~= before.map_values(pair).push(pair(blocks.last())));
        } else {
            assert(kept =~= before);
        }
    }
}

/// A log command is asked for so many commits, those that match, from where the log is
/// to start, which is where the repository is unless it is said.
pub proof fn log_commands_ask_for_what_is_shown(
    limit: nat,
    pattern: Option<Seq<char>>,
    rev: Option<Seq<char>>,
)
    ensures
        ({
            let args = rendered_log::log_args(limit, pattern, rev);
            let n: int = if limit <= 0x7fff_ffff {
                1
            } else {
                0
            };
            let m: int = if pattern is Some {
                2
            } else {
                0
            };
            &&& args.len() == n + m + 1
            &&& n == 1 ==> args[0] == seq!['-', 'n'] + text::decimal(limit)
            &&& m == 2 ==> args[n] == "--extended-regexp"@
            &&& m == 2 ==> args[n + 1] == "--grep="@ + pattern->0
            &&& args.last() == (match rev {
                Some(rev) => rev,
                None => "HEAD"@,
            })
        }),
{
    reveal_strlit("-n");
    assert("-n"@ =~= seq!['-', 'n']);
}

/// A log command is run as it is configured, but that each commit is marked where the
/// command asks for it, and what is asked for comes last.
pub proof fn log_commands_keep_their_arguments(command: Seq<Seq<char>>, args: Seq<Seq<char>>, i: int)
    requires
        0 <= i < command.len(),
    ensures
        rendered_log::asked(command, args).len() == command.len() + args.len(),
        rendered_log::asked(command, args).skip(command.len() as int) == args,
        rendered_log::asked(command, args)[i] == text::replaced(
            command[i],
            "{commit}"@,
            diff_renderer::COMMIT_RECORD_FORMAT@,
        ),
{
    assert(rendered_log::asked(command, args).skip(command.len() as int) =~= args);
}

// ---------------------------------------------------------------------------
// Rebase lists
// ---------------------------------------------------------------------------

/// The actions of a rebase list go by git's words for them, and can be written short.
pub proof fn actions_go_by_gits_words()
    ensures
        rebase_todo::keyword_of(TodoAction::Pick) == "pick"@,
        rebase_todo::keyword_of(TodoAction::Reword) == "reword"@,
        rebase_todo::keyword_of(TodoAction::Edit) == "edit"@,
        rebase_todo::keyword_of(TodoAction::Squash) == "squash"@,
        rebase_todo::keyword_of(TodoAction::Fixup) == "fixup"@,
        rebase_todo::keyword_of(TodoAction::Drop) == "drop"@,
        forall|action: TodoAction|
            #![trigger rebase_todo::keyword_of(action)]
            rebase_todo::action_of(rebase_todo::keyword_of(action)) == Some(action)
                && rebase_todo::action_of(rebase_todo::keyword_of(action).take(1)) == Some(action),
{
    assert forall|action: TodoAction|
        #![trigger rebase_todo::keyword_of(action)]
        rebase_todo::action_of(rebase_todo::keyword_of(action)) == Some(action)
            && rebase_todo::action_of(rebase_todo::keyword_of(action).take(1)) == Some(action) by {
        rebase_todo::keyword_reads_back(action);
        lemma_short(action);
    }
}

proof fn lemma_short(action: TodoAction)
    ensures
        rebase_todo::action_of(rebase_todo::keyword_of(action).take(1)) == Some(action),
{
    reveal_strlit("pick");
    reveal_strlit("reword");
    reveal_strlit("edit");
    reveal_strlit("squash");
    reveal_strlit("fixup");
    reveal_strlit("drop");
    reveal_strlit("p");
    reveal_strlit("r");
    reveal_strlit("e");
    reveal_strlit("s");
    reveal_strlit("f");
    reveal_strlit("d");
    let short = rebase_todo::keyword_of(action).take(1);
    let letter = match action {
        TodoAction::Pick => "p"@,
        TodoAction::Reword => "r"@,
        TodoAction::Edit => "e"@,
        TodoAction::Squash => "s"@,
        TodoAction::Fixup => "f"@,
        TodoAction::Drop => "d"@,
    };
    assert(short =~= letter);
    assert("p"@[0] == 'p' && "r"@[0] == 'r' && "e"@[0] == 'e');
    assert("s"@[0] == 's' && "f"@[0] == 'f' && "d"@[0] == 'd');
    assert(short.len() == 1);
}

/// Whether a line of a rebase list is an instruction: there is something on it, and it
/// isn't a comment.
pub open spec fn instructs() -> spec_fn(Seq<char>) -> bool {
    |line: Seq<char>|
        exists|k: int|
            {
                &&& 0 <= k < line.len()
                &&& !text::white(#[trigger] line[k])
                &&& line[k] != '#'
                &&& forall|j: int| 0 <= j < k ==> text::white(#[trigger] line[j])
            }
}

proof fn lemma_instructs(line: Seq<char>)
    ensures
        instructs()(line) == rebase_todo::is_instruction(line),
{
    text::lemma_runs(line);
    let n = text::white_run(line) as int;
    let rest = line.skip(n);
    lemma_trim_keeps_start(rest);
    if n < line.len() {
        assert(rest[0] == line[n]);
        assert(text::trimmed(line)[0] == line[n]);
        if instructs()(line) {
            let k = choose|k: int|
                {
                    &&& 0 <= k < line.len()
                    &&& !text::white(#[trigger] line[k])
                    &&& line[k] != '#'
                    &&& forall|j: int| 0 <= j < k ==> text::white(#[trigger] line[j])
                };
            assert(k == n);
        }
    } else {
        assert(rest =~= Seq::<char>::empty());
    }
}

proof fn lemma_trim_keeps_start(s: Seq<char>)
    ensures
        s.len() > 0 && !text::white(s[0]) ==> text::trimmed_end(s).len() > 0 && text::trimmed_end(
            s,
        )[0] == s[0],
        text::trimmed_end(s).len() <= s.len(),
    decreases s.len(),
{
    if s.len() > 0 && text::white(s.last()) {
        lemma_trim_keeps_start(s.drop_last());
    }
}

/// Every instruction of a rebase list is read, and nothing else is.
pub proof fn instructions_are_all_read(lines: Seq<Seq<char>>)
    ensures
        rebase_todo::instruction_lines(lines) == lines.filter(instructs()),
    decreases lines.len(),
{
    reveal(Seq::filter);
    if lines.len() > 0 {
        instructions_are_all_read(lines.drop_last());
        lemma_instructs(lines.last());
    }
}

/// The list is written in the order git goes through it: what is shown last comes first.
/// A commit is told by its action and its name, anything else as it was.
pub proof fn lists_are_written_oldest_first(entries: Seq<Entry>, entry: Entry)
    ensures
        rebase_todo::list_text(entries.push(entry)) == (match entry {
            Entry::Commit { action, oid } => rebase_todo::keyword_of(action) + seq![' '] + oid
                + seq!['\n'],
            Entry::Other(line) => line + seq!['\n'],
        }) + rebase_todo::list_text(entries),
        rebase_todo::list_text(seq![]).len() == 0,
{
    assert(entries.push(entry).drop_last() =~= entries);
    match entry {
        Entry::Commit { action, oid } => {
            assert(rebase_todo::entry_line(entry) =~= rebase_todo::keyword_of(action) + seq![' ']
                + oid + seq!['\n']);
        },
        Entry::Other(line) => {
            assert(rebase_todo::entry_line(entry) =~= line + seq!['\n']);
        },
    }
}

/// The commits of a list are asked about in the order in which they are shown.
pub proof fn lists_ask_about_their_commits(entries: Seq<Entry>)
    ensures
        rebase_todo::oids_of(entries) == entries.filter(|e: Entry| e is Commit).map_values(
            |e: Entry| e->Commit_oid,
        ),
    decreases entries.len(),
{
    reveal(Seq::filter);
    let of = |e: Entry| e is Commit;
    let oid = |e: Entry| e->Commit_oid;
    let kept = entries.filter(of);
    if entries.len() == 0 {
        assert(kept.map_values(oid) =~= seq![]);
    } else {
        lists_ask_about_their_commits(entries.drop_last());
        let before = entries.drop_last().filter(of);
        if of(entries.last()) {
            assert(kept.map_values(oid) =~= before.map_values(oid).push(oid(entries.last())));
        } else {
            assert(kept =~= before);
        }
    }
}

/// Moving an entry puts it where it is to go and leaves the order of the others.
pub proof fn moving_leaves_the_others<A>(entries: Seq<A>, from: int, to: int)
    requires
        0 <= from < entries.len(),
        0 <= to < entries.len(),
    ensures
        rebase_todo::moved(entries, from, to).len() == entries.len(),
        rebase_todo::moved(entries, from, to)[to] == entries[from],
        rebase_todo::moved(entries, from, to).remove(to) == entries.remove(from),
{
    assert(rebase_todo::moved(entries, from, to).remove(to) =~= entries.remove(from));
}

/// An entry moves by as many places as it is told to, and no further than the top.
pub proof fn entries_move_by_their_offset(index: nat, offset: int)
    ensures
        index + offset >= 0 ==> rebase_todo::destination(index as int, offset) - index == offset,
        index + offset < 0 ==> rebase_todo::destination(index as int, offset) == 0,
{
}

/// Marking a commit changes what is done with it, and nothing else. What isn't a commit
/// can't be marked.
pub proof fn marking_changes_one_action(entries: Seq<Entry>, index: int, action: TodoAction, k: int)
    requires
        0 <= k < entries.len(),
    ensures
        ({
            let after = rebase_todo::marked(entries, index, action);
            &&& after.len() == entries.len()
            &&& k != index ==> after[k] == entries[k]
            &&& entries[k] is Other ==> after[k] == entries[k]
            &&& k == index && entries[k] is Commit ==> after[k] is Commit
                && after[k]->Commit_action == action && after[k]->Commit_oid
                == entries[k]->Commit_oid
        }),
{
}

/// A rebase is run interactively, with the arguments it was given, onto its base.
pub proof fn rebases_are_interactive(args: Seq<Seq<char>>, base: Seq<char>)
    ensures
        ({
            let all = rebase_todo::rebase_args(args, base);
            &&& all.len() == args.len() + 3
            &&& all[0] == "rebase"@
            &&& all[1] == "-i"@
            &&& all.subrange(2, 2int + args.len()) == args
            &&& all.last() == base
        }),
{
    assert(rebase_todo::rebase_args(args, base).subrange(2, 2int + args.len()) =~= args);
}

/// What is done with a commit stands before it, at least seven characters wide; and that
/// of a commit that is to be dropped, and of no other, is crossed out.
pub proof fn actions_stand_before_commits(action: TodoAction, style: Style)
    ensures
        ({
            let prefix = rendered_log::action_prefix(Some(action), style);
            let keyword = rebase_todo::keyword_of(action);
            &&& prefix.len() == 1
            &&& prefix[0].0.len() >= 7
            &&& keyword.is_prefix_of(prefix[0].0)
            &&& forall|i: int|
                keyword.len() <= i < prefix[0].0.len() ==> #[trigger] prefix[0].0[i] == ' '
            &&& keyword.len() <= 7 ==> prefix[0].0.len() == 7
            &&& prefix[0].1.fg == style.fg
            &&& prefix[0].1.bg == style.bg
            &&& prefix[0].1.sub_modifier == style.sub_modifier
            &&& prefix[0].1.add_modifier.bits == (if action == TodoAction::Drop {
                style.add_modifier.bits | 0x100
            } else {
                style.add_modifier.bits
            })
        }),
        rendered_log::action_prefix(None, style).len() == 0,
{
}

// ---------------------------------------------------------------------------
// Rows of one's own
// ---------------------------------------------------------------------------

/// A commit that no log command drew is shown by its name and what it says, and one that
/// can't be found by its name alone.
pub proof fn undrawn_commits_show_what_they_say(
    commit: CommitRecord,
    oid: Seq<char>,
    hash: Style,
)
    ensures
        ({
            let row = rendered_log::own_row(Some(commit), oid, hash);
            &&& row.len() == 2
            &&& row[0] == (commit.short_id@ + seq![' '], hash)
            &&& row[1].0 == commit.summary@
        }),
        ({
            let row = rendered_log::own_row(None, oid, hash);
            row.len() == 1 && row[0].0 == oid
        }),
{
    assert(commit.short_id@.push(' ') =~= commit.short_id@ + seq![' ']);
}

/// Whatever has no structure is shown row by row, and each row can be stopped on.
pub proof fn rows_without_structure_are_shown(rows: Seq<Row>, i: int)
    requires
        0 <= i < rows.len(),
    ensures
        ({
            let items = rendered_log::unstructured(rows);
            &&& items.len() == rows.len()
            &&& items[i].rendered == Some(diff_items::spans_of(rows[i]))
            &&& !items[i].unselectable
            &&& items[i].depth == 0
        }),
{
}

/// A log has commits where a row of it names one.
pub proof fn logs_have_the_commits_they_name(rows: Seq<Row>)
    ensures
        rendered_log::names_commits(rows) <==> exists|r: int|
            0 <= r < rows.len() && !pages::names_none((#[trigger] rows[r]).records),
{
    if rendered_log::names_commits(rows) {
        let n = choose|n: int|
            0 <= n < diff_renderer::block_starts(rows).len()
                && (#[trigger] diff_renderer::block_starts(rows)[n]).1 is Some;
        let start = diff_renderer::block_starts(rows)[n].0;
        diff_renderer::blocks_in_order(rows);
        assert(start < diff_renderer::block_end(rows, n));
        pages::rows_follow_their_commit(rows, n, start, seq![]);
        pages::naming_one_is_not_naming_none(
            rows[start].records,
            diff_renderer::block_starts(rows)[n].1->0,
        );
        assert(!pages::names_none(rows[start].records));
    }
    if exists|r: int| 0 <= r < rows.len() && !pages::names_none((#[trigger] rows[r]).records) {
        let r = choose|r: int|
            0 <= r < rows.len() && !pages::names_none((#[trigger] rows[r]).records);
        let n = lemma_block_of(rows, r);
        pages::rows_follow_their_commit(rows, n, r, seq![]);
        assert(diff_renderer::block_starts(rows)[n].1 is Some);
    }
}

/// Every row is in a block.
proof fn lemma_block_of(rows: Seq<Row>, r: int) -> (n: int)
    requires
        0 <= r < rows.len(),
    ensures
        0 <= n < diff_renderer::block_starts(rows).len(),
        diff_renderer::block_starts(rows)[n].0 <= r < diff_renderer::block_end(rows, n),
{
    diff_renderer::blocks_in_order(rows);
    lemma_block_from(rows, r, 0)
}

proof fn lemma_block_from(rows: Seq<Row>, r: int, n: int) -> (found: int)
    requires
        0 <= n < diff_renderer::block_starts(rows).len(),
        diff_renderer::block_starts(rows)[n].0 <= r < rows.len(),
    ensures
        0 <= found < diff_renderer::block_starts(rows).len(),
        diff_renderer::block_starts(rows)[found].0 <= r < diff_renderer::block_end(rows, found),
    decreases diff_renderer::block_starts(rows).len() - n,
{
    if r < diff_renderer::block_end(rows, n) {
        n
    } else {
        lemma_block_from(rows, r, n + 1)
    }
}

/// An entry of a rebase list shows the rows that were drawn of its commit, behind what is
/// done with it, or what is known of the commit; anything else shows its instruction. It
/// stands for its place in the list.
pub proof fn entries_show_their_commit(
    index: int,
    entry: Entry,
    record: EntryRecord,
    rows: Seq<(Seq<char>, Seq<SpanRow>)>,
    styles: TodoStyles,
)
    ensures
        ({
            let items = rendered_log::entry_rows(index, entry, record, rows, styles);
            let data = Meaning::RebaseTodo { index: index as usize };
            match entry {
                Entry::Commit { action, oid } => {
                    let shown = match rendered_log::rows_for(rows, oid) {
                        Some(drawn) => drawn,
                        None => seq![rendered_log::own_row(record.commit, oid, styles.hash)],
                    };
                    items == rendered_log::laid_out(
                        record.id,
                        shown,
                        data,
                        rendered_log::action_prefix(Some(action), styles.action),
                    )
                },
                Entry::Other(line) => {
                    &&& items.len() == 1
                    &&& items[0].id == record.id
                    &&& items[0].rendered matches Some(spans)
                    &&& spans.len() == 1
                    &&& spans[0].0 == line
                    &&& !text::blank(line) ==> items[0].data == data && !items[0].unselectable
                },
            }
        }),
{
    if let Entry::Other(line) = entry {
        let row = seq![(line, style::plain())];
        let block = seq![row];
        let data = Meaning::RebaseTodo { index: index as usize };
        block_shows_its_rows(record.id, block, data, seq![]);
        rendered_log::block_has_one_anchor(record.id, block, data, seq![]);
        assert(Seq::<(Seq<char>, Style)>::empty() + row =~= row);
        if !text::blank(line) {
            assert(row[0].0 == line);
            assert(!rendered_log::row_blank(row));
            assert(!rendered_log::row_blank(block[0]));
            assert(rendered_log::shows_something(block));
        }
    }
}

/// The rows of a block are laid out as its commit, where that is found, and else are only
/// rows.
pub proof fn blocks_are_laid_out_as_their_commit(
    block: Block,
    commit: CommitRecord,
    refs: Seq<(Seq<char>, RefView)>,
    now: int,
    i: int,
)
    requires
        0 <= i < block.rows.len(),
    ensures
        ({
            let items = rendered_log::block_rows(block, Some(commit), refs, now);
            &&& items.len() == block.rows.len()
            &&& items[i].id == commit.id
            &&& !items[i].unselectable ==> items[i].data == Meaning::Commit {
                oid: commit.oid@,
                short_id: commit.short_id@,
                associated_references: log_items::refs_to(refs, commit.oid@),
                summary: commit.summary@,
                author: commit.author@,
                age: log_items::age_of(now, commit.seconds as int),
            }
            &&& !items[i].unselectable <==> i == rendered_log::anchor_of(block.rows)
        }),
        ({
            let items = rendered_log::block_rows(block, None, refs, now);
            &&& items.len() == block.rows.len()
            &&& items[i].unselectable
            &&& items[i].depth == 1
            &&& items[i].rendered == Some(block.rows[i])
        }),
{
    let data = log_items::commit_meaning(commit, refs, now);
    rendered_log::block_has_one_anchor(commit.id, block.rows, data, seq![]);
    block_shows_its_rows(commit.id, block.rows, data, seq![]);
}

/// The rows of a rebase list are those of its entries, one entry after the other.
pub proof fn lists_show_entry_by_entry(
    entries: Seq<Entry>,
    entry: Entry,
    records: Seq<EntryRecord>,
    rows: Seq<(Seq<char>, Seq<SpanRow>)>,
    styles: TodoStyles,
)
    ensures
        rendered_log::todo_rows(entries.push(entry), records, rows, styles)
            == rendered_log::todo_rows(entries, records, rows, styles) + rendered_log::entry_rows(
            entries.len() as int,
            entry,
            records[entries.len() as int],
            rows,
            styles,
        ),
        rendered_log::todo_rows(seq![], records, rows, styles).len() == 0,
{
    assert(entries.push(entry).drop_last() =~= entries);
}

} // verus!
