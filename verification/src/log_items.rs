//! The rows of a log: commits as they were read, or as a log command printed
//! them, and the stashes.

use crate::item;
use crate::item::{Item, ItemId, ItemRow};
use crate::item_data;
use crate::item_data::{ItemData, Meaning, Ref, RefView};
use crate::screen::Matcher;
use crate::text;
use vstd::prelude::*;

verus! {

/// A commit as it was read.
#[derive(Debug)]
pub struct CommitRecord {
    /// What tells it apart from every other row on a screen.
    pub id: ItemId,
    pub oid: String,
    pub short_id: String,
    pub message: String,
    pub summary: String,
    pub author: String,
    /// When it was authored, in seconds since the epoch.
    pub seconds: i64,
}

/// What came of reading the next commit of a log.
#[derive(Debug)]
pub enum LogEntry {
    Commit(CommitRecord),
    Failed { id: ItemId, error: String },
}

/// A reference as it was read: the commit it leads to and its short name, where
/// it has them.
#[derive(Debug)]
pub struct ReferenceRecord {
    pub target: Option<String>,
    pub shorthand: Option<String>,
    pub is_remote: bool,
    pub is_tag: bool,
}

/// A reference that leads to a commit.
#[derive(Debug)]
pub struct CommitRef {
    pub oid: String,
    pub reference: Ref,
}

/// What some references that lead to commits are.
pub open spec fn commit_ref_views(refs: Seq<CommitRef>) -> Seq<(Seq<char>, RefView)> {
    refs.map_values(|r: CommitRef| (r.oid@, r.reference@))
}

// ---------------------------------------------------------------------------
// Ages
// ---------------------------------------------------------------------------

pub const MINUTE: i64 = 60;

pub const HOUR: i64 = 3600;

pub const DAY: i64 = 86400;

pub const WEEK: i64 = 604800;

pub const MONTH: i64 = 2592000;

pub const YEAR: i64 = 31536000;

/// How long ago a time is, in its largest unit.
pub open spec fn age_of(now: int, seconds: int) -> Seq<char> {
    let age = if now - seconds < 0 {
        0
    } else {
        now - seconds
    };
    if age < HOUR {
        text::decimal((age / (MINUTE as int)) as nat).push('m')
    } else if age < DAY {
        text::decimal((age / (HOUR as int)) as nat).push('h')
    } else if age < WEEK {
        text::decimal((age / (DAY as int)) as nat).push('d')
    } else if age < MONTH {
        text::decimal((age / (WEEK as int)) as nat).push('w')
    } else if age < YEAR {
        text::decimal((age / (MONTH as int)) as nat).push('M')
    } else {
        text::decimal((age / (YEAR as int)) as nat).push('y')
    }
}

/// Whether the time between two can be told.
pub open spec fn datable(now: int, seconds: int) -> bool {
    now - seconds <= i64::MAX
}

fn in_units(age: i64, unit: i64, suffix: char) -> (s: String)
    requires
        0 <= age,
        0 < unit,
    ensures
        s@ == text::decimal((age as int / (unit as int)) as nat).push(suffix),
{
    let mut s = text::to_decimal(age as u64 / unit as u64);
    s.push(suffix);
    s
}

/// How long ago a time is. A commit dated in the future reads as brand new,
/// rather than as a negative age.
pub fn short_age(now: i64, seconds: i64) -> (age: String)
    requires
        datable(now as int, seconds as int),
    ensures
        age@ == age_of(now as int, seconds as int),
{
    let age: i64 = if now < seconds {
        0
    } else {
        now - seconds
    };
    if age < HOUR {
        in_units(age, MINUTE, 'm')
    } else if age < DAY {
        in_units(age, HOUR, 'h')
    } else if age < WEEK {
        in_units(age, DAY, 'd')
    } else if age < MONTH {
        in_units(age, WEEK, 'w')
    } else if age < YEAR {
        in_units(age, MONTH, 'M')
    } else {
        in_units(age, YEAR, 'y')
    }
}

// ---------------------------------------------------------------------------
// References
// ---------------------------------------------------------------------------

/// What the log annotates a commit with for a reference, if it does.
pub open spec fn annotation(record: ReferenceRecord) -> Seq<(Seq<char>, RefView)> {
    match (record.target, record.shorthand) {
        (Some(target), Some(name)) => if !item_data::is_listed(name@) {
            seq![]
        } else if record.is_remote {
            seq![(target@, RefView::Remote(name@))]
        } else if record.is_tag {
            seq![(target@, RefView::Tag(name@))]
        } else {
            seq![(target@, RefView::Head(name@))]
        },
        _ => seq![],
    }
}

/// What the log annotates commits with.
pub open spec fn annotations(records: Seq<ReferenceRecord>) -> Seq<(Seq<char>, RefView)>
    decreases records.len(),
{
    if records.len() == 0 {
        seq![]
    } else {
        annotations(records.drop_last()) + annotation(records.last())
    }
}

/// The refs pointing at commits, as the log view annotates them with.
pub fn commit_refs(records: &Vec<ReferenceRecord>) -> (refs: Vec<CommitRef>)
    ensures
        commit_ref_views(refs@) == annotations(records@),
{
    let mut refs: Vec<CommitRef> = Vec::new();
    let mut i: usize = 0;
    proof {
        assert(records@.take(0) =~= Seq::<ReferenceRecord>::empty());
        assert(commit_ref_views(refs@) =~= Seq::<(Seq<char>, RefView)>::empty());
    }
    while i < records.len()
        invariant
            i <= records@.len(),
            commit_ref_views(refs@) == annotations(records@.take(i as int)),
        decreases records@.len() - i,
    {
        let record = &records[i];
        let ghost before = refs@;
        proof {
            assert(records@.take(i + 1).drop_last() =~= records@.take(i as int));
            assert(records@.take(i + 1).last() == *record);
        }
        if let Some(target) = &record.target {
            if let Some(name) = &record.shorthand {
                if item_data::listed(name.as_str()) {
                    let reference = if record.is_remote {
                        Ref::Remote(name.clone())
                    } else if record.is_tag {
                        Ref::Tag(name.clone())
                    } else {
                        Ref::Head(name.clone())
                    };
                    refs.push(CommitRef { oid: target.clone(), reference });
                }
            }
        }
        proof {
            assert(commit_ref_views(refs@) =~= commit_ref_views(before) + annotation(*record));
        }
        i += 1;
    }
    proof {
        assert(records@.take(i as int) =~= records@);
    }
    refs
}

/// What a commit is annotated with.
pub open spec fn refs_to(refs: Seq<(Seq<char>, RefView)>, oid: Seq<char>) -> Seq<RefView>
    decreases refs.len(),
{
    if refs.len() == 0 {
        seq![]
    } else if refs.last().0 == oid {
        refs_to(refs.drop_last(), oid).push(refs.last().1)
    } else {
        refs_to(refs.drop_last(), oid)
    }
}

/// What a commit is annotated with.
fn associated(refs: &Vec<CommitRef>, oid: &str) -> (out: Vec<Ref>)
    ensures
        item_data::ref_views(out@) == refs_to(commit_ref_views(refs@), oid@),
{
    let ghost all = commit_ref_views(refs@);
    let mut out: Vec<Ref> = Vec::new();
    let mut i: usize = 0;
    proof {
        assert(all.take(0) =~= Seq::<(Seq<char>, RefView)>::empty());
        assert(item_data::ref_views(out@) =~= Seq::<RefView>::empty());
    }
    while i < refs.len()
        invariant
            i <= refs@.len(),
            all == commit_ref_views(refs@),
            item_data::ref_views(out@) == refs_to(all.take(i as int), oid@),
        decreases refs@.len() - i,
    {
        let r = &refs[i];
        let ghost before = out@;
        proof {
            assert(all.take(i + 1).drop_last() =~= all.take(i as int));
            assert(all.take(i + 1).last() == (r.oid@, r.reference@));
        }
        if text::same_text(r.oid.as_str(), oid) {
            out.push(r.reference.clone());
            proof {
                assert(item_data::ref_views(out@) =~= item_data::ref_views(before).push(
                    r.reference@,
                ));
            }
        }
        i += 1;
    }
    proof {
        assert(all.take(i as int) =~= all);
    }
    out
}

// ---------------------------------------------------------------------------
// Commits
// ---------------------------------------------------------------------------

/// What a row for a commit stands for.
pub open spec fn commit_meaning(
    commit: CommitRecord,
    refs: Seq<(Seq<char>, RefView)>,
    now: int,
) -> Meaning {
    Meaning::Commit {
        oid: commit.oid@,
        short_id: commit.short_id@,
        associated_references: refs_to(refs, commit.oid@),
        summary: commit.summary@,
        author: commit.author@,
        age: age_of(now, commit.seconds as int),
    }
}

/// What a row for a commit stands for.
pub fn commit_data(commit: &CommitRecord, refs: &Vec<CommitRef>, now: i64) -> (data: ItemData)
    requires
        datable(now as int, commit.seconds as int),
    ensures
        data@ == commit_meaning(*commit, commit_ref_views(refs@), now as int),
{
    ItemData::Commit {
        oid: commit.oid.clone(),
        short_id: commit.short_id.clone(),
        associated_references: associated(refs, commit.oid.as_str()),
        summary: commit.summary.clone(),
        author: commit.author.clone(),
        age: short_age(now, commit.seconds),
    }
}

/// Whether a commit is wanted: its message matches, if anything is looked for.
pub open spec fn wanted(entry: LogEntry, matcher: Option<Matcher>) -> bool {
    match (entry, matcher) {
        (LogEntry::Commit(commit), Some(matcher)) => matcher.finds(commit.message@),
        _ => true,
    }
}

/// The row for what came of reading a commit.
pub open spec fn log_item(entry: LogEntry, refs: Seq<(Seq<char>, RefView)>, now: int) -> ItemRow {
    match entry {
        LogEntry::Commit(commit) => ItemRow {
            id: commit.id,
            depth: 1,
            data: commit_meaning(commit, refs, now),
            ..item::plain_item()
        },
        LogEntry::Failed { id, error } => ItemRow {
            id,
            data: Meaning::Error(error@),
            ..item::plain_item()
        },
    }
}

/// Which entries of a log are wanted.
pub open spec fn wanted_of(entries: Seq<LogEntry>, matcher: Option<Matcher>) -> Seq<bool> {
    entries.map_values(|entry: LogEntry| wanted(entry, matcher))
}

/// The first `limit` rows for the entries that are wanted.
pub open spec fn log_rows(
    entries: Seq<LogEntry>,
    wanted: Seq<bool>,
    refs: Seq<(Seq<char>, RefView)>,
    limit: int,
    now: int,
) -> Seq<ItemRow>
    decreases entries.len(),
{
    if entries.len() == 0 {
        seq![]
    } else {
        let front = log_rows(entries.drop_last(), wanted, refs, limit, now);
        if front.len() < limit && wanted[entries.len() - 1] {
            front.push(log_item(entries.last(), refs, now))
        } else {
            front
        }
    }
}

/// What stands in for a log without commits.
pub open spec fn no_commits_item() -> ItemRow {
    ItemRow { data: Meaning::Raw("No commits found"@), ..item::plain_item() }
}

pub open spec fn matcher_view(matcher: Option<&Matcher>) -> Option<Matcher> {
    match matcher {
        Some(matcher) => Some(*matcher),
        None => None,
    }
}

/// The rows of a log, one standing in where there are none.
pub open spec fn log_of(
    entries: Seq<LogEntry>,
    wanted: Seq<bool>,
    refs: Seq<(Seq<char>, RefView)>,
    limit: int,
    now: int,
) -> Seq<ItemRow> {
    let rows = log_rows(entries, wanted, refs, limit, now);
    if rows.len() == 0 {
        seq![no_commits_item()]
    } else {
        rows
    }
}

/// Whether an entry of a log is wanted: a commit whose message matches, where there is
/// anything to match, or something that went wrong.
pub fn is_wanted(entry: &LogEntry, msg_regex: Option<&Matcher>) -> (is: bool)
    ensures
        is == wanted(*entry, matcher_view(msg_regex)),
{
    match entry {
        LogEntry::Commit(commit) => match msg_regex {
            Some(regex) => regex.is_match(commit.message.as_str()),
            None => true,
        },
        LogEntry::Failed { .. } => true,
    }
}

/// Which entries of a log are wanted: the commits whose message matches, where
/// there is anything to match, and whatever went wrong.
pub fn wanted_entries(entries: &Vec<LogEntry>, msg_regex: Option<&Matcher>) -> (wanted: Vec<bool>)
    ensures
        wanted@ == wanted_of(entries@, matcher_view(msg_regex)),
{
    let mut out: Vec<bool> = Vec::new();
    let mut i: usize = 0;
    while i < entries.len()
        invariant
            i <= entries@.len(),
            out@.len() == i,
            forall|k: int|
                0 <= k < i ==> #[trigger] out@[k] == wanted(entries@[k], matcher_view(msg_regex)),
        decreases entries@.len() - i,
    {
        out.push(is_wanted(&entries[i], msg_regex));
        i += 1;
    }
    proof {
        assert(out@ =~= wanted_of(entries@, matcher_view(msg_regex)));
    }
    out
}

/// The rows of a log whose entries are wanted or not: the first `limit` of those
/// that are.
pub fn log_wanted(
    entries: &Vec<LogEntry>,
    wanted: &Vec<bool>,
    refs: &Vec<CommitRef>,
    limit: usize,
    now: i64,
) -> (items: Vec<Item>)
    requires
        wanted@.len() == entries@.len(),
        forall|i: int|
            0 <= i < entries@.len() ==> ((#[trigger] entries@[i]) matches LogEntry::Commit(commit)
                ==> datable(now as int, commit.seconds as int)),
    ensures
        item::item_views(items@) == log_of(
            entries@,
            wanted@,
            commit_ref_views(refs@),
            limit as int,
            now as int,
        ),
{
    let ghost names = commit_ref_views(refs@);
    let mut items: Vec<Item> = Vec::new();
    let mut i: usize = 0;
    proof {
        assert(entries@.take(0) =~= Seq::<LogEntry>::empty());
        assert(item::item_views(items@) =~= Seq::<ItemRow>::empty());
    }
    while i < entries.len()
        invariant
            i <= entries@.len(),
            wanted@.len() == entries@.len(),
            names == commit_ref_views(refs@),
            forall|k: int|
                0 <= k < entries@.len() ==> ((#[trigger] entries@[k]) matches LogEntry::Commit(
                    commit,
                ) ==> datable(now as int, commit.seconds as int)),
            item::item_views(items@) == log_rows(
                entries@.take(i as int),
                wanted@,
                names,
                limit as int,
                now as int,
            ),
        decreases entries@.len() - i,
    {
        let entry = &entries[i];
        let ghost before = items@;
        proof {
            assert(entries@.take(i + 1).drop_last() =~= entries@.take(i as int));
            assert(entries@.take(i + 1).last() == *entry);
            assert(item::item_views(items@).len() == items@.len());
        }
        if items.len() < limit && wanted[i] {
            let item = match entry {
                LogEntry::Commit(commit) => Item {
                    id: commit.id,
                    depth: 1,
                    data: commit_data(commit, refs, now),
                    ..Item::plain()
                },
                LogEntry::Failed { id, error } => Item {
                    id: *id,
                    data: ItemData::Error(error.clone()),
                    ..Item::plain()
                },
            };
            items.push(item);
            proof {
                assert(item@ =~= log_item(*entry, names, now as int));
                assert(item::item_views(items@) =~= item::item_views(before).push(item@));
            }
        }
        i += 1;
    }
    proof {
        assert(entries@.take(i as int) =~= entries@);
        assert(item::item_views(items@).len() == items@.len());
    }
    if items.len() == 0 {
        let item = Item { data: ItemData::Raw("No commits found".to_owned()), ..Item::plain() };
        items.push(item);
        proof {
            assert(item@ =~= no_commits_item());
            assert(item::item_views(items@) =~= seq![no_commits_item()]);
        }
    }
    items
}

/// The rows of a log: the first `limit` of the commits whose message matches, and
/// whatever went wrong in between.
pub fn log(
    entries: &Vec<LogEntry>,
    refs: &Vec<CommitRef>,
    limit: usize,
    msg_regex: Option<&Matcher>,
    now: i64,
) -> (items: Vec<Item>)
    requires
        forall|i: int|
            0 <= i < entries@.len() ==> ((#[trigger] entries@[i]) matches LogEntry::Commit(commit)
                ==> datable(now as int, commit.seconds as int)),
    ensures
        item::item_views(items@) == log_of(
            entries@,
            wanted_of(entries@, matcher_view(msg_regex)),
            commit_ref_views(refs@),
            limit as int,
            now as int,
        ),
{
    let wanted = wanted_entries(entries, msg_regex);
    log_wanted(entries, &wanted, refs, limit, now)
}

/// A log has no more rows than were asked for, one standing in for none.
pub proof fn log_keeps_to_limit(
    entries: Seq<LogEntry>,
    wanted: Seq<bool>,
    refs: Seq<(Seq<char>, RefView)>,
    limit: int,
    now: int,
)
    requires
        0 <= limit,
    ensures
        log_rows(entries, wanted, refs, limit, now).len() <= limit,
    decreases entries.len(),
{
    if entries.len() > 0 {
        log_keeps_to_limit(entries.drop_last(), wanted, refs, limit, now);
    }
}

/// How many entries are wanted.
pub open spec fn wanted_count(wanted: Seq<bool>) -> int
    decreases wanted.len(),
{
    if wanted.len() == 0 {
        0
    } else {
        wanted_count(wanted.drop_last()) + if wanted.last() {
            1int
        } else {
            0
        }
    }
}

proof fn lemma_rows_counted(
    entries: Seq<LogEntry>,
    wanted: Seq<bool>,
    refs: Seq<(Seq<char>, RefView)>,
    limit: int,
    now: int,
)
    requires
        0 <= limit,
        entries.len() <= wanted.len(),
    ensures
        log_rows(entries, wanted, refs, limit, now).len() == (if wanted_count(
            wanted.take(entries.len() as int),
        ) < limit {
            wanted_count(wanted.take(entries.len() as int))
        } else {
            limit
        }),
        0 <= wanted_count(wanted.take(entries.len() as int)),
    decreases entries.len(),
{
    let n = entries.len() as int;
    if n > 0 {
        lemma_rows_counted(entries.drop_last(), wanted, refs, limit, now);
        assert(wanted.take(n).drop_last() =~= wanted.take(n - 1));
    }
}

/// A log needs no more of the history than it takes to find as many wanted entries as
/// it shows: what comes after those changes nothing.
pub proof fn log_needs_no_more(
    entries: Seq<LogEntry>,
    more: Seq<LogEntry>,
    matcher: Option<Matcher>,
    refs: Seq<(Seq<char>, RefView)>,
    limit: int,
    now: int,
)
    requires
        0 <= limit <= wanted_count(wanted_of(entries, matcher)),
    ensures
        log_of(entries + more, wanted_of(entries + more, matcher), refs, limit, now) == log_of(
            entries,
            wanted_of(entries, matcher),
            refs,
            limit,
            now,
        ),
{
    lemma_rows_of_front(entries, more, matcher, refs, limit, now);
}

proof fn lemma_rows_of_front(
    entries: Seq<LogEntry>,
    more: Seq<LogEntry>,
    matcher: Option<Matcher>,
    refs: Seq<(Seq<char>, RefView)>,
    limit: int,
    now: int,
)
    requires
        0 <= limit <= wanted_count(wanted_of(entries, matcher)),
    ensures
        log_rows(entries + more, wanted_of(entries + more, matcher), refs, limit, now) == log_rows(
            entries,
            wanted_of(entries, matcher),
            refs,
            limit,
            now,
        ),
    decreases more.len(),
{
    let all = entries + more;
    let marks = wanted_of(all, matcher);
    let own = wanted_of(entries, matcher);
    if more.len() == 0 {
        assert(all =~= entries);
    } else {
        let fewer = entries + more.drop_last();
        assert(all.drop_last() =~= fewer);
        lemma_rows_of_front(entries, more.drop_last(), matcher, refs, limit, now);
        lemma_same_marks(fewer, marks, wanted_of(fewer, matcher), refs, limit, now);
        lemma_rows_counted(entries, own, refs, limit, now);
        assert(own.take(entries.len() as int) =~= own);
    }
}

/// The rows of a log go by the marks of its own entries alone.
proof fn lemma_same_marks(
    entries: Seq<LogEntry>,
    wanted: Seq<bool>,
    also: Seq<bool>,
    refs: Seq<(Seq<char>, RefView)>,
    limit: int,
    now: int,
)
    requires
        forall|i: int| 0 <= i < entries.len() ==> #[trigger] wanted[i] == also[i],
    ensures
        log_rows(entries, wanted, refs, limit, now) == log_rows(entries, also, refs, limit, now),
    decreases entries.len(),
{
    if entries.len() > 0 {
        lemma_same_marks(entries.drop_last(), wanted, also, refs, limit, now);
        assert(wanted[entries.len() - 1] == also[entries.len() - 1]);
    }
}

// ---------------------------------------------------------------------------
// Stashes
// ---------------------------------------------------------------------------

/// A stash as it was read.
#[derive(Debug)]
pub struct StashRecord {
    pub id: ItemId,
    pub message: Option<String>,
}

/// The row for a stash.
pub open spec fn stash_item(stash: StashRecord, i: int) -> ItemRow {
    ItemRow {
        id: stash.id,
        depth: 1,
        data: Meaning::Stash {
            message: match stash.message {
                Some(message) => message@,
                None => seq![],
            },
            stash_ref: ("stash@{"@ + text::decimal(i as nat)).push('}'),
            id: i as usize,
        },
        ..item::plain_item()
    }
}

/// The rows of the first `limit` stashes.
pub fn stash_list(stashes: &Vec<StashRecord>, limit: usize) -> (items: Vec<Item>)
    ensures
        item::item_views(items@) == Seq::new(
            (if stashes@.len() < limit {
                stashes@.len()
            } else {
                limit as nat
            }),
            |i: int| stash_item(stashes@[i], i),
        ),
{
    let mut items: Vec<Item> = Vec::new();
    let mut i: usize = 0;
    while i < stashes.len() && i < limit
        invariant
            i <= stashes@.len(),
            i <= limit,
            items@.len() == i,
            forall|k: int| 0 <= k < i ==> (#[trigger] items@[k])@ == stash_item(stashes@[k], k),
        decreases stashes@.len() - i,
    {
        let stash = &stashes[i];
        let message = match &stash.message {
            Some(message) => message.clone(),
            None => String::new(),
        };
        let mut stash_ref = "stash@{".to_owned();
        stash_ref.push_str(text::to_decimal(i as u64).as_str());
        stash_ref.push('}');
        let item = Item {
            id: stash.id,
            depth: 1,
            data: ItemData::Stash { message, stash_ref, id: i },
            ..Item::plain()
        };
        proof {
            if stash.message is None {
                assert(message@ =~= Seq::<char>::empty());
            }
            assert(item@ =~= stash_item(*stash, i as int));
        }
        items.push(item);
        i += 1;
    }
    proof {
        assert(item::item_views(items@) =~= Seq::new(
            (if stashes@.len() < limit {
                stashes@.len()
            } else {
                limit as nat
            }),
            |i: int| stash_item(stashes@[i], i),
        ));
    }
    items
}

} // verus!
