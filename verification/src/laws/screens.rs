//! What screens are made of, and what is drawn of them.

use crate::ansi;
use crate::cli;
use crate::cli::{Args, Startup};
use crate::diff::Diff;
use crate::diff_items;
use crate::diff_renderer;
use crate::frame;
use crate::frame::Frame;
use crate::item::{Item, ItemRow};
use crate::item_data;
use crate::item_data::{Meaning, RefView};
use crate::laws::moves;
use crate::log_items::CommitRecord;
use crate::ops::commit;
use crate::ops::commit::CommitKind;
use crate::ops::editor;
use crate::ops::editor::{ArgView, Motion, Quit};
use crate::ops::rebase;
use crate::ops::rebase::TodoOp;
use crate::pager;
use crate::pager::Printed;
use crate::place::Place;
use crate::rendered_log;
use crate::screen;
use crate::screen::{ItemLayout, Matcher, SearchDirection};
use crate::screen_nav;
use crate::screen_search;
use crate::style;
use crate::style::Style;
use crate::text;
use crate::text_input;
use crate::text_input::{Key, KeyCode, KeyKind, Modifiers};
use crate::tide;
use crate::ui;
use crate::ui::RowStyles;
use vstd::prelude::*;

verus! {

// ---------------------------------------------------------------------------
// Rows
// ---------------------------------------------------------------------------

/// Rows that head others are headings, files, hunks, commits and entries of a rebase; the
/// lines of hunks and of files lie within something.
pub proof fn rows_are_what_they_stand_for(data: Meaning)
    ensures
        data.is_section() == (match data {
            Meaning::Header(_) => true,
            Meaning::Delta { .. } => true,
            Meaning::Hunk { .. } => true,
            Meaning::Commit { .. } => true,
            Meaning::RebaseTodo { .. } => true,
            Meaning::Raw(_) => false,
            Meaning::HunkLine { .. } => false,
            Meaning::Stash { .. } => false,
            Meaning::BlameCodeLine { .. } => false,
            Meaning::Error(_) => false,
        }),
        data.is_sub_line() == (match data {
            Meaning::HunkLine { .. } => true,
            Meaning::BlameCodeLine { .. } => true,
            _ => false,
        }),
{
}

/// Lines are of the same hunk where it is the same hunk of the same file of the same
/// diff; and what isn't a line of a hunk is of none.
pub proof fn lines_of_a_hunk_go_together(a: Meaning, b: Meaning)
    ensures
        item_data::in_same_hunk(a, b) <==> a is HunkLine && b is HunkLine && a->HunkLine_diff
            == b->HunkLine_diff && a->HunkLine_file_i == b->HunkLine_file_i && a->HunkLine_hunk_i
            == b->HunkLine_hunk_i,
        a is HunkLine && b is HunkLine ==> (a.position() == b.position() <==> a->HunkLine_file_i
            == b->HunkLine_file_i && a->HunkLine_hunk_i == b->HunkLine_hunk_i
            && a->HunkLine_line_i == b->HunkLine_line_i),
        a is Hunk && b is Hunk ==> (a.position() == b.position() <==> a->Hunk_file_i
            == b->Hunk_file_i && a->Hunk_hunk_i == b->Hunk_hunk_i),
        a is Delta && b is Delta ==> (a.position() == b.position() <==> a->Delta_file_i
            == b->Delta_file_i),
        a.position() is Some <==> a is Delta || a is Hunk || a is HunkLine,
        a is Delta && b is Hunk ==> a.position() != b.position(),
        a is Delta && b is HunkLine ==> a.position() != b.position(),
        a is Hunk && b is HunkLine ==> a.position() != b.position(),
{
}

/// Folding something changes no row that goes by another name.
pub proof fn folding_changes_its_own_rows(
    items: Seq<Item>,
    layouts: Seq<ItemLayout>,
    collapsed: Set<u64>,
    lines: nat,
    id: u64,
    i: int,
)
    requires
        0 <= i < items.len(),
    ensures
        ({
            let before = screen::frame_of(items, layouts, collapsed, lines);
            let after = screen::frame_of(items, layouts, collapsed.insert(id), lines);
            &&& before.len() == items.len()
            &&& after.len() == items.len()
            &&& after.lines == lines
            &&& items[i].id != id ==> after.rows[i] == before.rows[i]
            &&& items[i].id == id ==> after.rows[i].collapsed
            &&& after.rows[i].depth == items[i].depth
            &&& after.rows[i].unselectable == items[i].unselectable
            &&& after.rows[i].section == items[i].data@.is_section()
            &&& after.rows[i].sub_line == items[i].data@.is_sub_line()
            &&& after.rows[i].hunk == (items[i].data@ is Hunk)
            &&& items[i].id == id && i + 1 < items.len() && items[i + 1].depth > items[i].depth
                ==> after.rows[i].height == layouts[i].shut.height
            &&& items[i].id == id && !(i + 1 < items.len() && items[i + 1].depth > items[i].depth)
                ==> after.rows[i].height == layouts[i].open.height
            &&& !collapsed.contains(items[i].id) ==> before.rows[i].height
                == layouts[i].open.height
        }),
{
}

/// The cursor starts on the first hunk that can be selected, or where there is none on
/// the first row that can be.
pub proof fn the_cursor_starts_on_the_first_hunk(f: Frame)
    requires
        f.len() > 0,
    ensures
        ({
            let start = screen_nav::initial_cursor(f);
            let hunks = exists|i: int|
                0 <= i < f.len() && #[trigger] moves::takes_cursor(f, i) && f.rows[i].hunk;
            let any = exists|i: int| 0 <= i < f.len() && #[trigger] moves::takes_cursor(f, i);
            &&& hunks ==> moves::takes_cursor(f, start) && f.rows[start].hunk && forall|k: int|
                0 <= k < start && #[trigger] moves::takes_cursor(f, k) ==> !f.rows[k].hunk
            &&& !hunks && any ==> moves::takes_cursor(f, start) && forall|k: int|
                0 <= k < start ==> !#[trigger] moves::takes_cursor(f, k)
            &&& !any ==> start == 0
        }),
{
    frame::first_visible(f);
    let with_hunk = f.selectable_rows(true);
    let plain = f.selectable_rows(false);
    frame::first_from_is_first(f, 0, with_hunk);
    frame::first_from_is_first(f, 0, plain);
    if exists|i: int| 0 <= i < f.len() && #[trigger] moves::takes_cursor(f, i) && f.rows[i].hunk {
        let i = choose|i: int|
            0 <= i < f.len() && #[trigger] moves::takes_cursor(f, i) && f.rows[i].hunk;
        assert(f.visible(i) && with_hunk(i));
    }
    if exists|i: int| 0 <= i < f.len() && #[trigger] moves::takes_cursor(f, i) {
        let i = choose|i: int| 0 <= i < f.len() && #[trigger] moves::takes_cursor(f, i);
        assert(f.visible(i) && plain(i));
    }
    if let Some(i) = f.first_from(0, with_hunk) {
        assert(moves::takes_cursor(f, i));
    }
    if let Some(i) = f.first_from(0, plain) {
        assert(moves::takes_cursor(f, i));
    }
}

/// What is selected of a hunk are all lines that any row of the selection stands for.
pub proof fn selections_hold_all_their_lines(items: Seq<Item>, from: int, to: int, line: usize)
    ensures
        screen_nav::selected_indices(items, from, to).contains(line) <==> exists|i: int|
            {
                &&& from <= i <= to
                &&& (#[trigger] items[i]).data@ is HunkLine
                &&& items[i].data@->line_indices.contains(line)
            },
{
}

/// Stopping on context lines changes only whether the lines of hunks are stopped on.
pub proof fn stopping_on_context_changes_lines_only(row: ItemRow)
    ensures
        ({
            let next = diff_items::visited(row);
            &&& row.data is HunkLine ==> !next.unselectable
            &&& !(row.data is HunkLine) ==> next == row
            &&& next.id == row.id
            &&& next.depth == row.depth
            &&& next.data == row.data
            &&& next.rendered == row.rendered
            &&& next.default_collapsed == row.default_collapsed
        }),
{
}

// ---------------------------------------------------------------------------
// Searching
// ---------------------------------------------------------------------------

/// Searching forward goes to the first match below the cursor, or else to the first there
/// is; searching backward to the last above it, or else to the last there is.
pub proof fn searches_go_on_from_the_cursor(hits: Seq<bool>, cursor: int)
    requires
        0 <= cursor < hits.len(),
    ensures
        match screen_search::nearest_hit(hits, cursor, SearchDirection::Forward) {
            Some(i) => {
                &&& 0 <= i < hits.len() && hits[i]
                &&& cursor < i ==> forall|k: int| cursor < k < i ==> !hits[k]
                &&& i <= cursor ==> (forall|k: int| cursor < k < hits.len() ==> !hits[k]) && (
                forall|k: int| 0 <= k < i ==> !hits[k])
            },
            None => forall|k: int| 0 <= k < hits.len() ==> !hits[k],
        },
        match screen_search::nearest_hit(hits, cursor, SearchDirection::Backward) {
            Some(i) => {
                &&& 0 <= i < hits.len() && hits[i]
                &&& i < cursor ==> forall|k: int| i < k < cursor ==> !hits[k]
                &&& cursor <= i ==> (forall|k: int| 0 <= k < cursor ==> !hits[k]) && (forall|
                    k: int,
                |
                    i < k < hits.len() ==> !hits[k])
            },
            None => forall|k: int| 0 <= k < hits.len() ==> !hits[k],
        },
{
    screen_search::first_hit_is_first(hits, cursor + 1);
    screen_search::first_hit_is_first(hits, 0);
    screen_search::last_hit_is_last(hits, cursor);
    screen_search::last_hit_is_last(hits, hits.len() as int);
}

/// A query asks for its case where a capital letter is in it that isn't escaped.
pub proof fn capitals_ask_for_their_case(before: Seq<char>, c: char, rest: Seq<char>)
    requires
        !before.contains('\\'),
        c != '\\',
    ensures
        screen_search::is_upper(c) ==> screen_search::asks_case(before + seq![c] + rest),
        screen_search::asks_case(seq!['\\', c] + rest) == screen_search::asks_case(rest),
        (forall|i: int|
            0 <= i < before.len() ==> !screen_search::is_upper(#[trigger] before[i]))
            ==> screen_search::asks_case(before + rest) == screen_search::asks_case(rest),
        !screen_search::asks_case(seq![]),
    decreases before.len(),
{
    let escaped = seq!['\\', c] + rest;
    assert(escaped.skip(2) =~= rest);
    assert(escaped[0] == '\\');
    let all = before + seq![c] + rest;
    let more = before + rest;
    if before.len() == 0 {
        assert(all[0] == c);
        assert(more =~= rest);
    } else {
        assert(before[0] != '\\') by {
            assert(before.contains(before[0]));
        }
        let tail = before.drop_first();
        assert(!tail.contains('\\')) by {
            if tail.contains('\\') {
                let i = choose|i: int| 0 <= i < tail.len() && tail[i] == '\\';
                assert(before[i + 1] == '\\');
            }
        }
        assert(all.drop_first() =~= tail + seq![c] + rest);
        assert(more.drop_first() =~= tail + rest);
        assert(all[0] == before[0] && more[0] == before[0]);
        if forall|i: int| 0 <= i < before.len() ==> !screen_search::is_upper(#[trigger] before[i]) {
            assert forall|i: int| 0 <= i < tail.len() implies !screen_search::is_upper(
                #[trigger] tail[i],
            ) by {
                assert(tail[i] == before[i + 1]);
            }
        }
        capitals_ask_for_their_case(tail, c, rest);
    }
}

// ---------------------------------------------------------------------------
// Drawing
// ---------------------------------------------------------------------------

/// A line that is typed is drawn as it is, with the character under the cursor reversed,
/// or a caret behind it where there is none.
pub proof fn the_cursor_is_drawn_on_the_line(value: Seq<char>, position: int)
    requires
        0 <= position,
    ensures
        ({
            let line = ui::typed_line(value, position);
            &&& position < value.len() ==> {
                &&& line.len() == 3
                &&& line[0].0 + line[1].0 + line[2].0 == value
                &&& line[0].0.len() == position
                &&& line[1].0.len() == 1
                &&& line[1].1.add_modifier.bits == 0x40
                &&& line[0].1 == style::plain()
                &&& line[2].1 == style::plain()
            }
            &&& position >= value.len() ==> {
                &&& line.len() == 2
                &&& line[0] == (value, style::plain())
                &&& line[1] == ("\u{2588}"@, style::plain())
            }
        }),
{
    if position < value.len() {
        let line = ui::typed_line(value, position);
        assert(line[0].0 + line[1].0 + line[2].0 =~= value);
    }
}

/// A prompt is drawn before what is typed, behind its symbol; without one there is only
/// what is typed.
pub proof fn prompts_are_drawn_before_the_line(
    symbol: (Seq<char>, Style),
    prompt: Seq<char>,
    prompt_style: Style,
    value: Seq<char>,
    position: int,
)
    ensures
        ({
            let line = ui::prompt_line(symbol, prompt, prompt_style, value, position);
            let typed = ui::typed_line(value, position);
            &&& prompt.len() == 0 ==> line == typed
            &&& prompt.len() > 0 ==> {
                &&& line.len() == typed.len() + 4
                &&& line[0] == symbol
                &&& line[1] == (" "@, style::plain())
                &&& line[2] == (prompt, prompt_style)
                &&& line[3] == (" › "@, prompt_style)
                &&& line.skip(4) == typed
            }
        }),
{
    let line = ui::prompt_line(symbol, prompt, prompt_style, value, position);
    if prompt.len() > 0 {
        assert(line.skip(4) =~= ui::typed_line(value, position));
    }
}

/// A line's style lies under that of its parts.
pub proof fn lines_lend_their_style(line_style: Style, spans: Seq<(Seq<char>, Style)>, i: int)
    requires
        0 <= i < spans.len(),
    ensures
        ui::styled_line(line_style, spans).len() == spans.len(),
        ui::styled_line(line_style, spans)[i].0 == spans[i].0,
        spans[i].1 == style::plain() ==> ui::styled_line(line_style, spans)[i].1 == line_style,
        line_style == style::plain() ==> ui::styled_line(line_style, spans)[i].1 == spans[i].1,
{
    style::patch_with_plain(line_style);
    style::patch_onto_plain(spans[i].1);
}

/// Panels reach down to where the lowest of them ends.
pub proof fn panels_reach_to_the_lowest(areas: Seq<(u16, u16)>)
    ensures
        forall|i: int|
            0 <= i < areas.len() ==> (#[trigger] areas[i]).0 + areas[i].1 <= ui::lowest(areas),
        ui::lowest(areas) == 0 || exists|i: int|
            0 <= i < areas.len() && (#[trigger] areas[i]).0 + areas[i].1 == ui::lowest(areas),
    decreases areas.len(),
{
    if areas.len() > 0 {
        let front = areas.drop_last();
        panels_reach_to_the_lowest(front);
        assert(areas[areas.len() - 1] == areas.last());
        assert forall|i: int| 0 <= i < areas.len() implies (#[trigger] areas[i]).0 + areas[i].1
            <= ui::lowest(areas) by {
            if i < front.len() {
                assert(areas[i] == front[i]);
            }
        }
        if ui::lowest(areas) == ui::lowest(front) && ui::lowest(front) != 0 {
            let i = choose|i: int|
                0 <= i < front.len() && (#[trigger] front[i]).0 + front[i].1 == ui::lowest(front);
            assert(areas[i] == front[i]);
        }
    }
}

/// A row is drawn over what it is part of: nothing, what is selected as a whole, or the
/// selection itself, over that.
pub proof fn rows_are_drawn_over_the_selection(styles: RowStyles)
    ensures
        ui::background_of(styles, false, false) == style::plain(),
        ui::background_of(styles, false, true) == style::plain(),
        ui::background_of(styles, true, false) == styles.selection_area,
        ui::background_of(styles, true, true) == style::patched(
            styles.selection_area,
            styles.selection_line,
        ),
{
    style::patch_with_plain(style::plain());
    style::patch_with_plain(styles.selection_area);
}

/// What is selected is marked before its rows, the selection itself by the cursor's
/// symbol and what it heads by a bar; and nothing is where the cursor is hidden.
pub proof fn the_selection_is_marked(styles: RowStyles, highlighted: bool, selected: bool)
    ensures
        ui::gutter_of(styles, highlighted, selected, true) == (' ', style::plain()),
        ui::gutter_of(styles, false, selected, false) == (' ', style::plain()),
        ui::gutter_of(styles, true, true, false) == (
            styles.cursor_symbol,
            style::patched(ui::background_of(styles, true, true), styles.cursor),
        ),
        ui::gutter_of(styles, true, false, false) == (
            styles.bar_symbol,
            style::patched(styles.selection_area, styles.bar),
        ),
{
    style::patch_with_plain(styles.selection_area);
}

/// A link is written around what is shown of it.
pub proof fn links_are_written_around_their_text(shown: Seq<char>, uri: Seq<char>)
    ensures
        ui::link(shown, uri) == seq!['\x1b', ']', '8', ';', ';'] + uri + seq!['\x1b', '\\'] + shown
            + seq!['\x1b', ']', '8', ';', ';', '\x1b', '\\'],
{
    reveal_strlit("\x1b]8;;");
    reveal_strlit("\x1b\\");
    reveal_strlit("\x1b]8;;\x1b\\");
    assert(ui::LINK_START@ =~= seq!['\x1b', ']', '8', ';', ';']);
    assert(ui::LINK_STOP@ =~= seq!['\x1b', '\\']);
    assert(ui::LINK_END@ =~= seq!['\x1b', ']', '8', ';', ';', '\x1b', '\\']);
}

/// At most so many are kept, the first.
pub proof fn the_first_are_kept<T>(parts: Seq<T>, count: nat)
    ensures
        ui::at_most(parts, count as int).len() == (if parts.len() < count {
            parts.len()
        } else {
            count
        }),
        ui::at_most(parts, count as int).is_prefix_of(parts),
{
    let kept = ui::at_most(parts, count as int);
    assert(parts.subrange(0, kept.len() as int) =~= kept);
}

// ---------------------------------------------------------------------------
// Paging
// ---------------------------------------------------------------------------

/// What is asked is said above what comes of it where it is no longer what was asked
/// first, and can't be acted on.
pub proof fn other_questions_are_said(line: Seq<char>, found: Seq<char>)
    ensures
        line == found ==> pager::asked_items(line, found).len() == 0,
        line != found ==> ({
            let rows = pager::asked_items(line, found);
            &&& rows.len() == 1
            &&& rows[0].unselectable
            &&& rows[0].rendered matches Some(spans)
            &&& spans.len() == 1
            &&& spans[0].0 == line
            &&& spans[0].1.add_modifier.bits == 2
        }),
{
}

/// A patch names the commit it is of on its first line.
pub proof fn patches_name_their_commit(hash: Seq<char>, rest: Seq<char>)
    requires
        hash.len() > 0,
        forall|i: int|
            0 <= i < hash.len() ==> '0' <= #[trigger] hash[i] <= '9' || 'a' <= hash[i] <= 'f'
                || 'A' <= hash[i] <= 'F',
    ensures
        pager::commit_of("commit "@ + hash + seq!['\n'] + rest) == Some(hash),
{
    reveal_strlit("commit ");
    let mark = "commit "@;
    let line = mark + hash;
    let patch = line + seq!['\n'] + rest;
    assert(mark + hash + seq!['\n'] + rest =~= patch);
    let n = line.len() as int;
    assert(mark[0] == 'c' && mark[1] == 'o' && mark[2] == 'm' && mark[3] == 'm');
    assert(mark[4] == 'i' && mark[5] == 't' && mark[6] == ' ');
    assert forall|k: int| 0 <= k < n implies patch[k] != '\n' by {
        if k < mark.len() {
            assert(patch[k] == mark[k]);
        } else {
            assert(patch[k] == hash[k - mark.len()]);
        }
    }
    text::lemma_line_len_is(patch, n);
    let first = patch.take(n + 1);
    assert(first =~= line.push('\n'));
    assert(first.drop_last() =~= line);
    assert(line.last() == hash.last());
    assert(hash.last() == hash[hash.len() - 1]);
    assert(text::first_line(patch) == line);
    assert(line.subrange(0, mark.len() as int) =~= mark);
    assert(line.skip(mark.len() as int) =~= hash);
    assert forall|i: int| 0 <= i < hash.len() implies !text::white(#[trigger] hash[i]) by {}
    let none = Seq::<char>::empty();
    crate::laws::texts::words_stand_between_white_space(none, hash, none);
    assert(none + hash + none =~= hash);
}

/// The views of the surrounding layout are switched to with the alt key held, where there
/// is a layout, and only by pressing.
pub proof fn views_are_switched_with_alt(state_file: Option<Seq<char>>, key: Key)
    ensures
        ({
            let view = tide::view_asked(state_file, key);
            let pressed = state_file is Some && key.kind == KeyKind::Press && key.modifiers.alt;
            &&& !pressed ==> view is None
            &&& pressed && key.code == KeyCode::Char('f') ==> view == Some("files"@)
            &&& pressed && key.code == KeyCode::Char('j') ==> view == Some("search"@)
            &&& pressed && key.code == KeyCode::Char('k') ==> view == Some("edit"@)
            &&& key.code != KeyCode::Char('f') && key.code != KeyCode::Char('j') && key.code
                != KeyCode::Char('k') ==> view is None
        }),
{
}

/// A pager finds the command it pages for before it does anything else, and reads its
/// input before anything is shown; anything else starts with the repository.
pub proof fn startup_goes_in_order(args: Args)
    ensures
        args.pager ==> cli::step_at(args, 0) == Startup::FindCommand && cli::step_at(args, 1)
            == Startup::OpenRepository && cli::step_at(args, 2) == Startup::ReadInput
            && cli::step_at(args, 3) == Startup::CreateApp,
        !args.pager ==> cli::step_at(args, 0) == Startup::OpenRepository && cli::step_at(args, 1)
            == Startup::CreateApp,
        args.keys is Some ==> cli::next_step(args, Startup::CreateApp) == Startup::SendKeys,
        args.keys is None ==> cli::next_step(args, Startup::CreateApp) == Startup::Draw,
        cli::next_step(args, Startup::SendKeys) == Startup::Draw,
        args.print ==> cli::next_step(args, Startup::Draw) == Startup::Exit,
        !args.print ==> cli::next_step(args, Startup::Draw) == Startup::Run,
        cli::next_step(args, Startup::Run) == Startup::Exit,
{
    reveal_with_fuel(cli::step_at, 4);
}

// ---------------------------------------------------------------------------
// Commands of menus
// ---------------------------------------------------------------------------

/// Quitting closes what is on top first, and asks where that is wanted.
pub proof fn quitting_closes_what_is_on_top(screens: int, confirm: bool)
    ensures
        editor::quit_step(false, screens, confirm) == Quit::Nothing,
        screens != 1 ==> editor::quit_step(true, screens, confirm) == Quit::CloseScreen,
        editor::quit_step(true, 1, true) == Quit::Confirm,
        editor::quit_step(true, 1, false) == Quit::Quit,
{
}

/// Whether an argument is the first that goes by a name.
pub open spec fn is_arg(args: Seq<ArgView>, name: Seq<char>, i: int) -> bool {
    &&& 0 <= i < args.len()
    &&& args[i].name == name
    &&& forall|j: int| 0 <= j < i ==> (#[trigger] args[j]).name != name
}

proof fn lemma_arg_at(args: Seq<ArgView>, name: Seq<char>)
    ensures
        match editor::arg_at(args, name) {
            Some(i) => is_arg(args, name, i),
            None => forall|j: int| 0 <= j < args.len() ==> (#[trigger] args[j]).name != name,
        },
    decreases args.len(),
{
    if args.len() > 0 && args[0].name != name {
        let rest = args.drop_first();
        lemma_arg_at(rest, name);
        match editor::arg_at(rest, name) {
            Some(i) => {
                assert(args[i + 1] == rest[i]);
                assert forall|j: int| 0 <= j < i + 1 implies (#[trigger] args[j]).name != name by {
                    if j > 0 {
                        assert(args[j] == rest[j - 1]);
                    }
                }
            },
            None => {
                assert forall|j: int| 0 <= j < args.len() implies (#[trigger] args[j]).name
                    != name by {
                    if j > 0 {
                        assert(args[j] == rest[j - 1]);
                    }
                }
            },
        }
    }
}

/// Toggling an argument takes it back where it is given, gives it where it takes no
/// value, and asks for its value otherwise; no other argument is changed.
pub proof fn toggling_changes_one_argument(args: Seq<ArgView>, name: Seq<char>, i: int)
    requires
        0 <= i < args.len(),
    ensures
        ({
            let next = editor::toggled_args(args, name);
            &&& next.len() == args.len()
            &&& !is_arg(args, name, i) ==> next[i] == args[i]
            &&& next[i].name == args[i].name
            &&& next[i].display == args[i].display
            &&& next[i].expects_value == args[i].expects_value
            &&& next[i].default == args[i].default
            &&& is_arg(args, name, i) && args[i].set is Some ==> next[i].set is None
            &&& is_arg(args, name, i) && args[i].set is None && !args[i].expects_value
                ==> next[i].set is Some
            &&& is_arg(args, name, i) && args[i].set is None && args[i].expects_value ==> next[i]
                == args[i]
            &&& is_arg(args, name, i) ==> (editor::asks_value(args, name) <==> args[i].set is None
                && args[i].expects_value)
        }),
{
    lemma_arg_at(args, name);
    if let Some(k) = editor::arg_at(args, name) {
        assert(is_arg(args, name, k));
        if is_arg(args, name, i) {
            assert(k == i);
        }
    }
}

/// A value is given to the argument it was asked for, and to no other.
pub proof fn values_go_to_their_argument(
    args: Seq<ArgView>,
    name: Seq<char>,
    value: Seq<char>,
    i: int,
)
    requires
        0 <= i < args.len(),
    ensures
        ({
            let next = editor::given_value(args, name, value);
            &&& next.len() == args.len()
            &&& !is_arg(args, name, i) ==> next[i] == args[i]
            &&& is_arg(args, name, i) && args[i].expects_value ==> next[i].set == Some(value)
            &&& is_arg(args, name, i) && !args[i].expects_value ==> next[i].set is Some
            &&& next[i].name == args[i].name
            &&& next[i].expects_value == args[i].expects_value
        }),
{
    lemma_arg_at(args, name);
    if let Some(k) = editor::arg_at(args, name) {
        assert(is_arg(args, name, k));
        if is_arg(args, name, i) {
            assert(k == i);
        }
    }
}

/// How much context is shown can be answered by a number of lines, or by asking for whole
/// functions; three lines are what git shows by itself, and nothing else is an answer.
pub proof fn context_is_answered_by_a_number(answer: Seq<char>, i: int)
    ensures
        editor::flag_for("W"@) == Some(Some("-W"@)),
        editor::flag_for("w"@) == Some(Some("-W"@)),
        editor::flag_for("3"@) == Some(None::<Seq<char>>),
        answer != "3"@ && answer.len() > 0 && (forall|k: int|
            0 <= k < answer.len() ==> '0' <= #[trigger] answer[k] <= '9') ==> editor::flag_for(
            answer,
        ) == Some(Some("-U"@ + answer)),
        answer != "W"@ && answer != "w"@ && 0 <= i < answer.len() && !('0' <= answer[i] <= '9')
            ==> editor::flag_for(answer) is None,
        editor::flag_for(seq![]) is None,
{
    reveal_strlit("W");
    reveal_strlit("w");
    reveal_strlit("3");
    assert("W"@[0] == 'W' && "w"@[0] == 'w' && "3"@[0] == '3');
    assert("3"@.len() == 1 && "W"@.len() == 1 && "w"@.len() == 1);
    if answer.len() > 0 && (forall|k: int|
        0 <= k < answer.len() ==> '0' <= #[trigger] answer[k] <= '9') {
        assert('0' <= answer[0] <= '9');
        assert(editor::is_count(answer));
    }
    if 0 <= i < answer.len() && !('0' <= answer[i] <= '9') {
        assert(!editor::is_digit(answer[i]));
        if answer == "3"@ {
            assert(answer[0] == '3');
        }
    }
}

/// What is offered as the answer is what is shown now.
pub proof fn the_answer_offered_is_what_is_shown(count: Seq<char>)
    requires
        count.len() > 0,
        '0' <= count[0] <= '9',
    ensures
        editor::answer_for(Some("-U"@ + count)) == count,
        editor::answer_for(Some("-W"@)) == "W"@,
        editor::answer_for(None) == "3"@,
{
    reveal_strlit("-U");
    reveal_strlit("-W");
    let flag = "-U"@ + count;
    assert(flag[0] == '-' && flag[1] == 'U');
    assert(flag.skip(2) =~= count);
    assert("-W"@[1] == 'W');
    assert(flag[1] != "-W"@[1]);
    assert(editor::without_flag(count) == count);
    assert(editor::without_flag(flag) == editor::without_flag(flag.skip(2)));
}

/// Choosing a feature takes it out where it is chosen, wherever it stands, and else puts
/// it behind the others; the others keep their order.
pub proof fn choosing_changes_one_feature(features: Seq<Seq<char>>, feature: Seq<char>)
    ensures
        features.contains(feature) ==> editor::toggled_feature(features, feature)
            == features.filter(|f: Seq<char>| f != feature),
        !features.contains(feature) ==> editor::toggled_feature(features, feature)
            == features.push(feature),
{
    lemma_dropped(features, feature);
}

proof fn lemma_dropped(features: Seq<Seq<char>>, feature: Seq<char>)
    ensures
        editor::dropped(features, feature) == features.filter(|f: Seq<char>| f != feature),
    decreases features.len(),
{
    reveal(Seq::filter);
    if features.len() > 0 {
        lemma_dropped(features.drop_last(), feature);
    }
}

/// Every feature is offered, marked where it is chosen.
pub proof fn chosen_features_are_marked(offered: Seq<Seq<char>>, held: Seq<Seq<char>>, i: int)
    requires
        0 <= i < offered.len(),
    ensures
        editor::offered_choices(offered, held).len() == offered.len(),
        editor::offered_choices(offered, held)[i].1 == offered[i],
        held.contains(offered[i]) ==> editor::offered_choices(offered, held)[i].0 == "● "@
            + offered[i],
        !held.contains(offered[i]) ==> editor::offered_choices(offered, held)[i].0 == "  "@
            + offered[i],
{
}

/// Amending is committing with what was committed, and extending is amending without
/// asking for the message.
pub proof fn commits_build_on_each_other()
    ensures
        commit::commit_words(CommitKind::Commit) == seq!["commit"@],
        commit::commit_words(CommitKind::Amend) == commit::commit_words(CommitKind::Commit).push(
            "--amend"@,
        ),
        commit::commit_words(CommitKind::Extend) == commit::commit_words(CommitKind::Amend).push(
            "--no-edit"@,
        ),
{
    assert(commit::commit_words(CommitKind::Amend) =~= seq!["commit"@].push("--amend"@));
    assert(commit::commit_words(CommitKind::Extend) =~= seq!["commit"@, "--amend"@].push(
        "--no-edit"@,
    ));
}

/// A fixup is squashed by a rebase onto the parent of what it fixes up, with nothing to
/// edit on the way.
pub proof fn fixups_are_squashed_onto_the_parent(rev: Seq<char>)
    ensures
        ({
            let words = commit::autosquash_words(rev);
            &&& words.len() == 7
            &&& words[0] == "rebase"@
            &&& words[1] == "-i"@
            &&& words.contains("--autosquash"@)
            &&& words.contains("--autostash"@)
            &&& words.contains("--keep-empty"@)
            &&& words.contains("-q"@)
            &&& words.last() == rev + seq!['^']
        }),
{
    let words = commit::autosquash_words(rev);
    assert(words[2] == "-q"@ && words[3] == "--autostash"@ && words[4] == "--keep-empty"@);
    assert(words[5] == "--autosquash"@);
    assert(words.last() =~= rev + seq!['^']);
}

/// Commits can be picked from a log in the order it shows them, each by its name and what
/// it says, and nothing else can.
pub proof fn every_commit_can_be_picked(log: Seq<Item>, i: int)
    ensures
        forall|k: int|
            0 <= k < commit::pickable(log).len() ==> {
                let choice = #[trigger] commit::pickable(log)[k];
                &&& 0 <= choice.2 < log.len()
                &&& log[choice.2].data@ is Commit
                &&& choice.1 == log[choice.2].data@->Commit_oid
                &&& choice.0 == log[choice.2].data@->short_id + seq![' ']
                    + log[choice.2].data@->Commit_summary
            },
        forall|k: int, l: int|
            0 <= k < l < commit::pickable(log).len() ==> (#[trigger] commit::pickable(log)[k]).2 < (
            #[trigger] commit::pickable(log)[l]).2,
        0 <= i < log.len() && log[i].data@ is Commit ==> exists|k: int|
            0 <= k < commit::pickable(log).len() && (#[trigger] commit::pickable(log)[k]).2 == i,
    decreases log.len(),
{
    if log.len() > 0 {
        let front = log.drop_last();
        let n = log.len() - 1;
        every_commit_can_be_picked(front, i);
        let before = commit::pickable(front);
        let all = commit::pickable(log);
        assert(log.last() == log[n]);
        assert forall|k: int| 0 <= k < all.len() implies {
            let choice = #[trigger] all[k];
            &&& 0 <= choice.2 < log.len()
            &&& log[choice.2].data@ is Commit
            &&& choice.1 == log[choice.2].data@->Commit_oid
            &&& choice.0 == log[choice.2].data@->short_id + seq![' ']
                + log[choice.2].data@->Commit_summary
        } by {
            if k < before.len() {
                assert(all[k] == before[k]);
                assert(front[before[k].2] == log[before[k].2]);
            } else {
                assert(all[k].0 =~= log[n].data@->short_id + seq![' ']
                    + log[n].data@->Commit_summary);
            }
        }
        assert forall|k: int, l: int| 0 <= k < l < all.len() implies (#[trigger] all[k]).2 < (
        #[trigger] all[l]).2 by {
            assert(all[k] == before[k]);
            if l < before.len() {
                assert(all[l] == before[l]);
            }
        }
        if 0 <= i < log.len() && log[i].data@ is Commit {
            if i < n {
                assert(front[i] == log[i]);
                let k = choose|k: int| 0 <= k < before.len() && (#[trigger] before[k]).2 == i;
                assert(all[k] == before[k]);
            } else {
                assert(all[before.len() as int].2 == i);
            }
        }
    }
}

/// What can be done with a rebase list says what it does.
pub proof fn list_commands_say_what_they_do(offset: isize)
    ensures
        offset < 0 ==> rebase::label(TodoOp::MoveEntry(offset)) == "Move up"@,
        offset >= 0 ==> rebase::label(TodoOp::MoveEntry(offset)) == "Move down"@,
        rebase::label(TodoOp::Start) == "Start rebase"@,
{
}

// ---------------------------------------------------------------------------
// More of screens
// ---------------------------------------------------------------------------

/// What is folded at first is what was configured and what asks for it itself.
pub proof fn rows_start_folded_where_asked(sections: Seq<u64>, items: Seq<ItemRow>, id: u64)
    ensures
        sections.contains(id) ==> screen_nav::initially_collapsed(sections, items).contains(id),
        (exists|i: int|
            0 <= i < items.len() && (#[trigger] items[i]).default_collapsed && items[i].id == id)
            ==> screen_nav::initially_collapsed(sections, items).contains(id),
        !sections.contains(id) && (forall|i: int|
            0 <= i < items.len() && (#[trigger] items[i]).id == id ==> !items[i].default_collapsed)
            ==> !screen_nav::initially_collapsed(sections, items).contains(id),
{
}

/// A row matches where anything that is drawn of it does, which is less where it is
/// folded.
pub proof fn rows_match_by_what_is_drawn(
    matcher: Matcher,
    items: Seq<Item>,
    layouts: Seq<ItemLayout>,
    collapsed: Set<u64>,
    i: int,
    k: int,
)
    ensures
        ({
            let runs = screen_search::runs_of(items, layouts, collapsed, i);
            let folded = i + 1 < items.len() && items[i + 1].depth > items[i].depth
                && collapsed.contains(items[i].id);
            &&& folded ==> runs == layouts[i].shut.runs@
            &&& !folded ==> runs == layouts[i].open.runs@
            &&& 0 <= k < runs.len() && matcher.finds(runs[k]@) ==> screen_search::row_matches(
                matcher,
                runs,
            )
            &&& screen_search::row_matches(matcher, runs) ==> exists|j: int|
                0 <= j < runs.len() && matcher.finds((#[trigger] runs[j])@)
        }),
{
}

/// Revealing a row unfolds what hides it, and nothing that doesn't.
pub proof fn revealing_unfolds_what_hides(f: Frame, items: Seq<Item>, i: int, a: int)
    ensures
        f.hides(a, i) ==> screen_search::hiding_ids(f, items, i).contains(items[a].id),
        (forall|b: int| #[trigger] f.hides(b, i) ==> items[b].id != items[a].id)
            ==> !screen_search::hiding_ids(f, items, i).contains(items[a].id),
{
}

/// A cell of a link leads where the whole link does.
pub proof fn cells_lead_where_the_link_does(parts: Seq<Seq<char>>, uri: Seq<char>, width: nat, i: int)
    requires
        0 <= i < parts.len(),
        i < width,
    ensures
        ui::cells_of(parts, uri, width as int).len() == (if parts.len() < width {
            parts.len()
        } else {
            width
        }),
        ui::cells_of(parts, uri, width as int)[i] == ui::link(parts[i], uri),
{
}

/// Repeating some characters fills a width with them, over and over, and cuts the last
/// time short.
pub proof fn repeating_fills_the_width(parts: Seq<Seq<char>>, count: nat)
    requires
        parts.len() > 0,
    ensures
        ui::repeated(parts, count).flatten() == over_and_over(parts, count).flatten(),
    decreases count,
{
    let n = parts.len();
    let all = ui::repeated(parts, count);
    if count == 0 {
        assert(over_and_over(parts, count) =~= Seq::<Seq<char>>::empty());
        assert(all =~= Seq::<Seq<char>>::empty());
    } else if count < n {
        assert forall|i: int| 0 <= i < count implies #[trigger] over_and_over(parts, count)[i]
            == parts[i] by {
            vstd::arithmetic::div_mod::lemma_small_mod(i as nat, n);
        }
        assert(over_and_over(parts, count) =~= parts.take(count as int));
        let cut = parts.take(count as int).flatten();
        lemma_flatten_one(cut);
        assert(all == seq![cut]);
    } else {
        let rest = (count - n) as nat;
        repeating_fills_the_width(parts, rest);
        assert forall|i: int| 0 <= i < n implies #[trigger] over_and_over(parts, count)[i]
            == parts[i] by {
            vstd::arithmetic::div_mod::lemma_small_mod(i as nat, n);
        }
        assert forall|i: int| 0 <= i < rest implies #[trigger] over_and_over(parts, rest)[i]
            == over_and_over(parts, count)[i + n] by {
            vstd::arithmetic::div_mod::lemma_mod_add_multiples_vanish(i, n as int);
        }
        assert(over_and_over(parts, count) =~= parts + over_and_over(parts, rest));
        lemma_flatten_both(parts, over_and_over(parts, rest));
        let once = seq![parts.flatten()];
        let more = ui::repeated(parts, rest);
        lemma_flatten_both(once, more);
        lemma_flatten_one(parts.flatten());
        assert(all == once + more);
    }
}

/// Some parts, over and over.
pub open spec fn over_and_over(parts: Seq<Seq<char>>, count: nat) -> Seq<Seq<char>> {
    Seq::new(count, |i: int| parts[i % (parts.len() as int)])
}

proof fn lemma_flatten_one(s: Seq<char>)
    ensures
        seq![s].flatten() == s,
{
    seq![s].lemma_flatten_singleton();
}

proof fn lemma_flatten_both(a: Seq<Seq<char>>, b: Seq<Seq<char>>)
    ensures
        (a + b).flatten() == a.flatten() + b.flatten(),
    decreases b.len(),
{
    if b.len() == 0 {
        assert(a + b =~= a);
        assert(b.flatten() =~= Seq::<char>::empty());
        assert(a.flatten() + b.flatten() =~= a.flatten());
    } else {
        let front = b.drop_last();
        lemma_flatten_both(a, front);
        assert(a + b =~= (a + front).push(b.last()));
        (a + front).lemma_flatten_push(b.last());
        assert(b =~= front.push(b.last()));
        front.lemma_flatten_push(b.last());
        assert((a.flatten() + front.flatten()) + b.last() =~= a.flatten() + (front.flatten()
            + b.last()));
    }
}

/// A diff is shown as a renderer drew it where it says what it drew, and else as it is.
pub proof fn diffs_are_shown_as_drawn(diff: Diff, diff_id: u64, rendered: Option<Seq<char>>)
    ensures
        rendered is Some && diff_renderer::page_of(
            ansi::events_of(rendered->0),
        ).finished().protocol_version is Some ==> pager::page_diff(diff, diff_id, rendered)
            == diff_items::rendered_files(
            diff,
            diff_id,
            0,
            false,
            None,
            diff_renderer::page_of(ansi::events_of(rendered->0)).finished().lines,
            diff.file_diffs@.len(),
        ),
        rendered is None || diff_renderer::page_of(
            ansi::events_of(rendered->0),
        ).finished().protocol_version is None ==> pager::page_diff(diff, diff_id, rendered)
            == diff_items::first_files(diff, diff_id, 0, false, None, diff.file_diffs@.len()),
{
}

// ---------------------------------------------------------------------------
// What acting on a screen changes
// ---------------------------------------------------------------------------

/// Whether what is acted on is what is selected: where the cursor is on a line of a hunk,
/// every line that a selected row stands for, and no other.
pub open spec fn acts_on_selection(items: Seq<Item>, place: Place, target: Meaning) -> bool {
    let under = items[place.cursor].data@;
    &&& !(under is HunkLine) ==> target == under
    &&& under is HunkLine ==> {
        &&& target is HunkLine
        &&& target.position() == under.position()
        &&& forall|line: usize| #[trigger]
            target->line_indices.contains(line) <==> exists|i: int|
                {
                    &&& place.selects(i)
                    &&& (#[trigger] items[i]).data@ is HunkLine
                    &&& items[i].data@->line_indices.contains(line)
                }
    }
}

/// Whether a selection was grown or shrunk by moving its end: it goes on from where it was
/// started, its end moves the way it is told to, and it stays in one hunk. Else nothing
/// changes.
pub open spec fn selection_moved(
    items: Seq<Item>,
    before: Place,
    after: Place,
    forwards: bool,
) -> bool {
    let start = match before.anchor {
        Some(anchor) => anchor,
        None => before.cursor,
    };
    ||| after == before
    ||| {
        &&& after.anchor == Some(start)
        &&& forwards ==> after.cursor >= before.cursor
        &&& !forwards ==> after.cursor <= before.cursor
        &&& item_data::in_same_hunk(items[start].data@, items[after.cursor].data@)
    }
}

/// Whether only what goes by one name was folded or opened.
pub open spec fn only_toggled(before: Set<u64>, after: Set<u64>, id: u64) -> bool {
    &&& before.contains(id) != after.contains(id)
    &&& forall|other: u64|
        other != id ==> #[trigger] after.contains(other) == before.contains(other)
}

/// Toggling what was toggled is back where it was.
pub proof fn toggling_back_restores(before: Set<u64>, between: Set<u64>, after: Set<u64>, id: u64)
    requires
        only_toggled(before, between, id),
        only_toggled(between, after, id),
    ensures
        after == before,
{
    assert forall|other: u64| after.contains(other) == before.contains(other) by {
        if other != id {
            assert(between.contains(other) == before.contains(other));
        }
    }
    assert(after =~= before);
}

/// A selection that was moved one way and is moved back is no longer than it was.
pub proof fn selections_stay_in_one_hunk(
    items: Seq<Item>,
    before: Place,
    after: Place,
    forwards: bool,
)
    requires
        selection_moved(items, before, after, forwards),
        after != before,
    ensures
        after.selects(after.cursor),
        before.anchor is None ==> after.selects(before.cursor),
        items[after.cursor].data@ is HunkLine,
{
}

/// A screen that changed is put right first, and then the cursor on it.
pub proof fn screens_settle_before_the_cursor(f: Frame, place: Place)
    ensures
        screen_nav::settled(f, place) == f.updated(f.invalidated(place)),
        screen_nav::start_place().cursor == 0,
        screen_nav::start_place().anchor is None,
        screen_nav::start_place().top.item == 0,
        screen_nav::start_place().top.offset == 0,
{
}

/// What was printed is shown by its commits where it names any, and else row by row.
pub proof fn printed_text_is_shown_by_its_commits(
    printed: Printed,
    commits: Seq<Option<CommitRecord>>,
    refs: Seq<(Seq<char>, RefView)>,
    now: int,
)
    ensures
        printed.blocks is Some ==> pager::text_rows(printed, commits, refs, now)
            == rendered_log::rendered_log_rows(
            rendered_log::block_views(printed.blocks->0@),
            commits,
            refs,
            now,
        ),
        printed.blocks is None ==> pager::text_rows(printed, commits, refs, now).len()
            == printed.lines@.len(),
        printed.blocks is None ==> forall|i: int|
            0 <= i < printed.lines@.len() ==> (#[trigger] pager::text_rows(
                printed,
                commits,
                refs,
                now,
            )[i]).rendered == Some(diff_items::spans_of(printed.lines@[i]@)),
{
}

/// A patch whose first line names no commit, or names it by something else, names none.
pub proof fn other_patches_name_no_commit(patch: Seq<char>)
    ensures
        !"commit "@.is_prefix_of(text::first_line(patch)) ==> pager::commit_of(patch) is None,
        pager::commit_of(patch) matches Some(hash) ==> "commit "@.is_prefix_of(
            text::first_line(patch),
        ) && forall|i: int|
            0 <= i < hash.len() ==> '0' <= #[trigger] hash[i] <= '9' || 'a' <= hash[i] <= 'f'
                || 'A' <= hash[i] <= 'F',
{
    if let Some(hash) = pager::commit_of(patch) {
        assert forall|i: int| 0 <= i < hash.len() implies '0' <= #[trigger] hash[i] <= '9' || 'a'
            <= hash[i] <= 'f' || 'A' <= hash[i] <= 'F' by {
            assert(pager::is_hex(hash[i]));
        }
    }
}

/// Keys that are sent are keys that are pressed, in their order.
pub proof fn sent_keys_are_pressed(keys: Seq<(Modifiers, KeyCode)>, i: int)
    requires
        0 <= i < keys.len(),
    ensures
        text_input::presses(keys).len() == keys.len(),
        text_input::presses(keys)[i].kind == KeyKind::Press,
        text_input::presses(keys)[i].modifiers == keys[i].0,
        text_input::presses(keys)[i].code == keys[i].1,
{
}

/// Motions say where they go.
pub proof fn motions_say_where_they_go(line: usize)
    ensures
        editor::motion_label(Motion::Up) == "Up"@,
        editor::motion_label(Motion::Down) == "Down"@,
        editor::motion_label(Motion::UpLine) == "Up line"@,
        editor::motion_label(Motion::DownLine) == "Down line"@,
        editor::motion_label(Motion::NextSection) == "Next section"@,
        editor::motion_label(Motion::PrevSection) == "Prev section"@,
        editor::motion_label(Motion::ParentSection) == "Parent section"@,
        editor::motion_label(Motion::HalfPageUp) == "Scroll half page up"@,
        editor::motion_label(Motion::HalfPageDown) == "Scroll half page down"@,
        editor::motion_label(Motion::FullPageUp) == "Scroll page up"@,
        editor::motion_label(Motion::FullPageDown) == "Scroll page down"@,
        editor::motion_label(Motion::ScrollViewUp) == "Scroll view up"@,
        editor::motion_label(Motion::ScrollViewDown) == "Scroll view down"@,
        editor::motion_label(Motion::Top) == "Top"@,
        editor::motion_label(Motion::Bottom) == "Bottom"@,
        editor::motion_label(Motion::ToScreenLine(line)) == "Move to line"@,
{
}

/// A commit can be asked to do more than it does, but isn't unless it is said.
pub proof fn commits_do_no_more_than_asked()
    ensures
        commit::commit_flags().map_values(|flag: (Seq<char>, Seq<char>, bool)| flag.0) == seq![
            "--all"@,
            "--allow-empty"@,
            "--verbose"@,
            "--no-verify"@,
            "--reset-author"@,
            "--signoff"@,
        ],
        forall|i: int|
            0 <= i < commit::commit_flags().len() ==> !(#[trigger] commit::commit_flags()[i]).2,
{
    assert(commit::commit_flags().map_values(|flag: (Seq<char>, Seq<char>, bool)| flag.0)
        =~= seq![
        "--all"@,
        "--allow-empty"@,
        "--verbose"@,
        "--no-verify"@,
        "--reset-author"@,
        "--signoff"@,
    ]);
}

} // verus!
