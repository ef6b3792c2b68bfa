//! Searching a screen, as `/`, `n` and `N` do in vim.

use crate::frame;
use crate::frame::Frame;
use crate::item::Item;
use crate::item_data;
use crate::place::Place;
use crate::screen;
use crate::screen::{ItemLayout, Matcher, Screen, Search, SearchDirection};
use crate::text;
use regex::RegexBuilder;
use vstd::prelude::*;

verus! {

broadcast use vstd::std_specs::hash::group_hash_axioms;

/// What can go wrong with a search.
#[derive(Debug, PartialEq, Eq)]
pub enum SearchError {
    /// The query is not a regex, and what is wrong with it.
    InvalidSearchRegex(String),
    /// Nothing matches the query.
    NoSearchMatch(String),
    /// There is no search to repeat.
    NoPreviousSearch,
}

/// Whether a character is an uppercase one.
pub uninterp spec fn is_upper(c: char) -> bool;

/// `char::is_uppercase`: which characters are uppercase goes by its name.
pub assume_specification[ char::is_uppercase ](c: char) -> (is: bool)
    ensures
        is == is_upper(c),
;

/// Whether a query asks for a case of its own: whether there is any uppercase in
/// it that no backslash stands in front of.
pub open spec fn asks_case(query: Seq<char>) -> bool
    decreases query.len(),
{
    if query.len() == 0 {
        false
    } else if query[0] == '\\' {
        query.len() > 1 && asks_case(query.skip(2))
    } else {
        is_upper(query[0]) || asks_case(query.drop_first())
    }
}

/// Whether the query asks for a case of its own. Skips e.g. `\W`, `\S`.
pub fn has_uppercase(query: &str) -> (has: bool)
    ensures
        has == asks_case(query@),
{
    let chars = text::to_chars(query);
    let mut i: usize = 0;
    proof {
        assert(query@.skip(0) =~= query@);
    }
    while i < chars.len()
        invariant
            i <= chars@.len(),
            chars@ == query@,
            asks_case(query@.skip(i as int)) == asks_case(query@),
        decreases chars@.len() - i,
    {
        let ghost rest = query@.skip(i as int);
        let c = chars[i];
        if c == '\\' {
            if chars.len() - i < 2 {
                return false;
            }
            proof {
                assert(rest.skip(2) =~= query@.skip(i + 2));
            }
            i += 2;
        } else {
            if c.is_uppercase() {
                return true;
            }
            proof {
                assert(rest.drop_first() =~= query@.skip(i + 1));
            }
            i += 1;
        }
    }
    false
}

/// What is wrong with a pattern, if anything is.
pub uninterp spec fn regex_error(pattern: Seq<char>, case_insensitive: bool) -> Option<Seq<char>>;

/// Whether a pattern is a regex.
pub open spec fn is_regex(pattern: Seq<char>, case_insensitive: bool) -> bool {
    regex_error(pattern, case_insensitive) is None
}

/// Whether a regex is found in a text.
pub uninterp spec fn regex_found(pattern: Seq<char>, case_insensitive: bool, text: Seq<char>) -> bool;

/// `regex::RegexBuilder::build`: what it has to say about a pattern that doesn't
/// compile goes by its name; about one that does it says nothing.
#[verifier::external_body]
fn regex_complaint(pattern: &str, case_insensitive: bool) -> (complaint: Option<String>)
    ensures
        item_data::maybe_text(complaint) == regex_error(pattern@, case_insensitive),
{
    let built = RegexBuilder::new(pattern).case_insensitive(case_insensitive).build();
    built.err().map(|error| error.to_string())
}

/// `regex::Regex::is_match`: whether a pattern is found in a text goes by its
/// name. A pattern that doesn't compile is not looked for.
#[verifier::external_body]
fn regex_is_match(pattern: &str, case_insensitive: bool, text: &str) -> (found: bool)
    ensures
        is_regex(pattern@, case_insensitive) ==> found == regex_found(
            pattern@,
            case_insensitive,
            text@,
        ),
        !is_regex(pattern@, case_insensitive) ==> !found,
{
    match RegexBuilder::new(pattern).case_insensitive(case_insensitive).build() {
        Ok(regex) => regex.is_match(text),
        Err(_) => false,
    }
}

impl Matcher {
    /// A matcher's pattern compiles.
    pub open spec fn wf(&self) -> bool {
        is_regex(self.pattern@, self.case_insensitive)
    }

    /// Whether there is something to find in a text.
    pub open spec fn finds(&self, text: Seq<char>) -> bool {
        &&& is_regex(self.pattern@, self.case_insensitive)
        &&& regex_found(self.pattern@, self.case_insensitive, text)
    }

    pub fn is_match(&self, text: &str) -> (found: bool)
        ensures
            found == self.finds(text@),
    {
        regex_is_match(self.pattern.as_str(), self.case_insensitive, text)
    }
}

impl Clone for Matcher {
    fn clone(&self) -> (copy: Matcher)
        ensures
            copy == *self,
    {
        Matcher { pattern: self.pattern.clone(), case_insensitive: self.case_insensitive }
    }
}

/// Compiles `query` as a regex, ignoring case unless the query has uppercase in
/// it.
pub fn matcher(query: &str) -> (matcher: Result<Matcher, SearchError>)
    ensures
        match matcher {
            Ok(matcher) => is_regex(query@, !asks_case(query@)) && matcher.pattern@ == query@
                && matcher.case_insensitive == !asks_case(query@),
            Err(error) => {
                &&& error matches SearchError::InvalidSearchRegex(complaint)
                &&& regex_error(query@, !asks_case(query@)) == Some(complaint@)
            },
        },
{
    let case_insensitive = !has_uppercase(query);
    matcher_for(query, case_insensitive, regex_complaint(query, case_insensitive))
}

/// The matcher for a query, or what was wrong with it.
pub fn matcher_for(query: &str, case_insensitive: bool, complaint: Option<String>) -> (matcher:
    Result<Matcher, SearchError>)
    ensures
        match matcher {
            Ok(matcher) => complaint is None && matcher.pattern@ == query@
                && matcher.case_insensitive == case_insensitive,
            Err(error) => complaint is Some && error == SearchError::InvalidSearchRegex(
                complaint->0,
            ),
        },
{
    match complaint {
        None => Ok(Matcher { pattern: query.to_owned(), case_insensitive }),
        Some(complaint) => Err(SearchError::InvalidSearchRegex(complaint)),
    }
}

impl SearchDirection {
    pub fn reverse(self) -> (other: SearchDirection)
        ensures
            other != self,
    {
        match self {
            SearchDirection::Forward => SearchDirection::Backward,
            SearchDirection::Backward => SearchDirection::Forward,
        }
    }
}

/// The first row from `i` on that matches.
pub open spec fn first_hit(hits: Seq<bool>, i: int) -> Option<int>
    decreases hits.len() - i,
{
    if i >= hits.len() {
        None
    } else if hits[i] {
        Some(i)
    } else {
        first_hit(hits, i + 1)
    }
}

/// The last row before `i` that matches.
pub open spec fn last_hit(hits: Seq<bool>, i: int) -> Option<int>
    decreases i,
{
    if i <= 0 {
        None
    } else if hits[i - 1] {
        Some(i - 1)
    } else {
        last_hit(hits, i - 1)
    }
}

/// The nearest match from the cursor, wrapping around the ends.
pub open spec fn nearest_hit(hits: Seq<bool>, cursor: int, direction: SearchDirection) -> Option<
    int,
> {
    match direction {
        SearchDirection::Forward => match first_hit(hits, cursor + 1) {
            Some(i) => Some(i),
            None => first_hit(hits, 0),
        },
        SearchDirection::Backward => match last_hit(hits, cursor) {
            Some(i) => Some(i),
            None => last_hit(hits, hits.len() as int),
        },
    }
}

/// The first hit is one, and there is none before it.
pub proof fn first_hit_is_first(hits: Seq<bool>, i: int)
    requires
        0 <= i,
    ensures
        match first_hit(hits, i) {
            Some(j) => i <= j < hits.len() && hits[j] && forall|k: int| i <= k < j ==> !hits[k],
            None => forall|k: int| i <= k < hits.len() ==> !hits[k],
        },
    decreases hits.len() - i,
{
    if i < hits.len() && !hits[i] {
        first_hit_is_first(hits, i + 1);
    }
}

/// The last hit is one, and there is none after it.
pub proof fn last_hit_is_last(hits: Seq<bool>, i: int)
    requires
        i <= hits.len(),
    ensures
        match last_hit(hits, i) {
            Some(j) => 0 <= j < i && hits[j] && forall|k: int| j < k < i ==> !hits[k],
            None => forall|k: int| 0 <= k < i ==> !hits[k],
        },
    decreases i,
{
    if i > 0 && !hits[i - 1] {
        last_hit_is_last(hits, i - 1);
    }
}

/// A search finds something exactly when there is anything to find, whichever
/// way it goes.
pub proof fn nearest_hit_exists(hits: Seq<bool>, cursor: int, direction: SearchDirection)
    requires
        0 <= cursor < hits.len(),
    ensures
        nearest_hit(hits, cursor, direction) is Some <==> exists|i: int|
            0 <= i < hits.len() && hits[i],
        nearest_hit(hits, cursor, direction) matches Some(i) ==> 0 <= i < hits.len() && hits[i],
{
    first_hit_is_first(hits, cursor + 1);
    first_hit_is_first(hits, 0);
    last_hit_is_last(hits, cursor);
    last_hit_is_last(hits, hits.len() as int);
}

/// Going to the next match and back again is where one was, from a match: either way
/// around, past the ends too.
pub proof fn searching_back_returns(hits: Seq<bool>, cursor: int)
    requires
        0 <= cursor < hits.len(),
        hits[cursor],
    ensures
        nearest_hit(hits, cursor, SearchDirection::Forward) matches Some(next) && nearest_hit(
            hits,
            next,
            SearchDirection::Backward,
        ) == Some(cursor),
        nearest_hit(hits, cursor, SearchDirection::Backward) matches Some(previous)
            && nearest_hit(hits, previous, SearchDirection::Forward) == Some(cursor),
{
    let count = hits.len() as int;
    first_hit_is_first(hits, cursor + 1);
    first_hit_is_first(hits, 0);
    last_hit_is_last(hits, cursor);
    last_hit_is_last(hits, count);
    let next = nearest_hit(hits, cursor, SearchDirection::Forward)->0;
    let previous = nearest_hit(hits, cursor, SearchDirection::Backward)->0;
    last_hit_is_last(hits, next);
    first_hit_is_first(hits, previous + 1);
}

fn find_first(hits: &Vec<bool>, from: usize) -> (hit: Option<usize>)
    ensures
        screen::index_view(hit) == first_hit(hits@, from as int),
{
    let mut i: usize = from;
    while i < hits.len()
        invariant
            from <= i,
            first_hit(hits@, i as int) == first_hit(hits@, from as int),
        decreases hits@.len() - i,
    {
        if hits[i] {
            return Some(i);
        }
        i += 1;
    }
    None
}

fn find_last(hits: &Vec<bool>, before: usize) -> (hit: Option<usize>)
    requires
        before <= hits@.len(),
    ensures
        screen::index_view(hit) == last_hit(hits@, before as int),
{
    let mut i: usize = before;
    while i > 0
        invariant
            i <= before <= hits@.len(),
            last_hit(hits@, i as int) == last_hit(hits@, before as int),
        decreases i,
    {
        if hits[i - 1] {
            return Some(i - 1);
        }
        i -= 1;
    }
    None
}

/// The nearest match from the cursor, wrapping around the ends, given which rows
/// match.
pub fn find_hit(hits: &Vec<bool>, cursor: usize, direction: SearchDirection) -> (hit: Option<usize>)
    requires
        cursor < hits@.len(),
    ensures
        screen::index_view(hit) == nearest_hit(hits@, cursor as int, direction),
        hit matches Some(i) ==> i < hits@.len(),
{
    let count = hits.len();
    proof {
        nearest_hit_exists(hits@, cursor as int, direction);
    }
    match direction {
        SearchDirection::Forward => match find_first(hits, cursor + 1) {
            Some(i) => Some(i),
            None => find_first(hits, 0),
        },
        SearchDirection::Backward => match find_last(hits, cursor) {
            Some(i) => Some(i),
            None => find_last(hits, count),
        },
    }
}

/// The runs of text a row is laid out as.
pub open spec fn runs_of(
    items: Seq<Item>,
    layouts: Seq<ItemLayout>,
    collapsed: Set<u64>,
    i: int,
) -> Seq<String> {
    if screen::has_children(items, i) && collapsed.contains(items[i].id) {
        layouts[i].shut.runs@
    } else {
        layouts[i].open.runs@
    }
}

/// Whether a matcher finds something on a row.
pub open spec fn row_matches(matcher: Matcher, runs: Seq<String>) -> bool {
    exists|k: int| 0 <= k < runs.len() && matcher.finds((#[trigger] runs[k])@)
}

/// The ids of everything that hides a row.
pub open spec fn hiding_ids(f: Frame, items: Seq<Item>, i: int) -> Set<u64> {
    Set::new(|id: u64| exists|a: int| #[trigger] f.hides(a, i) && items[a].id == id)
}

impl Screen {
    /// Which rows a matcher finds something on.
    pub open spec fn hits(&self, matcher: Matcher) -> Seq<bool> {
        Seq::new(
            self.items@.len(),
            |i: int|
                row_matches(
                    matcher,
                    runs_of(self.items@, self.layouts@, self.collapsed@, i),
                ),
        )
    }

    /// Whether a matcher finds something on a row.
    fn item_matches(&self, item_i: usize, matcher: &Matcher) -> (found: bool)
        requires
            item_i < self.items@.len(),
            self.layouts@.len() == self.items@.len(),
        ensures
            found == self.hits(*matcher)[item_i as int],
    {
        let item = &self.items[item_i];
        let count = self.items.len();
        let has_children = item_i + 1 < count && self.items[item_i + 1].depth > item.depth;
        let runs = if has_children && self.is_collapsed(item) {
            &self.layouts[item_i].shut.runs
        } else {
            &self.layouts[item_i].open.runs
        };
        let mut k: usize = 0;
        while k < runs.len()
            invariant
                k <= runs@.len(),
                item_i < self.items@.len(),
                runs@ == runs_of(self.items@, self.layouts@, self.collapsed@, item_i as int),
                forall|j: int| 0 <= j < k ==> !matcher.finds((#[trigger] runs@[j])@),
            decreases runs@.len() - k,
        {
            if matcher.is_match(runs[k].as_str()) {
                return true;
            }
            k += 1;
        }
        false
    }

    /// The nearest match from the cursor, wrapping around the ends.
    fn find_match(&self, matcher: &Matcher, direction: SearchDirection) -> (item: Option<usize>)
        requires
            self.wf(),
        ensures
            screen::index_view(item) == nearest_hit(
                self.hits(*matcher),
                self.cursor as int,
                direction,
            ),
            item matches Some(i) ==> i < self.items@.len(),
    {
        let mut hits: Vec<bool> = Vec::new();
        let mut i: usize = 0;
        while i < self.items.len()
            invariant
                i <= self.items@.len(),
                self.layouts@.len() == self.items@.len(),
                hits@ =~= self.hits(*matcher).take(i as int),
            decreases self.items@.len() - i,
        {
            hits.push(self.item_matches(i, matcher));
            i += 1;
        }
        proof {
            assert(hits@ =~= self.hits(*matcher));
        }
        find_hit(&hits, self.cursor, direction)
    }

    /// Opens every section that hides a row.
    pub fn reveal_item(&mut self, item_i: usize)
        requires
            old(self).wf(),
            item_i < old(self).items@.len(),
        ensures
            final(self).wf(),
            final(self).items == old(self).items,
            final(self).layouts == old(self).layouts,
            final(self).size == old(self).size,
            final(self).show_menu == old(self).show_menu,
            final(self).search == old(self).search,
            final(self).collapsed@ == old(self).collapsed@.difference(
                hiding_ids(old(self).frame(), old(self).items@, item_i as int),
            ),
            final(self).frame().visible(item_i as int),
            final(self).place() == (Place {
                top: final(self).frame().clamped(old(self).place().top),
                ..old(self).place()
            }),
    {
        let ghost f0 = self.frame();
        let ghost i = item_i as int;
        let ghost was = self.collapsed@;
        let ghost gone = hiding_ids(f0, self.items@, i);
        let mut section = self.hidden_by(item_i, 0);
        let ghost mut below: int = 0;
        proof {
            frame::lemma_hider_from(f0, 0, i, 0);
        }
        while section.is_some()
            invariant
                item_i < self.items@.len(),
                i == item_i,
                self.items == old(self).items,
                self.layouts == old(self).layouts,
                self.size == old(self).size,
                self.show_menu == old(self).show_menu,
                self.search == old(self).search,
                self.cursor == old(self).cursor,
                self.anchor == old(self).anchor,
                self.scroll == old(self).scroll,
                old(self).wf(),
                f0 == old(self).frame(),
                was == old(self).collapsed@,
                gone == hiding_ids(f0, self.items@, i),
                screen::index_view(section) == self.frame().hider(i, 0),
                section matches Some(a) ==> below <= a < item_i,
                0 <= below,
                self.collapsed@.subset_of(was),
                forall|id: u64| #[trigger]
                    was.contains(id) && !self.collapsed@.contains(id) ==> gone.contains(id),
            decreases
                    (match section {
                        Some(a) => i - a,
                        None => 0,
                    }),
        {
            let a = section.unwrap();
            let id = self.items[a].id;
            let ghost f1 = self.frame();
            proof {
                frame::lemma_hider_from(f1, 0, i, 0);
                assert(f1.hides(a as int, i));
                assert(f0.hides(a as int, i)) by {
                    assert forall|k: int| a < k <= i implies (#[trigger] f0.rows[k]).depth
                        > f0.rows[a as int].depth by {
                        assert(f1.rows[k].depth > f1.rows[a as int].depth);
                    }
                }
                assert(gone.contains(id));
            }
            self.collapsed.remove(&id);
            section = self.hidden_by(item_i, 0);
            proof {
                let f2 = self.frame();
                frame::lemma_hider_from(f2, 0, i, 0);
                if let Some(b) = section {
                    // What still hides the row hid it before, and nothing further
                    // out than what was opened did.
                    assert(f2.hides_above(b as int, i, 0));
                    assert(f1.hides_above(b as int, i, 0)) by {
                        assert forall|k: int| b < k <= i implies (#[trigger] f1.rows[k]).depth
                            > f1.rows[b as int].depth && f1.rows[k].depth > 0 by {
                            assert(f2.rows[k].depth > f2.rows[b as int].depth);
                        }
                    }
                    if b < a {
                        assert(!f1.hides_above(b as int, i, 0));
                    }
                    assert(b != a);
                    below = b as int;
                }
            }
        }
        proof {
            let f = self.frame();
            frame::visible_iff_unhidden(f, i);
            assert(self.collapsed@ =~= was.difference(gone)) by {
                assert forall|id: u64| #[trigger]
                    self.collapsed@.contains(id) <==> was.difference(gone).contains(id) by {
                    if self.collapsed@.contains(id) && gone.contains(id) {
                        let a = choose|a: int| #[trigger]
                            f0.hides(a, i) && self.items@[a].id == id;
                        assert(f.hides(a, i)) by {
                            assert forall|k: int| a < k <= i implies (#[trigger] f.rows[k]).depth
                                > f.rows[a].depth by {
                                assert(f0.rows[k].depth > f0.rows[a].depth);
                            }
                        }
                    }
                }
            }
        }
        self.clamp_scroll();
    }

    fn scroll_to_cursor(&mut self)
        requires
            old(self).wf(),
        ensures
            final(self).wf(),
            final(self).same_content(old(self)),
            final(self).place() == old(self).frame().scrolled_to_cursor(old(self).place()),
    {
        if self.is_cursor_off_screen() {
            self.center_on_cursor();
        }
        self.scroll_fit_end();
        self.scroll_fit_start();
    }

    /// Whether a match was found, in which case the cursor is on it, and it is in
    /// sight.
    pub fn move_to_match(&mut self, matcher: &Matcher, direction: SearchDirection) -> (found: bool)
        requires
            old(self).wf(),
        ensures
            final(self).wf(),
            final(self).items == old(self).items,
            final(self).layouts == old(self).layouts,
            final(self).size == old(self).size,
            final(self).show_menu == old(self).show_menu,
            final(self).search == old(self).search,
            found == (nearest_hit(
                old(self).hits(*matcher),
                old(self).cursor as int,
                direction,
            ) is Some),
            match nearest_hit(old(self).hits(*matcher), old(self).cursor as int, direction) {
                Some(item) => {
                    &&& final(self).cursor == item
                    &&& final(self).frame().visible(item)
                    &&& final(self).collapsed@ == old(self).collapsed@.difference(
                        hiding_ids(old(self).frame(), old(self).items@, item),
                    )
                    &&& final(self).place() == final(self).frame().scrolled_to_cursor(
                        (Place {
                            cursor: item,
                            top: final(self).frame().clamped(old(self).place().top),
                            ..old(self).place()
                        }),
                    )
                },
                None => final(self).collapsed@ == old(self).collapsed@ && final(self).place()
                    == old(self).place(),
            },
    {
        match self.find_match(matcher, direction) {
            Some(item_i) => {
                self.reveal_item(item_i);
                self.cursor = item_i;
                self.scroll_to_cursor();
                true
            },
            None => false,
        }
    }

    /// Moves the cursor to the nearest item whose text `query` matches, looking
    /// in `direction` and wrapping around the ends. `query` is a regex, matched
    /// ignoring case unless it has uppercase in it.
    pub fn search(&mut self, query: &str, direction: SearchDirection) -> (outcome: Result<
        (),
        SearchError,
    >)
        requires
            old(self).wf(),
        ensures
            final(self).wf(),
            final(self).items == old(self).items,
            final(self).layouts == old(self).layouts,
            final(self).size == old(self).size,
            final(self).show_menu == old(self).show_menu,
            outcome matches Err(SearchError::InvalidSearchRegex(_)) <==> !is_regex(
                query@,
                !asks_case(query@),
            ),
            outcome matches Err(SearchError::InvalidSearchRegex(complaint)) ==> regex_error(
                query@,
                !asks_case(query@),
            ) == Some(complaint@),
            !is_regex(query@, !asks_case(query@)) ==> final(self).search == old(self).search
                && final(self).collapsed@ == old(self).collapsed@ && final(self).place() == old(
                self).place(),
            is_regex(query@, !asks_case(query@)) ==> {
                &&& final(self).search matches Some(search)
                &&& search.query@ == query@
                &&& search.matcher.pattern@ == query@
                &&& search.matcher.case_insensitive == !asks_case(query@)
                &&& search.direction == direction
                &&& ({
                    let hit = nearest_hit(
                        old(self).hits(search.matcher),
                        old(self).cursor as int,
                        direction,
                    );
                    match hit {
                        Some(item) => {
                            &&& outcome is Ok
                            &&& final(self).cursor == item
                            &&& final(self).frame().visible(item)
                            &&& final(self).collapsed@ == old(self).collapsed@.difference(
                                hiding_ids(old(self).frame(), old(self).items@, item),
                            )
                            &&& final(self).place() == final(self).frame().scrolled_to_cursor(
                                (Place {
                                    cursor: item,
                                    top: final(self).frame().clamped(old(self).place().top),
                                    ..old(self).place()
                                }),
                            )
                        },
                        None => {
                            &&& outcome matches Err(SearchError::NoSearchMatch(q)) && q@ == query@
                            &&& final(self).collapsed@ == old(self).collapsed@
                            &&& final(self).place() == old(self).place()
                        },
                    }
                })
            },
    {
        let matcher = match matcher(query) {
            Ok(matcher) => matcher,
            Err(error) => {
                return Err(error);
            },
        };
        let found = self.move_to_match(&matcher, direction);
        // Remembered even when nothing matched, so that `n` retries it.
        self.search = Some(Search { query: query.to_owned(), matcher, direction });
        if found {
            Ok(())
        } else {
            Err(SearchError::NoSearchMatch(query.to_owned()))
        }
    }

    /// Repeats the last search. `reverse` flips its direction, as `N` does in vim.
    pub fn search_repeat(&mut self, reverse: bool) -> (outcome: Result<(), SearchError>)
        requires
            old(self).wf(),
        ensures
            final(self).wf(),
            final(self).items == old(self).items,
            final(self).layouts == old(self).layouts,
            final(self).size == old(self).size,
            final(self).show_menu == old(self).show_menu,
            final(self).search == old(self).search,
            match old(self).search {
                None => {
                    &&& outcome matches Err(SearchError::NoPreviousSearch)
                    &&& final(self).collapsed@ == old(self).collapsed@
                    &&& final(self).place() == old(self).place()
                },
                Some(search) => {
                    let direction = if !reverse {
                        search.direction
                    } else if search.direction is Forward {
                        SearchDirection::Backward
                    } else {
                        SearchDirection::Forward
                    };
                    let hit = nearest_hit(
                        old(self).hits(search.matcher),
                        old(self).cursor as int,
                        direction,
                    );
                    match hit {
                        Some(item) => {
                            &&& outcome is Ok
                            &&& final(self).cursor == item
                            &&& final(self).frame().visible(item)
                            &&& final(self).collapsed@ == old(self).collapsed@.difference(
                                hiding_ids(old(self).frame(), old(self).items@, item),
                            )
                            &&& final(self).place() == final(self).frame().scrolled_to_cursor(
                                (Place {
                                    cursor: item,
                                    top: final(self).frame().clamped(old(self).place().top),
                                    ..old(self).place()
                                }),
                            )
                        },
                        None => {
                            &&& outcome matches Err(SearchError::NoSearchMatch(q)) && q@
                                == search.query@
                            &&& final(self).collapsed@ == old(self).collapsed@
                            &&& final(self).place() == old(self).place()
                        },
                    }
                },
            },
    {
        let (query, matcher, direction) = match &self.search {
            Some(search) => (search.query.clone(), search.matcher.clone(), search.direction),
            None => {
                return Err(SearchError::NoPreviousSearch);
            },
        };
        let direction = if reverse {
            direction.reverse()
        } else {
            direction
        };
        if self.move_to_match(&matcher, direction) {
            Ok(())
        } else {
            Err(SearchError::NoSearchMatch(query))
        }
    }

    pub fn clear_search(&mut self)
        requires
            old(self).wf(),
        ensures
            final(self).wf(),
            *final(self) == (Screen { search: None, ..*old(self) }),
    {
        self.search = None;
    }

    pub fn get_search_matcher(&self) -> (matcher: Option<&Matcher>)
        ensures
            match matcher {
                Some(matcher) => self.search is Some && *matcher == self.search->0.matcher,
                None => self.search is None,
            },
    {
        match &self.search {
            Some(search) => Some(&search.matcher),
            None => None,
        }
    }
}

} // verus!
