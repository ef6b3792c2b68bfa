//! Moving about, folding, and asking git for something else.

use crate::calling_process;
use crate::calling_process::{EditError, GitCommand};
use crate::frame::{Frame, NavMode};
use crate::item_data::{ItemData, Meaning};
use crate::place::Place;
use crate::screen::Screen;
use crate::text;
use vstd::prelude::*;

verus! {

// ---------------------------------------------------------------------------
// Quitting
// ---------------------------------------------------------------------------

/// What quitting does.
#[derive(Debug, Clone, Copy, PartialEq, Eq, Structural)]
pub enum Quit {
    /// Nothing: a menu is open, which is closed instead.
    Nothing,
    /// Close the screen on top.
    CloseScreen,
    /// Ask, and quit if the answer is yes.
    Confirm,
    Quit,
}

/// What quitting does: the last screen is quit from, any other closed.
pub open spec fn quit_step(on_base_menu: bool, screens: int, confirm: bool) -> Quit {
    if !on_base_menu {
        Quit::Nothing
    } else if screens != 1 {
        Quit::CloseScreen
    } else if confirm {
        Quit::Confirm
    } else {
        Quit::Quit
    }
}

/// What quitting does.
pub fn quit(on_base_menu: bool, screens: usize, confirm: bool) -> (step: Quit)
    ensures
        step == quit_step(on_base_menu, screens as int, confirm),
{
    if !on_base_menu {
        Quit::Nothing
    } else if screens != 1 {
        Quit::CloseScreen
    } else if confirm {
        Quit::Confirm
    } else {
        Quit::Quit
    }
}

/// What is asked before quitting.
pub const CONFIRM_QUIT: &'static str = "Really quit? (y or n)";

/// What an answer to it does.
pub fn confirmed(answer: char) -> (step: Quit)
    ensures
        step == (if answer == 'y' {
            Quit::Quit
        } else {
            Quit::Nothing
        }),
{
    if answer == 'y' {
        Quit::Quit
    } else {
        Quit::Nothing
    }
}

// ---------------------------------------------------------------------------
// Arguments
// ---------------------------------------------------------------------------

/// What an argument of a menu holds.
#[derive(Debug)]
pub enum ArgValue {
    /// It is given or not.
    Flag { active: bool },
    /// It is given with a value.
    Value { value: Option<String>, default: Option<String> },
}

/// An argument of a menu.
#[derive(Debug)]
pub struct Arg {
    pub name: String,
    pub display: String,
    pub value: ArgValue,
}

/// An argument of a menu, and what it holds.
#[verifier::ext_equal]
pub struct ArgView {
    pub name: Seq<char>,
    pub display: Seq<char>,
    pub expects_value: bool,
    /// The value it is given with, if it is given.
    pub set: Option<Seq<char>>,
    pub default: Option<Seq<char>>,
}

impl View for Arg {
    type V = ArgView;

    open spec fn view(&self) -> ArgView {
        ArgView {
            name: self.name@,
            display: self.display@,
            expects_value: self.value is Value,
            set: match self.value {
                ArgValue::Flag { active } => if active {
                    Some(seq![])
                } else {
                    None
                },
                ArgValue::Value { value, .. } => crate::item_data::maybe_text(value),
            },
            default: match self.value {
                ArgValue::Flag { .. } => None,
                ArgValue::Value { default, .. } => crate::item_data::maybe_text(default),
            },
        }
    }
}

/// What the arguments of a menu are.
pub open spec fn arg_views(args: Seq<Arg>) -> Seq<ArgView> {
    args.map_values(|arg: Arg| arg@)
}

/// Where an argument stands among others.
pub open spec fn arg_at(args: Seq<ArgView>, name: Seq<char>) -> Option<int>
    decreases args.len(),
{
    if args.len() == 0 {
        None
    } else if args[0].name == name {
        Some(0)
    } else {
        match arg_at(args.drop_first(), name) {
            Some(i) => Some(i + 1),
            None => None,
        }
    }
}

/// What toggling an argument comes to.
#[derive(Debug)]
pub enum Toggle {
    /// It was set or unset, or there is no such argument.
    Done,
    /// Its value has to be asked for.
    Ask { prompt: String, default: Option<String> },
}

/// The arguments with one toggled: unset if it is given, and given if it takes no
/// value.
pub open spec fn toggled_args(args: Seq<ArgView>, name: Seq<char>) -> Seq<ArgView> {
    match arg_at(args, name) {
        Some(i) => if args[i].set is Some {
            args.update(i, ArgView { set: None, ..args[i] })
        } else if args[i].expects_value {
            args
        } else {
            args.update(i, ArgView { set: Some(seq![]), ..args[i] })
        },
        None => args,
    }
}

/// Whether the value of an argument has to be asked for to toggle it.
pub open spec fn asks_value(args: Seq<ArgView>, name: Seq<char>) -> bool {
    match arg_at(args, name) {
        Some(i) => args[i].set is None && args[i].expects_value,
        None => false,
    }
}

/// The arguments with one given a value.
pub open spec fn given_value(args: Seq<ArgView>, name: Seq<char>, value: Seq<char>) -> Seq<
    ArgView,
> {
    match arg_at(args, name) {
        Some(i) => args.update(
            i,
            ArgView {
                set: Some(if args[i].expects_value {
                    value
                } else {
                    seq![]
                }),
                ..args[i]
            },
        ),
        None => args,
    }
}

fn find_arg(args: &Vec<Arg>, name: &str) -> (at: Option<usize>)
    ensures
        match at {
            Some(at) => arg_at(arg_views(args@), name@) == Some(at as int) && at < args@.len(),
            None => arg_at(arg_views(args@), name@) is None,
        },
{
    let ghost all = arg_views(args@);
    let mut i: usize = 0;
    proof {
        assert(all.skip(0) =~= all);
    }
    while i < args.len()
        invariant
            i <= args@.len(),
            all == arg_views(args@),
            arg_at(all, name@) == (match arg_at(all.skip(i as int), name@) {
                Some(k) => Some(k + i),
                None => None,
            }),
        decreases args@.len() - i,
    {
        proof {
            assert(all.skip(i as int).drop_first() =~= all.skip(i + 1));
            assert(all.skip(i as int)[0] == args@[i as int]@);
        }
        if text::same_text(args[i].name.as_str(), name) {
            return Some(i);
        }
        i += 1;
    }
    None
}

fn set_arg(args: &mut Vec<Arg>, at: usize, value: ArgValue)
    requires
        at < old(args)@.len(),
    ensures
        final(args)@.len() == old(args)@.len(),
        final(args)@[at as int].name == old(args)@[at as int].name,
        final(args)@[at as int].display == old(args)@[at as int].display,
        final(args)@[at as int].value == value,
        forall|k: int|
            0 <= k < old(args)@.len() && k != at ==> #[trigger] final(args)@[k] == old(args)@[k],
{
    let arg = args.remove(at);
    args.insert(at, Arg { name: arg.name, display: arg.display, value });
}

/// Toggle an argument of a menu. One that is given is no longer; one that takes no
/// value is given; and of one that does, the value has to be asked for first.
pub fn toggle_arg(args: &mut Vec<Arg>, name: &str) -> (toggle: Toggle)
    ensures
        arg_views(final(args)@) == toggled_args(arg_views(old(args)@), name@),
        match toggle {
            Toggle::Done => !asks_value(arg_views(old(args)@), name@),
            Toggle::Ask { prompt, default } => {
                let i = arg_at(arg_views(old(args)@), name@)->0;
                &&& asks_value(arg_views(old(args)@), name@)
                &&& prompt@ == arg_views(old(args)@)[i].display
                &&& crate::item_data::maybe_text(default) == arg_views(old(args)@)[i].default
            },
        },
{
    let ghost before = arg_views(args@);
    let at = match find_arg(args, name) {
        Some(at) => at,
        None => {
            return Toggle::Done;
        },
    };
    let ghost held = args@[at as int];
    proof {
        assert(before[at as int] == held@);
    }
    let value = match &args[at].value {
        ArgValue::Flag { active } => ArgValue::Flag { active: !*active },
        ArgValue::Value { value: Some(_), default } => ArgValue::Value {
            value: None,
            default: crate::item_data::clone_maybe(default),
        },
        ArgValue::Value { value: None, default } => {
            return Toggle::Ask {
                prompt: args[at].display.clone(),
                default: crate::item_data::clone_maybe(default),
            };
        },
    };
    set_arg(args, at, value);
    proof {
        assert(arg_views(args@) =~= toggled_args(before, name@));
    }
    Toggle::Done
}

/// Give an argument of a menu the value that was asked for, as it was read. One that
/// can't be read is refused, and changes nothing.
pub fn set_arg_value<E>(args: &mut Vec<Arg>, name: &str, value: Result<String, E>) -> (outcome:
    Result<(), E>)
    ensures
        match value {
            Ok(value) => {
                &&& arg_views(final(args)@) == given_value(arg_views(old(args)@), name@, value@)
                &&& outcome == Ok::<(), E>(())
            },
            Err(error) => {
                &&& *final(args) == *old(args)
                &&& outcome == (if arg_at(arg_views(old(args)@), name@) is Some {
                    Err::<(), E>(error)
                } else {
                    Ok::<(), E>(())
                })
            },
        },
{
    let ghost before = arg_views(args@);
    let at = match find_arg(args, name) {
        Some(at) => at,
        None => {
            return Ok(());
        },
    };
    let value = match value {
        Ok(value) => value,
        Err(error) => {
            return Err(error);
        },
    };
    let ghost held = args@[at as int];
    let ghost given = value@;
    proof {
        assert(before[at as int] == held@);
    }
    let new = match &args[at].value {
        ArgValue::Flag { .. } => ArgValue::Flag { active: true },
        ArgValue::Value { default, .. } => ArgValue::Value {
            value: Some(value),
            default: crate::item_data::clone_maybe(default),
        },
    };
    set_arg(args, at, new);
    proof {
        assert(arg_views(args@) =~= given_value(before, name@, given));
    }
    Ok(())
}

proof fn lemma_arg_at(args: Seq<ArgView>, name: Seq<char>)
    ensures
        arg_at(args, name) matches Some(i) ==> 0 <= i < args.len() && args[i].name == name
            && forall|k: int| 0 <= k < i ==> (#[trigger] args[k]).name != name,
        arg_at(args, name) is None ==> forall|k: int|
            0 <= k < args.len() ==> (#[trigger] args[k]).name != name,
    decreases args.len(),
{
    if args.len() > 0 && args[0].name != name {
        let rest = args.drop_first();
        lemma_arg_at(rest, name);
        assert forall|k: int| 0 < k < args.len() implies args[k] == rest[k - 1] by {}
        if arg_at(rest, name) is None {
            assert forall|k: int| 0 <= k < args.len() implies (#[trigger] args[k]).name != name by {
                if k > 0 {
                    assert(rest[k - 1].name != name);
                }
            }
        } else {
            let i = arg_at(rest, name)->0;
            assert forall|k: int| 0 <= k < i + 1 implies (#[trigger] args[k]).name != name by {
                if k > 0 {
                    assert(rest[k - 1].name != name);
                }
            }
        }
    }
}

proof fn lemma_arg_at_is(args: Seq<ArgView>, name: Seq<char>, i: int)
    requires
        0 <= i < args.len(),
        args[i].name == name,
        forall|k: int| 0 <= k < i ==> (#[trigger] args[k]).name != name,
    ensures
        arg_at(args, name) == Some(i),
{
    lemma_arg_at(args, name);
    if arg_at(args, name) is None {
        assert(args[i].name != name);
    } else {
        let j = arg_at(args, name)->0;
        if j < i {
            assert(args[j].name != name);
        } else if i < j {
            assert(args[i].name != name);
        }
    }
}

/// Toggling an argument that takes no value twice leaves all as it was.
pub proof fn toggling_twice_restores(args: Seq<ArgView>, name: Seq<char>)
    requires
        arg_at(args, name) matches Some(i) && !args[i].expects_value && (args[i].set is None
            || args[i].set == Some(Seq::<char>::empty())),
    ensures
        toggled_args(toggled_args(args, name), name) == args,
{
    lemma_arg_at(args, name);
    let i = arg_at(args, name)->0;
    let once = toggled_args(args, name);
    assert forall|k: int| 0 <= k < i implies (#[trigger] once[k]).name != name by {
        assert(once[k] == args[k]);
    }
    lemma_arg_at_is(once, name, i);
    assert(toggled_args(once, name) =~= args);
}

// ---------------------------------------------------------------------------
// Context
// ---------------------------------------------------------------------------

/// What git gives without being asked, so asking for it is asking for nothing.
pub const DEFAULT_LINES: &'static str = "3";

pub open spec fn is_digit(c: char) -> bool {
    '0' <= c <= '9'
}

/// Whether a text is a number of lines.
pub open spec fn is_count(s: Seq<char>) -> bool {
    s.len() > 0 && forall|i: int| 0 <= i < s.len() ==> is_digit(#[trigger] s[i])
}

/// The git flag an answer asks for, if it asks for any: none for the default.
pub open spec fn flag_for(answer: Seq<char>) -> Option<Option<Seq<char>>> {
    if answer == "W"@ || answer == "w"@ {
        Some(Some("-W"@))
    } else if answer == DEFAULT_LINES@ {
        Some(None)
    } else if is_count(answer) {
        Some(Some("-U"@ + answer))
    } else {
        None
    }
}

/// A text without the prefixes `-U` it starts with.
pub open spec fn without_flag(s: Seq<char>) -> Seq<char>
    decreases s.len(),
{
    if s.len() >= 2 && s[0] == '-' && s[1] == 'U' {
        without_flag(s.skip(2))
    } else {
        s
    }
}

/// What is asked for now, as an answer.
pub open spec fn answer_for(current: Option<Seq<char>>) -> Seq<char> {
    match current {
        Some(flag) => if flag == "-W"@ {
            "W"@
        } else {
            without_flag(flag)
        },
        None => DEFAULT_LINES@,
    }
}

/// The git flag an answer asks for: `None` within for the default, which is to pass
/// no flag at all. An answer that is neither a count nor the whole function isn't
/// one, since a flag that leaves no hunks leaves nothing to act on.
pub fn context_flag(answer: &str) -> (flag: Option<Option<String>>)
    ensures
        (match flag {
            Some(flag) => Some(crate::item_data::maybe_text(flag)),
            None => None,
        }) == flag_for(answer@),
{
    if text::same_text(answer, "W") || text::same_text(answer, "w") {
        return Some(Some("-W".to_owned()));
    }
    if text::same_text(answer, DEFAULT_LINES) {
        return Some(None);
    }
    let chars = text::to_chars(answer);
    let mut i: usize = 0;
    while i < chars.len()
        invariant
            i <= chars@.len(),
            chars@ == answer@,
            answer@ != "W"@,
            answer@ != "w"@,
            answer@ != DEFAULT_LINES@,
            forall|k: int| 0 <= k < i ==> is_digit(#[trigger] answer@[k]),
        decreases chars@.len() - i,
    {
        if !('0' <= chars[i] && chars[i] <= '9') {
            proof {
                assert(!is_digit(answer@[i as int]));
            }
            return None;
        }
        i += 1;
    }
    if chars.len() == 0 {
        return None;
    }
    let mut flag = "-U".to_owned();
    flag.push_str(answer);
    Some(Some(flag))
}

/// What is asked for now, for the user to change.
pub fn context_answer(current: Option<&str>) -> (answer: String)
    ensures
        answer@ == answer_for(text::maybe(current)),
{
    match current {
        Some(flag) => {
            if text::same_text(flag, "-W") {
                return "W".to_owned();
            }
            let chars = text::to_chars(flag);
            let mut i: usize = 0;
            proof {
                assert(flag@.skip(0) =~= flag@);
            }
            while chars.len() - i >= 2 && chars[i] == '-' && chars[i + 1] == 'U'
                invariant
                    i <= chars@.len(),
                    chars@ == flag@,
                    without_flag(flag@.skip(i as int)) == without_flag(flag@),
                decreases chars@.len() - i,
            {
                proof {
                    assert(flag@.skip(i as int).skip(2) =~= flag@.skip(i + 2));
                }
                i += 2;
            }
            proof {
                assert(flag@.subrange(i as int, flag@.len() as int) =~= flag@.skip(i as int));
            }
            text::from_chars(chars.as_slice(), i, chars.len())
        },
        None => DEFAULT_LINES.to_owned(),
    }
}

/// Answering with what is asked for now changes nothing: whatever an answer came
/// to, it is offered again as an answer that comes to the same.
pub proof fn offered_answer_keeps_context(answer: Seq<char>)
    requires
        flag_for(answer) is Some,
    ensures
        flag_for(answer_for(flag_for(answer)->0)) == flag_for(answer),
{
    reveal_strlit("W");
    reveal_strlit("w");
    reveal_strlit("-W");
    reveal_strlit("-U");
    reveal_strlit("3");
    let flag = flag_for(answer)->0;
    if flag is Some && flag->0 != "-W"@ {
        let held = "-U"@ + answer;
        assert(flag->0 == held);
        assert(held.skip(2) =~= answer);
        assert(without_flag(held) == without_flag(answer));
        assert(is_digit(answer[0]));
        assert(without_flag(answer) == answer);
    } else if flag is Some {
        if answer != "W"@ && answer != "w"@ {
            let held = "-U"@ + answer;
            assert(held[1] == 'U' && "-W"@[1] == 'W');
        }
    }
}

// ---------------------------------------------------------------------------
// The question git is asked
// ---------------------------------------------------------------------------

/// Take an edit of the question git is being asked. Everything a view is — the
/// revs, what is compared with what, which paths, how much context — is in that
/// command. The edit said what context it wants, in the line it was given, so none
/// is asked for on top. A refused edit changes nothing.
pub fn take_edit(git: &mut GitCommand, context: &mut Option<String>, answer: &str) -> (taken:
    Result<(), EditError>)
    requires
        old(git).wf(),
    ensures
        final(git).wf(),
        match taken {
            Ok(()) => {
                &&& calling_process::edit_of(
                    old(git)@,
                    old(git).subcommand as int,
                    calling_process::shell_words_of(answer@),
                ) == calling_process::Edit::Command(final(git)@)
                &&& final(git).subcommand == old(git).subcommand
                &&& *final(context) is None
            },
            Err(error) => {
                &&& *final(git) == *old(git)
                &&& *final(context) == *old(context)
                &&& calling_process::comes_to(
                    Err(error),
                    calling_process::edit_of(
                        old(git)@,
                        old(git).subcommand as int,
                        calling_process::shell_words_of(answer@),
                    ),
                    old(git).subcommand,
                )
            },
        },
{
    match git.edited(answer) {
        Ok(edited) => {
            *git = edited;
            *context = None;
            Ok(())
        },
        Err(error) => Err(error),
    }
}

// ---------------------------------------------------------------------------
// Features
// ---------------------------------------------------------------------------

/// Features without one of them.
pub open spec fn dropped(features: Seq<Seq<char>>, feature: Seq<char>) -> Seq<Seq<char>>
    decreases features.len(),
{
    if features.len() == 0 {
        seq![]
    } else if features.last() == feature {
        dropped(features.drop_last(), feature)
    } else {
        dropped(features.drop_last(), feature).push(features.last())
    }
}

/// Features with one removed if present and appended if not. Order is otherwise
/// kept, since a renderer resolves a conflict between two features in favour of the
/// later one.
pub open spec fn toggled_feature(features: Seq<Seq<char>>, feature: Seq<char>) -> Seq<Seq<char>> {
    if features.contains(feature) {
        dropped(features, feature)
    } else {
        features.push(feature)
    }
}

/// Features with one removed if present and appended if not.
pub fn toggled(features: &Vec<String>, feature: &str) -> (out: Vec<String>)
    ensures
        text::string_views(out@) == toggled_feature(text::string_views(features@), feature@),
{
    let ghost all = text::string_views(features@);
    if !text::has_text(features, feature) {
        let mut out = text::clone_strings(features);
        let ghost before = out@;
        out.push(feature.to_owned());
        proof {
            assert(text::string_views(out@) =~= text::string_views(before).push(feature@));
        }
        return out;
    }
    let mut out: Vec<String> = Vec::new();
    let mut i: usize = 0;
    proof {
        assert(all.take(0) =~= Seq::<Seq<char>>::empty());
        assert(text::string_views(out@) =~= seq![]);
    }
    while i < features.len()
        invariant
            i <= features@.len(),
            all == text::string_views(features@),
            text::string_views(out@) == dropped(all.take(i as int), feature@),
        decreases features@.len() - i,
    {
        let ghost before = out@;
        proof {
            assert(all.take(i + 1).drop_last() =~= all.take(i as int));
            assert(all.take(i + 1).last() == features@[i as int]@);
        }
        if !text::same_text(features[i].as_str(), feature) {
            out.push(features[i].clone());
            proof {
                assert(text::string_views(out@) =~= text::string_views(before).push(
                    features@[i as int]@,
                ));
            }
        }
        i += 1;
    }
    proof {
        assert(all.take(i as int) =~= all);
    }
    out
}

proof fn lemma_dropped_absent(features: Seq<Seq<char>>, feature: Seq<char>)
    requires
        !features.contains(feature),
    ensures
        dropped(features, feature) == features,
    decreases features.len(),
{
    if features.len() > 0 {
        let front = features.drop_last();
        assert forall|x: Seq<char>| front.contains(x) implies features.contains(x) by {
            let i = choose|i: int| 0 <= i < front.len() && front[i] == x;
            assert(features[i] == x);
        }
        lemma_dropped_absent(front, feature);
        assert(features[features.len() - 1] != feature);
        assert(front.push(features.last()) =~= features);
    } else {
        assert(features =~= seq![]);
    }
}

/// Choosing a feature and choosing it again leaves the features as they were.
pub proof fn choosing_twice_restores(features: Seq<Seq<char>>, feature: Seq<char>)
    requires
        !features.contains(feature),
    ensures
        toggled_feature(toggled_feature(features, feature), feature) == features,
{
    let once = features.push(feature);
    assert(once[features.len() as int] == feature);
    assert(once.drop_last() =~= features);
    lemma_dropped_absent(features, feature);
}

/// What a feature that is on is marked with.
pub const ON_MARK: &'static str = "● ";

/// What stands there otherwise.
pub const OFF_MARK: &'static str = "  ";

/// A feature to choose: what it is shown as, and its name.
#[derive(Debug)]
pub struct FeatureChoice {
    pub display: String,
    pub feature: String,
}

/// What features to choose from are.
pub open spec fn feature_views(choices: Seq<FeatureChoice>) -> Seq<(Seq<char>, Seq<char>)> {
    choices.map_values(|choice: FeatureChoice| (choice.display@, choice.feature@))
}

/// The features to choose from, those that are on marked.
pub open spec fn offered_choices(offered: Seq<Seq<char>>, held: Seq<Seq<char>>) -> Seq<
    (Seq<char>, Seq<char>),
> {
    offered.map_values(
        |feature: Seq<char>|
            (
                (if held.contains(feature) {
                    ON_MARK@
                } else {
                    OFF_MARK@
                }) + feature,
                feature,
            ),
    )
}

/// The features to choose from, those that are on marked.
pub fn feature_choices(offered: &Vec<String>, held: &Vec<String>) -> (choices: Vec<FeatureChoice>)
    ensures
        feature_views(choices@) == offered_choices(
            text::string_views(offered@),
            text::string_views(held@),
        ),
{
    let ghost wanted = offered_choices(text::string_views(offered@), text::string_views(held@));
    let mut choices: Vec<FeatureChoice> = Vec::new();
    let mut i: usize = 0;
    while i < offered.len()
        invariant
            i <= offered@.len(),
            wanted == offered_choices(text::string_views(offered@), text::string_views(held@)),
            choices@.len() == i,
            forall|k: int|
                0 <= k < i ==> (#[trigger] choices@[k]).display@ == wanted[k].0
                    && choices@[k].feature@ == wanted[k].1,
        decreases offered@.len() - i,
    {
        let feature = offered[i].as_str();
        let mut display = if text::has_text(held, feature) {
            ON_MARK.to_owned()
        } else {
            OFF_MARK.to_owned()
        };
        display.push_str(feature);
        choices.push(FeatureChoice { display, feature: feature.to_owned() });
        i += 1;
    }
    proof {
        assert(feature_views(choices@) =~= wanted);
    }
    choices
}

// ---------------------------------------------------------------------------
// Moving about
// ---------------------------------------------------------------------------

/// A way to move about a screen.
#[derive(Debug, Clone, Copy, PartialEq, Eq, Structural)]
pub enum Motion {
    Up,
    Down,
    UpLine,
    DownLine,
    ToScreenLine(usize),
    NextSection,
    PrevSection,
    ParentSection,
    HalfPageUp,
    HalfPageDown,
    FullPageUp,
    FullPageDown,
    ScrollViewUp,
    ScrollViewDown,
    Top,
    Bottom,
}

/// What a motion is shown as.
pub open spec fn motion_label(motion: Motion) -> Seq<char> {
    match motion {
        Motion::Up => "Up"@,
        Motion::Down => "Down"@,
        Motion::UpLine => "Up line"@,
        Motion::DownLine => "Down line"@,
        Motion::ToScreenLine(_) => "Move to line"@,
        Motion::NextSection => "Next section"@,
        Motion::PrevSection => "Prev section"@,
        Motion::ParentSection => "Parent section"@,
        Motion::HalfPageUp => "Scroll half page up"@,
        Motion::HalfPageDown => "Scroll half page down"@,
        Motion::FullPageUp => "Scroll page up"@,
        Motion::FullPageDown => "Scroll page down"@,
        Motion::ScrollViewUp => "Scroll view up"@,
        Motion::ScrollViewDown => "Scroll view down"@,
        Motion::Top => "Top"@,
        Motion::Bottom => "Bottom"@,
    }
}

impl Motion {
    /// What the motion is shown as.
    pub fn display(&self) -> (text: &'static str)
        ensures
            text@ == motion_label(*self),
    {
        match self {
            Motion::Up => "Up",
            Motion::Down => "Down",
            Motion::UpLine => "Up line",
            Motion::DownLine => "Down line",
            Motion::ToScreenLine(_) => "Move to line",
            Motion::NextSection => "Next section",
            Motion::PrevSection => "Prev section",
            Motion::ParentSection => "Parent section",
            Motion::HalfPageUp => "Scroll half page up",
            Motion::HalfPageDown => "Scroll half page down",
            Motion::FullPageUp => "Scroll page up",
            Motion::FullPageDown => "Scroll page down",
            Motion::ScrollViewUp => "Scroll view up",
            Motion::ScrollViewDown => "Scroll view down",
            Motion::Top => "Top",
            Motion::Bottom => "Bottom",
        }
    }
}

/// Where a motion leads. `depth` is how deep the selected row is, and `height` how
/// many lines there are on screen.
pub open spec fn led(f: Frame, at: Place, depth: usize, height: int, motion: Motion) -> Place {
    let freed = Place { anchor: None, ..at };
    match motion {
        Motion::Up => f.moved_previous(freed, NavMode::Normal),
        Motion::Down => f.moved_next(freed, NavMode::Normal),
        Motion::UpLine => f.moved_previous(freed, NavMode::IncludeSubLines),
        Motion::DownLine => f.moved_next(freed, NavMode::IncludeSubLines),
        Motion::ToScreenLine(line) => f.moved_to_line(at, line as int),
        Motion::NextSection => f.moved_next(freed, NavMode::Siblings { depth }),
        Motion::PrevSection => f.moved_previous(freed, NavMode::Siblings { depth }),
        Motion::ParentSection => f.moved_previous(
            freed,
            NavMode::Siblings {
                depth: if depth > 0 {
                    (depth - 1) as usize
                } else {
                    0
                },
            },
        ),
        Motion::HalfPageUp => f.page_turned(at, height / 2, false),
        Motion::HalfPageDown => f.page_turned(at, height / 2, true),
        Motion::FullPageUp => f.page_turned(at, height, false),
        Motion::FullPageDown => f.page_turned(at, height, true),
        Motion::ScrollViewUp => Place { top: f.retreated(at.top, 1), ..at },
        Motion::ScrollViewDown => Place { top: f.scrolled_down(at.top, 1), ..at },
        Motion::Top => f.moved_to_top(at),
        Motion::Bottom => f.moved_to_bottom(at),
    }
}

impl Screen {
    /// Move about.
    pub fn go(&mut self, motion: Motion)
        requires
            old(self).wf(),
        ensures
            final(self).wf(),
            final(self).same_content(old(self)),
            final(self).place() == led(
                old(self).frame(),
                old(self).place(),
                old(self).items@[old(self).cursor as int].depth,
                old(self).size.1 as int,
                motion,
            ),
    {
        let depth = self.items[self.cursor].depth;
        match motion {
            Motion::Up => self.select_previous(NavMode::Normal),
            Motion::Down => self.select_next(NavMode::Normal),
            Motion::UpLine => self.select_previous(NavMode::IncludeSubLines),
            Motion::DownLine => self.select_next(NavMode::IncludeSubLines),
            Motion::ToScreenLine(line) => self.move_cursor_to_screen_line(line),
            Motion::NextSection => self.select_next(NavMode::Siblings { depth }),
            Motion::PrevSection => self.select_previous(NavMode::Siblings { depth }),
            Motion::ParentSection => {
                let parent: usize = if depth > 0 {
                    depth - 1
                } else {
                    0
                };
                self.select_previous(NavMode::Siblings { depth: parent });
            },
            Motion::HalfPageUp => self.half_page_up(),
            Motion::HalfPageDown => self.half_page_down(),
            Motion::FullPageUp => self.full_page_up(),
            Motion::FullPageDown => self.full_page_down(),
            Motion::ScrollViewUp => self.scroll_view_up(1),
            Motion::ScrollViewDown => self.scroll_view_down(1),
            Motion::Top => self.move_cursor_to_top(),
            Motion::Bottom => self.move_cursor_to_bottom(),
        }
    }

    /// Show or hide the list of what the screen's own keymap does.
    pub fn toggle_menu(&mut self)
        requires
            old(self).wf(),
        ensures
            final(self).wf(),
            final(self).show_menu == !old(self).show_menu,
            final(self).items == old(self).items,
            final(self).layouts == old(self).layouts,
            final(self).size == old(self).size,
            final(self).search == old(self).search,
            final(self).collapsed@ == old(self).collapsed@,
            final(self).place() == old(self).place(),
    {
        self.show_menu = !self.show_menu;
    }

    /// What toggling that list is shown as.
    pub fn toggle_menu_label(&self) -> (label: &'static str)
        ensures
            label@ == (if self.show_menu {
                "Hide keys"@
            } else {
                "Show keys"@
            }),
    {
        if self.show_menu {
            "Hide keys"
        } else {
            "Show keys"
        }
    }

    /// What folding the selected row is shown as.
    pub fn toggle_section_label(&self) -> (label: &'static str)
        requires
            self.wf(),
        ensures
            label@ == (if self.collapsed@.contains(self.items@[self.cursor as int].id) {
                "Unfold"@
            } else {
                "Fold"@
            }),
    {
        if self.is_collapsed(self.get_selected_item()) {
            "Unfold"
        } else {
            "Fold"
        }
    }
}

/// The commit that is picked, if what is selected is one.
pub fn picked_commit(selected: &ItemData) -> (oid: Option<String>)
    ensures
        match oid {
            Some(oid) => selected@ matches Meaning::Commit { oid: held, .. } && held == oid@,
            None => !(selected@ is Commit),
        },
{
    match selected {
        ItemData::Commit { oid, .. } => Some(oid.clone()),
        _ => None,
    }
}

} // verus!
