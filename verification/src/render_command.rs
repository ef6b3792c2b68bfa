//! How a renderer is run, and the features it can be run with.

use crate::diff_renderer;
use crate::rebase_todo;
use crate::text;
use vstd::prelude::*;

verus! {

/// The token of a renderer command that stands for the width to render into.
pub const WIDTH_TOKEN: &'static str = "{width}";

/// A renderer ready to be run: the program, what it is given, and the variables
/// set for it.
#[derive(Debug)]
pub struct Prepared {
    pub program: String,
    pub args: Vec<String>,
    pub env: Vec<(String, String)>,
}

/// Texts with a blank between each two.
pub open spec fn spaced(words: Seq<Seq<char>>) -> Seq<char>
    decreases words.len(),
{
    if words.len() == 0 {
        seq![]
    } else if words.len() == 1 {
        words[0]
    } else {
        spaced(words.drop_last()).push(' ') + words.last()
    }
}

/// What renderer features are asked for with: those chosen on top of those the
/// user's configuration has.
pub open spec fn overlay(features: Seq<Seq<char>>) -> Option<Seq<char>> {
    if features.len() == 0 {
        None
    } else {
        Some(seq!['+'] + spaced(features))
    }
}

/// The value to ask for some features with, or `None` to ask for none so the
/// user's configuration applies untouched. Feature names are space-separated and
/// may not themselves contain whitespace.
pub fn feature_overlay(features: &Vec<String>) -> (value: Option<String>)
    ensures
        match value {
            Some(value) => overlay(text::string_views(features@)) == Some(value@),
            None => overlay(text::string_views(features@)) is None,
        },
{
    let ghost all = text::string_views(features@);
    if features.len() == 0 {
        return None;
    }
    let mut value = String::new();
    value.push('+');
    let mut i: usize = 0;
    proof {
        assert(all.take(0) =~= Seq::<Seq<char>>::empty());
        assert(value@ =~= seq!['+'] + spaced(all.take(0)));
    }
    while i < features.len()
        invariant
            i <= features@.len(),
            all == text::string_views(features@),
            value@ == seq!['+'] + spaced(all.take(i as int)),
        decreases features@.len() - i,
    {
        let ghost before = spaced(all.take(i as int));
        proof {
            assert(all.take(i + 1).drop_last() =~= all.take(i as int));
            assert(all.take(i + 1).last() == features@[i as int]@);
        }
        if i > 0 {
            value.push(' ');
        }
        value.push_str(features[i].as_str());
        proof {
            if i == 0 {
                assert(all.take(1)[0] == features@[0]@);
                assert(before =~= seq![]);
                assert(value@ =~= seq!['+'] + features@[0]@);
            } else {
                assert(value@ =~= seq!['+'] + (before.push(' ') + features@[i as int]@));
            }
        }
        i += 1;
    }
    proof {
        assert(all.take(i as int) =~= all);
    }
    Some(value)
}

/// The words of a command, with the width it is to render into.
pub open spec fn sized(words: Seq<Seq<char>>, width: nat) -> Seq<Seq<char>> {
    words.map_values(
        |word: Seq<char>| text::replaced(word, WIDTH_TOKEN@, text::decimal(width)),
    )
}

/// The variables set for a renderer.
pub open spec fn render_env(width: nat, features: Seq<Seq<char>>) -> Seq<(Seq<char>, Seq<char>)> {
    let always = seq![
        (diff_renderer::METADATA_VAR@, diff_renderer::OSC1717_METADATA_ADVERTISED@),
        (diff_renderer::COLUMNS_VAR@, text::decimal(width)),
    ];
    match overlay(features) {
        Some(value) => always.push((diff_renderer::FEATURES_VAR@, value)),
        None => always,
    }
}

/// Prepare a renderer for a width. One that reflows can't detect it over a pipe and
/// defaults too narrow, so it is made available two ways: a literal `{width}` token
/// anywhere in the command is substituted, the program included, and `COLUMNS` is exported for renderers
/// that read it. `None` for a command that names no program.
pub fn prepare(command: &Vec<String>, width: usize, features: &Vec<String>) -> (prepared: Option<
    Prepared,
>)
    ensures
        prepared is None <==> command@.len() == 0,
        prepared matches Some(prepared) ==> {
            &&& seq![prepared.program@] + text::string_views(prepared.args@) == sized(
                text::string_views(command@),
                width as nat,
            )
            &&& rebase_todo::env_views(prepared.env@) == render_env(
                width as nat,
                text::string_views(features@),
            )
        },
{
    if command.len() == 0 {
        return None;
    }
    let ghost wanted = sized(text::string_views(command@), width as nat);
    let columns = text::to_decimal(width as u64);
    let mut args: Vec<String> = Vec::new();
    let mut i: usize = 1;
    proof {
        reveal_strlit("{width}");
    }
    while i < command.len()
        invariant
            1 <= i <= command@.len(),
            WIDTH_TOKEN@.len() > 0,
            columns@ == text::decimal(width as nat),
            wanted == sized(text::string_views(command@), width as nat),
            text::string_views(args@) =~= wanted.subrange(1, i as int),
        decreases command@.len() - i,
    {
        let ghost before = args@;
        args.push(text::replace(command[i].as_str(), WIDTH_TOKEN, columns.as_str()));
        proof {
            assert(text::string_views(args@) =~= text::string_views(before).push(args@.last()@));
            assert(text::string_views(command@)[i as int] == command@[i as int]@);
        }
        i += 1;
    }
    let mut env: Vec<(String, String)> = Vec::new();
    env.push(
        (
            diff_renderer::METADATA_VAR.to_owned(),
            diff_renderer::OSC1717_METADATA_ADVERTISED.to_owned(),
        ),
    );
    env.push((diff_renderer::COLUMNS_VAR.to_owned(), columns.clone()));
    if let Some(value) = feature_overlay(features) {
        env.push((diff_renderer::FEATURES_VAR.to_owned(), value));
    }
    proof {
        assert(rebase_todo::env_views(env@) =~= render_env(
            width as nat,
            text::string_views(features@),
        ));
    }
    let program = text::replace(command[0].as_str(), WIDTH_TOKEN, columns.as_str());
    proof {
        assert(text::string_views(command@)[0] == command@[0]@);
        assert(seq![program@] + text::string_views(args@) =~= wanted);
    }
    Some(Prepared { program, args, env })
}

/// Prepare a colorizer, which takes a diff line by line and so needs no width.
/// `None` for a command that names no program.
pub fn prepare_colorizer(command: &Vec<String>) -> (prepared: Option<Prepared>)
    ensures
        prepared is None <==> command@.len() == 0,
        prepared matches Some(prepared) ==> {
            &&& prepared.program@ == command@[0]@
            &&& text::string_views(prepared.args@) == text::string_views(command@).skip(1)
            &&& rebase_todo::env_views(prepared.env@) == seq![
                (diff_renderer::METADATA_VAR@, diff_renderer::OSC1717_METADATA_ADVERTISED@),
            ]
        },
{
    if command.len() == 0 {
        return None;
    }
    let mut args = text::clone_strings(command);
    let ghost all = args@;
    proof {
        assert(text::string_views(all).len() == all.len());
        assert(text::string_views(all)[0] == all[0]@);
    }
    let program = args.remove(0);
    let mut env: Vec<(String, String)> = Vec::new();
    env.push(
        (
            diff_renderer::METADATA_VAR.to_owned(),
            diff_renderer::OSC1717_METADATA_ADVERTISED.to_owned(),
        ),
    );
    proof {
        assert(text::string_views(command@)[0] == command@[0]@);
        assert(text::string_views(args@) =~= text::string_views(command@).skip(1));
        assert(rebase_todo::env_views(env@) =~= seq![
            (diff_renderer::METADATA_VAR@, diff_renderer::OSC1717_METADATA_ADVERTISED@),
        ]);
    }
    Some(Prepared { program, args, env })
}

/// What delta is always given: that it only adds colour, so its lines are those of the
/// diff, that it prints them, and that it goes by its own arguments alone.
pub open spec fn delta_args() -> Seq<Seq<char>> {
    seq!["--color-only"@, "--paging=never"@, "--no-gitconfig"@]
}

/// Prepare delta, found at a path, with arguments of the user's own.
pub fn prepare_delta(path: &str, args: &Vec<String>) -> (prepared: Prepared)
    ensures
        prepared.program@ == path@,
        text::string_views(prepared.args@) == delta_args() + text::string_views(args@),
        prepared.env@.len() == 0,
{
    let mut all: Vec<String> = Vec::new();
    all.push("--color-only".to_owned());
    all.push("--paging=never".to_owned());
    all.push("--no-gitconfig".to_owned());
    let ghost own = all@;
    let mut given = text::clone_strings(args);
    proof {
        assert(text::string_views(own) =~= delta_args());
    }
    all.append(&mut given);
    proof {
        assert(text::string_views(all@) =~= delta_args() + text::string_views(args@));
    }
    Prepared { program: path.to_owned(), args: all, env: Vec::new() }
}

/// What a renderer answered: what it printed, unless it failed.
pub fn output_of(success: bool, stdout: &[u8]) -> (output: Option<String>)
    ensures
        output is Some <==> success,
        output matches Some(output) ==> output@ == text::utf8_lossy(stdout@),
{
    if !success {
        return None;
    }
    Some(text::lossy(stdout))
}

// ---------------------------------------------------------------------------
// Features
// ---------------------------------------------------------------------------

/// What the configuration of a renderer's features is found under.
pub const FEATURE_SECTION: &'static str = "delta.";

/// Where the last dot of a text is.
pub open spec fn last_dot(s: Seq<char>) -> Option<int>
    decreases s.len(),
{
    if s.len() == 0 {
        None
    } else if s.last() == '.' {
        Some(s.len() - 1)
    } else {
        last_dot(s.drop_last())
    }
}

/// The feature a `delta.<name>.<key>` configuration entry belongs to. A subsection
/// name may itself contain dots, so it is everything between the section and the
/// key.
pub open spec fn feature_of(entry: Seq<char>) -> Option<Seq<char>> {
    if !FEATURE_SECTION@.is_prefix_of(entry) {
        None
    } else {
        let rest = entry.skip(FEATURE_SECTION@.len() as int);
        match last_dot(rest) {
            Some(at) => Some(rest.take(at)),
            None => None,
        }
    }
}

/// The feature a configuration entry belongs to.
pub fn feature_name(entry: &str) -> (name: Option<String>)
    ensures
        match name {
            Some(name) => feature_of(entry@) == Some(name@),
            None => feature_of(entry@) is None,
        },
{
    if !text::starts_with(entry, FEATURE_SECTION) {
        return None;
    }
    let section = text::to_chars(FEATURE_SECTION);
    let chars = text::to_chars(entry);
    let from = section.len();
    let ghost rest = entry@.skip(from as int);
    let mut i: usize = chars.len();
    proof {
        assert(rest.take(i - from) =~= rest);
    }
    while i > from
        invariant
            from <= i <= chars@.len(),
            from == FEATURE_SECTION@.len(),
            FEATURE_SECTION@.is_prefix_of(entry@),
            chars@ == entry@,
            rest == entry@.skip(from as int),
            last_dot(rest.take(i - from)) == last_dot(rest),
        decreases i,
    {
        let ghost part = rest.take(i - from);
        proof {
            assert(part.last() == chars@[i - 1]);
            assert(part.drop_last() =~= rest.take(i - from - 1));
        }
        if chars[i - 1] == '.' {
            let name = text::from_chars(chars.as_slice(), from, i - 1);
            proof {
                assert(name@ =~= rest.take(i - 1 - from));
            }
            return Some(name);
        }
        i -= 1;
    }
    None
}

/// Whether one text comes before another, by their characters.
pub open spec fn comes_before(a: Seq<char>, b: Seq<char>) -> bool
    decreases a.len(),
{
    if b.len() == 0 {
        false
    } else if a.len() == 0 {
        true
    } else if a[0] == b[0] {
        comes_before(a.drop_first(), b.drop_first())
    } else {
        a[0] < b[0]
    }
}

/// No text comes before itself, and of two different ones one comes before the
/// other.
pub proof fn order_is_total(a: Seq<char>, b: Seq<char>)
    ensures
        comes_before(a, b) ==> a != b && !comes_before(b, a),
        a != b ==> comes_before(a, b) || comes_before(b, a),
    decreases a.len(),
{
    if a.len() > 0 && b.len() > 0 && a[0] == b[0] {
        order_is_total(a.drop_first(), b.drop_first());
        if a.drop_first() == b.drop_first() {
            assert(a =~= seq![a[0]] + a.drop_first());
            assert(b =~= seq![b[0]] + b.drop_first());
        }
    } else if a.len() == 0 && b.len() == 0 {
        assert(a =~= b);
    }
}

/// What comes before something comes before whatever that comes before.
pub proof fn order_is_transitive(a: Seq<char>, b: Seq<char>, c: Seq<char>)
    requires
        comes_before(a, b),
        comes_before(b, c),
    ensures
        comes_before(a, c),
    decreases a.len(),
{
    if a.len() > 0 && b.len() > 0 && c.len() > 0 && a[0] == b[0] && b[0] == c[0] {
        order_is_transitive(a.drop_first(), b.drop_first(), c.drop_first());
    }
}

/// Whether texts are in order, none of them twice.
pub open spec fn ascending(names: Seq<Seq<char>>) -> bool {
    forall|i: int, j: int| 0 <= i < j < names.len() ==> comes_before(names[i], names[j])
}

/// Whether a feature is defined by some entries, and isn't offered anyway.
pub open spec fn is_defined(
    name: Seq<char>,
    configured: Seq<Seq<char>>,
    entries: Seq<Seq<char>>,
) -> bool {
    &&& !configured.contains(name)
    &&& exists|i: int| 0 <= i < entries.len() && feature_of(#[trigger] entries[i]) == Some(name)
}

fn ordered(a: &Vec<char>, b: &Vec<char>) -> (before: bool)
    ensures
        before == comes_before(a@, b@),
{
    let mut i: usize = 0;
    proof {
        assert(a@.skip(0) =~= a@);
        assert(b@.skip(0) =~= b@);
    }
    while i < a.len() && i < b.len() && a[i] == b[i]
        invariant
            i <= a@.len(),
            i <= b@.len(),
            comes_before(a@.skip(i as int), b@.skip(i as int)) == comes_before(a@, b@),
        decreases a@.len() - i,
    {
        proof {
            assert(a@.skip(i as int).drop_first() =~= a@.skip(i + 1));
            assert(b@.skip(i as int).drop_first() =~= b@.skip(i + 1));
        }
        i += 1;
    }
    if i >= b.len() {
        false
    } else if i >= a.len() {
        true
    } else {
        a[i] < b[i]
    }
}

/// Put a name where it belongs among others, unless it is there already.
fn insert_name(names: &mut Vec<String>, name: String)
    requires
        ascending(text::string_views(old(names)@)),
    ensures
        ascending(text::string_views(final(names)@)),
        forall|x: Seq<char>|
            #[trigger] text::string_views(final(names)@).contains(x) <==> x == name@
                || text::string_views(old(names)@).contains(x),
{
    let ghost before = text::string_views(names@);
    let wanted = text::to_chars(name.as_str());
    let mut i: usize = 0;
    while i < names.len()
        invariant_except_break
            i <= names@.len(),
            names@ == old(names)@,
            before == text::string_views(names@),
            ascending(before),
            wanted@ == name@,
            forall|k: int| 0 <= k < i ==> comes_before(#[trigger] before[k], name@),
        ensures
            i <= names@.len(),
            names@ == old(names)@,
            forall|k: int| 0 <= k < i ==> comes_before(#[trigger] before[k], name@),
            i < names@.len() ==> !comes_before(before[i as int], name@),
        decreases names@.len() - i,
    {
        let held = text::to_chars(names[i].as_str());
        proof {
            assert(before[i as int] == names@[i as int]@);
        }
        if !ordered(&held, &wanted) {
            break;
        }
        i += 1;
    }
    if i < names.len() && text::same_text(names[i].as_str(), name.as_str()) {
        proof {
            assert(before[i as int] == name@);
        }
        return;
    }
    let ghost added = name@;
    names.insert(i, name);
    let ghost after = text::string_views(names@);
    proof {
        assert(after =~= before.insert(i as int, added));
        if i < before.len() {
            order_is_total(before[i as int], added);
        }
        assert forall|j: int| i <= j < before.len() implies comes_before(
            added,
            #[trigger] before[j],
        ) by {
            if j > i {
                order_is_transitive(added, before[i as int], before[j]);
            }
        }
        assert forall|p: int, q: int| 0 <= p < q < after.len() implies comes_before(
            after[p],
            after[q],
        ) by {
            let _ = before[if p > i { p - 1 } else { p }];
            let _ = before[if q > i { q - 1 } else { q }];
        }
        assert forall|x: Seq<char>| #[trigger] after.contains(x) <==> x == added
            || before.contains(x) by {
            if after.contains(x) {
                let k = choose|k: int| 0 <= k < after.len() && after[k] == x;
                if k < i {
                    assert(before[k] == x);
                } else if k > i {
                    assert(before[k - 1] == x);
                }
            }
            if before.contains(x) {
                let k = choose|k: int| 0 <= k < before.len() && before[k] == x;
                if k < i {
                    assert(after[k] == x);
                } else {
                    assert(after[k + 1] == x);
                }
            }
            assert(after[i as int] == added);
        }
    }
}

/// The renderer features to offer: the configured ones, followed by every one the
/// user has defined, in order, so a feature of their own is offered without their
/// having to name it twice. `entries` are the names of the configuration's entries.
pub fn offered_features(configured: &Vec<String>, entries: &Vec<String>) -> (offered: Vec<String>)
    ensures
        exists|defined: Seq<Seq<char>>|
            {
                &&& text::string_views(offered@) == text::string_views(configured@) + defined
                &&& #[trigger] ascending(defined)
                &&& forall|name: Seq<char>|
                    #[trigger] defined.contains(name) <==> is_defined(
                        name,
                        text::string_views(configured@),
                        text::string_views(entries@),
                    )
            },
{
    let ghost given = text::string_views(configured@);
    let ghost all = text::string_views(entries@);
    let mut defined: Vec<String> = Vec::new();
    let mut i: usize = 0;
    while i < entries.len()
        invariant
            i <= entries@.len(),
            given == text::string_views(configured@),
            all == text::string_views(entries@),
            ascending(text::string_views(defined@)),
            forall|name: Seq<char>|
                #[trigger] text::string_views(defined@).contains(name) <==> is_defined(
                    name,
                    given,
                    all.take(i as int),
                ),
        decreases entries@.len() - i,
    {
        let ghost before = text::string_views(defined@);
        let ghost seen = all.take(i as int);
        let ghost more = all.take(i + 1);
        let found = feature_name(entries[i].as_str());
        let ghost feature = feature_of(all[i as int]);
        proof {
            assert(all[i as int] == entries@[i as int]@);
            assert forall|name: Seq<char>| #[trigger]
                is_defined(name, given, more) <==> is_defined(name, given, seen) || (feature
                == Some(name) && !given.contains(name)) by {
                if is_defined(name, given, seen) {
                    let k = choose|k: int|
                        0 <= k < seen.len() && feature_of(#[trigger] seen[k]) == Some(name);
                    assert(more[k] == seen[k]);
                }
                if is_defined(name, given, more) {
                    let k = choose|k: int|
                        0 <= k < more.len() && feature_of(#[trigger] more[k]) == Some(name);
                    if k < i {
                        assert(seen[k] == more[k]);
                    }
                }
                assert(more[i as int] == all[i as int]);
            }
        }
        if let Some(name) = found {
            if !text::has_text(configured, name.as_str()) {
                insert_name(&mut defined, name);
            }
        }
        i += 1;
    }
    let ghost last = text::string_views(defined@);
    let mut offered = text::clone_strings(configured);
    let ghost first = offered@;
    let ghost second = defined@;
    offered.append(&mut defined);
    proof {
        assert(all.take(i as int) =~= all);
        assert(text::string_views(offered@) =~= text::string_views(first) + text::string_views(
            second,
        ));
        assert(ascending(last));
    }
    offered
}

} // verus!
