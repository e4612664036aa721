//! The command line, `unround [OPTIONS] INPUT [OUTPUT]`: the options by name, the
//! positional arguments, and what the command asks for.
//!
//! The options have the names of the library's settings. The command line is checked
//! as a whole: every option that is refused is named at once. The arguments reach
//! this module as text where they are Unicode, and as `None` where they are not;
//! a positional argument is kept by its place among them.
use vstd::prelude::*;
use vstd::string::StrSliceExecFns;

use crate::error::{add_number, add_text, decimal, text};

mod lists;

pub use lists::{
    data_term_count, increasing, is_long, lemma_long_lengths, lemma_picked_within, length_words, lengths_refusal,
    list_index, long_lengths, picked, terms_of, with_length,
};

verus! {

/// The format of the result.
#[derive(Debug, Clone, Copy, PartialEq, Eq, Structural)]
pub enum Format {
    /// TIFF of binary64 samples, bit for bit.
    Tiff,
    /// PNM of 8 or 16 bits.
    Pnm,
}

/// The bits of a sample of PNM.
#[derive(Debug, Clone, Copy, PartialEq, Eq, Structural)]
pub enum Bits {
    /// 8 bits, 0 to 255.
    Eight,
    /// 16 bits, 0 to 65535, where 255 is 65535.
    Sixteen,
}

/// What goes to standard error besides errors.
#[derive(Debug, Clone, Copy, PartialEq, Eq, Structural)]
pub enum Verbosity {
    /// Nothing.
    Quiet,
    /// The iterations the solver took, and why it stopped.
    Normal,
    /// Every record as well.
    Verbose,
}

// ---------------------------------------------------------------------------
// Text.
// ---------------------------------------------------------------------------

/// Whether two texts are the same.
pub fn same_text(a: &str, b: &str) -> (same: bool)
    ensures
        same == (a@ == b@),
{
    let n = a.unicode_len();
    if n != b.unicode_len() {
        return false;
    }
    let mut i: usize = 0;
    while i < n
        invariant
            n == a@.len(),
            n == b@.len(),
            i <= n,
            forall|j: int| 0 <= j < i ==> a@[j] == b@[j],
        decreases n - i,
    {
        if a.get_char(i) != b.get_char(i) {
            return false;
        }
        i += 1;
    }
    assert(a@ == b@);
    true
}

/// Whether a text is one of `words`.
pub fn one_of(text: &str, words: &[&str]) -> (found: bool)
    ensures
        found == exists|i: int| 0 <= i < words@.len() && (#[trigger] words@[i])@ == text@,
{
    let mut i: usize = 0;
    while i < words.len()
        invariant
            i <= words@.len(),
            forall|j: int| 0 <= j < i ==> (#[trigger] words@[j])@ != text@,
        decreases words@.len() - i,
    {
        if same_text(words[i], text) {
            return true;
        }
        i += 1;
    }
    false
}

/// The options that take a value.
pub open spec fn valued_names() -> Seq<Seq<char>> {
    seq![
        "format"@,
        "bits"@,
        "method"@,
        "alpha"@,
        "alpha1"@,
        "alpha0"@,
        "channel-weights"@,
        "channels"@,
        "mu"@,
        "mu-scale"@,
        "mu-power"@,
        "weight-power"@,
        "dc-weight"@,
        "centres"@,
        "slack"@,
        "slack-cost"@,
        "iterations"@,
        "tolerance"@,
        "relative-tolerance"@,
        "partial-tolerance"@,
        "partial-radius"@,
        "step-ratio"@,
        "relaxation"@,
        "step-product"@,
        "norm-squared"@,
        "record-every"@,
        "free-radius"@,
        "subgradient-iterations"@,
        "subgradient-step"@,
        "subgradient-decay"@,
        "subgradient-record-every"@,
        "max-pixels"@,
        "max-scans"@,
        "report"@,
    ]
}

/// The options that take none.
pub open spec fn flag_names() -> Seq<Seq<char>> {
    seq![
        "ycbcr"@,
        "overwrite"@,
        "no-weight-scaling"@,
        "no-momentum"@,
        "warnings-are-errors"@,
        "verbose"@,
        "quiet"@,
        "version"@,
        "help"@,
    ]
}

/// The options that take a value, as text.
fn valued_words() -> (words: Vec<&'static str>)
    ensures
        words@.len() == valued_names().len(),
        forall|i: int| 0 <= i < words@.len() ==> (#[trigger] words@[i])@ == valued_names()[i],
{
    let words: Vec<&'static str> = vec![
        "format",
        "bits",
        "method",
        "alpha",
        "alpha1",
        "alpha0",
        "channel-weights",
        "channels",
        "mu",
        "mu-scale",
        "mu-power",
        "weight-power",
        "dc-weight",
        "centres",
        "slack",
        "slack-cost",
        "iterations",
        "tolerance",
        "relative-tolerance",
        "partial-tolerance",
        "partial-radius",
        "step-ratio",
        "relaxation",
        "step-product",
        "norm-squared",
        "record-every",
        "free-radius",
        "subgradient-iterations",
        "subgradient-step",
        "subgradient-decay",
        "subgradient-record-every",
        "max-pixels",
        "max-scans",
        "report",
    ];
    words
}

/// The options that take none, as text.
fn flag_words() -> (words: Vec<&'static str>)
    ensures
        words@.len() == flag_names().len(),
        forall|i: int| 0 <= i < words@.len() ==> (#[trigger] words@[i])@ == flag_names()[i],
{
    let words: Vec<&'static str> = vec![
        "ycbcr",
        "overwrite",
        "no-weight-scaling",
        "no-momentum",
        "warnings-are-errors",
        "verbose",
        "quiet",
        "version",
        "help",
    ];
    words
}


// ---------------------------------------------------------------------------
// The options given.
// ---------------------------------------------------------------------------

/// The first `=` of a text from `from` on, where it has one.
pub open spec fn equals_from(text: Seq<char>, from: int) -> Option<int>
    decreases text.len() - from,
{
    if from < 0 || from >= text.len() {
        None
    } else if text[from] == '=' {
        Some(from)
    } else {
        equals_from(text, from + 1)
    }
}

/// The first `=` of a text, where it has one.
pub open spec fn equals_at(text: Seq<char>) -> Option<int> {
    equals_from(text, 0)
}

/// The name of an option: what comes before its first `=`.
pub open spec fn option_name(option: Seq<char>) -> Seq<char> {
    match equals_at(option) {
        Some(at) => option.subrange(0, at),
        None => option,
    }
}

/// The value given with an option, after its first `=`, where it has one.
pub open spec fn option_inline(option: Seq<char>) -> Option<Seq<char>> {
    match equals_at(option) {
        Some(at) => Some(option.subrange(at + 1, option.len() as int)),
        None => None,
    }
}

/// Where the value of an option is among the values given from `from` on.
pub open spec fn value_from(values: Seq<(Seq<char>, Seq<char>)>, name: Seq<char>, from: int) -> Option<int>
    decreases values.len() - from,
{
    if from < 0 || from >= values.len() {
        None
    } else if values[from].0 == name {
        Some(from)
    } else {
        value_from(values, name, from + 1)
    }
}

/// Where the value of an option is among the values given.
pub open spec fn value_index(values: Seq<(Seq<char>, Seq<char>)>, name: Seq<char>) -> Option<int> {
    value_from(values, name, 0)
}

/// `unknown option {text}`.
pub open spec fn unknown_short(text: Seq<char>) -> Seq<char> {
    "unknown option "@ + text
}

/// `unknown option --{name}`.
pub open spec fn unknown_long(name: Seq<char>) -> Seq<char> {
    "unknown option --"@ + name
}

/// `--{name} takes no value`.
pub open spec fn takes_no_value(name: Seq<char>) -> Seq<char> {
    "--"@ + name + " takes no value"@
}

/// `--{name} is given twice`.
pub open spec fn given_twice(name: Seq<char>) -> Seq<char> {
    "--"@ + name + " is given twice"@
}

/// `--{name} needs a value`.
pub open spec fn needs_value(name: Seq<char>) -> Seq<char> {
    "--"@ + name + " needs a value"@
}

/// What the arguments read so far give: whether `--` ended the options, the values of
/// the options that take one, the options that take none, the places of the
/// positional arguments, and what was refused.
pub ghost struct Split {
    /// Whether `--` ended the options.
    pub ended: bool,
    /// The values given, by name, in the order the names came.
    pub values: Seq<(Seq<char>, Seq<char>)>,
    /// The options that take none, given.
    pub flags: Seq<Seq<char>>,
    /// The places of the positional arguments.
    pub positional: Seq<int>,
    /// What was refused, in order.
    pub errors: Seq<Seq<char>>,
}

/// Nothing read yet.
pub open spec fn split_start() -> Split {
    Split { ended: false, values: seq![], flags: seq![], positional: seq![], errors: seq![] }
}

/// An option read at argument `i`, `--` and `=` taken off: where the next argument to
/// read is, and what the arguments give then. An option that takes a value and has
/// none after `=` takes the next argument, whatever it is.
pub open spec fn read_option(arguments: Seq<Option<Seq<char>>>, i: int, split: Split, option: Seq<char>) -> (int, Split) {
    let name = option_name(option);
    let inline = option_inline(option);
    if flag_names().contains(name) {
        if inline is Some {
            (i + 1, Split { errors: split.errors.push(takes_no_value(name)), ..split })
        } else if split.flags.contains(name) {
            (i + 1, Split { errors: split.errors.push(given_twice(name)), ..split })
        } else {
            (i + 1, Split { flags: split.flags.push(name), ..split })
        }
    } else if valued_names().contains(name) {
        let (value, next) = match inline {
            Some(value) => (Some(value), i + 1),
            None => if i + 1 < arguments.len() {
                (arguments[i + 1], i + 2)
            } else {
                (None, i + 1)
            },
        };
        match value {
            None => (next, Split { errors: split.errors.push(needs_value(name)), ..split }),
            Some(value) => match value_index(split.values, name) {
                Some(at) => (
                    next,
                    Split {
                        values: split.values.update(at, (name, value)),
                        errors: split.errors.push(given_twice(name)),
                        ..split
                    },
                ),
                None => (next, Split { values: split.values.push((name, value)), ..split }),
            },
        }
    } else {
        (i + 1, Split { errors: split.errors.push(unknown_long(name)), ..split })
    }
}

/// Argument `i` read: where the next argument to read is, and what the arguments give
/// then.
pub open spec fn read_argument(arguments: Seq<Option<Seq<char>>>, i: int, split: Split) -> (int, Split) {
    match arguments[i] {
        None => (i + 1, Split { positional: split.positional.push(i), ..split }),
        Some(text) => if !split.ended && text == "--"@ {
            (i + 1, Split { ended: true, ..split })
        } else if !split.ended && text.len() >= 2 && text[0] == '-' && text[1] == '-' {
            read_option(arguments, i, split, text.subrange(2, text.len() as int))
        } else if !split.ended && text == "-v"@ {
            read_option(arguments, i, split, "verbose"@)
        } else if !split.ended && text == "-q"@ {
            read_option(arguments, i, split, "quiet"@)
        } else if !split.ended && text == "-h"@ {
            read_option(arguments, i, split, "help"@)
        } else if !split.ended && text.len() >= 1 && text[0] == '-' && text != "-"@ {
            (i + 1, Split { errors: split.errors.push(unknown_short(text)), ..split })
        } else {
            (i + 1, Split { positional: split.positional.push(i), ..split })
        }
    }
}

/// What the arguments from `i` on give, read after what `split` holds.
pub open spec fn split_from(arguments: Seq<Option<Seq<char>>>, i: int, split: Split) -> Split
    decreases arguments.len() - i,
{
    if i < 0 || i >= arguments.len() {
        split
    } else {
        let (next, after) = read_argument(arguments, i, split);
        if next <= i {
            after
        } else {
            split_from(arguments, next, after)
        }
    }
}

/// The arguments as text, `None` where an argument is not Unicode.
pub open spec fn arguments_view(arguments: Seq<Option<String>>) -> Seq<Option<Seq<char>>> {
    arguments.map_values(
        |argument: Option<String>|
            match argument {
                Some(text) => Some(text@),
                None => None,
            },
    )
}

/// The options given, by name, and the places of the positional arguments.
#[derive(Debug, Clone)]
pub struct Given {
    values: Vec<(String, String)>,
    flags: Vec<String>,
    positional: Vec<usize>,
}

impl Given {
    /// The values given, in contracts.
    pub closed spec fn values_view(&self) -> Seq<(Seq<char>, Seq<char>)> {
        self.values@.map_values(|entry: (String, String)| (entry.0@, entry.1@))
    }

    /// The options that take none, given, in contracts.
    pub closed spec fn flags_view(&self) -> Seq<Seq<char>> {
        self.flags@.map_values(|name: String| name@)
    }

    /// The places of the positional arguments, in contracts.
    pub closed spec fn positional_view(&self) -> Seq<int> {
        self.positional@.map_values(|place: usize| place as int)
    }

    /// Whether it holds what `split` says.
    pub open spec fn is(&self, split: Split) -> bool {
        &&& self.values_view() == split.values
        &&& self.flags_view() == split.flags
        &&& self.positional_view() == split.positional
    }
}


/// Where the first `=` of a text is, computed.
fn find_equals(text: &str) -> (at: Option<usize>)
    ensures
        match at {
            Some(at) => equals_at(text@) == Some(at as int),
            None => equals_at(text@) is None,
        },
{
    let n = text.unicode_len();
    let mut k: usize = 0;
    while k < n
        invariant
            n == text@.len(),
            k <= n,
            equals_from(text@, 0) == equals_from(text@, k as int),
        decreases n - k,
    {
        if text.get_char(k) == '=' {
            return Some(k);
        }
        k += 1;
    }
    None
}

/// Where the value of an option is among the values given, computed.
fn find_value(values: &Vec<(String, String)>, name: &str) -> (at: Option<usize>)
    ensures
        ({
            let view = values@.map_values(|entry: (String, String)| (entry.0@, entry.1@));
            match at {
                Some(at) => value_index(view, name@) == Some(at as int) && at < values@.len(),
                None => value_index(view, name@) is None,
            }
        }),
{
    let ghost view = values@.map_values(|entry: (String, String)| (entry.0@, entry.1@));
    let mut k: usize = 0;
    while k < values.len()
        invariant
            view == values@.map_values(|entry: (String, String)| (entry.0@, entry.1@)),
            k <= values@.len(),
            value_from(view, name@, 0) == value_from(view, name@, k as int),
        decreases values@.len() - k,
    {
        if same_text(values[k].0.as_str(), name) {
            assert(view[k as int].0 == name@);
            return Some(k);
        }
        k += 1;
    }
    None
}

/// Whether an option that takes no value was given, computed.
fn has_flag(flags: &Vec<String>, name: &str) -> (found: bool)
    ensures
        found == flags@.map_values(|flag: String| flag@).contains(name@),
{
    let ghost view = flags@.map_values(|flag: String| flag@);
    let mut k: usize = 0;
    while k < flags.len()
        invariant
            view == flags@.map_values(|flag: String| flag@),
            k <= flags@.len(),
            forall|j: int| 0 <= j < k ==> view[j] != name@,
        decreases flags@.len() - k,
    {
        if same_text(flags[k].as_str(), name) {
            assert(view[k as int] == name@);
            return true;
        }
        k += 1;
    }
    false
}

/// `--{name}{words}`, as a message.
fn option_message(name: &str, words: &str) -> (message: String)
    ensures
        message@ == "--"@ + name@ + words@,
{
    let mut message = text("--");
    add_text(&mut message, name);
    add_text(&mut message, words);
    message
}


impl Given {
    /// What the given options and the refusals are, as a split of the arguments.
    pub open spec fn split_of(&self, ended: bool, errors: Seq<String>) -> Split {
        Split {
            ended,
            values: self.values_view(),
            flags: self.flags_view(),
            positional: self.positional_view(),
            errors: errors.map_values(|error: String| error@),
        }
    }
}

/// Reads an option at argument `i`, `--` and `=` taken off; gives where the next
/// argument to read is.
fn read_option_at(
    arguments: &[Option<String>],
    i: usize,
    option: &str,
    ended: bool,
    given: &mut Given,
    errors: &mut Vec<String>,
) -> (next: usize)
    requires
        i < arguments@.len(),
    ensures
        ({
            let (n, after) = read_option(
                arguments_view(arguments@),
                i as int,
                old(given).split_of(ended, old(errors)@),
                option@,
            );
            &&& next == n
            &&& final(given).split_of(ended, final(errors)@) == after
        }),
        i < next <= i + 2,
        next <= arguments@.len(),
{
    let ghost args = arguments_view(arguments@);
    let ghost before = given.split_of(ended, errors@);
    let count = arguments.len();
    let n = option.unicode_len();
    let at = find_equals(option);
    let (name, inline): (&str, Option<&str>) = match at {
        Some(k) => {
            proof {
                assert(equals_from(option@, 0) == Some(k as int));
                lemma_equals_below(option@, 0);
            }
            (option.substring_char(0, k), Some(option.substring_char(k + 1, n)))
        },
        None => (option, None),
    };
    proof {
        assert(name@ == option_name(option@));
        assert(match inline {
            Some(text) => option_inline(option@) == Some(text@),
            None => option_inline(option@) is None,
        });
    }
    let flags = flag_words();
    let valued = valued_words();
    let is_flag = one_of(name, flags.as_slice());
    proof {
        if is_flag {
            let j = choose|j: int| 0 <= j < flags@.len() && (#[trigger] flags@[j])@ == name@;
            assert(flag_names()[j] == name@);
        }
        if flag_names().contains(name@) {
            let j = choose|j: int| 0 <= j < flag_names().len() && flag_names()[j] == name@;
            assert(flags@[j]@ == name@);
        }
        assert(is_flag == flag_names().contains(name@));
    }
    if is_flag {
        if inline.is_some() {
            errors.push(option_message(name, " takes no value"));
            proof {
                assert(errors@.map_values(|error: String| error@) == before.errors.push(takes_no_value(name@)));
            }
            return i + 1;
        }
        if has_flag(&given.flags, name) {
            errors.push(option_message(name, " is given twice"));
            proof {
                assert(errors@.map_values(|error: String| error@) == before.errors.push(given_twice(name@)));
            }
            return i + 1;
        }
        given.flags.push(String::from_str(name));
        proof {
            assert(given.flags_view() == before.flags.push(name@));
        }
        return i + 1;
    }
    let is_valued = one_of(name, valued.as_slice());
    proof {
        if is_valued {
            let j = choose|j: int| 0 <= j < valued@.len() && (#[trigger] valued@[j])@ == name@;
            assert(valued_names()[j] == name@);
        }
        if valued_names().contains(name@) {
            let j = choose|j: int| 0 <= j < valued_names().len() && valued_names()[j] == name@;
            assert(valued@[j]@ == name@);
        }
        assert(is_valued == valued_names().contains(name@));
    }
    if !is_valued {
        let mut message = text("unknown option --");
        add_text(&mut message, name);
        errors.push(message);
        proof {
            assert(errors@.map_values(|error: String| error@) == before.errors.push(unknown_long(name@)));
        }
        return i + 1;
    }
    let (value, next): (Option<String>, usize) = match inline {
        Some(text) => (Some(String::from_str(text)), i + 1),
        None => if i + 1 < arguments.len() {
            match &arguments[i + 1] {
                Some(text) => (Some(text.clone()), i + 2),
                None => (None, i + 2),
            }
        } else {
            (None, i + 1)
        },
    };
    proof {
        assert(match value {
            Some(text) => {
                match option_inline(option@) {
                    Some(inline) => text@ == inline,
                    None => i + 1 < args.len() && args[i + 1] == Some(text@),
                }
            },
            None => option_inline(option@) is None && (i + 1 < args.len() ==> args[i + 1] is None),
        });
    }
    match value {
        None => {
            errors.push(option_message(name, " needs a value"));
            proof {
                assert(errors@.map_values(|error: String| error@) == before.errors.push(needs_value(name@)));
            }
            next
        },
        Some(value) => {
            let ghost value_view = value@;
            match find_value(&given.values, name) {
                Some(at) => {
                    given.values.set(at, (String::from_str(name), value));
                    errors.push(option_message(name, " is given twice"));
                    proof {
                        assert(given.values_view() == before.values.update(at as int, (name@, value_view)));
                        assert(errors@.map_values(|error: String| error@) == before.errors.push(given_twice(name@)));
                    }
                    next
                },
                None => {
                    given.values.push((String::from_str(name), value));
                    proof {
                        assert(given.values_view() == before.values.push((name@, value_view)));
                    }
                    next
                },
            }
        },
    }
}

/// The first `=` from `from` on is within the text.
proof fn lemma_equals_below(text: Seq<char>, from: int)
    ensures
        equals_from(text, from) matches Some(at) ==> from <= at < text.len() && text[at] == '=',
    decreases text.len() - from,
{
    if 0 <= from < text.len() && text[from] != '=' {
        lemma_equals_below(text, from + 1);
    }
}


/// The options given, by name, and the positional arguments, of the arguments of the
/// command line (without the program's name); and every option refused, in order.
pub fn split(arguments: &[Option<String>]) -> (result: (Given, Vec<String>))
    ensures
        ({
            let split = split_from(arguments_view(arguments@), 0, split_start());
            &&& result.0.is(split)
            &&& result.1@.map_values(|error: String| error@) == split.errors
        }),
{
    let ghost args = arguments_view(arguments@);
    let count = arguments.len();
    let mut given = Given { values: Vec::new(), flags: Vec::new(), positional: Vec::new() };
    let mut errors: Vec<String> = Vec::new();
    let mut ended = false;
    let mut i: usize = 0;
    proof {
        assert(given.values_view() == Seq::<(Seq<char>, Seq<char>)>::empty());
        assert(given.flags_view() == Seq::<Seq<char>>::empty());
        assert(given.positional_view() == Seq::<int>::empty());
        assert(errors@.map_values(|error: String| error@) == Seq::<Seq<char>>::empty());
        assert(given.split_of(false, errors@) == split_start());
    }
    while i < count
        invariant
            count == arguments@.len(),
            args == arguments_view(arguments@),
            i <= count,
            split_from(args, 0, split_start()) == split_from(args, i as int, given.split_of(ended, errors@)),
        decreases count - i,
    {
        let ghost before = given.split_of(ended, errors@);
        let ghost (next, after) = read_argument(args, i as int, before);
        let ghost start = i;
        match &arguments[i] {
            None => {
                given.positional.push(i);
                proof {
                    assert(given.positional_view() == before.positional.push(i as int));
                }
                i += 1;
            },
            Some(argument) => {
                let text = argument.as_str();
                let len = text.unicode_len();
                if !ended && same_text(text, "--") {
                    ended = true;
                    i += 1;
                } else if !ended && len >= 2 && text.get_char(0) == '-' && text.get_char(1) == '-' {
                    let option = text.substring_char(2, len);
                    i = read_option_at(arguments, i, option, ended, &mut given, &mut errors);
                } else if !ended && same_text(text, "-v") {
                    i = read_option_at(arguments, i, "verbose", ended, &mut given, &mut errors);
                } else if !ended && same_text(text, "-q") {
                    i = read_option_at(arguments, i, "quiet", ended, &mut given, &mut errors);
                } else if !ended && same_text(text, "-h") {
                    i = read_option_at(arguments, i, "help", ended, &mut given, &mut errors);
                } else if !ended && len >= 1 && text.get_char(0) == '-' && !same_text(text, "-") {
                    let mut message = crate::error::text("unknown option ");
                    add_text(&mut message, text);
                    errors.push(message);
                    proof {
                        assert(errors@.map_values(|error: String| error@) == before.errors.push(
                            unknown_short(text@),
                        ));
                    }
                    i += 1;
                } else {
                    given.positional.push(i);
                    proof {
                        assert(given.positional_view() == before.positional.push(i as int));
                    }
                    i += 1;
                }
            },
        }
        proof {
            assert(i == next);
            assert(given.split_of(ended, errors@) == after);
            assert(split_from(args, start as int, before) == split_from(args, next, after));
        }
    }
    (given, errors)
}


/// The value given of an option, where there is one.
pub open spec fn value_of(values: Seq<(Seq<char>, Seq<char>)>, name: Seq<char>) -> Option<Seq<char>> {
    match value_index(values, name) {
        Some(at) => Some(values[at].1),
        None => None,
    }
}

impl Given {
    /// The value given of an option, where there is one.
    pub fn text(&self, name: &str) -> (value: Option<&str>)
        ensures
            match value {
                Some(value) => value_of(self.values_view(), name@) == Some(value@),
                None => value_of(self.values_view(), name@) is None,
            },
    {
        match find_value(&self.values, name) {
            Some(at) => Some(self.values[at].1.as_str()),
            None => None,
        }
    }

    /// Whether an option that takes no value was given.
    pub fn flag(&self, name: &str) -> (given: bool)
        ensures
            given == self.flags_view().contains(name@),
    {
        has_flag(&self.flags, name)
    }

    /// The places of the positional arguments among the arguments.
    pub fn positional(&self) -> (places: &[usize])
        ensures
            places@.map_values(|place: usize| place as int) == self.positional_view(),
    {
        self.positional.as_slice()
    }
}

// ---------------------------------------------------------------------------
// Values.
// ---------------------------------------------------------------------------

/// The value of a decimal digit.
pub open spec fn digit_value(c: char) -> int {
    c as int - '0' as int
}

/// Whether a character is a decimal digit.
pub open spec fn is_digit(c: char) -> bool {
    '0' <= c <= '9'
}

/// Whether every character of a text is a decimal digit.
pub open spec fn all_digits(text: Seq<char>) -> bool {
    forall|i: int| 0 <= i < text.len() ==> is_digit(#[trigger] text[i])
}

/// The value of digits, the first the most significant.
pub open spec fn digits_value(digits: Seq<char>) -> int
    decreases digits.len(),
{
    if digits.len() == 0 {
        0
    } else {
        digits_value(digits.drop_last()) * 10 + digit_value(digits.last())
    }
}

/// A whole number as `u64::from_str` reads it: an optional `+`, then one digit at
/// least, and nothing else, of a value that a `u64` holds.
pub open spec fn whole_number(text: Seq<char>) -> Option<nat> {
    let digits = if text.len() > 0 && text[0] == '+' {
        text.drop_first()
    } else {
        text
    };
    if digits.len() > 0 && all_digits(digits) && digits_value(digits) <= u64::MAX {
        Some(digits_value(digits) as nat)
    } else {
        None
    }
}

/// The digits of a prefix of text, one more digit read.
proof fn lemma_digits_push(digits: Seq<char>, i: int)
    requires
        0 <= i < digits.len(),
    ensures
        digits_value(digits.subrange(0, i + 1)) == digits_value(digits.subrange(0, i)) * 10
            + digit_value(digits[i]),
{
    assert(digits.subrange(0, i + 1).drop_last() == digits.subrange(0, i));
}

/// More digits are worth at least as much, and no digits nothing.
proof fn lemma_digits_grow(digits: Seq<char>, i: int, j: int)
    requires
        0 <= i <= j <= digits.len(),
        forall|k: int| 0 <= k < digits.len() ==> is_digit(#[trigger] digits[k]),
    ensures
        0 <= digits_value(digits.subrange(0, i)),
        digits_value(digits.subrange(0, i)) <= digits_value(digits.subrange(0, j)),
    decreases j,
{
    if j == 0 {
        assert(digits.subrange(0, 0).len() == 0);
    } else if i == j {
        lemma_digits_grow(digits, 0, j - 1);
        lemma_digits_push(digits, j - 1);
        assert(is_digit(digits[j - 1]));
    } else {
        lemma_digits_grow(digits, i, j - 1);
        lemma_digits_push(digits, j - 1);
        assert(is_digit(digits[j - 1]));
        assert(digits_value(digits.subrange(0, j - 1)) <= digits_value(digits.subrange(0, j - 1)) * 10)
            by (nonlinear_arith)
            requires
                0 <= digits_value(digits.subrange(0, j - 1)),
        ;
    }
}

/// A whole number read as `u64::from_str` reads it.
pub fn parse_whole(text: &str) -> (value: Option<u64>)
    ensures
        match value {
            Some(value) => whole_number(text@) == Some(value as nat),
            None => whole_number(text@) is None,
        },
{
    let n = text.unicode_len();
    let start: usize = if n > 0 && text.get_char(0) == '+' {
        1
    } else {
        0
    };
    let ghost digits = if text@.len() > 0 && text@[0] == '+' {
        text@.drop_first()
    } else {
        text@
    };
    proof {
        assert(digits == text@.subrange(start as int, n as int));
    }
    if start >= n {
        return None;
    }
    let mut value: u64 = 0;
    let mut i: usize = start;
    while i < n
        invariant
            n == text@.len(),
            start <= i <= n,
            start < n,
            digits == text@.subrange(start as int, n as int),
            digits == (if text@.len() > 0 && text@[0] == '+' {
                text@.drop_first()
            } else {
                text@
            }),
            forall|k: int| 0 <= k < i - start ==> is_digit(#[trigger] digits[k]),
            value == digits_value(digits.subrange(0, i - start)),
        decreases n - i,
    {
        let c = text.get_char(i);
        if !('0' <= c && c <= '9') {
            proof {
                assert(!is_digit(digits[i - start]));
                assert(!all_digits(digits));
                assert(whole_number(text@) is None);
            }
            return None;
        }
        let d = (c as u32 - '0' as u32) as u64;
        proof {
            lemma_digits_push(digits, i - start);
        }
        if value > (u64::MAX - d) / 10 {
            proof {
                assert(value * 10 + d > u64::MAX) by (nonlinear_arith)
                    requires
                        value > (u64::MAX - d) / 10,
                        d <= 9,
                ;
                assert(digits_value(digits.subrange(0, i - start + 1)) > u64::MAX);
                if all_digits(digits) {
                    lemma_digits_grow(digits, i - start + 1, digits.len() as int);
                    assert(digits.subrange(0, digits.len() as int) == digits);
                }
                assert(whole_number(text@) is None);
            }
            return None;
        }
        value = value * 10 + d;
        i += 1;
    }
    proof {
        assert(digits.subrange(0, n - start) == digits);
    }
    Some(value)
}

/// Why the value of an option is not a whole number of at least `least`.
pub open spec fn count_refusal(name: Seq<char>, least: u64, value: Seq<char>) -> Seq<char> {
    "--"@ + name + " is a whole number of at least "@ + decimal(least as nat) + ", not "@ + value
}

/// The whole number given of an option, where one is given, of at least `least`;
/// anything else given is refused, and the refusal added to `errors`.
pub fn count(given: &Given, name: &str, least: u64, errors: &mut Vec<String>) -> (value: Option<u64>)
    ensures
        match value_of(given.values_view(), name@) {
            None => value is None && final(errors)@ == old(errors)@,
            Some(text) => match whole_number(text) {
                Some(number) if number >= least => value == Some(number as u64) && final(errors)@
                    == old(errors)@,
                _ => {
                    &&& value is None
                    &&& final(errors)@.len() == old(errors)@.len() + 1
                    &&& final(errors)@.subrange(0, old(errors)@.len() as int) == old(errors)@
                    &&& final(errors)@.last()@ == count_refusal(name@, least, text)
                },
            },
        },
{
    let text = match given.text(name) {
        Some(text) => text,
        None => return None,
    };
    match parse_whole(text) {
        Some(value) => if value >= least {
            return Some(value);
        },
        None => {},
    }
    let mut message = option_message(name, " is a whole number of at least ");
    add_number(&mut message, least);
    add_text(&mut message, ", not ");
    add_text(&mut message, text);
    errors.push(message);
    None
}


/// The words of choices, joined by `, `.
pub open spec fn joined(words: Seq<Seq<char>>) -> Seq<char>
    decreases words.len(),
{
    if words.len() == 0 {
        seq![]
    } else if words.len() == 1 {
        words[0]
    } else {
        joined(words.drop_last()) + ", "@ + words.last()
    }
}

/// The first of `words` that a text is, where it is one.
pub open spec fn word_from(words: Seq<Seq<char>>, text: Seq<char>, from: int) -> Option<int>
    decreases words.len() - from,
{
    if from < 0 || from >= words.len() {
        None
    } else if words[from] == text {
        Some(from)
    } else {
        word_from(words, text, from + 1)
    }
}

/// The first word that a text is lies among the words.
proof fn lemma_word_below(words: Seq<Seq<char>>, text: Seq<char>, from: int)
    ensures
        word_from(words, text, from) matches Some(at) ==> from <= at < words.len() && words[at] == text,
    decreases words.len() - from,
{
    if 0 <= from < words.len() && words[from] != text {
        lemma_word_below(words, text, from + 1);
    }
}

/// The choice that an option is given, by its place among `words`, where one is
/// given and it is one of them.
pub open spec fn chosen(values: Seq<(Seq<char>, Seq<char>)>, name: Seq<char>, words: Seq<Seq<char>>) -> Option<int> {
    match value_of(values, name) {
        Some(text) => word_from(words, text, 0),
        None => None,
    }
}

/// Why the value of an option is not one of its choices.
pub open spec fn choice_refusal(name: Seq<char>, words: Seq<Seq<char>>, value: Seq<char>) -> Seq<char> {
    "--"@ + name + " is one of "@ + joined(words) + ", not "@ + value
}

/// What a choice refuses: the value given, where it is none of the words.
pub open spec fn choice_errors(values: Seq<(Seq<char>, Seq<char>)>, name: Seq<char>, words: Seq<Seq<char>>) -> Seq<Seq<char>> {
    match value_of(values, name) {
        Some(text) => if word_from(words, text, 0) is None {
            seq![choice_refusal(name, words, text)]
        } else {
            seq![]
        },
        None => seq![],
    }
}

/// The errors of a list, as text.
pub open spec fn errors_view(errors: Seq<String>) -> Seq<Seq<char>> {
    errors.map_values(|error: String| error@)
}

/// The words of choices, as text.
pub open spec fn words_of<T>(choices: Seq<(&str, T)>) -> Seq<Seq<char>> {
    choices.map_values(|choice: (&str, T)| choice.0@)
}

/// The choice given of an option, where one is given, among `choices` of words and
/// values; anything else given is refused, and the refusal added to `errors`.
pub fn choice<T: Copy>(given: &Given, name: &str, choices: &[(&str, T)], errors: &mut Vec<String>) -> (value: Option<T>)
    ensures
        match chosen(given.values_view(), name@, words_of(choices@)) {
            Some(at) => value == Some(choices@[at].1),
            None => value is None,
        },
        errors_view(final(errors)@) == errors_view(old(errors)@) + choice_errors(
            given.values_view(),
            name@,
            words_of(choices@),
        ),
{
    let ghost words = words_of(choices@);
    let text = match given.text(name) {
        Some(text) => text,
        None => {
            assert(errors_view(errors@) == errors_view(old(errors)@) + Seq::<Seq<char>>::empty());
            return None;
        },
    };
    let mut i: usize = 0;
    while i < choices.len()
        invariant
            words == words_of(choices@),
            value_of(given.values_view(), name@) == Some(text@),
            errors@ == old(errors)@,
            i <= choices@.len(),
            word_from(words, text@, 0) == word_from(words, text@, i as int),
        decreases choices@.len() - i,
    {
        if same_text(choices[i].0, text) {
            assert(words[i as int] == text@);
            assert(errors_view(errors@) == errors_view(old(errors)@) + Seq::<Seq<char>>::empty());
            return Some(choices[i].1);
        }
        i += 1;
    }
    let mut message = option_message(name, " is one of ");
    let mut j: usize = 0;
    while j < choices.len()
        invariant
            words == words_of(choices@),
            value_of(given.values_view(), name@) == Some(text@),
            word_from(words, text@, 0) is None,
            errors@ == old(errors)@,
            j <= choices@.len(),
            message@ == "--"@ + name@ + " is one of "@ + joined(words.subrange(0, j as int)),
        decreases choices@.len() - j,
    {
        if j > 0 {
            add_text(&mut message, ", ");
        }
        add_text(&mut message, choices[j].0);
        proof {
            let before = words.subrange(0, j as int);
            let after = words.subrange(0, j + 1);
            assert(after.drop_last() == before);
            if j == 0 {
                assert(joined(before) == Seq::<char>::empty());
            }
        }
        j += 1;
    }
    proof {
        assert(words.subrange(0, choices@.len() as int) == words);
    }
    add_text(&mut message, ", not ");
    add_text(&mut message, text);
    errors.push(message);
    assert(errors_view(errors@) == errors_view(old(errors)@).push(choice_refusal(name@, words, text@)));
    None
}

/// A byte of ASCII in lower case.
pub open spec fn lower(byte: u8) -> u8 {
    if 65 <= byte <= 90 {
        (byte + 32) as u8
    } else {
        byte
    }
}

/// The format that an extension names, in any case: `tif` or `tiff` for TIFF, and
/// `pgm`, `ppm` or `pnm` for PNM.
pub open spec fn format_named(extension: Seq<u8>) -> Option<Format> {
    let name = extension.map_values(|byte: u8| lower(byte));
    if name == seq![116u8, 105, 102] || name == seq![116u8, 105, 102, 102] {
        Some(Format::Tiff)
    } else if name == seq![112u8, 103, 109] || name == seq![112u8, 112, 109] || name == seq![112u8, 110, 109] {
        Some(Format::Pnm)
    } else {
        None
    }
}

/// The format that a path's extension names, in any case, where it names one: the
/// extension's bytes.
pub fn format_of(extension: &[u8]) -> (format: Option<Format>)
    ensures
        format == format_named(extension@),
{
    let mut name: Vec<u8> = Vec::new();
    let mut i: usize = 0;
    while i < extension.len()
        invariant
            i <= extension@.len(),
            name@ == extension@.subrange(0, i as int).map_values(|byte: u8| lower(byte)),
        decreases extension@.len() - i,
    {
        let byte = extension[i];
        name.push(if 65 <= byte && byte <= 90 { byte + 32 } else { byte });
        proof {
            assert(extension@.subrange(0, i + 1).map_values(|byte: u8| lower(byte)) == extension@.subrange(
                0,
                i as int,
            ).map_values(|byte: u8| lower(byte)).push(lower(byte)));
        }
        i += 1;
    }
    proof {
        assert(extension@.subrange(0, extension@.len() as int) == extension@);
    }
    let n = name.len();
    if (n == 3 && name[0] == 116 && name[1] == 105 && name[2] == 102) || (n == 4 && name[0] == 116
        && name[1] == 105 && name[2] == 102 && name[3] == 102) {
        proof {
            if n == 3 {
                assert(name@ == seq![116u8, 105, 102]);
            } else {
                assert(name@ == seq![116u8, 105, 102, 102]);
            }
        }
        Some(Format::Tiff)
    } else if n == 3 && name[0] == 112 && name[2] == 109 && (name[1] == 103 || name[1] == 112
        || name[1] == 110) {
        proof {
            if name[1] == 103 {
                assert(name@ == seq![112u8, 103, 109]);
            } else if name[1] == 112 {
                assert(name@ == seq![112u8, 112, 109]);
            } else {
                assert(name@ == seq![112u8, 110, 109]);
            }
        }
        Some(Format::Pnm)
    } else {
        proof {
            assert(name@ != seq![116u8, 105, 102]) by {
                if name@ == seq![116u8, 105, 102] {
                    assert(name@[0] == 116 && name@[1] == 105 && name@[2] == 102);
                }
            }
            assert(name@ != seq![116u8, 105, 102, 102]) by {
                if name@ == seq![116u8, 105, 102, 102] {
                    assert(name@[3] == 102);
                }
            }
            assert(name@ != seq![112u8, 103, 109]) by {
                if name@ == seq![112u8, 103, 109] {
                    assert(name@[1] == 103);
                }
            }
            assert(name@ != seq![112u8, 112, 109]) by {
                if name@ == seq![112u8, 112, 109] {
                    assert(name@[1] == 112);
                }
            }
            assert(name@ != seq![112u8, 110, 109]) by {
                if name@ == seq![112u8, 110, 109] {
                    assert(name@[1] == 110);
                }
            }
        }
        None
    }
}


/// Where the result goes.
#[derive(Debug, Clone, Copy, PartialEq, Eq, Structural)]
pub enum Target {
    /// The argument at this place among the arguments.
    Named(usize),
    /// The standard output, where the input is the standard input.
    Standard,
    /// Next to the input, its extension that of the format: `tif` or `pnm`.
    Beside(Format),
}

/// What the command line asks of a reconstruction, besides the settings: the input
/// by its place among the arguments, where the result goes, its format and bits,
/// the flags, the report's path, and what goes to standard error.
#[derive(Debug, Clone)]
pub struct Outline {
    /// The place of the input among the arguments: a file, or `-`.
    pub input: usize,
    /// Where the result goes.
    pub output: Target,
    /// The format of the result.
    pub format: Format,
    /// The bits of PNM samples.
    pub bits: Bits,
    /// Whether TIFF holds the Y, Cb and Cr of the solution.
    pub ycbcr: bool,
    /// Whether a file that exists may be overwritten.
    pub overwrite: bool,
    /// Where the report goes, where one is asked for.
    pub report: Option<String>,
    /// What goes to standard error besides errors.
    pub verbosity: Verbosity,
}

/// The words of the formats.
pub open spec fn format_words() -> Seq<Seq<char>> {
    seq!["tiff"@, "pnm"@]
}

/// The words of the bits.
pub open spec fn bits_words() -> Seq<Seq<char>> {
    seq!["8"@, "16"@]
}

/// What the options of the result and of the reports refuse, and what the positional
/// arguments do, after the errors before.
pub open spec fn outline_errors(given: Given, extensions: Seq<Option<Seq<u8>>>, before: Seq<Seq<char>>) -> Seq<Seq<char>> {
    let values = given.values_view();
    let flags = given.flags_view();
    let positional = given.positional_view();
    let first = before + choice_errors(values, "format"@, format_words()) + choice_errors(
        values,
        "bits"@,
        bits_words(),
    ) + (if flags.contains("verbose"@) && flags.contains("quiet"@) {
        seq!["--verbose and --quiet do not go together"@]
    } else {
        seq![]
    }) + (if positional.len() > 2 {
        seq!["one INPUT and at most one OUTPUT"@]
    } else {
        seq![]
    });
    let format = outline_format(given, extensions);
    first + (if positional.len() == 0 {
        seq!["an INPUT file to read"@]
    } else {
        seq![]
    }) + (if flags.contains("ycbcr"@) && format != Format::Tiff {
        seq!["--ycbcr is for TIFF"@]
    } else {
        seq![]
    }) + (if chosen(values, "bits"@, bits_words()) is Some && format != Format::Pnm {
        seq!["--bits is for PNM"@]
    } else {
        seq![]
    })
}

/// The format of the result: the one given, or the one that the output's extension
/// names, or TIFF.
pub open spec fn outline_format(given: Given, extensions: Seq<Option<Seq<u8>>>) -> Format {
    let positional = given.positional_view();
    match chosen(given.values_view(), "format"@, format_words()) {
        Some(at) => if at == 0 {
            Format::Tiff
        } else {
            Format::Pnm
        },
        None => {
            let named = if positional.len() >= 2 {
                match extensions[positional[1]] {
                    Some(extension) => format_named(extension),
                    None => None,
                }
            } else {
                None
            };
            match named {
                Some(format) => format,
                None => Format::Tiff,
            }
        },
    }
}

/// The extensions of the arguments, as bytes.
pub open spec fn extensions_view(extensions: Seq<Option<Vec<u8>>>) -> Seq<Option<Seq<u8>>> {
    extensions.map_values(
        |extension: Option<Vec<u8>>|
            match extension {
                Some(bytes) => Some(bytes@),
                None => None,
            },
    )
}

/// What the command line asks of a reconstruction besides the settings, after the
/// options were split: `arguments` are those that [`split`] read, `extensions` the
/// extension of each as a path, where it has one, and `errors` what was refused
/// before. Every refusal is added to `errors`; there is no outline where there is no
/// input.
pub fn outline(arguments: &[Option<String>], extensions: &[Option<Vec<u8>>], given: &Given, errors: &mut Vec<String>) -> (result: Option<Outline>)
    requires
        extensions@.len() == arguments@.len(),
        forall|i: int| 0 <= i < given.positional_view().len() ==> 0 <= #[trigger] given.positional_view()[i] < arguments@.len(),
    ensures
        errors_view(final(errors)@) == outline_errors(*given, extensions_view(extensions@), errors_view(old(errors)@)),
        match result {
            None => given.positional_view().len() == 0,
            Some(outline) => {
                let positional = given.positional_view();
                let format = outline_format(*given, extensions_view(extensions@));
                &&& positional.len() >= 1
                &&& outline.input == positional[0]
                &&& outline.output == if positional.len() >= 2 {
                    Target::Named(positional[1] as usize)
                } else if arguments_view(arguments@)[positional[0]] == Some("-"@) {
                    Target::Standard
                } else {
                    Target::Beside(format)
                }
                &&& outline.format == format
                &&& outline.bits == if chosen(given.values_view(), "bits"@, bits_words()) == Some(1int) {
                    Bits::Sixteen
                } else {
                    Bits::Eight
                }
                &&& outline.ycbcr == given.flags_view().contains("ycbcr"@)
                &&& outline.overwrite == given.flags_view().contains("overwrite"@)
                &&& match outline.report {
                    Some(report) => value_of(given.values_view(), "report"@) == Some(report@),
                    None => value_of(given.values_view(), "report"@) is None,
                }
                &&& outline.verbosity == if given.flags_view().contains("verbose"@) {
                    Verbosity::Verbose
                } else if given.flags_view().contains("quiet"@) {
                    Verbosity::Quiet
                } else {
                    Verbosity::Normal
                }
            },
        },
{
    let ghost values = given.values_view();
    let ghost exts = extensions_view(extensions@);
    let ghost start = errors_view(errors@);
    let format_choices = [("tiff", Format::Tiff), ("pnm", Format::Pnm)];
    let bits_choices = [("8", Bits::Eight), ("16", Bits::Sixteen)];
    proof {
        assert(words_of(format_choices@) == format_words());
        assert(words_of(bits_choices@) == bits_words());
    }
    let format = choice(given, "format", &format_choices, errors);
    let bits = choice(given, "bits", &bits_choices, errors);
    proof {
        match value_of(values, "format"@) {
            Some(text) => lemma_word_below(format_words(), text, 0),
            None => {},
        }
        match value_of(values, "bits"@) {
            Some(text) => lemma_word_below(bits_words(), text, 0),
            None => {},
        }
        assert(format == match chosen(values, "format"@, format_words()) {
            Some(at) => Some(if at == 0 { Format::Tiff } else { Format::Pnm }),
            None => None,
        });
        assert(bits == match chosen(values, "bits"@, bits_words()) {
            Some(at) => Some(if at == 1 { Bits::Sixteen } else { Bits::Eight }),
            None => None,
        });
    }
    let ycbcr = given.flag("ycbcr");
    let overwrite = given.flag("overwrite");
    let verbose = given.flag("verbose");
    let quiet = given.flag("quiet");
    let report = match given.text("report") {
        Some(text) => Some(String::from_str(text)),
        None => None,
    };
    let ghost after_choices = errors_view(errors@);
    if verbose && quiet {
        errors.push(text("--verbose and --quiet do not go together"));
    }
    let positional = given.positional();
    proof {
        assert(positional@.len() == given.positional_view().len());
    }
    if positional.len() > 2 {
        errors.push(text("one INPUT and at most one OUTPUT"));
    }
    let ghost first = errors_view(errors@);
    proof {
        assert(first == start + choice_errors(values, "format"@, format_words()) + choice_errors(
            values,
            "bits"@,
            bits_words(),
        ) + (if given.flags_view().contains("verbose"@) && given.flags_view().contains("quiet"@) {
            seq!["--verbose and --quiet do not go together"@]
        } else {
            seq![]
        }) + (if given.positional_view().len() > 2 {
            seq!["one INPUT and at most one OUTPUT"@]
        } else {
            seq![]
        }));
    }
    if positional.len() == 0 {
        errors.push(text("an INPUT file to read"));
    }
    let named_format = if positional.len() >= 2 {
        let place = positional[1];
        proof {
            assert(given.positional_view()[1] == place);
        }
        match &extensions[place] {
            Some(extension) => format_of(extension.as_slice()),
            None => None,
        }
    } else {
        None
    };
    let format = match format {
        Some(format) => format,
        None => match named_format {
            Some(format) => format,
            None => Format::Tiff,
        },
    };
    proof {
        assert(format == outline_format(*given, exts));
    }
    if ycbcr && format != Format::Tiff {
        errors.push(text("--ycbcr is for TIFF"));
    }
    if bits.is_some() && format != Format::Pnm {
        errors.push(text("--bits is for PNM"));
    }
    if positional.len() == 0 {
        return None;
    }
    let input = positional[0];
    proof {
        assert(given.positional_view()[0] == input);
    }
    let output = if positional.len() >= 2 {
        Target::Named(positional[1])
    } else {
        let is_standard = match &arguments[input] {
            Some(text) => same_text(text.as_str(), "-"),
            None => false,
        };
        if is_standard {
            Target::Standard
        } else {
            Target::Beside(format)
        }
    };
    let verbosity = if verbose {
        Verbosity::Verbose
    } else if quiet {
        Verbosity::Quiet
    } else {
        Verbosity::Normal
    };
    Some(
        Outline {
            input,
            output,
            format,
            bits: match bits {
                Some(bits) => bits,
                None => Bits::Eight,
            },
            ycbcr,
            overwrite,
            report,
            verbosity,
        },
    )
}


/// A hexadecimal digit in lower case.
pub open spec fn hex_digit(d: int) -> u8 {
    if d < 10 {
        (48 + d) as u8
    } else {
        (87 + d) as u8
    }
}

/// A byte of UTF-8 text within a JSON string: `"`, `\` and the newline escaped
/// by a backslash, the other controls as `\u00XX`, and every other byte as it is.
pub open spec fn json_escaped(byte: u8) -> Seq<u8> {
    if byte == 34 {
        seq![92u8, 34u8]
    } else if byte == 92 {
        seq![92u8, 92u8]
    } else if byte == 10 {
        seq![92u8, 110u8]
    } else if byte < 32 {
        seq![92u8, 117u8, 48u8, 48u8, hex_digit(byte as int / 16), hex_digit(byte as int % 16)]
    } else {
        seq![byte]
    }
}

/// UTF-8 text within a JSON string, each byte escaped.
pub open spec fn json_body(text: Seq<u8>) -> Seq<u8>
    decreases text.len(),
{
    if text.len() == 0 {
        seq![]
    } else {
        json_body(text.drop_last()) + json_escaped(text.last())
    }
}

/// UTF-8 text as a JSON string, quoted.
pub fn json_string(text: &[u8]) -> (quoted: Vec<u8>)
    ensures
        quoted@ == seq![34u8] + json_body(text@) + seq![34u8],
{
    let mut quoted: Vec<u8> = Vec::new();
    quoted.push(34u8);
    let mut i: usize = 0;
    while i < text.len()
        invariant
            i <= text@.len(),
            quoted@ == seq![34u8] + json_body(text@.subrange(0, i as int)),
        decreases text@.len() - i,
    {
        let byte = text[i];
        let ghost before = quoted@;
        if byte == 34 {
            quoted.push(92u8);
            quoted.push(34u8);
        } else if byte == 92 {
            quoted.push(92u8);
            quoted.push(92u8);
        } else if byte == 10 {
            quoted.push(92u8);
            quoted.push(110u8);
        } else if byte < 32 {
            let high = byte / 16;
            let low = byte % 16;
            quoted.push(92u8);
            quoted.push(117u8);
            quoted.push(48u8);
            quoted.push(48u8);
            quoted.push(if high < 10 { 48 + high } else { 87 + high });
            quoted.push(if low < 10 { 48 + low } else { 87 + low });
        } else {
            quoted.push(byte);
        }
        proof {
            assert(quoted@ == before + json_escaped(byte));
            assert(text@.subrange(0, i + 1).drop_last() == text@.subrange(0, i as int));
        }
        i += 1;
    }
    proof {
        assert(text@.subrange(0, text@.len() as int) == text@);
    }
    quoted.push(34u8);
    quoted
}

} // verus!
