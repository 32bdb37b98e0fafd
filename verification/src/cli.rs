//! Tiny flag parsing shared by both programs.
//!
//! Accepts both `--flag value` and `--flag=value`. Deployment manifests pass the
//! `=` form, and a flag that is silently ignored is worse than one that is
//! rejected, so unrecognized flags are reported for the caller to surface.
use crate::text::{
    chars_of, decimal_up_to, decimal_value, is_before, law_limits_refuse_larger_numbers, lemma_text_order_is_total, lemma_text_order_is_transitive, opt_text,
    read_decimal, same_text, starts_with, str_texts, text_before, texts,
};
use std::str::FromStr;
use vstd::prelude::*;
use vstd::string::*;

verus! {

// ---------------- Values ----------------

/// `arg` is the flag `name` with its value attached.
pub open spec fn is_attached(arg: Seq<char>, name: Seq<char>) -> bool {
    name.push('=').is_prefix_of(arg)
}

/// `arg` is an occurrence of the flag `name`, in either form.
pub open spec fn is_occurrence(arg: Seq<char>, name: Seq<char>) -> bool {
    arg == name || is_attached(arg, name)
}

/// The value that the first occurrence of `name` gives: what is attached to it, or
/// else the argument behind it, where there is one.
pub open spec fn flag_text(args: Seq<Seq<char>>, name: Seq<char>) -> Option<Seq<char>>
    decreases args.len(),
{
    if args.len() == 0 {
        None
    } else if args[0] == name {
        if args.len() > 1 {
            Some(args[1])
        } else {
            None
        }
    } else if is_attached(args[0], name) {
        Some(args[0].skip(name.len() as int + 1))
    } else {
        flag_text(args.drop_first(), name)
    }
}

/// The value of `--name`, accepting `--name value` and `--name=value`.
///
/// The first occurrence decides: `--name=a` wins over a later `--name b`.
pub fn flag_value(args: &[String], name: &str) -> (value: Option<String>)
    ensures
        opt_text(value) == flag_text(texts(args@), name@),
{
    let mut prefix: String = name.to_owned();
    prefix.append("=");
    proof {
        reveal_strlit("=");
        assert(prefix@ =~= name@.push('='));
        assert(texts(args@).skip(0) =~= texts(args@));
    }
    let mut i: usize = 0;
    while i < args.len()
        invariant
            i <= args@.len(),
            prefix@ == name@.push('='),
            flag_text(texts(args@), name@) == flag_text(texts(args@).skip(i as int), name@),
        decreases args@.len() - i,
    {
        let arg: &str = args[i].as_str();
        let ghost rest = texts(args@).skip(i as int);
        assert(rest[0] == arg@);
        if same_text(arg, name) {
            if i + 1 < args.len() {
                return Some(args[i + 1].clone());
            }
            return None;
        }
        if starts_with(arg, prefix.as_str()) {
            let from: usize = chars_of(prefix.as_str()).len();
            let to: usize = chars_of(arg).len();
            let value: String = arg.substring_char(from, to).to_owned();
            assert(value@ =~= arg@.skip(name@.len() as int + 1));
            return Some(value);
        }
        assert(rest.drop_first() =~= texts(args@).skip(i + 1));
        i += 1;
    }
    None
}

/// Parses `text` as a `T`.
///
/// Calls `str::parse`, which hands the text to the `FromStr` impl of `T`, and turns
/// a refusal into `None`. Nothing is claimed of the result: which texts are
/// accepted, and what they stand for, is the impl's own affair.
#[verifier::external_body]
fn parse_text<T: FromStr>(text: &str) -> (parsed: Option<T>) {
    text.parse().ok()
}

/// `parsed` is what parsing `text` as a `T` gave.
pub closed spec fn parses_to<T: FromStr>(text: Seq<char>, parsed: Option<T>) -> bool {
    exists|s: &str| s@ == text && #[trigger] call_ensures(parse_text::<T>, (s,), parsed)
}

/// The parsed value, or the default where there is none.
pub open spec fn settled<T>(parsed: Option<T>, default: T) -> T {
    match parsed {
        Some(value) => value,
        None => default,
    }
}

/// What a parsed text stands for: its value, or `default` where it did not parse.
pub fn value_or<T>(parsed: Option<T>, default: T) -> (value: T)
    ensures
        value == settled(parsed, default),
{
    match parsed {
        Some(value) => value,
        None => default,
    }
}

/// `value` is what a text that may be missing stands for: the default where it is
/// missing or did not parse.
pub open spec fn is_reading<T: FromStr>(text: Option<Seq<char>>, default: T, value: T) -> bool {
    match text {
        None => value == default,
        Some(text) => exists|parsed: Option<T>|
            parses_to(text, parsed) && value == #[trigger] settled(parsed, default),
    }
}

/// [`flag_value`] parsed into `T`, falling back to `default` when absent or
/// unparseable.
pub fn parse_or<T: FromStr>(args: &[String], name: &str, default: T) -> (value: T)
    ensures
        is_reading(flag_text(texts(args@), name@), default, value),
{
    match flag_value(args, name) {
        None => default,
        Some(text) => {
            let parsed: Option<T> = parse_text::<T>(text.as_str());
            assert(parses_to(text@, parsed));
            value_or(parsed, default)
        },
    }
}

/// The whole number that a flag gives, where its value writes one of at most `max`;
/// else the default.
pub open spec fn number_setting(
    args: Seq<Seq<char>>,
    name: Seq<char>,
    default: nat,
    max: nat,
) -> nat {
    match flag_text(args, name) {
        Some(text) => settled(decimal_up_to(text, max), default),
        None => default,
    }
}

/// [`flag_value`] read as a whole number, falling back to `default` when absent,
/// written otherwise or too large.
pub fn number_or(args: &[String], name: &str, default: u64) -> (value: u64)
    ensures
        value == number_setting(texts(args@), name@, default as nat, u64::MAX as nat),
{
    match flag_value(args, name) {
        None => default,
        Some(text) => value_or(read_decimal(text.as_str(), u64::MAX), default),
    }
}

/// [`number_or`] for a size.
pub fn size_or(args: &[String], name: &str, default: usize) -> (value: usize)
    ensures
        value == number_setting(texts(args@), name@, default as nat, usize::MAX as nat),
{
    match flag_value(args, name) {
        None => default,
        Some(text) => match read_decimal(text.as_str(), usize::MAX as u64) {
            Some(size) => size as usize,
            None => default,
        },
    }
}

/// The first of three sources that gives a text: the environment, then a flag, then
/// the default.
pub open spec fn chosen_text(
    variable: Option<Seq<char>>,
    args: Seq<Seq<char>>,
    name: Seq<char>,
    default: Seq<char>,
) -> Seq<char> {
    match (variable, flag_text(args, name)) {
        (Some(text), _) => text,
        (None, Some(text)) => text,
        (None, None) => default,
    }
}

/// A text setting: the environment variable where it is set, else the flag, else
/// the default.
pub fn text_setting(
    variable: Option<String>,
    args: &[String],
    name: &str,
    default: &str,
) -> (text: String)
    ensures
        text@ == chosen_text(opt_text(variable), texts(args@), name@, default@),
{
    match variable {
        Some(text) => text,
        None => match flag_value(args, name) {
            Some(text) => text,
            None => default.to_owned(),
        },
    }
}

// ---------------- Unknown flags ----------------

/// `arg` is a flag, with or without a value attached.
pub open spec fn is_flag(arg: Seq<char>) -> bool {
    seq!['-', '-'].is_prefix_of(arg)
}

/// The flag that `arg` names: what stands before its first `=`.
pub open spec fn key_of(arg: Seq<char>) -> Seq<char> {
    match arg.index_of_first('=') {
        Some(at) => arg.take(at),
        None => arg,
    }
}

/// `key` is a flag among `args` that is not in `known`.
pub open spec fn is_unknown(args: Seq<Seq<char>>, known: Seq<Seq<char>>, key: Seq<char>) -> bool {
    !known.contains(key) && exists|i: int|
        0 <= i < args.len() && is_flag(#[trigger] args[i]) && key_of(args[i]) == key
}

/// In ascending order, each text once.
pub open spec fn ascending(keys: Seq<Seq<char>>) -> bool {
    forall|i: int, j: int| 0 <= i < j < keys.len() ==> text_before(#[trigger] keys[i], #[trigger] keys[j])
}

/// `reported` lists exactly the unknown flags, in ascending order, each once.
pub open spec fn is_report(
    args: Seq<Seq<char>>,
    known: Seq<Seq<char>>,
    reported: Seq<Seq<char>>,
) -> bool {
    &&& ascending(reported)
    &&& forall|key: Seq<char>| #[trigger] reported.contains(key) <==> is_unknown(args, known, key)
}

/// The flag that an argument names.
fn flag_key(arg: &str) -> (key: String)
    ensures
        key@ == key_of(arg@),
{
    let chars: Vec<char> = chars_of(arg);
    let mut at: usize = 0;
    proof {
        arg@.index_of_first_ensures('=');
    }
    while at < chars.len() && chars[at] != '='
        invariant
            at <= chars@.len(),
            chars@ == arg@,
            forall|j: int| 0 <= j < at ==> chars@[j] != '=',
        decreases chars@.len() - at,
    {
        at += 1;
    }
    let key: String = arg.substring_char(0, at).to_owned();
    proof {
        if at < chars@.len() {
            assert(arg@.contains('='));
            assert(arg@.index_of_first('=') == Some(at as int)) by {
                let first = arg@.index_of_first('=')->0;
                assert(!(first < at) && !(at < first));
            }
        } else {
            assert(!arg@.contains('='));
        }
        assert(key@ =~= key_of(arg@));
    }
    key
}

/// Whether `text` is one of `known`.
fn is_listed(text: &str, known: &[&str]) -> (listed: bool)
    ensures
        listed == str_texts(known@).contains(text@),
{
    let mut i: usize = 0;
    while i < known.len()
        invariant
            i <= known@.len(),
            forall|j: int| 0 <= j < i ==> str_texts(known@)[j] != text@,
        decreases known@.len() - i,
    {
        if same_text(known[i], text) {
            assert(str_texts(known@)[i as int] == text@);
            return true;
        }
        i += 1;
    }
    false
}

/// Puts `key` at its place in an ascending list, unless it is there already.
fn insert_key(keys: &mut Vec<String>, key: String)
    requires
        ascending(texts(old(keys)@)),
    ensures
        ascending(texts(final(keys)@)),
        forall|k: Seq<char>| #[trigger]
            texts(final(keys)@).contains(k) <==> texts(old(keys)@).contains(k) || k == key@,
{
    let ghost before = texts(keys@);
    let ghost text = key@;
    let mut at: usize = 0;
    while at < keys.len() && is_before(keys[at].as_str(), key.as_str())
        invariant
            at <= keys@.len(),
            before == texts(keys@),
            text == key@,
            forall|j: int| 0 <= j < at ==> text_before(#[trigger] before[j], text),
        decreases keys@.len() - at,
    {
        at += 1;
    }
    if at < keys.len() && same_text(keys[at].as_str(), key.as_str()) {
        assert(before[at as int] == text);
        return;
    }
    proof {
        if at < before.len() {
            lemma_text_order_is_total(before[at as int], text);
            assert forall|j: int| at < j < before.len() implies text_before(
                text,
                #[trigger] before[j],
            ) by {
                lemma_text_order_is_transitive(text, before[at as int], before[j]);
            }
        }
    }
    keys.insert(at, key);
    proof {
        let after = texts(keys@);
        assert(after =~= before.insert(at as int, text));
        assert forall|k: Seq<char>| #[trigger] after.contains(k) <==> before.contains(k) || k
            == text by {
            if before.contains(k) {
                let j = choose|j: int| 0 <= j < before.len() && before[j] == k;
                assert(after[if j < at { j } else { j + 1 }] == k);
            }
            assert(after[at as int] == text);
            if after.contains(k) && k != text {
                let j = choose|j: int| 0 <= j < after.len() && after[j] == k;
                assert(before[if j < at { j } else { j - 1 }] == k);
            }
        }
    }
}

/// Arguments that begin with `--` and are not in `known`, without any `=value`.
///
/// Callers log these: a typo or an unsupported syntax must be visible rather than
/// silently changing behaviour. Values are not reported (they may be a URL, and
/// they are not what is being validated).
pub fn unknown_flags(args: &[String], known: &[&str]) -> (unknown: Vec<String>)
    ensures
        is_report(texts(args@), str_texts(known@), texts(unknown@)),
{
    let ghost all = texts(args@);
    let ghost listed = str_texts(known@);
    let mut unknown: Vec<String> = Vec::new();
    let mut i: usize = 0;
    proof {
        reveal_strlit("--");
        assert("--"@ =~= seq!['-', '-']);
    }
    while i < args.len()
        invariant
            i <= args@.len(),
            all == texts(args@),
            listed == str_texts(known@),
            "--"@ == seq!['-', '-'],
            is_report(all.take(i as int), listed, texts(unknown@)),
        decreases args@.len() - i,
    {
        let arg: &str = args[i].as_str();
        let ghost before = texts(unknown@);
        let ghost seen = all.take(i as int);
        let ghost now = all.take(i + 1);
        assert(now =~= seen.push(arg@));
        if starts_with(arg, "--") {
            let key: String = flag_key(arg);
            if !is_listed(key.as_str(), known) {
                insert_key(&mut unknown, key);
            }
        }
        proof {
            let after = texts(unknown@);
            assert forall|key: Seq<char>| #[trigger] after.contains(key) <==> is_unknown(
                now,
                listed,
                key,
            ) by {
                assert(before.contains(key) <==> is_unknown(seen, listed, key));
                if is_unknown(seen, listed, key) {
                    let j = choose|j: int|
                        0 <= j < seen.len() && is_flag(#[trigger] seen[j]) && key_of(seen[j])
                            == key;
                    assert(now[j] == seen[j]);
                }
                if is_unknown(now, listed, key) && !is_unknown(seen, listed, key) {
                    let j = choose|j: int|
                        0 <= j < now.len() && is_flag(#[trigger] now[j]) && key_of(now[j]) == key;
                    if j < i {
                        assert(seen[j] == now[j]);
                    }
                }
                assert(now[i as int] == arg@);
            }
        }
        i += 1;
    }
    assert(all.take(i as int) =~= all);
    unknown
}

// ---------------- Laws ----------------

/// No argument of `args` is an occurrence of `name`.
pub open spec fn without(args: Seq<Seq<char>>, name: Seq<char>) -> bool {
    forall|i: int|
        0 <= i < args.len() ==> #[trigger] args[i] != name && !name.push('=').is_prefix_of(args[i])
}

/// Arguments that are no occurrence of a flag do not change its value.
pub proof fn law_other_arguments_do_not_matter(
    before: Seq<Seq<char>>,
    args: Seq<Seq<char>>,
    name: Seq<char>,
)
    requires
        without(before, name),
    ensures
        flag_text(before + args, name) == flag_text(args, name),
    decreases before.len(),
{
    if before.len() == 0 {
        assert(before + args =~= args);
    } else {
        assert((before + args).drop_first() =~= before.drop_first() + args);
        assert(before[0] != name && !name.push('=').is_prefix_of(before[0]));
        assert forall|i: int| 0 <= i < before.drop_first().len() implies #[trigger]
            before.drop_first()[i] != name && !name.push('=').is_prefix_of(
            before.drop_first()[i],
        ) by {
            assert(before[i + 1] != name && !name.push('=').is_prefix_of(before[i + 1]));
        }
        law_other_arguments_do_not_matter(before.drop_first(), args, name);
    }
}

/// Both forms give the same value, whatever characters are in it (`=` among them),
/// and the first occurrence decides, whatever follows it.
pub proof fn law_both_forms_agree_and_the_first_occurrence_wins(
    before: Seq<Seq<char>>,
    name: Seq<char>,
    value: Seq<char>,
    after: Seq<Seq<char>>,
)
    requires
        without(before, name),
    ensures
        flag_text(before + seq![name.push('=') + value] + after, name) == Some(value),
        flag_text(before + seq![name, value] + after, name) == Some(value),
{
    let attached = seq![name.push('=') + value] + after;
    let apart = seq![name, value] + after;
    assert(before + seq![name.push('=') + value] + after =~= before + attached);
    assert(before + seq![name, value] + after =~= before + apart);
    law_other_arguments_do_not_matter(before, attached, name);
    law_other_arguments_do_not_matter(before, apart, name);
    let arg = name.push('=') + value;
    assert(arg.len() > name.len());
    assert(arg.subrange(0, name.len() as int + 1) =~= name.push('='));
    assert(arg.skip(name.len() as int + 1) =~= value);
    assert(attached[0] == arg);
    assert(apart[0] == name && apart[1] == value);
}

/// A flag that does not occur has no value, nor has one that ends the line.
pub proof fn law_absent_flags_have_no_value(before: Seq<Seq<char>>, name: Seq<char>)
    requires
        without(before, name),
    ensures
        flag_text(before, name) is None,
        flag_text(before.push(name), name) is None,
{
    law_other_arguments_do_not_matter(before, Seq::empty(), name);
    law_other_arguments_do_not_matter(before, seq![name], name);
    assert(before + Seq::<Seq<char>>::empty() =~= before);
    assert(before + seq![name] =~= before.push(name));
}

/// No flag is silently ignored: whatever begins with `--` names a known flag or is
/// reported, and nothing known is reported.
pub proof fn law_no_flag_is_silently_ignored(
    args: Seq<Seq<char>>,
    known: Seq<Seq<char>>,
    reported: Seq<Seq<char>>,
    i: int,
)
    requires
        is_report(args, known, reported),
        0 <= i < args.len(),
        is_flag(args[i]),
    ensures
        known.contains(key_of(args[i])) != reported.contains(key_of(args[i])),
{
    if !known.contains(key_of(args[i])) {
        assert(is_unknown(args, known, key_of(args[i])));
    }
}

/// Values are never reported: no report holds a `=`.
pub proof fn law_reports_hold_no_values(
    args: Seq<Seq<char>>,
    known: Seq<Seq<char>>,
    reported: Seq<Seq<char>>,
    k: int,
)
    requires
        is_report(args, known, reported),
        0 <= k < reported.len(),
    ensures
        !reported[k].contains('='),
{
    let key = reported[k];
    assert(reported.contains(key));
    assert(is_unknown(args, known, key));
    let i = choose|i: int|
        0 <= i < args.len() && is_flag(#[trigger] args[i]) && key_of(args[i]) == key;
    args[i].index_of_first_ensures('=');
}

/// The report is determined by the arguments and the known flags.
pub proof fn law_the_report_is_unique(
    args: Seq<Seq<char>>,
    known: Seq<Seq<char>>,
    one: Seq<Seq<char>>,
    other: Seq<Seq<char>>,
)
    requires
        is_report(args, known, one),
        is_report(args, known, other),
    ensures
        one == other,
{
    assert forall|key: Seq<char>| one.contains(key) implies #[trigger] other.contains(key) by {
        assert(is_unknown(args, known, key));
    }
    assert forall|key: Seq<char>| other.contains(key) implies #[trigger] one.contains(key) by {
        assert(is_unknown(args, known, key));
    }
    lemma_ascending_lists_agree(one, other);
}

proof fn lemma_ascending_lists_agree(one: Seq<Seq<char>>, other: Seq<Seq<char>>)
    requires
        ascending(one),
        ascending(other),
        forall|key: Seq<char>| one.contains(key) ==> #[trigger] other.contains(key),
        forall|key: Seq<char>| other.contains(key) ==> #[trigger] one.contains(key),
    ensures
        one == other,
    decreases one.len(),
{
    if one.len() == 0 {
        if other.len() > 0 {
            assert(other.contains(other[0]));
            assert(one.contains(other[0]));
        }
        assert(one =~= other);
    } else {
        assert(one.contains(one.last()));
        assert(other.contains(one.last()));
        assert(other.contains(other.last()));
        assert(one.contains(other.last()));
        let i = choose|i: int| 0 <= i < one.len() && one[i] == other.last();
        let j = choose|j: int| 0 <= j < other.len() && other[j] == one.last();
        if one.last() != other.last() {
            assert(text_before(one[i], one[one.len() - 1]));
            assert(text_before(other[j], other[other.len() - 1]));
            lemma_text_order_is_total(one.last(), other.last());
        }
        let last = one.last();
        lemma_text_order_is_total(last, last);
        let a = one.drop_last();
        let b = other.drop_last();
        assert forall|key: Seq<char>| a.contains(key) implies #[trigger] b.contains(key) by {
            let k = choose|k: int| 0 <= k < a.len() && a[k] == key;
            assert(one[k] == key);
            assert(text_before(one[k], one[one.len() - 1]));
            assert(one.contains(key));
            assert(other.contains(key));
            let m = choose|m: int| 0 <= m < other.len() && other[m] == key;
            assert(b[m] == key);
        }
        assert forall|key: Seq<char>| b.contains(key) implies #[trigger] a.contains(key) by {
            let k = choose|k: int| 0 <= k < b.len() && b[k] == key;
            assert(other[k] == key);
            assert(text_before(other[k], other[other.len() - 1]));
            assert(other.contains(key));
            assert(one.contains(key));
            let m = choose|m: int| 0 <= m < one.len() && one[m] == key;
            assert(a[m] == key);
        }
        lemma_ascending_lists_agree(a, b);
        assert(one =~= a.push(last));
        assert(other =~= b.push(last));
    }
}

// ---------------- What the operations mean ----------------

/// What is reported are flags of the command line, and all of them that are not known:
/// each report begins with `--`, holds no `=`, is not known, and stands on the line
/// alone or with a value attached; and each such flag is reported. They ascend.
pub proof fn law_reports_are_the_unknown_flags(
    args: Seq<Seq<char>>,
    known: Seq<Seq<char>>,
    reported: Seq<Seq<char>>,
)
    requires
        is_report(args, known, reported),
    ensures
        forall|k: int|
            0 <= k < reported.len() ==> {
                let key = #[trigger] reported[k];
                &&& key.len() >= 2 && key[0] == '-' && key[1] == '-'
                &&& !key.contains('=')
                &&& !known.contains(key)
                &&& exists|i: int|
                    0 <= i < args.len() && (#[trigger] args[i] == key || (args[i].len() > key.len()
                        && args[i].take(key.len() as int) == key && args[i][key.len() as int] == '='
                        ))
            },
        forall|key: Seq<char>, i: int|
            0 <= i < args.len() && key.len() >= 2 && key[0] == '-' && key[1] == '-' && !key.contains(
                '=',
            ) && !#[trigger] known.contains(key) && (#[trigger] args[i] == key || (args[i].len()
                > key.len() && args[i].take(key.len() as int) == key && args[i][key.len() as int]
                == '=')) ==> reported.contains(key),
        forall|i: int, j: int|
            0 <= i < j < reported.len() ==> text_before(
                #[trigger] reported[i],
                #[trigger] reported[j],
            ),
{
    assert forall|k: int| 0 <= k < reported.len() implies {
        let key = #[trigger] reported[k];
        &&& key.len() >= 2 && key[0] == '-' && key[1] == '-'
        &&& !key.contains('=')
        &&& !known.contains(key)
        &&& exists|i: int|
            0 <= i < args.len() && (#[trigger] args[i] == key || (args[i].len() > key.len()
                && args[i].take(key.len() as int) == key && args[i][key.len() as int] == '='))
    } by {
        let key = reported[k];
        assert(reported.contains(key));
        assert(is_unknown(args, known, key));
        let i = choose|i: int|
            0 <= i < args.len() && is_flag(#[trigger] args[i]) && key_of(args[i]) == key;
        let arg = args[i];
        arg.index_of_first_ensures('=');
        assert(arg[0] == '-' && arg[1] == '-') by {
            let head = arg.subrange(0, 2);
            assert(head == seq!['-', '-']);
            assert(head[0] == '-' && head[1] == '-');
        }
        match arg.index_of_first('=') {
            Some(at) => {
                assert(at >= 2);
                assert(arg.take(key.len() as int) =~= key);
            },
            None => {},
        }
        assert(args[i] == key || (args[i].len() > key.len() && args[i].take(key.len() as int) == key
            && args[i][key.len() as int] == '='));
    }
    assert forall|key: Seq<char>, i: int|
        0 <= i < args.len() && key.len() >= 2 && key[0] == '-' && key[1] == '-' && !key.contains(
            '=',
        ) && !#[trigger] known.contains(key) && (#[trigger] args[i] == key || (args[i].len()
            > key.len() && args[i].take(key.len() as int) == key && args[i][key.len() as int]
            == '=')) implies reported.contains(key) by {
        let arg = args[i];
        arg.index_of_first_ensures('=');
        if arg != key {
            let n = key.len() as int;
            assert(arg.contains('='));
            assert(arg.index_of_first('=') == Some(n)) by {
                let first = arg.index_of_first('=')->0;
                if first < n {
                    assert(arg.take(n)[first] == '=');
                    assert(key.contains('='));
                }
            }
            assert(arg.take(n)[0] == arg[0] && arg.take(n)[1] == arg[1]);
        }
        assert(key_of(arg) == key);
        assert(arg.subrange(0, 2) =~= seq!['-', '-']);
        assert(is_flag(arg));
        assert(is_unknown(args, known, key));
    }
}

/// A text setting is the environment's where it is set, whatever the line holds; else
/// what the first occurrence of its flag gives; else the default.
pub proof fn law_environment_then_flag_then_default(
    set: Seq<char>,
    before: Seq<Seq<char>>,
    name: Seq<char>,
    value: Seq<char>,
    after: Seq<Seq<char>>,
    default: Seq<char>,
)
    requires
        without(before, name),
    ensures
        chosen_text(Some(set), before, name, default) == set,
        chosen_text(Some(set), before + seq![name, value] + after, name, default) == set,
        chosen_text(None, before + seq![name, value] + after, name, default) == value,
        chosen_text(None, before + seq![name.push('=') + value] + after, name, default) == value,
        chosen_text(None, before, name, default) == default,
        chosen_text(None, before.push(name), name, default) == default,
{
    law_both_forms_agree_and_the_first_occurrence_wins(before, name, value, after);
    law_absent_flags_have_no_value(before, name);
}

/// A number setting is what the first occurrence of its flag writes, where that is a
/// number within the limit; else, and where the flag is absent, it is the default.
pub proof fn law_numbers_come_from_their_flag(
    before: Seq<Seq<char>>,
    name: Seq<char>,
    value: Seq<char>,
    after: Seq<Seq<char>>,
    default: nat,
    max: nat,
)
    requires
        without(before, name),
    ensures
        ({
            let attached = number_setting(
                before + seq![name.push('=') + value] + after,
                name,
                default,
                max,
            );
            let apart = number_setting(before + seq![name, value] + after, name, default, max);
            &&& attached == apart
            &&& attached == match decimal_value(value) {
                Some(number) if number <= max => number,
                _ => default,
            }
        }),
        number_setting(before, name, default, max) == default,
{
    law_both_forms_agree_and_the_first_occurrence_wins(before, name, value, after);
    law_absent_flags_have_no_value(before, name);
    law_limits_refuse_larger_numbers(value, max);
}

/// A reading is the default where there is no text or the text did not parse, and the
/// parsed value where it did; nothing else is a reading.
pub proof fn law_readings_are_parsed_or_default<T: FromStr>(
    text: Seq<char>,
    default: T,
    value: T,
    other: T,
)
    ensures
        is_reading(None, default, value) <==> value == default,
        is_reading(Some(text), default, value) <==> parses_to(text, Some(value)) || (parses_to::<T>(
            text,
            None,
        ) && value == default),
        settled(Some(value), other) == value,
        settled(None, other) == other,
{
    assert(settled(Some(value), default) == value);
    assert(settled(None::<T>, default) == default);
    if is_reading(Some(text), default, value) {
        let parsed = choose|parsed: Option<T>|
            parses_to(text, parsed) && value == #[trigger] settled(parsed, default);
        assert(parsed == Some(value) || (parsed is None && value == default));
    }
}

/// A text parses to what a call of the parse on exactly that text gave.
proof fn law_parses_are_calls_on_the_text<T: FromStr>(text: Seq<char>, parsed: Option<T>)
    ensures
        parses_to(text, parsed) <==> exists|s: &str|
            s@ == text && #[trigger] call_ensures(parse_text::<T>, (s,), parsed),
{
}

} // verus!
