//! Command-line arguments, held by `pico_args` and taken from it one by
//! one.
//!
//! Everything here is believed of `pico_args`, not proved: the functions
//! hand each call on to the crate, and their contracts say what its source
//! shows the call to do to the arguments that are left.

use vstd::prelude::*;
use crate::text::texts;

verus! {

/// The argument parser of `pico_args`.
#[verifier::external_type_specification]
#[verifier::external_body]
pub struct ExArguments(pico_args::Arguments);

/// The error type of `pico_args`.
#[verifier::external_type_specification]
#[verifier::external_body]
pub struct ExError(pico_args::Error);

/// The arguments that a parser still holds, in order; `None` stands for an
/// argument that is no UTF-8 text.
pub uninterp spec fn remaining(args: pico_args::Arguments) -> Seq<Option<Seq<char>>>;

/// The first index at or after `i` that holds `key` (the length if none
/// does).
pub open spec fn index_of_key(left: Seq<Option<Seq<char>>>, key: Seq<char>, i: int) -> int
    decreases left.len() - i,
{
    if 0 <= i < left.len() && left[i] != Some(key) {
        index_of_key(left, key, i + 1)
    } else {
        i
    }
}

/// Where a flag with a short and a long form stands: at the first `short`
/// if there is one, else at the first `long` (the length if neither is
/// there).
pub open spec fn index_of_flag(left: Seq<Option<Seq<char>>>, short: Seq<char>, long: Seq<char>) -> int {
    if index_of_key(left, short, 0) < left.len() {
        index_of_key(left, short, 0)
    } else {
        index_of_key(left, long, 0)
    }
}

/// Whether `short` and `long` are the two forms of a flag as `pico_args`
/// wants them: `-x` and `--word`.
pub open spec fn is_flag(short: Seq<char>, long: Seq<char>) -> bool {
    &&& short.len() == 2
    &&& short[0] == '-'
    &&& short[1] != '-'
    &&& long.len() >= 2
    &&& long[0] == '-'
    &&& long[1] == '-'
}

/// Each text as an argument that is text.
pub open spec fn as_arguments(items: Seq<Seq<char>>) -> Seq<Option<Seq<char>>> {
    items.map_values(|t: Seq<char>| Some(t))
}

/// `pico_args::Arguments::from_vec`: a parser that holds exactly `args`.
#[verifier::external_body]
pub(crate) fn arguments_from(args: Vec<String>) -> (parser: pico_args::Arguments)
    ensures
        remaining(parser) == as_arguments(texts(args@)),
{
    pico_args::Arguments::from_vec(args.into_iter().map(Into::into).collect())
}

/// `pico_args::Arguments::contains`: whether the flag stands among the
/// arguments left. If it does, the one at [`index_of_flag`] is taken out.
#[verifier::external_body]
pub(crate) fn take_flag(
    parser: &mut pico_args::Arguments,
    short: &'static str,
    long: &'static str,
) -> (found: bool)
    requires
        is_flag(short@, long@),
    ensures
        found == (index_of_flag(remaining(*old(parser)), short@, long@) < remaining(
            *old(parser),
        ).len()),
        found ==> remaining(*final(parser)) == remaining(*old(parser)).remove(
            index_of_flag(remaining(*old(parser)), short@, long@),
        ),
        !found ==> remaining(*final(parser)) == remaining(*old(parser)),
{
    parser.contains([short, long])
}

/// `pico_args::Arguments::value_from_str` for a `String`: the argument
/// that follows the flag. Both are taken out if the flag is there, is
/// followed by an argument, and that argument is text; otherwise the call
/// fails and takes nothing.
#[verifier::external_body]
pub(crate) fn take_value(
    parser: &mut pico_args::Arguments,
    short: &'static str,
    long: &'static str,
) -> (value: Result<String, pico_args::Error>)
    requires
        is_flag(short@, long@),
    ensures
        ({
            let left = remaining(*old(parser));
            let at = index_of_flag(left, short@, long@);
            match value {
                Ok(text) => {
                    &&& at + 1 < left.len()
                    &&& left[at + 1] == Some(text@)
                    &&& remaining(*final(parser)) == left.remove(at).remove(at)
                },
                Err(_) => {
                    &&& !(at + 1 < left.len() && left[at + 1] is Some)
                    &&& remaining(*final(parser)) == left
                },
            }
        }),
{
    parser.value_from_str::<[&'static str; 2], String>([short, long])
}

/// `pico_args::Arguments::free_from_str` for a `String`: the first argument
/// left, which is taken out. The call fails if none is left, or if the
/// first is no text.
#[verifier::external_body]
pub(crate) fn take_free(parser: &mut pico_args::Arguments) -> (value: Result<
    String,
    pico_args::Error,
>)
    ensures
        ({
            let left = remaining(*old(parser));
            match value {
                Ok(text) => {
                    &&& left.len() > 0
                    &&& left[0] == Some(text@)
                    &&& remaining(*final(parser)) == left.drop_first()
                },
                Err(_) => {
                    &&& left.len() == 0 || left[0] is None
                    &&& left.len() == 0 ==> remaining(*final(parser)) == left
                    &&& left.len() > 0 ==> remaining(*final(parser)) == left.drop_first()
                },
            }
        }),
{
    parser.free_from_str::<String>()
}

/// `pico_args::Arguments::subcommand`: the first argument left, unless
/// none is left or it is text that begins with `-`. It is taken out where
/// it is handed out, and also where the call fails, which it does if the
/// argument is no text.
#[verifier::external_body]
pub(crate) fn take_subcommand(parser: &mut pico_args::Arguments) -> (value: Result<
    Option<String>,
    pico_args::Error,
>)
    ensures
        ({
            let left = remaining(*old(parser));
            match value {
                Ok(Some(text)) => {
                    &&& left.len() > 0
                    &&& left[0] == Some(text@)
                    &&& !(text@.len() > 0 && text@[0] == '-')
                    &&& remaining(*final(parser)) == left.drop_first()
                },
                Ok(None) => {
                    &&& left.len() == 0 || (left[0] is Some && left[0]->0.len() > 0
                        && left[0]->0[0] == '-')
                    &&& remaining(*final(parser)) == left
                },
                Err(_) => {
                    &&& left.len() > 0
                    &&& left[0] is None
                    &&& remaining(*final(parser)) == left.drop_first()
                },
            }
        }),
{
    parser.subcommand()
}

/// `index_of_key` finds the first occurrence.
pub proof fn lemma_index_of_key(left: Seq<Option<Seq<char>>>, key: Seq<char>, i: int)
    requires
        0 <= i <= left.len(),
    ensures
        i <= index_of_key(left, key, i) <= left.len(),
        forall|k: int| i <= k < index_of_key(left, key, i) ==> left[k] != Some(key),
        index_of_key(left, key, i) < left.len() ==> left[index_of_key(left, key, i)] == Some(key),
    decreases left.len() - i,
{
    if i < left.len() && left[i] != Some(key) {
        lemma_index_of_key(left, key, i + 1);
    }
}

} // verus!
