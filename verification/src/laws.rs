//! Laws the reader and the navigator obey, stated over the same spec
//! functions their contracts use.

use vstd::prelude::*;

use crate::navigator::help_block;
use crate::navigator::help_token;
use crate::navigator::lemma_options_read_used;
use crate::navigator::options_read;
use crate::navigator::options_transcript;
use crate::navigator::walk_read;
use crate::numeric::Numeric;
use crate::reader::num_or_empty_read;
use crate::reader::num_read;
use crate::reader::prompt_of;
use crate::text::trim_spec;
use crate::tree::Tree;
use crate::tree::child_spec;
use crate::tree::keys_spec;

verus! {

/// A typed read never returns a value derived from a line that does not
/// parse: a line that fails to parse as `T` leaves the outcome to the lines
/// after it, whatever that line held.
pub proof fn lemma_invalid_input_never_returned<T: Numeric>(lines: Seq<Seq<char>>)
    requires
        lines.len() > 0,
        !(trim_spec(lines[0]).len() > 0 && T::accepts(trim_spec(lines[0]))),
    ensures
        num_read::<T>(lines).0 == num_read::<T>(lines.drop_first()).0,
{
}

/// The skip-aware typed read passes over a non-blank line that does not
/// parse in the same way: the outcome is that of the lines after it.
pub proof fn lemma_invalid_input_skipped<T: Numeric>(lines: Seq<Seq<char>>)
    requires
        lines.len() > 0,
        trim_spec(lines[0]).len() > 0,
        !T::accepts(trim_spec(lines[0])),
    ensures
        num_or_empty_read::<T>(lines).0 == num_or_empty_read::<T>(lines.drop_first()).0,
{
}

/// Submitting the empty string to a skip-aware typed read yields "none" at
/// once, whatever the target type; the prompt label plays no part in the
/// outcome, which mentions no label at all.
pub proof fn lemma_empty_line_is_none<T: Numeric>(lines: Seq<Seq<char>>)
    requires
        lines.len() > 0,
        trim_spec(lines[0]).len() == 0,
    ensures
        num_or_empty_read::<T>(lines).0 == Some(None::<T>),
        num_or_empty_read::<T>(lines).1 == 1,
{
}

/// Submitting the empty string at a decision point declines the choice at
/// once, whatever the options offered.
pub proof fn lemma_empty_line_declines(opts: Seq<Seq<char>>, lines: Seq<Seq<char>>)
    requires
        lines.len() > 0,
        trim_spec(lines[0]).len() == 0,
    ensures
        options_read(opts, lines).0 == Some(None::<Seq<char>>),
        options_read(opts, lines).1 == 1,
{
}

/// The help token lists every option and costs no turn: the listing is
/// written in full, and the choice is left to the lines after it. The token
/// is never matched against the options, so `?` can never be chosen.
pub proof fn lemma_help_lists_options(h: Seq<char>, opts: Seq<Seq<char>>, lines: Seq<Seq<char>>)
    requires
        lines.len() > 0,
        trim_spec(lines[0]) == help_token(),
    ensures
        options_transcript(h, opts, lines) == prompt_of(h) + help_block(opts)
            + options_transcript(h, opts, lines.drop_first()),
        options_read(opts, lines).0 == options_read(opts, lines.drop_first()).0,
{
}

/// Choosing a key that carries no subtree ends the walk at once: the path
/// is that single key, and not one further line is consumed.
pub proof fn lemma_leaf_choice_ends_walk(t: Tree, lines: Seq<Seq<char>>, key: Seq<char>)
    requires
        options_read(keys_spec(t), lines).0 == Some(Some(key)),
        child_spec(t, key) is None,
    ensures
        walk_read(t, lines).0 == Some(seq![key]),
        walk_read(t, lines).1 == options_read(keys_spec(t), lines).1,
{
}

/// Whether `path` descends `t` along existing keys: each key is a child
/// key of the node before it, and only a leaf key can end the descent
/// early at depth one below it.
pub open spec fn valid_path(t: Tree, path: Seq<Seq<char>>) -> bool
    decreases path.len(),
{
    path.len() == 0 || (keys_spec(t).contains(path[0]) && (match child_spec(t, path[0]) {
        Some(sub) => valid_path(sub, path.drop_first()),
        None => path.len() == 1,
    }))
}

/// Every path the walk returns descends the tree along existing keys: each
/// successive key is a valid child key of the node the key before it chose.
pub proof fn lemma_walk_path_valid(t: Tree, lines: Seq<Seq<char>>)
    ensures
        (match walk_read(t, lines).0 {
            Some(path) => valid_path(t, path),
            None => true,
        }),
    decreases lines.len(),
{
    let cr = options_read(keys_spec(t), lines);
    lemma_options_read_used(keys_spec(t), lines);
    match cr.0 {
        Some(Some(key)) => {
            match child_spec(t, key) {
                Some(sub) => {
                    lemma_walk_path_valid(sub, lines.skip(cr.1 as int));
                    match walk_read(sub, lines.skip(cr.1 as int)).0 {
                        Some(rest) => {
                            let path = seq![key] + rest;
                            assert(path[0] == key);
                            assert(path.drop_first() =~= rest);
                        },
                        None => {},
                    }
                },
                None => {
                    match walk_read(t, lines).0 {
                        Some(path) => {
                            assert(path == seq![key]);
                            assert(path[0] == key);
                        },
                        None => {},
                    }
                },
            }
        },
        _ => {},
    }
}

/// Two walks over the same read-only tree with identical input lines
/// produce identical paths and consume identically: the outcome is a
/// function of the tree and the lines alone, with no hidden state.
pub proof fn lemma_walk_repeatable(t: Tree, first: Seq<Seq<char>>, second: Seq<Seq<char>>)
    requires
        first == second,
    ensures
        walk_read(t, first) == walk_read(t, second),
{
}

} // verus!
