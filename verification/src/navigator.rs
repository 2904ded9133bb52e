//! The hierarchical option navigator.
//!
//! One decision point offers the keys of the current tree node. The user
//! either picks one of them verbatim, asks `?` to see the listing, submits
//! a blank line to stop, or types anything else and is silently re-asked.
//! The walk repeats this one level per prompt and returns the path of
//! chosen keys, from the entry node down to where the user stopped.

use vstd::prelude::*;

use crate::console::Console;
use crate::console::EndOfInput;
use crate::reader::prompt_of;
use crate::reader::read_string_or_empty;
use crate::text::trim_spec;
use crate::tree::Tree;
use crate::tree::child_spec;
use crate::tree::keys_spec;

verus! {

/// The reserved help token: typing it lists the current options.
pub open spec fn help_token() -> Seq<char> {
    seq!['?']
}

/// The chunk the help listing writes for one option.
pub open spec fn help_entry(o: Seq<char>) -> Seq<char> {
    seq![' ', ' ', ' ', ' '] + o + seq!['\n']
}

/// The chunks of one whole help listing: each option on its own line, then
/// a blank line.
pub open spec fn help_block(opts: Seq<Seq<char>>) -> Seq<Seq<char>> {
    opts.map_values(|o: Seq<char>| help_entry(o)).push(seq!['\n'])
}

/// The outcome of one decision point on `lines`: `None` when the input is
/// exhausted first, `Some(None)` on a blank line, `Some(Some(choice))` on
/// the first line that matches an option verbatim; with how many lines it
/// consumes. Help requests and unrecognized lines are passed over.
pub open spec fn options_read(opts: Seq<Seq<char>>, lines: Seq<Seq<char>>) -> (
    Option<Option<Seq<char>>>,
    nat,
)
    decreases lines.len(),
{
    if lines.len() == 0 {
        (None, 0)
    } else {
        let t = trim_spec(lines[0]);
        if t.len() == 0 {
            (Some(None), 1)
        } else if t == help_token() || !opts.contains(t) {
            let r = options_read(opts, lines.drop_first());
            (r.0, (r.1 + 1) as nat)
        } else {
            (Some(Some(t)), 1)
        }
    }
}

/// What one decision point writes on `lines`: a prompt per attempt, and the
/// help listing after each help request.
pub open spec fn options_transcript(
    h: Seq<char>,
    opts: Seq<Seq<char>>,
    lines: Seq<Seq<char>>,
) -> Seq<Seq<char>>
    decreases lines.len(),
{
    if lines.len() == 0 {
        prompt_of(h)
    } else {
        let t = trim_spec(lines[0]);
        if t.len() == 0 {
            prompt_of(h)
        } else if t == help_token() {
            prompt_of(h) + help_block(opts) + options_transcript(h, opts, lines.drop_first())
        } else if !opts.contains(t) {
            prompt_of(h) + options_transcript(h, opts, lines.drop_first())
        } else {
            prompt_of(h)
        }
    }
}

/// A decision point consumes at least one line when it decides, and never
/// more lines than there are.
pub proof fn lemma_options_read_used(opts: Seq<Seq<char>>, lines: Seq<Seq<char>>)
    ensures
        options_read(opts, lines).1 <= lines.len(),
        options_read(opts, lines).0 is Some ==> options_read(opts, lines).1 >= 1,
        (match options_read(opts, lines).0 {
            Some(Some(k)) => opts.contains(k),
            _ => true,
        }),
    decreases lines.len(),
{
    if lines.len() > 0 {
        let t = trim_spec(lines[0]);
        if t.len() > 0 && (t == help_token() || !opts.contains(t)) {
            lemma_options_read_used(opts, lines.drop_first());
        }
    }
}

/// Whether `s` is the help token.
fn is_help_token(s: &String) -> (b: bool)
    ensures
        b == (s@ == help_token()),
{
    let st = s.as_str();
    if st.unicode_len() == 1 {
        let c = st.get_char(0);
        if c == '?' {
            proof {
                assert(s@ =~= help_token());
            }
            true
        } else {
            false
        }
    } else {
        false
    }
}

/// Whether some entry of `v` reads as `s`.
fn vec_contains_string(v: &Vec<String>, s: &String) -> (b: bool)
    ensures
        b == v.deep_view().contains(s@),
{
    let n = v.len();
    let mut i: usize = 0;
    while i < n
        invariant
            n == v@.len(),
            i <= n,
            forall|j: int| 0 <= j < i ==> v.deep_view()[j] != s@,
        decreases n - i,
    {
        if v[i] == *s {
            proof {
                assert(v.deep_view()[i as int] == s@);
            }
            return true;
        }
        i = i + 1;
    }
    false
}

/// Writes the help listing for `options`: each option on its own line,
/// then a blank line.
fn write_help(options: &Vec<String>, con: &mut Console)
    ensures
        final (con).remaining() == old(con).remaining(),
        final (con).written() == old(con).written() + help_block(options.deep_view()),
{
    let ghost w0 = con.written();
    let ghost entries = options.deep_view().map_values(|o: Seq<char>| help_entry(o));
    let n = options.len();
    let mut i: usize = 0;
    proof {
        assert(w0 + entries.subrange(0, 0) =~= w0);
    }
    while i < n
        invariant
            n == options@.len(),
            i <= n,
            entries == options.deep_view().map_values(|o: Seq<char>| help_entry(o)),
            w0 == old(con).written(),
            con.remaining() == old(con).remaining(),
            con.written() == w0 + entries.subrange(0, i as int),
        decreases n - i,
    {
        let mut line = String::from_str("    ");
        line.append(options[i].as_str());
        line.append("\n");
        proof {
            reveal_strlit("    ");
            reveal_strlit("\n");
            assert(line@ =~= help_entry(options.deep_view()[i as int]));
        }
        con.write_chunk(line);
        proof {
            assert((w0 + entries.subrange(0, i as int)).push(line@) =~= w0 + entries.subrange(
                0,
                i + 1,
            ));
        }
        i = i + 1;
    }
    let blank = String::from_str("\n");
    proof {
        reveal_strlit("\n");
        assert(blank@ =~= seq!['\n']);
        assert(entries.subrange(0, n as int) =~= entries);
        assert((w0 + entries).push(blank@) =~= w0 + help_block(options.deep_view()));
    }
    con.write_chunk(blank);
}

/// Reads a choice among `options`: the first line that matches one of them
/// verbatim is returned, a blank line declines, `?` lists the options and
/// re-asks, and anything else silently re-asks.
pub fn read_from_options_or_empty(header: &str, options: &Vec<String>, con: &mut Console) -> (r:
    Result<Option<String>, EndOfInput>)
    ensures
        ({
            let cr = options_read(options.deep_view(), old(con).remaining());
            final (con).remaining() == old(con).remaining().skip(cr.1 as int)
                && final (con).written() == old(con).written() + options_transcript(
                header@,
                options.deep_view(),
                old(con).remaining(),
            ) && match r {
                Ok(Some(s)) => cr.0 == Some(Some(s@)),
                Ok(None) => cr.0 == Some(None::<Seq<char>>),
                Err(e) => cr.0 is None,
            }
        }),
{
    let ghost opts = options.deep_view();
    let ghost orig = con.remaining();
    let ghost w0 = con.written();
    let ghost mut k: nat = 0;
    proof {
        assert(orig.skip(0) =~= orig);
    }
    loop
        invariant
            opts == options.deep_view(),
            orig == old(con).remaining(),
            w0 == old(con).written(),
            k <= orig.len(),
            con.remaining() == orig.skip(k as int),
            options_read(opts, orig).0 == options_read(opts, orig.skip(k as int)).0,
            options_read(opts, orig).1 == k + options_read(opts, orig.skip(k as int)).1,
            w0 + options_transcript(header@, opts, orig) == con.written() + options_transcript(
                header@,
                opts,
                orig.skip(k as int),
            ),
        decreases orig.len() - k,
    {
        let ghost cur = orig.skip(k as int);
        let ghost whead = con.written();
        let attempt = read_string_or_empty(header, con);
        match attempt {
            Err(e) => {
                proof {
                    assert(whead + options_transcript(header@, opts, cur) =~= whead + prompt_of(
                        header@,
                    ));
                }
                return Err(e);
            },
            Ok(None) => {
                proof {
                    assert(whead + options_transcript(header@, opts, cur) =~= whead + prompt_of(
                        header@,
                    ));
                }
                return Ok(None);
            },
            Ok(Some(s)) => {
                proof {
                    assert(cur.drop_first() =~= orig.skip(k as int + 1));
                }
                if is_help_token(&s) {
                    write_help(options, con);
                    proof {
                        assert((whead + prompt_of(header@)) + help_block(opts) =~= con.written());
                        assert(whead + (prompt_of(header@) + help_block(opts)
                            + options_transcript(header@, opts, cur.drop_first())) =~= (whead
                            + prompt_of(header@) + help_block(opts)) + options_transcript(
                            header@,
                            opts,
                            cur.drop_first(),
                        ));
                        k = k + 1;
                    }
                } else if vec_contains_string(options, &s) {
                    proof {
                        assert(whead + options_transcript(header@, opts, cur) =~= whead
                            + prompt_of(header@));
                    }
                    return Ok(Some(s));
                } else {
                    proof {
                        assert(whead + (prompt_of(header@) + options_transcript(
                            header@,
                            opts,
                            cur.drop_first(),
                        )) =~= (whead + prompt_of(header@)) + options_transcript(
                            header@,
                            opts,
                            cur.drop_first(),
                        ));
                        k = k + 1;
                    }
                }
            },
        }
    }
}

/// The walk's outcome on `lines`: the path of chosen keys from `t` down to
/// where the descent stops, or `None` when the input is exhausted before a
/// decision; with how many lines it consumes.
pub open spec fn walk_read(t: Tree, lines: Seq<Seq<char>>) -> (Option<Seq<Seq<char>>>, nat)
    decreases lines.len(),
{
    let cr = options_read(keys_spec(t), lines);
    match cr.0 {
        None => (None, cr.1),
        Some(None) => (Some(Seq::empty()), cr.1),
        Some(Some(key)) => match child_spec(t, key) {
            None => (Some(seq![key]), cr.1),
            Some(sub) => if 1 <= cr.1 <= lines.len() {
                let wr = walk_read(sub, lines.skip(cr.1 as int));
                match wr.0 {
                    None => (None, (cr.1 + wr.1) as nat),
                    Some(rest) => (Some(seq![key] + rest), (cr.1 + wr.1) as nat),
                }
            } else {
                (None, cr.1)
            },
        },
    }
}

/// What the walk writes on `lines`: one decision point's transcript per
/// level descended.
pub open spec fn walk_transcript(h: Seq<char>, t: Tree, lines: Seq<Seq<char>>) -> Seq<Seq<char>>
    decreases lines.len(),
{
    let cr = options_read(keys_spec(t), lines);
    let base = options_transcript(h, keys_spec(t), lines);
    match cr.0 {
        Some(Some(key)) => match child_spec(t, key) {
            Some(sub) => if 1 <= cr.1 <= lines.len() {
                base + walk_transcript(h, sub, lines.skip(cr.1 as int))
            } else {
                base
            },
            None => base,
        },
        _ => base,
    }
}

/// Walks the tree from `options` down: at each level the user chooses among
/// the current node's keys, and the chosen keys accumulate in order. A blank
/// line, or choosing a leaf, ends the walk.
pub fn read_from_tree_options(header: &str, options: &Tree, con: &mut Console) -> (r: Result<
    Vec<String>,
    EndOfInput,
>)
    ensures
        ({
            let wr = walk_read(*options, old(con).remaining());
            final (con).remaining() == old(con).remaining().skip(wr.1 as int)
                && final (con).written() == old(con).written() + walk_transcript(
                header@,
                *options,
                old(con).remaining(),
            ) && match r {
                Ok(path) => wr.0 == Some(path.deep_view()),
                Err(e) => wr.0 is None,
            }
        }),
{
    let ghost orig = con.remaining();
    let ghost w0 = con.written();
    let ghost mut k: nat = 0;
    let mut node: &Tree = options;
    let mut path: Vec<String> = Vec::new();
    proof {
        assert(orig.skip(0) =~= orig);
        assert(path.deep_view() =~= Seq::<Seq<char>>::empty());
        if walk_read(*options, orig).0 is Some {
            assert(path.deep_view() + walk_read(*options, orig).0.unwrap() =~= walk_read(
                *options,
                orig,
            ).0.unwrap());
        }
    }
    loop
        invariant
            orig == old(con).remaining(),
            w0 == old(con).written(),
            k <= orig.len(),
            con.remaining() == orig.skip(k as int),
            walk_read(*options, orig).0 == (match walk_read(*node, orig.skip(k as int)).0 {
                None => None::<Seq<Seq<char>>>,
                Some(rest) => Some(path.deep_view() + rest),
            }),
            walk_read(*options, orig).1 == k + walk_read(*node, orig.skip(k as int)).1,
            w0 + walk_transcript(header@, *options, orig) == con.written() + walk_transcript(
                header@,
                *node,
                orig.skip(k as int),
            ),
        decreases orig.len() - k,
    {
        let ghost cur = orig.skip(k as int);
        let keys = node.get_keys();
        proof {
            lemma_options_read_used(keys_spec(*node), cur);
        }
        let choice = read_from_options_or_empty(header, &keys, con);
        let ghost cr = options_read(keys_spec(*node), cur);
        proof {
            assert(cur.skip(cr.1 as int) =~= orig.skip(k as int + cr.1 as int));
        }
        match choice {
            Err(e) => {
                return Err(e);
            },
            Ok(None) => {
                proof {
                    assert(path.deep_view() + Seq::<Seq<char>>::empty() =~= path.deep_view());
                }
                return Ok(path);
            },
            Ok(Some(s)) => {
                let sub_opt = node.get_child(&s);
                match sub_opt {
                    None => {
                        let ghost pd = path.deep_view();
                        path.push(s);
                        proof {
                            assert(path.deep_view() =~= pd.push(s@));
                            assert(pd + seq![s@] =~= pd.push(s@));
                        }
                        return Ok(path);
                    },
                    Some(sub) => {
                        let ghost pd = path.deep_view();
                        let ghost key = s@;
                        path.push(s);
                        proof {
                            assert(path.deep_view() =~= pd.push(key));
                            let wr2 = walk_read(*sub, cur.skip(cr.1 as int));
                            match wr2.0 {
                                None => {},
                                Some(rest) => {
                                    assert(pd + (seq![key] + rest) =~= pd.push(key) + rest);
                                },
                            }
                            assert((con.written() + options_transcript(header@, keys_spec(*node), cur))
                                + walk_transcript(header@, *sub, cur.skip(cr.1 as int))
                                =~= con.written() + (options_transcript(header@, keys_spec(*node), cur)
                                + walk_transcript(header@, *sub, cur.skip(cr.1 as int))));
                            k = k + cr.1;
                        }
                        node = sub;
                    },
                }
            },
        }
    }
}

/// What one line asks of a decision point: decline, list the options, pick
/// the option the line matches, or nothing recognizable.
pub enum ChoiceStep {
    /// A blank line: the user declines to choose at this level.
    Stop,
    /// The help token: list the options and ask again.
    Help,
    /// The trimmed line matches an option verbatim.
    Pick,
    /// Anything else: ask again.
    Retry,
}

/// Classifies one raw input line against `options`, exactly as one turn of
/// [`read_from_options_or_empty`] does.
pub fn choose_step(line: &str, options: &Vec<String>) -> (s: ChoiceStep)
    ensures
        ({
            let t = trim_spec(line@);
            if t.len() == 0 {
                s is Stop
            } else if t == help_token() {
                s is Help
            } else if options.deep_view().contains(t) {
                s is Pick
            } else {
                s is Retry
            }
        }),
{
    let t = crate::text::trim_text(line);
    if t.as_str().is_empty() {
        ChoiceStep::Stop
    } else if is_help_token(&t) {
        ChoiceStep::Help
    } else if vec_contains_string(options, &t) {
        ChoiceStep::Pick
    } else {
        ChoiceStep::Retry
    }
}

} // verus!
