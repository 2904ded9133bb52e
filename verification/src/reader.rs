//! The validated input reader.
//!
//! Each reader works through a [`Console`]: it consumes input lines until its
//! rule is satisfied, writing one prompt per attempt. The `_or_empty`
//! variants treat a blank line as the "no answer" signal and stop at once;
//! the unconditional variants re-ask forever, so with scripted input they
//! fail with [`EndOfInput`] exactly when no satisfying line remains.

use vstd::prelude::*;

use crate::console::Console;
use crate::console::EndOfInput;
use crate::numeric::Decimal;
use crate::numeric::Integral;
use crate::numeric::Numeric;
use crate::text::trim_spec;
use crate::text::trim_text;

verus! {

/// What one read attempt writes: nothing for an empty label, otherwise the
/// label followed by the prompt marker.
pub open spec fn prompt_of(h: Seq<char>) -> Seq<Seq<char>> {
    if h.len() == 0 {
        Seq::empty()
    } else {
        seq![h + seq![':', ' ']]
    }
}

/// What `n` read attempts write.
pub open spec fn prompts(h: Seq<char>, n: nat) -> Seq<Seq<char>>
    decreases n,
{
    if n == 0 {
        Seq::empty()
    } else {
        prompts(h, (n - 1) as nat) + prompt_of(h)
    }
}

/// Attempts add up: `a + b` attempts write what `a` then `b` attempts write.
pub proof fn lemma_prompts_add(h: Seq<char>, a: nat, b: nat)
    ensures
        prompts(h, a + b) == prompts(h, a) + prompts(h, b),
    decreases b,
{
    if b == 0 {
        assert(prompts(h, a) + prompts(h, 0) =~= prompts(h, a));
    } else {
        lemma_prompts_add(h, a, (b - 1) as nat);
        assert(prompts(h, a) + (prompts(h, (b - 1) as nat) + prompt_of(h)) =~= (prompts(h, a)
            + prompts(h, (b - 1) as nat)) + prompt_of(h));
    }
}

/// Writes the prompt, then consumes and returns one line, trimmed. Fails
/// exactly when the input is exhausted.
pub fn read_input_string(header: &str, con: &mut Console) -> (r: Result<String, EndOfInput>)
    ensures
        final (con).written() == old(con).written() + prompt_of(header@),
        match r {
            Ok(s) => old(con).remaining().len() > 0 && s@ == trim_spec(
                old(con).remaining()[0],
            ) && final (con).remaining() == old(con).remaining().drop_first(),
            Err(e) => old(con).remaining().len() == 0 && final (con).remaining() == old(
                con,
            ).remaining(),
        },
{
    if header.unicode_len() > 0 {
        let mut p = String::from_str(header);
        p.append(": ");
        proof {
            reveal_strlit(": ");
            assert(p@ =~= header@ + seq![':', ' ']);
            assert(old(con).written().push(p@) =~= old(con).written() + prompt_of(header@));
        }
        con.write_chunk(p);
    } else {
        proof {
            assert(con.written() =~= old(con).written() + prompt_of(header@));
        }
    }
    match con.next_line() {
        Some(l) => Ok(trim_text(l.as_str())),
        None => Err(EndOfInput),
    }
}

/// Reads one line; a blank line is the "no answer" outcome.
pub fn read_string_or_empty(header: &str, con: &mut Console) -> (r: Result<
    Option<String>,
    EndOfInput,
>)
    ensures
        final (con).written() == old(con).written() + prompt_of(header@),
        match r {
            Ok(o) => old(con).remaining().len() > 0 && final (con).remaining() == old(
                con,
            ).remaining().drop_first() && match o {
                Some(s) => s@ == trim_spec(old(con).remaining()[0]) && s@.len() > 0,
                None => trim_spec(old(con).remaining()[0]).len() == 0,
            },
            Err(e) => old(con).remaining().len() == 0 && final (con).remaining() == old(
                con,
            ).remaining(),
        },
{
    match read_input_string(header, con) {
        Ok(s) => {
            if s.as_str().is_empty() {
                Ok(None)
            } else {
                Ok(Some(s))
            }
        },
        Err(e) => Err(e),
    }
}

/// The first non-blank line of `lines` (trimmed), with how many lines the
/// search consumes.
pub open spec fn string_read(lines: Seq<Seq<char>>) -> (Option<Seq<char>>, nat)
    decreases lines.len(),
{
    if lines.len() == 0 {
        (None, 0)
    } else if trim_spec(lines[0]).len() > 0 {
        (Some(trim_spec(lines[0])), 1)
    } else {
        let r = string_read(lines.drop_first());
        (r.0, (r.1 + 1) as nat)
    }
}

/// The search consumes at least one line when any line is there, and never
/// more than there are.
pub proof fn lemma_string_read_used(lines: Seq<Seq<char>>)
    ensures
        string_read(lines).1 <= lines.len(),
        lines.len() > 0 ==> string_read(lines).1 >= 1,
    decreases lines.len(),
{
    if lines.len() > 0 && trim_spec(lines[0]).len() == 0 {
        lemma_string_read_used(lines.drop_first());
    }
}

/// Reads until a non-blank line arrives; blank lines are silently re-asked.
pub fn read_string(header: &str, con: &mut Console) -> (r: Result<String, EndOfInput>)
    ensures
        ({
            let sr = string_read(old(con).remaining());
            final (con).remaining() == old(con).remaining().skip(sr.1 as int) && match r {
                Ok(s) => sr.0 == Some(s@) && final (con).written() == old(con).written()
                    + prompts(header@, sr.1),
                Err(e) => sr.0 is None && final (con).written() == old(con).written() + prompts(
                    header@,
                    (sr.1 + 1) as nat,
                ),
            }
        }),
{
    let ghost orig = con.remaining();
    let ghost w0 = con.written();
    let ghost mut k: nat = 0;
    proof {
        assert(orig.skip(0) =~= orig);
    }
    loop
        invariant
            orig == old(con).remaining(),
            w0 == old(con).written(),
            k <= orig.len(),
            con.remaining() == orig.skip(k as int),
            string_read(orig).0 == string_read(orig.skip(k as int)).0,
            string_read(orig).1 == k + string_read(orig.skip(k as int)).1,
            con.written() == w0 + prompts(header@, k),
        decreases orig.len() - k,
    {
        let ghost cur = orig.skip(k as int);
        let attempt = read_string_or_empty(header, con);
        proof {
            assert((w0 + prompts(header@, k)) + prompt_of(header@) =~= w0 + prompts(
                header@,
                (k + 1) as nat,
            ));
        }
        match attempt {
            Err(e) => {
                return Err(e);
            },
            Ok(Some(s)) => {
                proof {
                    assert(cur.drop_first() =~= orig.skip(k as int + 1));
                }
                return Ok(s);
            },
            Ok(None) => {
                proof {
                    assert(cur.drop_first() =~= orig.skip(k as int + 1));
                    k = k + 1;
                }
            },
        }
    }
}

/// The outcome of the skip-aware typed read on `lines`: `None` when the
/// input is exhausted first, `Some(None)` on a blank line, `Some(Some(v))`
/// on the first line that parses as `T`; with how many lines it consumes.
pub open spec fn num_or_empty_read<T: Numeric>(lines: Seq<Seq<char>>) -> (Option<Option<T>>, nat)
    decreases lines.len(),
{
    if lines.len() == 0 {
        (None, 0)
    } else {
        let t = trim_spec(lines[0]);
        if t.len() == 0 {
            (Some(None), 1)
        } else if T::accepts(t) {
            (Some(Some(T::value_of(t))), 1)
        } else {
            let r = num_or_empty_read::<T>(lines.drop_first());
            (r.0, (r.1 + 1) as nat)
        }
    }
}

/// Reads until a line parses as `T`; a blank line stops the read with "no
/// answer", and malformed input is silently re-asked.
pub fn read_num_or_empty<T: Numeric>(header: &str, con: &mut Console) -> (r: Result<
    Option<T>,
    EndOfInput,
>)
    ensures
        ({
            let nr = num_or_empty_read::<T>(old(con).remaining());
            final (con).remaining() == old(con).remaining().skip(nr.1 as int) && match r {
                Ok(o) => nr.0 == Some(o) && final (con).written() == old(con).written() + prompts(
                    header@,
                    nr.1,
                ),
                Err(e) => nr.0 is None && final (con).written() == old(con).written() + prompts(
                    header@,
                    (nr.1 + 1) as nat,
                ),
            }
        }),
{
    let ghost orig = con.remaining();
    let ghost w0 = con.written();
    let ghost mut k: nat = 0;
    proof {
        assert(orig.skip(0) =~= orig);
    }
    loop
        invariant
            orig == old(con).remaining(),
            w0 == old(con).written(),
            k <= orig.len(),
            con.remaining() == orig.skip(k as int),
            num_or_empty_read::<T>(orig).0 == num_or_empty_read::<T>(orig.skip(k as int)).0,
            num_or_empty_read::<T>(orig).1 == k + num_or_empty_read::<T>(orig.skip(k as int)).1,
            con.written() == w0 + prompts(header@, k),
        decreases orig.len() - k,
    {
        let ghost cur = orig.skip(k as int);
        let attempt = read_string_or_empty(header, con);
        proof {
            assert((w0 + prompts(header@, k)) + prompt_of(header@) =~= w0 + prompts(
                header@,
                (k + 1) as nat,
            ));
        }
        match attempt {
            Err(e) => {
                return Err(e);
            },
            Ok(None) => {
                proof {
                    assert(cur.drop_first() =~= orig.skip(k as int + 1));
                }
                return Ok(None);
            },
            Ok(Some(s)) => {
                proof {
                    assert(cur.drop_first() =~= orig.skip(k as int + 1));
                }
                match T::from_text(s.as_str()) {
                    Some(v) => {
                        return Ok(Some(v));
                    },
                    None => {
                        proof {
                            k = k + 1;
                        }
                    },
                }
            },
        }
    }
}

/// The first line of `lines` that parses as `T` (blank and malformed lines
/// are passed over), with how many lines the search consumes.
pub open spec fn num_read<T: Numeric>(lines: Seq<Seq<char>>) -> (Option<T>, nat)
    decreases lines.len(),
{
    if lines.len() == 0 {
        (None, 0)
    } else {
        let t = trim_spec(lines[0]);
        if t.len() > 0 && T::accepts(t) {
            (Some(T::value_of(t)), 1)
        } else {
            let r = num_read::<T>(lines.drop_first());
            (r.0, (r.1 + 1) as nat)
        }
    }
}

/// `num_read` through the eyes of `string_read`: blank lines are passed
/// over by both, and the first non-blank line either settles the typed read
/// or is passed over too.
proof fn lemma_num_read_steps<T: Numeric>(lines: Seq<Seq<char>>)
    ensures
        ({
            let sr = string_read(lines);
            match sr.0 {
                None => num_read::<T>(lines) == (None::<T>, sr.1),
                Some(t) => {
                    if T::accepts(t) {
                        num_read::<T>(lines) == (Some(T::value_of(t)), sr.1)
                    } else {
                        num_read::<T>(lines).0 == num_read::<T>(lines.skip(sr.1 as int)).0
                            && num_read::<T>(lines).1 == sr.1 + num_read::<T>(
                            lines.skip(sr.1 as int),
                        ).1
                    }
                },
            }
        }),
    decreases lines.len(),
{
    if lines.len() == 0 {
    } else {
        let t0 = trim_spec(lines[0]);
        if t0.len() > 0 {
            assert(lines.skip(1) =~= lines.drop_first());
        } else {
            lemma_num_read_steps::<T>(lines.drop_first());
            lemma_string_read_used(lines.drop_first());
            let sr = string_read(lines);
            assert(lines.drop_first().skip((sr.1 - 1) as int) =~= lines.skip(sr.1 as int));
        }
    }
}

/// Reads until a line parses as `T`; blank and malformed lines alike are
/// silently re-asked, forever.
pub fn read_num<T: Numeric>(header: &str, con: &mut Console) -> (r: Result<T, EndOfInput>)
    ensures
        ({
            let nr = num_read::<T>(old(con).remaining());
            final (con).remaining() == old(con).remaining().skip(nr.1 as int) && match r {
                Ok(v) => nr.0 == Some(v) && final (con).written() == old(con).written() + prompts(
                    header@,
                    nr.1,
                ),
                Err(e) => nr.0 is None && final (con).written() == old(con).written() + prompts(
                    header@,
                    (nr.1 + 1) as nat,
                ),
            }
        }),
{
    let ghost orig = con.remaining();
    let ghost w0 = con.written();
    let ghost mut k: nat = 0;
    proof {
        assert(orig.skip(0) =~= orig);
    }
    loop
        invariant
            orig == old(con).remaining(),
            w0 == old(con).written(),
            k <= orig.len(),
            con.remaining() == orig.skip(k as int),
            num_read::<T>(orig).0 == num_read::<T>(orig.skip(k as int)).0,
            num_read::<T>(orig).1 == k + num_read::<T>(orig.skip(k as int)).1,
            con.written() == w0 + prompts(header@, k),
        decreases orig.len() - k,
    {
        let ghost cur = orig.skip(k as int);
        proof {
            lemma_num_read_steps::<T>(cur);
            lemma_string_read_used(cur);
        }
        let attempt = read_string(header, con);
        proof {
            let u = string_read(cur).1;
            lemma_prompts_add(header@, k, u);
            assert((w0 + prompts(header@, k)) + prompts(header@, u) =~= w0 + prompts(
                header@,
                (k + u) as nat,
            ));
            lemma_prompts_add(header@, k, (u + 1) as nat);
            assert((w0 + prompts(header@, k)) + prompts(header@, (u + 1) as nat) =~= w0 + prompts(
                header@,
                (k + u + 1) as nat,
            ));
            assert(cur.skip(u as int) =~= orig.skip(k as int + u as int));
        }
        match attempt {
            Err(e) => {
                return Err(e);
            },
            Ok(s) => {
                match T::from_text(s.as_str()) {
                    Some(v) => {
                        return Ok(v);
                    },
                    None => {
                        proof {
                            k = k + string_read(cur).1;
                        }
                    },
                }
            },
        }
    }
}

/// Reads an integer, or "no answer" on a blank line.
pub fn read_int_or_empty<T: Integral>(header: &str, con: &mut Console) -> (r: Result<
    Option<T>,
    EndOfInput,
>)
    ensures
        ({
            let nr = num_or_empty_read::<T>(old(con).remaining());
            final (con).remaining() == old(con).remaining().skip(nr.1 as int) && match r {
                Ok(o) => nr.0 == Some(o) && final (con).written() == old(con).written() + prompts(
                    header@,
                    nr.1,
                ),
                Err(e) => nr.0 is None && final (con).written() == old(con).written() + prompts(
                    header@,
                    (nr.1 + 1) as nat,
                ),
            }
        }),
{
    read_num_or_empty::<T>(header, con)
}

/// Reads an integer; blank and malformed lines are re-asked forever.
pub fn read_int<T: Integral>(header: &str, con: &mut Console) -> (r: Result<T, EndOfInput>)
    ensures
        ({
            let nr = num_read::<T>(old(con).remaining());
            final (con).remaining() == old(con).remaining().skip(nr.1 as int) && match r {
                Ok(v) => nr.0 == Some(v) && final (con).written() == old(con).written() + prompts(
                    header@,
                    nr.1,
                ),
                Err(e) => nr.0 is None && final (con).written() == old(con).written() + prompts(
                    header@,
                    (nr.1 + 1) as nat,
                ),
            }
        }),
{
    read_num::<T>(header, con)
}

/// Reads a decimal amount, or "no answer" on a blank line.
pub fn read_float_or_empty<T: Decimal>(header: &str, con: &mut Console) -> (r: Result<
    Option<T>,
    EndOfInput,
>)
    ensures
        ({
            let nr = num_or_empty_read::<T>(old(con).remaining());
            final (con).remaining() == old(con).remaining().skip(nr.1 as int) && match r {
                Ok(o) => nr.0 == Some(o) && final (con).written() == old(con).written() + prompts(
                    header@,
                    nr.1,
                ),
                Err(e) => nr.0 is None && final (con).written() == old(con).written() + prompts(
                    header@,
                    (nr.1 + 1) as nat,
                ),
            }
        }),
{
    read_num_or_empty::<T>(header, con)
}

/// Reads a decimal amount; blank and malformed lines are re-asked forever.
pub fn read_float<T: Decimal>(header: &str, con: &mut Console) -> (r: Result<T, EndOfInput>)
    ensures
        ({
            let nr = num_read::<T>(old(con).remaining());
            final (con).remaining() == old(con).remaining().skip(nr.1 as int) && match r {
                Ok(v) => nr.0 == Some(v) && final (con).written() == old(con).written() + prompts(
                    header@,
                    nr.1,
                ),
                Err(e) => nr.0 is None && final (con).written() == old(con).written() + prompts(
                    header@,
                    (nr.1 + 1) as nat,
                ),
            }
        }),
{
    read_num::<T>(header, con)
}

} // verus!
