//! What replacing a snippet of a memory's body does to the body: the snippet
//! must be there, once unless every occurrence is to be replaced, and the
//! body that results ends with a newline like any text file.
use vstd::prelude::*;

use crate::naming::with_final_newline;
use crate::text::{chars_of, decimal, decimal_chars, push_all, push_str, string_of};

verus! {

/// How many times `pat` occurs in `s`, counted from the left without
/// overlapping, the way a search for one occurrence after another finds them.
pub open spec fn occurrences(s: Seq<char>, pat: Seq<char>) -> nat
    decreases s.len(),
{
    if pat.len() == 0 || s.len() < pat.len() {
        0
    } else if s.take(pat.len() as int) == pat {
        1 + occurrences(s.skip(pat.len() as int), pat)
    } else {
        occurrences(s.skip(1), pat)
    }
}

/// `s` with the occurrences of `pat`, counted as [`occurrences`] counts them,
/// replaced by `new`: every one when `all`, else the first.
pub open spec fn replaced(s: Seq<char>, pat: Seq<char>, new: Seq<char>, all: bool) -> Seq<char>
    decreases s.len(),
{
    if pat.len() == 0 || s.len() < pat.len() {
        s
    } else if s.take(pat.len() as int) == pat {
        new + if all {
            replaced(s.skip(pat.len() as int), pat, new, all)
        } else {
            s.skip(pat.len() as int)
        }
    } else {
        seq![s[0]] + replaced(s.skip(1), pat, new, all)
    }
}

/// A text with a newline at its end, unless it is empty or has one.
pub open spec fn ending_in_newline(s: Seq<char>) -> Seq<char> {
    if s.len() == 0 || s.last() == '\n' {
        s
    } else {
        s.push('\n')
    }
}

/// Why a replacement with an empty snippet is refused.
pub open spec fn empty_snippet() -> Seq<char> {
    "old_string is empty: a replacement needs the text it replaces"@
}

/// Why a replacement of a snippet the body does not hold is refused.
pub open spec fn snippet_not_found() -> Seq<char> {
    "old_string does not appear in this memory's body, so there is nothing to replace"@
}

/// Why a replacement of one of several occurrences is refused.
pub open spec fn several_occurrences(n: nat) -> Seq<char> {
    "old_string appears "@ + decimal(n) + " times in this memory's body; send replace_all to replace every one of them"@
}

/// The body a replacement of `old` by `new` in `body` gives, or why it is
/// refused: an empty snippet names nothing to replace, a snippet the body does
/// not hold cannot be replaced, and a snippet the body holds more than once is
/// replaced only when every occurrence is to be.
pub open spec fn replacement(body: Seq<char>, old: Seq<char>, new: Seq<char>, all: bool) -> Result<Seq<char>, Seq<char>> {
    if old.len() == 0 {
        Err(empty_snippet())
    } else if occurrences(body, old) == 0 {
        Err(snippet_not_found())
    } else if occurrences(body, old) > 1 && !all {
        Err(several_occurrences(occurrences(body, old)))
    } else {
        Ok(ending_in_newline(replaced(body, old, new, all)))
    }
}

/// Whether `pat` occurs in `s` at `i`.
fn occurs_at(s: &Vec<char>, i: usize, pat: &Vec<char>) -> (found: bool)
    requires
        i <= s@.len(),
    ensures
        found == (s@.len() - i >= pat@.len() && s@.skip(i as int).take(pat@.len() as int) == pat@),
{
    if s.len() - i < pat.len() {
        return false;
    }
    let mut k: usize = 0;
    assert(s@.len() == s.len());
    while k < pat.len()
        invariant
            s@.len() <= usize::MAX,
            i <= s@.len(),
            s@.len() - i >= pat@.len(),
            k <= pat@.len(),
            forall|j: int| 0 <= j < k ==> s@[i + j] == pat@[j],
        decreases pat.len() - k,
    {
        if s[i + k] != pat[k] {
            assert(s@.skip(i as int).take(pat@.len() as int)[k as int] != pat@[k as int]);
            return false;
        }
        k += 1;
    }
    assert(s@.skip(i as int).take(pat@.len() as int) =~= pat@);
    true
}

/// One step of [`occurrences`] and [`replaced`] from position `i` of `s`.
proof fn lemma_step(s: Seq<char>, i: int, pat: Seq<char>)
    requires
        0 <= i <= s.len(),
        pat.len() > 0,
    ensures
        s.skip(i).len() >= pat.len() && s.skip(i).take(pat.len() as int) == pat ==> s.skip(i).skip(
            pat.len() as int,
        ) == s.skip(i + pat.len()),
        i < s.len() ==> s.skip(i).skip(1) == s.skip(i + 1) && s.skip(i)[0] == s[i],
{
    if s.skip(i).len() >= pat.len() {
        assert(s.skip(i).skip(pat.len() as int) =~= s.skip(i + pat.len()));
    }
    if i < s.len() {
        assert(s.skip(i).skip(1) =~= s.skip(i + 1));
    }
}

/// How many times `pat` occurs in `s`.
fn count_occurrences(s: &Vec<char>, pat: &Vec<char>) -> (n: usize)
    requires
        pat@.len() > 0,
    ensures
        n == occurrences(s@, pat@),
{
    let mut n: usize = 0;
    let mut i: usize = 0;
    assert(s@.skip(0) =~= s@);
    while i < s.len()
        invariant
            pat@.len() > 0,
            i <= s@.len(),
            n <= i,
            occurrences(s@, pat@) == n + occurrences(s@.skip(i as int), pat@),
        decreases s.len() - i,
    {
        proof {
            lemma_step(s@, i as int, pat@);
        }
        if occurs_at(s, i, pat) {
            n += 1;
            i += pat.len();
        } else {
            if s.len() - i < pat.len() {
                assert(occurrences(s@.skip(i as int), pat@) == 0);
                assert(s@.skip(s@.len() as int).len() == 0);
                i = s.len();
            } else {
                i += 1;
            }
        }
    }
    assert(occurrences(s@.skip(i as int), pat@) == 0);
    n
}

/// `s` with the occurrences of `pat` replaced by `new`: every one when `all`,
/// else the first.
fn replace_chars(s: &Vec<char>, pat: &Vec<char>, new: &Vec<char>, all: bool) -> (out: Vec<char>)
    requires
        pat@.len() > 0,
    ensures
        out@ == replaced(s@, pat@, new@, all),
{
    let mut out: Vec<char> = Vec::new();
    let mut i: usize = 0;
    assert(s@.skip(0) =~= s@);
    while i < s.len()
        invariant
            pat@.len() > 0,
            i <= s@.len(),
            replaced(s@, pat@, new@, all) == out@ + replaced(s@.skip(i as int), pat@, new@, all),
        decreases s.len() - i,
    {
        proof {
            lemma_step(s@, i as int, pat@);
        }
        if occurs_at(s, i, pat) {
            push_all(&mut out, new);
            i += pat.len();
            if !all {
                let ghost before = out@;
                let mut k: usize = i;
                while k < s.len()
                    invariant
                        i <= k <= s@.len(),
                        out@ == before + s@.subrange(i as int, k as int),
                    decreases s.len() - k,
                {
                    out.push(s[k]);
                    assert(s@.subrange(i as int, k + 1) =~= s@.subrange(i as int, k as int).push(s@[k as int]));
                    k += 1;
                }
                assert(s@.subrange(i as int, s@.len() as int) =~= s@.skip(i as int));
                return out;
            }
            assert(out@ + replaced(s@.skip(i as int), pat@, new@, all) =~= out@ + replaced(
                s@.skip(i as int),
                pat@,
                new@,
                all,
            ));
        } else if s.len() - i < pat.len() {
            let ghost before = out@;
            let mut k: usize = i;
            while k < s.len()
                invariant
                    i <= k <= s@.len(),
                    out@ == before + s@.subrange(i as int, k as int),
                decreases s.len() - k,
            {
                out.push(s[k]);
                assert(s@.subrange(i as int, k + 1) =~= s@.subrange(i as int, k as int).push(s@[k as int]));
                k += 1;
            }
            assert(s@.subrange(i as int, s@.len() as int) =~= s@.skip(i as int));
            assert(replaced(s@.skip(i as int), pat@, new@, all) == s@.skip(i as int));
            return out;
        } else {
            let ghost before = out@;
            out.push(s[i]);
            assert(out@ =~= before + seq![s@[i as int]]);
            i += 1;
        }
    }
    assert(s@.skip(i as int) =~= Seq::<char>::empty());
    assert(out@ =~= out@ + Seq::<char>::empty());
    out
}

/// The body that replacing `old` by `new` in `body` gives, or why the
/// replacement is refused.
pub fn replace_in_body(body: &str, old: &str, new: &str, replace_all: bool) -> (answer: Result<String, String>)
    ensures
        match answer {
            Ok(b) => replacement(body@, old@, new@, replace_all) == Ok::<Seq<char>, Seq<char>>(b@),
            Err(why) => replacement(body@, old@, new@, replace_all) == Err::<Seq<char>, Seq<char>>(why@),
        },
{
    let text = chars_of(body);
    let pat = chars_of(old);
    let mut why: Vec<char> = Vec::new();
    if pat.len() == 0 {
        push_str(&mut why, "old_string is empty: a replacement needs the text it replaces");
        return Err(string_of(&why));
    }
    let n = count_occurrences(&text, &pat);
    if n == 0 {
        push_str(&mut why, "old_string does not appear in this memory's body, so there is nothing to replace");
        return Err(string_of(&why));
    }
    if n > 1 && !replace_all {
        push_str(&mut why, "old_string appears ");
        let digits = decimal_chars(n as u64);
        push_all(&mut why, &digits);
        push_str(&mut why, " times in this memory's body; send replace_all to replace every one of them");
        return Err(string_of(&why));
    }
    let rewritten = replace_chars(&text, &pat, &chars_of(new), replace_all);
    Ok(with_final_newline(string_of(&rewritten).as_str()))
}

} // verus!
