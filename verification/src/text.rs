//! Text as sequences of characters: splitting, joining, comparing, measuring.
//!
//! Every text of the library is specified over its characters, `Seq<char>`,
//! which is the view of a `String` or a `&str`.
use vstd::prelude::*;
use vstd::std_specs::iter::IteratorSpec;

verus! {

/// The view of each vector in a sequence of character vectors.
pub open spec fn views(v: Seq<Vec<char>>) -> Seq<Seq<char>> {
    v.map_values(|x: Vec<char>| x@)
}

/// `s` cut at every `sep`: the pieces between the separators, in order, the
/// way `str::split` cuts it. An empty text is one empty piece.
pub open spec fn split_on(s: Seq<char>, sep: char) -> Seq<Seq<char>>
    decreases s.len(),
{
    if s.len() == 0 {
        seq![Seq::<char>::empty()]
    } else {
        let prev = split_on(s.drop_last(), sep);
        if s.last() == sep {
            prev.push(Seq::<char>::empty())
        } else {
            prev.update(prev.len() - 1, prev.last().push(s.last()))
        }
    }
}

/// The pieces that are not empty, in order.
pub open spec fn drop_empty(parts: Seq<Seq<char>>) -> Seq<Seq<char>>
    decreases parts.len(),
{
    if parts.len() == 0 {
        Seq::empty()
    } else if parts.last().len() == 0 {
        drop_empty(parts.drop_last())
    } else {
        drop_empty(parts.drop_last()).push(parts.last())
    }
}

/// The non-empty pieces of `s` between separators, which is what a path cut
/// at `/` with its empty segments dropped is.
pub open spec fn segments(s: Seq<char>, sep: char) -> Seq<Seq<char>> {
    drop_empty(split_on(s, sep))
}

/// The pieces written one after another with `sep` between each two.
pub open spec fn join(parts: Seq<Seq<char>>, sep: Seq<char>) -> Seq<char>
    decreases parts.len(),
{
    if parts.len() == 0 {
        Seq::empty()
    } else if parts.len() == 1 {
        parts[0]
    } else {
        join(parts.drop_last(), sep) + sep + parts.last()
    }
}

/// The pieces written one after another.
pub open spec fn concat(parts: Seq<Seq<char>>) -> Seq<char>
    decreases parts.len(),
{
    if parts.len() == 0 {
        Seq::empty()
    } else {
        concat(parts.drop_last()) + parts.last()
    }
}

/// Whether `c` occurs in `s`.
pub open spec fn has_char(s: Seq<char>, c: char) -> bool {
    exists|i: int| 0 <= i < s.len() && s[i] == c
}

/// Lexicographic order by code point, which is the order `String` sorts in.
pub open spec fn seq_lt(a: Seq<char>, b: Seq<char>) -> bool
    decreases a.len(),
{
    if b.len() == 0 {
        false
    } else if a.len() == 0 {
        true
    } else if a[0] != b[0] {
        (a[0] as int) < (b[0] as int)
    } else {
        seq_lt(a.skip(1), b.skip(1))
    }
}

/// Whether every text of `s` comes before every later one.
pub open spec fn strictly_sorted(s: Seq<Seq<char>>) -> bool {
    forall|i: int, j: int| 0 <= i < j < s.len() ==> seq_lt(#[trigger] s[i], #[trigger] s[j])
}

/// The code units of one character in UTF-16.
pub open spec fn utf16_units(c: char) -> nat {
    if (c as u32) >= 0x10000 {
        2
    } else {
        1
    }
}

/// The length of a text in UTF-16 code units, which is the JavaScript string
/// length.
pub open spec fn utf16_len(s: Seq<char>) -> nat
    decreases s.len(),
{
    if s.len() == 0 {
        0
    } else {
        utf16_len(s.drop_last()) + utf16_units(s.last())
    }
}

/// The bytes of one character in UTF-8.
pub open spec fn utf8_units(c: char) -> nat {
    if (c as u32) < 0x80 {
        1
    } else if (c as u32) < 0x800 {
        2
    } else if (c as u32) < 0x10000 {
        3
    } else {
        4
    }
}

/// The length of a text in UTF-8 bytes.
pub open spec fn utf8_len(s: Seq<char>) -> nat
    decreases s.len(),
{
    if s.len() == 0 {
        0
    } else {
        utf8_len(s.drop_last()) + utf8_units(s.last())
    }
}

/// The characters Unicode gives the `White_Space` property, which is what
/// `char::is_whitespace` tests.
pub open spec fn is_white(c: char) -> bool {
    let u = c as u32;
    (0x9 <= u && u <= 0xD) || u == 0x20 || u == 0x85 || u == 0xA0 || u == 0x1680 || (0x2000 <= u
        && u <= 0x200A) || u == 0x2028 || u == 0x2029 || u == 0x202F || u == 0x205F || u == 0x3000
}

/// The lines of a text the way `str::lines` reads them: cut at `\n`, a `\r`
/// before a `\n` dropped with it, and no empty line after a final newline.
pub open spec fn lines(s: Seq<char>) -> Seq<Seq<char>> {
    let parts = split_on(s, '\n');
    let ended = parts.drop_last().map_values(|line: Seq<char>| strip_cr(line));
    if parts.last().len() == 0 {
        ended
    } else {
        ended.push(parts.last())
    }
}

/// A line without the one `\r` that ended it, if it ended in one.
pub open spec fn strip_cr(line: Seq<char>) -> Seq<char> {
    if line.len() > 0 && line.last() == '\r' {
        line.drop_last()
    } else {
        line
    }
}

/// `s` without whitespace at its end.
pub open spec fn trim_end(s: Seq<char>) -> Seq<char>
    decreases s.len(),
{
    if s.len() > 0 && is_white(s.last()) {
        trim_end(s.drop_last())
    } else {
        s
    }
}

/// `s` without whitespace at its start.
pub open spec fn trim_start(s: Seq<char>) -> Seq<char>
    decreases s.len(),
{
    if s.len() > 0 && is_white(s[0]) {
        trim_start(s.skip(1))
    } else {
        s
    }
}

pub proof fn lemma_split_nonempty(s: Seq<char>, sep: char)
    ensures
        split_on(s, sep).len() >= 1,
    decreases s.len(),
{
    if s.len() > 0 {
        lemma_split_nonempty(s.drop_last(), sep);
    }
}

/// A text with no separator in it is one piece.
pub proof fn lemma_split_without_sep(s: Seq<char>, sep: char)
    requires
        !has_char(s, sep),
    ensures
        split_on(s, sep) == seq![s],
    decreases s.len(),
{
    if s.len() > 0 {
        assert(!has_char(s.drop_last(), sep)) by {
            if has_char(s.drop_last(), sep) {
                let i = choose|i: int| 0 <= i < s.drop_last().len() && s.drop_last()[i] == sep;
                assert(s[i] == sep);
            }
        }
        lemma_split_without_sep(s.drop_last(), sep);
        assert(s.last() != sep) by {
            assert(s[s.len() - 1] == s.last());
        }
        assert(s.drop_last().push(s.last()) =~= s);
        assert(seq![s.drop_last()].update(0, s.drop_last().push(s.last())) =~= seq![s]);
    } else {
        assert(s =~= Seq::<char>::empty());
    }
}

/// Cutting at a separator between two texts cuts each of them apart.
pub proof fn lemma_split_concat(a: Seq<char>, b: Seq<char>, sep: char)
    ensures
        split_on(a + seq![sep] + b, sep) == split_on(a, sep) + split_on(b, sep),
    decreases b.len(),
{
    if b.len() == 0 {
        assert((a + seq![sep] + b).drop_last() =~= a);
        assert(a + seq![sep] + b =~= a.push(sep));
        assert(split_on(a, sep).push(Seq::<char>::empty()) =~= split_on(a, sep) + split_on(b, sep));
    } else {
        let whole = a + seq![sep] + b;
        assert(whole.drop_last() =~= a + seq![sep] + b.drop_last());
        lemma_split_concat(a, b.drop_last(), sep);
        lemma_split_nonempty(b.drop_last(), sep);
        lemma_split_nonempty(a, sep);
        let left = split_on(a, sep);
        let right = split_on(b.drop_last(), sep);
        if b.last() == sep {
            assert((left + right).push(Seq::<char>::empty()) =~= left + right.push(Seq::<char>::empty()));
        } else {
            assert((left + right).update((left + right).len() - 1, (left + right).last().push(b.last()))
                =~= left + right.update(right.len() - 1, right.last().push(b.last())));
        }
    }
}

/// The UTF-16 length of two texts written one after the other is the sum of
/// their lengths.
pub proof fn lemma_utf16_len_add(a: Seq<char>, b: Seq<char>)
    ensures
        utf16_len(a + b) == utf16_len(a) + utf16_len(b),
    decreases b.len(),
{
    if b.len() == 0 {
        assert(a + b =~= a);
    } else {
        lemma_utf16_len_add(a, b.drop_last());
        assert((a + b).drop_last() =~= a + b.drop_last());
    }
}

pub proof fn lemma_utf8_len_add(a: Seq<char>, b: Seq<char>)
    ensures
        utf8_len(a + b) == utf8_len(a) + utf8_len(b),
    decreases b.len(),
{
    if b.len() == 0 {
        assert(a + b =~= a);
    } else {
        lemma_utf8_len_add(a, b.drop_last());
        assert((a + b).drop_last() =~= a + b.drop_last());
    }
}

/// Filtering a sequence with one more item at its end.
pub proof fn lemma_filter_push<A>(s: Seq<A>, pred: spec_fn(A) -> bool, x: A)
    ensures
        s.push(x).filter(pred) == (if pred(x) {
            s.filter(pred).push(x)
        } else {
            s.filter(pred)
        }),
{
    reveal(Seq::filter);
    assert(s.push(x).drop_last() =~= s);
}

/// One character takes its own number of UTF-8 bytes.
pub proof fn lemma_utf8_single(c: char)
    ensures
        utf8_len(seq![c]) == utf8_units(c),
{
    assert(seq![c].drop_last() =~= Seq::<char>::empty());
    reveal_with_fuel(utf8_len, 2);
}

pub proof fn lemma_seq_lt_irreflexive(a: Seq<char>)
    ensures
        !seq_lt(a, a),
    decreases a.len(),
{
    if a.len() > 0 {
        lemma_seq_lt_irreflexive(a.skip(1));
    }
}

pub proof fn lemma_seq_lt_asymmetric(a: Seq<char>, b: Seq<char>)
    ensures
        seq_lt(a, b) ==> !seq_lt(b, a),
    decreases a.len(),
{
    if a.len() > 0 && b.len() > 0 && a[0] == b[0] {
        lemma_seq_lt_asymmetric(a.skip(1), b.skip(1));
    }
}

pub proof fn lemma_seq_lt_total(a: Seq<char>, b: Seq<char>)
    ensures
        a != b ==> seq_lt(a, b) || seq_lt(b, a),
    decreases a.len(),
{
    if a.len() > 0 && b.len() > 0 && a[0] == b[0] {
        lemma_seq_lt_total(a.skip(1), b.skip(1));
        if a.skip(1) == b.skip(1) {
            assert(a =~= seq![a[0]] + a.skip(1));
            assert(b =~= seq![b[0]] + b.skip(1));
        }
    } else if a.len() == 0 && b.len() == 0 {
        assert(a =~= b);
    } else if a.len() > 0 && b.len() > 0 {
        assert((a[0] as int) != (b[0] as int));
    }
}

pub proof fn lemma_seq_lt_transitive(a: Seq<char>, b: Seq<char>, c: Seq<char>)
    requires
        seq_lt(a, b),
        seq_lt(b, c),
    ensures
        seq_lt(a, c),
    decreases a.len(),
{
    if a.len() > 0 && b.len() > 0 && c.len() > 0 && a[0] == b[0] && b[0] == c[0] {
        lemma_seq_lt_transitive(a.skip(1), b.skip(1), c.skip(1));
    }
}

/// In a strictly sorted sequence every text occurs once.
pub proof fn lemma_sorted_unique(s: Seq<Seq<char>>, i: int, j: int)
    requires
        strictly_sorted(s),
        0 <= i < s.len(),
        0 <= j < s.len(),
        s[i] == s[j],
    ensures
        i == j,
{
    if i < j {
        assert(seq_lt(s[i], s[j]));
        lemma_seq_lt_irreflexive(s[i]);
    } else if j < i {
        assert(seq_lt(s[j], s[i]));
        lemma_seq_lt_irreflexive(s[i]);
    }
}

/// Appends one character to a string.
///
/// Trusted: `String::push`, which the standard library documents as appending
/// the character to the end of the string.
#[verifier::external_body]
fn push_char(text: &mut String, c: char)
    ensures
        final(text)@ == old(text)@.push(c),
{
    text.push(c);
}

/// The characters of `text`, in order.
pub fn chars_of(text: &str) -> (out: Vec<char>)
    ensures
        out@ == text@,
{
    broadcast use vstd::string::axiom_spec_iter, vstd::string::next_postcondition;

    let mut out: Vec<char> = Vec::new();
    let mut chars = text.chars();
    loop
        invariant
            chars.obeys_prophetic_iter_laws(),
            out@ + chars.remaining() == text@,
            chars.decrease() is Some,
        decreases chars.decrease()->0,
    {
        match chars.next() {
            Some(c) => {
                out.push(c);
            },
            None => {
                assert(out@ =~= text@);
                return out;
            },
        }
    }
}

/// The string holding exactly the characters `chars`.
pub fn string_of(chars: &[char]) -> (out: String)
    ensures
        out@ == chars@,
{
    let mut out = String::new();
    let mut i: usize = 0;
    while i < chars.len()
        invariant
            i <= chars.len(),
            out@ == chars@.take(i as int),
        decreases chars.len() - i,
    {
        push_char(&mut out, chars[i]);
        assert(chars@.take(i as int).push(chars@[i as int]) =~= chars@.take(i + 1));
        i += 1;
    }
    assert(chars@.take(chars.len() as int) =~= chars@);
    out
}

/// The characters of `s` from position `k` on.
pub fn tail_from(s: &[char], k: usize) -> (out: Vec<char>)
    requires
        k <= s.len(),
    ensures
        out@ == s@.skip(k as int),
{
    let mut out: Vec<char> = Vec::new();
    let mut i: usize = k;
    while i < s.len()
        invariant
            k <= i <= s.len(),
            out@ == s@.subrange(k as int, i as int),
        decreases s.len() - i,
    {
        out.push(s[i]);
        assert(s@.subrange(k as int, i + 1) =~= s@.subrange(k as int, i as int).push(s@[i as int]));
        i += 1;
    }
    assert(s@.subrange(k as int, s.len() as int) =~= s@.skip(k as int));
    out
}

/// Whether `s` starts with `p`.
pub fn starts_with_chars(s: &[char], p: &[char]) -> (starts: bool)
    ensures
        starts == (s@.len() >= p@.len() && s@.take(p@.len() as int) == p@),
{
    if s.len() < p.len() {
        return false;
    }
    let mut i: usize = 0;
    while i < p.len()
        invariant
            p.len() <= s.len(),
            i <= p.len(),
            s@.take(i as int) == p@.take(i as int),
        decreases p.len() - i,
    {
        if s[i] != p[i] {
            assert(s@.take(p@.len() as int)[i as int] != p@[i as int]);
            return false;
        }
        assert(s@.take(i + 1) =~= s@.take(i as int).push(s@[i as int]));
        assert(p@.take(i + 1) =~= p@.take(i as int).push(p@[i as int]));
        i += 1;
    }
    assert(p@.take(i as int) =~= p@);
    true
}

/// Appends every character of `more` to `out`.
pub fn push_all(out: &mut Vec<char>, more: &[char])
    ensures
        final(out)@ == old(out)@ + more@,
{
    let mut i: usize = 0;
    while i < more.len()
        invariant
            i <= more.len(),
            out@ == old(out)@ + more@.take(i as int),
        decreases more.len() - i,
    {
        out.push(more[i]);
        assert(old(out)@ + more@.take(i + 1) =~= old(out)@ + more@.take(i as int) + seq![more@[i as int]]);
        i += 1;
    }
    assert(more@.take(more.len() as int) =~= more@);
}

/// Appends every character of `more` to `out`.
pub fn push_str(out: &mut Vec<char>, more: &str)
    ensures
        final(out)@ == old(out)@ + more@,
{
    let chars = chars_of(more);
    push_all(out, &chars);
}

/// Whether two texts are the same.
pub fn same_chars(a: &[char], b: &[char]) -> (same: bool)
    ensures
        same == (a@ == b@),
{
    if a.len() != b.len() {
        return false;
    }
    let mut i: usize = 0;
    while i < a.len()
        invariant
            a.len() == b.len(),
            i <= a.len(),
            a@.take(i as int) == b@.take(i as int),
        decreases a.len() - i,
    {
        if a[i] != b[i] {
            return false;
        }
        assert(a@.take(i + 1) =~= a@.take(i as int).push(a@[i as int]));
        assert(b@.take(i + 1) =~= b@.take(i as int).push(b@[i as int]));
        i += 1;
    }
    assert(a@ =~= a@.take(i as int));
    assert(b@ =~= b@.take(i as int));
    true
}

/// Whether `a` comes before `b` in code point order.
pub fn chars_lt(a: &[char], b: &[char]) -> (lt: bool)
    ensures
        lt == seq_lt(a@, b@),
{
    let mut i: usize = 0;
    assert(a@.skip(0) =~= a@);
    assert(b@.skip(0) =~= b@);
    while i < a.len() && i < b.len()
        invariant
            i <= a.len(),
            i <= b.len(),
            seq_lt(a@, b@) == seq_lt(a@.skip(i as int), b@.skip(i as int)),
        decreases a.len() - i,
    {
        if a[i] != b[i] {
            return a[i] < b[i];
        }
        assert(a@.skip(i as int).skip(1) =~= a@.skip(i + 1));
        assert(b@.skip(i as int).skip(1) =~= b@.skip(i + 1));
        i += 1;
    }
    i < b.len()
}

/// The pieces of `s` between the separators `sep`.
pub fn split_chars(s: &[char], sep: char) -> (parts: Vec<Vec<char>>)
    ensures
        views(parts@) == split_on(s@, sep),
{
    let mut parts: Vec<Vec<char>> = Vec::new();
    let mut current: Vec<char> = Vec::new();
    let mut i: usize = 0;
    while i < s.len()
        invariant
            i <= s.len(),
            views(parts@).push(current@) == split_on(s@.take(i as int), sep),
        decreases s.len() - i,
    {
        let c = s[i];
        let ghost before = split_on(s@.take(i as int), sep);
        assert(s@.take(i + 1).drop_last() =~= s@.take(i as int));
        if c == sep {
            parts.push(current);
            current = Vec::new();
            assert(views(parts@).push(current@) =~= before.push(Seq::<char>::empty()));
        } else {
            current.push(c);
            assert(views(parts@).push(current@) =~= before.update(
                before.len() - 1,
                before.last().push(c),
            ));
        }
        i += 1;
    }
    assert(s@.take(s.len() as int) =~= s@);
    parts.push(current);
    assert(views(parts@) =~= split_on(s@, sep));
    parts
}

/// The pieces that are not empty.
pub fn without_empty(parts: Vec<Vec<char>>) -> (out: Vec<Vec<char>>)
    ensures
        views(out@) == drop_empty(views(parts@)),
{
    let mut out: Vec<Vec<char>> = Vec::new();
    let mut i: usize = 0;
    while i < parts.len()
        invariant
            i <= parts.len(),
            views(out@) == drop_empty(views(parts@).take(i as int)),
        decreases parts.len() - i,
    {
        assert(views(parts@).take(i + 1).drop_last() =~= views(parts@).take(i as int));
        if parts[i].len() > 0 {
            out.push(parts[i].clone());
            assert(views(out@) =~= drop_empty(views(parts@).take(i as int)).push(parts@[i as int]@));
        }
        i += 1;
    }
    assert(views(parts@).take(parts.len() as int) =~= views(parts@));
    out
}

/// The non-empty pieces of `s` between the separators `sep`.
pub fn segments_of(s: &[char], sep: char) -> (out: Vec<Vec<char>>)
    ensures
        views(out@) == segments(s@, sep),
{
    without_empty(split_chars(s, sep))
}

/// The pieces `parts[..count]` joined with `sep` between each two.
pub fn join_chars(parts: &Vec<Vec<char>>, count: usize, sep: char) -> (out: Vec<char>)
    requires
        count <= parts.len(),
    ensures
        out@ == join(views(parts@).take(count as int), seq![sep]),
{
    let mut out: Vec<char> = Vec::new();
    let mut i: usize = 0;
    while i < count
        invariant
            i <= count <= parts.len(),
            out@ == join(views(parts@).take(i as int), seq![sep]),
        decreases count - i,
    {
        assert(views(parts@).take(i + 1).drop_last() =~= views(parts@).take(i as int));
        if i > 0 {
            out.push(sep);
        }
        push_all(&mut out, parts[i].as_slice());
        if i == 0 {
            assert(out@ =~= join(views(parts@).take(1), seq![sep]));
        } else {
            assert(out@ =~= join(views(parts@).take(i as int), seq![sep]) + seq![sep] + parts@[i as int]@);
        }
        i += 1;
    }
    out
}

/// Whether `c` is Unicode whitespace.
pub fn is_whitespace(c: char) -> (white: bool)
    ensures
        white == is_white(c),
{
    let u = c as u32;
    (0x9 <= u && u <= 0xD) || u == 0x20 || u == 0x85 || u == 0xA0 || u == 0x1680 || (0x2000 <= u
        && u <= 0x200A) || u == 0x2028 || u == 0x2029 || u == 0x202F || u == 0x205F || u == 0x3000
}

/// How many whitespace characters `s` starts with: `s` from there on is
/// `s` without whitespace at its start.
pub fn trim_start_chars(s: &[char]) -> (k: usize)
    ensures
        k <= s@.len(),
        s@.skip(k as int) == trim_start(s@),
{
    let mut k: usize = 0;
    assert(s@.skip(0) =~= s@);
    while k < s.len() && is_whitespace(s[k])
        invariant
            k <= s@.len(),
            trim_start(s@) == trim_start(s@.skip(k as int)),
        decreases s.len() - k,
    {
        assert(s@.skip(k as int)[0] == s@[k as int]);
        assert(s@.skip(k as int).skip(1) =~= s@.skip(k + 1));
        k += 1;
    }
    if k < s.len() {
        assert(s@.skip(k as int)[0] == s@[k as int]);
    } else {
        assert(s@.skip(k as int) =~= Seq::<char>::empty());
    }
    k
}

/// `s` without whitespace at its end.
pub fn trim_end_chars(s: &[char]) -> (out: Vec<char>)
    ensures
        out@ == trim_end(s@),
{
    let mut end: usize = s.len();
    assert(s@.take(end as int) =~= s@);
    while end > 0 && is_whitespace(s[end - 1])
        invariant
            end <= s.len(),
            trim_end(s@) == trim_end(s@.take(end as int)),
        decreases end,
    {
        assert(s@.take(end as int).drop_last() =~= s@.take(end - 1));
        end -= 1;
    }
    let mut out: Vec<char> = Vec::new();
    let mut i: usize = 0;
    while i < end
        invariant
            end <= s.len(),
            i <= end,
            out@ == s@.take(i as int),
        decreases end - i,
    {
        out.push(s[i]);
        assert(s@.take(i + 1) =~= s@.take(i as int).push(s@[i as int]));
        i += 1;
    }
    out
}

/// Whether `c` occurs in `s`.
pub fn contains_char(s: &[char], c: char) -> (found: bool)
    ensures
        found == has_char(s@, c),
{
    let mut i: usize = 0;
    while i < s.len()
        invariant
            i <= s.len(),
            forall|j: int| 0 <= j < i ==> s@[j] != c,
        decreases s.len() - i,
    {
        if s[i] == c {
            return true;
        }
        i += 1;
    }
    false
}


/// A line without the `\r` that ended it.
pub fn strip_cr_chars(line: &Vec<char>) -> (out: Vec<char>)
    ensures
        out@ == strip_cr(line@),
{
    if line.len() > 0 && line[line.len() - 1] == '\r' {
        let mut out: Vec<char> = Vec::new();
        let mut i: usize = 0;
        while i + 1 < line.len()
            invariant
                line@.len() > 0,
                i < line@.len(),
                out@ == line@.take(i as int),
            decreases line.len() - i,
        {
            out.push(line[i]);
            assert(line@.take(i + 1) =~= line@.take(i as int).push(line@[i as int]));
            i += 1;
        }
        assert(out@ =~= line@.drop_last());
        out
    } else {
        line.clone()
    }
}

/// The lines of `s`, the way `str::lines` reads them.
pub fn lines_of(s: &[char]) -> (out: Vec<Vec<char>>)
    ensures
        views(out@) == lines(s@),
{
    let parts = split_chars(s, '\n');
    proof {
        lemma_split_nonempty(s@, '\n');
    }
    let n = parts.len();
    let ghost whole = split_on(s@, '\n');
    let ghost ended = whole.drop_last().map_values(|line: Seq<char>| strip_cr(line));
    let mut out: Vec<Vec<char>> = Vec::new();
    let mut i: usize = 0;
    while i + 1 < n
        invariant
            n == parts@.len(),
            n >= 1,
            views(parts@) == whole,
            whole == split_on(s@, '\n'),
            ended == whole.drop_last().map_values(|line: Seq<char>| strip_cr(line)),
            i < n,
            views(out@) == ended.take(i as int),
        decreases n - i,
    {
        let line = strip_cr_chars(&parts[i]);
        assert(whole[i as int] == parts@[i as int]@);
        assert(ended[i as int] == strip_cr(whole.drop_last()[i as int]));
        out.push(line);
        assert(views(out@) =~= ended.take(i as int).push(ended[i as int]));
        assert(ended.take(i + 1) =~= ended.take(i as int).push(ended[i as int]));
        i += 1;
    }
    assert(ended.take(i as int) =~= ended);
    if parts[n - 1].len() > 0 {
        out.push(parts[n - 1].clone());
        assert(views(out@) =~= ended.push(whole.last()));
    }
    out
}

/// Whether two sequences of texts are the same.
pub fn same_texts(a: &Vec<Vec<char>>, b: &Vec<Vec<char>>) -> (same: bool)
    ensures
        same == (views(a@) == views(b@)),
{
    if a.len() != b.len() {
        assert(views(a@).len() != views(b@).len());
        return false;
    }
    let mut i: usize = 0;
    while i < a.len()
        invariant
            a@.len() == b@.len(),
            i <= a@.len(),
            forall|j: int| 0 <= j < i ==> a@[j]@ == b@[j]@,
        decreases a.len() - i,
    {
        if !same_chars(&a[i], &b[i]) {
            assert(views(a@)[i as int] != views(b@)[i as int]);
            return false;
        }
        i += 1;
    }
    assert(views(a@) =~= views(b@));
    true
}


/// The UTF-16 length of a text of any length.
pub fn utf16_count_wide(s: &[char]) -> (n: u128)
    ensures
        n == utf16_len(s@),
        n <= 2 * s@.len(),
{
    let mut n: u128 = 0;
    let mut i: usize = 0;
    while i < s.len()
        invariant
            i <= s.len(),
            n == utf16_len(s@.take(i as int)),
            n <= 2 * i,
        decreases s.len() - i,
    {
        assert(s@.take(i + 1).drop_last() =~= s@.take(i as int));
        if (s[i] as u32) >= 0x10000 {
            n = n + 2;
        } else {
            n = n + 1;
        }
        i += 1;
    }
    assert(s@.take(s.len() as int) =~= s@);
    n
}

/// The UTF-8 length of a text of any length.
pub fn utf8_count_wide(s: &[char]) -> (n: u128)
    ensures
        n == utf8_len(s@),
        n <= 4 * s@.len(),
{
    let mut n: u128 = 0;
    let mut i: usize = 0;
    while i < s.len()
        invariant
            i <= s.len(),
            n == utf8_len(s@.take(i as int)),
            n <= 4 * i,
        decreases s.len() - i,
    {
        assert(s@.take(i + 1).drop_last() =~= s@.take(i as int));
        let u = s[i] as u32;
        if u < 0x80 {
            n = n + 1;
        } else if u < 0x800 {
            n = n + 2;
        } else if u < 0x10000 {
            n = n + 3;
        } else {
            n = n + 4;
        }
        i += 1;
    }
    assert(s@.take(s.len() as int) =~= s@);
    n
}

/// The decimal digits of `n`.
pub open spec fn decimal(n: nat) -> Seq<char>
    decreases n,
{
    if n < 10 {
        seq![digit_char(n)]
    } else {
        decimal(n / 10).push(digit_char(n % 10))
    }
}

/// The digit for `d`, which is below ten.
pub open spec fn digit_char(d: nat) -> char {
    if d == 0 { '0' } else if d == 1 { '1' } else if d == 2 { '2' } else if d == 3 { '3' }
    else if d == 4 { '4' } else if d == 5 { '5' } else if d == 6 { '6' } else if d == 7 { '7' }
    else if d == 8 { '8' } else { '9' }
}

fn digit_of(d: u64) -> (c: char)
    requires
        d < 10,
    ensures
        c == digit_char(d as nat),
{
    if d == 0 { '0' } else if d == 1 { '1' } else if d == 2 { '2' } else if d == 3 { '3' }
    else if d == 4 { '4' } else if d == 5 { '5' } else if d == 6 { '6' } else if d == 7 { '7' }
    else if d == 8 { '8' } else { '9' }
}

/// The decimal digits of `n`, as `u64::to_string` writes them.
pub fn decimal_chars(n: u64) -> (out: Vec<char>)
    ensures
        out@ == decimal(n as nat),
    decreases n,
{
    if n < 10 {
        let mut out: Vec<char> = Vec::new();
        out.push(digit_of(n));
        out
    } else {
        let mut out = decimal_chars(n / 10);
        out.push(digit_of(n % 10));
        out
    }
}


/// Writing two lists of pieces one after the other writes each list.
pub proof fn lemma_concat_append(a: Seq<Seq<char>>, b: Seq<Seq<char>>)
    ensures
        concat(a + b) == concat(a) + concat(b),
    decreases b.len(),
{
    if b.len() == 0 {
        assert(a + b =~= a);
        assert(concat(a) + concat(b) =~= concat(a));
    } else {
        lemma_concat_append(a, b.drop_last());
        assert((a + b).drop_last() =~= a + b.drop_last());
        assert(concat(a) + (concat(b.drop_last()) + b.last()) =~= (concat(a) + concat(b.drop_last())) + b.last());
    }
}

/// The UTF-16 length of the pieces written one after another is the sum of
/// theirs, so no piece is longer than the whole.
pub proof fn lemma_concat_piece_le(ps: Seq<Seq<char>>, i: int)
    requires
        0 <= i < ps.len(),
    ensures
        utf16_len(ps[i]) <= utf16_len(concat(ps)),
        utf8_len(ps[i]) <= utf8_len(concat(ps)),
    decreases ps.len(),
{
    lemma_utf16_len_add(concat(ps.drop_last()), ps.last());
    lemma_utf8_len_add(concat(ps.drop_last()), ps.last());
    if i < ps.len() - 1 {
        lemma_concat_piece_le(ps.drop_last(), i);
    }
}

} // verus!
