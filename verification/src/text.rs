//! Lines and words: what the recording's text is made of.

use vstd::prelude::*;
use vstd::utf8::{encode_scalar, encode_utf8};

verus! {

/// `String::push` appends the character to the end of the string.
pub assume_specification[ String::push ](s: &mut String, c: char)
    ensures
        final(s)@ == old(s)@.push(c),
;

/// The views of the items of a sequence, in order.
pub open spec fn views<T: View>(s: Seq<T>) -> Seq<T::V> {
    s.map_values(|t: T| t@)
}

pub broadcast proof fn lemma_views_push<T: View>(s: Seq<T>, t: T)
    ensures
        #[trigger] views(s.push(t)) == views(s).push(t@),
{
    assert(views(s.push(t)) =~= views(s).push(t@));
}

/// Whether two texts are the same.
pub fn same(a: &str, b: &str) -> (r: bool)
    ensures
        r == (a@ == b@),
{
    a.to_owned() == b.to_owned()
}

/// The characters of a text.
pub fn chars_of(s: &str) -> (r: Vec<char>)
    ensures
        r@ == s@,
{
    let mut out: Vec<char> = Vec::new();
    for c in it: s.chars()
        invariant
            it.seq() == s@,
            out@ == s@.take(it.index() as int),
    {
        out.push(c);
    }
    assert(s@.take(s@.len() as int) =~= s@);
    out
}

/// The characters from `from` up to `to`, as a text.
pub fn text_of(chars: &Vec<char>, from: usize, to: usize) -> (r: String)
    requires
        from <= to <= chars@.len(),
    ensures
        r@ == chars@.subrange(from as int, to as int),
{
    let mut out: String = String::new();
    let mut i: usize = from;
    while i < to
        invariant
            from <= i <= to <= chars@.len(),
            out@ == chars@.subrange(from as int, i as int),
        decreases to - i,
    {
        out.push(chars[i]);
        i += 1;
    }
    out
}

/// A character with Unicode's `White_Space` property.
pub open spec fn is_space(c: char) -> bool {
    let n = c as int;
    ||| 0x9 <= n <= 0xd
    ||| n == 0x20
    ||| n == 0x85
    ||| n == 0xa0
    ||| n == 0x1680
    ||| 0x2000 <= n <= 0x200a
    ||| n == 0x2028
    ||| n == 0x2029
    ||| n == 0x202f
    ||| n == 0x205f
    ||| n == 0x3000
}

pub fn is_whitespace(c: char) -> (r: bool)
    ensures
        r == is_space(c),
{
    let n: u32 = c as u32;
    (0x9 <= n && n <= 0xd) || n == 0x20 || n == 0x85 || n == 0xa0 || n == 0x1680 || (0x2000 <= n
        && n <= 0x200a) || n == 0x2028 || n == 0x2029 || n == 0x202f || n == 0x205f || n == 0x3000
}

// ---------------------------------------------------------------- lines

/// How many characters stand before the first line feed.
pub open spec fn line_len(s: Seq<char>) -> nat
    decreases s.len(),
{
    if s.len() == 0 || s[0] == '\n' {
        0
    } else {
        1 + line_len(s.drop_first())
    }
}

/// A line without the carriage return of its `"\r\n"` ending.
pub open spec fn without_return(s: Seq<char>) -> Seq<char> {
    if s.len() > 0 && s.last() == '\r' {
        s.drop_last()
    } else {
        s
    }
}

/// The lines of a text. A line ends in `"\n"` or `"\r\n"`, which is not part
/// of it; the last line need not end in either.
pub open spec fn lines(s: Seq<char>) -> Seq<Seq<char>>
    decreases s.len(),
{
    if s.len() == 0 {
        seq![]
    } else if line_len(s) >= s.len() {
        seq![s]
    } else {
        seq![without_return(s.take(line_len(s) as int))] + lines(s.skip(line_len(s) as int + 1))
    }
}

proof fn lemma_line_len(s: Seq<char>, k: nat)
    requires
        k <= s.len(),
        forall|j: int| 0 <= j < k ==> s[j] != '\n',
        k == s.len() || s[k as int] == '\n',
    ensures
        line_len(s) == k,
    decreases k,
{
    if k > 0 {
        lemma_line_len(s.drop_first(), (k - 1) as nat);
    }
}

/// A line may end in `"\n"` or in `"\r\n"`.
pub proof fn law_line_endings(line: Seq<char>, rest: Seq<char>)
    requires
        forall|i: int| 0 <= i < line.len() ==> line[i] != '\n',
        line.len() > 0 ==> line.last() != '\r',
    ensures
        lines(line + seq!['\n'] + rest) == seq![line] + lines(rest),
        lines(line + seq!['\r', '\n'] + rest) == seq![line] + lines(rest),
{
    let s = line + seq!['\n'] + rest;
    let n = line.len();
    lemma_line_len(s, n);
    assert(s.take(n as int) =~= line);
    assert(s.skip(n as int + 1) =~= rest);
    let t = line + seq!['\r', '\n'] + rest;
    lemma_line_len(t, n + 1);
    assert(t.take(n as int + 1).drop_last() =~= line);
    assert(t.skip(n as int + 2) =~= rest);
}

/// Split a text into its lines.
pub fn split_lines(text: &str) -> (r: Vec<String>)
    ensures
        views(r@) == lines(text@),
{
    broadcast use lemma_views_push;

    let chars: Vec<char> = chars_of(text);
    let n: usize = chars.len();
    let mut out: Vec<String> = Vec::new();
    let mut start: usize = 0;
    let mut i: usize = 0;
    assert(chars@.skip(0) =~= chars@);
    assert(views(out@) + lines(chars@) =~= lines(chars@));
    while i < n
        invariant
            chars@ == text@,
            n == chars@.len(),
            start <= i <= n,
            forall|j: int| start <= j < i ==> chars@[j] != '\n',
            lines(text@) == views(out@) + lines(chars@.skip(start as int)),
        decreases n - i,
    {
        if chars[i] == '\n' {
            let end: usize = if i > start && chars[i - 1] == '\r' {
                i - 1
            } else {
                i
            };
            let line: String = text_of(&chars, start, end);
            proof {
                let s = chars@.skip(start as int);
                let k = (i - start) as nat;
                lemma_line_len(s, k);
                assert(without_return(s.take(k as int)) =~= line@);
                assert(s.skip(k as int + 1) =~= chars@.skip(i as int + 1));
                assert(views(out@) + (seq![line@] + lines(chars@.skip(i as int + 1))) =~= views(
                    out@,
                ).push(line@) + lines(chars@.skip(i as int + 1)));
            }
            out.push(line);
            start = i + 1;
        }
        i += 1;
    }
    if start < n {
        let line: String = text_of(&chars, start, n);
        proof {
            let s = chars@.skip(start as int);
            lemma_line_len(s, s.len());
            assert(s =~= line@);
            assert(views(out@) + seq![s] =~= views(out@).push(line@));
        }
        out.push(line);
    } else {
        proof {
            assert(chars@.skip(start as int).len() == 0);
            assert(views(out@) + lines(chars@.skip(start as int)) =~= views(out@));
        }
    }
    out
}

// ---------------------------------------------------------------- words

/// The words of a text: its longest runs without whitespace, in order. A
/// character continues the word of the character before it, or begins one.
pub open spec fn words(s: Seq<char>) -> Seq<Seq<char>>
    decreases s.len(),
{
    if s.len() == 0 {
        seq![]
    } else {
        let w = words(s.drop_last());
        if is_space(s.last()) {
            w
        } else if s.len() >= 2 && !is_space(s[s.len() - 2]) {
            w.drop_last().push(w.last().push(s.last()))
        } else {
            w.push(seq![s.last()])
        }
    }
}

/// Every word has a character, and none that is whitespace.
pub proof fn law_words_hold_no_space(s: Seq<char>)
    ensures
        forall|i: int| 0 <= i < words(s).len() ==> (#[trigger] words(s)[i]).len() > 0,
        forall|i: int, j: int|
            0 <= i < words(s).len() && 0 <= j < words(s)[i].len() ==> !is_space(
                #[trigger] words(s)[i][j],
            ),
        s.len() > 0 && !is_space(s.last()) ==> words(s).len() > 0,
    decreases s.len(),
{
    if s.len() > 0 {
        let w = words(s.drop_last());
        law_words_hold_no_space(s.drop_last());
        if !is_space(s.last()) && s.len() >= 2 && !is_space(s[s.len() - 2]) {
            assert(s.drop_last().last() == s[s.len() - 2]);
            assert forall|i: int| 0 <= i < words(s).len() implies (#[trigger] words(s)[i]).len()
                > 0 by {
                assert(i < w.len() - 1 ==> words(s)[i] == w[i]);
            }
            assert forall|i: int, j: int|
                0 <= i < words(s).len() && 0 <= j < words(s)[i].len() implies !is_space(
                #[trigger] words(s)[i][j],
            ) by {
                assert(j < w[i].len() ==> words(s)[i][j] == w[i][j]);
            }
        } else if !is_space(s.last()) {
            assert forall|i: int, j: int|
                0 <= i < words(s).len() && 0 <= j < words(s)[i].len() implies !is_space(
                #[trigger] words(s)[i][j],
            ) by {
                assert(i < w.len() ==> words(s)[i][j] == w[i][j]);
            }
            assert forall|i: int| 0 <= i < words(s).len() implies (#[trigger] words(s)[i]).len()
                > 0 by {
                assert(i < w.len() ==> words(s)[i] == w[i]);
            }
        }
    }
}

/// A text has no words exactly where it is whitespace throughout.
pub proof fn law_blank_text_has_no_words(s: Seq<char>)
    ensures
        words(s).len() == 0 <==> forall|i: int| 0 <= i < s.len() ==> is_space(#[trigger] s[i]),
    decreases s.len(),
{
    if s.len() > 0 {
        law_blank_text_has_no_words(s.drop_last());
        law_words_hold_no_space(s);
        if is_space(s.last()) {
            if words(s).len() == 0 {
                assert forall|i: int| 0 <= i < s.len() implies is_space(#[trigger] s[i]) by {
                    if i < s.len() - 1 {
                        assert(s.drop_last()[i] == s[i]);
                    }
                }
            }
        } else {
            assert(!is_space(s[s.len() - 1]));
        }
    }
}

/// Whitespace parts the words on its two sides.
pub proof fn law_whitespace_parts_words(a: Seq<char>, space: char, b: Seq<char>)
    requires
        is_space(space),
    ensures
        words(a.push(space) + b) == words(a) + words(b),
    decreases b.len(),
{
    let s = a.push(space) + b;
    if b.len() == 0 {
        assert(s.drop_last() =~= a);
        assert(words(a) + words(b) =~= words(a));
    } else {
        let front = b.drop_last();
        assert(s.drop_last() =~= a.push(space) + front);
        law_whitespace_parts_words(a, space, front);
        law_words_hold_no_space(front);
        let w = words(a) + words(front);
        if !is_space(b.last()) {
            if b.len() >= 2 {
                assert(s[s.len() - 2] == b[b.len() - 2]);
                assert(front.last() == b[b.len() - 2]);
                if !is_space(front.last()) {
                    assert(w.drop_last() =~= words(a) + words(front).drop_last());
                    assert(w.last() == words(front).last());
                }
            } else {
                assert(s[s.len() - 2] == space);
            }
            assert(words(s) =~= words(a) + words(b));
        }
    }
}

/// Split a text at its whitespace.
pub fn split_whitespace(text: &str) -> (r: Vec<String>)
    ensures
        views(r@) == words(text@),
{
    broadcast use lemma_views_push;

    let chars: Vec<char> = chars_of(text);
    let n: usize = chars.len();
    let mut out: Vec<String> = Vec::new();
    let mut word: String = String::new();
    let mut i: usize = 0;
    while i < n
        invariant
            chars@ == text@,
            n == chars@.len(),
            i <= n,
            word@.len() > 0 <==> i > 0 && !is_space(chars@[i - 1]),
            words(chars@.take(i as int)) == if word@.len() > 0 {
                views(out@).push(word@)
            } else {
                views(out@)
            },
        decreases n - i,
    {
        let c: char = chars[i];
        proof {
            let s = chars@.take(i as int + 1);
            assert(s.drop_last() =~= chars@.take(i as int));
            assert(s.last() == c);
            if i > 0 {
                assert(s[s.len() - 2] == chars@[i - 1]);
            }
            assert(views(out@).push(word@).drop_last() =~= views(out@));
        }
        if !is_whitespace(c) {
            word.push(c);
            proof {
                if word@.len() == 1 {
                    assert(word@ =~= seq![c]);
                }
            }
        } else if !word.as_str().is_empty() {
            out.push(word);
            word = String::new();
        }
        i += 1;
    }
    assert(chars@.take(n as int) =~= chars@);
    if !word.as_str().is_empty() {
        out.push(word);
    }
    out
}

// ---------------------------------------------------------------- trimming

pub open spec fn trim_start(s: Seq<char>) -> Seq<char>
    decreases s.len(),
{
    if s.len() > 0 && is_space(s[0]) {
        trim_start(s.drop_first())
    } else {
        s
    }
}

pub open spec fn trim_end(s: Seq<char>) -> Seq<char>
    decreases s.len(),
{
    if s.len() > 0 && is_space(s.last()) {
        trim_end(s.drop_last())
    } else {
        s
    }
}

/// A text without the whitespace at its two ends.
pub open spec fn trim(s: Seq<char>) -> Seq<char> {
    trim_end(trim_start(s))
}

/// How many bytes a character takes in UTF-8.
pub open spec fn utf8_len(c: char) -> int {
    let n = c as int;
    if n < 0x80 {
        1
    } else if n < 0x800 {
        2
    } else if n < 0x1_0000 {
        3
    } else {
        4
    }
}

/// What is left of a text after its first `n` bytes of UTF-8; nothing where
/// it has fewer, or where byte `n` is inside a character.
pub open spec fn after_bytes(s: Seq<char>, n: int) -> Seq<char>
    decreases s.len(),
{
    if n <= 0 || s.len() == 0 {
        s
    } else if utf8_len(s[0]) > n {
        seq![]
    } else {
        after_bytes(s.drop_first(), n - utf8_len(s[0]))
    }
}

/// In a text of one-byte characters so far, bytes and characters agree.
pub proof fn lemma_after_ascii(s: Seq<char>, n: nat)
    requires
        n <= s.len(),
        forall|i: int| 0 <= i < n ==> utf8_len(#[trigger] s[i]) == 1,
    ensures
        after_bytes(s, n as int) == s.skip(n as int),
    decreases n,
{
    if n > 0 {
        lemma_after_ascii(s.drop_first(), (n - 1) as nat);
        assert(s.drop_first().skip(n - 1) =~= s.skip(n as int));
    } else {
        assert(s.skip(0) =~= s);
    }
}

fn utf8_width(c: char) -> (r: usize)
    ensures
        r == utf8_len(c),
{
    let n: u32 = c as u32;
    if n < 0x80 {
        1
    } else if n < 0x800 {
        2
    } else if n < 0x1_0000 {
        3
    } else {
        4
    }
}

/// A text after its first `n` bytes, trimmed.
pub fn trimmed_after(text: &str, n: usize) -> (r: String)
    ensures
        r@ == trim(after_bytes(text@, n as int)),
{
    let chars: Vec<char> = chars_of(text);
    let mut from: usize = 0;
    let mut left: usize = n;
    assert(chars@.skip(0) =~= chars@);
    while left > 0 && from < chars.len() && utf8_width(chars[from]) <= left
        invariant
            chars@ == text@,
            from <= chars@.len(),
            after_bytes(text@, n as int) == after_bytes(chars@.skip(from as int), left as int),
        decreases chars@.len() - from,
    {
        assert(chars@.skip(from as int).drop_first() =~= chars@.skip(from as int + 1));
        left -= utf8_width(chars[from]);
        from += 1;
    }
    if left > 0 {
        // The text has ended, or `n` is inside a character.
        from = chars.len();
        assert(after_bytes(text@, n as int) =~= chars@.skip(from as int));
    }
    while from < chars.len() && is_whitespace(chars[from])
        invariant
            from <= chars@.len(),
            trim_start(after_bytes(text@, n as int)) == trim_start(chars@.skip(from as int)),
        decreases chars@.len() - from,
    {
        assert(chars@.skip(from as int).drop_first() =~= chars@.skip(from as int + 1));
        from += 1;
    }
    let ghost s = chars@.skip(from as int);
    let mut to: usize = chars.len();
    assert(s =~= chars@.subrange(from as int, to as int));
    while from < to && is_whitespace(chars[to - 1])
        invariant
            from <= to <= chars@.len(),
            trim_end(s) == trim_end(chars@.subrange(from as int, to as int)),
        decreases to - from,
    {
        assert(chars@.subrange(from as int, to as int).drop_last() =~= chars@.subrange(
            from as int,
            to as int - 1,
        ));
        to -= 1;
    }
    text_of(&chars, from, to)
}

// ---------------------------------------------------------------- laws

/// Viewing keeps every item, in its place.
pub proof fn law_views_keep_every_item<T: View>(s: Seq<T>)
    ensures
        views(s).len() == s.len(),
        forall|i: int| 0 <= i < s.len() ==> #[trigger] views(s)[i] == s[i]@,
{
}

/// Whitespace is what Unicode gives the `White_Space` property.
pub proof fn law_whitespace_is_that_of_unicode(c: char)
    ensures
        is_space(c) <==> seq![
            '\u{9}',
            '\u{a}',
            '\u{b}',
            '\u{c}',
            '\u{d}',
            '\u{20}',
            '\u{85}',
            '\u{a0}',
            '\u{1680}',
            '\u{2000}',
            '\u{2001}',
            '\u{2002}',
            '\u{2003}',
            '\u{2004}',
            '\u{2005}',
            '\u{2006}',
            '\u{2007}',
            '\u{2008}',
            '\u{2009}',
            '\u{200a}',
            '\u{2028}',
            '\u{2029}',
            '\u{202f}',
            '\u{205f}',
            '\u{3000}',
        ].contains(c),
{
    let all = seq![
        '\u{9}',
        '\u{a}',
        '\u{b}',
        '\u{c}',
        '\u{d}',
        '\u{20}',
        '\u{85}',
        '\u{a0}',
        '\u{1680}',
        '\u{2000}',
        '\u{2001}',
        '\u{2002}',
        '\u{2003}',
        '\u{2004}',
        '\u{2005}',
        '\u{2006}',
        '\u{2007}',
        '\u{2008}',
        '\u{2009}',
        '\u{200a}',
        '\u{2028}',
        '\u{2029}',
        '\u{202f}',
        '\u{205f}',
        '\u{3000}',
    ];
    if is_space(c) {
        let n = c as int;
        let k: int = if n <= 0xd {
            n - 9
        } else if n == 0x20 {
            5
        } else if n == 0x85 {
            6
        } else if n == 0xa0 {
            7
        } else if n == 0x1680 {
            8
        } else if n <= 0x200a {
            9 + n - 0x2000
        } else if n == 0x2028 {
            20
        } else if n == 0x2029 {
            21
        } else if n == 0x202f {
            22
        } else if n == 0x205f {
            23
        } else {
            24
        };
        assert(all[k] == c);
    }
}

/// A text without a line feed is one line, itself; an empty one has no line.
pub proof fn law_the_last_line_need_not_end(s: Seq<char>)
    requires
        forall|i: int| 0 <= i < s.len() ==> s[i] != '\n',
    ensures
        s.len() > 0 ==> lines(s) == seq![s],
        s.len() == 0 ==> lines(s) == Seq::<Seq<char>>::empty(),
{
    lemma_line_len(s, s.len());
}

/// Before a line feed, one carriage return belongs to the ending; any other is
/// part of the line.
pub proof fn law_one_carriage_return_ends_a_line(line: Seq<char>, rest: Seq<char>)
    requires
        forall|i: int| 0 <= i < line.len() ==> line[i] != '\n',
    ensures
        lines(line + seq!['\r', '\n'] + rest) == seq![line] + lines(rest),
{
    let n = line.len();
    let t = line + seq!['\r', '\n'] + rest;
    lemma_line_len(t, n + 1);
    assert(t.take(n as int + 1).drop_last() =~= line);
    assert(t.skip(n as int + 2) =~= rest);
}

/// A text that is not empty and has no whitespace is one word, itself.
pub proof fn law_a_text_without_whitespace_is_one_word(s: Seq<char>)
    requires
        s.len() > 0,
        forall|i: int| 0 <= i < s.len() ==> !is_space(#[trigger] s[i]),
    ensures
        words(s) == seq![s],
    decreases s.len(),
{
    let front = s.drop_last();
    assert(!is_space(s[s.len() - 1]));
    if s.len() >= 2 {
        assert forall|i: int| 0 <= i < front.len() implies !is_space(#[trigger] front[i]) by {
            assert(front[i] == s[i]);
        }
        law_a_text_without_whitespace_is_one_word(front);
        assert(front.push(s.last()) =~= s);
        assert(!is_space(s[s.len() - 2]));
        assert(words(s) =~= seq![s]);
    } else {
        assert(words(front) =~= Seq::<Seq<char>>::empty());
        assert(seq![s.last()] =~= s);
        assert(words(s) =~= seq![s]);
    }
}

/// The words of a text, joined, are its characters that are no whitespace, in
/// order.
pub proof fn law_words_keep_every_character(s: Seq<char>)
    ensures
        words(s).fold_left(Seq::<char>::empty(), |joined: Seq<char>, w: Seq<char>| joined + w)
            == s.filter(|c: char| !is_space(c)),
    decreases s.len(),
{
    let join = |joined: Seq<char>, w: Seq<char>| joined + w;
    let keep = |c: char| !is_space(c);
    let none = Seq::<char>::empty();
    reveal(Seq::filter);
    if s.len() > 0 {
        let front = s.drop_last();
        let w = words(front);
        law_words_keep_every_character(front);
        law_words_hold_no_space(front);
        if !is_space(s.last()) {
            if s.len() >= 2 && !is_space(s[s.len() - 2]) {
                assert(front.last() == s[s.len() - 2]);
                let longer = w.last().push(s.last());
                let v = w.drop_last().push(longer);
                assert(v.drop_last() =~= w.drop_last());
                let before = w.drop_last().fold_left(none, join);
                assert(v.fold_left(none, join) == before + longer);
                assert(w.fold_left(none, join) == before + w.last());
                assert(before + longer =~= (before + w.last()).push(s.last()));
            } else {
                let v = w.push(seq![s.last()]);
                assert(v.drop_last() =~= w);
                assert(v.fold_left(none, join) == w.fold_left(none, join) + seq![s.last()]);
                assert(w.fold_left(none, join) + seq![s.last()] =~= w.fold_left(none, join).push(
                    s.last(),
                ));
            }
        }
    } else {
        assert(words(s).fold_left(none, join) =~= s.filter(keep));
    }
}

/// Trimming takes off the whitespace at the two ends, all of it and nothing
/// else.
pub proof fn law_trimming_takes_off_the_ends(a: Seq<char>, text: Seq<char>, b: Seq<char>)
    requires
        forall|i: int| 0 <= i < a.len() ==> is_space(#[trigger] a[i]),
        forall|i: int| 0 <= i < b.len() ==> is_space(#[trigger] b[i]),
        text.len() > 0 ==> !is_space(text[0]) && !is_space(text.last()),
    ensures
        trim(a + text + b) == text,
{
    if text.len() > 0 {
        lemma_trim_start(a, text + b);
        assert(a + (text + b) =~= a + text + b);
        lemma_trim_end(text, b);
    } else {
        let s = a + b;
        assert(a + text + b =~= s);
        assert forall|i: int| 0 <= i < s.len() implies is_space(#[trigger] s[i]) by {}
        lemma_trim_start(s, seq![]);
        assert(s + Seq::<char>::empty() =~= s);
        assert(trim(s) =~= text);
    }
}

proof fn lemma_trim_start(a: Seq<char>, rest: Seq<char>)
    requires
        forall|i: int| 0 <= i < a.len() ==> is_space(#[trigger] a[i]),
        rest.len() > 0 ==> !is_space(rest[0]),
    ensures
        trim_start(a + rest) == rest,
    decreases a.len(),
{
    if a.len() == 0 {
        assert(a + rest =~= rest);
    } else {
        assert(is_space(a[0]));
        assert((a + rest).drop_first() =~= a.drop_first() + rest);
        lemma_trim_start(a.drop_first(), rest);
    }
}

proof fn lemma_trim_end(rest: Seq<char>, b: Seq<char>)
    requires
        forall|i: int| 0 <= i < b.len() ==> is_space(#[trigger] b[i]),
        rest.len() > 0 ==> !is_space(rest.last()),
    ensures
        trim_end(rest + b) == rest,
    decreases b.len(),
{
    if b.len() == 0 {
        assert(rest + b =~= rest);
    } else {
        assert(is_space(b[b.len() - 1]));
        assert((rest + b).drop_last() =~= rest + b.drop_last());
        lemma_trim_end(rest, b.drop_last());
    }
}

proof fn lemma_utf8_len(c: char)
    ensures
        utf8_len(c) == encode_scalar(c as u32).len(),
        1 <= utf8_len(c) <= 4,
{
    broadcast use vstd::utf8::char_is_scalar;

}

/// Behind the bytes that a text's beginning takes in UTF-8 stands the rest.
pub proof fn law_what_is_behind_some_bytes(a: Seq<char>, b: Seq<char>)
    ensures
        after_bytes(a + b, encode_utf8(a).len() as int) == b,
    decreases a.len(),
{
    if a.len() == 0 {
        assert(a + b =~= b);
    } else {
        lemma_utf8_len(a[0]);
        assert((a + b).drop_first() =~= a.drop_first() + b);
        law_what_is_behind_some_bytes(a.drop_first(), b);
    }
}

/// Where no beginning of a text takes just so many bytes in UTF-8, nothing is
/// behind them.
pub proof fn law_nothing_is_behind_half_a_character(s: Seq<char>, n: int)
    requires
        n >= 0,
        forall|k: int| 0 <= k <= s.len() ==> encode_utf8(#[trigger] s.take(k)).len() != n,
    ensures
        after_bytes(s, n) == Seq::<char>::empty(),
    decreases s.len(),
{
    assert(s.take(0) =~= seq![]);
    assert(encode_utf8(s.take(0)).len() == 0);
    if s.len() > 0 {
        lemma_utf8_len(s[0]);
        let rest = s.drop_first();
        let m = n - utf8_len(s[0]);
        if m >= 0 {
            assert forall|k: int| 0 <= k <= rest.len() implies encode_utf8(
                #[trigger] rest.take(k),
            ).len() != m by {
                let t = s.take(k + 1);
                assert(t.drop_first() =~= rest.take(k));
                assert(t[0] == s[0]);
                assert(encode_utf8(t).len() != n);
            }
            law_nothing_is_behind_half_a_character(rest, m);
        }
    }
}

} // verus!
