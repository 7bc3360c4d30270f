//! Strings as sequences of characters: the calls into `std`, `regex` and
//! `unicode_segmentation` that the extraction relies on, and small verified
//! helpers on strings and lists of strings.

use unicode_segmentation::UnicodeSegmentation;
use vstd::prelude::*;

verus! {

/// The character sequences of a list of strings.
pub open spec fn views(v: Seq<String>) -> Seq<Seq<char>> {
    v.map_values(|s: String| s@)
}

/// The character sequences of a list of lists of strings.
pub open spec fn deep_views(v: Seq<Vec<String>>) -> Seq<Seq<Seq<char>>> {
    v.map_values(|l: Vec<String>| views(l@))
}

/// Whether `char::is_whitespace` holds of a character (the Unicode property
/// `White_Space`).
pub uninterp spec fn white_space(c: char) -> bool;

/// Whether `char::is_uppercase` holds of a character (the Unicode property
/// `Uppercase`).
pub uninterp spec fn uppercase_letter(c: char) -> bool;

/// What `str::to_lowercase` returns for a string.
pub uninterp spec fn lowercased(s: Seq<char>) -> Seq<char>;

/// What `str::to_uppercase` returns for a string.
pub uninterp spec fn uppercased(s: Seq<char>) -> Seq<char>;

/// The extended grapheme clusters of a string, in order, as
/// `UnicodeSegmentation::graphemes(s, true)` yields them.
pub uninterp spec fn grapheme_clusters(s: Seq<char>) -> Seq<Seq<char>>;

/// The pieces that `UnicodeSegmentation::split_word_bounds` cuts a string into.
pub uninterp spec fn word_bounds(s: Seq<char>) -> Seq<Seq<char>>;

/// The words that `UnicodeSegmentation::unicode_words` finds in a string.
pub uninterp spec fn unicode_words(s: Seq<char>) -> Seq<Seq<char>>;

/// The sentences that `UnicodeSegmentation::unicode_sentences` finds in a string.
pub uninterp spec fn unicode_sentences(s: Seq<char>) -> Seq<Seq<char>>;

/// Whether `regex::Regex::new` accepts the pattern.
pub uninterp spec fn pattern_accepted(pattern: Seq<char>) -> bool;

/// What `regex::Regex::replace_all` returns for `text` with the expression
/// of an accepted `pattern`: the text with every match replaced as
/// `replacement` says.
pub uninterp spec fn pattern_replaced(
    pattern: Seq<char>,
    text: Seq<char>,
    replacement: Seq<char>,
) -> Seq<char>;

/// The text with every match of the pattern replaced, or the text as it is
/// where the pattern is not accepted.
pub open spec fn replaced_or_same(
    pattern: Seq<char>,
    text: Seq<char>,
    replacement: Seq<char>,
) -> Seq<char> {
    if pattern_accepted(pattern) {
        pattern_replaced(pattern, text, replacement)
    } else {
        text
    }
}

/// `char::is_whitespace`: the result is the `White_Space` property of `c`.
#[verifier::external_body]
pub(crate) fn is_whitespace(c: char) -> (r: bool)
    ensures
        r == white_space(c),
{
    c.is_whitespace()
}

/// `char::is_uppercase`: the result is the `Uppercase` property of `c`.
#[verifier::external_body]
pub(crate) fn is_uppercase(c: char) -> (r: bool)
    ensures
        r == uppercase_letter(c),
{
    c.is_uppercase()
}

/// `str::to_lowercase`: the result is the lower-case form of `s`.
#[verifier::external_body]
pub(crate) fn to_lowercase(s: &str) -> (r: String)
    ensures
        r@ == lowercased(s@),
{
    s.to_lowercase()
}

/// `str::to_uppercase`: the result is the upper-case form of `s`.
#[verifier::external_body]
pub(crate) fn to_uppercase(s: &str) -> (r: String)
    ensures
        r@ == uppercased(s@),
{
    s.to_uppercase()
}

/// `String::push`: the character is put at the end of the string.
#[verifier::external_body]
pub(crate) fn push_char(s: &mut String, c: char)
    ensures
        final(s)@ == old(s)@.push(c),
{
    s.push(c);
}

/// `UnicodeSegmentation::graphemes` with extended clusters: the result holds
/// the clusters of `s` in order, each as a string of its own.
#[verifier::external_body]
pub(crate) fn graphemes(s: &str) -> (r: Vec<String>)
    ensures
        views(r@) == grapheme_clusters(s@),
{
    s.graphemes(true).map(|g| g.to_string()).collect()
}

/// `UnicodeSegmentation::split_word_bounds`: the result holds the pieces of
/// `s` in order, and the pieces put together again give `s`.
#[verifier::external_body]
pub(crate) fn split_word_bounds(s: &str) -> (r: Vec<String>)
    ensures
        views(r@) == word_bounds(s@),
        views(r@).flatten() == s@,
{
    s.split_word_bounds().map(|w| w.to_string()).collect()
}

/// `UnicodeSegmentation::unicode_words`: the result holds the words of `s` in
/// order.
#[verifier::external_body]
pub(crate) fn split_unicode_words(s: &str) -> (r: Vec<String>)
    ensures
        views(r@) == unicode_words(s@),
{
    s.unicode_words().map(|w| w.to_string()).collect()
}

/// `UnicodeSegmentation::unicode_sentences`: the result holds the sentences
/// of `s` in order; an empty string has none.
#[verifier::external_body]
pub(crate) fn split_unicode_sentences(s: &str) -> (r: Vec<String>)
    ensures
        views(r@) == unicode_sentences(s@),
        s@.len() == 0 ==> r@.len() == 0,
{
    s.unicode_sentences().map(|w| w.to_string()).collect()
}

/// `regex::Regex::new` followed by `regex::Regex::replace_all`: `None` where
/// the pattern is not accepted, else the text with every match replaced.
#[verifier::external_body]
pub(crate) fn replace_pattern(pattern: &str, text: &str, replacement: &str) -> (r: Option<String>)
    ensures
        r.is_some() == pattern_accepted(pattern@),
        r.is_some() ==> r.unwrap()@ == pattern_replaced(pattern@, text@, replacement@),
{
    match regex::Regex::new(pattern) {
        Ok(re) => Some(re.replace_all(text, replacement).into_owned()),
        Err(_) => None,
    }
}

/// The index of the first character at or after `i` that is not white space,
/// or the length of `s` if there is none.
pub open spec fn skip_white_space(s: Seq<char>, i: int) -> int
    decreases s.len() - i,
{
    if 0 <= i < s.len() && white_space(s[i]) {
        skip_white_space(s, i + 1)
    } else {
        i
    }
}

/// The end of `s` once the white space before index `j`, down to `lo`, is
/// dropped.
pub open spec fn drop_white_space(s: Seq<char>, lo: int, j: int) -> int
    decreases j,
{
    if 0 <= lo < j <= s.len() && white_space(s[j - 1]) {
        drop_white_space(s, lo, j - 1)
    } else {
        j
    }
}

/// A string without its leading and trailing white space.
pub open spec fn trimmed(s: Seq<char>) -> Seq<char> {
    let a = skip_white_space(s, 0);
    let b = drop_white_space(s, a, s.len() as int);
    s.subrange(a, b)
}

/// The characters of a string, one by one.
pub fn chars_of(s: &str) -> (r: Vec<char>)
    ensures
        r@ == s@,
{
    broadcast use vstd::string::group_string_axioms;

    let mut r: Vec<char> = Vec::new();
    for c in it: s.chars()
        invariant
            it.seq() == s@,
            r@ == it.seq().take(it.index() as int),
    {
        r.push(c);
        assert(r@ =~= it.seq().take(it.index() + 1));
    }
    assert(s@.take(s@.len() as int) =~= s@);
    r
}

/// The string of the characters `chars[from..to]`.
pub fn string_of(chars: &Vec<char>, from: usize, to: usize) -> (r: String)
    requires
        from <= to <= chars.len(),
    ensures
        r@ == chars@.subrange(from as int, to as int),
{
    let mut r = String::new();
    let mut i: usize = from;
    while i < to
        invariant
            from <= i <= to <= chars.len(),
            r@ == chars@.subrange(from as int, i as int),
        decreases to - i,
    {
        push_char(&mut r, chars[i]);
        i += 1;
        assert(r@ =~= chars@.subrange(from as int, i as int));
    }
    r
}

/// Removes leading and trailing white space, as `str::trim` does.
pub fn trim(s: &str) -> (r: String)
    ensures
        r@ == trimmed(s@),
{
    let cs = chars_of(s);
    let n = cs.len();
    let mut a: usize = 0;
    while a < n && is_whitespace(cs[a])
        invariant
            n == cs.len(),
            a <= n,
            skip_white_space(cs@, 0) == skip_white_space(cs@, a as int),
        decreases n - a,
    {
        a += 1;
    }
    let mut b: usize = n;
    while b > a && is_whitespace(cs[b - 1])
        invariant
            n == cs.len(),
            a <= b <= n,
            drop_white_space(cs@, a as int, n as int) == drop_white_space(
                cs@,
                a as int,
                b as int,
            ),
        decreases b,
    {
        b -= 1;
    }
    string_of(&cs, a, b)
}

/// Whether two strings hold the same characters.
pub fn str_eq(a: &str, b: &str) -> (r: bool)
    ensures
        r == (a@ == b@),
{
    let x = a.to_owned();
    let y = b.to_owned();
    x == y
}

/// Whether `word` occurs in `list`.
pub fn contains_str(list: &Vec<String>, word: &str) -> (r: bool)
    ensures
        r == views(list@).contains(word@),
{
    let wanted = word.to_owned();
    let mut i: usize = 0;
    while i < list.len()
        invariant
            wanted@ == word@,
            i <= list.len(),
            forall|k: int| 0 <= k < i ==> views(list@)[k] != word@,
        decreases list.len() - i,
    {
        if list[i] == wanted {
            assert(views(list@)[i as int] == word@);
            return true;
        }
        i += 1;
    }
    false
}

/// A copy of a list of strings.
pub fn clone_strings(list: &Vec<String>) -> (r: Vec<String>)
    ensures
        views(r@) == views(list@),
{
    let mut r: Vec<String> = Vec::new();
    let mut i: usize = 0;
    while i < list.len()
        invariant
            i <= list.len(),
            views(r@) == views(list@).take(i as int),
        decreases list.len() - i,
    {
        let ghost before = r@;
        r.push(list[i].clone());
        i += 1;
        assert(views(r@) =~= views(before).push(list@[i - 1]@));
        assert(views(r@) =~= views(list@).take(i as int));
    }
    assert(views(list@).take(list.len() as int) =~= views(list@));
    r
}

/// A copy of the strings `list[from..to]`.
pub fn clone_range(list: &Vec<String>, from: usize, to: usize) -> (r: Vec<String>)
    requires
        from <= to <= list.len(),
    ensures
        views(r@) == views(list@).subrange(from as int, to as int),
{
    let mut r: Vec<String> = Vec::new();
    let mut i: usize = from;
    while i < to
        invariant
            from <= i <= to <= list.len(),
            views(r@) == views(list@).subrange(from as int, i as int),
        decreases to - i,
    {
        let ghost before = r@;
        r.push(list[i].clone());
        i += 1;
        assert(views(r@) =~= views(before).push(list@[i - 1]@));
        assert(views(r@) =~= views(list@).subrange(from as int, i as int));
    }
    r
}

/// The strings of `parts`, with one space between neighbours.
pub open spec fn joined(parts: Seq<Seq<char>>) -> Seq<char>
    decreases parts.len(),
{
    if parts.len() == 0 {
        Seq::empty()
    } else if parts.len() == 1 {
        parts[0]
    } else {
        joined(parts.drop_last()) + seq![' '] + parts.last()
    }
}

/// Whether the string holds no space.
pub open spec fn without_space(s: Seq<char>) -> bool {
    forall|k: int| 0 <= k < s.len() ==> #[trigger] s[k] != ' '
}

/// Whether no string of the list holds a space.
pub open spec fn space_free(parts: Seq<Seq<char>>) -> bool {
    forall|i: int| 0 <= i < parts.len() ==> without_space(#[trigger] parts[i])
}

proof fn lemma_split_at_last_space(s1: Seq<char>, t1: Seq<char>, s2: Seq<char>, t2: Seq<char>)
    requires
        s1 + seq![' '] + t1 == s2 + seq![' '] + t2,
        without_space(t1),
        without_space(t2),
    ensures
        s1 == s2,
        t1 == t2,
{
    let x = s1 + seq![' '] + t1;
    let y = s2 + seq![' '] + t2;
    assert(x.len() == s1.len() + 1 + t1.len());
    assert(y.len() == s2.len() + 1 + t2.len());
    assert(x[s1.len() as int] == ' ');
    assert(y[s2.len() as int] == ' ');
    if s1.len() > s2.len() {
        assert(y[s1.len() as int] == t2[s1.len() - s2.len() - 1]);
    }
    if s1.len() < s2.len() {
        assert(x[s2.len() as int] == t1[s2.len() - s1.len() - 1]);
    }
    assert forall|k: int| 0 <= k < s1.len() implies s1[k] == s2[k] by {
        assert(x[k] == s1[k] && y[k] == s2[k]);
    }
    assert forall|k: int| 0 <= k < t1.len() implies t1[k] == t2[k] by {
        assert(x[s1.len() + 1 + k] == t1[k] && y[s2.len() + 1 + k] == t2[k]);
    }
    assert(s1 =~= s2);
    assert(t1 =~= t2);
}

/// Strings without spaces can be told from what they give when joined: two
/// lists of such strings, neither of them empty, that give the same when
/// joined are the same list.
pub proof fn lemma_joined_tells_apart(a: Seq<Seq<char>>, b: Seq<Seq<char>>)
    requires
        a.len() >= 1,
        b.len() >= 1,
        space_free(a),
        space_free(b),
        joined(a) == joined(b),
    ensures
        a == b,
    decreases a.len(),
{
    if a.len() == 1 && b.len() == 1 {
        assert(a =~= b);
    } else if a.len() == 1 {
        let at = joined(b.drop_last()).len() as int;
        assert(joined(b)[at] == ' ');
        assert(without_space(a[0]));
        assert(a[0][at] != ' ');
    } else if b.len() == 1 {
        let at = joined(a.drop_last()).len() as int;
        assert(joined(a)[at] == ' ');
        assert(without_space(b[0]));
        assert(b[0][at] != ' ');
    } else {
        assert(without_space(a[a.len() - 1]));
        assert(without_space(b[b.len() - 1]));
        lemma_split_at_last_space(
            joined(a.drop_last()),
            a.last(),
            joined(b.drop_last()),
            b.last(),
        );
        assert forall|i: int| 0 <= i < a.drop_last().len() implies without_space(
            #[trigger] a.drop_last()[i],
        ) by {
            assert(a.drop_last()[i] == a[i]);
        }
        assert forall|i: int| 0 <= i < b.drop_last().len() implies without_space(
            #[trigger] b.drop_last()[i],
        ) by {
            assert(b.drop_last()[i] == b[i]);
        }
        lemma_joined_tells_apart(a.drop_last(), b.drop_last());
        assert(a =~= a.drop_last().push(a.last()));
        assert(b =~= b.drop_last().push(b.last()));
    }
}

/// Joins the strings `list[from..to]` with single spaces.
pub fn join_range(list: &Vec<String>, from: usize, to: usize) -> (r: String)
    requires
        from <= to <= list.len(),
    ensures
        r@ == joined(views(list@).subrange(from as int, to as int)),
{
    let mut r = String::new();
    let mut i: usize = from;
    let ghost all = views(list@);
    while i < to
        invariant
            from <= i <= to <= list.len(),
            all == views(list@),
            r@ == joined(all.subrange(from as int, i as int)),
        decreases to - i,
    {
        if i > from {
            proof {
                reveal_strlit(" ");
            }
            r.append(" ");
            assert(r@ == joined(all.subrange(from as int, i as int)) + seq![' ']);
        }
        r.append(list[i].as_str());
        proof {
            let before = all.subrange(from as int, i as int);
            let after = all.subrange(from as int, i + 1);
            assert(after.drop_last() =~= before);
            assert(after.last() == all[i as int]);
            if i == from {
                assert(joined(before) =~= Seq::<char>::empty());
                assert(r@ =~= all[i as int]);
            }
        }
        i += 1;
    }
    r
}

/// The index of the first white-space character at or after `i`, or the
/// length of `s` if there is none.
pub open spec fn word_end(s: Seq<char>, i: int) -> int
    decreases s.len() - i,
{
    if 0 <= i < s.len() && !white_space(s[i]) {
        word_end(s, i + 1)
    } else {
        i
    }
}

/// The runs of characters of `s` from index `i` on that hold no white
/// space, each as long as it can be.
pub open spec fn words_from(s: Seq<char>, i: int) -> Seq<Seq<char>>
    decreases s.len() - i,
{
    if i < 0 || i >= s.len() {
        Seq::empty()
    } else if white_space(s[i]) {
        words_from(s, i + 1)
    } else {
        let e = word_end(s, i);
        if i < e <= s.len() {
            seq![s.subrange(i, e)] + words_from(s, e)
        } else {
            Seq::empty()
        }
    }
}

/// The words of a string: what stands between white space, as
/// `str::split_whitespace` yields it.
pub open spec fn whitespace_words(s: Seq<char>) -> Seq<Seq<char>> {
    words_from(s, 0)
}

/// A word ends within the string, and behind its start where a word
/// starts there.
proof fn lemma_word_end_bounds(s: Seq<char>, i: int)
    requires
        0 <= i <= s.len(),
    ensures
        i <= word_end(s, i) <= s.len(),
        i < s.len() && !white_space(s[i]) ==> i < word_end(s, i),
    decreases s.len() - i,
{
    if i < s.len() && !white_space(s[i]) {
        lemma_word_end_bounds(s, i + 1);
    }
}

/// Splits a string at white space, as `str::split_whitespace` does.
pub fn split_whitespace(s: &str) -> (r: Vec<String>)
    ensures
        views(r@) == whitespace_words(s@),
{
    let cs = chars_of(s);
    let n = cs.len();
    let mut r: Vec<String> = Vec::new();
    let mut i: usize = 0;
    assert(views(r@) =~= Seq::<Seq<char>>::empty());
    while i < n
        invariant
            cs@ == s@,
            n == cs.len(),
            i <= n,
            views(r@) + words_from(s@, i as int) == whitespace_words(s@),
        decreases n - i,
    {
        if is_whitespace(cs[i]) {
            i += 1;
        } else {
            let mut b: usize = i + 1;
            while b < n && !is_whitespace(cs[b])
                invariant
                    cs@ == s@,
                    n == cs.len(),
                    i < b <= n,
                    word_end(s@, i as int) == word_end(s@, b as int),
                decreases n - b,
            {
                b += 1;
            }
            proof {
                lemma_word_end_bounds(s@, i as int);
            }
            let ghost before = r@;
            r.push(string_of(&cs, i, b));
            proof {
                let word = s@.subrange(i as int, b as int);
                assert(views(r@) =~= views(before).push(word));
                assert(views(before).push(word) + words_from(s@, b as int) =~= views(before) + (
                seq![word] + words_from(s@, b as int)));
            }
            i = b;
        }
    }
    assert(views(r@) + words_from(s@, n as int) =~= views(r@));
    r
}

/// The index of the first line feed at or after `i`, or the length of `s`
/// if there is none.
pub open spec fn line_end(s: Seq<char>, i: int) -> int
    decreases s.len() - i,
{
    if 0 <= i < s.len() && s[i] != '\n' {
        line_end(s, i + 1)
    } else {
        i
    }
}

/// The line that starts at `i` and ends before `e`: a carriage return
/// just before a line feed at `e` belongs to the line ending.
pub open spec fn line_between(s: Seq<char>, i: int, e: int) -> Seq<char> {
    if i < e < s.len() && s[e - 1] == '\r' {
        s.subrange(i, e - 1)
    } else {
        s.subrange(i, e)
    }
}

/// The lines of `s` from index `i` on.
pub open spec fn lines_from(s: Seq<char>, i: int) -> Seq<Seq<char>>
    decreases s.len() - i,
{
    if i < 0 || i >= s.len() {
        Seq::empty()
    } else {
        let e = line_end(s, i);
        if i <= e < s.len() {
            seq![line_between(s, i, e)] + lines_from(s, e + 1)
        } else {
            seq![line_between(s, i, e)]
        }
    }
}

/// The lines of a string, without their line endings, as `str::lines`
/// yields them: a line ends at a line feed, or at a carriage return and a
/// line feed, and the last line needs no ending.
pub open spec fn text_lines(s: Seq<char>) -> Seq<Seq<char>> {
    lines_from(s, 0)
}

/// A line ends within the string.
proof fn lemma_line_end_bounds(s: Seq<char>, i: int)
    requires
        0 <= i <= s.len(),
    ensures
        i <= line_end(s, i) <= s.len(),
    decreases s.len() - i,
{
    if i < s.len() && s[i] != '\n' {
        lemma_line_end_bounds(s, i + 1);
    }
}

/// Splits a string into its lines, as `str::lines` does.
pub fn lines(s: &str) -> (r: Vec<String>)
    ensures
        views(r@) == text_lines(s@),
{
    let cs = chars_of(s);
    let n = cs.len();
    let mut r: Vec<String> = Vec::new();
    let mut i: usize = 0;
    assert(views(r@) =~= Seq::<Seq<char>>::empty());
    while i < n
        invariant
            cs@ == s@,
            n == cs.len(),
            i <= n,
            views(r@) + lines_from(s@, i as int) == text_lines(s@),
        decreases n - i,
    {
        let mut e: usize = i;
        while e < n && cs[e] != '\n'
            invariant
                cs@ == s@,
                n == cs.len(),
                i <= e <= n,
                line_end(s@, i as int) == line_end(s@, e as int),
            decreases n - e,
        {
            e += 1;
        }
        let stop: usize = if i < e && e < n && cs[e - 1] == '\r' {
            e - 1
        } else {
            e
        };
        let ghost before = r@;
        r.push(string_of(&cs, i, stop));
        proof {
            lemma_line_end_bounds(s@, i as int);
            let line = line_between(s@, i as int, e as int);
            assert(views(r@) =~= views(before).push(line));
            assert(views(before).push(line) + lines_from(s@, e + 1) =~= views(before) + (seq![line]
                + lines_from(s@, e + 1)));
            assert(views(before).push(line) =~= views(before) + seq![line]);
        }
        if e < n {
            i = e + 1;
        } else {
            i = n;
        }
    }
    assert(views(r@) + lines_from(s@, n as int) =~= views(r@));
    r
}

/// Joins the strings of the list with single spaces.
pub fn join(list: &Vec<String>) -> (r: String)
    ensures
        r@ == joined(views(list@)),
{
    let r = join_range(list, 0, list.len());
    assert(views(list@).subrange(0, list.len() as int) =~= views(list@));
    r
}

} // verus!
