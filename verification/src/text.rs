//! Text: comparing, trimming, splitting, joining and searching.
//!
//! The model of a text is the sequence of its characters.
use vstd::prelude::*;
use vstd::string::*;

verus! {

/// `String::push` appends one character to the end of the text.
pub assume_specification[ String::push ](s: &mut String, c: char)
    ensures
        final(s)@ == old(s)@.push(c),
;

/// The characters of a text.
pub fn chars_of(s: &str) -> (chars: Vec<char>)
    ensures
        chars@ == s@,
{
    let mut chars: Vec<char> = Vec::new();
    for c in it: s.chars()
        invariant
            it.seq() == s@,
            chars@ == s@.take(it.index() as int),
    {
        chars.push(c);
    }
    chars
}

/// Whether the two texts hold the same characters.
pub fn text_eq(a: &str, b: &str) -> (same: bool)
    ensures
        same == (a@ == b@),
{
    let left = chars_of(a);
    let right = chars_of(b);
    if left.len() != right.len() {
        return false;
    }
    let mut i: usize = 0;
    while i < left.len()
        invariant
            i <= left@.len(),
            left@.len() == right@.len(),
            left@ == a@,
            right@ == b@,
            forall|j: int| 0 <= j < i ==> left@[j] == right@[j],
        decreases left@.len() - i,
    {
        if left[i] != right[i] {
            return false;
        }
        i += 1;
    }
    assert(left@ =~= right@);
    true
}

/// The text of the characters from `from` up to, not including, `to`.
pub fn text_of(chars: &Vec<char>, from: usize, to: usize) -> (text: String)
    requires
        from <= to <= chars@.len(),
    ensures
        text@ == chars@.subrange(from as int, to as int),
{
    let mut text = String::new();
    let mut i: usize = from;
    while i < to
        invariant
            from <= i <= to <= chars@.len(),
            text@ == chars@.subrange(from as int, i as int),
        decreases to - i,
    {
        text.push(chars[i]);
        i += 1;
    }
    text
}

/// The first text followed by the second.
pub fn concat2(a: &str, b: &str) -> (text: String)
    ensures
        text@ == a@ + b@,
{
    let mut text = a.to_owned();
    text.append(b);
    text
}

/// The three texts one after another.
pub fn concat3(a: &str, b: &str, c: &str) -> (text: String)
    ensures
        text@ == a@ + b@ + c@,
{
    let mut text = concat2(a, b);
    text.append(c);
    text
}

/// Whether a character has the Unicode property `White_Space`.
pub open spec fn white_space(c: char) -> bool {
    let n = c as u32;
    ||| 0x09 <= n <= 0x0d
    ||| n == 0x20
    ||| n == 0x85
    ||| n == 0xa0
    ||| n == 0x1680
    ||| 0x2000 <= n <= 0x200a
    ||| n == 0x2028
    ||| n == 0x2029
    ||| n == 0x202f
    ||| n == 0x205f
    ||| n == 0x3000
}

/// Decides [`white_space`].
pub fn is_white_space(c: char) -> (b: bool)
    ensures
        b == white_space(c),
{
    let n: u32 = c as u32;
    (0x09 <= n && n <= 0x0d) || n == 0x20 || n == 0x85 || n == 0xa0 || n == 0x1680 || (0x2000 <= n
        && n <= 0x200a) || n == 0x2028 || n == 0x2029 || n == 0x202f || n == 0x205f || n == 0x3000
}

/// A text without the white space at its start.
pub open spec fn trim_start(s: Seq<char>) -> Seq<char>
    decreases s.len(),
{
    if s.len() > 0 && white_space(s[0]) {
        trim_start(s.drop_first())
    } else {
        s
    }
}

/// A text without the white space at its end.
pub open spec fn trim_end(s: Seq<char>) -> Seq<char>
    decreases s.len(),
{
    if s.len() > 0 && white_space(s.last()) {
        trim_end(s.drop_last())
    } else {
        s
    }
}

/// A text without the white space at both its ends.
pub open spec fn trimmed(s: Seq<char>) -> Seq<char> {
    trim_end(trim_start(s))
}

proof fn lemma_trim_start_from(s: Seq<char>, i: int)
    requires
        0 <= i <= s.len(),
        forall|j: int| 0 <= j < i ==> white_space(#[trigger] s[j]),
        i < s.len() ==> !white_space(s[i]),
    ensures
        trim_start(s) == s.skip(i),
    decreases i,
{
    if i > 0 {
        assert(forall|j: int| 0 <= j < i - 1 ==> s.drop_first()[j] == #[trigger] s[j + 1]);
        lemma_trim_start_from(s.drop_first(), i - 1);
        assert(s.drop_first().skip(i - 1) == s.skip(i));
    } else {
        assert(s.skip(0) == s);
    }
}

proof fn lemma_trim_end_to(s: Seq<char>, i: int)
    requires
        0 <= i <= s.len(),
        forall|j: int| i <= j < s.len() ==> white_space(#[trigger] s[j]),
        i > 0 ==> !white_space(s[i - 1]),
    ensures
        trim_end(s) == s.take(i),
    decreases s.len() - i,
{
    if i < s.len() {
        assert(forall|j: int| 0 <= j < s.len() - 1 ==> s.drop_last()[j] == #[trigger] s[j]);
        lemma_trim_end_to(s.drop_last(), i);
        assert(s.drop_last().take(i) == s.take(i));
    } else {
        assert(s.take(i) == s);
    }
}

/// The text without the white space at both its ends.
pub fn trim(s: &str) -> (text: String)
    ensures
        text@ == trimmed(s@),
{
    let chars = chars_of(s);
    let mut from: usize = 0;
    while from < chars.len() && is_white_space(chars[from])
        invariant
            from <= chars@.len(),
            forall|j: int| 0 <= j < from ==> white_space(#[trigger] chars@[j]),
        decreases chars@.len() - from,
    {
        from += 1;
    }
    let mut to: usize = chars.len();
    while to > from && is_white_space(chars[to - 1])
        invariant
            from <= to <= chars@.len(),
            forall|j: int| to <= j < chars@.len() ==> white_space(#[trigger] chars@[j]),
        decreases to,
    {
        to -= 1;
    }
    proof {
        lemma_trim_start_from(chars@, from as int);
        let rest = chars@.skip(from as int);
        assert(forall|j: int| 0 <= j < rest.len() ==> rest[j] == #[trigger] chars@[j + from]);
        lemma_trim_end_to(rest, to - from);
        assert(rest.take(to - from) == chars@.subrange(from as int, to as int));
    }
    text_of(&chars, from, to)
}

/// Trimming leaves a text that neither starts nor ends with white space.
pub proof fn law_trimmed_has_no_outer_space(s: Seq<char>)
    ensures
        trimmed(s).len() > 0 ==> !white_space(trimmed(s)[0]) && !white_space(trimmed(s).last()),
{
    lemma_trim_start_shape(s);
    lemma_trim_end_shape(trim_start(s));
}

/// Trimming a second time changes nothing.
pub proof fn law_trimmed_is_idempotent(s: Seq<char>)
    ensures
        trimmed(trimmed(s)) == trimmed(s),
{
    law_trimmed_has_no_outer_space(s);
}

proof fn lemma_trim_start_shape(s: Seq<char>)
    ensures
        trim_start(s).len() <= s.len(),
        trim_start(s).len() > 0 ==> !white_space(trim_start(s)[0]),
    decreases s.len(),
{
    if s.len() > 0 && white_space(s[0]) {
        lemma_trim_start_shape(s.drop_first());
    }
}

proof fn lemma_trim_end_shape(s: Seq<char>)
    ensures
        trim_end(s).len() <= s.len(),
        trim_end(s).len() > 0 ==> !white_space(trim_end(s).last()) && trim_end(s)[0] == s[0],
    decreases s.len(),
{
    if s.len() > 0 && white_space(s.last()) {
        lemma_trim_end_shape(s.drop_last());
    }
}

/// What stands for an optional text: nothing when it is blank, else the
/// trimmed text.
pub open spec fn non_blank(s: Seq<char>) -> Option<Seq<char>> {
    if trimmed(s).len() == 0 {
        None
    } else {
        Some(trimmed(s))
    }
}

/// The model of an optional text.
pub open spec fn opt_text(t: Option<String>) -> Option<Seq<char>> {
    match t {
        Some(t) => Some(t@),
        None => None,
    }
}

/// The model of an optional borrowed text.
pub open spec fn opt_str(t: Option<&str>) -> Option<Seq<char>> {
    match t {
        Some(t) => Some(t@),
        None => None,
    }
}

/// The same text once more, where there is one.
pub(crate) fn copy_opt(t: &Option<String>) -> (out: Option<String>)
    ensures
        opt_text(out) == opt_text(*t),
{
    match t {
        Some(t) => Some(t.clone()),
        None => None,
    }
}

/// The trimmed text, or nothing when it is blank.
pub fn trimmed_option(value: String) -> (text: Option<String>)
    ensures
        opt_text(text) == non_blank(value@),
{
    let value = trim(value.as_str());
    if value.as_str().is_empty() {
        None
    } else {
        Some(value)
    }
}

/// An optional text after trimming, where a blank one counts as absent.
pub open spec fn cleaned(t: Option<Seq<char>>) -> Option<Seq<char>> {
    match t {
        Some(s) => non_blank(s),
        None => None,
    }
}

/// Trims an optional text and drops a blank one.
pub fn clean_option(value: Option<String>) -> (text: Option<String>)
    ensures
        opt_text(text) == cleaned(opt_text(value)),
{
    match value {
        Some(value) => trimmed_option(value),
        None => None,
    }
}

/// Whether `s` starts with `prefix`.
pub open spec fn has_prefix(s: Seq<char>, prefix: Seq<char>) -> bool {
    prefix.len() <= s.len() && s.take(prefix.len() as int) == prefix
}

/// Whether `s` ends with `suffix`.
pub open spec fn has_suffix(s: Seq<char>, suffix: Seq<char>) -> bool {
    suffix.len() <= s.len() && s.skip(s.len() - suffix.len()) == suffix
}

/// What follows `prefix` in `s`, or nothing when `s` does not start with it.
pub fn strip_prefix(s: &str, prefix: &str) -> (rest: Option<String>)
    ensures
        opt_text(rest) == if has_prefix(s@, prefix@) {
            Some(s@.skip(prefix@.len() as int))
        } else {
            None
        },
{
    let chars = chars_of(s);
    let start = chars_of(prefix);
    if start.len() > chars.len() {
        return None;
    }
    let head = text_of(&chars, 0, start.len());
    if !text_eq(head.as_str(), prefix) {
        return None;
    }
    let rest = text_of(&chars, start.len(), chars.len());
    assert(chars@.subrange(start@.len() as int, chars@.len() as int) == chars@.skip(start@.len() as int));
    Some(rest)
}

/// What precedes `suffix` in `s`, or nothing when `s` does not end with it.
pub fn strip_suffix(s: &str, suffix: &str) -> (rest: Option<String>)
    ensures
        opt_text(rest) == if has_suffix(s@, suffix@) {
            Some(s@.take(s@.len() - suffix@.len()))
        } else {
            None
        },
{
    let chars = chars_of(s);
    let end = chars_of(suffix);
    if end.len() > chars.len() {
        return None;
    }
    let at: usize = chars.len() - end.len();
    let tail = text_of(&chars, at, chars.len());
    assert(chars@.subrange(at as int, chars@.len() as int) == chars@.skip(at as int));
    if !text_eq(tail.as_str(), suffix) {
        return None;
    }
    Some(text_of(&chars, 0, at))
}

/// Whether `needle` stands somewhere in `s`.
pub open spec fn contains(s: Seq<char>, needle: Seq<char>) -> bool {
    exists|i: int|
        0 <= i <= s.len() - needle.len() && #[trigger] s.subrange(i, i + needle.len()) == needle
}

/// Decides [`contains`].
pub fn contains_text(s: &str, needle: &str) -> (found: bool)
    ensures
        found == contains(s@, needle@),
{
    let chars = chars_of(s);
    let wanted = chars_of(needle);
    if wanted.len() > chars.len() {
        return false;
    }
    let total: usize = chars.len();
    let last: usize = total - wanted.len();
    let mut i: usize = 0;
    loop
        invariant
            i <= last,
            total == chars@.len(),
            last == total - wanted@.len(),
            chars@ == s@,
            wanted@ == needle@,
            forall|j: int|
                0 <= j < i ==> #[trigger] s@.subrange(j, j + needle@.len()) != needle@,
        decreases last - i,
    {
        let part = text_of(&chars, i, i + wanted.len());
        if text_eq(part.as_str(), needle) {
            return true;
        }
        if i == last {
            return false;
        }
        i += 1;
    }
}

/// A text without the slashes at its end.
pub open spec fn trim_end_slashes(s: Seq<char>) -> Seq<char>
    decreases s.len(),
{
    if s.len() > 0 && s.last() == '/' {
        trim_end_slashes(s.drop_last())
    } else {
        s
    }
}

/// The text without the slashes at its end.
pub fn without_end_slashes(s: &str) -> (text: String)
    ensures
        text@ == trim_end_slashes(s@),
{
    let chars = chars_of(s);
    let mut to: usize = chars.len();
    assert(chars@.take(to as int) == chars@);
    while to > 0 && chars[to - 1] == '/'
        invariant
            to <= chars@.len(),
            chars@ == s@,
            trim_end_slashes(chars@.take(to as int)) == trim_end_slashes(s@),
        decreases to,
    {
        assert(chars@.take(to as int).drop_last() == chars@.take(to - 1));
        to -= 1;
    }
    assert(chars@.take(to as int) == chars@.subrange(0, to as int));
    text_of(&chars, 0, to)
}

/// An ASCII upper-case letter as its lower-case one; any other character as it is.
pub open spec fn ascii_lower(c: char) -> char {
    if 'A' <= c && c <= 'Z' {
        ((c as u32 + 32) as u32) as char
    } else {
        c
    }
}

/// The text with its ASCII letters in lower case.
pub open spec fn ascii_folded(s: Seq<char>) -> Seq<char> {
    s.map_values(|c: char| ascii_lower(c))
}

fn to_ascii_lower(c: char) -> (lower: char)
    ensures
        lower == ascii_lower(c),
{
    if 'A' <= c && c <= 'Z' {
        (c as u8 + 32) as char
    } else {
        c
    }
}

/// Whether two texts are equal but for the case of ASCII letters.
pub fn eq_ignore_ascii_case(a: &str, b: &str) -> (same: bool)
    ensures
        same == (ascii_folded(a@) == ascii_folded(b@)),
{
    let left = chars_of(a);
    let right = chars_of(b);
    if left.len() != right.len() {
        assert(ascii_folded(a@).len() != ascii_folded(b@).len());
        return false;
    }
    let mut i: usize = 0;
    while i < left.len()
        invariant
            i <= left@.len(),
            left@.len() == right@.len(),
            left@ == a@,
            right@ == b@,
            forall|j: int| 0 <= j < i ==> ascii_lower(left@[j]) == ascii_lower(right@[j]),
        decreases left@.len() - i,
    {
        if to_ascii_lower(left[i]) != to_ascii_lower(right[i]) {
            assert(ascii_folded(a@)[i as int] != ascii_folded(b@)[i as int]);
            return false;
        }
        i += 1;
    }
    assert(ascii_folded(a@) =~= ascii_folded(b@));
    true
}

/// The model of a list of texts.
pub open spec fn texts(list: Seq<String>) -> Seq<Seq<char>> {
    list.map_values(|t: String| t@)
}

/// The pieces of a text between the separators, in order.
pub open spec fn split_on(s: Seq<char>, separators: Seq<char>) -> Seq<Seq<char>>
    decreases s.len(),
{
    if s.len() == 0 {
        seq![Seq::<char>::empty()]
    } else {
        let before = split_on(s.drop_last(), separators);
        if separators.contains(s.last()) {
            before.push(Seq::<char>::empty())
        } else {
            before.drop_last().push(before.last().push(s.last()))
        }
    }
}

fn is_one_of(c: char, list: &Vec<char>) -> (b: bool)
    ensures
        b == list@.contains(c),
{
    let mut i: usize = 0;
    while i < list.len()
        invariant
            i <= list@.len(),
            forall|j: int| 0 <= j < i ==> list@[j] != c,
        decreases list@.len() - i,
    {
        if list[i] == c {
            return true;
        }
        i += 1;
    }
    false
}

/// Splits a text at each of the separators.
pub fn split_text(s: &str, separators: &Vec<char>) -> (pieces: Vec<String>)
    ensures
        texts(pieces@) == split_on(s@, separators@),
{
    let chars = chars_of(s);
    let mut done: Vec<String> = Vec::new();
    let mut current = String::new();
    let mut i: usize = 0;
    assert(texts(done@).push(current@) =~= split_on(chars@.take(0), separators@));
    while i < chars.len()
        invariant
            i <= chars@.len(),
            texts(done@).push(current@) == split_on(chars@.take(i as int), separators@),
        decreases chars@.len() - i,
    {
        let c = chars[i];
        let ghost before = texts(done@).push(current@);
        proof {
            assert(chars@.take(i + 1).drop_last() == chars@.take(i as int));
            assert(chars@.take(i + 1).last() == c);
            assert(before.drop_last() == texts(done@));
        }
        if is_one_of(c, separators) {
            let mut piece = String::new();
            std::mem::swap(&mut piece, &mut current);
            done.push(piece);
            assert(texts(done@).push(current@) =~= before.push(Seq::<char>::empty()));
        } else {
            current.push(c);
        }
        i += 1;
    }
    assert(chars@.take(i as int) == s@);
    done.push(current);
    assert(texts(done@) =~= split_on(s@, separators@));
    done
}

/// The pieces of a text between the separators, trimmed, without the blank ones.
pub open spec fn trimmed_pieces(s: Seq<char>, separators: Seq<char>) -> Seq<Seq<char>> {
    split_on(s, separators).filter_map(|piece: Seq<char>| non_blank(piece))
}

/// Splits a text at each of the separators, trims the pieces and drops the blank ones.
pub fn split_trimmed(s: &str, separators: &Vec<char>) -> (pieces: Vec<String>)
    ensures
        texts(pieces@) == trimmed_pieces(s@, separators@),
{
    let all = split_text(s, separators);
    let ghost f = |piece: Seq<char>| non_blank(piece);
    let mut kept: Vec<String> = Vec::new();
    let mut i: usize = 0;
    assert(texts(kept@) =~= texts(all@).take(0).filter_map(f));
    while i < all.len()
        invariant
            i <= all@.len(),
            f == (|piece: Seq<char>| non_blank(piece)),
            texts(kept@) == texts(all@).take(i as int).filter_map(f),
        decreases all@.len() - i,
    {
        let piece = trim(all[i].as_str());
        proof {
            assert(texts(all@)[i as int] == all@[i as int]@);
            texts(all@).lemma_filter_map_take_succ(f, i as int);
        }
        let ghost before = texts(kept@);
        if !piece.as_str().is_empty() {
            kept.push(piece);
            assert(texts(kept@) =~= before + seq![piece@]);
        } else {
            assert(texts(kept@) =~= before + Seq::<Seq<char>>::empty());
        }
        i += 1;
    }
    assert(texts(all@).take(i as int) == texts(all@));
    kept
}

/// The texts one after another, with `separator` between each two.
pub open spec fn joined(parts: Seq<Seq<char>>, separator: Seq<char>) -> Seq<char>
    decreases parts.len(),
{
    if parts.len() == 0 {
        Seq::empty()
    } else if parts.len() == 1 {
        parts[0]
    } else {
        joined(parts.drop_last(), separator) + separator + parts.last()
    }
}

/// Joins texts with a separator.
pub fn join_texts(parts: &Vec<String>, separator: &str) -> (text: String)
    ensures
        text@ == joined(texts(parts@), separator@),
{
    let mut text = String::new();
    let mut i: usize = 0;
    while i < parts.len()
        invariant
            i <= parts@.len(),
            text@ == joined(texts(parts@).take(i as int), separator@),
        decreases parts@.len() - i,
    {
        proof {
            assert(texts(parts@).take(i + 1).drop_last() == texts(parts@).take(i as int));
            assert(texts(parts@).take(i + 1).last() == parts@[i as int]@);
        }
        if i > 0 {
            text.append(separator);
        }
        text.append(parts[i].as_str());
        proof {
            if i == 0 {
                assert(text@ =~= parts@[0]@);
            }
        }
        i += 1;
    }
    assert(texts(parts@).take(i as int) == texts(parts@));
    text
}

/// Whether a character may stand in the name of a stored file: an ASCII letter
/// or digit, a dot, an underscore or a hyphen.
pub open spec fn file_name_char(c: char) -> bool {
    ||| 'a' <= c <= 'z'
    ||| 'A' <= c <= 'Z'
    ||| '0' <= c <= '9'
    ||| c == '.'
    ||| c == '_'
    ||| c == '-'
}

/// Keeps, in order, the characters that may stand in the name of a stored file.
pub fn sanitize_filename(name: &str) -> (safe: String)
    ensures
        safe@ == name@.filter(|c: char| file_name_char(c)),
{
    let chars = chars_of(name);
    let ghost p = |c: char| file_name_char(c);
    let mut safe = String::new();
    let mut i: usize = 0;
    proof {
        reveal(Seq::filter);
        assert(safe@ =~= chars@.take(0).filter(p));
    }
    while i < chars.len()
        invariant
            i <= chars@.len(),
            p == (|c: char| file_name_char(c)),
            safe@ == chars@.take(i as int).filter(p),
        decreases chars@.len() - i,
    {
        let c = chars[i];
        proof {
            assert(chars@.take(i + 1) == chars@.take(i as int).push(c));
            chars@.take(i as int).lemma_filter_push(c, p);
        }
        if ('a' <= c && c <= 'z') || ('A' <= c && c <= 'Z') || ('0' <= c && c <= '9') || c == '.' || c
            == '_' || c == '-' {
            safe.push(c);
        }
        i += 1;
    }
    assert(chars@.take(i as int) == chars@);
    safe
}

/// A sanitized name holds only characters that may stand in the name of a
/// stored file, so no path separator and nothing outside ASCII.
pub proof fn law_sanitized_name_is_safe(name: Seq<char>, i: int)
    requires
        0 <= i < name.filter(|c: char| file_name_char(c)).len(),
    ensures
        file_name_char(name.filter(|c: char| file_name_char(c))[i]),
        name.filter(|c: char| file_name_char(c))[i] != '/',
        name.filter(|c: char| file_name_char(c))[i] != '\\',
        (name.filter(|c: char| file_name_char(c))[i] as u32) < 0x80,
{
    name.lemma_filter_pred(|c: char| file_name_char(c), i);
}

/// Sanitizing a second time changes nothing.
pub proof fn law_sanitizing_is_idempotent(name: Seq<char>)
    ensures
        name.filter(|c: char| file_name_char(c)).filter(|c: char| file_name_char(c)) == name.filter(
            |c: char| file_name_char(c),
        ),
    decreases name.len(),
{
    let p = |c: char| file_name_char(c);
    if name.len() > 0 {
        law_sanitizing_is_idempotent(name.drop_last());
        assert(name == name.drop_last().push(name.last()));
        name.drop_last().lemma_filter_push(name.last(), p);
        name.drop_last().filter(p).lemma_filter_push(name.last(), p);
    } else {
        reveal(Seq::filter);
    }
}

/// Trimming takes nothing but white space away, and only from the ends: what it
/// leaves stands in the text from the first place that is returned up to the second,
/// and all before and behind is white space.
pub proof fn law_trimmed_is_the_middle(s: Seq<char>) -> (cut: (int, int))
    ensures
        0 <= cut.0 <= cut.1 <= s.len(),
        trimmed(s) == s.subrange(cut.0, cut.1),
        forall|i: int| 0 <= i < cut.0 ==> white_space(#[trigger] s[i]),
        forall|i: int| cut.1 <= i < s.len() ==> white_space(#[trigger] s[i]),
{
    let from = lemma_trim_start_cut(s);
    let rest = trim_start(s);
    let to = lemma_trim_end_cut(rest);
    assert(forall|i: int| 0 <= i < rest.len() ==> rest[i] == #[trigger] s[i + from]);
    assert forall|i: int| from + to <= i < s.len() implies white_space(#[trigger] s[i]) by {
        assert(rest[i - from] == s[i - from + from]);
    }
    assert(rest.take(to) == s.subrange(from, from + to));
    (from, from + to)
}

proof fn lemma_trim_start_cut(s: Seq<char>) -> (from: int)
    ensures
        0 <= from <= s.len(),
        trim_start(s) == s.skip(from),
        forall|i: int| 0 <= i < from ==> white_space(#[trigger] s[i]),
    decreases s.len(),
{
    if s.len() > 0 && white_space(s[0]) {
        let rest = s.drop_first();
        let from = lemma_trim_start_cut(rest);
        assert(rest.skip(from) == s.skip(from + 1));
        assert forall|i: int| 0 <= i < from + 1 implies white_space(#[trigger] s[i]) by {
            if i > 0 {
                assert(rest[i - 1] == s[i]);
            }
        }
        from + 1
    } else {
        assert(s.skip(0) == s);
        0
    }
}

proof fn lemma_trim_end_cut(s: Seq<char>) -> (to: int)
    ensures
        0 <= to <= s.len(),
        trim_end(s) == s.take(to),
        forall|i: int| to <= i < s.len() ==> white_space(#[trigger] s[i]),
    decreases s.len(),
{
    if s.len() > 0 && white_space(s.last()) {
        let rest = s.drop_last();
        let to = lemma_trim_end_cut(rest);
        assert(rest.take(to) == s.take(to));
        assert forall|i: int| to <= i < s.len() implies white_space(#[trigger] s[i]) by {
            if i < rest.len() {
                assert(rest[i] == s[i]);
            }
        }
        to
    } else {
        assert(s.take(s.len() as int) == s);
        s.len() as int
    }
}

/// A text with something else than white space in it is not blank, and one without is.
pub proof fn law_blank_is_white_space(s: Seq<char>)
    ensures
        non_blank(s) is None <==> forall|i: int| 0 <= i < s.len() ==> white_space(#[trigger] s[i]),
        non_blank(s) matches Some(t) ==> t == trimmed(s) && t.len() > 0,
        cleaned(Some(s)) == non_blank(s),
        cleaned(None) is None,
{
    let cut = law_trimmed_is_the_middle(s);
    law_trimmed_has_no_outer_space(s);
    if trimmed(s).len() > 0 {
        assert(trimmed(s)[0] == s[cut.0]);
        assert(!white_space(s[cut.0]));
    }
}

/// A text starts with another if it is that one and some rest; the rest is what
/// follows it. The same goes for how it ends.
pub proof fn law_prefix_and_suffix(a: Seq<char>, b: Seq<char>)
    ensures
        has_prefix(a + b, a),
        has_suffix(a + b, b),
        (a + b).skip(a.len() as int) == b,
        (a + b).take((a + b).len() - b.len()) == a,
        has_prefix(a, b) ==> a == b + a.skip(b.len() as int),
        has_suffix(a, b) ==> a == a.take(a.len() - b.len()) + b,
        contains(a, b) ==> b.len() <= a.len(),
{
    assert((a + b).take(a.len() as int) == a);
    assert((a + b).skip((a + b).len() - b.len()) == b);
    if has_prefix(a, b) {
        assert(a == a.take(b.len() as int) + a.skip(b.len() as int));
    }
    if has_suffix(a, b) {
        assert(a == a.take(a.len() - b.len()) + a.skip(a.len() - b.len()));
    }
}

/// A text stands in another wherever something precedes and something follows it.
pub proof fn law_part_is_contained(before: Seq<char>, part: Seq<char>, behind: Seq<char>)
    ensures
        contains(before + part + behind, part),
{
    let whole = before + part + behind;
    let at = before.len() as int;
    assert(whole.subrange(at, at + part.len()) == part);
}

/// Of the slashes at the end of a text none is left, and nothing else is lost.
pub proof fn law_only_end_slashes_go(s: Seq<char>)
    ensures
        trim_end_slashes(s).len() <= s.len(),
        trim_end_slashes(s) == s.take(trim_end_slashes(s).len() as int),
        trim_end_slashes(s).len() > 0 ==> trim_end_slashes(s).last() != '/',
        forall|i: int| trim_end_slashes(s).len() <= i < s.len() ==> #[trigger] s[i] == '/',
    decreases s.len(),
{
    if s.len() > 0 && s.last() == '/' {
        let rest = s.drop_last();
        law_only_end_slashes_go(rest);
        let kept = trim_end_slashes(rest);
        assert(rest.take(kept.len() as int) == s.take(kept.len() as int));
        assert forall|i: int| kept.len() <= i < s.len() implies #[trigger] s[i] == '/' by {
            if i < rest.len() {
                assert(rest[i] == s[i]);
            }
        }
    } else {
        assert(s.take(s.len() as int) == s);
    }
}

/// Folding the case of a text changes its capital ASCII letters, each into the small
/// one, and nothing else.
pub proof fn law_folding_changes_capitals_only(s: Seq<char>, i: int)
    requires
        0 <= i < s.len(),
    ensures
        ascii_folded(s).len() == s.len(),
        'A' <= s[i] <= 'Z' ==> 'a' <= ascii_folded(s)[i] <= 'z' && ascii_folded(s)[i] as u32
            - 'a' as u32 == s[i] as u32 - 'A' as u32,
        !('A' <= s[i] <= 'Z') ==> ascii_folded(s)[i] == s[i],
{
}

/// Where a piece stands among pieces that are joined with a separator of a length.
pub open spec fn piece_start(parts: Seq<Seq<char>>, separator_len: nat, i: int) -> int
    decreases i,
{
    if i <= 0 {
        0
    } else {
        piece_start(parts, separator_len, i - 1) + parts[i - 1].len() + separator_len
    }
}

proof fn lemma_piece_start_of_front(parts: Seq<Seq<char>>, separator_len: nat, i: int)
    requires
        0 <= i < parts.len(),
    ensures
        piece_start(parts.drop_last(), separator_len, i) == piece_start(parts, separator_len, i),
    decreases i,
{
    if i > 0 {
        lemma_piece_start_of_front(parts, separator_len, i - 1);
    }
}

proof fn lemma_piece_starts_rise(parts: Seq<Seq<char>>, separator_len: nat, i: int, j: int)
    requires
        0 <= i < j,
    ensures
        piece_start(parts, separator_len, i) + parts[i].len() + separator_len <= piece_start(
            parts,
            separator_len,
            j,
        ),
    decreases j,
{
    if j > i + 1 {
        lemma_piece_starts_rise(parts, separator_len, i, j - 1);
    }
}

/// Joined texts stand one behind the other, each whole and in its turn, with the
/// separator between each two and nothing else.
pub proof fn law_joined_holds_each_piece(parts: Seq<Seq<char>>, separator: Seq<char>, i: int)
    requires
        0 <= i < parts.len(),
    ensures
        ({
            let text = joined(parts, separator);
            let at = piece_start(parts, separator.len(), i);
            let end = at + parts[i].len();
            &&& 0 <= at <= end <= text.len()
            &&& text.subrange(at, end) == parts[i]
            &&& i == 0 ==> at == 0
            &&& i == parts.len() - 1 ==> end == text.len()
            &&& i < parts.len() - 1 ==> end + separator.len() <= text.len() && text.subrange(
                end,
                end + separator.len(),
            ) == separator && piece_start(parts, separator.len(), i + 1) == end + separator.len()
        }),
    decreases parts.len(),
{
    let n = separator.len();
    let text = joined(parts, separator);
    let at = piece_start(parts, n, i);
    if parts.len() == 1 {
        assert(text.subrange(0, text.len() as int) == text);
    } else {
        let front = parts.drop_last();
        let head = joined(front, separator);
        let last = parts.len() - 1;
        law_joined_holds_each_piece(front, separator, last - 1);
        lemma_piece_start_of_front(parts, n, last - 1);
        assert(front[last - 1] == parts[last - 1]);
        assert(piece_start(parts, n, last) == head.len() + n);
        if i < last {
            law_joined_holds_each_piece(front, separator, i);
            lemma_piece_start_of_front(parts, n, i);
            let end = at + parts[i].len();
            assert(front[i] == parts[i]);
            assert(text.subrange(at, end) =~= head.subrange(at, end));
            if i < last - 1 {
                assert(text.subrange(end, end + n) =~= head.subrange(end, end + n));
            } else {
                assert(text.subrange(end, end + n) =~= separator);
            }
        } else {
            assert(text.subrange(at, at + parts[i].len()) =~= parts[i]);
        }
    }
}

/// A text is split at its separators and nowhere else: the pieces stand in it one
/// behind the other with one separator between each two, and hold none themselves.
pub proof fn law_split_only_at_separators(s: Seq<char>, separators: Seq<char>, i: int)
    requires
        0 <= i < split_on(s, separators).len(),
    ensures
        ({
            let pieces = split_on(s, separators);
            let at = piece_start(pieces, 1, i);
            let end = at + pieces[i].len();
            &&& 0 <= at <= end <= s.len()
            &&& s.subrange(at, end) == pieces[i]
            &&& forall|k: int| at <= k < end ==> !separators.contains(#[trigger] s[k])
            &&& i == 0 ==> at == 0
            &&& i > 0 ==> separators.contains(s[at - 1])
            &&& i == pieces.len() - 1 ==> end == s.len()
        }),
    decreases s.len(),
{
    let pieces = split_on(s, separators);
    let at = piece_start(pieces, 1, i);
    if i > 0 {
        lemma_piece_starts_rise(pieces, 1, 0, i);
    }
    if s.len() == 0 {
        assert(s.subrange(0, 0) =~= pieces[0]);
    } else {
        let front = s.drop_last();
        let before = split_on(front, separators);
        lemma_split_is_never_empty(front, separators);
        let last = before.len() - 1;
        law_split_only_at_separators(front, separators, last);
        assert(forall|k: int| 0 <= k < front.len() ==> front[k] == #[trigger] s[k]);
        if separators.contains(s.last()) {
            assert(pieces.drop_last() =~= before);
            if i <= last {
                law_split_only_at_separators(front, separators, i);
                lemma_piece_start_of_front(pieces, 1, i);
                assert(pieces[i] == before[i]);
                assert(s.subrange(at, at + pieces[i].len()) =~= front.subrange(
                    at,
                    at + pieces[i].len(),
                ));
            } else {
                lemma_piece_start_of_front(pieces, 1, last);
                assert(pieces[last] == before[last]);
                assert(i == last + 1);
                assert(at == piece_start(pieces, 1, last) + before[last].len() + 1);
                assert(at == s.len());
                assert(s[at - 1] == s.last());
                assert(s.subrange(at, at) =~= pieces[i]);
            }
        } else {
            lemma_piece_starts_agree(pieces, before, i);
            lemma_piece_starts_agree(pieces, before, last);
            if i < last {
                law_split_only_at_separators(front, separators, i);
                lemma_piece_starts_rise(before, 1, i, last);
                assert(pieces[i] == before[i]);
                assert(s.subrange(at, at + pieces[i].len()) =~= front.subrange(
                    at,
                    at + pieces[i].len(),
                ));
            } else {
                assert(pieces[i] == before[last].push(s.last()));
                assert(s.subrange(at, at + pieces[i].len()) =~= front.subrange(
                    at,
                    front.len() as int,
                ).push(s.last()));
            }
        }
    }
}

proof fn lemma_split_is_never_empty(s: Seq<char>, separators: Seq<char>)
    ensures
        split_on(s, separators).len() > 0,
    decreases s.len(),
{
    if s.len() > 0 {
        lemma_split_is_never_empty(s.drop_last(), separators);
    }
}

proof fn lemma_piece_starts_agree(a: Seq<Seq<char>>, b: Seq<Seq<char>>, i: int)
    requires
        a.len() == b.len(),
        0 <= i < a.len(),
        forall|k: int| 0 <= k < a.len() - 1 ==> #[trigger] a[k] == b[k],
    ensures
        piece_start(a, 1, i) == piece_start(b, 1, i),
    decreases i,
{
    if i > 0 {
        lemma_piece_starts_agree(a, b, i - 1);
    }
}

/// The trimmed pieces of a text are those of its pieces that are not blank, trimmed.
pub proof fn law_trimmed_pieces(s: Seq<char>, separators: Seq<char>)
    ensures
        forall|i: int|
            0 <= i < split_on(s, separators).len() && trimmed(
                #[trigger] split_on(s, separators)[i],
            ).len() > 0 ==> trimmed_pieces(s, separators).contains(
                trimmed(split_on(s, separators)[i]),
            ),
        forall|i: int|
            0 <= i < trimmed_pieces(s, separators).len() ==> (#[trigger] trimmed_pieces(
                s,
                separators,
            )[i]).len() > 0 && exists|k: int|
                0 <= k < split_on(s, separators).len() && trimmed(
                    #[trigger] split_on(s, separators)[k],
                ) == trimmed_pieces(s, separators)[i],
{
    lemma_trimmed_pieces(split_on(s, separators));
}

proof fn lemma_trimmed_pieces(all: Seq<Seq<char>>)
    ensures
        ({
            let kept = all.filter_map(|piece: Seq<char>| non_blank(piece));
            &&& forall|i: int|
                0 <= i < all.len() && trimmed(#[trigger] all[i]).len() > 0 ==> kept.contains(
                    trimmed(all[i]),
                )
            &&& forall|i: int|
                0 <= i < kept.len() ==> (#[trigger] kept[i]).len() > 0 && exists|k: int|
                    0 <= k < all.len() && trimmed(#[trigger] all[k]) == kept[i]
        }),
    decreases all.len(),
{
    let f = |piece: Seq<char>| non_blank(piece);
    let kept = all.filter_map(f);
    if all.len() > 0 {
        let front = all.drop_last();
        lemma_trimmed_pieces(front);
        let before = front.filter_map(f);
        assert forall|i: int|
            0 <= i < all.len() && trimmed(#[trigger] all[i]).len() > 0 implies kept.contains(
            trimmed(all[i]),
        ) by {
            if i < front.len() {
                assert(front[i] == all[i]);
                let k = choose|k: int| 0 <= k < before.len() && before[k] == trimmed(all[i]);
                assert(kept[k] == trimmed(all[i]));
            } else {
                assert(kept[before.len() as int] == trimmed(all[i]));
            }
        }
        assert forall|i: int| 0 <= i < kept.len() implies (#[trigger] kept[i]).len() > 0 && exists|
            k: int,
        |
            0 <= k < all.len() && trimmed(#[trigger] all[k]) == kept[i] by {
            if i < before.len() {
                assert(kept[i] == before[i]);
                let k = choose|k: int|
                    0 <= k < front.len() && trimmed(#[trigger] front[k]) == before[i];
                assert(all[k] == front[k]);
            } else {
                assert(trimmed(all[all.len() - 1]) == kept[i]);
            }
        }
    }
}

/// Of a name all ASCII letters and digits, dots, underscores and hyphens stay, and
/// what stays was in the name.
pub proof fn law_sanitizing_keeps_what_is_safe(name: Seq<char>, c: char)
    ensures
        ({
            let safe = name.filter(|c: char| file_name_char(c));
            safe.contains(c) <==> name.contains(c) && ('a' <= c <= 'z' || 'A' <= c <= 'Z' || '0'
                <= c <= '9' || c == '.' || c == '_' || c == '-')
        }),
{
    let p = |c: char| file_name_char(c);
    let safe = name.filter(p);
    if safe.contains(c) {
        let i = choose|i: int| 0 <= i < safe.len() && safe[i] == c;
        name.lemma_filter_pred(p, i);
        name.lemma_filter_contains_rev(p, c);
    }
    if name.contains(c) && file_name_char(c) {
        let i = choose|i: int| 0 <= i < name.len() && name[i] == c;
        name.lemma_filter_contains(p, i);
    }
}

/// A text that stands in another is found there, from the place that is returned on.
pub proof fn law_contained_part_is_there(s: Seq<char>, needle: Seq<char>) -> (at: int)
    requires
        contains(s, needle),
    ensures
        0 <= at <= at + needle.len() <= s.len(),
        s.subrange(at, at + needle.len()) == needle,
{
    choose|i: int|
        0 <= i <= s.len() - needle.len() && #[trigger] s.subrange(i, i + needle.len()) == needle
}

/// White space is what shows nothing: the space, the tab and the ends of lines are, no other
/// character of ASCII that can be typed is, and none beyond the ideographic space.
pub proof fn law_what_shows_is_no_white_space(c: char)
    ensures
        c == ' ' || c == '\t' || c == '\n' || c == '\r' ==> white_space(c),
        '!' <= c <= '~' ==> !white_space(c),
        c as u32 > 0x3000 ==> !white_space(c),
        (c as u32) < 9 || 14 <= c as u32 <= 31 ==> !white_space(c),
{
}

} // verus!
