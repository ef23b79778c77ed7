//! Taking texts apart: at separators, prefixes, suffixes and placeholders.

use vstd::prelude::*;
use crate::text::{characters, slice_text, texts};

verus! {

/// Whether a text stands at a place within another one.
pub open spec fn stands_at(s: Seq<char>, t: Seq<char>, at: int) -> bool {
    0 <= at && at + t.len() <= s.len() && s.subrange(at, at + t.len()) == t
}

/// Where a text stands first within another one, from a place on.
pub open spec fn find_from(s: Seq<char>, t: Seq<char>, from: int) -> Option<int>
    decreases s.len() + 1 - from,
{
    if from < 0 || from + t.len() > s.len() {
        None
    } else if stands_at(s, t, from) {
        Some(from)
    } else {
        find_from(s, t, from + 1)
    }
}

/// Where a text stands last within another one, before a place or at it.
pub open spec fn find_back(s: Seq<char>, t: Seq<char>, from: int) -> Option<int>
    decreases from + 1,
{
    if from < 0 {
        None
    } else if stands_at(s, t, from) {
        Some(from)
    } else {
        find_back(s, t, from - 1)
    }
}

/// What is found lies within the text.
pub proof fn lemma_find_from(s: Seq<char>, t: Seq<char>, from: int)
    ensures
        find_from(s, t, from) matches Some(i) ==> from <= i && stands_at(s, t, i),
    decreases s.len() + 1 - from,
{
    if 0 <= from && from + t.len() <= s.len() && !stands_at(s, t, from) {
        lemma_find_from(s, t, from + 1);
    }
}

fn is_at(s: &Vec<char>, t: &Vec<char>, at: usize) -> (res: bool)
    requires
        at <= s@.len(),
    ensures
        res == stands_at(s@, t@, at as int),
{
    let n: usize = s.len();
    if n - at < t.len() {
        return false;
    }
    let mut i: usize = 0;
    while i < t.len()
        invariant
            at + t@.len() <= s@.len() == n,
            i <= t@.len(),
            forall|k: int| 0 <= k < i ==> s@[at + k] == #[trigger] t@[k],
        decreases t@.len() - i,
    {
        if s[at + i] != t[i] {
            assert(s@.subrange(at as int, at + t@.len())[i as int] != t@[i as int]);
            return false;
        }
        i = i + 1;
    }
    assert(s@.subrange(at as int, at + t@.len()) =~= t@);
    true
}

fn seek(s: &Vec<char>, t: &Vec<char>, from: usize) -> (res: Option<usize>)
    requires
        from <= s@.len(),
    ensures
        match res {
            Some(i) => find_from(s@, t@, from as int) == Some(i as int) && from <= i && stands_at(s@, t@, i as int),
            None => find_from(s@, t@, from as int) is None,
        },
{
    let n: usize = s.len();
    let mut i: usize = from;
    while i < n && n - i >= t.len()
        invariant
            from <= i <= n,
            n == s@.len(),
            find_from(s@, t@, from as int) == find_from(s@, t@, i as int),
        decreases n - i,
    {
        if is_at(s, t, i) {
            return Some(i);
        }
        i = i + 1;
    }
    if i == n && t.len() == 0 {
        assert(s@.subrange(n as int, n as int) =~= t@);
        return Some(i);
    }
    None
}

/// What stands before and after the first place of a text within another one.
pub open spec fn split_first(s: Seq<char>, t: Seq<char>) -> Option<(Seq<char>, Seq<char>)> {
    match find_from(s, t, 0) {
        Some(i) => Some((s.take(i), s.skip(i + t.len()))),
        None => None,
    }
}

/// What stands before and after the last place of a text within another one.
pub open spec fn split_last(s: Seq<char>, t: Seq<char>) -> Option<(Seq<char>, Seq<char>)> {
    match find_back(s, t, s.len() - t.len()) {
        Some(i) => Some((s.take(i), s.skip(i + t.len()))),
        None => None,
    }
}

/// Two texts, as they are seen.
pub open spec fn pair_view(res: Option<(String, String)>) -> Option<(Seq<char>, Seq<char>)> {
    match res {
        Some((a, b)) => Some((a@, b@)),
        None => None,
    }
}

fn cut(v: &Vec<char>, at: usize, width: usize) -> (res: (String, String))
    requires
        at + width <= v@.len(),
    ensures
        res.0@ == v@.take(at as int),
        res.1@ == v@.skip(at + width),
{
    let n: usize = v.len();
    assert(v@.subrange(0, at as int) =~= v@.take(at as int));
    assert(v@.subrange(at + width, v@.len() as int) =~= v@.skip(at + width));
    (slice_text(v, 0, at), slice_text(v, at + width, n))
}

/// What stands before and after the first place of a text within another one.
pub fn split_once(s: &str, t: &str) -> (res: Option<(String, String)>)
    ensures
        pair_view(res) == split_first(s@, t@),
{
    let v = characters(s);
    let w = characters(t);
    match seek(&v, &w, 0) {
        Some(i) => Some(cut(&v, i, w.len())),
        None => None,
    }
}

/// What stands before and after the last place of a text within another one.
pub fn rsplit_once(s: &str, t: &str) -> (res: Option<(String, String)>)
    ensures
        pair_view(res) == split_last(s@, t@),
{
    let v = characters(s);
    let w = characters(t);
    if v.len() < w.len() {
        return None;
    }
    let mut i: usize = v.len() - w.len();
    while i > 0
        invariant
            v@ == s@,
            w@ == t@,
            i + w@.len() <= v@.len(),
            find_back(v@, w@, v@.len() - w@.len()) == find_back(v@, w@, i as int),
        decreases i,
    {
        if is_at(&v, &w, i) {
            return Some(cut(&v, i, w.len()));
        }
        i = i - 1;
    }
    assert(find_back(v@, w@, -1) is None);
    if is_at(&v, &w, 0) {
        Some(cut(&v, 0, w.len()))
    } else {
        None
    }
}

/// The pieces of a text between the places of another one, which is not
/// empty.
pub open spec fn split_by(s: Seq<char>, t: Seq<char>) -> Seq<Seq<char>>
    decreases s.len(),
{
    match find_from(s, t, 0) {
        Some(i) => if t.len() > 0 && 0 <= i && i + t.len() <= s.len() {
            seq![s.take(i)] + split_by(s.skip(i + t.len()), t)
        } else {
            seq![s]
        },
        None => seq![s],
    }
}

/// The pieces of a text between the places of another one.
pub fn split(s: &str, t: &str) -> (res: Vec<String>)
    requires
        t@.len() > 0,
    ensures
        texts(res@) == split_by(s@, t@),
        res@.len() > 0,
{
    let v = characters(s);
    let w = characters(t);
    let n: usize = v.len();
    let mut list: Vec<String> = Vec::new();
    let mut from: usize = 0;
    let mut done = false;
    assert(v@.skip(0) =~= v@);
    assert(texts(list@) + split_by(v@.skip(0), w@) =~= split_by(v@, w@));
    while !done
        invariant
            w@.len() > 0,
            from <= v@.len() == n,
            !done ==> texts(list@) + split_by(v@.skip(from as int), w@) == split_by(v@, w@),
            done ==> texts(list@) == split_by(v@, w@) && list@.len() > 0,
        decreases v@.len() - from, (if done { 0int } else { 1int }),
    {
        let ghost before = texts(list@);
        let ghost rest = v@.skip(from as int);
        match seek(&v, &w, from) {
            Some(i) => {
                proof {
                    lemma_find_skip(v@, w@, from as int, 0);
                    assert(rest.take(i - from) =~= v@.subrange(from as int, i as int));
                    assert(rest.skip(i - from + w@.len()) =~= v@.skip(i + w@.len()));
                }
                list.push(slice_text(&v, from, i));
                assert(texts(list@) =~= before.push(v@.subrange(from as int, i as int)));
                proof {
                    let piece = v@.subrange(from as int, i as int);
                    let tail = split_by(v@.skip(i + w@.len()), w@);
                    assert(split_by(rest, w@) == seq![piece] + tail);
                    assert(before.push(piece) + tail =~= before + (seq![piece] + tail));
                }
                from = i + w.len();
            },
            None => {
                proof {
                    lemma_find_skip(v@, w@, from as int, 0);
                    assert(v@.subrange(from as int, v@.len() as int) =~= rest);
                }
                list.push(slice_text(&v, from, v.len()));
                assert(texts(list@) =~= before.push(rest));
                assert(before + seq![rest] =~= before.push(rest));
                done = true;
            },
        }
    }
    list
}

proof fn lemma_find_skip(s: Seq<char>, t: Seq<char>, n: int, from: int)
    requires
        0 <= n <= s.len(),
        0 <= from,
    ensures
        match find_from(s, t, n + from) {
            Some(i) => find_from(s.skip(n), t, from) == Some(i - n),
            None => find_from(s.skip(n), t, from) is None,
        },
    decreases s.len() + 1 - n - from,
{
    if n + from + t.len() <= s.len() {
        assert(s.skip(n).subrange(from, from + t.len()) =~= s.subrange(n + from, n + from + t.len()));
        if !stands_at(s, t, n + from) {
            lemma_find_skip(s, t, n, from + 1);
        }
    }
}

/// What follows a text at the beginning of another one.
pub open spec fn after_prefix(s: Seq<char>, prefix: Seq<char>) -> Option<Seq<char>> {
    if stands_at(s, prefix, 0) {
        Some(s.skip(prefix.len() as int))
    } else {
        None
    }
}

/// What comes before a text at the end of another one.
pub open spec fn before_suffix(s: Seq<char>, suffix: Seq<char>) -> Option<Seq<char>> {
    if stands_at(s, suffix, s.len() - suffix.len()) {
        Some(s.take(s.len() - suffix.len()))
    } else {
        None
    }
}

/// A text, as it is seen.
pub open spec fn text_view(res: Option<String>) -> Option<Seq<char>> {
    match res {
        Some(t) => Some(t@),
        None => None,
    }
}

/// What follows a text at the beginning of another one.
pub fn strip_prefix(s: &str, prefix: &str) -> (res: Option<String>)
    ensures
        text_view(res) == after_prefix(s@, prefix@),
{
    let v = characters(s);
    let w = characters(prefix);
    if is_at(&v, &w, 0) {
        assert(v@.subrange(w@.len() as int, v@.len() as int) =~= v@.skip(w@.len() as int));
        Some(slice_text(&v, w.len(), v.len()))
    } else {
        None
    }
}

/// What comes before a text at the end of another one.
pub fn strip_suffix(s: &str, suffix: &str) -> (res: Option<String>)
    ensures
        text_view(res) == before_suffix(s@, suffix@),
{
    let v = characters(s);
    let w = characters(suffix);
    if v.len() < w.len() {
        return None;
    }
    if is_at(&v, &w, v.len() - w.len()) {
        assert(v@.subrange(0, v@.len() - w@.len()) =~= v@.take(v@.len() - w@.len()));
        Some(slice_text(&v, 0, v.len() - w.len()))
    } else {
        None
    }
}

/// Whether a text holds another one.
pub open spec fn holds(s: Seq<char>, t: Seq<char>) -> bool {
    find_from(s, t, 0) is Some
}

/// Whether a text holds another one.
pub fn contains(s: &str, t: &str) -> (res: bool)
    ensures
        res == holds(s@, t@),
{
    let v = characters(s);
    let w = characters(t);
    seek(&v, &w, 0).is_some()
}

/// Whether a text ends with another one.
pub fn ends_with(s: &str, suffix: &str) -> (res: bool)
    ensures
        res == (before_suffix(s@, suffix@) is Some),
{
    strip_suffix(s, suffix).is_some()
}

/// A text with every place of another one, which is not empty, replaced.
pub open spec fn replaced(s: Seq<char>, t: Seq<char>, by: Seq<char>) -> Seq<char> {
    crate::text::joined_by(split_by(s, t), by)
}

/// Replace every place of a text within another one.
pub fn replace(s: &str, t: &str, by: &str) -> (res: String)
    requires
        t@.len() > 0,
    ensures
        res@ == replaced(s@, t@, by@),
{
    let list = split(s, t);
    crate::text::join(&list, by)
}

/// The number that a text shows in decimal digits, after a plus sign or not.
pub open spec fn shown_number(s: Seq<char>) -> Option<nat> {
    if s.len() > 1 && s[0] == '+' {
        digits_number(s.skip(1))
    } else {
        digits_number(s)
    }
}

/// The number that some decimal digits show.
pub open spec fn digits_number(s: Seq<char>) -> Option<nat> {
    if s.len() > 0 && all_digits(s) {
        Some(digits_value(s))
    } else {
        None
    }
}

/// Whether a character is a decimal digit.
pub open spec fn is_digit(c: char) -> bool {
    '0' <= c && c <= '9'
}

/// Whether a text holds nothing but decimal digits.
pub open spec fn all_digits(s: Seq<char>) -> bool {
    forall|i: int| 0 <= i < s.len() ==> is_digit(#[trigger] s[i])
}

/// What decimal digits amount to.
pub open spec fn digits_value(s: Seq<char>) -> nat
    decreases s.len(),
{
    if s.len() == 0 {
        0
    } else {
        (10 * digits_value(s.drop_last()) + (s.last() as int - '0' as int)) as nat
    }
}

fn digit_value(c: char) -> (res: usize)
    requires
        is_digit(c),
    ensures
        res == c as int - '0' as int,
        res <= 9,
{
    (c as u32 - 48) as usize
}

proof fn lemma_digits_grow(s: Seq<char>, i: int)
    requires
        all_digits(s),
        0 <= i <= s.len(),
    ensures
        digits_value(s.take(i)) <= digits_value(s),
    decreases s.len() - i,
{
    if i == s.len() {
        assert(s.take(i) =~= s);
    } else {
        let next = s.take(i + 1);
        assert(next.drop_last() =~= s.take(i));
        assert(is_digit(s[i]));
        lemma_digits_grow(s, i + 1);
    }
}

/// The number that a text shows, if a machine word holds it.
pub fn parse_number(s: &str) -> (res: Option<usize>)
    ensures
        match res {
            Some(n) => shown_number(s@) == Some(n as nat),
            None => shown_number(s@) matches Some(n) ==> n > usize::MAX,
        },
{
    let v = characters(s);
    let from: usize = if v.len() > 1 && v[0] == '+' {
        1
    } else {
        0
    };
    let ghost digits = v@.skip(from as int);
    assert(from == 0 ==> digits =~= v@);
    if v.len() == from {
        return None;
    }
    let mut value: usize = 0;
    let mut i: usize = from;
    assert(digits.take(0) =~= Seq::<char>::empty());
    while i < v.len()
        invariant
            from <= i <= v@.len(),
            digits == v@.skip(from as int),
            v@ == s@,
            shown_number(s@) == digits_number(digits),
            digits.len() > 0,
            forall|k: int| 0 <= k < i - from ==> is_digit(#[trigger] digits[k]),
            value == digits_value(digits.take(i - from)),
        decreases v@.len() - i,
    {
        let c = v[i];
        assert(digits[i - from] == c);
        if !('0' <= c && c <= '9') {
            assert(!all_digits(digits));
            return None;
        }
        proof {
            assert(digits.take(i - from + 1).drop_last() =~= digits.take(i - from));
            if all_digits(digits) {
                lemma_digits_grow(digits, i - from + 1);
            }
        }
        let d: usize = digit_value(c);
        match value.checked_mul(10) {
            Some(tens) => match tens.checked_add(d) {
                Some(sum) => {
                    value = sum;
                },
                None => {
                    return None;
                },
            },
            None => {
                return None;
            },
        }
        i = i + 1;
    }
    assert(digits.take(i - from) =~= digits);
    Some(value)
}

} // verus!
