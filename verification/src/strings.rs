//! Text building blocks: character vectors, decimal numbers, joins.

use vstd::prelude::*;
use vstd::string::*;

verus! {

/// `String::push` of std appends one character at the end.
pub assume_specification[ String::push ](s: &mut String, c: char)
    ensures
        final(s)@ == old(s)@.push(c),
;

/// The texts of a list of strings.
pub open spec fn views(list: Seq<String>) -> Seq<Seq<char>> {
    list.map_values(|s: String| s@)
}

/// Append a copy of `text` to a list.
pub fn push_text(list: &mut Vec<String>, text: &str)
    ensures
        views(final(list)@) == views(old(list)@).push(text@),
{
    let owned = text.to_owned();
    list.push(owned);
    proof {
        assert(views(list@) =~= views(old(list)@).push(text@));
    }
}

/// Append an owned string to a list.
pub fn push_owned(list: &mut Vec<String>, text: String)
    ensures
        views(final(list)@) == views(old(list)@).push(text@),
{
    list.push(text);
    proof {
        assert(views(list@) =~= views(old(list)@).push(text@));
    }
}

/// The characters of a text, as a vector.
pub fn chars_of(text: &str) -> (out: Vec<char>)
    ensures
        out@ == text@,
{
    let mut out: Vec<char> = Vec::new();
    for c in it: text.chars()
        invariant
            it.seq() == text@,
            out@ == it.seq().take(it.index() as int),
    {
        out.push(c);
        proof {
            assert(out@ =~= it.seq().take(it.index() + 1));
        }
    }
    proof {
        assert(out@ =~= text@);
    }
    out
}

/// The text made of a run of characters.
pub fn string_of(chars: &[char]) -> (out: String)
    ensures
        out@ == chars@,
{
    let mut out = String::new();
    for i in 0..chars.len()
        invariant
            out@ == chars@.take(i as int),
    {
        out.push(chars[i]);
        proof {
            assert(out@ =~= chars@.take(i + 1));
        }
    }
    proof {
        assert(chars@.take(chars@.len() as int) =~= chars@);
    }
    out
}

/// Whether two texts hold the same characters.
pub fn same_text(a: &str, b: &str) -> (same: bool)
    ensures
        same == (a@ == b@),
{
    let x = a.to_owned();
    let y = b.to_owned();
    x == y
}

/// The decimal digit for a value below ten.
pub open spec fn digit(d: nat) -> char {
    (48 + d) as char
}

/// A natural number written in decimal, without leading zeros.
pub open spec fn dec(n: nat) -> Seq<char>
    decreases n,
{
    if n < 10 {
        seq![digit(n)]
    } else {
        dec(n / 10).push(digit(n % 10))
    }
}

/// An integer written in decimal, with a minus sign below zero.
pub open spec fn dec_int(n: int) -> Seq<char> {
    if n < 0 {
        seq!['-'] + dec((-n) as nat)
    } else {
        dec(n as nat)
    }
}

/// Append `n` in decimal.
pub fn push_dec(out: &mut String, n: u64)
    ensures
        final(out)@ == old(out)@ + dec(n as nat),
    decreases n,
{
    if n >= 10 {
        push_dec(out, n / 10);
    }
    let d: u8 = (n % 10) as u8;
    let c: char = (48u8 + d) as char;
    out.push(c);
    proof {
        assert(c == digit((n % 10) as nat));
        assert(out@ =~= old(out)@ + dec(n as nat));
    }
}

/// `n` in decimal.
pub fn dec_text(n: u64) -> (out: String)
    ensures
        out@ == dec(n as nat),
{
    let mut out = String::new();
    push_dec(&mut out, n);
    proof {
        assert(out@ =~= dec(n as nat));
    }
    out
}

/// `n` in decimal, signed.
pub fn dec_int_text(n: i64) -> (out: String)
    ensures
        out@ == dec_int(n as int),
{
    let mut out = String::new();
    if n < 0 {
        out.push('-');
        let magnitude: u64 = (-(n as i128)) as u64;
        push_dec(&mut out, magnitude);
    } else {
        push_dec(&mut out, n as u64);
    }
    proof {
        assert(out@ =~= dec_int(n as int));
    }
    out
}

/// The texts of a list of character vectors.
pub open spec fn texts(list: Seq<Vec<char>>) -> Seq<Seq<char>> {
    list.map_values(|v: Vec<char>| v@)
}

/// A text cut at every occurrence of `cut`: the pieces between, in order;
/// one piece more than there are cuts.
pub open spec fn pieces(s: Seq<char>, cut: char) -> Seq<Seq<char>>
    decreases s.len(),
{
    if s.len() == 0 {
        seq![Seq::<char>::empty()]
    } else {
        let before = pieces(s.drop_last(), cut);
        if s.last() == cut {
            before.push(Seq::<char>::empty())
        } else {
            before.drop_last().push(before.last().push(s.last()))
        }
    }
}

/// A cut text has at least one piece.
pub proof fn lemma_pieces_nonempty(s: Seq<char>, cut: char)
    ensures
        pieces(s, cut).len() >= 1,
    decreases s.len(),
{
    if s.len() > 0 {
        lemma_pieces_nonempty(s.drop_last(), cut);
    }
}

/// Cut a text at every occurrence of `cut`.
pub fn split_at_char(s: &Vec<char>, cut: char) -> (out: Vec<Vec<char>>)
    ensures
        texts(out@) == pieces(s@, cut),
{
    let mut out: Vec<Vec<char>> = Vec::new();
    out.push(Vec::new());
    proof {
        assert(s@.take(0) =~= Seq::<char>::empty());
        assert(texts(out@) =~= pieces(s@.take(0), cut));
    }
    for i in 0..s.len()
        invariant
            texts(out@) == pieces(s@.take(i as int), cut),
    {
        let ghost before = out@;
        proof {
            lemma_pieces_nonempty(s@.take(i as int), cut);
            assert(s@.take(i + 1).drop_last() =~= s@.take(i as int));
            assert(texts(before).len() == before.len());
        }
        if s[i] == cut {
            out.push(Vec::new());
        } else {
            let mut last = out.pop().unwrap();
            last.push(s[i]);
            out.push(last);
        }
        proof {
            assert(texts(out@) =~= pieces(s@.take(i + 1), cut));
        }
    }
    proof {
        assert(s@.take(s@.len() as int) =~= s@);
    }
    out
}

/// The Unicode `White_Space` property.
pub open spec fn white(c: char) -> bool {
    let n = c as u32;
    ||| 0x9 <= n <= 0xd
    ||| n == 0x20
    ||| n == 0x85
    ||| n == 0xa0
    ||| n == 0x1680
    ||| 0x2000 <= n <= 0x200a
    ||| n == 0x2028
    ||| n == 0x2029
    ||| n == 0x202f
    ||| n == 0x205f
    ||| n == 0x3000
}

/// Whether a character is white space.
pub fn is_white(c: char) -> (r: bool)
    ensures
        r == white(c),
{
    let n: u32 = c as u32;
    (0x9 <= n && n <= 0xd) || n == 0x20 || n == 0x85 || n == 0xa0 || n == 0x1680 || (0x2000 <= n
        && n <= 0x200a) || n == 0x2028 || n == 0x2029 || n == 0x202f || n == 0x205f || n == 0x3000
}

/// The words of a text: its maximal runs of characters that are not white
/// space, in order.
pub open spec fn words(s: Seq<char>) -> Seq<Seq<char>>
    decreases s.len(),
{
    if s.len() == 0 {
        Seq::empty()
    } else {
        let before = words(s.drop_last());
        if white(s.last()) {
            before
        } else if s.len() == 1 || white(s[s.len() - 2]) {
            before.push(seq![s.last()])
        } else {
            before.drop_last().push(before.last().push(s.last()))
        }
    }
}

/// A text that ends inside a word has a word; no word is empty.
pub proof fn lemma_words_nonempty(s: Seq<char>)
    ensures
        s.len() > 0 && !white(s.last()) ==> words(s).len() >= 1,
        forall|i: int| 0 <= i < words(s).len() ==> (#[trigger] words(s)[i]).len() >= 1,
    decreases s.len(),
{
    if s.len() > 0 {
        lemma_words_nonempty(s.drop_last());
        let before = words(s.drop_last());
        if !white(s.last()) && !(s.len() == 1 || white(s[s.len() - 2])) {
            assert(s.drop_last().last() == s[s.len() - 2]);
        }
        assert forall|i: int| 0 <= i < words(s).len() implies (#[trigger] words(s)[i]).len()
            >= 1 by {
            if i < before.len() {
                assert(before[i].len() >= 1);
            }
        }
    }
}

/// Split a text into words.
pub fn split_words(s: &Vec<char>) -> (out: Vec<Vec<char>>)
    ensures
        texts(out@) == words(s@),
{
    let mut out: Vec<Vec<char>> = Vec::new();
    proof {
        assert(texts(out@) =~= words(s@.take(0)));
    }
    for i in 0..s.len()
        invariant
            texts(out@) == words(s@.take(i as int)),
    {
        let ghost before = out@;
        proof {
            lemma_words_nonempty(s@.take(i as int));
            assert(s@.take(i + 1).drop_last() =~= s@.take(i as int));
            assert(texts(before).len() == before.len());
            if i > 0 {
                assert(s@.take(i as int).last() == s@[i - 1]);
                assert(s@.take(i + 1)[i - 1] == s@[i - 1]);
            }
        }
        if !is_white(s[i]) {
            if i == 0 || is_white(s[i - 1]) {
                let mut word: Vec<char> = Vec::new();
                word.push(s[i]);
                out.push(word);
                proof {
                    assert(word@ =~= seq![s@[i as int]]);
                }
            } else {
                let mut last = out.pop().unwrap();
                last.push(s[i]);
                out.push(last);
            }
        }
        proof {
            assert(texts(out@) =~= words(s@.take(i + 1)));
        }
    }
    proof {
        assert(s@.take(s@.len() as int) =~= s@);
    }
    out
}

/// Whether `s` begins with `prefix`.
pub open spec fn begins(s: Seq<char>, prefix: Seq<char>) -> bool {
    prefix.len() <= s.len() && s.take(prefix.len() as int) == prefix
}

/// Whether a text begins with another.
pub fn has_prefix(s: &Vec<char>, prefix: &Vec<char>) -> (r: bool)
    ensures
        r == begins(s@, prefix@),
{
    if prefix.len() > s.len() {
        return false;
    }
    for i in 0..prefix.len()
        invariant
            prefix.len() <= s.len(),
            s@.take(i as int) == prefix@.take(i as int),
    {
        if s[i] != prefix[i] {
            proof {
                assert(s@.take(prefix@.len() as int)[i as int] != prefix@[i as int]);
            }
            return false;
        }
        proof {
            assert(s@.take(i + 1) =~= s@.take(i as int).push(s@[i as int]));
            assert(prefix@.take(i + 1) =~= prefix@.take(i as int).push(prefix@[i as int]));
        }
    }
    proof {
        assert(prefix@.take(prefix@.len() as int) =~= prefix@);
    }
    true
}

/// Lexicographic order by code point.
pub open spec fn lex_le(a: Seq<char>, b: Seq<char>) -> bool
    decreases a.len(),
{
    if a.len() == 0 {
        true
    } else if b.len() == 0 {
        false
    } else if a[0] != b[0] {
        a[0] < b[0]
    } else {
        lex_le(a.drop_first(), b.drop_first())
    }
}

/// Any two texts are comparable, and equal when each is at most the other.
pub proof fn lemma_lex_total(a: Seq<char>, b: Seq<char>)
    ensures
        lex_le(a, b) || lex_le(b, a),
        lex_le(a, b) && lex_le(b, a) ==> a == b,
    decreases a.len(),
{
    if a.len() > 0 && b.len() > 0 && a[0] == b[0] {
        lemma_lex_total(a.drop_first(), b.drop_first());
        if a.drop_first() == b.drop_first() {
            assert(a =~= seq![a[0]] + a.drop_first());
            assert(b =~= seq![b[0]] + b.drop_first());
        }
    } else if a.len() == 0 && b.len() == 0 {
        assert(a =~= b);
    }
}

/// The order is transitive.
pub proof fn lemma_lex_transitive(a: Seq<char>, b: Seq<char>, c: Seq<char>)
    requires
        lex_le(a, b),
        lex_le(b, c),
    ensures
        lex_le(a, c),
    decreases a.len(),
{
    if a.len() > 0 && b.len() > 0 && c.len() > 0 && a[0] == b[0] && b[0] == c[0] {
        lemma_lex_transitive(a.drop_first(), b.drop_first(), c.drop_first());
    }
}

/// Whether `a` comes no later than `b`.
pub fn not_after(a: &str, b: &str) -> (r: bool)
    ensures
        r == lex_le(a@, b@),
{
    let x = chars_of(a);
    let y = chars_of(b);
    let mut i: usize = 0;
    proof {
        assert(a@.skip(0) =~= a@);
        assert(b@.skip(0) =~= b@);
    }
    loop
        invariant
            x@ == a@,
            y@ == b@,
            i <= a@.len(),
            i <= b@.len(),
            lex_le(a@, b@) == lex_le(a@.skip(i as int), b@.skip(i as int)),
        decreases a@.len() - i,
    {
        if i == x.len() {
            return true;
        }
        if i == y.len() {
            return false;
        }
        if x[i] != y[i] {
            return x[i] < y[i];
        }
        proof {
            assert(a@.skip(i as int).drop_first() =~= a@.skip(i + 1));
            assert(b@.skip(i as int).drop_first() =~= b@.skip(i + 1));
        }
        i = i + 1;
    }
}

/// Ascending, repetitions allowed.
pub open spec fn ascending(list: Seq<Seq<char>>) -> bool {
    forall|i: int, j: int| 0 <= i <= j < list.len() ==> lex_le(list[i], list[j])
}

/// Put `text` at its place in an ascending list, behind its equals.
pub fn insert_ascending(list: &mut Vec<String>, text: String)
    requires
        ascending(views(old(list)@)),
    ensures
        ascending(views(final(list)@)),
        views(final(list)@).to_multiset() == views(old(list)@).to_multiset().insert(text@),
{
    let ghost before = views(list@);
    let mut at: usize = list.len();
    while at > 0 && !not_after(list[at - 1].as_str(), text.as_str())
        invariant
            at <= list@.len(),
            views(list@) == before,
            ascending(before),
            forall|k: int| at <= k < before.len() ==> lex_le(text@, #[trigger] before[k]),
        decreases at,
    {
        proof {
            lemma_lex_total(before[at - 1], text@);
        }
        at = at - 1;
    }
    let ghost word = text@;
    proof {
        assert(before.len() == list@.len());
        assert forall|k: int| 0 <= k < at implies lex_le(#[trigger] before[k], word) by {
            lemma_lex_transitive(before[k], before[at - 1], word);
        }
    }
    list.insert(at, text);
    proof {
        let after = views(list@);
        assert(after =~= before.insert(at as int, word));
        assert(after.remove(at as int) =~= before);
        assert(after[at as int] == word);
        after.to_multiset_ensures();
        assert(after.contains(word));
        assert(after.to_multiset() =~= before.to_multiset().insert(word));
        lemma_lex_total(word, word);
        assert forall|i: int, j: int| 0 <= i <= j < after.len() implies lex_le(
            after[i],
            after[j],
        ) by {
            if i < at && j > at {
                assert(lex_le(before[i], before[j - 1]));
            }
        }
    }
}

/// A list of texts with `sep` between neighbours.
pub open spec fn joined_by(list: Seq<Seq<char>>, sep: Seq<char>) -> Seq<char>
    decreases list.len(),
{
    if list.len() == 0 {
        Seq::empty()
    } else if list.len() == 1 {
        list[0]
    } else {
        joined_by(list.drop_last(), sep) + sep + list.last()
    }
}

/// Join a list of texts.
pub fn join_texts(list: &Vec<String>, sep: &str) -> (out: String)
    ensures
        out@ == joined_by(views(list@), sep@),
{
    let mut out = String::new();
    let ghost all = views(list@);
    for i in 0..list.len()
        invariant
            all == views(list@),
            out@ == joined_by(all.take(i as int), sep@),
    {
        proof {
            assert(all.take(i + 1).drop_last() =~= all.take(i as int));
        }
        if i > 0 {
            out.append(sep);
        }
        out.append(list[i].as_str());
        proof {
            if i == 0 {
                assert(all.take(1)[0] == list@[0]@);
                assert(out@ =~= all.take(1)[0]);
            }
        }
    }
    proof {
        assert(all.take(all.len() as int) =~= all);
    }
    out
}

/// Where a text stops beginning with white space.
pub open spec fn lead(s: Seq<char>) -> int
    decreases s.len(),
{
    if s.len() == 0 || !white(s[0]) {
        0
    } else {
        1 + lead(s.drop_first())
    }
}

/// Where the white space at the end of a text begins.
pub open spec fn tail(s: Seq<char>) -> int
    decreases s.len(),
{
    if s.len() == 0 || !white(s.last()) {
        s.len() as int
    } else {
        tail(s.drop_last())
    }
}

/// A text without the white space at its ends.
pub open spec fn trimmed(s: Seq<char>) -> Seq<char> {
    if lead(s) <= tail(s) {
        s.subrange(lead(s), tail(s))
    } else {
        Seq::empty()
    }
}

proof fn lemma_lead(s: Seq<char>, n: int)
    requires
        0 <= n <= s.len(),
        forall|k: int| 0 <= k < n ==> white(s[k]),
        n < s.len() ==> !white(s[n]),
    ensures
        lead(s) == n,
    decreases s.len(),
{
    if n > 0 {
        assert forall|k: int| 0 <= k < n - 1 implies white(s.drop_first()[k]) by {
            assert(white(s[k + 1]));
        }
        lemma_lead(s.drop_first(), n - 1);
    }
}

proof fn lemma_tail(s: Seq<char>, n: int)
    requires
        0 <= n <= s.len(),
        forall|k: int| n <= k < s.len() ==> white(s[k]),
        n > 0 ==> !white(s[n - 1]),
    ensures
        tail(s) == n,
    decreases s.len(),
{
    if n < s.len() {
        assert(white(s.last()));
        lemma_tail(s.drop_last(), n);
    }
}

/// The characters without the white space at the ends.
pub fn trim_chars(s: &Vec<char>) -> (out: Vec<char>)
    ensures
        out@ == trimmed(s@),
{
    let n: usize = s.len();
    let mut a: usize = 0;
    while a < n && is_white(s[a])
        invariant
            a <= n,
            n == s@.len(),
            forall|k: int| 0 <= k < a ==> white(s@[k]),
        decreases n - a,
    {
        a = a + 1;
    }
    let mut b: usize = n;
    while b > 0 && is_white(s[b - 1])
        invariant
            b <= n,
            n == s@.len(),
            forall|k: int| b <= k < n ==> white(s@[k]),
        decreases b,
    {
        b = b - 1;
    }
    proof {
        lemma_lead(s@, a as int);
        lemma_tail(s@, b as int);
    }
    let mut out: Vec<char> = Vec::new();
    let mut i: usize = a;
    while i < b
        invariant
            b <= s@.len(),
            a <= i,
            a <= b ==> i <= b,
            a <= b ==> out@ == s@.subrange(a as int, i as int),
            a > b ==> out@.len() == 0,
        decreases b - i,
    {
        out.push(s[i]);
        i = i + 1;
        proof {
            assert(out@ =~= s@.subrange(a as int, i as int));
        }
    }
    proof {
        assert(out@ =~= trimmed(s@));
    }
    out
}

/// Where a character first occurs; the length where it does not.
pub open spec fn first_at(s: Seq<char>, c: char) -> int
    decreases s.len(),
{
    if s.len() == 0 || s[0] == c {
        0
    } else {
        1 + first_at(s.drop_first(), c)
    }
}

proof fn lemma_first_at(s: Seq<char>, c: char, n: int)
    requires
        0 <= n <= s.len(),
        forall|k: int| 0 <= k < n ==> s[k] != c,
        n < s.len() ==> s[n] == c,
    ensures
        first_at(s, c) == n,
    decreases s.len(),
{
    if n > 0 {
        assert forall|k: int| 0 <= k < n - 1 implies s.drop_first()[k] != c by {
            assert(s[k + 1] != c);
        }
        lemma_first_at(s.drop_first(), c, n - 1);
    }
}

/// A text cut at the first occurrence of a character, if it occurs.
pub open spec fn cut_once(s: Seq<char>, c: char) -> Option<(Seq<char>, Seq<char>)> {
    let n = first_at(s, c);
    if n < s.len() {
        Some((s.take(n), s.skip(n + 1)))
    } else {
        None
    }
}

/// Cut a text at the first occurrence of a character.
pub fn split_once_at(s: &Vec<char>, c: char) -> (out: Option<(Vec<char>, Vec<char>)>)
    ensures
        match (out, cut_once(s@, c)) {
            (Some((a, b)), Some((x, y))) => a@ == x && b@ == y,
            (None, None) => true,
            _ => false,
        },
{
    let n: usize = s.len();
    let mut a: Vec<char> = Vec::new();
    let mut i: usize = 0;
    while i < n && s[i] != c
        invariant
            i <= n,
            n == s@.len(),
            a@ == s@.take(i as int),
            forall|k: int| 0 <= k < i ==> s@[k] != c,
        decreases n - i,
    {
        a.push(s[i]);
        i = i + 1;
        proof {
            assert(a@ =~= s@.take(i as int));
        }
    }
    proof {
        lemma_first_at(s@, c, i as int);
    }
    if i == n {
        return None;
    }
    let mut b: Vec<char> = Vec::new();
    for j in i + 1..n
        invariant
            i < j <= n,
            n == s@.len(),
            b@ == s@.subrange(i + 1, j as int),
    {
        b.push(s[j]);
        proof {
            assert(b@ =~= s@.subrange(i + 1, j + 1));
        }
    }
    proof {
        assert(b@ =~= s@.skip(i + 1));
    }
    Some((a, b))
}

/// Whether a character occurs.
pub fn holds_char(s: &Vec<char>, c: char) -> (out: bool)
    ensures
        out == s@.contains(c),
{
    for i in 0..s.len()
        invariant
            forall|k: int| 0 <= k < i ==> s@[k] != c,
    {
        if s[i] == c {
            return true;
        }
    }
    false
}

/// Only decimal digits.
pub open spec fn all_digits(s: Seq<char>) -> bool {
    forall|k: int| 0 <= k < s.len() ==> '0' <= #[trigger] s[k] <= '9'
}

/// The value of a run of decimal digits.
pub open spec fn digits_value(s: Seq<char>) -> nat
    decreases s.len(),
{
    if s.len() == 0 {
        0
    } else {
        10 * digits_value(s.drop_last()) + (s.last() as nat - 48) as nat
    }
}

/// A text without the plus sign before its digits.
pub open spec fn unsigned_digits(s: Seq<char>) -> Seq<char> {
    if s.len() > 1 && s[0] == '+' {
        s.drop_first()
    } else {
        s
    }
}

/// The unsigned number a text writes in decimal, up to `max`: digits, after a
/// plus sign at most.
pub open spec fn parsed(s: Seq<char>, max: nat) -> Option<nat> {
    let d = unsigned_digits(s);
    if d.len() > 0 && all_digits(d) && digits_value(d) <= max {
        Some(digits_value(d))
    } else {
        None
    }
}

proof fn lemma_digits_grow(s: Seq<char>, n: int)
    requires
        0 <= n <= s.len(),
    ensures
        digits_value(s.take(n)) <= digits_value(s),
    decreases s.len() - n,
{
    if n < s.len() {
        lemma_digits_grow(s, n + 1);
        assert(s.take(n + 1).drop_last() =~= s.take(n));
    } else {
        assert(s.take(n) =~= s);
    }
}

/// Parse an unsigned decimal number up to `max`.
pub fn parse_unsigned(text: &str, max: u64) -> (out: Option<u64>)
    ensures
        match (out, parsed(text@, max as nat)) {
            (Some(v), Some(expected)) => v == expected,
            (None, None) => true,
            _ => false,
        },
{
    let s = chars_of(text);
    let n: usize = s.len();
    let start: usize = if n > 1 && s[0] == '+' {
        1
    } else {
        0
    };
    let ghost d = unsigned_digits(text@);
    proof {
        assert(d =~= s@.skip(start as int));
    }
    if start == n {
        return None;
    }
    let mut value: u128 = 0;
    let mut i: usize = start;
    proof {
        assert(d.take(0).len() == 0);
    }
    while i < n
        invariant
            start <= i <= n,
            n == s@.len(),
            s@ == text@,
            d == s@.skip(start as int),
            d == unsigned_digits(text@),
            d.len() > 0,
            value == digits_value(d.take(i - start)),
            value <= max,
            forall|k: int| 0 <= k < i - start ==> '0' <= #[trigger] d[k] <= '9',
        decreases n - i,
    {
        let c: char = s[i];
        let ghost k = i - start;
        proof {
            assert(d[k] == c);
            assert(d.take(k + 1).drop_last() =~= d.take(k));
        }
        if c < '0' || c > '9' {
            return None;
        }
        value = value * 10 + (c as u128 - 48);
        if value > max as u128 {
            proof {
                lemma_digits_grow(d, k + 1);
            }
            return None;
        }
        i = i + 1;
    }
    proof {
        assert(d.take(d.len() as int) =~= d);
    }
    Some(value as u64)
}

/// Ascending without repetitions.
pub open spec fn strictly_ascending(list: Seq<Seq<char>>) -> bool {
    &&& ascending(list)
    &&& list.no_duplicates()
}

/// Put `text` at its place in an ascending list, unless it is there already.
pub fn insert_once(list: &mut Vec<String>, text: String)
    requires
        strictly_ascending(views(old(list)@)),
    ensures
        strictly_ascending(views(final(list)@)),
        forall|t: Seq<char>|
            #[trigger] views(final(list)@).contains(t) <==> views(old(list)@).contains(t) || t
                == text@,
{
    let ghost before = views(list@);
    for i in 0..list.len()
        invariant
            before == views(list@),
            strictly_ascending(before),
            list@ == old(list)@,
            forall|k: int| 0 <= k < i ==> before[k] != text@,
    {
        if same_text(list[i].as_str(), text.as_str()) {
            proof {
                assert(before[i as int] == text@);
                assert(before.contains(text@));
            }
            return ;
        }
    }
    let ghost word = text@;
    insert_ascending(list, text);
    proof {
        let after = views(list@);
        before.to_multiset_ensures();
        after.to_multiset_ensures();
        assert(!before.contains(word));
        assert forall|t: Seq<char>| #[trigger] after.contains(t) <==> before.contains(t) || t
            == word by {
            assert(after.to_multiset().count(t) > 0 <==> after.contains(t));
            assert(before.to_multiset().count(t) > 0 <==> before.contains(t));
        }
        before.lemma_multiset_has_no_duplicates();
        assert forall|x: Seq<char>| after.to_multiset().contains(x) implies after.to_multiset().count(
            x,
        ) == 1 by {
            assert(before.to_multiset().contains(x) ==> before.to_multiset().count(x) == 1);
            if x == word {
                assert(before.to_multiset().count(x) == 0);
            }
        }
        after.lemma_multiset_has_no_duplicates_conv();
    }
}

// ---------------------------------------------------------------------
// What the texts are for
// ---------------------------------------------------------------------

/// A number written in decimal reads back: the text holds digits only, starts
/// with a zero only for zero, and the digits give the number. So two numbers
/// are never written alike.
pub proof fn law_decimal_reads_back(n: nat)
    ensures
        dec(n).len() >= 1,
        forall|k: int| 0 <= k < dec(n).len() ==> '0' <= #[trigger] dec(n)[k] <= '9',
        digits_value(dec(n)) == n,
        dec(n)[0] == '0' ==> n == 0,
        n < 10 ==> dec(n).len() == 1,
    decreases n,
{
    if n < 10 {
        let d = dec(n);
        assert(d.drop_last() =~= Seq::<char>::empty());
        assert(digits_value(d.drop_last()) == 0);
        assert(d.last() as nat == 48 + n);
    } else {
        law_decimal_reads_back(n / 10);
        let d = dec(n);
        assert(d.drop_last() =~= dec(n / 10));
        assert(d.last() as nat == 48 + n % 10);
        assert(d[0] == dec(n / 10)[0]);
    }
}

/// Different numbers have different decimal texts.
pub proof fn law_decimals_differ(a: nat, b: nat)
    requires
        a != b,
    ensures
        dec(a) != dec(b),
{
    law_decimal_reads_back(a);
    law_decimal_reads_back(b);
}

/// A signed number in decimal: below zero a minus sign stands before its
/// absolute value, otherwise it reads like an unsigned one.
pub proof fn law_signed_decimal(n: int)
    ensures
        n >= 0 ==> digits_value(dec_int(n)) == n && dec_int(n)[0] != '-',
        n < 0 ==> dec_int(n)[0] == '-' && digits_value(dec_int(n).skip(1)) == -n,
{
    if n < 0 {
        law_decimal_reads_back((-n) as nat);
        assert(dec_int(n).skip(1) =~= dec((-n) as nat));
    } else {
        law_decimal_reads_back(n as nat);
    }
}

/// The digit runs read as their positions say.
pub proof fn law_digits_count_by_tens(s: Seq<char>, c: char)
    requires
        '0' <= c <= '9',
    ensures
        digits_value(s.push(c)) == 10 * digits_value(s) + (c as int - '0' as int),
{
    assert(s.push(c).drop_last() =~= s);
}

/// A parsed number is one that digits write, after a plus sign at most.
pub proof fn law_parsed_numbers(s: Seq<char>, max: nat)
    ensures
        parsed(s, max) matches Some(v) ==> v <= max && s.len() > 0 && exists|d: Seq<char>|
            #![trigger digits_value(d)]
            (s == d || s == seq!['+'] + d) && digits_value(d) == v && forall|k: int|
                0 <= k < d.len() ==> '0' <= #[trigger] d[k] <= '9',
        forall|n: nat| n <= max ==> parsed(#[trigger] dec(n), max) == Some(n),
{
    if parsed(s, max) is Some {
        let d = unsigned_digits(s);
        assert(s == d || s =~= seq!['+'] + d);
        assert(digits_value(d) == parsed(s, max)->0);
    }
    assert forall|n: nat| n <= max implies parsed(#[trigger] dec(n), max) == Some(n) by {
        law_decimal_reads_back(n);
        assert('0' <= dec(n)[0]);
        assert(unsigned_digits(dec(n)) == dec(n));
    }
}

/// Cutting a text loses nothing but the cuts: no piece holds the character
/// that was cut at, and the pieces joined with it are the text.
pub proof fn law_pieces_join_back(s: Seq<char>, cut: char)
    ensures
        pieces(s, cut).len() >= 1,
        joined_by(pieces(s, cut), seq![cut]) == s,
        forall|k: int| 0 <= k < pieces(s, cut).len() ==> !(#[trigger] pieces(s, cut)[k]).contains(cut),
    decreases s.len(),
{
    if s.len() == 0 {
        assert(joined_by(pieces(s, cut), seq![cut]) =~= s);
    } else {
        let init = s.drop_last();
        law_pieces_join_back(init, cut);
        let before = pieces(init, cut);
        let all = pieces(s, cut);
        let sep = seq![cut];
        if s.last() == cut {
            assert(all.drop_last() =~= before);
            assert(joined_by(all, sep) =~= joined_by(before, sep) + sep);
            assert(joined_by(all, sep) =~= s);
        } else {
            assert(all.drop_last() =~= before.drop_last());
            assert(all.last() == before.last().push(s.last()));
            if before.len() == 1 {
                assert(joined_by(all, sep) =~= s);
            } else {
                assert(joined_by(all, sep) =~= joined_by(before, sep).push(s.last()));
                assert(joined_by(all, sep) =~= s);
            }
            assert forall|k: int| 0 <= k < all.len() implies !(#[trigger] all[k]).contains(cut) by {
                if k < before.len() - 1 {
                    assert(all[k] == before[k]);
                } else {
                    assert(!before[before.len() - 1].contains(cut));
                    let p = all[k];
                    if p.contains(cut) {
                        let j = choose|j: int| 0 <= j < p.len() && p[j] == cut;
                        assert(before.last()[j] == cut);
                    }
                }
            }
        }
    }
}

/// A joined list grows by the separator and the new text; one text alone is
/// itself, and an empty list is empty.
pub proof fn law_joined_lists_grow(list: Seq<Seq<char>>, text: Seq<char>, sep: Seq<char>)
    ensures
        joined_by(Seq::<Seq<char>>::empty(), sep) == Seq::<char>::empty(),
        joined_by(seq![text], sep) == text,
        list.len() > 0 ==> joined_by(list.push(text), sep) == joined_by(list, sep) + sep + text,
{
    assert(list.push(text).drop_last() =~= list);
}

/// Trimming takes white space off both ends and nothing else: what is left
/// neither begins nor ends with white space, and what was taken off is white.
pub proof fn law_trimming_takes_off_blanks(s: Seq<char>)
    ensures
        trimmed(s).len() > 0 ==> !white(trimmed(s)[0]) && !white(trimmed(s).last()),
        trimmed(s).len() == 0 ==> forall|k: int| 0 <= k < s.len() ==> white(#[trigger] s[k]),
        trimmed(s).len() > 0 ==> exists|a: int, b: int|
            #![trigger s.subrange(a, b)]
            0 <= a <= b <= s.len() && trimmed(s) == s.subrange(a, b) && (forall|k: int|
                0 <= k < a ==> white(#[trigger] s[k])) && (forall|k: int|
                b <= k < s.len() ==> white(#[trigger] s[k])),
{
    lemma_lead_shape(s);
    lemma_tail_shape(s);
    if trimmed(s).len() > 0 {
        assert(trimmed(s) == s.subrange(lead(s), tail(s)));
    }
}

proof fn lemma_lead_shape(s: Seq<char>)
    ensures
        0 <= lead(s) <= s.len(),
        forall|k: int| 0 <= k < lead(s) ==> white(#[trigger] s[k]),
        lead(s) < s.len() ==> !white(s[lead(s)]),
    decreases s.len(),
{
    if s.len() > 0 && white(s[0]) {
        let rest = s.drop_first();
        lemma_lead_shape(rest);
        assert forall|k: int| 0 <= k < lead(s) implies white(#[trigger] s[k]) by {
            if k > 0 {
                assert(rest[k - 1] == s[k]);
            }
        }
    }
}

proof fn lemma_tail_shape(s: Seq<char>)
    ensures
        0 <= tail(s) <= s.len(),
        forall|k: int| tail(s) <= k < s.len() ==> white(#[trigger] s[k]),
        tail(s) > 0 ==> !white(s[tail(s) - 1]),
    decreases s.len(),
{
    if s.len() > 0 && white(s.last()) {
        let rest = s.drop_last();
        lemma_tail_shape(rest);
        assert forall|k: int| tail(s) <= k < s.len() implies white(#[trigger] s[k]) by {
            if k < rest.len() {
                assert(rest[k] == s[k]);
            }
        }
    }
}

/// Blanks, tabs and line breaks are white space; letters, digits and
/// punctuation are not.
pub proof fn law_white_space()
    ensures
        white(' '),
        white('\t'),
        white('\n'),
        white('\r'),
        forall|c: char| '!' <= c <= '~' ==> !(#[trigger] white(c)),
{
}

/// A text is cut at the first occurrence of a character: nothing before the
/// cut holds it, and the two sides with it between are the text. Without an
/// occurrence there is no cut.
pub proof fn law_cut_is_at_the_first(s: Seq<char>, c: char)
    ensures
        cut_once(s, c) is None <==> !s.contains(c),
        cut_once(s, c) matches Some((a, b)) ==> !a.contains(c) && s == a + seq![c] + b,
    decreases s.len(),
{
    lemma_first_at_shape(s, c);
    let n = first_at(s, c);
    if n < s.len() {
        assert(s.take(n) + seq![c] + s.skip(n + 1) =~= s);
        assert(s[n] == c);
    }
}

proof fn lemma_first_at_shape(s: Seq<char>, c: char)
    ensures
        0 <= first_at(s, c) <= s.len(),
        forall|k: int| 0 <= k < first_at(s, c) ==> #[trigger] s[k] != c,
        first_at(s, c) < s.len() ==> s[first_at(s, c)] == c,
    decreases s.len(),
{
    if s.len() > 0 && s[0] != c {
        let rest = s.drop_first();
        lemma_first_at_shape(rest, c);
        assert forall|k: int| 0 <= k < first_at(s, c) implies #[trigger] s[k] != c by {
            if k > 0 {
                assert(rest[k - 1] == s[k]);
            }
        }
    }
}

/// Words hold no white space and none is empty; white space adds none, and a
/// word put behind white space is the last one.
pub proof fn law_words_are_runs(s: Seq<char>, word: Seq<char>, c: char)
    requires
        white(c),
        word.len() > 0,
        forall|k: int| 0 <= k < word.len() ==> !white(#[trigger] word[k]),
    ensures
        forall|i: int, k: int|
            0 <= i < words(s).len() && 0 <= k < words(s)[i].len() ==> !white(
                #[trigger] words(s)[i][k],
            ),
        forall|i: int| 0 <= i < words(s).len() ==> (#[trigger] words(s)[i]).len() > 0,
        words(s.push(c)) == words(s),
        words(s.push(c) + word) == words(s).push(word),
        words(word) == seq![word],
{
    lemma_words_clean(s);
    assert(s.push(c).drop_last() =~= s);
    lemma_word_behind(s.push(c), word);
    lemma_word_behind(Seq::<char>::empty(), word);
    assert(Seq::<char>::empty() + word =~= word);
    assert(words(word) =~= seq![word]);
}

proof fn lemma_words_clean(s: Seq<char>)
    ensures
        forall|i: int, k: int|
            0 <= i < words(s).len() && 0 <= k < words(s)[i].len() ==> !white(
                #[trigger] words(s)[i][k],
            ),
        forall|i: int| 0 <= i < words(s).len() ==> (#[trigger] words(s)[i]).len() > 0,
        s.len() > 0 && !white(s.last()) ==> words(s).len() > 0,
    decreases s.len(),
{
    if s.len() > 0 {
        let init = s.drop_last();
        lemma_words_clean(init);
        let before = words(init);
        let all = words(s);
        if !white(s.last()) && !(s.len() == 1 || white(s[s.len() - 2])) {
            assert(init.last() == s[s.len() - 2]);
            assert forall|i: int, k: int|
                0 <= i < all.len() && 0 <= k < all[i].len() implies !white(#[trigger] all[i][k]) by {
                if i < before.len() - 1 {
                    assert(all[i] == before[i]);
                    assert(!white(before[i][k]));
                } else if k < before.last().len() {
                    assert(all[i][k] == before[before.len() - 1][k]);
                    assert(!white(before[before.len() - 1][k]));
                }
            }
            assert forall|i: int| 0 <= i < all.len() implies (#[trigger] all[i]).len() > 0 by {
                if i < before.len() - 1 {
                    assert(all[i] == before[i]);
                }
            }
        } else if !white(s.last()) {
            assert forall|i: int, k: int|
                0 <= i < all.len() && 0 <= k < all[i].len() implies !white(#[trigger] all[i][k]) by {
                if i < before.len() {
                    assert(all[i] == before[i]);
                    assert(!white(before[i][k]));
                }
            }
            assert forall|i: int| 0 <= i < all.len() implies (#[trigger] all[i]).len() > 0 by {
                if i < before.len() {
                    assert(all[i] == before[i]);
                }
            }
        }
    }
}

proof fn lemma_word_behind(s: Seq<char>, word: Seq<char>)
    requires
        s.len() == 0 || white(s.last()),
        word.len() > 0,
        forall|k: int| 0 <= k < word.len() ==> !white(#[trigger] word[k]),
    ensures
        words(s + word) == words(s).push(word),
    decreases word.len(),
{
    let all = s + word;
    assert(all.last() == word.last());
    assert(!white(word[word.len() - 1]));
    if word.len() == 1 {
        assert(all.drop_last() =~= s);
        assert(seq![word.last()] =~= word);
        if s.len() > 0 {
            assert(all[all.len() - 2] == s.last());
        }
    } else {
        let short = word.drop_last();
        assert(all.drop_last() =~= s + short);
        lemma_word_behind(s, short);
        assert(all[all.len() - 2] == word[word.len() - 2]);
        assert(!white(word[word.len() - 2]));
        let before = words(s + short);
        assert(before.drop_last() =~= words(s));
        assert(before.last() == short);
        assert(short.push(word.last()) =~= word);
    }
}

/// Texts are ordered by their first difference, and a text comes before those
/// it begins.
pub proof fn law_texts_are_ordered(common: Seq<char>, a: Seq<char>, b: Seq<char>, x: char, y: char)
    requires
        x < y,
    ensures
        lex_le(common + seq![x] + a, common + seq![y] + b),
        !lex_le(common + seq![y] + b, common + seq![x] + a),
        lex_le(common, common + a),
        a.len() > 0 ==> !lex_le(common + a, common),
    decreases common.len(),
{
    let p = common + seq![x] + a;
    let q = common + seq![y] + b;
    if common.len() == 0 {
        assert(p[0] == x && q[0] == y);
    } else {
        let rest = common.drop_first();
        law_texts_are_ordered(rest, a, b, x, y);
        assert(p.drop_first() =~= rest + seq![x] + a);
        assert(q.drop_first() =~= rest + seq![y] + b);
        assert(p[0] == common[0] && q[0] == common[0]);
        assert((common + a).drop_first() =~= rest + a);
        assert((common + a)[0] == common[0]);
    }
}

/// A text begins with another when it is that text with something behind it.
pub proof fn law_beginnings(prefix: Seq<char>, rest: Seq<char>, s: Seq<char>)
    ensures
        begins(prefix + rest, prefix),
        begins(s, prefix) ==> s == prefix + s.skip(prefix.len() as int),
        s.len() < prefix.len() ==> !begins(s, prefix),
{
    assert((prefix + rest).take(prefix.len() as int) =~= prefix);
    if begins(s, prefix) {
        assert(s =~= s.take(prefix.len() as int) + s.skip(prefix.len() as int));
    }
}

/// A command line gives an option this value: they stand next to each other.
pub open spec fn says(args: Seq<Seq<char>>, option: Seq<char>, value: Seq<char>) -> bool {
    exists|i: int|
        #![trigger args[i]]
        0 <= i && i + 1 < args.len() && args[i] == option && args[i + 1] == value
}

/// A text holds another somewhere.
pub open spec fn holds_text(s: Seq<char>, part: Seq<char>) -> bool {
    exists|a: Seq<char>, b: Seq<char>| #[trigger] (a + part + b) == s
}

/// An option that stands at place `i` with its value behind it.
pub proof fn lemma_says(args: Seq<Seq<char>>, i: int)
    requires
        0 <= i,
        i + 1 < args.len(),
    ensures
        says(args, args[i], args[i + 1]),
{
}

/// A part with something before and behind it.
pub proof fn lemma_holds_text(a: Seq<char>, part: Seq<char>, b: Seq<char>)
    ensures
        holds_text(a + part + b, part),
{
}

/// A plus sign may stand before a number, and nothing else may: without a digit
/// behind it there is no number.
pub proof fn law_numbers_may_have_a_plus(n: nat, max: nat)
    requires
        n <= max,
    ensures
        parsed(seq!['+'] + dec(n), max) == Some(n),
        parsed(dec(n), max) == Some(n),
        parsed(Seq::empty(), max) is None,
        parsed(seq!['+'], max) is None,
        parsed(seq!['-'] + dec(n), max) is None,
{
    law_parsed_numbers(dec(n), max);
    law_decimal_reads_back(n);
    let s = seq!['+'] + dec(n);
    assert(s.len() > 1 && s[0] == '+');
    assert(s.skip(1) =~= dec(n));
    assert(s.drop_first() =~= dec(n));
    assert(unsigned_digits(s) == dec(n));
    let minus = seq!['-'] + dec(n);
    assert(minus[0] == '-');
    assert(seq!['+'][0] == '+');
}

/// In a sorted list every text comes before the ones behind it, from the first
/// on; in a strictly sorted one no two are the same either.
pub proof fn law_sorted_lists(list: Seq<Seq<char>>, i: int, j: int)
    requires
        0 <= i < j < list.len(),
    ensures
        ascending(list) ==> lex_le(list[i], list[j]),
        strictly_ascending(list) ==> lex_le(list[i], list[j]) && list[i] != list[j],
{
}

} // verus!
