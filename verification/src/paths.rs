//! Unix path texts: file names, stems, extensions, joins.
//!
//! Repeated separators, trailing separators and `.` components carry no
//! meaning; `..` is a component without a file name.

use vstd::prelude::*;
use vstd::string::*;

use crate::strings::{chars_of, string_of};

verus! {

/// Where the component that ends at `end` begins.
pub open spec fn component_start(s: Seq<char>, end: int) -> int
    decreases end,
{
    if end <= 0 {
        0
    } else if s[end - 1] == '/' {
        end
    } else {
        component_start(s, end - 1)
    }
}

/// Bounds of the last meaningful component of `s[0..end]`, if it is a name.
pub open spec fn name_span_to(s: Seq<char>, end: int) -> Option<(int, int)>
    decreases end,
{
    if end < 0 {
        None
    } else {
        let start = component_start(s, end);
        if start > end {
            None
        } else if start == end || (end - start == 1 && s[start] == '.') {
            if start <= 0 {
                None
            } else {
                name_span_to(s, start - 1)
            }
        } else if end - start == 2 && s[start] == '.' && s[start + 1] == '.' {
            None
        } else {
            Some((start, end))
        }
    }
}

/// Bounds of the file name of a path, if it has one.
pub open spec fn name_span(s: Seq<char>) -> Option<(int, int)> {
    name_span_to(s, s.len() as int)
}

/// The file name of a path.
pub open spec fn file_name(s: Seq<char>) -> Option<Seq<char>> {
    match name_span(s) {
        Some((a, b)) => Some(s.subrange(a, b)),
        None => None,
    }
}

/// Where the last dot of `s[a..b]` stands, or `a` if there is none behind `a`.
pub open spec fn last_dot(s: Seq<char>, a: int, b: int) -> int
    decreases b - a,
{
    if b <= a + 1 {
        a
    } else if s[b - 1] == '.' {
        b - 1
    } else {
        last_dot(s, a, b - 1)
    }
}

/// Bounds of the file stem: the file name up to its last dot, or all of it
/// where it has no dot behind its first character.
pub open spec fn stem_span(s: Seq<char>) -> Option<(int, int)> {
    match name_span(s) {
        Some((a, b)) => {
            let dot = last_dot(s, a, b);
            Some((a, if dot == a { b } else { dot }))
        },
        None => None,
    }
}

/// The file stem of a path.
pub open spec fn file_stem(s: Seq<char>) -> Option<Seq<char>> {
    match stem_span(s) {
        Some((a, b)) => Some(s.subrange(a, b)),
        None => None,
    }
}

/// The extension of a path: what follows the last dot of its file name.
pub open spec fn extension(s: Seq<char>) -> Option<Seq<char>> {
    match name_span(s) {
        Some((a, b)) => {
            let dot = last_dot(s, a, b);
            if dot == a {
                None
            } else {
                Some(s.subrange(dot + 1, b))
            }
        },
        None => None,
    }
}

/// The path with its extension replaced (or added); an empty extension takes it
/// away. A path without a file name stays as it is.
pub open spec fn with_extension(s: Seq<char>, ext: Seq<char>) -> Seq<char> {
    match stem_span(s) {
        Some((_, end)) => if ext.len() == 0 {
            s.take(end)
        } else {
            s.take(end) + seq!['.'] + ext
        },
        None => s,
    }
}

/// The path of `name` inside directory `dir`; an absolute `name` stands alone.
pub open spec fn joined(dir: Seq<char>, name: Seq<char>) -> Seq<char> {
    if name.len() > 0 && name[0] == '/' {
        name
    } else if dir.len() == 0 || dir.last() == '/' {
        dir + name
    } else {
        dir + seq!['/'] + name
    }
}

proof fn lemma_component_start(s: Seq<char>, end: int)
    requires
        0 <= end <= s.len(),
    ensures
        0 <= component_start(s, end) <= end,
    decreases end,
{
    if end > 0 && s[end - 1] != '/' {
        lemma_component_start(s, end - 1);
    }
}

/// The bounds of a file name lie inside the path and hold a character.
pub proof fn lemma_name_span(s: Seq<char>, end: int)
    requires
        0 <= end <= s.len(),
    ensures
        name_span_to(s, end) matches Some((a, b)) ==> 0 <= a < b <= end,
    decreases end,
{
    lemma_component_start(s, end);
    let start = component_start(s, end);
    if (start == end || (end - start == 1 && s[start] == '.')) && start > 0 {
        lemma_name_span(s, start - 1);
    }
}

proof fn lemma_last_dot(s: Seq<char>, a: int, b: int)
    requires
        a <= b,
    ensures
        a <= last_dot(s, a, b),
        last_dot(s, a, b) == a || last_dot(s, a, b) < b,
    decreases b - a,
{
    if b > a + 1 && s[b - 1] != '.' {
        lemma_last_dot(s, a, b - 1);
    }
}

/// The stem lies at the front of the file name.
pub proof fn lemma_stem_span(s: Seq<char>)
    ensures
        stem_span(s) matches Some((a, b)) ==> 0 <= a < b <= s.len(),
{
    lemma_name_span(s, s.len() as int);
    if let Some((a, b)) = name_span(s) {
        lemma_last_dot(s, a, b);
    }
}

fn find_component_start(s: &Vec<char>, end: usize) -> (start: usize)
    requires
        end <= s@.len(),
    ensures
        start == component_start(s@, end as int),
        start <= end,
{
    let mut start: usize = end;
    while start > 0 && s[start - 1] != '/'
        invariant
            start <= end <= s@.len(),
            component_start(s@, end as int) == component_start(s@, start as int),
        decreases start,
    {
        start = start - 1;
    }
    start
}

fn find_name(s: &Vec<char>) -> (span: Option<(usize, usize)>)
    ensures
        match (span, name_span(s@)) {
            (Some((a, b)), Some((x, y))) => a == x && b == y && a < b <= s@.len(),
            (None, None) => true,
            _ => false,
        },
{
    let mut end: usize = s.len();
    loop
        invariant
            end <= s@.len(),
            name_span(s@) == name_span_to(s@, end as int),
        decreases end,
    {
        let start: usize = find_component_start(s, end);
        if start == end || (end - start == 1 && s[start] == '.') {
            if start == 0 {
                return None;
            }
            end = start - 1;
        } else if end - start == 2 && s[start] == '.' && s[start + 1] == '.' {
            return None;
        } else {
            return Some((start, end));
        }
    }
}

fn find_last_dot(s: &Vec<char>, a: usize, b: usize) -> (dot: usize)
    requires
        a < b <= s@.len(),
    ensures
        dot == last_dot(s@, a as int, b as int),
        a <= dot < b,
{
    let mut end: usize = b;
    while end > a + 1
        invariant
            a < end <= b <= s@.len(),
            last_dot(s@, a as int, b as int) == last_dot(s@, a as int, end as int),
        decreases end,
    {
        if s[end - 1] == '.' {
            return end - 1;
        }
        end = end - 1;
    }
    a
}

fn slice_text(s: &Vec<char>, a: usize, b: usize) -> (out: String)
    requires
        a <= b <= s@.len(),
    ensures
        out@ == s@.subrange(a as int, b as int),
{
    let mut part: Vec<char> = Vec::new();
    for i in a..b
        invariant
            a <= i <= b <= s@.len(),
            part@ == s@.subrange(a as int, i as int),
    {
        part.push(s[i]);
        proof {
            assert(part@ =~= s@.subrange(a as int, i + 1));
        }
    }
    string_of(part.as_slice())
}

/// The file name of a path, if it has one.
pub fn file_name_of(path: &str) -> (out: Option<String>)
    ensures
        match (out, file_name(path@)) {
            (Some(name), Some(expected)) => name@ == expected,
            (None, None) => true,
            _ => false,
        },
{
    let s = chars_of(path);
    match find_name(&s) {
        Some((a, b)) => Some(slice_text(&s, a, b)),
        None => None,
    }
}

/// The file stem of a path, if it has one.
pub fn file_stem_of(path: &str) -> (out: Option<String>)
    ensures
        match (out, file_stem(path@)) {
            (Some(stem), Some(expected)) => stem@ == expected,
            (None, None) => true,
            _ => false,
        },
{
    let s = chars_of(path);
    match find_name(&s) {
        Some((a, b)) => {
            let dot: usize = find_last_dot(&s, a, b);
            let end: usize = if dot == a {
                b
            } else {
                dot
            };
            Some(slice_text(&s, a, end))
        },
        None => None,
    }
}

/// Whether a path has an extension.
pub fn has_extension(path: &str) -> (out: bool)
    ensures
        out == (extension(path@) is Some),
{
    let s = chars_of(path);
    match find_name(&s) {
        Some((a, b)) => find_last_dot(&s, a, b) != a,
        None => false,
    }
}

/// The path with its extension replaced by `ext`, or `ext` added; an empty
/// `ext` takes the extension away.
pub fn replace_extension(path: &str, ext: &str) -> (out: String)
    ensures
        out@ == with_extension(path@, ext@),
{
    let s = chars_of(path);
    match find_name(&s) {
        Some((a, b)) => {
            let dot: usize = find_last_dot(&s, a, b);
            let end: usize = if dot == a {
                b
            } else {
                dot
            };
            let mut out = slice_text(&s, 0, end);
            if chars_of(ext).len() != 0 {
                out.push('.');
                out.append(ext);
            }
            proof {
                assert(out@ =~= with_extension(path@, ext@));
            }
            out
        },
        None => path.to_owned(),
    }
}

/// The path of `name` inside directory `dir`.
pub fn join_path(dir: &str, name: &str) -> (out: String)
    ensures
        out@ == joined(dir@, name@),
{
    let s = chars_of(dir);
    let n = chars_of(name);
    if n.len() != 0 && n[0] == '/' {
        return name.to_owned();
    }
    let mut out = dir.to_owned();
    if s.len() != 0 && s[s.len() - 1] != '/' {
        out.push('/');
    }
    out.append(name);
    proof {
        assert(out@ =~= joined(dir@, name@));
    }
    out
}

proof fn lemma_component(s: Seq<char>, end: int)
    requires
        0 <= end <= s.len(),
    ensures
        component_start(s, end) == 0 || s[component_start(s, end) - 1] == '/',
        forall|k: int| component_start(s, end) <= k < end ==> #[trigger] s[k] != '/',
    decreases end,
{
    if end > 0 && s[end - 1] != '/' {
        lemma_component(s, end - 1);
    }
}

proof fn lemma_component_is(s: Seq<char>, end: int, a: int)
    requires
        0 <= a <= end <= s.len(),
        a == 0 || s[a - 1] == '/',
        forall|k: int| a <= k < end ==> #[trigger] s[k] != '/',
    ensures
        component_start(s, end) == a,
    decreases end,
{
    if end > a {
        lemma_component_is(s, end - 1, a);
    }
}

proof fn lemma_name(s: Seq<char>, end: int)
    requires
        0 <= end <= s.len(),
    ensures
        name_span_to(s, end) matches Some((a, b)) ==> a == component_start(s, b) && 0 <= a < b <= end
            && !(b - a == 1 && s[a] == '.') && !(b - a == 2 && s[a] == '.' && s[a + 1] == '.'),
    decreases end,
{
    lemma_component_start(s, end);
    let start = component_start(s, end);
    if (start == end || (end - start == 1 && s[start] == '.')) && start > 0 {
        lemma_name(s, start - 1);
    }
}

proof fn lemma_last_dot_is(s: Seq<char>, a: int, b: int, dot: int)
    requires
        a < dot < b,
        s[dot] == '.',
        forall|k: int| dot < k < b ==> #[trigger] s[k] != '.',
    ensures
        last_dot(s, a, b) == dot,
    decreases b - a,
{
    if b - 1 != dot {
        lemma_last_dot_is(s, a, b - 1, dot);
    }
}

/// A replaced extension reads back, and the stem stays: for an extension
/// without dots and separators, on every path with a file name.
pub proof fn law_extension_reads_back(s: Seq<char>, ext: Seq<char>)
    requires
        file_name(s) is Some,
        ext.len() > 0,
        forall|k: int| 0 <= k < ext.len() ==> #[trigger] ext[k] != '.' && ext[k] != '/',
    ensures
        extension(with_extension(s, ext)) == Some(ext),
        file_stem(with_extension(s, ext)) == file_stem(s),
{
    lemma_name(s, s.len() as int);
    lemma_stem_span(s);
    let (a, b) = name_span(s)->0;
    let (_, end) = stem_span(s)->0;
    lemma_last_dot(s, a, b);
    lemma_component(s, b);
    let t = with_extension(s, ext);
    let n = t.len() as int;
    assert(n == end + 1 + ext.len());
    assert forall|k: int| 0 <= k < end implies #[trigger] t[k] == s[k] by {}
    assert(t[end] == '.');
    assert forall|k: int| end < k < n implies #[trigger] t[k] != '.' && t[k] != '/' by {
        assert(t[k] == ext[k - end - 1]);
    }
    assert forall|k: int| a <= k < n implies #[trigger] t[k] != '/' by {
        if k < end {
            assert(t[k] == s[k]);
        }
    }
    if a > 0 {
        assert(t[a - 1] == s[a - 1]);
    }
    lemma_component_is(t, n, a);
    assert(n - a >= 3);
    assert(name_span(t) == Some((a, n)));
    lemma_last_dot_is(t, a, n, end);
    assert(t.subrange(end + 1, n) =~= ext);
    assert(t.subrange(a, end) =~= s.subrange(a, end));
}

// ---------------------------------------------------------------------
// What paths are made of
// ---------------------------------------------------------------------

/// A plain file name: not empty, without separators, neither `.` nor `..`.
pub open spec fn plain(name: Seq<char>) -> bool {
    &&& name.len() > 0
    &&& !name.contains('/')
    &&& name != seq!['.']
    &&& name != seq!['.', '.']
}

proof fn lemma_plain_span(front: Seq<char>, name: Seq<char>)
    requires
        front.len() == 0 || front.last() == '/',
        plain(name),
    ensures
        name_span(front + name) == Some((front.len() as int, (front + name).len() as int)),
{
    let s = front + name;
    let a = front.len() as int;
    let n = s.len() as int;
    assert forall|k: int| a <= k < n implies #[trigger] s[k] != '/' by {
        assert(s[k] == name[k - a]);
        assert(name.contains(name[k - a]));
    }
    lemma_component_is(s, n, a);
    if n - a == 1 && s[a] == '.' {
        assert(name =~= seq!['.']);
    }
    if n - a == 2 && s[a] == '.' && s[a + 1] == '.' {
        assert(name =~= seq!['.', '.']);
    }
}

/// The file name of a path is what follows its last separator.
pub proof fn law_file_name_is_the_last_component(front: Seq<char>, name: Seq<char>)
    requires
        front.len() == 0 || front.last() == '/',
        plain(name),
    ensures
        file_name(front + name) == Some(name),
{
    lemma_plain_span(front, name);
    let s = front + name;
    assert(s.subrange(front.len() as int, s.len() as int) =~= name);
}

proof fn lemma_same_front(s: Seq<char>, t: Seq<char>, end: int)
    requires
        0 <= end <= s.len(),
        end <= t.len(),
        forall|k: int| 0 <= k < end ==> #[trigger] s[k] == t[k],
    ensures
        component_start(s, end) == component_start(t, end),
        name_span_to(s, end) == name_span_to(t, end),
    decreases end,
{
    lemma_same_start(s, t, end);
    lemma_component_start(s, end);
    let start = component_start(s, end);
    if (start == end || (end - start == 1 && s[start] == '.')) && start > 0 {
        lemma_same_front(s, t, start - 1);
    }
}

proof fn lemma_same_start(s: Seq<char>, t: Seq<char>, end: int)
    requires
        0 <= end <= s.len(),
        end <= t.len(),
        forall|k: int| 0 <= k < end ==> #[trigger] s[k] == t[k],
    ensures
        component_start(s, end) == component_start(t, end),
    decreases end,
{
    if end > 0 {
        assert(s[end - 1] == t[end - 1]);
        if s[end - 1] != '/' {
            lemma_same_start(s, t, end - 1);
        }
    }
}

/// Trailing separators and `.` components carry no meaning; `..` at the end
/// leaves no file name, and the empty path has none.
pub proof fn law_trailing_components(s: Seq<char>)
    ensures
        file_name(s.push('/')) == file_name(s),
        file_name(s + seq!['/', '.']) == file_name(s),
        file_name(s + seq!['/', '.', '.']) is None,
        file_name(Seq::empty()) is None,
        file_name(seq!['.']) is None,
        file_name(seq!['.', '.']) is None,
{
    let n = s.len() as int;
    let slash = s.push('/');
    lemma_component_is(slash, n + 1, n + 1);
    lemma_same_front(s, slash, n);
    lemma_name_span(s, n);
    if let Some((a, b)) = name_span(s) {
        assert(slash.subrange(a, b) =~= s.subrange(a, b));
    }
    let dot = s + seq!['/', '.'];
    assert(dot[n] == '/' && dot[n + 1] == '.');
    lemma_component_is(dot, n + 2, n + 1);
    lemma_same_front(s, dot, n);
    if let Some((a, b)) = name_span(s) {
        assert(dot.subrange(a, b) =~= s.subrange(a, b));
    }
    let up = s + seq!['/', '.', '.'];
    assert(up[n] == '/' && up[n + 1] == '.' && up[n + 2] == '.');
    lemma_component_is(up, n + 3, n + 1);
    lemma_component_is(seq!['.'], 1, 0);
    lemma_component_is(seq!['.', '.'], 2, 0);
}

proof fn lemma_no_dot(s: Seq<char>, a: int, b: int)
    requires
        0 <= a <= b <= s.len(),
        forall|k: int| a < k < b ==> #[trigger] s[k] != '.',
    ensures
        last_dot(s, a, b) == a,
    decreases b - a,
{
    if b > a + 1 {
        lemma_no_dot(s, a, b - 1);
    }
}

/// A file name is its stem, a dot and its extension: the last dot cuts it, and
/// replacing the extension keeps everything before that dot.
pub proof fn law_names_are_stem_and_extension(
    front: Seq<char>,
    stem: Seq<char>,
    ext: Seq<char>,
    other: Seq<char>,
)
    requires
        front.len() == 0 || front.last() == '/',
        stem.len() > 0,
        plain(stem + seq!['.'] + ext),
        !ext.contains('.'),
        other.len() > 0,
    ensures
        ({
            let s = front + (stem + seq!['.'] + ext);
            &&& file_stem(s) == Some(stem)
            &&& extension(s) == Some(ext)
            &&& with_extension(s, other) == front + stem + seq!['.'] + other
            &&& with_extension(s, Seq::empty()) == front + stem
        }),
{
    let name = stem + seq!['.'] + ext;
    let s = front + name;
    lemma_plain_span(front, name);
    let a = front.len() as int;
    let n = s.len() as int;
    let dot = (a + stem.len()) as int;
    assert(s[dot] == name[stem.len() as int]);
    assert forall|k: int| dot < k < n implies #[trigger] s[k] != '.' by {
        assert(s[k] == ext[k - dot - 1]);
        assert(ext.contains(ext[k - dot - 1]));
    }
    lemma_last_dot_is(s, a, n, dot);
    assert(s.subrange(a, dot) =~= stem);
    assert(s.subrange(dot + 1, n) =~= ext);
    assert(s.take(dot) =~= front + stem);
}

/// A file name without a dot behind its first character is all stem: it has no
/// extension, and one is added behind it.
pub proof fn law_names_without_a_dot_are_all_stem(
    front: Seq<char>,
    name: Seq<char>,
    other: Seq<char>,
)
    requires
        front.len() == 0 || front.last() == '/',
        plain(name),
        forall|k: int| 0 < k < name.len() ==> #[trigger] name[k] != '.',
        other.len() > 0,
    ensures
        file_stem(front + name) == Some(name),
        extension(front + name) is None,
        with_extension(front + name, other) == front + name + seq!['.'] + other,
        with_extension(front + name, Seq::empty()) == front + name,
{
    let s = front + name;
    lemma_plain_span(front, name);
    let a = front.len() as int;
    let n = s.len() as int;
    assert forall|k: int| a < k < n implies #[trigger] s[k] != '.' by {
        assert(s[k] == name[k - a]);
    }
    lemma_no_dot(s, a, n);
    assert(s.subrange(a, n) =~= name);
    assert(s.take(n) =~= s);
}

/// A name inside a directory is the directory, one separator and the name, and
/// is the file name of the path; an absolute path stands alone.
pub proof fn law_joined_paths(dir: Seq<char>, name: Seq<char>, absolute: Seq<char>)
    requires
        plain(name),
        absolute.len() > 0,
        absolute[0] == '/',
    ensures
        file_name(joined(dir, name)) == Some(name),
        dir.len() > 0 && dir.last() != '/' ==> joined(dir, name) == dir + seq!['/'] + name,
        dir.len() > 0 && dir.last() == '/' ==> joined(dir, name) == dir + name,
        dir.len() == 0 ==> joined(dir, name) == name,
        joined(dir, absolute) == absolute,
{
    assert(name.contains(name[0]));
    if dir.len() == 0 || dir.last() == '/' {
        law_file_name_is_the_last_component(dir, name);
        assert(dir.len() == 0 ==> dir + name =~= name);
    } else {
        law_file_name_is_the_last_component(dir + seq!['/'], name);
        assert(dir + seq!['/'] + name =~= (dir + seq!['/']) + name);
    }
}

/// Joining nothing to a directory only closes it with a separator.
pub proof fn law_joining_nothing(dir: Seq<char>)
    ensures
        dir.len() > 0 && dir.last() != '/' ==> joined(dir, Seq::empty()) == dir.push('/'),
        dir.len() == 0 || dir.last() == '/' ==> joined(dir, Seq::empty()) == dir,
{
    assert(dir + Seq::<char>::empty() =~= dir);
    assert(dir + seq!['/'] + Seq::<char>::empty() =~= dir.push('/'));
}

} // verus!
