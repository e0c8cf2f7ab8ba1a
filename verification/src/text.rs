//! Text as sequences of characters: the small operations that the rest of the
//! crate reads refs, listings and lessons with.

use vstd::prelude::*;

verus! {

// ------------------------------------------------------------------ models

/// The views of the elements of a sequence.
pub open spec fn views<T: View>(s: Seq<T>) -> Seq<T::V> {
    s.map_values(|t: T| t@)
}

/// The view of an optional value.
pub open spec fn opt_view<T: View>(o: Option<T>) -> Option<T::V> {
    match o {
        Some(t) => Some(t@),
        None => None,
    }
}

pub proof fn lemma_views_push<T: View>(s: Seq<T>, t: T)
    ensures
        views(s.push(t)) == views(s).push(t@),
{
    assert(views(s.push(t)) =~= views(s).push(t@));
}

// ------------------------------------------------------- the standard library

/// `String::push` appends one character.
pub assume_specification[ String::push ](s: &mut String, c: char)
    ensures
        final(s)@ == old(s)@.push(c),
;

/// Two string slices are equal exactly when they hold the same characters.
pub assume_specification[ <str as PartialEq>::eq ](a: &str, b: &str) -> (r: bool)
    ensures
        r == (a@ == b@),
;

/// Whether a character has the Unicode `White_Space` property.
pub open spec fn white_space(c: char) -> bool {
    ||| '\u{9}' <= c <= '\u{d}'
    ||| c == '\u{20}'
    ||| c == '\u{85}'
    ||| c == '\u{a0}'
    ||| c == '\u{1680}'
    ||| '\u{2000}' <= c <= '\u{200a}'
    ||| c == '\u{2028}'
    ||| c == '\u{2029}'
    ||| c == '\u{202f}'
    ||| c == '\u{205f}'
    ||| c == '\u{3000}'
}

/// `char::is_whitespace`: whether the character has the `White_Space` property.
#[verifier::external_body]
pub(crate) fn is_white(c: char) -> (r: bool)
    ensures
        r == white_space(c),
{
    c.is_whitespace()
}

/// Whether a character is alphabetic or numeric in Unicode's sense.
pub uninterp spec fn alphanumeric(c: char) -> bool;

/// `char::is_alphanumeric`: the result is a property of the character alone.
#[verifier::external_body]
pub(crate) fn is_alphanumeric(c: char) -> (r: bool)
    ensures
        r == alphanumeric(c),
{
    c.is_alphanumeric()
}

/// The lowercase equivalent of a text, under Unicode's rules.
pub uninterp spec fn lowercased(s: Seq<char>) -> Seq<char>;

/// `str::to_lowercase`: the result is a function of the text alone.
#[verifier::external_body]
pub(crate) fn to_lowercase(s: &str) -> (r: String)
    ensures
        r@ == lowercased(s@),
{
    s.to_lowercase()
}

/// A text in double quotes with the escapes of `{:?}`.
pub uninterp spec fn quoted(s: Seq<char>) -> Seq<char>;

/// `{:?}` on a string slice: the result is a function of the text alone.
#[verifier::external_body]
pub(crate) fn quote(s: &str) -> (r: String)
    ensures
        r@ == quoted(s@),
{
    format!("{:?}", s)
}

// -------------------------------------------------------------- characters

/// The characters of a text.
pub fn chars_of(s: &str) -> (v: Vec<char>)
    ensures
        v@ == s@,
{
    let mut v: Vec<char> = Vec::new();
    for c in it: s.chars()
        invariant
            v@ == it.seq().take(it.index()),
            it.seq() == s@,
    {
        v.push(c);
    }
    v
}

/// The text made of the characters from position `from` up to `to`.
pub fn text_of(v: &Vec<char>, from: usize, to: usize) -> (s: String)
    requires
        from <= to <= v@.len(),
    ensures
        s@ == v@.subrange(from as int, to as int),
{
    let mut s = String::new();
    let mut i: usize = from;
    while i < to
        invariant
            from <= i <= to <= v@.len(),
            s@ == v@.subrange(from as int, i as int),
        decreases to - i,
    {
        s.push(v[i]);
        assert(v@.subrange(from as int, i as int).push(v@[i as int]) =~= v@.subrange(
            from as int,
            i + 1,
        ));
        i += 1;
    }
    s
}

/// Copies a list of texts.
pub fn copy_texts(v: &Vec<String>) -> (r: Vec<String>)
    ensures
        views(r@) == views(v@),
        r@.len() == v@.len(),
{
    let mut r: Vec<String> = Vec::new();
    for i in 0..v.len()
        invariant
            r@.len() == i,
            forall|j: int| 0 <= j < i ==> (#[trigger] r@[j])@ == v@[j]@,
    {
        r.push(v[i].clone());
    }
    assert(views(r@) =~= views(v@));
    r
}

/// Copies an optional text.
pub fn copy_opt(o: &Option<String>) -> (r: Option<String>)
    ensures
        opt_view(r) == opt_view(*o),
{
    match o {
        Some(s) => Some(s.clone()),
        None => None,
    }
}

/// Whether a list of texts holds the given text.
pub fn holds(v: &Vec<String>, s: &str) -> (r: bool)
    ensures
        r == views(v@).contains(s@),
{
    for i in 0..v.len()
        invariant
            forall|j: int| 0 <= j < i ==> (#[trigger] v@[j])@ != s@,
    {
        if *v[i].as_str() == *s {
            assert(views(v@)[i as int] == s@);
            return true;
        }
    }
    assert forall|j: int| 0 <= j < views(v@).len() implies views(v@)[j] != s@ by {
        assert(v@[j]@ != s@);
    }
    false
}

// ------------------------------------------------------------------- order

/// The order of texts: by the first character in which they differ, a proper
/// prefix before the longer text. It is the order of `String` and `str`.
pub open spec fn lex_lt(a: Seq<char>, b: Seq<char>) -> bool
    decreases a.len(),
{
    if b.len() == 0 {
        false
    } else if a.len() == 0 {
        true
    } else if a[0] == b[0] {
        lex_lt(a.drop_first(), b.drop_first())
    } else {
        (a[0] as int) < (b[0] as int)
    }
}

/// No text precedes itself.
pub proof fn law_lex_irreflexive(a: Seq<char>)
    ensures
        !lex_lt(a, a),
    decreases a.len(),
{
    if a.len() > 0 {
        law_lex_irreflexive(a.drop_first());
    }
}

/// The order of texts is transitive.
pub proof fn law_lex_transitive(a: Seq<char>, b: Seq<char>, c: Seq<char>)
    requires
        lex_lt(a, b),
        lex_lt(b, c),
    ensures
        lex_lt(a, c),
    decreases a.len(),
{
    if a.len() > 0 && a[0] == b[0] && b[0] == c[0] {
        law_lex_transitive(a.drop_first(), b.drop_first(), c.drop_first());
    }
}

/// Of two different texts one precedes the other.
pub proof fn law_lex_total(a: Seq<char>, b: Seq<char>)
    ensures
        lex_lt(a, b) || lex_lt(b, a) || a == b,
    decreases a.len(),
{
    if a.len() == 0 || b.len() == 0 {
        if a.len() == 0 && b.len() == 0 {
            assert(a =~= b);
        }
    } else if a[0] == b[0] {
        law_lex_total(a.drop_first(), b.drop_first());
        if a.drop_first() == b.drop_first() {
            assert(a =~= seq![a[0]] + a.drop_first());
            assert(b =~= seq![b[0]] + b.drop_first());
        }
    }
}

/// Whether the first text precedes the second.
pub fn precedes(a: &str, b: &str) -> (r: bool)
    ensures
        r == lex_lt(a@, b@),
{
    let x = chars_of(a);
    let y = chars_of(b);
    let mut i: usize = 0;
    assert(x@.skip(0) =~= x@);
    assert(y@.skip(0) =~= y@);
    while i < x.len() && i < y.len()
        invariant
            x@ == a@,
            y@ == b@,
            i <= x@.len(),
            i <= y@.len(),
            lex_lt(a@, b@) == lex_lt(x@.skip(i as int), y@.skip(i as int)),
        decreases x@.len() - i,
    {
        if x[i] != y[i] {
            return x[i] < y[i];
        }
        assert(x@.skip(i as int).drop_first() =~= x@.skip(i + 1));
        assert(y@.skip(i as int).drop_first() =~= y@.skip(i + 1));
        i += 1;
    }
    i < y.len()
}

// --------------------------------------------------------------- searching

/// The position of the first `c` in `s`, or the length of `s`.
pub open spec fn find(s: Seq<char>, c: char) -> int
    decreases s.len(),
{
    if s.len() == 0 || s[0] == c {
        0
    } else {
        1 + find(s.drop_first(), c)
    }
}

pub proof fn lemma_find(s: Seq<char>, c: char, k: int)
    requires
        0 <= k <= s.len(),
        forall|j: int| 0 <= j < k ==> s[j] != c,
        k < s.len() ==> s[k] == c,
    ensures
        find(s, c) == k,
    decreases s.len(),
{
    if k > 0 {
        lemma_find(s.drop_first(), c, k - 1);
    }
}

pub proof fn lemma_find_bounds(s: Seq<char>, c: char)
    ensures
        0 <= find(s, c) <= s.len(),
        find(s, c) < s.len() ==> s[find(s, c)] == c,
        forall|j: int| 0 <= j < find(s, c) ==> s[j] != c,
    decreases s.len(),
{
    if s.len() > 0 && s[0] != c {
        lemma_find_bounds(s.drop_first(), c);
        assert forall|j: int| 0 <= j < find(s, c) implies s[j] != c by {
            if j > 0 {
                assert(s[j] == s.drop_first()[j - 1]);
            }
        }
    }
}

/// The first position of `c` at or after `from`, or the length.
fn find_from(v: &Vec<char>, from: usize, c: char) -> (k: usize)
    requires
        from <= v@.len(),
    ensures
        from <= k <= v@.len(),
        k - from == find(v@.skip(from as int), c),
        k < v@.len() ==> v@[k as int] == c,
        forall|j: int| from <= j < k ==> v@[j] != c,
{
    let mut k: usize = from;
    while k < v.len() && v[k] != c
        invariant
            from <= k <= v@.len(),
            forall|j: int| from <= j < k ==> v@[j] != c,
        decreases v@.len() - k,
    {
        k += 1;
    }
    proof {
        lemma_find(v@.skip(from as int), c, k - from);
    }
    k
}

/// The part of a text before the first `c`; the whole text if it has none.
pub open spec fn before(s: Seq<char>, c: char) -> Seq<char> {
    s.take(find(s, c))
}

/// The part of a text before the first `c`.
pub fn text_before(s: &str, c: char) -> (r: String)
    ensures
        r@ == before(s@, c),
{
    let v = chars_of(s);
    let k = find_from(&v, 0, c);
    assert(v@.skip(0) =~= v@);
    text_of(&v, 0, k)
}

/// Whether a text begins with another.
pub fn starts_with(s: &str, p: &str) -> (r: bool)
    ensures
        r == p@.is_prefix_of(s@),
{
    let v = chars_of(s);
    let w = chars_of(p);
    begins_at(&v, 0, &w)
}

/// Whether the characters of `w` stand in `v` from position `from` on.
fn begins_at(v: &Vec<char>, from: usize, w: &Vec<char>) -> (r: bool)
    requires
        from <= v@.len(),
    ensures
        r == w@.is_prefix_of(v@.skip(from as int)),
{
    if v.len() - from < w.len() {
        return false;
    }
    for i in 0..w.len()
        invariant
            from + w@.len() <= v@.len() <= usize::MAX,
            forall|j: int| 0 <= j < i ==> w@[j] == v@[from + j],
    {
        if v[from + i] != w[i] {
            assert(v@.skip(from as int)[i as int] != w@[i as int]);
            return false;
        }
    }
    assert(w@ =~= v@.skip(from as int).take(w@.len() as int));
    true
}

/// Whether a text stands somewhere in another.
pub open spec fn occurs(p: Seq<char>, s: Seq<char>) -> bool {
    exists|i: int| 0 <= i <= s.len() && p.is_prefix_of(#[trigger] s.skip(i))
}

/// Whether a text stands somewhere in another.
pub fn occurs_in(p: &str, s: &str) -> (r: bool)
    ensures
        r == occurs(p@, s@),
{
    let v = chars_of(s);
    let w = chars_of(p);
    for i in 0..v.len()
        invariant
            v@ == s@,
            w@ == p@,
            forall|j: int| 0 <= j < i ==> !p@.is_prefix_of(#[trigger] s@.skip(j)),
    {
        if begins_at(&v, i, &w) {
            return true;
        }
    }
    begins_at(&v, v.len(), &w)
}

/// Whether a text ends with another.
pub fn ends_with(s: &str, p: &str) -> (r: bool)
    ensures
        r == p@.is_suffix_of(s@),
{
    let v = chars_of(s);
    let w = chars_of(p);
    if v.len() < w.len() {
        return false;
    }
    let from: usize = v.len() - w.len();
    let r = begins_at(&v, from, &w);
    assert(v@.skip(from as int).take(w@.len() as int) =~= v@.skip(from as int));
    r
}

/// What remains of a text after every leading copy of `p` is taken off.
pub open spec fn without_leading(s: Seq<char>, p: Seq<char>) -> Seq<char>
    decreases s.len(),
{
    if p.len() > 0 && p.is_prefix_of(s) {
        without_leading(s.skip(p.len() as int), p)
    } else {
        s
    }
}

/// Takes every leading copy of `p` off a text.
pub fn strip_leading(s: &str, p: &str) -> (r: String)
    ensures
        r@ == without_leading(s@, p@),
{
    let v = chars_of(s);
    let w = chars_of(p);
    let mut from: usize = 0;
    assert(v@.skip(0) =~= v@);
    while w.len() > 0 && begins_at(&v, from, &w)
        invariant
            v@ == s@,
            w@ == p@,
            from <= v@.len(),
            without_leading(s@, p@) == without_leading(v@.skip(from as int), p@),
        decreases v@.len() - from,
    {
        assert(v@.skip(from as int).skip(w@.len() as int) =~= v@.skip(from + w@.len()));
        assert(from + w@.len() <= v.len());
        from += w.len();
    }
    assert(v@.subrange(from as int, v@.len() as int) =~= v@.skip(from as int));
    text_of(&v, from, v.len())
}

// ---------------------------------------------------------------- trimming

/// A text without its leading white space.
pub open spec fn trim_front(s: Seq<char>) -> Seq<char>
    decreases s.len(),
{
    if s.len() > 0 && white_space(s[0]) {
        trim_front(s.drop_first())
    } else {
        s
    }
}

/// A text without its trailing white space.
pub open spec fn trim_back(s: Seq<char>) -> Seq<char>
    decreases s.len(),
{
    if s.len() > 0 && white_space(s.last()) {
        trim_back(s.drop_last())
    } else {
        s
    }
}

/// A text without its leading and trailing white space.
pub open spec fn trimmed(s: Seq<char>) -> Seq<char> {
    trim_back(trim_front(s))
}

/// Whether a text holds nothing but white space.
pub open spec fn blank(s: Seq<char>) -> bool {
    forall|i: int| 0 <= i < s.len() ==> white_space(#[trigger] s[i])
}

/// A text is blank exactly when trimming leaves nothing of it.
pub proof fn law_blank_trims_to_nothing(s: Seq<char>)
    ensures
        blank(s) <==> trimmed(s).len() == 0,
{
    lemma_trim_front_blank(s);
    let t = trim_front(s);
    if t.len() > 0 {
        lemma_trim_front_head(s);
        lemma_trim_back_keeps(t, 0);
    }
}

proof fn lemma_trim_front_blank(s: Seq<char>)
    ensures
        blank(s) <==> trim_front(s).len() == 0,
    decreases s.len(),
{
    if s.len() > 0 && white_space(s[0]) {
        lemma_trim_front_blank(s.drop_first());
        if blank(s.drop_first()) {
            assert forall|i: int| 0 <= i < s.len() implies white_space(#[trigger] s[i]) by {
                if i > 0 {
                    assert(s[i] == s.drop_first()[i - 1]);
                }
            }
        }
        if blank(s) {
            assert forall|i: int| 0 <= i < s.drop_first().len() implies white_space(
                #[trigger] s.drop_first()[i],
            ) by {
                assert(s.drop_first()[i] == s[i + 1]);
            }
        }
    }
}

proof fn lemma_trim_front_head(s: Seq<char>)
    ensures
        trim_front(s).len() > 0 ==> !white_space(trim_front(s)[0]),
    decreases s.len(),
{
    if s.len() > 0 && white_space(s[0]) {
        lemma_trim_front_head(s.drop_first());
    }
}

proof fn lemma_trim_back_keeps(s: Seq<char>, k: int)
    requires
        0 <= k < s.len(),
        !white_space(s[k]),
    ensures
        trim_back(s).len() > k,
    decreases s.len(),
{
    if white_space(s.last()) {
        lemma_trim_back_keeps(s.drop_last(), k);
    }
}

/// The first position at or after `from` that holds no white space.
fn skip_white(v: &Vec<char>, from: usize) -> (k: usize)
    requires
        from <= v@.len(),
    ensures
        from <= k <= v@.len(),
        v@.skip(k as int) == trim_front(v@.skip(from as int)),
        k < v@.len() ==> !white_space(v@[k as int]),
{
    let mut k: usize = from;
    while k < v.len() && is_white(v[k])
        invariant
            from <= k <= v@.len(),
            trim_front(v@.skip(k as int)) == trim_front(v@.skip(from as int)),
        decreases v@.len() - k,
    {
        assert(v@.skip(k as int).drop_first() =~= v@.skip(k + 1));
        k += 1;
    }
    k
}

/// The end of the text from `from` up to `to` without trailing white space.
fn back_up(v: &Vec<char>, from: usize, to: usize) -> (k: usize)
    requires
        from <= to <= v@.len(),
    ensures
        from <= k <= to,
        v@.subrange(from as int, k as int) == trim_back(v@.subrange(from as int, to as int)),
{
    let mut k: usize = to;
    while k > from && is_white(v[k - 1])
        invariant
            from <= k <= to <= v@.len(),
            trim_back(v@.subrange(from as int, k as int)) == trim_back(
                v@.subrange(from as int, to as int),
            ),
        decreases k,
    {
        assert(v@.subrange(from as int, k as int).drop_last() =~= v@.subrange(
            from as int,
            k - 1,
        ));
        k -= 1;
    }
    k
}

/// A text without its leading and trailing white space.
pub fn trim(s: &str) -> (r: String)
    ensures
        r@ == trimmed(s@),
{
    let v = chars_of(s);
    let a = skip_white(&v, 0);
    assert(v@.skip(0) =~= v@);
    let b = back_up(&v, a, v.len());
    assert(v@.subrange(a as int, v@.len() as int) =~= v@.skip(a as int));
    text_of(&v, a, b)
}

/// A text without its trailing white space.
pub fn trim_end(s: &str) -> (r: String)
    ensures
        r@ == trim_back(s@),
{
    let v = chars_of(s);
    let b = back_up(&v, 0, v.len());
    assert(v@.subrange(0, v@.len() as int) =~= v@);
    text_of(&v, 0, b)
}

/// Whether a text holds nothing but white space.
pub fn is_blank(s: &str) -> (r: bool)
    ensures
        r == blank(s@),
{
    let v = chars_of(s);
    let a = skip_white(&v, 0);
    assert(v@.skip(0) =~= v@);
    proof {
        lemma_trim_front_blank(v@);
    }
    a == v.len()
}

// --------------------------------------------------------------- splitting

/// A line without the carriage return that stands before its line feed.
pub open spec fn without_return(s: Seq<char>) -> Seq<char> {
    if s.len() > 0 && s.last() == '\r' {
        s.drop_last()
    } else {
        s
    }
}

/// The lines of a text. A line ends at a line feed, or at a carriage return
/// and a line feed; the last line needs neither.
pub open spec fn lines_of(s: Seq<char>) -> Seq<Seq<char>>
    decreases s.len(),
{
    let k = find(s, '\n');
    if s.len() == 0 {
        Seq::empty()
    } else if k < s.len() {
        proof {
            lemma_find_bounds(s, '\n');
        }
        seq![without_return(s.take(k))] + lines_of(s.skip(k + 1))
    } else {
        seq![s]
    }
}

/// A text without line feeds is one line.
pub proof fn lemma_one_line(s: Seq<char>)
    requires
        s.len() > 0,
        !s.contains('\n'),
    ensures
        lines_of(s) == seq![s],
{
    assert forall|j: int| 0 <= j < s.len() implies s[j] != '\n' by {
        assert(s.contains(s[j]));
    }
    lemma_find(s, '\n', s.len() as int);
}

/// The lines of a text that ends in a line feed stay when more follows.
pub proof fn lemma_lines_append(a: Seq<char>, b: Seq<char>)
    ensures
        lines_of(a.push('\n') + b) == lines_of(a.push('\n')) + lines_of(b),
    decreases a.len(),
{
    let ended = a.push('\n');
    let all = ended + b;
    lemma_find_bounds(ended, '\n');
    let k = find(ended, '\n');
    assert(ended[a.len() as int] == '\n');
    assert forall|j: int| 0 <= j < k implies all[j] != '\n' by {
        assert(ended[j] != '\n');
    }
    lemma_find(all, '\n', k);
    assert(all.take(k) =~= ended.take(k));
    if k < a.len() {
        let rest = a.skip(k + 1);
        assert(ended.skip(k + 1) =~= rest.push('\n'));
        assert(all.skip(k + 1) =~= rest.push('\n') + b);
        lemma_lines_append(rest, b);
        assert(lines_of(all) =~= lines_of(ended) + lines_of(b));
    } else {
        assert(ended.skip(k + 1) =~= Seq::<char>::empty());
        assert(lines_of(ended.skip(k + 1)) =~= Seq::<Seq<char>>::empty());
        assert(all.skip(k + 1) =~= b);
        assert(lines_of(all) =~= lines_of(ended) + lines_of(b));
    }
}

/// The lines of a text.
pub fn lines(s: &str) -> (r: Vec<String>)
    ensures
        views(r@) == lines_of(s@),
{
    let v = chars_of(s);
    let mut r: Vec<String> = Vec::new();
    let mut from: usize = 0;
    assert(v@.skip(0) =~= v@);
    assert(views(r@) + lines_of(v@) =~= lines_of(v@));
    while from < v.len()
        invariant
            v@ == s@,
            from <= v@.len(),
            views(r@) + lines_of(v@.skip(from as int)) == lines_of(s@),
        decreases v@.len() - from,
    {
        let ghost rest = v@.skip(from as int);
        let k = find_from(&v, from, '\n');
        let ghost done = views(r@);
        if k == v.len() {
            assert(v@.subrange(from as int, k as int) =~= rest);
            let line = text_of(&v, from, k);
            r.push(line);
            assert(views(r@) =~= done + seq![rest]);
            assert(views(r@) == lines_of(s@));
            return r;
        }
        assert(rest.take(k - from) =~= v@.subrange(from as int, k as int));
        assert(rest.skip(k - from + 1) =~= v@.skip(k + 1));
        let mut end: usize = k;
        if k > from && v[k - 1] == '\r' {
            end = k - 1;
            assert(rest.take(k - from).drop_last() =~= v@.subrange(from as int, end as int));
        }
        let line = text_of(&v, from, end);
        r.push(line);
        assert(views(r@) =~= done + seq![without_return(rest.take(k - from))]);
        assert(done + (seq![without_return(rest.take(k - from))] + lines_of(v@.skip(k + 1)))
            =~= views(r@) + lines_of(v@.skip(k + 1)));
        from = k + 1;
    }
    assert(v@.skip(from as int) =~= Seq::<char>::empty());
    assert(views(r@) =~= lines_of(s@));
    r
}

/// The three fields of a record whose separator is the null character: the
/// third field runs to the end. Nothing if there are fewer than three.
pub open spec fn three_fields(s: Seq<char>) -> Option<(Seq<char>, Seq<char>, Seq<char>)> {
    let i = find(s, '\0');
    let rest = s.skip(i + 1);
    let j = find(rest, '\0');
    if i < s.len() && j < rest.len() {
        Some((s.take(i), rest.take(j), rest.skip(j + 1)))
    } else {
        None
    }
}

/// Splits a record at its first two null characters.
pub fn split_fields(s: &str) -> (r: Option<(String, String, String)>)
    ensures
        match r {
            Some(f) => three_fields(s@) == Some((f.0@, f.1@, f.2@)),
            None => three_fields(s@) is None,
        },
{
    let v = chars_of(s);
    assert(v@.skip(0) =~= v@);
    let i = find_from(&v, 0, '\0');
    if i == v.len() {
        return None;
    }
    let j = find_from(&v, i + 1, '\0');
    let ghost rest = v@.skip(i + 1);
    if j == v.len() {
        return None;
    }
    assert(rest.take(j - i - 1) =~= v@.subrange(i + 1, j as int));
    assert(rest.skip(j - i) =~= v@.subrange(j + 1, v@.len() as int));
    Some((text_of(&v, 0, i), text_of(&v, i + 1, j), text_of(&v, j + 1, v.len())))
}

/// The length of the run without white space that a text begins with.
pub open spec fn word_len(s: Seq<char>) -> int
    decreases s.len(),
{
    if s.len() == 0 || white_space(s[0]) {
        0
    } else {
        1 + word_len(s.drop_first())
    }
}

pub proof fn lemma_word_len_bounds(s: Seq<char>)
    ensures
        0 <= word_len(s) <= s.len(),
        s.len() > 0 && !white_space(s[0]) ==> word_len(s) > 0,
    decreases s.len(),
{
    if s.len() > 0 && !white_space(s[0]) {
        lemma_word_len_bounds(s.drop_first());
    }
}

pub proof fn lemma_trim_front_shrinks(s: Seq<char>)
    ensures
        trim_front(s).len() <= s.len(),
        trim_front(s).len() > 0 ==> !white_space(trim_front(s)[0]),
    decreases s.len(),
{
    if s.len() > 0 && white_space(s[0]) {
        lemma_trim_front_shrinks(s.drop_first());
    }
}

/// The words of a text: its maximal runs without white space.
pub open spec fn words_of(s: Seq<char>) -> Seq<Seq<char>>
    decreases s.len(),
{
    let t = trim_front(s);
    if t.len() == 0 {
        Seq::empty()
    } else {
        proof {
            lemma_trim_front_shrinks(s);
            lemma_word_len_bounds(t);
        }
        seq![t.take(word_len(t))] + words_of(t.skip(word_len(t)))
    }
}

/// The end of the word that begins at `from`.
fn word_end(v: &Vec<char>, from: usize) -> (k: usize)
    requires
        from <= v@.len(),
    ensures
        from <= k <= v@.len(),
        k - from == word_len(v@.skip(from as int)),
{
    let mut k: usize = from;
    while k < v.len() && !is_white(v[k])
        invariant
            from <= k <= v@.len(),
            word_len(v@.skip(from as int)) == (k - from) + word_len(v@.skip(k as int)),
        decreases v@.len() - k,
    {
        assert(v@.skip(k as int).drop_first() =~= v@.skip(k + 1));
        k += 1;
    }
    k
}

/// The words of a text.
pub fn words(s: &str) -> (r: Vec<String>)
    ensures
        views(r@) == words_of(s@),
{
    let v = chars_of(s);
    let mut r: Vec<String> = Vec::new();
    let mut from: usize = 0;
    assert(v@.skip(0) =~= v@);
    assert(views(r@) + words_of(v@) =~= words_of(v@));
    loop
        invariant
            v@ == s@,
            from <= v@.len(),
            views(r@) + words_of(v@.skip(from as int)) == words_of(s@),
        decreases v@.len() - from,
    {
        let ghost rest = v@.skip(from as int);
        let a = skip_white(&v, from);
        if a == v.len() {
            assert(trim_front(rest).len() == 0);
            assert(views(r@) + words_of(rest) =~= views(r@));
            return r;
        }
        let b = word_end(&v, a);
        let ghost t = v@.skip(a as int);
        let ghost done = views(r@);
        proof {
            lemma_word_len_bounds(t);
        }
        assert(t.take(b - a) =~= v@.subrange(a as int, b as int));
        assert(t.skip(b - a) =~= v@.skip(b as int));
        let word = text_of(&v, a, b);
        r.push(word);
        assert(views(r@) =~= done + seq![t.take(b - a)]);
        assert(done + (seq![t.take(b - a)] + words_of(v@.skip(b as int))) =~= views(r@) + words_of(
            v@.skip(b as int),
        ));
        from = b;
    }
}

/// The first word of a text, if it has one.
pub open spec fn first_word_of(s: Seq<char>) -> Option<Seq<char>> {
    if words_of(s).len() > 0 {
        Some(words_of(s)[0])
    } else {
        None
    }
}

/// The first word of a text.
pub fn first_word(s: &str) -> (r: Option<String>)
    ensures
        opt_view(r) == first_word_of(s@),
{
    let w = words(s);
    if w.len() > 0 {
        assert(views(w@)[0] == w@[0]@);
        Some(w[0].clone())
    } else {
        None
    }
}

// ----------------------------------------------------------------- joining

/// The parts one after another, with the separator between neighbours.
pub open spec fn joined(parts: Seq<Seq<char>>, sep: Seq<char>) -> Seq<char>
    decreases parts.len(),
{
    if parts.len() == 0 {
        Seq::empty()
    } else if parts.len() == 1 {
        parts[0]
    } else {
        joined(parts.drop_last(), sep) + (sep + parts.last())
    }
}

/// Joins the parts with a separator.
pub fn join(parts: &Vec<String>, sep: &str) -> (r: String)
    ensures
        r@ == joined(views(parts@), sep@),
{
    let mut r = String::new();
    let ghost all = views(parts@);
    for i in 0..parts.len()
        invariant
            all == views(parts@),
            r@ == joined(all.take(i as int), sep@),
    {
        assert(all.take(i + 1).drop_last() =~= all.take(i as int));
        assert(all[i as int] == parts@[i as int]@);
        if i > 0 {
            let ghost so_far = r@;
            r.append(sep);
            r.append(parts[i].as_str());
            assert(r@ =~= so_far + (sep@ + all[i as int]));
        } else {
            r.append(parts[i].as_str());
            assert(r@ =~= all[0]);
        }
    }
    assert(all.take(all.len() as int) =~= all);
    r
}

// ----------------------------------------------------------------- numbers

/// The character of a digit, in bases up to sixteen.
pub open spec fn digit(n: int) -> char {
    if n == 0 {
        '0'
    } else if n == 1 {
        '1'
    } else if n == 2 {
        '2'
    } else if n == 3 {
        '3'
    } else if n == 4 {
        '4'
    } else if n == 5 {
        '5'
    } else if n == 6 {
        '6'
    } else if n == 7 {
        '7'
    } else if n == 8 {
        '8'
    } else if n == 9 {
        '9'
    } else if n == 10 {
        'a'
    } else if n == 11 {
        'b'
    } else if n == 12 {
        'c'
    } else if n == 13 {
        'd'
    } else if n == 14 {
        'e'
    } else {
        'f'
    }
}

/// Writes one digit.
pub fn digit_char(n: u64) -> (c: char)
    requires
        n < 16,
    ensures
        c == digit(n as int),
{
    match n {
        0 => '0',
        1 => '1',
        2 => '2',
        3 => '3',
        4 => '4',
        5 => '5',
        6 => '6',
        7 => '7',
        8 => '8',
        9 => '9',
        10 => 'a',
        11 => 'b',
        12 => 'c',
        13 => 'd',
        14 => 'e',
        _ => 'f',
    }
}

/// A number in decimal notation.
pub open spec fn decimal(n: nat) -> Seq<char>
    decreases n,
{
    if n < 10 {
        seq![digit(n as int)]
    } else {
        decimal(n / 10).push(digit((n % 10) as int))
    }
}

/// Writes a number in decimal notation.
pub fn decimal_text(n: u64) -> (r: String)
    ensures
        r@ == decimal(n as nat),
    decreases n,
{
    if n < 10 {
        let mut r = String::new();
        r.push(digit_char(n));
        assert(r@ =~= seq![digit(n as int)]);
        r
    } else {
        let mut r = decimal_text(n / 10);
        r.push(digit_char(n % 10));
        r
    }
}

/// A signed number in decimal notation.
pub open spec fn signed_decimal(n: int) -> Seq<char> {
    if n < 0 {
        seq!['-'] + decimal((-n) as nat)
    } else {
        decimal(n as nat)
    }
}

/// Writes a signed number in decimal notation.
pub fn signed_decimal_text(n: i64) -> (r: String)
    ensures
        r@ == signed_decimal(n as int),
{
    if n < 0 {
        let mut r = String::new();
        r.push('-');
        assert(r@ =~= seq!['-']);
        let magnitude: u64 = if n == i64::MIN {
            9223372036854775808
        } else {
            (-n) as u64
        };
        let digits = decimal_text(magnitude);
        r.append(digits.as_str());
        r
    } else {
        decimal_text(n as u64)
    }
}

// -------------------------------------------------------------------- laws

/// Texts are ordered by the first character in which they differ, and a text comes
/// before every longer one that it begins.
pub proof fn law_lex_order(a: Seq<char>, b: Seq<char>, k: int)
    requires
        0 <= k <= a.len(),
        k <= b.len(),
        forall|j: int| 0 <= j < k ==> a[j] == b[j],
    ensures
        k == a.len() && k < b.len() ==> lex_lt(a, b) && !lex_lt(b, a),
        k < a.len() && k < b.len() && (a[k] as int) < (b[k] as int) ==> lex_lt(a, b) && !lex_lt(
            b,
            a,
        ),
        k == a.len() && k == b.len() ==> !lex_lt(a, b),
    decreases k,
{
    if k > 0 {
        assert(a[0] == b[0]);
        law_lex_order(a.drop_first(), b.drop_first(), k - 1);
    }
}

/// Trimming takes white space off the ends and nothing else: what is left stands in
/// the text, only white space stood around it, and neither of its ends is white
/// space.
pub proof fn law_trim(s: Seq<char>)
    ensures
        trim_back(s).is_prefix_of(s),
        blank(s.skip(trim_back(s).len() as int)),
        trim_back(s).len() > 0 ==> !white_space(trim_back(s).last()),
        trim_front(s).is_suffix_of(s),
        blank(s.take(s.len() - trim_front(s).len())),
        trim_front(s).len() > 0 ==> !white_space(trim_front(s)[0]),
        trimmed(s) == trim_back(trim_front(s)),
    decreases s.len(),
{
    lemma_trim_back_splits(s);
    lemma_trim_front_splits(s);
}

proof fn lemma_trim_back_splits(s: Seq<char>)
    ensures
        trim_back(s).is_prefix_of(s),
        blank(s.skip(trim_back(s).len() as int)),
        trim_back(s).len() > 0 ==> !white_space(trim_back(s).last()),
    decreases s.len(),
{
    if s.len() > 0 && white_space(s.last()) {
        let init = s.drop_last();
        lemma_trim_back_splits(init);
        let k = trim_back(init).len() as int;
        assert(s.take(k) =~= init.take(k));
        assert forall|i: int| 0 <= i < s.skip(k).len() implies white_space(
            #[trigger] s.skip(k)[i],
        ) by {
            if i < init.skip(k).len() {
                assert(init.skip(k)[i] == s.skip(k)[i]);
            }
        }
    } else {
        assert(s.take(s.len() as int) =~= s);
    }
}

proof fn lemma_trim_front_splits(s: Seq<char>)
    ensures
        trim_front(s).len() <= s.len(),
        trim_front(s) == s.skip(s.len() - trim_front(s).len()),
        trim_front(s).is_suffix_of(s),
        blank(s.take(s.len() - trim_front(s).len())),
        trim_front(s).len() > 0 ==> !white_space(trim_front(s)[0]),
    decreases s.len(),
{
    if s.len() > 0 && white_space(s[0]) {
        let t = s.drop_first();
        lemma_trim_front_splits(t);
        let k = s.len() - trim_front(s).len();
        assert(s.skip(k) =~= t.skip(k - 1));
        assert forall|i: int| 0 <= i < s.take(k).len() implies white_space(
            #[trigger] s.take(k)[i],
        ) by {
            if i > 0 {
                assert(t.take(k - 1)[i - 1] == s.take(k)[i]);
            }
        }
    } else {
        assert(s.skip(0) =~= s);
    }
    let k = s.len() - trim_front(s).len();
    assert(s.subrange(k, s.len() as int) =~= s.skip(k));
}

/// A text that is one word: it has no white space.
pub open spec fn solid(s: Seq<char>) -> bool {
    forall|i: int| 0 <= i < s.len() ==> !white_space(#[trigger] s[i])
}

proof fn lemma_word_len_solid(s: Seq<char>, k: int)
    requires
        0 <= k <= s.len(),
        forall|i: int| 0 <= i < k ==> !white_space(#[trigger] s[i]),
        k < s.len() ==> white_space(s[k]),
    ensures
        word_len(s) == k,
    decreases s.len(),
{
    if k > 0 {
        let t = s.drop_first();
        assert(!white_space(s[0]));
        assert forall|i: int| 0 <= i < k - 1 implies !white_space(#[trigger] t[i]) by {
            assert(t[i] == s[i + 1]);
        }
        lemma_word_len_solid(t, k - 1);
    }
}

/// What the words of a text are: white space between two texts separates their
/// words, a text without white space is one word unless it is empty, and white
/// space alone has no words.
pub proof fn law_words(a: Seq<char>, gap: char, b: Seq<char>)
    requires
        white_space(gap),
    ensures
        words_of(a.push(gap) + b) == words_of(a) + words_of(b),
        solid(a) && a.len() > 0 ==> words_of(a) == seq![a],
        blank(a) ==> words_of(a) == Seq::<Seq<char>>::empty(),
{
    lemma_words_append(a, gap, b);
    if solid(a) && a.len() > 0 {
        assert(!white_space(a[0]));
        lemma_word_len_solid(a, a.len() as int);
        assert(a.take(a.len() as int) =~= a);
        assert(a.skip(a.len() as int) =~= Seq::<char>::empty());
        assert(words_of(Seq::<char>::empty()) =~= Seq::<Seq<char>>::empty());
        assert(words_of(a) =~= seq![a]);
    }
    if blank(a) {
        lemma_trim_front_blank(a);
    }
}

proof fn lemma_words_append(a: Seq<char>, gap: char, b: Seq<char>)
    requires
        white_space(gap),
    ensures
        words_of(a.push(gap) + b) == words_of(a) + words_of(b),
    decreases a.len(),
{
    let all = a.push(gap) + b;
    if a.len() == 0 {
        assert(all.drop_first() =~= b);
        assert(trim_front(all) == trim_front(b));
        assert(words_of(a) =~= Seq::<Seq<char>>::empty());
        assert(words_of(all) =~= words_of(b));
        assert(words_of(a) + words_of(b) =~= words_of(b));
    } else if white_space(a[0]) {
        let t = a.drop_first();
        lemma_words_append(t, gap, b);
        assert(all.drop_first() =~= t.push(gap) + b);
        assert(trim_front(all) == trim_front(t.push(gap) + b));
        assert(trim_front(a) == trim_front(t));
        assert(words_of(all) =~= words_of(t.push(gap) + b));
        assert(words_of(a) =~= words_of(t));
    } else {
        lemma_word_len_bounds(a);
        lemma_word_run(a);
        let k = word_len(a);
        assert forall|i: int| 0 <= i < k implies !white_space(#[trigger] all[i]) by {
            assert(all[i] == a[i]);
        }
        assert(white_space(all[k]));
        lemma_word_len_solid(all, k);
        assert(all.take(k) =~= a.take(k));
        let rest = a.skip(k);
        assert(all.skip(k) =~= rest.push(gap) + b);
        lemma_words_append(rest, gap, b);
        assert(trim_front(all) == all);
        assert(trim_front(a) == a);
        assert(words_of(all) =~= seq![a.take(k)] + words_of(rest.push(gap) + b));
        assert(words_of(a) =~= seq![a.take(k)] + words_of(rest));
        assert(seq![a.take(k)] + (words_of(rest) + words_of(b)) =~= (seq![a.take(k)] + words_of(
            rest,
        )) + words_of(b));
    }
}

proof fn lemma_word_run(s: Seq<char>)
    ensures
        0 <= word_len(s) <= s.len(),
        forall|i: int| 0 <= i < word_len(s) ==> !white_space(#[trigger] s[i]),
        word_len(s) < s.len() ==> white_space(s[word_len(s)]),
    decreases s.len(),
{
    if s.len() > 0 && !white_space(s[0]) {
        let t = s.drop_first();
        lemma_word_run(t);
        assert forall|i: int| 0 <= i < word_len(s) implies !white_space(#[trigger] s[i]) by {
            if i > 0 {
                assert(s[i] == t[i - 1]);
            }
        }
        if word_len(s) < s.len() {
            assert(t[word_len(t)] == s[word_len(s)]);
        }
    }
}

/// What the lines of a text are: a line feed ends a line, together with a carriage
/// return right before it, and what follows it is read on its own; the last line
/// needs no line feed, and the empty text has no line.
pub proof fn law_lines(a: Seq<char>, b: Seq<char>)
    requires
        !a.contains('\n'),
    ensures
        lines_of(a.push('\n') + b) == seq![
            if a.len() > 0 && a[a.len() - 1] == '\r' {
                a.take(a.len() - 1)
            } else {
                a
            },
        ] + lines_of(b),
        a.len() > 0 ==> lines_of(a) == seq![a],
        lines_of(Seq::empty()) == Seq::<Seq<char>>::empty(),
{
    let all = a.push('\n') + b;
    assert forall|j: int| 0 <= j < a.len() implies all[j] != '\n' by {
        assert(a.contains(a[j]));
    }
    lemma_find(all, '\n', a.len() as int);
    assert(all.take(a.len() as int) =~= a);
    assert(all.skip(a.len() as int + 1) =~= b);
    if a.len() > 0 {
        lemma_one_line(a);
        assert(a.take(a.len() - 1) =~= a.drop_last());
    }
}

/// Joining puts the separator between neighbours and nowhere else.
pub proof fn law_joined(a: Seq<Seq<char>>, b: Seq<Seq<char>>, sep: Seq<char>, one: Seq<char>)
    ensures
        joined(Seq::empty(), sep) == Seq::<char>::empty(),
        joined(seq![one], sep) == one,
        a.len() > 0 && b.len() > 0 ==> joined(a + b, sep) == joined(a, sep) + sep + joined(b, sep),
    decreases b.len(),
{
    if a.len() > 0 && b.len() > 0 {
        assert((a + b).drop_last() =~= a + b.drop_last());
        assert((a + b).last() == b.last());
        if b.len() == 1 {
            assert(a + b.drop_last() =~= a);
            assert(joined(a + b, sep) =~= joined(a, sep) + sep + joined(b, sep));
        } else {
            law_joined(a, b.drop_last(), sep, one);
            assert(joined(a + b, sep) =~= joined(a, sep) + sep + joined(b, sep));
        }
    }
}

/// How numbers are written: a digit as itself, and any larger number as its tenth
/// followed by the digit that is left; a negative number behind a minus sign.
pub proof fn law_decimal(n: nat, d: nat)
    requires
        d < 10,
    ensures
        decimal(d) == seq![('0' as int + d) as char],
        n > 0 ==> decimal(10 * n + d) == decimal(n).push(('0' as int + d) as char),
        signed_decimal(n as int) == decimal(n),
        n > 0 ==> signed_decimal(-n) == seq!['-'] + decimal(n),
{
    assert(digit(d as int) == ('0' as int + d) as char);
    assert((10 * n + d) / 10 == n && (10 * n + d) % 10 == d);
}

/// The characters of the digits: the ten decimal ones, then the letters from `a`.
pub proof fn law_digit(d: int)
    requires
        0 <= d < 16,
    ensures
        d < 10 ==> digit(d) == ('0' as int + d) as char,
        d >= 10 ==> digit(d) == ('a' as int + d - 10) as char,
{
}

/// Three fields that are joined by null characters are read back, the third with
/// whatever it holds; fewer than two null characters do not make three fields.
pub proof fn law_three_fields(a: Seq<char>, b: Seq<char>, c: Seq<char>)
    requires
        !a.contains('\0'),
        !b.contains('\0'),
    ensures
        three_fields(a + seq!['\0'] + b + seq!['\0'] + c) == Some((a, b, c)),
        three_fields(a) is None,
        three_fields(a + seq!['\0'] + b) is None,
{
    assert forall|j: int| 0 <= j < a.len() implies a[j] != '\0' by {
        assert(a.contains(a[j]));
    }
    assert forall|j: int| 0 <= j < b.len() implies b[j] != '\0' by {
        assert(b.contains(b[j]));
    }
    let i = a.len() as int;
    let k = b.len() as int;
    let all = a + seq!['\0'] + b + seq!['\0'] + c;
    lemma_find(all, '\0', i);
    let rest = all.skip(i + 1);
    assert(rest =~= b + seq!['\0'] + c);
    lemma_find(rest, '\0', k);
    assert(all.take(i) =~= a);
    assert(rest.take(k) =~= b);
    assert(rest.skip(k + 1) =~= c);
    lemma_find(a, '\0', i);
    let two = a + seq!['\0'] + b;
    lemma_find(two, '\0', i);
    assert(two.skip(i + 1) =~= b);
    lemma_find(b, '\0', k);
}

/// Every leading copy of a prefix is taken off, and nothing from a text that does
/// not begin with it.
pub proof fn law_without_leading(s: Seq<char>, p: Seq<char>)
    requires
        p.len() > 0,
    ensures
        without_leading(p + s, p) == without_leading(s, p),
        !p.is_prefix_of(s) ==> without_leading(s, p) == s,
{
    assert((p + s).take(p.len() as int) =~= p);
    assert((p + s).skip(p.len() as int) =~= s);
}

/// A text occurs in whatever is put around it, and in nothing else.
pub proof fn law_occurs(a: Seq<char>, p: Seq<char>, b: Seq<char>, s: Seq<char>)
    ensures
        occurs(p, a + p + b),
        occurs(p, s) ==> exists|i: int|
            0 <= i && i + p.len() <= s.len() && #[trigger] s.subrange(i, i + p.len()) == p,
{
    let all = a + p + b;
    let i = a.len() as int;
    assert(p =~= all.skip(i).take(p.len() as int));
    assert(p.is_prefix_of(all.skip(i)));
    if occurs(p, s) {
        let k = choose|k: int| 0 <= k <= s.len() && p.is_prefix_of(#[trigger] s.skip(k));
        assert(s.subrange(k, k + p.len()) =~= s.skip(k).take(p.len() as int));
    }
}

/// The first word of a text is the first of its words, where it has any.
pub proof fn law_first_word(s: Seq<char>)
    ensures
        words_of(s).len() == 0 ==> first_word_of(s) is None,
        words_of(s).len() > 0 ==> first_word_of(s) == Some(words_of(s)[0]),
        first_word_of(s) is None <==> blank(s),
{
    lemma_trim_front_blank(s);
}

/// The views of a list are the views of its elements, in their order, and the view
/// of an optional value is that of the value.
pub proof fn law_views<T: View>(s: Seq<T>, i: int, t: T)
    ensures
        views(s).len() == s.len(),
        0 <= i < s.len() ==> views(s)[i] == s[i]@,
        opt_view(Some(t)) == Some(t@),
        opt_view(None::<T>) is None,
{
}

} // verus!
