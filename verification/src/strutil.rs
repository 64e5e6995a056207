//! Character-level string helpers.
//!
//! Every parser in this crate works over `Vec<char>` buffers whose view is
//! the `Seq<char>` that the contracts speak of. The helpers here convert
//! between `&str` and `Vec<char>` and give the usual trimming, splitting
//! and searching operations exact specifications.

use vstd::prelude::*;

verus! {

/// Copies the characters of a string slice into a vector.
pub fn str_chars(s: &str) -> (v: Vec<char>)
    ensures
        v@ == s@,
{
    let n: usize = s.unicode_len();
    let mut v: Vec<char> = Vec::new();
    let mut i: usize = 0;
    while i < n
        invariant
            i <= n,
            n == s@.len(),
            v@ == s@.subrange(0, i as int),
        decreases n - i,
    {
        v.push(s.get_char(i));
        i = i + 1;
        proof {
            assert(v@ =~= s@.subrange(0, i as int));
        }
    }
    proof {
        assert(v@ =~= s@);
    }
    v
}

/// Relies on `String: FromIterator<char>`: collecting characters yields the
/// string with exactly those characters in order.
#[verifier::external_body]
pub fn chars_string(v: &Vec<char>) -> (s: String)
    ensures
        s@ == v@,
{
    v.iter().collect()
}

/// Whitespace for the trimming done by the line-oriented parsers here:
/// the ASCII blank characters.
pub open spec fn is_space(c: char) -> bool {
    c == ' ' || c == '\t' || c == '\r' || c == '\n'
}

/// Executable form of [`is_space`].
pub fn char_is_space(c: char) -> (r: bool)
    ensures
        r == is_space(c),
{
    c == ' ' || c == '\t' || c == '\r' || c == '\n'
}

/// Number of leading whitespace characters.
pub open spec fn leading_spaces(s: Seq<char>) -> int
    decreases s.len(),
{
    if s.len() == 0 {
        0
    } else if is_space(s[0]) {
        1 + leading_spaces(s.drop_first())
    } else {
        0
    }
}

/// Number of trailing whitespace characters.
pub open spec fn trailing_spaces(s: Seq<char>) -> int
    decreases s.len(),
{
    if s.len() == 0 {
        0
    } else if is_space(s.last()) {
        1 + trailing_spaces(s.drop_last())
    } else {
        0
    }
}

/// The string with leading and trailing whitespace removed.
pub open spec fn trim_spec(s: Seq<char>) -> Seq<char> {
    if leading_spaces(s) == s.len() {
        Seq::empty()
    } else {
        s.subrange(leading_spaces(s), s.len() - trailing_spaces(s))
    }
}

proof fn lemma_leading_spaces_bound(s: Seq<char>)
    ensures
        0 <= leading_spaces(s) <= s.len(),
        forall|i: int| 0 <= i < leading_spaces(s) ==> is_space(s[i]),
        leading_spaces(s) < s.len() ==> !is_space(s[leading_spaces(s)]),
    decreases s.len(),
{
    if s.len() > 0 && is_space(s[0]) {
        lemma_leading_spaces_bound(s.drop_first());
        assert forall|i: int| 0 <= i < leading_spaces(s) implies is_space(s[i]) by {
            if i > 0 {
                assert(s.drop_first()[i - 1] == s[i]);
            }
        }
        if leading_spaces(s) < s.len() {
            assert(s.drop_first()[leading_spaces(s) - 1] == s[leading_spaces(s)]);
        }
    }
}

proof fn lemma_trailing_spaces_bound(s: Seq<char>)
    ensures
        0 <= trailing_spaces(s) <= s.len(),
        forall|i: int| s.len() - trailing_spaces(s) <= i < s.len() ==> is_space(s[i]),
        trailing_spaces(s) < s.len() ==> !is_space(s[s.len() - trailing_spaces(s) - 1]),
    decreases s.len(),
{
    if s.len() > 0 && is_space(s.last()) {
        lemma_trailing_spaces_bound(s.drop_last());
        assert forall|i: int| s.len() - trailing_spaces(s) <= i < s.len() implies is_space(
            s[i],
        ) by {
            if i < s.len() - 1 {
                assert(s.drop_last()[i] == s[i]);
            }
        }
        if trailing_spaces(s) < s.len() {
            assert(s.drop_last()[s.len() - trailing_spaces(s) - 1] == s[s.len() - trailing_spaces(
                s,
            ) - 1]);
        }
    }
}

/// A string equal to its own trim: empty, or blank at neither end.
pub open spec fn is_trimmed(s: Seq<char>) -> bool {
    s.len() > 0 ==> (!is_space(s[0]) && !is_space(s.last()))
}

/// Characterisation of [`trim_spec`] used to verify the executable scan.
proof fn lemma_trim_via_bounds(s: Seq<char>, lo: int, hi: int)
    requires
        0 <= lo <= hi <= s.len(),
        forall|i: int| 0 <= i < lo ==> is_space(s[i]),
        forall|i: int| hi <= i < s.len() ==> is_space(s[i]),
        lo < hi ==> !is_space(s[lo]),
        lo < hi ==> !is_space(s[hi - 1]),
    ensures
        trim_spec(s) == s.subrange(lo, hi),
    decreases s.len(),
{
    if lo == hi {
        lemma_leading_spaces_all(s);
        assert(s.subrange(lo, hi) =~= Seq::<char>::empty());
    } else {
        lemma_leading_spaces_stops(s, lo);
        lemma_trailing_spaces_stops(s, hi);
        assert(trim_spec(s) == s.subrange(lo, hi));
    }
}

/// If every character is blank, `leading_spaces` covers the whole string.
proof fn lemma_leading_spaces_all(s: Seq<char>)
    requires
        forall|i: int| 0 <= i < s.len() ==> is_space(s[i]),
    ensures
        leading_spaces(s) == s.len(),
    decreases s.len(),
{
    if s.len() > 0 {
        assert(forall|i: int|
            0 <= i < s.drop_first().len() ==> s.drop_first()[i] == s[i + 1]);
        lemma_leading_spaces_all(s.drop_first());
    }
}

proof fn lemma_leading_spaces_stops(s: Seq<char>, lo: int)
    requires
        0 <= lo < s.len(),
        forall|i: int| 0 <= i < lo ==> is_space(s[i]),
        !is_space(s[lo]),
    ensures
        leading_spaces(s) == lo,
    decreases s.len(),
{
    if lo > 0 {
        assert(forall|i: int|
            0 <= i < s.drop_first().len() ==> s.drop_first()[i] == s[i + 1]);
        lemma_leading_spaces_stops(s.drop_first(), lo - 1);
    }
}

proof fn lemma_trailing_spaces_stops(s: Seq<char>, hi: int)
    requires
        0 < hi <= s.len(),
        forall|i: int| hi <= i < s.len() ==> is_space(s[i]),
        !is_space(s[hi - 1]),
    ensures
        trailing_spaces(s) == s.len() - hi,
    decreases s.len(),
{
    if hi < s.len() {
        assert(forall|i: int|
            0 <= i < s.drop_last().len() ==> s.drop_last()[i] == s[i]);
        lemma_trailing_spaces_stops(s.drop_last(), hi);
    }
}

/// Removes leading and trailing whitespace.
pub fn trim_chars(s: &Vec<char>) -> (r: Vec<char>)
    ensures
        r@ == trim_spec(s@),
{
    let n = s.len();
    let mut lo: usize = 0;
    while lo < n && char_is_space(s[lo])
        invariant
            lo <= n,
            n == s@.len(),
            forall|i: int| 0 <= i < lo ==> is_space(s@[i]),
        decreases n - lo,
    {
        lo = lo + 1;
    }
    let mut hi: usize = n;
    while hi > lo && char_is_space(s[hi - 1])
        invariant
            lo <= hi <= n,
            n == s@.len(),
            forall|i: int| 0 <= i < lo ==> is_space(s@[i]),
            forall|i: int| hi <= i < n ==> is_space(s@[i]),
        decreases hi,
    {
        hi = hi - 1;
    }
    let mut r: Vec<char> = Vec::new();
    let mut i: usize = lo;
    while i < hi
        invariant
            lo <= i <= hi <= n,
            n == s@.len(),
            r@ == s@.subrange(lo as int, i as int),
        decreases hi - i,
    {
        r.push(s[i]);
        i = i + 1;
        proof {
            assert(r@ =~= s@.subrange(lo as int, i as int));
        }
    }
    proof {
        if lo == hi {
            assert(forall|i: int| hi <= i < n ==> is_space(s@[i]));
        }
        lemma_trim_via_bounds(s@, lo as int, hi as int);
    }
    r
}

/// The trim of a trimmed string is itself.
pub proof fn lemma_trim_of_trimmed(s: Seq<char>)
    requires
        is_trimmed(s),
    ensures
        trim_spec(s) == s,
{
    if s.len() == 0 {
        lemma_leading_spaces_all(s);
        assert(trim_spec(s) =~= s);
    } else {
        lemma_trim_via_bounds(s, 0, s.len() as int);
        assert(trim_spec(s) =~= s);
    }
}

/// Index of the first occurrence of `c` in `s`, or `s.len()` if absent.
pub open spec fn find_ch(s: Seq<char>, c: char) -> int
    decreases s.len(),
{
    if s.len() == 0 {
        0
    } else if s[0] == c {
        0
    } else {
        1 + find_ch(s.drop_first(), c)
    }
}

/// [`find_ch`] is the unique position with nothing equal to `c` before it.
pub proof fn lemma_find_ch(s: Seq<char>, c: char)
    ensures
        0 <= find_ch(s, c) <= s.len(),
        forall|i: int| 0 <= i < find_ch(s, c) ==> s[i] != c,
        find_ch(s, c) < s.len() ==> s[find_ch(s, c)] == c,
    decreases s.len(),
{
    if s.len() > 0 && s[0] != c {
        lemma_find_ch(s.drop_first(), c);
        assert(forall|i: int|
            0 < i < find_ch(s, c) ==> s[i] == s.drop_first()[i - 1]);
        if find_ch(s, c) < s.len() {
            assert(s[find_ch(s, c)] == s.drop_first()[find_ch(s, c) - 1]);
        }
    }
}

/// The converse: a position with those properties is [`find_ch`].
pub proof fn lemma_find_ch_is(s: Seq<char>, c: char, k: int)
    requires
        0 <= k <= s.len(),
        forall|i: int| 0 <= i < k ==> s[i] != c,
        k < s.len() ==> s[k] == c,
    ensures
        find_ch(s, c) == k,
    decreases s.len(),
{
    if s.len() > 0 && s[0] != c {
        assert(forall|i: int|
            0 <= i < s.drop_first().len() ==> s.drop_first()[i] == s[i + 1]);
        lemma_find_ch_is(s.drop_first(), c, k - 1);
    }
}

/// Splits `s` at each occurrence of `sep`. A separator ending the string
/// produces no empty final field, as with line splitting.
pub open spec fn split_ch(s: Seq<char>, sep: char) -> Seq<Seq<char>>
    decreases s.len(),
    via split_ch_decreases
{
    if s.len() == 0 {
        Seq::empty()
    } else {
        let i = find_ch(s, sep);
        if i == s.len() {
            seq![s]
        } else {
            seq![s.subrange(0, i)] + split_ch(s.subrange(i + 1, s.len() as int), sep)
        }
    }
}

#[via_fn]
proof fn split_ch_decreases(s: Seq<char>, sep: char) {
    lemma_find_ch(s, sep);
}

/// The fields of [`split_ch`], each trimmed, with empty results dropped.
pub open spec fn split_fields(s: Seq<char>, sep: char) -> Seq<Seq<char>> {
    split_ch(s, sep).map_values(|p: Seq<char>| trim_spec(p)).filter(
        |p: Seq<char>| p.len() > 0,
    )
}

/// Splits at `sep`, trims each piece and drops the empty ones.
pub fn split_list(s: &Vec<char>, sep: char) -> (r: Vec<Vec<char>>)
    ensures
        r.deep_view() == split_fields(s@, sep),
        forall|i: int|
            0 <= i < r.deep_view().len() ==> is_trimmed(#[trigger] r.deep_view()[i])
                && r.deep_view()[i].len() > 0,
{
    let pieces = split_raw(s, sep);
    let mut r: Vec<Vec<char>> = Vec::new();
    let mut i: usize = 0;
    while i < pieces.len()
        invariant
            i <= pieces.len(),
            pieces.deep_view() == split_ch(s@, sep),
            r.deep_view() == pieces.deep_view().subrange(0, i as int).map_values(
                |p: Seq<char>| trim_spec(p),
            ).filter(|p: Seq<char>| p.len() > 0),
        decreases pieces.len() - i,
    {
        let t = trim_chars(&pieces[i]);
        proof {
            assert(pieces.deep_view()[i as int] =~= pieces@[i as int]@);
            let prefix = pieces.deep_view().subrange(0, i as int);
            let next = pieces.deep_view().subrange(0, i + 1);
            assert(next.drop_last() =~= prefix);
            assert(next.map_values(|p: Seq<char>| trim_spec(p)).drop_last() =~= prefix.map_values(
                |p: Seq<char>| trim_spec(p),
            ));
            reveal_with_fuel(Seq::filter, 2);
            assert(next.map_values(|p: Seq<char>| trim_spec(p)).filter(
                |p: Seq<char>| p.len() > 0,
            ) == if trim_spec(pieces.deep_view()[i as int]).len() > 0 {
                prefix.map_values(|p: Seq<char>| trim_spec(p)).filter(
                    |p: Seq<char>| p.len() > 0,
                ).push(trim_spec(pieces.deep_view()[i as int]))
            } else {
                prefix.map_values(|p: Seq<char>| trim_spec(p)).filter(|p: Seq<char>| p.len() > 0)
            });
        }
        let ghost old_rd = r.deep_view();
        let ghost td = t@;
        if t.len() > 0 {
            r.push(t);
            proof {
                assert(r.deep_view() =~~= old_rd.push(td));
            }
        }
        i = i + 1;
    }
    proof {
        assert(pieces.deep_view().subrange(0, pieces.deep_view().len() as int) =~= pieces.deep_view());
        assert forall|j: int|
            0 <= j < r.deep_view().len() implies is_trimmed(#[trigger] r.deep_view()[j])
            && r.deep_view()[j].len() > 0 by {
            let f = split_fields(s@, sep);
            lemma_filter_members(
                split_ch(s@, sep).map_values(|p: Seq<char>| trim_spec(p)),
                |p: Seq<char>| p.len() > 0,
                j,
            );
            let src = split_ch(s@, sep).map_values(|p: Seq<char>| trim_spec(p));
            let k = choose|k: int| 0 <= k < src.len() && src[k] == f[j];
            lemma_trimmed_shape(split_ch(s@, sep)[k]);
        }
    }
    r
}

/// Every member of a filtered sequence comes from the source sequence.
proof fn lemma_filter_members(s: Seq<Seq<char>>, pred: spec_fn(Seq<char>) -> bool, j: int)
    requires
        0 <= j < s.filter(pred).len(),
    ensures
        pred(s.filter(pred)[j]),
        exists|k: int| 0 <= k < s.len() && s[k] == s.filter(pred)[j],
    decreases s.len(),
{
    reveal_with_fuel(Seq::filter, 2);
    if s.len() > 0 {
        let rest = s.drop_last();
        if pred(s.last()) && j == s.filter(pred).len() - 1 {
            assert(s[s.len() - 1] == s.filter(pred)[j]);
        } else {
            lemma_filter_members(rest, pred, j);
            let k = choose|k: int| 0 <= k < rest.len() && rest[k] == rest.filter(pred)[j];
            assert(s[k] == s.filter(pred)[j]);
        }
    }
}

/// The trim of any string is itself trimmed.
pub proof fn lemma_trimmed_shape(s: Seq<char>)
    ensures
        is_trimmed(trim_spec(s)),
{
    lemma_leading_spaces_bound(s);
    lemma_trailing_spaces_bound(s);
    if leading_spaces(s) != s.len() {
        if trailing_spaces(s) == s.len() {
            assert(is_space(s[leading_spaces(s)]));
        }
        let t = trim_spec(s);
        if t.len() > 0 {
            assert(t[0] == s[leading_spaces(s)]);
            assert(t.last() == s[s.len() - trailing_spaces(s) - 1]);
        }
    }
}

/// Splits at `sep` without trimming or filtering.
pub fn split_raw(s: &Vec<char>, sep: char) -> (r: Vec<Vec<char>>)
    ensures
        r.deep_view() == split_ch(s@, sep),
{
    let n = s.len();
    let mut r: Vec<Vec<char>> = Vec::new();
    let mut start: usize = 0;
    proof {
        assert(s@.subrange(0, n as int) =~= s@);
        assert(split_ch(s@, sep) =~= r.deep_view() + split_ch(s@.subrange(0, n as int), sep));
    }
    while start < n
        invariant
            start <= n,
            n == s@.len(),
            split_ch(s@, sep) == r.deep_view() + split_ch(
                s@.subrange(start as int, n as int),
                sep,
            ),
        decreases n - start,
    {
        let ghost rest = s@.subrange(start as int, n as int);
        let mut j: usize = start;
        while j < n && s[j] != sep
            invariant
                start <= j <= n,
                n == s@.len(),
                forall|k: int| start <= k < j ==> s@[k] != sep,
            decreases n - j,
        {
            j = j + 1;
        }
        proof {
            assert(forall|k: int| 0 <= k < rest.len() ==> rest[k] == s@[start + k]);
            lemma_find_ch_is(rest, sep, j - start);
        }
        let mut piece: Vec<char> = Vec::new();
        let mut k: usize = start;
        while k < j
            invariant
                start <= k <= j <= n,
                n == s@.len(),
                piece@ == s@.subrange(start as int, k as int),
            decreases j - k,
        {
            piece.push(s[k]);
            k = k + 1;
            proof {
                assert(piece@ =~= s@.subrange(start as int, k as int));
            }
        }
        let ghost old_rd = r.deep_view();
        let ghost pieced = piece@;
        r.push(piece);
        proof {
            assert(r.deep_view() =~~= old_rd.push(pieced));
            if j < n {
                assert(rest.subrange(0, (j - start) as int) =~= s@.subrange(
                    start as int,
                    j as int,
                ));
                assert(rest.subrange((j - start + 1) as int, rest.len() as int) =~= s@.subrange(
                    j + 1,
                    n as int,
                ));
                assert(split_ch(rest, sep) == seq![s@.subrange(start as int, j as int)]
                    + split_ch(s@.subrange(j + 1, n as int), sep));
            } else {
                assert(rest =~= s@.subrange(start as int, j as int));
                assert(split_ch(rest, sep) == seq![s@.subrange(start as int, j as int)]);
                assert(split_ch(s@.subrange(n as int, n as int), sep) =~= Seq::<Seq<char>>::empty());
            }
        }
        if j < n {
            start = j + 1;
        } else {
            start = n;
        }
        proof {
            assert(split_ch(s@, sep) =~= r.deep_view() + split_ch(
                s@.subrange(start as int, n as int),
                sep,
            ));
        }
    }
    proof {
        assert(split_ch(s@.subrange(n as int, n as int), sep) =~= Seq::<Seq<char>>::empty());
        assert(split_ch(s@, sep) =~= r.deep_view());
    }
    r
}

/// Turns a list of character buffers into strings.
pub fn strings_of(vals: &Vec<Vec<char>>) -> (r: Vec<String>)
    ensures
        r.deep_view() == vals.deep_view(),
{
    let mut r: Vec<String> = Vec::new();
    let mut i: usize = 0;
    while i < vals.len()
        invariant
            i <= vals@.len(),
            r@.len() == i,
            forall|j: int| 0 <= j < i ==> (#[trigger] r@[j])@ == vals@[j]@,
        decreases vals@.len() - i,
    {
        r.push(chars_string(&vals[i]));
        i = i + 1;
    }
    proof {
        assert forall|j: int| 0 <= j < vals.deep_view().len() implies r.deep_view()[j]
            == vals.deep_view()[j] by {
            assert(r.deep_view()[j] =~= r@[j]@);
            assert(vals.deep_view()[j] =~= vals@[j]@);
        }
        assert(r.deep_view() =~~= vals.deep_view());
    }
    r
}

/// Copies a list of strings.
pub fn clone_strings(v: &Vec<String>) -> (r: Vec<String>)
    ensures
        r.deep_view() == v.deep_view(),
{
    let mut r: Vec<String> = Vec::new();
    let mut i: usize = 0;
    while i < v.len()
        invariant
            i <= v@.len(),
            r@.len() == i,
            forall|j: int| 0 <= j < i ==> (#[trigger] r@[j])@ == v@[j]@,
        decreases v@.len() - i,
    {
        r.push(v[i].clone());
        i = i + 1;
    }
    proof {
        assert forall|j: int| 0 <= j < v.deep_view().len() implies r.deep_view()[j]
            == v.deep_view()[j] by {
            assert(r.deep_view()[j] =~= r@[j]@);
            assert(v.deep_view()[j] =~= v@[j]@);
        }
        assert(r.deep_view() =~~= v.deep_view());
    }
    r
}

/// Copies the characters of `v` between `lo` and `hi`.
pub fn sub_chars(v: &Vec<char>, lo: usize, hi: usize) -> (r: Vec<char>)
    requires
        lo <= hi <= v@.len(),
    ensures
        r@ == v@.subrange(lo as int, hi as int),
{
    let mut r: Vec<char> = Vec::new();
    let mut i: usize = lo;
    while i < hi
        invariant
            lo <= i <= hi <= v@.len(),
            r@ == v@.subrange(lo as int, i as int),
        decreases hi - i,
    {
        r.push(v[i]);
        i = i + 1;
        proof {
            assert(r@ =~= v@.subrange(lo as int, i as int));
        }
    }
    r
}

/// Position of the first occurrence of `c` in `v`, or its length.
pub fn find_char(v: &Vec<char>, c: char) -> (i: usize)
    ensures
        i == find_ch(v@, c),
        i <= v@.len(),
{
    let n = v.len();
    let mut i: usize = 0;
    while i < n && v[i] != c
        invariant
            i <= n,
            n == v@.len(),
            forall|k: int| 0 <= k < i ==> v@[k] != c,
        decreases n - i,
    {
        i = i + 1;
    }
    proof {
        lemma_find_ch_is(v@, c, i as int);
    }
    i
}

/// Character-for-character equality of two string slices.
pub fn str_eq(a: &str, b: &str) -> (r: bool)
    ensures
        r == (a@ == b@),
{
    let n = a.unicode_len();
    let m = b.unicode_len();
    if n != m {
        return false;
    }
    let mut i: usize = 0;
    while i < n
        invariant
            i <= n,
            n == a@.len(),
            n == b@.len(),
            forall|k: int| 0 <= k < i ==> a@[k] == b@[k],
        decreases n - i,
    {
        if a.get_char(i) != b.get_char(i) {
            return false;
        }
        i = i + 1;
    }
    proof {
        assert(a@ =~= b@);
    }
    true
}

/// ASCII lowercase of one character; anything outside `A`..`Z` is kept.
pub open spec fn lower_char(c: char) -> char {
    if 'A' <= c && c <= 'Z' {
        ((c as u8) + 32) as char
    } else {
        c
    }
}

/// ASCII lowercase of a string.
pub open spec fn lower(s: Seq<char>) -> Seq<char> {
    s.map_values(|c: char| lower_char(c))
}

/// Executable ASCII lowercase.
pub fn lower_chars(s: &Vec<char>) -> (r: Vec<char>)
    ensures
        r@ == lower(s@),
{
    let mut r: Vec<char> = Vec::new();
    let mut i: usize = 0;
    while i < s.len()
        invariant
            i <= s@.len(),
            r@ == lower(s@.subrange(0, i as int)),
        decreases s@.len() - i,
    {
        let c = s[i];
        if 'A' <= c && c <= 'Z' {
            r.push(((c as u8) + 32) as char);
        } else {
            r.push(c);
        }
        i = i + 1;
        proof {
            assert(r@ =~= lower(s@.subrange(0, i as int)));
        }
    }
    proof {
        assert(s@.subrange(0, s@.len() as int) =~= s@);
    }
    r
}

/// Lexicographic order on character sequences by code point.
pub open spec fn lex_le(a: Seq<char>, b: Seq<char>) -> bool
    decreases a.len(),
{
    if a.len() == 0 {
        true
    } else if b.len() == 0 {
        false
    } else if a[0] != b[0] {
        a[0] < b[0]
    } else {
        lex_le(a.drop_first(), b.drop_first())
    }
}

/// [`lex_le`] is total: one direction always holds.
pub proof fn lemma_lex_total(a: Seq<char>, b: Seq<char>)
    ensures
        lex_le(a, b) || lex_le(b, a),
        (lex_le(a, b) && lex_le(b, a)) ==> a == b,
    decreases a.len(),
{
    reveal_with_fuel(lex_le, 2);
    if a.len() > 0 && b.len() > 0 && a[0] == b[0] {
        lemma_lex_total(a.drop_first(), b.drop_first());
        assert(lex_le(a, b) == lex_le(a.drop_first(), b.drop_first()));
        assert(lex_le(b, a) == lex_le(b.drop_first(), a.drop_first()));
        if lex_le(a, b) && lex_le(b, a) {
            assert(a.drop_first() == b.drop_first());
            assert forall|i: int| 0 <= i < a.len() implies a[i] == b[i] by {
                if i > 0 {
                    assert(a.drop_first()[i - 1] == b.drop_first()[i - 1]);
                }
            }
            assert(a =~= b);
        }
    } else if a.len() == 0 && b.len() == 0 {
        assert(a =~= b);
    }
}

/// [`lex_le`] is transitive.
pub proof fn lemma_lex_trans(a: Seq<char>, b: Seq<char>, c: Seq<char>)
    requires
        lex_le(a, b),
        lex_le(b, c),
    ensures
        lex_le(a, c),
    decreases a.len(),
{
    if a.len() > 0 && b.len() > 0 && c.len() > 0 {
        if a[0] == b[0] && b[0] == c[0] {
            lemma_lex_trans(a.drop_first(), b.drop_first(), c.drop_first());
        }
    }
}

/// Executable lexicographic comparison.
pub fn chars_le(a: &Vec<char>, b: &Vec<char>) -> (r: bool)
    ensures
        r == lex_le(a@, b@),
{
    let mut i: usize = 0;
    proof {
        assert(a@.subrange(0, a@.len() as int) =~= a@);
        assert(b@.subrange(0, b@.len() as int) =~= b@);
    }
    loop
        invariant
            i <= a@.len(),
            i <= b@.len(),
            forall|k: int| 0 <= k < i ==> a@[k] == b@[k],
            lex_le(a@, b@) == lex_le(a@.subrange(i as int, a@.len() as int), b@.subrange(i as int, b@.len() as int)),
        decreases a@.len() - i,
    {
        let ghost ar = a@.subrange(i as int, a@.len() as int);
        let ghost br = b@.subrange(i as int, b@.len() as int);
        if i >= a.len() {
            return true;
        }
        if i >= b.len() {
            return false;
        }
        let ca = a[i];
        let cb = b[i];
        if ca != cb {
            return ca < cb;
        }
        i = i + 1;
        proof {
            assert(ar.drop_first() =~= a@.subrange(i as int, a@.len() as int));
            assert(br.drop_first() =~= b@.subrange(i as int, b@.len() as int));
        }
    }
}

/// Lexicographic comparison of two string slices.
pub fn str_le(a: &str, b: &str) -> (r: bool)
    ensures
        r == lex_le(a@, b@),
{
    let ac = str_chars(a);
    let bc = str_chars(b);
    chars_le(&ac, &bc)
}

/// Whether `needle` occurs contiguously inside `hay`.
pub open spec fn contains_sub(hay: Seq<char>, needle: Seq<char>) -> bool {
    exists|i: int|
        0 <= i && i + needle.len() <= hay.len() && #[trigger] hay.subrange(i, i + needle.len())
            == needle
}

/// Naive substring search.
pub fn chars_contain(hay: &Vec<char>, needle: &Vec<char>) -> (r: bool)
    ensures
        r == contains_sub(hay@, needle@),
{
    let m = needle.len();
    let n = hay.len();
    if m > n {
        proof {
            assert(!contains_sub(hay@, needle@));
        }
        return false;
    }
    let mut i: usize = 0;
    while i <= n - m
        invariant
            m == needle@.len(),
            n == hay@.len(),
            m <= n,
            i <= n - m + 1,
            forall|k: int|
                0 <= k < i ==> #[trigger] hay@.subrange(k, k + needle@.len()) != needle@,
        decreases n - m + 1 - i,
    {
        let mut j: usize = 0;
        while j < m && hay[i + j] == needle[j]
            invariant
                m == needle@.len(),
                n == hay@.len(),
                i + m <= n,
                j <= m,
                forall|k: int| 0 <= k < j ==> hay@[i + k] == needle@[k],
            decreases m - j,
        {
            j = j + 1;
        }
        if j == m {
            proof {
                assert(hay@.subrange(i as int, i + needle@.len()) =~= needle@);
            }
            return true;
        }
        proof {
            assert(hay@.subrange(i as int, i + needle@.len()) != needle@) by {
                assert(hay@.subrange(i as int, i + needle@.len())[j as int] == hay@[i + j]);
            }
        }
        i = i + 1;
    }
    proof {
        assert forall|k: int| 0 <= k && k + needle@.len() <= hay@.len() implies #[trigger] hay@.subrange(
            k,
            k + needle@.len(),
        ) != needle@ by {
            assert(k < i);
        }
    }
    false
}

/// Appends the characters of `src` to `dst`.
pub fn append_chars(dst: &mut Vec<char>, src: &Vec<char>)
    ensures
        final(dst)@ == old(dst)@ + src@,
{
    let mut i: usize = 0;
    while i < src.len()
        invariant
            i <= src@.len(),
            dst@ == old(dst)@ + src@.subrange(0, i as int),
        decreases src@.len() - i,
    {
        dst.push(src[i]);
        i = i + 1;
        proof {
            assert(dst@ =~= old(dst)@ + src@.subrange(0, i as int));
        }
    }
    proof {
        assert(dst@ =~= old(dst)@ + src@);
    }
}

/// Appends the characters of a string slice to `dst`.
pub fn append_str(dst: &mut Vec<char>, src: &str)
    ensures
        final(dst)@ == old(dst)@ + src@,
{
    let n = src.unicode_len();
    let mut i: usize = 0;
    while i < n
        invariant
            i <= n,
            n == src@.len(),
            dst@ == old(dst)@ + src@.subrange(0, i as int),
        decreases n - i,
    {
        dst.push(src.get_char(i));
        i = i + 1;
        proof {
            assert(dst@ =~= old(dst)@ + src@.subrange(0, i as int));
        }
    }
    proof {
        assert(dst@ =~= old(dst)@ + src@);
    }
}

/// Equality of two character buffers.
pub fn chars_eq(a: &Vec<char>, b: &Vec<char>) -> (r: bool)
    ensures
        r == (a@ == b@),
{
    if a.len() != b.len() {
        return false;
    }
    let mut i: usize = 0;
    while i < a.len()
        invariant
            i <= a@.len(),
            a@.len() == b@.len(),
            forall|k: int| 0 <= k < i ==> a@[k] == b@[k],
        decreases a@.len() - i,
    {
        if a[i] != b[i] {
            return false;
        }
        i = i + 1;
    }
    proof {
        assert(a@ =~= b@);
    }
    true
}

/// Equality of a character buffer and a string slice.
pub fn chars_eq_str(v: &Vec<char>, s: &str) -> (r: bool)
    ensures
        r == (v@ == s@),
{
    let n = v.len();
    let m = s.unicode_len();
    if n != m {
        return false;
    }
    let mut i: usize = 0;
    while i < n
        invariant
            i <= n,
            n == v@.len(),
            n == s@.len(),
            forall|k: int| 0 <= k < i ==> v@[k] == s@[k],
        decreases n - i,
    {
        if v[i] != s.get_char(i) {
            return false;
        }
        i = i + 1;
    }
    proof {
        assert(v@ =~= s@);
    }
    true
}

} // verus!
