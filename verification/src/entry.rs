//! Application descriptor parsing.
//!
//! A descriptor file is line-oriented text with sections; only keys inside
//! the `[Desktop Entry]` section count, a later duplicate key replacing an
//! earlier one. A descriptor names an application, so a record is built
//! only for `Type=Application` entries that resolve a `Name` through the
//! caller's locale preferences and are not marked `Hidden` or `NoDisplay`.

use vstd::prelude::*;

use crate::strutil::chars_eq;
use crate::strutil::chars_eq_str;
use crate::strutil::chars_string;
use crate::strutil::find_ch;
use crate::strutil::find_char;
use crate::strutil::lower;
use crate::strutil::lower_chars;
use crate::strutil::split_fields;
use crate::strutil::split_list;
use crate::strutil::split_raw;
use crate::strutil::str_chars;
use crate::strutil::str_eq;
use crate::strutil::strings_of;
use crate::strutil::sub_chars;
use crate::strutil::trim_chars;
use crate::strutil::trim_spec;

verus! {

/// Key/value pairs in order of appearance.
pub type PairSeq = Seq<(Seq<char>, Seq<char>)>;

/// The value under `k`, the latest occurrence winning.
pub open spec fn kv_lookup(m: PairSeq, k: Seq<char>) -> Option<Seq<char>>
    decreases m.len(),
{
    if m.len() == 0 {
        None
    } else if m.last().0 == k {
        Some(m.last().1)
    } else {
        kv_lookup(m.drop_last(), k)
    }
}

/// One line of a descriptor applied to the collection state: whether the
/// current section is `[Desktop Entry]`, and the pairs collected so far.
pub open spec fn entry_line_step(st: (bool, PairSeq), line: Seq<char>) -> (bool, PairSeq) {
    let t = trim_spec(line);
    if t.len() == 0 || t[0] == '#' {
        st
    } else if t[0] == '[' {
        (t == "[Desktop Entry]"@, st.1)
    } else if !st.0 {
        st
    } else {
        let i = find_ch(t, '=');
        if i == t.len() {
            st
        } else {
            (st.0, st.1.push((trim_spec(t.subrange(0, i)), trim_spec(t.subrange(i + 1, t.len() as int)))))
        }
    }
}

/// The lines folded in order.
pub open spec fn entry_fold(lines: Seq<Seq<char>>, st: (bool, PairSeq)) -> (bool, PairSeq)
    decreases lines.len(),
{
    if lines.len() == 0 {
        st
    } else {
        entry_fold(lines.drop_first(), entry_line_step(st, lines[0]))
    }
}

/// A fold over one more line at the end applies [`entry_line_step`] last.
pub proof fn lemma_entry_fold_push(lines: Seq<Seq<char>>, st: (bool, PairSeq), x: Seq<char>)
    ensures
        entry_fold(lines.push(x), st) == entry_line_step(entry_fold(lines, st), x),
    decreases lines.len(),
{
    reveal_with_fuel(entry_fold, 2);
    if lines.len() == 0 {
        assert(lines.push(x)[0] == x);
        assert(lines.push(x).drop_first() =~= Seq::<Seq<char>>::empty());
        assert(entry_fold(lines.push(x).drop_first(), entry_line_step(st, x)) == entry_line_step(
            st,
            x,
        ));
    } else {
        assert(lines.push(x)[0] == lines[0]);
        assert(lines.push(x).drop_first() =~= lines.drop_first().push(x));
        lemma_entry_fold_push(lines.drop_first(), entry_line_step(st, lines[0]), x);
    }
}

/// The `[Desktop Entry]` pairs of one descriptor's text.
pub open spec fn entry_pairs(content: Seq<char>) -> PairSeq {
    entry_fold(crate::strutil::split_ch(content, '\n'), (false, Seq::empty())).1
}

/// The bracketed form `key[locale]`.
pub open spec fn bracketed(key: Seq<char>, loc: Seq<char>) -> Seq<char> {
    key + seq!['['] + loc + seq![']']
}

/// The bracketed keys one locale preference makes a descriptor try, most
/// specific first: the full locale; the modifier stripped; the country
/// stripped with the modifier kept; and the bare language.
pub open spec fn locale_candidates(key: Seq<char>, loc: Seq<char>) -> Seq<Seq<char>> {
    let a = find_ch(loc, '@');
    if a < loc.len() {
        let base = loc.subrange(0, a);
        let u = find_ch(base, '_');
        if u < base.len() {
            seq![
                bracketed(key, loc),
                bracketed(key, base),
                bracketed(key, base.subrange(0, u) + loc.subrange(a, loc.len() as int)),
                bracketed(key, base.subrange(0, u)),
            ]
        } else {
            seq![bracketed(key, loc), bracketed(key, base)]
        }
    } else {
        let u = find_ch(loc, '_');
        if u < loc.len() {
            seq![bracketed(key, loc), bracketed(key, loc.subrange(0, u))]
        } else {
            seq![bracketed(key, loc)]
        }
    }
}

/// The value of the first candidate key that is present.
pub open spec fn first_candidate(pairs: PairSeq, cands: Seq<Seq<char>>) -> Option<Seq<char>>
    decreases cands.len(),
{
    if cands.len() == 0 {
        None
    } else {
        match kv_lookup(pairs, cands[0]) {
            Some(v) => Some(v),
            None => first_candidate(pairs, cands.drop_first()),
        }
    }
}

/// Locale fallback: each preferred locale is tried in full before the next
/// one; only when no bracketed key of any preference is present does the
/// unbracketed key count.
pub open spec fn localized(pairs: PairSeq, key: Seq<char>, locales: Seq<Seq<char>>) -> Option<
    Seq<char>,
>
    decreases locales.len(),
{
    if locales.len() == 0 {
        kv_lookup(pairs, key)
    } else {
        match first_candidate(pairs, locale_candidates(key, locales[0])) {
            Some(v) => Some(v),
            None => localized(pairs, key, locales.drop_first()),
        }
    }
}

/// Whether a key holds the boolean literal `true`.
pub open spec fn truthy(pairs: PairSeq, key: Seq<char>) -> bool {
    kv_lookup(pairs, key) == Some("true"@)
}

/// The value split into `;`-separated fields, or nothing at all when the
/// key is absent.
pub open spec fn listed(pairs: PairSeq, key: Seq<char>) -> Seq<Seq<char>> {
    match kv_lookup(pairs, key) {
        Some(v) => split_fields(v, ';'),
        None => Seq::empty(),
    }
}

/// The text after the last `/`, the whole path if it has none.
pub open spec fn base_name(p: Seq<char>) -> Seq<char>
    decreases p.len(),
    via base_name_decreases
{
    let i = find_ch(p, '/');
    if i == p.len() {
        p
    } else {
        base_name(p.subrange(i + 1, p.len() as int))
    }
}

#[via_fn]
proof fn base_name_decreases(p: Seq<char>) {
    crate::strutil::lemma_find_ch(p, '/');
}

/// A wildcard MIME pattern `maintype/*` matching a concrete type: the
/// type is the same main type, a slash, and a non-empty subtype.
pub open spec fn pattern_matches(p: Seq<char>, m: Seq<char>) -> bool {
    p.len() >= 2 && p[p.len() - 2] == '/' && p[p.len() - 1] == '*' && {
        let prefix = p.subrange(0, p.len() - 2);
        m.len() > prefix.len() + 1 && m.subrange(0, prefix.len() as int) == prefix
            && m[prefix.len() as int] == '/'
    }
}

/// One application descriptor, parsed and resolved for display.
#[derive(Debug, Clone)]
pub struct AppEntry {
    /// Descriptor file name, the registry key.
    pub id: String,
    /// Resolved display name.
    pub name: String,
    /// Resolved generic name, such as a product category.
    pub generic_name: Option<String>,
    /// Resolved description.
    pub comment: Option<String>,
    /// Icon name or path, verbatim.
    pub icon: Option<String>,
    /// Command line, verbatim.
    pub exec_cmd: Option<String>,
    /// Whether the application wants a terminal.
    pub terminal: bool,
    /// `NoDisplay` flag; always false on a built entry.
    pub no_display: bool,
    /// `Hidden` flag; always false on a built entry.
    pub hidden: bool,
    /// Declared MIME types, order and duplicates as declared.
    pub mime_types: Vec<String>,
    /// Declared categories, order and duplicates as declared.
    pub categories: Vec<String>,
    /// The file the descriptor came from.
    pub path: String,
}

/// Whether a descriptor's text yields a visible application entry.
pub open spec fn parses_to_entry(content: Seq<char>, path: Seq<char>, locales: Seq<Seq<char>>) -> bool {
    let pairs = entry_pairs(content);
    &&& kv_lookup(pairs, "Type"@) == Some("Application"@)
    &&& base_name(path).len() > 0
    &&& localized(pairs, "Name"@, locales) is Some
    &&& !truthy(pairs, "NoDisplay"@)
    &&& !truthy(pairs, "Hidden"@)
}

/// The fields the built entry carries, given [`parses_to_entry`].
pub open spec fn entry_matches(
    e: AppEntry,
    content: Seq<char>,
    path: Seq<char>,
    locales: Seq<Seq<char>>,
) -> bool {
    let pairs = entry_pairs(content);
    &&& e.id@ == base_name(path)
    &&& Some(e.name@) == localized(pairs, "Name"@, locales)
    &&& e.generic_name.deep_view() == localized(pairs, "GenericName"@, locales)
    &&& e.comment.deep_view() == localized(pairs, "Comment"@, locales)
    &&& e.icon.deep_view() == kv_lookup(pairs, "Icon"@)
    &&& e.exec_cmd.deep_view() == kv_lookup(pairs, "Exec"@)
    &&& e.terminal == truthy(pairs, "Terminal"@)
    &&& e.no_display == false
    &&& e.hidden == false
    &&& e.mime_types.deep_view() == listed(pairs, "MimeType"@)
    &&& e.categories.deep_view() == listed(pairs, "Categories"@)
    &&& e.path@ == path
}

/// The value under `k`, searching later pairs first.
fn kv_get<'a>(values: &'a Vec<(String, String)>, k: &Vec<char>) -> (r: Option<&'a String>)
    ensures
        match r {
            Some(v) => kv_lookup(values.deep_view(), k@) == Some(v@),
            None => kv_lookup(values.deep_view(), k@) is None,
        },
{
    let ghost dv = values.deep_view();
    let n = values.len();
    let mut i = n;
    proof {
        assert(dv.subrange(0, n as int) =~= dv);
    }
    while i > 0
        invariant
            i <= n,
            n == values@.len(),
            dv == values.deep_view(),
            dv.len() == n,
            kv_lookup(dv, k@) == kv_lookup(dv.subrange(0, i as int), k@),
        decreases i,
    {
        i = i - 1;
        let ghost upto = dv.subrange(0, i + 1);
        proof {
            assert(upto.last() == dv[i as int]);
            assert(upto.drop_last() =~= dv.subrange(0, i as int));
            assert(dv[i as int].0 == values@[i as int].0@);
            assert(dv[i as int].1 == values@[i as int].1@);
        }
        if chars_eq_str(k, values[i].0.as_str()) {
            return Some(&values[i].1);
        }
    }
    proof {
        assert(dv.subrange(0, 0) =~= Seq::<(Seq<char>, Seq<char>)>::empty());
    }
    None
}

/// The bracketed key `key[loc]` as characters.
fn bracket_chars(key: &str, loc: &Vec<char>, lo: usize, hi: usize) -> (r: Vec<char>)
    requires
        lo <= hi <= loc@.len(),
    ensures
        r@ == bracketed(key@, loc@.subrange(lo as int, hi as int)),
{
    let mut r = str_chars(key);
    r.push('[');
    let mut i = lo;
    while i < hi
        invariant
            lo <= i <= hi <= loc@.len(),
            r@ == key@ + seq!['['] + loc@.subrange(lo as int, i as int),
        decreases hi - i,
    {
        r.push(loc[i]);
        i = i + 1;
        proof {
            assert(r@ =~= key@ + seq!['['] + loc@.subrange(lo as int, i as int));
        }
    }
    r.push(']');
    proof {
        assert(r@ =~= bracketed(key@, loc@.subrange(lo as int, hi as int)));
    }
    r
}

impl AppEntry {
    /// Resolves `key` against the pairs with locale fallback: each
    /// preference's bracketed keys first, then the plain key.
    pub fn get_localized(
        values: &Vec<(String, String)>,
        key: &str,
        locales: &[String],
    ) -> (r: Option<String>)
        ensures
            r.deep_view() == localized(values.deep_view(), key@, locales.deep_view()),
    {
        let ghost pairs = values.deep_view();
        let ghost lv = locales.deep_view();
        let n = locales.len();
        let mut i: usize = 0;
        proof {
            assert(lv.subrange(0, n as int) =~= lv);
        }
        while i < n
            invariant
                i <= n,
                n == locales@.len(),
                lv == locales.deep_view(),
                lv.len() == n,
                pairs == values.deep_view(),
                localized(pairs, key@, lv) == localized(pairs, key@, lv.subrange(i as int, n as int)),
            decreases n - i,
        {
            let ghost rest = lv.subrange(i as int, n as int);
            proof {
                assert(rest[0] == lv[i as int]);
                assert(rest.drop_first() =~= lv.subrange(i + 1, n as int));
                assert(lv[i as int] == locales@[i as int]@);
            }
            let loc = str_chars(locales[i].as_str());
            let ghost cands = locale_candidates(key@, loc@);
            let full = bracket_chars(key, &loc, 0, loc.len());
            proof {
                assert(loc@.subrange(0, loc@.len() as int) =~= loc@);
                reveal_with_fuel(first_candidate, 4);
            }
            if let Some(v) = kv_get(values, &full) {
                proof {
                    assert(cands[0] == bracketed(key@, loc@));
                    assert(first_candidate(pairs, cands) == Some(v@));
                }
                return Some(v.clone());
            }
            let at = find_char(&loc, '@');
            if at < loc.len() {
                let ghost base = loc@.subrange(0, at as int);
                let stripped = bracket_chars(key, &loc, 0, at);
                proof {
                    assert(cands[1] == bracketed(key@, base));
                    assert(cands.drop_first()[0] == cands[1]);
                }
                if let Some(v) = kv_get(values, &stripped) {
                    proof {
                        assert(first_candidate(pairs, cands) == Some(v@));
                    }
                    return Some(v.clone());
                }
                let basev = sub_chars(&loc, 0, at);
                let us = find_char(&basev, '_');
                if us < basev.len() {
                    let mut lang_mod_loc = sub_chars(&loc, 0, us);
                    let modifier = sub_chars(&loc, at, loc.len());
                    crate::strutil::append_chars(&mut lang_mod_loc, &modifier);
                    let lang_mod = bracket_chars(key, &lang_mod_loc, 0, lang_mod_loc.len());
                    let lang = bracket_chars(key, &basev, 0, us);
                    proof {
                        assert(basev@ == base);
                        assert(basev@.subrange(0, us as int) =~= base.subrange(0, us as int));
                        assert(loc@.subrange(0, us as int) =~= base.subrange(0, us as int));
                        assert(lang_mod_loc@ == base.subrange(0, us as int) + loc@.subrange(
                            at as int,
                            loc@.len() as int,
                        ));
                        assert(lang_mod_loc@.subrange(0, lang_mod_loc@.len() as int)
                            =~= lang_mod_loc@);
                        assert(cands.len() == 4);
                        assert(cands[2] == bracketed(
                            key@,
                            base.subrange(0, us as int) + loc@.subrange(
                                at as int,
                                loc@.len() as int,
                            ),
                        ));
                        assert(cands[3] == bracketed(key@, base.subrange(0, us as int)));
                        assert(cands.drop_first().drop_first()[0] == cands[2]);
                        assert(cands.drop_first().drop_first().drop_first()[0] == cands[3]);
                        assert(cands.drop_first().drop_first().drop_first().drop_first() =~= Seq::<
                            Seq<char>,
                        >::empty());
                        reveal_with_fuel(first_candidate, 5);
                    }
                    if let Some(v) = kv_get(values, &lang_mod) {
                        proof {
                            assert(first_candidate(pairs, cands) == Some(v@));
                        }
                        return Some(v.clone());
                    }
                    if let Some(v) = kv_get(values, &lang) {
                        proof {
                            assert(first_candidate(pairs, cands) == Some(v@));
                        }
                        return Some(v.clone());
                    }
                    proof {
                        assert(first_candidate(pairs, cands) is None);
                    }
                } else {
                    proof {
                        assert(basev@ == base);
                        assert(cands.len() == 2);
                        assert(cands.drop_first().drop_first() =~= Seq::<Seq<char>>::empty());
                        assert(first_candidate(pairs, cands) is None);
                    }
                }
            } else {
                let us = find_char(&loc, '_');
                if us < loc.len() {
                    let lang = bracket_chars(key, &loc, 0, us);
                    proof {
                        assert(cands.len() == 2);
                        assert(cands[1] == bracketed(key@, loc@.subrange(0, us as int)));
                        assert(cands.drop_first()[0] == cands[1]);
                        assert(cands.drop_first().drop_first() =~= Seq::<Seq<char>>::empty());
                    }
                    if let Some(v) = kv_get(values, &lang) {
                        proof {
                            assert(first_candidate(pairs, cands) == Some(v@));
                        }
                        return Some(v.clone());
                    }
                    proof {
                        assert(first_candidate(pairs, cands) is None);
                    }
                } else {
                    proof {
                        assert(cands.len() == 1);
                        assert(cands.drop_first() =~= Seq::<Seq<char>>::empty());
                        assert(first_candidate(pairs, cands) is None);
                    }
                }
            }
            i = i + 1;
        }
        proof {
            assert(lv.subrange(n as int, n as int) =~= Seq::<Seq<char>>::empty());
        }
        let kc = str_chars(key);
        match kv_get(values, &kc) {
            Some(v) => Some(v.clone()),
            None => None,
        }
    }

    /// Parses one descriptor's text into a visible application entry, or
    /// nothing for a non-application, nameless or hidden descriptor.
    pub fn parse(content: &str, path: &str, locales: &[String]) -> (r: Option<AppEntry>)
        ensures
            r is Some <==> parses_to_entry(content@, path@, locales.deep_view()),
            match r {
                Some(e) => entry_matches(e, content@, path@, locales.deep_view()),
                None => true,
            },
    {
        let ghost pairs = entry_pairs(content@);
        let values = collect_pairs(content);
        let tkey = str_chars("Type");
        match kv_get(&values, &tkey) {
            None => {
                return None;
            },
            Some(tv) => {
                if !str_eq(tv.as_str(), "Application") {
                    return None;
                }
            },
        }
        let id = base_name_str(path);
        if id.as_str().is_empty() {
            proof {
                assert(base_name(path@).len() == 0);
            }
            return None;
        }
        let name = match Self::get_localized(&values, "Name", locales) {
            None => {
                return None;
            },
            Some(n) => n,
        };
        if truthy_value(&values, "NoDisplay") {
            return None;
        }
        if truthy_value(&values, "Hidden") {
            return None;
        }
        let generic_name = Self::get_localized(&values, "GenericName", locales);
        let comment = Self::get_localized(&values, "Comment", locales);
        let ikey = str_chars("Icon");
        let icon = match kv_get(&values, &ikey) {
            Some(v) => Some(v.clone()),
            None => None,
        };
        let ekey = str_chars("Exec");
        let exec_cmd = match kv_get(&values, &ekey) {
            Some(v) => Some(v.clone()),
            None => None,
        };
        let terminal = truthy_value(&values, "Terminal");
        let mime_types = listed_value(&values, "MimeType");
        let categories = listed_value(&values, "Categories");
        Some(
            AppEntry {
                id,
                name,
                generic_name,
                comment,
                icon,
                exec_cmd,
                terminal,
                no_display: false,
                hidden: false,
                mime_types,
                categories,
                path: path.to_owned(),
            },
        )
    }

    /// Whether this application declares `mime`, exactly or through a
    /// `prefix/*` wildcard declaration.
    pub fn supports_mime_type(&self, mime: &str) -> (r: bool)
        ensures
            r == entry_supports_mime(self, mime@),
    {
        let ghost mv = self.mime_types.deep_view();
        let mut i: usize = 0;
        while i < self.mime_types.len()
            invariant
                i <= self.mime_types@.len(),
                mv == self.mime_types.deep_view(),
                mv.len() == self.mime_types@.len(),
                forall|j: int|
                    0 <= j < i ==> !((#[trigger] mv[j]) == mime@ || pattern_matches(mv[j], mime@)),
            decreases self.mime_types@.len() - i,
        {
            proof {
                assert(mv[i as int] == self.mime_types@[i as int]@);
            }
            if str_eq(self.mime_types[i].as_str(), mime) {
                return true;
            }
            if Self::mime_matches_pattern(self.mime_types[i].as_str(), mime) {
                return true;
            }
            i = i + 1;
        }
        false
    }

    /// Whether this application declares `category`, compared without
    /// regard to ASCII case.
    pub fn has_category(&self, category: &str) -> (r: bool)
        ensures
            r == entry_has_category(self, category@),
    {
        let cat = lower_chars(&str_chars(category));
        let ghost cv = self.categories.deep_view();
        let mut i: usize = 0;
        while i < self.categories.len()
            invariant
                i <= self.categories@.len(),
                cv == self.categories.deep_view(),
                cv.len() == self.categories@.len(),
                cat@ == lower(category@),
                forall|j: int| 0 <= j < i ==> lower(#[trigger] cv[j]) != lower(category@),
            decreases self.categories@.len() - i,
        {
            proof {
                assert(cv[i as int] == self.categories@[i as int]@);
            }
            let c = lower_chars(&str_chars(self.categories[i].as_str()));
            if chars_eq(&c, &cat) {
                return true;
            }
            i = i + 1;
        }
        false
    }

    /// Whether the wildcard pattern `maintype/*` matches `mime`: the same
    /// main type, a slash, and a non-empty subtype after it.
    pub fn mime_matches_pattern(pattern: &str, mime: &str) -> (r: bool)
        ensures
            r == pattern_matches(pattern@, mime@),
    {
        let p = str_chars(pattern);
        let n = p.len();
        if n < 2 {
            return false;
        }
        if p[n - 2] != '/' || p[n - 1] != '*' {
            return false;
        }
        let m = str_chars(mime);
        if m.len() <= n - 1 {
            proof {
                assert(pattern@.subrange(0, n - 2).len() == n - 2);
            }
            return false;
        }
        if m[n - 2] != '/' {
            proof {
                assert(mime@[pattern@.subrange(0, n - 2).len() as int] != '/');
            }
            return false;
        }
        let mut i: usize = 0;
        while i < n - 2
            invariant
                2 <= n == p@.len(),
                p@ == pattern@,
                m@ == mime@,
                i <= n - 2,
                m@.len() > n - 1,
                forall|k: int| 0 <= k < i ==> m@[k] == p@[k],
            decreases n - 2 - i,
        {
            if m[i] != p[i] {
                proof {
                    assert(mime@.subrange(0, n - 2)[i as int] != pattern@.subrange(0, n - 2)[i as int]);
                }
                return false;
            }
            i = i + 1;
        }
        proof {
            assert(mime@.subrange(0, n - 2) =~= pattern@.subrange(0, n - 2));
        }
        true
    }
}

/// Whether any declared MIME type of the entry covers `mime`.
pub open spec fn entry_supports_mime(e: &AppEntry, mime: Seq<char>) -> bool {
    exists|i: int|
        0 <= i < e.mime_types.deep_view().len() && ((#[trigger] e.mime_types.deep_view()[i])
            == mime || pattern_matches(e.mime_types.deep_view()[i], mime))
}

/// Whether the entry declares `category`, without regard to ASCII case.
pub open spec fn entry_has_category(e: &AppEntry, category: Seq<char>) -> bool {
    exists|i: int|
        0 <= i < e.categories.deep_view().len() && lower(#[trigger] e.categories.deep_view()[i])
            == lower(category)
}

/// Collects the `[Desktop Entry]` pairs of the text, in order.
fn collect_pairs(content: &str) -> (values: Vec<(String, String)>)
    ensures
        values.deep_view() == entry_pairs(content@),
{
    let chars = str_chars(content);
    let lines = split_raw(&chars, '\n');
    let ghost lv = lines.deep_view();
    let mut values: Vec<(String, String)> = Vec::new();
    let mut in_entry = false;
    let n = lines.len();
    proof {
        assert(lv.subrange(0, 0) =~= Seq::<Seq<char>>::empty());
        assert(values.deep_view() =~= Seq::<(Seq<char>, Seq<char>)>::empty());
    }
    let mut i: usize = 0;
    while i < n
        invariant
            i <= n,
            n == lines@.len(),
            lv == lines.deep_view(),
            lv.len() == lines@.len(),
            lv == crate::strutil::split_ch(content@, '\n'),
            in_entry == entry_fold(lv.subrange(0, i as int), (false, Seq::empty())).0,
            values.deep_view() == entry_fold(lv.subrange(0, i as int), (false, Seq::empty())).1,
        decreases n - i,
    {
        let ghost cur = entry_fold(lv.subrange(0, i as int), (false, Seq::empty()));
        let ghost ln = lv[i as int];
        proof {
            assert(lv.subrange(0, i + 1) =~= lv.subrange(0, i as int).push(ln));
            lemma_entry_fold_push(lv.subrange(0, i as int), (false, Seq::empty()), ln);
            assert(lines.deep_view()[i as int] == lines@[i as int]@);
        }
        let t = trim_chars(&lines[i]);
        let tn = t.len();
        if tn == 0 {
        } else if t[0] == '#' {
        } else if t[0] == '[' {
            in_entry = chars_eq_str(&t, "[Desktop Entry]");
        } else if !in_entry {
        } else {
            let eq = find_char(&t, '=');
            if eq < tn {
                let keyc = trim_chars(&sub_chars(&t, 0, eq));
                let valc = trim_chars(&sub_chars(&t, eq + 1, tn));
                let ghost old_vd = values.deep_view();
                let ghost kd = keyc@;
                let ghost vd = valc@;
                values.push((chars_string(&keyc), chars_string(&valc)));
                proof {
                    assert(values.deep_view() =~~= old_vd.push((kd, vd)));
                }
            }
        }
        i = i + 1;
    }
    proof {
        assert(lv.subrange(0, n as int) =~= lv);
    }
    values
}

/// Whether the pairs hold the boolean literal `true` under `key`.
fn truthy_value(values: &Vec<(String, String)>, key: &str) -> (r: bool)
    ensures
        r == truthy(values.deep_view(), key@),
{
    let kc = str_chars(key);
    match kv_get(values, &kc) {
        Some(v) => str_eq(v.as_str(), "true"),
        None => false,
    }
}

/// The `;`-separated fields under `key`, or none when it is absent.
fn listed_value(values: &Vec<(String, String)>, key: &str) -> (r: Vec<String>)
    ensures
        r.deep_view() == listed(values.deep_view(), key@),
{
    let kc = str_chars(key);
    match kv_get(values, &kc) {
        Some(v) => {
            let fields = split_list(&str_chars(v.as_str()), ';');
            strings_of(&fields)
        },
        None => {
            let r: Vec<String> = Vec::new();
            proof {
                assert(r.deep_view() =~= Seq::<Seq<char>>::empty());
            }
            r
        },
    }
}

/// The file-name part of the path: everything after its last `/`.
pub fn base_name_str(path: &str) -> (r: String)
    ensures
        r@ == base_name(path@),
{
    let p = str_chars(path);
    let n = p.len();
    let mut k: usize = 0;
    let mut i: usize = 0;
    while i < n
        invariant
            k <= i <= n,
            n == p@.len(),
            k > 0 ==> p@[k - 1] == '/',
            forall|j: int| k <= j < i ==> p@[j] != '/',
        decreases n - i,
    {
        if p[i] == '/' {
            k = i + 1;
        }
        i = i + 1;
    }
    let tail = sub_chars(&p, k, n);
    proof {
        lemma_base_name_suffix(p@, k as int);
    }
    chars_string(&tail)
}

/// [`base_name`] is the suffix after the last slash.
proof fn lemma_base_name_suffix(p: Seq<char>, k: int)
    requires
        0 <= k <= p.len(),
        k > 0 ==> p[k - 1] == '/',
        forall|j: int| k <= j < p.len() ==> p[j] != '/',
    ensures
        base_name(p) == p.subrange(k, p.len() as int),
    decreases p.len(),
{
    crate::strutil::lemma_find_ch(p, '/');
    let f = find_ch(p, '/');
    if f == p.len() {
        assert(k == 0) by {
            if k > 0 {
                assert(p[k - 1] == '/');
            }
        }
        assert(p.subrange(0, p.len() as int) =~= p);
    } else {
        let rest = p.subrange(f + 1, p.len() as int);
        assert(k >= f + 1) by {
            if k <= f {
                assert(p[f] == '/');
            }
        }
        assert(forall|j: int|
            k - f - 1 <= j < rest.len() ==> rest[j] == p[j + f + 1]);
        if k - f - 1 > 0 {
            assert(rest[k - f - 2] == p[k - 1]);
        }
        lemma_base_name_suffix(rest, k - f - 1);
        assert(rest.subrange(k - f - 1, rest.len() as int) =~= p.subrange(k, p.len() as int));
    }
}

} // verus!
