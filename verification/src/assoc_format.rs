//! The line-oriented association-list file format.
//!
//! Blank lines and `#` comments are ignored, `[Section Name]` switches the
//! current section, and a `key=v1;v2;...` line inside one of the three
//! recognised sections binds a MIME type to a list of application ids. The
//! parse is specified as a fold over the file's lines, so that the
//! serialiser in this crate can be proved to be its inverse.

use vstd::prelude::*;

use crate::listmap::EntrySeq;
use crate::mimeapps::ParsedMimeApps;
use crate::strutil::find_ch;
use crate::strutil::find_char;
use crate::strutil::chars_eq_str;
use crate::strutil::chars_string;
use crate::strutil::split_ch;
use crate::strutil::split_fields;
use crate::strutil::split_list;
use crate::strutil::split_raw;
use crate::strutil::str_chars;
use crate::strutil::strings_of;
use crate::strutil::sub_chars;
use crate::strutil::trim_chars;
use crate::strutil::trim_spec;

verus! {

/// The section of an association-list file a line belongs to.
#[derive(Debug, Clone, Copy, PartialEq, Eq, Structural)]
pub enum AssocSection {
    Defaults,
    Added,
    Removed,
    Other,
}

/// Which section a bracketed header name selects.
pub open spec fn section_of(name: Seq<char>) -> AssocSection {
    if name == "Default Applications"@ {
        AssocSection::Defaults
    } else if name == "Added Associations"@ {
        AssocSection::Added
    } else if name == "Removed Associations"@ {
        AssocSection::Removed
    } else {
        AssocSection::Other
    }
}

/// The state of a parse in progress: the current section and the three
/// mappings collected so far.
pub ghost struct ParseState {
    pub section: AssocSection,
    pub defaults: Map<Seq<char>, Seq<Seq<char>>>,
    pub added: Map<Seq<char>, Seq<Seq<char>>>,
    pub removed: Map<Seq<char>, Seq<Seq<char>>>,
}

/// Before any line: no section recognised, nothing collected.
pub open spec fn init_state() -> ParseState {
    ParseState {
        section: AssocSection::Other,
        defaults: Map::empty(),
        added: Map::empty(),
        removed: Map::empty(),
    }
}

/// The key and value list of a `key=v1;v2;...` line: the key is the trimmed
/// text before the first `=`, the values are the `;`-separated fields after
/// it, trimmed, with empty fields dropped. A line without `=`, or one whose
/// value list comes out empty, binds nothing.
pub open spec fn parse_kv(line: Seq<char>) -> Option<(Seq<char>, Seq<Seq<char>>)> {
    let t = trim_spec(line);
    let i = find_ch(t, '=');
    if i == t.len() {
        None
    } else {
        let k = trim_spec(t.subrange(0, i));
        let vs = split_fields(t.subrange(i + 1, t.len() as int), ';');
        if vs.len() == 0 {
            None
        } else {
            Some((k, vs))
        }
    }
}

/// One line of input applied to the parse state.
pub open spec fn line_step(st: ParseState, line: Seq<char>) -> ParseState {
    let t = trim_spec(line);
    if t.len() == 0 || t[0] == '#' {
        st
    } else if t[0] == '[' && t.last() == ']' {
        ParseState {
            section: section_of(t.subrange(1, t.len() - 1)),
            defaults: st.defaults,
            added: st.added,
            removed: st.removed,
        }
    } else {
        match parse_kv(line) {
            None => st,
            Some((k, vs)) => match st.section {
                AssocSection::Defaults => ParseState {
                    section: st.section,
                    defaults: st.defaults.insert(k, vs),
                    added: st.added,
                    removed: st.removed,
                },
                AssocSection::Added => ParseState {
                    section: st.section,
                    defaults: st.defaults,
                    added: st.added.insert(k, vs),
                    removed: st.removed,
                },
                AssocSection::Removed => ParseState {
                    section: st.section,
                    defaults: st.defaults,
                    added: st.added,
                    removed: st.removed.insert(k, vs),
                },
                AssocSection::Other => st,
            },
        }
    }
}

/// The lines of input folded into the state, first line first.
pub open spec fn parse_fold(lines: Seq<Seq<char>>, st: ParseState) -> ParseState
    decreases lines.len(),
{
    if lines.len() == 0 {
        st
    } else {
        parse_fold(lines.drop_first(), line_step(st, lines[0]))
    }
}

/// A fold over one more line at the end applies [`line_step`] last.
pub proof fn lemma_parse_fold_push(lines: Seq<Seq<char>>, st: ParseState, x: Seq<char>)
    ensures
        parse_fold(lines.push(x), st) == line_step(parse_fold(lines, st), x),
    decreases lines.len(),
{
    reveal_with_fuel(parse_fold, 2);
    if lines.len() == 0 {
        assert(lines.push(x)[0] == x);
        assert(lines.push(x).drop_first() =~= Seq::<Seq<char>>::empty());
        assert(parse_fold(lines.push(x).drop_first(), line_step(st, x)) == line_step(st, x));
    } else {
        assert(lines.push(x)[0] == lines[0]);
        assert(lines.push(x).drop_first() =~= lines.drop_first().push(x));
        lemma_parse_fold_push(lines.drop_first(), line_step(st, lines[0]), x);
    }
}

/// The complete parse of one file's content: its lines folded from the
/// initial state.
pub open spec fn parse_model(content: Seq<char>) -> ParseState {
    parse_fold(split_ch(content, '\n'), init_state())
}

impl ParsedMimeApps {
    /// Parses one association-list file's text into its three mappings.
    pub fn parse(content: &str) -> (r: ParsedMimeApps)
        ensures
            r.wf(),
            r.default_apps.map_view() == parse_model(content@).defaults,
            r.added_associations.map_view() == parse_model(content@).added,
            r.removed_associations.map_view() == parse_model(content@).removed,
    {
        let chars = str_chars(content);
        let lines = split_raw(&chars, '\n');
        let ghost lv = lines.deep_view();
        let mut acc = ParsedMimeApps::empty();
        let mut sec = AssocSection::Other;
        let n = lines.len();
        proof {
            assert(lv.subrange(0, 0) =~= Seq::<Seq<char>>::empty());
        }
        let mut i: usize = 0;
        while i < n
            invariant
                i <= n,
                n == lines@.len(),
                lv == lines.deep_view(),
                lv.len() == lines@.len(),
                lv == split_ch(content@, '\n'),
                acc.wf(),
                sec == parse_fold(lv.subrange(0, i as int), init_state()).section,
                acc.default_apps.map_view() == parse_fold(
                    lv.subrange(0, i as int),
                    init_state(),
                ).defaults,
                acc.added_associations.map_view() == parse_fold(
                    lv.subrange(0, i as int),
                    init_state(),
                ).added,
                acc.removed_associations.map_view() == parse_fold(
                    lv.subrange(0, i as int),
                    init_state(),
                ).removed,
            decreases n - i,
        {
            let ghost cur = parse_fold(lv.subrange(0, i as int), init_state());
            let ghost ln = lv[i as int];
            proof {
                assert(lv.subrange(0, i + 1) =~= lv.subrange(0, i as int).push(ln));
                lemma_parse_fold_push(lv.subrange(0, i as int), init_state(), ln);
                assert(lines.deep_view()[i as int] == lines@[i as int]@);
            }
            let t = trim_chars(&lines[i]);
            let tn = t.len();
            if tn == 0 {
            } else if t[0] == '#' {
            } else if t[0] == '[' && t[tn - 1] == ']' {
                let inner = sub_chars(&t, 1, tn - 1);
                if chars_eq_str(&inner, "Default Applications") {
                    sec = AssocSection::Defaults;
                } else if chars_eq_str(&inner, "Added Associations") {
                    sec = AssocSection::Added;
                } else if chars_eq_str(&inner, "Removed Associations") {
                    sec = AssocSection::Removed;
                } else {
                    sec = AssocSection::Other;
                }
                proof {
                    assert(t@.last() == t@[tn - 1]);
                    assert(sec == section_of(trim_spec(ln).subrange(1, trim_spec(ln).len() - 1)));
                }
            } else {
                let eq = find_char(&t, '=');
                if eq < tn {
                    let key_part = sub_chars(&t, 0, eq);
                    let keyc = trim_chars(&key_part);
                    let valc = sub_chars(&t, eq + 1, tn);
                    let vals = split_list(&valc, ';');
                    proof {
                        assert(t@.last() == t@[tn - 1]);
                        assert(parse_kv(ln) == if vals.deep_view().len() == 0 {
                            Option::<(Seq<char>, Seq<Seq<char>>)>::None
                        } else {
                            Some((keyc@, vals.deep_view()))
                        });
                    }
                    if vals.len() > 0 {
                        let key = chars_string(&keyc);
                        let list = strings_of(&vals);
                        match sec {
                            AssocSection::Defaults => {
                                acc.default_apps.insert(key, list);
                            },
                            AssocSection::Added => {
                                acc.added_associations.insert(key, list);
                            },
                            AssocSection::Removed => {
                                acc.removed_associations.insert(key, list);
                            },
                            AssocSection::Other => {},
                        }
                    }
                } else {
                    proof {
                        assert(t@.last() == t@[tn - 1]);
                        assert(parse_kv(ln) is None);
                    }
                }
            }
            i = i + 1;
        }
        proof {
            assert(lv.subrange(0, n as int) =~= lv);
        }
        acc
    }
}

/// The value list of one line: the fields joined with `;`.
pub open spec fn join_semi(vs: Seq<Seq<char>>) -> Seq<char>
    decreases vs.len(),
{
    if vs.len() == 0 {
        Seq::empty()
    } else if vs.len() == 1 {
        vs[0]
    } else {
        vs[0] + seq![';'] + join_semi(vs.drop_first())
    }
}

/// One serialised binding: `key=v1;v2`, with a trailing `;` for the list
/// sections.
pub open spec fn format_kv(k: Seq<char>, vs: Seq<Seq<char>>, trailing: bool) -> Seq<char> {
    k + seq!['='] + join_semi(vs) + (if trailing {
        seq![';']
    } else {
        Seq::<char>::empty()
    })
}

/// The serialised lines of one section's entries.
pub open spec fn kv_lines(entries: EntrySeq, trailing: bool) -> Seq<Seq<char>> {
    entries.map_values(|e: (Seq<char>, Seq<Seq<char>>)| format_kv(e.0, e.1, trailing))
}

/// One serialised section: its bracketed header, then its bindings.
pub open spec fn section_lines(name: Seq<char>, entries: EntrySeq, trailing: bool) -> Seq<
    Seq<char>,
> {
    seq![seq!['['] + name + seq![']']] + kv_lines(entries, trailing)
}

/// Every line of a serialised store: each section only if it has entries,
/// a blank line after a section that another may follow.
pub open spec fn store_lines(d: EntrySeq, a: EntrySeq, rm: EntrySeq) -> Seq<Seq<char>> {
    (if d.len() > 0 {
        section_lines("Default Applications"@, d, false) + seq![Seq::<char>::empty()]
    } else {
        Seq::<Seq<char>>::empty()
    }) + (if a.len() > 0 {
        section_lines("Added Associations"@, a, true) + seq![Seq::<char>::empty()]
    } else {
        Seq::<Seq<char>>::empty()
    }) + (if rm.len() > 0 {
        section_lines("Removed Associations"@, rm, true)
    } else {
        Seq::<Seq<char>>::empty()
    })
}

/// The lines joined into file text, each terminated by a newline.
pub open spec fn join_lines(lines: Seq<Seq<char>>) -> Seq<char>
    decreases lines.len(),
{
    if lines.len() == 0 {
        Seq::empty()
    } else {
        lines[0] + seq!['\n'] + join_lines(lines.drop_first())
    }
}

/// A value list field that serialises faithfully: non-empty, trimmed, and
/// free of line breaks and separators.
pub open spec fn clean_field(v: Seq<char>) -> bool {
    v.len() > 0 && crate::strutil::is_trimmed(v) && (forall|i: int|
        0 <= i < v.len() ==> (#[trigger] v[i]) != '\n' && v[i] != ';')
}

/// A key that serialises faithfully: trimmed, free of line breaks and of
/// `=`, and not opening a comment or a section header.
pub open spec fn clean_key(k: Seq<char>) -> bool {
    crate::strutil::is_trimmed(k) && (k.len() > 0 ==> (k[0] != '[' && k[0] != '#')) && (forall|i: int|
        0 <= i < k.len() ==> (#[trigger] k[i]) != '\n' && k[i] != '=')
}

/// Entries that serialise faithfully: clean keys, and non-empty lists of
/// clean fields.
pub open spec fn clean_entries(m: EntrySeq) -> bool {
    forall|i: int|
        0 <= i < m.len() ==> clean_key((#[trigger] m[i]).0) && m[i].1.len() > 0 && (forall|j: int|
            0 <= j < m[i].1.len() ==> clean_field(#[trigger] m[i].1[j]))
}

/// The one entry sequence a mapping serialises as: keys pairwise
/// distinct and sorted ascending, each bound to the mapping's list.
/// For a given mapping exactly one such sequence exists.
pub open spec fn canonical_entries(m: EntrySeq, target: Map<Seq<char>, Seq<Seq<char>>>) -> bool {
    &&& crate::listmap::distinct_keys(m)
    &&& crate::listmap::as_map(m) == target
    &&& forall|i: int, j: int|
        0 <= i < j < m.len() ==> crate::strutil::lex_le((#[trigger] m[i]).0, (#[trigger] m[j]).0)
}

/// Two canonical entry sequences of the same mapping are equal: the
/// serialised text is a function of the mapping alone.
pub proof fn lemma_canonical_entries_unique(
    a: EntrySeq,
    b: EntrySeq,
    m: Map<Seq<char>, Seq<Seq<char>>>,
)
    requires
        canonical_entries(a, m),
        canonical_entries(b, m),
    ensures
        a == b,
    decreases a.len(),
{
    if a.len() == 0 {
        if b.len() > 0 {
            crate::listmap::lemma_key_index_is(b, b[0].0, 0);
            assert(crate::listmap::as_map(b).contains_key(b[0].0));
            assert(crate::listmap::as_map(a).contains_key(b[0].0));
            crate::listmap::lemma_key_index(a, b[0].0);
        }
        assert(a =~= b);
    } else if b.len() == 0 {
        crate::listmap::lemma_key_index_is(a, a[0].0, 0);
        assert(crate::listmap::as_map(a).contains_key(a[0].0));
        assert(crate::listmap::as_map(b).contains_key(a[0].0));
        crate::listmap::lemma_key_index(b, a[0].0);
        assert(a =~= b);
    } else {
        let ka = a[0].0;
        let kb = b[0].0;
        crate::listmap::lemma_key_index_is(a, ka, 0);
        crate::listmap::lemma_key_index_is(b, kb, 0);
        // each head key is the least key of the shared domain
        assert(crate::strutil::lex_le(kb, ka)) by {
            assert(crate::listmap::as_map(b).contains_key(ka));
            crate::listmap::lemma_key_index(b, ka);
            let ib = crate::listmap::key_index(b, ka);
            if ib > 0 {
                assert(crate::strutil::lex_le(b[0].0, b[ib].0));
            } else {
                crate::strutil::lemma_lex_total(kb, ka);
            }
        }
        assert(crate::strutil::lex_le(ka, kb)) by {
            assert(crate::listmap::as_map(a).contains_key(kb));
            crate::listmap::lemma_key_index(a, kb);
            let ia = crate::listmap::key_index(a, kb);
            if ia > 0 {
                assert(crate::strutil::lex_le(a[0].0, a[ia].0));
            } else {
                crate::strutil::lemma_lex_total(ka, kb);
            }
        }
        crate::strutil::lemma_lex_total(ka, kb);
        assert(ka == kb);
        assert(a[0].1 == m[ka] && b[0].1 == m[ka]);
        let a1 = a.drop_first();
        let b1 = b.drop_first();
        assert(a1 =~= a.remove(0));
        assert(b1 =~= b.remove(0));
        crate::listmap::lemma_as_map_remove(a, 0);
        crate::listmap::lemma_as_map_remove(b, 0);
        assert(canonical_entries(a1, m.remove(ka))) by {
            assert(forall|i: int| 0 <= i < a1.len() ==> (#[trigger] a1[i]) == a[i + 1]);
        }
        assert(canonical_entries(b1, m.remove(ka))) by {
            assert(forall|i: int| 0 <= i < b1.len() ==> (#[trigger] b1[i]) == b[i + 1]);
        }
        lemma_canonical_entries_unique(a1, b1, m.remove(ka));
        assert(a[0] == b[0]);
        assert(a =~= b) by {
            assert(forall|i: int| 0 < i < a.len() ==> (#[trigger] a[i]) == a1[i - 1]);
            assert(forall|i: int| 0 < i < b.len() ==> (#[trigger] b[i]) == b1[i - 1]);
        }
    }
}

/// Splitting joined lines recovers them, when no line holds a newline.
pub proof fn lemma_split_join(lines: Seq<Seq<char>>)
    requires
        forall|i: int| 0 <= i < lines.len() ==> crate::no_newline(#[trigger] lines[i]),
    ensures
        split_ch(join_lines(lines), '\n') == lines,
    decreases lines.len(),
{
    if lines.len() > 0 {
        let l0 = lines[0];
        let s = join_lines(lines);
        let rest = join_lines(lines.drop_first());
        assert forall|i: int| 0 <= i < l0.len() implies s[i] != '\n' by {
            assert(s[i] == l0[i]);
        }
        assert(s[l0.len() as int] == '\n');
        crate::strutil::lemma_find_ch_is(s, '\n', l0.len() as int);
        assert(s.subrange(0, l0.len() as int) =~= l0);
        assert(s.subrange(l0.len() as int + 1, s.len() as int) =~= rest);
        assert(forall|i: int|
            0 <= i < lines.drop_first().len() ==> crate::no_newline(
                #[trigger] lines.drop_first()[i],
            ));
        lemma_split_join(lines.drop_first());
        assert(split_ch(s, '\n') =~= lines);
    } else {
        assert(split_ch(join_lines(lines), '\n') =~= lines);
    }
}

/// Splitting a joined value list on `;` recovers the fields.
proof fn lemma_split_ch_join_semi(vs: Seq<Seq<char>>, trailing: bool)
    requires
        vs.len() > 0,
        forall|j: int| 0 <= j < vs.len() ==> clean_field(#[trigger] vs[j]),
    ensures
        split_ch(
            join_semi(vs) + (if trailing {
                seq![';']
            } else {
                Seq::<char>::empty()
            }),
            ';',
        ) == vs,
    decreases vs.len(),
{
    let tail: Seq<char> = if trailing {
        seq![';']
    } else {
        Seq::empty()
    };
    let s = join_semi(vs) + tail;
    if vs.len() == 1 {
        let v0 = vs[0];
        assert(join_semi(vs) == v0);
        if trailing {
            assert forall|i: int| 0 <= i < v0.len() implies s[i] != ';' by {
                assert(s[i] == v0[i]);
            }
            assert(s[v0.len() as int] == ';');
            crate::strutil::lemma_find_ch_is(s, ';', v0.len() as int);
            assert(s.subrange(0, v0.len() as int) =~= v0);
            assert(s.subrange(v0.len() as int + 1, s.len() as int) =~= Seq::<char>::empty());
            assert(split_ch(Seq::<char>::empty(), ';') =~= Seq::<Seq<char>>::empty());
            assert(split_ch(s, ';') =~= vs);
        } else {
            assert(s =~= v0);
            assert forall|i: int| 0 <= i < s.len() implies s[i] != ';' by {
                assert(s[i] == v0[i]);
            }
            crate::strutil::lemma_find_ch_is(s, ';', s.len() as int);
            assert(split_ch(s, ';') =~= vs);
        }
    } else {
        let v0 = vs[0];
        let rest = join_semi(vs.drop_first()) + tail;
        assert(join_semi(vs) == v0 + seq![';'] + join_semi(vs.drop_first()));
        assert forall|i: int| 0 <= i < v0.len() implies s[i] != ';' by {
            assert(s[i] == v0[i]);
        }
        assert(s[v0.len() as int] == ';');
        crate::strutil::lemma_find_ch_is(s, ';', v0.len() as int);
        assert(s.subrange(0, v0.len() as int) =~= v0);
        assert(s.subrange(v0.len() as int + 1, s.len() as int) =~= rest);
        assert(forall|j: int|
            0 <= j < vs.drop_first().len() ==> clean_field(#[trigger] vs.drop_first()[j]));
        lemma_split_ch_join_semi(vs.drop_first(), trailing);
        assert(split_ch(s, ';') =~= vs);
    }
}

/// A sequence of non-empty trimmed fields survives the trim-and-filter.
proof fn lemma_fields_id(vs: Seq<Seq<char>>)
    requires
        forall|j: int| 0 <= j < vs.len() ==> clean_field(#[trigger] vs[j]),
    ensures
        vs.map_values(|p: Seq<char>| trim_spec(p)).filter(|p: Seq<char>| p.len() > 0) == vs,
    decreases vs.len(),
{
    reveal(Seq::filter);
    if vs.len() == 0 {
        assert(vs.map_values(|p: Seq<char>| trim_spec(p)) =~= vs);
    } else {
        assert(forall|j: int|
            0 <= j < vs.drop_last().len() ==> clean_field(#[trigger] vs.drop_last()[j]));
        lemma_fields_id(vs.drop_last());
        let mapped = vs.map_values(|p: Seq<char>| trim_spec(p));
        assert(mapped.drop_last() =~= vs.drop_last().map_values(|p: Seq<char>| trim_spec(p)));
        crate::strutil::lemma_trim_of_trimmed(vs.last());
        assert(mapped.last() == vs.last());
        assert(mapped.filter(|p: Seq<char>| p.len() > 0) =~= vs);
    }
}

/// The last character of a joined value list is the last field's last.
proof fn lemma_join_semi_shape(vs: Seq<Seq<char>>)
    requires
        vs.len() > 0,
        forall|j: int| 0 <= j < vs.len() ==> clean_field(#[trigger] vs[j]),
    ensures
        join_semi(vs).len() > 0,
        join_semi(vs).last() == vs.last().last(),
        forall|i: int| 0 <= i < join_semi(vs).len() ==> (#[trigger] join_semi(vs)[i]) != '\n',
    decreases vs.len(),
{
    if vs.len() == 1 {
    } else {
        assert(forall|j: int|
            0 <= j < vs.drop_first().len() ==> clean_field(#[trigger] vs.drop_first()[j]));
        lemma_join_semi_shape(vs.drop_first());
        let s = join_semi(vs);
        assert(s == vs[0] + seq![';'] + join_semi(vs.drop_first()));
        assert(vs.drop_first().last() == vs.last());
        assert forall|i: int| 0 <= i < s.len() implies (#[trigger] s[i]) != '\n' by {
            if i < vs[0].len() {
                assert(s[i] == vs[0][i]);
            } else if i > vs[0].len() {
                assert(s[i] == join_semi(vs.drop_first())[i - vs[0].len() - 1]);
            }
        }
    }
}

/// One serialised binding parses back to exactly its key and fields.
proof fn lemma_parse_kv_format(k: Seq<char>, vs: Seq<Seq<char>>, trailing: bool)
    requires
        clean_key(k),
        vs.len() > 0,
        forall|j: int| 0 <= j < vs.len() ==> clean_field(#[trigger] vs[j]),
    ensures
        crate::no_newline(format_kv(k, vs, trailing)),
        trim_spec(format_kv(k, vs, trailing)) == format_kv(k, vs, trailing),
        format_kv(k, vs, trailing).len() > 0,
        format_kv(k, vs, trailing)[0] != '#',
        !(format_kv(k, vs, trailing)[0] == '[' && format_kv(k, vs, trailing).last() == ']'),
        parse_kv(format_kv(k, vs, trailing)) == Some((k, vs)),
{
    let line = format_kv(k, vs, trailing);
    let joined = join_semi(vs);
    lemma_join_semi_shape(vs);
    assert(line.len() == k.len() + 1 + joined.len() + (if trailing {
        1int
    } else {
        0int
    }));
    assert(line[k.len() as int] == '=');
    assert forall|i: int| 0 <= i < line.len() implies (#[trigger] line[i]) != '\n' by {
        if i < k.len() {
            assert(line[i] == k[i]);
        } else if i > k.len() && i < k.len() + 1 + joined.len() {
            assert(line[i] == joined[i - k.len() - 1]);
        }
    }
    // the line is its own trim
    assert(line[0] == (if k.len() > 0 {
        k[0]
    } else {
        '='
    }));
    assert(line.last() == (if trailing {
        ';'
    } else {
        vs.last().last()
    })) by {
        if !trailing {
            assert(line =~= k + seq!['='] + joined);
            assert(line.last() == joined.last());
        }
    }
    assert(!crate::strutil::is_space(line[0]));
    assert(!crate::strutil::is_space(line.last()));
    crate::strutil::lemma_trim_of_trimmed(line);
    // the first `=` sits right after the key
    assert forall|i: int| 0 <= i < k.len() implies (#[trigger] line[i]) != '=' by {
        assert(line[i] == k[i]);
    }
    crate::strutil::lemma_find_ch_is(line, '=', k.len() as int);
    assert(line.subrange(0, k.len() as int) =~= k);
    crate::strutil::lemma_trim_of_trimmed(k);
    assert(line.subrange(k.len() as int + 1, line.len() as int) =~= joined + (if trailing {
        seq![';']
    } else {
        Seq::<char>::empty()
    }));
    lemma_split_ch_join_semi(vs, trailing);
    lemma_fields_id(vs);
    assert(parse_kv(line) == Some((k, vs)));
}

/// The mapping after binding each entry's key in order.
pub open spec fn insert_all(
    m: Map<Seq<char>, Seq<Seq<char>>>,
    entries: EntrySeq,
) -> Map<Seq<char>, Seq<Seq<char>>>
    decreases entries.len(),
{
    if entries.len() == 0 {
        m
    } else {
        insert_all(m.insert(entries[0].0, entries[0].1), entries.drop_first())
    }
}

/// Folding a serialised section's bindings inserts exactly its entries
/// into the mapping of the current section.
proof fn lemma_fold_kv_lines(entries: EntrySeq, st: ParseState, trailing: bool)
    requires
        clean_entries(entries),
    ensures
        parse_fold(kv_lines(entries, trailing), st) == (match st.section {
            AssocSection::Defaults => ParseState {
                section: st.section,
                defaults: insert_all(st.defaults, entries),
                added: st.added,
                removed: st.removed,
            },
            AssocSection::Added => ParseState {
                section: st.section,
                defaults: st.defaults,
                added: insert_all(st.added, entries),
                removed: st.removed,
            },
            AssocSection::Removed => ParseState {
                section: st.section,
                defaults: st.defaults,
                added: st.added,
                removed: insert_all(st.removed, entries),
            },
            AssocSection::Other => st,
        }),
    decreases entries.len(),
{
    if entries.len() == 0 {
        assert(kv_lines(entries, trailing) =~= Seq::<Seq<char>>::empty());
    } else {
        let e0 = entries[0];
        let lines = kv_lines(entries, trailing);
        assert(lines[0] == format_kv(e0.0, e0.1, trailing));
        assert(lines.drop_first() =~= kv_lines(entries.drop_first(), trailing));
        lemma_parse_kv_format(e0.0, e0.1, trailing);
        let st1 = line_step(st, lines[0]);
        assert(forall|i: int|
            0 <= i < entries.drop_first().len() ==> (#[trigger] entries.drop_first()[i])
                == entries[i + 1]);
        lemma_fold_kv_lines(entries.drop_first(), st1, trailing);
    }
}

/// Binding distinct entries over any base mapping gives the entries'
/// own mapping on their keys, the base elsewhere.
pub proof fn lemma_insert_all(m: Map<Seq<char>, Seq<Seq<char>>>, entries: EntrySeq)
    requires
        crate::listmap::distinct_keys(entries),
    ensures
        forall|k: Seq<char>|
            crate::listmap::has_key(entries, k) ==> #[trigger] insert_all(m, entries).contains_key(
                k,
            ) && insert_all(m, entries)[k] == crate::listmap::list_of(entries, k),
        forall|k: Seq<char>|
            !crate::listmap::has_key(entries, k) ==> #[trigger] insert_all(m, entries).contains_key(
                k,
            ) == m.contains_key(k) && (m.contains_key(k) ==> insert_all(m, entries)[k] == m[k]),
    decreases entries.len(),
{
    if entries.len() > 0 {
        let e0 = entries[0];
        let m1 = m.insert(e0.0, e0.1);
        let rest = entries.drop_first();
        assert(forall|i: int| 0 <= i < rest.len() ==> (#[trigger] rest[i]) == entries[i + 1]);
        assert(crate::listmap::distinct_keys(rest));
        lemma_insert_all(m1, rest);
        assert forall|k: Seq<char>| true implies (crate::listmap::has_key(entries, k) == (k == e0.0
            || crate::listmap::has_key(rest, k))) && (crate::listmap::has_key(entries, k)
            ==> crate::listmap::list_of(entries, k) == (if k == e0.0 {
            e0.1
        } else {
            crate::listmap::list_of(rest, k)
        })) by {
            crate::listmap::lemma_key_index(rest, k);
            if k == e0.0 {
                crate::listmap::lemma_key_index_is(entries, k, 0);
                if crate::listmap::has_key(rest, k) {
                    let j = crate::listmap::key_index(rest, k);
                    assert(rest[j] == entries[j + 1]);
                    assert(entries[j + 1].0 == entries[0].0);
                }
            } else {
                if crate::listmap::has_key(rest, k) {
                    let j = crate::listmap::key_index(rest, k);
                    assert forall|q: int| 0 <= q < j + 1 implies (#[trigger] entries[q].0)
                        != k by {
                        if q > 0 {
                            assert(entries[q] == rest[q - 1]);
                        }
                    }
                    crate::listmap::lemma_key_index_is(entries, k, j + 1);
                } else {
                    assert forall|q: int| 0 <= q < entries.len() implies (#[trigger] entries[q].0)
                        != k by {
                        if q > 0 {
                            assert(entries[q] == rest[q - 1]);
                        }
                    }
                    crate::listmap::lemma_key_index_is(entries, k, entries.len() as int);
                }
            }
        }
        assert forall|k: Seq<char>| crate::listmap::has_key(entries, k) implies (
        #[trigger] insert_all(m, entries).contains_key(k)) && insert_all(m, entries)[k]
            == crate::listmap::list_of(entries, k) by {
            assert(insert_all(m, entries) == insert_all(m1, rest));
            if crate::listmap::has_key(rest, k) {
                crate::listmap::lemma_key_index(rest, k);
                if k == e0.0 {
                    let j = crate::listmap::key_index(rest, k);
                    assert(rest[j] == entries[j + 1]);
                    assert(entries[j + 1].0 == entries[0].0);
                }
                assert(k != e0.0);
                assert(insert_all(m1, rest).contains_key(k));
                assert(insert_all(m1, rest)[k] == crate::listmap::list_of(rest, k));
            } else {
                assert(k == e0.0);
                assert(insert_all(m1, rest).contains_key(k) == m1.contains_key(k));
                assert(m1.contains_key(k) && m1[k] == e0.1);
            }
        }
        assert forall|k: Seq<char>| !crate::listmap::has_key(entries, k) implies (
        #[trigger] insert_all(m, entries).contains_key(k)) == m.contains_key(k) && (
        m.contains_key(k) ==> insert_all(m, entries)[k] == m[k]) by {
            assert(insert_all(m, entries) == insert_all(m1, rest));
            assert(!crate::listmap::has_key(rest, k));
            assert(k != e0.0);
            assert(insert_all(m1, rest).contains_key(k) == m1.contains_key(k));
            assert(m1.contains_key(k) == m.contains_key(k));
            if m.contains_key(k) {
                assert(m1[k] == m[k]);
                assert(insert_all(m1, rest)[k] == m1[k]);
            }
        }
    }
}

/// Folding two stretches of lines is folding one after the other.
pub proof fn lemma_parse_fold_concat(a: Seq<Seq<char>>, b: Seq<Seq<char>>, st: ParseState)
    ensures
        parse_fold(a + b, st) == parse_fold(b, parse_fold(a, st)),
    decreases a.len(),
{
    if a.len() == 0 {
        assert(a + b =~= b);
    } else {
        assert((a + b)[0] == a[0]);
        assert((a + b).drop_first() =~= a.drop_first() + b);
        lemma_parse_fold_concat(a.drop_first(), b, line_step(st, a[0]));
    }
}

/// No line of one serialised section holds a newline.
proof fn lemma_section_line_no_newline(entries: EntrySeq, name: Seq<char>, trailing: bool, i: int)
    requires
        clean_entries(entries),
        crate::no_newline(name),
        0 <= i < section_lines(name, entries, trailing).len(),
    ensures
        crate::no_newline(section_lines(name, entries, trailing)[i]),
{
    let sec = section_lines(name, entries, trailing);
    if i == 0 {
        let hdr = seq!['['] + name + seq![']'];
        assert forall|j: int| 0 <= j < hdr.len() implies (#[trigger] hdr[j]) != '\n' by {
            if 0 < j < hdr.len() - 1 {
                assert(hdr[j] == name[j - 1]);
            }
        }
    } else {
        let e = entries[i - 1];
        assert(sec[i] == format_kv(e.0, e.1, trailing));
        lemma_parse_kv_format(e.0, e.1, trailing);
    }
}

/// No line of a serialised store holds a newline.
proof fn lemma_store_lines_no_newline(d: EntrySeq, a: EntrySeq, rm: EntrySeq, i: int)
    requires
        clean_entries(d),
        clean_entries(a),
        clean_entries(rm),
        0 <= i < store_lines(d, a, rm).len(),
    ensures
        crate::no_newline(store_lines(d, a, rm)[i]),
{
    let lines = store_lines(d, a, rm);
    let bd: Seq<Seq<char>> = if d.len() > 0 {
        section_lines("Default Applications"@, d, false) + seq![Seq::<char>::empty()]
    } else {
        Seq::<Seq<char>>::empty()
    };
    let ba: Seq<Seq<char>> = if a.len() > 0 {
        section_lines("Added Associations"@, a, true) + seq![Seq::<char>::empty()]
    } else {
        Seq::<Seq<char>>::empty()
    };
    let br: Seq<Seq<char>> = if rm.len() > 0 {
        section_lines("Removed Associations"@, rm, true)
    } else {
        Seq::<Seq<char>>::empty()
    };
    proof_names_no_newline();
    if i < bd.len() {
        assert(lines[i] == bd[i]);
        if i < bd.len() - 1 {
            lemma_section_line_no_newline(d, "Default Applications"@, false, i);
        }
    } else if i < bd.len() + ba.len() {
        assert(lines[i] == ba[i - bd.len()]);
        if i - bd.len() < ba.len() - 1 {
            lemma_section_line_no_newline(a, "Added Associations"@, true, i - bd.len());
        }
    } else {
        assert(lines[i] == br[i - bd.len() - ba.len()]);
        lemma_section_line_no_newline(rm, "Removed Associations"@, true, i - bd.len() - ba.len());
    }
}

/// The three section names hold no newline and are their own trims.
proof fn proof_names_no_newline()
    ensures
        crate::no_newline("Default Applications"@),
        crate::no_newline("Added Associations"@),
        crate::no_newline("Removed Associations"@),
        crate::strutil::is_trimmed("Default Applications"@),
        crate::strutil::is_trimmed("Added Associations"@),
        crate::strutil::is_trimmed("Removed Associations"@),
        "Default Applications"@.len() > 0,
        "Added Associations"@.len() > 0,
        "Removed Associations"@.len() > 0,
        "Default Applications"@ != "Added Associations"@,
        "Default Applications"@ != "Removed Associations"@,
        "Added Associations"@ != "Removed Associations"@,
        section_of("Default Applications"@) == AssocSection::Defaults,
        section_of("Added Associations"@) == AssocSection::Added,
        section_of("Removed Associations"@) == AssocSection::Removed,
{
    reveal_strlit("Default Applications");
    reveal_strlit("Added Associations");
    reveal_strlit("Removed Associations");
    assert("Default Applications"@[0] == 'D');
    assert("Added Associations"@[0] == 'A');
    assert("Removed Associations"@[0] == 'R');
}

/// One serialised section block carried through the fold: the section
/// switches, the matching mapping absorbs the entries, the others stay.
proof fn lemma_section_block(entries: EntrySeq, st: ParseState, name: Seq<char>, trailing: bool)
    requires
        clean_entries(entries),
        crate::strutil::is_trimmed(name),
        name.len() > 0,
        crate::no_newline(name),
    ensures
        parse_fold(section_lines(name, entries, trailing), st) == (match section_of(name) {
            AssocSection::Defaults => ParseState {
                section: section_of(name),
                defaults: insert_all(st.defaults, entries),
                added: st.added,
                removed: st.removed,
            },
            AssocSection::Added => ParseState {
                section: section_of(name),
                defaults: st.defaults,
                added: insert_all(st.added, entries),
                removed: st.removed,
            },
            AssocSection::Removed => ParseState {
                section: section_of(name),
                defaults: st.defaults,
                added: st.added,
                removed: insert_all(st.removed, entries),
            },
            AssocSection::Other => ParseState {
                section: section_of(name),
                defaults: st.defaults,
                added: st.added,
                removed: st.removed,
            },
        }),
        parse_fold(section_lines(name, entries, trailing) + seq![Seq::<char>::empty()], st)
            == parse_fold(section_lines(name, entries, trailing), st),
{
    let hdr = seq!['['] + name + seq![']'];
    let sec = section_lines(name, entries, trailing);
    assert(sec[0] == hdr);
    assert(sec.drop_first() =~= kv_lines(entries, trailing));
    assert(hdr.len() >= 2);
    assert(hdr[0] == '[');
    assert(hdr.last() == ']');
    assert(!crate::strutil::is_space(hdr[0]));
    assert(!crate::strutil::is_space(hdr.last()));
    crate::strutil::lemma_trim_of_trimmed(hdr);
    assert(hdr.subrange(1, hdr.len() - 1) =~= name);
    let st1 = line_step(st, hdr);
    assert(st1.section == section_of(name));
    assert(st1.defaults == st.defaults && st1.added == st.added && st1.removed == st.removed);
    lemma_fold_kv_lines(entries, st1, trailing);
    lemma_parse_fold_concat(seq![hdr], kv_lines(entries, trailing), st);
    assert(seq![hdr] + kv_lines(entries, trailing) =~= sec);
    assert(seq![hdr].drop_first() =~= Seq::<Seq<char>>::empty());
    reveal_with_fuel(parse_fold, 2);
    assert(parse_fold(seq![hdr], st) == st1);
    let fin = parse_fold(sec, st);
    lemma_parse_fold_concat(sec, seq![Seq::<char>::empty()], st);
    assert(trim_spec(Seq::<char>::empty()) =~= Seq::<char>::empty());
    assert(line_step(fin, Seq::<char>::empty()) == fin);
    assert(seq![Seq::<char>::empty()].drop_first() =~= Seq::<Seq<char>>::empty());
    assert(parse_fold(seq![Seq::<char>::empty()], fin) == fin);
}

/// The serialised store parses back to exactly its three mappings.
pub proof fn lemma_store_round_trip(d: EntrySeq, a: EntrySeq, rm: EntrySeq)
    requires
        crate::listmap::distinct_keys(d),
        crate::listmap::distinct_keys(a),
        crate::listmap::distinct_keys(rm),
        clean_entries(d),
        clean_entries(a),
        clean_entries(rm),
    ensures
        parse_model(join_lines(store_lines(d, a, rm))).defaults == crate::listmap::as_map(d),
        parse_model(join_lines(store_lines(d, a, rm))).added == crate::listmap::as_map(a),
        parse_model(join_lines(store_lines(d, a, rm))).removed == crate::listmap::as_map(rm),
{
    let lines = store_lines(d, a, rm);
    assert forall|i: int| 0 <= i < lines.len() implies crate::no_newline(#[trigger] lines[i]) by {
        lemma_store_lines_no_newline(d, a, rm, i);
    }
    lemma_split_join(lines);
    proof_names_no_newline();
    let st0 = init_state();
    let bd: Seq<Seq<char>> = if d.len() > 0 {
        section_lines("Default Applications"@, d, false) + seq![Seq::<char>::empty()]
    } else {
        Seq::<Seq<char>>::empty()
    };
    let ba: Seq<Seq<char>> = if a.len() > 0 {
        section_lines("Added Associations"@, a, true) + seq![Seq::<char>::empty()]
    } else {
        Seq::<Seq<char>>::empty()
    };
    let br: Seq<Seq<char>> = if rm.len() > 0 {
        section_lines("Removed Associations"@, rm, true)
    } else {
        Seq::<Seq<char>>::empty()
    };
    lemma_parse_fold_concat(bd + ba, br, st0);
    lemma_parse_fold_concat(bd, ba, st0);
    assert((bd + ba) + br =~= lines);
    let st1 = parse_fold(bd, st0);
    if d.len() > 0 {
        lemma_section_block(d, st0, "Default Applications"@, false);
    }
    assert(st1.defaults == insert_all(st0.defaults, d) || (d.len() == 0 && st1 == st0)) by {
        if d.len() == 0 {
            assert(bd =~= Seq::<Seq<char>>::empty());
        }
    }
    let st2 = parse_fold(ba, st1);
    if a.len() > 0 {
        lemma_section_block(a, st1, "Added Associations"@, true);
    } else {
        assert(ba =~= Seq::<Seq<char>>::empty());
    }
    let st3 = parse_fold(br, st2);
    if rm.len() > 0 {
        lemma_section_block(rm, st2, "Removed Associations"@, true);
    } else {
        assert(br =~= Seq::<Seq<char>>::empty());
    }
    assert(parse_model(join_lines(lines)) == st3);
    lemma_insert_all(Map::empty(), d);
    lemma_insert_all(Map::empty(), a);
    lemma_insert_all(Map::empty(), rm);
    assert(st3.defaults =~= crate::listmap::as_map(d));
    assert(st3.added =~= crate::listmap::as_map(a));
    assert(st3.removed =~= crate::listmap::as_map(rm));
}


/// Joining two stretches of lines is the joins, one after the other.
pub proof fn lemma_join_lines_concat(a: Seq<Seq<char>>, b: Seq<Seq<char>>)
    ensures
        join_lines(a + b) == join_lines(a) + join_lines(b),
    decreases a.len(),
{
    if a.len() == 0 {
        assert(a + b =~= b);
        assert(join_lines(a) + join_lines(b) =~= join_lines(b));
    } else {
        assert((a + b)[0] == a[0]);
        assert((a + b).drop_first() =~= a.drop_first() + b);
        lemma_join_lines_concat(a.drop_first(), b);
        assert(a[0] + seq!['\n'] + (join_lines(a.drop_first()) + join_lines(b)) =~= (a[0]
            + seq!['\n'] + join_lines(a.drop_first())) + join_lines(b));
    }
}

/// Joining one more value onto a `;`-separated list.
proof fn lemma_join_semi_snoc(vs: Seq<Seq<char>>, v: Seq<char>)
    ensures
        vs.len() == 0 ==> join_semi(vs.push(v)) == v,
        vs.len() > 0 ==> join_semi(vs.push(v)) == join_semi(vs) + seq![';'] + v,
    decreases vs.len(),
{
    reveal_with_fuel(join_semi, 3);
    if vs.len() == 0 {
        assert(vs.push(v)[0] == v);
    } else if vs.len() == 1 {
        assert(vs.push(v)[0] == vs[0]);
        assert(vs.push(v).drop_first() =~= seq![v]);
        assert(join_semi(seq![v]) == v);
    } else {
        assert(vs.push(v)[0] == vs[0]);
        assert(vs.push(v).drop_first() =~= vs.drop_first().push(v));
        lemma_join_semi_snoc(vs.drop_first(), v);
        assert((vs[0] + seq![';'] + join_semi(vs.drop_first())) + seq![';'] + v =~= vs[0]
            + seq![';'] + (join_semi(vs.drop_first()) + seq![';'] + v));
    }
}

/// Appends one serialised binding and its newline.
fn emit_kv(out: &mut Vec<char>, key: &String, vals: &Vec<String>, trailing: bool)
    ensures
        final(out)@ == old(out)@ + format_kv(key@, vals.deep_view(), trailing) + seq!['\n'],
{
    let ghost base = out@;
    crate::strutil::append_str(out, key.as_str());
    out.push('=');
    let ghost vd = vals.deep_view();
    let mut j: usize = 0;
    proof {
        assert(vd.subrange(0, 0) =~= Seq::<Seq<char>>::empty());
        assert(out@ =~= base + key@ + seq!['='] + join_semi(vd.subrange(0, 0)));
    }
    while j < vals.len()
        invariant
            j <= vals@.len(),
            vd == vals.deep_view(),
            vd.len() == vals@.len(),
            out@ == base + key@ + seq!['='] + join_semi(vd.subrange(0, j as int)),
        decreases vals@.len() - j,
    {
        if j > 0 {
            out.push(';');
        }
        proof {
            assert(vals.deep_view()[j as int] == vals@[j as int]@);
        }
        crate::strutil::append_str(out, vals[j].as_str());
        proof {
            assert(vd.subrange(0, j + 1) =~= vd.subrange(0, j as int).push(vd[j as int]));
            lemma_join_semi_snoc(vd.subrange(0, j as int), vd[j as int]);
            if j == 0 {
                assert(vd.subrange(0, 0).len() == 0);
                assert(out@ =~= base + key@ + seq!['='] + join_semi(vd.subrange(0, j + 1)));
            } else {
                assert(out@ =~= base + key@ + seq!['='] + join_semi(vd.subrange(0, j + 1)));
            }
        }
        j = j + 1;
    }
    proof {
        assert(vd.subrange(0, vd.len() as int) =~= vd);
    }
    if trailing {
        out.push(';');
    }
    out.push('\n');
    proof {
        assert(final(out)@ =~= base + format_kv(key@, vd, trailing) + seq!['\n']);
    }
}

/// Appends one serialised section: header line, then one line per entry.
fn emit_section(
    out: &mut Vec<char>,
    name: &str,
    entries: &Vec<(String, Vec<String>)>,
    trailing: bool,
)
    ensures
        final(out)@ == old(out)@ + join_lines(
            section_lines(name@, entries.deep_view(), trailing),
        ),
{
    let ghost base = out@;
    let ghost ed = entries.deep_view();
    out.push('[');
    crate::strutil::append_str(out, name);
    out.push(']');
    out.push('\n');
    let ghost hdr = seq!['['] + name@ + seq![']'];
    proof {
        assert(out@ =~= base + hdr + seq!['\n']);
        assert(ed.subrange(0, 0) =~= Seq::<(Seq<char>, Seq<Seq<char>>)>::empty());
        assert(kv_lines(ed.subrange(0, 0), trailing) =~= Seq::<Seq<char>>::empty());
        assert(out@ =~= base + hdr + seq!['\n'] + join_lines(kv_lines(ed.subrange(0, 0), trailing)));
    }
    let mut i: usize = 0;
    while i < entries.len()
        invariant
            i <= entries@.len(),
            ed == entries.deep_view(),
            ed.len() == entries@.len(),
            out@ == base + hdr + seq!['\n'] + join_lines(kv_lines(ed.subrange(0, i as int), trailing)),
        decreases entries@.len() - i,
    {
        proof {
            assert(ed[i as int].0 == entries@[i as int].0@);
            assert(ed[i as int].1 == entries@[i as int].1.deep_view());
        }
        emit_kv(out, &entries[i].0, &entries[i].1, trailing);
        proof {
            let prev = kv_lines(ed.subrange(0, i as int), trailing);
            let nextent = ed.subrange(0, i + 1);
            assert(nextent =~= ed.subrange(0, i as int).push(ed[i as int]));
            assert(kv_lines(nextent, trailing) =~= prev.push(
                format_kv(ed[i as int].0, ed[i as int].1, trailing),
            ));
            lemma_join_lines_concat(prev, seq![format_kv(ed[i as int].0, ed[i as int].1, trailing)]);
            assert(prev.push(format_kv(ed[i as int].0, ed[i as int].1, trailing)) =~= prev + seq![
                format_kv(ed[i as int].0, ed[i as int].1, trailing),
            ]);
            reveal_with_fuel(join_lines, 2);
            assert(join_lines(seq![format_kv(ed[i as int].0, ed[i as int].1, trailing)])
                =~= format_kv(ed[i as int].0, ed[i as int].1, trailing) + seq!['\n']) by {
                assert(seq![format_kv(ed[i as int].0, ed[i as int].1, trailing)].drop_first()
                    =~= Seq::<Seq<char>>::empty());
            }
            assert(out@ =~= base + hdr + seq!['\n'] + join_lines(kv_lines(nextent, trailing)));
        }
        i = i + 1;
    }
    proof {
        assert(ed.subrange(0, ed.len() as int) =~= ed);
        lemma_join_lines_concat(seq![hdr], kv_lines(ed, trailing));
        reveal_with_fuel(join_lines, 2);
        assert(join_lines(seq![hdr]) =~= hdr + seq!['\n']) by {
            assert(seq![hdr].drop_first() =~= Seq::<Seq<char>>::empty());
        }
        assert(seq![hdr] + kv_lines(ed, trailing) =~= section_lines(name@, ed, trailing));
        assert(final(out)@ =~= base + join_lines(section_lines(name@, ed, trailing)));
    }
}

impl crate::mimeapps::MimeAppsConfig {
    /// Every key and value serialises faithfully: nothing would be
    /// misread as a comment, a section header or a field separator.
    pub open spec fn clean_store(&self) -> bool {
        clean_entries(self.default_apps@) && clean_entries(self.added_associations@)
            && clean_entries(self.removed_associations@)
    }

    /// Serialises the store: each non-empty section with its keys sorted,
    /// defaults as plain lists, added and removed lists with a trailing
    /// separator. For a clean store the text parses back to exactly the
    /// three mappings, so a save followed by a load of only the written
    /// file reproduces the store.
    pub fn serialize(&self) -> (r: String)
        requires
            self.wf(),
        ensures
            exists|d: EntrySeq, a: EntrySeq, rm: EntrySeq|
                #![trigger store_lines(d, a, rm)]
                canonical_entries(d, self.default_apps.map_view()) && canonical_entries(
                    a,
                    self.added_associations.map_view(),
                ) && canonical_entries(rm, self.removed_associations.map_view()) && r@
                    == join_lines(store_lines(d, a, rm)),
            self.clean_store() ==> {
                &&& parse_model(r@).defaults == self.default_apps.map_view()
                &&& parse_model(r@).added == self.added_associations.map_view()
                &&& parse_model(r@).removed == self.removed_associations.map_view()
            },
    {
        let sd = self.default_apps.sorted_entries();
        let sa = self.added_associations.sorted_entries();
        let sr = self.removed_associations.sorted_entries();
        let ghost dv = sd.deep_view();
        let ghost av = sa.deep_view();
        let ghost rv = sr.deep_view();
        let mut out: Vec<char> = Vec::new();
        let ghost bd: Seq<Seq<char>> = if dv.len() > 0 {
            section_lines("Default Applications"@, dv, false) + seq![Seq::<char>::empty()]
        } else {
            Seq::<Seq<char>>::empty()
        };
        let ghost ba: Seq<Seq<char>> = if av.len() > 0 {
            section_lines("Added Associations"@, av, true) + seq![Seq::<char>::empty()]
        } else {
            Seq::<Seq<char>>::empty()
        };
        let ghost br: Seq<Seq<char>> = if rv.len() > 0 {
            section_lines("Removed Associations"@, rv, true)
        } else {
            Seq::<Seq<char>>::empty()
        };
        if sd.len() > 0 {
            emit_section(&mut out, "Default Applications", &sd, false);
            out.push('\n');
            proof {
                lemma_join_lines_concat(
                    section_lines("Default Applications"@, dv, false),
                    seq![Seq::<char>::empty()],
                );
                reveal_with_fuel(join_lines, 2);
                assert(join_lines(seq![Seq::<char>::empty()]) =~= seq!['\n']) by {
                    assert(seq![Seq::<char>::empty()].drop_first() =~= Seq::<Seq<char>>::empty());
                }
                assert(out@ =~= join_lines(bd));
            }
        } else {
            proof {
                assert(out@ =~= join_lines(bd));
            }
        }
        let ghost after_d = out@;
        if sa.len() > 0 {
            emit_section(&mut out, "Added Associations", &sa, true);
            out.push('\n');
            proof {
                lemma_join_lines_concat(
                    section_lines("Added Associations"@, av, true),
                    seq![Seq::<char>::empty()],
                );
                reveal_with_fuel(join_lines, 2);
                assert(join_lines(seq![Seq::<char>::empty()]) =~= seq!['\n']) by {
                    assert(seq![Seq::<char>::empty()].drop_first() =~= Seq::<Seq<char>>::empty());
                }
                assert(out@ =~= after_d + join_lines(ba));
            }
        } else {
            proof {
                assert(out@ =~= after_d + join_lines(ba));
            }
        }
        let ghost after_a = out@;
        if sr.len() > 0 {
            emit_section(&mut out, "Removed Associations", &sr, true);
            proof {
                assert(out@ =~= after_a + join_lines(br));
            }
        } else {
            proof {
                assert(out@ =~= after_a + join_lines(br));
            }
        }
        proof {
            lemma_join_lines_concat(bd + ba, br);
            lemma_join_lines_concat(bd, ba);
            assert((bd + ba) + br =~= store_lines(dv, av, rv));
            assert(out@ =~= join_lines(store_lines(dv, av, rv)));
            assert(canonical_entries(dv, self.default_apps.map_view()));
            assert(canonical_entries(av, self.added_associations.map_view()));
            assert(canonical_entries(rv, self.removed_associations.map_view()));
            if self.clean_store() {
                assert(clean_entries(dv)) by {
                    assert forall|i: int| 0 <= i < dv.len() implies clean_key(
                        (#[trigger] dv[i]).0,
                    ) && dv[i].1.len() > 0 && (forall|j: int|
                        0 <= j < dv[i].1.len() ==> clean_field(#[trigger] dv[i].1[j])) by {
                        assert(crate::listmap::entry_in(dv[i], self.default_apps@));
                        let w = choose|w: int|
                            0 <= w < self.default_apps@.len() && self.default_apps@[w] == dv[i];
                    }
                }
                assert(clean_entries(av)) by {
                    assert forall|i: int| 0 <= i < av.len() implies clean_key(
                        (#[trigger] av[i]).0,
                    ) && av[i].1.len() > 0 && (forall|j: int|
                        0 <= j < av[i].1.len() ==> clean_field(#[trigger] av[i].1[j])) by {
                        assert(crate::listmap::entry_in(av[i], self.added_associations@));
                        let w = choose|w: int|
                            0 <= w < self.added_associations@.len() && self.added_associations@[w]
                                == av[i];
                    }
                }
                assert(clean_entries(rv)) by {
                    assert forall|i: int| 0 <= i < rv.len() implies clean_key(
                        (#[trigger] rv[i]).0,
                    ) && rv[i].1.len() > 0 && (forall|j: int|
                        0 <= j < rv[i].1.len() ==> clean_field(#[trigger] rv[i].1[j])) by {
                        assert(crate::listmap::entry_in(rv[i], self.removed_associations@));
                        let w = choose|w: int|
                            0 <= w < self.removed_associations@.len()
                                && self.removed_associations@[w] == rv[i];
                    }
                }
                lemma_store_round_trip(dv, av, rv);
            }
        }
        crate::strutil::chars_string(&out)
    }
}


} // verus!
